//! A mock key-value storage with ordered range iteration, and the framing of
//! byte regions exchanged with a Wasm guest through its linear memory.
pub mod errors;
pub mod key_order;
pub mod memory;
pub mod storage;

pub use errors::{to_u32, VmError};
pub use memory::{
    get_region, maybe_read_region, read_region, set_region, write_region, MemoryDescriptor,
    MemoryInfo, Region, WasmMemory, REGION_SIZE,
};
pub use storage::{range_bounds, Bound, MockStorage, Order, KV};
