//! Reading and writing regions of a Wasm guest's linear memory.
//!
//! The guest hands the host a pointer to a `Region` header: three
//! little-endian `u32` fields (offset, capacity, length), 12 bytes in all,
//! read at the pointer rounded down to a multiple of 4. The header describes
//! a span of guest memory from `offset`: `capacity` bytes are available and
//! the first `length` of them are in use.
//!
//! Memory is accessed the way the runtime dereferences guest pointers: an
//! access of `n` bytes from address `a` succeeds only if `a + n` lies
//! strictly below the size of the memory.
use crate::errors::{to_u32, VmError};
use vstd::prelude::*;

verus! {

/// Refers to some heap allocated data in Wasm: `length` of the `capacity`
/// bytes starting at `offset` are in use.
#[derive(Default, Clone, Copy, Debug, PartialEq, Eq, Structural)]
pub struct Region {
    pub offset: u32,
    /// The number of bytes available in this region
    pub capacity: u32,
    /// The number of bytes used in this region
    pub length: u32,
}

/// A Wasm memory descriptor
#[derive(Debug, Clone)]
pub struct MemoryDescriptor {
    /// The minimum number of allowed pages
    pub minimum: u32,
    /// The maximum number of allowed pages
    pub maximum: Option<u32>,
    /// This memory can be shared between Wasm threads
    pub shared: bool,
}

#[derive(Debug, Clone)]
pub struct MemoryInfo {
    pub descriptor: MemoryDescriptor,
    /// Current memory size in pages
    pub size: u32,
}

/// The bytes of a guest's linear memory.
pub struct WasmMemory {
    bytes: Vec<u8>,
}

impl View for WasmMemory {
    type V = Seq<u8>;

    closed spec fn view(&self) -> Seq<u8> {
        self.bytes@
    }
}

/// Size in bytes of a `Region` header in guest memory.
pub const REGION_SIZE: usize = 12;

/// Address of the header that a region pointer designates: the pointer
/// rounded down to the header's 4-byte alignment.
pub open spec fn region_address(ptr: u32) -> int {
    ptr - ptr % 4
}

/// The header at `ptr` can be dereferenced in `mem`.
pub open spec fn region_accessible(mem: Seq<u8>, ptr: u32) -> bool {
    ptr + REGION_SIZE < mem.len()
}

/// `length` bytes from `offset` can be dereferenced in `mem`.
pub open spec fn span_accessible(mem: Seq<u8>, offset: u32, length: u32) -> bool {
    offset + length < mem.len()
}

/// The header that 12 bytes encode.
pub open spec fn decode_region(b: Seq<u8>) -> Region {
    Region {
        offset: vstd::bytes::spec_u32_from_le_bytes(b.subrange(0, 4)),
        capacity: vstd::bytes::spec_u32_from_le_bytes(b.subrange(4, 8)),
        length: vstd::bytes::spec_u32_from_le_bytes(b.subrange(8, 12)),
    }
}

/// The 12 bytes that encode a header.
pub open spec fn encode_region(r: Region) -> Seq<u8> {
    vstd::bytes::spec_u32_to_le_bytes(r.offset) + vstd::bytes::spec_u32_to_le_bytes(r.capacity)
        + vstd::bytes::spec_u32_to_le_bytes(r.length)
}

/// The header that `ptr` designates in `mem`.
pub open spec fn region_at(mem: Seq<u8>, ptr: u32) -> Region {
    decode_region(mem.subrange(region_address(ptr), region_address(ptr) + REGION_SIZE))
}

/// `mem` with `bytes` written from `addr` on.
pub open spec fn update_bytes(mem: Seq<u8>, addr: int, bytes: Seq<u8>) -> Seq<u8> {
    Seq::new(
        mem.len(),
        |i: int|
            if addr <= i < addr + bytes.len() {
                bytes[i - addr]
            } else {
                mem[i]
            },
    )
}

/// What reading the region at `ptr` gives: the region's bytes, unless its
/// length exceeds `max_length`, or `max_length` itself does not fit a `u32`.
pub open spec fn read_region_spec(mem: Seq<u8>, ptr: u32, max_length: usize) -> Result<
    Seq<u8>,
    VmError,
> {
    let r = region_at(mem, ptr);
    if max_length > u32::MAX {
        Err(VmError::ConversionErr { input: max_length })
    } else if r.length > max_length {
        Err(VmError::RegionLengthTooBig { length: r.length as usize, max_length })
    } else {
        Ok(mem.subrange(r.offset as int, r.offset + r.length))
    }
}

/// Reading the region at `ptr` does not fail on a memory access: its header
/// can be dereferenced and, where the read gets that far, so can its bytes.
pub open spec fn read_region_defined(mem: Seq<u8>, ptr: u32, max_length: usize) -> bool {
    &&& region_accessible(mem, ptr)
    &&& read_region_spec(mem, ptr, max_length) is Ok ==> span_accessible(
        mem,
        region_at(mem, ptr).offset,
        region_at(mem, ptr).length,
    )
}

/// The memory that writing `data` into the region at `ptr` leaves: the data
/// at the region's offset, and the header's length set to the data's length.
/// Data longer than the region's capacity is refused.
pub open spec fn write_region_spec(mem: Seq<u8>, ptr: u32, data: Seq<u8>) -> Result<
    Seq<u8>,
    VmError,
> {
    let r = region_at(mem, ptr);
    if data.len() > r.capacity {
        Err(VmError::RegionTooSmall { size: r.capacity as usize, required: data.len() as usize })
    } else {
        let written = update_bytes(mem, r.offset as int, data);
        Ok(
            update_bytes(
                written,
                region_address(ptr),
                encode_region(Region { length: data.len() as u32, ..r }),
            ),
        )
    }
}

/// Writing into the region at `ptr` does not fail on a memory access: its
/// header can be dereferenced and, where the write gets that far, so can its
/// whole capacity.
pub open spec fn write_region_defined(mem: Seq<u8>, ptr: u32, data: Seq<u8>) -> bool {
    &&& region_accessible(mem, ptr)
    &&& data.len() <= region_at(mem, ptr).capacity ==> span_accessible(
        mem,
        region_at(mem, ptr).offset,
        region_at(mem, ptr).capacity,
    )
}

pub open spec fn bytes_result_view(r: Result<Vec<u8>, VmError>) -> Result<Seq<u8>, VmError> {
    match r {
        Ok(v) => Ok(v@),
        Err(e) => Err(e),
    }
}

impl WasmMemory {
    /// A memory holding `bytes`.
    pub fn new(bytes: Vec<u8>) -> (m: Self)
        ensures
            m@ == bytes@,
    {
        WasmMemory { bytes }
    }

    /// The size of the memory fits a `usize`.
    proof fn lemma_size_fits(&self)
        ensures
            self@.len() <= usize::MAX,
    {
        assert(self.bytes.len() == self.bytes@.len());
    }

    /// The size of the memory in bytes.
    pub fn len(&self) -> (n: usize)
        ensures
            n == self@.len(),
    {
        self.bytes.len()
    }

    /// The bytes of the memory.
    pub fn as_bytes(&self) -> (b: &[u8])
        ensures
            b@ == self@,
    {
        self.bytes.as_slice()
    }

    /// The memory's bytes from `start` to `end`, copied.
    fn copy_range(&self, start: usize, end: usize) -> (v: Vec<u8>)
        requires
            start <= end <= self@.len(),
        ensures
            v@ == self@.subrange(start as int, end as int),
    {
        let mut v: Vec<u8> = Vec::new();
        let mut i: usize = start;
        while i < end
            invariant
                start <= i <= end <= self@.len(),
                v@ == self@.subrange(start as int, i as int),
            decreases end - i,
        {
            v.push(self.bytes[i]);
            i = i + 1;
            proof {
                assert(v@ =~= self@.subrange(start as int, i as int));
            }
        }
        v
    }

    /// Writes `data` into the memory from `addr` on.
    fn write_bytes(&mut self, addr: usize, data: &[u8])
        requires
            addr + data@.len() <= old(self)@.len(),
        ensures
            final(self)@ == update_bytes(old(self)@, addr as int, data@),
    {
        let ghost orig = self@;
        proof {
            self.lemma_size_fits();
        }
        let mut i: usize = 0;
        while i < data.len()
            invariant
                orig.len() <= usize::MAX,
                addr + data@.len() <= orig.len(),
                i <= data@.len(),
                self@.len() == orig.len(),
                forall|j: int|
                    0 <= j < orig.len() ==> #[trigger] self@[j] == if addr <= j < addr + i {
                        data@[j - addr]
                    } else {
                        orig[j]
                    },
            decreases data@.len() - i,
        {
            self.bytes.set(addr + i, data[i]);
            i = i + 1;
        }
        proof {
            assert(self@ =~= update_bytes(orig, addr as int, data@));
        }
    }
}

proof fn lemma_decode_encode(r: Region)
    ensures
        encode_region(r).len() == REGION_SIZE,
        decode_region(encode_region(r)) == r,
{
    vstd::bytes::lemma_auto_spec_u32_to_from_le_bytes();
    let b = encode_region(r);
    assert(b.subrange(0, 4) =~= vstd::bytes::spec_u32_to_le_bytes(r.offset));
    assert(b.subrange(4, 8) =~= vstd::bytes::spec_u32_to_le_bytes(r.capacity));
    assert(b.subrange(8, 12) =~= vstd::bytes::spec_u32_to_le_bytes(r.length));
}

/// Reads the header that `ptr` designates.
pub fn get_region(memory: &WasmMemory, ptr: u32) -> (region: Region)
    requires
        region_accessible(memory@, ptr),
    ensures
        region == region_at(memory@, ptr),
{
    proof {
        memory.lemma_size_fits();
    }
    let addr = (ptr - ptr % 4) as usize;
    let bytes = memory.as_bytes();
    let header = vstd::slice::slice_subrange(bytes, addr, addr + REGION_SIZE);
    let offset = vstd::bytes::u32_from_le_bytes(vstd::slice::slice_subrange(header, 0, 4));
    let capacity = vstd::bytes::u32_from_le_bytes(vstd::slice::slice_subrange(header, 4, 8));
    let length = vstd::bytes::u32_from_le_bytes(vstd::slice::slice_subrange(header, 8, 12));
    proof {
        let h = memory@.subrange(region_address(ptr), region_address(ptr) + REGION_SIZE);
        assert(header@ == h);
        assert(header@.subrange(0, 4) =~= h.subrange(0, 4));
        assert(header@.subrange(4, 8) =~= h.subrange(4, 8));
        assert(header@.subrange(8, 12) =~= h.subrange(8, 12));
    }
    Region { offset, capacity, length }
}

/// Overwrites the header that `ptr` designates with `region`.
pub fn set_region(memory: &mut WasmMemory, ptr: u32, region: Region)
    requires
        region_accessible(old(memory)@, ptr),
    ensures
        final(memory)@ == update_bytes(old(memory)@, region_address(ptr), encode_region(region)),
{
    proof {
        lemma_decode_encode(region);
    }
    let addr = (ptr - ptr % 4) as usize;
    let mut encoded = vstd::bytes::u32_to_le_bytes(region.offset);
    let mut capacity = vstd::bytes::u32_to_le_bytes(region.capacity);
    let mut length = vstd::bytes::u32_to_le_bytes(region.length);
    encoded.append(&mut capacity);
    encoded.append(&mut length);
    memory.write_bytes(addr, encoded.as_slice());
}

/// Reads the region that `ptr` designates and copies out the bytes in use.
/// Fails where the region holds more than `max_length` bytes, or where
/// `max_length` does not fit a `u32`.
pub fn read_region(memory: &WasmMemory, ptr: u32, max_length: usize) -> (result: Result<
    Vec<u8>,
    VmError,
>)
    requires
        read_region_defined(memory@, ptr, max_length),
    ensures
        bytes_result_view(result) == read_region_spec(memory@, ptr, max_length),
        max_length > u32::MAX ==> result == Err::<Vec<u8>, VmError>(
            VmError::ConversionErr { input: max_length },
        ),
        max_length <= u32::MAX && region_at(memory@, ptr).length > max_length ==> result == Err::<
            Vec<u8>,
            VmError,
        >(
            VmError::RegionLengthTooBig {
                length: region_at(memory@, ptr).length as usize,
                max_length,
            },
        ),
        result matches Ok(v) ==> region_at(memory@, ptr).length <= max_length <= u32::MAX
            && v@.len() == region_at(memory@, ptr).length && forall|i: int|
            0 <= i < v@.len() ==> #[trigger] v@[i] == memory@[region_at(memory@, ptr).offset + i],
{
    proof {
        law_read_region_outcome(memory@, ptr, max_length);
    }
    let region = get_region(memory, ptr);
    let max = match to_u32(max_length) {
        Ok(m) => m,
        Err(e) => {
            return Err(e);
        },
    };
    if region.length > max {
        return Err(VmError::RegionLengthTooBig { length: region.length as usize, max_length });
    }
    proof {
        memory.lemma_size_fits();
    }
    let start = region.offset as usize;
    let end = start + region.length as usize;
    let result = memory.copy_range(start, end);
    Ok(result)
}

/// Like `read_region`, but a null pointer (0) stands for no region and gives
/// `None`.
pub fn maybe_read_region(memory: &WasmMemory, ptr: u32, max_length: usize) -> (result: Result<
    Option<Vec<u8>>,
    VmError,
>)
    requires
        ptr != 0 ==> read_region_defined(memory@, ptr, max_length),
    ensures
        ptr == 0 ==> result == Ok::<Option<Vec<u8>>, VmError>(None),
        ptr != 0 ==> match read_region_spec(memory@, ptr, max_length) {
            Ok(bytes) => result matches Ok(Some(v)) && v@ == bytes,
            Err(e) => result == Err::<Option<Vec<u8>>, VmError>(e),
        },
        ptr != 0 && max_length <= u32::MAX && region_at(memory@, ptr).length > max_length
            ==> result == Err::<Option<Vec<u8>>, VmError>(
            VmError::RegionLengthTooBig {
                length: region_at(memory@, ptr).length as usize,
                max_length,
            },
        ),
        result matches Ok(Some(v)) ==> ptr != 0 && region_at(memory@, ptr).length <= max_length
            <= u32::MAX && v@.len() == region_at(memory@, ptr).length && forall|i: int|
            0 <= i < v@.len() ==> #[trigger] v@[i] == memory@[region_at(memory@, ptr).offset + i],
{
    proof {
        if ptr != 0 {
            law_read_region_outcome(memory@, ptr, max_length);
        }
    }
    if ptr == 0 {
        Ok(None)
    } else {
        match read_region(memory, ptr, max_length) {
            Ok(v) => Ok(Some(v)),
            Err(e) => Err(e),
        }
    }
}

/// Writes `data` into the region that `ptr` designates and records its
/// length in the region's header. Returns the number of bytes written. Data
/// longer than the region's capacity is refused and leaves the memory
/// unchanged.
pub fn write_region(memory: &mut WasmMemory, ptr: u32, data: &[u8]) -> (result: Result<
    usize,
    VmError,
>)
    requires
        write_region_defined(old(memory)@, ptr, data@),
    ensures
        match write_region_spec(old(memory)@, ptr, data@) {
            Ok(written) => result == Ok::<usize, VmError>(data@.len() as usize) && final(memory)@
                == written,
            Err(e) => result == Err::<usize, VmError>(e) && final(memory)@ == old(memory)@,
        },
        data@.len() > region_at(old(memory)@, ptr).capacity ==> result == Err::<usize, VmError>(
            VmError::RegionTooSmall {
                size: region_at(old(memory)@, ptr).capacity as usize,
                required: data@.len() as usize,
            },
        ) && final(memory)@ == old(memory)@,
        result matches Ok(n) ==> n == data@.len() && n <= region_at(old(memory)@, ptr).capacity
            && region_at(final(memory)@, ptr) == (Region {
            offset: region_at(old(memory)@, ptr).offset,
            capacity: region_at(old(memory)@, ptr).capacity,
            length: n as u32,
        }),
{
    proof {
        law_write_region_outcome(old(memory)@, ptr, data@);
    }
    let mut region = get_region(memory, ptr);
    let region_capacity = region.capacity as usize;
    if data.len() > region_capacity {
        return Err(VmError::RegionTooSmall { size: region_capacity, required: data.len() });
    }
    let ghost r = region;
    memory.write_bytes(region.offset as usize, data);
    region.length = data.len() as u32;
    proof {
        assert(region == Region { length: data@.len() as u32, ..r });
    }
    set_region(memory, ptr, region);
    Ok(data.len())
}

/// A header written at `ptr` is the header then read at `ptr`.
pub proof fn law_get_region_after_set_region(mem: Seq<u8>, ptr: u32, region: Region)
    requires
        region_accessible(mem, ptr),
    ensures
        region_at(update_bytes(mem, region_address(ptr), encode_region(region)), ptr) == region,
{
    lemma_decode_encode(region);
    let a = region_address(ptr);
    let m = update_bytes(mem, a, encode_region(region));
    assert(m.subrange(a, a + REGION_SIZE) =~= encode_region(region));
}

/// Encoding a header and decoding the bytes gives the header back, and
/// decoding 12 bytes and encoding the header gives the bytes back.
pub proof fn law_region_encoding_roundtrip(region: Region, bytes: Seq<u8>)
    requires
        bytes.len() == REGION_SIZE,
    ensures
        decode_region(encode_region(region)) == region,
        encode_region(decode_region(bytes)) == bytes,
{
    lemma_decode_encode(region);
    vstd::bytes::lemma_auto_spec_u32_to_from_le_bytes();
    assert(bytes.subrange(0, 4).len() == 4);
    assert(bytes.subrange(4, 8).len() == 4);
    assert(bytes.subrange(8, 12).len() == 4);
    assert(encode_region(decode_region(bytes)) =~= bytes.subrange(0, 4) + bytes.subrange(4, 8)
        + bytes.subrange(8, 12));
    assert(bytes.subrange(0, 4) + bytes.subrange(4, 8) + bytes.subrange(8, 12) =~= bytes);
}

/// Reading a region gives back what was last written into it: after a
/// write of `data` that the region's capacity admits, a read with a limit
/// of at least the data's length gives `data`, provided the data does not
/// overlap the region's own header.
pub proof fn law_read_after_write(mem: Seq<u8>, ptr: u32, data: Seq<u8>, max_length: usize)
    requires
        write_region_defined(mem, ptr, data),
        data.len() <= region_at(mem, ptr).capacity,
        region_at(mem, ptr).offset + data.len() <= region_address(ptr) || region_address(ptr)
            + REGION_SIZE <= region_at(mem, ptr).offset,
        data.len() <= max_length <= u32::MAX,
    ensures
        write_region_spec(mem, ptr, data) is Ok,
        read_region_defined(write_region_spec(mem, ptr, data)->Ok_0, ptr, max_length),
        read_region_spec(write_region_spec(mem, ptr, data)->Ok_0, ptr, max_length) == Ok::<
            Seq<u8>,
            VmError,
        >(data),
{
    let r = region_at(mem, ptr);
    let r2 = Region { length: data.len() as u32, ..r };
    let a = region_address(ptr);
    let written = update_bytes(mem, r.offset as int, data);
    let m2 = update_bytes(written, a, encode_region(r2));
    lemma_decode_encode(r2);
    assert(m2.subrange(a, a + REGION_SIZE) =~= encode_region(r2));
    assert(region_at(m2, ptr) == r2);
    assert(m2.subrange(r.offset as int, r.offset + data.len()) =~= data);
}

/// A successful write changes no byte outside the data it writes and the
/// region's header.
pub proof fn law_write_region_frame(mem: Seq<u8>, ptr: u32, data: Seq<u8>, i: int)
    requires
        write_region_defined(mem, ptr, data),
        write_region_spec(mem, ptr, data) is Ok,
        0 <= i < mem.len(),
        !(region_at(mem, ptr).offset <= i < region_at(mem, ptr).offset + data.len()),
        !(region_address(ptr) <= i < region_address(ptr) + REGION_SIZE),
    ensures
        write_region_spec(mem, ptr, data)->Ok_0.len() == mem.len(),
        write_region_spec(mem, ptr, data)->Ok_0[i] == mem[i],
{
    lemma_decode_encode(Region { length: data.len() as u32, ..region_at(mem, ptr) });
}

/// What a read of the region at `ptr` does: it fails with a conversion
/// error when the limit does not fit a `u32`, fails with `RegionLengthTooBig`
/// when the region's length exceeds the limit, and otherwise gives the
/// region's `length` bytes from its offset, all of them.
pub proof fn law_read_region_outcome(mem: Seq<u8>, ptr: u32, max_length: usize)
    requires
        read_region_defined(mem, ptr, max_length),
    ensures
        max_length > u32::MAX ==> read_region_spec(mem, ptr, max_length) == Err::<Seq<u8>, VmError>(
            VmError::ConversionErr { input: max_length },
        ),
        max_length <= u32::MAX && region_at(mem, ptr).length > max_length ==> read_region_spec(
            mem,
            ptr,
            max_length,
        ) == Err::<Seq<u8>, VmError>(
            VmError::RegionLengthTooBig { length: region_at(mem, ptr).length as usize, max_length },
        ),
        (read_region_spec(mem, ptr, max_length) is Ok) <==> (region_at(mem, ptr).length
            <= max_length <= u32::MAX),
        read_region_spec(mem, ptr, max_length) matches Ok(v) ==> v.len() == region_at(
            mem,
            ptr,
        ).length && forall|i: int|
            0 <= i < v.len() ==> #[trigger] v[i] == mem[region_at(mem, ptr).offset + i],
{
}

/// What a write into the region at `ptr` does: data longer than the
/// region's capacity is refused with `RegionTooSmall`; any other data is
/// accepted, after which the header keeps the region's offset and capacity
/// and records the data's length, and the memory keeps its size.
pub proof fn law_write_region_outcome(mem: Seq<u8>, ptr: u32, data: Seq<u8>)
    requires
        write_region_defined(mem, ptr, data),
    ensures
        data.len() > region_at(mem, ptr).capacity ==> write_region_spec(mem, ptr, data) == Err::<
            Seq<u8>,
            VmError,
        >(
            VmError::RegionTooSmall {
                size: region_at(mem, ptr).capacity as usize,
                required: data.len() as usize,
            },
        ),
        (write_region_spec(mem, ptr, data) is Ok) <==> data.len() <= region_at(mem, ptr).capacity,
        write_region_spec(mem, ptr, data) matches Ok(m2) ==> {
            &&& m2.len() == mem.len()
            &&& region_at(m2, ptr) == (Region {
                offset: region_at(mem, ptr).offset,
                capacity: region_at(mem, ptr).capacity,
                length: data.len() as u32,
            })
        },
{
    let r = region_at(mem, ptr);
    if data.len() <= r.capacity {
        let r2 = Region { length: data.len() as u32, ..r };
        let a = region_address(ptr);
        let written = update_bytes(mem, r.offset as int, data);
        let m2 = update_bytes(written, a, encode_region(r2));
        lemma_decode_encode(r2);
        assert(m2.subrange(a, a + REGION_SIZE) =~= encode_region(r2));
    }
}

/// Whenever a write succeeds, reading the region afterwards with a limit of
/// at least the data's length gives back exactly the data, provided the
/// data does not overlap the region's own header.
pub proof fn law_read_after_successful_write(
    mem: Seq<u8>,
    ptr: u32,
    data: Seq<u8>,
    max_length: usize,
)
    requires
        write_region_defined(mem, ptr, data),
        write_region_spec(mem, ptr, data) is Ok,
        region_at(mem, ptr).offset + data.len() <= region_address(ptr) || region_address(ptr)
            + REGION_SIZE <= region_at(mem, ptr).offset,
        data.len() <= max_length <= u32::MAX,
    ensures
        read_region_defined(write_region_spec(mem, ptr, data)->Ok_0, ptr, max_length),
        read_region_spec(write_region_spec(mem, ptr, data)->Ok_0, ptr, max_length) == Ok::<
            Seq<u8>,
            VmError,
        >(data),
{
    law_write_region_outcome(mem, ptr, data);
    law_read_after_write(mem, ptr, data, max_length);
}

} // verus!
