use cosmwasm_vm::{
    get_region, maybe_read_region, read_region, set_region, to_u32, write_region, Region, VmError,
    WasmMemory,
};

/// 64 bytes of memory with a region header at 8: offset 32, capacity 16,
/// length 5, and "hello" at 32.
fn sample_memory() -> WasmMemory {
    let mut bytes = vec![0u8; 64];
    bytes[8..12].copy_from_slice(&32u32.to_le_bytes());
    bytes[12..16].copy_from_slice(&16u32.to_le_bytes());
    bytes[16..20].copy_from_slice(&5u32.to_le_bytes());
    bytes[32..37].copy_from_slice(b"hello");
    WasmMemory::new(bytes)
}

#[test]
fn read_region_gives_bytes_in_use() {
    let mem = sample_memory();
    assert_eq!(read_region(&mem, 8, 100), Ok(b"hello".to_vec()));
    assert_eq!(read_region(&mem, 8, 5), Ok(b"hello".to_vec()));
}

#[test]
fn read_region_length_too_big() {
    let mem = sample_memory();
    assert_eq!(
        read_region(&mem, 8, 4),
        Err(VmError::RegionLengthTooBig { length: 5, max_length: 4 })
    );
}

#[test]
fn read_region_limit_not_u32() {
    let mem = sample_memory();
    let too_big = u32::MAX as u64 + 1;
    if let Ok(limit) = usize::try_from(too_big) {
        assert_eq!(read_region(&mem, 8, limit), Err(VmError::ConversionErr { input: limit }));
    }
}

#[test]
fn region_pointer_rounds_down_to_alignment() {
    let mem = sample_memory();
    for ptr in 8..12 {
        assert_eq!(read_region(&mem, ptr, 100), Ok(b"hello".to_vec()));
    }
    assert_eq!(get_region(&mem, 11), Region { offset: 32, capacity: 16, length: 5 });
}

#[test]
fn maybe_read_region_null_pointer() {
    let mem = sample_memory();
    assert_eq!(maybe_read_region(&mem, 0, 100), Ok(None));
    assert_eq!(maybe_read_region(&mem, 8, 100), Ok(Some(b"hello".to_vec())));
    assert_eq!(
        maybe_read_region(&mem, 8, 1),
        Err(VmError::RegionLengthTooBig { length: 5, max_length: 1 })
    );
}

#[test]
fn write_then_read_region() {
    let mut mem = sample_memory();
    assert_eq!(write_region(&mut mem, 8, b"abc"), Ok(3));
    assert_eq!(read_region(&mem, 8, 100), Ok(b"abc".to_vec()));
    assert_eq!(get_region(&mem, 8), Region { offset: 32, capacity: 16, length: 3 });
    // bytes past the written data keep their old contents
    assert_eq!(&mem.as_bytes()[32..37], b"abclo");
    // the length field is stored little-endian
    assert_eq!(&mem.as_bytes()[16..20], &[3, 0, 0, 0]);
    assert_eq!(write_region(&mut mem, 8, b""), Ok(0));
    assert_eq!(read_region(&mem, 8, 0), Ok(vec![]));
    let full = [7u8; 16];
    assert_eq!(write_region(&mut mem, 8, &full), Ok(16));
    assert_eq!(read_region(&mem, 8, 16), Ok(full.to_vec()));
}

#[test]
fn write_region_too_small() {
    let mut mem = sample_memory();
    let before = mem.as_bytes().to_vec();
    let data = [1u8; 17];
    assert_eq!(
        write_region(&mut mem, 8, &data),
        Err(VmError::RegionTooSmall { size: 16, required: 17 })
    );
    assert_eq!(mem.as_bytes(), &before[..]);
}

#[test]
fn set_then_get_region() {
    let mut mem = WasmMemory::new(vec![0u8; 32]);
    let region = Region { offset: 0x01020304, capacity: 0xaabbccdd, length: 7 };
    set_region(&mut mem, 4, region);
    assert_eq!(get_region(&mem, 4), region);
    assert_eq!(
        &mem.as_bytes()[4..16],
        &[4, 3, 2, 1, 0xdd, 0xcc, 0xbb, 0xaa, 7, 0, 0, 0]
    );
    assert_eq!(mem.len(), 32);
}

#[test]
fn to_u32_limits() {
    assert_eq!(to_u32(0), Ok(0));
    assert_eq!(to_u32(u32::MAX as usize), Ok(u32::MAX));
    if let Ok(v) = usize::try_from(u32::MAX as u64 + 1) {
        assert_eq!(to_u32(v), Err(VmError::ConversionErr { input: v }));
    }
}
