use no_proto::error::NP_Error;
use no_proto::memory::{u32_from_le_bytes, u32_to_le_bytes, zeroed, NP_Memory};
use no_proto::schema::NP_Schema;

#[test]
fn le_bytes_store_the_least_significant_byte_first() {
    assert_eq!(u32_to_le_bytes(0x12345678), vec![0x78, 0x56, 0x34, 0x12]);
    assert_eq!(u32_to_le_bytes(0), vec![0, 0, 0, 0]);
    assert_eq!(u32_to_le_bytes(u32::MAX), vec![255, 255, 255, 255]);
    let bytes: Vec<u8> = vec![9, 0x78, 0x56, 0x34, 0x12];
    assert_eq!(u32_from_le_bytes(&bytes, 1), 0x12345678);
    assert_eq!(zeroed(3), vec![0, 0, 0]);
}

#[test]
fn malloc_appends_and_returns_where_the_bytes_begin() {
    let schema = NP_Schema { parsed: Vec::new() };
    let mut memory = NP_Memory::existing(vec![1, 0, 0, 0, 0], &schema);
    assert_eq!(memory.malloc(vec![7, 8, 9]), Ok(5));
    assert_eq!(memory.malloc(Vec::new()), Ok(8));
    assert_eq!(memory.malloc(vec![10]), Ok(8));
    assert_eq!(memory.length(), 9);
    assert_eq!(memory.dump(), vec![1, 0, 0, 0, 0, 7, 8, 9, 10]);
}

#[test]
fn reads_and_writes_are_checked_against_the_size() {
    let schema = NP_Schema { parsed: Vec::new() };
    let mut memory = NP_Memory::existing(vec![1, 2, 3, 4, 5, 6], &schema);
    assert_eq!(memory.read(1, 3), Ok(vec![2, 3, 4]));
    assert_eq!(memory.read(6, 0), Ok(Vec::new()));
    assert_eq!(memory.read(4, 3), Err(NP_Error::Address));
    assert_eq!(memory.read(7, 0), Err(NP_Error::Address));
    assert_eq!(memory.read(usize::MAX, 2), Err(NP_Error::Address));
    assert_eq!(memory.write(4, &[9, 9, 9]), Err(NP_Error::Address));
    assert_eq!(memory.write(4, &[9, 8]), Ok(()));
    assert_eq!(memory.read_address(2), Ok(0x08090403));
    assert_eq!(memory.read_address(3), Err(NP_Error::Address));
    assert_eq!(memory.write_address(0, 0x01020304), Ok(()));
    assert_eq!(memory.write_address(3, 1), Err(NP_Error::Address));
    assert_eq!(memory.dump(), vec![4, 3, 2, 1, 9, 8]);
}

#[test]
fn storing_points_the_slot_at_what_was_stored() {
    let schema = NP_Schema { parsed: Vec::new() };
    let mut memory = NP_Memory::existing(vec![1, 0, 0, 0, 0], &schema);
    assert_eq!(memory.store_table(1, 2), Ok(5));
    assert_eq!(memory.store_string(9, &[104, 105]), Ok(()));
    assert_eq!(memory.store_string(40, &[104]), Err(NP_Error::Address));
    assert_eq!(memory.clear(5), Ok(()));
    assert_eq!(memory.clear(16), Err(NP_Error::Address));
    assert_eq!(
        memory.dump(),
        vec![1, 5, 0, 0, 0, 0, 0, 0, 0, 13, 0, 0, 0, 2, 0, 0, 0, 104, 105]
    );
}
