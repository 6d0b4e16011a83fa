use concordevm::codec::{
    bool_of_byte, bool_to_byte, cut_at_nul, i64_of_bytes, i64_to_bytes, u64_of_bytes, u64_to_bytes,
};
use concordevm::fault::Fault;
use concordevm::memory::Memory;

#[test]
fn int_round_trip() {
    let encoded = i64_to_bytes(-123456789);
    assert_eq!(encoded.len(), 8);
    assert_eq!(i64_of_bytes(encoded.as_slice()), -123456789);

    let min = i64_to_bytes(i64::MIN);
    assert_eq!(i64_of_bytes(min.as_slice()), i64::MIN);
    let max = i64_to_bytes(i64::MAX);
    assert_eq!(i64_of_bytes(max.as_slice()), i64::MAX);
}

#[test]
fn uint_round_trip() {
    let encoded = u64_to_bytes(0xdead_beef_0123_4567);
    assert_eq!(u64_of_bytes(encoded.as_slice()), 0xdead_beef_0123_4567);
    let encoded = u64_to_bytes(u64::MAX);
    assert_eq!(u64_of_bytes(encoded.as_slice()), u64::MAX);
}

#[test]
fn bool_codec() {
    assert_eq!(bool_to_byte(true), 1);
    assert_eq!(bool_to_byte(false), 0);
    assert!(bool_of_byte(1));
    assert!(!bool_of_byte(0));
    // any non-zero byte reads back as true
    assert!(bool_of_byte(42));
}

#[test]
fn nul_cut() {
    assert_eq!(cut_at_nul(&[1, 2, 0, 3, 4]), vec![1, 2]);
    assert_eq!(cut_at_nul(&[1, 2, 3]), vec![1, 2, 3]);
    assert_eq!(cut_at_nul(&[0, 1]), Vec::<u8>::new());
    assert_eq!(cut_at_nul(&[]), Vec::<u8>::new());
}

#[test]
fn memory_int_round_trip() {
    let mut mem = Memory::new(64);
    assert_eq!(mem.capacity(), 64);
    mem.write_int(5, -42).unwrap();
    assert_eq!(mem.read_int(5).unwrap(), -42);
}

#[test]
fn memory_uint_round_trip() {
    let mut mem = Memory::new(16);
    mem.write_uint(8, 999).unwrap();
    assert_eq!(mem.read_uint(8).unwrap(), 999);
}

#[test]
fn memory_bool_round_trip() {
    let mut mem = Memory::new(2);
    mem.write_bool(0, true).unwrap();
    mem.write_bool(1, false).unwrap();
    assert!(mem.read_bool(0).unwrap());
    assert!(!mem.read_bool(1).unwrap());
}

#[test]
fn memory_string_round_trip() {
    let mut mem = Memory::new(64);
    // a non-ASCII string: its UTF-8 encoding is longer than its characters
    let text = "h\u{e9}llo";
    assert_eq!(text.len(), 6);
    mem.write_str(0, text).unwrap();
    let back = mem.read_string(0, 6).unwrap();
    assert_eq!(back, text);
    assert_eq!(back.chars().count(), 5);
}

#[test]
fn memory_string_nul_terminated_slot() {
    let mut mem = Memory::new(32);
    mem.write_str(0, "abc").unwrap();
    // reading a larger zero-padded slot stops at the first NUL byte
    let back = mem.read_string(0, 16).unwrap();
    assert_eq!(back, "abc");
}

#[test]
fn memory_string_invalid_utf8() {
    let mut mem = Memory::new(8);
    mem.write_bytes(0, &[0xff, 0xfe, 0x41]).unwrap();
    assert_eq!(mem.read_string(0, 3), Err(Fault::TypeParse));
}

#[test]
fn memory_out_of_bounds() {
    let mut mem = Memory::new(8);
    assert_eq!(mem.write_int(1, 7), Err(Fault::OutOfBounds));
    assert_eq!(mem.read_int(1), Err(Fault::OutOfBounds));
    assert_eq!(mem.read_bytes(8, 1), Err(Fault::OutOfBounds));
    assert_eq!(mem.memcpy(0, 4, 8), Err(Fault::OutOfBounds));
    // bounds never wrap around
    assert_eq!(mem.read_bytes(usize::MAX, 2), Err(Fault::OutOfBounds));
}

#[test]
fn memory_extend_grows_with_zeroes() {
    let mut mem = Memory::with_capacity(4);
    assert_eq!(mem.capacity(), 0);
    mem.extend(4);
    assert_eq!(mem.capacity(), 4);
    assert_eq!(mem.dump(), vec![0, 0, 0, 0]);
    mem.write_bytes(0, &[9, 9, 9, 9]).unwrap();
    mem.extend(2);
    assert_eq!(mem.capacity(), 6);
    assert_eq!(mem.dump(), vec![9, 9, 9, 9, 0, 0]);
}

#[test]
fn memcpy_faithful_non_overlapping() {
    let mut mem = Memory::new(16);
    mem.write_bytes(0, &[1, 2, 3, 4]).unwrap();
    mem.memcpy(0, 8, 4).unwrap();
    // destination holds the source's bytes; the source is unchanged
    assert_eq!(mem.read_bytes(8, 4).unwrap(), vec![1, 2, 3, 4]);
    assert_eq!(mem.read_bytes(0, 4).unwrap(), vec![1, 2, 3, 4]);
}

#[test]
fn memcpy_overlapping_as_if_buffered() {
    let mut mem = Memory::new(8);
    mem.write_bytes(0, &[1, 2, 3, 4, 5, 0, 0, 0]).unwrap();
    // overlapping forward copy behaves as if through a temporary buffer
    mem.memcpy(0, 2, 5).unwrap();
    assert_eq!(mem.dump(), vec![1, 2, 1, 2, 3, 4, 5, 0]);
}

#[test]
fn memcpy_empty() {
    let mut mem = Memory::new(4);
    mem.write_bytes(0, &[7, 7, 7, 7]).unwrap();
    mem.memcpy(0, 4, 0).unwrap();
    assert_eq!(mem.dump(), vec![7, 7, 7, 7]);
}
