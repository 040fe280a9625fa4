use lib::encoding::{push_le, read_le, write_le};

#[test]
fn push_le_appends_least_significant_byte_first() {
    let mut out = vec![0xEE];
    push_le(&mut out, 0x0123_4567_89AB_CDEF, 8);
    assert_eq!(out, vec![0xEE, 0xEF, 0xCD, 0xAB, 0x89, 0x67, 0x45, 0x23, 0x01]);
}

#[test]
fn push_le_keeps_only_the_low_bytes() {
    let mut out = Vec::new();
    push_le(&mut out, 0x0123_4567, 2);
    assert_eq!(out, vec![0x67, 0x45]);
    push_le(&mut out, 0xFF, 0);
    assert_eq!(out, vec![0x67, 0x45]);
}

#[test]
fn read_le_reads_a_window() {
    let bytes = [0x00, 0x34, 0x12, 0x99];
    assert_eq!(read_le(&bytes, 1, 2), 0x1234);
    assert_eq!(read_le(&bytes, 0, 4), 0x9912_3400);
    assert_eq!(read_le(&bytes, 3, 0), 0);
    assert_eq!(read_le(&[0xFF; 8], 0, 8), u64::MAX);
}

#[test]
fn read_after_push_gives_the_value_reduced_to_the_width() {
    for (value, n) in [(0x0123_4567_89AB_CDEFu64, 8usize), (0xABCD, 1), (0xABCD, 2), (u64::MAX, 5)] {
        let mut out = vec![7, 7];
        push_le(&mut out, value, n);
        let expected = if n == 8 { value } else { value % (1u64 << (8 * n)) };
        assert_eq!(read_le(&out, 2, n), expected);
    }
}

#[test]
fn write_le_overwrites_in_place() {
    let mut bytes = vec![1, 2, 3, 4, 5, 6];
    write_le(&mut bytes, 1, 0xAABB_CCDD, 3);
    assert_eq!(bytes, vec![1, 0xDD, 0xCC, 0xBB, 5, 6]);
    assert_eq!(read_le(&bytes, 1, 3), 0xBB_CCDD);
}
