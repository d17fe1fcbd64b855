use scsync::varint::{len_u64_varint, read_u64_varint, write_u64_varint, VarintError};

fn encoded(value: u64) -> Vec<u8> {
    let mut out: Vec<u8> = Vec::new();
    write_u64_varint(&mut out, value);
    out
}

#[test]
fn small_numbers_take_one_byte() {
    assert_eq!(encoded(0), vec![0u8]);
    assert_eq!(encoded(1), vec![1u8]);
    assert_eq!(encoded(127), vec![0x7fu8]);
    assert_eq!(len_u64_varint(127), 1);
}

#[test]
fn larger_numbers_go_least_significant_group_first() {
    assert_eq!(encoded(128), vec![0x80u8, 0x01]);
    assert_eq!(encoded(300), vec![0xacu8, 0x02]);
    assert_eq!(encoded(16_384), vec![0x80u8, 0x80, 0x01]);
    assert_eq!(len_u64_varint(16_383), 2);
    assert_eq!(len_u64_varint(16_384), 3);
}

#[test]
fn the_largest_number_takes_ten_bytes() {
    let bytes = encoded(u64::MAX);
    assert_eq!(bytes, vec![0xffu8, 0xff, 0xff, 0xff, 0xff, 0xff, 0xff, 0xff, 0xff, 0x01]);
    assert_eq!(len_u64_varint(u64::MAX), 10);
    assert_eq!(read_u64_varint(&bytes, 0), Ok((u64::MAX, 10)));
}

#[test]
fn write_appends() {
    let mut out: Vec<u8> = vec![9u8, 9];
    write_u64_varint(&mut out, 200);
    assert_eq!(out, vec![9u8, 9, 0xc8, 0x01]);
}

#[test]
fn read_gives_the_number_and_the_next_position() {
    let bytes: Vec<u8> = vec![5, 0xac, 0x02, 7];
    assert_eq!(read_u64_varint(&bytes, 0), Ok((5, 1)));
    assert_eq!(read_u64_varint(&bytes, 1), Ok((300, 3)));
    assert_eq!(read_u64_varint(&bytes, 3), Ok((7, 4)));
}

#[test]
fn read_at_the_end_is_truncated() {
    let bytes: Vec<u8> = vec![5, 0x80];
    assert_eq!(read_u64_varint(&bytes, 1), Err(VarintError::Truncated));
    assert_eq!(read_u64_varint(&bytes, 2), Err(VarintError::Truncated));
    assert_eq!(read_u64_varint(&[], 0), Err(VarintError::Truncated));
}

#[test]
fn read_beyond_64_bits_overflows() {
    let bytes: Vec<u8> = vec![0xff, 0xff, 0xff, 0xff, 0xff, 0xff, 0xff, 0xff, 0xff, 0x02];
    assert_eq!(read_u64_varint(&bytes, 0), Err(VarintError::Overflow));
    let long: Vec<u8> = vec![0x80, 0x80, 0x80, 0x80, 0x80, 0x80, 0x80, 0x80, 0x80, 0x80, 0x01];
    assert_eq!(read_u64_varint(&long, 0), Err(VarintError::Overflow));
}

#[test]
fn read_takes_padded_numbers() {
    let bytes: Vec<u8> = vec![0x85, 0x80, 0x00];
    assert_eq!(read_u64_varint(&bytes, 0), Ok((5, 3)));
}

#[test]
fn every_group_boundary_comes_back() {
    let mut value: u64 = 1;
    for _ in 0..64 {
        for candidate in [value - 1, value, value + 1] {
            let bytes = encoded(candidate);
            assert_eq!(bytes.len(), len_u64_varint(candidate));
            assert_eq!(read_u64_varint(&bytes, 0), Ok((candidate, bytes.len())));
        }
        value = value.wrapping_mul(2);
        if value == 0 {
            break;
        }
    }
}
