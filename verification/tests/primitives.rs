use vpk_tools::error::DecodeError;
use vpk_tools::primitives::{cstring, fixed_arr_16, le_u16, le_u32, length_prefixed, take};

#[test]
fn le_u16_reads_least_significant_byte_first() {
    let bytes = [0x34, 0x12, 0xff];
    let (rest, value) = le_u16(&bytes).unwrap();
    assert_eq!(value, 0x1234);
    assert_eq!(rest, &[0xff]);
}

#[test]
fn le_u16_reads_the_largest_value() {
    let bytes = [0xff, 0xff];
    let (rest, value) = le_u16(&bytes).unwrap();
    assert_eq!(value, 0xffff);
    assert!(rest.is_empty());
}

#[test]
fn le_u16_refuses_one_byte() {
    assert_eq!(le_u16(&[0x34]), Err(DecodeError::TruncatedContainer));
    assert_eq!(le_u16(&[]), Err(DecodeError::TruncatedContainer));
}

#[test]
fn le_u32_reads_least_significant_byte_first() {
    let bytes = [0x34, 0x12, 0xaa, 0x55, 9, 8];
    let (rest, value) = le_u32(&bytes).unwrap();
    assert_eq!(value, 0x55aa_1234);
    assert_eq!(rest, &[9, 8]);
}

#[test]
fn le_u32_reads_the_largest_value() {
    let bytes = [0xff, 0xff, 0xff, 0xff];
    let (rest, value) = le_u32(&bytes).unwrap();
    assert_eq!(value, u32::MAX);
    assert!(rest.is_empty());
}

#[test]
fn le_u32_refuses_three_bytes() {
    assert_eq!(le_u32(&[1, 2, 3]), Err(DecodeError::TruncatedContainer));
}

#[test]
fn take_splits_at_the_count() {
    let bytes = [1, 2, 3, 4, 5];
    let (rest, taken) = take(&bytes, 2).unwrap();
    assert_eq!(taken, &[1, 2]);
    assert_eq!(rest, &[3, 4, 5]);
}

#[test]
fn take_of_nothing_and_of_all() {
    let bytes = [1, 2, 3];
    let (rest, taken) = take(&bytes, 0).unwrap();
    assert!(taken.is_empty());
    assert_eq!(rest, &[1, 2, 3]);
    let (rest, taken) = take(&bytes, 3).unwrap();
    assert_eq!(taken, &[1, 2, 3]);
    assert!(rest.is_empty());
}

#[test]
fn take_refuses_more_than_there_is() {
    assert_eq!(take(&[1, 2, 3], 4), Err(DecodeError::TruncatedContainer));
}

#[test]
fn fixed_arr_16_copies_sixteen_bytes() {
    let bytes: Vec<u8> = (10..30).collect();
    let (rest, array) = fixed_arr_16(&bytes).unwrap();
    assert_eq!(array, [10, 11, 12, 13, 14, 15, 16, 17, 18, 19, 20, 21, 22, 23, 24, 25]);
    assert_eq!(rest, &[26, 27, 28, 29]);
}

#[test]
fn fixed_arr_16_refuses_fifteen_bytes() {
    assert_eq!(fixed_arr_16(&[0; 15]), Err(DecodeError::TruncatedContainer));
}

#[test]
fn length_prefixed_reads_the_counted_bytes() {
    let bytes = [3, 0, 0, 0, 7, 8, 9, 10];
    let (rest, counted) = length_prefixed(&bytes).unwrap();
    assert_eq!(counted, &[7, 8, 9]);
    assert_eq!(rest, &[10]);
}

#[test]
fn length_prefixed_refuses_a_short_count_and_short_bytes() {
    assert_eq!(length_prefixed(&[3, 0, 0]), Err(DecodeError::TruncatedContainer));
    assert_eq!(length_prefixed(&[3, 0, 0, 0, 7, 8]), Err(DecodeError::TruncatedContainer));
}

#[test]
fn cstring_reads_up_to_the_zero_byte() {
    let bytes = b"txt\0cfg\0";
    let (rest, name) = cstring(bytes).unwrap();
    assert_eq!(name, "txt");
    assert_eq!(rest, b"cfg\0");
}

#[test]
fn cstring_reads_an_empty_name() {
    let bytes = [0, 5];
    let (rest, name) = cstring(&bytes).unwrap();
    assert_eq!(name, "");
    assert_eq!(rest, &[5]);
}

#[test]
fn cstring_decodes_utf8() {
    let mut bytes = "grüße/日本".as_bytes().to_vec();
    bytes.push(0);
    let (rest, name) = cstring(&bytes).unwrap();
    assert_eq!(name, "grüße/日本");
    assert_eq!(name.chars().count(), 8);
    assert!(rest.is_empty());
}

#[test]
fn cstring_refuses_bytes_without_a_zero_byte() {
    assert_eq!(cstring(b"txt"), Err(DecodeError::TruncatedContainer));
    assert_eq!(cstring(b""), Err(DecodeError::TruncatedContainer));
}

#[test]
fn cstring_refuses_invalid_utf8() {
    assert_eq!(cstring(&[0xff, 0xfe, 0]), Err(DecodeError::InvalidName));
    assert_eq!(cstring(&[b'a', 0xc3, 0]), Err(DecodeError::InvalidName));
}

#[test]
fn cstring_looks_no_further_than_the_zero_byte() {
    let (rest, name) = cstring(&[b'a', 0, 0xff, 0xfe]).unwrap();
    assert_eq!(name, "a");
    assert_eq!(rest, &[0xff, 0xfe]);
}
