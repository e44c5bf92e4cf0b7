use vpk_tools::error::DecodeError;
use vpk_tools::sections::sections;

#[test]
fn sections_follow_one_another() {
    let bytes: Vec<u8> = (0..20).collect();
    let (rest, (tree, file_data, archive_md5, other_md5, signature)) =
        sections(&bytes, 3, 4, 5, 2, 1).unwrap();
    assert_eq!(tree, &[0, 1, 2]);
    assert_eq!(file_data, &[3, 4, 5, 6]);
    assert_eq!(archive_md5, &[7, 8, 9, 10, 11]);
    assert_eq!(other_md5, &[12, 13]);
    assert_eq!(signature, &[14]);
    assert_eq!(rest, &[15, 16, 17, 18, 19]);
}

#[test]
fn sections_may_be_empty() {
    let bytes = [1, 2, 3];
    let (rest, (tree, file_data, archive_md5, other_md5, signature)) =
        sections(&bytes, 3, 0, 0, 0, 0).unwrap();
    assert_eq!(tree, &[1, 2, 3]);
    assert!(file_data.is_empty());
    assert!(archive_md5.is_empty());
    assert!(other_md5.is_empty());
    assert!(signature.is_empty());
    assert!(rest.is_empty());
    let (rest, parts) = sections(&[], 0, 0, 0, 0, 0).unwrap();
    assert!(rest.is_empty());
    assert!(parts.0.is_empty() && parts.4.is_empty());
}

#[test]
fn sections_refuse_a_short_buffer() {
    let bytes = [0u8; 14];
    assert_eq!(sections(&bytes, 3, 4, 5, 2, 1), Err(DecodeError::TruncatedContainer));
    assert_eq!(sections(&bytes, 15, 0, 0, 0, 0), Err(DecodeError::TruncatedContainer));
    assert_eq!(sections(&bytes, 0, 0, 0, 0, 15), Err(DecodeError::TruncatedContainer));
    assert!(sections(&bytes, 3, 4, 5, 2, 0).is_ok());
}

#[test]
fn sections_refuse_lengths_beyond_any_buffer() {
    let bytes = [0u8; 8];
    assert_eq!(
        sections(&bytes, u32::MAX, u32::MAX, u32::MAX, u32::MAX, u32::MAX),
        Err(DecodeError::TruncatedContainer)
    );
}
