use vpk_tools::error::DecodeError;
use vpk_tools::header::{header, Header, V1Header, V2Header, SIGNATURE};

fn words(values: &[u32]) -> Vec<u8> {
    let mut bytes = Vec::new();
    for value in values {
        bytes.extend_from_slice(&value.to_le_bytes());
    }
    bytes
}

#[test]
fn the_signature_is_the_magic_number() {
    assert_eq!(SIGNATURE, 0x55aa_1234);
}

#[test]
fn header_reads_version_1() {
    let mut bytes = words(&[0x55aa_1234, 1, 77]);
    bytes.extend_from_slice(&[1, 2, 3]);
    let (rest, read) = header(&bytes).unwrap();
    assert_eq!(read, Header::V1(V1Header { tree_size: 77 }));
    assert_eq!(rest, &[1, 2, 3]);
    assert_eq!(read.section_sizes(), (77, 0, 0, 0, 0));
}

#[test]
fn header_reads_version_2() {
    let mut bytes = words(&[0x55aa_1234, 2, 10, 20, 30, 40, 50]);
    bytes.push(9);
    let (rest, read) = header(&bytes).unwrap();
    assert_eq!(
        read,
        Header::V2(V2Header {
            tree_size: 10,
            file_data_section_size: 20,
            archive_md5_size: 30,
            other_md5_section_size: 40,
            signature_section_size: 50,
        })
    );
    assert_eq!(rest, &[9]);
    assert_eq!(read.section_sizes(), (10, 20, 30, 40, 50));
}

#[test]
fn header_refuses_a_wrong_signature() {
    for position in 0..4 {
        let mut bytes = words(&[0x55aa_1234, 1, 0]);
        bytes[position] ^= 0x01;
        assert_eq!(header(&bytes), Err(DecodeError::BadSignature));
    }
}

#[test]
fn header_refuses_a_wrong_signature_whatever_follows() {
    assert_eq!(header(&words(&[0x55aa_1235])), Err(DecodeError::BadSignature));
    assert_eq!(header(&words(&[0x55aa_1235, 9, 9, 9])), Err(DecodeError::BadSignature));
    assert_eq!(header(&[0x34, 0x12, 0xaa]), Err(DecodeError::BadSignature));
    assert_eq!(header(&[]), Err(DecodeError::BadSignature));
}

#[test]
fn header_refuses_other_versions() {
    for version in [0u32, 3, 4, 0x0100, u32::MAX] {
        let bytes = words(&[0x55aa_1234, version]);
        assert_eq!(header(&bytes), Err(DecodeError::UnsupportedVersion));
        let longer = words(&[0x55aa_1234, version, 1, 2, 3, 4, 5, 6]);
        assert_eq!(header(&longer), Err(DecodeError::UnsupportedVersion));
    }
}

#[test]
fn header_refuses_a_missing_version() {
    let bytes = words(&[0x55aa_1234]);
    assert_eq!(header(&bytes), Err(DecodeError::TruncatedContainer));
    assert_eq!(header(&[0x34, 0x12, 0xaa, 0x55, 1, 0]), Err(DecodeError::TruncatedContainer));
}

#[test]
fn header_refuses_missing_lengths() {
    assert_eq!(header(&words(&[0x55aa_1234, 1])), Err(DecodeError::TruncatedContainer));
    let mut bytes = words(&[0x55aa_1234, 1]);
    bytes.extend_from_slice(&[1, 2, 3]);
    assert_eq!(header(&bytes), Err(DecodeError::TruncatedContainer));
    assert_eq!(
        header(&words(&[0x55aa_1234, 2, 1, 2, 3, 4])),
        Err(DecodeError::TruncatedContainer)
    );
}
