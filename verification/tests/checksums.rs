use vpk_tools::checksums::{
    archive_md5, other_md5_section, read_entries, signature_section, VpkArchiveMd5Section,
    VpkOtherMd5Section, ARCHIVE_MD5_RECORD_SIZE, OTHER_MD5_SECTION_SIZE,
};
use vpk_tools::error::DecodeError;

fn record_bytes(record: &VpkArchiveMd5Section) -> Vec<u8> {
    let mut bytes = Vec::new();
    bytes.extend_from_slice(&record.archive_index.to_le_bytes());
    bytes.extend_from_slice(&record.starting_offset.to_le_bytes());
    bytes.extend_from_slice(&record.count.to_le_bytes());
    bytes.extend_from_slice(&record.md5_checksum);
    bytes
}

fn sample_record(seed: u8) -> VpkArchiveMd5Section {
    let mut md5_checksum = [0u8; 16];
    for (i, byte) in md5_checksum.iter_mut().enumerate() {
        *byte = seed.wrapping_mul(17).wrapping_add(i as u8);
    }
    VpkArchiveMd5Section {
        archive_index: seed as u32 + 0x0100_0000,
        starting_offset: seed as u32 * 4096,
        count: 1000 + seed as u32,
        md5_checksum,
    }
}

#[test]
fn the_record_sizes_are_those_of_the_format() {
    assert_eq!(ARCHIVE_MD5_RECORD_SIZE, 28);
    assert_eq!(OTHER_MD5_SECTION_SIZE, 48);
}

#[test]
fn archive_md5_reads_every_field() {
    let mut bytes = vec![
        0x02, 0x00, 0x00, 0x00, // archive
        0x00, 0x10, 0x00, 0x00, // offset
        0x40, 0x00, 0x00, 0x00, // count
    ];
    bytes.extend(100..116);
    bytes.push(0xee);
    let (rest, record) = archive_md5(&bytes).unwrap();
    assert_eq!(record.archive_index, 2);
    assert_eq!(record.starting_offset, 4096);
    assert_eq!(record.count, 64);
    assert_eq!(
        record.md5_checksum,
        [100, 101, 102, 103, 104, 105, 106, 107, 108, 109, 110, 111, 112, 113, 114, 115]
    );
    assert_eq!(rest, &[0xee]);
}

#[test]
fn archive_md5_refuses_a_short_record() {
    assert_eq!(archive_md5(&[0; 27]), Err(DecodeError::TruncatedContainer));
}

#[test]
fn read_entries_of_nothing_is_no_record() {
    let (rest, records) = read_entries(&[]).unwrap();
    assert!(records.is_empty());
    assert!(rest.is_empty());
}

#[test]
fn read_entries_reads_until_the_bytes_are_used_up() {
    let expected: Vec<VpkArchiveMd5Section> = (0..5).map(sample_record).collect();
    let mut bytes = Vec::new();
    for record in &expected {
        bytes.extend(record_bytes(record));
    }
    assert_eq!(bytes.len(), 5 * 28);
    let (rest, records) = read_entries(&bytes).unwrap();
    assert_eq!(records, expected);
    assert!(rest.is_empty());
}

#[test]
fn read_entries_refuses_a_broken_last_record() {
    let mut bytes = record_bytes(&sample_record(1));
    bytes.extend(record_bytes(&sample_record(2)));
    for length in 0..bytes.len() {
        let read = read_entries(&bytes[..length]);
        if length % 28 == 0 {
            assert_eq!(read.unwrap().1.len(), length / 28);
        } else {
            assert_eq!(read, Err(DecodeError::TruncatedContainer));
        }
    }
}

#[test]
fn other_md5_section_reads_three_digests() {
    let bytes: Vec<u8> = (0..50).collect();
    let (rest, section) = other_md5_section(&bytes).unwrap();
    let expected = VpkOtherMd5Section {
        tree_checksum: [0, 1, 2, 3, 4, 5, 6, 7, 8, 9, 10, 11, 12, 13, 14, 15],
        archive_md5_section_checksum: [
            16, 17, 18, 19, 20, 21, 22, 23, 24, 25, 26, 27, 28, 29, 30, 31,
        ],
        _unknown: [32, 33, 34, 35, 36, 37, 38, 39, 40, 41, 42, 43, 44, 45, 46, 47],
    };
    assert_eq!(section, expected);
    assert_eq!(rest, &[48, 49]);
}

#[test]
fn other_md5_section_refuses_short_bytes() {
    assert_eq!(other_md5_section(&[0; 47]), Err(DecodeError::TruncatedContainer));
    assert_eq!(other_md5_section(&[]), Err(DecodeError::TruncatedContainer));
}

#[test]
fn signature_section_reads_key_and_signature() {
    let bytes = [2, 0, 0, 0, 0xa1, 0xa2, 3, 0, 0, 0, 0xb1, 0xb2, 0xb3, 0xcc];
    let (rest, section) = signature_section(&bytes).unwrap();
    assert_eq!(section.public_key, &[0xa1, 0xa2]);
    assert_eq!(section.signature, &[0xb1, 0xb2, 0xb3]);
    assert_eq!(rest, &[0xcc]);
}

#[test]
fn signature_section_may_hold_nothing() {
    let bytes = [0, 0, 0, 0, 0, 0, 0, 0];
    let (rest, section) = signature_section(&bytes).unwrap();
    assert!(section.public_key.is_empty());
    assert!(section.signature.is_empty());
    assert!(rest.is_empty());
}

#[test]
fn signature_section_refuses_short_bytes() {
    assert_eq!(signature_section(&[]), Err(DecodeError::TruncatedContainer));
    assert_eq!(signature_section(&[2, 0, 0, 0, 1]), Err(DecodeError::TruncatedContainer));
    assert_eq!(signature_section(&[1, 0, 0, 0, 1, 1, 0]), Err(DecodeError::TruncatedContainer));
    assert_eq!(
        signature_section(&[1, 0, 0, 0, 1, 2, 0, 0, 0, 1]),
        Err(DecodeError::TruncatedContainer)
    );
}
