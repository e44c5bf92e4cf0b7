use vpk_tools::checksums::{VpkArchiveMd5Section, VpkOtherMd5Section};
use vpk_tools::error::DecodeError;
use vpk_tools::vpk::{
    aggregate_findings, chunk_finding, HashCompare, HashMismatch, IncomingVpk, IntegrityError,
};

const MD5_OF_NOTHING: [u8; 16] =
    [212, 29, 140, 217, 143, 0, 178, 4, 233, 128, 9, 152, 236, 248, 66, 126];
const MD5_OF_ABC: [u8; 16] =
    [144, 1, 80, 152, 60, 210, 79, 176, 214, 150, 63, 125, 40, 225, 127, 114];
const MD5_OF_HELLO: [u8; 16] =
    [93, 65, 64, 42, 188, 75, 42, 118, 185, 113, 157, 145, 16, 23, 197, 146];
const MD5_OF_HELLP: [u8; 16] =
    [201, 131, 25, 4, 131, 223, 22, 125, 42, 56, 65, 70, 60, 42, 147, 65];

fn record(archive_index: u32, starting_offset: u32, count: u32, md5_checksum: [u8; 16]) -> Vec<u8> {
    let mut bytes = Vec::new();
    bytes.extend_from_slice(&archive_index.to_le_bytes());
    bytes.extend_from_slice(&starting_offset.to_le_bytes());
    bytes.extend_from_slice(&count.to_le_bytes());
    bytes.extend_from_slice(&md5_checksum);
    bytes
}

fn other_md5(tree: [u8; 16], table: [u8; 16]) -> Vec<u8> {
    let mut bytes = Vec::new();
    bytes.extend_from_slice(&tree);
    bytes.extend_from_slice(&table);
    bytes.extend_from_slice(&[0xab; 16]);
    bytes
}

fn container(
    file_data: &[u8],
    archive_md5: Vec<u8>,
    other_md5: Vec<u8>,
    tree_checksum: [u8; 16],
    archive_md5_checksum: [u8; 16],
) -> IncomingVpk {
    IncomingVpk::new(
        "pak_dir".to_string(),
        Vec::new(),
        file_data.to_vec(),
        archive_md5,
        other_md5,
        tree_checksum,
        archive_md5_checksum,
    )
}

/// A container with "abc" in archive 0, "hello" in archive 1 and "xxhelloxx" as
/// its own file data, and a record for each.
fn three_chunks(second: &[u8]) -> IncomingVpk {
    let mut records = record(0, 0, 3, MD5_OF_ABC);
    records.extend(record(1, 0, 5, MD5_OF_HELLO));
    records.extend(record(0x7fff, 2, 5, MD5_OF_HELLO));
    let mut vpk = container(b"xxhelloxx", records, Vec::new(), [0; 16], [0; 16]);
    vpk.store_archive_data(0, Some(b"abc".to_vec()));
    vpk.store_archive_data(1, Some(second.to_vec()));
    vpk
}

#[test]
fn chunk_finding_is_none_for_the_digest_recorded() {
    let entry = VpkArchiveMd5Section {
        archive_index: 3,
        starting_offset: 0,
        count: 5,
        md5_checksum: MD5_OF_HELLO,
    };
    assert_eq!(chunk_finding(&entry, MD5_OF_HELLO), None);
}

#[test]
fn chunk_finding_names_archive_and_both_digests() {
    let entry = VpkArchiveMd5Section {
        archive_index: 3,
        starting_offset: 0,
        count: 5,
        md5_checksum: MD5_OF_HELLO,
    };
    assert_eq!(
        chunk_finding(&entry, MD5_OF_HELLP),
        Some(HashMismatch::Data((3, HashCompare { expect: MD5_OF_HELLO, got: MD5_OF_HELLP })))
    );
    let mut last_differs = MD5_OF_HELLO;
    last_differs[15] ^= 1;
    assert!(chunk_finding(&entry, last_differs).is_some());
}

#[test]
fn aggregate_findings_reports_tree_and_table_each_for_itself() {
    let section = VpkOtherMd5Section {
        tree_checksum: [1; 16],
        archive_md5_section_checksum: [2; 16],
        _unknown: [3; 16],
    };
    assert_eq!(aggregate_findings(&section, [1; 16], [2; 16]), vec![]);
    assert_eq!(
        aggregate_findings(&section, [9; 16], [2; 16]),
        vec![HashMismatch::Other(HashCompare { expect: [1; 16], got: [9; 16] })]
    );
    assert_eq!(
        aggregate_findings(&section, [1; 16], [8; 16]),
        vec![HashMismatch::Other(HashCompare { expect: [2; 16], got: [8; 16] })]
    );
    assert_eq!(
        aggregate_findings(&section, [9; 16], [8; 16]),
        vec![
            HashMismatch::Other(HashCompare { expect: [1; 16], got: [9; 16] }),
            HashMismatch::Other(HashCompare { expect: [2; 16], got: [8; 16] }),
        ]
    );
}

#[test]
fn a_container_without_checksums_passes() {
    let vpk = container(&[], Vec::new(), Vec::new(), [0; 16], [0; 16]);
    assert_eq!(vpk.integrity_check(), Ok(()));
    assert_eq!(vpk.pending_archive(), None);
}

#[test]
fn matching_chunks_pass() {
    let vpk = three_chunks(b"hello");
    assert_eq!(vpk.pending_archive(), None);
    assert_eq!(vpk.integrity_check(), Ok(()));
}

#[test]
fn the_digest_of_no_bytes_is_checked_too() {
    let vpk = container(b"abc", record(0x7fff, 3, 0, MD5_OF_NOTHING), Vec::new(), [0; 16], [0; 16]);
    assert_eq!(vpk.integrity_check(), Ok(()));
    let vpk = container(b"abc", record(0x7fff, 0, 0, MD5_OF_ABC), Vec::new(), [0; 16], [0; 16]);
    assert_eq!(
        vpk.integrity_check(),
        Err(IntegrityError::Mismatch(vec![HashMismatch::Data((
            0x7fff,
            HashCompare { expect: MD5_OF_ABC, got: MD5_OF_NOTHING }
        ))]))
    );
}

#[test]
fn one_wrong_byte_gives_one_finding_for_its_chunk() {
    let vpk = three_chunks(b"hellp");
    assert_eq!(
        vpk.integrity_check(),
        Err(IntegrityError::Mismatch(vec![HashMismatch::Data((
            1,
            HashCompare { expect: MD5_OF_HELLO, got: MD5_OF_HELLP }
        ))]))
    );
}

#[test]
fn every_wrong_chunk_is_reported_in_the_order_of_the_records() {
    let mut records = record(0x7fff, 0, 5, MD5_OF_HELLO);
    records.extend(record(0x7fff, 5, 3, MD5_OF_ABC));
    records.extend(record(2, 0, 5, MD5_OF_ABC));
    records.extend(record(0x7fff, 0, 3, MD5_OF_NOTHING));
    let mut vpk = container(b"hellpabc", records, Vec::new(), [0; 16], [0; 16]);
    vpk.store_archive_data(2, Some(b"hello".to_vec()));
    let found = match vpk.integrity_check() {
        Err(IntegrityError::Mismatch(found)) => found,
        other => panic!("no findings: {:?}", other),
    };
    assert_eq!(found.len(), 3);
    assert_eq!(
        found[0],
        HashMismatch::Data((0x7fff, HashCompare { expect: MD5_OF_HELLO, got: MD5_OF_HELLP }))
    );
    assert_eq!(
        found[1],
        HashMismatch::Data((2, HashCompare { expect: MD5_OF_ABC, got: MD5_OF_HELLO }))
    );
    assert!(matches!(found[2], HashMismatch::Data((0x7fff, HashCompare { expect: MD5_OF_NOTHING, .. }))));
}

#[test]
fn matching_digests_of_the_sections_pass() {
    let records = record(0x7fff, 0, 3, MD5_OF_ABC);
    let vpk = container(b"abc", records, other_md5([5; 16], [6; 16]), [5; 16], [6; 16]);
    assert_eq!(vpk.integrity_check(), Ok(()));
}

#[test]
fn a_wrong_tree_digest_gives_one_finding_beside_those_of_the_chunks() {
    let vpk = container(b"abc", Vec::new(), other_md5([5; 16], [6; 16]), [4; 16], [6; 16]);
    assert_eq!(
        vpk.integrity_check(),
        Err(IntegrityError::Mismatch(vec![HashMismatch::Other(HashCompare {
            expect: [5; 16],
            got: [4; 16]
        })]))
    );
    let records = record(0x7fff, 0, 3, MD5_OF_HELLO);
    let vpk = container(b"abc", records, other_md5([5; 16], [6; 16]), [4; 16], [6; 16]);
    assert_eq!(
        vpk.integrity_check(),
        Err(IntegrityError::Mismatch(vec![
            HashMismatch::Data((0x7fff, HashCompare { expect: MD5_OF_HELLO, got: MD5_OF_ABC })),
            HashMismatch::Other(HashCompare { expect: [5; 16], got: [4; 16] }),
        ]))
    );
}

#[test]
fn a_wrong_table_digest_gives_one_finding() {
    let vpk = container(b"abc", Vec::new(), other_md5([5; 16], [6; 16]), [5; 16], [7; 16]);
    assert_eq!(
        vpk.integrity_check(),
        Err(IntegrityError::Mismatch(vec![HashMismatch::Other(HashCompare {
            expect: [6; 16],
            got: [7; 16]
        })]))
    );
}

#[test]
fn bytes_behind_the_digests_of_the_sections_are_not_looked_at() {
    let mut section = other_md5([5; 16], [6; 16]);
    section.extend_from_slice(&[1, 2, 3]);
    let vpk = container(b"", Vec::new(), section, [5; 16], [6; 16]);
    assert_eq!(vpk.integrity_check(), Ok(()));
}

#[test]
fn a_broken_record_fails_the_check() {
    let mut records = record(0x7fff, 0, 3, MD5_OF_HELLO);
    records.pop();
    let vpk = container(b"abc", records, Vec::new(), [0; 16], [0; 16]);
    assert_eq!(
        vpk.integrity_check(),
        Err(IntegrityError::Decode(DecodeError::TruncatedContainer))
    );
    assert_eq!(vpk.pending_archive(), None);
}

#[test]
fn a_short_section_of_digests_fails_the_check() {
    let mut section = other_md5([5; 16], [6; 16]);
    section.truncate(47);
    let records = record(0x7fff, 0, 3, MD5_OF_HELLO);
    let vpk = container(b"abc", records, section, [5; 16], [6; 16]);
    assert_eq!(
        vpk.integrity_check(),
        Err(IntegrityError::Decode(DecodeError::TruncatedContainer))
    );
}

#[test]
fn an_archive_that_is_not_there_fails_the_check() {
    let mut records = record(0x7fff, 0, 3, MD5_OF_HELLO);
    records.extend(record(6, 0, 3, MD5_OF_ABC));
    records.extend(record(7, 0, 3, MD5_OF_ABC));
    let mut vpk = container(b"abc", records, Vec::new(), [0; 16], [0; 16]);
    assert_eq!(vpk.pending_archive(), Some(6));
    assert_eq!(vpk.integrity_check(), Err(IntegrityError::Unavailable(6)));
    vpk.store_archive_data(6, None);
    assert_eq!(vpk.pending_archive(), None);
    assert_eq!(vpk.integrity_check(), Err(IntegrityError::Unavailable(6)));
}

#[test]
fn the_archives_are_asked_for_one_after_another() {
    let mut records = record(3, 0, 3, MD5_OF_ABC);
    records.extend(record(4, 1, 5, MD5_OF_HELLO));
    records.extend(record(3, 3, 0, MD5_OF_NOTHING));
    let mut vpk = container(b"", records, Vec::new(), [0; 16], [0; 16]);
    assert_eq!(vpk.pending_archive(), Some(3));
    vpk.store_archive_data(3, Some(b"abc".to_vec()));
    assert_eq!(vpk.pending_archive(), Some(4));
    vpk.store_archive_data(4, Some(b"_hello_".to_vec()));
    assert_eq!(vpk.pending_archive(), None);
    assert_eq!(vpk.integrity_check(), Ok(()));
}

#[test]
fn a_record_beyond_the_end_of_its_archive_fails_the_check() {
    let vpk = container(b"abc", record(0x7fff, 1, 3, MD5_OF_ABC), Vec::new(), [0; 16], [0; 16]);
    assert_eq!(vpk.integrity_check(), Err(IntegrityError::Unavailable(0x7fff)));
    let vpk = container(b"abc", record(0x7fff, 4, 0, MD5_OF_NOTHING), Vec::new(), [0; 16], [0; 16]);
    assert_eq!(vpk.integrity_check(), Err(IntegrityError::Unavailable(0x7fff)));
    let vpk = container(
        b"abc",
        record(0x7fff, u32::MAX, u32::MAX, MD5_OF_ABC),
        Vec::new(),
        [0; 16],
        [0; 16],
    );
    assert_eq!(vpk.integrity_check(), Err(IntegrityError::Unavailable(0x7fff)));
}

#[test]
fn a_missing_archive_counts_before_findings_and_a_short_section() {
    let mut records = record(0x7fff, 0, 3, MD5_OF_HELLO);
    records.extend(record(9, 0, 1, MD5_OF_ABC));
    let mut vpk = container(b"abc", records, vec![1, 2, 3], [0; 16], [0; 16]);
    vpk.store_archive_data(9, None);
    assert_eq!(vpk.integrity_check(), Err(IntegrityError::Unavailable(9)));
}

#[test]
fn decode_errors_turn_into_errors_of_the_check() {
    assert_eq!(
        IntegrityError::from(DecodeError::BadTerminator),
        IntegrityError::Decode(DecodeError::BadTerminator)
    );
}
