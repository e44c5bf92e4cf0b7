use vpk_tools::directory::VpkDirectoryEntry;
use vpk_tools::error::DecodeError;
use vpk_tools::vpk::{
    vpk_from_bytes, ArchiveData, HashCompare, HashMismatch, IncomingVpk, IntegrityError, ReadError,
};

const MD5_OF_HELLO: [u8; 16] =
    [93, 65, 64, 42, 188, 75, 42, 118, 185, 113, 157, 145, 16, 23, 197, 146];

fn words(values: &[u32]) -> Vec<u8> {
    let mut bytes = Vec::new();
    for value in values {
        bytes.extend_from_slice(&value.to_le_bytes());
    }
    bytes
}

/// The tree with the one file `cfg/readme.txt`, which has no bytes.
fn readme_tree() -> Vec<u8> {
    let mut tree = Vec::new();
    tree.extend_from_slice(b"txt\0");
    tree.extend_from_slice(b"cfg\0");
    tree.extend_from_slice(b"readme\0");
    tree.extend_from_slice(&0u32.to_le_bytes());
    tree.extend_from_slice(&0u16.to_le_bytes());
    tree.extend_from_slice(&0x7fffu16.to_le_bytes());
    tree.extend_from_slice(&0u32.to_le_bytes());
    tree.extend_from_slice(&0u32.to_le_bytes());
    tree.extend_from_slice(&0xffffu16.to_le_bytes());
    tree.extend_from_slice(&[0, 0, 0]);
    tree
}

fn version_1(tree: &[u8]) -> Vec<u8> {
    let mut bytes = words(&[0x55aa_1234, 1, tree.len() as u32]);
    bytes.extend_from_slice(tree);
    bytes
}

fn version_2(tree: &[u8], file_data: &[u8], archive_md5: &[u8], other_md5: &[u8]) -> Vec<u8> {
    let mut bytes = words(&[
        0x55aa_1234,
        2,
        tree.len() as u32,
        file_data.len() as u32,
        archive_md5.len() as u32,
        other_md5.len() as u32,
        0,
    ]);
    bytes.extend_from_slice(tree);
    bytes.extend_from_slice(file_data);
    bytes.extend_from_slice(archive_md5);
    bytes.extend_from_slice(other_md5);
    bytes
}

fn record(archive_index: u32, starting_offset: u32, count: u32, md5_checksum: [u8; 16]) -> Vec<u8> {
    let mut bytes = words(&[archive_index, starting_offset, count]);
    bytes.extend_from_slice(&md5_checksum);
    bytes
}

fn other_md5(tree: &[u8], archive_md5: &[u8]) -> Vec<u8> {
    let mut bytes = Vec::new();
    bytes.extend_from_slice(&md5::compute(tree).0);
    bytes.extend_from_slice(&md5::compute(archive_md5).0);
    bytes.extend_from_slice(&[0; 16]);
    bytes
}

fn open(bytes: &[u8]) -> IncomingVpk {
    vpk_from_bytes("pak01_dir".to_string(), bytes).unwrap()
}

fn refusal(bytes: &[u8]) -> DecodeError {
    match vpk_from_bytes("pak01_dir".to_string(), bytes) {
        Err(ReadError::Decode(e)) => e,
        Err(other) => panic!("another error: {:?}", other),
        Ok(_) => panic!("the bytes were taken"),
    }
}

#[test]
fn a_minimal_version_1_container_opens_and_passes() {
    let tree = readme_tree();
    assert_eq!(tree.len(), 4 + 4 + 7 + 18 + 3);
    let vpk = open(&version_1(&tree));
    assert_eq!(vpk.directory.len(), 1);
    let (extension, paths) = &vpk.directory[0];
    assert_eq!(extension, "txt");
    assert_eq!(paths.len(), 1);
    let (path, files) = &paths[0];
    assert_eq!(path, "cfg");
    assert_eq!(files.len(), 1);
    let (file, entry) = &files[0];
    assert_eq!(file, "readme");
    assert_eq!(
        *entry,
        VpkDirectoryEntry {
            crc: 0,
            archive_index: 0x7fff,
            entry_offset: 0,
            entry_length: 0,
            pre_loaded: vec![],
        }
    );
    assert_eq!(vpk.directory(), &vpk.directory);
    assert_eq!(vpk.pending_archive(), None);
    assert_eq!(vpk.integrity_check(), Ok(()));
    match vpk.get_archive_data(0x7fff) {
        ArchiveData::Loaded(data) => assert!(data.is_empty()),
        other => panic!("not loaded: {:?}", other),
    }
}

#[test]
fn opening_the_same_bytes_twice_gives_the_same_container() {
    let tree = readme_tree();
    let records = record(0x7fff, 0, 5, MD5_OF_HELLO);
    let bytes = version_2(&tree, b"hello", &records, &other_md5(&tree, &records));
    let first = open(&bytes);
    let second = vpk_from_bytes("another_dir".to_string(), &bytes).unwrap();
    assert_eq!(first.directory, second.directory);
    assert_eq!(first.integrity_check(), second.integrity_check());
    assert_eq!(first.integrity_check(), Ok(()));
}

#[test]
fn a_version_2_container_with_right_digests_passes() {
    let tree = readme_tree();
    let mut records = record(0x7fff, 0, 5, MD5_OF_HELLO);
    records.extend(record(0x7fff, 5, 5, MD5_OF_HELLO));
    let bytes = version_2(&tree, b"hellohello", &records, &other_md5(&tree, &records));
    let vpk = open(&bytes);
    assert_eq!(vpk.directory.len(), 1);
    assert_eq!(vpk.integrity_check(), Ok(()));
}

#[test]
fn the_digests_are_those_of_the_tree_and_of_the_records() {
    let tree = readme_tree();
    let records = record(0x7fff, 0, 5, MD5_OF_HELLO);
    let mut section = Vec::new();
    section.extend_from_slice(&[0x11; 16]);
    section.extend_from_slice(&[0x22; 16]);
    section.extend_from_slice(&[0x33; 16]);
    let vpk = open(&version_2(&tree, b"hello", &records, &section));
    assert_eq!(
        vpk.integrity_check(),
        Err(IntegrityError::Mismatch(vec![
            HashMismatch::Other(HashCompare { expect: [0x11; 16], got: md5::compute(&tree).0 }),
            HashMismatch::Other(HashCompare { expect: [0x22; 16], got: md5::compute(&records).0 }),
        ]))
    );
}

#[test]
fn the_digest_of_an_empty_record_section_is_that_of_no_bytes() {
    let tree = readme_tree();
    let mut section = Vec::new();
    section.extend_from_slice(&md5::compute(&tree).0);
    section.extend_from_slice(&[0; 16]);
    section.extend_from_slice(&[0; 16]);
    let vpk = open(&version_2(&tree, b"", &[], &section));
    assert_eq!(
        vpk.integrity_check(),
        Err(IntegrityError::Mismatch(vec![HashMismatch::Other(HashCompare {
            expect: [0; 16],
            got: [212, 29, 140, 217, 143, 0, 178, 4, 233, 128, 9, 152, 236, 248, 66, 126],
        })]))
    );
}

#[test]
fn one_wrong_byte_in_the_file_data_is_found() {
    let tree = readme_tree();
    let mut records = record(0x7fff, 0, 5, MD5_OF_HELLO);
    records.extend(record(0x7fff, 5, 5, MD5_OF_HELLO));
    let bytes = version_2(&tree, b"hellohellp", &records, &other_md5(&tree, &records));
    let vpk = open(&bytes);
    assert_eq!(
        vpk.integrity_check(),
        Err(IntegrityError::Mismatch(vec![HashMismatch::Data((
            0x7fff,
            HashCompare {
                expect: MD5_OF_HELLO,
                got: [201, 131, 25, 4, 131, 223, 22, 125, 42, 56, 65, 70, 60, 42, 147, 65],
            }
        ))]))
    );
}

#[test]
fn a_changed_tree_is_found_by_its_digest() {
    let tree = readme_tree();
    let section = other_md5(&tree, &[]);
    let mut changed = tree.clone();
    changed[0] = b'T';
    let vpk = open(&version_2(&changed, b"", &[], &section));
    assert_eq!(vpk.directory[0].0, "Txt");
    assert_eq!(
        vpk.integrity_check(),
        Err(IntegrityError::Mismatch(vec![HashMismatch::Other(HashCompare {
            expect: md5::compute(&tree).0,
            got: md5::compute(&changed).0,
        })]))
    );
}

#[test]
fn archives_beside_the_container_are_asked_for() {
    let tree = readme_tree();
    let records = record(12, 1, 5, MD5_OF_HELLO);
    let mut vpk = open(&version_2(&tree, b"", &records, &[]));
    assert_eq!(vpk.pending_archive(), Some(12));
    assert_eq!(vpk.archive_file_name(12), "pak01_012.vpk");
    vpk.store_archive_data(12, Some(b"-hello-".to_vec()));
    assert_eq!(vpk.pending_archive(), None);
    assert_eq!(vpk.integrity_check(), Ok(()));
}

#[test]
fn a_wrong_signature_is_refused_before_anything_else() {
    let mut bytes = version_1(&readme_tree());
    bytes[3] = 0x54;
    assert_eq!(refusal(&bytes), DecodeError::BadSignature);
    assert_eq!(refusal(&words(&[0x1234_55aa, 7])), DecodeError::BadSignature);
    assert_eq!(refusal(&[]), DecodeError::BadSignature);
}

#[test]
fn another_version_is_refused() {
    let mut bytes = version_1(&readme_tree());
    bytes[4] = 3;
    assert_eq!(refusal(&bytes), DecodeError::UnsupportedVersion);
    assert_eq!(refusal(&words(&[0x55aa_1234, 0])), DecodeError::UnsupportedVersion);
}

#[test]
fn a_container_shorter_than_its_sections_is_refused() {
    let mut bytes = version_1(&readme_tree());
    bytes.pop();
    assert_eq!(refusal(&bytes), DecodeError::TruncatedContainer);
    let tree = readme_tree();
    let mut bytes = version_2(&tree, b"hello", &[], &[]);
    bytes.pop();
    assert_eq!(refusal(&bytes), DecodeError::TruncatedContainer);
    assert_eq!(refusal(&words(&[0x55aa_1234, 2, 0, 0, 0, 0, 1])), DecodeError::TruncatedContainer);
}

#[test]
fn a_tree_that_does_not_decode_is_refused() {
    let mut tree = readme_tree();
    let terminator = 4 + 4 + 7 + 16;
    tree[terminator] = 0;
    assert_eq!(refusal(&version_1(&tree)), DecodeError::BadTerminator);
    let mut tree = readme_tree();
    tree[1] = 0xff;
    assert_eq!(refusal(&version_1(&tree)), DecodeError::InvalidName);
    let tree = readme_tree();
    assert_eq!(refusal(&version_1(&tree[..tree.len() - 1])), DecodeError::TruncatedContainer);
    assert_eq!(refusal(&version_1(&[])), DecodeError::TruncatedContainer);
}

#[test]
fn bytes_behind_the_sections_are_not_looked_at() {
    let mut bytes = version_1(&readme_tree());
    bytes.extend_from_slice(b"whatever");
    assert_eq!(open(&bytes).directory.len(), 1);
    let mut tree = readme_tree();
    tree.extend_from_slice(b"more");
    assert_eq!(open(&version_1(&tree)).directory.len(), 1);
}

#[test]
fn decode_errors_turn_into_read_errors() {
    assert!(matches!(
        ReadError::from(DecodeError::InvalidName),
        ReadError::Decode(DecodeError::InvalidName)
    ));
    let missing = std::io::Error::new(std::io::ErrorKind::NotFound, "missing");
    assert!(matches!(ReadError::from(missing), ReadError::Io(_)));
}
