//! An open container: its directory, the archives that have been looked for so
//! far, and the check of its checksums.
//!
//! The library reads no files. What a caller has read it hands over as bytes:
//! the container to `vpk_from_bytes`, an archive to `store_archive_data`.

use crate::archive_name::{archive_file_name, spec_archive_file_name};
use crate::checksums::{
    other_md5_section, read_entries, spec_other_md5_section, spec_read_entries,
    VpkArchiveMd5Section, VpkOtherMd5Section,
};
use crate::digest::md5_digest;
use crate::directory::{read_directory, spec_read_directory, ExtensionLayer, ExtensionLayerModel};
use crate::error::DecodeError;
use crate::header::{header, spec_header};
use crate::sections::{sections, spec_sections};
use std::collections::HashMap;
use std::rc::Rc;
use vstd::prelude::*;
use vstd::slice::{slice_subrange, slice_to_vec};

verus! {

/// The archive index that stands for the container's own file data.
pub const EMBEDDED_ARCHIVE: u32 = 0x7fff;

/// `std::io::Error`, the error of an operation on a file. Nothing is claimed of
/// what it holds.
#[verifier::external_type_specification]
#[verifier::external_body]
pub struct ExIoError(std::io::Error);

/// Why a container could not be read.
#[derive(Debug)]
pub enum ReadError {
    /// The file could not be read.
    Io(std::io::Error),
    /// The bytes are not a container.
    Decode(DecodeError),
}

impl From<std::io::Error> for ReadError {
    fn from(err: std::io::Error) -> (r: ReadError) {
        ReadError::Io(err)
    }
}

impl vstd::std_specs::convert::FromSpecImpl<std::io::Error> for ReadError {
    open spec fn obeys_from_spec() -> bool {
        true
    }

    open spec fn from_spec(err: std::io::Error) -> ReadError {
        ReadError::Io(err)
    }
}

impl From<DecodeError> for ReadError {
    fn from(err: DecodeError) -> (r: ReadError) {
        ReadError::Decode(err)
    }
}

impl vstd::std_specs::convert::FromSpecImpl<DecodeError> for ReadError {
    open spec fn obeys_from_spec() -> bool {
        true
    }

    open spec fn from_spec(err: DecodeError) -> ReadError {
        ReadError::Decode(err)
    }
}

/// A digest that was recorded and the digest that was found in its place.
#[derive(Debug, Clone, Copy, PartialEq, Eq)]
pub struct HashCompare {
    pub expect: [u8; 16],
    pub got: [u8; 16],
}

/// One digest that is not what the container records.
#[derive(Debug, Clone, Copy, PartialEq, Eq)]
pub enum HashMismatch {
    /// A stretch of the archive with this index.
    Data((u32, HashCompare)),
    /// A section of the container itself: the directory tree, or the archive
    /// checksum records.
    Other(HashCompare),
}

/// Why the integrity check did not confirm the container.
#[derive(Debug, Clone, PartialEq, Eq)]
pub enum IntegrityError {
    /// A checksum section cannot be read.
    Decode(DecodeError),
    /// The check ran, and these digests are not what the container records.
    Mismatch(Vec<HashMismatch>),
    /// A checksum record speaks of bytes that are not there: its archive was
    /// not loaded or does not exist, or is shorter than the record says.
    Unavailable(u32),
}

/// An `IntegrityError` as a mathematical value.
pub ghost enum CheckFailure {
    Decode(DecodeError),
    Mismatch(Seq<HashMismatch>),
    Unavailable(u32),
}

impl View for IntegrityError {
    type V = CheckFailure;

    open spec fn view(&self) -> CheckFailure {
        match self {
            IntegrityError::Decode(e) => CheckFailure::Decode(*e),
            IntegrityError::Mismatch(findings) => CheckFailure::Mismatch(findings@),
            IntegrityError::Unavailable(index) => CheckFailure::Unavailable(*index),
        }
    }
}

impl From<DecodeError> for IntegrityError {
    fn from(err: DecodeError) -> (r: IntegrityError) {
        IntegrityError::Decode(err)
    }
}

impl vstd::std_specs::convert::FromSpecImpl<DecodeError> for IntegrityError {
    open spec fn obeys_from_spec() -> bool {
        true
    }

    open spec fn from_spec(err: DecodeError) -> IntegrityError {
        IntegrityError::Decode(err)
    }
}

/// What is known of an archive's bytes.
#[derive(Debug, Clone)]
pub enum ArchiveData {
    /// The bytes of the archive.
    Loaded(Rc<Vec<u8>>),
    /// The archive was looked for and was not there.
    Absent,
    /// Nobody has looked for the archive yet.
    NotAttempted,
}

/// An `ArchiveData` as a mathematical value.
pub ghost enum Resolution {
    Loaded(Seq<u8>),
    Absent,
    NotAttempted,
}

impl View for ArchiveData {
    type V = Resolution;

    open spec fn view(&self) -> Resolution {
        match self {
            ArchiveData::Loaded(data) => Resolution::Loaded(data@),
            ArchiveData::Absent => Resolution::Absent,
            ArchiveData::NotAttempted => Resolution::NotAttempted,
        }
    }
}

/// An open container as a mathematical value.
pub ghost struct VpkModel {
    /// The name of the container's file without its extension.
    pub stem: Seq<char>,
    pub directory: ExtensionLayerModel,
    /// The file data that the container itself holds.
    pub file_data: Seq<u8>,
    /// The archives that were looked for, each with what was found.
    pub cache: Map<u32, Option<Seq<u8>>>,
    /// The section of archive checksum records, as it was read.
    pub archive_md5: Seq<u8>,
    /// The section of the container's own checksums, as it was read.
    pub other_md5: Seq<u8>,
    /// The digest of the tree section.
    pub tree_checksum: [u8; 16],
    /// The digest of the section of archive checksum records.
    pub archive_md5_checksum: [u8; 16],
}

/// An open container.
pub struct IncomingVpk {
    stem: String,
    pub directory: ExtensionLayer,
    file_data: Rc<Vec<u8>>,
    cached_data: HashMap<u32, Option<Rc<Vec<u8>>>>,
    archive_md5: Vec<u8>,
    other_md5: Vec<u8>,
    tree_checksum: [u8; 16],
    archive_md5_checksum: [u8; 16],
}

/// What a cache entry holds, as a mathematical value.
pub open spec fn outcome_view(outcome: Option<Rc<Vec<u8>>>) -> Option<Seq<u8>> {
    match outcome {
        Some(data) => Some(data@),
        None => None,
    }
}

impl View for IncomingVpk {
    type V = VpkModel;

    closed spec fn view(&self) -> VpkModel {
        VpkModel {
            stem: self.stem@,
            directory: self.directory.deep_view(),
            file_data: self.file_data@,
            cache: Map::new(
                |index: u32| self.cached_data@.contains_key(index),
                |index: u32| outcome_view(self.cached_data@[index]),
            ),
            archive_md5: self.archive_md5@,
            other_md5: self.other_md5@,
            tree_checksum: self.tree_checksum,
            archive_md5_checksum: self.archive_md5_checksum,
        }
    }
}

/// The bytes of an outcome, as a mathematical value.
pub open spec fn outcome_bytes(outcome: Option<Vec<u8>>) -> Option<Seq<u8>> {
    match outcome {
        Some(bytes) => Some(bytes@),
        None => None,
    }
}

/// What is known of the archive `index`: the container's own file data for
/// `EMBEDDED_ARCHIVE`, else what the cache holds.
pub open spec fn resolve(vpk: VpkModel, index: u32) -> Resolution {
    if index == EMBEDDED_ARCHIVE {
        Resolution::Loaded(vpk.file_data)
    } else if vpk.cache.contains_key(index) {
        match vpk.cache[index] {
            Some(data) => Resolution::Loaded(data),
            None => Resolution::Absent,
        }
    } else {
        Resolution::NotAttempted
    }
}

/// The container after an attempt to load the archive `index` has ended with
/// `outcome`. What is known of an archive stays as it is.
pub open spec fn store(vpk: VpkModel, index: u32, outcome: Option<Seq<u8>>) -> VpkModel {
    if resolve(vpk, index) is NotAttempted {
        VpkModel { cache: vpk.cache.insert(index, outcome), ..vpk }
    } else {
        vpk
    }
}

/// The bytes that `record` vouches for, when they are there.
pub open spec fn record_data(vpk: VpkModel, record: VpkArchiveMd5Section) -> Option<Seq<u8>> {
    match resolve(vpk, record.archive_index) {
        Resolution::Loaded(data) => if record.starting_offset + record.count <= data.len() {
            Some(
                data.subrange(
                    record.starting_offset as int,
                    record.starting_offset + record.count,
                ),
            )
        } else {
            None
        },
        _ => None,
    }
}

/// The archive of the first record whose bytes are not there.
pub open spec fn first_unavailable(
    vpk: VpkModel,
    records: Seq<VpkArchiveMd5Section>,
) -> Option<u32>
    decreases records.len(),
{
    if records.len() == 0 {
        None
    } else if record_data(vpk, records[0]) is None {
        Some(records[0].archive_index)
    } else {
        first_unavailable(vpk, records.drop_first())
    }
}

/// The archive that has to be looked for before the check can go on: that of
/// the first record whose archive nobody has looked for, unless the check stops
/// at an earlier record.
pub open spec fn first_pending(vpk: VpkModel, records: Seq<VpkArchiveMd5Section>) -> Option<u32>
    decreases records.len(),
{
    if records.len() == 0 {
        None
    } else if resolve(vpk, records[0].archive_index) is NotAttempted {
        Some(records[0].archive_index)
    } else if record_data(vpk, records[0]) is None {
        None
    } else {
        first_pending(vpk, records.drop_first())
    }
}

/// The finding, if any, for a record whose bytes have the digest `computed`.
pub open spec fn spec_chunk_finding(
    record: VpkArchiveMd5Section,
    computed: [u8; 16],
) -> Option<HashMismatch> {
    if record.md5_checksum == computed {
        None
    } else {
        Some(
            HashMismatch::Data(
                (record.archive_index, HashCompare { expect: record.md5_checksum, got: computed }),
            ),
        )
    }
}

/// The finding, if any, for a record of the container.
pub open spec fn record_finding(vpk: VpkModel, record: VpkArchiveMd5Section) -> Option<
    HashMismatch,
> {
    spec_chunk_finding(record, md5_digest(record_data(vpk, record).unwrap()))
}

/// The findings for `records`, in their order: one for each record whose bytes
/// do not have the digest that it holds.
pub open spec fn chunk_findings(
    vpk: VpkModel,
    records: Seq<VpkArchiveMd5Section>,
) -> Seq<HashMismatch> {
    records.filter_map(|record: VpkArchiveMd5Section| record_finding(vpk, record))
}

/// The findings for the container's own sections: one if the digest of the tree
/// is not the one recorded, then one if the digest of the archive checksum
/// records is not the one recorded.
pub open spec fn spec_aggregate_findings(
    section: VpkOtherMd5Section,
    tree_checksum: [u8; 16],
    archive_md5_checksum: [u8; 16],
) -> Seq<HashMismatch> {
    let tree = if section.tree_checksum == tree_checksum {
        Seq::empty()
    } else {
        seq![HashMismatch::Other(HashCompare { expect: section.tree_checksum, got: tree_checksum })]
    };
    let table = if section.archive_md5_section_checksum == archive_md5_checksum {
        Seq::empty()
    } else {
        seq![
            HashMismatch::Other(
                HashCompare {
                    expect: section.archive_md5_section_checksum,
                    got: archive_md5_checksum,
                },
            ),
        ]
    };
    tree + table
}

/// The findings for the container's own sections. A container without the
/// section that records their digests has none.
pub open spec fn container_findings(vpk: VpkModel) -> Result<Seq<HashMismatch>, DecodeError> {
    if vpk.other_md5.len() == 0 {
        Ok(Seq::empty())
    } else {
        match spec_other_md5_section(vpk.other_md5) {
            Err(e) => Err(e),
            Ok((_, section)) => Ok(
                spec_aggregate_findings(section, vpk.tree_checksum, vpk.archive_md5_checksum),
            ),
        }
    }
}

/// What the integrity check says of a container.
pub open spec fn spec_integrity_check(vpk: VpkModel) -> Result<(), CheckFailure> {
    match spec_read_entries(vpk.archive_md5) {
        Err(e) => Err(CheckFailure::Decode(e)),
        Ok((_, records)) => match first_unavailable(vpk, records) {
            Some(index) => Err(CheckFailure::Unavailable(index)),
            None => match container_findings(vpk) {
                Err(e) => Err(CheckFailure::Decode(e)),
                Ok(others) => {
                    let findings = chunk_findings(vpk, records) + others;
                    if findings.len() == 0 {
                        Ok(())
                    } else {
                        Err(CheckFailure::Mismatch(findings))
                    }
                },
            },
        },
    }
}

/// The archive that has to be looked for before the integrity check can give
/// its answer.
pub open spec fn spec_pending_archive(vpk: VpkModel) -> Option<u32> {
    match spec_read_entries(vpk.archive_md5) {
        Err(_) => None,
        Ok((_, records)) => first_pending(vpk, records),
    }
}

/// The container that the bytes `data` of a file with the name `stem` hold.
pub open spec fn spec_vpk_from_bytes(stem: Seq<char>, data: Seq<u8>) -> Result<
    VpkModel,
    DecodeError,
> {
    match spec_header(data) {
        Err(e) => Err(e),
        Ok((after_header, header)) => {
            let sizes = header.section_sizes();
            match spec_sections(after_header, sizes.0, sizes.1, sizes.2, sizes.3, sizes.4) {
                Err(e) => Err(e),
                Ok((_, parts)) => match spec_read_directory(parts.0) {
                    Err(e) => Err(e),
                    Ok((_, directory)) => Ok(
                        VpkModel {
                            stem,
                            directory,
                            file_data: parts.1,
                            cache: Map::empty(),
                            archive_md5: parts.2,
                            other_md5: parts.3,
                            tree_checksum: md5_digest(parts.0),
                            archive_md5_checksum: md5_digest(parts.2),
                        },
                    ),
                },
            }
        },
    }
}

/// Whether the bytes that `record` vouches for are there and have the digest
/// that it holds.
pub open spec fn record_matches(vpk: VpkModel, record: VpkArchiveMd5Section) -> bool {
    record_data(vpk, record) matches Some(data) && md5_digest(data) == record.md5_checksum
}

/// The finding for a record whose bytes are there and do not have the digest
/// that it holds.
pub open spec fn data_mismatch(vpk: VpkModel, record: VpkArchiveMd5Section) -> HashMismatch {
    HashMismatch::Data(
        (
            record.archive_index,
            HashCompare {
                expect: record.md5_checksum,
                got: md5_digest(record_data(vpk, record).unwrap()),
            },
        ),
    )
}

/// Whether the container, if it records digests of its own sections, records
/// the right one for the archive checksum records.
pub open spec fn table_digest_matches(vpk: VpkModel) -> bool {
    vpk.other_md5.len() == 0 || (spec_other_md5_section(vpk.other_md5) matches Ok((_, section))
        && section.archive_md5_section_checksum == vpk.archive_md5_checksum)
}

/// Whether the container, if it records digests of its own sections, records
/// the right one for the directory tree.
pub open spec fn tree_digest_matches(vpk: VpkModel) -> bool {
    vpk.other_md5.len() == 0 || (spec_other_md5_section(vpk.other_md5) matches Ok((_, section))
        && section.tree_checksum == vpk.tree_checksum)
}

/// Two containers opened from the same bytes have the same directory tree, the
/// same file data, the same checksum sections and the same digests, whatever
/// their files are called.
pub proof fn lemma_same_bytes_same_container(
    data: Seq<u8>,
    stem_a: Seq<char>,
    stem_b: Seq<char>,
    a: VpkModel,
    b: VpkModel,
)
    requires
        spec_vpk_from_bytes(stem_a, data) == Ok::<VpkModel, DecodeError>(a),
        spec_vpk_from_bytes(stem_b, data) == Ok::<VpkModel, DecodeError>(b),
    ensures
        a.directory == b.directory,
        a.file_data == b.file_data,
        a.archive_md5 == b.archive_md5,
        a.other_md5 == b.other_md5,
        a.tree_checksum == b.tree_checksum,
        a.archive_md5_checksum == b.archive_md5_checksum,
        a.cache == b.cache,
{
}

/// Bytes whose header is refused are refused for the same reason as a whole:
/// no section is looked at.
pub proof fn lemma_refused_header_refuses_container(stem: Seq<char>, data: Seq<u8>)
    requires
        spec_header(data) is Err,
    ensures
        spec_vpk_from_bytes(stem, data) == Err::<VpkModel, DecodeError>(
            spec_header(data)->Err_0,
        ),
{
}

/// The archive `EMBEDDED_ARCHIVE` is the container's own file data, whatever
/// was stored and for whichever archive.
pub proof fn lemma_embedded_archive_is_file_data(
    vpk: VpkModel,
    index: u32,
    outcome: Option<Seq<u8>>,
)
    ensures
        resolve(vpk, EMBEDDED_ARCHIVE) == Resolution::Loaded(vpk.file_data),
        resolve(store(vpk, index, outcome), EMBEDDED_ARCHIVE) == Resolution::Loaded(
            vpk.file_data,
        ),
        store(vpk, EMBEDDED_ARCHIVE, outcome) == vpk,
{
}

/// Once the outcome of looking for an archive is stored, the archive counts as
/// looked for, and what is known of it no longer changes: an archive that was
/// not there stays absent, and one that was keeps its bytes. What is known of
/// the other archives is untouched.
pub proof fn lemma_outcome_is_remembered(
    vpk: VpkModel,
    index: u32,
    first: Option<Seq<u8>>,
    second: Option<Seq<u8>>,
    other: u32,
)
    requires
        other != index,
    ensures
        !(resolve(store(vpk, index, first), index) is NotAttempted),
        resolve(vpk, index) is NotAttempted ==> resolve(store(vpk, index, first), index) == (
        match first {
            Some(data) => Resolution::Loaded(data),
            None => Resolution::Absent,
        }),
        !(resolve(vpk, index) is NotAttempted) ==> store(vpk, index, first) == vpk,
        store(store(vpk, index, first), index, second) == store(vpk, index, first),
        resolve(store(vpk, index, first), other) == resolve(vpk, other),
{
}

/// Records that all match give no finding.
pub proof fn lemma_matching_records_give_no_finding(
    vpk: VpkModel,
    records: Seq<VpkArchiveMd5Section>,
)
    requires
        forall|i: int| 0 <= i < records.len() ==> record_matches(vpk, #[trigger] records[i]),
    ensures
        chunk_findings(vpk, records) == Seq::<HashMismatch>::empty(),
    decreases records.len(),
{
    if records.len() > 0 {
        let before = records.drop_last();
        assert forall|i: int| 0 <= i < before.len() implies record_matches(
            vpk,
            #[trigger] before[i],
        ) by {
            assert(before[i] == records[i]);
        }
        lemma_matching_records_give_no_finding(vpk, before);
        assert(record_matches(vpk, records[records.len() - 1]));
    }
}

/// Where the record at `k` is the only one whose bytes do not have their
/// digest, the findings for the records are the one for that record.
pub proof fn lemma_one_wrong_record_gives_one_finding(
    vpk: VpkModel,
    records: Seq<VpkArchiveMd5Section>,
    k: int,
)
    requires
        0 <= k < records.len(),
        record_data(vpk, records[k]) is Some,
        !record_matches(vpk, records[k]),
        forall|i: int|
            0 <= i < records.len() && i != k ==> record_matches(vpk, #[trigger] records[i]),
    ensures
        chunk_findings(vpk, records) == seq![data_mismatch(vpk, records[k])],
    decreases records.len(),
{
    let before = records.drop_last();
    if k == records.len() - 1 {
        assert forall|i: int| 0 <= i < before.len() implies record_matches(
            vpk,
            #[trigger] before[i],
        ) by {
            assert(before[i] == records[i]);
        }
        lemma_matching_records_give_no_finding(vpk, before);
        assert(Seq::<HashMismatch>::empty().push(data_mismatch(vpk, records[k]))
            =~= seq![data_mismatch(vpk, records[k])]);
    } else {
        assert(before[k] == records[k]);
        assert forall|i: int| 0 <= i < before.len() && i != k implies record_matches(
            vpk,
            #[trigger] before[i],
        ) by {
            assert(before[i] == records[i]);
        }
        lemma_one_wrong_record_gives_one_finding(vpk, before, k);
        assert(record_matches(vpk, records[records.len() - 1]));
    }
}

/// Where every record's bytes have their digest and the container's own
/// sections have theirs, the check confirms the container.
pub proof fn lemma_check_confirms_matching_container(vpk: VpkModel)
    requires
        spec_read_entries(vpk.archive_md5) matches Ok((_, records)) && forall|i: int|
            0 <= i < records.len() ==> record_matches(vpk, #[trigger] records[i]),
        tree_digest_matches(vpk),
        table_digest_matches(vpk),
    ensures
        spec_integrity_check(vpk) == Ok::<(), CheckFailure>(()),
{
    let records = spec_read_entries(vpk.archive_md5)->Ok_0.1;
    lemma_all_available(vpk, records);
    lemma_matching_records_give_no_finding(vpk, records);
}

/// Where the record at `k` is the only one whose bytes do not have their
/// digest, and the container's own sections have theirs, the check reports the
/// finding for that record and no other.
pub proof fn lemma_check_reports_one_wrong_record(vpk: VpkModel, k: int)
    requires
        spec_read_entries(vpk.archive_md5) matches Ok((_, records)) && 0 <= k < records.len()
            && record_data(vpk, records[k]) is Some && !record_matches(vpk, records[k])
            && forall|i: int|
            0 <= i < records.len() && i != k ==> record_matches(vpk, #[trigger] records[i]),
        tree_digest_matches(vpk),
        table_digest_matches(vpk),
    ensures
        spec_integrity_check(vpk) == Err::<(), CheckFailure>(
            CheckFailure::Mismatch(
                seq![data_mismatch(vpk, spec_read_entries(vpk.archive_md5)->Ok_0.1[k])],
            ),
        ),
{
    let records = spec_read_entries(vpk.archive_md5)->Ok_0.1;
    lemma_all_available(vpk, records);
    lemma_one_wrong_record_gives_one_finding(vpk, records, k);
    let others = container_findings(vpk)->Ok_0;
    assert(chunk_findings(vpk, records) + others =~= chunk_findings(vpk, records));
}

/// Whether `changed` is `vpk` with one byte of the archive `index` changed, the
/// byte at `place`, and nothing else.
pub open spec fn one_byte_changed(vpk: VpkModel, changed: VpkModel, index: u32, place: int) -> bool {
    &&& changed.archive_md5 == vpk.archive_md5
    &&& changed.other_md5 == vpk.other_md5
    &&& changed.tree_checksum == vpk.tree_checksum
    &&& changed.archive_md5_checksum == vpk.archive_md5_checksum
    &&& forall|other: u32| other != index ==> resolve(changed, other) == resolve(vpk, other)
    &&& resolve(vpk, index) matches Resolution::Loaded(data) && resolve(changed, index) matches Resolution::Loaded(
        altered,
    ) && 0 <= place < data.len() && altered.len() == data.len() && altered[place] != data[place]
        && forall|q: int| 0 <= q < data.len() && q != place ==> altered[q] == data[q]
}

/// Whether the byte at `place` of the archive `index` is one of the bytes that
/// `record` vouches for.
pub open spec fn covers(record: VpkArchiveMd5Section, index: u32, place: int) -> bool {
    record.archive_index == index && record.starting_offset <= place < record.starting_offset
        + record.count
}

/// Where a container passes the check and then one byte changes that lies in
/// the stretch of the record at `k` and of no other record, the check reports
/// the finding for that record and no other, provided that the changed stretch
/// no longer has the digest that the record holds.
pub proof fn lemma_one_changed_byte_gives_one_finding(
    vpk: VpkModel,
    changed: VpkModel,
    k: int,
    place: int,
)
    requires
        spec_integrity_check(vpk) == Ok::<(), CheckFailure>(()),
        spec_read_entries(vpk.archive_md5) matches Ok((_, records)) && 0 <= k < records.len()
            && one_byte_changed(vpk, changed, records[k].archive_index, place) && covers(
            records[k],
            records[k].archive_index,
            place,
        ) && (forall|i: int|
            0 <= i < records.len() && i != k ==> !covers(
                #[trigger] records[i],
                records[k].archive_index,
                place,
            )) && md5_digest(record_data(changed, records[k]).unwrap())
            != records[k].md5_checksum,
    ensures
        spec_integrity_check(changed) == Err::<(), CheckFailure>(
            CheckFailure::Mismatch(
                seq![data_mismatch(changed, spec_read_entries(vpk.archive_md5)->Ok_0.1[k])],
            ),
        ),
{
    let records = spec_read_entries(vpk.archive_md5)->Ok_0.1;
    let index = records[k].archive_index;
    lemma_none_unavailable(vpk, records);
    let others = container_findings(vpk)->Ok_0;
    assert(chunk_findings(vpk, records).len() == 0 && others.len() == 0) by {
        assert((chunk_findings(vpk, records) + others).len() == 0);
    }
    lemma_no_finding_means_matching(vpk, records);
    assert forall|i: int| 0 <= i < records.len() && i != k implies record_matches(
        changed,
        #[trigger] records[i],
    ) by {
        assert(record_matches(vpk, records[i]));
        if records[i].archive_index == index {
            assert(record_data(changed, records[i]).unwrap() =~= record_data(
                vpk,
                records[i],
            ).unwrap());
        }
    }
    assert(record_matches(vpk, records[k]));
    assert(tree_digest_matches(changed) && table_digest_matches(changed)) by {
        if vpk.other_md5.len() != 0 {
            let section = spec_other_md5_section(vpk.other_md5)->Ok_0.1;
            let found = spec_aggregate_findings(
                section,
                vpk.tree_checksum,
                vpk.archive_md5_checksum,
            );
            assert(found.len() == 0);
        }
    }
    lemma_check_reports_one_wrong_record(changed, k);
}

/// Where no record is the first whose bytes are not there, the bytes of every
/// record are there.
proof fn lemma_none_unavailable(vpk: VpkModel, records: Seq<VpkArchiveMd5Section>)
    requires
        first_unavailable(vpk, records) is None,
    ensures
        forall|i: int| 0 <= i < records.len() ==> record_data(vpk, #[trigger] records[i]) is Some,
    decreases records.len(),
{
    if records.len() > 0 {
        let more = records.drop_first();
        lemma_none_unavailable(vpk, more);
        assert forall|i: int| 0 <= i < records.len() implies record_data(
            vpk,
            #[trigger] records[i],
        ) is Some by {
            if i > 0 {
                assert(records[i] == more[i - 1]);
            }
        }
    }
}

/// Records whose bytes are there and that give no finding all match.
proof fn lemma_no_finding_means_matching(vpk: VpkModel, records: Seq<VpkArchiveMd5Section>)
    requires
        forall|i: int| 0 <= i < records.len() ==> record_data(vpk, #[trigger] records[i]) is Some,
        chunk_findings(vpk, records).len() == 0,
    ensures
        forall|i: int| 0 <= i < records.len() ==> record_matches(vpk, #[trigger] records[i]),
    decreases records.len(),
{
    if records.len() > 0 {
        let before = records.drop_last();
        assert forall|i: int| 0 <= i < before.len() implies record_data(
            vpk,
            #[trigger] before[i],
        ) is Some by {
            assert(before[i] == records[i]);
        }
        assert(record_finding(vpk, records.last()) is None && chunk_findings(vpk, before).len()
            == 0);
        lemma_no_finding_means_matching(vpk, before);
        assert forall|i: int| 0 <= i < records.len() implies record_matches(
            vpk,
            #[trigger] records[i],
        ) by {
            if i < before.len() {
                assert(records[i] == before[i]);
            }
        }
    }
}

/// Where the tree does not have the digest that the container records for it,
/// and the archive checksum records have theirs, the check reports the findings
/// for the records, whatever they are, and after them one for the tree.
pub proof fn lemma_check_reports_wrong_tree(vpk: VpkModel)
    requires
        spec_read_entries(vpk.archive_md5) matches Ok((_, records)) && first_unavailable(
            vpk,
            records,
        ) is None,
        spec_other_md5_section(vpk.other_md5) is Ok,
        !tree_digest_matches(vpk),
        table_digest_matches(vpk),
    ensures
        spec_integrity_check(vpk) == Err::<(), CheckFailure>(
            CheckFailure::Mismatch(
                chunk_findings(vpk, spec_read_entries(vpk.archive_md5)->Ok_0.1).push(
                    HashMismatch::Other(
                        HashCompare {
                            expect: spec_other_md5_section(vpk.other_md5)->Ok_0.1.tree_checksum,
                            got: vpk.tree_checksum,
                        },
                    ),
                ),
            ),
        ),
{
    let records = spec_read_entries(vpk.archive_md5)->Ok_0.1;
    let section = spec_other_md5_section(vpk.other_md5)->Ok_0.1;
    let finding = HashMismatch::Other(
        HashCompare { expect: section.tree_checksum, got: vpk.tree_checksum },
    );
    let others = container_findings(vpk)->Ok_0;
    assert(others =~= seq![finding]);
    assert(chunk_findings(vpk, records) + others =~= chunk_findings(vpk, records).push(finding));
}

/// When no archive is pending, the check does not stop for want of an archive
/// that nobody has looked for.
pub proof fn lemma_nothing_pending_nothing_unattempted(vpk: VpkModel)
    requires
        spec_pending_archive(vpk) is None,
    ensures
        spec_integrity_check(vpk) matches Err(CheckFailure::Unavailable(index)) ==> !(resolve(
            vpk,
            index,
        ) is NotAttempted),
{
    if let Ok((_, records)) = spec_read_entries(vpk.archive_md5) {
        lemma_pending_none(vpk, records);
    }
}

/// Among records of which none is pending, the first whose bytes are not there
/// names an archive that was looked for.
proof fn lemma_pending_none(vpk: VpkModel, records: Seq<VpkArchiveMd5Section>)
    requires
        first_pending(vpk, records) is None,
    ensures
        first_unavailable(vpk, records) matches Some(index) ==> !(resolve(vpk, index)
            is NotAttempted),
    decreases records.len(),
{
    if records.len() > 0 && record_data(vpk, records[0]) is Some {
        lemma_pending_none(vpk, records.drop_first());
    }
}

/// The record at `i` is the first whose bytes are not there.
proof fn lemma_first_unavailable_at(vpk: VpkModel, records: Seq<VpkArchiveMd5Section>, i: int)
    requires
        0 <= i < records.len(),
        forall|j: int| 0 <= j < i ==> record_data(vpk, records[j]) is Some,
        record_data(vpk, records[i]) is None,
    ensures
        first_unavailable(vpk, records) == Some(records[i].archive_index),
    decreases i,
{
    if i > 0 {
        let more = records.drop_first();
        assert forall|j: int| 0 <= j < i - 1 implies record_data(vpk, more[j]) is Some by {
            assert(more[j] == records[j + 1]);
        }
        lemma_first_unavailable_at(vpk, more, i - 1);
    }
}

/// Where the bytes of every record are there, none is the first without.
proof fn lemma_all_available(vpk: VpkModel, records: Seq<VpkArchiveMd5Section>)
    requires
        forall|j: int| 0 <= j < records.len() ==> record_data(vpk, records[j]) is Some,
    ensures
        first_unavailable(vpk, records) is None,
    decreases records.len(),
{
    if records.len() > 0 {
        let more = records.drop_first();
        assert forall|j: int| 0 <= j < more.len() implies record_data(vpk, more[j]) is Some by {
            assert(more[j] == records[j + 1]);
        }
        lemma_all_available(vpk, more);
    }
}

/// Records whose archives were looked for and whose bytes are there do not
/// change what `first_pending` finds behind them.
proof fn lemma_first_pending_skip(vpk: VpkModel, records: Seq<VpkArchiveMd5Section>, i: int)
    requires
        0 <= i <= records.len(),
        forall|j: int| 0 <= j < i ==> record_data(vpk, records[j]) is Some,
    ensures
        first_pending(vpk, records) == first_pending(vpk, records.skip(i)),
    decreases i,
{
    if i > 0 {
        let more = records.drop_first();
        assert forall|j: int| 0 <= j < i - 1 implies record_data(vpk, more[j]) is Some by {
            assert(more[j] == records[j + 1]);
        }
        lemma_first_pending_skip(vpk, more, i - 1);
        assert(more.skip(i - 1) =~= records.skip(i));
        assert(record_data(vpk, records[0]) is Some);
    } else {
        assert(records.skip(0) =~= records);
    }
}

/// Calls `Rc::clone`. The claim: the new pointer leads to the same bytes as the
/// one it was made from.
#[verifier::external_body]
fn share(data: &Rc<Vec<u8>>) -> (r: Rc<Vec<u8>>)
    ensures
        r == *data,
{
    Rc::clone(data)
}

/// Whether two digests are the same.
fn same_digest(a: &[u8; 16], b: &[u8; 16]) -> (r: bool)
    ensures
        r == (*a == *b),
{
    let mut i: usize = 0;
    while i < 16
        invariant
            i <= 16,
            forall|j: int| 0 <= j < i ==> a@[j] == b@[j],
        decreases 16 - i,
    {
        if a[i] != b[i] {
            return false;
        }
        i += 1;
    }
    assert(*a =~= *b);
    true
}

/// Holds the digest that a record asks for against the digest of the bytes.
pub fn chunk_finding(record: &VpkArchiveMd5Section, computed: [u8; 16]) -> (r: Option<
    HashMismatch,
>)
    ensures
        r == spec_chunk_finding(*record, computed),
{
    if same_digest(&record.md5_checksum, &computed) {
        None
    } else {
        Some(
            HashMismatch::Data(
                (record.archive_index, HashCompare { expect: record.md5_checksum, got: computed }),
            ),
        )
    }
}

/// Holds the digests that the container records for its own sections against
/// the digests of these sections.
pub fn aggregate_findings(
    section: &VpkOtherMd5Section,
    tree_checksum: [u8; 16],
    archive_md5_checksum: [u8; 16],
) -> (r: Vec<HashMismatch>)
    ensures
        r@ == spec_aggregate_findings(*section, tree_checksum, archive_md5_checksum),
{
    let mut findings: Vec<HashMismatch> = Vec::new();
    if !same_digest(&section.tree_checksum, &tree_checksum) {
        findings.push(
            HashMismatch::Other(HashCompare { expect: section.tree_checksum, got: tree_checksum }),
        );
    }
    if !same_digest(&section.archive_md5_section_checksum, &archive_md5_checksum) {
        findings.push(
            HashMismatch::Other(
                HashCompare {
                    expect: section.archive_md5_section_checksum,
                    got: archive_md5_checksum,
                },
            ),
        );
    }
    assert(findings@ =~= spec_aggregate_findings(*section, tree_checksum, archive_md5_checksum));
    findings
}

impl IncomingVpk {
    /// A container whose file has the name `stem` without its extension, with
    /// its parts as they were read and no archive looked for yet.
    pub fn new(
        stem: String,
        directory: ExtensionLayer,
        file_data: Vec<u8>,
        archive_md5: Vec<u8>,
        other_md5: Vec<u8>,
        tree_checksum: [u8; 16],
        archive_md5_checksum: [u8; 16],
    ) -> (r: Self)
        ensures
            r@ == (VpkModel {
                stem: stem@,
                directory: directory.deep_view(),
                file_data: file_data@,
                cache: Map::empty(),
                archive_md5: archive_md5@,
                other_md5: other_md5@,
                tree_checksum,
                archive_md5_checksum,
            }),
    {
        let r = IncomingVpk {
            stem,
            directory,
            file_data: Rc::new(file_data),
            cached_data: HashMap::new(),
            archive_md5,
            other_md5,
            tree_checksum,
            archive_md5_checksum,
        };
        assert(r@.cache =~= Map::empty());
        r
    }

    /// The directory tree of the container.
    pub fn directory(&self) -> (r: &ExtensionLayer)
        ensures
            r.deep_view() == self@.directory,
    {
        &self.directory
    }

    /// The name of the file that holds the archive `index`. The file stands
    /// beside the container's.
    pub fn archive_file_name(&self, index: u32) -> (r: String)
        ensures
            r@ == spec_archive_file_name(self@.stem, index),
    {
        archive_file_name(self.stem.as_str(), index)
    }

    /// The bytes of the archive `index`, as far as they are known. For
    /// `EMBEDDED_ARCHIVE` these are the container's own file data; for another
    /// archive, what `store_archive_data` was first told of it.
    pub fn get_archive_data(&self, index: u32) -> (r: ArchiveData)
        ensures
            r@ == resolve(self@, index),
    {
        if index == EMBEDDED_ARCHIVE {
            ArchiveData::Loaded(share(&self.file_data))
        } else {
            match self.cached_data.get(&index) {
                Some(Some(data)) => ArchiveData::Loaded(share(data)),
                Some(None) => ArchiveData::Absent,
                None => ArchiveData::NotAttempted,
            }
        }
    }

    /// Records how an attempt to load the archive `index` ended: with its bytes,
    /// or with `None` when the archive could not be read. Only the first
    /// outcome for an archive is kept. Hands back what is then known of the
    /// archive.
    pub fn store_archive_data(&mut self, index: u32, outcome: Option<Vec<u8>>) -> (r: Option<
        Rc<Vec<u8>>,
    >)
        ensures
            final(self)@ == store(old(self)@, index, outcome_bytes(outcome)),
            match resolve(final(self)@, index) {
                Resolution::Loaded(data) => r matches Some(out) && out@ == data,
                Resolution::Absent => r is None,
                Resolution::NotAttempted => false,
            },
    {
        match self.get_archive_data(index) {
            ArchiveData::Loaded(data) => Some(data),
            ArchiveData::Absent => None,
            ArchiveData::NotAttempted => {
                let buffer: Option<Rc<Vec<u8>>> = match outcome {
                    Some(bytes) => Some(Rc::new(bytes)),
                    None => None,
                };
                let handed = match &buffer {
                    Some(data) => Some(share(data)),
                    None => None,
                };
                self.cached_data.insert(index, buffer);
                assert(self@.cache =~= old(self)@.cache.insert(index, outcome_bytes(outcome)));
                handed
            },
        }
    }

    /// The archive that has to be looked for before `integrity_check` can give
    /// its answer, if there is one.
    pub fn pending_archive(&self) -> (r: Option<u32>)
        ensures
            r == spec_pending_archive(self@),
    {
        let entries = match read_entries(self.archive_md5.as_slice()) {
            Ok((_, entries)) => entries,
            Err(_) => {
                return None;
            },
        };
        let mut i: usize = 0;
        while i < entries.len()
            invariant
                i <= entries@.len(),
                spec_read_entries(self@.archive_md5) matches Ok((_, records)) && records
                    == entries@,
                forall|j: int| 0 <= j < i ==> record_data(self@, entries@[j]) is Some,
            decreases entries@.len() - i,
        {
            let entry = entries[i];
            proof {
                lemma_first_pending_skip(self@, entries@, i as int);
                assert(entries@.skip(i as int)[0] == entries@[i as int]);
            }
            match self.get_archive_data(entry.archive_index) {
                ArchiveData::NotAttempted => {
                    return Some(entry.archive_index);
                },
                ArchiveData::Absent => {
                    return None;
                },
                ArchiveData::Loaded(data) => {
                    if entry.starting_offset as u64 + entry.count as u64 > data.len() as u64 {
                        return None;
                    }
                },
            }
            i += 1;
        }
        proof {
            lemma_first_pending_skip(self@, entries@, i as int);
        }
        None
    }

    /// Holds every digest that the container records against the bytes:
    /// `Ok` when all are right, and else every one that is wrong.
    pub fn integrity_check(&self) -> (r: Result<(), IntegrityError>)
        ensures
            match spec_integrity_check(self@) {
                Ok(()) => r is Ok,
                Err(e) => r matches Err(out_e) && out_e@ == e,
            },
    {
        let entries = match read_entries(self.archive_md5.as_slice()) {
            Ok((_, entries)) => entries,
            Err(e) => {
                return Err(IntegrityError::Decode(e));
            },
        };
        let mut failures: Vec<HashMismatch> = Vec::new();
        let mut i: usize = 0;
        while i < entries.len()
            invariant
                i <= entries@.len(),
                spec_read_entries(self@.archive_md5) matches Ok((_, records)) && records
                    == entries@,
                forall|j: int| 0 <= j < i ==> record_data(self@, entries@[j]) is Some,
                failures@ == chunk_findings(self@, entries@.take(i as int)),
            decreases entries@.len() - i,
        {
            let entry = entries[i];
            let data = match self.get_archive_data(entry.archive_index) {
                ArchiveData::Loaded(data) => data,
                _ => {
                    proof {
                        lemma_first_unavailable_at(self@, entries@, i as int);
                    }
                    return Err(IntegrityError::Unavailable(entry.archive_index));
                },
            };
            let end: u64 = entry.starting_offset as u64 + entry.count as u64;
            if end > data.len() as u64 {
                proof {
                    lemma_first_unavailable_at(self@, entries@, i as int);
                }
                return Err(IntegrityError::Unavailable(entry.archive_index));
            }
            let covered = slice_subrange(
                data.as_slice(),
                entry.starting_offset as usize,
                end as usize,
            );
            let computed = crate::digest::compute(covered);
            proof {
                assert(entries@.take(i + 1).drop_last() =~= entries@.take(i as int));
            }
            match chunk_finding(&entry, computed) {
                Some(finding) => {
                    failures.push(finding);
                },
                None => {},
            }
            i += 1;
        }
        proof {
            lemma_all_available(self@, entries@);
            assert(entries@.take(i as int) =~= entries@);
        }
        if !self.other_md5.is_empty() {
            let checksums = match other_md5_section(self.other_md5.as_slice()) {
                Ok((_, checksums)) => checksums,
                Err(e) => {
                    return Err(IntegrityError::Decode(e));
                },
            };
            let mut others = aggregate_findings(
                &checksums,
                self.tree_checksum,
                self.archive_md5_checksum,
            );
            failures.append(&mut others);
        } else {
            assert(failures@ + Seq::empty() =~= failures@);
        }
        if failures.is_empty() {
            Ok(())
        } else {
            Err(IntegrityError::Mismatch(failures))
        }
    }
}

/// Opens the container that the bytes `data` hold. `stem` is the name of the
/// container's file without its extension; the names of the archives' files
/// are made from it.
pub fn vpk_from_bytes(stem: String, data: &[u8]) -> (r: Result<IncomingVpk, ReadError>)
    ensures
        match spec_vpk_from_bytes(stem@, data@) {
            Ok(vpk) => r matches Ok(out) && out@ == vpk,
            Err(e) => r matches Err(ReadError::Decode(out_e)) && out_e == e,
        },
{
    let (buff, header) = match header(data) {
        Ok(read) => read,
        Err(e) => {
            return Err(ReadError::Decode(e));
        },
    };
    let (ts, fdss, ams, omss, sss) = header.section_sizes();
    let (tree, file_data, archive_md5, other_md5) = match sections(
        buff,
        ts,
        fdss,
        ams,
        omss,
        sss,
    ) {
        Ok((_, parts)) => (parts.0, parts.1, parts.2, parts.3),
        Err(e) => {
            return Err(ReadError::Decode(e));
        },
    };
    let tree_checksum = crate::digest::compute(tree);
    let archive_md5_checksum = crate::digest::compute(archive_md5);
    let directory = match read_directory(tree) {
        Ok((_, directory)) => directory,
        Err(e) => {
            return Err(ReadError::Decode(e));
        },
    };
    Ok(
        IncomingVpk::new(
            stem,
            directory,
            slice_to_vec(file_data),
            slice_to_vec(archive_md5),
            slice_to_vec(other_md5),
            tree_checksum,
            archive_md5_checksum,
        ),
    )
}

} // verus!
