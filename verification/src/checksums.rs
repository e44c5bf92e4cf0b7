//! The records that a version 2 container carries to vouch for its bytes: one
//! for each stretch of an archive, one for the container's own sections, and the
//! signature.

use crate::error::DecodeError;
use crate::primitives::{
    array_16, fixed_arr_16, le_u32, le_u32_value, length_prefixed, spec_length_prefixed, yields,
};
use vstd::prelude::*;

verus! {

/// The number of bytes that one archive checksum record takes.
pub const ARCHIVE_MD5_RECORD_SIZE: usize = 28;

/// The number of bytes that the record of the container's own checksums takes.
pub const OTHER_MD5_SECTION_SIZE: usize = 48;

/// The MD5 digest that a stretch of bytes in an archive must have.
#[derive(Debug, Clone, Copy, PartialEq, Eq)]
pub struct VpkArchiveMd5Section {
    /// The archive that holds the bytes.
    pub archive_index: u32,
    /// Where the stretch starts in the archive.
    pub starting_offset: u32,
    /// How many bytes the stretch has.
    pub count: u32,
    /// The digest that the stretch must have.
    pub md5_checksum: [u8; 16],
}

/// The MD5 digests that two sections of the container itself must have.
#[derive(Debug, Clone, Copy, PartialEq, Eq)]
pub struct VpkOtherMd5Section {
    /// The digest of the directory tree.
    pub tree_checksum: [u8; 16],
    /// The digest of the section that holds the archive checksum records.
    pub archive_md5_section_checksum: [u8; 16],
    /// Sixteen bytes whose meaning is not known.
    pub _unknown: [u8; 16],
}

/// The public key and the signature of a container. They are read and not
/// checked.
#[derive(Debug, Clone, Copy, PartialEq, Eq)]
pub struct VpkSignatureSection<'a> {
    pub public_key: &'a [u8],
    pub signature: &'a [u8],
}

/// A signature section as a mathematical value.
pub ghost struct SignatureModel {
    pub public_key: Seq<u8>,
    pub signature: Seq<u8>,
}

impl<'a> View for VpkSignatureSection<'a> {
    type V = SignatureModel;

    open spec fn view(&self) -> SignatureModel {
        SignatureModel { public_key: self.public_key@, signature: self.signature@ }
    }
}

/// The archive checksum record at the start of `s`.
pub open spec fn archive_md5_value(s: Seq<u8>) -> VpkArchiveMd5Section
    recommends
        s.len() >= ARCHIVE_MD5_RECORD_SIZE,
{
    VpkArchiveMd5Section {
        archive_index: le_u32_value(s),
        starting_offset: le_u32_value(s.skip(4)),
        count: le_u32_value(s.skip(8)),
        md5_checksum: array_16(s.skip(12)),
    }
}

/// One archive checksum record at the start of `s`.
pub open spec fn spec_archive_md5(s: Seq<u8>) -> Result<
    (Seq<u8>, VpkArchiveMd5Section),
    DecodeError,
> {
    if s.len() < ARCHIVE_MD5_RECORD_SIZE {
        Err(DecodeError::TruncatedContainer)
    } else {
        Ok((s.skip(ARCHIVE_MD5_RECORD_SIZE as int), archive_md5_value(s)))
    }
}

/// The archive checksum records that fill `s`: record `i` takes the bytes from
/// `28 * i` on, and no byte is left over. Bytes that do not make up a whole record
/// are refused.
pub open spec fn spec_read_entries(s: Seq<u8>) -> Result<
    (Seq<u8>, Seq<VpkArchiveMd5Section>),
    DecodeError,
> {
    if s.len() % (ARCHIVE_MD5_RECORD_SIZE as nat) != 0 {
        Err(DecodeError::TruncatedContainer)
    } else {
        Ok(
            (
                Seq::empty(),
                Seq::new(
                    s.len() / (ARCHIVE_MD5_RECORD_SIZE as nat),
                    |i: int| archive_md5_value(s.skip(ARCHIVE_MD5_RECORD_SIZE * i)),
                ),
            ),
        )
    }
}

/// The record of the container's own checksums at the start of `s`.
pub open spec fn spec_other_md5_section(s: Seq<u8>) -> Result<
    (Seq<u8>, VpkOtherMd5Section),
    DecodeError,
> {
    if s.len() < OTHER_MD5_SECTION_SIZE {
        Err(DecodeError::TruncatedContainer)
    } else {
        Ok(
            (
                s.skip(OTHER_MD5_SECTION_SIZE as int),
                VpkOtherMd5Section {
                    tree_checksum: array_16(s),
                    archive_md5_section_checksum: array_16(s.skip(16)),
                    _unknown: array_16(s.skip(32)),
                },
            ),
        )
    }
}

/// The signature section at the start of `s`: the public key and then the
/// signature, each behind its length.
pub open spec fn spec_signature_section(s: Seq<u8>) -> Result<
    (Seq<u8>, SignatureModel),
    DecodeError,
> {
    match spec_length_prefixed(s) {
        Err(e) => Err(e),
        Ok((after_key, public_key)) => match spec_length_prefixed(after_key) {
            Err(e) => Err(e),
            Ok((rest, signature)) => Ok((rest, SignatureModel { public_key, signature })),
        },
    }
}

/// Reads one archive checksum record.
pub fn archive_md5(input: &[u8]) -> (r: Result<(&[u8], VpkArchiveMd5Section), DecodeError>)
    ensures
        yields(r, spec_archive_md5(input@)),
{
    if input.len() < ARCHIVE_MD5_RECORD_SIZE {
        return Err(DecodeError::TruncatedContainer);
    }
    let (rest, archive_index) = le_u32(input)?;
    let (rest, starting_offset) = le_u32(rest)?;
    let (rest, count) = le_u32(rest)?;
    let (rest, md5_checksum) = fixed_arr_16(rest)?;
    assert(rest@ =~= input@.skip(28));
    Ok((rest, VpkArchiveMd5Section { archive_index, starting_offset, count, md5_checksum }))
}

/// Reads archive checksum records until the bytes are used up.
pub fn read_entries(input: &[u8]) -> (r: Result<(&[u8], Vec<VpkArchiveMd5Section>), DecodeError>)
    ensures
        match spec_read_entries(input@) {
            Ok((rest, records)) => r matches Ok((out_rest, out)) && out_rest@ == rest && out@
                == records,
            Err(e) => r matches Err(out_e) && out_e == e,
        },
{
    let mut records: Vec<VpkArchiveMd5Section> = Vec::new();
    let mut cur = input;
    while cur.len() > 0
        invariant
            ARCHIVE_MD5_RECORD_SIZE * records@.len() + cur@.len() == input@.len(),
            cur@ == input@.skip(ARCHIVE_MD5_RECORD_SIZE * records@.len()),
            forall|i: int|
                0 <= i < records@.len() ==> records@[i] == archive_md5_value(
                    input@.skip(ARCHIVE_MD5_RECORD_SIZE * i),
                ),
        decreases cur@.len(),
    {
        let (rest, record) = archive_md5(cur)?;
        records.push(record);
        cur = rest;
    }
    Ok((cur, records))
}

/// Reads the record of the container's own checksums.
pub fn other_md5_section(input: &[u8]) -> (r: Result<(&[u8], VpkOtherMd5Section), DecodeError>)
    ensures
        yields(r, spec_other_md5_section(input@)),
{
    if input.len() < OTHER_MD5_SECTION_SIZE {
        return Err(DecodeError::TruncatedContainer);
    }
    let (rest, tree_checksum) = fixed_arr_16(input)?;
    let (rest, archive_md5_section_checksum) = fixed_arr_16(rest)?;
    let (rest, _unknown) = fixed_arr_16(rest)?;
    assert(rest@ =~= input@.skip(48));
    Ok((rest, VpkOtherMd5Section { tree_checksum, archive_md5_section_checksum, _unknown }))
}

/// Reads the signature section.
pub fn signature_section<'a>(input: &'a [u8]) -> (r: Result<
    (&'a [u8], VpkSignatureSection<'a>),
    DecodeError,
>)
    ensures
        match spec_signature_section(input@) {
            Ok((rest, section)) => r matches Ok((out_rest, out)) && out_rest@ == rest && out@
                == section,
            Err(e) => r matches Err(out_e) && out_e == e,
        },
{
    let (rest, public_key) = length_prefixed(input)?;
    let (rest, signature) = length_prefixed(rest)?;
    Ok((rest, VpkSignatureSection { public_key, signature }))
}

} // verus!
