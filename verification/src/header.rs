//! The container's header: a magic number, a version tag, and the lengths of
//! the sections that follow.

use crate::error::DecodeError;
use crate::primitives::{le_u32, le_u32_value, yields};
use vstd::prelude::*;

verus! {

/// The magic number that every container starts with.
pub const SIGNATURE: u32 = 0x55aa_1234;

/// The header of a version 1 container.
#[derive(Clone, Copy, Debug, PartialEq, Eq, Structural)]
pub struct V1Header {
    pub tree_size: u32,
}

/// The header of a version 2 container.
#[derive(Clone, Copy, Debug, PartialEq, Eq, Structural)]
pub struct V2Header {
    pub tree_size: u32,
    pub file_data_section_size: u32,
    pub archive_md5_size: u32,
    pub other_md5_section_size: u32,
    pub signature_section_size: u32,
}

/// The header of a container, of either version.
#[derive(Clone, Copy, Debug, PartialEq, Eq, Structural)]
pub enum Header {
    V1(V1Header),
    V2(V2Header),
}

impl Header {
    /// The lengths of the five sections, in the order in which the sections
    /// follow the header. A version 1 container has a tree and nothing else.
    pub open spec fn spec_section_sizes(self) -> (u32, u32, u32, u32, u32) {
        match self {
            Header::V1(v1) => (v1.tree_size, 0, 0, 0, 0),
            Header::V2(v2) => (
                v2.tree_size,
                v2.file_data_section_size,
                v2.archive_md5_size,
                v2.other_md5_section_size,
                v2.signature_section_size,
            ),
        }
    }

    #[verifier::when_used_as_spec(spec_section_sizes)]
    pub fn section_sizes(self) -> (r: (u32, u32, u32, u32, u32))
        ensures
            r == self.spec_section_sizes(),
    {
        match self {
            Header::V1(v1) => (v1.tree_size, 0, 0, 0, 0),
            Header::V2(v2) => (
                v2.tree_size,
                v2.file_data_section_size,
                v2.archive_md5_size,
                v2.other_md5_section_size,
                v2.signature_section_size,
            ),
        }
    }
}

/// The header at the start of `s`. Bytes 0 to 3 hold the magic number and bytes
/// 4 to 7 the version; version 1 has one length after them, version 2 five.
pub open spec fn spec_header(s: Seq<u8>) -> Result<(Seq<u8>, Header), DecodeError> {
    if s.len() < 4 || le_u32_value(s) != SIGNATURE {
        Err(DecodeError::BadSignature)
    } else if s.len() < 8 {
        Err(DecodeError::TruncatedContainer)
    } else if le_u32_value(s.skip(4)) == 1 {
        if s.len() < 12 {
            Err(DecodeError::TruncatedContainer)
        } else {
            Ok((s.skip(12), Header::V1(V1Header { tree_size: le_u32_value(s.skip(8)) })))
        }
    } else if le_u32_value(s.skip(4)) == 2 {
        if s.len() < 28 {
            Err(DecodeError::TruncatedContainer)
        } else {
            Ok(
                (
                    s.skip(28),
                    Header::V2(
                        V2Header {
                            tree_size: le_u32_value(s.skip(8)),
                            file_data_section_size: le_u32_value(s.skip(12)),
                            archive_md5_size: le_u32_value(s.skip(16)),
                            other_md5_section_size: le_u32_value(s.skip(20)),
                            signature_section_size: le_u32_value(s.skip(24)),
                        },
                    ),
                ),
            )
        }
    } else {
        Err(DecodeError::UnsupportedVersion)
    }
}

/// Whether a header is refused, and why, is settled by the first eight bytes
/// when they do not announce version 1 or 2: nothing after them is looked at.
pub proof fn lemma_header_refusal_reads_eight_bytes(a: Seq<u8>, b: Seq<u8>)
    requires
        a.len() >= 8,
        b.len() >= 8,
        a.take(8) == b.take(8),
        le_u32_value(a) != SIGNATURE || (le_u32_value(a.skip(4)) != 1 && le_u32_value(a.skip(4))
            != 2),
    ensures
        spec_header(a) is Err,
        spec_header(a) == spec_header(b),
        spec_header(a) == Err::<(Seq<u8>, Header), DecodeError>(
            if le_u32_value(a) != SIGNATURE {
                DecodeError::BadSignature
            } else {
                DecodeError::UnsupportedVersion
            },
        ),
{
    assert forall|i: int| 0 <= i < 8 implies a[i] == b[i] by {
        assert(a[i] == a.take(8)[i]);
        assert(b[i] == b.take(8)[i]);
    }
}

/// A container whose first four bytes are not the magic number is refused for
/// that, whatever follows them.
pub proof fn lemma_bad_signature(s: Seq<u8>)
    requires
        s.len() < 4 || le_u32_value(s) != SIGNATURE,
    ensures
        spec_header(s) == Err::<(Seq<u8>, Header), DecodeError>(DecodeError::BadSignature),
{
}

/// Reads the header of a container and hands back the bytes after it.
pub fn header(input: &[u8]) -> (r: Result<(&[u8], Header), DecodeError>)
    ensures
        yields(r, spec_header(input@)),
{
    let (rest, signature) = match le_u32(input) {
        Ok(read) => read,
        Err(_) => {
            return Err(DecodeError::BadSignature);
        },
    };
    if signature != SIGNATURE {
        return Err(DecodeError::BadSignature);
    }
    let (rest, version) = le_u32(rest)?;
    if version == 1 {
        let (rest, tree_size) = le_u32(rest)?;
        assert(rest@ =~= input@.skip(12));
        Ok((rest, Header::V1(V1Header { tree_size })))
    } else if version == 2 {
        let (rest, tree_size) = le_u32(rest)?;
        let (rest, file_data_section_size) = le_u32(rest)?;
        let (rest, archive_md5_size) = le_u32(rest)?;
        let (rest, other_md5_section_size) = le_u32(rest)?;
        let (rest, signature_section_size) = le_u32(rest)?;
        assert(rest@ =~= input@.skip(28));
        Ok(
            (
                rest,
                Header::V2(
                    V2Header {
                        tree_size,
                        file_data_section_size,
                        archive_md5_size,
                        other_md5_section_size,
                        signature_section_size,
                    },
                ),
            ),
        )
    } else {
        Err(DecodeError::UnsupportedVersion)
    }
}

} // verus!
