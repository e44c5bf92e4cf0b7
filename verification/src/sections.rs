//! The five sections that follow the header, one after another: the directory
//! tree, the embedded file data, the checksums of the archives, the checksums of
//! the container itself, and the signature.

use crate::error::DecodeError;
use vstd::prelude::*;
use vstd::slice::slice_subrange;

verus! {

/// The five sections at the start of `s`, each of the length asked for, and the
/// bytes after the last of them.
pub open spec fn spec_sections(
    s: Seq<u8>,
    tree_size: u32,
    file_data_section_size: u32,
    archive_md5_size: u32,
    other_md5_section_size: u32,
    signature_section_size: u32,
) -> Result<(Seq<u8>, (Seq<u8>, Seq<u8>, Seq<u8>, Seq<u8>, Seq<u8>)), DecodeError> {
    let a = tree_size as int;
    let b = a + file_data_section_size;
    let c = b + archive_md5_size;
    let d = c + other_md5_section_size;
    let e = d + signature_section_size;
    if s.len() < e {
        Err(DecodeError::TruncatedContainer)
    } else {
        Ok(
            (
                s.skip(e),
                (
                    s.subrange(0, a),
                    s.subrange(a, b),
                    s.subrange(b, c),
                    s.subrange(c, d),
                    s.subrange(d, e),
                ),
            ),
        )
    }
}

/// The sections neither overlap nor leave a gap: put end to end, with the bytes
/// left over behind them, they are the bytes that were split.
pub proof fn lemma_sections_partition(
    s: Seq<u8>,
    tree_size: u32,
    file_data_section_size: u32,
    archive_md5_size: u32,
    other_md5_section_size: u32,
    signature_section_size: u32,
)
    requires
        spec_sections(
            s,
            tree_size,
            file_data_section_size,
            archive_md5_size,
            other_md5_section_size,
            signature_section_size,
        ) is Ok,
    ensures
        ({
            let (rest, (tree, file_data, archive_md5, other_md5, signature)) = spec_sections(
                s,
                tree_size,
                file_data_section_size,
                archive_md5_size,
                other_md5_section_size,
                signature_section_size,
            ).unwrap();
            &&& tree.len() == tree_size
            &&& file_data.len() == file_data_section_size
            &&& archive_md5.len() == archive_md5_size
            &&& other_md5.len() == other_md5_section_size
            &&& signature.len() == signature_section_size
            &&& tree + file_data + archive_md5 + other_md5 + signature + rest == s
        }),
{
}

/// Splits the bytes after the header into the five sections.
pub fn sections(
    input: &[u8],
    tree_size: u32,
    file_data_section_size: u32,
    archive_md5_size: u32,
    other_md5_section_size: u32,
    signature_section_size: u32,
) -> (r: Result<(&[u8], (&[u8], &[u8], &[u8], &[u8], &[u8])), DecodeError>)
    ensures
        match spec_sections(
            input@,
            tree_size,
            file_data_section_size,
            archive_md5_size,
            other_md5_section_size,
            signature_section_size,
        ) {
            Ok((rest, parts)) => r matches Ok((out_rest, out)) && out_rest@ == rest && out.0@
                == parts.0 && out.1@ == parts.1 && out.2@ == parts.2 && out.3@ == parts.3
                && out.4@ == parts.4,
            Err(e) => r matches Err(out_e) && out_e == e,
        },
{
    let total: u64 = tree_size as u64 + file_data_section_size as u64 + archive_md5_size as u64
        + other_md5_section_size as u64 + signature_section_size as u64;
    if (input.len() as u64) < total {
        return Err(DecodeError::TruncatedContainer);
    }
    let a: usize = tree_size as usize;
    let b: usize = a + file_data_section_size as usize;
    let c: usize = b + archive_md5_size as usize;
    let d: usize = c + other_md5_section_size as usize;
    let e: usize = d + signature_section_size as usize;
    Ok(
        (
            slice_subrange(input, e, input.len()),
            (
                slice_subrange(input, 0, a),
                slice_subrange(input, a, b),
                slice_subrange(input, b, c),
                slice_subrange(input, c, d),
                slice_subrange(input, d, e),
            ),
        ),
    )
}

} // verus!
