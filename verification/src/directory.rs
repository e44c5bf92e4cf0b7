//! The directory tree: extensions, under each extension paths, under each path
//! files, and for each file the entry that says where its bytes are. A list ends
//! with an empty name.

use crate::error::DecodeError;
use crate::primitives::{
    cstring, le_u16, le_u16_value, le_u32, le_u32_value, spec_cstring, take,
};
use vstd::prelude::*;
use vstd::slice::slice_to_vec;

verus! {

/// The marker that closes the fixed part of a directory entry.
pub const TERMINATOR: u16 = 0xffff;

/// Where the bytes of one file are.
#[derive(Debug, Clone, PartialEq, Eq)]
pub struct VpkDirectoryEntry {
    /// The checksum of the file's bytes.
    pub crc: u32,
    /// The archive that holds the bytes; `0x7fff` stands for the container itself.
    pub archive_index: u16,
    /// Where the bytes start in that archive.
    pub entry_offset: u32,
    /// How many bytes there are.
    pub entry_length: u32,
    /// The first bytes of the file, kept in the directory itself.
    pub pre_loaded: Vec<u8>,
}

/// A directory entry as a mathematical value.
pub ghost struct DirectoryEntryModel {
    pub crc: u32,
    pub archive_index: u16,
    pub entry_offset: u32,
    pub entry_length: u32,
    pub pre_loaded: Seq<u8>,
}

impl View for VpkDirectoryEntry {
    type V = DirectoryEntryModel;

    open spec fn view(&self) -> DirectoryEntryModel {
        DirectoryEntryModel {
            crc: self.crc,
            archive_index: self.archive_index,
            entry_offset: self.entry_offset,
            entry_length: self.entry_length,
            pre_loaded: self.pre_loaded@,
        }
    }
}

impl DeepView for VpkDirectoryEntry {
    type V = DirectoryEntryModel;

    open spec fn deep_view(&self) -> DirectoryEntryModel {
        self@
    }
}

/// The files of one path, in the order in which the container lists them.
pub type FileLayer = Vec<(String, VpkDirectoryEntry)>;

/// The paths of one extension.
pub type PathLayer = Vec<(String, FileLayer)>;

/// The extensions of a container: the whole tree.
pub type ExtensionLayer = Vec<(String, PathLayer)>;

pub type FileLayerModel = Seq<(Seq<char>, DirectoryEntryModel)>;

pub type PathLayerModel = Seq<(Seq<char>, FileLayerModel)>;

pub type ExtensionLayerModel = Seq<(Seq<char>, PathLayerModel)>;

/// `items` put in front of what the rest of a list decodes to.
pub open spec fn prepend<T>(
    items: Seq<T>,
    tail: Result<(Seq<u8>, Seq<T>), DecodeError>,
) -> Result<(Seq<u8>, Seq<T>), DecodeError> {
    match tail {
        Ok((rest, more)) => Ok((rest, items + more)),
        Err(e) => Err(e),
    }
}

/// The directory entry at the start of `s`: eighteen bytes of fixed layout that
/// end with the terminator, then as many bytes of the file as the entry announces.
pub open spec fn spec_directory_entry(s: Seq<u8>) -> Result<
    (Seq<u8>, DirectoryEntryModel),
    DecodeError,
> {
    if s.len() < 18 {
        Err(DecodeError::TruncatedContainer)
    } else if le_u16_value(s.skip(16)) != TERMINATOR {
        Err(DecodeError::BadTerminator)
    } else if s.len() < 18 + le_u16_value(s.skip(4)) {
        Err(DecodeError::TruncatedContainer)
    } else {
        Ok(
            (
                s.skip(18 + le_u16_value(s.skip(4))),
                DirectoryEntryModel {
                    crc: le_u32_value(s),
                    archive_index: le_u16_value(s.skip(6)),
                    entry_offset: le_u32_value(s.skip(8)),
                    entry_length: le_u32_value(s.skip(12)),
                    pre_loaded: s.subrange(18, 18 + le_u16_value(s.skip(4))),
                },
            ),
        )
    }
}

/// The files at the start of `s`: a name and an entry for each, up to an empty
/// name.
pub open spec fn spec_read_file(s: Seq<u8>) -> Result<(Seq<u8>, FileLayerModel), DecodeError>
    decreases s.len(),
{
    match spec_cstring(s) {
        Err(e) => Err(e),
        Ok((after_name, name)) => if name.len() == 0 {
            Ok((after_name, Seq::empty()))
        } else {
            match spec_directory_entry(after_name) {
                Err(e) => Err(e),
                Ok((after_entry, entry)) => {
                    proof {
                        s.index_of_first_ensures(0u8);
                    }
                    prepend(seq![(name, entry)], spec_read_file(after_entry))
                },
            }
        },
    }
}

/// The paths at the start of `s`: a name and a list of files for each, up to an
/// empty name.
pub open spec fn spec_read_path(s: Seq<u8>) -> Result<(Seq<u8>, PathLayerModel), DecodeError>
    decreases s.len(),
{
    match spec_cstring(s) {
        Err(e) => Err(e),
        Ok((after_name, name)) => if name.len() == 0 {
            Ok((after_name, Seq::empty()))
        } else {
            match spec_read_file(after_name) {
                Err(e) => Err(e),
                Ok((after_files, files)) => {
                    proof {
                        s.index_of_first_ensures(0u8);
                        lemma_read_file_consumes(after_name);
                    }
                    prepend(seq![(name, files)], spec_read_path(after_files))
                },
            }
        },
    }
}

/// The extensions at the start of `s`: a name and a list of paths for each, up to
/// an empty name.
pub open spec fn spec_read_directory(s: Seq<u8>) -> Result<
    (Seq<u8>, ExtensionLayerModel),
    DecodeError,
>
    decreases s.len(),
{
    match spec_cstring(s) {
        Err(e) => Err(e),
        Ok((after_name, name)) => if name.len() == 0 {
            Ok((after_name, Seq::empty()))
        } else {
            match spec_read_path(after_name) {
                Err(e) => Err(e),
                Ok((after_paths, paths)) => {
                    proof {
                        s.index_of_first_ensures(0u8);
                        lemma_read_path_consumes(after_name);
                    }
                    prepend(seq![(name, paths)], spec_read_directory(after_paths))
                },
            }
        },
    }
}

/// A name takes at least its closing zero byte, and what is left is the end of
/// what was given.
pub proof fn lemma_cstring_consumes(s: Seq<u8>)
    ensures
        spec_cstring(s) matches Ok((rest, _)) ==> rest.len() < s.len() && rest == s.skip(
            s.len() - rest.len(),
        ),
{
    s.index_of_first_ensures(0u8);
}

/// A list of files takes at least its closing zero byte, and what is left is
/// the end of what was given.
pub proof fn lemma_read_file_consumes(s: Seq<u8>)
    ensures
        spec_read_file(s) matches Ok((rest, _)) ==> rest.len() < s.len() && rest == s.skip(
            s.len() - rest.len(),
        ),
    decreases s.len(),
{
    lemma_cstring_consumes(s);
    if let Ok((after_name, name)) = spec_cstring(s) {
        if name.len() != 0 {
            if let Ok((after_entry, _)) = spec_directory_entry(after_name) {
                lemma_read_file_consumes(after_entry);
            }
        }
    }
}

/// A list of paths takes at least its closing zero byte, and what is left is
/// the end of what was given.
pub proof fn lemma_read_path_consumes(s: Seq<u8>)
    ensures
        spec_read_path(s) matches Ok((rest, _)) ==> rest.len() < s.len() && rest == s.skip(
            s.len() - rest.len(),
        ),
    decreases s.len(),
{
    lemma_cstring_consumes(s);
    if let Ok((after_name, name)) = spec_cstring(s) {
        if name.len() != 0 {
            lemma_read_file_consumes(after_name);
            if let Ok((after_files, _)) = spec_read_file(after_name) {
                lemma_read_path_consumes(after_files);
            }
        }
    }
}

/// A tree takes at least its closing zero byte, and what is left is the end of
/// what was given.
pub proof fn lemma_read_directory_consumes(s: Seq<u8>)
    ensures
        spec_read_directory(s) matches Ok((rest, _)) ==> rest.len() < s.len() && rest == s.skip(
            s.len() - rest.len(),
        ),
    decreases s.len(),
{
    lemma_cstring_consumes(s);
    if let Ok((after_name, name)) = spec_cstring(s) {
        if name.len() != 0 {
            lemma_read_path_consumes(after_name);
            if let Ok((after_paths, _)) = spec_read_path(after_name) {
                lemma_read_directory_consumes(after_paths);
            }
        }
    }
}

/// Putting `items` and then `item` in front is putting `items` with `item` at
/// their end in front.
proof fn lemma_prepend_push<T>(
    items: Seq<T>,
    item: T,
    tail: Result<(Seq<u8>, Seq<T>), DecodeError>,
)
    ensures
        prepend(items, prepend(seq![item], tail)) == prepend(items.push(item), tail),
{
    if let Ok((_, more)) = tail {
        assert(items + (seq![item] + more) =~= items.push(item) + more);
    }
}

/// Reads one directory entry.
pub fn directory_entry(input: &[u8]) -> (r: Result<(&[u8], VpkDirectoryEntry), DecodeError>)
    ensures
        match spec_directory_entry(input@) {
            Ok((rest, entry)) => r matches Ok((out_rest, out)) && out_rest@ == rest && out@
                == entry,
            Err(e) => r matches Err(out_e) && out_e == e,
        },
{
    let (rest, crc) = le_u32(input)?;
    let (rest, preload_bytes) = le_u16(rest)?;
    let (rest, archive_index) = le_u16(rest)?;
    let (rest, entry_offset) = le_u32(rest)?;
    let (rest, entry_length) = le_u32(rest)?;
    let (rest, terminator) = le_u16(rest)?;
    if terminator != TERMINATOR {
        return Err(DecodeError::BadTerminator);
    }
    let (rest, pre_loaded) = take(rest, preload_bytes as usize)?;
    assert(pre_loaded@ =~= input@.subrange(18, 18 + preload_bytes));
    Ok(
        (
            rest,
            VpkDirectoryEntry {
                crc,
                archive_index,
                entry_offset,
                entry_length,
                pre_loaded: slice_to_vec(pre_loaded),
            },
        ),
    )
}

/// Reads the files of one path.
pub fn read_file(input: &[u8]) -> (r: Result<(&[u8], FileLayer), DecodeError>)
    ensures
        match spec_read_file(input@) {
            Ok((rest, files)) => r matches Ok((out_rest, out)) && out_rest@ == rest
                && out.deep_view() == files,
            Err(e) => r matches Err(out_e) && out_e == e,
        },
{
    let mut files: FileLayer = Vec::new();
    let mut cur = input;
    loop
        invariant
            spec_read_file(input@) == prepend(files.deep_view(), spec_read_file(cur@)),
        decreases cur@.len(),
    {
        proof {
            lemma_cstring_consumes(cur@);
        }
        let (after_name, name) = cstring(cur)?;
        if name.as_str().is_empty() {
            return Ok((after_name, files));
        }
        let (after_entry, entry) = directory_entry(after_name)?;
        let ghost before = files.deep_view();
        let ghost item = (name@, entry@);
        files.push((name, entry));
        proof {
            assert(files.deep_view() =~= before.push(item));
            lemma_prepend_push(before, item, spec_read_file(after_entry@));
        }
        cur = after_entry;
    }
}

/// Reads the paths of one extension.
pub fn read_path(input: &[u8]) -> (r: Result<(&[u8], PathLayer), DecodeError>)
    ensures
        match spec_read_path(input@) {
            Ok((rest, paths)) => r matches Ok((out_rest, out)) && out_rest@ == rest
                && out.deep_view() == paths,
            Err(e) => r matches Err(out_e) && out_e == e,
        },
{
    let mut paths: PathLayer = Vec::new();
    let mut cur = input;
    loop
        invariant
            spec_read_path(input@) == prepend(paths.deep_view(), spec_read_path(cur@)),
        decreases cur@.len(),
    {
        proof {
            lemma_cstring_consumes(cur@);
        }
        let (after_name, name) = cstring(cur)?;
        if name.as_str().is_empty() {
            return Ok((after_name, paths));
        }
        proof {
            lemma_read_file_consumes(after_name@);
        }
        let (after_files, files) = read_file(after_name)?;
        let ghost before = paths.deep_view();
        let ghost item = (name@, files.deep_view());
        paths.push((name, files));
        proof {
            assert(paths.deep_view() =~= before.push(item));
            lemma_prepend_push(before, item, spec_read_path(after_files@));
        }
        cur = after_files;
    }
}

/// Reads the whole tree.
pub fn read_directory(input: &[u8]) -> (r: Result<(&[u8], ExtensionLayer), DecodeError>)
    ensures
        match spec_read_directory(input@) {
            Ok((rest, tree)) => r matches Ok((out_rest, out)) && out_rest@ == rest
                && out.deep_view() == tree,
            Err(e) => r matches Err(out_e) && out_e == e,
        },
{
    let mut tree: ExtensionLayer = Vec::new();
    let mut cur = input;
    loop
        invariant
            spec_read_directory(input@) == prepend(tree.deep_view(), spec_read_directory(cur@)),
        decreases cur@.len(),
    {
        proof {
            lemma_cstring_consumes(cur@);
        }
        let (after_name, name) = cstring(cur)?;
        if name.as_str().is_empty() {
            return Ok((after_name, tree));
        }
        proof {
            lemma_read_path_consumes(after_name@);
        }
        let (after_paths, paths) = read_path(after_name)?;
        let ghost before = tree.deep_view();
        let ghost item = (name@, paths.deep_view());
        tree.push((name, paths));
        proof {
            assert(tree.deep_view() =~= before.push(item));
            lemma_prepend_push(before, item, spec_read_directory(after_paths@));
        }
        cur = after_paths;
    }
}

} // verus!
