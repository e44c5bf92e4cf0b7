//! The bytes that stand for a directory tree, and the proofs that reading what
//! was written gives the tree back, and that writing what was read gives the
//! bytes back.

use crate::directory::{
    lemma_cstring_consumes, lemma_read_file_consumes, lemma_read_path_consumes,
    spec_directory_entry, spec_read_directory, spec_read_file, spec_read_path,
    DirectoryEntryModel, ExtensionLayerModel, FileLayerModel, PathLayerModel, TERMINATOR,
};
use crate::error::DecodeError;
use crate::primitives::{
    le_u16_value, le_u32_value, lemma_first_nul, spec_cstring, spec_le_u16, spec_le_u32,
};
use vstd::prelude::*;
use vstd::utf8::{
    char_is_scalar, decode_utf8_encode_utf8, encode_scalar, encode_utf8, encode_utf8_decode_utf8,
    encode_utf8_valid_utf8, is_scalar,
};

verus! {

/// The two bytes of `v`, least significant first.
pub open spec fn le_u16_bytes(v: u16) -> Seq<u8> {
    seq![(v % 256) as u8, (v / 256) as u8]
}

/// The four bytes of `v`, least significant first.
pub open spec fn le_u32_bytes(v: u32) -> Seq<u8> {
    seq![
        (v % 256) as u8,
        (v / 256 % 256) as u8,
        (v / 65536 % 256) as u8,
        (v / 16777216) as u8,
    ]
}

/// A name as the container holds it: its UTF-8 bytes and a zero byte.
pub open spec fn encode_name(name: Seq<char>) -> Seq<u8> {
    encode_utf8(name) + seq![0u8]
}

/// A directory entry as the container holds it.
pub open spec fn encode_entry(entry: DirectoryEntryModel) -> Seq<u8> {
    le_u32_bytes(entry.crc) + le_u16_bytes(entry.pre_loaded.len() as u16) + le_u16_bytes(
        entry.archive_index,
    ) + le_u32_bytes(entry.entry_offset) + le_u32_bytes(entry.entry_length) + le_u16_bytes(
        TERMINATOR,
    ) + entry.pre_loaded
}

/// A list of files as the container holds it, closed by an empty name.
pub open spec fn encode_files(files: FileLayerModel) -> Seq<u8>
    decreases files.len(),
{
    if files.len() == 0 {
        seq![0u8]
    } else {
        encode_name(files[0].0) + encode_entry(files[0].1) + encode_files(files.drop_first())
    }
}

/// A list of paths as the container holds it, closed by an empty name.
pub open spec fn encode_paths(paths: PathLayerModel) -> Seq<u8>
    decreases paths.len(),
{
    if paths.len() == 0 {
        seq![0u8]
    } else {
        encode_name(paths[0].0) + encode_files(paths[0].1) + encode_paths(paths.drop_first())
    }
}

/// A tree as the container holds it, closed by an empty name.
pub open spec fn encode_directory(tree: ExtensionLayerModel) -> Seq<u8>
    decreases tree.len(),
{
    if tree.len() == 0 {
        seq![0u8]
    } else {
        encode_name(tree[0].0) + encode_paths(tree[0].1) + encode_directory(tree.drop_first())
    }
}

/// A name can stand in a list when it is not empty, which would close the list,
/// and holds no character zero, which would cut it short.
pub open spec fn name_is_encodable(name: Seq<char>) -> bool {
    name.len() > 0 && forall|i: int| 0 <= i < name.len() ==> name[i] != '\0'
}

/// An entry can be written when the length of its preloaded bytes fits the
/// sixteen bits that the format has for it.
pub open spec fn entry_is_encodable(entry: DirectoryEntryModel) -> bool {
    entry.pre_loaded.len() <= 0xffff
}

pub open spec fn files_are_encodable(files: FileLayerModel) -> bool {
    forall|i: int|
        0 <= i < files.len() ==> name_is_encodable(#[trigger] files[i].0) && entry_is_encodable(
            files[i].1,
        )
}

pub open spec fn paths_are_encodable(paths: PathLayerModel) -> bool {
    forall|i: int|
        0 <= i < paths.len() ==> name_is_encodable(#[trigger] paths[i].0) && files_are_encodable(
            paths[i].1,
        )
}

pub open spec fn directory_is_encodable(tree: ExtensionLayerModel) -> bool {
    forall|i: int|
        0 <= i < tree.len() ==> name_is_encodable(#[trigger] tree[i].0) && paths_are_encodable(
            tree[i].1,
        )
}

/// Reading the two bytes of a number gives the number.
pub proof fn lemma_le_u16_round_trip(v: u16, tail: Seq<u8>)
    ensures
        spec_le_u16(le_u16_bytes(v) + tail) == Ok::<(Seq<u8>, u16), DecodeError>((tail, v)),
{
    let s = le_u16_bytes(v) + tail;
    assert(s.skip(2) =~= tail);
}

/// Reading the four bytes of a number gives the number.
pub proof fn lemma_le_u32_round_trip(v: u32, tail: Seq<u8>)
    ensures
        spec_le_u32(le_u32_bytes(v) + tail) == Ok::<(Seq<u8>, u32), DecodeError>((tail, v)),
{
    let s = le_u32_bytes(v) + tail;
    assert(s.skip(4) =~= tail);
}

/// Only the character zero has the number zero.
proof fn lemma_char_not_nul(c: char)
    requires
        c != '\0',
    ensures
        c as u32 != 0,
{
}

/// The UTF-8 bytes of a character other than zero are all other than zero.
proof fn lemma_encode_scalar_no_nul(c: u32)
    requires
        is_scalar(c),
        c != 0,
    ensures
        forall|j: int| 0 <= j < encode_scalar(c).len() ==> encode_scalar(c)[j] != 0,
{
    assert(c <= 0x7f && c != 0 ==> (c & 0x7F) as u8 != 0) by (bit_vector);
    assert((0xC0 | ((c >> 6) & 0x1F) as u8) != 0) by (bit_vector);
    assert((0xE0 | ((c >> 12) & 0x0F) as u8) != 0) by (bit_vector);
    assert((0xF0 | ((c >> 18) & 0x7) as u8) != 0) by (bit_vector);
    assert((0x80 | (c & 0x3F) as u8) != 0) by (bit_vector);
    assert((0x80 | ((c >> 6) & 0x3F) as u8) != 0) by (bit_vector);
    assert((0x80 | ((c >> 12) & 0x3F) as u8) != 0) by (bit_vector);
}

/// The UTF-8 bytes of a name without the character zero hold no zero byte.
proof fn lemma_encode_utf8_no_nul(chars: Seq<char>)
    requires
        forall|i: int| 0 <= i < chars.len() ==> chars[i] != '\0',
    ensures
        forall|j: int| 0 <= j < encode_utf8(chars).len() ==> encode_utf8(chars)[j] != 0,
    decreases chars.len(),
{
    if chars.len() > 0 {
        char_is_scalar(chars[0]);
        lemma_char_not_nul(chars[0]);
        lemma_encode_scalar_no_nul(chars[0] as u32);
        lemma_encode_utf8_no_nul(chars.drop_first());
        let head = encode_scalar(chars[0] as u32);
        let more = encode_utf8(chars.drop_first());
        assert forall|j: int| 0 <= j < encode_utf8(chars).len() implies encode_utf8(chars)[j]
            != 0 by {
            if j < head.len() {
                assert((head + more)[j] == head[j]);
            } else {
                assert((head + more)[j] == more[j - head.len()]);
            }
        }
    }
}

/// Reading a written name gives the name, and leaves what followed it.
pub proof fn lemma_cstring_round_trip(name: Seq<char>, tail: Seq<u8>)
    requires
        forall|i: int| 0 <= i < name.len() ==> name[i] != '\0',
    ensures
        spec_cstring(encode_name(name) + tail) == Ok::<(Seq<u8>, Seq<char>), DecodeError>(
            (tail, name),
        ),
{
    let bytes = encode_utf8(name);
    let s = encode_name(name) + tail;
    let n = bytes.len() as int;
    lemma_encode_utf8_no_nul(name);
    assert(s[n] == 0);
    assert forall|j: int| 0 <= j < n implies s[j] != 0 by {
        assert(s[j] == bytes[j]);
    }
    lemma_first_nul(s, n);
    assert(s.take(n) =~= bytes);
    assert(s.skip(n + 1) =~= tail);
    encode_utf8_valid_utf8(name);
    encode_utf8_decode_utf8(name);
}

/// Reading a written entry gives the entry, and leaves what followed it.
#[verifier::spinoff_prover]
pub proof fn lemma_directory_entry_round_trip(entry: DirectoryEntryModel, tail: Seq<u8>)
    requires
        entry_is_encodable(entry),
    ensures
        spec_directory_entry(encode_entry(entry) + tail) == Ok::<
            (Seq<u8>, DirectoryEntryModel),
            DecodeError,
        >((tail, entry)),
{
    let s = encode_entry(entry) + tail;
    let n = entry.pre_loaded.len() as u16;
    let r6 = entry.pre_loaded + tail;
    let r5 = le_u16_bytes(TERMINATOR) + r6;
    let r4 = le_u32_bytes(entry.entry_length) + r5;
    let r3 = le_u32_bytes(entry.entry_offset) + r4;
    let r2 = le_u16_bytes(entry.archive_index) + r3;
    let r1 = le_u16_bytes(n) + r2;
    let r0 = le_u32_bytes(entry.crc) + r1;
    lemma_le_u32_round_trip(entry.crc, r1);
    lemma_le_u16_round_trip(n, r2);
    lemma_le_u16_round_trip(entry.archive_index, r3);
    lemma_le_u32_round_trip(entry.entry_offset, r4);
    lemma_le_u32_round_trip(entry.entry_length, r5);
    lemma_le_u16_round_trip(TERMINATOR, r6);
    assert(s == r0) by {
        assert(s =~= r0);
    }
    assert(s.skip(4) == r1);
    assert(s.skip(6) == r2) by {
        assert(s.skip(6) =~= r1.skip(2));
    }
    assert(s.skip(8) == r3) by {
        assert(s.skip(8) =~= r2.skip(2));
    }
    assert(s.skip(12) == r4) by {
        assert(s.skip(12) =~= r3.skip(4));
    }
    assert(s.skip(16) == r5) by {
        assert(s.skip(16) =~= r4.skip(4));
    }
    assert(s.skip(18) == r6) by {
        assert(s.skip(18) =~= r5.skip(2));
    }
    assert(s.subrange(18, 18 + n) == entry.pre_loaded) by {
        assert(s.subrange(18, 18 + n) =~= r6.take(n as int));
        assert(r6.take(n as int) =~= entry.pre_loaded);
    }
    assert(s.skip(18 + n) == tail) by {
        assert(s.skip(18 + n) =~= r6.skip(n as int));
        assert(r6.skip(n as int) =~= tail);
    }
}

/// Reading a written list of files gives the list, and leaves what followed it.
pub proof fn lemma_read_file_round_trip(files: FileLayerModel, tail: Seq<u8>)
    requires
        files_are_encodable(files),
    ensures
        spec_read_file(encode_files(files) + tail) == Ok::<(Seq<u8>, FileLayerModel), DecodeError>(
            (tail, files),
        ),
    decreases files.len(),
{
    if files.len() == 0 {
        lemma_cstring_round_trip(Seq::empty(), tail);
        assert(encode_name(Seq::empty()) + tail =~= encode_files(files) + tail);
        assert(files =~= Seq::empty());
    } else {
        let name = files[0].0;
        let entry = files[0].1;
        let more = files.drop_first();
        let after_entry = encode_files(more) + tail;
        let after_name = encode_entry(entry) + after_entry;
        assert(encode_files(files) + tail =~= encode_name(name) + after_name);
        assert(name_is_encodable(files[0].0));
        lemma_cstring_round_trip(name, after_name);
        lemma_directory_entry_round_trip(entry, after_entry);
        assert(files_are_encodable(more)) by {
            assert forall|i: int| 0 <= i < more.len() implies name_is_encodable(
                #[trigger] more[i].0,
            ) && entry_is_encodable(more[i].1) by {
                assert(more[i] == files[i + 1]);
                assert(name_is_encodable(files[i + 1].0));
            }
        }
        lemma_read_file_round_trip(more, tail);
        assert(seq![(name, entry)] + more =~= files);
    }
}

/// Reading a written list of paths gives the list, and leaves what followed it.
pub proof fn lemma_read_path_round_trip(paths: PathLayerModel, tail: Seq<u8>)
    requires
        paths_are_encodable(paths),
    ensures
        spec_read_path(encode_paths(paths) + tail) == Ok::<(Seq<u8>, PathLayerModel), DecodeError>(
            (tail, paths),
        ),
    decreases paths.len(),
{
    if paths.len() == 0 {
        lemma_cstring_round_trip(Seq::empty(), tail);
        assert(encode_name(Seq::empty()) + tail =~= encode_paths(paths) + tail);
        assert(paths =~= Seq::empty());
    } else {
        let name = paths[0].0;
        let files = paths[0].1;
        let more = paths.drop_first();
        let after_files = encode_paths(more) + tail;
        let after_name = encode_files(files) + after_files;
        assert(encode_paths(paths) + tail =~= encode_name(name) + after_name);
        assert(name_is_encodable(paths[0].0));
        lemma_cstring_round_trip(name, after_name);
        lemma_read_file_round_trip(files, after_files);
        assert(paths_are_encodable(more)) by {
            assert forall|i: int| 0 <= i < more.len() implies name_is_encodable(
                #[trigger] more[i].0,
            ) && files_are_encodable(more[i].1) by {
                assert(more[i] == paths[i + 1]);
                assert(name_is_encodable(paths[i + 1].0));
            }
        }
        lemma_read_path_round_trip(more, tail);
        assert(seq![(name, files)] + more =~= paths);
    }
}

/// Reading a written tree gives the tree, each list in its order and each entry
/// with its fields, and leaves what followed it.
pub proof fn lemma_read_directory_round_trip(tree: ExtensionLayerModel, tail: Seq<u8>)
    requires
        directory_is_encodable(tree),
    ensures
        spec_read_directory(encode_directory(tree) + tail) == Ok::<
            (Seq<u8>, ExtensionLayerModel),
            DecodeError,
        >((tail, tree)),
    decreases tree.len(),
{
    if tree.len() == 0 {
        lemma_cstring_round_trip(Seq::empty(), tail);
        assert(encode_name(Seq::empty()) + tail =~= encode_directory(tree) + tail);
        assert(tree =~= Seq::empty());
    } else {
        let name = tree[0].0;
        let paths = tree[0].1;
        let more = tree.drop_first();
        let after_paths = encode_directory(more) + tail;
        let after_name = encode_paths(paths) + after_paths;
        assert(encode_directory(tree) + tail =~= encode_name(name) + after_name);
        assert(name_is_encodable(tree[0].0));
        lemma_cstring_round_trip(name, after_name);
        lemma_read_path_round_trip(paths, after_paths);
        assert(directory_is_encodable(more)) by {
            assert forall|i: int| 0 <= i < more.len() implies name_is_encodable(
                #[trigger] more[i].0,
            ) && paths_are_encodable(more[i].1) by {
                assert(more[i] == tree[i + 1]);
                assert(name_is_encodable(tree[i + 1].0));
            }
        }
        lemma_read_directory_round_trip(more, tail);
        assert(seq![(name, paths)] + more =~= tree);
    }
}

/// The bytes that spell a 16-bit number are the bytes of that number.
proof fn lemma_le_u16_bytes_of_value(s: Seq<u8>)
    requires
        s.len() >= 2,
    ensures
        le_u16_bytes(le_u16_value(s)) == s.take(2),
{
    assert(le_u16_bytes(le_u16_value(s)) =~= s.take(2));
}

/// The bytes that spell a 32-bit number are the bytes of that number.
proof fn lemma_le_u32_bytes_of_value(s: Seq<u8>)
    requires
        s.len() >= 4,
    ensures
        le_u32_bytes(le_u32_value(s)) == s.take(4),
{
    lemma_four_digits(s[0] as int, s[1] as int, s[2] as int, s[3] as int);
    assert(le_u32_bytes(le_u32_value(s)) =~= s.take(4));
}

/// A number written with four digits of base 256 has these digits.
proof fn lemma_four_digits(b0: int, b1: int, b2: int, b3: int)
    requires
        0 <= b0 < 256,
        0 <= b1 < 256,
        0 <= b2 < 256,
        0 <= b3 < 256,
    ensures
        ({
            let v = b0 + 256 * b1 + 65536 * b2 + 16777216 * b3;
            &&& 0 <= v <= u32::MAX
            &&& v % 256 == b0
            &&& v / 256 % 256 == b1
            &&& v / 65536 % 256 == b2
            &&& v / 16777216 == b3
        }),
{
}

/// The character zero has the number zero.
proof fn lemma_char_nul(c: char)
    requires
        c == '\0',
    ensures
        c as u32 == 0,
{
}

/// A name that holds the character zero has a zero byte among its UTF-8 bytes.
proof fn lemma_encode_utf8_nul(chars: Seq<char>, i: int)
    requires
        0 <= i < chars.len(),
        chars[i] == '\0',
    ensures
        exists|j: int| 0 <= j < encode_utf8(chars).len() && encode_utf8(chars)[j] == 0,
    decreases chars.len(),
{
    let head = encode_scalar(chars[0] as u32);
    let more = encode_utf8(chars.drop_first());
    assert(encode_utf8(chars) == head + more);
    if i == 0 {
        lemma_char_nul(chars[0]);
        assert((0u32 & 0x7F) as u8 == 0) by (bit_vector);
        assert(head[0] == 0);
        assert(encode_utf8(chars)[0] == 0);
    } else {
        lemma_encode_utf8_nul(chars.drop_first(), i - 1);
        let j = choose|j: int| 0 <= j < more.len() && more[j] == 0;
        assert(encode_utf8(chars)[head.len() + j] == 0);
    }
}

/// Four runs of bytes put together are the same however they are grouped.
proof fn lemma_regroup(a: Seq<u8>, b: Seq<u8>, c: Seq<u8>, d: Seq<u8>)
    ensures
        (a + b + c) + d == a + (b + (c + d)),
{
    assert((a + b + c) + d =~= a + (b + (c + d)));
}

/// A list with an item in front of it is encodable when the item and the list
/// are.
proof fn lemma_encodable_step<T>(
    name: Seq<char>,
    child: T,
    more: Seq<(Seq<char>, T)>,
    child_ok: spec_fn(T) -> bool,
)
    requires
        name_is_encodable(name),
        child_ok(child),
        forall|i: int|
            0 <= i < more.len() ==> name_is_encodable(#[trigger] more[i].0) && child_ok(more[i].1),
    ensures
        forall|i: int|
            0 <= i < (seq![(name, child)] + more).len() ==> name_is_encodable(
                #[trigger] (seq![(name, child)] + more)[i].0,
            ) && child_ok((seq![(name, child)] + more)[i].1),
        (seq![(name, child)] + more).drop_first() == more,
        (seq![(name, child)] + more)[0] == (name, child),
        (seq![(name, child)] + more).len() > 0,
{
    let list = seq![(name, child)] + more;
    assert(list.drop_first() =~= more);
    assert forall|i: int| 0 <= i < list.len() implies name_is_encodable(#[trigger] list[i].0)
        && child_ok(list[i].1) by {
        if i > 0 {
            assert(list[i] == more[i - 1]);
            assert(name_is_encodable(more[i - 1].0));
        }
    }
}

/// A name that was read is the name that the bytes hold: written again, with
/// what was left over behind it, it gives the bytes. It holds no character
/// zero.
pub proof fn lemma_cstring_inverse(s: Seq<u8>)
    ensures
        spec_cstring(s) matches Ok((rest, name)) ==> encode_name(name) + rest == s && forall|
            i: int,
        | 0 <= i < name.len() ==> name[i] != '\0',
{
    s.index_of_first_ensures(0u8);
    if let Ok((rest, name)) = spec_cstring(s) {
        let n = s.index_of_first(0u8).unwrap();
        let bytes = s.take(n);
        decode_utf8_encode_utf8(bytes);
        assert(encode_name(name) + rest =~= s);
        assert forall|i: int| 0 <= i < name.len() implies name[i] != '\0' by {
            if name[i] == '\0' {
                lemma_encode_utf8_nul(name, i);
                let j = choose|j: int| 0 <= j < bytes.len() && bytes[j] == 0;
                assert(s[j] == bytes[j]);
            }
        }
    }
}

/// An entry that was read is the entry that the bytes hold: written again, with
/// what was left over behind it, it gives the bytes.
pub proof fn lemma_directory_entry_inverse(s: Seq<u8>)
    ensures
        spec_directory_entry(s) matches Ok((rest, entry)) ==> encode_entry(entry) + rest == s
            && entry_is_encodable(entry),
{
    if let Ok((rest, entry)) = spec_directory_entry(s) {
        let n = entry.pre_loaded.len() as u16;
        lemma_le_u32_bytes_of_value(s);
        lemma_le_u16_bytes_of_value(s.skip(4));
        lemma_le_u16_bytes_of_value(s.skip(6));
        lemma_le_u32_bytes_of_value(s.skip(8));
        lemma_le_u32_bytes_of_value(s.skip(12));
        lemma_le_u16_bytes_of_value(s.skip(16));
        assert(n == le_u16_value(s.skip(4)));
        let fixed = s.take(4) + s.skip(4).take(2) + s.skip(6).take(2) + s.skip(8).take(4) + s.skip(
            12,
        ).take(4) + s.skip(16).take(2);
        assert(fixed =~= s.take(18));
        assert(encode_entry(entry) == fixed + entry.pre_loaded);
        assert(s.take(18) + entry.pre_loaded + rest =~= s);
    }
}

/// A list of files that was read is the list that the bytes hold: written
/// again, with what was left over behind it, it gives the bytes.
pub proof fn lemma_read_file_inverse(s: Seq<u8>)
    ensures
        spec_read_file(s) matches Ok((rest, files)) ==> encode_files(files) + rest == s
            && files_are_encodable(files),
    decreases s.len(),
{
    lemma_cstring_inverse(s);
    lemma_cstring_consumes(s);
    if let Ok((after_name, name)) = spec_cstring(s) {
        if name.len() == 0 {
            assert(encode_utf8(name) =~= Seq::<u8>::empty());
            assert(encode_files(Seq::empty()) =~= encode_name(name));
        } else if let Ok((after_entry, entry)) = spec_directory_entry(after_name) {
            lemma_directory_entry_inverse(after_name);
            lemma_read_file_inverse(after_entry);
            if let Ok((rest, more)) = spec_read_file(after_entry) {
                lemma_encodable_step(
                    name,
                    entry,
                    more,
                    |e: DirectoryEntryModel| entry_is_encodable(e),
                );
                lemma_regroup(encode_name(name), encode_entry(entry), encode_files(more), rest);
            }
        }
    }
}

/// A list of paths that was read is the list that the bytes hold: written
/// again, with what was left over behind it, it gives the bytes.
pub proof fn lemma_read_path_inverse(s: Seq<u8>)
    ensures
        spec_read_path(s) matches Ok((rest, paths)) ==> encode_paths(paths) + rest == s
            && paths_are_encodable(paths),
    decreases s.len(),
{
    lemma_cstring_inverse(s);
    lemma_cstring_consumes(s);
    if let Ok((after_name, name)) = spec_cstring(s) {
        if name.len() == 0 {
            assert(encode_utf8(name) =~= Seq::<u8>::empty());
            assert(encode_paths(Seq::empty()) =~= encode_name(name));
        } else if let Ok((after_files, files)) = spec_read_file(after_name) {
            lemma_read_file_inverse(after_name);
            lemma_read_file_consumes(after_name);
            lemma_read_path_inverse(after_files);
            if let Ok((rest, more)) = spec_read_path(after_files) {
                lemma_encodable_step(
                    name,
                    files,
                    more,
                    |f: FileLayerModel| files_are_encodable(f),
                );
                lemma_regroup(encode_name(name), encode_files(files), encode_paths(more), rest);
            }
        }
    }
}

/// A tree that was read is the tree that the bytes hold: written again, with
/// what was left over behind it, it gives the bytes. So no two runs of bytes
/// that differ before what is left over are read as the same tree.
pub proof fn lemma_read_directory_inverse(s: Seq<u8>)
    ensures
        spec_read_directory(s) matches Ok((rest, tree)) ==> encode_directory(tree) + rest == s
            && directory_is_encodable(tree),
    decreases s.len(),
{
    lemma_cstring_inverse(s);
    lemma_cstring_consumes(s);
    if let Ok((after_name, name)) = spec_cstring(s) {
        if name.len() == 0 {
            assert(encode_utf8(name) =~= Seq::<u8>::empty());
            assert(encode_directory(Seq::empty()) =~= encode_name(name));
        } else if let Ok((after_paths, paths)) = spec_read_path(after_name) {
            lemma_read_path_inverse(after_name);
            lemma_read_path_consumes(after_name);
            lemma_read_directory_inverse(after_paths);
            if let Ok((rest, more)) = spec_read_directory(after_paths) {
                lemma_encodable_step(
                    name,
                    paths,
                    more,
                    |p: PathLayerModel| paths_are_encodable(p),
                );
                lemma_regroup(
                    encode_name(name),
                    encode_paths(paths),
                    encode_directory(more),
                    rest,
                );
            }
        }
    }
}

/// A directory entry as the container would hold it with `marker` in the place
/// of the terminator.
pub open spec fn encode_entry_with(entry: DirectoryEntryModel, marker: u16) -> Seq<u8> {
    le_u32_bytes(entry.crc) + le_u16_bytes(entry.pre_loaded.len() as u16) + le_u16_bytes(
        entry.archive_index,
    ) + le_u32_bytes(entry.entry_offset) + le_u32_bytes(entry.entry_length) + le_u16_bytes(marker)
        + entry.pre_loaded
}

/// The files of a list as the container holds them, without the empty name
/// that closes the list.
pub open spec fn encode_file_items(files: FileLayerModel) -> Seq<u8>
    decreases files.len(),
{
    if files.len() == 0 {
        Seq::empty()
    } else {
        encode_name(files[0].0) + encode_entry(files[0].1) + encode_file_items(files.drop_first())
    }
}

/// The paths of a list as the container holds them, without the empty name
/// that closes the list.
pub open spec fn encode_path_items(paths: PathLayerModel) -> Seq<u8>
    decreases paths.len(),
{
    if paths.len() == 0 {
        Seq::empty()
    } else {
        encode_name(paths[0].0) + encode_files(paths[0].1) + encode_path_items(paths.drop_first())
    }
}

/// The extensions of a tree as the container holds them, without the empty
/// name that closes the tree.
pub open spec fn encode_extension_items(tree: ExtensionLayerModel) -> Seq<u8>
    decreases tree.len(),
{
    if tree.len() == 0 {
        Seq::empty()
    } else {
        encode_name(tree[0].0) + encode_paths(tree[0].1) + encode_extension_items(
            tree.drop_first(),
        )
    }
}

/// An entry with another marker in the place of the terminator is refused for
/// that, whatever follows it.
pub proof fn lemma_directory_entry_wrong_marker(
    entry: DirectoryEntryModel,
    marker: u16,
    tail: Seq<u8>,
)
    requires
        marker != TERMINATOR,
    ensures
        spec_directory_entry(encode_entry_with(entry, marker) + tail) == Err::<
            (Seq<u8>, DirectoryEntryModel),
            DecodeError,
        >(DecodeError::BadTerminator),
{
    let s = encode_entry_with(entry, marker) + tail;
    let r6 = entry.pre_loaded + tail;
    let r5 = le_u16_bytes(marker) + r6;
    let fixed = le_u32_bytes(entry.crc) + le_u16_bytes(entry.pre_loaded.len() as u16)
        + le_u16_bytes(entry.archive_index) + le_u32_bytes(entry.entry_offset) + le_u32_bytes(
        entry.entry_length,
    );
    assert(fixed.len() == 16);
    assert(s =~= fixed + r5);
    assert(s.skip(16) =~= r5);
    lemma_le_u16_round_trip(marker, r6);
}

/// What an entry is refused for, the list of files is refused for in which the
/// entry stands behind well-formed files and a name.
pub proof fn lemma_read_file_error_behind(
    before: FileLayerModel,
    name: Seq<char>,
    x: Seq<u8>,
    e: DecodeError,
)
    requires
        files_are_encodable(before),
        name_is_encodable(name),
        spec_directory_entry(x) == Err::<(Seq<u8>, DirectoryEntryModel), DecodeError>(e),
    ensures
        spec_read_file(encode_file_items(before) + encode_name(name) + x) == Err::<
            (Seq<u8>, FileLayerModel),
            DecodeError,
        >(e),
    decreases before.len(),
{
    let s = encode_file_items(before) + encode_name(name) + x;
    if before.len() == 0 {
        assert(s =~= encode_name(name) + x);
        lemma_cstring_round_trip(name, x);
    } else {
        let more = before.drop_first();
        let after_entry = encode_file_items(more) + encode_name(name) + x;
        let after_name = encode_entry(before[0].1) + after_entry;
        assert(s =~= encode_name(before[0].0) + after_name);
        assert(name_is_encodable(before[0].0));
        lemma_cstring_round_trip(before[0].0, after_name);
        lemma_directory_entry_round_trip(before[0].1, after_entry);
        assert(files_are_encodable(more)) by {
            assert forall|i: int| 0 <= i < more.len() implies name_is_encodable(
                #[trigger] more[i].0,
            ) && entry_is_encodable(more[i].1) by {
                assert(more[i] == before[i + 1]);
                assert(name_is_encodable(before[i + 1].0));
            }
        }
        lemma_read_file_error_behind(more, name, x, e);
    }
}

/// What a list of files is refused for, the list of paths is refused for in
/// which the files stand behind well-formed paths and a name.
pub proof fn lemma_read_path_error_behind(
    before: PathLayerModel,
    name: Seq<char>,
    x: Seq<u8>,
    e: DecodeError,
)
    requires
        paths_are_encodable(before),
        name_is_encodable(name),
        spec_read_file(x) == Err::<(Seq<u8>, FileLayerModel), DecodeError>(e),
    ensures
        spec_read_path(encode_path_items(before) + encode_name(name) + x) == Err::<
            (Seq<u8>, PathLayerModel),
            DecodeError,
        >(e),
    decreases before.len(),
{
    let s = encode_path_items(before) + encode_name(name) + x;
    if before.len() == 0 {
        assert(s =~= encode_name(name) + x);
        lemma_cstring_round_trip(name, x);
    } else {
        let more = before.drop_first();
        let after_files = encode_path_items(more) + encode_name(name) + x;
        let after_name = encode_files(before[0].1) + after_files;
        assert(s =~= encode_name(before[0].0) + after_name);
        assert(name_is_encodable(before[0].0));
        lemma_cstring_round_trip(before[0].0, after_name);
        lemma_read_file_round_trip(before[0].1, after_files);
        assert(paths_are_encodable(more)) by {
            assert forall|i: int| 0 <= i < more.len() implies name_is_encodable(
                #[trigger] more[i].0,
            ) && files_are_encodable(more[i].1) by {
                assert(more[i] == before[i + 1]);
                assert(name_is_encodable(before[i + 1].0));
            }
        }
        lemma_read_path_error_behind(more, name, x, e);
    }
}

/// What a list of paths is refused for, the tree is refused for in which the
/// paths stand behind well-formed extensions and a name.
pub proof fn lemma_read_directory_error_behind(
    before: ExtensionLayerModel,
    name: Seq<char>,
    x: Seq<u8>,
    e: DecodeError,
)
    requires
        directory_is_encodable(before),
        name_is_encodable(name),
        spec_read_path(x) == Err::<(Seq<u8>, PathLayerModel), DecodeError>(e),
    ensures
        spec_read_directory(encode_extension_items(before) + encode_name(name) + x) == Err::<
            (Seq<u8>, ExtensionLayerModel),
            DecodeError,
        >(e),
    decreases before.len(),
{
    let s = encode_extension_items(before) + encode_name(name) + x;
    if before.len() == 0 {
        assert(s =~= encode_name(name) + x);
        lemma_cstring_round_trip(name, x);
    } else {
        let more = before.drop_first();
        let after_paths = encode_extension_items(more) + encode_name(name) + x;
        let after_name = encode_paths(before[0].1) + after_paths;
        assert(s =~= encode_name(before[0].0) + after_name);
        assert(name_is_encodable(before[0].0));
        lemma_cstring_round_trip(before[0].0, after_name);
        lemma_read_path_round_trip(before[0].1, after_paths);
        assert(directory_is_encodable(more)) by {
            assert forall|i: int| 0 <= i < more.len() implies name_is_encodable(
                #[trigger] more[i].0,
            ) && paths_are_encodable(more[i].1) by {
                assert(more[i] == before[i + 1]);
                assert(name_is_encodable(before[i + 1].0));
            }
        }
        lemma_read_directory_error_behind(more, name, x, e);
    }
}

/// A tree is refused with `BadTerminator` when an entry in it has another
/// marker in the place of the terminator and all that stands before the entry
/// is well formed: the extensions before its extension, the paths before its
/// path and the files before it, each with its name. What follows the entry
/// does not matter.
pub proof fn lemma_wrong_marker_is_refused(
    extensions: ExtensionLayerModel,
    extension: Seq<char>,
    paths: PathLayerModel,
    path: Seq<char>,
    files: FileLayerModel,
    file: Seq<char>,
    entry: DirectoryEntryModel,
    marker: u16,
    tail: Seq<u8>,
)
    requires
        directory_is_encodable(extensions),
        name_is_encodable(extension),
        paths_are_encodable(paths),
        name_is_encodable(path),
        files_are_encodable(files),
        name_is_encodable(file),
        marker != TERMINATOR,
    ensures
        spec_read_directory(
            encode_extension_items(extensions) + encode_name(extension) + (encode_path_items(
                paths,
            ) + encode_name(path) + (encode_file_items(files) + encode_name(file) + (
            encode_entry_with(entry, marker) + tail))),
        ) == Err::<(Seq<u8>, ExtensionLayerModel), DecodeError>(DecodeError::BadTerminator),
{
    let in_entry = encode_entry_with(entry, marker) + tail;
    lemma_directory_entry_wrong_marker(entry, marker, tail);
    lemma_read_file_error_behind(files, file, in_entry, DecodeError::BadTerminator);
    let in_files = encode_file_items(files) + encode_name(file) + in_entry;
    lemma_read_path_error_behind(paths, path, in_files, DecodeError::BadTerminator);
    let in_paths = encode_path_items(paths) + encode_name(path) + in_files;
    lemma_read_directory_error_behind(extensions, extension, in_paths, DecodeError::BadTerminator);
}

} // verus!
