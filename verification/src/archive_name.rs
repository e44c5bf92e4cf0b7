//! The names of the files that hold a container's archives. The archive 3 of
//! `pak01_dir.vpk` is the file `pak01_003.vpk` beside it.

use vstd::prelude::*;
use vstd::string::*;

verus! {

/// The end of the name of a container that has its archives beside it.
pub open spec fn dir_suffix() -> Seq<char> {
    seq!['_', 'd', 'i', 'r']
}

/// The extension of a container and of its archives, with its dot.
pub open spec fn vpk_extension() -> Seq<char> {
    seq!['.', 'v', 'p', 'k']
}

/// The name that a container shares with its archives: `stem` without the
/// `_dir` at its end, or all of `stem` when it does not end so.
pub open spec fn base_name(stem: Seq<char>) -> Seq<char> {
    if stem.len() >= 4 && stem.skip(stem.len() - 4) == dir_suffix() {
        stem.take(stem.len() - 4)
    } else {
        stem
    }
}

/// The character for a digit.
pub open spec fn digit(d: int) -> char
    recommends
        0 <= d < 10,
{
    seq!['0', '1', '2', '3', '4', '5', '6', '7', '8', '9'][d]
}

/// The digits of `n` in base ten.
pub open spec fn decimal(n: nat) -> Seq<char>
    decreases n,
{
    if n < 10 {
        seq![digit(n as int)]
    } else {
        decimal(n / 10).push(digit((n % 10) as int))
    }
}

/// The digits of `n` in base ten, with zeros in front of fewer than three.
pub open spec fn three_digits(n: nat) -> Seq<char> {
    if n < 10 {
        seq!['0', '0'] + decimal(n)
    } else if n < 100 {
        seq!['0'] + decimal(n)
    } else {
        decimal(n)
    }
}

/// The name of the file that holds the archive `index` of the container whose
/// file is called `stem`, extension left out.
pub open spec fn spec_archive_file_name(stem: Seq<char>, index: u32) -> Seq<char> {
    base_name(stem) + seq!['_'] + three_digits(index as nat) + vpk_extension()
}

/// The string that holds the digit `d`.
fn digit_str(d: u32) -> (r: &'static str)
    requires
        d < 10,
    ensures
        r@ == seq![digit(d as int)],
{
    proof {
        reveal_strlit("0");
        reveal_strlit("1");
        reveal_strlit("2");
        reveal_strlit("3");
        reveal_strlit("4");
        reveal_strlit("5");
        reveal_strlit("6");
        reveal_strlit("7");
        reveal_strlit("8");
        reveal_strlit("9");
    }
    let r = match d {
        0 => "0",
        1 => "1",
        2 => "2",
        3 => "3",
        4 => "4",
        5 => "5",
        6 => "6",
        7 => "7",
        8 => "8",
        _ => "9",
    };
    assert(r@ =~= seq![digit(d as int)]);
    r
}

/// Writes the digits of `n` behind `out`.
fn append_decimal(out: &mut String, n: u32)
    ensures
        final(out)@ == old(out)@ + decimal(n as nat),
    decreases n,
{
    if n >= 10 {
        append_decimal(out, n / 10);
    }
    out.append(digit_str(n % 10));
    assert(out@ =~= old(out)@ + decimal(n as nat));
}

/// Whether `stem` ends with `_dir`.
fn ends_with_dir(stem: &str) -> (r: bool)
    ensures
        r == (stem@.len() >= 4 && stem@.skip(stem@.len() - 4) == dir_suffix()),
{
    let n = stem.unicode_len();
    if n < 4 {
        return false;
    }
    let r = stem.get_char(n - 4) == '_' && stem.get_char(n - 3) == 'd' && stem.get_char(n - 2)
        == 'i' && stem.get_char(n - 1) == 'r';
    proof {
        let tail = stem@.skip(stem@.len() - 4);
        if r {
            assert(tail =~= dir_suffix());
        } else {
            assert(tail[0] == stem@[n - 4]);
            assert(tail[1] == stem@[n - 3]);
            assert(tail[2] == stem@[n - 2]);
            assert(tail[3] == stem@[n - 1]);
        }
    }
    r
}

/// The name of the file that holds the archive `index` of the container whose
/// file is called `stem`, extension left out.
pub fn archive_file_name(stem: &str, index: u32) -> (r: String)
    ensures
        r@ == spec_archive_file_name(stem@, index),
{
    let base = if ends_with_dir(stem) {
        stem.substring_char(0, stem.unicode_len() - 4)
    } else {
        stem
    };
    let mut name = String::from_str(base);
    proof {
        reveal_strlit("_");
        reveal_strlit("00");
        reveal_strlit("0");
        reveal_strlit(".vpk");
    }
    name.append("_");
    if index < 10 {
        name.append("00");
    } else if index < 100 {
        name.append("0");
    }
    append_decimal(&mut name, index);
    name.append(".vpk");
    assert(name@ =~= spec_archive_file_name(stem@, index));
    name
}

} // verus!
