//! The smallest decoders: each reads one value from the start of a run of bytes
//! and hands back the bytes that follow it.

use crate::error::DecodeError;
use vstd::prelude::*;
use vstd::slice::{slice_subrange, slice_to_vec};
use vstd::utf8::{decode_utf8, valid_utf8};

verus! {

/// `std::string::FromUtf8Error`, the error with which `String::from_utf8`
/// refuses bytes. Nothing is claimed of what it holds.
#[verifier::external_type_specification]
#[verifier::external_body]
pub struct ExFromUtf8Error(std::string::FromUtf8Error);

/// What a decoder owes: `Ok` with the bytes left over and the value, or the reason
/// why the bytes were refused.
pub open spec fn yields<T>(
    out: Result<(&[u8], T), DecodeError>,
    expected: Result<(Seq<u8>, T), DecodeError>,
) -> bool {
    match expected {
        Ok((rest, value)) => out matches Ok((out_rest, out_value)) && out_rest@ == rest
            && out_value == value,
        Err(e) => out matches Err(out_e) && out_e == e,
    }
}

/// The number that the first two bytes of `s` spell, least significant byte first.
pub open spec fn le_u16_value(s: Seq<u8>) -> u16
    recommends
        s.len() >= 2,
{
    (s[0] + 256 * s[1]) as u16
}

/// The number that the first four bytes of `s` spell, least significant byte first.
pub open spec fn le_u32_value(s: Seq<u8>) -> u32
    recommends
        s.len() >= 4,
{
    (s[0] + 256 * s[1] + 65536 * s[2] + 16777216 * s[3]) as u32
}

/// The first sixteen bytes of `s` as an array.
pub open spec fn array_16(s: Seq<u8>) -> [u8; 16]
    recommends
        s.len() >= 16,
{
    [
        s[0],
        s[1],
        s[2],
        s[3],
        s[4],
        s[5],
        s[6],
        s[7],
        s[8],
        s[9],
        s[10],
        s[11],
        s[12],
        s[13],
        s[14],
        s[15],
    ]
}

/// A 16-bit little-endian integer at the start of `s`.
pub open spec fn spec_le_u16(s: Seq<u8>) -> Result<(Seq<u8>, u16), DecodeError> {
    if s.len() < 2 {
        Err(DecodeError::TruncatedContainer)
    } else {
        Ok((s.skip(2), le_u16_value(s)))
    }
}

/// A 32-bit little-endian integer at the start of `s`.
pub open spec fn spec_le_u32(s: Seq<u8>) -> Result<(Seq<u8>, u32), DecodeError> {
    if s.len() < 4 {
        Err(DecodeError::TruncatedContainer)
    } else {
        Ok((s.skip(4), le_u32_value(s)))
    }
}

/// The first `count` bytes of `s`.
pub open spec fn spec_take(s: Seq<u8>, count: int) -> Result<(Seq<u8>, Seq<u8>), DecodeError> {
    if s.len() < count {
        Err(DecodeError::TruncatedContainer)
    } else {
        Ok((s.skip(count), s.take(count)))
    }
}

/// Sixteen bytes at the start of `s`.
pub open spec fn spec_fixed_arr_16(s: Seq<u8>) -> Result<(Seq<u8>, [u8; 16]), DecodeError> {
    if s.len() < 16 {
        Err(DecodeError::TruncatedContainer)
    } else {
        Ok((s.skip(16), array_16(s)))
    }
}

/// A 32-bit little-endian length at the start of `s`, then that many bytes.
pub open spec fn spec_length_prefixed(s: Seq<u8>) -> Result<(Seq<u8>, Seq<u8>), DecodeError> {
    match spec_le_u32(s) {
        Err(e) => Err(e),
        Ok((rest, length)) => spec_take(rest, length as int),
    }
}

/// A name at the start of `s`: the bytes before the first zero byte, which must be
/// UTF-8. The zero byte is consumed and is no part of the name.
pub open spec fn spec_cstring(s: Seq<u8>) -> Result<(Seq<u8>, Seq<char>), DecodeError> {
    match s.index_of_first(0u8) {
        None => Err(DecodeError::TruncatedContainer),
        Some(n) => if valid_utf8(s.take(n)) {
            Ok((s.skip(n + 1), decode_utf8(s.take(n))))
        } else {
            Err(DecodeError::InvalidName)
        },
    }
}

/// The place of the first zero byte is the one place that holds a zero byte and
/// has none before it.
pub proof fn lemma_first_nul(s: Seq<u8>, n: int)
    requires
        0 <= n < s.len(),
        s[n] == 0,
        forall|j: int| 0 <= j < n ==> s[j] != 0,
    ensures
        s.index_of_first(0u8) == Some(n),
{
    s.index_of_first_ensures(0u8);
}

/// Calls `String::from_utf8`. The claim: the call succeeds on well-formed UTF-8
/// and on nothing else, and the characters of the `String` are then the ones
/// that the bytes encode.
#[verifier::external_body]
fn string_from_utf8(bytes: Vec<u8>) -> (r: Result<String, std::string::FromUtf8Error>)
    ensures
        r is Ok <==> valid_utf8(bytes@),
        r matches Ok(s) ==> s@ == decode_utf8(bytes@),
{
    String::from_utf8(bytes)
}

/// Reads a 16-bit little-endian integer.
pub fn le_u16(input: &[u8]) -> (r: Result<(&[u8], u16), DecodeError>)
    ensures
        yields(r, spec_le_u16(input@)),
{
    if input.len() < 2 {
        return Err(DecodeError::TruncatedContainer);
    }
    let value: u16 = (input[0] as u16) + (input[1] as u16) * 256;
    Ok((slice_subrange(input, 2, input.len()), value))
}

/// Reads a 32-bit little-endian integer.
pub fn le_u32(input: &[u8]) -> (r: Result<(&[u8], u32), DecodeError>)
    ensures
        yields(r, spec_le_u32(input@)),
{
    if input.len() < 4 {
        return Err(DecodeError::TruncatedContainer);
    }
    let value: u32 = (input[0] as u32) + (input[1] as u32) * 256 + (input[2] as u32) * 65536 + (
    input[3] as u32) * 16777216;
    Ok((slice_subrange(input, 4, input.len()), value))
}

/// Splits off the first `count` bytes.
pub fn take(input: &[u8], count: usize) -> (r: Result<(&[u8], &[u8]), DecodeError>)
    ensures
        match spec_take(input@, count as int) {
            Ok((rest, bytes)) => r matches Ok((out_rest, out_bytes)) && out_rest@ == rest
                && out_bytes@ == bytes,
            Err(e) => r matches Err(out_e) && out_e == e,
        },
{
    if input.len() < count {
        return Err(DecodeError::TruncatedContainer);
    }
    Ok((slice_subrange(input, count, input.len()), slice_subrange(input, 0, count)))
}

/// Reads sixteen bytes into an array.
pub fn fixed_arr_16(input: &[u8]) -> (r: Result<(&[u8], [u8; 16]), DecodeError>)
    ensures
        yields(r, spec_fixed_arr_16(input@)),
{
    if input.len() < 16 {
        return Err(DecodeError::TruncatedContainer);
    }
    let mut data = [0u8;16];
    let mut i: usize = 0;
    while i < 16
        invariant
            i <= 16,
            input@.len() >= 16,
            forall|j: int| 0 <= j < i ==> data@[j] == input@[j],
        decreases 16 - i,
    {
        data[i] = input[i];
        i += 1;
    }
    assert(data =~= array_16(input@));
    Ok((slice_subrange(input, 16, input.len()), data))
}

/// Reads a 32-bit little-endian length and the bytes that it counts.
pub fn length_prefixed(input: &[u8]) -> (r: Result<(&[u8], &[u8]), DecodeError>)
    ensures
        match spec_length_prefixed(input@) {
            Ok((rest, bytes)) => r matches Ok((out_rest, out_bytes)) && out_rest@ == rest
                && out_bytes@ == bytes,
            Err(e) => r matches Err(out_e) && out_e == e,
        },
{
    match le_u32(input) {
        Err(e) => Err(e),
        Ok((rest, length)) => take(rest, length as usize),
    }
}

/// Reads a name that ends with a zero byte.
pub fn cstring(input: &[u8]) -> (r: Result<(&[u8], String), DecodeError>)
    ensures
        match spec_cstring(input@) {
            Ok((rest, name)) => r matches Ok((out_rest, out_name)) && out_rest@ == rest
                && out_name@ == name,
            Err(e) => r matches Err(out_e) && out_e == e,
        },
{
    let mut n: usize = 0;
    while n < input.len() && input[n] != 0
        invariant
            n <= input.len(),
            forall|j: int| 0 <= j < n ==> input@[j] != 0,
        decreases input.len() - n,
    {
        n += 1;
    }
    if n == input.len() {
        proof {
            input@.index_of_first_ensures(0u8);
        }
        return Err(DecodeError::TruncatedContainer);
    }
    proof {
        lemma_first_nul(input@, n as int);
    }
    let name_bytes = slice_to_vec(slice_subrange(input, 0, n));
    let rest = slice_subrange(input, n + 1, input.len());
    match string_from_utf8(name_bytes) {
        Ok(name) => Ok((rest, name)),
        Err(_) => Err(DecodeError::InvalidName),
    }
}

} // verus!
