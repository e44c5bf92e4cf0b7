//! The ways in which bytes can fail to follow the container format.

use vstd::prelude::*;

verus! {

/// Why a run of bytes is not what the container format asks for at that place.
#[derive(Clone, Copy, Debug, PartialEq, Eq, Structural)]
pub enum DecodeError {
    /// The container does not start with the magic number.
    BadSignature,
    /// The version tag is neither 1 nor 2.
    UnsupportedVersion,
    /// The bytes end before the value that is being read does.
    TruncatedContainer,
    /// A name is not valid UTF-8.
    InvalidName,
    /// The fixed part of a directory entry does not end with the marker
    /// `0xFFFF`.
    BadTerminator,
}

} // verus!
