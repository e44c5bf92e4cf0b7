//! Reading Valve package archives, and packing items into bins of one size.
//!
//! A container is a header, a directory tree, and sections that vouch for the
//! bytes: `header`, `sections`, `directory` and `checksums` decode them, each
//! from the start of a run of bytes, and say in their contracts which bytes
//! make which value. `vpk` puts them together into an open container that
//! knows its archives and checks its digests. `encoding` says what the bytes
//! of a tree are, and proves that decoding is its inverse.
//!
//! The library reads no files and takes what was read as bytes.

pub mod archive_name;
pub mod bin_pack;
pub mod checksums;
pub mod digest;
pub mod directory;
pub mod encoding;
pub mod error;
pub mod header;
pub mod primitives;
pub mod sections;
pub mod vpk;
