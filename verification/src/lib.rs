//! Build-time package metadata as structured, validated values.
//!
//! - [`str`]: cutting a byte range out of a text and splitting a text at a
//!   delimiter byte, with the UTF-8 facts they rest on in [`boundary`].
//! - [`authors`]: counting, taking out and joining the entries of an author
//!   list.
//! - [`semver`]: decomposing a semantic version text.
//! - [`codegen`] and [`build_time`]: what the macros of a package compute
//!   from an author list and from the clock.
//!
//! Text is modelled by its UTF-8 encoding, a `Seq<u8>`: the contracts speak
//! of the bytes of a `str`, and give its characters as what those bytes
//! decode to.
//!
//! A function that takes only some inputs says so in its `requires`. Beside
//! those that cut, split, extract, join and parse stands one that takes
//! every input and returns an [`error::Error`] for the others: it is named
//! `try_..`, and for a version `Version::parse`.

pub mod authors;
pub mod boundary;
mod buffer;
pub mod build_time;
pub mod codegen;
pub mod error;
pub mod semver;
pub mod str;
