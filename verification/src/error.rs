use vstd::prelude::*;

verus! {

/// Errors reported by the library.
///
/// Validation errors (`DimensionMismatch`) are reported synchronously and are
/// never retried; `EmptyIndex` tells a caller "no data yet" apart from
/// `CorruptIndex`, "data damaged"; the `EOF` / `UnexpectIO` / `Unexpected`
/// variants carry I/O conditions that the surrounding program maps into the
/// library's error space.
#[derive(Debug, PartialEq, Eq)]
pub enum VBError {
    EOF,
    UnexpectIO(String, String),
    Unexpected(String),
    /// A vector's dimensionality differs from the index's fixed dimensionality.
    DimensionMismatch,
    /// A query against an index with no entry point (no vector ever inserted).
    EmptyIndex,
    /// A serialized index image that no well-formed index produces.
    CorruptIndex,
}

} // verus!
