//! Byte counts as human-readable text, formatted by the `humansize` crate.

use vstd::prelude::*;

verus! {

/// What `humansize::format_size(bytes, humansize::BINARY)` gives: the count
/// scaled by powers of 1024, with two decimals when it has a fraction, and
/// a binary unit (`B`, `KiB`, `MiB`, ...).
pub uninterp spec fn binary_size_text(bytes: u64) -> Seq<char>;

/// `humansize::format_size` with the `BINARY` options.
#[verifier::external_body]
fn format_binary_size(bytes: u64) -> (s: String)
    ensures
        s@ == binary_size_text(bytes),
{
    humansize::format_size(bytes, humansize::BINARY)
}

/// A size as human-readable text; a negative size is read as the unsigned
/// count with the same bits, as a cast to `u64` does.
pub fn human_size(size: i64) -> (s: String)
    ensures
        s@ == binary_size_text(size as u64),
{
    format_binary_size(size as u64)
}

} // verus!
