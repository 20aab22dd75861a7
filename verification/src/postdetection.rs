//! Helpers shared by the operations run after detection.

use vstd::prelude::*;

use crate::text::suffixed_path;

verus! {

/// A span touches the inside of a read when either position falls before
/// its length.
pub fn in_read(begin: usize, end: usize, length: usize) -> (r: bool)
    ensures
        r == (begin < length || end < length),
{
    begin < length || end < length
}

/// The output name of a post-detection pass: the suffix goes in before
/// the first dot of the path's file name.
pub fn generate_out_name(filename: &str, suffix: &str) -> (r: String)
    ensures
        r@ == suffixed_path(filename@, suffix@),
{
    crate::text::insert_suffix_path(filename, suffix)
}

} // verus!
