//! Naming and position checks used when reads are split at their gaps.

use vstd::prelude::*;

use crate::text::suffixed_name;

verus! {

/// The name of the split copy: the suffix goes in before the first dot.
pub fn generate_split_name(filename: String, split_suffix: &str) -> (r: String)
    ensures
        r@ == suffixed_name(filename@, split_suffix@),
{
    crate::text::insert_suffix(filename.as_str(), split_suffix)
}

/// Puts a pair of cut positions in ascending order.
pub fn good_order(begin: usize, end: usize) -> (r: (usize, usize))
    ensures
        r.0 <= r.1,
        (r.0 == begin && r.1 == end) || (r.0 == end && r.1 == begin),
{
    if begin < end {
        (begin, end)
    } else {
        (end, begin)
    }
}

/// A cut falls outside the read when either position passes its length.
pub fn in_read(begin: usize, end: usize, length: usize) -> (r: bool)
    ensures
        r == (begin > length || end > length),
{
    begin > length || end > length
}

} // verus!
