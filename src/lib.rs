//! A binary search tree of distinct values with verified insertion, removal,
//! queries and traversals, and a singly linked list that traversals can fill.
use vstd::prelude::*;

pub mod bst;
pub mod linked_list;
pub mod order;

verus! {

/// The sum of `left` and `right`.
pub fn add(left: u64, right: u64) -> (r: u64)
    requires
        left + right <= u64::MAX,
    ensures
        r == left + right,
{
    left + right
}

} // verus!
