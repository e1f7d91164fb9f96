//! Resolves `a(:path, arg1, arg2, ...:)` placeholders in a document against a
//! hierarchical JSON-like context, substituting each resolvable placeholder by
//! the text of the value it names.

use vstd::prelude::*;

pub mod alias;
pub mod config;
pub mod laws;
pub mod reducer;
pub mod scan;
pub mod text;
pub mod value;

verus! {

/// Removes and returns the last element of a vector, or `None` when it is empty.
pub fn fetch_last<T>(list: &mut Vec<T>) -> (r: Option<T>)
    ensures
        old(list)@.len() == 0 ==> r is None && final(list)@ == old(list)@,
        old(list)@.len() > 0 ==> r == Some(old(list)@.last()) && final(list)@ == old(
            list,
        )@.drop_last(),
{
    let r = list.pop();
    proof {
        if old(list)@.len() > 0 {
            assert(final(list)@ =~= old(list)@.drop_last());
        }
    }
    r
}

} // verus!
