//! Clamping of a selection index to the entries that exist.

use vstd::prelude::*;

verus! {

/// Sanitize a selection index: the nearest valid index of `count` entries,
/// or 0 where there are none.
pub fn sanitize_selection(selection: isize, count: usize) -> (r: usize)
    requires
        count <= isize::MAX,
    ensures
        count == 0 ==> r == 0,
        count > 0 && selection < 0 ==> r == 0,
        count > 0 && 0 <= selection < count ==> r == selection,
        count > 0 && selection >= count ==> r == count - 1,
{
    let last = count as isize - 1;
    let upper = if selection < last { selection } else { last };
    if upper < 0 {
        0
    } else {
        upper as usize
    }
}

} // verus!
