//! Which initial capacities the maps can reserve without panicking.

use vstd::prelude::*;

verus! {

/// A capacity that both the slot vector of `T` and the index table can
/// reserve without their size computations overflowing: above
/// `isize::MAX / 64` entries the index table's bucket layout would exceed
/// `isize::MAX` bytes.
pub open spec fn capacity_fits<T>(capacity: usize) -> bool {
    &&& capacity <= isize::MAX / 64
    &&& capacity * vstd::layout::size_of::<Option<T>>() <= isize::MAX
}

/// Whether `capacity` fits for items of type `T`: the test a caller makes
/// before asking a map for that capacity.
pub fn capacity_fits_for<T>(capacity: usize) -> (b: bool)
    ensures
        b == capacity_fits::<T>(capacity),
{
    if capacity > (isize::MAX as usize) / 64 {
        return false;
    }
    let size = core::mem::size_of::<Option<T>>();
    match capacity.checked_mul(size) {
        Some(total) => total <= isize::MAX as usize,
        None => false,
    }
}

} // verus!
