//! Reserving room in a vector.
use vstd::prelude::*;

verus! {

/// Room for `additional` more items in `v`, through `Vec::try_reserve`.
///
/// `Vec::try_reserve` leaves the items as they are, and fails where the
/// capacity would overflow: no vector holds more than `isize::MAX` bytes, so a
/// request for room beyond that fails. Whether any other request succeeds
/// depends on the allocator, and is not stated.
#[verifier::external_body]
pub(crate) fn reserve_room<T>(v: &mut Vec<T>, additional: usize) -> (r: Result<
    (),
    std::collections::TryReserveError,
>)
    ensures
        final(v)@ == old(v)@,
        (old(v)@.len() + additional) * vstd::layout::size_of::<T>() > isize::MAX ==> r is Err,
{
    v.try_reserve(additional)
}

} // verus!
