//! Vectors of bounded length, kept inline: [`ArrayVec`] and what is known of it.

use arrayvec::ArrayVec;
use vstd::prelude::*;

verus! {

/// `arrayvec::ArrayVec`: a vector that holds at most `CAP` items. Opaque; what
/// it holds is [`contents`].
#[verifier::external_type_specification]
#[verifier::external_body]
#[verifier::reject_recursive_types(T)]
pub struct ExArrayVec<T, const CAP: usize>(arrayvec::ArrayVec<T, CAP>);

/// `<ArrayVec as Deref>::deref`: hands out the items as a slice. Nothing is
/// claimed of that slice here; [`contents`] is what it holds.
pub assume_specification<T, const CAP: usize>[ <ArrayVec<T, CAP> as std::ops::Deref>::deref ](
    v: &ArrayVec<T, CAP>,
) -> (s: &<ArrayVec<T, CAP> as std::ops::Deref>::Target)
;

/// The items that an [`ArrayVec`] holds, first to last: the slice that it
/// dereferences to.
pub open spec fn contents<T, const CAP: usize>(v: &ArrayVec<T, CAP>) -> Seq<T> {
    (choose|s: &[T]| call_ensures(<ArrayVec<T, CAP> as std::ops::Deref>::deref, (v,), s))@
}

/// `ArrayVec::as_slice`: all items, first to last. It is what `deref` returns, so
/// both are the same slice, and it is never longer than the capacity.
pub assume_specification<T, const CAP: usize>[ ArrayVec::<T, CAP>::as_slice ](
    v: &ArrayVec<T, CAP>,
) -> (s: &[T])
    ensures
        s@ == contents(v),
        s@.len() <= CAP,
;

/// `ArrayVec::new`: an empty vector. It panics on a capacity beyond 32 bits.
pub assume_specification<T, const CAP: usize>[ ArrayVec::<T, CAP>::new ]() -> (v: ArrayVec<T, CAP>)
    requires
        CAP <= u32::MAX,
    ensures
        contents(&v) == Seq::<T>::empty(),
;

/// `<ArrayVec as Clone>::clone`: a vector of the clones of the items, in the
/// same order.
pub assume_specification<T, const CAP: usize>[ <ArrayVec<T, CAP> as Clone>::clone ](
    v: &ArrayVec<T, CAP>,
) -> (r: ArrayVec<T, CAP>) where T: Clone
    ensures
        contents(&r).len() == contents(v).len(),
        forall|i: int|
            0 <= i < contents(v).len() ==> cloned::<T>(
                contents(v)[i],
                #[trigger] contents(&r)[i],
            ),
;

/// `ArrayVec::try_push`: appends the item while there is room, and says whether
/// there was; a full vector stays as it is.
#[verifier::external_body]
pub(crate) fn try_push<T, const CAP: usize>(v: &mut ArrayVec<T, CAP>, item: T) -> (pushed: bool)
    ensures
        pushed == (contents(old(v)).len() < CAP),
        pushed ==> contents(final(v)) == contents(old(v)).push(item),
        !pushed ==> contents(final(v)) == contents(old(v)),
{
    v.try_push(item).is_ok()
}

} // verus!
