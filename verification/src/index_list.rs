//! Lists of body indices that live in a bump allocator. The lists are
//! bumpalo's vectors; what they hold is known here by the name `index_list`.

use vstd::prelude::*;

verus! {

/// bumpalo's `Bump`, the allocator that the lists live in. Nothing is
/// claimed of it: it is only handed on.
#[verifier::external_type_specification]
#[verifier::external_body]
pub struct ExBump<const MIN_ALIGN: usize>(bumpalo::Bump<MIN_ALIGN>);

/// bumpalo's `collections::Vec`. What such a vector holds is not seen here;
/// for vectors of indices it goes by the name [`index_list`].
#[verifier::external_type_specification]
#[verifier::external_body]
#[verifier::reject_recursive_types(T)]
pub struct ExBumpVec<'bump, T>(bumpalo::collections::Vec<'bump, T>);

/// A list of body indices in a bump allocator.
pub type IndexList<'b> = bumpalo::collections::Vec<'b, usize>;

/// The indices that a list holds, in order. A name without a definition:
/// what is known of it is what the functions below say.
pub uninterp spec fn index_list(list: bumpalo::collections::Vec<usize>) -> Seq<usize>;

/// The numbers from `start` up to, not including, `end`.
pub open spec fn index_range(start: usize, end: usize) -> Seq<usize> {
    if start <= end {
        Seq::new((end - start) as nat, |i: int| (start + i) as usize)
    } else {
        Seq::empty()
    }
}

/// bumpalo's `Vec::from_iter_in` on the range `start..end`.
/// Trusted: the new list holds the numbers of the range, in order (the
/// function pushes each item that the iterator yields onto an empty list).
#[verifier::external_body]
pub(crate) fn list_from_range<'b>(start: usize, end: usize, bump: &'b bumpalo::Bump) -> (list:
    IndexList<'b>)
    ensures
        index_list(list) == index_range(start, end),
{
    bumpalo::collections::Vec::from_iter_in(start..end, bump)
}

/// bumpalo's `Vec::push`.
/// Trusted: the list holds afterwards what it held before, followed by
/// `index`.
#[verifier::external_body]
pub(crate) fn list_push(list: &mut IndexList<'_>, index: usize)
    ensures
        index_list(*final(list)) == index_list(*old(list)).push(index),
{
    list.push(index)
}

/// bumpalo's `Vec::len`.
/// Trusted: the result is the number of items that the list holds.
#[verifier::external_body]
pub(crate) fn list_len(list: &IndexList<'_>) -> (n: usize)
    ensures
        n == index_list(*list).len(),
{
    list.len()
}

/// bumpalo's `Index` for `Vec`, at a position inside the list.
/// Trusted: the result is the item at that position.
#[verifier::external_body]
pub(crate) fn list_get(list: &IndexList<'_>, at: usize) -> (index: usize)
    requires
        at < index_list(*list).len(),
    ensures
        index == index_list(*list)[at as int],
{
    list[at]
}

} // verus!
