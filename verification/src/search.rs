//! Substring search over bytes: [`memmem::Finder`] and what is known of it.

use memchr::memmem;
use vstd::prelude::*;

verus! {

/// Whether `needle` stands in `haystack` at index `at`.
pub open spec fn occurs_at(haystack: Seq<u8>, needle: Seq<u8>, at: int) -> bool {
    &&& 0 <= at
    &&& at + needle.len() <= haystack.len()
    &&& haystack.subrange(at, at + needle.len()) == needle
}

/// Whether `at` is the first place at or after `from` where `needle` stands.
pub open spec fn first_at(haystack: Seq<u8>, needle: Seq<u8>, from: int, at: int) -> bool {
    &&& from <= at
    &&& occurs_at(haystack, needle, at)
    &&& forall|j: int| from <= j < at ==> !occurs_at(haystack, needle, j)
}

/// The first place at or after `from` where `needle` stands, if there is one.
pub open spec fn find_from(haystack: Seq<u8>, needle: Seq<u8>, from: int) -> Option<int> {
    if exists|at: int| first_at(haystack, needle, from, at) {
        Some(choose|at: int| first_at(haystack, needle, from, at))
    } else {
        None
    }
}

/// `memchr::memmem::Finder`: a searcher prepared for one needle. Opaque; the
/// needle is [`needle_of`].
#[verifier::external_type_specification]
#[verifier::external_body]
pub struct ExFinder<'n>(memmem::Finder<'n>);

/// The bytes that a finder holds and looks for: what `Finder::needle` returns.
pub uninterp spec fn needle_of(finder: &memmem::Finder<'_>) -> Seq<u8>;

/// `Finder::new`: a finder that holds the given needle.
#[verifier::external_body]
pub(crate) fn finder_for<'n>(needle: &'n [u8]) -> (finder: memmem::Finder<'n>)
    ensures
        needle_of(&finder) == needle@,
{
    memmem::Finder::new(needle)
}

/// `Finder::needle`: the needle that the finder was made for.
pub assume_specification<'n, 'f>[ memmem::Finder::<'n>::needle ](
    finder: &'f memmem::Finder<'n>,
) -> (needle: &'f [u8])
    ensures
        needle@ == needle_of(finder),
;

/// `Finder::find`: the index of the first occurrence of the needle in the
/// haystack, or nothing where it does not occur.
pub assume_specification<'n>[ memmem::Finder::<'n>::find ](
    finder: &memmem::Finder<'n>,
    haystack: &[u8],
) -> (r: Option<usize>)
    ensures
        match r {
            Some(at) => first_at(haystack@, needle_of(finder), 0, at as int),
            None => forall|at: int| !occurs_at(haystack@, needle_of(finder), at),
        },
;

/// There is at most one first place, and it is what [`find_from`] names.
pub proof fn lemma_find_from(haystack: Seq<u8>, needle: Seq<u8>, from: int, at: int)
    requires
        first_at(haystack, needle, from, at),
    ensures
        find_from(haystack, needle, from) == Some(at),
{
    let found = choose|i: int| first_at(haystack, needle, from, i);
    assert(first_at(haystack, needle, from, found));
    if found < at {
        assert(!occurs_at(haystack, needle, found));
    } else if at < found {
        assert(!occurs_at(haystack, needle, at));
    }
}

/// Searching behind `from` is searching the bytes from there on.
pub proof fn lemma_occurs_in_tail(haystack: Seq<u8>, needle: Seq<u8>, from: int, at: int)
    requires
        0 <= from <= haystack.len(),
        0 <= at,
    ensures
        occurs_at(haystack.skip(from), needle, at) == occurs_at(haystack, needle, from + at),
{
    if at + needle.len() <= haystack.len() - from {
        assert(haystack.skip(from).subrange(at, at + needle.len()) =~= haystack.subrange(
            from + at,
            from + at + needle.len(),
        ));
    }
}

} // verus!
