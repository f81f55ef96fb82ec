//! The vocabulary in which both containers state their contracts.
//!
//! A container is described by the `Seq` of values it holds, written so that
//! index 0 is the value that the next removal hands out. Removal is then the
//! same step for both containers, and for their iterators: take the front.

use vstd::prelude::*;

verus! {

/// The value that the next removal hands out, if there is one.
pub open spec fn front<T>(contents: Seq<T>) -> Option<T> {
    if contents.len() == 0 {
        None
    } else {
        Some(contents[0])
    }
}

/// What is left once the front has been taken. Nothing can be taken from an
/// empty sequence, which stays as it is.
pub open spec fn rest<T>(contents: Seq<T>) -> Seq<T> {
    if contents.len() == 0 {
        contents
    } else {
        contents.drop_first()
    }
}

/// What is left after `n` removals in a row.
pub open spec fn rest_after<T>(contents: Seq<T>, n: nat) -> Seq<T>
    decreases n,
{
    if n == 0 {
        contents
    } else {
        rest(rest_after(contents, (n - 1) as nat))
    }
}

/// `n` removals in a row take away the first `n` values and leave the others
/// in place; once the sequence is empty, further removals change nothing.
pub proof fn lemma_rest_after<T>(contents: Seq<T>, n: nat)
    ensures
        n <= contents.len() ==> rest_after(contents, n) == contents.subrange(
            n as int,
            contents.len() as int,
        ),
        n >= contents.len() ==> rest_after(contents, n) == Seq::<T>::empty(),
        n < contents.len() ==> front(rest_after(contents, n)) == Some(contents[n as int]),
        n >= contents.len() ==> front(rest_after(contents, n)) is None,
    decreases n,
{
    if n > 0 {
        lemma_rest_after(contents, (n - 1) as nat);
    }
}

/// A traversal is a run of removals on a sequence of its own, which starts
/// as a copy of what the container holds. Step number `k`, counting from 0,
/// hands out `contents[k]`; after `contents.len()` steps the end is reported,
/// and it is reported at every later step. The outcome depends on `contents`
/// alone, and no step changes `contents`: a second traversal of the same
/// container repeats the first, value for value.
pub proof fn lemma_traversal<T>(contents: Seq<T>)
    ensures
        forall|k: nat|
            k < contents.len() ==> front(#[trigger] rest_after(contents, k)) == Some(
                contents[k as int],
            ),
        forall|k: nat| k >= contents.len() ==> front(#[trigger] rest_after(contents, k)) is None,
{
    assert forall|k: nat| k < contents.len() implies front(#[trigger] rest_after(contents, k))
        == Some(contents[k as int]) by {
        lemma_rest_after(contents, k);
    }
    assert forall|k: nat| k >= contents.len() implies front(
        #[trigger] rest_after(contents, k),
    ) is None by {
        lemma_rest_after(contents, k);
    }
}

} // verus!
