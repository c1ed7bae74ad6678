//! The one place where chance enters: a uniform pick from a slice.

use rand::seq::SliceRandom;
use vstd::prelude::*;

verus! {

/// Picks one item of `items` with `rand::seq::SliceRandom::choose`, drawing
/// from the generator that `rand::thread_rng` hands out.
///
/// Trusted, not proved: `choose` returns `None` for an empty slice and
/// otherwise a reference to the item at an index below the length. Which
/// item comes back is up to the generator, so nothing more is claimed.
/// `thread_rng` panics if the operating system cannot seed the generator.
#[verifier::external_body]
pub(crate) fn pick_one<T>(items: &[T]) -> (picked: Option<&T>)
    ensures
        picked is None <==> items@.len() == 0,
        picked matches Some(item) ==> items@.contains(*item),
{
    items.choose(&mut rand::thread_rng())
}

} // verus!
