use rand::{Rng, StdRng};
use vstd::prelude::*;

verus! {

/// The random source of the `rand` crate. Nothing is known of its state.
#[verifier::external_type_specification]
#[verifier::external_body]
pub struct ExStdRng(StdRng);

/// Draws a number with `Rng::gen_range`, which hands back a value from
/// `low` up to but not including `high`.
#[verifier::external_body]
pub(crate) fn gen_range(random: &mut StdRng, low: u32, high: u32) -> (r: u32)
    requires
        low < high,
    ensures
        low <= r < high,
{
    random.gen_range(low, high)
}

/// Draws a truth value with `Rng::gen`. Either value can come back.
#[verifier::external_body]
pub(crate) fn gen_bool(random: &mut StdRng) -> bool {
    random.gen()
}

/// Reorders a list with `Rng::shuffle`, which only swaps entries: the list
/// holds the same items as before, each as often as before.
#[verifier::external_body]
pub(crate) fn shuffle<T>(random: &mut StdRng, values: &mut Vec<T>)
    ensures
        final(values)@.to_multiset() == old(values)@.to_multiset(),
{
    random.shuffle(values.as_mut_slice())
}

/// Picks an entry of a list with `Rng::choose`, which hands back nothing for
/// an empty list and one of the entries otherwise.
#[verifier::external_body]
pub(crate) fn pick<'a, T>(random: &mut StdRng, values: &'a Vec<T>) -> (r: Option<&'a T>)
    ensures
        r is None <==> values@.len() == 0,
        r matches Some(v) ==> values@.contains(*v),
{
    random.choose(values.as_slice())
}

} // verus!
