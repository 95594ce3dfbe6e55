//! The random choices that growing a chain takes, drawn from the generator
//! of the current thread.

use rand::seq::IndexedRandom;
use rand::Rng;
use vstd::prelude::*;
use crate::direction::Direction;

verus! {

/// Calls `rand::seq::IndexedRandom::choose` on `items`: one of the items,
/// each as likely as any other, or nothing where there is no item.
#[verifier::external_body]
pub(crate) fn choose_from<T: Copy>(items: &Vec<T>) -> (r: Option<T>)
    ensures
        match r {
            Some(item) => items@.contains(item),
            None => items@.len() == 0,
        },
{
    items.choose(&mut rand::rng()).copied()
}

/// Calls `rand::seq::IndexedRandom::choose_weighted` on `dirs` with
/// `Direction::growth_weight` as the weight of each: one of the directions
/// given, or nothing where the weights are refused.
#[verifier::external_body]
pub(crate) fn choose_direction(dirs: &[Direction; 4]) -> (r: Option<Direction>)
    ensures
        match r {
            Some(d) => dirs@.contains(d),
            None => true,
        },
{
    dirs.choose_weighted(&mut rand::rng(), |d| d.growth_weight()).ok().copied()
}

/// Calls `rand::Rng::random_range` on `low..=high`: a number of that range,
/// each as likely as any other.
#[verifier::external_body]
pub(crate) fn number_between(low: u32, high: u32) -> (r: u32)
    requires
        low <= high,
    ensures
        low <= r <= high,
{
    rand::rng().random_range(low..=high)
}

} // verus!
