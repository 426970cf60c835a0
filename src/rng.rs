//! Random choices, drawn from the thread-local generator of `rand`.
use vstd::prelude::*;
use rand::seq::SliceRandom;
use rand::Rng;
use crate::point::Point;

verus! {

/// Relies on `rand::random`: a value drawn from the standard distribution of
/// its type. Nothing can be promised of which one.
pub assume_specification<T>[ rand::random::<T> ]() -> (r: T)
    where
        rand::distributions::Standard: rand::distributions::Distribution<T>,
;

/// Relies on `rand::Rng::gen_range` on the thread-local generator: a value of
/// `low..high`. It panics on an empty range, which `requires` leaves out.
#[verifier::external_body]
pub(crate) fn random_in_range(low: usize, high: usize) -> (r: usize)
    requires
        low < high,
    ensures
        low <= r < high,
{
    rand::thread_rng().gen_range(low..high)
}

/// Relies on `rand::seq::SliceRandom::choose` on the thread-local generator:
/// `None` exactly for an empty slice, else one of its elements.
#[verifier::external_body]
pub(crate) fn choose_point(points: &Vec<Point>) -> (r: Option<Point>)
    ensures
        r is None <==> points.len() == 0,
        r matches Some(p) ==> points@.contains(p),
{
    points.choose(&mut rand::thread_rng()).copied()
}

} // verus!
