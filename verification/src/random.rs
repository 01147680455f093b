//! The random numbers that the optimizers draw.
//!
//! What a generator draws is not modelled, but what was drawn from which state of it is: the
//! relations of this module say that a draw from one state of a generator can give a value and
//! leave another state. For that a draw moves the generator out of its place and puts it back.

use rand::rngs::SmallRng;
use rand::{Rng, SeedableRng};
use std::mem::swap;
use vstd::prelude::*;

verus! {

/// The generator [`rand::rngs::SmallRng`]. What its state holds is not modelled.
#[verifier::external_type_specification]
#[verifier::external_body]
pub struct ExSmallRng(SmallRng);

/// A generator started from `seed`, by [`SeedableRng::seed_from_u64`].
///
/// The generator that a seed gives differs between platforms and releases of `rand`, so nothing
/// is claimed of what it draws.
#[verifier::external_body]
pub(crate) fn seeded(seed: u64) -> SmallRng {
    SmallRng::seed_from_u64(seed)
}

/// A generator started from what the operating system gives, by
/// [`SeedableRng::try_from_os_rng`]. There is none where the system has nothing to give.
///
/// Nothing is claimed of the generator: two of them need not draw the same.
#[verifier::external_body]
pub(crate) fn fresh() -> Option<SmallRng> {
    SmallRng::try_from_os_rng().ok()
}

/// A truth value from [`Rng::random`]. Either may come.
#[verifier::external_body]
pub(crate) fn coin(rng: &mut SmallRng) -> bool {
    rng.random()
}

/// An index from [`Rng::random_range`], which is below `n`. Any such index may come.
#[verifier::external_body]
pub(crate) fn index_below(n: usize, rng: &mut SmallRng) -> (k: usize)
    requires
        n > 0,
    ensures
        k < n,
{
    rng.random_range(0..n)
}

/// Draws a truth value, and hands the generator back in the state that the draw left.
fn coin_from(rng: SmallRng) -> (out: (bool, SmallRng))
    ensures
        exists|g: &mut SmallRng|
            *g == rng && #[trigger] call_ensures(coin, (g,), out.0) && *final(g) == out.1,
{
    let mut rng = rng;
    let ghost before = rng;
    let b: bool = coin(&mut rng);
    proof {
        let g = choose|g: &mut SmallRng|
            *g == before && #[trigger] call_ensures(coin, (g,), b) && *final(g) == rng;
        assert(call_ensures(coin, (g,), (b, rng).0));
    }
    (b, rng)
}

/// Draws an index below `n`, and hands the generator back in the state that the draw left.
fn index_from(n: usize, rng: SmallRng) -> (out: (usize, SmallRng))
    requires
        n > 0,
    ensures
        out.0 < n,
        exists|g: &mut SmallRng|
            *g == rng && #[trigger] call_ensures(index_below, (n, g), out.0) && *final(g)
                == out.1,
{
    let mut rng = rng;
    let k: usize = index_below(n, &mut rng);
    (k, rng)
}

/// Whether a generator started from `seed` can have the state `rng`.
pub closed spec fn started(seed: u64, rng: SmallRng) -> bool {
    call_ensures(seeded, (seed,), rng)
}

/// Whether a generator that is started anew can have the state `rng`: one that the operating system
/// started or, where it starts none, the one started from zero.
pub closed spec fn opened(rng: SmallRng) -> bool {
    ||| call_ensures(fresh, (), Some(rng))
    ||| call_ensures(fresh, (), None) && started(0, rng)
}

/// Whether a truth value drawn from the state `before` can be `b`, and leave the state `after`.
pub closed spec fn coin_drawn(before: SmallRng, b: bool, after: SmallRng) -> bool {
    call_ensures(coin_from, (before,), (b, after))
}

/// Whether an index below `n` drawn from the state `before` can be `k`, and leave the state
/// `after`.
pub closed spec fn index_drawn(n: usize, before: SmallRng, k: usize, after: SmallRng) -> bool {
    call_ensures(index_from, (n, before), (k, after))
}

/// A state of the generator between two parts of a computation. Any state may be one: the name
/// only marks it for proofs.
pub open spec fn between(rng: SmallRng) -> bool {
    true
}

/// Starts a generator from `seed`.
pub(crate) fn start(seed: u64) -> (rng: SmallRng)
    ensures
        started(seed, rng),
{
    seeded(seed)
}

/// Starts a generator anew. Two of them need not draw the same.
pub(crate) fn open() -> (rng: SmallRng)
    ensures
        opened(rng),
{
    match fresh() {
        Some(rng) => rng,
        None => start(0),
    }
}

/// Draws a truth value.
pub(crate) fn draw_coin(rng: &mut SmallRng) -> (b: bool)
    ensures
        coin_drawn(*old(rng), b, *final(rng)),
{
    let mut taken: SmallRng = seeded(0);
    swap(rng, &mut taken);
    let (b, left) = coin_from(taken);
    *rng = left;
    b
}

/// Draws an index below `n`.
pub(crate) fn draw_index(n: usize, rng: &mut SmallRng) -> (k: usize)
    requires
        n > 0,
    ensures
        k < n,
        index_drawn(n, *old(rng), k, *final(rng)),
{
    let mut taken: SmallRng = seeded(0);
    swap(rng, &mut taken);
    let (k, left) = index_from(n, taken);
    *rng = left;
    k
}

/// A truth value that is drawn from a state comes of a call on a generator in that state, and the
/// state that is left is the one in which the call leaves it.
pub(crate) proof fn coin_comes_of_call(before: SmallRng, b: bool, after: SmallRng)
    requires
        coin_drawn(before, b, after),
    ensures
        exists|g: &mut SmallRng|
            *g == before && #[trigger] call_ensures(coin, (g,), b) && *final(g) == after,
{
}

/// An index that is drawn from a state comes of a call on a generator in that state, and the state
/// that is left is the one in which the call leaves it.
pub(crate) proof fn index_comes_of_call(n: usize, before: SmallRng, k: usize, after: SmallRng)
    requires
        index_drawn(n, before, k, after),
    ensures
        k < n,
        exists|g: &mut SmallRng|
            *g == before && #[trigger] call_ensures(index_below, (n, g), k) && *final(g) == after,
{
}

/// A generator that is started from a seed comes of that seed.
pub(crate) proof fn generator_comes_of_seed(seed: u64, rng: SmallRng)
    requires
        started(seed, rng),
    ensures
        call_ensures(seeded, (seed,), rng),
{
}

/// A generator that is started anew is the one that the operating system starts, unless it starts
/// none.
pub(crate) proof fn new_generator_comes_of_system(rng: SmallRng)
    requires
        opened(rng),
    ensures
        call_ensures(fresh, (), Some(rng)) || call_ensures(fresh, (), None) && call_ensures(
            seeded,
            (0u64,),
            rng,
        ),
{
}

} // verus!
