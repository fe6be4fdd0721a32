use crate::board::Board;
use crate::board::Move;
use vstd::prelude::*;

verus! {

/// Relies on rand's RngExt::random_range over the thread-local generator: it
/// returns a value uniformly sampled from the given half-open range, so the
/// result is strictly below n. It panics on an empty range, so n must be
/// positive.
#[verifier::external_body]
fn random_below(n: usize) -> (r: usize)
    requires
        n > 0,
    ensures
        r < n,
{
    rand::RngExt::random_range(&mut rand::rng(), 0..n)
}

#[verifier::external_type_specification]
#[verifier::external_body]
pub struct ExStdRng(rand::rngs::StdRng);

/// Relies on rand's SeedableRng::seed_from_u64 for StdRng: it builds a
/// generator from the seed alone, deterministically, and does not panic.
#[verifier::external_body]
fn seeded_rng(seed: u64) -> (r: rand::rngs::StdRng) {
    <rand::rngs::StdRng as rand::SeedableRng>::seed_from_u64(seed)
}

/// Relies on rand's RngExt::random_range over the given generator: it returns
/// a value uniformly sampled from the given half-open range, so the result is
/// strictly below n. It panics on an empty range, so n must be positive.
#[verifier::external_body]
fn seeded_below(rng: &mut rand::rngs::StdRng, n: usize) -> (r: usize)
    requires
        n > 0,
    ensures
        r < n,
{
    rand::RngExt::random_range(rng, 0..n)
}

/// A strategy: shown the board and the non-empty list of currently legal
/// moves, it picks one of them, or declines. A strategy whose `may_decline` is
/// false promises to pick; the turn engine needs that promise to show that a
/// game runs to completion, since a strategy that declines forever stalls the
/// game without ever passing.
pub trait Player: Sized {
    spec fn may_decline() -> bool;

    fn get_move(&mut self, b: &Board, available: &Vec<Move>) -> (r: Option<Move>)
        requires
            b.wf(),
            available@.len() > 0,
        ensures
            r matches Some(m) ==> available@.contains(m),
            !Self::may_decline() ==> r is Some,
    ;
}

/// Always plays the first offered move.
pub struct BasicPlayer {}

impl Player for BasicPlayer {
    open spec fn may_decline() -> bool {
        false
    }

    fn get_move(&mut self, b: &Board, available: &Vec<Move>) -> (r: Option<Move>)
        ensures
            r == Some(available@[0]),
    {
        let m = available[0];
        proof {
            assert(available@.contains(available@[0]));
        }
        Some(m)
    }
}

/// Plays a uniformly random one of the offered moves, drawn from its own
/// seedable generator, so that a game can be replayed from its seed.
pub struct SeededRandomPlayer {
    rng: rand::rngs::StdRng,
}

impl SeededRandomPlayer {
    pub fn from_seed(seed: u64) -> (p: SeededRandomPlayer) {
        SeededRandomPlayer { rng: seeded_rng(seed) }
    }
}

impl Player for SeededRandomPlayer {
    open spec fn may_decline() -> bool {
        false
    }

    fn get_move(&mut self, b: &Board, available: &Vec<Move>) -> (r: Option<Move>)
        ensures
            r is Some,
    {
        let i = seeded_below(&mut self.rng, available.len());
        let m = available[i];
        proof {
            assert(available@.contains(available@[i as int]));
        }
        Some(m)
    }
}

/// Plays a uniformly random one of the offered moves, drawn from the
/// thread-local generator.
pub struct RandomPlayer {}

impl Player for RandomPlayer {
    open spec fn may_decline() -> bool {
        false
    }

    fn get_move(&mut self, b: &Board, available: &Vec<Move>) -> (r: Option<Move>)
        ensures
            r is Some,
    {
        let i = random_below(available.len());
        let m = available[i];
        proof {
            assert(available@.contains(available@[i as int]));
        }
        Some(m)
    }
}

} // verus!
