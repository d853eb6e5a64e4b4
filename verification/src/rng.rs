//! Random draws from `rand`'s standard generator.
use rand::rngs::StdRng;
use rand::Rng;
use rand::SeedableRng;
use vstd::prelude::*;

verus! {

/// `rand::rngs::StdRng`, carried through as an opaque value.
#[verifier::external_type_specification]
#[verifier::external_body]
pub struct ExStdRng(StdRng);

/// The state of a generator, which decides every later draw from it.
pub uninterp spec fn rng_state(rng: StdRng) -> Seq<u32>;

/// The state of a generator that was seeded with `seed`.
pub uninterp spec fn seeded_state(seed: u64) -> Seq<u32>;

/// What a draw from `0..n` gives in state `state`: the number drawn and the
/// state after the draw.
pub uninterp spec fn drawn_below(state: Seq<u32>, n: usize) -> (usize, Seq<u32>);

/// What a draw from `lo..=hi` gives in state `state`: the number drawn and the
/// state after the draw.
pub uninterp spec fn drawn_between(state: Seq<u32>, lo: i64, hi: i64) -> (i64, Seq<u32>);

/// Whether an event with a chance of `num` in `den` happens in state `state`,
/// and the state after the draw.
pub uninterp spec fn drawn_chance(state: Seq<u32>, num: u32, den: u32) -> (bool, Seq<u32>);

/// `StdRng::seed_from_u64`: the seed alone decides the state.
#[verifier::external_body]
pub(crate) fn seeded_rng(seed: u64) -> (rng: StdRng)
    ensures
        rng_state(rng) == seeded_state(seed),
{
    StdRng::seed_from_u64(seed)
}

/// `StdRng::from_os_rng`: a generator in a state that the operating system's
/// entropy decides. Nothing is claimed of that state. The call panics where
/// the operating system provides no entropy.
#[verifier::external_body]
pub(crate) fn entropy_rng() -> (rng: StdRng)
{
    StdRng::from_os_rng()
}

/// `Rng::random_range` over `0..n` on a `StdRng`: a number below `n`, decided
/// together with the next state by the state before the call and `n`. An
/// empty range panics and is left out.
#[verifier::external_body]
pub(crate) fn draw_below(rng: &mut StdRng, n: usize) -> (r: usize)
    requires
        n > 0,
    ensures
        r < n,
        (r, rng_state(*final(rng))) == drawn_below(rng_state(*old(rng)), n),
{
    rng.random_range(0..n)
}

/// `Rng::random_range` over `lo..=hi` on a `StdRng`: a number of that range,
/// decided together with the next state by the state before the call and the
/// two bounds. An empty range panics and is left out.
#[verifier::external_body]
pub(crate) fn draw_between(rng: &mut StdRng, lo: i64, hi: i64) -> (r: i64)
    requires
        lo <= hi,
    ensures
        lo <= r <= hi,
        (r, rng_state(*final(rng))) == drawn_between(rng_state(*old(rng)), lo, hi),
{
    rng.random_range(lo..=hi)
}

/// `Rng::random_ratio` on a `StdRng`: a yes or no, decided together with the next
/// state by the state before the call and the two numbers. A chance above one
/// and a zero `den` panic and are left out.
#[verifier::external_body]
pub(crate) fn draw_chance(rng: &mut StdRng, num: u32, den: u32) -> (r: bool)
    requires
        num <= den,
        den > 0,
    ensures
        (r, rng_state(*final(rng))) == drawn_chance(rng_state(*old(rng)), num, den),
{
    rng.random_ratio(num, den)
}

/// A generator for an optional seed: the seeded one, or one in an unknown
/// state when there is no seed.
pub fn rng_for(seed: Option<u64>) -> (rng: StdRng)
    ensures
        seed matches Some(s) ==> rng_state(rng) == seeded_state(s),
{
    match seed {
        Some(s) => seeded_rng(s),
        None => entropy_rng(),
    }
}

} // verus!
