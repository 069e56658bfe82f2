//! The random source of the roller: `rand`'s standard generator, with records of the ranges
//! that have been requested from it and the values it returned.

use rand::rngs::StdRng;
use rand::Rng;
use rand::SeedableRng;
use vstd::prelude::*;

verus! {

/// `rand`'s standard generator, carried by the roller as an opaque value.
#[verifier::external_type_specification]
#[verifier::external_body]
pub struct ExStdRng(StdRng);

/// A generator, and (as ghost state) the inclusive ranges requested from it and the values it
/// returned, in order.
pub struct DiceSource {
    rng: StdRng,
    requests: Ghost<Seq<(u32, u32)>>,
    draws: Ghost<Seq<u32>>,
}

impl DiceSource {
    /// The generator.
    pub closed spec fn generator(&self) -> StdRng {
        self.rng
    }

    /// The inclusive ranges requested from the generator so far, oldest first.
    pub closed spec fn requests(&self) -> Seq<(u32, u32)> {
        self.requests@
    }

    /// The values the generator returned so far, oldest first.
    pub closed spec fn draws(&self) -> Seq<u32> {
        self.draws@
    }

    /// A source drawing from `rng`, with no request made yet.
    pub fn new(rng: StdRng) -> (s: Self)
        ensures
            s.generator() == rng,
            s.requests() == Seq::<(u32, u32)>::empty(),
            s.draws() == Seq::<u32>::empty(),
    {
        DiceSource { rng, requests: Ghost(Seq::empty()), draws: Ghost(Seq::empty()) }
    }
}

/// Calls `rand::Rng::random_range` on the source's generator with the inclusive range
/// `low..=high`.
///
/// Trusted: the result lies in `low..=high` (what `rand` documents and its
/// `sample_single_inclusive` returns). The ghost records note the one call the body makes: the
/// range `low..=high` among the requests, the value returned among the draws. Which value
/// comes, and how the generator's state moves, depends on that state and is not stated. The
/// call panics on an empty range, which `requires` rules out.
#[verifier::external_body]
pub(crate) fn random_inclusive(source: &mut DiceSource, low: u32, high: u32) -> (r: u32)
    requires
        low <= high,
    ensures
        low <= r <= high,
        final(source).requests() == old(source).requests().push((low, high)),
        final(source).draws() == old(source).draws().push(r),
{
    source.rng.random_range(low..=high)
}

/// Calls `rand::SeedableRng::try_from_os_rng` for `StdRng`: a generator seeded from the
/// operating system, or `None` when the operating system provides no entropy.
///
/// Trusted: nothing is stated of the generator, whose seed is random, nor of when the
/// operating system fails.
#[verifier::external_body]
pub(crate) fn seeded_from_os() -> Option<StdRng> {
    StdRng::try_from_os_rng().ok()
}

} // verus!
