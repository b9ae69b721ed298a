//! Random number generation for games.

use rand::{Rng, SeedableRng};
use vstd::prelude::*;

verus! {

/// `StdRng` of `rand::rngs`: the state of a generator. Nothing inside it is
/// seen here.
#[verifier::external_type_specification]
#[verifier::external_body]
pub struct ExStdRng(rand::rngs::StdRng);

/// `SeedableRng::try_from_os_rng` of `rand`, for `StdRng`: a generator
/// seeded by the operating system, or `None` where the system gave no seed.
#[verifier::external_body]
fn std_rng_from_os() -> (rng: Option<rand::rngs::StdRng>) {
    rand::rngs::StdRng::try_from_os_rng().ok()
}

/// `SeedableRng::seed_from_u64` of `rand`, for `StdRng`.
#[verifier::external_body]
fn std_rng_seeded(seed: u64) -> (rng: rand::rngs::StdRng) {
    rand::rngs::StdRng::seed_from_u64(seed)
}

/// `Rng::random_range` of `rand` on the half-open range from `start` to
/// `end`: the value drawn lies in the range. The call panics on an empty
/// range, which `requires` leaves out.
#[verifier::external_body]
fn std_rng_range(rng: &mut rand::rngs::StdRng, start: i64, end: i64) -> (n: i64)
    requires
        start < end,
    ensures
        start <= n < end,
{
    rng.random_range(start..end)
}

/// `Rng::random` of `rand`, for `u64`.
#[verifier::external_body]
fn std_rng_next(rng: &mut rand::rngs::StdRng) -> (n: u64) {
    rng.random()
}

/// `RandomNumberGenerator` holds random number generation state and offers
/// random number generation services to your program.
pub struct RandomNumberGenerator {
    rng: rand::rngs::StdRng,
}

impl RandomNumberGenerator {
    /// Creates a `RandomNumberGenerator` with a starting seed drawn from
    /// the operating system; `None` where the system gives none.
    pub fn new() -> (generator: Option<Self>) {
        match std_rng_from_os() {
            Some(rng) => Some(Self::from_rng(rng)),
            None => None,
        }
    }

    /// Creates a `RandomNumberGenerator` with a specified random seed.
    /// Given the same requests, it will produce the *same results* each time.
    pub fn seeded(seed: u64) -> (generator: Self) {
        Self::from_rng(std_rng_seeded(seed))
    }

    /// Generates a random number within the half-open range from `start`
    /// to `end`.
    pub fn range(&mut self, start: i64, end: i64) -> (n: i64)
        requires
            start < end,
        ensures
            start <= n < end,
    {
        std_rng_range(&mut self.rng, start, end)
    }

    /// Generates a random number within the range from `start` to `end`,
    /// both included.
    pub fn range_inclusive(&mut self, start: i64, end: i64) -> (n: i64)
        requires
            start <= end,
        ensures
            start <= n <= end,
    {
        if start == i64::MIN && end == i64::MAX {
            // Every value can be drawn: all 64 bits of one draw are read
            // as the number.
            let bits = std_rng_next(&mut self.rng);
            i64_from_bits(bits)
        } else {
            // A half-open range ends one step behind the last value that
            // can be drawn, and no step lies behind the largest value:
            // where the range ends with it, the draw is made one step
            // lower and moved up again.
            let (low, high) = inclusive_request(start, end);
            let drawn = std_rng_range(&mut self.rng, low, high);
            place_draw(end, drawn)
        }
    }

    /// Generates a new random number.
    pub fn next(&mut self) -> (n: u64) {
        std_rng_next(&mut self.rng)
    }
}

/// `RandomPlugin` makes the `RandomNumberGenerator` that an application
/// holds as a resource.
pub struct RandomPlugin;

impl RandomPlugin {
    /// Makes the generator, seeded by the operating system; `None` where
    /// the system gives no seed.
    pub fn build(&self) -> (generator: Option<RandomNumberGenerator>) {
        RandomNumberGenerator::new()
    }
}

impl RandomNumberGenerator {
    /// The generator of `rand` that the numbers are drawn from.
    pub closed spec fn spec_rng(self) -> rand::rngs::StdRng {
        self.rng
    }

    /// Makes the `RandomNumberGenerator` that draws its numbers from `rng`.
    pub fn from_rng(rng: rand::rngs::StdRng) -> (generator: Self)
        ensures
            generator.spec_rng() == rng,
    {
        Self { rng }
    }
}

/// The number whose two's complement representation in 64 bits is `bits`.
pub open spec fn spec_i64_from_bits(bits: u64) -> int {
    if bits <= i64::MAX {
        bits as int
    } else {
        bits - 0x1_0000_0000_0000_0000
    }
}

/// Reads 64 drawn bits as a number in two's complement.
pub fn i64_from_bits(bits: u64) -> (n: i64)
    ensures
        n == spec_i64_from_bits(bits),
{
    if bits <= 0x7fff_ffff_ffff_ffff {
        bits as i64
    } else {
        (bits - 0x8000_0000_0000_0000) as i64 - 0x7fff_ffff_ffff_ffff - 1
    }
}

/// The half-open range to draw from for the range from `start` to `end`,
/// both included: it ends one step behind `end`, or, where `end` is the
/// largest value, it lies one step lower as a whole.
pub open spec fn spec_inclusive_request(start: i64, end: i64) -> (int, int) {
    if end < i64::MAX {
        (start as int, end + 1)
    } else {
        (start - 1, end as int)
    }
}

/// Where a draw from the half-open range of `spec_inclusive_request` comes
/// to lie in the range that ends with `end`.
pub open spec fn spec_place_draw(end: i64, drawn: i64) -> int {
    if end < i64::MAX {
        drawn as int
    } else {
        drawn + 1
    }
}

/// Computes the half-open range to draw from for the range from `start`
/// to `end`, both included. The range of all values has none.
pub fn inclusive_request(start: i64, end: i64) -> (request: (i64, i64))
    requires
        start <= end,
        start > i64::MIN || end < i64::MAX,
    ensures
        request.0 == spec_inclusive_request(start, end).0,
        request.1 == spec_inclusive_request(start, end).1,
        request.0 < request.1,
{
    if end < i64::MAX {
        (start, end + 1)
    } else {
        (start - 1, end)
    }
}

/// Moves a draw from the half-open range of `inclusive_request` to its
/// place in the range that ends with `end`.
pub fn place_draw(end: i64, drawn: i64) -> (n: i64)
    requires
        end == i64::MAX ==> drawn < i64::MAX,
    ensures
        n == spec_place_draw(end, drawn),
{
    if end < i64::MAX {
        drawn
    } else {
        drawn + 1
    }
}

/// Every draw from the requested half-open range is placed within the
/// inclusive range, and every number of the inclusive range is the place
/// of exactly one draw: the draw `spec_place_draw` takes to it.
pub proof fn lemma_place_draw_one_to_one(start: i64, end: i64, drawn: i64, other: i64)
    requires
        start <= end,
        start > i64::MIN || end < i64::MAX,
    ensures
        spec_inclusive_request(start, end).0 <= drawn < spec_inclusive_request(start, end).1
            <==> start <= spec_place_draw(end, drawn) <= end,
        spec_place_draw(end, drawn) == spec_place_draw(end, other) ==> drawn == other,
        spec_inclusive_request(start, end).1 - spec_inclusive_request(start, end).0 == end
            - start + 1,
{
}

/// Different bits are read as different numbers, and every number is read
/// from some bits.
pub proof fn lemma_i64_from_bits_one_to_one(bits: u64, other: u64, n: i64)
    ensures
        i64::MIN <= spec_i64_from_bits(bits) <= i64::MAX,
        spec_i64_from_bits(bits) == spec_i64_from_bits(other) ==> bits == other,
        exists|b: u64| #[trigger] spec_i64_from_bits(b) == n,
{
    if n >= 0 {
        assert(spec_i64_from_bits(n as u64) == n);
    } else {
        assert(spec_i64_from_bits((n + 0x1_0000_0000_0000_0000) as u64) == n);
    }
}

} // verus!
