//! Random number generators of the `rand` family as sources of positions.
use crate::Rng;
use vstd::prelude::*;

verus! {

/// `StdRng` of `rand::rngs`, the standard generator of `rand`. Nothing is
/// stated of what it holds.
#[verifier::external_type_specification]
#[verifier::external_body]
pub struct ExStdRng(rand::rngs::StdRng);

/// `ChaCha8Rng` of `rand_chacha`, the ChaCha generator with eight rounds.
/// Nothing is stated of what it holds.
#[verifier::external_type_specification]
#[verifier::external_body]
pub struct ExChaCha8Rng(rand_chacha::ChaCha8Rng);

/// Draws a position below `high` from a `StdRng` with `gen_range` of
/// `rand::Rng`, which is handed the range from 0 up to, not including,
/// `high`. Believed of it: it returns, and the value it returns lies in that
/// range. It panics on an empty range, which `high > 0` rules out; it draws
/// from the generator until a value falls where every position is equally
/// likely.
#[verifier::external_body]
fn draw_std(rng: &mut rand::rngs::StdRng, high: usize) -> (at: usize)
    requires
        high > 0,
    ensures
        at < high,
{
    rand::Rng::gen_range(rng, 0..high)
}

/// Draws a position below `high` from a `ChaCha8Rng` with `gen_range` of
/// `rand::Rng`, which is handed the range from 0 up to, not including,
/// `high`. Believed of it: it returns, and the value it returns lies in that
/// range. It panics on an empty range, which `high > 0` rules out; it draws
/// from the generator until a value falls where every position is equally
/// likely.
#[verifier::external_body]
fn draw_chacha8(rng: &mut rand_chacha::ChaCha8Rng, high: usize) -> (at: usize)
    requires
        high > 0,
    ensures
        at < high,
{
    rand::Rng::gen_range(rng, 0..high)
}

impl Rng for rand::rngs::StdRng {
    fn rand_usize(&mut self, high: usize) -> (r: usize) {
        draw_std(self, high)
    }
}

impl Rng for rand_chacha::ChaCha8Rng {
    fn rand_usize(&mut self, high: usize) -> (r: usize) {
        draw_chacha8(self, high)
    }
}

} // verus!
