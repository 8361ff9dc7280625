//! The random source used for generation and mutation, and the calls into it.
use vstd::prelude::*;
use rand::rngs::SmallRng;
use rand::RngExt;

verus! {

#[verifier::external_type_specification]
#[verifier::external_body]
pub struct ExSmallRng(SmallRng);

/// `rand::RngExt::random_range(0..n)` on `usize`: a value below `n`
/// (the call panics on an empty range, hence the `requires`).
#[verifier::external_body]
pub fn random_below(rng: &mut SmallRng, n: usize) -> (r: usize)
    requires
        n > 0,
    ensures
        r < n,
{
    rng.random_range(0..n)
}

/// `rand::RngExt::random_range(lo..hi)` on `usize`: a value in `[lo, hi)`.
#[verifier::external_body]
pub fn random_in(rng: &mut SmallRng, lo: usize, hi: usize) -> (r: usize)
    requires
        lo < hi,
    ensures
        lo <= r < hi,
{
    rng.random_range(lo..hi)
}

/// `rand::RngExt::random_range(0..n)` on `u16`: a value below `n`.
#[verifier::external_body]
pub fn random_below_u16(rng: &mut SmallRng, n: u16) -> (r: u16)
    requires
        n > 0,
    ensures
        r < n,
{
    rng.random_range(0..n)
}

/// `rand::RngExt::random_range(0..n)` on `u32`: a value below `n`.
#[verifier::external_body]
pub fn random_below_u32(rng: &mut SmallRng, n: u32) -> (r: u32)
    requires
        n > 0,
    ensures
        r < n,
{
    rng.random_range(0..n)
}

/// `rand::RngExt::random_range(lo..=hi)` on `u32`: a value in `[lo, hi]`.
#[verifier::external_body]
pub fn random_inclusive_u32(rng: &mut SmallRng, lo: u32, hi: u32) -> (r: u32)
    requires
        lo <= hi,
    ensures
        lo <= r <= hi,
{
    rng.random_range(lo..=hi)
}

/// `rand::RngExt::random_range(lo..=hi)` on `u8`: a value in `[lo, hi]`.
#[verifier::external_body]
pub fn random_inclusive_u8(rng: &mut SmallRng, lo: u8, hi: u8) -> (r: u8)
    requires
        lo <= hi,
    ensures
        lo <= r <= hi,
{
    rng.random_range(lo..=hi)
}

/// `rand::RngExt::random_range(0..8)` on `i32`: a bit position.
#[verifier::external_body]
pub fn random_shift(rng: &mut SmallRng) -> (r: i32)
    ensures
        0 <= r < 8,
{
    rng.random_range(0..8)
}

/// `rand::RngExt::random::<u8>()`: any byte.
#[verifier::external_body]
pub fn random_byte(rng: &mut SmallRng) -> (r: u8) {
    rng.random::<u8>()
}

/// `rand::RngExt::random_ratio(1, 2)`: a fair coin.
#[verifier::external_body]
pub fn random_coin(rng: &mut SmallRng) -> (r: bool) {
    rng.random_ratio(1, 2)
}

} // verus!
