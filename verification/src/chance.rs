//! Uniform draws from the thread-local generator, for the server's
//! gameplay rolls (strikes, bites, catches, enchantments).
use rand::Rng;
use rand::seq::SliceRandom;
use vstd::prelude::*;

verus! {

/// `rand::thread_rng().gen_range(lo..=hi)` on `u32`: some value in
/// `[lo, hi]`; the range must be non-empty. Which value comes out is chance.
#[verifier::external_body]
pub(crate) fn roll_u32_inclusive(lo: u32, hi: u32) -> (r: u32)
    requires
        lo <= hi,
    ensures
        lo <= r <= hi,
{
    rand::thread_rng().gen_range(lo..=hi)
}

/// `rand::thread_rng().gen_range(lo..=hi)` on `u64`: some value in
/// `[lo, hi]`; the range must be non-empty. Which value comes out is chance.
#[verifier::external_body]
pub(crate) fn roll_u64_inclusive(lo: u64, hi: u64) -> (r: u64)
    requires
        lo <= hi,
    ensures
        lo <= r <= hi,
{
    rand::thread_rng().gen_range(lo..=hi)
}

/// `rand::thread_rng().gen_range(0..n)` on `u64`: some value below `n`
/// (`n > 0`). Which value comes out is chance.
#[verifier::external_body]
pub(crate) fn roll_u64_below(n: u64) -> (r: u64)
    requires
        n > 0,
    ensures
        r < n,
{
    rand::thread_rng().gen_range(0..n)
}

/// `rand::thread_rng().gen_range(lo..=hi)` on `i64`: some value in
/// `[lo, hi]`; the range must be non-empty. Which value comes out is chance.
#[verifier::external_body]
pub(crate) fn roll_i64_inclusive(lo: i64, hi: i64) -> (r: i64)
    requires
        lo <= hi,
    ensures
        lo <= r <= hi,
{
    rand::thread_rng().gen_range(lo..=hi)
}

/// `SliceRandom::shuffle` with the thread-local generator: the same items
/// in some order. Which order comes out is chance.
#[verifier::external_body]
pub(crate) fn shuffle_strings(items: &mut Vec<String>)
    ensures
        final(items)@.to_multiset() == old(items)@.to_multiset(),
{
    items.shuffle(&mut rand::thread_rng())
}

} // verus!
