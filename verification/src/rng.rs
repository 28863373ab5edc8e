//! The seeded random stream that drives dungeon generation.
//!
//! Layouts must be bit-identical wherever they are regenerated, so the only
//! generator is ChaCha8 seeded from a `u64`. The generator lives in the
//! `rand_chacha` crate; the draws below are `rand::Rng::gen_range` at the
//! exact integer types the generator has always used (the type decides how
//! many stream words a draw consumes, so it is part of the format).
//!
//! A stream is held as plain values: its seed and the word position it has
//! reached. ChaCha is seekable, so each draw rebuilds the generator at that
//! position, draws, and reads back the position the draw advanced to; the
//! values drawn are those of one generator drawing in the same order.
use rand::Rng;
use rand::SeedableRng;
use rand_chacha::ChaCha8Rng;
use vstd::prelude::*;

verus! {

/// The ChaCha8 stream of `seed`, advanced to 32-bit word `pos`.
#[derive(Debug, Clone, Copy, PartialEq, Eq, Structural)]
pub struct Stream {
    pub seed: u64,
    pub pos: u128,
}

/// The start of the stream of `seed`.
pub fn stream_from_seed(seed: u64) -> (s: Stream)
    ensures
        s == (Stream { seed, pos: 0 }),
{
    Stream { seed, pos: 0 }
}

/// What `gen_range(lo..=hi)` on `u8` draws from the ChaCha8 stream of
/// `seed` at word `pos`, and the word position after the draw.
pub uninterp spec fn chacha8_u8_inclusive(seed: u64, pos: u128, lo: u8, hi: u8) -> (u8, u128);

/// What `gen_range(lo..=hi)` on `i32` draws at word `pos` of the stream of
/// `seed`, and the word position after the draw.
pub uninterp spec fn chacha8_i32_inclusive(seed: u64, pos: u128, lo: i32, hi: i32) -> (i32, u128);

/// What `gen_range(lo..hi)` on `i32` draws at word `pos` of the stream of
/// `seed`, and the word position after the draw.
pub uninterp spec fn chacha8_i32_below(seed: u64, pos: u128, lo: i32, hi: i32) -> (i32, u128);

/// What `gen_range(0..n)` on `usize` draws at word `pos` of the stream of
/// `seed` on a machine whose `usize` has `bits` bits (the width decides
/// whether a draw reads one stream word or two), and the position after.
pub uninterp spec fn chacha8_usize_below(seed: u64, pos: u128, n: usize, bits: u32) -> (usize, u128);

/// What `gen_range(0..n)` on `u32` draws at word `pos` of the stream of
/// `seed`, and the word position after the draw.
pub uninterp spec fn chacha8_u32_below(seed: u64, pos: u128, n: u32) -> (u32, u128);

/// `Rng::gen_range(lo..=hi)` on `u8`, drawn from `ChaCha8Rng::seed_from_u64`
/// positioned with `set_word_pos`; the new position is read back with
/// `get_word_pos`. Claimed: the value lies in `[lo, hi]` (the range must be
/// non-empty: the call panics otherwise) and value and position are a
/// function of seed, position and range. Which value that is, is not stated.
#[verifier::external_body]
pub(crate) fn draw_u8_inclusive(s: &mut Stream, lo: u8, hi: u8) -> (r: u8)
    requires
        lo <= hi,
    ensures
        lo <= r <= hi,
        final(s).seed == old(s).seed,
        (r, final(s).pos) == chacha8_u8_inclusive(old(s).seed, old(s).pos, lo, hi),
{
    let mut rng = ChaCha8Rng::seed_from_u64(s.seed);
    rng.set_word_pos(s.pos);
    let r = rng.gen_range(lo..=hi);
    s.pos = rng.get_word_pos();
    r
}

/// `Rng::gen_range(lo..=hi)` on `i32` from the ChaCha8 stream at `s`, as
/// above: a value in `[lo, hi]` (non-empty range), a function of seed,
/// position and range.
#[verifier::external_body]
pub(crate) fn draw_i32_inclusive(s: &mut Stream, lo: i32, hi: i32) -> (r: i32)
    requires
        lo <= hi,
    ensures
        lo <= r <= hi,
        final(s).seed == old(s).seed,
        (r, final(s).pos) == chacha8_i32_inclusive(old(s).seed, old(s).pos, lo, hi),
{
    let mut rng = ChaCha8Rng::seed_from_u64(s.seed);
    rng.set_word_pos(s.pos);
    let r = rng.gen_range(lo..=hi);
    s.pos = rng.get_word_pos();
    r
}

/// `Rng::gen_range(lo..hi)` on `i32` from the ChaCha8 stream at `s`: a
/// value in `[lo, hi)` (non-empty range), a function of seed, position and
/// range.
#[verifier::external_body]
pub(crate) fn draw_i32_below(s: &mut Stream, lo: i32, hi: i32) -> (r: i32)
    requires
        lo < hi,
    ensures
        lo <= r < hi,
        final(s).seed == old(s).seed,
        (r, final(s).pos) == chacha8_i32_below(old(s).seed, old(s).pos, lo, hi),
{
    let mut rng = ChaCha8Rng::seed_from_u64(s.seed);
    rng.set_word_pos(s.pos);
    let r = rng.gen_range(lo..hi);
    s.pos = rng.get_word_pos();
    r
}

/// `Rng::gen_range(0..n)` on `usize` from the ChaCha8 stream at `s`: an
/// index below `n` (`n > 0`), a function of seed, position, `n` and the
/// width of `usize`.
#[verifier::external_body]
pub(crate) fn draw_usize_below(s: &mut Stream, n: usize) -> (r: usize)
    requires
        n > 0,
    ensures
        r < n,
        final(s).seed == old(s).seed,
        (r, final(s).pos) == chacha8_usize_below(old(s).seed, old(s).pos, n, usize::BITS),
{
    let mut rng = ChaCha8Rng::seed_from_u64(s.seed);
    rng.set_word_pos(s.pos);
    let r = rng.gen_range(0..n);
    s.pos = rng.get_word_pos();
    r
}

/// `Rng::gen_range(0..n)` on `u32` from the ChaCha8 stream at `s`: a value
/// below `n` (`n > 0`), a function of seed, position and `n`.
#[verifier::external_body]
pub(crate) fn draw_u32_below(s: &mut Stream, n: u32) -> (r: u32)
    requires
        n > 0,
    ensures
        r < n,
        final(s).seed == old(s).seed,
        (r, final(s).pos) == chacha8_u32_below(old(s).seed, old(s).pos, n),
{
    let mut rng = ChaCha8Rng::seed_from_u64(s.seed);
    rng.set_word_pos(s.pos);
    let r = rng.gen_range(0..n);
    s.pos = rng.get_word_pos();
    r
}

} // verus!
