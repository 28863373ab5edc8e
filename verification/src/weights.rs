//! Weighted picks over ordered tables: a roll uniform in `[0, total)` walks
//! the cumulative weights and lands on the first entry whose band holds it.
use vstd::prelude::*;

verus! {

/// Sum of the weights.
pub open spec fn weight_sum(ws: Seq<int>) -> int
    decreases ws.len(),
{
    if ws.len() == 0 {
        0
    } else {
        ws[0] + weight_sum(ws.drop_first())
    }
}

/// Index of the entry whose cumulative band `[w0 + … + w(i-1), … + wi)`
/// holds `roll`; `None` when the roll is past the total.
pub open spec fn weighted_pick(ws: Seq<int>, roll: int) -> Option<int>
    decreases ws.len(),
{
    if ws.len() == 0 {
        None
    } else if roll < ws[0] {
        Some(0)
    } else {
        match weighted_pick(ws.drop_first(), roll - ws[0]) {
            Some(i) => Some(i + 1),
            None => None,
        }
    }
}

pub open spec fn all_nonneg(ws: Seq<int>) -> bool {
    forall|i: int| 0 <= i < ws.len() ==> 0 <= #[trigger] ws[i]
}

/// A roll below the total (of non-negative weights) always picks an entry.
pub proof fn lemma_pick_in_range(ws: Seq<int>, roll: int)
    requires
        all_nonneg(ws),
        0 <= roll,
    ensures
        weighted_pick(ws, roll) matches Some(i) ==> 0 <= i < ws.len(),
        (weighted_pick(ws, roll) is Some) <==> roll < weight_sum(ws),
        weight_sum(ws) >= 0,
    decreases ws.len(),
{
    if ws.len() > 0 {
        assert(all_nonneg(ws.drop_first())) by {
            assert forall|i: int| 0 <= i < ws.drop_first().len() implies 0 <= #[trigger] ws.drop_first()[i] by {
                assert(ws.drop_first()[i] == ws[i + 1]);
            }
        }
        assert(ws[0] >= 0);
        if roll >= ws[0] {
            lemma_pick_in_range(ws.drop_first(), roll - ws[0]);
        } else {
            lemma_pick_in_range(ws.drop_first(), 0);
        }
    }
}

/// Shift a pick among a suffix back to an index of the whole table.
pub open spec fn shift_pick(p: Option<int>, by: int) -> Option<int> {
    match p {
        Some(i) => Some(i + by),
        None => None,
    }
}

/// One step of the running-remainder walk: entry `k` either takes the roll
/// or passes the remainder on to the entries after it.
pub proof fn lemma_pick_step(ws: Seq<int>, k: int, r: int)
    requires
        0 <= k < ws.len(),
    ensures
        weighted_pick(ws.skip(k), r) == if r < ws[k] {
            Some(0int)
        } else {
            shift_pick(weighted_pick(ws.skip(k + 1), r - ws[k]), 1)
        },
{
    assert(ws.skip(k).drop_first() =~= ws.skip(k + 1));
}

pub proof fn lemma_weight_sum_push(ws: Seq<int>, x: int)
    ensures
        weight_sum(ws.push(x)) == weight_sum(ws) + x,
    decreases ws.len(),
{
    if ws.len() > 0 {
        assert(ws.push(x).drop_first() =~= ws.drop_first().push(x));
        lemma_weight_sum_push(ws.drop_first(), x);
    } else {
        assert(ws.push(x).drop_first() =~= ws);
        assert(weight_sum(ws) == 0);
    }
}

/// Prefix sums of non-negative weights never exceed the total.
pub proof fn lemma_weight_sum_prefix(ws: Seq<int>, k: int)
    requires
        all_nonneg(ws),
        0 <= k <= ws.len(),
    ensures
        0 <= weight_sum(ws.take(k)) <= weight_sum(ws),
    decreases ws.len() - k,
{
    if k < ws.len() {
        lemma_weight_sum_prefix(ws, k + 1);
        assert(ws.take(k + 1) =~= ws.take(k).push(ws[k]));
        lemma_weight_sum_push(ws.take(k), ws[k]);
        assert(weight_sum(ws.take(k)) >= 0) by {
            lemma_prefix_nonneg(ws, k);
        }
    } else {
        assert(ws.take(k) =~= ws);
        lemma_prefix_nonneg(ws, k);
    }
}

proof fn lemma_prefix_nonneg(ws: Seq<int>, k: int)
    requires
        all_nonneg(ws),
        0 <= k <= ws.len(),
    ensures
        weight_sum(ws.take(k)) >= 0,
    decreases k,
{
    if k > 0 {
        lemma_prefix_nonneg(ws, k - 1);
        assert(ws.take(k) =~= ws.take(k - 1).push(ws[k - 1]));
        lemma_weight_sum_push(ws.take(k - 1), ws[k - 1]);
    } else {
        assert(ws.take(k).len() == 0);
    }
}

} // verus!
