//! Fishing: the protocol enums, the struggle tuning and the weighted catch
//! table. The server owns every timer and roll; the draws themselves are
//! made by the caller and handed in, so every formula here is exact.
use vstd::prelude::*;
use crate::weights::{weight_sum, weighted_pick, shift_pick, lemma_pick_step, lemma_pick_in_range};

verus! {

/// A response to the fish.
#[derive(Debug, Clone, Copy, PartialEq, Eq, Structural)]
pub enum FishingAction {
    /// Set the hook when the bobber dips.
    Hook,
    /// Pull in line — correct while the fish is `Tiring`.
    Reel,
    /// Yield line — correct while the fish is `Pulling`.
    GiveLine,
}

/// What the hooked fish is doing this struggle round.
#[derive(Debug, Clone, Copy, PartialEq, Eq, Structural)]
pub enum FishState {
    /// The fish runs — give line or the tension spikes.
    Pulling,
    /// The fish tires — reel or lose your progress window.
    Tiring,
}

impl FishState {
    pub open spec fn spec_correct_action(self) -> FishingAction {
        match self {
            FishState::Pulling => FishingAction::GiveLine,
            FishState::Tiring => FishingAction::Reel,
        }
    }

    /// The action that answers this state.
    pub fn correct_action(&self) -> (r: FishingAction)
        ensures
            r == self.spec_correct_action(),
    {
        match self {
            FishState::Pulling => FishingAction::GiveLine,
            FishState::Tiring => FishingAction::Reel,
        }
    }
}

/// How a fishing session ended.
#[derive(Debug, Clone, PartialEq)]
pub enum FishingOutcome {
    /// The fish is in the bag (or on the ground, if the bag was full).
    Caught {
        item_def_id: String,
        /// Rolled length in centimeters.
        size_cm: u16,
        /// Exceptional roll.
        trophy: bool,
    },
    /// Hooked too early, too late, or not at all.
    Escaped,
    /// The angler moved, fought, disconnected, or reeled in deliberately.
    Aborted,
}

/// Casting animation time before the bobber starts waiting.
pub const CAST_MS: u32 = 1_000;

/// Bite wait is uniform in this range, shortened ~2% per fishing level.
pub const WAIT_MIN_MS: u32 = 4_000;
pub const WAIT_MAX_MS: u32 = 12_000;

/// How long the bite window stays open.
pub const BITE_WINDOW_MS: u32 = 2_500;

/// Slack added server-side to every response deadline.
pub const LATENCY_GRACE_MS: u32 = 500;

/// Skill XP for a catch: `CATCH_XP_PER_RARITY_SQ · rarity²`.
pub const CATCH_XP_PER_RARITY_SQ: u64 = 10;

/// Consolation skill XP when a hooked fish escapes.
pub const ESCAPE_XP: u64 = 2;

/// Struggle rounds: rarity 1 → 3 rounds … rarity 5 → 7.
pub const STRUGGLE_BASE_ROUNDS: u32 = 2;

/// Response window per round: `BASE − 150·(rarity−1) + 60·skill`, clamped to
/// `[MIN, BASE]`.
pub const STRUGGLE_BASE_WINDOW_MS: u32 = 3_000;
pub const STRUGGLE_MIN_WINDOW_MS: u32 = 1_800;

/// Tension meter: starts at 0; the fish escapes at or above `TENSION_MAX`.
pub const TENSION_MAX: u32 = 100;
/// A correct response relaxes the line.
pub const TENSION_CORRECT_RELIEF: u32 = 10;
/// A wrong or missed response: `BASE + PER_RARITY · rarity`.
pub const TENSION_MISS_BASE: u32 = 30;
pub const TENSION_MISS_PER_RARITY: u32 = 5;

pub open spec fn max_u(a: int, b: int) -> int {
    if a >= b { a } else { b }
}

pub open spec fn spec_struggle_rounds(rarity: u32) -> int {
    STRUGGLE_BASE_ROUNDS + max_u(rarity as int, 1)
}

/// Rounds a fish of this rarity fights for.
pub fn struggle_rounds(rarity: u32) -> (r: u32)
    requires
        spec_struggle_rounds(rarity) <= u32::MAX,
    ensures
        r == spec_struggle_rounds(rarity),
{
    STRUGGLE_BASE_ROUNDS + if rarity > 1 { rarity } else { 1 }
}

pub open spec fn spec_struggle_window_ms(rarity: u32, skill_level: u32) -> int {
    let tightened = max_u(STRUGGLE_BASE_WINDOW_MS - 150 * max_u(rarity - 1, 0), 0);
    let raw = tightened + 60 * skill_level;
    if raw < STRUGGLE_MIN_WINDOW_MS {
        STRUGGLE_MIN_WINDOW_MS as int
    } else if raw > STRUGGLE_BASE_WINDOW_MS {
        STRUGGLE_BASE_WINDOW_MS as int
    } else {
        raw
    }
}

/// Response window for one struggle round.
pub fn struggle_window_ms(rarity: u32, skill_level: u32) -> (r: u32)
    requires
        150 * max_u(rarity - 1, 0) <= u32::MAX,
        max_u(STRUGGLE_BASE_WINDOW_MS - 150 * max_u(rarity - 1, 0), 0) + 60 * skill_level <= u32::MAX,
    ensures
        r == spec_struggle_window_ms(rarity, skill_level),
        STRUGGLE_MIN_WINDOW_MS <= r <= STRUGGLE_BASE_WINDOW_MS,
{
    let dec = if rarity > 1 { rarity - 1 } else { 0 };
    let step = 150 * dec;
    let tightened = if STRUGGLE_BASE_WINDOW_MS > step { STRUGGLE_BASE_WINDOW_MS - step } else { 0 };
    let raw = tightened + 60 * skill_level;
    if raw < STRUGGLE_MIN_WINDOW_MS {
        STRUGGLE_MIN_WINDOW_MS
    } else if raw > STRUGGLE_BASE_WINDOW_MS {
        STRUGGLE_BASE_WINDOW_MS
    } else {
        raw
    }
}

pub open spec fn spec_tension_miss_penalty(rarity: u32) -> int {
    TENSION_MISS_BASE + TENSION_MISS_PER_RARITY * max_u(rarity as int, 1)
}

/// Tension added by a wrong or missed response. Rarity 0 (junk flotsam)
/// fights like a common fish.
pub fn tension_miss_penalty(rarity: u32) -> (r: u32)
    requires
        spec_tension_miss_penalty(rarity) <= u32::MAX,
    ensures
        r == spec_tension_miss_penalty(rarity),
{
    TENSION_MISS_BASE + TENSION_MISS_PER_RARITY * if rarity > 1 { rarity } else { 1 }
}

/// All-wrong play always snaps the line: missing every round of a fight
/// adds at least `TENSION_MAX` tension, whatever the rarity.
pub proof fn lemma_all_wrong_play_escapes(rarity: u32)
    ensures
        spec_struggle_rounds(rarity) * spec_tension_miss_penalty(rarity) >= TENSION_MAX,
{
    let m = max_u(rarity as int, 1);
    assert(m >= 1);
    assert((STRUGGLE_BASE_ROUNDS + m) * (TENSION_MISS_BASE + TENSION_MISS_PER_RARITY * m) >= 3 * 35) by (nonlinear_arith)
        requires
            m >= 1,
    ;
}

/// Skill widens the struggle window and never narrows it.
pub proof fn lemma_window_grows_with_skill(rarity: u32, s1: u32, s2: u32)
    requires
        s1 <= s2,
    ensures
        spec_struggle_window_ms(rarity, s1) <= spec_struggle_window_ms(rarity, s2),
{
}

/// One entry of the catch table.
pub struct CatchCandidate {
    pub item_def_id: String,
    pub rarity: u32,
    pub catch_weight: u32,
}

pub open spec fn spec_effective_weight(c: CatchCandidate, skill_level: u32) -> int {
    c.catch_weight + skill_level * c.rarity
}

/// Effective weight of one species for a given fishing level: rarer fish
/// gain `rarity` weight per level.
pub fn effective_weight(candidate: &CatchCandidate, skill_level: u32) -> (w: u64)
    ensures
        w == spec_effective_weight(*candidate, skill_level),
{
    proof {
        assert((skill_level as int) * (candidate.rarity as int) <= (u32::MAX as int) * (u32::MAX as int)) by (nonlinear_arith);
    }
    (candidate.catch_weight as u64) + (skill_level as u64) * (candidate.rarity as u64)
}

/// The effective weights of a table, in table order.
pub open spec fn catch_weights(cs: Seq<CatchCandidate>, skill_level: u32) -> Seq<int> {
    cs.map_values(|c: CatchCandidate| spec_effective_weight(c, skill_level))
}

/// Weighted pick over the catch table: `roll` is a draw in
/// `[0, total_weight)`; a roll past the total picks nothing.
pub fn pick_catch(candidates: &[CatchCandidate], skill_level: u32, roll: u64) -> (r: Option<usize>)
    ensures
        r matches Some(i) ==> i < candidates@.len(),
        match r {
            Some(i) => weighted_pick(catch_weights(candidates@, skill_level), roll as int) == Some(i as int),
            None => weighted_pick(catch_weights(candidates@, skill_level), roll as int) is None,
        },
{
    let ghost ws = catch_weights(candidates@, skill_level);
    proof {
        assert(ws.skip(0) =~= ws);
    }
    let mut rem = roll;
    let mut index: usize = 0;
    while index < candidates.len()
        invariant
            ws == catch_weights(candidates@, skill_level),
            0 <= index <= candidates@.len(),
            weighted_pick(ws, roll as int) == shift_pick(weighted_pick(ws.skip(index as int), rem as int), index as int),
        decreases candidates@.len() - index,
    {
        proof {
            lemma_pick_step(ws, index as int, rem as int);
        }
        let weight = effective_weight(&candidates[index], skill_level);
        assert(ws[index as int] == weight as int);
        if rem < weight {
            return Some(index);
        }
        rem = rem - weight;
        index = index + 1;
    }
    proof {
        assert(ws.skip(index as int).len() == 0);
    }
    None
}

/// A roll below the total weight always lands on an entry.
pub proof fn lemma_pick_catch_total(candidates: Seq<CatchCandidate>, skill_level: u32, roll: u64)
    requires
        (roll as int) < weight_sum(catch_weights(candidates, skill_level)),
    ensures
        weighted_pick(catch_weights(candidates, skill_level), roll as int) is Some,
{
    lemma_pick_in_range(catch_weights(candidates, skill_level), roll as int);
}

/// What bit the line.
pub struct RolledFish {
    pub item_def_id: String,
    pub rarity: u32,
    pub size_cm: u16,
    pub trophy: bool,
}

/// Rarity of the rolled fish; 1 (common) when nothing was rolled.
pub fn rarity_of(rolled: &Option<RolledFish>) -> (r: u32)
    ensures
        r == match rolled {
            Some(f) => f.rarity,
            None => 1,
        },
{
    match rolled {
        Some(f) => f.rarity,
        None => 1,
    }
}

pub open spec fn spec_roll_wait_ms(base: u64, skill_level: u32) -> int {
    let pct = max_u(100 - 2 * skill_level, 0);
    let shortened = base * pct / 100;
    max_u(shortened, (WAIT_MIN_MS / 2) as int)
}

/// Bite wait for a given skill level from the uniform draw `base` (in
/// `[WAIT_MIN_MS, WAIT_MAX_MS]`): shortened 2% per level, floored at half
/// the range minimum.
pub fn roll_wait_ms(skill_level: u32, base: u64) -> (r: u64)
    requires
        base <= WAIT_MAX_MS,
        2 * skill_level <= u32::MAX,
    ensures
        r == spec_roll_wait_ms(base, skill_level),
{
    let pct: u64 = if 2 * skill_level < 100 { (100 - 2 * skill_level) as u64 } else { 0 };
    proof {
        assert(base * pct <= 12000 * 100) by (nonlinear_arith)
            requires base <= 12000, pct <= 100;
    }
    let shortened = base * pct / 100;
    let floor = (WAIT_MIN_MS as u64) / 2;
    if shortened > floor { shortened } else { floor }
}

/// A fish fights three rounds at rarity 0 or 1 and one more round for
/// each rarity level above that.
pub proof fn lemma_rounds_per_rarity(rarity: u32)
    ensures
        spec_struggle_rounds(0) == 3,
        spec_struggle_rounds(1) == 3,
        rarity >= 1 && rarity < u32::MAX ==> spec_struggle_rounds((rarity + 1) as u32) == spec_struggle_rounds(rarity)
            + 1,
{
}

/// A missed round costs 35 tension at rarity 0 or 1 and 5 more for each
/// rarity level above that.
pub proof fn lemma_miss_penalty_per_rarity(rarity: u32)
    ensures
        spec_tension_miss_penalty(0) == 35,
        spec_tension_miss_penalty(1) == 35,
        rarity >= 1 && rarity < u32::MAX ==> spec_tension_miss_penalty((rarity + 1) as u32)
            == spec_tension_miss_penalty(rarity) + 5,
{
}

/// The struggle window stays between 1.8 s and 3 s: a common fish gives
/// an untrained angler the full 3 s, a rarer fish never gives more, and
/// each skill level adds at most 60 ms.
pub proof fn lemma_window_bounds(rarity: u32, skill_level: u32)
    ensures
        STRUGGLE_MIN_WINDOW_MS <= spec_struggle_window_ms(rarity, skill_level) <= STRUGGLE_BASE_WINDOW_MS,
        spec_struggle_window_ms(1, 0) == 3_000,
        spec_struggle_window_ms(0, 0) == 3_000,
        rarity < u32::MAX ==> spec_struggle_window_ms((rarity + 1) as u32, skill_level) <= spec_struggle_window_ms(
            rarity,
            skill_level,
        ),
        skill_level < u32::MAX ==> spec_struggle_window_ms(rarity, (skill_level + 1) as u32)
            <= spec_struggle_window_ms(rarity, skill_level) + 60,
{
}

/// Skill shifts the catch toward rarer fish: each level adds the fish's
/// rarity to its listed weight.
pub proof fn lemma_catch_weight_per_level(c: CatchCandidate, skill_level: u32)
    ensures
        spec_effective_weight(c, 0) == c.catch_weight,
        skill_level < u32::MAX ==> spec_effective_weight(c, (skill_level + 1) as u32) == spec_effective_weight(
            c,
            skill_level,
        ) + c.rarity,
{
    assert((skill_level + 1) * c.rarity == skill_level * c.rarity + c.rarity) by (nonlinear_arith);
}

/// The wait for a bite never drops below half the minimum wait, an
/// untrained angler waits the whole drawn time, and skill never lengthens
/// the wait.
pub proof fn lemma_wait_shortens_with_skill(base: u64, a: u32, b: u32)
    ensures
        spec_roll_wait_ms(base, a) >= WAIT_MIN_MS / 2,
        base >= WAIT_MIN_MS / 2 ==> spec_roll_wait_ms(base, 0) == base,
        a <= b ==> spec_roll_wait_ms(base, b) <= spec_roll_wait_ms(base, a),
{
    let pa = max_u(100 - 2 * a, 0);
    let pb = max_u(100 - 2 * b, 0);
    if a <= b {
        assert(pb <= pa);
        assert(base * pb <= base * pa) by (nonlinear_arith)
            requires pb <= pa, base >= 0;
        assert(base * pb / 100 <= base * pa / 100) by (nonlinear_arith)
            requires base * pb <= base * pa;
    }
    assert(base * 100 / 100 == base) by (nonlinear_arith);
}

} // verus!
