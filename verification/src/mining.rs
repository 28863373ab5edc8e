//! Mining: ore vein identity, session outcomes and tuning, and the server's
//! strike rules — the d20 strike roll, the skill- and altitude-weighted ore
//! table, and the per-session haul and vein depletion bookkeeping.
use vstd::prelude::*;
use crate::weights::{weighted_pick, weight_sum, shift_pick, lemma_pick_step, lemma_pick_in_range};
use crate::chance::{roll_u32_inclusive, roll_u64_below};

verus! {

/// Stable identity of one ore vein: the tile it was derived on plus its
/// index in that tile's deterministic placement list.
#[derive(Debug, Clone, Copy, PartialEq, Eq, Hash, Structural)]
pub struct OreNodeKey {
    pub tile_x: i32,
    pub tile_z: i32,
    pub index: u16,
}

/// How a mining session ended; every variant reports the session's haul.
#[derive(Debug, Clone, PartialEq, Eq, Structural)]
pub enum MiningOutcome {
    /// The vein gave everything it had and crumbled; it will respawn.
    Exhausted { ores_gained: u32 },
    /// The miner stopped deliberately.
    Stopped { ores_gained: u32 },
    /// Movement, combat, death, disconnect, or losing the pickaxe.
    Aborted { ores_gained: u32 },
}

/// Base time between pickaxe strikes.
pub const STRIKE_INTERVAL_MS: u32 = 2_800;

/// Strike interval floor as a percentage of the base.
pub const STRIKE_INTERVAL_FLOOR_PCT: u32 = 60;

/// A strike breaks ore on `d20 + mining_level / 2 >= STRIKE_DC`.
pub const STRIKE_DC: i32 = 8;

/// Skill XP per broken ore: `ORE_XP_PER_RARITY_SQ * rarity^2`.
pub const ORE_XP_PER_RARITY_SQ: u64 = 3;

/// How long an exhausted vein stays barren before it respawns.
pub const NODE_RESPAWN_SECONDS: u64 = 300;

/// Veins only exist on overworld terrain.
pub const OVERWORLD_FLOOR: i8 = 0;

pub open spec fn spec_strike_pct(skill_level: u32) -> int {
    let p = 100 - 2 * skill_level;
    if p < STRIKE_INTERVAL_FLOOR_PCT { STRIKE_INTERVAL_FLOOR_PCT as int } else { p }
}

pub open spec fn spec_strike_interval_ms(skill_level: u32) -> int {
    STRIKE_INTERVAL_MS * spec_strike_pct(skill_level) / 100
}

/// Effective strike interval for a mining level: 2% faster per level,
/// floored at `STRIKE_INTERVAL_FLOOR_PCT` of the base.
pub fn strike_interval_ms(skill_level: u32) -> (r: u64)
    requires
        2 * skill_level <= u32::MAX,
    ensures
        r == spec_strike_interval_ms(skill_level),
{
    let two = skill_level * 2;
    let sub: u32 = if two < 100 { 100 - two } else { 0 };
    let pct: u32 = if sub > STRIKE_INTERVAL_FLOOR_PCT { sub } else { STRIKE_INTERVAL_FLOOR_PCT };
    assert(pct <= 100);
    proof {
        assert((pct as int) * 2800 <= 100 * 2800) by (nonlinear_arith)
            requires pct <= 100;
    }
    (STRIKE_INTERVAL_MS as u64) * (pct as u64) / 100
}

/// Training never slows the pickaxe, the interval stays between the floor
/// and the base, and the floor binds from level 20 on.
pub proof fn lemma_strike_interval_shape(a: u32, b: u32)
    ensures
        a <= b ==> spec_strike_interval_ms(b) <= spec_strike_interval_ms(a),
        1_680 <= spec_strike_interval_ms(a) <= STRIKE_INTERVAL_MS,
        a >= 20 ==> spec_strike_interval_ms(a) == 1_680,
{
    let pa = spec_strike_pct(a);
    let pb = spec_strike_pct(b);
    assert(60 <= pa <= 100);
    if a <= b {
        assert(pb <= pa);
        assert(2800 * pb <= 2800 * pa) by (nonlinear_arith)
            requires pb <= pa;
        assert((2800 * pb) / 100 <= (2800 * pa) / 100) by (nonlinear_arith)
            requires 2800 * pb <= 2800 * pa;
    }
}

/// One entry of the ore table.
pub struct OreCandidate {
    pub item_def_id: String,
    pub rarity: u32,
    pub ore_weight: u32,
}

pub open spec fn spec_ore_weight(c: OreCandidate, skill_level: u32, altitude_bonus: u32) -> int {
    c.ore_weight + (skill_level + altitude_bonus) * c.rarity
}

/// Effective weight of one ore for a mining level and vein altitude: rarer
/// ore gains `rarity` weight per skill level and per altitude step.
pub fn effective_ore_weight(candidate: &OreCandidate, skill_level: u32, altitude_bonus: u32) -> (w: u64)
    requires
        skill_level + altitude_bonus <= u32::MAX,
    ensures
        w == spec_ore_weight(*candidate, skill_level, altitude_bonus),
{
    let steps = skill_level + altitude_bonus;
    proof {
        assert((steps as int) * (candidate.rarity as int) <= (u32::MAX as int) * (u32::MAX as int))
            by (nonlinear_arith);
    }
    (candidate.ore_weight as u64) + (steps as u64) * (candidate.rarity as u64)
}

/// The effective weights of an ore table, in table order.
pub open spec fn ore_weights(cs: Seq<OreCandidate>, skill_level: u32, altitude_bonus: u32) -> Seq<int> {
    cs.map_values(|c: OreCandidate| spec_ore_weight(c, skill_level, altitude_bonus))
}

/// Weighted pick over the ore table: `roll` is a draw in `[0, total)`; a
/// roll past the total picks nothing.
pub fn pick_ore(candidates: &[OreCandidate], skill_level: u32, altitude_bonus: u32, roll: u64) -> (r:
    Option<usize>)
    requires
        skill_level + altitude_bonus <= u32::MAX,
    ensures
        r matches Some(i) ==> i < candidates@.len(),
        match r {
            Some(i) => weighted_pick(ore_weights(candidates@, skill_level, altitude_bonus), roll as int)
                == Some(i as int),
            None => weighted_pick(ore_weights(candidates@, skill_level, altitude_bonus), roll as int) is None,
        },
{
    let ghost ws = ore_weights(candidates@, skill_level, altitude_bonus);
    proof {
        assert(ws.skip(0) =~= ws);
    }
    let mut rem = roll;
    let mut index: usize = 0;
    while index < candidates.len()
        invariant
            ws == ore_weights(candidates@, skill_level, altitude_bonus),
            skill_level + altitude_bonus <= u32::MAX,
            0 <= index <= candidates@.len(),
            weighted_pick(ws, roll as int) == shift_pick(weighted_pick(ws.skip(index as int), rem as int), index as int),
        decreases candidates@.len() - index,
    {
        proof {
            lemma_pick_step(ws, index as int, rem as int);
        }
        let weight = effective_ore_weight(&candidates[index], skill_level, altitude_bonus);
        assert(ws[index as int] == weight as int);
        if rem < weight {
            return Some(index);
        }
        rem = rem - weight;
        index = index + 1;
    }
    proof {
        assert(ws.skip(index as int).len() == 0);
    }
    None
}

/// Total effective weight of an ore table.
pub fn ore_total(candidates: &[OreCandidate], skill_level: u32, altitude_bonus: u32) -> (t: u64)
    requires
        skill_level + altitude_bonus <= u32::MAX,
        weight_sum(ore_weights(candidates@, skill_level, altitude_bonus)) <= u64::MAX,
    ensures
        t == weight_sum(ore_weights(candidates@, skill_level, altitude_bonus)),
{
    let ghost ws = ore_weights(candidates@, skill_level, altitude_bonus);
    let mut total: u64 = 0;
    let mut i: usize = 0;
    while i < candidates.len()
        invariant
            ws == ore_weights(candidates@, skill_level, altitude_bonus),
            skill_level + altitude_bonus <= u32::MAX,
            weight_sum(ws) <= u64::MAX,
            0 <= i <= candidates@.len(),
            total == weight_sum(ws.take(i as int)),
        decreases candidates@.len() - i,
    {
        proof {
            crate::weights::lemma_weight_sum_push(ws.take(i as int), ws[i as int]);
            assert(ws.take(i + 1) =~= ws.take(i as int).push(ws[i as int]));
            crate::weights::lemma_weight_sum_prefix(ws, i + 1);
        }
        let w = effective_ore_weight(&candidates[i], skill_level, altitude_bonus);
        total = total + w;
        i = i + 1;
    }
    proof {
        assert(ws.take(candidates@.len() as int) =~= ws);
    }
    total
}

pub open spec fn spec_strike_hits(skill_level: u32, roll: i32) -> bool {
    roll != 1 && roll + skill_level / 2 >= STRIKE_DC
}

/// Does a strike with d20 roll `roll` break ore? `roll + level / 2`
/// against the DC; a natural 1 always glances off.
pub fn strike_hits(skill_level: u32, roll: i32) -> (r: bool)
    requires
        1 <= roll <= 20,
    ensures
        r == spec_strike_hits(skill_level, roll),
        r <==> (roll != 1 && (roll >= STRIKE_DC || skill_level >= 2 * (STRIKE_DC - roll))),
{
    if roll == 1 {
        return false;
    }
    let half = skill_level / 2;
    if half >= 8 {
        true
    } else {
        roll + (half as i32) >= STRIKE_DC
    }
}

/// Two mining levels are worth one point on the d20: a roll short of the
/// DC by `k` breaks ore exactly when the level is at least `2 * k`, a roll
/// at or over the DC always does (but a natural 1 never), and one level
/// more than an even level adds nothing.
pub proof fn lemma_two_levels_per_point(skill_level: u32, roll: i32)
    requires
        1 <= roll <= 20,
    ensures
        roll != 1 && roll < STRIKE_DC ==> (spec_strike_hits(skill_level, roll) <==> skill_level >= 2 * (
        STRIKE_DC - roll)),
        roll >= STRIKE_DC ==> spec_strike_hits(skill_level, roll),
        skill_level % 2 == 0 && skill_level < u32::MAX ==> spec_strike_hits((skill_level + 1) as u32, roll)
            == spec_strike_hits(skill_level, roll),
{
}

/// A natural 1 always misses, and training only ever turns misses into
/// hits.
pub proof fn lemma_strike_odds(roll: i32, a: u32, b: u32)
    ensures
        !spec_strike_hits(a, 1),
        a <= b && spec_strike_hits(a, roll) ==> spec_strike_hits(b, roll),
{
}

/// What a strike breaks free: nothing when the strike misses or the table
/// has no weight, else the ore the weighted pick lands on with `ore_roll`.
pub open spec fn spec_strike_ore(
    table: Seq<OreCandidate>,
    skill_level: u32,
    altitude_bonus: u32,
    d20: i32,
    ore_roll: u64,
) -> Option<int> {
    if !spec_strike_hits(skill_level, d20) || weight_sum(ore_weights(table, skill_level, altitude_bonus))
        == 0 {
        None
    } else {
        weighted_pick(ore_weights(table, skill_level, altitude_bonus), ore_roll as int)
    }
}

/// Resolve one strike from its two draws: the d20 `d20` and the ore roll
/// `ore_roll` in `[0, total)`.
pub fn strike_ore(
    table: &[OreCandidate],
    skill_level: u32,
    altitude_bonus: u32,
    d20: i32,
    ore_roll: u64,
) -> (r: Option<usize>)
    requires
        1 <= d20 <= 20,
        skill_level + altitude_bonus <= u32::MAX,
        weight_sum(ore_weights(table@, skill_level, altitude_bonus)) <= u64::MAX,
    ensures
        match r {
            Some(i) => spec_strike_ore(table@, skill_level, altitude_bonus, d20, ore_roll) == Some(
                i as int,
            ) && i < table@.len(),
            None => spec_strike_ore(table@, skill_level, altitude_bonus, d20, ore_roll) is None,
        },
{
    if !strike_hits(skill_level, d20) || table.len() == 0 {
        proof {
            if table@.len() == 0 {
                assert(ore_weights(table@, skill_level, altitude_bonus) =~= Seq::<int>::empty());
            }
        }
        return None;
    }
    let total = ore_total(table, skill_level, altitude_bonus);
    if total == 0 {
        return None;
    }
    pick_ore(table, skill_level, altitude_bonus, ore_roll)
}

/// Draw and resolve one strike: a d20, and, when it hits, an ore roll
/// below the table's total weight. Whatever the draws, the result is what
/// `spec_strike_ore` gives for some d20 in `[1, 20]` and some ore roll
/// below the total, so a hit always lands on an entry of the table.
pub fn roll_strike(table: &[OreCandidate], skill_level: u32, altitude_bonus: u32) -> (r: Option<usize>)
    requires
        skill_level + altitude_bonus <= u32::MAX,
        weight_sum(ore_weights(table@, skill_level, altitude_bonus)) <= u64::MAX,
    ensures
        exists|d20: i32, ore_roll: u64|
            1 <= d20 <= 20 && (weight_sum(ore_weights(table@, skill_level, altitude_bonus)) == 0 || (
            ore_roll as int) < weight_sum(ore_weights(table@, skill_level, altitude_bonus))) && #[trigger] spec_strike_ore(table@, skill_level, altitude_bonus, d20, ore_roll) == match r {
                Some(i) => Some(i as int),
                None => None,
            },
        r matches Some(i) ==> i < table@.len(),
{
    let d20 = roll_u32_inclusive(1, 20) as i32;
    let total = ore_total(table, skill_level, altitude_bonus);
    if total == 0 {
        let r = strike_ore(table, skill_level, altitude_bonus, d20, 0);
        proof {
            assert(spec_strike_ore(table@, skill_level, altitude_bonus, d20, 0) is None);
        }
        return r;
    }
    let ore_roll = roll_u64_below(total);
    let r = strike_ore(table, skill_level, altitude_bonus, d20, ore_roll);
    proof {
        if spec_strike_hits(skill_level, d20) {
            lemma_pick_in_range(ore_weights(table@, skill_level, altitude_bonus), ore_roll as int);
        }
    }
    r
}

pub open spec fn spec_ore_xp(rarity: u32) -> int {
    ORE_XP_PER_RARITY_SQ * rarity * rarity
}

/// Skill XP for one broken ore of the given rarity.
pub fn ore_xp(rarity: u32) -> (r: u64)
    requires
        spec_ore_xp(rarity) <= u64::MAX,
    ensures
        r == spec_ore_xp(rarity),
{
    proof {
        assert((rarity as int) * (rarity as int) <= 3 * (rarity as int) * (rarity as int)) by (nonlinear_arith);
        assert(3 * (rarity as int) * (rarity as int) == 3 * ((rarity as int) * (rarity as int))) by (nonlinear_arith);
    }
    ORE_XP_PER_RARITY_SQ * ((rarity as u64) * (rarity as u64))
}

/// The running haul of a mining session.
#[derive(Debug, Clone, Copy, PartialEq, Eq, Structural)]
pub struct MiningTally {
    /// Ore left in the vein.
    pub yield_remaining: u8,
    pub ores_gained: u32,
}

/// Book a resolved strike: a broken ore leaves the vein one poorer and the
/// haul one richer; the vein is exhausted when its last ore came out. A
/// miss changes nothing.
pub fn book_strike(tally: &mut MiningTally, broke_ore: bool) -> (exhausted: bool)
    requires
        old(tally).ores_gained < u32::MAX,
    ensures
        broke_ore ==> final(tally).yield_remaining == (if old(tally).yield_remaining > 0 {
            old(tally).yield_remaining - 1
        } else {
            0
        }) && final(tally).ores_gained == old(tally).ores_gained + 1 && exhausted == (
        final(tally).yield_remaining == 0),
        !broke_ore ==> *final(tally) == *old(tally) && !exhausted,
{
    if broke_ore {
        tally.yield_remaining = if tally.yield_remaining > 0 { tally.yield_remaining - 1 } else { 0 };
        tally.ores_gained = tally.ores_gained + 1;
        tally.yield_remaining == 0
    } else {
        false
    }
}

/// Why a mining request is refused.
#[derive(Debug, Clone, Copy, PartialEq, Eq, Structural)]
pub enum MiningRefusal {
    AlreadyMining,
    Defeated,
    NotOutdoors,
    NoPickaxe,
    NoVein,
    TooFar,
    VeinSpent,
    VeinTaken,
}

pub open spec fn refusal_text(r: MiningRefusal) -> Seq<char> {
    match r {
        MiningRefusal::AlreadyMining => "You are already mining."@,
        MiningRefusal::Defeated => "You cannot mine while defeated."@,
        MiningRefusal::NotOutdoors => "You can only mine outdoors."@,
        MiningRefusal::NoPickaxe => "You need a pickaxe in your main hand."@,
        MiningRefusal::NoVein => "There is no ore vein there."@,
        MiningRefusal::TooFar => "You are too far from the vein."@,
        MiningRefusal::VeinSpent => "This vein is spent. Give it time to replenish."@,
        MiningRefusal::VeinTaken => "Someone is already working this vein."@,
    }
}

impl MiningRefusal {
    /// The message the miner is shown.
    pub fn message(&self) -> (r: &'static str)
        ensures
            r@ == refusal_text(*self),
    {
        match self {
            MiningRefusal::AlreadyMining => "You are already mining.",
            MiningRefusal::Defeated => "You cannot mine while defeated.",
            MiningRefusal::NotOutdoors => "You can only mine outdoors.",
            MiningRefusal::NoPickaxe => "You need a pickaxe in your main hand.",
            MiningRefusal::NoVein => "There is no ore vein there.",
            MiningRefusal::TooFar => "You are too far from the vein.",
            MiningRefusal::VeinSpent => "This vein is spent. Give it time to replenish.",
            MiningRefusal::VeinTaken => "Someone is already working this vein.",
        }
    }
}

/// The miner-side checks of a mining start, in the order they are made:
/// not already mining, alive, outdoors, pickaxe in the main hand.
pub open spec fn spec_miner_refusal(already_mining: bool, alive: bool, floor: i8, has_pickaxe: bool) -> Option<
    MiningRefusal,
> {
    if already_mining {
        Some(MiningRefusal::AlreadyMining)
    } else if !alive {
        Some(MiningRefusal::Defeated)
    } else if floor != OVERWORLD_FLOOR {
        Some(MiningRefusal::NotOutdoors)
    } else if !has_pickaxe {
        Some(MiningRefusal::NoPickaxe)
    } else {
        None
    }
}

pub fn miner_refusal(already_mining: bool, alive: bool, floor: i8, has_pickaxe: bool) -> (r: Option<
    MiningRefusal,
>)
    ensures
        r == spec_miner_refusal(already_mining, alive, floor, has_pickaxe),
{
    if already_mining {
        Some(MiningRefusal::AlreadyMining)
    } else if !alive {
        Some(MiningRefusal::Defeated)
    } else if floor != OVERWORLD_FLOOR {
        Some(MiningRefusal::NotOutdoors)
    } else if !has_pickaxe {
        Some(MiningRefusal::NoPickaxe)
    } else {
        None
    }
}

/// The vein-side checks, once a vein within reach was found: not spent,
/// and nobody else working it.
pub fn vein_refusal(depleted: bool, occupied: bool) -> (r: Option<MiningRefusal>)
    ensures
        r == (if depleted {
            Some(MiningRefusal::VeinSpent)
        } else if occupied {
            Some(MiningRefusal::VeinTaken)
        } else {
            None::<MiningRefusal>
        }),
{
    if depleted {
        Some(MiningRefusal::VeinSpent)
    } else if occupied {
        Some(MiningRefusal::VeinTaken)
    } else {
        None
    }
}

/// Below level 20 each mining level shaves 56 ms off the 2 800 ms strike
/// interval; from level 20 on it stays at 60% of it.
pub proof fn lemma_strike_interval_per_level(skill_level: u32)
    ensures
        skill_level <= 20 ==> spec_strike_interval_ms(skill_level) == STRIKE_INTERVAL_MS - 56 * skill_level,
        skill_level >= 20 ==> spec_strike_interval_ms(skill_level) == STRIKE_INTERVAL_MS * 60 / 100,
{
}

/// A vein's weight grows by its rarity for each mining level and for each
/// point of altitude bonus, from its listed weight at none.
pub proof fn lemma_ore_weight_per_point(c: OreCandidate, skill_level: u32, altitude_bonus: u32)
    ensures
        spec_ore_weight(c, 0, 0) == c.ore_weight,
        skill_level < u32::MAX ==> spec_ore_weight(c, (skill_level + 1) as u32, altitude_bonus) == spec_ore_weight(
            c,
            skill_level,
            altitude_bonus,
        ) + c.rarity,
        altitude_bonus < u32::MAX ==> spec_ore_weight(c, skill_level, (altitude_bonus + 1) as u32) == spec_ore_weight(
            c,
            skill_level,
            altitude_bonus,
        ) + c.rarity,
{
    assert((skill_level + 1 + altitude_bonus) * c.rarity == (skill_level + altitude_bonus) * c.rarity + c.rarity)
        by (nonlinear_arith);
    assert((skill_level + altitude_bonus + 1) * c.rarity == (skill_level + altitude_bonus) * c.rarity + c.rarity)
        by (nonlinear_arith);
}

/// Ore XP grows with the square of rarity: a common ore (rarity 1) gives 3,
/// none gives nothing, and doubling the rarity quadruples the XP.
pub proof fn lemma_ore_xp_square(rarity: u32)
    ensures
        spec_ore_xp(0) == 0,
        spec_ore_xp(1) == ORE_XP_PER_RARITY_SQ,
        rarity <= u32::MAX / 2 ==> spec_ore_xp((2 * rarity) as u32) == 4 * spec_ore_xp(rarity),
{
    assert(3 * (2 * rarity) * (2 * rarity) == 4 * (3 * rarity * rarity)) by (nonlinear_arith);
}

/// Starting to mine needs a living player outdoors with a pickaxe who is
/// not mining already: it goes ahead exactly then, and every refusal names
/// a check that failed, the running session first.
pub proof fn lemma_miner_checks(already_mining: bool, alive: bool, floor: i8, has_pickaxe: bool)
    ensures
        spec_miner_refusal(already_mining, alive, floor, has_pickaxe) is None <==> (!already_mining && alive && floor
            == OVERWORLD_FLOOR && has_pickaxe),
        already_mining ==> spec_miner_refusal(already_mining, alive, floor, has_pickaxe) == Some(
            MiningRefusal::AlreadyMining,
        ),
        spec_miner_refusal(already_mining, alive, floor, has_pickaxe) == Some(MiningRefusal::Defeated) ==> !alive,
        spec_miner_refusal(already_mining, alive, floor, has_pickaxe) == Some(MiningRefusal::NotOutdoors) ==> floor
            != OVERWORLD_FLOOR,
        spec_miner_refusal(already_mining, alive, floor, has_pickaxe) == Some(MiningRefusal::NoPickaxe)
            ==> !has_pickaxe,
{
}

} // verus!
