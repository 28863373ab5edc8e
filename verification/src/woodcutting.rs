//! Woodcutting: tree addressing, session outcomes and tuning, and the
//! server's swing clock — a chop swings on its own timer until the tree
//! falls or the chopper is interrupted; there is nothing to react to.
use vstd::prelude::*;

verus! {

/// One baked tree instance: its tile, model slot (`kind`) and index within
/// that slot's array.
#[derive(Debug, Clone, Copy, PartialEq, Eq, Hash, Structural)]
pub struct TreeRef {
    pub tile_x: i32,
    pub tile_z: i32,
    pub kind: u8,
    pub index: u32,
}

/// A felled tree that has not grown back yet.
#[derive(Debug, Clone, Copy, PartialEq, Eq, Structural)]
pub struct TreeStump {
    pub tree: TreeRef,
    pub respawn_in_ms: u32,
}

/// How a chopping session ended.
#[derive(Debug, Clone, PartialEq)]
pub enum WoodcuttingOutcome {
    /// The tree came down with `logs` logs of `item_def_id`.
    Felled { item_def_id: String, logs: u32 },
    /// The chopper moved, fought, lost the axe, or stopped deliberately.
    Aborted,
}

/// One axe swing per this interval.
pub const SWING_MS: u32 = 1_500;

/// A felled tree grows back this long after it fell.
pub const TREE_RESPAWN_MS: u32 = 120_000;

/// Skill XP per log, by tree kind: the big broadleafs pay double the
/// common timber trees.
pub const XP_PER_LOG_OAK: u64 = 12;
pub const XP_PER_LOG_TIMBER: u64 = 6;

/// Number of tree model slots.
pub const TREE_KINDS: u8 = 2;

/// The level the mid-size oak gate unlocks at.
pub const OAK_GATE_LEVEL_MID: u32 = 10;
/// The level the ancient-oak gate unlocks at.
pub const OAK_GATE_LEVEL_ANCIENT: u32 = 20;

/// Chopping is an overworld activity.
pub const CHOPPING_FLOOR: i8 = 0;

pub open spec fn spec_log_name(kind: u8) -> Option<Seq<char>> {
    if kind == 0 {
        Some("oak_log"@)
    } else if kind == 1 {
        Some("timber_log"@)
    } else {
        None
    }
}

/// The timber a tree kind yields when felled: the oak model drops oak, the
/// timber model common timber, any other kind nothing.
pub fn log_item_id(kind: u8) -> (r: Option<&'static str>)
    ensures
        match r {
            Some(s) => spec_log_name(kind) == Some(s@),
            None => spec_log_name(kind) is None,
        },
{
    if kind == 0 {
        Some("oak_log")
    } else if kind == 1 {
        Some("timber_log")
    } else {
        None
    }
}

/// Whether `kind` is a valid tree model slot.
pub fn is_valid_tree_kind(kind: u8) -> (r: bool)
    ensures
        r == (kind < TREE_KINDS),
{
    kind < TREE_KINDS
}

/// Every valid tree kind has a log item, and no other kind does.
pub proof fn lemma_valid_kinds_have_logs(kind: u8)
    ensures
        (kind < TREE_KINDS) == (spec_log_name(kind) is Some),
{
}

pub open spec fn spec_xp_per_log(kind: u8) -> u64 {
    if kind == 0 { XP_PER_LOG_OAK } else { XP_PER_LOG_TIMBER }
}

/// Skill XP for felling a tree that yielded `logs` logs: per-log XP of the
/// kind (timber rate for unknown kinds) times the yield.
pub fn xp_for_logs(kind: u8, logs: u32) -> (r: u64)
    ensures
        r == spec_xp_per_log(kind) * logs,
{
    let per_log: u64 = if kind == 0 { XP_PER_LOG_OAK } else { XP_PER_LOG_TIMBER };
    per_log * (logs as u64)
}

pub open spec fn spec_swings_after_skill(base_swings: u32, skill_level: u32) -> int {
    let s = base_swings - skill_level / 6;
    if s < 3 { 3 } else { s }
}

/// Axe swings to fell a tree whose size calls for `base_swings`: skill
/// takes one off per six levels, and nothing falls in under three swings.
pub fn swings_after_skill(base_swings: u32, skill_level: u32) -> (r: u32)
    ensures
        r == spec_swings_after_skill(base_swings, skill_level),
{
    let off = skill_level / 6;
    let s = if base_swings > off { base_swings - off } else { 0 };
    if s < 3 { 3 } else { s }
}

/// A felling always takes at least three swings, and skill never makes it
/// take longer.
pub proof fn lemma_swings_floor(base: u32, a: u32, b: u32)
    ensures
        spec_swings_after_skill(base, a) >= 3,
        a <= b ==> spec_swings_after_skill(base, b) <= spec_swings_after_skill(base, a),
{
    assert(a <= b ==> a / 6 <= b / 6) by (nonlinear_arith);
}

/// Progress of a chop on the swing clock.
#[derive(Debug, Clone, Copy, PartialEq, Eq, Structural)]
pub struct ChopProgress {
    pub swings_done: u32,
    pub swings_needed: u32,
    pub next_swing_at_ms: u64,
}

/// The first swing of a chop started at `now_ms`.
pub fn start_progress(swings_needed: u32, now_ms: u64) -> (p: ChopProgress)
    requires
        now_ms + SWING_MS <= u64::MAX,
    ensures
        p == (ChopProgress { swings_done: 0, swings_needed, next_swing_at_ms: (now_ms + SWING_MS) as u64 }),
{
    ChopProgress { swings_done: 0, swings_needed, next_swing_at_ms: now_ms + SWING_MS as u64 }
}

/// What the woodcutting tick has to do for one session.
#[derive(Debug, Clone, Copy, PartialEq, Eq, Structural)]
pub enum ChopDue {
    Nothing,
    /// The chopper is dead or gone: abort.
    PlayerGone,
    /// A swing is due.
    Swing,
}

pub fn chop_due(progress: &ChopProgress, alive: bool, now_ms: u64) -> (d: ChopDue)
    ensures
        d == (if !alive {
            ChopDue::PlayerGone
        } else if now_ms >= progress.next_swing_at_ms {
            ChopDue::Swing
        } else {
            ChopDue::Nothing
        }),
{
    if !alive {
        ChopDue::PlayerGone
    } else if now_ms >= progress.next_swing_at_ms {
        ChopDue::Swing
    } else {
        ChopDue::Nothing
    }
}

/// Land one swing at `now_ms`: the tree falls when enough swings landed;
/// otherwise the next swing is scheduled one interval later. The result is
/// whether the tree fell.
pub fn land_swing(progress: &mut ChopProgress, now_ms: u64) -> (felled: bool)
    requires
        old(progress).swings_done < u32::MAX,
        now_ms + SWING_MS <= u64::MAX,
    ensures
        final(progress).swings_done == old(progress).swings_done + 1,
        final(progress).swings_needed == old(progress).swings_needed,
        felled == (final(progress).swings_done >= old(progress).swings_needed),
        felled ==> final(progress).next_swing_at_ms == old(progress).next_swing_at_ms,
        !felled ==> final(progress).next_swing_at_ms == now_ms + SWING_MS,
{
    progress.swings_done = progress.swings_done + 1;
    if progress.swings_done >= progress.swings_needed {
        true
    } else {
        progress.next_swing_at_ms = now_ms + SWING_MS as u64;
        false
    }
}

/// Why a chop is refused.
#[derive(Debug, Clone, Copy, PartialEq, Eq, Structural)]
pub enum ChopRefusal {
    AlreadyChopping,
    Defeated,
    NotOutdoors,
    NoAxe,
    NoTree,
    OutOfReach,
    TooMighty { required: u32 },
    TreeTaken,
}

/// The checks of a chop, in the order they are made: not already chopping,
/// alive, outdoors, axe in the main hand, a standing tree found, within
/// reach, skill at the tree's gate, nobody else on the tree.
pub fn chop_refusal(
    already_chopping: bool,
    alive: bool,
    floor: i8,
    has_axe: bool,
    tree_found: bool,
    in_reach: bool,
    skill_level: u32,
    required_level: u32,
    tree_taken: bool,
) -> (r: Option<ChopRefusal>)
    ensures
        r == (if already_chopping {
            Some(ChopRefusal::AlreadyChopping)
        } else if !alive {
            Some(ChopRefusal::Defeated)
        } else if floor != CHOPPING_FLOOR {
            Some(ChopRefusal::NotOutdoors)
        } else if !has_axe {
            Some(ChopRefusal::NoAxe)
        } else if !tree_found {
            Some(ChopRefusal::NoTree)
        } else if !in_reach {
            Some(ChopRefusal::OutOfReach)
        } else if skill_level < required_level {
            Some(ChopRefusal::TooMighty { required: required_level })
        } else if tree_taken {
            Some(ChopRefusal::TreeTaken)
        } else {
            None::<ChopRefusal>
        }),
{
    if already_chopping {
        Some(ChopRefusal::AlreadyChopping)
    } else if !alive {
        Some(ChopRefusal::Defeated)
    } else if floor != CHOPPING_FLOOR {
        Some(ChopRefusal::NotOutdoors)
    } else if !has_axe {
        Some(ChopRefusal::NoAxe)
    } else if !tree_found {
        Some(ChopRefusal::NoTree)
    } else if !in_reach {
        Some(ChopRefusal::OutOfReach)
    } else if skill_level < required_level {
        Some(ChopRefusal::TooMighty { required: required_level })
    } else if tree_taken {
        Some(ChopRefusal::TreeTaken)
    } else {
        None
    }
}

/// The stumps of felled trees, each with the time (ms) it grows back.
#[derive(Debug, Clone)]
pub struct Stumps {
    pub entries: Vec<(TreeRef, u64)>,
}

/// The position of `tree` among the stumps, if it is one.
pub open spec fn stump_pos(s: Seq<(TreeRef, u64)>, tree: TreeRef) -> Option<int>
    decreases s.len(),
{
    if s.len() == 0 {
        None
    } else {
        match stump_pos(s.drop_last(), tree) {
            Some(k) => Some(k),
            None => if s.last().0 == tree { Some(s.len() - 1) } else { None },
        }
    }
}

/// The stumps after `tree` is felled at `now_ms`: it grows back
/// `TREE_RESPAWN_MS` later (a stump felled again restarts its timer).
pub open spec fn planted(s: Seq<(TreeRef, u64)>, tree: TreeRef, now_ms: u64) -> Seq<(TreeRef, u64)> {
    let at = (now_ms + TREE_RESPAWN_MS) as u64;
    match stump_pos(s, tree) {
        Some(k) => s.update(k, (tree, at)),
        None => s.push((tree, at)),
    }
}

/// A stump is due to grow back at `now_ms`.
pub open spec fn regrows_by(now_ms: u64) -> spec_fn((TreeRef, u64)) -> bool {
    |e: (TreeRef, u64)| now_ms >= e.1
}

/// A stump still standing at `now_ms`.
pub open spec fn stays_at(now_ms: u64) -> spec_fn((TreeRef, u64)) -> bool {
    |e: (TreeRef, u64)| now_ms < e.1
}

proof fn lemma_stump_pos(s: Seq<(TreeRef, u64)>, tree: TreeRef)
    ensures
        stump_pos(s, tree) matches Some(k) ==> 0 <= k < s.len() && s[k].0 == tree,
        stump_pos(s, tree) is None ==> forall|i: int| 0 <= i < s.len() ==> #[trigger] s[i].0 != tree,
    decreases s.len(),
{
    if s.len() > 0 {
        lemma_stump_pos(s.drop_last(), tree);
        if stump_pos(s, tree) is None {
            assert forall|i: int| 0 <= i < s.len() implies #[trigger] s[i].0 != tree by {
                if i < s.len() - 1 {
                    assert(s[i] == s.drop_last()[i]);
                }
            }
        }
    }
}

impl Stumps {
    /// No tree felled.
    pub fn new() -> (r: Stumps)
        ensures
            r.entries@ == Seq::<(TreeRef, u64)>::empty(),
    {
        Stumps { entries: Vec::new() }
    }

    /// Fell `tree` at `now_ms`: it grows back `TREE_RESPAWN_MS` later.
    pub fn plant(&mut self, tree: TreeRef, now_ms: u64)
        requires
            now_ms + TREE_RESPAWN_MS <= u64::MAX,
        ensures
            final(self).entries@ == planted(old(self).entries@, tree, now_ms),
    {
        let at = now_ms + TREE_RESPAWN_MS as u64;
        let ghost s0 = self.entries@;
        let mut i: usize = 0;
        while i < self.entries.len()
            invariant
                0 <= i <= s0.len(),
                self.entries@ == s0,
                s0 == old(self).entries@,
                at == now_ms + TREE_RESPAWN_MS,
                stump_pos(s0.take(i as int), tree) is None,
            decreases s0.len() - i,
        {
            if self.entries[i].0 == tree {
                proof {
                    lemma_stump_prefix_hit(s0, tree, i as int);
                }
                self.entries.set(i, (tree, at));
                return;
            }
            proof {
                lemma_stump_prefix(s0, tree, i as int);
            }
            i = i + 1;
        }
        proof {
            assert(s0.take(i as int) =~= s0);
        }
        self.entries.push((tree, at));
    }

    /// Grow back every stump due at `now_ms`: they leave the list, in their
    /// order, and are returned.
    pub fn regrow(&mut self, now_ms: u64) -> (due: Vec<TreeRef>)
        ensures
            final(self).entries@ == old(self).entries@.filter(stays_at(now_ms)),
            due@ == old(self).entries@.filter(regrows_by(now_ms)).map_values(|e: (TreeRef, u64)| e.0),
    {
        let ghost s0 = self.entries@;
        let mut kept: Vec<(TreeRef, u64)> = Vec::new();
        let mut due: Vec<TreeRef> = Vec::new();
        let mut i: usize = 0;
        while i < self.entries.len()
            invariant
                self.entries@ == s0,
                0 <= i <= s0.len(),
                kept@ == s0.take(i as int).filter(stays_at(now_ms)),
                due@ == s0.take(i as int).filter(regrows_by(now_ms)).map_values(|e: (TreeRef, u64)| e.0),
            decreases s0.len() - i,
        {
            let e = self.entries[i];
            proof {
                assert(s0.take(i + 1).drop_last() =~= s0.take(i as int));
                assert(s0.take(i + 1).last() == e);
            }
            proof {
                reveal(Seq::filter);
                assert(regrows_by(now_ms)(e) == (now_ms >= e.1));
                assert(stays_at(now_ms)(e) == (now_ms < e.1));
            }
            if now_ms >= e.1 {
                due.push(e.0);
                proof {
                    reveal(Seq::filter);
                    let f = s0.take(i as int).filter(regrows_by(now_ms));
                    assert(s0.take(i + 1).filter(regrows_by(now_ms)) == f.push(e));
                    assert(s0.take(i + 1).filter(stays_at(now_ms)) == s0.take(i as int).filter(stays_at(now_ms)));
                    assert(f.push(e).map_values(|e: (TreeRef, u64)| e.0) =~= f.map_values(|e: (TreeRef, u64)| e.0).push(e.0));
                }
            } else {
                kept.push(e);
                proof {
                    reveal(Seq::filter);
                    assert(s0.take(i + 1).filter(regrows_by(now_ms)) == s0.take(i as int).filter(regrows_by(now_ms)));
                    assert(s0.take(i + 1).filter(stays_at(now_ms)) == s0.take(i as int).filter(stays_at(now_ms)).push(e));
                }
            }
            i = i + 1;
        }
        proof {
            assert(s0.take(i as int) =~= s0);
        }
        self.entries = kept;
        due
    }
}

proof fn lemma_stump_prefix(s: Seq<(TreeRef, u64)>, tree: TreeRef, i: int)
    requires
        0 <= i < s.len(),
        stump_pos(s.take(i), tree) is None,
        s[i].0 != tree,
    ensures
        stump_pos(s.take(i + 1), tree) is None,
{
    assert(s.take(i + 1).drop_last() =~= s.take(i));
}

proof fn lemma_stump_prefix_hit(s: Seq<(TreeRef, u64)>, tree: TreeRef, i: int)
    requires
        0 <= i < s.len(),
        stump_pos(s.take(i), tree) is None,
        s[i].0 == tree,
    ensures
        stump_pos(s, tree) == Some(i),
    decreases s.len() - i,
{
    if i == s.len() - 1 {
        assert(s.take(i) =~= s.drop_last());
    } else {
        assert(s.drop_last().take(i) =~= s.take(i));
        lemma_stump_prefix_hit(s.drop_last(), tree, i);
    }
}

/// Every six woodcutting levels take one swing off a felling, down to the
/// floor of three; levels in between change nothing.
pub proof fn lemma_one_swing_per_six_levels(base: u32, skill_level: u32)
    ensures
        spec_swings_after_skill(base, 0) == (if base < 3 { 3 } else { base as int }),
        skill_level <= u32::MAX - 6 ==> spec_swings_after_skill(base, (skill_level + 6) as u32) == (if spec_swings_after_skill(
            base,
            skill_level,
        ) - 1 < 3 {
            3
        } else {
            spec_swings_after_skill(base, skill_level) - 1
        }),
        spec_swings_after_skill(base, skill_level) == spec_swings_after_skill(base, (skill_level - skill_level % 6) as u32),
{
    assert((skill_level + 6) / 6 == skill_level / 6 + 1) by (nonlinear_arith);
    assert((skill_level - skill_level % 6) / 6 == skill_level / 6) by (nonlinear_arith);
}

/// An oak log is worth twice the XP of a log of any other tree, and every
/// other kind is worth the same.
pub proof fn lemma_oak_logs_worth_double(kind: u8, other: u8)
    ensures
        spec_xp_per_log(0) == 2 * spec_xp_per_log(1),
        kind != 0 && other != 0 ==> spec_xp_per_log(kind) == spec_xp_per_log(other),
        spec_xp_per_log(1) == 6,
{
}

} // verus!
