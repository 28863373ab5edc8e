//! The server's fishing session as a state machine on millisecond clock
//! readings: cast → wait → bite → hook → struggle rounds → caught or
//! escaped. The caller owns the clock and the draws; every transition here
//! is a function of the phase, the reading and the draw it is handed.
use vstd::prelude::*;
use crate::fishing::{
    FishState, FishingAction, BITE_WINDOW_MS, CAST_MS, CATCH_XP_PER_RARITY_SQ, LATENCY_GRACE_MS,
    TENSION_CORRECT_RELIEF, TENSION_MAX, spec_struggle_rounds, spec_struggle_window_ms,
    spec_tension_miss_penalty, struggle_rounds, struggle_window_ms, tension_miss_penalty, max_u,
    WAIT_MIN_MS, WAIT_MAX_MS, spec_roll_wait_ms, roll_wait_ms, CatchCandidate, catch_weights,
    effective_weight, pick_catch,
};
use crate::weights::{weight_sum, weighted_pick, lemma_pick_in_range, lemma_weight_sum_push, lemma_weight_sum_prefix};
use crate::chance::{roll_u64_inclusive, roll_u64_below, roll_u32_inclusive};

verus! {

/// Casts are only valid on the overworld floor.
pub const FISHING_FLOOR: i8 = 0;

/// Where a fishing session stands; every instant is a millisecond reading
/// of the server clock.
#[derive(Debug, Clone, Copy, PartialEq, Eq, Structural)]
pub enum FishingPhase {
    /// Rod is swinging; the bobber lands at `until_ms`.
    Casting { until_ms: u64 },
    /// Bobber is floating; the fish bites at `bite_at_ms`.
    Waiting { bite_at_ms: u64 },
    /// Bobber dipped at `since_ms`; the hook must come within the bite
    /// window plus grace.
    Bite { since_ms: u64 },
    /// Hooked: answer `fish_state` before `deadline_ms` (plus grace) or take
    /// tension.
    Struggle {
        round: u32,
        total_rounds: u32,
        fish_state: FishState,
        deadline_ms: u64,
        /// The round was answered; the tick's reaper must not also miss it.
        responded: bool,
        tension: u32,
    },
}

/// The phase a fresh cast starts in.
pub fn cast_phase(now_ms: u64) -> (p: FishingPhase)
    requires
        now_ms + CAST_MS <= u64::MAX,
    ensures
        p == (FishingPhase::Casting { until_ms: (now_ms + CAST_MS) as u64 }),
{
    FishingPhase::Casting { until_ms: now_ms + CAST_MS as u64 }
}

/// What the fishing tick has to do for one session.
#[derive(Debug, Clone, Copy, PartialEq, Eq, Structural)]
pub enum FishingDue {
    Nothing,
    /// The angler is dead or gone: abort.
    PlayerGone,
    /// The cast finished: start waiting.
    BobberLanded,
    /// The wait is over: the fish bites.
    Bite,
    /// Nobody hooked the bite in time: the fish escapes.
    Expired,
    /// Nobody answered the struggle round in time: count it as a miss.
    StruggleMissed,
}

/// The tick's decision. A bite or a struggle round is only reaped after
/// twice the latency grace, so a response that raced the deadline is judged
/// by the response handler instead.
pub open spec fn spec_fishing_due(phase: FishingPhase, alive: bool, now_ms: u64) -> FishingDue {
    if !alive {
        FishingDue::PlayerGone
    } else {
        match phase {
            FishingPhase::Casting { until_ms } => if now_ms >= until_ms {
                FishingDue::BobberLanded
            } else {
                FishingDue::Nothing
            },
            FishingPhase::Waiting { bite_at_ms } => if now_ms >= bite_at_ms {
                FishingDue::Bite
            } else {
                FishingDue::Nothing
            },
            FishingPhase::Bite { since_ms } => if now_ms >= since_ms + BITE_WINDOW_MS + 2
                * LATENCY_GRACE_MS {
                FishingDue::Expired
            } else {
                FishingDue::Nothing
            },
            FishingPhase::Struggle { deadline_ms, responded, .. } => if !responded && now_ms
                >= deadline_ms + 2 * LATENCY_GRACE_MS {
                FishingDue::StruggleMissed
            } else {
                FishingDue::Nothing
            },
        }
    }
}

/// The tick aborts a dead angler's session before anything else, moves a
/// live one on exactly when its phase's time has come, and reaps a bite or
/// a struggle round nobody answered only once twice the latency grace has
/// passed beyond its window.
pub proof fn lemma_tick_decisions(phase: FishingPhase, alive: bool, now_ms: u64)
    ensures
        ({
            let d = spec_fishing_due(phase, alive, now_ms);
            &&& d == FishingDue::PlayerGone <==> !alive
            &&& alive ==> (d == FishingDue::BobberLanded <==> (phase matches FishingPhase::Casting { until_ms }
                && now_ms >= until_ms))
            &&& alive ==> (d == FishingDue::Bite <==> (phase matches FishingPhase::Waiting { bite_at_ms }
                && now_ms >= bite_at_ms))
            &&& alive ==> (d == FishingDue::Expired <==> (phase matches FishingPhase::Bite { since_ms } && now_ms
                >= since_ms + BITE_WINDOW_MS + 2 * LATENCY_GRACE_MS))
            &&& alive ==> (d == FishingDue::StruggleMissed <==> (phase matches FishingPhase::Struggle {
                deadline_ms,
                responded,
                ..
            } && !responded && now_ms >= deadline_ms + 2 * LATENCY_GRACE_MS))
        }),
{
}

pub fn fishing_due(phase: &FishingPhase, alive: bool, now_ms: u64) -> (d: FishingDue)
    ensures
        d == spec_fishing_due(*phase, alive, now_ms),
{
    if !alive {
        return FishingDue::PlayerGone;
    }
    match phase {
        FishingPhase::Casting { until_ms } => if now_ms >= *until_ms {
            FishingDue::BobberLanded
        } else {
            FishingDue::Nothing
        },
        FishingPhase::Waiting { bite_at_ms } => if now_ms >= *bite_at_ms {
            FishingDue::Bite
        } else {
            FishingDue::Nothing
        },
        FishingPhase::Bite { since_ms } => {
            let window: u64 = (BITE_WINDOW_MS + 2 * LATENCY_GRACE_MS) as u64;
            if now_ms >= *since_ms && now_ms - *since_ms >= window {
                FishingDue::Expired
            } else {
                FishingDue::Nothing
            }
        },
        FishingPhase::Struggle { deadline_ms, responded, .. } => {
            let grace: u64 = (2 * LATENCY_GRACE_MS) as u64;
            if !*responded && now_ms >= *deadline_ms && now_ms - *deadline_ms >= grace {
                FishingDue::StruggleMissed
            } else {
                FishingDue::Nothing
            }
        },
    }
}

/// How the server judges a response.
#[derive(Debug, Clone, Copy, PartialEq, Eq, Structural)]
pub enum FishingVerdict {
    /// Before the bite, or anything but a hook during it: the fish spits
    /// the bait.
    TooEarly,
    /// The bite window (plus grace) has passed.
    TooLate,
    /// The hook is set: the fight begins.
    Hooked,
    /// A second answer to an already answered round: ignored.
    Duplicate,
    /// A struggle round was answered; `tension` is the new line tension.
    RoundAnswered { correct: bool, tension: u32 },
}

/// The phase and verdict after action `action` arrives at `now_ms` while
/// a fish of rarity `rarity` is on the line.
pub open spec fn spec_respond(phase: FishingPhase, action: FishingAction, now_ms: u64, rarity: u32) -> (
    FishingPhase,
    FishingVerdict,
) {
    match phase {
        FishingPhase::Casting { .. } => (phase, FishingVerdict::TooEarly),
        FishingPhase::Waiting { .. } => (phase, FishingVerdict::TooEarly),
        FishingPhase::Bite { since_ms } => if now_ms > since_ms + BITE_WINDOW_MS + LATENCY_GRACE_MS {
            (phase, FishingVerdict::TooLate)
        } else if action == FishingAction::Hook {
            (phase, FishingVerdict::Hooked)
        } else {
            (phase, FishingVerdict::TooEarly)
        },
        FishingPhase::Struggle { round, total_rounds, fish_state, deadline_ms, responded, tension } => {
            if responded {
                (phase, FishingVerdict::Duplicate)
            } else {
                let correct = now_ms <= deadline_ms + LATENCY_GRACE_MS && action
                    == fish_state.spec_correct_action();
                let t = if correct {
                    max_u(tension - TENSION_CORRECT_RELIEF, 0)
                } else {
                    tension + spec_tension_miss_penalty(rarity)
                };
                (
                    FishingPhase::Struggle {
                        round,
                        total_rounds,
                        fish_state,
                        deadline_ms,
                        responded: true,
                        tension: t as u32,
                    },
                    FishingVerdict::RoundAnswered { correct, tension: t as u32 },
                )
            }
        },
    }
}

/// A laggy but in-time answer is never punished: a hook that arrives
/// within the bite window plus the grace sets the hook, and the right
/// answer to an open struggle round within its deadline plus the grace
/// counts as correct and never raises the line tension.
pub proof fn lemma_in_time_answers_count(phase: FishingPhase, action: FishingAction, now_ms: u64, rarity: u32)
    ensures
        phase matches FishingPhase::Bite { since_ms } ==> (action == FishingAction::Hook && now_ms
            <= since_ms + BITE_WINDOW_MS + LATENCY_GRACE_MS ==> spec_respond(phase, action, now_ms, rarity).1
            == FishingVerdict::Hooked),
        phase matches FishingPhase::Struggle { fish_state, deadline_ms, responded, tension, .. } ==> (!responded
            && action == fish_state.spec_correct_action() && now_ms <= deadline_ms + LATENCY_GRACE_MS ==> (
        spec_respond(phase, action, now_ms, rarity).1 matches FishingVerdict::RoundAnswered { correct, tension: t }
            && correct && t <= tension)),
{
}

/// An answer past the round's deadline plus the grace is a miss whatever
/// it says: the round closes and the miss penalty lands on the line. And
/// only the right action, in time, ever counts as correct.
pub proof fn lemma_late_answers_miss(phase: FishingPhase, action: FishingAction, now_ms: u64, rarity: u32)
    ensures
        phase matches FishingPhase::Struggle { deadline_ms, responded, tension, .. } ==> (!responded && now_ms
            > deadline_ms + LATENCY_GRACE_MS ==> spec_respond(phase, action, now_ms, rarity).1 == (
        FishingVerdict::RoundAnswered {
            correct: false,
            tension: (tension + spec_tension_miss_penalty(rarity)) as u32,
        })),
        (spec_respond(phase, action, now_ms, rarity).1 matches FishingVerdict::RoundAnswered { correct: true, .. })
            ==> (phase matches FishingPhase::Struggle { fish_state, deadline_ms, .. } && action
            == fish_state.spec_correct_action() && now_ms <= deadline_ms + LATENCY_GRACE_MS),
{
}

/// Tension after a miss fits.
pub open spec fn miss_fits(phase: FishingPhase, rarity: u32) -> bool {
    phase matches FishingPhase::Struggle { tension, .. } ==> tension + spec_tension_miss_penalty(rarity)
        <= u32::MAX
}

/// Judge a response against the server's own deadlines.
pub fn respond(phase: &mut FishingPhase, action: FishingAction, now_ms: u64, rarity: u32) -> (v:
    FishingVerdict)
    requires
        miss_fits(*old(phase), rarity),
    ensures
        (*final(phase), v) == spec_respond(*old(phase), action, now_ms, rarity),
        *old(phase) matches FishingPhase::Struggle { deadline_ms, responded, tension, .. } ==> (!responded && now_ms
            > deadline_ms + LATENCY_GRACE_MS ==> v == (FishingVerdict::RoundAnswered {
            correct: false,
            tension: (tension + spec_tension_miss_penalty(rarity)) as u32,
        })),
        (v matches FishingVerdict::RoundAnswered { correct: true, .. }) ==> (*old(phase) matches FishingPhase::Struggle {
            fish_state,
            deadline_ms,
            ..
        } && action == fish_state.spec_correct_action() && now_ms <= deadline_ms + LATENCY_GRACE_MS),
{
    match phase {
        FishingPhase::Casting { .. } => FishingVerdict::TooEarly,
        FishingPhase::Waiting { .. } => FishingVerdict::TooEarly,
        FishingPhase::Bite { since_ms } => {
            let window: u64 = (BITE_WINDOW_MS + LATENCY_GRACE_MS) as u64;
            if now_ms > *since_ms && now_ms - *since_ms > window {
                FishingVerdict::TooLate
            } else if action == FishingAction::Hook {
                FishingVerdict::Hooked
            } else {
                FishingVerdict::TooEarly
            }
        },
        FishingPhase::Struggle { fish_state, deadline_ms, responded, tension, .. } => {
            if *responded {
                return FishingVerdict::Duplicate;
            }
            let grace: u64 = LATENCY_GRACE_MS as u64;
            let in_time = now_ms <= *deadline_ms || now_ms - *deadline_ms <= grace;
            let correct = in_time && action == fish_state.correct_action();
            *responded = true;
            if correct {
                *tension = if *tension > TENSION_CORRECT_RELIEF {
                    *tension - TENSION_CORRECT_RELIEF
                } else {
                    0
                };
            } else {
                *tension = *tension + tension_miss_penalty(rarity);
            }
            FishingVerdict::RoundAnswered { correct, tension: *tension }
        },
    }
}

/// A struggle round nobody answered counts as a miss: the round is closed
/// and the miss penalty lands on the line. Any other phase is left alone;
/// the result is the new tension when a round was closed.
pub fn miss_round(phase: &mut FishingPhase, rarity: u32) -> (t: Option<u32>)
    requires
        miss_fits(*old(phase), rarity),
    ensures
        match *old(phase) {
            FishingPhase::Struggle { round, total_rounds, fish_state, deadline_ms, responded, tension } =>
                if !responded {
                *final(phase) == (FishingPhase::Struggle {
                    round,
                    total_rounds,
                    fish_state,
                    deadline_ms,
                    responded: true,
                    tension: (tension + spec_tension_miss_penalty(rarity)) as u32,
                }) && t == Some((tension + spec_tension_miss_penalty(rarity)) as u32)
            } else {
                *final(phase) == *old(phase) && t is None
            },
            _ => *final(phase) == *old(phase) && t is None,
        },
{
    match phase {
        FishingPhase::Struggle { responded, tension, .. } => {
            if *responded {
                None
            } else {
                *responded = true;
                *tension = *tension + tension_miss_penalty(rarity);
                Some(*tension)
            }
        },
        _ => None,
    }
}

/// The first struggle round after a successful hook at `now_ms`, the fish
/// in state `fish_state`.
pub fn begin_struggle(rarity: u32, skill_level: u32, fish_state: FishState, now_ms: u64) -> (p: FishingPhase)
    requires
        spec_struggle_rounds(rarity) <= u32::MAX,
        150 * max_u(rarity - 1, 0) <= u32::MAX,
        max_u(3_000 - 150 * max_u(rarity - 1, 0), 0) + 60 * skill_level <= u32::MAX,
        now_ms + 3_000 <= u64::MAX,
    ensures
        p == (FishingPhase::Struggle {
            round: 1,
            total_rounds: spec_struggle_rounds(rarity) as u32,
            fish_state,
            deadline_ms: (now_ms + spec_struggle_window_ms(rarity, skill_level)) as u64,
            responded: false,
            tension: 0,
        }),
{
    let total_rounds = struggle_rounds(rarity);
    let window = struggle_window_ms(rarity, skill_level);
    FishingPhase::Struggle {
        round: 1,
        total_rounds,
        fish_state,
        deadline_ms: now_ms + window as u64,
        responded: false,
        tension: 0,
    }
}

/// What follows a resolved struggle round.
#[derive(Debug, Clone, Copy, PartialEq, Eq, Structural)]
pub enum StruggleNext {
    /// The line snapped at full tension.
    Escaped,
    /// Every round was survived.
    Caught,
    /// Another round opened.
    NextRound,
    /// The session is not fighting a fish.
    NotStruggling,
}

/// After a round resolved: escape at full tension, catch once every round
/// is survived, otherwise open the next round with the fish in state
/// `fish_state` and a fresh response window from `now_ms`.
pub fn advance_struggle(
    phase: &mut FishingPhase,
    rarity: u32,
    skill_level: u32,
    fish_state: FishState,
    now_ms: u64,
) -> (n: StruggleNext)
    requires
        150 * max_u(rarity - 1, 0) <= u32::MAX,
        max_u(3_000 - 150 * max_u(rarity - 1, 0), 0) + 60 * skill_level <= u32::MAX,
        now_ms + 3_000 <= u64::MAX,
    ensures
        match *old(phase) {
            FishingPhase::Struggle { round, total_rounds, tension, .. } => if tension >= TENSION_MAX {
                n == StruggleNext::Escaped && *final(phase) == *old(phase)
            } else if round >= total_rounds {
                n == StruggleNext::Caught && *final(phase) == *old(phase)
            } else {
                n == StruggleNext::NextRound && *final(phase) == (FishingPhase::Struggle {
                    round: (round + 1) as u32,
                    total_rounds,
                    fish_state,
                    deadline_ms: (now_ms + spec_struggle_window_ms(rarity, skill_level)) as u64,
                    responded: false,
                    tension,
                })
            },
            _ => n == StruggleNext::NotStruggling && *final(phase) == *old(phase),
        },
{
    match phase {
        FishingPhase::Struggle { round, total_rounds, fish_state: st, deadline_ms, responded, tension } => {
            if *tension >= TENSION_MAX {
                StruggleNext::Escaped
            } else if *round >= *total_rounds {
                StruggleNext::Caught
            } else {
                *round = *round + 1;
                *st = fish_state;
                let window = struggle_window_ms(rarity, skill_level);
                *deadline_ms = now_ms + window as u64;
                *responded = false;
                StruggleNext::NextRound
            }
        },
        _ => StruggleNext::NotStruggling,
    }
}

/// Skill XP for a caught fish of the given rarity.
pub fn catch_xp(rarity: u32) -> (r: u64)
    requires
        CATCH_XP_PER_RARITY_SQ * rarity * rarity <= u64::MAX,
    ensures
        r == CATCH_XP_PER_RARITY_SQ * rarity * rarity,
{
    proof {
        assert((rarity as int) * (rarity as int) <= 10 * (rarity as int) * (rarity as int)) by (nonlinear_arith);
        assert(10 * (rarity as int) * (rarity as int) == 10 * ((rarity as int) * (rarity as int))) by (nonlinear_arith);
    }
    CATCH_XP_PER_RARITY_SQ * ((rarity as u64) * (rarity as u64))
}

/// Size and trophy flag of a bitten fish: a natural 20 on the quality roll
/// doubles the rolled size (saturating) and always makes a trophy;
/// otherwise the fish is a trophy when it reaches the species' trophy
/// length, if it has one.
pub fn fish_size_and_trophy(rolled_cm: u16, quality: u32, trophy_cm: Option<u32>) -> (r: (u16, bool))
    ensures
        r.0 == (if quality == 20 {
            if 2 * rolled_cm > u16::MAX { u16::MAX as int } else { 2 * rolled_cm }
        } else {
            rolled_cm as int
        }),
        r.1 == (quality == 20 || (trophy_cm matches Some(t) && r.0 >= t)),
{
    let nat_twenty = quality == 20;
    let size_cm: u16 = if nat_twenty {
        if rolled_cm > 32767 { u16::MAX } else { rolled_cm * 2 }
    } else {
        rolled_cm
    };
    let trophy = nat_twenty || match trophy_cm {
        Some(t) => (size_cm as u32) >= t,
        None => false,
    };
    (size_cm, trophy)
}

/// The size of a fish rolled at `rolled_cm` for d20 `quality`: doubled
/// (saturating) on a natural 20.
pub open spec fn quality_size(rolled_cm: u16, quality: u32) -> int {
    if quality == 20 {
        if 2 * rolled_cm > u16::MAX { u16::MAX as int } else { 2 * rolled_cm }
    } else {
        rolled_cm as int
    }
}

/// The size and trophy flag of a bite on a fresh d20 quality roll: a
/// natural 20 doubles the rolled size (saturating) and makes a trophy;
/// any other roll keeps the size, a trophy when it reaches `trophy_cm`.
pub fn roll_size_and_trophy(rolled_cm: u16, trophy_cm: Option<u32>) -> (r: (u16, bool))
    ensures
        exists|quality: u32|
            1 <= quality <= 20 && r.0 == #[trigger] quality_size(rolled_cm, quality) && r.1 == (quality == 20 || (
            trophy_cm matches Some(t) && r.0 >= t)),
        r.0 >= rolled_cm,
        (trophy_cm matches Some(t) && r.0 >= t) ==> r.1,
{
    let quality = roll_u32_inclusive(1, 20);
    let r = fish_size_and_trophy(rolled_cm, quality, trophy_cm);
    assert(r.0 == quality_size(rolled_cm, quality));
    r
}

/// Why a cast is refused.
#[derive(Debug, Clone, Copy, PartialEq, Eq, Structural)]
pub enum CastRefusal {
    AlreadyFishing,
    Defeated,
    NotOutdoors,
    NoRod,
    OutOfRange,
    NotWater,
}

pub open spec fn cast_refusal_text(r: CastRefusal) -> Seq<char> {
    match r {
        CastRefusal::AlreadyFishing => "You are already fishing."@,
        CastRefusal::Defeated => "You cannot fish while defeated."@,
        CastRefusal::NotOutdoors => "You can only fish outdoors."@,
        CastRefusal::NoRod => "You need a fishing rod in your main hand."@,
        CastRefusal::OutOfRange => "That water is out of casting range."@,
        CastRefusal::NotWater => "You can only cast into water."@,
    }
}

impl CastRefusal {
    /// The message the angler is shown.
    pub fn message(&self) -> (r: &'static str)
        ensures
            r@ == cast_refusal_text(*self),
    {
        match self {
            CastRefusal::AlreadyFishing => "You are already fishing.",
            CastRefusal::Defeated => "You cannot fish while defeated.",
            CastRefusal::NotOutdoors => "You can only fish outdoors.",
            CastRefusal::NoRod => "You need a fishing rod in your main hand.",
            CastRefusal::OutOfRange => "That water is out of casting range.",
            CastRefusal::NotWater => "You can only cast into water.",
        }
    }
}

/// The checks of a cast, in the order they are made: not already fishing,
/// alive, outdoors, rod in the main hand, target in range, target on water.
pub fn cast_refusal(
    already_fishing: bool,
    alive: bool,
    floor: i8,
    has_rod: bool,
    in_range: bool,
    on_water: bool,
) -> (r: Option<CastRefusal>)
    ensures
        r == (if already_fishing {
            Some(CastRefusal::AlreadyFishing)
        } else if !alive {
            Some(CastRefusal::Defeated)
        } else if floor != FISHING_FLOOR {
            Some(CastRefusal::NotOutdoors)
        } else if !has_rod {
            Some(CastRefusal::NoRod)
        } else if !in_range {
            Some(CastRefusal::OutOfRange)
        } else if !on_water {
            Some(CastRefusal::NotWater)
        } else {
            None::<CastRefusal>
        }),
{
    if already_fishing {
        Some(CastRefusal::AlreadyFishing)
    } else if !alive {
        Some(CastRefusal::Defeated)
    } else if floor != FISHING_FLOOR {
        Some(CastRefusal::NotOutdoors)
    } else if !has_rod {
        Some(CastRefusal::NoRod)
    } else if !in_range {
        Some(CastRefusal::OutOfRange)
    } else if !on_water {
        Some(CastRefusal::NotWater)
    } else {
        None
    }
}

/// The waiting phase after the bobber lands at `now_ms`: the bite comes
/// after a wait drawn uniformly from `[WAIT_MIN_MS, WAIT_MAX_MS]` and
/// shortened by skill. Whatever the draw, the bite time is `now_ms` plus
/// `spec_roll_wait_ms` of some base in that range.
pub fn wait_phase(skill_level: u32, now_ms: u64) -> (p: FishingPhase)
    requires
        2 * skill_level <= u32::MAX,
        now_ms + WAIT_MAX_MS <= u64::MAX,
    ensures
        exists|base: u64|
            WAIT_MIN_MS <= base <= WAIT_MAX_MS && p == (FishingPhase::Waiting {
                bite_at_ms: (now_ms + #[trigger] spec_roll_wait_ms(base, skill_level)) as u64,
            }),
{
    let base = roll_u64_inclusive(WAIT_MIN_MS as u64, WAIT_MAX_MS as u64);
    let wait = roll_wait_ms(skill_level, base);
    proof {
        assert(spec_roll_wait_ms(base, skill_level) <= WAIT_MAX_MS) by {
            assert(base * crate::fishing::max_u(100 - 2 * skill_level, 0) / 100 <= base) by (nonlinear_arith)
                requires 0 <= crate::fishing::max_u(100 - 2 * skill_level, 0) <= 100, base >= 0;
        }
    }
    FishingPhase::Waiting { bite_at_ms: now_ms + wait }
}

/// Total effective weight of a catch table.
pub fn catch_total(candidates: &[CatchCandidate], skill_level: u32) -> (t: u64)
    requires
        weight_sum(catch_weights(candidates@, skill_level)) <= u64::MAX,
    ensures
        t == weight_sum(catch_weights(candidates@, skill_level)),
{
    let ghost ws = catch_weights(candidates@, skill_level);
    let mut total: u64 = 0;
    let mut i: usize = 0;
    while i < candidates.len()
        invariant
            ws == catch_weights(candidates@, skill_level),
            weight_sum(ws) <= u64::MAX,
            0 <= i <= candidates@.len(),
            total == weight_sum(ws.take(i as int)),
        decreases candidates@.len() - i,
    {
        proof {
            lemma_weight_sum_push(ws.take(i as int), ws[i as int]);
            assert(ws.take(i + 1) =~= ws.take(i as int).push(ws[i as int]));
            lemma_weight_sum_prefix(ws, i + 1);
        }
        let w = effective_weight(&candidates[i], skill_level);
        total = total + w;
        i = i + 1;
    }
    proof {
        assert(ws.take(candidates@.len() as int) =~= ws);
    }
    total
}

/// Draw the species that bites: nothing from an empty (or weightless)
/// table, else the weighted pick for a uniform roll below the total, which
/// always lands on an entry.
pub fn roll_catch(candidates: &[CatchCandidate], skill_level: u32) -> (r: Option<usize>)
    requires
        weight_sum(catch_weights(candidates@, skill_level)) <= u64::MAX,
    ensures
        weight_sum(catch_weights(candidates@, skill_level)) == 0 ==> r is None,
        weight_sum(catch_weights(candidates@, skill_level)) > 0 ==> exists|roll: u64|
            (roll as int) < weight_sum(catch_weights(candidates@, skill_level)) && r == match #[trigger] weighted_pick(
                catch_weights(candidates@, skill_level),
                roll as int,
            ) {
                Some(i) => Some(i as usize),
                None => None::<usize>,
            } && r is Some,
        r matches Some(i) ==> i < candidates@.len(),
{
    if candidates.len() == 0 {
        proof {
            assert(catch_weights(candidates@, skill_level) =~= Seq::<int>::empty());
        }
        return None;
    }
    let total = catch_total(candidates, skill_level);
    if total == 0 {
        return None;
    }
    let roll = roll_u64_below(total);
    let r = pick_catch(candidates, skill_level, roll);
    proof {
        lemma_pick_in_range(catch_weights(candidates@, skill_level), roll as int);
    }
    r
}

} // verus!
