use onlinerpg::fishing::{
    effective_weight, pick_catch, roll_wait_ms, struggle_rounds, struggle_window_ms,
    tension_miss_penalty, CatchCandidate, FishState, FishingAction, STRUGGLE_MIN_WINDOW_MS,
    TENSION_MAX, WAIT_MAX_MS, WAIT_MIN_MS,
};
use onlinerpg::fishing_session::{
    advance_struggle, begin_struggle, cast_refusal, catch_xp, fish_size_and_trophy, fishing_due,
    miss_round, respond, roll_catch, roll_size_and_trophy, wait_phase, CastRefusal, FishingDue, FishingPhase,
    FishingVerdict, StruggleNext,
};
use onlinerpg::mining::{
    book_strike, effective_ore_weight, miner_refusal, ore_total, ore_xp, pick_ore, roll_strike,
    strike_hits, strike_interval_ms, strike_ore, vein_refusal, MiningRefusal, MiningTally,
    OreCandidate,
};
use onlinerpg::woodcutting::{
    chop_due, chop_refusal, is_valid_tree_kind, land_swing, log_item_id, start_progress,
    swings_after_skill, xp_for_logs, ChopDue, ChopRefusal, SWING_MS,
};
use rand::rngs::StdRng;
use rand::{Rng, SeedableRng};

fn catch_table() -> Vec<CatchCandidate> {
    vec![
        CatchCandidate {
            item_def_id: "raw_minnow".into(),
            rarity: 1,
            catch_weight: 50,
        },
        CatchCandidate {
            item_def_id: "golden_carp".into(),
            rarity: 5,
            catch_weight: 1,
        },
    ]
}

fn ore_table() -> Vec<OreCandidate> {
    vec![
        OreCandidate {
            item_def_id: "chunk_of_stone".into(),
            rarity: 1,
            ore_weight: 45,
        },
        OreCandidate {
            item_def_id: "gold_ore".into(),
            rarity: 5,
            ore_weight: 2,
        },
    ]
}

#[test]
fn weighting_scales_rarity_with_skill() {
    let t = catch_table();
    assert_eq!(effective_weight(&t[0], 0), 50);
    assert_eq!(effective_weight(&t[1], 0), 1);
    assert_eq!(effective_weight(&t[0], 20), 70);
    assert_eq!(effective_weight(&t[1], 20), 101);
}

#[test]
fn fishing_pick_walks_cumulative_weights() {
    let t = catch_table();
    assert_eq!(pick_catch(&t, 0, 0), Some(0));
    assert_eq!(pick_catch(&t, 0, 49), Some(0));
    assert_eq!(pick_catch(&t, 0, 50), Some(1));
    assert_eq!(pick_catch(&t, 0, 51), None);
}

#[test]
fn wait_shortens_with_skill_but_keeps_a_floor() {
    let mut rng = rand::thread_rng();
    for _ in 0..200 {
        let base = rng.gen_range(u64::from(WAIT_MIN_MS)..=u64::from(WAIT_MAX_MS));
        let novice = roll_wait_ms(0, base);
        assert!((u64::from(WAIT_MIN_MS)..=u64::from(WAIT_MAX_MS)).contains(&novice));
        let base = rng.gen_range(u64::from(WAIT_MIN_MS)..=u64::from(WAIT_MAX_MS));
        let master = roll_wait_ms(20, base);
        assert!(master >= u64::from(WAIT_MIN_MS) / 2);
        assert!(master <= u64::from(WAIT_MAX_MS) * 60 / 100);
    }
}

#[test]
fn struggle_scales_with_rarity_and_skill() {
    assert_eq!(struggle_rounds(1), 3);
    assert_eq!(struggle_rounds(5), 7);
    assert_eq!(struggle_window_ms(1, 0), 3_000);
    assert_eq!(struggle_window_ms(5, 0), 2_400);
    assert_eq!(struggle_window_ms(5, 10), 3_000);
    assert!(struggle_window_ms(5, 0) >= STRUGGLE_MIN_WINDOW_MS);
    assert_eq!(tension_miss_penalty(0), 35);
    assert_eq!(tension_miss_penalty(1), 35);
    assert_eq!(tension_miss_penalty(5), 55);
    assert!(
        struggle_rounds(0) * tension_miss_penalty(0) >= TENSION_MAX,
        "all-wrong play must always escape, even on junk"
    );
}

#[test]
fn correct_actions_answer_states() {
    assert_eq!(FishState::Pulling.correct_action(), FishingAction::GiveLine);
    assert_eq!(FishState::Tiring.correct_action(), FishingAction::Reel);
}

#[test]
fn weighting_scales_rarity_with_skill_and_altitude() {
    let t = ore_table();
    assert_eq!(effective_ore_weight(&t[0], 0, 0), 45);
    assert_eq!(effective_ore_weight(&t[1], 0, 0), 2);
    assert_eq!(effective_ore_weight(&t[0], 20, 5), 70);
    assert_eq!(effective_ore_weight(&t[1], 20, 5), 127);
}

#[test]
fn mining_pick_walks_cumulative_weights() {
    let t = ore_table();
    assert_eq!(pick_ore(&t, 0, 0, 0), Some(0));
    assert_eq!(pick_ore(&t, 0, 0, 44), Some(0));
    assert_eq!(pick_ore(&t, 0, 0, 45), Some(1));
    assert_eq!(pick_ore(&t, 0, 0, 46), Some(1));
    assert_eq!(pick_ore(&t, 0, 0, 47), None);
}

#[test]
fn strike_odds_improve_with_skill_but_nat_one_misses() {
    let mut hits_novice = 0u32;
    let mut hits_master = 0u32;
    for seed in 0..2_000u64 {
        let mut rng = StdRng::seed_from_u64(seed);
        let roll: i32 = rng.gen_range(1..=20);
        if strike_hits(0, roll) {
            hits_novice += 1;
        }
        let mut rng = StdRng::seed_from_u64(seed);
        let roll: i32 = rng.gen_range(1..=20);
        if strike_hits(20, roll) {
            hits_master += 1;
        }
    }
    assert!(hits_master > hits_novice);
    assert!((1_100..=1_500).contains(&hits_novice), "{hits_novice}");
    assert!((1_800..=1_950).contains(&hits_master), "{hits_master}");
}

#[test]
fn strike_interval_shortens_with_skill_but_keeps_a_floor() {
    assert_eq!(strike_interval_ms(0), 2_800);
    assert_eq!(strike_interval_ms(10), 2_240);
    assert_eq!(strike_interval_ms(20), 1_680);
    assert_eq!(strike_interval_ms(200), 1_680);
}

#[test]
fn every_kind_maps_to_a_log_item() {
    assert_eq!(log_item_id(0), Some("oak_log"));
    assert_eq!(log_item_id(1), Some("timber_log"));
    assert_eq!(log_item_id(2), None);
    assert!(is_valid_tree_kind(0) && is_valid_tree_kind(1));
    assert!(!is_valid_tree_kind(2));
}

#[test]
fn strike_resolution_follows_the_d20_and_the_table() {
    let t = ore_table();
    // A natural 1 never breaks ore, whatever the ore roll.
    assert_eq!(strike_ore(&t, 20, 0, 1, 0), None);
    // Level 0 needs 8 on the die.
    assert_eq!(strike_ore(&t, 0, 0, 7, 0), None);
    assert_eq!(strike_ore(&t, 0, 0, 8, 0), Some(0));
    assert_eq!(strike_ore(&t, 0, 0, 8, 46), Some(1));
    assert_eq!(ore_total(&t, 0, 0), 47);
    assert_eq!(ore_total(&t, 20, 5), 197);
    assert_eq!(strike_ore(&[], 0, 0, 20, 0), None);
    for _ in 0..100 {
        let r = roll_strike(&t, 20, 5);
        assert!(r.map_or(true, |i| i < t.len()));
    }
}

#[test]
fn strike_bookkeeping_drains_the_vein() {
    let mut tally = MiningTally {
        yield_remaining: 2,
        ores_gained: 0,
    };
    assert!(!book_strike(&mut tally, false));
    assert_eq!(tally, MiningTally { yield_remaining: 2, ores_gained: 0 });
    assert!(!book_strike(&mut tally, true));
    assert_eq!(tally, MiningTally { yield_remaining: 1, ores_gained: 1 });
    assert!(book_strike(&mut tally, true));
    assert_eq!(tally, MiningTally { yield_remaining: 0, ores_gained: 2 });
    assert_eq!(ore_xp(5), 75);
    assert_eq!(ore_xp(1), 3);
}

#[test]
fn mining_checks_run_in_order() {
    assert_eq!(miner_refusal(true, false, 1, false), Some(MiningRefusal::AlreadyMining));
    assert_eq!(miner_refusal(false, false, 1, false), Some(MiningRefusal::Defeated));
    assert_eq!(miner_refusal(false, true, -3, true), Some(MiningRefusal::NotOutdoors));
    assert_eq!(miner_refusal(false, true, 0, false), Some(MiningRefusal::NoPickaxe));
    assert_eq!(miner_refusal(false, true, 0, true), None);
    assert_eq!(vein_refusal(true, true), Some(MiningRefusal::VeinSpent));
    assert_eq!(vein_refusal(false, true), Some(MiningRefusal::VeinTaken));
    assert_eq!(vein_refusal(false, false), None);
    assert_eq!(MiningRefusal::NoPickaxe.message(), "You need a pickaxe in your main hand.");
}

#[test]
fn fishing_tick_reaps_only_after_double_grace() {
    assert_eq!(fishing_due(&FishingPhase::Casting { until_ms: 100 }, false, 0), FishingDue::PlayerGone);
    assert_eq!(fishing_due(&FishingPhase::Casting { until_ms: 100 }, true, 99), FishingDue::Nothing);
    assert_eq!(fishing_due(&FishingPhase::Casting { until_ms: 100 }, true, 100), FishingDue::BobberLanded);
    assert_eq!(fishing_due(&FishingPhase::Waiting { bite_at_ms: 50 }, true, 60), FishingDue::Bite);
    // Bite window 2500 + twice the 500 ms grace.
    assert_eq!(fishing_due(&FishingPhase::Bite { since_ms: 1000 }, true, 4499), FishingDue::Nothing);
    assert_eq!(fishing_due(&FishingPhase::Bite { since_ms: 1000 }, true, 4500), FishingDue::Expired);
    let round = FishingPhase::Struggle {
        round: 1,
        total_rounds: 3,
        fish_state: FishState::Pulling,
        deadline_ms: 5000,
        responded: false,
        tension: 0,
    };
    assert_eq!(fishing_due(&round, true, 5999), FishingDue::Nothing);
    assert_eq!(fishing_due(&round, true, 6000), FishingDue::StruggleMissed);
}

#[test]
fn responses_are_judged_against_server_deadlines() {
    let mut p = FishingPhase::Waiting { bite_at_ms: 10 };
    assert_eq!(respond(&mut p, FishingAction::Hook, 5, 1), FishingVerdict::TooEarly);
    let mut p = FishingPhase::Bite { since_ms: 1000 };
    assert_eq!(respond(&mut p, FishingAction::Hook, 4000, 1), FishingVerdict::Hooked);
    assert_eq!(respond(&mut p, FishingAction::Hook, 4001, 1), FishingVerdict::TooLate);
    assert_eq!(respond(&mut p, FishingAction::Reel, 2000, 1), FishingVerdict::TooEarly);
}

#[test]
fn a_struggle_runs_round_by_round() {
    let mut p = begin_struggle(1, 0, FishState::Pulling, 10_000);
    assert_eq!(
        p,
        FishingPhase::Struggle {
            round: 1,
            total_rounds: 3,
            fish_state: FishState::Pulling,
            deadline_ms: 13_000,
            responded: false,
            tension: 0,
        }
    );
    // A wrong answer in time costs the miss penalty.
    assert_eq!(
        respond(&mut p, FishingAction::Reel, 11_000, 1),
        FishingVerdict::RoundAnswered { correct: false, tension: 35 }
    );
    // A second answer to the same round is ignored.
    assert_eq!(respond(&mut p, FishingAction::GiveLine, 11_100, 1), FishingVerdict::Duplicate);
    assert_eq!(advance_struggle(&mut p, 1, 0, FishState::Tiring, 12_000), StruggleNext::NextRound);
    // The right answer inside the grace relieves tension.
    assert_eq!(
        respond(&mut p, FishingAction::Reel, 15_500, 1),
        FishingVerdict::RoundAnswered { correct: true, tension: 25 }
    );
    assert_eq!(advance_struggle(&mut p, 1, 0, FishState::Pulling, 16_000), StruggleNext::NextRound);
    // Nobody answers the last round: the reaper counts a miss.
    assert_eq!(miss_round(&mut p, 1), Some(60));
    assert_eq!(miss_round(&mut p, 1), None);
    assert_eq!(advance_struggle(&mut p, 1, 0, FishState::Pulling, 20_000), StruggleNext::Caught);
    let mut snapped = FishingPhase::Struggle {
        round: 1,
        total_rounds: 7,
        fish_state: FishState::Tiring,
        deadline_ms: 0,
        responded: true,
        tension: 110,
    };
    assert_eq!(advance_struggle(&mut snapped, 5, 0, FishState::Tiring, 0), StruggleNext::Escaped);
    let mut idle = FishingPhase::Casting { until_ms: 0 };
    assert_eq!(advance_struggle(&mut idle, 1, 0, FishState::Tiring, 0), StruggleNext::NotStruggling);
}

#[test]
fn catch_rewards_and_trophies() {
    assert_eq!(catch_xp(1), 10);
    assert_eq!(catch_xp(5), 250);
    assert_eq!(fish_size_and_trophy(30, 20, None), (60, true));
    assert_eq!(fish_size_and_trophy(40_000, 20, None), (u16::MAX, true));
    assert_eq!(fish_size_and_trophy(30, 19, Some(30)), (30, true));
    assert_eq!(fish_size_and_trophy(29, 19, Some(30)), (29, false));
    assert_eq!(fish_size_and_trophy(29, 3, None), (29, false));
}

#[test]
fn casts_are_checked_in_order() {
    assert_eq!(cast_refusal(true, true, 0, true, true, true), Some(CastRefusal::AlreadyFishing));
    assert_eq!(cast_refusal(false, false, 0, true, true, true), Some(CastRefusal::Defeated));
    assert_eq!(cast_refusal(false, true, 2, true, true, true), Some(CastRefusal::NotOutdoors));
    assert_eq!(cast_refusal(false, true, 0, false, true, true), Some(CastRefusal::NoRod));
    assert_eq!(cast_refusal(false, true, 0, true, false, true), Some(CastRefusal::OutOfRange));
    assert_eq!(cast_refusal(false, true, 0, true, true, false), Some(CastRefusal::NotWater));
    assert_eq!(cast_refusal(false, true, 0, true, true, true), None);
    assert_eq!(CastRefusal::NotWater.message(), "You can only cast into water.");
}

#[test]
fn drawn_waits_and_catches_stay_in_range() {
    for _ in 0..200 {
        match wait_phase(0, 1_000) {
            FishingPhase::Waiting { bite_at_ms } => {
                assert!((1_000 + u64::from(WAIT_MIN_MS)..=1_000 + u64::from(WAIT_MAX_MS)).contains(&bite_at_ms));
            }
            other => panic!("expected a wait, got {other:?}"),
        }
        let t = catch_table();
        let r = roll_catch(&t, 3);
        assert!(matches!(r, Some(0) | Some(1)));
    }
    assert_eq!(roll_catch(&[], 3), None);
}

#[test]
fn chopping_swings_on_its_clock() {
    let mut p = start_progress(3, 1_000);
    assert_eq!(p.next_swing_at_ms, 1_000 + u64::from(SWING_MS));
    assert_eq!(chop_due(&p, true, 2_000), ChopDue::Nothing);
    assert_eq!(chop_due(&p, true, 2_500), ChopDue::Swing);
    assert_eq!(chop_due(&p, false, 2_500), ChopDue::PlayerGone);
    assert!(!land_swing(&mut p, 2_500));
    assert_eq!(p.next_swing_at_ms, 4_000);
    assert!(!land_swing(&mut p, 4_000));
    assert!(land_swing(&mut p, 5_500));
    assert_eq!(p.swings_done, 3);
}

#[test]
fn felling_takes_at_least_three_swings() {
    assert_eq!(swings_after_skill(10, 0), 10);
    assert_eq!(swings_after_skill(10, 30), 5);
    assert_eq!(swings_after_skill(4, 30), 3);
    assert_eq!(swings_after_skill(0, u32::MAX), 3);
    assert_eq!(xp_for_logs(0, 4), 48);
    assert_eq!(xp_for_logs(1, 2), 12);
    assert_eq!(xp_for_logs(9, 1), 6);
}

#[test]
fn chops_are_checked_in_order() {
    assert_eq!(
        chop_refusal(false, true, 0, true, true, true, 5, 10, false),
        Some(ChopRefusal::TooMighty { required: 10 })
    );
    assert_eq!(chop_refusal(false, true, 0, true, true, true, 10, 10, true), Some(ChopRefusal::TreeTaken));
    assert_eq!(chop_refusal(false, true, 0, true, false, true, 10, 10, false), Some(ChopRefusal::NoTree));
    assert_eq!(chop_refusal(false, true, 0, true, true, true, 10, 10, false), None);
}

#[test]
fn a_quality_roll_keeps_or_doubles_the_size() {
    let mut doubled = 0;
    for _ in 0..2000 {
        let (size, trophy) = roll_size_and_trophy(30, Some(50));
        assert!(size == 30 || size == 60, "size {size}");
        assert_eq!(trophy, size == 60);
        if size == 60 {
            doubled += 1;
        }
        let (size, trophy) = roll_size_and_trophy(40_000, None);
        assert!(size == 40_000 || size == u16::MAX);
        assert_eq!(trophy, size == u16::MAX);
        assert!(roll_size_and_trophy(12, Some(10)).1, "already a trophy");
    }
    assert!(doubled > 0, "a natural 20 comes up about once in twenty rolls");
}
