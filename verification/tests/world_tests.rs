use onlinerpg::dungeon_runtime::{chest_refusal, guardian_alive, roll_chest_loot, ChestRefusal, SpawnSlot, CHEST_COOLDOWN_MS};
use onlinerpg::entity::{AiState, BroadcastMessage, MonsterState};
use onlinerpg::housing::{RoofRidgeDir, RoofType, RoomType};
use onlinerpg::inventory::ItemInstance;
use onlinerpg::merchants::{MerchantDefinition, MerchantDefs};
use onlinerpg::passability::FloorGrid;
use onlinerpg::chat::escape_locked;
use onlinerpg::pathing::{is_cardinal_move_blocked, is_line_passable, smooth_path, CellWaypoint, PassEntry};
use onlinerpg::rivers::{
    bake_rivers_binary, RiverSegment, RIVER_BIN_HEADER_SIZE, RIVER_BIN_SEGMENT_SIZE, RIVER_BIN_VERSION,
};
use onlinerpg::trading::{plan_buy, plan_sell, settle_buy, settle_sell, TradeRefusal, TraderKind};
use std::sync::Arc;

const RIVER_BIN_MAGIC: &[u8; 4] = b"RIV1";

fn seg(ax: f32, az: f32, bx: f32, bz: f32, fa: f32, fb: f32, wa: f32, wb: f32) -> RiverSegment {
    RiverSegment {
        ax: ax.to_bits(),
        az: az.to_bits(),
        bx: bx.to_bits(),
        bz: bz.to_bits(),
        flow_norm_a: fa.to_bits(),
        flow_norm_b: fb.to_bits(),
        width_a: wa.to_bits(),
        width_b: wb.to_bits(),
    }
}

#[test]
fn river_binary_round_trip() {
    assert!(bake_rivers_binary(&[]).is_none());
    let segs = vec![
        seg(-10.5, 7.25, 20.0, -8.0, 0.125, 0.875, 2.0, 8.0),
        seg(20.0, -8.0, 22.5, -10.0, 0.875, 1.0, 8.0, 10.0),
    ];
    let bytes = bake_rivers_binary(&segs).expect("non-empty segments encode");
    assert_eq!(bytes.len(), RIVER_BIN_HEADER_SIZE + segs.len() * RIVER_BIN_SEGMENT_SIZE);
    assert_eq!(&bytes[0..4], RIVER_BIN_MAGIC);
    assert_eq!(u16::from_le_bytes([bytes[4], bytes[5]]), RIVER_BIN_VERSION);
    assert_eq!(u16::from_le_bytes([bytes[6], bytes[7]]), segs.len() as u16);
    let read_f32 = |off: usize| -> f32 {
        f32::from_le_bytes([bytes[off], bytes[off + 1], bytes[off + 2], bytes[off + 3]])
    };
    let f = f32::from_bits;
    assert_eq!(read_f32(16), f(segs[0].ax));
    assert_eq!(read_f32(20), f(segs[0].az));
    assert_eq!(read_f32(24), f(segs[0].bx));
    assert_eq!(read_f32(28), f(segs[0].bz));
    assert_eq!(read_f32(32), f(segs[0].width_a));
    assert_eq!(read_f32(36), f(segs[0].width_b));
    assert_eq!(read_f32(40), f(segs[0].flow_norm_a));
    assert_eq!(read_f32(44), f(segs[0].flow_norm_b));
    assert_eq!(read_f32(48), f(segs[1].ax));
    assert_eq!(read_f32(8), 0.0);
}

fn item(id: u64, def: &str, quantity: u32, enchant: i32) -> ItemInstance {
    ItemInstance {
        instance_id: id,
        item_def_id: def.to_string(),
        quantity,
        enchant,
    }
}

#[test]
fn purchases_are_checked_in_order() {
    let npc_bag = vec![item(7, "torch", 2, 0)];
    let r = |kind, cat, wish, priced, gold, carry| {
        plan_buy(kind, cat, wish, priced, 100, gold, true, carry, Some(&npc_bag), "torch")
    };
    assert_eq!(r(TraderKind::Merchant, false, false, true, Some(500), true), Err(TradeRefusal::NotInCatalog));
    assert_eq!(r(TraderKind::Resident, true, true, true, Some(500), true), Err(TradeRefusal::WontPart));
    assert_eq!(r(TraderKind::Merchant, true, false, false, Some(500), true), Err(TradeRefusal::NoPrice));
    assert_eq!(r(TraderKind::Merchant, true, false, true, None, true), Err(TradeRefusal::NoWallet));
    assert_eq!(r(TraderKind::Merchant, true, false, true, Some(99), true), Err(TradeRefusal::NotEnoughGold));
    assert_eq!(r(TraderKind::Merchant, true, false, true, Some(100), false), Err(TradeRefusal::TooHeavy));
    assert_eq!(r(TraderKind::Merchant, true, false, true, Some(100), true), Ok(None));
    assert_eq!(r(TraderKind::Resident, false, false, true, Some(100), true), Ok(Some(0)));
    assert_eq!(
        plan_buy(TraderKind::Resident, false, false, true, 100, Some(100), true, true, Some(&npc_bag), "spear"),
        Err(TradeRefusal::OutOfItem)
    );
    assert_eq!(
        plan_buy(TraderKind::Resident, false, false, true, 100, Some(100), true, true, None, "torch"),
        Err(TradeRefusal::NothingToSell)
    );
    assert_eq!(TradeRefusal::NotEnoughGold.message(), Some("Not enough gold"));
    assert_eq!(TradeRefusal::NoWallet.message(), None);
}

#[test]
fn a_resident_sale_moves_goods_and_gold() {
    let mut buyer_bag = vec![item(1, "bread", 1, 0)];
    let mut buyer_gold = 500u64;
    let mut npc_bag = vec![item(7, "torch", 2, 0)];
    let mut npc_gold = 10u64;
    settle_buy(&mut buyer_bag, &mut buyer_gold, &mut npc_bag, &mut npc_gold, Some(0), 42, "torch", 120);
    assert_eq!(buyer_gold, 380);
    assert_eq!(npc_gold, 130);
    assert_eq!(npc_bag[0].quantity, 1);
    assert_eq!(buyer_bag.len(), 2);
    assert_eq!(buyer_bag[1].instance_id, 42);
    assert_eq!(buyer_bag[1].item_def_id, "torch");

    // Selling the +3 sword back keeps its enchantment in the resident's bag.
    let mut seller_bag = vec![item(9, "iron_sword", 1, 3)];
    let mut seller_gold = 0u64;
    let k = plan_sell(TraderKind::Resident, &seller_bag, 9, true, true, 50, true, npc_gold, true, true).unwrap();
    settle_sell(TraderKind::Resident, &mut seller_bag, &mut seller_gold, &mut npc_bag, &mut npc_gold, k, 77, 50);
    assert!(seller_bag.is_empty());
    assert_eq!(seller_gold, 50);
    assert_eq!(npc_gold, 80);
    assert_eq!(npc_bag.last().unwrap().enchant, 3);
    assert_eq!(npc_bag.last().unwrap().instance_id, 77);
    assert_eq!(
        plan_sell(TraderKind::Resident, &vec![item(9, "iron_sword", 1, 0)], 9, true, false, 50, true, 500, true, true),
        Err(TradeRefusal::NoUse)
    );
    assert_eq!(
        plan_sell(TraderKind::Resident, &vec![item(9, "torch", 1, 0)], 9, true, true, 50, true, 49, true, true),
        Err(TradeRefusal::CannotAfford)
    );
    assert_eq!(
        plan_sell(TraderKind::Merchant, &vec![item(9, "torch", 1, 0)], 8, true, true, 50, true, 0, true, true),
        Err(TradeRefusal::ItemNotFound)
    );
}

#[test]
fn the_chest_opens_once_per_cooldown() {
    assert_eq!(chest_refusal(5, -4, true, false, None, 0), Some(ChestRefusal::NotDeepest));
    assert_eq!(chest_refusal(5, -5, false, false, None, 0), Some(ChestRefusal::TooFar));
    assert_eq!(chest_refusal(5, -5, true, true, None, 0), Some(ChestRefusal::GuardianLives));
    assert_eq!(chest_refusal(5, -5, true, false, Some(1_000), 1_000 + CHEST_COOLDOWN_MS - 1), Some(ChestRefusal::Emptied));
    assert_eq!(chest_refusal(5, -5, true, false, Some(1_000), 1_000 + CHEST_COOLDOWN_MS), None);
    assert_eq!(chest_refusal(5, -5, true, false, None, 0), None);
    let slots = vec![
        SpawnSlot { alive_monster_id: Some("m1".into()), respawn_at_ms: 0, is_boss: false },
        SpawnSlot { alive_monster_id: Some(String::new()), respawn_at_ms: 0, is_boss: true },
    ];
    assert!(!guardian_alive(&slots));
    let slots = vec![SpawnSlot { alive_monster_id: Some("boss".into()), respawn_at_ms: 0, is_boss: true }];
    assert!(guardian_alive(&slots));
    for _ in 0..50 {
        let pool: Vec<String> = vec!["a".into(), "b".into(), "c".into(), "d".into()];
        let (items, gold) = roll_chest_loot(pool.clone(), 5);
        assert!(items.len() == 2 || items.len() == 3);
        assert!(items.iter().all(|i| pool.contains(i)));
        assert!((2_500..=7_500).contains(&gold));
        let (items, _) = roll_chest_loot(vec!["only".into()], 1);
        assert_eq!(items, vec!["only".to_string()]);
    }
}

#[test]
fn merchants_are_found_by_npc_name() {
    let defs = MerchantDefs::from_definitions(vec![
        MerchantDefinition {
            id: "smith".into(),
            npc_name: "Rica".into(),
            sell_rate_percent: 40,
            catalog: vec!["iron_sword".into(), "dagger".into()],
        },
        MerchantDefinition {
            id: "grocer".into(),
            npc_name: "Tom".into(),
            sell_rate_percent: 30,
            catalog: vec![],
        },
    ]);
    let rica = defs.get_by_npc_name("Rica").expect("Rica trades");
    assert_eq!(rica.id, "smith");
    assert!(rica.sells("dagger"));
    assert!(!rica.sells("torch"));
    assert!(defs.get_by_npc_name("Nobody").is_none());
    assert!(!defs.get_by_npc_name("Tom").unwrap().sells("iron_sword"));
}

#[test]
fn ai_states_show_as_network_states() {
    assert_eq!(AiState::Flee.to_monster_state(), MonsterState::Run);
    assert_eq!(AiState::Return.to_monster_state(), MonsterState::Walk);
    assert_eq!(AiState::Attack.to_monster_state(), MonsterState::Attack);
    assert_eq!(MonsterState::Dead.as_str(), "dead");
    assert_eq!(MonsterState::Idle.as_str(), "idle");
    let msg = BroadcastMessage { bytes: Arc::new(vec![1, 2]), skip_player_id: Some(3) };
    assert!(!msg.is_for(3));
    assert!(msg.is_for(4));
    assert_eq!(RoomType::default(), RoomType::Normal);
    assert_eq!(RoofType::default(), RoofType::Flat);
    assert_eq!(RoofRidgeDir::default(), RoofRidgeDir::Auto);
}

fn walled_entry() -> PassEntry {
    // A 3x3 grid at cells (10..13, 20..23) on floor 4 whose middle cell is
    // walled on its east side.
    let mut cells = vec![0u8; 9];
    cells[1 + 3] = 2;
    PassEntry {
        min_x: 10,
        max_x: 13,
        min_z: 20,
        max_z: 23,
        origin_x: 8,
        origin_z: 20,
        floors: vec![FloorGrid { floor_level: 4, origin_x: 2, origin_z: 0, width: 3, depth: 3, cells }],
    }
}

#[test]
fn cardinal_moves_are_blocked_by_either_side_of_a_wall() {
    let cache = vec![walled_entry()];
    assert!(is_cardinal_move_blocked(&cache, 11, 21, 1, 0, 4));
    // Entering the walled side from the east is blocked too.
    assert!(is_cardinal_move_blocked(&cache, 12, 21, -1, 0, 4));
    assert!(!is_cardinal_move_blocked(&cache, 11, 21, 0, 1, 4));
    // Another floor level, or a non-cardinal step, is never blocked.
    assert!(!is_cardinal_move_blocked(&cache, 11, 21, 1, 0, 0));
    assert!(!is_cardinal_move_blocked(&cache, 11, 21, 1, 1, 4));
    // Far outside the entry's box: culled.
    assert!(!is_cardinal_move_blocked(&cache, 100, 21, 1, 0, 4));
}

#[test]
fn line_of_sight_stops_at_walls_and_corner_gaps() {
    let cache = vec![walled_entry()];
    assert!(is_line_passable(&cache, 4, 10, 21, 10, 21));
    assert!(is_line_passable(&cache, 4, 10, 20, 12, 20));
    assert!(!is_line_passable(&cache, 4, 10, 21, 12, 21));
    // A diagonal step needs both L-shaped detours clear.
    assert!(!is_line_passable(&cache, 4, 11, 20, 12, 22));
    // The wall stands on floor 4 only.
    assert!(is_line_passable(&cache, 0, 10, 21, 12, 21));
}

fn wp(x: i32, z: i32, floor: u8) -> CellWaypoint {
    CellWaypoint { x, z, floor }
}

#[test]
fn smoothing_collapses_runs_up_to_the_first_blocked_sight_line() {
    let cache = vec![walled_entry()];
    let path = vec![wp(10, 20, 4), wp(11, 20, 4), wp(12, 20, 4), wp(12, 21, 4)];
    assert_eq!(smooth_path(&path, &cache), vec![0, 2, 3]);
    let open: Vec<PassEntry> = Vec::new();
    let straight = vec![wp(0, 0, 1), wp(1, 0, 1), wp(2, 0, 1), wp(3, 0, 1), wp(4, 0, 1)];
    assert_eq!(smooth_path(&straight, &open), vec![0, 4]);
    assert_eq!(smooth_path(&straight[..2], &open), vec![0, 1]);
    assert_eq!(smooth_path(&straight[..0], &open), Vec::<usize>::new());
}

#[test]
fn smoothing_keeps_floor_seams_cardinal() {
    let open: Vec<PassEntry> = Vec::new();
    let path = vec![wp(0, 0, 0), wp(1, 0, 0), wp(2, 0, 1), wp(3, 0, 1), wp(4, 0, 1)];
    assert_eq!(smooth_path(&path, &open), vec![0, 1, 2, 3, 4]);
}

#[test]
fn resident_trades_create_no_gold_and_no_goods() {
    let units = |bag: &Vec<ItemInstance>, def: &str| -> u32 {
        bag.iter().filter(|i| i.item_def_id == def).map(|i| i.quantity).sum()
    };
    let mut player_bag = vec![item(1, "wolf_pelt", 3, 0)];
    let mut player_gold = 40u64;
    let mut npc_bag = vec![item(5, "lantern", 2, 0)];
    let mut npc_gold = 300u64;
    let k = plan_sell(TraderKind::Resident, &player_bag, 1, true, true, 25, true, npc_gold, true, true).unwrap();
    settle_sell(TraderKind::Resident, &mut player_bag, &mut player_gold, &mut npc_bag, &mut npc_gold, k, 60, 25);
    assert_eq!(player_gold + npc_gold, 340);
    assert_eq!(units(&player_bag, "wolf_pelt") + units(&npc_bag, "wolf_pelt"), 3);
    let stack = plan_buy(TraderKind::Resident, false, false, true, 60, Some(player_gold), true, true, Some(&npc_bag), "lantern")
        .unwrap();
    assert_eq!(stack, Some(0));
    settle_buy(&mut player_bag, &mut player_gold, &mut npc_bag, &mut npc_gold, stack, 61, "lantern", 60);
    assert_eq!(player_gold + npc_gold, 340);
    assert_eq!(units(&player_bag, "lantern") + units(&npc_bag, "lantern"), 2);
}

#[test]
fn smoothed_jumps_go_to_the_next_waypoint_or_along_a_clear_line() {
    let cache = vec![walled_entry()];
    let path = vec![wp(10, 20, 4), wp(11, 20, 4), wp(12, 20, 4), wp(12, 21, 4), wp(11, 22, 4), wp(10, 22, 4)];
    let kept = smooth_path(&path, &cache);
    assert_eq!(kept[0], 0);
    assert_eq!(*kept.last().unwrap(), path.len() - 1);
    for pair in kept.windows(2) {
        let (a, b) = (path[pair[0]], path[pair[1]]);
        assert!(pair[0] < pair[1]);
        assert!(
            pair[1] == pair[0] + 1 || (a.floor == b.floor && is_line_passable(&cache, a.floor, a.x, a.z, b.x, b.z)),
            "jump {pair:?}"
        );
    }
}

#[test]
fn escape_is_locked_inside_the_combat_window() {
    assert!(escape_locked(1_000, 0, 5_000));
    assert!(!escape_locked(5_000, 0, 5_000));
    assert!(!escape_locked(90_000, 10_000, 5_000));
    assert!(escape_locked(0, 100, 1), "a clock behind the last combat counts as no time passed");
}
