use onlinerpg::inventory::{
    equip_by_id, expired_ground_items, healed_health, item_use_effect, main_hand_is, read_enchant_scroll, tool_lost,
    use_enchant_scroll, EnchantOutcome, EnchantRefusal,
    EquipRefusal, EquipSlot, UseRefusal,
    HealRefusal, ItemInstance, PlayerInventory, GROUND_ITEM_LIFETIME_MS,
};
use onlinerpg::trading::{on_wishlist, plan_buy, plan_sell, resident_stock, TradeRefusal, TraderKind};
use onlinerpg::item_defs::{ItemDefinition, ItemDefs, UseEffect};

fn def(id: &str, category: Option<&str>) -> ItemDefinition {
    ItemDefinition {
        id: id.to_string(),
        name: id.to_string(),
        equip_slot: None,
        stackable: false,
        world_model: None,
        category: category.map(str::to_string),
        dice: None,
        base_price: None,
        rarity_tier: None,
        catch_weight: None,
        trophy_cm: None,
    }
}

fn priced_gear(id: &str, category: &str, slot: EquipSlot, price: Option<i64>) -> ItemDefinition {
    let mut d = def(id, Some(category));
    d.equip_slot = Some(slot);
    d.base_price = price;
    d
}

fn catch(id: &str, category: &str, rarity: Option<u32>, weight: u32) -> ItemDefinition {
    let mut d = def(id, Some(category));
    d.rarity_tier = rarity;
    d.catch_weight = Some(weight);
    d
}

#[test]
fn fishing_rod_is_not_dungeon_chest_treasure() {
    let defs = ItemDefs::from_definitions(vec![
        // Priced above the floor: the category alone keeps it out.
        priced_gear("fishing_rod", "fishing_rod", EquipSlot::MainHand, Some(3000)),
        priced_gear("iron_sword", "weapon", EquipSlot::MainHand, Some(2500)),
    ])
    .unwrap();
    let pool = defs.equipment_ids_with_min_price(2000);
    assert!(!pool.contains(&"fishing_rod".to_string()));
    assert!(pool.contains(&"iron_sword".to_string()));
}

#[test]
fn catch_table_spans_fish_junk_and_coins() {
    let defs = ItemDefs::from_definitions(vec![
        catch("raw_minnow", "fish", Some(1), 50),
        catch("golden_carp", "fish", Some(5), 1),
        catch("old_boot", "junk", Some(0), 10),
        catch("message_in_a_bottle", "junk", Some(0), 3),
        catch("sunken_coin_pouch", "coin_catch", Some(0), 2),
        priced_gear("iron_sword", "weapon", EquipSlot::MainHand, Some(2500)),
    ])
    .unwrap();
    let table = defs.catch_table();
    let ids: Vec<&str> = table.iter().map(|c| c.item_def_id.as_str()).collect();
    for expected in ["raw_minnow", "golden_carp", "old_boot", "message_in_a_bottle", "sunken_coin_pouch"] {
        assert!(ids.contains(&expected), "{expected} missing from catch table");
    }
    assert!(!ids.contains(&"iron_sword"));
    for c in &table {
        let d = defs.get(&c.item_def_id).unwrap();
        if d.is_fish() {
            assert!(c.rarity >= 1, "{} fish tier", c.item_def_id);
        } else {
            assert_eq!(c.rarity, 0, "{} must be tier 0 (no XP)", c.item_def_id);
        }
    }
}

#[test]
fn trophies_are_a_fish_concept() {
    let boot = def("old_boot", Some("junk"));
    assert!(!boot.trophy_at(200, true));
    let minnow = def("raw_minnow", Some("fish"));
    assert!(minnow.trophy_at(1, true));
    let mut trout = def("raw_trout", Some("fish"));
    trout.trophy_cm = Some(45);
    let threshold = trout.trophy_cm.unwrap() as u16;
    assert!(trout.trophy_at(threshold, false));
    assert!(!trout.trophy_at(threshold - 1, false));
}

#[test]
fn fishing_rod_is_a_rod_not_a_weapon() {
    let defs = ItemDefs::from_definitions(vec![def("fishing_rod", Some("fishing_rod"))]).unwrap();
    let rod = defs.get("fishing_rod").expect("fishing_rod def");
    assert!(rod.is_fishing_rod());
    assert!(!rod.is_weapon());
}

#[test]
fn chest_pool_is_sorted_and_priced() {
    let defs = ItemDefs::from_definitions(vec![
        priced_gear("iron_sword", "weapon", EquipSlot::MainHand, Some(2500)),
        priced_gear("leather_cap", "armor", EquipSlot::Head, Some(100)),
        priced_gear("gold_ring", "accessory", EquipSlot::Ring, Some(5000)),
        priced_gear("bronze_axe", "weapon", EquipSlot::MainHand, None),
        {
            let mut potion = def("healing_potion", Some("healing_potion"));
            potion.base_price = Some(9000);
            potion
        },
    ])
    .unwrap();
    assert_eq!(defs.equipment_ids_with_min_price(2000), vec!["gold_ring".to_string(), "iron_sword".to_string()]);
    assert_eq!(defs.equipment_ids_with_min_price(2500), vec!["gold_ring".to_string(), "iron_sword".to_string()]);
    assert_eq!(defs.equipment_ids_with_min_price(2501), vec!["gold_ring".to_string()]);
    assert_eq!(defs.equipment_ids_with_min_price(0).len(), 3);
}

#[test]
fn catch_table_is_sorted_by_id_with_rarity_defaulting_to_one() {
    let defs = ItemDefs::from_definitions(vec![
        catch("raw_trout", "fish", Some(2), 30),
        catch("raw_minnow", "fish", None, 50),
        catch("golden_carp", "fish", Some(5), 1),
    ])
    .unwrap();
    let table = defs.catch_table();
    let ids: Vec<&str> = table.iter().map(|c| c.item_def_id.as_str()).collect();
    assert_eq!(ids, vec!["golden_carp", "raw_minnow", "raw_trout"]);
    assert_eq!(table[1].rarity, 1);
    assert_eq!(table[1].catch_weight, 50);
    assert_eq!(table[2].rarity, 2);
}

#[test]
fn duplicate_ids_are_refused() {
    assert!(ItemDefs::from_definitions(vec![def("a", None), def("b", None), def("a", None)]).is_none());
    assert!(ItemDefs::from_definitions(vec![def("a", None), def("b", None)]).is_some());
}

#[test]
fn use_effects_follow_the_category() {
    let mut potion = def("healing_potion", Some("healing_potion"));
    potion.dice = Some("2d4".to_string());
    assert_eq!(potion.use_effect(), Some(UseEffect::Heal("2d4".to_string())));
    let mut fish = def("raw_trout", Some("fish"));
    assert_eq!(fish.use_effect(), None);
    fish.dice = Some("1d6".to_string());
    assert_eq!(fish.use_effect(), Some(UseEffect::Heal("1d6".to_string())));
    assert_eq!(def("scroll_of_return", Some("return_scroll")).use_effect(), Some(UseEffect::TeleportTown));
    assert_eq!(def("scroll_of_enchant", Some("enchant_scroll")).use_effect(), Some(UseEffect::EnchantWeapon));
    assert_eq!(def("iron_sword", Some("weapon")).use_effect(), None);
    assert_eq!(def("rock", None).use_effect(), None);
}

#[test]
fn damage_dice_only_for_weapons() {
    let mut sword = def("iron_sword", Some("weapon"));
    sword.dice = Some("1d8".to_string());
    assert_eq!(sword.damage_dice(), Some("1d8"));
    let mut potion = def("healing_potion", Some("healing_potion"));
    potion.dice = Some("2d4".to_string());
    assert_eq!(potion.damage_dice(), None);
    assert!(def("sunken_coin_pouch", Some("coin_catch")).is_coin_catch());
}

#[test]
fn weapon_refs_resolve_by_id_file_stem_or_model() {
    let mut sword = def("iron_sword", Some("weapon"));
    sword.world_model = Some("models/sword_a.glb".to_string());
    let defs = ItemDefs::from_definitions(vec![sword, def("bronze_axe", Some("weapon"))]).unwrap();
    assert_eq!(defs.item_def_id_for_weapon_ref("bronze_axe"), Some("bronze_axe".to_string()));
    assert_eq!(defs.item_def_id_for_weapon_ref("bronze_axe.glb"), Some("bronze_axe".to_string()));
    assert_eq!(defs.item_def_id_for_weapon_ref("models/sword_a.glb"), Some("iron_sword".to_string()));
    assert_eq!(defs.item_def_id_for_weapon_ref("models/spear.glb"), None);
    assert_eq!(defs.item_def_id_for_weapon_ref(".glb"), None);
}

fn stack(id: u64, def_id: &str, quantity: u32) -> ItemInstance {
    ItemInstance { instance_id: id, item_def_id: def_id.to_string(), quantity, enchant: 0 }
}

#[test]
fn resident_stock_sums_priced_non_wishlist_items() {
    let mut bread = def("bread", Some("food"));
    bread.base_price = Some(4);
    let mut trout = def("raw_trout", Some("fish"));
    trout.base_price = Some(12);
    let boot = def("old_boot", Some("junk"));
    let defs = ItemDefs::from_definitions(vec![bread, trout, boot]).unwrap();
    let bag = vec![
        stack(1, "bread", 2),
        stack(2, "raw_trout", 1),
        stack(3, "old_boot", 1),
        stack(4, "bread", 3),
        stack(5, "unknown_thing", 1),
    ];
    // The resident keeps the trout it wished for, and the boot has no price.
    let stock = resident_stock(&bag, &vec!["raw_trout".to_string()], &defs);
    assert_eq!(stock.len(), 1);
    assert_eq!(stock[0].item_def_id, "bread");
    assert_eq!(stock[0].quantity, 5);
    let all = resident_stock(&bag, &Vec::new(), &defs);
    let lines: Vec<(&str, u32)> = all.iter().map(|e| (e.item_def_id.as_str(), e.quantity)).collect();
    assert_eq!(lines, vec![("bread", 5), ("raw_trout", 1)]);
}

#[test]
fn healing_refuses_the_defeated_and_the_healthy() {
    assert_eq!(healed_health(0, 20, 5), Err(HealRefusal::Defeated));
    assert_eq!(healed_health(20, 20, 5), Err(HealRefusal::FullHealth));
    assert_eq!(healed_health(10, 20, 5), Ok(15));
    assert_eq!(healed_health(18, 20, 5), Ok(20));
    assert_eq!(HealRefusal::FullHealth.message(), "You are already at full health");
}

#[test]
fn ground_items_despawn_after_five_minutes() {
    let items = [(1u64, 0u64), (2, 1_000), (3, 400_000), (4, 500_000)];
    assert_eq!(expired_ground_items(&items, GROUND_ITEM_LIFETIME_MS), Vec::<u64>::new());
    assert_eq!(expired_ground_items(&items, GROUND_ITEM_LIFETIME_MS + 1), vec![1]);
    assert_eq!(expired_ground_items(&items, 301_000), vec![1]);
    assert_eq!(expired_ground_items(&items, 301_001), vec![1, 2]);
    assert_eq!(expired_ground_items(&items, 900_000), vec![1, 2, 3, 4]);
}

#[test]
fn a_resident_never_resells_what_it_wished_for() {
    let mut bread = def("bread", Some("food"));
    bread.base_price = Some(4);
    let mut trout = def("raw_trout", Some("fish"));
    trout.base_price = Some(12);
    let defs = ItemDefs::from_definitions(vec![bread, trout]).unwrap();
    let wishlist = vec!["raw_trout".to_string()];
    let npc_bag = vec![stack(1, "bread", 2), stack(2, "raw_trout", 3)];
    let stock = resident_stock(&npc_bag, &wishlist, &defs);
    assert!(stock.iter().all(|line| !on_wishlist(&wishlist, &line.item_def_id)));
    // Buying the wished trout is refused; selling it is accepted.
    let wants_trout = on_wishlist(&wishlist, "raw_trout");
    assert!(wants_trout);
    assert_eq!(
        plan_buy(TraderKind::Resident, false, wants_trout, true, 12, Some(100), true, true, Some(&npc_bag), "raw_trout"),
        Err(TradeRefusal::WontPart)
    );
    let seller_bag = vec![stack(9, "raw_trout", 1), stack(10, "bread", 1)];
    assert_eq!(
        plan_sell(TraderKind::Resident, &seller_bag, 9, true, wants_trout, 15, true, 100, true, true),
        Ok(0)
    );
    // Bread is the other way round.
    let wants_bread = on_wishlist(&wishlist, "bread");
    assert!(!wants_bread);
    assert_eq!(
        plan_buy(TraderKind::Resident, false, wants_bread, true, 4, Some(100), true, true, Some(&npc_bag), "bread"),
        Ok(Some(0))
    );
    assert_eq!(
        plan_sell(TraderKind::Resident, &seller_bag, 10, true, wants_bread, 5, true, 100, true, true),
        Err(TradeRefusal::NoUse)
    );
}

fn enchant_reader(weapon: Option<(&str, i32)>, scrolls: u32) -> (PlayerInventory, ItemDefs) {
    let defs = ItemDefs::from_definitions(vec![
        priced_gear("iron_sword", "weapon", EquipSlot::MainHand, Some(50)),
        priced_gear("torch", "light", EquipSlot::OffHand, Some(5)),
        def("scroll_of_enchant_weapon", Some("scroll")),
    ])
    .unwrap();
    let mut inv = PlayerInventory::default();
    if let Some((id, enchant)) = weapon {
        inv.equipped.insert(
            EquipSlot::MainHand,
            ItemInstance { instance_id: 1, item_def_id: id.to_string(), quantity: 1, enchant },
        );
    }
    inv.bag.push(ItemInstance {
        instance_id: 2,
        item_def_id: "scroll_of_enchant_weapon".to_string(),
        quantity: scrolls,
        enchant: 0,
    });
    (inv, defs)
}

#[test]
fn enchant_scroll_enchants_wielded_weapon() {
    let (mut inv, defs) = enchant_reader(Some(("iron_sword", 0)), 1);
    assert_eq!(read_enchant_scroll(&mut inv, &defs, false, 2, 9_999), Ok(EnchantOutcome::Honed(1)));
    assert_eq!(inv.equipped.get(EquipSlot::MainHand).unwrap().enchant, 1);
    assert!(inv.bag.is_empty(), "the scroll should be consumed");
}

#[test]
fn enchant_scroll_requires_wielded_weapon() {
    let (mut inv, defs) = enchant_reader(None, 1);
    let refusal = read_enchant_scroll(&mut inv, &defs, false, 2, 0).unwrap_err();
    assert_eq!(refusal, EnchantRefusal::NoWeapon);
    assert!(refusal.message().contains("no weapon"));
    assert_eq!(inv.bag.len(), 1, "the scroll should be kept");
    // A torch in the main hand is no weapon either.
    let (mut inv, defs) = enchant_reader(Some(("torch", 0)), 1);
    assert_eq!(read_enchant_scroll(&mut inv, &defs, false, 2, 0), Err(EnchantRefusal::NoWeapon));
}

#[test]
fn enchant_scroll_destroys_over_enchanted_weapon() {
    // At +12 the odds are at their 1% floor: any roll from 100 up destroys.
    let (mut inv, defs) = enchant_reader(Some(("iron_sword", 12)), 3);
    assert_eq!(read_enchant_scroll(&mut inv, &defs, false, 2, 99), Ok(EnchantOutcome::Honed(13)));
    assert_eq!(read_enchant_scroll(&mut inv, &defs, false, 2, 100), Ok(EnchantOutcome::Shattered));
    assert!(!inv.equipped.contains_key(EquipSlot::MainHand));
    assert_eq!(inv.bag[0].quantity, 1, "each read spends a scroll");
}

#[test]
fn the_defeated_cannot_read_scrolls() {
    let (mut inv, defs) = enchant_reader(Some(("iron_sword", 3)), 1);
    let refusal = read_enchant_scroll(&mut inv, &defs, true, 2, 0).unwrap_err();
    assert_eq!(refusal.message(), "You can't read while defeated");
    assert_eq!(inv.bag[0].quantity, 1);
    assert_eq!(inv.equipped.get(EquipSlot::MainHand).unwrap().enchant, 3);
}

#[test]
fn equipping_by_id_checks_the_bag_and_the_catalog() {
    let (mut inv, defs) = enchant_reader(None, 1);
    inv.bag.push(ItemInstance { instance_id: 5, item_def_id: "iron_sword".to_string(), quantity: 1, enchant: 0 });
    inv.bag.push(ItemInstance { instance_id: 6, item_def_id: "mystery".to_string(), quantity: 1, enchant: 0 });
    assert_eq!(equip_by_id(&mut inv, &defs, 99), Err(EquipRefusal::NotInBag));
    assert_eq!(EquipRefusal::NotInBag.message(), "Item not found in bag");
    // The scroll has a definition but no slot; the mystery item has none at all.
    assert_eq!(equip_by_id(&mut inv, &defs, 2), Err(EquipRefusal::NotEquippable));
    assert_eq!(equip_by_id(&mut inv, &defs, 6), Err(EquipRefusal::NotEquippable));
    assert_eq!(inv.bag.len(), 3);
    assert_eq!(equip_by_id(&mut inv, &defs, 5), Ok(EquipSlot::MainHand));
    assert_eq!(inv.equipped.get(EquipSlot::MainHand).unwrap().instance_id, 5);
    assert_eq!(inv.bag.iter().map(|i| i.instance_id).collect::<Vec<_>>(), vec![2, 6]);
}

#[test]
fn using_an_item_looks_up_its_effect() {
    let mut potion = def("healing_potion", Some("healing_potion"));
    potion.dice = Some("2d4".to_string());
    let defs = ItemDefs::from_definitions(vec![
        potion,
        def("return_scroll", Some("return_scroll")),
        def("rope", Some("misc")),
    ])
    .unwrap();
    let bag = vec![stack(1, "healing_potion", 2), stack(2, "return_scroll", 1), stack(3, "rope", 1), stack(4, "ghost_item", 1)];
    assert_eq!(item_use_effect(&bag, &defs, 1), Ok(UseEffect::Heal("2d4".to_string())));
    assert_eq!(item_use_effect(&bag, &defs, 2), Ok(UseEffect::TeleportTown));
    assert_eq!(item_use_effect(&bag, &defs, 3), Err(UseRefusal::NotUsable));
    assert_eq!(item_use_effect(&bag, &defs, 4), Err(UseRefusal::NotUsable));
    assert_eq!(item_use_effect(&bag, &defs, 9), Err(UseRefusal::NotInBag));
    assert_eq!(UseRefusal::NotUsable.message(), "This item cannot be used");
}

#[test]
fn losing_the_rod_leaves_no_rod_in_hand() {
    let defs = ItemDefs::from_definitions(vec![
        priced_gear("oak_rod", "fishing_rod", EquipSlot::MainHand, Some(300)),
        priced_gear("iron_sword", "weapon", EquipSlot::MainHand, Some(50)),
    ])
    .unwrap();
    let mut inv = PlayerInventory::default();
    inv.equipped.insert(
        EquipSlot::MainHand,
        ItemInstance { instance_id: 1, item_def_id: "oak_rod".to_string(), quantity: 1, enchant: 0 },
    );
    assert!(main_hand_is(&inv.equipped, &defs, "fishing_rod"));
    assert!(!main_hand_is(&inv.equipped, &defs, "weapon"));
    inv.equipped.remove(EquipSlot::MainHand);
    assert!(!main_hand_is(&inv.equipped, &defs, "fishing_rod"));
}

#[test]
fn a_fresh_enchant_roll_never_breaks_a_weapon_in_the_certain_range() {
    for _ in 0..50 {
        let (mut inv, defs) = enchant_reader(Some(("iron_sword", 4)), 1);
        assert_eq!(use_enchant_scroll(&mut inv, &defs, false, 2), Ok(EnchantOutcome::Honed(5)));
        assert!(inv.bag.is_empty(), "the scroll should be consumed");
    }
    let (mut inv, defs) = enchant_reader(Some(("iron_sword", 7)), 1);
    match use_enchant_scroll(&mut inv, &defs, false, 2) {
        Ok(EnchantOutcome::Honed(8)) => assert_eq!(inv.equipped.get(EquipSlot::MainHand).unwrap().enchant, 8),
        Ok(EnchantOutcome::Shattered) => assert!(inv.equipped.get(EquipSlot::MainHand).is_none()),
        other => panic!("unexpected outcome {other:?}"),
    }
    assert!(inv.bag.is_empty());
    let (mut inv, defs) = enchant_reader(Some(("iron_sword", 0)), 1);
    assert_eq!(use_enchant_scroll(&mut inv, &defs, true, 2), Err(EnchantRefusal::Defeated));
    assert_eq!(inv.bag.len(), 1, "the scroll should be kept");
}

#[test]
fn losing_the_rod_stops_only_a_running_session() {
    let defs = ItemDefs::from_definitions(vec![
        priced_gear("oak_rod", "fishing_rod", EquipSlot::MainHand, Some(300)),
        priced_gear("iron_sword", "weapon", EquipSlot::MainHand, Some(50)),
    ])
    .unwrap();
    let mut inv = PlayerInventory::default();
    inv.equipped.insert(
        EquipSlot::MainHand,
        ItemInstance { instance_id: 1, item_def_id: "oak_rod".to_string(), quantity: 1, enchant: 0 },
    );
    assert!(!tool_lost(true, &inv.equipped, &defs, "fishing_rod"));
    inv.equipped.insert(
        EquipSlot::MainHand,
        ItemInstance { instance_id: 2, item_def_id: "iron_sword".to_string(), quantity: 1, enchant: 0 },
    );
    assert!(tool_lost(true, &inv.equipped, &defs, "fishing_rod"), "swapped for a sword");
    assert!(!tool_lost(false, &inv.equipped, &defs, "fishing_rod"), "nobody was fishing");
    inv.equipped.remove(EquipSlot::MainHand);
    assert!(tool_lost(true, &inv.equipped, &defs, "fishing_rod"), "unequipped");
}

#[test]
fn weapon_model_names_its_damage_dice() {
    let mut sword = priced_gear("iron_sword", "weapon", EquipSlot::MainHand, Some(50));
    sword.dice = Some("1d8".to_string());
    sword.world_model = Some("models/sword_a.glb".to_string());
    let mut torch = priced_gear("torch", "light", EquipSlot::OffHand, Some(5));
    torch.dice = Some("1d2".to_string());
    let defs = ItemDefs::from_definitions(vec![sword, torch]).unwrap();
    assert_eq!(defs.damage_dice_for_weapon_model("iron_sword"), Some("1d8".to_string()));
    assert_eq!(defs.damage_dice_for_weapon_model("iron_sword.glb"), Some("1d8".to_string()));
    assert_eq!(defs.damage_dice_for_weapon_model("models/sword_a.glb"), Some("1d8".to_string()));
    assert_eq!(defs.damage_dice_for_weapon_model("torch"), None, "not a weapon");
    assert_eq!(defs.damage_dice_for_weapon_model("axe.glb"), None);
}
