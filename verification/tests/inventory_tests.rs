use onlinerpg::inventory::{
    add_stackable_unit, consume_one, enchant_success_bp, enchant_takes, equip_from_bag,
    equip_target_slot, take_for_drop, unequip_to_bag, EquipSlot, ItemInstance, PlayerInventory,
};
use onlinerpg::text::str_eq;

const ALL_SLOTS: &[EquipSlot] = &[
    EquipSlot::Head,
    EquipSlot::MainHand,
    EquipSlot::OffHand,
    EquipSlot::Chest,
    EquipSlot::Ear,
    EquipSlot::Neck,
    EquipSlot::Belt,
    EquipSlot::Pants,
    EquipSlot::Boots,
    EquipSlot::Ring,
    EquipSlot::RingLeft,
];

fn item(id: u64, def: &str, quantity: u32, enchant: i32) -> ItemInstance {
    ItemInstance {
        instance_id: id,
        item_def_id: def.to_string(),
        quantity,
        enchant,
    }
}

#[test]
fn equip_slot_str_roundtrip() {
    for slot in ALL_SLOTS {
        let s = slot.as_str();
        let back: EquipSlot = s.parse().expect("parse should accept as_str output");
        assert_eq!(&back, slot, "roundtrip failed for {s}");
    }
}

#[test]
fn equip_slot_from_str_rejects_unknown() {
    assert!("".parse::<EquipSlot>().is_err());
    assert!("shoulder".parse::<EquipSlot>().is_err());
    assert!("Head".parse::<EquipSlot>().is_err());
}

#[test]
fn equip_slot_alternate_is_symmetric_for_rings() {
    assert_eq!(EquipSlot::Ring.alternate(), Some(EquipSlot::RingLeft));
    assert_eq!(EquipSlot::RingLeft.alternate(), Some(EquipSlot::Ring));
}

#[test]
fn equip_slot_alternate_none_for_unique_slots() {
    for slot in ALL_SLOTS {
        if matches!(slot, EquipSlot::Ring | EquipSlot::RingLeft) {
            continue;
        }
        assert_eq!(slot.alternate(), None, "slot {:?} should not have an alternate", slot);
    }
}

#[test]
fn player_inventory_default_is_empty() {
    let inv = PlayerInventory::default();
    assert!(inv.bag.is_empty());
    assert!(inv.equipped.is_empty());
}

#[test]
fn enchant_success_ladder_halves_past_seven_with_one_percent_floor() {
    assert_eq!(enchant_success_bp(0), 10_000);
    assert_eq!(enchant_success_bp(4), 10_000);
    assert_eq!(enchant_success_bp(5), 7_500);
    assert_eq!(enchant_success_bp(6), 5_000);
    assert_eq!(enchant_success_bp(7), 2_500);
    assert_eq!(enchant_success_bp(8), 1_250);
    assert_eq!(enchant_success_bp(9), 625);
    assert_eq!(enchant_success_bp(10), 312);
    assert_eq!(enchant_success_bp(11), 156);
    assert_eq!(enchant_success_bp(12), 100);
    assert_eq!(enchant_success_bp(50), 100);
    assert_eq!(enchant_success_bp(i32::MAX), 100);
}

#[test]
fn enchanting_takes_below_the_odds() {
    assert!(enchant_takes(0, 9_999));
    assert!(enchant_takes(5, 7_499));
    assert!(!enchant_takes(5, 7_500));
    assert!(!enchant_takes(12, 100));
    assert!(enchant_takes(-3, 0));
}

#[test]
fn using_one_unit_shrinks_or_drops_the_stack() {
    let mut inv = PlayerInventory::default();
    inv.bag.push(item(1, "healing_potion", 2, 0));
    inv.bag.push(item(2, "return_scroll", 1, 0));
    consume_one(&mut inv, 1);
    assert_eq!(inv.bag.len(), 2);
    assert_eq!(inv.bag[0].quantity, 1);
    consume_one(&mut inv, 2);
    assert_eq!(inv.bag.len(), 1);
    assert_eq!(inv.bag[0].instance_id, 1);
    consume_one(&mut inv, 99);
    assert_eq!(inv.bag.len(), 1);
    consume_one(&mut inv, 1);
    assert!(inv.bag.is_empty());
}

#[test]
fn awarded_units_stack_onto_plain_stacks_only() {
    let mut bag = vec![item(1, "iron_sword", 1, 3), item(2, "copper_ore", 4, 0)];
    add_stackable_unit(&mut bag, "copper_ore", 10);
    assert_eq!(bag.len(), 2);
    assert_eq!(bag[1].quantity, 5);
    // An enchanted stack never absorbs a plain unit.
    add_stackable_unit(&mut bag, "iron_sword", 11);
    assert_eq!(bag.len(), 3);
    assert_eq!(bag[2].instance_id, 11);
    assert_eq!(bag[2].item_def_id, "iron_sword");
    assert_eq!(bag[2].quantity, 1);
    assert_eq!(bag[2].enchant, 0);
    assert_eq!(bag[0].quantity, 1);
}

#[test]
fn items_equip_into_free_alternates() {
    assert_eq!(equip_target_slot(EquipSlot::Ring, false, false), EquipSlot::Ring);
    assert_eq!(equip_target_slot(EquipSlot::Ring, true, false), EquipSlot::RingLeft);
    assert_eq!(equip_target_slot(EquipSlot::Ring, true, true), EquipSlot::Ring);
    assert_eq!(equip_target_slot(EquipSlot::RingLeft, true, false), EquipSlot::Ring);
    assert_eq!(equip_target_slot(EquipSlot::Head, true, false), EquipSlot::Head);
}

#[test]
fn strings_compare_by_content() {
    assert!(str_eq("ring_left", "ring_left"));
    assert!(!str_eq("ring", "ring_left"));
    assert!(!str_eq("é", "e"));
    assert!(str_eq("", ""));
}

fn gear(id: u64, def: &str) -> ItemInstance {
    ItemInstance { instance_id: id, item_def_id: def.to_string(), quantity: 1, enchant: 0 }
}

#[test]
fn equipping_swaps_the_slot_item_back_into_the_bag() {
    let mut inv = PlayerInventory::default();
    inv.bag.push(gear(1, "iron_sword"));
    inv.bag.push(gear(2, "bronze_sword"));
    assert_eq!(equip_from_bag(&mut inv, 0, EquipSlot::MainHand), EquipSlot::MainHand);
    assert_eq!(inv.bag.len(), 1);
    assert_eq!(inv.equipped.get(EquipSlot::MainHand).map(|i| i.instance_id), Some(1));
    // The second sword takes the slot; the first returns to the bag.
    assert_eq!(equip_from_bag(&mut inv, 0, EquipSlot::MainHand), EquipSlot::MainHand);
    assert_eq!(inv.equipped.get(EquipSlot::MainHand).map(|i| i.instance_id), Some(2));
    assert_eq!(inv.bag.iter().map(|i| i.instance_id).collect::<Vec<_>>(), vec![1]);
}

#[test]
fn a_second_ring_goes_on_the_other_hand() {
    let mut inv = PlayerInventory::default();
    inv.bag.push(gear(1, "gold_ring"));
    inv.bag.push(gear(2, "silver_ring"));
    assert_eq!(equip_from_bag(&mut inv, 0, EquipSlot::Ring), EquipSlot::Ring);
    assert_eq!(equip_from_bag(&mut inv, 0, EquipSlot::Ring), EquipSlot::RingLeft);
    assert!(inv.bag.is_empty());
    assert!(inv.equipped.contains_key(EquipSlot::Ring) && inv.equipped.contains_key(EquipSlot::RingLeft));
}

#[test]
fn unequipping_moves_the_item_to_the_bag() {
    let mut inv = PlayerInventory::default();
    inv.bag.push(gear(7, "torch"));
    equip_from_bag(&mut inv, 0, EquipSlot::OffHand);
    assert!(!unequip_to_bag(&mut inv, EquipSlot::Head));
    assert!(unequip_to_bag(&mut inv, EquipSlot::OffHand));
    assert!(inv.equipped.is_empty());
    assert_eq!(inv.bag.iter().map(|i| i.instance_id).collect::<Vec<_>>(), vec![7]);
}

#[test]
fn dropping_takes_from_the_bag_before_the_slots() {
    let mut inv = PlayerInventory::default();
    inv.bag.push(gear(7, "torch"));
    inv.bag.push(gear(8, "bread"));
    equip_from_bag(&mut inv, 0, EquipSlot::OffHand);
    let (item, off_hand) = take_for_drop(&mut inv, 8).unwrap();
    assert_eq!((item.instance_id, off_hand), (8, false));
    let (item, off_hand) = take_for_drop(&mut inv, 7).unwrap();
    assert_eq!((item.instance_id, off_hand), (7, true));
    assert!(take_for_drop(&mut inv, 9).is_none());
    assert!(inv.bag.is_empty() && inv.equipped.is_empty());
}

#[test]
fn unequipping_right_after_equipping_gives_the_item_back() {
    let mut inv = PlayerInventory::default();
    inv.bag.push(gear(1, "iron_helm"));
    inv.bag.push(gear(2, "bread"));
    inv.bag.push(gear(3, "rope"));
    let slot = equip_from_bag(&mut inv, 0, EquipSlot::Head);
    assert!(unequip_to_bag(&mut inv, slot));
    assert!(inv.equipped.is_empty());
    assert_eq!(inv.bag.iter().map(|i| i.instance_id).collect::<Vec<_>>(), vec![2, 3, 1]);
}

fn units(bag: &[ItemInstance], def: &str) -> u32 {
    bag.iter().filter(|i| i.item_def_id == def).map(|i| i.quantity).sum()
}

#[test]
fn awards_and_uses_move_exactly_one_unit() {
    let mut inv = PlayerInventory::default();
    inv.bag.push(item(1, "raw_trout", 2, 0));
    inv.bag.push(item(2, "raw_trout", 1, 2));
    inv.bag.push(item(3, "bread", 1, 0));
    add_stackable_unit(&mut inv.bag, "raw_trout", 10);
    assert_eq!(units(&inv.bag, "raw_trout"), 4);
    add_stackable_unit(&mut inv.bag, "kelp", 11);
    assert_eq!(units(&inv.bag, "kelp"), 1);
    consume_one(&mut inv, 2);
    assert_eq!(units(&inv.bag, "raw_trout"), 3);
    consume_one(&mut inv, 3);
    assert_eq!(units(&inv.bag, "bread"), 0);
    assert_eq!(units(&inv.bag, "raw_trout"), 3);
}
