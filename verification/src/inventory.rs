//! Inventory model: equipment slots with their wire names, item stacks in
//! the bag, and the bag bookkeeping every item flow goes through (using up
//! one unit, stacking an awarded unit, choosing the slot an item equips
//! into, and the odds of enchanting a weapon).
use vstd::prelude::*;
use vstd::multiset::Multiset;
use vstd::string::StringExecFns;
use crate::text::str_eq;
use crate::item_defs::{
    ItemDefinition, ItemDefs, UseEffect, ids_unique, category_is, defines, def_of, lemma_def_of_at,
    spec_use_effect,
};
use crate::chance::roll_u32_inclusive;

verus! {

#[derive(Debug, Clone, Copy, PartialEq, Eq, Hash, Structural)]
pub enum EquipSlot {
    Head,
    MainHand,
    OffHand,
    Chest,
    Ear,
    Neck,
    Belt,
    Pants,
    Boots,
    Ring,
    RingLeft,
}

/// The wire name of a slot.
pub open spec fn slot_name(s: EquipSlot) -> Seq<char> {
    match s {
        EquipSlot::Head => "head"@,
        EquipSlot::MainHand => "main_hand"@,
        EquipSlot::OffHand => "off_hand"@,
        EquipSlot::Chest => "chest"@,
        EquipSlot::Ear => "ear"@,
        EquipSlot::Neck => "neck"@,
        EquipSlot::Belt => "belt"@,
        EquipSlot::Pants => "pants"@,
        EquipSlot::Boots => "boots"@,
        EquipSlot::Ring => "ring"@,
        EquipSlot::RingLeft => "ring_left"@,
    }
}

/// The slot an item falls back to when its own slot is taken.
pub open spec fn spec_alternate(s: EquipSlot) -> Option<EquipSlot> {
    match s {
        EquipSlot::Ring => Some(EquipSlot::RingLeft),
        EquipSlot::RingLeft => Some(EquipSlot::Ring),
        _ => None,
    }
}

impl EquipSlot {
    /// The slot's wire name.
    pub fn as_str(&self) -> (r: &'static str)
        ensures
            r@ == slot_name(*self),
    {
        match self {
            EquipSlot::Head => "head",
            EquipSlot::MainHand => "main_hand",
            EquipSlot::OffHand => "off_hand",
            EquipSlot::Chest => "chest",
            EquipSlot::Ear => "ear",
            EquipSlot::Neck => "neck",
            EquipSlot::Belt => "belt",
            EquipSlot::Pants => "pants",
            EquipSlot::Boots => "boots",
            EquipSlot::Ring => "ring",
            EquipSlot::RingLeft => "ring_left",
        }
    }

    /// For slots that have an alternate (ring / ring_left), the alternate
    /// slot, used when the primary is occupied.
    pub fn alternate(&self) -> (r: Option<EquipSlot>)
        ensures
            r == spec_alternate(*self),
    {
        match self {
            EquipSlot::Ring => Some(EquipSlot::RingLeft),
            EquipSlot::RingLeft => Some(EquipSlot::Ring),
            _ => None,
        }
    }

    /// The slot whose wire name is `s`, or an error for any other string
    /// (names are case-sensitive).
    pub fn parse(s: &str) -> (r: Result<EquipSlot, ()>)
        ensures
            match r {
                Ok(slot) => s@ == slot_name(slot),
                Err(_) => forall|slot: EquipSlot| s@ != #[trigger] slot_name(slot),
            },
    {
        if str_eq(s, "head") {
            Ok(EquipSlot::Head)
        } else if str_eq(s, "main_hand") {
            Ok(EquipSlot::MainHand)
        } else if str_eq(s, "off_hand") {
            Ok(EquipSlot::OffHand)
        } else if str_eq(s, "chest") {
            Ok(EquipSlot::Chest)
        } else if str_eq(s, "ear") {
            Ok(EquipSlot::Ear)
        } else if str_eq(s, "neck") {
            Ok(EquipSlot::Neck)
        } else if str_eq(s, "belt") {
            Ok(EquipSlot::Belt)
        } else if str_eq(s, "pants") {
            Ok(EquipSlot::Pants)
        } else if str_eq(s, "boots") {
            Ok(EquipSlot::Boots)
        } else if str_eq(s, "ring") {
            Ok(EquipSlot::Ring)
        } else if str_eq(s, "ring_left") {
            Ok(EquipSlot::RingLeft)
        } else {
            proof {
                assert forall|slot: EquipSlot| s@ != #[trigger] slot_name(slot) by {
                    match slot {
                        EquipSlot::Head => {},
                        EquipSlot::MainHand => {},
                        EquipSlot::OffHand => {},
                        EquipSlot::Chest => {},
                        EquipSlot::Ear => {},
                        EquipSlot::Neck => {},
                        EquipSlot::Belt => {},
                        EquipSlot::Pants => {},
                        EquipSlot::Boots => {},
                        EquipSlot::Ring => {},
                        EquipSlot::RingLeft => {},
                    }
                }
            }
            Err(())
        }
    }
}

impl std::str::FromStr for EquipSlot {
    type Err = ();

    fn from_str(s: &str) -> (r: Result<Self, Self::Err>)
        ensures
            match r {
                Ok(slot) => s@ == slot_name(slot),
                Err(_) => forall|slot: EquipSlot| s@ != #[trigger] slot_name(slot),
            },
    {
        EquipSlot::parse(s)
    }
}

/// Distinct slots have distinct wire names, so parsing a slot's name gives
/// the slot back.
pub proof fn lemma_slot_name_injective(a: EquipSlot, b: EquipSlot)
    ensures
        slot_name(a) == slot_name(b) ==> a == b,
{
    reveal_strlit("head");
    reveal_strlit("main_hand");
    reveal_strlit("off_hand");
    reveal_strlit("chest");
    reveal_strlit("ear");
    reveal_strlit("neck");
    reveal_strlit("belt");
    reveal_strlit("pants");
    reveal_strlit("boots");
    reveal_strlit("ring");
    reveal_strlit("ring_left");
    if slot_name(a) == slot_name(b) {
        let na = slot_name(a);
        let nb = slot_name(b);
        assert(na.len() == nb.len());
        assert(na[0] == nb[0]);
        if na.len() > 1 {
            assert(na[1] == nb[1]);
        }
        if na.len() > 4 {
            assert(na[4] == nb[4]);
        }
        if na.len() > 5 {
            assert(na[5] == nb[5]);
        }
    }
}

/// The alternate relation is symmetric: a slot is the alternate of its own
/// alternate.
pub proof fn lemma_alternate_symmetric(s: EquipSlot)
    ensures
        spec_alternate(s) matches Some(t) ==> spec_alternate(t) == Some(s),
{
}

/// One stack of items in a bag or an equipment slot.
#[derive(Debug, Clone)]
pub struct ItemInstance {
    pub instance_id: u64,
    pub item_def_id: String,
    pub quantity: u32,
    /// Weapon enchantment level (+N to attack and damage rolls); zero for
    /// everything but enchanted weapons.
    pub enchant: i32,
}

/// The first entry at or after `i` for `slot`.
pub open spec fn slot_pos_from(s: Seq<(EquipSlot, ItemInstance)>, slot: EquipSlot, i: int) -> Option<int>
    decreases s.len() - i,
{
    if i < 0 || i >= s.len() {
        None
    } else if s[i].0 == slot {
        Some(i)
    } else {
        slot_pos_from(s, slot, i + 1)
    }
}

pub open spec fn slot_pos(s: Seq<(EquipSlot, ItemInstance)>, slot: EquipSlot) -> Option<int> {
    slot_pos_from(s, slot, 0)
}

pub proof fn lemma_slot_pos_from(s: Seq<(EquipSlot, ItemInstance)>, slot: EquipSlot, i: int)
    requires
        0 <= i,
    ensures
        slot_pos_from(s, slot, i) matches Some(k) ==> i <= k < s.len() && s[k].0 == slot && forall|j: int|
            i <= j < k ==> #[trigger] s[j].0 != slot,
        slot_pos_from(s, slot, i) is None ==> forall|j: int| i <= j < s.len() ==> #[trigger] s[j].0 != slot,
    decreases s.len() - i,
{
    if i < s.len() {
        lemma_slot_pos_from(s, slot, i + 1);
    }
}

/// Positions read only the slots of the entries.
proof fn lemma_slot_pos_same_keys(s1: Seq<(EquipSlot, ItemInstance)>, s2: Seq<(EquipSlot, ItemInstance)>, slot: EquipSlot, i: int)
    requires
        s1.len() == s2.len(),
        forall|j: int| 0 <= j < s1.len() ==> #[trigger] s1[j].0 == s2[j].0,
    ensures
        slot_pos_from(s1, slot, i) == slot_pos_from(s2, slot, i),
    decreases s1.len() - i,
{
    if 0 <= i < s1.len() {
        lemma_slot_pos_same_keys(s1, s2, slot, i + 1);
    }
}

/// Appending an entry leaves every earlier position and adds its own.
proof fn lemma_slot_pos_push(s: Seq<(EquipSlot, ItemInstance)>, x: (EquipSlot, ItemInstance), slot: EquipSlot, i: int)
    requires
        0 <= i <= s.len(),
    ensures
        slot_pos_from(s.push(x), slot, i) == (match slot_pos_from(s, slot, i) {
            Some(k) => Some(k),
            None => if x.0 == slot {
                Some(s.len() as int)
            } else {
                None
            },
        }),
    decreases s.len() - i,
{
    if i < s.len() {
        assert(s.push(x)[i] == s[i]);
        lemma_slot_pos_push(s, x, slot, i + 1);
    } else {
        assert(s.push(x)[i] == x);
        assert(slot_pos_from(s.push(x), slot, i + 1) is None);
    }
}

/// No slot holds two items.
pub open spec fn slots_unique(s: Seq<(EquipSlot, ItemInstance)>) -> bool {
    forall|i: int, j: int| 0 <= i < j < s.len() ==> #[trigger] s[i].0 != #[trigger] s[j].0
}

/// The items a player wears, one per slot.
#[derive(Debug, Clone)]
pub struct Equipped {
    pub slots: Vec<(EquipSlot, ItemInstance)>,
}

impl View for Equipped {
    type V = Map<EquipSlot, ItemInstance>;

    /// Each slot holding an item, with that item.
    open spec fn view(&self) -> Map<EquipSlot, ItemInstance> {
        Map::new(
            |k: EquipSlot| slot_pos(self.slots@, k) is Some,
            |k: EquipSlot| self.slots@[slot_pos(self.slots@, k).unwrap()].1,
        )
    }
}

impl Equipped {
    /// Nothing worn.
    pub fn new() -> (r: Equipped)
        ensures
            r.slots@.len() == 0,
            r@ == Map::<EquipSlot, ItemInstance>::empty(),
    {
        let r = Equipped { slots: Vec::new() };
        assert(r@ =~= Map::<EquipSlot, ItemInstance>::empty());
        r
    }

    pub fn is_empty(&self) -> (r: bool)
        ensures
            r == (self.slots@.len() == 0),
    {
        self.slots.len() == 0
    }

    fn position(&self, slot: EquipSlot) -> (r: Option<usize>)
        ensures
            r matches Some(k) ==> k < self.slots@.len() && slot_pos(self.slots@, slot) == Some(k as int),
            r is None ==> slot_pos(self.slots@, slot) is None,
    {
        proof {
            lemma_slot_pos_from(self.slots@, slot, 0);
        }
        let mut i: usize = 0;
        while i < self.slots.len()
            invariant
                0 <= i <= self.slots@.len(),
                slot_pos(self.slots@, slot) == slot_pos_from(self.slots@, slot, i as int),
            decreases self.slots@.len() - i,
        {
            if self.slots[i].0 == slot {
                return Some(i);
            }
            i = i + 1;
        }
        None
    }

    /// Whether `slot` holds an item.
    pub fn contains_key(&self, slot: EquipSlot) -> (r: bool)
        ensures
            r == self@.contains_key(slot),
    {
        self.position(slot).is_some()
    }

    /// The item in `slot`.
    pub fn get(&self, slot: EquipSlot) -> (r: Option<&ItemInstance>)
        ensures
            r matches Some(it) ==> self@.contains_key(slot) && *it == self@[slot],
            r is None ==> !self@.contains_key(slot),
    {
        match self.position(slot) {
            Some(k) => Some(&self.slots[k].1),
            None => None,
        }
    }

    /// Put `item` in `slot`, returning what it held before.
    pub fn insert(&mut self, slot: EquipSlot, item: ItemInstance) -> (r: Option<ItemInstance>)
        ensures
            final(self)@ == old(self)@.insert(slot, item),
            r == (if old(self)@.contains_key(slot) { Some(old(self)@[slot]) } else { None }),
            slots_unique(old(self).slots@) ==> slots_unique(final(self).slots@),
            final(self).slots@ == (match slot_pos(old(self).slots@, slot) {
                Some(k) => old(self).slots@.update(k, (slot, item)),
                None => old(self).slots@.push((slot, item)),
            }),
    {
        let ghost s0 = self.slots@;
        proof {
            lemma_slot_pos_from(s0, slot, 0);
        }
        match self.position(slot) {
            Some(k) => {
                let (_, prev) = self.slots.remove(k);
                self.slots.insert(k, (slot, item));
                proof {
                    assert(self.slots@ =~= s0.update(k as int, (slot, item)));
                    assert forall|key: EquipSlot| #[trigger] slot_pos(self.slots@, key) == slot_pos(s0, key) by {
                        lemma_slot_pos_same_keys(self.slots@, s0, key, 0);
                    }
                    assert forall|key: EquipSlot| key != slot && #[trigger] slot_pos(s0, key) is Some implies self.slots@[slot_pos(s0, key).unwrap()]
                        == s0[slot_pos(s0, key).unwrap()] by {
                        lemma_slot_pos_from(s0, key, 0);
                    }
                    assert(self@ =~= old(self)@.insert(slot, item));
                    assert forall|a: int, b: int| 0 <= a < b < self.slots@.len() && slots_unique(s0) implies #[trigger] self.slots@[a].0
                        != #[trigger] self.slots@[b].0 by {
                        assert(self.slots@[a].0 == s0[a].0 && self.slots@[b].0 == s0[b].0);
                    }
                }
                Some(prev)
            },
            None => {
                self.slots.push((slot, item));
                proof {
                    assert forall|key: EquipSlot| #[trigger] slot_pos(self.slots@, key) == (match slot_pos(s0, key) {
                        Some(q) => Some(q),
                        None => if key == slot {
                            Some(s0.len() as int)
                        } else {
                            None
                        },
                    }) by {
                        lemma_slot_pos_push(s0, (slot, item), key, 0);
                    }
                    assert forall|key: EquipSlot| #[trigger] slot_pos(s0, key) is Some implies self.slots@[slot_pos(s0, key).unwrap()]
                        == s0[slot_pos(s0, key).unwrap()] by {
                        lemma_slot_pos_from(s0, key, 0);
                    }
                    assert(self.slots@[s0.len() as int] == (slot, item));
                    assert(self@ =~= old(self)@.insert(slot, item));
                    assert forall|a: int, b: int| 0 <= a < b < self.slots@.len() && slots_unique(s0) implies #[trigger] self.slots@[a].0
                        != #[trigger] self.slots@[b].0 by {
                        if b == s0.len() {
                            assert(self.slots@[a] == s0[a]);
                        } else {
                            assert(self.slots@[a] == s0[a] && self.slots@[b] == s0[b]);
                        }
                    }
                }
                None
            },
        }
    }

    /// Take the item out of `slot`, if it holds one.
    pub fn remove(&mut self, slot: EquipSlot) -> (r: Option<ItemInstance>)
        requires
            slots_unique(old(self).slots@),
        ensures
            final(self)@ == old(self)@.remove(slot),
            r == (if old(self)@.contains_key(slot) { Some(old(self)@[slot]) } else { None }),
            slots_unique(final(self).slots@),
            final(self).slots@ == (match slot_pos(old(self).slots@, slot) {
                Some(k) => old(self).slots@.remove(k),
                None => old(self).slots@,
            }),
    {
        let ghost s0 = self.slots@;
        proof {
            lemma_slot_pos_from(s0, slot, 0);
        }
        match self.position(slot) {
            Some(k) => {
                let (_, prev) = self.slots.remove(k);
                proof {
                    s0.remove_ensures(k as int);
                    assert forall|a: int, b: int| 0 <= a < b < self.slots@.len() implies #[trigger] self.slots@[a].0
                        != #[trigger] self.slots@[b].0 by {
                        let ia = if a < k { a } else { a + 1 };
                        let ib = if b < k { b } else { b + 1 };
                        assert(self.slots@[a] == s0[ia] && self.slots@[b] == s0[ib]);
                    }
                    assert forall|key: EquipSlot| #[trigger] slot_pos(self.slots@, key) is Some == (key != slot && slot_pos(s0, key) is Some) by {
                        lemma_slot_pos_from(self.slots@, key, 0);
                        lemma_slot_pos_from(s0, key, 0);
                        if let Some(q) = slot_pos(self.slots@, key) {
                            let iq = if q < k { q } else { q + 1 };
                            assert(self.slots@[q] == s0[iq]);
                        }
                        if key != slot {
                            if let Some(q) = slot_pos(s0, key) {
                                let nq = if q < k { q } else { q - 1 };
                                assert(self.slots@[nq] == s0[q]);
                            }
                        }
                    }
                    assert forall|key: EquipSlot| key != slot && #[trigger] slot_pos(s0, key) is Some implies self.slots@[slot_pos(self.slots@, key).unwrap()].1
                        == s0[slot_pos(s0, key).unwrap()].1 by {
                        lemma_slot_pos_from(self.slots@, key, 0);
                        lemma_slot_pos_from(s0, key, 0);
                        lemma_slot_pos_unique(self.slots@, key);
                        lemma_slot_pos_unique(s0, key);
                        let q = slot_pos(s0, key).unwrap();
                        let nq = if q < k { q } else { q - 1 };
                        assert(self.slots@[nq] == s0[q]);
                    }
                    assert(self@ =~= old(self)@.remove(slot));
                }
                Some(prev)
            },
            None => {
                proof {
                    assert(self@ =~= old(self)@.remove(slot));
                }
                None
            },
        }
    }
}

/// With no slot listed twice, the position of a slot is its only entry.
pub proof fn lemma_slot_pos_unique(s: Seq<(EquipSlot, ItemInstance)>, slot: EquipSlot)
    ensures
        slots_unique(s) ==> forall|j: int| 0 <= j < s.len() && s[j].0 == slot ==> slot_pos(s, slot) == Some(j),
{
    lemma_slot_pos_from(s, slot, 0);
}

/// A player's bag and equipped items.
#[derive(Debug, Clone)]
pub struct PlayerInventory {
    pub bag: Vec<ItemInstance>,
    pub equipped: Equipped,
}

impl Default for PlayerInventory {
    fn default() -> (r: PlayerInventory)
        ensures
            r.bag@.len() == 0,
            r.equipped@ == Map::<EquipSlot, ItemInstance>::empty(),
            r.equipped.slots@.len() == 0,
    {
        PlayerInventory { bag: Vec::new(), equipped: Equipped::new() }
    }
}

/// Enchant odds are in basis points out of this scale.
pub const ENCHANT_BP_SCALE: u32 = 10_000;

/// Success chance, in basis points, of enchanting a weapon at `enchant`.
pub open spec fn spec_enchant_success_bp(enchant: i32) -> u32 {
    if enchant <= 4 {
        ENCHANT_BP_SCALE
    } else if enchant == 5 {
        7_500
    } else if enchant == 6 {
        5_000
    } else if enchant == 7 {
        2_500
    } else if enchant == 8 {
        1_250
    } else if enchant == 9 {
        625
    } else if enchant == 10 {
        312
    } else if enchant == 11 {
        156
    } else {
        100
    }
}

/// Success chance, in basis points, of enchanting a weapon currently at
/// `enchant`: guaranteed through +4, then 75/50/25% at +5/+6/+7, halving
/// each level from +8 until the 1% floor at +12.
pub fn enchant_success_bp(enchant: i32) -> (r: u32)
    ensures
        r == spec_enchant_success_bp(enchant),
{
    if enchant <= 4 {
        ENCHANT_BP_SCALE
    } else if enchant == 5 {
        7_500
    } else if enchant == 6 {
        5_000
    } else if enchant == 7 {
        2_500
    } else if enchant == 8 {
        1_250
    } else if enchant == 9 {
        625
    } else if enchant == 10 {
        312
    } else if enchant == 11 {
        156
    } else {
        100
    }
}

/// The enchant ladder never gets easier as the weapon climbs, stays within
/// the odds scale, and never closes below the 1% floor.
pub proof fn lemma_enchant_odds_ladder(a: i32, b: i32)
    ensures
        a <= b ==> spec_enchant_success_bp(b) <= spec_enchant_success_bp(a),
        100 <= spec_enchant_success_bp(a) <= ENCHANT_BP_SCALE,
        a <= 4 ==> spec_enchant_success_bp(a) == ENCHANT_BP_SCALE,
{
}

/// Whether an enchant attempt takes, for a uniform roll in
/// `[0, ENCHANT_BP_SCALE)`: it takes when the roll falls under the odds, and
/// otherwise the weapon is destroyed.
pub fn enchant_takes(enchant: i32, roll_bp: u32) -> (r: bool)
    ensures
        r == (roll_bp < spec_enchant_success_bp(enchant)),
{
    roll_bp < enchant_success_bp(enchant)
}

/// The first position at or after `i` of the stack with id `id`.
pub open spec fn find_instance_from(bag: Seq<ItemInstance>, id: u64, i: int) -> Option<int>
    decreases bag.len() - i,
{
    if i < 0 || i >= bag.len() {
        None
    } else if bag[i].instance_id == id {
        Some(i)
    } else {
        find_instance_from(bag, id, i + 1)
    }
}

/// The first position of the stack with id `id`.
pub open spec fn find_instance(bag: Seq<ItemInstance>, id: u64) -> Option<int> {
    find_instance_from(bag, id, 0)
}

/// The bag after one unit of the stack at `idx` is used: the stack shrinks
/// by one, or leaves the bag when it held a single unit.
pub open spec fn take_one(bag: Seq<ItemInstance>, idx: int) -> Seq<ItemInstance> {
    let it = bag[idx];
    if it.quantity > 1 {
        bag.update(
            idx,
            ItemInstance {
                instance_id: it.instance_id,
                item_def_id: it.item_def_id,
                quantity: (it.quantity - 1) as u32,
                enchant: it.enchant,
            },
        )
    } else {
        bag.remove(idx)
    }
}

/// The units of item `id` one stack contributes.
pub open spec fn stack_units(it: ItemInstance, id: Seq<char>) -> int {
    if it.item_def_id@ == id {
        it.quantity as int
    } else {
        0
    }
}

/// All units of item `id` in the bag, over every stack of it.
pub open spec fn units_of(bag: Seq<ItemInstance>, id: Seq<char>) -> int
    decreases bag.len(),
{
    if bag.len() == 0 {
        0
    } else {
        units_of(bag.drop_last(), id) + stack_units(bag.last(), id)
    }
}

proof fn lemma_units_update(bag: Seq<ItemInstance>, k: int, x: ItemInstance, id: Seq<char>)
    requires
        0 <= k < bag.len(),
    ensures
        units_of(bag.update(k, x), id) == units_of(bag, id) - stack_units(bag[k], id) + stack_units(x, id),
    decreases bag.len(),
{
    let u = bag.update(k, x);
    if k == bag.len() - 1 {
        assert(u.drop_last() =~= bag.drop_last());
    } else {
        assert(u.drop_last() =~= bag.drop_last().update(k, x));
        lemma_units_update(bag.drop_last(), k, x, id);
    }
}

proof fn lemma_units_remove(bag: Seq<ItemInstance>, k: int, id: Seq<char>)
    requires
        0 <= k < bag.len(),
    ensures
        units_of(bag.remove(k), id) == units_of(bag, id) - stack_units(bag[k], id),
    decreases bag.len(),
{
    let r = bag.remove(k);
    if k == bag.len() - 1 {
        assert(r =~= bag.drop_last());
    } else {
        assert(r.drop_last() =~= bag.drop_last().remove(k));
        assert(r.last() == bag.last());
        lemma_units_remove(bag.drop_last(), k, id);
    }
}

/// Using up one unit of a stack that holds any takes exactly one unit of
/// its item out of the bag, and leaves every other item's count alone.
pub proof fn lemma_take_one_takes_a_unit(bag: Seq<ItemInstance>, idx: int, id: Seq<char>)
    requires
        0 <= idx < bag.len(),
        bag[idx].quantity >= 1,
    ensures
        units_of(take_one(bag, idx), id) == units_of(bag, id) - (if bag[idx].item_def_id@ == id {
            1int
        } else {
            0int
        }),
{
    let it = bag[idx];
    if it.quantity > 1 {
        lemma_units_update(
            bag,
            idx,
            ItemInstance {
                instance_id: it.instance_id,
                item_def_id: it.item_def_id,
                quantity: (it.quantity - 1) as u32,
                enchant: it.enchant,
            },
            id,
        );
    } else {
        lemma_units_remove(bag, idx, id);
    }
}

proof fn lemma_find_stack_is_stack(bag: Seq<ItemInstance>, def: Seq<char>, i: int)
    ensures
        find_stack_from(bag, def, i) matches Some(k) ==> 0 <= k < bag.len() && bag[k].item_def_id@ == def,
    decreases bag.len() - i,
{
    if 0 <= i < bag.len() {
        lemma_find_stack_is_stack(bag, def, i + 1);
    }
}

proof fn lemma_find_instance_from(bag: Seq<ItemInstance>, id: u64, i: int)
    requires
        0 <= i <= bag.len(),
    ensures
        find_instance_from(bag, id, i) matches Some(k) ==> i <= k < bag.len() && bag[k].instance_id
            == id && forall|j: int| i <= j < k ==> bag[j].instance_id != id,
        find_instance_from(bag, id, i) is None ==> forall|j: int|
            i <= j < bag.len() ==> bag[j].instance_id != id,
    decreases bag.len() - i,
{
    if i < bag.len() && bag[i].instance_id != id {
        lemma_find_instance_from(bag, id, i + 1);
    }
}

/// The stack `find_instance` names lies in the bag and carries the id.
pub proof fn lemma_find_instance_bounds(bag: Seq<ItemInstance>, id: u64)
    ensures
        find_instance(bag, id) matches Some(k) ==> 0 <= k < bag.len() && bag[k].instance_id == id,
{
    lemma_find_instance_from(bag, id, 0);
}

/// Position of the first stack with id `id` in `bag`, if any.
pub fn position_of_instance(bag: &Vec<ItemInstance>, id: u64) -> (r: Option<usize>)
    ensures
        match r {
            Some(k) => find_instance(bag@, id) == Some(k as int),
            None => find_instance(bag@, id) is None,
        },
{
    let mut i: usize = 0;
    while i < bag.len()
        invariant
            0 <= i <= bag@.len(),
            find_instance(bag@, id) == find_instance_from(bag@, id, i as int),
        decreases bag@.len() - i,
    {
        if bag[i].instance_id == id {
            return Some(i);
        }
        i = i + 1;
    }
    None
}

/// Remove one unit of `instance_id` from the bag, dropping the stack when
/// it empties; a bag without that id is left as it is.
pub fn consume_one(inv: &mut PlayerInventory, instance_id: u64)
    ensures
        final(inv).bag@ == match find_instance(old(inv).bag@, instance_id) {
            Some(k) => take_one(old(inv).bag@, k),
            None => old(inv).bag@,
        },
        final(inv).equipped == old(inv).equipped,
{
    if let Some(idx) = position_of_instance(&inv.bag, instance_id) {
        proof {
            lemma_find_instance_from(inv.bag@, instance_id, 0);
        }
        take_one_unit(&mut inv.bag, idx);
    }
}

/// Use up one unit of the stack at `idx`.
pub fn take_one_unit(bag: &mut Vec<ItemInstance>, idx: usize)
    requires
        idx < old(bag)@.len(),
    ensures
        final(bag)@ == take_one(old(bag)@, idx as int),
{
    let item = bag.remove(idx);
    if item.quantity > 1 {
        let shrunk = ItemInstance {
            instance_id: item.instance_id,
            item_def_id: item.item_def_id,
            quantity: item.quantity - 1,
            enchant: item.enchant,
        };
        bag.insert(idx, shrunk);
        proof {
            assert(bag@ =~= take_one(old(bag)@, idx as int));
        }
    }
}

/// The first stack at or after `i` of item `def` that is not enchanted.
pub open spec fn find_stack_from(bag: Seq<ItemInstance>, def: Seq<char>, i: int) -> Option<int>
    decreases bag.len() - i,
{
    if i < 0 || i >= bag.len() {
        None
    } else if bag[i].item_def_id@ == def && bag[i].enchant == 0 {
        Some(i)
    } else {
        find_stack_from(bag, def, i + 1)
    }
}

/// Add one unit of item `item_def_id` to the bag: onto the first
/// unenchanted stack of it, or as a new stack with id `new_instance_id`.
pub fn add_stackable_unit(bag: &mut Vec<ItemInstance>, item_def_id: &str, new_instance_id: u64)
    requires
        find_stack_from(old(bag)@, item_def_id@, 0) matches Some(k) ==> old(bag)@[k].quantity
            < u32::MAX,
    ensures
        find_stack_from(old(bag)@, item_def_id@, 0) matches Some(k) ==> final(bag)@ == old(
            bag,
        )@.update(
            k,
            ItemInstance {
                instance_id: old(bag)@[k].instance_id,
                item_def_id: old(bag)@[k].item_def_id,
                quantity: (old(bag)@[k].quantity + 1) as u32,
                enchant: old(bag)@[k].enchant,
            },
        ),
        find_stack_from(old(bag)@, item_def_id@, 0) is None ==> {
            &&& final(bag)@.len() == old(bag)@.len() + 1
            &&& final(bag)@.subrange(0, old(bag)@.len() as int) == old(bag)@
            &&& final(bag)@.last().instance_id == new_instance_id
            &&& final(bag)@.last().item_def_id@ == item_def_id@
            &&& final(bag)@.last().quantity == 1
            &&& final(bag)@.last().enchant == 0
        },
        units_of(final(bag)@, item_def_id@) == units_of(old(bag)@, item_def_id@) + 1,
{
    let ghost b0 = bag@;
    proof {
        lemma_find_stack_is_stack(b0, item_def_id@, 0);
    }
    let mut i: usize = 0;
    while i < bag.len()
        invariant
            bag@ == b0,
            b0 == old(bag)@,
            0 <= i <= bag@.len(),
            find_stack_from(b0, item_def_id@, 0) == find_stack_from(b0, item_def_id@, i as int),
            find_stack_from(b0, item_def_id@, 0) matches Some(k) ==> b0[k].quantity < u32::MAX,
        decreases bag@.len() - i,
    {
        let same = bag[i].enchant == 0 && str_eq(bag[i].item_def_id.as_str(), item_def_id);
        if same {
            proof {
                assert(find_stack_from(b0, item_def_id@, i as int) == Some(i as int));
            }
            let item = bag.remove(i);
            let grown = ItemInstance {
                instance_id: item.instance_id,
                item_def_id: item.item_def_id,
                quantity: item.quantity + 1,
                enchant: item.enchant,
            };
            bag.insert(i, grown);
            proof {
                assert(bag@ =~= b0.update(
                    i as int,
                    ItemInstance {
                        instance_id: b0[i as int].instance_id,
                        item_def_id: b0[i as int].item_def_id,
                        quantity: (b0[i as int].quantity + 1) as u32,
                        enchant: b0[i as int].enchant,
                    },
                ));
                lemma_units_update(b0, i as int, bag@[i as int], item_def_id@);
            }
            return;
        }
        i = i + 1;
    }
    bag.push(
        ItemInstance {
            instance_id: new_instance_id,
            item_def_id: String::from_str(item_def_id),
            quantity: 1,
            enchant: 0,
        },
    );
    proof {
        assert(bag@.subrange(0, b0.len() as int) =~= b0);
        assert(bag@.drop_last() =~= b0);
    }
}

/// The slot an item whose own slot is `slot` equips into: its own slot
/// when free, else its alternate when that exists and is free, else its
/// own slot again (swapping the occupant back into the bag).
pub open spec fn spec_equip_target(slot: EquipSlot, own_taken: bool, alternate_taken: bool) -> EquipSlot {
    if !own_taken {
        slot
    } else {
        match spec_alternate(slot) {
            Some(alt) => if !alternate_taken { alt } else { slot },
            None => slot,
        }
    }
}

/// Choose the slot an item equips into, given whether its own slot and its
/// alternate slot (if it has one) are occupied.
pub fn equip_target_slot(slot: EquipSlot, own_taken: bool, alternate_taken: bool) -> (r: EquipSlot)
    ensures
        r == spec_equip_target(slot, own_taken, alternate_taken),
{
    if !own_taken {
        slot
    } else {
        match slot.alternate() {
            Some(alt) => if !alternate_taken { alt } else { slot },
            None => slot,
        }
    }
}

/// Why picking up a ground item fails.
#[derive(Debug, Clone, Copy, PartialEq, Eq, Structural)]
pub enum PickupRefusal {
    Gone,
    TooFar,
    OtherFloor,
    TooHeavy,
}

pub open spec fn pickup_refusal_text(r: PickupRefusal) -> Seq<char> {
    match r {
        PickupRefusal::Gone => "Item no longer exists"@,
        PickupRefusal::TooFar => "Too far away"@,
        PickupRefusal::OtherFloor => "Item is on a different floor"@,
        PickupRefusal::TooHeavy => "Too heavy to carry"@,
    }
}

impl PickupRefusal {
    pub fn message(&self) -> (r: &'static str)
        ensures
            r@ == pickup_refusal_text(*self),
    {
        match self {
            PickupRefusal::Gone => "Item no longer exists",
            PickupRefusal::TooFar => "Too far away",
            PickupRefusal::OtherFloor => "Item is on a different floor",
            PickupRefusal::TooHeavy => "Too heavy to carry",
        }
    }
}

/// What a pickup does once the item is in reach on the player's floor.
#[derive(Debug, Clone, Copy, PartialEq, Eq, Structural)]
pub enum PickupAction {
    /// A coin pile: credited to the wallet, not the bag.
    CreditCoins,
    /// Into the bag.
    Bag,
}

/// The checks of a pickup, in order: the item still lies there, it is in
/// reach, on the player's floor (exact match), then coin piles go to the
/// wallet, and anything else to the bag if the weight allows.
pub fn pickup_decision(
    exists: bool,
    in_reach: bool,
    player_floor: i8,
    item_floor: i8,
    is_coin_pile: bool,
    can_carry: bool,
) -> (r: Result<PickupAction, PickupRefusal>)
    ensures
        r == (if !exists {
            Err(PickupRefusal::Gone)
        } else if !in_reach {
            Err(PickupRefusal::TooFar)
        } else if player_floor != item_floor {
            Err(PickupRefusal::OtherFloor)
        } else if is_coin_pile {
            Ok(PickupAction::CreditCoins)
        } else if !can_carry {
            Err(PickupRefusal::TooHeavy)
        } else {
            Ok::<PickupAction, PickupRefusal>(PickupAction::Bag)
        }),
{
    if !exists {
        Err(PickupRefusal::Gone)
    } else if !in_reach {
        Err(PickupRefusal::TooFar)
    } else if player_floor != item_floor {
        Err(PickupRefusal::OtherFloor)
    } else if is_coin_pile {
        Ok(PickupAction::CreditCoins)
    } else if !can_carry {
        Err(PickupRefusal::TooHeavy)
    } else {
        Ok(PickupAction::Bag)
    }
}

/// The bag after a picked-up item lands in it: a one-unit stack keeping the
/// ground item's id, item and enchantment, at the end of the bag.
pub fn bag_picked_up(bag: &mut Vec<ItemInstance>, instance_id: u64, item_def_id: String, enchant: i32)
    ensures
        final(bag)@ == old(bag)@.push(
            ItemInstance { instance_id, item_def_id, quantity: 1, enchant },
        ),
{
    bag.push(ItemInstance { instance_id, item_def_id, quantity: 1, enchant });
}

/// Why an item cannot be used from the bag.
#[derive(Debug, Clone, Copy, PartialEq, Eq, Structural)]
pub enum UseRefusal {
    NotInBag,
    NotUsable,
}

impl UseRefusal {
    pub fn message(&self) -> (r: &'static str)
        ensures
            r@ == (match *self {
                UseRefusal::NotInBag => "Item not found in bag"@,
                UseRefusal::NotUsable => "This item cannot be used"@,
            }),
    {
        match self {
            UseRefusal::NotInBag => "Item not found in bag",
            UseRefusal::NotUsable => "This item cannot be used",
        }
    }
}

/// The effect the catalog gives item `id`, if it defines one.
pub open spec fn def_use_effect(defs: Seq<ItemDefinition>, id: Seq<char>) -> Option<UseEffect> {
    if defines(defs, id) {
        spec_use_effect(def_of(defs, id))
    } else {
        None
    }
}

/// What using the bag item with id `instance_id` does: refused when the bag
/// holds no such item, or when the catalog gives it no effect.
pub fn item_use_effect(bag: &Vec<ItemInstance>, defs: &ItemDefs, instance_id: u64) -> (r: Result<
    UseEffect,
    UseRefusal,
>)
    requires
        ids_unique(defs.defs@),
    ensures
        match find_instance(bag@, instance_id) {
            None => r == Err::<UseEffect, UseRefusal>(UseRefusal::NotInBag),
            Some(k) => match def_use_effect(defs.defs@, bag@[k].item_def_id@) {
                Some(e) => r == Ok::<UseEffect, UseRefusal>(e),
                None => r == Err::<UseEffect, UseRefusal>(UseRefusal::NotUsable),
            },
        },
{
    let k = match position_of_instance(bag, instance_id) {
        Some(k) => k,
        None => {
            return Err(UseRefusal::NotInBag);
        },
    };
    proof {
        lemma_find_instance_bounds(bag@, instance_id);
    }
    match defs.get(bag[k].item_def_id.as_str()) {
        Some(d) => {
            proof {
                let i = choose|i: int| 0 <= i < defs.defs@.len() && defs.defs@[i] == *d && d.id@
                    == bag@[k as int].item_def_id@;
                lemma_def_of_at(defs.defs@, i);
            }
            match d.use_effect() {
                Some(e) => Ok(e),
                None => Err(UseRefusal::NotUsable),
            }
        },
        None => Err(UseRefusal::NotUsable),
    }
}

/// Why an enchant-weapon scroll stays unread.
#[derive(Debug, Clone, Copy, PartialEq, Eq, Structural)]
pub enum EnchantRefusal {
    Defeated,
    NoWeapon,
}

impl EnchantRefusal {
    pub fn message(&self) -> (r: &'static str)
        ensures
            r@ == (match *self {
                EnchantRefusal::Defeated => "You can't read while defeated"@,
                EnchantRefusal::NoWeapon => "You have no weapon wielded to enchant"@,
            }),
    {
        match self {
            EnchantRefusal::Defeated => "You can't read while defeated",
            EnchantRefusal::NoWeapon => "You have no weapon wielded to enchant",
        }
    }
}

/// What reading an enchant-weapon scroll did to the wielded weapon: it
/// gained a level (the new one), or it was destroyed.
#[derive(Debug, Clone, Copy, PartialEq, Eq, Structural)]
pub enum EnchantOutcome {
    Honed(i32),
    Shattered,
}

/// The main hand holds an item that the catalog defines as a weapon.
pub open spec fn wields_weapon(e: Map<EquipSlot, ItemInstance>, defs: Seq<ItemDefinition>) -> bool {
    &&& e.contains_key(EquipSlot::MainHand)
    &&& exists|i: int|
        0 <= i < defs.len() && #[trigger] defs[i].id@ == e[EquipSlot::MainHand].item_def_id@
            && category_is(defs[i], "weapon"@)
}

/// The main hand holds an item that the catalog puts in category `cat`
/// (a fishing rod, a pickaxe, an axe).
pub open spec fn wields_kind(e: Map<EquipSlot, ItemInstance>, defs: Seq<ItemDefinition>, cat: Seq<char>) -> bool {
    &&& e.contains_key(EquipSlot::MainHand)
    &&& exists|i: int|
        0 <= i < defs.len() && #[trigger] defs[i].id@ == e[EquipSlot::MainHand].item_def_id@
            && category_is(defs[i], cat)
}

/// Whether the main hand holds an item of category `cat`: the check a
/// gathering session (fishing, mining, chopping) needs at its start and
/// after every change of gear, which ends the session when it fails.
pub fn main_hand_is(equipped: &Equipped, defs: &ItemDefs, cat: &str) -> (r: bool)
    requires
        ids_unique(defs.defs@),
    ensures
        r == wields_kind(equipped@, defs.defs@, cat@),
{
    match equipped.get(EquipSlot::MainHand) {
        Some(item) => match defs.get(item.item_def_id.as_str()) {
            Some(d) => {
                proof {
                    let i = choose|i: int| 0 <= i < defs.defs@.len() && defs.defs@[i] == *d && d.id@
                        == item.item_def_id@;
                    lemma_def_of_at(defs.defs@, i);
                    assert forall|j: int|
                        0 <= j < defs.defs@.len() && #[trigger] defs.defs@[j].id@ == item.item_def_id@ implies j
                        == i by {
                        if j < i {
                            assert(defs.defs@[j].id@ != defs.defs@[i].id@);
                        } else if i < j {
                            assert(defs.defs@[i].id@ != defs.defs@[j].id@);
                        }
                    }
                }
                d.has_category(cat)
            },
            None => false,
        },
        None => false,
    }
}

/// After a change of gear, whether a running gathering session must stop:
/// it is running (`active`) and the main hand no longer holds an item of
/// its tool category `cat` (the rod was unequipped, swapped or dropped; the
/// axe put away).
pub fn tool_lost(active: bool, equipped: &Equipped, defs: &ItemDefs, cat: &str) -> (r: bool)
    requires
        ids_unique(defs.defs@),
    ensures
        r == (active && !wields_kind(equipped@, defs.defs@, cat@)),
{
    active && !main_hand_is(equipped, defs, cat)
}

/// Emptying the main hand (unequipping it, or dropping what it held)
/// leaves no tool in it, so a session that needs one ends: losing the rod
/// aborts fishing.
pub proof fn lemma_empty_main_hand_holds_no_tool(
    e: Map<EquipSlot, ItemInstance>,
    defs: Seq<ItemDefinition>,
    cat: Seq<char>,
)
    ensures
        !wields_kind(e.remove(EquipSlot::MainHand), defs, cat),
{
}

/// `w` one enchantment level higher.
pub open spec fn honed(w: ItemInstance) -> ItemInstance {
    ItemInstance {
        instance_id: w.instance_id,
        item_def_id: w.item_def_id,
        quantity: w.quantity,
        enchant: (w.enchant + 1) as i32,
    }
}

/// Read the enchant-weapon scroll with id `scroll_id`, for a uniform roll
/// in `[0, ENCHANT_BP_SCALE)`. Refused, the scroll kept, while defeated or
/// without a weapon wielded. Otherwise the scroll is used up whatever
/// happens, and the wielded weapon gains a level when the roll falls under
/// its odds, or bursts into dust.
pub fn read_enchant_scroll(
    inv: &mut PlayerInventory,
    defs: &ItemDefs,
    defeated: bool,
    scroll_id: u64,
    roll_bp: u32,
) -> (r: Result<EnchantOutcome, EnchantRefusal>)
    requires
        ids_unique(defs.defs@),
        slots_unique(old(inv).equipped.slots@),
        old(inv).equipped@.contains_key(EquipSlot::MainHand) ==> old(inv).equipped@[EquipSlot::MainHand].enchant
            < i32::MAX,
    ensures
        slots_unique(final(inv).equipped.slots@),
        defeated ==> r == Err::<EnchantOutcome, EnchantRefusal>(EnchantRefusal::Defeated) && *final(inv)
            == *old(inv),
        !defeated && !wields_weapon(old(inv).equipped@, defs.defs@) ==> r == Err::<
            EnchantOutcome,
            EnchantRefusal,
        >(EnchantRefusal::NoWeapon) && *final(inv) == *old(inv),
        !defeated && wields_weapon(old(inv).equipped@, defs.defs@) ==> {
            let w = old(inv).equipped@[EquipSlot::MainHand];
            &&& final(inv).bag@ == match find_instance(old(inv).bag@, scroll_id) {
                Some(k) => take_one(old(inv).bag@, k),
                None => old(inv).bag@,
            }
            &&& if roll_bp < spec_enchant_success_bp(w.enchant) {
                &&& r == Ok::<EnchantOutcome, EnchantRefusal>(EnchantOutcome::Honed((w.enchant + 1) as i32))
                &&& final(inv).equipped@ == old(inv).equipped@.insert(EquipSlot::MainHand, honed(w))
            } else {
                &&& r == Ok::<EnchantOutcome, EnchantRefusal>(EnchantOutcome::Shattered)
                &&& final(inv).equipped@ == old(inv).equipped@.remove(EquipSlot::MainHand)
            }
        },
{
    if defeated {
        return Err(EnchantRefusal::Defeated);
    }
    let wielding = match inv.equipped.get(EquipSlot::MainHand) {
        Some(item) => match defs.get(item.item_def_id.as_str()) {
            Some(d) => {
                let weapon = d.is_weapon();
                proof {
                    let i = choose|i: int| 0 <= i < defs.defs@.len() && defs.defs@[i] == *d && d.id@ == item.item_def_id@;
                    assert forall|j: int|
                        0 <= j < defs.defs@.len() && #[trigger] defs.defs@[j].id@ == item.item_def_id@ implies j == i by {
                        if j < i {
                            assert(defs.defs@[j].id@ != defs.defs@[i].id@);
                        } else if i < j {
                            assert(defs.defs@[i].id@ != defs.defs@[j].id@);
                        }
                    }
                }
                weapon
            },
            None => false,
        },
        None => false,
    };
    if !wielding {
        return Err(EnchantRefusal::NoWeapon);
    }
    let ghost e0 = inv.equipped@;
    consume_one(inv, scroll_id);
    match inv.equipped.remove(EquipSlot::MainHand) {
        Some(w) => {
            if enchant_takes(w.enchant, roll_bp) {
                let level = w.enchant + 1;
                let better = ItemInstance {
                    instance_id: w.instance_id,
                    item_def_id: w.item_def_id,
                    quantity: w.quantity,
                    enchant: level,
                };
                inv.equipped.insert(EquipSlot::MainHand, better);
                proof {
                    assert(inv.equipped@ =~= e0.insert(EquipSlot::MainHand, honed(e0[EquipSlot::MainHand])));
                }
                Ok(EnchantOutcome::Honed(level))
            } else {
                Ok(EnchantOutcome::Shattered)
            }
        },
        None => Err(EnchantRefusal::NoWeapon),
    }
}

/// Read the enchant-weapon scroll with id `scroll_id` on a fresh roll in
/// `[0, ENCHANT_BP_SCALE)`. Refused, the scroll kept, while defeated or
/// without a weapon wielded; otherwise the scroll is used up and the
/// weapon either gains a level or bursts into dust, and it always gains the
/// level while its odds are certain (through +4).
pub fn use_enchant_scroll(
    inv: &mut PlayerInventory,
    defs: &ItemDefs,
    defeated: bool,
    scroll_id: u64,
) -> (r: Result<EnchantOutcome, EnchantRefusal>)
    requires
        ids_unique(defs.defs@),
        slots_unique(old(inv).equipped.slots@),
        old(inv).equipped@.contains_key(EquipSlot::MainHand) ==> old(inv).equipped@[EquipSlot::MainHand].enchant
            < i32::MAX,
    ensures
        slots_unique(final(inv).equipped.slots@),
        defeated ==> r == Err::<EnchantOutcome, EnchantRefusal>(EnchantRefusal::Defeated) && *final(inv)
            == *old(inv),
        !defeated && !wields_weapon(old(inv).equipped@, defs.defs@) ==> r == Err::<
            EnchantOutcome,
            EnchantRefusal,
        >(EnchantRefusal::NoWeapon) && *final(inv) == *old(inv),
        !defeated && wields_weapon(old(inv).equipped@, defs.defs@) ==> {
            let w = old(inv).equipped@[EquipSlot::MainHand];
            &&& final(inv).bag@ == match find_instance(old(inv).bag@, scroll_id) {
                Some(k) => take_one(old(inv).bag@, k),
                None => old(inv).bag@,
            }
            &&& ({
                &&& r == Ok::<EnchantOutcome, EnchantRefusal>(EnchantOutcome::Honed((w.enchant + 1) as i32))
                &&& final(inv).equipped@ == old(inv).equipped@.insert(EquipSlot::MainHand, honed(w))
            } || {
                &&& r == Ok::<EnchantOutcome, EnchantRefusal>(EnchantOutcome::Shattered)
                &&& final(inv).equipped@ == old(inv).equipped@.remove(EquipSlot::MainHand)
            })
            &&& spec_enchant_success_bp(w.enchant) == ENCHANT_BP_SCALE ==> r == Ok::<
                EnchantOutcome,
                EnchantRefusal,
            >(EnchantOutcome::Honed((w.enchant + 1) as i32))
        },
{
    if defeated {
        return Err(EnchantRefusal::Defeated);
    }
    let roll_bp = roll_u32_inclusive(0, ENCHANT_BP_SCALE - 1);
    read_enchant_scroll(inv, defs, defeated, scroll_id, roll_bp)
}

/// Why a healing item stays in the bag.
#[derive(Debug, Clone, Copy, PartialEq, Eq, Structural)]
pub enum HealRefusal {
    Defeated,
    FullHealth,
}

impl HealRefusal {
    pub fn message(&self) -> (r: &'static str)
        ensures
            r@ == (match *self {
                HealRefusal::Defeated => "You can't drink while defeated"@,
                HealRefusal::FullHealth => "You are already at full health"@,
            }),
    {
        match self {
            HealRefusal::Defeated => "You can't drink while defeated",
            HealRefusal::FullHealth => "You are already at full health",
        }
    }
}

/// Drinking a healing item that rolled `amount`: refused while defeated or
/// already at full health; else health rises by the roll up to the cap.
pub fn healed_health(health: u32, max_health: u32, amount: u32) -> (r: Result<u32, HealRefusal>)
    requires
        0 < health < max_health ==> health + amount <= u32::MAX,
    ensures
        r == (if health == 0 {
            Err(HealRefusal::Defeated)
        } else if health >= max_health {
            Err(HealRefusal::FullHealth)
        } else if health + amount < max_health {
            Ok((health + amount) as u32)
        } else {
            Ok(max_health)
        }),
{
    if health == 0 {
        return Err(HealRefusal::Defeated);
    }
    if health >= max_health {
        return Err(HealRefusal::FullHealth);
    }
    let raised = health + amount;
    if raised < max_health {
        Ok(raised)
    } else {
        Ok(max_health)
    }
}

/// How long an item lies on the ground before it despawns.
pub const GROUND_ITEM_LIFETIME_MS: u64 = 300_000;

/// An item dropped at `dropped_at_ms` has lain longer than its lifetime
/// at `now_ms` (a drop stamped in the future counts as just dropped).
pub open spec fn ground_item_expired(dropped_at_ms: u64, now_ms: u64) -> bool {
    now_ms > dropped_at_ms && now_ms - dropped_at_ms > GROUND_ITEM_LIFETIME_MS
}

/// The ids, in order, of the `(id, dropped_at_ms)` ground items that have
/// expired at `now_ms`.
pub open spec fn expired_ids(items: Seq<(u64, u64)>, now_ms: u64) -> Seq<u64>
    decreases items.len(),
{
    if items.len() == 0 {
        Seq::empty()
    } else {
        let rest = expired_ids(items.drop_last(), now_ms);
        if ground_item_expired(items.last().1, now_ms) {
            rest.push(items.last().0)
        } else {
            rest
        }
    }
}

/// The ground items to despawn at `now_ms`.
pub fn expired_ground_items(items: &[(u64, u64)], now_ms: u64) -> (r: Vec<u64>)
    ensures
        r@ == expired_ids(items@, now_ms),
{
    let mut r: Vec<u64> = Vec::new();
    let mut i: usize = 0;
    while i < items.len()
        invariant
            0 <= i <= items@.len(),
            r@ == expired_ids(items@.subrange(0, i as int), now_ms),
        decreases items@.len() - i,
    {
        let (id, dropped) = items[i];
        proof {
            assert(items@.subrange(0, i + 1).drop_last() =~= items@.subrange(0, i as int));
        }
        if now_ms.saturating_sub(dropped) > GROUND_ITEM_LIFETIME_MS {
            r.push(id);
        }
        i = i + 1;
    }
    proof {
        assert(items@.subrange(0, items@.len() as int) =~= items@);
    }
    r
}

/// The items worn, in slot-entry order.
pub open spec fn worn_items(s: Seq<(EquipSlot, ItemInstance)>) -> Seq<ItemInstance> {
    s.map_values(|e: (EquipSlot, ItemInstance)| e.1)
}

/// Every item a player holds, in the bag or worn.
pub open spec fn held_items(inv: PlayerInventory) -> Multiset<ItemInstance> {
    inv.bag@.to_multiset().add(worn_items(inv.equipped.slots@).to_multiset())
}

/// Whether the alternate slot of `slot` (if it has one) is taken.
pub open spec fn alternate_taken(e: Map<EquipSlot, ItemInstance>, slot: EquipSlot) -> bool {
    match spec_alternate(slot) {
        Some(a) => e.contains_key(a),
        None => false,
    }
}

/// The bag after its item at `idx` is worn in `target`: the item leaves the
/// bag, and whatever `target` held goes to the bag's end.
pub open spec fn bag_after_equip(
    worn: Map<EquipSlot, ItemInstance>,
    bag: Seq<ItemInstance>,
    idx: int,
    target: EquipSlot,
) -> Seq<ItemInstance> {
    if worn.contains_key(target) {
        bag.remove(idx).push(worn[target])
    } else {
        bag.remove(idx)
    }
}

/// The bag after `slot` is emptied into it.
pub open spec fn bag_after_unequip(
    worn: Map<EquipSlot, ItemInstance>,
    bag: Seq<ItemInstance>,
    slot: EquipSlot,
) -> Seq<ItemInstance> {
    if worn.contains_key(slot) {
        bag.push(worn[slot])
    } else {
        bag
    }
}

/// Equip the bag item at `bag_idx`, whose definition wears it in
/// `item_slot`: it goes into that slot, or into the alternate slot when its
/// own is taken and the alternate is free; whatever the chosen slot held
/// goes back into the bag. Returns the chosen slot.
pub fn equip_from_bag(inv: &mut PlayerInventory, bag_idx: usize, item_slot: EquipSlot) -> (target: EquipSlot)
    requires
        bag_idx < old(inv).bag@.len(),
        slots_unique(old(inv).equipped.slots@),
    ensures
        target == spec_equip_target(
            item_slot,
            old(inv).equipped@.contains_key(item_slot),
            alternate_taken(old(inv).equipped@, item_slot),
        ),
        final(inv).equipped@ == old(inv).equipped@.insert(target, old(inv).bag@[bag_idx as int]),
        final(inv).bag@ == bag_after_equip(old(inv).equipped@, old(inv).bag@, bag_idx as int, target),
        slots_unique(final(inv).equipped.slots@),
        held_items(*final(inv)) == held_items(*old(inv)),
{
    broadcast use vstd::seq_lib::group_to_multiset_ensures;
    broadcast use vstd::multiset::group_multiset_axioms;
    let ghost b0 = inv.bag@;
    let ghost s0 = inv.equipped.slots@;
    let own = inv.equipped.contains_key(item_slot);
    let alt = match item_slot.alternate() {
        Some(a) => inv.equipped.contains_key(a),
        None => false,
    };
    let target = equip_target_slot(item_slot, own, alt);
    let item = inv.bag.remove(bag_idx);
    proof {
        lemma_slot_pos_from(s0, target, 0);
        b0.remove_ensures(bag_idx as int);
    }
    let prev = inv.equipped.insert(target, item);
    match prev {
        Some(old_item) => {
            inv.bag.push(old_item);
            proof {
                let k = slot_pos(s0, target).unwrap();
                assert(worn_items(inv.equipped.slots@) =~= worn_items(s0).update(k, item));
                assert(old_item == worn_items(s0)[k]);
                assert(held_items(*inv) =~= held_items(*old(inv)));
            }
        },
        None => {
            proof {
                assert(worn_items(inv.equipped.slots@) =~= worn_items(s0).push(item));
                assert(held_items(*inv) =~= held_items(*old(inv)));
            }
        },
    }
    target
}

/// Why an item stays in the bag.
#[derive(Debug, Clone, Copy, PartialEq, Eq, Structural)]
pub enum EquipRefusal {
    NotInBag,
    NotEquippable,
}

impl EquipRefusal {
    pub fn message(&self) -> (r: &'static str)
        ensures
            r@ == (match *self {
                EquipRefusal::NotInBag => "Item not found in bag"@,
                EquipRefusal::NotEquippable => "This item cannot be equipped"@,
            }),
    {
        match self {
            EquipRefusal::NotInBag => "Item not found in bag",
            EquipRefusal::NotEquippable => "This item cannot be equipped",
        }
    }
}

/// The slot the catalog wears item `id` in, if it defines one.
pub open spec fn def_slot(defs: Seq<ItemDefinition>, id: Seq<char>) -> Option<EquipSlot> {
    if defines(defs, id) {
        def_of(defs, id).equip_slot
    } else {
        None
    }
}

/// Equip the bag item with id `instance_id`: refused when the bag holds no
/// such item or the catalog gives it no slot; otherwise it is worn as
/// `equip_from_bag` wears it, and the chosen slot is returned.
pub fn equip_by_id(inv: &mut PlayerInventory, defs: &ItemDefs, instance_id: u64) -> (r: Result<
    EquipSlot,
    EquipRefusal,
>)
    requires
        ids_unique(defs.defs@),
        slots_unique(old(inv).equipped.slots@),
    ensures
        slots_unique(final(inv).equipped.slots@),
        held_items(*final(inv)) == held_items(*old(inv)),
        match find_instance(old(inv).bag@, instance_id) {
            None => r == Err::<EquipSlot, EquipRefusal>(EquipRefusal::NotInBag) && *final(inv) == *old(inv),
            Some(k) => match def_slot(defs.defs@, old(inv).bag@[k].item_def_id@) {
                None => r == Err::<EquipSlot, EquipRefusal>(EquipRefusal::NotEquippable) && *final(inv)
                    == *old(inv),
                Some(s) => {
                    let target = spec_equip_target(
                        s,
                        old(inv).equipped@.contains_key(s),
                        alternate_taken(old(inv).equipped@, s),
                    );
                    &&& r == Ok::<EquipSlot, EquipRefusal>(target)
                    &&& final(inv).equipped@ == old(inv).equipped@.insert(target, old(inv).bag@[k])
                    &&& final(inv).bag@ == bag_after_equip(old(inv).equipped@, old(inv).bag@, k, target)
                },
            },
        },
{
    let k = match position_of_instance(&inv.bag, instance_id) {
        Some(k) => k,
        None => {
            return Err(EquipRefusal::NotInBag);
        },
    };
    proof {
        lemma_find_instance_bounds(inv.bag@, instance_id);
    }
    let slot = match defs.get(inv.bag[k].item_def_id.as_str()) {
        Some(d) => {
            proof {
                let i = choose|i: int| 0 <= i < defs.defs@.len() && defs.defs@[i] == *d && d.id@
                    == inv.bag@[k as int].item_def_id@;
                lemma_def_of_at(defs.defs@, i);
            }
            d.equip_slot
        },
        None => None,
    };
    match slot {
        Some(s) => Ok(equip_from_bag(inv, k, s)),
        None => Err(EquipRefusal::NotEquippable),
    }
}

/// Take the item out of `slot` and put it into the bag. Returns whether
/// the slot held one.
pub fn unequip_to_bag(inv: &mut PlayerInventory, slot: EquipSlot) -> (found: bool)
    requires
        slots_unique(old(inv).equipped.slots@),
    ensures
        found == old(inv).equipped@.contains_key(slot),
        final(inv).equipped@ == old(inv).equipped@.remove(slot),
        final(inv).bag@ == bag_after_unequip(old(inv).equipped@, old(inv).bag@, slot),
        slots_unique(final(inv).equipped.slots@),
        held_items(*final(inv)) == held_items(*old(inv)),
{
    broadcast use vstd::seq_lib::group_to_multiset_ensures;
    broadcast use vstd::multiset::group_multiset_axioms;
    let ghost s0 = inv.equipped.slots@;
    proof {
        lemma_slot_pos_from(s0, slot, 0);
    }
    match inv.equipped.remove(slot) {
        Some(item) => {
            inv.bag.push(item);
            proof {
                let k = slot_pos(s0, slot).unwrap();
                s0.remove_ensures(k);
                assert(worn_items(inv.equipped.slots@) =~= worn_items(s0).remove(k));
                assert(item == worn_items(s0)[k]);
                assert(held_items(*inv) =~= held_items(*old(inv)));
            }
            true
        },
        None => false,
    }
}

/// The first worn entry holding item instance `id`.
pub open spec fn worn_pos_from(s: Seq<(EquipSlot, ItemInstance)>, id: u64, i: int) -> Option<int>
    decreases s.len() - i,
{
    if i < 0 || i >= s.len() {
        None
    } else if s[i].1.instance_id == id {
        Some(i)
    } else {
        worn_pos_from(s, id, i + 1)
    }
}

/// Take item instance `id` out of the inventory for dropping: from the bag
/// if it is there, else from the slot wearing it. Returns the item and
/// whether it came out of the off hand; `None` (nothing changed) when the
/// player holds no such item.
pub fn take_for_drop(inv: &mut PlayerInventory, id: u64) -> (r: Option<(ItemInstance, bool)>)
    requires
        slots_unique(old(inv).equipped.slots@),
    ensures
        slots_unique(final(inv).equipped.slots@),
        match find_instance(old(inv).bag@, id) {
            Some(k) => r == Some((old(inv).bag@[k], false)) && final(inv).bag@ == old(inv).bag@.remove(k)
                && final(inv).equipped == old(inv).equipped,
            None => match worn_pos_from(old(inv).equipped.slots@, id, 0) {
                Some(p) => {
                    let e = old(inv).equipped.slots@[p];
                    &&& r == Some((e.1, e.0 == EquipSlot::OffHand))
                    &&& final(inv).equipped@ == old(inv).equipped@.remove(e.0)
                    &&& final(inv).bag@ == old(inv).bag@
                },
                None => r is None && *final(inv) == *old(inv),
            },
        },
        r matches Some((it, _)) ==> held_items(*old(inv)) == held_items(*final(inv)).insert(it),
{
    broadcast use vstd::seq_lib::group_to_multiset_ensures;
    broadcast use vstd::multiset::group_multiset_axioms;
    let ghost b0 = inv.bag@;
    let ghost s0 = inv.equipped.slots@;
    if let Some(k) = position_of_instance(&inv.bag, id) {
        proof {
            lemma_find_instance_bounds(b0, id);
            b0.remove_ensures(k as int);
        }
        let item = inv.bag.remove(k);
        proof {
            assert(held_items(*old(inv)) =~= held_items(*inv).insert(item));
        }
        return Some((item, false));
    }
    let mut i: usize = 0;
    while i < inv.equipped.slots.len()
        invariant
            0 <= i <= s0.len(),
            s0 == inv.equipped.slots@,
            *inv == *old(inv),
            slots_unique(s0),
            find_instance(old(inv).bag@, id) is None,
            worn_pos_from(s0, id, 0) == worn_pos_from(s0, id, i as int),
        decreases s0.len() - i,
    {
        if inv.equipped.slots[i].1.instance_id == id {
            let slot = inv.equipped.slots[i].0;
            proof {
                lemma_slot_pos_unique(s0, slot);
            }
            let item = match inv.equipped.remove(slot) {
                Some(it) => it,
                None => {
                    proof {
                        assert(false);
                    }
                    return None;
                },
            };
            proof {
                let k = i as int;
                s0.remove_ensures(k);
                worn_items(s0).remove_ensures(k);
                assert(inv.equipped.slots@ == s0.remove(k));
                assert forall|j: int| 0 <= j < s0.len() - 1 implies #[trigger] worn_items(inv.equipped.slots@)[j] == worn_items(s0).remove(k)[j] by {
                    if j < k {
                        assert(inv.equipped.slots@[j] == s0[j]);
                    } else {
                        assert(inv.equipped.slots@[j] == s0[j + 1]);
                    }
                }
                assert(worn_items(inv.equipped.slots@) =~= worn_items(s0).remove(k));
                assert(item == worn_items(s0)[k]);
                assert(worn_items(s0).contains(item));
                vstd::seq_lib::to_multiset_contains(worn_items(s0), item);
                vstd::seq_lib::to_multiset_remove(worn_items(s0), k);
                assert(worn_items(s0).to_multiset().count(item) > 0);
                assert(held_items(*old(inv)) =~= held_items(*inv).insert(item));
            }
            let off = slot == EquipSlot::OffHand;
            return Some((item, off));
        }
        i = i + 1;
    }
    None
}

/// Unequipping the slot an item was just equipped into, when that slot was
/// free, gives back the worn items as they were, and the bag holds the same
/// items as before, the equipped one now at its end.
pub proof fn lemma_unequip_undoes_equip(
    worn: Map<EquipSlot, ItemInstance>,
    bag: Seq<ItemInstance>,
    idx: int,
    target: EquipSlot,
)
    requires
        0 <= idx < bag.len(),
        !worn.contains_key(target),
    ensures
        worn.insert(target, bag[idx]).remove(target) == worn,
        bag_after_unequip(
            worn.insert(target, bag[idx]),
            bag_after_equip(worn, bag, idx, target),
            target,
        ) == bag.remove(idx).push(bag[idx]),
        bag_after_unequip(
            worn.insert(target, bag[idx]),
            bag_after_equip(worn, bag, idx, target),
            target,
        ).to_multiset() == bag.to_multiset(),
{
    broadcast use vstd::seq_lib::group_to_multiset_ensures;
    assert(worn.insert(target, bag[idx]).remove(target) =~= worn);
    bag.remove_ensures(idx);
    assert(bag.remove(idx).push(bag[idx]).to_multiset() =~= bag.to_multiset());
}

/// Equipping lands in the item's own slot when it is free; only a ring
/// moves to the other ring slot, and only when its own is taken and the
/// other is free; otherwise the own slot is swapped.
pub proof fn lemma_equip_target_choice(slot: EquipSlot, own_taken: bool, alternate_taken: bool)
    ensures
        !own_taken ==> spec_equip_target(slot, own_taken, alternate_taken) == slot,
        spec_equip_target(slot, own_taken, alternate_taken) != slot ==> own_taken && !alternate_taken
            && spec_alternate(slot) == Some(spec_equip_target(slot, own_taken, alternate_taken)),
        own_taken && !alternate_taken && (slot == EquipSlot::Ring || slot == EquipSlot::RingLeft)
            ==> spec_equip_target(slot, own_taken, alternate_taken) != slot,
        slot != EquipSlot::Ring && slot != EquipSlot::RingLeft ==> spec_equip_target(slot, own_taken, alternate_taken)
            == slot,
{
}

} // verus!
