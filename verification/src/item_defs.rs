//! Item definitions: what the logic reads of each item (category, dice,
//! price, slot, fishing columns), the effect of using one, and the catalog
//! queries over all of them (lookups, the chest loot pool, the catch table).
use vstd::prelude::*;
use vstd::string::StringSliceAdditionalSpecFns;
use vstd::string::StrSliceExecFns;
use crate::csv_text::{to_chars, range_eq};
use crate::inventory::EquipSlot;
use crate::text::{str_eq, str_lt, text_lt, lemma_text_lt_total, lemma_bytes_lt_transitive};
use crate::fishing::CatchCandidate;
use vstd::utf8::encode_utf8;

verus! {

/// One item definition, as the game logic reads it.
#[derive(Debug, Clone)]
pub struct ItemDefinition {
    pub id: String,
    pub name: String,
    pub equip_slot: Option<EquipSlot>,
    pub stackable: bool,
    pub world_model: Option<String>,
    /// Item kind that decides how `dice` is read ("weapon": damage,
    /// "healing_potion" or "fish": healing, ...).
    pub category: Option<String>,
    /// Dice notation whose meaning depends on `category`.
    pub dice: Option<String>,
    /// Base price in the smallest currency unit; unpriced items cannot be
    /// bought or sold.
    pub base_price: Option<i64>,
    /// Fish only: rarity tier 1 (common) to 5 (legendary).
    pub rarity_tier: Option<u32>,
    /// Weight in the catch table at fishing level 0.
    pub catch_weight: Option<u32>,
    /// Fish only: a rolled length at or above this is a trophy.
    pub trophy_cm: Option<u32>,
}

/// The effect of consuming a usable item, decided by the item's category.
#[derive(Debug, Clone, PartialEq, Eq)]
pub enum UseEffect {
    /// Restore HP by rolling the given dice notation.
    Heal(String),
    /// Teleport the user back to the town spawn point.
    TeleportTown,
    /// Add +1 enchantment to the wielded weapon.
    EnchantWeapon,
}

/// The definition's category is `c`.
pub open spec fn category_is(d: ItemDefinition, c: Seq<char>) -> bool {
    d.category matches Some(s) && s@ == c
}

/// The effect of using an item of definition `d`, or `None` when it is no
/// consumable (or a healing one without dice).
pub open spec fn spec_use_effect(d: ItemDefinition) -> Option<UseEffect> {
    if category_is(d, "healing_potion"@) || category_is(d, "fish"@) {
        match d.dice {
            Some(dice) => Some(UseEffect::Heal(dice)),
            None => None,
        }
    } else if category_is(d, "return_scroll"@) {
        Some(UseEffect::TeleportTown)
    } else if category_is(d, "enchant_scroll"@) {
        Some(UseEffect::EnchantWeapon)
    } else {
        None
    }
}

/// Only consumables do something when used: a healing potion or a fish
/// heals by its own dice (and does nothing without dice), a return scroll
/// takes the user to town, an enchant scroll enchants; gear and every other
/// category do nothing.
pub proof fn lemma_use_effects(d: ItemDefinition)
    ensures
        spec_use_effect(d) matches Some(UseEffect::Heal(dice)) ==> (category_is(d, "healing_potion"@)
            || category_is(d, "fish"@)) && d.dice == Some(dice),
        spec_use_effect(d) == Some(UseEffect::TeleportTown) ==> category_is(d, "return_scroll"@),
        spec_use_effect(d) == Some(UseEffect::EnchantWeapon) ==> category_is(d, "enchant_scroll"@),
        (category_is(d, "healing_potion"@) || category_is(d, "fish"@)) && d.dice is Some ==> (spec_use_effect(
            d,
        ) matches Some(UseEffect::Heal(_))),
        d.category is None ==> spec_use_effect(d) is None,
{
}

impl ItemDefinition {
    /// Whether the definition's category is `c`.
    pub fn has_category(&self, c: &str) -> (r: bool)
        ensures
            r == category_is(*self, c@),
    {
        self.category_eq(c)
    }

    fn category_eq(&self, c: &str) -> (r: bool)
        ensures
            r == category_is(*self, c@),
    {
        match &self.category {
            Some(s) => str_eq(s.as_str(), c),
            None => false,
        }
    }

    pub fn is_weapon(&self) -> (r: bool)
        ensures
            r == category_is(*self, "weapon"@),
    {
        self.category_eq("weapon")
    }

    /// Main-hand tool that enables casting; no weapon.
    pub fn is_fishing_rod(&self) -> (r: bool)
        ensures
            r == category_is(*self, "fishing_rod"@),
    {
        self.category_eq("fishing_rod")
    }

    pub fn is_fish(&self) -> (r: bool)
        ensures
            r == category_is(*self, "fish"@),
    {
        self.category_eq("fish")
    }

    /// A catch that pays out coins directly instead of entering the bag.
    pub fn is_coin_catch(&self) -> (r: bool)
        ensures
            r == category_is(*self, "coin_catch"@),
    {
        self.category_eq("coin_catch")
    }

    /// Whether a catch of this item at `size_cm` is a trophy: only fish are,
    /// on a natural twenty or at the trophy length.
    pub fn trophy_at(&self, size_cm: u16, nat_twenty: bool) -> (r: bool)
        ensures
            r == (category_is(*self, "fish"@) && (nat_twenty || (self.trophy_cm matches Some(t)
                && size_cm >= t))),
    {
        self.is_fish() && (nat_twenty || match self.trophy_cm {
            Some(threshold) => size_cm as u32 >= threshold,
            None => false,
        })
    }

    /// Damage dice if this item is a weapon, else `None`.
    pub fn damage_dice(&self) -> (r: Option<&str>)
        ensures
            r matches Some(s) ==> (category_is(*self, "weapon"@) && (self.dice matches Some(d) && s@
                == d@)),
            r is None ==> !category_is(*self, "weapon"@) || self.dice is None,
    {
        if self.is_weapon() {
            match &self.dice {
                Some(d) => Some(d.as_str()),
                None => None,
            }
        } else {
            None
        }
    }

    /// The effect of using this item from the bag, or `None` if it isn't a
    /// consumable.
    pub fn use_effect(&self) -> (r: Option<UseEffect>)
        ensures
            r == spec_use_effect(*self),
    {
        if self.category_eq("healing_potion") || self.category_eq("fish") {
            match &self.dice {
                Some(d) => Some(UseEffect::Heal(d.clone())),
                None => None,
            }
        } else if self.category_eq("return_scroll") {
            Some(UseEffect::TeleportTown)
        } else if self.category_eq("enchant_scroll") {
            Some(UseEffect::EnchantWeapon)
        } else {
            None
        }
    }
}

/// No two definitions share an id.
pub open spec fn ids_unique(defs: Seq<ItemDefinition>) -> bool {
    forall|i: int, j: int| 0 <= i < j < defs.len() ==> #[trigger] defs[i].id@ != #[trigger] defs[j].id@
}

/// Some definition has id `id`.
pub open spec fn defines(defs: Seq<ItemDefinition>, id: Seq<char>) -> bool {
    exists|i: int| 0 <= i < defs.len() && #[trigger] defs[i].id@ == id
}

/// The definition with id `id`, when `defines(defs, id)`.
pub open spec fn def_of(defs: Seq<ItemDefinition>, id: Seq<char>) -> ItemDefinition {
    defs[choose|i: int| 0 <= i < defs.len() && #[trigger] defs[i].id@ == id]
}

/// With ids unique, the definition at `i` is the one with its id.
pub proof fn lemma_def_of_at(defs: Seq<ItemDefinition>, i: int)
    requires
        ids_unique(defs),
        0 <= i < defs.len(),
    ensures
        defines(defs, defs[i].id@),
        def_of(defs, defs[i].id@) == defs[i],
{
    let id = defs[i].id@;
    assert(defs[i].id@ == id);
    let j = choose|j: int| 0 <= j < defs.len() && #[trigger] defs[j].id@ == id;
    if j < i {
        assert(defs[j].id@ != defs[i].id@);
    } else if i < j {
        assert(defs[i].id@ != defs[j].id@);
    }
}

/// The item catalog: every definition, keyed by its id.
#[derive(Debug, Clone)]
pub struct ItemDefs {
    pub defs: Vec<ItemDefinition>,
}

/// Equippable, not a fishing rod, and priced at `min_price` or more: the
/// dungeon chest loot pool.
pub open spec fn in_chest_pool(d: ItemDefinition, min_price: i64) -> bool {
    &&& d.equip_slot is Some
    &&& !category_is(d, "fishing_rod"@)
    &&& d.base_price matches Some(p) && p >= min_price
}

/// `x` is the id of a definition in the chest pool.
pub open spec fn pooled_id(defs: Seq<ItemDefinition>, min_price: i64, x: Seq<char>) -> bool {
    exists|i: int| 0 <= i < defs.len() && in_chest_pool(defs[i], min_price) && #[trigger] defs[i].id@ == x
}

/// Strictly increasing in string order.
pub open spec fn strictly_sorted(s: Seq<Seq<char>>) -> bool {
    forall|i: int, j: int| 0 <= i < j < s.len() ==> text_lt(#[trigger] s[i], #[trigger] s[j])
}

pub open spec fn string_views(v: Seq<String>) -> Seq<Seq<char>> {
    v.map_values(|s: String| s@)
}

pub open spec fn candidate_ids(v: Seq<CatchCandidate>) -> Seq<Seq<char>> {
    v.map_values(|c: CatchCandidate| c.item_def_id@)
}

/// The catch-table entry of definition `d`.
pub open spec fn candidate_of(d: ItemDefinition, c: CatchCandidate) -> bool {
    &&& d.catch_weight == Some(c.catch_weight)
    &&& c.item_def_id@ == d.id@
    &&& c.rarity == (match d.rarity_tier {
        Some(r) => r,
        None => 1u32,
    })
}

/// Inserting `x` where everything before is smaller and everything from
/// there on is larger keeps a sequence strictly sorted.
proof fn lemma_insert_sorted(s: Seq<Seq<char>>, pos: int, x: Seq<char>)
    requires
        strictly_sorted(s),
        0 <= pos <= s.len(),
        forall|k: int| 0 <= k < pos ==> text_lt(#[trigger] s[k], x),
        pos < s.len() ==> text_lt(x, s[pos]),
    ensures
        strictly_sorted(s.insert(pos, x)),
{
    let t = s.insert(pos, x);
    assert forall|i: int, j: int| 0 <= i < j < t.len() implies text_lt(#[trigger] t[i], #[trigger] t[j]) by {
        if j < pos {
        } else if j == pos {
        } else if i < pos {
            // t[i] = s[i] < x < s[pos] <= s[j - 1]
            assert(text_lt(s[i], x));
            if j - 1 > pos {
                assert(text_lt(s[pos], s[j - 1]));
                lemma_bytes_lt_transitive(encode_utf8(x), encode_utf8(s[pos]), encode_utf8(s[j - 1]), 0);
            }
            lemma_bytes_lt_transitive(encode_utf8(s[i]), encode_utf8(x), encode_utf8(s[j - 1]), 0);
        } else if i == pos {
            if j - 1 > pos {
                assert(text_lt(s[pos], s[j - 1]));
                lemma_bytes_lt_transitive(encode_utf8(x), encode_utf8(s[pos]), encode_utf8(s[j - 1]), 0);
            }
        } else {
            assert(t[i] == s[i - 1] && t[j] == s[j - 1]);
        }
    }
}

/// Inserting keeps every element and adds the inserted one.
proof fn lemma_insert_contains(s: Seq<Seq<char>>, pos: int, x: Seq<char>, y: Seq<char>)
    requires
        0 <= pos <= s.len(),
        s.contains(y) || y == x,
    ensures
        s.insert(pos, x).contains(y),
{
    let t = s.insert(pos, x);
    if y == x {
        assert(t[pos] == x);
    } else {
        let k = choose|k: int| 0 <= k < s.len() && s[k] == y;
        if k < pos {
            assert(t[k] == y);
        } else {
            assert(t[k + 1] == y);
        }
    }
}

/// The position to insert `x` at in the strictly sorted `v`: after every
/// smaller entry.
fn insertion_point(v: &Vec<String>, x: &str) -> (pos: usize)
    requires
        strictly_sorted(string_views(v@)),
        forall|k: int| 0 <= k < v@.len() ==> #[trigger] v@[k]@ != x@,
    ensures
        pos <= v@.len(),
        forall|k: int| 0 <= k < pos ==> text_lt(#[trigger] v@[k]@, x@),
        pos < v@.len() ==> text_lt(x@, v@[pos as int]@),
{
    let mut pos: usize = 0;
    while pos < v.len() && str_lt(v[pos].as_str(), x)
        invariant
            pos <= v@.len(),
            forall|k: int| 0 <= k < pos ==> text_lt(#[trigger] v@[k]@, x@),
        decreases v@.len() - pos,
    {
        pos = pos + 1;
    }
    if pos < v.len() {
        proof {
            lemma_text_lt_total(v@[pos as int]@, x@);
        }
    }
    pos
}

/// `c` is the catch-table entry of some definition in `defs`.
pub open spec fn from_some_def(defs: Seq<ItemDefinition>, c: CatchCandidate) -> bool {
    exists|i: int| 0 <= i < defs.len() && #[trigger] candidate_of(defs[i], c)
}

/// The table `t` holds the catch-table entry of `d`.
pub open spec fn listed(t: Seq<CatchCandidate>, d: ItemDefinition) -> bool {
    exists|k: int| 0 <= k < t.len() && #[trigger] candidate_of(d, t[k])
}

/// The position to insert a candidate for `x` at in the table `v`, sorted
/// strictly by item id: after every smaller entry.
fn candidate_insertion_point(v: &Vec<CatchCandidate>, x: &str) -> (pos: usize)
    requires
        strictly_sorted(candidate_ids(v@)),
        forall|k: int| 0 <= k < v@.len() ==> #[trigger] v@[k].item_def_id@ != x@,
    ensures
        pos <= v@.len(),
        forall|k: int| 0 <= k < pos ==> text_lt(#[trigger] v@[k].item_def_id@, x@),
        pos < v@.len() ==> text_lt(x@, v@[pos as int].item_def_id@),
{
    let mut pos: usize = 0;
    while pos < v.len() && str_lt(v[pos].item_def_id.as_str(), x)
        invariant
            pos <= v@.len(),
            forall|k: int| 0 <= k < pos ==> text_lt(#[trigger] v@[k].item_def_id@, x@),
        decreases v@.len() - pos,
    {
        pos = pos + 1;
    }
    if pos < v.len() {
        proof {
            lemma_text_lt_total(v@[pos as int].item_def_id@, x@);
        }
    }
    pos
}

/// `w` with `suffix` cut off its end, when it ends with it.
pub open spec fn stem_of(w: Seq<char>, suffix: Seq<char>) -> Option<Seq<char>> {
    if suffix.len() <= w.len() && w.subrange(w.len() - suffix.len(), w.len() as int) == suffix {
        Some(w.subrange(0, w.len() - suffix.len()))
    } else {
        None
    }
}

/// `s` without `suffix` at its end, when it ends with it.
fn strip_suffix_str<'a>(s: &'a str, suffix: &str) -> (r: Option<&'a str>)
    ensures
        r matches Some(p) ==> stem_of(s@, suffix@) == Some(p@),
        r is None ==> stem_of(s@, suffix@) is None,
{
    let v = to_chars(s);
    let w = to_chars(suffix);
    let n = v.len();
    let m = w.len();
    if m <= n && range_eq(&v, n - m, n, &w) {
        Some(s.substring_char(0, n - m))
    } else {
        None
    }
}

/// Some definition has id `x`.
pub open spec fn has_id(defs: Seq<ItemDefinition>, x: Seq<char>) -> bool {
    exists|i: int| 0 <= i < defs.len() && #[trigger] defs[i].id@ == x
}

/// `w` is a `.glb` file name whose stem is an id.
pub open spec fn stem_hit(defs: Seq<ItemDefinition>, w: Seq<char>) -> bool {
    stem_of(w, ".glb"@) matches Some(st) && has_id(defs, st)
}

/// Definition `d` renders with world model `m`.
pub open spec fn renders_as(d: ItemDefinition, m: Seq<char>) -> bool {
    d.world_model matches Some(w) && w@ == m
}

/// Some definition with id `x` renders with world model `m`.
pub open spec fn model_of_id(defs: Seq<ItemDefinition>, m: Seq<char>, x: Seq<char>) -> bool {
    exists|i: int| 0 <= i < defs.len() && #[trigger] renders_as(defs[i], m) && defs[i].id@ == x
}

/// The damage dice of the catalog's item `id`: the dice of the definition
/// with that id, when there is one and it is a weapon that has dice.
pub open spec fn dice_of(defs: Seq<ItemDefinition>, id: Seq<char>) -> Option<Seq<char>> {
    if defines(defs, id) && category_is(def_of(defs, id), "weapon"@) && def_of(defs, id).dice is Some {
        Some(def_of(defs, id).dice->0@)
    } else {
        None
    }
}

/// Item id `x` is what weapon reference `w` names: `w` itself when it is an
/// id, else its `.glb` stem when that is an id, else the id of a definition
/// rendering with world model `w`.
pub open spec fn ref_target(defs: Seq<ItemDefinition>, w: Seq<char>, x: Seq<char>) -> bool {
    if has_id(defs, w) {
        x == w
    } else if stem_hit(defs, w) {
        stem_of(w, ".glb"@) == Some(x)
    } else {
        model_of_id(defs, w, x)
    }
}

pub open spec fn opt_view(r: Option<String>) -> Option<Seq<char>> {
    match r {
        Some(s) => Some(s@),
        None => None,
    }
}

impl ItemDefs {
    /// The catalog of `defs`, or `None` when two of them share an id.
    pub fn from_definitions(defs: Vec<ItemDefinition>) -> (r: Option<ItemDefs>)
        ensures
            r matches Some(c) ==> c.defs@ == defs@ && ids_unique(defs@),
            r is None ==> !ids_unique(defs@),
    {
        let mut i: usize = 0;
        while i < defs.len()
            invariant
                0 <= i <= defs@.len(),
                forall|a: int, b: int| 0 <= a < b < defs@.len() && a < i ==> #[trigger] defs@[a].id@ != #[trigger] defs@[b].id@,
            decreases defs@.len() - i,
        {
            let mut j: usize = i + 1;
            while j < defs.len()
                invariant
                    0 <= i < defs@.len(),
                    i + 1 <= j <= defs@.len(),
                    forall|a: int, b: int| 0 <= a < b < defs@.len() && a < i ==> #[trigger] defs@[a].id@ != #[trigger] defs@[b].id@,
                    forall|b: int| i < b < j ==> defs@[i as int].id@ != #[trigger] defs@[b].id@,
                decreases defs@.len() - j,
            {
                if str_eq(defs[i].id.as_str(), defs[j].id.as_str()) {
                    return None;
                }
                j = j + 1;
            }
            i = i + 1;
        }
        Some(ItemDefs { defs })
    }

    /// The definition with id `item_def_id`.
    pub fn get(&self, item_def_id: &str) -> (r: Option<&ItemDefinition>)
        requires
            ids_unique(self.defs@),
        ensures
            r matches Some(d) ==> exists|i: int| 0 <= i < self.defs@.len() && self.defs@[i] == *d && d.id@ == item_def_id@,
            r is None ==> forall|i: int| 0 <= i < self.defs@.len() ==> #[trigger] self.defs@[i].id@ != item_def_id@,
    {
        let mut i: usize = 0;
        while i < self.defs.len()
            invariant
                0 <= i <= self.defs@.len(),
                forall|k: int| 0 <= k < i ==> #[trigger] self.defs@[k].id@ != item_def_id@,
            decreases self.defs@.len() - i,
        {
            if str_eq(self.defs[i].id.as_str(), item_def_id) {
                return Some(&self.defs[i]);
            }
            i = i + 1;
        }
        None
    }

    /// Equippable items at or above a price floor, fishing rods excluded:
    /// the dungeon treasure chest loot pool, sorted by id.
    pub fn equipment_ids_with_min_price(&self, min_price: i64) -> (r: Vec<String>)
        requires
            ids_unique(self.defs@),
        ensures
            strictly_sorted(string_views(r@)),
            forall|k: int| 0 <= k < r@.len() ==> pooled_id(self.defs@, min_price, #[trigger] r@[k]@),
            forall|i: int|
                0 <= i < self.defs@.len() && in_chest_pool(self.defs@[i], min_price) ==> string_views(
                    r@,
                ).contains(#[trigger] self.defs@[i].id@),
    {
        let mut ids: Vec<String> = Vec::new();
        let ghost mut from: Seq<int> = Seq::empty();
        let mut i: usize = 0;
        while i < self.defs.len()
            invariant
                0 <= i <= self.defs@.len(),
                ids_unique(self.defs@),
                strictly_sorted(string_views(ids@)),
                from.len() == ids@.len(),
                forall|k: int|
                    0 <= k < ids@.len() ==> 0 <= #[trigger] from[k] < i && in_chest_pool(
                        self.defs@[from[k]],
                        min_price,
                    ) && ids@[k]@ == self.defs@[from[k]].id@,
                forall|j: int|
                    0 <= j < i && in_chest_pool(self.defs@[j], min_price) ==> string_views(ids@).contains(
                        #[trigger] self.defs@[j].id@,
                    ),
            decreases self.defs@.len() - i,
        {
            let d = &self.defs[i];
            let pooled = d.equip_slot.is_some() && !d.is_fishing_rod() && match d.base_price {
                Some(p) => p >= min_price,
                None => false,
            };
            if pooled {
                proof {
                    assert forall|k: int| 0 <= k < ids@.len() implies #[trigger] ids@[k]@ != d.id@ by {
                        assert(self.defs@[from[k]].id@ != self.defs@[i as int].id@);
                    }
                }
                let pos = insertion_point(&ids, d.id.as_str());
                let ghost before = ids@;
                let id = d.id.clone();
                ids.insert(pos, id);
                proof {
                    assert(string_views(ids@) =~= string_views(before).insert(pos as int, d.id@));
                    lemma_insert_sorted(string_views(before), pos as int, d.id@);
                    from = from.insert(pos as int, i as int);
                    assert forall|j: int| 0 <= j < i + 1 && in_chest_pool(self.defs@[j], min_price) implies string_views(
                        ids@,
                    ).contains(#[trigger] self.defs@[j].id@) by {
                        lemma_insert_contains(string_views(before), pos as int, d.id@, self.defs@[j].id@);
                    }
                }
            }
            i = i + 1;
        }
        proof {
            assert forall|k: int| 0 <= k < ids@.len() implies pooled_id(self.defs@, min_price, #[trigger] ids@[k]@) by {
                let j = from[k];
                assert(ids@[k]@ == self.defs@[j].id@);
            }
        }
        ids
    }

    /// The fishing catch table: every definition with a catch weight (fish,
    /// junk and coin catches alike), rarity 1 when it has none, sorted by
    /// id.
    pub fn catch_table(&self) -> (r: Vec<CatchCandidate>)
        requires
            ids_unique(self.defs@),
        ensures
            strictly_sorted(candidate_ids(r@)),
            forall|k: int| 0 <= k < r@.len() ==> from_some_def(self.defs@, #[trigger] r@[k]),
            forall|i: int|
                0 <= i < self.defs@.len() && self.defs@[i].catch_weight is Some ==> listed(
                    r@,
                    #[trigger] self.defs@[i],
                ),
    {
        let mut table: Vec<CatchCandidate> = Vec::new();
        let ghost mut from: Seq<int> = Seq::empty();
        let mut i: usize = 0;
        while i < self.defs.len()
            invariant
                0 <= i <= self.defs@.len(),
                ids_unique(self.defs@),
                strictly_sorted(candidate_ids(table@)),
                from.len() == table@.len(),
                forall|k: int|
                    0 <= k < table@.len() ==> 0 <= #[trigger] from[k] < i && candidate_of(
                        self.defs@[from[k]],
                        table@[k],
                    ),
                forall|j: int|
                    0 <= j < i && self.defs@[j].catch_weight is Some ==> listed(table@, #[trigger] self.defs@[j]),
            decreases self.defs@.len() - i,
        {
            let d = &self.defs[i];
            if let Some(w) = d.catch_weight {
                proof {
                    assert forall|k: int| 0 <= k < table@.len() implies #[trigger] table@[k].item_def_id@ != d.id@ by {
                        assert(self.defs@[from[k]].id@ != self.defs@[i as int].id@);
                    }
                }
                let pos = candidate_insertion_point(&table, d.id.as_str());
                let ghost before = table@;
                let rarity = match d.rarity_tier {
                    Some(r) => r,
                    None => 1,
                };
                let c = CatchCandidate { item_def_id: d.id.clone(), rarity, catch_weight: w };
                table.insert(pos, c);
                proof {
                    assert(candidate_ids(table@) =~= candidate_ids(before).insert(pos as int, d.id@));
                    lemma_insert_sorted(candidate_ids(before), pos as int, d.id@);
                    from = from.insert(pos as int, i as int);
                    assert(candidate_of(self.defs@[i as int], table@[pos as int]));
                    assert forall|j: int| 0 <= j < i + 1 && self.defs@[j].catch_weight is Some implies listed(
                        table@,
                        #[trigger] self.defs@[j],
                    ) by {
                        if j < i {
                            let k = choose|k: int| 0 <= k < before.len() && #[trigger] candidate_of(self.defs@[j], before[k]);
                            if k < pos {
                                assert(table@[k] == before[k]);
                            } else {
                                assert(table@[k + 1] == before[k]);
                            }
                        }
                    }
                }
            }
            i = i + 1;
        }
        proof {
            assert forall|k: int| 0 <= k < table@.len() implies from_some_def(self.defs@, #[trigger] table@[k]) by {
                assert(candidate_of(self.defs@[from[k]], table@[k]));
            }
        }
        table
    }

    /// The item id a weapon reference names: the reference itself when it
    /// is an id, else its `.glb` stem when that is an id, else the id of
    /// some definition rendering with that world model.
    pub fn item_def_id_for_weapon_ref(&self, weapon_ref: &str) -> (r: Option<String>)
        requires
            ids_unique(self.defs@),
        ensures
            has_id(self.defs@, weapon_ref@) ==> (r matches Some(x) && x@ == weapon_ref@),
            !has_id(self.defs@, weapon_ref@) && stem_hit(self.defs@, weapon_ref@) ==> (r matches Some(x)
                && stem_of(weapon_ref@, ".glb"@) == Some(x@)),
            !has_id(self.defs@, weapon_ref@) && !stem_hit(self.defs@, weapon_ref@) ==> (r matches Some(x)
                ==> model_of_id(self.defs@, weapon_ref@, x@)),
            !has_id(self.defs@, weapon_ref@) && !stem_hit(self.defs@, weapon_ref@) && r is None ==> forall|i: int|
                0 <= i < self.defs@.len() ==> !renders_as(#[trigger] self.defs@[i], weapon_ref@),
    {
        if self.get(weapon_ref).is_some() {
            return Some(weapon_ref.to_owned());
        }
        if let Some(stem) = strip_suffix_str(weapon_ref, ".glb") {
            if self.get(stem).is_some() {
                return Some(stem.to_owned());
            }
        }
        let mut i: usize = 0;
        while i < self.defs.len()
            invariant
                0 <= i <= self.defs@.len(),
                !has_id(self.defs@, weapon_ref@),
                !stem_hit(self.defs@, weapon_ref@),
                forall|k: int| 0 <= k < i ==> !renders_as(#[trigger] self.defs@[k], weapon_ref@),
            decreases self.defs@.len() - i,
        {
            let d = &self.defs[i];
            if let Some(m) = &d.world_model {
                if str_eq(m.as_str(), weapon_ref) {
                    let id = d.id.clone();
                    proof {
                        assert(renders_as(self.defs@[i as int], weapon_ref@));
                    }
                    return Some(id);
                }
            }
            i = i + 1;
        }
        None
    }

    /// The damage dice of the weapon a reference names (an item id, a
    /// `.glb` file named after one, or a world model): the named item's
    /// dice when it is a weapon that has dice.
    pub fn damage_dice_for_weapon_model(&self, weapon_model: &str) -> (r: Option<String>)
        requires
            ids_unique(self.defs@),
        ensures
            r matches Some(s) ==> exists|x: Seq<char>|
                ref_target(self.defs@, weapon_model@, x) && #[trigger] dice_of(self.defs@, x) == Some(s@),
            has_id(self.defs@, weapon_model@) ==> opt_view(r) == dice_of(self.defs@, weapon_model@),
            !has_id(self.defs@, weapon_model@) && stem_hit(self.defs@, weapon_model@) ==> opt_view(r)
                == dice_of(self.defs@, stem_of(weapon_model@, ".glb"@)->0),
            (forall|i: int| 0 <= i < self.defs@.len() ==> !renders_as(#[trigger] self.defs@[i], weapon_model@))
                && !has_id(self.defs@, weapon_model@) && !stem_hit(self.defs@, weapon_model@) ==> r is None,
    {
        let id = match self.item_def_id_for_weapon_ref(weapon_model) {
            Some(id) => id,
            None => return None,
        };
        match self.get(id.as_str()) {
            Some(d) => {
                proof {
                    let i = choose|i: int| 0 <= i < self.defs@.len() && self.defs@[i] == *d && d.id@ == id@;
                    lemma_def_of_at(self.defs@, i);
                    assert(ref_target(self.defs@, weapon_model@, id@));
                }
                match d.damage_dice() {
                    Some(dice) => {
                        let r = String::from_str(dice);
                        proof {
                            assert(dice_of(self.defs@, id@) == Some(r@));
                        }
                        Some(r)
                    },
                    None => None,
                }
            },
            None => {
                proof {
                    if has_id(self.defs@, weapon_model@) {
                        let i = choose|i: int| 0 <= i < self.defs@.len() && #[trigger] self.defs@[i].id@ == weapon_model@;
                        assert(self.defs@[i].id@ != id@);
                    }
                    if !has_id(self.defs@, weapon_model@) && stem_hit(self.defs@, weapon_model@) {
                        let st = stem_of(weapon_model@, ".glb"@)->0;
                        let i = choose|i: int| 0 <= i < self.defs@.len() && #[trigger] self.defs@[i].id@ == st;
                        assert(self.defs@[i].id@ != id@);
                    }
                }
                None
            },
        }
    }
}

} // verus!
