//! The server's live dungeon state rules: who may open the treasure chest
//! on the final floor, and what it gives.
use vstd::prelude::*;
use std::collections::HashMap;
use crate::chance::{roll_u64_inclusive, roll_i64_inclusive, shuffle_strings};
use crate::dungeon::{SpawnSpec, FloorLayout, GRID};

verus! {

pub const MONSTER_RESPAWN_MS: u64 = 300_000;
pub const BOSS_RESPAWN_MS: u64 = 1_800_000;
/// Retry delay when a spawn attempt failed (e.g. global monster cap).
pub const SPAWN_RETRY_MS: u64 = 10_000;
/// Per-player chest cooldown: the chest refills for each player separately.
pub const CHEST_COOLDOWN_MS: u64 = 3_600_000;
/// Only equipment at least this pricey is chest loot.
pub const CHEST_ITEM_MIN_PRICE: i64 = 2000;

/// One monster slot of a floor, in the layout's spawn order.
#[derive(Debug, Clone)]
pub struct SpawnSlot {
    pub alive_monster_id: Option<String>,
    pub respawn_at_ms: u64,
    pub is_boss: bool,
}

/// The slot holds a living boss.
pub open spec fn boss_alive(s: SpawnSlot) -> bool {
    s.is_boss && (s.alive_monster_id matches Some(id) && id@.len() > 0)
}

/// Whether a living boss guards the floor.
pub fn guardian_alive(slots: &Vec<SpawnSlot>) -> (r: bool)
    ensures
        r == exists|i: int| 0 <= i < slots@.len() && #[trigger] boss_alive(slots@[i]),
{
    let mut i: usize = 0;
    while i < slots.len()
        invariant
            0 <= i <= slots@.len(),
            forall|j: int| 0 <= j < i ==> !#[trigger] boss_alive(slots@[j]),
        decreases slots@.len() - i,
    {
        let s = &slots[i];
        let alive = match &s.alive_monster_id {
            Some(id) => !id.as_str().is_empty(),
            None => false,
        };
        if s.is_boss && alive {
            assert(boss_alive(slots@[i as int]));
            return true;
        }
        i = i + 1;
    }
    false
}

/// Why the chest stays shut.
#[derive(Debug, Clone, Copy, PartialEq, Eq, Structural)]
pub enum ChestRefusal {
    NotDeepest,
    TooFar,
    GuardianLives,
    Emptied,
}

pub open spec fn chest_refusal_text(r: ChestRefusal) -> Seq<char> {
    match r {
        ChestRefusal::NotDeepest => "You must be on the deepest floor"@,
        ChestRefusal::TooFar => "Too far from the chest"@,
        ChestRefusal::GuardianLives => "The guardian still lives"@,
        ChestRefusal::Emptied => "The chest is empty (come back later)"@,
    }
}

impl ChestRefusal {
    pub fn message(&self) -> (r: &'static str)
        ensures
            r@ == chest_refusal_text(*self),
    {
        match self {
            ChestRefusal::NotDeepest => "You must be on the deepest floor",
            ChestRefusal::TooFar => "Too far from the chest",
            ChestRefusal::GuardianLives => "The guardian still lives",
            ChestRefusal::Emptied => "The chest is empty (come back later)",
        }
    }
}

/// The chest checks, in order: the player stands on the deepest floor
/// (floor `-total_floors`), within reach of the chest, the guardian is
/// dead, and this player's last opening is at least the cooldown ago.
pub open spec fn spec_chest_refusal(
    total_floors: u8,
    player_floor: i8,
    in_reach: bool,
    guardian: bool,
    last_opened_ms: Option<u64>,
    now_ms: u64,
) -> Option<ChestRefusal> {
    if player_floor != -(total_floors as int) {
        Some(ChestRefusal::NotDeepest)
    } else if !in_reach {
        Some(ChestRefusal::TooFar)
    } else if guardian {
        Some(ChestRefusal::GuardianLives)
    } else if last_opened_ms matches Some(t) && (if now_ms >= t { now_ms - t } else { 0 })
        < CHEST_COOLDOWN_MS {
        Some(ChestRefusal::Emptied)
    } else {
        None
    }
}

pub fn chest_refusal(
    total_floors: u8,
    player_floor: i8,
    in_reach: bool,
    guardian: bool,
    last_opened_ms: Option<u64>,
    now_ms: u64,
) -> (r: Option<ChestRefusal>)
    requires
        total_floors <= 127,
    ensures
        r == spec_chest_refusal(total_floors, player_floor, in_reach, guardian, last_opened_ms, now_ms),
{
    let deepest: i8 = -(total_floors as i8);
    if player_floor != deepest {
        return Some(ChestRefusal::NotDeepest);
    }
    if !in_reach {
        return Some(ChestRefusal::TooFar);
    }
    if guardian {
        return Some(ChestRefusal::GuardianLives);
    }
    match last_opened_ms {
        Some(t) => {
            let since = if now_ms >= t { now_ms - t } else { 0 };
            if since < CHEST_COOLDOWN_MS {
                return Some(ChestRefusal::Emptied);
            }
        },
        None => {},
    }
    None
}

/// Open the chest for `player` at `now_ms`, given the time each player
/// last opened it: refused as `spec_chest_refusal` says, with that player's
/// last opening; when it opens, the opening is recorded, so the cooldown
/// runs from now. A refusal records nothing.
pub fn claim_chest(
    opened_at: &mut HashMap<u64, u64>,
    player: u64,
    total_floors: u8,
    player_floor: i8,
    in_reach: bool,
    guardian: bool,
    now_ms: u64,
) -> (r: Option<ChestRefusal>)
    requires
        total_floors <= 127,
    ensures
        r == spec_chest_refusal(
            total_floors,
            player_floor,
            in_reach,
            guardian,
            if old(opened_at)@.contains_key(player) { Some(old(opened_at)@[player]) } else { None },
            now_ms,
        ),
        r is None ==> final(opened_at)@ == old(opened_at)@.insert(player, now_ms),
        r is Some ==> final(opened_at)@ == old(opened_at)@,
{
    broadcast use vstd::std_specs::hash::group_hash_axioms;
    let last = match opened_at.get(&player) {
        Some(t) => Some(*t),
        None => None,
    };
    let r = chest_refusal(total_floors, player_floor, in_reach, guardian, last, now_ms);
    if r.is_none() {
        opened_at.insert(player, now_ms);
    }
    r
}

/// How many items a chest gives: `want`, or the whole pool when it holds
/// fewer.
pub open spec fn loot_count(want: int, len: int) -> int {
    if want < len { want } else { len }
}

/// The chest's loot from the shuffled pool: its first `want` items, or
/// the whole pool when it holds fewer.
pub fn take_loot(shuffled: &Vec<String>, want: usize) -> (r: Vec<String>)
    ensures
        r@ == shuffled@.subrange(0, if want < shuffled@.len() { want as int } else { shuffled@.len() as int }),
{
    let count = if want < shuffled.len() { want } else { shuffled.len() };
    let mut taken: Vec<String> = Vec::new();
    let mut i: usize = 0;
    while i < count
        invariant
            0 <= i <= count,
            count <= shuffled@.len(),
            taken@ == shuffled@.subrange(0, i as int),
        decreases count - i,
    {
        taken.push(shuffled[i].clone());
        proof {
            assert(taken@ =~= shuffled@.subrange(0, i + 1));
        }
        i = i + 1;
    }
    taken
}

/// Roll the chest's loot from `pool`: the pool in some order, of which two
/// or three items (fewer if the pool is smaller) are taken, plus gold in
/// `[500 * depth, 1500 * depth]`. Whatever the draws, the items come from
/// the pool, no more often than the pool holds them.
pub fn roll_chest_loot(pool: Vec<String>, depth: i64) -> (r: (Vec<String>, i64))
    requires
        1 <= depth <= 1_000_000,
    ensures
        exists|shuffled: Seq<String>, want: int|
            #![trigger shuffled.to_multiset(), loot_count(want, shuffled.len() as int)]
            2 <= want <= 3 && shuffled.to_multiset() == pool@.to_multiset() && r.0@ == shuffled.subrange(
                0,
                loot_count(want, shuffled.len() as int),
            ),
        (r.0@.len() == 2 || r.0@.len() == 3 || r.0@.len() == pool@.len()),
        r.0@.len() <= 3,
        r.0@.len() <= pool@.len(),
        (pool@.len() >= 2 ==> r.0@.len() >= 2),
        r.0@.to_multiset().subset_of(pool@.to_multiset()),
        500 * depth <= r.1 <= 1500 * depth,
{
    let mut items = pool;
    let ghost start_items = items@;
    shuffle_strings(&mut items);
    proof {
        vstd::seq_lib::to_multiset_len(items@);
        vstd::seq_lib::to_multiset_len(start_items);
    }
    let want = roll_u64_inclusive(2, 3) as usize;
    let taken = take_loot(&items, want);
    let ghost count = if want < items@.len() { want as int } else { items@.len() as int };
    proof {
        vstd::seq_lib::lemma_multiset_commutative(items@.subrange(0, count), items@.subrange(count, items@.len() as int));
        assert(items@ =~= items@.subrange(0, count) + items@.subrange(count, items@.len() as int));
        assert(taken@ == items@.subrange(0, loot_count(want as int, items@.len() as int)));
    }
    let gold = roll_i64_inclusive(depth * 500, depth * 1500);
    (taken, gold)
}

/// Fresh slots for a floor's spawn list: all empty and ready, bosses
/// where the layout places its boss.
pub fn fresh_slots(specs: &Vec<SpawnSpec>) -> (slots: Vec<SpawnSlot>)
    ensures
        slots@.len() == specs@.len(),
        forall|i: int|
            0 <= i < specs@.len() ==> (#[trigger] slots@[i]).alive_monster_id is None
                && slots@[i].respawn_at_ms == 0 && slots@[i].is_boss == specs@[i].is_boss,
{
    let mut slots: Vec<SpawnSlot> = Vec::new();
    let mut i: usize = 0;
    while i < specs.len()
        invariant
            0 <= i <= specs@.len(),
            slots@.len() == i,
            forall|j: int|
                0 <= j < i ==> (#[trigger] slots@[j]).alive_monster_id is None
                    && slots@[j].respawn_at_ms == 0 && slots@[j].is_boss == specs@[j].is_boss,
        decreases specs@.len() - i,
    {
        slots.push(SpawnSlot { alive_monster_id: None, respawn_at_ms: 0, is_boss: specs[i].is_boss });
        i = i + 1;
    }
    slots
}

/// A slot is free and its respawn timer has run out.
pub open spec fn slot_ready(s: SpawnSlot, now_ms: u64) -> bool {
    s.alive_monster_id is None && now_ms >= s.respawn_at_ms
}

/// Claim every ready slot (marking it taken by a pending spawn, so a
/// concurrent pass cannot spawn it twice) and list the claimed positions
/// in increasing order.
pub fn claim_ready_slots(slots: &mut Vec<SpawnSlot>, now_ms: u64) -> (claimed: Vec<usize>)
    ensures
        final(slots)@.len() == old(slots)@.len(),
        forall|i: int|
            0 <= i < old(slots)@.len() ==> if slot_ready(old(slots)@[i], now_ms) {
                ((#[trigger] final(slots)@[i]).alive_monster_id matches Some(id) && id@ == Seq::<char>::empty())
                    && final(slots)@[i].respawn_at_ms == old(slots)@[i].respawn_at_ms
                    && final(slots)@[i].is_boss == old(slots)@[i].is_boss
            } else {
                final(slots)@[i] == old(slots)@[i]
            },
        forall|k: int| 0 <= k < claimed@.len() ==> (#[trigger] claimed@[k]) < old(slots)@.len()
            && slot_ready(old(slots)@[claimed@[k] as int], now_ms),
        forall|k1: int, k2: int| 0 <= k1 < k2 < claimed@.len() ==> claimed@[k1] < claimed@[k2],
        forall|i: int|
            0 <= i < old(slots)@.len() && slot_ready(old(slots)@[i], now_ms) ==> claimed@.contains(
                i as usize,
            ),
{
    let ghost s0 = slots@;
    let mut claimed: Vec<usize> = Vec::new();
    let mut i: usize = 0;
    while i < slots.len()
        invariant
            s0 == old(slots)@,
            slots@.len() == s0.len(),
            0 <= i <= s0.len(),
            forall|j: int| i <= j < s0.len() ==> slots@[j] == s0[j],
            forall|j: int|
                0 <= j < i ==> if slot_ready(s0[j], now_ms) {
                    ((#[trigger] slots@[j]).alive_monster_id matches Some(id) && id@ == Seq::<char>::empty())
                        && slots@[j].respawn_at_ms == s0[j].respawn_at_ms && slots@[j].is_boss
                        == s0[j].is_boss
                } else {
                    slots@[j] == s0[j]
                },
            forall|k: int| 0 <= k < claimed@.len() ==> (#[trigger] claimed@[k]) < i && slot_ready(
                s0[claimed@[k] as int],
                now_ms,
            ),
            forall|k1: int, k2: int| 0 <= k1 < k2 < claimed@.len() ==> claimed@[k1] < claimed@[k2],
            forall|j: int| 0 <= j < i && slot_ready(s0[j], now_ms) ==> claimed@.contains(j as usize),
        decreases s0.len() - i,
    {
        let ready = slots[i].alive_monster_id.is_none() && now_ms >= slots[i].respawn_at_ms;
        if ready {
            let taken = SpawnSlot {
                alive_monster_id: Some(String::new()),
                respawn_at_ms: slots[i].respawn_at_ms,
                is_boss: slots[i].is_boss,
            };
            slots.set(i, taken);
            let ghost before = claimed@;
            claimed.push(i);
            proof {
                assert forall|j: int| 0 <= j < i && slot_ready(s0[j], now_ms) implies claimed@.contains(
                    j as usize,
                ) by {
                    assert(before.contains(j as usize));
                    let w = choose|w: int| 0 <= w < before.len() && before[w] == j as usize;
                    assert(claimed@[w] == j as usize);
                }
                assert(claimed@[claimed@.len() - 1] == i);
            }
        }
        i = i + 1;
    }
    claimed
}

/// Record how a claimed slot's spawn went: the new monster's id, or, when
/// no monster could be spawned, a free slot that retries after
/// `SPAWN_RETRY_MS`.
pub fn settle_spawn(slot: &mut SpawnSlot, spawned: Option<String>, now_ms: u64)
    requires
        now_ms + SPAWN_RETRY_MS <= u64::MAX,
    ensures
        final(slot).is_boss == old(slot).is_boss,
        spawned matches Some(id) ==> final(slot).alive_monster_id == Some(id)
            && final(slot).respawn_at_ms == old(slot).respawn_at_ms,
        spawned is None ==> final(slot).alive_monster_id is None && final(slot).respawn_at_ms
            == now_ms + SPAWN_RETRY_MS,
{
    match spawned {
        Some(id) => {
            slot.alive_monster_id = Some(id);
        },
        None => {
            slot.alive_monster_id = None;
            slot.respawn_at_ms = now_ms + SPAWN_RETRY_MS;
        },
    }
}

/// A slot whose monster died frees up and respawns later: after
/// `BOSS_RESPAWN_MS` for the boss, `MONSTER_RESPAWN_MS` otherwise.
pub fn slot_after_death(slot: &mut SpawnSlot, now_ms: u64)
    requires
        now_ms + BOSS_RESPAWN_MS <= u64::MAX,
    ensures
        final(slot).alive_monster_id is None,
        final(slot).is_boss == old(slot).is_boss,
        final(slot).respawn_at_ms == now_ms + if old(slot).is_boss {
            BOSS_RESPAWN_MS
        } else {
            MONSTER_RESPAWN_MS
        },
{
    slot.alive_monster_id = None;
    slot.respawn_at_ms = now_ms + if slot.is_boss { BOSS_RESPAWN_MS } else { MONSTER_RESPAWN_MS };
}

/// The ids of the living monsters of a floor's slots, in slot order (a
/// claimed slot whose spawn is pending has an empty id and is left out).
pub open spec fn alive_ids(slots: Seq<SpawnSlot>) -> Seq<Seq<char>>
    decreases slots.len(),
{
    if slots.len() == 0 {
        Seq::empty()
    } else {
        alive_ids(slots.drop_last()) + match slots.last().alive_monster_id {
            Some(id) => if id@.len() > 0 {
                seq![id@]
            } else {
                Seq::empty()
            },
            None => Seq::empty(),
        }
    }
}

/// A player left a floor: list the living monsters, and, when nobody is
/// left on the floor, free every slot for an instant repopulation on the
/// next entry.
pub fn vacate_floor(slots: &mut Vec<SpawnSlot>, emptied: bool) -> (alive: Vec<String>)
    ensures
        alive@.map_values(|s: String| s@) == alive_ids(old(slots)@),
        !emptied ==> final(slots)@ == old(slots)@,
        emptied ==> final(slots)@.len() == old(slots)@.len() && forall|i: int|
            0 <= i < old(slots)@.len() ==> (#[trigger] final(slots)@[i]).alive_monster_id is None
                && final(slots)@[i].respawn_at_ms == 0 && final(slots)@[i].is_boss
                == old(slots)@[i].is_boss,
{
    let ghost s0 = slots@;
    let mut alive: Vec<String> = Vec::new();
    let mut i: usize = 0;
    while i < slots.len()
        invariant
            s0 == old(slots)@,
            slots@ == s0,
            0 <= i <= s0.len(),
            alive@.map_values(|s: String| s@) == alive_ids(s0.take(i as int)),
        decreases s0.len() - i,
    {
        proof {
            assert(s0.take(i + 1).drop_last() =~= s0.take(i as int));
            assert(s0.take(i + 1).last() == s0[i as int]);
        }
        match &slots[i].alive_monster_id {
            Some(id) => {
                if !id.as_str().is_empty() {
                    alive.push(id.clone());
                    proof {
                        assert(alive@.map_values(|s: String| s@) =~= alive_ids(s0.take(i + 1)));
                    }
                } else {
                    proof {
                        assert(alive@.map_values(|s: String| s@) =~= alive_ids(s0.take(i + 1)));
                    }
                }
            },
            None => {
                proof {
                    assert(alive@.map_values(|s: String| s@) =~= alive_ids(s0.take(i + 1)));
                }
            },
        }
        i = i + 1;
    }
    proof {
        assert(s0.take(s0.len() as int) =~= s0);
    }
    if emptied {
        let mut k: usize = 0;
        while k < slots.len()
            invariant
                s0 == old(slots)@,
                slots@.len() == s0.len(),
                0 <= k <= s0.len(),
                forall|j: int| k <= j < s0.len() ==> slots@[j] == s0[j],
                forall|j: int|
                    0 <= j < k ==> (#[trigger] slots@[j]).alive_monster_id is None && slots@[j].respawn_at_ms
                        == 0 && slots@[j].is_boss == s0[j].is_boss,
            decreases s0.len() - k,
        {
            let freed = SpawnSlot { alive_monster_id: None, respawn_at_ms: 0, is_boss: slots[k].is_boss };
            slots.set(k, freed);
            k = k + 1;
        }
    }
    alive
}

/// The floor a client may claim to stand on: any floor at or above
/// ground; below ground only inside a dungeon's footprint (else the
/// current floor, not below ground), at an existing depth, and at that
/// floor's height (else the current floor).
pub open spec fn spec_validated_floor(
    current: i8,
    requested: i8,
    in_footprint: bool,
    total_floors: int,
    height_matches: bool,
) -> i8 {
    if requested >= 0 {
        requested
    } else if !in_footprint {
        if current > 0 { current } else { 0 }
    } else if -requested > total_floors {
        current
    } else if !height_matches {
        current
    } else {
        requested
    }
}

pub fn validated_floor(
    current: i8,
    requested: i8,
    in_footprint: bool,
    total_floors: usize,
    height_matches: bool,
) -> (r: i8)
    ensures
        r == spec_validated_floor(current, requested, in_footprint, total_floors as int, height_matches),
{
    if requested >= 0 {
        return requested;
    }
    if !in_footprint {
        return if current > 0 { current } else { 0 };
    }
    let depth: usize = if requested == i8::MIN { 128 } else { (-requested) as usize };
    if depth > total_floors {
        return current;
    }
    if !height_matches {
        return current;
    }
    requested
}

/// How far (Chebyshev cells) loot looks outward from a kill for walkable
/// floor when it would otherwise land in a wall.
pub const DROP_SEARCH_RING_MAX: i32 = 4;

/// Cell `(cx, cz)` lies on the square ring `ring` cells out from `(dx, dz)`.
pub open spec fn on_ring(dx: int, dz: int, ring: int, cx: int, cz: int) -> bool {
    dx - ring <= cx <= dx + ring && dz - ring <= cz <= dz + ring && (cx == dx - ring || cx == dx + ring
        || cz == dz - ring || cz == dz + ring)
}

/// The carved ring cells of row `cz`, from the ring's west edge up to (not
/// including) column `end`.
pub open spec fn ring_row(l: FloorLayout, dx: int, dz: int, ring: int, cz: int, end: int) -> Seq<(i32, i32)>
    decreases end - (dx - ring),
{
    if end <= dx - ring {
        Seq::empty()
    } else {
        let rest = ring_row(l, dx, dz, ring, cz, end - 1);
        if on_ring(dx, dz, ring, end - 1, cz) && l.carved_at(end - 1, cz) {
            rest.push(((end - 1) as i32, cz as i32))
        } else {
            rest
        }
    }
}

/// The carved ring cells of the rows above `end`, row by row from the
/// north, each row west to east.
pub open spec fn ring_rows(l: FloorLayout, dx: int, dz: int, ring: int, end: int) -> Seq<(i32, i32)>
    decreases end - (dz - ring),
{
    if end <= dz - ring {
        Seq::empty()
    } else {
        ring_rows(l, dx, dz, ring, end - 1) + ring_row(l, dx, dz, ring, end - 1, dx + ring + 1)
    }
}

/// The carved cells of ring `ring` around `(dx, dz)`, in row-major order.
pub open spec fn ring_cells(l: FloorLayout, dx: int, dz: int, ring: int) -> Seq<(i32, i32)> {
    ring_rows(l, dx, dz, ring, dz + ring + 1)
}

/// The first ring from `ring` on (up to `DROP_SEARCH_RING_MAX`) that holds
/// carved cells, with those cells.
pub open spec fn first_floor_ring(l: FloorLayout, dx: int, dz: int, ring: int) -> Option<Seq<(i32, i32)>>
    decreases DROP_SEARCH_RING_MAX + 1 - ring,
{
    if ring < 1 || ring > DROP_SEARCH_RING_MAX {
        None
    } else if ring_cells(l, dx, dz, ring).len() > 0 {
        Some(ring_cells(l, dx, dz, ring))
    } else {
        first_floor_ring(l, dx, dz, ring + 1)
    }
}

proof fn lemma_ring_row_empty(l: FloorLayout, dx: int, dz: int, ring: int, cz: int, end: int)
    requires
        !(0 <= cz < GRID) || dx + ring < 0 || dx - ring >= GRID,
        end <= dx + ring + 1,
    ensures
        ring_row(l, dx, dz, ring, cz, end).len() == 0,
    decreases end - (dx - ring),
{
    if end > dx - ring {
        lemma_ring_row_empty(l, dx, dz, ring, cz, end - 1);
    }
}

proof fn lemma_ring_rows_empty(l: FloorLayout, dx: int, dz: int, ring: int, end: int)
    requires
        dx + ring < 0 || dx - ring >= GRID || dz + ring < 0 || dz - ring >= GRID,
        end <= dz + ring + 1,
    ensures
        ring_rows(l, dx, dz, ring, end).len() == 0,
    decreases end - (dz - ring),
{
    if end > dz - ring {
        lemma_ring_rows_empty(l, dx, dz, ring, end - 1);
        lemma_ring_row_empty(l, dx, dz, ring, end - 1, dx + ring + 1);
    }
}

/// The carved cells of ring `ring` around the cell `(dx, dz)`, in
/// row-major order.
fn carved_ring_cells(layout: &FloorLayout, dx: i32, dz: i32, ring: i32) -> (r: Vec<(i32, i32)>)
    requires
        layout.carved_ok(),
        1 <= ring <= DROP_SEARCH_RING_MAX,
        -16 <= dx <= GRID + 16,
        -16 <= dz <= GRID + 16,
    ensures
        r@ == ring_cells(*layout, dx as int, dz as int, ring as int),
{
    let ghost l = *layout;
    let mut out: Vec<(i32, i32)> = Vec::new();
    let mut cz = dz - ring;
    while cz <= dz + ring
        invariant
            l == *layout,
            layout.carved_ok(),
            1 <= ring <= DROP_SEARCH_RING_MAX,
            -16 <= dx <= GRID + 16,
            -16 <= dz <= GRID + 16,
            dz - ring <= cz <= dz + ring + 1,
            out@ == ring_rows(l, dx as int, dz as int, ring as int, cz as int),
        decreases dz + ring + 1 - cz,
    {
        let ghost before = out@;
        let mut cx = dx - ring;
        while cx <= dx + ring
            invariant
                l == *layout,
                layout.carved_ok(),
                1 <= ring <= DROP_SEARCH_RING_MAX,
                -16 <= dx <= GRID + 16,
                -16 <= dz <= GRID + 16,
                dz - ring <= cz <= dz + ring,
                dx - ring <= cx <= dx + ring + 1,
                out@ == before + ring_row(l, dx as int, dz as int, ring as int, cz as int, cx as int),
            decreases dx + ring + 1 - cx,
        {
            let edge = cx == dx - ring || cx == dx + ring || cz == dz - ring || cz == dz + ring;
            if edge && layout.is_carved(cx, cz) {
                out.push((cx, cz));
            }
            proof {
                assert(edge <==> on_ring(dx as int, dz as int, ring as int, cx as int, cz as int));
            }
            cx = cx + 1;
        }
        cz = cz + 1;
    }
    out
}

/// Where loot dropped on a wall cell goes instead: the carved cells of the
/// nearest ring around the death cell `(dx, dz)` that has any (the caller
/// picks the one nearest the scatter point), or `None` when no ring within
/// `DROP_SEARCH_RING_MAX` holds floor.
pub fn drop_ring_cells(layout: &FloorLayout, dx: i32, dz: i32) -> (r: Option<Vec<(i32, i32)>>)
    requires
        layout.carved_ok(),
    ensures
        match r {
            Some(v) => first_floor_ring(*layout, dx as int, dz as int, 1) == Some(v@),
            None => first_floor_ring(*layout, dx as int, dz as int, 1) is None,
        },
{
    let ghost l = *layout;
    if dx < -16 || dx > GRID + 16 || dz < -16 || dz > GRID + 16 {
        proof {
            assert forall|ring: int| 1 <= ring <= DROP_SEARCH_RING_MAX implies #[trigger] ring_cells(l, dx as int, dz as int, ring).len() == 0 by {
                lemma_ring_rows_empty(l, dx as int, dz as int, ring, dz + ring + 1);
            }
            assert(first_floor_ring(l, dx as int, dz as int, 5) is None);
            assert(ring_cells(l, dx as int, dz as int, 4).len() == 0);
            assert(first_floor_ring(l, dx as int, dz as int, 4) is None);
            assert(ring_cells(l, dx as int, dz as int, 3).len() == 0);
            assert(first_floor_ring(l, dx as int, dz as int, 3) is None);
            assert(ring_cells(l, dx as int, dz as int, 2).len() == 0);
            assert(first_floor_ring(l, dx as int, dz as int, 2) is None);
            assert(ring_cells(l, dx as int, dz as int, 1).len() == 0);
        }
        return None;
    }
    let mut ring: i32 = 1;
    while ring <= DROP_SEARCH_RING_MAX
        invariant
            l == *layout,
            layout.carved_ok(),
            -16 <= dx <= GRID + 16,
            -16 <= dz <= GRID + 16,
            1 <= ring <= DROP_SEARCH_RING_MAX + 1,
            first_floor_ring(l, dx as int, dz as int, 1) == first_floor_ring(l, dx as int, dz as int, ring as int),
        decreases DROP_SEARCH_RING_MAX + 1 - ring,
    {
        let cells = carved_ring_cells(layout, dx, dz, ring);
        if cells.len() > 0 {
            return Some(cells);
        }
        ring = ring + 1;
    }
    None
}

/// The chest opens only for a player on the deepest floor, within reach,
/// once its guardian is dead and an hour after it was last emptied: it
/// opens exactly then, and every refusal names a check that failed.
pub proof fn lemma_chest_needs_every_check(
    total_floors: u8,
    player_floor: i8,
    in_reach: bool,
    guardian: bool,
    last_opened_ms: Option<u64>,
    now_ms: u64,
)
    ensures
        ({
            let r = spec_chest_refusal(total_floors, player_floor, in_reach, guardian, last_opened_ms, now_ms);
            let rested = match last_opened_ms {
                None => true,
                Some(t) => now_ms >= t && now_ms - t >= CHEST_COOLDOWN_MS,
            };
            &&& r is None <==> (player_floor + total_floors == 0 && in_reach && !guardian && rested)
            &&& r == Some(ChestRefusal::NotDeepest) <==> player_floor + total_floors != 0
            &&& r == Some(ChestRefusal::TooFar) ==> !in_reach
            &&& r == Some(ChestRefusal::GuardianLives) ==> guardian
            &&& r == Some(ChestRefusal::Emptied) ==> !rested
        }),
{
}

/// A requested floor at or above ground is taken as is; a dungeon floor is
/// taken only inside a stair footprint, within the dungeon's depth and at
/// a matching height (a move to a floor other than the current one needs
/// all three); otherwise the player stays where they are (clamped to
/// ground outside every footprint).
pub proof fn lemma_floor_changes_need_stairs(
    current: i8,
    requested: i8,
    in_footprint: bool,
    total_floors: int,
    height_matches: bool,
)
    ensures
        ({
            let r = spec_validated_floor(current, requested, in_footprint, total_floors, height_matches);
            &&& requested >= 0 ==> r == requested
            &&& requested < 0 && requested != current && r == requested ==> in_footprint && -requested <= total_floors && height_matches
            &&& requested < 0 && in_footprint && -requested <= total_floors && height_matches ==> r == requested
            &&& r != requested ==> (r == current || (r == 0 && current <= 0 && !in_footprint))
        }),
{
}

} // verus!
