//! Floor layout generation. Everything here is integer math over a fixed
//! draw order from one ChaCha8 stream per floor, so every party that
//! regenerates a dungeon from its seed gets the same rooms, corridors,
//! shafts and spawns.
use vstd::prelude::*;
use crate::weights::{weight_sum, weighted_pick, all_nonneg, shift_pick, lemma_pick_step, lemma_pick_in_range, lemma_weight_sum_push, lemma_weight_sum_prefix};
use crate::floor_cells::{layout_arith_ok, shaft_arith_ok};
use crate::connectivity::{floor_is_connected, floor_connected, same_ground, lemma_connected_same_ground};
use crate::descent::{
    floor_descendable, fallback_shape, lemma_fallback_descendable, lemma_single_room_carving,
    lemma_scan_rows_shape, lemma_fallback_room_fits, lemma_first_off_shafts, lemma_connected_descendable,
    margins_ok,
};
use crate::gen_model::{model_range_pick, model_room_around_shaft, model_room_free, model_room_free_from, model_shaft_in_room, blocked, ground_of, spawn_view, g_candidate, model_candidates_upto, model_boss_cell, model_picks, model_roll_spawns, model_more_rooms, model_room_size, model_try_floor, model_after_rooms, layout_view, lemma_conn_ground, model_fallback, fallback_ground, fallback_room, scan_row, scan_rows, fallback_chest_cells, first_off_shafts, model_floor_from, model_generate_floor, floor_stream, entrance_shaft, model_floors_from, model_depth, model_dungeon};
use crate::rng::{Stream, draw_i32_inclusive, draw_i32_below, draw_u8_inclusive, draw_usize_below, draw_u32_below, stream_from_seed};
use crate::dungeon::{FloorLayout, Room, SpawnSpec, SpawnEntry, StairShaft, spawn_table, table_at, entry_weights, GRID, CELLS, SHAFT_LEN, SHAFT_W, MIN_DEPTH, MAX_DEPTH, in_grid, cell_index, fits_i32};

verus! {

pub const ROOM_MIN: i32 = 5;
pub const ROOM_MAX: i32 = 12;
/// Axial size needed by a room that hosts a stair shaft (run + 1 margin each end).
pub const SHAFT_ROOM_AXIAL: i32 = 10;
pub const FLOOR_ATTEMPTS: u32 = 30;
pub const ROOM_PLACE_ATTEMPTS: u32 = 60;
pub const SPAWN_CLEAR_RADIUS: i32 = 3;
pub const DEPTH_SALT: u64 = 0x9e37_79b9_7f4a_7c15;

/// The room lies inside the grid, one cell off every edge, and is not empty.
pub open spec fn room_ok(r: Room) -> bool {
    &&& 1 <= r.x
    &&& 1 <= r.z
    &&& 1 <= r.w
    &&& 1 <= r.d
    &&& r.x + r.w < GRID
    &&& r.z + r.d < GRID
}

/// Mark every in-grid cell of `r` walkable.
fn carve_rect(carved: &mut Vec<bool>, r: &Room)
    requires
        old(carved)@.len() == CELLS,
        fits_i32(r.x + r.w),
        fits_i32(r.z + r.d),
    ensures
        final(carved)@.len() == CELLS,
        forall|x: int, z: int|
            in_grid(x, z) ==> #[trigger] final(carved)@[cell_index(x, z)] == (old(carved)@[cell_index(
                x,
                z,
            )] || r.has_cell(x, z)),
{
    let z_end = if r.z + r.d < GRID { r.z + r.d } else { GRID };
    let x_end = if r.x + r.w < GRID { r.x + r.w } else { GRID };
    let z0 = if r.z > 0 { r.z } else { 0 };
    let x0 = if r.x > 0 { r.x } else { 0 };
    let mut z = z0;
    while z < z_end
        invariant
            0 <= z0 <= z,
            z0 >= r.z,
            z_end <= GRID,
            z_end <= r.z + r.d,
            z0 == (if r.z > 0 { r.z } else { 0 }),
            z_end == (if r.z + r.d < GRID { r.z + r.d } else { GRID as int }),
            x0 == (if r.x > 0 { r.x } else { 0 }),
            x_end == (if r.x + r.w < GRID { r.x + r.w } else { GRID as int }),
            z <= z_end || z == z0,
            carved@.len() == CELLS,
            forall|a: int, b: int|
                in_grid(a, b) ==> #[trigger] carved@[cell_index(a, b)] == (old(carved)@[cell_index(a, b)]
                    || (r.has_cell(a, b) && b < z)),
        decreases z_end - z,
    {
        let mut x = x0;
        while x < x_end
            invariant
                0 <= z0 <= z < z_end,
                z0 >= r.z,
                z_end <= GRID,
                z_end <= r.z + r.d,
                0 <= x0 <= x,
                x0 == (if r.x > 0 { r.x } else { 0 }),
                x_end == (if r.x + r.w < GRID { r.x + r.w } else { GRID as int }),
                x <= x_end || x == x0,
                carved@.len() == CELLS,
                forall|a: int, b: int|
                    in_grid(a, b) ==> #[trigger] carved@[cell_index(a, b)] == (old(carved)@[cell_index(
                        a,
                        b,
                    )] || (r.has_cell(a, b) && (b < z || (b == z && a < x)))),
            decreases x_end - x,
        {
            let ghost c0 = carved@;
            carved.set((x + z * GRID) as usize, true);
            assert forall|a: int, b: int| in_grid(a, b) && !(a == x && b == z) implies cell_index(a, b)
                != cell_index(x as int, z as int) by {}
            assert forall|a: int, b: int| in_grid(a, b) implies #[trigger] carved@[cell_index(a, b)]
                == (old(carved)@[cell_index(a, b)] || (r.has_cell(a, b) && (b < z || (b == z && a
                < x + 1)))) by {
                if !(a == x && b == z) {
                    assert(c0[cell_index(a, b)] == carved@[cell_index(a, b)]);
                }
            }
            x = x + 1;
        }
        z = z + 1;
    }
}

/// Cell `(x, z)` lies strictly inside the grid border.
pub open spec fn in_interior(x: int, z: int) -> bool {
    1 <= x < GRID - 1 && 1 <= z < GRID - 1
}

pub open spec fn min_i(a: int, b: int) -> int {
    if a <= b { a } else { b }
}

pub open spec fn max_i(a: int, b: int) -> int {
    if a >= b { a } else { b }
}

/// The cells a 2-wide L corridor from `from` to `to` covers: the X leg
/// along rows `z0` and `z0 + 1`, then the Z leg along columns `x1` and
/// `x1 + 1`, clipped to the grid interior.
pub open spec fn corridor_cell(from: (i32, i32), to: (i32, i32), x: int, z: int) -> bool {
    let (x0, z0) = from;
    let (x1, z1) = to;
    in_interior(x, z) && ((min_i(x0 as int, x1 as int) <= x <= max_i(x0 as int, x1 as int) && (z
        == z0 || z == z0 + 1)) || ((x == x1 || x == x1 + 1) && min_i(z0 as int, z1 as int) <= z
        <= max_i(z0 as int, z1 as int)))
}

/// Mark `(x, z)` and its neighbour (along +X when `lateral_x`, else +Z)
/// walkable, skipping cells on the grid border.
fn carve2(carved: &mut Vec<bool>, x: i32, z: i32, lateral_x: bool)
    requires
        old(carved)@.len() == CELLS,
        0 <= x < GRID,
        0 <= z < GRID,
    ensures
        final(carved)@.len() == CELLS,
        forall|a: int, b: int|
            in_grid(a, b) ==> #[trigger] final(carved)@[cell_index(a, b)] == (old(carved)@[cell_index(
                a,
                b,
            )] || (in_interior(a, b) && ((a == x && b == z) || (lateral_x && a == x + 1 && b == z)
                || (!lateral_x && a == x && b == z + 1)))),
{
    let (x2, z2) = if lateral_x { (x + 1, z) } else { (x, z + 1) };
    let ghost c0 = carved@;
    if x >= 1 && x < GRID - 1 && z >= 1 && z < GRID - 1 {
        carved.set((x + z * GRID) as usize, true);
    }
    let ghost c1 = carved@;
    if x2 >= 1 && x2 < GRID - 1 && z2 >= 1 && z2 < GRID - 1 {
        carved.set((x2 + z2 * GRID) as usize, true);
    }
    assert forall|a: int, b: int| in_grid(a, b) implies #[trigger] carved@[cell_index(a, b)] == (
    c0[cell_index(a, b)] || (in_interior(a, b) && ((a == x && b == z) || (lateral_x && a == x + 1
        && b == z) || (!lateral_x && a == x && b == z + 1)))) by {
        if !(a == x && b == z) {
            assert(cell_index(a, b) != cell_index(x as int, z as int));
        }
        if in_grid(x2 as int, z2 as int) && !(a == x2 && b == z2) {
            assert(cell_index(a, b) != cell_index(x2 as int, z2 as int));
        }
    }
}

/// 2-cell-wide L corridor, X leg first then Z leg.
fn carve_corridor(carved: &mut Vec<bool>, from: (i32, i32), to: (i32, i32))
    requires
        old(carved)@.len() == CELLS,
        0 <= from.0 < GRID,
        0 <= from.1 < GRID,
        0 <= to.0 < GRID,
        0 <= to.1 < GRID,
    ensures
        final(carved)@.len() == CELLS,
        forall|a: int, b: int|
            in_grid(a, b) ==> #[trigger] final(carved)@[cell_index(a, b)] == (old(carved)@[cell_index(
                a,
                b,
            )] || corridor_cell(from, to, a, b)),
{
    let (x0, z0) = from;
    let (x1, z1) = to;
    let xl = if x0 < x1 { x0 } else { x1 };
    let xh = if x0 > x1 { x0 } else { x1 };
    let mut x = xl;
    while x <= xh
        invariant
            carved@.len() == CELLS,
            xl <= x <= xh + 1,
            xl == min_i(x0 as int, x1 as int),
            xh == max_i(x0 as int, x1 as int),
            0 <= xl,
            xh < GRID,
            0 <= z0 < GRID,
            forall|a: int, b: int|
                in_grid(a, b) ==> #[trigger] carved@[cell_index(a, b)] == (old(carved)@[cell_index(a, b)]
                    || (in_interior(a, b) && xl <= a < x && (b == z0 || b == z0 + 1))),
        decreases xh + 1 - x,
    {
        carve2(carved, x, z0, false);
        x = x + 1;
    }
    let ghost c_mid = carved@;
    let zl = if z0 < z1 { z0 } else { z1 };
    let zh = if z0 > z1 { z0 } else { z1 };
    let mut z = zl;
    while z <= zh
        invariant
            carved@.len() == CELLS,
            zl <= z <= zh + 1,
            zl == min_i(z0 as int, z1 as int),
            zh == max_i(z0 as int, z1 as int),
            0 <= zl,
            zh < GRID,
            0 <= x1 < GRID,
            forall|a: int, b: int|
                in_grid(a, b) ==> #[trigger] carved@[cell_index(a, b)] == (c_mid[cell_index(a, b)] || (
                in_interior(a, b) && zl <= b < z && (a == x1 || a == x1 + 1))),
        decreases zh + 1 - z,
    {
        carve2(carved, x1, z, true);
        z = z + 1;
    }
}

/// Room `outer` holds rectangle `inner` with at least one cell of margin on
/// every side.
pub open spec fn wraps_with_margin(outer: Room, inner: Room) -> bool {
    &&& outer.x <= inner.x - 1
    &&& outer.z <= inner.z - 1
    &&& inner.x + inner.w + 1 <= outer.x + outer.w
    &&& inner.z + inner.d + 1 <= outer.z + outer.d
}

/// A uniform pick in `[lo, hi]`, or `None` when that range is empty.
fn range_pick(rng: &mut Stream, lo: i32, hi: i32) -> (r: Option<i32>)
    ensures
        r is None <==> lo > hi,
        r matches Some(v) ==> lo <= v <= hi,
        (r, *final(rng)) == model_range_pick(*old(rng), lo, hi),
{
    if lo > hi {
        return None;
    }
    Some(draw_i32_inclusive(rng, lo, hi))
}

/// Room 0: random dims/position constrained to contain the up shaft with a
/// one-cell margin on every side.
fn place_room_around_shaft(rng: &mut Stream, shaft: &StairShaft) -> (r: Option<Room>)
    requires
        shaft.in_interior(),
    ensures
        r matches Some(room) ==> room_ok(room) && wraps_with_margin(room, shaft.spec_rect()),
        (r, *final(rng)) == model_room_around_shaft(*old(rng), *shaft),
{
    let r = shaft.rect();
    let (w, d) = if shaft.along_z {
        let w = draw_i32_inclusive(rng, ROOM_MIN, ROOM_MAX);
        let d = draw_i32_inclusive(rng, SHAFT_ROOM_AXIAL, ROOM_MAX);
        (w, d)
    } else {
        let w = draw_i32_inclusive(rng, SHAFT_ROOM_AXIAL, ROOM_MAX);
        let d = draw_i32_inclusive(rng, ROOM_MIN, ROOM_MAX);
        (w, d)
    };
    let xlo = if r.x + r.w + 1 - w > 1 { r.x + r.w + 1 - w } else { 1 };
    let xhi = if r.x - 1 < GRID - 1 - w { r.x - 1 } else { GRID - 1 - w };
    let x = match range_pick(rng, xlo, xhi) {
        Some(v) => v,
        None => return None,
    };
    let zlo = if r.z + r.d + 1 - d > 1 { r.z + r.d + 1 - d } else { 1 };
    let zhi = if r.z - 1 < GRID - 1 - d { r.z - 1 } else { GRID - 1 - d };
    let z = match range_pick(rng, zlo, zhi) {
        Some(v) => v,
        None => return None,
    };
    Some(Room { x, z, w, d })
}

/// Whether `grown` shares a cell with any of `rooms`.
fn any_intersects(grown: &Room, rooms: &Vec<Room>) -> (r: bool)
    requires
        -100 <= grown.x <= 100,
        -100 <= grown.z <= 100,
        0 <= grown.w <= 100,
        0 <= grown.d <= 100,
        forall|i: int| 0 <= i < rooms@.len() ==> room_ok(#[trigger] rooms@[i]),
    ensures
        r == exists|i: int| 0 <= i < rooms@.len() && grown.overlaps(#[trigger] rooms@[i]),
{
    let mut i: usize = 0;
    while i < rooms.len()
        invariant
            0 <= i <= rooms@.len(),
            -100 <= grown.x <= 100,
            -100 <= grown.z <= 100,
            0 <= grown.w <= 100,
            0 <= grown.d <= 100,
            forall|k: int| 0 <= k < rooms@.len() ==> room_ok(#[trigger] rooms@[k]),
            forall|k: int| 0 <= k < i ==> !grown.overlaps(#[trigger] rooms@[k]),
        decreases rooms@.len() - i,
    {
        if grown.intersects(&rooms[i]) {
            return true;
        }
        i = i + 1;
    }
    false
}

/// A further room of size `w`×`d`, placed by rejection sampling so that it
/// keeps a one-cell gap to every earlier room and to the up shaft's zone.
fn place_room_free(rng: &mut Stream, w: i32, d: i32, rooms: &Vec<Room>, up_shaft: &StairShaft) -> (r:
    Option<Room>)
    requires
        ROOM_MIN <= w <= ROOM_MAX,
        ROOM_MIN <= d <= ROOM_MAX,
        up_shaft.in_interior(),
        forall|i: int| 0 <= i < rooms@.len() ==> room_ok(#[trigger] rooms@[i]),
    ensures
        r matches Some(room) ==> {
            &&& room_ok(room)
            &&& room.w == w
            &&& room.d == d
            &&& !grown_room(room).overlaps(grown_room(up_shaft.spec_rect()))
            &&& forall|i: int| 0 <= i < rooms@.len() ==> !grown_room(room).overlaps(#[trigger] rooms@[i])
        },
        (r, *final(rng)) == model_room_free(*old(rng), w, d, rooms@, *up_shaft),
{
    let shaft_zone = up_shaft.rect().expanded(1);
    let mut attempt: u32 = 0;
    let ghost start = *rng;
    assert(start == *old(rng));
    while attempt < ROOM_PLACE_ATTEMPTS
        invariant
            start == *old(rng),
            model_room_free(start, w, d, rooms@, *up_shaft) == model_room_free_from(*rng, w, d, rooms@, shaft_zone, attempt as int),
            ROOM_MIN <= w <= ROOM_MAX,
            ROOM_MIN <= d <= ROOM_MAX,
            up_shaft.in_interior(),
            shaft_zone == grown_room(up_shaft.spec_rect()),
            forall|i: int| 0 <= i < rooms@.len() ==> room_ok(#[trigger] rooms@[i]),
        decreases ROOM_PLACE_ATTEMPTS - attempt,
    {
        let ghost before = *rng;
        attempt = attempt + 1;
        let x = draw_i32_inclusive(rng, 1, GRID - 1 - w);
        let z = draw_i32_inclusive(rng, 1, GRID - 1 - d);
        let candidate = Room { x, z, w, d };
        let grown = candidate.expanded(1);
        assert(grown == grown_room(candidate));
        if grown.intersects(&shaft_zone) {
            continue;
        }
        if any_intersects(&grown, rooms) {
            continue;
        }
        proof {
            assert(!blocked(grown_room(candidate), shaft_zone, rooms@));
            assert(model_room_free_from(before, w, d, rooms@, shaft_zone, attempt - 1) == (Some(candidate), *rng));
            assert(model_room_free(start, w, d, rooms@, *up_shaft) == (Some(candidate), *rng));
        }
        return Some(candidate);
    }
    None
}

/// The rectangle grown by one cell on every side.
pub open spec fn grown_room(r: Room) -> Room {
    Room { x: (r.x - 1) as i32, z: (r.z - 1) as i32, w: (r.w + 2) as i32, d: (r.d + 2) as i32 }
}

/// The shaft's footprint lies inside `room`, one cell off its walls.
pub open spec fn shaft_inside(room: Room, sh: StairShaft) -> bool {
    &&& room.x + 1 <= sh.spec_rect().x
    &&& room.z + 1 <= sh.spec_rect().z
    &&& sh.spec_rect().x + sh.spec_rect().w <= room.x + room.w - 1
    &&& sh.spec_rect().z + sh.spec_rect().d <= room.z + room.d - 1
}

/// A down shaft inside `room` (with a one-cell margin), running along
/// `along_z`.
fn place_shaft_in_room(rng: &mut Stream, room: &Room, along_z: bool) -> (s: StairShaft)
    requires
        room_ok(*room),
        along_z ==> room.w >= SHAFT_W + 2 && room.d >= SHAFT_LEN + 2,
        !along_z ==> room.w >= SHAFT_LEN + 2 && room.d >= SHAFT_W + 2,
    ensures
        s.along_z == along_z,
        shaft_inside(*room, s),
        s.in_interior(),
        (s, *final(rng)) == model_shaft_in_room(*old(rng), *room, along_z),
{
    let (sw, sl) = if along_z { (SHAFT_W, SHAFT_LEN) } else { (SHAFT_LEN, SHAFT_W) };
    let x = draw_i32_inclusive(rng, room.x + 1, room.x + room.w - 1 - sw);
    let z = draw_i32_inclusive(rng, room.z + 1, room.z + room.d - 1 - sl);
    let reversed = draw_i32_below(rng, 0, 2) == 1;
    StairShaft { x, z, along_z, reversed }
}

/// Monster type spawned on the final floor next to the treasure chest.
pub const BOSS_MONSTER_TYPE: &'static str = "orc_boss";

/// Cell `(x, z)` lies in the up shaft or in the down shaft.
pub open spec fn in_any_shaft(l: FloorLayout, x: int, z: int) -> bool {
    l.up_shaft.has_cell(x, z) || (l.down_shaft matches Some(d) && d.has_cell(x, z))
}

pub open spec fn abs_i(v: int) -> int {
    if v < 0 { -v } else { v }
}

/// Cells a regular monster may spawn on: walkable, off the stairs, more
/// than `SPAWN_CLEAR_RADIUS` (Chebyshev) from the arrival landing, and not
/// the chest.
pub open spec fn spawn_candidate(l: FloorLayout, x: int, z: int) -> bool {
    let exit = l.up_shaft.spec_exit_cell();
    &&& l.carved_at(x, z)
    &&& !in_any_shaft(l, x, z)
    &&& max_i(abs_i(x - exit.0), abs_i(z - exit.1)) > SPAWN_CLEAR_RADIUS
    &&& l.chest != Some((x as i32, z as i32))
}

/// The weights of every depth's table fit the `u32` total they are summed in.
pub open spec fn tables_ok(tables: Seq<Vec<SpawnEntry>>) -> bool {
    forall|d: int|
        0 <= d < tables.len() ==> weight_sum(entry_weights(#[trigger] tables[d]@)) <= u32::MAX
}

/// What every spawn list of a floor satisfies: the boss (first, exactly when
/// the floor has a chest) stands on a walkable cell; every other spawn
/// stands on a walkable, non-shaft cell and is an entry of the depth's table;
/// and when the table has weight and some cell can take a spawn, the floor
/// gets at least one regular spawn.
pub open spec fn spawns_ok(l: FloorLayout, spawns: Seq<SpawnSpec>, table: Seq<SpawnEntry>) -> bool {
    &&& spawns.len() <= 10
    &&& (l.chest is Some ==> spawns.len() >= 1)
    &&& forall|i: int| 0 <= i < spawns.len() ==> spawn_at_ok(l, #[trigger] spawns[i], i, table)
    &&& (weight_sum(entry_weights(table)) > 0 && has_spawn_cell(l) ==> exists|k: int|
        0 <= k < spawns.len() && !(#[trigger] spawns[k]).is_boss)
}

/// Some cell of the floor can take a regular spawn.
pub open spec fn has_spawn_cell(l: FloorLayout) -> bool {
    exists|x: int, z: int| #[trigger] spawn_candidate(l, x, z)
}

/// Spawn number `i` of a floor: on a walkable cell; the boss exactly when it
/// is the first spawn of a floor with a chest; otherwise off the stairs and
/// drawn from the table.
pub open spec fn spawn_at_ok(l: FloorLayout, sp: SpawnSpec, i: int, table: Seq<SpawnEntry>) -> bool {
    &&& l.carved_at(sp.x as int, sp.z as int)
    &&& (sp.is_boss <==> (i == 0 && l.chest is Some))
    &&& (sp.is_boss ==> sp.monster_type@ == BOSS_MONSTER_TYPE@ && sp.aggressive)
    &&& (!sp.is_boss ==> !in_any_shaft(l, sp.x as int, sp.z as int) && from_table(sp, table))
}

/// The spawn's monster is one of the table's entries (type and temper).
pub open spec fn from_table(sp: SpawnSpec, table: Seq<SpawnEntry>) -> bool {
    exists|k: int|
        0 <= k < table.len() && sp.monster_type@ == (#[trigger] table[k]).monster_type@
            && sp.aggressive == table[k].aggressive
}

/// A regular (non-boss) spawn on a candidate cell, drawn from the table.
pub open spec fn regular_spawn(l: FloorLayout, sp: SpawnSpec, table: Seq<SpawnEntry>) -> bool {
    &&& spawn_candidate(l, sp.x as int, sp.z as int)
    &&& !sp.is_boss
    &&& from_table(sp, table)
}

fn abs_i32(v: i32) -> (r: i32)
    requires
        v > i32::MIN,
    ensures
        r == abs_i(v as int),
{
    if v < 0 { -v } else { v }
}

/// Sum of the table's weights.
fn total_weight_of(table: &[SpawnEntry]) -> (t: u32)
    requires
        weight_sum(entry_weights(table@)) <= u32::MAX,
    ensures
        t == weight_sum(entry_weights(table@)),
{
    let ghost ws = entry_weights(table@);
    assert(all_nonneg(ws));
    let mut acc: u32 = 0;
    let mut k: usize = 0;
    while k < table.len()
        invariant
            ws == entry_weights(table@),
            all_nonneg(ws),
            weight_sum(ws) <= u32::MAX,
            0 <= k <= table@.len(),
            acc == weight_sum(ws.take(k as int)),
        decreases table@.len() - k,
    {
        proof {
            lemma_weight_sum_prefix(ws, k + 1);
            assert(ws.take(k + 1) =~= ws.take(k as int).push(ws[k as int]));
            lemma_weight_sum_push(ws.take(k as int), ws[k as int]);
        }
        acc = acc + table[k].weight;
        k = k + 1;
    }
    assert(ws.take(table@.len() as int) =~= ws);
    acc
}

/// Index of the table entry that a roll below the total lands on.
fn pick_entry(table: &[SpawnEntry], roll: u32) -> (k: usize)
    requires
        (roll as int) < weight_sum(entry_weights(table@)),
    ensures
        k < table@.len(),
        weighted_pick(entry_weights(table@), roll as int) == Some(k as int),
{
    let ghost ws = entry_weights(table@);
    proof {
        assert(all_nonneg(ws));
        lemma_pick_in_range(ws, roll as int);
        assert(ws.skip(0) =~= ws);
    }
    let mut r = roll;
    let mut k: usize = 0;
    while k < table.len()
        invariant
            ws == entry_weights(table@),
            0 <= k <= table@.len(),
            weighted_pick(ws, roll as int) == shift_pick(weighted_pick(ws.skip(k as int), r as int), k as int),
            weighted_pick(ws, roll as int) matches Some(i) && 0 <= i < ws.len(),
        decreases table@.len() - k,
    {
        proof {
            lemma_pick_step(ws, k as int, r as int);
        }
        if r < table[k].weight {
            return k;
        }
        r = r - table[k].weight;
        k = k + 1;
    }
    proof {
        assert(ws.skip(k as int).len() == 0);
    }
    k
}

proof fn lemma_spawns_ok_from_parts(
    l: FloorLayout,
    base: Seq<SpawnSpec>,
    spawns: Seq<SpawnSpec>,
    t: Seq<SpawnEntry>,
)
    requires
        base.len() == (if l.chest is Some { 1int } else { 0int }),
        l.chest is Some ==> base[0].is_boss && l.carved_at(base[0].x as int, base[0].z as int)
            && base[0].monster_type@ == BOSS_MONSTER_TYPE@ && base[0].aggressive,
        base.len() <= spawns.len() <= base.len() + 9,
        forall|k: int| 0 <= k < base.len() ==> spawns[k] == base[k],
        forall|k: int| base.len() <= k < spawns.len() ==> regular_spawn(l, #[trigger] spawns[k], t),
        weight_sum(entry_weights(t)) > 0 && has_spawn_cell(l) ==> spawns.len() > base.len(),
    ensures
        spawns_ok(l, spawns, t),
{
    if weight_sum(entry_weights(t)) > 0 && has_spawn_cell(l) {
        assert(regular_spawn(l, spawns[base.len() as int], t));
    }
    assert forall|i: int| 0 <= i < spawns.len() implies spawn_at_ok(l, #[trigger] spawns[i], i, t) by {
        if i < base.len() {
            assert(spawns[i] == base[i]);
        } else {
            assert(regular_spawn(l, spawns[i], t));
        }
    }
}

/// Roll the monster spawns of a floor: the boss next to the chest (on the
/// final floor), then a weighted pick from the depth's table on each of a
/// few distinct candidate cells.
fn roll_spawns(rng: &mut Stream, layout: &FloorLayout, tables: &Vec<Vec<SpawnEntry>>) -> (spawns:
    Vec<SpawnSpec>)
    requires
        layout.carved_ok(),
        layout_arith_ok(*layout),
        layout.up_shaft.in_interior(),
        layout.down_shaft matches Some(d) ==> d.in_interior(),
        layout.chest matches Some(c) ==> layout.carved_at(c.0 as int, c.1 as int),
        tables_ok(tables@),
    ensures
        spawns_ok(*layout, spawns@, table_at(tables@, layout.depth as int)),
        (spawns@.map_values(|sp: SpawnSpec| spawn_view(sp)), *final(rng)) == model_roll_spawns(
            *old(rng),
            ground_of(*layout),
            table_at(tables@, layout.depth as int),
        ),
{
    let ghost l = *layout;
    let ghost g = ground_of(*layout);
    let ghost s0 = *rng;
    let exit = layout.up_shaft.exit_cell();
    let mut candidates: Vec<(i32, i32)> = Vec::new();
    let mut z: i32 = 0;
    while z < GRID
        invariant
            l == *layout,
            layout.carved_ok(),
            layout_arith_ok(l),
            l.up_shaft.in_interior(),
            exit == (l.up_shaft.spec_exit_cell().0 as i32, l.up_shaft.spec_exit_cell().1 as i32),
            0 <= z <= GRID,
            candidates@.len() <= z * GRID,
            g == ground_of(l),
            candidates@ == model_candidates_upto(g, z * GRID),
            forall|i: int| 0 <= i < candidates@.len() ==> spawn_candidate(l, #[trigger] candidates@[i].0 as int, candidates@[i].1 as int),
            forall|a: int, b: int| #![trigger spawn_candidate(l, a, b)]
                in_grid(a, b) && b < z && spawn_candidate(l, a, b) ==> candidates@.len() > 0,
        decreases GRID - z,
    {
        let mut x: i32 = 0;
        while x < GRID
            invariant
                l == *layout,
                layout.carved_ok(),
                layout_arith_ok(l),
                l.up_shaft.in_interior(),
                exit == (l.up_shaft.spec_exit_cell().0 as i32, l.up_shaft.spec_exit_cell().1 as i32),
                0 <= z < GRID,
                0 <= x <= GRID,
                candidates@.len() <= z * GRID + x,
                g == ground_of(l),
                candidates@ == model_candidates_upto(g, z * GRID + x),
                forall|i: int| 0 <= i < candidates@.len() ==> spawn_candidate(l, #[trigger] candidates@[i].0 as int, candidates@[i].1 as int),
                forall|a: int, b: int| #![trigger spawn_candidate(l, a, b)]
                    in_grid(a, b) && (b < z || (b == z && a < x)) && spawn_candidate(l, a, b) ==> candidates@.len() > 0,
            decreases GRID - x,
        {
            proof {
                assert((z * GRID + x) % GRID as int == x && (z * GRID + x) / GRID as int == z) by (nonlinear_arith)
                    requires
                        0 <= x < 56,
                        0 <= z < 56,
                ;
            }
            let in_shaft = layout.up_shaft.contains(x, z) || match layout.down_shaft {
                Some(s) => s.contains(x, z),
                None => false,
            };
            let skip = !layout.carved[(x + z * GRID) as usize] || in_shaft || {
                let ax = abs_i32(x - exit.0);
                let az = abs_i32(z - exit.1);
                (if ax > az { ax } else { az }) <= SPAWN_CLEAR_RADIUS
            } || match layout.chest {
                Some(c) => c.0 == x && c.1 == z,
                None => false,
            };
            proof {
                assert(!skip <==> g_candidate(g, x as int, z as int));
                assert(!skip <==> spawn_candidate(l, x as int, z as int));
            }
            if !skip {
                candidates.push((x, z));
            }
            x = x + 1;
        }
        z = z + 1;
    }

    let mut spawns: Vec<SpawnSpec> = Vec::new();

    if let Some((cx, cz)) = layout.chest {
        // Boss guards the chest on the final floor.
        let mut boss_cell = (cx, cz);
        if layout.is_carved(cx + 2, cz) && !(layout.up_shaft.contains(cx + 2, cz) || match layout.down_shaft { Some(s) => s.contains(cx + 2, cz), None => false }) {
            boss_cell = (cx + 2, cz);
        } else if layout.is_carved(cx - 2, cz) && !(layout.up_shaft.contains(cx - 2, cz) || match layout.down_shaft { Some(s) => s.contains(cx - 2, cz), None => false }) {
            boss_cell = (cx - 2, cz);
        } else if layout.is_carved(cx, cz + 2) && !(layout.up_shaft.contains(cx, cz + 2) || match layout.down_shaft { Some(s) => s.contains(cx, cz + 2), None => false }) {
            boss_cell = (cx, cz + 2);
        } else if layout.is_carved(cx, cz - 2) && !(layout.up_shaft.contains(cx, cz - 2) || match layout.down_shaft { Some(s) => s.contains(cx, cz - 2), None => false }) {
            boss_cell = (cx, cz - 2);
        }
        spawns.push(SpawnSpec {
            x: boss_cell.0,
            z: boss_cell.1,
            monster_type: String::from_str(BOSS_MONSTER_TYPE),
            is_boss: true,
            // The treasure guardian hunts intruders on sight.
            aggressive: true,
        });
        proof {
            assert(l.carved_at(boss_cell.0 as int, boss_cell.1 as int));
            assert(boss_cell == model_boss_cell(g, (cx, cz)));
        }
    }
    let ghost base_view: Seq<(i32, i32, Seq<char>, bool, bool)> = match g.5 {
        Some(c) => {
            let b = model_boss_cell(g, c);
            seq![(b.0, b.1, BOSS_MONSTER_TYPE@, true, true)]
        },
        None => Seq::empty(),
    };
    proof {
        assert(spawns@.map_values(|sp: SpawnSpec| spawn_view(sp)) =~= base_view);
        assert(*rng == s0);
        assert(candidates@ == model_candidates_upto(g, CELLS as int));
        if has_spawn_cell(l) {
            let (a, b) = choose|a: int, b: int| #[trigger] spawn_candidate(l, a, b);
            assert(candidates@.len() > 0);
        }
        assert(spawns@.len() == (if l.chest is Some { 1int } else { 0int }));
        assert(l.chest is Some ==> spawns@[0].is_boss && l.carved_at(spawns@[0].x as int, spawns@[0].z as int)
            && spawns@[0].monster_type@ == BOSS_MONSTER_TYPE@ && spawns@[0].aggressive);
    }

    let table = spawn_table(tables, layout.depth);
    let ghost t = table@;
    proof {
        assert(weight_sum(entry_weights(t)) <= u32::MAX) by {
            if (layout.depth as int) < tables@.len() {
                assert(t == tables@[layout.depth as int]@);
            } else {
                assert(entry_weights(t) =~= Seq::<int>::empty());
            }
        }
    }
    let total_weight = total_weight_of(table);
    if total_weight == 0 {
        proof {
            lemma_spawns_ok_from_parts(l, spawns@, spawns@, t);
        }
        return spawns;
    }
    // First floor is the entry floor: keep it lighter so newcomers ease in.
    let count = if layout.depth == 1 {
        draw_i32_inclusive(rng, 3, 5) as usize
    } else {
        draw_i32_inclusive(rng, 5, 9) as usize
    };
    let n = if count < candidates.len() { count } else { candidates.len() };
    let ghost base = spawns@;
    let ghost s1 = *rng;
    let ghost c0 = candidates@;
    let ghost target = model_picks(s1, c0, n as int, t, total_weight);
    proof {
        assert(model_roll_spawns(s0, g, t) == (base_view + target.0, target.1));
    }
    let mut i: usize = 0;
    while i < n
        invariant
            target == model_picks(s1, c0, n as int, t, total_weight),
            target.0 == spawns@.map_values(|sp: SpawnSpec| spawn_view(sp)).subrange(base.len() as int, spawns@.len() as int)
                + model_picks(*rng, candidates@, n - i, t, total_weight).0,
            target.1 == model_picks(*rng, candidates@, n - i, t, total_weight).1,
            l == *layout,
            t == table@,
            t == table_at(tables@, l.depth as int),
            (total_weight as int) == weight_sum(entry_weights(t)),
            total_weight > 0,
            0 <= i <= n,
            n <= 9,
            candidates@.len() + i == n + (candidates@.len() + i - n),
            n <= candidates@.len() + i,
            base.len() <= 1,
            spawns@.len() == base.len() + i,
            spawns@.subrange(0, base.len() as int) == base,
            forall|k: int| 0 <= k < candidates@.len() ==> spawn_candidate(l, #[trigger] candidates@[k].0 as int, candidates@[k].1 as int),
            forall|k: int| base.len() <= k < spawns@.len() ==> regular_spawn(l, #[trigger] spawns@[k], t),
        decreases n - i,
    {
        let ghost r0 = *rng;
        let ghost oc = candidates@;
        let ghost sv0 = spawns@.map_values(|sp: SpawnSpec| spawn_view(sp));
        let idx = draw_usize_below(rng, candidates.len());
        let (x, z) = candidates.swap_remove(idx);
        proof {
            assert(oc[idx as int] == (x, z));
            assert(spawn_candidate(l, x as int, z as int));
            assert forall|k: int| 0 <= k < candidates@.len() implies spawn_candidate(l, #[trigger] candidates@[k].0 as int, candidates@[k].1 as int) by {
                if k == idx {
                    assert(candidates@[k] == oc[oc.len() - 1]);
                } else {
                    assert(candidates@[k] == oc[k]);
                }
            }
        }
        let roll = draw_u32_below(rng, total_weight);
        let e = pick_entry(table, roll);
        let chosen = &table[e];
        let spec = SpawnSpec {
            x,
            z,
            monster_type: chosen.monster_type.clone(),
            is_boss: false,
            aggressive: chosen.aggressive,
        };
        let ghost before = spawns@;
        spawns.push(spec);
        proof {
            assert(spawns@[spawns@.len() - 1] == spec);
            assert(spawns@.subrange(0, base.len() as int) =~= before.subrange(0, base.len() as int));
            assert(t[e as int] == *chosen);
            assert(spawns@[spawns@.len() - 1].monster_type@ == t[e as int].monster_type@);
            assert(from_table(spec, t)) by {
                assert(spec.monster_type@ == t[e as int].monster_type@);
            }
            assert forall|k: int| base.len() <= k < spawns@.len() implies regular_spawn(l, #[trigger] spawns@[k], t) by {
                if k < spawns@.len() - 1 {
                    assert(spawns@[k] == before[k]);
                } else {
                    assert(spawns@[k] == spec);
                }
            }
            let sp_view = (x, z, t[e as int].monster_type@, false, t[e as int].aggressive);
            assert(spawn_view(spec) == sp_view);
            let after = model_picks(*rng, candidates@, n - i - 1, t, total_weight);
            assert(model_picks(r0, oc, n - i, t, total_weight) == (seq![sp_view] + after.0, after.1));
            let sv1 = spawns@.map_values(|sp: SpawnSpec| spawn_view(sp));
            assert(sv1 =~= sv0.push(sp_view));
            assert(sv1.subrange(base.len() as int, spawns@.len() as int) =~= sv0.subrange(base.len() as int, spawns@.len() - 1).push(sp_view));
            assert(sv0.subrange(base.len() as int, spawns@.len() - 1) + (seq![sp_view] + after.0) =~= sv1.subrange(base.len() as int, spawns@.len() as int) + after.0);
        }
        i = i + 1;
    }
    proof {
        assert forall|k: int| 0 <= k < spawns@.len() && k < base.len() implies spawns@[k] == base[k] by {
            assert(spawns@.subrange(0, base.len() as int)[k] == spawns@[k]);
        }
        lemma_spawns_ok_from_parts(l, base, spawns@, t);
        let sv = spawns@.map_values(|sp: SpawnSpec| spawn_view(sp));
        assert(sv.subrange(0, base.len() as int) =~= base_view) by {
            assert(base.map_values(|sp: SpawnSpec| spawn_view(sp)) =~= base_view);
            assert forall|k: int| 0 <= k < base.len() implies sv.subrange(0, base.len() as int)[k] == base_view[k] by {
                assert(spawns@[k] == base[k]);
            }
        }
        assert(sv =~= sv.subrange(0, base.len() as int) + sv.subrange(base.len() as int, sv.len() as int));
        assert(target.0 =~= sv.subrange(base.len() as int, spawns@.len() as int));
    }
    spawns
}

/// What every generated floor satisfies: a full walkability mask; one to
/// five rooms, in bounds and carved; both shafts inside the grid and
/// carved; a chest (on walkable floor) whenever there is no way further
/// down; and well-placed spawns from the depth's table.
pub open spec fn floor_ok(l: FloorLayout, table: Seq<SpawnEntry>) -> bool {
    &&& l.carved@.len() == CELLS
    &&& 1 <= l.rooms@.len() <= 5
    &&& forall|i: int| 0 <= i < l.rooms@.len() ==> room_ok(#[trigger] l.rooms@[i])
    &&& forall|i: int, x: int, z: int|
        0 <= i < l.rooms@.len() && #[trigger] l.rooms@[i].has_cell(x, z) ==> l.carved_at(x, z)
    &&& l.up_shaft.in_interior()
    &&& forall|x: int, z: int| #[trigger] l.up_shaft.has_cell(x, z) ==> l.carved_at(x, z)
    &&& (l.down_shaft matches Some(d) ==> d.in_interior() && forall|x: int, z: int| #[trigger] d.has_cell(x, z) ==> l.carved_at(x, z))
    &&& (l.down_shaft is None ==> l.chest is Some)
    &&& (l.chest matches Some(c) ==> l.carved_at(c.0 as int, c.1 as int))
    &&& spawns_ok(l, l.spawns@, table)
}

proof fn lemma_interior_arith(sh: StairShaft)
    requires
        sh.in_interior(),
    ensures
        shaft_arith_ok(sh),
        forall|x: int, z: int| #[trigger] sh.has_cell(x, z) ==> in_grid(x, z),
{
}

/// The center of a non-empty room is one of its cells.
proof fn lemma_center_inside(r: Room)
    requires
        room_ok(r),
    ensures
        r.has_cell(r.spec_center().0, r.spec_center().1),
        in_grid(r.spec_center().0, r.spec_center().1),
{
}

/// The cells one step off a rail of the up shaft (lateral offset `w`: -1
/// beside the first rail, `SHAFT_W` beside the last) are walkable the whole
/// length of the run.
pub open spec fn lane_beside_up_shaft(l: FloorLayout, w: int) -> bool {
    forall|i: int|
        0 <= i < SHAFT_LEN ==> l.carved_at(
            #[trigger] l.up_shaft.spec_step_cell(i, w).0,
            l.up_shaft.spec_step_cell(i, w).1,
        )
}

/// How the stairs of a floor sit in it: a walkable lane runs along one side
/// of the up shaft, and the down shaft, grown by a cell, keeps clear of the
/// up shaft grown by a cell.
pub open spec fn stairs_spaced(l: FloorLayout) -> bool {
    &&& exists|w: int| (w == -1 || w == SHAFT_W) && #[trigger] lane_beside_up_shaft(l, w)
    &&& (l.down_shaft matches Some(d) ==> !grown_room(d.spec_rect()).overlaps(grown_room(l.up_shaft.spec_rect())))
}

/// A floor whose stairs are spaced has a cell a regular monster can take:
/// one of the two lane cells beside the up shaft's shallow end (at most one
/// of them holds the chest).
proof fn lemma_spaced_stairs_leave_spawn_cell(l: FloorLayout)
    requires
        l.up_shaft.in_interior(),
        stairs_spaced(l),
    ensures
        has_spawn_cell(l),
{
    let u = l.up_shaft;
    let w = choose|w: int| (w == -1 || w == SHAFT_W) && #[trigger] lane_beside_up_shaft(l, w);
    let a = u.spec_step_cell(0, w);
    let b = u.spec_step_cell(1, w);
    assert(l.carved_at(a.0, a.1));
    assert(l.carved_at(b.0, b.1));
    assert(grown_room(u.spec_rect()).has_cell(a.0, a.1));
    assert(grown_room(u.spec_rect()).has_cell(b.0, b.1));
    if let Some(d) = l.down_shaft {
        assert(!d.has_cell(a.0, a.1));
        assert(!d.has_cell(b.0, b.1));
    }
    if l.chest == Some((a.0 as i32, a.1 as i32)) {
        assert(spawn_candidate(l, b.0, b.1));
    } else {
        assert(spawn_candidate(l, a.0, a.1));
    }
}

/// Stairs are spaced on a floor whose first room wraps the up shaft with a
/// margin and whose down shaft sits inside a room that keeps a cell's gap
/// from the up shaft's zone.
proof fn lemma_wrapped_stairs_spaced(l: FloorLayout, host: Room)
    requires
        1 <= l.rooms@.len(),
        forall|i: int, x: int, z: int|
            0 <= i < l.rooms@.len() && #[trigger] l.rooms@[i].has_cell(x, z) ==> l.carved_at(x, z),
        wraps_with_margin(l.rooms@[0], l.up_shaft.spec_rect()),
        l.up_shaft.in_interior(),
        room_ok(host),
        l.down_shaft matches Some(d) ==> d.in_interior() && shaft_inside(host, d) && !grown_room(host).overlaps(
            grown_room(l.up_shaft.spec_rect()),
        ),
    ensures
        stairs_spaced(l),
{
    let u = l.up_shaft;
    assert forall|i: int| 0 <= i < SHAFT_LEN implies l.carved_at(
        #[trigger] u.spec_step_cell(i, -1).0,
        u.spec_step_cell(i, -1).1,
    ) by {
        assert(l.rooms@[0].has_cell(u.spec_step_cell(i, -1).0, u.spec_step_cell(i, -1).1));
    }
    assert(lane_beside_up_shaft(l, -1));
    if let Some(d) = l.down_shaft {
        assert(!grown_room(d.spec_rect()).overlaps(grown_room(u.spec_rect())));
    }
}

/// Stairs are spaced on a one-room floor: the room leaves a gap beside the
/// up shaft on some side of each axis, and the down shaft was placed clear
/// of the up shaft's zone.
proof fn lemma_single_room_stairs_spaced(l: FloorLayout, room: Room)
    requires
        fallback_shape(l, room),
        margins_ok(l, room),
        l.up_shaft.in_interior(),
    ensures
        stairs_spaced(l),
{
    let u = l.up_shaft;
    let r = u.spec_rect();
    let w: int = if u.along_z {
        if r.x > room.x { -1 } else { SHAFT_W as int }
    } else {
        if r.z > room.z { -1 } else { SHAFT_W as int }
    };
    assert forall|i: int| 0 <= i < SHAFT_LEN implies l.carved_at(
        #[trigger] u.spec_step_cell(i, w).0,
        u.spec_step_cell(i, w).1,
    ) by {
        assert(room.has_cell(u.spec_step_cell(i, w).0, u.spec_step_cell(i, w).1));
    }
    assert(lane_beside_up_shaft(l, w));
}

/// Spawn validity reads the ground only.
proof fn lemma_spawns_ok_same_ground(l1: FloorLayout, l2: FloorLayout, sp: Seq<SpawnSpec>, t: Seq<SpawnEntry>)
    requires
        same_ground(l1, l2),
        spawns_ok(l1, sp, t),
    ensures
        spawns_ok(l2, sp, t),
{
    assert forall|x: int, z: int| l1.carved_at(x, z) == l2.carved_at(x, z) by {}
    assert forall|i: int| 0 <= i < sp.len() implies spawn_at_ok(l2, #[trigger] sp[i], i, t) by {
        assert(spawn_at_ok(l1, sp[i], i, t));
    }
    if has_spawn_cell(l2) {
        let (x, z) = choose|x: int, z: int| #[trigger] spawn_candidate(l2, x, z);
        assert(spawn_candidate(l1, x, z));
    }
}

/// Assemble `floor_ok` from the ground facts and the spawn facts.
proof fn lemma_floor_ok(l: FloorLayout, t: Seq<SpawnEntry>)
    requires
        l.carved@.len() == CELLS,
        1 <= l.rooms@.len() <= 5,
        forall|i: int| 0 <= i < l.rooms@.len() ==> room_ok(#[trigger] l.rooms@[i]),
        ground_carved(l.carved@, l.rooms@, l.up_shaft, l.down_shaft),
        l.up_shaft.in_interior(),
        l.down_shaft matches Some(d) ==> d.in_interior(),
        l.down_shaft is None ==> l.chest is Some,
        l.chest matches Some(c) ==> l.carved_at(c.0 as int, c.1 as int),
        spawns_ok(l, l.spawns@, t),
    ensures
        floor_ok(l, t),
{
    assert forall|i: int, x: int, z: int|
        0 <= i < l.rooms@.len() && #[trigger] l.rooms@[i].has_cell(x, z) implies l.carved_at(x, z) by {}
    assert forall|x: int, z: int| #[trigger] l.up_shaft.has_cell(x, z) implies l.carved_at(x, z) by {}
    if let Some(d) = l.down_shaft {
        assert forall|x: int, z: int| #[trigger] d.has_cell(x, z) implies l.carved_at(x, z) by {}
    }
}

/// The room is big enough to host a shaft running along `along_z` with a
/// one-cell margin.
pub open spec fn hosts_shaft_size(r: Room, along_z: bool) -> bool {
    if along_z {
        r.w >= SHAFT_W + 2 && r.d >= SHAFT_LEN + 2
    } else {
        r.w >= SHAFT_LEN + 2 && r.d >= SHAFT_W + 2
    }
}

/// `carved` holds every cell of the rooms, the up shaft and the down shaft.
pub open spec fn ground_carved(carved: Seq<bool>, rooms: Seq<Room>, up: StairShaft, down: Option<StairShaft>) -> bool {
    &&& forall|i: int, x: int, z: int|
        0 <= i < rooms.len() && #[trigger] rooms[i].has_cell(x, z) ==> in_grid(x, z) && carved[cell_index(x, z)]
    &&& forall|x: int, z: int| #[trigger] up.has_cell(x, z) ==> in_grid(x, z) && carved[cell_index(x, z)]
    &&& (down matches Some(d) ==> forall|x: int, z: int| #[trigger] d.has_cell(x, z) ==> in_grid(x, z) && carved[cell_index(x, z)])
}

/// The center cell of a room, as the corridor carver takes it.
pub open spec fn center_cell(r: Room) -> (i32, i32) {
    (r.spec_center().0 as i32, r.spec_center().1 as i32)
}

/// Cell `(x, z)` lies in some room.
pub open spec fn in_some_room_cell(rooms: Seq<Room>, x: int, z: int) -> bool {
    exists|k: int| 0 <= k < rooms.len() && #[trigger] rooms[k].has_cell(x, z)
}

/// Cell `(x, z)` lies on the corridor between two consecutive rooms among
/// the first `n` links.
pub open spec fn on_corridor_upto(rooms: Seq<Room>, n: int, x: int, z: int) -> bool {
    exists|k: int| 0 <= k < n && #[trigger] corridor_cell(center_cell(rooms[k]), center_cell(rooms[k + 1]), x, z)
}

/// Cell `(x, z)` is walkable ground of a floor with these rooms and shafts:
/// in a room, in a shaft, or on a corridor chaining consecutive rooms.
pub open spec fn ground_cell(rooms: Seq<Room>, up: StairShaft, down: Option<StairShaft>, x: int, z: int) -> bool {
    ||| in_some_room_cell(rooms, x, z)
    ||| up.has_cell(x, z)
    ||| (down matches Some(d) && d.has_cell(x, z))
    ||| on_corridor_upto(rooms, rooms.len() - 1, x, z)
}

/// The walkability mask of a floor with these rooms and shafts.
pub open spec fn carve_spec(rooms: Seq<Room>, up: StairShaft, down: Option<StairShaft>) -> Seq<bool> {
    Seq::new(CELLS as nat, |i: int| ground_cell(rooms, up, down, i % GRID as int, i / GRID as int))
}

proof fn lemma_cell_index_split(i: int)
    requires
        0 <= i < CELLS,
    ensures
        in_grid(i % GRID as int, i / GRID as int),
        cell_index(i % GRID as int, i / GRID as int) == i,
{
    assert(i == (i / 56) * 56 + i % 56 && 0 <= i % 56 < 56 && 0 <= i / 56 < 56) by (nonlinear_arith)
        requires
            0 <= i < 3136,
    ;
}

/// Rooms, shafts, then corridors chaining consecutive room centers.
fn carve_floor(rooms: &Vec<Room>, up_shaft: &StairShaft, down_shaft: &Option<StairShaft>) -> (carved: Vec<bool>)
    requires
        rooms@.len() >= 1,
        forall|i: int| 0 <= i < rooms@.len() ==> room_ok(#[trigger] rooms@[i]),
        up_shaft.in_interior(),
        down_shaft matches Some(d) ==> d.in_interior(),
    ensures
        carved@.len() == CELLS,
        ground_carved(carved@, rooms@, *up_shaft, *down_shaft),
        carved@ == carve_spec(rooms@, *up_shaft, *down_shaft),
{
    let mut carved: Vec<bool> = vec![false; CELLS];
    let mut i: usize = 0;
    while i < rooms.len()
        invariant
            0 <= i <= rooms@.len(),
            carved@.len() == CELLS,
            forall|k: int| 0 <= k < rooms@.len() ==> room_ok(#[trigger] rooms@[k]),
            forall|x: int, z: int|
                in_grid(x, z) ==> #[trigger] carved@[cell_index(x, z)] == in_some_room_cell(rooms@.subrange(0, i as int), x, z),
        decreases rooms@.len() - i,
    {
        let ghost c0 = carved@;
        carve_rect(&mut carved, &rooms[i]);
        assert forall|x: int, z: int| in_grid(x, z) implies #[trigger] carved@[cell_index(x, z)] == in_some_room_cell(rooms@.subrange(0, i + 1), x, z) by {
            let p = rooms@.subrange(0, i as int);
            let q = rooms@.subrange(0, i + 1);
            if in_some_room_cell(p, x, z) {
                let k = choose|k: int| 0 <= k < p.len() && #[trigger] p[k].has_cell(x, z);
                assert(q[k] == p[k]);
            }
            if in_some_room_cell(q, x, z) {
                let k = choose|k: int| 0 <= k < q.len() && #[trigger] q[k].has_cell(x, z);
                if k < i {
                    assert(p[k] == q[k]);
                } else {
                    assert(q[k] == rooms@[i as int]);
                }
            }
            if rooms@[i as int].has_cell(x, z) {
                assert(q[i as int] == rooms@[i as int]);
            }
        }
        i = i + 1;
    }
    proof {
        assert(rooms@.subrange(0, rooms@.len() as int) =~= rooms@);
    }
    carve_rect(&mut carved, &up_shaft.rect());
    if let Some(ref down) = down_shaft {
        carve_rect(&mut carved, &down.rect());
    }
    let ghost c3 = carved@;
    proof {
        assert forall|x: int, z: int| in_grid(x, z) implies #[trigger] c3[cell_index(x, z)] == (in_some_room_cell(rooms@, x, z)
            || up_shaft.has_cell(x, z) || (down_shaft matches Some(d) && d.has_cell(x, z))) by {}
    }
    let mut i: usize = 0;
    while i < rooms.len() - 1
        invariant
            rooms@.len() >= 1,
            c3.len() == CELLS,
            0 <= i,
            i + 1 <= rooms@.len(),
            carved@.len() == CELLS,
            forall|k: int| 0 <= k < rooms@.len() ==> room_ok(#[trigger] rooms@[k]),
            forall|x: int, z: int|
                in_grid(x, z) ==> #[trigger] carved@[cell_index(x, z)] == (c3[cell_index(x, z)] || on_corridor_upto(rooms@, i as int, x, z)),
        decreases rooms@.len() - i,
    {
        proof {
            lemma_center_inside(rooms@[i as int]);
            lemma_center_inside(rooms@[i + 1]);
        }
        let a = rooms[i].center();
        let b = rooms[i + 1].center();
        let ghost cb = carved@;
        carve_corridor(&mut carved, a, b);
        proof {
            assert(a == center_cell(rooms@[i as int]));
            assert(b == center_cell(rooms@[i + 1]));
            assert forall|x: int, z: int| in_grid(x, z) implies #[trigger] carved@[cell_index(x, z)] == (c3[cell_index(x, z)] || on_corridor_upto(rooms@, i + 1, x, z)) by {
                if on_corridor_upto(rooms@, i + 1, x, z) && !on_corridor_upto(rooms@, i as int, x, z) {
                    let k = choose|k: int| 0 <= k < i + 1 && #[trigger] corridor_cell(center_cell(rooms@[k]), center_cell(rooms@[k + 1]), x, z);
                    assert(k == i);
                }
                if corridor_cell(a, b, x, z) {
                    assert(corridor_cell(center_cell(rooms@[i as int]), center_cell(rooms@[i + 1]), x, z));
                }
            }
        }
        i = i + 1;
    }
    proof {
        assert forall|x: int, z: int| in_grid(x, z) implies #[trigger] carved@[cell_index(x, z)] == ground_cell(rooms@, *up_shaft, *down_shaft, x, z) by {}
        assert forall|j: int| 0 <= j < CELLS implies #[trigger] carved@[j] == carve_spec(rooms@, *up_shaft, *down_shaft)[j] by {
            lemma_cell_index_split(j);
        }
        assert(carved@ =~= carve_spec(rooms@, *up_shaft, *down_shaft));
        assert forall|k: int, x: int, z: int|
            0 <= k < rooms@.len() && #[trigger] rooms@[k].has_cell(x, z) implies in_grid(x, z) && carved@[cell_index(x, z)] by {
            assert(room_ok(rooms@[k]));
        }
        lemma_interior_arith(*up_shaft);
        if let Some(d) = *down_shaft {
            lemma_interior_arith(d);
        }
    }
    carved
}

/// One randomized attempt at a floor: room 0 wraps the up shaft, the last
/// room hosts the down shaft (or the chest on the final floor), corridors
/// chain the rooms; `None` when a room cannot be placed or the result is not
/// fully connected.
fn try_generate_floor(
    rng: &mut Stream,
    depth: u8,
    is_last: bool,
    up_shaft: StairShaft,
    tables: &Vec<Vec<SpawnEntry>>,
) -> (r: Option<FloorLayout>)
    requires
        up_shaft.in_interior(),
        tables_ok(tables@),
    ensures
        r matches Some(l) ==> {
            &&& floor_ok(l, table_at(tables@, depth as int))
            &&& floor_connected(l)
            &&& l.depth == depth
            &&& l.up_shaft == up_shaft
            &&& (l.down_shaft is None <==> is_last)
            &&& (l.chest is Some <==> is_last)
            &&& stairs_spaced(l)
        },
        (match r {
            Some(l) => Some(layout_view(l)),
            None => None,
        }, *final(rng)) == model_try_floor(*old(rng), depth, is_last, up_shaft, table_at(tables@, depth as int)),
{
    let ghost s0 = *rng;
    let rc = draw_i32_inclusive(rng, 3, 5);
    let room_count = rc as usize;

    // Room 0 wraps the up shaft (its exit landing is this floor's arrival).
    let first = match place_room_around_shaft(rng, &up_shaft) {
        Some(r) => r,
        None => return None,
    };
    let mut rooms: Vec<Room> = Vec::new();
    rooms.push(first);

    // Remaining rooms; the last one is sized to host the down shaft (or the
    // boss + chest on the final floor — same generous sizing).
    let dz = draw_i32_below(rng, 0, 2);
    let down_along_z = dz == 1;
    let ghost s3 = *rng;
    proof {
        assert(rooms@ =~= seq![first]);
    }
    while rooms.len() < room_count
        invariant
            model_try_floor(*old(rng), depth, is_last, up_shaft, table_at(tables@, depth as int)) == model_after_rooms(
                model_more_rooms(*rng, rooms@, rc as int, down_along_z, up_shaft),
                depth,
                is_last,
                up_shaft,
                table_at(tables@, depth as int),
                down_along_z,
            ),
            room_count == rc,
            3 <= room_count <= 5,
            1 <= rooms@.len() <= room_count,
            up_shaft.in_interior(),
            forall|k: int| 0 <= k < rooms@.len() ==> room_ok(#[trigger] rooms@[k]),
            rooms@.len() == room_count ==> hosts_shaft_size(rooms@[rooms@.len() - 1], down_along_z),
            wraps_with_margin(rooms@[0], up_shaft.spec_rect()),
            forall|k: int|
                1 <= k < rooms@.len() ==> !grown_room(#[trigger] rooms@[k]).overlaps(
                    grown_room(up_shaft.spec_rect()),
                ),
        decreases room_count - rooms@.len(),
    {
        let hosts_shaft = rooms.len() == room_count - 1;
        let ghost r_before = *rng;
        let (w, d) = if hosts_shaft {
            if down_along_z {
                let w = draw_i32_inclusive(rng, ROOM_MIN, ROOM_MAX);
                let d = draw_i32_inclusive(rng, SHAFT_ROOM_AXIAL, ROOM_MAX);
                (w, d)
            } else {
                let w = draw_i32_inclusive(rng, SHAFT_ROOM_AXIAL, ROOM_MAX);
                let d = draw_i32_inclusive(rng, ROOM_MIN, ROOM_MAX);
                (w, d)
            }
        } else {
            let w = draw_i32_inclusive(rng, ROOM_MIN, ROOM_MAX);
            let d = draw_i32_inclusive(rng, ROOM_MIN, ROOM_MAX);
            (w, d)
        };
        proof {
            assert(model_room_size(r_before, hosts_shaft, down_along_z) == (w, d, *rng));
        }
        let room = match place_room_free(rng, w, d, &rooms, &up_shaft) {
            Some(r) => r,
            None => return None,
        };
        rooms.push(room);
    }

    // Down shaft inside the last room.
    let down_shaft = if is_last {
        None
    } else {
        Some(place_shaft_in_room(rng, &rooms[rooms.len() - 1], down_along_z))
    };

    // Carve rooms, shafts, then room-chain corridors.
    let carved = carve_floor(&rooms, &up_shaft, &down_shaft);

    let chest = if is_last {
        proof {
            lemma_center_inside(rooms@[rooms@.len() - 1]);
        }
        Some(rooms[rooms.len() - 1].center())
    } else {
        None
    };

    let mut layout = FloorLayout {
        depth,
        rooms,
        carved,
        up_shaft,
        down_shaft,
        chest,
        spawns: Vec::new(),
    };
    let ghost l0 = layout;
    proof {
        lemma_interior_arith(up_shaft);
        if let Some(d) = down_shaft {
            lemma_interior_arith(d);
        }
        assert forall|i: int| 0 <= i < layout.rooms@.len() implies {
            let c = (#[trigger] layout.rooms@[i]).spec_center();
            in_grid(c.0, c.1)
        } by {
            lemma_center_inside(layout.rooms@[i]);
        }
        if is_last {
            let lr = layout.rooms@[layout.rooms@.len() - 1];
            lemma_center_inside(lr);
            assert(lr.has_cell(lr.spec_center().0, lr.spec_center().1));
        }
    }

    proof {
        lemma_conn_ground(layout);
    }
    if !floor_is_connected(&layout) {
        return None;
    }

    let spawns = roll_spawns(rng, &layout, tables);
    layout.spawns = spawns;
    proof {
        assert(same_ground(l0, layout));
        lemma_connected_same_ground(l0, layout);
        lemma_spawns_ok_same_ground(l0, layout, layout.spawns@, table_at(tables@, depth as int));
        lemma_floor_ok(layout, table_at(tables@, depth as int));
        lemma_wrapped_stairs_spaced(layout, layout.rooms@[layout.rooms@.len() - 1]);
    }
    Some(layout)
}

/// The down shaft of the fallback room, found by a row-major scan: the
/// first slot whose grown footprint stays clear of the up shaft's zone.
fn fallback_down_shaft(room: Room, up_shaft: StairShaft) -> (found: Option<StairShaft>)
    requires
        room == fallback_room(up_shaft),
        room_ok(room),
        up_shaft.in_interior(),
    ensures
        found == scan_rows(room, grown_room(up_shaft.spec_rect()), room.z + 1),
        found matches Some(c) ==> shaft_inside(room, c) && c.in_interior(),
{
    let r = up_shaft.rect();
    let up_zone = r.expanded(1);
    assert(up_zone == grown_room(up_shaft.spec_rect()));
    let mut found: Option<StairShaft> = None;
    let mut z = room.z + 1;
    while found.is_none() && z < room.z + room.d - 1 - SHAFT_LEN
        invariant
            scan_rows(room, up_zone, room.z + 1) == (match found {
                Some(c) => Some(c),
                None => scan_rows(room, up_zone, z as int),
            }),
            room_ok(room),
            room.z + 1 <= z <= GRID,
            r == up_shaft.spec_rect(),
            up_shaft.in_interior(),
            (up_zone.x as int, up_zone.z as int, up_zone.w as int, up_zone.d as int) == r.spec_expanded(1),
            found matches Some(c) ==> shaft_inside(room, c) && c.in_interior(),
        decreases GRID - z,
    {
        let mut x = room.x + 1;
        proof {
            assert(scan_rows(room, up_zone, z as int) == (match scan_row(room, up_zone, z as int, room.x + 1) {
                Some(c) => Some(c),
                None => scan_rows(room, up_zone, z + 1),
            }));
        }
        while found.is_none() && x < room.x + room.w - 1 - SHAFT_W
            invariant
                scan_rows(room, up_zone, room.z + 1) == (match found {
                    Some(c) => Some(c),
                    None => match scan_row(room, up_zone, z as int, x as int) {
                        Some(c) => Some(c),
                        None => scan_rows(room, up_zone, z + 1),
                    },
                }),
                room_ok(room),
                room.z + 1 <= z < room.z + room.d - 1 - SHAFT_LEN,
                r == up_shaft.spec_rect(),
                up_shaft.in_interior(),
                (up_zone.x as int, up_zone.z as int, up_zone.w as int, up_zone.d as int) == r.spec_expanded(1),
                room.x + 1 <= x <= GRID,
                found matches Some(c) ==> shaft_inside(room, c) && c.in_interior(),
            decreases GRID - x,
        {
            let cand = StairShaft { x, z, along_z: true, reversed: false };
            let grown = cand.rect().expanded(1);
            assert(grown == grown_room(cand.spec_rect()));
            if !grown.intersects(&up_zone) {
                found = Some(cand);
            }
            x = x + 1;
        }
        z = z + 1;
    }
    found
}

/// The chest cell of the fallback room: its center or, if a shaft covers
/// that, the first corner cell off the shafts.
fn fallback_chest(room: Room, up_shaft: StairShaft, down_shaft: Option<StairShaft>) -> (cell: Option<(i32, i32)>)
    requires
        room == fallback_room(up_shaft),
        room_ok(room),
        room.w >= 10 && room.d >= 10,
        up_shaft.in_interior(),
        down_shaft is None,
    ensures
        cell == first_off_shafts(fallback_chest_cells(room), up_shaft, down_shaft, 0),
        cell matches Some(c) ==> room.has_cell(c.0 as int, c.1 as int),
        cell is Some,
{
    let cx = room.x + room.w / 2;
    let cz = room.z + room.d / 2;
    let cands: [(i32, i32); 5] = [
        (cx, cz),
        (room.x + 2, room.z + 2),
        (room.x + room.w - 3, room.z + 2),
        (room.x + 2, room.z + room.d - 3),
        (room.x + room.w - 3, room.z + room.d - 3),
    ];
    let ghost cs = fallback_chest_cells(room);
    proof {
        assert(cands@ =~= cs);
        assert(room.has_cell(cx as int, cz as int));
        assert(!(up_shaft.has_cell(room.x + 2, room.z + 2) && up_shaft.has_cell(room.x + room.w - 3, room.z + 2)
            && up_shaft.has_cell(room.x + 2, room.z + room.d - 3)));
    }
    let mut cell: Option<(i32, i32)> = None;
    let mut k: usize = 0;
    while cell.is_none() && k < 5
        invariant
            0 <= k <= 5,
            cands@ == cs,
            cs == fallback_chest_cells(room),
            room_ok(room),
            room.w >= 10 && room.d >= 10,
            down_shaft is None,
            up_shaft.in_interior(),
            first_off_shafts(cs, up_shaft, down_shaft, 0) == (match cell {
                Some(c) => Some(c),
                None => first_off_shafts(cs, up_shaft, down_shaft, k as int),
            }),
            cell matches Some(c) ==> room.has_cell(c.0 as int, c.1 as int),
            cell is None ==> forall|i: int| 0 <= i < k ==> up_shaft.has_cell(cs[i].0 as int, cs[i].1 as int),
        decreases 5 - k,
    {
        let c = cands[k];
        let in_shaft = up_shaft.contains(c.0, c.1) || match down_shaft {
            Some(s) => s.contains(c.0, c.1),
            None => false,
        };
        if !in_shaft {
            cell = Some(c);
        }
        k = k + 1;
    }
    cell
}

/// Guaranteed-valid degenerate layout: one large room wrapping the up
/// shaft (clamped to the grid), with the down shaft placed by deterministic
/// scan. Only reached if every randomized attempt failed validation.
fn fallback_floor(
    rng: &mut Stream,
    depth: u8,
    is_last: bool,
    up_shaft: StairShaft,
    tables: &Vec<Vec<SpawnEntry>>,
) -> (l: FloorLayout)
    requires
        up_shaft.in_interior(),
        tables_ok(tables@),
    ensures
        floor_ok(l, table_at(tables@, depth as int)),
        l.depth == depth,
        l.up_shaft == up_shaft,
        is_last ==> l.down_shaft is None,
        l.down_shaft is None <==> l.chest is Some,
        floor_descendable(l),
        stairs_spaced(l),
        (layout_view(l), *final(rng)) == model_fallback(*old(rng), depth, is_last, up_shaft, table_at(tables@, depth as int)),
{
    let r = up_shaft.rect();
    let x0 = if r.x - 8 > 1 { r.x - 8 } else { 1 };
    let z0 = if r.z - 8 > 1 { r.z - 8 } else { 1 };
    let x1 = if r.x + r.w + 8 < GRID - 1 { r.x + r.w + 8 } else { GRID - 1 };
    let z1 = if r.z + r.d + 8 < GRID - 1 { r.z + r.d + 8 } else { GRID - 1 };
    let room = Room { x: x0, z: z0, w: x1 - x0, d: z1 - z0 };
    assert(room == fallback_room(up_shaft));
    assert(room.w >= 10 && room.d >= 10);
    assert(room_ok(room));

    // The wrap room is at least 10 cells on each axis around the shaft, so
    // a slot virtually always exists; if not, this floor promotes itself to
    // the final floor (generate_dungeon stops descending).
    let down_shaft = if is_last { None } else { fallback_down_shaft(room, up_shaft) };

    let mut rooms: Vec<Room> = Vec::new();
    rooms.push(room);
    proof {
        assert(rooms@ =~= seq![room]);
    }
    let carved = carve_floor(&rooms, &up_shaft, &down_shaft);

    let chest = if is_last || down_shaft.is_none() {
        fallback_chest(room, up_shaft, down_shaft)
    } else {
        None
    };

    let mut layout = FloorLayout {
        depth,
        rooms,
        carved,
        up_shaft,
        down_shaft,
        chest,
        spawns: Vec::new(),
    };
    let ghost l0 = layout;
    proof {
        lemma_interior_arith(up_shaft);
        if let Some(d) = down_shaft {
            lemma_interior_arith(d);
        }
        if let Some(c) = chest {
            assert(room.has_cell(c.0 as int, c.1 as int));
            assert(layout.rooms@[0] == room);
        }
        assert(ground_of(layout) == fallback_ground(depth, is_last, up_shaft));
    }
    let spawns = roll_spawns(rng, &layout, tables);
    layout.spawns = spawns;
    proof {
        assert(same_ground(l0, layout));
        lemma_spawns_ok_same_ground(l0, layout, layout.spawns@, table_at(tables@, depth as int));
        lemma_floor_ok(layout, table_at(tables@, depth as int));
        // The one room is walkable all the way down.
        lemma_fallback_room_fits(layout);
        if let Some(d) = down_shaft {
            lemma_scan_rows_shape(room, grown_room(up_shaft.spec_rect()), room.z + 1);
        }
        lemma_single_room_carving(layout, room);
        if let Some(c) = chest {
            lemma_first_off_shafts(fallback_chest_cells(room), up_shaft, down_shaft, 0);
        }
        assert(fallback_shape(layout, room));
        lemma_fallback_descendable(layout, room);
        lemma_single_room_stairs_spaced(layout, room);
    }
    layout
}

/// One floor: up to `FLOOR_ATTEMPTS` randomized attempts from the floor's
/// own stream (seeded by the dungeon seed and the depth), then the fallback.
fn generate_floor(seed: u64, depth: u8, total: u8, up_shaft: StairShaft, tables: &Vec<Vec<SpawnEntry>>) -> (l: FloorLayout)
    requires
        up_shaft.in_interior(),
        tables_ok(tables@),
    ensures
        floor_ok(l, table_at(tables@, depth as int)),
        l.depth == depth,
        l.up_shaft == up_shaft,
        depth == total ==> l.down_shaft is None,
        floor_descendable(l),
        stairs_spaced(l),
        layout_view(l) == model_generate_floor(seed, depth, total, up_shaft, table_at(tables@, depth as int)),
{
    let mut rng = stream_from_seed(seed ^ (depth as u64).wrapping_mul(DEPTH_SALT));
    let is_last = depth == total;
    let mut attempt: u32 = 0;
    assert(rng == floor_stream(seed, depth));
    while attempt < FLOOR_ATTEMPTS
        invariant
            model_generate_floor(seed, depth, total, up_shaft, table_at(tables@, depth as int)) == model_floor_from(
                rng,
                depth,
                is_last,
                up_shaft,
                table_at(tables@, depth as int),
                attempt as int,
            ),
            up_shaft.in_interior(),
            tables_ok(tables@),
            is_last == (depth == total),
        decreases FLOOR_ATTEMPTS - attempt,
    {
        if let Some(layout) = try_generate_floor(&mut rng, depth, is_last, up_shaft, tables) {
            proof {
                lemma_connected_descendable(layout);
            }
            return layout;
        }
        attempt = attempt + 1;
    }
    fallback_floor(&mut rng, depth, is_last, up_shaft, tables)
}

/// The arrival shaft of depth 1: its entry landing straddles the grid
/// center, where the world-space entrance sits.
pub open spec fn entrance_ok(sh: StairShaft) -> bool {
    &&& abs_i(sh.spec_entry_cell().0 - GRID / 2) <= 1
    &&& abs_i(sh.spec_entry_cell().1 - GRID / 2) <= 1
}

/// The laws every generated dungeon satisfies: one to `MAX_DEPTH` floors,
/// numbered from 1, each well-formed for its depth's spawn table and each
/// walkable from its arrival landing to its way down (or its chest), with a
/// walkable lane beside its up shaft and its two shafts a cell apart; each
/// floor's down shaft is exactly the next floor's up shaft; the last floor
/// has no way further down (and so holds the chest and the boss); and the
/// first floor is entered at the grid center.
pub open spec fn dungeon_ok(fs: Seq<FloorLayout>, tables: Seq<Vec<SpawnEntry>>) -> bool {
    &&& 1 <= fs.len() <= MAX_DEPTH
    &&& forall|i: int| 0 <= i < fs.len() ==> (#[trigger] fs[i]).depth == i + 1 && floor_ok(fs[i], table_at(tables, i + 1))
    &&& forall|i: int| 0 <= i < fs.len() ==> floor_descendable(#[trigger] fs[i])
    &&& forall|i: int| 0 <= i < fs.len() ==> stairs_spaced(#[trigger] fs[i])
    &&& forall|i: int| 0 <= i < fs.len() - 1 ==> (#[trigger] fs[i]).down_shaft == Some(fs[i + 1].up_shaft)
    &&& fs[fs.len() - 1].down_shaft is None
    &&& entrance_ok(fs[0].up_shaft)
}

/// Every floor of a generated dungeon gets monsters: the final floor opens
/// its spawn list with the boss, and any floor whose depth's table has
/// weight gets at least one regular monster drawn from that table, standing
/// on a walkable cell off both shafts.
pub proof fn lemma_generated_floors_have_spawns(fs: Seq<FloorLayout>, tables: Seq<Vec<SpawnEntry>>, i: int)
    requires
        dungeon_ok(fs, tables),
        0 <= i < fs.len(),
    ensures
        i == fs.len() - 1 ==> fs[i].spawns@.len() >= 1 && fs[i].spawns@[0].is_boss,
        weight_sum(entry_weights(table_at(tables, i + 1))) > 0 ==> exists|k: int|
            0 <= k < fs[i].spawns@.len() && {
                let sp = #[trigger] fs[i].spawns@[k];
                &&& !sp.is_boss
                &&& from_table(sp, table_at(tables, i + 1))
                &&& fs[i].carved_at(sp.x as int, sp.z as int)
                &&& !in_any_shaft(fs[i], sp.x as int, sp.z as int)
            },
{
    let l = fs[i];
    let t = table_at(tables, i + 1);
    assert(floor_ok(l, t));
    assert(stairs_spaced(l));
    lemma_spaced_stairs_leave_spawn_cell(l);
    if weight_sum(entry_weights(t)) > 0 {
        let k = choose|k: int| 0 <= k < l.spawns@.len() && !(#[trigger] l.spawns@[k]).is_boss;
        assert(spawn_at_ok(l, l.spawns@[k], k, t));
    }
    if i == fs.len() - 1 {
        assert(spawn_at_ok(l, l.spawns@[0], 0, table_at(tables, i + 1)));
    }
}

/// Total floor count for a dungeon, `MIN_DEPTH..=MAX_DEPTH`, derived from the
/// seed (the first draw of the seed's stream).
pub fn dungeon_depth(seed: u64) -> (d: u8)
    ensures
        MIN_DEPTH <= d <= MAX_DEPTH,
        d == model_depth(seed),
{
    let mut rng = stream_from_seed(seed);
    draw_u8_inclusive(&mut rng, MIN_DEPTH, MAX_DEPTH)
}

/// Generate every floor of the dungeon for `seed`, spawning monsters from
/// `tables` (indexed by depth): never more floors than `dungeon_depth(seed)`
/// (fewer only when a fallback floor finds no room for a way down).
pub fn generate_dungeon(seed: u64, tables: &Vec<Vec<SpawnEntry>>) -> (floors: Vec<FloorLayout>)
    requires
        tables_ok(tables@),
    ensures
        dungeon_ok(floors@, tables@),
        floors@.len() <= model_depth(seed),
        floors@.map_values(|l: FloorLayout| layout_view(l)) == model_dungeon(seed, tables@),
{
    proof {
        crate::gen_model::lemma_dungeon_floor_count(seed, tables@);
    }
    let mut meta = stream_from_seed(seed);
    let total = draw_u8_inclusive(&mut meta, MIN_DEPTH, MAX_DEPTH);
    let along_z = draw_i32_below(&mut meta, 0, 2) == 1;
    let reversed = draw_i32_below(&mut meta, 0, 2) == 1;

    // Entrance shaft: entry landing straddles the grid center so the
    // world-space entrance position sits on the top landing.
    let half = GRID / 2;
    let entrance_shaft = if along_z {
        StairShaft {
            x: half - 1,
            z: if reversed { half - SHAFT_LEN + 1 } else { half },
            along_z,
            reversed,
        }
    } else {
        StairShaft {
            x: if reversed { half - SHAFT_LEN + 1 } else { half },
            z: half - 1,
            along_z,
            reversed,
        }
    };
    assert(entrance_ok(entrance_shaft));
    assert(entrance_shaft.in_interior());
    assert(entrance_shaft == crate::gen_model::entrance_shaft(along_z, reversed));
    assert(model_dungeon(seed, tables@) == model_floors_from(seed, tables@, total, 1, entrance_shaft));

    let mut floors: Vec<FloorLayout> = Vec::with_capacity(total as usize);
    let mut up = entrance_shaft;
    let mut depth: u8 = 1;
    let mut done = false;
    while depth <= total && !done
        invariant
            MIN_DEPTH <= total <= MAX_DEPTH,
            1 <= depth <= total + 1,
            tables_ok(tables@),
            floors@.len() == depth - 1,
            up.in_interior(),
            floors@.len() == 0 ==> up == entrance_shaft && !done,
            forall|i: int| 0 <= i < floors@.len() ==> (#[trigger] floors@[i]).depth == i + 1 && floor_ok(floors@[i], table_at(tables@, i + 1)),
            forall|i: int| 0 <= i < floors@.len() ==> floor_descendable(#[trigger] floors@[i]),
            forall|i: int| 0 <= i < floors@.len() ==> stairs_spaced(#[trigger] floors@[i]),
            forall|i: int| 0 <= i < floors@.len() - 1 ==> (#[trigger] floors@[i]).down_shaft == Some(floors@[i + 1].up_shaft),
            floors@.len() > 0 ==> floors@[0].up_shaft == entrance_shaft,
            floors@.len() > 0 && !done ==> floors@[floors@.len() - 1].down_shaft == Some(up),
            floors@.len() > 0 && done ==> floors@[floors@.len() - 1].down_shaft is None,
            floors@.len() > 0 && depth == total + 1 ==> floors@[floors@.len() - 1].down_shaft is None,
            model_dungeon(seed, tables@) == floors@.map_values(|l: FloorLayout| layout_view(l)) + (if done {
                Seq::empty()
            } else {
                model_floors_from(seed, tables@, total, depth, up)
            }),
        decreases total + 1 - depth,
    {
        let ghost fv = floors@.map_values(|l: FloorLayout| layout_view(l));
        let ghost up0 = up;
        let layout = generate_floor(seed, depth, total, up, tables);
        let dead_end = layout.down_shaft.is_none();
        if let Some(down) = layout.down_shaft {
            up = down;
        }
        let ghost before = floors@;
        floors.push(layout);
        proof {
            assert forall|i: int| 0 <= i < floors@.len() - 1 implies (#[trigger] floors@[i]).down_shaft == Some(floors@[i + 1].up_shaft) by {
                if i < floors@.len() - 2 {
                    assert(floors@[i] == before[i] && floors@[i + 1] == before[i + 1]);
                } else {
                    assert(floors@[i] == before[i]);
                }
            }
            assert forall|i: int| 0 <= i < floors@.len() implies (#[trigger] floors@[i]).depth == i + 1 && floor_ok(floors@[i], table_at(tables@, i + 1)) by {
                if i < floors@.len() - 1 {
                    assert(floors@[i] == before[i]);
                }
            }
            assert forall|i: int| 0 <= i < floors@.len() implies floor_descendable(#[trigger] floors@[i]) by {
                if i < floors@.len() - 1 {
                    assert(floors@[i] == before[i]);
                }
            }
            assert forall|i: int| 0 <= i < floors@.len() implies stairs_spaced(#[trigger] floors@[i]) by {
                if i < floors@.len() - 1 {
                    assert(floors@[i] == before[i]);
                }
            }
        }
        // A fallback floor that couldn't fit a down shaft promotes itself to
        // the final floor (chest + boss); stop descending.
        if dead_end {
            done = true;
        }
        proof {
            let lv = layout_view(floors@[floors@.len() - 1]);
            assert(floors@.map_values(|l: FloorLayout| layout_view(l)) =~= fv.push(lv));
            assert(model_floors_from(seed, tables@, total, depth, up0) == (match lv.0.4 {
                Some(down) => seq![lv] + model_floors_from(seed, tables@, total, (depth + 1) as u8, down),
                None => seq![lv],
            }));
            if dead_end {
                assert(fv + model_floors_from(seed, tables@, total, depth, up0) =~= fv.push(lv) + Seq::empty());
            } else {
                assert(fv + model_floors_from(seed, tables@, total, depth, up0) =~= fv.push(lv) + model_floors_from(
                    seed,
                    tables@,
                    total,
                    (depth + 1) as u8,
                    up,
                ));
            }
        }
        depth = depth + 1;
    }
    proof {
        if !done {
            assert(depth == total + 1);
            assert(model_floors_from(seed, tables@, total, depth, up) =~= Seq::empty());
        }
        assert(floors@.map_values(|l: FloorLayout| layout_view(l)) + Seq::empty() =~= floors@.map_values(
            |l: FloorLayout| layout_view(l),
        ));
    }
    floors
}

} // verus!
