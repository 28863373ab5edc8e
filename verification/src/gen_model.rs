//! What dungeon generation computes, as functions of the stream it draws
//! from: every draw is the named ChaCha8 draw at the stream's current
//! position, so each step below maps a stream position (and the step's
//! inputs) to its result and the position after it. Generation therefore
//! depends on the seed and the spawn tables alone.
use vstd::prelude::*;
use crate::rng::{Stream, chacha8_i32_inclusive, chacha8_i32_below, chacha8_u8_inclusive, chacha8_usize_below, chacha8_u32_below};
use crate::dungeon::{FloorLayout, Room, SpawnEntry, SpawnSpec, StairShaft, GRID, CELLS, SHAFT_LEN, SHAFT_W, MIN_DEPTH, MAX_DEPTH, in_grid, cell_index, entry_weights, table_at};
use crate::dungeon_gen::{ROOM_MIN, ROOM_MAX, SHAFT_ROOM_AXIAL, ROOM_PLACE_ATTEMPTS, FLOOR_ATTEMPTS, DEPTH_SALT, SPAWN_CLEAR_RADIUS, BOSS_MONSTER_TYPE, grown_room, abs_i, max_i, carve_spec, center_cell};
use crate::connectivity::{floor_connected, same_ground, lemma_connected_same_ground};
use crate::weights::{weight_sum, weighted_pick};

verus! {

/// `gen_range(lo..=hi)` on `i32` at the stream's position.
pub open spec fn sd_i32_inclusive(s: Stream, lo: i32, hi: i32) -> (i32, Stream) {
    let (v, p) = chacha8_i32_inclusive(s.seed, s.pos, lo, hi);
    (v, Stream { seed: s.seed, pos: p })
}

/// `gen_range(lo..hi)` on `i32` at the stream's position.
pub open spec fn sd_i32_below(s: Stream, lo: i32, hi: i32) -> (i32, Stream) {
    let (v, p) = chacha8_i32_below(s.seed, s.pos, lo, hi);
    (v, Stream { seed: s.seed, pos: p })
}

/// `gen_range(lo..=hi)` on `u8` at the stream's position.
pub open spec fn sd_u8_inclusive(s: Stream, lo: u8, hi: u8) -> (u8, Stream) {
    let (v, p) = chacha8_u8_inclusive(s.seed, s.pos, lo, hi);
    (v, Stream { seed: s.seed, pos: p })
}

/// `gen_range(0..n)` on `usize` at the stream's position.
pub open spec fn sd_usize_below(s: Stream, n: usize) -> (usize, Stream) {
    let (v, p) = chacha8_usize_below(s.seed, s.pos, n, usize::BITS);
    (v, Stream { seed: s.seed, pos: p })
}

/// `gen_range(0..n)` on `u32` at the stream's position.
pub open spec fn sd_u32_below(s: Stream, n: u32) -> (u32, Stream) {
    let (v, p) = chacha8_u32_below(s.seed, s.pos, n);
    (v, Stream { seed: s.seed, pos: p })
}

/// A uniform pick in `[lo, hi]` (no draw when the range is empty).
pub open spec fn model_range_pick(s: Stream, lo: i32, hi: i32) -> (Option<i32>, Stream) {
    if lo > hi {
        (None, s)
    } else {
        let (v, s1) = sd_i32_inclusive(s, lo, hi);
        (Some(v), s1)
    }
}

/// Room 0 around the up shaft: width and depth, then x and z.
pub open spec fn model_room_around_shaft(s: Stream, shaft: StairShaft) -> (Option<Room>, Stream) {
    let r = shaft.spec_rect();
    let (w, s1) = if shaft.along_z {
        sd_i32_inclusive(s, ROOM_MIN, ROOM_MAX)
    } else {
        sd_i32_inclusive(s, SHAFT_ROOM_AXIAL, ROOM_MAX)
    };
    let (d, s2) = if shaft.along_z {
        sd_i32_inclusive(s1, SHAFT_ROOM_AXIAL, ROOM_MAX)
    } else {
        sd_i32_inclusive(s1, ROOM_MIN, ROOM_MAX)
    };
    let xlo = if r.x + r.w + 1 - w > 1 { (r.x + r.w + 1 - w) as i32 } else { 1i32 };
    let xhi = if r.x - 1 < GRID - 1 - w { (r.x - 1) as i32 } else { (GRID - 1 - w) as i32 };
    let (xo, s3) = model_range_pick(s2, xlo, xhi);
    match xo {
        None => (None, s3),
        Some(x) => {
            let zlo = if r.z + r.d + 1 - d > 1 { (r.z + r.d + 1 - d) as i32 } else { 1i32 };
            let zhi = if r.z - 1 < GRID - 1 - d { (r.z - 1) as i32 } else { (GRID - 1 - d) as i32 };
            let (zo, s4) = model_range_pick(s3, zlo, zhi);
            match zo {
                None => (None, s4),
                Some(z) => (Some(Room { x, z, w, d }), s4),
            }
        },
    }
}

/// The grown candidate touches the shaft zone or an earlier room.
pub open spec fn blocked(grown: Room, zone: Room, rooms: Seq<Room>) -> bool {
    grown.overlaps(zone) || exists|i: int| 0 <= i < rooms.len() && grown.overlaps(#[trigger] rooms[i])
}

/// Rejection sampling of a free room from attempt `attempt` on.
pub open spec fn model_room_free_from(
    s: Stream,
    w: i32,
    d: i32,
    rooms: Seq<Room>,
    zone: Room,
    attempt: int,
) -> (Option<Room>, Stream)
    decreases ROOM_PLACE_ATTEMPTS - attempt,
{
    if attempt >= ROOM_PLACE_ATTEMPTS {
        (None, s)
    } else {
        let (x, s1) = sd_i32_inclusive(s, 1, (GRID - 1 - w) as i32);
        let (z, s2) = sd_i32_inclusive(s1, 1, (GRID - 1 - d) as i32);
        let cand = Room { x, z, w, d };
        if blocked(grown_room(cand), zone, rooms) {
            model_room_free_from(s2, w, d, rooms, zone, attempt + 1)
        } else {
            (Some(cand), s2)
        }
    }
}

/// A free `w`×`d` room clear of the earlier rooms and the up shaft.
pub open spec fn model_room_free(s: Stream, w: i32, d: i32, rooms: Seq<Room>, up: StairShaft) -> (Option<Room>, Stream) {
    model_room_free_from(s, w, d, rooms, grown_room(up.spec_rect()), 0)
}

/// A down shaft inside `room`: x, z, then its direction.
pub open spec fn model_shaft_in_room(s: Stream, room: Room, along_z: bool) -> (StairShaft, Stream) {
    let (sw, sl) = if along_z { (SHAFT_W, SHAFT_LEN) } else { (SHAFT_LEN, SHAFT_W) };
    let (x, s1) = sd_i32_inclusive(s, (room.x + 1) as i32, (room.x + room.w - 1 - sw) as i32);
    let (z, s2) = sd_i32_inclusive(s1, (room.z + 1) as i32, (room.z + room.d - 1 - sl) as i32);
    let (rv, s3) = sd_i32_below(s2, 0, 2);
    (StairShaft { x, z, along_z, reversed: rv == 1 }, s3)
}

/// The sizes of the next room: the last room of `count` hosts the down
/// shaft along `down_along_z`.
pub open spec fn model_room_size(s: Stream, hosts_shaft: bool, down_along_z: bool) -> (i32, i32, Stream) {
    if hosts_shaft {
        if down_along_z {
            let (w, s1) = sd_i32_inclusive(s, ROOM_MIN, ROOM_MAX);
            let (d, s2) = sd_i32_inclusive(s1, SHAFT_ROOM_AXIAL, ROOM_MAX);
            (w, d, s2)
        } else {
            let (w, s1) = sd_i32_inclusive(s, SHAFT_ROOM_AXIAL, ROOM_MAX);
            let (d, s2) = sd_i32_inclusive(s1, ROOM_MIN, ROOM_MAX);
            (w, d, s2)
        }
    } else {
        let (w, s1) = sd_i32_inclusive(s, ROOM_MIN, ROOM_MAX);
        let (d, s2) = sd_i32_inclusive(s1, ROOM_MIN, ROOM_MAX);
        (w, d, s2)
    }
}

/// The remaining rooms after `rooms`, up to `count` in all.
pub open spec fn model_more_rooms(
    s: Stream,
    rooms: Seq<Room>,
    count: int,
    down_along_z: bool,
    up: StairShaft,
) -> (Option<Seq<Room>>, Stream)
    decreases count - rooms.len(),
{
    if rooms.len() >= count {
        (Some(rooms), s)
    } else {
        let (w, d, s1) = model_room_size(s, rooms.len() == count - 1, down_along_z);
        let (ro, s2) = model_room_free(s1, w, d, rooms, up);
        match ro {
            None => (None, s2),
            Some(r) => model_more_rooms(s2, rooms.push(r), count, down_along_z, up),
        }
    }
}

/// The ground of a floor as plain values: depth, rooms, walkability mask,
/// up shaft, down shaft and chest.
pub open spec fn ground_of(l: FloorLayout) -> (u8, Seq<Room>, Seq<bool>, StairShaft, Option<StairShaft>, Option<(i32, i32)>) {
    (l.depth, l.rooms@, l.carved@, l.up_shaft, l.down_shaft, l.chest)
}

/// A spawn as plain values: cell, monster type, boss flag, temper.
pub open spec fn spawn_view(sp: SpawnSpec) -> (i32, i32, Seq<char>, bool, bool) {
    (sp.x, sp.z, sp.monster_type@, sp.is_boss, sp.aggressive)
}

/// A floor as plain values: its ground and its spawns.
pub open spec fn layout_view(l: FloorLayout) -> (
    (u8, Seq<Room>, Seq<bool>, StairShaft, Option<StairShaft>, Option<(i32, i32)>),
    Seq<(i32, i32, Seq<char>, bool, bool)>,
) {
    (ground_of(l), l.spawns@.map_values(|sp: SpawnSpec| spawn_view(sp)))
}

pub open spec fn g_carved(
    g: (u8, Seq<Room>, Seq<bool>, StairShaft, Option<StairShaft>, Option<(i32, i32)>),
    x: int,
    z: int,
) -> bool {
    in_grid(x, z) && g.2[cell_index(x, z)]
}

pub open spec fn g_in_shaft(
    g: (u8, Seq<Room>, Seq<bool>, StairShaft, Option<StairShaft>, Option<(i32, i32)>),
    x: int,
    z: int,
) -> bool {
    g.3.has_cell(x, z) || (g.4 matches Some(d) && d.has_cell(x, z))
}

/// A regular monster may spawn on `(x, z)`: walkable, off the stairs,
/// away from the arrival landing, not the chest.
pub open spec fn g_candidate(
    g: (u8, Seq<Room>, Seq<bool>, StairShaft, Option<StairShaft>, Option<(i32, i32)>),
    x: int,
    z: int,
) -> bool {
    let exit = g.3.spec_exit_cell();
    &&& g_carved(g, x, z)
    &&& !g_in_shaft(g, x, z)
    &&& max_i(abs_i(x - exit.0), abs_i(z - exit.1)) > SPAWN_CLEAR_RADIUS
    &&& g.5 != Some((x as i32, z as i32))
}

/// The spawn candidates among the first `n` cells, in row-major order.
pub open spec fn model_candidates_upto(
    g: (u8, Seq<Room>, Seq<bool>, StairShaft, Option<StairShaft>, Option<(i32, i32)>),
    n: int,
) -> Seq<(i32, i32)>
    decreases n,
{
    if n <= 0 {
        Seq::empty()
    } else {
        let prev = model_candidates_upto(g, n - 1);
        let x = (n - 1) % GRID as int;
        let z = (n - 1) / GRID as int;
        if g_candidate(g, x, z) {
            prev.push((x as i32, z as i32))
        } else {
            prev
        }
    }
}

/// The boss stands two cells east, west, south or north of the chest (the
/// first walkable one off the stairs), else on the chest.
pub open spec fn model_boss_cell(
    g: (u8, Seq<Room>, Seq<bool>, StairShaft, Option<StairShaft>, Option<(i32, i32)>),
    c: (i32, i32),
) -> (i32, i32) {
    if g_carved(g, c.0 + 2, c.1 as int) && !g_in_shaft(g, c.0 + 2, c.1 as int) {
        ((c.0 + 2) as i32, c.1)
    } else if g_carved(g, c.0 - 2, c.1 as int) && !g_in_shaft(g, c.0 - 2, c.1 as int) {
        ((c.0 - 2) as i32, c.1)
    } else if g_carved(g, c.0 as int, c.1 + 2) && !g_in_shaft(g, c.0 as int, c.1 + 2) {
        (c.0, (c.1 + 2) as i32)
    } else if g_carved(g, c.0 as int, c.1 - 2) && !g_in_shaft(g, c.0 as int, c.1 - 2) {
        (c.0, (c.1 - 2) as i32)
    } else {
        c
    }
}

/// `n` picks: a cell drawn from the candidates (and taken out of them by a
/// swap with the last), then a monster drawn by weight from the table.
pub open spec fn model_picks(
    s: Stream,
    cands: Seq<(i32, i32)>,
    n: int,
    table: Seq<SpawnEntry>,
    total: u32,
) -> (Seq<(i32, i32, Seq<char>, bool, bool)>, Stream)
    decreases n,
{
    if n <= 0 || cands.len() == 0 {
        (Seq::empty(), s)
    } else {
        let (idx, s1) = sd_usize_below(s, cands.len() as usize);
        let c = cands[idx as int];
        let rest = cands.update(idx as int, cands.last()).drop_last();
        let (roll, s2) = sd_u32_below(s1, total);
        let e = weighted_pick(entry_weights(table), roll as int).unwrap();
        let sp = (c.0, c.1, table[e].monster_type@, false, table[e].aggressive);
        let (more, s3) = model_picks(s2, rest, n - 1, table, total);
        (seq![sp] + more, s3)
    }
}

/// The spawns of a floor: the boss by the chest (final floor), then a
/// count drawn by depth and that many picks.
pub open spec fn model_roll_spawns(
    s: Stream,
    g: (u8, Seq<Room>, Seq<bool>, StairShaft, Option<StairShaft>, Option<(i32, i32)>),
    table: Seq<SpawnEntry>,
) -> (Seq<(i32, i32, Seq<char>, bool, bool)>, Stream) {
    let base: Seq<(i32, i32, Seq<char>, bool, bool)> = match g.5 {
        Some(c) => {
            let b = model_boss_cell(g, c);
            seq![(b.0, b.1, BOSS_MONSTER_TYPE@, true, true)]
        },
        None => Seq::empty(),
    };
    let total = weight_sum(entry_weights(table));
    if total == 0 {
        (base, s)
    } else {
        let (cnt, s1) = if g.0 == 1 {
            sd_i32_inclusive(s, 3, 5)
        } else {
            sd_i32_inclusive(s, 5, 9)
        };
        let cands = model_candidates_upto(g, CELLS as int);
        let n = if (cnt as int) < cands.len() { cnt as int } else { cands.len() as int };
        let (picked, s2) = model_picks(s1, cands, n, table, total as u32);
        (base + picked, s2)
    }
}

/// The ground passes the connectivity check (which reads the ground only).
pub open spec fn conn_ground(g: (u8, Seq<Room>, Seq<bool>, StairShaft, Option<StairShaft>, Option<(i32, i32)>)) -> bool {
    exists|l: FloorLayout| ground_of(l) == g && #[trigger] floor_connected(l)
}

pub proof fn lemma_conn_ground(l: FloorLayout)
    ensures
        conn_ground(ground_of(l)) == floor_connected(l),
{
    if conn_ground(ground_of(l)) {
        let l2 = choose|l2: FloorLayout| ground_of(l2) == ground_of(l) && #[trigger] floor_connected(l2);
        assert(same_ground(l2, l));
        lemma_connected_same_ground(l2, l);
    }
}

/// The rest of a floor attempt once its rooms are placed (or failed).
pub open spec fn model_after_rooms(
    placed: (Option<Seq<Room>>, Stream),
    depth: u8,
    is_last: bool,
    up: StairShaft,
    table: Seq<SpawnEntry>,
    down_along_z: bool,
) -> (
    Option<(
        (u8, Seq<Room>, Seq<bool>, StairShaft, Option<StairShaft>, Option<(i32, i32)>),
        Seq<(i32, i32, Seq<char>, bool, bool)>,
    )>,
    Stream,
) {
    let (ro, s4) = placed;
    match ro {
        None => (None, s4),
        Some(rooms) => {
            let (down, s5) = if is_last {
                (None, s4)
            } else {
                let (sh, s5) = model_shaft_in_room(s4, rooms.last(), down_along_z);
                (Some(sh), s5)
            };
            let chest = if is_last { Some(center_cell(rooms.last())) } else { None };
            let g = (depth, rooms, carve_spec(rooms, up, down), up, down, chest);
            if !conn_ground(g) {
                (None, s5)
            } else {
                let (sp, s6) = model_roll_spawns(s5, g, table);
                (Some((g, sp)), s6)
            }
        },
    }
}

/// One randomized attempt at a floor: the room count, room 0 around the
/// up shaft, the down shaft's direction, the other rooms, the down shaft
/// (not on the final floor), then the connectivity check and the spawns.
pub open spec fn model_try_floor(
    s: Stream,
    depth: u8,
    is_last: bool,
    up: StairShaft,
    table: Seq<SpawnEntry>,
) -> (
    Option<(
        (u8, Seq<Room>, Seq<bool>, StairShaft, Option<StairShaft>, Option<(i32, i32)>),
        Seq<(i32, i32, Seq<char>, bool, bool)>,
    )>,
    Stream,
) {
    let (rc, s1) = sd_i32_inclusive(s, 3, 5);
    let (first, s2) = model_room_around_shaft(s1, up);
    match first {
        None => (None, s2),
        Some(f) => {
            let (dz, s3) = sd_i32_below(s2, 0, 2);
            model_after_rooms(
                model_more_rooms(s3, seq![f], rc as int, dz == 1, up),
                depth,
                is_last,
                up,
                table,
                dz == 1,
            )
        },
    }
}


/// The one large room of the fallback floor: the up shaft grown by eight
/// cells, clamped to the grid interior.
pub open spec fn fallback_room(up: StairShaft) -> Room {
    let r = up.spec_rect();
    let x0 = if r.x - 8 > 1 { r.x - 8 } else { 1 };
    let z0 = if r.z - 8 > 1 { r.z - 8 } else { 1 };
    let x1 = if r.x + r.w + 8 < GRID - 1 { r.x + r.w + 8 } else { GRID - 1 };
    let z1 = if r.z + r.d + 8 < GRID - 1 { r.z + r.d + 8 } else { GRID - 1 };
    Room { x: x0 as i32, z: z0 as i32, w: (x1 - x0) as i32, d: (z1 - z0) as i32 }
}

/// The first down-shaft slot along row `z`, from column `x` on, whose
/// grown footprint stays clear of `zone`.
pub open spec fn scan_row(room: Room, zone: Room, z: int, x: int) -> Option<StairShaft>
    decreases GRID - x,
{
    if x >= room.x + room.w - 1 - SHAFT_W || x >= GRID {
        None
    } else {
        let cand = StairShaft { x: x as i32, z: z as i32, along_z: true, reversed: false };
        if !grown_room(cand.spec_rect()).overlaps(zone) {
            Some(cand)
        } else {
            scan_row(room, zone, z, x + 1)
        }
    }
}

/// The first down-shaft slot in row-major order from row `z` on.
pub open spec fn scan_rows(room: Room, zone: Room, z: int) -> Option<StairShaft>
    decreases GRID - z,
{
    if z >= room.z + room.d - 1 - SHAFT_LEN || z >= GRID {
        None
    } else {
        match scan_row(room, zone, z, room.x + 1) {
            Some(c) => Some(c),
            None => scan_rows(room, zone, z + 1),
        }
    }
}

/// The chest cell candidates of the fallback room: its center, then the
/// four cells two in from its corners.
pub open spec fn fallback_chest_cells(room: Room) -> Seq<(i32, i32)> {
    seq![
        ((room.x + room.w / 2) as i32, (room.z + room.d / 2) as i32),
        ((room.x + 2) as i32, (room.z + 2) as i32),
        ((room.x + room.w - 3) as i32, (room.z + 2) as i32),
        ((room.x + 2) as i32, (room.z + room.d - 3) as i32),
        ((room.x + room.w - 3) as i32, (room.z + room.d - 3) as i32)
    ]
}

/// The first of `cells` from position `k` on that lies in no shaft.
pub open spec fn first_off_shafts(cells: Seq<(i32, i32)>, up: StairShaft, down: Option<StairShaft>, k: int) -> Option<(i32, i32)>
    decreases cells.len() - k,
{
    if k < 0 || k >= cells.len() {
        None
    } else if !(up.has_cell(cells[k].0 as int, cells[k].1 as int) || (down matches Some(d) && d.has_cell(
        cells[k].0 as int,
        cells[k].1 as int,
    ))) {
        Some(cells[k])
    } else {
        first_off_shafts(cells, up, down, k + 1)
    }
}

/// The ground of the fallback floor.
pub open spec fn fallback_ground(depth: u8, is_last: bool, up: StairShaft) -> (
    u8,
    Seq<Room>,
    Seq<bool>,
    StairShaft,
    Option<StairShaft>,
    Option<(i32, i32)>,
) {
    let room = fallback_room(up);
    let down = if is_last {
        None
    } else {
        scan_rows(room, grown_room(up.spec_rect()), room.z + 1)
    };
    let chest = if is_last || down is None {
        first_off_shafts(fallback_chest_cells(room), up, down, 0)
    } else {
        None
    };
    (depth, seq![room], carve_spec(seq![room], up, down), up, down, chest)
}

/// The fallback floor: its fixed ground, then its spawns.
pub open spec fn model_fallback(s: Stream, depth: u8, is_last: bool, up: StairShaft, table: Seq<SpawnEntry>) -> (
    (
        (u8, Seq<Room>, Seq<bool>, StairShaft, Option<StairShaft>, Option<(i32, i32)>),
        Seq<(i32, i32, Seq<char>, bool, bool)>,
    ),
    Stream,
) {
    let g = fallback_ground(depth, is_last, up);
    let (sp, s1) = model_roll_spawns(s, g, table);
    ((g, sp), s1)
}


/// The stream a floor draws from: the dungeon seed mixed with the depth.
pub open spec fn floor_stream(seed: u64, depth: u8) -> Stream {
    Stream { seed: seed ^ (depth as u64).wrapping_mul(DEPTH_SALT), pos: 0 }
}

/// Floor attempts from attempt `attempt` on, then the fallback.
pub open spec fn model_floor_from(
    s: Stream,
    depth: u8,
    is_last: bool,
    up: StairShaft,
    table: Seq<SpawnEntry>,
    attempt: int,
) -> (
    (u8, Seq<Room>, Seq<bool>, StairShaft, Option<StairShaft>, Option<(i32, i32)>),
    Seq<(i32, i32, Seq<char>, bool, bool)>,
)
    decreases FLOOR_ATTEMPTS - attempt,
{
    if attempt >= FLOOR_ATTEMPTS {
        model_fallback(s, depth, is_last, up, table).0
    } else {
        let (r, s1) = model_try_floor(s, depth, is_last, up, table);
        match r {
            Some(l) => l,
            None => model_floor_from(s1, depth, is_last, up, table, attempt + 1),
        }
    }
}

/// The floor at `depth` of a dungeon of `total` floors, entered by `up`.
pub open spec fn model_generate_floor(seed: u64, depth: u8, total: u8, up: StairShaft, table: Seq<SpawnEntry>) -> (
    (u8, Seq<Room>, Seq<bool>, StairShaft, Option<StairShaft>, Option<(i32, i32)>),
    Seq<(i32, i32, Seq<char>, bool, bool)>,
) {
    model_floor_from(floor_stream(seed, depth), depth, depth == total, up, table, 0)
}

/// The arrival shaft of depth 1, its entry landing on the grid center.
pub open spec fn entrance_shaft(along_z: bool, reversed: bool) -> StairShaft {
    let half = GRID / 2;
    if along_z {
        StairShaft {
            x: (half - 1) as i32,
            z: if reversed { (half - SHAFT_LEN + 1) as i32 } else { half as i32 },
            along_z,
            reversed,
        }
    } else {
        StairShaft {
            x: if reversed { (half - SHAFT_LEN + 1) as i32 } else { half as i32 },
            z: (half - 1) as i32,
            along_z,
            reversed,
        }
    }
}

/// The floors from `depth` down: each entered by the previous floor's
/// down shaft, stopping after the last floor or at a floor with no way
/// further down.
pub open spec fn model_floors_from(seed: u64, tables: Seq<Vec<SpawnEntry>>, total: u8, depth: u8, up: StairShaft) -> Seq<
    (
        (u8, Seq<Room>, Seq<bool>, StairShaft, Option<StairShaft>, Option<(i32, i32)>),
        Seq<(i32, i32, Seq<char>, bool, bool)>,
    ),
>
    decreases total + 1 - depth,
{
    if depth > total || depth >= 255 {
        Seq::empty()
    } else {
        let l = model_generate_floor(seed, depth, total, up, table_at(tables, depth as int));
        match l.0.4 {
            Some(down) => seq![l] + model_floors_from(seed, tables, total, (depth + 1) as u8, down),
            None => seq![l],
        }
    }
}

/// The floor count of the dungeon of `seed`: the first draw of its stream.
pub open spec fn model_depth(seed: u64) -> u8 {
    sd_u8_inclusive(Stream { seed, pos: 0 }, MIN_DEPTH, MAX_DEPTH).0
}

/// The whole dungeon of `seed`: the floor count and the entrance shaft's
/// direction from the seed's stream, then the floors.
pub open spec fn model_dungeon(seed: u64, tables: Seq<Vec<SpawnEntry>>) -> Seq<
    (
        (u8, Seq<Room>, Seq<bool>, StairShaft, Option<StairShaft>, Option<(i32, i32)>),
        Seq<(i32, i32, Seq<char>, bool, bool)>,
    ),
> {
    let (total, m1) = sd_u8_inclusive(Stream { seed, pos: 0 }, MIN_DEPTH, MAX_DEPTH);
    let (az, m2) = sd_i32_below(m1, 0, 2);
    let (rv, m3) = sd_i32_below(m2, 0, 2);
    model_floors_from(seed, tables, total, 1, entrance_shaft(az == 1, rv == 1))
}


proof fn lemma_floors_len(seed: u64, tables: Seq<Vec<SpawnEntry>>, total: u8, depth: u8, up: StairShaft)
    requires
        1 <= depth,
    ensures
        model_floors_from(seed, tables, total, depth, up).len() <= total + 1 - depth || model_floors_from(
            seed,
            tables,
            total,
            depth,
            up,
        ).len() == 0,
    decreases total + 1 - depth,
{
    if depth <= total && depth < 255 {
        let l = model_generate_floor(seed, depth, total, up, table_at(tables, depth as int));
        if let Some(down) = l.0.4 {
            lemma_floors_len(seed, tables, total, (depth + 1) as u8, down);
        }
    }
}

/// A dungeon never has more floors than `dungeon_depth` gives for its seed
/// (it has fewer only when a floor found no room for a way further down).
pub proof fn lemma_dungeon_floor_count(seed: u64, tables: Seq<Vec<SpawnEntry>>)
    ensures
        model_dungeon(seed, tables).len() <= model_depth(seed),
{
    let (total, m1) = sd_u8_inclusive(Stream { seed, pos: 0 }, MIN_DEPTH, MAX_DEPTH);
    let (az, m2) = sd_i32_below(m1, 0, 2);
    let (rv, m3) = sd_i32_below(m2, 0, 2);
    lemma_floors_len(seed, tables, total, 1, entrance_shaft(az == 1, rv == 1));
}

} // verus!
