//! Interior room doors: deterministic placement of double doors at corridor
//! mouths in room walls. The client renderer, client collision and the
//! server's passability cache all derive the same door list from a layout,
//! so a rendered door is always the door that blocks, and a `door_id` in a
//! toggle packet resolves to the same opening everywhere.
use vstd::prelude::*;
use std::collections::HashSet;
use crate::dungeon::{FloorLayout, Room, GRID, CELLS, EDGE_N, EDGE_E, EDGE_S, EDGE_W, fits_i32, in_grid, cell_index};
use crate::dungeon_gen::in_any_shaft;
use crate::floor_cells::{
    edge_mask, lemma_edge_mask_bits, cells_match, lemma_cells_match_ext, or_edge, wall_n, wall_e,
    wall_s, wall_w, layout_arith_ok, floor_passability_cells, passability_cell,
};

verus! {

broadcast use vstd::std_specs::hash::group_hash_axioms;

/// Percent chance a qualifying corridor mouth gets a door.
pub const INTERIOR_DOOR_PCT: u32 = 30;

/// Wall side indices, matching the client's `WALL_N/E/S/W`.
pub const WALL_N: u8 = 0;
pub const WALL_E: u8 = 1;
pub const WALL_S: u8 = 2;
pub const WALL_W: u8 = 3;

/// One interior door: the opening `[lat0, lat0 + len)` along the wall line
/// `wall_line` of a room's wall `wall`.
#[derive(Debug, Clone, Copy, PartialEq, Eq, Structural)]
pub struct InteriorDoorSpec {
    /// Which of the room's walls holds the corridor mouth (0/1/2/3 = N/E/S/W).
    pub wall: u8,
    /// Opening start cell along the wall.
    pub lat0: i32,
    /// Opening width in cells.
    pub len: i32,
    /// Room↔corridor grid line.
    pub wall_line: i32,
    /// Stable id used by toggle packets and the open-door state maps:
    /// `wall * 0x10000 + lat0 * 0x100 + wall_line` (grid < 256, no overlap).
    pub door_id: u32,
}

pub open spec fn wall_spans_x(wall: u8) -> bool {
    wall == WALL_N || wall == WALL_S
}

impl InteriorDoorSpec {
    /// The blocking segment `(ax, az, bx, bz)` in floor-local cells.
    pub open spec fn spec_seg(self) -> Seq<i32> {
        if wall_spans_x(self.wall) {
            seq![self.lat0, self.wall_line, (self.lat0 + self.len) as i32, self.wall_line]
        } else {
            seq![self.wall_line, self.lat0, self.wall_line, (self.lat0 + self.len) as i32]
        }
    }

    /// North/south doors span X; east/west doors span Z.
    pub fn spans_x(&self) -> (r: bool)
        ensures
            r == wall_spans_x(self.wall),
    {
        self.wall == WALL_N || self.wall == WALL_S
    }

    /// Blocking segment as the floor-local `(ax, az, bx, bz)` quad consumed
    /// by `floor_passability_cells_full`.
    pub fn seg(&self) -> (r: [i32; 4])
        requires
            fits_i32(self.lat0 + self.len),
        ensures
            r@ == self.spec_seg(),
    {
        if self.spans_x() {
            [self.lat0, self.wall_line, self.lat0 + self.len, self.wall_line]
        } else {
            [self.wall_line, self.lat0, self.wall_line, self.lat0 + self.len]
        }
    }
}

/// One FNV-1a round on 32 bits: xor in the value's bits, multiply by the
/// prime modulo 2^32.
pub open spec fn fnv32_step(h: u32, v: i32) -> u32 {
    (h ^ (v as u32)).wrapping_mul(16777619u32)
}

/// The FNV-1a style hash of four small ints, reduced to `[0, 1000)`.
pub open spec fn spec_door_hash(a: i32, b: i32, c: i32, d: i32) -> u32 {
    (fnv32_step(fnv32_step(fnv32_step(fnv32_step(2166136261u32, a), b), c), d) % 1000) as u32
}

fn fnv32_round(h: u32, v: i32) -> (r: u32)
    ensures
        r == fnv32_step(h, v),
{
    (h ^ (v as u32)).wrapping_mul(16777619)
}

/// FNV-1a-style `[0, 1000)` hash of four small ints, bit-identical to the
/// client's `doorHash` (u32 xor + wrapping mul, as JS `Math.imul`).
/// Frozen: changing it moves every existing door and invalidates door ids.
pub fn door_hash(a: i32, b: i32, c: i32, d: i32) -> (r: u32)
    ensures
        r == spec_door_hash(a, b, c, d),
        r < 1000,
{
    let mut h: u32 = 2166136261;
    h = fnv32_round(h, a);
    h = fnv32_round(h, b);
    h = fnv32_round(h, c);
    h = fnv32_round(h, d);
    h % 1000
}

/// Cell `(x, z)` lies in one of the floor's rooms.
pub open spec fn in_some_room(l: FloorLayout, x: int, z: int) -> bool {
    exists|i: int| 0 <= i < l.rooms@.len() && #[trigger] l.rooms@[i].has_cell(x, z)
}

/// A corridor cell: walkable, outside every room and off the stairs.
pub open spec fn corridor_at(l: FloorLayout, x: int, z: int) -> bool {
    &&& l.carved_at(x, z)
    &&& !in_some_room(l, x, z)
    &&& !in_any_shaft(l, x, z)
}

/// Coordinates of a room leave room for the wall scan's arithmetic.
pub open spec fn room_arith_ok(r: Room) -> bool {
    &&& fits_i32(r.x - 1)
    &&& fits_i32(r.z - 1)
    &&& fits_i32(r.x + r.w - 1)
    &&& fits_i32(r.z + r.d - 1)
    &&& fits_i32(r.x + r.w)
    &&& fits_i32(r.z + r.d)
}

/// The layout's arithmetic preconditions for the door scan.
pub open spec fn doors_arith_ok(l: FloorLayout) -> bool {
    &&& l.carved_ok()
    &&& forall|i: int| 0 <= i < l.rooms@.len() ==> room_arith_ok(#[trigger] l.rooms@[i])
    &&& fits_i32(l.up_shaft.x + 8)
    &&& fits_i32(l.up_shaft.z + 8)
    &&& (l.down_shaft matches Some(d) ==> fits_i32(d.x + 8) && fits_i32(d.z + 8))
}

/// Whether `(x, z)` is a corridor cell of the floor.
pub fn cell_is_corridor(layout: &FloorLayout, x: i32, z: i32) -> (r: bool)
    requires
        doors_arith_ok(*layout),
    ensures
        r == corridor_at(*layout, x as int, z as int),
{
    if !layout.is_carved(x, z) {
        return false;
    }
    let mut i: usize = 0;
    while i < layout.rooms.len()
        invariant
            0 <= i <= layout.rooms@.len(),
            doors_arith_ok(*layout),
            forall|j: int| 0 <= j < i ==> !(#[trigger] layout.rooms@[j]).has_cell(x as int, z as int),
        decreases layout.rooms@.len() - i,
    {
        let room = &layout.rooms[i];
        proof {
            assert(room_arith_ok(layout.rooms@[i as int]));
        }
        if room.contains(x, z) {
            return false;
        }
        i = i + 1;
    }
    if layout.up_shaft.contains(x, z) {
        return false;
    }
    match &layout.down_shaft {
        Some(d) => !d.contains(x, z),
        None => true,
    }
}

/// First cell along the wall.
pub open spec fn lat_lo(r: Room, wall: u8) -> int {
    if wall_spans_x(wall) { r.x as int } else { r.z as int }
}

/// One past the last cell along the wall.
pub open spec fn lat_hi(r: Room, wall: u8) -> int {
    if wall_spans_x(wall) { r.x + r.w } else { r.z + r.d }
}

/// The wall faces toward lower coordinates (north or west).
pub open spec fn outer_low(wall: u8) -> bool {
    wall == WALL_N || wall == WALL_W
}

/// The room↔corridor grid line of the wall.
pub open spec fn wall_line(r: Room, wall: u8) -> int {
    if wall_spans_x(wall) {
        if outer_low(wall) { r.z as int } else { r.z + r.d }
    } else {
        if outer_low(wall) { r.x as int } else { r.x + r.w }
    }
}

/// The row (or column) of room cells hugging the wall.
pub open spec fn inner_line(r: Room, wall: u8) -> int {
    if outer_low(wall) { wall_line(r, wall) } else { wall_line(r, wall) - 1 }
}

/// The row (or column) just outside the wall.
pub open spec fn outer_line(r: Room, wall: u8) -> int {
    if outer_low(wall) { wall_line(r, wall) - 1 } else { wall_line(r, wall) }
}

/// Cell at position `lat` along a wall, on grid line `line`.
pub open spec fn wall_cell(wall: u8, lat: int, line: int) -> (int, int) {
    if wall_spans_x(wall) { (lat, line) } else { (line, lat) }
}

/// Position `lat` of the wall is a corridor mouth: the room cell hugging the
/// wall is walkable and its outward neighbour is a corridor cell.
pub open spec fn mouth_open(l: FloorLayout, r: Room, wall: u8, lat: int) -> bool {
    let inner = wall_cell(wall, lat, inner_line(r, wall));
    let outer = wall_cell(wall, lat, outer_line(r, wall));
    &&& lat < lat_hi(r, wall)
    &&& l.carved_at(inner.0, inner.1)
    &&& corridor_at(l, outer.0, outer.1)
}

/// End (exclusive) of the run of mouth cells starting at `i`.
pub open spec fn run_end(l: FloorLayout, r: Room, wall: u8, i: int) -> int
    decreases lat_hi(r, wall) - i,
{
    if mouth_open(l, r, wall, i) {
        run_end(l, r, wall, i + 1)
    } else {
        i
    }
}

pub proof fn lemma_run_end_ge(l: FloorLayout, r: Room, wall: u8, i: int)
    ensures
        run_end(l, r, wall, i) >= i,
        mouth_open(l, r, wall, i) ==> run_end(l, r, wall, i) > i,
        i <= lat_hi(r, wall) ==> run_end(l, r, wall, i) <= lat_hi(r, wall),
    decreases lat_hi(r, wall) - i,
{
    if mouth_open(l, r, wall, i) {
        lemma_run_end_ge(l, r, wall, i + 1);
    }
}

/// The door of a wall whose opening is `[lat0, lat0 + len)`.
pub open spec fn door_at(r: Room, wall: u8, lat0: int, len: int) -> InteriorDoorSpec {
    InteriorDoorSpec {
        wall,
        lat0: lat0 as i32,
        len: len as i32,
        wall_line: wall_line(r, wall) as i32,
        door_id: (wall * 0x10000 + lat0 * 0x100 + wall_line(r, wall)) as u32,
    }
}

/// A maximal run of mouth cells gets a door when the hash of the floor's
/// depth, the wall and the run's start and line falls under the door odds.
pub open spec fn run_has_door(l: FloorLayout, r: Room, wall: u8, lat0: int) -> bool {
    spec_door_hash(l.depth as i32, wall as i32, lat0 as i32, wall_line(r, wall) as i32) < INTERIOR_DOOR_PCT
        * 10
}

/// The doors of one wall from position `i` on: its maximal runs of corridor
/// mouths, in order along the wall, that the hash gives a door.
pub open spec fn wall_doors_from(l: FloorLayout, r: Room, wall: u8, i: int) -> Seq<InteriorDoorSpec>
    decreases lat_hi(r, wall) - i,
{
    if i >= lat_hi(r, wall) {
        Seq::empty()
    } else if !mouth_open(l, r, wall, i) {
        wall_doors_from(l, r, wall, i + 1)
    } else {
        proof {
            lemma_run_end_ge(l, r, wall, i);
        }
        let e = run_end(l, r, wall, i);
        let rest = wall_doors_from(l, r, wall, e);
        if run_has_door(l, r, wall, i) {
            seq![door_at(r, wall, i, e - i)] + rest
        } else {
            rest
        }
    }
}

pub open spec fn wall_doors(l: FloorLayout, r: Room, wall: u8) -> Seq<InteriorDoorSpec> {
    wall_doors_from(l, r, wall, lat_lo(r, wall))
}

/// The doors of a room, wall by wall in N, E, S, W order.
pub open spec fn room_doors(l: FloorLayout, r: Room) -> Seq<InteriorDoorSpec> {
    wall_doors(l, r, WALL_N) + wall_doors(l, r, WALL_E) + wall_doors(l, r, WALL_S) + wall_doors(
        l,
        r,
        WALL_W,
    )
}

/// The doors of the first `k` rooms, room by room.
pub open spec fn layout_doors(l: FloorLayout, k: int) -> Seq<InteriorDoorSpec>
    decreases k,
{
    if k <= 0 {
        Seq::empty()
    } else {
        layout_doors(l, k - 1) + room_doors(l, l.rooms@[k - 1])
    }
}

/// The door list of a floor.
pub open spec fn floor_doors(l: FloorLayout) -> Seq<InteriorDoorSpec> {
    layout_doors(l, l.rooms@.len() as int)
}

/// A door's opening lies on the grid.
pub open spec fn door_ok(d: InteriorDoorSpec) -> bool {
    &&& d.wall < 4
    &&& 0 <= d.lat0
    &&& 1 <= d.len
    &&& d.lat0 + d.len <= GRID
    &&& 0 <= d.wall_line <= GRID
}

proof fn lemma_run_end_at(l: FloorLayout, r: Room, wall: u8, s: int, e: int)
    requires
        s <= e,
        forall|j: int| s <= j < e ==> mouth_open(l, r, wall, j),
        !mouth_open(l, r, wall, e),
    ensures
        run_end(l, r, wall, s) == e,
    decreases e - s,
{
    if s < e {
        lemma_run_end_at(l, r, wall, s + 1, e);
    }
}

/// Append the doors of wall `wall` of `room` to `doors`.
fn scan_wall(layout: &FloorLayout, room: &Room, wall: u8, doors: &mut Vec<InteriorDoorSpec>)
    requires
        doors_arith_ok(*layout),
        room_arith_ok(*room),
        wall < 4,
        forall|k: int| 0 <= k < old(doors)@.len() ==> door_ok(#[trigger] old(doors)@[k]),
    ensures
        final(doors)@ == old(doors)@ + wall_doors(*layout, *room, wall),
        forall|k: int| 0 <= k < final(doors)@.len() ==> door_ok(#[trigger] final(doors)@[k]),
{
    let ghost l = *layout;
    let ghost r = *room;
    let ghost target = old(doors)@ + wall_doors(l, r, wall);
    let spans_x = wall == WALL_N || wall == WALL_S;
    let low = wall == WALL_N || wall == WALL_W;
    let lo: i32 = if spans_x { room.x } else { room.z };
    let hi: i32 = if spans_x { room.x + room.w } else { room.z + room.d };
    let line: i32 = if spans_x {
        if low { room.z } else { room.z + room.d }
    } else {
        if low { room.x } else { room.x + room.w }
    };
    let fixed: i32 = if low { line } else { line - 1 };
    let outer: i32 = if low { line - 1 } else { line };
    let mut start: i32 = -1;
    let mut lat: i64 = lo as i64;
    while lat <= hi as i64
        invariant
            l == *layout,
            r == *room,
            doors_arith_ok(l),
            room_arith_ok(r),
            wall < 4,
            spans_x == wall_spans_x(wall),
            lo == lat_lo(r, wall),
            hi == lat_hi(r, wall),
            line == wall_line(r, wall),
            fixed == inner_line(r, wall),
            outer == outer_line(r, wall),
            target == old(doors)@ + wall_doors(l, r, wall),
            lo <= lat,
            lat <= hi + 1 || lat == lo,
            start == -1 || (lo <= start < lat && 0 <= start && lat <= hi),
            start < 0 ==> doors@ + wall_doors_from(l, r, wall, lat as int) == target,
            start >= 0 ==> doors@ + wall_doors_from(l, r, wall, start as int) == target,
            start >= 0 ==> forall|j: int| start <= j < lat ==> mouth_open(l, r, wall, j),
            forall|k: int| 0 <= k < doors@.len() ==> door_ok(#[trigger] doors@[k]),
        decreases hi + 1 - lat,
    {
        let lt: i32 = lat as i32;
        let (cx, cz) = if spans_x { (lt, fixed) } else { (fixed, lt) };
        let (nx, nz) = if spans_x { (lt, outer) } else { (outer, lt) };
        let open = lt < hi && layout.is_carved(cx, cz) && cell_is_corridor(layout, nx, nz);
        proof {
            assert(open == mouth_open(l, r, wall, lt as int));
        }
        if open && start < 0 {
            proof {
                assert(in_grid(cx as int, cz as int));
            }
            start = lt;
        }
        if !open && start >= 0 {
            let lat0 = start;
            let len = lt - start;
            proof {
                lemma_run_end_at(l, r, wall, start as int, lt as int);
                assert(mouth_open(l, r, wall, start as int));
                assert(mouth_open(l, r, wall, lt - 1));
                let inner_last = wall_cell(wall, lt - 1, inner_line(r, wall));
                assert(in_grid(inner_last.0, inner_last.1));
                let inner_first = wall_cell(wall, start as int, inner_line(r, wall));
                assert(in_grid(inner_first.0, inner_first.1));
                assert(wall_doors_from(l, r, wall, lt as int) == wall_doors_from(
                    l,
                    r,
                    wall,
                    lt + 1,
                ));
            }
            if door_hash(layout.depth as i32, wall as i32, lat0, line) < INTERIOR_DOOR_PCT * 10 {
                let d = InteriorDoorSpec {
                    wall,
                    lat0,
                    len,
                    wall_line: line,
                    door_id: (wall as u32) * 0x10000 + (lat0 as u32) * 0x100 + line as u32,
                };
                proof {
                    assert(d == door_at(r, wall, start as int, lt - start));
                    assert(door_ok(d));
                }
                doors.push(d);
                proof {
                    assert(doors@ + wall_doors_from(l, r, wall, lat + 1) == target) by {
                        assert(doors@ + wall_doors_from(l, r, wall, lat + 1) =~= old(doors)@
                            + wall_doors(l, r, wall)) by {
                            assert(target == old(doors)@ + wall_doors(l, r, wall));
                        }
                    }
                }
            }
            start = -1;
        } else if !open {
            proof {
                assert(wall_doors_from(l, r, wall, lt as int) == wall_doors_from(
                    l,
                    r,
                    wall,
                    lt + 1,
                ));
            }
        }
        lat = lat + 1;
    }
    proof {
        assert(doors@ =~= doors@ + wall_doors_from(l, r, wall, lat as int));
    }
}

/// Scan each room's four walls for maximal runs whose outward neighbour is
/// a corridor cell (a corridor mouth) and give each a door with
/// `INTERIOR_DOOR_PCT`% chance, hashed from the opening's coordinates so the
/// list is stable per layout.
pub fn interior_doors(layout: &FloorLayout) -> (r: Vec<InteriorDoorSpec>)
    requires
        doors_arith_ok(*layout),
    ensures
        r@ == floor_doors(*layout),
        forall|k: int| 0 <= k < r@.len() ==> door_ok(#[trigger] r@[k]),
{
    let ghost l = *layout;
    let mut doors: Vec<InteriorDoorSpec> = Vec::new();
    let mut i: usize = 0;
    while i < layout.rooms.len()
        invariant
            l == *layout,
            doors_arith_ok(l),
            0 <= i <= l.rooms@.len(),
            doors@ == layout_doors(l, i as int),
            forall|k: int| 0 <= k < doors@.len() ==> door_ok(#[trigger] doors@[k]),
        decreases l.rooms@.len() - i,
    {
        let room = &layout.rooms[i];
        proof {
            assert(room_arith_ok(l.rooms@[i as int]));
        }
        scan_wall(layout, room, WALL_N, &mut doors);
        scan_wall(layout, room, WALL_E, &mut doors);
        scan_wall(layout, room, WALL_S, &mut doors);
        scan_wall(layout, room, WALL_W, &mut doors);
        proof {
            assert(doors@ =~= layout_doors(l, i + 1));
        }
        i = i + 1;
    }
    doors
}

/// The ids of the open doors, if any door state is known.
pub open spec fn open_ids(open: Option<&HashSet<u32>>) -> Option<Set<u32>> {
    match open {
        Some(s) => Some(s@),
        None => None,
    }
}

/// A door is shut unless the known door state lists it open (doors default
/// shut).
pub open spec fn door_shut(d: InteriorDoorSpec, open: Option<Set<u32>>) -> bool {
    !(open matches Some(s) && s.contains(d.door_id))
}

/// The segments of the shut doors among `doors`, in door order.
pub open spec fn shut_segs(doors: Seq<InteriorDoorSpec>, open: Option<Set<u32>>) -> Seq<i32>
    decreases doors.len(),
{
    if doors.len() == 0 {
        Seq::empty()
    } else {
        shut_segs(doors.drop_last(), open) + if door_shut(doors.last(), open) {
            doors.last().spec_seg()
        } else {
            Seq::empty()
        }
    }
}

/// Flat `(ax, az, bx, bz)` quads of every interior door on the floor that
/// `open` does not list — the input of `floor_passability_cells_full`.
/// Doors default shut, so `None` (no state yet) seals them all.
pub fn closed_door_segs(layout: &FloorLayout, open: Option<&HashSet<u32>>) -> (r: Vec<i32>)
    requires
        doors_arith_ok(*layout),
    ensures
        r@ == shut_segs(floor_doors(*layout), open_ids(open)),
{
    let doors = interior_doors(layout);
    let mut out: Vec<i32> = Vec::new();
    let mut i: usize = 0;
    while i < doors.len()
        invariant
            0 <= i <= doors@.len(),
            forall|k: int| 0 <= k < doors@.len() ==> door_ok(#[trigger] doors@[k]),
            out@ == shut_segs(doors@.subrange(0, i as int), open_ids(open)),
        decreases doors@.len() - i,
    {
        let d = doors[i];
        proof {
            assert(door_ok(doors@[i as int]));
            assert(doors@.subrange(0, i + 1).drop_last() =~= doors@.subrange(0, i as int));
        }
        let is_open = match open {
            Some(set) => set.contains(&d.door_id),
            None => false,
        };
        if !is_open {
            let q = d.seg();
            out.push(q[0]);
            out.push(q[1]);
            out.push(q[2]);
            out.push(q[3]);
            proof {
                assert(out@ =~= shut_segs(doors@.subrange(0, i as int), open_ids(open)) + q@);
            }
        } else {
            proof {
                assert(out@ =~= shut_segs(doors@.subrange(0, i as int), open_ids(open)) + Seq::<
                    i32,
                >::empty());
            }
        }
        i = i + 1;
    }
    proof {
        assert(doors@.subrange(0, doors@.len() as int) =~= doors@);
    }
    out
}

/// Number of whole `(ax, az, bx, bz)` quads in a segment list.
pub open spec fn quad_count(segs: Seq<i32>) -> int {
    segs.len() as int / 4
}

/// Quad `k` lies along X (a north/south door).
pub open spec fn quad_horiz(segs: Seq<i32>, k: int) -> bool {
    segs[4 * k + 1] == segs[4 * k + 3]
}

/// Wall bits a shut quad `k` puts on cell `(x, z)`: along X it walls the
/// north side of the cells on its line and the south side of the cells just
/// north of it; along Z the west side on its line and the east side of the
/// cells just west of it.
pub open spec fn quad_n(segs: Seq<i32>, k: int, x: int, z: int) -> bool {
    quad_horiz(segs, k) && z == segs[4 * k + 1] && segs[4 * k] <= x < segs[4 * k + 2]
}

pub open spec fn quad_s(segs: Seq<i32>, k: int, x: int, z: int) -> bool {
    quad_horiz(segs, k) && z == segs[4 * k + 1] - 1 && segs[4 * k] <= x < segs[4 * k + 2]
}

pub open spec fn quad_w(segs: Seq<i32>, k: int, x: int, z: int) -> bool {
    !quad_horiz(segs, k) && x == segs[4 * k] && segs[4 * k + 1] <= z < segs[4 * k + 3]
}

pub open spec fn quad_e(segs: Seq<i32>, k: int, x: int, z: int) -> bool {
    !quad_horiz(segs, k) && x == segs[4 * k] - 1 && segs[4 * k + 1] <= z < segs[4 * k + 3]
}

/// Some of the first `k` quads walls the given side of `(x, z)`.
pub open spec fn seg_n(segs: Seq<i32>, k: int, x: int, z: int) -> bool {
    exists|j: int| 0 <= j < k && #[trigger] quad_n(segs, j, x, z)
}

pub open spec fn seg_s(segs: Seq<i32>, k: int, x: int, z: int) -> bool {
    exists|j: int| 0 <= j < k && #[trigger] quad_s(segs, j, x, z)
}

pub open spec fn seg_e(segs: Seq<i32>, k: int, x: int, z: int) -> bool {
    exists|j: int| 0 <= j < k && #[trigger] quad_e(segs, j, x, z)
}

pub open spec fn seg_w(segs: Seq<i32>, k: int, x: int, z: int) -> bool {
    exists|j: int| 0 <= j < k && #[trigger] quad_w(segs, j, x, z)
}

/// The passability byte of `(x, z)` with the shut doors `segs` sealed.
pub open spec fn sealed_cell(l: FloorLayout, segs: Seq<i32>, x: int, z: int) -> u8 {
    let k = quad_count(segs);
    edge_mask(
        wall_n(l, x, z) || seg_n(segs, k, x, z),
        wall_e(l, x, z) || seg_e(segs, k, x, z),
        wall_s(l, x, z) || seg_s(segs, k, x, z),
        wall_w(l, x, z) || seg_w(segs, k, x, z),
    )
}

/// Seal one segment: along X from `(ax, az)` to `(bx, az)`, or along Z from
/// `(ax, az)` to `(ax, bz)`.
fn seal_quad(
    cells: &mut Vec<u8>,
    segs: &[i32],
    k: usize,
    Ghost(n): Ghost<spec_fn(int, int) -> bool>,
    Ghost(e): Ghost<spec_fn(int, int) -> bool>,
    Ghost(s): Ghost<spec_fn(int, int) -> bool>,
    Ghost(w): Ghost<spec_fn(int, int) -> bool>,
)
    requires
        cells_match(old(cells)@, n, e, s, w),
        0 <= k < quad_count(segs@),
        forall|i: int| 0 <= i < segs@.len() ==> fits_i32(#[trigger] segs@[i] - 1),
    ensures
        cells_match(
            final(cells)@,
            |a: int, b: int| n(a, b) || quad_n(segs@, k as int, a, b),
            |a: int, b: int| e(a, b) || quad_e(segs@, k as int, a, b),
            |a: int, b: int| s(a, b) || quad_s(segs@, k as int, a, b),
            |a: int, b: int| w(a, b) || quad_w(segs@, k as int, a, b),
        ),
{
    let ghost sg = segs@;
    let ghost kk = k as int;
    let seg_len = segs.len();
    proof {
        let len = seg_len as int;
        assert(4 * kk + 3 < len) by (nonlinear_arith)
            requires
                0 <= kk < len / 4,
                len >= 0,
        ;
    }
    let ax = segs[4 * k];
    let az = segs[4 * k + 1];
    let bx = segs[4 * k + 2];
    let bz = segs[4 * k + 3];
    proof {
        assert(fits_i32(sg[4 * kk] - 1));
        assert(fits_i32(sg[4 * kk + 1] - 1));
    }
    if az == bz {
        let mut x = ax;
        while x < bx
            invariant
                sg == segs@,
                quad_horiz(sg, kk),
                ax == sg[4 * kk],
                az == sg[4 * kk + 1],
                bx == sg[4 * kk + 2],
                fits_i32(az - 1),
                ax <= x || x == ax,
                ax <= x <= bx || (x == ax && bx < ax),
                cells_match(
                    cells@,
                    |a: int, b: int| n(a, b) || (quad_n(sg, kk, a, b) && a < x),
                    e,
                    |a: int, b: int| s(a, b) || (quad_s(sg, kk, a, b) && a < x),
                    w,
                ),
            decreases bx - x,
        {
            let ghost c0 = cells@;
            or_edge(cells, x, az, EDGE_N);
            or_edge(cells, x, az - 1, EDGE_S);
            assert forall|a: int, b: int| in_grid(a, b) implies #[trigger] cells@[cell_index(a, b)]
                == edge_mask(
                n(a, b) || (quad_n(sg, kk, a, b) && a < x + 1),
                e(a, b),
                s(a, b) || (quad_s(sg, kk, a, b) && a < x + 1),
                w(a, b),
            ) by {
                let nn = n(a, b) || (quad_n(sg, kk, a, b) && a < x);
                let ss = s(a, b) || (quad_s(sg, kk, a, b) && a < x);
                assert(c0[cell_index(a, b)] == edge_mask(nn, e(a, b), ss, w(a, b)));
                lemma_edge_mask_bits(nn, e(a, b), ss, w(a, b));
                lemma_edge_mask_bits(true, e(a, b), ss, w(a, b));
                lemma_edge_mask_bits(nn, e(a, b), true, w(a, b));
            }
            x = x + 1;
        }
        proof {
            lemma_cells_match_ext(
                cells@,
                |a: int, b: int| n(a, b) || (quad_n(sg, kk, a, b) && a < x),
                e,
                |a: int, b: int| s(a, b) || (quad_s(sg, kk, a, b) && a < x),
                w,
                |a: int, b: int| n(a, b) || quad_n(sg, kk, a, b),
                |a: int, b: int| e(a, b) || quad_e(sg, kk, a, b),
                |a: int, b: int| s(a, b) || quad_s(sg, kk, a, b),
                |a: int, b: int| w(a, b) || quad_w(sg, kk, a, b),
            );
        }
    } else {
        let mut z = az;
        while z < bz
            invariant
                sg == segs@,
                !quad_horiz(sg, kk),
                ax == sg[4 * kk],
                az == sg[4 * kk + 1],
                bz == sg[4 * kk + 3],
                fits_i32(ax - 1),
                az <= z <= bz || (z == az && bz < az),
                cells_match(
                    cells@,
                    n,
                    |a: int, b: int| e(a, b) || (quad_e(sg, kk, a, b) && b < z),
                    s,
                    |a: int, b: int| w(a, b) || (quad_w(sg, kk, a, b) && b < z),
                ),
            decreases bz - z,
        {
            let ghost c0 = cells@;
            or_edge(cells, ax, z, EDGE_W);
            or_edge(cells, ax - 1, z, EDGE_E);
            assert forall|a: int, b: int| in_grid(a, b) implies #[trigger] cells@[cell_index(a, b)]
                == edge_mask(
                n(a, b),
                e(a, b) || (quad_e(sg, kk, a, b) && b < z + 1),
                s(a, b),
                w(a, b) || (quad_w(sg, kk, a, b) && b < z + 1),
            ) by {
                let ee = e(a, b) || (quad_e(sg, kk, a, b) && b < z);
                let ww = w(a, b) || (quad_w(sg, kk, a, b) && b < z);
                assert(c0[cell_index(a, b)] == edge_mask(n(a, b), ee, s(a, b), ww));
                lemma_edge_mask_bits(n(a, b), ee, s(a, b), ww);
                lemma_edge_mask_bits(n(a, b), ee, s(a, b), true);
                lemma_edge_mask_bits(n(a, b), true, s(a, b), ww);
            }
            z = z + 1;
        }
        proof {
            lemma_cells_match_ext(
                cells@,
                n,
                |a: int, b: int| e(a, b) || (quad_e(sg, kk, a, b) && b < z),
                s,
                |a: int, b: int| w(a, b) || (quad_w(sg, kk, a, b) && b < z),
                |a: int, b: int| n(a, b) || quad_n(sg, kk, a, b),
                |a: int, b: int| e(a, b) || quad_e(sg, kk, a, b),
                |a: int, b: int| s(a, b) || quad_s(sg, kk, a, b),
                |a: int, b: int| w(a, b) || quad_w(sg, kk, a, b),
            );
        }
    }
}

/// Edge-bitmask cells for one floor with the shut doors `closed_door_segs`
/// sealed: the floor's own walls plus, for every whole `(ax, az, bx, bz)`
/// quad, both cells straddling the segment walled toward it.
pub fn floor_passability_cells_full(layout: &FloorLayout, closed_door_segs: &[i32]) -> (cells: Vec<
    u8,
>)
    requires
        layout.carved_ok(),
        layout_arith_ok(*layout),
        forall|i: int|
            0 <= i < closed_door_segs@.len() ==> fits_i32(#[trigger] closed_door_segs@[i] - 1),
    ensures
        cells@.len() == CELLS,
        forall|x: int, z: int|
            in_grid(x, z) ==> #[trigger] cells@[cell_index(x, z)] == sealed_cell(
                *layout,
                closed_door_segs@,
                x,
                z,
            ),
{
    let ghost l = *layout;
    let ghost sg = closed_door_segs@;
    let mut cells = floor_passability_cells(layout);
    let quads = closed_door_segs.len() / 4;
    let mut k: usize = 0;
    while k < quads
        invariant
            l == *layout,
            sg == closed_door_segs@,
            quads == quad_count(sg),
            0 <= k <= quads,
            forall|i: int| 0 <= i < sg.len() ==> fits_i32(#[trigger] sg[i] - 1),
            cells_match(
                cells@,
                |a: int, b: int| wall_n(l, a, b) || seg_n(sg, k as int, a, b),
                |a: int, b: int| wall_e(l, a, b) || seg_e(sg, k as int, a, b),
                |a: int, b: int| wall_s(l, a, b) || seg_s(sg, k as int, a, b),
                |a: int, b: int| wall_w(l, a, b) || seg_w(sg, k as int, a, b),
            ),
        decreases quads - k,
    {
        let ghost kk = k as int;
        seal_quad(
            &mut cells,
            closed_door_segs,
            k,
            Ghost(|a: int, b: int| wall_n(l, a, b) || seg_n(sg, kk, a, b)),
            Ghost(|a: int, b: int| wall_e(l, a, b) || seg_e(sg, kk, a, b)),
            Ghost(|a: int, b: int| wall_s(l, a, b) || seg_s(sg, kk, a, b)),
            Ghost(|a: int, b: int| wall_w(l, a, b) || seg_w(sg, kk, a, b)),
        );
        proof {
            assert forall|a: int, b: int| in_grid(a, b) implies (seg_n(sg, kk, a, b) || quad_n(
                sg,
                kk,
                a,
                b,
            )) == seg_n(sg, kk + 1, a, b) && (seg_e(sg, kk, a, b) || quad_e(sg, kk, a, b))
                == seg_e(sg, kk + 1, a, b) && (seg_s(sg, kk, a, b) || quad_s(sg, kk, a, b))
                == seg_s(sg, kk + 1, a, b) && (seg_w(sg, kk, a, b) || quad_w(sg, kk, a, b))
                == seg_w(sg, kk + 1, a, b) by {
                if seg_n(sg, kk + 1, a, b) {
                    let j = choose|j: int| 0 <= j < kk + 1 && #[trigger] quad_n(sg, j, a, b);
                    if j < kk {
                        assert(seg_n(sg, kk, a, b));
                    }
                }
                if seg_e(sg, kk + 1, a, b) {
                    let j = choose|j: int| 0 <= j < kk + 1 && #[trigger] quad_e(sg, j, a, b);
                    if j < kk {
                        assert(seg_e(sg, kk, a, b));
                    }
                }
                if seg_s(sg, kk + 1, a, b) {
                    let j = choose|j: int| 0 <= j < kk + 1 && #[trigger] quad_s(sg, j, a, b);
                    if j < kk {
                        assert(seg_s(sg, kk, a, b));
                    }
                }
                if seg_w(sg, kk + 1, a, b) {
                    let j = choose|j: int| 0 <= j < kk + 1 && #[trigger] quad_w(sg, j, a, b);
                    if j < kk {
                        assert(seg_w(sg, kk, a, b));
                    }
                }
            }
            lemma_cells_match_ext(
                cells@,
                |a: int, b: int| (wall_n(l, a, b) || seg_n(sg, kk, a, b)) || quad_n(sg, kk, a, b),
                |a: int, b: int| (wall_e(l, a, b) || seg_e(sg, kk, a, b)) || quad_e(sg, kk, a, b),
                |a: int, b: int| (wall_s(l, a, b) || seg_s(sg, kk, a, b)) || quad_s(sg, kk, a, b),
                |a: int, b: int| (wall_w(l, a, b) || seg_w(sg, kk, a, b)) || quad_w(sg, kk, a, b),
                |a: int, b: int| wall_n(l, a, b) || seg_n(sg, kk + 1, a, b),
                |a: int, b: int| wall_e(l, a, b) || seg_e(sg, kk + 1, a, b),
                |a: int, b: int| wall_s(l, a, b) || seg_s(sg, kk + 1, a, b),
                |a: int, b: int| wall_w(l, a, b) || seg_w(sg, kk + 1, a, b),
            );
        }
        k = k + 1;
    }
    cells
}

proof fn lemma_run_cells_open(l: FloorLayout, r: Room, wall: u8, i: int)
    ensures
        forall|j: int| i <= j < run_end(l, r, wall, i) ==> mouth_open(l, r, wall, j),
    decreases lat_hi(r, wall) - i,
{
    if mouth_open(l, r, wall, i) {
        lemma_run_cells_open(l, r, wall, i + 1);
    }
}

/// The doors a wall scan yields from `i` on lie on that wall, start at or
/// after `i`, and cover only corridor-mouth cells.
proof fn lemma_wall_doors_open(l: FloorLayout, r: Room, wall: u8, i: int)
    requires
        wall < 4,
    ensures
        forall|k: int|
            0 <= k < wall_doors_from(l, r, wall, i).len() ==> {
                let d = #[trigger] wall_doors_from(l, r, wall, i)[k];
                &&& d.wall == wall
                &&& d.wall_line == wall_line(r, wall) as i32
                &&& i <= d.lat0
                &&& 1 <= d.len
                &&& door_ok(d)
                &&& forall|j: int| d.lat0 <= j < d.lat0 + d.len ==> mouth_open(l, r, wall, j)
            },
    decreases lat_hi(r, wall) - i,
{
    if i >= lat_hi(r, wall) {
    } else if !mouth_open(l, r, wall, i) {
        lemma_wall_doors_open(l, r, wall, i + 1);
        assert(wall_doors_from(l, r, wall, i) == wall_doors_from(l, r, wall, i + 1));
    } else {
        lemma_run_end_ge(l, r, wall, i);
        let e = run_end(l, r, wall, i);
        lemma_wall_doors_open(l, r, wall, e);
        lemma_run_cells_open(l, r, wall, i);
        assert(mouth_open(l, r, wall, e - 1));
        let first = wall_cell(wall, i, inner_line(r, wall));
        let last = wall_cell(wall, e - 1, inner_line(r, wall));
        assert(in_grid(first.0, first.1));
        assert(in_grid(last.0, last.1));
        let rest = wall_doors_from(l, r, wall, e);
        let d0 = door_at(r, wall, i, e - i);
        if run_has_door(l, r, wall, i) {
            let all = seq![d0] + rest;
            assert(wall_doors_from(l, r, wall, i) == all);
            assert forall|k: int| 0 < k < all.len() implies #[trigger] all[k] == rest[k - 1] by {}
            assert(all[0] == d0);
            assert(d0.wall_line == wall_line(r, wall) as i32);
        } else {
            assert(wall_doors_from(l, r, wall, i) == rest);
        }
    }
}

/// The two cells straddling the wall line at position `j` of a door:
/// `(high_cell, low_cell)`, the low cell on the lower-coordinate side.
pub open spec fn straddle_cells(d: InteriorDoorSpec, j: int) -> ((int, int), (int, int)) {
    if wall_spans_x(d.wall) {
        ((j, d.wall_line as int), (j, d.wall_line - 1))
    } else {
        ((d.wall_line as int, j), (d.wall_line - 1, j))
    }
}

/// Every cell pair across the door's opening is a room cell on one side and
/// a corridor cell on the other.
pub open spec fn door_on_mouth(l: FloorLayout, d: InteriorDoorSpec) -> bool {
    forall|j: int|
        d.lat0 <= j < d.lat0 + d.len ==> {
            let c = #[trigger] straddle_cells(d, j);
            (in_some_room(l, c.0.0, c.0.1) && corridor_at(l, c.1.0, c.1.1)) || (in_some_room(
                l,
                c.1.0,
                c.1.1,
            ) && corridor_at(l, c.0.0, c.0.1))
        }
}

/// Every room of the floor has at least one cell.
pub open spec fn rooms_nonempty(l: FloorLayout) -> bool {
    forall|i: int| 0 <= i < l.rooms@.len() ==> (#[trigger] l.rooms@[i]).w >= 1 && l.rooms@[i].d >= 1
}

/// What holds of every door of a floor: its opening lies on the grid, and,
/// when every room has a cell, it sits on a corridor mouth.
pub open spec fn door_facts(l: FloorLayout, d: InteriorDoorSpec) -> bool {
    &&& door_ok(d)
    &&& rooms_nonempty(l) ==> door_on_mouth(l, d)
}

proof fn lemma_wall_door_facts(l: FloorLayout, ri: int, wall: u8)
    requires
        0 <= ri < l.rooms@.len(),
        wall < 4,
    ensures
        forall|k: int|
            0 <= k < wall_doors(l, l.rooms@[ri], wall).len() ==> door_facts(
                l,
                #[trigger] wall_doors(l, l.rooms@[ri], wall)[k],
            ),
{
    let r = l.rooms@[ri];
    lemma_wall_doors_open(l, r, wall, lat_lo(r, wall));
    assert forall|k: int| 0 <= k < wall_doors(l, r, wall).len() implies door_facts(
        l,
        #[trigger] wall_doors(l, r, wall)[k],
    ) by {
        let d = wall_doors(l, r, wall)[k];
        if rooms_nonempty(l) {
            assert(r.w >= 1 && r.d >= 1);
            assert forall|j: int| d.lat0 <= j < d.lat0 + d.len implies {
                let c = #[trigger] straddle_cells(d, j);
                (in_some_room(l, c.0.0, c.0.1) && corridor_at(l, c.1.0, c.1.1)) || (in_some_room(
                    l,
                    c.1.0,
                    c.1.1,
                ) && corridor_at(l, c.0.0, c.0.1))
            } by {
                assert(mouth_open(l, r, wall, j));
                let inner = wall_cell(wall, j, inner_line(r, wall));
                assert(in_grid(inner.0, inner.1));
                assert(r.has_cell(inner.0, inner.1));
                assert(l.rooms@[ri].has_cell(inner.0, inner.1));
                assert(in_some_room(l, inner.0, inner.1));
            }
        }
    }
}

proof fn lemma_room_door_facts(l: FloorLayout, ri: int)
    requires
        0 <= ri < l.rooms@.len(),
    ensures
        forall|k: int|
            0 <= k < room_doors(l, l.rooms@[ri]).len() ==> door_facts(
                l,
                #[trigger] room_doors(l, l.rooms@[ri])[k],
            ),
{
    let r = l.rooms@[ri];
    lemma_wall_door_facts(l, ri, WALL_N);
    lemma_wall_door_facts(l, ri, WALL_E);
    lemma_wall_door_facts(l, ri, WALL_S);
    lemma_wall_door_facts(l, ri, WALL_W);
    let n = wall_doors(l, r, WALL_N);
    let e = wall_doors(l, r, WALL_E);
    let s = wall_doors(l, r, WALL_S);
    let w = wall_doors(l, r, WALL_W);
    assert forall|k: int| 0 <= k < room_doors(l, r).len() implies door_facts(
        l,
        #[trigger] room_doors(l, r)[k],
    ) by {
        if k < n.len() {
            assert(room_doors(l, r)[k] == n[k]);
        } else if k < n.len() + e.len() {
            assert(room_doors(l, r)[k] == e[k - n.len()]);
        } else if k < n.len() + e.len() + s.len() {
            assert(room_doors(l, r)[k] == s[k - n.len() - e.len()]);
        } else {
            assert(room_doors(l, r)[k] == w[k - n.len() - e.len() - s.len()]);
        }
    }
}

proof fn lemma_layout_door_facts(l: FloorLayout, n: int)
    requires
        0 <= n <= l.rooms@.len(),
    ensures
        forall|k: int|
            0 <= k < layout_doors(l, n).len() ==> door_facts(l, #[trigger] layout_doors(l, n)[k]),
    decreases n,
{
    if n > 0 {
        lemma_layout_door_facts(l, n - 1);
        lemma_room_door_facts(l, n - 1);
        let a = layout_doors(l, n - 1);
        let b = room_doors(l, l.rooms@[n - 1]);
        assert forall|k: int| 0 <= k < layout_doors(l, n).len() implies door_facts(
            l,
            #[trigger] layout_doors(l, n)[k],
        ) by {
            if k < a.len() {
                assert(layout_doors(l, n)[k] == a[k]);
            } else {
                assert(layout_doors(l, n)[k] == b[k - a.len()]);
            }
        }
    }
}

/// Every interior door sits on a genuine corridor mouth: across each cell
/// of its opening, a room cell on one side and a corridor cell on the other.
pub proof fn lemma_doors_on_mouths(l: FloorLayout)
    requires
        rooms_nonempty(l),
    ensures
        forall|k: int|
            0 <= k < floor_doors(l).len() ==> door_on_mouth(l, #[trigger] floor_doors(l)[k]),
{
    lemma_layout_door_facts(l, l.rooms@.len() as int);
    assert forall|k: int| 0 <= k < floor_doors(l).len() implies door_on_mouth(
        l,
        #[trigger] floor_doors(l)[k],
    ) by {
        assert(door_facts(l, floor_doors(l)[k]));
    }
}

/// Number of shut doors among `doors`.
pub open spec fn shut_count(doors: Seq<InteriorDoorSpec>, open: Option<Set<u32>>) -> int
    decreases doors.len(),
{
    if doors.len() == 0 {
        0
    } else {
        shut_count(doors.drop_last(), open) + if door_shut(doors.last(), open) { 1int } else { 0 }
    }
}

proof fn lemma_shut_segs_len(doors: Seq<InteriorDoorSpec>, open: Option<Set<u32>>)
    ensures
        shut_segs(doors, open).len() == 4 * shut_count(doors, open),
        shut_count(doors, open) >= 0,
    decreases doors.len(),
{
    if doors.len() > 0 {
        lemma_shut_segs_len(doors.drop_last(), open);
    }
}

/// A shut door's segment is one of the quads of `shut_segs`.
proof fn lemma_shut_segs_has(doors: Seq<InteriorDoorSpec>, open: Option<Set<u32>>, m: int) -> (q: int)
    requires
        0 <= m < doors.len(),
        door_shut(doors[m], open),
    ensures
        0 <= q < quad_count(shut_segs(doors, open)),
        forall|t: int| 0 <= t < 4 ==> #[trigger] shut_segs(doors, open)[4 * q + t] == doors[m].spec_seg()[t],
    decreases doors.len(),
{
    let prefix = shut_segs(doors.drop_last(), open);
    lemma_shut_segs_len(doors.drop_last(), open);
    lemma_shut_segs_len(doors, open);
    let segs = shut_segs(doors, open);
    if m < doors.len() - 1 {
        let q = lemma_shut_segs_has(doors.drop_last(), open, m);
        assert(doors.drop_last()[m] == doors[m]);
        assert forall|t: int| 0 <= t < 4 implies #[trigger] segs[4 * q + t] == doors[m].spec_seg()[t] by {
            assert(segs[4 * q + t] == prefix[4 * q + t]);
        }
        q
    } else {
        let q = shut_count(doors.drop_last(), open);
        assert(segs == prefix + doors.last().spec_seg());
        assert forall|t: int| 0 <= t < 4 implies #[trigger] segs[4 * q + t] == doors[m].spec_seg()[t] by {
            assert(segs[4 * q + t] == doors.last().spec_seg()[t]);
        }
        q
    }
}

/// Side of the high cell a shut door walls (north or west).
pub open spec fn high_bit(d: InteriorDoorSpec) -> u8 {
    if wall_spans_x(d.wall) { EDGE_N } else { EDGE_W }
}

/// Side of the low cell a shut door walls (south or east).
pub open spec fn low_bit(d: InteriorDoorSpec) -> u8 {
    if wall_spans_x(d.wall) { EDGE_S } else { EDGE_E }
}

/// While shut, a door blocks every crossing of its opening: in the sealed
/// grid both cells straddling the wall line are walled toward each other.
pub proof fn lemma_shut_door_sealed(l: FloorLayout, open: Option<Set<u32>>, m: int, j: int)
    requires
        0 <= m < floor_doors(l).len(),
        door_shut(floor_doors(l)[m], open),
        floor_doors(l)[m].lat0 <= j < floor_doors(l)[m].lat0 + floor_doors(l)[m].len,
    ensures
        ({
            let d = floor_doors(l)[m];
            let segs = shut_segs(floor_doors(l), open);
            let c = straddle_cells(d, j);
            &&& in_grid(c.0.0, c.0.1) ==> sealed_cell(l, segs, c.0.0, c.0.1) & high_bit(d) != 0
            &&& in_grid(c.1.0, c.1.1) ==> sealed_cell(l, segs, c.1.0, c.1.1) & low_bit(d) != 0
        }),
{
    let doors = floor_doors(l);
    let d = doors[m];
    let segs = shut_segs(doors, open);
    lemma_layout_door_facts(l, l.rooms@.len() as int);
    assert(door_facts(l, d));
    let q = lemma_shut_segs_has(doors, open, m);
    assert(segs[4 * q + 0] == d.spec_seg()[0]);
    assert(segs[4 * q + 1] == d.spec_seg()[1]);
    assert(segs[4 * q + 2] == d.spec_seg()[2]);
    assert(segs[4 * q + 3] == d.spec_seg()[3]);
    let k = quad_count(segs);
    let c = straddle_cells(d, j);
    let (hx, hz) = c.0;
    let (lx, lz) = c.1;
    if wall_spans_x(d.wall) {
        assert(quad_n(segs, q, hx, hz));
        assert(quad_s(segs, q, lx, lz));
        assert(seg_n(segs, k, hx, hz));
        assert(seg_s(segs, k, lx, lz));
    } else {
        assert(quad_w(segs, q, hx, hz));
        assert(quad_e(segs, q, lx, lz));
        assert(seg_w(segs, k, hx, hz));
        assert(seg_e(segs, k, lx, lz));
    }
    lemma_edge_mask_bits(
        wall_n(l, hx, hz) || seg_n(segs, k, hx, hz),
        wall_e(l, hx, hz) || seg_e(segs, k, hx, hz),
        wall_s(l, hx, hz) || seg_s(segs, k, hx, hz),
        wall_w(l, hx, hz) || seg_w(segs, k, hx, hz),
    );
    lemma_edge_mask_bits(
        wall_n(l, lx, lz) || seg_n(segs, k, lx, lz),
        wall_e(l, lx, lz) || seg_e(segs, k, lx, lz),
        wall_s(l, lx, lz) || seg_s(segs, k, lx, lz),
        wall_w(l, lx, lz) || seg_w(segs, k, lx, lz),
    );
}

proof fn lemma_all_open_no_segs(doors: Seq<InteriorDoorSpec>, open: Set<u32>)
    requires
        forall|k: int| 0 <= k < doors.len() ==> open.contains(#[trigger] doors[k].door_id),
    ensures
        shut_segs(doors, Some(open)) == Seq::<i32>::empty(),
    decreases doors.len(),
{
    if doors.len() > 0 {
        assert forall|k: int| 0 <= k < doors.drop_last().len() implies open.contains(
            #[trigger] doors.drop_last()[k].door_id,
        ) by {
            assert(doors.drop_last()[k] == doors[k]);
        }
        lemma_all_open_no_segs(doors.drop_last(), open);
        assert(open.contains(doors[doors.len() - 1].door_id));
        assert(shut_segs(doors, Some(open)) =~= Seq::<i32>::empty());
    }
}

/// Opening every door of a floor gives back the floor's base grid: no door
/// segment is left, and every sealed cell equals its passability cell.
pub proof fn lemma_all_open_is_base(l: FloorLayout, open: Set<u32>)
    requires
        forall|k: int| 0 <= k < floor_doors(l).len() ==> open.contains(#[trigger] floor_doors(l)[k].door_id),
    ensures
        shut_segs(floor_doors(l), Some(open)).len() == 0,
        forall|x: int, z: int|
            #[trigger] sealed_cell(l, shut_segs(floor_doors(l), Some(open)), x, z) == passability_cell(
                l,
                x,
                z,
            ),
{
    lemma_all_open_no_segs(floor_doors(l), open);
}

/// What every door of a floor satisfies (see `door_facts`).
pub proof fn lemma_floor_door_facts(l: FloorLayout)
    ensures
        forall|k: int| 0 <= k < floor_doors(l).len() ==> door_facts(l, #[trigger] floor_doors(l)[k]),
{
    lemma_layout_door_facts(l, l.rooms@.len() as int);
}

} // verus!
