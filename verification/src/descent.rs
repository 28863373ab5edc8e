//! The way down a floor: from the arrival landing, the down shaft's entry
//! landing (or, on the last floor, the chest) can be walked to. Randomized
//! floors are checked by the flood fill; the fallback floor, one big room
//! wrapping the up shaft, is walkable by construction, which this module
//! proves by laying out the walks around the two shafts.
use vstd::prelude::*;
use crate::dungeon::{FloorLayout, Room, StairShaft, GRID, SHAFT_LEN, SHAFT_W, in_grid};
use crate::connectivity::{step_ok, is_walk, reachable, floor_connected, lemma_extend_walk};
use crate::floor_cells::{wall_n, wall_s};
use crate::dungeon_gen::{grown_room, shaft_inside, carve_spec, ground_cell, in_some_room_cell, on_corridor_upto};
use crate::gen_model::{scan_row, scan_rows, fallback_room, first_off_shafts};

verus! {

/// From the arrival landing, the down shaft's entry landing and the chest,
/// where the floor has them, can be walked to.
pub open spec fn floor_descendable(l: FloorLayout) -> bool {
    let s = l.up_shaft.spec_exit_cell();
    &&& (l.down_shaft matches Some(d) ==> reachable(l, s, d.spec_entry_cell()))
    &&& (l.chest matches Some(c) ==> reachable(l, s, (c.0 as int, c.1 as int)))
}

/// A connected floor can be descended.
pub proof fn lemma_connected_descendable(l: FloorLayout)
    requires
        floor_connected(l),
    ensures
        floor_descendable(l),
{
}

proof fn lemma_reach_refl(l: FloorLayout, a: (int, int))
    ensures
        reachable(l, a, a),
{
    let p = seq![a];
    assert(is_walk(l, p));
    assert(p.last() == a);
}

proof fn lemma_reach_step(l: FloorLayout, a: (int, int), b: (int, int), c: (int, int))
    requires
        reachable(l, a, b),
        step_ok(l, b, c),
    ensures
        reachable(l, a, c),
{
    let p = choose|p: Seq<(int, int)>| is_walk(l, p) && p[0] == a && #[trigger] p.last() == b;
    lemma_extend_walk(l, p, c);
    assert(p.push(c).last() == c);
}

proof fn lemma_reach_trans(l: FloorLayout, a: (int, int), b: (int, int), c: (int, int))
    requires
        reachable(l, a, b),
        reachable(l, b, c),
    ensures
        reachable(l, a, c),
{
    let p = choose|p: Seq<(int, int)>| is_walk(l, p) && p[0] == a && #[trigger] p.last() == b;
    let q = choose|q: Seq<(int, int)>| is_walk(l, q) && q[0] == b && #[trigger] q.last() == c;
    let r = p + q.drop_first();
    assert forall|i: int| 0 <= i < r.len() - 1 implies step_ok(l, #[trigger] r[i], r[i + 1]) by {
        if i < p.len() - 1 {
            assert(r[i] == p[i] && r[i + 1] == p[i + 1]);
        } else if i == p.len() - 1 {
            assert(r[i] == q[0] && r[i + 1] == q[1]);
        } else {
            assert(r[i] == q[i - p.len() + 1] && r[i + 1] == q[i - p.len() + 2]);
        }
    }
    if q.len() == 1 {
        assert(r.last() == p.last());
    } else {
        assert(r.last() == q.last());
    }
    assert(is_walk(l, r) && r[0] == a);
}

/// The shape of a fallback floor: its walkable cells are exactly those of
/// one room on the grid that holds the up shaft; a down shaft, if any,
/// runs along +Z from its shallow end, one cell inside the room, with the
/// grown footprints of the two shafts apart.
pub open spec fn fallback_shape(l: FloorLayout, room: Room) -> bool {
    let u = l.up_shaft.spec_rect();
    &&& forall|x: int, z: int| #[trigger] l.carved_at(x, z) == room.has_cell(x, z)
    &&& 0 <= room.x && room.x + room.w <= GRID && 0 <= room.z && room.z + room.d <= GRID
    &&& room.x <= u.x && u.x + u.w <= room.x + room.w
    &&& room.z <= u.z && u.z + u.d <= room.z + room.d
    &&& (l.down_shaft matches Some(d) ==> {
        &&& d.along_z
        &&& !d.reversed
        &&& shaft_inside(room, d)
        &&& !grown_room(d.spec_rect()).overlaps(grown_room(u))
    })
}

/// A cell of the room outside both shaft footprints.
pub open spec fn open_cell(l: FloorLayout, room: Room, x: int, z: int) -> bool {
    &&& room.has_cell(x, z)
    &&& !l.up_shaft.has_cell(x, z)
    &&& !(l.down_shaft matches Some(d) && d.has_cell(x, z))
}

/// Cell `(x, z)` lies in the footprint of `sh` grown by one cell.
pub open spec fn near(sh: StairShaft, x: int, z: int) -> bool {
    grown_room(sh.spec_rect()).has_cell(x, z)
}

/// Stair rails only ever separate a shaft cell from a cell beside it, so
/// between two open cells there is never a wall.
proof fn lemma_open_step(l: FloorLayout, room: Room, a: (int, int), b: (int, int))
    requires
        fallback_shape(l, room),
        open_cell(l, room, a.0, a.1),
        open_cell(l, room, b.0, b.1),
        (a.0 == b.0 && (a.1 == b.1 + 1 || b.1 == a.1 + 1)) || (a.1 == b.1 && (a.0 == b.0 + 1 || b.0 == a.0 + 1)),
    ensures
        step_ok(l, a, b),
{
    assert(l.carved_at(a.0, a.1) && l.carved_at(b.0, b.1));
}

/// Walking along row `z` from `xa` to `xb` over open cells.
proof fn lemma_row_walk(l: FloorLayout, room: Room, z: int, xa: int, xb: int)
    requires
        fallback_shape(l, room),
        forall|x: int| (xa <= x <= xb || xb <= x <= xa) ==> #[trigger] open_cell(l, room, x, z),
    ensures
        reachable(l, (xa, z), (xb, z)),
    decreases if xa <= xb { xb - xa } else { xa - xb },
{
    if xa == xb {
        lemma_reach_refl(l, (xa, z));
    } else {
        let prev = if xa < xb { xb - 1 } else { xb + 1 };
        lemma_row_walk(l, room, z, xa, prev);
        assert(open_cell(l, room, prev, z) && open_cell(l, room, xb, z));
        lemma_open_step(l, room, (prev, z), (xb, z));
        lemma_reach_step(l, (xa, z), (prev, z), (xb, z));
    }
}

/// Walking along column `x` from `za` to `zb` over open cells.
proof fn lemma_col_walk(l: FloorLayout, room: Room, x: int, za: int, zb: int)
    requires
        fallback_shape(l, room),
        forall|z: int| (za <= z <= zb || zb <= z <= za) ==> #[trigger] open_cell(l, room, x, z),
    ensures
        reachable(l, (x, za), (x, zb)),
    decreases if za <= zb { zb - za } else { za - zb },
{
    if za == zb {
        lemma_reach_refl(l, (x, za));
    } else {
        let prev = if za < zb { zb - 1 } else { zb + 1 };
        lemma_col_walk(l, room, x, za, prev);
        assert(open_cell(l, room, x, prev) && open_cell(l, room, x, zb));
        lemma_open_step(l, room, (x, prev), (x, zb));
        lemma_reach_step(l, (x, za), (x, prev), (x, zb));
    }
}

/// A cell joins the hub where a fully open column `ec` meets a fully open
/// row `er`, if the straight run from it to that column, or the one to
/// that row, is open.
proof fn lemma_hub(l: FloorLayout, room: Room, kx: int, kz: int, ec: int, er: int)
    requires
        fallback_shape(l, room),
        open_cell(l, room, kx, kz),
        forall|z: int| room.z <= z < room.z + room.d ==> #[trigger] open_cell(l, room, ec, z),
        forall|x: int| room.x <= x < room.x + room.w ==> #[trigger] open_cell(l, room, x, er),
        room.x <= ec < room.x + room.w,
        room.z <= er < room.z + room.d,
        (forall|x: int| (kx <= x <= ec || ec <= x <= kx) ==> #[trigger] open_cell(l, room, x, kz)) || (
        forall|z: int| (kz <= z <= er || er <= z <= kz) ==> #[trigger] open_cell(l, room, kx, z)),
    ensures
        reachable(l, (kx, kz), (ec, er)),
        reachable(l, (ec, er), (kx, kz)),
{
    if forall|x: int| (kx <= x <= ec || ec <= x <= kx) ==> #[trigger] open_cell(l, room, x, kz) {
        lemma_row_walk(l, room, kz, kx, ec);
        lemma_row_walk(l, room, kz, ec, kx);
        assert forall|z: int| (kz <= z <= er || er <= z <= kz) implies #[trigger] open_cell(l, room, ec, z) by {
            assert(room.z <= z < room.z + room.d);
        }
        lemma_col_walk(l, room, ec, kz, er);
        lemma_col_walk(l, room, ec, er, kz);
        lemma_reach_trans(l, (kx, kz), (ec, kz), (ec, er));
        lemma_reach_trans(l, (ec, er), (ec, kz), (kx, kz));
    } else {
        lemma_col_walk(l, room, kx, kz, er);
        lemma_col_walk(l, room, kx, er, kz);
        assert forall|x: int| (kx <= x <= ec || ec <= x <= kx) implies #[trigger] open_cell(l, room, x, er) by {
            assert(room.x <= x < room.x + room.w);
        }
        lemma_row_walk(l, room, er, kx, ec);
        lemma_row_walk(l, room, er, ec, kx);
        lemma_reach_trans(l, (kx, kz), (kx, er), (ec, er));
        lemma_reach_trans(l, (ec, er), (kx, er), (kx, kz));
    }
}

/// The room leaves at least a cell beside the up shaft along each axis.
pub open spec fn margins_ok(l: FloorLayout, room: Room) -> bool {
    let u = l.up_shaft.spec_rect();
    &&& (u.x > room.x || u.x + u.w < room.x + room.w)
    &&& (u.z > room.z || u.z + u.d < room.z + room.d)
}

/// The room's edge column on a side where the up shaft leaves a gap.
pub open spec fn edge_col(l: FloorLayout, room: Room) -> int {
    if l.up_shaft.spec_rect().x > room.x { room.x as int } else { room.x + room.w - 1 }
}

/// The room's edge row on a side where the up shaft leaves a gap.
pub open spec fn edge_row(l: FloorLayout, room: Room) -> int {
    if l.up_shaft.spec_rect().z > room.z { room.z as int } else { room.z + room.d - 1 }
}

/// That edge column and edge row are open their whole length.
proof fn lemma_edges_open(l: FloorLayout, room: Room)
    requires
        fallback_shape(l, room),
        margins_ok(l, room),
    ensures
        room.x <= edge_col(l, room) < room.x + room.w,
        room.z <= edge_row(l, room) < room.z + room.d,
        forall|z: int| room.z <= z < room.z + room.d ==> #[trigger] open_cell(l, room, edge_col(l, room), z),
        forall|x: int| room.x <= x < room.x + room.w ==> #[trigger] open_cell(l, room, x, edge_row(l, room)),
{
}

/// On the last floor, the chest (a room cell off the up shaft) joins the hub.
proof fn lemma_chest_joins_hub(l: FloorLayout, room: Room, c: (int, int))
    requires
        fallback_shape(l, room),
        margins_ok(l, room),
        l.down_shaft is None,
        open_cell(l, room, c.0, c.1),
    ensures
        reachable(l, (edge_col(l, room), edge_row(l, room)), c),
{
    lemma_edges_open(l, room);
    let ec = edge_col(l, room);
    let er = edge_row(l, room);
    if !(forall|x: int| (c.0 <= x <= ec || ec <= x <= c.0) ==> #[trigger] open_cell(l, room, x, c.1)) {
        let x1 = choose|x: int| (c.0 <= x <= ec || ec <= x <= c.0) && !#[trigger] open_cell(l, room, x, c.1);
        assert(l.up_shaft.has_cell(x1, c.1));
        assert forall|z: int| (c.1 <= z <= er || er <= z <= c.1) implies #[trigger] open_cell(l, room, c.0, z) by {
            if l.up_shaft.has_cell(c.0, z) {
                assert(l.up_shaft.has_cell(c.0, c.1));
            }
        }
    }
    lemma_hub(l, room, c.0, c.1, ec, er);
}

/// The entry landing of the down shaft joins the hub: around the shaft's
/// top-left corner, then in from the north.
proof fn lemma_down_entry_joins_hub(l: FloorLayout, room: Room, d: StairShaft)
    requires
        fallback_shape(l, room),
        margins_ok(l, room),
        l.down_shaft == Some(d),
    ensures
        reachable(l, (edge_col(l, room), edge_row(l, room)), d.spec_entry_cell()),
{
    lemma_edges_open(l, room);
    let ec = edge_col(l, room);
    let er = edge_row(l, room);
    let gu = grown_room(l.up_shaft.spec_rect());
    let gd = grown_room(d.spec_rect());
    let kx = d.x - 1;
    let kz = d.z - 1;
    assert(gd.has_cell(kx, kz));
    assert(!l.up_shaft.has_cell(kx, kz)) by {
        if l.up_shaft.has_cell(kx, kz) {
            assert(gu.has_cell(kx, kz));
        }
    }
    assert(open_cell(l, room, kx, kz));
    if !(forall|x: int| (kx <= x <= ec || ec <= x <= kx) ==> #[trigger] open_cell(l, room, x, kz)) {
        let x1 = choose|x: int| (kx <= x <= ec || ec <= x <= kx) && !#[trigger] open_cell(l, room, x, kz);
        assert(l.up_shaft.has_cell(x1, kz));
        assert forall|z: int| (kz <= z <= er || er <= z <= kz) implies #[trigger] open_cell(l, room, kx, z) by {
            if l.up_shaft.has_cell(kx, z) {
                assert(l.up_shaft.has_cell(kx, kz));
            }
        }
    }
    lemma_hub(l, room, kx, kz, ec, er);
    assert(open_cell(l, room, d.x as int, kz)) by {
        assert(gd.has_cell(d.x as int, kz));
        if l.up_shaft.has_cell(d.x as int, kz) {
            assert(gu.has_cell(d.x as int, kz));
        }
    }
    lemma_row_walk(l, room, kz, kx, d.x as int);
    lemma_reach_trans(l, (ec, er), (kx, kz), (d.x as int, kz));
    let e = d.spec_entry_cell();
    assert(e == (d.x as int, d.z as int));
    assert(!l.up_shaft.has_cell(e.0, e.1)) by {
        assert(gd.has_cell(e.0, e.1));
        if l.up_shaft.has_cell(e.0, e.1) {
            assert(gu.has_cell(e.0, e.1));
        }
    }
    assert(!wall_s(l, d.x as int, kz)) by {
        if l.up_shaft.spec_rect().has_cell(d.x as int, kz + 1) || gu.has_cell(d.x as int, kz) {
            assert(gd.has_cell(d.x as int, kz));
        }
    }
    assert(!wall_n(l, e.0, e.1)) by {
        assert(gd.has_cell(e.0, e.1));
        if gu.has_cell(e.0, e.1) {
        }
    }
    assert(step_ok(l, (d.x as int, kz), e));
    lemma_reach_step(l, (ec, er), (d.x as int, kz), e);
}

/// From a corner `(kx, kz)` of the up shaft's grown footprint, the hub is
/// reached: the down shaft cannot block both the straight run along the
/// row and the one along the column, or it would reach that corner.
proof fn lemma_up_corner_joins_hub(l: FloorLayout, room: Room, kx: int, kz: int)
    requires
        fallback_shape(l, room),
        margins_ok(l, room),
        room.has_cell(kx, kz),
        near(l.up_shaft, kx, kz),
        !(l.up_shaft.spec_rect().x <= kx < l.up_shaft.spec_rect().x + l.up_shaft.spec_rect().w),
        !(l.up_shaft.spec_rect().z <= kz < l.up_shaft.spec_rect().z + l.up_shaft.spec_rect().d),
    ensures
        reachable(l, (kx, kz), (edge_col(l, room), edge_row(l, room))),
{
    lemma_edges_open(l, room);
    let ec = edge_col(l, room);
    let er = edge_row(l, room);
    let gu = grown_room(l.up_shaft.spec_rect());
    if let Some(d) = l.down_shaft {
        let gd = grown_room(d.spec_rect());
        assert(!d.has_cell(kx, kz)) by {
            if d.has_cell(kx, kz) {
                assert(gd.has_cell(kx, kz));
            }
        }
        if !(forall|x: int| (kx <= x <= ec || ec <= x <= kx) ==> #[trigger] open_cell(l, room, x, kz)) {
            let x1 = choose|x: int| (kx <= x <= ec || ec <= x <= kx) && !#[trigger] open_cell(l, room, x, kz);
            assert(d.has_cell(x1, kz));
            assert forall|z: int| (kz <= z <= er || er <= z <= kz) implies #[trigger] open_cell(l, room, kx, z) by {
                if d.has_cell(kx, z) {
                    assert(d.has_cell(kx, kz));
                }
            }
        }
    }
    assert(open_cell(l, room, kx, kz));
    lemma_hub(l, room, kx, kz, ec, er);
}

/// From the arrival landing, the hub is reached: off the landing to the
/// side of the shaft that has room, along the shaft's grown footprint to
/// its corner, then out.
proof fn lemma_arrival_joins_hub(l: FloorLayout, room: Room)
    requires
        fallback_shape(l, room),
        margins_ok(l, room),
    ensures
        reachable(l, l.up_shaft.spec_exit_cell(), (edge_col(l, room), edge_row(l, room))),
{
    let u = l.up_shaft;
    let ur = u.spec_rect();
    let gu = grown_room(ur);
    let s = u.spec_exit_cell();
    assert(l.carved_at(s.0, s.1));
    if u.along_z {
        let ze = if u.reversed { u.z as int } else { u.z + SHAFT_LEN - 1 };
        assert(s == (u.x as int, ze));
        let left = ur.x > room.x;
        let sc = if left { u.x - 1 } else { u.x + 2 };
        let kz = if ur.z > room.z { u.z - 1 } else { u.z + SHAFT_LEN };
        // Off the landing.
        if left {
            assert(open_cell(l, room, sc, ze)) by {
                if let Some(d) = l.down_shaft {
                    if d.has_cell(sc, ze) {
                        assert(grown_room(d.spec_rect()).has_cell(sc, ze));
                        assert(gu.has_cell(sc, ze));
                    }
                }
            }
            assert(step_ok(l, s, (sc, ze)));
            lemma_reach_refl(l, s);
            lemma_reach_step(l, s, s, (sc, ze));
        } else {
            let mid = (u.x + 1, ze);
            assert(open_cell(l, room, sc, ze)) by {
                if let Some(d) = l.down_shaft {
                    if d.has_cell(sc, ze) {
                        assert(grown_room(d.spec_rect()).has_cell(sc, ze));
                        assert(gu.has_cell(sc, ze));
                    }
                }
            }
            assert(l.carved_at(mid.0, mid.1));
            assert(step_ok(l, s, mid));
            assert(step_ok(l, mid, (sc, ze)));
            lemma_reach_refl(l, s);
            lemma_reach_step(l, s, s, mid);
            lemma_reach_step(l, s, mid, (sc, ze));
        }
        // Along the grown footprint's side column to its corner.
        assert forall|z: int| (ze <= z <= kz || kz <= z <= ze) implies #[trigger] open_cell(l, room, sc, z) by {
            assert(gu.has_cell(sc, z));
            if let Some(d) = l.down_shaft {
                if d.has_cell(sc, z) {
                    assert(grown_room(d.spec_rect()).has_cell(sc, z));
                }
            }
        }
        lemma_col_walk(l, room, sc, ze, kz);
        lemma_reach_trans(l, s, (sc, ze), (sc, kz));
        lemma_up_corner_joins_hub(l, room, sc, kz);
        lemma_reach_trans(l, s, (sc, kz), (edge_col(l, room), edge_row(l, room)));
    } else {
        let xe = if u.reversed { u.x as int } else { u.x + SHAFT_LEN - 1 };
        assert(s == (xe, u.z as int));
        let top = ur.z > room.z;
        let sr = if top { u.z - 1 } else { u.z + 2 };
        let kx = if ur.x > room.x { u.x - 1 } else { u.x + SHAFT_LEN };
        if top {
            assert(open_cell(l, room, xe, sr)) by {
                if let Some(d) = l.down_shaft {
                    if d.has_cell(xe, sr) {
                        assert(grown_room(d.spec_rect()).has_cell(xe, sr));
                        assert(gu.has_cell(xe, sr));
                    }
                }
            }
            assert(step_ok(l, s, (xe, sr)));
            lemma_reach_refl(l, s);
            lemma_reach_step(l, s, s, (xe, sr));
        } else {
            let mid = (xe, u.z + 1);
            assert(open_cell(l, room, xe, sr)) by {
                if let Some(d) = l.down_shaft {
                    if d.has_cell(xe, sr) {
                        assert(grown_room(d.spec_rect()).has_cell(xe, sr));
                        assert(gu.has_cell(xe, sr));
                    }
                }
            }
            assert(l.carved_at(mid.0, mid.1));
            assert(step_ok(l, s, mid));
            assert(step_ok(l, mid, (xe, sr)));
            lemma_reach_refl(l, s);
            lemma_reach_step(l, s, s, mid);
            lemma_reach_step(l, s, mid, (xe, sr));
        }
        assert forall|x: int| (xe <= x <= kx || kx <= x <= xe) implies #[trigger] open_cell(l, room, x, sr) by {
            assert(gu.has_cell(x, sr));
            if let Some(d) = l.down_shaft {
                if d.has_cell(x, sr) {
                    assert(grown_room(d.spec_rect()).has_cell(x, sr));
                }
            }
        }
        lemma_row_walk(l, room, sr, xe, kx);
        lemma_reach_trans(l, s, (xe, sr), (kx, sr));
        lemma_up_corner_joins_hub(l, room, kx, sr);
        lemma_reach_trans(l, s, (kx, sr), (edge_col(l, room), edge_row(l, room)));
    }
}

/// A fallback floor can be descended: the arrival landing, the down
/// shaft's entry landing and the chest all join the hub where the room's
/// open edge column meets its open edge row.
pub proof fn lemma_fallback_descendable(l: FloorLayout, room: Room)
    requires
        fallback_shape(l, room),
        margins_ok(l, room),
        l.chest matches Some(c) ==> l.down_shaft is None && open_cell(l, room, c.0 as int, c.1 as int),
    ensures
        floor_descendable(l),
{
    let hub = (edge_col(l, room), edge_row(l, room));
    let s = l.up_shaft.spec_exit_cell();
    lemma_arrival_joins_hub(l, room);
    if let Some(d) = l.down_shaft {
        lemma_down_entry_joins_hub(l, room, d);
        lemma_reach_trans(l, s, hub, d.spec_entry_cell());
    }
    if let Some(c) = l.chest {
        lemma_chest_joins_hub(l, room, (c.0 as int, c.1 as int));
        lemma_reach_trans(l, s, hub, (c.0 as int, c.1 as int));
    }
}

/// A floor carved from one room and two shafts inside it is walkable
/// exactly on that room.
pub proof fn lemma_single_room_carving(l: FloorLayout, room: Room)
    requires
        l.carved@ == carve_spec(seq![room], l.up_shaft, l.down_shaft),
        0 <= room.x && room.x + room.w <= GRID && 0 <= room.z && room.z + room.d <= GRID,
        forall|x: int, z: int| #[trigger] l.up_shaft.has_cell(x, z) ==> room.has_cell(x, z),
        l.down_shaft matches Some(d) ==> forall|x: int, z: int| #[trigger] d.has_cell(x, z) ==> room.has_cell(x, z),
    ensures
        forall|x: int, z: int| #[trigger] l.carved_at(x, z) == room.has_cell(x, z),
{
    let rooms = seq![room];
    assert forall|x: int, z: int| #[trigger] l.carved_at(x, z) == room.has_cell(x, z) by {
        if in_grid(x, z) {
            let i = x + z * GRID;
            assert(i % GRID as int == x && i / GRID as int == z && 0 <= i < 3136) by (nonlinear_arith)
                requires
                    0 <= x < 56,
                    0 <= z < 56,
                    i == x + z * 56,
            ;
            assert(l.carved@[i] == ground_cell(rooms, l.up_shaft, l.down_shaft, x, z));
            if room.has_cell(x, z) {
                assert(rooms[0].has_cell(x, z));
                assert(in_some_room_cell(rooms, x, z));
            }
            assert(!on_corridor_upto(rooms, rooms.len() - 1, x, z));
        }
    }
}

proof fn lemma_scan_row_shape(room: Room, zone: Room, z: int, x: int)
    ensures
        scan_row(room, zone, z, x) matches Some(c) ==> c.along_z && !c.reversed && !grown_room(c.spec_rect()).overlaps(zone),
    decreases GRID - x,
{
    if !(x >= room.x + room.w - 1 - SHAFT_W || x >= GRID) {
        lemma_scan_row_shape(room, zone, z, x + 1);
    }
}

/// The fallback's down shaft runs along +Z from its shallow end, with its
/// grown footprint clear of `zone`.
pub proof fn lemma_scan_rows_shape(room: Room, zone: Room, z: int)
    ensures
        scan_rows(room, zone, z) matches Some(c) ==> c.along_z && !c.reversed && !grown_room(c.spec_rect()).overlaps(zone),
    decreases GRID - z,
{
    if !(z >= room.z + room.d - 1 - SHAFT_LEN || z >= GRID) {
        lemma_scan_row_shape(room, zone, z, room.x + 1);
        lemma_scan_rows_shape(room, zone, z + 1);
    }
}

/// The fallback room holds the up shaft, inside the grid, with a gap beside
/// the shaft along each axis.
pub proof fn lemma_fallback_room_fits(l: FloorLayout)
    requires
        l.up_shaft.in_interior(),
    ensures
        ({
            let room = fallback_room(l.up_shaft);
            &&& 0 <= room.x && room.x + room.w <= GRID && 0 <= room.z && room.z + room.d <= GRID
            &&& forall|x: int, z: int| #[trigger] l.up_shaft.has_cell(x, z) ==> room.has_cell(x, z)
            &&& margins_ok(l, room)
        }),
{
}

/// The fallback chest lies off both shafts.
pub proof fn lemma_first_off_shafts(cells: Seq<(i32, i32)>, up: StairShaft, down: Option<StairShaft>, k: int)
    ensures
        first_off_shafts(cells, up, down, k) matches Some(c) ==> !up.has_cell(c.0 as int, c.1 as int) && !(
        down matches Some(d) && d.has_cell(c.0 as int, c.1 as int)),
    decreases cells.len() - k,
{
    if 0 <= k < cells.len() {
        lemma_first_off_shafts(cells, up, down, k + 1);
    }
}

} // verus!
