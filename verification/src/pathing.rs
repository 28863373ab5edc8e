//! Per-edge collision queries against the passability cache: whether a
//! one-cell cardinal step crosses a wall of any grid registered on the
//! step's floor level.
use vstd::prelude::*;
use crate::dungeon::{EDGE_N, EDGE_E, EDGE_S, EDGE_W, fits_i32};
use crate::passability::FloorGrid;

verus! {

/// One cache entry, as the edge query reads it: its culling box in whole
/// cells (a cell coordinate `c` is left of the box when `c < min_x`), the
/// whole-cell origin its floor grids are placed from, and the grids.
#[derive(Debug, Clone)]
pub struct PassEntry {
    pub min_x: i64,
    pub max_x: i64,
    pub min_z: i64,
    pub max_z: i64,
    pub origin_x: i32,
    pub origin_z: i32,
    pub floors: Vec<FloorGrid>,
}

/// The step `(dx, dz)` leaves its cell through wall bit `leave` and enters
/// the neighbour through `enter`; `None` for anything but a cardinal step.
pub open spec fn step_bits(dx: i32, dz: i32) -> Option<(u8, u8)> {
    if dx == 1 && dz == 0 {
        Some((EDGE_E, EDGE_W))
    } else if dx == -1 && dz == 0 {
        Some((EDGE_W, EDGE_E))
    } else if dx == 0 && dz == 1 {
        Some((EDGE_S, EDGE_N))
    } else if dx == 0 && dz == -1 {
        Some((EDGE_N, EDGE_S))
    } else {
        None
    }
}

/// Both ends of the step lie on the same side outside the entry's box.
pub open spec fn culled(e: PassEntry, cx: int, cz: int, nx: int, nz: int) -> bool {
    (cx < e.min_x && nx < e.min_x) || (cx > e.max_x && nx > e.max_x) || (cz < e.min_z && nz < e.min_z)
        || (cz > e.max_z && nz > e.max_z)
}

/// Cell `(x, z)` of grid `f` (placed at the entry origin) carries wall bit
/// `bit`.
pub open spec fn grid_wall(e: PassEntry, f: FloorGrid, x: int, z: int, bit: u8) -> bool {
    let gx = x - (e.origin_x + f.origin_x);
    let gz = z - (e.origin_z + f.origin_z);
    0 <= gx < f.width && 0 <= gz < f.depth && f.cells@[gx + gz * f.width] & bit != 0
}

/// Grid `f` of entry `e` blocks the step: the leaving cell is walled on
/// the leaving side, or the entered cell on the entering side.
pub open spec fn grid_blocks(e: PassEntry, f: FloorGrid, cx: int, cz: int, dx: i32, dz: i32) -> bool {
    match step_bits(dx, dz) {
        Some((leave, enter)) => grid_wall(e, f, cx, cz, leave) || grid_wall(e, f, cx + dx, cz + dz, enter),
        None => false,
    }
}

/// A cardinal step from `(cx, cz)` on `floor_level` is blocked when some
/// entry whose box it touches has a grid of that level that blocks it.
pub open spec fn move_blocked(cache: Seq<PassEntry>, cx: int, cz: int, dx: i32, dz: i32, floor_level: u8) -> bool {
    step_bits(dx, dz) is Some && exists|i: int, j: int|
        0 <= i < cache.len() && 0 <= j < cache[i].floors@.len() && !culled(cache[i], cx, cz, cx + dx, cz + dz)
            && cache[i].floors@[j].floor_level == floor_level && #[trigger] grid_blocks(
            cache[i],
            cache[i].floors@[j],
            cx,
            cz,
            dx,
            dz,
        )
}

/// A grid's cells cover its extent and its placement fits `i32`.
pub open spec fn grid_ok(e: PassEntry, f: FloorGrid) -> bool {
    &&& f.cells@.len() >= f.width * f.depth
    &&& fits_i32(e.origin_x + f.origin_x)
    &&& fits_i32(e.origin_z + f.origin_z)
}

pub open spec fn cache_ok(cache: Seq<PassEntry>) -> bool {
    forall|i: int, j: int|
        0 <= i < cache.len() && 0 <= j < cache[i].floors@.len() ==> #[trigger] grid_ok(
            cache[i],
            cache[i].floors@[j],
        )
}

/// Whether grid `f` has wall bit `bit` on cell `(x, z)`.
fn grid_has_wall(e: &PassEntry, f: &FloorGrid, x: i64, z: i64, bit: u8) -> (r: bool)
    requires
        grid_ok(*e, *f),
        -0x1_0000_0000 <= x <= 0x1_0000_0000,
        -0x1_0000_0000 <= z <= 0x1_0000_0000,
    ensures
        r == grid_wall(*e, *f, x as int, z as int, bit),
{
    let fx = e.origin_x as i64 + f.origin_x as i64;
    let fz = e.origin_z as i64 + f.origin_z as i64;
    let w = f.width as i64;
    let d = f.depth as i64;
    let gx = x - fx;
    let gz = z - fz;
    if gx >= 0 && gx < w && gz >= 0 && gz < d {
        proof {
            assert(gx + gz * w < w * d) by (nonlinear_arith)
                requires 0 <= gx < w, 0 <= gz < d;
            assert(w * d <= 255 * 255) by (nonlinear_arith)
                requires 0 <= w <= 255, 0 <= d <= 255;
            assert(gz * w <= 255 * 255) by (nonlinear_arith)
                requires 0 <= gz < d, d <= 255, 0 <= w <= 255;
            assert(0 <= gx + gz * w) by (nonlinear_arith)
                requires 0 <= gx, 0 <= gz, 0 <= w;
        }
        let idx = (gx + gz * w) as usize;
        f.cells[idx] & bit != 0
    } else {
        false
    }
}

/// Check whether a cardinal (one-cell) move is blocked on a floor level.
/// Matches grids by floor level only: no height check.
pub fn is_cardinal_move_blocked(
    cache: &[PassEntry],
    cell_x: i32,
    cell_z: i32,
    dx: i32,
    dz: i32,
    floor_level: u8,
) -> (r: bool)
    requires
        cache_ok(cache@),
    ensures
        r == move_blocked(cache@, cell_x as int, cell_z as int, dx, dz, floor_level),
{
    let (leave, enter): (u8, u8) = if dx == 1 && dz == 0 {
        (EDGE_E, EDGE_W)
    } else if dx == -1 && dz == 0 {
        (EDGE_W, EDGE_E)
    } else if dx == 0 && dz == 1 {
        (EDGE_S, EDGE_N)
    } else if dx == 0 && dz == -1 {
        (EDGE_N, EDGE_S)
    } else {
        return false;
    };
    let cx = cell_x as i64;
    let cz = cell_z as i64;
    let nx = cx + dx as i64;
    let nz = cz + dz as i64;
    let mut i: usize = 0;
    while i < cache.len()
        invariant
            cache_ok(cache@),
            0 <= i <= cache@.len(),
            step_bits(dx, dz) == Some((leave, enter)),
            cx == cell_x,
            cz == cell_z,
            nx == cell_x + dx,
            nz == cell_z + dz,
            forall|a: int, b: int|
                0 <= a < i && 0 <= b < cache@[a].floors@.len() ==> !(!culled(cache@[a], cx as int, cz as int, nx as int, nz as int)
                    && cache@[a].floors@[b].floor_level == floor_level && #[trigger] grid_blocks(
                    cache@[a],
                    cache@[a].floors@[b],
                    cx as int,
                    cz as int,
                    dx,
                    dz,
                )),
        decreases cache@.len() - i,
    {
        let e = &cache[i];
        let skip = (cx < e.min_x && nx < e.min_x) || (cx > e.max_x && nx > e.max_x) || (cz < e.min_z
            && nz < e.min_z) || (cz > e.max_z && nz > e.max_z);
        let mut j: usize = 0;
        while j < e.floors.len()
            invariant
                cache_ok(cache@),
                0 <= i < cache@.len(),
                *e == cache@[i as int],
                0 <= j <= e.floors@.len(),
                step_bits(dx, dz) == Some((leave, enter)),
                cx == cell_x,
                cz == cell_z,
                nx == cell_x + dx,
                nz == cell_z + dz,
                skip == culled(*e, cx as int, cz as int, nx as int, nz as int),
                forall|b: int|
                    0 <= b < j ==> !(!skip && e.floors@[b].floor_level == floor_level
                        && #[trigger] grid_blocks(*e, e.floors@[b], cx as int, cz as int, dx, dz)),
            decreases e.floors@.len() - j,
        {
            if skip {
                j = e.floors.len();
            } else {
                let f = &e.floors[j];
                proof {
                    assert(grid_ok(cache@[i as int], cache@[i as int].floors@[j as int]));
                }
                if f.floor_level == floor_level {
                    if grid_has_wall(e, f, cx, cz, leave) || grid_has_wall(e, f, nx, nz, enter) {
                        proof {
                            assert(grid_blocks(cache@[i as int], cache@[i as int].floors@[j as int], cx as int, cz as int, dx, dz));
                        }
                        return true;
                    }
                }
                j = j + 1;
            }
        }
        i = i + 1;
    }
    false
}

pub open spec fn sgn(v: int) -> int {
    if v > 0 { 1 } else if v < 0 { -1 } else { 0 }
}

pub open spec fn abs_int(v: int) -> int {
    if v < 0 { -v } else { v }
}

/// The walk from `(x0, z0)` toward `(x1, z1)` stands at `(x, z)` with
/// error term `err`: it has moved `nx` cells along X and `nz` along Z
/// toward the target, never past it, and `err` is the error term those
/// moves leave.
pub open spec fn walk_inv(x0: int, z0: int, x1: int, z1: int, x: int, z: int, err: int) -> bool {
    let dx = abs_int(x1 - x0);
    let dz = abs_int(z1 - z0);
    let nx = abs_int(x - x0);
    let nz = abs_int(z - z0);
    &&& 0 <= nx <= dx
    &&& 0 <= nz <= dz
    &&& x == x0 + sgn(x1 - x0) * nx
    &&& z == z0 + sgn(z1 - z0) * nz
    &&& err == dx * (1 + nz) - dz * (1 + nx)
}

/// Whether the cell walk of Bresenham's line from `(x0, z0)` to `(x1, z1)`,
/// continued from `(x, z)` with error term `err`, crosses no blocked edge
/// on `floor`. Each step moves along X when `2 err > -dz`, along Z when
/// `2 err < dx`; a diagonal step needs both L-shaped detours clear.
pub open spec fn walk_clear(
    cache: Seq<PassEntry>,
    floor: u8,
    x0: int,
    z0: int,
    x1: int,
    z1: int,
    x: int,
    z: int,
    err: int,
) -> bool
    decreases abs_int(x1 - x) + abs_int(z1 - z),
    when walk_inv(x0, z0, x1, z1, x, z, err)
{
    let dx = abs_int(x1 - x0);
    let dz = abs_int(z1 - z0);
    let sx = sgn(x1 - x0);
    let sz = sgn(z1 - z0);
    if x == x1 && z == z1 {
        true
    } else {
        let step_x = 2 * err > -dz;
        let step_z = 2 * err < dx;
        proof {
            lemma_walk_step(x0, z0, x1, z1, x, z, err);
        }
        if step_x && step_z {
            &&& !move_blocked(cache, x, z, sx as i32, 0, floor)
            &&& !move_blocked(cache, x + sx, z, 0, sz as i32, floor)
            &&& !move_blocked(cache, x, z, 0, sz as i32, floor)
            &&& !move_blocked(cache, x, z + sz, sx as i32, 0, floor)
            &&& walk_clear(cache, floor, x0, z0, x1, z1, x + sx, z + sz, err + dx - dz)
        } else if step_x {
            &&& !move_blocked(cache, x, z, sx as i32, 0, floor)
            &&& walk_clear(cache, floor, x0, z0, x1, z1, x + sx, z, err - dz)
        } else {
            &&& !move_blocked(cache, x, z, 0, sz as i32, floor)
            &&& walk_clear(cache, floor, x0, z0, x1, z1, x, z + sz, err + dx)
        }
    }
}

/// Away from the target, a step always moves (along X, Z or both), never
/// past the target, keeps the walk's invariant and brings it one cell
/// closer along each axis it moves on.
pub proof fn lemma_walk_step(x0: int, z0: int, x1: int, z1: int, x: int, z: int, err: int)
    requires
        walk_inv(x0, z0, x1, z1, x, z, err),
        !(x == x1 && z == z1),
    ensures
        ({
            let dx = abs_int(x1 - x0);
            let dz = abs_int(z1 - z0);
            let sx = sgn(x1 - x0);
            let sz = sgn(z1 - z0);
            let step_x = 2 * err > -dz;
            let step_z = 2 * err < dx;
            &&& step_x || step_z
            &&& step_x ==> x != x1 && abs_int(x1 - (x + sx)) == abs_int(x1 - x) - 1
            &&& step_z ==> z != z1 && abs_int(z1 - (z + sz)) == abs_int(z1 - z) - 1
            &&& step_x && step_z ==> walk_inv(x0, z0, x1, z1, x + sx, z + sz, err + dx - dz)
            &&& step_x && !step_z ==> walk_inv(x0, z0, x1, z1, x + sx, z, err - dz)
            &&& !step_x ==> walk_inv(x0, z0, x1, z1, x, z + sz, err + dx)
        }),
{
    let dx = abs_int(x1 - x0);
    let dz = abs_int(z1 - z0);
    let nx = abs_int(x - x0);
    let nz = abs_int(z - z0);
    let sx = sgn(x1 - x0);
    let sz = sgn(z1 - z0);
    // Not at the target: one axis still has distance to go.
    assert(nx < dx || nz < dz);
    assert(dx * (1 + nz) - dz * (1 + (nx + 1)) == dx * (1 + nz) - dz * (1 + nx) - dz) by (nonlinear_arith);
    assert(dx * (1 + (nz + 1)) - dz * (1 + nx) == dx * (1 + nz) - dz * (1 + nx) + dx) by (nonlinear_arith);
    assert(dx * (1 + (nz + 1)) - dz * (1 + (nx + 1)) == dx * (1 + nz) - dz * (1 + nx) + dx - dz) by (nonlinear_arith);
    assert(sx * nx + sx == sx * (nx + 1)) by (nonlinear_arith);
    assert(sz * nz + sz == sz * (nz + 1)) by (nonlinear_arith);
    if x1 - x0 > 0 {
        assert(sx * nx == nx);
        assert(sx * (nx + 1) == nx + 1);
        assert(x1 - x == dx - nx);
    } else if x1 - x0 < 0 {
        assert(sx * nx == -nx);
        assert(sx * (nx + 1) == -(nx + 1));
        assert(x - x1 == dx - nx);
    } else {
        assert(sx * nx == 0);
        assert(nx == 0 && dx == 0);
    }
    if z1 - z0 > 0 {
        assert(sz * nz == nz);
        assert(sz * (nz + 1) == nz + 1);
        assert(z1 - z == dz - nz);
    } else if z1 - z0 < 0 {
        assert(sz * nz == -nz);
        assert(sz * (nz + 1) == -(nz + 1));
        assert(z - z1 == dz - nz);
    } else {
        assert(sz * nz == 0);
        assert(nz == 0 && dz == 0);
    }
    assert(abs_int(x1 - x) == dx - nx);
    assert(abs_int(z1 - z) == dz - nz);
    if 2 * err > -dz {
        // A step along X never overshoots.
        if nx == dx {
            assert(2 * err <= -dz) by (nonlinear_arith)
                requires
                    err == dx * (1 + nz) - dz * (1 + nx),
                    nx == dx,
                    0 <= nz < dz,
                    0 <= dx,
            ;
        }
        assert(nx < dx);
        assert(x != x1);
        assert(abs_int(x + sx - x0) == nx + 1);
        assert(abs_int(x1 - (x + sx)) == abs_int(x1 - x) - 1);
    }
    if 2 * err < dx {
        // A step along Z never overshoots.
        if nz == dz {
            assert(2 * err >= dx) by (nonlinear_arith)
                requires
                    err == dx * (1 + nz) - dz * (1 + nx),
                    nz == dz,
                    0 <= nx < dx,
                    0 <= dz,
            ;
        }
        assert(nz < dz);
        assert(z != z1);
        assert(abs_int(z + sz - z0) == nz + 1);
        assert(abs_int(z1 - (z + sz)) == abs_int(z1 - z) - 1);
    }
}

/// Line of sight between two cells of `floor`: the Bresenham walk from
/// `(x0, z0)` to `(x1, z1)` crosses no blocked edge.
pub open spec fn line_clear(cache: Seq<PassEntry>, floor: u8, x0: int, z0: int, x1: int, z1: int) -> bool {
    walk_clear(cache, floor, x0, z0, x1, z1, x0, z0, abs_int(x1 - x0) - abs_int(z1 - z0))
}

/// Cell-based line-of-sight check using Bresenham grid traversal from cell
/// `(x0, z0)` to cell `(x1, z1)` on `floor`. For a diagonal cell step both
/// L-shaped detours must be clear: a body of some thickness cannot squeeze
/// through a corner gap.
pub fn is_line_passable(cache: &[PassEntry], floor: u8, x0: i32, z0: i32, x1: i32, z1: i32) -> (r: bool)
    requires
        cache_ok(cache@),
    ensures
        r == line_clear(cache@, floor, x0 as int, z0 as int, x1 as int, z1 as int),
{
    let ghost (gx0, gz0, gx1, gz1) = (x0 as int, z0 as int, x1 as int, z1 as int);
    let dx: i64 = if x1 >= x0 { x1 as i64 - x0 as i64 } else { x0 as i64 - x1 as i64 };
    let dz: i64 = if z1 >= z0 { z1 as i64 - z0 as i64 } else { z0 as i64 - z1 as i64 };
    let sx: i32 = if x1 > x0 { 1 } else if x1 < x0 { -1 } else { 0 };
    let sz: i32 = if z1 > z0 { 1 } else if z1 < z0 { -1 } else { 0 };
    let mut x: i32 = x0;
    let mut z: i32 = z0;
    let mut err: i64 = dx - dz;
    proof {
        let adx = abs_int(gx1 - gx0);
        let adz = abs_int(gz1 - gz0);
        assert(abs_int(gx0 - gx0) == 0 && abs_int(gz0 - gz0) == 0);
        assert(sgn(gx1 - gx0) * 0 == 0 && sgn(gz1 - gz0) * 0 == 0) by (nonlinear_arith);
        assert(adx * (1 + 0) == adx && adz * (1 + 0) == adz) by (nonlinear_arith);
        assert(walk_inv(gx0, gz0, gx1, gz1, gx0, gz0, err as int));
    }
    loop
        invariant
            cache_ok(cache@),
            dx == abs_int(gx1 - gx0),
            dz == abs_int(gz1 - gz0),
            sx == sgn(gx1 - gx0),
            sz == sgn(gz1 - gz0),
            gx0 == x0 && gz0 == z0 && gx1 == x1 && gz1 == z1,
            walk_inv(gx0, gz0, gx1, gz1, x as int, z as int, err as int),
            -2 * dz <= err <= 2 * dx,
            line_clear(cache@, floor, gx0, gz0, gx1, gz1) == walk_clear(
                cache@,
                floor,
                gx0,
                gz0,
                gx1,
                gz1,
                x as int,
                z as int,
                err as int,
            ),
        decreases abs_int(gx1 - x) + abs_int(gz1 - z),
    {
        if x == x1 && z == z1 {
            return true;
        }
        let e2 = 2 * err;
        let step_x = e2 > -dz;
        let step_z = e2 < dx;
        proof {
            lemma_walk_step(gx0, gz0, gx1, gz1, x as int, z as int, err as int);
        }
        if step_x && step_z {
            if is_cardinal_move_blocked(cache, x, z, sx, 0, floor)
                || is_cardinal_move_blocked(cache, x + sx, z, 0, sz, floor)
            {
                return false;
            }
            if is_cardinal_move_blocked(cache, x, z, 0, sz, floor)
                || is_cardinal_move_blocked(cache, x, z + sz, sx, 0, floor)
            {
                return false;
            }
            x = x + sx;
            z = z + sz;
            err = err + dx - dz;
        } else if step_x {
            if is_cardinal_move_blocked(cache, x, z, sx, 0, floor) {
                return false;
            }
            x = x + sx;
            err = err - dz;
        } else {
            if is_cardinal_move_blocked(cache, x, z, 0, sz, floor) {
                return false;
            }
            z = z + sz;
            err = err + dx;
        }
    }
}

/// A path waypoint by the cell it stands in and its floor level.
#[derive(Debug, Clone, Copy, PartialEq, Eq)]
pub struct CellWaypoint {
    pub x: i32,
    pub z: i32,
    pub floor: u8,
}

/// Whether waypoint `anchor` is the first one after a change of floor: the
/// step after a stairwell seam stays cardinal, so no smoothing starts there.
pub open spec fn is_floor_transition(w: Seq<CellWaypoint>, anchor: int) -> bool {
    anchor > 0 && w[anchor].floor != w[anchor - 1].floor
}

/// The last waypoint of the straight run from `anchor`, probing from
/// `probe` on: the probe is taken while it stays on the anchor's floor and
/// the anchor sees it; the run ends at the probe before the first miss.
pub open spec fn run_end(cache: Seq<PassEntry>, w: Seq<CellWaypoint>, anchor: int, probe: int) -> int
    decreases w.len() - probe,
{
    if probe >= w.len() || probe < 0 || anchor < 0 || anchor >= w.len() {
        probe - 1
    } else if w[probe].floor != w[anchor].floor || !line_clear(
        cache,
        w[anchor].floor,
        w[anchor].x as int,
        w[anchor].z as int,
        w[probe].x as int,
        w[probe].z as int,
    ) {
        probe - 1
    } else {
        run_end(cache, w, anchor, probe + 1)
    }
}

/// The waypoint the smoothed path jumps to from `anchor`.
pub open spec fn farthest_from(cache: Seq<PassEntry>, w: Seq<CellWaypoint>, anchor: int) -> int {
    if is_floor_transition(w, anchor) {
        anchor + 1
    } else {
        run_end(cache, w, anchor, anchor + 2)
    }
}

pub proof fn lemma_run_end_bounds(cache: Seq<PassEntry>, w: Seq<CellWaypoint>, anchor: int, probe: int)
    requires
        0 <= anchor < w.len(),
        anchor < probe <= w.len(),
    ensures
        probe - 1 <= run_end(cache, w, anchor, probe) < w.len(),
    decreases w.len() - probe,
{
    if probe < w.len() {
        lemma_run_end_bounds(cache, w, anchor, probe + 1);
    }
}

/// The indices of the waypoints kept after `anchor`, in order.
pub open spec fn kept_after(cache: Seq<PassEntry>, w: Seq<CellWaypoint>, anchor: int) -> Seq<int>
    decreases w.len() - anchor,
{
    if anchor < 0 || anchor >= w.len() - 1 {
        Seq::empty()
    } else {
        let f = farthest_from(cache, w, anchor);
        if f <= anchor || f >= w.len() {
            Seq::empty()
        } else {
            seq![f] + kept_after(cache, w, f)
        }
    }
}

/// The indices of the waypoints that greedy line-of-sight smoothing keeps:
/// the first, then from each kept waypoint the farthest one it sees along
/// a straight run on its own floor.
pub open spec fn kept_waypoints(cache: Seq<PassEntry>, w: Seq<CellWaypoint>) -> Seq<int> {
    if w.len() == 0 {
        Seq::empty()
    } else {
        seq![0int] + kept_after(cache, w, 0)
    }
}

pub open spec fn as_ints(s: Seq<usize>) -> Seq<int> {
    s.map_values(|v: usize| v as int)
}

/// The straight run from `anchor`: the index of the last waypoint the
/// anchor sees on its own floor, probing from `anchor + 2`.
fn farthest_visible(cache: &[PassEntry], w: &[CellWaypoint], anchor: usize) -> (f: usize)
    requires
        cache_ok(cache@),
        anchor + 1 < w@.len(),
    ensures
        f == farthest_from(cache@, w@, anchor as int),
        anchor < f < w@.len(),
{
    if anchor > 0 && w[anchor].floor != w[anchor - 1].floor {
        return anchor + 1;
    }
    let a = w[anchor];
    let mut probe: usize = anchor + 2;
    proof {
        lemma_run_end_bounds(cache@, w@, anchor as int, probe as int);
    }
    while probe < w.len()
        invariant
            cache_ok(cache@),
            anchor + 2 <= probe <= w@.len(),
            a == w@[anchor as int],
            !is_floor_transition(w@, anchor as int),
            run_end(cache@, w@, anchor as int, anchor + 2) == run_end(cache@, w@, anchor as int, probe as int),
        decreases w@.len() - probe,
    {
        let p = w[probe];
        if p.floor != a.floor || !is_line_passable(cache, a.floor, a.x, a.z, p.x, p.z) {
            return probe - 1;
        }
        probe = probe + 1;
    }
    probe - 1
}

/// Greedy line-of-sight path smoothing over cell waypoints; only smooths
/// within one floor level. Returns the indices of the waypoints kept.
pub fn smooth_path(w: &[CellWaypoint], cache: &[PassEntry]) -> (r: Vec<usize>)
    requires
        cache_ok(cache@),
    ensures
        as_ints(r@) == kept_waypoints(cache@, w@),
        forall|i: int| 0 <= i < r@.len() ==> #[trigger] r@[i] < w@.len(),
{
    let mut r: Vec<usize> = Vec::new();
    if w.len() == 0 {
        proof {
            assert(as_ints(r@) =~= kept_waypoints(cache@, w@));
        }
        return r;
    }
    r.push(0);
    let mut anchor: usize = 0;
    proof {
        assert(as_ints(r@) =~= seq![0int]);
    }
    while anchor < w.len() - 1
        invariant
            cache_ok(cache@),
            w@.len() >= 1,
            anchor < w@.len(),
            as_ints(r@) + kept_after(cache@, w@, anchor as int) == kept_waypoints(cache@, w@),
            forall|i: int| 0 <= i < r@.len() ==> #[trigger] r@[i] < w@.len(),
        decreases w@.len() - anchor,
    {
        let f = farthest_visible(cache, w, anchor);
        let ghost before = as_ints(r@);
        r.push(f);
        proof {
            assert(as_ints(r@) =~= before.push(f as int));
            assert(kept_after(cache@, w@, anchor as int) == seq![f as int] + kept_after(cache@, w@, f as int));
            assert(before + kept_after(cache@, w@, anchor as int) =~= before.push(f as int) + kept_after(
                cache@,
                w@,
                f as int,
            ));
        }
        anchor = f;
    }
    proof {
        assert(kept_after(cache@, w@, anchor as int) =~= Seq::<int>::empty());
        assert(as_ints(r@) + Seq::<int>::empty() =~= as_ints(r@));
    }
    r
}

/// A jump of a smoothed path from waypoint `a` to waypoint `b`: to the very
/// next waypoint, or to one on the same floor along a clear straight line.
pub open spec fn jump_ok(cache: Seq<PassEntry>, w: Seq<CellWaypoint>, a: int, b: int) -> bool {
    ||| b == a + 1
    ||| (w[a].floor == w[b].floor && line_clear(
        cache,
        w[a].floor,
        w[a].x as int,
        w[a].z as int,
        w[b].x as int,
        w[b].z as int,
    ))
}

/// The end of a straight run is the probe's predecessor or a waypoint the
/// anchor sees on its own floor.
proof fn lemma_run_end_clear(cache: Seq<PassEntry>, w: Seq<CellWaypoint>, anchor: int, probe: int)
    requires
        0 <= anchor < w.len(),
        anchor < probe <= w.len(),
    ensures
        ({
            let e = run_end(cache, w, anchor, probe);
            e == probe - 1 || (w[e].floor == w[anchor].floor && line_clear(
                cache,
                w[anchor].floor,
                w[anchor].x as int,
                w[anchor].z as int,
                w[e].x as int,
                w[e].z as int,
            ))
        }),
    decreases w.len() - probe,
{
    if probe < w.len() {
        lemma_run_end_clear(cache, w, anchor, probe + 1);
    }
}

proof fn lemma_kept_after(cache: Seq<PassEntry>, w: Seq<CellWaypoint>, anchor: int)
    requires
        0 <= anchor < w.len(),
    ensures
        ({
            let k = kept_after(cache, w, anchor);
            &&& anchor == w.len() - 1 ==> k.len() == 0
            &&& anchor < w.len() - 1 ==> k.len() > 0 && k[k.len() - 1] == w.len() - 1
            &&& forall|i: int| 0 <= i < k.len() ==> anchor < #[trigger] k[i] < w.len()
            &&& forall|i: int, j: int| 0 <= i < j < k.len() ==> #[trigger] k[i] < #[trigger] k[j]
            &&& k.len() > 0 ==> jump_ok(cache, w, anchor, k[0])
            &&& forall|i: int| 0 <= i < k.len() - 1 ==> jump_ok(cache, w, #[trigger] k[i], k[i + 1])
        }),
    decreases w.len() - anchor,
{
    if anchor < w.len() - 1 {
        if !is_floor_transition(w, anchor) {
            lemma_run_end_bounds(cache, w, anchor, anchor + 2);
            lemma_run_end_clear(cache, w, anchor, anchor + 2);
        }
        let f = farthest_from(cache, w, anchor);
        lemma_kept_after(cache, w, f);
        let rest = kept_after(cache, w, f);
        let k = kept_after(cache, w, anchor);
        assert(k == seq![f] + rest);
        assert(jump_ok(cache, w, anchor, f));
        assert forall|i: int| 0 <= i < k.len() - 1 implies jump_ok(cache, w, #[trigger] k[i], k[i + 1]) by {
            if i > 0 {
                assert(k[i] == rest[i - 1] && k[i + 1] == rest[i]);
            } else {
                assert(k[1] == rest[0]);
            }
        }
        assert forall|i: int, j: int| 0 <= i < j < k.len() implies #[trigger] k[i] < #[trigger] k[j] by {
            if i > 0 {
                assert(k[i] == rest[i - 1] && k[j] == rest[j - 1]);
            } else {
                assert(k[j] == rest[j - 1]);
            }
        }
        assert forall|i: int| 0 <= i < k.len() implies anchor < #[trigger] k[i] < w.len() by {
            if i > 0 {
                assert(k[i] == rest[i - 1]);
            }
        }
        if rest.len() > 0 {
            assert(k[k.len() - 1] == rest[rest.len() - 1]);
        }
    }
}

/// Smoothing keeps the path's first and last waypoints, and keeps the
/// waypoints it does keep in their order, each at most once; each jump
/// between kept waypoints goes to the very next waypoint or along a clear
/// straight line on one floor.
pub proof fn lemma_smooth_keeps_ends(cache: Seq<PassEntry>, w: Seq<CellWaypoint>)
    requires
        w.len() > 0,
    ensures
        ({
            let k = kept_waypoints(cache, w);
            &&& k.len() > 0
            &&& k[0] == 0
            &&& k[k.len() - 1] == w.len() - 1
            &&& forall|i: int| 0 <= i < k.len() ==> 0 <= #[trigger] k[i] < w.len()
            &&& forall|i: int, j: int| 0 <= i < j < k.len() ==> #[trigger] k[i] < #[trigger] k[j]
            &&& forall|i: int| 0 <= i < k.len() - 1 ==> jump_ok(cache, w, #[trigger] k[i], k[i + 1])
        }),
{
    lemma_kept_after(cache, w, 0);
    let rest = kept_after(cache, w, 0);
    let k = kept_waypoints(cache, w);
    assert(k == seq![0int] + rest);
    assert forall|i: int| 0 <= i < k.len() - 1 implies jump_ok(cache, w, #[trigger] k[i], k[i + 1]) by {
        if i > 0 {
            assert(k[i] == rest[i - 1] && k[i + 1] == rest[i]);
        } else {
            assert(k[1] == rest[0]);
        }
    }
    assert forall|i: int, j: int| 0 <= i < j < k.len() implies #[trigger] k[i] < #[trigger] k[j] by {
        if i > 0 {
            assert(k[i] == rest[i - 1] && k[j] == rest[j - 1]);
        } else {
            assert(k[j] == rest[j - 1]);
        }
    }
    assert forall|i: int| 0 <= i < k.len() implies 0 <= #[trigger] k[i] < w.len() by {
        if i > 0 {
            assert(k[i] == rest[i - 1]);
        }
    }
    if rest.len() > 0 {
        assert(k[k.len() - 1] == rest[rest.len() - 1]);
    }
}

} // verus!
