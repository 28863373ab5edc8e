//! Edge-bitmask passability cells of a dungeon floor: which side of each
//! walkable cell is walled, derived from the walkability mask plus the side
//! walls that keep a descending player on the stairs.
use vstd::prelude::*;
use crate::dungeon::{FloorLayout, Room, StairShaft, GRID, CELLS, SHAFT_LEN, SHAFT_W, EDGE_N, EDGE_E, EDGE_S, EDGE_W, in_grid, cell_index};

verus! {

/// The edge byte with exactly the given sides walled.
pub open spec fn edge_mask(n: bool, e: bool, s: bool, w: bool) -> u8 {
    (if n { 1u8 } else { 0u8 }) | (if e { 2u8 } else { 0u8 }) | (if s { 4u8 } else { 0u8 }) | (
    if w { 8u8 } else { 0u8 })
}

pub proof fn lemma_edge_mask_bits(n: bool, e: bool, s: bool, w: bool)
    by (bit_vector)
    ensures
        edge_mask(n, e, s, w) | 1u8 == edge_mask(true, e, s, w),
        edge_mask(n, e, s, w) | 2u8 == edge_mask(n, true, s, w),
        edge_mask(n, e, s, w) | 4u8 == edge_mask(n, e, true, w),
        edge_mask(n, e, s, w) | 8u8 == edge_mask(n, e, s, true),
        (edge_mask(n, e, s, w) & 1u8 != 0) == n,
        (edge_mask(n, e, s, w) & 2u8 != 0) == e,
        (edge_mask(n, e, s, w) & 4u8 != 0) == s,
        (edge_mask(n, e, s, w) & 8u8 != 0) == w,
        edge_mask(false, false, false, false) == 0u8,
{
}

/// Every in-grid cell of `c` carries exactly the walls the four flags name.
pub open spec fn cells_match(
    c: Seq<u8>,
    n: spec_fn(int, int) -> bool,
    e: spec_fn(int, int) -> bool,
    s: spec_fn(int, int) -> bool,
    w: spec_fn(int, int) -> bool,
) -> bool {
    &&& c.len() == CELLS
    &&& forall|x: int, z: int|
        in_grid(x, z) ==> #[trigger] c[cell_index(x, z)] == edge_mask(n(x, z), e(x, z), s(x, z), w(x, z))
}

/// Row `z` is part of the run of a shaft that runs along +Z; unless `all`,
/// the deep landing's row is left out.
pub open spec fn run_row(sh: StairShaft, all: bool, z: int) -> bool {
    let exit_z = if sh.reversed { sh.z as int } else { sh.z + SHAFT_LEN - 1 };
    sh.z <= z < sh.z + SHAFT_LEN && (all || z != exit_z)
}

/// Column `x` is part of the run of a shaft that runs along +X; unless
/// `all`, the deep landing's column is left out.
pub open spec fn run_col(sh: StairShaft, all: bool, x: int) -> bool {
    let exit_x = if sh.reversed { sh.x as int } else { sh.x + SHAFT_LEN - 1 };
    sh.x <= x < sh.x + SHAFT_LEN && (all || x != exit_x)
}

/// Side walls a shaft adds along its run (both sides of both rails).
pub open spec fn shaft_wall_n(sh: StairShaft, all: bool, x: int, z: int) -> bool {
    !sh.along_z && run_col(sh, all, x) && (z == sh.z || z == sh.z + 2)
}

pub open spec fn shaft_wall_s(sh: StairShaft, all: bool, x: int, z: int) -> bool {
    !sh.along_z && run_col(sh, all, x) && (z == sh.z - 1 || z == sh.z + 1)
}

pub open spec fn shaft_wall_e(sh: StairShaft, all: bool, x: int, z: int) -> bool {
    sh.along_z && run_row(sh, all, z) && (x == sh.x - 1 || x == sh.x + 1)
}

pub open spec fn shaft_wall_w(sh: StairShaft, all: bool, x: int, z: int) -> bool {
    sh.along_z && run_row(sh, all, z) && (x == sh.x || x == sh.x + 2)
}

/// The wall across one end of a shaft: its low end (`min`) or its high
/// end, on the shaft's end cells and on the cells just beyond them.
pub open spec fn end_wall_n(sh: StairShaft, min: bool, x: int, z: int) -> bool {
    sh.along_z && sh.x <= x < sh.x + 2 && (if min { z == sh.z } else { z == sh.z + SHAFT_LEN })
}

pub open spec fn end_wall_s(sh: StairShaft, min: bool, x: int, z: int) -> bool {
    sh.along_z && sh.x <= x < sh.x + 2 && (if min { z == sh.z - 1 } else { z == sh.z + SHAFT_LEN - 1 })
}

pub open spec fn end_wall_w(sh: StairShaft, min: bool, x: int, z: int) -> bool {
    !sh.along_z && sh.z <= z < sh.z + 2 && (if min { x == sh.x } else { x == sh.x + SHAFT_LEN })
}

pub open spec fn end_wall_e(sh: StairShaft, min: bool, x: int, z: int) -> bool {
    !sh.along_z && sh.z <= z < sh.z + 2 && (if min { x == sh.x - 1 } else { x == sh.x + SHAFT_LEN - 1 })
}

/// The walls a shaft adds on a floor. As this floor's up shaft
/// (`down == false`) its landing is the deep end: the sides are walled
/// along the run except there, and the shallow end is closed. As the down
/// shaft its landing is the shallow end: the sides are walled the whole
/// run and the deep end is closed. Either way a shaft cell opens onto the
/// room only at the landing, and the steps stay open to one another.
pub open spec fn shaft_n(sh: StairShaft, down: bool, x: int, z: int) -> bool {
    shaft_wall_n(sh, down, x, z) || end_wall_n(sh, down == sh.reversed, x, z)
}

pub open spec fn shaft_s(sh: StairShaft, down: bool, x: int, z: int) -> bool {
    shaft_wall_s(sh, down, x, z) || end_wall_s(sh, down == sh.reversed, x, z)
}

pub open spec fn shaft_e(sh: StairShaft, down: bool, x: int, z: int) -> bool {
    shaft_wall_e(sh, down, x, z) || end_wall_e(sh, down == sh.reversed, x, z)
}

pub open spec fn shaft_w(sh: StairShaft, down: bool, x: int, z: int) -> bool {
    shaft_wall_w(sh, down, x, z) || end_wall_w(sh, down == sh.reversed, x, z)
}

pub open spec fn down_wall_n(l: FloorLayout, x: int, z: int) -> bool {
    l.down_shaft matches Some(d) && shaft_n(d, true, x, z)
}

pub open spec fn down_wall_s(l: FloorLayout, x: int, z: int) -> bool {
    l.down_shaft matches Some(d) && shaft_s(d, true, x, z)
}

pub open spec fn down_wall_e(l: FloorLayout, x: int, z: int) -> bool {
    l.down_shaft matches Some(d) && shaft_e(d, true, x, z)
}

pub open spec fn down_wall_w(l: FloorLayout, x: int, z: int) -> bool {
    l.down_shaft matches Some(d) && shaft_w(d, true, x, z)
}

/// The north side of `(x, z)` is walled: a walkable cell whose northern
/// neighbour is not walkable, or a stair wall.
pub open spec fn wall_n(l: FloorLayout, x: int, z: int) -> bool {
    (l.carved_at(x, z) && !l.carved_at(x, z - 1)) || shaft_n(l.up_shaft, false, x, z) || down_wall_n(l, x, z)
}

pub open spec fn wall_s(l: FloorLayout, x: int, z: int) -> bool {
    (l.carved_at(x, z) && !l.carved_at(x, z + 1)) || shaft_s(l.up_shaft, false, x, z) || down_wall_s(l, x, z)
}

pub open spec fn wall_e(l: FloorLayout, x: int, z: int) -> bool {
    (l.carved_at(x, z) && !l.carved_at(x + 1, z)) || shaft_e(l.up_shaft, false, x, z) || down_wall_e(l, x, z)
}

pub open spec fn wall_w(l: FloorLayout, x: int, z: int) -> bool {
    (l.carved_at(x, z) && !l.carved_at(x - 1, z)) || shaft_w(l.up_shaft, false, x, z) || down_wall_w(l, x, z)
}

/// The passability byte of cell `(x, z)`.
pub open spec fn passability_cell(l: FloorLayout, x: int, z: int) -> u8 {
    edge_mask(wall_n(l, x, z), wall_e(l, x, z), wall_s(l, x, z), wall_w(l, x, z))
}

/// Shaft coordinates leave room for the rails around the run.
pub open spec fn shaft_arith_ok(sh: StairShaft) -> bool {
    &&& i32::MIN + 1 <= sh.x
    &&& sh.x + SHAFT_LEN + 1 <= i32::MAX
    &&& i32::MIN + 1 <= sh.z
    &&& sh.z + SHAFT_LEN + 1 <= i32::MAX
}

pub open spec fn layout_arith_ok(l: FloorLayout) -> bool {
    &&& shaft_arith_ok(l.up_shaft)
    &&& (l.down_shaft matches Some(d) ==> shaft_arith_ok(d))
}

/// Add wall bit `bit` to cell `(x, z)` when it is on the grid.
pub(crate) fn or_edge(cells: &mut Vec<u8>, x: i32, z: i32, bit: u8)
    requires
        old(cells)@.len() == CELLS,
    ensures
        final(cells)@.len() == CELLS,
        forall|a: int, b: int|
            in_grid(a, b) ==> #[trigger] final(cells)@[cell_index(a, b)] == if a == x && b == z {
                old(cells)@[cell_index(a, b)] | bit
            } else {
                old(cells)@[cell_index(a, b)]
            },
{
    if x >= 0 && x < GRID && z >= 0 && z < GRID {
        let idx = (x + z * GRID) as usize;
        let old_v = cells[idx];
        cells.set(idx, old_v | bit);
        assert forall|a: int, b: int| in_grid(a, b) && !(a == x && b == z) implies cell_index(a, b)
            != cell_index(x as int, z as int) by {}
    }
}

/// The rails of one shaft row `z` (along +Z) are walled in `c1`, on top of
/// what `c0` held.
pub open spec fn row_walled(c0: Seq<u8>, c1: Seq<u8>, sh: StairShaft, z: int) -> bool {
    forall|a: int, b: int|
        in_grid(a, b) ==> #[trigger] c1[cell_index(a, b)] == if b == z && (a == sh.x || a == sh.x + 2) {
            c0[cell_index(a, b)] | 8u8
        } else if b == z && (a == sh.x - 1 || a == sh.x + 1) {
            c0[cell_index(a, b)] | 2u8
        } else {
            c0[cell_index(a, b)]
        }
}

pub open spec fn col_walled(c0: Seq<u8>, c1: Seq<u8>, sh: StairShaft, x: int) -> bool {
    forall|a: int, b: int|
        in_grid(a, b) ==> #[trigger] c1[cell_index(a, b)] == if a == x && (b == sh.z || b == sh.z + 2) {
            c0[cell_index(a, b)] | 1u8
        } else if a == x && (b == sh.z - 1 || b == sh.z + 1) {
            c0[cell_index(a, b)] | 4u8
        } else {
            c0[cell_index(a, b)]
        }
}

/// `cells_match` only depends on the flags' values on the grid.
pub proof fn lemma_cells_match_ext(
    c: Seq<u8>,
    n1: spec_fn(int, int) -> bool,
    e1: spec_fn(int, int) -> bool,
    s1: spec_fn(int, int) -> bool,
    w1: spec_fn(int, int) -> bool,
    n2: spec_fn(int, int) -> bool,
    e2: spec_fn(int, int) -> bool,
    s2: spec_fn(int, int) -> bool,
    w2: spec_fn(int, int) -> bool,
)
    requires
        cells_match(c, n1, e1, s1, w1),
        forall|a: int, b: int|
            in_grid(a, b) ==> n1(a, b) == n2(a, b) && e1(a, b) == e2(a, b) && s1(a, b) == s2(a, b)
                && w1(a, b) == w2(a, b),
    ensures
        cells_match(c, n2, e2, s2, w2),
{
    assert forall|x: int, z: int| in_grid(x, z) implies #[trigger] c[cell_index(x, z)] == edge_mask(
        n2(x, z),
        e2(x, z),
        s2(x, z),
        w2(x, z),
    ) by {
        assert(c[cell_index(x, z)] == edge_mask(n1(x, z), e1(x, z), s1(x, z), w1(x, z)));
    }
}

/// Wall both sides of both rails of a shaft's run; unless `all`, leave the
/// deep landing open, where the arriving player steps sideways into the
/// room.
fn wall_shaft_sides(
    cells: &mut Vec<u8>,
    shaft: &StairShaft,
    all: bool,
    Ghost(n): Ghost<spec_fn(int, int) -> bool>,
    Ghost(e): Ghost<spec_fn(int, int) -> bool>,
    Ghost(s): Ghost<spec_fn(int, int) -> bool>,
    Ghost(w): Ghost<spec_fn(int, int) -> bool>,
)
    requires
        cells_match(old(cells)@, n, e, s, w),
        shaft_arith_ok(*shaft),
    ensures
        cells_match(
            final(cells)@,
            |a: int, b: int| n(a, b) || shaft_wall_n(*shaft, all, a, b),
            |a: int, b: int| e(a, b) || shaft_wall_e(*shaft, all, a, b),
            |a: int, b: int| s(a, b) || shaft_wall_s(*shaft, all, a, b),
            |a: int, b: int| w(a, b) || shaft_wall_w(*shaft, all, a, b),
        ),
{
    let r = shaft.rect();
    let ghost sh = *shaft;
    if shaft.along_z {
        let exit_z = if shaft.reversed { r.z } else { r.z + r.d - 1 };
        let mut z = r.z;
        while z < r.z + r.d
            invariant
                r == sh.spec_rect(),
                sh.along_z,
                shaft_arith_ok(sh),
                exit_z == (if sh.reversed { sh.z as int } else { sh.z + SHAFT_LEN - 1 }),
                r.z <= z <= r.z + r.d,
                cells_match(
                    cells@,
                    n,
                    |a: int, b: int| e(a, b) || (shaft_wall_e(sh, all, a, b) && b < z),
                    s,
                    |a: int, b: int| w(a, b) || (shaft_wall_w(sh, all, a, b) && b < z),
                ),
            decreases r.z + r.d - z,
        {
            let ghost c0 = cells@;
            if all || z != exit_z {
                or_edge(cells, r.x, z, EDGE_W);
                or_edge(cells, r.x - 1, z, EDGE_E);
                or_edge(cells, r.x + r.w - 1, z, EDGE_E);
                or_edge(cells, r.x + r.w, z, EDGE_W);
                assert(row_walled(c0, cells@, sh, z as int));
            } else {
                assert(cells@ == c0);
            }
            assert forall|a: int, b: int| in_grid(a, b) implies #[trigger] cells@[cell_index(a, b)]
                == edge_mask(
                n(a, b),
                e(a, b) || (shaft_wall_e(sh, all, a, b) && b < z + 1),
                s(a, b),
                w(a, b) || (shaft_wall_w(sh, all, a, b) && b < z + 1),
            ) by {
                let ee = e(a, b) || (shaft_wall_e(sh, all, a, b) && b < z);
                let ww = w(a, b) || (shaft_wall_w(sh, all, a, b) && b < z);
                assert(c0[cell_index(a, b)] == edge_mask(n(a, b), ee, s(a, b), ww));
                lemma_edge_mask_bits(n(a, b), ee, s(a, b), ww);
            }
            z = z + 1;
        }
        proof {
            lemma_cells_match_ext(
                cells@,
                n,
                |a: int, b: int| e(a, b) || (shaft_wall_e(sh, all, a, b) && b < z),
                s,
                |a: int, b: int| w(a, b) || (shaft_wall_w(sh, all, a, b) && b < z),
                |a: int, b: int| n(a, b) || shaft_wall_n(sh, all, a, b),
                |a: int, b: int| e(a, b) || shaft_wall_e(sh, all, a, b),
                |a: int, b: int| s(a, b) || shaft_wall_s(sh, all, a, b),
                |a: int, b: int| w(a, b) || shaft_wall_w(sh, all, a, b),
            );
        }
    } else {
        let exit_x = if shaft.reversed { r.x } else { r.x + r.w - 1 };
        let mut x = r.x;
        while x < r.x + r.w
            invariant
                r == sh.spec_rect(),
                !sh.along_z,
                shaft_arith_ok(sh),
                exit_x == (if sh.reversed { sh.x as int } else { sh.x + SHAFT_LEN - 1 }),
                r.x <= x <= r.x + r.w,
                cells_match(
                    cells@,
                    |a: int, b: int| n(a, b) || (shaft_wall_n(sh, all, a, b) && a < x),
                    e,
                    |a: int, b: int| s(a, b) || (shaft_wall_s(sh, all, a, b) && a < x),
                    w,
                ),
            decreases r.x + r.w - x,
        {
            let ghost c0 = cells@;
            if all || x != exit_x {
                or_edge(cells, x, r.z, EDGE_N);
                or_edge(cells, x, r.z - 1, EDGE_S);
                or_edge(cells, x, r.z + r.d - 1, EDGE_S);
                or_edge(cells, x, r.z + r.d, EDGE_N);
                assert(col_walled(c0, cells@, sh, x as int));
            } else {
                assert(cells@ == c0);
            }
            assert forall|a: int, b: int| in_grid(a, b) implies #[trigger] cells@[cell_index(a, b)]
                == edge_mask(
                n(a, b) || (shaft_wall_n(sh, all, a, b) && a < x + 1),
                e(a, b),
                s(a, b) || (shaft_wall_s(sh, all, a, b) && a < x + 1),
                w(a, b),
            ) by {
                let nn = n(a, b) || (shaft_wall_n(sh, all, a, b) && a < x);
                let ss = s(a, b) || (shaft_wall_s(sh, all, a, b) && a < x);
                assert(c0[cell_index(a, b)] == edge_mask(nn, e(a, b), ss, w(a, b)));
                lemma_edge_mask_bits(nn, e(a, b), ss, w(a, b));
            }
            x = x + 1;
        }
        proof {
            lemma_cells_match_ext(
                cells@,
                |a: int, b: int| n(a, b) || (shaft_wall_n(sh, all, a, b) && a < x),
                e,
                |a: int, b: int| s(a, b) || (shaft_wall_s(sh, all, a, b) && a < x),
                w,
                |a: int, b: int| n(a, b) || shaft_wall_n(sh, all, a, b),
                |a: int, b: int| e(a, b) || shaft_wall_e(sh, all, a, b),
                |a: int, b: int| s(a, b) || shaft_wall_s(sh, all, a, b),
                |a: int, b: int| w(a, b) || shaft_wall_w(sh, all, a, b),
            );
        }
    }
}

/// Wall side `side` (0 north, 1 east, 2 south, 3 west) of cell `(x, z)`.
fn wall_one(
    cells: &mut Vec<u8>,
    x: i32,
    z: i32,
    side: u8,
    Ghost(n): Ghost<spec_fn(int, int) -> bool>,
    Ghost(e): Ghost<spec_fn(int, int) -> bool>,
    Ghost(s): Ghost<spec_fn(int, int) -> bool>,
    Ghost(w): Ghost<spec_fn(int, int) -> bool>,
)
    requires
        cells_match(old(cells)@, n, e, s, w),
        side < 4,
    ensures
        cells_match(
            final(cells)@,
            |a: int, b: int| n(a, b) || (side == 0 && a == x && b == z),
            |a: int, b: int| e(a, b) || (side == 1 && a == x && b == z),
            |a: int, b: int| s(a, b) || (side == 2 && a == x && b == z),
            |a: int, b: int| w(a, b) || (side == 3 && a == x && b == z),
        ),
{
    let bit = if side == 0 {
        EDGE_N
    } else if side == 1 {
        EDGE_E
    } else if side == 2 {
        EDGE_S
    } else {
        EDGE_W
    };
    let ghost c0 = cells@;
    or_edge(cells, x, z, bit);
    assert forall|a: int, b: int| in_grid(a, b) implies #[trigger] cells@[cell_index(a, b)] == edge_mask(
        n(a, b) || (side == 0 && a == x && b == z),
        e(a, b) || (side == 1 && a == x && b == z),
        s(a, b) || (side == 2 && a == x && b == z),
        w(a, b) || (side == 3 && a == x && b == z),
    ) by {
        assert(c0[cell_index(a, b)] == edge_mask(n(a, b), e(a, b), s(a, b), w(a, b)));
        lemma_edge_mask_bits(n(a, b), e(a, b), s(a, b), w(a, b));
    }
}

/// Close one end of a shaft: its low end (`min`) or its high end.
fn wall_shaft_end(
    cells: &mut Vec<u8>,
    shaft: &StairShaft,
    min: bool,
    Ghost(n): Ghost<spec_fn(int, int) -> bool>,
    Ghost(e): Ghost<spec_fn(int, int) -> bool>,
    Ghost(s): Ghost<spec_fn(int, int) -> bool>,
    Ghost(w): Ghost<spec_fn(int, int) -> bool>,
)
    requires
        cells_match(old(cells)@, n, e, s, w),
        shaft_arith_ok(*shaft),
    ensures
        cells_match(
            final(cells)@,
            |a: int, b: int| n(a, b) || end_wall_n(*shaft, min, a, b),
            |a: int, b: int| e(a, b) || end_wall_e(*shaft, min, a, b),
            |a: int, b: int| s(a, b) || end_wall_s(*shaft, min, a, b),
            |a: int, b: int| w(a, b) || end_wall_w(*shaft, min, a, b),
        ),
{
    let ghost sh = *shaft;
    // The two end cells and the two cells beyond them, with the side each
    // gets walled.
    let (x0, z0, x1, z1, side_in, xo0, zo0, xo1, zo1, side_out): (i32, i32, i32, i32, u8, i32, i32, i32, i32, u8) =
        if shaft.along_z {
        if min {
            (shaft.x, shaft.z, shaft.x + 1, shaft.z, 0u8, shaft.x, shaft.z - 1, shaft.x + 1, shaft.z - 1, 2u8)
        } else {
            (
                shaft.x,
                shaft.z + SHAFT_LEN - 1,
                shaft.x + 1,
                shaft.z + SHAFT_LEN - 1,
                2u8,
                shaft.x,
                shaft.z + SHAFT_LEN,
                shaft.x + 1,
                shaft.z + SHAFT_LEN,
                0u8,
            )
        }
    } else {
        if min {
            (shaft.x, shaft.z, shaft.x, shaft.z + 1, 3u8, shaft.x - 1, shaft.z, shaft.x - 1, shaft.z + 1, 1u8)
        } else {
            (
                shaft.x + SHAFT_LEN - 1,
                shaft.z,
                shaft.x + SHAFT_LEN - 1,
                shaft.z + 1,
                1u8,
                shaft.x + SHAFT_LEN,
                shaft.z,
                shaft.x + SHAFT_LEN,
                shaft.z + 1,
                3u8,
            )
        }
    };
    let ghost n1 = |a: int, b: int| n(a, b) || (side_in == 0 && a == x0 && b == z0);
    let ghost e1 = |a: int, b: int| e(a, b) || (side_in == 1 && a == x0 && b == z0);
    let ghost s1 = |a: int, b: int| s(a, b) || (side_in == 2 && a == x0 && b == z0);
    let ghost w1 = |a: int, b: int| w(a, b) || (side_in == 3 && a == x0 && b == z0);
    wall_one(cells, x0, z0, side_in, Ghost(n), Ghost(e), Ghost(s), Ghost(w));
    let ghost n2 = |a: int, b: int| n1(a, b) || (side_in == 0 && a == x1 && b == z1);
    let ghost e2 = |a: int, b: int| e1(a, b) || (side_in == 1 && a == x1 && b == z1);
    let ghost s2 = |a: int, b: int| s1(a, b) || (side_in == 2 && a == x1 && b == z1);
    let ghost w2 = |a: int, b: int| w1(a, b) || (side_in == 3 && a == x1 && b == z1);
    wall_one(cells, x1, z1, side_in, Ghost(n1), Ghost(e1), Ghost(s1), Ghost(w1));
    let ghost n3 = |a: int, b: int| n2(a, b) || (side_out == 0 && a == xo0 && b == zo0);
    let ghost e3 = |a: int, b: int| e2(a, b) || (side_out == 1 && a == xo0 && b == zo0);
    let ghost s3 = |a: int, b: int| s2(a, b) || (side_out == 2 && a == xo0 && b == zo0);
    let ghost w3 = |a: int, b: int| w2(a, b) || (side_out == 3 && a == xo0 && b == zo0);
    wall_one(cells, xo0, zo0, side_out, Ghost(n2), Ghost(e2), Ghost(s2), Ghost(w2));
    wall_one(cells, xo1, zo1, side_out, Ghost(n3), Ghost(e3), Ghost(s3), Ghost(w3));
    proof {
        lemma_cells_match_ext(
            cells@,
            |a: int, b: int| n3(a, b) || (side_out == 0 && a == xo1 && b == zo1),
            |a: int, b: int| e3(a, b) || (side_out == 1 && a == xo1 && b == zo1),
            |a: int, b: int| s3(a, b) || (side_out == 2 && a == xo1 && b == zo1),
            |a: int, b: int| w3(a, b) || (side_out == 3 && a == xo1 && b == zo1),
            |a: int, b: int| n(a, b) || end_wall_n(sh, min, a, b),
            |a: int, b: int| e(a, b) || end_wall_e(sh, min, a, b),
            |a: int, b: int| s(a, b) || end_wall_s(sh, min, a, b),
            |a: int, b: int| w(a, b) || end_wall_w(sh, min, a, b),
        );
    }
}

pub open spec fn base_n(l: FloorLayout, x: int, z: int) -> bool {
    l.carved_at(x, z) && !l.carved_at(x, z - 1)
}

pub open spec fn base_s(l: FloorLayout, x: int, z: int) -> bool {
    l.carved_at(x, z) && !l.carved_at(x, z + 1)
}

pub open spec fn base_e(l: FloorLayout, x: int, z: int) -> bool {
    l.carved_at(x, z) && !l.carved_at(x + 1, z)
}

pub open spec fn base_w(l: FloorLayout, x: int, z: int) -> bool {
    l.carved_at(x, z) && !l.carved_at(x - 1, z)
}

/// Cell `(a, b)` comes before `(x, z)` in row-major order.
pub open spec fn before(a: int, b: int, x: int, z: int) -> bool {
    b < z || (b == z && a < x)
}

/// Edge-bitmask cells for one floor, derived from its walkability mask plus
/// the stair walls: side walls along each shaft's run, so descending players
/// can't step sideways off the stairs into a flush room, and a wall across
/// the far end, so a shaft opens onto the room only at this floor's landing.
pub fn floor_passability_cells(layout: &FloorLayout) -> (cells: Vec<u8>)
    requires
        layout.carved_ok(),
        layout_arith_ok(*layout),
    ensures
        cells@.len() == CELLS,
        forall|x: int, z: int|
            in_grid(x, z) ==> #[trigger] cells@[cell_index(x, z)] == passability_cell(*layout, x, z),
{
    let ghost l = *layout;
    let mut cells: Vec<u8> = vec![0u8; CELLS];
    proof {
        lemma_edge_mask_bits(false, false, false, false);
    }
    let mut z: i32 = 0;
    while z < GRID
        invariant
            0 <= z <= GRID,
            l == *layout,
            layout.carved_ok(),
            cells_match(
                cells@,
                |a: int, b: int| base_n(l, a, b) && b < z,
                |a: int, b: int| base_e(l, a, b) && b < z,
                |a: int, b: int| base_s(l, a, b) && b < z,
                |a: int, b: int| base_w(l, a, b) && b < z,
            ),
        decreases GRID - z,
    {
        let mut x: i32 = 0;
        while x < GRID
            invariant
                0 <= z < GRID,
                0 <= x <= GRID,
                l == *layout,
                layout.carved_ok(),
                cells_match(
                    cells@,
                    |a: int, b: int| base_n(l, a, b) && before(a, b, x as int, z as int),
                    |a: int, b: int| base_e(l, a, b) && before(a, b, x as int, z as int),
                    |a: int, b: int| base_s(l, a, b) && before(a, b, x as int, z as int),
                    |a: int, b: int| base_w(l, a, b) && before(a, b, x as int, z as int),
                ),
            decreases GRID - x,
        {
            let ghost c0 = cells@;
            if layout.is_carved(x, z) {
                let idx = (x + z * GRID) as usize;
                let mut m = cells[idx];
                proof {
                    assert(c0[cell_index(x as int, z as int)] == edge_mask(false, false, false, false));
                    lemma_edge_mask_bits(false, false, false, false);
                    lemma_edge_mask_bits(true, false, false, false);
                    lemma_edge_mask_bits(false, false, true, false);
                    lemma_edge_mask_bits(true, false, true, false);
                    lemma_edge_mask_bits(false, true, false, false);
                    lemma_edge_mask_bits(true, true, false, false);
                    lemma_edge_mask_bits(false, true, true, false);
                    lemma_edge_mask_bits(true, true, true, false);
                }
                let bn = !layout.is_carved(x, z - 1);
                let bs = !layout.is_carved(x, z + 1);
                let be = !layout.is_carved(x + 1, z);
                let bw = !layout.is_carved(x - 1, z);
                if bn {
                    m = m | EDGE_N;
                }
                if bs {
                    m = m | EDGE_S;
                }
                if be {
                    m = m | EDGE_E;
                }
                if bw {
                    m = m | EDGE_W;
                }
                assert(m == edge_mask(bn, be, bs, bw));
                cells.set(idx, m);
            }
            assert forall|a: int, b: int| in_grid(a, b) implies #[trigger] cells@[cell_index(a, b)]
                == edge_mask(
                base_n(l, a, b) && before(a, b, x + 1, z as int),
                base_e(l, a, b) && before(a, b, x + 1, z as int),
                base_s(l, a, b) && before(a, b, x + 1, z as int),
                base_w(l, a, b) && before(a, b, x + 1, z as int),
            ) by {
                if !(a == x && b == z) {
                    assert(cell_index(a, b) != cell_index(x as int, z as int));
                    assert(c0[cell_index(a, b)] == edge_mask(
                        base_n(l, a, b) && before(a, b, x as int, z as int),
                        base_e(l, a, b) && before(a, b, x as int, z as int),
                        base_s(l, a, b) && before(a, b, x as int, z as int),
                        base_w(l, a, b) && before(a, b, x as int, z as int),
                    ));
                } else {
                    assert(c0[cell_index(a, b)] == edge_mask(false, false, false, false));
                }
            }
            x = x + 1;
        }
        proof {
            lemma_cells_match_ext(
                cells@,
                |a: int, b: int| base_n(l, a, b) && before(a, b, GRID as int, z as int),
                |a: int, b: int| base_e(l, a, b) && before(a, b, GRID as int, z as int),
                |a: int, b: int| base_s(l, a, b) && before(a, b, GRID as int, z as int),
                |a: int, b: int| base_w(l, a, b) && before(a, b, GRID as int, z as int),
                |a: int, b: int| base_n(l, a, b) && b < z + 1,
                |a: int, b: int| base_e(l, a, b) && b < z + 1,
                |a: int, b: int| base_s(l, a, b) && b < z + 1,
                |a: int, b: int| base_w(l, a, b) && b < z + 1,
            );
        }
        z = z + 1;
    }
    let ghost fnb = |a: int, b: int| base_n(l, a, b) && b < GRID;
    let ghost feb = |a: int, b: int| base_e(l, a, b) && b < GRID;
    let ghost fsb = |a: int, b: int| base_s(l, a, b) && b < GRID;
    let ghost fwb = |a: int, b: int| base_w(l, a, b) && b < GRID;
    wall_shaft_sides(&mut cells, &layout.up_shaft, false, Ghost(fnb), Ghost(feb), Ghost(fsb), Ghost(fwb));
    let ghost fn1 = |a: int, b: int| fnb(a, b) || shaft_wall_n(l.up_shaft, false, a, b);
    let ghost fe1 = |a: int, b: int| feb(a, b) || shaft_wall_e(l.up_shaft, false, a, b);
    let ghost fs1 = |a: int, b: int| fsb(a, b) || shaft_wall_s(l.up_shaft, false, a, b);
    let ghost fw1 = |a: int, b: int| fwb(a, b) || shaft_wall_w(l.up_shaft, false, a, b);
    let up_min = !layout.up_shaft.reversed;
    wall_shaft_end(&mut cells, &layout.up_shaft, up_min, Ghost(fn1), Ghost(fe1), Ghost(fs1), Ghost(fw1));
    let ghost fn2 = |a: int, b: int| fn1(a, b) || end_wall_n(l.up_shaft, up_min, a, b);
    let ghost fe2 = |a: int, b: int| fe1(a, b) || end_wall_e(l.up_shaft, up_min, a, b);
    let ghost fs2 = |a: int, b: int| fs1(a, b) || end_wall_s(l.up_shaft, up_min, a, b);
    let ghost fw2 = |a: int, b: int| fw1(a, b) || end_wall_w(l.up_shaft, up_min, a, b);
    if let Some(ref down) = layout.down_shaft {
        wall_shaft_sides(&mut cells, down, true, Ghost(fn2), Ghost(fe2), Ghost(fs2), Ghost(fw2));
        let ghost fn3 = |a: int, b: int| fn2(a, b) || shaft_wall_n(*down, true, a, b);
        let ghost fe3 = |a: int, b: int| fe2(a, b) || shaft_wall_e(*down, true, a, b);
        let ghost fs3 = |a: int, b: int| fs2(a, b) || shaft_wall_s(*down, true, a, b);
        let ghost fw3 = |a: int, b: int| fw2(a, b) || shaft_wall_w(*down, true, a, b);
        let down_min = down.reversed;
        wall_shaft_end(&mut cells, down, down_min, Ghost(fn3), Ghost(fe3), Ghost(fs3), Ghost(fw3));
        proof {
            lemma_cells_match_ext(
                cells@,
                |a: int, b: int| fn3(a, b) || end_wall_n(*down, down_min, a, b),
                |a: int, b: int| fe3(a, b) || end_wall_e(*down, down_min, a, b),
                |a: int, b: int| fs3(a, b) || end_wall_s(*down, down_min, a, b),
                |a: int, b: int| fw3(a, b) || end_wall_w(*down, down_min, a, b),
                |a: int, b: int| wall_n(l, a, b),
                |a: int, b: int| wall_e(l, a, b),
                |a: int, b: int| wall_s(l, a, b),
                |a: int, b: int| wall_w(l, a, b),
            );
        }
    } else {
        proof {
            lemma_cells_match_ext(
                cells@,
                fn2,
                fe2,
                fs2,
                fw2,
                |a: int, b: int| wall_n(l, a, b),
                |a: int, b: int| wall_e(l, a, b),
                |a: int, b: int| wall_s(l, a, b),
                |a: int, b: int| wall_w(l, a, b),
            );
        }
    }
    cells
}

/// `b` is one of the four neighbours of `a`.
pub open spec fn adjacent(a: (int, int), b: (int, int)) -> bool {
    (a.0 == b.0 && (b.1 == a.1 - 1 || b.1 == a.1 + 1)) || (a.1 == b.1 && (b.0 == a.0 - 1 || b.0 == a.0 + 1))
}

/// Neither the side `a` leaves by nor the side `b` is entered by is walled.
pub open spec fn crossing_open(l: FloorLayout, a: (int, int), b: (int, int)) -> bool {
    ||| (b.0 == a.0 && b.1 == a.1 - 1 && !wall_n(l, a.0, a.1) && !wall_s(l, b.0, b.1))
    ||| (b.0 == a.0 && b.1 == a.1 + 1 && !wall_s(l, a.0, a.1) && !wall_n(l, b.0, b.1))
    ||| (b.0 == a.0 + 1 && b.1 == a.1 && !wall_e(l, a.0, a.1) && !wall_w(l, b.0, b.1))
    ||| (b.0 == a.0 - 1 && b.1 == a.1 && !wall_w(l, a.0, a.1) && !wall_e(l, b.0, b.1))
}

/// Cell `c` of shaft `sh` lies in the row (or column) across the run at
/// step `i`.
pub open spec fn on_step_row(sh: StairShaft, i: int, c: (int, int)) -> bool {
    let p = sh.spec_step_cell(i, 0);
    if sh.along_z { c.1 == p.1 } else { c.0 == p.0 }
}

/// A shaft opens onto the cells around it only at this floor's landing:
/// leaving the up shaft's footprint is walled everywhere but from its deep
/// landing row, and leaving the down shaft's footprint everywhere but from
/// its shallow landing row. So same-floor paths never cut across the stairs.
pub proof fn lemma_shafts_open_only_at_landings(l: FloorLayout, a: (int, int), b: (int, int))
    requires
        adjacent(a, b),
    ensures
        l.up_shaft.has_cell(a.0, a.1) && !l.up_shaft.has_cell(b.0, b.1) && !on_step_row(
            l.up_shaft,
            SHAFT_LEN - 1,
            a,
        ) ==> !crossing_open(l, a, b),
        (l.down_shaft matches Some(d) && d.has_cell(a.0, a.1) && !d.has_cell(b.0, b.1) && !on_step_row(d, 0, a))
            ==> !crossing_open(l, a, b),
{
}

/// Along the run the steps stay open to one another: from the up shaft's
/// exit landing to the step just above it nothing is walled, when both are
/// carved and the down shaft's walls keep their distance.
pub proof fn lemma_exit_meets_last_step(l: FloorLayout)
    requires
        l.carved_at(l.up_shaft.spec_step_cell(SHAFT_LEN - 1, 0).0, l.up_shaft.spec_step_cell(SHAFT_LEN - 1, 0).1),
        l.carved_at(l.up_shaft.spec_step_cell(SHAFT_LEN - 2, 0).0, l.up_shaft.spec_step_cell(SHAFT_LEN - 2, 0).1),
        l.down_shaft matches Some(d) ==> !(Room {
            x: (d.x - 1) as i32,
            z: (d.z - 1) as i32,
            w: (d.spec_rect().w + 2) as i32,
            d: (d.spec_rect().d + 2) as i32,
        }).overlaps(l.up_shaft.spec_rect()),
    ensures
        crossing_open(l, l.up_shaft.spec_step_cell(SHAFT_LEN - 1, 0), l.up_shaft.spec_step_cell(SHAFT_LEN - 2, 0)),
{
}

/// `cells` are the passability cells of `l`, as `floor_passability_cells`
/// builds them.
pub open spec fn cells_of(cells: Seq<u8>, l: FloorLayout) -> bool {
    &&& cells.len() == CELLS
    &&& forall|x: int, z: int|
        in_grid(x, z) ==> #[trigger] cells[cell_index(x, z)] == passability_cell(l, x, z)
}

/// The edge bits of `cells` close the crossing from `a` into its neighbour
/// `b`: the side `a` is left by, or the side `b` is entered by, is walled.
pub open spec fn crossing_blocked(cells: Seq<u8>, a: (int, int), b: (int, int)) -> bool {
    let ca = cells[cell_index(a.0, a.1)];
    let cb = cells[cell_index(b.0, b.1)];
    ||| (b.0 == a.0 && b.1 == a.1 - 1 && (ca & EDGE_N != 0 || cb & EDGE_S != 0))
    ||| (b.0 == a.0 && b.1 == a.1 + 1 && (ca & EDGE_S != 0 || cb & EDGE_N != 0))
    ||| (b.0 == a.0 + 1 && b.1 == a.1 && (ca & EDGE_E != 0 || cb & EDGE_W != 0))
    ||| (b.0 == a.0 - 1 && b.1 == a.1 && (ca & EDGE_W != 0 || cb & EDGE_E != 0))
}

/// Cell `c` is a landing of this floor: a cell of the up shaft's deep step
/// or of the down shaft's shallow step.
pub open spec fn is_landing(l: FloorLayout, c: (int, int)) -> bool {
    exists|w: int|
        #![trigger l.up_shaft.spec_step_cell(SHAFT_LEN - 1, w)]
        0 <= w < SHAFT_W && (c == l.up_shaft.spec_step_cell(SHAFT_LEN - 1, w) || (l.down_shaft matches Some(d)
            && c == d.spec_step_cell(0, w)))
}

/// Between two in-grid neighbours, the crossing is blocked in the cells
/// exactly when it is not open in the walls they are built from.
proof fn lemma_blocked_is_not_open(l: FloorLayout, cells: Seq<u8>, a: (int, int), b: (int, int))
    requires
        cells_of(cells, l),
        adjacent(a, b),
        in_grid(a.0, a.1),
        in_grid(b.0, b.1),
    ensures
        crossing_blocked(cells, a, b) == !crossing_open(l, a, b),
{
    assert(cells[cell_index(a.0, a.1)] == passability_cell(l, a.0, a.1));
    assert(cells[cell_index(b.0, b.1)] == passability_cell(l, b.0, b.1));
    lemma_edge_mask_bits(wall_n(l, a.0, a.1), wall_e(l, a.0, a.1), wall_s(l, a.0, a.1), wall_w(l, a.0, a.1));
    lemma_edge_mask_bits(wall_n(l, b.0, b.1), wall_e(l, b.0, b.1), wall_s(l, b.0, b.1), wall_w(l, b.0, b.1));
}

/// In the passability cells of any floor, a crossing out of a shaft's
/// footprint into an in-grid cell outside that footprint is closed by an
/// edge bit unless it leaves from a landing of this floor.
pub proof fn lemma_shaft_crossings_blocked(l: FloorLayout, cells: Seq<u8>, a: (int, int), b: (int, int))
    requires
        cells_of(cells, l),
        adjacent(a, b),
        in_grid(a.0, a.1),
        in_grid(b.0, b.1),
        !is_landing(l, a),
    ensures
        l.up_shaft.has_cell(a.0, a.1) && !l.up_shaft.has_cell(b.0, b.1) ==> crossing_blocked(cells, a, b),
        (l.down_shaft matches Some(d) && d.has_cell(a.0, a.1) && !d.has_cell(b.0, b.1)) ==> crossing_blocked(
            cells,
            a,
            b,
        ),
{
    lemma_blocked_is_not_open(l, cells, a, b);
    lemma_shafts_open_only_at_landings(l, a, b);
    let u = l.up_shaft;
    if u.has_cell(a.0, a.1) && on_step_row(u, SHAFT_LEN - 1, a) {
        let w = if u.along_z { a.0 - u.x } else { a.1 - u.z };
        assert(a == u.spec_step_cell(SHAFT_LEN - 1, w));
        assert(is_landing(l, a));
    }
    if let Some(d) = l.down_shaft {
        if d.has_cell(a.0, a.1) && on_step_row(d, 0, a) {
            let w = if d.along_z { a.0 - d.x } else { a.1 - d.z };
            assert(a == d.spec_step_cell(0, w));
            // The landing's lateral offset `w` is the witness.
            assert(0 <= w < SHAFT_W && a == d.spec_step_cell(0, w) && l.up_shaft.spec_step_cell(SHAFT_LEN - 1, w)
                == l.up_shaft.spec_step_cell(SHAFT_LEN - 1, w));
            assert(is_landing(l, a));
        }
    }
}

/// In the passability cells, the up shaft's exit landing is open to the
/// step just above it, when both are carved and the down shaft, grown by a
/// cell, keeps off the up shaft.
pub proof fn lemma_exit_cells_open(l: FloorLayout, cells: Seq<u8>)
    requires
        cells_of(cells, l),
        in_grid(l.up_shaft.spec_exit_cell().0, l.up_shaft.spec_exit_cell().1),
        in_grid(l.up_shaft.spec_step_cell(SHAFT_LEN - 2, 0).0, l.up_shaft.spec_step_cell(SHAFT_LEN - 2, 0).1),
        l.carved_at(l.up_shaft.spec_step_cell(SHAFT_LEN - 1, 0).0, l.up_shaft.spec_step_cell(SHAFT_LEN - 1, 0).1),
        l.carved_at(l.up_shaft.spec_step_cell(SHAFT_LEN - 2, 0).0, l.up_shaft.spec_step_cell(SHAFT_LEN - 2, 0).1),
        l.down_shaft matches Some(d) ==> !(Room {
            x: (d.x - 1) as i32,
            z: (d.z - 1) as i32,
            w: (d.spec_rect().w + 2) as i32,
            d: (d.spec_rect().d + 2) as i32,
        }).overlaps(l.up_shaft.spec_rect()),
    ensures
        !crossing_blocked(cells, l.up_shaft.spec_exit_cell(), l.up_shaft.spec_step_cell(SHAFT_LEN - 2, 0)),
{
    let a = l.up_shaft.spec_exit_cell();
    let b = l.up_shaft.spec_step_cell(SHAFT_LEN - 2, 0);
    lemma_exit_meets_last_step(l);
    lemma_blocked_is_not_open(l, cells, a, b);
}

} // verus!
