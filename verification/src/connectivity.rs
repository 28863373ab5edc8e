//! Edge-aware reachability on one dungeon floor, from the arrival landing.
//! Moves follow the same edge bitmasks real collision uses, and stair-shaft
//! cells other than this floor's own landing rows are off limits (they are
//! only traversable vertically).
use vstd::prelude::*;
use std::collections::VecDeque;
use crate::dungeon::{FloorLayout, GRID, CELLS, in_grid, cell_index};
use crate::floor_cells::{floor_passability_cells, passability_cell, wall_n, wall_s, wall_e, wall_w, layout_arith_ok, lemma_edge_mask_bits};

verus! {

/// Cell `(x, z)` is a stair cell this floor cannot walk onto: any cell of
/// the up shaft off its exit row, any cell of the down shaft off its entry
/// row.
pub open spec fn shaft_interior(l: FloorLayout, x: int, z: int) -> bool {
    let exit = l.up_shaft.spec_exit_cell();
    ||| (l.up_shaft.has_cell(x, z) && !(if l.up_shaft.along_z { z == exit.1 } else { x == exit.0 }))
    ||| (l.down_shaft matches Some(d) && d.has_cell(x, z) && !(if d.along_z {
        z == d.spec_entry_cell().1
    } else {
        x == d.spec_entry_cell().0
    }))
}

/// One cardinal move from `a` to `b` that collision allows.
pub open spec fn step_ok(l: FloorLayout, a: (int, int), b: (int, int)) -> bool {
    &&& l.carved_at(b.0, b.1)
    &&& !shaft_interior(l, b.0, b.1)
    &&& {
        ||| (b.0 == a.0 && b.1 == a.1 - 1 && !wall_n(l, a.0, a.1) && !wall_s(l, b.0, b.1))
        ||| (b.0 == a.0 && b.1 == a.1 + 1 && !wall_s(l, a.0, a.1) && !wall_n(l, b.0, b.1))
        ||| (b.0 == a.0 + 1 && b.1 == a.1 && !wall_e(l, a.0, a.1) && !wall_w(l, b.0, b.1))
        ||| (b.0 == a.0 - 1 && b.1 == a.1 && !wall_w(l, a.0, a.1) && !wall_e(l, b.0, b.1))
    }
}

/// A walk: consecutive cells are joined by allowed moves.
pub open spec fn is_walk(l: FloorLayout, p: Seq<(int, int)>) -> bool {
    &&& p.len() >= 1
    &&& forall|i: int| 0 <= i < p.len() - 1 ==> step_ok(l, #[trigger] p[i], p[i + 1])
}

/// `to` can be walked to from `from`.
pub open spec fn reachable(l: FloorLayout, from: (int, int), to: (int, int)) -> bool {
    exists|p: Seq<(int, int)>| is_walk(l, p) && p[0] == from && #[trigger] p.last() == to
}

/// Every room center, the down shaft's entry landing and the chest can be
/// walked to from the arrival landing.
pub open spec fn floor_connected(l: FloorLayout) -> bool {
    let s = l.up_shaft.spec_exit_cell();
    &&& forall|i: int| 0 <= i < l.rooms@.len() ==> reachable(l, s, #[trigger] l.rooms@[i].spec_center())
    &&& (l.down_shaft matches Some(d) ==> reachable(l, s, d.spec_entry_cell()))
    &&& (l.chest matches Some(c) ==> reachable(l, s, (c.0 as int, c.1 as int)))
}

/// The `k`-th neighbour of `u`, in the order north, south, east, west.
pub open spec fn nb(u: (int, int), k: int) -> (int, int) {
    if k == 0 {
        (u.0, u.1 - 1)
    } else if k == 1 {
        (u.0, u.1 + 1)
    } else if k == 2 {
        (u.0 + 1, u.1)
    } else {
        (u.0 - 1, u.1)
    }
}

/// Cell `c` is on the grid and marked in `vis`.
pub open spec fn vis_at(vis: Seq<bool>, c: (int, int)) -> bool {
    in_grid(c.0, c.1) && vis[cell_index(c.0, c.1)]
}

/// Every allowed move out of `u` among its first `k` neighbours lands on a
/// marked cell.
pub open spec fn closed_upto(l: FloorLayout, vis: Seq<bool>, u: (int, int), k: int) -> bool {
    forall|j: int| 0 <= j < k ==> step_ok(l, u, #[trigger] nb(u, j)) ==> vis_at(vis, nb(u, j))
}

pub open spec fn in_queue(q: Seq<(i32, i32)>, c: (int, int)) -> bool {
    exists|i: int| 0 <= i < q.len() && (#[trigger] q[i]).0 == c.0 && q[i].1 == c.1
}

pub proof fn lemma_extend_walk(l: FloorLayout, p: Seq<(int, int)>, b: (int, int))
    requires
        is_walk(l, p),
        step_ok(l, p.last(), b),
    ensures
        is_walk(l, p.push(b)),
        p.push(b)[0] == p[0],
        p.push(b).last() == b,
{
    let q = p.push(b);
    assert forall|i: int| 0 <= i < q.len() - 1 implies step_ok(l, #[trigger] q[i], q[i + 1]) by {
        if i < p.len() - 1 {
            assert(q[i] == p[i] && q[i + 1] == p[i + 1]);
        } else {
            assert(q[i] == p.last());
        }
    }
}

/// In a marking closed under allowed moves, every walk from a marked cell
/// stays marked.
pub proof fn lemma_closed_walk(l: FloorLayout, vis: Seq<bool>, p: Seq<(int, int)>, i: int)
    requires
        is_walk(l, p),
        vis_at(vis, p[0]),
        forall|x: int, z: int| #![trigger vis[cell_index(x, z)]] in_grid(x, z) && vis[cell_index(x, z)] ==> closed_upto(l, vis, (x, z), 4),
        0 <= i < p.len(),
    ensures
        vis_at(vis, p[i]),
    decreases i,
{
    if i > 0 {
        lemma_closed_walk(l, vis, p, i - 1);
        let u = p[i - 1];
        assert(step_ok(l, p[i - 1], p[i]));
        assert(vis[cell_index(u.0, u.1)]);
        assert(closed_upto(l, vis, u, 4));
        if p[i] == nb(u, 0) {
        } else if p[i] == nb(u, 1) {
        } else if p[i] == nb(u, 2) {
        } else {
            assert(p[i] == nb(u, 3));
        }
    }
}

/// Edge-aware reachability check from the up-shaft exit landing: every room
/// center, the down-shaft entry and the chest must be reachable.
pub fn floor_is_connected(layout: &FloorLayout) -> (r: bool)
    requires
        layout.carved_ok(),
        layout_arith_ok(*layout),
        in_grid(layout.up_shaft.spec_exit_cell().0, layout.up_shaft.spec_exit_cell().1),
        forall|i: int| 0 <= i < layout.rooms@.len() ==> {
            let c = (#[trigger] layout.rooms@[i]).spec_center();
            in_grid(c.0, c.1)
        },
        layout.down_shaft matches Some(d) ==> in_grid(d.spec_entry_cell().0, d.spec_entry_cell().1),
        layout.chest matches Some(c) ==> in_grid(c.0 as int, c.1 as int),
    ensures
        r == floor_connected(*layout),
{
    let ghost l = *layout;
    let cells = floor_passability_cells(layout);
    let start = layout.up_shaft.exit_cell();
    let ghost s = (start.0 as int, start.1 as int);
    let mut visited: Vec<bool> = vec![false; CELLS];
    let mut queue: VecDeque<(i32, i32)> = VecDeque::new();
    let ghost mut marked: Set<int> = Set::empty();
    visited.set((start.0 + start.1 * GRID) as usize, true);
    queue.push_back(start);
    proof {
        marked = marked.insert(cell_index(s.0, s.1));
        let p = seq![s];
        assert(is_walk(l, p));
        assert(p.last() == s);
        assert forall|x: int, z: int| in_grid(x, z) && #[trigger] visited@[cell_index(x, z)] implies x == s.0 && z == s.1 by {
            if !(x == s.0 && z == s.1) {
                assert(cell_index(x, z) != cell_index(s.0, s.1));
            }
        }
        assert(queue@[0] == start);
    }
    while queue.len() > 0
        invariant
            l == *layout,
            layout.carved_ok(),
            layout_arith_ok(l),
            in_grid(layout.up_shaft.spec_exit_cell().0, layout.up_shaft.spec_exit_cell().1),
            layout.down_shaft matches Some(d) ==> in_grid(d.spec_entry_cell().0, d.spec_entry_cell().1),
            cells@.len() == CELLS,
            forall|x: int, z: int| in_grid(x, z) ==> #[trigger] cells@[cell_index(x, z)] == passability_cell(l, x, z),
            s == l.up_shaft.spec_exit_cell(),
            in_grid(s.0, s.1),
            visited@.len() == CELLS,
            marked.finite(),
            forall|i: int| #[trigger] marked.contains(i) ==> 0 <= i < CELLS,
            forall|i: int| 0 <= i < CELLS ==> (#[trigger] visited@[i] <==> marked.contains(i)),
            vis_at(visited@, s),
            forall|i: int| 0 <= i < queue@.len() ==> vis_at(visited@, ((#[trigger] queue@[i]).0 as int, queue@[i].1 as int)),
            forall|x: int, z: int| in_grid(x, z) && #[trigger] visited@[cell_index(x, z)] ==> reachable(l, s, (x, z)),
            forall|x: int, z: int| in_grid(x, z) && #[trigger] visited@[cell_index(x, z)] ==> in_queue(queue@, (x, z)) || closed_upto(l, visited@, (x, z), 4),
        decreases CELLS - marked.len() + queue@.len(),
    {
        proof {
            vstd::set_lib::lemma_int_range(0, CELLS as int);
            vstd::set_lib::lemma_len_subset(marked, vstd::set_lib::set_int_range(0, CELLS as int));
        }
        let ghost q0 = queue@;
        let ghost v0 = visited@;
        let ghost m0 = marked;
        let (x, z) = queue.pop_front().unwrap();
        let ghost u = (x as int, z as int);
        assert(vis_at(v0, u));
        assert(v0[cell_index(u.0, u.1)]);
        assert(reachable(l, s, u));
        proof {
            reveal(inner_inv);
        }
        let mut k: i32 = 0;
        while k < 4
            invariant
                l == *layout,
                layout.carved_ok(),
                layout_arith_ok(l),
                in_grid(layout.up_shaft.spec_exit_cell().0, layout.up_shaft.spec_exit_cell().1),
                layout.down_shaft matches Some(d) ==> in_grid(d.spec_entry_cell().0, d.spec_entry_cell().1),
                cells@.len() == CELLS,
                forall|a: int, b: int| in_grid(a, b) ==> #[trigger] cells@[cell_index(a, b)] == passability_cell(l, a, b),
                s == l.up_shaft.spec_exit_cell(),
                in_grid(x as int, z as int),
                u == (x as int, z as int),
                0 <= k <= 4,
                visited@.len() == CELLS,
                reachable(l, s, u),
                inner_inv(l, s, u, k as int, visited@, queue@, marked, v0, m0, q0),
            decreases 4 - k,
        {
            let ghost vb = visited@;
            let ghost qb = queue@;
            let ghost mb = marked;
            let pushed = visit_neighbor(layout, &cells, &mut visited, &mut queue, x, z, k, Ghost(s));
            proof {
                let n = nb(u, k as int);
                if pushed {
                    marked = marked.insert(cell_index(n.0, n.1));
                }
                lemma_visit_step(l, s, u, k as int, vb, qb, mb, visited@, queue@, marked, v0, m0, q0, pushed);
            }
            k = k + 1;
        }
        proof {
            reveal(inner_inv);
        }
        proof {
            assert forall|a: int, b: int| in_grid(a, b) && #[trigger] visited@[cell_index(a, b)] implies in_queue(queue@, (a, b)) || closed_upto(l, visited@, (a, b), 4) by {
                if a == u.0 && b == u.1 {
                } else if v0[cell_index(a, b)] {
                    if in_queue(q0, (a, b)) {
                        let i = choose|i: int| 0 <= i < q0.len() && (#[trigger] q0[i]).0 == a && q0[i].1 == b;
                        assert(i != 0);
                        assert(queue@[i - 1] == q0[i]);
                    } else {
                        assert(closed_upto(l, v0, (a, b), 4));
                        assert forall|j: int| 0 <= j < 4 implies step_ok(l, (a, b), #[trigger] nb((a, b), j)) ==> vis_at(visited@, nb((a, b), j)) by {
                            let c = nb((a, b), j);
                            if step_ok(l, (a, b), c) {
                                assert(vis_at(v0, c));
                            }
                        }
                    }
                } else {
                    assert(in_queue(queue@, (a, b)));
                }
            }
        }
    }
    proof {
        assert forall|x: int, z: int| #![trigger visited@[cell_index(x, z)]] in_grid(x, z) && visited@[cell_index(x, z)] implies closed_upto(l, visited@, (x, z), 4) by {
            assert(!in_queue(queue@, (x, z)));
        }
    }
    let mut ok = true;
    proof {
        assert forall|c: (int, int)| in_grid(c.0, c.1) implies (vis_at(visited@, c) <==> reachable(l, s, c)) by {
            if reachable(l, s, c) {
                let p = choose|p: Seq<(int, int)>| is_walk(l, p) && p[0] == s && #[trigger] p.last() == c;
                lemma_closed_walk(l, visited@, p, p.len() - 1);
            }
        }
    }
    let mut i: usize = 0;
    while i < layout.rooms.len()
        invariant
            l == *layout,
            0 <= i <= l.rooms@.len(),
            visited@.len() == CELLS,
            forall|c: (int, int)| in_grid(c.0, c.1) ==> (vis_at(visited@, c) <==> reachable(l, s, c)),
            forall|j: int| 0 <= j < l.rooms@.len() ==> {
                let c = (#[trigger] l.rooms@[j]).spec_center();
                in_grid(c.0, c.1)
            },
            ok == forall|j: int| 0 <= j < i ==> reachable(l, s, #[trigger] l.rooms@[j].spec_center()),
        decreases l.rooms@.len() - i,
    {
        let c = layout.rooms[i].center();
        if !visited[(c.0 + c.1 * GRID) as usize] {
            ok = false;
        }
        proof {
            assert(vis_at(visited@, l.rooms@[i as int].spec_center()) == visited@[(c.0 + c.1 * GRID) as int]);
        }
        i = i + 1;
    }
    if let Some(ref down) = layout.down_shaft {
        let e = down.entry_cell();
        if !visited[(e.0 + e.1 * GRID) as usize] {
            ok = false;
        }
    }
    if let Some(c) = layout.chest {
        if !visited[(c.0 + c.1 * GRID) as usize] {
            ok = false;
        }
    }
    ok
}

/// What holds between expanding the popped cell `u`'s neighbours `k` and
/// `k + 1`, relative to the state before `u` was popped (`v0`, `m0`, `q0`).
#[verifier::opaque]
pub open spec fn inner_inv(
    l: FloorLayout,
    s: (int, int),
    u: (int, int),
    k: int,
    vis: Seq<bool>,
    q: Seq<(i32, i32)>,
    marked: Set<int>,
    v0: Seq<bool>,
    m0: Set<int>,
    q0: Seq<(i32, i32)>,
) -> bool {
    &&& vis.len() == CELLS
    &&& marked.finite()
    &&& forall|i: int| #[trigger] marked.contains(i) ==> 0 <= i < CELLS
    &&& forall|i: int| 0 <= i < CELLS ==> (#[trigger] vis[i] <==> marked.contains(i))
    &&& m0.subset_of(marked)
    &&& marked.len() - m0.len() == q.len() - (q0.len() - 1)
    &&& q.len() >= q0.len() - 1
    &&& forall|i: int| 0 <= i < q0.len() - 1 ==> q[i] == q0[i + 1]
    &&& forall|i: int| 0 <= i < q.len() ==> vis_at(vis, ((#[trigger] q[i]).0 as int, q[i].1 as int))
    &&& forall|i: int| 0 <= i < CELLS ==> #[trigger] v0[i] ==> vis[i]
    &&& forall|a: int, b: int| in_grid(a, b) && #[trigger] vis[cell_index(a, b)] ==> reachable(l, s, (a, b))
    &&& closed_upto(l, vis, u, k)
    &&& forall|a: int, b: int| in_grid(a, b) && #[trigger] vis[cell_index(a, b)] && !v0[cell_index(a, b)] ==> in_queue(q, (a, b))
}

proof fn lemma_visit_step(
    l: FloorLayout,
    s: (int, int),
    u: (int, int),
    k: int,
    vb: Seq<bool>,
    qb: Seq<(i32, i32)>,
    mb: Set<int>,
    vis: Seq<bool>,
    q: Seq<(i32, i32)>,
    marked: Set<int>,
    v0: Seq<bool>,
    m0: Set<int>,
    q0: Seq<(i32, i32)>,
    pushed: bool,
)
    requires
        0 <= k < 4,
        inner_inv(l, s, u, k, vb, qb, mb, v0, m0, q0),
        ({
            let n = nb(u, k);
            &&& pushed ==> {
                &&& in_grid(n.0, n.1)
                &&& !vb[cell_index(n.0, n.1)]
                &&& vis == vb.update(cell_index(n.0, n.1), true)
                &&& q == qb.push((n.0 as i32, n.1 as i32))
                &&& reachable(l, s, n)
                &&& marked == mb.insert(cell_index(n.0, n.1))
            }
            &&& !pushed ==> vis == vb && q == qb && marked == mb
            &&& step_ok(l, u, n) ==> vis_at(vis, n)
        }),
    ensures
        inner_inv(l, s, u, k + 1, vis, q, marked, v0, m0, q0),
{
    reveal(inner_inv);
    let n = nb(u, k);
    if pushed {
        let ni = cell_index(n.0, n.1);
        assert(!mb.contains(ni));
        assert forall|i: int| 0 <= i < CELLS implies (#[trigger] vis[i] <==> marked.contains(i)) by {
            if i != ni {
                assert(vis[i] == vb[i]);
            }
        }
        assert forall|i: int| 0 <= i < q.len() implies vis_at(vis, ((#[trigger] q[i]).0 as int, q[i].1 as int)) by {
            if i < qb.len() {
                assert(q[i] == qb[i]);
                let c = (qb[i].0 as int, qb[i].1 as int);
                assert(vis_at(vb, c));
                assert(cell_index(c.0, c.1) == ni || vis[cell_index(c.0, c.1)] == vb[cell_index(c.0, c.1)]);
            } else {
                assert(q[i] == (n.0 as i32, n.1 as i32));
            }
        }
        assert forall|a: int, b: int| in_grid(a, b) && #[trigger] vis[cell_index(a, b)] && !v0[cell_index(a, b)] implies in_queue(q, (a, b)) by {
            if a == n.0 && b == n.1 {
                assert(q[qb.len() as int].0 == a && q[qb.len() as int].1 == b);
            } else {
                assert(cell_index(a, b) != ni);
                assert(vb[cell_index(a, b)]);
                assert(in_queue(qb, (a, b)));
                let i = choose|i: int| 0 <= i < qb.len() && (#[trigger] qb[i]).0 == a && qb[i].1 == b;
                assert(q[i] == qb[i]);
            }
        }
        assert forall|i: int| 0 <= i < q0.len() - 1 implies q[i] == q0[i + 1] by {
            assert(q[i] == qb[i]);
        }
        assert forall|a: int, b: int| in_grid(a, b) && #[trigger] vis[cell_index(a, b)] implies reachable(l, s, (a, b)) by {
            if !(a == n.0 && b == n.1) {
                assert(cell_index(a, b) != ni);
                assert(vb[cell_index(a, b)]);
            }
        }
        assert forall|i: int| 0 <= i < CELLS implies #[trigger] v0[i] ==> vis[i] by {
            if v0[i] {
                assert(vb[i]);
            }
        }
    }
    assert forall|j: int| 0 <= j < k + 1 implies step_ok(l, u, #[trigger] nb(u, j)) ==> vis_at(vis, nb(u, j)) by {
        if j < k {
            let c = nb(u, j);
            if step_ok(l, u, c) {
                assert(vis_at(vb, c));
                if pushed {
                    assert(cell_index(c.0, c.1) == cell_index(n.0, n.1) || vis[cell_index(c.0, c.1)] == vb[cell_index(c.0, c.1)]);
                }
            }
        }
    }
}

/// Look at the `k`-th neighbour of `(x, z)`: when it is an allowed,
/// unmarked move, mark it and queue it.
fn visit_neighbor(
    layout: &FloorLayout,
    cells: &Vec<u8>,
    visited: &mut Vec<bool>,
    queue: &mut VecDeque<(i32, i32)>,
    x: i32,
    z: i32,
    k: i32,
    Ghost(s): Ghost<(int, int)>,
) -> (pushed: bool)
    requires
        layout.carved_ok(),
        layout_arith_ok(*layout),
        in_grid(layout.up_shaft.spec_exit_cell().0, layout.up_shaft.spec_exit_cell().1),
        layout.down_shaft matches Some(d) ==> in_grid(d.spec_entry_cell().0, d.spec_entry_cell().1),
        cells@.len() == CELLS,
        forall|a: int, b: int| in_grid(a, b) ==> #[trigger] cells@[cell_index(a, b)] == passability_cell(*layout, a, b),
        in_grid(x as int, z as int),
        0 <= k < 4,
        old(visited)@.len() == CELLS,
        reachable(*layout, s, (x as int, z as int)),
    ensures
        final(visited)@.len() == CELLS,
        ({
            let n = nb((x as int, z as int), k as int);
            &&& pushed ==> {
                &&& in_grid(n.0, n.1)
                &&& !old(visited)@[cell_index(n.0, n.1)]
                &&& final(visited)@ == old(visited)@.update(cell_index(n.0, n.1), true)
                &&& final(queue)@ == old(queue)@.push((n.0 as i32, n.1 as i32))
                &&& reachable(*layout, s, n)
            }
            &&& !pushed ==> final(visited)@ == old(visited)@ && final(queue)@ == old(queue)@
            &&& step_ok(*layout, (x as int, z as int), n) ==> vis_at(final(visited)@, n)
        }),
{
    let ghost l = *layout;
    let ghost u = (x as int, z as int);
    let (dx, dz, leave, enter): (i32, i32, u8, u8) = if k == 0 {
        (0, -1, 1u8, 4u8)
    } else if k == 1 {
        (0, 1, 4u8, 1u8)
    } else if k == 2 {
        (1, 0, 2u8, 8u8)
    } else {
        (-1, 0, 8u8, 2u8)
    };
    let nx = x + dx;
    let nz = z + dz;
    let ghost n = (nx as int, nz as int);
    assert(n == nb(u, k as int));
    if nx < 0 || nx >= GRID || nz < 0 || nz >= GRID {
        return false;
    }
    let nidx = (nx + nz * GRID) as usize;
    let cur = (x + z * GRID) as usize;
    proof {
        lemma_edge_mask_bits(wall_n(l, u.0, u.1), wall_e(l, u.0, u.1), wall_s(l, u.0, u.1), wall_w(l, u.0, u.1));
        lemma_edge_mask_bits(wall_n(l, n.0, n.1), wall_e(l, n.0, n.1), wall_s(l, n.0, n.1), wall_w(l, n.0, n.1));
        assert(cells@[cur as int] == passability_cell(l, u.0, u.1));
        assert(cells@[nidx as int] == passability_cell(l, n.0, n.1));
    }
    if visited[nidx] || !layout.carved[nidx] {
        return false;
    }
    if cells[cur] & leave != 0 || cells[nidx] & enter != 0 {
        return false;
    }
    if is_interior(layout, nx, nz) {
        return false;
    }
    proof {
        assert(step_ok(l, u, n));
        let p = choose|p: Seq<(int, int)>| is_walk(l, p) && p[0] == s && #[trigger] p.last() == u;
        lemma_extend_walk(l, p, n);
    }
    visited.set(nidx, true);
    queue.push_back((nx, nz));
    true
}

/// The stair-cell test of `shaft_interior`.
fn is_interior(layout: &FloorLayout, x: i32, z: i32) -> (r: bool)
    requires
        layout_arith_ok(*layout),
        in_grid(layout.up_shaft.spec_exit_cell().0, layout.up_shaft.spec_exit_cell().1),
        layout.down_shaft matches Some(d) ==> in_grid(d.spec_entry_cell().0, d.spec_entry_cell().1),
    ensures
        r == shaft_interior(*layout, x as int, z as int),
{
    // Up shaft: only the exit row is a landing on this floor.
    if layout.up_shaft.contains(x, z) {
        let exit = layout.up_shaft.exit_cell();
        let on_exit_row = if layout.up_shaft.along_z { z == exit.1 } else { x == exit.0 };
        if !on_exit_row {
            return true;
        }
    }
    if let Some(ref down) = layout.down_shaft {
        if down.contains(x, z) {
            let entry = down.entry_cell();
            let on_entry_row = if down.along_z { z == entry.1 } else { x == entry.0 };
            if !on_entry_row {
                return true;
            }
        }
    }
    false
}

/// Two floors that differ at most in their spawns.
pub open spec fn same_ground(l1: FloorLayout, l2: FloorLayout) -> bool {
    &&& l1.depth == l2.depth
    &&& l1.rooms@ == l2.rooms@
    &&& l1.carved@ == l2.carved@
    &&& l1.up_shaft == l2.up_shaft
    &&& l1.down_shaft == l2.down_shaft
    &&& l1.chest == l2.chest
}

/// Reachability reads the ground only, never the spawns.
pub proof fn lemma_connected_same_ground(l1: FloorLayout, l2: FloorLayout)
    requires
        same_ground(l1, l2),
    ensures
        floor_connected(l1) == floor_connected(l2),
{
    assert forall|a: (int, int), b: (int, int)| step_ok(l1, a, b) == step_ok(l2, a, b) by {
        assert(forall|x: int, z: int| l1.carved_at(x, z) == l2.carved_at(x, z));
    }
    assert forall|p: Seq<(int, int)>| is_walk(l1, p) == is_walk(l2, p) by {
        if is_walk(l1, p) {
            assert forall|i: int| 0 <= i < p.len() - 1 implies step_ok(l2, #[trigger] p[i], p[i + 1]) by {
                assert(step_ok(l1, p[i], p[i + 1]));
            }
        }
        if is_walk(l2, p) {
            assert forall|i: int| 0 <= i < p.len() - 1 implies step_ok(l1, #[trigger] p[i], p[i + 1]) by {
                assert(step_ok(l2, p[i], p[i + 1]));
            }
        }
    }
    assert forall|a: (int, int), b: (int, int)| reachable(l1, a, b) == reachable(l2, a, b) by {
        if reachable(l1, a, b) {
            let p = choose|p: Seq<(int, int)>| is_walk(l1, p) && p[0] == a && #[trigger] p.last() == b;
            assert(is_walk(l2, p));
        }
        if reachable(l2, a, b) {
            let p = choose|p: Seq<(int, int)>| is_walk(l2, p) && p[0] == a && #[trigger] p.last() == b;
            assert(is_walk(l1, p));
        }
    }
}

} // verus!
