//! Grid topology of the global world map: a square `res × res` grid that
//! wraps east-west (X) but is bounded north-south (Y), and the multi-source
//! breadth-first distance over it.
use vstd::prelude::*;

verus! {

/// The saturated distance: cells this far or farther, or unreachable,
/// carry this value.
pub const DIST_MAX: u16 = 65535;

/// West neighbour of cell `i`, wrapping to the east end of its row.
pub open spec fn west_of(res: int, i: int) -> int {
    if i % res == 0 { i + res - 1 } else { i - 1 }
}

/// East neighbour of cell `i`, wrapping to the west end of its row.
pub open spec fn east_of(res: int, i: int) -> int {
    if i % res == res - 1 { i - (res - 1) } else { i + 1 }
}

/// Cell `i` has a row above it (the grid does not wrap in Y).
pub open spec fn has_north(res: int, i: int) -> bool {
    i >= res
}

/// Cell `i` has a row below it.
pub open spec fn has_south(res: int, i: int) -> bool {
    i + res < res * res
}

/// Cell `i` is a source: it lies in the mask and carries the source value.
pub open spec fn is_source(mask: Seq<u8>, src: u8, i: int) -> bool {
    0 <= i < mask.len() && mask[i] == src
}

/// Some source lies at most `k` steps (4-connected, X wrapping) from `i`.
pub open spec fn reached(mask: Seq<u8>, res: int, src: u8, i: int, k: nat) -> bool
    decreases k,
{
    is_source(mask, src, i) || (k > 0 && (reached(mask, res, src, west_of(res, i), (k - 1) as nat)
        || reached(mask, res, src, east_of(res, i), (k - 1) as nat) || (has_north(res, i) && reached(
        mask,
        res,
        src,
        i - res,
        (k - 1) as nat,
    )) || (has_south(res, i) && reached(mask, res, src, i + res, (k - 1) as nat))))
}

/// `v` is the saturated distance of cell `i` to the nearest source: the
/// least `k` with a source within `k` steps when that is below `DIST_MAX`,
/// else `DIST_MAX`.
pub open spec fn dist_ok(mask: Seq<u8>, res: int, src: u8, i: int, v: u16) -> bool {
    if v < DIST_MAX {
        reached(mask, res, src, i, v as nat) && (v == 0 || !reached(mask, res, src, i, (v - 1) as nat))
    } else {
        !reached(mask, res, src, i, (DIST_MAX - 1) as nat)
    }
}

/// `j` is one of the (up to four) neighbours of `i`.
pub open spec fn adjacent(res: int, i: int, j: int) -> bool {
    j == west_of(res, i) || j == east_of(res, i) || (has_north(res, i) && j == i - res) || (has_south(
        res,
        i,
    ) && j == i + res)
}

/// A source within `k` steps stays within any larger number of steps.
pub proof fn lemma_reached_mono(mask: Seq<u8>, res: int, src: u8, i: int, a: nat, b: nat)
    requires
        a <= b,
        reached(mask, res, src, i, a),
    ensures
        reached(mask, res, src, i, b),
    decreases a,
{
    if !is_source(mask, src, i) && a > 0 {
        let w = west_of(res, i);
        let e = east_of(res, i);
        if reached(mask, res, src, w, (a - 1) as nat) {
            lemma_reached_mono(mask, res, src, w, (a - 1) as nat, (b - 1) as nat);
        } else if reached(mask, res, src, e, (a - 1) as nat) {
            lemma_reached_mono(mask, res, src, e, (a - 1) as nat, (b - 1) as nat);
        } else if has_north(res, i) && reached(mask, res, src, i - res, (a - 1) as nat) {
            lemma_reached_mono(mask, res, src, i - res, (a - 1) as nat, (b - 1) as nat);
        } else {
            lemma_reached_mono(mask, res, src, i + res, (a - 1) as nat, (b - 1) as nat);
        }
    }
}

/// Neighbours stay on the grid, and adjacency is symmetric.
pub proof fn lemma_neighbours(res: int, i: int)
    requires
        res >= 1,
        0 <= i < res * res,
    ensures
        0 <= west_of(res, i) < res * res,
        0 <= east_of(res, i) < res * res,
        east_of(res, west_of(res, i)) == i,
        west_of(res, east_of(res, i)) == i,
        has_north(res, i) ==> 0 <= i - res && has_south(res, i - res),
        has_south(res, i) ==> has_north(res, i + res),
{
    let x = i % res;
    let y = i / res;
    assert(i == y * res + x && 0 <= x < res) by (nonlinear_arith)
        requires
            res >= 1,
            x == i % res,
            y == i / res,
    ;
    assert(0 <= y < res) by (nonlinear_arith)
        requires
            res >= 1,
            0 <= i < res * res,
            i == y * res + x,
            0 <= x < res,
    ;
    assert(y * res + res <= res * res) by (nonlinear_arith)
        requires
            res >= 1,
            0 <= y < res,
    ;
    if x == 0 {
        let w = i + res - 1;
        assert(w % res == res - 1 && w == y * res + (res - 1)) by (nonlinear_arith)
            requires
                res >= 1,
                i == y * res,
                w == i + res - 1,
        ;
    } else {
        assert((i - 1) % res == x - 1) by (nonlinear_arith)
            requires
                res >= 1,
                i == y * res + x,
                1 <= x < res,
        ;
    }
    if x == res - 1 {
        let e = i - (res - 1);
        assert(e % res == 0) by (nonlinear_arith)
            requires
                res >= 1,
                i == y * res + (res - 1),
                e == i - (res - 1),
        ;
    } else {
        assert((i + 1) % res == x + 1) by (nonlinear_arith)
            requires
                res >= 1,
                i == y * res + x,
                0 <= x < res - 1,
        ;
    }
}

/// A cell next to one reached within `k` steps is reached within `k + 1`.
pub proof fn lemma_reached_step(mask: Seq<u8>, res: int, src: u8, i: int, j: int, k: nat)
    requires
        res >= 1,
        0 <= i < res * res,
        adjacent(res, i, j),
        reached(mask, res, src, i, k),
    ensures
        reached(mask, res, src, j, k + 1),
{
    lemma_neighbours(res, i);
    // `i` is a neighbour of `j`.
    assert(reached(mask, res, src, j, k + 1));
}

/// Adjacency is symmetric and stays on the grid.
pub proof fn lemma_adjacent_symmetric(res: int, i: int, j: int)
    requires
        res >= 1,
        0 <= i < res * res,
        adjacent(res, i, j),
    ensures
        0 <= j < res * res,
        adjacent(res, j, i),
{
    lemma_neighbours(res, i);
}

/// Every neighbour of cell `i` carries a distance.
pub open spec fn settled(dist: Seq<u16>, res: int, i: int) -> bool {
    &&& dist[west_of(res, i)] != DIST_MAX
    &&& dist[east_of(res, i)] != DIST_MAX
    &&& has_north(res, i) ==> dist[i - res] != DIST_MAX
    &&& has_south(res, i) ==> dist[i + res] != DIST_MAX
}

/// The distances set so far are exact: each set cell is reached within its
/// value and not within one step less, and no set value exceeds `d`.
pub open spec fn set_exact(mask: Seq<u8>, res: int, src: u8, dist: Seq<u16>, d: int) -> bool {
    forall|j: int|
        0 <= j < res * res && #[trigger] dist[j] != DIST_MAX ==> dist[j] <= d && dist_ok(mask, res, src, j, dist[j])
}

/// Every unset cell is farther than `d` steps from any source.
pub open spec fn unset_far(mask: Seq<u8>, res: int, src: u8, dist: Seq<u16>, d: nat) -> bool {
    forall|j: int| 0 <= j < res * res && #[trigger] dist[j] == DIST_MAX ==> !reached(mask, res, src, j, d)
}

/// After a layer has settled every neighbour of the cells at distance `d`,
/// every cell still unset is farther than `d + 1` steps.
proof fn lemma_layer_complete(
    mask: Seq<u8>,
    res: int,
    src: u8,
    old: Seq<u16>,
    new: Seq<u16>,
    frontier: Seq<usize>,
    d: nat,
)
    requires
        res >= 1,
        res * res <= usize::MAX,
        old.len() == res * res,
        new.len() == res * res,
        set_exact(mask, res, src, old, d as int),
        unset_far(mask, res, src, old, d),
        d < DIST_MAX,
        covers(old, frontier, d as u16),
        forall|g: int|
            0 <= g < frontier.len() ==> #[trigger] frontier[g] < res * res && settled(new, res, frontier[g] as int),
        forall|j: int| 0 <= j < res * res && #[trigger] old[j] != DIST_MAX ==> new[j] == old[j],
    ensures
        unset_far(mask, res, src, new, d + 1),
{
    assert forall|j: int| 0 <= j < res * res && #[trigger] new[j] == DIST_MAX implies !reached(
        mask,
        res,
        src,
        j,
        d + 1,
    ) by {
        assert(old[j] == DIST_MAX);
        if reached(mask, res, src, j, d + 1) {
            lemma_neighbours(res, j);
            if is_source(mask, src, j) {
                lemma_reached_mono(mask, res, src, j, 0, d);
            } else {
                let m = if reached(mask, res, src, west_of(res, j), d) {
                    west_of(res, j)
                } else if reached(mask, res, src, east_of(res, j), d) {
                    east_of(res, j)
                } else if has_north(res, j) && reached(mask, res, src, j - res, d) {
                    j - res
                } else {
                    j + res
                };
                assert(adjacent(res, j, m));
                assert(reached(mask, res, src, m, d));
                lemma_adjacent_symmetric(res, j, m);
                assert(old[m] != DIST_MAX);
                if old[m] == d {
                    assert(old[m] == d as u16);
                    let g = choose|g: int| 0 <= g < frontier.len() && frontier[g] as int == m;
                    assert(settled(new, res, m));
                    assert(adjacent(res, m, j));
                    assert(new[j] != DIST_MAX);
                } else {
                    assert(dist_ok(mask, res, src, m, old[m]));
                    lemma_reached_step(mask, res, src, m, j, old[m] as nat);
                    lemma_reached_mono(mask, res, src, j, (old[m] + 1) as nat, d);
                }
            }
        }
    }
}

/// Once no cell sits at distance `d`, no unset cell is reached at any
/// larger distance either.
proof fn lemma_no_frontier(mask: Seq<u8>, res: int, src: u8, dist: Seq<u16>, d: nat, k: nat)
    requires
        res >= 1,
        dist.len() == res * res,
        set_exact(mask, res, src, dist, d as int),
        unset_far(mask, res, src, dist, d),
        forall|j: int| 0 <= j < res * res ==> #[trigger] dist[j] != d,
        d <= k,
    ensures
        unset_far(mask, res, src, dist, k),
    decreases k - d,
{
    if k > d {
        lemma_no_frontier(mask, res, src, dist, d, (k - 1) as nat);
        assert forall|j: int| 0 <= j < res * res && #[trigger] dist[j] == DIST_MAX implies !reached(
            mask,
            res,
            src,
            j,
            k,
        ) by {
            if reached(mask, res, src, j, k) {
                lemma_neighbours(res, j);
                if is_source(mask, src, j) {
                    lemma_reached_mono(mask, res, src, j, 0, d);
                } else {
                    let m = if reached(mask, res, src, west_of(res, j), (k - 1) as nat) {
                        west_of(res, j)
                    } else if reached(mask, res, src, east_of(res, j), (k - 1) as nat) {
                        east_of(res, j)
                    } else if has_north(res, j) && reached(mask, res, src, j - res, (k - 1) as nat) {
                        j - res
                    } else {
                        j + res
                    };
                    assert(adjacent(res, j, m));
                    lemma_adjacent_symmetric(res, j, m);
                    assert(dist[m] != DIST_MAX);
                    assert(dist[m] != d);
                    assert(dist_ok(mask, res, src, m, dist[m]));
                    lemma_reached_step(mask, res, src, m, j, dist[m] as nat);
                    lemma_reached_mono(mask, res, src, j, (dist[m] + 1) as nat, d);
                }
            }
        }
    }
}

/// Every cell at distance `v` is listed in `layer`.
pub open spec fn covers(dist: Seq<u16>, layer: Seq<usize>, v: u16) -> bool {
    forall|j: int|
        0 <= j < dist.len() && #[trigger] dist[j] == v ==> exists|g: int|
            0 <= g < layer.len() && layer[g] as int == j
}

/// Every cell listed in `layer` is on the grid at distance `v`.
pub open spec fn layer_at(dist: Seq<u16>, layer: Seq<usize>, v: u16) -> bool {
    forall|g: int| 0 <= g < layer.len() ==> #[trigger] layer[g] < dist.len() && dist[layer[g] as int] == v
}

/// Visits neighbour `n` from a cell at distance `nd - 1`: an unset
/// neighbour takes distance `nd` and joins the next layer.
fn relax(dist: &mut Vec<u16>, next: &mut Vec<usize>, n: usize, nd: u16)
    requires
        n < old(dist)@.len(),
        nd < DIST_MAX,
        forall|k: int| 0 <= k < old(dist)@.len() ==> #[trigger] old(dist)@[k] <= nd || old(dist)@[k] == DIST_MAX,
        covers(old(dist)@, old(next)@, nd),
        layer_at(old(dist)@, old(next)@, nd),
    ensures
        final(dist)@ == (if old(dist)@[n as int] > nd {
            old(dist)@.update(n as int, nd)
        } else {
            old(dist)@
        }),
        final(dist)@[n as int] <= nd,
        final(dist)@.len() == old(dist)@.len(),
        forall|k: int| 0 <= k < final(dist)@.len() ==> #[trigger] final(dist)@[k] <= nd || final(dist)@[k] == DIST_MAX,
        forall|k: int|
            0 <= k < old(dist)@.len() && #[trigger] old(dist)@[k] != DIST_MAX ==> final(dist)@[k] == old(dist)@[k],
        covers(final(dist)@, final(next)@, nd),
        layer_at(final(dist)@, final(next)@, nd),
{
    if dist[n] > nd {
        let ghost before = next@;
        dist.set(n, nd);
        next.push(n);
        proof {
            assert forall|j: int| 0 <= j < dist@.len() && #[trigger] dist@[j] == nd implies exists|g: int|
                0 <= g < next@.len() && next@[g] as int == j by {
                if j == n as int {
                    assert(next@[before.len() as int] as int == j);
                } else {
                    let g = choose|g: int| 0 <= g < before.len() && before[g] as int == j;
                    assert(next@[g] as int == j);
                }
            }
        }
    }
}

/// Multi-source 4-connected breadth-first distance over a `res × res`
/// mask: the distance from every cell to the nearest cell whose mask value
/// is `source_val`. X wraps, Y doesn't. Sources have distance 0; distances
/// saturate at `DIST_MAX`, which unreachable cells carry too.
pub fn bfs_distance_from(mask: &[u8], res: usize, source_val: u8) -> (dist: Vec<u16>)
    requires
        res * res <= usize::MAX,
        forall|i: int| res * res <= i < mask@.len() ==> mask@[i] != source_val,
    ensures
        dist@.len() == res * res,
        forall|j: int|
            0 <= j < res * res ==> dist_ok(mask@, res as int, source_val, j, #[trigger] dist@[j]),
{
    let total = res * res;
    let ghost r = res as int;
    let mut dist: Vec<u16> = Vec::new();
    let mut t: usize = 0;
    while t < total
        invariant
            total == r * r,
            t <= total,
            dist@.len() == t,
            forall|j: int| 0 <= j < t ==> #[trigger] dist@[j] == DIST_MAX,
        decreases total - t,
    {
        dist.push(DIST_MAX);
        t = t + 1;
    }
    if res == 0 {
        return dist;
    }
    let mut frontier: Vec<usize> = Vec::new();
    let mut i: usize = 0;
    while i < mask.len()
        invariant
            res >= 1,
            total == r * r,
            r == res,
            dist@.len() == total,
            i <= mask@.len(),
            forall|k: int| r * r <= k < mask@.len() ==> mask@[k] != source_val,
            forall|j: int|
                0 <= j < total ==> #[trigger] dist@[j] == (if j < i && is_source(mask@, source_val, j) {
                    0u16
                } else {
                    DIST_MAX
                }),
            covers(dist@, frontier@, 0),
            layer_at(dist@, frontier@, 0),
        decreases mask@.len() - i,
    {
        if mask[i] == source_val {
            let ghost before = frontier@;
            dist.set(i, 0);
            frontier.push(i);
            proof {
                assert forall|j: int| 0 <= j < dist@.len() && #[trigger] dist@[j] == 0 implies exists|g: int|
                    0 <= g < frontier@.len() && frontier@[g] as int == j by {
                    if j == i as int {
                        assert(frontier@[before.len() as int] as int == j);
                    } else {
                        let g = choose|g: int| 0 <= g < before.len() && before[g] as int == j;
                        assert(frontier@[g] as int == j);
                    }
                }
            }
        }
        i = i + 1;
    }
    let mut d: u16 = 0;
    assert(set_exact(mask@, r, source_val, dist@, 0));
    assert(unset_far(mask@, r, source_val, dist@, 0));
    assert(total >= res) by (nonlinear_arith)
        requires
            total == res * res,
            res >= 1,
    ;
    while frontier.len() > 0 && d < DIST_MAX - 1
        invariant
            res >= 1,
            total == r * r,
            r == res,
            total >= res,
            dist@.len() == total,
            d < DIST_MAX,
            set_exact(mask@, r, source_val, dist@, d as int),
            unset_far(mask@, r, source_val, dist@, d as nat),
            covers(dist@, frontier@, d),
            layer_at(dist@, frontier@, d),
        decreases DIST_MAX - d,
    {
        let nd = d + 1;
        let ghost old_dist = dist@;
        let mut next: Vec<usize> = Vec::new();
        let mut f: usize = 0;
        while f < frontier.len()
            invariant
                res >= 1,
                total == r * r,
                r == res,
                total >= res,
                dist@.len() == total,
                old_dist.len() == total,
                d < DIST_MAX - 1,
                nd == d + 1,
                f <= frontier@.len(),
                set_exact(mask@, r, source_val, old_dist, d as int),
                unset_far(mask@, r, source_val, old_dist, d as nat),
                layer_at(old_dist, frontier@, d),
                covers(dist@, next@, nd),
                layer_at(dist@, next@, nd),
                forall|j: int| 0 <= j < total && #[trigger] old_dist[j] != DIST_MAX ==> dist@[j] == old_dist[j],
                forall|j: int|
                    0 <= j < total && old_dist[j] == DIST_MAX && #[trigger] dist@[j] != DIST_MAX ==> dist@[j]
                        == nd && reached(mask@, r, source_val, j, nd as nat) && !reached(
                        mask@,
                        r,
                        source_val,
                        j,
                        d as nat,
                    ),
                forall|g: int| 0 <= g < f ==> #[trigger] settled(dist@, r, frontier@[g] as int),
                forall|k: int| 0 <= k < total ==> #[trigger] dist@[k] <= nd || dist@[k] == DIST_MAX,
            decreases frontier@.len() - f,
        {
            let c = frontier[f];
            proof {
                lemma_neighbours(r, c as int);
                assert(old_dist[c as int] == d);
                assert(dist_ok(mask@, r, source_val, c as int, d));
            }
            let x = c % res;
            let west = if x == 0 { c + res - 1 } else { c - 1 };
            let east = if x + 1 == res { c - (res - 1) } else { c + 1 };
            let ghost before = dist@;
            proof {
                assert(west as int == west_of(r, c as int));
                assert(east as int == east_of(r, c as int));
                assert(adjacent(r, c as int, west as int));
                lemma_reached_step(mask@, r, source_val, c as int, west as int, d as nat);
            }
            relax(&mut dist, &mut next, west, nd);
            proof {
                assert(adjacent(r, c as int, east as int));
                lemma_reached_step(mask@, r, source_val, c as int, east as int, d as nat);
            }
            relax(&mut dist, &mut next, east, nd);
            if c >= res {
                proof {
                    assert(adjacent(r, c as int, c - r));
                    lemma_reached_step(mask@, r, source_val, c as int, c - r, d as nat);
                }
                relax(&mut dist, &mut next, c - res, nd);
            }
            if c < total - res {
                proof {
                    assert(adjacent(r, c as int, c + r));
                    lemma_reached_step(mask@, r, source_val, c as int, c + r, d as nat);
                }
                relax(&mut dist, &mut next, c + res, nd);
            }
            proof {
                assert(forall|j: int| 0 <= j < total && #[trigger] before[j] != DIST_MAX ==> dist@[j] == before[j]);
                assert(settled(dist@, r, c as int));
                assert forall|g: int| 0 <= g < f + 1 implies #[trigger] settled(dist@, r, frontier@[g] as int) by {
                    if g < f {
                        lemma_neighbours(r, frontier@[g] as int);
                        assert(settled(before, r, frontier@[g] as int));
                    }
                }
            }
            f = f + 1;
        }
        proof {
            lemma_layer_complete(mask@, r, source_val, old_dist, dist@, frontier@, d as nat);
            assert(set_exact(mask@, r, source_val, dist@, nd as int));
        }
        frontier = next;
        d = nd;
    }
    proof {
        if d < DIST_MAX - 1 {
            assert forall|j: int| 0 <= j < r * r implies #[trigger] dist@[j] != d by {
                if dist@[j] == d {
                    let g = choose|g: int| 0 <= g < frontier@.len() && frontier@[g] as int == j;
                }
            }
            lemma_no_frontier(mask@, r, source_val, dist@, d as nat, (DIST_MAX - 1) as nat);
        }
    }
    dist
}

} // verus!
