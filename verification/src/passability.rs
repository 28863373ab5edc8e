//! The grid part of a dungeon's passability entry: one edge-bitmask grid per
//! floor, with every interior door shut, and one stairwell per shaft. The
//! world-space placement (floor heights, origin in metres) is added where
//! the entry is registered.
use vstd::prelude::*;
use crate::dungeon::{FloorLayout, StairShaft, GRID, CELLS, SHAFT_LEN, DUNGEON_FLOOR_INDEX_BASE, fits_i32, in_grid, cell_index, passability_floor_for_depth};
use crate::floor_cells::{layout_arith_ok, cells_of, crossing_blocked, is_landing, adjacent, lemma_shaft_crossings_blocked, lemma_exit_cells_open};
use crate::dungeon::SpawnEntry;
use crate::dungeon_gen::{dungeon_ok, room_ok, in_any_shaft, floor_ok, stairs_spaced, grown_room};
use crate::doors::{
    InteriorDoorSpec, doors_arith_ok, floor_doors, shut_segs, sealed_cell, door_ok, door_facts,
    closed_door_segs, floor_passability_cells_full, lemma_floor_door_facts,
};

verus! {

/// One floor's passability grid in floor-local cells.
#[derive(Debug, Clone)]
pub struct FloorGrid {
    pub floor_level: u8,
    pub origin_x: i32,
    pub origin_z: i32,
    pub width: u8,
    pub depth: u8,
    pub cells: Vec<u8>,
}

/// A stairwell between two passability floors: the shaft footprint
/// `[local_min_x, local_max_x) × [local_min_z, local_max_z)`; `lower_floor`
/// is the entry end.
#[derive(Debug, Clone, Copy, PartialEq, Eq, Structural)]
pub struct StairwellSpan {
    pub local_min_x: i32,
    pub local_min_z: i32,
    pub local_max_x: i32,
    pub local_max_z: i32,
    pub lower_floor: u8,
    pub upper_floor: u8,
    pub along_z: bool,
    pub reversed: bool,
}

/// The grids and stairwells of a whole dungeon.
#[derive(Debug, Clone)]
pub struct DungeonPassability {
    pub floors: Vec<FloorGrid>,
    pub stairwells: Vec<StairwellSpan>,
}

/// The stairwell of shaft `sh` from passability floor `lower` to `upper`.
pub open spec fn shaft_span(sh: StairShaft, lower: u8, upper: u8) -> StairwellSpan {
    let r = sh.spec_rect();
    StairwellSpan {
        local_min_x: r.x,
        local_min_z: r.z,
        local_max_x: (r.x + r.w) as i32,
        local_max_z: (r.z + r.d) as i32,
        lower_floor: lower,
        upper_floor: upper,
        along_z: sh.along_z,
        reversed: sh.reversed,
    }
}

/// Passability floor index of a depth.
pub open spec fn floor_index(depth: int) -> u8 {
    (DUNGEON_FLOOR_INDEX_BASE + depth - 1) as u8
}

/// The stairwells of the floors' down shafts, floor by floor.
pub open spec fn down_spans(ls: Seq<FloorLayout>) -> Seq<StairwellSpan>
    decreases ls.len(),
{
    if ls.len() == 0 {
        Seq::empty()
    } else {
        let l = ls.last();
        down_spans(ls.drop_last()) + match l.down_shaft {
            Some(d) => seq![shaft_span(d, floor_index(l.depth as int), floor_index(l.depth + 1))],
            None => Seq::empty(),
        }
    }
}

/// All stairwells: the surface entrance (floor 0 down to depth 1) through
/// the first floor's up shaft, then one per down shaft.
pub open spec fn dungeon_spans(ls: Seq<FloorLayout>) -> Seq<StairwellSpan> {
    if ls.len() == 0 {
        down_spans(ls)
    } else {
        seq![shaft_span(ls[0].up_shaft, 0, floor_index(1))] + down_spans(ls)
    }
}

/// The grid registered for a floor: its passability cells with every
/// interior door shut (doors default shut).
pub open spec fn grid_ok(g: FloorGrid, l: FloorLayout) -> bool {
    &&& g.floor_level == floor_index(l.depth as int)
    &&& g.origin_x == 0
    &&& g.origin_z == 0
    &&& g.width == GRID
    &&& g.depth == GRID
    &&& g.cells@.len() == CELLS
    &&& forall|x: int, z: int|
        in_grid(x, z) ==> #[trigger] g.cells@[cell_index(x, z)] == sealed_cell(
            l,
            shut_segs(floor_doors(l), None),
            x,
            z,
        )
}

/// What a floor needs for its grid to be built.
pub open spec fn floor_grid_ok(l: FloorLayout) -> bool {
    &&& doors_arith_ok(l)
    &&& layout_arith_ok(l)
    &&& l.depth + 1 + DUNGEON_FLOOR_INDEX_BASE <= u8::MAX
}

proof fn lemma_shut_segs_nonneg(doors: Seq<InteriorDoorSpec>, open: Option<Set<u32>>)
    requires
        forall|k: int| 0 <= k < doors.len() ==> door_ok(#[trigger] doors[k]),
    ensures
        forall|i: int| 0 <= i < shut_segs(doors, open).len() ==> #[trigger] shut_segs(doors, open)[i] >= 0,
    decreases doors.len(),
{
    if doors.len() > 0 {
        assert forall|k: int| 0 <= k < doors.drop_last().len() implies door_ok(
            #[trigger] doors.drop_last()[k],
        ) by {
            assert(doors.drop_last()[k] == doors[k]);
        }
        lemma_shut_segs_nonneg(doors.drop_last(), open);
        let d = doors.last();
        assert(door_ok(doors[doors.len() - 1]));
        let prefix = shut_segs(doors.drop_last(), open);
        let segs = shut_segs(doors, open);
        assert forall|i: int| 0 <= i < segs.len() implies #[trigger] segs[i] >= 0 by {
            if i < prefix.len() {
                assert(segs[i] == prefix[i]);
            } else {
                assert(segs[i] == d.spec_seg()[i - prefix.len()]);
            }
        }
    }
}

/// The passability grid of one floor, doors shut.
pub fn floor_grid(layout: &FloorLayout) -> (g: FloorGrid)
    requires
        floor_grid_ok(*layout),
    ensures
        grid_ok(g, *layout),
{
    let segs = closed_door_segs(layout, None);
    proof {
        lemma_floor_door_facts(*layout);
        assert forall|k: int| 0 <= k < floor_doors(*layout).len() implies door_ok(
            #[trigger] floor_doors(*layout)[k],
        ) by {
            assert(door_facts(*layout, floor_doors(*layout)[k]));
        }
        lemma_shut_segs_nonneg(floor_doors(*layout), None);
        assert forall|i: int| 0 <= i < segs@.len() implies fits_i32(#[trigger] segs@[i] - 1) by {}
    }
    let cells = floor_passability_cells_full(layout, segs.as_slice());
    FloorGrid {
        floor_level: passability_floor_for_depth(layout.depth),
        origin_x: 0,
        origin_z: 0,
        width: 56,
        depth: 56,
        cells,
    }
}

fn shaft_stairwell(shaft: &StairShaft, lower_floor: u8, upper_floor: u8) -> (s: StairwellSpan)
    requires
        fits_i32(shaft.x + 8),
        fits_i32(shaft.z + 8),
    ensures
        s == shaft_span(*shaft, lower_floor, upper_floor),
{
    let r = shaft.rect();
    StairwellSpan {
        local_min_x: r.x,
        local_min_z: r.z,
        local_max_x: r.x + r.w,
        local_max_z: r.z + r.d,
        lower_floor,
        upper_floor,
        along_z: shaft.along_z,
        reversed: shaft.reversed,
    }
}

/// The passability entry covering every floor of the dungeon: one grid per
/// floor (doors shut), the surface-entrance stairwell (floor 0 → depth 1)
/// and one stairwell per inter-floor shaft.
pub fn dungeon_passability(layouts: &[FloorLayout]) -> (p: DungeonPassability)
    requires
        forall|i: int| 0 <= i < layouts@.len() ==> floor_grid_ok(#[trigger] layouts@[i]),
    ensures
        p.floors@.len() == layouts@.len(),
        forall|i: int| 0 <= i < layouts@.len() ==> grid_ok(#[trigger] p.floors@[i], layouts@[i]),
        p.stairwells@ == dungeon_spans(layouts@),
{
    let mut floors: Vec<FloorGrid> = Vec::new();
    let mut i: usize = 0;
    while i < layouts.len()
        invariant
            0 <= i <= layouts@.len(),
            forall|j: int| 0 <= j < layouts@.len() ==> floor_grid_ok(#[trigger] layouts@[j]),
            floors@.len() == i,
            forall|j: int| 0 <= j < i ==> grid_ok(#[trigger] floors@[j], layouts@[j]),
        decreases layouts@.len() - i,
    {
        proof {
            assert(floor_grid_ok(layouts@[i as int]));
        }
        let g = floor_grid(&layouts[i]);
        floors.push(g);
        i = i + 1;
    }
    let mut stairwells: Vec<StairwellSpan> = Vec::new();
    if layouts.len() > 0 {
        proof {
            assert(floor_grid_ok(layouts@[0]));
        }
        let first = shaft_stairwell(&layouts[0].up_shaft, 0, passability_floor_for_depth(1));
        stairwells.push(first);
    }
    let ghost base = stairwells@;
    let mut k: usize = 0;
    while k < layouts.len()
        invariant
            0 <= k <= layouts@.len(),
            forall|j: int| 0 <= j < layouts@.len() ==> floor_grid_ok(#[trigger] layouts@[j]),
            base == (if layouts@.len() == 0 {
                Seq::<StairwellSpan>::empty()
            } else {
                seq![shaft_span(layouts@[0].up_shaft, 0, floor_index(1))]
            }),
            stairwells@ == base + down_spans(layouts@.subrange(0, k as int)),
        decreases layouts@.len() - k,
    {
        let layout = &layouts[k];
        proof {
            assert(floor_grid_ok(layouts@[k as int]));
            assert(layouts@.subrange(0, k + 1).drop_last() =~= layouts@.subrange(0, k as int));
            assert(layouts@.subrange(0, k + 1).last() == layouts@[k as int]);
        }
        match &layout.down_shaft {
            Some(down) => {
                let lower = passability_floor_for_depth(layout.depth);
                let upper = passability_floor_for_depth(layout.depth + 1);
                let s = shaft_stairwell(down, lower, upper);
                stairwells.push(s);
                proof {
                    assert(stairwells@ =~= base + down_spans(layouts@.subrange(0, k + 1)));
                }
            },
            None => {
                proof {
                    assert(stairwells@ =~= base + down_spans(layouts@.subrange(0, k + 1)));
                }
            },
        }
        k = k + 1;
    }
    proof {
        assert(layouts@.subrange(0, layouts@.len() as int) =~= layouts@);
        assert(stairwells@ =~= dungeon_spans(layouts@));
    }
    DungeonPassability { floors, stairwells }
}

/// Every floor of a generated dungeon can have its passability grid built.
pub proof fn lemma_generated_floors_have_grids(fs: Seq<FloorLayout>, tables: Seq<Vec<SpawnEntry>>)
    requires
        dungeon_ok(fs, tables),
    ensures
        forall|i: int| 0 <= i < fs.len() ==> floor_grid_ok(#[trigger] fs[i]),
{
    assert forall|i: int| 0 <= i < fs.len() implies floor_grid_ok(#[trigger] fs[i]) by {
        let l = fs[i];
        assert(l.depth == i + 1);
        assert forall|k: int| 0 <= k < l.rooms@.len() implies crate::doors::room_arith_ok(
            #[trigger] l.rooms@[k],
        ) by {
            assert(room_ok(l.rooms@[k]));
        }
    }
}

/// On every floor of a generated dungeon, the passability cells let the
/// stairs open onto the floor only at its landings: a crossing from a
/// cell of either shaft into an in-grid cell outside both shafts is closed
/// by an edge bit unless it leaves from a landing of this floor, and the up
/// shaft's exit landing stays open to the step just above it, so a
/// descending player is never sealed in.
pub proof fn lemma_generated_stairs_open_only_at_landings(
    fs: Seq<FloorLayout>,
    tables: Seq<Vec<SpawnEntry>>,
    i: int,
    cells: Seq<u8>,
    a: (int, int),
    b: (int, int),
)
    requires
        dungeon_ok(fs, tables),
        0 <= i < fs.len(),
        cells_of(cells, fs[i]),
        adjacent(a, b),
        in_grid(a.0, a.1),
        in_grid(b.0, b.1),
    ensures
        in_any_shaft(fs[i], a.0, a.1) && !in_any_shaft(fs[i], b.0, b.1) && !is_landing(fs[i], a)
            ==> crossing_blocked(cells, a, b),
        !crossing_blocked(cells, fs[i].up_shaft.spec_exit_cell(), fs[i].up_shaft.spec_step_cell(SHAFT_LEN - 2, 0)),
{
    let l = fs[i];
    assert(floor_ok(l, crate::dungeon::table_at(tables, i + 1)));
    assert(stairs_spaced(l));
    if !is_landing(l, a) {
        lemma_shaft_crossings_blocked(l, cells, a, b);
    }
    let u = l.up_shaft;
    crate::dungeon::lemma_step_cells(u, SHAFT_LEN - 1, 0, SHAFT_LEN - 2, 0);
    crate::dungeon::lemma_step_cells(u, SHAFT_LEN - 2, 0, SHAFT_LEN - 1, 0);
    assert(u.has_cell(u.spec_step_cell(SHAFT_LEN - 1, 0).0, u.spec_step_cell(SHAFT_LEN - 1, 0).1));
    assert(u.has_cell(u.spec_step_cell(SHAFT_LEN - 2, 0).0, u.spec_step_cell(SHAFT_LEN - 2, 0).1));
    if let Some(d) = l.down_shaft {
        assert(!grown_room(d.spec_rect()).overlaps(grown_room(u.spec_rect())));
    }
    lemma_exit_cells_open(l, cells);
}

} // verus!
