//! Procedural dungeon floors: the shared data model, the grid helpers and
//! the passability masks. Every floor is a `GRID`×`GRID` field of 1 m cells;
//! depth `d` (1-based) registers in the passability cache as floor index
//! `passability_floor_for_depth(d)`, clear of the housing floors 0..=3.
use vstd::prelude::*;
use vstd::string::StringExecFns;
use vstd::string::StringSliceAdditionalSpecFns;

verus! {

/// Side length of a dungeon floor in 1 m cells.
pub const GRID: i32 = 56;

/// Number of cells of one floor (`GRID * GRID`).
pub const CELLS: usize = 3136;

/// Passability floor index of depth 1.
pub const DUNGEON_FLOOR_INDEX_BASE: u8 = 4;

/// Highest housing floor level (housing uses floors 0..=3).
pub const MAX_FLOOR_LEVEL: u8 = 3;

pub const MIN_DEPTH: u8 = 5;
pub const MAX_DEPTH: u8 = 20;

/// Stair shaft footprint: `SHAFT_W` cells wide, `SHAFT_LEN` along the run.
pub const SHAFT_W: i32 = 2;
pub const SHAFT_LEN: i32 = 8;

/// A* node budget for long in-dungeon path queries.
pub const DUNGEON_PATH_MAX_NODES: usize = 20000;

/// Edge bits of a passability cell: the side of the cell that is walled.
pub const EDGE_N: u8 = 1;
pub const EDGE_E: u8 = 2;
pub const EDGE_S: u8 = 4;
pub const EDGE_W: u8 = 8;

/// An axis-aligned rectangle of cells: `[x, x + w) × [z, z + d)`.
#[derive(Debug, Clone, Copy, PartialEq, Eq, Structural)]
pub struct Room {
    pub x: i32,
    pub z: i32,
    pub w: i32,
    pub d: i32,
}

/// Rust's `/ 2` on a signed value (rounds toward zero).
pub open spec fn half_toward_zero(v: int) -> int {
    if v >= 0 { v / 2 } else { -((-v) / 2) }
}

pub open spec fn fits_i32(v: int) -> bool {
    i32::MIN <= v <= i32::MAX
}

impl Room {
    pub open spec fn spec_center(self) -> (int, int) {
        (self.x + half_toward_zero(self.w as int), self.z + half_toward_zero(self.d as int))
    }

    /// Whether cell `(x, z)` lies inside the rectangle.
    pub open spec fn has_cell(self, x: int, z: int) -> bool {
        self.x <= x < self.x + self.w && self.z <= z < self.z + self.d
    }

    pub open spec fn spec_expanded(self, by: int) -> (int, int, int, int) {
        (self.x - by, self.z - by, self.w + 2 * by, self.d + 2 * by)
    }

    pub open spec fn overlaps(self, other: Room) -> bool {
        &&& self.x < other.x + other.w
        &&& self.x + self.w > other.x
        &&& self.z < other.z + other.d
        &&& self.z + self.d > other.z
    }

    /// The center cell of the room (half extents rounded toward zero).
    pub fn center(&self) -> (r: (i32, i32))
        requires
            fits_i32(self.spec_center().0),
            fits_i32(self.spec_center().1),
        ensures
            r.0 == self.spec_center().0,
            r.1 == self.spec_center().1,
    {
        (self.x + self.w / 2, self.z + self.d / 2)
    }

    /// The rectangle grown by `by` cells on every side.
    pub fn expanded(&self, by: i32) -> (r: Room)
        requires
            fits_i32(self.x - by),
            fits_i32(self.z - by),
            fits_i32(self.w + 2 * by),
            fits_i32(self.d + 2 * by),
            fits_i32(by * 2),
        ensures
            (r.x as int, r.z as int, r.w as int, r.d as int) == self.spec_expanded(by as int),
    {
        Room { x: self.x - by, z: self.z - by, w: self.w + by * 2, d: self.d + by * 2 }
    }

    /// Whether cell `(x, z)` lies inside the rectangle.
    pub fn contains(&self, x: i32, z: i32) -> (r: bool)
        requires
            fits_i32(self.x + self.w),
            fits_i32(self.z + self.d),
        ensures
            r == self.has_cell(x as int, z as int),
    {
        x >= self.x && x < self.x + self.w && z >= self.z && z < self.z + self.d
    }

    /// Whether the two rectangles share at least one cell (for non-empty
    /// rectangles).
    pub fn intersects(&self, other: &Room) -> (r: bool)
        requires
            fits_i32(other.x + other.w),
            fits_i32(self.x + self.w),
            fits_i32(other.z + other.d),
            fits_i32(self.z + self.d),
        ensures
            r == self.overlaps(*other),
    {
        self.x < other.x + other.w && self.x + self.w > other.x && self.z < other.z + other.d
            && self.z + self.d > other.z
    }
}

/// A vertical stair shaft connecting two adjacent floors. The footprint is
/// identical on both floors; `reversed` selects which physical end is the
/// entry landing (on the shallower floor).
#[derive(Debug, Clone, Copy, PartialEq, Eq, Structural)]
pub struct StairShaft {
    /// Min-corner cell of the footprint.
    pub x: i32,
    pub z: i32,
    /// Run axis: true = along +Z, false = along +X.
    pub along_z: bool,
    /// false = entry (shallow) landing at the min end, true = at the max end.
    pub reversed: bool,
}

impl StairShaft {
    pub open spec fn spec_rect(self) -> Room {
        if self.along_z {
            Room { x: self.x, z: self.z, w: SHAFT_W, d: SHAFT_LEN }
        } else {
            Room { x: self.x, z: self.z, w: SHAFT_LEN, d: SHAFT_W }
        }
    }

    pub open spec fn has_cell(self, x: int, z: int) -> bool {
        self.spec_rect().has_cell(x, z)
    }

    /// The shaft's footprint lies inside the grid, one cell off every edge.
    pub open spec fn in_interior(self) -> bool {
        &&& 1 <= self.x
        &&& 1 <= self.z
        &&& self.spec_rect().x + self.spec_rect().w <= GRID - 1
        &&& self.spec_rect().z + self.spec_rect().d <= GRID - 1
    }

    pub open spec fn spec_step_cell(self, i: int, w: int) -> (int, int) {
        let run = if self.reversed { SHAFT_LEN - 1 - i } else { i };
        if self.along_z {
            (self.x + w, self.z + run)
        } else {
            (self.x + run, self.z + w)
        }
    }

    pub open spec fn step_fits(self, i: int, w: int) -> bool {
        &&& fits_i32(SHAFT_LEN - 1 - i)
        &&& fits_i32(self.spec_step_cell(i, w).0)
        &&& fits_i32(self.spec_step_cell(i, w).1)
    }

    pub open spec fn spec_entry_cell(self) -> (int, int) {
        self.spec_step_cell(0, 0)
    }

    pub open spec fn spec_exit_cell(self) -> (int, int) {
        self.spec_step_cell(SHAFT_LEN - 1, 0)
    }

    /// The footprint rectangle.
    pub fn rect(&self) -> (r: Room)
        ensures
            r == self.spec_rect(),
    {
        if self.along_z {
            Room { x: self.x, z: self.z, w: SHAFT_W, d: SHAFT_LEN }
        } else {
            Room { x: self.x, z: self.z, w: SHAFT_LEN, d: SHAFT_W }
        }
    }

    /// Whether cell `(x, z)` is part of the footprint.
    pub fn contains(&self, x: i32, z: i32) -> (r: bool)
        requires
            fits_i32(self.x + SHAFT_LEN),
            fits_i32(self.z + SHAFT_LEN),
        ensures
            r == self.has_cell(x as int, z as int),
    {
        let r = self.rect();
        x >= r.x && x < r.x + r.w && z >= r.z && z < r.z + r.d
    }

    /// Cell at run position `i` (0 = entry end), lateral offset `w`.
    pub fn step_cell(&self, i: i32, w: i32) -> (r: (i32, i32))
        requires
            self.step_fits(i as int, w as int),
        ensures
            r.0 == self.spec_step_cell(i as int, w as int).0,
            r.1 == self.spec_step_cell(i as int, w as int).1,
    {
        let run = if self.reversed { SHAFT_LEN - 1 - i } else { i };
        if self.along_z {
            (self.x + w, self.z + run)
        } else {
            (self.x + run, self.z + w)
        }
    }

    /// Entry landing cell (shallower floor), first lateral column.
    pub fn entry_cell(&self) -> (r: (i32, i32))
        requires
            self.step_fits(0, 0),
        ensures
            r.0 == self.spec_entry_cell().0,
            r.1 == self.spec_entry_cell().1,
    {
        self.step_cell(0, 0)
    }

    /// Exit landing cell (deeper floor), first lateral column.
    pub fn exit_cell(&self) -> (r: (i32, i32))
        requires
            self.step_fits(SHAFT_LEN - 1, 0),
        ensures
            r.0 == self.spec_exit_cell().0,
            r.1 == self.spec_exit_cell().1,
    {
        self.step_cell(SHAFT_LEN - 1, 0)
    }
}


/// One monster placement on a floor.
#[derive(Debug, Clone)]
pub struct SpawnSpec {
    pub x: i32,
    pub z: i32,
    pub monster_type: String,
    pub is_boss: bool,
    /// Proactive monster: attacks players on sight instead of only
    /// retaliating when hit.
    pub aggressive: bool,
}

/// One generated floor of a dungeon.
#[derive(Debug, Clone)]
pub struct FloorLayout {
    /// 1-based depth below the surface.
    pub depth: u8,
    pub rooms: Vec<Room>,
    /// GRID*GRID row-major walkability (rooms + corridors + shafts).
    pub carved: Vec<bool>,
    /// Shaft arriving from the floor above (or from the surface at depth 1).
    pub up_shaft: StairShaft,
    /// Shaft descending to the next floor; `None` on the final floor.
    pub down_shaft: Option<StairShaft>,
    /// Treasure chest cell, only on the final floor.
    pub chest: Option<(i32, i32)>,
    pub spawns: Vec<SpawnSpec>,
}

pub open spec fn in_grid(x: int, z: int) -> bool {
    0 <= x < GRID && 0 <= z < GRID
}

/// Row-major index of an in-grid cell.
pub open spec fn cell_index(x: int, z: int) -> int {
    x + z * GRID
}

impl FloorLayout {
    /// The walkability mask covers the whole grid.
    pub open spec fn carved_ok(self) -> bool {
        self.carved@.len() >= CELLS
    }

    /// Cell `(x, z)` is inside the grid and walkable.
    pub open spec fn carved_at(self, x: int, z: int) -> bool {
        in_grid(x, z) && self.carved@[cell_index(x, z)]
    }

    /// Whether `(x, z)` is a walkable cell of this floor (false off-grid).
    pub fn is_carved(&self, x: i32, z: i32) -> (r: bool)
        requires
            self.carved_ok(),
        ensures
            r == self.carved_at(x as int, z as int),
    {
        x >= 0 && x < GRID && z >= 0 && z < GRID && self.carved[(x + z * GRID) as usize]
    }
}

/// FNV-1a 64 offset basis and prime.
pub const FNV64_OFFSET: u64 = 0xcbf2_9ce4_8422_2325;
pub const FNV64_PRIME: u64 = 0x0000_0100_0000_01b3;

/// FNV-1a 64 of a byte string.
pub open spec fn fnv1a64(bytes: Seq<u8>) -> u64
    decreases bytes.len(),
{
    if bytes.len() == 0 {
        FNV64_OFFSET
    } else {
        (fnv1a64(bytes.drop_last()) ^ (bytes.last() as u64)).wrapping_mul(FNV64_PRIME)
    }
}

/// The dungeon seed of an entrance: FNV-1a 64 over the id's UTF-8 bytes,
/// stable across builds and platforms.
pub fn dungeon_seed(entrance_id: &str) -> (h: u64)
    ensures
        h == fnv1a64(entrance_id.spec_bytes()),
{
    let bytes = entrance_id.as_bytes();
    let mut h: u64 = FNV64_OFFSET;
    let mut i: usize = 0;
    while i < bytes.len()
        invariant
            0 <= i <= bytes@.len(),
            bytes@ == entrance_id.spec_bytes(),
            h == fnv1a64(bytes@.subrange(0, i as int)),
        decreases bytes@.len() - i,
    {
        proof {
            assert(bytes@.subrange(0, i + 1).drop_last() =~= bytes@.subrange(0, i as int));
        }
        h = (h ^ (bytes[i] as u64)).wrapping_mul(FNV64_PRIME);
        i = i + 1;
    }
    proof {
        assert(bytes@.subrange(0, bytes@.len() as int) =~= bytes@);
    }
    h
}

/// Passability floor index of dungeon depth `depth` (depth 1 is
/// `DUNGEON_FLOOR_INDEX_BASE`).
pub fn passability_floor_for_depth(depth: u8) -> (r: u8)
    requires
        DUNGEON_FLOOR_INDEX_BASE + depth <= u8::MAX,
    ensures
        r == DUNGEON_FLOOR_INDEX_BASE + depth - 1,
{
    DUNGEON_FLOOR_INDEX_BASE + depth - 1
}

/// The passability floor index a wire floor level maps onto: levels at or
/// above ground are housing floors and keep their number; level `-d` is
/// dungeon depth `d`.
pub open spec fn spec_floor_for_level(level: i8) -> int {
    if level >= 0 {
        level as int
    } else {
        DUNGEON_FLOOR_INDEX_BASE - level - 1
    }
}

pub fn passability_floor_for_level(level: i8) -> (r: u8)
    ensures
        r == spec_floor_for_level(level),
{
    if level >= 0 {
        level as u8
    } else {
        let depth: u8 = if level == i8::MIN { 128u8 } else { (-level) as u8 };
        passability_floor_for_depth(depth)
    }
}

/// The steps of a shaft are exactly its footprint: each step cell lies in
/// the footprint, distinct steps are distinct cells, and every footprint
/// cell is a step. Reversing a shaft runs its steps the other way, and the
/// landings are the first and last steps of the first rail.
pub proof fn lemma_step_cells(sh: StairShaft, i: int, w: int, j: int, v: int)
    requires
        0 <= i < SHAFT_LEN,
        0 <= w < SHAFT_W,
        0 <= j < SHAFT_LEN,
        0 <= v < SHAFT_W,
    ensures
        sh.has_cell(sh.spec_step_cell(i, w).0, sh.spec_step_cell(i, w).1),
        sh.spec_step_cell(i, w) == sh.spec_step_cell(j, v) ==> i == j && w == v,
        (StairShaft { reversed: !sh.reversed, ..sh }).spec_step_cell(i, w) == sh.spec_step_cell(
            SHAFT_LEN - 1 - i,
            w,
        ),
        sh.spec_entry_cell() == sh.spec_step_cell(0, 0),
        sh.spec_exit_cell() == sh.spec_step_cell(SHAFT_LEN - 1, 0),
{
}

/// Every footprint cell of a shaft is one of its steps.
pub proof fn lemma_footprint_is_steps(sh: StairShaft, x: int, z: int)
    requires
        sh.has_cell(x, z),
    ensures
        exists|i: int, w: int|
            0 <= i < SHAFT_LEN && 0 <= w < SHAFT_W && #[trigger] sh.spec_step_cell(i, w) == (x, z),
{
    let (run, w) = if sh.along_z { (z - sh.z, x - sh.x) } else { (x - sh.x, z - sh.z) };
    let i = if sh.reversed { SHAFT_LEN - 1 - run } else { run };
    assert(sh.spec_step_cell(i, w) == (x, z));
}

/// Housing floors and dungeon depths never share a passability index:
/// levels at or above ground keep their number (at most `MAX_FLOOR_LEVEL`
/// for a house), and every level below ground lands above it.
pub proof fn lemma_floor_indices_disjoint(level: i8)
    ensures
        0 <= level <= MAX_FLOOR_LEVEL ==> spec_floor_for_level(level) == level,
        level < 0 ==> spec_floor_for_level(level) >= DUNGEON_FLOOR_INDEX_BASE > MAX_FLOOR_LEVEL,
        level < 0 ==> spec_floor_for_level(level) == DUNGEON_FLOOR_INDEX_BASE + (-level) - 1,
{
}

/// Effective monster level at a given depth: shallow floors (depth ≤ 4)
/// use the definition level; deeper, +1 level per two floors past 4,
/// capped at 20.
pub open spec fn spec_monster_level(def_level: u8, depth: u8) -> int {
    if depth <= 4 {
        def_level as int
    } else {
        let l = def_level + (depth - 4) / 2;
        if l < 20 { l } else { 20 }
    }
}

pub fn monster_level_for_depth(def_level: u8, depth: u8) -> (r: u8)
    ensures
        r == spec_monster_level(def_level, depth),
{
    if depth <= 4 {
        def_level
    } else {
        let l: u32 = def_level as u32 + (depth as u32 - 4) / 2;
        if l < 20 { l as u8 } else { 20 }
    }
}

/// Deeper floors never field weaker monsters, a monster never drops below
/// its definition level unless that is above the cap, and the level never
/// exceeds the cap of 20 once scaling applies.
pub proof fn lemma_monster_level_scaling(def_level: u8, d1: u8, d2: u8)
    ensures
        d1 <= d2 && (d1 > 4 || def_level <= 20) ==> spec_monster_level(def_level, d1)
            <= spec_monster_level(def_level, d2),
        d1 > 4 ==> spec_monster_level(def_level, d1) <= 20,
        d1 > 4 && def_level <= 20 ==> spec_monster_level(def_level, d1) >= def_level,
{
    assert(d1 <= d2 && d1 > 4 ==> (d1 - 4) / 2 <= (d2 - 4) / 2) by (nonlinear_arith);
}

/// Passability cache key for a dungeon (one entry covers every floor).
pub fn dungeon_cache_key(entrance_id: &str) -> (r: String)
    ensures
        r@ == "dungeon:"@ + entrance_id@,
{
    let mut key = String::from_str("dungeon:");
    key.append(entrance_id);
    key
}

/// One weighted entry in a depth's spawn table. `aggressive` makes that
/// dungeon spawn proactive (attacks on sight).
#[derive(Debug, Clone)]
pub struct SpawnEntry {
    pub monster_type: String,
    pub weight: u32,
    pub aggressive: bool,
}

/// The entries of `tables` for `depth`, or none when `depth` is past the end.
pub open spec fn table_at(tables: Seq<Vec<SpawnEntry>>, depth: int) -> Seq<SpawnEntry> {
    if 0 <= depth < tables.len() {
        tables[depth]@
    } else {
        Seq::empty()
    }
}

/// The weights of a table, in table order.
pub open spec fn entry_weights(t: Seq<SpawnEntry>) -> Seq<int> {
    t.map_values(|e: SpawnEntry| e.weight as int)
}

/// Weighted monster entries that can spawn at `depth`, in stable table
/// order, or an empty slice if no table covers it.
pub fn spawn_table(tables: &Vec<Vec<SpawnEntry>>, depth: u8) -> (r: &[SpawnEntry])
    ensures
        r@ == table_at(tables@, depth as int),
{
    if (depth as usize) < tables.len() {
        tables[depth as usize].as_slice()
    } else {
        &[]
    }
}

/// Down to depth 4 a monster keeps its listed level; below that every two
/// floors add a level, up to the cap of 20.
pub proof fn lemma_two_floors_per_level(def_level: u8, depth: u8)
    ensures
        depth <= 4 ==> spec_monster_level(def_level, depth) == def_level,
        4 <= depth <= 253 ==> spec_monster_level(def_level, (depth + 2) as u8) == (if spec_monster_level(
            def_level,
            depth,
        ) + 1 < 20 {
            spec_monster_level(def_level, depth) + 1
        } else {
            20
        }),
        depth == 5 ==> spec_monster_level(def_level, depth) == (if def_level < 20 { def_level as int } else { 20 }),
{
    assert(depth >= 4 ==> (depth + 2 - 4) / 2 == (depth - 4) / 2 + 1) by (nonlinear_arith);
}

/// A level below ground is the dungeon depth its number names: level `-d`
/// lands on the passability floor of depth `d`, and ground and upper
/// levels keep their number.
pub proof fn lemma_levels_below_are_depths(level: i8)
    ensures
        level < 0 ==> spec_floor_for_level(level) == DUNGEON_FLOOR_INDEX_BASE + (-level) - 1,
        level >= 0 ==> spec_floor_for_level(level) == level,
{
}

} // verus!
