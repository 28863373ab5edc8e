use onlinerpg::doors::{closed_door_segs, door_hash, floor_passability_cells_full, interior_doors};
use onlinerpg::dungeon::{
    dungeon_cache_key, dungeon_seed, monster_level_for_depth, passability_floor_for_depth,
    passability_floor_for_level, spawn_table, FloorLayout, SpawnEntry, StairShaft,
    DUNGEON_FLOOR_INDEX_BASE, EDGE_E, EDGE_N, EDGE_S, EDGE_W, GRID, MAX_DEPTH, MAX_FLOOR_LEVEL,
    MIN_DEPTH, SHAFT_LEN, SHAFT_W,
};
use onlinerpg::dungeon_gen::{dungeon_depth, generate_dungeon};
use onlinerpg::floor_cells::floor_passability_cells;
use onlinerpg::passability::dungeon_passability;
use onlinerpg::spawn_tables::build_spawn_tables;
use rand::{Rng, SeedableRng};
use rand_chacha::ChaCha8Rng;

/// The two cells straddling a wall line, with the edge bit a shut door sets
/// on each: `(high_cell, low_cell, high_bit, low_bit)`.
type DoorCellPair = ((i32, i32), (i32, i32), u8, u8);

/// A monster table in the shipped column layout: a common monster on every
/// floor, a rarer one from depth 5 down and a proactive one in the deep
/// floors; the boss and the overworld-only monster leave the dungeon
/// columns blank.
const MONSTERS_CSV: &str = "id,name,level,dungeonMinDepth,dungeonMaxDepth,dungeonWeight,dungeonAggressive\n\
goblin,Goblin,1,1,,3,false\n\
skeleton,Skeleton,4,5,20,2,false\n\
troll,Troll,9,12,99,1,true\n\
orc_boss,Orc Boss,15,,,,\n\
wolf,Wolf,2,,,,\n";

fn tables() -> Vec<Vec<SpawnEntry>> {
    build_spawn_tables(MONSTERS_CSV).expect("the header names every dungeon column")
}

fn gen(seed: u64) -> Vec<FloorLayout> {
    generate_dungeon(seed, &tables())
}

fn fnv1a64_bytes(h: &mut u64, bytes: &[u8]) {
    for b in bytes {
        *h ^= *b as u64;
        *h = h.wrapping_mul(0x0000_0100_0000_01b3);
    }
}

fn layout_hash(floors: &[FloorLayout]) -> u64 {
    let mut h: u64 = 0xcbf2_9ce4_8422_2325;
    for f in floors {
        fnv1a64_bytes(&mut h, &format!("{f:?}").into_bytes());
    }
    h
}

fn shaft_footprint(s: &StairShaft) -> Vec<(i32, i32)> {
    let r = s.rect();
    let mut cells = Vec::new();
    for z in r.z..r.z + r.d {
        for x in r.x..r.x + r.w {
            cells.push((x, z));
        }
    }
    cells
}

#[test]
fn depth_in_range() {
    for seed in 0..500u64 {
        let d = dungeon_depth(seed);
        assert!((MIN_DEPTH..=MAX_DEPTH).contains(&d), "seed {seed}: depth {d}");
    }
}

#[test]
fn determinism_two_runs_identical() {
    for seed in [0u64, 1, 42, 0xdead_beef, u64::MAX] {
        let a = gen(seed);
        let b = gen(seed);
        assert_eq!(layout_hash(&a), layout_hash(&b), "seed {seed}");
        assert_eq!(format!("{a:?}"), format!("{b:?}"), "seed {seed}");
    }
}

#[test]
fn structure_invariants_many_seeds() {
    for seed in 0..200u64 {
        let floors = gen(seed);
        let total = floors.len() as u8;
        assert!((1..=MAX_DEPTH).contains(&total), "seed {seed}");

        for (i, f) in floors.iter().enumerate() {
            let depth = i as u8 + 1;
            assert_eq!(f.depth, depth, "seed {seed}");
            assert!(
                (1..=5).contains(&f.rooms.len()),
                "seed {seed} depth {depth}: {} rooms",
                f.rooms.len()
            );
            for r in &f.rooms {
                assert!(r.x >= 1 && r.z >= 1 && r.x + r.w < GRID && r.z + r.d < GRID);
            }
            if let Some(down) = f.down_shaft {
                assert!(depth < total, "seed {seed}: down shaft on final floor {depth}");
                assert_eq!(
                    floors[i + 1].up_shaft, down,
                    "seed {seed} depth {depth}: shaft misaligned"
                );
            } else {
                assert_eq!(depth, total, "seed {seed}: dead end at {depth}/{total}");
                assert!(f.chest.is_some(), "seed {seed}: final floor missing chest");
                assert!(
                    f.spawns.iter().any(|s| s.is_boss),
                    "seed {seed}: final floor missing boss"
                );
            }
            let mut shaft_cells = shaft_footprint(&f.up_shaft);
            if let Some(ref d) = f.down_shaft {
                shaft_cells.extend(shaft_footprint(d));
            }
            for (x, z) in &shaft_cells {
                assert!(f.is_carved(*x, *z), "seed {seed} depth {depth}: shaft cell uncarved");
            }
            for s in &f.spawns {
                assert!(f.is_carved(s.x, s.z), "seed {seed} depth {depth}: spawn off-grid");
                if !s.is_boss {
                    assert!(
                        !f.up_shaft.contains(s.x, s.z)
                            && !f
                                .down_shaft
                                .as_ref()
                                .is_some_and(|sh| sh.contains(s.x, s.z)),
                        "seed {seed} depth {depth}: spawn in shaft"
                    );
                }
            }
            assert!(!f.spawns.is_empty(), "seed {seed} depth {depth}: no spawns");
        }

        let entry = floors[0].up_shaft.entry_cell();
        let half = GRID / 2;
        assert!(
            (entry.0 - half).abs() <= 1 && (entry.1 - half).abs() <= 1,
            "seed {seed}: entrance entry cell {entry:?}"
        );
    }
}

#[test]
fn interior_doors_seal_corridor_mouths_until_opened() {
    let mut total = 0usize;
    for seed in 0..10u64 {
        let floors = gen(seed);
        let rp = dungeon_passability(&floors);
        for layout in &floors {
            let doors = interior_doors(layout);
            total += doors.len();
            let base = floor_passability_cells(layout);
            let sealed = floor_passability_cells_full(layout, &closed_door_segs(layout, None));
            let all_open: std::collections::HashSet<u32> = doors.iter().map(|d| d.door_id).collect();
            let reopened =
                floor_passability_cells_full(layout, &closed_door_segs(layout, Some(&all_open)));
            assert_eq!(reopened, base, "seed {seed} depth {}", layout.depth);

            let at = |cells: &[u8], x: i32, z: i32| cells[(x + z * GRID) as usize];
            let room_at = |x: i32, z: i32| layout.rooms.iter().any(|r| r.contains(x, z));
            let corridor_at = |x: i32, z: i32| {
                layout.is_carved(x, z)
                    && !room_at(x, z)
                    && !layout.up_shaft.contains(x, z)
                    && !layout.down_shaft.is_some_and(|s| s.contains(x, z))
            };
            for d in &doors {
                let [ax, az, bx, bz] = d.seg();
                let pairs: Vec<DoorCellPair> = if az == bz {
                    (ax..bx).map(|x| ((x, az), (x, az - 1), EDGE_N, EDGE_S)).collect()
                } else {
                    (az..bz).map(|z| ((ax, z), (ax - 1, z), EDGE_W, EDGE_E)).collect()
                };
                for (hi, lo, hi_bit, lo_bit) in pairs {
                    assert!(
                        (room_at(hi.0, hi.1) && corridor_at(lo.0, lo.1))
                            || (room_at(lo.0, lo.1) && corridor_at(hi.0, hi.1)),
                        "seed {seed} depth {} door {:x}: ({},{})<->({},{}) is not a room<->corridor mouth",
                        layout.depth,
                        d.door_id,
                        hi.0,
                        hi.1,
                        lo.0,
                        lo.1
                    );
                    let crossing_blocked = |cells: &[u8]| {
                        at(cells, hi.0, hi.1) & hi_bit != 0 || at(cells, lo.0, lo.1) & lo_bit != 0
                    };
                    assert!(
                        !crossing_blocked(&base),
                        "seed {seed} depth {} door {:x}: mouth blocked in base grid",
                        layout.depth,
                        d.door_id
                    );
                    assert!(
                        crossing_blocked(&sealed),
                        "seed {seed} depth {} door {:x}: shut door not sealed",
                        layout.depth,
                        d.door_id
                    );
                }
            }
            let fl = passability_floor_for_depth(layout.depth);
            let grid = rp.floors.iter().find(|f| f.floor_level == fl).unwrap();
            assert_eq!(grid.cells, sealed, "seed {seed} depth {}", layout.depth);
        }
    }
    assert!(total > 0, "no interior doors across any test seed");
}

#[test]
fn door_hash_matches_client_js_golden_values() {
    for (a, b, c, d, expected) in [
        (1, 0, 5, 10, 955),
        (1, 1, 12, 30, 405),
        (3, 2, 40, 7, 909),
        (20, 3, 79, 79, 374),
        (5, 0, 0, 0, 352),
        (7, 2, 33, 64, 901),
        (2, 1, 17, 3, 996),
        (19, 3, 60, 21, 472),
    ] {
        assert_eq!(door_hash(a, b, c, d), expected, "({a}, {b}, {c}, {d})");
    }
}

#[test]
fn wire_floor_level_maps_onto_passability_index() {
    for level in 0..=MAX_FLOOR_LEVEL {
        assert_eq!(passability_floor_for_level(level as i8), level);
    }
    assert_eq!(passability_floor_for_level(-1), DUNGEON_FLOOR_INDEX_BASE);
    assert_eq!(
        passability_floor_for_level(-(MAX_DEPTH as i8)),
        DUNGEON_FLOOR_INDEX_BASE + MAX_DEPTH - 1
    );
    assert!(passability_floor_for_level(-1) > MAX_FLOOR_LEVEL);
}

#[test]
fn monster_level_scaling() {
    assert_eq!(monster_level_for_depth(1, 1), 1);
    assert_eq!(monster_level_for_depth(2, 4), 2);
    assert_eq!(monster_level_for_depth(2, 6), 3);
    assert_eq!(monster_level_for_depth(4, 20), 12);
    assert_eq!(monster_level_for_depth(19, 20), 20);
    let t = tables();
    for depth in 1..=MAX_DEPTH {
        assert!(!spawn_table(&t, depth).is_empty());
    }
}

#[test]
fn seed_is_stable_fnv() {
    assert_eq!(dungeon_seed(""), 0xcbf2_9ce4_8422_2325);
    assert_eq!(dungeon_seed("a"), 0xaf63_dc4c_8601_ec8c);
}

#[test]
fn passability_floor_mapping() {
    assert_eq!(passability_floor_for_depth(1), DUNGEON_FLOOR_INDEX_BASE);
    assert_eq!(
        passability_floor_for_depth(MAX_DEPTH),
        DUNGEON_FLOOR_INDEX_BASE + MAX_DEPTH - 1
    );
    assert_eq!(passability_floor_for_level(-128), 131);
}

#[test]
fn cache_key_prefixes_the_entrance() {
    assert_eq!(dungeon_cache_key("old_crypt"), "dungeon:old_crypt");
    assert_eq!(dungeon_cache_key(""), "dungeon:");
}

#[test]
fn spawn_table_past_the_end_is_empty() {
    let t = tables();
    assert!(spawn_table(&t, 0).is_empty());
    assert!(spawn_table(&t, MAX_DEPTH + 1).is_empty());
    assert_eq!(spawn_table(&t, 12).len(), 3);
    assert_eq!(spawn_table(&t, 12)[2].monster_type, "troll");
}

#[test]
fn passability_has_a_grid_per_floor_and_a_stairwell_per_shaft() {
    let floors = gen(7);
    let rp = dungeon_passability(&floors);
    assert_eq!(rp.floors.len(), floors.len());
    // Surface entrance plus one per down shaft (every floor but the last).
    assert_eq!(rp.stairwells.len(), floors.len());
    assert_eq!(rp.stairwells[0].lower_floor, 0);
    assert_eq!(rp.stairwells[0].upper_floor, DUNGEON_FLOOR_INDEX_BASE);
    let r = floors[0].up_shaft.rect();
    assert_eq!(rp.stairwells[0].local_min_x, r.x);
    assert_eq!(rp.stairwells[0].local_max_z, r.z + r.d);
    for (i, g) in rp.floors.iter().enumerate() {
        assert_eq!(g.floor_level, passability_floor_for_depth(floors[i].depth));
        assert_eq!(g.cells.len(), (GRID * GRID) as usize);
        assert_eq!(g.width, 56);
    }
    for (k, s) in rp.stairwells.iter().enumerate().skip(1) {
        let upper = &floors[k - 1];
        assert_eq!(s.lower_floor, passability_floor_for_depth(upper.depth));
        assert_eq!(s.upper_floor, passability_floor_for_depth(upper.depth + 1));
        assert_eq!(Some(floors[k].up_shaft), upper.down_shaft);
    }
}

#[test]
fn door_ids_encode_wall_start_and_line() {
    for seed in 0..5u64 {
        for layout in gen(seed) {
            for d in interior_doors(&layout) {
                assert_eq!(
                    d.door_id,
                    (d.wall as u32) * 0x10000 + (d.lat0 as u32) * 0x100 + d.wall_line as u32
                );
                assert!(d.len >= 1 && d.lat0 >= 0 && d.lat0 + d.len <= GRID);
                assert!(door_hash(layout.depth as i32, d.wall as i32, d.lat0, d.wall_line) < 300);
            }
        }
    }
}

#[test]
fn spawn_tables_follow_the_dungeon_columns() {
    let t = tables();
    assert_eq!(t.len(), MAX_DEPTH as usize + 1);
    assert!(t[0].is_empty());
    let ids = |d: usize| t[d].iter().map(|e| e.monster_type.clone()).collect::<Vec<_>>();
    assert_eq!(ids(1), vec!["goblin"]);
    assert_eq!(ids(5), vec!["goblin", "skeleton"]);
    assert_eq!(ids(20), vec!["goblin", "skeleton", "troll"]);
    assert_eq!(t[12][2].weight, 1);
    assert!(t[12][2].aggressive);
    assert!(!t[12][0].aggressive);
    assert_eq!(t[3][0].weight, 3);
}

#[test]
fn spawn_table_text_quirks() {
    // CRLF line ends, padded cells, a leading '+', a zero weight (counts 1),
    // an unreadable maximum (down to the bottom) and a blank line.
    let csv = "dungeonAggressive , id,dungeonWeight,dungeonMinDepth,dungeonMaxDepth\r\n\
               true, bat ,0,+19,x\r\n\
               \r\n\
               TRUE,rat,7,3,4\r\n\
               false,ghost,5,300,\r\n";
    let t = build_spawn_tables(csv).unwrap();
    assert_eq!(t[19].len(), 1);
    assert_eq!(t[19][0].monster_type, "bat");
    assert_eq!(t[19][0].weight, 1);
    assert!(t[19][0].aggressive);
    assert_eq!(t[20][0].monster_type, "bat");
    assert_eq!(t[4].len(), 1);
    assert!(!t[4][0].aggressive);
    assert_eq!(t[4][0].weight, 7);
    assert!(t[5].is_empty());
    assert!(build_spawn_tables("id,dungeonMinDepth\n").is_none());
    let empty = build_spawn_tables("").unwrap();
    assert!(empty.iter().all(|d| d.is_empty()));
}

#[test]
fn depth_is_the_first_draw_of_the_seed_stream() {
    for seed in [0u64, 1, 42, 0xdead_beef, u64::MAX] {
        let mut rng = ChaCha8Rng::seed_from_u64(seed);
        assert_eq!(dungeon_depth(seed), rng.gen_range(MIN_DEPTH..=MAX_DEPTH));
    }
}

#[test]
fn a_stream_resumed_at_its_word_position_draws_as_one_generator() {
    // Generation holds a stream as (seed, word position) and resumes the
    // generator there for every draw; that must match drawing in sequence.
    let mut whole = ChaCha8Rng::seed_from_u64(7);
    let mut pos: u128 = 0;
    for k in 0..200u32 {
        let mut resumed = ChaCha8Rng::seed_from_u64(7);
        resumed.set_word_pos(pos);
        match k % 4 {
            0 => assert_eq!(resumed.gen_range(0..=k as i32), whole.gen_range(0..=k as i32)),
            1 => assert_eq!(resumed.gen_range(0..(k as usize + 1)), whole.gen_range(0..(k as usize + 1))),
            2 => assert_eq!(resumed.gen_range(0..(k + 1)), whole.gen_range(0..(k + 1))),
            _ => assert_eq!(resumed.gen_range(5u8..=20), whole.gen_range(5u8..=20)),
        }
        pos = resumed.get_word_pos();
        assert_eq!(pos, whole.get_word_pos());
    }
}

/// Cells reachable from `start` by moves the floor's collision cells allow,
/// never stepping onto stair cells off this floor's own landings.
fn walkable_from(f: &FloorLayout, start: (i32, i32)) -> Vec<bool> {
    let cells = floor_passability_cells(f);
    let idx = |x: i32, z: i32| (x + z * GRID) as usize;
    let landing_row = |s: &StairShaft, cell: (i32, i32), x: i32, z: i32| {
        if s.along_z { z == cell.1 } else { x == cell.0 }
    };
    let off_limits = |x: i32, z: i32| {
        (f.up_shaft.contains(x, z) && !landing_row(&f.up_shaft, f.up_shaft.exit_cell(), x, z))
            || f.down_shaft.as_ref().is_some_and(|d| d.contains(x, z) && !landing_row(d, d.entry_cell(), x, z))
    };
    let mut seen = vec![false; (GRID * GRID) as usize];
    let mut queue = vec![start];
    seen[idx(start.0, start.1)] = true;
    while let Some((x, z)) = queue.pop() {
        let here = cells[idx(x, z)];
        let moves = [(0, -1, EDGE_N, EDGE_S), (0, 1, EDGE_S, EDGE_N), (1, 0, EDGE_E, EDGE_W), (-1, 0, EDGE_W, EDGE_E)];
        for (dx, dz, out_bit, in_bit) in moves {
            let (nx, nz) = (x + dx, z + dz);
            if !f.is_carved(nx, nz) || off_limits(nx, nz) || seen[idx(nx, nz)] {
                continue;
            }
            if here & out_bit != 0 || cells[idx(nx, nz)] & in_bit != 0 {
                continue;
            }
            seen[idx(nx, nz)] = true;
            queue.push((nx, nz));
        }
    }
    seen
}

#[test]
fn every_floor_walks_from_its_arrival_to_its_way_down() {
    for seed in 0..60u64 {
        for f in gen(seed) {
            let seen = walkable_from(&f, f.up_shaft.exit_cell());
            let at = |c: (i32, i32)| seen[(c.0 + c.1 * GRID) as usize];
            match (f.down_shaft, f.chest) {
                (Some(d), _) => assert!(at(d.entry_cell()), "seed {seed} depth {}", f.depth),
                (None, Some(c)) => assert!(at(c), "seed {seed} depth {}", f.depth),
                (None, None) => panic!("seed {seed} depth {}: no way on", f.depth),
            }
        }
    }
}

#[test]
fn shaft_opens_to_room_only_at_its_landing() {
    const EDGES: [(i32, i32, u8, u8); 4] = [
        (0, -1, EDGE_N, EDGE_S),
        (0, 1, EDGE_S, EDGE_N),
        (1, 0, EDGE_E, EDGE_W),
        (-1, 0, EDGE_W, EDGE_E),
    ];

    for seed in 0..60u64 {
        let floors = gen(seed);
        for layout in &floors {
            let cells = floor_passability_cells(layout);
            let blocked = |x: i32, z: i32, leave: u8, nx: i32, nz: i32, enter: u8| {
                cells[(x + z * GRID) as usize] & leave != 0 || cells[(nx + nz * GRID) as usize] & enter != 0
            };

            let mut shaft = std::collections::HashSet::new();
            let mut landings = std::collections::HashSet::new();
            for (x, z) in shaft_footprint(&layout.up_shaft) {
                shaft.insert((x, z));
            }
            for w in 0..SHAFT_W {
                landings.insert(layout.up_shaft.step_cell(SHAFT_LEN - 1, w));
            }
            if let Some(ref d) = layout.down_shaft {
                for (x, z) in shaft_footprint(d) {
                    shaft.insert((x, z));
                }
                for w in 0..SHAFT_W {
                    landings.insert(d.step_cell(0, w));
                }
            }

            for &(x, z) in &shaft {
                for (dx, dz, leave, enter) in EDGES {
                    let (nx, nz) = (x + dx, z + dz);
                    if !(0..GRID).contains(&nx) || !(0..GRID).contains(&nz) {
                        continue;
                    }
                    if !layout.carved[(nx + nz * GRID) as usize] || shaft.contains(&(nx, nz)) {
                        continue;
                    }
                    if !blocked(x, z, leave, nx, nz, enter) {
                        assert!(
                            landings.contains(&(x, z)),
                            "seed {seed} depth {}: non-landing shaft cell ({x},{z}) opens into room cell ({nx},{nz})",
                            layout.depth
                        );
                    }
                }
            }

            let exit = layout.up_shaft.exit_cell();
            let step = layout.up_shaft.step_cell(SHAFT_LEN - 2, 0);
            let delta = (step.0 - exit.0, step.1 - exit.1);
            let &(_, _, leave, enter) = EDGES
                .iter()
                .find(|&&(dx, dz, _, _)| (dx, dz) == delta)
                .expect("adjacent steps differ by one cell");
            assert!(
                !blocked(exit.0, exit.1, leave, step.0, step.1, enter),
                "seed {seed} depth {}: up-shaft exit landing sealed off from its steps",
                layout.depth
            );
        }
    }
}

/// Pins the floors behind the "old_crypt" entrance, spawned from the test
/// table above, so that any change to the draw order or to what a floor
/// holds shows up as a new hash. The floors carry rooms, carving, shafts,
/// chest and spawns (no decorative props or wall torches), and the spawns
/// come from `MONSTERS_CSV`, so the value belongs to exactly that content.
#[test]
fn golden_layout_hash() {
    let floors = gen(dungeon_seed("old_crypt"));
    let h = layout_hash(&floors);
    assert_eq!(h, GOLDEN_OLD_CRYPT_HASH, "dungeon generation drifted: got {h:#x}");
}

const GOLDEN_OLD_CRYPT_HASH: u64 = 0xc52f_bf78_e5c9_5846;

#[test]
fn every_floor_gets_monsters_and_the_last_opens_with_the_boss() {
    for seed in 0..80u64 {
        let floors = gen(seed);
        let last = floors.len() - 1;
        for (i, f) in floors.iter().enumerate() {
            assert!(
                f.spawns.iter().any(|s| !s.is_boss),
                "seed {seed} depth {}: no regular monster",
                f.depth
            );
            for s in f.spawns.iter().filter(|s| !s.is_boss) {
                assert!(f.is_carved(s.x, s.z));
                assert!(!f.up_shaft.contains(s.x, s.z));
                assert!(f.down_shaft.map_or(true, |d| !d.contains(s.x, s.z)));
            }
            if i == last {
                assert!(f.spawns[0].is_boss, "seed {seed}: final floor opens without the boss");
            }
        }
    }
}

#[test]
fn a_walkable_lane_runs_beside_every_up_shaft() {
    for seed in 0..80u64 {
        for f in &gen(seed) {
            let u = f.up_shaft;
            let lane = |w: i32| (0..SHAFT_LEN).all(|i| {
                let (x, z) = u.step_cell(i, w);
                f.is_carved(x, z)
            });
            assert!(lane(-1) || lane(SHAFT_W), "seed {seed} depth {}: no lane beside the up shaft", f.depth);
            if let Some(d) = f.down_shaft {
                let (a, b) = (u.rect().expanded(1), d.rect().expanded(1));
                assert!(!a.intersects(&b), "seed {seed} depth {}: shafts crowd each other", f.depth);
            }
        }
    }
}
