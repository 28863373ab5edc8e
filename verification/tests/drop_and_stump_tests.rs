use onlinerpg::dungeon::{FloorLayout, StairShaft, GRID, SHAFT_LEN, SHAFT_W};
use onlinerpg::dungeon_runtime::{claim_chest, drop_ring_cells, take_loot, ChestRefusal, CHEST_COOLDOWN_MS};
use onlinerpg::woodcutting::{Stumps, TreeRef, TREE_RESPAWN_MS};
use std::collections::HashMap;

fn floor_with(carved_cells: &[(i32, i32)]) -> FloorLayout {
    let mut carved = vec![false; (GRID * GRID) as usize];
    for &(x, z) in carved_cells {
        carved[(x + z * GRID) as usize] = true;
    }
    FloorLayout {
        depth: 1,
        rooms: Vec::new(),
        carved,
        up_shaft: StairShaft { x: 40, z: 40, along_z: true, reversed: false },
        down_shaft: None,
        chest: None,
        spawns: Vec::new(),
    }
}

#[test]
fn loot_lands_on_the_nearest_ring_with_floor() {
    // Nothing one ring out; two floor cells two rings out, in row order.
    let f = floor_with(&[(12, 8), (8, 12)]);
    assert_eq!(drop_ring_cells(&f, 10, 10), Some(vec![(12, 8), (8, 12)]));
    // A floor cell one ring out wins over the farther ones.
    let g = floor_with(&[(12, 8), (8, 12), (11, 11)]);
    assert_eq!(drop_ring_cells(&g, 10, 10), Some(vec![(11, 11)]));
    // No floor within four rings, and far off the grid.
    assert_eq!(drop_ring_cells(&floor_with(&[(30, 30)]), 10, 10), None);
    assert_eq!(drop_ring_cells(&f, i32::MIN, 5), None);
}

#[test]
fn chest_loot_is_the_head_of_the_shuffled_pool() {
    let pool: Vec<String> = ["a", "b", "c", "d"].iter().map(|s| s.to_string()).collect();
    assert_eq!(take_loot(&pool, 3), vec!["a", "b", "c"]);
    assert_eq!(take_loot(&pool, 2), vec!["a", "b"]);
    assert_eq!(take_loot(&pool[..1].to_vec(), 3), vec!["a"]);
}

#[test]
fn opening_the_chest_starts_the_cooldown() {
    let mut opened = HashMap::new();
    assert_eq!(claim_chest(&mut opened, 7, 5, -5, true, false, 1_000), None);
    assert_eq!(opened.get(&7), Some(&1_000));
    assert_eq!(
        claim_chest(&mut opened, 7, 5, -5, true, false, 1_000 + CHEST_COOLDOWN_MS - 1),
        Some(ChestRefusal::Emptied)
    );
    assert_eq!(opened.get(&7), Some(&1_000));
    // Another player is not held back; a refusal records nothing.
    assert_eq!(claim_chest(&mut opened, 8, 5, -4, true, false, 2_000), Some(ChestRefusal::NotDeepest));
    assert!(!opened.contains_key(&8));
    assert_eq!(claim_chest(&mut opened, 7, 5, -5, true, false, 1_000 + CHEST_COOLDOWN_MS), None);
    assert_eq!(opened.get(&7), Some(&(1_000 + CHEST_COOLDOWN_MS)));
}

fn tree(index: u32) -> TreeRef {
    TreeRef { tile_x: 1, tile_z: 2, kind: 0, index }
}

#[test]
fn stumps_grow_back_after_the_respawn_time() {
    let mut stumps = Stumps::new();
    stumps.plant(tree(1), 0);
    stumps.plant(tree(2), 50_000);
    assert!(stumps.regrow(TREE_RESPAWN_MS as u64 - 1).is_empty());
    assert_eq!(stumps.regrow(TREE_RESPAWN_MS as u64), vec![tree(1)]);
    // Felling a stump's tree again restarts its timer.
    stumps.plant(tree(2), 100_000);
    assert!(stumps.regrow(170_000).is_empty());
    assert_eq!(stumps.regrow(220_000), vec![tree(2)]);
    assert!(stumps.entries.is_empty());
}

#[test]
fn shaft_steps_are_its_footprint_and_reverse_the_run() {
    for &(along_z, reversed) in &[(true, false), (true, true), (false, false), (false, true)] {
        let s = StairShaft { x: 10, z: 20, along_z, reversed };
        let flipped = StairShaft { reversed: !reversed, ..s };
        let mut seen = std::collections::HashSet::new();
        for i in 0..SHAFT_LEN {
            for w in 0..SHAFT_W {
                let c = s.step_cell(i, w);
                assert!(s.contains(c.0, c.1));
                assert!(seen.insert(c));
                assert_eq!(flipped.step_cell(i, w), s.step_cell(SHAFT_LEN - 1 - i, w));
            }
        }
        assert_eq!(seen.len(), (SHAFT_LEN * SHAFT_W) as usize);
        assert_eq!(s.entry_cell(), s.step_cell(0, 0));
        assert_eq!(s.exit_cell(), s.step_cell(SHAFT_LEN - 1, 0));
    }
}
