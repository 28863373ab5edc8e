use onlinerpg::grid::{bfs_distance_from, DIST_MAX};
use onlinerpg::splat::{
    is_rocky_cell, pack_splat, short_grass_veg, tile_seed_ore, CHANNELS, CLIFF_SECONDARY_MIN_BLEND, PAL_CLIFF, TILE_DIM,
};

#[test]
fn bfs_distances_wrap_east_west_only() {
    // One source in the middle of a 3 x 3 map.
    let mut mask = vec![0u8; 9];
    mask[4] = 1;
    assert_eq!(bfs_distance_from(&mask, 3, 1), vec![2, 1, 2, 1, 0, 1, 2, 1, 2]);
    // A source in the corner of a 4 x 4 map: X wraps, Y does not.
    let mut corner = vec![0u8; 16];
    corner[0] = 1;
    assert_eq!(
        bfs_distance_from(&corner, 4, 1),
        vec![0, 1, 2, 1, 1, 2, 3, 2, 2, 3, 4, 3, 3, 4, 5, 4]
    );
}

#[test]
fn bfs_takes_the_nearest_of_several_sources() {
    let mask = vec![1u8, 0, 0, 0, 0, 0, 0, 0, 1];
    assert_eq!(bfs_distance_from(&mask, 3, 1), vec![0, 1, 1, 1, 2, 1, 1, 1, 0]);
}

#[test]
fn bfs_without_a_source_saturates_everywhere() {
    let mask = vec![0u8; 4];
    assert_eq!(bfs_distance_from(&mask, 2, 1), vec![DIST_MAX; 4]);
    assert_eq!(bfs_distance_from(&[], 0, 1), Vec::<u16>::new());
    // A mask shorter than the map: the missing cells are no sources.
    assert_eq!(bfs_distance_from(&[1u8], 2, 1), vec![0, 1, 1, 2]);
}

#[test]
fn ore_tile_seed_wraps_and_xors() {
    assert_eq!(tile_seed_ore(0, 0), 0);
    assert_eq!(tile_seed_ore(7, -3), -62620498);
    assert_eq!(tile_seed_ore(1000, 2000), -2018922584);
    assert_eq!(tile_seed_ore(-1, 1), -17005390);
    assert_ne!(tile_seed_ore(7, -3), tile_seed_ore(8, -3));
}

fn splat_all(b0: u8, blend: u8) -> Vec<u8> {
    let mut out = vec![0u8; TILE_DIM * TILE_DIM * CHANNELS];
    for cell in out.chunks_exact_mut(CHANNELS) {
        cell[0] = b0;
        cell[2] = blend;
    }
    out
}

#[test]
fn rock_is_primary_cliff_or_a_strong_secondary_blend() {
    let cliff = splat_all(PAL_CLIFF << 4, 0);
    assert!(is_rocky_cell(&cliff, 0, 0));
    assert!(is_rocky_cell(&cliff, 63, 63));
    for palette in [0u8, 1, 2, 3, 4, 6, 7, 8] {
        assert!(!is_rocky_cell(&splat_all(palette << 4, 255), 10, 10));
    }
    let faint = splat_all(PAL_CLIFF, CLIFF_SECONDARY_MIN_BLEND - 1);
    assert!(!is_rocky_cell(&faint, 5, 5));
    let strong = splat_all(PAL_CLIFF, CLIFF_SECONDARY_MIN_BLEND);
    assert!(is_rocky_cell(&strong, 5, 5));
}

#[test]
fn splat_cells_pack_into_four_bytes() {
    assert_eq!(pack_splat(3, 1, 200, 17), [0x31, 0, 200, 17]);
    // Only the low four bits of each slot are kept.
    assert_eq!(pack_splat(0x1f, 0x2a, 0, 0), [0xfa, 0, 0, 0]);
}

#[test]
fn short_grass_density_is_capped_at_nine() {
    assert_eq!(short_grass_veg(0), 230);
    assert_eq!(short_grass_veg(4), 234);
    assert_eq!(short_grass_veg(9), 239);
    assert_eq!(short_grass_veg(200), 239);
}
