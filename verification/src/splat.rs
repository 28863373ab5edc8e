//! Byte layout of a baked terrain tile's splatmap: four bytes per cell
//! (primary and secondary palette slot packed in the first, a reserved
//! byte, the blend weight, the vegetation byte), the rock test that ore
//! placement reads, and the per-tile seed of the ore roll.
use vstd::prelude::*;

verus! {

/// Cell-count side of a tile's splatmap (64 × 64 cells per tile).
pub const TILE_DIM: usize = 64;

/// Bytes per splat cell.
pub const CHANNELS: usize = 4;

/// Offset of the blend byte inside a splat cell.
pub const BLEND_OFFSET: usize = 2;

/// Palette slot of exposed rock (cliff faces).
pub const PAL_CLIFF: u8 = 5;

/// A cell with cliff only as its secondary texture counts as rock once
/// the blend is at least this strong.
pub const CLIFF_SECONDARY_MIN_BLEND: u8 = 64;

/// First vegetation byte of the short-grass band (`230..=239`).
pub const SHORT_GRASS_VEG_BASE: u8 = 230;

/// Largest short-grass density the band holds.
pub const SHORT_GRASS_MAX_DENSITY: u8 = 9;

/// Two's-complement wrap of `v` into `i32`.
pub open spec fn wrap_i32(v: int) -> int {
    let m = v % 0x1_0000_0000;
    if m > 0x7fff_ffff { m - 0x1_0000_0000 } else { m }
}

/// The per-tile seed of the ore roll: the tile coordinates multiplied by
/// their own prime pair with wrapping, then xored, so ore never correlates
/// with the vegetation seeds.
pub fn tile_seed_ore(tx: i32, tz: i32) -> (r: i32)
    ensures
        r == (wrap_i32(tx * 15_485_863) as i32) ^ (wrap_i32(tz * 32_452_843) as i32),
{
    tx.wrapping_mul(15_485_863) ^ tz.wrapping_mul(32_452_843)
}

/// Index of the first byte of cell `(cx, cz)`.
pub open spec fn cell_base(cx: int, cz: int) -> int {
    (cz * TILE_DIM + cx) * CHANNELS
}

/// Primary palette slot of a packed first byte.
pub open spec fn primary_of(b0: u8) -> u8 {
    b0 / 16
}

/// Secondary palette slot of a packed first byte.
pub open spec fn secondary_of(b0: u8) -> u8 {
    b0 % 16
}

/// Cell `(cx, cz)` is exposed or near-exposed rock: cliff as its primary
/// texture, or cliff bleeding in as secondary at a meaningful blend.
pub open spec fn rocky(splat: Seq<u8>, cx: int, cz: int) -> bool {
    let base = cell_base(cx, cz);
    primary_of(splat[base]) == PAL_CLIFF || (secondary_of(splat[base]) == PAL_CLIFF && splat[base
        + BLEND_OFFSET] >= CLIFF_SECONDARY_MIN_BLEND)
}

/// Is this splat cell exposed or near-exposed rock? Primary cliff texture,
/// or cliff bleeding in as secondary at a meaningful blend.
pub fn is_rocky_cell(splatmap: &[u8], cx: usize, cz: usize) -> (r: bool)
    requires
        cell_base(cx as int, cz as int) < splatmap@.len(),
        primary_of(splatmap@[cell_base(cx as int, cz as int)]) != PAL_CLIFF && secondary_of(
            splatmap@[cell_base(cx as int, cz as int)],
        ) == PAL_CLIFF ==> cell_base(cx as int, cz as int) + BLEND_OFFSET < splatmap@.len(),
    ensures
        r == rocky(splatmap@, cx as int, cz as int),
{
    let len = splatmap.len();
    assert(cz * 64 + cx <= len);
    let base = (cz * TILE_DIM + cx) * CHANNELS;
    let b0 = splatmap[base];
    let primary = b0 >> 4;
    let secondary = b0 & 0x0F;
    assert(primary == b0 / 16 && secondary == b0 % 16) by (bit_vector)
        requires
            primary == b0 >> 4,
            secondary == b0 & 0x0F,
    ;
    primary == PAL_CLIFF || (secondary == PAL_CLIFF && splatmap[base + BLEND_OFFSET]
        >= CLIFF_SECONDARY_MIN_BLEND)
}

/// Pack one splat cell into its four bytes: primary and secondary slot
/// (low four bits of each) in the first byte, primary high, then a
/// reserved zero byte, the blend and the vegetation byte.
pub fn pack_splat(primary: u8, secondary: u8, blend: u8, veg: u8) -> (r: [u8; 4])
    ensures
        r@ == seq![((primary % 16) * 16 + secondary % 16) as u8, 0u8, blend, veg],
{
    let b0 = ((primary & 0x0F) << 4) | (secondary & 0x0F);
    assert(b0 == (primary % 16) * 16 + secondary % 16) by (bit_vector)
        requires
            b0 == ((primary & 0x0F) << 4) | (secondary & 0x0F),
    ;
    let r = [b0, 0, blend, veg];
    assert(r@ =~= seq![((primary % 16) * 16 + secondary % 16) as u8, 0u8, blend, veg]);
    r
}

/// Short-grass vegetation bytes live in `230..=239`: pack a density there,
/// capped at 9.
pub fn short_grass_veg(density: u8) -> (r: u8)
    ensures
        r == SHORT_GRASS_VEG_BASE + (if density < SHORT_GRASS_MAX_DENSITY {
            density
        } else {
            SHORT_GRASS_MAX_DENSITY
        }),
{
    let capped = if density < SHORT_GRASS_MAX_DENSITY { density } else { SHORT_GRASS_MAX_DENSITY };
    SHORT_GRASS_VEG_BASE + capped
}

} // verus!
