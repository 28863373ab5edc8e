//! The `RIV1` binary format of a tile's river segments, consumed by the
//! runtime ribbon mesh: a 16-byte header and 32 bytes per segment, every
//! number little-endian. Float fields travel as their IEEE-754 bit
//! patterns.
use vstd::prelude::*;

verus! {

/// One river segment: world-space endpoints `a` and `b`, the normalized
/// flow and the surface width at each end, each an `f32` held by its bits.
#[derive(Debug, Clone, Copy, PartialEq, Eq, Structural)]
pub struct RiverSegment {
    pub ax: u32,
    pub az: u32,
    pub bx: u32,
    pub bz: u32,
    pub flow_norm_a: u32,
    pub flow_norm_b: u32,
    pub width_a: u32,
    pub width_b: u32,
}

/// The baked terrain of one tile: row-major little-endian `u16`
/// heightmap bytes and splatmap bytes.
#[derive(Debug, Clone)]
pub struct BakedTile {
    pub heightmap: Vec<u8>,
    pub splatmap: Vec<u8>,
}

pub const RIVER_BIN_VERSION: u16 = 1;
pub const RIVER_BIN_HEADER_SIZE: usize = 16;
pub const RIVER_BIN_SEGMENT_SIZE: usize = 32;

/// The magic bytes `b"RIV1"`.
pub open spec fn river_magic() -> Seq<u8> {
    seq![0x52u8, 0x49u8, 0x56u8, 0x31u8]
}

pub open spec fn le16(v: u16) -> Seq<u8> {
    seq![(v & 0xff) as u8, ((v >> 8u16) & 0xff) as u8]
}

pub open spec fn le32(v: u32) -> Seq<u8> {
    seq![
        (v & 0xff) as u8,
        ((v >> 8u32) & 0xff) as u8,
        ((v >> 16u32) & 0xff) as u8,
        ((v >> 24u32) & 0xff) as u8,
    ]
}

/// The 32 bytes of one segment: endpoints, then widths, then flows.
pub open spec fn segment_bytes(s: RiverSegment) -> Seq<u8> {
    le32(s.ax) + le32(s.az) + le32(s.bx) + le32(s.bz) + le32(s.width_a) + le32(s.width_b) + le32(
        s.flow_norm_a,
    ) + le32(s.flow_norm_b)
}

pub open spec fn segments_bytes(ss: Seq<RiverSegment>) -> Seq<u8>
    decreases ss.len(),
{
    if ss.len() == 0 {
        Seq::empty()
    } else {
        segments_bytes(ss.drop_last()) + segment_bytes(ss.last())
    }
}

/// The whole file: magic, version, segment count, two reserved zero
/// words, then the segments in order.
pub open spec fn rivers_file(ss: Seq<RiverSegment>) -> Seq<u8> {
    river_magic() + le16(RIVER_BIN_VERSION) + le16(ss.len() as u16) + le32(0) + le32(0) + segments_bytes(ss)
}

fn push_le16(out: &mut Vec<u8>, v: u16)
    ensures
        final(out)@ == old(out)@ + le16(v),
{
    out.push((v & 0xff) as u8);
    out.push(((v >> 8u16) & 0xff) as u8);
    proof {
        assert(out@ =~= old(out)@ + le16(v));
    }
}

fn push_le32(out: &mut Vec<u8>, v: u32)
    ensures
        final(out)@ == old(out)@ + le32(v),
{
    out.push((v & 0xff) as u8);
    out.push(((v >> 8u32) & 0xff) as u8);
    out.push(((v >> 16u32) & 0xff) as u8);
    out.push(((v >> 24u32) & 0xff) as u8);
    proof {
        assert(out@ =~= old(out)@ + le32(v));
    }
}

/// Serialize a tile's river segments, or `None` for a tile without rivers
/// (no file is written for it). At most `u16::MAX` segments fit the count.
pub fn bake_rivers_binary(segments: &[RiverSegment]) -> (r: Option<Vec<u8>>)
    requires
        segments@.len() <= u16::MAX,
    ensures
        segments@.len() == 0 ==> r is None,
        segments@.len() > 0 ==> (r matches Some(bytes) && bytes@ == rivers_file(segments@)),
{
    if segments.len() == 0 {
        return None;
    }
    let n = segments.len();
    let mut out: Vec<u8> = Vec::new();
    out.push(0x52u8);
    out.push(0x49u8);
    out.push(0x56u8);
    out.push(0x31u8);
    proof {
        assert(out@ =~= river_magic());
    }
    push_le16(&mut out, RIVER_BIN_VERSION);
    push_le16(&mut out, n as u16);
    push_le32(&mut out, 0);
    push_le32(&mut out, 0);
    let ghost header = out@;
    let mut i: usize = 0;
    while i < n
        invariant
            n == segments@.len(),
            0 <= i <= n,
            header == river_magic() + le16(RIVER_BIN_VERSION) + le16(n as u16) + le32(0) + le32(0),
            out@ == header + segments_bytes(segments@.subrange(0, i as int)),
        decreases n - i,
    {
        let s = segments[i];
        let ghost before = out@;
        push_le32(&mut out, s.ax);
        push_le32(&mut out, s.az);
        push_le32(&mut out, s.bx);
        push_le32(&mut out, s.bz);
        push_le32(&mut out, s.width_a);
        push_le32(&mut out, s.width_b);
        push_le32(&mut out, s.flow_norm_a);
        push_le32(&mut out, s.flow_norm_b);
        proof {
            assert(segments@.subrange(0, i + 1).drop_last() =~= segments@.subrange(0, i as int));
            assert(out@ =~= before + segment_bytes(s));
            assert(out@ =~= header + segments_bytes(segments@.subrange(0, i + 1)));
        }
        i = i + 1;
    }
    proof {
        assert(segments@.subrange(0, n as int) =~= segments@);
    }
    Some(out)
}

/// A serialized file is 16 header bytes plus 32 bytes per segment.
pub proof fn lemma_rivers_file_len(ss: Seq<RiverSegment>)
    ensures
        rivers_file(ss).len() == RIVER_BIN_HEADER_SIZE + RIVER_BIN_SEGMENT_SIZE * ss.len(),
    decreases ss.len(),
{
    lemma_segments_len(ss);
}

proof fn lemma_segments_len(ss: Seq<RiverSegment>)
    ensures
        segments_bytes(ss).len() == 32 * ss.len(),
    decreases ss.len(),
{
    if ss.len() > 0 {
        lemma_segments_len(ss.drop_last());
    }
}

} // verus!
