//! House building vocabulary: room and roof kinds and wall segments.
use vstd::prelude::*;

verus! {

#[derive(Debug, Clone, Copy, PartialEq, Eq, Structural)]
pub enum RoomType {
    Normal,
    Stairwell,
}

impl Default for RoomType {
    fn default() -> (r: Self)
        ensures
            r == RoomType::Normal,
    {
        RoomType::Normal
    }
}

#[derive(Debug, Clone, Copy, PartialEq, Eq, Structural)]
pub enum RoofType {
    Flat,
    Gabled,
    Steep,
}

impl Default for RoofType {
    fn default() -> (r: Self)
        ensures
            r == RoofType::Flat,
    {
        RoofType::Flat
    }
}

#[derive(Debug, Clone, Copy, PartialEq, Eq, Structural)]
pub enum RoofRidgeDir {
    Auto,
    X,
    Z,
}

impl Default for RoofRidgeDir {
    fn default() -> (r: Self)
        ensures
            r == RoofRidgeDir::Auto,
    {
        RoofRidgeDir::Auto
    }
}

#[derive(Debug, Clone, Copy, PartialEq, Eq, Structural)]
pub enum WallVariant {
    Solid,
    WithDoor,
    WithWindow,
    Open,
}

/// One 1 m wall segment.
#[derive(Debug, Clone, Copy, PartialEq, Eq, Structural)]
pub struct WallConfig {
    pub variant: WallVariant,
    pub texture: u8,
}

} // verus!
