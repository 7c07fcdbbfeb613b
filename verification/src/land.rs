//! Terrain cells of a board, and the catalog of terrain kinds.

use vstd::prelude::*;

verus! {

/// The kind of a terrain cell.
#[derive(Debug, Copy, Clone, Eq, PartialEq, Hash, Structural)]
pub enum LandKind {
    /// Shallow water.
    Sea,
    /// High ground.
    Mountain,
    /// Wooded ground.
    Forest,
    /// Flat, settleable ground.
    Plain,
    /// A placed settlement.
    Town,
    /// The top of a mountain, where altitude diffusion originated.
    Top,
    /// Ground above the mountain band.
    Highland,
    /// Deep water.
    DeepSea,
    /// A cell lying on a route between two towns.
    Path,
}

/// The 256-color terminal color assigned to each kind by the preset catalog.
pub open spec fn spec_color_code(kind: LandKind) -> u8 {
    match kind {
        LandKind::Sea => 81,
        LandKind::Mountain => 94,
        LandKind::Forest => 22,
        LandKind::Plain => 118,
        LandKind::Town => 226,
        LandKind::Top => 102,
        LandKind::Highland => 58,
        LandKind::DeepSea => 63,
        LandKind::Path => 193,
    }
}

impl LandKind {
    /// The preset cell for this kind, with the given altitude.
    pub fn preset(self, altitude: u8) -> (r: Land)
        ensures
            r.kind == self,
            r.altitude == altitude,
    {
        Land { kind: self, altitude }
    }

    /// The 256-color terminal color of the preset cell for this kind.
    pub fn color_code(self) -> (r: u8)
        ensures
            r == spec_color_code(self),
    {
        match self {
            LandKind::Sea => 81,
            LandKind::Mountain => 94,
            LandKind::Forest => 22,
            LandKind::Plain => 118,
            LandKind::Town => 226,
            LandKind::Top => 102,
            LandKind::Highland => 58,
            LandKind::DeepSea => 63,
            LandKind::Path => 193,
        }
    }

    /// A human-readable legend for this kind.
    pub fn legend(self) -> (r: &'static str)
        ensures
            r@ == spec_legend(self),
    {
        match self {
            LandKind::Sea => "Sea",
            LandKind::Mountain => "Mountain",
            LandKind::Forest => "Forest",
            LandKind::Plain => "Plain",
            LandKind::Town => "Town",
            LandKind::Top => "Top of Mountain",
            LandKind::Highland => "Highland",
            LandKind::DeepSea => "Deep Sea",
            LandKind::Path => "Path",
        }
    }
}

/// The legend string of each kind.
pub open spec fn spec_legend(kind: LandKind) -> Seq<char> {
    match kind {
        LandKind::Sea => "Sea"@,
        LandKind::Mountain => "Mountain"@,
        LandKind::Forest => "Forest"@,
        LandKind::Plain => "Plain"@,
        LandKind::Town => "Town"@,
        LandKind::Top => "Top of Mountain"@,
        LandKind::Highland => "Highland"@,
        LandKind::DeepSea => "Deep Sea"@,
        LandKind::Path => "Path"@,
    }
}

/// One cell of a board: a terrain kind together with its altitude.
#[derive(Debug, Copy, Clone, Eq, PartialEq, Hash, Structural)]
pub struct Land {
    /// Kind of the cell: sea, plain, mountain, forest, ...
    pub kind: LandKind,
    /// Altitude of the cell, always in `0..=99` for generated boards.
    pub altitude: u8,
}

} // verus!
