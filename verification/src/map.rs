//! Terrain and country vocabularies.

use vstd::prelude::*;

verus! {

/// Cosmetic identity of a player slot. It plays no part in vision.
#[derive(Debug, Clone, Copy, PartialEq, Eq, Structural, Hash)]
pub enum CountryKind {
    OrangeStar,
    BlueMoon,
    GreenEarth,
    YellowComet,
    BlackHole,
    GreySky,
    BrownDesert,
    AmberBlaze,
    JadeSun,
    PinkCosmos,
    TealGalaxy,
    PurpleLightning,
    AcidRain,
    WhiteNove,
}

/// Terrain of one map cell.
#[derive(Debug, Clone, Copy, PartialEq, Eq, Structural, Hash)]
pub enum TileKind {
    Plain,
    Mountain,
    Forest,
    River,
    Road,
    Bridge,
    Sea,
    Shoal,
    Reef,
    City,
    Base,
    Airport,
    Harbour,
    HeadQuarters,
    Pipe,
    Silo,
    CommunicationsTower,
    Laboratory,
}

impl TileKind {
    /// The terrain conceals whatever stands on it from distant observers:
    /// forests and reefs do, nothing else does.
    pub open spec fn conceals(self) -> bool {
        self is Forest || self is Reef
    }

    /// Whether a unit on this terrain is hidden from non-adjacent observers.
    pub fn hides_units(&self) -> (hidden: bool)
        ensures
            hidden == self.conceals(),
    {
        match self {
            TileKind::Forest => true,
            TileKind::Reef => true,
            _ => false,
        }
    }
}

} // verus!
