//! Officers, their power levels, and what they add to their units' sight.

use vstd::prelude::*;

verus! {

/// Power level an officer currently has active.
#[derive(Debug, Clone, Copy, PartialEq, Eq, Structural, Hash)]
pub enum PowerKind {
    /// No power is active.
    NoPower,
    Normal,
    Super,
}

/// Commanding officer of a player.
#[derive(Debug, Clone, Copy, PartialEq, Eq, Structural, Hash)]
pub enum OfficerKind {
    Andy,
    Hachi,
    Jake,
    Max,
    Nell,
    Rachel,
    Sami,
    Colin,
    Grit,
    Olaf,
    Sasha,
    Drake,
    Eagle,
    Javier,
    Jess,
    Grimm,
    Kanbei,
    Sensei,
    Sonja,
    Adder,
    Flak,
    Hawke,
    Jugger,
    Kindle,
    Koal,
    Lash,
    Sturm,
    VonBolt,
}

/// What an officer adds to the sight of every unit it commands.
#[derive(Debug, Clone, Copy, PartialEq, Eq, Structural, Hash)]
pub struct VisionModifier {
    /// Cells added to the unit's base vision range.
    pub bonus: u8,
    /// Whether concealing terrain within range is seen through.
    pub sees_through_cover: bool,
}

impl OfficerKind {
    /// The table of vision modifiers, keyed by officer and power level.
    /// Every pair without an entry of its own leaves sight unchanged.
    pub open spec fn vision_modifier_spec(self, power: PowerKind) -> VisionModifier {
        match (self, power) {
            (OfficerKind::Sonja, PowerKind::Super) => VisionModifier {
                bonus: 2,
                sees_through_cover: true,
            },
            (OfficerKind::Sonja, PowerKind::Normal) => VisionModifier {
                bonus: 2,
                sees_through_cover: true,
            },
            (OfficerKind::Sonja, PowerKind::NoPower) => VisionModifier {
                bonus: 1,
                sees_through_cover: false,
            },
            _ => VisionModifier { bonus: 0, sees_through_cover: false },
        }
    }

    /// Looks up what this officer, at the given power level, adds to sight.
    pub fn vision_modifier(&self, power: &PowerKind) -> (modifier: VisionModifier)
        ensures
            modifier == self.vision_modifier_spec(*power),
            modifier.bonus <= 2,
    {
        match (self, power) {
            (OfficerKind::Sonja, PowerKind::Super) => VisionModifier {
                bonus: 2,
                sees_through_cover: true,
            },
            (OfficerKind::Sonja, PowerKind::Normal) => VisionModifier {
                bonus: 2,
                sees_through_cover: true,
            },
            (OfficerKind::Sonja, PowerKind::NoPower) => VisionModifier {
                bonus: 1,
                sees_through_cover: false,
            },
            _ => VisionModifier { bonus: 0, sees_through_cover: false },
        }
    }
}

/// The modifier of a player that has no officer entry: sight is unchanged.
pub open spec fn no_modifier() -> VisionModifier {
    VisionModifier { bonus: 0, sees_through_cover: false }
}

} // verus!
