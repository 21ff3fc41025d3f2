//! Character data shared by the tools that consume decoded sprites:
//! the action table, character kinds, and the part records that the
//! asset tables are keyed by.

use vstd::prelude::*;

use std::collections::HashMap;

verus! {

/// The animation actions of the legacy action table, in its column
/// order. `code` gives each action's column number.
#[derive(Copy, Clone, Debug, PartialEq, Eq, Hash, Structural)]
pub enum ActionId {
    FreeStand1,
    FreeStand2,
    FreeStand3,
    MeleeWStand,
    RangeWStand,
    DoubleWStand,
    FreeWalk,
    NormalWalk,
    MeleeWWalk,
    RangeWWalk,
    DoubleWWalk,
    FreeRun,
    NormalRun,
    MeleeWRun,
    RangeWRun,
    DoubleWRun,
    FreeWound,
    MeleeWWound,
    RangeWWound,
    DoubleWWound,
    FreeDie,
    MeleeWDie,
    RangeWDie,
    DoubleWDie,
    FreeAttack,
    MeleeWPuncture,
    MeleeWCut,
    RangeWPuncture,
    RangeWCut,
    DoubleWPull,
    DoubleWPound,
    DartThrow,
    FreeMagic,
    MeleeWMagic,
    RangeWMagic,
    DoubleWMagic,
    SitDown,
    JumpFly,
    RideStand,
    RideWalk,
    RideRun,
    RideCut,
    RidePuncture,
    RideMagic,
    RideWound,
    RideDie,
    RideStand1,
    RideStand2,
}

/// The column number of an action in the legacy action table.
pub open spec fn spec_action_code(a: ActionId) -> u8 {
    match a {
        ActionId::FreeStand1 => 0,
        ActionId::FreeStand2 => 1,
        ActionId::FreeStand3 => 2,
        ActionId::MeleeWStand => 3,
        ActionId::RangeWStand => 4,
        ActionId::DoubleWStand => 5,
        ActionId::FreeWalk => 6,
        ActionId::NormalWalk => 7,
        ActionId::MeleeWWalk => 8,
        ActionId::RangeWWalk => 9,
        ActionId::DoubleWWalk => 10,
        ActionId::FreeRun => 11,
        ActionId::NormalRun => 12,
        ActionId::MeleeWRun => 13,
        ActionId::RangeWRun => 14,
        ActionId::DoubleWRun => 15,
        ActionId::FreeWound => 16,
        ActionId::MeleeWWound => 17,
        ActionId::RangeWWound => 18,
        ActionId::DoubleWWound => 19,
        ActionId::FreeDie => 20,
        ActionId::MeleeWDie => 21,
        ActionId::RangeWDie => 22,
        ActionId::DoubleWDie => 23,
        ActionId::FreeAttack => 24,
        ActionId::MeleeWPuncture => 25,
        ActionId::MeleeWCut => 26,
        ActionId::RangeWPuncture => 27,
        ActionId::RangeWCut => 28,
        ActionId::DoubleWPull => 29,
        ActionId::DoubleWPound => 30,
        ActionId::DartThrow => 31,
        ActionId::FreeMagic => 32,
        ActionId::MeleeWMagic => 33,
        ActionId::RangeWMagic => 34,
        ActionId::DoubleWMagic => 35,
        ActionId::SitDown => 36,
        ActionId::JumpFly => 37,
        ActionId::RideStand => 38,
        ActionId::RideWalk => 39,
        ActionId::RideRun => 40,
        ActionId::RideCut => 41,
        ActionId::RidePuncture => 42,
        ActionId::RideMagic => 43,
        ActionId::RideWound => 44,
        ActionId::RideDie => 45,
        ActionId::RideStand1 => 46,
        ActionId::RideStand2 => 47,
    }
}

impl ActionId {
    /// The column number of this action in the legacy action table.
    pub fn code(self) -> (r: u8)
        ensures
            r == spec_action_code(self),
    {
        match self {
            ActionId::FreeStand1 => 0,
            ActionId::FreeStand2 => 1,
            ActionId::FreeStand3 => 2,
            ActionId::MeleeWStand => 3,
            ActionId::RangeWStand => 4,
            ActionId::DoubleWStand => 5,
            ActionId::FreeWalk => 6,
            ActionId::NormalWalk => 7,
            ActionId::MeleeWWalk => 8,
            ActionId::RangeWWalk => 9,
            ActionId::DoubleWWalk => 10,
            ActionId::FreeRun => 11,
            ActionId::NormalRun => 12,
            ActionId::MeleeWRun => 13,
            ActionId::RangeWRun => 14,
            ActionId::DoubleWRun => 15,
            ActionId::FreeWound => 16,
            ActionId::MeleeWWound => 17,
            ActionId::RangeWWound => 18,
            ActionId::DoubleWWound => 19,
            ActionId::FreeDie => 20,
            ActionId::MeleeWDie => 21,
            ActionId::RangeWDie => 22,
            ActionId::DoubleWDie => 23,
            ActionId::FreeAttack => 24,
            ActionId::MeleeWPuncture => 25,
            ActionId::MeleeWCut => 26,
            ActionId::RangeWPuncture => 27,
            ActionId::RangeWCut => 28,
            ActionId::DoubleWPull => 29,
            ActionId::DoubleWPound => 30,
            ActionId::DartThrow => 31,
            ActionId::FreeMagic => 32,
            ActionId::MeleeWMagic => 33,
            ActionId::RangeWMagic => 34,
            ActionId::DoubleWMagic => 35,
            ActionId::SitDown => 36,
            ActionId::JumpFly => 37,
            ActionId::RideStand => 38,
            ActionId::RideWalk => 39,
            ActionId::RideRun => 40,
            ActionId::RideCut => 41,
            ActionId::RidePuncture => 42,
            ActionId::RideMagic => 43,
            ActionId::RideWound => 44,
            ActionId::RideDie => 45,
            ActionId::RideStand1 => 46,
            ActionId::RideStand2 => 47,
        }
    }
}

#[derive(Copy, Clone, Debug, PartialEq, Eq, Hash, Structural)]
pub enum Sex {
    Man,
    Lady,
}

/// What drives a character: a player-controlled special character of a
/// given sex, rendered from many layers, or an ordinary scripted one.
#[derive(Debug)]
pub enum NpcKind {
    Special(Sex),
    Normal,
}

/// One character in the world: its identity, facing direction, current
/// action and kind.
#[derive(Debug)]
pub struct Npc {
    pub id: u64,
    pub name: String,
    pub dir: u8,
    pub state: ActionId,
    pub kind: NpcKind,
}

/// One entry of an asset table: the identifier a part is looked up by.
#[derive(Debug, Clone)]
pub struct PartData {
    pub id: String,
}

/// The visual part tables for one body: what can fill each slot.
pub struct VisualSlots {
    pub head: HashMap<String, PartData>,
    pub body: HashMap<String, PartData>,
    pub weapon: HashMap<String, PartData>,
    pub horse: HashMap<String, PartData>,
}

/// Everything the character tables provide: the current action and the
/// part tables for both player bodies and for ordinary characters.
pub struct NpcAssets {
    pub action: ActionId,
    pub male: VisualSlots,
    pub female: VisualSlots,
    pub npcs: HashMap<String, PartData>,
}

} // verus!
