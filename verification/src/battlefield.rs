//! What a squad sees of a fight, and what its members can be told to do.
use crate::geometry::{Position, RoomName};
use vstd::prelude::*;

verus! {

/// An order to a creep.
#[derive(Clone, Copy, Debug, PartialEq, Eq)]
pub enum CombatIntent {
    /// Strike what stands next to it; without an id, the structure there.
    Attack { target: Position, id: Option<screeps::RawObjectId> },
    /// Shoot one target; without an id, the structure there.
    RangedAttack { target: Position, id: Option<screeps::RawObjectId> },
    /// Shoot all within range.
    RangedMassAttack,
    /// Heal a creep next to it, or itself.
    Heal { target: Position, id: Option<screeps::RawObjectId> },
    /// Heal a creep at a distance.
    RangedHeal { target: Position, id: Option<screeps::RawObjectId> },
    /// Take the structure next to it apart.
    Dismantle { target: Position, id: Option<screeps::RawObjectId> },
}

/// What the squad is set on: a creep by its id, or without one the structure at the place.
#[derive(Clone, Copy, Debug, PartialEq, Eq)]
pub struct FocusTarget {
    pub pos: Position,
    pub id: Option<screeps::RawObjectId>,
}

/// Whose a structure is.
#[derive(Clone, Copy, Debug, PartialEq, Eq, Structural)]
pub enum Ownership {
    Mine,
    Hostile,
    Neutral,
}

/// The structures that are worth razing for what they are; all others are worth it only as the
/// squad's focus.
#[derive(Clone, Copy, Debug, PartialEq, Eq, Structural)]
pub enum StructureKind {
    InvaderCore,
    Tower,
    Spawn,
    Other,
}

/// A structure in the room.
#[derive(Clone, Copy, Debug, PartialEq, Eq, Structural)]
pub struct CombatStructureDto {
    pub pos: Position,
    pub structure_type: StructureKind,
    pub hits: u32,
    pub ownership: Ownership,
}

/// An enemy creep that the squad can kill. Lists of them are in the order in which they are worth it.
#[derive(Clone, Copy, Debug, PartialEq, Eq)]
pub struct KillTarget {
    pub pos: Position,
    pub id: Option<screeps::RawObjectId>,
    /// The damage that kills it: its hits and what heals it meanwhile.
    pub budget: u32,
    /// The fighting strength that goes with it.
    pub threat_value: u32,
    /// Its working ATTACK parts.
    pub attack_parts: u32,
}

/// The damage that the enemy can do to each tile of a room per tick.
#[derive(Clone, Debug)]
pub struct ThreatField {
    room: RoomName,
    raw: Vec<i32>,
}

impl ThreatField {
    /// It has an entry for each tile.
    pub closed spec fn wf(&self) -> bool {
        self.raw@.len() == 2500
    }

    /// The room that it covers.
    pub closed spec fn covers(&self) -> RoomName {
        self.room
    }

    /// The damage at a tile of that room.
    pub closed spec fn damage_at(&self, x: int, y: int) -> i32 {
        self.raw@[x * 50 + y]
    }

    /// The damage at a place: none outside of the room.
    pub open spec fn raw(&self, pos: Position) -> int {
        if pos.room == self.covers() {
            self.damage_at(pos.x as int, pos.y as int) as int
        } else {
            0
        }
    }

    /// A field without damage.
    pub fn new(room: RoomName) -> (field: Self)
        ensures
            field.wf(),
            field.covers() == room,
            forall|x: int, y: int|
                0 <= x < 50 && 0 <= y < 50 ==> #[trigger] field.damage_at(x, y) == 0,
    {
        let mut raw: Vec<i32> = Vec::new();
        let mut i: usize = 0;
        while i < 2500
            invariant
                i <= 2500,
                raw@.len() == i,
                forall|k: int| 0 <= k < i ==> #[trigger] raw@[k] == 0,
            decreases 2500 - i,
        {
            raw.push(0);
            i = i + 1;
        }
        let field = ThreatField { room, raw };
        assert forall|x: int, y: int| 0 <= x < 50 && 0 <= y < 50 implies #[trigger] field.damage_at(
            x,
            y,
        ) == 0 by {
            assert(field.raw@[x * 50 + y] == 0);
        }
        field
    }

    /// Sets the damage at a tile.
    pub fn set(&mut self, x: u8, y: u8, damage: i32)
        requires
            old(self).wf(),
            x < 50,
            y < 50,
        ensures
            final(self).wf(),
            final(self).covers() == old(self).covers(),
            forall|a: int, b: int|
                0 <= a < 50 && 0 <= b < 50 ==> #[trigger] final(self).damage_at(a, b) == if a == x && b
                    == y {
                    damage
                } else {
                    old(self).damage_at(a, b)
                },
    {
        let k: usize = x as usize * 50 + y as usize;
        self.raw[k] = damage;
    }

    /// The damage at a place: none outside of the room.
    pub fn raw_at(&self, pos: Position) -> (damage: i32)
        requires
            self.wf(),
            pos.wf(),
        ensures
            damage == self.raw(pos),
    {
        if pos.room == self.room {
            let k: usize = pos.x as usize * 50 + pos.y as usize;
            self.raw[k]
        } else {
            0
        }
    }
}

}
