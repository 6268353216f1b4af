//! The numbers of the game's rules that the decisions rest on.
use vstd::prelude::*;

verus! {

/// The most parts that a creep can have.
pub const MAX_CREEP_SIZE: u32 = 50;

/// Ticks that a creep lives.
pub const CREEP_LIFE_TIME: u32 = 1500;

/// Ticks that a spawn takes for each part.
pub const CREEP_SPAWN_TIME: u32 = 3;

/// Hits that an ATTACK part takes off a creep or a structure.
pub const ATTACK_POWER: u32 = 30;

/// Hits that a RANGED_ATTACK part takes off one target.
pub const RANGED_ATTACK_POWER: u32 = 10;

/// Hits that a WORK part takes off a structure.
pub const DISMANTLE_POWER: u32 = 50;

/// Hits that a HEAL part restores to an adjacent creep.
pub const HEAL_POWER: u32 = 12;

/// Hits that a HEAL part restores at a distance.
pub const RANGED_HEAL_POWER: u32 = 4;

/// Hits of a whole part.
pub const PART_HITS: u32 = 100;

/// Energy that each shot of a tower takes.
pub const TOWER_ENERGY_COST: u32 = 10;

/// Up to this range a tower has its full effect.
pub const TOWER_OPTIMAL_RANGE: u32 = 5;

/// From this range on a tower has a quarter of its effect.
pub const TOWER_FALLOFF_RANGE: u32 = 20;

/// What a tower takes off a creep at close range.
pub const TOWER_POWER_ATTACK: u32 = 600;

/// What a tower heals at close range.
pub const TOWER_POWER_HEAL: u32 = 400;

/// What a tower repairs at close range.
pub const TOWER_POWER_REPAIR: u32 = 800;

/// The numbers of the game that decisions rest on.
pub proof fn law_numbers_of_the_game()
    ensures
        MAX_CREEP_SIZE == 50 && CREEP_LIFE_TIME == 1500 && CREEP_SPAWN_TIME == 3,
        ATTACK_POWER == 30 && RANGED_ATTACK_POWER == 10 && DISMANTLE_POWER == 50,
        HEAL_POWER == 12 && RANGED_HEAL_POWER == 4 && PART_HITS == 100,
        TOWER_ENERGY_COST == 10 && TOWER_OPTIMAL_RANGE == 5 && TOWER_FALLOFF_RANGE == 20,
        TOWER_POWER_ATTACK == 600 && TOWER_POWER_HEAL == 400 && TOWER_POWER_REPAIR == 800,
{
}

}
