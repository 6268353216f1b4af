//! Towers and constants of the game.
use screeps_combat_decision::constants;
use screeps_combat_decision::damage::{
    tower_attack_damage_at_range, tower_heal_at_range, tower_repair_at_range,
};

#[test]
fn towers_fall_off_with_range() {
    assert_eq!(tower_attack_damage_at_range(1), 600);
    assert_eq!(tower_attack_damage_at_range(5), 600);
    assert_eq!(tower_attack_damage_at_range(10), 450);
    assert_eq!(tower_attack_damage_at_range(20), 150);
    assert_eq!(tower_attack_damage_at_range(49), 150);
    assert_eq!(tower_heal_at_range(5), 400);
    assert_eq!(tower_heal_at_range(20), 100);
    assert_eq!(tower_repair_at_range(5), 800);
    assert_eq!(tower_repair_at_range(20), 200);
}

#[test]
fn constants_are_those_of_the_game() {
    assert_eq!(constants::MAX_CREEP_SIZE, screeps::MAX_CREEP_SIZE);
    assert_eq!(constants::ATTACK_POWER, screeps::ATTACK_POWER);
    assert_eq!(constants::RANGED_ATTACK_POWER, screeps::RANGED_ATTACK_POWER);
    assert_eq!(constants::HEAL_POWER, screeps::HEAL_POWER);
    assert_eq!(constants::RANGED_HEAL_POWER, screeps::RANGED_HEAL_POWER);
    assert_eq!(constants::DISMANTLE_POWER, screeps::DISMANTLE_POWER);
}
