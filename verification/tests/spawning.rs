//! Bodies from repeat templates.
use screeps_combat_decision::constants::MAX_CREEP_SIZE;
use screeps_combat_decision::parts::{body_cost, Part};
use screeps_combat_decision::spawning::{create_body, SpawnBodyDefinition};

#[test]
fn create_body_rejects_unaffordable_fixed_body() {
    // Work (100) + Move (50) = 150 > 100 maximum energy.
    let definition = SpawnBodyDefinition {
        maximum_energy: 100,
        minimum_repeat: None,
        maximum_repeat: None,
        pre_body: &[Part::Work],
        repeat_body: &[],
        post_body: &[Part::Move],
    };

    assert!(create_body(&definition).is_err());
}

#[test]
fn create_body_rejects_unaffordable_minimum_repeat() {
    // 3 x (Work + Move) = 450 > 300 maximum energy.
    let definition = SpawnBodyDefinition {
        maximum_energy: 300,
        minimum_repeat: Some(3),
        maximum_repeat: None,
        pre_body: &[],
        repeat_body: &[Part::Work, Part::Move],
        post_body: &[],
    };

    assert!(create_body(&definition).is_err());
}

#[test]
fn create_body_clamps_repeat_to_maximum_repeat() {
    // Plenty of energy, but maximum_repeat caps the body at 2 repeats.
    let definition = SpawnBodyDefinition {
        maximum_energy: 10_000,
        minimum_repeat: Some(1),
        maximum_repeat: Some(2),
        pre_body: &[],
        repeat_body: &[Part::Work, Part::Move],
        post_body: &[],
    };

    let body = create_body(&definition).expect("expected body");

    assert_eq!(body, vec![Part::Work, Part::Move, Part::Work, Part::Move]);
}

#[test]
fn create_body_clamps_repeat_to_energy_budget() {
    // 500 energy / 150 per (Work + Move) repeat = 3 full repeats.
    let definition = SpawnBodyDefinition {
        maximum_energy: 500,
        minimum_repeat: Some(1),
        maximum_repeat: None,
        pre_body: &[],
        repeat_body: &[Part::Work, Part::Move],
        post_body: &[],
    };

    let body = create_body(&definition).expect("expected body");

    assert_eq!(body.len(), 6);
    let cost = body_cost(&body);
    assert!(cost <= 500, "body cost {} exceeded energy budget", cost);
}

#[test]
fn create_body_caps_total_parts_at_max_creep_size() {
    // Effectively unlimited energy: the length clamp must hold.
    let definition = SpawnBodyDefinition {
        maximum_energy: 1_000_000,
        minimum_repeat: Some(1),
        maximum_repeat: None,
        pre_body: &[Part::Carry],
        repeat_body: &[Part::Move],
        post_body: &[Part::Carry],
    };

    let body = create_body(&definition).expect("expected body");

    assert!(body.len() <= MAX_CREEP_SIZE as usize);
}

#[test]
fn parts_cost_what_the_game_charges() {
    assert_eq!(body_cost(&[Part::Move]), 50);
    assert_eq!(body_cost(&[Part::Work]), 100);
    assert_eq!(body_cost(&[Part::Carry]), 50);
    assert_eq!(body_cost(&[Part::Attack]), 80);
    assert_eq!(body_cost(&[Part::RangedAttack]), 150);
    assert_eq!(body_cost(&[Part::Tough]), 10);
    assert_eq!(body_cost(&[Part::Heal]), 250);
    assert_eq!(body_cost(&[Part::Claim]), 600);
    assert_eq!(body_cost(&[]), 0);
}

#[test]
fn fixed_parts_frame_the_repeats_and_too_many_are_refused() {
    let framed = SpawnBodyDefinition {
        maximum_energy: 360,
        minimum_repeat: None,
        maximum_repeat: None,
        pre_body: &[Part::Tough],
        repeat_body: &[Part::Work],
        post_body: &[Part::Move],
    };
    assert_eq!(
        create_body(&framed),
        Ok(vec![Part::Tough, Part::Work, Part::Work, Part::Work, Part::Move])
    );
    let long = vec![Part::Tough; 51];
    let too_long = SpawnBodyDefinition {
        maximum_energy: 10_000,
        minimum_repeat: None,
        maximum_repeat: None,
        pre_body: &long,
        repeat_body: &[],
        post_body: &[],
    };
    assert_eq!(create_body(&too_long), Err(()));
}
