//! States of a squad member.
use screeps_combat_decision::squad_fsm::{next_state, SquadFsmSnapshot, SquadFsmState};

const MOVE_TO_ROOM: SquadFsmState = SquadFsmState::MoveToRoom;
const COMBAT_RESPONSE: SquadFsmState = SquadFsmState::CombatResponse;
const ENGAGED: SquadFsmState = SquadFsmState::Engaged;
const RETREATING: SquadFsmState = SquadFsmState::Retreating;

/// In the target room, no threats, full health, squad ready and willing.
fn base() -> SquadFsmSnapshot {
    SquadFsmSnapshot {
        in_target_room: true,
        hostiles_nearby: false,
        hits: 100,
        hits_max: 100,
        combat_response_timed_out: false,
        squad_retreating: false,
        squad_ready_to_engage: true,
        squad_wants_engage: true,
    }
}

/// A share of full health.
fn at_health(share: f64) -> SquadFsmSnapshot {
    SquadFsmSnapshot { hits: (share * 100.0).round() as u32, hits_max: 100, ..base() }
}

#[test]
fn moveto_responds_to_ambush_then_retreat_then_engages_on_arrival() {
    let ambush = SquadFsmSnapshot {
        in_target_room: false,
        hostiles_nearby: true,
        squad_retreating: true,
        ..base()
    };
    assert_eq!(next_state(MOVE_TO_ROOM, &ambush), Some(COMBAT_RESPONSE));
    let retreat = SquadFsmSnapshot {
        in_target_room: false,
        hostiles_nearby: false,
        squad_retreating: true,
        ..base()
    };
    assert_eq!(next_state(MOVE_TO_ROOM, &retreat), Some(RETREATING));
    let arrived_ready =
        SquadFsmSnapshot { in_target_room: true, squad_ready_to_engage: true, ..base() };
    assert_eq!(next_state(MOVE_TO_ROOM, &arrived_ready), Some(ENGAGED));
    let arrived_rallying =
        SquadFsmSnapshot { in_target_room: true, squad_ready_to_engage: false, ..base() };
    assert_eq!(
        next_state(MOVE_TO_ROOM, &arrived_rallying),
        None,
        "no lone engage while the squad still rallies"
    );
    let traveling = SquadFsmSnapshot {
        in_target_room: false,
        hostiles_nearby: false,
        squad_retreating: false,
        ..base()
    };
    assert_eq!(next_state(MOVE_TO_ROOM, &traveling), None);
}

#[test]
fn combatresponse_retreats_engages_or_resumes() {
    assert_eq!(
        next_state(COMBAT_RESPONSE, &SquadFsmSnapshot { in_target_room: false, ..at_health(0.39) }),
        Some(RETREATING)
    );
    assert_eq!(
        next_state(
            COMBAT_RESPONSE,
            &SquadFsmSnapshot { squad_retreating: true, in_target_room: false, ..base() }
        ),
        Some(RETREATING)
    );
    assert_eq!(
        next_state(COMBAT_RESPONSE, &SquadFsmSnapshot { in_target_room: true, ..base() }),
        Some(ENGAGED)
    );
    assert_eq!(
        next_state(
            COMBAT_RESPONSE,
            &SquadFsmSnapshot { in_target_room: false, hostiles_nearby: false, ..base() }
        ),
        Some(MOVE_TO_ROOM)
    );
    assert_eq!(
        next_state(
            COMBAT_RESPONSE,
            &SquadFsmSnapshot {
                in_target_room: false,
                hostiles_nearby: true,
                combat_response_timed_out: true,
                ..base()
            }
        ),
        Some(MOVE_TO_ROOM)
    );
    assert_eq!(
        next_state(
            COMBAT_RESPONSE,
            &SquadFsmSnapshot { in_target_room: false, hostiles_nearby: true, ..base() }
        ),
        None
    );
}

#[test]
fn engaged_retreats_low_hp_or_signal_else_moves_back_if_left_room() {
    assert_eq!(next_state(ENGAGED, &at_health(0.49)), Some(RETREATING));
    assert_eq!(
        next_state(ENGAGED, &at_health(0.45)),
        Some(RETREATING),
        "40% would survive in CombatResponse but not Engaged"
    );
    assert_eq!(
        next_state(ENGAGED, &SquadFsmSnapshot { squad_retreating: true, ..base() }),
        Some(RETREATING)
    );
    assert_eq!(
        next_state(ENGAGED, &SquadFsmSnapshot { in_target_room: false, ..base() }),
        Some(MOVE_TO_ROOM)
    );
    assert_eq!(next_state(ENGAGED, &base()), None);
}

#[test]
fn retreating_reengages_on_recovery_but_never_while_squad_retreats() {
    assert_eq!(next_state(RETREATING, &at_health(0.81)), Some(ENGAGED));
    assert_eq!(
        next_state(RETREATING, &SquadFsmSnapshot { squad_wants_engage: true, ..at_health(0.61) }),
        Some(ENGAGED)
    );
    assert_eq!(
        next_state(RETREATING, &SquadFsmSnapshot { squad_wants_engage: false, ..at_health(0.61) }),
        None
    );
    assert_eq!(
        next_state(RETREATING, &SquadFsmSnapshot { squad_retreating: true, ..at_health(1.0) }),
        None
    );
}

#[test]
fn health_thresholds_are_exact() {
    let calm = SquadFsmSnapshot { squad_wants_engage: false, ..base() };
    assert_eq!(next_state(ENGAGED, &SquadFsmSnapshot { hits: 50, ..calm }), None);
    assert_eq!(
        next_state(COMBAT_RESPONSE, &SquadFsmSnapshot { hits: 40, ..calm }),
        Some(ENGAGED)
    );
    assert_eq!(next_state(RETREATING, &SquadFsmSnapshot { hits: 80, ..calm }), None);
    assert_eq!(
        next_state(RETREATING, &SquadFsmSnapshot { hits: 8001, hits_max: 10_000, ..calm }),
        Some(ENGAGED)
    );
    let eager = SquadFsmSnapshot { squad_wants_engage: true, ..base() };
    assert_eq!(next_state(RETREATING, &SquadFsmSnapshot { hits: 60, ..eager }), None);
}
