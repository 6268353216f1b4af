//! Keeping and retiring squads.
use screeps_combat_decision::lifecycle::{
    reconcile, ReconcileAction, ReconcileSnapshot, RetireReason,
};

/// A healthy committed squad on its way: not engaged, lease alive.
fn forming() -> ReconcileSnapshot {
    ReconcileSnapshot {
        objective_gone: false,
        duplicate: false,
        is_defend: false,
        deadline_lapsed: false,
        wiped: false,
        has_focus: false,
        engaged_once: false,
        in_target_room: false,
        has_members: true,
        forming: false,
        forming_progress: false,
    }
}

#[test]
fn forming_committed_squad_is_kept() {
    assert_eq!(reconcile(forming()), ReconcileAction::Keep);
}

#[test]
fn just_arrived_not_yet_engaged_is_kept_not_resolved() {
    let s = ReconcileSnapshot { in_target_room: true, ..forming() };
    assert_eq!(reconcile(s), ReconcileAction::Keep);
}

#[test]
fn engaging_refreshes_the_lease() {
    let s = ReconcileSnapshot {
        in_target_room: true,
        has_focus: true,
        engaged_once: true,
        ..forming()
    };
    assert_eq!(reconcile(s), ReconcileAction::KeepRefreshLease);
}

#[test]
fn cleared_target_resolves_with_withdraw_no_backoff() {
    let s = ReconcileSnapshot {
        engaged_once: true,
        in_target_room: true,
        has_focus: false,
        ..forming()
    };
    assert_eq!(
        reconcile(s),
        ReconcileAction::Retire {
            reason: RetireReason::Resolved,
            withdraw: true,
            mark_unwinnable: false
        }
    );
}

#[test]
fn stuck_en_route_gives_up_and_backs_off() {
    let s = ReconcileSnapshot { deadline_lapsed: true, ..forming() };
    assert_eq!(
        reconcile(s),
        ReconcileAction::Retire {
            reason: RetireReason::GaveUp,
            withdraw: false,
            mark_unwinnable: true
        }
    );
}

#[test]
fn engaging_past_lease_does_not_give_up() {
    let s = ReconcileSnapshot {
        deadline_lapsed: true,
        has_focus: true,
        in_target_room: true,
        engaged_once: true,
        ..forming()
    };
    assert_eq!(reconcile(s), ReconcileAction::KeepRefreshLease);
}

#[test]
fn wiped_retires_and_backs_off() {
    let s = ReconcileSnapshot { wiped: true, has_members: false, ..forming() };
    assert_eq!(
        reconcile(s),
        ReconcileAction::Retire {
            reason: RetireReason::Wiped,
            withdraw: false,
            mark_unwinnable: true
        }
    );
}

#[test]
fn wiped_defender_does_not_back_off() {
    let s = ReconcileSnapshot { wiped: true, has_members: false, is_defend: true, ..forming() };
    assert_eq!(
        reconcile(s),
        ReconcileAction::Retire {
            reason: RetireReason::Wiped,
            withdraw: false,
            mark_unwinnable: false
        }
    );
}

#[test]
fn objective_gone_retires_without_backoff() {
    let s = ReconcileSnapshot { objective_gone: true, deadline_lapsed: true, ..forming() };
    assert_eq!(
        reconcile(s),
        ReconcileAction::Retire {
            reason: RetireReason::ObjectiveGone,
            withdraw: false,
            mark_unwinnable: false
        }
    );
}

#[test]
fn forming_progressing_past_lease_is_kept_not_retired() {
    let s = ReconcileSnapshot {
        deadline_lapsed: true,
        forming: true,
        forming_progress: true,
        ..forming()
    };
    assert_eq!(reconcile(s), ReconcileAction::KeepRefreshLease);
}

#[test]
fn forming_non_progressing_past_lease_still_gives_up() {
    let s = ReconcileSnapshot {
        deadline_lapsed: true,
        forming: true,
        forming_progress: false,
        ..forming()
    };
    assert_eq!(
        reconcile(s),
        ReconcileAction::Retire {
            reason: RetireReason::GaveUp,
            withdraw: false,
            mark_unwinnable: true
        }
    );
}

#[test]
fn duplicate_retires_quietly() {
    let s = ReconcileSnapshot { duplicate: true, ..forming() };
    assert_eq!(
        reconcile(s),
        ReconcileAction::Retire {
            reason: RetireReason::Duplicate,
            withdraw: false,
            mark_unwinnable: false
        }
    );
}

#[test]
fn defender_that_gives_up_keeps_the_room_open() {
    let s = ReconcileSnapshot { deadline_lapsed: true, is_defend: true, ..forming() };
    assert_eq!(
        reconcile(s),
        ReconcileAction::Retire {
            reason: RetireReason::GaveUp,
            withdraw: false,
            mark_unwinnable: false
        }
    );
}
