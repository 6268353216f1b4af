//! Pacing of new claims.
use screeps_combat_decision::claim_pacing::claims_allowed;

#[test]
fn budget_is_the_tighter_of_concurrent_and_forming_headroom() {
    // Nothing live: claim up to the forming cap, which binds here.
    assert_eq!(claims_allowed(0, 0, 4, 2), 2);
    // One forming squad: one forming slot left, three concurrent.
    assert_eq!(claims_allowed(1, 1, 4, 2), 1);
    // Two complete squads, none forming: the forming cap is the budget.
    assert_eq!(claims_allowed(2, 0, 4, 2), 2);
}

#[test]
fn forming_cap_lockup_blocks_all_new_claims() {
    assert_eq!(claims_allowed(1, 1, 4, 1), 0);
    assert_eq!(claims_allowed(2, 2, 4, 2), 0);
}

#[test]
fn concurrent_cap_blocks_regardless_of_forming() {
    assert_eq!(claims_allowed(4, 0, 4, 2), 0);
}

#[test]
fn more_than_the_caps_leaves_no_claims() {
    assert_eq!(claims_allowed(9, 0, 4, 2), 0);
    assert_eq!(claims_allowed(0, 9, 4, 2), 0);
    assert_eq!(claims_allowed(3, 0, 4, 2), 1);
}
