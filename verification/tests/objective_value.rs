//! What objectives are worth.
use screeps_combat_decision::objective_value::{
    defense_risk, value_e, ObjectiveIntel, ObjectiveValueKind, DENIAL_DISCOUNT,
};

fn milli(x: f64) -> i64 {
    (x * 1000.0).round() as i64
}

/// The value as a plain number.
fn value(kind: ObjectiveValueKind, intel: ObjectiveIntel) -> f64 {
    value_e(kind, &intel) as f64 / 1000.0
}

#[test]
fn defend_value_scales_with_threat_danger_fixing_dps0_over_response() {
    let asset = 1_000_000.0;
    let harmless = value(
        ObjectiveValueKind::Defend,
        ObjectiveIntel { asset_value: milli(asset), threat_danger: milli(0.0), ..Default::default() },
    );
    assert_eq!(
        harmless, 0.0,
        "a dps=0 harmless threat is worth ~nothing to defend (the over-response fix)"
    );

    let dangerous = value(
        ObjectiveValueKind::Defend,
        ObjectiveIntel {
            asset_value: milli(asset),
            threat_danger: milli(300.0),
            ..Default::default()
        },
    );
    assert!(
        dangerous > asset * 0.8,
        "a high-dps assault puts most of the asset at risk: {dangerous}"
    );

    let mild = value(
        ObjectiveValueKind::Defend,
        ObjectiveIntel { asset_value: milli(asset), threat_danger: milli(30.0), ..Default::default() },
    );
    assert!(
        harmless < mild && mild < dangerous,
        "value_e is monotone in danger ({harmless} < {mild} < {dangerous})"
    );
}

#[test]
fn farm_core_is_denied_reservation_income() {
    let v = value(
        ObjectiveValueKind::FarmCore,
        ObjectiveIntel {
            income_per_tick: milli(10.0),
            horizon: milli(1500.0),
            ..Default::default()
        },
    );
    assert_eq!(v, 15_000.0);
}

#[test]
fn farm_sk_is_net_energy_floored() {
    let net = value(
        ObjectiveValueKind::FarmSourceKeeper,
        ObjectiveIntel {
            income_per_tick: milli(30.0),
            upkeep_per_tick: milli(10.0),
            horizon: milli(1000.0),
            ..Default::default()
        },
    );
    assert_eq!(net, 20_000.0, "(30 − 10) × 1000");
    let negative = value(
        ObjectiveValueKind::FarmSourceKeeper,
        ObjectiveIntel {
            income_per_tick: milli(5.0),
            upkeep_per_tick: milli(30.0),
            horizon: milli(1000.0),
            ..Default::default()
        },
    );
    assert_eq!(negative, 0.0, "a net-negative SK farm is worth nothing");
}

#[test]
fn farm_power_bank_is_existing_roi() {
    let v = value(
        ObjectiveValueKind::FarmPowerBank,
        ObjectiveIntel { roi: milli(42_000.0), ..Default::default() },
    );
    assert_eq!(v, 42_000.0);
}

#[test]
fn denial_is_discounted() {
    let v = value(
        ObjectiveValueKind::Denial,
        ObjectiveIntel { denial_value: milli(1000.0), ..Default::default() },
    );
    assert_eq!(v, 1000.0 * (DENIAL_DISCOUNT as f64 / 1000.0));
}

#[test]
fn high_value_defend_out_ranks_a_remote_economic_target() {
    let defend = value(
        ObjectiveValueKind::Defend,
        ObjectiveIntel {
            asset_value: milli(1_000_000.0),
            threat_danger: milli(300.0),
            ..Default::default()
        },
    );
    let remote_economy = value(
        ObjectiveValueKind::FarmCore,
        ObjectiveIntel { income_per_tick: milli(7.0), horizon: milli(1500.0), ..Default::default() },
    );
    assert!(
        remote_economy > 5_000.0,
        "the economic value is healthy (the fix), got {remote_economy}"
    );
    assert!(
        defend > remote_economy,
        "defense stays dominant: defend ({defend}) > remote economy ({remote_economy})"
    );
}

#[test]
fn value_e_is_nonnegative_and_deterministic() {
    let intel = ObjectiveIntel {
        asset_value: milli(500.0),
        threat_danger: milli(90.0),
        income_per_tick: milli(7.0),
        horizon: milli(200.0),
        upkeep_per_tick: milli(1.0),
        roi: milli(9.0),
        denial_value: milli(3.0),
    };
    for kind in [
        ObjectiveValueKind::Defend,
        ObjectiveValueKind::FarmCore,
        ObjectiveValueKind::FarmSourceKeeper,
        ObjectiveValueKind::FarmPowerBank,
        ObjectiveValueKind::Denial,
    ] {
        let a = value(kind, intel);
        assert!(a >= 0.0 && a.is_finite(), "{kind:?} → {a}");
        assert_eq!(a, value(kind, intel), "{kind:?} deterministic");
    }
}

#[test]
fn risk_is_half_where_danger_is_half() {
    assert_eq!(defense_risk(0), 0);
    assert_eq!(defense_risk(milli(30.0)), 500_000_000);
    assert_eq!(defense_risk(milli(-5.0)), 0);
    assert_eq!(defense_risk(milli(90.0)), 750_000_000);
}
