//! Giving squads their objectives.
use screeps_combat_decision::assignment::{
    build_ev_matrix, solve_assignment, CapClass, ColumnKind, EvMatrix, MatrixParams, ObjectiveCell,
    SquadRow, INFEASIBLE_EV,
};
use screeps_combat_decision::composition::SquadCapabilities;
use screeps_combat_decision::force_sizing::DefenseProfile;
use screeps_combat_decision::objective_value::{ObjectiveIntel, ObjectiveValueKind};

fn milli(x: f64) -> i64 {
    (x * 1000.0).round() as i64
}

/// A logistic curve of the surplus.
fn curve(have: i128, need: i128) -> u64 {
    let surplus = have as f64 / need as f64 - 1.0;
    (1e9 / (1.0 + (-5.0 * surplus).exp())).round() as u64
}

fn caps(structure_dps: u32, heal: u32) -> SquadCapabilities {
    SquadCapabilities { heal_per_tick: heal, structure_dps, tank_effective_hp: 2000 }
}

fn undefended_obj(id: u32, denial: f64, n_rows: usize) -> ObjectiveCell {
    ObjectiveCell {
        id,
        class: CapClass::Offense,
        value_kind: ObjectiveValueKind::Denial,
        intel: ObjectiveIntel { denial_value: milli(denial * 2.0), ..Default::default() },
        defense: DefenseProfile::default(),
        enemy: None,
        travel_rooms_per_row: vec![0; n_rows],
        feasible_per_row: vec![true; n_rows],
    }
}

fn offense_row(structure_dps: u32, current: Option<u32>) -> SquadRow {
    SquadRow { caps: caps(structure_dps, 50), class: CapClass::Offense, current_objective: current, recycle_ev: 0 }
}

fn greedy_baseline(matrix: &EvMatrix) -> i64 {
    let mut covered = vec![false; matrix.cols()];
    let mut total = 0i64;
    for r in 0..matrix.rows {
        let mut best: Option<(usize, i64)> = None;
        for (c, col) in matrix.columns.iter().enumerate() {
            let is_shared = matches!(col, ColumnKind::Objective { .. });
            if is_shared && covered[c] {
                continue;
            }
            let ev = matrix.at(r, c);
            if ev == INFEASIBLE_EV {
                continue;
            }
            if best.map(|(_, b)| ev > b).unwrap_or(true) {
                best = Some((c, ev));
            }
        }
        if let Some((c, ev)) = best {
            if matches!(matrix.columns[c], ColumnKind::Objective { .. }) {
                covered[c] = true;
            }
            total += ev;
        }
    }
    total
}

#[test]
fn hungarian_strictly_beats_greedy_on_total_ev() {
    let squad_a = offense_row(1000, None);
    let squad_b = offense_row(120, None);

    let val = 50_000.0;
    let mut obj_h = undefended_obj(0, val, 2);
    let mut obj_l = undefended_obj(1, val, 2);
    obj_l.feasible_per_row = vec![true, false];
    obj_h.intel.denial_value = milli(val * 2.0 + 2.0);

    let squads = [squad_a, squad_b];
    let objs = [obj_h, obj_l];
    let m = build_ev_matrix(&squads, &objs, &MatrixParams::default(), &curve);

    let greedy = greedy_baseline(&m);
    let sol = solve_assignment(&m);

    assert!(
        sol.total_ev > greedy,
        "global Hungarian must STRICTLY beat greedy: hungarian={} greedy={} cols={:?} assign={:?}",
        sol.total_ev,
        greedy,
        m.columns,
        sol.row_to_col
    );
    assert_eq!(sol.row_to_col[1], Some(0), "B must take H (its only winnable objective)");
    assert_eq!(sol.row_to_col[0], Some(1), "A yields H to take L — the global swap greedy misses");
}

#[test]
fn ev_positive_gate_prefers_stayput_over_a_subthreshold_objective() {
    let high = undefended_obj(0, 100_000.0, 1);
    let low = undefended_obj(1, 5.0, 1);
    let row = offense_row(1000, Some(0));
    let mut low = low;
    low.feasible_per_row = vec![true];
    let squads = [row];
    let objs = [high.clone(), low];
    let m = build_ev_matrix(&squads, &objs, &MatrixParams::default(), &curve);
    let sol = solve_assignment(&m);
    let c = sol.row_to_col[0].expect("assigned");
    match m.columns[c] {
        ColumnKind::Objective { id } => assert_ne!(id, 1, "must not take the sub-threshold low objective"),
        ColumnKind::StayPut { .. } | ColumnKind::Recycle { .. } => {}
    }
    let stay_col = 2;
    let stay_ev = m.at(0, 0).max(m.at(0, stay_col));
    assert_eq!(sol.total_ev, stay_ev, "optimum keeps the high-value fight, not the low objective");
}

#[test]
fn recycle_wins_when_no_objective_is_net_positive() {
    let mut obj = undefended_obj(0, 1.0, 1);
    obj.defense = DefenseProfile { safe_mode: true, ..Default::default() };
    obj.travel_rooms_per_row = vec![5];
    let row = SquadRow { caps: caps(120, 50), class: CapClass::Offense, current_objective: None, recycle_ev: 0 };
    let squads = [row];
    let objs = [obj];
    let m = build_ev_matrix(&squads, &objs, &MatrixParams::default(), &curve);
    let sol = solve_assignment(&m);
    let c = sol.row_to_col[0].expect("assigned");
    assert_eq!(m.columns[c], ColumnKind::Recycle { row: 0 }, "a no-win squad recycles (EV 0) rather than walk into a loss");
    assert_eq!(sol.total_ev, 0, "recycle EV is 0 — the net-negative floor");
}

#[test]
fn capability_class_is_a_hard_prefilter() {
    let offense_obj = undefended_obj(0, 100_000.0, 1);
    let defender = SquadRow { caps: caps(1000, 50), class: CapClass::Defense, current_objective: None, recycle_ev: 0 };
    let squads = [defender];
    let objs = [offense_obj];
    let m = build_ev_matrix(&squads, &objs, &MatrixParams::default(), &curve);
    assert_eq!(m.at(0, 0), INFEASIBLE_EV, "a Defense squad ↔ an Offense objective is infeasible");
    let sol = solve_assignment(&m);
    let c = sol.row_to_col[0].expect("assigned");
    assert_eq!(m.columns[c], ColumnKind::Recycle { row: 0 }, "the defender recycles rather than take the offense objective");
}

#[test]
fn solve_is_deterministic_run_twice() {
    let squads = [offense_row(1000, None), offense_row(500, None), offense_row(250, None)];
    let objs = [undefended_obj(0, 90_000.0, 3), undefended_obj(1, 60_000.0, 3), undefended_obj(2, 30_000.0, 3)];
    let m = build_ev_matrix(&squads, &objs, &MatrixParams::default(), &curve);
    let a = solve_assignment(&m);
    let b = solve_assignment(&m);
    assert_eq!(a, b, "same matrix → byte-identical assignment");
}

#[test]
fn solve_is_invariant_to_input_permutation() {
    let s0 = offense_row(1000, None);
    let s1 = offense_row(1000, None);
    let s2 = offense_row(1000, None);
    let o_hi = undefended_obj(10, 90_000.0, 3);
    let o_mid = undefended_obj(20, 60_000.0, 3);
    let o_lo = undefended_obj(30, 30_000.0, 3);

    let m1 = build_ev_matrix(&[s0, s1, s2], &[o_hi.clone(), o_mid.clone(), o_lo.clone()], &MatrixParams::default(), &curve);
    let sol1 = solve_assignment(&m1);
    let ids1: Vec<Option<u32>> = sol1
        .row_to_col
        .iter()
        .map(|c| c.and_then(|c| match m1.columns[c] {
            ColumnKind::Objective { id } => Some(id),
            _ => None,
        }))
        .collect();

    let m2 = build_ev_matrix(&[s0, s1, s2], &[o_lo, o_hi, o_mid], &MatrixParams::default(), &curve);
    let sol2 = solve_assignment(&m2);
    let ids2: Vec<Option<u32>> = sol2
        .row_to_col
        .iter()
        .map(|c| c.and_then(|c| match m2.columns[c] {
            ColumnKind::Objective { id } => Some(id),
            _ => None,
        }))
        .collect();

    assert_eq!(sol1.total_ev, sol2.total_ev, "permuting columns leaves the optimal total unchanged");
    let mut set1: Vec<u32> = ids1.into_iter().flatten().collect();
    let mut set2: Vec<u32> = ids2.into_iter().flatten().collect();
    set1.sort_unstable();
    set2.sort_unstable();
    assert_eq!(set1, set2, "the SAME objective set is assigned regardless of input order");
    assert_eq!(set1, vec![10, 20, 30], "all three distinct objectives are taken once each");
}

#[test]
fn rectangular_more_rows_than_objective_columns() {
    let squads = [offense_row(1000, None), offense_row(1000, None), offense_row(1000, None)];
    let objs = [undefended_obj(0, 80_000.0, 3)];
    let m = build_ev_matrix(&squads, &objs, &MatrixParams::default(), &curve);
    let sol = solve_assignment(&m);
    let on_obj = sol.row_to_col.iter().filter(|c| **c == Some(0)).count();
    assert_eq!(on_obj, 1, "Hungarian column-exclusivity: the objective is claimed by exactly one squad");
    assert!(sol.row_to_col.iter().all(|c| c.is_some()), "every row gets a column (objective or recycle)");
}

#[test]
fn empty_inputs_are_safe() {
    let m = build_ev_matrix(&[], &[], &MatrixParams::default(), &curve);
    let sol = solve_assignment(&m);
    assert_eq!(sol.row_to_col.len(), 0);
    assert_eq!(sol.total_ev, 0);
}

struct Lcg(u64);
impl Lcg {
    fn next_u64(&mut self) -> u64 {
        self.0 = self.0.wrapping_mul(6364136223846793005).wrapping_add(1442695040888963407);
        self.0
    }
    fn in_range(&mut self, lo: i64, hi: i64) -> i64 {
        let span = (hi - lo + 1) as u64;
        lo + (self.next_u64() % span) as i64
    }
}

fn random_production_matrix(rng: &mut Lcg, rows: usize, cols_obj: usize, range: i64) -> (Vec<i64>, usize, usize) {
    let total = cols_obj + 2 * rows;
    let stay_base = cols_obj;
    let recycle_base = cols_obj + rows;
    let mut m = vec![INFEASIBLE_EV; rows * total];
    for r in 0..rows {
        for c in 0..cols_obj {
            m[r * total + c] = if rng.next_u64() % 4 == 0 { INFEASIBLE_EV } else { rng.in_range(-range, range) };
        }
        m[r * total + stay_base + r] = if rng.next_u64() % 4 == 0 { INFEASIBLE_EV } else { rng.in_range(-range, range) };
        m[r * total + recycle_base + r] = 0;
    }
    (m, total, cols_obj)
}

fn rec(m: &[i64], rows: usize, cols: usize, r: usize, used: &mut [bool], acc: i64, best: &mut i64) {
    if r == rows {
        if acc > *best {
            *best = acc;
        }
        return;
    }
    rec(m, rows, cols, r + 1, used, acc, best);
    for c in 0..cols {
        if used[c] {
            continue;
        }
        let ev = m[r * cols + c];
        if ev == INFEASIBLE_EV {
            continue;
        }
        used[c] = true;
        rec(m, rows, cols, r + 1, used, acc + ev, best);
        used[c] = false;
    }
}

fn exhaustive_optimum(m: &[i64], rows: usize, cols: usize) -> i64 {
    let mut used = vec![false; cols];
    let mut best = i64::MIN;
    rec(m, rows, cols, 0, &mut used, 0, &mut best);
    best
}

fn ev_matrix_from_raw(m: Vec<i64>, rows: usize, cols_obj: usize, total: usize) -> EvMatrix {
    let mut columns = Vec::with_capacity(total);
    for c in 0..cols_obj {
        columns.push(ColumnKind::Objective { id: c as u32 });
    }
    for r in 0..rows {
        columns.push(ColumnKind::StayPut { row: r });
    }
    for r in 0..rows {
        columns.push(ColumnKind::Recycle { row: r });
    }
    assert_eq!(columns.len(), total);
    EvMatrix { rows, columns, ev: m }
}

#[test]
fn solve_matches_exhaustive_optimum_on_production_shapes() {
    let mut rng = Lcg(0x0032_0001_0002_2026);
    let mut mismatches = 0u32;
    let mut samples = 0u32;
    for rows in 1..=4usize {
        for cols_obj in 1..=4usize {
            for _ in 0..400 {
                let (raw, total, cobj) = random_production_matrix(&mut rng, rows, cols_obj, 1_000);
                let opt = exhaustive_optimum(&raw, rows, total);
                let m = ev_matrix_from_raw(raw, rows, cobj, total);
                let sol = solve_assignment(&m);

                if sol.total_ev != opt {
                    mismatches += 1;
                }

                let mut obj_claims = vec![0u32; cols_obj];
                for c in sol.row_to_col.iter().flatten() {
                    if let ColumnKind::Objective { id } = m.columns[*c] {
                        obj_claims[id as usize] += 1;
                    }
                }
                assert!(
                    obj_claims.iter().all(|&n| n <= 1),
                    "an objective column was double-claimed: {obj_claims:?} assign={:?}",
                    sol.row_to_col
                );
                samples += 1;
            }
        }
    }
    assert_eq!(mismatches, 0, "{mismatches}/{samples} production-shaped matrices disagreed with the exhaustive optimum");
    assert!(samples >= 6_000, "expected >= 6000 samples, ran {samples}");
}

#[test]
fn without_per_row_escape_a_row_is_forced_onto_a_negative_cell() {
    let rows = 2usize;
    let cols = 2usize;
    let raw = vec![-10, -20, -30, -40];
    let columns = vec![ColumnKind::Objective { id: 0 }, ColumnKind::Objective { id: 1 }];
    let m = EvMatrix { rows, columns, ev: raw.clone() };
    let sol = solve_assignment(&m);

    assert_eq!(sol.total_ev, -50, "escape-less perfect matching is forced negative");
    let want = exhaustive_optimum(&raw, rows, cols);
    assert_eq!(want, 0, "the may-skip optimum is to take NOTHING (0) — strictly better than −50");
    assert!(sol.total_ev < want, "WITHOUT a per-row escape the solver is worse than optimal-with-skip ({} < {})", sol.total_ev, want);
}

#[test]
fn more_rows_than_columns_leave_rows_without() {
    let columns = vec![ColumnKind::Objective { id: 7 }];
    let m = EvMatrix { rows: 2, columns, ev: vec![5, 9] };
    let sol = solve_assignment(&m);
    assert_eq!(sol.row_to_col, vec![None, Some(0)]);
    assert_eq!(sol.total_ev, 9);
}

#[test]
fn a_row_that_can_do_nothing_gets_nothing() {
    let columns = vec![ColumnKind::Objective { id: 7 }, ColumnKind::Objective { id: 8 }];
    let m = EvMatrix {
        rows: 2,
        columns,
        ev: vec![INFEASIBLE_EV, INFEASIBLE_EV, 3, 4],
    };
    let sol = solve_assignment(&m);
    assert_eq!(sol.row_to_col, vec![None, Some(1)]);
    assert_eq!(sol.total_ev, 4);
}

#[test]
fn staying_ignores_that_the_objective_is_closed_to_others() {
    let mut obj = undefended_obj(4, 1_000.0, 1);
    obj.feasible_per_row = vec![false];
    let m = build_ev_matrix(
        &[offense_row(1000, Some(4))],
        &[obj],
        &MatrixParams::default(),
        &curve,
    );
    assert_eq!(m.at(0, 0), INFEASIBLE_EV);
    assert_eq!(m.at(0, 1), milli(1_000.0));
    assert_eq!(m.at(0, 2), 0);
    let expected = vec![
        ColumnKind::Objective { id: 4 },
        ColumnKind::StayPut { row: 0 },
        ColumnKind::Recycle { row: 0 },
    ];
    assert_eq!(m.columns, expected);
}

#[test]
fn each_room_of_travel_is_paid_for() {
    let mut obj = undefended_obj(4, 1_000.0, 1);
    obj.travel_rooms_per_row = vec![3];
    let squads = [offense_row(1000, None), offense_row(1000, None)];
    let m = build_ev_matrix(&squads, &[obj], &MatrixParams::default(), &curve);
    assert_eq!(m.at(0, 0), milli(997.0));
    assert_eq!(m.at(1, 0), milli(1_000.0), "no entry is no travel");
}

#[test]
fn ties_go_in_order() {
    let columns: Vec<ColumnKind> = (0..4).map(|id| ColumnKind::Objective { id }).collect();
    let even = EvMatrix { rows: 2, columns: columns[..2].to_vec(), ev: vec![0; 4] };
    assert_eq!(solve_assignment(&even).row_to_col, vec![Some(0), Some(1)]);
    let wide = EvMatrix {
        rows: 3,
        columns,
        ev: vec![7, 7, 7, 7, INFEASIBLE_EV, INFEASIBLE_EV, INFEASIBLE_EV, INFEASIBLE_EV, -2, -2, -2, -2],
    };
    let a = solve_assignment(&wide);
    assert_eq!(a.row_to_col, vec![Some(0), None, Some(2)]);
    assert_eq!(a.total_ev, 5);
}

#[test]
fn reordered_rows_and_columns_gain_the_same() {
    let columns: Vec<ColumnKind> = (0..4).map(|id| ColumnKind::Objective { id }).collect();
    let ev = vec![4, 9, INFEASIBLE_EV, 1, 8, 9, 2, INFEASIBLE_EV, INFEASIBLE_EV, 3, 5, 6];
    let m = EvMatrix { rows: 3, columns: columns.clone(), ev };
    let (p, q) = ([2, 0, 1], [3, 1, 0, 2]);
    let mut moved = vec![0; 12];
    for r in 0..3 {
        for c in 0..4 {
            moved[p[r] * 4 + q[c]] = m.at(r, c);
        }
    }
    let other = EvMatrix { rows: 3, columns, ev: moved };
    assert_eq!(solve_assignment(&m).total_ev, 9 + 8 + 6);
    assert_eq!(solve_assignment(&other).total_ev, 9 + 8 + 6);
}
