//! The planning policies on double-precision numbers, driven by a small dense
//! simplex solver.

use std::cell::RefCell;

use openv2b::engine::{run, Results};
use openv2b::milp::{MilpBackend, Model, Sense, SolStatus, Solution, SolveError};
use openv2b::negotiation::{
    count_accepted, make_menu, make_utilities, negotiate, pick, NegotiationConfig, Offer,
};
use openv2b::num::Num;
use openv2b::policy::mpc::{reach_needed, Mpc, MpcConfig};
use openv2b::policy::oracle::{
    check_scope, solve_oracle, OracleConfig, OraclePlan, OracleReplay, ScopeIssue,
};
use openv2b::policy::scenario_mpc::{ScenarioMpc, ScenarioMpcConfig};
use openv2b::policy::{self, Policy};
use openv2b::scenario::{
    default_building_file, default_chargers_file, default_efficiency, default_prices_file, default_true,
    default_vehicles_file, Charger, DrEvent, Manifest, Scenario, TouClass, Vehicle,
};

/// Double-precision numbers.
#[derive(Debug, Clone, Copy, PartialEq, PartialOrd)]
struct Real(f64);

impl Num for Real {
    fn plus(self, other: Self) -> Self {
        Real(self.0 + other.0)
    }
    fn minus(self, other: Self) -> Self {
        Real(self.0 - other.0)
    }
    fn times(self, other: Self) -> Self {
        Real(self.0 * other.0)
    }
    fn over(self, other: Self) -> Self {
        Real(self.0 / other.0)
    }
    fn negated(self) -> Self {
        Real(-self.0)
    }
    fn magnitude(self) -> Self {
        Real(self.0.abs())
    }
    fn lesser(self, other: Self) -> Self {
        Real(self.0.min(other.0))
    }
    fn greater(self, other: Self) -> Self {
        Real(self.0.max(other.0))
    }
    fn exponential(self) -> Self {
        Real(self.0.exp())
    }
    fn below(self, other: Self) -> bool {
        self.0 < other.0
    }
    fn at_most(self, other: Self) -> bool {
        self.0 <= other.0
    }
    fn same(self, other: Self) -> bool {
        self.0 == other.0
    }
    fn finite(self) -> bool {
        self.0.is_finite()
    }
    fn infinite(self) -> bool {
        self.0.is_infinite()
    }
    fn undefined(self) -> bool {
        self.0.is_nan()
    }
    fn rational(n: u64, d: u64) -> Self {
        Real(n as f64 / d as f64)
    }
    fn unbounded() -> Self {
        Real(f64::INFINITY)
    }
    fn no_number() -> Self {
        Real(f64::NAN)
    }
    fn whole(self) -> usize {
        self.0 as usize
    }
    fn scientific(self) -> String {
        format!("{:.17e}", self.0)
    }
    fn spelled(text: &[char]) -> Option<Self> {
        text.iter().collect::<String>().parse::<f64>().ok().map(Real)
    }
    fn add(self, other: Self) -> Self {
        self.plus(other)
    }
    fn sub(self, other: Self) -> Self {
        self.minus(other)
    }
    fn mul(self, other: Self) -> Self {
        self.times(other)
    }
    fn div(self, other: Self) -> Self {
        self.over(other)
    }
    fn neg(self) -> Self {
        self.negated()
    }
    fn abs(self) -> Self {
        self.magnitude()
    }
    fn min(self, other: Self) -> Self {
        self.lesser(other)
    }
    fn max(self, other: Self) -> Self {
        self.greater(other)
    }
    fn exp(self) -> Self {
        self.exponential()
    }
    fn lt(self, other: Self) -> bool {
        self.below(other)
    }
    fn le(self, other: Self) -> bool {
        self.at_most(other)
    }
    fn eq(self, other: Self) -> bool {
        self.same(other)
    }
    fn is_finite(self) -> bool {
        self.finite()
    }
    fn is_infinite(self) -> bool {
        self.infinite()
    }
    fn is_nan(self) -> bool {
        self.undefined()
    }
    fn ratio(n: u64, d: u64) -> Self {
        Self::rational(n, d)
    }
    fn infinity() -> Self {
        Self::unbounded()
    }
    fn nan() -> Self {
        Self::no_number()
    }
    fn to_usize(self) -> usize {
        self.whole()
    }
    fn to_scientific(self) -> String {
        self.scientific()
    }
    fn parse(text: &[char]) -> Option<Self> {
        Self::spelled(text)
    }
}

fn n(x: f64) -> Real {
    Real(x)
}

fn near(a: Real, b: f64, epsilon: f64) -> bool {
    (a.0 - b).abs() <= epsilon
}

fn manifest(horizon_slots: usize) -> Manifest<Real> {
    Manifest {
        slot_minutes: n(15.0),
        horizon_slots,
        charge_efficiency: default_efficiency(),
        discharge_efficiency: default_efficiency(),
        site_cap_kw: None,
        demand_charge_usd_per_kw: n(0.0),
        demand_charge_peak_usd_per_kw: n(0.0),
        heuristic_threshold_kw: None,
        persistence: default_true(),
        vehicles_file: default_vehicles_file(),
        chargers_file: default_chargers_file(),
        building_file: default_building_file(),
        prices_file: default_prices_file(),
        dr_events_file: None,
    }
}

fn vehicle(id: u32, arrival: usize, departure: usize) -> Vehicle<Real> {
    Vehicle {
        vehicle_id: id,
        arrival_slot: arrival,
        departure_slot: departure,
        battery_kwh: n(60.0),
        soc_arrival_kwh: n(20.0),
        soc_target_kwh: n(40.0),
        max_charge_kw: n(20.0),
        max_discharge_kw: n(20.0),
        min_soc_kwh: n(0.0),
        max_soc_kwh: None,
        depletion_kwh: n(0.0),
    }
}

fn charger(id: u32, bidirectional: bool) -> Charger<Real> {
    Charger {
        charger_id: id,
        max_kw: n(20.0),
        bidirectional,
    }
}

/// A scenario with flat building load and price, and no DR events.
fn base_scenario(
    horizon_slots: usize,
    vehicles: Vec<Vehicle<Real>>,
    chargers: Vec<Charger<Real>>,
) -> Scenario<Real> {
    let scenario = Scenario {
        manifest: manifest(horizon_slots),
        vehicles,
        chargers,
        building_load_kw: vec![n(50.0); horizon_slots],
        price_usd_per_kwh: vec![n(0.20); horizon_slots],
        tou_class: vec![TouClass::OffPeak; horizon_slots],
        dr_events: Vec::new(),
    };
    scenario.validate().expect("test scenario must be valid");
    scenario
}

fn dr_event(start: usize, end: usize, fsl_kw: f64) -> DrEvent<Real> {
    DrEvent {
        start_slot: start,
        end_slot: end,
        fsl_kw: n(fsl_kw),
        penalty_usd_per_kwh: n(6.0),
        incentive_usd_per_kw: n(13.6),
        baseline_kw: n(0.0),
    }
}

/// Runs a fresh instance of a built-in policy.
fn run_named(scenario: &Scenario<Real>, name: &str) -> Results<Real> {
    let mut policy = policy::by_name::<Real>(name).expect("registered");
    run(scenario, &mut policy)
}

// ------------------------------------------------------------------- solver

/// Bounded-variable primal simplex on a condensed dense tableau.
#[derive(Debug, Clone, Copy)]
struct Simplex;

struct Tableau {
    rows: usize,
    cols: usize,
    /// Basic variables as functions of the nonbasic ones: `x_B = .. - T x_N`.
    t: Vec<f64>,
    basic: Vec<usize>,
    nonbasic: Vec<usize>,
    x: Vec<f64>,
    lb: Vec<f64>,
    ub: Vec<f64>,
    cost: Vec<f64>,
}

const FEASIBLE: f64 = 1e-10;
const OPTIMAL: f64 = 1e-10;
const PIVOT: f64 = 1e-9;

impl Tableau {
    fn new(model: &Model<Real>) -> Tableau {
        let rows = model.constraints.len();
        let cols = model.vars.len();
        let mut t = vec![0.0; rows * cols];
        let mut lb: Vec<f64> = model.vars.iter().map(|v| v.lb.0).collect();
        let mut ub: Vec<f64> = model.vars.iter().map(|v| v.ub.0).collect();
        let mut cost: Vec<f64> = model.vars.iter().map(|v| v.obj.0).collect();
        let mut x: Vec<f64> = lb
            .iter()
            .zip(&ub)
            .map(|(&l, &u)| if l.is_finite() { l } else if u.is_finite() { u } else { 0.0 })
            .collect();
        for (i, c) in model.constraints.iter().enumerate() {
            let mut slack = c.rhs.0;
            for (id, k) in &c.terms {
                t[i * cols + id.0] += k.0;
                slack -= k.0 * x[id.0];
            }
            let (l, u) = match c.sense {
                Sense::Le => (0.0, f64::INFINITY),
                Sense::Ge => (f64::NEG_INFINITY, 0.0),
                Sense::Eq => (0.0, 0.0),
            };
            lb.push(l);
            ub.push(u);
            cost.push(0.0);
            x.push(slack);
        }
        Tableau {
            rows,
            cols,
            t,
            basic: (cols..cols + rows).collect(),
            nonbasic: (0..cols).collect(),
            x,
            lb,
            ub,
            cost,
        }
    }

    /// +1 above the upper bound, -1 below the lower bound, else 0.
    fn violation(&self, v: usize) -> f64 {
        if self.x[v] > self.ub[v] + FEASIBLE {
            1.0
        } else if self.x[v] < self.lb[v] - FEASIBLE {
            -1.0
        } else {
            0.0
        }
    }

    /// Reduced costs of the nonbasic variables, and whether they are those of
    /// the sum of violations.
    fn reduced(&self) -> (Vec<f64>, bool) {
        let mut d = vec![0.0; self.cols];
        let mut repairing = false;
        for i in 0..self.rows {
            let w = self.violation(self.basic[i]);
            if w != 0.0 {
                repairing = true;
                for (dj, tij) in d.iter_mut().zip(&self.t[i * self.cols..(i + 1) * self.cols]) {
                    *dj -= w * tij;
                }
            }
        }
        if !repairing {
            for (dj, &v) in d.iter_mut().zip(&self.nonbasic) {
                *dj = self.cost[v];
            }
            for i in 0..self.rows {
                let w = self.cost[self.basic[i]];
                if w != 0.0 {
                    for (dj, tij) in d.iter_mut().zip(&self.t[i * self.cols..(i + 1) * self.cols]) {
                        *dj -= w * tij;
                    }
                }
            }
        }
        (d, repairing)
    }

    /// The entering column and the direction it moves in.
    fn entering(&self, d: &[f64], careful: bool) -> Option<(usize, f64)> {
        let mut best: Option<(usize, f64)> = None;
        let mut size = 0.0;
        for j in 0..self.cols {
            let v = self.nonbasic[j];
            if self.lb[v] == self.ub[v] {
                continue;
            }
            let up = d[j] < -OPTIMAL && self.x[v] < self.ub[v];
            let down = d[j] > OPTIMAL && self.x[v] > self.lb[v];
            if up || down {
                let better = match best {
                    None => true,
                    Some((b, _)) => {
                        if careful {
                            v < self.nonbasic[b]
                        } else {
                            d[j].abs() > size
                        }
                    }
                };
                if better {
                    best = Some((j, if up { 1.0 } else { -1.0 }));
                    size = d[j].abs();
                }
            }
        }
        best
    }

    /// How far the entering variable can move, and the row and bound that stop
    /// it (`None`: its own other bound).
    fn leaving(&self, q: usize, dir: f64, careful: bool) -> (f64, Option<(usize, f64)>) {
        let v = self.nonbasic[q];
        let mut step = self.ub[v] - self.lb[v];
        let mut stop: Option<(usize, f64)> = None;
        let mut size = 0.0;
        for i in 0..self.rows {
            let a = self.t[i * self.cols + q];
            if a.abs() < PIVOT {
                continue;
            }
            let b = self.basic[i];
            let rate = -a * dir;
            let bound = match (self.violation(b), rate > 0.0) {
                (w, true) if w < 0.0 => self.lb[b],
                (w, false) if w > 0.0 => self.ub[b],
                (w, true) if w == 0.0 => self.ub[b],
                (w, false) if w == 0.0 => self.lb[b],
                _ => continue,
            };
            if !bound.is_finite() {
                continue;
            }
            let reach = ((bound - self.x[b]) / rate).max(0.0);
            let tied = stop.is_some() && (reach - step).abs() <= 1e-12;
            let preferred = match stop {
                Some((r, _)) if careful => b < self.basic[r],
                _ => a.abs() > size,
            };
            if (reach < step && !tied) || (tied && preferred) || (stop.is_none() && reach <= step) {
                step = reach.min(step);
                stop = Some((i, bound));
                size = a.abs();
            }
        }
        (step, stop)
    }

    fn pivot(&mut self, r: usize, q: usize) {
        let cols = self.cols;
        let p = self.t[r * cols + q];
        let mut row: Vec<f64> = self.t[r * cols..(r + 1) * cols].iter().map(|x| x / p).collect();
        row[q] = 1.0 / p;
        for i in 0..self.rows {
            let f = self.t[i * cols + q];
            if i != r && f != 0.0 {
                let line = &mut self.t[i * cols..(i + 1) * cols];
                line[q] = 0.0;
                for (x, y) in line.iter_mut().zip(&row) {
                    *x -= f * y;
                }
            }
        }
        self.t[r * cols..(r + 1) * cols].copy_from_slice(&row);
        let out = self.basic[r];
        self.basic[r] = self.nonbasic[q];
        self.nonbasic[q] = out;
    }

    /// Whether an optimum was found.
    fn optimize(&mut self) -> bool {
        let mut stalled = 0;
        for _ in 0..200_000 {
            let (d, repairing) = self.reduced();
            let careful = stalled > 200;
            let (q, dir) = match self.entering(&d, careful) {
                Some(found) => found,
                None => return !repairing,
            };
            let (step, stop) = self.leaving(q, dir, careful);
            if !step.is_finite() {
                return false;
            }
            stalled = if step > 1e-12 { 0 } else { stalled + 1 };
            let v = self.nonbasic[q];
            self.x[v] += dir * step;
            for i in 0..self.rows {
                let a = self.t[i * self.cols + q];
                if a != 0.0 {
                    self.x[self.basic[i]] -= a * dir * step;
                }
            }
            match stop {
                Some((r, bound)) => {
                    self.x[self.basic[r]] = bound;
                    self.pivot(r, q);
                }
                None => self.x[v] = if dir > 0.0 { self.ub[v] } else { self.lb[v] },
            }
        }
        panic!("no end of pivots")
    }
}

impl MilpBackend<Real> for Simplex {
    fn title(&self) -> &str {
        "simplex"
    }
    fn answers(&self, _: &Model<Real>, _: &Result<Solution<Real>, SolveError>) -> bool {
        true
    }
    fn name(&self) -> &str {
        self.title()
    }
    fn solve(&self, model: &Model<Real>) -> Result<Solution<Real>, SolveError> {
        let mut tableau = Tableau::new(model);
        if tableau.optimize() {
            let values = tableau.x[..model.vars.len()].iter().map(|&x| n(x)).collect();
            Ok(Solution::optimal(model, values))
        } else {
            Ok(Solution::infeasible(model))
        }
    }
}

/// A solver that never answers.
#[derive(Debug, Clone, Copy)]
struct Broken;

impl MilpBackend<Real> for Broken {
    fn title(&self) -> &str {
        "broken"
    }
    fn answers(&self, _: &Model<Real>, _: &Result<Solution<Real>, SolveError>) -> bool {
        true
    }
    fn name(&self) -> &str {
        self.title()
    }
    fn solve(&self, _: &Model<Real>) -> Result<Solution<Real>, SolveError> {
        Err(SolveError::Backend("out of order".to_string()))
    }
}

/// A solver to which nothing is feasible.
#[derive(Debug, Clone, Copy)]
struct Pessimist;

impl MilpBackend<Real> for Pessimist {
    fn title(&self) -> &str {
        "pessimist"
    }
    fn answers(&self, _: &Model<Real>, _: &Result<Solution<Real>, SolveError>) -> bool {
        true
    }
    fn name(&self) -> &str {
        self.title()
    }
    fn solve(&self, model: &Model<Real>) -> Result<Solution<Real>, SolveError> {
        Ok(Solution::infeasible(model))
    }
}

// -------------------------------------------------------------- model, solver

fn text(s: &str) -> String {
    s.to_string()
}

#[test]
fn lp_writer_emits_deterministic_model() {
    let mut m: Model<Real> = Model::default();
    let x = m.add_var(text("x"), n(0.0), n(10.0), n(1.0));
    let y = m.add_var(text("y"), n(f64::NEG_INFINITY), n(f64::INFINITY), n(-2.0));
    m.add_constraint(text("c1"), vec![(x, n(1.0)), (y, n(3.0))], Sense::Le, n(7.5));
    m.add_constraint(text("c2"), vec![(y, n(1.0))], Sense::Ge, n(-4.0));
    let a = m.to_lp();
    let b = m.to_lp();
    assert_eq!(a, b, "LP emission must be deterministic");
    assert!(a.starts_with("Minimize"), "LP header");
    assert!(a.contains(" c1:"), "constraint names serialized");
    assert!(a.contains("y free"), "free variable bounds");
    assert!(a.ends_with("End\n"), "LP trailer");
}

/// Hand-checkable LP: min x + 2y s.t. x + y >= 10, x <= 6 -> x=6, y=4, obj 14.
#[test]
fn simplex_solves_a_hand_lp() {
    let mut m: Model<Real> = Model::default();
    let x = m.add_var(text("x"), n(0.0), n(6.0), n(1.0));
    let y = m.add_var(text("y"), n(0.0), n(f64::INFINITY), n(2.0));
    m.add_constraint(text("c"), vec![(x, n(1.0)), (y, n(1.0))], Sense::Ge, n(10.0));
    let sol = Simplex.solve(&m).expect("solve");
    assert_eq!(sol.status, SolStatus::Optimal);
    assert!(near(sol.values[0], 6.0, 1e-6));
    assert!(near(sol.values[1], 4.0, 1e-6));
    assert!(near(sol.objective, 14.0, 1e-6));
    m.add_constraint(text("d"), vec![(x, n(1.0)), (y, n(1.0))], Sense::Le, n(9.0));
    let none = Simplex.solve(&m).expect("solve");
    assert_eq!(none.status, SolStatus::Infeasible);
    assert!(none.objective.0.is_nan());
    assert_eq!(none.values, vec![n(0.0), n(0.0)]);
}

// ---------------------------------------------------------------------- MPC

fn mpc() -> Mpc<Real, Simplex> {
    Mpc::new(Simplex, MpcConfig::default())
}

/// TOU arbitrage: price low in slots 0..8, high after, bidirectional port. The
/// optimal plan is full banking arbitrage: buy 40 kWh cheap (SoC 20 -> 60, the
/// port limit over 8 slots), discharge 20 kWh against the building's expensive
/// slots, land exactly on the 40 kWh target. EV-attributable energy cost =
/// 40 * 0.10 - 20 * 0.40 = -$4.00.
#[test]
fn mpc_charges_in_cheap_slots() {
    let mut s = base_scenario(24, vec![vehicle(0, 0, 24)], vec![charger(0, true)]);
    s.building_load_kw = vec![n(10.0); 24];
    for slot in 0..24 {
        s.price_usd_per_kwh[slot] = n(if slot < 8 { 0.10 } else { 0.40 });
    }
    let m = run(&s, &mut mpc());
    assert!(m.sessions[0].target_met, "MPC must meet the target");
    assert!(near(m.sessions[0].soc_departure_kwh, 40.0, 1e-6));
    let building_cost = 2.0 * 10.0 * 0.10 + 4.0 * 10.0 * 0.40;
    let ev_cost = m.bill.energy_usd.0 - building_cost;
    assert!((ev_cost - -4.0).abs() <= 1e-6, "{ev_cost}");
    let unc = run_named(&s, "uncontrolled");
    assert!(m.bill.total_usd.0 < unc.bill.total_usd.0, "MPC beats uncontrolled");
}

/// DR window with a surplus vehicle: MPC discharges to hold the firm level and
/// still meets the target.
#[test]
fn mpc_discharges_to_honor_dr_window() {
    let mut v = vehicle(0, 0, 24);
    v.soc_arrival_kwh = n(55.0);
    v.soc_target_kwh = n(30.0);
    let mut s = base_scenario(24, vec![v], vec![charger(0, true)]);
    s.building_load_kw = vec![n(50.0); 24];
    s.dr_events.push(dr_event(4, 12, 40.0));
    let m = run(&s, &mut mpc());
    assert!(m.sessions[0].target_met, "target holds");
    assert!(
        m.bill.dr_penalty_usd.0 < 1e-6,
        "MPC should fully cover the 10 kW shortfall: penalty {}",
        m.bill.dr_penalty_usd.0
    );
    let edf = run_named(&s, "edf");
    assert!(
        m.bill.total_usd.0 <= edf.bill.total_usd.0 + 1e-9,
        "MPC at least as good as heuristic"
    );
}

/// Physics safety: MPC through the engine obeys every invariant even with
/// asymmetric efficiencies and a site cap.
#[test]
fn mpc_respects_engine_invariants() {
    let mut v1 = vehicle(0, 0, 40);
    v1.soc_arrival_kwh = n(50.0);
    v1.soc_target_kwh = n(30.0);
    let mut v2 = vehicle(1, 4, 30);
    v2.soc_arrival_kwh = n(5.0);
    v2.soc_target_kwh = n(45.0);
    let mut s = base_scenario(48, vec![v1, v2], vec![charger(0, true), charger(1, false)]);
    s.manifest.charge_efficiency = n(0.92);
    s.manifest.discharge_efficiency = n(0.94);
    s.manifest.site_cap_kw = Some(n(70.0));
    s.dr_events.push(dr_event(12, 20, 40.0));
    let r = run(&s, &mut mpc());
    for rec in &r.slots {
        assert!(rec.net_kw.0 >= -1e-9, "no export");
        assert!(rec.net_kw.0 <= rec.building_kw.0.max(70.0) + 1e-9, "site cap");
    }
    for sess in &r.sessions {
        let expected = sess.soc_arrival_kwh.0 + 0.92 * sess.energy_drawn_kwh.0
            - sess.energy_exported_kwh.0 / 0.94;
        assert!(near(sess.soc_departure_kwh, expected, 1e-6));
    }
}

/// A solver that fails, or finds nothing feasible, makes the policy do nothing
/// in that slot, and the oracle report the failure.
#[test]
fn failed_solves_fall_back() {
    let s = base_scenario(24, vec![vehicle(0, 0, 16)], vec![charger(0, true)]);
    let idle = run_named(&s, "idle");
    let mut broken = Mpc::new(Broken, MpcConfig::default());
    let a = run(&s, &mut broken);
    assert_eq!(a.policy, "mpc");
    assert!(broken.planned_peaks.is_empty());
    assert_eq!(a.slots, idle.slots);
    let b = run(&s, &mut Mpc::new(Pessimist, MpcConfig::default()));
    assert_eq!(b, a);
    let futures = ScenarioMpcConfig::new(vec![future_without_return()]);
    let c = run(&s, &mut ScenarioMpc::new(Broken, futures));
    assert_eq!(c.policy, "scenario-mpc");
    assert_eq!(c.slots, idle.slots);
    let err = solve_oracle(&s, &Broken, &OracleConfig::default()).expect_err("broken");
    assert_eq!(err.message(), "solver error: out of order");
    let err = solve_oracle(&s, &Pessimist, &OracleConfig::default()).expect_err("infeasible");
    assert_eq!(err.message(), "solver error: oracle LP not optimal");
    let err = negotiate(&s, &Broken, &NegotiationConfig::default()).expect_err("broken");
    assert_eq!(err.message(), "solver error: out of order");
}

/// What the plan looks at is known: a load that changes after the current slot
/// changes nothing.
#[test]
fn plans_see_no_future_load() {
    let mut s = base_scenario(24, vec![vehicle(0, 0, 24)], vec![charger(0, true)]);
    s.manifest.demand_charge_usd_per_kw = n(10.0);
    let mut t = s.clone();
    for slot in 12..24 {
        t.building_load_kw[slot] = n(300.0);
    }
    let a = run(&s, &mut mpc());
    let b = run(&t, &mut mpc());
    assert_eq!(a.slots[..12], b.slots[..12]);
}

/// 40 kWh wanted, 5 kWh can be added in each of the two slots past the window.
#[test]
fn the_need_past_the_window_is_taken_off() {
    assert_eq!(reach_needed(n(40.0), 10, 7, n(20.0), n(0.25), n(1.0), n(0.0)), n(30.0));
    assert_eq!(reach_needed(n(40.0), 10, 9, n(20.0), n(0.25), n(1.0), n(0.0)), n(40.0));
    assert_eq!(reach_needed(n(40.0), 10, 7, n(20.0), n(0.25), n(1.0), n(35.0)), n(35.0));
}

/// The oracle refuses what it does not model, and says what that is.
#[test]
fn scope_issues_have_their_words() {
    let mut s = base_scenario(
        24,
        vec![vehicle(0, 0, 16), vehicle(1, 4, 20)],
        vec![charger(0, true), charger(1, true)],
    );
    assert_eq!(check_scope(&s), None);
    s.chargers[1].bidirectional = false;
    assert_eq!(check_scope(&s), Some(ScopeIssue::V2bContention(4)));
    let err = solve_oracle(&s, &Simplex, &OracleConfig::default()).expect_err("out of scope");
    assert_eq!(
        err.message(),
        "solver error: oracle: more V2B sessions than bidirectional ports at slot 4"
    );
    s.chargers.pop();
    assert_eq!(check_scope(&s), Some(ScopeIssue::Contention(4)));
    assert_eq!(
        ScopeIssue::Contention(4).text(),
        "oracle: charger contention at slot 4 is out of scope"
    );
    let mut other = charger(1, true);
    other.max_kw = n(7.0);
    s.chargers.push(other);
    assert_eq!(check_scope(&s), Some(ScopeIssue::MixedPorts));
    assert_eq!(
        ScopeIssue::MixedPorts.text(),
        "oracle: heterogeneous charger power limits are out of scope"
    );
    s.chargers.clear();
    assert_eq!(check_scope(&s), Some(ScopeIssue::NoChargers));
    assert_eq!(ScopeIssue::NoChargers.text(), "oracle: no chargers");
}

/// A replay asks for what was planned, and for nothing elsewhere.
#[test]
fn plans_are_looked_up() {
    let s = base_scenario(24, vec![vehicle(0, 2, 16)], vec![charger(0, true)]);
    let plan = solve_oracle(&s, &Simplex, &OracleConfig::default()).expect("solves");
    let kwh: f64 = (0..24).map(|slot| plan.power_at(0, 2, slot).0 * 0.25).sum();
    assert!((kwh - 20.0).abs() < 1e-6, "20 kWh asked, {kwh} planned");
    assert_eq!(plan.power_at(0, 2, 1), n(0.0));
    assert_eq!(plan.power_at(0, 2, 16), n(0.0));
    assert_eq!(plan.power_at(0, 3, 5), n(0.0));
    assert_eq!(plan.power_at(9, 2, 5), n(0.0));
    assert_eq!(OracleReplay { plan }.name(), "oracle");
}

// ------------------------------------------------------------- commitments

/// One V2B donor, flat building load, one long DR window whose input firm level
/// is a weak commitment (barely below the baseline).
fn weak_commitment() -> Scenario<Real> {
    let mut v = vehicle(0, 0, 48);
    v.battery_kwh = n(80.0);
    v.soc_arrival_kwh = n(70.0);
    v.soc_target_kwh = n(30.0);
    v.min_soc_kwh = n(10.0);
    v.max_discharge_kw = n(20.0);
    let mut s = base_scenario(48, vec![v], vec![charger(0, true)]);
    s.building_load_kw = vec![n(50.0); 48];
    let mut e = dr_event(16, 36, 48.0); // weak input commitment
    e.baseline_kw = n(50.0);
    s.dr_events.push(e);
    s
}

fn optimized_plan(s: &Scenario<Real>) -> OraclePlan<Real> {
    let config = OracleConfig { optimize_fsl: true, ..OracleConfig::default() };
    solve_oracle(s, &Simplex, &config).expect("oracle solves fixture")
}

/// Rebuild the scenario with the committed firm levels and baselines so the
/// billing layer settles against the commitment.
fn committed_scenario(s: &Scenario<Real>, plan: &OraclePlan<Real>) -> Scenario<Real> {
    let mut out = s.clone();
    for (ei, e) in out.dr_events.iter_mut().enumerate() {
        e.fsl_kw = plan.committed_fsl_kw[ei];
        e.baseline_kw = plan.baseline_peak_kw[ei];
    }
    assert_eq!(out.dr_events, plan.commit(&s.dr_events));
    out
}

#[test]
fn committed_fsl_is_bounded_and_honored() {
    let s = weak_commitment();
    let plan = optimized_plan(&s);
    assert!(
        plan.committed_fsl_kw[0].0 <= plan.baseline_peak_kw[0].0 + 1e-9,
        "commitment above the baseline peak"
    );
    // Simulate under the commitment: the window must be honored and paid.
    let committed = committed_scenario(&s, &plan);
    let r = run(&committed, &mut OracleReplay { plan });
    assert!(
        r.bill.dr_penalty_usd.0 < 1e-6,
        "committed window violated (penalty {})",
        r.bill.dr_penalty_usd.0
    );
    assert!(r.bill.dr_incentive_usd.0 > 0.0, "honored commitment earned nothing");
    for sess in &r.sessions {
        assert!(sess.target_met, "target sacrificed for the commitment");
    }
}

#[test]
fn optimized_commitment_beats_the_weak_input_commitment() {
    let s = weak_commitment();
    let plan = optimized_plan(&s);
    assert!(
        plan.committed_fsl_kw[0].0 < 48.0,
        "optimizer should commit deeper than the weak input F=48 (got {})",
        plan.committed_fsl_kw[0].0
    );

    // Bill under the input commitment with the plain (non-FSL) oracle...
    let input_plan = solve_oracle(&s, &Simplex, &OracleConfig::default()).expect("solves");
    let input_bill = run(&s, &mut OracleReplay { plan: input_plan }).bill.total_usd.0;
    // ...versus under the optimized commitment.
    let committed = committed_scenario(&s, &plan);
    let committed_bill = run(&committed, &mut OracleReplay { plan }).bill.total_usd.0;
    assert!(
        committed_bill < input_bill,
        "optimized commitment ({committed_bill}) should beat the weak input ({input_bill})"
    );
}

/// Short-window overcommit guard: with a 4-covered-slot window the one-shot
/// incentive outweighs a few slots of soft penalty in the LP, but gated billing
/// pays nothing on a violated window. The post-adjustment must keep the
/// commitment honorable.
#[test]
fn short_window_commitment_stays_honorable() {
    let mut v = vehicle(0, 0, 48);
    v.max_discharge_kw = n(0.0); // nothing can shave the window
    let mut s = base_scenario(48, vec![v], vec![charger(0, true)]);
    s.building_load_kw = vec![n(50.0); 48];
    let mut e = dr_event(20, 24, 50.0); // 4 covered slots
    e.baseline_kw = n(50.0);
    e.incentive_usd_per_kw = n(13.6);
    s.dr_events.push(e);
    let plan = optimized_plan(&s);
    let committed = committed_scenario(&s, &plan);
    let r = run(&committed, &mut OracleReplay { plan });
    assert!(
        r.bill.dr_penalty_usd.0 < 1e-6,
        "post-adjustment failed: committed window is violated (penalty {})",
        r.bill.dr_penalty_usd.0
    );
}

// -------------------------------------------------------------- negotiation

/// A deficit vehicle whose flexibility is worth money: expensive early prices,
/// cheap later, so a delayed departure lets the building serve the same energy
/// cheaper.
fn flexible_driver() -> Scenario<Real> {
    let mut v = vehicle(0, 0, 16);
    v.soc_arrival_kwh = n(10.0);
    v.soc_target_kwh = n(50.0);
    v.max_discharge_kw = n(0.0);
    let mut s = base_scenario(48, vec![v], vec![charger(0, false)]);
    s.building_load_kw = vec![n(30.0); 48];
    for slot in 0..48 {
        s.price_usd_per_kwh[slot] = n(if slot < 20 { 0.40 } else { 0.10 });
    }
    s
}

fn config() -> NegotiationConfig<Real> {
    NegotiationConfig {
        choice_count: 5,
        delay_slots_per_tier: 4,
        target_reduction_per_tier_kwh: n(2.0),
        temperature: n(0.0),
        ..NegotiationConfig::default()
    }
}

#[test]
fn menu_shape_and_price_monotonicity() {
    let s = flexible_driver();
    let (_, records) = negotiate(&s, &Simplex, &config()).expect("negotiates");
    assert_eq!(records.len(), 1, "one session, one record");
    let r = &records[0];
    assert_eq!(r.offers.len(), 5, "choice_count offers incl. reject");
    assert!(r.offers.last().expect("nonempty").is_reject, "last offer is reject");
    assert_eq!(r.utilities.len(), r.offers.len(), "one utility per offer");
    // Deeper concessions can never cost the user more.
    for pair in r.offers[..4].windows(2) {
        assert!(
            pair[1].price_usd.0 <= pair[0].price_usd.0 + 1e-9,
            "tier {} price {} > tier {} price {}",
            pair[1].tier,
            pair[1].price_usd.0,
            pair[0].tier,
            pair[0].price_usd.0
        );
    }
    // In this fixture flexibility is genuinely valuable: the deepest offer must
    // be strictly cheaper than tier 0.
    assert!(r.offers[3].price_usd.0 < r.offers[0].price_usd.0 - 1e-6);
}

#[test]
fn negotiation_is_deterministic_given_a_seed() {
    let s = flexible_driver();
    let mut cfg = config();
    cfg.temperature = n(0.5);
    cfg.seed = 12345;
    let (_, a) = negotiate(&s, &Simplex, &cfg).expect("negotiates");
    let (_, b) = negotiate(&s, &Simplex, &cfg).expect("negotiates");
    assert_eq!(
        format!("{:?}", a),
        format!("{:?}", b),
        "same seed must reproduce identical contracts"
    );
}

#[test]
fn accepted_contract_runs_and_is_honored() {
    let s = flexible_driver();
    let (modified, records) = negotiate(&s, &Simplex, &config()).expect("negotiates");
    let r = &records[0];
    assert!(!r.chosen_is_reject, "flexibility is valuable here: an offer should win");
    assert_eq!(count_accepted(&records), 1);
    assert!(
        r.new_departure_slot > 16 || r.new_target_kwh.0 < 50.0,
        "the chosen offer should deviate from the original contract"
    );
    modified.validate().expect("negotiated scenario is valid");
    let result = run_named(&modified, "policy-0");
    let sess = &result.sessions[0];
    assert_eq!(sess.departure_slot, r.new_departure_slot, "engine ran the new contract");
    assert!(sess.target_met, "renegotiated target must be met");
}

#[test]
fn reject_keeps_original_terms() {
    // Make every offer terrible: no surplus shared, huge inconvenience, cheap
    // external option: the user rejects.
    let s = flexible_driver();
    let mut cfg = config();
    cfg.surplus_share = n(0.0);
    cfg.inconvenience_delay_usd_per_slot = n(10.0);
    cfg.inconvenience_reduction_usd_per_kwh = n(10.0);
    cfg.external_price_usd_per_kwh = n(0.01);
    let (modified, records) = negotiate(&s, &Simplex, &cfg).expect("negotiates");
    let r = &records[0];
    assert!(r.chosen_is_reject, "user should walk away");
    assert_eq!(count_accepted(&records), 0);
    assert_eq!(modified.vehicles[0].departure_slot, 16, "original departure kept");
    assert_eq!(modified.vehicles[0].soc_target_kwh, n(50.0), "original target kept");
}

#[test]
fn delay_is_capped_at_the_next_session_of_the_same_vehicle() {
    // Two chained sessions with a tight gap: tier delays must never make
    // session 1 overlap session 2.
    let mk = |arr: usize, dep: usize| {
        let mut v = vehicle(3, arr, dep);
        v.soc_arrival_kwh = n(10.0);
        v.soc_target_kwh = n(40.0);
        v.max_discharge_kw = n(0.0);
        v.depletion_kwh = n(5.0);
        v
    };
    let mut s = base_scenario(96, vec![mk(0, 20), mk(22, 60)], vec![charger(0, false)]);
    for slot in 0..96 {
        s.price_usd_per_kwh[slot] = n(if slot < 30 { 0.40 } else { 0.10 });
    }
    let (modified, _) = negotiate(&s, &Simplex, &config()).expect("negotiates");
    assert!(
        modified.vehicles[0].departure_slot <= 22,
        "delay pushed session 1 past session 2's arrival"
    );
    modified.validate().expect("still valid");
}

/// The cap looks at the vehicle's own next session, also where another vehicle
/// arrives in between.
#[test]
fn delay_is_capped_across_other_arrivals() {
    let mk = |id: u32, arr: usize, dep: usize| {
        let mut v = vehicle(id, arr, dep);
        v.soc_arrival_kwh = n(10.0);
        v.soc_target_kwh = n(40.0);
        v.max_discharge_kw = n(0.0);
        v
    };
    let mut s = base_scenario(
        96,
        vec![mk(3, 0, 20), mk(4, 10, 40), mk(3, 22, 60)],
        vec![charger(0, false), charger(1, false)],
    );
    for slot in 0..96 {
        s.price_usd_per_kwh[slot] = n(if slot < 30 { 0.40 } else { 0.10 });
    }
    let (modified, records) = negotiate(&s, &Simplex, &config()).expect("negotiates");
    assert_eq!(records.iter().map(|r| r.vehicle_id).collect::<Vec<_>>(), vec![3, 4, 3]);
    assert!(modified.vehicles[0].departure_slot <= 22);
    modified.validate().expect("still valid");
}

/// With an offer accepted (delay past the window), the building's bill improves
/// versus the un-negotiated run.
#[test]
fn negotiation_reduces_the_bill_when_flexibility_has_value() {
    let mut v = vehicle(0, 0, 24);
    v.soc_arrival_kwh = n(10.0);
    v.soc_target_kwh = n(50.0);
    v.max_discharge_kw = n(0.0);
    let mut s = base_scenario(64, vec![v], vec![charger(0, false)]);
    s.building_load_kw = vec![n(40.0); 64];
    s.dr_events.push(dr_event(4, 20, 42.0)); // charging in-window is penalized
    let (modified, records) = negotiate(&s, &Simplex, &config()).expect("negotiates");
    let before = run_named(&s, "policy-0");
    let after = run_named(&modified, "policy-0");
    if !records[0].chosen_is_reject {
        assert!(
            after.bill.total_usd.0 <= before.bill.total_usd.0 + 1e-9,
            "accepted flexibility should not worsen the bill ({} vs {})",
            after.bill.total_usd.0,
            before.bill.total_usd.0
        );
    }
    assert!(after.sessions[0].target_met, "renegotiated target met");
}

/// Tiers, delays, reductions and prices worked out by hand.
#[test]
fn menus_are_priced_by_hand() {
    let mut v = vehicle(0, 0, 16);
    v.soc_target_kwh = n(50.0);
    v.min_soc_kwh = n(45.0);
    let costs = vec![n(10.0), n(10.0), n(8.0), n(7.0), n(1.0)];
    let menu = make_menu(&config(), &v, 22, n(20.0), &costs);
    let offer = |tier, delay_slots, reduction: f64, price: f64| Offer {
        tier,
        is_reject: false,
        delay_slots,
        target_reduction_kwh: n(reduction),
        price_usd: n(price),
    };
    assert_eq!(
        menu,
        vec![
            offer(0, 0, 0.0, 10.0),
            offer(1, 4, 2.0, 9.0),
            offer(2, 6, 4.0, 8.5), // delayed to the cap
            offer(3, 6, 5.0, 5.5), // reduced to the floor
            Offer {
                tier: 4,
                is_reject: true,
                delay_slots: 0,
                target_reduction_kwh: n(0.0),
                price_usd: n(13.5),
            },
        ]
    );
    let utilities = make_utilities(&config(), &menu);
    let want = [-10.0, -9.9, -10.1, -7.35, -13.5];
    for (u, w) in utilities.iter().zip(want) {
        assert!(near(*u, w, 1e-12), "{u:?} {w}");
    }
    let mut rng = openv2b::negotiation::Rng(43);
    assert_eq!(pick(&utilities, n(0.0), &mut rng), 3);
    assert_eq!(rng.0, 43, "no draw at temperature zero");
    assert_eq!(pick(&vec![n(1.0), n(1.0)], n(0.0), &mut rng), 0, "ties break low");
}

/// The softmax draw follows the weights.
#[test]
fn draws_follow_the_weights() {
    let mut rng = openv2b::negotiation::Rng(1);
    let utilities = vec![n(0.0), n(2.0_f64.ln())];
    let mut second = 0;
    for _ in 0..3000 {
        second += pick(&utilities, n(1.0), &mut rng);
    }
    assert!((1850..2150).contains(&second), "two thirds expected, got {second} of 3000");
    let mut rng = openv2b::negotiation::Rng(1);
    let first: Real = rng.unit();
    // 1 -> 1 ^ (1 << 25) -> shifted by 27 nothing is added: 0x2000001 times the
    // multiplier, upper 53 bits.
    assert_eq!(rng.0, 0x200_0001);
    let raw = 0x200_0001u64.wrapping_mul(0x2545_F491_4F6C_DD1D) >> 11;
    assert_eq!(first, n(raw as f64 / 9007199254740992.0));
}

// ------------------------------------------------------------------- parity

fn oracle_replay(s: &Scenario<Real>) -> OracleReplay<Real> {
    let plan = solve_oracle(s, &Simplex, &OracleConfig::default()).expect("oracle solves fixture");
    OracleReplay { plan }
}

/// Deficit regime: three vehicles arrive at slot 0 nearly empty with high
/// targets and NO discharge capability; staggered departures; TOU prices, priced
/// demand, one DR window.
fn deficit_fixture() -> Scenario<Real> {
    let mk = |id: u32, dep: usize, target: f64| {
        let mut v = vehicle(id, 0, dep);
        v.soc_arrival_kwh = n(8.0);
        v.soc_target_kwh = n(target);
        v.max_discharge_kw = n(0.0);
        v
    };
    let mut s = base_scenario(
        48,
        vec![mk(0, 16, 40.0), mk(1, 28, 50.0), mk(2, 44, 55.0)],
        vec![charger(0, true), charger(1, true), charger(2, true)],
    );
    s.building_load_kw = vec![n(30.0); 48];
    // Expensive first, cheap later: immediate charging (uncontrolled) is the
    // WRONG strategy here, so the oracle has something to optimize; the earliest
    // departure still forces some expensive charging.
    for slot in 0..48 {
        s.price_usd_per_kwh[slot] = n(if slot < 16 { 0.35 } else { 0.12 });
        if (24..40).contains(&slot) {
            s.tou_class[slot] = TouClass::Peak;
        }
    }
    s.manifest.demand_charge_peak_usd_per_kw = n(11.67);
    s.dr_events.push(dr_event(20, 32, 45.0));
    s
}

/// Surplus regime: three V2B vehicles arrive at slot 0 far above their targets,
/// staggered departures, building load above the firm level for a long
/// mid-horizon window.
fn surplus_fixture() -> Scenario<Real> {
    let mk = |id: u32, dep: usize| {
        let mut v = vehicle(id, 0, dep);
        v.battery_kwh = n(80.0);
        v.soc_arrival_kwh = n(70.0);
        v.soc_target_kwh = n(25.0);
        v.min_soc_kwh = n(10.0);
        v.max_discharge_kw = n(15.0);
        v.max_charge_kw = n(15.0);
        v
    };
    let mut s = base_scenario(
        48,
        vec![mk(0, 18), mk(1, 30), mk(2, 46)],
        vec![charger(0, true), charger(1, true), charger(2, true)],
    );
    s.building_load_kw = vec![n(55.0); 48];
    for slot in 0..48 {
        s.price_usd_per_kwh[slot] = n(if slot < 12 { 0.10 } else { 0.30 });
        if (16..40).contains(&slot) {
            s.tou_class[slot] = TouClass::Peak;
        }
    }
    s.manifest.demand_charge_peak_usd_per_kw = n(11.67);
    s.dr_events.push(dr_event(8, 40, 45.0)); // long window, 10 kW shortfall
    s
}

/// The battery-wear objective term (0.05 $/kWh) is unbilled, so realized bills
/// may legitimately differ by up to that term.
fn deg_slack(r: &Results<Real>) -> f64 {
    0.05 * r.sessions.iter().map(|s| s.energy_exported_kwh.0).sum::<f64>() + 1e-4
}

#[test]
fn deficit_regime_mpc_matches_oracle() {
    let s = deficit_fixture();
    let m = run(&s, &mut mpc());
    let o = run(&s, &mut oracle_replay(&s));
    for r in [&m, &o] {
        for sess in &r.sessions {
            assert!(sess.target_met, "{}: target missed", r.policy);
        }
    }
    assert!(near(m.bill.total_usd, o.bill.total_usd.0, deg_slack(&m).max(deg_slack(&o))));
}

#[test]
fn surplus_regime_mpc_matches_oracle() {
    let s = surplus_fixture();
    let m = run(&s, &mut mpc());
    let o = run(&s, &mut oracle_replay(&s));
    for r in [&m, &o] {
        for sess in &r.sessions {
            assert!(sess.target_met, "{}: target missed", r.policy);
        }
    }
    assert!(near(m.bill.total_usd, o.bill.total_usd.0, deg_slack(&m).max(deg_slack(&o))));
    // The whole point of the surplus fixture: V2B actually fires.
    let exported: f64 = m.sessions.iter().map(|x| x.energy_exported_kwh.0).sum();
    assert!(exported > 10.0, "surplus fixture must be V2B-heavy (exported {exported})");
}

/// Drift canary: under perfect foresight (all sessions known at slot 0), the
/// planned peak must never jump UPWARD between successive re-solves.
#[test]
fn planned_peak_never_rises_under_perfect_foresight() {
    for fixture in [deficit_fixture(), surplus_fixture()] {
        let mut policy = mpc();
        let _ = run(&fixture, &mut policy);
        let peaks = &policy.planned_peaks;
        assert!(!peaks.is_empty(), "canary needs recorded solves");
        for pair in peaks.windows(2) {
            assert!(
                pair[1].0 <= pair[0].0 + 1e-6,
                "planned peak rose between re-solves: {} -> {} (information loss)",
                pair[0].0,
                pair[1].0
            );
        }
    }
}

/// Oracle sanity on both regimes: it beats uncontrolled by a wide margin.
#[test]
fn oracle_beats_uncontrolled() {
    for s in [deficit_fixture(), surplus_fixture()] {
        let o = run(&s, &mut oracle_replay(&s));
        let u = run_named(&s, "uncontrolled");
        assert!(
            o.bill.total_usd.0 < u.bill.total_usd.0,
            "oracle {} !< uncontrolled {}",
            o.bill.total_usd.0,
            u.bill.total_usd.0
        );
    }
}

/// The oracle's persistence coupling: with two chained sessions and a DR window
/// in the second, the oracle banks in session 1 (cheap) to discharge in session
/// 2, which an independent-session solve cannot do.
#[test]
fn oracle_banks_across_the_persistence_chain() {
    let mk = |arr: usize, dep: usize, depl: f64| {
        let mut v = vehicle(0, arr, dep);
        v.battery_kwh = n(60.0);
        v.soc_arrival_kwh = n(20.0);
        v.soc_target_kwh = n(25.0);
        v.max_discharge_kw = n(20.0);
        v.depletion_kwh = n(depl);
        v
    };
    let mut s =
        base_scenario(96, vec![mk(0, 24, 0.0), mk(40, 90, 5.0)], vec![charger(0, true)]);
    s.building_load_kw = vec![n(50.0); 96];
    for slot in 0..96 {
        s.price_usd_per_kwh[slot] = n(if slot < 24 { 0.08 } else { 0.30 });
    }
    // 8 kW shortfall over 28 covered slots = 56 kWh: coverable from a full
    // 60 kWh battery at the window start, so zero overflow is attainable.
    s.dr_events.push(dr_event(48, 76, 42.0));
    let plan = solve_oracle(&s, &Simplex, &OracleConfig::default()).expect("solves");
    let r = run(&s, &mut OracleReplay { plan });
    let session1 = &r.sessions[0];
    assert!(
        session1.banked_kwh.0 > 5.0,
        "oracle should bank in the cheap first session (banked {})",
        session1.banked_kwh.0
    );
    assert!(
        r.bill.dr_penalty_usd.0 < 1e-6,
        "banked energy should cover the window (penalty {})",
        r.bill.dr_penalty_usd.0
    );
}

// ------------------------------------------------------------- scenario MPC

/// The simplex, with a note of the lower bound of every time-related peak.
#[derive(Debug, Default)]
struct Noting(RefCell<Vec<Vec<f64>>>);

impl MilpBackend<Real> for Noting {
    fn title(&self) -> &str {
        "noting"
    }
    fn answers(&self, _: &Model<Real>, _: &Result<Solution<Real>, SolveError>) -> bool {
        true
    }
    fn name(&self) -> &str {
        self.title()
    }
    fn solve(&self, model: &Model<Real>) -> Result<Solution<Real>, SolveError> {
        let bounds = model.vars.iter().filter(|v| v.name.starts_with("pmaxtou_")).map(|v| v.lb.0);
        self.0.borrow_mut().push(bounds.collect());
        Simplex.solve(model)
    }
}

/// The peaks of every scenario start at the largest load realized in slots of class
/// `peak` so far.
#[test]
fn peak_history_bounds_the_planned_peaks() {
    let mut s = banking_fixture();
    s.manifest.demand_charge_peak_usd_per_kw = n(5.0);
    for slot in [2, 3, 5] {
        s.tou_class[slot] = TouClass::Peak;
    }
    let futures = vec![future_without_return(), future_with_return()];
    let mut policy = ScenarioMpc::new(Noting::default(), ScenarioMpcConfig::new(futures));
    let r = run(&s, &mut policy);
    let noted = policy.backend.0.borrow();
    assert_eq!(noted.len(), 8, "one solve per connected slot");
    let mut largest = 0.0f64;
    for (slot, bounds) in noted.iter().enumerate() {
        assert_eq!(bounds.len(), 2, "one peak per scenario");
        for b in bounds {
            assert!((b - largest).abs() < 1e-6, "slot {slot}: {b} for {largest}");
        }
        if s.tou_class[slot] == TouClass::Peak {
            largest = largest.max(r.slots[slot].net_kw.0);
        }
    }
    assert!(largest > 0.0);
}

/// Later building loads are never read, sampled futures or not.
#[test]
fn scenario_decisions_see_no_future_load() {
    let s = banking_fixture();
    let mut t = s.clone();
    for slot in 4..96 {
        t.building_load_kw[slot] = n(300.0);
    }
    for building_from_futures in [true, false] {
        let config = || ScenarioMpcConfig {
            building_from_futures,
            ..ScenarioMpcConfig::new(vec![future_with_return()])
        };
        let a = run_with_config(&s, config());
        let b = run_with_config(&t, config());
        assert_eq!(a.slots[..4], b.slots[..4]);
    }
}

fn run_with(scenario: &Scenario<Real>, futures: Vec<Scenario<Real>>) -> Results<Real> {
    run_with_config(scenario, ScenarioMpcConfig::new(futures))
}

fn run_with_config(scenario: &Scenario<Real>, config: ScenarioMpcConfig<Real>) -> Results<Real> {
    run(scenario, &mut ScenarioMpc::new(Simplex, config))
}

/// Vehicle 7 is connected for slots 0..8 and arrives exactly ON its target
/// (20 kWh): the live problem never needs a single kWh. Energy is cheap (0.05)
/// while it is connected and 12x more expensive (0.60) afterwards.
fn banking_fixture() -> Scenario<Real> {
    let mut v = vehicle(7, 0, 8);
    v.soc_arrival_kwh = n(20.0);
    v.soc_target_kwh = n(20.0);
    let mut s = base_scenario(96, vec![v], vec![charger(0, true)]);
    for slot in 0..96 {
        s.price_usd_per_kwh[slot] = n(if slot < 8 { 0.05 } else { 0.60 });
    }
    s
}

/// A sampled future in which the SAME identity returns later that day needing
/// 55 kWh: the chain makes its opening energy the connected session's terminal
/// energy minus the 5 kWh trip.
fn future_with_return() -> Scenario<Real> {
    let mut fv = vehicle(7, 40, 60);
    fv.soc_arrival_kwh = n(30.0);
    fv.soc_target_kwh = n(55.0);
    fv.depletion_kwh = n(5.0);
    base_scenario(96, vec![fv], vec![charger(0, true)])
}

/// A sampled future in which nothing returns at all.
fn future_without_return() -> Scenario<Real> {
    base_scenario(96, Vec::new(), vec![charger(0, true)])
}

/// The committed first slot is the SHARED optimum over the sampled futures, not
/// scenario 0's private optimum, and must not depend on which future was listed
/// first.
#[test]
fn non_anticipativity_ties_the_committed_first_slot() {
    let s = banking_fixture();
    let both = run_with(&s, vec![future_without_return(), future_with_return()]);
    let swapped = run_with(&s, vec![future_with_return(), future_without_return()]);
    let alone = run_with(&s, vec![future_without_return()]);

    assert!(near(both.slots[0].ev_charge_kw, swapped.slots[0].ev_charge_kw.0, 1e-6));
    assert!(
        alone.slots[0].ev_charge_kw.0 < 1e-6,
        "a lone no-return future must commit nothing at slot 0, got {} kW",
        alone.slots[0].ev_charge_kw.0
    );
    assert!(
        both.slots[0].ev_charge_kw.0 > alone.slots[0].ev_charge_kw.0 + 5.0,
        "the tied commitment must follow the returning future, not scenario 0: \
         {} kW with both futures vs {} kW with scenario 0 alone",
        both.slots[0].ev_charge_kw.0,
        alone.slots[0].ev_charge_kw.0
    );
}

/// A connected session whose identity returns in the sampled futures banks
/// strictly more than the same fixture with no future sessions.
#[test]
fn chained_future_makes_the_connected_session_bank() {
    let s = banking_fixture();
    let returning = run_with(&s, vec![future_with_return()]);
    let barren = run_with(&s, vec![future_without_return()]);

    let banked = &returning.sessions[0];
    let idle = &barren.sessions[0];
    assert!(
        idle.energy_drawn_kwh.0 < 1e-6,
        "with no future sessions an on-target car must draw nothing, got {} kWh",
        idle.energy_drawn_kwh.0
    );
    assert!(
        banked.energy_drawn_kwh.0 > idle.energy_drawn_kwh.0 + 10.0,
        "the chained return must pull energy forward: {} kWh drawn vs {} kWh",
        banked.energy_drawn_kwh.0,
        idle.energy_drawn_kwh.0
    );
    assert!(
        banked.soc_departure_kwh.0 > idle.soc_departure_kwh.0 + 10.0,
        "banking must show up as departure SoC: {} kWh vs {} kWh",
        banked.soc_departure_kwh.0,
        idle.soc_departure_kwh.0
    );
    assert!(
        banked.banked_kwh.0 > 0.0 && banked.target_met,
        "banking is surplus ABOVE a met target: banked {} kWh, target_met {}",
        banked.banked_kwh.0,
        banked.target_met
    );
    assert!(
        banked.soc_departure_kwh.0 <= banked.soc_arrival_kwh.0 + banked.energy_drawn_kwh.0 + 1e-9,
        "lossless chaining cannot manufacture energy: {} kWh from {} + {}",
        banked.soc_departure_kwh.0,
        banked.soc_arrival_kwh.0,
        banked.energy_drawn_kwh.0
    );
}

/// A fixture whose CHEAP window is exactly where the sampled future expects a
/// 300 kW building spike.
fn forecast_fixture() -> (Scenario<Real>, Scenario<Real>) {
    let mut v = vehicle(0, 0, 48);
    v.soc_arrival_kwh = n(20.0);
    v.soc_target_kwh = n(50.0);
    let mut s = base_scenario(96, vec![v], vec![charger(0, true)]);
    s.manifest.demand_charge_usd_per_kw = n(10.0);
    s.building_load_kw = vec![n(50.0); 96];
    for slot in 0..96 {
        s.price_usd_per_kwh[slot] = n(if slot < 24 { 0.20 } else { 0.05 });
    }
    let mut f = base_scenario(96, Vec::new(), vec![charger(0, true)]);
    f.building_load_kw = (0..96).map(|slot| n(if slot < 24 { 50.0 } else { 300.0 })).collect();
    (s, f)
}

/// `building_from_futures`: sampling the building load changes the plan, and
/// BOTH settings stay inside every engine invariant.
#[test]
fn building_from_futures_changes_the_plan_and_breaks_nothing() {
    let (s, f) = forecast_fixture();
    let forecast = run_with_config(&s, ScenarioMpcConfig::new(vec![f.clone()]));
    let known = run_with_config(
        &s,
        ScenarioMpcConfig { building_from_futures: false, ..ScenarioMpcConfig::new(vec![f]) },
    );

    assert!(
        forecast.bill.peak_net_kw.0 > known.bill.peak_net_kw.0 + 1.0,
        "an expected 300 kW spike must change the realized profile: peak {} kW \
         (sampled load) vs {} kW (realized load)",
        forecast.bill.peak_net_kw.0,
        known.bill.peak_net_kw.0
    );
    for r in [&forecast, &known] {
        let session = &r.sessions[0];
        assert!(
            session.target_met,
            "the target is trivially feasible in both settings: missing {} kWh",
            session.missing_kwh.0
        );
        assert!(
            session.soc_departure_kwh.0 >= 0.0 && session.soc_departure_kwh.0 <= 60.0,
            "SoC must stay inside [floor, capacity], got {} kWh",
            session.soc_departure_kwh.0
        );
        assert!(near(
            session.soc_departure_kwh,
            session.soc_arrival_kwh.0 + session.energy_drawn_kwh.0 - session.energy_exported_kwh.0,
            1e-6
        ));
        for rec in &r.slots {
            assert!(
                rec.net_kw.0 >= -1e-9,
                "no export at slot {}: net {} kW",
                rec.slot,
                rec.net_kw.0
            );
            assert!(
                rec.ev_charge_kw.0 <= 20.0 + 1e-9 && rec.ev_discharge_kw.0 <= 20.0 + 1e-9,
                "port limits hold at slot {}: +{} / -{} kW",
                rec.slot,
                rec.ev_charge_kw.0,
                rec.ev_discharge_kw.0
            );
        }
    }
}

/// Determinism with K > 1: the multi-scenario model is built and read back in a
/// fixed order, so two runs of the same K-future configuration print
/// identically.
#[test]
fn k_future_runs_are_deterministic() {
    let s = banking_fixture();
    let futures =
        || vec![future_without_return(), future_with_return(), future_without_return()];
    let a = run_with(&s, futures());
    let b = run_with(&s, futures());
    assert_eq!(
        format!("{:?}", a.slots),
        format!("{:?}", b.slots),
        "K=3 scenario-mpc must produce identical slot series"
    );
    assert_eq!(
        format!("{:?}", a.sessions),
        format!("{:?}", b.sessions),
        "K=3 scenario-mpc must produce identical session results"
    );
    assert_eq!(
        format!("{:?}", a.bill),
        format!("{:?}", b.bill),
        "K=3 scenario-mpc must produce an identical bill"
    );
}
