//! The simulator on double-precision numbers: physics, billing, persistence,
//! validation and the built-in policies.

use std::collections::HashSet;

use openv2b::engine::{run, Results};
use openv2b::month::{
    month_chargers, month_events, month_loads, month_manifest, month_prices, month_vehicles,
};
use openv2b::num::Num;
use openv2b::output::summarize;
use openv2b::policy::{self, Policy, POLICY_NAMES};
use openv2b::scenario::{
    default_building_file, default_chargers_file, default_efficiency, default_prices_file, default_true,
    default_vehicles_file, Charger, DrEvent, Manifest, Scenario, ScenarioError, TouClass, Vehicle,
};
use openv2b::series::{dense_prices, dense_series, PriceRow, SeriesRow, Tables};
use openv2b::state::{Observation, SessionView, Setpoint};
use openv2b::{kw_to_kwh, kwh_to_kw};

/// Double-precision numbers.
#[derive(Debug, Clone, Copy, PartialEq, PartialOrd)]
struct Real(f64);

impl Num for Real {
    fn plus(self, other: Self) -> Self {
        Real(self.0 + other.0)
    }
    fn minus(self, other: Self) -> Self {
        Real(self.0 - other.0)
    }
    fn times(self, other: Self) -> Self {
        Real(self.0 * other.0)
    }
    fn over(self, other: Self) -> Self {
        Real(self.0 / other.0)
    }
    fn negated(self) -> Self {
        Real(-self.0)
    }
    fn magnitude(self) -> Self {
        Real(self.0.abs())
    }
    fn lesser(self, other: Self) -> Self {
        Real(self.0.min(other.0))
    }
    fn greater(self, other: Self) -> Self {
        Real(self.0.max(other.0))
    }
    fn exponential(self) -> Self {
        Real(self.0.exp())
    }
    fn below(self, other: Self) -> bool {
        self.0 < other.0
    }
    fn at_most(self, other: Self) -> bool {
        self.0 <= other.0
    }
    fn same(self, other: Self) -> bool {
        self.0 == other.0
    }
    fn finite(self) -> bool {
        self.0.is_finite()
    }
    fn infinite(self) -> bool {
        self.0.is_infinite()
    }
    fn undefined(self) -> bool {
        self.0.is_nan()
    }
    fn rational(n: u64, d: u64) -> Self {
        Real(n as f64 / d as f64)
    }
    fn unbounded() -> Self {
        Real(f64::INFINITY)
    }
    fn no_number() -> Self {
        Real(f64::NAN)
    }
    fn whole(self) -> usize {
        self.0 as usize
    }
    fn scientific(self) -> String {
        format!("{:.17e}", self.0)
    }
    fn spelled(text: &[char]) -> Option<Self> {
        text.iter().collect::<String>().parse::<f64>().ok().map(Real)
    }
    fn add(self, other: Self) -> Self {
        self.plus(other)
    }
    fn sub(self, other: Self) -> Self {
        self.minus(other)
    }
    fn mul(self, other: Self) -> Self {
        self.times(other)
    }
    fn div(self, other: Self) -> Self {
        self.over(other)
    }
    fn neg(self) -> Self {
        self.negated()
    }
    fn abs(self) -> Self {
        self.magnitude()
    }
    fn min(self, other: Self) -> Self {
        self.lesser(other)
    }
    fn max(self, other: Self) -> Self {
        self.greater(other)
    }
    fn exp(self) -> Self {
        self.exponential()
    }
    fn lt(self, other: Self) -> bool {
        self.below(other)
    }
    fn le(self, other: Self) -> bool {
        self.at_most(other)
    }
    fn eq(self, other: Self) -> bool {
        self.same(other)
    }
    fn is_finite(self) -> bool {
        self.finite()
    }
    fn is_infinite(self) -> bool {
        self.infinite()
    }
    fn is_nan(self) -> bool {
        self.undefined()
    }
    fn ratio(n: u64, d: u64) -> Self {
        Self::rational(n, d)
    }
    fn infinity() -> Self {
        Self::unbounded()
    }
    fn nan() -> Self {
        Self::no_number()
    }
    fn to_usize(self) -> usize {
        self.whole()
    }
    fn to_scientific(self) -> String {
        self.scientific()
    }
    fn parse(text: &[char]) -> Option<Self> {
        Self::spelled(text)
    }
}

fn n(x: f64) -> Real {
    Real(x)
}

fn near(a: Real, b: f64, epsilon: f64) -> bool {
    (a.0 - b).abs() <= epsilon
}

fn manifest(horizon_slots: usize) -> Manifest<Real> {
    Manifest {
        slot_minutes: n(15.0),
        horizon_slots,
        charge_efficiency: default_efficiency(),
        discharge_efficiency: default_efficiency(),
        site_cap_kw: None,
        demand_charge_usd_per_kw: n(0.0),
        demand_charge_peak_usd_per_kw: n(0.0),
        heuristic_threshold_kw: None,
        persistence: default_true(),
        vehicles_file: default_vehicles_file(),
        chargers_file: default_chargers_file(),
        building_file: default_building_file(),
        prices_file: default_prices_file(),
        dr_events_file: None,
    }
}

fn vehicle(id: u32, arrival: usize, departure: usize) -> Vehicle<Real> {
    Vehicle {
        vehicle_id: id,
        arrival_slot: arrival,
        departure_slot: departure,
        battery_kwh: n(60.0),
        soc_arrival_kwh: n(20.0),
        soc_target_kwh: n(40.0),
        max_charge_kw: n(20.0),
        max_discharge_kw: n(20.0),
        min_soc_kwh: n(0.0),
        max_soc_kwh: None,
        depletion_kwh: n(0.0),
    }
}

fn charger(id: u32, bidirectional: bool) -> Charger<Real> {
    Charger {
        charger_id: id,
        max_kw: n(20.0),
        bidirectional,
    }
}

/// A scenario with flat building load and price, and no DR events.
fn base_scenario(
    horizon_slots: usize,
    vehicles: Vec<Vehicle<Real>>,
    chargers: Vec<Charger<Real>>,
) -> Scenario<Real> {
    let scenario = Scenario {
        manifest: manifest(horizon_slots),
        vehicles,
        chargers,
        building_load_kw: vec![n(50.0); horizon_slots],
        price_usd_per_kwh: vec![n(0.20); horizon_slots],
        tou_class: vec![TouClass::OffPeak; horizon_slots],
        dr_events: Vec::new(),
    };
    scenario.validate().expect("test scenario must be valid");
    scenario
}

fn dr_event(start: usize, end: usize, fsl_kw: f64) -> DrEvent<Real> {
    DrEvent {
        start_slot: start,
        end_slot: end,
        fsl_kw: n(fsl_kw),
        penalty_usd_per_kwh: n(6.0),
        incentive_usd_per_kw: n(13.6),
        baseline_kw: n(0.0),
    }
}

/// Runs a fresh instance of a built-in policy.
fn run_named(scenario: &Scenario<Real>, name: &str) -> Results<Real> {
    let mut policy = policy::by_name::<Real>(name).expect("registered");
    run(scenario, &mut policy)
}

// ------------------------------------------------------------ test policies

/// Emits full power for every session, last session first.
#[derive(Clone, Copy)]
struct EmitReversed;

impl Policy<Real> for EmitReversed {
    fn title(&self) -> &'static str {
        "emit-reversed-test"
    }
    fn ready(&self) -> bool {
        true
    }
    fn chooses(&self, _: &Observation<Real>, _: &Vec<Setpoint<Real>>, _: &Self) -> bool {
        true
    }
    fn name(&self) -> &'static str {
        self.title()
    }
    fn decide(&mut self, obs: &Observation<Real>) -> Vec<Setpoint<Real>> {
        let mut sp: Vec<Setpoint<Real>> = obs
            .sessions
            .iter()
            .map(|s| Setpoint { session_index: s.index, power_kw: n(20.0) })
            .collect();
        sp.reverse();
        sp
    }
}

/// Requests maximum discharge from every session, unconditionally.
#[derive(Clone, Copy)]
struct MaxDischarge;

impl Policy<Real> for MaxDischarge {
    fn title(&self) -> &'static str {
        "max-discharge-test"
    }
    fn ready(&self) -> bool {
        true
    }
    fn chooses(&self, _: &Observation<Real>, _: &Vec<Setpoint<Real>>, _: &Self) -> bool {
        true
    }
    fn name(&self) -> &'static str {
        self.title()
    }
    fn decide(&mut self, obs: &Observation<Real>) -> Vec<Setpoint<Real>> {
        obs.sessions
            .iter()
            .map(|s| Setpoint { session_index: s.index, power_kw: n(-1e15) })
            .collect()
    }
}

/// Lands within rounding dust of the target.
#[derive(Clone, Copy)]
struct AlmostExact;

impl Policy<Real> for AlmostExact {
    fn title(&self) -> &'static str {
        "almost-exact-test"
    }
    fn ready(&self) -> bool {
        true
    }
    fn chooses(&self, _: &Observation<Real>, _: &Vec<Setpoint<Real>>, _: &Self) -> bool {
        true
    }
    fn name(&self) -> &'static str {
        self.title()
    }
    fn decide(&mut self, obs: &Observation<Real>) -> Vec<Setpoint<Real>> {
        obs.sessions
            .iter()
            .map(|s| Setpoint {
                session_index: s.index,
                power_kw: if s.remaining_need_kwh().0 > 1e-6 { n(80.0 - 4e-12) } else { n(0.0) },
            })
            .collect()
    }
}

/// A banking policy: charge every session at full power all the time.
#[derive(Clone, Copy)]
struct Greedy;

impl Policy<Real> for Greedy {
    fn title(&self) -> &'static str {
        "greedy-test"
    }
    fn ready(&self) -> bool {
        true
    }
    fn chooses(&self, _: &Observation<Real>, _: &Vec<Setpoint<Real>>, _: &Self) -> bool {
        true
    }
    fn name(&self) -> &'static str {
        self.title()
    }
    fn decide(&mut self, obs: &Observation<Real>) -> Vec<Setpoint<Real>> {
        obs.sessions
            .iter()
            .map(|s| Setpoint { session_index: s.index, power_kw: s.max_charge_kw })
            .collect()
    }
}

/// NaN, infinite, huge, out-of-range and duplicate setpoints.
#[derive(Clone, Copy)]
struct Adversarial;

impl Policy<Real> for Adversarial {
    fn title(&self) -> &'static str {
        "adversarial-test"
    }
    fn ready(&self) -> bool {
        true
    }
    fn chooses(&self, _: &Observation<Real>, _: &Vec<Setpoint<Real>>, _: &Self) -> bool {
        true
    }
    fn name(&self) -> &'static str {
        self.title()
    }
    fn decide(&mut self, obs: &Observation<Real>) -> Vec<Setpoint<Real>> {
        let mut sp = Vec::new();
        for s in &obs.sessions {
            for power in [f64::NAN, f64::INFINITY, f64::NEG_INFINITY, 1e15, -1e15] {
                sp.push(Setpoint { session_index: s.index, power_kw: n(power) });
            }
        }
        sp.push(Setpoint { session_index: 9999, power_kw: n(100.0) });
        sp
    }
}

// --------------------------------------------------- rationing and row order

/// Scarce headroom is rationed in the policy's emission order, not row order.
#[test]
fn headroom_rationed_in_emission_order() {
    let mut s = base_scenario(
        4,
        vec![vehicle(7, 0, 4), vehicle(9, 0, 4)],
        vec![charger(0, false), charger(1, false)],
    );
    s.building_load_kw = vec![n(50.0); 4];
    s.manifest.site_cap_kw = Some(n(60.0)); // 10 kW headroom
    let r = run(&s, &mut EmitReversed);
    let by_id = |id: u32| {
        r.sessions.iter().find(|x| x.vehicle_id == id).expect("session present").energy_drawn_kwh.0
    };
    assert!(by_id(9) > by_id(7), "emission order must win: 9 was asked first");
}

/// With a binding site cap, permuting vehicle rows must not change any outcome.
#[test]
fn row_permutation_invariance_under_binding_cap() {
    let mk = |order: &[u32]| {
        let vehicles = order.iter().map(|&id| vehicle(id, 0, 4)).collect();
        let mut s = base_scenario(4, vehicles, vec![charger(0, false), charger(1, false)]);
        s.building_load_kw = vec![n(50.0); 4];
        s.manifest.site_cap_kw = Some(n(60.0));
        s
    };
    for name in POLICY_NAMES {
        let a = run_named(&mk(&[7, 9]), name);
        let b = run_named(&mk(&[9, 7]), name);
        assert_eq!(
            format!("{:?}", a.sessions),
            format!("{:?}", b.sessions),
            "policy {name}: row order changed outcomes under a binding cap"
        );
    }
}

/// Shuffling vehicle rows does not change any session outcome.
#[test]
fn vehicle_row_permutation_invariance() {
    let mk = |order: &[usize]| {
        let protos = [(0u32, 0usize, 10usize, 20.0), (1, 2, 30, 25.0), (2, 4, 20, 30.0)];
        let vehicles = order
            .iter()
            .map(|&k| {
                let (id, arr, dep, soc) = protos[k];
                let mut v = vehicle(id, arr, dep);
                v.soc_arrival_kwh = n(soc);
                v
            })
            .collect();
        base_scenario(48, vehicles, vec![charger(0, true), charger(1, false)])
    };
    for name in POLICY_NAMES {
        let mut pol = policy::by_name::<Real>(name).expect("registered");
        let a = run(&mk(&[0, 1, 2]), &mut pol);
        let b = run(&mk(&[2, 0, 1]), &mut pol);
        assert_eq!(
            format!("{:?}", a.sessions),
            format!("{:?}", b.sessions),
            "policy {name}: row order changed outcomes"
        );
    }
}

// --------------------------------------------------------------- validation

/// Non-finite inputs are rejected at validation, never repaired into a plausible
/// under-stated bill.
#[test]
fn non_finite_inputs_rejected() {
    let mut s = base_scenario(8, vec![vehicle(0, 0, 8)], vec![charger(0, true)]);
    s.building_load_kw[2] = n(f64::NAN);
    assert!(s.validate().is_err(), "NaN building load must be rejected");

    let mut s = base_scenario(8, vec![vehicle(0, 0, 8)], vec![charger(0, true)]);
    s.price_usd_per_kwh[3] = n(f64::INFINITY);
    assert!(s.validate().is_err(), "infinite price must be rejected");

    let mut s = base_scenario(8, vec![vehicle(0, 0, 8)], vec![charger(0, true)]);
    s.vehicles[0].battery_kwh = n(f64::INFINITY);
    assert!(s.validate().is_err(), "infinite battery must be rejected");
}

/// The seed of the threshold schedulers is a numeric field like the others.
#[test]
fn non_finite_threshold_seeds_rejected() {
    for seed in [f64::NAN, f64::INFINITY, f64::NEG_INFINITY] {
        let mut s = base_scenario(8, vec![vehicle(0, 0, 8)], vec![charger(0, true)]);
        s.manifest.heuristic_threshold_kw = Some(n(seed));
        assert_eq!(
            complaint(&s),
            "invalid scenario: heuristic_threshold_kw is not a finite number",
            "seed {seed}"
        );
        s.manifest.site_cap_kw = Some(n(seed));
        assert_eq!(complaint(&s), "invalid scenario: site_cap_kw is not a finite number", "cap first");
        s.manifest.site_cap_kw = None;
        s.manifest.heuristic_threshold_kw = Some(n(40.0));
        assert!(s.validate().is_ok());
    }
}

/// Out-of-range vehicle fields and duplicate charger ids are rejected.
#[test]
fn range_and_uniqueness_validation() {
    let mut s = base_scenario(8, vec![vehicle(0, 0, 8)], vec![charger(0, true)]);
    s.vehicles[0].min_soc_kwh = n(40.0);
    s.vehicles[0].soc_arrival_kwh = n(5.0); // arrives below its own floor
    assert!(s.validate().is_err(), "arrival below floor must be rejected");

    let mut s = base_scenario(8, vec![vehicle(0, 0, 8)], vec![charger(0, true)]);
    s.vehicles[0].soc_target_kwh = n(-1000.0);
    assert!(s.validate().is_err(), "negative target must be rejected");

    let s = Scenario {
        manifest: manifest(8),
        vehicles: vec![vehicle(0, 0, 8)],
        chargers: vec![charger(3, true), charger(3, false)],
        building_load_kw: vec![n(10.0); 8],
        price_usd_per_kwh: vec![n(0.2); 8],
        tou_class: vec![TouClass::OffPeak; 8],
        dr_events: vec![],
    };
    assert!(s.validate().is_err(), "duplicate charger_id must be rejected");
}

/// DR events outside the horizon are rejected at validation, so no incentive can
/// be paid for an unsimulated window.
#[test]
fn out_of_horizon_dr_event_rejected() {
    let mut s = base_scenario(8, vec![vehicle(0, 0, 8)], vec![charger(0, true)]);
    let mut e = dr_event(1000, 2000, 5.0);
    e.baseline_kw = n(100.0);
    s.dr_events.push(e);
    assert!(s.validate().is_err(), "out-of-horizon DR event must be rejected");

    let mut s = base_scenario(8, vec![vehicle(0, 0, 8)], vec![charger(0, true)]);
    s.dr_events.push(dr_event(4, 8, 5.0)); // end_slot == horizon: slot 8 doesn't exist
    assert!(s.validate().is_err(), "end_slot == horizon must be rejected");

    let mut s = base_scenario(8, vec![vehicle(0, 0, 8)], vec![charger(0, true)]);
    s.dr_events.push(dr_event(4, 7, 5.0));
    assert!(s.validate().is_ok(), "event ending at the final slot is valid");
}

/// Overlapping DR events double-settle the same energy and are rejected;
/// back-to-back events are allowed.
#[test]
fn overlapping_dr_events_rejected_back_to_back_allowed() {
    let mut s = base_scenario(16, vec![vehicle(0, 0, 8)], vec![charger(0, true)]);
    s.dr_events.push(dr_event(0, 8, 40.0));
    s.dr_events.push(dr_event(0, 8, 40.0));
    assert!(s.validate().is_err(), "identical events must be rejected");

    let mut s = base_scenario(16, vec![vehicle(0, 0, 8)], vec![charger(0, true)]);
    s.dr_events.push(dr_event(0, 8, 40.0));
    s.dr_events.push(dr_event(8, 12, 40.0)); // (0,8] and (8,12] are disjoint
    assert!(s.validate().is_ok(), "back-to-back events are valid");
}

/// Overlapping sessions of one vehicle are rejected at validation.
#[test]
fn overlapping_sessions_rejected() {
    let mut sessions = commuter_sessions();
    sessions[1].arrival_slot = sessions[0].departure_slot - 1;
    let scenario = Scenario {
        vehicles: sessions,
        ..base_scenario(288, vec![], vec![charger(0, true)])
    };
    assert!(scenario.validate().is_err(), "overlap must be rejected");
}

fn complaint(s: &Scenario<Real>) -> String {
    s.validate().expect_err("must be invalid").message()
}

/// Each thing that can be wrong is reported in its own words, the first one
/// only.
#[test]
fn every_issue_has_its_words() {
    let good = || {
        let mut s = base_scenario(
            16,
            vec![vehicle(4, 0, 8), vehicle(4, 8, 12)],
            vec![charger(0, true), charger(1, false)],
        );
        s.dr_events.push(dr_event(2, 6, 40.0));
        s
    };
    assert!(good().validate().is_ok());
    let case = |change: fn(&mut Scenario<Real>), words: &str| {
        let mut s = good();
        change(&mut s);
        assert_eq!(complaint(&s), format!("invalid scenario: {words}"));
    };
    case(|s| s.manifest.slot_minutes = n(f64::NAN), "slot_minutes is not a finite number");
    case(|s| s.manifest.charge_efficiency = n(f64::NAN), "charge_efficiency is not a finite number");
    case(
        |s| s.manifest.discharge_efficiency = n(f64::INFINITY),
        "discharge_efficiency is not a finite number",
    );
    case(
        |s| s.manifest.demand_charge_usd_per_kw = n(f64::NAN),
        "demand_charge_usd_per_kw is not a finite number",
    );
    case(
        |s| s.manifest.demand_charge_peak_usd_per_kw = n(f64::NAN),
        "demand_charge_peak_usd_per_kw is not a finite number",
    );
    case(|s| s.manifest.site_cap_kw = Some(n(f64::NAN)), "site_cap_kw is not a finite number");
    case(|s| s.building_load_kw[12] = n(f64::NAN), "building_load at slot 12 is not a finite number");
    case(|s| s.price_usd_per_kwh[3] = n(f64::NAN), "price at slot 3 is not a finite number");
    case(
        |s| s.vehicles[1].max_charge_kw = n(f64::NAN),
        "vehicle 4: max_charge_kw is not a finite number",
    );
    case(|s| s.chargers[1].max_kw = n(f64::NAN), "charger 1: max_kw is not a finite number");
    case(
        |s| s.dr_events[0].baseline_kw = n(f64::NAN),
        "DR event (2, 6]: baseline_kw is not a finite number",
    );
    case(|s| s.chargers[1].charger_id = 0, "duplicate charger_id 0");
    case(|s| s.manifest.slot_minutes = n(0.0), "slot_minutes must be positive");
    case(|s| s.manifest.charge_efficiency = n(0.0), "charge_efficiency must be in (0, 1]");
    case(|s| s.manifest.discharge_efficiency = n(1.5), "discharge_efficiency must be in (0, 1]");
    case(
        |s| s.vehicles[0].departure_slot = 0,
        "vehicle 4: departure_slot must be after arrival_slot",
    );
    case(|s| s.vehicles[1].departure_slot = 17, "vehicle 4: departure_slot beyond horizon");
    case(
        |s| s.vehicles[0].soc_arrival_kwh = n(61.0),
        "vehicle 4: soc_arrival_kwh outside [0, battery_kwh]",
    );
    case(
        |s| s.vehicles[0].min_soc_kwh = n(30.0),
        "vehicle 4: soc_arrival_kwh below min_soc_kwh (arrives under its own floor)",
    );
    case(
        |s| s.vehicles[0].soc_target_kwh = n(-1.0),
        "vehicle 4: soc_target_kwh outside [0, battery_kwh]",
    );
    case(
        |s| s.vehicles[0].min_soc_kwh = n(-1.0),
        "vehicle 4: min_soc_kwh outside [0, battery_kwh]",
    );
    case(
        |s| s.vehicles[0].depletion_kwh = n(-1.0),
        "vehicle 4: depletion_kwh must be non-negative",
    );
    case(
        |s| s.vehicles[0].max_soc_kwh = Some(n(39.0)),
        "vehicle 4: max_soc_kwh must lie in [min_soc, battery] and bound arrival/target",
    );
    case(
        |s| s.vehicles[1].arrival_slot = 7,
        "vehicle 4: sessions overlap (arrival 7 before departure 8)",
    );
    case(|s| s.dr_events[0].end_slot = 2, "DR event with empty (start, end] window");
    case(
        |s| s.dr_events[0].end_slot = 16,
        "DR event (2, 16] extends beyond the horizon (16 slots)",
    );
    case(
        |s| s.dr_events.push(dr_event(5, 9, 40.0)),
        "DR events overlap: (2, 6] and (5, 9]",
    );
    case(
        |s| s.vehicles[1].max_charge_kw = n(19.0),
        "vehicle 4: sessions disagree on battery/floor/power limits",
    );
}

/// Errors from reading are told apart by their words.
#[test]
fn reading_errors_have_their_words() {
    assert_eq!(ScenarioError::Io("gone".to_string()).message(), "io error: gone");
    assert_eq!(ScenarioError::Json("bad".to_string()).message(), "manifest error: bad");
    assert_eq!(ScenarioError::Csv("row 3".to_string()).message(), "csv error: row 3");
}

// ------------------------------------------------------------------- tables

fn row(slot: usize, value: f64) -> SeriesRow<Real> {
    SeriesRow { slot, value: n(value) }
}

fn price(slot: usize, value: f64, tou: Option<TouClass>) -> PriceRow<Real> {
    PriceRow { slot, value: n(value), tou }
}

/// A day with three cars, two ports and one event.
fn one_day() -> Scenario<Real> {
    let mut m = manifest(96);
    m.demand_charge_usd_per_kw = n(11.67);
    let tables = Tables {
        vehicles: vec![vehicle(0, 32, 68), vehicle(1, 36, 72), vehicle(2, 40, 60)],
        chargers: vec![charger(1, false), charger(0, true)],
        building: vec![row(0, 20.0), row(32, 45.0), row(64, 60.0), row(84, 25.0)],
        building_path: "building_load.csv".to_string(),
        prices: vec![
            price(64, 0.32, Some(TouClass::Peak)),
            price(0, 0.10, None),
            price(24, 0.20, None),
            price(84, 0.20, Some(TouClass::OffPeak)),
        ],
        prices_path: "grid_prices.csv".to_string(),
        dr_events: vec![dr_event(68, 76, 45.0)],
    };
    Scenario::assemble(m, tables).expect("example scenario must load")
}

#[test]
fn example_scenario_loads() {
    let s = one_day();
    assert_eq!(s.vehicles.len(), 3, "example ships 3 vehicles");
    assert_eq!(s.chargers.len(), 2, "example ships 2 chargers");
    assert_eq!(s.chargers[0].charger_id, 0, "chargers sorted by id");
    assert_eq!(s.building_load_kw.len(), 96, "series densified to horizon");
    assert_eq!(s.price_usd_per_kwh.len(), 96, "series densified to horizon");
    assert_eq!(s.dr_events.len(), 1, "example ships 1 DR event");
    assert_eq!(s.price_usd_per_kwh[23], n(0.10), "hold previous value");
    assert_eq!(s.price_usd_per_kwh[24], n(0.20), "step at the row's slot");
    assert_eq!(s.tou_class[63], TouClass::OffPeak, "initial class is off-peak");
    assert_eq!(s.tou_class[83], TouClass::Peak, "class held");
}

#[test]
fn example_scenario_runs_under_every_policy() {
    let s = one_day();
    for name in POLICY_NAMES {
        let results = run_named(&s, name);
        assert_eq!(results.slots.len(), 96, "one record per slot");
        assert_eq!(results.sessions.len(), 3, "one result per session");
        assert_eq!(results.policy, name);
        assert!(results.bill.total_usd.0.is_finite(), "policy {name} produced a non-finite bill");
    }
}

#[test]
fn invalid_scenarios_are_rejected() {
    let mut s = one_day();
    s.vehicles[0].soc_arrival_kwh = n(1000.0); // above capacity
    assert!(s.validate().is_err(), "arrival SoC above capacity must be rejected");

    let mut s = one_day();
    s.vehicles[0].departure_slot = s.vehicles[0].arrival_slot; // empty session
    assert!(s.validate().is_err(), "empty session must be rejected");

    let mut s = one_day();
    s.manifest.charge_efficiency = n(1.5);
    assert!(s.validate().is_err(), "efficiency above 1 must be rejected");
}

#[test]
fn series_are_held_and_duplicates_rejected() {
    let dense = dense_series(&vec![row(5, 2.0), row(2, 1.0)], 7).expect("no duplicates");
    let plain: Vec<f64> = dense.iter().map(|x| x.0).collect();
    assert_eq!(plain, vec![0.0, 0.0, 1.0, 1.0, 1.0, 2.0, 2.0]);
    let twice = vec![row(5, 2.0), row(9, 1.0), row(9, 3.0), row(5, 2.0)];
    assert_eq!(dense_series(&twice, 7), Err(5), "smallest ambiguous slot");
    let (prices, classes) = dense_prices(
        &vec![price(1, 0.5, Some(TouClass::Peak)), price(3, 0.7, None)],
        5,
    )
    .expect("no duplicates");
    assert_eq!(prices.iter().map(|x| x.0).collect::<Vec<_>>(), vec![0.0, 0.5, 0.5, 0.7, 0.7]);
    assert_eq!(
        classes,
        vec![TouClass::OffPeak, TouClass::Peak, TouClass::Peak, TouClass::Peak, TouClass::Peak]
    );
    assert_eq!(dense_prices(&vec![price(1, 0.5, None), price(1, 0.5, None)], 2), Err(1));
    assert_eq!(dense_series(&Vec::<SeriesRow<Real>>::new(), 2), Ok(vec![n(0.0), n(0.0)]));
}

#[test]
fn ambiguous_tables_are_named() {
    let tables = Tables {
        vehicles: vec![],
        chargers: vec![charger(0, true)],
        building: vec![row(3, 1.0), row(3, 2.0)],
        building_path: "dir/building_load.csv".to_string(),
        prices: vec![],
        prices_path: "dir/grid_prices.csv".to_string(),
        dr_events: vec![],
    };
    let e = Scenario::assemble(manifest(8), tables).expect_err("ambiguous");
    assert_eq!(
        e.message(),
        "invalid scenario: dir/building_load.csv: duplicate rows for slot 3"
    );
}

// ------------------------------------------------------------------- months

fn one_month(lossy: bool) -> Scenario<Real> {
    let tables = Tables {
        vehicles: month_vehicles(),
        chargers: month_chargers(),
        building: month_loads(),
        building_path: "building_load.csv".to_string(),
        prices: month_prices(),
        prices_path: "grid_prices.csv".to_string(),
        dr_events: month_events(),
    };
    Scenario::assemble(month_manifest(lossy), tables).expect("month scenario loads")
}

/// (start_slot, end_slot, first_covered, last_covered, n_covered), written by
/// hand from the event list.
const HAND_TABLE: &[(usize, usize, usize, usize, usize)] = &[
    (164, 172, 165, 172, 8),
    (356, 364, 357, 364, 8),
    (836, 844, 837, 844, 8),
    (1028, 1036, 1029, 1036, 8),
    (1508, 1516, 1509, 1516, 8),
    (1700, 1708, 1701, 1708, 8),
    (2180, 2188, 2181, 2188, 8),
    (2372, 2380, 2373, 2380, 8),
    (2852, 2860, 2853, 2860, 8),
    (0, 4, 1, 4, 4),
    (844, 848, 845, 848, 4),
    (2556, 2566, 2557, 2566, 10),
    (2876, 2879, 2877, 2879, 3),
];

#[test]
fn month_dr_events_match_hand_written_slot_table() {
    let scenario = one_month(false);
    assert_eq!(
        scenario.dr_events.len(),
        HAND_TABLE.len(),
        "event count drifted from the hand table"
    );
    let mut events: Vec<_> = scenario.dr_events.clone();
    events.sort_by_key(|e| e.start_slot);
    let mut table = HAND_TABLE.to_vec();
    table.sort_by_key(|t| t.0);
    for (e, &(start, end, first, last, count)) in events.iter().zip(&table) {
        assert_eq!((e.start_slot, e.end_slot), (start, end), "event boundaries");
        let covered: Vec<usize> = (0..2880).filter(|&s| e.contains(s)).collect();
        assert_eq!(covered.first(), Some(&first), "first covered slot of ({start},{end}]");
        assert_eq!(covered.last(), Some(&last), "last covered slot of ({start},{end}]");
        assert_eq!(covered.len(), count, "covered count of ({start},{end}]");
    }
}

/// The month runs under every policy: all sessions reported, the fifth car found
/// no port, both honored and violated windows settled.
#[test]
fn the_month_settles_as_designed() {
    for lossy in [false, true] {
        let s = one_month(lossy);
        assert_eq!(s.vehicles.len(), 4 * 30 + 2 * 29 + 5);
        assert_eq!(s.manifest.vehicles_file, "vehicles.csv");
        assert_eq!(s.manifest.chargers_file, "chargers.csv");
        assert_eq!(s.manifest.building_file, "building_load.csv");
        assert_eq!(s.manifest.prices_file, "grid_prices.csv");
        assert_eq!(s.manifest.dr_events_file.as_deref(), Some("dr_events.csv"));
        for name in POLICY_NAMES {
            let r = run_named(&s, name);
            assert_eq!(r.sessions.len(), s.vehicles.len());
            let stuck: Vec<u32> =
                r.sessions.iter().filter(|x| x.never_connected).map(|x| x.vehicle_id).collect();
            assert!(stuck.contains(&5), "{name}: {stuck:?}");
            assert_eq!(r.bill.dr_settlements.len(), 13);
            let night = &r.bill.dr_settlements[9];
            assert_eq!((night.start_slot, night.end_slot), (0, 4));
            assert!(near(night.overflow_kwh, 2.0, 1e-9), "4 slots x 2 kW x 0.25 h");
            assert_eq!(night.incentive_usd, n(0.0));
        }
    }
}

// --------------------------------------------------------- hand computations

/// One vehicle, uncontrolled policy, lossless, 8 slots of 15 min.
///
/// - Energy: building 10 kW * 8 slots * 0.25 h = 20 kWh; EV = 10 kWh.
///   Import 30 kWh * 0.20 = $6.00.
/// - Demand: peak net = 10 + 20 = 30 kW; 30 * 11.67 = $350.10.
/// - Total: $356.10.
#[test]
fn hand_computed_bill_uncontrolled() {
    let mut v = vehicle(0, 0, 8);
    v.soc_arrival_kwh = n(20.0);
    v.soc_target_kwh = n(30.0);
    let mut scenario = base_scenario(8, vec![v], vec![charger(0, false)]);
    scenario.building_load_kw = vec![n(10.0); 8];
    scenario.price_usd_per_kwh = vec![n(0.20); 8];
    scenario.manifest.demand_charge_usd_per_kw = n(11.67);

    let results = run_named(&scenario, "uncontrolled");

    assert!(near(results.slots[0].ev_charge_kw, 20.0, 1e-9));
    assert!(near(results.slots[1].ev_charge_kw, 20.0, 1e-9));
    for rec in &results.slots[2..] {
        assert!(near(rec.ev_charge_kw, 0.0, 1e-9));
    }
    assert!(near(results.bill.energy_imported_kwh, 30.0, 1e-9));
    assert!(near(results.bill.energy_usd, 6.00, 1e-9));
    assert!(near(results.bill.peak_net_kw, 30.0, 1e-9));
    assert!(near(results.bill.demand_usd, 350.10, 1e-9));
    assert!(near(results.bill.total_usd, 356.10, 1e-9));
    assert!(near(results.sessions[0].soc_departure_kwh, 30.0, 1e-9));
    assert!(results.sessions[0].target_met, "vehicle must reach 30 kWh");
}

/// Same scenario with charge efficiency 0.8: the battery needs 10 kWh, so the
/// grid must supply 12.5 kWh.
#[test]
fn hand_computed_efficiency_losses() {
    let mut v = vehicle(0, 0, 8);
    v.soc_arrival_kwh = n(20.0);
    v.soc_target_kwh = n(30.0);
    let mut scenario = base_scenario(8, vec![v], vec![charger(0, false)]);
    scenario.manifest.charge_efficiency = n(0.8);
    scenario.building_load_kw = vec![n(10.0); 8];

    let results = run_named(&scenario, "uncontrolled");
    let s = &results.sessions[0];
    assert!(s.target_met, "target reachable well within 8 slots");
    assert!(near(s.soc_departure_kwh, 30.0, 1e-6));
    assert!(near(s.energy_drawn_kwh, 12.5, 1e-6));
}

/// TOU demand charge: the time-related component bills the peak-class maximum,
/// the facilities component the overall maximum.
#[test]
fn tou_demand_charge_hand_computed() {
    let mut v = vehicle(0, 0, 8);
    v.soc_arrival_kwh = n(20.0);
    v.soc_target_kwh = n(40.0); // 20 kWh at 20 kW: slots 0-3 charge
    let mut scenario = base_scenario(16, vec![v], vec![charger(0, false)]);
    scenario.building_load_kw = vec![n(10.0); 16];
    for s in 8..16 {
        scenario.tou_class[s] = TouClass::Peak;
    }
    scenario.manifest.demand_charge_usd_per_kw = n(2.0);
    scenario.manifest.demand_charge_peak_usd_per_kw = n(11.67);
    let results = run_named(&scenario, "uncontrolled");
    assert!(near(results.bill.peak_net_kw, 30.0, 1e-9));
    assert!(near(results.bill.peak_net_peak_tou_kw, 10.0, 1e-9));
    assert!(near(results.bill.demand_facilities_usd, 60.0, 1e-9));
    assert!(near(results.bill.demand_peak_tou_usd, 116.70, 1e-9));
    assert!(near(results.bill.demand_usd, 176.70, 1e-9));
}

#[test]
fn units_convert_both_ways() {
    assert_eq!(kwh_to_kw(n(5.0), n(15.0)), n(20.0));
    assert_eq!(kw_to_kwh(n(20.0), n(15.0)), n(5.0));
    assert_eq!(kw_to_kwh(kwh_to_kw(n(7.5), n(30.0)), n(30.0)), n(7.5));
}

#[test]
fn sessions_know_their_need_and_laxity() {
    let view = SessionView {
        index: 0,
        vehicle: vehicle(0, 0, 8),
        soc_kwh: n(30.0),
        max_charge_kw: n(20.0),
        max_discharge_kw: n(0.0),
    };
    assert_eq!(view.remaining_need_kwh(), n(10.0));
    assert_eq!(view.slots_to_departure(3), 5);
    assert_eq!(view.slots_to_departure(9), 0);
    // 10 kWh at 5 kWh per slot: two slots needed, five left.
    assert_eq!(view.laxity_slots(3, n(15.0), n(1.0)), n(3.0));
    let full = SessionView { soc_kwh: n(50.0), ..view };
    assert_eq!(full.laxity_slots(3, n(15.0), n(1.0)), n(5.0));
    let dead = SessionView { max_charge_kw: n(0.0), ..view };
    assert_eq!(dead.laxity_slots(3, n(15.0), n(1.0)), n(f64::NEG_INFINITY));
}

// --------------------------------------------------------------- invariants

/// A scenario that exercises charging, discharging, DR, and charger contention.
fn rich_scenario() -> Scenario<Real> {
    let mut v1 = vehicle(0, 0, 40);
    v1.soc_arrival_kwh = n(50.0); // surplus vehicle: can bank/discharge
    v1.soc_target_kwh = n(30.0);
    let mut v2 = vehicle(1, 4, 30);
    v2.soc_arrival_kwh = n(5.0); // deficit vehicle
    v2.soc_target_kwh = n(45.0);
    let v3 = vehicle(2, 8, 20); // contends for chargers
    let mut s = base_scenario(48, vec![v1, v2, v3], vec![charger(0, true), charger(1, false)]);
    s.dr_events.push(dr_event(12, 20, 40.0));
    s
}

/// The SoC change equals charge_efficiency * energy_drawn - energy_exported /
/// discharge_efficiency.
#[test]
fn energy_conservation_per_session() {
    for name in POLICY_NAMES {
        let mut scenario = rich_scenario();
        scenario.manifest.charge_efficiency = n(0.9);
        scenario.manifest.discharge_efficiency = n(0.95);
        let results = run_named(&scenario, name);
        for s in &results.sessions {
            let expected =
                s.soc_arrival_kwh.0 + 0.9 * s.energy_drawn_kwh.0 - s.energy_exported_kwh.0 / 0.95;
            assert!(near(s.soc_departure_kwh, expected, 1e-9));
        }
    }
}

/// SoC never leaves [min_soc, battery capacity].
#[test]
fn soc_bounds_respected() {
    for name in POLICY_NAMES {
        let mut scenario = rich_scenario();
        for v in &mut scenario.vehicles {
            v.min_soc_kwh = n(10.0);
            v.soc_arrival_kwh = n(v.soc_arrival_kwh.0.max(10.0));
        }
        let results = run_named(&scenario, name);
        for s in &results.sessions {
            let v = scenario
                .vehicles
                .iter()
                .find(|v| v.vehicle_id == s.vehicle_id && v.arrival_slot == s.arrival_slot)
                .expect("session belongs to a vehicle");
            assert!(
                s.soc_departure_kwh.0 <= v.battery_kwh.0 + 1e-9,
                "policy {}: vehicle {} overfilled",
                results.policy,
                s.vehicle_id
            );
            assert!(
                s.soc_departure_kwh.0 >= v.min_soc_kwh.0 - 1e-9,
                "policy {}: vehicle {} below SoC floor",
                results.policy,
                s.vehicle_id
            );
        }
    }
}

/// Net site load never goes negative, even with huge discharge capability and
/// near-zero building load.
#[test]
fn no_export_to_grid() {
    for name in POLICY_NAMES {
        let mut v = vehicle(0, 0, 40);
        v.soc_arrival_kwh = n(60.0);
        v.soc_target_kwh = n(0.0);
        v.max_discharge_kw = n(500.0);
        let mut scenario = base_scenario(48, vec![v], vec![charger(0, true)]);
        scenario.building_load_kw = vec![n(1.0); 48];
        scenario.dr_events.push(dr_event(0, 47, 0.0)); // invite maximal discharge
        let results = run_named(&scenario, name);
        for rec in &results.slots {
            assert!(
                rec.net_kw.0 >= -1e-9,
                "policy {}: slot {} exported {} kW",
                results.policy,
                rec.slot,
                -rec.net_kw.0
            );
        }
    }
}

/// Aggregate charging never exceeds the fleet's physical limit.
#[test]
fn power_caps_respected() {
    for name in POLICY_NAMES {
        let scenario = rich_scenario();
        let results = run_named(&scenario, name);
        for rec in &results.slots {
            assert!(rec.ev_charge_kw.0 <= 40.0 + 1e-9, "policy {}: charge over cap", results.policy);
            assert!(
                rec.ev_discharge_kw.0 <= 40.0 + 1e-9,
                "policy {}: discharge over cap",
                results.policy
            );
        }
    }
}

/// Two runs of the same scenario and policy print identically. Policies are
/// stateful per episode, so each run gets a fresh instance.
#[test]
fn determinism_byte_identical() {
    for name in POLICY_NAMES {
        let scenario = rich_scenario();
        let a = format!("{:?}", run_named(&scenario, name));
        let b = format!("{:?}", run_named(&scenario, name));
        assert_eq!(a, b, "policy {name} is nondeterministic");
    }
}

/// total = energy + demand + penalty - incentive, and the DR overflow is the
/// (start, end] windowed positive part times slot hours.
#[test]
fn bill_identity_and_overflow_definition() {
    for name in POLICY_NAMES {
        let mut scenario = rich_scenario();
        scenario.manifest.demand_charge_usd_per_kw = n(11.67);
        let results = run_named(&scenario, name);
        let b = &results.bill;
        assert!(near(
            b.total_usd,
            b.energy_usd.0 + b.demand_usd.0 + b.dr_penalty_usd.0 - b.dr_incentive_usd.0,
            1e-9
        ));
        let event = &scenario.dr_events[0];
        let expected_overflow: f64 = results
            .slots
            .iter()
            .filter(|r| r.slot > event.start_slot && r.slot <= event.end_slot)
            .map(|r| (r.net_kw.0 - event.fsl_kw.0).max(0.0) * 0.25)
            .sum();
        assert!(near(b.dr_settlements[0].overflow_kwh, expected_overflow, 1e-9));
    }
}

/// At peak TOU policy-1 discharges above-target cars at the charger's full rate,
/// reducing net load below the building baseline.
#[test]
fn policy1_discharges_above_target_cars_at_peak() {
    let mut v = vehicle(0, 0, 48);
    v.soc_arrival_kwh = n(55.0);
    v.soc_target_kwh = n(20.0);
    let mut s = base_scenario(48, vec![v], vec![charger(0, true)]);
    s.building_load_kw = vec![n(50.0); 48];
    for slot in 10..20 {
        s.tou_class[slot] = TouClass::Peak;
    }
    let r = run_named(&s, "policy-1");
    let peak_discharge: f64 = r.slots[10..20].iter().map(|x| x.ev_discharge_kw.0).sum();
    assert!(peak_discharge > 0.0, "policy-1 must discharge at peak (got {peak_discharge})");
    for rec in &r.slots[10..20] {
        assert!(rec.net_kw.0 <= 50.0 + 1e-9, "discharge must reduce net below building");
    }
}

/// Within the final hour, an above-target car is discharged at exactly the
/// metered rate that lands it on the target at departure.
#[test]
fn force_charge_meters_discharge_onto_the_target() {
    let mut v = vehicle(0, 0, 24);
    v.soc_arrival_kwh = n(45.0);
    v.soc_target_kwh = n(40.0);
    let mut scenario = base_scenario(48, vec![v], vec![charger(0, true)]);
    scenario.manifest.heuristic_threshold_kw = Some(n(100.0));
    for name in ["edf", "llf"] {
        let results = run_named(&scenario, name);
        let s = &results.sessions[0];
        assert!(s.target_met, "policy {name}: target missed");
        assert!(near(s.soc_departure_kwh, 40.0, 1e-9));
        assert!(
            s.energy_exported_kwh.0 > 0.0,
            "policy {name}: the 5 kWh surplus must be discharged in the final hour"
        );
    }
}

/// With ample time, budget headroom, and no contention, the target-seeking
/// policies reach the target.
#[test]
fn feasible_targets_are_met() {
    for name in ["uncontrolled", "policy-0", "edf", "llf"] {
        let mut scenario = base_scenario(48, vec![vehicle(0, 0, 40)], vec![charger(0, true)]);
        scenario.manifest.heuristic_threshold_kw = Some(n(100.0));
        let results = run_named(&scenario, name);
        assert!(
            results.sessions[0].target_met,
            "policy {name} missed a trivially feasible target"
        );
    }
}

/// A car that finds no vacant port at arrival is dropped permanently (never
/// retried), even if a port frees later; lower vehicle ids win same-slot
/// contention.
#[test]
fn charger_assignment_reference_semantics() {
    let v1 = vehicle(0, 0, 10);
    let v2 = vehicle(1, 2, 30); // arrives while the port is held: dropped forever
    let v3 = vehicle(2, 2, 8); // likewise
    let scenario = base_scenario(48, vec![v1, v2, v3], vec![charger(0, false)]);
    let results = run_named(&scenario, "edf");
    let by_id = |id: u32| {
        results
            .sessions
            .iter()
            .find(|s| s.vehicle_id == id)
            .expect("every vehicle produces a session result")
    };
    assert!(!by_id(0).never_connected, "first vehicle must connect");
    assert!(by_id(1).never_connected, "no retry after the port frees at slot 10");
    assert!(by_id(2).never_connected, "dropped at arrival");
    assert!(near(by_id(2).soc_departure_kwh, by_id(2).soc_arrival_kwh.0, 1e-12));
    assert_eq!(results.sessions.len(), 3, "dropped sessions reported exactly once");
}

/// The DR window convention is half-open on the left: (start, end].
#[test]
fn dr_window_is_left_open_right_closed() {
    let e = dr_event(4, 8, 10.0);
    assert!(!e.contains(4), "start slot must be excluded");
    assert!(e.contains(5), "first slot after start must be included");
    assert!(e.contains(8), "end slot must be included");
    assert!(!e.contains(9), "slot after end must be excluded");
}

// ------------------------------------------------------------ binding guards

/// Tiny building load, huge discharge capability, and a policy that asks for
/// everything: discharge is clamped to exactly the building load.
#[test]
fn no_export_guard_binds_under_max_discharge() {
    let mut v = vehicle(0, 0, 8);
    v.soc_arrival_kwh = n(60.0);
    v.soc_target_kwh = n(0.0);
    v.max_discharge_kw = n(500.0);
    let mut ch = charger(0, true);
    ch.max_kw = n(500.0);
    let mut s = base_scenario(8, vec![v], vec![ch]);
    s.building_load_kw = vec![n(0.5); 8];
    let r = run(&s, &mut MaxDischarge);
    for rec in &r.slots {
        assert!(rec.net_kw.0 >= -1e-9, "exported {} kW at slot {}", -rec.net_kw.0, rec.slot);
        assert!(
            rec.ev_discharge_kw.0 <= 0.5 + 1e-9,
            "discharge {} exceeds the 0.5 kW building load",
            rec.ev_discharge_kw.0
        );
    }
    assert!(near(r.slots[0].net_kw, 0.0, 1e-9));
}

/// A run takes scenarios that were not validated: an event with zero simulated
/// slots pays zero incentive.
#[test]
fn unvalidated_out_of_horizon_event_pays_no_incentive() {
    let mut e = dr_event(100, 200, 5.0);
    e.baseline_kw = n(100.0);
    let scenario = Scenario {
        manifest: manifest(8),
        vehicles: vec![vehicle(0, 0, 8)],
        chargers: vec![charger(0, true)],
        building_load_kw: vec![n(50.0); 8],
        price_usd_per_kwh: vec![n(0.20); 8],
        tou_class: vec![TouClass::OffPeak; 8],
        dr_events: vec![e],
    };
    let r = run_named(&scenario, "edf");
    assert!(near(r.bill.dr_incentive_usd, 0.0, 1e-12));
    assert!(r.bill.total_usd.0 > 0.0, "no free negative bill");
}

/// The 1e-9 target tolerance absorbs rounding dust.
#[test]
fn target_met_tolerance_absorbs_floating_point_dust() {
    let mut v = vehicle(0, 0, 8);
    v.soc_arrival_kwh = n(20.0);
    v.soc_target_kwh = n(40.0);
    v.max_charge_kw = n(100.0);
    let mut ch = charger(0, false);
    ch.max_kw = n(100.0);
    let s = base_scenario(8, vec![v], vec![ch]);
    let r = run(&s, &mut AlmostExact);
    assert!(
        r.sessions[0].soc_departure_kwh.0 < 40.0,
        "geometry check: SoC must land strictly below the target"
    );
    assert!(
        40.0 - r.sessions[0].soc_departure_kwh.0 < 1e-9,
        "geometry check: within the tolerance band"
    );
    assert!(r.sessions[0].target_met, "dust-sized shortfall counts as met");
}

/// The incentive pays on the committed reduction (baseline - fsl), gated on
/// honoring the window, never on the full baseline.
#[test]
fn incentive_pays_reduction_only_and_only_when_honored() {
    let mut s = base_scenario(16, vec![vehicle(0, 0, 8)], vec![charger(0, false)]);
    s.building_load_kw = vec![n(30.0); 16];
    let mut honored = dr_event(8, 12, 40.0); // after the EV departs
    honored.baseline_kw = n(50.0);
    s.dr_events.push(honored);
    let r = run_named(&s, "edf");
    assert!(near(r.bill.dr_penalty_usd, 0.0, 1e-9));
    // 13.6 $/kW * (50 - 40) kW = $136.00; paying on the baseline would be $680.
    assert!(near(r.bill.dr_incentive_usd, 136.0, 1e-9));

    let mut s = base_scenario(16, vec![vehicle(0, 0, 8)], vec![charger(0, false)]);
    s.building_load_kw = vec![n(45.0); 16];
    let mut violated = dr_event(8, 12, 40.0);
    violated.baseline_kw = n(50.0);
    s.dr_events.push(violated);
    let r = run_named(&s, "edf");
    assert!(r.bill.dr_penalty_usd.0 > 0.0, "violated window must be penalized");
    assert!(near(r.bill.dr_incentive_usd, 0.0, 1e-12));
}

/// A unidirectional port never discharges, even under a policy that demands it
/// and a vehicle that could.
#[test]
fn unidirectional_port_never_discharges() {
    let mut v = vehicle(0, 0, 8);
    v.soc_arrival_kwh = n(60.0);
    v.soc_target_kwh = n(0.0);
    v.max_discharge_kw = n(500.0);
    let s = base_scenario(8, vec![v], vec![charger(0, false)]);
    let r = run(&s, &mut MaxDischarge);
    assert!(near(r.sessions[0].energy_exported_kwh, 0.0, 1e-12));
    for rec in &r.slots {
        assert!(near(rec.ev_discharge_kw, 0.0, 1e-12));
    }
}

/// Every car prefers a bidirectional port (not just V2B-capable ones), ties
/// broken by lowest charger id.
#[test]
fn assignment_prefers_bidirectional_for_every_car() {
    let mut v = vehicle(0, 0, 8);
    v.max_discharge_kw = n(0.0); // not V2B-capable; still takes the bidi port
    let s = base_scenario(8, vec![v], vec![charger(0, false), charger(1, true)]);
    let r = run_named(&s, "policy-0");
    assert_eq!(r.trace[0].charger_id, 1, "bidirectional port must be chosen first");
}

/// policy-1's discharge stops at the SoC floor.
#[test]
fn policy1_discharge_respects_floor() {
    let mut v = vehicle(0, 0, 48);
    v.soc_arrival_kwh = n(35.0);
    v.soc_target_kwh = n(10.0);
    v.min_soc_kwh = n(30.0);
    let mut s = base_scenario(48, vec![v], vec![charger(0, true)]);
    s.building_load_kw = vec![n(80.0); 48];
    for slot in 0..48 {
        s.tou_class[slot] = TouClass::Peak;
    }
    let r = run_named(&s, "policy-1");
    for t in &r.trace {
        assert!(t.soc_kwh.0 >= 30.0 - 1e-9, "below floor at slot {}", t.slot);
    }
    assert!(near(r.sessions[0].soc_departure_kwh, 30.0, 1e-9));
}

/// The firm service level never enters the EDF/LLF budget, so with threshold
/// headroom they charge straight through a DR window and pay the penalty.
#[test]
fn edf_llf_are_dr_blind() {
    for name in ["edf", "llf"] {
        let mut v = vehicle(0, 0, 24);
        v.soc_arrival_kwh = n(5.0);
        v.soc_target_kwh = n(55.0);
        let mut s = base_scenario(24, vec![v], vec![charger(0, true)]);
        s.building_load_kw = vec![n(30.0); 24];
        s.manifest.heuristic_threshold_kw = Some(n(100.0));
        s.dr_events.push(dr_event(0, 12, 35.0)); // 5 kW below building+EV
        let r = run_named(&s, name);
        assert!(r.bill.dr_penalty_usd.0 > 0.0, "{name} must ignore the firm level");
        assert!(r.sessions[0].target_met, "{name}: still meets the target");
    }
}

/// EDF sorts by deadline pressure (need x charger rate / time), LLF by raw
/// time-left: with a binding budget they allocate differently in slot 0.
#[test]
fn edf_pressure_vs_llf_time_ordering() {
    let build = || {
        let mut a = vehicle(0, 0, 40);
        a.soc_arrival_kwh = n(10.0);
        a.soc_target_kwh = n(40.0); // 30 kWh over 10 h: 3 kW metered
        let mut b = vehicle(1, 0, 12);
        b.soc_arrival_kwh = n(38.0);
        b.soc_target_kwh = n(40.0); // 2 kWh over 3 h: 0.667 kW metered
        let mut s = base_scenario(48, vec![a, b], vec![charger(0, true), charger(1, true)]);
        s.building_load_kw = vec![n(97.0); 48];
        s.manifest.heuristic_threshold_kw = Some(n(100.0)); // 3 kW budget
        s
    };
    let power_at = |r: &Results<Real>, id: u32| {
        r.trace
            .iter()
            .find(|t| t.slot == 0 && t.vehicle_id == id)
            .map(|t| t.power_kw.0)
            .unwrap_or(0.0)
    };
    let edf = run_named(&build(), "edf");
    let llf = run_named(&build(), "llf");
    // EDF: A's pressure dominates; A takes the whole 3 kW budget, B starved.
    assert!((power_at(&edf, 0) - 3.0).abs() <= 1e-9);
    assert!(power_at(&edf, 1).abs() <= 1e-9);
    // LLF: B (shorter time_left) first at its metered 0.667 kW; A gets the
    // remainder.
    assert!(power_at(&llf, 1) > 0.5, "LLF must serve B first");
    assert!(power_at(&llf, 0) < 3.0, "LLF must leave A short in slot 0");
}

/// With the budget dead (threshold fallback 0.8*max building sits below the
/// load), nothing charges until the final hour, then the metered force-charge
/// lands the car exactly on a small target.
#[test]
fn force_charge_serves_within_final_hour_despite_dead_budget() {
    for name in ["edf", "llf"] {
        let mut v = vehicle(0, 0, 8);
        v.soc_arrival_kwh = n(35.0);
        v.soc_target_kwh = n(40.0); // 5 kWh: coverable by the 3-slot force window
        let mut s = base_scenario(8, vec![v], vec![charger(0, true)]);
        s.building_load_kw = vec![n(50.0); 8]; // fallback threshold = 40 < 50
        let r = run_named(&s, name);
        let early: f64 = r.slots[..5].iter().map(|x| x.ev_charge_kw.0).sum();
        assert!(early.abs() <= 1e-9);
        assert!(r.sessions[0].target_met, "{name}: force-charge must land the target");
        assert!(near(r.sessions[0].soc_departure_kwh, 40.0, 1e-9));
    }
}

/// Adversarial policies can never corrupt the physics.
#[test]
fn adversarial_setpoints_cannot_corrupt_physics() {
    let mut v = vehicle(0, 0, 40);
    v.soc_arrival_kwh = n(30.0);
    let mut s = base_scenario(48, vec![v], vec![charger(0, true)]);
    s.building_load_kw = vec![n(50.0); 48];
    let r = run(&s, &mut Adversarial);
    for rec in &r.slots {
        assert!(rec.ev_charge_kw.0 >= 0.0, "negative charge column at slot {}", rec.slot);
        assert!(rec.ev_discharge_kw.0 >= 0.0, "negative discharge column at slot {}", rec.slot);
        assert!(rec.ev_charge_kw.0 <= 20.0 + 1e-9, "charge above port cap");
        assert!(rec.ev_discharge_kw.0 <= 20.0 + 1e-9, "discharge above port cap");
        assert!(rec.net_kw.0 >= -1e-9, "export at slot {}", rec.slot);
    }
    let sess = &r.sessions[0];
    assert!(near(
        sess.soc_departure_kwh,
        sess.soc_arrival_kwh.0 + sess.energy_drawn_kwh.0 - sess.energy_exported_kwh.0,
        1e-9
    ));
    assert!(sess.soc_departure_kwh.0 >= -1e-9 && sess.soc_departure_kwh.0 <= 60.0 + 1e-9);
    // The last finite setpoint is the discharge: it is the one that counts.
    assert_eq!(sess.energy_drawn_kwh, n(0.0));
    assert!(sess.energy_exported_kwh.0 > 0.0);
}

/// The site cap is engine-enforced for every policy, including uncontrolled and
/// adversarial ones.
#[test]
fn site_cap_is_engine_enforced() {
    let cap = 55.0;
    for name in POLICY_NAMES {
        let mut s = base_scenario(
            8,
            vec![vehicle(0, 0, 8), vehicle(1, 0, 8)],
            vec![charger(0, false), charger(1, false)],
        );
        s.building_load_kw = vec![n(50.0); 8];
        s.manifest.site_cap_kw = Some(n(cap));
        let r = run_named(&s, name);
        for rec in &r.slots {
            assert!(
                rec.net_kw.0 <= rec.building_kw.0.max(cap) + 1e-9,
                "policy {name}: net {} exceeds cap at slot {}",
                rec.net_kw.0,
                rec.slot
            );
        }
    }
    let mut s = base_scenario(8, vec![vehicle(0, 0, 8)], vec![charger(0, true)]);
    s.building_load_kw = vec![n(50.0); 8];
    s.manifest.site_cap_kw = Some(n(cap));
    let r = run(&s, &mut Adversarial);
    for rec in &r.slots {
        assert!(rec.net_kw.0 <= rec.building_kw.0.max(cap) + 1e-9, "adversarial exceeds cap");
    }
}

/// sum(net * dt) = building energy + total drawn - total exported.
#[test]
fn site_energy_balance() {
    for name in POLICY_NAMES {
        let mut v1 = vehicle(0, 0, 40);
        v1.soc_arrival_kwh = n(50.0);
        v1.soc_target_kwh = n(30.0);
        let mut v2 = vehicle(1, 4, 30);
        v2.soc_arrival_kwh = n(5.0);
        v2.soc_target_kwh = n(45.0);
        let mut s = base_scenario(48, vec![v1, v2], vec![charger(0, true), charger(1, false)]);
        s.dr_events.push(dr_event(12, 20, 40.0));
        let r = run_named(&s, name);
        let net_kwh: f64 = r.slots.iter().map(|rec| rec.net_kw.0 * 0.25).sum();
        let building_kwh: f64 = r.slots.iter().map(|rec| rec.building_kw.0 * 0.25).sum();
        let drawn: f64 = r.sessions.iter().map(|x| x.energy_drawn_kwh.0).sum();
        let exported: f64 = r.sessions.iter().map(|x| x.energy_exported_kwh.0).sum();
        assert!((net_kwh - (building_kwh + drawn - exported)).abs() <= 1e-9);
        let totals = summarize(&r);
        assert_eq!(totals.sessions_total, 2);
        assert!(near(totals.energy_drawn_kwh, drawn, 1e-9));
        assert!(near(totals.energy_exported_kwh, exported, 1e-9));
    }
}

/// Itemized bill identity with both demand components, and the peak-TOU peak
/// never exceeds the all-slots peak.
#[test]
fn itemized_bill_identity_and_peak_ordering() {
    let mut s = base_scenario(16, vec![vehicle(0, 0, 8)], vec![charger(0, true)]);
    for slot in 4..10 {
        s.tou_class[slot] = TouClass::Peak;
    }
    s.manifest.demand_charge_usd_per_kw = n(3.0);
    s.manifest.demand_charge_peak_usd_per_kw = n(10.0);
    s.dr_events.push(dr_event(2, 6, 40.0));
    let r = run_named(&s, "edf");
    let b = &r.bill;
    assert!(near(b.demand_usd, b.demand_facilities_usd.0 + b.demand_peak_tou_usd.0, 1e-9));
    assert!(near(
        b.total_usd,
        b.energy_usd.0 + b.demand_usd.0 + b.dr_penalty_usd.0 - b.dr_incentive_usd.0,
        1e-9
    ));
    assert!(
        b.peak_net_peak_tou_kw.0 <= b.peak_net_kw.0 + 1e-9,
        "peak-TOU peak > overall peak"
    );
}

/// No charger serves two sessions in the same slot, and the trace reconciles
/// with the slot aggregates.
#[test]
fn trace_shows_charger_exclusivity() {
    let mut s = base_scenario(
        48,
        vec![vehicle(0, 0, 40), vehicle(1, 2, 30), vehicle(2, 4, 20)],
        vec![charger(0, true), charger(1, false)],
    );
    s.dr_events.push(dr_event(12, 20, 40.0));
    let r = run_named(&s, "llf");
    let mut seen = HashSet::new();
    for t in &r.trace {
        assert!(
            seen.insert((t.slot, t.charger_id)),
            "charger {} double-booked at slot {}",
            t.charger_id,
            t.slot
        );
    }
    for rec in &r.slots {
        let charge: f64 = r
            .trace
            .iter()
            .filter(|t| t.slot == rec.slot && t.power_kw.0 > 0.0)
            .map(|t| t.power_kw.0)
            .sum();
        let discharge: f64 = r
            .trace
            .iter()
            .filter(|t| t.slot == rec.slot && t.power_kw.0 < 0.0)
            .map(|t| -t.power_kw.0)
            .sum();
        assert!(near(rec.ev_charge_kw, charge, 1e-9));
        assert!(near(rec.ev_discharge_kw, discharge, 1e-9));
    }
}

// -------------------------------------------------------------- persistence

/// Three sessions of one vehicle across a 3-day horizon (96 slots/day).
fn commuter_sessions() -> Vec<Vehicle<Real>> {
    let mk = |arr: usize, dep: usize, depletion: f64| {
        let mut v = vehicle(7, arr, dep);
        v.battery_kwh = n(60.0);
        v.soc_arrival_kwh = n(20.0); // only meaningful for the first session
        v.soc_target_kwh = n(40.0);
        v.max_charge_kw = n(20.0);
        v.depletion_kwh = n(depletion);
        v
    };
    vec![
        mk(36, 68, 0.0),              // day 1
        mk(36 + 96, 68 + 96, 12.0),   // day 2: drove 12 kWh in between
        mk(36 + 192, 68 + 192, 12.0), // day 3
    ]
}

/// Arrival SoC of session k+1 = clamp(departure SoC of k - depletion).
#[test]
fn chain_identity_under_uncontrolled() {
    let scenario = base_scenario(288, commuter_sessions(), vec![charger(0, true)]);
    let results = run_named(&scenario, "uncontrolled");
    assert_eq!(results.sessions.len(), 3, "three chained sessions");
    assert!(near(results.sessions[0].soc_arrival_kwh, 20.0, 1e-9));
    assert!(near(results.sessions[0].soc_departure_kwh, 40.0, 1e-9));
    assert!(near(results.sessions[1].soc_arrival_kwh, 28.0, 1e-9)); // 40 - 12
    assert!(near(results.sessions[1].soc_departure_kwh, 40.0, 1e-9));
    assert!(near(results.sessions[2].soc_arrival_kwh, 28.0, 1e-9));
}

/// Banked surplus survives to the next session and reduces grid energy needed
/// there by exactly the surviving surplus (lossless case).
#[test]
fn banked_energy_reduces_next_session_draw() {
    let scenario = base_scenario(288, commuter_sessions(), vec![charger(0, true)]);
    let greedy = run(&scenario, &mut Greedy);
    assert!(near(greedy.sessions[0].soc_departure_kwh, 60.0, 1e-9));
    assert!(near(greedy.sessions[0].banked_kwh, 20.0, 1e-9));
    assert!(near(greedy.sessions[1].soc_arrival_kwh, 48.0, 1e-9));
    assert!(near(greedy.sessions[1].energy_drawn_kwh, 60.0 - 48.0, 1e-9));
}

/// Persistence off makes every session use its tabled arrival SoC.
#[test]
fn persistence_off_restores_independent_sessions() {
    let mut scenario = base_scenario(288, commuter_sessions(), vec![charger(0, true)]);
    scenario.manifest.persistence = false;
    let results = run_named(&scenario, "uncontrolled");
    for s in &results.sessions {
        assert!(near(s.soc_arrival_kwh, 20.0, 1e-9));
    }
}

/// Depletion larger than the previous departure SoC clamps at the floor.
#[test]
fn depletion_clamps_at_floor() {
    let mut sessions = commuter_sessions();
    sessions[1].depletion_kwh = n(500.0);
    for s in &mut sessions {
        s.min_soc_kwh = n(5.0);
    }
    let scenario = base_scenario(288, sessions, vec![charger(0, true)]);
    let results = run_named(&scenario, "uncontrolled");
    assert!(near(results.sessions[1].soc_arrival_kwh, 5.0, 1e-9));
    // The manufactured energy is reported, never silent: 5 - (40 - 500) = 465.
    assert!(near(results.sessions[1].chain_clamped_kwh, 465.0, 1e-9));
    assert!(near(results.sessions[0].chain_clamped_kwh, 0.0, 1e-9));
}

/// A same-slot handoff chains correctly because departures are processed before
/// arrivals.
#[test]
fn same_slot_handoff_chains() {
    let mut sessions = commuter_sessions();
    sessions[1].arrival_slot = sessions[0].departure_slot;
    sessions[1].departure_slot = sessions[0].departure_slot + 32;
    let scenario = base_scenario(288, sessions, vec![charger(0, true)]);
    let results = run_named(&scenario, "uncontrolled");
    assert!(near(results.sessions[1].soc_arrival_kwh, 28.0, 1e-9));
}

/// An unserved chained session still propagates its (unchanged) SoC forward.
#[test]
fn unserved_session_propagates_chain() {
    let mut sessions = commuter_sessions();
    let mut blocker = vehicle(99, 96, 192);
    blocker.soc_target_kwh = n(60.0);
    sessions.push(blocker);
    let scenario = base_scenario(288, sessions, vec![charger(0, true)]);
    let results = run_named(&scenario, "uncontrolled");
    let day2 = results
        .sessions
        .iter()
        .find(|s| s.vehicle_id == 7 && s.arrival_slot == 132)
        .expect("day-2 session exists");
    assert!(day2.never_connected, "day-2 session must be unserved");
    assert!(near(day2.soc_arrival_kwh, 28.0, 1e-9));
    let day3 = results
        .sessions
        .iter()
        .find(|s| s.vehicle_id == 7 && s.arrival_slot == 228)
        .expect("day-3 session exists");
    // Chain continues from the unserved session's SoC: 28 - 12 = 16.
    assert!(near(day3.soc_arrival_kwh, 16.0, 1e-9));
}

// ------------------------------------------------------------ random sweep

/// Deterministic xorshift64* generator with a fixed seed.
struct Rng(u64);

impl Rng {
    fn next_u64(&mut self) -> u64 {
        let mut x = self.0;
        x ^= x >> 12;
        x ^= x << 25;
        x ^= x >> 27;
        self.0 = x;
        x.wrapping_mul(0x2545_F491_4F6C_DD1D)
    }
    /// Uniform float in [0, 1).
    fn unit(&mut self) -> f64 {
        (self.next_u64() >> 11) as f64 / (1u64 << 53) as f64
    }
    fn range(&mut self, lo: f64, hi: f64) -> f64 {
        lo + (hi - lo) * self.unit()
    }
    fn usize(&mut self, lo: usize, hi: usize) -> usize {
        lo + (self.next_u64() as usize) % (hi - lo + 1)
    }
    fn chance(&mut self, p: f64) -> bool {
        self.unit() < p
    }
}

fn random_scenario(rng: &mut Rng) -> Scenario<Real> {
    let horizon = rng.usize(24, 192);
    let n_chargers = rng.usize(1, 4);
    let chargers = (0..n_chargers)
        .map(|c| {
            let mut ch = charger(c as u32, rng.chance(0.5));
            ch.max_kw = n(rng.range(5.0, 25.0));
            ch
        })
        .collect();

    let n_vehicle_ids = rng.usize(1, 5);
    let mut vehicles = Vec::new();
    for id in 0..n_vehicle_ids {
        let battery = rng.range(20.0, 100.0);
        let floor = rng.range(0.0, battery * 0.3);
        let max_charge_kw = rng.range(3.0, 22.0);
        let max_discharge_kw = if rng.chance(0.6) { rng.range(3.0, 22.0) } else { 0.0 };
        let n_sessions = rng.usize(1, 3);
        let mut cursor = rng.usize(0, horizon / 2);
        for _ in 0..n_sessions {
            if cursor + 2 >= horizon {
                break;
            }
            let dep = rng.usize(cursor + 2, horizon.min(cursor + 60));
            let mut v = vehicle(id as u32, cursor, dep);
            v.battery_kwh = n(battery);
            v.min_soc_kwh = n(floor);
            v.max_charge_kw = n(max_charge_kw);
            v.max_discharge_kw = n(max_discharge_kw);
            v.soc_arrival_kwh = n(rng.range(floor, battery));
            v.soc_target_kwh = n(rng.range(0.0, battery));
            v.depletion_kwh = n(rng.range(0.0, battery * 0.6));
            vehicles.push(v);
            cursor = dep + rng.usize(0, 20);
        }
    }

    let mut scenario = Scenario {
        manifest: manifest(horizon),
        vehicles,
        chargers,
        building_load_kw: (0..horizon).map(|_| n(rng.range(0.0, 80.0))).collect(),
        price_usd_per_kwh: (0..horizon).map(|_| n(rng.range(0.05, 0.50))).collect(),
        tou_class: (0..horizon)
            .map(|_| match rng.usize(0, 2) {
                0 => TouClass::Peak,
                1 => TouClass::OffPeak,
                _ => TouClass::SuperOffPeak,
            })
            .collect(),
        dr_events: Vec::new(),
    };
    scenario.manifest.charge_efficiency = n(rng.range(0.8, 1.0));
    scenario.manifest.discharge_efficiency = n(rng.range(0.8, 1.0));
    scenario.manifest.demand_charge_usd_per_kw = n(rng.range(0.0, 5.0));
    scenario.manifest.demand_charge_peak_usd_per_kw = n(rng.range(0.0, 15.0));
    if rng.chance(0.5) {
        scenario.manifest.site_cap_kw = Some(n(rng.range(20.0, 90.0)));
    }
    if rng.chance(0.3) {
        scenario.manifest.persistence = false;
    }
    let mut cursor = 0usize;
    for _ in 0..rng.usize(0, 2) {
        if cursor + 3 >= horizon - 1 {
            break;
        }
        let start = rng.usize(cursor, horizon - 3);
        let end = rng.usize(start + 1, (horizon - 1).min(start + 24));
        let mut e = dr_event(start, end, rng.range(10.0, 70.0));
        e.baseline_kw = n(rng.range(e.fsl_kw.0, 100.0));
        scenario.dr_events.push(e);
        cursor = end + 1;
    }
    scenario
}

/// All invariants asserted on one run. Returns coverage flags.
fn assert_invariants(scenario: &Scenario<Real>, r: &Results<Real>, label: &str) -> [bool; 6] {
    let dt = scenario.manifest.slot_minutes.0 / 60.0;
    let eta_c = scenario.manifest.charge_efficiency.0;
    let eta_d = scenario.manifest.discharge_efficiency.0;
    let cap = scenario.manifest.site_cap_kw;
    let mut coverage = [false; 6];

    let max_fleet_kw: f64 = scenario.chargers.iter().map(|c| c.max_kw.0).sum();
    for rec in &r.slots {
        assert!(
            rec.ev_charge_kw.0 >= -1e-9 && rec.ev_discharge_kw.0 >= -1e-9,
            "{label}: sign"
        );
        assert!(rec.ev_charge_kw.0 <= max_fleet_kw + 1e-9, "{label}: fleet charge cap");
        assert!(rec.ev_discharge_kw.0 <= max_fleet_kw + 1e-9, "{label}: fleet discharge cap");
        assert!(rec.net_kw.0 >= -1e-9, "{label}: export at slot {}", rec.slot);
        let bound = (rec.net_kw.0 - rec.building_kw.0).abs();
        assert!(bound <= max_fleet_kw + 1e-9, "{label}: net vs building");
        if let Some(c) = cap {
            assert!(
                rec.net_kw.0 <= rec.building_kw.0.max(c.0) + 1e-9,
                "{label}: site cap violated at slot {}",
                rec.slot
            );
            if rec.ev_charge_kw.0 > 1e-6 && (rec.net_kw.0 - c.0).abs() < 1e-6 {
                coverage[2] = true; // binding site cap
            }
        }
        if rec.ev_discharge_kw.0 > 1e-6 {
            coverage[0] = true; // discharge exercised
        }
    }

    for s in &r.sessions {
        let v = scenario
            .vehicles
            .iter()
            .find(|v| v.vehicle_id == s.vehicle_id && v.arrival_slot == s.arrival_slot)
            .expect("session maps to a vehicle row");
        let expected =
            s.soc_arrival_kwh.0 + eta_c * s.energy_drawn_kwh.0 - s.energy_exported_kwh.0 / eta_d;
        assert!(
            (s.soc_departure_kwh.0 - expected).abs() < 1e-6,
            "{label}: conservation broken for vehicle {} ({} vs {})",
            s.vehicle_id,
            s.soc_departure_kwh.0,
            expected
        );
        assert!(
            s.soc_departure_kwh.0 <= v.battery_kwh.0 + 1e-6 && s.soc_departure_kwh.0 >= -1e-6,
            "{label}: SoC out of [0, capacity]"
        );
        if s.never_connected {
            coverage[1] = true;
            assert!(
                (s.soc_departure_kwh.0 - s.soc_arrival_kwh.0).abs() < 1e-9,
                "{label}: unserved session changed SoC"
            );
        }
        if s.missing_kwh.0 > 1e-6 {
            coverage[3] = true; // target miss occurred somewhere
        }
        if s.chain_clamped_kwh.0 > 1e-6 {
            coverage[4] = true; // infeasible-trip clamp exercised
        }
        assert!(
            (s.missing_kwh.0 - (v.soc_target_kwh.0 - s.soc_departure_kwh.0).max(0.0)).abs() < 1e-9,
            "{label}: missing_kwh definition"
        );
        assert!(
            (s.banked_kwh.0 - (s.soc_departure_kwh.0 - v.soc_target_kwh.0).max(0.0)).abs() < 1e-9,
            "{label}: banked_kwh definition"
        );
        assert_eq!(
            s.target_met,
            s.soc_departure_kwh.0 + 1e-9 >= v.soc_target_kwh.0,
            "{label}: target_met flag inconsistent"
        );
    }

    for t in &r.trace {
        let port = scenario
            .chargers
            .iter()
            .find(|c| c.charger_id == t.charger_id)
            .expect("trace names a real charger");
        assert!(
            t.power_kw.0.abs() <= port.max_kw.0 + 1e-9,
            "{label}: per-port cap violated on charger {} at slot {}",
            t.charger_id,
            t.slot
        );
        if t.power_kw.0 < 0.0 {
            assert!(
                port.bidirectional,
                "{label}: discharge on unidirectional charger {}",
                t.charger_id
            );
        }
    }

    let b = &r.bill;
    assert!(
        (b.total_usd.0
            - (b.energy_usd.0 + b.demand_usd.0 + b.dr_penalty_usd.0 - b.dr_incentive_usd.0))
            .abs()
            < 1e-6,
        "{label}: bill identity"
    );
    let peak = r.slots.iter().map(|rec| rec.net_kw.0).fold(0.0f64, f64::max);
    let peak_tou = r
        .slots
        .iter()
        .filter(|rec| scenario.tou_class[rec.slot] == TouClass::Peak)
        .map(|rec| rec.net_kw.0)
        .fold(0.0f64, f64::max);
    assert!((b.peak_net_kw.0 - peak).abs() < 1e-9, "{label}: peak tracking");
    assert!((b.peak_net_peak_tou_kw.0 - peak_tou).abs() < 1e-9, "{label}: peak-TOU tracking");
    assert!(
        (b.demand_facilities_usd.0 - scenario.manifest.demand_charge_usd_per_kw.0 * peak).abs()
            < 1e-6,
        "{label}: facilities demand"
    );
    assert!(
        (b.demand_peak_tou_usd.0 - scenario.manifest.demand_charge_peak_usd_per_kw.0 * peak_tou)
            .abs()
            < 1e-6,
        "{label}: peak-TOU demand"
    );
    let mut expected_incentive = 0.0;
    for (event, settlement) in scenario.dr_events.iter().zip(&b.dr_settlements) {
        let covered: Vec<&_> = r
            .slots
            .iter()
            .filter(|rec| rec.slot > event.start_slot && rec.slot <= event.end_slot)
            .collect();
        let expected: f64 =
            covered.iter().map(|rec| (rec.net_kw.0 - event.fsl_kw.0).max(0.0) * dt).sum();
        assert!(
            (settlement.overflow_kwh.0 - expected).abs() < 1e-6,
            "{label}: overflow definition"
        );
        if settlement.overflow_kwh.0 > 1e-6 {
            coverage[5] = true; // DR overflow exercised
        }
        if !covered.is_empty() && expected <= 1e-9 {
            expected_incentive +=
                event.incentive_usd_per_kw.0 * (event.baseline_kw.0 - event.fsl_kw.0).max(0.0);
        }
    }
    assert!(
        (b.dr_incentive_usd.0 - expected_incentive).abs() < 1e-6,
        "{label}: incentive rule (reduction-only, honored-gated)"
    );
    coverage
}

#[test]
fn randomized_scenarios_uphold_all_invariants() {
    let mut rng = Rng(0x5EED_2026_0730_0001);
    let mut coverage = [0usize; 6];
    let total = 200;
    for i in 0..total {
        let scenario = random_scenario(&mut rng);
        if let Err(e) = scenario.validate() {
            panic!("scenario {i} invalid: {}", e.message());
        }
        for name in POLICY_NAMES {
            let r = run_named(&scenario, name);
            let flags = assert_invariants(&scenario, &r, &format!("scenario {i} policy {name}"));
            for (c, f) in coverage.iter_mut().zip(flags) {
                *c += f as usize;
            }
        }
    }
    let names = [
        "V2B discharge",
        "never_connected",
        "binding site cap",
        "target miss",
        "chain clamp",
        "DR overflow",
    ];
    for (count, name) in coverage.iter().zip(names) {
        assert!(
            *count >= 5,
            "coverage too thin: '{name}' hit only {count} times across {total} scenarios"
        );
    }
}

// ------------------------------------------------------------ further checks

/// Unknown names find no policy; known ones find the policy of that name.
#[test]
fn names_find_their_policy() {
    for name in POLICY_NAMES {
        assert_eq!(policy::by_name::<Real>(name).expect("registered").name(), name);
    }
    for name in ["", "EDF", "edf-v2b", "llf-v2b", "policy-3", "idle "] {
        assert!(policy::by_name::<Real>(name).is_none());
    }
}

/// What is banked in one session is not drawn in the next: two runs that leave the second
/// session equally full differ in its draw by what the first one left more.
#[test]
fn banking_lowers_the_next_draw_one_for_one() {
    /// Charges until `levels[k]` kWh in the k-th session of its vehicle.
    #[derive(Clone)]
    struct Until([f64; 3]);
    impl Policy<Real> for Until {
        fn title(&self) -> &'static str {
            "until-test"
        }
        fn ready(&self) -> bool {
            true
        }
        fn chooses(&self, _: &Observation<Real>, _: &Vec<Setpoint<Real>>, _: &Self) -> bool {
            true
        }
        fn name(&self) -> &'static str {
            self.title()
        }
        fn decide(&mut self, obs: &Observation<Real>) -> Vec<Setpoint<Real>> {
            obs.sessions
                .iter()
                .map(|s| {
                    let level = self.0[obs.slot / 96];
                    let kw = kwh_to_kw(n((level - s.soc_kwh.0).max(0.0)), obs.slot_minutes);
                    Setpoint { session_index: s.index, power_kw: kw }
                })
                .collect()
        }
    }
    let scenario = base_scenario(288, commuter_sessions(), vec![charger(0, true)]);
    let lean = run(&scenario, &mut Until([40.0, 55.0, 40.0]));
    let rich = run(&scenario, &mut Until([52.0, 55.0, 40.0]));
    assert_eq!(lean.sessions[1].soc_departure_kwh, rich.sessions[1].soc_departure_kwh);
    let saved = lean.sessions[1].energy_drawn_kwh.0 - rich.sessions[1].energy_drawn_kwh.0;
    assert!((saved - 12.0).abs() < 1e-9, "12 kWh banked, {saved} kWh saved");
}

/// The threshold of a scheduler never falls over an episode.
#[test]
fn threshold_ratchets_upward() {
    let mut v = vehicle(0, 0, 24);
    v.soc_arrival_kwh = n(0.0);
    v.soc_target_kwh = n(60.0);
    let mut s = base_scenario(24, vec![v], vec![charger(0, true)]);
    s.building_load_kw = vec![n(50.0); 24];
    s.manifest.heuristic_threshold_kw = Some(n(51.0));
    let mut edf = policy::ThresholdScheduler::<Real>::edf();
    assert_eq!(edf.threshold_kw, None);
    run(&s, &mut edf);
    let after = edf.threshold_kw.expect("seeded").0;
    assert!(after > 51.0, "the final hour's force-charge must lift it, got {after}");
    run(&s, &mut edf);
    assert!(edf.threshold_kw.expect("kept").0 >= after);
}

/// Counts of a summary.
#[test]
fn summaries_count_sessions() {
    let scenario =
        base_scenario(48, vec![vehicle(0, 0, 10), vehicle(1, 2, 30)], vec![charger(0, false)]);
    let r = run_named(&scenario, "uncontrolled");
    let totals = summarize(&r);
    assert_eq!(totals.sessions_total, 2);
    assert_eq!(totals.sessions_target_met, 1);
    assert_eq!(totals.sessions_never_connected, 1);
    assert!(near(totals.energy_drawn_kwh, 20.0, 1e-9));
    assert!(near(totals.missing_kwh, 20.0, 1e-9));
    assert_eq!(totals.banked_kwh, n(0.0));
    assert_eq!(totals.chain_clamped_kwh, n(0.0));
}

/// A policy that asks nothing leaves every battery as it came.
#[test]
fn idle_changes_nothing() {
    let scenario = rich_scenario();
    let r = run_named(&scenario, "idle");
    for s in &r.sessions {
        assert_eq!(s.soc_departure_kwh, s.soc_arrival_kwh);
    }
    for rec in &r.slots {
        assert_eq!(rec.net_kw, rec.building_kw);
    }
}

/// The forecast is the measured load up to now and yesterday's load after it.
#[test]
fn forecasts_repeat_the_last_day() {
    let load: Vec<Real> = (0..12).map(|s| n(s as f64)).collect();
    let price = vec![n(0.2); 12];
    let tou = vec![TouClass::OffPeak; 12];
    let obs = Observation {
        slot: 5,
        slot_minutes: n(360.0), // four slots a day
        building_load_kw: n(5.0),
        price_usd_per_kwh: n(0.2),
        tou: TouClass::OffPeak,
        site_cap_kw: None,
        charge_efficiency: n(1.0),
        discharge_efficiency: n(1.0),
        dr_fsl_kw: None,
        sessions: vec![],
        price_series: &price,
        building_series: &load,
        tou_series: &tou,
        dr_events: &[],
        heuristic_threshold_kw: None,
        demand_charge_usd_per_kw: n(0.0),
        demand_charge_peak_usd_per_kw: n(0.0),
    };
    let seen: Vec<f64> = (0..12).map(|s| obs.building_forecast_kw(s).0).collect();
    assert_eq!(seen, vec![0.0, 1.0, 2.0, 3.0, 4.0, 5.0, 2.0, 3.0, 4.0, 5.0, 2.0, 3.0]);
    let early = Observation { slot: 1, building_load_kw: n(1.0), ..obs };
    assert_eq!(early.building_forecast_kw(3).0, 1.0, "no day has been seen: the current load");
    assert_eq!(early.building_forecast_kw(4).0, 0.0);
}
