//! Full-horizon oracle: solve the whole scenario once with perfect foresight
//! (all sessions known, persistence chains coupled), then replay the schedule
//! open-loop. The oracle is the yardstick for receding-horizon (MPC)
//! parity testing, and the vehicle for firm-service-level (FSL) commitment
//! optimization.
//!
//! Scope restrictions (checked, not assumed): every charger port must have
//! the same power limit, and there must be at least as many ports as
//! concurrently-connected sessions (no queueing), because the LP does not
//! model charger contention. Fixtures satisfying this keep the oracle exact.
//!
//! IMPORTANT: the oracle's bill is not a lower bound over bills. The objective
//! contains an unbilled battery-wear term, so a policy may realize a bill up to
//! that term below the oracle's. Compare bills only with that slack in mind, or
//! compare objectives.

use vstd::prelude::*;

use crate::engine::sort_by_arrival;
use crate::milp::{MilpBackend, Model, Program, SolStatus, Solution, SolveError, VarId};
use crate::num::{count, from_count, zero, zero_of, Num};
use crate::policy::formulation::{
    add_agg, add_demand, add_events, add_visit, are_placed, block_base, is_placed, lemma_block_base,
    lemma_placed_later, lemma_places, lemma_with_agg, lemma_with_demand, lemma_with_events, lemma_with_visits,
    level_var, level_vars, place_of, places_of, spans_of, start_fits, stored, with_agg, with_all_visits, with_demand,
    with_events, with_visits, Place, PlanRates, Span, Start, Visit, VisitModel,
};
use crate::policy::mpc::{make_visit_tag, slot_hours, visit_tag};
use crate::policy::Policy;
use crate::rounding::{
    is_number, lemma_closer_fits, lemma_compare, lemma_constants, lemma_finite, lemma_fitting, lemma_minus,
    lemma_plus, lemma_times, rounds_toward_zero,
};
use crate::scenario::{Charger, DrEvent, Scenario, ScenarioModel, Vehicle};
use crate::site::arrival_order;
use crate::state::{Observation, ObservationModel, Setpoint};
use crate::text::{decimal, push_usize};

verus! {

#[derive(Debug, Clone, Copy, PartialEq)]
pub struct OracleConfig<N> {
    /// Penalty per kWh of departure-target shortfall.
    pub shortfall_usd_per_kwh: N,
    /// Battery-wear cost per kWh discharged (building side). Unbilled.
    pub degradation_usd_per_kwh: N,
    /// Optimize each DR event's firm service level as a decision variable in
    /// [0, counterfactual baseline peak] instead of taking `fsl_kw` as given.
    pub optimize_fsl: bool,
}

/// A dominating shortfall penalty, five cents of wear per kWh, firm levels as
/// given.
pub open spec fn usual_config<N: Num>() -> OracleConfig<N> {
    OracleConfig {
        shortfall_usd_per_kwh: count::<N>(1_000_000),
        degradation_usd_per_kwh: N::rational(1, 20),
        optimize_fsl: false,
    }
}

impl<N: Num> Default for OracleConfig<N> {
    /// A dominating shortfall penalty, five cents of wear per kWh, firm levels
    /// as given.
    fn default() -> (r: Self)
        ensures
            r == usual_config::<N>(),
    {
        OracleConfig {
            shortfall_usd_per_kwh: N::ratio(1_000_000, 1),
            degradation_usd_per_kwh: N::ratio(1, 20),
            optimize_fsl: false,
        }
    }
}

// ------------------------------------------------------------------- scope

/// Why a scenario is out of the oracle's scope.
#[derive(Debug, Clone, Copy, PartialEq, Eq)]
pub enum ScopeIssue {
    NoChargers,
    MixedPorts,
    /// More sessions than ports in the slot.
    Contention(usize),
    /// More V2B sessions than bidirectional ports in the slot.
    V2bContention(usize),
}

/// What a scope issue says.
pub open spec fn scope_text(issue: ScopeIssue) -> Seq<char> {
    match issue {
        ScopeIssue::NoChargers => "oracle: no chargers"@,
        ScopeIssue::MixedPorts => "oracle: heterogeneous charger power limits are out of scope"@,
        ScopeIssue::Contention(slot) => "oracle: charger contention at slot "@ + decimal(slot as nat)
            + " is out of scope"@,
        ScopeIssue::V2bContention(slot) =>
            "oracle: more V2B sessions than bidirectional ports at slot "@ + decimal(slot as nat),
    }
}

impl ScopeIssue {
    /// The issue in words.
    pub fn text(&self) -> (r: String)
        ensures
            r@ == scope_text(*self),
    {
        match self {
            ScopeIssue::NoChargers => "oracle: no chargers".to_owned(),
            ScopeIssue::MixedPorts => {
                "oracle: heterogeneous charger power limits are out of scope".to_owned()
            },
            ScopeIssue::Contention(slot) => {
                let mut out = "oracle: charger contention at slot ".to_owned();
                push_usize(&mut out, *slot);
                out.append(" is out of scope");
                out
            },
            ScopeIssue::V2bContention(slot) => {
                let mut out = "oracle: more V2B sessions than bidirectional ports at slot ".to_owned();
                push_usize(&mut out, *slot);
                out
            },
        }
    }
}

/// The session is plugged in during `slot`.
pub open spec fn is_here<N>(v: Vehicle<N>, slot: int) -> bool {
    v.arrival_slot <= slot < v.departure_slot
}

/// The vehicle can discharge.
pub open spec fn is_v2b<N: Num>(v: Vehicle<N>) -> bool {
    zero_of::<N>().below(v.max_discharge_kw)
}

/// How many of the first `n` sessions are here during `slot`; only those that
/// can discharge if `v2b` is set.
pub open spec fn count_here<N: Num>(vehicles: Seq<Vehicle<N>>, slot: int, v2b: bool, n: nat) -> nat
    decreases n,
{
    if n == 0 {
        0
    } else {
        let before = count_here(vehicles, slot, v2b, (n - 1) as nat);
        if is_here(vehicles[n - 1], slot) && (!v2b || is_v2b(vehicles[n - 1])) {
            before + 1
        } else {
            before
        }
    }
}

/// How many of the first `n` ports can discharge.
pub open spec fn count_bidirectional<N>(chargers: Seq<Charger<N>>, n: nat) -> nat
    decreases n,
{
    if n == 0 {
        0
    } else {
        let before = count_bidirectional(chargers, (n - 1) as nat);
        if chargers[n - 1].bidirectional {
            before + 1
        } else {
            before
        }
    }
}

/// Some vehicle can discharge.
pub open spec fn needs_v2b<N: Num>(vehicles: Seq<Vehicle<N>>) -> bool {
    exists|i: int| 0 <= i < vehicles.len() && is_v2b(#[trigger] vehicles[i])
}

/// What is wrong with one slot.
pub open spec fn slot_issue<N: Num>(sc: ScenarioModel<N>, slot: int) -> Option<ScopeIssue> {
    let n = sc.vehicles.len();
    if count_here(sc.vehicles, slot, false, n) > sc.chargers.len() {
        Some(ScopeIssue::Contention(slot as usize))
    } else if needs_v2b(sc.vehicles) && count_here(sc.vehicles, slot, true, n) > count_bidirectional(
        sc.chargers,
        sc.chargers.len(),
    ) {
        Some(ScopeIssue::V2bContention(slot as usize))
    } else {
        None
    }
}

/// What is wrong first among the first `n` slots.
pub open spec fn first_slot_issue<N: Num>(sc: ScenarioModel<N>, n: nat) -> Option<ScopeIssue>
    decreases n,
{
    if n == 0 {
        None
    } else {
        match first_slot_issue(sc, (n - 1) as nat) {
            Some(issue) => Some(issue),
            None => slot_issue(sc, n - 1),
        }
    }
}

/// Some port has another power limit than the first one.
pub open spec fn has_mixed_ports<N: Num>(chargers: Seq<Charger<N>>) -> bool {
    exists|c: int| 0 <= c < chargers.len() && !(#[trigger] chargers[c]).max_kw.same(chargers[0].max_kw)
}

/// Why a scenario is out of scope, if it is.
pub open spec fn scope_issue<N: Num>(sc: ScenarioModel<N>) -> Option<ScopeIssue> {
    if sc.chargers.len() == 0 {
        Some(ScopeIssue::NoChargers)
    } else if has_mixed_ports(sc.chargers) {
        Some(ScopeIssue::MixedPorts)
    } else {
        first_slot_issue(sc, sc.rules.horizon_slots as nat)
    }
}

fn count_sessions_here<N: Num>(vehicles: &Vec<Vehicle<N>>, slot: usize, v2b: bool) -> (r: usize)
    ensures
        r == count_here(vehicles@, slot as int, v2b, vehicles@.len()),
{
    let mut total: usize = 0;
    for i in 0..vehicles.len()
        invariant
            total == count_here(vehicles@, slot as int, v2b, i as nat),
            total <= i,
    {
        let v = &vehicles[i];
        if v.arrival_slot <= slot && slot < v.departure_slot && (!v2b || zero::<N>().lt(
            v.max_discharge_kw,
        )) {
            total = total + 1;
        }
    }
    total
}

fn find_v2b<N: Num>(vehicles: &Vec<Vehicle<N>>) -> (r: bool)
    ensures
        r == needs_v2b(vehicles@),
{
    for i in 0..vehicles.len()
        invariant
            forall|j: int| 0 <= j < i ==> !is_v2b(#[trigger] vehicles@[j]),
    {
        if zero::<N>().lt(vehicles[i].max_discharge_kw) {
            assert(is_v2b(vehicles@[i as int]));
            return true;
        }
    }
    false
}

proof fn lemma_first_slot_issue<N: Num>(sc: ScenarioModel<N>, m: nat, n: nat)
    requires
        m <= n,
        first_slot_issue(sc, m) is Some,
    ensures
        first_slot_issue(sc, n) == first_slot_issue(sc, m),
    decreases n,
{
    if m < n {
        lemma_first_slot_issue(sc, m, (n - 1) as nat);
    }
}

/// Checks that the scenario is in the oracle's scope.
pub fn check_scope<N: Num>(scenario: &Scenario<N>) -> (r: Option<ScopeIssue>)
    ensures
        r == scope_issue(scenario@),
{
    if scenario.chargers.len() == 0 {
        return Some(ScopeIssue::NoChargers);
    }
    for c in 0..scenario.chargers.len()
        invariant
            scenario.chargers.len() > 0,
            forall|d: int|
                0 <= d < c ==> (#[trigger] scenario@.chargers[d]).max_kw.same(
                    scenario@.chargers[0].max_kw,
                ),
    {
        if !scenario.chargers[c].max_kw.eq(scenario.chargers[0].max_kw) {
            assert(!scenario@.chargers[c as int].max_kw.same(scenario@.chargers[0].max_kw));
            return Some(ScopeIssue::MixedPorts);
        }
    }
    let v2b: bool = find_v2b(&scenario.vehicles);
    let mut bidirectional: usize = 0;
    for c in 0..scenario.chargers.len()
        invariant
            bidirectional == count_bidirectional(scenario@.chargers, c as nat),
            bidirectional <= c,
    {
        if scenario.chargers[c].bidirectional {
            bidirectional = bidirectional + 1;
        }
    }
    for slot in 0..scenario.manifest.horizon_slots
        invariant
            v2b == needs_v2b(scenario@.vehicles),
            bidirectional == count_bidirectional(scenario@.chargers, scenario@.chargers.len()),
            scenario@.chargers.len() > 0,
            !has_mixed_ports(scenario@.chargers),
            first_slot_issue(scenario@, slot as nat) is None,
    {
        let here: usize = count_sessions_here(&scenario.vehicles, slot, false);
        let issue: Option<ScopeIssue> = if here > scenario.chargers.len() {
            Some(ScopeIssue::Contention(slot))
        } else if v2b && count_sessions_here(&scenario.vehicles, slot, true) > bidirectional {
            Some(ScopeIssue::V2bContention(slot))
        } else {
            None
        };
        assert(issue == slot_issue(scenario@, slot as int));
        if issue.is_some() {
            proof {
                assert(first_slot_issue(scenario@, (slot + 1) as nat) == issue);
                lemma_first_slot_issue(
                    scenario@,
                    (slot + 1) as nat,
                    scenario@.rules.horizon_slots as nat,
                );
            }
            return issue;
        }
    }
    None
}

// ------------------------------------------------------------- the program

/// What the oracle asks of a scenario: one building load, price and class per
/// slot of the horizon, and sessions inside the horizon that end after they start.
pub open spec fn is_plannable<N: Num>(sc: ScenarioModel<N>) -> bool {
    &&& sc.building.len() == sc.rules.horizon_slots
    &&& sc.price.len() == sc.rules.horizon_slots
    &&& sc.tou.len() == sc.rules.horizon_slots
    &&& forall|i: int|
        0 <= i < sc.vehicles.len() ==> (#[trigger] sc.vehicles[i]).arrival_slot
            < sc.vehicles[i].departure_slot <= sc.rules.horizon_slots
}

/// The latest of the first `n` positions of `order` with a session of vehicle `id`.
pub open spec fn latest_visit<N>(vehicles: Seq<Vehicle<N>>, order: Seq<usize>, id: u32, n: nat) -> Option<int>
    decreases n,
{
    if n == 0 {
        None
    } else if vehicles[order[n - 1] as int].vehicle_id == id {
        Some(n - 1)
    } else {
        latest_visit(vehicles, order, id, (n - 1) as nat)
    }
}

/// The slots of the sessions in arrival order.
pub open spec fn session_spans<N>(vehicles: Seq<Vehicle<N>>) -> Seq<Span> {
    let order = arrival_order(vehicles);
    Seq::new(
        vehicles.len(),
        |p: int|
            Span {
                first_slot: vehicles[order[p] as int].arrival_slot,
                last_slot: (vehicles[order[p] as int].departure_slot - 1) as usize,
            },
    )
}

/// What the stored energy of the session at position `p` starts from: its SoC,
/// or for a chained session under persistence the previous session's terminal
/// energy minus the depletion (this is exactly what lets the oracle bank across
/// days).
pub open spec fn session_start<N: Num>(sc: ScenarioModel<N>, p: int) -> Start<N> {
    let order = arrival_order(sc.vehicles);
    let v = sc.vehicles[order[p] as int];
    let spans = session_spans(sc.vehicles);
    match latest_visit(sc.vehicles, order, v.vehicle_id, p as nat) {
        Some(q) => if sc.rules.persistence {
            Start::After(
                stored(block_base(0, spans, q as nat), spans[q].last_slot - spans[q].first_slot),
                v.depletion_kwh,
            )
        } else {
            Start::At(v.soc_arrival_kwh)
        },
        None => Start::At(v.soc_arrival_kwh),
    }
}

/// The session at position `p` as a visit.
pub open spec fn session_visit<N: Num>(sc: ScenarioModel<N>, p: int) -> VisitModel<N> {
    let v = sc.vehicles[arrival_order(sc.vehicles)[p] as int];
    let port_kw = sc.chargers[0].max_kw;
    let dt = slot_hours(sc.rules.slot_minutes);
    VisitModel {
        tag: visit_tag(v.vehicle_id, v.arrival_slot),
        first_slot: v.arrival_slot,
        last_slot: (v.departure_slot - 1) as usize,
        charge_kwh: v.max_charge_kw.lesser(port_kw).times(dt),
        discharge_kwh: v.max_discharge_kw.lesser(port_kw).times(dt),
        floor_kwh: v.min_soc_kwh,
        ceiling_kwh: v.battery_kwh,
        start: session_start(sc, p),
        needed_kwh: v.soc_target_kwh,
    }
}

/// The sessions as visits, in arrival order.
pub open spec fn session_visits<N: Num>(sc: ScenarioModel<N>) -> Seq<VisitModel<N>> {
    Seq::new(sc.vehicles.len(), |p: int| session_visit(sc, p))
}

/// The rates of the program.
pub open spec fn oracle_rates<N: Num>(sc: ScenarioModel<N>, config: OracleConfig<N>) -> PlanRates<N> {
    PlanRates {
        charge_efficiency: sc.rules.charge_efficiency,
        discharge_efficiency: sc.rules.discharge_efficiency,
        shortfall_usd_per_kwh: config.shortfall_usd_per_kwh,
        degradation_usd_per_kwh: config.degradation_usd_per_kwh,
        ramp_kwh_per_slot: None,
    }
}

/// The program up to its visits.
pub open spec fn oracle_blocks<N: Num>(sc: ScenarioModel<N>, config: OracleConfig<N>) -> Program<N> {
    with_all_visits(
        Program::empty(),
        "target_"@,
        session_visits(sc),
        oracle_rates(sc, config),
        sc.price,
    )
}

/// The program up to its demand components.
pub open spec fn oracle_peaks<N: Num>(sc: ScenarioModel<N>, config: OracleConfig<N>) -> Program<N> {
    let blocks = oracle_blocks(sc, config);
    with_demand(
        with_agg(
            blocks,
            0,
            sc.building,
            sc.rules.site_cap_kw,
            places_of(0, session_spans(sc.vehicles)),
            slot_hours(sc.rules.slot_minutes),
        ),
        0,
        sc.building.len(),
        sc.tou,
        blocks.vars.len() as int,
        sc.rules.demand_charge_usd_per_kw,
        sc.rules.demand_charge_peak_usd_per_kw,
    )
}

/// The full-horizon program. `with_dr` gates the DR overflow and level terms;
/// `bounds` (per event upper bounds) switches the firm level from a constant to
/// a decision variable.
pub open spec fn oracle_program<N: Num>(
    sc: ScenarioModel<N>,
    config: OracleConfig<N>,
    with_dr: bool,
    bounds: Option<Seq<N>>,
) -> Program<N> {
    let peaks = oracle_peaks(sc, config);
    if with_dr {
        with_events(
            peaks,
            sc.events,
            bounds,
            0,
            oracle_blocks(sc, config).vars.len() as int,
            slot_hours(sc.rules.slot_minutes),
            sc.building.len(),
            sc.events.len(),
        )
    } else {
        peaks
    }
}

/// The level variables of the events.
pub open spec fn oracle_levels<N: Num>(
    sc: ScenarioModel<N>,
    config: OracleConfig<N>,
    with_dr: bool,
    bounds: Option<Seq<N>>,
) -> Seq<Option<VarId>> {
    if with_dr {
        level_vars(
            oracle_peaks(sc, config),
            sc.events,
            bounds,
            0,
            oracle_blocks(sc, config).vars.len() as int,
            slot_hours(sc.rules.slot_minutes),
            sc.building.len(),
        )
    } else {
        Seq::new(sc.events.len(), |i: int| None)
    }
}

/// The bounds of a list, where there is one.
pub open spec fn listed<N>(bounds: Option<&Vec<N>>) -> Option<Seq<N>> {
    match bounds {
        Some(b) => Some(b@),
        None => None,
    }
}

/// A program that waits for its solution.
#[derive(Debug)]
pub struct OracleProblem<N> {
    pub model: Model<N>,
    /// The sessions in arrival order, as row numbers.
    pub order: Vec<usize>,
    /// Where the sessions stand.
    pub places: Vec<Place>,
    /// The net-load variable of slot 0.
    pub agg: usize,
    /// The level variables of the events.
    pub levels: Vec<Option<VarId>>,
}

impl<N: Num> OracleProblem<N> {
    /// The problem is the one of `sc`.
    pub open spec fn is_for(
        &self,
        sc: ScenarioModel<N>,
        config: OracleConfig<N>,
        with_dr: bool,
        bounds: Option<Seq<N>>,
    ) -> bool {
        &&& self.model@ == oracle_program(sc, config, with_dr, bounds)
        &&& self.model@.well_formed()
        &&& self.order@ == arrival_order(sc.vehicles)
        &&& self.places@ == places_of(0, session_spans(sc.vehicles))
        &&& are_placed(self.places@, self.model@.vars.len())
        &&& self.agg == oracle_blocks(sc, config).vars.len()
        &&& self.agg + sc.building.len() <= self.model@.vars.len()
        &&& self.levels@ == oracle_levels(sc, config, with_dr, bounds)
        &&& forall|i: int|
            0 <= i < self.levels@.len() ==> ((#[trigger] self.levels@[i]) matches Some(f) ==> f.0
                < self.model@.vars.len())
    }
}

/// The latest of the first `n` positions with a session of vehicle `id`.
fn find_latest_visit<N: Num>(vehicles: &Vec<Vehicle<N>>, order: &Vec<usize>, id: u32, n: usize) -> (r: Option<
    usize,
>)
    requires
        n <= order@.len(),
        forall|k: int| 0 <= k < order@.len() ==> #[trigger] order@[k] < vehicles@.len(),
    ensures
        match (r, latest_visit(vehicles@, order@, id, n as nat)) {
            (Some(q), Some(p)) => q == p && q < n,
            (None, None) => true,
            _ => false,
        },
{
    let mut p: usize = n;
    while p > 0
        invariant
            p <= n <= order@.len(),
            forall|k: int| 0 <= k < order@.len() ==> #[trigger] order@[k] < vehicles@.len(),
            latest_visit(vehicles@, order@, id, n as nat) == latest_visit(
                vehicles@,
                order@,
                id,
                p as nat,
            ),
        decreases p,
    {
        if vehicles[order[p - 1]].vehicle_id == id {
            return Some(p - 1);
        }
        p = p - 1;
    }
    None
}

proof fn lemma_latest_visit<N>(vehicles: Seq<Vehicle<N>>, order: Seq<usize>, id: u32, n: nat)
    ensures
        latest_visit(vehicles, order, id, n) matches Some(q) ==> 0 <= q < n,
    decreases n,
{
    if n > 0 {
        lemma_latest_visit(vehicles, order, id, (n - 1) as nat);
    }
}

/// Lays out the blocks of all sessions; returns where they stand.
fn add_sessions<N: Num>(m: &mut Model<N>, scenario: &Scenario<N>, order: &Vec<usize>, rates: &PlanRates<N>) -> (places:
    Vec<Place>)
    requires
        is_plannable(scenario@),
        scenario@.chargers.len() > 0,
        order@ == arrival_order(scenario@.vehicles),
        order@.len() == scenario@.vehicles.len(),
        forall|k: int| 0 <= k < order@.len() ==> #[trigger] order@[k] < scenario@.vehicles.len(),
        old(m)@ == Program::<N>::empty(),
    ensures
        final(m)@ == with_all_visits(
            Program::<N>::empty(),
            "target_"@,
            session_visits(scenario@),
            *rates,
            scenario@.price,
        ),
        final(m)@.well_formed(),
        places@ == places_of(0, session_spans(scenario@.vehicles)),
        are_placed(places@, final(m)@.vars.len()),
        scenario@.vehicles.len() > 0 ==> final(m)@.vars.len() > 0,
{
    let dt = scenario.manifest.slot_minutes.div(from_count(60));
    let port_kw = scenario.chargers[0].max_kw;
    let ghost sc = scenario@;
    let ghost visits = session_visits(sc);
    let ghost spans = session_spans(sc.vehicles);
    assert(spans_of(visits) =~= spans);
    let mut places: Vec<Place> = Vec::new();
    assert(m@.vars.len() == 0);
    for p in 0..order.len()
        invariant
            sc == scenario@,
            is_plannable(sc),
            sc.chargers.len() > 0,
            order@ == arrival_order(sc.vehicles),
            order@.len() == sc.vehicles.len(),
            forall|k: int| 0 <= k < order@.len() ==> #[trigger] order@[k] < sc.vehicles.len(),
            dt == slot_hours(sc.rules.slot_minutes),
            port_kw == sc.chargers[0].max_kw,
            visits == session_visits(sc),
            spans == session_spans(sc.vehicles),
            m@ == with_visits(Program::<N>::empty(), "target_"@, visits, *rates, sc.price, p as nat),
            m@.vars.len() == block_base(0, spans, p as nat),
            places@ == places_of(0, spans).take(p as int),
    {
        assert(m.vars.len() <= usize::MAX);
        let row: usize = order[p];
        let v = scenario.vehicles[row];
        assert(sc.vehicles[row as int].arrival_slot < sc.vehicles[row as int].departure_slot);
        let prev: Option<usize> = if scenario.manifest.persistence {
            find_latest_visit(&scenario.vehicles, order, v.vehicle_id, p)
        } else {
            None
        };
        let start: Start<N> = match prev {
            Some(q) => {
                proof {
                    assert forall|j: int| 0 <= j < p implies (#[trigger] spans[j]).first_slot
                        <= spans[j].last_slot by {
                        assert(order@[j] < sc.vehicles.len());
                        assert(sc.vehicles[order@[j] as int].arrival_slot
                            < sc.vehicles[order@[j] as int].departure_slot);
                    }
                    lemma_places(0, spans, p as nat);
                    assert(0 <= block_base(0, spans, q as nat));
                    assert(spans[q as int].first_slot <= spans[q as int].last_slot);
                    assert(places@[q as int] == place_of(0, spans, q as int));
                }
                let there = places[q];
                Start::After(
                    VarId(there.base + 3 * (there.last_slot - there.first_slot) + 2),
                    v.depletion_kwh,
                )
            },
            None => Start::At(v.soc_arrival_kwh),
        };
        assert(start == session_start(sc, p as int));
        let visit = Visit {
            tag: make_visit_tag(v.vehicle_id, v.arrival_slot),
            first_slot: v.arrival_slot,
            last_slot: v.departure_slot - 1,
            charge_kwh: v.max_charge_kw.min(port_kw).mul(dt),
            discharge_kwh: v.max_discharge_kw.min(port_kw).mul(dt),
            floor_kwh: v.min_soc_kwh,
            ceiling_kwh: v.battery_kwh,
            start,
            needed_kwh: v.soc_target_kwh,
        };
        assert(visit@ =~= visits[p as int]);
        let place = add_visit(m, "target_", &visit, rates, scenario.price_usd_per_kwh.as_slice());
        assert(spans[p as int] == (Span {
            first_slot: v.arrival_slot,
            last_slot: (v.departure_slot - 1) as usize,
        }));
        places.push(place);
        assert(places@ =~= places_of(0, spans).take(p + 1));
    }
    assert(m.vars.len() <= usize::MAX);
    proof {
        let n = sc.vehicles.len();
        assert forall|j: int| 0 <= j < n implies (#[trigger] spans[j]).first_slot <= spans[j].last_slot by {
            assert(order@[j] < sc.vehicles.len());
            assert(sc.vehicles[order@[j] as int].arrival_slot
                < sc.vehicles[order@[j] as int].departure_slot);
        }
        assert forall|j: int| 0 <= j < n implies (#[trigger] visits[j]).first_slot
            <= visits[j].last_slot by {
            assert(spans[j].first_slot <= spans[j].last_slot);
        }
        assert forall|j: int| 0 <= j < n implies start_fits(
            (#[trigger] visits[j]).start,
            block_base(0, spans_of(visits), j as nat) as nat,
        ) by {
            let id = sc.vehicles[order@[j] as int].vehicle_id;
            lemma_latest_visit(sc.vehicles, order@, id, j as nat);
            match latest_visit(sc.vehicles, order@, id, j as nat) {
                Some(q) => {
                    lemma_block_base(0, spans, j as nat, n);
                    lemma_places(0, spans, j as nat);
                    assert(0 <= block_base(0, spans, q as nat));
                },
                None => {},
            }
        }
        lemma_with_visits(Program::<N>::empty(), "target_"@, visits, *rates, sc.price, n);
        lemma_places(0, spans, n);
        lemma_block_base(0, spans, 0, n);
        assert(places_of(0, spans).take(n as int) =~= places_of(0, spans));
    }
    places
}

/// Lays out the full-horizon program.
pub fn build<N: Num>(
    scenario: &Scenario<N>,
    config: &OracleConfig<N>,
    with_dr: bool,
    bounds: Option<&Vec<N>>,
) -> (r: OracleProblem<N>)
    requires
        is_plannable(scenario@),
        scenario@.chargers.len() > 0,
        bounds matches Some(b) ==> b@.len() == scenario@.events.len(),
    ensures
        r.is_for(scenario@, *config, with_dr, listed(bounds)),
{
    let ghost sc = scenario@;
    let m0 = &scenario.manifest;
    let dt = m0.slot_minutes.div(from_count(60));
    let order = sort_by_arrival(&scenario.vehicles);
    let rates = PlanRates {
        charge_efficiency: m0.charge_efficiency,
        discharge_efficiency: m0.discharge_efficiency,
        shortfall_usd_per_kwh: config.shortfall_usd_per_kwh,
        degradation_usd_per_kwh: config.degradation_usd_per_kwh,
        ramp_kwh_per_slot: None,
    };
    let mut m: Model<N> = Model::default();
    let places = add_sessions(&mut m, scenario, &order, &rates);
    let ghost blocks = m@;
    assert(m.vars.len() <= usize::MAX);
    proof {
        lemma_placed_later(places@, blocks.vars.len(), usize::MAX as nat);
    }
    let agg: usize = add_agg(&mut m, 0, &scenario.building_load_kw, m0.site_cap_kw, &places, dt);
    let ghost loaded = m@;
    assert(m.vars.len() <= usize::MAX);
    assert(scenario.building_load_kw.len() <= usize::MAX);
    proof {
        lemma_with_agg(blocks, 0, sc.building, sc.rules.site_cap_kw, places@, dt);
    }
    let priced: bool = add_demand(
        &mut m,
        0,
        scenario.building_load_kw.len(),
        scenario.tou_class.as_slice(),
        agg,
        m0.demand_charge_usd_per_kw,
        m0.demand_charge_peak_usd_per_kw,
    );
    assert(m.vars.len() <= usize::MAX);
    let ghost peaked = m@;
    proof {
        if priced {
            lemma_with_demand(
                loaded,
                0,
                sc.building.len(),
                sc.tou,
                agg as int,
                sc.rules.demand_charge_usd_per_kw,
                sc.rules.demand_charge_peak_usd_per_kw,
            );
        }
    }
    let ghost b: Option<Seq<N>> = listed(bounds);
    let mut levels: Vec<Option<VarId>> = Vec::new();
    if with_dr {
        levels =
        add_events(
            &mut m,
            scenario.dr_events.as_slice(),
            bounds,
            0,
            scenario.building_load_kw.len(),
            agg,
            dt,
        );
        assert(m.vars.len() <= usize::MAX);
        proof {
            lemma_with_events(
                peaked,
                sc.events,
                b,
                0,
                agg as int,
                dt,
                sc.building.len(),
                sc.events.len(),
            );
            assert forall|i: int| 0 <= i < levels@.len() implies ((#[trigger] levels@[i]) matches Some(f)
                ==> f.0 < m@.vars.len()) by {
                let before = with_events(
                    peaked,
                    sc.events,
                    b,
                    0,
                    agg as int,
                    dt,
                    sc.building.len(),
                    i as nat,
                );
                assert(levels@[i] == level_var(before, b));
            }
        }
    } else {
        for i in 0..scenario.dr_events.len()
            invariant
                levels@ == Seq::new(i as nat, |j: int| None::<VarId>),
        {
            levels.push(None);
            assert(levels@ =~= Seq::new((i + 1) as nat, |j: int| None::<VarId>));
        }
        assert(levels@ =~= oracle_levels(sc, *config, with_dr, b));
    }
    proof {
        lemma_placed_later(places@, blocks.vars.len(), m@.vars.len());
    }
    OracleProblem { model: m, order, places, agg, levels }
}

// ---------------------------------------------------------------- solutions

/// The planned power of one session.
#[derive(Debug, Clone)]
pub struct Course<N> {
    pub vehicle_id: u32,
    pub arrival_slot: usize,
    /// Signed power per slot from the arrival on, kW.
    pub power_kw: Vec<N>,
}

/// What a course says.
#[verifier::ext_equal]
pub struct CourseModel<N> {
    pub vehicle_id: u32,
    pub arrival_slot: usize,
    pub power_kw: Seq<N>,
}

impl<N> View for Course<N> {
    type V = CourseModel<N>;

    open spec fn view(&self) -> CourseModel<N> {
        CourseModel {
            vehicle_id: self.vehicle_id,
            arrival_slot: self.arrival_slot,
            power_kw: self.power_kw@,
        }
    }
}

/// What courses say.
pub open spec fn courses_of<N>(list: Seq<Course<N>>) -> Seq<CourseModel<N>> {
    Seq::new(list.len(), |i: int| list[i]@)
}

/// The course plans a power for the session of `vehicle_id` that arrives at
/// `arrival_slot`, in `slot`.
pub open spec fn course_covers<N>(
    c: CourseModel<N>,
    vehicle_id: u32,
    arrival_slot: usize,
    slot: usize,
) -> bool {
    &&& c.vehicle_id == vehicle_id
    &&& c.arrival_slot == arrival_slot
    &&& c.arrival_slot <= slot < c.arrival_slot + c.power_kw.len()
}

/// The planned power of a session in `slot`: of the last of the first `n`
/// courses that plans one, zero otherwise.
pub open spec fn planned_power<N: Num>(
    list: Seq<CourseModel<N>>,
    vehicle_id: u32,
    arrival_slot: usize,
    slot: usize,
    n: nat,
) -> N
    decreases n,
{
    if n == 0 {
        zero_of()
    } else if course_covers(list[n - 1], vehicle_id, arrival_slot, slot) {
        list[n - 1].power_kw[slot - arrival_slot]
    } else {
        planned_power(list, vehicle_id, arrival_slot, slot, (n - 1) as nat)
    }
}

/// The oracle's solved plan.
#[derive(Debug, Clone)]
pub struct OraclePlan<N> {
    /// Planned power per session, kW (signed like a setpoint).
    pub schedule: Vec<Course<N>>,
    /// Planned objective value (includes unbilled terms).
    pub objective: N,
    /// Per DR event (input order): the committed firm level. Equal to the
    /// input `fsl_kw` unless `optimize_fsl` was set.
    pub committed_fsl_kw: Vec<N>,
    /// Per DR event: the counterfactual no-DR baseline in-window peak, kW
    /// (only computed when `optimize_fsl` is set; otherwise the input value).
    pub baseline_peak_kw: Vec<N>,
}

/// What a plan says.
#[verifier::ext_equal]
pub struct OraclePlanModel<N> {
    pub schedule: Seq<CourseModel<N>>,
    pub objective: N,
    pub committed_fsl_kw: Seq<N>,
    pub baseline_peak_kw: Seq<N>,
}

impl<N> View for OraclePlan<N> {
    type V = OraclePlanModel<N>;

    open spec fn view(&self) -> OraclePlanModel<N> {
        OraclePlanModel {
            schedule: courses_of(self.schedule@),
            objective: self.objective,
            committed_fsl_kw: self.committed_fsl_kw@,
            baseline_peak_kw: self.baseline_peak_kw@,
        }
    }
}

impl<N: Num> OraclePlan<N> {
    /// The planned power of a session in `slot`, kW; zero where nothing is planned.
    pub fn power_at(&self, vehicle_id: u32, arrival_slot: usize, slot: usize) -> (r: N)
        ensures
            r == planned_power(
                self@.schedule,
                vehicle_id,
                arrival_slot,
                slot,
                self@.schedule.len(),
            ),
    {
        let mut n: usize = self.schedule.len();
        while n > 0
            invariant
                n <= self.schedule@.len(),
                planned_power(
                    self@.schedule,
                    vehicle_id,
                    arrival_slot,
                    slot,
                    self@.schedule.len(),
                ) == planned_power(self@.schedule, vehicle_id, arrival_slot, slot, n as nat),
            decreases n,
        {
            let c = &self.schedule[n - 1];
            assert(self@.schedule[n - 1] == c@);
            if c.vehicle_id == vehicle_id && c.arrival_slot == arrival_slot && arrival_slot <= slot && slot
                - arrival_slot < c.power_kw.len() {
                return c.power_kw[slot - arrival_slot];
            }
            n = n - 1;
        }
        zero()
    }
}

/// Replay policy: executes a precomputed oracle plan through the normal
/// engine (which still clamps everything).
#[derive(Debug)]
pub struct OracleReplay<N> {
    pub plan: OraclePlan<N>,
}

/// The planned setpoints of the connected sessions.
pub open spec fn replayed<N: Num>(plan: OraclePlanModel<N>, obs: ObservationModel<N>) -> Seq<Setpoint<N>> {
    Seq::new(
        obs.sessions.len(),
        |i: int|
            Setpoint {
                session_index: obs.sessions[i].index,
                power_kw: planned_power(
                    plan.schedule,
                    obs.sessions[i].vehicle.vehicle_id,
                    obs.sessions[i].vehicle.arrival_slot,
                    obs.slot,
                    plan.schedule.len(),
                ),
            },
    )
}

impl<N: Num> Policy<N> for OracleReplay<N> {
    open spec fn title(&self) -> &'static str {
        "oracle"
    }

    open spec fn ready(&self) -> bool {
        true
    }

    open spec fn chooses(&self, obs: &Observation<N>, out: &Vec<Setpoint<N>>, after: &Self) -> bool {
        *after == *self && out@ == replayed(self.plan@, obs@)
    }

    fn name(&self) -> (r: &'static str) {
        "oracle"
    }

    fn decide(&mut self, obs: &Observation<N>) -> (out: Vec<Setpoint<N>>) {
        let ghost all = replayed(self.plan@, obs@);
        let mut out: Vec<Setpoint<N>> = Vec::new();
        for i in 0..obs.sessions.len()
            invariant
                all == replayed(self.plan@, obs@),
                out@ == all.take(i as int),
                *self == *old(self),
        {
            let s = &obs.sessions[i];
            let power_kw = self.plan.power_at(s.vehicle.vehicle_id, s.vehicle.arrival_slot, obs.slot);
            out.push(Setpoint { session_index: s.index, power_kw });
            assert(out@[i as int] == all[i as int]);
            assert(out@ =~= all.take(i + 1));
        }
        assert(all.take(all.len() as int) =~= all);
        out
    }
}

/// What an optimal point of the program says.
#[verifier::ext_equal]
pub struct SolvedPlan<N> {
    pub schedule: Seq<CourseModel<N>>,
    pub net_kw: Seq<N>,
    pub committed_fsl_kw: Seq<N>,
}

/// The course of the session at position `p`.
pub open spec fn course_at<N: Num>(sc: ScenarioModel<N>, values: Seq<N>, p: int) -> CourseModel<N> {
    let v = sc.vehicles[arrival_order(sc.vehicles)[p] as int];
    let base = places_of(0, session_spans(sc.vehicles))[p].base as int;
    CourseModel {
        vehicle_id: v.vehicle_id,
        arrival_slot: v.arrival_slot,
        power_kw: Seq::new(
            (v.departure_slot - v.arrival_slot) as nat,
            |k: int|
                values[base + 3 * k].minus(values[base + 3 * k + 1]).over(
                    slot_hours(sc.rules.slot_minutes),
                ),
        ),
    }
}

/// The schedule, the net loads and the firm levels that a point gives.
pub open spec fn solved_plan<N: Num>(
    sc: ScenarioModel<N>,
    config: OracleConfig<N>,
    with_dr: bool,
    bounds: Option<Seq<N>>,
    values: Seq<N>,
) -> SolvedPlan<N> {
    let levels = oracle_levels(sc, config, with_dr, bounds);
    let agg = oracle_blocks(sc, config).vars.len() as int;
    SolvedPlan {
        schedule: Seq::new(sc.vehicles.len(), |p: int| course_at(sc, values, p)),
        net_kw: Seq::new(sc.building.len(), |s: int| values[agg + s]),
        committed_fsl_kw: Seq::new(
            sc.events.len(),
            |i: int|
                match levels[i] {
                    Some(f) => values[f.0 as int],
                    None => sc.events[i].fsl_kw,
                },
        ),
    }
}

/// The schedule, objective, net loads and firm levels of a solved program.
#[derive(Debug)]
pub struct SolvedModel<N> {
    pub schedule: Vec<Course<N>>,
    pub objective: N,
    pub net_kw: Vec<N>,
    pub committed_fsl_kw: Vec<N>,
}

impl<N> SolvedModel<N> {
    /// What it says, apart from the objective.
    pub open spec fn plan(&self) -> SolvedPlan<N> {
        SolvedPlan {
            schedule: courses_of(self.schedule@),
            net_kw: self.net_kw@,
            committed_fsl_kw: self.committed_fsl_kw@,
        }
    }
}

/// The answer is an error, or not optimal: the error that comes of it.
pub open spec fn is_refusal<N>(answer: Result<Solution<N>, SolveError>, e: SolveError) -> bool {
    match answer {
        Ok(s) => s.status != SolStatus::Optimal && (e matches SolveError::Backend(m) && m@
            == "oracle LP not optimal"@),
        Err(x) => e == x,
    }
}

/// Whether the answer is an optimal point.
pub open spec fn is_optimal<N>(answer: Result<Solution<N>, SolveError>) -> bool {
    answer matches Ok(s) && s.status == SolStatus::Optimal
}

/// The course of the session at position `p`.
fn make_course<N: Num>(scenario: &Scenario<N>, problem: &OracleProblem<N>, values: &Vec<N>, p: usize) -> (c:
    Course<N>)
    requires
        is_plannable(scenario@),
        p < scenario@.vehicles.len(),
        problem.order@ == arrival_order(scenario@.vehicles),
        problem.order@.len() == scenario@.vehicles.len(),
        forall|k: int|
            0 <= k < problem.order@.len() ==> #[trigger] problem.order@[k] < scenario@.vehicles.len(),
        problem.places@ == places_of(0, session_spans(scenario@.vehicles)),
        are_placed(problem.places@, values@.len()),
    ensures
        c@ == course_at(scenario@, values@, p as int),
{
    let ghost sc = scenario@;
    let dt = scenario.manifest.slot_minutes.div(from_count(60));
    let row: usize = problem.order[p];
    let v = &scenario.vehicles[row];
    assert(sc.vehicles[row as int].arrival_slot < sc.vehicles[row as int].departure_slot);
    let place = problem.places[p];
    assert(is_placed(problem.places@[p as int], values@.len()));
    assert(values.len() <= usize::MAX);
    let ghost all = course_at(sc, values@, p as int).power_kw;
    let mut power_kw: Vec<N> = Vec::new();
    for k in 0..v.departure_slot - v.arrival_slot
        invariant
            dt == slot_hours(sc.rules.slot_minutes),
            *v == sc.vehicles[arrival_order(sc.vehicles)[p as int] as int],
            v.arrival_slot < v.departure_slot,
            place == places_of(0, session_spans(sc.vehicles))[p as int],
            p < sc.vehicles.len(),
            is_placed(place, values@.len()),
            values@.len() <= usize::MAX,
            all == course_at(sc, values@, p as int).power_kw,
            power_kw@ == all.take(k as int),
    {
        let i: usize = place.base + 3 * k;
        power_kw.push(values[i].sub(values[i + 1]).div(dt));
        assert(power_kw@[k as int] == all[k as int]);
        assert(power_kw@ =~= all.take(k + 1));
    }
    assert(all.take(all.len() as int) =~= all);
    let c = Course { vehicle_id: v.vehicle_id, arrival_slot: v.arrival_slot, power_kw };
    assert(c@ =~= course_at(sc, values@, p as int));
    c
}

/// Reads the solver's answer.
pub fn read_answer<N: Num>(
    scenario: &Scenario<N>,
    config: &OracleConfig<N>,
    with_dr: bool,
    bounds: Option<&Vec<N>>,
    problem: &OracleProblem<N>,
    answer: Result<Solution<N>, SolveError>,
) -> (r: Result<SolvedModel<N>, SolveError>)
    requires
        is_plannable(scenario@),
        problem.is_for(scenario@, *config, with_dr, listed(bounds)),
        answer matches Ok(s) ==> s.values@.len() == problem.model@.vars.len(),
    ensures
        r is Ok <==> is_optimal(answer),
        match r {
            Ok(s) => answer matches Ok(a) && s.objective == a.objective && s.plan() == solved_plan(
                scenario@,
                *config,
                with_dr,
                listed(bounds),
                a.values@,
            ),
            Err(e) => is_refusal(answer, e),
        },
{
    let ghost sc = scenario@;
    match answer {
        Err(e) => Err(e),
        Ok(solution) => {
            if solution.status != SolStatus::Optimal {
                return Err(SolveError::Backend("oracle LP not optimal".to_owned()));
            }
            let values = &solution.values;
            let ghost want = solved_plan(sc, *config, with_dr, listed(bounds), values@);
            assert(scenario.vehicles.len() <= usize::MAX);
            proof {
                crate::soundness::lemma_arrival_order(sc);
            }
            let mut schedule: Vec<Course<N>> = Vec::new();
            for p in 0..scenario.vehicles.len()
                invariant
                    sc == scenario@,
                    is_plannable(sc),
                    problem.is_for(sc, *config, with_dr, listed(bounds)),
                    arrival_order(sc.vehicles).len() == sc.vehicles.len(),
                    forall|k: int|
                        0 <= k < sc.vehicles.len() ==> #[trigger] arrival_order(sc.vehicles)[k]
                            < sc.vehicles.len(),
                    values@.len() == problem.model@.vars.len(),
                    want == solved_plan(sc, *config, with_dr, listed(bounds), values@),
                    courses_of(schedule@) == want.schedule.take(p as int),
                    schedule@.len() == p,
            {
                let c = make_course(scenario, problem, values, p);
                let ghost before = schedule@;
                schedule.push(c);
                assert(courses_of(schedule@) =~= courses_of(before).push(c@));
                assert(want.schedule[p as int] == c@);
                assert(courses_of(schedule@) =~= want.schedule.take(p + 1));
            }
            assert(want.schedule.take(want.schedule.len() as int) =~= want.schedule);
            let mut net_kw: Vec<N> = Vec::new();
            for s in 0..scenario.building_load_kw.len()
                invariant
                    sc == scenario@,
                    problem.is_for(sc, *config, with_dr, listed(bounds)),
                    values@.len() == problem.model@.vars.len(),
                    want == solved_plan(sc, *config, with_dr, listed(bounds), values@),
                    net_kw@ == want.net_kw.take(s as int),
            {
                assert(values.len() <= usize::MAX);
                net_kw.push(values[problem.agg + s]);
                assert(net_kw@ =~= want.net_kw.take(s + 1));
            }
            assert(want.net_kw.take(want.net_kw.len() as int) =~= want.net_kw);
            let mut committed_fsl_kw: Vec<N> = Vec::new();
            for i in 0..scenario.dr_events.len()
                invariant
                    sc == scenario@,
                    problem.is_for(sc, *config, with_dr, listed(bounds)),
                    values@.len() == problem.model@.vars.len(),
                    want == solved_plan(sc, *config, with_dr, listed(bounds), values@),
                    committed_fsl_kw@ == want.committed_fsl_kw.take(i as int),
            {
                assert(problem.levels@.len() == sc.events.len());
                let level: Option<VarId> = problem.levels[i];
                assert(problem.levels@[i as int] matches Some(f) ==> f.0 < problem.model@.vars.len());
                let f: N = match level {
                    Some(f) => values[f.0],
                    None => scenario.dr_events[i].fsl_kw,
                };
                committed_fsl_kw.push(f);
                assert(committed_fsl_kw@[i as int] == want.committed_fsl_kw[i as int]);
                assert(committed_fsl_kw@ =~= want.committed_fsl_kw.take(i + 1));
            }
            assert(want.committed_fsl_kw.take(want.committed_fsl_kw.len() as int)
                =~= want.committed_fsl_kw);
            let r = SolvedModel {
                schedule,
                objective: solution.objective,
                net_kw,
                committed_fsl_kw,
            };
            assert(r.plan() =~= want);
            Ok(r)
        },
    }
}

/// The largest of the first `n` net loads inside the window of `event`, zero
/// at least, kW.
pub open spec fn window_peak<N: Num>(event: DrEvent<N>, net_kw: Seq<N>, n: nat) -> N
    decreases n,
{
    if n == 0 {
        zero_of()
    } else {
        let before = window_peak(event, net_kw, (n - 1) as nat);
        if event.covers(n - 1) {
            before.greater(net_kw[n - 1])
        } else {
            before
        }
    }
}

/// Energy of the first `n` slots above the level `f` inside the window, kWh.
pub open spec fn window_overflow<N: Num>(event: DrEvent<N>, net_kw: Seq<N>, f: N, dt: N, n: nat) -> N
    decreases n,
{
    if n == 0 {
        zero_of()
    } else {
        let before = window_overflow(event, net_kw, f, dt, (n - 1) as nat);
        if event.covers(n - 1) {
            before.plus(net_kw[n - 1].minus(f).greater(zero_of()).times(dt))
        } else {
            before
        }
    }
}

/// What committing to the level `f` costs given the net loads: the penalty,
/// minus the incentive that is paid only on an honored window.
pub open spec fn gated_cost<N: Num>(event: DrEvent<N>, net_kw: Seq<N>, baseline_kw: N, f: N, dt: N) -> N {
    let over = window_overflow(event, net_kw, f, dt, net_kw.len());
    event.penalty_usd_per_kwh.times(over).minus(
        if over.at_most(N::rational(1, 1_000_000_000)) {
            event.incentive_usd_per_kw.times(baseline_kw.minus(f).greater(zero_of()))
        } else {
            zero_of()
        },
    )
}

/// The better commitment of the planned level `f` and the realized in-window
/// peak, which honors the window by construction.
pub open spec fn adjusted_level<N: Num>(event: DrEvent<N>, net_kw: Seq<N>, baseline_kw: N, f: N, dt: N) -> N {
    let realized = window_peak(event, net_kw, net_kw.len());
    if gated_cost(event, net_kw, baseline_kw, realized, dt).below(
        gated_cost(event, net_kw, baseline_kw, f, dt),
    ) {
        realized
    } else {
        f
    }
}

/// The in-window peaks of the events.
pub open spec fn window_peaks<N: Num>(events: Seq<DrEvent<N>>, net_kw: Seq<N>) -> Seq<N> {
    Seq::new(events.len(), |i: int| window_peak(events[i], net_kw, net_kw.len()))
}

/// The baselines that the events declare.
pub open spec fn declared_baselines<N: Num>(events: Seq<DrEvent<N>>) -> Seq<N> {
    Seq::new(events.len(), |i: int| events[i].baseline_kw)
}

/// The plan that a solved program gives under the given baselines.
pub open spec fn plan_from<N: Num>(
    sc: ScenarioModel<N>,
    config: OracleConfig<N>,
    baseline: Seq<N>,
    solved: SolvedPlan<N>,
    objective: N,
) -> OraclePlanModel<N> {
    let dt = slot_hours(sc.rules.slot_minutes);
    OraclePlanModel {
        schedule: solved.schedule,
        objective,
        committed_fsl_kw: if config.optimize_fsl {
            Seq::new(
                sc.events.len(),
                |i: int|
                    adjusted_level(
                        sc.events[i],
                        solved.net_kw,
                        baseline[i],
                        solved.committed_fsl_kw[i],
                        dt,
                    ),
            )
        } else {
            solved.committed_fsl_kw
        },
        baseline_peak_kw: baseline,
    }
}

fn find_window_peak<N: Num>(event: &DrEvent<N>, net_kw: &Vec<N>) -> (r: N)
    ensures
        r == window_peak(*event, net_kw@, net_kw@.len()),
{
    let mut peak: N = zero();
    for s in 0..net_kw.len()
        invariant
            peak == window_peak(*event, net_kw@, s as nat),
    {
        if event.contains(s) {
            peak = peak.max(net_kw[s]);
        }
    }
    peak
}

fn find_gated_cost<N: Num>(event: &DrEvent<N>, net_kw: &Vec<N>, baseline_kw: N, f: N, dt: N) -> (r: N)
    ensures
        r == gated_cost(*event, net_kw@, baseline_kw, f, dt),
{
    let mut over: N = zero();
    for s in 0..net_kw.len()
        invariant
            over == window_overflow(*event, net_kw@, f, dt, s as nat),
    {
        if event.contains(s) {
            over = over.add(net_kw[s].sub(f).max(zero()).mul(dt));
        }
    }
    let paid: N = if over.le(N::ratio(1, 1_000_000_000)) {
        event.incentive_usd_per_kw.mul(baseline_kw.sub(f).max(zero()))
    } else {
        zero()
    };
    event.penalty_usd_per_kwh.mul(over).sub(paid)
}

/// The in-window peaks of the events.
fn find_window_peaks<N: Num>(events: &Vec<DrEvent<N>>, net_kw: &Vec<N>) -> (r: Vec<N>)
    ensures
        r@ == window_peaks(events@, net_kw@),
{
    let mut out: Vec<N> = Vec::new();
    for i in 0..events.len()
        invariant
            out@ == window_peaks(events@, net_kw@).take(i as int),
    {
        out.push(find_window_peak(&events[i], net_kw));
        assert(out@ =~= window_peaks(events@, net_kw@).take(i + 1));
    }
    assert(out@ =~= window_peaks(events@, net_kw@));
    out
}

/// The plan that a solved program gives. Under FSL optimization the program
/// prices the incentive linearly, but the billing layer pays it ALL-OR-NOTHING
/// on a honored window: on short windows the program may commit below the
/// coverable level (a few slots of penalty look cheaper than the one-shot
/// incentive forgone). So each event's gated cost at the program's level is
/// held against that at the realized in-window peak, and the cheaper commitment
/// is kept.
pub fn assemble<N: Num>(
    scenario: &Scenario<N>,
    config: &OracleConfig<N>,
    baseline_peak_kw: Vec<N>,
    solved: SolvedModel<N>,
) -> (r: OraclePlan<N>)
    requires
        baseline_peak_kw@.len() == scenario@.events.len(),
        solved.committed_fsl_kw@.len() == scenario@.events.len(),
    ensures
        r@ == plan_from(scenario@, *config, baseline_peak_kw@, solved.plan(), solved.objective),
{
    let ghost sc = scenario@;
    let ghost want = plan_from(sc, *config, baseline_peak_kw@, solved.plan(), solved.objective);
    let dt = scenario.manifest.slot_minutes.div(from_count(60));
    let mut committed: Vec<N> = Vec::new();
    for i in 0..scenario.dr_events.len()
        invariant
            sc == scenario@,
            dt == slot_hours(sc.rules.slot_minutes),
            baseline_peak_kw@.len() == sc.events.len(),
            solved.committed_fsl_kw@.len() == sc.events.len(),
            want == plan_from(sc, *config, baseline_peak_kw@, solved.plan(), solved.objective),
            committed@ == want.committed_fsl_kw.take(i as int),
    {
        let mut level: N = solved.committed_fsl_kw[i];
        if config.optimize_fsl {
            let event = &scenario.dr_events[i];
            let realized = find_window_peak(event, &solved.net_kw);
            let at_peak = find_gated_cost(event, &solved.net_kw, baseline_peak_kw[i], realized, dt);
            let at_level = find_gated_cost(event, &solved.net_kw, baseline_peak_kw[i], level, dt);
            if at_peak.lt(at_level) {
                level = realized;
            }
        }
        committed.push(level);
        assert(committed@[i as int] == want.committed_fsl_kw[i as int]);
        assert(committed@ =~= want.committed_fsl_kw.take(i + 1));
    }
    assert(want.committed_fsl_kw.take(want.committed_fsl_kw.len() as int) =~= want.committed_fsl_kw);
    let r = OraclePlan {
        schedule: solved.schedule,
        objective: solved.objective,
        committed_fsl_kw: committed,
        baseline_peak_kw,
    };
    assert(r@ =~= want);
    r
}

/// The solver may answer the program with `answer`.
pub open spec fn may_get<N: Num, B: MilpBackend<N>>(
    backend: B,
    program: Program<N>,
    answer: Result<Solution<N>, SolveError>,
) -> bool {
    exists|model: Model<N>| model@ == program && #[trigger] backend.answers(&model, &answer)
}

/// `r` comes of the main solve under the given baselines.
pub open spec fn main_outcome<N: Num, B: MilpBackend<N>>(
    sc: ScenarioModel<N>,
    backend: B,
    config: OracleConfig<N>,
    baseline: Seq<N>,
    answer: Result<Solution<N>, SolveError>,
    r: Result<OraclePlan<N>, SolveError>,
) -> bool {
    let bounds = if config.optimize_fsl {
        Some(baseline)
    } else {
        None
    };
    &&& may_get(backend, oracle_program(sc, config, true, bounds), answer)
    &&& match r {
        Ok(plan) => is_optimal(answer) && plan@ == plan_from(
            sc,
            config,
            baseline,
            solved_plan(sc, config, true, bounds, answer->Ok_0.values@),
            answer->Ok_0.objective,
        ),
        Err(e) => is_refusal(answer, e),
    }
}

/// `r` comes of the counterfactual solve without DR terms (only for FSL
/// optimization), answered by `base`, and of the main solve.
pub open spec fn oracle_outcome<N: Num, B: MilpBackend<N>>(
    sc: ScenarioModel<N>,
    backend: B,
    config: OracleConfig<N>,
    base: Result<Solution<N>, SolveError>,
    answer: Result<Solution<N>, SolveError>,
    r: Result<OraclePlan<N>, SolveError>,
) -> bool {
    if config.optimize_fsl {
        &&& may_get(backend, oracle_program(sc, config, false, None), base)
        &&& if is_optimal(base) {
            let net = solved_plan(sc, config, false, None, base->Ok_0.values@).net_kw;
            main_outcome(sc, backend, config, window_peaks(sc.events, net), answer, r)
        } else {
            r matches Err(e) && is_refusal(base, e)
        }
    } else {
        main_outcome(sc, backend, config, declared_baselines(sc.events), answer, r)
    }
}

/// What the oracle may return: the scope issue where there is one, else what
/// comes of the solver's answers.
pub open spec fn is_oracle_result<N: Num, B: MilpBackend<N>>(
    sc: ScenarioModel<N>,
    backend: B,
    config: OracleConfig<N>,
    r: Result<OraclePlan<N>, SolveError>,
) -> bool {
    match scope_issue(sc) {
        Some(issue) => r matches Err(SolveError::Backend(m)) && m@ == scope_text(issue),
        None => exists|base: Result<Solution<N>, SolveError>, answer: Result<Solution<N>, SolveError>|
            #[trigger] oracle_outcome(sc, backend, config, base, answer, r),
    }
}

/// Build and solve the full-horizon LP.
fn build_and_solve<N: Num, B: MilpBackend<N>>(
    scenario: &Scenario<N>,
    backend: &B,
    config: &OracleConfig<N>,
    with_dr: bool,
    bounds: Option<&Vec<N>>,
) -> (r: (Result<SolvedModel<N>, SolveError>, Ghost<Result<Solution<N>, SolveError>>))
    requires
        is_plannable(scenario@),
        scenario@.chargers.len() > 0,
        bounds matches Some(b) ==> b@.len() == scenario@.events.len(),
    ensures
        may_get(*backend, oracle_program(scenario@, *config, with_dr, listed(bounds)), r.1@),
        r.0 is Ok <==> is_optimal(r.1@),
        match r.0 {
            Ok(s) => r.1@ matches Ok(a) && s.objective == a.objective && s.plan() == solved_plan(
                scenario@,
                *config,
                with_dr,
                listed(bounds),
                a.values@,
            ),
            Err(e) => is_refusal(r.1@, e),
        },
{
    let problem = build(scenario, config, with_dr, bounds);
    let answer = backend.solve(&problem.model);
    let ghost seen = answer;
    assert(may_get(*backend, problem.model@, seen));
    (read_answer(scenario, config, with_dr, bounds, &problem, answer), Ghost(seen))
}

/// Solve the full-horizon problem. See module docs for scope restrictions.
pub fn solve_oracle<N: Num, B: MilpBackend<N>>(
    scenario: &Scenario<N>,
    backend: &B,
    config: &OracleConfig<N>,
) -> (r: Result<OraclePlan<N>, SolveError>)
    requires
        is_plannable(scenario@),
    ensures
        is_oracle_result(scenario@, *backend, *config, r),
{
    let issue: Option<ScopeIssue> = check_scope(scenario);
    match issue {
        Some(issue) => {
            return Err(SolveError::Backend(issue.text()));
        },
        None => {},
    }
    let ghost sc = scenario@;
    // Pass 1 (only for FSL optimization): the counterfactual baseline solve
    // with an empty DR slot set. Its in-window peak bounds the commitment.
    let ghost mut base: Result<Solution<N>, SolveError> = arbitrary();
    let mut baseline_peak_kw: Vec<N> = Vec::new();
    if config.optimize_fsl {
        let (first, Ghost(seen)) = build_and_solve(scenario, backend, config, false, None);
        proof {
            base = seen;
        }
        match first {
            Ok(solved) => {
                baseline_peak_kw = find_window_peaks(&scenario.dr_events, &solved.net_kw);
                assert(solved.plan().net_kw == solved.net_kw@);
            },
            Err(e) => {
                let r: Result<OraclePlan<N>, SolveError> = Err(e);
                assert(oracle_outcome(sc, *backend, *config, base, base, r));
                return r;
            },
        }
    } else {
        for i in 0..scenario.dr_events.len()
            invariant
                sc == scenario@,
                baseline_peak_kw@ == declared_baselines(sc.events).take(i as int),
        {
            baseline_peak_kw.push(scenario.dr_events[i].baseline_kw);
            assert(baseline_peak_kw@ =~= declared_baselines(sc.events).take(i + 1));
        }
        assert(baseline_peak_kw@ =~= declared_baselines(sc.events));
    }
    let bounds: Option<&Vec<N>> = if config.optimize_fsl {
        Some(&baseline_peak_kw)
    } else {
        None
    };
    let (main, Ghost(answer)) = build_and_solve(scenario, backend, config, true, bounds);
    match main {
        Ok(solved) => {
            assert(solved.plan().committed_fsl_kw == solved.committed_fsl_kw@);
            let plan = assemble(scenario, config, baseline_peak_kw, solved);
            let r: Result<OraclePlan<N>, SolveError> = Ok(plan);
            assert(oracle_outcome(sc, *backend, *config, base, answer, r));
            r
        },
        Err(e) => {
            let r: Result<OraclePlan<N>, SolveError> = Err(e);
            assert(oracle_outcome(sc, *backend, *config, base, answer, r));
            r
        },
    }
}

/// The events with the levels and baselines of a plan.
pub open spec fn committed_events<N: Num>(events: Seq<DrEvent<N>>, plan: OraclePlanModel<N>) -> Seq<
    DrEvent<N>,
> {
    Seq::new(
        events.len(),
        |i: int|
            DrEvent {
                fsl_kw: plan.committed_fsl_kw[i],
                baseline_kw: plan.baseline_peak_kw[i],
                ..events[i]
            },
    )
}

impl<N: Num> OraclePlan<N> {
    /// The events with the plan's levels and baselines, for a simulation under
    /// the commitment.
    pub fn commit(&self, events: &Vec<DrEvent<N>>) -> (r: Vec<DrEvent<N>>)
        requires
            self.committed_fsl_kw@.len() == events@.len(),
            self.baseline_peak_kw@.len() == events@.len(),
        ensures
            r@ == committed_events(events@, self@),
    {
        let mut out: Vec<DrEvent<N>> = Vec::new();
        for i in 0..events.len()
            invariant
                self.committed_fsl_kw@.len() == events@.len(),
                self.baseline_peak_kw@.len() == events@.len(),
                out@ == committed_events(events@, self@).take(i as int),
        {
            let mut e: DrEvent<N> = events[i];
            e.fsl_kw = self.committed_fsl_kw[i];
            e.baseline_kw = self.baseline_peak_kw[i];
            out.push(e);
            assert(out@[i as int] == committed_events(events@, self@)[i as int]);
            assert(out@ =~= committed_events(events@, self@).take(i + 1));
        }
        assert(out@ =~= committed_events(events@, self@));
        out
    }
}

// -------------------------------------------------------------------- laws

/// The planned net loads are finite and not negative.
pub open spec fn are_loads<N: Num>(value: spec_fn(N) -> real, net_kw: Seq<N>) -> bool {
    forall|s: int| 0 <= s < net_kw.len() ==> (#[trigger] net_kw[s]).finite() && 0real <= value(net_kw[s])
}

proof fn lemma_window_peak<N: Num>(
    value: spec_fn(N) -> real,
    unit: real,
    event: DrEvent<N>,
    net_kw: Seq<N>,
    n: nat,
)
    requires
        rounds_toward_zero(value, unit),
        are_loads(value, net_kw),
        n <= net_kw.len(),
    ensures
        window_peak(event, net_kw, n).finite(),
        0real <= value(window_peak(event, net_kw, n)),
        forall|s: int|
            0 <= s < n && event.covers(s) ==> value(#[trigger] net_kw[s]) <= value(
                window_peak(event, net_kw, n),
            ),
    decreases n,
{
    lemma_constants(value, unit);
    if n > 0 {
        let before = window_peak(event, net_kw, (n - 1) as nat);
        let last = net_kw[n - 1];
        lemma_window_peak(value, unit, event, net_kw, (n - 1) as nat);
        lemma_finite(value, unit, before);
        lemma_finite(value, unit, last);
        lemma_compare(value, unit, before, last);
        if event.covers(n - 1) {
            lemma_fitting(value, unit, before.greater(last));
        }
    }
}

proof fn lemma_no_overflow<N: Num>(
    value: spec_fn(N) -> real,
    unit: real,
    event: DrEvent<N>,
    net_kw: Seq<N>,
    f: N,
    dt: N,
    n: nat,
)
    requires
        rounds_toward_zero(value, unit),
        are_loads(value, net_kw),
        n <= net_kw.len(),
        f.finite(),
        forall|s: int| 0 <= s < n && event.covers(s) ==> value(#[trigger] net_kw[s]) <= value(f),
        dt.finite(),
        0real <= value(dt),
    ensures
        window_overflow(event, net_kw, f, dt, n).finite(),
        value(window_overflow(event, net_kw, f, dt, n)) == 0real,
    decreases n,
{
    lemma_constants(value, unit);
    if n > 0 {
        lemma_no_overflow(value, unit, event, net_kw, f, dt, (n - 1) as nat);
        if event.covers(n - 1) {
            let net = net_kw[n - 1];
            let zero = zero_of::<N>();
            lemma_finite(value, unit, f);
            lemma_finite(value, unit, zero);
            lemma_closer_fits(value, value(net) - value(f), value(f));
            lemma_minus(value, unit, net, f);
            lemma_finite(value, unit, net.minus(f));
            lemma_compare(value, unit, net.minus(f), zero);
            let above = net.minus(f).greater(zero);
            lemma_fitting(value, unit, above);
            assert(0real * value(dt) == 0real) by (nonlinear_arith);
            lemma_times(value, unit, above, dt);
            lemma_plus(
                value,
                unit,
                window_overflow(event, net_kw, f, dt, (n - 1) as nat),
                above.times(dt),
            );
        }
    }
}

/// Committing to the realized in-window peak honors the window: no planned load
/// lies above it, and the overflow is zero.
pub proof fn the_realized_peak_honors_the_window<N: Num>(
    value: spec_fn(N) -> real,
    unit: real,
    event: DrEvent<N>,
    net_kw: Seq<N>,
    dt: N,
)
    requires
        rounds_toward_zero(value, unit),
        are_loads(value, net_kw),
        dt.finite(),
        0real <= value(dt),
    ensures
        ({
            let f = window_peak(event, net_kw, net_kw.len());
            let over = window_overflow(event, net_kw, f, dt, net_kw.len());
            &&& forall|s: int|
                0 <= s < net_kw.len() && event.covers(s) ==> value(#[trigger] net_kw[s]) <= value(f)
            &&& value(over) == 0real
            &&& over.at_most(N::rational(1, 1_000_000_000))
        }),
{
    lemma_constants(value, unit);
    let n = net_kw.len();
    let f = window_peak(event, net_kw, n);
    lemma_window_peak(value, unit, event, net_kw, n);
    lemma_no_overflow(value, unit, event, net_kw, f, dt, n);
    let over = window_overflow(event, net_kw, f, dt, n);
    lemma_finite(value, unit, over);
    lemma_compare(value, unit, over, N::rational(1, 1_000_000_000));
}

/// The commitment that is kept costs no more than the planned level, nor more
/// than the realized in-window peak.
pub proof fn the_cheaper_commitment_is_kept<N: Num>(
    value: spec_fn(N) -> real,
    unit: real,
    event: DrEvent<N>,
    net_kw: Seq<N>,
    baseline_kw: N,
    f: N,
    dt: N,
)
    requires
        rounds_toward_zero(value, unit),
        is_number(gated_cost(event, net_kw, baseline_kw, f, dt)),
        is_number(
            gated_cost(event, net_kw, baseline_kw, window_peak(event, net_kw, net_kw.len()), dt),
        ),
    ensures
        ({
            let realized = window_peak(event, net_kw, net_kw.len());
            let kept = adjusted_level(event, net_kw, baseline_kw, f, dt);
            let cost = value(gated_cost(event, net_kw, baseline_kw, kept, dt));
            &&& kept == f || kept == realized
            &&& cost <= value(gated_cost(event, net_kw, baseline_kw, f, dt))
            &&& cost <= value(gated_cost(event, net_kw, baseline_kw, realized, dt))
        }),
{
    let realized = window_peak(event, net_kw, net_kw.len());
    lemma_compare(
        value,
        unit,
        gated_cost(event, net_kw, baseline_kw, realized, dt),
        gated_cost(event, net_kw, baseline_kw, f, dt),
    );
}

} // verus!
