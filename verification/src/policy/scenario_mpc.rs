//! Scenario-MPC: the receding-horizon controller with K sampled futures.
//!
//! - K scenarios = K historical episodes: each contributes its own FUTURE
//!   sessions (arrivals after the current slot, inside the horizon) AND its own
//!   building-load series, while the currently-connected sessions are shared.
//!   The controller does not assume it knows tomorrow's load, only that it looks
//!   like a historical day. Set `building_from_futures = false` to plan against
//!   the past-only forecast instead.
//! - Horizon sawtooth: plan through the END OF THE NEXT DAY (1.0-2.0 days),
//!   never a fixed window.
//! - The objective is the UNNORMALIZED sum over scenarios (K x the mean); it is
//!   not divided by K.
//! - Non-anticipativity: the first-slot rates of connected sessions are tied
//!   across scenarios; only scenario 0's first slot is committed.
//! - `p_max` carries a realized-history lower bound, ratcheted upward after
//!   each committed slot whose TOU class is peak.
//! - Ramp (default 1.25 kWh/slot) bounds consecutive-slot swings.
//! - Shortfall slack at 1e6 $/kWh; battery wear at 0.05 $/kWh on discharge; no
//!   DR overflow term and no TOU discharge floor.
//!
//! Documented approximation: future sessions come wholesale from each training
//! episode, and in-plan charger contention is not modeled.

use vstd::prelude::*;

use crate::milp::{
    continuous, is_repeatable, row, same_answer, var, MilpBackend, Model, Program, RowModel, Sense, SolStatus,
    Solution, SolveError, VarId,
};
use crate::num::{count, from_count, minus_one, minus_one_of, one, one_of, zero, zero_of, Num};
use crate::order::{sort, stable_order, Rank};
use crate::policy::formulation::{
    add_envelope, add_visit, agg_bound, agg_terms, are_placed, block_base, block_size, envelope_row, is_placed,
    label, lemma_agg_terms, lemma_block_base, lemma_more_rows, lemma_more_vars, lemma_placed_later, lemma_places,
    lemma_with_visits, make_agg_bound, make_agg_terms, make_label, make_numbered, make_tagged, place_of, places_of,
    spans_of, start_fits, stored, with_all_visits, with_visits, Place, PlanRates, Span, Start, Visit, VisitModel,
};
use crate::policy::mpc::{
    agree_up_to_now, first_power, forecasts_see_no_future_load, optimal_point, reach_needed, slot_hours, terminal_need,
};
use crate::policy::Policy;
use crate::rounding::{is_number, lemma_compare, lemma_constants, rounds_toward_zero};
use crate::scenario::{Scenario, ScenarioModel, TouClass, Vehicle};
use crate::state::{Observation, ObservationModel, SessionView, Setpoint};
use crate::text::{decimal, push_usize};

verus! {

#[derive(Debug, Clone)]
pub struct ScenarioMpcConfig<N> {
    /// Sampled-future sources (historical episodes).
    pub futures: Vec<Scenario<N>>,
    /// Ramp bound between consecutive slots, kWh/slot.
    pub ramp_kwh_per_slot: Option<N>,
    pub shortfall_usd_per_kwh: N,
    pub degradation_usd_per_kwh: N,
    /// Slots per day for the horizon sawtooth (96 at 15-minute slots).
    pub slots_per_day: usize,
    /// The peak variable carries a realized-history lower bound that ratchets
    /// upward. Disable to let every solve price the full peak (diagnostic mode).
    pub use_peak_history: bool,
    /// Each scenario plans against ITS OWN episode's building-load series
    /// (the load is sampled, not known). False falls back to the past-only
    /// daily-persistence forecast. Neither setting reads the realized future
    /// series: no planner in this crate is given perfect building foresight.
    pub building_from_futures: bool,
    /// The test episode's session rows, used ONLY to source the
    /// between-visit consumption (`depletion_kwh`) of sampled future
    /// sessions belonging to tracked identities, matched by (identity,
    /// session index).
    ///
    /// NOTE: this is a real information leak: the planner learns how far each
    /// car will actually be driven before its next visit. Leave empty to keep
    /// the honest behavior (use the sampled episode's own consumption).
    pub test_sessions: Vec<Vehicle<N>>,
}

/// What a configuration says.
#[verifier::ext_equal]
pub struct ScenarioMpcRules<N> {
    pub futures: Seq<ScenarioModel<N>>,
    pub ramp_kwh_per_slot: Option<N>,
    pub shortfall_usd_per_kwh: N,
    pub degradation_usd_per_kwh: N,
    pub slots_per_day: usize,
    pub use_peak_history: bool,
    pub building_from_futures: bool,
    pub test_sessions: Seq<Vehicle<N>>,
}

impl<N> View for ScenarioMpcConfig<N> {
    type V = ScenarioMpcRules<N>;

    open spec fn view(&self) -> ScenarioMpcRules<N> {
        ScenarioMpcRules {
            futures: Seq::new(self.futures@.len(), |k: int| self.futures@[k]@),
            ramp_kwh_per_slot: self.ramp_kwh_per_slot,
            shortfall_usd_per_kwh: self.shortfall_usd_per_kwh,
            degradation_usd_per_kwh: self.degradation_usd_per_kwh,
            slots_per_day: self.slots_per_day,
            use_peak_history: self.use_peak_history,
            building_from_futures: self.building_from_futures,
            test_sessions: self.test_sessions@,
        }
    }
}

impl<N: Num> ScenarioMpcConfig<N> {
    pub fn new(futures: Vec<Scenario<N>>) -> (r: Self)
        ensures
            r.futures == futures,
            r.ramp_kwh_per_slot == Some(N::rational(5, 4)),
            r.shortfall_usd_per_kwh == count::<N>(1_000_000),
            r.degradation_usd_per_kwh == N::rational(1, 20),
            r.slots_per_day == 96,
            r.use_peak_history,
            r.building_from_futures,
            r.test_sessions@.len() == 0,
    {
        ScenarioMpcConfig {
            futures,
            ramp_kwh_per_slot: Some(N::ratio(5, 4)),
            shortfall_usd_per_kwh: N::ratio(1_000_000, 1),
            degradation_usd_per_kwh: N::ratio(1, 20),
            slots_per_day: 96,
            use_peak_history: true,
            building_from_futures: true,
            test_sessions: Vec::new(),
        }
    }
}

/// One planned session (connected or sampled-future) inside one scenario.
#[derive(Debug, Clone, Copy, PartialEq)]
pub struct Entry<N> {
    /// Index into the observation's sessions for connected sessions; none for
    /// futures.
    pub view_index: Option<usize>,
    pub first_slot: usize,
    /// Inclusive.
    pub last_slot: usize,
    pub anchor_soc_kwh: N,
    /// Terminal requirement after horizon truncation.
    pub reach_needed_kwh: N,
    pub floor_kwh: N,
    pub ceiling_kwh: N,
    pub max_charge_kw: N,
    pub max_discharge_kw: N,
    pub vehicle_id: u32,
    pub depletion_kwh: N,
}

/// The first slot that is not planned: the end of the next day, or of the
/// series.
pub open spec fn sawtooth_end<N: Num>(config: ScenarioMpcRules<N>, obs: ObservationModel<N>) -> int {
    let day_end = (obs.slot as int / config.slots_per_day as int + 2) * config.slots_per_day;
    if day_end < obs.building_series.len() {
        day_end
    } else {
        obs.building_series.len() as int
    }
}

/// The number of scenarios: one per future, one without futures.
pub open spec fn scenario_count<N: Num>(config: ScenarioMpcRules<N>) -> nat {
    if config.futures.len() == 0 {
        1
    } else {
        config.futures.len()
    }
}

/// A connected session in a plan up to `end`.
pub open spec fn connected_entry<N: Num>(
    obs: ObservationModel<N>,
    view: SessionView<N>,
    end: int,
) -> Entry<N> {
    let v = view.vehicle;
    let last = if v.departure_slot < end {
        v.departure_slot - 1
    } else {
        end - 1
    };
    Entry {
        view_index: Some(view.index),
        first_slot: obs.slot,
        last_slot: last as usize,
        anchor_soc_kwh: view.soc_kwh,
        reach_needed_kwh: terminal_need(
            v.soc_target_kwh,
            v.departure_slot,
            last,
            view.max_charge_kw,
            slot_hours(obs.slot_minutes),
            obs.charge_efficiency,
            v.min_soc_kwh,
        ),
        floor_kwh: v.min_soc_kwh,
        ceiling_kwh: v.ceiling(),
        max_charge_kw: view.max_charge_kw,
        max_discharge_kw: view.max_discharge_kw,
        vehicle_id: v.vehicle_id,
        depletion_kwh: zero_of(),
    }
}

/// The rank of a session within an episode: by vehicle, then by arrival slot.
pub open spec fn visit_rank<N>(v: Vehicle<N>) -> Rank {
    Rank { major: v.vehicle_id as u64, middle: v.arrival_slot as u64, minor: 0 }
}

/// The sessions of an episode by vehicle and arrival slot.
pub open spec fn visit_order<N>(vehicles: Seq<Vehicle<N>>) -> Seq<usize> {
    stable_order(Seq::new(vehicles.len(), |i: int| visit_rank(vehicles[i])))
}

/// Which visit of its vehicle stands at position `p` of `order`, in which the
/// visits of one vehicle stand together.
pub open spec fn visit_number<N>(vehicles: Seq<Vehicle<N>>, order: Seq<usize>, p: int) -> nat
    decreases p,
{
    if p > 0 && vehicles[order[p - 1] as int].vehicle_id == vehicles[order[p] as int].vehicle_id {
        visit_number(vehicles, order, p - 1) + 1
    } else {
        0
    }
}

/// The depletion before visit `number` of vehicle `id`, among the first `n`
/// positions of `order`.
pub open spec fn known_depletion<N>(
    vehicles: Seq<Vehicle<N>>,
    order: Seq<usize>,
    id: u32,
    number: nat,
    n: nat,
) -> Option<N>
    decreases n,
{
    if n == 0 {
        None
    } else {
        let v = vehicles[order[n - 1] as int];
        if v.vehicle_id == id && visit_number(vehicles, order, n - 1) == number {
            Some(v.depletion_kwh)
        } else {
            known_depletion(vehicles, order, id, number, (n - 1) as nat)
        }
    }
}

/// A connected session of the vehicle is still here when `v` arrives: `v` is
/// that car's present visit as the episode saw it, not a future one.
pub open spec fn is_present_visit<N>(sessions: Seq<SessionView<N>>, v: Vehicle<N>) -> bool {
    exists|i: int|
        0 <= i < sessions.len() && (#[trigger] sessions[i]).vehicle.vehicle_id == v.vehicle_id
            && v.arrival_slot < sessions[i].vehicle.departure_slot
}

/// The session of an episode belongs into a plan up to `end`: it arrives later
/// and departs inside the plan, and is not the present visit of a connected car.
pub open spec fn is_future<N: Num>(obs: ObservationModel<N>, v: Vehicle<N>, end: int) -> bool {
    &&& v.arrival_slot > obs.slot
    &&& v.departure_slot < end
    &&& v.arrival_slot < v.departure_slot
    &&& !is_present_visit(obs.sessions, v)
}

/// The session at position `p` of an episode as a planned future one.
pub open spec fn future_entry<N: Num>(
    config: ScenarioMpcRules<N>,
    obs: ObservationModel<N>,
    vehicles: Seq<Vehicle<N>>,
    p: int,
) -> Entry<N> {
    let order = visit_order(vehicles);
    let v = vehicles[order[p] as int];
    let known = known_depletion(
        config.test_sessions,
        visit_order(config.test_sessions),
        v.vehicle_id,
        visit_number(vehicles, order, p),
        config.test_sessions.len(),
    );
    Entry {
        view_index: None,
        first_slot: v.arrival_slot,
        last_slot: (v.departure_slot - 1) as usize,
        anchor_soc_kwh: v.soc_arrival_kwh,
        reach_needed_kwh: terminal_need(
            v.soc_target_kwh,
            v.departure_slot,
            v.departure_slot - 1,
            v.max_charge_kw,
            slot_hours(obs.slot_minutes),
            obs.charge_efficiency,
            v.min_soc_kwh,
        ),
        floor_kwh: v.min_soc_kwh,
        ceiling_kwh: v.ceiling(),
        max_charge_kw: v.max_charge_kw,
        max_discharge_kw: v.max_discharge_kw,
        vehicle_id: v.vehicle_id,
        depletion_kwh: match known {
            Some(d) => d,
            None => v.depletion_kwh,
        },
    }
}

/// The planned future sessions among the first `n` positions of an episode.
pub open spec fn future_entries<N: Num>(
    config: ScenarioMpcRules<N>,
    obs: ObservationModel<N>,
    vehicles: Seq<Vehicle<N>>,
    n: nat,
) -> Seq<Entry<N>>
    decreases n,
{
    if n == 0 {
        Seq::empty()
    } else {
        let before = future_entries(config, obs, vehicles, (n - 1) as nat);
        let v = vehicles[visit_order(vehicles)[n - 1] as int];
        if is_future(obs, v, sawtooth_end(config, obs)) {
            before.push(future_entry(config, obs, vehicles, n - 1))
        } else {
            before
        }
    }
}

/// The connected sessions in a plan.
pub open spec fn connected_entries<N: Num>(
    config: ScenarioMpcRules<N>,
    obs: ObservationModel<N>,
) -> Seq<Entry<N>> {
    Seq::new(
        obs.sessions.len(),
        |i: int| connected_entry(obs, obs.sessions[i], sawtooth_end(config, obs)),
    )
}

/// The sessions of scenario `k`, connected ones first.
pub open spec fn gathered<N: Num>(
    config: ScenarioMpcRules<N>,
    obs: ObservationModel<N>,
    k: int,
) -> Seq<Entry<N>> {
    if k < config.futures.len() {
        let vehicles = config.futures[k].vehicles;
        connected_entries(config, obs) + future_entries(config, obs, vehicles, vehicles.len())
    } else {
        connected_entries(config, obs)
    }
}

/// The rank of a planned session: by vehicle, then by first slot.
pub open spec fn entry_rank<N>(e: Entry<N>) -> Rank {
    Rank { major: e.vehicle_id as u64, middle: e.first_slot as u64, minor: 0 }
}

/// Planned sessions by vehicle and first slot, so that the sessions of one
/// vehicle stand together in time order.
pub open spec fn sorted_entries<N>(list: Seq<Entry<N>>) -> Seq<Entry<N>> {
    let order = stable_order(Seq::new(list.len(), |i: int| entry_rank(list[i])));
    Seq::new(list.len(), |i: int| list[order[i] as int])
}

/// The sessions of scenario `k` in plan order.
pub open spec fn entries<N: Num>(
    config: ScenarioMpcRules<N>,
    obs: ObservationModel<N>,
    k: int,
) -> Seq<Entry<N>> {
    sorted_entries(gathered(config, obs, k))
}

/// The slots of planned sessions.
pub open spec fn entry_spans<N>(list: Seq<Entry<N>>) -> Seq<Span> {
    Seq::new(list.len(), |i: int| Span { first_slot: list[i].first_slot, last_slot: list[i].last_slot })
}

/// The tag of session `i` in scenario `k`.
pub open spec fn entry_tag(k: int, i: int) -> Seq<char> {
    "k"@ + decimal(k as nat) + "s"@ + decimal(i as nat)
}

/// What the stored energy of session `i` starts from: a sampled future session
/// that follows a session of the same vehicle starts from that one's terminal
/// energy; every other session from its own SoC.
pub open spec fn entry_start<N: Num>(list: Seq<Entry<N>>, start: int, i: int) -> Start<N> {
    let e = list[i];
    if e.view_index is None && i > 0 && list[i - 1].vehicle_id == e.vehicle_id {
        let prev = list[i - 1];
        let base = block_base(start, entry_spans(list), (i - 1) as nat);
        Start::After(stored(base, prev.last_slot - prev.first_slot), e.depletion_kwh)
    } else {
        Start::At(e.anchor_soc_kwh)
    }
}

/// Session `i` of scenario `k` as a visit; the blocks of the scenario start at `start`.
pub open spec fn entry_visit<N: Num>(
    obs: ObservationModel<N>,
    list: Seq<Entry<N>>,
    start: int,
    k: int,
    i: int,
) -> VisitModel<N> {
    let e = list[i];
    let dt = slot_hours(obs.slot_minutes);
    VisitModel {
        tag: entry_tag(k, i),
        first_slot: e.first_slot,
        last_slot: e.last_slot,
        charge_kwh: e.max_charge_kw.times(dt),
        discharge_kwh: e.max_discharge_kw.times(dt),
        floor_kwh: e.floor_kwh,
        ceiling_kwh: e.ceiling_kwh,
        start: entry_start(list, start, i),
        needed_kwh: e.reach_needed_kwh,
    }
}

/// The visits of scenario `k`.
pub open spec fn entry_visits<N: Num>(
    obs: ObservationModel<N>,
    list: Seq<Entry<N>>,
    start: int,
    k: int,
) -> Seq<VisitModel<N>> {
    Seq::new(list.len(), |i: int| entry_visit(obs, list, start, k, i))
}

/// The rates of a plan.
pub open spec fn rates_of<N: Num>(config: ScenarioMpcRules<N>, obs: ObservationModel<N>) -> PlanRates<N> {
    PlanRates {
        charge_efficiency: obs.charge_efficiency,
        discharge_efficiency: obs.discharge_efficiency,
        shortfall_usd_per_kwh: config.shortfall_usd_per_kwh,
        degradation_usd_per_kwh: config.degradation_usd_per_kwh,
        ramp_kwh_per_slot: config.ramp_kwh_per_slot,
    }
}

/// The program with the sessions of scenario `k`.
pub open spec fn with_scenario<N: Num>(
    config: ScenarioMpcRules<N>,
    obs: ObservationModel<N>,
    p: Program<N>,
    k: int,
) -> Program<N> {
    with_all_visits(
        p,
        "tgt_"@,
        entry_visits(obs, entries(config, obs, k), p.vars.len() as int, k),
        rates_of(config, obs),
        obs.price_series,
    )
}

/// The program with the sessions of the first `k` scenarios.
pub open spec fn scenario_blocks<N: Num>(
    config: ScenarioMpcRules<N>,
    obs: ObservationModel<N>,
    k: nat,
) -> Program<N>
    decreases k,
{
    if k == 0 {
        Program::empty()
    } else {
        with_scenario(config, obs, scenario_blocks(config, obs, (k - 1) as nat), k - 1)
    }
}

/// Where the sessions of scenario `k` stand.
pub open spec fn scenario_places<N: Num>(
    config: ScenarioMpcRules<N>,
    obs: ObservationModel<N>,
    k: int,
) -> Seq<Place> {
    places_of(
        scenario_blocks(config, obs, k as nat).vars.len() as int,
        entry_spans(entries(config, obs, k)),
    )
}

/// The building load that scenario `k` expects in slot `s`.
pub open spec fn expected_load<N: Num>(
    config: ScenarioMpcRules<N>,
    obs: ObservationModel<N>,
    k: int,
    s: int,
) -> N {
    if config.building_from_futures && s > obs.slot && k < config.futures.len() && s
        < config.futures[k].building.len() {
        config.futures[k].building[s]
    } else {
        obs.forecast(s)
    }
}

/// The tag of scenario `k`.
pub open spec fn scenario_tag(k: int) -> Seq<char> {
    "k"@ + decimal(k as nat)
}

/// The program with the net load of slot `s` in scenario `k`: its definition
/// and its place under the two peaks `top` (class `peak` only) and `top + 1`.
pub open spec fn with_load<N: Num>(
    config: ScenarioMpcRules<N>,
    obs: ObservationModel<N>,
    p: Program<N>,
    k: int,
    s: int,
    top: int,
) -> Program<N> {
    let load = expected_load(config, obs, k, s);
    let agg = var(p.vars.len() as int);
    let tag = scenario_tag(k);
    let defined = p.with_var(
        continuous(label("agg_"@, tag, s), zero_of(), agg_bound(obs.site_cap_kw, load), zero_of()),
    ).with_row(
        row(
            label("aggdef_"@, tag, s),
            agg_terms(agg, scenario_places(config, obs, k), s, slot_hours(obs.slot_minutes)),
            Sense::Eq,
            load,
        ),
    );
    let timed = if obs.tou_series[s] == TouClass::Peak {
        defined.with_row(envelope_row(label("pk_"@, tag, s), var(top), agg))
    } else {
        defined
    };
    timed.with_row(envelope_row(label("pka_"@, tag, s), var(top + 1), agg))
}

/// The program with the net loads of the first `n` planned slots in scenario `k`.
pub open spec fn with_loads<N: Num>(
    config: ScenarioMpcRules<N>,
    obs: ObservationModel<N>,
    p: Program<N>,
    k: int,
    top: int,
    n: nat,
) -> Program<N>
    decreases n,
{
    if n == 0 {
        p
    } else {
        with_load(
            config,
            obs,
            with_loads(config, obs, p, k, top, (n - 1) as nat),
            k,
            obs.slot + n - 1,
            top,
        )
    }
}

/// The program with the peaks of scenario `k`; the one over slots of class
/// `peak` starts from the realized history.
pub open spec fn with_tops<N: Num>(obs: ObservationModel<N>, history: N, p: Program<N>, k: int) -> Program<N> {
    p.with_var(
        continuous(
            "pmaxtou_"@ + scenario_tag(k),
            history,
            N::unbounded(),
            obs.demand_charge_peak_usd_per_kw,
        ),
    ).with_var(
        continuous(
            "pmax_"@ + scenario_tag(k),
            zero_of(),
            N::unbounded(),
            obs.demand_charge_usd_per_kw,
        ),
    )
}

/// The program with the peaks and net loads of the first `k` scenarios.
pub open spec fn scenario_loads<N: Num>(
    config: ScenarioMpcRules<N>,
    obs: ObservationModel<N>,
    history: N,
    k: nat,
) -> Program<N>
    decreases k,
{
    if k == 0 {
        scenario_blocks(config, obs, scenario_count(config))
    } else {
        let p = scenario_loads(config, obs, history, (k - 1) as nat);
        with_loads(
            config,
            obs,
            with_tops(obs, history, p, k - 1),
            k - 1,
            p.vars.len() as int,
            (sawtooth_end(config, obs) - obs.slot) as nat,
        )
    }
}

/// The position of the connected session `view` in a scenario.
pub open spec fn position_of<N>(list: Seq<Entry<N>>, view: usize, n: nat) -> Option<int>
    decreases n,
{
    if n == 0 {
        None
    } else {
        match position_of(list, view, (n - 1) as nat) {
            Some(i) => Some(i),
            None => if list[n - 1].view_index == Some(view) {
                Some(n - 1)
            } else {
                None
            },
        }
    }
}

/// The row that ties two variables.
pub open spec fn tie_row<N: Num>(name: Seq<char>, a: VarId, b: VarId) -> RowModel<N> {
    row(name, seq![(a, one_of::<N>()), (b, minus_one_of::<N>())], Sense::Eq, zero_of())
}

/// The program in which the first-slot rates of session `i` of scenario `k` are
/// tied to those of the same connected session in scenario 0.
pub open spec fn with_tie<N: Num>(
    config: ScenarioMpcRules<N>,
    obs: ObservationModel<N>,
    p: Program<N>,
    k: int,
    i: int,
) -> Program<N> {
    let first = entries(config, obs, 0);
    let e = entries(config, obs, k)[i];
    match e.view_index {
        Some(view) => match position_of(first, view, first.len()) {
            Some(j) => {
                let here = scenario_places(config, obs, k)[i].base;
                let there = scenario_places(config, obs, 0)[j].base;
                p.with_row(
                    tie_row("na_cp_"@ + entry_tag(k, i), var(here as int), var(there as int)),
                ).with_row(
                    tie_row(
                        "na_cn_"@ + entry_tag(k, i),
                        var(here as int + 1),
                        var(there as int + 1),
                    ),
                )
            },
            None => p,
        },
        None => p,
    }
}

/// The program with the ties of the first `n` sessions of scenario `k`.
pub open spec fn with_ties<N: Num>(
    config: ScenarioMpcRules<N>,
    obs: ObservationModel<N>,
    p: Program<N>,
    k: int,
    n: nat,
) -> Program<N>
    decreases n,
{
    if n == 0 {
        p
    } else {
        with_tie(config, obs, with_ties(config, obs, p, k, (n - 1) as nat), k, n - 1)
    }
}

/// The program in which the first `k` scenarios are tied to scenario 0.
pub open spec fn tied<N: Num>(
    config: ScenarioMpcRules<N>,
    obs: ObservationModel<N>,
    p: Program<N>,
    k: nat,
) -> Program<N>
    decreases k,
{
    if k <= 1 {
        p
    } else {
        with_ties(
            config,
            obs,
            tied(config, obs, p, (k - 1) as nat),
            k - 1,
            entries(config, obs, k - 1).len(),
        )
    }
}

/// The lower bound on the time-related peak.
pub open spec fn history_of<N: Num>(config: ScenarioMpcRules<N>, p_max_hist: N) -> N {
    if config.use_peak_history {
        p_max_hist
    } else {
        zero_of()
    }
}

/// The linear program of a slot.
pub open spec fn scenario_program<N: Num>(
    config: ScenarioMpcRules<N>,
    obs: ObservationModel<N>,
    p_max_hist: N,
) -> Program<N> {
    let n = scenario_count(config);
    tied(config, obs, scenario_loads(config, obs, history_of(config, p_max_hist), n), n)
}

/// The first-slot setpoints of the connected sessions among the first `n` of
/// scenario 0.
pub open spec fn first_setpoints<N: Num>(
    list: Seq<Entry<N>>,
    places: Seq<Place>,
    values: Seq<N>,
    dt: N,
    n: nat,
) -> Seq<Setpoint<N>>
    decreases n,
{
    if n == 0 {
        Seq::empty()
    } else {
        let before = first_setpoints(list, places, values, dt, (n - 1) as nat);
        match list[n - 1].view_index {
            Some(view) => before.push(first_power(view, places[n - 1].base as int, values, dt)),
            None => before,
        }
    }
}

/// What the policy commits to when the solver answers `r`.
pub open spec fn scenario_committed<N: Num>(
    config: ScenarioMpcRules<N>,
    obs: ObservationModel<N>,
    r: Result<Solution<N>, SolveError>,
) -> Seq<Setpoint<N>> {
    let list = entries(config, obs, 0);
    match optimal_point(r) {
        Some(values) => first_setpoints(
            list,
            scenario_places(config, obs, 0),
            values,
            slot_hours(obs.slot_minutes),
            list.len(),
        ),
        None => Seq::empty(),
    }
}

/// The powers added up, kW.
pub open spec fn power_sum<N: Num>(out: Seq<Setpoint<N>>) -> N
    decreases out.len(),
{
    if out.len() == 0 {
        zero_of()
    } else {
        power_sum(out.drop_last()).plus(out.last().power_kw)
    }
}

/// The realized peak history after committing to `out` on an optimal answer: it
/// rises to the slot's net load in slots of class `peak`.
pub open spec fn ratcheted<N: Num>(
    config: ScenarioMpcRules<N>,
    obs: ObservationModel<N>,
    p_max_hist: N,
    r: Result<Solution<N>, SolveError>,
) -> N {
    let realized = obs.building_load_kw.plus(power_sum(scenario_committed(config, obs, r)));
    if optimal_point(r) is Some && config.use_peak_history && obs.tou == TouClass::Peak
        && p_max_hist.below(realized) {
        realized
    } else {
        p_max_hist
    }
}

// ------------------------------------------------------------------ layout

proof fn lemma_visit_number<N>(vehicles: Seq<Vehicle<N>>, order: Seq<usize>, p: int)
    requires
        0 <= p,
    ensures
        visit_number(vehicles, order, p) <= p,
    decreases p,
{
    if p > 0 {
        lemma_visit_number(vehicles, order, p - 1);
    }
}

/// The sessions of an episode by vehicle and arrival slot, with the number of
/// each visit of its vehicle.
fn number_visits<N: Num>(vehicles: &Vec<Vehicle<N>>) -> (r: (Vec<usize>, Vec<usize>))
    ensures
        r.0@ == visit_order(vehicles@),
        r.0@.len() == vehicles@.len(),
        forall|p: int| 0 <= p < r.0@.len() ==> #[trigger] r.0@[p] < vehicles@.len(),
        r.1@.len() == vehicles@.len(),
        forall|p: int|
            0 <= p < r.1@.len() ==> #[trigger] r.1@[p] == visit_number(vehicles@, r.0@, p),
{
    let mut keys: Vec<Rank> = Vec::new();
    for i in 0..vehicles.len()
        invariant
            keys@ == Seq::new(i as nat, |j: int| visit_rank(vehicles@[j])),
    {
        let key = Rank {
            major: vehicles[i].vehicle_id as u64,
            middle: vehicles[i].arrival_slot as u64,
            minor: 0,
        };
        keys.push(key);
        assert(keys@ =~= Seq::new((i + 1) as nat, |j: int| visit_rank(vehicles@[j])));
    }
    let order = sort(&keys);
    let mut numbers: Vec<usize> = Vec::new();
    for p in 0..order.len()
        invariant
            order@.len() == vehicles@.len(),
            forall|p: int| 0 <= p < order@.len() ==> #[trigger] order@[p] < vehicles@.len(),
            numbers@.len() == p,
            forall|q: int| 0 <= q < p ==> #[trigger] numbers@[q] == visit_number(vehicles@, order@, q),
    {
        proof {
            lemma_visit_number(vehicles@, order@, p as int);
        }
        let number: usize = if p > 0 && vehicles[order[p - 1]].vehicle_id == vehicles[order[p]].vehicle_id {
            numbers[p - 1] + 1
        } else {
            0
        };
        numbers.push(number);
    }
    (order, numbers)
}

/// The depletion before visit `number` of vehicle `id`, where it is known.
fn find_depletion<N: Num>(
    vehicles: &Vec<Vehicle<N>>,
    order: &Vec<usize>,
    numbers: &Vec<usize>,
    id: u32,
    number: usize,
) -> (r: Option<N>)
    requires
        order@.len() == vehicles@.len(),
        forall|p: int| 0 <= p < order@.len() ==> #[trigger] order@[p] < vehicles@.len(),
        numbers@.len() == vehicles@.len(),
        forall|p: int|
            0 <= p < numbers@.len() ==> #[trigger] numbers@[p] == visit_number(vehicles@, order@, p),
    ensures
        r == known_depletion(vehicles@, order@, id, number as nat, vehicles@.len()),
{
    let mut n: usize = order.len();
    while n > 0
        invariant
            n <= order@.len(),
            order@.len() == vehicles@.len(),
            forall|p: int| 0 <= p < order@.len() ==> #[trigger] order@[p] < vehicles@.len(),
            numbers@.len() == vehicles@.len(),
            forall|p: int|
                0 <= p < numbers@.len() ==> #[trigger] numbers@[p] == visit_number(vehicles@, order@, p),
            known_depletion(vehicles@, order@, id, number as nat, vehicles@.len()) == known_depletion(
                vehicles@,
                order@,
                id,
                number as nat,
                n as nat,
            ),
        decreases n,
    {
        let v = &vehicles[order[n - 1]];
        if v.vehicle_id == id && numbers[n - 1] == number {
            return Some(v.depletion_kwh);
        }
        n = n - 1;
    }
    None
}

/// A connected session of the vehicle is still here when `v` arrives.
fn find_present_visit<N: Num>(sessions: &Vec<SessionView<N>>, v: &Vehicle<N>) -> (r: bool)
    ensures
        r == is_present_visit(sessions@, *v),
{
    for i in 0..sessions.len()
        invariant
            forall|j: int|
                0 <= j < i ==> !((#[trigger] sessions@[j]).vehicle.vehicle_id == v.vehicle_id
                    && v.arrival_slot < sessions@[j].vehicle.departure_slot),
    {
        if sessions[i].vehicle.vehicle_id == v.vehicle_id && v.arrival_slot
            < sessions[i].vehicle.departure_slot {
            assert(sessions@[i as int].vehicle.vehicle_id == v.vehicle_id);
            return true;
        }
    }
    false
}

/// A connected session in a plan up to `end`.
fn make_connected_entry<N: Num>(obs: &Observation<N>, view: &SessionView<N>, end: usize) -> (r: Entry<N>)
    requires
        obs.slot < end,
        obs.slot < view.vehicle.departure_slot,
    ensures
        r == connected_entry(obs@, *view, end as int),
        r.first_slot <= r.last_slot < end,
{
    let v = &view.vehicle;
    let dt = obs.slot_minutes.div(from_count(60));
    let last: usize = if v.departure_slot < end {
        v.departure_slot - 1
    } else {
        end - 1
    };
    Entry {
        view_index: Some(view.index),
        first_slot: obs.slot,
        last_slot: last,
        anchor_soc_kwh: view.soc_kwh,
        reach_needed_kwh: reach_needed(
            v.soc_target_kwh,
            v.departure_slot,
            last,
            view.max_charge_kw,
            dt,
            obs.charge_efficiency,
            v.min_soc_kwh,
        ),
        floor_kwh: v.min_soc_kwh,
        ceiling_kwh: v.ceiling_kwh(),
        max_charge_kw: view.max_charge_kw,
        max_discharge_kw: view.max_discharge_kw,
        vehicle_id: v.vehicle_id,
        depletion_kwh: zero(),
    }
}

/// The planned sessions lie inside the plan.
pub open spec fn are_inside<N>(list: Seq<Entry<N>>, end: int) -> bool {
    forall|i: int|
        0 <= i < list.len() ==> (#[trigger] list[i]).first_slot <= list[i].last_slot < end
}

/// Planned sessions by vehicle and first slot.
fn sort_entries<N: Num>(list: &Vec<Entry<N>>, Ghost(end): Ghost<int>) -> (r: Vec<Entry<N>>)
    requires
        are_inside(list@, end),
    ensures
        r@ == sorted_entries(list@),
        are_inside(r@, end),
{
    let mut keys: Vec<Rank> = Vec::new();
    for i in 0..list.len()
        invariant
            keys@ == Seq::new(i as nat, |j: int| entry_rank(list@[j])),
    {
        let key = Rank {
            major: list[i].vehicle_id as u64,
            middle: list[i].first_slot as u64,
            minor: 0,
        };
        keys.push(key);
        assert(keys@ =~= Seq::new((i + 1) as nat, |j: int| entry_rank(list@[j])));
    }
    let order = sort(&keys);
    let mut sorted: Vec<Entry<N>> = Vec::new();
    for i in 0..order.len()
        invariant
            order@.len() == list@.len(),
            forall|k: int| 0 <= k < order@.len() ==> #[trigger] order@[k] < list@.len(),
            sorted@ == Seq::new(i as nat, |j: int| list@[order@[j] as int]),
    {
        sorted.push(list[order[i]]);
        assert(sorted@ =~= Seq::new((i + 1) as nat, |j: int| list@[order@[j] as int]));
    }
    assert(sorted@ =~= sorted_entries(list@));
    assert forall|i: int| 0 <= i < sorted@.len() implies (#[trigger] sorted@[i]).first_slot
        <= sorted@[i].last_slot < end by {
        assert(sorted@[i] == list@[order@[i] as int]);
    }
    sorted
}

/// The first slot that is not planned.
fn find_sawtooth_end<N: Num>(config: &ScenarioMpcConfig<N>, obs: &Observation<N>) -> (end: usize)
    requires
        obs@.well_formed(),
        config.slots_per_day > 0,
    ensures
        end == sawtooth_end(config@, obs@),
        obs.slot < end <= obs@.building_series.len(),
{
    let n: usize = obs.building_series.len();
    let spd: usize = config.slots_per_day;
    let day: usize = obs.slot / spd;
    proof {
        vstd::arithmetic::div_mod::lemma_fundamental_div_mod(obs.slot as int, spd as int);
        vstd::arithmetic::div_mod::lemma_mod_bound(obs.slot as int, spd as int);
        assert(spd * (obs.slot as int / spd as int) == day * spd) by (nonlinear_arith)
            requires
                day == obs.slot as int / spd as int,
        ;
        assert((day + 2) * spd == day * spd + spd + spd) by (nonlinear_arith);
        assert(day <= day * spd) by (nonlinear_arith)
            requires
                spd >= 1,
                day >= 0,
        ;
    }
    // The start of the current day plus two days, if that lies inside the series.
    let start: usize = obs.slot - obs.slot % spd;
    if spd < n - start && spd < n - start - spd {
        start + spd + spd
    } else {
        n
    }
}

/// The sessions of scenario `k` in plan order.
fn make_entries<N: Num>(
    config: &ScenarioMpcConfig<N>,
    obs: &Observation<N>,
    k: usize,
    end: usize,
    test_order: &Vec<usize>,
    test_numbers: &Vec<usize>,
) -> (r: Vec<Entry<N>>)
    requires
        obs@.well_formed(),
        obs.slot < end,
        end == sawtooth_end(config@, obs@),
        test_order@ == visit_order(config.test_sessions@),
        test_order@.len() == config.test_sessions@.len(),
        forall|p: int|
            0 <= p < test_order@.len() ==> #[trigger] test_order@[p] < config.test_sessions@.len(),
        test_numbers@.len() == config.test_sessions@.len(),
        forall|p: int|
            0 <= p < test_numbers@.len() ==> #[trigger] test_numbers@[p] == visit_number(
                config.test_sessions@,
                test_order@,
                p,
            ),
    ensures
        r@ == entries(config@, obs@, k as int),
        are_inside(r@, end as int),
{
    let mut list: Vec<Entry<N>> = Vec::new();
    for i in 0..obs.sessions.len()
        invariant
            obs@.well_formed(),
            obs.slot < end,
            end == sawtooth_end(config@, obs@),
            list@ == connected_entries(config@, obs@).take(i as int),
            are_inside(list@, end as int),
    {
        let view = obs.sessions[i];
        assert(obs@.sessions[i as int].index == i);
        list.push(make_connected_entry(obs, &view, end));
        assert(list@ =~= connected_entries(config@, obs@).take(i + 1));
    }
    assert(list@ =~= connected_entries(config@, obs@));
    if k < config.futures.len() {
        let dt = obs.slot_minutes.div(from_count(60));
        let vehicles = &config.futures[k].vehicles;
        assert(config@.futures[k as int].vehicles == vehicles@);
        let (order, numbers) = number_visits(vehicles);
        let ghost head = connected_entries(config@, obs@);
        assert(list@ =~= head + future_entries(config@, obs@, vehicles@, 0));
        for p in 0..order.len()
            invariant
                obs@.well_formed(),
                obs.slot < end,
                end == sawtooth_end(config@, obs@),
                dt == slot_hours(obs@.slot_minutes),
                test_order@ == visit_order(config.test_sessions@),
                test_order@.len() == config.test_sessions@.len(),
                forall|p: int|
                    0 <= p < test_order@.len() ==> #[trigger] test_order@[p]
                        < config.test_sessions@.len(),
                test_numbers@.len() == config.test_sessions@.len(),
                forall|p: int|
                    0 <= p < test_numbers@.len() ==> #[trigger] test_numbers@[p] == visit_number(
                        config.test_sessions@,
                        test_order@,
                        p,
                    ),
                order@ == visit_order(vehicles@),
                order@.len() == vehicles@.len(),
                forall|p: int| 0 <= p < order@.len() ==> #[trigger] order@[p] < vehicles@.len(),
                numbers@.len() == vehicles@.len(),
                forall|p: int|
                    0 <= p < numbers@.len() ==> #[trigger] numbers@[p] == visit_number(
                        vehicles@,
                        order@,
                        p,
                    ),
                list@ == head + future_entries(config@, obs@, vehicles@, p as nat),
                are_inside(list@, end as int),
        {
            let v = &vehicles[order[p]];
            if v.arrival_slot > obs.slot && v.departure_slot < end && v.arrival_slot < v.departure_slot
                && !find_present_visit(&obs.sessions, v) {
                let depletion: N = match find_depletion(
                    &config.test_sessions,
                    test_order,
                    test_numbers,
                    v.vehicle_id,
                    numbers[p],
                ) {
                    Some(d) => d,
                    None => v.depletion_kwh,
                };
                let entry = Entry {
                    view_index: None,
                    first_slot: v.arrival_slot,
                    last_slot: v.departure_slot - 1,
                    anchor_soc_kwh: v.soc_arrival_kwh,
                    reach_needed_kwh: reach_needed(
                        v.soc_target_kwh,
                        v.departure_slot,
                        v.departure_slot - 1,
                        v.max_charge_kw,
                        dt,
                        obs.charge_efficiency,
                        v.min_soc_kwh,
                    ),
                    floor_kwh: v.min_soc_kwh,
                    ceiling_kwh: v.ceiling_kwh(),
                    max_charge_kw: v.max_charge_kw,
                    max_discharge_kw: v.max_discharge_kw,
                    vehicle_id: v.vehicle_id,
                    depletion_kwh: depletion,
                };
                assert(entry == future_entry(config@, obs@, vehicles@, p as int));
                list.push(entry);
            }
            assert(list@ =~= head + future_entries(config@, obs@, vehicles@, (p + 1) as nat));
        }
    }
    assert(list@ =~= gathered(config@, obs@, k as int));
    sort_entries(&list, Ghost(end as int))
}

/// Writes the tag of session `i` in scenario `k`.
fn make_entry_tag(k: usize, i: usize) -> (r: String)
    ensures
        r@ == entry_tag(k as int, i as int),
{
    let mut out = make_numbered("k", k);
    out.append("s");
    push_usize(&mut out, i);
    out
}

/// Adds the sessions of scenario `k`; returns where they stand.
fn add_scenario<N: Num>(
    m: &mut Model<N>,
    obs: &Observation<N>,
    list: &Vec<Entry<N>>,
    k: usize,
    rates: &PlanRates<N>,
) -> (places: Vec<Place>)
    requires
        obs@.well_formed(),
        old(m)@.well_formed(),
        are_inside(list@, obs@.building_series.len() as int),
    ensures
        final(m)@ == with_all_visits(
            old(m)@,
            "tgt_"@,
            entry_visits(obs@, list@, old(m)@.vars.len() as int, k as int),
            *rates,
            obs@.price_series,
        ),
        final(m)@.well_formed(),
        places@ == places_of(old(m)@.vars.len() as int, entry_spans(list@)),
        are_placed(places@, final(m)@.vars.len()),
        final(m)@.vars.len() >= old(m)@.vars.len() + 4 * list@.len(),
{
    let ghost before = m@;
    let ghost start = m@.vars.len() as int;
    let ghost spans = entry_spans(list@);
    let ghost visits = entry_visits(obs@, list@, start, k as int);
    assert(spans_of(visits) =~= spans);
    let dt = obs.slot_minutes.div(from_count(60));
    let mut places: Vec<Place> = Vec::new();
    for i in 0..list.len()
        invariant
            obs@.well_formed(),
            are_inside(list@, obs@.building_series.len() as int),
            dt == slot_hours(obs@.slot_minutes),
            start == before.vars.len(),
            spans == entry_spans(list@),
            visits == entry_visits(obs@, list@, start, k as int),
            m@ == with_visits(before, "tgt_"@, visits, *rates, obs@.price_series, i as nat),
            m@.vars.len() == block_base(start, spans, i as nat),
            places@ == places_of(start, spans).take(i as int),
    {
        let e = list[i];
        assert(list@[i as int].first_slot <= list@[i as int].last_slot);
        assert(spans[i as int] == (Span { first_slot: e.first_slot, last_slot: e.last_slot }));
        proof {
            if i > 0 {
                assert(list@[i - 1].first_slot <= list@[i - 1].last_slot);
                assert(spans[i - 1].first_slot <= spans[i - 1].last_slot);
                assert(block_base(start, spans, i as nat) == block_base(start, spans, (i - 1) as nat)
                    + block_size(spans[i - 1]));
                assert forall|j: int| 0 <= j < i implies (#[trigger] spans[j]).first_slot
                    <= spans[j].last_slot by {
                    assert(list@[j].first_slot <= list@[j].last_slot);
                }
                lemma_block_base(start, spans, 0, (i - 1) as nat);
                assert(places@[i - 1] == place_of(start, spans, i - 1));
            }
        }
        assert(m.vars.len() <= usize::MAX);
        let from: Start<N> = if e.view_index.is_none() && i > 0 && list[i - 1].vehicle_id == e.vehicle_id {
            let prev = places[i - 1];
            Start::After(
                VarId(prev.base + 3 * (prev.last_slot - prev.first_slot) + 2),
                e.depletion_kwh,
            )
        } else {
            Start::At(e.anchor_soc_kwh)
        };
        assert(from == entry_start(list@, start, i as int));
        let visit = Visit {
            tag: make_entry_tag(k, i),
            first_slot: e.first_slot,
            last_slot: e.last_slot,
            charge_kwh: e.max_charge_kw.mul(dt),
            discharge_kwh: e.max_discharge_kw.mul(dt),
            floor_kwh: e.floor_kwh,
            ceiling_kwh: e.ceiling_kwh,
            start: from,
            needed_kwh: e.reach_needed_kwh,
        };
        assert(visit@ =~= visits[i as int]);
        let place = add_visit(m, "tgt_", &visit, rates, obs.price_series);
        places.push(place);
        assert(places@ =~= places_of(start, spans).take(i + 1));
    }
    assert(m.vars.len() <= usize::MAX);
    proof {
        let n = list@.len();
        assert forall|i: int| 0 <= i < n implies (#[trigger] spans[i]).first_slot <= spans[i].last_slot by {
            assert(list@[i].first_slot <= list@[i].last_slot);
        }
        assert forall|i: int| 0 <= i < n implies (#[trigger] visits[i]).first_slot
            <= visits[i].last_slot by {
            assert(list@[i].first_slot <= list@[i].last_slot);
        }
        assert forall|i: int| 0 <= i < n implies start_fits(
            (#[trigger] visits[i]).start,
            block_base(start, spans_of(visits), i as nat) as nat,
        ) by {
            if i > 0 {
                assert(spans[i - 1].first_slot <= spans[i - 1].last_slot);
                lemma_block_base(start, spans, 0, (i - 1) as nat);
                lemma_block_base(start, spans, i as nat, n);
                assert(block_base(start, spans, i as nat) == block_base(start, spans, (i - 1) as nat)
                    + block_size(spans[i - 1]));
            }
        }
        lemma_with_visits(before, "tgt_"@, visits, *rates, obs@.price_series, n);
        lemma_places(start, spans, n);
        lemma_block_base(start, spans, 0, n);
        assert(places_of(start, spans).take(n as int) =~= places_of(start, spans));
    }
    places
}

/// The building load that scenario `k` expects in slot `s`.
fn find_expected_load<N: Num>(config: &ScenarioMpcConfig<N>, obs: &Observation<N>, k: usize, s: usize) -> (r: N)
    requires
        obs@.well_formed(),
    ensures
        r == expected_load(config@, obs@, k as int, s as int),
{
    if config.building_from_futures && s > obs.slot && k < config.futures.len() && s
        < config.futures[k].building_load_kw.len() {
        assert(config@.futures[k as int].building == config.futures@[k as int].building_load_kw@);
        config.futures[k].building_load_kw[s]
    } else {
        proof {
            if k < config@.futures.len() {
                assert(config@.futures[k as int].building == config.futures@[k as int].building_load_kw@);
            }
        }
        obs.building_forecast_kw(s)
    }
}

proof fn lemma_one_row<N: Num>(p: Program<N>, r: RowModel<N>)
    requires
        p.well_formed(),
        p.vars.len() > 0,
        r.fits(p.vars.len()),
    ensures
        p.with_row(r).well_formed(),
{
    lemma_more_rows(p, seq![r]);
    assert(p.with_rows(seq![r]) =~= p.with_row(r));
}

proof fn lemma_one_var<N: Num>(p: Program<N>, v: crate::milp::VarModel<N>)
    requires
        p.well_formed(),
    ensures
        p.with_var(v).well_formed(),
{
    lemma_more_vars(p, seq![v]);
    assert(p.with_vars(seq![v]) =~= p.with_var(v));
}

/// Adds the net load of slot `s` in scenario `k`.
fn add_load<N: Num>(
    m: &mut Model<N>,
    config: &ScenarioMpcConfig<N>,
    obs: &Observation<N>,
    places: &Vec<Place>,
    k: usize,
    s: usize,
    top: usize,
)
    requires
        obs@.well_formed(),
        s < obs@.building_series.len(),
        old(m)@.well_formed(),
        places@ == scenario_places(config@, obs@, k as int),
        are_placed(places@, old(m)@.vars.len()),
        top + 1 < old(m)@.vars.len(),
    ensures
        final(m)@ == with_load(config@, obs@, old(m)@, k as int, s as int, top as int),
        final(m)@.well_formed(),
        final(m)@.vars.len() == old(m)@.vars.len() + 1,
{
    let ghost before = m@;
    let dt = obs.slot_minutes.div(from_count(60));
    let tag = make_numbered("k", k);
    let load = find_expected_load(config, obs, k, s);
    let ub = make_agg_bound(obs.site_cap_kw, load);
    let a = m.add_var(make_label("agg_", tag.as_str(), s), zero(), ub, zero());
    assert(m.vars.len() <= usize::MAX);
    let ghost here = m@;
    proof {
        lemma_one_var(
            before,
            continuous(
                label("agg_"@, scenario_tag(k as int), s as int),
                zero_of(),
                agg_bound(obs@.site_cap_kw, load),
                zero_of(),
            ),
        );
        lemma_placed_later(places@, before.vars.len(), usize::MAX as nat);
        lemma_placed_later(places@, before.vars.len(), here.vars.len());
        lemma_agg_terms(a, places@, s as int, dt, here.vars.len());
    }
    let terms = make_agg_terms(a, places, s, dt);
    proof {
        lemma_one_row(
            here,
            row(label("aggdef_"@, scenario_tag(k as int), s as int), terms@, Sense::Eq, load),
        );
    }
    m.add_constraint(make_label("aggdef_", tag.as_str(), s), terms, Sense::Eq, load);
    if obs.tou_series[s] == TouClass::Peak {
        proof {
            lemma_one_row(
                m@,
                envelope_row(label("pk_"@, scenario_tag(k as int), s as int), var(top as int), a),
            );
        }
        add_envelope(m, make_label("pk_", tag.as_str(), s), VarId(top), a);
    }
    proof {
        lemma_one_row(
            m@,
            envelope_row(label("pka_"@, scenario_tag(k as int), s as int), var(top + 1), a),
        );
    }
    add_envelope(m, make_label("pka_", tag.as_str(), s), VarId(top + 1), a);
}

/// Adds the peaks and net loads of scenario `k`.
fn add_scenario_loads<N: Num>(
    m: &mut Model<N>,
    config: &ScenarioMpcConfig<N>,
    obs: &Observation<N>,
    places: &Vec<Place>,
    k: usize,
    end: usize,
    history: N,
)
    requires
        obs@.well_formed(),
        obs.slot < end <= obs@.building_series.len(),
        old(m)@.well_formed(),
        places@ == scenario_places(config@, obs@, k as int),
        are_placed(places@, old(m)@.vars.len()),
    ensures
        final(m)@ == with_loads(
            config@,
            obs@,
            with_tops(obs@, history, old(m)@, k as int),
            k as int,
            old(m)@.vars.len() as int,
            (end - obs.slot) as nat,
        ),
        final(m)@.well_formed(),
        final(m)@.vars.len() >= old(m)@.vars.len(),
{
    let ghost before = m@;
    let top: usize = m.vars.len();
    let tag = make_numbered("k", k);
    m.add_var(
        make_tagged("pmaxtou_", tag.as_str()),
        history,
        N::infinity(),
        obs.demand_charge_peak_usd_per_kw,
    );
    m.add_var(make_tagged("pmax_", tag.as_str()), zero(), N::infinity(), obs.demand_charge_usd_per_kw);
    let ghost topped = m@;
    proof {
        let first = continuous(
            "pmaxtou_"@ + scenario_tag(k as int),
            history,
            N::unbounded(),
            obs@.demand_charge_peak_usd_per_kw,
        );
        let second = continuous(
            "pmax_"@ + scenario_tag(k as int),
            zero_of(),
            N::unbounded(),
            obs@.demand_charge_usd_per_kw,
        );
        lemma_one_var(before, first);
        lemma_one_var(before.with_var(first), second);
        lemma_placed_later(places@, before.vars.len(), topped.vars.len());
    }
    for n in 0..end - obs.slot
        invariant
            obs@.well_formed(),
            obs.slot < end <= obs@.building_series.len(),
            places@ == scenario_places(config@, obs@, k as int),
            are_placed(places@, topped.vars.len()),
            topped.vars.len() == top + 2,
            m@ == with_loads(config@, obs@, topped, k as int, top as int, n as nat),
            m@.well_formed(),
            m@.vars.len() >= topped.vars.len(),
    {
        proof {
            lemma_placed_later(places@, topped.vars.len(), m@.vars.len());
        }
        add_load(m, config, obs, places, k, obs.slot + n, top);
    }
}

/// The position of the connected session `view` in a scenario.
fn find_position<N: Num>(list: &Vec<Entry<N>>, view: usize) -> (r: Option<usize>)
    ensures
        match (r, position_of(list@, view, list@.len())) {
            (Some(i), Some(j)) => i == j && i < list@.len(),
            (None, None) => true,
            _ => false,
        },
{
    for i in 0..list.len()
        invariant
            position_of(list@, view, i as nat) is None,
    {
        let is_it: bool = match list[i].view_index {
            Some(v) => v == view,
            None => false,
        };
        if is_it {
            assert(position_of(list@, view, (i + 1) as nat) == Some(i as int));
            proof {
                lemma_position_stays(list@, view, (i + 1) as nat, list@.len());
            }
            return Some(i);
        }
    }
    None
}

proof fn lemma_position_stays<N>(list: Seq<Entry<N>>, view: usize, m: nat, n: nat)
    requires
        m <= n,
        position_of(list, view, m) is Some,
    ensures
        position_of(list, view, n) == position_of(list, view, m),
    decreases n,
{
    if m < n {
        lemma_position_stays(list, view, m, (n - 1) as nat);
    }
}

/// Adds the row that ties two variables.
fn tie<N: Num>(m: &mut Model<N>, name: String, a: VarId, b: VarId)
    requires
        old(m)@.well_formed(),
        a.0 < old(m)@.vars.len(),
        b.0 < old(m)@.vars.len(),
    ensures
        final(m)@ == old(m)@.with_row(tie_row(name@, a, b)),
        final(m)@.well_formed(),
{
    proof {
        lemma_one_row(m@, tie_row(name@, a, b));
    }
    let mut terms: Vec<(VarId, N)> = Vec::new();
    terms.push((a, one()));
    terms.push((b, minus_one()));
    assert(terms@ =~= seq![(a, one_of::<N>()), (b, minus_one_of::<N>())]);
    m.add_constraint(name, terms, Sense::Eq, zero());
}

/// Ties the first-slot rates of the connected sessions of scenario `k` to those
/// of scenario 0.
fn add_ties<N: Num>(
    m: &mut Model<N>,
    Ghost(config): Ghost<ScenarioMpcRules<N>>,
    Ghost(obs): Ghost<ObservationModel<N>>,
    first: &Vec<Entry<N>>,
    first_places: &Vec<Place>,
    list: &Vec<Entry<N>>,
    places: &Vec<Place>,
    k: usize,
)
    requires
        old(m)@.well_formed(),
        first@ == entries(config, obs, 0),
        first_places@ == scenario_places(config, obs, 0),
        list@ == entries(config, obs, k as int),
        places@ == scenario_places(config, obs, k as int),
        are_placed(first_places@, old(m)@.vars.len()),
        are_placed(places@, old(m)@.vars.len()),
    ensures
        final(m)@ == with_ties(config, obs, old(m)@, k as int, list@.len()),
        final(m)@.well_formed(),
        final(m)@.vars.len() == old(m)@.vars.len(),
{
    let ghost before = m@;
    let count: usize = m.vars.len();
    for i in 0..list.len()
        invariant
            count == before.vars.len(),
            first@ == entries(config, obs, 0),
            first_places@ == scenario_places(config, obs, 0),
            list@ == entries(config, obs, k as int),
            places@ == scenario_places(config, obs, k as int),
            are_placed(first_places@, before.vars.len()),
            are_placed(places@, before.vars.len()),
            m@ == with_ties(config, obs, before, k as int, i as nat),
            m@.well_formed(),
            m@.vars.len() == before.vars.len(),
    {
        match list[i].view_index {
            Some(view) => {
                match find_position(first, view) {
                    Some(j) => {
                        assert(is_placed(places@[i as int], before.vars.len()));
                        assert(is_placed(first_places@[j as int], before.vars.len()));
                        let here: usize = places[i].base;
                        let there: usize = first_places[j].base;
                        let tag = make_entry_tag(k, i);
                        tie(m, make_tagged("na_cp_", tag.as_str()), VarId(here), VarId(there));
                        tie(m, make_tagged("na_cn_", tag.as_str()), VarId(here + 1), VarId(there + 1));
                    },
                    None => {},
                }
            },
            None => {},
        }
    }
}

// ---------------------------------------------------------------- decisions

/// A plan that waits for its solution.
#[derive(Debug)]
pub struct ScenarioPlan<N> {
    pub model: Model<N>,
    /// The sessions of scenario 0.
    pub entries: Vec<Entry<N>>,
    /// Where they stand.
    pub places: Vec<Place>,
}

impl<N: Num> ScenarioPlan<N> {
    /// The plan is the one of `obs` under the peak history `p_max_hist`.
    pub open spec fn is_for(
        &self,
        config: ScenarioMpcRules<N>,
        obs: ObservationModel<N>,
        p_max_hist: N,
    ) -> bool {
        &&& self.model@ == scenario_program(config, obs, p_max_hist)
        &&& self.model@.well_formed()
        &&& self.entries@ == entries(config, obs, 0)
        &&& self.places@ == scenario_places(config, obs, 0)
        &&& are_placed(self.places@, self.model@.vars.len())
    }
}

impl<N: Num> ScenarioMpcConfig<N> {
    /// Lays out the plan of a slot.
    pub fn plan(&self, obs: &Observation<N>, p_max_hist: N) -> (r: ScenarioPlan<N>)
        requires
            obs@.well_formed(),
            self.slots_per_day > 0,
        ensures
            r.is_for(self@, obs@, p_max_hist),
    {
        let end: usize = find_sawtooth_end(self, obs);
        let n: usize = if self.futures.len() == 0 {
            1
        } else {
            self.futures.len()
        };
        let (test_order, test_numbers) = number_visits(&self.test_sessions);
        let rates = PlanRates {
            charge_efficiency: obs.charge_efficiency,
            discharge_efficiency: obs.discharge_efficiency,
            shortfall_usd_per_kwh: self.shortfall_usd_per_kwh,
            degradation_usd_per_kwh: self.degradation_usd_per_kwh,
            ramp_kwh_per_slot: self.ramp_kwh_per_slot,
        };
        let mut m: Model<N> = Model::default();
        let mut lists: Vec<Vec<Entry<N>>> = Vec::new();
        let mut spots: Vec<Vec<Place>> = Vec::new();
        for k in 0..n
            invariant
                obs@.well_formed(),
                obs.slot < end <= obs@.building_series.len(),
                end == sawtooth_end(self@, obs@),
                rates == rates_of(self@, obs@),
                test_order@ == visit_order(self.test_sessions@),
                test_order@.len() == self.test_sessions@.len(),
                forall|p: int|
                    0 <= p < test_order@.len() ==> #[trigger] test_order@[p] < self.test_sessions@.len(),
                test_numbers@.len() == self.test_sessions@.len(),
                forall|p: int|
                    0 <= p < test_numbers@.len() ==> #[trigger] test_numbers@[p] == visit_number(
                        self.test_sessions@,
                        test_order@,
                        p,
                    ),
                m@ == scenario_blocks(self@, obs@, k as nat),
                m@.well_formed(),
                lists@.len() == k,
                spots@.len() == k,
                forall|j: int| 0 <= j < k ==> (#[trigger] lists@[j])@ == entries(self@, obs@, j),
                forall|j: int|
                    0 <= j < k ==> (#[trigger] spots@[j])@ == scenario_places(self@, obs@, j)
                        && are_placed(spots@[j]@, m@.vars.len()),
        {
            let ghost before = m@;
            let list = make_entries(self, obs, k, end, &test_order, &test_numbers);
            let places = add_scenario(&mut m, obs, &list, k, &rates);
            lists.push(list);
            spots.push(places);
            assert forall|j: int| 0 <= j < k + 1 implies (#[trigger] spots@[j])@ == scenario_places(
                self@,
                obs@,
                j,
            ) && are_placed(spots@[j]@, m@.vars.len()) by {
                if j < k {
                    lemma_placed_later(spots@[j]@, before.vars.len(), m@.vars.len());
                }
            }
        }
        let history: N = if self.use_peak_history {
            p_max_hist
        } else {
            zero()
        };
        let ghost blocks = m@;
        for k in 0..n
            invariant
                n == scenario_count(self@),
                obs@.well_formed(),
                obs.slot < end <= obs@.building_series.len(),
                end == sawtooth_end(self@, obs@),
                spots@.len() == n,
                forall|j: int|
                    0 <= j < n ==> (#[trigger] spots@[j])@ == scenario_places(self@, obs@, j)
                        && are_placed(spots@[j]@, blocks.vars.len()),
                m@ == scenario_loads(self@, obs@, history, k as nat),
                m@.well_formed(),
                m@.vars.len() >= blocks.vars.len(),
        {
            assert(are_placed(spots@[k as int]@, blocks.vars.len()));
            proof {
                lemma_placed_later(spots@[k as int]@, blocks.vars.len(), m@.vars.len());
            }
            add_scenario_loads(&mut m, self, obs, &spots[k], k, end, history);
        }
        let ghost loaded = m@;
        for k in 1..n
            invariant
                1 <= n,
                lists@.len() == n,
                spots@.len() == n,
                forall|j: int| 0 <= j < n ==> (#[trigger] lists@[j])@ == entries(self@, obs@, j),
                forall|j: int|
                    0 <= j < n ==> (#[trigger] spots@[j])@ == scenario_places(self@, obs@, j)
                        && are_placed(spots@[j]@, blocks.vars.len()),
                m@ == tied(self@, obs@, loaded, k as nat),
                m@.well_formed(),
                m@.vars.len() >= blocks.vars.len(),
        {
            assert(are_placed(spots@[k as int]@, blocks.vars.len()));
            assert(are_placed(spots@[0]@, blocks.vars.len()));
            proof {
                lemma_placed_later(spots@[k as int]@, blocks.vars.len(), m@.vars.len());
                lemma_placed_later(spots@[0]@, blocks.vars.len(), m@.vars.len());
            }
            assert(lists@[0]@ == entries(self@, obs@, 0));
            add_ties(
                &mut m,
                Ghost(self@),
                Ghost(obs@),
                &lists[0],
                &spots[0],
                &lists[k],
                &spots[k],
                k,
            );
        }
        proof {
            assert(are_placed(spots@[0]@, blocks.vars.len()));
            lemma_placed_later(spots@[0]@, blocks.vars.len(), m@.vars.len());
        }
        let entries = lists.swap_remove(0);
        let places = spots.swap_remove(0);
        ScenarioPlan { model: m, entries, places }
    }

    /// What the policy commits to when the solver answers the plan with
    /// `answer`: scenario 0's first slot, and the peak history after it.
    pub fn commit(
        &self,
        obs: &Observation<N>,
        plan: &ScenarioPlan<N>,
        p_max_hist: N,
        answer: &Result<Solution<N>, SolveError>,
    ) -> (r: (Vec<Setpoint<N>>, N))
        requires
            plan.is_for(self@, obs@, p_max_hist),
            answer matches Ok(s) ==> s.values@.len() == plan.model@.vars.len(),
        ensures
            r.0@ == scenario_committed(self@, obs@, *answer),
            r.1 == ratcheted(self@, obs@, p_max_hist, *answer),
    {
        let dt = obs.slot_minutes.div(from_count(60));
        let ghost list = entries(self@, obs@, 0);
        let mut out: Vec<Setpoint<N>> = Vec::new();
        match answer {
            Ok(solution) => {
                if solution.status == SolStatus::Optimal {
                    for i in 0..plan.entries.len()
                        invariant
                            dt == slot_hours(obs@.slot_minutes),
                            list == entries(self@, obs@, 0),
                            plan.entries@ == list,
                            plan.places@ == scenario_places(self@, obs@, 0),
                            are_placed(plan.places@, plan.model@.vars.len()),
                            solution.values@.len() == plan.model@.vars.len(),
                            out@ == first_setpoints(
                                list,
                                plan.places@,
                                solution.values@,
                                dt,
                                i as nat,
                            ),
                    {
                        match plan.entries[i].view_index {
                            Some(view) => {
                                assert(is_placed(plan.places@[i as int], plan.model@.vars.len()));
                                assert(solution.values.len() <= usize::MAX);
                                let base: usize = plan.places[i].base;
                                let power_kw = solution.values[base].sub(solution.values[base + 1]).div(dt);
                                out.push(Setpoint { session_index: view, power_kw });
                            },
                            None => {},
                        }
                    }
                    let mut hist: N = p_max_hist;
                    if self.use_peak_history && obs.tou == TouClass::Peak {
                        let mut sum: N = zero();
                        for i in 0..out.len()
                            invariant
                                sum == power_sum(out@.take(i as int)),
                        {
                            assert(out@.take(i + 1).drop_last() =~= out@.take(i as int));
                            sum = sum.add(out[i].power_kw);
                        }
                        assert(out@.take(out@.len() as int) =~= out@);
                        let realized = obs.building_load_kw.add(sum);
                        if p_max_hist.lt(realized) {
                            hist = realized;
                        }
                    }
                    (out, hist)
                } else {
                    (out, p_max_hist)
                }
            },
            Err(_) => (out, p_max_hist),
        }
    }
}

pub struct ScenarioMpc<N, B> {
    pub backend: B,
    pub config: ScenarioMpcConfig<N>,
    /// Realized peak history (kW).
    pub p_max_hist: N,
}

impl<N: Num, B: MilpBackend<N>> ScenarioMpc<N, B> {
    pub fn new(backend: B, config: ScenarioMpcConfig<N>) -> (r: Self)
        ensures
            r.backend == backend,
            r.config == config,
            r.p_max_hist == zero_of::<N>(),
    {
        ScenarioMpc { backend, config, p_max_hist: zero() }
    }
}

/// The answer `r` to the plan of `obs`, the setpoints committed on it, and the
/// peak history after it.
pub open spec fn scenario_decides<N: Num, B: MilpBackend<N>>(
    before: ScenarioMpc<N, B>,
    obs: ObservationModel<N>,
    out: Seq<Setpoint<N>>,
    after: ScenarioMpc<N, B>,
    model: Model<N>,
    r: Result<Solution<N>, SolveError>,
) -> bool {
    &&& model@ == scenario_program(before.config@, obs, before.p_max_hist)
    &&& before.backend.answers(&model, &r)
    &&& out == scenario_committed(before.config@, obs, r)
    &&& after.p_max_hist == ratcheted(before.config@, obs, before.p_max_hist, r)
}

impl<N: Num, B: MilpBackend<N>> Policy<N> for ScenarioMpc<N, B> {
    open spec fn title(&self) -> &'static str {
        "scenario-mpc"
    }

    open spec fn ready(&self) -> bool {
        self.config.slots_per_day > 0
    }

    open spec fn chooses(&self, obs: &Observation<N>, out: &Vec<Setpoint<N>>, after: &Self) -> bool {
        &&& after.backend == self.backend
        &&& after.config == self.config
        &&& if obs@.sessions.len() > 0 {
            exists|model: Model<N>, r: Result<Solution<N>, SolveError>|
                #[trigger] scenario_decides(*self, obs@, out@, *after, model, r)
        } else {
            out@.len() == 0 && after.p_max_hist == self.p_max_hist
        }
    }

    fn name(&self) -> (r: &'static str) {
        "scenario-mpc"
    }

    fn decide(&mut self, obs: &Observation<N>) -> (out: Vec<Setpoint<N>>) {
        if obs.sessions.len() == 0 {
            return Vec::new();
        }
        let plan = self.config.plan(obs, self.p_max_hist);
        let answer = self.backend.solve(&plan.model);
        let (out, hist) = self.config.commit(obs, &plan, self.p_max_hist, &answer);
        self.p_max_hist = hist;
        assert(scenario_decides(*old(self), obs@, out@, *self, plan.model, answer));
        out
    }
}

// -------------------------------------------------------------------- laws

/// The peak history never falls: it stays, or a larger value takes its place.
pub proof fn the_peak_history_only_rises<N: Num>(
    config: ScenarioMpcRules<N>,
    obs: ObservationModel<N>,
    p_max_hist: N,
    r: Result<Solution<N>, SolveError>,
)
    ensures
        ratcheted(config, obs, p_max_hist, r) == p_max_hist || p_max_hist.below(
            ratcheted(config, obs, p_max_hist, r),
        ),
{
}

proof fn lemma_same_entries<N: Num>(
    config: ScenarioMpcRules<N>,
    a: ObservationModel<N>,
    b: ObservationModel<N>,
    k: int,
)
    requires
        agree_up_to_now(a, b),
    ensures
        sawtooth_end(config, a) == sawtooth_end(config, b),
        entries(config, a, k) == entries(config, b, k),
{
    assert(connected_entries(config, a) =~= connected_entries(config, b));
    if k < config.futures.len() {
        let vehicles = config.futures[k].vehicles;
        lemma_same_futures(config, a, b, vehicles, vehicles.len());
    }
}

proof fn lemma_same_futures<N: Num>(
    config: ScenarioMpcRules<N>,
    a: ObservationModel<N>,
    b: ObservationModel<N>,
    vehicles: Seq<Vehicle<N>>,
    n: nat,
)
    requires
        agree_up_to_now(a, b),
    ensures
        future_entries(config, a, vehicles, n) == future_entries(config, b, vehicles, n),
    decreases n,
{
    if n > 0 {
        lemma_same_futures(config, a, b, vehicles, (n - 1) as nat);
        assert(sawtooth_end(config, a) == sawtooth_end(config, b));
        assert(future_entry(config, a, vehicles, n - 1) == future_entry(config, b, vehicles, n - 1));
    }
}

proof fn lemma_same_blocks<N: Num>(
    config: ScenarioMpcRules<N>,
    a: ObservationModel<N>,
    b: ObservationModel<N>,
    k: nat,
)
    requires
        agree_up_to_now(a, b),
    ensures
        scenario_blocks(config, a, k) == scenario_blocks(config, b, k),
    decreases k,
{
    if k > 0 {
        lemma_same_blocks(config, a, b, (k - 1) as nat);
        lemma_same_entries(config, a, b, k - 1);
        let p = scenario_blocks(config, a, (k - 1) as nat);
        let list = entries(config, a, k - 1);
        assert(entry_visits(a, list, p.vars.len() as int, k - 1) =~= entry_visits(
            b,
            list,
            p.vars.len() as int,
            k - 1,
        ));
    }
}

proof fn lemma_same_places<N: Num>(
    config: ScenarioMpcRules<N>,
    a: ObservationModel<N>,
    b: ObservationModel<N>,
    k: int,
)
    requires
        agree_up_to_now(a, b),
    ensures
        scenario_places(config, a, k) == scenario_places(config, b, k),
{
    lemma_same_blocks(config, a, b, k as nat);
    lemma_same_entries(config, a, b, k);
}

proof fn lemma_same_loads<N: Num>(
    config: ScenarioMpcRules<N>,
    a: ObservationModel<N>,
    b: ObservationModel<N>,
    p: Program<N>,
    k: int,
    top: int,
    n: nat,
)
    requires
        agree_up_to_now(a, b),
        a.slot < a.building_series.len(),
    ensures
        with_loads(config, a, p, k, top, n) == with_loads(config, b, p, k, top, n),
    decreases n,
{
    if n > 0 {
        lemma_same_loads(config, a, b, p, k, top, (n - 1) as nat);
        lemma_same_places(config, a, b, k);
        forecasts_see_no_future_load(a, b, a.slot + n - 1);
        assert(expected_load(config, a, k, a.slot + n - 1) == expected_load(
            config,
            b,
            k,
            a.slot + n - 1,
        ));
    }
}

proof fn lemma_same_scenario_loads<N: Num>(
    config: ScenarioMpcRules<N>,
    a: ObservationModel<N>,
    b: ObservationModel<N>,
    history: N,
    k: nat,
)
    requires
        agree_up_to_now(a, b),
        a.slot < a.building_series.len(),
    ensures
        scenario_loads(config, a, history, k) == scenario_loads(config, b, history, k),
    decreases k,
{
    lemma_same_blocks(config, a, b, scenario_count(config));
    lemma_same_entries(config, a, b, 0);
    if k > 0 {
        lemma_same_scenario_loads(config, a, b, history, (k - 1) as nat);
        let p = scenario_loads(config, a, history, (k - 1) as nat);
        assert(with_tops(a, history, p, k - 1) == with_tops(b, history, p, k - 1));
        lemma_same_loads(
            config,
            a,
            b,
            with_tops(a, history, p, k - 1),
            k - 1,
            p.vars.len() as int,
            (sawtooth_end(config, a) - a.slot) as nat,
        );
    }
}

proof fn lemma_same_ties<N: Num>(
    config: ScenarioMpcRules<N>,
    a: ObservationModel<N>,
    b: ObservationModel<N>,
    p: Program<N>,
    k: int,
    n: nat,
)
    requires
        agree_up_to_now(a, b),
    ensures
        with_ties(config, a, p, k, n) == with_ties(config, b, p, k, n),
    decreases n,
{
    if n > 0 {
        lemma_same_ties(config, a, b, p, k, (n - 1) as nat);
        lemma_same_entries(config, a, b, 0);
        lemma_same_entries(config, a, b, k);
        lemma_same_places(config, a, b, 0);
        lemma_same_places(config, a, b, k);
    }
}

proof fn lemma_same_tied<N: Num>(
    config: ScenarioMpcRules<N>,
    a: ObservationModel<N>,
    b: ObservationModel<N>,
    p: Program<N>,
    k: nat,
)
    requires
        agree_up_to_now(a, b),
    ensures
        tied(config, a, p, k) == tied(config, b, p, k),
    decreases k,
{
    if k > 1 {
        lemma_same_tied(config, a, b, p, (k - 1) as nat);
        lemma_same_entries(config, a, b, k - 1);
        lemma_same_ties(
            config,
            a,
            b,
            tied(config, a, p, (k - 1) as nat),
            k - 1,
            entries(config, a, k - 1).len(),
        );
    }
}

/// The plan of a slot reads no realized building load after that slot: future
/// loads are sampled from the episodes or forecast from the past.
pub proof fn scenario_plans_see_no_future_load<N: Num>(
    config: ScenarioMpcRules<N>,
    a: ObservationModel<N>,
    b: ObservationModel<N>,
    p_max_hist: N,
)
    requires
        agree_up_to_now(a, b),
        a.slot < a.building_series.len(),
    ensures
        scenario_program(config, a, p_max_hist) == scenario_program(config, b, p_max_hist),
{
    let n = scenario_count(config);
    let history = history_of(config, p_max_hist);
    lemma_same_scenario_loads(config, a, b, history, n);
    lemma_same_tied(config, a, b, scenario_loads(config, a, history, n), n);
}

/// What the policy commits to, and the peak history after it, depend on the
/// building load up to the current slot only: over a solver that answers equal
/// programs alike, two policies of the same configuration and history that are shown
/// the same but for later building loads hand the solver equal programs and return
/// the same setpoints.
pub proof fn scenario_decisions_see_no_future_load<N: Num, B: MilpBackend<N>>(
    p1: ScenarioMpc<N, B>,
    o1: Observation<N>,
    l1: Vec<Setpoint<N>>,
    q1: ScenarioMpc<N, B>,
    p2: ScenarioMpc<N, B>,
    o2: Observation<N>,
    l2: Vec<Setpoint<N>>,
    q2: ScenarioMpc<N, B>,
)
    requires
        is_repeatable::<N, B>(p1.backend),
        p1.backend == p2.backend,
        p1.config@ == p2.config@,
        p1.p_max_hist == p2.p_max_hist,
        agree_up_to_now(o1@, o2@),
        o1@.slot < o1@.building_series.len(),
        p1.chooses(&o1, &l1, &q1),
        p2.chooses(&o2, &l2, &q2),
    ensures
        scenario_program(p1.config@, o1@, p1.p_max_hist) == scenario_program(
            p2.config@,
            o2@,
            p2.p_max_hist,
        ),
        l1@ == l2@,
        q1.p_max_hist == q2.p_max_hist,
{
    let config = p1.config@;
    scenario_plans_see_no_future_load(config, o1@, o2@, p1.p_max_hist);
    lemma_same_entries(config, o1@, o2@, 0);
    lemma_same_places(config, o1@, o2@, 0);
    if o1@.sessions.len() > 0 {
        let (m1, r1) = choose|model: Model<N>, r: Result<Solution<N>, SolveError>|
            #[trigger] scenario_decides(p1, o1@, l1@, q1, model, r);
        let (m2, r2) = choose|model: Model<N>, r: Result<Solution<N>, SolveError>|
            #[trigger] scenario_decides(p2, o2@, l2@, q2, model, r);
        assert(scenario_decides(p1, o1@, l1@, q1, m1, r1));
        assert(scenario_decides(p2, o2@, l2@, q2, m2, r2));
        assert(same_answer(r1, r2));
        assert(scenario_committed(config, o1@, r1) == scenario_committed(config, o2@, r2));
    } else {
        assert(l1@ =~= l2@);
    }
}

// ------------------------------------------------------------ the peak history

/// The variables of `p` are the first ones of `q`.
spec fn starts_with<N>(q: Program<N>, p: Program<N>) -> bool {
    &&& p.vars.len() <= q.vars.len()
    &&& forall|i: int| 0 <= i < p.vars.len() ==> #[trigger] q.vars[i] == p.vars[i]
}

proof fn lemma_loads_keep_vars<N: Num>(
    config: ScenarioMpcRules<N>,
    obs: ObservationModel<N>,
    p: Program<N>,
    k: int,
    top: int,
    n: nat,
)
    ensures
        starts_with(with_loads(config, obs, p, k, top, n), p),
    decreases n,
{
    if n > 0 {
        lemma_loads_keep_vars(config, obs, p, k, top, (n - 1) as nat);
    }
}

proof fn lemma_ties_keep_vars<N: Num>(
    config: ScenarioMpcRules<N>,
    obs: ObservationModel<N>,
    p: Program<N>,
    k: int,
    n: nat,
)
    ensures
        with_ties(config, obs, p, k, n).vars == p.vars,
    decreases n,
{
    if n > 0 {
        lemma_ties_keep_vars(config, obs, p, k, (n - 1) as nat);
    }
}

proof fn lemma_tied_keeps_vars<N: Num>(
    config: ScenarioMpcRules<N>,
    obs: ObservationModel<N>,
    p: Program<N>,
    k: nat,
)
    ensures
        tied(config, obs, p, k).vars == p.vars,
    decreases k,
{
    if k > 1 {
        lemma_tied_keeps_vars(config, obs, p, (k - 1) as nat);
        lemma_ties_keep_vars(
            config,
            obs,
            tied(config, obs, p, (k - 1) as nat),
            k - 1,
            entries(config, obs, k - 1).len(),
        );
    }
}

/// The variable of the time-related peak of scenario `k`.
pub open spec fn peak_var<N: Num>(
    config: ScenarioMpcRules<N>,
    obs: ObservationModel<N>,
    p_max_hist: N,
    k: nat,
) -> int {
    scenario_loads(config, obs, history_of(config, p_max_hist), k).vars.len() as int
}

proof fn lemma_peak_var<N: Num>(
    config: ScenarioMpcRules<N>,
    obs: ObservationModel<N>,
    history: N,
    k: nat,
    n: nat,
)
    requires
        k < n,
    ensures
        ({
            let at = scenario_loads(config, obs, history, k).vars.len() as int;
            let p = scenario_loads(config, obs, history, n);
            &&& at < p.vars.len()
            &&& p.vars[at].name == "pmaxtou_"@ + scenario_tag(k as int)
            &&& p.vars[at].lb == history
        }),
    decreases n,
{
    let before = scenario_loads(config, obs, history, (n - 1) as nat);
    let topped = with_tops(obs, history, before, n - 1);
    lemma_loads_keep_vars(
        config,
        obs,
        topped,
        n - 1,
        before.vars.len() as int,
        (sawtooth_end(config, obs) - obs.slot) as nat,
    );
    let p = scenario_loads(config, obs, history, n);
    assert(starts_with(p, topped));
    if k == n - 1 {
        let at = before.vars.len() as int;
        assert(p.vars[at] == topped.vars[at]);
    } else {
        lemma_peak_var(config, obs, history, k, (n - 1) as nat);
        let at = scenario_loads(config, obs, history, k).vars.len() as int;
        assert(p.vars[at] == topped.vars[at]);
        assert(topped.vars[at] == before.vars[at]);
    }
}

/// In the program of a slot, the time-related peak of every scenario is bounded
/// from below by the realized peak history.
pub proof fn peaks_start_at_the_history<N: Num>(
    config: ScenarioMpcRules<N>,
    obs: ObservationModel<N>,
    p_max_hist: N,
    k: nat,
)
    requires
        config.use_peak_history,
        k < scenario_count(config),
    ensures
        ({
            let at = peak_var(config, obs, p_max_hist, k);
            let p = scenario_program(config, obs, p_max_hist);
            &&& 0 <= at < p.vars.len()
            &&& p.vars[at].name == "pmaxtou_"@ + scenario_tag(k as int)
            &&& p.vars[at].lb == p_max_hist
        }),
{
    let n = scenario_count(config);
    let history = history_of(config, p_max_hist);
    lemma_peak_var(config, obs, history, k, n);
    lemma_tied_keeps_vars(config, obs, scenario_loads(config, obs, history, n), n);
}

/// The site's load in a slot in which `out` is committed, kW.
pub open spec fn realized_load<N: Num>(obs: ObservationModel<N>, out: Seq<Setpoint<N>>) -> N {
    obs.building_load_kw.plus(power_sum(out))
}

/// A decision for which the solver found an optimum.
pub open spec fn is_optimal_call<N: Num, B: MilpBackend<N>>(
    before: ScenarioMpc<N, B>,
    obs: ObservationModel<N>,
    out: Seq<Setpoint<N>>,
    after: ScenarioMpc<N, B>,
) -> bool {
    &&& after.config == before.config
    &&& exists|model: Model<N>, r: Result<Solution<N>, SolveError>|
        #[trigger] scenario_decides(before, obs, out, after, model, r) && optimal_point(r) is Some
}

/// Decisions one after the other, each with an optimum, and the policy's states
/// between them.
pub open spec fn is_call_history<N: Num, B: MilpBackend<N>>(
    policies: Seq<ScenarioMpc<N, B>>,
    seen: Seq<ObservationModel<N>>,
    outs: Seq<Seq<Setpoint<N>>>,
) -> bool {
    &&& policies.len() == seen.len() + 1
    &&& outs.len() == seen.len()
    &&& forall|i: int|
        0 <= i < seen.len() ==> #[trigger] is_optimal_call(policies[i], seen[i], outs[i], policies[i + 1])
}

/// The largest load realized in slots of class `peak` over the first `n`
/// decisions, zero at least, kW.
pub open spec fn realized_peak<N: Num>(
    seen: Seq<ObservationModel<N>>,
    outs: Seq<Seq<Setpoint<N>>>,
    n: nat,
) -> N
    decreases n,
{
    if n == 0 {
        zero_of()
    } else {
        let before = realized_peak(seen, outs, (n - 1) as nat);
        let load = realized_load(seen[n - 1], outs[n - 1]);
        if seen[n - 1].tou == TouClass::Peak && before.below(load) {
            load
        } else {
            before
        }
    }
}

/// The peak history of a fresh policy is the largest load that was realized in
/// slots of class `peak` over all decisions so far: decisions in other slots leave it
/// unchanged.
pub proof fn the_peak_history_is_the_realized_peak<N: Num, B: MilpBackend<N>>(
    policies: Seq<ScenarioMpc<N, B>>,
    seen: Seq<ObservationModel<N>>,
    outs: Seq<Seq<Setpoint<N>>>,
    n: nat,
)
    requires
        is_call_history(policies, seen, outs),
        policies[0].config.use_peak_history,
        policies[0].p_max_hist == zero_of::<N>(),
        n <= seen.len(),
    ensures
        policies[n as int].config == policies[0].config,
        policies[n as int].p_max_hist == realized_peak(seen, outs, n),
    decreases n,
{
    if n > 0 {
        let i = n - 1;
        the_peak_history_is_the_realized_peak(policies, seen, outs, (n - 1) as nat);
        assert(is_optimal_call(policies[i], seen[i], outs[i], policies[i + 1]));
        let (model, r) = choose|model: Model<N>, r: Result<Solution<N>, SolveError>|
            #[trigger] scenario_decides(policies[i], seen[i], outs[i], policies[i + 1], model, r)
                && optimal_point(r) is Some;
        assert(scenario_decides(policies[i], seen[i], outs[i], policies[i + 1], model, r));
        assert(policies[i].config@.use_peak_history == policies[i].config.use_peak_history);
    }
}

/// The realized peak is the maximum of zero and of the loads in slots of class
/// `peak`.
pub proof fn the_realized_peak_is_a_maximum<N: Num>(
    value: spec_fn(N) -> real,
    unit: real,
    seen: Seq<ObservationModel<N>>,
    outs: Seq<Seq<Setpoint<N>>>,
    n: nat,
)
    requires
        rounds_toward_zero(value, unit),
        n <= seen.len(),
        n <= outs.len(),
        forall|i: int|
            #![trigger seen[i]]
            0 <= i < n ==> is_number(realized_load(seen[i], outs[i])),
    ensures
        ({
            let h = realized_peak(seen, outs, n);
            &&& is_number(h)
            &&& 0real <= value(h)
            &&& forall|i: int|
                #![trigger seen[i]]
                0 <= i < n && seen[i].tou == TouClass::Peak ==> value(realized_load(seen[i], outs[i]))
                    <= value(h)
            &&& h == zero_of::<N>() || exists|i: int|
                #![trigger seen[i]]
                0 <= i < n && seen[i].tou == TouClass::Peak && h == realized_load(seen[i], outs[i])
        }),
    decreases n,
{
    lemma_constants(value, unit);
    if n > 0 {
        let m = (n - 1) as nat;
        the_realized_peak_is_a_maximum(value, unit, seen, outs, m);
        let before = realized_peak(seen, outs, m);
        assert(is_number(realized_load(seen[m as int], outs[m as int])));
        lemma_compare(value, unit, before, realized_load(seen[m as int], outs[m as int]));
        let h = realized_peak(seen, outs, n);
        if h == before && h != zero_of::<N>() {
            let i = choose|i: int|
                #![trigger seen[i]]
                0 <= i < m && seen[i].tou == TouClass::Peak && before == realized_load(seen[i], outs[i]);
            assert(0 <= i < n && seen[i].tou == TouClass::Peak);
        }
    }
}

} // verus!
