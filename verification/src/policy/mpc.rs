//! Receding-horizon MPC policy over the solver-agnostic MILP layer.
//!
//! Honest information set: the model sees only currently-connected sessions
//! plus public information (prices, TOU classes, DR windows, site cap) and a
//! building-load forecast from the past. No knowledge of future arrivals. The
//! engine still clamps every setpoint, so a wrong solve can cost money but
//! never break physics.
//!
//! The formulation is a pure LP (see [`formulation`](crate::policy::formulation)):
//! per connected session a block over its remaining window, with a reachability
//! terminal condition (the target must still be attainable at full power after
//! the modeled horizon, with a high-penalty shortfall slack); the net load of
//! each slot; peak variables for both demand components; DR overflow priced at
//! each event's penalty rate; a small degradation cost on discharge so V2B is
//! never free.

use vstd::prelude::*;

use crate::milp::{
    is_repeatable, same_answer, MilpBackend, Model, Program, SolStatus, Solution, SolveError,
};
use crate::num::{count, from_count, Num};
use crate::policy::formulation::{
    add_agg, add_demand, add_events, add_visit, are_placed, block_base, demand_is_priced, is_placed, lemma_places,
    lemma_with_agg, lemma_with_demand, lemma_with_events, lemma_with_visits, place_of, places_of, spans_of,
    start_fits, with_agg, with_all_visits, with_demand, with_events, with_visits, Place, PlanRates, Span, Start,
    Visit, VisitModel,
};
use crate::policy::Policy;
use crate::state::{Observation, ObservationModel, SessionView, Setpoint};
use crate::text::{decimal, push_u64, push_usize};

verus! {

#[derive(Debug, Clone, Copy, PartialEq)]
pub struct MpcConfig<N> {
    /// Maximum number of future slots modeled per solve.
    pub lookahead_slots: usize,
    /// Penalty per kWh of departure-target shortfall (keep it dominating).
    pub shortfall_usd_per_kwh: N,
    /// Battery-wear cost per kWh discharged (building side).
    pub degradation_usd_per_kwh: N,
}

impl<N: Num> Default for MpcConfig<N> {
    /// A day of lookahead at 15-minute slots, a dominating shortfall penalty,
    /// and five cents of wear per kWh.
    fn default() -> (r: Self)
        ensures
            r == (MpcConfig {
                lookahead_slots: 96,
                shortfall_usd_per_kwh: count::<N>(1_000_000),
                degradation_usd_per_kwh: N::rational(1, 20),
            }),
    {
        MpcConfig {
            lookahead_slots: 96,
            shortfall_usd_per_kwh: N::ratio(1_000_000, 1),
            degradation_usd_per_kwh: N::ratio(1, 20),
        }
    }
}

/// Hours per slot.
pub open spec fn slot_hours<N: Num>(slot_minutes: N) -> N {
    slot_minutes.over(count(60))
}

/// The terminal requirement of a visit of which only the slots up to
/// `last_slot` are modeled: the target minus what can still be added at full
/// power afterwards, the floor at least, kWh.
pub open spec fn terminal_need<N: Num>(
    target_kwh: N,
    departure_slot: usize,
    last_slot: int,
    max_charge_kw: N,
    dt: N,
    eta_c: N,
    floor_kwh: N,
) -> N {
    let reachable = eta_c.times(max_charge_kw).times(dt).times(count(departure_slot - 1 - last_slot));
    target_kwh.minus(reachable).greater(floor_kwh)
}

/// Terminal requirement after horizon truncation: the target minus what the
/// session can still add at full power after the modeled window, floored at
/// the SoC floor.
pub fn reach_needed<N: Num>(
    target_kwh: N,
    departure_slot: usize,
    last_modeled_slot: usize,
    max_charge_kw: N,
    dt: N,
    eta_c: N,
    floor_kwh: N,
) -> (r: N)
    requires
        last_modeled_slot < departure_slot,
    ensures
        r == terminal_need(
            target_kwh,
            departure_slot,
            last_modeled_slot as int,
            max_charge_kw,
            dt,
            eta_c,
            floor_kwh,
        ),
{
    let slots_after: usize = departure_slot - 1 - last_modeled_slot;
    let reachable = eta_c.mul(max_charge_kw).mul(dt).mul(from_count(slots_after));
    target_kwh.sub(reachable).max(floor_kwh)
}

/// The latest departure of the first `n` sessions.
pub open spec fn last_departure<N>(sessions: Seq<SessionView<N>>, n: nat) -> int
    decreases n,
{
    if n == 0 {
        0
    } else {
        let before = last_departure(sessions, (n - 1) as nat);
        let d = sessions[n - 1].vehicle.departure_slot as int;
        if before < d {
            d
        } else {
            before
        }
    }
}

/// The first slot that a plan does not model.
pub open spec fn plan_end<N: Num>(config: MpcConfig<N>, obs: ObservationModel<N>) -> int {
    let departure = last_departure(obs.sessions, obs.sessions.len());
    let series = if departure < obs.building_series.len() {
        departure
    } else {
        obs.building_series.len() as int
    };
    let look = obs.slot + config.lookahead_slots;
    if series < look {
        series
    } else {
        look
    }
}

/// Vehicle and arrival, as they tag a visit.
pub open spec fn visit_tag(vehicle_id: u32, arrival_slot: usize) -> Seq<char> {
    "v"@ + decimal(vehicle_id as nat) + "a"@ + decimal(arrival_slot as nat)
}

/// Vehicle and arrival, as they tag a visit.
pub(crate) fn make_visit_tag(vehicle_id: u32, arrival_slot: usize) -> (r: String)
    ensures
        r@ == visit_tag(vehicle_id, arrival_slot),
{
    let mut out = "v".to_owned();
    push_u64(&mut out, vehicle_id as u64);
    out.append("a");
    push_usize(&mut out, arrival_slot);
    out
}

/// The remaining visit of a connected session, up to `end`.
pub open spec fn connected_visit<N: Num>(
    obs: ObservationModel<N>,
    view: SessionView<N>,
    end: int,
) -> VisitModel<N> {
    let v = view.vehicle;
    let dt = slot_hours(obs.slot_minutes);
    let last = if v.departure_slot < end {
        v.departure_slot - 1
    } else {
        end - 1
    };
    VisitModel {
        tag: visit_tag(v.vehicle_id, v.arrival_slot),
        first_slot: obs.slot,
        last_slot: last as usize,
        charge_kwh: view.max_charge_kw.times(dt),
        discharge_kwh: view.max_discharge_kw.times(dt),
        floor_kwh: v.min_soc_kwh,
        ceiling_kwh: v.battery_kwh,
        start: Start::At(view.soc_kwh),
        needed_kwh: terminal_need(
            v.soc_target_kwh,
            v.departure_slot,
            last,
            view.max_charge_kw,
            dt,
            obs.charge_efficiency,
            v.min_soc_kwh,
        ),
    }
}

/// The visits of a plan: the connected sessions in their order.
pub open spec fn plan_visits<N: Num>(config: MpcConfig<N>, obs: ObservationModel<N>) -> Seq<VisitModel<N>> {
    Seq::new(
        obs.sessions.len(),
        |i: int| connected_visit(obs, obs.sessions[i], plan_end(config, obs)),
    )
}

/// The rates of a plan.
pub open spec fn plan_rates<N: Num>(config: MpcConfig<N>, obs: ObservationModel<N>) -> PlanRates<N> {
    PlanRates {
        charge_efficiency: obs.charge_efficiency,
        discharge_efficiency: obs.discharge_efficiency,
        shortfall_usd_per_kwh: config.shortfall_usd_per_kwh,
        degradation_usd_per_kwh: config.degradation_usd_per_kwh,
        ramp_kwh_per_slot: None,
    }
}

/// The building loads that a plan expects.
pub open spec fn plan_building<N: Num>(config: MpcConfig<N>, obs: ObservationModel<N>) -> Seq<N> {
    Seq::new((plan_end(config, obs) - obs.slot) as nat, |k: int| obs.forecast(obs.slot + k))
}

/// Whether there is anything to plan.
pub open spec fn has_plan<N: Num>(config: MpcConfig<N>, obs: ObservationModel<N>) -> bool {
    obs.sessions.len() > 0 && plan_end(config, obs) > obs.slot
}

/// The plan's program up to its visits.
pub open spec fn plan_blocks<N: Num>(config: MpcConfig<N>, obs: ObservationModel<N>) -> Program<N> {
    with_all_visits(
        Program::empty(),
        "target_"@,
        plan_visits(config, obs),
        plan_rates(config, obs),
        obs.price_series,
    )
}

/// The plan's program up to its net loads.
pub open spec fn plan_loads<N: Num>(config: MpcConfig<N>, obs: ObservationModel<N>) -> Program<N> {
    with_agg(
        plan_blocks(config, obs),
        obs.slot as int,
        plan_building(config, obs),
        obs.site_cap_kw,
        places_of(0, spans_of(plan_visits(config, obs))),
        slot_hours(obs.slot_minutes),
    )
}

/// The plan's program up to its demand components.
pub open spec fn plan_peaks<N: Num>(config: MpcConfig<N>, obs: ObservationModel<N>) -> Program<N> {
    with_demand(
        plan_loads(config, obs),
        obs.slot as int,
        plan_building(config, obs).len(),
        obs.tou_series,
        plan_blocks(config, obs).vars.len() as int,
        obs.demand_charge_usd_per_kw,
        obs.demand_charge_peak_usd_per_kw,
    )
}

/// The linear program of a slot.
pub open spec fn plan_program<N: Num>(config: MpcConfig<N>, obs: ObservationModel<N>) -> Program<N> {
    with_events(
        plan_peaks(config, obs),
        obs.dr_events,
        None,
        obs.slot as int,
        plan_blocks(config, obs).vars.len() as int,
        slot_hours(obs.slot_minutes),
        plan_building(config, obs).len(),
        obs.dr_events.len(),
    )
}

/// The point of an answer that is optimal.
pub open spec fn optimal_point<N>(r: Result<Solution<N>, SolveError>) -> Option<Seq<N>> {
    match r {
        Ok(s) => if s.status == SolStatus::Optimal {
            Some(s.values@)
        } else {
            None
        },
        Err(e) => None,
    }
}

/// The setpoint that a point gives to the visit at `place` for its first slot.
pub open spec fn first_power<N: Num>(index: usize, base: int, values: Seq<N>, dt: N) -> Setpoint<N> {
    Setpoint { session_index: index, power_kw: values[base].minus(values[base + 1]).over(dt) }
}

/// What the policy commits to when the solver answers `r`: the first slot of
/// an optimal plan, nothing otherwise.
pub open spec fn committed<N: Num>(
    config: MpcConfig<N>,
    obs: ObservationModel<N>,
    r: Result<Solution<N>, SolveError>,
) -> Seq<Setpoint<N>> {
    let spans = spans_of(plan_visits(config, obs));
    match optimal_point(r) {
        Some(values) => Seq::new(
            obs.sessions.len(),
            |i: int|
                first_power(
                    obs.sessions[i].index,
                    place_of(0, spans, i).base as int,
                    values,
                    slot_hours(obs.slot_minutes),
                ),
        ),
        None => Seq::empty(),
    }
}

/// The planned peak over slots of class `peak` in an optimal plan that prices
/// demand.
pub open spec fn planned_peak<N: Num>(
    config: MpcConfig<N>,
    obs: ObservationModel<N>,
    r: Result<Solution<N>, SolveError>,
) -> Option<N> {
    if demand_is_priced(obs.demand_charge_usd_per_kw, obs.demand_charge_peak_usd_per_kw) {
        match optimal_point(r) {
            Some(values) => Some(values[plan_loads(config, obs).vars.len() as int + 1]),
            None => None,
        }
    } else {
        None
    }
}

/// A plan that waits for its solution.
#[derive(Debug)]
pub struct MpcPlan<N> {
    pub model: Model<N>,
    /// Where the visit of each connected session stands.
    pub places: Vec<Place>,
    /// The variable of the planned peak over slots of class `peak`.
    pub peak_var: Option<usize>,
}

impl<N: Num> MpcPlan<N> {
    /// The plan is the one of `obs`.
    pub open spec fn is_for(&self, config: MpcConfig<N>, obs: ObservationModel<N>) -> bool {
        let top = plan_loads(config, obs).vars.len() + 1;
        &&& self.model@ == plan_program(config, obs)
        &&& self.model@.well_formed()
        &&& self.places@ == places_of(0, spans_of(plan_visits(config, obs)))
        &&& are_placed(self.places@, self.model@.vars.len())
        &&& match self.peak_var {
            Some(i) => demand_is_priced(
                obs.demand_charge_usd_per_kw,
                obs.demand_charge_peak_usd_per_kw,
            ) && i == top && i < self.model@.vars.len(),
            None => !demand_is_priced(
                obs.demand_charge_usd_per_kw,
                obs.demand_charge_peak_usd_per_kw,
            ),
        }
    }
}

pub struct Mpc<N, B> {
    pub backend: B,
    pub config: MpcConfig<N>,
    /// The planned peak of each solve so far, kW.
    pub planned_peaks: Vec<N>,
}

impl<N: Num, B: MilpBackend<N>> Mpc<N, B> {
    pub fn new(backend: B, config: MpcConfig<N>) -> (r: Self)
        ensures
            r.backend == backend,
            r.config == config,
            r.planned_peaks@.len() == 0,
    {
        Mpc { backend, config, planned_peaks: Vec::new() }
    }
}

/// The first slot that a plan does not model.
fn find_end<N: Num>(config: &MpcConfig<N>, obs: &Observation<N>) -> (r: usize)
    requires
        obs@.well_formed(),
    ensures
        r == plan_end(*config, obs@),
{
    let mut departure: usize = 0;
    for i in 0..obs.sessions.len()
        invariant
            departure == last_departure(obs@.sessions, i as nat),
    {
        let d: usize = obs.sessions[i].vehicle.departure_slot;
        if departure < d {
            departure = d;
        }
    }
    let n: usize = obs.building_series.len();
    let series: usize = if departure < n {
        departure
    } else {
        n
    };
    let look: usize = obs.slot.saturating_add(config.lookahead_slots);
    if series < look {
        series
    } else {
        look
    }
}

/// The remaining visit of a connected session, up to `end`.
fn make_connected_visit<N: Num>(obs: &Observation<N>, view: &SessionView<N>, end: usize) -> (visit: Visit<N>)
    requires
        obs.slot < end,
        obs.slot < view.vehicle.departure_slot,
    ensures
        visit@ == connected_visit(obs@, *view, end as int),
        visit.first_slot <= visit.last_slot < end,
        visit.start is At,
{
    let v = &view.vehicle;
    let dt = obs.slot_minutes.div(from_count(60));
    let last: usize = if v.departure_slot < end {
        v.departure_slot - 1
    } else {
        end - 1
    };
    let visit = Visit {
        tag: make_visit_tag(v.vehicle_id, v.arrival_slot),
        first_slot: obs.slot,
        last_slot: last,
        charge_kwh: view.max_charge_kw.mul(dt),
        discharge_kwh: view.max_discharge_kw.mul(dt),
        floor_kwh: v.min_soc_kwh,
        ceiling_kwh: v.battery_kwh,
        start: Start::At(view.soc_kwh),
        needed_kwh: reach_needed(
            v.soc_target_kwh,
            v.departure_slot,
            last,
            view.max_charge_kw,
            dt,
            obs.charge_efficiency,
            v.min_soc_kwh,
        ),
    };
    assert(visit@ =~= connected_visit(obs@, *view, end as int));
    visit
}

impl<N: Num> MpcConfig<N> {
    /// Lays out the plan of a slot, if there is anything to plan.
    pub fn plan(&self, obs: &Observation<N>) -> (r: Option<MpcPlan<N>>)
        requires
            obs@.well_formed(),
        ensures
            r is Some <==> has_plan(*self, obs@),
            r matches Some(p) ==> p.is_for(*self, obs@),
    {
        if obs.sessions.len() == 0 {
            return None;
        }
        let end: usize = find_end(self, obs);
        if end <= obs.slot {
            return None;
        }
        let dt = obs.slot_minutes.div(from_count(60));
        let rates = PlanRates {
            charge_efficiency: obs.charge_efficiency,
            discharge_efficiency: obs.discharge_efficiency,
            shortfall_usd_per_kwh: self.shortfall_usd_per_kwh,
            degradation_usd_per_kwh: self.degradation_usd_per_kwh,
            ramp_kwh_per_slot: None,
        };
        let ghost visits = plan_visits(*self, obs@);
        let ghost spans = spans_of(visits);
        let mut m: Model<N> = Model::default();
        let mut places: Vec<Place> = Vec::new();
        for i in 0..obs.sessions.len()
            invariant
                obs@.well_formed(),
                obs.slot < end <= obs@.building_series.len(),
                end == plan_end(*self, obs@),
                rates == plan_rates(*self, obs@),
                visits == plan_visits(*self, obs@),
                spans == spans_of(visits),
                m@ == with_visits(
                    Program::empty(),
                    "target_"@,
                    visits,
                    rates,
                    obs@.price_series,
                    i as nat,
                ),
                m@.vars.len() == block_base(0, spans, i as nat),
                block_base(0, spans, i as nat) <= usize::MAX,
                places@ == places_of(0, spans).take(i as int),
                forall|j: int|
                    0 <= j < i ==> (#[trigger] visits[j]).first_slot <= visits[j].last_slot
                        && visits[j].start is At,
        {
            let view = obs.sessions[i];
            assert(obs@.sessions[i as int].index == i);
            let visit = make_connected_visit(obs, &view, end);
            assert(visits[i as int] == visit@);
            let place = add_visit(&mut m, "target_", &visit, &rates, obs.price_series);
            assert(m.vars.len() <= usize::MAX);
            assert(spans[i as int] == (Span {
                first_slot: visit.first_slot,
                last_slot: visit.last_slot,
            }));
            places.push(place);
            assert(places@ =~= places_of(0, spans).take(i + 1));
        }
        proof {
            let n = obs@.sessions.len();
            assert forall|i: int| 0 <= i < n implies start_fits(
                (#[trigger] visits[i]).start,
                block_base(0, spans, i as nat) as nat,
            ) by {}
            lemma_with_visits(Program::empty(), "target_"@, visits, rates, obs@.price_series, n);
            assert forall|i: int| 0 <= i < n implies (#[trigger] spans[i]).first_slot
                <= spans[i].last_slot by {
                assert(visits[i].first_slot <= visits[i].last_slot);
            }
            lemma_places(0, spans, n);
            assert(places_of(0, spans).take(n as int) =~= places_of(0, spans));
            assert(places@ =~= places_of(0, spans));
            assert(m@.vars.len() > 0) by {
                assert(visits[0].first_slot <= visits[0].last_slot);
                assert(0 <= block_base(0, spans, 0));
            }
            assert(are_placed(places@, m@.vars.len()));
            assert(m.vars.len() <= usize::MAX);
            crate::policy::formulation::lemma_placed_later(places@, m@.vars.len(), usize::MAX as nat);
        }
        let mut building: Vec<N> = Vec::new();
        for k in 0..end - obs.slot
            invariant
                obs@.well_formed(),
                obs.slot < end <= obs@.building_series.len(),
                building@ == Seq::new(k as nat, |j: int| obs@.forecast(obs@.slot + j)),
        {
            building.push(obs.building_forecast_kw(obs.slot + k));
            assert(building@ =~= Seq::new((k + 1) as nat, |j: int| obs@.forecast(obs@.slot + j)));
        }
        assert(building@ =~= plan_building(*self, obs@));
        let ghost blocks = m@;
        let agg = add_agg(&mut m, obs.slot, &building, obs.site_cap_kw, &places, dt);
        let loads: usize = m.vars.len();
        let ghost loaded = m@;
        proof {
            lemma_with_agg(blocks, obs.slot as int, building@, obs.site_cap_kw, places@, dt);
        }
        let priced: bool = add_demand(
            &mut m,
            obs.slot,
            building.len(),
            obs.tou_series,
            agg,
            obs.demand_charge_usd_per_kw,
            obs.demand_charge_peak_usd_per_kw,
        );
        let peaks: usize = m.vars.len();
        let ghost peaked = m@;
        proof {
            if priced {
                lemma_with_demand(
                    loaded,
                    obs.slot as int,
                    building@.len(),
                    obs.tou_series@,
                    agg as int,
                    obs.demand_charge_usd_per_kw,
                    obs.demand_charge_peak_usd_per_kw,
                );
            }
        }
        add_events(&mut m, obs.dr_events, None, obs.slot, building.len(), agg, dt);
        assert(m.vars.len() <= usize::MAX);
        proof {
            lemma_with_events(
                peaked,
                obs.dr_events@,
                None,
                obs.slot as int,
                agg as int,
                dt,
                building@.len(),
                obs.dr_events@.len(),
            );
            crate::policy::formulation::lemma_placed_later(places@, blocks.vars.len(), m@.vars.len());
        }
        let peak_var: Option<usize> = if priced {
            Some(loads + 1)
        } else {
            None
        };
        Some(MpcPlan { model: m, places, peak_var })
    }

    /// What the policy commits to when the solver answers the plan with
    /// `answer`, and the planned peak.
    pub fn commit(&self, obs: &Observation<N>, plan: &MpcPlan<N>, answer: &Result<Solution<N>, SolveError>) -> (r:
        (Vec<Setpoint<N>>, Option<N>))
        requires
            obs@.well_formed(),
            plan.is_for(*self, obs@),
            answer matches Ok(s) ==> s.values@.len() == plan.model@.vars.len(),
        ensures
            r.0@ == committed(*self, obs@, *answer),
            r.1 == planned_peak(*self, obs@, *answer),
    {
        let ghost spans = spans_of(plan_visits(*self, obs@));
        let dt = obs.slot_minutes.div(from_count(60));
        let mut out: Vec<Setpoint<N>> = Vec::new();
        match answer {
            Ok(solution) => {
                if solution.status == SolStatus::Optimal {
                    let peak: Option<N> = match plan.peak_var {
                        Some(i) => Some(solution.values[i]),
                        None => None,
                    };
                    let ghost all = committed(*self, obs@, *answer);
                    for i in 0..obs.sessions.len()
                        invariant
                            dt == slot_hours(obs@.slot_minutes),
                            *answer == Ok::<Solution<N>, SolveError>(*solution),
                            solution.status == SolStatus::Optimal,
                            spans == spans_of(plan_visits(*self, obs@)),
                            all == committed(*self, obs@, *answer),
                            plan.places@ == places_of(0, spans),
                            are_placed(plan.places@, plan.model@.vars.len()),
                            solution.values@.len() == plan.model@.vars.len(),
                            out@ == all.take(i as int),
                    {
                        let place = plan.places[i];
                        assert(is_placed(plan.places@[i as int], plan.model@.vars.len()));
                        assert(solution.values.len() <= usize::MAX);
                        let power_kw = solution.values[place.base].sub(solution.values[place.base + 1]).div(
                            dt,
                        );
                        out.push(Setpoint { session_index: obs.sessions[i].index, power_kw });
                        assert(out@[i as int] == all[i as int]);
                        assert(out@ =~= all.take(i + 1));
                    }
                    assert(all.take(all.len() as int) =~= all);
                    (out, peak)
                } else {
                    (out, None)
                }
            },
            Err(_) => (out, None),
        }
    }
}

/// The answer `r` to the plan of `obs`, the setpoints committed on it, and the
/// planned peaks recorded then.
pub open spec fn decides<N: Num, B: MilpBackend<N>>(
    before: Mpc<N, B>,
    obs: ObservationModel<N>,
    out: Seq<Setpoint<N>>,
    after: Mpc<N, B>,
    model: Model<N>,
    r: Result<Solution<N>, SolveError>,
) -> bool {
    let config = before.config;
    &&& model@ == plan_program(config, obs)
    &&& before.backend.answers(&model, &r)
    &&& out == committed(config, obs, r)
    &&& after.planned_peaks@ == match planned_peak(config, obs, r) {
        Some(p) => before.planned_peaks@.push(p),
        None => before.planned_peaks@,
    }
}

impl<N: Num, B: MilpBackend<N>> Policy<N> for Mpc<N, B> {
    open spec fn title(&self) -> &'static str {
        "mpc"
    }

    open spec fn ready(&self) -> bool {
        true
    }

    open spec fn chooses(&self, obs: &Observation<N>, out: &Vec<Setpoint<N>>, after: &Self) -> bool {
        &&& after.backend == self.backend
        &&& after.config == self.config
        &&& if has_plan(self.config, obs@) {
            exists|model: Model<N>, r: Result<Solution<N>, SolveError>|
                #[trigger] decides(*self, obs@, out@, *after, model, r)
        } else {
            out@.len() == 0 && after.planned_peaks@ == self.planned_peaks@
        }
    }

    fn name(&self) -> (r: &'static str) {
        "mpc"
    }

    fn decide(&mut self, obs: &Observation<N>) -> (out: Vec<Setpoint<N>>) {
        match self.config.plan(obs) {
            Some(plan) => {
                let answer = self.backend.solve(&plan.model);
                let (out, peak) = self.config.commit(obs, &plan, &answer);
                match peak {
                    Some(p) => {
                        self.planned_peaks.push(p);
                    },
                    None => {},
                }
                assert(decides(*old(self), obs@, out@, *self, plan.model, answer));
                out
            },
            None => Vec::new(),
        }
    }
}

// -------------------------------------------------------------------- laws

/// Two observations differ at most in the building loads after the current slot.
pub open spec fn agree_up_to_now<N: Num>(a: ObservationModel<N>, b: ObservationModel<N>) -> bool {
    &&& b == (ObservationModel { building_series: b.building_series, ..a })
    &&& a.building_series.len() == b.building_series.len()
    &&& forall|s: int|
        0 <= s <= a.slot ==> #[trigger] a.building_series[s] == b.building_series[s]
}

/// The forecast reads no building load after the current slot.
pub proof fn forecasts_see_no_future_load<N: Num>(a: ObservationModel<N>, b: ObservationModel<N>, slot: int)
    requires
        agree_up_to_now(a, b),
        a.slot < a.building_series.len(),
        0 <= slot,
    ensures
        a.forecast(slot) == b.forecast(slot),
{
    if slot > a.slot {
        let day = a.slots_per_day();
        let ahead = slot - a.slot - 1;
        let back = (ahead / day + 1) * day;
        vstd::arithmetic::div_mod::lemma_fundamental_div_mod(ahead, day);
        vstd::arithmetic::div_mod::lemma_mod_bound(ahead, day);
        assert((ahead / day + 1) * day == day * (ahead / day) + day) by (nonlinear_arith);
        if back <= slot {
            assert(0 <= slot - back <= a.slot);
            assert(a.building_series[slot - back] == b.building_series[slot - back]);
        }
    } else {
        assert(a.building_series[slot] == b.building_series[slot]);
    }
}

/// The plan of a slot reads no building load after that slot: the controller has
/// no foresight of the building.
pub proof fn plans_see_no_future_load<N: Num>(
    config: MpcConfig<N>,
    a: ObservationModel<N>,
    b: ObservationModel<N>,
)
    requires
        agree_up_to_now(a, b),
        a.slot < a.building_series.len(),
    ensures
        plan_program(config, a) == plan_program(config, b),
{
    assert(plan_end(config, a) == plan_end(config, b));
    assert(plan_building(config, a) =~= plan_building(config, b)) by {
        assert forall|k: int| 0 <= k < plan_building(config, a).len() implies #[trigger] plan_building(
            config,
            a,
        )[k] == plan_building(config, b)[k] by {
            forecasts_see_no_future_load(a, b, a.slot + k);
        }
    }
    assert(plan_visits(config, a) =~= plan_visits(config, b));
}

/// What the policy commits to depends on the building load up to the current slot
/// only: over a solver that answers equal programs alike, two policies of the same
/// configuration that are shown the same but for later building loads return the
/// same setpoints.
pub proof fn decisions_see_no_future_load<N: Num, B: MilpBackend<N>>(
    p1: Mpc<N, B>,
    o1: Observation<N>,
    l1: Vec<Setpoint<N>>,
    q1: Mpc<N, B>,
    p2: Mpc<N, B>,
    o2: Observation<N>,
    l2: Vec<Setpoint<N>>,
    q2: Mpc<N, B>,
)
    requires
        is_repeatable::<N, B>(p1.backend),
        p1.backend == p2.backend,
        p1.config == p2.config,
        agree_up_to_now(o1@, o2@),
        o1@.slot < o1@.building_series.len(),
        p1.chooses(&o1, &l1, &q1),
        p2.chooses(&o2, &l2, &q2),
    ensures
        plan_program(p1.config, o1@) == plan_program(p2.config, o2@),
        l1@ == l2@,
{
    let config = p1.config;
    plans_see_no_future_load(config, o1@, o2@);
    assert(plan_visits(config, o1@) =~= plan_visits(config, o2@));
    if has_plan(config, o1@) {
        let (m1, r1) = choose|model: Model<N>, r: Result<Solution<N>, SolveError>|
            #[trigger] decides(p1, o1@, l1@, q1, model, r);
        let (m2, r2) = choose|model: Model<N>, r: Result<Solution<N>, SolveError>|
            #[trigger] decides(p2, o2@, l2@, q2, model, r);
        assert(decides(p1, o1@, l1@, q1, m1, r1));
        assert(decides(p2, o2@, l2@, q2, m2, r2));
        assert(same_answer(r1, r2));
        assert(committed(config, o1@, r1) =~= committed(config, o2@, r2));
    } else {
        assert(l1@ =~= l2@);
    }
}

} // verus!
