//! The laws of the planning programs: a point satisfies the program of a planner just where
//! it is a plan that cars, ports, building and tariff allow, and its objective is what that
//! plan costs.

use vstd::prelude::*;

use crate::billing::{peak, peak_tou, peaks_bound_the_net_loads};
use crate::engine::SlotRecord;
use crate::milp::Program;
use crate::num::{count, one_of, zero_of, Num};
use crate::policy::formulation::{
    block_base, demand_is_priced, level_var, place_of, places_of, spans_of, stored, with_agg, with_events, with_level,
    with_visits, PlanRates, Span, Start, VisitModel,
};
use crate::policy::mpc::{
    connected_visit, has_plan, last_departure, plan_blocks, plan_building, plan_end, plan_loads, plan_peaks,
    plan_program, plan_rates, plan_visits, slot_hours, terminal_need, MpcConfig,
};
use crate::policy::oracle::{
    is_plannable, latest_visit, oracle_blocks, oracle_peaks, oracle_program, oracle_rates, session_spans,
    session_start, session_visit, session_visits, OracleConfig,
};
use crate::policy::points::{
    are_laid_out, are_net_loads, are_numbered, are_peaks, cost_at, drain, drawn, event_place, events_cost, given,
    has_opposites, held, held_before, is_kept_visit, is_nth_event_kept, is_physical, is_visit_kept, lacking,
    lemma_agg_meaning, lemma_base_grows, lemma_demand_meaning, lemma_empty, lemma_events_meaning, lemma_long_enough,
    lemma_ones, lemma_overflow_len, lemma_visits_meaning, per_hour, prices_fit, satisfies, start_at, terms_of,
    visits_cost, Terms,
};
use crate::rounding::{
    fits, has_infinity, has_measures, is_number, lemma_closer_fits, lemma_compare, lemma_constants, lemma_finite,
    lemma_minus, lemma_over, lemma_times, most, rounds_toward_zero,
};
use crate::scenario::{DrEvent, ScenarioModel, TouClass, Vehicle};
use crate::site::arrival_order;
use crate::soundness::lemma_arrival_order;
use crate::state::{ObservationModel, SessionView};

verus! {

// ------------------------------------------------------------------ MPC plans

/// The slots of each connected session in a plan that ends before slot `end`: from now on,
/// up to the departure.
pub open spec fn car_spans<N>(obs: ObservationModel<N>, end: int) -> Seq<Span> {
    Seq::new(
        obs.sessions.len(),
        |i: int|
            Span {
                first_slot: obs.slot,
                last_slot: if obs.sessions[i].vehicle.departure_slot < end {
                    (obs.sessions[i].vehicle.departure_slot - 1) as usize
                } else {
                    (end - 1) as usize
                },
            },
    )
}

/// What a plan asks of connected session `i`: the limits of car and port over a slot, the
/// range of the battery, and by the end of the plan what leaves the target in reach.
pub open spec fn car_terms<N: Num>(obs: ObservationModel<N>, end: int, i: int) -> Terms<N> {
    let view = obs.sessions[i];
    let v = view.vehicle;
    let hours = slot_hours(obs.slot_minutes);
    let last = car_spans(obs, end)[i].last_slot as int;
    Terms {
        slots: (last - obs.slot + 1) as nat,
        charge: view.max_charge_kw.times(hours),
        discharge: view.max_discharge_kw.times(hours),
        floor: v.min_soc_kwh,
        ceiling: v.battery_kwh,
        needed: terminal_need(
            v.soc_target_kwh,
            v.departure_slot,
            last,
            view.max_charge_kw,
            hours,
            obs.charge_efficiency,
            v.min_soc_kwh,
        ),
        charge_efficiency: obs.charge_efficiency,
        discharge_efficiency: obs.discharge_efficiency,
        ramp: None,
    }
}

/// The first net-load variable of a plan.
pub open spec fn first_load<N>(obs: ObservationModel<N>, end: int) -> int {
    block_base(0, car_spans(obs, end), obs.sessions.len())
}

/// The building loads that a plan expects.
pub open spec fn expected_loads<N: Num>(obs: ObservationModel<N>, end: int) -> Seq<N> {
    Seq::new((end - obs.slot) as nat, |k: int| obs.forecast(obs.slot + k))
}

/// Demand costs something.
pub open spec fn demand_costs<N: Num>(value: spec_fn(N) -> real, rate: N, peak_rate: N) -> bool {
    0real < value(rate) || 0real < value(peak_rate)
}

/// The first variable behind the net loads and the peaks.
pub open spec fn first_overflow<N: Num>(value: spec_fn(N) -> real, obs: ObservationModel<N>, end: int) -> int {
    first_load(obs, end) + (end - obs.slot) + if demand_costs(
        value,
        obs.demand_charge_usd_per_kw,
        obs.demand_charge_peak_usd_per_kw,
    ) {
        2int
    } else {
        0int
    }
}

/// Connected session `i` does what the plan asks of it.
pub open spec fn is_car_kept<N: Num>(
    value: spec_fn(N) -> real,
    obs: ObservationModel<N>,
    end: int,
    x: Seq<real>,
    i: int,
) -> bool {
    is_kept_visit(
        value,
        car_terms(obs, end, i),
        x,
        block_base(0, car_spans(obs, end), i as nat),
        value(obs.sessions[i].soc_kwh),
    )
}

/// A plan of the slots from now up to `end`: every car within its limits, the net load of
/// every slot the building and the cars, the peaks not below the net loads, and the
/// overflow of every event not below what lies above its level.
pub open spec fn is_plan<N: Num>(value: spec_fn(N) -> real, obs: ObservationModel<N>, end: int, x: Seq<real>) -> bool {
    let hours = slot_hours(obs.slot_minutes);
    let base = first_load(obs, end);
    let n = (end - obs.slot) as nat;
    &&& forall|i: int| 0 <= i < obs.sessions.len() ==> #[trigger] is_car_kept(value, obs, end, x, i)
    &&& are_net_loads(
        value,
        obs.slot as int,
        expected_loads(obs, end),
        obs.site_cap_kw,
        places_of(0, car_spans(obs, end)),
        hours,
        x,
        base,
    )
    &&& demand_costs(value, obs.demand_charge_usd_per_kw, obs.demand_charge_peak_usd_per_kw) ==> are_peaks(
        obs.tou_series,
        obs.slot as int,
        n,
        x,
        base,
        base + n,
    )
    &&& forall|e: int|
        0 <= e < obs.dr_events.len() ==> #[trigger] is_nth_event_kept(
            value,
            obs.dr_events,
            None,
            obs.slot as int,
            hours,
            x,
            base,
            first_overflow(value, obs, end),
            n,
            e,
        )
}

/// What a plan costs: the energy at its prices with the wear of what is given and the
/// penalties on the shortfalls, the demand charges on the peaks, and the penalties on the
/// overflows.
pub open spec fn plan_cost<N: Num>(
    value: spec_fn(N) -> real,
    config: MpcConfig<N>,
    obs: ObservationModel<N>,
    end: int,
    x: Seq<real>,
) -> real {
    let top = first_load(obs, end) + (end - obs.slot);
    visits_cost(
        value,
        obs.price_series,
        car_spans(obs, end),
        0,
        config.degradation_usd_per_kwh,
        config.shortfall_usd_per_kwh,
        x,
        obs.sessions.len(),
    ) + (if demand_costs(value, obs.demand_charge_usd_per_kw, obs.demand_charge_peak_usd_per_kw) {
        value(obs.demand_charge_usd_per_kw) * x[top] + value(obs.demand_charge_peak_usd_per_kw) * x[top + 1]
    } else {
        0real
    }) + events_cost(
        value,
        obs.dr_events,
        false,
        obs.slot as int,
        x,
        first_overflow(value, obs, end),
        (end - obs.slot) as nat,
        obs.dr_events.len(),
    )
}

/// What the laws on the planners assume of the numbers.
pub open spec fn plans_exactly<N: Num>(value: spec_fn(N) -> real, unit: real) -> bool {
    &&& rounds_toward_zero(value, unit)
    &&& has_infinity(value)
    &&& has_measures(value)
}

/// An observation with finite figures, of which there is something to plan and the program
/// can be numbered.
pub open spec fn is_plannable_now<N: Num>(
    value: spec_fn(N) -> real,
    config: MpcConfig<N>,
    obs: ObservationModel<N>,
) -> bool {
    &&& obs.well_formed()
    &&& has_plan(config, obs)
    &&& slot_hours(obs.slot_minutes).finite() && 0real < value(slot_hours(obs.slot_minutes))
    &&& obs.charge_efficiency.finite()
    &&& obs.building_load_kw.finite()
    &&& forall|s: int| 0 <= s < obs.building_series.len() ==> (#[trigger] obs.building_series[s]).finite()
    &&& obs.site_cap_kw matches Some(c) ==> c.finite()
    &&& obs.demand_charge_usd_per_kw.finite()
    &&& obs.demand_charge_peak_usd_per_kw.finite()
    &&& plan_program(config, obs).vars.len() < usize::MAX
}

/// A plan ends with the departure of the last connected session, with the series, or with
/// the lookahead, whichever comes first.
pub proof fn plans_reach_the_last_departure<N: Num>(config: MpcConfig<N>, obs: ObservationModel<N>)
    ensures
        ({
            let end = plan_end(config, obs);
            &&& end <= obs.slot + config.lookahead_slots
            &&& end <= obs.building_series.len()
            &&& obs.sessions.len() > 0 ==> exists|i: int|
                0 <= i < obs.sessions.len() && end <= (#[trigger] obs.sessions[i]).vehicle.departure_slot
            &&& end < obs.slot + config.lookahead_slots && end < obs.building_series.len() ==> forall|i: int|
                0 <= i < obs.sessions.len() ==> (#[trigger] obs.sessions[i]).vehicle.departure_slot <= end
        }),
{
    lemma_last_departure(obs.sessions, obs.sessions.len());
}

proof fn lemma_last_departure<N>(sessions: Seq<SessionView<N>>, n: nat)
    requires
        n <= sessions.len(),
    ensures
        forall|i: int| 0 <= i < n ==> (#[trigger] sessions[i]).vehicle.departure_slot <= last_departure(sessions, n),
        n > 0 ==> exists|i: int|
            0 <= i < n && (#[trigger] sessions[i]).vehicle.departure_slot == last_departure(sessions, n),
        n == 0 ==> last_departure(sessions, n) == 0,
    decreases n,
{
    if n > 0 {
        lemma_last_departure(sessions, (n - 1) as nat);
        if n > 1 && last_departure(sessions, n) == last_departure(sessions, (n - 1) as nat) {
            let i = choose|i: int|
                0 <= i < n - 1 && (#[trigger] sessions[i]).vehicle.departure_slot == last_departure(
                    sessions,
                    (n - 1) as nat,
                );
            assert(sessions[i].vehicle.departure_slot == last_departure(sessions, n));
        } else {
            assert(sessions[n - 1].vehicle.departure_slot == last_departure(sessions, n));
        }
    }
}

/// The layout of an MPC program: its visits are those of the cars.
proof fn lemma_plan_layout<N: Num>(config: MpcConfig<N>, obs: ObservationModel<N>)
    requires
        obs.well_formed(),
        has_plan(config, obs),
        obs.charge_efficiency.finite(),
    ensures
        spans_of(plan_visits(config, obs)) == car_spans(obs, plan_end(config, obs)),
        are_laid_out(plan_visits(config, obs), plan_rates(config, obs), obs.price_series, obs.sessions.len()),
        plan_building(config, obs) == expected_loads(obs, plan_end(config, obs)),
        forall|i: int|
            0 <= i < obs.sessions.len() ==> terms_of(
                #[trigger] plan_visits(config, obs)[i],
                plan_rates(config, obs),
            ) == car_terms(obs, plan_end(config, obs), i) && plan_visits(config, obs)[i].start == Start::At(
                obs.sessions[i].soc_kwh,
            ),
{
    let end = plan_end(config, obs);
    let visits = plan_visits(config, obs);
    assert(spans_of(visits) =~= car_spans(obs, end));
    assert(plan_building(config, obs) =~= expected_loads(obs, end));
    assert forall|i: int| 0 <= i < obs.sessions.len() implies has_opposites(
        #[trigger] visits[i],
        plan_rates(config, obs),
    ) && visits[i].first_slot <= visits[i].last_slot < obs.price_series.len() by {
        assert(obs.sessions[i].vehicle.departure_slot > obs.slot);
        assert(visits[i] == connected_visit(obs, obs.sessions[i], end));
    }
    assert forall|i: int| 0 <= i < obs.sessions.len() implies terms_of(
        #[trigger] visits[i],
        plan_rates(config, obs),
    ) == car_terms(obs, end, i) && visits[i].start == Start::At(obs.sessions[i].soc_kwh) by {
        assert(obs.sessions[i].vehicle.departure_slot > obs.slot);
        assert(visits[i] == connected_visit(obs, obs.sessions[i], end));
    }
}

/// The blocks of an MPC program.
proof fn lemma_plan_blocks<N: Num>(
    value: spec_fn(N) -> real,
    unit: real,
    config: MpcConfig<N>,
    obs: ObservationModel<N>,
    x: Seq<real>,
)
    requires
        plans_exactly(value, unit),
        obs.well_formed(),
        has_plan(config, obs),
        obs.charge_efficiency.finite(),
        first_load(obs, plan_end(config, obs)) <= usize::MAX,
    ensures
        ({
            let end = plan_end(config, obs);
            let q = plan_blocks(config, obs);
            &&& q.vars.len() == first_load(obs, end)
            &&& satisfies(value, q, x) <==> q.vars.len() <= x.len() && forall|i: int|
                0 <= i < obs.sessions.len() ==> #[trigger] is_car_kept(value, obs, end, x, i)
            &&& prices_fit(value, obs.price_series, config.degradation_usd_per_kwh) ==> cost_at(value, q, x)
                == visits_cost(
                value,
                obs.price_series,
                car_spans(obs, end),
                0,
                config.degradation_usd_per_kwh,
                config.shortfall_usd_per_kwh,
                x,
                obs.sessions.len(),
            )
        }),
{
    let end = plan_end(config, obs);
    let visits = plan_visits(config, obs);
    let rates = plan_rates(config, obs);
    let n = obs.sessions.len();
    lemma_plan_layout(config, obs);
    lemma_empty::<N>(value, unit, x);
    lemma_visits_meaning(value, unit, Program::empty(), "target_"@, visits, rates, obs.price_series, x, n);
    let q = plan_blocks(config, obs);
    assert forall|i: int| 0 <= i < n implies #[trigger] is_visit_kept(value, visits, rates, x, 0, i) == is_car_kept(
        value,
        obs,
        end,
        x,
        i,
    ) by {
        reveal(is_visit_kept);
        assert(terms_of(visits[i], rates) == car_terms(obs, end, i));
    }
    if satisfies(value, q, x) {
        assert forall|i: int| 0 <= i < n implies #[trigger] is_car_kept(value, obs, end, x, i) by {
            assert(is_visit_kept(value, visits, rates, x, 0, i));
        }
    }
    if forall|i: int| 0 <= i < n ==> #[trigger] is_car_kept(value, obs, end, x, i) {
        assert forall|i: int| 0 <= i < n implies #[trigger] is_visit_kept(value, visits, rates, x, 0, i) by {
            assert(is_car_kept(value, obs, end, x, i));
        }
    }
}

/// The forecast of finite loads is finite.
proof fn lemma_forecast_finite<N: Num>(obs: ObservationModel<N>, slot: int)
    requires
        obs.well_formed(),
        obs.building_load_kw.finite(),
        forall|s: int| 0 <= s < obs.building_series.len() ==> (#[trigger] obs.building_series[s]).finite(),
        0 <= slot < obs.building_series.len(),
    ensures
        obs.forecast(slot).finite(),
{
    if slot > obs.slot {
        let day = obs.slots_per_day();
        let ahead = slot - obs.slot - 1;
        let back = (ahead / day + 1) * day;
        vstd::arithmetic::div_mod::lemma_fundamental_div_mod(ahead, day);
        assert((ahead / day + 1) * day == day * (ahead / day) + day) by (nonlinear_arith);
        vstd::arithmetic::div_mod::lemma_mod_bound(ahead, day);
        if back <= slot {
            assert(obs.building_series[slot - back].finite());
        }
    } else {
        assert(obs.building_series[slot].finite());
    }
}

/// The program up to its demand components.
proof fn lemma_plan_peaks<N: Num>(
    value: spec_fn(N) -> real,
    unit: real,
    config: MpcConfig<N>,
    obs: ObservationModel<N>,
    x: Seq<real>,
)
    requires
        plans_exactly(value, unit),
        is_plannable_now(value, config, obs),
        first_overflow(value, obs, plan_end(config, obs)) <= usize::MAX,
    ensures
        ({
            let end = plan_end(config, obs);
            let q = plan_peaks(config, obs);
            let base = first_load(obs, end);
            let n = (end - obs.slot) as nat;
            let costs = demand_costs(value, obs.demand_charge_usd_per_kw, obs.demand_charge_peak_usd_per_kw);
            &&& q.vars.len() == first_overflow(value, obs, end)
            &&& satisfies(value, q, x) <==> {
                &&& q.vars.len() <= x.len()
                &&& forall|i: int| 0 <= i < obs.sessions.len() ==> #[trigger] is_car_kept(value, obs, end, x, i)
                &&& are_net_loads(
                    value,
                    obs.slot as int,
                    expected_loads(obs, end),
                    obs.site_cap_kw,
                    places_of(0, car_spans(obs, end)),
                    slot_hours(obs.slot_minutes),
                    x,
                    base,
                )
                &&& costs ==> are_peaks(obs.tou_series, obs.slot as int, n, x, base, base + n)
            }
            &&& cost_at(value, q, x) == cost_at(value, plan_blocks(config, obs), x) + if costs {
                value(obs.demand_charge_usd_per_kw) * x[base + n] + value(obs.demand_charge_peak_usd_per_kw) * x[base
                    + n + 1]
            } else {
                0real
            }
        }),
{
    lemma_ones::<N>(value, unit);
    let end = plan_end(config, obs);
    let spans = car_spans(obs, end);
    let places = places_of(0, spans);
    let building = expected_loads(obs, end);
    let n = building.len();
    let base = first_load(obs, end);
    lemma_plan_layout(config, obs);
    lemma_plan_blocks(value, unit, config, obs, x);
    lemma_car_places(obs, end);
    assert forall|k: int| 0 <= k < n implies (#[trigger] building[k]).finite() by {
        lemma_forecast_finite(obs, obs.slot + k);
    }
    let blocks = plan_blocks(config, obs);
    lemma_agg_meaning(
        value,
        unit,
        blocks,
        obs.slot as int,
        building,
        obs.site_cap_kw,
        places,
        slot_hours(obs.slot_minutes),
        x,
    );
    let rate = obs.demand_charge_usd_per_kw;
    let peak_rate = obs.demand_charge_peak_usd_per_kw;
    lemma_finite(value, unit, rate);
    lemma_finite(value, unit, peak_rate);
    lemma_finite(value, unit, zero_of::<N>());
    lemma_compare(value, unit, zero_of::<N>(), rate);
    lemma_compare(value, unit, zero_of::<N>(), peak_rate);
    assert(demand_is_priced(rate, peak_rate) == demand_costs(value, rate, peak_rate));
    if demand_is_priced(rate, peak_rate) {
        lemma_demand_meaning(
            value,
            unit,
            plan_loads(config, obs),
            obs.slot as int,
            n,
            obs.tou_series,
            base,
            rate,
            peak_rate,
            x,
        );
    }
}

/// The places of the cars can be numbered.
pub(crate) proof fn lemma_car_places<N>(obs: ObservationModel<N>, end: int)
    requires
        obs.slot < end,
        forall|i: int|
            0 <= i < obs.sessions.len() ==> (#[trigger] obs.sessions[i]).vehicle.departure_slot > obs.slot,
        end <= usize::MAX,
        first_load(obs, end) <= usize::MAX,
    ensures
        are_numbered(places_of(0, car_spans(obs, end))),
        0 <= first_load(obs, end),
        forall|i: int|
            0 <= i < obs.sessions.len() ==> 0 <= #[trigger] block_base(0, car_spans(obs, end), i as nat)
                <= first_load(obs, end),
{
    let spans = car_spans(obs, end);
    let places = places_of(0, spans);
    let n = obs.sessions.len();
    assert forall|i: int| 0 <= i < n implies (#[trigger] spans[i]).first_slot <= spans[i].last_slot by {
        assert(obs.sessions[i].vehicle.departure_slot > obs.slot);
    }
    lemma_base_grows(0, spans, 0, n);
    assert forall|i: int| 0 <= i < n implies 0 <= #[trigger] block_base(0, spans, i as nat) <= first_load(obs, end) by {
        lemma_base_grows(0, spans, 0, i as nat);
        lemma_base_grows(0, spans, i as nat, n);
    }
    assert forall|i: int| 0 <= i < places.len() implies (#[trigger] places[i]).first_slot <= places[i].last_slot
        && places[i].base + 3 * (places[i].last_slot - places[i].first_slot + 1) <= usize::MAX by {
        assert(spans[i].first_slot <= spans[i].last_slot);
        lemma_base_grows(0, spans, 0, i as nat);
        lemma_base_grows(0, spans, i as nat, n);
        assert(places[i] == place_of(0, spans, i));
    }
}

/// A point satisfies the program of the MPC just where it is a plan, and the objective is
/// what the plan costs.
pub proof fn mpc_programs_are_plans<N: Num>(
    value: spec_fn(N) -> real,
    unit: real,
    config: MpcConfig<N>,
    obs: ObservationModel<N>,
    x: Seq<real>,
)
    requires
        plans_exactly(value, unit),
        is_plannable_now(value, config, obs),
    ensures
        ({
            let p = plan_program(config, obs);
            let end = plan_end(config, obs);
            &&& satisfies(value, p, x) <==> p.vars.len() <= x.len() && is_plan(value, obs, end, x)
            &&& prices_fit(value, obs.price_series, config.degradation_usd_per_kwh) ==> cost_at(value, p, x)
                == plan_cost(value, config, obs, end, x)
        }),
{
    let end = plan_end(config, obs);
    let n = (end - obs.slot) as nat;
    let base = first_load(obs, end);
    lemma_plan_size(value, unit, config, obs);
    lemma_plan_layout(config, obs);
    lemma_plan_peaks(value, unit, config, obs, x);
    lemma_plan_blocks(value, unit, config, obs, x);
    lemma_car_places(obs, end);
    lemma_events_meaning(
        value,
        unit,
        plan_peaks(config, obs),
        obs.dr_events,
        None,
        obs.slot as int,
        base,
        slot_hours(obs.slot_minutes),
        x,
        n,
        obs.dr_events.len(),
    );
    lemma_long_enough(value, plan_program(config, obs), x);
    assert(plan_peaks(config, obs).vars.len() <= plan_program(config, obs).vars.len()) by {
        lemma_event_places(obs.dr_events, false, obs.slot as int, n, first_overflow(value, obs, end), obs.dr_events.len());
    }
}

pub(crate) proof fn lemma_event_places<N>(
    events: Seq<DrEvent<N>>,
    decided: bool,
    from: int,
    n: nat,
    at: int,
    k: nat,
)
    ensures
        at <= event_place(events, decided, from, n, at, k),
    decreases k,
{
    if k > 0 {
        lemma_event_places(events, decided, from, n, at, (k - 1) as nat);
    }
}

/// The parts of a program that can be numbered can be numbered too.
proof fn lemma_plan_size<N: Num>(value: spec_fn(N) -> real, unit: real, config: MpcConfig<N>, obs: ObservationModel<N>)
    requires
        plans_exactly(value, unit),
        is_plannable_now(value, config, obs),
    ensures
        first_overflow(value, obs, plan_end(config, obs)) < usize::MAX,
        first_load(obs, plan_end(config, obs)) + (plan_end(config, obs) - obs.slot) < usize::MAX,
        0 <= first_load(obs, plan_end(config, obs)),
{
    lemma_ones::<N>(value, unit);
    let end = plan_end(config, obs);
    lemma_plan_layout(config, obs);
    let visits = plan_visits(config, obs);
    let spans = car_spans(obs, end);
    let n = obs.sessions.len();
    lemma_visits_len(Program::<N>::empty(), "target_"@, visits, plan_rates(config, obs), obs.price_series, n);
    let rate = obs.demand_charge_usd_per_kw;
    let peak_rate = obs.demand_charge_peak_usd_per_kw;
    lemma_finite(value, unit, rate);
    lemma_finite(value, unit, peak_rate);
    lemma_finite(value, unit, zero_of::<N>());
    lemma_compare(value, unit, zero_of::<N>(), rate);
    lemma_compare(value, unit, zero_of::<N>(), peak_rate);
    lemma_events_grow(
        plan_peaks(config, obs),
        obs.dr_events,
        None,
        obs.slot as int,
        plan_blocks(config, obs).vars.len() as int,
        slot_hours(obs.slot_minutes),
        plan_building(config, obs).len(),
        obs.dr_events.len(),
    );
}

pub(crate) proof fn lemma_visits_len<N: Num>(
    p: Program<N>,
    prefix: Seq<char>,
    visits: Seq<VisitModel<N>>,
    rates: PlanRates<N>,
    price: Seq<N>,
    k: nat,
)
    requires
        k <= visits.len(),
        forall|i: int| 0 <= i < k ==> (#[trigger] visits[i]).first_slot <= visits[i].last_slot,
    ensures
        with_visits(p, prefix, visits, rates, price, k).vars.len() == block_base(
            p.vars.len() as int,
            spans_of(visits),
            k,
        ),
    decreases k,
{
    if k > 0 {
        lemma_visits_len(p, prefix, visits, rates, price, (k - 1) as nat);
        let spans = spans_of(visits);
        assert(visits[k - 1].first_slot <= visits[k - 1].last_slot);
        assert(spans[k - 1] == (Span { first_slot: visits[k - 1].first_slot, last_slot: visits[k - 1].last_slot }));
    }
}

pub(crate) proof fn lemma_events_grow<N: Num>(
    p: Program<N>,
    events: Seq<DrEvent<N>>,
    bounds: Option<Seq<N>>,
    from: int,
    base: int,
    dt: N,
    n: nat,
    k: nat,
)
    ensures
        p.vars.len() <= with_events(p, events, bounds, from, base, dt, n, k).vars.len(),
    decreases k,
{
    if k > 0 {
        lemma_events_grow(p, events, bounds, from, base, dt, n, (k - 1) as nat);
        let before = with_events(p, events, bounds, from, base, dt, n, (k - 1) as nat);
        lemma_overflow_len(
            with_level(before, k - 1, events[k - 1], bounds),
            k - 1,
            events[k - 1],
            level_var(before, bounds),
            from,
            base,
            dt,
            n,
        );
    }
}

// --------------------------------------------------------------- oracle plans

/// The session at position `p` of the arrival order.
pub open spec fn session_at<N>(sc: ScenarioModel<N>, p: int) -> Vehicle<N> {
    sc.vehicles[arrival_order(sc.vehicles)[p] as int]
}

/// The slots of each session, in arrival order.
pub open spec fn stay_spans<N>(sc: ScenarioModel<N>) -> Seq<Span> {
    Seq::new(
        sc.vehicles.len(),
        |p: int|
            Span {
                first_slot: session_at(sc, p).arrival_slot,
                last_slot: (session_at(sc, p).departure_slot - 1) as usize,
            },
    )
}

/// Where the variables of the session at position `p` start.
pub open spec fn stay_base<N>(sc: ScenarioModel<N>, p: int) -> int {
    block_base(0, stay_spans(sc), p as nat)
}

/// What the oracle asks of the session at position `p`: the limits of car and port over a
/// slot, the range of the battery, and the target at departure.
pub open spec fn stay_terms<N: Num>(sc: ScenarioModel<N>, p: int) -> Terms<N> {
    let v = session_at(sc, p);
    let hours = slot_hours(sc.rules.slot_minutes);
    let port = sc.chargers[0].max_kw;
    Terms {
        slots: (v.departure_slot - v.arrival_slot) as nat,
        charge: v.max_charge_kw.lesser(port).times(hours),
        discharge: v.max_discharge_kw.lesser(port).times(hours),
        floor: v.min_soc_kwh,
        ceiling: v.battery_kwh,
        needed: v.soc_target_kwh,
        charge_efficiency: sc.rules.charge_efficiency,
        discharge_efficiency: sc.rules.discharge_efficiency,
        ramp: None,
    }
}

/// The session at position `q` is the last one of its vehicle before that at position `p`.
pub open spec fn is_stay_before<N>(sc: ScenarioModel<N>, q: int, p: int) -> bool {
    &&& 0 <= q < p
    &&& session_at(sc, q).vehicle_id == session_at(sc, p).vehicle_id
    &&& forall|r: int|
        q < r < p ==> (#[trigger] session_at(sc, r)).vehicle_id != session_at(sc, p).vehicle_id
}

/// The energy with which the session at position `p` starts: under persistence what the
/// vehicle's last session ends with, less the depletion between them; else its own SoC.
pub open spec fn stay_start<N: Num>(value: spec_fn(N) -> real, sc: ScenarioModel<N>, x: Seq<real>, p: int) -> real {
    if sc.rules.persistence && exists|q: int| #[trigger] is_stay_before(sc, q, p) {
        let q = choose|q: int| #[trigger] is_stay_before(sc, q, p);
        held(x, stay_base(sc, q), session_at(sc, q).departure_slot - session_at(sc, q).arrival_slot - 1) - value(
            session_at(sc, p).depletion_kwh,
        )
    } else {
        value(session_at(sc, p).soc_arrival_kwh)
    }
}

/// The session at position `p` does what the oracle asks of it.
pub open spec fn is_stay_kept<N: Num>(value: spec_fn(N) -> real, sc: ScenarioModel<N>, x: Seq<real>, p: int) -> bool {
    is_kept_visit(value, stay_terms(sc, p), x, stay_base(sc, p), stay_start(value, sc, x, p))
}

/// The net load of slot 0 is the variable behind all sessions.
pub open spec fn site_base<N>(sc: ScenarioModel<N>) -> int {
    stay_base(sc, sc.vehicles.len() as int)
}

/// The first variable behind the net loads and the peaks.
pub open spec fn site_overflow<N: Num>(value: spec_fn(N) -> real, sc: ScenarioModel<N>) -> int {
    site_base(sc) + sc.building.len() + if demand_costs(
        value,
        sc.rules.demand_charge_usd_per_kw,
        sc.rules.demand_charge_peak_usd_per_kw,
    ) {
        2int
    } else {
        0int
    }
}

/// A plan of the whole horizon: every session within its limits and from where its vehicle
/// was left, the net load of every slot the building and the cars, the peaks not below the
/// net loads, and with demand response the overflow of every event not below what lies
/// above its level.
pub open spec fn is_site_plan<N: Num>(
    value: spec_fn(N) -> real,
    sc: ScenarioModel<N>,
    with_dr: bool,
    bounds: Option<Seq<N>>,
    x: Seq<real>,
) -> bool {
    let hours = slot_hours(sc.rules.slot_minutes);
    let base = site_base(sc);
    let n = sc.building.len();
    &&& forall|p: int| 0 <= p < sc.vehicles.len() ==> #[trigger] is_stay_kept(value, sc, x, p)
    &&& are_net_loads(
        value,
        0,
        sc.building,
        sc.rules.site_cap_kw,
        places_of(0, stay_spans(sc)),
        hours,
        x,
        base,
    )
    &&& demand_costs(value, sc.rules.demand_charge_usd_per_kw, sc.rules.demand_charge_peak_usd_per_kw) ==> are_peaks(
        sc.tou,
        0,
        n,
        x,
        base,
        base + n,
    )
    &&& with_dr ==> forall|e: int|
        0 <= e < sc.events.len() ==> #[trigger] is_nth_event_kept(
            value,
            sc.events,
            bounds,
            0,
            hours,
            x,
            base,
            site_overflow(value, sc),
            n,
            e,
        )
}

/// What a plan of the whole horizon costs.
pub open spec fn site_cost<N: Num>(
    value: spec_fn(N) -> real,
    sc: ScenarioModel<N>,
    config: OracleConfig<N>,
    with_dr: bool,
    decided: bool,
    x: Seq<real>,
) -> real {
    let top = site_base(sc) + sc.building.len();
    visits_cost(
        value,
        sc.price,
        stay_spans(sc),
        0,
        config.degradation_usd_per_kwh,
        config.shortfall_usd_per_kwh,
        x,
        sc.vehicles.len(),
    ) + (if demand_costs(value, sc.rules.demand_charge_usd_per_kw, sc.rules.demand_charge_peak_usd_per_kw) {
        value(sc.rules.demand_charge_usd_per_kw) * x[top] + value(sc.rules.demand_charge_peak_usd_per_kw) * x[top + 1]
    } else {
        0real
    }) + (if with_dr {
        events_cost(
            value,
            sc.events,
            decided,
            0,
            x,
            site_overflow(value, sc),
            sc.building.len(),
            sc.events.len(),
        )
    } else {
        0real
    })
}

/// A scenario with finite figures whose program can be numbered.
pub open spec fn is_plannable_site<N: Num>(
    value: spec_fn(N) -> real,
    sc: ScenarioModel<N>,
    config: OracleConfig<N>,
    with_dr: bool,
    bounds: Option<Seq<N>>,
) -> bool {
    &&& is_plannable(sc)
    &&& sc.vehicles.len() <= usize::MAX
    &&& slot_hours(sc.rules.slot_minutes).finite() && 0real < value(slot_hours(sc.rules.slot_minutes))
    &&& sc.rules.charge_efficiency.finite()
    &&& forall|s: int| 0 <= s < sc.building.len() ==> (#[trigger] sc.building[s]).finite()
    &&& forall|i: int| 0 <= i < sc.vehicles.len() ==> (#[trigger] sc.vehicles[i]).depletion_kwh.finite()
    &&& sc.rules.site_cap_kw matches Some(c) ==> c.finite()
    &&& sc.rules.demand_charge_usd_per_kw.finite()
    &&& sc.rules.demand_charge_peak_usd_per_kw.finite()
    &&& oracle_program(sc, config, with_dr, bounds).vars.len() < usize::MAX
}

/// The last visit of a vehicle before position `n`.
proof fn lemma_latest<N>(sc: ScenarioModel<N>, id: u32, n: nat)
    ensures
        match latest_visit(sc.vehicles, arrival_order(sc.vehicles), id, n) {
            Some(q) => 0 <= q < n && session_at(sc, q).vehicle_id == id && forall|r: int|
                q < r < n ==> (#[trigger] session_at(sc, r)).vehicle_id != id,
            None => forall|r: int| 0 <= r < n ==> (#[trigger] session_at(sc, r)).vehicle_id != id,
        },
    decreases n,
{
    if n > 0 {
        lemma_latest(sc, id, (n - 1) as nat);
        assert(session_at(sc, n - 1) == sc.vehicles[arrival_order(sc.vehicles)[n - 1] as int]);
    }
}

/// The layout of the oracle's program.
proof fn lemma_site_layout<N: Num>(sc: ScenarioModel<N>, config: OracleConfig<N>)
    requires
        is_plannable(sc),
        sc.vehicles.len() <= usize::MAX,
        sc.rules.charge_efficiency.finite(),
        forall|i: int| 0 <= i < sc.vehicles.len() ==> (#[trigger] sc.vehicles[i]).depletion_kwh.finite(),
    ensures
        session_spans(sc.vehicles) == stay_spans(sc),
        spans_of(session_visits(sc)) == stay_spans(sc),
        are_laid_out(session_visits(sc), oracle_rates(sc, config), sc.price, sc.vehicles.len()),
        forall|p: int|
            0 <= p < sc.vehicles.len() ==> terms_of(
                #[trigger] session_visits(sc)[p],
                oracle_rates(sc, config),
            ) == stay_terms(sc, p),
        forall|p: int|
            0 <= p < sc.vehicles.len() ==> (#[trigger] stay_spans(sc)[p]).first_slot <= stay_spans(sc)[p].last_slot
                < sc.building.len(),
{
    lemma_arrival_order(sc);
    let visits = session_visits(sc);
    assert(session_spans(sc.vehicles) =~= stay_spans(sc));
    assert(spans_of(visits) =~= stay_spans(sc));
    assert forall|p: int| 0 <= p < sc.vehicles.len() implies has_opposites(
        #[trigger] visits[p],
        oracle_rates(sc, config),
    ) && visits[p].first_slot <= visits[p].last_slot < sc.price.len() && terms_of(
        visits[p],
        oracle_rates(sc, config),
    ) == stay_terms(sc, p) by {
        let row = arrival_order(sc.vehicles)[p] as int;
        assert(arrival_order(sc.vehicles)[p] < sc.vehicles.len());
        assert(sc.vehicles[row].arrival_slot < sc.vehicles[row].departure_slot);
        assert(visits[p] == session_visit(sc, p));
    }
    assert forall|p: int| 0 <= p < sc.vehicles.len() implies (#[trigger] stay_spans(sc)[p]).first_slot
        <= stay_spans(sc)[p].last_slot < sc.building.len() by {
        assert(visits[p].first_slot <= visits[p].last_slot);
    }
}

/// What the session at position `p` starts from.
proof fn lemma_stay_start<N: Num>(value: spec_fn(N) -> real, sc: ScenarioModel<N>, x: Seq<real>, p: int)
    requires
        0 <= p < sc.vehicles.len(),
        session_spans(sc.vehicles) == stay_spans(sc),
        forall|q: int|
            0 <= q < sc.vehicles.len() ==> (#[trigger] stay_spans(sc)[q]).first_slot <= stay_spans(sc)[q].last_slot,
        forall|q: int|
            0 <= q < sc.vehicles.len() ==> (#[trigger] session_at(sc, q)).arrival_slot < session_at(
                sc,
                q,
            ).departure_slot,
        site_base(sc) <= usize::MAX,
    ensures
        start_at(value, session_start(sc, p), x) == stay_start(value, sc, x, p),
{
    let id = session_at(sc, p).vehicle_id;
    let spans = stay_spans(sc);
    let n = sc.vehicles.len();
    lemma_latest(sc, id, p as nat);
    match latest_visit(sc.vehicles, arrival_order(sc.vehicles), id, p as nat) {
        Some(q) => {
            assert(is_stay_before(sc, q, p));
            let r = choose|r: int| #[trigger] is_stay_before(sc, r, p);
            assert(is_stay_before(sc, r, p));
            assert(q == r) by {
                if q < r {
                    assert(session_at(sc, r).vehicle_id == id);
                }
                if r < q {
                    assert(session_at(sc, q).vehicle_id == id);
                }
            }
            lemma_base_grows(0, spans, 0, q as nat);
            lemma_base_grows(0, spans, q as nat, n);
            assert(spans[q].first_slot <= spans[q].last_slot);
            assert(session_at(sc, q).arrival_slot < session_at(sc, q).departure_slot);
            let k = spans[q].last_slot - spans[q].first_slot;
            assert(k == session_at(sc, q).departure_slot - session_at(sc, q).arrival_slot - 1);
            assert(stored(stay_base(sc, q), k).0 as int == stay_base(sc, q) + 3 * k + 2);
        },
        None => {
            if exists|q: int| #[trigger] is_stay_before(sc, q, p) {
                let q = choose|q: int| #[trigger] is_stay_before(sc, q, p);
                assert(session_at(sc, q).vehicle_id == id);
            }
        },
    }
}

proof fn lemma_site_blocks<N: Num>(
    value: spec_fn(N) -> real,
    unit: real,
    sc: ScenarioModel<N>,
    config: OracleConfig<N>,
    x: Seq<real>,
)
    requires
        plans_exactly(value, unit),
        is_plannable(sc),
        sc.vehicles.len() <= usize::MAX,
        sc.rules.charge_efficiency.finite(),
        forall|i: int| 0 <= i < sc.vehicles.len() ==> (#[trigger] sc.vehicles[i]).depletion_kwh.finite(),
        site_base(sc) <= usize::MAX,
    ensures
        ({
            let q = oracle_blocks(sc, config);
            &&& q.vars.len() == site_base(sc)
            &&& satisfies(value, q, x) <==> q.vars.len() <= x.len() && forall|p: int|
                0 <= p < sc.vehicles.len() ==> #[trigger] is_stay_kept(value, sc, x, p)
            &&& prices_fit(value, sc.price, config.degradation_usd_per_kwh) ==> cost_at(value, q, x) == visits_cost(
                value,
                sc.price,
                stay_spans(sc),
                0,
                config.degradation_usd_per_kwh,
                config.shortfall_usd_per_kwh,
                x,
                sc.vehicles.len(),
            )
        }),
{
    let visits = session_visits(sc);
    let rates = oracle_rates(sc, config);
    let n = sc.vehicles.len();
    lemma_site_layout(sc, config);
    lemma_empty::<N>(value, unit, x);
    lemma_visits_meaning(value, unit, Program::empty(), "target_"@, visits, rates, sc.price, x, n);
    let q = oracle_blocks(sc, config);
    lemma_arrival_order(sc);
    assert forall|p: int| 0 <= p < n implies (#[trigger] session_at(sc, p)).arrival_slot < session_at(
        sc,
        p,
    ).departure_slot by {
        assert(arrival_order(sc.vehicles)[p] < sc.vehicles.len());
    }
    assert forall|p: int| 0 <= p < n implies #[trigger] is_visit_kept(value, visits, rates, x, 0, p) == is_stay_kept(
        value,
        sc,
        x,
        p,
    ) by {
        reveal(is_visit_kept);
        assert(terms_of(visits[p], rates) == stay_terms(sc, p));
        lemma_stay_start(value, sc, x, p);
    }
    if satisfies(value, q, x) {
        assert forall|p: int| 0 <= p < n implies #[trigger] is_stay_kept(value, sc, x, p) by {
            assert(is_visit_kept(value, visits, rates, x, 0, p));
        }
    }
    if forall|p: int| 0 <= p < n ==> #[trigger] is_stay_kept(value, sc, x, p) {
        assert forall|p: int| 0 <= p < n implies #[trigger] is_visit_kept(value, visits, rates, x, 0, p) by {
            assert(is_stay_kept(value, sc, x, p));
        }
    }
}

/// The places of the sessions can be numbered.
proof fn lemma_stay_places<N>(sc: ScenarioModel<N>)
    requires
        forall|p: int|
            0 <= p < sc.vehicles.len() ==> (#[trigger] stay_spans(sc)[p]).first_slot <= stay_spans(sc)[p].last_slot,
        site_base(sc) <= usize::MAX,
    ensures
        are_numbered(places_of(0, stay_spans(sc))),
        0 <= site_base(sc),
{
    let spans = stay_spans(sc);
    let places = places_of(0, spans);
    let n = sc.vehicles.len();
    lemma_base_grows(0, spans, 0, n);
    assert forall|i: int| 0 <= i < places.len() implies (#[trigger] places[i]).first_slot <= places[i].last_slot
        && places[i].base + 3 * (places[i].last_slot - places[i].first_slot + 1) <= usize::MAX by {
        assert(spans[i].first_slot <= spans[i].last_slot);
        lemma_base_grows(0, spans, 0, i as nat);
        lemma_base_grows(0, spans, i as nat, n);
        assert(places[i] == place_of(0, spans, i));
    }
}

/// The parts of the oracle's program can be numbered.
proof fn lemma_site_size<N: Num>(
    value: spec_fn(N) -> real,
    unit: real,
    sc: ScenarioModel<N>,
    config: OracleConfig<N>,
    with_dr: bool,
    bounds: Option<Seq<N>>,
)
    requires
        plans_exactly(value, unit),
        is_plannable_site(value, sc, config, with_dr, bounds),
    ensures
        site_overflow(value, sc) < usize::MAX,
        site_base(sc) + sc.building.len() < usize::MAX,
        demand_is_priced(sc.rules.demand_charge_usd_per_kw, sc.rules.demand_charge_peak_usd_per_kw) == demand_costs(
            value,
            sc.rules.demand_charge_usd_per_kw,
            sc.rules.demand_charge_peak_usd_per_kw,
        ),
        oracle_peaks(sc, config).vars.len() <= oracle_program(sc, config, with_dr, bounds).vars.len(),
{
    lemma_ones::<N>(value, unit);
    lemma_site_layout(sc, config);
    let visits = session_visits(sc);
    let n = sc.vehicles.len();
    assert forall|i: int| 0 <= i < n implies (#[trigger] visits[i]).first_slot <= visits[i].last_slot by {
        assert(has_opposites(visits[i], oracle_rates(sc, config)));
    }
    lemma_visits_len(Program::<N>::empty(), "target_"@, visits, oracle_rates(sc, config), sc.price, n);
    let rate = sc.rules.demand_charge_usd_per_kw;
    let peak_rate = sc.rules.demand_charge_peak_usd_per_kw;
    lemma_finite(value, unit, rate);
    lemma_finite(value, unit, peak_rate);
    lemma_finite(value, unit, zero_of::<N>());
    lemma_compare(value, unit, zero_of::<N>(), rate);
    lemma_compare(value, unit, zero_of::<N>(), peak_rate);
    if with_dr {
        lemma_events_grow(
            oracle_peaks(sc, config),
            sc.events,
            bounds,
            0,
            oracle_blocks(sc, config).vars.len() as int,
            slot_hours(sc.rules.slot_minutes),
            sc.building.len(),
            sc.events.len(),
        );
    }
}

proof fn lemma_site_peaks<N: Num>(
    value: spec_fn(N) -> real,
    unit: real,
    sc: ScenarioModel<N>,
    config: OracleConfig<N>,
    with_dr: bool,
    bounds: Option<Seq<N>>,
    x: Seq<real>,
)
    requires
        plans_exactly(value, unit),
        is_plannable_site(value, sc, config, with_dr, bounds),
    ensures
        ({
            let q = oracle_peaks(sc, config);
            let base = site_base(sc);
            let n = sc.building.len();
            let costs = demand_costs(value, sc.rules.demand_charge_usd_per_kw, sc.rules.demand_charge_peak_usd_per_kw);
            &&& q.vars.len() == site_overflow(value, sc)
            &&& satisfies(value, q, x) <==> {
                &&& q.vars.len() <= x.len()
                &&& forall|p: int| 0 <= p < sc.vehicles.len() ==> #[trigger] is_stay_kept(value, sc, x, p)
                &&& are_net_loads(
                    value,
                    0,
                    sc.building,
                    sc.rules.site_cap_kw,
                    places_of(0, stay_spans(sc)),
                    slot_hours(sc.rules.slot_minutes),
                    x,
                    base,
                )
                &&& costs ==> are_peaks(sc.tou, 0, n, x, base, base + n)
            }
            &&& cost_at(value, q, x) == cost_at(value, oracle_blocks(sc, config), x) + if costs {
                value(sc.rules.demand_charge_usd_per_kw) * x[base + n] + value(sc.rules.demand_charge_peak_usd_per_kw)
                    * x[base + n + 1]
            } else {
                0real
            }
        }),
{
    lemma_ones::<N>(value, unit);
    let n = sc.building.len();
    let base = site_base(sc);
    lemma_site_size(value, unit, sc, config, with_dr, bounds);
    lemma_site_layout(sc, config);
    lemma_site_blocks(value, unit, sc, config, x);
    lemma_stay_places(sc);
    let blocks = oracle_blocks(sc, config);
    let hours = slot_hours(sc.rules.slot_minutes);
    let places = places_of(0, stay_spans(sc));
    lemma_agg_meaning(value, unit, blocks, 0, sc.building, sc.rules.site_cap_kw, places, hours, x);
    let loads = with_agg(blocks, 0, sc.building, sc.rules.site_cap_kw, places, hours);
    let rate = sc.rules.demand_charge_usd_per_kw;
    let peak_rate = sc.rules.demand_charge_peak_usd_per_kw;
    if demand_is_priced(rate, peak_rate) {
        lemma_demand_meaning(value, unit, loads, 0, n, sc.tou, base, rate, peak_rate, x);
    }
}

/// A point satisfies the program of the oracle just where it is a plan of the horizon, and
/// the objective is what the plan costs.
pub proof fn oracle_programs_are_plans<N: Num>(
    value: spec_fn(N) -> real,
    unit: real,
    sc: ScenarioModel<N>,
    config: OracleConfig<N>,
    with_dr: bool,
    bounds: Option<Seq<N>>,
    x: Seq<real>,
)
    requires
        plans_exactly(value, unit),
        is_plannable_site(value, sc, config, with_dr, bounds),
    ensures
        ({
            let p = oracle_program(sc, config, with_dr, bounds);
            &&& satisfies(value, p, x) <==> p.vars.len() <= x.len() && is_site_plan(value, sc, with_dr, bounds, x)
            &&& prices_fit(value, sc.price, config.degradation_usd_per_kwh) ==> cost_at(value, p, x) == site_cost(
                value,
                sc,
                config,
                with_dr,
                bounds is Some,
                x,
            )
        }),
{
    let n = sc.building.len();
    let base = site_base(sc);
    lemma_site_size(value, unit, sc, config, with_dr, bounds);
    lemma_site_peaks(value, unit, sc, config, with_dr, bounds, x);
    lemma_site_layout(sc, config);
    lemma_site_blocks(value, unit, sc, config, x);
    lemma_stay_places(sc);
    lemma_long_enough(value, oracle_program(sc, config, with_dr, bounds), x);
    if with_dr {
        lemma_events_meaning(
            value,
            unit,
            oracle_peaks(sc, config),
            sc.events,
            bounds,
            0,
            base,
            slot_hours(sc.rules.slot_minutes),
            x,
            n,
            sc.events.len(),
        );
    }
}

// -------------------------------------------------------------- what plans do

/// Records of `n` slots from `from` on with the net loads of a point, which start at `base`.
pub open spec fn are_records_of<N: Num>(
    value: spec_fn(N) -> real,
    slots: Seq<SlotRecord<N>>,
    tou: Seq<TouClass>,
    from: int,
    n: nat,
    x: Seq<real>,
    base: int,
) -> bool {
    &&& slots.len() == n
    &&& forall|k: int|
        0 <= k < n ==> is_number((#[trigger] slots[k]).net_kw) && value(slots[k].net_kw) == x[base + k]
            && slots[k].tou == tou[from + k]
}

/// Peaks that cover the net loads cover the peaks that a bill over them shows.
proof fn lemma_billed_peaks<N: Num>(
    value: spec_fn(N) -> real,
    unit: real,
    slots: Seq<SlotRecord<N>>,
    tou: Seq<TouClass>,
    from: int,
    n: nat,
    x: Seq<real>,
    base: int,
    top: int,
)
    requires
        rounds_toward_zero(value, unit),
        are_records_of(value, slots, tou, from, n, x, base),
        are_peaks(tou, from, n, x, base, top),
    ensures
        value(peak(slots)) <= x[top],
        value(peak_tou(slots)) <= x[top + 1],
{
    peaks_bound_the_net_loads(value, unit, slots);
    if value(peak(slots)) != 0real {
        let k = choose|k: int| 0 <= k < slots.len() && value((#[trigger] slots[k]).net_kw) == value(peak(slots));
        assert(value(slots[k].net_kw) == x[base + k]);
    }
    if value(peak_tou(slots)) != 0real {
        let k = choose|k: int|
            0 <= k < slots.len() && (#[trigger] slots[k]).tou == TouClass::Peak && value(slots[k].net_kw) == value(
                peak_tou(slots),
            );
        assert(value(slots[k].net_kw) == x[base + k]);
    }
}

/// The MPC feels demand in every slot: at each point that satisfies its program with priced
/// demand the facilities peak is not below the net load of any modeled slot, the
/// time-related one not below that of any modeled slot of class `peak`, and the objective
/// holds the demand charges that a bill over the planned net loads would settle, at least.
pub proof fn mpc_plans_pay_for_every_slot<N: Num>(
    value: spec_fn(N) -> real,
    unit: real,
    config: MpcConfig<N>,
    obs: ObservationModel<N>,
    x: Seq<real>,
    slots: Seq<SlotRecord<N>>,
)
    requires
        plans_exactly(value, unit),
        is_plannable_now(value, config, obs),
        prices_fit(value, obs.price_series, config.degradation_usd_per_kwh),
        satisfies(value, plan_program(config, obs), x),
        0real <= value(obs.demand_charge_usd_per_kw),
        0real <= value(obs.demand_charge_peak_usd_per_kw),
        demand_costs(value, obs.demand_charge_usd_per_kw, obs.demand_charge_peak_usd_per_kw),
        are_records_of(
            value,
            slots,
            obs.tou_series,
            obs.slot as int,
            (plan_end(config, obs) - obs.slot) as nat,
            x,
            first_load(obs, plan_end(config, obs)),
        ),
    ensures
        ({
            let end = plan_end(config, obs);
            let base = first_load(obs, end);
            let top = base + (end - obs.slot);
            let rest = plan_cost(value, config, obs, end, x) - value(obs.demand_charge_usd_per_kw) * x[top] - value(
                obs.demand_charge_peak_usd_per_kw,
            ) * x[top + 1];
            &&& forall|s: int|
                #![trigger obs.tou_series[s]]
                obs.slot <= s < end ==> x[base + (s - obs.slot)] <= x[top] && (obs.tou_series[s] == TouClass::Peak
                    ==> x[base + (s - obs.slot)] <= x[top + 1])
            &&& rest + value(obs.demand_charge_usd_per_kw) * value(peak(slots)) + value(
                obs.demand_charge_peak_usd_per_kw,
            ) * value(peak_tou(slots)) <= cost_at(value, plan_program(config, obs), x)
        }),
{
    let end = plan_end(config, obs);
    let n = (end - obs.slot) as nat;
    let base = first_load(obs, end);
    let top = base + n;
    mpc_programs_are_plans(value, unit, config, obs, x);
    lemma_billed_peaks(value, unit, slots, obs.tou_series, obs.slot as int, n, x, base, top);
    assert forall|s: int| #![trigger obs.tou_series[s]] obs.slot <= s < end implies x[base + (s - obs.slot)] <= x[top]
        && (obs.tou_series[s] == TouClass::Peak ==> x[base + (s - obs.slot)] <= x[top + 1]) by {
        let k = s - obs.slot;
        assert(x[base + k] <= x[top]);
    }
    let a = value(obs.demand_charge_usd_per_kw);
    let b = value(obs.demand_charge_peak_usd_per_kw);
    let p = value(peak(slots));
    let q = value(peak_tou(slots));
    let y = x[top];
    let z = x[top + 1];
    assert(a * p <= a * y && b * q <= b * z) by (nonlinear_arith)
        requires
            0real <= a,
            0real <= b,
            p <= y,
            q <= z,
    ;
}

/// The oracle feels demand in every slot of the horizon, in the same way.
pub proof fn oracle_plans_pay_for_every_slot<N: Num>(
    value: spec_fn(N) -> real,
    unit: real,
    sc: ScenarioModel<N>,
    config: OracleConfig<N>,
    with_dr: bool,
    bounds: Option<Seq<N>>,
    x: Seq<real>,
    slots: Seq<SlotRecord<N>>,
)
    requires
        plans_exactly(value, unit),
        is_plannable_site(value, sc, config, with_dr, bounds),
        prices_fit(value, sc.price, config.degradation_usd_per_kwh),
        satisfies(value, oracle_program(sc, config, with_dr, bounds), x),
        0real <= value(sc.rules.demand_charge_usd_per_kw),
        0real <= value(sc.rules.demand_charge_peak_usd_per_kw),
        demand_costs(value, sc.rules.demand_charge_usd_per_kw, sc.rules.demand_charge_peak_usd_per_kw),
        are_records_of(value, slots, sc.tou, 0, sc.building.len(), x, site_base(sc)),
    ensures
        ({
            let base = site_base(sc);
            let top = base + sc.building.len();
            let rest = site_cost(value, sc, config, with_dr, bounds is Some, x) - value(
                sc.rules.demand_charge_usd_per_kw,
            ) * x[top] - value(sc.rules.demand_charge_peak_usd_per_kw) * x[top + 1];
            &&& forall|s: int|
                #![trigger sc.tou[s]]
                0 <= s < sc.building.len() ==> x[base + s] <= x[top] && (sc.tou[s] == TouClass::Peak ==> x[base + s]
                    <= x[top + 1])
            &&& rest + value(sc.rules.demand_charge_usd_per_kw) * value(peak(slots)) + value(
                sc.rules.demand_charge_peak_usd_per_kw,
            ) * value(peak_tou(slots)) <= cost_at(value, oracle_program(sc, config, with_dr, bounds), x)
        }),
{
    let n = sc.building.len();
    let base = site_base(sc);
    let top = base + n;
    oracle_programs_are_plans(value, unit, sc, config, with_dr, bounds, x);
    lemma_billed_peaks(value, unit, slots, sc.tou, 0, n, x, base, top);
    assert forall|s: int| #![trigger sc.tou[s]] 0 <= s < n implies x[base + s] <= x[top] && (sc.tou[s]
        == TouClass::Peak ==> x[base + s] <= x[top + 1]) by {
        assert(x[base + s] <= x[top]);
    }
    let a = value(sc.rules.demand_charge_usd_per_kw);
    let b = value(sc.rules.demand_charge_peak_usd_per_kw);
    let p = value(peak(slots));
    let q = value(peak_tou(slots));
    let y = x[top];
    let z = x[top + 1];
    assert(a * p <= a * y && b * q <= b * z) by (nonlinear_arith)
        requires
            0real <= a,
            0real <= b,
            p <= y,
            q <= z,
    ;
}

/// What the first `n` slots of a visit add to a battery with the given efficiencies: what is
/// drawn times the charging efficiency, less what is given over the discharging one.
pub open spec fn stored_sum(x: Seq<real>, base: int, charge: real, discharge: real, n: nat) -> real
    decreases n,
{
    if n == 0 {
        0real
    } else {
        let i = n - 1;
        stored_sum(x, base, charge, discharge, i as nat) + charge * drawn(x, base, i) - given(x, base, i) / discharge
    }
}

/// What the first `n` slots of a visit give, kWh.
pub open spec fn given_sum(x: Seq<real>, base: int, n: nat) -> real
    decreases n,
{
    if n == 0 {
        0real
    } else {
        given_sum(x, base, (n - 1) as nat) + given(x, base, n - 1)
    }
}

/// A kept visit ends with what it started with and what was put in, up to the rounding of
/// the inverse efficiency on what it gave.
proof fn lemma_stored_sum<N: Num>(
    value: spec_fn(N) -> real,
    unit: real,
    t: Terms<N>,
    x: Seq<real>,
    base: int,
    from: real,
    n: nat,
)
    requires
        rounds_toward_zero(value, unit),
        t.discharge_efficiency.finite(),
        0real < value(t.discharge_efficiency),
        fits(value, 1real / value(t.discharge_efficiency)),
        is_kept_visit(value, t, x, base, from),
        n <= t.slots,
    ensures
        ({
            let put = stored_sum(x, base, value(t.charge_efficiency), value(t.discharge_efficiency), n);
            let end = held_before(x, base, from, n as int);
            &&& from + put <= end <= from + put + unit * given_sum(x, base, n)
            &&& 0real <= given_sum(x, base, n)
        }),
    decreases n,
{
    reveal(is_kept_visit);
    lemma_ones::<N>(value, unit);
    let c = value(t.charge_efficiency);
    let d = value(t.discharge_efficiency);
    if n == 0 {
        assert(unit * 0real == 0real) by (nonlinear_arith);
    } else {
        let i = n - 1;
        lemma_stored_sum(value, unit, t, x, base, from, i as nat);
        assert(is_physical(value, t, x, base, from, i));
        lemma_over(value, unit, one_of::<N>(), t.discharge_efficiency);
        let k = drain(value, t.discharge_efficiency);
        let g = given(x, base, i);
        let sum = given_sum(x, base, i as nat);
        assert(g / d - unit * g <= k * g <= g / d && unit * (sum + g) == unit * sum + unit * g) by (nonlinear_arith)
            requires
                0real <= g,
                0real < d,
                1real / d - unit <= k <= 1real / d,
        {
            assert((1real / d) * g == g / d);
            assert((1real / d - unit) * g <= k * g);
            assert(k * g <= (1real / d) * g);
        }
    }
}

/// The oracle plans with the scenario's own losses: at each point that satisfies its program
/// a session ends with what it started with, plus what it draws times the scenario's
/// charging efficiency, less what it gives over its discharging efficiency, up to rounding;
/// so with no shortfall it ends with its target.
pub proof fn oracle_plans_follow_the_batteries<N: Num>(
    value: spec_fn(N) -> real,
    unit: real,
    sc: ScenarioModel<N>,
    config: OracleConfig<N>,
    with_dr: bool,
    bounds: Option<Seq<N>>,
    x: Seq<real>,
    p: int,
)
    requires
        plans_exactly(value, unit),
        is_plannable_site(value, sc, config, with_dr, bounds),
        sc.rules.discharge_efficiency.finite(),
        0real < value(sc.rules.discharge_efficiency),
        fits(value, 1real / value(sc.rules.discharge_efficiency)),
        satisfies(value, oracle_program(sc, config, with_dr, bounds), x),
        0 <= p < sc.vehicles.len(),
    ensures
        ({
            let v = session_at(sc, p);
            let n = (v.departure_slot - v.arrival_slot) as nat;
            let base = stay_base(sc, p);
            let put = stored_sum(
                x,
                base,
                value(sc.rules.charge_efficiency),
                value(sc.rules.discharge_efficiency),
                n,
            );
            let from = stay_start(value, sc, x, p);
            let end = held(x, base, n - 1);
            &&& from + put <= end <= from + put + unit * given_sum(x, base, n)
            &&& 0real <= given_sum(x, base, n)
            &&& value(v.soc_target_kwh) <= end + lacking(x, base, n)
            &&& lacking(x, base, n) == 0real ==> value(v.soc_target_kwh) <= from + put + unit * given_sum(x, base, n)
        }),
{
    oracle_programs_are_plans(value, unit, sc, config, with_dr, bounds, x);
    assert(is_stay_kept(value, sc, x, p));
    lemma_arrival_order(sc);
    assert(arrival_order(sc.vehicles)[p] < sc.vehicles.len());
    let t = stay_terms(sc, p);
    lemma_stored_sum(value, unit, t, x, stay_base(sc, p), stay_start(value, sc, x, p), t.slots);
    reveal(is_kept_visit);
}

/// The MPC plans with the losses that it is shown, in the same way, from the SoC that it is
/// shown.
pub proof fn mpc_plans_follow_the_batteries<N: Num>(
    value: spec_fn(N) -> real,
    unit: real,
    config: MpcConfig<N>,
    obs: ObservationModel<N>,
    x: Seq<real>,
    i: int,
    n: nat,
)
    requires
        plans_exactly(value, unit),
        is_plannable_now(value, config, obs),
        obs.discharge_efficiency.finite(),
        0real < value(obs.discharge_efficiency),
        fits(value, 1real / value(obs.discharge_efficiency)),
        satisfies(value, plan_program(config, obs), x),
        0 <= i < obs.sessions.len(),
        0 < n,
        obs.slot + n <= obs.sessions[i].vehicle.departure_slot,
        obs.slot + n <= plan_end(config, obs),
    ensures
        ({
            let base = block_base(0, car_spans(obs, plan_end(config, obs)), i as nat);
            let put = stored_sum(x, base, value(obs.charge_efficiency), value(obs.discharge_efficiency), n);
            let from = value(obs.sessions[i].soc_kwh);
            let end = held(x, base, n - 1);
            &&& from + put <= end <= from + put + unit * given_sum(x, base, n)
            &&& 0real <= given_sum(x, base, n)
        }),
{
    let end = plan_end(config, obs);
    mpc_programs_are_plans(value, unit, config, obs, x);
    assert(is_car_kept(value, obs, end, x, i));
    let base = block_base(0, car_spans(obs, end), i as nat);
    lemma_stored_sum(value, unit, car_terms(obs, end, i), x, base, value(obs.sessions[i].soc_kwh), n);
}

/// The figures of a plan: hours per slot are minutes over sixty, what a kWh in a slot is in
/// kW is its inverse, both rounded down by no more than a unit.
pub proof fn plan_figures_are_right<N: Num>(value: spec_fn(N) -> real, unit: real, slot_minutes: N)
    requires
        rounds_toward_zero(value, unit),
        slot_minutes.finite(),
        0real < value(slot_minutes),
    ensures
        ({
            let hours = slot_hours(slot_minutes);
            &&& hours.finite()
            &&& value(slot_minutes) / 60real - unit <= value(hours) <= value(slot_minutes) / 60real
            &&& 0real < value(hours) && fits(value, 1real / value(hours)) ==> 1real / value(hours) - unit <= per_hour(
                value,
                hours,
            ) <= 1real / value(hours)
        }),
{
    lemma_ones::<N>(value, unit);
    lemma_constants(value, unit);
    lemma_finite(value, unit, slot_minutes);
    lemma_closer_fits(value, value(slot_minutes) / 60real, value(slot_minutes));
    lemma_over(value, unit, slot_minutes, count::<N>(60));
    let hours = slot_hours(slot_minutes);
    if 0real < value(hours) {
        lemma_over(value, unit, one_of::<N>(), hours);
    }
}

proof fn lemma_reach(kw: real, h: real, e: real, n: real, a: real, b: real, r: real, u: real)
    requires
        0real <= kw,
        0real <= h,
        0real <= n,
        0real <= u,
        e * kw - u <= a <= e * kw,
        0real <= a,
        a * h - u <= b <= a * h,
        0real <= b,
        b * n - u <= r <= b * n,
    ensures
        r <= e * kw * h * n,
        e * kw * h * n - u * h * n - u * n - u <= r,
{
    let ek = e * kw;
    assert(b <= ek * h && b * n <= ek * h * n && (ek - u) * h <= a * h) by (nonlinear_arith)
        requires
            0real <= h,
            0real <= n,
            ek - u <= a <= ek,
            b <= a * h,
    {
        assert(a * h <= ek * h);
        assert(b * n <= (ek * h) * n);
    }
    assert((ek * h - u * h - u) * n <= b * n && (ek * h - u * h - u) * n == ek * h * n - u * h * n - u * n)
        by (nonlinear_arith)
        requires
            0real <= n,
            (ek - u) * h <= a * h,
            a * h - u <= b,
    {
        assert((ek - u) * h == ek * h - u * h);
    }
}

/// The terminal requirement of a truncated plan leaves the target in reach: together with
/// what full power adds in the slots after the plan it is the target or more, it is never
/// below the floor, and up to rounding it asks for no more than that.
pub proof fn terminal_needs_leave_the_target_in_reach<N: Num>(
    value: spec_fn(N) -> real,
    unit: real,
    target_kwh: N,
    departure_slot: usize,
    last_slot: int,
    max_charge_kw: N,
    dt: N,
    eta_c: N,
    floor_kwh: N,
)
    requires
        plans_exactly(value, unit),
        target_kwh.finite(),
        floor_kwh.finite(),
        max_charge_kw.finite() && 0real <= value(max_charge_kw),
        dt.finite() && 0real <= value(dt),
        eta_c.finite() && 0real <= value(eta_c),
        0 <= last_slot < departure_slot,
        fits(value, (departure_slot - 1 - last_slot) as real),
        ({
            let n = (departure_slot - 1 - last_slot) as real;
            let kw = value(eta_c) * value(max_charge_kw);
            &&& fits(value, kw)
            &&& fits(value, kw * value(dt))
            &&& fits(value, kw * value(dt) * n)
            &&& fits(value, most(value(target_kwh), 0real - value(target_kwh)) + kw * value(dt) * n)
        }),
    ensures
        ({
            let need = terminal_need(target_kwh, departure_slot, last_slot, max_charge_kw, dt, eta_c, floor_kwh);
            let n = (departure_slot - 1 - last_slot) as real;
            let later = value(eta_c) * value(max_charge_kw) * value(dt) * n;
            &&& value(floor_kwh) <= value(need)
            &&& value(target_kwh) <= value(need) + later
            &&& value(need) <= most(
                value(target_kwh) - later + unit * value(dt) * n + unit * n + unit,
                value(floor_kwh),
            )
        }),
{
    lemma_constants(value, unit);
    reveal(has_measures);
    let k = departure_slot - 1 - last_slot;
    let n = k as real;
    let slots = count::<N>(k);
    assert(slots == N::rational(k as u64, 1));
    assert((k as u64) as real == n);
    let e = value(eta_c);
    let kw = value(max_charge_kw);
    let h = value(dt);
    assert(0real <= e * kw) by (nonlinear_arith)
        requires
            0real <= e,
            0real <= kw,
    ;
    lemma_times(value, unit, eta_c, max_charge_kw);
    let a = eta_c.times(max_charge_kw);
    assert(0real <= value(a) * h <= e * kw * h) by (nonlinear_arith)
        requires
            0real <= value(a) <= e * kw,
            0real <= h,
    ;
    lemma_closer_fits(value, value(a) * h, e * kw * h);
    lemma_times(value, unit, a, dt);
    let b = a.times(dt);
    assert(0real <= value(b) * n <= e * kw * h * n) by (nonlinear_arith)
        requires
            0real <= value(b) <= e * kw * h,
            0real <= n,
    ;
    lemma_closer_fits(value, value(b) * n, e * kw * h * n);
    lemma_times(value, unit, b, slots);
    let r = b.times(slots);
    lemma_reach(kw, h, e, n, value(a), value(b), value(r), unit);
    let tk = value(target_kwh);
    lemma_closer_fits(value, tk - value(r), most(tk, 0real - tk) + e * kw * h * n);
    lemma_minus(value, unit, target_kwh, r);
    lemma_finite(value, unit, target_kwh.minus(r));
    lemma_finite(value, unit, floor_kwh);
    lemma_compare(value, unit, target_kwh.minus(r), floor_kwh);
}

} // verus!
