//! What the planners make of a solver's answer: the powers that are committed, the course
//! that is replayed, and what a commitment to a firm level costs.

use vstd::prelude::*;

use crate::dispatch::total;
use crate::milp::{objective_value, weighted, MilpBackend, Program, SolStatus, Solution, SolveError};
use crate::num::{zero_of, Num};
use crate::policy::feasible::{
    car_spans, first_load, lemma_car_places, lemma_visits_len, session_at, stay_base, stay_spans,
};
use crate::policy::formulation::{block_base, spans_of, Place};
use crate::policy::futures::entry_base;
use crate::policy::mpc::{
    committed, first_power, has_plan, plan_end, plan_rates, plan_visits, planned_peak, slot_hours, MpcConfig,
};
use crate::policy::oracle::{
    committed_events, count_bidirectional, count_here, course_at, first_slot_issue, gated_cost, is_oracle_result,
    is_v2b, may_get, needs_v2b, oracle_blocks, oracle_outcome, oracle_program, planned_power, replayed, scope_issue,
    session_spans, slot_issue, solved_plan, window_overflow, window_peak, CourseModel, OracleConfig, OraclePlan,
    OraclePlanModel,
};
use crate::policy::points::{cost_at, priced};
use crate::policy::scenario_mpc::{
    entries, first_setpoints, power_sum, scenario_committed, scenario_places, Entry, ScenarioMpcRules,
};
use crate::rounding::{
    fits, has_fractions, is_about, is_number, lemma_closer_fits, lemma_compare, lemma_constants, lemma_finite,
    lemma_fitting, lemma_minus, lemma_plus, lemma_times, most, rounds_toward_zero,
};
use crate::scenario::{Charger, DrEvent, ScenarioModel, Vehicle};
use crate::state::{ObservationModel, Setpoint};
use crate::tariff::{lemma_same_total, lemma_sizes, sizes};

verus! {

/// `power` is what flows when `drawn` kWh are drawn and `given` kWh are given in a slot of
/// `hours`, up to a unit.
pub open spec fn is_flow<N: Num>(
    value: spec_fn(N) -> real,
    unit: real,
    power: N,
    drawn: N,
    given: N,
    hours: N,
) -> bool {
    let exact = (value(drawn) - value(given)) / value(hours);
    exact - unit <= value(power) <= exact + unit
}

/// Flows that fit the number type.
pub open spec fn flows_fit<N: Num>(value: spec_fn(N) -> real, drawn: N, given: N, hours: N) -> bool {
    &&& drawn.finite() && given.finite()
    &&& hours.finite() && 0real < value(hours)
    &&& fits(value, value(drawn) - value(given))
    &&& fits(value, (value(drawn) - value(given)) / value(hours))
}

proof fn lemma_flow<N: Num>(value: spec_fn(N) -> real, unit: real, drawn: N, given: N, hours: N)
    requires
        rounds_toward_zero(value, unit),
        has_fractions(value, unit),
        flows_fit(value, drawn, given, hours),
    ensures
        is_flow(value, unit, drawn.minus(given).over(hours), drawn, given, hours),
{
    lemma_minus(value, unit, drawn, given);
    let d = drawn.minus(given);
    assert(is_about(value, unit, d.over(hours), value(d) / value(hours))) by {
        reveal(has_fractions);
    }
}

/// The MPC commits, for every connected session, to the flow that an optimal answer plans
/// for the first slot, and to nothing without one.
pub proof fn mpc_commits_the_first_slot<N: Num>(
    value: spec_fn(N) -> real,
    unit: real,
    config: MpcConfig<N>,
    obs: ObservationModel<N>,
    r: Result<Solution<N>, SolveError>,
    i: int,
)
    requires
        rounds_toward_zero(value, unit),
        has_fractions(value, unit),
        obs.well_formed(),
        has_plan(config, obs),
        first_load(obs, plan_end(config, obs)) <= usize::MAX,
        0 <= i < obs.sessions.len(),
        ({
            let base = block_base(0, car_spans(obs, plan_end(config, obs)), i as nat);
            r matches Ok(s) && s.status == SolStatus::Optimal ==> flows_fit(
                value,
                r->Ok_0.values@[base],
                r->Ok_0.values@[base + 1],
                slot_hours(obs.slot_minutes),
            )
        }),
    ensures
        ({
            let base = block_base(0, car_spans(obs, plan_end(config, obs)), i as nat);
            let out = committed(config, obs, r);
            match r {
                Ok(s) => if s.status == SolStatus::Optimal {
                    &&& out.len() == obs.sessions.len()
                    &&& out[i].session_index == obs.sessions[i].index
                    &&& is_flow(
                        value,
                        unit,
                        out[i].power_kw,
                        s.values@[base],
                        s.values@[base + 1],
                        slot_hours(obs.slot_minutes),
                    )
                } else {
                    out.len() == 0
                },
                Err(_) => out.len() == 0,
            }
        }),
{
    let end = plan_end(config, obs);
    let spans = car_spans(obs, end);
    assert(spans_of(plan_visits(config, obs)) =~= spans);
    lemma_car_places(obs, end);
    let base = block_base(0, spans, i as nat);
    assert(0 <= base <= usize::MAX);
    match r {
        Ok(s) => {
            if s.status == SolStatus::Optimal {
                lemma_flow(value, unit, s.values@[base], s.values@[base + 1], slot_hours(obs.slot_minutes));
            }
        },
        Err(_) => {},
    }
}

/// The planned peak that the MPC records is the time-related peak of its plan.
pub proof fn mpc_records_the_planned_peak<N: Num>(
    config: MpcConfig<N>,
    obs: ObservationModel<N>,
    s: Solution<N>,
)
    requires
        obs.well_formed(),
        has_plan(config, obs),
        s.status == SolStatus::Optimal,
        zero_of::<N>().below(obs.demand_charge_usd_per_kw) || zero_of::<N>().below(obs.demand_charge_peak_usd_per_kw),
    ensures
        ({
            let end = plan_end(config, obs);
            planned_peak(config, obs, Ok(s)) == Some(s.values@[first_load(obs, end) + (end - obs.slot) + 1])
        }),
{
    let visits = plan_visits(config, obs);
    let n = obs.sessions.len();
    assert(spans_of(visits) =~= car_spans(obs, plan_end(config, obs)));
    assert forall|i: int| 0 <= i < n implies (#[trigger] visits[i]).first_slot <= visits[i].last_slot by {
        assert(obs.sessions[i].vehicle.departure_slot > obs.slot);
    }
    lemma_visits_len(
        Program::<N>::empty(),
        "target_"@,
        visits,
        plan_rates(config, obs),
        obs.price_series,
        n,
    );
}

/// The scenario-MPC commits, for every connected session in scenario 0, to the flow that an
/// optimal answer plans for its first slot there.
pub proof fn scenario_mpc_commits_the_first_slot<N: Num>(
    value: spec_fn(N) -> real,
    unit: real,
    config: ScenarioMpcRules<N>,
    obs: ObservationModel<N>,
    s: Solution<N>,
    j: int,
)
    requires
        rounds_toward_zero(value, unit),
        has_fractions(value, unit),
        s.status == SolStatus::Optimal,
        0 <= j < entries(config, obs, 0).len(),
        entries(config, obs, 0)[j].view_index is Some,
        0 <= entry_base(config, obs, 0, j) <= usize::MAX,
        flows_fit(
            value,
            s.values@[entry_base(config, obs, 0, j)],
            s.values@[entry_base(config, obs, 0, j) + 1],
            slot_hours(obs.slot_minutes),
        ),
    ensures
        ({
            let out = scenario_committed(config, obs, Ok(s));
            let base = entry_base(config, obs, 0, j);
            exists|p: int|
                0 <= p < out.len() && (#[trigger] out[p]).session_index == entries(config, obs, 0)[j].view_index->0
                    && is_flow(
                    value,
                    unit,
                    out[p].power_kw,
                    s.values@[base],
                    s.values@[base + 1],
                    slot_hours(obs.slot_minutes),
                )
        }),
{
    let list = entries(config, obs, 0);
    let base = entry_base(config, obs, 0, j);
    let places = scenario_places(config, obs, 0);
    assert(places[j].base == base);
    lemma_flow(value, unit, s.values@[base], s.values@[base + 1], slot_hours(obs.slot_minutes));
    lemma_first_setpoints(list, places, s.values@, slot_hours(obs.slot_minutes), list.len(), j);
    let out = scenario_committed(config, obs, Ok(s));
    let sp = first_power(list[j].view_index->0, base, s.values@, slot_hours(obs.slot_minutes));
    assert(out.contains(sp));
    let p = choose|p: int| 0 <= p < out.len() && out[p] == sp;
    assert(out[p] == sp);
}

proof fn lemma_first_setpoints<N: Num>(
    list: Seq<Entry<N>>,
    places: Seq<Place>,
    values: Seq<N>,
    dt: N,
    n: nat,
    j: int,
)
    requires
        0 <= j < n <= list.len(),
        list[j].view_index is Some,
    ensures
        first_setpoints(list, places, values, dt, n).contains(
            first_power(list[j].view_index->0, places[j].base as int, values, dt),
        ),
    decreases n,
{
    let sp = first_power(list[j].view_index->0, places[j].base as int, values, dt);
    let out = first_setpoints(list, places, values, dt, n);
    let before = first_setpoints(list, places, values, dt, (n - 1) as nat);
    if j < n - 1 {
        lemma_first_setpoints(list, places, values, dt, (n - 1) as nat, j);
        let p = choose|p: int| 0 <= p < before.len() && before[p] == sp;
        assert(out[p] == sp);
    } else {
        assert(out[before.len() as int] == sp);
    }
}

// -------------------------------------------------------------------- replay

/// A planned course is the flow that the answer plans for each slot of the stay.
pub proof fn courses_follow_the_answer<N: Num>(
    value: spec_fn(N) -> real,
    unit: real,
    sc: ScenarioModel<N>,
    values: Seq<N>,
    p: int,
    k: int,
)
    requires
        rounds_toward_zero(value, unit),
        has_fractions(value, unit),
        0 <= p < sc.vehicles.len(),
        0 <= k < session_at(sc, p).departure_slot - session_at(sc, p).arrival_slot,
        0 <= stay_base(sc, p) <= usize::MAX,
        flows_fit(
            value,
            values[stay_base(sc, p) + 3 * k],
            values[stay_base(sc, p) + 3 * k + 1],
            slot_hours(sc.rules.slot_minutes),
        ),
    ensures
        ({
            let c = course_at(sc, values, p);
            &&& c.vehicle_id == session_at(sc, p).vehicle_id
            &&& c.arrival_slot == session_at(sc, p).arrival_slot
            &&& c.power_kw.len() == session_at(sc, p).departure_slot - session_at(sc, p).arrival_slot
            &&& is_flow(
                value,
                unit,
                c.power_kw[k],
                values[stay_base(sc, p) + 3 * k],
                values[stay_base(sc, p) + 3 * k + 1],
                slot_hours(sc.rules.slot_minutes),
            )
        }),
{
    assert(session_spans(sc.vehicles) =~= stay_spans(sc));
    let base = stay_base(sc, p);
    lemma_flow(value, unit, values[base + 3 * k], values[base + 3 * k + 1], slot_hours(sc.rules.slot_minutes));
}

/// Replaying a plan asks each connected session for the power of its own course in the
/// current slot: where exactly one course is that of the session, that one counts.
pub proof fn replays_follow_the_courses<N: Num>(
    plan: OraclePlanModel<N>,
    obs: ObservationModel<N>,
    i: int,
    c: int,
)
    requires
        0 <= i < obs.sessions.len(),
        0 <= c < plan.schedule.len(),
        plan.schedule[c].vehicle_id == obs.sessions[i].vehicle.vehicle_id,
        plan.schedule[c].arrival_slot == obs.sessions[i].vehicle.arrival_slot,
        plan.schedule[c].arrival_slot <= obs.slot < plan.schedule[c].arrival_slot + plan.schedule[c].power_kw.len(),
        forall|d: int|
            0 <= d < plan.schedule.len() && d != c ==> (#[trigger] plan.schedule[d]).vehicle_id
                != obs.sessions[i].vehicle.vehicle_id || plan.schedule[d].arrival_slot
                != obs.sessions[i].vehicle.arrival_slot,
    ensures
        replayed(plan, obs).len() == obs.sessions.len(),
        replayed(plan, obs)[i].session_index == obs.sessions[i].index,
        replayed(plan, obs)[i].power_kw == plan.schedule[c].power_kw[obs.slot - plan.schedule[c].arrival_slot],
{
    let v = obs.sessions[i].vehicle;
    lemma_planned(plan.schedule, v.vehicle_id, v.arrival_slot, obs.slot, c, plan.schedule.len());
}

proof fn lemma_planned<N: Num>(
    list: Seq<CourseModel<N>>,
    vehicle_id: u32,
    arrival_slot: usize,
    slot: usize,
    c: int,
    n: nat,
)
    requires
        0 <= c < n <= list.len(),
        list[c].vehicle_id == vehicle_id,
        list[c].arrival_slot == arrival_slot,
        arrival_slot <= slot < arrival_slot + list[c].power_kw.len(),
        forall|d: int|
            0 <= d < list.len() && d != c ==> (#[trigger] list[d]).vehicle_id != vehicle_id || list[d].arrival_slot
                != arrival_slot,
    ensures
        planned_power(list, vehicle_id, arrival_slot, slot, n) == list[c].power_kw[slot - arrival_slot],
    decreases n,
{
    if c < n - 1 {
        lemma_planned(list, vehicle_id, arrival_slot, slot, c, (n - 1) as nat);
        assert(list[n - 1].vehicle_id != vehicle_id || list[n - 1].arrival_slot != arrival_slot);
    }
}

/// A session of which nothing is planned for the slot is asked for nothing.
pub proof fn replays_ask_for_nothing_else<N: Num>(plan: OraclePlanModel<N>, obs: ObservationModel<N>, i: int)
    requires
        0 <= i < obs.sessions.len(),
        forall|d: int|
            0 <= d < plan.schedule.len() ==> (#[trigger] plan.schedule[d]).vehicle_id
                != obs.sessions[i].vehicle.vehicle_id || plan.schedule[d].arrival_slot
                != obs.sessions[i].vehicle.arrival_slot || obs.slot < plan.schedule[d].arrival_slot || obs.slot
                >= plan.schedule[d].arrival_slot + plan.schedule[d].power_kw.len(),
    ensures
        replayed(plan, obs)[i].power_kw == zero_of::<N>(),
{
    let v = obs.sessions[i].vehicle;
    lemma_unplanned(plan.schedule, v.vehicle_id, v.arrival_slot, obs.slot, plan.schedule.len());
}

proof fn lemma_unplanned<N: Num>(
    list: Seq<CourseModel<N>>,
    vehicle_id: u32,
    arrival_slot: usize,
    slot: usize,
    n: nat,
)
    requires
        n <= list.len(),
        forall|d: int|
            0 <= d < list.len() ==> (#[trigger] list[d]).vehicle_id != vehicle_id || list[d].arrival_slot
                != arrival_slot || slot < list[d].arrival_slot || slot >= list[d].arrival_slot + list[d].power_kw.len(),
    ensures
        planned_power(list, vehicle_id, arrival_slot, slot, n) == zero_of::<N>(),
    decreases n,
{
    if n > 0 {
        lemma_unplanned(list, vehicle_id, arrival_slot, slot, (n - 1) as nat);
        assert(list[n - 1].vehicle_id != vehicle_id || list[n - 1].arrival_slot != arrival_slot || slot
            < list[n - 1].arrival_slot || slot >= list[n - 1].arrival_slot + list[n - 1].power_kw.len());
    }
}

// -------------------------------------------------------------- firm levels

/// Net loads are finite.
pub open spec fn are_finite<N: Num>(net_kw: Seq<N>) -> bool {
    forall|s: int| 0 <= s < net_kw.len() ==> (#[trigger] net_kw[s]).finite()
}

proof fn lemma_peak_attained<N: Num>(
    value: spec_fn(N) -> real,
    unit: real,
    event: DrEvent<N>,
    net_kw: Seq<N>,
    n: nat,
)
    requires
        rounds_toward_zero(value, unit),
        are_finite(net_kw),
        n <= net_kw.len(),
    ensures
        is_number(window_peak(event, net_kw, n)),
        0real <= value(window_peak(event, net_kw, n)),
        forall|s: int|
            0 <= s < n && event.covers(s) ==> value(#[trigger] net_kw[s]) <= value(window_peak(event, net_kw, n)),
        value(window_peak(event, net_kw, n)) == 0real || exists|s: int|
            0 <= s < n && event.covers(s) && value(#[trigger] net_kw[s]) == value(window_peak(event, net_kw, n)),
    decreases n,
{
    lemma_constants(value, unit);
    if n > 0 {
        let m = (n - 1) as nat;
        lemma_peak_attained(value, unit, event, net_kw, m);
        let before = window_peak(event, net_kw, m);
        let last = net_kw[n - 1];
        lemma_finite(value, unit, last);
        lemma_compare(value, unit, before, last);
        let now = window_peak(event, net_kw, n);
        if value(now) != 0real {
            if event.covers(n - 1) && value(before) <= value(last) {
                assert(value(net_kw[n - 1]) == value(now));
            } else {
                let s = choose|s: int|
                    0 <= s < m && event.covers(s) && value(#[trigger] net_kw[s]) == value(before);
                assert(value(net_kw[s]) == value(now));
            }
        }
    }
}

/// The in-window peak is the largest planned net load inside the window, zero at least.
pub proof fn window_peaks_are_the_largest_loads<N: Num>(
    value: spec_fn(N) -> real,
    unit: real,
    event: DrEvent<N>,
    net_kw: Seq<N>,
)
    requires
        rounds_toward_zero(value, unit),
        are_finite(net_kw),
    ensures
        ({
            let top = value(window_peak(event, net_kw, net_kw.len()));
            &&& 0real <= top
            &&& forall|s: int|
                0 <= s < net_kw.len() && event.start_slot < s <= event.end_slot ==> value(#[trigger] net_kw[s]) <= top
            &&& top == 0real || exists|s: int|
                0 <= s < net_kw.len() && event.start_slot < s <= event.end_slot && value(#[trigger] net_kw[s]) == top
        }),
{
    lemma_peak_attained(value, unit, event, net_kw, net_kw.len());
    let top = window_peak(event, net_kw, net_kw.len());
    if value(top) != 0real {
        let s = choose|s: int|
            0 <= s < net_kw.len() && event.covers(s) && value(#[trigger] net_kw[s]) == value(top);
        assert(value(net_kw[s]) == value(top));
    }
}

/// The energy above level `f` in slot `s` of a window, kWh.
pub open spec fn excess<N: Num>(
    value: spec_fn(N) -> real,
    event: DrEvent<N>,
    net_kw: Seq<N>,
    f: real,
    hours: real,
) -> spec_fn(int) -> real {
    |s: int|
        if event.start_slot < s <= event.end_slot {
            most(value(net_kw[s]) - f, 0real) * hours
        } else {
            0real
        }
}

proof fn lemma_excess<N: Num>(
    value: spec_fn(N) -> real,
    unit: real,
    event: DrEvent<N>,
    net_kw: Seq<N>,
    f: N,
    dt: N,
    n: nat,
)
    requires
        rounds_toward_zero(value, unit),
        are_finite(net_kw),
        n <= net_kw.len(),
        f.finite(),
        forall|s: int| 0 <= s < net_kw.len() ==> fits(value, value(#[trigger] net_kw[s]) - value(f)),
        dt.finite(),
        0real <= value(dt),
        fits(value, total(excess(value, event, net_kw, value(f), value(dt)), n)),
    ensures
        ({
            let all = total(excess(value, event, net_kw, value(f), value(dt)), n);
            let over = window_overflow(event, net_kw, f, dt, n);
            &&& over.finite()
            &&& 0real <= value(over) <= all
            &&& all - n as real * unit <= value(over)
        }),
    decreases n,
{
    lemma_constants(value, unit);
    let g = excess(value, event, net_kw, value(f), value(dt));
    if n == 0 {
        assert(0real * unit == 0real) by (nonlinear_arith);
    } else {
        let m = (n - 1) as nat;
        let net = net_kw[n - 1];
        assert(net.finite());
        let a = most(value(net) - value(f), 0real);
        let h = value(dt);
        assert(0real <= a * h) by (nonlinear_arith)
            requires
                0real <= a,
                0real <= h,
        ;
        lemma_excess_sign(value, event, net_kw, value(f), h, m);
        lemma_closer_fits(value, total(g, m), total(g, n));
        lemma_excess(value, unit, event, net_kw, f, dt, m);
        assert(n as real * unit == m as real * unit + unit) by (nonlinear_arith)
            requires
                n as real == m as real + 1real,
        ;
        if event.covers(n - 1) {
            lemma_minus(value, unit, net, f);
            let gap = net.minus(f);
            lemma_finite(value, unit, gap);
            lemma_compare(value, unit, gap, zero_of::<N>());
            let above = gap.greater(zero_of());
            lemma_closer_fits(value, value(above), value(gap));
            lemma_fitting(value, unit, above);
            lemma_closer_fits(value, a * h, total(g, n));
            lemma_times(value, unit, above, dt);
            let before = window_overflow(event, net_kw, f, dt, m);
            lemma_closer_fits(value, value(before) + value(above.times(dt)), total(g, n));
            lemma_plus(value, unit, before, above.times(dt));
        }
    }
}

proof fn lemma_excess_sign<N: Num>(
    value: spec_fn(N) -> real,
    event: DrEvent<N>,
    net_kw: Seq<N>,
    f: real,
    h: real,
    n: nat,
)
    requires
        0real <= h,
    ensures
        0real <= total(excess(value, event, net_kw, f, h), n),
    decreases n,
{
    if n > 0 {
        lemma_excess_sign(value, event, net_kw, f, h, (n - 1) as nat);
        let a = most(value(net_kw[n - 1]) - f, 0real);
        assert(0real <= a * h) by (nonlinear_arith)
            requires
                0real <= a,
                0real <= h,
        ;
    }
}

/// What a commitment to a firm level costs: the penalty on all energy above it inside the
/// window, less the incentive on the reduction below the baseline, which is paid only where
/// nothing lies above the level, up to rounding.
pub proof fn commitments_cost_penalty_less_incentive<N: Num>(
    value: spec_fn(N) -> real,
    unit: real,
    event: DrEvent<N>,
    net_kw: Seq<N>,
    baseline_kw: N,
    f: N,
    dt: N,
)
    requires
        rounds_toward_zero(value, unit),
        are_finite(net_kw),
        f.finite() && baseline_kw.finite(),
        forall|s: int| 0 <= s < net_kw.len() ==> fits(value, value(#[trigger] net_kw[s]) - value(f)),
        dt.finite() && 0real <= value(dt),
        event.penalty_usd_per_kwh.finite() && 0real <= value(event.penalty_usd_per_kwh),
        event.incentive_usd_per_kw.finite() && 0real <= value(event.incentive_usd_per_kw),
        fits(value, value(baseline_kw) - value(f)),
        ({
            let all = total(excess(value, event, net_kw, value(f), value(dt)), net_kw.len());
            let cut = value(event.incentive_usd_per_kw) * most(value(baseline_kw) - value(f), 0real);
            &&& fits(value, all)
            &&& fits(value, value(event.penalty_usd_per_kwh) * all)
            &&& fits(value, cut)
            &&& fits(value, value(event.penalty_usd_per_kwh) * all + cut)
        }),
    ensures
        ({
            let rate = value(event.penalty_usd_per_kwh);
            let all = total(excess(value, event, net_kw, value(f), value(dt)), net_kw.len());
            let cut = value(event.incentive_usd_per_kw) * most(value(baseline_kw) - value(f), 0real);
            let cost = value(gated_cost(event, net_kw, baseline_kw, f, dt));
            let over = value(window_overflow(event, net_kw, f, dt, net_kw.len()));
            let slack = net_kw.len() as real * unit;
            &&& all - slack <= over <= all
            &&& over <= value(N::rational(1, 1_000_000_000)) ==> rate * over - unit - cut <= cost <= rate * over - cut
                + unit
            &&& over > value(N::rational(1, 1_000_000_000)) ==> rate * over - unit <= cost <= rate * over
        }),
{
    lemma_constants(value, unit);
    let n = net_kw.len();
    lemma_excess(value, unit, event, net_kw, f, dt, n);
    let over = window_overflow(event, net_kw, f, dt, n);
    let all = total(excess(value, event, net_kw, value(f), value(dt)), n);
    lemma_finite(value, unit, over);
    lemma_compare(value, unit, over, N::rational(1, 1_000_000_000));
    let rate = value(event.penalty_usd_per_kwh);
    let y = value(over);
    assert(0real <= rate * y <= rate * all) by (nonlinear_arith)
        requires
            0real <= rate,
            0real <= y <= all,
    ;
    lemma_closer_fits(value, rate * y, rate * all);
    lemma_times(value, unit, event.penalty_usd_per_kwh, over);
    let penalty = event.penalty_usd_per_kwh.times(over);
    lemma_minus(value, unit, baseline_kw, f);
    let gap = baseline_kw.minus(f);
    lemma_finite(value, unit, gap);
    lemma_compare(value, unit, gap, zero_of::<N>());
    let below = gap.greater(zero_of());
    lemma_closer_fits(value, value(below), value(gap));
    lemma_fitting(value, unit, below);
    lemma_times(value, unit, event.incentive_usd_per_kw, below);
    let paid = event.incentive_usd_per_kw.times(below);
    let cut = value(event.incentive_usd_per_kw) * value(below);
    lemma_closer_fits(value, value(penalty) - value(paid), rate * all + cut);
    lemma_closer_fits(value, value(penalty) - 0real, rate * all + cut);
    lemma_minus(value, unit, penalty, paid);
    lemma_minus(value, unit, penalty, zero_of::<N>());
}

// ------------------------------------------------------------------- scope

/// How many of the first `n` sessions are here.
proof fn lemma_count_here<N: Num>(vehicles: Seq<Vehicle<N>>, slot: int, v2b: bool, n: nat)
    requires
        n <= vehicles.len(),
    ensures
        count_here(vehicles, slot, v2b, n) as real == total(presence(vehicles, slot, v2b), n),
    decreases n,
{
    if n > 0 {
        lemma_count_here(vehicles, slot, v2b, (n - 1) as nat);
    }
}

/// One for each session that is here during `slot`; only those that can discharge if `v2b`
/// is set.
pub open spec fn presence<N: Num>(vehicles: Seq<Vehicle<N>>, slot: int, v2b: bool) -> spec_fn(int) -> real {
    |i: int|
        if vehicles[i].arrival_slot <= slot < vehicles[i].departure_slot && (v2b ==> zero_of::<N>().below(
            vehicles[i].max_discharge_kw,
        )) {
            1real
        } else {
            0real
        }
}

/// One for each port that can discharge.
pub open spec fn two_way<N>(chargers: Seq<Charger<N>>) -> spec_fn(int) -> real {
    |c: int|
        if chargers[c].bidirectional {
            1real
        } else {
            0real
        }
}

proof fn lemma_two_way<N>(chargers: Seq<Charger<N>>, n: nat)
    requires
        n <= chargers.len(),
    ensures
        count_bidirectional(chargers, n) as real == total(two_way(chargers), n),
    decreases n,
{
    if n > 0 {
        lemma_two_way(chargers, (n - 1) as nat);
    }
}

/// A scenario is in the oracle's scope just where there is a port, all ports have one
/// limit, and in every slot there are ports for the sessions that are here, and ports that
/// can discharge for those of them that can.
pub proof fn scope_means_a_port_for_everyone<N: Num>(sc: ScenarioModel<N>)
    ensures
        scope_issue(sc) is None <==> {
            &&& sc.chargers.len() > 0
            &&& forall|c: int|
                0 <= c < sc.chargers.len() ==> (#[trigger] sc.chargers[c]).max_kw.same(sc.chargers[0].max_kw)
            &&& forall|slot: int|
                0 <= slot < sc.rules.horizon_slots ==> #[trigger] is_slot_in_scope(sc, slot)
        },
{
    let n = sc.rules.horizon_slots as nat;
    lemma_slots_in_scope(sc, n);
}

/// There are ports enough in `slot`.
pub open spec fn is_slot_in_scope<N: Num>(sc: ScenarioModel<N>, slot: int) -> bool {
    let n = sc.vehicles.len();
    &&& total(presence(sc.vehicles, slot, false), n) <= sc.chargers.len() as real
    &&& total(presence(sc.vehicles, slot, true), n) <= total(two_way(sc.chargers), sc.chargers.len())
}

proof fn lemma_slots_in_scope<N: Num>(sc: ScenarioModel<N>, n: nat)
    ensures
        first_slot_issue(sc, n) is None <==> forall|slot: int| 0 <= slot < n ==> #[trigger] is_slot_in_scope(sc, slot),
    decreases n,
{
    if n > 0 {
        lemma_slots_in_scope(sc, (n - 1) as nat);
        let slot = n - 1;
        let m = sc.vehicles.len();
        lemma_count_here(sc.vehicles, slot, false, m);
        lemma_count_here(sc.vehicles, slot, true, m);
        lemma_two_way(sc.chargers, sc.chargers.len());
        lemma_no_v2b(sc.vehicles, slot, m);
        assert(slot_issue(sc, slot) is None <==> is_slot_in_scope(sc, slot));
    }
}

proof fn lemma_no_v2b<N: Num>(vehicles: Seq<Vehicle<N>>, slot: int, n: nat)
    requires
        n <= vehicles.len(),
    ensures
        !needs_v2b(vehicles) ==> count_here(vehicles, slot, true, n) == 0,
    decreases n,
{
    if n > 0 {
        lemma_no_v2b(vehicles, slot, (n - 1) as nat);
        if !needs_v2b(vehicles) {
            assert(!is_v2b(vehicles[n - 1]));
        }
    }
}

// --------------------------------------------------------------- objectives

/// A point of numbers as reals.
pub open spec fn reals<N>(value: spec_fn(N) -> real, values: Seq<N>) -> Seq<real> {
    Seq::new(values.len(), |i: int| value(values[i]))
}

/// The size of each term of an objective.
pub open spec fn term_sizes<N: Num>(value: spec_fn(N) -> real, p: Program<N>, values: Seq<N>) -> spec_fn(int) -> real {
    |i: int| {
        let t = value(values[i]) * value(p.vars[i].obj);
        most(t, 0real - t)
    }
}

proof fn lemma_weighted<N: Num>(value: spec_fn(N) -> real, unit: real, p: Program<N>, values: Seq<N>, n: nat)
    requires
        rounds_toward_zero(value, unit),
        has_fractions(value, unit),
        values.len() == p.vars.len(),
        n <= values.len(),
        forall|i: int| 0 <= i < values.len() ==> (#[trigger] values[i]).finite() && p.vars[i].obj.finite(),
        fits(value, total(term_sizes(value, p, values), n) + n as real * unit),
    ensures
        ({
            let w = weighted(p.vars, values, n);
            let exact = priced(value, p.vars.take(n as int), reals(value, values), 0);
            let size = total(term_sizes(value, p, values), n);
            &&& w.finite()
            &&& exact - n as real * unit <= value(w) <= exact + n as real * unit
            &&& 0real - size <= exact <= size
            &&& 0real <= size
        }),
    decreases n,
{
    lemma_constants(value, unit);
    if n == 0 {
        assert(0real * unit == 0real) by (nonlinear_arith);
        assert(p.vars.take(0) =~= Seq::empty());
    } else {
        let m = (n - 1) as nat;
        let g = term_sizes(value, p, values);
        let x = reals(value, values);
        assert(values[n - 1].finite());
        assert(n as real * unit == m as real * unit + unit && 0real <= m as real * unit) by (nonlinear_arith)
            requires
                n as real == m as real + 1real,
                0real <= m as real,
                0real <= unit,
        ;
        lemma_sizes_sign(value, p, values, m);
        lemma_closer_fits(value, total(g, m) + m as real * unit, total(g, n) + n as real * unit);
        lemma_weighted(value, unit, p, values, m);
        let a = p.vars.take(n as int);
        assert(a.drop_last() =~= p.vars.take(m as int));
        assert(a.last() == p.vars[n - 1]);
        let u = value(values[n - 1]);
        let o = value(p.vars[n - 1].obj);
        assert(u * o == o * u) by (nonlinear_arith);
        lemma_closer_fits(value, u * o, total(g, n) + n as real * unit);
        let t = values[n - 1].times(p.vars[n - 1].obj);
        assert(is_about(value, unit, t, u * o)) by {
            reveal(has_fractions);
        }
        let before = weighted(p.vars, values, m);
        lemma_closer_fits(value, value(before) + value(t), total(g, n) + n as real * unit);
        lemma_plus(value, unit, before, t);
    }
}

proof fn lemma_sizes_sign<N: Num>(value: spec_fn(N) -> real, p: Program<N>, values: Seq<N>, n: nat)
    ensures
        0real <= total(term_sizes(value, p, values), n),
    decreases n,
{
    if n > 0 {
        lemma_sizes_sign(value, p, values, (n - 1) as nat);
    }
}

/// The objective of an answer is what its point costs, up to a unit for each variable.
pub proof fn objectives_are_costs<N: Num>(value: spec_fn(N) -> real, unit: real, p: Program<N>, values: Seq<N>)
    requires
        rounds_toward_zero(value, unit),
        has_fractions(value, unit),
        values.len() == p.vars.len(),
        p.obj_constant.finite(),
        forall|i: int| 0 <= i < values.len() ==> (#[trigger] values[i]).finite() && p.vars[i].obj.finite(),
        fits(
            value,
            total(term_sizes(value, p, values), values.len()) + values.len() as real * unit + most(
                value(p.obj_constant),
                0real - value(p.obj_constant),
            ),
        ),
    ensures
        ({
            let exact = cost_at(value, p, reals(value, values));
            let slack = values.len() as real * unit;
            exact - slack <= value(objective_value(p, values)) <= exact + slack
        }),
{
    lemma_constants(value, unit);
    let n = values.len();
    let c = value(p.obj_constant);
    let size = total(term_sizes(value, p, values), n);
    let slack = n as real * unit;
    assert(0real <= slack) by (nonlinear_arith)
        requires
            slack == n as real * unit,
            0real <= n as real,
            0real <= unit,
    ;
    lemma_sizes_sign(value, p, values, n);
    lemma_closer_fits(value, size + slack, size + slack + most(c, 0real - c));
    lemma_weighted(value, unit, p, values, n);
    assert(p.vars.take(n as int) =~= p.vars);
    let w = weighted(p.vars, values, n);
    lemma_closer_fits(value, value(w) + c, size + slack + most(c, 0real - c));
    lemma_plus(value, unit, w, p.obj_constant);
}

// --------------------------------------------------------------- commitments

/// The events of a commitment have its levels and its baselines, and are otherwise
/// unchanged.
pub proof fn commitments_change_levels_and_baselines_only<N: Num>(
    events: Seq<DrEvent<N>>,
    plan: OraclePlanModel<N>,
    i: int,
)
    requires
        0 <= i < events.len(),
    ensures
        ({
            let e = committed_events(events, plan)[i];
            &&& committed_events(events, plan).len() == events.len()
            &&& e.fsl_kw == plan.committed_fsl_kw[i]
            &&& e.baseline_kw == plan.baseline_peak_kw[i]
            &&& e.start_slot == events[i].start_slot && e.end_slot == events[i].end_slot
            &&& e.penalty_usd_per_kwh == events[i].penalty_usd_per_kwh
            &&& e.incentive_usd_per_kw == events[i].incentive_usd_per_kw
        }),
{
}

/// Where the oracle decides the firm levels, the baselines of its plan are the in-window
/// peaks of an optimal answer to the program without events, and the program with events
/// that it solves lets no level exceed its baseline; otherwise baselines and levels are
/// those of the events.
pub proof fn oracle_levels_stay_below_the_counterfactual<N: Num, B: MilpBackend<N>>(
    sc: ScenarioModel<N>,
    backend: B,
    config: OracleConfig<N>,
    plan: OraclePlan<N>,
)
    requires
        is_oracle_result(sc, backend, config, Ok(plan)),
    ensures
        config.optimize_fsl ==> exists|base: Solution<N>, main: Solution<N>|
            #![trigger base.values@, main.values@]
            {
                &&& base.status == SolStatus::Optimal && main.status == SolStatus::Optimal
                &&& may_get(backend, oracle_program(sc, config, false, None), Ok(base))
                &&& may_get(backend, oracle_program(sc, config, true, Some(plan@.baseline_peak_kw)), Ok(main))
                &&& plan@.baseline_peak_kw.len() == sc.events.len()
                &&& forall|i: int|
                    0 <= i < sc.events.len() ==> #[trigger] plan@.baseline_peak_kw[i] == window_peak(
                        sc.events[i],
                        Seq::new(
                            sc.building.len(),
                            |s: int| base.values@[oracle_blocks(sc, config).vars.len() + s],
                        ),
                        sc.building.len(),
                    )
                &&& plan@.objective == main.objective
            },
        !config.optimize_fsl ==> exists|main: Solution<N>|
            #![trigger main.values@]
            {
                &&& main.status == SolStatus::Optimal
                &&& may_get(backend, oracle_program(sc, config, true, None), Ok(main))
                &&& plan@.objective == main.objective
                &&& forall|i: int|
                    0 <= i < sc.events.len() ==> #[trigger] plan@.baseline_peak_kw[i] == sc.events[i].baseline_kw
            },
{
    let r: Result<OraclePlan<N>, SolveError> = Ok(plan);
    let (base, answer) = choose|base: Result<Solution<N>, SolveError>, answer: Result<Solution<N>, SolveError>|
        #[trigger] oracle_outcome(sc, backend, config, base, answer, r);
    assert(oracle_outcome(sc, backend, config, base, answer, r));
    let main = answer->Ok_0;
    assert(answer == Ok::<Solution<N>, SolveError>(main));
    let mv = main.values@;
    if config.optimize_fsl {
        let first = base->Ok_0;
        assert(base == Ok::<Solution<N>, SolveError>(first));
        let bv = first.values@;
        let net = solved_plan(sc, config, false, None, first.values@).net_kw;
        assert(net =~= Seq::new(sc.building.len(), |s: int| first.values@[oracle_blocks(sc, config).vars.len() + s]));
    }
}

/// Powers added up.
pub open spec fn powers_at<N: Num>(value: spec_fn(N) -> real, out: Seq<Setpoint<N>>) -> spec_fn(int) -> real {
    |i: int| value(out[i].power_kw)
}

/// The power that the scenario-MPC counts into the realized peak is that of all its
/// setpoints together.
pub proof fn committed_powers_add_up<N: Num>(value: spec_fn(N) -> real, unit: real, out: Seq<Setpoint<N>>)
    requires
        rounds_toward_zero(value, unit),
        forall|i: int| 0 <= i < out.len() ==> (#[trigger] out[i]).power_kw.finite(),
        fits(value, total(sizes(powers_at(value, out)), out.len())),
    ensures
        power_sum(out).finite(),
        value(power_sum(out)) == total(powers_at(value, out), out.len()),
    decreases out.len(),
{
    lemma_constants(value, unit);
    let n = out.len();
    let f = powers_at(value, out);
    if n > 0 {
        let rest = out.drop_last();
        let g = powers_at(value, rest);
        let k = (n - 1) as nat;
        assert forall|i: int| 0 <= i < rest.len() implies (#[trigger] rest[i]).power_kw.finite() by {
            assert(rest[i] == out[i]);
        }
        lemma_same_total(sizes(g), sizes(f), k);
        lemma_same_total(g, f, k);
        lemma_sizes(f, k);
        lemma_sizes(f, n);
        lemma_closer_fits(value, total(sizes(f), k), total(sizes(f), n));
        committed_powers_add_up(value, unit, rest);
        assert(out[n - 1] == out.last());
        lemma_closer_fits(value, total(f, n), total(sizes(f), n));
        lemma_plus(value, unit, power_sum(rest), out.last().power_kw);
    }
}

} // verus!
