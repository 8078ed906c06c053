//! Service: the baselines that seek the target, `uncontrolled` and `policy-0`, meet a
//! target that can be met. [`crate::threshold`] has the same of `edf` and `llf`.

use vstd::prelude::*;

use crate::{energy_of, power_of};
use crate::balance::{every_report_balances, is_ordinary, ordinary_scenarios_are_moderate};
use crate::engine::{is_episode, may_answer};
use crate::fixed::Fixed;
use crate::flows::{
    batteries_stay_in_range_and_energy_is_conserved, discharge_start, is_fit, lemma_pass_last, lemma_served,
    lemma_views_fit, views_fit,
};
use crate::num::{count, zero_of, Num};
use crate::persistence::{leaving_soc, reports_form_chains, reports_right};
use crate::physics::{
    charging_respects_its_limits, is_healthy, is_in_range, is_lawful, is_limited, is_moderate, is_ready,
    is_row_healthy, is_sound_report, is_usable, lemma_ready, stay,
};
use crate::policy::Policy;
use crate::policy::heuristics::{
    are_close, constant_rate, constant_rates, full_power, is_under, percent, tapered, time_left, uncontrolled, Policy0,
    Uncontrolled,
};
use crate::reporting::{
    every_session_is_reported_exactly_once, is_consistent, is_on_row, reported_rows, reports_are_consistent,
};
use crate::rounding::{
    fits, fixed_numbers_measure_and_reach_infinity, fixed_numbers_round_toward_zero, fixed_value, has_infinity,
    has_measures, is_number, least, lemma_closer_fits, lemma_compare, lemma_constants, lemma_finite, lemma_fitting,
    lemma_minus, lemma_over, lemma_plus, lemma_times, millionth, most, rounds_toward_zero,
};
use crate::scenario::{ScenarioModel, Vehicle};
use crate::site::{
    after_setpoint, arrival_order, arrive, assign, boarded, charge_power, charge_start, depart, dispatched, in_pass,
    observation, pass, requested, results_of, session_view, session_views, shown_rows, site_at, without, Flow,
    SiteModel,
};
use crate::soundness::{
    is_plugged, is_shaped, is_sound, lemma_arrival_order, lemma_shown, the_site_is_sound_in_every_slot,
};
use crate::state::{Observation, ObservationModel, Session, SessionView, Setpoint};
use crate::validation::{is_valid, session_is_valid, vehicle_is_finite};

verus! {

// -------------------------------------------------------- one-for-one requests

/// A list that asks each shown session, in order, to charge.
pub open spec fn asks_each_to_charge<N: Num>(value: spec_fn(N) -> real, out: Seq<Setpoint<N>>, n: nat) -> bool {
    &&& out.len() == n
    &&& forall|k: int|
        #![trigger out[k]]
        0 <= k < out.len() ==> out[k].session_index == k && out[k].power_kw.finite() && 0real <= value(
            out[k].power_kw,
        )
}

proof fn lemma_without_none<N: Num>(list: Seq<Setpoint<N>>, index: usize)
    requires
        forall|k: int| 0 <= k < list.len() ==> (#[trigger] list[k]).session_index != index,
    ensures
        without(list, index) == list,
    decreases list.len(),
{
    if list.len() > 0 {
        let rest = list.drop_last();
        assert forall|k: int| 0 <= k < rest.len() implies (#[trigger] rest[k]).session_index != index by {
            assert(rest[k] == list[k]);
        }
        lemma_without_none(rest, index);
        assert(list[list.len() - 1].session_index != index);
        assert(rest.push(list.last()) =~= list);
    }
    assert(without(list, index) =~= list);
}

/// Such a list is taken as it is.
proof fn lemma_taken_as_is<N: Num>(value: spec_fn(N) -> real, out: Seq<Setpoint<N>>, n: nat, j: nat)
    requires
        asks_each_to_charge(value, out, n),
        j <= n,
    ensures
        requested(out.take(j as int), n) == out.take(j as int),
    decreases j,
{
    if j > 0 {
        let p = (j - 1) as nat;
        lemma_taken_as_is(value, out, n, p);
        assert(out.take(j as int).drop_last() =~= out.take(p as int));
        assert(out.take(j as int).last() == out[p as int]);
        let before = out.take(p as int);
        assert forall|k: int| 0 <= k < before.len() implies (#[trigger] before[k]).session_index
            != out[p as int].session_index by {
            assert(before[k] == out[k]);
        }
        lemma_without_none(before, out[p as int].session_index);
        assert(before.push(out[p as int]) =~= out.take(j as int));
    }
    assert(requested(out.take(j as int), n) =~= out.take(j as int));
}

/// The session after a request for it alone, with nothing else to heed.
pub open spec fn served<N: Num>(sc: ScenarioModel<N>, s: Session<N>, view: SessionView<N>, power_kw: N) -> Session<
    N,
> {
    after_setpoint(
        s,
        view,
        power_kw,
        sc.rules.slot_minutes,
        sc.rules.charge_efficiency,
        sc.rules.discharge_efficiency,
        N::unbounded(),
    )
}

/// The charging pass over such a list without a site cap: every session gets its own
/// request.
proof fn lemma_all_served<N: Num>(
    value: spec_fn(N) -> real,
    unit: real,
    sc: ScenarioModel<N>,
    m: real,
    rows: Seq<usize>,
    views: Seq<SessionView<N>>,
    start: Flow<N>,
    out: Seq<Setpoint<N>>,
    n: nat,
    t: int,
)
    requires
        rounds_toward_zero(value, unit),
        has_infinity(value),
        is_ready(value, sc),
        is_moderate(value, sc, m),
        views_fit(value, sc, m, rows, views),
        asks_each_to_charge(value, out, rows.len()),
        start.active.len() == sc.vehicles.len(),
        start.applied.len() == rows.len(),
        start.allowance == N::unbounded(),
        forall|k: int|
            #![trigger rows[k]]
            0 <= k < rows.len() ==> is_fit(value, unit, sc, m, start.active, rows[k] as int, t, 0),
        n <= out.len(),
        t < sc.rules.horizon_slots,
    ensures
        ({
            let end = pass(sc, rows, views, start, out.take(n as int), true);
            &&& end.active.len() == sc.vehicles.len()
            &&& end.applied.len() == rows.len()
            &&& end.allowance == N::unbounded()
            &&& forall|k: int|
                #![trigger rows[k]]
                0 <= k < rows.len() ==> end.active[rows[k] as int] == if k < n {
                    Some(served(sc, start.active[rows[k] as int]->0, views[k], out[k].power_kw))
                } else {
                    start.active[rows[k] as int]
                }
        }),
    decreases n,
{
    if n == 0 {
        assert(out.take(0) =~= Seq::empty());
    } else {
        let p = (n - 1) as nat;
        lemma_all_served(value, unit, sc, m, rows, views, start, out, p, t);
        lemma_pass_last(sc, rows, views, start, out, p, true);
        let flow = pass(sc, rows, views, start, out.take(p as int), true);
        let end = pass(sc, rows, views, start, out.take(n as int), true);
        let sp = out[p as int];
        lemma_constants(value, unit);
        lemma_finite(value, unit, sp.power_kw);
        lemma_compare(value, unit, sp.power_kw, zero_of::<N>());
        assert(in_pass(sp, true));
        let row = rows[p as int] as int;
        assert(is_fit(value, unit, sc, m, start.active, row, t, 0));
        let s = flow.active[row]->0;
        lemma_served(
            value,
            unit,
            sc,
            m,
            row,
            s,
            views[p as int],
            sp,
            flow.allowance,
            true,
            stay(sc, row, t),
        );
        assert forall|k: int| #![trigger rows[k]] 0 <= k < rows.len() implies end.active[rows[k] as int]
            == if k < n {
            Some(served(sc, start.active[rows[k] as int]->0, views[k], out[k].power_kw))
        } else {
            start.active[rows[k] as int]
        } by {
            if k != p {
                assert(rows[k] != rows[p as int]);
            }
        }
    }
}

proof fn lemma_nothing_to_discharge<N: Num>(
    sc: ScenarioModel<N>,
    rows: Seq<usize>,
    views: Seq<SessionView<N>>,
    start: Flow<N>,
    requests: Seq<Setpoint<N>>,
)
    requires
        forall|j: int| 0 <= j < requests.len() ==> !in_pass(#[trigger] requests[j], false),
    ensures
        pass(sc, rows, views, start, requests, false) == start,
    decreases requests.len(),
{
    if requests.len() > 0 {
        let rest = requests.drop_last();
        assert forall|j: int| 0 <= j < rest.len() implies !in_pass(#[trigger] rest[j], false) by {
            assert(rest[j] == requests[j]);
        }
        lemma_nothing_to_discharge(sc, rows, views, start, rest);
        assert(!in_pass(requests[requests.len() - 1], false));
    }
}

/// A slot in which a policy asks each session to charge, without a site cap: every
/// session gets its own request.
proof fn lemma_slot_served<N: Num>(
    value: spec_fn(N) -> real,
    unit: real,
    sc: ScenarioModel<N>,
    m: real,
    st: SiteModel<N>,
    t: int,
    out: Seq<Setpoint<N>>,
)
    requires
        rounds_toward_zero(value, unit),
        has_infinity(value),
        is_valid(sc),
        is_ready(value, sc),
        is_moderate(value, sc, m),
        is_sound(sc, st, t + 1, t),
        is_lawful(value, unit, sc, m, st, t),
        sc.vehicles.len() <= usize::MAX,
        t < sc.rules.horizon_slots,
        sc.rules.site_cap_kw is None,
        asks_each_to_charge(value, out, shown_rows(sc, st).len()),
    ensures
        forall|k: int|
            #![trigger shown_rows(sc, st)[k]]
            0 <= k < shown_rows(sc, st).len() ==> {
                let row = shown_rows(sc, st)[k] as int;
                dispatched(sc, st, t, out).active[row] == Some(
                    served(sc, st.active[row]->0, session_views(sc, st)[k], out[k].power_kw),
                )
            },
{
    lemma_constants(value, unit);
    let rows = shown_rows(sc, st);
    let views = session_views(sc, st);
    lemma_shown(sc, st);
    lemma_views_fit(value, unit, sc, m, st, t + 1, t);
    lemma_taken_as_is(value, out, rows.len(), rows.len());
    assert(out.take(rows.len() as int) =~= out);
    let first = charge_start(sc, st, t);
    assert forall|k: int| #![trigger rows[k]] 0 <= k < rows.len() implies is_fit(
        value,
        unit,
        sc,
        m,
        first.active,
        rows[k] as int,
        t,
        0,
    ) by {
        assert(is_row_healthy(value, unit, sc, m, st.active, t, rows[k] as int));
        assert(st.active[rows[k] as int] is Some);
    }
    lemma_all_served(value, unit, sc, m, rows, views, first, out, rows.len(), t);
    assert forall|j: int| 0 <= j < out.len() implies !in_pass(#[trigger] out[j], false) by {
        lemma_finite(value, unit, out[j].power_kw);
        lemma_compare(value, unit, zero_of::<N>(), out[j].power_kw);
    }
    lemma_nothing_to_discharge(sc, rows, views, discharge_start(sc, st, t, out), out);
}

// ------------------------------------------------------------ what a slot gives

/// The power of an energy loses little to rounding.
pub(crate) proof fn lemma_power_loss<N: Num>(value: spec_fn(N) -> real, unit: real, kwh: N, dt: N)
    requires
        rounds_toward_zero(value, unit),
        kwh.finite(),
        0real <= value(kwh),
        dt.finite(),
        1real <= value(dt),
        fits(value, value(kwh) * 60real),
    ensures
        is_number(power_of(kwh, dt)),
        0real <= value(power_of(kwh, dt)),
        value(kwh) * 60real - unit - unit * value(dt) <= value(power_of(kwh, dt)) * value(dt),
{
    lemma_constants(value, unit);
    let sixty = count::<N>(60);
    let d = value(dt);
    lemma_times(value, unit, kwh, sixty);
    let x = kwh.times(sixty);
    let q = value(x) / d;
    assert(0real <= q <= value(x) && q * d == value(x)) by (nonlinear_arith)
        requires
            q == value(x) / d,
            0real <= value(x),
            1real <= d,
    ;
    lemma_closer_fits(value, q, value(kwh) * 60real);
    lemma_over(value, unit, x, dt);
    let p = value(power_of(kwh, dt));
    assert((q - unit) * d <= p * d) by (nonlinear_arith)
        requires
            q - unit <= p,
            1real <= d,
    ;
    assert((q - unit) * d == q * d - unit * d) by (nonlinear_arith);
}

/// What rounding may take off in one slot of `d` minutes.
pub open spec fn slot_loss(d: real, unit: real) -> real {
    (d / 60real + 5real) * unit
}

pub(crate) proof fn lemma_gain(p: real, power: real, room: real, grid: real, e: real, n: real, d: real, u: real)
    by (nonlinear_arith)
    requires
        0real < n <= 1real,
        1real <= d,
        0real <= u,
        0real <= p,
        room / n - u <= grid,
        p == power || grid * 60real - u - u * d <= p * d,
        p * d / 60real - 2real * u <= e,
    ensures
        power * d / 60real * n - slot_loss(d, u) <= e * n - u || room - slot_loss(d, u) <= e * n - u,
{
    let loss = (d / 60real + 5real) * u;
    assert(loss == d * u / 60real + 5real * u);
    assert(0real <= u * d);
    assert(0real <= u * n <= u);
    if p == power {
        assert((power * d / 60real - 2real * u) * n <= e * n);
        assert((power * d / 60real - 2real * u) * n == power * d / 60real * n - 2real * (u * n));
    } else {
        let low = room / n - u - u / 60real - u * d / 60real - 2real * u;
        assert(low <= e) by {
            assert((room / n - u) * 60real - u - u * d <= p * d);
        }
        assert(low * n <= e * n);
        assert((room / n) * n == room);
        let off = u + u / 60real + u * d / 60real + 2real * u;
        assert(low * n == room - off * n);
        assert(off * n <= off) by {
            assert(0real <= off);
        }
    }
}

/// A charging request that nothing but the battery limits raises its SoC by what it
/// asks for, or fills the battery, up to the rounding of the slot.
pub(crate) proof fn lemma_served_gain<N: Num>(
    value: spec_fn(N) -> real,
    unit: real,
    sc: ScenarioModel<N>,
    m: real,
    i: int,
    s: Session<N>,
    view: SessionView<N>,
    power_kw: N,
    k: int,
)
    requires
        rounds_toward_zero(value, unit),
        has_infinity(value),
        is_ready(value, sc),
        is_moderate(value, sc, m),
        1real <= value(sc.rules.slot_minutes),
        0 <= i < sc.vehicles.len(),
        view.vehicle == sc.vehicles[i],
        is_limited(value, view, m),
        is_healthy(value, unit, sc, m, i, s, k),
        power_kw.finite(),
        0real <= value(power_kw) <= value(view.max_charge_kw),
    ensures
        ({
            let next = served(sc, s, view, power_kw);
            let d = value(sc.rules.slot_minutes);
            let asked = value(power_kw) * d / 60real * value(sc.rules.charge_efficiency);
            let room = value(view.vehicle.ceiling()) - value(s.soc_kwh);
            &&& next.charger_index == s.charger_index
            &&& value(s.soc_kwh) <= value(next.soc_kwh)
            &&& value(s.soc_kwh) + least(asked, room) - slot_loss(d, unit) <= value(next.soc_kwh)
            &&& value(next.soc_kwh) <= value(s.soc_kwh) + asked
        }),
{
    lemma_constants(value, unit);
    let dt = sc.rules.slot_minutes;
    let eta = sc.rules.charge_efficiency;
    let d = value(dt);
    let n = value(eta);
    let v = sc.vehicles[i];
    assert(is_usable(value, sc, v));
    lemma_finite(value, unit, power_kw);
    lemma_compare(value, unit, zero_of::<N>(), power_kw);
    charging_respects_its_limits(value, unit, s, view, power_kw, dt, eta, N::unbounded());
    let p = charge_power(s, view, power_kw, dt, eta, N::unbounded());
    let e = energy_of(p, dt);
    let c = value(v.ceiling());
    let r = c - value(s.soc_kwh);
    let room = v.ceiling().minus(s.soc_kwh);
    lemma_finite(value, unit, v.ceiling());
    lemma_finite(value, unit, eta);
    lemma_closer_fits(value, r, c);
    lemma_minus(value, unit, v.ceiling(), s.soc_kwh);
    lemma_compare(value, unit, zero_of::<N>(), eta);
    assert(0real <= r / n <= c / n) by (nonlinear_arith)
        requires
            0real <= r <= c,
            0real < n,
    ;
    lemma_closer_fits(value, r / n, c / n * 60real);
    lemma_over(value, unit, room, eta);
    let grid = room.over(eta);
    lemma_closer_fits(value, value(grid) * 60real, c / n * 60real);
    lemma_power_loss(value, unit, grid, dt);
    let fill = power_of(grid, dt);
    let a = power_kw.lesser(view.max_charge_kw);
    let b = a.lesser(N::unbounded());
    lemma_compare(value, unit, power_kw, view.max_charge_kw);
    lemma_compare(value, unit, a, N::unbounded());
    lemma_compare(value, unit, b, fill);
    lemma_compare(value, unit, b.lesser(fill), zero_of::<N>());
    assert(value(power_kw) <= value(N::unbounded()));
    assert(value(p) == least(value(power_kw), value(fill)));
    lemma_gain(value(p), value(power_kw), r, value(grid), value(e), n, d, unit);
    let asked = value(power_kw);
    let gained = value(e);
    let given = value(p);
    assert(gained * n <= asked * d / 60real * n) by (nonlinear_arith)
        requires
            gained <= given * d / 60real,
            given <= asked,
            1real <= d,
            0real < n,
    {
        assert(given * d <= asked * d);
    }
}

// ------------------------------------------------------------------ boarding

proof fn lemma_departures_keep_row<N: Num>(sc: ScenarioModel<N>, st: SiteModel<N>, slot: int, n: nat, i: int)
    requires
        st.active.len() == sc.vehicles.len(),
        n <= sc.vehicles.len(),
        0 <= i < sc.vehicles.len(),
        sc.vehicles[i].departure_slot != slot,
    ensures
        depart(sc, st, slot, n).active.len() == sc.vehicles.len(),
        depart(sc, st, slot, n).active[i] == st.active[i],
    decreases n,
{
    if n > 0 {
        lemma_departures_keep_row(sc, st, slot, (n - 1) as nat, i);
    }
}

proof fn lemma_arrivals_keep_active<N: Num>(sc: ScenarioModel<N>, st: SiteModel<N>, slot: int, order: Seq<usize>)
    ensures
        arrive(sc, st, slot, order).active == st.active,
    decreases order.len(),
{
    if order.len() > 0 {
        lemma_arrivals_keep_active(sc, st, slot, order.drop_last());
    }
}

proof fn lemma_assignments_keep_row<N: Num>(
    sc: ScenarioModel<N>,
    st: SiteModel<N>,
    slot: int,
    order: Seq<usize>,
    i: int,
)
    requires
        st.active.len() == sc.vehicles.len(),
        0 <= i < sc.vehicles.len(),
        sc.vehicles[i].arrival_slot != slot,
        forall|k: int| 0 <= k < order.len() ==> #[trigger] order[k] < sc.vehicles.len(),
    ensures
        assign(sc, st, slot, order).active.len() == sc.vehicles.len(),
        assign(sc, st, slot, order).active[i] == st.active[i],
    decreases order.len(),
{
    if order.len() > 0 {
        let rest = order.drop_last();
        assert forall|k: int| 0 <= k < rest.len() implies #[trigger] rest[k] < sc.vehicles.len() by {
            assert(rest[k] == order[k]);
        }
        assert(order[order.len() - 1] < sc.vehicles.len());
        lemma_assignments_keep_row(sc, st, slot, rest, i);
    }
}

/// A session that neither arrives nor departs in `slot` is left alone at its start.
pub(crate) proof fn lemma_boarding_keeps_row<N: Num>(sc: ScenarioModel<N>, st: SiteModel<N>, slot: int, i: int)
    requires
        is_shaped(sc, st),
        sc.vehicles.len() <= usize::MAX,
        0 <= i < sc.vehicles.len(),
        sc.vehicles[i].departure_slot != slot,
        sc.vehicles[i].arrival_slot != slot,
    ensures
        boarded(sc, st, slot).active[i] == st.active[i],
{
    let order = arrival_order(sc.vehicles);
    lemma_arrival_order(sc);
    let left = depart(sc, st, slot, sc.vehicles.len());
    lemma_departures_keep_row(sc, st, slot, sc.vehicles.len(), i);
    lemma_arrivals_keep_active(sc, left, slot, order);
    lemma_assignments_keep_row(sc, arrive(sc, left, slot, order), slot, order, i);
}

// ------------------------------------------------------------ the premises

/// No vehicle and no port has a negative charging limit.
pub open spec fn limits_are_positive<N: Num>(value: spec_fn(N) -> real, sc: ScenarioModel<N>) -> bool {
    &&& forall|i: int| 0 <= i < sc.vehicles.len() ==> 0real <= value((#[trigger] sc.vehicles[i]).max_charge_kw)
    &&& forall|c: int| 0 <= c < sc.chargers.len() ==> 0real <= value((#[trigger] sc.chargers[c]).max_kw)
}

/// The site on which service is promised: no site cap, no negative limits, slots of a
/// minute or more.
pub open spec fn is_roomy<N: Num>(value: spec_fn(N) -> real, sc: ScenarioModel<N>) -> bool {
    &&& sc.rules.site_cap_kw is None
    &&& limits_are_positive(value, sc)
    &&& 1real <= value(sc.rules.slot_minutes)
}

/// The most power that vehicle and port let session `s` of row `i` draw, kW.
pub open spec fn limit_of<N: Num>(value: spec_fn(N) -> real, sc: ScenarioModel<N>, i: int, s: Session<N>) -> real {
    least(
        value(sc.vehicles[i].max_charge_kw),
        value(sc.chargers[s.charger_index as int].max_kw),
    )
}

/// What one slot at `kw` puts into a battery, kWh.
pub open spec fn slot_gain<N: Num>(value: spec_fn(N) -> real, sc: ScenarioModel<N>, kw: real) -> real {
    kw * value(sc.rules.slot_minutes) / 60real * value(sc.rules.charge_efficiency)
}

/// Row `i` is plugged in at its arrival, as session `s`.
pub open spec fn is_connected<N: Num>(
    sc: ScenarioModel<N>,
    decisions: Seq<Seq<Setpoint<N>>>,
    i: int,
    s: Session<N>,
) -> bool {
    let t = sc.vehicles[i].arrival_slot;
    boarded(sc, site_at(sc, decisions, t as nat), t as int).active[i] == Some(s)
}

/// The limits that a policy is shown are not negative and are those of vehicle and
/// port.
pub(crate) proof fn lemma_shown_limit<N: Num>(
    value: spec_fn(N) -> real,
    unit: real,
    sc: ScenarioModel<N>,
    st: SiteModel<N>,
    k: int,
    row: int,
)
    requires
        rounds_toward_zero(value, unit),
        is_valid(sc),
        limits_are_positive(value, sc),
        0 <= row < sc.vehicles.len(),
        st.active[row] matches Some(s) && s.charger_index < sc.chargers.len(),
    ensures
        is_number(session_view(sc, st, k, row).max_charge_kw),
        value(session_view(sc, st, k, row).max_charge_kw) == limit_of(value, sc, row, st.active[row]->0),
        0real <= value(session_view(sc, st, k, row).max_charge_kw),
{
    let v = sc.vehicles[row];
    let port = sc.chargers[st.active[row]->0.charger_index as int];
    assert(vehicle_is_finite(v));
    lemma_finite(value, unit, v.max_charge_kw);
    lemma_finite(value, unit, port.max_kw);
    lemma_compare(value, unit, v.max_charge_kw, port.max_kw);
}

// ------------------------------------------------------------- uncontrolled

pub(crate) proof fn lemma_ask(p: real, limit: real, need: real, q: real, n: real, d: real, u: real)
    by (nonlinear_arith)
    requires
        0real < n <= 1real,
        1real <= d,
        0real <= u,
        need / n - u <= q,
        p == limit || q * 60real - u - u * d <= p * d,
    ensures
        limit * d / 60real * n <= p * d / 60real * n || need - slot_loss(d, u) <= p * d / 60real * n,
{
    let loss = (d / 60real + 5real) * u;
    assert(loss == d * u / 60real + 5real * u);
    assert(0real <= u * d);
    if p != limit {
        let off = u + u / 60real + u * d / 60real;
        assert(need / n - off <= p * d / 60real) by {
            assert((need / n - u) * 60real - u - u * d <= p * d);
        }
        assert((need / n - off) * n <= p * d / 60real * n);
        assert((need / n) * n == need);
        assert((need / n - off) * n == need - off * n);
        assert(off * n <= off) by {
            assert(0real <= off);
        }
    }
}

/// What a session still needs, kWh.
pub open spec fn need_of<N: Num>(value: spec_fn(N) -> real, sc: ScenarioModel<N>, i: int, soc: N) -> real {
    most(value(sc.vehicles[i].soc_target_kwh) - value(soc), 0real)
}

/// The need of a session as a number.
pub(crate) proof fn lemma_need<N: Num>(
    value: spec_fn(N) -> real,
    unit: real,
    sc: ScenarioModel<N>,
    m: real,
    i: int,
    soc: N,
)
    requires
        rounds_toward_zero(value, unit),
        is_valid(sc),
        is_ready(value, sc),
        0 <= i < sc.vehicles.len(),
        soc.finite(),
        0real <= value(soc) <= value(sc.vehicles[i].ceiling()),
    ensures
        ({
            let v = sc.vehicles[i];
            let need = v.soc_target_kwh.minus(soc).greater(zero_of());
            &&& v.soc_target_kwh.minus(soc).finite()
            &&& value(v.soc_target_kwh.minus(soc)) == value(v.soc_target_kwh) - value(soc)
            &&& need.finite()
            &&& value(need) == need_of(value, sc, i, soc)
            &&& 0real <= value(v.soc_target_kwh) <= value(v.ceiling())
        }),
{
    lemma_constants(value, unit);
    let v = sc.vehicles[i];
    assert(vehicle_is_finite(v));
    assert(session_is_valid(v, sc.rules.horizon_slots));
    assert(is_usable(value, sc, v));
    let target = v.soc_target_kwh;
    lemma_finite(value, unit, target);
    lemma_finite(value, unit, v.battery_kwh);
    lemma_finite(value, unit, v.ceiling());
    lemma_compare(value, unit, zero_of::<N>(), target);
    lemma_compare(value, unit, target, v.battery_kwh);
    lemma_compare(value, unit, target, v.ceiling());
    lemma_closer_fits(value, value(target) - value(soc), value(v.ceiling()));
    lemma_minus(value, unit, target, soc);
    let gap = target.minus(soc);
    lemma_finite(value, unit, gap);
    lemma_compare(value, unit, gap, zero_of::<N>());
    lemma_closer_fits(value, value(gap.greater(zero_of())), value(v.ceiling()));
    lemma_fitting(value, unit, gap.greater(zero_of()));
}

/// The uncontrolled baseline asks for what is needed, or for the limit.
proof fn lemma_full_power<N: Num>(
    value: spec_fn(N) -> real,
    unit: real,
    sc: ScenarioModel<N>,
    m: real,
    obs: ObservationModel<N>,
    view: SessionView<N>,
    i: int,
)
    requires
        rounds_toward_zero(value, unit),
        is_valid(sc),
        is_ready(value, sc),
        1real <= value(sc.rules.slot_minutes),
        0 <= i < sc.vehicles.len(),
        view.vehicle == sc.vehicles[i],
        obs.slot_minutes == sc.rules.slot_minutes,
        obs.charge_efficiency == sc.rules.charge_efficiency,
        view.soc_kwh.finite(),
        0real <= value(view.soc_kwh) <= value(sc.vehicles[i].ceiling()),
        view.max_charge_kw.finite(),
        0real <= value(view.max_charge_kw),
    ensures
        ({
            let p = full_power(obs, view);
            let d = value(sc.rules.slot_minutes);
            let need = need_of(value, sc, i, view.soc_kwh);
            let asked = slot_gain(value, sc, value(p));
            &&& p.finite()
            &&& 0real <= value(p) <= value(view.max_charge_kw)
            &&& slot_gain(value, sc, value(view.max_charge_kw)) <= asked || need - slot_loss(d, unit) <= asked
        }),
{
    lemma_constants(value, unit);
    lemma_need(value, unit, sc, m, i, view.soc_kwh);
    let v = sc.vehicles[i];
    assert(is_usable(value, sc, v));
    let eta = sc.rules.charge_efficiency;
    let dt = sc.rules.slot_minutes;
    let n = value(eta);
    let d = value(dt);
    let c = value(v.ceiling());
    let need = view.need();
    let p = full_power(obs, view);
    lemma_finite(value, unit, need);
    lemma_finite(value, unit, view.max_charge_kw);
    lemma_compare(value, unit, zero_of::<N>(), need);
    if zero_of::<N>().below(need) {
        let x = value(need);
        assert(0real <= x / n <= c / n) by (nonlinear_arith)
            requires
                0real <= x <= c,
                0real < n,
        ;
        lemma_closer_fits(value, x / n, c / n * 60real);
        lemma_over(value, unit, need, eta);
        let q = need.over(eta);
        lemma_closer_fits(value, value(q) * 60real, c / n * 60real);
        lemma_power_loss(value, unit, q, dt);
        lemma_compare(value, unit, power_of(q, dt), view.max_charge_kw);
        lemma_closer_fits(value, value(p), value(view.max_charge_kw));
        lemma_fitting(value, unit, p);
        lemma_ask(value(p), value(view.max_charge_kw), x, value(q), n, d, unit);
    } else {
        assert(0real * d / 60real * n == 0real) by (nonlinear_arith);
        assert(0real <= slot_loss(d, unit)) by (nonlinear_arith)
            requires
                1real <= d,
                0real <= unit,
        ;
    }
}

/// One slot under the uncontrolled baseline: the SoC comes to the target or rises by
/// what a slot at the limit gives, up to the rounding of the slot.
proof fn lemma_uncontrolled_slot<N: Num>(
    value: spec_fn(N) -> real,
    unit: real,
    sc: ScenarioModel<N>,
    m: real,
    st: SiteModel<N>,
    t: int,
    i: int,
)
    requires
        rounds_toward_zero(value, unit),
        has_infinity(value),
        is_valid(sc),
        is_ready(value, sc),
        is_moderate(value, sc, m),
        is_roomy(value, sc),
        is_sound(sc, st, t + 1, t),
        is_lawful(value, unit, sc, m, st, t),
        sc.vehicles.len() <= usize::MAX,
        0 <= t < sc.rules.horizon_slots,
        0 <= i < sc.vehicles.len(),
        st.active[i] is Some,
    ensures
        ({
            let s = st.active[i]->0;
            let next = dispatched(sc, st, t, uncontrolled(observation(sc, st, t))).active[i];
            let d = value(sc.rules.slot_minutes);
            let gain = slot_gain(value, sc, limit_of(value, sc, i, s));
            &&& next matches Some(u) && u.charger_index == s.charger_index && value(u.soc_kwh) >= least(
                value(sc.vehicles[i].soc_target_kwh),
                value(s.soc_kwh) + gain,
            ) - 2real * slot_loss(d, unit)
        }),
{
    lemma_constants(value, unit);
    let obs = observation(sc, st, t);
    let out = uncontrolled(obs);
    let rows = shown_rows(sc, st);
    let views = session_views(sc, st);
    lemma_shown(sc, st);
    lemma_views_fit(value, unit, sc, m, st, t + 1, t);
    assert forall|k: int| #![trigger out[k]] 0 <= k < out.len() implies out[k].session_index == k
        && out[k].power_kw.finite() && 0real <= value(out[k].power_kw) by {
        lemma_uncontrolled_ask(value, unit, sc, m, st, t, k);
    }
    lemma_slot_served(value, unit, sc, m, st, t, out);
    assert(rows.contains(i as usize));
    let k = choose|k: int| 0 <= k < rows.len() && rows[k] == i as usize;
    assert(rows[k] as int == i);
    lemma_uncontrolled_ask(value, unit, sc, m, st, t, k);
    assert(is_row_healthy(value, unit, sc, m, st.active, t, i));
    let s = st.active[i]->0;
    lemma_served_gain(value, unit, sc, m, i, s, views[k], out[k].power_kw, stay(sc, i, t));
    lemma_need(value, unit, sc, m, i, s.soc_kwh);
    assert(is_usable(value, sc, sc.vehicles[i]));
    let d = value(sc.rules.slot_minutes);
    assert(0real <= slot_loss(d, unit)) by (nonlinear_arith)
        requires
            1real <= d,
            0real <= unit,
    ;
}

/// What the uncontrolled baseline asks of shown session `k`.
proof fn lemma_uncontrolled_ask<N: Num>(
    value: spec_fn(N) -> real,
    unit: real,
    sc: ScenarioModel<N>,
    m: real,
    st: SiteModel<N>,
    t: int,
    k: int,
)
    requires
        rounds_toward_zero(value, unit),
        is_valid(sc),
        is_ready(value, sc),
        is_moderate(value, sc, m),
        is_roomy(value, sc),
        is_sound(sc, st, t + 1, t),
        is_lawful(value, unit, sc, m, st, t),
        sc.vehicles.len() <= usize::MAX,
        0 <= k < shown_rows(sc, st).len(),
    ensures
        ({
            let row = shown_rows(sc, st)[k] as int;
            let s = st.active[row]->0;
            let view = session_views(sc, st)[k];
            let sp = uncontrolled(observation(sc, st, t))[k];
            let d = value(sc.rules.slot_minutes);
            let asked = slot_gain(value, sc, value(sp.power_kw));
            &&& sp.session_index == k
            &&& sp.power_kw.finite()
            &&& 0real <= value(sp.power_kw) <= value(view.max_charge_kw)
            &&& slot_gain(value, sc, limit_of(value, sc, row, s)) <= asked || need_of(value, sc, row, s.soc_kwh)
                - slot_loss(d, unit) <= asked
        }),
{
    lemma_shown(sc, st);
    lemma_views_fit(value, unit, sc, m, st, t + 1, t);
    let rows = shown_rows(sc, st);
    let row = rows[k] as int;
    assert(rows[k] < sc.vehicles.len());
    let views = session_views(sc, st);
    let view = views[k];
    assert(view == session_view(sc, st, k, row));
    assert(is_plugged(sc, st, row));
    assert(is_row_healthy(value, unit, sc, m, st.active, t, row));
    assert(is_usable(value, sc, sc.vehicles[row]));
    lemma_shown_limit(value, unit, sc, st, k, row);
    let v = sc.vehicles[row];
    assert(vehicle_is_finite(v));
    lemma_finite(value, unit, v.max_charge_kw);
    lemma_closer_fits(value, value(view.max_charge_kw), value(v.max_charge_kw));
    lemma_fitting(value, unit, view.max_charge_kw);
    let obs = observation(sc, st, t);
    lemma_full_power(value, unit, sc, m, obs, view, row);
}

/// The decisions are those of the uncontrolled baseline.
pub open spec fn is_uncontrolled<N: Num>(sc: ScenarioModel<N>, decisions: Seq<Seq<Setpoint<N>>>) -> bool {
    forall|t: int|
        0 <= t < sc.rules.horizon_slots ==> #[trigger] decisions[t] == uncontrolled(
            observation(sc, boarded(sc, site_at(sc, decisions, t as nat), t), t),
        )
}

/// The SoC that `k` slots at full power guarantee.
pub open spec fn guaranteed<N: Num>(
    value: spec_fn(N) -> real,
    unit: real,
    sc: ScenarioModel<N>,
    i: int,
    s: Session<N>,
    k: int,
) -> real {
    let gain = slot_gain(value, sc, limit_of(value, sc, i, s));
    least(value(sc.vehicles[i].soc_target_kwh), value(s.soc_kwh) + k as real * gain) - k as real * (2real
        * slot_loss(value(sc.rules.slot_minutes), unit))
}

proof fn lemma_guaranteed_next(target: real, soc: real, gain: real, loss: real, k: int, now: real, next: real)
    requires
        0real <= gain,
        0real <= loss,
        0 <= k,
        least(target, soc + k as real * gain) - k as real * loss <= now,
        least(target, now + gain) - loss <= next,
    ensures
        least(target, soc + (k + 1) as real * gain) - (k + 1) as real * loss <= next,
{
    let n = k as real;
    assert((k + 1) as real * gain == n * gain + gain && (k + 1) as real * loss == n * loss + loss && 0real <= n
        * loss) by (nonlinear_arith)
        requires
            n == k as real,
            0real <= n,
            0real <= loss,
    ;
}

/// The session through its stay.
proof fn lemma_uncontrolled_stay<N: Num>(
    value: spec_fn(N) -> real,
    unit: real,
    sc: ScenarioModel<N>,
    m: real,
    decisions: Seq<Seq<Setpoint<N>>>,
    i: int,
    s: Session<N>,
    k: nat,
)
    requires
        rounds_toward_zero(value, unit),
        has_infinity(value),
        is_valid(sc),
        is_moderate(value, sc, m),
        is_roomy(value, sc),
        sc.vehicles.len() <= usize::MAX,
        sc.chargers.len() <= usize::MAX,
        sc.building.len() == sc.rules.horizon_slots,
        is_uncontrolled(sc, decisions),
        0 <= i < sc.vehicles.len(),
        is_connected(sc, decisions, i, s),
        0 < k <= sc.vehicles[i].departure_slot - sc.vehicles[i].arrival_slot,
    ensures
        site_at(sc, decisions, (sc.vehicles[i].arrival_slot + k) as nat).active[i] matches Some(u)
            && u.charger_index == s.charger_index && guaranteed(value, unit, sc, i, s, k as int) <= value(
            u.soc_kwh,
        ),
    decreases k,
{
    lemma_constants(value, unit);
    lemma_ready(value, unit, sc, m);
    let v = sc.vehicles[i];
    assert(session_is_valid(v, sc.rules.horizon_slots));
    let t = (v.arrival_slot + k - 1) as nat;
    let before = site_at(sc, decisions, t);
    let st = boarded(sc, before, t as int);
    the_site_is_sound_in_every_slot(sc, decisions, t);
    batteries_stay_in_range_and_energy_is_conserved(value, unit, sc, m, decisions, t);
    let gain = slot_gain(value, sc, limit_of(value, sc, i, s));
    let d = value(sc.rules.slot_minutes);
    let loss = 2real * slot_loss(d, unit);
    if k > 1 {
        lemma_uncontrolled_stay(value, unit, sc, m, decisions, i, s, (k - 1) as nat);
        lemma_boarding_keeps_row(sc, before, t as int, i);
    } else {
        assert(0real * gain == 0real && 0real * loss == 0real) by (nonlinear_arith);
    }
    let now = st.active[i]->0;
    assert(st.active[i] is Some);
    assert(decisions[t as int] == uncontrolled(observation(sc, st, t as int)));
    lemma_uncontrolled_slot(value, unit, sc, m, st, t as int, i);
    assert(is_plugged(sc, st, i));
    let limit = limit_of(value, sc, i, s);
    let n = value(sc.rules.charge_efficiency);
    assert(0real <= gain && 0real <= loss) by (nonlinear_arith)
        requires
            0real <= limit,
            1real <= d,
            0real <= n,
            0real <= unit,
            gain == limit * d / 60real * n,
            loss == 2real * ((d / 60real + 5real) * unit),
    {
        assert(0real <= limit * d);
        assert(0real <= limit * d / 60real);
    }
    let u = site_at(sc, decisions, (t + 1) as nat).active[i]->0;
    lemma_guaranteed_next(
        value(v.soc_target_kwh),
        value(s.soc_kwh),
        gain,
        loss,
        k - 1,
        value(now.soc_kwh),
        value(u.soc_kwh),
    );
}

/// The uncontrolled baseline meets every target that can be met: a session that finds a
/// port and whose stay at full power is long enough leaves with its target, up to the
/// rounding of its slots.
pub proof fn uncontrolled_meets_feasible_targets<N: Num>(
    value: spec_fn(N) -> real,
    unit: real,
    sc: ScenarioModel<N>,
    m: real,
    decisions: Seq<Seq<Setpoint<N>>>,
    i: int,
    s: Session<N>,
)
    requires
        rounds_toward_zero(value, unit),
        has_infinity(value),
        is_valid(sc),
        is_moderate(value, sc, m),
        is_roomy(value, sc),
        sc.vehicles.len() <= usize::MAX,
        sc.chargers.len() <= usize::MAX,
        sc.building.len() == sc.rules.horizon_slots,
        is_uncontrolled(sc, decisions),
        0 <= i < sc.vehicles.len(),
        is_connected(sc, decisions, i, s),
        value(sc.vehicles[i].soc_target_kwh) <= value(s.soc_kwh) + (sc.vehicles[i].departure_slot
            - sc.vehicles[i].arrival_slot) as real * slot_gain(value, sc, limit_of(value, sc, i, s)),
    ensures
        ({
            let v = sc.vehicles[i];
            let slots = (v.departure_slot - v.arrival_slot) as real;
            value(v.soc_target_kwh) - slots * (2real * slot_loss(value(sc.rules.slot_minutes), unit)) <= value(
                leaving_soc(sc, decisions, i),
            )
        }),
{
    let v = sc.vehicles[i];
    assert(session_is_valid(v, sc.rules.horizon_slots));
    lemma_uncontrolled_stay(
        value,
        unit,
        sc,
        m,
        decisions,
        i,
        s,
        (v.departure_slot - v.arrival_slot) as nat,
    );
}

// ------------------------------------------------------------------ policy 0

/// The site on which policy 0 promises service: nothing is lost in charging, targets
/// are at most nine tenths of the battery, where charging does not taper, and the
/// figures that it computes fit the number type.
pub open spec fn is_unhurried<N: Num>(value: spec_fn(N) -> real, sc: ScenarioModel<N>) -> bool {
    &&& value(sc.rules.charge_efficiency) == 1real
    &&& fits(value, sc.rules.horizon_slots as real * value(sc.rules.slot_minutes) * 60real)
    &&& forall|i: int|
        #![trigger sc.vehicles[i]]
        0 <= i < sc.vehicles.len() ==> {
            let v = sc.vehicles[i];
            &&& 0real < value(v.battery_kwh)
            &&& value(v.soc_target_kwh) <= value(v.battery_kwh) * 9real / 10real
            &&& fits(value, value(v.ceiling()) * 100real)
        }
}

/// The need below which policy 0 counts a target as reached, kWh: about a thousandth
/// of the battery.
pub open spec fn tolerance<N: Num>(value: spec_fn(N) -> real, unit: real, sc: ScenarioModel<N>, i: int) -> real {
    value(sc.vehicles[i].battery_kwh) * (101real / 1000real + 101real * unit) / 100real
}

/// What the laws on policy 0 assume of the numbers.
pub open spec fn is_fine<N: Num>(value: spec_fn(N) -> real, unit: real) -> bool {
    &&& rounds_toward_zero(value, unit)
    &&& has_infinity(value)
    &&& has_measures(value)
    &&& unit <= 1real / 1000real
}

pub(crate) proof fn lemma_percent<N: Num>(value: spec_fn(N) -> real, unit: real, v: Vehicle<N>, x: N)
    requires
        is_fine(value, unit),
        v.battery_kwh.finite(),
        0real < value(v.battery_kwh),
        x.finite(),
        0real <= value(x) <= value(v.battery_kwh),
    ensures
        percent(x, v).finite(),
        0real <= value(percent(x, v)) <= value(x) / value(v.battery_kwh) * 100real <= 100real,
        value(x) / value(v.battery_kwh) * 100real - 101real * unit <= value(percent(x, v)),
{
    reveal(has_measures);
    lemma_constants(value, unit);
    let a = value(x);
    let b = value(v.battery_kwh);
    assert(0real <= a / b <= 1real) by (nonlinear_arith)
        requires
            0real <= a <= b,
            0real < b,
    ;
    lemma_closer_fits(value, a / b, 3600real);
    lemma_over(value, unit, x, v.battery_kwh);
    let q = x.over(v.battery_kwh);
    lemma_closer_fits(value, 100real, 3600real);
    let hundred = count::<N>(100);
    assert(hundred == N::rational(100u64, 1));
    assert(100u64 as real == 100real);
    lemma_closer_fits(value, value(q) * 100real, 3600real);
    lemma_times(value, unit, q, hundred);
}

pub(crate) proof fn lemma_percent_order<N: Num>(value: spec_fn(N) -> real, unit: real, v: Vehicle<N>, x: N, y: N)
    requires
        is_fine(value, unit),
        v.battery_kwh.finite(),
        0real < value(v.battery_kwh),
        x.finite(),
        y.finite(),
        0real <= value(x) <= value(y) <= value(v.battery_kwh),
    ensures
        value(percent(x, v)) <= value(percent(y, v)),
{
    reveal(has_measures);
    lemma_constants(value, unit);
    let b = v.battery_kwh;
    let a = value(x);
    let c = value(y);
    let d = value(b);
    assert(0real <= a / d <= 1real && 0real <= c / d <= 1real) by (nonlinear_arith)
        requires
            0real <= a <= c,
            c <= d,
            0real < d,
    ;
    lemma_closer_fits(value, a / d, 3600real);
    lemma_closer_fits(value, c / d, 3600real);
    lemma_over(value, unit, x, b);
    lemma_over(value, unit, y, b);
    lemma_closer_fits(value, 100real, 3600real);
    let hundred = count::<N>(100);
    assert(hundred == N::rational(100u64, 1));
    assert(100u64 as real == 100real);
    assert(value(x.over(b)) <= value(y.over(b)));
    assert(value(x.over(b).times(hundred)) <= value(y.over(b).times(hundred)));
}

/// The hours until departure, rounded down a little.
pub(crate) proof fn lemma_hours<N: Num>(value: spec_fn(N) -> real, unit: real, dt: N, n: int)
    requires
        is_fine(value, unit),
        dt.finite(),
        1real <= value(dt),
        1 <= n <= usize::MAX,
        fits(value, n as real * value(dt) * 60real),
    ensures
        ({
            let hours = count::<N>(n).times(dt).times(count(60)).over(count(3600));
            &&& hours.finite()
            &&& 1real / 100real <= value(hours) <= n as real * value(dt) / 60real
            &&& n as real * value(dt) / 60real - 2real * unit <= value(hours)
        }),
{
    reveal(has_measures);
    lemma_constants(value, unit);
    let d = value(dt);
    let k = n as real;
    assert(k <= k * d && 1real <= k * d) by (nonlinear_arith)
        requires
            1real <= k,
            1real <= d,
    ;
    lemma_closer_fits(value, k, k * d * 60real);
    lemma_closer_fits(value, k * d, k * d * 60real);
    let slots = count::<N>(n);
    assert(slots == N::rational(n as u64, 1));
    assert((n as u64) as real == k);
    lemma_times(value, unit, slots, dt);
    let a = slots.times(dt);
    let sixty = count::<N>(60);
    lemma_closer_fits(value, value(a) * 60real, k * d * 60real);
    lemma_times(value, unit, a, sixty);
    let b = a.times(sixty);
    let c = count::<N>(3600);
    assert(c == N::rational(3600u64, 1));
    assert(3600u64 as real == 3600real);
    lemma_closer_fits(value, value(b) / 3600real, k * d * 60real);
    lemma_over(value, unit, b, c);
}

/// Percentages that count as close differ by little.
proof fn lemma_close<N: Num>(value: spec_fn(N) -> real, unit: real, a: N, b: N)
    requires
        is_fine(value, unit),
        a.finite(),
        b.finite(),
        0real <= value(a) <= 100real,
        0real <= value(b) <= 100real,
        are_close(a, b),
    ensures
        value(b) - value(a) <= 101real / 1000real,
{
    reveal(has_measures);
    lemma_constants(value, unit);
    lemma_closer_fits(value, value(a) - value(b), 3600real);
    lemma_minus(value, unit, a, b);
    let gap = a.minus(b).magnitude();
    assert(gap.finite());
    let tenth = N::rational(1, 10);
    let small = N::rational(1, 100_000);
    let size = b.magnitude();
    assert(size.finite() && value(size) == value(b));
    let x = value(small);
    let y = value(size);
    assert(0real <= x * y <= 1real / 1000real) by (nonlinear_arith)
        requires
            0real <= x <= 1real / 100_000real,
            0real <= y <= 100real,
    ;
    lemma_closer_fits(value, x * y, 3600real);
    lemma_times(value, unit, small, size);
    let more = small.times(size);
    lemma_closer_fits(value, value(tenth) + value(more), 3600real);
    lemma_plus(value, unit, tenth, more);
    lemma_finite(value, unit, gap);
    lemma_finite(value, unit, tenth.plus(more));
    lemma_compare(value, unit, gap, tenth.plus(more));
}

/// A session that policy 0 does not serve needs little.
proof fn lemma_not_under<N: Num>(
    value: spec_fn(N) -> real,
    unit: real,
    sc: ScenarioModel<N>,
    i: int,
    view: SessionView<N>,
)
    requires
        is_fine(value, unit),
        is_valid(sc),
        is_ready(value, sc),
        is_unhurried(value, sc),
        0 <= i < sc.vehicles.len(),
        view.vehicle == sc.vehicles[i],
        view.soc_kwh.finite(),
        0real <= value(view.soc_kwh) <= value(sc.vehicles[i].ceiling()),
        !is_under(view, view.vehicle.soc_target_kwh),
    ensures
        need_of(value, sc, i, view.soc_kwh) <= tolerance(value, unit, sc, i),
{
    lemma_constants(value, unit);
    let v = sc.vehicles[i];
    lemma_battery(value, unit, sc, i);
    let target = v.soc_target_kwh;
    lemma_percent(value, unit, v, view.soc_kwh);
    lemma_percent(value, unit, v, target);
    let a = percent(view.soc_kwh, v);
    let b = percent(target, v);
    lemma_finite(value, unit, a);
    lemma_finite(value, unit, b);
    lemma_compare(value, unit, a, b);
    if a.below(b) {
        lemma_close(value, unit, a, b);
    }
    let size = value(v.battery_kwh);
    let x = value(target);
    let y = value(view.soc_kwh);
    let slack = 101real / 1000real + 101real * unit;
    assert(x / size * 100real - y / size * 100real <= slack);
    assert(x - y <= size * slack / 100real && 0real <= size * slack / 100real) by (nonlinear_arith)
        requires
            x / size * 100real - y / size * 100real <= slack,
            0real < size,
            0real <= slack,
    {
        assert((x / size) * size == x && (y / size) * size == y);
        assert((x / size - y / size) * size <= slack / 100real * size);
    }
}

/// The figures of a battery.
pub(crate) proof fn lemma_battery<N: Num>(value: spec_fn(N) -> real, unit: real, sc: ScenarioModel<N>, i: int)
    requires
        rounds_toward_zero(value, unit),
        is_valid(sc),
        is_ready(value, sc),
        0 <= i < sc.vehicles.len(),
    ensures
        ({
            let v = sc.vehicles[i];
            &&& v.battery_kwh.finite()
            &&& v.soc_target_kwh.finite()
            &&& v.ceiling().finite()
            &&& 0real <= value(v.soc_target_kwh) <= value(v.ceiling()) <= value(v.battery_kwh)
        }),
{
    lemma_constants(value, unit);
    let v = sc.vehicles[i];
    assert(vehicle_is_finite(v));
    assert(session_is_valid(v, sc.rules.horizon_slots));
    assert(is_usable(value, sc, v));
    lemma_finite(value, unit, v.soc_target_kwh);
    lemma_finite(value, unit, v.battery_kwh);
    lemma_finite(value, unit, v.ceiling());
    lemma_compare(value, unit, zero_of::<N>(), v.soc_target_kwh);
    lemma_compare(value, unit, v.soc_target_kwh, v.battery_kwh);
    lemma_compare(value, unit, v.soc_target_kwh, v.ceiling());
    lemma_compare(value, unit, v.ceiling(), v.battery_kwh);
}

/// Where charging does not taper, a rate is taken as asked.
pub(crate) proof fn lemma_untapered<N: Num>(
    value: spec_fn(N) -> real,
    unit: real,
    sc: ScenarioModel<N>,
    i: int,
    soc: N,
    rate: N,
)
    requires
        is_fine(value, unit),
        is_valid(sc),
        is_ready(value, sc),
        is_unhurried(value, sc),
        0 <= i < sc.vehicles.len(),
        soc.finite(),
        0real <= value(soc) < value(sc.vehicles[i].soc_target_kwh),
        rate.finite(),
        0real <= value(rate),
    ensures
        tapered(sc.vehicles[i], soc, rate).finite(),
        value(tapered(sc.vehicles[i], soc, rate)) == value(rate),
{
    reveal(has_measures);
    lemma_constants(value, unit);
    let v = sc.vehicles[i];
    lemma_battery(value, unit, sc, i);
    lemma_percent(value, unit, v, soc);
    lemma_percent(value, unit, v, v.ceiling());
    lemma_percent_order(value, unit, v, soc, v.ceiling());
    let a = percent(soc, v);
    lemma_finite(value, unit, a);
    lemma_finite(value, unit, percent(v.ceiling(), v));
    lemma_finite(value, unit, rate);
    lemma_compare(value, unit, a, percent(v.ceiling(), v));
    lemma_closer_fits(value, 90real, 3600real);
    let knee = count::<N>(90);
    assert(knee == N::rational(90u64, 1));
    assert(90u64 as real == 90real);
    lemma_finite(value, unit, knee);
    lemma_compare(value, unit, a, knee);
    let x = value(soc);
    let b = value(v.battery_kwh);
    assert(x / b * 100real <= 90real) by (nonlinear_arith)
        requires
            x <= b * 9real / 10real,
            0real < b,
    {
        assert((x / b) * b == x);
        if x / b > 9real / 10real {
            assert((x / b) * b > 9real / 10real * b);
        }
    }
    lemma_compare(value, unit, zero_of::<N>(), rate);
    lemma_compare(value, unit, rate, zero_of::<N>());
}

/// What policy 0 asks of a session with `n` slots left: nothing if it needs little, else
/// its limit or the rate that reaches the target by departure.
proof fn lemma_constant_rate<N: Num>(
    value: spec_fn(N) -> real,
    unit: real,
    sc: ScenarioModel<N>,
    m: real,
    obs: ObservationModel<N>,
    view: SessionView<N>,
    i: int,
)
    requires
        is_fine(value, unit),
        is_valid(sc),
        is_ready(value, sc),
        is_unhurried(value, sc),
        1real <= value(sc.rules.slot_minutes),
        0 <= i < sc.vehicles.len(),
        view.vehicle == sc.vehicles[i],
        obs.slot_minutes == sc.rules.slot_minutes,
        obs.slot < sc.vehicles[i].departure_slot,
        view.soc_kwh.finite(),
        0real <= value(view.soc_kwh) <= value(sc.vehicles[i].ceiling()),
        view.max_charge_kw.finite(),
        0real <= value(view.max_charge_kw),
    ensures
        ({
            let p = constant_rate(obs, view);
            let need = need_of(value, sc, i, view.soc_kwh);
            let hours = (sc.vehicles[i].departure_slot - obs.slot) as real * value(sc.rules.slot_minutes)
                / 60real;
            &&& p.finite()
            &&& 0real <= value(p) <= value(view.max_charge_kw)
            &&& need <= tolerance(value, unit, sc, i) || value(p) == value(view.max_charge_kw) || need / hours
                - unit <= value(p)
        }),
{
    lemma_constants(value, unit);
    let v = sc.vehicles[i];
    let target = v.soc_target_kwh;
    lemma_battery(value, unit, sc, i);
    lemma_need(value, unit, sc, m, i, view.soc_kwh);
    if is_under(view, target) {
        lemma_percent(value, unit, v, view.soc_kwh);
        lemma_percent(value, unit, v, target);
        lemma_finite(value, unit, percent(view.soc_kwh, v));
        lemma_finite(value, unit, percent(target, v));
        lemma_compare(value, unit, percent(view.soc_kwh, v), percent(target, v));
        if value(target) <= value(view.soc_kwh) {
            lemma_percent_order(value, unit, v, target, view.soc_kwh);
        }
        let need = target.minus(view.soc_kwh);
        let x = value(need);
        let n = v.departure_slot - obs.slot;
        let d = value(sc.rules.slot_minutes);
        let exact = n as real * d / 60real;
        assert(session_is_valid(v, sc.rules.horizon_slots));
        let h = sc.rules.horizon_slots as real;
        assert(0real <= n as real * d * 60real <= h * d * 60real) by (nonlinear_arith)
            requires
                0real <= n as real <= h,
                1real <= d,
        ;
        lemma_closer_fits(value, n as real * d * 60real, h * d * 60real);
        lemma_hours(value, unit, sc.rules.slot_minutes, n);
        let hours = time_left(obs, view).over(count(3600));
        let y = value(hours);
        assert(0real <= x / y <= x * 100real && x / exact <= x / y) by (nonlinear_arith)
            requires
                0real <= x,
                1real / 100real <= y <= exact,
        ;
        lemma_closer_fits(value, x / y, value(v.ceiling()) * 100real);
        lemma_over(value, unit, need, hours);
        let rate = need.over(hours);
        lemma_finite(value, unit, rate);
        lemma_finite(value, unit, view.max_charge_kw);
        lemma_compare(value, unit, view.max_charge_kw, rate);
        let capped = if view.max_charge_kw.below(rate) {
            view.max_charge_kw
        } else {
            rate
        };
        lemma_compare(value, unit, capped, zero_of::<N>());
        lemma_untapered(value, unit, sc, i, view.soc_kwh, capped);
    } else {
        lemma_not_under(value, unit, sc, i, view);
    }
}

/// What policy 0 asks of shown session `k`.
proof fn lemma_policy0_ask<N: Num>(
    value: spec_fn(N) -> real,
    unit: real,
    sc: ScenarioModel<N>,
    m: real,
    st: SiteModel<N>,
    t: int,
    k: int,
)
    requires
        is_fine(value, unit),
        is_valid(sc),
        is_ready(value, sc),
        is_moderate(value, sc, m),
        is_roomy(value, sc),
        is_unhurried(value, sc),
        is_sound(sc, st, t + 1, t),
        is_lawful(value, unit, sc, m, st, t),
        sc.vehicles.len() <= usize::MAX,
        0 <= t < sc.rules.horizon_slots,
        0 <= k < shown_rows(sc, st).len(),
    ensures
        ({
            let row = shown_rows(sc, st)[k] as int;
            let s = st.active[row]->0;
            let view = session_views(sc, st)[k];
            let sp = constant_rates(observation(sc, st, t))[k];
            let need = need_of(value, sc, row, s.soc_kwh);
            let hours = (sc.vehicles[row].departure_slot - t) as real * value(sc.rules.slot_minutes) / 60real;
            &&& t < sc.vehicles[row].departure_slot
            &&& sp.session_index == k
            &&& sp.power_kw.finite()
            &&& 0real <= value(sp.power_kw) <= value(view.max_charge_kw)
            &&& need <= tolerance(value, unit, sc, row) || value(sp.power_kw) == limit_of(value, sc, row, s)
                || need / hours - unit <= value(sp.power_kw)
        }),
{
    lemma_shown(sc, st);
    let rows = shown_rows(sc, st);
    let row = rows[k] as int;
    assert(rows[k] < sc.vehicles.len());
    assert(st.active[row] is Some);
    let view = session_views(sc, st)[k];
    assert(view == session_view(sc, st, k, row));
    assert(is_plugged(sc, st, row));
    assert(is_row_healthy(value, unit, sc, m, st.active, t, row));
    assert(is_usable(value, sc, sc.vehicles[row]));
    lemma_shown_limit(value, unit, sc, st, k, row);
    let v = sc.vehicles[row];
    assert(vehicle_is_finite(v));
    lemma_finite(value, unit, v.max_charge_kw);
    lemma_closer_fits(value, value(view.max_charge_kw), value(v.max_charge_kw));
    lemma_fitting(value, unit, view.max_charge_kw);
    lemma_constant_rate(value, unit, sc, m, observation(sc, st, t), view, row);
}

proof fn lemma_rate_gain(p: real, need: real, n: real, d: real, u: real)
    by (nonlinear_arith)
    requires
        1real <= n,
        1real <= d,
        0real <= u,
        need / (n * d / 60real) - u <= p,
    ensures
        need / n - slot_loss(d, u) <= p * d / 60real * 1real,
{
    let h = n * d / 60real;
    assert((need / h - u) * d <= p * d);
    assert(need / h * d == need / n * 60real) by {
        assert(h > 0real);
        assert((need / h) * h == need);
        assert((need / n) * n == need);
        assert((need / h) * (n * d / 60real) == need);
        assert((need / h * d) * n == need * 60real);
    }
    assert(0real <= u * d);
    let loss = (d / 60real + 5real) * u;
    assert(loss == d * u / 60real + 5real * u);
}

/// The list of policy 0 asks each shown session to charge.
proof fn lemma_policy0_list<N: Num>(
    value: spec_fn(N) -> real,
    unit: real,
    sc: ScenarioModel<N>,
    m: real,
    st: SiteModel<N>,
    t: int,
)
    requires
        is_fine(value, unit),
        is_valid(sc),
        is_ready(value, sc),
        is_moderate(value, sc, m),
        is_roomy(value, sc),
        is_unhurried(value, sc),
        is_sound(sc, st, t + 1, t),
        is_lawful(value, unit, sc, m, st, t),
        sc.vehicles.len() <= usize::MAX,
        0 <= t < sc.rules.horizon_slots,
    ensures
        asks_each_to_charge(
            value,
            constant_rates(observation(sc, st, t)),
            shown_rows(sc, st).len(),
        ),
{
    let out = constant_rates(observation(sc, st, t));
    assert forall|k: int| #![trigger out[k]] 0 <= k < out.len() implies out[k].session_index == k
        && out[k].power_kw.finite() && 0real <= value(out[k].power_kw) by {
        lemma_policy0_ask(value, unit, sc, m, st, t, k);
    }
}

/// A slot shrinks the need by its share of the stay or by what the limit gives.
pub(crate) proof fn lemma_need_after(
    target: real,
    soc: real,
    next: real,
    room: real,
    p: real,
    limit: real,
    left: real,
    d: real,
    n: real,
    u: real,
    band: real,
)
    requires
        1real <= left,
        1real <= d,
        n == 1real,
        0real <= u,
        most(target - soc, 0real) <= band || p == limit || most(target - soc, 0real) / (left * d / 60real) - u
            <= p,
        soc <= next,
        soc + least(p * d / 60real * n, room) - slot_loss(d, u) <= next,
        target - soc <= room,
        0real <= room,
    ensures
        ({
            let need = most(target - soc, 0real);
            let rest = most(target - next, 0real);
            &&& rest <= need
            &&& need <= band || rest <= most(need - least(need / left, limit * d / 60real * n), 0real) + 2real
                * slot_loss(d, u)
        }),
{
    let need = most(target - soc, 0real);
    let loss = slot_loss(d, u);
    assert(0real <= loss) by (nonlinear_arith)
        requires
            1real <= d,
            0real <= u,
            loss == (d / 60real + 5real) * u,
    ;
    assert(0real <= need / left <= need) by (nonlinear_arith)
        requires
            0real <= need,
            1real <= left,
    ;
    if need > band && p != limit {
        lemma_rate_gain(p, need, left, d, u);
        assert(need / left - loss <= p * d / 60real * n);
    }
}

/// One slot under policy 0: the need does not grow, and it shrinks by its share of the
/// remaining stay or by what a slot at the limit gives, unless it is small already.
proof fn lemma_policy0_slot<N: Num>(
    value: spec_fn(N) -> real,
    unit: real,
    sc: ScenarioModel<N>,
    m: real,
    st: SiteModel<N>,
    t: int,
    i: int,
)
    requires
        is_fine(value, unit),
        is_valid(sc),
        is_ready(value, sc),
        is_moderate(value, sc, m),
        is_roomy(value, sc),
        is_unhurried(value, sc),
        is_sound(sc, st, t + 1, t),
        is_lawful(value, unit, sc, m, st, t),
        sc.vehicles.len() <= usize::MAX,
        0 <= t < sc.rules.horizon_slots,
        0 <= i < sc.vehicles.len(),
        st.active[i] is Some,
    ensures
        is_need_shrunk(
            value,
            unit,
            sc,
            st.active[i]->0,
            dispatched(sc, st, t, constant_rates(observation(sc, st, t))).active[i],
            t,
            i,
            tolerance(value, unit, sc, i),
        ),
{
    lemma_constants(value, unit);
    let out = constant_rates(observation(sc, st, t));
    let rows = shown_rows(sc, st);
    let views = session_views(sc, st);
    lemma_shown(sc, st);
    lemma_views_fit(value, unit, sc, m, st, t + 1, t);
    lemma_policy0_list(value, unit, sc, m, st, t);
    lemma_slot_served(value, unit, sc, m, st, t, out);
    assert(rows.contains(i as usize));
    let k = choose|k: int| 0 <= k < rows.len() && rows[k] == i as usize;
    assert(rows[k] as int == i);
    lemma_policy0_ask(value, unit, sc, m, st, t, k);
    assert(is_row_healthy(value, unit, sc, m, st.active, t, i));
    let s = st.active[i]->0;
    lemma_served_gain(value, unit, sc, m, i, s, views[k], out[k].power_kw, stay(sc, i, t));
    lemma_need(value, unit, sc, m, i, s.soc_kwh);
    let v = sc.vehicles[i];
    let u = dispatched(sc, st, t, out).active[i]->0;
    lemma_need_after(
        value(v.soc_target_kwh),
        value(s.soc_kwh),
        value(u.soc_kwh),
        value(v.ceiling()) - value(s.soc_kwh),
        value(out[k].power_kw),
        limit_of(value, sc, i, s),
        (v.departure_slot - t) as real,
        value(sc.rules.slot_minutes),
        value(sc.rules.charge_efficiency),
        unit,
        tolerance(value, unit, sc, i),
    );
}

/// What a slot does to the need of row `i`: it does not grow, and it shrinks by its share
/// of the remaining stay or by what a slot at the limit gives, unless it is within `band`.
pub(crate) open spec fn is_need_shrunk<N: Num>(
    value: spec_fn(N) -> real,
    unit: real,
    sc: ScenarioModel<N>,
    s: Session<N>,
    next: Option<Session<N>>,
    t: int,
    i: int,
    band: real,
) -> bool {
    let gain = slot_gain(value, sc, limit_of(value, sc, i, s));
    let need = need_of(value, sc, i, s.soc_kwh);
    let left = (sc.vehicles[i].departure_slot - t) as real;
    let loss = 2real * slot_loss(value(sc.rules.slot_minutes), unit);
    next matches Some(u) && {
        let rest = need_of(value, sc, i, u.soc_kwh);
        &&& u.charger_index == s.charger_index
        &&& rest <= need
        &&& need <= band || rest <= most(need - least(need / left, gain), 0real) + loss
    }
}

/// The same, in a run.
proof fn lemma_policy0_at<N: Num>(
    value: spec_fn(N) -> real,
    unit: real,
    sc: ScenarioModel<N>,
    m: real,
    decisions: Seq<Seq<Setpoint<N>>>,
    i: int,
    t: nat,
)
    requires
        is_fine(value, unit),
        is_valid(sc),
        is_moderate(value, sc, m),
        is_roomy(value, sc),
        is_unhurried(value, sc),
        sc.vehicles.len() <= usize::MAX,
        sc.chargers.len() <= usize::MAX,
        sc.building.len() == sc.rules.horizon_slots,
        is_constant_rate(sc, decisions),
        0 <= i < sc.vehicles.len(),
        t < sc.rules.horizon_slots,
        boarded(sc, site_at(sc, decisions, t), t as int).active[i] is Some,
    ensures
        is_need_shrunk(
            value,
            unit,
            sc,
            boarded(sc, site_at(sc, decisions, t), t as int).active[i]->0,
            site_at(sc, decisions, (t + 1) as nat).active[i],
            t as int,
            i,
            tolerance(value, unit, sc, i),
        ),
        boarded(sc, site_at(sc, decisions, t), t as int).active[i]->0.charger_index < sc.chargers.len(),
{
    lemma_ready(value, unit, sc, m);
    let st = boarded(sc, site_at(sc, decisions, t), t as int);
    the_site_is_sound_in_every_slot(sc, decisions, t);
    batteries_stay_in_range_and_energy_is_conserved(value, unit, sc, m, decisions, t);
    assert(decisions[t as int] == constant_rates(observation(sc, st, t as int)));
    lemma_policy0_slot(value, unit, sc, m, st, t as int, i);
    assert(is_plugged(sc, st, i));
}

/// The decisions are those of policy 0.
pub open spec fn is_constant_rate<N: Num>(sc: ScenarioModel<N>, decisions: Seq<Seq<Setpoint<N>>>) -> bool {
    forall|t: int|
        0 <= t < sc.rules.horizon_slots ==> #[trigger] decisions[t] == constant_rates(
            observation(sc, boarded(sc, site_at(sc, decisions, t as nat), t), t),
        )
}

pub(crate) proof fn lemma_need_next(n: int, gain: real, band: real, e: real, loss: real, need: real, next: real)
    requires
        1 <= n,
        0real <= gain,
        0real <= band,
        0real <= e,
        0real <= loss,
        0real <= need <= most(n as real * gain, band) + e,
        next <= need,
        need <= band || next <= most(need - least(need / (n as real), gain), 0real) + loss,
    ensures
        next <= most((n - 1) as real * gain, band) + e + loss,
{
    let k = n as real;
    let share = need / k;
    assert((n - 1) as real * gain == k * gain - gain) by (nonlinear_arith)
        requires
            k == n as real,
    ;
    if need > band + e && share <= gain {
        assert(need - share <= k * gain - gain) by (nonlinear_arith)
            requires
                share == need / k,
                share <= gain,
                1real <= k,
        {
            assert(share * k == need);
            assert((k - 1real) * share <= (k - 1real) * gain);
        }
    }
    assert(0real <= k * gain - gain) by (nonlinear_arith)
        requires
            1real <= k,
            0real <= gain,
    ;
}

/// The figures of a stay are not negative.
pub(crate) proof fn lemma_signs(limit: real, d: real, n: real, unit: real, size: real, k: int)
    requires
        0real <= limit,
        1real <= d,
        0real <= n,
        0real <= unit,
        0real <= size,
        1 <= k,
    ensures
        0real <= limit * d / 60real * n,
        0real <= slot_loss(d, unit),
        0real <= size * (101real / 1000real + 101real * unit) / 100real,
        0real <= (k - 1) as real * (2real * slot_loss(d, unit)),
        k as real * (2real * slot_loss(d, unit)) == (k - 1) as real * (2real * slot_loss(d, unit)) + 2real
            * slot_loss(d, unit),
{
    assert(0real <= limit * d / 60real * n) by (nonlinear_arith)
        requires
            0real <= limit,
            1real <= d,
            0real <= n,
    {
        assert(0real <= limit * d);
        assert(0real <= limit * d / 60real);
    }
    let loss = slot_loss(d, unit);
    assert(0real <= loss) by (nonlinear_arith)
        requires
            1real <= d,
            0real <= unit,
            loss == (d / 60real + 5real) * unit,
    ;
    let part = 101real / 1000real + 101real * unit;
    assert(0real <= size * part / 100real) by (nonlinear_arith)
        requires
            0real <= size,
            0real <= part,
    ;
    let j = (k - 1) as real;
    assert(0real <= j * (2real * loss)) by (nonlinear_arith)
        requires
            0real <= j,
            0real <= loss,
    ;
    assert(k as real * (2real * loss) == j * (2real * loss) + 2real * loss) by (nonlinear_arith)
        requires
            k as real == j + 1real,
    ;
}

/// What the law on policy 0 asks of a run.
#[verifier::opaque]
pub open spec fn is_policy0_run<N: Num>(
    value: spec_fn(N) -> real,
    unit: real,
    sc: ScenarioModel<N>,
    m: real,
    decisions: Seq<Seq<Setpoint<N>>>,
) -> bool {
    &&& is_fine(value, unit)
    &&& is_valid(sc)
    &&& is_moderate(value, sc, m)
    &&& is_roomy(value, sc)
    &&& is_unhurried(value, sc)
    &&& sc.vehicles.len() <= usize::MAX
    &&& sc.chargers.len() <= usize::MAX
    &&& sc.building.len() == sc.rules.horizon_slots
    &&& is_constant_rate(sc, decisions)
}

/// A slot of the stay of row `i`.
proof fn lemma_policy0_in_run<N: Num>(
    value: spec_fn(N) -> real,
    unit: real,
    sc: ScenarioModel<N>,
    m: real,
    decisions: Seq<Seq<Setpoint<N>>>,
    i: int,
    t: nat,
)
    requires
        is_policy0_run(value, unit, sc, m, decisions),
        0 <= i < sc.vehicles.len(),
        sc.vehicles[i].arrival_slot <= t < sc.vehicles[i].departure_slot,
        boarded(sc, site_at(sc, decisions, t), t as int).active[i] is Some,
    ensures
        ({
            let s = boarded(sc, site_at(sc, decisions, t), t as int).active[i]->0;
            let next = site_at(sc, decisions, (t + 1) as nat).active[i];
            &&& is_need_shrunk(value, unit, sc, s, next, t as int, i, tolerance(value, unit, sc, i))
            &&& 0real <= slot_gain(value, sc, limit_of(value, sc, i, s))
            &&& 0real <= slot_loss(value(sc.rules.slot_minutes), unit)
            &&& 0real <= tolerance(value, unit, sc, i)
            &&& t + 1 < sc.vehicles[i].departure_slot ==> boarded(
                sc,
                site_at(sc, decisions, (t + 1) as nat),
                t as int + 1,
            ).active[i] == next
        }),
{
    reveal(is_policy0_run);
    lemma_constants(value, unit);
    lemma_ready(value, unit, sc, m);
    let v = sc.vehicles[i];
    assert(session_is_valid(v, sc.rules.horizon_slots));
    lemma_policy0_at(value, unit, sc, m, decisions, i, t);
    lemma_battery(value, unit, sc, i);
    let s = boarded(sc, site_at(sc, decisions, t), t as int).active[i]->0;
    lemma_signs(
        limit_of(value, sc, i, s),
        value(sc.rules.slot_minutes),
        value(sc.rules.charge_efficiency),
        unit,
        value(v.battery_kwh),
        1,
    );
    the_site_is_sound_in_every_slot(sc, decisions, (t + 1) as nat);
    if t + 1 < v.departure_slot {
        lemma_boarding_keeps_row(sc, site_at(sc, decisions, (t + 1) as nat), t as int + 1, i);
    }
}

/// The need of row `i` after `k` slots.
pub(crate) open spec fn is_on_track<N: Num>(
    value: spec_fn(N) -> real,
    unit: real,
    sc: ScenarioModel<N>,
    i: int,
    s: Session<N>,
    u: Option<Session<N>>,
    k: int,
    band: real,
) -> bool {
    let v = sc.vehicles[i];
    let left = (v.departure_slot - v.arrival_slot - k) as real;
    let gain = slot_gain(value, sc, limit_of(value, sc, i, s));
    let loss = 2real * slot_loss(value(sc.rules.slot_minutes), unit);
    u matches Some(now) && now.charger_index == s.charger_index && need_of(value, sc, i, now.soc_kwh) <= most(
        left * gain,
        band,
    ) + k as real * loss
}

pub(crate) proof fn lemma_stay_on_track<N: Num>(
    value: spec_fn(N) -> real,
    unit: real,
    sc: ScenarioModel<N>,
    i: int,
    s: Session<N>,
    now: Session<N>,
    next: Option<Session<N>>,
    k: int,
    band: real,
)
    requires
        0 <= k < sc.vehicles[i].departure_slot - sc.vehicles[i].arrival_slot,
        is_on_track(value, unit, sc, i, s, Some(now), k, band),
        is_need_shrunk(value, unit, sc, now, next, sc.vehicles[i].arrival_slot + k, i, band),
        0real <= slot_gain(value, sc, limit_of(value, sc, i, now)),
        0real <= slot_loss(value(sc.rules.slot_minutes), unit),
        0real <= band,
    ensures
        is_on_track(value, unit, sc, i, s, next, k + 1, band),
{
    let v = sc.vehicles[i];
    let loss = 2real * slot_loss(value(sc.rules.slot_minutes), unit);
    let e = k as real * loss;
    assert(0real <= e && (k + 1) as real * loss == e + loss) by (nonlinear_arith)
        requires
            0real <= loss,
            0real <= k as real,
            e == k as real * loss,
    ;
    lemma_need_next(
        v.departure_slot - v.arrival_slot - k,
        slot_gain(value, sc, limit_of(value, sc, i, now)),
        band,
        e,
        loss,
        need_of(value, sc, i, now.soc_kwh),
        need_of(value, sc, i, next->0.soc_kwh),
    );
}

/// The session through its stay.
proof fn lemma_policy0_stay<N: Num>(
    value: spec_fn(N) -> real,
    unit: real,
    sc: ScenarioModel<N>,
    m: real,
    decisions: Seq<Seq<Setpoint<N>>>,
    i: int,
    s: Session<N>,
    k: nat,
)
    requires
        is_policy0_run(value, unit, sc, m, decisions),
        0 <= i < sc.vehicles.len(),
        is_connected(sc, decisions, i, s),
        is_on_track(value, unit, sc, i, s, Some(s), 0, tolerance(value, unit, sc, i)),
        0 < k <= sc.vehicles[i].departure_slot - sc.vehicles[i].arrival_slot,
    ensures
        ({
            let t = (sc.vehicles[i].arrival_slot + k) as nat;
            let now = site_at(sc, decisions, t).active[i];
            &&& is_on_track(value, unit, sc, i, s, now, k as int, tolerance(value, unit, sc, i))
            &&& t < sc.vehicles[i].departure_slot ==> boarded(
                sc,
                site_at(sc, decisions, t),
                t as int,
            ).active[i] == now
        }),
    decreases k,
{
    let t = (sc.vehicles[i].arrival_slot + k - 1) as nat;
    if k > 1 {
        lemma_policy0_stay(value, unit, sc, m, decisions, i, s, (k - 1) as nat);
    }
    lemma_policy0_in_run(value, unit, sc, m, decisions, i, t);
    let now = boarded(sc, site_at(sc, decisions, t), t as int).active[i]->0;
    lemma_stay_on_track(
        value,
        unit,
        sc,
        i,
        s,
        now,
        site_at(sc, decisions, (t + 1) as nat).active[i],
        k - 1,
        tolerance(value, unit, sc, i),
    );
}

/// Policy 0 meets every target that can be met: without charging losses, a session that
/// finds a port and whose stay at full power is long enough leaves with its target, up
/// to the tolerance of the policy and the rounding of its slots.
pub proof fn policy0_meets_feasible_targets<N: Num>(
    value: spec_fn(N) -> real,
    unit: real,
    sc: ScenarioModel<N>,
    m: real,
    decisions: Seq<Seq<Setpoint<N>>>,
    i: int,
    s: Session<N>,
)
    requires
        is_policy0_run(value, unit, sc, m, decisions),
        0 <= i < sc.vehicles.len(),
        is_connected(sc, decisions, i, s),
        need_of(value, sc, i, s.soc_kwh) <= (sc.vehicles[i].departure_slot - sc.vehicles[i].arrival_slot) as real
            * slot_gain(value, sc, limit_of(value, sc, i, s)),
    ensures
        ({
            let v = sc.vehicles[i];
            let slots = (v.departure_slot - v.arrival_slot) as real;
            value(v.soc_target_kwh) - tolerance(value, unit, sc, i) - slots * (2real * slot_loss(
                value(sc.rules.slot_minutes),
                unit,
            )) <= value(leaving_soc(sc, decisions, i))
        }),
{
    lemma_policy0_battery(value, unit, sc, m, decisions, i);
    let v = sc.vehicles[i];
    let loss = 2real * slot_loss(value(sc.rules.slot_minutes), unit);
    let gain = slot_gain(value, sc, limit_of(value, sc, i, s));
    assert(0real * loss == 0real && 0real * gain == 0real) by (nonlinear_arith);
    lemma_policy0_stay(
        value,
        unit,
        sc,
        m,
        decisions,
        i,
        s,
        (v.departure_slot - v.arrival_slot) as nat,
    );
}

/// The stay of row `i` is not empty, and its tolerance is not negative.
proof fn lemma_policy0_battery<N: Num>(
    value: spec_fn(N) -> real,
    unit: real,
    sc: ScenarioModel<N>,
    m: real,
    decisions: Seq<Seq<Setpoint<N>>>,
    i: int,
)
    requires
        is_policy0_run(value, unit, sc, m, decisions),
        0 <= i < sc.vehicles.len(),
    ensures
        sc.vehicles[i].arrival_slot < sc.vehicles[i].departure_slot,
        0real <= tolerance(value, unit, sc, i),
{
    reveal(is_policy0_run);
    lemma_constants(value, unit);
    lemma_ready(value, unit, sc, m);
    lemma_battery(value, unit, sc, i);
    assert(session_is_valid(sc.vehicles[i], sc.rules.horizon_slots));
    lemma_signs(0real, 1real, 0real, unit, value(sc.vehicles[i].battery_kwh), 1);
}

/// The decisions of a run of policy 0.
pub proof fn policy0_runs_are_of_constant_rate<N: Num>(
    sc: ScenarioModel<N>,
    policies: Seq<Policy0>,
    decisions: Seq<Seq<Setpoint<N>>>,
)
    requires
        is_episode(sc, policies, decisions),
        decisions.len() == sc.rules.horizon_slots,
    ensures
        is_constant_rate(sc, decisions),
{
    assert forall|t: int| 0 <= t < sc.rules.horizon_slots implies #[trigger] decisions[t] == constant_rates(
        observation(sc, boarded(sc, site_at(sc, decisions, t as nat), t), t),
    ) by {
        let seen = observation(sc, boarded(sc, site_at(sc, decisions, t as nat), t), t);
        assert(may_answer(policies[t], seen, decisions[t], policies[t + 1]));
        let (o, l) = choose|o: Observation<N>, l: Vec<Setpoint<N>>|
            o@ == seen && l@ == decisions[t] && #[trigger] policies[t].chooses(&o, &l, &policies[t + 1]);
        assert(policies[t].chooses(&o, &l, &policies[t + 1]));
    }
}

// ------------------------------------------------------------------ reports

/// The decisions of a run of the uncontrolled baseline.
pub proof fn baseline_runs_are_uncontrolled<N: Num>(
    sc: ScenarioModel<N>,
    policies: Seq<Uncontrolled>,
    decisions: Seq<Seq<Setpoint<N>>>,
)
    requires
        is_episode(sc, policies, decisions),
        decisions.len() == sc.rules.horizon_slots,
    ensures
        is_uncontrolled(sc, decisions),
{
    assert forall|t: int| 0 <= t < sc.rules.horizon_slots implies #[trigger] decisions[t] == uncontrolled(
        observation(sc, boarded(sc, site_at(sc, decisions, t as nat), t), t),
    ) by {
        let seen = observation(sc, boarded(sc, site_at(sc, decisions, t as nat), t), t);
        assert(may_answer(policies[t], seen, decisions[t], policies[t + 1]));
        let (o, l) = choose|o: Observation<N>, l: Vec<Setpoint<N>>|
            o@ == seen && l@ == decisions[t] && #[trigger] policies[t].chooses(&o, &l, &policies[t + 1]);
        assert(policies[t].chooses(&o, &l, &policies[t + 1]));
    }
}

/// A session that leaves with its target up to `slack` is reported to miss no more, and
/// to have met it where there is no slack.
pub proof fn missing_energy_is_reported<N: Num>(
    value: spec_fn(N) -> real,
    unit: real,
    sc: ScenarioModel<N>,
    m: real,
    decisions: Seq<Seq<Setpoint<N>>>,
    k: int,
    slack: real,
)
    requires
        rounds_toward_zero(value, unit),
        is_valid(sc),
        is_moderate(value, sc, m),
        sc.vehicles.len() <= usize::MAX,
        sc.chargers.len() <= usize::MAX,
        sc.building.len() == sc.rules.horizon_slots,
        0 <= k < results_of(sc, decisions).sessions.len(),
        ({
            let i = reported_rows(sc, decisions)[k];
            value(sc.vehicles[i].soc_target_kwh) - slack <= value(leaving_soc(sc, decisions, i))
        }),
        0real <= slack,
    ensures
        ({
            let r = results_of(sc, decisions).sessions[k];
            &&& value(r.missing_kwh) <= slack
            &&& slack == 0real ==> r.target_met
        }),
{
    lemma_constants(value, unit);
    lemma_ready(value, unit, sc, m);
    assert forall|i: int| 0 <= i < sc.vehicles.len() implies (#[trigger] sc.vehicles[i]).departure_slot
        <= sc.rules.horizon_slots by {
        assert(session_is_valid(sc.vehicles[i], sc.rules.horizon_slots));
    }
    reports_form_chains(sc, decisions);
    every_session_is_reported_exactly_once(sc, decisions);
    every_report_balances(value, unit, sc, m, decisions);
    reports_are_consistent(sc, decisions);
    let list = results_of(sc, decisions).sessions;
    let r = list[k];
    let i = reported_rows(sc, decisions)[k];
    assert(reports_right(sc, decisions, r, i));
    assert(is_on_row(r, sc, i));
    assert(is_consistent(r));
    assert(is_sound_report(value, unit, sc, r));
    let j = choose|j: int|
        0 <= j < sc.vehicles.len() && (#[trigger] sc.vehicles[j]).vehicle_id == r.vehicle_id
            && sc.vehicles[j].arrival_slot == r.arrival_slot && is_in_range(
            value,
            sc.vehicles[j],
            r.soc_departure_kwh,
        ) && is_in_range(value, sc.vehicles[j], r.soc_arrival_kwh);
    assert(i == j) by {
        if i != j {
            assert(session_is_valid(sc.vehicles[i], sc.rules.horizon_slots));
            assert(session_is_valid(sc.vehicles[j], sc.rules.horizon_slots));
            assert(sc.vehicles[i].vehicle_id == sc.vehicles[j].vehicle_id);
            assert(sc.vehicles[i].departure_slot <= sc.vehicles[j].arrival_slot
                || sc.vehicles[j].departure_slot <= sc.vehicles[i].arrival_slot);
        }
    }
    assert(is_usable(value, sc, sc.vehicles[i]));
    lemma_need(value, unit, sc, m, i, r.soc_departure_kwh);
    lemma_finite(value, unit, r.missing_kwh);
    lemma_compare(value, unit, r.missing_kwh, N::rational(1, 1_000_000_000));
}

/// A fixed-point run of the uncontrolled baseline over a valid scenario of ordinary
/// size: a session that finds a port and whose stay at full power is long enough is
/// reported to miss no more than the rounding of its slots.
pub proof fn fixed_point_baselines_meet_feasible_targets(
    sc: ScenarioModel<Fixed>,
    policies: Seq<Uncontrolled>,
    decisions: Seq<Seq<Setpoint<Fixed>>>,
    k: int,
    s: Session<Fixed>,
)
    requires
        is_valid(sc),
        is_ordinary(sc),
        is_roomy(fixed_value(), sc),
        sc.chargers.len() <= usize::MAX,
        sc.building.len() == sc.rules.horizon_slots,
        is_episode(sc, policies, decisions),
        decisions.len() == sc.rules.horizon_slots,
        0 <= k < results_of(sc, decisions).sessions.len(),
        ({
            let i = reported_rows(sc, decisions)[k];
            let v = sc.vehicles[i];
            &&& is_connected(sc, decisions, i, s)
            &&& fixed_value()(v.soc_target_kwh) <= fixed_value()(s.soc_kwh) + (v.departure_slot
                - v.arrival_slot) as real * slot_gain(
                fixed_value(),
                sc,
                limit_of(fixed_value(), sc, i, s),
            )
        }),
    ensures
        ({
            let v = sc.vehicles[reported_rows(sc, decisions)[k]];
            let dt = fixed_value()(sc.rules.slot_minutes);
            fixed_value()(results_of(sc, decisions).sessions[k].missing_kwh) <= (v.departure_slot
                - v.arrival_slot) as real * (2real * slot_loss(dt, millionth()))
        }),
{
    let value = fixed_value();
    let i = reported_rows(sc, decisions)[k];
    fixed_numbers_round_toward_zero();
    fixed_numbers_measure_and_reach_infinity();
    ordinary_scenarios_are_moderate(sc);
    baseline_runs_are_uncontrolled(sc, policies, decisions);
    lemma_ready(value, millionth(), sc, 1_000_000real);
    every_session_is_reported_exactly_once(sc, decisions);
    assert(is_on_row(results_of(sc, decisions).sessions[k], sc, i));
    let v = sc.vehicles[i];
    assert(session_is_valid(v, sc.rules.horizon_slots));
    uncontrolled_meets_feasible_targets(value, millionth(), sc, 1_000_000real, decisions, i, s);
    let slots = (v.departure_slot - v.arrival_slot) as real;
    let d = value(sc.rules.slot_minutes);
    let u = millionth();
    let slack = slots * (2real * slot_loss(d, u));
    assert(0real <= slack) by (nonlinear_arith)
        requires
            0real <= slots,
            1real <= d,
            0real <= u,
            slack == slots * (2real * ((d / 60real + 5real) * u)),
    {
        assert(0real <= (d / 60real + 5real) * u);
    }
    missing_energy_is_reported(value, u, sc, 1_000_000real, decisions, k, slack);
}

} // verus!
