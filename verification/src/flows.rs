//! The power flows of every slot: requests are taken as the policy's last word,
//! power stays within its limits, the site neither exports nor exceeds its cap,
//! and the trace adds up to the slot records.

use vstd::prelude::*;

use crate::engine::{SlotRecord, TraceRecord};
use crate::num::{zero_of, Num};
use crate::physics::{
    is_healthy, is_in_range, is_lawful, is_limited, is_moderate, is_ready, is_row_healthy, is_usable,
    lemma_charge_request, lemma_discharge_request, lemma_healthy_later, lemma_lawful_arrive, lemma_lawful_assign,
    lemma_lawful_depart, lemma_ready, stay,
};
use crate::reporting::lemma_few;
use crate::rounding::{
    is_number, lemma_closer_fits, lemma_compare, lemma_constants, lemma_finite, lemma_fitting, lemma_minus,
    lemma_negated, lemma_plus, lemma_still_numbers, most, rounds_toward_zero,
};
use crate::scenario::ScenarioModel;
use crate::site::{
    after_setpoint, applied_power, apply_request, arrival_order, arrive, assign, boarded, charge_start, charged,
    depart, discharge_power, discharged, dispatched, in_pass, is_admissible, opening, pass, requested, session_view,
    session_views, shown_rows, site_at, slot_record, trace_line, without, Flow, SiteModel,
};
use crate::soundness::{
    are_for_shown, is_plugged, is_sound, lemma_arrival_order, lemma_arrive, lemma_depart, lemma_dispatched,
    lemma_requested, lemma_shown, lemma_without, sessions_run_forward, the_site_is_sound_in_every_slot,
};
use crate::state::{Session, SessionView, Setpoint};
use crate::validation::{charger_ids_are_unique, is_valid, vehicle_is_finite};

verus! {

// ----------------------------------------------------------------- requests

/// No session is asked for twice.
pub open spec fn asks_once<N: Num>(list: Seq<Setpoint<N>>) -> bool {
    forall|i: int, j: int|
        #![trigger list[i], list[j]]
        0 <= i < list.len() && 0 <= j < list.len() && i != j ==> list[i].session_index
            != list[j].session_index
}

/// The setpoint at position `k` is the last admissible one for its session.
pub open spec fn is_last_word<N: Num>(out: Seq<Setpoint<N>>, n: nat, k: int) -> bool {
    &&& 0 <= k < out.len()
    &&& is_admissible(out[k], n)
    &&& forall|j: int|
        k < j < out.len() && is_admissible(#[trigger] out[j], n) ==> out[j].session_index
            != out[k].session_index
}

proof fn lemma_without_members<N: Num>(list: Seq<Setpoint<N>>, index: usize, x: Setpoint<N>)
    ensures
        without(list, index).contains(x) <==> list.contains(x) && x.session_index != index,
    decreases list.len(),
{
    let w = without(list, index);
    if list.len() > 0 {
        let rest = list.drop_last();
        lemma_without_members(rest, index, x);
        let v = without(rest, index);
        if list.contains(x) {
            let i = choose|i: int| 0 <= i < list.len() && list[i] == x;
            if i < rest.len() {
                assert(rest[i] == x);
            }
        }
        if rest.contains(x) {
            let i = choose|i: int| 0 <= i < rest.len() && rest[i] == x;
            assert(list[i] == x);
        }
        assert(list[list.len() - 1] == list.last());
        if list.last().session_index != index {
            assert(w == v.push(list.last()));
            if v.contains(x) {
                let i = choose|i: int| 0 <= i < v.len() && v[i] == x;
                assert(w[i] == x);
            }
            if w.contains(x) {
                let i = choose|i: int| 0 <= i < w.len() && w[i] == x;
                if i < v.len() {
                    assert(v[i] == x);
                }
            }
            assert(w[v.len() as int] == list.last());
        }
    }
}

proof fn lemma_without_once<N: Num>(list: Seq<Setpoint<N>>, index: usize)
    requires
        asks_once(list),
    ensures
        asks_once(without(list, index)),
    decreases list.len(),
{
    if list.len() > 0 {
        let rest = list.drop_last();
        assert(asks_once(rest)) by {
            assert forall|i: int, j: int|
                #![trigger rest[i], rest[j]]
                0 <= i < rest.len() && 0 <= j < rest.len() && i != j implies rest[i].session_index
                != rest[j].session_index by {
                assert(rest[i] == list[i] && rest[j] == list[j]);
            }
        }
        lemma_without_once(rest, index);
        let v = without(rest, index);
        let w = without(list, index);
        if list.last().session_index != index {
            assert forall|i: int, j: int|
                #![trigger w[i], w[j]]
                0 <= i < w.len() && 0 <= j < w.len() && i != j implies w[i].session_index
                != w[j].session_index by {
                if i < v.len() && j < v.len() {
                    assert(w[i] == v[i] && w[j] == v[j]);
                } else {
                    let k = if i < v.len() { i } else { j };
                    assert(w[k] == v[k]);
                    assert(v.contains(v[k]));
                    lemma_without_members(rest, index, v[k]);
                    let m = choose|m: int| 0 <= m < rest.len() && rest[m] == v[k];
                    assert(list[m].session_index != list[list.len() - 1].session_index);
                }
            }
        }
    }
}

/// The requests hold each session at most once, and exactly the policy's last
/// admissible setpoints: for sessions that are shown, with finite power. All
/// other setpoints have no effect.
pub proof fn the_last_admissible_setpoint_counts<N: Num>(out: Seq<Setpoint<N>>, n: nat)
    ensures
        asks_once(requested(out, n)),
        are_for_shown(requested(out, n), n),
        forall|k: int| is_last_word(out, n, k) ==> requested(out, n).contains(#[trigger] out[k]),
        forall|i: int|
            0 <= i < requested(out, n).len() ==> exists|k: int|
                is_last_word(out, n, k) && out[k] == #[trigger] requested(out, n)[i],
    decreases out.len(),
{
    lemma_requested(out, n);
    if out.len() > 0 {
        let rest = out.drop_last();
        let sp = out.last();
        the_last_admissible_setpoint_counts(rest, n);
        let earlier = requested(rest, n);
        let now = requested(out, n);
        assert(out[out.len() - 1] == sp);
        if is_admissible(sp, n) {
            let w = without(earlier, sp.session_index);
            lemma_without_once(earlier, sp.session_index);
            assert forall|i: int, j: int|
                #![trigger now[i], now[j]]
                0 <= i < now.len() && 0 <= j < now.len() && i != j implies now[i].session_index
                != now[j].session_index by {
                lemma_without(earlier, sp.session_index);
                if i < w.len() && j < w.len() {
                    assert(now[i] == w[i] && now[j] == w[j]);
                } else {
                    let k = if i < w.len() { i } else { j };
                    assert(now[k] == w[k]);
                }
            }
            assert forall|k: int| is_last_word(out, n, k) implies now.contains(#[trigger] out[k]) by {
                if k < rest.len() {
                    assert(rest[k] == out[k]);
                    assert(is_last_word(rest, n, k)) by {
                        assert forall|j: int| k < j < rest.len() && is_admissible(#[trigger] rest[j], n) implies rest[j].session_index
                            != rest[k].session_index by {
                            assert(rest[j] == out[j]);
                        }
                    }
                    assert(earlier.contains(out[k]));
                    lemma_without_members(earlier, sp.session_index, out[k]);
                    let i = choose|i: int| 0 <= i < w.len() && w[i] == out[k];
                    assert(now[i] == out[k]);
                } else {
                    assert(now[w.len() as int] == sp);
                }
            }
            assert forall|i: int| 0 <= i < now.len() implies exists|k: int|
                is_last_word(out, n, k) && out[k] == #[trigger] now[i] by {
                if i < w.len() {
                    assert(now[i] == w[i]);
                    assert(w.contains(w[i]));
                    lemma_without_members(earlier, sp.session_index, w[i]);
                    let j = choose|j: int| 0 <= j < earlier.len() && earlier[j] == w[i];
                    assert(earlier[j] == w[i]);
                    let k = choose|k: int| is_last_word(rest, n, k) && rest[k] == earlier[j];
                    assert(out[k] == rest[k]);
                    assert(is_last_word(out, n, k)) by {
                        assert forall|m: int| k < m < out.len() && is_admissible(#[trigger] out[m], n) implies out[m].session_index
                            != out[k].session_index by {
                            if m < rest.len() {
                                assert(rest[m] == out[m]);
                            }
                        }
                    }
                } else {
                    assert(is_last_word(out, n, out.len() - 1));
                }
            }
        } else {
            assert forall|k: int| is_last_word(out, n, k) implies now.contains(#[trigger] out[k]) by {
                assert(k < rest.len());
                assert(rest[k] == out[k]);
                assert(is_last_word(rest, n, k)) by {
                    assert forall|j: int| k < j < rest.len() && is_admissible(#[trigger] rest[j], n) implies rest[j].session_index
                        != rest[k].session_index by {
                        assert(rest[j] == out[j]);
                    }
                }
            }
            assert forall|i: int| 0 <= i < now.len() implies exists|k: int|
                is_last_word(out, n, k) && out[k] == #[trigger] now[i] by {
                let k = choose|k: int| is_last_word(rest, n, k) && rest[k] == earlier[i];
                assert(out[k] == rest[k]);
                assert(is_last_word(out, n, k)) by {
                    assert forall|m: int| k < m < out.len() && is_admissible(#[trigger] out[m], n) implies out[m].session_index
                        != out[k].session_index by {
                        if m < rest.len() {
                            assert(rest[m] == out[m]);
                        }
                    }
                }
            }
        }
    }
}

// -------------------------------------------------------------------- sums

/// The values added up.
pub open spec fn sum<N: Num>(value: spec_fn(N) -> real, list: Seq<N>) -> real
    decreases list.len(),
{
    if list.len() == 0 {
        0real
    } else {
        sum(value, list.drop_last()) + value(list.last())
    }
}

/// The charging part of a signed power: itself where positive, else zero.
pub open spec fn charging_part<N: Num>(value: spec_fn(N) -> real) -> spec_fn(N) -> real {
    |x: N| if value(x) > 0real { value(x) } else { 0real }
}

/// The discharging part of a signed power: its size where negative, else zero.
pub open spec fn discharging_part<N: Num>(value: spec_fn(N) -> real) -> spec_fn(N) -> real {
    |x: N| if value(x) < 0real { 0real - value(x) } else { 0real }
}

proof fn lemma_sum_update<N: Num>(value: spec_fn(N) -> real, list: Seq<N>, k: int, x: N)
    requires
        0 <= k < list.len(),
    ensures
        sum(value, list.update(k, x)) == sum(value, list) - value(list[k]) + value(x),
    decreases list.len(),
{
    let next = list.update(k, x);
    if k == list.len() - 1 {
        assert(next.drop_last() =~= list.drop_last());
    } else {
        assert(next.drop_last() =~= list.drop_last().update(k, x));
        assert(next.last() == list.last());
        lemma_sum_update(value, list.drop_last(), k, x);
    }
}

proof fn lemma_sum_zeros<N: Num>(value: spec_fn(N) -> real, list: Seq<N>)
    requires
        forall|k: int| 0 <= k < list.len() ==> value(#[trigger] list[k]) == 0real,
    ensures
        sum(value, list) == 0real,
    decreases list.len(),
{
    if list.len() > 0 {
        let rest = list.drop_last();
        assert forall|k: int| 0 <= k < rest.len() implies value(#[trigger] rest[k]) == 0real by {
            assert(rest[k] == list[k]);
        }
        lemma_sum_zeros(value, rest);
        assert(list[list.len() - 1] == list.last());
    }
}

/// What a plugged-in session drew less what it exported, kWh.
pub(crate) open spec fn net_draw<N: Num>(value: spec_fn(N) -> real, s: Option<Session<N>>) -> real {
    match s {
        Some(s) => value(s.energy_drawn_kwh) - value(s.energy_exported_kwh),
        None => 0real,
    }
}

/// What the plugged-in sessions drew less what they exported, kWh.
pub(crate) open spec fn standing<N: Num>(value: spec_fn(N) -> real, active: Seq<Option<Session<N>>>) -> real
    decreases active.len(),
{
    if active.len() == 0 {
        0real
    } else {
        standing(value, active.drop_last()) + net_draw(value, active.last())
    }
}

pub(crate) proof fn lemma_standing_update<N: Num>(
    value: spec_fn(N) -> real,
    active: Seq<Option<Session<N>>>,
    i: int,
    x: Option<Session<N>>,
)
    requires
        0 <= i < active.len(),
    ensures
        standing(value, active.update(i, x)) == standing(value, active) - net_draw(value, active[i])
            + net_draw(value, x),
    decreases active.len(),
{
    let next = active.update(i, x);
    if i == active.len() - 1 {
        assert(next.drop_last() =~= active.drop_last());
    } else {
        assert(next.drop_last() =~= active.drop_last().update(i, x));
        assert(next.last() == active.last());
        lemma_standing_update(value, active.drop_last(), i, x);
    }
}

// ------------------------------------------------------------------- passes

/// One of the first `n` requests of this pass is for shown session `k`.
pub(crate) open spec fn is_served<N: Num>(requests: Seq<Setpoint<N>>, n: nat, charging: bool, k: int) -> bool {
    exists|j: int|
        0 <= j < n && in_pass(#[trigger] requests[j], charging) && requests[j].session_index == k
}

/// The shown sessions, their rows and their limits fit together.
pub(crate) open spec fn views_fit<N: Num>(
    value: spec_fn(N) -> real,
    sc: ScenarioModel<N>,
    m: real,
    rows: Seq<usize>,
    views: Seq<SessionView<N>>,
) -> bool {
    &&& views.len() == rows.len()
    &&& rows.no_duplicates()
    &&& forall|k: int|
        #![trigger rows[k]]
        0 <= k < rows.len() ==> rows[k] < sc.vehicles.len() && views[k].vehicle
            == sc.vehicles[rows[k] as int] && is_limited(value, views[k], m)
}

/// The session of shown row `k` is plugged in and has been healthy for `extra`
/// slots more than it was here before slot `t`.
pub(crate) open spec fn is_fit<N: Num>(
    value: spec_fn(N) -> real,
    unit: real,
    sc: ScenarioModel<N>,
    m: real,
    active: Seq<Option<Session<N>>>,
    row: int,
    t: int,
    extra: int,
) -> bool {
    active[row] matches Some(s) && 0 <= stay(sc, row, t) && is_healthy(
        value,
        unit,
        sc,
        m,
        row,
        s,
        stay(sc, row, t) + extra,
    )
}

/// The sessions that a pass starts with: those it serves have not been served
/// in this slot.
pub(crate) open spec fn may_pass<N: Num>(
    value: spec_fn(N) -> real,
    unit: real,
    sc: ScenarioModel<N>,
    m: real,
    rows: Seq<usize>,
    start: Flow<N>,
    requests: Seq<Setpoint<N>>,
    charging: bool,
    t: int,
    extra: spec_fn(int) -> int,
) -> bool {
    &&& start.active.len() == sc.vehicles.len()
    &&& start.applied.len() == rows.len()
    &&& is_number(start.allowance)
    &&& forall|k: int|
        #![trigger rows[k]]
        0 <= k < rows.len() ==> is_fit(value, unit, sc, m, start.active, rows[k] as int, t, extra(k))
    &&& forall|j: int|
        #![trigger requests[j]]
        0 <= j < requests.len() && in_pass(requests[j], charging) ==> extra(
            requests[j].session_index as int,
        ) == 0
}

/// What a pass leaves behind after `n` requests.
pub(crate) open spec fn has_passed<N: Num>(
    value: spec_fn(N) -> real,
    unit: real,
    sc: ScenarioModel<N>,
    m: real,
    rows: Seq<usize>,
    start: Flow<N>,
    end: Flow<N>,
    requests: Seq<Setpoint<N>>,
    n: nat,
    charging: bool,
    t: int,
    extra: spec_fn(int) -> int,
) -> bool {
    &&& end.active.len() == sc.vehicles.len()
    &&& end.applied.len() == rows.len()
    &&& is_number(end.allowance)
    &&& forall|k: int|
        #![trigger rows[k]]
        0 <= k < rows.len() ==> if is_served(requests, n, charging, k) {
            is_fit(value, unit, sc, m, end.active, rows[k] as int, t, 1)
        } else {
            is_untouched(rows, start, end, k)
        }
}

/// A pass has left shown session `k` alone.
pub(crate) open spec fn is_untouched<N: Num>(rows: Seq<usize>, start: Flow<N>, end: Flow<N>, k: int) -> bool {
    end.active[rows[k] as int] == start.active[rows[k] as int] && end.applied[k] == start.applied[k]
}

/// A session is served by one request more if that request is for it.
proof fn lemma_served_next<N: Num>(requests: Seq<Setpoint<N>>, p: nat, charging: bool, k: int)
    requires
        p < requests.len(),
    ensures
        is_served(requests, p + 1, charging, k) <==> is_served(requests, p, charging, k) || (in_pass(
            requests[p as int],
            charging,
        ) && requests[p as int].session_index == k),
{
    if is_served(requests, p, charging, k) {
        let j = choose|j: int|
            0 <= j < p && in_pass(#[trigger] requests[j], charging) && requests[j].session_index == k;
        assert(in_pass(requests[j], charging));
    }
    if is_served(requests, p + 1, charging, k) {
        let j = choose|j: int|
            0 <= j < p + 1 && in_pass(#[trigger] requests[j], charging) && requests[j].session_index == k;
        assert(in_pass(requests[j], charging));
    }
}

/// The power of a request that a pass serves is finite.
pub(crate) proof fn lemma_served<N: Num>(
    value: spec_fn(N) -> real,
    unit: real,
    sc: ScenarioModel<N>,
    m: real,
    i: int,
    s: Session<N>,
    view: SessionView<N>,
    sp: Setpoint<N>,
    allowance: N,
    charging: bool,
    k: int,
)
    requires
        rounds_toward_zero(value, unit),
        is_ready(value, sc),
        is_moderate(value, sc, m),
        0 <= i < sc.vehicles.len(),
        view.vehicle == sc.vehicles[i],
        is_limited(value, view, m),
        sp.power_kw.finite(),
        in_pass(sp, charging),
        is_number(allowance),
        0 <= k < sc.rules.horizon_slots,
        is_healthy(value, unit, sc, m, i, s, k),
    ensures
        ({
            let dt = sc.rules.slot_minutes;
            let eta_c = sc.rules.charge_efficiency;
            let eta_d = sc.rules.discharge_efficiency;
            let kw = applied_power(s, view, sp.power_kw, dt, eta_c, eta_d, allowance);
            let next = after_setpoint(s, view, sp.power_kw, dt, eta_c, eta_d, allowance);
            let p = if charging {
                value(kw)
            } else {
                0real - value(kw)
            };
            let net = value(next.energy_drawn_kwh) - value(next.energy_exported_kwh);
            let was = value(s.energy_drawn_kwh) - value(s.energy_exported_kwh);
            let moved = if charging {
                net - was
            } else {
                was - net
            };
            &&& kw.finite()
            &&& 0real <= p <= m
            &&& p <= value(allowance) || p == 0real
            &&& charging ==> p <= value(view.max_charge_kw) || p == 0real
            &&& !charging ==> p <= value(view.max_discharge_kw) || p == 0real
            &&& is_healthy(value, unit, sc, m, i, next, k + 1)
            &&& moved <= p * value(dt) / 60real <= moved + 2real * unit
        }),
{
    lemma_constants(value, unit);
    lemma_finite(value, unit, sp.power_kw);
    lemma_compare(value, unit, sp.power_kw, zero_of::<N>());
    lemma_compare(value, unit, zero_of::<N>(), sp.power_kw);
    if charging {
        lemma_charge_request(value, unit, sc, m, i, s, view, sp.power_kw, allowance, k);
    } else {
        lemma_discharge_request(value, unit, sc, m, i, s, view, sp.power_kw, allowance, k);
        let p = discharge_power(
            s,
            view,
            sp.power_kw,
            sc.rules.slot_minutes,
            sc.rules.discharge_efficiency,
            allowance,
        );
        lemma_negated(value, unit, p);
    }
}

/// A request keeps the session it is for healthy, leaves the others alone, and
/// leaves the allowance a number.
proof fn lemma_request_health<N: Num>(
    value: spec_fn(N) -> real,
    unit: real,
    sc: ScenarioModel<N>,
    m: real,
    rows: Seq<usize>,
    views: Seq<SessionView<N>>,
    flow: Flow<N>,
    sp: Setpoint<N>,
    charging: bool,
    t: int,
)
    requires
        rounds_toward_zero(value, unit),
        is_ready(value, sc),
        is_moderate(value, sc, m),
        views_fit(value, sc, m, rows, views),
        flow.active.len() == sc.vehicles.len(),
        flow.applied.len() == rows.len(),
        is_number(flow.allowance),
        sp.session_index < rows.len(),
        sp.power_kw.finite(),
        in_pass(sp, charging),
        is_fit(value, unit, sc, m, flow.active, rows[sp.session_index as int] as int, t, 0),
        t < sc.rules.horizon_slots,
    ensures
        ({
            let end = apply_request(sc, rows, views, flow, sp, charging);
            let q = sp.session_index as int;
            &&& end.active.len() == sc.vehicles.len()
            &&& end.applied.len() == rows.len()
            &&& is_number(end.allowance)
            &&& is_fit(value, unit, sc, m, end.active, rows[q] as int, t, 1)
            &&& forall|k: int|
                #![trigger rows[k]]
                0 <= k < rows.len() && k != q ==> is_untouched(rows, flow, end, k)
        }),
{
    let q = sp.session_index as int;
    let row = rows[q] as int;
    assert(rows[q] < sc.vehicles.len());
    let s = flow.active[row]->0;
    lemma_served(value, unit, sc, m, row, s, views[q], sp, flow.allowance, charging, stay(sc, row, t));
    let kw = applied_power(
        s,
        views[q],
        sp.power_kw,
        sc.rules.slot_minutes,
        sc.rules.charge_efficiency,
        sc.rules.discharge_efficiency,
        flow.allowance,
    );
    lemma_still_numbers(value, unit, flow.allowance, kw);
    let end = apply_request(sc, rows, views, flow, sp, charging);
    assert forall|k: int| #![trigger rows[k]] 0 <= k < rows.len() && k != q implies is_untouched(
        rows,
        flow,
        end,
        k,
    ) by {
        assert(rows[k] != rows[q]);
    }
}

/// A pass over the requests before the last and the last one.
pub(crate) proof fn lemma_pass_last<N: Num>(
    sc: ScenarioModel<N>,
    rows: Seq<usize>,
    views: Seq<SessionView<N>>,
    start: Flow<N>,
    requests: Seq<Setpoint<N>>,
    p: nat,
    charging: bool,
)
    requires
        p < requests.len(),
    ensures
        pass(sc, rows, views, start, requests.take(p as int + 1), charging) == ({
            let flow = pass(sc, rows, views, start, requests.take(p as int), charging);
            if in_pass(requests[p as int], charging) {
                apply_request(sc, rows, views, flow, requests[p as int], charging)
            } else {
                flow
            }
        }),
{
    assert(requests.take(p as int + 1).drop_last() =~= requests.take(p as int));
    assert(requests.take(p as int + 1).last() == requests[p as int]);
}

pub(crate) proof fn lemma_pass_health<N: Num>(
    value: spec_fn(N) -> real,
    unit: real,
    sc: ScenarioModel<N>,
    m: real,
    rows: Seq<usize>,
    views: Seq<SessionView<N>>,
    start: Flow<N>,
    requests: Seq<Setpoint<N>>,
    n: nat,
    charging: bool,
    t: int,
    extra: spec_fn(int) -> int,
)
    requires
        rounds_toward_zero(value, unit),
        is_ready(value, sc),
        is_moderate(value, sc, m),
        are_for_shown(requests, rows.len()),
        asks_once(requests),
        views_fit(value, sc, m, rows, views),
        may_pass(value, unit, sc, m, rows, start, requests, charging, t, extra),
        n <= requests.len(),
        t < sc.rules.horizon_slots,
    ensures
        has_passed(
            value,
            unit,
            sc,
            m,
            rows,
            start,
            pass(sc, rows, views, start, requests.take(n as int), charging),
            requests,
            n,
            charging,
            t,
            extra,
        ),
    decreases n,
{
    if n == 0 {
        assert(requests.take(0) =~= Seq::empty());
    } else {
        let p = (n - 1) as nat;
        lemma_pass_health(value, unit, sc, m, rows, views, start, requests, p, charging, t, extra);
        lemma_pass_last(sc, rows, views, start, requests, p, charging);
        let flow = pass(sc, rows, views, start, requests.take(p as int), charging);
        let end = pass(sc, rows, views, start, requests.take(n as int), charging);
        lemma_one_more(value, unit, sc, m, rows, views, start, flow, end, requests, p, charging, t, extra);
    }
}

/// One more request of a pass.
proof fn lemma_one_more<N: Num>(
    value: spec_fn(N) -> real,
    unit: real,
    sc: ScenarioModel<N>,
    m: real,
    rows: Seq<usize>,
    views: Seq<SessionView<N>>,
    start: Flow<N>,
    flow: Flow<N>,
    end: Flow<N>,
    requests: Seq<Setpoint<N>>,
    p: nat,
    charging: bool,
    t: int,
    extra: spec_fn(int) -> int,
)
    requires
        rounds_toward_zero(value, unit),
        is_ready(value, sc),
        is_moderate(value, sc, m),
        are_for_shown(requests, rows.len()),
        asks_once(requests),
        views_fit(value, sc, m, rows, views),
        may_pass(value, unit, sc, m, rows, start, requests, charging, t, extra),
        p < requests.len(),
        t < sc.rules.horizon_slots,
        has_passed(value, unit, sc, m, rows, start, flow, requests, p, charging, t, extra),
        end == if in_pass(requests[p as int], charging) {
            apply_request(sc, rows, views, flow, requests[p as int], charging)
        } else {
            flow
        },
    ensures
        has_passed(value, unit, sc, m, rows, start, end, requests, p + 1, charging, t, extra),
{
    let sp = requests[p as int];
    let q = sp.session_index as int;
    assert(sp.session_index < rows.len() && sp.power_kw.finite());
    if in_pass(sp, charging) {
        lemma_not_served(requests, p, charging);
        assert(extra(q) == 0);
        assert(is_fit(value, unit, sc, m, start.active, rows[q] as int, t, extra(q)));
        assert(is_untouched(rows, start, flow, q));
        lemma_request_health(value, unit, sc, m, rows, views, flow, sp, charging, t);
    }
    assert forall|k: int| #![trigger rows[k]] 0 <= k < rows.len() implies if is_served(
        requests,
        p + 1,
        charging,
        k,
    ) {
        is_fit(value, unit, sc, m, end.active, rows[k] as int, t, 1)
    } else {
        is_untouched(rows, start, end, k)
    } by {
        lemma_served_next(requests, p, charging, k);
        if in_pass(sp, charging) && k != q {
            assert(is_untouched(rows, flow, end, k));
        }
    }
}

pub(crate) proof fn lemma_views_fit<N: Num>(
    value: spec_fn(N) -> real,
    unit: real,
    sc: ScenarioModel<N>,
    m: real,
    st: SiteModel<N>,
    from: int,
    past: int,
)
    requires
        rounds_toward_zero(value, unit),
        is_valid(sc),
        is_ready(value, sc),
        is_moderate(value, sc, m),
        is_sound(sc, st, from, past),
        sc.vehicles.len() <= usize::MAX,
    ensures
        views_fit(value, sc, m, shown_rows(sc, st), session_views(sc, st)),
{
    lemma_constants(value, unit);
    lemma_shown(sc, st);
    let rows = shown_rows(sc, st);
    let views = session_views(sc, st);
    assert forall|k: int|
        #![trigger rows[k]]
        0 <= k < rows.len() implies rows[k] < sc.vehicles.len() && views[k].vehicle
        == sc.vehicles[rows[k] as int] && is_limited(value, views[k], m) by {
        let row = rows[k] as int;
        assert(views[k] == session_view(sc, st, k, row));
        assert(is_plugged(sc, st, row));
        let v = sc.vehicles[row];
        let port = sc.chargers[st.active[row]->0.charger_index as int];
        assert(vehicle_is_finite(v));
        lemma_finite(value, unit, v.max_charge_kw);
        lemma_finite(value, unit, v.max_discharge_kw);
        lemma_finite(value, unit, port.max_kw);
        lemma_compare(value, unit, v.max_charge_kw, port.max_kw);
        lemma_compare(value, unit, v.max_discharge_kw, port.max_kw);
    }
}

/// Nothing has been served yet.
pub(crate) open spec fn none_served() -> spec_fn(int) -> int {
    |k: int| 0int
}

/// One more for each session that the charging pass served.
pub(crate) open spec fn charging_served<N: Num>(requests: Seq<Setpoint<N>>) -> spec_fn(int) -> int {
    |k: int| if is_served(requests, requests.len(), true, k) { 1int } else { 0int }
}

/// The discharging pass of a slot, before its first request.
pub(crate) open spec fn discharge_start<N: Num>(
    sc: ScenarioModel<N>,
    st: SiteModel<N>,
    slot: int,
    out: Seq<Setpoint<N>>,
) -> Flow<N> {
    let up = charged(sc, st, slot, out);
    Flow { total: zero_of(), allowance: sc.building[slot].plus(up.total), ..up }
}

/// The sessions that the discharging pass starts with.
proof fn lemma_second_pass<N: Num>(
    value: spec_fn(N) -> real,
    unit: real,
    sc: ScenarioModel<N>,
    m: real,
    rows: Seq<usize>,
    first: Flow<N>,
    second: Flow<N>,
    requests: Seq<Setpoint<N>>,
    t: int,
)
    requires
        rounds_toward_zero(value, unit),
        are_for_shown(requests, rows.len()),
        asks_once(requests),
        may_pass(value, unit, sc, m, rows, first, requests, true, t, none_served()),
        has_passed(
            value,
            unit,
            sc,
            m,
            rows,
            first,
            second,
            requests,
            requests.len(),
            true,
            t,
            none_served(),
        ),
    ensures
        may_pass(value, unit, sc, m, rows, second, requests, false, t, charging_served(requests)),
{
    let extra = charging_served(requests);
    assert forall|k: int| #![trigger rows[k]] 0 <= k < rows.len() implies is_fit(
        value,
        unit,
        sc,
        m,
        second.active,
        rows[k] as int,
        t,
        extra(k),
    ) by {
        assert(is_fit(value, unit, sc, m, first.active, rows[k] as int, t, 0));
    }
    assert forall|j: int|
        #![trigger requests[j]]
        0 <= j < requests.len() && in_pass(requests[j], false) implies extra(
        requests[j].session_index as int,
    ) == 0 by {
        lemma_other_pass(value, unit, requests, rows.len(), j);
    }
}

/// The sessions that the discharging pass leaves behind.
proof fn lemma_after_passes<N: Num>(
    value: spec_fn(N) -> real,
    unit: real,
    sc: ScenarioModel<N>,
    m: real,
    rows: Seq<usize>,
    second: Flow<N>,
    down: Flow<N>,
    requests: Seq<Setpoint<N>>,
    t: int,
    i: int,
)
    requires
        rounds_toward_zero(value, unit),
        is_ready(value, sc),
        0real <= m,
        may_pass(value, unit, sc, m, rows, second, requests, false, t, charging_served(requests)),
        has_passed(
            value,
            unit,
            sc,
            m,
            rows,
            second,
            down,
            requests,
            requests.len(),
            false,
            t,
            charging_served(requests),
        ),
        0 <= i <= usize::MAX,
        down.active[i] is Some ==> rows.contains(i as usize),
    ensures
        is_row_healthy(value, unit, sc, m, down.active, t + 1, i),
{
    if down.active[i] is Some {
        let k = choose|k: int| 0 <= k < rows.len() && rows[k] == i as usize;
        assert(rows[k] as int == i);
        assert(is_fit(value, unit, sc, m, second.active, i, t, charging_served(requests)(k)));
        if !is_served(requests, requests.len(), false, k) && charging_served(requests)(k) == 0 {
            lemma_healthy_later(value, unit, sc, m, i, down.active[i]->0, stay(sc, i, t));
        }
    }
}

/// A request belongs to one pass only.
proof fn lemma_other_pass<N: Num>(
    value: spec_fn(N) -> real,
    unit: real,
    requests: Seq<Setpoint<N>>,
    n: nat,
    j: int,
)
    requires
        rounds_toward_zero(value, unit),
        are_for_shown(requests, n),
        asks_once(requests),
        0 <= j < requests.len(),
        in_pass(requests[j], false),
    ensures
        !is_served(requests, requests.len(), true, requests[j].session_index as int),
{
    if is_served(requests, requests.len(), true, requests[j].session_index as int) {
        let i = choose|i: int|
            0 <= i < requests.len() && in_pass(#[trigger] requests[i], true) && requests[i].session_index
                == requests[j].session_index as int;
        assert(i == j);
        lemma_constants(value, unit);
        lemma_finite(value, unit, requests[j].power_kw);
        lemma_compare(value, unit, requests[j].power_kw, zero_of::<N>());
        lemma_compare(value, unit, zero_of::<N>(), requests[j].power_kw);
    }
}

/// The charging pass may hand out what the cap leaves above the building.
pub(crate) proof fn lemma_charge_allowance<N: Num>(
    value: spec_fn(N) -> real,
    unit: real,
    sc: ScenarioModel<N>,
    m: real,
    st: SiteModel<N>,
    t: int,
)
    requires
        rounds_toward_zero(value, unit),
        is_valid(sc),
        is_moderate(value, sc, m),
        0 <= t < sc.building.len(),
    ensures
        is_number(charge_start(sc, st, t).allowance),
        sc.rules.site_cap_kw matches Some(cap) ==> {
            let allowance = charge_start(sc, st, t).allowance;
            &&& allowance.finite()
            &&& value(allowance) == most(value(cap) - value(sc.building[t]), 0real)
        },
{
    lemma_constants(value, unit);
    let first = charge_start(sc, st, t);
    match sc.rules.site_cap_kw {
        Some(cap) => {
            let b = sc.building[t];
            assert(b.finite());
            let wide = (sc.vehicles.len() + 3) as real * m;
            lemma_wide(m, 2, sc.vehicles.len());
            lemma_closer_fits(value, value(cap) - value(b), wide);
            lemma_minus(value, unit, cap, b);
            lemma_finite(value, unit, cap.minus(b));
            lemma_compare(value, unit, cap.minus(b), zero_of::<N>());
            lemma_closer_fits(value, value(first.allowance), wide);
            lemma_fitting(value, unit, first.allowance);
        },
        None => {},
    }
}

/// The charging pass can do its work.
pub(crate) proof fn lemma_first_pass<N: Num>(
    value: spec_fn(N) -> real,
    unit: real,
    sc: ScenarioModel<N>,
    m: real,
    st: SiteModel<N>,
    requests: Seq<Setpoint<N>>,
    t: int,
)
    requires
        is_number(charge_start(sc, st, t).allowance),
        is_lawful(value, unit, sc, m, st, t),
        sc.vehicles.len() <= usize::MAX,
    ensures
        may_pass(
            value,
            unit,
            sc,
            m,
            shown_rows(sc, st),
            charge_start(sc, st, t),
            requests,
            true,
            t,
            none_served(),
        ),
{
    lemma_shown(sc, st);
    let rows = shown_rows(sc, st);
    let first = charge_start(sc, st, t);
    assert forall|k: int| #![trigger rows[k]] 0 <= k < rows.len() implies is_fit(
        value,
        unit,
        sc,
        m,
        first.active,
        rows[k] as int,
        t,
        none_served()(k),
    ) by {
        assert(is_row_healthy(value, unit, sc, m, st.active, t, rows[k] as int));
        assert(st.active[rows[k] as int] is Some);
    }
}

/// `k` powers of `m` kW each are no more than what the scenario's sums may reach.
pub(crate) proof fn lemma_wide(m: real, k: int, n: nat)
    requires
        0real <= m,
        0 <= k <= n + 3,
    ensures
        0real <= k as real * m <= (n + 3) as real * m,
        (k + 1) as real * m == k as real * m + m,
{
    let a = k as real;
    let b = (n + 3) as real;
    assert(0real <= a * m <= b * m) by (nonlinear_arith)
        requires
            0real <= a <= b,
            0real <= m,
    ;
    assert((k + 1) as real * m == a * m + m) by (nonlinear_arith)
        requires
            a == k as real,
    ;
}

// -------------------------------------------------------------- power sums

/// Every power lies within the limits of its session.
pub open spec fn are_within_limits<N: Num>(
    value: spec_fn(N) -> real,
    views: Seq<SessionView<N>>,
    applied: Seq<N>,
) -> bool {
    forall|k: int|
        #![trigger applied[k]]
        0 <= k < applied.len() ==> {
            let p = value(applied[k]);
            &&& p > 0real ==> p <= value(views[k].max_charge_kw)
            &&& p < 0real ==> 0real - p <= value(views[k].max_discharge_kw)
        }
}

/// The sessions that requests of this pass ask for have no power yet.
spec fn are_unserved<N: Num>(
    value: spec_fn(N) -> real,
    applied: Seq<N>,
    requests: Seq<Setpoint<N>>,
    charging: bool,
) -> bool {
    forall|j: int|
        #![trigger requests[j]]
        0 <= j < requests.len() && in_pass(requests[j], charging) ==> value(
            applied[requests[j].session_index as int],
        ) == 0real
}

/// What a pass does to the powers after `n` requests: the total grows by what
/// the allowance loses, never past it, and by what the sessions get.
spec fn has_handed_out<N: Num>(
    value: spec_fn(N) -> real,
    unit: real,
    sc: ScenarioModel<N>,
    m: real,
    views: Seq<SessionView<N>>,
    start: Flow<N>,
    end: Flow<N>,
    n: nat,
    charging: bool,
) -> bool {
    let handed = value(end.total);
    &&& end.total.finite()
    &&& 0real <= handed <= n as real * m
    &&& start.allowance.finite() ==> {
        &&& end.allowance.finite()
        &&& value(start.allowance) - value(end.allowance) == handed
        &&& value(start.allowance) >= 0real ==> value(end.allowance) >= 0real
        &&& value(start.allowance) < 0real ==> handed == 0real
    }
    &&& are_within_limits(value, views, end.applied)
    &&& sum(charging_part(value), end.applied) - sum(charging_part(value), start.applied) == if charging {
        handed
    } else {
        0real
    }
    &&& sum(discharging_part(value), end.applied) - sum(discharging_part(value), start.applied)
        == if charging {
        0real
    } else {
        handed
    }
    &&& is_booked(
        value,
        unit,
        sc,
        standing(value, end.active) - standing(value, start.active),
        handed,
        n,
        charging,
    )
}

/// What went into the sessions' books is the energy of the power handed out, up
/// to two units for each of `n` requests.
pub(crate) open spec fn is_booked<N: Num>(
    value: spec_fn(N) -> real,
    unit: real,
    sc: ScenarioModel<N>,
    booked: real,
    handed: real,
    n: nat,
    charging: bool,
) -> bool {
    let kwh = handed * value(sc.rules.slot_minutes) / 60real;
    let moved = if charging {
        booked
    } else {
        0real - booked
    };
    moved <= kwh <= moved + n as real * (2real * unit)
}

/// One more request goes into the books.
proof fn lemma_booked<N: Num>(
    value: spec_fn(N) -> real,
    unit: real,
    sc: ScenarioModel<N>,
    booked: real,
    handed: real,
    n: nat,
    charging: bool,
    more: real,
    p: real,
)
    requires
        is_booked(value, unit, sc, booked, handed, n, charging),
        ({
            let moved = if charging {
                more
            } else {
                0real - more
            };
            moved <= p * value(sc.rules.slot_minutes) / 60real <= moved + 2real * unit
        }),
    ensures
        is_booked(value, unit, sc, booked + more, handed + p, n + 1, charging),
{
    let d = value(sc.rules.slot_minutes);
    assert((handed + p) * d / 60real == handed * d / 60real + p * d / 60real) by (nonlinear_arith);
    lemma_slots(n, 2real * unit);
}

pub(crate) proof fn lemma_slots(n: nat, x: real)
    ensures
        0real * x == 0real,
        (n + 1) as real * x == n as real * x + x,
{
    assert((n + 1) as real * x == n as real * x + x) by (nonlinear_arith);
    assert(0real * x == 0real) by (nonlinear_arith);
}

/// One more request is handed its power.
proof fn lemma_hand_out<N: Num>(
    value: spec_fn(N) -> real,
    unit: real,
    sc: ScenarioModel<N>,
    m: real,
    flow: Flow<N>,
    kw: N,
    p: real,
    start: real,
    bounded: bool,
    n: nat,
    charging: bool,
)
    requires
        rounds_toward_zero(value, unit),
        is_moderate(value, sc, m),
        n < sc.vehicles.len(),
        flow.total.finite(),
        0real <= value(flow.total) <= n as real * m,
        kw.finite(),
        p == if charging {
            value(kw)
        } else {
            0real - value(kw)
        },
        0real <= p <= m,
        bounded ==> {
            &&& flow.allowance.finite()
            &&& p <= value(flow.allowance) || p == 0real
            &&& start - value(flow.allowance) == value(flow.total)
            &&& start >= 0real ==> value(flow.allowance) >= 0real
            &&& start < 0real ==> value(flow.total) == 0real
        },
    ensures
        ({
            let total = if charging {
                flow.total.plus(kw)
            } else {
                flow.total.minus(kw)
            };
            let allowance = if charging {
                flow.allowance.minus(kw)
            } else {
                flow.allowance.plus(kw)
            };
            &&& total.finite()
            &&& value(total) == value(flow.total) + p
            &&& 0real <= value(total) <= (n + 1) as real * m
            &&& bounded ==> {
                &&& allowance.finite()
                &&& start - value(allowance) == value(total)
                &&& start >= 0real ==> value(allowance) >= 0real
                &&& start < 0real ==> value(total) == 0real
            }
        }),
{
    lemma_wide(m, n as int, sc.vehicles.len());
    lemma_wide(m, n as int + 1, sc.vehicles.len());
    lemma_closer_fits(value, value(flow.total) + p, (sc.vehicles.len() + 3) as real * m);
    if charging {
        lemma_plus(value, unit, flow.total, kw);
    } else {
        lemma_minus(value, unit, flow.total, kw);
    }
    if bounded {
        lemma_finite(value, unit, flow.allowance);
        lemma_closer_fits(value, value(flow.allowance) - p, value(flow.allowance));
        if charging {
            lemma_minus(value, unit, flow.allowance, kw);
        } else {
            lemma_plus(value, unit, flow.allowance, kw);
        }
    }
}

proof fn lemma_pass_flows<N: Num>(
    value: spec_fn(N) -> real,
    unit: real,
    sc: ScenarioModel<N>,
    m: real,
    rows: Seq<usize>,
    views: Seq<SessionView<N>>,
    start: Flow<N>,
    requests: Seq<Setpoint<N>>,
    n: nat,
    charging: bool,
    t: int,
    extra: spec_fn(int) -> int,
)
    requires
        rounds_toward_zero(value, unit),
        is_ready(value, sc),
        is_moderate(value, sc, m),
        are_for_shown(requests, rows.len()),
        asks_once(requests),
        views_fit(value, sc, m, rows, views),
        may_pass(value, unit, sc, m, rows, start, requests, charging, t, extra),
        start.total == zero_of::<N>(),
        are_within_limits(value, views, start.applied),
        are_unserved(value, start.applied, requests, charging),
        n <= requests.len() <= sc.vehicles.len(),
        t < sc.rules.horizon_slots,
    ensures
        has_handed_out(
            value,
            unit,
            sc,
            m,
            views,
            start,
            pass(sc, rows, views, start, requests.take(n as int), charging),
            n,
            charging,
        ),
    decreases n,
{
    lemma_constants(value, unit);
    let end = pass(sc, rows, views, start, requests.take(n as int), charging);
    if n == 0 {
        assert(requests.take(0) =~= Seq::empty());
        lemma_wide(m, 0, sc.vehicles.len());
        lemma_slots(0, 2real * unit);
        assert(0real * value(sc.rules.slot_minutes) / 60real == 0real) by (nonlinear_arith);
    } else {
        let p = (n - 1) as nat;
        lemma_pass_flows(value, unit, sc, m, rows, views, start, requests, p, charging, t, extra);
        lemma_pass_health(value, unit, sc, m, rows, views, start, requests, p, charging, t, extra);
        lemma_pass_last(sc, rows, views, start, requests, p, charging);
        let flow = pass(sc, rows, views, start, requests.take(p as int), charging);
        let sp = requests[p as int];
        assert(sp.session_index < rows.len() && sp.power_kw.finite());
        lemma_wide(m, p as int, sc.vehicles.len());
        lemma_slots(p, 2real * unit);
        if in_pass(sp, charging) {
            let q = sp.session_index as int;
            lemma_not_served(requests, p, charging);
            assert(is_fit(value, unit, sc, m, start.active, rows[q] as int, t, extra(q)));
            assert(is_untouched(rows, start, flow, q));
            lemma_request_flows(value, unit, sc, m, rows, views, start, flow, sp, p, charging, t);
        } else {
            assert(end == flow);
        }
    }
}

/// One more request is served: what it gets, and what that does to the sums and
/// the books.
proof fn lemma_request_flows<N: Num>(
    value: spec_fn(N) -> real,
    unit: real,
    sc: ScenarioModel<N>,
    m: real,
    rows: Seq<usize>,
    views: Seq<SessionView<N>>,
    start: Flow<N>,
    flow: Flow<N>,
    sp: Setpoint<N>,
    p: nat,
    charging: bool,
    t: int,
)
    requires
        rounds_toward_zero(value, unit),
        is_ready(value, sc),
        is_moderate(value, sc, m),
        views_fit(value, sc, m, rows, views),
        flow.active.len() == sc.vehicles.len(),
        flow.applied.len() == rows.len(),
        is_number(flow.allowance),
        sp.session_index < rows.len(),
        sp.power_kw.finite(),
        in_pass(sp, charging),
        is_fit(value, unit, sc, m, flow.active, rows[sp.session_index as int] as int, t, 0),
        value(flow.applied[sp.session_index as int]) == 0real,
        p < sc.vehicles.len(),
        t < sc.rules.horizon_slots,
        has_handed_out(value, unit, sc, m, views, start, flow, p, charging),
    ensures
        has_handed_out(
            value,
            unit,
            sc,
            m,
            views,
            start,
            apply_request(sc, rows, views, flow, sp, charging),
            p + 1,
            charging,
        ),
{
    let q = sp.session_index as int;
    let row = rows[q] as int;
    assert(rows[q] < sc.vehicles.len());
    let s = flow.active[row]->0;
    lemma_served(value, unit, sc, m, row, s, views[q], sp, flow.allowance, charging, stay(sc, row, t));
    let kw = applied_power(
        s,
        views[q],
        sp.power_kw,
        sc.rules.slot_minutes,
        sc.rules.charge_efficiency,
        sc.rules.discharge_efficiency,
        flow.allowance,
    );
    let w = if charging {
        value(kw)
    } else {
        0real - value(kw)
    };
    let end = apply_request(sc, rows, views, flow, sp, charging);
    lemma_hand_out(
        value,
        unit,
        sc,
        m,
        flow,
        kw,
        w,
        value(start.allowance),
        start.allowance.finite(),
        p,
        charging,
    );
    lemma_standing_update(value, flow.active, row, end.active[row]);
    lemma_booked(
        value,
        unit,
        sc,
        standing(value, flow.active) - standing(value, start.active),
        value(flow.total),
        p,
        charging,
        net_draw(value, end.active[row]) - net_draw(value, flow.active[row]),
        w,
    );
    lemma_sum_update(charging_part(value), flow.applied, q, kw);
    lemma_sum_update(discharging_part(value), flow.applied, q, kw);
    lemma_limits_update(value, views, flow.applied, q, kw);
}

/// A power within its limits joins others that are.
proof fn lemma_limits_update<N: Num>(
    value: spec_fn(N) -> real,
    views: Seq<SessionView<N>>,
    applied: Seq<N>,
    q: int,
    kw: N,
)
    requires
        are_within_limits(value, views, applied),
        0 <= q < applied.len(),
        value(kw) > 0real ==> value(kw) <= value(views[q].max_charge_kw),
        value(kw) < 0real ==> 0real - value(kw) <= value(views[q].max_discharge_kw),
    ensures
        are_within_limits(value, views, applied.update(q, kw)),
{
    let next = applied.update(q, kw);
    assert forall|j: int| #![trigger next[j]] 0 <= j < next.len() implies {
        let x = value(next[j]);
        &&& x > 0real ==> x <= value(views[j].max_charge_kw)
        &&& x < 0real ==> 0real - x <= value(views[j].max_discharge_kw)
    } by {
        if j != q {
            assert(next[j] == applied[j]);
        }
    }
}

/// The next request's session has not been served yet.
pub(crate) proof fn lemma_not_served<N: Num>(requests: Seq<Setpoint<N>>, p: nat, charging: bool)
    requires
        asks_once(requests),
        p < requests.len(),
    ensures
        !is_served(requests, p, charging, requests[p as int].session_index as int),
{
    let q = requests[p as int].session_index as int;
    if is_served(requests, p, charging, q) {
        let j = choose|j: int|
            0 <= j < p && in_pass(#[trigger] requests[j], charging) && requests[j].session_index == q;
        assert(requests[j].session_index != requests[p as int].session_index);
    }
}

/// At most one request per shown session.
pub(crate) proof fn lemma_few_requests<N: Num>(requests: Seq<Setpoint<N>>, n: nat)
    requires
        asks_once(requests),
        are_for_shown(requests, n),
    ensures
        requests.len() <= n,
{
    let list = Seq::new(requests.len(), |j: int| requests[j].session_index as int);
    assert(list.no_duplicates()) by {
        assert forall|i: int, j: int| 0 <= i < list.len() && 0 <= j < list.len() && i != j implies list[i]
            != list[j] by {
            assert(requests[i].session_index != requests[j].session_index);
        }
    }
    assert forall|i: int| #[trigger] list.contains(i) implies 0 <= i < n by {
        let j = choose|j: int| 0 <= j < list.len() && list[j] == i;
        assert(requests[j].session_index < n);
    }
    lemma_few(list, n);
}

/// What holds of the power flows of a slot.
pub open spec fn is_lawful_record<N: Num>(
    value: spec_fn(N) -> real,
    sc: ScenarioModel<N>,
    rec: SlotRecord<N>,
) -> bool {
    let building = value(rec.building_kw);
    let net = value(rec.net_kw);
    &&& value(rec.ev_charge_kw) >= 0real
    &&& value(rec.ev_discharge_kw) >= 0real
    &&& net == building + value(rec.ev_charge_kw) - value(rec.ev_discharge_kw)
    &&& net >= 0real || net >= building
    &&& sc.rules.site_cap_kw matches Some(cap) ==> net <= value(cap) || net <= building
}

/// The powers of trace lines.
pub open spec fn powers<N: Num>(lines: Seq<TraceRecord<N>>) -> Seq<N> {
    Seq::new(lines.len(), |k: int| lines[k].power_kw)
}

/// What the passes of a slot come to.
pub(crate) open spec fn is_slot_lawful<N: Num>(
    value: spec_fn(N) -> real,
    unit: real,
    sc: ScenarioModel<N>,
    m: real,
    st: SiteModel<N>,
    t: int,
    out: Seq<Setpoint<N>>,
) -> bool {
    let rows = shown_rows(sc, st);
    let requests = requested(out, rows.len());
    let up = charged(sc, st, t, out);
    let down = discharged(sc, st, t, out);
    let rec = slot_record(sc, t, up.total, down.total);
    &&& requests.len() <= rows.len() <= sc.vehicles.len()
    &&& may_pass(
        value,
        unit,
        sc,
        m,
        rows,
        discharge_start(sc, st, t, out),
        requests,
        false,
        t,
        charging_served(requests),
    )
    &&& has_passed(
        value,
        unit,
        sc,
        m,
        rows,
        discharge_start(sc, st, t, out),
        down,
        requests,
        requests.len(),
        false,
        t,
        charging_served(requests),
    )
    &&& is_lawful_record(value, sc, rec)
    &&& are_within_limits(value, session_views(sc, st), down.applied)
    &&& value(rec.ev_charge_kw) == sum(charging_part(value), down.applied)
    &&& value(rec.ev_discharge_kw) == sum(discharging_part(value), down.applied)
    &&& is_near(
        standing(value, down.active) - standing(value, st.active),
        (value(rec.net_kw) - value(rec.building_kw)) * value(sc.rules.slot_minutes) / 60real,
        sc.vehicles.len() as real * (4real * unit),
    )
}

/// Two amounts differ by `slack` at most.
pub open spec fn is_near(a: real, b: real, slack: real) -> bool {
    0real - slack <= a - b <= slack
}

/// What both passes of a slot put into the books.
proof fn lemma_slot_books<N: Num>(
    value: spec_fn(N) -> real,
    unit: real,
    sc: ScenarioModel<N>,
    up: real,
    down: real,
    charge: real,
    discharge: real,
    n: nat,
)
    requires
        0real <= unit,
        is_booked(value, unit, sc, up, charge, n, true),
        is_booked(value, unit, sc, down, discharge, n, false),
        n <= sc.vehicles.len(),
    ensures
        is_near(
            up + down,
            (charge - discharge) * value(sc.rules.slot_minutes) / 60real,
            sc.vehicles.len() as real * (4real * unit),
        ),
{
    let d = value(sc.rules.slot_minutes);
    let v = sc.vehicles.len() as real;
    let k = n as real;
    assert((charge - discharge) * d / 60real == charge * d / 60real - discharge * d / 60real)
        by (nonlinear_arith);
    assert(k * (2real * unit) <= v * (4real * unit)) by (nonlinear_arith)
        requires
            0real <= k <= v,
            0real <= unit,
    ;
}

/// The net load of a slot is exact.
proof fn lemma_net<N: Num>(
    value: spec_fn(N) -> real,
    unit: real,
    sc: ScenarioModel<N>,
    m: real,
    t: int,
    charge: N,
    discharge: N,
)
    requires
        rounds_toward_zero(value, unit),
        is_valid(sc),
        is_moderate(value, sc, m),
        0 <= t < sc.building.len(),
        charge.finite(),
        0real <= value(charge) <= sc.vehicles.len() as real * m,
        discharge.finite(),
        0real <= value(discharge),
        value(sc.building[t]) + value(charge) >= 0real ==> value(discharge) <= value(sc.building[t])
            + value(charge),
        value(sc.building[t]) + value(charge) < 0real ==> value(discharge) == 0real,
    ensures
        sc.building[t].plus(charge).finite(),
        value(sc.building[t].plus(charge)) == value(sc.building[t]) + value(charge),
        value(slot_record(sc, t, charge, discharge).net_kw) == value(sc.building[t]) + value(charge) - value(
            discharge,
        ),
{
    let b = sc.building[t];
    assert(b.finite());
    lemma_building(value, unit, sc, m, t, charge);
    lemma_finite(value, unit, b.plus(charge));
    lemma_closer_fits(value, value(b.plus(charge)) - value(discharge), value(b.plus(charge)));
    lemma_minus(value, unit, b.plus(charge), discharge);
}

/// The load of building and charging together is exact.
proof fn lemma_building<N: Num>(
    value: spec_fn(N) -> real,
    unit: real,
    sc: ScenarioModel<N>,
    m: real,
    t: int,
    charge: N,
)
    requires
        rounds_toward_zero(value, unit),
        is_valid(sc),
        is_moderate(value, sc, m),
        0 <= t < sc.building.len(),
        charge.finite(),
        0real <= value(charge) <= sc.vehicles.len() as real * m,
    ensures
        sc.building[t].plus(charge).finite(),
        value(sc.building[t].plus(charge)) == value(sc.building[t]) + value(charge),
{
    let b = sc.building[t];
    assert(b.finite());
    let n = sc.vehicles.len();
    lemma_wide(m, n as int, n);
    lemma_wide(m, n as int + 1, n);
    lemma_closer_fits(value, value(b) + value(charge), (n + 3) as real * m);
    lemma_plus(value, unit, b, charge);
}

/// The requests of a slot are for shown sessions, each asked for once.
pub(crate) proof fn lemma_slot_requests<N: Num>(sc: ScenarioModel<N>, st: SiteModel<N>, out: Seq<Setpoint<N>>)
    requires
        sc.vehicles.len() <= usize::MAX,
    ensures
        ({
            let rows = shown_rows(sc, st);
            let requests = requested(out, rows.len());
            &&& are_for_shown(requests, rows.len())
            &&& asks_once(requests)
            &&& requests.len() <= rows.len() <= sc.vehicles.len()
            &&& requests.take(requests.len() as int) == requests
        }),
{
    let rows = shown_rows(sc, st);
    let requests = requested(out, rows.len());
    lemma_shown(sc, st);
    lemma_requested(out, rows.len());
    the_last_admissible_setpoint_counts(out, rows.len());
    lemma_few_requests(requests, rows.len());
    assert(requests.take(requests.len() as int) =~= requests);
}

/// What a pass of a slot has done.
#[verifier::opaque]
spec fn is_pass_done<N: Num>(
    value: spec_fn(N) -> real,
    unit: real,
    sc: ScenarioModel<N>,
    m: real,
    st: SiteModel<N>,
    start: Flow<N>,
    end: Flow<N>,
    requests: Seq<Setpoint<N>>,
    charging: bool,
    t: int,
    extra: spec_fn(int) -> int,
) -> bool {
    let rows = shown_rows(sc, st);
    let n = requests.len();
    &&& may_pass(value, unit, sc, m, rows, start, requests, charging, t, extra)
    &&& has_passed(value, unit, sc, m, rows, start, end, requests, n, charging, t, extra)
    &&& has_handed_out(value, unit, sc, m, session_views(sc, st), start, end, n, charging)
}

/// The charging pass of a slot.
proof fn lemma_charging_pass<N: Num>(
    value: spec_fn(N) -> real,
    unit: real,
    sc: ScenarioModel<N>,
    m: real,
    st: SiteModel<N>,
    t: int,
    out: Seq<Setpoint<N>>,
)
    requires
        rounds_toward_zero(value, unit),
        is_valid(sc),
        is_ready(value, sc),
        is_moderate(value, sc, m),
        is_sound(sc, st, t + 1, t),
        is_lawful(value, unit, sc, m, st, t),
        sc.vehicles.len() <= usize::MAX,
        0 <= t < sc.rules.horizon_slots,
        t < sc.building.len(),
    ensures
        ({
            let requests = requested(out, shown_rows(sc, st).len());
            let first = charge_start(sc, st, t);
            let up = charged(sc, st, t, out);
            &&& is_pass_done(value, unit, sc, m, st, first, up, requests, true, t, none_served())
            &&& sum(charging_part(value), first.applied) == 0real
            &&& sum(discharging_part(value), first.applied) == 0real
            &&& forall|k: int|
                0 <= k < shown_rows(sc, st).len() ==> value(#[trigger] first.applied[k]) == 0real
        }),
{
    reveal(is_pass_done);
    lemma_constants(value, unit);
    let rows = shown_rows(sc, st);
    let views = session_views(sc, st);
    let requests = requested(out, rows.len());
    lemma_slot_requests(sc, st, out);
    lemma_views_fit(value, unit, sc, m, st, t + 1, t);
    lemma_charge_allowance(value, unit, sc, m, st, t);
    lemma_first_pass(value, unit, sc, m, st, requests, t);
    let first = charge_start(sc, st, t);
    let n = requests.len();
    lemma_sum_zeros(charging_part(value), first.applied);
    lemma_sum_zeros(discharging_part(value), first.applied);
    lemma_pass_flows(value, unit, sc, m, rows, views, first, requests, n, true, t, none_served());
    lemma_pass_health(value, unit, sc, m, rows, views, first, requests, n, true, t, none_served());
}

/// The discharging pass of a slot, after its charging pass.
proof fn lemma_discharging_pass<N: Num>(
    value: spec_fn(N) -> real,
    unit: real,
    sc: ScenarioModel<N>,
    m: real,
    st: SiteModel<N>,
    t: int,
    out: Seq<Setpoint<N>>,
)
    requires
        rounds_toward_zero(value, unit),
        is_valid(sc),
        is_ready(value, sc),
        is_moderate(value, sc, m),
        is_sound(sc, st, t + 1, t),
        sc.vehicles.len() <= usize::MAX,
        0 <= t < sc.rules.horizon_slots,
        t < sc.building.len(),
        is_pass_done(
            value,
            unit,
            sc,
            m,
            st,
            charge_start(sc, st, t),
            charged(sc, st, t, out),
            requested(out, shown_rows(sc, st).len()),
            true,
            t,
            none_served(),
        ),
        forall|k: int|
            0 <= k < shown_rows(sc, st).len() ==> value(#[trigger] charge_start(sc, st, t).applied[k])
                == 0real,
    ensures
        ({
            let requests = requested(out, shown_rows(sc, st).len());
            let up = charged(sc, st, t, out);
            let second = discharge_start(sc, st, t, out);
            let down = discharged(sc, st, t, out);
            &&& is_pass_done(
                value,
                unit,
                sc,
                m,
                st,
                second,
                down,
                requests,
                false,
                t,
                charging_served(requests),
            )
            &&& second.allowance.finite()
            &&& value(second.allowance) == value(sc.building[t]) + value(up.total)
            &&& value(up.total) <= sc.vehicles.len() as real * m
        }),
{
    reveal(is_pass_done);
    lemma_constants(value, unit);
    let rows = shown_rows(sc, st);
    let views = session_views(sc, st);
    let requests = requested(out, rows.len());
    let n = requests.len();
    lemma_slot_requests(sc, st, out);
    lemma_views_fit(value, unit, sc, m, st, t + 1, t);
    let first = charge_start(sc, st, t);
    let up = charged(sc, st, t, out);
    lemma_fewer(m, n, sc.vehicles.len());
    lemma_building(value, unit, sc, m, t, up.total);
    let second = discharge_start(sc, st, t, out);
    lemma_finite(value, unit, second.allowance);
    assert(has_passed(value, unit, sc, m, rows, first, second, requests, n, true, t, none_served())) by {
        assert forall|k: int| #![trigger rows[k]] 0 <= k < rows.len() implies if is_served(
            requests,
            n,
            true,
            k,
        ) {
            is_fit(value, unit, sc, m, second.active, rows[k] as int, t, 1)
        } else {
            is_untouched(rows, first, second, k)
        } by {
            if !is_served(requests, n, true, k) {
                assert(is_untouched(rows, first, up, k));
            }
        }
    }
    lemma_second_pass(value, unit, sc, m, rows, first, second, requests, t);
    lemma_unserved_later(value, unit, sc, m, rows, first, second, requests, t);
    let extra = charging_served(requests);
    lemma_pass_flows(value, unit, sc, m, rows, views, second, requests, n, false, t, extra);
    lemma_pass_health(value, unit, sc, m, rows, views, second, requests, n, false, t, extra);
}

/// The discharging pass can do its work, and may offset at least the building.
pub(crate) proof fn lemma_discharge_start<N: Num>(
    value: spec_fn(N) -> real,
    unit: real,
    sc: ScenarioModel<N>,
    m: real,
    st: SiteModel<N>,
    t: int,
    out: Seq<Setpoint<N>>,
)
    requires
        rounds_toward_zero(value, unit),
        is_valid(sc),
        is_ready(value, sc),
        is_moderate(value, sc, m),
        is_sound(sc, st, t + 1, t),
        is_lawful(value, unit, sc, m, st, t),
        sc.vehicles.len() <= usize::MAX,
        0 <= t < sc.rules.horizon_slots,
        t < sc.building.len(),
    ensures
        ({
            let rows = shown_rows(sc, st);
            let requests = requested(out, rows.len());
            let second = discharge_start(sc, st, t, out);
            &&& may_pass(value, unit, sc, m, rows, second, requests, false, t, charging_served(requests))
            &&& second.allowance.finite()
            &&& value(sc.building[t]) <= value(second.allowance)
        }),
{
    lemma_charging_pass(value, unit, sc, m, st, t, out);
    lemma_discharging_pass(value, unit, sc, m, st, t, out);
    reveal(is_pass_done);
}

/// What both passes of a slot have done.
spec fn are_passes_done<N: Num>(
    value: spec_fn(N) -> real,
    unit: real,
    sc: ScenarioModel<N>,
    m: real,
    st: SiteModel<N>,
    t: int,
    out: Seq<Setpoint<N>>,
) -> bool {
    let requests = requested(out, shown_rows(sc, st).len());
    let first = charge_start(sc, st, t);
    let up = charged(sc, st, t, out);
    let second = discharge_start(sc, st, t, out);
    let down = discharged(sc, st, t, out);
    &&& is_pass_done(value, unit, sc, m, st, first, up, requests, true, t, none_served())
    &&& sum(charging_part(value), first.applied) == 0real
    &&& sum(discharging_part(value), first.applied) == 0real
    &&& is_pass_done(value, unit, sc, m, st, second, down, requests, false, t, charging_served(requests))
    &&& second.allowance.finite()
    &&& value(second.allowance) == value(sc.building[t]) + value(up.total)
    &&& value(up.total) <= sc.vehicles.len() as real * m
}

/// The net load of a slot.
proof fn lemma_slot_net<N: Num>(
    value: spec_fn(N) -> real,
    unit: real,
    sc: ScenarioModel<N>,
    m: real,
    st: SiteModel<N>,
    t: int,
    out: Seq<Setpoint<N>>,
)
    requires
        rounds_toward_zero(value, unit),
        is_valid(sc),
        is_moderate(value, sc, m),
        sc.vehicles.len() <= usize::MAX,
        0 <= t < sc.building.len(),
        are_passes_done(value, unit, sc, m, st, t, out),
    ensures
        ({
            let rec = slot_record(sc, t, charged(sc, st, t, out).total, discharged(sc, st, t, out).total);
            let net = value(rec.building_kw) + value(rec.ev_charge_kw) - value(rec.ev_discharge_kw);
            &&& value(rec.net_kw) == net
            &&& 0real <= value(rec.ev_charge_kw)
            &&& 0real <= value(rec.ev_discharge_kw)
            &&& net >= 0real || net >= value(rec.building_kw)
        }),
{
    reveal(is_pass_done);
    lemma_constants(value, unit);
    lemma_net(
        value,
        unit,
        sc,
        m,
        t,
        charged(sc, st, t, out).total,
        discharged(sc, st, t, out).total,
    );
}

/// Charging keeps to the site cap.
proof fn lemma_slot_cap<N: Num>(
    value: spec_fn(N) -> real,
    unit: real,
    sc: ScenarioModel<N>,
    m: real,
    st: SiteModel<N>,
    t: int,
    out: Seq<Setpoint<N>>,
)
    requires
        rounds_toward_zero(value, unit),
        is_valid(sc),
        is_moderate(value, sc, m),
        sc.vehicles.len() <= usize::MAX,
        0 <= t < sc.building.len(),
        are_passes_done(value, unit, sc, m, st, t, out),
    ensures
        ({
            let charge = value(charged(sc, st, t, out).total);
            sc.rules.site_cap_kw matches Some(cap) ==> value(sc.building[t]) + charge <= value(cap) || charge
                == 0real
        }),
{
    reveal(is_pass_done);
    lemma_charge_allowance(value, unit, sc, m, st, t);
}

/// The powers of a slot add up to its record.
proof fn lemma_slot_sums<N: Num>(
    value: spec_fn(N) -> real,
    unit: real,
    sc: ScenarioModel<N>,
    m: real,
    st: SiteModel<N>,
    t: int,
    out: Seq<Setpoint<N>>,
)
    requires
        rounds_toward_zero(value, unit),
        is_valid(sc),
        is_moderate(value, sc, m),
        sc.vehicles.len() <= usize::MAX,
        0 <= t < sc.building.len(),
        are_passes_done(value, unit, sc, m, st, t, out),
    ensures
        ({
            let up = charged(sc, st, t, out);
            let down = discharged(sc, st, t, out);
            &&& are_within_limits(value, session_views(sc, st), down.applied)
            &&& value(up.total) == sum(charging_part(value), down.applied)
            &&& value(down.total) == sum(discharging_part(value), down.applied)
        }),
{
    reveal(is_pass_done);
}

/// What a slot puts into the books.
proof fn lemma_slot_booked<N: Num>(
    value: spec_fn(N) -> real,
    unit: real,
    sc: ScenarioModel<N>,
    m: real,
    st: SiteModel<N>,
    t: int,
    out: Seq<Setpoint<N>>,
)
    requires
        rounds_toward_zero(value, unit),
        is_valid(sc),
        is_moderate(value, sc, m),
        sc.vehicles.len() <= usize::MAX,
        0 <= t < sc.building.len(),
        are_passes_done(value, unit, sc, m, st, t, out),
    ensures
        is_near(
            standing(value, discharged(sc, st, t, out).active) - standing(value, st.active),
            (value(charged(sc, st, t, out).total) - value(discharged(sc, st, t, out).total)) * value(
                sc.rules.slot_minutes,
            ) / 60real,
            sc.vehicles.len() as real * (4real * unit),
        ),
{
    reveal(is_pass_done);
    lemma_constants(value, unit);
    lemma_slot_requests(sc, st, out);
    let up = charged(sc, st, t, out);
    let down = discharged(sc, st, t, out);
    lemma_slot_books(
        value,
        unit,
        sc,
        standing(value, up.active) - standing(value, st.active),
        standing(value, down.active) - standing(value, up.active),
        value(up.total),
        value(down.total),
        requested(out, shown_rows(sc, st).len()).len(),
    );
}

/// The sessions that the passes of a slot start with and leave behind.
proof fn lemma_slot_sessions<N: Num>(
    value: spec_fn(N) -> real,
    unit: real,
    sc: ScenarioModel<N>,
    m: real,
    st: SiteModel<N>,
    t: int,
    out: Seq<Setpoint<N>>,
)
    requires
        rounds_toward_zero(value, unit),
        is_valid(sc),
        is_moderate(value, sc, m),
        sc.vehicles.len() <= usize::MAX,
        0 <= t < sc.building.len(),
        are_passes_done(value, unit, sc, m, st, t, out),
    ensures
        ({
            let rows = shown_rows(sc, st);
            let requests = requested(out, rows.len());
            let second = discharge_start(sc, st, t, out);
            let extra = charging_served(requests);
            &&& requests.len() <= rows.len() <= sc.vehicles.len()
            &&& may_pass(value, unit, sc, m, rows, second, requests, false, t, extra)
            &&& has_passed(
                value,
                unit,
                sc,
                m,
                rows,
                second,
                discharged(sc, st, t, out),
                requests,
                requests.len(),
                false,
                t,
                extra,
            )
        }),
{
    reveal(is_pass_done);
    lemma_slot_requests(sc, st, out);
}

/// Both passes of a slot.
proof fn lemma_slot_passes<N: Num>(
    value: spec_fn(N) -> real,
    unit: real,
    sc: ScenarioModel<N>,
    m: real,
    st: SiteModel<N>,
    t: int,
    out: Seq<Setpoint<N>>,
)
    requires
        rounds_toward_zero(value, unit),
        is_valid(sc),
        is_moderate(value, sc, m),
        is_sound(sc, st, t + 1, t),
        is_lawful(value, unit, sc, m, st, t),
        sc.vehicles.len() <= usize::MAX,
        0 <= t < sc.rules.horizon_slots,
        t < sc.building.len(),
    ensures
        are_passes_done(value, unit, sc, m, st, t, out),
{
    lemma_ready(value, unit, sc, m);
    lemma_charging_pass(value, unit, sc, m, st, t, out);
    lemma_discharging_pass(value, unit, sc, m, st, t, out);
}

/// One slot: the record is lawful, the sessions' powers are within their limits
/// and add up to the record's charging and discharging.
pub(crate) proof fn lemma_slot_flows<N: Num>(
    value: spec_fn(N) -> real,
    unit: real,
    sc: ScenarioModel<N>,
    m: real,
    st: SiteModel<N>,
    t: int,
    out: Seq<Setpoint<N>>,
)
    requires
        rounds_toward_zero(value, unit),
        is_valid(sc),
        is_moderate(value, sc, m),
        is_sound(sc, st, t + 1, t),
        is_lawful(value, unit, sc, m, st, t),
        sc.vehicles.len() <= usize::MAX,
        0 <= t < sc.rules.horizon_slots,
        t < sc.building.len(),
    ensures
        is_slot_lawful(value, unit, sc, m, st, t, out),
{
    lemma_slot_passes(value, unit, sc, m, st, t, out);
    lemma_slot_net(value, unit, sc, m, st, t, out);
    lemma_slot_cap(value, unit, sc, m, st, t, out);
    lemma_slot_sums(value, unit, sc, m, st, t, out);
    lemma_slot_booked(value, unit, sc, m, st, t, out);
    lemma_slot_sessions(value, unit, sc, m, st, t, out);
}

proof fn lemma_fewer(m: real, k: nat, n: nat)
    requires
        0real <= m,
        k <= n,
    ensures
        k as real * m <= n as real * m,
{
    assert(k as real * m <= n as real * m) by (nonlinear_arith)
        requires
            0real <= m,
            k as real <= n as real,
    ;
}

/// The charging pass gives no power to the sessions of the discharging pass.
proof fn lemma_unserved_later<N: Num>(
    value: spec_fn(N) -> real,
    unit: real,
    sc: ScenarioModel<N>,
    m: real,
    rows: Seq<usize>,
    first: Flow<N>,
    second: Flow<N>,
    requests: Seq<Setpoint<N>>,
    t: int,
)
    requires
        rounds_toward_zero(value, unit),
        are_for_shown(requests, rows.len()),
        asks_once(requests),
        forall|k: int| 0 <= k < rows.len() ==> value(#[trigger] first.applied[k]) == 0real,
        has_passed(
            value,
            unit,
            sc,
            m,
            rows,
            first,
            second,
            requests,
            requests.len(),
            true,
            t,
            none_served(),
        ),
    ensures
        are_unserved(value, second.applied, requests, false),
{
    assert forall|j: int|
        #![trigger requests[j]]
        0 <= j < requests.len() && in_pass(requests[j], false) implies value(
        second.applied[requests[j].session_index as int],
    ) == 0real by {
        lemma_other_pass(value, unit, requests, rows.len(), j);
        let k = requests[j].session_index as int;
        assert(requests[j].session_index < rows.len());
        assert(rows[k] <= usize::MAX);
        assert(second.applied[k] == first.applied[k]);
    }
}

/// What a slot leaves behind is lawful.
proof fn lemma_lawful_dispatch<N: Num>(
    value: spec_fn(N) -> real,
    unit: real,
    sc: ScenarioModel<N>,
    m: real,
    st: SiteModel<N>,
    t: int,
    out: Seq<Setpoint<N>>,
)
    requires
        rounds_toward_zero(value, unit),
        is_valid(sc),
        is_moderate(value, sc, m),
        is_sound(sc, st, t + 1, t),
        is_lawful(value, unit, sc, m, st, t),
        sc.vehicles.len() <= usize::MAX,
        0 <= t < sc.rules.horizon_slots,
        t < sc.building.len(),
    ensures
        is_lawful(value, unit, sc, m, dispatched(sc, st, t, out), t + 1),
{
    lemma_ready(value, unit, sc, m);
    lemma_slot_flows(value, unit, sc, m, st, t, out);
    lemma_dispatched(sc, st, t, out, t + 1, t);
    lemma_shown(sc, st);
    let rows = shown_rows(sc, st);
    let requests = requested(out, rows.len());
    let next = dispatched(sc, st, t, out);
    let down = discharged(sc, st, t, out);
    assert forall|i: int| 0 <= i < next.active.len() implies #[trigger] is_row_healthy(
        value,
        unit,
        sc,
        m,
        next.active,
        t + 1,
        i,
    ) by {
        if down.active[i] is Some {
            assert(st.active[i] is Some);
            assert(rows.contains(i as usize));
        }
        lemma_after_passes(
            value,
            unit,
            sc,
            m,
            rows,
            discharge_start(sc, st, t, out),
            down,
            requests,
            t,
            i,
        );
    }
}

// -------------------------------------------------------------------- laws

/// In every slot of every run over a valid scenario, whatever the policy
/// answers, each battery is between its floor and its ceiling, and what a session
/// drew times the charging efficiency, less what it exported over the discharging
/// efficiency, is what its battery gained since arrival, up to a unit for each
/// slot. The same holds of every reported session.
pub proof fn batteries_stay_in_range_and_energy_is_conserved<N: Num>(
    value: spec_fn(N) -> real,
    unit: real,
    sc: ScenarioModel<N>,
    m: real,
    decisions: Seq<Seq<Setpoint<N>>>,
    t: nat,
)
    requires
        rounds_toward_zero(value, unit),
        is_valid(sc),
        is_moderate(value, sc, m),
        sc.vehicles.len() <= usize::MAX,
        sc.chargers.len() <= usize::MAX,
        t <= sc.rules.horizon_slots,
        t <= sc.building.len(),
    ensures
        is_lawful(value, unit, sc, m, site_at(sc, decisions, t), t as int),
        is_lawful(value, unit, sc, m, boarded(sc, site_at(sc, decisions, t), t as int), t as int),
    decreases t,
{
    lemma_constants(value, unit);
    lemma_ready(value, unit, sc, m);
    lemma_arrival_order(sc);
    let order = arrival_order(sc.vehicles);
    if t == 0 {
        let st = opening(sc);
        assert forall|i: int| 0 <= i < sc.vehicles.len() implies is_in_range(
            value,
            sc.vehicles[i],
            #[trigger] st.arrival_soc[i],
        ) by {
            assert(is_usable(value, sc, sc.vehicles[i]));
        }
    } else {
        let before = (t - 1) as nat;
        batteries_stay_in_range_and_energy_is_conserved(value, unit, sc, m, decisions, before);
        the_site_is_sound_in_every_slot(sc, decisions, before);
        let st = boarded(sc, site_at(sc, decisions, before), t - 1);
        lemma_lawful_dispatch(value, unit, sc, m, st, t - 1, decisions[t - 1]);
    }
    let st = site_at(sc, decisions, t);
    the_site_is_sound_in_every_slot(sc, decisions, t);
    let left = depart(sc, st, t as int, sc.vehicles.len());
    lemma_depart(sc, st, t as int, sc.vehicles.len());
    lemma_arrive(sc, left, t as int, order, (t + 1) as int, t as int);
    lemma_lawful_depart(value, unit, sc, m, st, t as int, sc.vehicles.len());
    lemma_lawful_arrive(value, unit, sc, m, left, t as int, order);
    lemma_lawful_assign(value, unit, sc, m, arrive(sc, left, t as int, order), t as int, order);
}

/// In every slot of every run over a valid scenario, whatever the policy
/// answers: charging and discharging are non-negative, the net load is the
/// building's load plus charging less discharging, the site never exports (the
/// net load is negative only where the building's own load is, and then not below
/// it), and never exceeds the cap through charging (the net load is above the cap
/// only where the building's own load is, and then not above it). Charging and
/// discharging are the sums of the slot's trace lines, and each of these is within
/// the limits of its session and port.
pub proof fn the_site_neither_exports_nor_exceeds_its_cap<N: Num>(
    value: spec_fn(N) -> real,
    unit: real,
    sc: ScenarioModel<N>,
    m: real,
    decisions: Seq<Seq<Setpoint<N>>>,
    t: nat,
)
    requires
        rounds_toward_zero(value, unit),
        is_valid(sc),
        is_moderate(value, sc, m),
        sc.vehicles.len() <= usize::MAX,
        sc.chargers.len() <= usize::MAX,
        t < sc.rules.horizon_slots,
        t < sc.building.len(),
    ensures
        ({
            let st = boarded(sc, site_at(sc, decisions, t), t as int);
            let next = site_at(sc, decisions, (t + 1) as nat);
            let rec = next.slots.last();
            let lines = next.trace.skip(st.trace.len() as int);
            &&& is_lawful_record(value, sc, rec)
            &&& value(rec.ev_charge_kw) == sum(charging_part(value), powers(lines))
            &&& value(rec.ev_discharge_kw) == sum(discharging_part(value), powers(lines))
            &&& are_within_limits(value, session_views(sc, st), powers(lines))
        }),
{
    lemma_ready(value, unit, sc, m);
    the_site_is_sound_in_every_slot(sc, decisions, t);
    batteries_stay_in_range_and_energy_is_conserved(value, unit, sc, m, decisions, t);
    let st = boarded(sc, site_at(sc, decisions, t), t as int);
    let out = decisions[t as int];
    lemma_slot_flows(value, unit, sc, m, st, t as int, out);
    let next = dispatched(sc, st, t as int, out);
    let down = discharged(sc, st, t as int, out);
    let lines = next.trace.skip(st.trace.len() as int);
    assert(powers(lines) =~= down.applied);
}

/// A run has one record per slot, in order, with the building load, price and
/// class of that slot.
pub proof fn every_slot_is_recorded_once<N: Num>(
    sc: ScenarioModel<N>,
    decisions: Seq<Seq<Setpoint<N>>>,
    n: nat,
)
    requires
        n <= usize::MAX,
    ensures
        site_at(sc, decisions, n).slots.len() == n,
        forall|t: int|
            0 <= t < n ==> {
                let rec = #[trigger] site_at(sc, decisions, n).slots[t];
                &&& rec.slot == t
                &&& rec.building_kw == sc.building[t]
                &&& rec.price_usd_per_kwh == sc.price[t]
                &&& rec.tou == sc.tou[t]
                &&& rec.net_kw == rec.building_kw.plus(rec.ev_charge_kw).minus(rec.ev_discharge_kw)
            },
    decreases n,
{
    if n > 0 {
        let p = (n - 1) as nat;
        every_slot_is_recorded_once(sc, decisions, p);
        let before = site_at(sc, decisions, p);
        let next = site_at(sc, decisions, n);
        lemma_boarding_keeps_records(sc, before, p as int);
        assert forall|t: int| 0 <= t < n implies {
            let rec = #[trigger] next.slots[t];
            &&& rec.slot == t
            &&& rec.building_kw == sc.building[t]
            &&& rec.price_usd_per_kwh == sc.price[t]
            &&& rec.tou == sc.tou[t]
            &&& rec.net_kw == rec.building_kw.plus(rec.ev_charge_kw).minus(rec.ev_discharge_kw)
        } by {
            if t < p {
                assert(next.slots[t] == before.slots[t]);
            }
        }
    }
}

/// All records of a run are lawful: see
/// [`the_site_neither_exports_nor_exceeds_its_cap`].
pub proof fn every_record_is_lawful<N: Num>(
    value: spec_fn(N) -> real,
    unit: real,
    sc: ScenarioModel<N>,
    m: real,
    decisions: Seq<Seq<Setpoint<N>>>,
    n: nat,
)
    requires
        rounds_toward_zero(value, unit),
        is_valid(sc),
        is_moderate(value, sc, m),
        sc.vehicles.len() <= usize::MAX,
        sc.chargers.len() <= usize::MAX,
        n <= sc.rules.horizon_slots,
        n <= sc.building.len(),
    ensures
        forall|t: int|
            0 <= t < site_at(sc, decisions, n).slots.len() ==> is_lawful_record(
                value,
                sc,
                #[trigger] site_at(sc, decisions, n).slots[t],
            ),
    decreases n,
{
    if n > 0 {
        let p = (n - 1) as nat;
        every_record_is_lawful(value, unit, sc, m, decisions, p);
        the_site_neither_exports_nor_exceeds_its_cap(value, unit, sc, m, decisions, p);
        let before = site_at(sc, decisions, p);
        let next = site_at(sc, decisions, n);
        lemma_boarding_keeps_records(sc, before, p as int);
        assert forall|t: int| 0 <= t < next.slots.len() implies is_lawful_record(
            value,
            sc,
            #[trigger] next.slots[t],
        ) by {
            if t < before.slots.len() {
                assert(next.slots[t] == before.slots[t]);
            } else {
                assert(next.slots[t] == next.slots.last());
            }
        }
    }
}

/// Departures, arrivals and assignment leave records and trace alone.
pub(crate) proof fn lemma_boarding_keeps_records<N: Num>(sc: ScenarioModel<N>, st: SiteModel<N>, slot: int)
    ensures
        boarded(sc, st, slot).slots == st.slots,
        boarded(sc, st, slot).trace == st.trace,
{
    let order = arrival_order(sc.vehicles);
    lemma_depart_keeps(sc, st, slot, sc.vehicles.len());
    let left = depart(sc, st, slot, sc.vehicles.len());
    lemma_arrive_keeps(sc, left, slot, order);
    lemma_assign_keeps(sc, arrive(sc, left, slot, order), slot, order);
}

proof fn lemma_depart_keeps<N: Num>(sc: ScenarioModel<N>, st: SiteModel<N>, slot: int, n: nat)
    ensures
        depart(sc, st, slot, n).slots == st.slots,
        depart(sc, st, slot, n).trace == st.trace,
    decreases n,
{
    if n > 0 {
        lemma_depart_keeps(sc, st, slot, (n - 1) as nat);
    }
}

proof fn lemma_arrive_keeps<N: Num>(sc: ScenarioModel<N>, st: SiteModel<N>, slot: int, order: Seq<usize>)
    ensures
        arrive(sc, st, slot, order).slots == st.slots,
        arrive(sc, st, slot, order).trace == st.trace,
    decreases order.len(),
{
    if order.len() > 0 {
        lemma_arrive_keeps(sc, st, slot, order.drop_last());
    }
}

proof fn lemma_assign_keeps<N: Num>(sc: ScenarioModel<N>, st: SiteModel<N>, slot: int, order: Seq<usize>)
    ensures
        assign(sc, st, slot, order).slots == st.slots,
        assign(sc, st, slot, order).trace == st.trace,
    decreases order.len(),
{
    if order.len() > 0 {
        lemma_assign_keeps(sc, st, slot, order.drop_last());
    }
}

/// In every slot of every run, no two trace lines name the same port.
pub proof fn ports_serve_one_session_at_a_time<N: Num>(
    sc: ScenarioModel<N>,
    decisions: Seq<Seq<Setpoint<N>>>,
    t: nat,
)
    requires
        sessions_run_forward(sc),
        charger_ids_are_unique(sc.chargers),
        sc.vehicles.len() <= usize::MAX,
        sc.chargers.len() <= usize::MAX,
    ensures
        ({
            let st = boarded(sc, site_at(sc, decisions, t), t as int);
            let lines = site_at(sc, decisions, (t + 1) as nat).trace.skip(st.trace.len() as int);
            forall|j: int, k: int|
                #![trigger lines[j], lines[k]]
                0 <= j < lines.len() && 0 <= k < lines.len() && j != k ==> lines[j].charger_id
                    != lines[k].charger_id
        }),
{
    the_site_is_sound_in_every_slot(sc, decisions, t);
    let st = boarded(sc, site_at(sc, decisions, t), t as int);
    let out = decisions[t as int];
    lemma_dispatched(sc, st, t as int, out, t as int + 1, t as int);
    lemma_shown(sc, st);
    let rows = shown_rows(sc, st);
    let down = discharged(sc, st, t as int, out);
    let next = dispatched(sc, st, t as int, out);
    let lines = next.trace.skip(st.trace.len() as int);
    assert forall|j: int, k: int|
        #![trigger lines[j], lines[k]]
        0 <= j < lines.len() && 0 <= k < lines.len() && j != k implies lines[j].charger_id
        != lines[k].charger_id by {
        assert(lines[j] == trace_line(sc, rows, down, t as int, j));
        assert(lines[k] == trace_line(sc, rows, down, t as int, k));
        let a = rows[j] as int;
        let b = rows[k] as int;
        assert(rows[j] != rows[k]);
        assert(st.active[a] is Some && st.active[b] is Some);
        assert(is_plugged(sc, st, a));
        assert(is_plugged(sc, st, b));
        assert(down.active[a] is Some && down.active[b] is Some);
        assert(st.active[a]->0.charger_index != st.active[b]->0.charger_index);
        let c = st.active[a]->0.charger_index as int;
        let d = st.active[b]->0.charger_index as int;
        assert(sc.chargers[c].charger_id != sc.chargers[d].charger_id);
    }
}

} // verus!
