//! Dispatch, seen from one session: what a policy last asked of it is what it gets, as
//! far as its limits and the site's allowance go, whatever the others are asked.

use vstd::prelude::*;

use crate::flows::{
    asks_once, charging_served, discharge_start, is_fit, is_last_word, is_untouched, lemma_charge_allowance,
    lemma_discharge_start, lemma_first_pass, lemma_not_served, lemma_pass_health, lemma_pass_last, lemma_served,
    lemma_slot_requests, lemma_views_fit, may_pass, none_served, the_last_admissible_setpoint_counts, views_fit,
};
use crate::num::{zero_of, Num};
use crate::physics::{discharging_respects_its_limits, is_lawful, is_moderate, is_ready, is_usable, stay};
use crate::rounding::{
    has_infinity, lemma_closer_fits, lemma_compare, lemma_constants, lemma_finite, lemma_negated, lemma_plus,
    rounds_toward_zero,
};
use crate::scenario::ScenarioModel;
use crate::site::{
    after_setpoint, applied_power, apply_request, charge_start, discharge_power, dispatched, in_pass, is_admissible,
    pass, requested, session_views, shown_rows, Flow, SiteModel,
};
use crate::soundness::{are_for_shown, is_sound, lemma_shown};
use crate::state::{SessionView, Setpoint};
use crate::validation::is_valid;

verus! {

// -------------------------------------------------------------------- sums

/// What `f` adds up to below `n`.
pub open spec fn total(f: spec_fn(int) -> real, n: nat) -> real
    decreases n,
{
    if n == 0 {
        0real
    } else {
        total(f, (n - 1) as nat) + f(n - 1)
    }
}

/// What `f` adds up to over a list.
pub open spec fn part(f: spec_fn(int) -> real, list: Seq<usize>) -> real
    decreases list.len(),
{
    if list.len() == 0 {
        0real
    } else {
        part(f, list.drop_last()) + f(list.last() as int)
    }
}

/// `f` without its value at `x`.
spec fn cleared(f: spec_fn(int) -> real, x: int) -> spec_fn(int) -> real {
    |k: int|
        if k == x {
            0real
        } else {
            f(k)
        }
}

proof fn lemma_total_cleared(f: spec_fn(int) -> real, x: int, n: nat)
    requires
        0 <= x,
    ensures
        total(cleared(f, x), n) == total(f, n) - if x < n {
            f(x)
        } else {
            0real
        },
    decreases n,
{
    if n > 0 {
        lemma_total_cleared(f, x, (n - 1) as nat);
    }
}

proof fn lemma_part_cleared(f: spec_fn(int) -> real, x: int, list: Seq<usize>)
    requires
        forall|j: int| 0 <= j < list.len() ==> #[trigger] list[j] != x,
    ensures
        part(cleared(f, x), list) == part(f, list),
    decreases list.len(),
{
    if list.len() > 0 {
        let rest = list.drop_last();
        assert forall|j: int| 0 <= j < rest.len() implies #[trigger] rest[j] != x by {
            assert(rest[j] == list[j]);
        }
        lemma_part_cleared(f, x, rest);
        assert(list[list.len() - 1] != x);
    }
}

proof fn lemma_total_sign(f: spec_fn(int) -> real, n: nat)
    requires
        forall|k: int| 0 <= k < n ==> 0real <= #[trigger] f(k),
    ensures
        0real <= total(f, n),
    decreases n,
{
    if n > 0 {
        lemma_total_sign(f, (n - 1) as nat);
        assert(0real <= f(n - 1));
    }
}

/// Distinct entries of a list add up to no more than all of them.
pub(crate) proof fn lemma_part(f: spec_fn(int) -> real, list: Seq<usize>, n: nat)
    requires
        forall|k: int| 0 <= k < n ==> 0real <= #[trigger] f(k),
        list.no_duplicates(),
        forall|j: int| 0 <= j < list.len() ==> #[trigger] list[j] < n,
    ensures
        0real <= part(f, list) <= total(f, n),
    decreases list.len(),
{
    if list.len() == 0 {
        lemma_total_sign(f, n);
    } else {
        let rest = list.drop_last();
        let x = list.last() as int;
        let g = cleared(f, x);
        assert(list[list.len() - 1] < n);
        assert forall|j: int| 0 <= j < rest.len() implies #[trigger] rest[j] < n by {
            assert(rest[j] == list[j]);
        }
        assert forall|j: int| 0 <= j < rest.len() implies #[trigger] rest[j] != x by {
            assert(rest[j] == list[j]);
            assert(list[j] != list[list.len() - 1]);
        }
        assert forall|k: int| 0 <= k < n implies 0real <= #[trigger] g(k) by {
            assert(0real <= f(k));
        }
        lemma_part(g, rest, n);
        lemma_part_cleared(f, x, rest);
        lemma_total_cleared(f, x, n);
        assert(0real <= f(x));
    }
}

/// So do they with one more.
pub(crate) proof fn lemma_part_and(f: spec_fn(int) -> real, list: Seq<usize>, n: nat, k: usize)
    requires
        forall|k: int| 0 <= k < n ==> 0real <= #[trigger] f(k),
        list.no_duplicates(),
        forall|j: int| 0 <= j < list.len() ==> #[trigger] list[j] < n,
        k < n,
        !list.contains(k),
    ensures
        0real <= part(f, list),
        part(f, list) + f(k as int) <= total(f, n),
{
    let more = list.push(k);
    assert(more.drop_last() =~= list);
    assert(more.no_duplicates()) by {
        assert forall|i: int, j: int| 0 <= i < more.len() && 0 <= j < more.len() && i != j implies more[i]
            != more[j] by {
            if i < list.len() && j < list.len() {
                assert(list[i] != list[j]);
            } else if i < list.len() {
                assert(list.contains(list[i]));
            } else {
                assert(list.contains(list[j]));
            }
        }
    }
    assert forall|j: int| 0 <= j < more.len() implies #[trigger] more[j] < n by {
        if j < list.len() {
            assert(more[j] == list[j]);
        }
    }
    lemma_part(f, more, n);
    lemma_part(f, list, n);
}

// ------------------------------------------------------------------ passes

/// A pass keeps the number of rows.
proof fn lemma_pass_length<N: Num>(
    sc: ScenarioModel<N>,
    rows: Seq<usize>,
    views: Seq<SessionView<N>>,
    start: Flow<N>,
    requests: Seq<Setpoint<N>>,
    n: nat,
    charging: bool,
)
    requires
        forall|j: int| 0 <= j < rows.len() ==> #[trigger] rows[j] < start.active.len(),
        are_for_shown(requests, rows.len()),
        n <= requests.len(),
    ensures
        pass(sc, rows, views, start, requests.take(n as int), charging).active.len() == start.active.len(),
    decreases n,
{
    if n == 0 {
        assert(requests.take(0) =~= Seq::empty());
    } else {
        let p = (n - 1) as nat;
        lemma_pass_length(sc, rows, views, start, requests, p, charging);
        lemma_pass_last(sc, rows, views, start, requests, p, charging);
        let x = requests[p as int].session_index as int;
        assert(x < rows.len());
        assert(rows[x] < start.active.len());
    }
}

/// A pass over requests for other sessions leaves shown session `k` alone.
proof fn lemma_pass_skips<N: Num>(
    sc: ScenarioModel<N>,
    rows: Seq<usize>,
    views: Seq<SessionView<N>>,
    start: Flow<N>,
    requests: Seq<Setpoint<N>>,
    q: nat,
    n: nat,
    charging: bool,
    k: int,
)
    requires
        rows.no_duplicates(),
        forall|j: int| 0 <= j < rows.len() ==> #[trigger] rows[j] < start.active.len(),
        are_for_shown(requests, rows.len()),
        0 <= k < rows.len(),
        q <= n <= requests.len(),
        forall|j: int|
            q <= j < n && in_pass(#[trigger] requests[j], charging) ==> requests[j].session_index != k,
    ensures
        pass(sc, rows, views, start, requests.take(n as int), charging).active[rows[k] as int] == pass(
            sc,
            rows,
            views,
            start,
            requests.take(q as int),
            charging,
        ).active[rows[k] as int],
    decreases n,
{
    if q < n {
        let p = (n - 1) as nat;
        lemma_pass_skips(sc, rows, views, start, requests, q, p, charging, k);
        lemma_pass_last(sc, rows, views, start, requests, p, charging);
        lemma_pass_length(sc, rows, views, start, requests, p, charging);
        let sp = requests[p as int];
        if in_pass(sp, charging) {
            let x = sp.session_index as int;
            assert(x != k && x < rows.len());
            assert(rows[x] != rows[k]);
        }
    }
}

/// Without a site cap the allowance of the charging pass stays unbounded.
proof fn lemma_open_pass<N: Num>(
    value: spec_fn(N) -> real,
    unit: real,
    sc: ScenarioModel<N>,
    m: real,
    rows: Seq<usize>,
    views: Seq<SessionView<N>>,
    start: Flow<N>,
    requests: Seq<Setpoint<N>>,
    n: nat,
    t: int,
)
    requires
        rounds_toward_zero(value, unit),
        has_infinity(value),
        is_ready(value, sc),
        is_moderate(value, sc, m),
        are_for_shown(requests, rows.len()),
        asks_once(requests),
        views_fit(value, sc, m, rows, views),
        may_pass(value, unit, sc, m, rows, start, requests, true, t, none_served()),
        start.allowance == N::unbounded(),
        n <= requests.len(),
        t < sc.rules.horizon_slots,
    ensures
        pass(sc, rows, views, start, requests.take(n as int), true).allowance == N::unbounded(),
    decreases n,
{
    if n == 0 {
        assert(requests.take(0) =~= Seq::empty());
    } else {
        let p = (n - 1) as nat;
        lemma_open_pass(value, unit, sc, m, rows, views, start, requests, p, t);
        lemma_pass_health(value, unit, sc, m, rows, views, start, requests, p, true, t, none_served());
        lemma_pass_last(sc, rows, views, start, requests, p, true);
        let flow = pass(sc, rows, views, start, requests.take(p as int), true);
        let sp = requests[p as int];
        assert(sp.session_index < rows.len() && sp.power_kw.finite());
        if in_pass(sp, true) {
            let q = sp.session_index as int;
            lemma_not_served(requests, p, true);
            let row = rows[q] as int;
            assert(rows[q] < sc.vehicles.len());
            assert(is_fit(value, unit, sc, m, start.active, row, t, none_served()(q)));
            assert(is_untouched(rows, start, flow, q));
            lemma_served(
                value,
                unit,
                sc,
                m,
                row,
                flow.active[row]->0,
                views[q],
                sp,
                flow.allowance,
                true,
                stay(sc, row, t),
            );
        }
    }
}

/// The setpoints that the engine takes are the policy's own.
proof fn lemma_taken<N: Num>(sc: ScenarioModel<N>, st: SiteModel<N>, out: Seq<Setpoint<N>>, i: int) -> (p: int)
    requires
        0 <= i < requested(out, shown_rows(sc, st).len()).len(),
    ensures
        0 <= p < out.len(),
        is_admissible(out[p], shown_rows(sc, st).len()),
        out[p] == requested(out, shown_rows(sc, st).len())[i],
{
    let n = shown_rows(sc, st).len();
    the_last_admissible_setpoint_counts(out, n);
    let r = requested(out, n)[i];
    let p = choose|p: int| is_last_word(out, n, p) && out[p] == r;
    assert(is_last_word(out, n, p));
    p
}

/// Shown session `k` gets `power_kw` in slot `t`, as far as its limits and `allowance` go.
pub(crate) open spec fn is_done_as_asked<N: Num>(
    sc: ScenarioModel<N>,
    st: SiteModel<N>,
    t: int,
    out: Seq<Setpoint<N>>,
    k: int,
    power_kw: N,
    allowance: N,
) -> bool {
    let row = shown_rows(sc, st)[k] as int;
    dispatched(sc, st, t, out).active[row] == Some(
        after_setpoint(
            st.active[row]->0,
            session_views(sc, st)[k],
            power_kw,
            sc.rules.slot_minutes,
            sc.rules.charge_efficiency,
            sc.rules.discharge_efficiency,
            allowance,
        ),
    )
}

/// A session that is asked nothing is left alone.
pub(crate) proof fn lemma_left_alone<N: Num>(
    sc: ScenarioModel<N>,
    st: SiteModel<N>,
    t: int,
    out: Seq<Setpoint<N>>,
    k: int,
)
    requires
        sc.vehicles.len() <= usize::MAX,
        st.active.len() == sc.vehicles.len(),
        0 <= k < shown_rows(sc, st).len(),
        forall|p: int| 0 <= p < out.len() ==> (#[trigger] out[p]).session_index != k,
    ensures
        dispatched(sc, st, t, out).active[shown_rows(sc, st)[k] as int]
            == st.active[shown_rows(sc, st)[k] as int],
{
    let rows = shown_rows(sc, st);
    let views = session_views(sc, st);
    let requests = requested(out, rows.len());
    let n = requests.len();
    lemma_slot_requests(sc, st, out);
    lemma_shown(sc, st);
    assert forall|j: int| 0 <= j < n implies (#[trigger] requests[j]).session_index != k by {
        let p = lemma_taken(sc, st, out, j);
    }
    let first = charge_start(sc, st, t);
    assert(requests.take(0) =~= Seq::empty());
    lemma_pass_skips(sc, rows, views, first, requests, 0, n, true, k);
    lemma_pass_length(sc, rows, views, first, requests, n, true);
    let second = discharge_start(sc, st, t, out);
    lemma_pass_skips(sc, rows, views, second, requests, 0, n, false, k);
}

/// The request of a session in its pass: requests before and after it are for others.
proof fn lemma_request_alone<N: Num>(
    sc: ScenarioModel<N>,
    rows: Seq<usize>,
    views: Seq<SessionView<N>>,
    start: Flow<N>,
    requests: Seq<Setpoint<N>>,
    q: nat,
    charging: bool,
)
    requires
        rows.no_duplicates(),
        forall|j: int| 0 <= j < rows.len() ==> #[trigger] rows[j] < start.active.len(),
        are_for_shown(requests, rows.len()),
        asks_once(requests),
        q < requests.len(),
    ensures
        ({
            let sp = requests[q as int];
            let k = sp.session_index as int;
            let row = rows[k] as int;
            let end = pass(sc, rows, views, start, requests, charging);
            let allowance = pass(sc, rows, views, start, requests.take(q as int), charging).allowance;
            end.active[row] == if in_pass(sp, charging) {
                Some(
                    after_setpoint(
                        start.active[row]->0,
                        views[k],
                        sp.power_kw,
                        sc.rules.slot_minutes,
                        sc.rules.charge_efficiency,
                        sc.rules.discharge_efficiency,
                        allowance,
                    ),
                )
            } else {
                start.active[row]
            }
        }),
{
    let n = requests.len();
    let k = requests[q as int].session_index as int;
    assert(k < rows.len());
    assert(requests.take(0) =~= Seq::empty());
    assert(requests.take(n as int) =~= requests);
    assert forall|j: int| 0 <= j < n && j != q implies (#[trigger] requests[j]).session_index != k by {
        assert(requests[j].session_index != requests[q as int].session_index);
    }
    lemma_pass_skips(sc, rows, views, start, requests, 0, q, charging, k);
    lemma_pass_length(sc, rows, views, start, requests, q, charging);
    lemma_pass_last(sc, rows, views, start, requests, q, charging);
    lemma_pass_skips(sc, rows, views, start, requests, (q + 1) as nat, n, charging, k);
}

/// Without a site cap a session gets the charging that it was last asked.
pub(crate) proof fn lemma_charged_as_asked<N: Num>(
    value: spec_fn(N) -> real,
    unit: real,
    sc: ScenarioModel<N>,
    m: real,
    st: SiteModel<N>,
    t: int,
    out: Seq<Setpoint<N>>,
    j: int,
)
    requires
        rounds_toward_zero(value, unit),
        has_infinity(value),
        is_valid(sc),
        is_ready(value, sc),
        is_moderate(value, sc, m),
        is_sound(sc, st, t + 1, t),
        is_lawful(value, unit, sc, m, st, t),
        sc.vehicles.len() <= usize::MAX,
        0 <= t < sc.rules.horizon_slots,
        t < sc.building.len(),
        sc.rules.site_cap_kw is None,
        is_last_word(out, shown_rows(sc, st).len(), j),
        0real <= value(out[j].power_kw),
    ensures
        is_done_as_asked(sc, st, t, out, out[j].session_index as int, out[j].power_kw, N::unbounded()),
{
    lemma_constants(value, unit);
    let rows = shown_rows(sc, st);
    let views = session_views(sc, st);
    let requests = requested(out, rows.len());
    let n = requests.len();
    lemma_slot_requests(sc, st, out);
    lemma_shown(sc, st);
    lemma_views_fit(value, unit, sc, m, st, t + 1, t);
    lemma_charge_allowance(value, unit, sc, m, st, t);
    lemma_first_pass(value, unit, sc, m, st, requests, t);
    the_last_admissible_setpoint_counts(out, rows.len());
    assert(requests.contains(out[j]));
    let q = choose|q: int| 0 <= q < n && requests[q] == out[j];
    lemma_finite(value, unit, out[j].power_kw);
    lemma_compare(value, unit, zero_of::<N>(), out[j].power_kw);
    lemma_compare(value, unit, out[j].power_kw, zero_of::<N>());
    let first = charge_start(sc, st, t);
    lemma_open_pass(value, unit, sc, m, rows, views, first, requests, q as nat, t);
    lemma_request_alone(sc, rows, views, first, requests, q as nat, true);
    lemma_pass_length(sc, rows, views, first, requests, n, true);
    let second = discharge_start(sc, st, t, out);
    lemma_request_alone(sc, rows, views, second, requests, q as nat, false);
}

/// The sessions that requests are for.
spec fn asked_for<N: Num>(requests: Seq<Setpoint<N>>, n: nat) -> Seq<usize> {
    Seq::new(n, |j: int| requests[j].session_index)
}

/// The allowance of the discharging pass shrinks by no more than what is asked for.
proof fn lemma_given<N: Num>(
    value: spec_fn(N) -> real,
    unit: real,
    sc: ScenarioModel<N>,
    m: real,
    rows: Seq<usize>,
    views: Seq<SessionView<N>>,
    start: Flow<N>,
    requests: Seq<Setpoint<N>>,
    n: nat,
    t: int,
    f: spec_fn(int) -> real,
)
    requires
        rounds_toward_zero(value, unit),
        is_ready(value, sc),
        is_moderate(value, sc, m),
        are_for_shown(requests, rows.len()),
        asks_once(requests),
        views_fit(value, sc, m, rows, views),
        may_pass(value, unit, sc, m, rows, start, requests, false, t, charging_served(requests)),
        start.allowance.finite(),
        forall|k: int| 0 <= k < rows.len() ==> 0real <= #[trigger] f(k),
        forall|j: int|
            0 <= j < requests.len() ==> 0real - value((#[trigger] requests[j]).power_kw) <= f(
                requests[j].session_index as int,
            ),
        n <= requests.len(),
        t < sc.rules.horizon_slots,
    ensures
        ({
            let flow = pass(sc, rows, views, start, requests.take(n as int), false);
            &&& flow.allowance.finite()
            &&& value(start.allowance) - part(f, asked_for(requests, n)) <= value(flow.allowance)
        }),
    decreases n,
{
    lemma_constants(value, unit);
    if n == 0 {
        assert(requests.take(0) =~= Seq::empty());
    } else {
        let p = (n - 1) as nat;
        let extra = charging_served(requests);
        lemma_given(value, unit, sc, m, rows, views, start, requests, p, t, f);
        lemma_pass_health(value, unit, sc, m, rows, views, start, requests, p, false, t, extra);
        lemma_pass_last(sc, rows, views, start, requests, p, false);
        assert(asked_for(requests, n).drop_last() =~= asked_for(requests, p));
        let flow = pass(sc, rows, views, start, requests.take(p as int), false);
        let sp = requests[p as int];
        assert(sp.session_index < rows.len() && sp.power_kw.finite());
        let q = sp.session_index as int;
        assert(0real <= f(q));
        assert(0real - value(sp.power_kw) <= f(q));
        if in_pass(sp, false) {
            lemma_not_served(requests, p, false);
            assert(extra(q) == 0);
            let row = rows[q] as int;
            assert(rows[q] < sc.vehicles.len());
            assert(is_fit(value, unit, sc, m, start.active, row, t, extra(q)));
            assert(is_untouched(rows, start, flow, q));
            lemma_grant(value, unit, sc, m, rows, views, flow, sp, t);
        }
    }
}

/// A discharging request takes no more off the allowance than it asks for.
proof fn lemma_grant<N: Num>(
    value: spec_fn(N) -> real,
    unit: real,
    sc: ScenarioModel<N>,
    m: real,
    rows: Seq<usize>,
    views: Seq<SessionView<N>>,
    flow: Flow<N>,
    sp: Setpoint<N>,
    t: int,
)
    requires
        rounds_toward_zero(value, unit),
        is_ready(value, sc),
        views_fit(value, sc, m, rows, views),
        sp.session_index < rows.len(),
        sp.power_kw.finite(),
        in_pass(sp, false),
        is_fit(value, unit, sc, m, flow.active, rows[sp.session_index as int] as int, t, 0),
        flow.allowance.finite(),
    ensures
        ({
            let end = apply_request(sc, rows, views, flow, sp, false);
            &&& end.allowance.finite()
            &&& value(flow.allowance) + value(sp.power_kw) <= value(end.allowance)
        }),
{
    lemma_constants(value, unit);
    let q = sp.session_index as int;
    let row = rows[q] as int;
    assert(rows[q] < sc.vehicles.len());
    let v = sc.vehicles[row];
    assert(is_usable(value, sc, v));
    let s = flow.active[row]->0;
    let dt = sc.rules.slot_minutes;
    let eta_d = sc.rules.discharge_efficiency;
    lemma_finite(value, unit, sp.power_kw);
    lemma_finite(value, unit, flow.allowance);
    lemma_compare(value, unit, zero_of::<N>(), sp.power_kw);
    lemma_closer_fits(value, value(s.soc_kwh) * 60real, value(v.ceiling()) * 60real);
    discharging_respects_its_limits(value, unit, s, views[q], sp.power_kw, dt, eta_d, flow.allowance);
    let p = discharge_power(s, views[q], sp.power_kw, dt, eta_d, flow.allowance);
    lemma_negated(value, unit, p);
    let kw = p.negated();
    assert(kw == applied_power(
        s,
        views[q],
        sp.power_kw,
        dt,
        sc.rules.charge_efficiency,
        eta_d,
        flow.allowance,
    ));
    lemma_closer_fits(value, value(flow.allowance) + value(kw), value(flow.allowance));
    lemma_plus(value, unit, flow.allowance, kw);
}

/// A session gets the discharging that it was last asked, with what the building leaves
/// of it after the others, of which `f` bounds what they were asked.
pub(crate) proof fn lemma_discharged_as_asked<N: Num>(
    value: spec_fn(N) -> real,
    unit: real,
    sc: ScenarioModel<N>,
    m: real,
    st: SiteModel<N>,
    t: int,
    out: Seq<Setpoint<N>>,
    j: int,
    f: spec_fn(int) -> real,
) -> (allowance: N)
    requires
        rounds_toward_zero(value, unit),
        is_valid(sc),
        is_ready(value, sc),
        is_moderate(value, sc, m),
        is_sound(sc, st, t + 1, t),
        is_lawful(value, unit, sc, m, st, t),
        sc.vehicles.len() <= usize::MAX,
        0 <= t < sc.rules.horizon_slots,
        t < sc.building.len(),
        is_last_word(out, shown_rows(sc, st).len(), j),
        value(out[j].power_kw) < 0real,
        forall|k: int| 0 <= k < shown_rows(sc, st).len() ==> 0real <= #[trigger] f(k),
        forall|p: int|
            0 <= p < out.len() && is_admissible(#[trigger] out[p], shown_rows(sc, st).len()) ==> 0real - value(
                out[p].power_kw,
            ) <= f(out[p].session_index as int),
    ensures
        is_done_as_asked(sc, st, t, out, out[j].session_index as int, out[j].power_kw, allowance),
        allowance.finite(),
        value(sc.building[t]) - total(f, shown_rows(sc, st).len()) + f(out[j].session_index as int) <= value(
            allowance,
        ),
{
    lemma_constants(value, unit);
    let rows = shown_rows(sc, st);
    let views = session_views(sc, st);
    let requests = requested(out, rows.len());
    let n = requests.len();
    lemma_slot_requests(sc, st, out);
    lemma_shown(sc, st);
    lemma_views_fit(value, unit, sc, m, st, t + 1, t);
    the_last_admissible_setpoint_counts(out, rows.len());
    assert(requests.contains(out[j]));
    let q = choose|q: int| 0 <= q < n && requests[q] == out[j];
    lemma_finite(value, unit, out[j].power_kw);
    lemma_compare(value, unit, zero_of::<N>(), out[j].power_kw);
    lemma_compare(value, unit, out[j].power_kw, zero_of::<N>());
    let first = charge_start(sc, st, t);
    lemma_request_alone(sc, rows, views, first, requests, q as nat, true);
    lemma_pass_length(sc, rows, views, first, requests, n, true);
    let second = discharge_start(sc, st, t, out);
    lemma_discharge_start(value, unit, sc, m, st, t, out);
    assert forall|i: int| 0 <= i < n implies 0real - value((#[trigger] requests[i]).power_kw) <= f(
        requests[i].session_index as int,
    ) by {
        let p = lemma_taken(sc, st, out, i);
        assert(is_admissible(out[p], rows.len()));
    }
    lemma_given(value, unit, sc, m, rows, views, second, requests, q as nat, t, f);
    lemma_request_alone(sc, rows, views, second, requests, q as nat, false);
    let list = asked_for(requests, q as nat);
    assert forall|i: int| 0 <= i < list.len() implies #[trigger] list[i] < rows.len() by {
        assert(requests[i].session_index < rows.len());
    }
    let k = requests[q].session_index;
    assert(!list.contains(k)) by {
        if list.contains(k) {
            let i = choose|i: int| 0 <= i < list.len() && list[i] == k;
            assert(requests[i].session_index == requests[q].session_index);
        }
    }
    assert(list.no_duplicates()) by {
        assert forall|a: int, b: int| 0 <= a < list.len() && 0 <= b < list.len() && a != b implies list[a]
            != list[b] by {
            assert(requests[a].session_index != requests[b].session_index);
        }
    }
    lemma_part_and(f, list, rows.len(), k);
    pass(sc, rows, views, second, requests.take(q), false).allowance
}

} // verus!
