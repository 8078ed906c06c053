//! The trace of a run: no port serves two sessions in a slot, every line is within
//! the limits of its session and port, and the lines of a slot add up to its
//! record.

use vstd::prelude::*;

use crate::balance::{is_ordinary, ordinary_scenarios_are_moderate};
use crate::engine::TraceRecord;
use crate::fixed::Fixed;
use crate::flows::{
    batteries_stay_in_range_and_energy_is_conserved, charging_part, discharging_part, every_slot_is_recorded_once,
    lemma_boarding_keeps_records, ports_serve_one_session_at_a_time, powers, sum,
    the_site_neither_exports_nor_exceeds_its_cap,
};
use crate::num::Num;
use crate::physics::{is_in_range, is_moderate, is_row_healthy, lemma_forward};
use crate::rounding::{
    fixed_numbers_round_toward_zero, fixed_value, lemma_compare, lemma_constants, lemma_finite, millionth,
    rounds_toward_zero,
};
use crate::scenario::{Charger, ScenarioModel, Vehicle};
use crate::site::{
    boarded, discharged, results_of, session_view, session_views, shown_rows, site_at, trace_line, SiteModel,
};
use crate::soundness::{
    is_plugged, lemma_dispatched, lemma_shown, sessions_run_forward, the_site_is_sound_in_every_slot,
};
use crate::state::Setpoint;
use crate::validation::{charger_ids_are_unique, is_valid, vehicle_is_finite};

verus! {

/// The lines that slot `t` adds to the trace.
pub open spec fn new_lines<N: Num>(
    sc: ScenarioModel<N>,
    decisions: Seq<Seq<Setpoint<N>>>,
    t: nat,
) -> Seq<TraceRecord<N>> {
    let st = boarded(sc, site_at(sc, decisions, t), t as int);
    site_at(sc, decisions, (t + 1) as nat).trace.skip(st.trace.len() as int)
}

proof fn lemma_new_lines<N: Num>(sc: ScenarioModel<N>, decisions: Seq<Seq<Setpoint<N>>>, t: nat)
    requires
        t < usize::MAX,
    ensures
        site_at(sc, decisions, (t + 1) as nat).trace == site_at(sc, decisions, t).trace + new_lines(
            sc,
            decisions,
            t,
        ),
        forall|k: int|
            0 <= k < new_lines(sc, decisions, t).len() ==> (#[trigger] new_lines(sc, decisions, t)[k]).slot
                == t,
{
    let before = site_at(sc, decisions, t);
    let st = boarded(sc, before, t as int);
    lemma_boarding_keeps_records(sc, before, t as int);
    let rows = shown_rows(sc, st);
    let down = discharged(sc, st, t as int, decisions[t as int]);
    let added = Seq::new(rows.len(), |k: int| trace_line(sc, rows, down, t as int, k));
    assert(new_lines(sc, decisions, t) =~= added);
    assert(site_at(sc, decisions, (t + 1) as nat).trace =~= before.trace + new_lines(sc, decisions, t));
}

proof fn lemma_past_lines<N: Num>(sc: ScenarioModel<N>, decisions: Seq<Seq<Setpoint<N>>>, n: nat)
    requires
        n <= usize::MAX,
    ensures
        forall|k: int|
            0 <= k < site_at(sc, decisions, n).trace.len() ==> (#[trigger] site_at(sc, decisions, n).trace[k]).slot
                < n,
    decreases n,
{
    if n > 0 {
        let t = (n - 1) as nat;
        lemma_past_lines(sc, decisions, t);
        lemma_new_lines(sc, decisions, t);
        let before = site_at(sc, decisions, t).trace;
        let all = site_at(sc, decisions, n).trace;
        assert forall|k: int| 0 <= k < all.len() implies (#[trigger] all[k]).slot < n by {
            if k < before.len() {
                assert(all[k] == before[k]);
            } else {
                assert(all[k] == new_lines(sc, decisions, t)[k - before.len()]);
            }
        }
    }
}

// ------------------------------------------------------------------- ports

/// No two lines name the same port in the same slot.
pub open spec fn is_exclusive<N>(trace: Seq<TraceRecord<N>>) -> bool {
    forall|j: int, k: int|
        #![trigger trace[j], trace[k]]
        0 <= j < trace.len() && 0 <= k < trace.len() && j != k && trace[j].slot == trace[k].slot
            ==> trace[j].charger_id != trace[k].charger_id
}

proof fn lemma_exclusive<N: Num>(sc: ScenarioModel<N>, decisions: Seq<Seq<Setpoint<N>>>, n: nat)
    requires
        sessions_run_forward(sc),
        charger_ids_are_unique(sc.chargers),
        sc.vehicles.len() <= usize::MAX,
        sc.chargers.len() <= usize::MAX,
        n <= usize::MAX,
    ensures
        is_exclusive(site_at(sc, decisions, n).trace),
    decreases n,
{
    if n > 0 {
        let t = (n - 1) as nat;
        lemma_exclusive(sc, decisions, t);
        lemma_past_lines(sc, decisions, t);
        lemma_new_lines(sc, decisions, t);
        ports_serve_one_session_at_a_time(sc, decisions, t);
        let before = site_at(sc, decisions, t).trace;
        let lines = new_lines(sc, decisions, t);
        let all = site_at(sc, decisions, n).trace;
        assert forall|j: int, k: int|
            #![trigger all[j], all[k]]
            0 <= j < all.len() && 0 <= k < all.len() && j != k && all[j].slot == all[k].slot implies all[j].charger_id
            != all[k].charger_id by {
            let old = before.len();
            if j < old && k < old {
                assert(all[j] == before[j] && all[k] == before[k]);
            } else if j >= old && k >= old {
                assert(all[j] == lines[j - old] && all[k] == lines[k - old]);
            } else {
                let a = if j < old { j } else { k };
                let b = if j < old { k } else { j };
                assert(all[a] == before[a] && all[b] == lines[b - old]);
                assert(before[a].slot < t);
                assert(lines[b - old].slot == t);
            }
        }
    }
}

/// Over a whole run, whatever the policy answers, no port serves two sessions in the
/// same slot.
pub proof fn traces_are_exclusive<N: Num>(sc: ScenarioModel<N>, decisions: Seq<Seq<Setpoint<N>>>)
    requires
        is_valid(sc),
        sc.vehicles.len() <= usize::MAX,
        sc.chargers.len() <= usize::MAX,
    ensures
        is_exclusive(results_of(sc, decisions).trace),
{
    lemma_forward(sc);
    lemma_exclusive(sc, decisions, sc.rules.horizon_slots as nat);
}

// ------------------------------------------------------------------ limits

/// A signed power that vehicle and port allow.
pub open spec fn is_allowed<N: Num>(
    value: spec_fn(N) -> real,
    v: Vehicle<N>,
    port: Charger<N>,
    power_kw: N,
) -> bool {
    let p = value(power_kw);
    &&& p > 0real ==> p <= value(v.max_charge_kw) && p <= value(port.max_kw)
    &&& p < 0real ==> port.bidirectional && 0real - p <= value(v.max_discharge_kw) && 0real - p <= value(
        port.max_kw,
    )
}

/// A line is about the session of row `i` on port `c`, its SoC is in range, and its
/// power is allowed.
pub open spec fn is_traced_on<N: Num>(
    value: spec_fn(N) -> real,
    sc: ScenarioModel<N>,
    line: TraceRecord<N>,
    i: int,
    c: int,
) -> bool {
    &&& 0 <= i < sc.vehicles.len()
    &&& 0 <= c < sc.chargers.len()
    &&& line.vehicle_id == sc.vehicles[i].vehicle_id
    &&& line.arrival_slot == sc.vehicles[i].arrival_slot
    &&& line.charger_id == sc.chargers[c].charger_id
    &&& is_in_range(value, sc.vehicles[i], line.soc_kwh)
    &&& is_allowed(value, sc.vehicles[i], sc.chargers[c], line.power_kw)
}

/// A line is about some session on some port, in range and allowed.
pub open spec fn is_traced<N: Num>(value: spec_fn(N) -> real, sc: ScenarioModel<N>, line: TraceRecord<N>) -> bool {
    exists|i: int, c: int| #[trigger] is_traced_on(value, sc, line, i, c)
}

/// The limits that a policy is shown are those of vehicle and port.
proof fn lemma_shown_limits<N: Num>(
    value: spec_fn(N) -> real,
    unit: real,
    sc: ScenarioModel<N>,
    st: SiteModel<N>,
    k: int,
    row: int,
    c: int,
    power_kw: N,
)
    requires
        rounds_toward_zero(value, unit),
        is_valid(sc),
        0 <= row < sc.vehicles.len(),
        0 <= c < sc.chargers.len(),
        st.active[row] matches Some(s) && s.charger_index == c,
        ({
            let view = session_view(sc, st, k, row);
            let p = value(power_kw);
            &&& p > 0real ==> p <= value(view.max_charge_kw)
            &&& p < 0real ==> 0real - p <= value(view.max_discharge_kw)
        }),
    ensures
        is_allowed(value, sc.vehicles[row], sc.chargers[c], power_kw),
{
    lemma_constants(value, unit);
    let v = sc.vehicles[row];
    let port = sc.chargers[c];
    assert(vehicle_is_finite(v));
    lemma_finite(value, unit, v.max_charge_kw);
    lemma_finite(value, unit, v.max_discharge_kw);
    lemma_finite(value, unit, port.max_kw);
    lemma_compare(value, unit, v.max_charge_kw, port.max_kw);
    lemma_compare(value, unit, v.max_discharge_kw, port.max_kw);
}

proof fn lemma_lines_of_slot<N: Num>(
    value: spec_fn(N) -> real,
    unit: real,
    sc: ScenarioModel<N>,
    m: real,
    decisions: Seq<Seq<Setpoint<N>>>,
    t: nat,
)
    requires
        rounds_toward_zero(value, unit),
        is_valid(sc),
        is_moderate(value, sc, m),
        sc.vehicles.len() <= usize::MAX,
        sc.chargers.len() <= usize::MAX,
        t < sc.rules.horizon_slots,
        t < sc.building.len(),
    ensures
        forall|k: int|
            0 <= k < new_lines(sc, decisions, t).len() ==> is_traced(
                value,
                sc,
                #[trigger] new_lines(sc, decisions, t)[k],
            ),
{
    lemma_forward(sc);
    the_site_is_sound_in_every_slot(sc, decisions, t);
    the_site_neither_exports_nor_exceeds_its_cap(value, unit, sc, m, decisions, t);
    batteries_stay_in_range_and_energy_is_conserved(value, unit, sc, m, decisions, (t + 1) as nat);
    let st = boarded(sc, site_at(sc, decisions, t), t as int);
    let out = decisions[t as int];
    lemma_dispatched(sc, st, t as int, out, t as int + 1, t as int);
    lemma_shown(sc, st);
    let rows = shown_rows(sc, st);
    let views = session_views(sc, st);
    let down = discharged(sc, st, t as int, out);
    let next = site_at(sc, decisions, (t + 1) as nat);
    let lines = new_lines(sc, decisions, t);
    assert forall|k: int| 0 <= k < lines.len() implies is_traced(value, sc, #[trigger] lines[k]) by {
        assert(lines[k] == trace_line(sc, rows, down, t as int, k));
        let row = rows[k] as int;
        assert(rows[k] < sc.vehicles.len());
        assert(st.active[row] is Some);
        assert(is_plugged(sc, st, row));
        let c = st.active[row]->0.charger_index as int;
        assert(down.active[row] is Some);
        assert(is_row_healthy(value, unit, sc, m, next.active, t as int + 1, row));
        assert(powers(lines)[k] == lines[k].power_kw);
        assert(views[k] == session_view(sc, st, k, row));
        lemma_shown_limits(value, unit, sc, st, k, row, c, lines[k].power_kw);
        assert(is_traced_on(value, sc, lines[k], row, c));
    }
}

proof fn lemma_traced<N: Num>(
    value: spec_fn(N) -> real,
    unit: real,
    sc: ScenarioModel<N>,
    m: real,
    decisions: Seq<Seq<Setpoint<N>>>,
    n: nat,
)
    requires
        rounds_toward_zero(value, unit),
        is_valid(sc),
        is_moderate(value, sc, m),
        sc.vehicles.len() <= usize::MAX,
        sc.chargers.len() <= usize::MAX,
        n <= sc.rules.horizon_slots,
        n <= sc.building.len(),
    ensures
        forall|k: int|
            0 <= k < site_at(sc, decisions, n).trace.len() ==> is_traced(
                value,
                sc,
                #[trigger] site_at(sc, decisions, n).trace[k],
            ),
    decreases n,
{
    if n > 0 {
        let t = (n - 1) as nat;
        lemma_traced(value, unit, sc, m, decisions, t);
        lemma_lines_of_slot(value, unit, sc, m, decisions, t);
        lemma_new_lines(sc, decisions, t);
        let before = site_at(sc, decisions, t).trace;
        let lines = new_lines(sc, decisions, t);
        let all = site_at(sc, decisions, n).trace;
        assert forall|k: int| 0 <= k < all.len() implies is_traced(value, sc, #[trigger] all[k]) by {
            if k < before.len() {
                assert(all[k] == before[k]);
            } else {
                assert(all[k] == lines[k - before.len()]);
            }
        }
    }
}

/// Over a whole run, whatever the policy answers, every trace line keeps its battery
/// between floor and ceiling and its power within the limits of vehicle and port; a
/// port that cannot discharge never does.
pub proof fn traces_stay_within_limits<N: Num>(
    value: spec_fn(N) -> real,
    unit: real,
    sc: ScenarioModel<N>,
    m: real,
    decisions: Seq<Seq<Setpoint<N>>>,
)
    requires
        rounds_toward_zero(value, unit),
        is_valid(sc),
        is_moderate(value, sc, m),
        sc.vehicles.len() <= usize::MAX,
        sc.chargers.len() <= usize::MAX,
        sc.building.len() == sc.rules.horizon_slots,
    ensures
        forall|k: int|
            0 <= k < results_of(sc, decisions).trace.len() ==> is_traced(
                value,
                sc,
                #[trigger] results_of(sc, decisions).trace[k],
            ),
{
    lemma_traced(value, unit, sc, m, decisions, sc.rules.horizon_slots as nat);
}

// -------------------------------------------------------------------- sums

/// The powers of the lines of slot `t`.
pub open spec fn powers_in<N: Num>(trace: Seq<TraceRecord<N>>, t: int) -> Seq<N>
    decreases trace.len(),
{
    if trace.len() == 0 {
        Seq::empty()
    } else if trace.last().slot == t {
        powers_in(trace.drop_last(), t).push(trace.last().power_kw)
    } else {
        powers_in(trace.drop_last(), t)
    }
}

proof fn lemma_powers_join<N: Num>(a: Seq<TraceRecord<N>>, b: Seq<TraceRecord<N>>, t: int)
    ensures
        powers_in(a + b, t) == powers_in(a, t) + powers_in(b, t),
    decreases b.len(),
{
    if b.len() == 0 {
        assert(a + b =~= a);
        assert(powers_in(a, t) + powers_in(b, t) =~= powers_in(a, t));
    } else {
        lemma_powers_join(a, b.drop_last(), t);
        assert((a + b).drop_last() =~= a + b.drop_last());
        assert((a + b).last() == b.last());
        assert(powers_in(a + b, t) =~= powers_in(a, t) + powers_in(b, t));
    }
}

proof fn lemma_powers_of_others<N: Num>(list: Seq<TraceRecord<N>>, t: int)
    requires
        forall|k: int| 0 <= k < list.len() ==> (#[trigger] list[k]).slot != t,
    ensures
        powers_in(list, t) == Seq::<N>::empty(),
    decreases list.len(),
{
    if list.len() > 0 {
        let rest = list.drop_last();
        assert forall|k: int| 0 <= k < rest.len() implies (#[trigger] rest[k]).slot != t by {
            assert(rest[k] == list[k]);
        }
        lemma_powers_of_others(rest, t);
        assert(list[list.len() - 1].slot != t);
    }
}

proof fn lemma_powers_of_all<N: Num>(list: Seq<TraceRecord<N>>, t: int)
    requires
        forall|k: int| 0 <= k < list.len() ==> (#[trigger] list[k]).slot == t,
    ensures
        powers_in(list, t) == powers(list),
    decreases list.len(),
{
    if list.len() > 0 {
        let rest = list.drop_last();
        assert forall|k: int| 0 <= k < rest.len() implies (#[trigger] rest[k]).slot == t by {
            assert(rest[k] == list[k]);
        }
        lemma_powers_of_all(rest, t);
        assert(list[list.len() - 1].slot == t);
    }
    assert(powers_in(list, t) =~= powers(list));
}

/// The lines of slot `t` add up to its record.
pub open spec fn adds_up<N: Num>(
    value: spec_fn(N) -> real,
    sc: ScenarioModel<N>,
    st: SiteModel<N>,
    t: int,
) -> bool {
    let list = powers_in(st.trace, t);
    &&& value(st.slots[t].ev_charge_kw) == sum(charging_part(value), list)
    &&& value(st.slots[t].ev_discharge_kw) == sum(discharging_part(value), list)
}

proof fn lemma_adds_up<N: Num>(
    value: spec_fn(N) -> real,
    unit: real,
    sc: ScenarioModel<N>,
    m: real,
    decisions: Seq<Seq<Setpoint<N>>>,
    n: nat,
)
    requires
        rounds_toward_zero(value, unit),
        is_valid(sc),
        is_moderate(value, sc, m),
        sc.vehicles.len() <= usize::MAX,
        sc.chargers.len() <= usize::MAX,
        n <= sc.rules.horizon_slots,
        n <= sc.building.len(),
    ensures
        forall|t: int| 0 <= t < n ==> #[trigger] adds_up(value, sc, site_at(sc, decisions, n), t),
    decreases n,
{
    if n > 0 {
        let p = (n - 1) as nat;
        lemma_adds_up(value, unit, sc, m, decisions, p);
        lemma_past_lines(sc, decisions, p);
        lemma_new_lines(sc, decisions, p);
        every_slot_is_recorded_once(sc, decisions, p);
        every_slot_is_recorded_once(sc, decisions, n);
        the_site_neither_exports_nor_exceeds_its_cap(value, unit, sc, m, decisions, p);
        let before = site_at(sc, decisions, p);
        let next = site_at(sc, decisions, n);
        let lines = new_lines(sc, decisions, p);
        lemma_boarding_keeps_records(sc, before, p as int);
        assert forall|t: int| 0 <= t < n implies #[trigger] adds_up(value, sc, next, t) by {
            lemma_powers_join(before.trace, lines, t);
            if t < p {
                lemma_powers_of_others(lines, t);
                assert(powers_in(next.trace, t) =~= powers_in(before.trace, t));
                assert(next.slots[t] == before.slots[t]);
                assert(adds_up(value, sc, before, t));
            } else {
                lemma_powers_of_others(before.trace, t);
                lemma_powers_of_all(lines, t);
                assert(powers_in(next.trace, t) =~= powers(lines));
                assert(next.slots[t] == next.slots.last());
            }
        }
    }
}

/// Over a whole run, whatever the policy answers, the powers of the trace lines of a
/// slot add up to the charging and the discharging of its record.
pub proof fn traces_add_up_to_the_records<N: Num>(
    value: spec_fn(N) -> real,
    unit: real,
    sc: ScenarioModel<N>,
    m: real,
    decisions: Seq<Seq<Setpoint<N>>>,
    t: int,
)
    requires
        rounds_toward_zero(value, unit),
        is_valid(sc),
        is_moderate(value, sc, m),
        sc.vehicles.len() <= usize::MAX,
        sc.chargers.len() <= usize::MAX,
        sc.building.len() == sc.rules.horizon_slots,
        0 <= t < sc.rules.horizon_slots,
    ensures
        ({
            let r = results_of(sc, decisions);
            let list = powers_in(r.trace, t);
            &&& r.slots[t].slot == t
            &&& value(r.slots[t].ev_charge_kw) == sum(charging_part(value), list)
            &&& value(r.slots[t].ev_discharge_kw) == sum(discharging_part(value), list)
        }),
{
    let horizon = sc.rules.horizon_slots as nat;
    lemma_adds_up(value, unit, sc, m, decisions, horizon);
    every_slot_is_recorded_once(sc, decisions, horizon);
    assert(adds_up(value, sc, site_at(sc, decisions, horizon), t));
}

/// A fixed-point run over a valid scenario of ordinary size, whatever the policy
/// answers: every trace line is within the limits of its session and port, and no port
/// serves two sessions in a slot.
pub proof fn fixed_point_traces_stay_within_limits(sc: ScenarioModel<Fixed>, decisions: Seq<Seq<Setpoint<Fixed>>>)
    requires
        is_valid(sc),
        is_ordinary(sc),
        sc.chargers.len() <= usize::MAX,
        sc.building.len() == sc.rules.horizon_slots,
    ensures
        is_exclusive(results_of(sc, decisions).trace),
        forall|k: int|
            0 <= k < results_of(sc, decisions).trace.len() ==> is_traced(
                fixed_value(),
                sc,
                #[trigger] results_of(sc, decisions).trace[k],
            ),
{
    fixed_numbers_round_toward_zero();
    ordinary_scenarios_are_moderate(sc);
    traces_are_exclusive(sc, decisions);
    traces_stay_within_limits(fixed_value(), millionth(), sc, 1_000_000real, decisions);
}

} // verus!
