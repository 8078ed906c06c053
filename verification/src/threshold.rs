//! Service by the threshold schedulers: with a budget for what the sessions need, EDF and
//! LLF meet every target that can be met, and bring cars above their target down to it.

use vstd::prelude::*;

use crate::{energy_of, power_of};
use crate::balance::{is_ordinary, ordinary_scenarios_are_moderate};
use crate::dispatch::{
    is_done_as_asked, lemma_charged_as_asked, lemma_discharged_as_asked, lemma_left_alone, lemma_part, lemma_part_and,
    part, total,
};
use crate::engine::{is_episode, may_answer};
use crate::fixed::Fixed;
use crate::flows::{batteries_stay_in_range_and_energy_is_conserved, is_last_word, lemma_views_fit};
use crate::num::{count, zero_of, Num};
use crate::order::{stable_order, stable_order_is_arrangement};
use crate::persistence::leaving_soc;
use crate::physics::{
    discharging_respects_its_limits, is_healthy, is_in_range, is_lawful, is_limited, is_moderate, is_ready,
    is_row_healthy, is_usable, lemma_ready, stay,
};
use crate::policy::Policy;
use crate::policy::heuristics::{
    budget_rate, eligible_rows, forced, forced_rate, is_eligible, is_forced, percent, row_of, scheduled, serving_rows,
    tapered, threshold_of, time_left, walk, walk_row, Row, SortKey, ThresholdScheduler, Walk,
};
use crate::reporting::{every_session_is_reported_exactly_once, is_on_row, reported_rows};
use crate::rounding::{
    fits, fixed_numbers_measure_and_reach_infinity, fixed_numbers_round_toward_zero, fixed_value, has_infinity,
    has_measures, least, lemma_closer_fits, lemma_compare, lemma_constants, lemma_finite, lemma_fitting, lemma_minus,
    lemma_negated, lemma_over, lemma_times, lemma_under, millionth, most, rounds_toward_zero,
};
use crate::scenario::{ScenarioModel, TouClass};
use crate::service::{
    is_connected, is_fine, is_need_shrunk, is_on_track, is_roomy, is_unhurried, lemma_battery,
    lemma_boarding_keeps_row, lemma_gain, lemma_hours, lemma_need, lemma_need_after, lemma_need_next, lemma_percent,
    lemma_percent_order, lemma_power_loss, lemma_served_gain, lemma_shown_limit, lemma_signs, lemma_stay_on_track,
    lemma_untapered, limit_of, limits_are_positive, missing_energy_is_reported, need_of, served, slot_gain, slot_loss,
};
use crate::site::{
    after_setpoint, boarded, discharge_power, dispatched, is_admissible, observation, results_of, session_view,
    session_views, shown_rows, site_at, SiteModel,
};
use crate::soundness::{is_plugged, is_sound, lemma_shown, the_site_is_sound_in_every_slot};
use crate::state::{Observation, ObservationModel, Session, SessionView, Setpoint};
use crate::validation::{is_valid, session_is_valid, vehicle_is_finite};

verus! {

// ------------------------------------------------------------------ the rows

/// The row of a shown session.
pub(crate) open spec fn is_row<N: Num>(key: SortKey, threshold: N, obs: ObservationModel<N>, row: Row<N>) -> bool {
    &&& row.session_index < obs.sessions.len()
    &&& row == row_of(key, threshold, obs, obs.sessions[row.session_index as int])
}

/// Rows of shown sessions, of each at most one.
pub(crate) open spec fn are_distinct_rows<N: Num>(
    key: SortKey,
    threshold: N,
    obs: ObservationModel<N>,
    rows: Seq<Row<N>>,
) -> bool {
    &&& forall|r: int| 0 <= r < rows.len() ==> is_row(key, threshold, obs, #[trigger] rows[r])
    &&& forall|r: int, q: int|
        #![trigger rows[r], rows[q]]
        0 <= r < rows.len() && 0 <= q < rows.len() && r != q ==> rows[r].session_index
            != rows[q].session_index
}

/// Some row is that of session `k`.
pub(crate) open spec fn has_row<N: Num>(rows: Seq<Row<N>>, k: int) -> bool {
    exists|r: int| 0 <= r < rows.len() && (#[trigger] rows[r]).session_index == k
}

/// Each shown session is found under its own index.
pub open spec fn are_indexed<N: Num>(obs: ObservationModel<N>) -> bool {
    forall|k: int| 0 <= k < obs.sessions.len() ==> (#[trigger] obs.sessions[k]).index == k
}

proof fn lemma_eligible_rows<N: Num>(key: SortKey, threshold: N, obs: ObservationModel<N>, n: nat)
    requires
        are_indexed(obs),
        n <= obs.sessions.len() <= usize::MAX,
    ensures
        ({
            let rows = eligible_rows(key, threshold, obs, n);
            &&& rows.len() <= n
            &&& are_distinct_rows(key, threshold, obs, rows)
            &&& forall|r: int| 0 <= r < rows.len() ==> (#[trigger] rows[r]).session_index < n
            &&& forall|k: int|
                0 <= k < n && is_eligible(obs, #[trigger] obs.sessions[k]) ==> has_row(rows, k)
        }),
    decreases n,
{
    if n > 0 {
        let p = (n - 1) as nat;
        lemma_eligible_rows(key, threshold, obs, p);
        let before = eligible_rows(key, threshold, obs, p);
        let rows = eligible_rows(key, threshold, obs, n);
        let s = obs.sessions[p as int];
        assert(s.index == p);
        assert forall|r: int| 0 <= r < rows.len() implies is_row(key, threshold, obs, #[trigger] rows[r])
            && rows[r].session_index < n by {
            if r < before.len() {
                assert(rows[r] == before[r]);
            }
        }
        assert forall|r: int, q: int|
            #![trigger rows[r], rows[q]]
            0 <= r < rows.len() && 0 <= q < rows.len() && r != q implies rows[r].session_index
            != rows[q].session_index by {
            if r < before.len() {
                assert(rows[r] == before[r]);
            }
            if q < before.len() {
                assert(rows[q] == before[q]);
            }
        }
        assert forall|k: int| 0 <= k < n && is_eligible(obs, #[trigger] obs.sessions[k]) implies has_row(
            rows,
            k,
        ) by {
            if k == p {
                assert(rows[before.len() as int].session_index == k);
            } else {
                let r = choose|r: int| 0 <= r < before.len() && (#[trigger] before[r]).session_index == k;
                assert(rows[r] == before[r]);
            }
        }
    }
}

/// The rows in serving order: one for each eligible session.
pub(crate) proof fn lemma_serving_rows<N: Num>(key: SortKey, threshold: N, obs: ObservationModel<N>)
    requires
        are_indexed(obs),
        obs.sessions.len() <= usize::MAX,
    ensures
        are_distinct_rows(key, threshold, obs, serving_rows(key, threshold, obs)),
        forall|k: int|
            0 <= k < obs.sessions.len() && is_eligible(obs, #[trigger] obs.sessions[k]) ==> has_row(
                serving_rows(key, threshold, obs),
                k,
            ),
{
    let n = obs.sessions.len();
    let rows = eligible_rows(key, threshold, obs, n);
    let order = stable_order(rows);
    let sorted = serving_rows(key, threshold, obs);
    lemma_eligible_rows(key, threshold, obs, n);
    stable_order_is_arrangement(rows, rows.len());
    assert forall|r: int| 0 <= r < sorted.len() implies is_row(key, threshold, obs, #[trigger] sorted[r]) by {
        assert(order[r] < rows.len());
        assert(sorted[r] == rows[order[r] as int]);
    }
    assert forall|r: int, q: int|
        #![trigger sorted[r], sorted[q]]
        0 <= r < sorted.len() && 0 <= q < sorted.len() && r != q implies sorted[r].session_index
        != sorted[q].session_index by {
        assert(order[r] < rows.len() && order[q] < rows.len());
        assert(order[r] != order[q]);
        assert(sorted[r] == rows[order[r] as int] && sorted[q] == rows[order[q] as int]);
    }
    assert forall|k: int| 0 <= k < n && is_eligible(obs, #[trigger] obs.sessions[k]) implies has_row(
        sorted,
        k,
    ) by {
        let r = choose|r: int| 0 <= r < rows.len() && (#[trigger] rows[r]).session_index == k;
        assert(order.contains(r as usize));
        let q = choose|q: int| 0 <= q < order.len() && order[q] == r as usize;
        assert(sorted[q] == rows[r]);
    }
}

// ---------------------------------------------------------------- the budget

/// The rate that brings a session to its target by departure, kW: negative for a car
/// above its target.
pub open spec fn needed_rate<N: Num>(obs: ObservationModel<N>, s: SessionView<N>) -> N {
    s.vehicle.soc_target_kwh.minus(s.soc_kwh).over(time_left(obs, s).over(count(3600)))
}

/// What each shown session needs to draw, as far as its limit goes, kW.
pub open spec fn demand<N: Num>(value: spec_fn(N) -> real, obs: ObservationModel<N>) -> spec_fn(int) -> real {
    |k: int|
        most(
            least(value(needed_rate(obs, obs.sessions[k])), value(obs.sessions[k].max_charge_kw)),
            0real,
        )
}

/// What each shown session has to give, kW.
pub open spec fn supply<N: Num>(value: spec_fn(N) -> real, obs: ObservationModel<N>) -> spec_fn(int) -> real {
    |k: int| most(0real - value(needed_rate(obs, obs.sessions[k])), 0real)
}

/// What a threshold leaves above the building, kW.
pub open spec fn headroom<N: Num>(value: spec_fn(N) -> real, obs: ObservationModel<N>, threshold: N) -> real {
    value(threshold) - value(obs.building_load_kw)
}

/// The threshold leaves room for what the sessions need to draw, and the figures fit the
/// number type.
pub open spec fn has_budget<N: Num>(value: spec_fn(N) -> real, obs: ObservationModel<N>, threshold: N) -> bool {
    let n = obs.sessions.len();
    &&& threshold.finite()
    &&& total(demand(value, obs), n) <= headroom(value, obs, threshold)
    &&& fits(value, headroom(value, obs, threshold) + total(supply(value, obs), n))
}

/// A session whose figures the laws can use: rates up to its needs are taken as asked.
spec fn is_plain<N: Num>(value: spec_fn(N) -> real, obs: ObservationModel<N>, s: SessionView<N>) -> bool {
    let rate = needed_rate(obs, s);
    &&& rate.finite() && !rate.infinite()
    &&& s.max_charge_kw.finite() && 0real <= value(s.max_charge_kw)
    &&& s.max_discharge_kw.finite() && 0real <= value(s.max_discharge_kw)
    &&& 0real < value(rate) ==> is_eligible(obs, s)
    &&& forall|x: N|
        x.finite() && (value(x) <= 0real || 0real < value(rate)) ==> (#[trigger] tapered(
            s.vehicle,
            s.soc_kwh,
            x,
        )).finite() && value(tapered(s.vehicle, s.soc_kwh, x)) == value(x)
}

/// All shown sessions are such.
spec fn are_plain<N: Num>(value: spec_fn(N) -> real, obs: ObservationModel<N>) -> bool {
    &&& are_indexed(obs)
    &&& obs.sessions.len() <= usize::MAX
    &&& obs.building_load_kw.finite()
    &&& forall|k: int| 0 <= k < obs.sessions.len() ==> is_plain(value, obs, #[trigger] obs.sessions[k])
}

/// What is asked of a session: the needed rate up to its limit; above the target, the
/// needed rate or the discharging limit.
spec fn is_asked<N: Num>(value: spec_fn(N) -> real, obs: ObservationModel<N>, k: int, x: N) -> bool {
    let rate = value(needed_rate(obs, obs.sessions[k]));
    &&& x.finite()
    &&& if 0real < rate {
        value(x) == least(rate, value(obs.sessions[k].max_charge_kw))
    } else {
        &&& rate <= value(x) <= 0real
        &&& value(x) == rate || value(x) == 0real - value(obs.sessions[k].max_discharge_kw)
    }
}

/// Every setpoint asks just that.
spec fn are_asked<N: Num>(value: spec_fn(N) -> real, obs: ObservationModel<N>, out: Seq<Setpoint<N>>) -> bool {
    forall|p: int|
        0 <= p < out.len() ==> (#[trigger] out[p]).session_index < obs.sessions.len() && is_asked(
            value,
            obs,
            out[p].session_index as int,
            out[p].power_kw,
        )
}

/// Some setpoint is for session `k`.
spec fn asks_for<N: Num>(out: Seq<Setpoint<N>>, k: int) -> bool {
    exists|p: int| 0 <= p < out.len() && (#[trigger] out[p]).session_index == k
}

/// One more setpoint.
proof fn lemma_ask_more<N: Num>(
    value: spec_fn(N) -> real,
    obs: ObservationModel<N>,
    out: Seq<Setpoint<N>>,
    sp: Setpoint<N>,
)
    requires
        are_asked(value, obs, out),
        sp.session_index < obs.sessions.len(),
        is_asked(value, obs, sp.session_index as int, sp.power_kw),
    ensures
        are_asked(value, obs, out.push(sp)),
        asks_for(out.push(sp), sp.session_index as int),
        forall|k: int| #[trigger] asks_for(out, k) ==> asks_for(out.push(sp), k),
{
    let more = out.push(sp);
    assert forall|p: int| 0 <= p < more.len() implies (#[trigger] more[p]).session_index < obs.sessions.len()
        && is_asked(value, obs, more[p].session_index as int, more[p].power_kw) by {
        if p < out.len() {
            assert(more[p] == out[p]);
        }
    }
    assert(more[out.len() as int] == sp);
    assert forall|k: int| #[trigger] asks_for(out, k) implies asks_for(more, k) by {
        let p = choose|p: int| 0 <= p < out.len() && (#[trigger] out[p]).session_index == k;
        assert(more[p] == out[p]);
    }
}

/// What a row gets from a budget that suffices for it.
proof fn lemma_budget_rate<N: Num>(
    value: spec_fn(N) -> real,
    unit: real,
    key: SortKey,
    threshold: N,
    obs: ObservationModel<N>,
    w: Walk<N>,
    row: Row<N>,
)
    requires
        rounds_toward_zero(value, unit),
        are_plain(value, obs),
        is_row(key, threshold, obs, row),
        w.capacity.finite(),
        0real < value(w.capacity),
        demand(value, obs)(row.session_index as int) <= value(w.capacity),
    ensures
        ({
            let x = budget_rate(obs, w, row);
            let k = row.session_index as int;
            &&& is_asked(value, obs, k, x)
            &&& 0real - supply(value, obs)(k) <= value(x) <= demand(value, obs)(k)
        }),
{
    lemma_constants(value, unit);
    let k = row.session_index as int;
    let s = obs.sessions[k];
    assert(is_plain(value, obs, s));
    let needed = row.min_rate_needed_kw;
    assert(needed == needed_rate(obs, s));
    lemma_finite(value, unit, needed);
    lemma_finite(value, unit, w.capacity);
    lemma_finite(value, unit, s.max_charge_kw);
    lemma_compare(value, unit, needed, w.capacity);
    let clipped = if w.capacity.below(w.used.plus(needed)) {
        needed.lesser(w.capacity)
    } else {
        needed
    };
    lemma_compare(value, unit, clipped, s.max_charge_kw);
    let asked = clipped.lesser(s.max_charge_kw);
    assert(value(asked) == least(value(needed), value(s.max_charge_kw)));
    if value(asked) <= 0real {
        lemma_closer_fits(value, value(asked), value(needed));
    } else {
        lemma_closer_fits(value, value(asked), value(s.max_charge_kw));
    }
    lemma_fitting(value, unit, asked);
    assert(budget_rate(obs, w, row) == tapered(s.vehicle, s.soc_kwh, asked));
}

/// What a row is forced to.
proof fn lemma_forced_rate<N: Num>(
    value: spec_fn(N) -> real,
    unit: real,
    key: SortKey,
    threshold: N,
    obs: ObservationModel<N>,
    row: Row<N>,
)
    requires
        rounds_toward_zero(value, unit),
        are_plain(value, obs),
        is_row(key, threshold, obs, row),
    ensures
        is_asked(value, obs, row.session_index as int, forced_rate(obs, row)),
{
    lemma_constants(value, unit);
    let k = row.session_index as int;
    let s = obs.sessions[k];
    assert(is_plain(value, obs, s));
    let needed = row.min_rate_needed_kw;
    assert(needed == needed_rate(obs, s));
    lemma_finite(value, unit, needed);
    lemma_finite(value, unit, s.max_charge_kw);
    lemma_compare(value, unit, zero_of::<N>(), needed);
    if 0real < value(needed) {
        lemma_compare(value, unit, needed, s.max_charge_kw);
        let asked = needed.lesser(s.max_charge_kw);
        lemma_closer_fits(value, value(asked), value(needed));
        lemma_fitting(value, unit, asked);
        assert(forced_rate(obs, row) == tapered(s.vehicle, s.soc_kwh, asked));
    } else {
        let limit = s.max_discharge_kw.negated();
        lemma_negated(value, unit, s.max_discharge_kw);
        lemma_finite(value, unit, limit);
        lemma_compare(value, unit, needed, limit);
        let asked = needed.greater(limit);
        lemma_closer_fits(value, value(asked), value(needed));
        lemma_fitting(value, unit, asked);
        assert(forced_rate(obs, row) == tapered(s.vehicle, s.soc_kwh, asked));
    }
}

/// The sessions of the first `n` rows.
spec fn sessions_of<N: Num>(rows: Seq<Row<N>>, n: nat) -> Seq<usize> {
    Seq::new(n, |r: int| rows[r].session_index)
}

/// A session that the walk asks for: it needs to draw, or the budget is never used up.
spec fn is_owed<N: Num>(value: spec_fn(N) -> real, obs: ObservationModel<N>, threshold: N, k: int) -> bool {
    ||| 0real < demand(value, obs)(k)
    ||| total(demand(value, obs), obs.sessions.len()) < headroom(value, obs, threshold)
}

/// The walk after `n` rows.
spec fn is_walked<N: Num>(
    value: spec_fn(N) -> real,
    obs: ObservationModel<N>,
    threshold: N,
    rows: Seq<Row<N>>,
    w: Walk<N>,
    n: nat,
) -> bool {
    let list = sessions_of(rows, n);
    let room = headroom(value, obs, threshold);
    &&& w.capacity.finite()
    &&& room - part(demand(value, obs), list) <= value(w.capacity)
    &&& value(w.capacity) <= room + part(supply(value, obs), list)
    &&& are_asked(value, obs, w.out)
    &&& forall|r: int|
        0 <= r < n && is_owed(value, obs, threshold, (#[trigger] rows[r]).session_index as int)
            ==> asks_for(w.out, rows[r].session_index as int)
}

/// The sessions of the first rows are no more than there are.
proof fn lemma_sessions_of<N: Num>(
    value: spec_fn(N) -> real,
    key: SortKey,
    threshold: N,
    obs: ObservationModel<N>,
    rows: Seq<Row<N>>,
    n: nat,
)
    requires
        are_distinct_rows(key, threshold, obs, rows),
        n < rows.len(),
    ensures
        ({
            let list = sessions_of(rows, n);
            let k = rows[n as int].session_index as int;
            let m = obs.sessions.len();
            &&& 0real <= part(demand(value, obs), list)
            &&& part(demand(value, obs), list) + demand(value, obs)(k) <= total(demand(value, obs), m)
            &&& 0real <= part(supply(value, obs), list)
            &&& part(supply(value, obs), list) + supply(value, obs)(k) <= total(supply(value, obs), m)
            &&& 0real <= demand(value, obs)(k)
            &&& 0real <= supply(value, obs)(k)
            &&& sessions_of(rows, n + 1).drop_last() == list
            &&& sessions_of(rows, n + 1).last() == k
        }),
{
    let list = sessions_of(rows, n);
    let k = rows[n as int].session_index;
    assert(is_row(key, threshold, obs, rows[n as int]));
    assert forall|r: int| 0 <= r < list.len() implies #[trigger] list[r] < obs.sessions.len() by {
        assert(is_row(key, threshold, obs, rows[r]));
    }
    assert(list.no_duplicates()) by {
        assert forall|a: int, b: int| 0 <= a < list.len() && 0 <= b < list.len() && a != b implies list[a]
            != list[b] by {
            assert(rows[a].session_index != rows[b].session_index);
        }
    }
    assert(!list.contains(k)) by {
        if list.contains(k) {
            let r = choose|r: int| 0 <= r < list.len() && list[r] == k;
            assert(rows[r].session_index != rows[n as int].session_index);
        }
    }
    lemma_part_and(demand(value, obs), list, obs.sessions.len(), k);
    lemma_part_and(supply(value, obs), list, obs.sessions.len(), k);
    assert(sessions_of(rows, n + 1).drop_last() =~= list);
}

/// The walk over one more row.
proof fn lemma_walk_row<N: Num>(
    value: spec_fn(N) -> real,
    unit: real,
    key: SortKey,
    threshold: N,
    obs: ObservationModel<N>,
    rows: Seq<Row<N>>,
    w: Walk<N>,
    n: nat,
)
    requires
        rounds_toward_zero(value, unit),
        are_plain(value, obs),
        has_budget(value, obs, threshold),
        are_distinct_rows(key, threshold, obs, rows),
        n < rows.len(),
        is_walked(value, obs, threshold, rows, w, n),
    ensures
        is_walked(value, obs, threshold, rows, walk_row(obs, w, rows[n as int]), (n + 1) as nat),
{
    lemma_constants(value, unit);
    let row = rows[n as int];
    let k = row.session_index as int;
    assert(is_row(key, threshold, obs, row));
    lemma_sessions_of(value, key, threshold, obs, rows, n);
    lemma_finite(value, unit, w.capacity);
    lemma_compare(value, unit, w.capacity, zero_of::<N>());
    let next = walk_row(obs, w, row);
    if 0real < value(w.capacity) {
        lemma_budget_rate(value, unit, key, threshold, obs, w, row);
        let x = budget_rate(obs, w, row);
        let room = headroom(value, obs, threshold);
        lemma_closer_fits(
            value,
            value(w.capacity) - value(x),
            room + total(supply(value, obs), obs.sessions.len()),
        );
        lemma_minus(value, unit, w.capacity, x);
        lemma_ask_more(value, obs, w.out, Setpoint { session_index: row.session_index, power_kw: x });
        assert forall|r: int|
            0 <= r < n + 1 && is_owed(
                value,
                obs,
                threshold,
                (#[trigger] rows[r]).session_index as int,
            ) implies asks_for(next.out, rows[r].session_index as int) by {
            if r < n {
                assert(asks_for(w.out, rows[r].session_index as int));
            }
        }
    } else {
        assert(next == w);
        assert(!is_owed(value, obs, threshold, k));
    }
}

proof fn lemma_walk<N: Num>(
    value: spec_fn(N) -> real,
    unit: real,
    key: SortKey,
    threshold: N,
    obs: ObservationModel<N>,
    rows: Seq<Row<N>>,
    n: nat,
)
    requires
        rounds_toward_zero(value, unit),
        are_plain(value, obs),
        has_budget(value, obs, threshold),
        are_distinct_rows(key, threshold, obs, rows),
        n <= rows.len(),
    ensures
        is_walked(value, obs, threshold, rows, walk(obs, threshold, rows, n), n),
    decreases n,
{
    if n == 0 {
        lemma_start(value, unit, obs, threshold);
        assert(sessions_of(rows, 0) =~= Seq::empty());
    } else {
        let p = (n - 1) as nat;
        lemma_walk(value, unit, key, threshold, obs, rows, p);
        lemma_walk_row(value, unit, key, threshold, obs, rows, walk(obs, threshold, rows, p), p);
    }
}

/// The budget with which the walk starts.
proof fn lemma_start<N: Num>(value: spec_fn(N) -> real, unit: real, obs: ObservationModel<N>, threshold: N)
    requires
        rounds_toward_zero(value, unit),
        are_plain(value, obs),
        has_budget(value, obs, threshold),
    ensures
        threshold.minus(obs.building_load_kw).finite(),
        value(threshold.minus(obs.building_load_kw)) == headroom(value, obs, threshold),
{
    let n = obs.sessions.len();
    lemma_part(demand(value, obs), Seq::empty(), n);
    lemma_part(supply(value, obs), Seq::empty(), n);
    let room = headroom(value, obs, threshold);
    lemma_closer_fits(value, room, room + total(supply(value, obs), n));
    lemma_minus(value, unit, threshold, obs.building_load_kw);
}

proof fn lemma_forced<N: Num>(
    value: spec_fn(N) -> real,
    unit: real,
    key: SortKey,
    threshold: N,
    obs: ObservationModel<N>,
    rows: Seq<Row<N>>,
    w: Walk<N>,
    n: nat,
)
    requires
        rounds_toward_zero(value, unit),
        are_plain(value, obs),
        are_distinct_rows(key, threshold, obs, rows),
        are_asked(value, obs, w.out),
        n <= rows.len(),
    ensures
        are_asked(value, obs, forced(obs, w, rows, n).out),
        forall|k: int| #[trigger] asks_for(w.out, k) ==> asks_for(forced(obs, w, rows, n).out, k),
    decreases n,
{
    if n > 0 {
        let p = (n - 1) as nat;
        lemma_forced(value, unit, key, threshold, obs, rows, w, p);
        let row = rows[p as int];
        assert(is_row(key, threshold, obs, row));
        if is_forced(row, w.served) {
            let before = forced(obs, w, rows, p);
            lemma_forced_rate(value, unit, key, threshold, obs, row);
            lemma_ask_more(
                value,
                obs,
                before.out,
                Setpoint { session_index: row.session_index, power_kw: forced_rate(obs, row) },
            );
            assert forall|k: int| #[trigger] asks_for(w.out, k) implies asks_for(
                forced(obs, w, rows, n).out,
                k,
            ) by {
                assert(asks_for(before.out, k));
            }
        }
    }
}

/// What a threshold scheduler with a budget asks: the needed rates, and of every eligible
/// session that it owes them.
proof fn lemma_scheduled<N: Num>(
    value: spec_fn(N) -> real,
    unit: real,
    key: SortKey,
    threshold: N,
    obs: ObservationModel<N>,
)
    requires
        rounds_toward_zero(value, unit),
        are_plain(value, obs),
        has_budget(value, obs, threshold),
    ensures
        are_asked(value, obs, scheduled(key, threshold, obs).out),
        forall|k: int|
            0 <= k < obs.sessions.len() && is_eligible(obs, #[trigger] obs.sessions[k]) && is_owed(
                value,
                obs,
                threshold,
                k,
            ) ==> asks_for(scheduled(key, threshold, obs).out, k),
{
    let rows = serving_rows(key, threshold, obs);
    let n = rows.len();
    lemma_serving_rows(key, threshold, obs);
    lemma_walk(value, unit, key, threshold, obs, rows, n);
    let w = walk(obs, threshold, rows, n);
    lemma_forced(value, unit, key, threshold, obs, rows, w, n);
    assert forall|k: int|
        0 <= k < obs.sessions.len() && is_eligible(obs, #[trigger] obs.sessions[k]) && is_owed(
            value,
            obs,
            threshold,
            k,
        ) implies asks_for(scheduled(key, threshold, obs).out, k) by {
        assert(has_row(rows, k));
        let r = choose|r: int| 0 <= r < rows.len() && (#[trigger] rows[r]).session_index == k;
        assert(asks_for(w.out, rows[r].session_index as int));
    }
}

// ------------------------------------------------------- the sessions of a site

/// No vehicle has a negative discharging limit.
pub open spec fn gives_are_positive<N: Num>(value: spec_fn(N) -> real, sc: ScenarioModel<N>) -> bool {
    forall|i: int| 0 <= i < sc.vehicles.len() ==> 0real <= value((#[trigger] sc.vehicles[i]).max_discharge_kw)
}

/// The hours that a session of row `i` has left in slot `t`.
pub open spec fn hours_left<N: Num>(value: spec_fn(N) -> real, sc: ScenarioModel<N>, i: int, t: int) -> real {
    (sc.vehicles[i].departure_slot - t) as real * value(sc.rules.slot_minutes) / 60real
}

/// The needed rate makes up the gap to the target over the time that is left, up to
/// rounding.
spec fn is_metered(rate: real, gap: real, hours: real, unit: real) -> bool {
    &&& 0real <= gap ==> 0real <= rate && gap / hours - unit <= rate && rate * (hours - 2real * unit) <= gap
    &&& gap <= 0real ==> rate <= 0real && rate <= gap / hours + unit && gap <= rate * (hours - 2real * unit)
}

proof fn lemma_metered(rate: real, gap: real, h: real, hours: real, unit: real)
    requires
        0real <= unit,
        1real / 100real <= h <= hours,
        hours - 2real * unit <= h,
        0real <= gap ==> 0real <= rate && gap / h - unit <= rate <= gap / h,
        gap <= 0real ==> rate <= 0real && gap / h <= rate <= gap / h + unit,
    ensures
        is_metered(rate, gap, hours, unit),
{
    if 0real <= gap {
        assert(gap / hours <= gap / h && rate * (hours - 2real * unit) <= gap) by (nonlinear_arith)
            requires
                0real <= gap,
                0real < h <= hours,
                hours - 2real * unit <= h,
                0real <= rate <= gap / h,
        {
            assert((gap / h) * h == gap);
            assert(rate * (hours - 2real * unit) <= rate * h);
            assert(rate * h <= (gap / h) * h);
        }
    }
    if gap <= 0real {
        assert(gap / h <= gap / hours && gap <= rate * (hours - 2real * unit)) by (nonlinear_arith)
            requires
                gap <= 0real,
                0real < h <= hours,
                hours - 2real * unit <= h,
                gap / h <= rate <= 0real,
        {
            assert((gap / h) * h == gap);
            assert(rate * h <= rate * (hours - 2real * unit));
            assert((gap / h) * h <= rate * h);
        }
    }
}

/// The needed rate of a session.
proof fn lemma_needed_rate<N: Num>(
    value: spec_fn(N) -> real,
    unit: real,
    sc: ScenarioModel<N>,
    m: real,
    obs: ObservationModel<N>,
    s: SessionView<N>,
    i: int,
)
    requires
        is_fine(value, unit),
        is_valid(sc),
        is_ready(value, sc),
        is_unhurried(value, sc),
        1real <= value(sc.rules.slot_minutes),
        0 <= i < sc.vehicles.len(),
        s.vehicle == sc.vehicles[i],
        obs.slot_minutes == sc.rules.slot_minutes,
        obs.slot < sc.vehicles[i].departure_slot,
        s.soc_kwh.finite(),
        0real <= value(s.soc_kwh) <= value(sc.vehicles[i].ceiling()),
    ensures
        needed_rate(obs, s).finite(),
        !needed_rate(obs, s).infinite(),
        is_metered(
            value(needed_rate(obs, s)),
            value(sc.vehicles[i].soc_target_kwh) - value(s.soc_kwh),
            hours_left(value, sc, i, obs.slot as int),
            unit,
        ),
{
    reveal(has_measures);
    lemma_constants(value, unit);
    let v = sc.vehicles[i];
    lemma_need(value, unit, sc, m, i, s.soc_kwh);
    let need = v.soc_target_kwh.minus(s.soc_kwh);
    let x = value(need);
    let n = v.departure_slot - obs.slot;
    let d = value(sc.rules.slot_minutes);
    assert(session_is_valid(v, sc.rules.horizon_slots));
    let h = sc.rules.horizon_slots as real;
    assert(0real <= n as real * d * 60real <= h * d * 60real) by (nonlinear_arith)
        requires
            0real <= n as real <= h,
            1real <= d,
    ;
    lemma_closer_fits(value, n as real * d * 60real, h * d * 60real);
    lemma_hours(value, unit, sc.rules.slot_minutes, n);
    let hours = time_left(obs, s).over(count(3600));
    let y = value(hours);
    let c = value(v.ceiling()) * 100real;
    assert(0real - c <= x / y <= c) by (nonlinear_arith)
        requires
            0real - c <= x * 100real <= c,
            1real / 100real <= y,
    {
        assert((x / y) * y == x);
        if x >= 0real {
            assert(x / y <= x * 100real);
            assert(0real <= x / y);
        } else {
            assert(x * 100real <= x / y);
            assert(x / y <= 0real);
        }
    }
    lemma_closer_fits(value, x / y, c);
    if x >= 0real {
        lemma_over(value, unit, need, hours);
    }
    if x <= 0real {
        lemma_under(value, unit, need, hours);
    }
    lemma_metered(value(needed_rate(obs, s)), x, y, hours_left(value, sc, i, obs.slot as int), unit);
}

/// What of `rate` a session of row `i` takes: a discharging rate, and below the target a
/// charging rate too.
proof fn lemma_takes<N: Num>(
    value: spec_fn(N) -> real,
    unit: real,
    sc: ScenarioModel<N>,
    i: int,
    soc: N,
    rate: N,
)
    requires
        is_fine(value, unit),
        is_valid(sc),
        is_ready(value, sc),
        is_unhurried(value, sc),
        0 <= i < sc.vehicles.len(),
        is_in_range(value, sc.vehicles[i], soc),
        rate.finite(),
        value(rate) <= 0real || value(soc) < value(sc.vehicles[i].soc_target_kwh),
    ensures
        tapered(sc.vehicles[i], soc, rate).finite(),
        value(tapered(sc.vehicles[i], soc, rate)) == value(rate),
{
    lemma_constants(value, unit);
    let v = sc.vehicles[i];
    lemma_battery(value, unit, sc, i);
    assert(is_usable(value, sc, v));
    if 0real < value(rate) {
        lemma_untapered(value, unit, sc, i, soc, rate);
    } else {
        lemma_finite(value, unit, rate);
        lemma_compare(value, unit, zero_of::<N>(), rate);
        lemma_compare(value, unit, rate, zero_of::<N>());
        lemma_percent(value, unit, v, v.min_soc_kwh);
        lemma_percent(value, unit, v, soc);
        lemma_percent_order(value, unit, v, v.min_soc_kwh, soc);
        lemma_finite(value, unit, percent(v.min_soc_kwh, v));
        lemma_finite(value, unit, percent(soc, v));
        lemma_compare(value, unit, percent(v.min_soc_kwh, v), percent(soc, v));
    }
}

/// The limits that a policy is shown.
proof fn lemma_limits<N: Num>(
    value: spec_fn(N) -> real,
    unit: real,
    sc: ScenarioModel<N>,
    st: SiteModel<N>,
    k: int,
    row: int,
)
    requires
        rounds_toward_zero(value, unit),
        is_valid(sc),
        limits_are_positive(value, sc),
        gives_are_positive(value, sc),
        0 <= row < sc.vehicles.len(),
        st.active[row] matches Some(s) && s.charger_index < sc.chargers.len(),
    ensures
        ({
            let view = session_view(sc, st, k, row);
            &&& view.max_charge_kw.finite()
            &&& value(view.max_charge_kw) == limit_of(value, sc, row, st.active[row]->0)
            &&& 0real <= value(view.max_charge_kw)
            &&& view.max_discharge_kw.finite()
            &&& value(view.max_discharge_kw) == give_limit_of(value, sc, row, st.active[row]->0)
            &&& 0real <= value(view.max_discharge_kw)
        }),
{
    lemma_constants(value, unit);
    let v = sc.vehicles[row];
    let port = sc.chargers[st.active[row]->0.charger_index as int];
    let view = session_view(sc, st, k, row);
    assert(vehicle_is_finite(v));
    lemma_shown_limit(value, unit, sc, st, k, row);
    lemma_finite(value, unit, v.max_charge_kw);
    lemma_closer_fits(value, value(view.max_charge_kw), value(v.max_charge_kw));
    lemma_fitting(value, unit, view.max_charge_kw);
    lemma_finite(value, unit, v.max_discharge_kw);
    lemma_finite(value, unit, port.max_kw);
    lemma_compare(value, unit, v.max_discharge_kw, port.max_kw);
    assert(0real <= value(v.max_discharge_kw));
    assert(0real <= value(port.max_kw));
    lemma_closer_fits(value, value(view.max_discharge_kw), value(v.max_discharge_kw));
    lemma_fitting(value, unit, view.max_discharge_kw);
}

/// The most power that vehicle and port let session `s` of row `i` give, kW.
pub open spec fn give_limit_of<N: Num>(
    value: spec_fn(N) -> real,
    sc: ScenarioModel<N>,
    i: int,
    s: Session<N>,
) -> real {
    let port = sc.chargers[s.charger_index as int];
    if port.bidirectional {
        least(value(sc.vehicles[i].max_discharge_kw), value(port.max_kw))
    } else {
        0real
    }
}

/// A site at the decision point of slot `t` on which the schedulers are promised to serve.
#[verifier::opaque]
spec fn is_serviceable<N: Num>(
    value: spec_fn(N) -> real,
    unit: real,
    sc: ScenarioModel<N>,
    m: real,
    st: SiteModel<N>,
    t: int,
) -> bool {
    &&& is_fine(value, unit)
    &&& is_valid(sc)
    &&& is_ready(value, sc)
    &&& is_moderate(value, sc, m)
    &&& is_roomy(value, sc)
    &&& is_unhurried(value, sc)
    &&& gives_are_positive(value, sc)
    &&& is_sound(sc, st, t + 1, t)
    &&& is_lawful(value, unit, sc, m, st, t)
    &&& sc.vehicles.len() <= usize::MAX
    &&& sc.building.len() == sc.rules.horizon_slots
    &&& 0 <= t < sc.rules.horizon_slots
}

/// What shown session `k` of such a site is.
#[verifier::opaque]
spec fn is_shown_as<N: Num>(
    value: spec_fn(N) -> real,
    unit: real,
    sc: ScenarioModel<N>,
    st: SiteModel<N>,
    t: int,
    k: int,
) -> bool {
    let obs = observation(sc, st, t);
    let row = shown_rows(sc, st)[k] as int;
    let view = obs.sessions[k];
    &&& 0 <= row < sc.vehicles.len()
    &&& st.active[row] matches Some(s) && {
        &&& s.charger_index < sc.chargers.len()
        &&& view.soc_kwh == s.soc_kwh
        &&& value(view.max_charge_kw) == limit_of(value, sc, row, s)
        &&& value(view.max_discharge_kw) == give_limit_of(value, sc, row, s)
    }
    &&& view.index == k
    &&& view.vehicle == sc.vehicles[row]
    &&& t < view.vehicle.departure_slot
    &&& is_in_range(value, view.vehicle, view.soc_kwh)
    &&& is_plain(value, obs, view)
    &&& is_metered(
        value(needed_rate(obs, view)),
        value(view.vehicle.soc_target_kwh) - value(view.soc_kwh),
        hours_left(value, sc, row, t),
        unit,
    )
}

proof fn lemma_shown_as<N: Num>(
    value: spec_fn(N) -> real,
    unit: real,
    sc: ScenarioModel<N>,
    m: real,
    st: SiteModel<N>,
    t: int,
    k: int,
)
    requires
        is_serviceable(value, unit, sc, m, st, t),
        0 <= k < shown_rows(sc, st).len(),
    ensures
        is_shown_as(value, unit, sc, st, t, k),
{
    reveal(is_serviceable);
    reveal(is_shown_as);
    lemma_constants(value, unit);
    lemma_shown(sc, st);
    let obs = observation(sc, st, t);
    let rows = shown_rows(sc, st);
    let row = rows[k] as int;
    assert(rows[k] < sc.vehicles.len());
    assert(st.active[row] is Some);
    let view = obs.sessions[k];
    assert(view == session_view(sc, st, k, row));
    assert(is_plugged(sc, st, row));
    assert(is_row_healthy(value, unit, sc, m, st.active, t, row));
    let v = sc.vehicles[row];
    assert(is_usable(value, sc, v));
    lemma_battery(value, unit, sc, row);
    lemma_limits(value, unit, sc, st, k, row);
    lemma_needed_rate(value, unit, sc, m, obs, view, row);
    let rate = needed_rate(obs, view);
    if 0real < value(rate) {
        lemma_finite(value, unit, view.soc_kwh);
        lemma_finite(value, unit, v.soc_target_kwh);
        lemma_finite(value, unit, v.ceiling());
        lemma_compare(value, unit, view.soc_kwh, v.soc_target_kwh);
        lemma_compare(value, unit, view.soc_kwh, v.ceiling());
    }
    assert forall|x: N|
        x.finite() && (value(x) <= 0real || 0real < value(rate)) implies (#[trigger] tapered(
        view.vehicle,
        view.soc_kwh,
        x,
    )).finite() && value(tapered(view.vehicle, view.soc_kwh, x)) == value(x) by {
        lemma_takes(value, unit, sc, row, view.soc_kwh, x);
    }
}

/// All shown sessions of such a site are plain.
proof fn lemma_plain<N: Num>(
    value: spec_fn(N) -> real,
    unit: real,
    sc: ScenarioModel<N>,
    m: real,
    st: SiteModel<N>,
    t: int,
)
    requires
        is_serviceable(value, unit, sc, m, st, t),
    ensures
        are_plain(value, observation(sc, st, t)),
        observation(sc, st, t).sessions.len() == shown_rows(sc, st).len(),
{
    reveal(is_serviceable);
    reveal(is_shown_as);
    lemma_shown(sc, st);
    let obs = observation(sc, st, t);
    assert(obs.building_load_kw.finite());
    assert forall|k: int| 0 <= k < obs.sessions.len() implies is_plain(value, obs, #[trigger] obs.sessions[k])
        && obs.sessions[k].index == k by {
        lemma_shown_as(value, unit, sc, m, st, t, k);
    }
}

// ------------------------------------------------------------------ one slot

/// The last setpoint for session `k`.
proof fn lemma_last_word<N: Num>(
    value: spec_fn(N) -> real,
    obs: ObservationModel<N>,
    out: Seq<Setpoint<N>>,
    k: int,
    n: nat,
) -> (j: int)
    requires
        are_asked(value, obs, out),
        n <= out.len(),
        asks_for(out.take(n as int), k),
        forall|p: int| n <= p < out.len() ==> (#[trigger] out[p]).session_index != k,
    ensures
        is_last_word(out, obs.sessions.len(), j),
        out[j].session_index == k,
    decreases n,
{
    let list = out.take(n as int);
    let p = choose|p: int| 0 <= p < list.len() && (#[trigger] list[p]).session_index == k;
    assert(list[p] == out[p]);
    let last = n - 1;
    if out[last].session_index == k {
        assert(is_admissible(out[last], obs.sessions.len()));
        last
    } else {
        assert(p < last);
        assert(out.take(last)[p] == out[p]);
        lemma_last_word(value, obs, out, k, last as nat)
    }
}

/// What a slot of a threshold scheduler does to shown session `k`, where it asks for it.
spec fn is_answered<N: Num>(
    value: spec_fn(N) -> real,
    sc: ScenarioModel<N>,
    st: SiteModel<N>,
    t: int,
    out: Seq<Setpoint<N>>,
    k: int,
    x: N,
    allowance: N,
) -> bool {
    let obs = observation(sc, st, t);
    &&& is_asked(value, obs, k, x)
    &&& is_done_as_asked(sc, st, t, out, k, x, allowance)
    &&& if 0real <= value(x) {
        allowance == N::unbounded()
    } else {
        &&& allowance.finite()
        &&& value(sc.building[t]) - total(supply(value, obs), obs.sessions.len()) + supply(value, obs)(k)
            <= value(allowance)
    }
}

proof fn lemma_answered<N: Num>(
    value: spec_fn(N) -> real,
    unit: real,
    sc: ScenarioModel<N>,
    m: real,
    st: SiteModel<N>,
    t: int,
    out: Seq<Setpoint<N>>,
    k: int,
) -> (r: (N, N))
    requires
        is_serviceable(value, unit, sc, m, st, t),
        0 <= k < shown_rows(sc, st).len(),
        are_asked(value, observation(sc, st, t), out),
        asks_for(out, k),
    ensures
        is_answered(value, sc, st, t, out, k, r.0, r.1),
{
    reveal(is_serviceable);
    let obs = observation(sc, st, t);
    lemma_plain(value, unit, sc, m, st, t);
    assert(out.take(out.len() as int) =~= out);
    let j = lemma_last_word(value, obs, out, k, out.len());
    assert(is_admissible(out[j], obs.sessions.len()));
    let x = out[j].power_kw;
    if 0real <= value(x) {
        lemma_charged_as_asked(value, unit, sc, m, st, t, out, j);
        (x, N::unbounded())
    } else {
        let f = supply(value, obs);
        assert forall|p: int|
            0 <= p < out.len() && is_admissible(#[trigger] out[p], obs.sessions.len()) implies 0real - value(
            out[p].power_kw,
        ) <= f(out[p].session_index as int) by {
            assert(is_asked(value, obs, out[p].session_index as int, out[p].power_kw));
            let q = out[p].session_index as int;
            assert(is_plain(value, obs, obs.sessions[q]));
        }
        let allowance = lemma_discharged_as_asked(value, unit, sc, m, st, t, out, j, f);
        (x, allowance)
    }
}

/// A metered rate closes the gap in the last slot, up to rounding, and never before.
proof fn lemma_overshoot(rate: real, need: real, left: real, d: real, unit: real)
    requires
        0real <= unit <= 1real / 1000real,
        1real <= d,
        1real <= left,
        0real <= rate,
        0real <= need,
        rate * (left * d / 60real - 2real * unit) <= need,
    ensures
        2real <= left ==> rate * d / 60real <= need,
        left == 1real ==> rate * d / 60real <= need + 150real * unit * need,
{
    let hours = left * d / 60real;
    if 2real <= left {
        assert(d / 60real <= hours - 2real * unit) by (nonlinear_arith)
            requires
                hours == left * d / 60real,
                2real <= left,
                1real <= d,
                unit <= 1real / 1000real,
        {
            assert(2real * d <= left * d);
        }
        assert(rate * d / 60real <= need) by (nonlinear_arith)
            requires
                0real <= rate,
                d / 60real <= hours - 2real * unit,
                rate * (hours - 2real * unit) <= need,
        {
            assert(rate * (d / 60real) <= rate * (hours - 2real * unit));
            assert(rate * (d / 60real) == rate * d / 60real);
        }
    }
    if left == 1real {
        assert(rate * d / 60real <= need + 150real * unit * need) by (nonlinear_arith)
            requires
                0real <= rate,
                0real <= need,
                1real <= d,
                0real <= unit <= 1real / 1000real,
                rate * (1real * d / 60real - 2real * unit) <= need,
        {
            let g = d / 60real - 2real * unit;
            assert(1real / 75real <= g);
            assert(rate * (1real / 75real) <= rate * g);
            assert(rate <= 75real * need);
            assert(rate * g == rate * d / 60real - 2real * (unit * rate));
            assert(unit * rate <= unit * (75real * need));
            assert(unit * (75real * need) == 75real * (unit * need));
            assert(150real * unit * need == 150real * (unit * need));
        }
    }
}

/// What a slot does to a session below its target: its SoC rises, not past the target
/// before the last slot, and its need shrinks.
spec fn is_raised<N: Num>(
    value: spec_fn(N) -> real,
    unit: real,
    sc: ScenarioModel<N>,
    s: Session<N>,
    next: Option<Session<N>>,
    t: int,
    i: int,
) -> bool {
    &&& is_need_shrunk(value, unit, sc, s, next, t, i, 0real)
    &&& next matches Some(u) && (t + 1 < sc.vehicles[i].departure_slot ==> value(u.soc_kwh) <= value(
        sc.vehicles[i].soc_target_kwh,
    ))
}

/// What a slot does to a session below its target, of which `rate` is the needed rate.
spec fn is_lifted<N: Num>(
    value: spec_fn(N) -> real,
    unit: real,
    sc: ScenarioModel<N>,
    s: Session<N>,
    next: Option<Session<N>>,
    rate: real,
    i: int,
) -> bool {
    let d = value(sc.rules.slot_minutes);
    let ask = least(rate, limit_of(value, sc, i, s));
    let room = value(sc.vehicles[i].ceiling()) - value(s.soc_kwh);
    next matches Some(u) && {
        &&& u.charger_index == s.charger_index
        &&& value(s.soc_kwh) <= value(u.soc_kwh)
        &&& value(s.soc_kwh) + least(ask * d / 60real, room) - slot_loss(d, unit) <= value(u.soc_kwh)
        &&& value(u.soc_kwh) <= value(s.soc_kwh) + ask * d / 60real
    }
}

/// A session below its target gets its needed rate or its limit, or is left alone where
/// that is nothing.
proof fn lemma_raise<N: Num>(
    value: spec_fn(N) -> real,
    unit: real,
    sc: ScenarioModel<N>,
    m: real,
    st: SiteModel<N>,
    t: int,
    key: SortKey,
    threshold: N,
    k: int,
)
    requires
        is_serviceable(value, unit, sc, m, st, t),
        has_budget(value, observation(sc, st, t), threshold),
        0 <= k < shown_rows(sc, st).len(),
        ({
            let row = shown_rows(sc, st)[k] as int;
            value(st.active[row]->0.soc_kwh) <= value(sc.vehicles[row].soc_target_kwh)
        }),
    ensures
        ({
            let row = shown_rows(sc, st)[k] as int;
            let obs = observation(sc, st, t);
            is_lifted(
                value,
                unit,
                sc,
                st.active[row]->0,
                dispatched(sc, st, t, scheduled(key, threshold, obs).out).active[row],
                value(needed_rate(obs, obs.sessions[k])),
                row,
            )
        }),
{
    reveal(is_serviceable);
    reveal(is_shown_as);
    lemma_constants(value, unit);
    let obs = observation(sc, st, t);
    let out = scheduled(key, threshold, obs).out;
    let row = shown_rows(sc, st)[k] as int;
    let s = st.active[row]->0;
    lemma_shown_as(value, unit, sc, m, st, t, k);
    lemma_plain(value, unit, sc, m, st, t);
    lemma_scheduled(value, unit, key, threshold, obs);
    let view = obs.sessions[k];
    assert(is_plain(value, obs, view));
    let d = value(sc.rules.slot_minutes);
    let n = value(sc.rules.charge_efficiency);
    let ask = demand(value, obs)(k);
    assert(ask == least(value(needed_rate(obs, view)), limit_of(value, sc, row, s)));
    assert(ask * d / 60real * n == ask * d / 60real);
    assert(0real * d / 60real == 0real) by (nonlinear_arith);
    lemma_signs(0real, d, n, unit, 0real, 1);
    lemma_battery(value, unit, sc, row);
    if asks_for(out, k) {
        let (x, allowance) = lemma_answered(value, unit, sc, m, st, t, out, k);
        assert(0real <= value(x));
        assert(value(x) == demand(value, obs)(k));
        lemma_charged(value, unit, sc, m, st, t, out, k, x, allowance);
    } else {
        assert forall|p: int| 0 <= p < out.len() implies (#[trigger] out[p]).session_index != k by {
            assert(!(out[p].session_index == k));
        }
        lemma_left_alone(sc, st, t, out, k);
        assert(demand(value, obs)(k) == 0real);
    }
}

/// One slot of a session below its target.
proof fn lemma_raised<N: Num>(
    value: spec_fn(N) -> real,
    unit: real,
    sc: ScenarioModel<N>,
    m: real,
    st: SiteModel<N>,
    t: int,
    key: SortKey,
    threshold: N,
    i: int,
)
    requires
        is_serviceable(value, unit, sc, m, st, t),
        has_budget(value, observation(sc, st, t), threshold),
        0 <= i < sc.vehicles.len(),
        st.active[i] matches Some(s) && value(s.soc_kwh) <= value(sc.vehicles[i].soc_target_kwh),
    ensures
        is_raised(
            value,
            unit,
            sc,
            st.active[i]->0,
            dispatched(sc, st, t, scheduled(key, threshold, observation(sc, st, t)).out).active[i],
            t,
            i,
        ),
{
    let obs = observation(sc, st, t);
    let k = lemma_find(value, unit, sc, m, st, t, i);
    lemma_raise(value, unit, sc, m, st, t, key, threshold, k);
    let v = sc.vehicles[i];
    let s = st.active[i]->0;
    let u = dispatched(sc, st, t, scheduled(key, threshold, obs).out).active[i]->0;
    let limit = limit_of(value, sc, i, s);
    let d = value(sc.rules.slot_minutes);
    assert(slot_gain(value, sc, limit) == limit * d / 60real);
    lemma_need_after_rate(
        value(v.soc_target_kwh),
        value(s.soc_kwh),
        value(u.soc_kwh),
        value(v.ceiling()),
        value(needed_rate(obs, obs.sessions[k])),
        limit,
        (v.departure_slot - t) as real,
        d,
        unit,
    );
}

/// The shown session of row `i`, and its figures.
proof fn lemma_find<N: Num>(
    value: spec_fn(N) -> real,
    unit: real,
    sc: ScenarioModel<N>,
    m: real,
    st: SiteModel<N>,
    t: int,
    i: int,
) -> (k: int)
    requires
        is_serviceable(value, unit, sc, m, st, t),
        0 <= i < sc.vehicles.len(),
        st.active[i] is Some,
    ensures
        0 <= k < shown_rows(sc, st).len(),
        shown_rows(sc, st)[k] as int == i,
        0real <= unit <= 1real / 1000real,
        1real <= value(sc.rules.slot_minutes),
        value(sc.rules.charge_efficiency) == 1real,
        t < sc.vehicles[i].departure_slot,
        value(sc.vehicles[i].soc_target_kwh) <= value(sc.vehicles[i].ceiling()),
        0real <= limit_of(value, sc, i, st.active[i]->0),
        0real <= give_limit_of(value, sc, i, st.active[i]->0),
        is_metered(
            value(needed_rate(observation(sc, st, t), observation(sc, st, t).sessions[k])),
            value(sc.vehicles[i].soc_target_kwh) - value(st.active[i]->0.soc_kwh),
            (sc.vehicles[i].departure_slot - t) as real * value(sc.rules.slot_minutes) / 60real,
            unit,
        ),
{
    reveal(is_serviceable);
    reveal(is_shown_as);
    lemma_constants(value, unit);
    let rows = shown_rows(sc, st);
    lemma_shown(sc, st);
    assert(rows.contains(i as usize));
    let k = choose|k: int| 0 <= k < rows.len() && rows[k] == i as usize;
    assert(rows[k] as int == i);
    lemma_shown_as(value, unit, sc, m, st, t, k);
    lemma_battery(value, unit, sc, i);
    assert(is_plugged(sc, st, i));
    lemma_limits(value, unit, sc, st, k, i);
    k
}

/// A slot at a metered rate shrinks the need by its share of the stay or by what the limit
/// gives, and fills it in the last slot only.
proof fn lemma_need_after_rate(
    target: real,
    soc: real,
    next: real,
    ceiling: real,
    rate: real,
    limit: real,
    left: real,
    d: real,
    unit: real,
)
    requires
        0real <= unit <= 1real / 1000real,
        1real <= left,
        left == 1real || 2real <= left,
        1real <= d,
        soc <= target <= ceiling,
        0real <= limit,
        is_metered(rate, target - soc, left * d / 60real, unit),
        soc <= next,
        soc + least(least(rate, limit) * d / 60real, ceiling - soc) - slot_loss(d, unit) <= next,
        next <= soc + least(rate, limit) * d / 60real,
    ensures
        ({
            let need = most(target - soc, 0real);
            let rest = most(target - next, 0real);
            &&& rest <= need
            &&& need <= 0real || rest <= most(need - least(need / left, limit * d / 60real), 0real) + 2real
                * slot_loss(d, unit)
            &&& 2real <= left ==> next <= target
        }),
{
    let p = least(rate, limit);
    assert(p * d / 60real * 1real == p * d / 60real);
    assert(limit * d / 60real * 1real == limit * d / 60real);
    lemma_need_after(target, soc, next, ceiling - soc, p, limit, left, d, 1real, unit, 0real);
    lemma_overshoot(rate, target - soc, left, d, unit);
    assert(p * d / 60real <= rate * d / 60real) by (nonlinear_arith)
        requires
            p <= rate,
            1real <= d,
    {
        assert(p * d <= rate * d);
    }
}

// ------------------------------------------------------------------ the stay

/// What the policy sees in slot `t` of a run.
pub open spec fn seen_at<N: Num>(
    sc: ScenarioModel<N>,
    decisions: Seq<Seq<Setpoint<N>>>,
    t: int,
) -> ObservationModel<N> {
    observation(sc, boarded(sc, site_at(sc, decisions, t as nat), t), t)
}

/// The threshold with which a run of a threshold scheduler decides slot `t`, kW.
pub open spec fn threshold_at<N: Num>(
    sc: ScenarioModel<N>,
    policies: Seq<ThresholdScheduler<N>>,
    decisions: Seq<Seq<Setpoint<N>>>,
    t: int,
) -> N {
    threshold_of(policies[t].threshold_kw, seen_at(sc, decisions, t))
}

/// In slot `t` of a run the threshold leaves room for what the sessions need to draw.
pub open spec fn is_budgeted<N: Num>(
    value: spec_fn(N) -> real,
    sc: ScenarioModel<N>,
    policies: Seq<ThresholdScheduler<N>>,
    decisions: Seq<Seq<Setpoint<N>>>,
    t: int,
) -> bool {
    has_budget(value, seen_at(sc, decisions, t), threshold_at(sc, policies, decisions, t))
}

/// It does so in every slot of the stay of row `i`.
pub open spec fn is_stay_budgeted<N: Num>(
    value: spec_fn(N) -> real,
    sc: ScenarioModel<N>,
    policies: Seq<ThresholdScheduler<N>>,
    decisions: Seq<Seq<Setpoint<N>>>,
    i: int,
) -> bool {
    forall|t: int|
        sc.vehicles[i].arrival_slot <= t < sc.vehicles[i].departure_slot ==> #[trigger] is_budgeted(
            value,
            sc,
            policies,
            decisions,
            t,
        )
}

/// What the laws on the threshold schedulers ask of a run.
#[verifier::opaque]
pub open spec fn is_threshold_run<N: Num>(
    value: spec_fn(N) -> real,
    unit: real,
    sc: ScenarioModel<N>,
    m: real,
    policies: Seq<ThresholdScheduler<N>>,
    decisions: Seq<Seq<Setpoint<N>>>,
) -> bool {
    &&& is_fine(value, unit)
    &&& is_valid(sc)
    &&& is_moderate(value, sc, m)
    &&& is_roomy(value, sc)
    &&& is_unhurried(value, sc)
    &&& gives_are_positive(value, sc)
    &&& sc.vehicles.len() <= usize::MAX
    &&& sc.chargers.len() <= usize::MAX
    &&& sc.building.len() == sc.rules.horizon_slots
    &&& is_episode(sc, policies, decisions)
    &&& decisions.len() == sc.rules.horizon_slots
}

/// The site of such a run in slot `t`, and what the scheduler answers.
proof fn lemma_run_slot<N: Num>(
    value: spec_fn(N) -> real,
    unit: real,
    sc: ScenarioModel<N>,
    m: real,
    policies: Seq<ThresholdScheduler<N>>,
    decisions: Seq<Seq<Setpoint<N>>>,
    t: nat,
)
    requires
        is_threshold_run(value, unit, sc, m, policies, decisions),
        t < sc.rules.horizon_slots,
    ensures
        is_serviceable(value, unit, sc, m, boarded(sc, site_at(sc, decisions, t), t as int), t as int),
        decisions[t as int] == scheduled(
            policies[t as int].key,
            threshold_at(sc, policies, decisions, t as int),
            seen_at(sc, decisions, t as int),
        ).out,
{
    reveal(is_serviceable);
    reveal(is_threshold_run);
    lemma_ready(value, unit, sc, m);
    the_site_is_sound_in_every_slot(sc, decisions, t);
    batteries_stay_in_range_and_energy_is_conserved(value, unit, sc, m, decisions, t);
    let now = t as int;
    let seen = seen_at(sc, decisions, now);
    assert(may_answer(policies[now], seen, decisions[now], policies[now + 1]));
    let (o, l) = choose|o: Observation<N>, l: Vec<Setpoint<N>>|
        o@ == seen && l@ == decisions[now] && #[trigger] policies[now].chooses(&o, &l, &policies[now + 1]);
    assert(policies[now].chooses(&o, &l, &policies[now + 1]));
}

/// A session that stays through slot `t + 1` is not touched before its decision point.
proof fn lemma_run_board<N: Num>(
    value: spec_fn(N) -> real,
    unit: real,
    sc: ScenarioModel<N>,
    m: real,
    policies: Seq<ThresholdScheduler<N>>,
    decisions: Seq<Seq<Setpoint<N>>>,
    i: int,
    t: nat,
)
    requires
        is_threshold_run(value, unit, sc, m, policies, decisions),
        0 <= i < sc.vehicles.len(),
        sc.vehicles[i].arrival_slot <= t,
        t + 1 < sc.vehicles[i].departure_slot,
    ensures
        boarded(sc, site_at(sc, decisions, (t + 1) as nat), t as int + 1).active[i] == site_at(
            sc,
            decisions,
            (t + 1) as nat,
        ).active[i],
{
    reveal(is_threshold_run);
    lemma_ready(value, unit, sc, m);
    assert(session_is_valid(sc.vehicles[i], sc.rules.horizon_slots));
    the_site_is_sound_in_every_slot(sc, decisions, (t + 1) as nat);
    lemma_boarding_keeps_row(sc, site_at(sc, decisions, (t + 1) as nat), t as int + 1, i);
}

/// The figures of row `i`.
proof fn lemma_run_row<N: Num>(
    value: spec_fn(N) -> real,
    unit: real,
    sc: ScenarioModel<N>,
    m: real,
    policies: Seq<ThresholdScheduler<N>>,
    decisions: Seq<Seq<Setpoint<N>>>,
    i: int,
)
    requires
        is_threshold_run(value, unit, sc, m, policies, decisions),
        0 <= i < sc.vehicles.len(),
    ensures
        0real <= unit <= 1real / 1000real,
        1real <= value(sc.rules.slot_minutes),
        0real <= slot_loss(value(sc.rules.slot_minutes), unit),
        sc.vehicles[i].arrival_slot < sc.vehicles[i].departure_slot <= sc.rules.horizon_slots,
        value(sc.rules.charge_efficiency) == 1real,
{
    reveal(is_threshold_run);
    lemma_constants(value, unit);
    assert(session_is_valid(sc.vehicles[i], sc.rules.horizon_slots));
    lemma_signs(0real, value(sc.rules.slot_minutes), 0real, unit, 0real, 1);
}

/// A session below its target after `k` slots of its stay.
spec fn is_rising<N: Num>(
    value: spec_fn(N) -> real,
    unit: real,
    sc: ScenarioModel<N>,
    i: int,
    s: Session<N>,
    now: Option<Session<N>>,
    k: int,
) -> bool {
    let v = sc.vehicles[i];
    &&& is_on_track(value, unit, sc, i, s, now, k, 0real)
    &&& k < v.departure_slot - v.arrival_slot ==> value(now->0.soc_kwh) <= value(v.soc_target_kwh)
}

proof fn lemma_rising_slot<N: Num>(
    value: spec_fn(N) -> real,
    unit: real,
    sc: ScenarioModel<N>,
    m: real,
    policies: Seq<ThresholdScheduler<N>>,
    decisions: Seq<Seq<Setpoint<N>>>,
    i: int,
    s: Session<N>,
    k: int,
)
    requires
        is_threshold_run(value, unit, sc, m, policies, decisions),
        0 <= i < sc.vehicles.len(),
        is_stay_budgeted(value, sc, policies, decisions, i),
        0 <= k < sc.vehicles[i].departure_slot - sc.vehicles[i].arrival_slot,
        ({
            let t = (sc.vehicles[i].arrival_slot + k) as nat;
            is_rising(value, unit, sc, i, s, boarded(sc, site_at(sc, decisions, t), t as int).active[i], k)
        }),
    ensures
        is_rising(
            value,
            unit,
            sc,
            i,
            s,
            site_at(sc, decisions, (sc.vehicles[i].arrival_slot + k + 1) as nat).active[i],
            k + 1,
        ),
{
    let t = (sc.vehicles[i].arrival_slot + k) as nat;
    let st = boarded(sc, site_at(sc, decisions, t), t as int);
    let now = st.active[i]->0;
    lemma_run_row(value, unit, sc, m, policies, decisions, i);
    lemma_run_slot(value, unit, sc, m, policies, decisions, t);
    assert(is_budgeted(value, sc, policies, decisions, t as int));
    lemma_raised(
        value,
        unit,
        sc,
        m,
        st,
        t as int,
        policies[t as int].key,
        threshold_at(sc, policies, decisions, t as int),
        i,
    );
    lemma_limit_sign(value, unit, sc, m, st, t as int, i);
    let next = site_at(sc, decisions, (t + 1) as nat).active[i];
    assert(is_raised(value, unit, sc, now, next, t as int, i));
    lemma_stay_on_track(value, unit, sc, i, s, now, next, k, 0real);
}

/// A slot at the limits of a session gives and takes no negative amount.
proof fn lemma_limit_sign<N: Num>(
    value: spec_fn(N) -> real,
    unit: real,
    sc: ScenarioModel<N>,
    m: real,
    st: SiteModel<N>,
    t: int,
    i: int,
)
    requires
        is_serviceable(value, unit, sc, m, st, t),
        0 <= i < sc.vehicles.len(),
        st.active[i] is Some,
    ensures
        0real <= slot_gain(value, sc, limit_of(value, sc, i, st.active[i]->0)),
        0real <= give_limit_of(value, sc, i, st.active[i]->0),
{
    reveal(is_serviceable);
    lemma_constants(value, unit);
    assert(is_plugged(sc, st, i));
    lemma_limits(value, unit, sc, st, 0, i);
    lemma_signs(
        limit_of(value, sc, i, st.active[i]->0),
        value(sc.rules.slot_minutes),
        value(sc.rules.charge_efficiency),
        unit,
        0real,
        1,
    );
}

/// The session through its stay.
proof fn lemma_rising_stay<N: Num>(
    value: spec_fn(N) -> real,
    unit: real,
    sc: ScenarioModel<N>,
    m: real,
    policies: Seq<ThresholdScheduler<N>>,
    decisions: Seq<Seq<Setpoint<N>>>,
    i: int,
    s: Session<N>,
    k: nat,
)
    requires
        is_threshold_run(value, unit, sc, m, policies, decisions),
        0 <= i < sc.vehicles.len(),
        is_stay_budgeted(value, sc, policies, decisions, i),
        is_connected(sc, decisions, i, s),
        is_rising(value, unit, sc, i, s, Some(s), 0),
        0 < k <= sc.vehicles[i].departure_slot - sc.vehicles[i].arrival_slot,
    ensures
        is_rising(
            value,
            unit,
            sc,
            i,
            s,
            site_at(sc, decisions, (sc.vehicles[i].arrival_slot + k) as nat).active[i],
            k as int,
        ),
    decreases k,
{
    if k > 1 {
        lemma_rising_stay(value, unit, sc, m, policies, decisions, i, s, (k - 1) as nat);
        lemma_run_board(
            value,
            unit,
            sc,
            m,
            policies,
            decisions,
            i,
            (sc.vehicles[i].arrival_slot + k - 2) as nat,
        );
    }
    lemma_rising_slot(value, unit, sc, m, policies, decisions, i, s, k - 1);
}

/// EDF and LLF meet every target that can be met: without charging losses, with a threshold
/// that in each of its slots exceeds the building load by what the sessions need to draw,
/// a session that finds a port below its target and whose stay at full power is long
/// enough leaves with its target, up to the rounding of its slots.
pub proof fn threshold_schedulers_meet_feasible_targets<N: Num>(
    value: spec_fn(N) -> real,
    unit: real,
    sc: ScenarioModel<N>,
    m: real,
    policies: Seq<ThresholdScheduler<N>>,
    decisions: Seq<Seq<Setpoint<N>>>,
    i: int,
    s: Session<N>,
)
    requires
        is_threshold_run(value, unit, sc, m, policies, decisions),
        0 <= i < sc.vehicles.len(),
        is_stay_budgeted(value, sc, policies, decisions, i),
        is_connected(sc, decisions, i, s),
        value(s.soc_kwh) <= value(sc.vehicles[i].soc_target_kwh),
        need_of(value, sc, i, s.soc_kwh) <= (sc.vehicles[i].departure_slot - sc.vehicles[i].arrival_slot) as real
            * slot_gain(value, sc, limit_of(value, sc, i, s)),
    ensures
        ({
            let v = sc.vehicles[i];
            let slots = (v.departure_slot - v.arrival_slot) as real;
            value(v.soc_target_kwh) - slots * (2real * slot_loss(value(sc.rules.slot_minutes), unit)) <= value(
                leaving_soc(sc, decisions, i),
            )
        }),
{
    lemma_run_row(value, unit, sc, m, policies, decisions, i);
    let v = sc.vehicles[i];
    let loss = 2real * slot_loss(value(sc.rules.slot_minutes), unit);
    let gain = slot_gain(value, sc, limit_of(value, sc, i, s));
    assert(0real * loss == 0real && 0real * gain == 0real) by (nonlinear_arith);
    lemma_rising_stay(
        value,
        unit,
        sc,
        m,
        policies,
        decisions,
        i,
        s,
        (v.departure_slot - v.arrival_slot) as nat,
    );
}

/// A fixed-point run of EDF or LLF over a valid scenario of ordinary size: such a session is
/// reported to miss no more than the rounding of its slots.
pub proof fn fixed_point_schedulers_meet_feasible_targets(
    sc: ScenarioModel<Fixed>,
    policies: Seq<ThresholdScheduler<Fixed>>,
    decisions: Seq<Seq<Setpoint<Fixed>>>,
    k: int,
    s: Session<Fixed>,
)
    requires
        is_valid(sc),
        is_ordinary(sc),
        is_roomy(fixed_value(), sc),
        is_unhurried(fixed_value(), sc),
        gives_are_positive(fixed_value(), sc),
        sc.chargers.len() <= usize::MAX,
        sc.building.len() == sc.rules.horizon_slots,
        is_episode(sc, policies, decisions),
        decisions.len() == sc.rules.horizon_slots,
        0 <= k < results_of(sc, decisions).sessions.len(),
        ({
            let i = reported_rows(sc, decisions)[k];
            let v = sc.vehicles[i];
            let value = fixed_value();
            &&& is_stay_budgeted(value, sc, policies, decisions, i)
            &&& is_connected(sc, decisions, i, s)
            &&& value(s.soc_kwh) <= value(v.soc_target_kwh)
            &&& need_of(value, sc, i, s.soc_kwh) <= (v.departure_slot - v.arrival_slot) as real * slot_gain(
                value,
                sc,
                limit_of(value, sc, i, s),
            )
        }),
    ensures
        ({
            let v = sc.vehicles[reported_rows(sc, decisions)[k]];
            let dt = fixed_value()(sc.rules.slot_minutes);
            fixed_value()(results_of(sc, decisions).sessions[k].missing_kwh) <= (v.departure_slot
                - v.arrival_slot) as real * (2real * slot_loss(dt, millionth()))
        }),
{
    let value = fixed_value();
    let u = millionth();
    let m = 1_000_000real;
    let i = reported_rows(sc, decisions)[k];
    fixed_numbers_round_toward_zero();
    fixed_numbers_measure_and_reach_infinity();
    ordinary_scenarios_are_moderate(sc);
    assert(is_threshold_run(value, u, sc, m, policies, decisions)) by {
        reveal(is_threshold_run);
    }
    lemma_ready(value, u, sc, m);
    every_session_is_reported_exactly_once(sc, decisions);
    assert(is_on_row(results_of(sc, decisions).sessions[k], sc, i));
    threshold_schedulers_meet_feasible_targets(value, u, sc, m, policies, decisions, i, s);
    lemma_run_row(value, u, sc, m, policies, decisions, i);
    let v = sc.vehicles[i];
    let slots = (v.departure_slot - v.arrival_slot) as real;
    let loss = slot_loss(value(sc.rules.slot_minutes), u);
    let slack = slots * (2real * loss);
    assert(0real <= slack) by (nonlinear_arith)
        requires
            0real <= slots,
            0real <= loss,
            slack == slots * (2real * loss),
    ;
    missing_energy_is_reported(value, u, sc, m, decisions, k, slack);
}

// ------------------------------------------------------- cars above their target

/// A discharging request that only the battery and the session's limit bound lowers the
/// SoC by what it asks for, or empties the battery, up to the rounding of the slot.
proof fn lemma_drain<N: Num>(
    value: spec_fn(N) -> real,
    unit: real,
    sc: ScenarioModel<N>,
    s: Session<N>,
    view: SessionView<N>,
    x: N,
    allowance: N,
    i: int,
)
    requires
        rounds_toward_zero(value, unit),
        is_ready(value, sc),
        1real <= value(sc.rules.slot_minutes),
        value(sc.rules.discharge_efficiency) == 1real,
        0 <= i < sc.vehicles.len(),
        view.vehicle == sc.vehicles[i],
        is_in_range(value, view.vehicle, s.soc_kwh),
        view.max_discharge_kw.finite(),
        0real <= value(view.max_discharge_kw),
        x.finite(),
        value(x) < 0real,
        allowance.finite(),
        0real - value(x) <= value(allowance),
    ensures
        ({
            let next = after_setpoint(
                s,
                view,
                x,
                sc.rules.slot_minutes,
                sc.rules.charge_efficiency,
                sc.rules.discharge_efficiency,
                allowance,
            );
            let d = value(sc.rules.slot_minutes);
            let ask = least(0real - value(x), value(view.max_discharge_kw));
            let room = value(s.soc_kwh) - value(view.vehicle.min_soc_kwh);
            &&& next.charger_index == s.charger_index
            &&& value(next.soc_kwh) <= value(s.soc_kwh)
            &&& value(next.soc_kwh) <= value(s.soc_kwh) - least(ask * d / 60real, room) + slot_loss(d, unit)
            &&& value(s.soc_kwh) - (0real - value(x)) * d / 60real <= value(next.soc_kwh)
        }),
{
    lemma_constants(value, unit);
    let v = view.vehicle;
    assert(is_usable(value, sc, v));
    let dt = sc.rules.slot_minutes;
    let eta = sc.rules.discharge_efficiency;
    let d = value(dt);
    lemma_finite(value, unit, x);
    lemma_finite(value, unit, allowance);
    lemma_finite(value, unit, view.max_discharge_kw);
    lemma_compare(value, unit, zero_of::<N>(), x);
    lemma_closer_fits(value, value(s.soc_kwh) * 60real, value(v.ceiling()) * 60real);
    discharging_respects_its_limits(value, unit, s, view, x, dt, eta, allowance);
    let p = discharge_power(s, view, x, dt, eta, allowance);
    let e = energy_of(p, dt);
    let room = value(s.soc_kwh) - value(v.min_soc_kwh);
    let above = s.soc_kwh.minus(v.min_soc_kwh);
    lemma_finite(value, unit, s.soc_kwh);
    lemma_closer_fits(value, room, value(s.soc_kwh));
    lemma_minus(value, unit, s.soc_kwh, v.min_soc_kwh);
    lemma_finite(value, unit, above);
    lemma_compare(value, unit, above, zero_of::<N>());
    let held = above.greater(zero_of());
    lemma_fitting(value, unit, held);
    assert(room * 1real == room);
    lemma_times(value, unit, held, eta);
    let spare = held.times(eta);
    lemma_closer_fits(value, value(spare) * 60real, value(s.soc_kwh) * 60real);
    lemma_power_loss(value, unit, spare, dt);
    let fill = power_of(spare, dt);
    let wanted = x.negated();
    lemma_negated(value, unit, x);
    lemma_finite(value, unit, wanted);
    let a = wanted.lesser(view.max_discharge_kw);
    let b = a.lesser(allowance);
    lemma_compare(value, unit, wanted, view.max_discharge_kw);
    lemma_compare(value, unit, a, allowance);
    lemma_compare(value, unit, b, fill);
    lemma_compare(value, unit, b.lesser(fill), zero_of::<N>());
    let ask = least(0real - value(x), value(view.max_discharge_kw));
    assert(value(p) == least(ask, value(fill)));
    assert(room / 1real == room);
    lemma_gain(value(p), ask, room, value(spare), value(e), 1real, d, unit);
    let given = value(p);
    let most_given = 0real - value(x);
    assert(given * d / 60real <= most_given * d / 60real) by (nonlinear_arith)
        requires
            given <= most_given,
            1real <= d,
    {
        assert(given * d <= most_given * d);
    }
    assert(value(e) / 1real == value(e));
}

/// How far a session is above its target, kWh.
pub open spec fn excess_of<N: Num>(value: spec_fn(N) -> real, sc: ScenarioModel<N>, i: int, soc: N) -> real {
    most(value(soc) - value(sc.vehicles[i].soc_target_kwh), 0real)
}

/// What one slot at `kw` takes out of a battery that loses nothing, kWh.
pub open spec fn slot_take<N: Num>(value: spec_fn(N) -> real, sc: ScenarioModel<N>, kw: real) -> real {
    kw * value(sc.rules.slot_minutes) / 60real
}

/// The slot lets cars above their target discharge: it is not of class `peak`, the budget
/// is not used up, and the building takes what they have to give.
pub open spec fn lets_discharge<N: Num>(
    value: spec_fn(N) -> real,
    obs: ObservationModel<N>,
    threshold: N,
) -> bool {
    let n = obs.sessions.len();
    &&& has_budget(value, obs, threshold)
    &&& total(demand(value, obs), n) < headroom(value, obs, threshold)
    &&& total(supply(value, obs), n) <= value(obs.building_load_kw)
    &&& obs.tou != TouClass::Peak
}

/// What a slot does to a session above its target, of which `rate` is the needed rate.
spec fn is_drained<N: Num>(
    value: spec_fn(N) -> real,
    unit: real,
    sc: ScenarioModel<N>,
    s: Session<N>,
    next: Option<Session<N>>,
    rate: real,
    i: int,
) -> bool {
    let d = value(sc.rules.slot_minutes);
    let ask = least(0real - rate, give_limit_of(value, sc, i, s));
    let room = value(s.soc_kwh) - value(sc.vehicles[i].min_soc_kwh);
    next matches Some(u) && {
        &&& u.charger_index == s.charger_index
        &&& value(u.soc_kwh) <= value(s.soc_kwh)
        &&& value(u.soc_kwh) <= value(s.soc_kwh) - least(ask * d / 60real, room) + slot_loss(d, unit)
        &&& value(s.soc_kwh) - (0real - rate) * d / 60real <= value(u.soc_kwh)
    }
}

/// A session that is left as it is where it has nothing to give.
proof fn lemma_not_drained<N: Num>(
    value: spec_fn(N) -> real,
    unit: real,
    sc: ScenarioModel<N>,
    s: Session<N>,
    u: Session<N>,
    rate: real,
    i: int,
)
    requires
        0real <= unit,
        1real <= value(sc.rules.slot_minutes),
        value(sc.vehicles[i].min_soc_kwh) <= value(s.soc_kwh),
        u.charger_index == s.charger_index,
        value(u.soc_kwh) == value(s.soc_kwh),
        rate <= 0real,
        least(0real - rate, give_limit_of(value, sc, i, s)) == 0real,
    ensures
        is_drained(value, unit, sc, s, Some(u), rate, i),
{
    let d = value(sc.rules.slot_minutes);
    lemma_signs(0real, d, 0real, unit, 0real, 1);
    assert(0real * d / 60real == 0real) by (nonlinear_arith);
    assert(0real <= (0real - rate) * d / 60real) by (nonlinear_arith)
        requires
            rate <= 0real,
            1real <= d,
    ;
}

/// What a shown session of a serviceable site brings along.
proof fn lemma_row_ready<N: Num>(
    value: spec_fn(N) -> real,
    unit: real,
    sc: ScenarioModel<N>,
    m: real,
    st: SiteModel<N>,
    t: int,
    k: int,
)
    requires
        is_serviceable(value, unit, sc, m, st, t),
        0 <= k < shown_rows(sc, st).len(),
    ensures
        ({
            let row = shown_rows(sc, st)[k] as int;
            let view = session_views(sc, st)[k];
            &&& rounds_toward_zero(value, unit)
            &&& has_infinity(value)
            &&& is_ready(value, sc)
            &&& is_moderate(value, sc, m)
            &&& 1real <= value(sc.rules.slot_minutes)
            &&& 0 <= row < sc.vehicles.len()
            &&& view.vehicle == sc.vehicles[row]
            &&& is_limited(value, view, m)
            &&& 0real <= value(view.max_charge_kw)
            &&& st.active[row] is Some
            &&& is_healthy(value, unit, sc, m, row, st.active[row]->0, stay(sc, row, t))
        }),
{
    reveal(is_serviceable);
    let row = shown_rows(sc, st)[k] as int;
    lemma_shown(sc, st);
    assert(shown_rows(sc, st)[k] < sc.vehicles.len());
    assert(is_row_healthy(value, unit, sc, m, st.active, t, row));
    lemma_views_fit(value, unit, sc, m, st, t + 1, t);
    assert(is_plugged(sc, st, row));
    lemma_limits(value, unit, sc, st, k, row);
    assert(session_views(sc, st)[k] == session_view(sc, st, k, row));
}

/// A session that is asked to charge gets what it is asked, as far as its battery goes.
proof fn lemma_charged<N: Num>(
    value: spec_fn(N) -> real,
    unit: real,
    sc: ScenarioModel<N>,
    m: real,
    st: SiteModel<N>,
    t: int,
    out: Seq<Setpoint<N>>,
    k: int,
    x: N,
    allowance: N,
)
    requires
        is_serviceable(value, unit, sc, m, st, t),
        0 <= k < shown_rows(sc, st).len(),
        is_answered(value, sc, st, t, out, k, x, allowance),
        0real <= value(x) <= value(session_views(sc, st)[k].max_charge_kw),
    ensures
        ({
            let row = shown_rows(sc, st)[k] as int;
            let s = st.active[row]->0;
            let d = value(sc.rules.slot_minutes);
            let asked = value(x) * d / 60real * value(sc.rules.charge_efficiency);
            let room = value(sc.vehicles[row].ceiling()) - value(s.soc_kwh);
            dispatched(sc, st, t, out).active[row] matches Some(u) && {
                &&& u.charger_index == s.charger_index
                &&& value(s.soc_kwh) <= value(u.soc_kwh)
                &&& value(s.soc_kwh) + least(asked, room) - slot_loss(d, unit) <= value(u.soc_kwh)
                &&& value(u.soc_kwh) <= value(s.soc_kwh) + asked
            }
        }),
{
    lemma_row_ready(value, unit, sc, m, st, t, k);
    let row = shown_rows(sc, st)[k] as int;
    let s = st.active[row]->0;
    let view = session_views(sc, st)[k];
    lemma_served_gain(value, unit, sc, m, row, s, view, x, stay(sc, row, t));
    assert(dispatched(sc, st, t, out).active[row] == Some(served(sc, s, view, x)));
}

/// A setpoint of no power leaves the SoC as it is.
proof fn lemma_idle<N: Num>(
    value: spec_fn(N) -> real,
    unit: real,
    sc: ScenarioModel<N>,
    m: real,
    st: SiteModel<N>,
    t: int,
    out: Seq<Setpoint<N>>,
    k: int,
    x: N,
    allowance: N,
)
    requires
        is_serviceable(value, unit, sc, m, st, t),
        0 <= k < shown_rows(sc, st).len(),
        is_answered(value, sc, st, t, out, k, x, allowance),
        value(x) == 0real,
    ensures
        ({
            let row = shown_rows(sc, st)[k] as int;
            let s = st.active[row]->0;
            dispatched(sc, st, t, out).active[row] matches Some(u) && u.charger_index == s.charger_index && value(
                u.soc_kwh,
            ) == value(s.soc_kwh)
        }),
{
    lemma_row_ready(value, unit, sc, m, st, t, k);
    let d = value(sc.rules.slot_minutes);
    let n = value(sc.rules.charge_efficiency);
    assert(0real * d / 60real * n == 0real) by (nonlinear_arith);
    lemma_charged(value, unit, sc, m, st, t, out, k, x, allowance);
}

/// A session above its target gives its needed rate or its limit.
proof fn lemma_lower<N: Num>(
    value: spec_fn(N) -> real,
    unit: real,
    sc: ScenarioModel<N>,
    m: real,
    st: SiteModel<N>,
    t: int,
    key: SortKey,
    threshold: N,
    k: int,
)
    requires
        is_serviceable(value, unit, sc, m, st, t),
        value(sc.rules.discharge_efficiency) == 1real,
        lets_discharge(value, observation(sc, st, t), threshold),
        0 <= k < shown_rows(sc, st).len(),
        ({
            let row = shown_rows(sc, st)[k] as int;
            let v = sc.vehicles[row];
            value(v.soc_target_kwh) <= value(st.active[row]->0.soc_kwh) < value(v.ceiling())
        }),
    ensures
        ({
            let row = shown_rows(sc, st)[k] as int;
            let obs = observation(sc, st, t);
            is_drained(
                value,
                unit,
                sc,
                st.active[row]->0,
                dispatched(sc, st, t, scheduled(key, threshold, obs).out).active[row],
                value(needed_rate(obs, obs.sessions[k])),
                row,
            )
        }),
{
    reveal(is_serviceable);
    reveal(is_shown_as);
    lemma_constants(value, unit);
    let obs = observation(sc, st, t);
    let out = scheduled(key, threshold, obs).out;
    let row = shown_rows(sc, st)[k] as int;
    let s = st.active[row]->0;
    lemma_shown_as(value, unit, sc, m, st, t, k);
    lemma_plain(value, unit, sc, m, st, t);
    lemma_scheduled(value, unit, key, threshold, obs);
    let view = obs.sessions[k];
    assert(is_plain(value, obs, view));
    let v = sc.vehicles[row];
    lemma_battery(value, unit, sc, row);
    lemma_finite(value, unit, view.soc_kwh);
    lemma_finite(value, unit, v.ceiling());
    lemma_compare(value, unit, view.soc_kwh, v.ceiling());
    assert(is_eligible(obs, view));
    assert(is_owed(value, obs, threshold, k));
    assert(asks_for(out, k));
    let (x, allowance) = lemma_answered(value, unit, sc, m, st, t, out, k);
    let rate = value(needed_rate(obs, view));
    if value(x) == 0real {
        lemma_idle(value, unit, sc, m, st, t, out, k, x, allowance);
        let u = dispatched(sc, st, t, out).active[row]->0;
        lemma_not_drained(value, unit, sc, s, u, rate, row);
    } else {
        assert(supply(value, obs)(k) == 0real - rate);
        lemma_drain(value, unit, sc, s, view, x, allowance, row);
        let d = value(sc.rules.slot_minutes);
        let y = 0real - value(x);
        let z = 0real - rate;
        assert(y * d / 60real <= z * d / 60real) by (nonlinear_arith)
            requires
                y <= z,
                1real <= d,
        {
            assert(y * d <= z * d);
        }
    }
}

/// What a slot does to the excess of row `i`: it shrinks, and below the target by rounding
/// in the last slot only.
spec fn is_lowered<N: Num>(
    value: spec_fn(N) -> real,
    unit: real,
    sc: ScenarioModel<N>,
    s: Session<N>,
    next: Option<Session<N>>,
    t: int,
    i: int,
) -> bool {
    let v = sc.vehicles[i];
    let left = (v.departure_slot - t) as real;
    let take = slot_take(value, sc, give_limit_of(value, sc, i, s));
    let excess = excess_of(value, sc, i, s.soc_kwh);
    let loss = 2real * slot_loss(value(sc.rules.slot_minutes), unit);
    next matches Some(u) && {
        let rest = excess_of(value, sc, i, u.soc_kwh);
        &&& u.charger_index == s.charger_index
        &&& value(u.soc_kwh) <= value(s.soc_kwh)
        &&& rest <= excess
        &&& excess <= 0real || rest <= most(excess - least(excess / left, take), 0real) + loss
        &&& t + 1 < v.departure_slot ==> value(v.soc_target_kwh) <= value(u.soc_kwh)
        &&& value(v.soc_target_kwh) - 150real * unit * excess <= value(u.soc_kwh)
    }
}

/// One slot of a session above its target.
proof fn lemma_lowered<N: Num>(
    value: spec_fn(N) -> real,
    unit: real,
    sc: ScenarioModel<N>,
    m: real,
    st: SiteModel<N>,
    t: int,
    key: SortKey,
    threshold: N,
    i: int,
)
    requires
        is_serviceable(value, unit, sc, m, st, t),
        value(sc.rules.discharge_efficiency) == 1real,
        lets_discharge(value, observation(sc, st, t), threshold),
        0 <= i < sc.vehicles.len(),
        value(sc.vehicles[i].min_soc_kwh) <= value(sc.vehicles[i].soc_target_kwh),
        st.active[i] matches Some(s) && value(sc.vehicles[i].soc_target_kwh) <= value(s.soc_kwh) < value(
            sc.vehicles[i].ceiling(),
        ),
    ensures
        is_lowered(
            value,
            unit,
            sc,
            st.active[i]->0,
            dispatched(sc, st, t, scheduled(key, threshold, observation(sc, st, t)).out).active[i],
            t,
            i,
        ),
{
    let obs = observation(sc, st, t);
    let k = lemma_find(value, unit, sc, m, st, t, i);
    lemma_lower(value, unit, sc, m, st, t, key, threshold, k);
    let v = sc.vehicles[i];
    let s = st.active[i]->0;
    let u = dispatched(sc, st, t, scheduled(key, threshold, obs).out).active[i]->0;
    let rate = value(needed_rate(obs, obs.sessions[k]));
    let left = (v.departure_slot - t) as real;
    lemma_excess_after(
        value(v.soc_target_kwh),
        value(s.soc_kwh),
        value(u.soc_kwh),
        value(v.min_soc_kwh),
        rate,
        give_limit_of(value, sc, i, s),
        left,
        value(sc.rules.slot_minutes),
        unit,
    );
}

/// A slot shrinks the excess by its share of the stay or by what the limit takes.
proof fn lemma_excess_after(
    target: real,
    soc: real,
    next: real,
    floor: real,
    rate: real,
    limit: real,
    left: real,
    d: real,
    unit: real,
)
    requires
        0real <= unit <= 1real / 1000real,
        1real <= left,
        left == 1real || 2real <= left,
        1real <= d,
        floor <= target <= soc,
        0real <= limit,
        is_metered(rate, target - soc, left * d / 60real, unit),
        next <= soc,
        next <= soc - least(least(0real - rate, limit) * d / 60real, soc - floor) + slot_loss(d, unit),
        soc - (0real - rate) * d / 60real <= next,
    ensures
        ({
            let excess = most(soc - target, 0real);
            let rest = most(next - target, 0real);
            &&& rest <= excess
            &&& excess <= 0real || rest <= most(excess - least(excess / left, limit * d / 60real), 0real) + 2real
                * slot_loss(d, unit)
            &&& 2real <= left ==> target <= next
            &&& target - 150real * unit * excess <= next
        }),
{
    let hours = left * d / 60real;
    let gap = target - soc;
    let excess = soc - target;
    let p = least(0real - rate, limit);
    assert(excess / hours == 0real - gap / hours) by (nonlinear_arith)
        requires
            excess == 0real - gap,
            hours == left * d / 60real,
            1real <= left,
            1real <= d,
    {
        assert(0real < left * d);
    }
    assert(p * d / 60real * 1real == p * d / 60real);
    assert(limit * d / 60real * 1real == limit * d / 60real);
    lemma_need_after(
        0real - target,
        0real - soc,
        0real - next,
        soc - floor,
        p,
        limit,
        left,
        d,
        1real,
        unit,
        0real,
    );
    let back = 0real - rate;
    assert(back * (hours - 2real * unit) <= excess) by (nonlinear_arith)
        requires
            gap <= rate * (hours - 2real * unit),
            back == 0real - rate,
            excess == 0real - gap,
    ;
    lemma_overshoot(back, excess, left, d, unit);
    assert(0real <= 150real * unit * excess) by (nonlinear_arith)
        requires
            0real <= unit,
            0real <= excess,
    ;
}

/// Every slot of the stay of row `i` lets it discharge.
pub open spec fn stay_lets_discharge<N: Num>(
    value: spec_fn(N) -> real,
    sc: ScenarioModel<N>,
    policies: Seq<ThresholdScheduler<N>>,
    decisions: Seq<Seq<Setpoint<N>>>,
    i: int,
) -> bool {
    forall|t: int|
        #![trigger threshold_at(sc, policies, decisions, t)]
        sc.vehicles[i].arrival_slot <= t < sc.vehicles[i].departure_slot ==> lets_discharge(
            value,
            seen_at(sc, decisions, t),
            threshold_at(sc, policies, decisions, t),
        )
}

/// A session above its target after `k` slots of its stay.
spec fn is_falling<N: Num>(
    value: spec_fn(N) -> real,
    unit: real,
    sc: ScenarioModel<N>,
    i: int,
    s: Session<N>,
    now: Option<Session<N>>,
    k: int,
) -> bool {
    let v = sc.vehicles[i];
    let left = v.departure_slot - v.arrival_slot - k;
    let take = slot_take(value, sc, give_limit_of(value, sc, i, s));
    let loss = 2real * slot_loss(value(sc.rules.slot_minutes), unit);
    now matches Some(u) && {
        &&& u.charger_index == s.charger_index
        &&& value(u.soc_kwh) <= value(s.soc_kwh)
        &&& excess_of(value, sc, i, u.soc_kwh) <= most(left as real * take, 0real) + k as real * loss
        &&& 0 < left ==> value(v.soc_target_kwh) <= value(u.soc_kwh)
        &&& value(v.soc_target_kwh) - 150real * unit * excess_of(value, sc, i, s.soc_kwh) <= value(u.soc_kwh)
    }
}

/// One more slot of the stay.
proof fn lemma_fall_on<N: Num>(
    value: spec_fn(N) -> real,
    unit: real,
    sc: ScenarioModel<N>,
    i: int,
    s: Session<N>,
    now: Session<N>,
    next: Option<Session<N>>,
    k: int,
)
    requires
        0 <= k < sc.vehicles[i].departure_slot - sc.vehicles[i].arrival_slot,
        is_falling(value, unit, sc, i, s, Some(now), k),
        is_lowered(value, unit, sc, now, next, sc.vehicles[i].arrival_slot + k, i),
        0real <= unit,
        1real <= value(sc.rules.slot_minutes),
        0real <= slot_loss(value(sc.rules.slot_minutes), unit),
        0real <= give_limit_of(value, sc, i, now),
    ensures
        is_falling(value, unit, sc, i, s, next, k + 1),
{
    let v = sc.vehicles[i];
    let d = value(sc.rules.slot_minutes);
    let limit = give_limit_of(value, sc, i, now);
    let take = slot_take(value, sc, limit);
    let loss = 2real * slot_loss(d, unit);
    let e = k as real * loss;
    assert(0real <= e && (k + 1) as real * loss == e + loss) by (nonlinear_arith)
        requires
            0real <= loss,
            0real <= k as real,
            e == k as real * loss,
    ;
    assert(0real <= take) by (nonlinear_arith)
        requires
            0real <= limit,
            1real <= d,
            take == limit * d / 60real,
    {
        assert(0real <= limit * d);
    }
    let a = excess_of(value, sc, i, now.soc_kwh);
    let b = excess_of(value, sc, i, s.soc_kwh);
    assert(150real * unit * a <= 150real * unit * b) by (nonlinear_arith)
        requires
            0real <= unit,
            a <= b,
    ;
    lemma_need_next(
        v.departure_slot - v.arrival_slot - k,
        take,
        0real,
        e,
        loss,
        a,
        excess_of(value, sc, i, next->0.soc_kwh),
    );
}

/// What the law on cars above their target asks of row `i` and its session `s`: it loses
/// nothing in discharging, its target is not below its floor, and it starts above the
/// target and below the ceiling.
pub open spec fn has_surplus<N: Num>(
    value: spec_fn(N) -> real,
    sc: ScenarioModel<N>,
    i: int,
    s: Session<N>,
) -> bool {
    let v = sc.vehicles[i];
    &&& value(sc.rules.discharge_efficiency) == 1real
    &&& value(v.min_soc_kwh) <= value(v.soc_target_kwh)
    &&& value(v.soc_target_kwh) <= value(s.soc_kwh) < value(v.ceiling())
}

proof fn lemma_falling_slot<N: Num>(
    value: spec_fn(N) -> real,
    unit: real,
    sc: ScenarioModel<N>,
    m: real,
    policies: Seq<ThresholdScheduler<N>>,
    decisions: Seq<Seq<Setpoint<N>>>,
    i: int,
    s: Session<N>,
    k: int,
)
    requires
        is_threshold_run(value, unit, sc, m, policies, decisions),
        0 <= i < sc.vehicles.len(),
        has_surplus(value, sc, i, s),
        stay_lets_discharge(value, sc, policies, decisions, i),
        0 <= k < sc.vehicles[i].departure_slot - sc.vehicles[i].arrival_slot,
        ({
            let t = (sc.vehicles[i].arrival_slot + k) as nat;
            is_falling(value, unit, sc, i, s, boarded(sc, site_at(sc, decisions, t), t as int).active[i], k)
        }),
    ensures
        is_falling(
            value,
            unit,
            sc,
            i,
            s,
            site_at(sc, decisions, (sc.vehicles[i].arrival_slot + k + 1) as nat).active[i],
            k + 1,
        ),
{
    let t = (sc.vehicles[i].arrival_slot + k) as nat;
    let st = boarded(sc, site_at(sc, decisions, t), t as int);
    let now = st.active[i]->0;
    lemma_run_row(value, unit, sc, m, policies, decisions, i);
    lemma_run_slot(value, unit, sc, m, policies, decisions, t);
    let threshold = threshold_at(sc, policies, decisions, t as int);
    assert(lets_discharge(value, seen_at(sc, decisions, t as int), threshold));
    lemma_lowered(value, unit, sc, m, st, t as int, policies[t as int].key, threshold, i);
    lemma_limit_sign(value, unit, sc, m, st, t as int, i);
    let next = site_at(sc, decisions, (t + 1) as nat).active[i];
    assert(is_lowered(value, unit, sc, now, next, t as int, i));
    lemma_fall_on(value, unit, sc, i, s, now, next, k);
}

/// The session through its stay.
proof fn lemma_falling_stay<N: Num>(
    value: spec_fn(N) -> real,
    unit: real,
    sc: ScenarioModel<N>,
    m: real,
    policies: Seq<ThresholdScheduler<N>>,
    decisions: Seq<Seq<Setpoint<N>>>,
    i: int,
    s: Session<N>,
    k: nat,
)
    requires
        is_threshold_run(value, unit, sc, m, policies, decisions),
        0 <= i < sc.vehicles.len(),
        has_surplus(value, sc, i, s),
        stay_lets_discharge(value, sc, policies, decisions, i),
        is_connected(sc, decisions, i, s),
        is_falling(value, unit, sc, i, s, Some(s), 0),
        0 < k <= sc.vehicles[i].departure_slot - sc.vehicles[i].arrival_slot,
    ensures
        is_falling(
            value,
            unit,
            sc,
            i,
            s,
            site_at(sc, decisions, (sc.vehicles[i].arrival_slot + k) as nat).active[i],
            k as int,
        ),
    decreases k,
{
    if k > 1 {
        lemma_falling_stay(value, unit, sc, m, policies, decisions, i, s, (k - 1) as nat);
        lemma_run_board(
            value,
            unit,
            sc,
            m,
            policies,
            decisions,
            i,
            (sc.vehicles[i].arrival_slot + k - 2) as nat,
        );
    }
    lemma_falling_slot(value, unit, sc, m, policies, decisions, i, s, k - 1);
}

/// EDF and LLF discharge a car above its target onto it: without losses, outside slots of
/// class `peak`, with a budget that is not used up and a building that takes what the
/// cars have to give, a session that starts below its ceiling and whose stay at its
/// discharging limit is long enough leaves with its target, up to the rounding of its
/// slots above it and of the metered rate below it.
pub proof fn threshold_schedulers_discharge_onto_the_target<N: Num>(
    value: spec_fn(N) -> real,
    unit: real,
    sc: ScenarioModel<N>,
    m: real,
    policies: Seq<ThresholdScheduler<N>>,
    decisions: Seq<Seq<Setpoint<N>>>,
    i: int,
    s: Session<N>,
)
    requires
        is_threshold_run(value, unit, sc, m, policies, decisions),
        0 <= i < sc.vehicles.len(),
        has_surplus(value, sc, i, s),
        stay_lets_discharge(value, sc, policies, decisions, i),
        is_connected(sc, decisions, i, s),
        excess_of(value, sc, i, s.soc_kwh) <= (sc.vehicles[i].departure_slot - sc.vehicles[i].arrival_slot)
            as real * slot_take(value, sc, give_limit_of(value, sc, i, s)),
    ensures
        ({
            let v = sc.vehicles[i];
            let slots = (v.departure_slot - v.arrival_slot) as real;
            let left = value(leaving_soc(sc, decisions, i));
            &&& left <= value(v.soc_target_kwh) + slots * (2real * slot_loss(value(sc.rules.slot_minutes), unit))
            &&& value(v.soc_target_kwh) - 150real * unit * excess_of(value, sc, i, s.soc_kwh) <= left
        }),
{
    lemma_run_row(value, unit, sc, m, policies, decisions, i);
    let v = sc.vehicles[i];
    let loss = 2real * slot_loss(value(sc.rules.slot_minutes), unit);
    let take = slot_take(value, sc, give_limit_of(value, sc, i, s));
    let excess = excess_of(value, sc, i, s.soc_kwh);
    assert(0real * loss == 0real && 0real * take == 0real) by (nonlinear_arith);
    assert(0real <= 150real * unit * excess) by (nonlinear_arith)
        requires
            0real <= unit,
            0real <= excess,
    ;
    lemma_falling_stay(
        value,
        unit,
        sc,
        m,
        policies,
        decisions,
        i,
        s,
        (v.departure_slot - v.arrival_slot) as nat,
    );
}

} // verus!
