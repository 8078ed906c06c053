//! Every session that arrives is reported exactly once: at its departure, or at
//! the end of the horizon, whether it was served or not.

use vstd::prelude::*;

use crate::engine::SessionResult;
use crate::num::{zero_of, Num};
use crate::order::{stable_order, stable_order_is_arrangement};
use crate::scenario::{ScenarioModel, Vehicle};
use crate::site::{
    arrival_order, arrive, assign, boarded, depart, report, result_rank, results_of, site_at, sorted_results, swept,
    SiteModel,
};
use crate::soundness::{
    is_shaped, is_sound, lemma_arrival_order, lemma_arrive, lemma_assign, lemma_depart, lemma_dispatched,
    lemma_first_vacant, sessions_run_forward, the_site_is_sound_in_every_slot,
};
use crate::state::Setpoint;

verus! {

/// The session of row `i` has arrived and not been reported yet.
pub open spec fn is_present<N>(st: SiteModel<N>, i: int) -> bool {
    st.active[i] is Some || st.dropped[i]
}

/// The report is about the session of row `i`.
pub open spec fn is_about<N>(r: SessionResult<N>, v: Vehicle<N>) -> bool {
    &&& r.vehicle_id == v.vehicle_id
    &&& r.arrival_slot == v.arrival_slot
    &&& r.departure_slot == v.departure_slot
    &&& r.soc_target_kwh == v.soc_target_kwh
}

/// The report is about the session of a row of the scenario.
pub open spec fn is_on_row<N>(r: SessionResult<N>, sc: ScenarioModel<N>, row: int) -> bool {
    0 <= row < sc.vehicles.len() && is_about(r, sc.vehicles[row])
}

/// The reports are about the sessions of these rows.
pub open spec fn are_about<N>(list: Seq<SessionResult<N>>, sc: ScenarioModel<N>, rows: Seq<int>) -> bool {
    &&& list.len() == rows.len()
    &&& forall|k: int| 0 <= k < list.len() ==> is_on_row(#[trigger] list[k], sc, rows[k])
}

/// The rows below `n` that depart at `slot`.
pub open spec fn leavers<N>(sc: ScenarioModel<N>, slot: int, n: nat) -> Seq<int>
    decreases n,
{
    if n == 0 {
        Seq::empty()
    } else if sc.vehicles[n - 1].departure_slot == slot {
        leavers(sc, slot, (n - 1) as nat).push(n - 1)
    } else {
        leavers(sc, slot, (n - 1) as nat)
    }
}

/// The rows that depart before slot `t`, in the order in which they are reported.
pub open spec fn departed<N>(sc: ScenarioModel<N>, t: nat) -> Seq<int>
    decreases t,
{
    if t == 0 {
        Seq::empty()
    } else {
        departed(sc, (t - 1) as nat) + leavers(sc, t - 1, sc.vehicles.len())
    }
}

/// The rows below `n` that are still here at the end of the horizon.
pub open spec fn remaining<N>(sc: ScenarioModel<N>, horizon: int, n: nat) -> Seq<int>
    decreases n,
{
    if n == 0 {
        Seq::empty()
    } else {
        let v = sc.vehicles[n - 1];
        if v.arrival_slot < horizon <= v.departure_slot {
            remaining(sc, horizon, (n - 1) as nat).push(n - 1)
        } else {
            remaining(sc, horizon, (n - 1) as nat)
        }
    }
}

proof fn lemma_leavers<N>(sc: ScenarioModel<N>, slot: int, n: nat)
    ensures
        leavers(sc, slot, n).no_duplicates(),
        forall|i: int|
            #[trigger] leavers(sc, slot, n).contains(i) <==> 0 <= i < n && sc.vehicles[i].departure_slot
                == slot,
    decreases n,
{
    if n > 0 {
        lemma_leavers(sc, slot, (n - 1) as nat);
        let before = leavers(sc, slot, (n - 1) as nat);
        let all = leavers(sc, slot, n);
        if sc.vehicles[n - 1].departure_slot == slot {
            lemma_push(before, n - 1);
            assert(!before.contains(n - 1));
        }
    }
}

proof fn lemma_push(list: Seq<int>, x: int)
    ensures
        forall|i: int| #[trigger] list.push(x).contains(i) <==> list.contains(i) || i == x,
        list.no_duplicates() && !list.contains(x) ==> list.push(x).no_duplicates(),
{
    let all = list.push(x);
    assert forall|i: int| #[trigger] all.contains(i) <==> list.contains(i) || i == x by {
        if list.contains(i) {
            let k = choose|k: int| 0 <= k < list.len() && list[k] == i;
            assert(all[k] == i);
        }
        assert(all[list.len() as int] == x);
        if all.contains(i) {
            let k = choose|k: int| 0 <= k < all.len() && all[k] == i;
            if k < list.len() {
                assert(list[k] == i);
            }
        }
    }
    if list.no_duplicates() && !list.contains(x) {
        assert forall|i: int, j: int| 0 <= i < all.len() && 0 <= j < all.len() && i != j implies all[i]
            != all[j] by {
            if i < list.len() && j < list.len() {
                assert(list[i] != list[j]);
            } else if i < list.len() {
                assert(list.contains(list[i]));
            } else {
                assert(list.contains(list[j]));
            }
        }
    }
}

pub(crate) proof fn lemma_join(a: Seq<int>, b: Seq<int>)
    ensures
        forall|i: int| #[trigger] (a + b).contains(i) <==> a.contains(i) || b.contains(i),
        a.no_duplicates() && b.no_duplicates() && (forall|i: int| !(#[trigger] a.contains(i) && b.contains(i)))
            ==> (a + b).no_duplicates(),
{
    let all = a + b;
    assert forall|i: int| #[trigger] all.contains(i) <==> a.contains(i) || b.contains(i) by {
        if a.contains(i) {
            let k = choose|k: int| 0 <= k < a.len() && a[k] == i;
            assert(all[k] == i);
        }
        if b.contains(i) {
            let k = choose|k: int| 0 <= k < b.len() && b[k] == i;
            assert(all[a.len() + k] == i);
        }
        if all.contains(i) {
            let k = choose|k: int| 0 <= k < all.len() && all[k] == i;
            if k < a.len() {
                assert(a[k] == i);
            } else {
                assert(b[k - a.len()] == i);
            }
        }
    }
    if a.no_duplicates() && b.no_duplicates() && (forall|i: int| !(#[trigger] a.contains(i) && b.contains(i))) {
        assert forall|i: int, j: int| 0 <= i < all.len() && 0 <= j < all.len() && i != j implies all[i]
            != all[j] by {
            if i < a.len() && j < a.len() {
                assert(a[i] != a[j]);
            } else if i >= a.len() && j >= a.len() {
                assert(b[i - a.len()] != b[j - a.len()]);
            } else {
                let x = if i < a.len() { i } else { j };
                let y = if i < a.len() { j } else { i };
                assert(a.contains(a[x]));
                assert(b.contains(b[y - a.len()]));
            }
        }
    }
}

pub(crate) proof fn lemma_departed<N>(sc: ScenarioModel<N>, t: nat)
    ensures
        departed(sc, t).no_duplicates(),
        forall|i: int|
            #[trigger] departed(sc, t).contains(i) <==> 0 <= i < sc.vehicles.len()
                && sc.vehicles[i].departure_slot < t,
    decreases t,
{
    if t > 0 {
        lemma_departed(sc, (t - 1) as nat);
        lemma_leavers(sc, t - 1, sc.vehicles.len());
        lemma_join(departed(sc, (t - 1) as nat), leavers(sc, t - 1, sc.vehicles.len()));
    }
}

pub(crate) proof fn lemma_remaining<N>(sc: ScenarioModel<N>, horizon: int, n: nat)
    ensures
        remaining(sc, horizon, n).no_duplicates(),
        forall|i: int|
            #[trigger] remaining(sc, horizon, n).contains(i) <==> 0 <= i < n && sc.vehicles[i].arrival_slot
                < horizon <= sc.vehicles[i].departure_slot,
    decreases n,
{
    if n > 0 {
        lemma_remaining(sc, horizon, (n - 1) as nat);
        let before = remaining(sc, horizon, (n - 1) as nat);
        if sc.vehicles[n - 1].arrival_slot < horizon <= sc.vehicles[n - 1].departure_slot {
            lemma_push(before, n - 1);
            assert(!before.contains(n - 1));
        }
    }
}

/// Exactly the sessions that arrived before `t` and depart at `t` or later are
/// present, and each of them is plugged in or dropped, not both.
pub open spec fn presence_is_right<N>(sc: ScenarioModel<N>, st: SiteModel<N>, t: int) -> bool {
    forall|i: int|
        #![trigger sc.vehicles[i]]
        0 <= i < sc.vehicles.len() ==> {
            &&& is_present(st, i) <==> sc.vehicles[i].arrival_slot < t <= sc.vehicles[i].departure_slot
            &&& !(st.active[i] is Some && st.dropped[i])
        }
}

proof fn lemma_depart_reports<N: Num>(sc: ScenarioModel<N>, st: SiteModel<N>, slot: int, n: nat)
    requires
        is_sound(sc, st, slot, slot),
        sessions_run_forward(sc),
        presence_is_right(sc, st, slot),
        are_about(st.results, sc, departed(sc, slot as nat)),
        0 <= slot,
        n <= sc.vehicles.len(),
    ensures
        ({
            let next = depart(sc, st, slot, n);
            &&& are_about(next.results, sc, departed(sc, slot as nat) + leavers(sc, slot, n))
            &&& forall|i: int|
                #![trigger sc.vehicles[i]]
                0 <= i < sc.vehicles.len() ==> {
                    &&& is_present(next, i) == (is_present(st, i) && !(i < n
                        && sc.vehicles[i].departure_slot == slot))
                    &&& !(next.active[i] is Some && next.dropped[i])
                }
        }),
    decreases n,
{
    let rows = departed(sc, slot as nat);
    if n > 0 {
        let m = (n - 1) as nat;
        lemma_depart_reports(sc, st, slot, m);
        lemma_depart(sc, st, slot, m);
        let here = depart(sc, st, slot, m);
        let next = depart(sc, st, slot, n);
        let v = sc.vehicles[m as int];
        assert(v.arrival_slot < v.departure_slot);
        if v.departure_slot == slot {
            assert(is_present(st, m as int));
            assert(is_present(here, m as int));
            let r = report(sc, here, m as int)->0;
            assert(next.results == here.results.push(r));
            assert(is_about(r, v));
            let more = rows + leavers(sc, slot, n);
            assert(more =~= (rows + leavers(sc, slot, m)).push(m as int));
            assert forall|k: int| 0 <= k < next.results.len() implies is_on_row(
                #[trigger] next.results[k],
                sc,
                more[k],
            ) by {
                if k < here.results.len() {
                    assert(next.results[k] == here.results[k]);
                }
            }
        }
        assert forall|i: int| #![trigger sc.vehicles[i]] 0 <= i < sc.vehicles.len() implies {
            &&& is_present(next, i) == (is_present(st, i) && !(i < n && sc.vehicles[i].departure_slot
                == slot))
            &&& !(next.active[i] is Some && next.dropped[i])
        } by {
            assert(!(here.active[i] is Some && here.dropped[i]));
            assert(is_present(here, i) == (is_present(st, i) && !(i < m && sc.vehicles[i].departure_slot
                == slot)));
        }
    } else {
        assert(rows + leavers(sc, slot, 0) =~= rows);
        assert forall|i: int| #![trigger sc.vehicles[i]] 0 <= i < sc.vehicles.len() implies !(
        st.active[i] is Some && st.dropped[i]) by {}
    }
}

proof fn lemma_arrive_presence<N: Num>(sc: ScenarioModel<N>, st: SiteModel<N>, slot: int, order: Seq<usize>)
    ensures
        arrive(sc, st, slot, order).active == st.active,
        arrive(sc, st, slot, order).dropped == st.dropped,
        arrive(sc, st, slot, order).results == st.results,
    decreases order.len(),
{
    if order.len() > 0 {
        lemma_arrive_presence(sc, st, slot, order.drop_last());
    }
}

proof fn lemma_assign_presence<N: Num>(sc: ScenarioModel<N>, st: SiteModel<N>, slot: int, order: Seq<usize>)
    requires
        is_sound(sc, st, slot + 1, slot),
        sessions_run_forward(sc),
        sc.vehicles.len() <= usize::MAX,
        sc.chargers.len() <= usize::MAX,
        order.no_duplicates(),
        forall|k: int| 0 <= k < order.len() ==> #[trigger] order[k] < sc.vehicles.len(),
        forall|i: int|
            #![trigger sc.vehicles[i]]
            0 <= i < sc.vehicles.len() ==> !(st.active[i] is Some && st.dropped[i]) && (
            sc.vehicles[i].arrival_slot == slot ==> !is_present(st, i)),
    ensures
        ({
            let next = assign(sc, st, slot, order);
            &&& next.results == st.results
            &&& forall|i: int|
                #![trigger sc.vehicles[i]]
                0 <= i < sc.vehicles.len() ==> {
                    &&& is_present(next, i) == (is_present(st, i) || (order.contains(i as usize)
                        && sc.vehicles[i].arrival_slot == slot))
                    &&& !(next.active[i] is Some && next.dropped[i])
                }
        }),
    decreases order.len(),
{
    if order.len() > 0 {
        let rest = order.drop_last();
        assert forall|k: int| 0 <= k < rest.len() implies #[trigger] rest[k] < sc.vehicles.len() by {
            assert(rest[k] == order[k]);
        }
        assert(rest.no_duplicates());
        assert(order[order.len() - 1] < sc.vehicles.len());
        lemma_assign_presence(sc, st, slot, rest);
        lemma_assign(sc, st, slot, rest);
        let here = assign(sc, st, slot, rest);
        let next = assign(sc, st, slot, order);
        let row = order.last();
        assert(!rest.contains(row)) by {
            if rest.contains(row) {
                let k = choose|k: int| 0 <= k < rest.len() && rest[k] == row;
                assert(order[k] != order[order.len() - 1]);
            }
        }
        lemma_first_vacant(sc.chargers, here.free, false, sc.chargers.len());
        lemma_first_vacant(sc.chargers, here.free, true, sc.chargers.len());
        assert forall|i: int| #![trigger sc.vehicles[i]] 0 <= i < sc.vehicles.len() implies {
            &&& is_present(next, i) == (is_present(st, i) || (order.contains(i as usize)
                && sc.vehicles[i].arrival_slot == slot))
            &&& !(next.active[i] is Some && next.dropped[i])
        } by {
            assert(!(here.active[i] is Some && here.dropped[i]));
            assert(is_present(here, i) == (is_present(st, i) || (rest.contains(i as usize)
                && sc.vehicles[i].arrival_slot == slot)));
            if order.contains(i as usize) {
                let k = choose|k: int| 0 <= k < order.len() && order[k] == i as usize;
                if k < rest.len() {
                    assert(rest[k] == i as usize);
                }
            }
            if rest.contains(i as usize) {
                let k = choose|k: int| 0 <= k < rest.len() && rest[k] == i as usize;
                assert(order[k] == i as usize);
            }
            if i == row as int {
                assert(order[order.len() - 1] == i as usize);
                assert(order.contains(i as usize));
            }
        }
    }
}

/// Before every slot exactly the right sessions are present, and exactly those
/// that departed before it have been reported, each once.
pub proof fn departures_are_reported_in_turn<N: Num>(
    sc: ScenarioModel<N>,
    decisions: Seq<Seq<Setpoint<N>>>,
    t: nat,
)
    requires
        sessions_run_forward(sc),
        sc.vehicles.len() <= usize::MAX,
        sc.chargers.len() <= usize::MAX,
    ensures
        presence_is_right(sc, site_at(sc, decisions, t), t as int),
        are_about(site_at(sc, decisions, t).results, sc, departed(sc, t)),
    decreases t,
{
    if t == 0 {
    } else {
        let m = (t - 1) as nat;
        departures_are_reported_in_turn(sc, decisions, m);
        the_site_is_sound_in_every_slot(sc, decisions, m);
        let before = site_at(sc, decisions, m);
        let slot = m as int;
        let order = arrival_order(sc.vehicles);
        lemma_arrival_order(sc);
        lemma_depart_reports(sc, before, slot, sc.vehicles.len());
        lemma_depart(sc, before, slot, sc.vehicles.len());
        let left = depart(sc, before, slot, sc.vehicles.len());
        lemma_arrive_presence(sc, left, slot, order);
        lemma_arrive(sc, left, slot, order, slot + 1, slot);
        let here = arrive(sc, left, slot, order);
        assert forall|i: int| #![trigger sc.vehicles[i]] 0 <= i < sc.vehicles.len() implies !(
        here.active[i] is Some && here.dropped[i]) && (sc.vehicles[i].arrival_slot == slot ==> !is_present(
            here,
            i,
        )) by {
            assert(is_present(left, i) == (is_present(before, i) && !(sc.vehicles[i].departure_slot
                == slot)));
            assert(!(left.active[i] is Some && left.dropped[i]));
        }
        lemma_assign_presence(sc, here, slot, order);
        let st = boarded(sc, before, slot);
        lemma_dispatched(sc, st, slot, decisions[slot], slot + 1, slot);
        let next = site_at(sc, decisions, t);
        assert forall|i: int| #![trigger sc.vehicles[i]] 0 <= i < sc.vehicles.len() implies {
            &&& is_present(next, i) <==> sc.vehicles[i].arrival_slot < t <= sc.vehicles[i].departure_slot
            &&& !(next.active[i] is Some && next.dropped[i])
        } by {
            assert(sc.vehicles[i].arrival_slot < sc.vehicles[i].departure_slot);
            assert(is_present(left, i) == (is_present(before, i) && !(sc.vehicles[i].departure_slot
                == slot)));
            assert(is_present(st, i) == (is_present(here, i) || (order.contains(i as usize)
                && sc.vehicles[i].arrival_slot == slot)));
            assert(!(st.active[i] is Some && st.dropped[i]));
            assert(order.contains(i as usize));
            assert(st.active[i] is Some == next.active[i] is Some);
        }
    }
}

proof fn lemma_swept<N: Num>(sc: ScenarioModel<N>, st: SiteModel<N>, rows: Seq<int>, t: int, n: nat)
    requires
        is_shaped(sc, st),
        presence_is_right(sc, st, t),
        are_about(st.results, sc, rows),
        n <= sc.vehicles.len(),
    ensures
        are_about(swept(sc, st, n), sc, rows + remaining(sc, t, n)),
    decreases n,
{
    if n > 0 {
        let m = (n - 1) as nat;
        lemma_swept(sc, st, rows, t, m);
        let here = swept(sc, st, m);
        let next = swept(sc, st, n);
        let v = sc.vehicles[m as int];
        if is_present(st, m as int) {
            let r = report(sc, st, m as int)->0;
            let more = rows + remaining(sc, t, n);
            assert(more =~= (rows + remaining(sc, t, m)).push(m as int));
            assert forall|k: int| 0 <= k < next.len() implies is_on_row(
                #[trigger] next[k],
                sc,
                more[k],
            ) by {
                if k < here.len() {
                    assert(next[k] == here[k]);
                }
            }
        }
    } else {
        assert(rows + remaining(sc, t, 0) =~= rows);
    }
}

/// `rows` names the sessions of the reports: each session that arrives before the
/// horizon, exactly once.
pub open spec fn names_every_arrival_once<N>(
    sc: ScenarioModel<N>,
    list: Seq<SessionResult<N>>,
    rows: Seq<int>,
) -> bool {
    &&& are_about(list, sc, rows)
    &&& rows.no_duplicates()
    &&& forall|i: int|
        #[trigger] rows.contains(i) <==> 0 <= i < sc.vehicles.len() && sc.vehicles[i].arrival_slot
            < sc.rules.horizon_slots
}

/// The rows that a run reports before its reports are put in order.
pub open spec fn swept_rows<N>(sc: ScenarioModel<N>) -> Seq<int> {
    let horizon = sc.rules.horizon_slots;
    departed(sc, horizon as nat) + remaining(sc, horizon as int, sc.vehicles.len())
}

/// The rows that the reports of a run are about.
pub open spec fn reported_rows<N: Num>(sc: ScenarioModel<N>, decisions: Seq<Seq<Setpoint<N>>>) -> Seq<int> {
    let end = site_at(sc, decisions, sc.rules.horizon_slots as nat);
    let list = swept(sc, end, sc.vehicles.len());
    let order = stable_order(Seq::new(list.len(), |i: int| result_rank(list[i])));
    Seq::new(list.len(), |k: int| swept_rows(sc)[order[k] as int])
}

/// A run reports every session that arrives before the horizon exactly once,
/// served or not, whatever the policy answers.
pub proof fn every_session_is_reported_exactly_once<N: Num>(
    sc: ScenarioModel<N>,
    decisions: Seq<Seq<Setpoint<N>>>,
)
    requires
        sessions_run_forward(sc),
        sc.vehicles.len() <= usize::MAX,
        sc.chargers.len() <= usize::MAX,
    ensures
        names_every_arrival_once(
            sc,
            results_of(sc, decisions).sessions,
            reported_rows(sc, decisions),
        ),
{
    let horizon = sc.rules.horizon_slots as nat;
    let end = site_at(sc, decisions, horizon);
    departures_are_reported_in_turn(sc, decisions, horizon);
    the_site_is_sound_in_every_slot(sc, decisions, horizon);
    let first = departed(sc, horizon);
    let last = remaining(sc, horizon as int, sc.vehicles.len());
    lemma_swept(sc, end, first, horizon as int, sc.vehicles.len());
    lemma_departed(sc, horizon);
    lemma_remaining(sc, horizon as int, sc.vehicles.len());
    lemma_join(first, last);
    let all = first + last;
    let list = swept(sc, end, sc.vehicles.len());
    lemma_few(all, sc.vehicles.len());
    let keys = Seq::new(list.len(), |i: int| result_rank(list[i]));
    let order = stable_order(keys);
    stable_order_is_arrangement(keys, keys.len());
    let rows = reported_rows(sc, decisions);
    let sorted = sorted_results(list);
    assert(sorted.len() == rows.len());
    assert forall|k: int| 0 <= k < sorted.len() implies is_on_row(
        #[trigger] sorted[k],
        sc,
        rows[k],
    ) by {
        assert(order[k] < list.len());
        assert(sorted[k] == list[order[k] as int]);
    }
    assert(rows.no_duplicates()) by {
        assert forall|i: int, j: int| 0 <= i < rows.len() && 0 <= j < rows.len() && i != j implies rows[i]
            != rows[j] by {
            assert(order[i] != order[j]);
            assert(order[i] < list.len() && order[j] < list.len());
            assert(all[order[i] as int] != all[order[j] as int]);
        }
    }
    assert forall|i: int| #[trigger] rows.contains(i) <==> 0 <= i < sc.vehicles.len()
        && sc.vehicles[i].arrival_slot < sc.rules.horizon_slots by {
        if rows.contains(i) {
            let k = choose|k: int| 0 <= k < rows.len() && rows[k] == i;
            assert(order[k] < list.len());
            assert(all.contains(all[order[k] as int]));
            assert(sc.vehicles[i].arrival_slot < sc.vehicles[i].departure_slot);
        }
        if 0 <= i < sc.vehicles.len() && sc.vehicles[i].arrival_slot < sc.rules.horizon_slots {
            assert(all.contains(i)) by {
                assert(first.contains(i) || last.contains(i));
            }
            let p = choose|p: int| 0 <= p < all.len() && all[p] == i;
            assert(order.contains(p as usize));
            let k = choose|k: int| 0 <= k < order.len() && order[k] == p as usize;
            assert(rows[k] == i);
        }
    }
}

/// A run has at most as many reports as there are sessions.
pub(crate) proof fn lemma_swept_few<N: Num>(sc: ScenarioModel<N>, decisions: Seq<Seq<Setpoint<N>>>)
    requires
        sessions_run_forward(sc),
        sc.vehicles.len() <= usize::MAX,
        sc.chargers.len() <= usize::MAX,
    ensures
        swept(
            sc,
            site_at(sc, decisions, sc.rules.horizon_slots as nat),
            sc.vehicles.len(),
        ).len() <= sc.vehicles.len(),
{
    let horizon = sc.rules.horizon_slots as nat;
    let end = site_at(sc, decisions, horizon);
    departures_are_reported_in_turn(sc, decisions, horizon);
    the_site_is_sound_in_every_slot(sc, decisions, horizon);
    let first = departed(sc, horizon);
    let last = remaining(sc, horizon as int, sc.vehicles.len());
    lemma_swept(sc, end, first, horizon as int, sc.vehicles.len());
    lemma_departed(sc, horizon);
    lemma_remaining(sc, horizon as int, sc.vehicles.len());
    lemma_join(first, last);
    lemma_few(first + last, sc.vehicles.len());
}

/// A list of different numbers below `n` is not longer than `n`.
pub(crate) proof fn lemma_few(list: Seq<int>, n: nat)
    requires
        list.no_duplicates(),
        forall|i: int| #[trigger] list.contains(i) ==> 0 <= i < n,
    ensures
        list.len() <= n,
{
    let s = list.to_set();
    list.unique_seq_to_set();
    vstd::set_lib::lemma_int_range(0, n as int);
    assert(s.subset_of(vstd::set_lib::set_int_range(0, n as int))) by {
        assert forall|i: int| s.contains(i) implies vstd::set_lib::set_int_range(0, n as int).contains(i) by {
            assert(list.contains(i));
        }
    }
    vstd::set_lib::lemma_len_subset(s, vstd::set_lib::set_int_range(0, n as int));
}

/// The figures of a report agree with each other, and a session that never
/// obtained a charger leaves as it came.
pub open spec fn is_consistent<N: Num>(r: SessionResult<N>) -> bool {
    &&& r.missing_kwh == r.soc_target_kwh.minus(r.soc_departure_kwh).greater(zero_of())
    &&& r.banked_kwh == r.soc_departure_kwh.minus(r.soc_target_kwh).greater(zero_of())
    &&& r.target_met == r.missing_kwh.at_most(N::rational(1, 1_000_000_000))
    &&& r.never_connected ==> {
        &&& r.soc_departure_kwh == r.soc_arrival_kwh
        &&& r.energy_drawn_kwh == zero_of::<N>()
        &&& r.energy_exported_kwh == zero_of::<N>()
    }
}

/// All reports are consistent.
pub open spec fn are_consistent<N: Num>(list: Seq<SessionResult<N>>) -> bool {
    forall|k: int| 0 <= k < list.len() ==> is_consistent(#[trigger] list[k])
}

proof fn lemma_consistent_departures<N: Num>(sc: ScenarioModel<N>, st: SiteModel<N>, slot: int, n: nat)
    requires
        are_consistent(st.results),
    ensures
        are_consistent(depart(sc, st, slot, n).results),
    decreases n,
{
    if n > 0 {
        lemma_consistent_departures(sc, st, slot, (n - 1) as nat);
        let here = depart(sc, st, slot, (n - 1) as nat);
        let next = depart(sc, st, slot, n);
        assert forall|k: int| 0 <= k < next.results.len() implies is_consistent(#[trigger] next.results[k]) by {
            if k < here.results.len() {
                assert(next.results[k] == here.results[k]);
            }
        }
    }
}

proof fn lemma_assign_results<N: Num>(sc: ScenarioModel<N>, st: SiteModel<N>, slot: int, order: Seq<usize>)
    ensures
        assign(sc, st, slot, order).results == st.results,
    decreases order.len(),
{
    if order.len() > 0 {
        lemma_assign_results(sc, st, slot, order.drop_last());
    }
}

proof fn lemma_consistent<N: Num>(sc: ScenarioModel<N>, decisions: Seq<Seq<Setpoint<N>>>, t: nat)
    ensures
        are_consistent(site_at(sc, decisions, t).results),
    decreases t,
{
    if t > 0 {
        let m = (t - 1) as nat;
        let slot = m as int;
        lemma_consistent(sc, decisions, m);
        let before = site_at(sc, decisions, m);
        let order = arrival_order(sc.vehicles);
        lemma_consistent_departures(sc, before, slot, sc.vehicles.len());
        let left = depart(sc, before, slot, sc.vehicles.len());
        lemma_arrive_presence(sc, left, slot, order);
        lemma_assign_results(sc, arrive(sc, left, slot, order), slot, order);
    }
}

proof fn lemma_consistent_sweep<N: Num>(sc: ScenarioModel<N>, st: SiteModel<N>, n: nat)
    requires
        are_consistent(st.results),
    ensures
        are_consistent(swept(sc, st, n)),
    decreases n,
{
    if n > 0 {
        lemma_consistent_sweep(sc, st, (n - 1) as nat);
        let here = swept(sc, st, (n - 1) as nat);
        let next = swept(sc, st, n);
        assert forall|k: int| 0 <= k < next.len() implies is_consistent(#[trigger] next[k]) by {
            if k < here.len() {
                assert(next[k] == here[k]);
            }
        }
    }
}

/// In every report the missing and banked energy and the target flag follow from
/// the departure SoC, so they never contradict each other, and an unserved session
/// keeps its SoC.
pub proof fn reports_are_consistent<N: Num>(sc: ScenarioModel<N>, decisions: Seq<Seq<Setpoint<N>>>)
    requires
        sessions_run_forward(sc),
        sc.vehicles.len() <= usize::MAX,
        sc.chargers.len() <= usize::MAX,
    ensures
        are_consistent(results_of(sc, decisions).sessions),
{
    let horizon = sc.rules.horizon_slots as nat;
    let end = site_at(sc, decisions, horizon);
    lemma_consistent(sc, decisions, horizon);
    lemma_consistent_sweep(sc, end, sc.vehicles.len());
    lemma_swept_few(sc, decisions);
    let list = swept(sc, end, sc.vehicles.len());
    let keys = Seq::new(list.len(), |i: int| result_rank(list[i]));
    stable_order_is_arrangement(keys, keys.len());
    let sorted = sorted_results(list);
    assert forall|k: int| 0 <= k < sorted.len() implies is_consistent(#[trigger] sorted[k]) by {
        assert(stable_order(keys)[k] < list.len());
        assert(sorted[k] == list[stable_order(keys)[k] as int]);
    }
}

} // verus!
