//! The order of the session rows does not matter: a run over permuted rows shows
//! the policy the same, and reports the same.

use vstd::prelude::*;

use crate::engine::SessionResult;
use crate::num::{clamped, zero_of, Num};
use crate::order::{
    ranks_consistently, stable_order, stable_order_is_arrangement, stable_order_is_sorted, Rank, Ranked,
};
use crate::persistence::{lemma_arriving, standing_soc};
use crate::reporting::{
    departed, departures_are_reported_in_turn, every_session_is_reported_exactly_once, is_present, leavers,
    lemma_departed, lemma_few, lemma_join, lemma_remaining, presence_is_right, remaining, reported_rows, swept_rows,
};
use crate::scenario::{ScenarioModel, Vehicle};
use crate::site::{
    apply_request, arrival_order, arrival_rank, arrive, assign, assign_row, boarded, charge_start, charged,
    connected, depart, discharged, dispatched, in_pass, observation, pass, report, requested, result_rank,
    results_of, session_view, session_views, shown_rows, site_at, swept, trace_line, Flow, SiteModel,
};
use crate::soundness::{
    are_for_shown, is_plugged, is_shaped, is_sound, lemma_arrival_order, lemma_depart, lemma_dispatched, lemma_pass,
    lemma_requested, lemma_shown, sessions_run_forward, the_site_is_sound_in_every_slot,
};
use crate::state::{Session, SessionView, Setpoint};
use crate::validation::sessions_are_disjoint;

verus! {

// --------------------------------------------------------- unique orderings

/// Sessions of one vehicle do not arrive at once, so arrival slot and vehicle
/// tell sessions apart.
pub open spec fn ranks_differ<N>(vehicles: Seq<Vehicle<N>>) -> bool {
    forall|i: int, j: int|
        #![trigger vehicles[i], vehicles[j]]
        0 <= i < vehicles.len() && 0 <= j < vehicles.len() && i != j ==> arrival_rank(vehicles[i])
            != arrival_rank(vehicles[j])
}

proof fn lemma_ranks_differ<N>(sc: ScenarioModel<N>)
    requires
        sessions_run_forward(sc),
        sessions_are_disjoint(sc.vehicles),
    ensures
        ranks_differ(sc.vehicles),
{
    assert forall|i: int, j: int|
        #![trigger sc.vehicles[i], sc.vehicles[j]]
        0 <= i < sc.vehicles.len() && 0 <= j < sc.vehicles.len() && i != j implies arrival_rank(
        sc.vehicles[i],
    ) != arrival_rank(sc.vehicles[j]) by {
        assert(sc.vehicles[i].arrival_slot < sc.vehicles[i].departure_slot);
        assert(sc.vehicles[j].arrival_slot < sc.vehicles[j].departure_slot);
    }
}

/// A list of all rows below `n`, by ascending rank.
spec fn is_ranking(keys: Seq<Rank>, list: Seq<int>) -> bool {
    &&& list.len() == keys.len()
    &&& list.no_duplicates()
    &&& forall|i: int| #[trigger] list.contains(i) <==> 0 <= i < keys.len()
    &&& forall|p: int, q: int|
        #![trigger list[p], list[q]]
        0 <= p < q < list.len() ==> !keys[list[q]].ahead(&keys[list[p]])
}

/// Different ranks admit one ranking only.
proof fn lemma_one_ranking(keys: Seq<Rank>, a: Seq<int>, b: Seq<int>, k: int)
    requires
        is_ranking(keys, a),
        is_ranking(keys, b),
        forall|i: int, j: int|
            #![trigger keys[i], keys[j]]
            0 <= i < keys.len() && 0 <= j < keys.len() && i != j ==> keys[i] != keys[j],
        0 <= k <= keys.len(),
    ensures
        forall|j: int| 0 <= j < k ==> #[trigger] a[j] == b[j],
    decreases k,
{
    if k > 0 {
        lemma_one_ranking(keys, a, b, k - 1);
        let p = k - 1;
        if a[p] != b[p] {
            assert(a.contains(a[p]));
            assert(b.contains(b[p]));
            assert(b.contains(a[p]));
            assert(a.contains(b[p]));
            let m = choose|m: int| 0 <= m < b.len() && b[m] == a[p];
            let l = choose|l: int| 0 <= l < a.len() && a[l] == b[p];
            if m < p {
                assert(a[m] == b[m]);
                assert(a[m] != a[p]);
            }
            if l < p {
                assert(a[l] == b[l]);
                assert(b[l] != b[p]);
            }
            assert(!keys[a[l]].ahead(&keys[a[p]]));
            assert(!keys[b[m]].ahead(&keys[b[p]]));
            assert(keys[a[p]] != keys[b[p]]);
        }
    }
}

/// The stable order as a ranking.
proof fn lemma_order_is_ranking(keys: Seq<Rank>)
    requires
        keys.len() <= usize::MAX,
    ensures
        is_ranking(keys, Seq::new(keys.len(), |k: int| stable_order(keys)[k] as int)),
{
    let order = stable_order(keys);
    let list = Seq::new(keys.len(), |k: int| order[k] as int);
    assert(ranks_consistently(keys));
    stable_order_is_arrangement(keys, keys.len());
    stable_order_is_sorted(keys, keys.len());
    assert(list.no_duplicates()) by {
        assert forall|i: int, j: int| 0 <= i < list.len() && 0 <= j < list.len() && i != j implies list[i]
            != list[j] by {
            assert(order[i] != order[j]);
        }
    }
    assert forall|i: int| #[trigger] list.contains(i) <==> 0 <= i < keys.len() by {
        if list.contains(i) {
            let k = choose|k: int| 0 <= k < list.len() && list[k] == i;
            assert(order[k] < keys.len());
        }
        if 0 <= i < keys.len() {
            assert(order.contains(i as usize));
            let k = choose|k: int| 0 <= k < order.len() && order[k] == i as usize;
            assert(list[k] == i);
        }
    }
    assert forall|p: int, q: int|
        #![trigger list[p], list[q]]
        0 <= p < q < list.len() implies !keys[list[q]].ahead(&keys[list[p]]) by {
        assert(!keys[order[q] as int].ahead(&keys[order[p] as int]));
    }
}

// ------------------------------------------------------------ final reports

/// The report on row `i`: what is reported at its departure slot.
pub open spec fn final_report<N: Num>(
    sc: ScenarioModel<N>,
    decisions: Seq<Seq<Setpoint<N>>>,
    i: int,
) -> SessionResult<N> {
    report(sc, site_at(sc, decisions, sc.vehicles[i].departure_slot as nat), i)->0
}

/// The reports are the final ones of these rows.
pub open spec fn are_final<N: Num>(
    sc: ScenarioModel<N>,
    decisions: Seq<Seq<Setpoint<N>>>,
    list: Seq<SessionResult<N>>,
    rows: Seq<int>,
) -> bool {
    &&& list.len() == rows.len()
    &&& forall|k: int|
        0 <= k < list.len() ==> #[trigger] list[k] == final_report(sc, decisions, rows[k])
}

/// Row `i` departs at `slot` and is one of the first `n`.
spec fn is_leaving<N>(sc: ScenarioModel<N>, i: int, slot: int, n: nat) -> bool {
    0 <= i < n && sc.vehicles[i].departure_slot == slot
}

/// The port `c` is given up by one of the first `n` rows at `slot`.
spec fn is_given_up<N>(sc: ScenarioModel<N>, st: SiteModel<N>, c: int, slot: int, n: nat) -> bool {
    exists|i: int|
        #[trigger] is_leaving(sc, i, slot, n) && st.active[i] is Some && st.active[i]->0.charger_index
            == c
}

/// The row of vehicle `id` that leaves at `slot`.
spec fn leaver_of<N>(sc: ScenarioModel<N>, id: u32, slot: int, n: nat) -> int {
    choose|j: int| is_leaving(sc, j, slot, n) && sc.vehicles[j].vehicle_id == id
}

/// Vehicle `id` leaves at `slot`.
spec fn leaves<N>(sc: ScenarioModel<N>, id: u32, slot: int, n: nat) -> bool {
    exists|j: int| #[trigger] is_leaving(sc, j, slot, n) && sc.vehicles[j].vehicle_id == id
}

/// What departures make of the site, row by row.
proof fn lemma_departures<N: Num>(sc: ScenarioModel<N>, st: SiteModel<N>, slot: int, n: nat)
    requires
        is_sound(sc, st, slot, slot),
        sessions_run_forward(sc),
        sessions_are_disjoint(sc.vehicles),
        presence_is_right(sc, st, slot),
        n <= sc.vehicles.len(),
    ensures
        ({
            let next = depart(sc, st, slot, n);
            &&& next.arrival_soc == st.arrival_soc
            &&& next.clamped == st.clamped
            &&& next.trace == st.trace
            &&& next.slots == st.slots
            &&& forall|i: int|
                #![trigger next.active[i]]
                #![trigger next.dropped[i]]
                0 <= i < sc.vehicles.len() ==> {
                    &&& next.active[i] == (if is_leaving(sc, i, slot, n) {
                        None
                    } else {
                        st.active[i]
                    })
                    &&& next.dropped[i] == (!is_leaving(sc, i, slot, n) && st.dropped[i])
                }
            &&& forall|c: int|
                #![trigger next.free[c]]
                0 <= c < sc.chargers.len() ==> next.free[c] == (st.free[c] || is_given_up(
                    sc,
                    st,
                    c,
                    slot,
                    n,
                ))
            &&& forall|id: u32|
                #![trigger next.chain.dom().contains(id)]
                #![trigger next.chain[id]]
                if leaves(sc, id, slot, n) {
                    next.chain.dom().contains(id) && next.chain[id] == standing_soc(
                        st,
                        leaver_of(sc, id, slot, n),
                    )
                } else {
                    next.chain.dom().contains(id) == st.chain.dom().contains(id) && next.chain[id]
                        == st.chain[id]
                }
        }),
    decreases n,
{
    if n > 0 {
        let m = (n - 1) as nat;
        lemma_departures(sc, st, slot, m);
        lemma_depart(sc, st, slot, m);
        let here = depart(sc, st, slot, m);
        let next = depart(sc, st, slot, n);
        let v = sc.vehicles[m as int];
        assert(v.arrival_slot < v.departure_slot);
        let leaving = v.departure_slot == slot;
        assert(is_leaving(sc, m as int, slot, n) == leaving);
        assert forall|i: int| 0 <= i < sc.vehicles.len() && i != m implies #[trigger] is_leaving(
            sc,
            i,
            slot,
            n,
        ) == is_leaving(sc, i, slot, m) by {}
        assert(here.active[m as int] == st.active[m as int]);
        assert(here.dropped[m as int] == st.dropped[m as int]);
        if leaving {
            assert(is_present(st, m as int));
            assert(report(sc, here, m as int) is Some);
        }
        assert(is_plugged(sc, here, m as int));
        assert forall|c: int| #![trigger next.free[c]] 0 <= c < sc.chargers.len() implies next.free[c] == (
        st.free[c] || is_given_up(sc, st, c, slot, n)) by {
            assert(here.free[c] == (st.free[c] || is_given_up(sc, st, c, slot, m)));
            if is_given_up(sc, st, c, slot, m) {
                let i = choose|i: int|
                    #[trigger] is_leaving(sc, i, slot, m) && st.active[i] is Some
                        && st.active[i]->0.charger_index == c;
                assert(is_leaving(sc, i, slot, n));
            }
            if is_given_up(sc, st, c, slot, n) && !is_given_up(sc, st, c, slot, m) {
                let i = choose|i: int|
                    #[trigger] is_leaving(sc, i, slot, n) && st.active[i] is Some
                        && st.active[i]->0.charger_index == c;
                if i != m {
                    assert(is_leaving(sc, i, slot, m));
                }
            }
        }
        assert forall|id: u32|
            #![trigger next.chain.dom().contains(id)]
            #![trigger next.chain[id]]
            if leaves(sc, id, slot, n) {
                next.chain.dom().contains(id) && next.chain[id] == standing_soc(
                    st,
                    leaver_of(sc, id, slot, n),
                )
            } else {
                next.chain.dom().contains(id) == st.chain.dom().contains(id) && next.chain[id]
                    == st.chain[id]
            } by {
            if leaves(sc, id, slot, m) {
                let j = leaver_of(sc, id, slot, m);
                assert(is_leaving(sc, j, slot, m) && sc.vehicles[j].vehicle_id == id);
                assert(is_leaving(sc, j, slot, n));
                lemma_one_leaver(sc, id, slot, n, j);
                if leaving {
                    lemma_departures_differ(sc, j, m as int);
                }
            } else if leaving && v.vehicle_id == id {
                assert(is_leaving(sc, m as int, slot, n));
                lemma_one_leaver(sc, id, slot, n, m as int);
            } else if leaves(sc, id, slot, n) {
                let j = choose|j: int|
                    #[trigger] is_leaving(sc, j, slot, n) && sc.vehicles[j].vehicle_id == id;
                assert(j != m);
                assert(is_leaving(sc, j, slot, m));
            }
        }
    }
}

proof fn lemma_departures_differ<N>(sc: ScenarioModel<N>, j: int, k: int)
    requires
        sessions_run_forward(sc),
        sessions_are_disjoint(sc.vehicles),
        0 <= j < sc.vehicles.len(),
        0 <= k < sc.vehicles.len(),
        j != k,
        sc.vehicles[j].departure_slot == sc.vehicles[k].departure_slot,
    ensures
        sc.vehicles[j].vehicle_id != sc.vehicles[k].vehicle_id,
{
    assert(sc.vehicles[j].arrival_slot < sc.vehicles[j].departure_slot);
    assert(sc.vehicles[k].arrival_slot < sc.vehicles[k].departure_slot);
}

/// One session of a vehicle leaves at a slot.
proof fn lemma_one_leaver<N>(sc: ScenarioModel<N>, id: u32, slot: int, n: nat, j: int)
    requires
        sessions_run_forward(sc),
        sessions_are_disjoint(sc.vehicles),
        n <= sc.vehicles.len(),
        is_leaving(sc, j, slot, n),
        sc.vehicles[j].vehicle_id == id,
    ensures
        leaver_of(sc, id, slot, n) == j,
{
    let k = leaver_of(sc, id, slot, n);
    assert(is_leaving(sc, k, slot, n) && sc.vehicles[k].vehicle_id == id);
    if k != j {
        lemma_departures_differ(sc, j, k);
    }
}

proof fn lemma_final_departures<N: Num>(
    sc: ScenarioModel<N>,
    decisions: Seq<Seq<Setpoint<N>>>,
    slot: nat,
    n: nat,
)
    requires
        is_sound(sc, site_at(sc, decisions, slot), slot as int, slot as int),
        sessions_run_forward(sc),
        sessions_are_disjoint(sc.vehicles),
        presence_is_right(sc, site_at(sc, decisions, slot), slot as int),
        are_final(sc, decisions, site_at(sc, decisions, slot).results, departed(sc, slot)),
        n <= sc.vehicles.len(),
    ensures
        are_final(
            sc,
            decisions,
            depart(sc, site_at(sc, decisions, slot), slot as int, n).results,
            departed(sc, slot) + leavers(sc, slot as int, n),
        ),
    decreases n,
{
    let st = site_at(sc, decisions, slot);
    let rows = departed(sc, slot);
    if n > 0 {
        let m = (n - 1) as nat;
        lemma_final_departures(sc, decisions, slot, m);
        lemma_departures(sc, st, slot as int, m);
        let here = depart(sc, st, slot as int, m);
        let next = depart(sc, st, slot as int, n);
        let v = sc.vehicles[m as int];
        assert(v.arrival_slot < v.departure_slot);
        if v.departure_slot == slot {
            assert(is_present(st, m as int));
            assert(here.active[m as int] == st.active[m as int]);
            assert(here.dropped[m as int] == st.dropped[m as int]);
            let r = report(sc, here, m as int)->0;
            assert(r == final_report(sc, decisions, m as int));
            assert(next.results == here.results.push(r));
            let more = rows + leavers(sc, slot as int, n);
            assert(more =~= (rows + leavers(sc, slot as int, m)).push(m as int));
            assert forall|k: int| 0 <= k < next.results.len() implies #[trigger] next.results[k]
                == final_report(sc, decisions, more[k]) by {
                if k < here.results.len() {
                    assert(next.results[k] == here.results[k]);
                }
            }
        }
    } else {
        assert(rows + leavers(sc, slot as int, 0) =~= rows);
    }
}

proof fn lemma_boarding_adds_no_results<N: Num>(
    sc: ScenarioModel<N>,
    st: SiteModel<N>,
    slot: int,
    order: Seq<usize>,
)
    ensures
        arrive(sc, st, slot, order).results == st.results,
        assign(sc, st, slot, order).results == st.results,
    decreases order.len(),
{
    if order.len() > 0 {
        lemma_boarding_adds_no_results(sc, st, slot, order.drop_last());
    }
}

/// The sessions reported before slot `t` are reported with their final reports.
proof fn lemma_final_results<N: Num>(sc: ScenarioModel<N>, decisions: Seq<Seq<Setpoint<N>>>, t: nat)
    requires
        sessions_run_forward(sc),
        sessions_are_disjoint(sc.vehicles),
        sc.vehicles.len() <= usize::MAX,
        sc.chargers.len() <= usize::MAX,
    ensures
        are_final(sc, decisions, site_at(sc, decisions, t).results, departed(sc, t)),
    decreases t,
{
    if t > 0 {
        let m = (t - 1) as nat;
        let slot = m as int;
        lemma_final_results(sc, decisions, m);
        the_site_is_sound_in_every_slot(sc, decisions, m);
        departures_are_reported_in_turn(sc, decisions, m);
        lemma_final_departures(sc, decisions, m, sc.vehicles.len());
        let before = site_at(sc, decisions, m);
        let left = depart(sc, before, slot, sc.vehicles.len());
        let order = arrival_order(sc.vehicles);
        lemma_boarding_adds_no_results(sc, left, slot, order);
        lemma_boarding_adds_no_results(sc, arrive(sc, left, slot, order), slot, order);
        assert(site_at(sc, decisions, t).results == left.results);
    }
}

proof fn lemma_final_sweep<N: Num>(sc: ScenarioModel<N>, decisions: Seq<Seq<Setpoint<N>>>, rows: Seq<int>, t: nat, n: nat)
    requires
        presence_is_right(sc, site_at(sc, decisions, t), t as int),
        are_final(sc, decisions, site_at(sc, decisions, t).results, rows),
        forall|i: int|
            0 <= i < sc.vehicles.len() ==> (#[trigger] sc.vehicles[i]).departure_slot <= t,
        n <= sc.vehicles.len(),
    ensures
        are_final(
            sc,
            decisions,
            swept(sc, site_at(sc, decisions, t), n),
            rows + remaining(sc, t as int, n),
        ),
    decreases n,
{
    let st = site_at(sc, decisions, t);
    if n > 0 {
        let m = (n - 1) as nat;
        lemma_final_sweep(sc, decisions, rows, t, m);
        let here = swept(sc, st, m);
        let next = swept(sc, st, n);
        let v = sc.vehicles[m as int];
        if is_present(st, m as int) {
            assert(v.departure_slot == t);
            let more = rows + remaining(sc, t as int, n);
            assert(more =~= (rows + remaining(sc, t as int, m)).push(m as int));
            assert forall|k: int| 0 <= k < next.len() implies #[trigger] next[k] == final_report(
                sc,
                decisions,
                more[k],
            ) by {
                if k < here.len() {
                    assert(next[k] == here[k]);
                }
            }
        }
    } else {
        assert(rows + remaining(sc, t as int, 0) =~= rows);
    }
}

/// A run reports one session per row, in the order of arrival slot and vehicle,
/// each with what stood at its departure.
pub proof fn reports_come_in_arrival_order<N: Num>(sc: ScenarioModel<N>, decisions: Seq<Seq<Setpoint<N>>>)
    requires
        sessions_run_forward(sc),
        sessions_are_disjoint(sc.vehicles),
        forall|i: int|
            0 <= i < sc.vehicles.len() ==> (#[trigger] sc.vehicles[i]).departure_slot
                <= sc.rules.horizon_slots,
        sc.vehicles.len() <= usize::MAX,
        sc.chargers.len() <= usize::MAX,
    ensures
        results_of(sc, decisions).sessions == Seq::new(
            sc.vehicles.len(),
            |k: int| final_report(sc, decisions, arrival_order(sc.vehicles)[k] as int),
        ),
{
    let horizon = sc.rules.horizon_slots as nat;
    let end = site_at(sc, decisions, horizon);
    let n = sc.vehicles.len();
    lemma_final_results(sc, decisions, horizon);
    departures_are_reported_in_turn(sc, decisions, horizon);
    every_session_is_reported_exactly_once(sc, decisions);
    lemma_final_sweep(sc, decisions, departed(sc, horizon), horizon, n);
    lemma_ranks_differ(sc);
    let list = swept(sc, end, n);
    let all = swept_rows(sc);
    lemma_departed(sc, horizon);
    lemma_remaining(sc, horizon as int, n);
    lemma_join(departed(sc, horizon), remaining(sc, horizon as int, n));
    lemma_few(all, n);
    let result_keys = Seq::new(list.len(), |i: int| result_rank(list[i]));
    let order = stable_order(result_keys);
    stable_order_is_arrangement(result_keys, result_keys.len());
    assert(ranks_consistently(result_keys));
    stable_order_is_sorted(result_keys, result_keys.len());
    let keys = Seq::new(n, |i: int| arrival_rank(sc.vehicles[i]));
    let rows = reported_rows(sc, decisions);
    let sessions = results_of(sc, decisions).sessions;
    // Every row arrives before the horizon, so every row is reported.
    assert forall|i: int| #[trigger] rows.contains(i) <==> 0 <= i < n by {
        if 0 <= i < n {
            assert(sc.vehicles[i].arrival_slot < sc.vehicles[i].departure_slot);
        }
    }
    lemma_as_many(rows, n);
    assert forall|p: int, q: int|
        #![trigger rows[p], rows[q]]
        0 <= p < q < rows.len() implies !keys[rows[q]].ahead(&keys[rows[p]]) by {
        assert(order[p] < list.len() && order[q] < list.len());
        assert(!result_keys[order[q] as int].ahead(&result_keys[order[p] as int]));
        assert(sessions[p] == list[order[p] as int]);
        assert(sessions[q] == list[order[q] as int]);
        assert(crate::reporting::is_on_row(sessions[p], sc, rows[p]));
        assert(crate::reporting::is_on_row(sessions[q], sc, rows[q]));
    }
    assert(is_ranking(keys, rows));
    lemma_order_is_ranking(keys);
    let arrivals = Seq::new(n, |k: int| stable_order(keys)[k] as int);
    assert forall|i: int, j: int|
        #![trigger keys[i], keys[j]]
        0 <= i < keys.len() && 0 <= j < keys.len() && i != j implies keys[i] != keys[j] by {
        assert(arrival_rank(sc.vehicles[i]) != arrival_rank(sc.vehicles[j]));
    }
    lemma_one_ranking(keys, rows, arrivals, n as int);
    let want = Seq::new(
        n,
        |k: int| final_report(sc, decisions, arrival_order(sc.vehicles)[k] as int),
    );
    assert forall|k: int| 0 <= k < n implies sessions[k] == want[k] by {
        assert(rows[k] == arrivals[k]);
        assert(order[k] < list.len());
        assert(list[order[k] as int] == final_report(sc, decisions, all[order[k] as int]));
    }
    assert(sessions =~= want);
}

/// A list of all numbers below `n`, each once, has `n` entries.
proof fn lemma_as_many(list: Seq<int>, n: nat)
    requires
        list.no_duplicates(),
        forall|i: int| #[trigger] list.contains(i) <==> 0 <= i < n,
    ensures
        list.len() == n,
{
    list.unique_seq_to_set();
    vstd::set_lib::lemma_int_range(0, n as int);
    assert(list.to_set() =~= vstd::set_lib::set_int_range(0, n as int)) by {
        assert forall|i: int| list.to_set().contains(i) == vstd::set_lib::set_int_range(
            0,
            n as int,
        ).contains(i) by {
            assert(list.contains(i) == list.to_set().contains(i));
        }
    }
}

// ---------------------------------------------------------- permuted rows

/// `pi` lists all rows below `n`, each once.
pub open spec fn is_permutation(pi: Seq<int>, n: nat) -> bool {
    &&& pi.len() == n
    &&& pi.no_duplicates()
    &&& forall|i: int| #[trigger] pi.contains(i) <==> 0 <= i < n
}

/// `b` is `a` with its session rows in another order: row `i` of `b` is row
/// `pi[i]` of `a`.
pub open spec fn is_permuted<N>(a: ScenarioModel<N>, b: ScenarioModel<N>, pi: Seq<int>) -> bool {
    &&& is_permutation(pi, a.vehicles.len())
    &&& b == (ScenarioModel {
        vehicles: Seq::new(a.vehicles.len(), |i: int| a.vehicles[pi[i]]),
        ..a
    })
}

/// The same session, under another row number.
spec fn same_session<N>(s: Option<Session<N>>, t: Option<Session<N>>) -> bool {
    match (s, t) {
        (Some(x), Some(y)) => y == (Session { vehicle_index: y.vehicle_index, ..x }),
        (None, None) => true,
        _ => false,
    }
}

/// The sessions of `b` are those of `a` under other row numbers.
spec fn same_sessions<N>(
    a: Seq<Option<Session<N>>>,
    b: Seq<Option<Session<N>>>,
    pi: Seq<int>,
) -> bool {
    &&& a.len() == pi.len()
    &&& b.len() == pi.len()
    &&& forall|i: int| #![trigger b[i]] #![trigger pi[i]] 0 <= i < pi.len() ==> same_session(a[pi[i]], b[i])
}

/// The sites are the same up to row numbers (and the order of reports).
spec fn same_sites<N>(a: SiteModel<N>, b: SiteModel<N>, pi: Seq<int>) -> bool {
    &&& same_sessions(a.active, b.active, pi)
    &&& a.arrival_soc.len() == pi.len()
    &&& b.arrival_soc.len() == pi.len()
    &&& a.clamped.len() == pi.len()
    &&& b.clamped.len() == pi.len()
    &&& a.dropped.len() == pi.len()
    &&& b.dropped.len() == pi.len()
    &&& forall|i: int|
        #![trigger b.arrival_soc[i]]
        #![trigger b.clamped[i]]
        #![trigger b.dropped[i]]
        #![trigger pi[i]]
        0 <= i < pi.len() ==> b.arrival_soc[i] == a.arrival_soc[pi[i]] && b.clamped[i] == a.clamped[pi[i]]
            && b.dropped[i] == a.dropped[pi[i]]
    &&& a.free == b.free
    &&& a.chain == b.chain
    &&& a.trace == b.trace
    &&& a.slots == b.slots
}

/// A permuted list of sessions is as good.
proof fn lemma_permuted<N>(a: ScenarioModel<N>, b: ScenarioModel<N>, pi: Seq<int>)
    requires
        is_permuted(a, b, pi),
        sessions_run_forward(a),
        sessions_are_disjoint(a.vehicles),
    ensures
        b.vehicles.len() == a.vehicles.len(),
        forall|i: int|
            #![trigger b.vehicles[i]]
            #![trigger pi[i]]
            0 <= i < b.vehicles.len() ==> b.vehicles[i] == a.vehicles[pi[i]] && 0 <= pi[i]
                < a.vehicles.len(),
        sessions_run_forward(b),
        sessions_are_disjoint(b.vehicles),
{
    assert forall|i: int|
        #![trigger b.vehicles[i]]
        #![trigger pi[i]]
        0 <= i < b.vehicles.len() implies b.vehicles[i] == a.vehicles[pi[i]] && 0 <= pi[i]
        < a.vehicles.len() by {
        assert(pi.contains(pi[i]));
    }
    assert forall|i: int| 0 <= i < b.vehicles.len() implies (#[trigger] b.vehicles[i]).arrival_slot
        < b.vehicles[i].departure_slot by {
        assert(a.vehicles[pi[i]].arrival_slot < a.vehicles[pi[i]].departure_slot);
    }
    assert forall|i: int, j: int|
        #![trigger b.vehicles[i], b.vehicles[j]]
        0 <= i < b.vehicles.len() && 0 <= j < b.vehicles.len() && i != j && b.vehicles[i].vehicle_id
            == b.vehicles[j].vehicle_id implies b.vehicles[i].departure_slot <= b.vehicles[j].arrival_slot
        || b.vehicles[j].departure_slot <= b.vehicles[i].arrival_slot by {
        assert(pi[i] != pi[j]);
        assert(a.vehicles[pi[i]].vehicle_id == a.vehicles[pi[j]].vehicle_id);
    }
}

/// Where a row of `a` went.
proof fn lemma_image(pi: Seq<int>, n: nat, j: int) -> (i: int)
    requires
        is_permutation(pi, n),
        0 <= j < n,
    ensures
        0 <= i < n,
        pi[i] == j,
{
    assert(pi.contains(j));
    choose|i: int| 0 <= i < pi.len() && pi[i] == j
}

/// The arrival orders name the same sessions.
proof fn lemma_same_order<N>(a: ScenarioModel<N>, b: ScenarioModel<N>, pi: Seq<int>)
    requires
        is_permuted(a, b, pi),
        sessions_run_forward(a),
        sessions_are_disjoint(a.vehicles),
        a.vehicles.len() <= usize::MAX,
    ensures
        forall|k: int|
            #![trigger arrival_order(b.vehicles)[k]]
            #![trigger arrival_order(a.vehicles)[k]]
            0 <= k < a.vehicles.len() ==> pi[arrival_order(b.vehicles)[k] as int]
                == arrival_order(a.vehicles)[k] && arrival_order(b.vehicles)[k] < a.vehicles.len(),
{
    let n = a.vehicles.len();
    lemma_permuted(a, b, pi);
    lemma_ranks_differ(a);
    let ka = Seq::new(n, |i: int| arrival_rank(a.vehicles[i]));
    let kb = Seq::new(n, |i: int| arrival_rank(b.vehicles[i]));
    lemma_order_is_ranking(ka);
    lemma_order_is_ranking(kb);
    let oa = Seq::new(n, |k: int| stable_order(ka)[k] as int);
    let ob = Seq::new(n, |k: int| stable_order(kb)[k] as int);
    let image = Seq::new(n, |k: int| pi[ob[k]]);
    assert forall|k: int| #![trigger ob[k]] 0 <= k < n implies 0 <= ob[k] < n by {
        assert(ob.contains(ob[k]));
    }
    assert(is_ranking(ka, image)) by {
        assert(image.no_duplicates()) by {
            assert forall|i: int, j: int| 0 <= i < image.len() && 0 <= j < image.len() && i != j implies image[i]
                != image[j] by {
                assert(ob[i] != ob[j]);
                assert(0 <= ob[i] < n && 0 <= ob[j] < n);
                assert(pi[ob[i]] != pi[ob[j]]);
            }
        }
        assert forall|i: int| #[trigger] image.contains(i) <==> 0 <= i < ka.len() by {
            if image.contains(i) {
                let k = choose|k: int| 0 <= k < image.len() && image[k] == i;
                assert(0 <= ob[k] < n);
                assert(pi.contains(pi[ob[k]]));
            }
            if 0 <= i < ka.len() {
                let r = lemma_image(pi, n, i);
                assert(ob.contains(r));
                let k = choose|k: int| 0 <= k < ob.len() && ob[k] == r;
                assert(image[k] == i);
            }
        }
        assert forall|p: int, q: int|
            #![trigger image[p], image[q]]
            0 <= p < q < image.len() implies !ka[image[q]].ahead(&ka[image[p]]) by {
            assert(!kb[ob[q]].ahead(&kb[ob[p]]));
            assert(0 <= ob[p] < n && 0 <= ob[q] < n);
            assert(b.vehicles[ob[p]] == a.vehicles[pi[ob[p]]]);
            assert(b.vehicles[ob[q]] == a.vehicles[pi[ob[q]]]);
            assert(0 <= pi[ob[p]] < n && 0 <= pi[ob[q]] < n);
        }
    }
    assert forall|i: int, j: int|
        #![trigger ka[i], ka[j]]
        0 <= i < ka.len() && 0 <= j < ka.len() && i != j implies ka[i] != ka[j] by {
        assert(arrival_rank(a.vehicles[i]) != arrival_rank(a.vehicles[j]));
    }
    lemma_one_ranking(ka, image, oa, n as int);
    assert forall|k: int|
        #![trigger arrival_order(b.vehicles)[k]]
        #![trigger arrival_order(a.vehicles)[k]]
        0 <= k < n implies pi[arrival_order(b.vehicles)[k] as int] == arrival_order(a.vehicles)[k]
        && arrival_order(b.vehicles)[k] < n by {
        assert(image[k] == oa[k]);
        assert(0 <= ob[k] < n);
        assert(kb =~= Seq::new(b.vehicles.len(), |i: int| arrival_rank(b.vehicles[i])));
        assert(ka =~= Seq::new(a.vehicles.len(), |i: int| arrival_rank(a.vehicles[i])));
    }
}

/// Departures keep the sites the same.
proof fn lemma_same_departures<N: Num>(
    a: ScenarioModel<N>,
    b: ScenarioModel<N>,
    pi: Seq<int>,
    sa: SiteModel<N>,
    sb: SiteModel<N>,
    slot: int,
)
    requires
        is_permuted(a, b, pi),
        sessions_run_forward(a),
        sessions_are_disjoint(a.vehicles),
        is_sound(a, sa, slot, slot),
        is_sound(b, sb, slot, slot),
        presence_is_right(a, sa, slot),
        presence_is_right(b, sb, slot),
        same_sites(sa, sb, pi),
    ensures
        same_sites(
            depart(a, sa, slot, a.vehicles.len()),
            depart(b, sb, slot, b.vehicles.len()),
            pi,
        ),
{
    let n = a.vehicles.len();
    lemma_permuted(a, b, pi);
    lemma_departures(a, sa, slot, n);
    lemma_departures(b, sb, slot, n);
    lemma_depart(a, sa, slot, n);
    lemma_depart(b, sb, slot, n);
    let na = depart(a, sa, slot, n);
    let nb = depart(b, sb, slot, n);
    assert forall|i: int| #![trigger pi[i]] 0 <= i < n implies is_leaving(b, i, slot, n) == is_leaving(
        a,
        pi[i],
        slot,
        n,
    ) by {
        assert(b.vehicles[i] == a.vehicles[pi[i]]);
    }
    assert forall|i: int| #![trigger nb.active[i]] #![trigger pi[i]] 0 <= i < n implies same_session(
        na.active[pi[i]],
        nb.active[i],
    ) by {
        assert(b.vehicles[i] == a.vehicles[pi[i]]);
        assert(same_session(sa.active[pi[i]], sb.active[i]));
    }
    assert forall|i: int|
        #![trigger nb.dropped[i]]
        #![trigger pi[i]]
        0 <= i < n implies nb.dropped[i] == na.dropped[pi[i]] by {
        assert(b.vehicles[i] == a.vehicles[pi[i]]);
        assert(sb.dropped[i] == sa.dropped[pi[i]]);
        assert(na.active[pi[i]] == na.active[pi[i]]);
        assert(nb.active[i] == nb.active[i]);
    }
    assert forall|c: int| 0 <= c < a.chargers.len() implies na.free[c] == nb.free[c] by {
        assert(is_given_up(a, sa, c, slot, n) == is_given_up(b, sb, c, slot, n)) by {
            if is_given_up(a, sa, c, slot, n) {
                let j = choose|j: int|
                    #[trigger] is_leaving(a, j, slot, n) && sa.active[j] is Some
                        && sa.active[j]->0.charger_index == c;
                let i = lemma_image(pi, n, j);
                assert(is_leaving(b, i, slot, n));
                assert(same_session(sa.active[pi[i]], sb.active[i]));
            }
            if is_given_up(b, sb, c, slot, n) {
                let i = choose|i: int|
                    #[trigger] is_leaving(b, i, slot, n) && sb.active[i] is Some
                        && sb.active[i]->0.charger_index == c;
                assert(b.vehicles[i] == a.vehicles[pi[i]]);
                assert(is_leaving(a, pi[i], slot, n));
                assert(same_session(sa.active[pi[i]], sb.active[i]));
            }
        }
    }
    assert(na.free =~= nb.free);
    assert forall|id: u32| na.chain.dom().contains(id) == nb.chain.dom().contains(id) && (
    na.chain.dom().contains(id) ==> na.chain[id] == nb.chain[id]) by {
        if leaves(a, id, slot, n) {
            let j = choose|j: int| #[trigger] is_leaving(a, j, slot, n) && a.vehicles[j].vehicle_id == id;
            let i = lemma_image(pi, n, j);
            assert(is_leaving(b, i, slot, n) && b.vehicles[i].vehicle_id == id);
            lemma_one_leaver(a, id, slot, n, j);
            lemma_one_leaver(b, id, slot, n, i);
            assert(same_session(sa.active[pi[i]], sb.active[i]));
            assert(sb.arrival_soc[i] == sa.arrival_soc[pi[i]]);
        } else {
            assert(!leaves(b, id, slot, n)) by {
                if leaves(b, id, slot, n) {
                    let i = choose|i: int|
                        #[trigger] is_leaving(b, i, slot, n) && b.vehicles[i].vehicle_id == id;
                    assert(b.vehicles[i] == a.vehicles[pi[i]]);
                    assert(is_leaving(a, pi[i], slot, n));
                }
            }
        }
    }
    assert(na.chain =~= nb.chain);
    assert forall|i: int|
        #![trigger nb.arrival_soc[i]]
        #![trigger nb.clamped[i]]
        #![trigger nb.dropped[i]]
        #![trigger pi[i]]
        0 <= i < pi.len() implies nb.arrival_soc[i] == na.arrival_soc[pi[i]] && nb.clamped[i]
        == na.clamped[pi[i]] && nb.dropped[i] == na.dropped[pi[i]] by {
        assert(sb.arrival_soc[i] == sa.arrival_soc[pi[i]]);
        assert(sb.clamped[i] == sa.clamped[pi[i]]);
    }
}

/// Arrivals keep the sites the same.
proof fn lemma_same_arrivals<N: Num>(
    a: ScenarioModel<N>,
    b: ScenarioModel<N>,
    pi: Seq<int>,
    sa: SiteModel<N>,
    sb: SiteModel<N>,
    slot: int,
)
    requires
        is_permuted(a, b, pi),
        sessions_run_forward(a),
        sessions_are_disjoint(a.vehicles),
        a.vehicles.len() <= usize::MAX,
        is_shaped(a, sa),
        is_shaped(b, sb),
        same_sites(sa, sb, pi),
    ensures
        same_sites(
            arrive(a, sa, slot, arrival_order(a.vehicles)),
            arrive(b, sb, slot, arrival_order(b.vehicles)),
            pi,
        ),
{
    let n = a.vehicles.len();
    let oa = arrival_order(a.vehicles);
    let ob = arrival_order(b.vehicles);
    lemma_permuted(a, b, pi);
    lemma_arrival_order(a);
    lemma_arrival_order(b);
    lemma_arriving(a, sa, slot, oa);
    lemma_arriving(b, sb, slot, ob);
    lemma_arrive_keeps_more(a, sa, slot, oa);
    lemma_arrive_keeps_more(b, sb, slot, ob);
    let na = arrive(a, sa, slot, oa);
    let nb = arrive(b, sb, slot, ob);
    assert forall|i: int|
        #![trigger nb.arrival_soc[i]]
        #![trigger nb.clamped[i]]
        #![trigger nb.dropped[i]]
        #![trigger pi[i]]
        0 <= i < pi.len() implies nb.arrival_soc[i] == na.arrival_soc[pi[i]] && nb.clamped[i]
        == na.clamped[pi[i]] && nb.dropped[i] == na.dropped[pi[i]] by {
        assert(b.vehicles[i] == a.vehicles[pi[i]]);
        assert(oa.contains(pi[i] as usize));
        assert(ob.contains(i as usize));
        assert(sb.arrival_soc[i] == sa.arrival_soc[pi[i]]);
        assert(sb.clamped[i] == sa.clamped[pi[i]]);
        assert(sb.dropped[i] == sa.dropped[pi[i]]);
    }
}

proof fn lemma_arrive_keeps_more<N: Num>(sc: ScenarioModel<N>, st: SiteModel<N>, slot: int, order: Seq<usize>)
    ensures
        ({
            let next = arrive(sc, st, slot, order);
            &&& next.free == st.free
            &&& next.dropped == st.dropped
            &&& next.trace == st.trace
            &&& next.slots == st.slots
            &&& next.active == st.active
            &&& next.chain == st.chain
        }),
    decreases order.len(),
{
    if order.len() > 0 {
        lemma_arrive_keeps_more(sc, st, slot, order.drop_last());
    }
}

/// Port assignment keeps the sites the same.
proof fn lemma_same_assignments<N: Num>(
    a: ScenarioModel<N>,
    b: ScenarioModel<N>,
    pi: Seq<int>,
    sa: SiteModel<N>,
    sb: SiteModel<N>,
    slot: int,
    k: int,
)
    requires
        is_permuted(a, b, pi),
        sessions_run_forward(a),
        sessions_are_disjoint(a.vehicles),
        a.vehicles.len() <= usize::MAX,
        same_sites(sa, sb, pi),
        0 <= k <= a.vehicles.len(),
    ensures
        same_sites(
            assign(a, sa, slot, arrival_order(a.vehicles).take(k)),
            assign(b, sb, slot, arrival_order(b.vehicles).take(k)),
            pi,
        ),
    decreases k,
{
    let oa = arrival_order(a.vehicles);
    let ob = arrival_order(b.vehicles);
    lemma_permuted(a, b, pi);
    lemma_arrival_order(a);
    lemma_arrival_order(b);
    lemma_same_order(a, b, pi);
    if k > 0 {
        lemma_same_assignments(a, b, pi, sa, sb, slot, k - 1);
        assert(oa.take(k).drop_last() =~= oa.take(k - 1));
        assert(ob.take(k).drop_last() =~= ob.take(k - 1));
        let ha = assign(a, sa, slot, oa.take(k - 1));
        let hb = assign(b, sb, slot, ob.take(k - 1));
        let ra = oa[k - 1] as int;
        let rb = ob[k - 1] as int;
        assert(oa.take(k).last() == oa[k - 1] && ob.take(k).last() == ob[k - 1]);
        assert(pi[rb] == ra);
        assert(b.vehicles[rb] == a.vehicles[ra]);
        let na = assign_row(a, ha, slot, ra);
        let nb = assign_row(b, hb, slot, rb);
        assert(hb.arrival_soc[rb] == ha.arrival_soc[pi[rb]]);
        assert forall|i: int| #![trigger nb.active[i]] #![trigger pi[i]] 0 <= i < pi.len() implies same_session(
            na.active[pi[i]],
            nb.active[i],
        ) by {
            assert(same_session(ha.active[pi[i]], hb.active[i]));
            if i != rb {
                assert(pi[i] != pi[rb]);
            }
        }
        assert forall|i: int|
            #![trigger nb.arrival_soc[i]]
            #![trigger nb.clamped[i]]
            #![trigger nb.dropped[i]]
            #![trigger pi[i]]
            0 <= i < pi.len() implies nb.arrival_soc[i] == na.arrival_soc[pi[i]] && nb.clamped[i]
            == na.clamped[pi[i]] && nb.dropped[i] == na.dropped[pi[i]] by {
            assert(hb.arrival_soc[i] == ha.arrival_soc[pi[i]]);
            if i != rb {
                assert(pi[i] != pi[rb]);
            }
        }
    } else {
        assert(oa.take(0) =~= Seq::empty());
        assert(ob.take(0) =~= Seq::empty());
    }
}

/// The same sessions are shown, in the same order.
proof fn lemma_same_shown<N: Num>(
    a: ScenarioModel<N>,
    b: ScenarioModel<N>,
    pi: Seq<int>,
    sa: Seq<Option<Session<N>>>,
    sb: Seq<Option<Session<N>>>,
    k: int,
)
    requires
        is_permuted(a, b, pi),
        sessions_run_forward(a),
        sessions_are_disjoint(a.vehicles),
        a.vehicles.len() <= usize::MAX,
        same_sessions(sa, sb, pi),
        0 <= k <= a.vehicles.len(),
    ensures
        ({
            let ra = connected(sa, arrival_order(a.vehicles).take(k));
            let rb = connected(sb, arrival_order(b.vehicles).take(k));
            &&& ra.len() == rb.len()
            &&& forall|j: int|
                #![trigger ra[j]]
                #![trigger rb[j]]
                0 <= j < ra.len() ==> ra[j] == pi[rb[j] as int] && rb[j] < a.vehicles.len()
        }),
    decreases k,
{
    let oa = arrival_order(a.vehicles);
    let ob = arrival_order(b.vehicles);
    lemma_permuted(a, b, pi);
    lemma_arrival_order(a);
    lemma_arrival_order(b);
    lemma_same_order(a, b, pi);
    if k > 0 {
        lemma_same_shown(a, b, pi, sa, sb, k - 1);
        assert(oa.take(k).drop_last() =~= oa.take(k - 1));
        assert(ob.take(k).drop_last() =~= ob.take(k - 1));
        assert(oa.take(k).last() == oa[k - 1] && ob.take(k).last() == ob[k - 1]);
        assert(pi[ob[k - 1] as int] == oa[k - 1]);
        assert(same_session(sa[pi[ob[k - 1] as int]], sb[ob[k - 1] as int]));
    } else {
        assert(oa.take(0) =~= Seq::empty());
        assert(ob.take(0) =~= Seq::empty());
    }
}

/// What is shown is the same.
proof fn lemma_same_views<N: Num>(
    a: ScenarioModel<N>,
    b: ScenarioModel<N>,
    pi: Seq<int>,
    sa: SiteModel<N>,
    sb: SiteModel<N>,
)
    requires
        is_permuted(a, b, pi),
        sessions_run_forward(a),
        sessions_are_disjoint(a.vehicles),
        a.vehicles.len() <= usize::MAX,
        is_shaped(a, sa),
        is_shaped(b, sb),
        same_sites(sa, sb, pi),
    ensures
        session_views(a, sa) == session_views(b, sb),
        ({
            let ra = shown_rows(a, sa);
            let rb = shown_rows(b, sb);
            &&& ra.len() == rb.len()
            &&& forall|j: int|
                #![trigger ra[j]]
                #![trigger rb[j]]
                0 <= j < ra.len() ==> ra[j] == pi[rb[j] as int] && rb[j] < a.vehicles.len()
        }),
{
    let n = a.vehicles.len();
    lemma_permuted(a, b, pi);
    lemma_arrival_order(a);
    lemma_arrival_order(b);
    assert(arrival_order(a.vehicles).take(n as int) =~= arrival_order(a.vehicles));
    assert(arrival_order(b.vehicles).take(n as int) =~= arrival_order(b.vehicles));
    lemma_same_shown(a, b, pi, sa.active, sb.active, n as int);
    lemma_shown(a, sa);
    let ra = shown_rows(a, sa);
    let rb = shown_rows(b, sb);
    assert forall|j: int| 0 <= j < ra.len() implies session_view(a, sa, j, ra[j] as int) == session_view(
        b,
        sb,
        j,
        rb[j] as int,
    ) by {
        let i = rb[j] as int;
        assert(ra[j] == pi[i]);
        assert(b.vehicles[i] == a.vehicles[pi[i]]);
        assert(same_session(sa.active[pi[i]], sb.active[i]));
        assert(sa.active[ra[j] as int] is Some);
    }
    assert(session_views(a, sa) =~= session_views(b, sb));
}

/// The flows are the same up to row numbers.
spec fn same_flows<N>(a: Flow<N>, b: Flow<N>, pi: Seq<int>) -> bool {
    &&& same_sessions(a.active, b.active, pi)
    &&& a.applied == b.applied
    &&& a.total == b.total
    &&& a.allowance == b.allowance
}

/// A pass keeps the flows the same.
proof fn lemma_same_pass<N: Num>(
    a: ScenarioModel<N>,
    b: ScenarioModel<N>,
    pi: Seq<int>,
    ra: Seq<usize>,
    rb: Seq<usize>,
    views: Seq<SessionView<N>>,
    fa: Flow<N>,
    fb: Flow<N>,
    requests: Seq<Setpoint<N>>,
    charging: bool,
)
    requires
        is_permuted(a, b, pi),
        same_flows(fa, fb, pi),
        are_for_shown(requests, ra.len()),
        ra.len() == rb.len(),
        fa.applied.len() == ra.len(),
        forall|j: int|
            #![trigger ra[j]]
            #![trigger rb[j]]
            0 <= j < ra.len() ==> ra[j] == pi[rb[j] as int] && rb[j] < pi.len(),
        forall|j: int|
            #![trigger ra[j]]
            0 <= j < ra.len() ==> ra[j] < fa.active.len() && fa.active[ra[j] as int] is Some,
    ensures
        same_flows(
            pass(a, ra, views, fa, requests, charging),
            pass(b, rb, views, fb, requests, charging),
            pi,
        ),
    decreases requests.len(),
{
    if requests.len() > 0 {
        let rest = requests.drop_last();
        assert(are_for_shown(rest, ra.len())) by {
            assert forall|k: int| 0 <= k < rest.len() implies (#[trigger] rest[k]).session_index < ra.len()
                && rest[k].power_kw.finite() by {
                assert(rest[k] == requests[k]);
            }
        }
        lemma_same_pass(a, b, pi, ra, rb, views, fa, fb, rest, charging);
        lemma_pass(a, ra, views, fa, rest, charging);
        let ha = pass(a, ra, views, fa, rest, charging);
        let hb = pass(b, rb, views, fb, rest, charging);
        let sp = requests.last();
        assert(requests[requests.len() - 1].session_index < ra.len());
        if in_pass(sp, charging) {
            let k = sp.session_index as int;
            let i = rb[k] as int;
            assert(ra[k] == pi[i]);
            assert(same_session(ha.active[pi[i]], hb.active[i]));
            assert(fa.active[ra[k] as int] is Some);
            assert(ha.active[ra[k] as int] is Some);
            let na = apply_request(a, ra, views, ha, sp, charging);
            let nb = apply_request(b, rb, views, hb, sp, charging);
            assert forall|j: int| #![trigger nb.active[j]] #![trigger pi[j]] 0 <= j < pi.len() implies same_session(
                na.active[pi[j]],
                nb.active[j],
            ) by {
                assert(same_session(ha.active[pi[j]], hb.active[j]));
                assert(pi.contains(pi[j]));
                if j != i {
                    assert(pi[j] != pi[i]);
                }
            }
        }
    }
}

/// A slot keeps the sites the same.
proof fn lemma_same_dispatch<N: Num>(
    a: ScenarioModel<N>,
    b: ScenarioModel<N>,
    pi: Seq<int>,
    sa: SiteModel<N>,
    sb: SiteModel<N>,
    slot: int,
    out: Seq<Setpoint<N>>,
)
    requires
        is_permuted(a, b, pi),
        sessions_run_forward(a),
        sessions_are_disjoint(a.vehicles),
        a.vehicles.len() <= usize::MAX,
        is_sound(a, sa, slot + 1, slot),
        is_sound(b, sb, slot + 1, slot),
        same_sites(sa, sb, pi),
    ensures
        same_sites(dispatched(a, sa, slot, out), dispatched(b, sb, slot, out), pi),
{
    lemma_permuted(a, b, pi);
    lemma_same_views(a, b, pi, sa, sb);
    lemma_shown(a, sa);
    let ra = shown_rows(a, sa);
    let rb = shown_rows(b, sb);
    let views = session_views(a, sa);
    let requests = requested(out, ra.len());
    lemma_requested(out, ra.len());
    lemma_dispatched(a, sa, slot, out, slot + 1, slot);
    let fa = charge_start(a, sa, slot);
    let fb = charge_start(b, sb, slot);
    assert(fa.applied =~= fb.applied);
    lemma_same_pass(a, b, pi, ra, rb, views, fa, fb, requests, true);
    let ua = charged(a, sa, slot, out);
    let ub = charged(b, sb, slot, out);
    assert(same_flows(ua, ub, pi));
    let ga = Flow { total: zero_of(), allowance: a.building[slot].plus(ua.total), ..ua };
    let gb = Flow { total: zero_of(), allowance: b.building[slot].plus(ub.total), ..ub };
    assert forall|j: int| #![trigger ra[j]] 0 <= j < ra.len() implies ra[j] < ga.active.len()
        && ga.active[ra[j] as int] is Some by {
        assert(sa.active[ra[j] as int] is Some);
    }
    lemma_same_pass(a, b, pi, ra, rb, views, ga, gb, requests, false);
    let da = discharged(a, sa, slot, out);
    let db = discharged(b, sb, slot, out);
    assert(same_flows(da, db, pi));
    let ta = Seq::new(ra.len(), |k: int| trace_line(a, ra, da, slot, k));
    let tb = Seq::new(rb.len(), |k: int| trace_line(b, rb, db, slot, k));
    assert forall|k: int| 0 <= k < ra.len() implies ta[k] == tb[k] by {
        let i = rb[k] as int;
        assert(ra[k] == pi[i]);
        assert(b.vehicles[i] == a.vehicles[pi[i]]);
        assert(same_session(da.active[pi[i]], db.active[i]));
        assert(sa.active[ra[k] as int] is Some);
        assert(da.active[ra[k] as int] is Some);
    }
    assert(ta =~= tb);
    let na = dispatched(a, sa, slot, out);
    let nb = dispatched(b, sb, slot, out);
    assert forall|i: int|
        #![trigger nb.arrival_soc[i]]
        #![trigger nb.clamped[i]]
        #![trigger nb.dropped[i]]
        #![trigger pi[i]]
        0 <= i < pi.len() implies nb.arrival_soc[i] == na.arrival_soc[pi[i]] && nb.clamped[i]
        == na.clamped[pi[i]] && nb.dropped[i] == na.dropped[pi[i]] by {
        assert(sb.arrival_soc[i] == sa.arrival_soc[pi[i]]);
    }
}

/// Before every slot the sites are the same.
proof fn lemma_same_history<N: Num>(
    a: ScenarioModel<N>,
    b: ScenarioModel<N>,
    pi: Seq<int>,
    decisions: Seq<Seq<Setpoint<N>>>,
    t: nat,
)
    requires
        is_permuted(a, b, pi),
        sessions_run_forward(a),
        sessions_are_disjoint(a.vehicles),
        a.vehicles.len() <= usize::MAX,
        a.chargers.len() <= usize::MAX,
    ensures
        same_sites(site_at(a, decisions, t), site_at(b, decisions, t), pi),
        same_sites(
            boarded(a, site_at(a, decisions, t), t as int),
            boarded(b, site_at(b, decisions, t), t as int),
            pi,
        ),
    decreases t,
{
    lemma_permuted(a, b, pi);
    the_site_is_sound_in_every_slot(a, decisions, t);
    the_site_is_sound_in_every_slot(b, decisions, t);
    departures_are_reported_in_turn(a, decisions, t);
    departures_are_reported_in_turn(b, decisions, t);
    let sa = site_at(a, decisions, t);
    let sb = site_at(b, decisions, t);
    let slot = t as int;
    if t > 0 {
        let m = (t - 1) as nat;
        lemma_same_history(a, b, pi, decisions, m);
        the_site_is_sound_in_every_slot(a, decisions, m);
        the_site_is_sound_in_every_slot(b, decisions, m);
        lemma_same_dispatch(
            a,
            b,
            pi,
            boarded(a, site_at(a, decisions, m), m as int),
            boarded(b, site_at(b, decisions, m), m as int),
            m as int,
            decisions[m as int],
        );
    } else {
        assert forall|i: int|
            #![trigger sb.arrival_soc[i]]
            #![trigger sb.clamped[i]]
            #![trigger sb.dropped[i]]
            #![trigger pi[i]]
            0 <= i < pi.len() implies sb.arrival_soc[i] == sa.arrival_soc[pi[i]] && sb.clamped[i]
            == sa.clamped[pi[i]] && sb.dropped[i] == sa.dropped[pi[i]] by {
            assert(b.vehicles[i] == a.vehicles[pi[i]]);
        }
        assert forall|i: int| #![trigger sb.active[i]] #![trigger pi[i]] 0 <= i < pi.len() implies same_session(
            sa.active[pi[i]],
            sb.active[i],
        ) by {
            assert(b.vehicles[i] == a.vehicles[pi[i]]);
        }
        assert(sa.free =~= sb.free);
    }
    let n = a.vehicles.len();
    let oa = arrival_order(a.vehicles);
    let ob = arrival_order(b.vehicles);
    lemma_arrival_order(a);
    lemma_arrival_order(b);
    lemma_same_departures(a, b, pi, sa, sb, slot);
    lemma_depart(a, sa, slot, n);
    lemma_depart(b, sb, slot, n);
    let la = depart(a, sa, slot, n);
    let lb = depart(b, sb, slot, n);
    lemma_same_arrivals(a, b, pi, la, lb, slot);
    lemma_same_assignments(
        a,
        b,
        pi,
        arrive(a, la, slot, oa),
        arrive(b, lb, slot, ob),
        slot,
        n as int,
    );
    assert(oa.take(n as int) =~= oa);
    assert(ob.take(n as int) =~= ob);
}

/// The order of the session rows does not matter: with the same answers of the
/// policy, a run over permuted rows shows it the same in every slot, and reports
/// the same.
pub proof fn row_order_does_not_matter<N: Num>(
    a: ScenarioModel<N>,
    b: ScenarioModel<N>,
    pi: Seq<int>,
    decisions: Seq<Seq<Setpoint<N>>>,
)
    requires
        is_permuted(a, b, pi),
        sessions_run_forward(a),
        sessions_are_disjoint(a.vehicles),
        forall|i: int|
            0 <= i < a.vehicles.len() ==> (#[trigger] a.vehicles[i]).departure_slot
                <= a.rules.horizon_slots,
        a.vehicles.len() <= usize::MAX,
        a.chargers.len() <= usize::MAX,
    ensures
        results_of(a, decisions) == results_of(b, decisions),
        forall|t: nat|
            #![trigger site_at(a, decisions, t)]
            observation(a, boarded(a, site_at(a, decisions, t), t as int), t as int) == observation(
                b,
                boarded(b, site_at(b, decisions, t), t as int),
                t as int,
            ),
{
    lemma_permuted(a, b, pi);
    let n = a.vehicles.len();
    assert forall|t: nat|
        #![trigger site_at(a, decisions, t)]
        observation(a, boarded(a, site_at(a, decisions, t), t as int), t as int) == observation(
            b,
            boarded(b, site_at(b, decisions, t), t as int),
            t as int,
        ) by {
        lemma_same_history(a, b, pi, decisions, t);
        the_site_is_sound_in_every_slot(a, decisions, t);
        the_site_is_sound_in_every_slot(b, decisions, t);
        lemma_same_views(
            a,
            b,
            pi,
            boarded(a, site_at(a, decisions, t), t as int),
            boarded(b, site_at(b, decisions, t), t as int),
        );
    }
    assert forall|i: int| 0 <= i < b.vehicles.len() implies (#[trigger] b.vehicles[i]).departure_slot
        <= b.rules.horizon_slots by {
        assert(b.vehicles[i] == a.vehicles[pi[i]]);
    }
    reports_come_in_arrival_order(a, decisions);
    reports_come_in_arrival_order(b, decisions);
    lemma_same_order(a, b, pi);
    lemma_same_history(a, b, pi, decisions, a.rules.horizon_slots as nat);
    let oa = arrival_order(a.vehicles);
    let ob = arrival_order(b.vehicles);
    let xa = results_of(a, decisions).sessions;
    let xb = results_of(b, decisions).sessions;
    assert forall|k: int| 0 <= k < n implies xa[k] == xb[k] by {
        let i = ob[k] as int;
        assert(pi[i] == oa[k]);
        assert(b.vehicles[i] == a.vehicles[pi[i]]);
        let t = b.vehicles[i].departure_slot as nat;
        lemma_same_history(a, b, pi, decisions, t);
        let sa = site_at(a, decisions, t);
        let sb = site_at(b, decisions, t);
        assert(same_session(sa.active[pi[i]], sb.active[i]));
        assert(sb.arrival_soc[i] == sa.arrival_soc[pi[i]]);
    }
    assert(xa =~= xb);
}

} // verus!
