//! Persistence: a vehicle arrives with what it left with, less what it drove.

use vstd::prelude::*;

use crate::engine::SessionResult;
use crate::num::{clamped, zero_of, Num};
use crate::order::{stable_order, stable_order_is_arrangement};
use crate::reporting::{
    departed, departures_are_reported_in_turn, is_present, leavers, lemma_departed, lemma_few, lemma_join,
    lemma_remaining, presence_is_right, remaining, reported_rows, swept_rows,
};
use crate::scenario::ScenarioModel;
use crate::site::{
    arrival_order, arrive, assign, boarded, depart, report, result_rank, results_of, site_at, sorted_results, swept,
    SiteModel,
};
use crate::soundness::{
    has_left, is_shaped, is_sound, lemma_arrival_order, lemma_arrive, lemma_assign, lemma_depart, lemma_dispatched,
    sessions_run_forward, the_site_is_sound_in_every_slot,
};
use crate::state::Setpoint;
use crate::validation::sessions_are_disjoint;

verus! {

/// The SoC of the session of row `i` as it stands.
pub open spec fn standing_soc<N>(st: SiteModel<N>, i: int) -> N {
    match st.active[i] {
        Some(s) => s.soc_kwh,
        None => st.arrival_soc[i],
    }
}

/// The SoC with which the session of row `i` leaves: what stands before its
/// departure slot is processed.
pub open spec fn leaving_soc<N: Num>(sc: ScenarioModel<N>, decisions: Seq<Seq<Setpoint<N>>>, i: int) -> N {
    standing_soc(site_at(sc, decisions, sc.vehicles[i].departure_slot as nat), i)
}

/// Row `j` is the last session of its vehicle that departs before slot `t`.
pub open spec fn is_latest<N>(sc: ScenarioModel<N>, j: int, t: int) -> bool {
    &&& 0 <= j < sc.vehicles.len()
    &&& sc.vehicles[j].departure_slot < t
    &&& forall|k: int|
        0 <= k < sc.vehicles.len() && (#[trigger] sc.vehicles[k]).vehicle_id
            == sc.vehicles[j].vehicle_id && sc.vehicles[k].departure_slot < t
            ==> sc.vehicles[k].departure_slot <= sc.vehicles[j].departure_slot
}

/// Row `j` is the vehicle's last session before that of row `i`.
pub open spec fn is_previous<N>(sc: ScenarioModel<N>, j: int, i: int) -> bool {
    &&& is_latest(sc, j, sc.vehicles[i].arrival_slot + 1)
    &&& sc.vehicles[j].vehicle_id == sc.vehicles[i].vehicle_id
}

/// Vehicle `id` has a session among the first `n` that departs at `slot`.
pub open spec fn departs_at<N>(sc: ScenarioModel<N>, id: u32, slot: int, n: nat) -> bool {
    exists|j: int|
        0 <= j < n && (#[trigger] sc.vehicles[j]).vehicle_id == id && sc.vehicles[j].departure_slot
            == slot
}

/// The vehicle has a session that ends before that of row `i` starts.
pub open spec fn has_previous<N>(sc: ScenarioModel<N>, i: int) -> bool {
    has_left(sc, sc.vehicles[i].vehicle_id, sc.vehicles[i].arrival_slot as int)
}

/// The arrival SoC and the clamped energy of row `i` are right: chained to the
/// vehicle's previous session under persistence, tabled otherwise.
pub open spec fn starts_right<N: Num>(
    sc: ScenarioModel<N>,
    decisions: Seq<Seq<Setpoint<N>>>,
    i: int,
    soc: N,
    added: N,
) -> bool {
    let v = sc.vehicles[i];
    &&& sc.rules.persistence ==> forall|j: int|
        #[trigger] is_previous(sc, j, i) ==> {
            let raw = leaving_soc(sc, decisions, j).minus(v.depletion_kwh);
            &&& soc == clamped(raw, v.min_soc_kwh, v.ceiling())
            &&& added == soc.minus(raw).greater(zero_of())
        }
    &&& !(sc.rules.persistence && has_previous(sc, i)) ==> soc == v.soc_arrival_kwh && added
        == zero_of::<N>()
}

/// The chain remembers each vehicle's last departure before slot `t`.
pub open spec fn chain_is_right<N: Num>(
    sc: ScenarioModel<N>,
    decisions: Seq<Seq<Setpoint<N>>>,
    st: SiteModel<N>,
    t: int,
) -> bool {
    forall|j: int|
        #[trigger] is_latest(sc, j, t) ==> st.chain.dom().contains(sc.vehicles[j].vehicle_id)
            && st.chain[sc.vehicles[j].vehicle_id] == leaving_soc(sc, decisions, j)
}

/// The sessions that arrived before slot `t` started right, and their plugged-in
/// records say so.
pub open spec fn starts_are_right<N: Num>(
    sc: ScenarioModel<N>,
    decisions: Seq<Seq<Setpoint<N>>>,
    st: SiteModel<N>,
    t: int,
) -> bool {
    forall|i: int|
        #![trigger sc.vehicles[i]]
        0 <= i < sc.vehicles.len() ==> {
            &&& sc.vehicles[i].arrival_slot < t ==> starts_right(
                sc,
                decisions,
                i,
                st.arrival_soc[i],
                st.clamped[i],
            )
            &&& sc.vehicles[i].arrival_slot >= t ==> st.arrival_soc[i] == sc.vehicles[i].soc_arrival_kwh
                && st.clamped[i] == zero_of::<N>()
            &&& st.active[i] matches Some(s) ==> s.soc_arrival_kwh == st.arrival_soc[i]
        }
}

/// The report on row `i` says how it started and with what it left.
pub open spec fn reports_right<N: Num>(
    sc: ScenarioModel<N>,
    decisions: Seq<Seq<Setpoint<N>>>,
    r: SessionResult<N>,
    i: int,
) -> bool {
    &&& starts_right(sc, decisions, i, r.soc_arrival_kwh, r.chain_clamped_kwh)
    &&& r.soc_departure_kwh == leaving_soc(sc, decisions, i)
}

/// The reports say how their sessions started and with what they left.
pub open spec fn all_report_right<N: Num>(
    sc: ScenarioModel<N>,
    decisions: Seq<Seq<Setpoint<N>>>,
    list: Seq<SessionResult<N>>,
    rows: Seq<int>,
) -> bool {
    &&& list.len() == rows.len()
    &&& forall|k: int|
        0 <= k < list.len() ==> reports_right(sc, decisions, #[trigger] list[k], rows[k])
}

/// What departures leave as it was, and what they put into the chain.
proof fn lemma_departing<N: Num>(
    sc: ScenarioModel<N>,
    decisions: Seq<Seq<Setpoint<N>>>,
    st: SiteModel<N>,
    slot: int,
    n: nat,
)
    requires
        0 <= slot,
        st == site_at(sc, decisions, slot as nat),
        is_sound(sc, st, slot, slot),
        sessions_run_forward(sc),
        sessions_are_disjoint(sc.vehicles),
        presence_is_right(sc, st, slot),
        starts_are_right(sc, decisions, st, slot),
        all_report_right(sc, decisions, st.results, departed(sc, slot as nat)),
        n <= sc.vehicles.len(),
    ensures
        ({
            let next = depart(sc, st, slot, n);
            &&& next.arrival_soc == st.arrival_soc
            &&& next.clamped == st.clamped
            &&& forall|i: int|
                #![trigger next.active[i]]
                0 <= i < sc.vehicles.len() ==> next.active[i] == (if i < n
                    && sc.vehicles[i].departure_slot == slot {
                    None
                } else {
                    st.active[i]
                })
            &&& forall|i: int|
                #![trigger next.dropped[i]]
                n <= i < sc.vehicles.len() ==> next.dropped[i] == st.dropped[i]
            &&& forall|j: int|
                #![trigger sc.vehicles[j]]
                0 <= j < n && sc.vehicles[j].departure_slot == slot ==> next.chain.dom().contains(
                    sc.vehicles[j].vehicle_id,
                ) && next.chain[sc.vehicles[j].vehicle_id] == leaving_soc(sc, decisions, j)
            &&& forall|id: u32|
                #![trigger next.chain.dom().contains(id)]
                #![trigger next.chain[id]]
                !departs_at(sc, id, slot, n) ==> next.chain.dom().contains(id)
                    == st.chain.dom().contains(id) && next.chain[id] == st.chain[id]
            &&& all_report_right(
                sc,
                decisions,
                next.results,
                departed(sc, slot as nat) + leavers(sc, slot, n),
            )
        }),
    decreases n,
{
    let rows = departed(sc, slot as nat);
    if n > 0 {
        let m = (n - 1) as nat;
        lemma_departing(sc, decisions, st, slot, m);
        lemma_depart(sc, st, slot, m);
        let here = depart(sc, st, slot, m);
        let next = depart(sc, st, slot, n);
        let v = sc.vehicles[m as int];
        assert(v.arrival_slot < v.departure_slot);
        if v.departure_slot == slot {
            assert(is_present(st, m as int));
            assert(here.active[m as int] == st.active[m as int]);
            assert(here.dropped[m as int] == st.dropped[m as int]);
            let r = report(sc, here, m as int)->0;
            assert(r.soc_departure_kwh == leaving_soc(sc, decisions, m as int));
            assert(reports_right(sc, decisions, r, m as int));
            assert(next.results == here.results.push(r));
            let more = rows + leavers(sc, slot, n);
            assert(more =~= (rows + leavers(sc, slot, m)).push(m as int));
            assert forall|k: int| 0 <= k < next.results.len() implies reports_right(
                sc,
                decisions,
                #[trigger] next.results[k],
                more[k],
            ) by {
                if k < here.results.len() {
                    assert(next.results[k] == here.results[k]);
                }
            }
            assert forall|j: int|
                #![trigger sc.vehicles[j]]
                0 <= j < n && sc.vehicles[j].departure_slot == slot implies next.chain.dom().contains(
                sc.vehicles[j].vehicle_id,
            ) && next.chain[sc.vehicles[j].vehicle_id] == leaving_soc(sc, decisions, j) by {
                if j < m {
                    assert(sc.vehicles[j].arrival_slot < sc.vehicles[j].departure_slot);
                    assert(sc.vehicles[j].vehicle_id != v.vehicle_id);
                }
            }
        }
        assert forall|id: u32|
            #![trigger next.chain.dom().contains(id)]
            #![trigger next.chain[id]]
            !departs_at(sc, id, slot, n) implies next.chain.dom().contains(id)
            == st.chain.dom().contains(id) && next.chain[id] == st.chain[id] by {
            assert(!departs_at(sc, id, slot, m));
            assert(here.chain.dom().contains(id) == st.chain.dom().contains(id) && here.chain[id]
                == st.chain[id]);
            if v.departure_slot == slot {
                assert(v.vehicle_id != id);
            }
        }
    } else {
        assert(rows + leavers(sc, slot, 0) =~= rows);
    }
}

/// What arrivals change: the arrival SoC and the clamped energy of the rows that
/// arrive, according to the chain.
pub(crate) proof fn lemma_arriving<N: Num>(sc: ScenarioModel<N>, st: SiteModel<N>, slot: int, order: Seq<usize>)
    requires
        is_shaped(sc, st),
        sc.vehicles.len() <= usize::MAX,
        order.no_duplicates(),
        forall|k: int| 0 <= k < order.len() ==> #[trigger] order[k] < sc.vehicles.len(),
    ensures
        ({
            let next = arrive(sc, st, slot, order);
            &&& is_shaped(sc, next)
            &&& next.active == st.active
            &&& next.chain == st.chain
            &&& next.results == st.results
            &&& forall|i: int|
                #![trigger sc.vehicles[i]]
                0 <= i < sc.vehicles.len() ==> {
                    let v = sc.vehicles[i];
                    let raw = st.chain[v.vehicle_id].minus(v.depletion_kwh);
                    let soc = clamped(raw, v.min_soc_kwh, v.ceiling());
                    if order.contains(i as usize) && v.arrival_slot == slot && sc.rules.persistence
                        && st.chain.dom().contains(v.vehicle_id) {
                        next.arrival_soc[i] == soc && next.clamped[i] == soc.minus(raw).greater(zero_of())
                    } else {
                        next.arrival_soc[i] == st.arrival_soc[i] && next.clamped[i] == st.clamped[i]
                    }
                }
        }),
    decreases order.len(),
{
    if order.len() > 0 {
        let rest = order.drop_last();
        assert forall|k: int| 0 <= k < rest.len() implies #[trigger] rest[k] < sc.vehicles.len() by {
            assert(rest[k] == order[k]);
        }
        assert(order[order.len() - 1] < sc.vehicles.len());
        lemma_arriving(sc, st, slot, rest);
        let here = arrive(sc, st, slot, rest);
        let next = arrive(sc, st, slot, order);
        let row = order.last();
        assert(!rest.contains(row)) by {
            if rest.contains(row) {
                let k = choose|k: int| 0 <= k < rest.len() && rest[k] == row;
                assert(order[k] != order[order.len() - 1]);
            }
        }
        assert forall|i: int| #![trigger sc.vehicles[i]] 0 <= i < sc.vehicles.len() implies {
            let v = sc.vehicles[i];
            let raw = st.chain[v.vehicle_id].minus(v.depletion_kwh);
            let soc = clamped(raw, v.min_soc_kwh, v.ceiling());
            if order.contains(i as usize) && v.arrival_slot == slot && sc.rules.persistence
                && st.chain.dom().contains(v.vehicle_id) {
                next.arrival_soc[i] == soc && next.clamped[i] == soc.minus(raw).greater(zero_of())
            } else {
                next.arrival_soc[i] == st.arrival_soc[i] && next.clamped[i] == st.clamped[i]
            }
        } by {
            if order.contains(i as usize) {
                let k = choose|k: int| 0 <= k < order.len() && order[k] == i as usize;
                if k < rest.len() {
                    assert(rest[k] == i as usize);
                }
            }
            if rest.contains(i as usize) {
                let k = choose|k: int| 0 <= k < rest.len() && rest[k] == i as usize;
                assert(order[k] == i as usize);
            }
            if i == row as int {
                assert(order[order.len() - 1] == i as usize);
                assert(order.contains(i as usize));
            }
        }
    }
}

/// What assignment changes: nothing but ports, plugged-in sessions and the
/// dropped ones; a session that is plugged in starts with its arrival SoC.
proof fn lemma_assigning<N: Num>(sc: ScenarioModel<N>, st: SiteModel<N>, slot: int, order: Seq<usize>)
    requires
        is_sound(sc, st, slot + 1, slot),
        sessions_run_forward(sc),
        sc.vehicles.len() <= usize::MAX,
        sc.chargers.len() <= usize::MAX,
        forall|k: int| 0 <= k < order.len() ==> #[trigger] order[k] < sc.vehicles.len(),
        forall|i: int|
            #![trigger st.active[i]]
            0 <= i < sc.vehicles.len() ==> (st.active[i] matches Some(s) ==> s.soc_arrival_kwh
                == st.arrival_soc[i]),
    ensures
        ({
            let next = assign(sc, st, slot, order);
            &&& next.arrival_soc == st.arrival_soc
            &&& next.clamped == st.clamped
            &&& next.chain == st.chain
            &&& next.results == st.results
            &&& forall|i: int|
                #![trigger next.active[i]]
                0 <= i < sc.vehicles.len() ==> (next.active[i] matches Some(s) ==> s.soc_arrival_kwh
                    == next.arrival_soc[i])
        }),
    decreases order.len(),
{
    if order.len() > 0 {
        let rest = order.drop_last();
        assert forall|k: int| 0 <= k < rest.len() implies #[trigger] rest[k] < sc.vehicles.len() by {
            assert(rest[k] == order[k]);
        }
        assert(order[order.len() - 1] < sc.vehicles.len());
        lemma_assigning(sc, st, slot, rest);
        lemma_assign(sc, st, slot, rest);
        let here = assign(sc, st, slot, rest);
        let next = assign(sc, st, slot, order);
        assert forall|i: int|
            #![trigger next.active[i]]
            0 <= i < sc.vehicles.len() implies (next.active[i] matches Some(s) ==> s.soc_arrival_kwh
            == next.arrival_soc[i]) by {
            assert(here.active[i] matches Some(s) ==> s.soc_arrival_kwh == here.arrival_soc[i]);
        }
    }
}

/// What a slot needs of the slots before it.
pub open spec fn persists<N: Num>(
    sc: ScenarioModel<N>,
    decisions: Seq<Seq<Setpoint<N>>>,
    st: SiteModel<N>,
    t: nat,
) -> bool {
    &&& starts_are_right(sc, decisions, st, t as int)
    &&& chain_is_right(sc, decisions, st, t as int)
    &&& all_report_right(sc, decisions, st.results, departed(sc, t))
}

proof fn lemma_chain_after<N: Num>(
    sc: ScenarioModel<N>,
    decisions: Seq<Seq<Setpoint<N>>>,
    st: SiteModel<N>,
    slot: int,
)
    requires
        0 <= slot,
        st == site_at(sc, decisions, slot as nat),
        is_sound(sc, st, slot, slot),
        sessions_run_forward(sc),
        sessions_are_disjoint(sc.vehicles),
        presence_is_right(sc, st, slot),
        persists(sc, decisions, st, slot as nat),
    ensures
        chain_is_right(sc, decisions, depart(sc, st, slot, sc.vehicles.len()), slot + 1),
{
    let n = sc.vehicles.len();
    lemma_departing(sc, decisions, st, slot, n);
    let next = depart(sc, st, slot, n);
    assert forall|j: int| #[trigger] is_latest(sc, j, slot + 1) implies next.chain.dom().contains(
        sc.vehicles[j].vehicle_id,
    ) && next.chain[sc.vehicles[j].vehicle_id] == leaving_soc(sc, decisions, j) by {
        let id = sc.vehicles[j].vehicle_id;
        if sc.vehicles[j].departure_slot < slot {
            assert(!departs_at(sc, id, slot, n));
            assert(is_latest(sc, j, slot));
            assert(next.chain.dom().contains(id) == st.chain.dom().contains(id) && next.chain[id]
                == st.chain[id]);
        }
    }
}

/// Under persistence the SoC at the start of a session is the SoC with which the
/// vehicle's previous session left, less the declared depletion, moved into the
/// battery's range; what the move added is on record. A vehicle's first session,
/// and every session without persistence, starts as tabled. This holds before
/// every slot of every run, whatever the policy answers, and of every session
/// reported before it.
pub proof fn sessions_start_where_the_last_one_ended<N: Num>(
    sc: ScenarioModel<N>,
    decisions: Seq<Seq<Setpoint<N>>>,
    t: nat,
)
    requires
        sessions_run_forward(sc),
        sessions_are_disjoint(sc.vehicles),
        sc.vehicles.len() <= usize::MAX,
        sc.chargers.len() <= usize::MAX,
    ensures
        persists(sc, decisions, site_at(sc, decisions, t), t),
    decreases t,
{
    if t > 0 {
        let m = (t - 1) as nat;
        let slot = m as int;
        sessions_start_where_the_last_one_ended(sc, decisions, m);
        the_site_is_sound_in_every_slot(sc, decisions, m);
        departures_are_reported_in_turn(sc, decisions, m);
        let before = site_at(sc, decisions, m);
        let n = sc.vehicles.len();
        let order = arrival_order(sc.vehicles);
        lemma_arrival_order(sc);
        lemma_departing(sc, decisions, before, slot, n);
        lemma_depart(sc, before, slot, n);
        lemma_chain_after(sc, decisions, before, slot);
        let left = depart(sc, before, slot, n);
        lemma_arriving(sc, left, slot, order);
        lemma_arrive(sc, left, slot, order, slot + 1, slot);
        let here = arrive(sc, left, slot, order);
        assert forall|i: int|
            #![trigger here.active[i]]
            0 <= i < sc.vehicles.len() implies (here.active[i] matches Some(s) ==> s.soc_arrival_kwh
            == here.arrival_soc[i]) by {
            assert(left.active[i] matches Some(s) ==> before.active[i] == left.active[i]);
            let v = sc.vehicles[i];
            assert(left.active[i] is Some ==> is_present(before, i));
        }
        lemma_assigning(sc, here, slot, order);
        let st = boarded(sc, before, slot);
        lemma_dispatched(sc, st, slot, decisions[slot], slot + 1, slot);
        let next = site_at(sc, decisions, t);
        assert forall|i: int| #![trigger sc.vehicles[i]] 0 <= i < sc.vehicles.len() implies {
            &&& sc.vehicles[i].arrival_slot < t ==> starts_right(
                sc,
                decisions,
                i,
                next.arrival_soc[i],
                next.clamped[i],
            )
            &&& sc.vehicles[i].arrival_slot >= t ==> next.arrival_soc[i]
                == sc.vehicles[i].soc_arrival_kwh && next.clamped[i] == zero_of::<N>()
            &&& next.active[i] matches Some(s) ==> s.soc_arrival_kwh == next.arrival_soc[i]
        } by {
            let v = sc.vehicles[i];
            assert(order.contains(i as usize));
            assert(next.active[i] matches Some(s) ==> st.active[i] is Some && st.active[i]->0.soc_arrival_kwh
                == s.soc_arrival_kwh);
            if v.arrival_slot == slot {
                lemma_fresh_start(sc, decisions, before, left, i);
            }
        }
        assert(next.results == left.results);
        assert(departed(sc, t) == departed(sc, m) + leavers(sc, slot, n));
    }
}

/// A row that arrives at `slot` starts right.
proof fn lemma_fresh_start<N: Num>(
    sc: ScenarioModel<N>,
    decisions: Seq<Seq<Setpoint<N>>>,
    before: SiteModel<N>,
    left: SiteModel<N>,
    i: int,
)
    requires
        0 <= i < sc.vehicles.len(),
        sessions_run_forward(sc),
        sessions_are_disjoint(sc.vehicles),
        before == site_at(sc, decisions, sc.vehicles[i].arrival_slot as nat),
        left == depart(sc, before, sc.vehicles[i].arrival_slot as int, sc.vehicles.len()),
        is_sound(
            sc,
            left,
            sc.vehicles[i].arrival_slot + 1,
            sc.vehicles[i].arrival_slot as int,
        ),
        left.arrival_soc[i] == sc.vehicles[i].soc_arrival_kwh,
        left.clamped[i] == zero_of::<N>(),
        chain_is_right(sc, decisions, left, sc.vehicles[i].arrival_slot + 1),
    ensures
        ({
            let v = sc.vehicles[i];
            let raw = left.chain[v.vehicle_id].minus(v.depletion_kwh);
            let soc = clamped(raw, v.min_soc_kwh, v.ceiling());
            if sc.rules.persistence && left.chain.dom().contains(v.vehicle_id) {
                starts_right(sc, decisions, i, soc, soc.minus(raw).greater(zero_of()))
            } else {
                starts_right(sc, decisions, i, left.arrival_soc[i], left.clamped[i])
            }
        }),
{
    let v = sc.vehicles[i];
    let id = v.vehicle_id;
    let slot = v.arrival_slot as int;
    assert forall|j: int| #[trigger] is_previous(sc, j, i) implies left.chain.dom().contains(id)
        && left.chain[id] == leaving_soc(sc, decisions, j) by {
        assert(is_latest(sc, j, slot + 1));
    }
    if left.chain.dom().contains(id) {
        assert(has_left(sc, id, slot));
    } else if has_previous(sc, i) {
        let j = lemma_last_of(sc, i, sc.vehicles.len());
        assert(is_previous(sc, j, i));
    }
}

/// A vehicle with an earlier session has a last earlier one.
proof fn lemma_last_of<N>(sc: ScenarioModel<N>, i: int, n: nat) -> (j: int)
    requires
        0 <= i < sc.vehicles.len(),
        n <= sc.vehicles.len(),
        exists|k: int|
            0 <= k < n && (#[trigger] sc.vehicles[k]).vehicle_id == sc.vehicles[i].vehicle_id
                && sc.vehicles[k].departure_slot <= sc.vehicles[i].arrival_slot,
    ensures
        0 <= j < n,
        sc.vehicles[j].vehicle_id == sc.vehicles[i].vehicle_id,
        sc.vehicles[j].departure_slot <= sc.vehicles[i].arrival_slot,
        forall|k: int|
            0 <= k < n && (#[trigger] sc.vehicles[k]).vehicle_id == sc.vehicles[i].vehicle_id
                && sc.vehicles[k].departure_slot <= sc.vehicles[i].arrival_slot
                ==> sc.vehicles[k].departure_slot <= sc.vehicles[j].departure_slot,
    decreases n,
{
    let w = sc.vehicles[n - 1];
    let fits = w.vehicle_id == sc.vehicles[i].vehicle_id && w.departure_slot
        <= sc.vehicles[i].arrival_slot;
    if exists|k: int|
        0 <= k < n - 1 && (#[trigger] sc.vehicles[k]).vehicle_id == sc.vehicles[i].vehicle_id
            && sc.vehicles[k].departure_slot <= sc.vehicles[i].arrival_slot {
        let j = lemma_last_of(sc, i, (n - 1) as nat);
        if fits && sc.vehicles[j].departure_slot < w.departure_slot {
            n - 1
        } else {
            j
        }
    } else {
        n - 1
    }
}

proof fn lemma_sweeping<N: Num>(
    sc: ScenarioModel<N>,
    decisions: Seq<Seq<Setpoint<N>>>,
    rows: Seq<int>,
    t: nat,
    n: nat,
)
    requires
        is_shaped(sc, site_at(sc, decisions, t)),
        presence_is_right(sc, site_at(sc, decisions, t), t as int),
        starts_are_right(sc, decisions, site_at(sc, decisions, t), t as int),
        all_report_right(sc, decisions, site_at(sc, decisions, t).results, rows),
        forall|i: int|
            0 <= i < sc.vehicles.len() ==> (#[trigger] sc.vehicles[i]).departure_slot <= t,
        n <= sc.vehicles.len(),
    ensures
        all_report_right(
            sc,
            decisions,
            swept(sc, site_at(sc, decisions, t), n),
            rows + remaining(sc, t as int, n),
        ),
    decreases n,
{
    let st = site_at(sc, decisions, t);
    if n > 0 {
        let m = (n - 1) as nat;
        lemma_sweeping(sc, decisions, rows, t, m);
        let here = swept(sc, st, m);
        let next = swept(sc, st, n);
        let v = sc.vehicles[m as int];
        if is_present(st, m as int) {
            let r = report(sc, st, m as int)->0;
            assert(v.departure_slot == t);
            assert(reports_right(sc, decisions, r, m as int));
            let more = rows + remaining(sc, t as int, n);
            assert(more =~= (rows + remaining(sc, t as int, m)).push(m as int));
            assert forall|k: int| 0 <= k < next.len() implies reports_right(
                sc,
                decisions,
                #[trigger] next[k],
                more[k],
            ) by {
                if k < here.len() {
                    assert(next[k] == here[k]);
                }
            }
        }
    } else {
        assert(rows + remaining(sc, t as int, 0) =~= rows);
    }
}

/// Of every session that a run reports, the report says how it started, chained
/// to the vehicle's previous session or as tabled, and with what it left, so the
/// reports of one vehicle form a chain.
pub proof fn reports_form_chains<N: Num>(sc: ScenarioModel<N>, decisions: Seq<Seq<Setpoint<N>>>)
    requires
        sessions_run_forward(sc),
        sessions_are_disjoint(sc.vehicles),
        forall|i: int|
            0 <= i < sc.vehicles.len() ==> (#[trigger] sc.vehicles[i]).departure_slot
                <= sc.rules.horizon_slots,
        sc.vehicles.len() <= usize::MAX,
        sc.chargers.len() <= usize::MAX,
    ensures
        all_report_right(
            sc,
            decisions,
            results_of(sc, decisions).sessions,
            reported_rows(sc, decisions),
        ),
{
    let horizon = sc.rules.horizon_slots as nat;
    let end = site_at(sc, decisions, horizon);
    sessions_start_where_the_last_one_ended(sc, decisions, horizon);
    departures_are_reported_in_turn(sc, decisions, horizon);
    the_site_is_sound_in_every_slot(sc, decisions, horizon);
    lemma_sweeping(sc, decisions, departed(sc, horizon), horizon, sc.vehicles.len());
    let list = swept(sc, end, sc.vehicles.len());
    let all = swept_rows(sc);
    lemma_departed(sc, horizon);
    lemma_remaining(sc, horizon as int, sc.vehicles.len());
    lemma_join(departed(sc, horizon), remaining(sc, horizon as int, sc.vehicles.len()));
    lemma_few(all, sc.vehicles.len());
    let keys = Seq::new(list.len(), |i: int| result_rank(list[i]));
    let order = stable_order(keys);
    stable_order_is_arrangement(keys, keys.len());
    let sorted = sorted_results(list);
    let rows = reported_rows(sc, decisions);
    assert forall|k: int| 0 <= k < sorted.len() implies reports_right(
        sc,
        decisions,
        #[trigger] sorted[k],
        rows[k],
    ) by {
        assert(order[k] < list.len());
        assert(sorted[k] == list[order[k] as int]);
    }
}

} // verus!
