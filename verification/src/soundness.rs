//! What holds of the site in every slot of every run: each plugged-in session
//! has a port of its own, and none stays past its departure.

use vstd::prelude::*;

use crate::num::Num;
use crate::order::stable_order_is_arrangement;
use crate::scenario::{Charger, ScenarioModel};
use crate::site::{
    apply_request, arrival_order, arrival_rank, arrive, assign, assign_row, boarded, charge_start, charged,
    connected, depart, depart_row, discharged, dispatched, first_vacant, in_pass, observation, opening, pass, report,
    requested, session_view, session_views, shown_rows, site_at, without, Flow, SiteModel,
};
use crate::state::{Session, SessionView, Setpoint};

verus! {

/// Vehicle `id` has a session that ended at `slot` or before.
pub open spec fn has_left<N>(sc: ScenarioModel<N>, id: u32, slot: int) -> bool {
    exists|j: int|
        0 <= j < sc.vehicles.len() && (#[trigger] sc.vehicles[j]).vehicle_id == id
            && sc.vehicles[j].departure_slot <= slot
}

/// The sequences of the site have the lengths of the scenario's tables.
pub open spec fn is_shaped<N>(sc: ScenarioModel<N>, st: SiteModel<N>) -> bool {
    &&& st.active.len() == sc.vehicles.len()
    &&& st.arrival_soc.len() == sc.vehicles.len()
    &&& st.clamped.len() == sc.vehicles.len()
    &&& st.dropped.len() == sc.vehicles.len()
    &&& st.free.len() == sc.chargers.len()
}

/// Row `i`, if plugged in, holds an occupied port.
pub open spec fn is_plugged<N>(sc: ScenarioModel<N>, st: SiteModel<N>, i: int) -> bool {
    st.active[i] matches Some(s) ==> {
        &&& s.vehicle_index == i
        &&& s.charger_index < sc.chargers.len()
        &&& !st.free[s.charger_index as int]
    }
}

/// No two plugged-in sessions share a port.
pub open spec fn ports_are_exclusive<N>(st: SiteModel<N>) -> bool {
    forall|i: int, j: int|
        #![trigger st.active[i], st.active[j]]
        0 <= i < st.active.len() && 0 <= j < st.active.len() && i != j && st.active[i] is Some
            && st.active[j] is Some ==> st.active[i]->0.charger_index != st.active[j]->0.charger_index
}

/// The site is in order, with departures processed for every slot below `from`
/// and remembered for none after `past`.
pub open spec fn is_sound<N>(sc: ScenarioModel<N>, st: SiteModel<N>, from: int, past: int) -> bool {
    &&& is_shaped(sc, st)
    &&& forall|i: int| 0 <= i < sc.vehicles.len() ==> #[trigger] is_plugged(sc, st, i)
    &&& ports_are_exclusive(st)
    &&& forall|i: int|
        0 <= i < sc.vehicles.len() && (#[trigger] st.active[i]) is Some
            ==> sc.vehicles[i].departure_slot >= from
    &&& forall|id: u32| #[trigger] st.chain.dom().contains(id) ==> has_left(sc, id, past)
}

/// Every session ends after it starts.
pub open spec fn sessions_run_forward<N>(sc: ScenarioModel<N>) -> bool {
    forall|i: int|
        0 <= i < sc.vehicles.len() ==> (#[trigger] sc.vehicles[i]).arrival_slot
            < sc.vehicles[i].departure_slot
}

pub(crate) proof fn lemma_left_later<N>(sc: ScenarioModel<N>, id: u32, a: int, b: int)
    requires
        has_left(sc, id, a),
        a <= b,
    ensures
        has_left(sc, id, b),
{
    let j = choose|j: int|
        0 <= j < sc.vehicles.len() && (#[trigger] sc.vehicles[j]).vehicle_id == id
            && sc.vehicles[j].departure_slot <= a;
    assert(sc.vehicles[j].departure_slot <= b);
}

proof fn lemma_depart_row<N: Num>(sc: ScenarioModel<N>, st: SiteModel<N>, slot: int, i: int)
    requires
        is_sound(sc, st, slot, slot),
        0 <= i < sc.vehicles.len(),
    ensures
        is_sound(sc, depart_row(sc, st, slot, i), slot, slot),
        depart_row(sc, st, slot, i).active[i] is Some ==> sc.vehicles[i].departure_slot > slot,
        forall|j: int|
            0 <= j < sc.vehicles.len() && j != i ==> #[trigger] depart_row(sc, st, slot, i).active[j]
                == st.active[j],
{
    let next = depart_row(sc, st, slot, i);
    assert(is_plugged(sc, st, i));
    if sc.vehicles[i].departure_slot == slot && report(sc, st, i) is Some {
        assert forall|j: int| 0 <= j < sc.vehicles.len() implies #[trigger] is_plugged(sc, next, j) by {
            assert(is_plugged(sc, st, j));
            if j != i && st.active[j] is Some && st.active[i] is Some {
                assert(st.active[i]->0.charger_index != st.active[j]->0.charger_index);
            }
        }
        assert(ports_are_exclusive(next)) by {
            assert forall|a: int, b: int|
                #![trigger next.active[a], next.active[b]]
                0 <= a < next.active.len() && 0 <= b < next.active.len() && a != b && next.active[a] is Some
                    && next.active[b] is Some implies next.active[a]->0.charger_index
                != next.active[b]->0.charger_index by {
                assert(next.active[a] == st.active[a]);
                assert(next.active[b] == st.active[b]);
            }
        }
        assert forall|id: u32| #[trigger] next.chain.dom().contains(id) implies has_left(sc, id, slot) by {
            if id == sc.vehicles[i].vehicle_id {
                assert(sc.vehicles[i].departure_slot <= slot);
            } else {
                assert(st.chain.dom().contains(id));
            }
        }
    }
}

pub(crate) proof fn lemma_depart<N: Num>(sc: ScenarioModel<N>, st: SiteModel<N>, slot: int, n: nat)
    requires
        is_sound(sc, st, slot, slot),
        n <= sc.vehicles.len(),
    ensures
        is_sound(sc, depart(sc, st, slot, n), slot, slot),
        forall|i: int|
            0 <= i < n && (#[trigger] depart(sc, st, slot, n).active[i]) is Some
                ==> sc.vehicles[i].departure_slot > slot,
        n == sc.vehicles.len() ==> is_sound(sc, depart(sc, st, slot, n), slot + 1, slot),
    decreases n,
{
    if n > 0 {
        lemma_depart(sc, st, slot, (n - 1) as nat);
        lemma_depart_row(sc, depart(sc, st, slot, (n - 1) as nat), slot, n - 1);
    }
}

pub(crate) proof fn lemma_arrive<N: Num>(
    sc: ScenarioModel<N>,
    st: SiteModel<N>,
    slot: int,
    order: Seq<usize>,
    from: int,
    past: int,
)
    requires
        is_sound(sc, st, from, past),
        forall|k: int| 0 <= k < order.len() ==> #[trigger] order[k] < sc.vehicles.len(),
    ensures
        is_sound(sc, arrive(sc, st, slot, order), from, past),
        arrive(sc, st, slot, order).active == st.active,
        arrive(sc, st, slot, order).chain == st.chain,
        arrive(sc, st, slot, order).free == st.free,
    decreases order.len(),
{
    if order.len() > 0 {
        let rest = order.drop_last();
        assert forall|k: int| 0 <= k < rest.len() implies #[trigger] rest[k] < sc.vehicles.len() by {
            assert(rest[k] == order[k]);
        }
        lemma_arrive(sc, st, slot, rest, from, past);
        let prev = arrive(sc, st, slot, rest);
        let next = arrive(sc, st, slot, order);
        assert(order[order.len() - 1] < sc.vehicles.len());
        assert(next.active == prev.active && next.free == prev.free && next.chain == prev.chain);
        assert forall|j: int| 0 <= j < sc.vehicles.len() implies #[trigger] is_plugged(sc, next, j) by {
            assert(is_plugged(sc, prev, j));
        }
    }
}

/// A picked port exists and is vacant.
pub(crate) proof fn lemma_first_vacant<N: Num>(
    chargers: Seq<Charger<N>>,
    free: Seq<bool>,
    any: bool,
    n: nat,
)
    requires
        n <= free.len(),
        n <= chargers.len(),
    ensures
        match first_vacant(chargers, free, any, n) {
            Some(c) => 0 <= c < n && free[c] && (any || chargers[c].bidirectional) && forall|d: int|
                0 <= d < c ==> !(#[trigger] free[d] && (any || chargers[d].bidirectional)),
            None => forall|d: int|
                0 <= d < n ==> !(#[trigger] free[d] && (any || chargers[d].bidirectional)),
        },
    decreases n,
{
    if n > 0 {
        lemma_first_vacant(chargers, free, any, (n - 1) as nat);
    }
}

proof fn lemma_assign_row<N: Num>(sc: ScenarioModel<N>, st: SiteModel<N>, slot: int, i: int)
    requires
        is_sound(sc, st, slot + 1, slot),
        sessions_run_forward(sc),
        0 <= i < sc.vehicles.len(),
        sc.vehicles.len() <= usize::MAX,
        sc.chargers.len() <= usize::MAX,
    ensures
        is_sound(sc, assign_row(sc, st, slot, i), slot + 1, slot),
{
    let next = assign_row(sc, st, slot, i);
    lemma_first_vacant(sc.chargers, st.free, false, sc.chargers.len());
    lemma_first_vacant(sc.chargers, st.free, true, sc.chargers.len());
    assert forall|j: int| 0 <= j < sc.vehicles.len() implies #[trigger] is_plugged(sc, next, j) by {
        assert(is_plugged(sc, st, j));
    }
    assert(ports_are_exclusive(next)) by {
        assert forall|a: int, b: int|
            #![trigger next.active[a], next.active[b]]
            0 <= a < next.active.len() && 0 <= b < next.active.len() && a != b && next.active[a] is Some
                && next.active[b] is Some implies next.active[a]->0.charger_index
            != next.active[b]->0.charger_index by {
            assert(is_plugged(sc, st, a));
            assert(is_plugged(sc, st, b));
            if a != i {
                assert(next.active[a] == st.active[a]);
            }
            if b != i {
                assert(next.active[b] == st.active[b]);
            }
        }
    }
    assert forall|j: int| 0 <= j < sc.vehicles.len() && (#[trigger] next.active[j]) is Some implies sc.vehicles[j].departure_slot
        >= slot + 1 by {
        if j != i {
            assert(next.active[j] == st.active[j]);
        } else {
            assert(sc.vehicles[i].arrival_slot < sc.vehicles[i].departure_slot);
            assert(st.active[j] is Some || sc.vehicles[i].arrival_slot == slot);
        }
    }
}

pub(crate) proof fn lemma_assign<N: Num>(
    sc: ScenarioModel<N>,
    st: SiteModel<N>,
    slot: int,
    order: Seq<usize>,
)
    requires
        is_sound(sc, st, slot + 1, slot),
        sessions_run_forward(sc),
        sc.vehicles.len() <= usize::MAX,
        sc.chargers.len() <= usize::MAX,
        forall|k: int| 0 <= k < order.len() ==> #[trigger] order[k] < sc.vehicles.len(),
    ensures
        is_sound(sc, assign(sc, st, slot, order), slot + 1, slot),
    decreases order.len(),
{
    if order.len() > 0 {
        let rest = order.drop_last();
        assert forall|k: int| 0 <= k < rest.len() implies #[trigger] rest[k] < sc.vehicles.len() by {
            assert(rest[k] == order[k]);
        }
        assert(order[order.len() - 1] < sc.vehicles.len());
        lemma_assign(sc, st, slot, rest);
        lemma_assign_row(sc, assign(sc, st, slot, rest), slot, order.last() as int);
    }
}

/// The arrival order holds every row once.
pub(crate) proof fn lemma_arrival_order<N>(sc: ScenarioModel<N>)
    requires
        sc.vehicles.len() <= usize::MAX,
    ensures
        arrival_order(sc.vehicles).len() == sc.vehicles.len(),
        arrival_order(sc.vehicles).no_duplicates(),
        forall|k: int|
            0 <= k < sc.vehicles.len() ==> #[trigger] arrival_order(sc.vehicles)[k] < sc.vehicles.len(),
        forall|i: usize| #[trigger] arrival_order(sc.vehicles).contains(i) <==> i < sc.vehicles.len(),
{
    let keys = Seq::new(sc.vehicles.len(), |i: int| arrival_rank(sc.vehicles[i]));
    stable_order_is_arrangement(keys, keys.len());
}

pub(crate) proof fn lemma_boarded<N: Num>(sc: ScenarioModel<N>, st: SiteModel<N>, slot: int)
    requires
        is_sound(sc, st, slot, slot),
        sessions_run_forward(sc),
        sc.vehicles.len() <= usize::MAX,
        sc.chargers.len() <= usize::MAX,
    ensures
        is_sound(sc, boarded(sc, st, slot), slot + 1, slot),
{
    let order = arrival_order(sc.vehicles);
    lemma_arrival_order(sc);
    lemma_depart(sc, st, slot, sc.vehicles.len());
    let left = depart(sc, st, slot, sc.vehicles.len());
    lemma_arrive(sc, left, slot, order, slot + 1, slot);
    lemma_assign(sc, arrive(sc, left, slot, order), slot, order);
}

/// The shown rows are plugged in, each row at most once.
pub(crate) proof fn lemma_connected<N: Num>(active: Seq<Option<Session<N>>>, order: Seq<usize>)
    ensures
        connected(active, order).len() <= order.len(),
        forall|k: int|
            0 <= k < connected(active, order).len() ==> order.contains(
                #[trigger] connected(active, order)[k],
            ) && active[connected(active, order)[k] as int] is Some,
        forall|x: usize|
            order.contains(x) && active[x as int] is Some ==> #[trigger] connected(
                active,
                order,
            ).contains(x),
        order.no_duplicates() ==> connected(active, order).no_duplicates(),
    decreases order.len(),
{
    if order.len() > 0 {
        let rest = order.drop_last();
        lemma_connected(active, rest);
        let prev = connected(active, rest);
        let next = connected(active, order);
        let last = order.last();
        assert(order[order.len() - 1] == last);
        assert forall|x: usize| rest.contains(x) implies order.contains(x) by {
            let j = choose|j: int| 0 <= j < rest.len() && rest[j] == x;
            assert(order[j] == x);
        }
        assert forall|k: int| 0 <= k < next.len() implies order.contains(#[trigger] next[k])
            && active[next[k] as int] is Some by {
            if k < prev.len() {
                assert(next[k] == prev[k]);
            }
        }
        assert forall|x: usize| order.contains(x) && active[x as int] is Some implies #[trigger] next.contains(
            x,
        ) by {
            let j = choose|j: int| 0 <= j < order.len() && order[j] == x;
            if j < rest.len() {
                assert(rest[j] == x);
                assert(prev.contains(x));
                let k = choose|k: int| 0 <= k < prev.len() && prev[k] == x;
                assert(next[k] == x);
            } else {
                assert(next[prev.len() as int] == x);
            }
        }
        if order.no_duplicates() {
            assert(rest.no_duplicates());
            assert forall|a: int, b: int| 0 <= a < next.len() && 0 <= b < next.len() && a != b implies next[a]
                != next[b] by {
                if a < prev.len() && b < prev.len() {
                    assert(prev[a] != prev[b]);
                } else {
                    let k = if a < prev.len() { a } else { b };
                    assert(rest.contains(prev[k]));
                    let j = choose|j: int| 0 <= j < rest.len() && rest[j] == prev[k];
                    assert(order[j] != order[order.len() - 1]);
                }
            }
        }
    }
}

/// The shown rows of a sound site.
pub(crate) proof fn lemma_shown<N: Num>(sc: ScenarioModel<N>, st: SiteModel<N>)
    requires
        sc.vehicles.len() <= usize::MAX,
    ensures
        shown_rows(sc, st).len() <= sc.vehicles.len(),
        shown_rows(sc, st).no_duplicates(),
        forall|k: int|
            0 <= k < shown_rows(sc, st).len() ==> (#[trigger] shown_rows(sc, st)[k]) < sc.vehicles.len()
                && st.active[shown_rows(sc, st)[k] as int] is Some,
        forall|x: usize|
            x < sc.vehicles.len() && st.active[x as int] is Some ==> #[trigger] shown_rows(
                sc,
                st,
            ).contains(x),
{
    let order = arrival_order(sc.vehicles);
    lemma_arrival_order(sc);
    lemma_connected(st.active, order);
    assert forall|k: int| 0 <= k < shown_rows(sc, st).len() implies (#[trigger] shown_rows(sc, st)[k])
        < sc.vehicles.len() && st.active[shown_rows(sc, st)[k] as int] is Some by {
        assert(order.contains(shown_rows(sc, st)[k]));
    }
}

/// The policy is shown a well-formed observation.
pub(crate) proof fn lemma_observation<N: Num>(sc: ScenarioModel<N>, st: SiteModel<N>, slot: int)
    requires
        is_sound(sc, st, slot + 1, slot),
        sc.vehicles.len() <= usize::MAX,
        0 <= slot < sc.building.len(),
        sc.building.len() <= usize::MAX,
        sc.price.len() == sc.building.len(),
        sc.tou.len() == sc.building.len(),
    ensures
        observation(sc, st, slot).well_formed(),
{
    lemma_shown(sc, st);
    let obs = observation(sc, st, slot);
    let rows = shown_rows(sc, st);
    assert forall|i: int| 0 <= i < obs.sessions.len() implies (#[trigger] obs.sessions[i]).index == i
        && obs.sessions[i].vehicle.departure_slot > obs.slot by {
        assert(obs.sessions[i] == session_view(sc, st, i, rows[i] as int));
        assert(rows[i] < sc.vehicles.len());
        assert(st.active[rows[i] as int] is Some);
    }
}

/// `b` has the sessions of `a` on the same ports.
pub open spec fn same_places<N>(a: Seq<Option<Session<N>>>, b: Seq<Option<Session<N>>>) -> bool {
    &&& a.len() == b.len()
    &&& forall|i: int|
        #![trigger a[i]]
        #![trigger b[i]]
        0 <= i < a.len() ==> match (a[i], b[i]) {
            (Some(s), Some(t)) => s.vehicle_index == t.vehicle_index && s.charger_index
                == t.charger_index && s.soc_arrival_kwh == t.soc_arrival_kwh,
            (None, None) => true,
            _ => false,
        }
}

/// The requests are for shown sessions.
pub open spec fn are_for_shown<N: Num>(requests: Seq<Setpoint<N>>, n: nat) -> bool {
    forall|k: int|
        0 <= k < requests.len() ==> (#[trigger] requests[k]).session_index < n
            && requests[k].power_kw.finite()
}

pub(crate) proof fn lemma_without<N: Num>(list: Seq<Setpoint<N>>, index: usize)
    ensures
        forall|k: int|
            0 <= k < without(list, index).len() ==> list.contains(#[trigger] without(list, index)[k])
                && without(list, index)[k].session_index != index,
        without(list, index).len() <= list.len(),
    decreases list.len(),
{
    if list.len() > 0 {
        let rest = list.drop_last();
        lemma_without(rest, index);
        let next = without(list, index);
        assert forall|k: int| 0 <= k < next.len() implies list.contains(#[trigger] next[k])
            && next[k].session_index != index by {
            let prev = without(rest, index);
            if k < prev.len() {
                assert(next[k] == prev[k]);
                let j = choose|j: int| 0 <= j < rest.len() && rest[j] == prev[k];
                assert(list[j] == next[k]);
            } else {
                assert(list[list.len() - 1] == next[k]);
            }
        }
    }
}

pub(crate) proof fn lemma_requested<N: Num>(out: Seq<Setpoint<N>>, n: nat)
    ensures
        are_for_shown(requested(out, n), n),
        requested(out, n).len() <= out.len(),
    decreases out.len(),
{
    if out.len() > 0 {
        lemma_requested(out.drop_last(), n);
        let prev = requested(out.drop_last(), n);
        let next = requested(out, n);
        lemma_without(prev, out.last().session_index);
        assert forall|k: int| 0 <= k < next.len() implies (#[trigger] next[k]).session_index < n
            && next[k].power_kw.finite() by {
            let w = without(prev, out.last().session_index);
            if next != prev && k < w.len() {
                assert(next[k] == w[k]);
                assert(prev.contains(w[k]));
            }
        }
    }
}

pub(crate) proof fn lemma_pass<N: Num>(
    sc: ScenarioModel<N>,
    rows: Seq<usize>,
    views: Seq<SessionView<N>>,
    start: Flow<N>,
    requests: Seq<Setpoint<N>>,
    charging: bool,
)
    requires
        are_for_shown(requests, rows.len()),
        start.applied.len() == rows.len(),
        forall|k: int|
            0 <= k < rows.len() ==> (#[trigger] rows[k]) < start.active.len()
                && start.active[rows[k] as int] is Some,
    ensures
        same_places(start.active, pass(sc, rows, views, start, requests, charging).active),
        pass(sc, rows, views, start, requests, charging).applied.len() == rows.len(),
    decreases requests.len(),
{
    if requests.len() > 0 {
        let rest = requests.drop_last();
        assert(are_for_shown(rest, rows.len())) by {
            assert forall|k: int| 0 <= k < rest.len() implies (#[trigger] rest[k]).session_index < rows.len()
                && rest[k].power_kw.finite() by {
                assert(rest[k] == requests[k]);
            }
        }
        lemma_pass(sc, rows, views, start, rest, charging);
        let flow = pass(sc, rows, views, start, rest, charging);
        let sp = requests.last();
        assert(requests[requests.len() - 1].session_index < rows.len());
        let row = rows[sp.session_index as int] as int;
        assert(start.active[row] is Some);
        assert(flow.active[row] is Some);
        if in_pass(sp, charging) {
            let next = apply_request(sc, rows, views, flow, sp, charging);
            assert forall|i: int|
                #![trigger start.active[i]]
                #![trigger next.active[i]]
                0 <= i < start.active.len() implies match (start.active[i], next.active[i]) {
                (Some(s), Some(t)) => s.vehicle_index == t.vehicle_index && s.charger_index
                    == t.charger_index && s.soc_arrival_kwh == t.soc_arrival_kwh,
                (None, None) => true,
                _ => false,
            } by {
                assert(match (start.active[i], flow.active[i]) {
                    (Some(s), Some(t)) => s.vehicle_index == t.vehicle_index && s.charger_index
                        == t.charger_index && s.soc_arrival_kwh == t.soc_arrival_kwh,
                    (None, None) => true,
                    _ => false,
                });
            }
        }
    }
}

/// A slot keeps every session on its port.
pub(crate) proof fn lemma_dispatched<N: Num>(
    sc: ScenarioModel<N>,
    st: SiteModel<N>,
    slot: int,
    out: Seq<Setpoint<N>>,
    from: int,
    past: int,
)
    requires
        is_sound(sc, st, from, past),
        sc.vehicles.len() <= usize::MAX,
    ensures
        is_sound(sc, dispatched(sc, st, slot, out), from, past),
        same_places(st.active, charged(sc, st, slot, out).active),
        same_places(st.active, discharged(sc, st, slot, out).active),
        charged(sc, st, slot, out).applied.len() == shown_rows(sc, st).len(),
        discharged(sc, st, slot, out).applied.len() == shown_rows(sc, st).len(),
{
    let rows = shown_rows(sc, st);
    let views = session_views(sc, st);
    lemma_shown(sc, st);
    lemma_requested(out, rows.len());
    let requests = requested(out, rows.len());
    lemma_pass(sc, rows, views, charge_start(sc, st, slot), requests, true);
    let up = charged(sc, st, slot, out);
    let start = Flow {
        total: crate::num::zero_of(),
        allowance: sc.building[slot].plus(up.total),
        ..up
    };
    assert forall|k: int| 0 <= k < rows.len() implies (#[trigger] rows[k]) < start.active.len()
        && start.active[rows[k] as int] is Some by {
        assert(st.active[rows[k] as int] is Some);
    }
    lemma_pass(sc, rows, views, start, requests, false);
    let down = discharged(sc, st, slot, out);
    let next = dispatched(sc, st, slot, out);
    assert(next.active == down.active);
    assert forall|i: int| #![trigger st.active[i]] #![trigger down.active[i]] 0 <= i < st.active.len() implies match (
        st.active[i],
        down.active[i],
    ) {
        (Some(s), Some(t)) => s.vehicle_index == t.vehicle_index && s.charger_index == t.charger_index
            && s.soc_arrival_kwh == t.soc_arrival_kwh,
        (None, None) => true,
        _ => false,
    } by {
        assert(match (st.active[i], up.active[i]) {
            (Some(s), Some(t)) => s.vehicle_index == t.vehicle_index && s.charger_index
                == t.charger_index && s.soc_arrival_kwh == t.soc_arrival_kwh,
            (None, None) => true,
            _ => false,
        });
    }
    assert forall|j: int| 0 <= j < sc.vehicles.len() implies #[trigger] is_plugged(sc, next, j) by {
        assert(is_plugged(sc, st, j));
        assert(st.active[j] is Some == next.active[j] is Some);
    }
    assert forall|i: int| 0 <= i < sc.vehicles.len() && (#[trigger] next.active[i]) is Some implies sc.vehicles[i].departure_slot
        >= from by {
        assert(st.active[i] is Some);
    }
}

/// Departures processed below `from` are processed below any earlier slot.
pub(crate) proof fn lemma_sound_later<N: Num>(sc: ScenarioModel<N>, st: SiteModel<N>, from: int, past: int)
    requires
        is_sound(sc, st, from, past),
    ensures
        is_sound(sc, st, from, past + 1),
{
    assert forall|id: u32| #[trigger] st.chain.dom().contains(id) implies has_left(sc, id, past + 1) by {
        lemma_left_later(sc, id, past, past + 1);
    }
}

/// Before every slot the site is in order: each plugged-in session has an
/// occupied port of its own and has not departed.
pub proof fn the_site_is_sound_in_every_slot<N: Num>(
    sc: ScenarioModel<N>,
    decisions: Seq<Seq<Setpoint<N>>>,
    t: nat,
)
    requires
        sessions_run_forward(sc),
        sc.vehicles.len() <= usize::MAX,
        sc.chargers.len() <= usize::MAX,
    ensures
        is_sound(sc, site_at(sc, decisions, t), t as int, t - 1),
        is_sound(sc, site_at(sc, decisions, t), t as int, t as int),
        is_sound(sc, boarded(sc, site_at(sc, decisions, t), t as int), (t + 1) as int, t as int),
    decreases t,
{
    if t == 0 {
        let st = opening(sc);
        assert forall|j: int| 0 <= j < sc.vehicles.len() implies #[trigger] is_plugged(sc, st, j) by {}
    } else {
        the_site_is_sound_in_every_slot(sc, decisions, (t - 1) as nat);
        let st = boarded(sc, site_at(sc, decisions, (t - 1) as nat), t - 1);
        lemma_dispatched(sc, st, t - 1, decisions[t - 1], t as int, t - 1);
    }
    lemma_sound_later(sc, site_at(sc, decisions, t), t as int, t - 1);
    lemma_boarded(sc, site_at(sc, decisions, t), t as int);
}

} // verus!
