//! The books of a whole run: every report balances, and the energy that the
//! meter saw is the building's plus what the reported sessions drew, less what
//! they exported.

use vstd::prelude::*;

use crate::engine::{SessionResult, SlotRecord};
use crate::fixed::Fixed;
use crate::flows::{
    batteries_stay_in_range_and_energy_is_conserved, every_record_is_lawful, every_slot_is_recorded_once, is_lawful_record, is_near,
    lemma_boarding_keeps_records, lemma_slot_flows, lemma_slots, lemma_standing_update, standing,
};
use crate::num::{zero_of, Num};
use crate::order::{inserted, ordered_upto, stable_order, stable_order_is_arrangement, Ranked};
use crate::persistence::{is_previous, reports_form_chains, reports_right};
use crate::physics::{
    are_sound_reports, is_lawful, is_moderate, is_ready, is_sound_report, is_usable, lemma_ready, lemma_report,
    slot_energy,
};
use crate::reporting::{
    departures_are_reported_in_turn, every_session_is_reported_exactly_once, is_on_row, is_present, lemma_swept_few,
    reported_rows,
};
use crate::rounding::{
    fits, fixed_numbers_round_toward_zero, fixed_value, lemma_closer_fits, lemma_compare, lemma_constants,
    lemma_finite, lemma_fixed_fits, lemma_minus, millionth, rounds_toward_zero,
};
use crate::scenario::ScenarioModel;
use crate::site::{
    arrival_order, arrive, assign, boarded, depart, opening, pick_port, report, result_rank, results_of, site_at,
    sorted_results, swept, SiteModel,
};
use crate::soundness::{
    is_shaped, is_sound, lemma_arrival_order, sessions_run_forward, the_site_is_sound_in_every_slot,
};
use crate::state::{Session, Setpoint};
use crate::validation::{is_valid, session_is_valid};

verus! {

// -------------------------------------------------------------------- sums

/// What the reported sessions drew, kWh.
pub open spec fn drawn<N: Num>(value: spec_fn(N) -> real, list: Seq<SessionResult<N>>) -> real
    decreases list.len(),
{
    if list.len() == 0 {
        0real
    } else {
        drawn(value, list.drop_last()) + value(list.last().energy_drawn_kwh)
    }
}

/// What the reported sessions exported to the building, kWh.
pub open spec fn exported<N: Num>(value: spec_fn(N) -> real, list: Seq<SessionResult<N>>) -> real
    decreases list.len(),
{
    if list.len() == 0 {
        0real
    } else {
        exported(value, list.drop_last()) + value(list.last().energy_exported_kwh)
    }
}

/// What the meter counted over slots of `dt` minutes, kWh.
pub open spec fn metered<N: Num>(value: spec_fn(N) -> real, dt: real, slots: Seq<SlotRecord<N>>) -> real
    decreases slots.len(),
{
    if slots.len() == 0 {
        0real
    } else {
        metered(value, dt, slots.drop_last()) + value(slots.last().net_kw) * dt / 60real
    }
}

/// What the building alone used over slots of `dt` minutes, kWh.
pub open spec fn inflexible<N: Num>(value: spec_fn(N) -> real, dt: real, slots: Seq<SlotRecord<N>>) -> real
    decreases slots.len(),
{
    if slots.len() == 0 {
        0real
    } else {
        inflexible(value, dt, slots.drop_last()) + value(slots.last().building_kw) * dt / 60real
    }
}

/// What all sessions so far drew less what they exported, kWh.
spec fn books<N: Num>(value: spec_fn(N) -> real, st: SiteModel<N>) -> real {
    standing(value, st.active) + drawn(value, st.results) - exported(value, st.results)
}

proof fn lemma_nobody<N: Num>(value: spec_fn(N) -> real, active: Seq<Option<Session<N>>>)
    requires
        forall|i: int| 0 <= i < active.len() ==> (#[trigger] active[i]) is None,
    ensures
        standing(value, active) == 0real,
    decreases active.len(),
{
    if active.len() > 0 {
        let rest = active.drop_last();
        assert forall|i: int| 0 <= i < rest.len() implies (#[trigger] rest[i]) is None by {
            assert(rest[i] == active[i]);
        }
        lemma_nobody(value, rest);
        assert(active[active.len() - 1] is None);
    }
}

// ---------------------------------------------------------- the steps of a slot

proof fn lemma_departures_balance<N: Num>(
    value: spec_fn(N) -> real,
    unit: real,
    sc: ScenarioModel<N>,
    st: SiteModel<N>,
    slot: int,
    n: nat,
)
    requires
        rounds_toward_zero(value, unit),
        st.active.len() == sc.vehicles.len(),
        n <= sc.vehicles.len(),
    ensures
        ({
            let next = depart(sc, st, slot, n);
            &&& books(value, next) == books(value, st)
            &&& next.active.len() == sc.vehicles.len()
            &&& forall|i: int|
                0 <= i < sc.vehicles.len() ==> #[trigger] next.active[i] is None || next.active[i]
                    == st.active[i]
        }),
    decreases n,
{
    lemma_constants(value, unit);
    if n > 0 {
        let m = (n - 1) as nat;
        lemma_departures_balance(value, unit, sc, st, slot, m);
        let here = depart(sc, st, slot, m);
        let next = depart(sc, st, slot, n);
        if sc.vehicles[m as int].departure_slot == slot {
            match report(sc, here, m as int) {
                Some(r) => {
                    lemma_standing_update(value, here.active, m as int, None);
                    assert(next.results.drop_last() =~= here.results);
                    assert(next.results.last() == r);
                },
                None => {},
            }
        }
        assert forall|i: int| 0 <= i < sc.vehicles.len() implies #[trigger] next.active[i] is None
            || next.active[i] == st.active[i] by {
            assert(here.active[i] is None || here.active[i] == st.active[i]);
        }
    }
}

proof fn lemma_arrivals_balance<N: Num>(sc: ScenarioModel<N>, st: SiteModel<N>, slot: int, order: Seq<usize>)
    ensures
        arrive(sc, st, slot, order).active == st.active,
        arrive(sc, st, slot, order).results == st.results,
    decreases order.len(),
{
    if order.len() > 0 {
        lemma_arrivals_balance(sc, st, slot, order.drop_last());
    }
}

proof fn lemma_assignments_balance<N: Num>(
    value: spec_fn(N) -> real,
    unit: real,
    sc: ScenarioModel<N>,
    st: SiteModel<N>,
    slot: int,
    order: Seq<usize>,
)
    requires
        rounds_toward_zero(value, unit),
        st.active.len() == sc.vehicles.len(),
        order.no_duplicates(),
        forall|k: int| 0 <= k < order.len() ==> #[trigger] order[k] < sc.vehicles.len(),
        forall|i: int|
            #![trigger st.active[i]]
            0 <= i < sc.vehicles.len() && sc.vehicles[i].arrival_slot == slot ==> st.active[i] is None,
    ensures
        ({
            let next = assign(sc, st, slot, order);
            &&& books(value, next) == books(value, st)
            &&& next.active.len() == sc.vehicles.len()
            &&& forall|i: int|
                0 <= i < sc.vehicles.len() && !order.contains(i as usize) ==> #[trigger] next.active[i]
                    == st.active[i]
        }),
    decreases order.len(),
{
    lemma_constants(value, unit);
    if order.len() > 0 {
        let rest = order.drop_last();
        assert forall|k: int| 0 <= k < rest.len() implies #[trigger] rest[k] < sc.vehicles.len() by {
            assert(rest[k] == order[k]);
        }
        assert(rest.no_duplicates());
        lemma_assignments_balance(value, unit, sc, st, slot, rest);
        let here = assign(sc, st, slot, rest);
        let next = assign(sc, st, slot, order);
        let last = order[order.len() - 1];
        let row = last as int;
        assert(last < sc.vehicles.len());
        assert(!rest.contains(last)) by {
            if rest.contains(last) {
                let k = choose|k: int| 0 <= k < rest.len() && rest[k] == last;
                assert(order[k] != order[order.len() - 1]);
            }
        }
        assert(here.active[row] == st.active[row]);
        if sc.vehicles[row].arrival_slot == slot {
            match pick_port(sc.chargers, here.free) {
                Some(c) => {
                    lemma_standing_update(value, here.active, row, next.active[row]);
                },
                None => {},
            }
        }
        assert forall|i: int| 0 <= i < sc.vehicles.len() && !order.contains(i as usize) implies #[trigger] next.active[i]
            == st.active[i] by {
            if rest.contains(i as usize) {
                let k = choose|k: int| 0 <= k < rest.len() && rest[k] == i as usize;
                assert(order[k] == i as usize);
            }
            assert(i != row);
            assert(here.active[i] == st.active[i]);
        }
    }
}

// ------------------------------------------------------------------ the run

/// At every moment of a run the books of the sessions add up to what the meter
/// counted above the building's own use, up to four units for each session and
/// slot.
proof fn lemma_books<N: Num>(
    value: spec_fn(N) -> real,
    unit: real,
    sc: ScenarioModel<N>,
    m: real,
    decisions: Seq<Seq<Setpoint<N>>>,
    t: nat,
)
    requires
        rounds_toward_zero(value, unit),
        is_valid(sc),
        is_moderate(value, sc, m),
        sc.vehicles.len() <= usize::MAX,
        sc.chargers.len() <= usize::MAX,
        t <= sc.rules.horizon_slots,
        t <= sc.building.len(),
    ensures
        ({
            let st = site_at(sc, decisions, t);
            let dt = value(sc.rules.slot_minutes);
            is_near(
                books(value, st),
                metered(value, dt, st.slots) - inflexible(value, dt, st.slots),
                t as real * (sc.vehicles.len() as real * (4real * unit)),
            )
        }),
    decreases t,
{
    lemma_ready(value, unit, sc, m);
    let dt = value(sc.rules.slot_minutes);
    let slack = sc.vehicles.len() as real * (4real * unit);
    if t == 0 {
        lemma_nobody(value, opening(sc).active);
        lemma_slots(0, slack);
    } else {
        let p = (t - 1) as nat;
        let slot = p as int;
        lemma_slots(p, slack);
        lemma_books(value, unit, sc, m, decisions, p);
        the_site_is_sound_in_every_slot(sc, decisions, p);
        batteries_stay_in_range_and_energy_is_conserved(value, unit, sc, m, decisions, p);
        departures_are_reported_in_turn(sc, decisions, p);
        lemma_arrival_order(sc);
        let order = arrival_order(sc.vehicles);
        let before = site_at(sc, decisions, p);
        let left = depart(sc, before, slot, sc.vehicles.len());
        let here = arrive(sc, left, slot, order);
        let st = boarded(sc, before, slot);
        lemma_departures_balance(value, unit, sc, before, slot, sc.vehicles.len());
        lemma_arrivals_balance(sc, left, slot, order);
        assert forall|i: int|
            #![trigger here.active[i]]
            0 <= i < sc.vehicles.len() && sc.vehicles[i].arrival_slot == slot implies here.active[i] is None by {
            assert(left.active[i] is None || left.active[i] == before.active[i]);
            assert(is_present(before, i) <==> sc.vehicles[i].arrival_slot < p
                <= sc.vehicles[i].departure_slot);
        }
        lemma_assignments_balance(value, unit, sc, here, slot, order);
        lemma_boarding_keeps_records(sc, before, slot);
        lemma_slot_flows(value, unit, sc, m, st, slot, decisions[slot]);
        let next = site_at(sc, decisions, t);
        assert(next.slots.drop_last() =~= before.slots);
        let rec = next.slots.last();
        let a = value(rec.net_kw);
        let b = value(rec.building_kw);
        assert((a - b) * dt / 60real == a * dt / 60real - b * dt / 60real) by (nonlinear_arith);
    }
}

proof fn lemma_sweep_balance<N: Num>(
    value: spec_fn(N) -> real,
    unit: real,
    sc: ScenarioModel<N>,
    st: SiteModel<N>,
    n: nat,
)
    requires
        rounds_toward_zero(value, unit),
        is_shaped(sc, st),
        n <= sc.vehicles.len(),
    ensures
        drawn(value, swept(sc, st, n)) - exported(value, swept(sc, st, n)) == drawn(value, st.results)
            - exported(value, st.results) + standing(value, st.active.take(n as int)),
    decreases n,
{
    lemma_constants(value, unit);
    if n > 0 {
        let m = (n - 1) as nat;
        lemma_sweep_balance(value, unit, sc, st, m);
        let here = swept(sc, st, m);
        let next = swept(sc, st, n);
        assert(st.active.take(n as int).drop_last() =~= st.active.take(m as int));
        assert(st.active.take(n as int).last() == st.active[m as int]);
        match report(sc, st, m as int) {
            Some(r) => {
                assert(next.drop_last() =~= here);
            },
            None => {},
        }
    } else {
        assert(st.active.take(0) =~= Seq::empty());
    }
}

/// The rows of `list` named by `order`, in that order.
spec fn picked<N>(list: Seq<SessionResult<N>>, order: Seq<usize>) -> Seq<SessionResult<N>> {
    Seq::new(order.len(), |i: int| list[order[i] as int])
}

proof fn lemma_inserted_sum<N: Num, K: Ranked>(
    value: spec_fn(N) -> real,
    list: Seq<SessionResult<N>>,
    keys: Seq<K>,
    order: Seq<usize>,
    x: usize,
)
    ensures
        drawn(value, picked(list, inserted(keys, order, x))) == drawn(value, picked(list, order)) + value(
            list[x as int].energy_drawn_kwh,
        ),
        exported(value, picked(list, inserted(keys, order, x))) == exported(value, picked(list, order))
            + value(list[x as int].energy_exported_kwh),
    decreases order.len(),
{
    let out = inserted(keys, order, x);
    if order.len() == 0 || !keys[x as int].ahead(&keys[order.last() as int]) {
        assert(picked(list, out).drop_last() =~= picked(list, order));
    } else {
        let rest = order.drop_last();
        lemma_inserted_sum(value, list, keys, rest, x);
        assert(picked(list, out).drop_last() =~= picked(list, inserted(keys, rest, x)));
        assert(picked(list, order).drop_last() =~= picked(list, rest));
        assert(picked(list, out).last() == picked(list, order).last());
    }
}

/// Putting reports in order does not change their sums.
proof fn lemma_ordered_sum<N: Num, K: Ranked>(
    value: spec_fn(N) -> real,
    list: Seq<SessionResult<N>>,
    keys: Seq<K>,
    n: nat,
)
    requires
        n <= list.len(),
        n <= usize::MAX,
    ensures
        drawn(value, picked(list, ordered_upto(keys, n))) == drawn(value, list.take(n as int)),
        exported(value, picked(list, ordered_upto(keys, n))) == exported(value, list.take(n as int)),
    decreases n,
{
    if n > 0 {
        let m = (n - 1) as nat;
        lemma_ordered_sum(value, list, keys, m);
        lemma_inserted_sum(value, list, keys, ordered_upto(keys, m), m as usize);
        assert(list.take(n as int).drop_last() =~= list.take(m as int));
        assert(list.take(n as int).last() == list[m as int]);
    } else {
        assert(picked(list, ordered_upto(keys, 0)) =~= list.take(0));
    }
}

/// Site energy balance: over a whole run, what the meter counted is what the
/// building used plus what the reported sessions drew, less what they exported,
/// up to four units for each session and slot.
pub proof fn the_meter_balances<N: Num>(
    value: spec_fn(N) -> real,
    unit: real,
    sc: ScenarioModel<N>,
    m: real,
    decisions: Seq<Seq<Setpoint<N>>>,
)
    requires
        rounds_toward_zero(value, unit),
        is_valid(sc),
        is_moderate(value, sc, m),
        sc.vehicles.len() <= usize::MAX,
        sc.chargers.len() <= usize::MAX,
        sc.building.len() == sc.rules.horizon_slots,
    ensures
        ({
            let r = results_of(sc, decisions);
            let dt = value(sc.rules.slot_minutes);
            is_near(
                metered(value, dt, r.slots),
                inflexible(value, dt, r.slots) + drawn(value, r.sessions) - exported(value, r.sessions),
                sc.rules.horizon_slots as real * (sc.vehicles.len() as real * (4real * unit)),
            )
        }),
{
    let horizon = sc.rules.horizon_slots as nat;
    let end = site_at(sc, decisions, horizon);
    let n = sc.vehicles.len();
    lemma_ready(value, unit, sc, m);
    lemma_books(value, unit, sc, m, decisions, horizon);
    the_site_is_sound_in_every_slot(sc, decisions, horizon);
    lemma_sweep_balance(value, unit, sc, end, n);
    assert(end.active.take(n as int) =~= end.active);
    let list = swept(sc, end, n);
    lemma_swept_few(sc, decisions);
    let keys = Seq::new(list.len(), |i: int| result_rank(list[i]));
    lemma_ordered_sum(value, list, keys, list.len());
    stable_order_is_arrangement(keys, keys.len());
    assert(list.take(list.len() as int) =~= list);
    assert(sorted_results(list) =~= picked(list, stable_order(keys)));
}

proof fn lemma_sound_sweep<N: Num>(
    value: spec_fn(N) -> real,
    unit: real,
    sc: ScenarioModel<N>,
    m: real,
    st: SiteModel<N>,
    t: int,
    n: nat,
)
    requires
        rounds_toward_zero(value, unit),
        is_valid(sc),
        is_ready(value, sc),
        sessions_run_forward(sc),
        0real <= m,
        is_lawful(value, unit, sc, m, st, t),
        is_sound(sc, st, t, t),
        t == sc.rules.horizon_slots,
        n <= sc.vehicles.len(),
    ensures
        are_sound_reports(value, unit, sc, swept(sc, st, n)),
    decreases n,
{
    if n > 0 {
        let i = n - 1;
        lemma_sound_sweep(value, unit, sc, m, st, t, (n - 1) as nat);
        assert(session_is_valid(sc.vehicles[i], sc.rules.horizon_slots));
        lemma_report(value, unit, sc, m, st, t, i);
        let here = swept(sc, st, (n - 1) as nat);
        let next = swept(sc, st, n);
        assert forall|k: int| 0 <= k < next.len() implies is_sound_report(
            value,
            unit,
            sc,
            #[trigger] next[k],
        ) by {
            if k < here.len() {
                assert(next[k] == here[k]);
            }
        }
    }
}

/// Every report of a run over a valid scenario, whatever the policy answers:
/// arrival and departure SoC lie between floor and ceiling, and the battery
/// gained what was drawn times the charging efficiency, less what was exported
/// over the discharging efficiency, up to a unit for each slot of the stay.
pub proof fn every_report_balances<N: Num>(
    value: spec_fn(N) -> real,
    unit: real,
    sc: ScenarioModel<N>,
    m: real,
    decisions: Seq<Seq<Setpoint<N>>>,
)
    requires
        rounds_toward_zero(value, unit),
        is_valid(sc),
        is_moderate(value, sc, m),
        sc.vehicles.len() <= usize::MAX,
        sc.chargers.len() <= usize::MAX,
        sc.building.len() == sc.rules.horizon_slots,
    ensures
        are_sound_reports(value, unit, sc, results_of(sc, decisions).sessions),
{
    let horizon = sc.rules.horizon_slots as nat;
    let end = site_at(sc, decisions, horizon);
    lemma_ready(value, unit, sc, m);
    the_site_is_sound_in_every_slot(sc, decisions, horizon);
    batteries_stay_in_range_and_energy_is_conserved(value, unit, sc, m, decisions, horizon);
    lemma_sound_sweep(value, unit, sc, m, end, horizon as int, sc.vehicles.len());
    lemma_swept_few(sc, decisions);
    let list = swept(sc, end, sc.vehicles.len());
    let keys = Seq::new(list.len(), |i: int| result_rank(list[i]));
    stable_order_is_arrangement(keys, keys.len());
    let sorted = sorted_results(list);
    assert forall|k: int| 0 <= k < sorted.len() implies is_sound_report(
        value,
        unit,
        sc,
        #[trigger] sorted[k],
    ) by {
        assert(stable_order(keys)[k] < list.len());
        assert(sorted[k] == list[stable_order(keys)[k] as int]);
    }
}

// ------------------------------------------------------------------ banking

/// Reports `a` and `b` of a run are about two successive sessions of one vehicle, the
/// second of which starts with what the first left less the depletion, unclamped.
pub open spec fn is_carried_over<N: Num>(
    value: spec_fn(N) -> real,
    sc: ScenarioModel<N>,
    decisions: Seq<Seq<Setpoint<N>>>,
    a: int,
    b: int,
) -> bool {
    let list = results_of(sc, decisions).sessions;
    let rows = reported_rows(sc, decisions);
    let v = sc.vehicles[rows[b]];
    &&& 0 <= a < list.len()
    &&& 0 <= b < list.len()
    &&& is_previous(sc, rows[a], rows[b])
    &&& value(v.min_soc_kwh) <= value(list[a].soc_departure_kwh) - value(v.depletion_kwh) <= value(
        v.ceiling(),
    )
}

/// The slots of a reported stay.
pub open spec fn slots_of<N>(r: SessionResult<N>) -> real {
    (r.departure_slot - r.arrival_slot) as real
}

/// Without losses, what a session draws (less what it exports) is what it leaves with
/// plus the depletion, less what the vehicle's previous session left, up to a unit for
/// each slot of the stay.
pub proof fn the_next_draw_makes_up_the_difference<N: Num>(
    value: spec_fn(N) -> real,
    unit: real,
    sc: ScenarioModel<N>,
    m: real,
    decisions: Seq<Seq<Setpoint<N>>>,
    a: int,
    b: int,
)
    requires
        rounds_toward_zero(value, unit),
        is_valid(sc),
        is_moderate(value, sc, m),
        sc.vehicles.len() <= usize::MAX,
        sc.chargers.len() <= usize::MAX,
        sc.building.len() == sc.rules.horizon_slots,
        sc.rules.persistence,
        value(sc.rules.charge_efficiency) == 1real,
        value(sc.rules.discharge_efficiency) == 1real,
        is_carried_over(value, sc, decisions, a, b),
    ensures
        ({
            let list = results_of(sc, decisions).sessions;
            let v = sc.vehicles[reported_rows(sc, decisions)[b]];
            let next = list[b];
            is_near(
                value(next.energy_drawn_kwh) - value(next.energy_exported_kwh),
                value(next.soc_departure_kwh) + value(v.depletion_kwh) - value(list[a].soc_departure_kwh),
                slots_of(next) * unit,
            )
        }),
{
    lemma_ready(value, unit, sc, m);
    assert forall|i: int| 0 <= i < sc.vehicles.len() implies (#[trigger] sc.vehicles[i]).departure_slot
        <= sc.rules.horizon_slots by {
        assert(session_is_valid(sc.vehicles[i], sc.rules.horizon_slots));
    }
    reports_form_chains(sc, decisions);
    every_session_is_reported_exactly_once(sc, decisions);
    every_report_balances(value, unit, sc, m, decisions);
    let list = results_of(sc, decisions).sessions;
    let rows = reported_rows(sc, decisions);
    let before = list[a];
    let next = list[b];
    assert(reports_right(sc, decisions, before, rows[a]));
    assert(reports_right(sc, decisions, next, rows[b]));
    assert(is_on_row(next, sc, rows[b]));
    assert(is_sound_report(value, unit, sc, before));
    assert(is_sound_report(value, unit, sc, next));
    let v = sc.vehicles[rows[b]];
    assert(is_usable(value, sc, v));
    let raw = before.soc_departure_kwh.minus(v.depletion_kwh);
    lemma_finite(value, unit, v.min_soc_kwh);
    lemma_finite(value, unit, v.ceiling());
    lemma_closer_fits(
        value,
        value(before.soc_departure_kwh) - value(v.depletion_kwh),
        value(v.ceiling()),
    );
    lemma_minus(value, unit, before.soc_departure_kwh, v.depletion_kwh);
    lemma_finite(value, unit, raw);
    lemma_compare(value, unit, raw, v.min_soc_kwh);
    lemma_compare(value, unit, v.ceiling(), raw);
    assert(next.soc_arrival_kwh == raw);
    let x = value(next.energy_drawn_kwh);
    let y = value(next.energy_exported_kwh);
    assert(x * 1real == x && y / 1real == y) by (nonlinear_arith);
}

/// Banking pays one for one: of two runs without losses in which a session leaves with
/// the same SoC, the one whose previous session left more draws less by exactly that
/// surplus, up to two units for each slot of the stay.
pub proof fn banked_energy_lowers_the_next_draw<N: Num>(
    value: spec_fn(N) -> real,
    unit: real,
    sc: ScenarioModel<N>,
    m: real,
    first: Seq<Seq<Setpoint<N>>>,
    second: Seq<Seq<Setpoint<N>>>,
    a: int,
    b: int,
    c: int,
    d: int,
)
    requires
        rounds_toward_zero(value, unit),
        is_valid(sc),
        is_moderate(value, sc, m),
        sc.vehicles.len() <= usize::MAX,
        sc.chargers.len() <= usize::MAX,
        sc.building.len() == sc.rules.horizon_slots,
        sc.rules.persistence,
        value(sc.rules.charge_efficiency) == 1real,
        value(sc.rules.discharge_efficiency) == 1real,
        is_carried_over(value, sc, first, a, b),
        is_carried_over(value, sc, second, c, d),
        reported_rows(sc, first)[b] == reported_rows(sc, second)[d],
        value(results_of(sc, first).sessions[b].soc_departure_kwh) == value(
            results_of(sc, second).sessions[d].soc_departure_kwh,
        ),
    ensures
        ({
            let left = results_of(sc, first).sessions;
            let right = results_of(sc, second).sessions;
            let surplus = value(right[c].soc_departure_kwh) - value(left[a].soc_departure_kwh);
            let draw = value(left[b].energy_drawn_kwh) - value(left[b].energy_exported_kwh);
            let other = value(right[d].energy_drawn_kwh) - value(right[d].energy_exported_kwh);
            is_near(draw - other, surplus, slots_of(left[b]) * unit + slots_of(right[d]) * unit)
        }),
{
    the_next_draw_makes_up_the_difference(value, unit, sc, m, first, a, b);
    the_next_draw_makes_up_the_difference(value, unit, sc, m, second, c, d);
}

// --------------------------------------------------------- fixed-point runs

/// A scenario of ordinary size: at most a million sessions, powers up to a million
/// kW, batteries up to a hundred thousand kWh, and a horizon of at most five
/// hundred million minutes.
pub open spec fn is_ordinary(sc: ScenarioModel<Fixed>) -> bool {
    &&& sc.vehicles.len() <= 1_000_000
    &&& sc.rules.horizon_slots * sc.rules.slot_minutes.millionths <= 500_000_000_000_000
    &&& forall|s: int|
        0 <= s < sc.building.len() ==> -1_000_000_000_000 <= (#[trigger] sc.building[s]).millionths
            <= 1_000_000_000_000
    &&& sc.rules.site_cap_kw matches Some(cap) ==> -1_000_000_000_000 <= cap.millionths <= 1_000_000_000_000
    &&& forall|c: int|
        0 <= c < sc.chargers.len() ==> (#[trigger] sc.chargers[c]).max_kw.millionths <= 1_000_000_000_000
    &&& forall|i: int|
        0 <= i < sc.vehicles.len() ==> (#[trigger] sc.vehicles[i]).ceiling().millionths <= 100_000_000_000
}

proof fn lemma_ordinary_battery(sc: ScenarioModel<Fixed>, i: int)
    requires
        is_valid(sc),
        is_ordinary(sc),
        0 <= i < sc.vehicles.len(),
    ensures
        fits(
            fixed_value(),
            fixed_value()(sc.vehicles[i].ceiling()) / fixed_value()(sc.rules.charge_efficiency) * 60real,
        ),
{
    let v = sc.vehicles[i];
    assert(session_is_valid(v, sc.rules.horizon_slots));
    assert(zero_of::<Fixed>().millionths == 0);
    let c = v.ceiling().millionths;
    let e = sc.rules.charge_efficiency.millionths;
    assert(0 <= c <= 100_000_000_000);
    assert(1 <= e);
    let x = c as real / 1_000_000real;
    let y = e as real / 1_000_000real;
    assert(0real <= x / y <= 100_000_000_000real) by (nonlinear_arith)
        requires
            0real <= x <= 100_000real,
            y >= 1real / 1_000_000real,
    ;
    lemma_fixed_fits(x / y * 60real);
}

/// A valid scenario of ordinary size is moderate for fixed-point numbers.
pub proof fn ordinary_scenarios_are_moderate(sc: ScenarioModel<Fixed>)
    requires
        is_valid(sc),
        is_ordinary(sc),
    ensures
        is_moderate(fixed_value(), sc, 1_000_000real),
{
    let value = fixed_value();
    let m = 1_000_000real;
    lemma_fixed_fits((sc.vehicles.len() + 3) as real * m);
    let d = sc.rules.slot_minutes.millionths as int;
    let h = sc.rules.horizon_slots as int;
    assert(zero_of::<Fixed>().millionths == 0);
    assert(0 < d);
    assert(0 <= h * d) by (nonlinear_arith)
        requires
            0 <= h,
            0 < d,
    ;
    assert((h * d) as real == h as real * d as real) by (nonlinear_arith);
    let x = h as real * slot_energy(value, sc, m);
    let dt = d as real / 1_000_000real;
    assert(x == h as real * d as real / 60real) by (nonlinear_arith)
        requires
            x == h as real * (1_000_000real * dt / 60real),
            dt == d as real / 1_000_000real,
    ;
    lemma_fixed_fits(x);
    assert forall|i: int| 0 <= i < sc.vehicles.len() implies fits(
        value,
        value((#[trigger] sc.vehicles[i]).ceiling()) / value(sc.rules.charge_efficiency) * 60real,
    ) by {
        lemma_ordinary_battery(sc, i);
    }
}

/// A fixed-point run over a valid scenario of ordinary size, whatever the policy
/// answers: every report is in range and balances to a millionth of a kWh per
/// slot of the stay, and the meter balances to four millionths per session and
/// slot.
pub proof fn fixed_point_runs_balance(sc: ScenarioModel<Fixed>, decisions: Seq<Seq<Setpoint<Fixed>>>)
    requires
        is_valid(sc),
        is_ordinary(sc),
        sc.chargers.len() <= usize::MAX,
        sc.building.len() == sc.rules.horizon_slots,
    ensures
        ({
            let r = results_of(sc, decisions);
            let dt = fixed_value()(sc.rules.slot_minutes);
            &&& are_sound_reports(fixed_value(), millionth(), sc, r.sessions)
            &&& is_near(
                metered(fixed_value(), dt, r.slots),
                inflexible(fixed_value(), dt, r.slots) + drawn(fixed_value(), r.sessions) - exported(
                    fixed_value(),
                    r.sessions,
                ),
                sc.rules.horizon_slots as real * (sc.vehicles.len() as real * (4real * millionth())),
            )
        }),
{
    fixed_numbers_round_toward_zero();
    ordinary_scenarios_are_moderate(sc);
    every_report_balances(fixed_value(), millionth(), sc, 1_000_000real, decisions);
    the_meter_balances(fixed_value(), millionth(), sc, 1_000_000real, decisions);
}

/// A fixed-point run over a valid scenario of ordinary size, whatever the policy
/// answers, has one record per slot, and in each of them the site neither exports
/// nor exceeds its cap.
pub proof fn fixed_point_runs_keep_the_site_within_bounds(
    sc: ScenarioModel<Fixed>,
    decisions: Seq<Seq<Setpoint<Fixed>>>,
)
    requires
        is_valid(sc),
        is_ordinary(sc),
        sc.chargers.len() <= usize::MAX,
        sc.building.len() == sc.rules.horizon_slots,
    ensures
        ({
            let slots = results_of(sc, decisions).slots;
            &&& slots.len() == sc.rules.horizon_slots
            &&& forall|t: int|
                0 <= t < slots.len() ==> (#[trigger] slots[t]).slot == t && is_lawful_record(
                    fixed_value(),
                    sc,
                    slots[t],
                )
        }),
{
    fixed_numbers_round_toward_zero();
    ordinary_scenarios_are_moderate(sc);
    every_slot_is_recorded_once(sc, decisions, sc.rules.horizon_slots as nat);
    every_record_is_lawful(
        fixed_value(),
        millionth(),
        sc,
        1_000_000real,
        decisions,
        sc.rules.horizon_slots as nat,
    );
}

} // verus!
