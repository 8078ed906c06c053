//! What the contract menus and the talks amount to: what a session is priced from, what an
//! offer costs and how it is valued, and which one a draw picks.

use vstd::prelude::*;

use crate::dispatch::total;
use crate::negotiation::{
    agreed, chosen, contract, count_agreed, departures_may_stay, draw_left, is_negotiable, largest, latest_departure,
    matching_port, menu_of, next_visit, offered, priced_contract, priced_soc, pricing_port, reject_offer, rng_next,
    rng_value, talks_at, tier_offer, used_up, utilities_of, weight, weight_sum, ContractRecord, NegotiationConfig,
    Offer, Talks,
};
use crate::num::{count, zero_of, Num};
use crate::order::{stable_order_is_sorted, Ranked};
use crate::policy::feasible::{is_stay_before, session_at};
use crate::rounding::{
    fits, has_fractions, has_measures, is_about, is_number, least, lemma_closer_fits, lemma_compare, lemma_constants,
    lemma_finite, lemma_fitting, lemma_minus, lemma_negated, lemma_plus, lemma_times, most, rounds_toward_zero,
};
use crate::scenario::{Charger, ScenarioModel, Vehicle};
use crate::site::{arrival_order, arrival_rank, arrive_row, SiteModel};
use crate::soundness::lemma_arrival_order;
use crate::tariff::lemma_same_total;

verus! {

// ---------------------------------------------------------- where sessions start

/// `x` moved between `lo` and `hi`.
pub open spec fn kept_between(x: real, lo: real, hi: real) -> real {
    if x < lo {
        lo
    } else if hi < x {
        hi
    } else {
        x
    }
}

/// After `n` sessions the talks remember each vehicle by its last session among them: as
/// leaving with its agreed target, or with what it came with, up to its capacity, where that
/// is more.
proof fn lemma_remembered<N: Num>(
    sc: ScenarioModel<N>,
    config: NegotiationConfig<N>,
    costs: Seq<Seq<N>>,
    n: nat,
    q: int,
    id: u32,
)
    requires
        0 <= q < n <= sc.vehicles.len(),
        session_at(sc, q).vehicle_id == id,
        forall|r: int| q < r < n ==> (#[trigger] session_at(sc, r)).vehicle_id != id,
    ensures
        ({
            let st = talks_at(sc, config, costs, n);
            let there = talks_at(sc, config, costs, q as nat);
            &&& st.chain.dom().contains(id)
            &&& st.chain[id] == agreed(sc, config, there, q, costs[q]).new_target_kwh.greater(
                priced_soc(sc, there.chain, q).lesser(session_at(sc, q).battery_kwh),
            )
            &&& st.records.len() == n
            &&& st.records[q] == agreed(sc, config, there, q, costs[q])
        }),
    decreases n,
{
    lemma_record_count(sc, config, costs, (n - 1) as nat);
    if q < n - 1 {
        lemma_remembered(sc, config, costs, (n - 1) as nat, q, id);
        assert(session_at(sc, n - 1).vehicle_id != id);
    }
}

proof fn lemma_record_count<N: Num>(
    sc: ScenarioModel<N>,
    config: NegotiationConfig<N>,
    costs: Seq<Seq<N>>,
    n: nat,
)
    ensures
        talks_at(sc, config, costs, n).records.len() == n,
    decreases n,
{
    if n > 0 {
        lemma_record_count(sc, config, costs, (n - 1) as nat);
    }
}

proof fn lemma_forgotten<N: Num>(
    sc: ScenarioModel<N>,
    config: NegotiationConfig<N>,
    costs: Seq<Seq<N>>,
    n: nat,
    id: u32,
)
    requires
        n <= sc.vehicles.len(),
        forall|r: int| 0 <= r < n ==> (#[trigger] session_at(sc, r)).vehicle_id != id,
    ensures
        !talks_at(sc, config, costs, n).chain.dom().contains(id),
    decreases n,
{
    if n > 0 {
        lemma_forgotten(sc, config, costs, (n - 1) as nat, id);
        assert(session_at(sc, n - 1).vehicle_id != id);
    }
}

/// Under persistence a later session of a vehicle is priced with what the vehicle's last
/// session is taken to end with, less the depletion between them, kept between floor and
/// capacity. The last session is taken to end with its agreed target, or with what it was
/// priced with, up to its capacity, where that is more.
pub proof fn later_sessions_are_priced_from_the_last_one<N: Num>(
    value: spec_fn(N) -> real,
    unit: real,
    sc: ScenarioModel<N>,
    config: NegotiationConfig<N>,
    costs: Seq<Seq<N>>,
    q: int,
    p: int,
)
    requires
        rounds_toward_zero(value, unit),
        sc.rules.persistence,
        is_stay_before(sc, q, p),
        p < sc.vehicles.len(),
        ({
            let st = talks_at(sc, config, costs, p as nat);
            let start = priced_soc(sc, talks_at(sc, config, costs, q as nat).chain, q);
            let v = session_at(sc, p);
            &&& st.records[q].new_target_kwh.finite()
            &&& start.finite()
            &&& session_at(sc, q).battery_kwh.finite()
            &&& v.depletion_kwh.finite() && v.min_soc_kwh.finite() && v.battery_kwh.finite()
            &&& value(v.min_soc_kwh) <= value(v.battery_kwh)
            &&& fits(
                value,
                most(
                    value(st.records[q].new_target_kwh),
                    least(value(start), value(session_at(sc, q).battery_kwh)),
                ) - value(v.depletion_kwh),
            )
        }),
    ensures
        ({
            let st = talks_at(sc, config, costs, p as nat);
            let start = priced_soc(sc, talks_at(sc, config, costs, q as nat).chain, q);
            let left = most(
                value(st.records[q].new_target_kwh),
                least(value(start), value(session_at(sc, q).battery_kwh)),
            );
            let v = session_at(sc, p);
            value(priced_soc(sc, st.chain, p)) == kept_between(
                left - value(v.depletion_kwh),
                value(v.min_soc_kwh),
                value(v.battery_kwh),
            )
        }),
{
    let id = session_at(sc, p).vehicle_id;
    lemma_remembered(sc, config, costs, p as nat, q, id);
    let st = talks_at(sc, config, costs, p as nat);
    let start = priced_soc(sc, talks_at(sc, config, costs, q as nat).chain, q);
    let there = session_at(sc, q);
    let v = session_at(sc, p);
    let target = st.records[q].new_target_kwh;
    lemma_finite(value, unit, target);
    lemma_finite(value, unit, start);
    lemma_finite(value, unit, there.battery_kwh);
    lemma_finite(value, unit, v.min_soc_kwh);
    lemma_finite(value, unit, v.battery_kwh);
    let held = start.lesser(there.battery_kwh);
    lemma_compare(value, unit, start, there.battery_kwh);
    lemma_compare(value, unit, target, held);
    let end = target.greater(held);
    if value(end) == value(target) {
        lemma_closer_fits(value, value(end), value(target));
    } else if value(end) == value(start) {
        lemma_closer_fits(value, value(end), value(start));
    } else {
        lemma_closer_fits(value, value(end), value(there.battery_kwh));
    }
    lemma_fitting(value, unit, end);
    lemma_minus(value, unit, end, v.depletion_kwh);
    let raw = end.minus(v.depletion_kwh);
    lemma_finite(value, unit, raw);
    lemma_compare(value, unit, raw, v.min_soc_kwh);
    lemma_compare(value, unit, v.battery_kwh, raw);
}

/// The first session of a vehicle, and without persistence every session, is priced with the
/// SoC of its own row.
pub proof fn first_sessions_are_priced_from_their_own_row<N: Num>(
    sc: ScenarioModel<N>,
    config: NegotiationConfig<N>,
    costs: Seq<Seq<N>>,
    p: int,
)
    requires
        0 <= p < sc.vehicles.len(),
        !sc.rules.persistence || forall|r: int|
            0 <= r < p ==> (#[trigger] session_at(sc, r)).vehicle_id != session_at(sc, p).vehicle_id,
    ensures
        priced_soc(sc, talks_at(sc, config, costs, p as nat).chain, p) == session_at(sc, p).soc_arrival_kwh,
{
    if sc.rules.persistence {
        lemma_forgotten(sc, config, costs, p as nat, session_at(sc, p).vehicle_id);
    }
}

/// Pricing starts a session as the engine would: for a vehicle without a ceiling of its own,
/// whose last SoC site and talks remember alike, the SoC that is priced is the one with
/// which the session would arrive.
pub proof fn sessions_are_priced_as_they_would_arrive<N: Num>(
    sc: ScenarioModel<N>,
    chain: Map<u32, N>,
    st: SiteModel<N>,
    p: int,
)
    requires
        0 <= p < sc.vehicles.len(),
        arrival_order(sc.vehicles)[p] < sc.vehicles.len(),
        st.arrival_soc.len() == sc.vehicles.len(),
        st.chain == chain,
        session_at(sc, p).max_soc_kwh is None,
        st.arrival_soc[arrival_order(sc.vehicles)[p] as int] == session_at(sc, p).soc_arrival_kwh,
    ensures
        ({
            let row = arrival_order(sc.vehicles)[p] as int;
            let slot = session_at(sc, p).arrival_slot as int;
            priced_soc(sc, chain, p) == arrive_row(sc, st, slot, row).arrival_soc[row]
        }),
{
}

// ------------------------------------------------------------------- the menu

/// A departure may move up to the arrival of the vehicle's next session, or to the horizon
/// where it has none.
pub proof fn departures_move_up_to_the_next_arrival<N: Num>(sc: ScenarioModel<N>, p: int)
    requires
        is_negotiable(sc),
        sc.vehicles.len() <= usize::MAX,
        0 <= p < sc.vehicles.len(),
    ensures
        latest_departure(sc, p) <= sc.rules.horizon_slots,
        forall|r: int|
            p < r < sc.vehicles.len() && (#[trigger] session_at(sc, r)).vehicle_id == session_at(sc, p).vehicle_id
                ==> latest_departure(sc, p) <= session_at(sc, r).arrival_slot,
        latest_departure(sc, p) == sc.rules.horizon_slots || exists|r: int|
            p < r < sc.vehicles.len() && (#[trigger] session_at(sc, r)).vehicle_id == session_at(sc, p).vehicle_id
                && latest_departure(sc, p) == session_at(sc, r).arrival_slot,
{
    let order = arrival_order(sc.vehicles);
    let keys = Seq::new(sc.vehicles.len(), |i: int| arrival_rank(sc.vehicles[i]));
    lemma_arrival_order(sc);
    stable_order_is_sorted(keys, keys.len());
    let id = session_at(sc, p).vehicle_id;
    lemma_next(sc, id, p + 1);
    match next_visit(sc.vehicles, order, id, p + 1) {
        Some(q) => {
            assert(session_at(sc, q).vehicle_id == id);
            assert forall|r: int|
                p < r < sc.vehicles.len() && (#[trigger] session_at(sc, r)).vehicle_id == id implies latest_departure(
                sc,
                p,
            ) <= session_at(sc, r).arrival_slot by {
                assert(q <= r);
                assert(order[q] < sc.vehicles.len() && order[r] < sc.vehicles.len());
                if q < r {
                    assert(!keys[order[r] as int].ahead(&keys[order[q] as int]));
                }
            }
        },
        None => {},
    }
}

proof fn lemma_next<N>(sc: ScenarioModel<N>, id: u32, q: int)
    requires
        0 <= q,
        arrival_order(sc.vehicles).len() == sc.vehicles.len(),
    ensures
        match next_visit(sc.vehicles, arrival_order(sc.vehicles), id, q) {
            Some(i) => q <= i < sc.vehicles.len() && session_at(sc, i).vehicle_id == id && forall|r: int|
                q <= r < i ==> (#[trigger] session_at(sc, r)).vehicle_id != id,
            None => forall|r: int| q <= r < sc.vehicles.len() ==> (#[trigger] session_at(sc, r)).vehicle_id != id,
        },
    decreases sc.vehicles.len() - q,
{
    if q < sc.vehicles.len() && session_at(sc, q).vehicle_id != id {
        lemma_next(sc, id, q + 1);
    }
}

/// What tier `t` asks of the user: a delay of so many tiers' worth of slots, as far as the
/// latest departure allows, and a target lower by so many tiers' worth, as far as the floor
/// allows, up to rounding.
pub proof fn tiers_ask_for_their_share<N: Num>(
    value: spec_fn(N) -> real,
    unit: real,
    config: NegotiationConfig<N>,
    v: Vehicle<N>,
    latest: int,
    arrival_soc: N,
    costs: Seq<N>,
    t: int,
)
    requires
        rounds_toward_zero(value, unit),
        has_measures(value),
        0 <= t < config.choice_count - 1,
        v.departure_slot <= latest <= usize::MAX,
        config.target_reduction_per_tier_kwh.finite(),
        0real <= value(config.target_reduction_per_tier_kwh),
        v.soc_target_kwh.finite() && v.min_soc_kwh.finite(),
        fits(value, t as real),
        fits(value, t as real * value(config.target_reduction_per_tier_kwh)),
        fits(value, value(v.soc_target_kwh) - value(v.min_soc_kwh)),
    ensures
        ({
            let o = menu_of(config, v, latest, arrival_soc, costs)[t];
            let delay = t * config.delay_slots_per_tier;
            let cut = t as real * value(config.target_reduction_per_tier_kwh);
            let spare = most(value(v.soc_target_kwh) - value(v.min_soc_kwh), 0real);
            &&& o.delay_slots == if v.departure_slot + delay <= latest {
                delay
            } else {
                latest - v.departure_slot
            }
            &&& least(cut, spare) - unit <= value(o.target_reduction_kwh) <= least(cut, spare)
            &&& !o.is_reject
        }),
{
    lemma_constants(value, unit);
    let menu = menu_of(config, v, latest, arrival_soc, costs);
    assert(menu[t] == tier_offer(config, v, latest, t, costs[0], costs[t + 1]));
    assert(0 <= t * config.delay_slots_per_tier) by (nonlinear_arith)
        requires
            0 <= t,
    ;
    let tiers = count::<N>(t);
    let per = config.target_reduction_per_tier_kwh;
    assert(tiers.finite() && value(tiers) == t as real) by {
        reveal(has_measures);
        assert(tiers == N::rational(t as u64, 1));
        assert((t as u64) as real == t as real);
    }
    lemma_times(value, unit, tiers, per);
    let cut = tiers.times(per);
    lemma_finite(value, unit, cut);
    lemma_minus(value, unit, v.soc_target_kwh, v.min_soc_kwh);
    let gap = v.soc_target_kwh.minus(v.min_soc_kwh);
    lemma_finite(value, unit, gap);
    lemma_compare(value, unit, gap, zero_of::<N>());
    lemma_compare(value, unit, cut, gap.greater(zero_of()));
}

/// What offers cost: a tier the cost of the original request less the shared part of what
/// the tier saves, charging elsewhere the outside price of what is missing; nothing costs
/// less than zero, all up to rounding.
pub proof fn offers_cost_what_they_should<N: Num>(
    value: spec_fn(N) -> real,
    unit: real,
    config: NegotiationConfig<N>,
    v: Vehicle<N>,
    latest: int,
    arrival_soc: N,
    costs: Seq<N>,
    t: int,
)
    requires
        rounds_toward_zero(value, unit),
        has_fractions(value, unit),
        config.choice_count >= 2,
        0 <= t < config.choice_count - 1,
        config.surplus_share.finite(),
        config.external_price_usd_per_kwh.finite(),
        costs[0].finite() && costs[t + 1].finite(),
        v.soc_target_kwh.finite() && arrival_soc.finite(),
        ({
            let saving = value(costs[0]) - value(costs[t + 1]);
            let share = value(config.surplus_share);
            let gap = value(v.soc_target_kwh) - value(arrival_soc);
            &&& fits(value, saving)
            &&& fits(value, share * saving)
            &&& fits(value, most(value(costs[0]), 0real - value(costs[0])) + most(share * saving, 0real - share * saving) + unit)
            &&& fits(value, gap)
            &&& fits(value, value(config.external_price_usd_per_kwh) * most(gap, 0real))
        }),
    ensures
        ({
            let menu = menu_of(config, v, latest, arrival_soc, costs);
            let price = value(menu[t].price_usd);
            let fair = value(costs[0]) - value(config.surplus_share) * (value(costs[0]) - value(costs[t + 1]));
            let outside = value(config.external_price_usd_per_kwh) * most(
                value(v.soc_target_kwh) - value(arrival_soc),
                0real,
            );
            &&& most(fair - unit, 0real) <= price <= most(fair + unit, 0real)
            &&& outside - unit <= value(menu.last().price_usd) <= outside + unit
        }),
{
    lemma_constants(value, unit);
    let menu = menu_of(config, v, latest, arrival_soc, costs);
    assert(menu[t] == tier_offer(config, v, latest, t, costs[0], costs[t + 1]));
    assert(menu.last() == reject_offer(config, v, arrival_soc));
    let c0 = costs[0];
    let ct = costs[t + 1];
    lemma_minus(value, unit, c0, ct);
    let saving = c0.minus(ct);
    let shared = config.surplus_share.times(saving);
    let exact = value(config.surplus_share) * value(saving);
    assert(is_about(value, unit, shared, exact)) by {
        reveal(has_fractions);
    }
    let wide = most(value(c0), 0real - value(c0)) + most(exact, 0real - exact) + unit;
    lemma_closer_fits(value, value(c0) - value(shared), wide);
    lemma_minus(value, unit, c0, shared);
    let left = c0.minus(shared);
    lemma_finite(value, unit, left);
    lemma_compare(value, unit, left, zero_of::<N>());
    lemma_minus(value, unit, v.soc_target_kwh, arrival_soc);
    let gap = v.soc_target_kwh.minus(arrival_soc);
    lemma_finite(value, unit, gap);
    lemma_compare(value, unit, gap, zero_of::<N>());
    let missing = gap.greater(zero_of());
    lemma_closer_fits(value, value(missing), value(gap));
    lemma_fitting(value, unit, missing);
    assert(is_about(
        value,
        unit,
        config.external_price_usd_per_kwh.times(missing),
        value(config.external_price_usd_per_kwh) * value(missing),
    )) by {
        reveal(has_fractions);
    }
}

/// How users value an offer: less by its price, by the inconvenience of each slot of delay
/// and by that of each kWh off the target; charging elsewhere by its price alone.
pub proof fn users_value_price_and_convenience<N: Num>(
    value: spec_fn(N) -> real,
    unit: real,
    config: NegotiationConfig<N>,
    menu: Seq<Offer<N>>,
    k: int,
)
    requires
        rounds_toward_zero(value, unit),
        has_measures(value),
        has_fractions(value, unit),
        0 <= k < menu.len(),
        menu[k].price_usd.finite(),
        menu[k].target_reduction_kwh.finite(),
        config.inconvenience_delay_usd_per_slot.finite(),
        config.inconvenience_reduction_usd_per_kwh.finite(),
        ({
            let o = menu[k];
            let a = value(config.inconvenience_delay_usd_per_slot) * (o.delay_slots as real);
            let b = value(config.inconvenience_reduction_usd_per_kwh) * value(o.target_reduction_kwh);
            let p = value(o.price_usd);
            &&& fits(value, o.delay_slots as real)
            &&& fits(value, a)
            &&& fits(value, b)
            &&& fits(value, most(p, 0real - p) + most(a, 0real - a) + most(b, 0real - b) + 2real * unit)
        }),
    ensures
        ({
            let o = menu[k];
            let u = value(utilities_of(config, menu)[k]);
            let a = value(config.inconvenience_delay_usd_per_slot) * (o.delay_slots as real);
            let b = value(config.inconvenience_reduction_usd_per_kwh) * value(o.target_reduction_kwh);
            let p = value(o.price_usd);
            &&& o.is_reject ==> u == 0real - p
            &&& !o.is_reject ==> 0real - p - a - b - 2real * unit <= u <= 0real - p - a - b + 2real * unit
        }),
{
    lemma_constants(value, unit);
    let o = menu[k];
    let p = value(o.price_usd);
    let slots = count::<N>(o.delay_slots as int);
    assert(slots.finite() && value(slots) == o.delay_slots as real) by {
        reveal(has_measures);
        assert(slots == N::rational(o.delay_slots as u64, 1));
        assert((o.delay_slots as u64) as real == o.delay_slots as real);
    }
    let x = config.inconvenience_delay_usd_per_slot.times(slots);
    let y = config.inconvenience_reduction_usd_per_kwh.times(o.target_reduction_kwh);
    let a = value(config.inconvenience_delay_usd_per_slot) * value(slots);
    let b = value(config.inconvenience_reduction_usd_per_kwh) * value(o.target_reduction_kwh);
    assert(is_about(value, unit, x, a) && is_about(value, unit, y, b)) by {
        reveal(has_fractions);
    }
    let wide = most(p, 0real - p) + most(a, 0real - a) + most(b, 0real - b) + 2real * unit;
    lemma_negated(value, unit, o.price_usd);
    lemma_closer_fits(value, value(x) + value(y), wide);
    lemma_plus(value, unit, x, y);
    if o.is_reject {
        lemma_closer_fits(value, 0real - p - 0real, wide);
        lemma_minus(value, unit, o.price_usd.negated(), zero_of::<N>());
    } else {
        lemma_closer_fits(value, 0real - p - value(x.plus(y)), wide);
        lemma_minus(value, unit, o.price_usd.negated(), x.plus(y));
    }
}

/// What is priced is what is offered: the problem of a tier is the session alone with the
/// departure and the target that the menu offers for it, from the SoC that the session is
/// priced with; the first problem is its original request.
pub proof fn the_offered_contracts_are_priced<N: Num>(
    sc: ScenarioModel<N>,
    config: NegotiationConfig<N>,
    st: Talks<N>,
    costs: Seq<N>,
    p: int,
    t: int,
)
    requires
        is_negotiable(sc),
        sc.vehicles.len() <= usize::MAX,
        0 <= p < sc.vehicles.len(),
        0 <= t < config.choice_count - 1,
    ensures
        ({
            let v = session_at(sc, p);
            let o = offered(sc, config, st, p, costs)[t];
            let problem = priced_contract(sc, config, st, p, t + 1);
            let original = priced_contract(sc, config, st, p, 0);
            let start = priced_soc(sc, st.chain, p);
            &&& problem.vehicles.len() == 1 && original.vehicles.len() == 1
            &&& problem.vehicles[0].departure_slot == v.departure_slot + o.delay_slots
            &&& problem.vehicles[0].soc_target_kwh == v.soc_target_kwh.minus(o.target_reduction_kwh)
            &&& original.vehicles[0].departure_slot == v.departure_slot
            &&& original.vehicles[0].soc_target_kwh == v.soc_target_kwh
            &&& problem.vehicles[0].soc_arrival_kwh == start && original.vehicles[0].soc_arrival_kwh == start
            &&& problem.vehicles[0].arrival_slot == v.arrival_slot
            &&& problem.vehicles[0].max_charge_kw == v.max_charge_kw
            &&& problem.vehicles[0].max_discharge_kw == v.max_discharge_kw
            &&& problem.vehicles[0].battery_kwh == v.battery_kwh
            &&& problem.vehicles[0].min_soc_kwh == v.min_soc_kwh
            &&& problem.rules == sc.rules && problem.building == sc.building && problem.price == sc.price
            &&& problem.tou == sc.tou && problem.events == sc.events
            &&& problem.chargers == original.chargers && problem.chargers.len() == 1
        }),
{
    departures_may_stay(sc, p);
    let v = session_at(sc, p);
    let menu = offered(sc, config, st, p, costs);
    assert(menu[t] == tier_offer(config, v, latest_departure(sc, p), t, costs[0], costs[t + 1]));
    assert(0 <= t * config.delay_slots_per_tier) by (nonlinear_arith)
        requires
            0 <= t,
    ;
}

/// A contract is priced at the first port that can do what the vehicle can, and at the first
/// port where there is none.
pub proof fn contracts_are_priced_at_a_fitting_port<N: Num>(
    value: spec_fn(N) -> real,
    unit: real,
    chargers: Seq<Charger<N>>,
    v: Vehicle<N>,
    c: int,
)
    requires
        rounds_toward_zero(value, unit),
        v.max_discharge_kw.finite(),
        0 <= c < chargers.len(),
        chargers[c].bidirectional == (0real < value(v.max_discharge_kw)),
        forall|d: int|
            0 <= d < c ==> (#[trigger] chargers[d]).bidirectional != (0real < value(v.max_discharge_kw)),
    ensures
        pricing_port(chargers, v) == chargers[c],
{
    lemma_constants(value, unit);
    lemma_finite(value, unit, v.max_discharge_kw);
    lemma_compare(value, unit, zero_of::<N>(), v.max_discharge_kw);
    lemma_matching(chargers, 0real < value(v.max_discharge_kw), c, chargers.len());
}

proof fn lemma_matching<N>(chargers: Seq<Charger<N>>, bidirectional: bool, c: int, n: nat)
    requires
        0 <= c < chargers.len(),
        n <= chargers.len(),
        chargers[c].bidirectional == bidirectional,
        forall|d: int| 0 <= d < c ==> (#[trigger] chargers[d]).bidirectional != bidirectional,
    ensures
        matching_port(chargers, bidirectional, n) == if c < n {
            Some(c)
        } else {
            None
        },
    decreases n,
{
    if n > 0 {
        lemma_matching(chargers, bidirectional, c, (n - 1) as nat);
        if n - 1 < c {
            assert(chargers[n - 1].bidirectional != bidirectional);
        }
    }
}

// ------------------------------------------------------------------- the draw

/// The first `n` weights added up.
pub open spec fn weight_upto<N: Num>(value: spec_fn(N) -> real, utilities: Seq<N>, temperature: N, n: nat) -> real
    decreases n,
{
    if n == 0 {
        0real
    } else {
        weight_upto(value, utilities, temperature, (n - 1) as nat) + value(weight(utilities, temperature, n - 1))
    }
}

/// Weights are finite and not negative, and their sum fits.
pub open spec fn are_weights<N: Num>(value: spec_fn(N) -> real, utilities: Seq<N>, temperature: N) -> bool {
    &&& forall|k: int|
        0 <= k < utilities.len() ==> (#[trigger] weight(utilities, temperature, k)).finite() && 0real <= value(
            weight(utilities, temperature, k),
        )
    &&& fits(value, weight_upto(value, utilities, temperature, utilities.len()))
}

proof fn lemma_weight_upto<N: Num>(value: spec_fn(N) -> real, utilities: Seq<N>, temperature: N, m: nat, n: nat)
    requires
        are_weights(value, utilities, temperature),
        m <= n <= utilities.len(),
    ensures
        0real <= weight_upto(value, utilities, temperature, m) <= weight_upto(value, utilities, temperature, n),
    decreases n,
{
    if m < n {
        lemma_weight_upto(value, utilities, temperature, m, (n - 1) as nat);
        assert(0real <= value(weight(utilities, temperature, n - 1)));
    } else if n > 0 {
        lemma_weight_upto(value, utilities, temperature, (n - 1) as nat, (n - 1) as nat);
        assert(0real <= value(weight(utilities, temperature, n - 1)));
    }
}

proof fn lemma_weight_sum<N: Num>(value: spec_fn(N) -> real, unit: real, utilities: Seq<N>, temperature: N, n: nat)
    requires
        rounds_toward_zero(value, unit),
        are_weights(value, utilities, temperature),
        n <= utilities.len(),
    ensures
        weight_sum(utilities, temperature, n).finite(),
        value(weight_sum(utilities, temperature, n)) == weight_upto(value, utilities, temperature, n),
    decreases n,
{
    lemma_constants(value, unit);
    if n > 0 {
        let m = (n - 1) as nat;
        lemma_weight_sum(value, unit, utilities, temperature, m);
        let all = weight_upto(value, utilities, temperature, utilities.len());
        lemma_weight_upto(value, utilities, temperature, n, utilities.len());
        lemma_weight_upto(value, utilities, temperature, m, utilities.len());
        let w = weight(utilities, temperature, n - 1);
        assert(w.finite());
        lemma_closer_fits(value, weight_upto(value, utilities, temperature, n), all);
        lemma_plus(value, unit, weight_sum(utilities, temperature, m), w);
    }
}

proof fn lemma_draw_left<N: Num>(
    value: spec_fn(N) -> real,
    unit: real,
    utilities: Seq<N>,
    temperature: N,
    draw: N,
    n: nat,
)
    requires
        rounds_toward_zero(value, unit),
        are_weights(value, utilities, temperature),
        draw.finite(),
        0real <= value(draw) <= weight_upto(value, utilities, temperature, utilities.len()),
        n <= utilities.len(),
    ensures
        draw_left(utilities, temperature, draw, n).finite(),
        value(draw_left(utilities, temperature, draw, n)) == value(draw) - weight_upto(
            value,
            utilities,
            temperature,
            n,
        ),
    decreases n,
{
    if n == 0 {
    } else {
        let m = (n - 1) as nat;
        lemma_draw_left(value, unit, utilities, temperature, draw, m);
        let all = weight_upto(value, utilities, temperature, utilities.len());
        lemma_weight_upto(value, utilities, temperature, n, utilities.len());
        lemma_weight_upto(value, utilities, temperature, m, n);
        let w = weight(utilities, temperature, n - 1);
        assert(w.finite());
        lemma_closer_fits(value, value(draw) - weight_upto(value, utilities, temperature, n), all);
        lemma_minus(value, unit, draw_left(utilities, temperature, draw, m), w);
    }
}

proof fn lemma_used_up_at<N: Num>(
    value: spec_fn(N) -> real,
    unit: real,
    utilities: Seq<N>,
    temperature: N,
    draw: N,
    n: nat,
)
    requires
        rounds_toward_zero(value, unit),
        are_weights(value, utilities, temperature),
        draw.finite(),
        0real <= value(draw) <= weight_upto(value, utilities, temperature, utilities.len()),
        n <= utilities.len(),
    ensures
        match used_up(utilities, temperature, draw, n) {
            Some(k) => 0 <= k < n && value(draw) <= weight_upto(value, utilities, temperature, (k + 1) as nat) && (k > 0
                ==> weight_upto(value, utilities, temperature, k as nat) < value(draw)),
            None => n > 0 ==> weight_upto(value, utilities, temperature, n) < value(draw),
        },
    decreases n,
{
    lemma_constants(value, unit);
    if n > 0 {
        lemma_used_up_at(value, unit, utilities, temperature, draw, (n - 1) as nat);
        lemma_draw_left(value, unit, utilities, temperature, draw, n);
        let left = draw_left(utilities, temperature, draw, n);
        lemma_finite(value, unit, left);
        lemma_compare(value, unit, left, zero_of::<N>());
    }
}

/// Above temperature zero a draw between nothing and all weights picks the offer on whose
/// share of the weights it falls.
pub proof fn draws_fall_on_their_share<N: Num>(
    value: spec_fn(N) -> real,
    unit: real,
    utilities: Seq<N>,
    temperature: N,
    rng: u64,
)
    requires
        rounds_toward_zero(value, unit),
        utilities.len() > 0,
        !temperature.at_most(zero_of()),
        are_weights(value, utilities, temperature),
        rng_value::<N>(rng_next(rng)).finite(),
        0real <= value(rng_value::<N>(rng_next(rng))) <= 1real,
    ensures
        ({
            let k = chosen(utilities, temperature, rng);
            let share = value(rng_value::<N>(rng_next(rng)));
            let all = weight_upto(value, utilities, temperature, utilities.len());
            &&& 0 <= k < utilities.len()
            &&& share * all - unit <= weight_upto(value, utilities, temperature, (k + 1) as nat)
            &&& k > 0 ==> weight_upto(value, utilities, temperature, k as nat) < share * all
        }),
{
    lemma_constants(value, unit);
    let n = utilities.len();
    let all = weight_upto(value, utilities, temperature, n);
    lemma_weight_sum(value, unit, utilities, temperature, n);
    lemma_weight_upto(value, utilities, temperature, 0, n);
    let drawn = rng_value::<N>(rng_next(rng));
    let sum = weight_sum(utilities, temperature, n);
    let share = value(drawn);
    assert(0real <= share * all <= all) by (nonlinear_arith)
        requires
            0real <= share <= 1real,
            0real <= all,
    ;
    lemma_closer_fits(value, share * all, all);
    lemma_times(value, unit, drawn, sum);
    let draw = drawn.times(sum);
    lemma_used_up_at(value, unit, utilities, temperature, draw, n);
}

/// The weight of an offer is that of its distance to the best one: no distance is positive,
/// and that of a best offer is zero.
pub proof fn weights_are_of_the_distance_to_the_best<N: Num>(
    value: spec_fn(N) -> real,
    unit: real,
    utilities: Seq<N>,
    temperature: N,
    k: int,
    best: int,
)
    requires
        rounds_toward_zero(value, unit),
        has_fractions(value, unit),
        0 <= k < utilities.len(),
        0 <= best < utilities.len(),
        forall|j: int| 0 <= j < utilities.len() ==> (#[trigger] utilities[j]).finite(),
        forall|j: int| 0 <= j < utilities.len() ==> value(#[trigger] utilities[j]) <= value(utilities[best]),
        fits(value, value(utilities[k]) - value(utilities[best])),
        temperature.finite(),
        0real < value(temperature),
        fits(value, (value(utilities[k]) - value(utilities[best])) / value(temperature)),
    ensures
        exists|x: N|
            weight(utilities, temperature, k) == #[trigger] x.exponential() && (value(utilities[k]) - value(
                utilities[best],
            )) / value(temperature) - unit <= value(x) <= (value(utilities[k]) - value(utilities[best])) / value(
                temperature,
            ) + unit,
{
    let n = utilities.len();
    lemma_largest(value, unit, utilities, n);
    let top = largest(utilities, n);
    let at = choose|j: int| 0 <= j < n && value(#[trigger] utilities[j]) == value(top);
    assert(value(utilities[at]) <= value(utilities[best]));
    assert(value(utilities[best]) <= value(top));
    lemma_finite(value, unit, utilities[best]);
    lemma_fitting(value, unit, top);
    lemma_minus(value, unit, utilities[k], top);
    let gap = utilities[k].minus(top);
    let x = gap.over(temperature);
    assert(is_about(value, unit, x, value(gap) / value(temperature))) by {
        reveal(has_fractions);
    }
    assert(weight(utilities, temperature, k) == x.exponential());
}

proof fn lemma_largest<N: Num>(value: spec_fn(N) -> real, unit: real, utilities: Seq<N>, n: nat)
    requires
        rounds_toward_zero(value, unit),
        has_fractions(value, unit),
        n <= utilities.len(),
        forall|j: int| 0 <= j < utilities.len() ==> (#[trigger] utilities[j]).finite(),
    ensures
        is_number(largest(utilities, n)),
        forall|j: int| 0 <= j < n ==> value(#[trigger] utilities[j]) <= value(largest(utilities, n)),
        n > 0 ==> exists|j: int| 0 <= j < n && value(#[trigger] utilities[j]) == value(largest(utilities, n)),
        n == 0 ==> forall|b: N| (#[trigger] b.finite()) ==> value(largest(utilities, n)) <= value(b),
    decreases n,
{
    reveal(has_fractions);
    if n > 0 {
        let m = (n - 1) as nat;
        lemma_largest(value, unit, utilities, m);
        let last = utilities[n - 1];
        assert(last.finite());
        lemma_finite(value, unit, last);
        lemma_compare(value, unit, largest(utilities, m), last);
        if value(largest(utilities, m)) <= value(last) {
            assert(value(utilities[n - 1]) == value(largest(utilities, n)));
        } else {
            let j = choose|j: int| 0 <= j < m && value(#[trigger] utilities[j]) == value(largest(utilities, m));
            assert(value(utilities[j]) == value(largest(utilities, n)));
        }
    }
}

/// One for each record whose user took an offer.
pub open spec fn accepted<N>(records: Seq<ContractRecord<N>>) -> spec_fn(int) -> real {
    |i: int|
        if records[i].chosen_is_reject {
            0real
        } else {
            1real
        }
}

/// The count of agreements is that of the records whose users took an offer.
pub proof fn every_agreement_is_counted<N>(records: Seq<ContractRecord<N>>)
    ensures
        count_agreed(records) as real == total(accepted(records), records.len()),
    decreases records.len(),
{
    if records.len() > 0 {
        let rest = records.drop_last();
        every_agreement_is_counted(rest);
        lemma_same_total(accepted(rest), accepted(records), rest.len());
        assert(records[records.len() - 1] == records.last());
    }
}

} // verus!
