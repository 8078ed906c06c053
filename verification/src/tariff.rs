//! What a bill amounts to in numbers: energy at its prices, demand at its peaks, and the
//! sum over all demand-response events of what each costs and earns.

use vstd::prelude::*;

use crate::billing::{
    are_comparable, bill_of, breach, energy_cost, imported, imported_total, incentive_total, is_covered, overflow,
    overflow_measures_the_breach, peak, peak_tou, peaks_bound_the_net_loads, penalty_total, settlement, settlements,
    DrSettlement,
};
use crate::dispatch::total;
use crate::engine::SlotRecord;
use crate::num::{zero_of, Num};
use crate::physics::lemma_energy_rounded;
use crate::rounding::{
    fits, is_number, lemma_closer_fits, lemma_compare, lemma_constants, lemma_finite, lemma_fitting, lemma_minus,
    lemma_plus, lemma_times, most, rounds_toward_zero,
};
use crate::scenario::{ScenarioModel, TouClass};

verus! {

/// Sums of equal terms are equal.
pub(crate) proof fn lemma_same_total(f: spec_fn(int) -> real, g: spec_fn(int) -> real, n: nat)
    requires
        forall|i: int| 0 <= i < n ==> #[trigger] f(i) == g(i),
    ensures
        total(f, n) == total(g, n),
    decreases n,
{
    if n > 0 {
        lemma_same_total(f, g, (n - 1) as nat);
        assert(f(n - 1) == g(n - 1));
    }
}

/// A sum is no larger than that of the sizes of its terms.
pub(crate) proof fn lemma_sizes(f: spec_fn(int) -> real, n: nat)
    ensures
        0real - total(sizes(f), n) <= total(f, n) <= total(sizes(f), n),
    decreases n,
{
    if n > 0 {
        lemma_sizes(f, (n - 1) as nat);
    }
}

/// The sizes of terms.
pub open spec fn sizes(f: spec_fn(int) -> real) -> spec_fn(int) -> real {
    |i: int| most(f(i), 0real - f(i))
}

/// The penalties of settlements.
pub open spec fn penalties<N: Num>(value: spec_fn(N) -> real, settled: Seq<DrSettlement<N>>) -> spec_fn(int) -> real {
    |i: int| value(settled[i].penalty_usd)
}

/// The incentives of settlements.
pub open spec fn incentives<N: Num>(value: spec_fn(N) -> real, settled: Seq<DrSettlement<N>>) -> spec_fn(int) -> real {
    |i: int| value(settled[i].incentive_usd)
}

proof fn lemma_penalties<N: Num>(value: spec_fn(N) -> real, unit: real, settled: Seq<DrSettlement<N>>)
    requires
        rounds_toward_zero(value, unit),
        forall|i: int| 0 <= i < settled.len() ==> (#[trigger] settled[i]).penalty_usd.finite(),
        fits(value, total(sizes(penalties(value, settled)), settled.len())),
    ensures
        penalty_total(settled).finite(),
        value(penalty_total(settled)) == total(penalties(value, settled), settled.len()),
    decreases settled.len(),
{
    lemma_constants(value, unit);
    let n = settled.len();
    let f = penalties(value, settled);
    if n > 0 {
        let rest = settled.drop_last();
        let g = penalties(value, rest);
        assert forall|i: int| 0 <= i < rest.len() implies (#[trigger] rest[i]).penalty_usd.finite() by {
            assert(rest[i] == settled[i]);
        }
        let k = (n - 1) as nat;
        lemma_same_total(sizes(g), sizes(f), k);
        lemma_same_total(g, f, k);
        lemma_sizes(f, k);
        lemma_sizes(f, n);
        lemma_closer_fits(value, total(sizes(f), k), total(sizes(f), n));
        lemma_penalties(value, unit, rest);
        assert(settled[n - 1] == settled.last());
        lemma_closer_fits(value, total(f, n), total(sizes(f), n));
        lemma_plus(value, unit, penalty_total(rest), settled.last().penalty_usd);
    }
}

proof fn lemma_incentives<N: Num>(value: spec_fn(N) -> real, unit: real, settled: Seq<DrSettlement<N>>)
    requires
        rounds_toward_zero(value, unit),
        forall|i: int| 0 <= i < settled.len() ==> (#[trigger] settled[i]).incentive_usd.finite(),
        fits(value, total(sizes(incentives(value, settled)), settled.len())),
    ensures
        incentive_total(settled).finite(),
        value(incentive_total(settled)) == total(incentives(value, settled), settled.len()),
    decreases settled.len(),
{
    lemma_constants(value, unit);
    let n = settled.len();
    let f = incentives(value, settled);
    if n > 0 {
        let rest = settled.drop_last();
        let g = incentives(value, rest);
        assert forall|i: int| 0 <= i < rest.len() implies (#[trigger] rest[i]).incentive_usd.finite() by {
            assert(rest[i] == settled[i]);
        }
        let k = (n - 1) as nat;
        lemma_same_total(sizes(g), sizes(f), k);
        lemma_same_total(g, f, k);
        lemma_sizes(f, k);
        lemma_sizes(f, n);
        lemma_closer_fits(value, total(sizes(f), k), total(sizes(f), n));
        lemma_incentives(value, unit, rest);
        assert(settled[n - 1] == settled.last());
        lemma_closer_fits(value, total(f, n), total(sizes(f), n));
        lemma_plus(value, unit, incentive_total(rest), settled.last().incentive_usd);
    }
}

/// The bill settles every event: there is one settlement for each, under its own window and
/// level, the penalties on the bill are all of theirs added up, and so are the incentives,
/// while the sums fit the number type.
pub proof fn every_event_is_billed<N: Num>(
    value: spec_fn(N) -> real,
    unit: real,
    sc: ScenarioModel<N>,
    slots: Seq<SlotRecord<N>>,
)
    requires
        rounds_toward_zero(value, unit),
        ({
            let list = bill_of(sc, slots).dr_settlements;
            &&& forall|i: int|
                0 <= i < list.len() ==> (#[trigger] list[i]).penalty_usd.finite() && list[i].incentive_usd.finite()
            &&& fits(value, total(sizes(penalties(value, list)), list.len()))
            &&& fits(value, total(sizes(incentives(value, list)), list.len()))
        }),
    ensures
        ({
            let b = bill_of(sc, slots);
            let list = b.dr_settlements;
            &&& list.len() == sc.events.len()
            &&& forall|i: int|
                0 <= i < list.len() ==> (#[trigger] list[i]).start_slot == sc.events[i].start_slot && list[i].end_slot
                    == sc.events[i].end_slot && list[i].fsl_kw == sc.events[i].fsl_kw
            &&& value(b.dr_penalty_usd) == total(|i: int| value(list[i].penalty_usd), sc.events.len())
            &&& value(b.dr_incentive_usd) == total(|i: int| value(list[i].incentive_usd), sc.events.len())
        }),
{
    let list = bill_of(sc, slots).dr_settlements;
    lemma_penalties(value, unit, list);
    lemma_incentives(value, unit, list);
    lemma_same_total(penalties(value, list), |i: int| value(list[i].penalty_usd), list.len());
    lemma_same_total(incentives(value, list), |i: int| value(list[i].incentive_usd), list.len());
}

/// A settlement charges the event's rate on its overflow, which is the energy above the firm
/// service level in the covered slots, and pays the event's rate on the reduction below its
/// baseline where the window was simulated and its overflow is nothing, up to rounding.
pub proof fn settlements_charge_the_breach<N: Num>(
    value: spec_fn(N) -> real,
    unit: real,
    sc: ScenarioModel<N>,
    slots: Seq<SlotRecord<N>>,
    i: int,
)
    requires
        rounds_toward_zero(value, unit),
        0 <= i < sc.events.len(),
        sc.rules.slot_minutes.finite(),
        value(sc.rules.slot_minutes) > 0real,
        ({
            let event = sc.events[i];
            let all = breach(value, event, slots, sc.rules.slot_minutes);
            &&& are_comparable(value, event, slots)
            &&& fits(value, all * 60real)
            &&& event.penalty_usd_per_kwh.finite() && 0real <= value(event.penalty_usd_per_kwh)
            &&& fits(value, value(event.penalty_usd_per_kwh) * all)
            &&& event.incentive_usd_per_kw.finite() && 0real <= value(event.incentive_usd_per_kw)
            &&& event.baseline_kw.finite()
            &&& fits(value, value(event.baseline_kw) - value(event.fsl_kw))
            &&& fits(
                value,
                value(event.incentive_usd_per_kw) * most(value(event.baseline_kw) - value(event.fsl_kw), 0real),
            )
        }),
    ensures
        ({
            let event = sc.events[i];
            let s = bill_of(sc, slots).dr_settlements[i];
            let all = breach(value, event, slots, sc.rules.slot_minutes);
            let rate = value(event.penalty_usd_per_kwh);
            let slack = slots.len() as real * (2real * unit);
            let cut = value(event.incentive_usd_per_kw) * most(value(event.baseline_kw) - value(event.fsl_kw), 0real);
            let honored = is_covered(event, slots) && value(s.overflow_kwh) <= value(N::rational(1, 1_000_000_000));
            &&& all - slack <= value(s.overflow_kwh) <= all
            &&& rate * value(s.overflow_kwh) - unit <= value(s.penalty_usd) <= rate * value(s.overflow_kwh)
            &&& honored ==> cut - unit <= value(s.incentive_usd) <= cut
            &&& !honored ==> value(s.incentive_usd) == 0real
            &&& s.penalty_usd.finite() && s.incentive_usd.finite()
        }),
{
    lemma_constants(value, unit);
    let event = sc.events[i];
    let dt = sc.rules.slot_minutes;
    let s = bill_of(sc, slots).dr_settlements[i];
    assert(s == settlement(event, slots, dt));
    overflow_measures_the_breach(value, unit, event, slots, dt);
    let all = breach(value, event, slots, dt);
    let o = overflow(event, slots, dt);
    let rate = value(event.penalty_usd_per_kwh);
    let y = value(o);
    assert(0real <= rate * y <= rate * all) by (nonlinear_arith)
        requires
            0real <= rate,
            0real <= y <= all,
    ;
    lemma_closer_fits(value, rate * y, rate * all);
    lemma_times(value, unit, event.penalty_usd_per_kwh, o);
    lemma_finite(value, unit, o);
    lemma_compare(value, unit, o, N::rational(1, 1_000_000_000));
    let gap = event.baseline_kw.minus(event.fsl_kw);
    lemma_minus(value, unit, event.baseline_kw, event.fsl_kw);
    lemma_finite(value, unit, gap);
    lemma_compare(value, unit, gap, zero_of::<N>());
    let cut = gap.greater(zero_of());
    lemma_closer_fits(value, value(cut), value(gap));
    lemma_fitting(value, unit, cut);
    lemma_times(value, unit, event.incentive_usd_per_kw, cut);
}

// ------------------------------------------------------------------- energy

/// The energy bought in slot `i`, kWh.
pub open spec fn bought<N: Num>(value: spec_fn(N) -> real, slots: Seq<SlotRecord<N>>, dt: N) -> spec_fn(int) -> real {
    |i: int| most(value(slots[i].net_kw), 0real) * value(dt) / 60real
}

/// What the energy bought in slot `i` costs, USD.
pub open spec fn paid<N: Num>(value: spec_fn(N) -> real, slots: Seq<SlotRecord<N>>, dt: N) -> spec_fn(int) -> real {
    |i: int| most(value(slots[i].net_kw), 0real) * value(dt) / 60real * value(slots[i].price_usd_per_kwh)
}

/// What rounding may take off the cost of slot `i`, USD.
pub open spec fn coins<N: Num>(value: spec_fn(N) -> real, unit: real, slots: Seq<SlotRecord<N>>) -> spec_fn(int) -> real {
    |i: int| 2real * unit * value(slots[i].price_usd_per_kwh) + unit
}

/// Net loads are numbers, prices not negative.
pub open spec fn are_billable<N: Num>(value: spec_fn(N) -> real, slots: Seq<SlotRecord<N>>) -> bool {
    forall|i: int|
        0 <= i < slots.len() ==> (#[trigger] slots[i]).net_kw.finite() && slots[i].price_usd_per_kwh.finite() && 0real
            <= value(slots[i].price_usd_per_kwh)
}

proof fn lemma_grown(f: spec_fn(int) -> real, n: nat)
    requires
        forall|i: int| 0 <= i < n ==> 0real <= #[trigger] f(i),
    ensures
        0real <= total(f, n),
        n > 0 ==> 0real <= total(f, (n - 1) as nat) <= total(f, n) && f(n - 1) <= total(f, n),
    decreases n,
{
    if n > 0 {
        lemma_grown(f, (n - 1) as nat);
        assert(0real <= f(n - 1));
    }
}

proof fn lemma_slot_paid(a: real, d: real, p: real)
    by (nonlinear_arith)
    requires
        0real <= a,
        0real < d,
        0real <= p,
    ensures
        0real <= a * d / 60real,
        0real <= a * d / 60real * p,
{
    assert(0real <= a * d);
}

proof fn lemma_energy<N: Num>(value: spec_fn(N) -> real, unit: real, slots: Seq<SlotRecord<N>>, dt: N)
    requires
        rounds_toward_zero(value, unit),
        dt.finite(),
        value(dt) > 0real,
        are_billable(value, slots),
        fits(value, total(bought(value, slots, dt), slots.len()) * 60real),
        fits(value, total(paid(value, slots, dt), slots.len())),
    ensures
        imported_total(slots, dt).finite(),
        total(bought(value, slots, dt), slots.len()) - slots.len() as real * (2real * unit) <= value(
            imported_total(slots, dt),
        ) <= total(bought(value, slots, dt), slots.len()),
        energy_cost(slots, dt).finite(),
        0real <= value(imported_total(slots, dt)),
        0real <= value(energy_cost(slots, dt)),
        total(paid(value, slots, dt), slots.len()) - total(coins(value, unit, slots), slots.len()) <= value(
            energy_cost(slots, dt),
        ) <= total(paid(value, slots, dt), slots.len()),
    decreases slots.len(),
{
    lemma_constants(value, unit);
    let n = slots.len();
    if n == 0 {
        assert(0real * (2real * unit) == 0real) by (nonlinear_arith);
    } else {
        let rest = slots.drop_last();
        let k = (n - 1) as nat;
        let f = bought(value, slots, dt);
        let g = paid(value, slots, dt);
        let c = coins(value, unit, slots);
        let d = value(dt);
        assert forall|i: int| 0 <= i < n implies 0real <= #[trigger] f(i) by {
            assert(slots[i].net_kw.finite());
            lemma_slot_paid(most(value(slots[i].net_kw), 0real), d, value(slots[i].price_usd_per_kwh));
        }
        assert forall|i: int| 0 <= i < n implies 0real <= #[trigger] g(i) by {
            assert(slots[i].net_kw.finite());
            lemma_slot_paid(most(value(slots[i].net_kw), 0real), d, value(slots[i].price_usd_per_kwh));
        }
        lemma_grown(f, n);
        lemma_grown(g, n);
        assert(are_billable(value, rest)) by {
            assert forall|i: int| 0 <= i < rest.len() implies (#[trigger] rest[i]).net_kw.finite()
                && rest[i].price_usd_per_kwh.finite() && 0real <= value(rest[i].price_usd_per_kwh) by {
                assert(rest[i] == slots[i]);
            }
        }
        lemma_same_total(bought(value, rest, dt), f, k);
        lemma_same_total(paid(value, rest, dt), g, k);
        lemma_same_total(coins(value, unit, rest), c, k);
        lemma_closer_fits(value, total(f, k) * 60real, total(f, n) * 60real);
        lemma_closer_fits(value, total(g, k), total(g, n));
        lemma_energy(value, unit, rest, dt);
        let last = slots[n - 1];
        assert(slots.last() == last);
        let net = last.net_kw;
        assert(net.finite());
        lemma_finite(value, unit, net);
        lemma_compare(value, unit, net, zero_of::<N>());
        let x = net.greater(zero_of());
        lemma_closer_fits(value, value(x), value(net));
        lemma_fitting(value, unit, x);
        lemma_closer_fits(value, f(n - 1) * 60real, total(f, n) * 60real);
        let a = value(x);
        assert(a * d / 60real * 60real == a * d);
        lemma_energy_rounded(value, unit, x, dt, f(n - 1));
        let e = imported(last, dt);
        let price = last.price_usd_per_kwh;
        let p = value(price);
        let y = value(e);
        let z = f(n - 1);
        assert(0real <= y * p <= z * p && z * p - 2real * unit * p <= y * p) by (nonlinear_arith)
            requires
                0real <= p,
                0real <= y <= z,
                z - 2real * unit <= y,
        ;
        lemma_closer_fits(value, y * p, total(g, n));
        lemma_times(value, unit, e, price);
        lemma_closer_fits(value, value(imported_total(rest, dt)) + y, total(f, n) * 60real);
        lemma_plus(value, unit, imported_total(rest, dt), e);
        let cost = e.times(price);
        lemma_closer_fits(value, value(energy_cost(rest, dt)) + value(cost), total(g, n));
        lemma_plus(value, unit, energy_cost(rest, dt), cost);
        assert((k + 1) as real * (2real * unit) == k as real * (2real * unit) + 2real * unit) by (nonlinear_arith);
    }
}

/// The energy on the bill is what was bought in all slots, each slot's net load where it is
/// positive over the length of the slot, and its cost is that of each slot at the slot's
/// own price, up to rounding. What is exported earns nothing.
pub proof fn all_energy_is_billed_at_its_price<N: Num>(
    value: spec_fn(N) -> real,
    unit: real,
    sc: ScenarioModel<N>,
    slots: Seq<SlotRecord<N>>,
)
    requires
        rounds_toward_zero(value, unit),
        sc.rules.slot_minutes.finite(),
        value(sc.rules.slot_minutes) > 0real,
        are_billable(value, slots),
        fits(value, total(bought(value, slots, sc.rules.slot_minutes), slots.len()) * 60real),
        fits(value, total(paid(value, slots, sc.rules.slot_minutes), slots.len())),
    ensures
        ({
            let b = bill_of(sc, slots);
            let n = slots.len();
            let kwh = total(bought(value, slots, sc.rules.slot_minutes), n);
            let usd = total(paid(value, slots, sc.rules.slot_minutes), n);
            &&& kwh - n as real * (2real * unit) <= value(b.energy_imported_kwh) <= kwh
            &&& usd - total(coins(value, unit, slots), n) <= value(b.energy_usd) <= usd
        }),
{
    lemma_energy(value, unit, slots, sc.rules.slot_minutes);
}

/// The demand on the bill: each rate on its own peak, over all slots and over the slots of
/// class `peak`, up to a unit each.
pub proof fn demand_is_billed_at_its_peaks<N: Num>(
    value: spec_fn(N) -> real,
    unit: real,
    sc: ScenarioModel<N>,
    slots: Seq<SlotRecord<N>>,
    top: real,
    top_tou: real,
)
    requires
        rounds_toward_zero(value, unit),
        forall|i: int| 0 <= i < slots.len() ==> (#[trigger] slots[i]).net_kw.finite(),
        sc.rules.demand_charge_usd_per_kw.finite() && 0real <= value(sc.rules.demand_charge_usd_per_kw),
        sc.rules.demand_charge_peak_usd_per_kw.finite() && 0real <= value(sc.rules.demand_charge_peak_usd_per_kw),
        is_top(value, slots, false, top),
        is_top(value, slots, true, top_tou),
        fits(
            value,
            value(sc.rules.demand_charge_usd_per_kw) * top + value(sc.rules.demand_charge_peak_usd_per_kw) * top_tou,
        ),
    ensures
        ({
            let b = bill_of(sc, slots);
            let usd = value(sc.rules.demand_charge_usd_per_kw) * top + value(sc.rules.demand_charge_peak_usd_per_kw)
                * top_tou;
            &&& value(b.peak_net_kw) == top
            &&& value(b.peak_net_peak_tou_kw) == top_tou
            &&& usd - 2real * unit <= value(b.demand_usd) <= usd
        }),
{
    lemma_constants(value, unit);
    assert forall|i: int| 0 <= i < slots.len() implies is_number((#[trigger] slots[i]).net_kw) by {
        lemma_finite(value, unit, slots[i].net_kw);
    }
    peaks_bound_the_net_loads(value, unit, slots);
    lemma_top(value, unit, slots, false, top);
    lemma_top(value, unit, slots, true, top_tou);
    let p = peak(slots);
    let q = peak_tou(slots);
    let r = sc.rules.demand_charge_usd_per_kw;
    let s = sc.rules.demand_charge_peak_usd_per_kw;
    lemma_top_fits(value, unit, slots, p);
    lemma_top_fits(value, unit, slots, q);
    let a = value(r) * top;
    let b = value(s) * top_tou;
    assert(0real <= a && 0real <= b) by (nonlinear_arith)
        requires
            a == value(r) * top,
            b == value(s) * top_tou,
            0real <= value(r),
            0real <= value(s),
            0real <= top,
            0real <= top_tou,
    ;
    lemma_closer_fits(value, a, a + b);
    lemma_closer_fits(value, b, a + b);
    lemma_times(value, unit, r, p);
    lemma_times(value, unit, s, q);
    lemma_closer_fits(value, value(r.times(p)) + value(s.times(q)), a + b);
    lemma_plus(value, unit, r.times(p), s.times(q));
}

/// `top` is the largest net load, zero at least; over the slots of class `peak` if `timed`.
pub open spec fn is_top<N: Num>(value: spec_fn(N) -> real, slots: Seq<SlotRecord<N>>, timed: bool, top: real) -> bool {
    &&& 0real <= top
    &&& forall|i: int|
        0 <= i < slots.len() && (timed ==> (#[trigger] slots[i]).tou == TouClass::Peak) ==> value(slots[i].net_kw)
            <= top
    &&& top == 0real || exists|i: int|
        0 <= i < slots.len() && (timed ==> (#[trigger] slots[i]).tou == TouClass::Peak) && value(slots[i].net_kw) == top
}

proof fn lemma_top<N: Num>(value: spec_fn(N) -> real, unit: real, slots: Seq<SlotRecord<N>>, timed: bool, top: real)
    requires
        rounds_toward_zero(value, unit),
        forall|i: int| 0 <= i < slots.len() ==> is_number((#[trigger] slots[i]).net_kw),
        is_top(value, slots, timed, top),
    ensures
        timed ==> value(peak_tou(slots)) == top,
        !timed ==> value(peak(slots)) == top,
{
    peaks_bound_the_net_loads(value, unit, slots);
    let p = if timed {
        value(peak_tou(slots))
    } else {
        value(peak(slots))
    };
    if top != 0real {
        let i = choose|i: int|
            0 <= i < slots.len() && (timed ==> (#[trigger] slots[i]).tou == TouClass::Peak) && value(slots[i].net_kw)
                == top;
        assert(value(slots[i].net_kw) <= p);
    }
    if p != 0real {
        if timed {
            let i = choose|i: int|
                0 <= i < slots.len() && (#[trigger] slots[i]).tou == TouClass::Peak && value(slots[i].net_kw) == value(
                    peak_tou(slots),
                );
            assert(value(slots[i].net_kw) <= top);
        } else {
            let i = choose|i: int|
                0 <= i < slots.len() && value((#[trigger] slots[i]).net_kw) == value(peak(slots));
            assert(value(slots[i].net_kw) <= top);
        }
    }
}

/// A peak that is zero or some net load is finite.
proof fn lemma_top_fits<N: Num>(value: spec_fn(N) -> real, unit: real, slots: Seq<SlotRecord<N>>, p: N)
    requires
        rounds_toward_zero(value, unit),
        is_number(p),
        forall|i: int| 0 <= i < slots.len() ==> (#[trigger] slots[i]).net_kw.finite(),
        value(p) == 0real || exists|i: int| 0 <= i < slots.len() && value((#[trigger] slots[i]).net_kw) == value(p),
    ensures
        p.finite(),
{
    lemma_constants(value, unit);
    if value(p) == 0real {
        lemma_finite(value, unit, zero_of::<N>());
    } else {
        let i = choose|i: int| 0 <= i < slots.len() && value((#[trigger] slots[i]).net_kw) == value(p);
        lemma_finite(value, unit, slots[i].net_kw);
    }
    lemma_fitting(value, unit, p);
}

} // verus!
