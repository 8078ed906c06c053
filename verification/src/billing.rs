//! Tariff arithmetic over the simulated net-load series.
//!
//! The bill decomposes as:
//! `total = energy + demand + dr_penalty - dr_incentive`
//!
//! - **Energy**: sum over slots of imported energy times the slot price.
//!   Exported energy (net load below zero) earns nothing: there is no
//!   feed-in compensation.
//! - **Demand**: the demand rate times the maximum slot-average net load
//!   over the billing period.
//! - **DR penalty**: for each demand-response event, the energy above the
//!   committed firm service level within the `(start, end]` window, times the
//!   event's $/kWh penalty rate.
//! - **DR incentive**: paid per kW of committed reduction below the event's
//!   baseline, only if the window was honored (zero overflow).

use vstd::prelude::*;

use crate::engine::SlotRecord;
use crate::num::{zero, zero_of, Num};
use crate::physics::lemma_energy_rounded;
use crate::rounding::{
    fits, is_number, lemma_closer_fits, lemma_compare, lemma_constants, lemma_finite, lemma_fitting, lemma_minus,
    lemma_plus, lemma_times, most, rounds_toward_zero,
};
use crate::scenario::{DrEvent, Scenario, ScenarioModel, TouClass};
use crate::{energy_of, kw_to_kwh};

verus! {

#[derive(Debug, Clone, Copy, PartialEq)]
pub struct DrSettlement<N> {
    pub start_slot: usize,
    pub end_slot: usize,
    pub fsl_kw: N,
    /// Energy above the firm service level inside the window, kWh.
    pub overflow_kwh: N,
    pub penalty_usd: N,
    pub incentive_usd: N,
}

#[derive(Debug, Clone, PartialEq)]
pub struct Bill<N> {
    pub energy_usd: N,
    /// Total demand charge: facilities (all-slots peak) + time-related
    /// (peak-TOU-class peak) components.
    pub demand_usd: N,
    pub demand_facilities_usd: N,
    pub demand_peak_tou_usd: N,
    pub dr_penalty_usd: N,
    pub dr_incentive_usd: N,
    pub total_usd: N,
    /// Peak slot-average net load over the period, kW.
    pub peak_net_kw: N,
    /// Peak slot-average net load over peak-TOU-class slots, kW.
    pub peak_net_peak_tou_kw: N,
    /// Total energy imported from the grid, kWh.
    pub energy_imported_kwh: N,
    pub dr_settlements: Vec<DrSettlement<N>>,
}

/// What a bill says.
#[verifier::ext_equal]
pub struct BillModel<N> {
    pub energy_usd: N,
    pub demand_usd: N,
    pub demand_facilities_usd: N,
    pub demand_peak_tou_usd: N,
    pub dr_penalty_usd: N,
    pub dr_incentive_usd: N,
    pub total_usd: N,
    pub peak_net_kw: N,
    pub peak_net_peak_tou_kw: N,
    pub energy_imported_kwh: N,
    pub dr_settlements: Seq<DrSettlement<N>>,
}

impl<N> View for Bill<N> {
    type V = BillModel<N>;

    open spec fn view(&self) -> BillModel<N> {
        BillModel {
            energy_usd: self.energy_usd,
            demand_usd: self.demand_usd,
            demand_facilities_usd: self.demand_facilities_usd,
            demand_peak_tou_usd: self.demand_peak_tou_usd,
            dr_penalty_usd: self.dr_penalty_usd,
            dr_incentive_usd: self.dr_incentive_usd,
            total_usd: self.total_usd,
            peak_net_kw: self.peak_net_kw,
            peak_net_peak_tou_kw: self.peak_net_peak_tou_kw,
            energy_imported_kwh: self.energy_imported_kwh,
            dr_settlements: self.dr_settlements@,
        }
    }
}

/// Energy bought from the grid in one slot, kWh.
pub open spec fn imported<N: Num>(rec: SlotRecord<N>, dt: N) -> N {
    energy_of(rec.net_kw.greater(zero_of()), dt)
}

/// Energy bought from the grid over all slots, kWh.
pub open spec fn imported_total<N: Num>(slots: Seq<SlotRecord<N>>, dt: N) -> N
    decreases slots.len(),
{
    if slots.len() == 0 {
        zero_of()
    } else {
        imported_total(slots.drop_last(), dt).plus(imported(slots.last(), dt))
    }
}

/// Price of the energy bought over all slots, USD.
pub open spec fn energy_cost<N: Num>(slots: Seq<SlotRecord<N>>, dt: N) -> N
    decreases slots.len(),
{
    if slots.len() == 0 {
        zero_of()
    } else {
        energy_cost(slots.drop_last(), dt).plus(
            imported(slots.last(), dt).times(slots.last().price_usd_per_kwh),
        )
    }
}

/// The largest net load, zero at least, kW.
pub open spec fn peak<N: Num>(slots: Seq<SlotRecord<N>>) -> N
    decreases slots.len(),
{
    if slots.len() == 0 {
        zero_of()
    } else {
        peak(slots.drop_last()).greater(slots.last().net_kw)
    }
}

/// The largest net load over the slots of class `peak`, zero at least, kW.
pub open spec fn peak_tou<N: Num>(slots: Seq<SlotRecord<N>>) -> N
    decreases slots.len(),
{
    if slots.len() == 0 {
        zero_of()
    } else if slots.last().tou == TouClass::Peak {
        peak_tou(slots.drop_last()).greater(slots.last().net_kw)
    } else {
        peak_tou(slots.drop_last())
    }
}

/// Energy above the firm service level of `event` inside its window, kWh.
pub open spec fn overflow<N: Num>(event: DrEvent<N>, slots: Seq<SlotRecord<N>>, dt: N) -> N
    decreases slots.len(),
{
    if slots.len() == 0 {
        zero_of()
    } else if event.covers(slots.last().slot as int) {
        overflow(event, slots.drop_last(), dt).plus(
            energy_of(slots.last().net_kw.minus(event.fsl_kw).greater(zero_of()), dt),
        )
    } else {
        overflow(event, slots.drop_last(), dt)
    }
}

/// Some simulated slot lies in the window of `event`.
pub open spec fn is_covered<N: Num>(event: DrEvent<N>, slots: Seq<SlotRecord<N>>) -> bool {
    exists|i: int| 0 <= i < slots.len() && event.covers((#[trigger] slots[i]).slot as int)
}

/// The overflow up to which a window counts as honored, kWh.
pub open spec fn honored_band<N: Num>() -> N {
    N::rational(1, 1_000_000_000)
}

/// The window was simulated and its overflow is zero up to the band.
pub open spec fn is_honored<N: Num>(event: DrEvent<N>, slots: Seq<SlotRecord<N>>, dt: N) -> bool {
    is_covered(event, slots) && overflow(event, slots, dt).at_most(honored_band())
}

/// What `event` costs and earns.
pub open spec fn settlement<N: Num>(event: DrEvent<N>, slots: Seq<SlotRecord<N>>, dt: N) -> DrSettlement<
    N,
> {
    DrSettlement {
        start_slot: event.start_slot,
        end_slot: event.end_slot,
        fsl_kw: event.fsl_kw,
        overflow_kwh: overflow(event, slots, dt),
        penalty_usd: event.penalty_usd_per_kwh.times(overflow(event, slots, dt)),
        incentive_usd: if is_honored(event, slots, dt) {
            event.incentive_usd_per_kw.times(event.baseline_kw.minus(event.fsl_kw).greater(zero_of()))
        } else {
            zero_of()
        },
    }
}

/// The settlements of all events, in input order.
pub open spec fn settlements<N: Num>(
    events: Seq<DrEvent<N>>,
    slots: Seq<SlotRecord<N>>,
    dt: N,
) -> Seq<DrSettlement<N>> {
    Seq::new(events.len(), |i: int| settlement(events[i], slots, dt))
}

/// The penalties added up, USD.
pub open spec fn penalty_total<N: Num>(settled: Seq<DrSettlement<N>>) -> N
    decreases settled.len(),
{
    if settled.len() == 0 {
        zero_of()
    } else {
        penalty_total(settled.drop_last()).plus(settled.last().penalty_usd)
    }
}

/// The incentives added up, USD.
pub open spec fn incentive_total<N: Num>(settled: Seq<DrSettlement<N>>) -> N
    decreases settled.len(),
{
    if settled.len() == 0 {
        zero_of()
    } else {
        incentive_total(settled.drop_last()).plus(settled.last().incentive_usd)
    }
}

/// The itemized bill of a simulated run.
pub open spec fn bill_of<N: Num>(scenario: ScenarioModel<N>, slots: Seq<SlotRecord<N>>) -> BillModel<N> {
    let dt = scenario.rules.slot_minutes;
    let settled = settlements(scenario.events, slots, dt);
    let facilities = scenario.rules.demand_charge_usd_per_kw.times(peak(slots));
    let time_related = scenario.rules.demand_charge_peak_usd_per_kw.times(peak_tou(slots));
    let demand = facilities.plus(time_related);
    BillModel {
        energy_usd: energy_cost(slots, dt),
        demand_usd: demand,
        demand_facilities_usd: facilities,
        demand_peak_tou_usd: time_related,
        dr_penalty_usd: penalty_total(settled),
        dr_incentive_usd: incentive_total(settled),
        total_usd: energy_cost(slots, dt).plus(demand).plus(penalty_total(settled)).minus(
            incentive_total(settled),
        ),
        peak_net_kw: peak(slots),
        peak_net_peak_tou_kw: peak_tou(slots),
        energy_imported_kwh: imported_total(slots, dt),
        dr_settlements: settled,
    }
}

/// Settles one event.
fn settle<N: Num>(event: &DrEvent<N>, slots: &[SlotRecord<N>], dt_min: N) -> (r: DrSettlement<N>)
    ensures
        r == settlement(*event, slots@, dt_min),
{
    let mut covered: bool = false;
    let mut overflow_kwh: N = zero();
    for i in 0..slots.len()
        invariant
            overflow_kwh == overflow(*event, slots@.take(i as int), dt_min),
            covered == is_covered(*event, slots@.take(i as int)),
    {
        let ghost prev = slots@.take(i as int);
        let ghost next = slots@.take(i + 1);
        assert(next.drop_last() =~= prev);
        assert(next.last() == slots@[i as int]);
        let rec = slots[i];
        if event.contains(rec.slot) {
            covered = true;
            overflow_kwh = overflow_kwh.add(kw_to_kwh(rec.net_kw.sub(event.fsl_kw).max(zero()), dt_min));
            assert(event.covers(next[i as int].slot as int));
        }
        assert(covered == is_covered(*event, next)) by {
            if is_covered(*event, prev) {
                let j = choose|j: int| 0 <= j < prev.len() && event.covers((#[trigger] prev[j]).slot as int);
                assert(next[j] == prev[j]);
            }
            if is_covered(*event, next) && !event.covers(rec.slot as int) {
                let j = choose|j: int| 0 <= j < next.len() && event.covers((#[trigger] next[j]).slot as int);
                assert(prev[j] == next[j]);
            }
        }
    }
    assert(slots@.take(slots@.len() as int) =~= slots@);
    let honored: bool = covered && overflow_kwh.le(N::ratio(1, 1_000_000_000));
    DrSettlement {
        start_slot: event.start_slot,
        end_slot: event.end_slot,
        fsl_kw: event.fsl_kw,
        overflow_kwh,
        penalty_usd: event.penalty_usd_per_kwh.mul(overflow_kwh),
        incentive_usd: if honored {
            event.incentive_usd_per_kw.mul(event.baseline_kw.sub(event.fsl_kw).max(zero()))
        } else {
            zero()
        },
    }
}

/// Compute the itemized bill for a simulated run.
pub fn compute_bill<N: Num>(scenario: &Scenario<N>, slots: &[SlotRecord<N>]) -> (r: Bill<N>)
    ensures
        r@ == bill_of(scenario@, slots@),
{
    let dt_min = scenario.manifest.slot_minutes;
    let mut energy_usd: N = zero();
    let mut energy_imported_kwh: N = zero();
    let mut peak_net_kw: N = zero();
    let mut peak_net_peak_tou_kw: N = zero();
    for i in 0..slots.len()
        invariant
            energy_usd == energy_cost(slots@.take(i as int), dt_min),
            energy_imported_kwh == imported_total(slots@.take(i as int), dt_min),
            peak_net_kw == peak(slots@.take(i as int)),
            peak_net_peak_tou_kw == peak_tou(slots@.take(i as int)),
    {
        assert(slots@.take(i + 1).drop_last() =~= slots@.take(i as int));
        assert(slots@.take(i + 1).last() == slots@[i as int]);
        let rec = slots[i];
        let imported_kwh = kw_to_kwh(rec.net_kw.max(zero()), dt_min);
        energy_imported_kwh = energy_imported_kwh.add(imported_kwh);
        energy_usd = energy_usd.add(imported_kwh.mul(rec.price_usd_per_kwh));
        peak_net_kw = peak_net_kw.max(rec.net_kw);
        if rec.tou == TouClass::Peak {
            peak_net_peak_tou_kw = peak_net_peak_tou_kw.max(rec.net_kw);
        }
    }
    assert(slots@.take(slots@.len() as int) =~= slots@);
    let demand_facilities_usd = scenario.manifest.demand_charge_usd_per_kw.mul(peak_net_kw);
    let demand_peak_tou_usd = scenario.manifest.demand_charge_peak_usd_per_kw.mul(
        peak_net_peak_tou_kw,
    );
    let demand_usd = demand_facilities_usd.add(demand_peak_tou_usd);

    let mut dr_penalty_usd: N = zero();
    let mut dr_incentive_usd: N = zero();
    let mut dr_settlements: Vec<DrSettlement<N>> = Vec::new();
    let ghost settled = settlements(scenario.dr_events@, slots@, dt_min);
    for i in 0..scenario.dr_events.len()
        invariant
            settled == settlements(scenario.dr_events@, slots@, dt_min),
            dr_settlements@ == settled.take(i as int),
            dr_penalty_usd == penalty_total(settled.take(i as int)),
            dr_incentive_usd == incentive_total(settled.take(i as int)),
    {
        let s = settle(&scenario.dr_events[i], slots, dt_min);
        assert(settled[i as int] == s);
        assert(settled.take(i + 1).drop_last() =~= settled.take(i as int));
        dr_penalty_usd = dr_penalty_usd.add(s.penalty_usd);
        dr_incentive_usd = dr_incentive_usd.add(s.incentive_usd);
        dr_settlements.push(s);
        assert(dr_settlements@ =~= settled.take(i + 1));
    }
    assert(settled.take(settled.len() as int) =~= settled);
    Bill {
        energy_usd,
        demand_usd,
        demand_facilities_usd,
        demand_peak_tou_usd,
        dr_penalty_usd,
        dr_incentive_usd,
        total_usd: energy_usd.add(demand_usd).add(dr_penalty_usd).sub(dr_incentive_usd),
        peak_net_kw,
        peak_net_peak_tou_kw,
        energy_imported_kwh,
        dr_settlements,
    }
}

// -------------------------------------------------------------------- laws

/// The bill adds up: the total is energy plus demand plus penalties less
/// incentives, and demand is its two components, each a rate times its peak.
pub proof fn the_bill_adds_up<N: Num>(scenario: ScenarioModel<N>, slots: Seq<SlotRecord<N>>)
    ensures
        ({
            let b = bill_of(scenario, slots);
            &&& b.total_usd == b.energy_usd.plus(b.demand_usd).plus(b.dr_penalty_usd).minus(
                b.dr_incentive_usd,
            )
            &&& b.demand_usd == b.demand_facilities_usd.plus(b.demand_peak_tou_usd)
            &&& b.demand_facilities_usd == scenario.rules.demand_charge_usd_per_kw.times(b.peak_net_kw)
            &&& b.demand_peak_tou_usd == scenario.rules.demand_charge_peak_usd_per_kw.times(
                b.peak_net_peak_tou_kw,
            )
        }),
{
}

/// Nothing is lost in the total while the sums fit the number type.
pub proof fn the_total_is_exact<N: Num>(
    value: spec_fn(N) -> real,
    unit: real,
    scenario: ScenarioModel<N>,
    slots: Seq<SlotRecord<N>>,
)
    requires
        rounds_toward_zero(value, unit),
        ({
            let b = bill_of(scenario, slots);
            let bought = value(b.energy_usd) + value(b.demand_usd);
            &&& b.energy_usd.finite() && b.demand_usd.finite()
            &&& b.dr_penalty_usd.finite() && b.dr_incentive_usd.finite()
            &&& fits(value, bought)
            &&& fits(value, bought + value(b.dr_penalty_usd))
            &&& fits(value, bought + value(b.dr_penalty_usd) - value(b.dr_incentive_usd))
        }),
    ensures
        ({
            let b = bill_of(scenario, slots);
            value(b.total_usd) == value(b.energy_usd) + value(b.demand_usd) + value(b.dr_penalty_usd) - value(
                b.dr_incentive_usd,
            )
        }),
{
    let b = bill_of(scenario, slots);
    lemma_plus(value, unit, b.energy_usd, b.demand_usd);
    lemma_plus(value, unit, b.energy_usd.plus(b.demand_usd), b.dr_penalty_usd);
    lemma_minus(value, unit, b.energy_usd.plus(b.demand_usd).plus(b.dr_penalty_usd), b.dr_incentive_usd);
}

/// The peak is the least number that is at least zero and at least every net
/// load; the peak over slots of class `peak` likewise over those slots, so it is
/// never above the overall peak.
pub proof fn peaks_bound_the_net_loads<N: Num>(
    value: spec_fn(N) -> real,
    unit: real,
    slots: Seq<SlotRecord<N>>,
)
    requires
        rounds_toward_zero(value, unit),
        forall|i: int| 0 <= i < slots.len() ==> is_number((#[trigger] slots[i]).net_kw),
    ensures
        is_number(peak(slots)) && is_number(peak_tou(slots)),
        value(peak(slots)) >= 0real,
        value(peak_tou(slots)) >= 0real,
        value(peak_tou(slots)) <= value(peak(slots)),
        forall|i: int|
            0 <= i < slots.len() ==> value((#[trigger] slots[i]).net_kw) <= value(peak(slots)) && (
            slots[i].tou == TouClass::Peak ==> value(slots[i].net_kw) <= value(peak_tou(slots))),
        value(peak(slots)) == 0real || exists|i: int|
            0 <= i < slots.len() && value((#[trigger] slots[i]).net_kw) == value(peak(slots)),
        value(peak_tou(slots)) == 0real || exists|i: int|
            0 <= i < slots.len() && (#[trigger] slots[i]).tou == TouClass::Peak && value(slots[i].net_kw)
                == value(peak_tou(slots)),
    decreases slots.len(),
{
    lemma_constants(value, unit);
    if slots.len() > 0 {
        let rest = slots.drop_last();
        let last = slots.len() - 1;
        assert forall|i: int| 0 <= i < rest.len() implies is_number((#[trigger] rest[i]).net_kw) by {
            assert(rest[i] == slots[i]);
        }
        peaks_bound_the_net_loads(value, unit, rest);
        assert(slots[last] == slots.last());
        assert(is_number(slots[last].net_kw));
        lemma_compare(value, unit, peak(rest), slots[last].net_kw);
        lemma_compare(value, unit, peak_tou(rest), slots[last].net_kw);
        assert forall|i: int| 0 <= i < slots.len() implies value((#[trigger] slots[i]).net_kw) <= value(
            peak(slots),
        ) && (slots[i].tou == TouClass::Peak ==> value(slots[i].net_kw) <= value(peak_tou(slots))) by {
            if i < last {
                assert(rest[i] == slots[i]);
            }
        }
        if value(peak(slots)) != 0real {
            if value(peak(rest)) <= value(slots[last].net_kw) {
                assert(value(slots[last].net_kw) == value(peak(slots)));
            } else {
                let i = choose|i: int|
                    0 <= i < rest.len() && value((#[trigger] rest[i]).net_kw) == value(peak(rest));
                assert(slots[i] == rest[i]);
            }
        }
        if value(peak_tou(slots)) != 0real {
            if slots[last].tou == TouClass::Peak && value(peak_tou(rest)) <= value(slots[last].net_kw) {
                assert(value(slots[last].net_kw) == value(peak_tou(slots)));
            } else {
                let i = choose|i: int|
                    0 <= i < rest.len() && (#[trigger] rest[i]).tou == TouClass::Peak && value(
                        rest[i].net_kw,
                    ) == value(peak_tou(rest));
                assert(slots[i] == rest[i]);
            }
        }
    }
}

/// The energy above the firm service level in the covered slots, kWh: the
/// positive part of the net load above the level times the length of the slot.
pub open spec fn breach<N: Num>(
    value: spec_fn(N) -> real,
    event: DrEvent<N>,
    slots: Seq<SlotRecord<N>>,
    dt: N,
) -> real
    decreases slots.len(),
{
    if slots.len() == 0 {
        0real
    } else if event.covers(slots.last().slot as int) {
        breach(value, event, slots.drop_last(), dt) + most(
            value(slots.last().net_kw) - value(event.fsl_kw),
            0real,
        ) * value(dt) / 60real
    } else {
        breach(value, event, slots.drop_last(), dt)
    }
}

/// The net load kept to the firm service level in every covered slot.
pub open spec fn is_kept<N: Num>(value: spec_fn(N) -> real, event: DrEvent<N>, slots: Seq<SlotRecord<N>>) -> bool {
    forall|i: int|
        0 <= i < slots.len() && event.covers((#[trigger] slots[i]).slot as int) ==> value(slots[i].net_kw)
            <= value(event.fsl_kw)
}

/// Net loads and their distance to the firm service level are numbers that fit.
pub open spec fn are_comparable<N: Num>(
    value: spec_fn(N) -> real,
    event: DrEvent<N>,
    slots: Seq<SlotRecord<N>>,
) -> bool {
    &&& event.fsl_kw.finite()
    &&& forall|i: int|
        0 <= i < slots.len() ==> (#[trigger] slots[i]).net_kw.finite() && fits(
            value,
            value(slots[i].net_kw) - value(event.fsl_kw),
        )
}

proof fn lemma_part(a: real, d: real)
    by (nonlinear_arith)
    requires
        0real <= a,
        0real < d,
    ensures
        0real <= a * d / 60real,
        a * d == (a * d / 60real) * 60real,
        a == 0real ==> a * d == 0real,
{
}

/// The overflow of an event is the energy above its firm service level in the
/// covered slots, up to two units for each slot; it is zero where the level was
/// kept.
pub proof fn overflow_measures_the_breach<N: Num>(
    value: spec_fn(N) -> real,
    unit: real,
    event: DrEvent<N>,
    slots: Seq<SlotRecord<N>>,
    dt: N,
)
    requires
        rounds_toward_zero(value, unit),
        dt.finite(),
        value(dt) > 0real,
        are_comparable(value, event, slots),
        fits(value, breach(value, event, slots, dt) * 60real),
    ensures
        overflow(event, slots, dt).finite(),
        0real <= value(overflow(event, slots, dt)) <= breach(value, event, slots, dt),
        breach(value, event, slots, dt) - slots.len() as real * (2real * unit) <= value(
            overflow(event, slots, dt),
        ),
        is_kept(value, event, slots) ==> breach(value, event, slots, dt) == 0real,
    decreases slots.len(),
{
    lemma_constants(value, unit);
    if slots.len() == 0 {
        assert(0real * (2real * unit) == 0real) by (nonlinear_arith);
    } else {
        let rest = slots.drop_last();
        let n = rest.len();
        assert((n + 1) as real * (2real * unit) == n as real * (2real * unit) + 2real * unit)
            by (nonlinear_arith);
        assert(slots[n as int] == slots.last());
        assert forall|i: int| 0 <= i < rest.len() implies (#[trigger] rest[i]).net_kw.finite() && fits(
            value,
            value(rest[i].net_kw) - value(event.fsl_kw),
        ) by {
            assert(rest[i] == slots[i]);
        }
        if is_kept(value, event, slots) {
            assert forall|i: int| 0 <= i < rest.len() && event.covers((#[trigger] rest[i]).slot as int) implies value(
                rest[i].net_kw,
            ) <= value(event.fsl_kw) by {
                assert(rest[i] == slots[i]);
            }
        }
        let net = slots.last().net_kw;
        let above = net.minus(event.fsl_kw);
        let x = above.greater(zero_of());
        let all = breach(value, event, slots, dt);
        let before = breach(value, event, rest, dt);
        lemma_minus(value, unit, net, event.fsl_kw);
        lemma_finite(value, unit, above);
        lemma_compare(value, unit, above, zero_of::<N>());
        let a = most(value(net) - value(event.fsl_kw), 0real);
        let d = value(dt);
        lemma_part(a, d);
        lemma_breach_is_positive(value, event, rest, dt);
        lemma_closer_fits(value, before * 60real, all * 60real);
        overflow_measures_the_breach(value, unit, event, rest, dt);
        if event.covers(slots.last().slot as int) {
            lemma_closer_fits(value, value(x), value(above));
            lemma_fitting(value, unit, x);
            lemma_closer_fits(value, a * d / 60real * 60real, all * 60real);
            lemma_energy_rounded(value, unit, x, dt, a * d / 60real);
            let e = energy_of(x, dt);
            lemma_closer_fits(value, value(overflow(event, rest, dt)) + value(e), all * 60real);
            lemma_plus(value, unit, overflow(event, rest, dt), e);
        }
    }
}

proof fn lemma_breach_is_positive<N: Num>(
    value: spec_fn(N) -> real,
    event: DrEvent<N>,
    slots: Seq<SlotRecord<N>>,
    dt: N,
)
    requires
        value(dt) > 0real,
    ensures
        0real <= breach(value, event, slots, dt),
    decreases slots.len(),
{
    if slots.len() > 0 {
        lemma_breach_is_positive(value, event, slots.drop_last(), dt);
        lemma_part(most(value(slots.last().net_kw) - value(event.fsl_kw), 0real), value(dt));
    }
}

/// An incentive is paid only on a window that was simulated and honored, and then
/// it is the rate times the committed reduction below the baseline. A simulated
/// window whose net load kept to its level in every slot is honored, and costs no
/// penalty.
pub proof fn incentives_need_an_honored_window<N: Num>(
    value: spec_fn(N) -> real,
    unit: real,
    event: DrEvent<N>,
    slots: Seq<SlotRecord<N>>,
    dt: N,
)
    requires
        rounds_toward_zero(value, unit),
        dt.finite(),
        value(dt) > 0real,
        are_comparable(value, event, slots),
        fits(value, breach(value, event, slots, dt) * 60real),
        event.penalty_usd_per_kwh.finite(),
        0real <= value(event.penalty_usd_per_kwh),
    ensures
        ({
            let s = settlement(event, slots, dt);
            &&& !is_honored(event, slots, dt) ==> s.incentive_usd == zero_of::<N>()
            &&& is_honored(event, slots, dt) ==> is_covered(event, slots) && s.incentive_usd
                == event.incentive_usd_per_kw.times(
                event.baseline_kw.minus(event.fsl_kw).greater(zero_of()),
            )
            &&& is_kept(value, event, slots) ==> value(s.overflow_kwh) == 0real && value(s.penalty_usd)
                == 0real && (is_covered(event, slots) ==> is_honored(event, slots, dt))
        }),
{
    lemma_constants(value, unit);
    overflow_measures_the_breach(value, unit, event, slots, dt);
    let o = overflow(event, slots, dt);
    lemma_finite(value, unit, o);
    lemma_compare(value, unit, o, honored_band::<N>());
    lemma_times(value, unit, event.penalty_usd_per_kwh, o);
    let p = value(event.penalty_usd_per_kwh);
    assert(p * 0real == 0real) by (nonlinear_arith);
}

} // verus!
