//! What policies are shown and what runs are summed up to: forecasts, event windows, firm
//! levels, laxity, the choice of a port, the totals of a summary, what makes a session
//! valid, and where random draws lie.

use vstd::prelude::*;

use crate::dispatch::total;
use crate::energy_of;
use crate::engine::SessionResult;
use crate::negotiation::{rng_next, rng_value};
use crate::num::{count, one_of, zero_of, Num};
use crate::output::{
    banked, clamped_in, count_met, count_unserved, drawn, exported, is_summary, missed, total_of, Summary,
};
use crate::policy::points::covered_slots;
use crate::rounding::{
    fits, has_fractions, is_about, is_number, lemma_closer_fits, lemma_compare, lemma_constants, lemma_finite,
    lemma_minus, lemma_over, lemma_plus, most, rounds_toward_zero,
};
use crate::scenario::{Charger, DrEvent, Vehicle};
use crate::site::{first_vacant, pick_port, service_level};
use crate::state::{ObservationModel, SessionView};
use crate::tariff::{lemma_same_total, lemma_sizes, sizes};
use crate::validation::{is_efficiency, session_is_valid, vehicle_is_finite};

verus! {

// ---------------------------------------------------------------- forecasts

/// The forecast of a past or present slot is what was seen. That of a later slot is what was
/// seen a whole number of days before, as few as lead back to a slot that was seen; where
/// that lies before the first slot, it is the present load.
pub proof fn forecasts_repeat_the_last_day_seen<N: Num>(obs: ObservationModel<N>, slot: int, days: int)
    requires
        obs.slot < obs.building_series.len(),
        0 <= slot,
        slot > obs.slot ==> slot - days * obs.slots_per_day() <= obs.slot < slot - (days - 1) * obs.slots_per_day(),
    ensures
        slot <= obs.slot ==> obs.forecast(slot) == obs.building_series[slot],
        slot > obs.slot && 0 <= slot - days * obs.slots_per_day() ==> obs.forecast(slot) == obs.building_series[slot
            - days * obs.slots_per_day()],
        slot > obs.slot && slot - days * obs.slots_per_day() < 0 ==> obs.forecast(slot) == obs.building_load_kw,
{
    if slot > obs.slot {
        let day = obs.slots_per_day();
        let ahead = slot - obs.slot - 1;
        let q = ahead / day;
        vstd::arithmetic::div_mod::lemma_fundamental_div_mod(ahead, day);
        vstd::arithmetic::div_mod::lemma_mod_bound(ahead, day);
        assert((q + 1) * day == day * q + day) by (nonlinear_arith);
        assert((days - 1) * day == days * day - day) by (nonlinear_arith);
        assert(days == q + 1) by (nonlinear_arith)
            requires
                day > 0,
                (days - 1) * day <= ahead < days * day,
                q * day <= ahead < (q + 1) * day,
        ;
    }
}

/// A day has as many slots as slots fit into it, one at least.
pub proof fn days_are_full_of_slots<N: Num>(obs: ObservationModel<N>)
    ensures
        ({
            let parts = count::<N>(1440).over(obs.slot_minutes);
            obs.slots_per_day() == if parts.whole() == 0 {
                1int
            } else {
                parts.whole() as int
            }
        }),
{
}

// ------------------------------------------------------------------- windows

proof fn lemma_covered<N>(event: DrEvent<N>, n: nat)
    requires
        event.start_slot <= event.end_slot,
    ensures
        covered_slots(event, 0, n) == if n <= event.start_slot {
            0int
        } else if n <= event.end_slot {
            n - 1 - event.start_slot
        } else {
            event.end_slot - event.start_slot
        },
    decreases n,
{
    if n > 0 {
        lemma_covered(event, (n - 1) as nat);
    }
}

/// An event covers as many slots as lie between its start and its end: its last slot is the
/// end, its start belongs to what comes before, and windows of which one starts where the
/// other ends share no slot.
pub proof fn windows_are_open_at_their_start<N>(event: DrEvent<N>, next: DrEvent<N>, n: nat, s: int)
    requires
        event.start_slot < event.end_slot,
        event.end_slot < n,
        next.start_slot == event.end_slot,
    ensures
        covered_slots(event, 0, n) == event.end_slot - event.start_slot,
        event.covers(event.end_slot as int),
        !event.covers(event.start_slot as int),
        !(event.covers(s) && next.covers(s)),
{
    lemma_covered(event, n);
}

/// The firm level that a policy is shown is the lowest of the events that cover the slot.
pub proof fn the_lowest_level_is_shown<N: Num>(
    value: spec_fn(N) -> real,
    unit: real,
    events: Seq<DrEvent<N>>,
    slot: int,
)
    requires
        rounds_toward_zero(value, unit),
        forall|e: int| 0 <= e < events.len() ==> is_number((#[trigger] events[e]).fsl_kw),
    ensures
        match service_level(events, slot) {
            Some(f) => {
                &&& is_number(f)
                &&& forall|e: int|
                    0 <= e < events.len() && (#[trigger] events[e]).start_slot < slot <= events[e].end_slot ==> value(f)
                        <= value(events[e].fsl_kw)
                &&& exists|e: int|
                    0 <= e < events.len() && (#[trigger] events[e]).start_slot < slot <= events[e].end_slot && value(f)
                        == value(events[e].fsl_kw)
            },
            None => forall|e: int|
                0 <= e < events.len() ==> !((#[trigger] events[e]).start_slot < slot <= events[e].end_slot),
        },
    decreases events.len(),
{
    if events.len() > 0 {
        let rest = events.drop_last();
        let last = events.len() - 1;
        assert forall|e: int| 0 <= e < rest.len() implies is_number((#[trigger] rest[e]).fsl_kw) by {
            assert(rest[e] == events[e]);
        }
        the_lowest_level_is_shown(value, unit, rest, slot);
        assert(events[last] == events.last());
        match service_level(rest, slot) {
            Some(f) => {
                lemma_compare(value, unit, f, events[last].fsl_kw);
                let e = choose|e: int|
                    0 <= e < rest.len() && (#[trigger] rest[e]).start_slot < slot <= rest[e].end_slot && value(f)
                        == value(rest[e].fsl_kw);
                assert(events[e] == rest[e]);
                assert(value(f) == value(events[e].fsl_kw));
                if events[last].covers(slot) {
                    assert(value(events[last].fsl_kw) == value(events[last].fsl_kw));
                }
                assert forall|e: int|
                    0 <= e < events.len() && (#[trigger] events[e]).start_slot < slot
                        <= events[e].end_slot implies value(service_level(events, slot)->0) <= value(
                    events[e].fsl_kw,
                ) by {
                    if e < last {
                        assert(rest[e] == events[e]);
                    }
                }
            },
            None => {
                assert forall|e: int| 0 <= e < last implies !((#[trigger] events[e]).start_slot < slot
                    <= events[e].end_slot) by {
                    assert(rest[e] == events[e]);
                }
            },
        }
    }
}

// --------------------------------------------------------------------- ports

proof fn lemma_first_vacant<N: Num>(chargers: Seq<Charger<N>>, free: Seq<bool>, any: bool, n: nat)
    requires
        n <= chargers.len(),
    ensures
        match first_vacant(chargers, free, any, n) {
            Some(c) => 0 <= c < n && free[c] && (any || chargers[c].bidirectional) && forall|d: int|
                0 <= d < c ==> !(#[trigger] free[d] && (any || chargers[d].bidirectional)),
            None => forall|d: int| 0 <= d < n ==> !(#[trigger] free[d] && (any || chargers[d].bidirectional)),
        },
    decreases n,
{
    if n > 0 {
        lemma_first_vacant(chargers, free, any, (n - 1) as nat);
    }
}

/// A car takes the first vacant port that can discharge; where there is none, the first
/// vacant port; where no port is vacant, none.
pub proof fn cars_take_two_way_ports_first<N: Num>(chargers: Seq<Charger<N>>, free: Seq<bool>)
    requires
        free.len() == chargers.len(),
    ensures
        match pick_port(chargers, free) {
            Some(c) => {
                &&& 0 <= c < chargers.len() && free[c]
                &&& chargers[c].bidirectional ==> forall|d: int|
                    0 <= d < c ==> !(#[trigger] free[d] && chargers[d].bidirectional)
                &&& !chargers[c].bidirectional ==> (forall|d: int| 0 <= d < c ==> !#[trigger] free[d]) && forall|d: int|
                    0 <= d < chargers.len() ==> !(#[trigger] free[d] && chargers[d].bidirectional)
            },
            None => forall|d: int| 0 <= d < chargers.len() ==> !#[trigger] free[d],
        },
{
    let n = chargers.len();
    lemma_first_vacant(chargers, free, false, n);
    lemma_first_vacant(chargers, free, true, n);
}

// -------------------------------------------------------------------- laxity

/// How many slots of full power a session still needs: none without a need, without end
/// where a slot adds nothing, else what is needed over what a slot adds, up to a unit.
pub proof fn needs_are_measured_in_slots<N: Num>(
    value: spec_fn(N) -> real,
    unit: real,
    s: SessionView<N>,
    slot_minutes: N,
    charge_efficiency: N,
)
    requires
        rounds_toward_zero(value, unit),
        s.need().finite(),
        ({
            let gain = energy_of(s.max_charge_kw, slot_minutes).times(charge_efficiency);
            &&& gain.finite()
            &&& 0real < value(gain) ==> fits(value, value(s.need()) / value(gain))
        }),
    ensures
        ({
            let gain = energy_of(s.max_charge_kw, slot_minutes).times(charge_efficiency);
            let slots = s.slots_needed(slot_minutes, charge_efficiency);
            let need = value(s.need());
            &&& need <= 0real ==> value(slots) == 0real
            &&& 0real < need && value(gain) <= 0real ==> slots == N::unbounded()
            &&& 0real < need && 0real < value(gain) ==> need / value(gain) - unit <= value(slots) <= need / value(gain)
        }),
{
    lemma_constants(value, unit);
    let gain = energy_of(s.max_charge_kw, slot_minutes).times(charge_efficiency);
    lemma_finite(value, unit, s.need());
    lemma_finite(value, unit, gain);
    lemma_compare(value, unit, s.need(), zero_of::<N>());
    lemma_compare(value, unit, gain, zero_of::<N>());
    if 0real < value(s.need()) && 0real < value(gain) {
        lemma_over(value, unit, s.need(), gain);
    }
}

/// What a session needs is what it lacks to its target, nothing where it has more; it has the
/// slots up to its departure left.
pub proof fn needs_are_what_is_lacking<N: Num>(value: spec_fn(N) -> real, unit: real, s: SessionView<N>, slot: usize)
    requires
        rounds_toward_zero(value, unit),
        s.vehicle.soc_target_kwh.finite(),
        s.soc_kwh.finite(),
        fits(value, value(s.vehicle.soc_target_kwh) - value(s.soc_kwh)),
    ensures
        value(s.need()) == most(value(s.vehicle.soc_target_kwh) - value(s.soc_kwh), 0real),
        slot + s.slots_left(slot) == s.vehicle.departure_slot || (s.slots_left(slot) == 0 && s.vehicle.departure_slot
            < slot),
{
    lemma_constants(value, unit);
    lemma_minus(value, unit, s.vehicle.soc_target_kwh, s.soc_kwh);
    let gap = s.vehicle.soc_target_kwh.minus(s.soc_kwh);
    lemma_finite(value, unit, gap);
    lemma_compare(value, unit, gap, zero_of::<N>());
}

// ------------------------------------------------------------------- summary

/// A quantity of session `i`.
pub open spec fn quantity_at<N: Num>(
    value: spec_fn(N) -> real,
    list: Seq<SessionResult<N>>,
    quantity: spec_fn(SessionResult<N>) -> N,
) -> spec_fn(int) -> real {
    |i: int| value(quantity(list[i]))
}

/// A quantity is finite in every session, and its sum fits.
pub open spec fn adds_up<N: Num>(
    value: spec_fn(N) -> real,
    list: Seq<SessionResult<N>>,
    quantity: spec_fn(SessionResult<N>) -> N,
) -> bool {
    &&& forall|i: int| 0 <= i < list.len() ==> quantity(#[trigger] list[i]).finite()
    &&& fits(value, total(sizes(quantity_at(value, list, quantity)), list.len()))
}

proof fn lemma_total_of<N: Num>(
    value: spec_fn(N) -> real,
    unit: real,
    list: Seq<SessionResult<N>>,
    quantity: spec_fn(SessionResult<N>) -> N,
)
    requires
        rounds_toward_zero(value, unit),
        adds_up(value, list, quantity),
    ensures
        total_of(list, quantity).finite(),
        value(total_of(list, quantity)) == total(quantity_at(value, list, quantity), list.len()),
    decreases list.len(),
{
    lemma_constants(value, unit);
    let n = list.len();
    let f = quantity_at(value, list, quantity);
    if n > 0 {
        let rest = list.drop_last();
        let g = quantity_at(value, rest, quantity);
        let k = (n - 1) as nat;
        assert forall|i: int| 0 <= i < rest.len() implies quantity(#[trigger] rest[i]).finite() by {
            assert(rest[i] == list[i]);
        }
        lemma_same_total(sizes(g), sizes(f), k);
        lemma_same_total(g, f, k);
        lemma_sizes(f, k);
        lemma_sizes(f, n);
        lemma_closer_fits(value, total(sizes(f), k), total(sizes(f), n));
        lemma_total_of(value, unit, rest, quantity);
        assert(list[n - 1] == list.last());
        lemma_closer_fits(value, total(f, n), total(sizes(f), n));
        lemma_plus(value, unit, total_of(rest, quantity), quantity(list.last()));
    }
}

/// One for each session that met its target.
pub open spec fn met<N>(list: Seq<SessionResult<N>>) -> spec_fn(int) -> real {
    |i: int|
        if list[i].target_met {
            1real
        } else {
            0real
        }
}

/// One for each session that never obtained a charger.
pub open spec fn unserved<N>(list: Seq<SessionResult<N>>) -> spec_fn(int) -> real {
    |i: int|
        if list[i].never_connected {
            1real
        } else {
            0real
        }
}

proof fn lemma_counts<N>(list: Seq<SessionResult<N>>)
    ensures
        count_met(list) as real == total(met(list), list.len()),
        count_unserved(list) as real == total(unserved(list), list.len()),
    decreases list.len(),
{
    if list.len() > 0 {
        let rest = list.drop_last();
        lemma_counts(rest);
        lemma_same_total(met(rest), met(list), rest.len());
        lemma_same_total(unserved(rest), unserved(list), rest.len());
        assert(list[list.len() - 1] == list.last());
    }
}

/// A summary counts the sessions of a run, those that met their target and those that were
/// never connected, and adds up what all of them drew, exported, missed, banked and were
/// topped up at arrival, while the sums fit the number type.
pub proof fn summaries_add_up_all_sessions<N: Num>(
    value: spec_fn(N) -> real,
    unit: real,
    s: Summary<N>,
    list: Seq<SessionResult<N>>,
)
    requires
        rounds_toward_zero(value, unit),
        is_summary(s, list),
        adds_up(value, list, drawn()),
        adds_up(value, list, exported()),
        adds_up(value, list, missed()),
        adds_up(value, list, banked()),
        adds_up(value, list, clamped_in()),
    ensures
        s.sessions_total == list.len(),
        s.sessions_target_met as real == total(met(list), list.len()),
        s.sessions_never_connected as real == total(unserved(list), list.len()),
        value(s.energy_drawn_kwh) == total(|i: int| value(list[i].energy_drawn_kwh), list.len()),
        value(s.energy_exported_kwh) == total(|i: int| value(list[i].energy_exported_kwh), list.len()),
        value(s.missing_kwh) == total(|i: int| value(list[i].missing_kwh), list.len()),
        value(s.banked_kwh) == total(|i: int| value(list[i].banked_kwh), list.len()),
        value(s.chain_clamped_kwh) == total(|i: int| value(list[i].chain_clamped_kwh), list.len()),
{
    let n = list.len();
    lemma_counts(list);
    lemma_total_of(value, unit, list, drawn());
    lemma_total_of(value, unit, list, exported());
    lemma_total_of(value, unit, list, missed());
    lemma_total_of(value, unit, list, banked());
    lemma_total_of(value, unit, list, clamped_in());
    lemma_same_total(quantity_at(value, list, drawn()), |i: int| value(list[i].energy_drawn_kwh), n);
    lemma_same_total(quantity_at(value, list, exported()), |i: int| value(list[i].energy_exported_kwh), n);
    lemma_same_total(quantity_at(value, list, missed()), |i: int| value(list[i].missing_kwh), n);
    lemma_same_total(quantity_at(value, list, banked()), |i: int| value(list[i].banked_kwh), n);
    lemma_same_total(quantity_at(value, list, clamped_in()), |i: int| value(list[i].chain_clamped_kwh), n);
}

// ------------------------------------------------------------------ validity

/// A session with finite figures is valid just where it ends after it starts and within the
/// horizon, its floor, its arrival SoC and its target lie within the battery and below its
/// ceiling, it does not arrive below its floor, and its depletion is not negative.
pub proof fn sessions_are_valid_where_they_fit<N: Num>(
    value: spec_fn(N) -> real,
    unit: real,
    v: Vehicle<N>,
    horizon: usize,
)
    requires
        rounds_toward_zero(value, unit),
        vehicle_is_finite(v),
        v.max_soc_kwh matches Some(c) ==> c.finite(),
    ensures
        session_is_valid(v, horizon) <==> {
            let top = match v.max_soc_kwh {
                Some(c) => value(c),
                None => value(v.battery_kwh),
            };
            &&& v.arrival_slot < v.departure_slot <= horizon
            &&& 0real <= value(v.min_soc_kwh) <= value(v.soc_arrival_kwh) <= top <= value(v.battery_kwh)
            &&& 0real <= value(v.soc_target_kwh) <= top
            &&& 0real <= value(v.depletion_kwh)
        },
{
    lemma_constants(value, unit);
    let zero = zero_of::<N>();
    lemma_finite(value, unit, v.battery_kwh);
    lemma_finite(value, unit, v.soc_arrival_kwh);
    lemma_finite(value, unit, v.soc_target_kwh);
    lemma_finite(value, unit, v.min_soc_kwh);
    lemma_finite(value, unit, v.depletion_kwh);
    lemma_compare(value, unit, zero, v.soc_arrival_kwh);
    lemma_compare(value, unit, v.soc_arrival_kwh, v.battery_kwh);
    lemma_compare(value, unit, v.min_soc_kwh, v.soc_arrival_kwh);
    lemma_compare(value, unit, zero, v.soc_target_kwh);
    lemma_compare(value, unit, v.soc_target_kwh, v.battery_kwh);
    lemma_compare(value, unit, zero, v.min_soc_kwh);
    lemma_compare(value, unit, v.min_soc_kwh, v.battery_kwh);
    lemma_compare(value, unit, zero, v.depletion_kwh);
    match v.max_soc_kwh {
        Some(c) => {
            lemma_finite(value, unit, c);
            lemma_compare(value, unit, v.min_soc_kwh, c);
            lemma_compare(value, unit, c, v.battery_kwh);
            lemma_compare(value, unit, v.soc_arrival_kwh, c);
            lemma_compare(value, unit, v.soc_target_kwh, c);
        },
        None => {},
    }
}

/// A finite number is an efficiency just where it lies above zero and not above one.
pub proof fn efficiencies_lie_between_zero_and_one<N: Num>(value: spec_fn(N) -> real, unit: real, x: N)
    requires
        rounds_toward_zero(value, unit),
        x.finite(),
    ensures
        is_efficiency(x) <==> 0real < value(x) <= 1real,
{
    lemma_constants(value, unit);
    lemma_finite(value, unit, x);
    lemma_compare(value, unit, zero_of::<N>(), x);
    lemma_compare(value, unit, x, one_of::<N>());
}

// -------------------------------------------------------------------- draws

/// A draw lies between zero and one, and the generator never comes to rest: a state that is
/// not zero is followed by one that is not zero, and different states by different ones.
pub proof fn draws_lie_between_zero_and_one<N: Num>(value: spec_fn(N) -> real, unit: real, x: u64, y: u64)
    requires
        rounds_toward_zero(value, unit),
        has_fractions(value, unit),
    ensures
        0real - unit <= value(rng_value::<N>(x)) <= 1real + unit,
        x != 0 ==> rng_next(x) != 0,
        rng_next(x) == rng_next(y) ==> x == y,
{
    lemma_constants(value, unit);
    let n = vstd::wrapping::u64_specs::wrapping_mul(x, 0x2545_F491_4F6C_DD1D) >> 11;
    let m = vstd::wrapping::u64_specs::wrapping_mul(x, 0x2545_F491_4F6C_DD1D);
    assert(m >> 11 < 0x20_0000_0000_0000u64) by (bit_vector);
    let d = 0x20_0000_0000_0000u64;
    let a = n as real;
    let b = d as real;
    assert(0real <= a <= b && 0real < b);
    assert(0real <= a / b <= 1real) by (nonlinear_arith)
        requires
            0real <= a <= b,
            0real < b,
    ;
    lemma_finite(value, unit, one_of::<N>());
    lemma_closer_fits(value, a / b, 1real);
    assert(is_about(value, unit, N::rational(n, d), a / b)) by {
        reveal(has_fractions);
    }
    lemma_shifts(x, y);
}

proof fn lemma_shifts(x: u64, y: u64)
    ensures
        x != 0 ==> rng_next(x) != 0,
        rng_next(x) == rng_next(y) ==> x == y,
{
    let a = x ^ (x >> 12);
    let b = a ^ (a << 25);
    let c = b ^ (b >> 27);
    let p = y ^ (y >> 12);
    let q = p ^ (p << 25);
    let r = q ^ (q >> 27);
    assert(b ^ (b >> 27) == q ^ (q >> 27) ==> b == q) by (bit_vector);
    assert(a ^ (a << 25) == p ^ (p << 25) ==> a == p) by (bit_vector);
    assert(x ^ (x >> 12) == y ^ (y >> 12) ==> x == y) by (bit_vector);
    assert(x ^ (x >> 12) == 0 ==> x == 0) by (bit_vector);
    assert(a ^ (a << 25) == 0 ==> a == 0) by (bit_vector);
    assert(b ^ (b >> 27) == 0 ==> b == 0) by (bit_vector);
}

} // verus!
