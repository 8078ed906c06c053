//! What the heuristics do with their figures: where the threshold comes from, who is served
//! first, how charging tapers, and what each policy asks of a car.

use vstd::prelude::*;

use crate::fixed::{sign, Fixed};
use crate::num::{count, one_of, zero_of, Num};
use crate::order::{ranks_consistently, stable_order, stable_order_is_arrangement, stable_order_is_sorted, Ranked};
use crate::physics::lemma_power;
use crate::policy::heuristics::{
    are_close, budget_rate, charge_pass, constant_rate, discharge_pass, eligible_rows, forced, forced_rate, full_power,
    is_eligible, is_forced, is_over, is_under, largest_load, off_peak_only, percent, ratchet, row_of, scheduled,
    serving_rows, tapered, threshold_of, time_left, two_passes, walk, Row, SortKey, Walk,
};
use crate::power_of;
use crate::rounding::{
    fits, fixed_value, has_fractions, has_measures, is_about, is_number, least, lemma_closer_fits, lemma_compare,
    lemma_constants, lemma_finite, lemma_fitting, lemma_minus, lemma_negated, lemma_over, lemma_plus, lemma_times,
    most, rounds_toward_zero,
};
use crate::scenario::{TouClass, Vehicle};
use crate::service::{lemma_ask, lemma_power_loss, slot_loss};
use crate::state::{ObservationModel, SessionView, Setpoint};
use crate::threshold::{are_distinct_rows, lemma_serving_rows};

verus! {

// ------------------------------------------------------------- the threshold

/// The largest of loads is one of them and not below any.
proof fn lemma_largest_load<N: Num>(value: spec_fn(N) -> real, unit: real, series: Seq<N>, n: nat)
    requires
        rounds_toward_zero(value, unit),
        has_fractions(value, unit),
        n <= series.len(),
        forall|s: int| 0 <= s < n ==> (#[trigger] series[s]).finite(),
    ensures
        is_number(largest_load(series, n)),
        forall|s: int| 0 <= s < n ==> value(#[trigger] series[s]) <= value(largest_load(series, n)),
        n > 0 ==> exists|s: int| 0 <= s < n && value(#[trigger] series[s]) == value(largest_load(series, n)),
        n == 0 ==> forall|b: N| (#[trigger] b.finite()) ==> value(largest_load(series, n)) <= value(b),
    decreases n,
{
    reveal(has_fractions);
    if n > 0 {
        let m = (n - 1) as nat;
        lemma_largest_load(value, unit, series, m);
        let last = series[n - 1];
        assert(last.finite());
        lemma_finite(value, unit, last);
        lemma_compare(value, unit, largest_load(series, m), last);
        if value(largest_load(series, m)) <= value(last) {
            assert(value(series[n - 1]) == value(largest_load(series, n)));
        } else {
            let s = choose|s: int| 0 <= s < m && value(#[trigger] series[s]) == value(largest_load(series, m));
            assert(value(series[s]) == value(largest_load(series, n)));
        }
    }
}

/// Without a threshold in the manifest, the first decision of an episode starts from four
/// fifths of the largest building load of the episode, up to rounding.
pub proof fn seeds_are_four_fifths_of_the_largest_load<N: Num>(
    value: spec_fn(N) -> real,
    unit: real,
    kept: Option<N>,
    obs: ObservationModel<N>,
    s: int,
)
    requires
        rounds_toward_zero(value, unit),
        has_fractions(value, unit),
        unit <= 1real / 5real,
        obs.heuristic_threshold_kw is None,
        kept is None || obs.slot == 0,
        forall|t: int| 0 <= t < obs.building_series.len() ==> (#[trigger] obs.building_series[t]).finite(),
        0 <= s < obs.building_series.len(),
        forall|t: int|
            0 <= t < obs.building_series.len() ==> value(#[trigger] obs.building_series[t]) <= value(
                obs.building_series[s],
            ),
    ensures
        ({
            let load = value(obs.building_series[s]);
            let threshold = threshold_of(kept, obs);
            let slack = unit * (most(load, 0real - load) + 1real);
            &&& threshold.finite()
            &&& load * 4real / 5real - slack <= value(threshold) <= load * 4real / 5real + slack
        }),
{
    lemma_constants(value, unit);
    let series = obs.building_series;
    let n = series.len();
    lemma_largest_load(value, unit, series, n);
    let top = largest_load(series, n);
    let at = choose|t: int| 0 <= t < n && value(#[trigger] series[t]) == value(top);
    assert(value(series[at]) <= value(series[s]));
    let y = value(top);
    assert(y == value(series[s]));
    lemma_finite(value, unit, series[s]);
    lemma_fitting(value, unit, top);
    let r = N::rational(4, 5);
    lemma_finite(value, unit, one_of::<N>());
    lemma_closer_fits(value, 4real / 5real, 1real);
    assert(is_about(value, unit, r, 4real / 5real) && is_about(value, unit, r.times(top), value(r) * y)) by {
        reveal(has_fractions);
        assert(4u64 as real / 5u64 as real == 4real / 5real);
        assert(is_about(value, unit, r, 4u64 as real / 5u64 as real));
        assert(r.finite());
    }
    let k = value(r);
    let size = most(y, 0real - y);
    assert(0real - size <= k * y <= size && y * 4real / 5real - unit * size <= k * y <= y * 4real / 5real + unit * size)
        by (nonlinear_arith)
        requires
            4real / 5real - unit <= k <= 4real / 5real + unit,
            0real <= unit <= 1real / 5real,
            size == y && 0real <= y || size == 0real - y && y <= 0real,
    {
        if 0real <= y {
            assert((4real / 5real - unit) * y <= k * y <= (4real / 5real + unit) * y);
            assert(unit * y <= 1real / 5real * y);
        } else {
            let z = 0real - y;
            assert((4real / 5real - unit) * z <= k * z <= (4real / 5real + unit) * z);
            assert(unit * z <= 1real / 5real * z);
            assert(k * y == 0real - k * z);
        }
    }
    if 0real <= y {
        lemma_closer_fits(value, k * y, y);
    } else {
        lemma_closer_fits(value, k * y, y);
    }
    assert(unit * (size + 1real) == unit * size + unit) by (nonlinear_arith);
}

/// The threshold of the manifest starts an episode, and what was reached is kept within it.
pub proof fn thresholds_are_seeded_once<N: Num>(kept: N, obs: ObservationModel<N>, seed: N)
    ensures
        obs.slot > 0 ==> threshold_of(Some(kept), obs) == kept,
        obs.slot == 0 && obs.heuristic_threshold_kw == Some(seed) ==> threshold_of(Some(kept), obs) == seed,
        obs.heuristic_threshold_kw == Some(seed) ==> threshold_of(None, obs) == seed,
{
}

// --------------------------------------------------------- the serving order

/// Keys that are numbers rank consistently.
proof fn lemma_rows_rank<N: Num>(value: spec_fn(N) -> real, unit: real, rows: Seq<Row<N>>, descending: bool)
    requires
        rounds_toward_zero(value, unit),
        forall|i: int|
            0 <= i < rows.len() ==> is_number((#[trigger] rows[i]).key) && rows[i].descending == descending,
    ensures
        ranks_consistently(rows),
        forall|i: int, j: int|
            #![trigger rows[i], rows[j]]
            0 <= i < rows.len() && 0 <= j < rows.len() && !Ranked::ahead(&rows[j], &rows[i]) ==> if descending {
                value(rows[j].key) <= value(rows[i].key)
            } else {
                value(rows[i].key) <= value(rows[j].key)
            } && (value(rows[i].key) == value(rows[j].key) ==> rows[i].vehicle_id <= rows[j].vehicle_id),
{
    assert forall|i: int, j: int| 0 <= i < rows.len() && 0 <= j < rows.len() implies {
        &&& (#[trigger] rows[i]).key.below((#[trigger] rows[j]).key) <==> value(rows[i].key) < value(rows[j].key)
        &&& rows[j].key.below(rows[i].key) <==> value(rows[j].key) < value(rows[i].key)
    } by {
        lemma_compare(value, unit, rows[i].key, rows[j].key);
        lemma_compare(value, unit, rows[j].key, rows[i].key);
    }
}

/// The eligible rows carry the keys of their sessions.
proof fn lemma_keyed<N: Num>(key: SortKey, threshold: N, obs: ObservationModel<N>, n: nat)
    requires
        n <= obs.sessions.len(),
    ensures
        forall|r: int|
            0 <= r < eligible_rows(key, threshold, obs, n).len() ==> exists|k: int|
                0 <= k < n && (#[trigger] eligible_rows(key, threshold, obs, n)[r]) == row_of(
                    key,
                    threshold,
                    obs,
                    #[trigger] obs.sessions[k],
                ),
    decreases n,
{
    if n > 0 {
        let m = (n - 1) as nat;
        lemma_keyed(key, threshold, obs, m);
        let before = eligible_rows(key, threshold, obs, m);
        let rows = eligible_rows(key, threshold, obs, n);
        assert forall|r: int| 0 <= r < rows.len() implies exists|k: int|
            0 <= k < n && (#[trigger] rows[r]) == row_of(key, threshold, obs, #[trigger] obs.sessions[k]) by {
            if r < before.len() {
                assert(rows[r] == before[r]);
                let k = choose|k: int|
                    0 <= k < m && before[r] == row_of(key, threshold, obs, #[trigger] obs.sessions[k]);
                assert(rows[r] == row_of(key, threshold, obs, obs.sessions[k]));
            } else {
                assert(rows[r] == row_of(key, threshold, obs, obs.sessions[n - 1]));
            }
        }
    }
}

/// LLF serves cars that have less time left first, EDF cars under more pressure first, both
/// the lower vehicle among equals.
pub proof fn cars_are_served_in_their_order<N: Num>(
    value: spec_fn(N) -> real,
    unit: real,
    key: SortKey,
    threshold: N,
    obs: ObservationModel<N>,
    i: int,
    j: int,
)
    requires
        rounds_toward_zero(value, unit),
        obs.sessions.len() <= usize::MAX,
        forall|k: int|
            0 <= k < obs.sessions.len() ==> is_number(
                row_of(key, threshold, obs, #[trigger] obs.sessions[k]).key,
            ),
        0 <= i < j < serving_rows(key, threshold, obs).len(),
    ensures
        ({
            let a = serving_rows(key, threshold, obs)[i];
            let b = serving_rows(key, threshold, obs)[j];
            &&& key == SortKey::TimeLeft ==> value(a.time_left_sec) <= value(b.time_left_sec)
            &&& key == SortKey::TimeLeft && value(a.time_left_sec) == value(b.time_left_sec) ==> a.vehicle_id
                <= b.vehicle_id
            &&& key == SortKey::DeadlinePressure ==> value(b.key) <= value(a.key)
            &&& key == SortKey::DeadlinePressure && value(a.key) == value(b.key) ==> a.vehicle_id <= b.vehicle_id
        }),
{
    let n = obs.sessions.len();
    let rows = eligible_rows(key, threshold, obs, n);
    lemma_keyed(key, threshold, obs, n);
    lemma_few_rows(key, threshold, obs, n);
    assert forall|r: int| 0 <= r < rows.len() implies is_number((#[trigger] rows[r]).key) && rows[r].descending == (key
        == SortKey::DeadlinePressure) && (key == SortKey::TimeLeft ==> rows[r].key == rows[r].time_left_sec) by {
        let k = choose|k: int| 0 <= k < n && rows[r] == row_of(key, threshold, obs, #[trigger] obs.sessions[k]);
        assert(is_number(row_of(key, threshold, obs, obs.sessions[k]).key));
    }
    lemma_rows_rank(value, unit, rows, key == SortKey::DeadlinePressure);
    stable_order_is_sorted(rows, rows.len());
    stable_order_is_arrangement(rows, rows.len());
    let order = stable_order(rows);
    assert(order[i] < rows.len() && order[j] < rows.len());
    let a = rows[order[i] as int];
    let b = rows[order[j] as int];
    assert(!Ranked::ahead(&b, &a));
}

proof fn lemma_few_rows<N: Num>(key: SortKey, threshold: N, obs: ObservationModel<N>, n: nat)
    ensures
        eligible_rows(key, threshold, obs, n).len() <= n,
    decreases n,
{
    if n > 0 {
        lemma_few_rows(key, threshold, obs, (n - 1) as nat);
    }
}

/// Deadline pressure grows with what a car still needs: of two cars with the same limit and
/// the same time left, under a threshold above the building, the one that needs more is
/// under no less pressure.
pub proof fn pressure_grows_with_the_need<N: Num>(
    value: spec_fn(N) -> real,
    unit: real,
    threshold: N,
    obs: ObservationModel<N>,
    i: int,
    j: int,
)
    requires
        rounds_toward_zero(value, unit),
        has_measures(value),
        ({
            let a = obs.sessions[i];
            let b = obs.sessions[j];
            let na = a.vehicle.soc_target_kwh.minus(a.soc_kwh);
            let nb = b.vehicle.soc_target_kwh.minus(b.soc_kwh);
            let room = threshold.minus(obs.building_load_kw).times(time_left(obs, a));
            &&& a.vehicle.departure_slot == b.vehicle.departure_slot
            &&& a.max_charge_kw == b.max_charge_kw
            &&& a.max_charge_kw.finite() && 0real <= value(a.max_charge_kw)
            &&& na.finite() && nb.finite() && 0real <= value(na) <= value(nb)
            &&& count::<N>(100).finite() && 0real <= value(count::<N>(100))
            &&& room.finite() && 0real < value(room)
            &&& fits(value, value(nb) * value(count::<N>(100)))
            &&& fits(value, value(nb) * value(count::<N>(100)) * value(a.max_charge_kw))
            &&& commutes(value)
        }),
    ensures
        value(row_of(SortKey::DeadlinePressure, threshold, obs, obs.sessions[i]).key) <= value(
            row_of(SortKey::DeadlinePressure, threshold, obs, obs.sessions[j]).key,
        ),
{
    reveal(has_measures);
    let a = obs.sessions[i];
    let b = obs.sessions[j];
    let na = a.vehicle.soc_target_kwh.minus(a.soc_kwh);
    let nb = b.vehicle.soc_target_kwh.minus(b.soc_kwh);
    let hundred = count::<N>(100);
    let limit = a.max_charge_kw;
    let h = value(hundred);
    let l = value(limit);
    let x = value(na);
    let y = value(nb);
    assert(hundred.times(na) == na.times(hundred) && hundred.times(nb) == nb.times(hundred));
    assert(value(na.times(hundred)) <= value(nb.times(hundred)));
    assert(0real <= x * h <= y * h) by (nonlinear_arith)
        requires
            0real <= x <= y,
            0real <= h,
    ;
    lemma_closer_fits(value, x * h, y * h);
    lemma_times(value, unit, na, hundred);
    lemma_times(value, unit, nb, hundred);
    let p = na.times(hundred);
    let q = nb.times(hundred);
    assert(0real <= value(p) * l <= y * h * l && 0real <= value(q) * l <= y * h * l) by (nonlinear_arith)
        requires
            0real <= value(p) <= y * h,
            0real <= value(q) <= y * h,
            0real <= l,
    ;
    lemma_closer_fits(value, value(p) * l, y * h * l);
    lemma_closer_fits(value, value(q) * l, y * h * l);
    lemma_times(value, unit, p, limit);
    lemma_times(value, unit, q, limit);
    assert(value(p.times(limit)) <= value(q.times(limit)));
}

/// The order of factors does not matter.
pub open spec fn commutes<N: Num>(value: spec_fn(N) -> real) -> bool {
    forall|a: N, b: N| #[trigger] a.times(b) == b.times(a)
}

// ------------------------------------------------------------------ the taper

/// Charging tapers above nine tenths of the capacity: a rate is taken as asked up to there,
/// by a tenth less for each percent above, not at all above the vehicle's own ceiling.
/// Discharging is taken as asked down to the floor, and not at all below it.
pub proof fn rates_taper_above_ninety_percent<N: Num>(
    value: spec_fn(N) -> real,
    unit: real,
    v: Vehicle<N>,
    soc_kwh: N,
    rate_kw: N,
)
    requires
        rounds_toward_zero(value, unit),
        has_fractions(value, unit),
        has_measures(value),
        rate_kw.finite(),
        percent(soc_kwh, v).finite(),
        percent(v.ceiling(), v).finite(),
        percent(v.min_soc_kwh, v).finite(),
        value(percent(soc_kwh, v)) <= 100real,
        fits(value, value(rate_kw) + 11real * unit),
        fits(value, 0real - value(rate_kw) - 11real * unit),
    ensures
        ({
            let p = value(percent(soc_kwh, v));
            let taken = value(tapered(v, soc_kwh, rate_kw));
            let rate = value(rate_kw);
            &&& 0real < rate && p <= value(percent(v.ceiling(), v)) && p <= 90real ==> taken == rate
            &&& 0real < rate && p <= value(percent(v.ceiling(), v)) && 90real < p ==> rate * (100real - p) / 10real
                - 11real * unit <= taken <= rate * (100real - p) / 10real + 11real * unit
            &&& 0real < rate && value(percent(v.ceiling(), v)) < p ==> taken == 0real
            &&& rate < 0real && value(percent(v.min_soc_kwh, v)) <= p ==> taken == rate
            &&& rate < 0real && p < value(percent(v.min_soc_kwh, v)) ==> taken == 0real
            &&& rate == 0real ==> taken == 0real
        }),
{
    lemma_constants(value, unit);
    let soc = percent(soc_kwh, v);
    lemma_finite(value, unit, soc);
    lemma_finite(value, unit, rate_kw);
    lemma_finite(value, unit, percent(v.ceiling(), v));
    lemma_finite(value, unit, percent(v.min_soc_kwh, v));
    lemma_compare(value, unit, zero_of::<N>(), rate_kw);
    lemma_compare(value, unit, rate_kw, zero_of::<N>());
    lemma_compare(value, unit, soc, percent(v.ceiling(), v));
    lemma_compare(value, unit, percent(v.min_soc_kwh, v), soc);
    lemma_small_counts::<N>(value, unit);
    let ninety = count::<N>(90);
    let ten = count::<N>(10);
    lemma_finite(value, unit, ninety);
    lemma_compare(value, unit, soc, ninety);
    let p = value(soc);
    let rate = value(rate_kw);
    if 0real < rate && 90real < p {
        lemma_negated(value, unit, rate_kw);
        lemma_closer_fits(value, (0real - rate) / 10real, rate);
        let slope = rate_kw.negated().over(ten);
        assert(is_about(value, unit, slope, (0real - rate) / 10real)) by {
            reveal(has_fractions);
        }
        lemma_closer_fits(value, p - 90real, p);
        lemma_minus(value, unit, soc, ninety);
        let over = soc.minus(ninety);
        let a = value(slope);
        let b = value(over);
        assert(0real - rate * b / 10real - 10real * unit <= a * b <= 0real - rate * b / 10real + 10real * unit
            && 0real - rate - 10real * unit <= a * b <= 10real * unit) by (nonlinear_arith)
            requires
                (0real - rate) / 10real - unit <= a <= (0real - rate) / 10real + unit,
                0real <= b <= 10real,
                0real <= unit,
                0real < rate,
        {
            assert(((0real - rate) / 10real - unit) * b <= a * b);
            assert(a * b <= ((0real - rate) / 10real + unit) * b);
            assert(unit * b <= unit * 10real);
            assert(((0real - rate) / 10real) * b == 0real - rate * b / 10real);
            assert(0real <= rate * b / 10real);
            assert(rate * b <= rate * 10real);
        }
        lemma_closer_fits(value, a * b, 0real - rate - 11real * unit);
        let bend = slope.times(over);
        assert(is_about(value, unit, bend, a * b)) by {
            reveal(has_fractions);
        }
        lemma_closer_fits(value, value(bend) + rate, rate + 11real * unit);
        lemma_plus(value, unit, bend, rate_kw);
        assert(rate * (100real - p) / 10real == rate - rate * (p - 90real) / 10real) by (nonlinear_arith);
    }
}

/// The whole numbers of the taper.
pub(crate) proof fn lemma_small_counts<N: Num>(value: spec_fn(N) -> real, unit: real)
    requires
        rounds_toward_zero(value, unit),
        has_measures(value),
    ensures
        count::<N>(90).finite() && value(count::<N>(90)) == 90real,
        count::<N>(10).finite() && value(count::<N>(10)) == 10real,
        count::<N>(100).finite() && value(count::<N>(100)) == 100real,
        count::<N>(3600).finite() && value(count::<N>(3600)) == 3600real,
{
    reveal(has_measures);
    lemma_closer_fits(value, 90real, 3600real);
    lemma_closer_fits(value, 10real, 3600real);
    lemma_closer_fits(value, 100real, 3600real);
    assert(count::<N>(90) == N::rational(90u64, 1) && 90u64 as real == 90real);
    assert(count::<N>(10) == N::rational(10u64, 1) && 10u64 as real == 10real);
    assert(count::<N>(100) == N::rational(100u64, 1) && 100u64 as real == 100real);
    assert(count::<N>(3600) == N::rational(3600u64, 1) && 3600u64 as real == 3600real);
}

// --------------------------------------------------------- policies 1 and 2

/// The power that a list asks last for session `index`, if it asks for it.
pub open spec fn asked_last<N>(out: Seq<Setpoint<N>>, index: usize) -> Option<N>
    decreases out.len(),
{
    if out.len() == 0 {
        None
    } else if out.last().session_index == index {
        Some(out.last().power_kw)
    } else {
        asked_last(out.drop_last(), index)
    }
}

proof fn lemma_asked_join<N>(a: Seq<Setpoint<N>>, b: Seq<Setpoint<N>>, index: usize)
    ensures
        asked_last(a + b, index) == match asked_last(b, index) {
            Some(kw) => Some(kw),
            None => asked_last(a, index),
        },
    decreases b.len(),
{
    if b.len() == 0 {
        assert(a + b =~= a);
    } else {
        assert((a + b).drop_last() =~= a + b.drop_last());
        assert((a + b).last() == b.last());
        lemma_asked_join(a, b.drop_last(), index);
    }
}

/// Each shown session is found under its own index.
pub open spec fn are_in_place<N>(obs: ObservationModel<N>) -> bool {
    &&& obs.sessions.len() <= usize::MAX
    &&& forall|k: int| 0 <= k < obs.sessions.len() ==> (#[trigger] obs.sessions[k]).index == k
}

proof fn lemma_charge_pass<N: Num>(obs: ObservationModel<N>, n: nat, k: int)
    requires
        are_in_place(obs),
        n <= obs.sessions.len(),
        0 <= k < obs.sessions.len(),
    ensures
        asked_last(charge_pass(obs, n), k as usize) == if k < n && is_under(
            obs.sessions[k],
            obs.sessions[k].vehicle.ceiling(),
        ) {
            Some(
                if obs.tou == TouClass::Peak {
                    zero_of::<N>()
                } else {
                    tapered(obs.sessions[k].vehicle, obs.sessions[k].soc_kwh, obs.sessions[k].max_charge_kw)
                },
            )
        } else {
            None
        },
    decreases n,
{
    if n > 0 {
        lemma_charge_pass(obs, (n - 1) as nat, k);
        let s = obs.sessions[n - 1];
        assert(s.index == n - 1);
        if is_under(s, s.vehicle.ceiling()) {
            assert(charge_pass(obs, n).drop_last() =~= charge_pass(obs, (n - 1) as nat));
        }
    }
}

proof fn lemma_discharge_pass<N: Num>(obs: ObservationModel<N>, n: nat, k: int)
    requires
        are_in_place(obs),
        n <= obs.sessions.len(),
        0 <= k < obs.sessions.len(),
    ensures
        asked_last(discharge_pass(obs, n), k as usize) == if k < n && is_over(
            obs.sessions[k],
            obs.sessions[k].vehicle.soc_target_kwh,
        ) {
            Some(
                if obs.tou == TouClass::Peak {
                    tapered(
                        obs.sessions[k].vehicle,
                        obs.sessions[k].soc_kwh,
                        obs.sessions[k].max_discharge_kw.negated(),
                    )
                } else {
                    zero_of::<N>()
                },
            )
        } else {
            None
        },
    decreases n,
{
    if n > 0 {
        lemma_discharge_pass(obs, (n - 1) as nat, k);
        let s = obs.sessions[n - 1];
        assert(s.index == n - 1);
        if is_over(s, s.vehicle.soc_target_kwh) {
            assert(discharge_pass(obs, n).drop_last() =~= discharge_pass(obs, (n - 1) as nat));
        }
    }
}

proof fn lemma_off_peak_only<N: Num>(obs: ObservationModel<N>, n: nat, k: int)
    requires
        are_in_place(obs),
        n <= obs.sessions.len(),
        0 <= k < obs.sessions.len(),
    ensures
        asked_last(off_peak_only(obs, n), k as usize) == if k < n && is_under(
            obs.sessions[k],
            obs.sessions[k].vehicle.ceiling(),
        ) {
            Some(
                if obs.tou == TouClass::OffPeak {
                    tapered(obs.sessions[k].vehicle, obs.sessions[k].soc_kwh, obs.sessions[k].max_charge_kw)
                } else {
                    zero_of::<N>()
                },
            )
        } else {
            None
        },
    decreases n,
{
    if n > 0 {
        lemma_off_peak_only(obs, (n - 1) as nat, k);
        let s = obs.sessions[n - 1];
        assert(s.index == n - 1);
        if is_under(s, s.vehicle.ceiling()) {
            assert(off_peak_only(obs, n).drop_last() =~= off_peak_only(obs, (n - 1) as nat));
        }
    }
}

/// What the tolerance of the SoC percentages leaves: a car is under a limit just where its
/// percentage is below that of the limit by more than a tenth and a hundred-thousandth of
/// it, up to rounding.
pub proof fn nearness_is_a_tenth_of_a_percent<N: Num>(value: spec_fn(N) -> real, unit: real, a: N, b: N)
    requires
        rounds_toward_zero(value, unit),
        has_measures(value),
        has_fractions(value, unit),
        a.finite(),
        b.finite(),
        0real <= value(a) <= 100real,
        0real <= value(b) <= 100real,
        unit <= 1real,
    ensures
        ({
            let gap = most(value(a) - value(b), value(b) - value(a));
            let band = 1real / 10real + value(b) / 100_000real;
            &&& are_close(a, b) ==> gap <= band + 102real * unit
            &&& gap <= band - 102real * unit ==> are_close(a, b)
        }),
{
    lemma_constants(value, unit);
    let tenth = N::rational(1, 10);
    let small = N::rational(1, 100_000);
    let size = b.magnitude();
    let gap = a.minus(b).magnitude();
    assert(fits(value, 3600real) && size.finite() && value(size) == value(b) && tenth.finite() && small.finite()) by {
        reveal(has_measures);
    }
    lemma_closer_fits(value, value(a) - value(b), 3600real);
    lemma_minus(value, unit, a, b);
    assert(gap.finite() && value(gap) == most(value(a) - value(b), value(b) - value(a))) by {
        reveal(has_measures);
    }
    lemma_closer_fits(value, 1real / 10real, 3600real);
    lemma_closer_fits(value, 1real / 100_000real, 3600real);
    assert(is_about(value, unit, tenth, 1real / 10real) && is_about(value, unit, small, 1real / 100_000real)) by {
        reveal(has_fractions);
        assert(1u64 as real / 10u64 as real == 1real / 10real);
        assert(1u64 as real / 100_000u64 as real == 1real / 100_000real);
        assert(is_about(value, unit, tenth, 1u64 as real / 10u64 as real));
        assert(is_about(value, unit, small, 1u64 as real / 100_000u64 as real));
    }
    let x = value(small);
    let y = value(b);
    assert(y / 100_000real - 100real * unit <= x * y <= y / 100_000real + 100real * unit && 0real - 200real <= x * y
        <= 200real) by (nonlinear_arith)
        requires
            1real / 100_000real - unit <= x <= 1real / 100_000real + unit,
            0real <= y <= 100real,
            0real <= unit <= 1real,
    {
        assert((1real / 100_000real - unit) * y <= x * y <= (1real / 100_000real + unit) * y);
        assert(unit * y <= unit * 100real);
    }
    lemma_closer_fits(value, x * y, 3600real);
    let more = small.times(size);
    assert(is_about(value, unit, more, x * y)) by {
        reveal(has_fractions);
    }
    lemma_closer_fits(value, value(tenth) + value(more), 3600real);
    lemma_plus(value, unit, tenth, more);
    lemma_finite(value, unit, gap);
    lemma_finite(value, unit, tenth.plus(more));
    lemma_compare(value, unit, gap, tenth.plus(more));
}

/// Policy 1: in slots of class `peak` nothing charges and a car clearly above its target
/// gives all that it can; in other slots nothing discharges, such a car is stopped, and
/// every other car clearly below its ceiling charges with all that it can take.
pub proof fn policy_1_charges_off_peak_and_discharges_at_peak<N: Num>(obs: ObservationModel<N>, k: int)
    requires
        are_in_place(obs),
        0 <= k < obs.sessions.len(),
    ensures
        ({
            let s = obs.sessions[k];
            let asked = asked_last(two_passes(obs), k as usize);
            let above = is_over(s, s.vehicle.soc_target_kwh);
            let below = is_under(s, s.vehicle.ceiling());
            &&& obs.tou == TouClass::Peak && above ==> asked == Some(
                tapered(s.vehicle, s.soc_kwh, s.max_discharge_kw.negated()),
            )
            &&& obs.tou == TouClass::Peak && !above ==> asked is None || asked == Some(zero_of::<N>())
            &&& obs.tou != TouClass::Peak && above ==> asked == Some(zero_of::<N>())
            &&& obs.tou != TouClass::Peak && !above && below ==> asked == Some(
                tapered(s.vehicle, s.soc_kwh, s.max_charge_kw),
            )
            &&& !above && !below ==> asked is None
        }),
{
    let n = obs.sessions.len();
    lemma_asked_join(charge_pass(obs, n), discharge_pass(obs, n), k as usize);
    lemma_charge_pass(obs, n, k);
    lemma_discharge_pass(obs, n, k);
}

/// Policy 2: a car clearly below its ceiling charges with all that it can take in slots of
/// class `off_peak`, and nothing charges in other slots; nothing ever discharges.
pub proof fn policy_2_charges_in_off_peak_slots_only<N: Num>(obs: ObservationModel<N>, k: int)
    requires
        are_in_place(obs),
        0 <= k < obs.sessions.len(),
    ensures
        ({
            let s = obs.sessions[k];
            let asked = asked_last(off_peak_only(obs, obs.sessions.len()), k as usize);
            let below = is_under(s, s.vehicle.ceiling());
            &&& obs.tou == TouClass::OffPeak && below ==> asked == Some(
                tapered(s.vehicle, s.soc_kwh, s.max_charge_kw),
            )
            &&& obs.tou != TouClass::OffPeak ==> asked is None || asked == Some(zero_of::<N>())
            &&& !below ==> asked is None
        }),
{
    lemma_off_peak_only(obs, obs.sessions.len(), k);
}

/// A car is clearly under a limit just where its percentage is below that of the limit by
/// more than the tolerance, and clearly over it just where it is above by more, up to
/// rounding.
pub proof fn under_and_over_are_beyond_the_tolerance<N: Num>(
    value: spec_fn(N) -> real,
    unit: real,
    s: SessionView<N>,
    limit_kwh: N,
)
    requires
        rounds_toward_zero(value, unit),
        has_measures(value),
        has_fractions(value, unit),
        unit <= 1real,
        percent(s.soc_kwh, s.vehicle).finite(),
        percent(limit_kwh, s.vehicle).finite(),
        0real <= value(percent(s.soc_kwh, s.vehicle)) <= 100real,
        0real <= value(percent(limit_kwh, s.vehicle)) <= 100real,
    ensures
        ({
            let a = value(percent(s.soc_kwh, s.vehicle));
            let b = value(percent(limit_kwh, s.vehicle));
            let band = 1real / 10real + b / 100_000real;
            &&& band + 102real * unit < b - a ==> is_under(s, limit_kwh)
            &&& is_under(s, limit_kwh) ==> a < b && band - 102real * unit < b - a
            &&& band + 102real * unit < a - b ==> is_over(s, limit_kwh)
            &&& is_over(s, limit_kwh) ==> b < a && band - 102real * unit < a - b
        }),
{
    lemma_constants(value, unit);
    let a = percent(s.soc_kwh, s.vehicle);
    let b = percent(limit_kwh, s.vehicle);
    lemma_finite(value, unit, a);
    lemma_finite(value, unit, b);
    lemma_compare(value, unit, a, b);
    lemma_compare(value, unit, b, a);
    nearness_is_a_tenth_of_a_percent(value, unit, a, b);
}

/// The order of factors does not matter to fixed-point numbers.
pub proof fn fixed_products_commute()
    ensures
        commutes(fixed_value()),
{
    assert forall|a: Fixed, b: Fixed| #[trigger] a.times(b) == b.times(a) by {
        assert(a.millionths * b.millionths == b.millionths * a.millionths) by (nonlinear_arith);
        let x = sign(a.millionths as int);
        let y = sign(b.millionths as int);
        assert(x * y == y * x) by (nonlinear_arith);
    }
}

// ------------------------------------------------------------------ baselines

/// The uncontrolled baseline asks for no more than the limit, and for no more than fills the
/// need in one slot; where it asks for less than the limit it fills the need, up to rounding.
pub proof fn uncontrolled_fills_the_need_and_no_more<N: Num>(
    value: spec_fn(N) -> real,
    unit: real,
    obs: ObservationModel<N>,
    s: SessionView<N>,
)
    requires
        rounds_toward_zero(value, unit),
        s.need().finite() && 0real <= value(s.need()),
        s.max_charge_kw.finite() && 0real <= value(s.max_charge_kw),
        obs.slot_minutes.finite() && 1real <= value(obs.slot_minutes),
        obs.charge_efficiency.finite() && 0real < value(obs.charge_efficiency) <= 1real,
        fits(value, value(s.need()) / value(obs.charge_efficiency)),
        fits(value, value(s.need()) / value(obs.charge_efficiency) * 60real),
    ensures
        ({
            let p = value(full_power(obs, s));
            let d = value(obs.slot_minutes);
            let gain = p * d / 60real * value(obs.charge_efficiency);
            &&& 0real <= p <= value(s.max_charge_kw)
            &&& gain <= value(s.need())
            &&& p == value(s.max_charge_kw) || value(s.need()) - slot_loss(d, unit) <= gain
        }),
{
    lemma_constants(value, unit);
    let need = s.need();
    let eta = obs.charge_efficiency;
    let dt = obs.slot_minutes;
    let x = value(need);
    let n = value(eta);
    let d = value(dt);
    lemma_finite(value, unit, need);
    lemma_finite(value, unit, s.max_charge_kw);
    lemma_compare(value, unit, zero_of::<N>(), need);
    assert(0real * d / 60real * n == 0real) by (nonlinear_arith);
    if 0real < x {
        lemma_over(value, unit, need, eta);
        let q = need.over(eta);
        lemma_closer_fits(value, value(q) * 60real, x / n * 60real);
        lemma_power(value, unit, q, dt);
        lemma_power_loss(value, unit, q, dt);
        let full = power_of(q, dt);
        lemma_compare(value, unit, full, s.max_charge_kw);
        let p = value(full_power(obs, s));
        lemma_ask(p, value(s.max_charge_kw), x, value(q), n, d, unit);
        assert(p * d / 60real * n <= x) by (nonlinear_arith)
            requires
                p <= value(full),
                value(full) * d <= value(q) * 60real,
                value(q) <= x / n,
                0real < n,
                1real <= d,
        {
            assert(p * d <= value(full) * d);
            assert(p * d / 60real <= x / n);
            assert((p * d / 60real) * n <= (x / n) * n);
            assert((x / n) * n == x);
        }
        let limit = value(s.max_charge_kw);
        if p != limit {
            assert(p == value(full));
            assert(x - slot_loss(d, unit) <= p * d / 60real * n) by {
                lemma_ask(p, p + 1real, x, value(q), n, d, unit);
                assert(!((p + 1real) * d / 60real * n <= p * d / 60real * n)) by (nonlinear_arith)
                    requires
                        1real <= d,
                        0real < n,
                {
                    assert((p + 1real) * d == p * d + d);
                    assert((p * d + d) / 60real == p * d / 60real + d / 60real);
                    assert((p * d / 60real + d / 60real) * n == p * d / 60real * n + d / 60real * n);
                    assert(0real < d / 60real * n);
                }
            }
        }
    } else {
        assert(0real <= slot_loss(d, unit)) by (nonlinear_arith)
            requires
                1real <= d,
                0real <= unit,
        ;
    }
}

/// Policy 0 paces a car: below the taper it asks for no more than the limit, and for no more
/// than reaches the target by departure at that rate.
pub proof fn policy_0_paces_the_car<N: Num>(
    value: spec_fn(N) -> real,
    unit: real,
    obs: ObservationModel<N>,
    s: SessionView<N>,
)
    requires
        rounds_toward_zero(value, unit),
        has_measures(value),
        ({
            let need = s.vehicle.soc_target_kwh.minus(s.soc_kwh);
            let hours = time_left(obs, s).over(count(3600));
            &&& need.finite() && 0real <= value(need)
            &&& hours.finite() && 0real < value(hours)
            &&& fits(value, value(need) / value(hours))
        }),
        s.max_charge_kw.finite() && 0real <= value(s.max_charge_kw),
        percent(s.soc_kwh, s.vehicle).finite(),
        percent(s.vehicle.ceiling(), s.vehicle).finite(),
        value(percent(s.soc_kwh, s.vehicle)) <= 90real,
    ensures
        ({
            let p = value(constant_rate(obs, s));
            let need = value(s.vehicle.soc_target_kwh.minus(s.soc_kwh));
            let hours = value(time_left(obs, s).over(count(3600)));
            &&& 0real <= p <= value(s.max_charge_kw)
            &&& p * hours <= need
        }),
{
    lemma_constants(value, unit);
    lemma_small_counts::<N>(value, unit);
    let need = s.vehicle.soc_target_kwh.minus(s.soc_kwh);
    let hours = time_left(obs, s).over(count(3600));
    let h = value(hours);
    let x = value(need);
    assert(0real * h == 0real) by (nonlinear_arith);
    if is_under(s, s.vehicle.soc_target_kwh) {
        lemma_over(value, unit, need, hours);
        let rate = need.over(hours);
        lemma_finite(value, unit, rate);
        lemma_finite(value, unit, s.max_charge_kw);
        lemma_compare(value, unit, s.max_charge_kw, rate);
        let capped = if s.max_charge_kw.below(rate) {
            s.max_charge_kw
        } else {
            rate
        };
        lemma_compare(value, unit, capped, zero_of::<N>());
        lemma_compare(value, unit, zero_of::<N>(), capped);
        let soc = percent(s.soc_kwh, s.vehicle);
        lemma_finite(value, unit, soc);
        lemma_finite(value, unit, count::<N>(90));
        lemma_finite(value, unit, percent(s.vehicle.ceiling(), s.vehicle));
        lemma_compare(value, unit, soc, count::<N>(90));
        lemma_compare(value, unit, soc, percent(s.vehicle.ceiling(), s.vehicle));
        let p = value(constant_rate(obs, s));
        assert(p * h <= x) by (nonlinear_arith)
            requires
                p <= x / h,
                0real < h,
        {
            assert(p * h <= (x / h) * h);
            assert((x / h) * h == x);
        }
    }
}

// ---------------------------------------------------------------- last hours

/// What the walk asks of a row that it reaches with budget left is what the row needs, at
/// most its limit; a row that got that much counts as served.
proof fn lemma_forced_asks<N: Num>(
    key: SortKey,
    threshold: N,
    obs: ObservationModel<N>,
    w: Walk<N>,
    rows: Seq<Row<N>>,
    n: nat,
    r: int,
)
    requires
        are_distinct_rows(key, threshold, obs, rows),
        0 <= r < rows.len(),
        n <= rows.len(),
    ensures
        asked_last(forced(obs, w, rows, n).out, rows[r].session_index) == if r < n && is_forced(rows[r], w.served) {
            Some(forced_rate(obs, rows[r]))
        } else {
            asked_last(w.out, rows[r].session_index)
        },
    decreases n,
{
    if n > 0 {
        let m = (n - 1) as nat;
        lemma_forced_asks(key, threshold, obs, w, rows, m, r);
        let before = forced(obs, w, rows, m);
        if is_forced(rows[m as int], w.served) {
            let all = forced(obs, w, rows, n);
            assert(all.out.drop_last() =~= before.out);
            if r != m {
                assert(rows[r].session_index != rows[m as int].session_index);
            }
        }
    }
}

/// In its last hour an eligible car that the budget did not serve is asked for the rate that
/// it needs, whatever the budget: up to its charging limit where that is positive, and up
/// to its discharging limit where it is negative.
pub proof fn the_last_hour_is_forced<N: Num>(
    value: spec_fn(N) -> real,
    unit: real,
    key: SortKey,
    threshold: N,
    obs: ObservationModel<N>,
    r: int,
)
    requires
        rounds_toward_zero(value, unit),
        has_measures(value),
        are_in_place(obs),
        0 <= r < serving_rows(key, threshold, obs).len(),
        ({
            let rows = serving_rows(key, threshold, obs);
            let row = rows[r];
            &&& row.time_left_sec.finite() && value(row.time_left_sec) < 3600real
            &&& !walk(obs, threshold, rows, rows.len()).served.contains(row.vehicle_id)
            &&& row.min_rate_needed_kw.finite()
            &&& row.max_charge_kw.finite() && 0real <= value(row.max_charge_kw)
            &&& row.max_discharge_kw.finite() && 0real <= value(row.max_discharge_kw)
        }),
    ensures
        ({
            let row = serving_rows(key, threshold, obs)[r];
            let s = obs.sessions[row.session_index as int];
            let needed = value(row.min_rate_needed_kw);
            exists|x: N|
                asked_last(scheduled(key, threshold, obs).out, row.session_index) == Some(
                    #[trigger] tapered(s.vehicle, s.soc_kwh, x),
                ) && value(x) == if 0real < needed {
                    least(needed, value(row.max_charge_kw))
                } else {
                    most(needed, 0real - value(row.max_discharge_kw))
                }
        }),
{
    lemma_constants(value, unit);
    lemma_small_counts::<N>(value, unit);
    let rows = serving_rows(key, threshold, obs);
    let row = rows[r];
    lemma_serving_rows(key, threshold, obs);
    let w = walk(obs, threshold, rows, rows.len());
    lemma_finite(value, unit, row.time_left_sec);
    lemma_finite(value, unit, count::<N>(3600));
    lemma_compare(value, unit, row.time_left_sec, count::<N>(3600));
    lemma_forced_asks(key, threshold, obs, w, rows, rows.len(), r);
    let needed = row.min_rate_needed_kw;
    lemma_finite(value, unit, needed);
    lemma_finite(value, unit, row.max_charge_kw);
    lemma_compare(value, unit, zero_of::<N>(), needed);
    lemma_compare(value, unit, needed, row.max_charge_kw);
    lemma_negated(value, unit, row.max_discharge_kw);
    lemma_finite(value, unit, row.max_discharge_kw.negated());
    lemma_compare(value, unit, needed, row.max_discharge_kw.negated());
    let x = if zero_of::<N>().below(needed) {
        needed.lesser(row.max_charge_kw)
    } else {
        needed.greater(row.max_discharge_kw.negated())
    };
    let s = obs.sessions[row.session_index as int];
    assert(forced_rate(obs, row) == tapered(s.vehicle, s.soc_kwh, x));
}

/// A row asks for no negative rate, and tapering neither raises its rate nor turns it.
pub open spec fn is_modest<N: Num>(value: spec_fn(N) -> real, obs: ObservationModel<N>, row: Row<N>) -> bool {
    let s = obs.sessions[row.session_index as int];
    &&& row.min_rate_needed_kw.finite() && 0real <= value(row.min_rate_needed_kw)
    &&& row.max_charge_kw.finite() && 0real <= value(row.max_charge_kw)
    &&& forall|x: N|
        x.finite() && 0real <= value(x) ==> (#[trigger] tapered(s.vehicle, s.soc_kwh, x)).finite() && 0real <= value(
            tapered(s.vehicle, s.soc_kwh, x),
        ) <= value(x)
}

/// What cars that need to charge are handed out of the budget never exceeds it: what was used
/// and what is left make up the room between threshold and building, and neither is
/// negative.
pub proof fn the_budget_is_never_exceeded<N: Num>(
    value: spec_fn(N) -> real,
    unit: real,
    threshold: N,
    obs: ObservationModel<N>,
    rows: Seq<Row<N>>,
    n: nat,
)
    requires
        rounds_toward_zero(value, unit),
        n <= rows.len(),
        threshold.finite() && obs.building_load_kw.finite(),
        fits(value, value(threshold) - value(obs.building_load_kw)),
        0real <= value(threshold) - value(obs.building_load_kw),
        forall|r: int| 0 <= r < rows.len() ==> is_modest(value, obs, #[trigger] rows[r]),
        forall|r: int|
            0 <= r < rows.len() ==> fits(
                value,
                value(threshold) - value(obs.building_load_kw) + value((#[trigger] rows[r]).min_rate_needed_kw),
            ),
    ensures
        ({
            let w = walk(obs, threshold, rows, n);
            let room = value(threshold) - value(obs.building_load_kw);
            &&& w.capacity.finite() && w.used.finite()
            &&& 0real <= value(w.used) && 0real <= value(w.capacity)
            &&& value(w.used) + value(w.capacity) == room
        }),
    decreases n,
{
    lemma_constants(value, unit);
    let room = value(threshold) - value(obs.building_load_kw);
    if n == 0 {
        lemma_minus(value, unit, threshold, obs.building_load_kw);
    } else {
        let m = (n - 1) as nat;
        the_budget_is_never_exceeded(value, unit, threshold, obs, rows, m);
        let w = walk(obs, threshold, rows, m);
        let row = rows[m as int];
        assert(is_modest(value, obs, row));
        lemma_finite(value, unit, w.capacity);
        lemma_compare(value, unit, w.capacity, zero_of::<N>());
        if !w.capacity.at_most(zero_of()) {
            let s = obs.sessions[row.session_index as int];
            let needed = row.min_rate_needed_kw;
            lemma_finite(value, unit, needed);
            lemma_finite(value, unit, row.max_charge_kw);
            lemma_closer_fits(value, value(w.used) + value(needed), room + value(needed));
            lemma_plus(value, unit, w.used, needed);
            lemma_finite(value, unit, w.used.plus(needed));
            lemma_compare(value, unit, w.capacity, w.used.plus(needed));
            lemma_compare(value, unit, needed, w.capacity);
            let clipped = if w.capacity.below(w.used.plus(needed)) {
                needed.lesser(w.capacity)
            } else {
                needed
            };
            lemma_compare(value, unit, clipped, row.max_charge_kw);
            let asked = clipped.lesser(row.max_charge_kw);
            lemma_closer_fits(value, value(asked), value(row.max_charge_kw));
            lemma_fitting(value, unit, asked);
            let rate = budget_rate(obs, w, row);
            assert(rate == tapered(s.vehicle, s.soc_kwh, asked));
            lemma_closer_fits(value, value(w.used) + value(rate), room);
            lemma_plus(value, unit, w.used, rate);
            lemma_closer_fits(value, value(w.capacity) - value(rate), room);
            lemma_minus(value, unit, w.capacity, rate);
        }
    }
}

// --------------------------------------------------------------- eligibility

/// A car is eligible just where its SoC lies below its target in slots of class `peak`, and
/// below its ceiling in other slots.
pub proof fn cars_are_eligible_below_target_or_ceiling<N: Num>(
    value: spec_fn(N) -> real,
    unit: real,
    obs: ObservationModel<N>,
    s: SessionView<N>,
)
    requires
        rounds_toward_zero(value, unit),
        s.soc_kwh.finite(),
        s.vehicle.soc_target_kwh.finite(),
        s.vehicle.ceiling().finite(),
    ensures
        is_eligible(obs, s) <==> value(s.soc_kwh) < if obs.tou == TouClass::Peak {
            value(s.vehicle.soc_target_kwh)
        } else {
            value(s.vehicle.ceiling())
        },
{
    lemma_finite(value, unit, s.soc_kwh);
    lemma_finite(value, unit, s.vehicle.soc_target_kwh);
    lemma_finite(value, unit, s.vehicle.ceiling());
    lemma_compare(value, unit, s.soc_kwh, s.vehicle.soc_target_kwh);
    lemma_compare(value, unit, s.soc_kwh, s.vehicle.ceiling());
}

/// The rows are those of eligible sessions.
proof fn lemma_all_eligible<N: Num>(key: SortKey, threshold: N, obs: ObservationModel<N>, n: nat)
    requires
        are_in_place(obs),
        n <= obs.sessions.len(),
    ensures
        forall|r: int|
            0 <= r < eligible_rows(key, threshold, obs, n).len() ==> (#[trigger] eligible_rows(
                key,
                threshold,
                obs,
                n,
            )[r]).session_index < n && is_eligible(
                obs,
                obs.sessions[eligible_rows(key, threshold, obs, n)[r].session_index as int],
            ),
    decreases n,
{
    if n > 0 {
        let m = (n - 1) as nat;
        lemma_all_eligible(key, threshold, obs, m);
        let before = eligible_rows(key, threshold, obs, m);
        let rows = eligible_rows(key, threshold, obs, n);
        assert(obs.sessions[m as int].index == m);
        assert forall|r: int| 0 <= r < rows.len() implies (#[trigger] rows[r]).session_index < n && is_eligible(
            obs,
            obs.sessions[rows[r].session_index as int],
        ) by {
            if r < before.len() {
                assert(rows[r] == before[r]);
            }
        }
    }
}

/// Every setpoint is for some row.
spec fn are_for_rows<N: Num>(out: Seq<Setpoint<N>>, rows: Seq<Row<N>>) -> bool {
    forall|p: int|
        0 <= p < out.len() ==> exists|r: int|
            0 <= r < rows.len() && (#[trigger] rows[r]).session_index == (#[trigger] out[p]).session_index
}

proof fn lemma_for_rows<N: Num>(out: Seq<Setpoint<N>>, rows: Seq<Row<N>>, sp: Setpoint<N>, r: int)
    requires
        are_for_rows(out, rows),
        0 <= r < rows.len(),
        sp.session_index == rows[r].session_index,
    ensures
        are_for_rows(out.push(sp), rows),
{
    let more = out.push(sp);
    assert forall|p: int| 0 <= p < more.len() implies exists|q: int|
        0 <= q < rows.len() && (#[trigger] rows[q]).session_index == (#[trigger] more[p]).session_index by {
        if p < out.len() {
            assert(more[p] == out[p]);
            let q = choose|q: int|
                0 <= q < rows.len() && (#[trigger] rows[q]).session_index == out[p].session_index;
            assert(rows[q].session_index == more[p].session_index);
        } else {
            assert(rows[r].session_index == more[p].session_index);
        }
    }
}

proof fn lemma_walk_for_rows<N: Num>(obs: ObservationModel<N>, threshold: N, rows: Seq<Row<N>>, n: nat)
    requires
        n <= rows.len(),
    ensures
        are_for_rows(walk(obs, threshold, rows, n).out, rows),
    decreases n,
{
    if n > 0 {
        let m = (n - 1) as nat;
        lemma_walk_for_rows(obs, threshold, rows, m);
        let w = walk(obs, threshold, rows, m);
        let row = rows[m as int];
        lemma_for_rows(
            w.out,
            rows,
            Setpoint { session_index: row.session_index, power_kw: budget_rate(obs, w, row) },
            m as int,
        );
    }
}

proof fn lemma_forced_for_rows<N: Num>(obs: ObservationModel<N>, w: Walk<N>, rows: Seq<Row<N>>, n: nat)
    requires
        n <= rows.len(),
        are_for_rows(w.out, rows),
    ensures
        are_for_rows(forced(obs, w, rows, n).out, rows),
    decreases n,
{
    if n > 0 {
        let m = (n - 1) as nat;
        lemma_forced_for_rows(obs, w, rows, m);
        let row = rows[m as int];
        lemma_for_rows(
            forced(obs, w, rows, m).out,
            rows,
            Setpoint { session_index: row.session_index, power_kw: forced_rate(obs, row) },
            m as int,
        );
    }
}

/// EDF and LLF ask only eligible cars for anything.
pub proof fn only_eligible_cars_are_asked<N: Num>(
    key: SortKey,
    threshold: N,
    obs: ObservationModel<N>,
    p: int,
)
    requires
        are_in_place(obs),
        0 <= p < scheduled(key, threshold, obs).out.len(),
    ensures
        ({
            let k = scheduled(key, threshold, obs).out[p].session_index as int;
            k < obs.sessions.len() && is_eligible(obs, obs.sessions[k])
        }),
{
    let n = obs.sessions.len();
    let all = eligible_rows(key, threshold, obs, n);
    let rows = serving_rows(key, threshold, obs);
    lemma_all_eligible(key, threshold, obs, n);
    lemma_few_rows(key, threshold, obs, n);
    stable_order_is_arrangement(all, all.len());
    lemma_walk_for_rows(obs, threshold, rows, rows.len());
    lemma_forced_for_rows(obs, walk(obs, threshold, rows, rows.len()), rows, rows.len());
    let out = scheduled(key, threshold, obs).out;
    let r = choose|r: int| 0 <= r < rows.len() && (#[trigger] rows[r]).session_index == out[p].session_index;
    let order = stable_order(all);
    assert(order[r] < all.len());
    assert(rows[r] == all[order[r] as int]);
}

/// After a decision the threshold is the larger of what it was and of the building load with
/// the power handed out.
pub proof fn thresholds_rise_to_what_was_reached<N: Num>(
    value: spec_fn(N) -> real,
    unit: real,
    threshold: N,
    obs: ObservationModel<N>,
    used: N,
)
    requires
        rounds_toward_zero(value, unit),
        is_number(threshold),
        obs.building_load_kw.finite() && used.finite(),
        fits(value, value(obs.building_load_kw) + value(used)),
    ensures
        value(ratchet(threshold, obs, used)) == most(value(threshold), value(obs.building_load_kw) + value(used)),
{
    lemma_plus(value, unit, obs.building_load_kw, used);
    let reached = obs.building_load_kw.plus(used);
    lemma_finite(value, unit, reached);
    lemma_compare(value, unit, threshold, reached);
}

} // verus!
