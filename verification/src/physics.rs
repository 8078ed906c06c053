//! What every run obeys, whatever the policy asks for: requests are granted
//! within their limits, batteries stay within their range, and energy is
//! conserved.
//!
//! The laws are stated for numbers that round toward zero (see
//! [`rounds_toward_zero`]), exact ones among them, and for scenarios whose sums
//! do not exceed the number type (see [`is_moderate`]).

use vstd::prelude::*;

use crate::engine::SessionResult;
use crate::num::{clamped, count, one_of, zero_of, Num};
use crate::rounding::{
    fits, is_number, lemma_closer_fits, lemma_compare, lemma_constants, lemma_finite, lemma_fitting, lemma_minus,
    lemma_negated, lemma_over, lemma_plus, lemma_still_numbers, lemma_times, rounds_toward_zero,
};
use crate::scenario::{ScenarioModel, Vehicle};
use crate::site::{
    after_charge, after_discharge, arrive, assign, charge_power, depart, discharge_power, fresh, pick_port, report,
    SiteModel,
};
use crate::soundness::{is_shaped, is_sound, lemma_assign, lemma_depart, sessions_run_forward};
use crate::state::{Session, SessionView};
use crate::validation::{is_efficiency, is_valid, session_is_valid, vehicle_is_finite};
use crate::{energy_of, power_of};

verus! {

// ---------------------------------------------------------------- one request

/// `a / b` grows with `a`, and is zero or more where `a` is.
proof fn lemma_ratio(a: real, c: real, b: real)
    by (nonlinear_arith)
    requires
        0real <= a <= c,
        b > 0real,
    ensures
        0real <= a / b <= c / b,
        (a / b) * b == a,
{
}

proof fn lemma_product(a: real, c: real, b: real)
    by (nonlinear_arith)
    requires
        0real <= a <= c,
        b >= 0real,
    ensures
        0real <= a * b <= c * b,
{
}

/// The power that fills `room` kWh of battery in one slot: it is finite, and
/// its energy is at most that.
pub(crate) proof fn lemma_power<N: Num>(value: spec_fn(N) -> real, unit: real, kwh: N, dt: N)
    requires
        rounds_toward_zero(value, unit),
        kwh.finite(),
        0real <= value(kwh),
        dt.finite(),
        0real < value(dt),
        fits(value, value(kwh) * 60real),
    ensures
        is_number(power_of(kwh, dt)),
        0real <= value(power_of(kwh, dt)),
        value(power_of(kwh, dt)) * value(dt) <= value(kwh) * 60real,
{
    lemma_constants(value, unit);
    let sixty = count::<N>(60);
    lemma_times(value, unit, kwh, sixty);
    let x = kwh.times(sixty);
    lemma_over(value, unit, x, dt);
    let d = value(dt);
    lemma_ratio(value(x), value(x), d);
    lemma_product(value(power_of(kwh, dt)), value(x) / d, d);
}

/// The energy of `p` kW over one slot, where it is at most `most` kWh.
pub(crate) proof fn lemma_energy_rounded<N: Num>(value: spec_fn(N) -> real, unit: real, p: N, dt: N, most: real)
    requires
        rounds_toward_zero(value, unit),
        p.finite(),
        0real <= value(p),
        dt.finite(),
        0real < value(dt),
        value(p) * value(dt) <= most * 60real,
        fits(value, most * 60real),
    ensures
        energy_of(p, dt).finite(),
        0real <= value(energy_of(p, dt)) <= most,
        value(p) * value(dt) / 60real - 2real * unit <= value(energy_of(p, dt)),
        value(energy_of(p, dt)) <= value(p) * value(dt) / 60real,
{
    lemma_constants(value, unit);
    let sixty = count::<N>(60);
    let exact = value(p) * value(dt);
    lemma_product(0real, value(p), value(dt));
    lemma_closer_fits(value, exact, most * 60real);
    lemma_times(value, unit, p, dt);
    let x = p.times(dt);
    lemma_closer_fits(value, value(x) / 60real, exact);
    lemma_over(value, unit, x, sixty);
}

/// Power and energy are two sides of one number: the power of an energy has that
/// energy, up to rounding.
pub proof fn power_and_energy_are_inverse<N: Num>(value: spec_fn(N) -> real, unit: real, kwh: N, dt: N)
    requires
        rounds_toward_zero(value, unit),
        kwh.finite(),
        0real <= value(kwh),
        dt.finite(),
        0real < value(dt),
        fits(value, value(kwh) * 60real),
        fits(value, value(kwh) * 60real / value(dt)),
    ensures
        ({
            let back = value(energy_of(power_of(kwh, dt), dt));
            value(kwh) - (value(dt) + 121real) * unit <= back <= value(kwh)
        }),
{
    lemma_constants(value, unit);
    let sixty = count::<N>(60);
    let d = value(dt);
    lemma_times(value, unit, kwh, sixty);
    let x = kwh.times(sixty);
    lemma_ratio(value(x), value(kwh) * 60real, d);
    lemma_closer_fits(value, value(x) / d, value(kwh) * 60real / d);
    lemma_over(value, unit, x, dt);
    let p = power_of(kwh, dt);
    lemma_power(value, unit, kwh, dt);
    lemma_energy_rounded(value, unit, p, dt, value(kwh));
    let q = value(x) / d;
    assert((q - unit) * d <= value(p) * d) by (nonlinear_arith)
        requires
            q - unit <= value(p),
            d > 0real,
    ;
    assert((q - unit) * d == q * d - unit * d) by (nonlinear_arith);
    assert((d + 121real) * unit == d * unit + 121real * unit) by (nonlinear_arith);
    assert(d * unit == unit * d) by (nonlinear_arith);
    assert(0real <= unit * d) by (nonlinear_arith)
        requires
            0real <= unit,
            0real < d,
    ;
}

/// A charging request is granted within the request, the session's limit and
/// the allowance, and never overfills the battery, which gains what is drawn times
/// the efficiency, up to a unit.
pub proof fn charging_respects_its_limits<N: Num>(
    value: spec_fn(N) -> real,
    unit: real,
    s: Session<N>,
    view: SessionView<N>,
    power_kw: N,
    dt: N,
    eta_c: N,
    allowance_kw: N,
)
    requires
        rounds_toward_zero(value, unit),
        dt.finite(),
        value(dt) > 0real,
        eta_c.finite(),
        value(eta_c) > 0real,
        power_kw.finite(),
        0real <= value(power_kw),
        is_number(view.max_charge_kw),
        is_number(allowance_kw),
        s.soc_kwh.finite(),
        view.vehicle.ceiling().finite(),
        0real <= value(s.soc_kwh) <= value(view.vehicle.ceiling()),
        fits(value, value(view.vehicle.ceiling()) / value(eta_c) * 60real),
    ensures
        ({
            let p = charge_power(s, view, power_kw, dt, eta_c, allowance_kw);
            let e = energy_of(p, dt);
            let next = after_charge(s, p, dt, eta_c);
            &&& p.finite()
            &&& 0real <= value(p) <= value(power_kw)
            &&& value(p) <= value(view.max_charge_kw) || value(p) == 0real
            &&& value(p) <= value(allowance_kw) || value(p) == 0real
            &&& next.soc_kwh.finite()
            &&& value(s.soc_kwh) <= value(next.soc_kwh) <= value(view.vehicle.ceiling())
            &&& e.finite()
            &&& 0real <= value(e) <= value(p) * value(dt) / 60real <= value(e) + 2real * unit
            &&& value(e) * value(eta_c) - unit <= value(next.soc_kwh) - value(s.soc_kwh) <= value(e) * value(
                eta_c,
            )
        }),
{
    lemma_constants(value, unit);
    let p = charge_power(s, view, power_kw, dt, eta_c, allowance_kw);
    let ceiling = view.vehicle.ceiling();
    let c = value(ceiling);
    let n = value(eta_c);
    let room = ceiling.minus(s.soc_kwh);
    let r = c - value(s.soc_kwh);
    lemma_finite(value, unit, ceiling);
    lemma_finite(value, unit, eta_c);
    lemma_finite(value, unit, power_kw);
    lemma_closer_fits(value, r, c);
    lemma_minus(value, unit, ceiling, s.soc_kwh);
    lemma_compare(value, unit, zero_of::<N>(), eta_c);
    lemma_ratio(r, c, n);
    lemma_closer_fits(value, r / n, c / n * 60real);
    lemma_over(value, unit, room, eta_c);
    let grid_room = room.over(eta_c);
    lemma_closer_fits(value, value(grid_room) * 60real, c / n * 60real);
    lemma_power(value, unit, grid_room, dt);
    let most = power_of(grid_room, dt);
    let a = power_kw.lesser(view.max_charge_kw);
    let b = a.lesser(allowance_kw);
    lemma_compare(value, unit, power_kw, view.max_charge_kw);
    lemma_compare(value, unit, a, allowance_kw);
    lemma_compare(value, unit, b, most);
    lemma_compare(value, unit, b.lesser(most), zero_of::<N>());
    lemma_closer_fits(value, value(p), value(power_kw));
    lemma_fitting(value, unit, p);
    lemma_product(value(p), value(most), value(dt));
    lemma_energy_rounded(value, unit, p, dt, value(grid_room));
    let e = energy_of(p, dt);
    lemma_product(value(e), r / n, n);
    lemma_closer_fits(value, value(e) * n, c);
    lemma_times(value, unit, e, eta_c);
    let gain = e.times(eta_c);
    lemma_closer_fits(value, value(s.soc_kwh) + value(gain), c);
    lemma_plus(value, unit, s.soc_kwh, gain);
}

/// A discharging request is granted within the request, the session's limit and
/// the allowance, and never drains the battery below its floor; the battery loses
/// what is exported over the efficiency, up to a unit.
pub proof fn discharging_respects_its_limits<N: Num>(
    value: spec_fn(N) -> real,
    unit: real,
    s: Session<N>,
    view: SessionView<N>,
    power_kw: N,
    dt: N,
    eta_d: N,
    allowance_kw: N,
)
    requires
        rounds_toward_zero(value, unit),
        dt.finite(),
        value(dt) > 0real,
        eta_d.finite(),
        0real < value(eta_d) <= 1real,
        power_kw.finite(),
        value(power_kw) <= 0real,
        is_number(view.max_discharge_kw),
        is_number(allowance_kw),
        s.soc_kwh.finite(),
        view.vehicle.min_soc_kwh.finite(),
        0real <= value(view.vehicle.min_soc_kwh) <= value(s.soc_kwh),
        fits(value, value(s.soc_kwh) * 60real),
    ensures
        ({
            let p = discharge_power(s, view, power_kw, dt, eta_d, allowance_kw);
            let e = energy_of(p, dt);
            let next = after_discharge(s, p, dt, eta_d);
            &&& p.finite()
            &&& 0real <= value(p) <= 0real - value(power_kw)
            &&& value(p) <= value(view.max_discharge_kw) || value(p) == 0real
            &&& value(p) <= value(allowance_kw) || value(p) == 0real
            &&& next.soc_kwh.finite()
            &&& value(view.vehicle.min_soc_kwh) <= value(next.soc_kwh) <= value(s.soc_kwh)
            &&& e.finite()
            &&& 0real <= value(e) <= value(p) * value(dt) / 60real <= value(e) + 2real * unit
            &&& value(e) / value(eta_d) - unit <= value(s.soc_kwh) - value(next.soc_kwh) <= value(e) / value(
                eta_d,
            )
        }),
{
    lemma_constants(value, unit);
    let p = discharge_power(s, view, power_kw, dt, eta_d, allowance_kw);
    let floor = view.vehicle.min_soc_kwh;
    let soc = value(s.soc_kwh);
    let n = value(eta_d);
    let above = s.soc_kwh.minus(floor);
    let r = soc - value(floor);
    lemma_finite(value, unit, s.soc_kwh);
    lemma_closer_fits(value, r, soc);
    lemma_minus(value, unit, s.soc_kwh, floor);
    lemma_finite(value, unit, above);
    lemma_compare(value, unit, above, zero_of::<N>());
    let spare = above.greater(zero_of());
    lemma_fitting(value, unit, spare);
    lemma_product(n, 1real, r);
    assert(r * n <= r) by (nonlinear_arith)
        requires
            n * r <= 1real * r,
    ;
    lemma_product(r, r, n);
    lemma_closer_fits(value, r * n, soc);
    lemma_times(value, unit, spare, eta_d);
    let usable = spare.times(eta_d);
    lemma_closer_fits(value, value(usable) * 60real, soc * 60real);
    lemma_power(value, unit, usable, dt);
    let most = power_of(usable, dt);
    let asked = power_kw.negated();
    lemma_negated(value, unit, power_kw);
    lemma_finite(value, unit, asked);
    let a = asked.lesser(view.max_discharge_kw);
    let b = a.lesser(allowance_kw);
    lemma_compare(value, unit, asked, view.max_discharge_kw);
    lemma_compare(value, unit, a, allowance_kw);
    lemma_compare(value, unit, b, most);
    lemma_compare(value, unit, b.lesser(most), zero_of::<N>());
    lemma_closer_fits(value, value(p), value(asked));
    lemma_fitting(value, unit, p);
    lemma_product(value(p), value(most), value(dt));
    lemma_energy_rounded(value, unit, p, dt, value(usable));
    let e = energy_of(p, dt);
    lemma_ratio(value(e), r * n, n);
    assert((r * n) / n == r) by (nonlinear_arith)
        requires
            n > 0real,
    ;
    lemma_closer_fits(value, value(e) / n, soc);
    lemma_over(value, unit, e, eta_d);
    let loss = e.over(eta_d);
    lemma_closer_fits(value, soc - value(loss), soc);
    lemma_minus(value, unit, s.soc_kwh, loss);
}

// ---------------------------------------------------------------- scenarios

/// No power of the scenario exceeds `m` kW, and what is added up from them and
/// from the batteries fits the number type.
pub open spec fn is_moderate<N: Num>(value: spec_fn(N) -> real, sc: ScenarioModel<N>, m: real) -> bool {
    &&& 0real <= m
    &&& fits(value, (sc.vehicles.len() + 3) as real * m)
    &&& fits(value, sc.rules.horizon_slots as real * slot_energy(value, sc, m))
    &&& forall|s: int|
        0 <= s < sc.building.len() ==> 0real - m <= value(#[trigger] sc.building[s]) <= m
    &&& sc.rules.site_cap_kw matches Some(cap) ==> 0real - m <= value(cap) <= m
    &&& forall|c: int| 0 <= c < sc.chargers.len() ==> value((#[trigger] sc.chargers[c]).max_kw) <= m
    &&& forall|i: int|
        0 <= i < sc.vehicles.len() ==> fits(
            value,
            value((#[trigger] sc.vehicles[i]).ceiling()) / value(sc.rules.charge_efficiency) * 60real,
        )
}

/// The energy of `m` kW over one slot, kWh.
pub open spec fn slot_energy<N: Num>(value: spec_fn(N) -> real, sc: ScenarioModel<N>, m: real) -> real {
    m * value(sc.rules.slot_minutes) / 60real
}

/// A SoC is finite and lies between the floor and the ceiling of its battery.
pub open spec fn is_in_range<N: Num>(value: spec_fn(N) -> real, v: Vehicle<N>, soc: N) -> bool {
    soc.finite() && value(v.min_soc_kwh) <= value(soc) <= value(v.ceiling())
}

/// The numbers of a vehicle as the laws use them.
pub(crate) open spec fn is_usable<N: Num>(value: spec_fn(N) -> real, sc: ScenarioModel<N>, v: Vehicle<N>) -> bool {
    &&& v.min_soc_kwh.finite()
    &&& v.ceiling().finite()
    &&& 0real <= value(v.min_soc_kwh) <= value(v.ceiling())
    &&& is_in_range(value, v, v.soc_arrival_kwh)
    &&& v.depletion_kwh.finite()
    &&& v.max_charge_kw.finite()
    &&& v.max_discharge_kw.finite()
    &&& fits(value, value(v.ceiling()) / value(sc.rules.charge_efficiency) * 60real)
    &&& fits(value, value(v.ceiling()) * 60real)
}

/// The numbers of a scenario as the laws use them.
pub(crate) open spec fn is_ready<N: Num>(value: spec_fn(N) -> real, sc: ScenarioModel<N>) -> bool {
    &&& sc.rules.slot_minutes.finite() && value(sc.rules.slot_minutes) > 0real
    &&& sc.rules.charge_efficiency.finite() && 0real < value(sc.rules.charge_efficiency) <= 1real
    &&& sc.rules.discharge_efficiency.finite() && 0real < value(sc.rules.discharge_efficiency) <= 1real
    &&& forall|i: int| 0 <= i < sc.vehicles.len() ==> is_usable(value, sc, #[trigger] sc.vehicles[i])
}

proof fn lemma_usable<N: Num>(value: spec_fn(N) -> real, unit: real, sc: ScenarioModel<N>, m: real, i: int)
    requires
        rounds_toward_zero(value, unit),
        is_valid(sc),
        is_moderate(value, sc, m),
        0 <= i < sc.vehicles.len(),
        0real < value(sc.rules.charge_efficiency) <= 1real,
    ensures
        is_usable(value, sc, sc.vehicles[i]),
{
    lemma_constants(value, unit);
    let v = sc.vehicles[i];
    assert(vehicle_is_finite(v));
    assert(session_is_valid(v, sc.rules.horizon_slots));
    lemma_finite(value, unit, v.min_soc_kwh);
    lemma_finite(value, unit, v.battery_kwh);
    lemma_finite(value, unit, v.soc_arrival_kwh);
    lemma_compare(value, unit, zero_of::<N>(), v.min_soc_kwh);
    lemma_compare(value, unit, v.min_soc_kwh, v.soc_arrival_kwh);
    lemma_compare(value, unit, v.soc_arrival_kwh, v.battery_kwh);
    match v.max_soc_kwh {
        Some(c) => {
            lemma_finite(value, unit, c);
            lemma_compare(value, unit, v.min_soc_kwh, c);
            lemma_compare(value, unit, v.soc_arrival_kwh, c);
        },
        None => {},
    }
    let c = value(v.ceiling());
    let n = value(sc.rules.charge_efficiency);
    assert(c <= c / n) by (nonlinear_arith)
        requires
            0real <= c,
            0real < n <= 1real,
    ;
    lemma_closer_fits(value, c * 60real, c / n * 60real);
}

/// The facts about a valid scenario that the laws use.
pub(crate) proof fn lemma_ready<N: Num>(value: spec_fn(N) -> real, unit: real, sc: ScenarioModel<N>, m: real)
    requires
        rounds_toward_zero(value, unit),
        is_valid(sc),
        is_moderate(value, sc, m),
    ensures
        is_ready(value, sc),
        sessions_run_forward(sc),
{
    lemma_constants(value, unit);
    let eta_c = sc.rules.charge_efficiency;
    let eta_d = sc.rules.discharge_efficiency;
    assert(is_efficiency(eta_c) && is_efficiency(eta_d));
    lemma_finite(value, unit, sc.rules.slot_minutes);
    lemma_finite(value, unit, eta_c);
    lemma_finite(value, unit, eta_d);
    lemma_compare(value, unit, zero_of::<N>(), sc.rules.slot_minutes);
    lemma_compare(value, unit, zero_of::<N>(), eta_c);
    lemma_compare(value, unit, zero_of::<N>(), eta_d);
    lemma_compare(value, unit, eta_c, one_of::<N>());
    lemma_compare(value, unit, eta_d, one_of::<N>());
    assert forall|i: int| 0 <= i < sc.vehicles.len() implies is_usable(value, sc, #[trigger] sc.vehicles[i]) by {
        lemma_usable(value, unit, sc, m, i);
    }
    lemma_forward(sc);
}

/// The sessions of a valid scenario end after they start.
pub(crate) proof fn lemma_forward<N: Num>(sc: ScenarioModel<N>)
    requires
        is_valid(sc),
    ensures
        sessions_run_forward(sc),
{
    assert forall|i: int| 0 <= i < sc.vehicles.len() implies (#[trigger] sc.vehicles[i]).arrival_slot
        < sc.vehicles[i].departure_slot by {
        assert(session_is_valid(sc.vehicles[i], sc.rules.horizon_slots));
    }
}

// ---------------------------------------------------------------- batteries

/// What the energy books of a session say after `k` slots: what went in, less
/// what came out, is what the battery gained, up to `k` units.
pub open spec fn is_conserved<N: Num>(
    value: spec_fn(N) -> real,
    unit: real,
    sc: ScenarioModel<N>,
    arrival: N,
    departure: N,
    drawn: N,
    exported: N,
    k: int,
) -> bool {
    let gained = value(departure) - value(arrival);
    let booked = value(drawn) * value(sc.rules.charge_efficiency) - value(exported) / value(
        sc.rules.discharge_efficiency,
    );
    0real - k as real * unit <= gained - booked <= k as real * unit
}

/// An amount of energy that `k` slots at `m` kW can move.
pub open spec fn is_moved<N: Num>(
    value: spec_fn(N) -> real,
    sc: ScenarioModel<N>,
    m: real,
    kwh: N,
    k: int,
) -> bool {
    kwh.finite() && 0real <= value(kwh) <= k as real * slot_energy(value, sc, m)
}

/// A session that has been plugged in for `k` slots is in range and its books
/// balance.
pub open spec fn is_healthy<N: Num>(
    value: spec_fn(N) -> real,
    unit: real,
    sc: ScenarioModel<N>,
    m: real,
    i: int,
    s: Session<N>,
    k: int,
) -> bool {
    &&& is_in_range(value, sc.vehicles[i], s.soc_kwh)
    &&& is_in_range(value, sc.vehicles[i], s.soc_arrival_kwh)
    &&& is_moved(value, sc, m, s.energy_drawn_kwh, k)
    &&& is_moved(value, sc, m, s.energy_exported_kwh, k)
    &&& is_conserved(
        value,
        unit,
        sc,
        s.soc_arrival_kwh,
        s.soc_kwh,
        s.energy_drawn_kwh,
        s.energy_exported_kwh,
        k,
    )
}

/// For how many slots row `i` has been here before slot `t`.
pub open spec fn stay<N>(sc: ScenarioModel<N>, i: int, t: int) -> int {
    t - sc.vehicles[i].arrival_slot
}

/// Row `i`, if plugged in, is healthy before slot `t`.
pub open spec fn is_row_healthy<N: Num>(
    value: spec_fn(N) -> real,
    unit: real,
    sc: ScenarioModel<N>,
    m: real,
    active: Seq<Option<Session<N>>>,
    t: int,
    i: int,
) -> bool {
    active[i] matches Some(s) ==> 0 <= stay(sc, i, t) && is_healthy(
        value,
        unit,
        sc,
        m,
        i,
        s,
        stay(sc, i, t),
    )
}

/// Every plugged-in session is healthy before slot `t`.
pub open spec fn are_healthy<N: Num>(
    value: spec_fn(N) -> real,
    unit: real,
    sc: ScenarioModel<N>,
    m: real,
    active: Seq<Option<Session<N>>>,
    t: int,
) -> bool {
    forall|i: int|
        0 <= i < active.len() ==> #[trigger] is_row_healthy(value, unit, sc, m, active, t, i)
}

/// Every arrival SoC is in range, and every remembered SoC is finite.
pub open spec fn arrivals_in_range<N: Num>(
    value: spec_fn(N) -> real,
    sc: ScenarioModel<N>,
    st: SiteModel<N>,
) -> bool {
    &&& forall|i: int|
        0 <= i < sc.vehicles.len() ==> is_in_range(value, sc.vehicles[i], #[trigger] st.arrival_soc[i])
    &&& forall|id: u32| #[trigger] st.chain.dom().contains(id) ==> st.chain[id].finite()
}

/// A report is in range and its books balance, up to a unit for each slot of
/// the stay.
pub open spec fn is_sound_report<N: Num>(
    value: spec_fn(N) -> real,
    unit: real,
    sc: ScenarioModel<N>,
    r: SessionResult<N>,
) -> bool {
    &&& exists|i: int|
        0 <= i < sc.vehicles.len() && (#[trigger] sc.vehicles[i]).vehicle_id == r.vehicle_id
            && sc.vehicles[i].arrival_slot == r.arrival_slot && is_in_range(
            value,
            sc.vehicles[i],
            r.soc_departure_kwh,
        ) && is_in_range(value, sc.vehicles[i], r.soc_arrival_kwh)
    &&& r.energy_drawn_kwh.finite() && value(r.energy_drawn_kwh) >= 0real
    &&& r.energy_exported_kwh.finite() && value(r.energy_exported_kwh) >= 0real
    &&& is_conserved(
        value,
        unit,
        sc,
        r.soc_arrival_kwh,
        r.soc_departure_kwh,
        r.energy_drawn_kwh,
        r.energy_exported_kwh,
        r.departure_slot - r.arrival_slot,
    )
}

/// All reports are in range and their books balance.
pub open spec fn are_sound_reports<N: Num>(
    value: spec_fn(N) -> real,
    unit: real,
    sc: ScenarioModel<N>,
    list: Seq<SessionResult<N>>,
) -> bool {
    forall|k: int| 0 <= k < list.len() ==> is_sound_report(value, unit, sc, #[trigger] list[k])
}

proof fn lemma_fresh<N: Num>(
    value: spec_fn(N) -> real,
    unit: real,
    sc: ScenarioModel<N>,
    m: real,
    i: int,
    c: int,
    soc: N,
    k: int,
)
    requires
        rounds_toward_zero(value, unit),
        is_ready(value, sc),
        0real <= m,
        is_in_range(value, sc.vehicles[i], soc),
        0 <= k,
    ensures
        is_healthy(value, unit, sc, m, i, fresh(i, c, soc), k),
{
    lemma_constants(value, unit);
    let e = value(sc.rules.charge_efficiency);
    let d = value(sc.rules.discharge_efficiency);
    let n = k as real;
    assert(0real * e == 0real && 0real / d == 0real) by (nonlinear_arith)
        requires
            d > 0real,
    ;
    assert(0real <= n * unit) by (nonlinear_arith)
        requires
            0real <= n,
            0real <= unit,
    ;
    lemma_slot_energy(value, sc, m, k);
}

proof fn lemma_slot_energy<N: Num>(value: spec_fn(N) -> real, sc: ScenarioModel<N>, m: real, k: int)
    requires
        is_ready(value, sc),
        0real <= m,
        0 <= k,
    ensures
        0real <= slot_energy(value, sc, m),
        0real <= k as real * slot_energy(value, sc, m),
        (k + 1) as real * slot_energy(value, sc, m) == k as real * slot_energy(value, sc, m) + slot_energy(
            value,
            sc,
            m,
        ),
{
    lemma_product(0real, m, value(sc.rules.slot_minutes));
    let e = slot_energy(value, sc, m);
    lemma_product(0real, e, k as real);
    assert((k + 1) as real * e == k as real * e + e) by (nonlinear_arith);
    assert(e * (k as real) == k as real * e) by (nonlinear_arith);
}

/// What is healthy stays so in a slot in which nothing happens.
pub(crate) proof fn lemma_healthy_later<N: Num>(
    value: spec_fn(N) -> real,
    unit: real,
    sc: ScenarioModel<N>,
    m: real,
    i: int,
    s: Session<N>,
    k: int,
)
    requires
        rounds_toward_zero(value, unit),
        is_ready(value, sc),
        0real <= m,
        0 <= k,
        is_healthy(value, unit, sc, m, i, s, k),
    ensures
        is_healthy(value, unit, sc, m, i, s, k + 1),
{
    lemma_constants(value, unit);
    lemma_slot_energy(value, sc, m, k);
    let n = k as real;
    assert((k + 1) as real * unit == n * unit + unit) by (nonlinear_arith)
        requires
            n == k as real,
    ;
}

proof fn lemma_charge_books(gap: real, drawn: real, more: real, e: real, b: real, c: real, out: real, unit: real)
    by (nonlinear_arith)
    requires
        gap == b - (drawn * e - out),
        more * e - unit <= c <= more * e,
    ensures
        gap - unit <= (b + c) - ((drawn + more) * e - out) <= gap,
{
}

proof fn lemma_discharge_books(
    gap: real,
    inn: real,
    exported: real,
    more: real,
    d: real,
    b: real,
    c: real,
    unit: real,
)
    by (nonlinear_arith)
    requires
        d > 0real,
        gap == b - (inn - exported / d),
        more / d - unit <= c <= more / d,
    ensures
        gap <= (b - c) - (inn - (exported + more) / d) <= gap + unit,
{
    assert((exported + more) / d == exported / d + more / d);
}

/// A booked amount after one more slot.
proof fn lemma_moved<N: Num>(
    value: spec_fn(N) -> real,
    unit: real,
    sc: ScenarioModel<N>,
    m: real,
    kwh: N,
    more: N,
    p: real,
    k: int,
)
    requires
        rounds_toward_zero(value, unit),
        is_ready(value, sc),
        is_moderate(value, sc, m),
        0 <= k < sc.rules.horizon_slots,
        is_moved(value, sc, m, kwh, k),
        more.finite(),
        0real <= p <= m,
        0real <= value(more) <= p * value(sc.rules.slot_minutes) / 60real,
    ensures
        is_moved(value, sc, m, kwh.plus(more), k + 1),
        value(kwh.plus(more)) == value(kwh) + value(more),
{
    lemma_slot_energy(value, sc, m, k);
    lemma_product(p, m, value(sc.rules.slot_minutes));
    let e = slot_energy(value, sc, m);
    let h = sc.rules.horizon_slots as int;
    assert((k + 1) as real * e <= h as real * e) by (nonlinear_arith)
        requires
            (k + 1) as real <= h as real,
            0real <= e,
    ;
    lemma_closer_fits(value, value(kwh) + value(more), h as real * e);
    lemma_plus(value, unit, kwh, more);
}

/// The limits of a session as a policy is shown them.
pub(crate) open spec fn is_limited<N: Num>(value: spec_fn(N) -> real, view: SessionView<N>, m: real) -> bool {
    &&& is_number(view.max_charge_kw) && value(view.max_charge_kw) <= m
    &&& is_number(view.max_discharge_kw) && value(view.max_discharge_kw) <= m
}

/// A charging request keeps its session healthy.
pub(crate) proof fn lemma_charge_request<N: Num>(
    value: spec_fn(N) -> real,
    unit: real,
    sc: ScenarioModel<N>,
    m: real,
    i: int,
    s: Session<N>,
    view: SessionView<N>,
    power_kw: N,
    allowance: N,
    k: int,
)
    requires
        rounds_toward_zero(value, unit),
        is_ready(value, sc),
        is_moderate(value, sc, m),
        0 <= i < sc.vehicles.len(),
        view.vehicle == sc.vehicles[i],
        is_limited(value, view, m),
        power_kw.finite(),
        0real <= value(power_kw),
        is_number(allowance),
        0 <= k < sc.rules.horizon_slots,
        is_healthy(value, unit, sc, m, i, s, k),
    ensures
        ({
            let p = charge_power(
                s,
                view,
                power_kw,
                sc.rules.slot_minutes,
                sc.rules.charge_efficiency,
                allowance,
            );
            let next = after_charge(s, p, sc.rules.slot_minutes, sc.rules.charge_efficiency);
            let d = value(sc.rules.slot_minutes);
            &&& is_healthy(value, unit, sc, m, i, next, k + 1)
            &&& p.finite()
            &&& 0real <= value(p) <= m
            &&& value(p) <= value(view.max_charge_kw) || value(p) == 0real
            &&& value(p) <= value(allowance) || value(p) == 0real
            &&& next.energy_exported_kwh == s.energy_exported_kwh
            &&& value(next.energy_drawn_kwh) - value(s.energy_drawn_kwh) <= value(p) * d / 60real <= value(
                next.energy_drawn_kwh,
            ) - value(s.energy_drawn_kwh) + 2real * unit
        }),
{
    lemma_constants(value, unit);
    let v = sc.vehicles[i];
    let dt = sc.rules.slot_minutes;
    let eta_c = sc.rules.charge_efficiency;
    let eta_d = sc.rules.discharge_efficiency;
    assert(is_usable(value, sc, v));
    charging_respects_its_limits(value, unit, s, view, power_kw, dt, eta_c, allowance);
    let p = charge_power(s, view, power_kw, dt, eta_c, allowance);
    let e = energy_of(p, dt);
    let next = after_charge(s, p, dt, eta_c);
    lemma_moved(value, unit, sc, m, s.energy_drawn_kwh, e, value(p), k);
    lemma_healthy_later(value, unit, sc, m, i, s, k);
    let b = value(s.soc_kwh) - value(s.soc_arrival_kwh);
    let out = value(s.energy_exported_kwh) / value(eta_d);
    let gap = b - (value(s.energy_drawn_kwh) * value(eta_c) - out);
    lemma_charge_books(
        gap,
        value(s.energy_drawn_kwh),
        value(e),
        value(eta_c),
        b,
        value(next.soc_kwh) - value(s.soc_kwh),
        out,
        unit,
    );
    let n = k as real;
    assert((k + 1) as real * unit == n * unit + unit) by (nonlinear_arith)
        requires
            n == k as real,
    ;
}

/// A discharging request keeps its session healthy.
pub(crate) proof fn lemma_discharge_request<N: Num>(
    value: spec_fn(N) -> real,
    unit: real,
    sc: ScenarioModel<N>,
    m: real,
    i: int,
    s: Session<N>,
    view: SessionView<N>,
    power_kw: N,
    allowance: N,
    k: int,
)
    requires
        rounds_toward_zero(value, unit),
        is_ready(value, sc),
        is_moderate(value, sc, m),
        0 <= i < sc.vehicles.len(),
        view.vehicle == sc.vehicles[i],
        is_limited(value, view, m),
        power_kw.finite(),
        value(power_kw) <= 0real,
        is_number(allowance),
        0 <= k < sc.rules.horizon_slots,
        is_healthy(value, unit, sc, m, i, s, k),
    ensures
        ({
            let p = discharge_power(
                s,
                view,
                power_kw,
                sc.rules.slot_minutes,
                sc.rules.discharge_efficiency,
                allowance,
            );
            let next = after_discharge(s, p, sc.rules.slot_minutes, sc.rules.discharge_efficiency);
            let d = value(sc.rules.slot_minutes);
            &&& is_healthy(value, unit, sc, m, i, next, k + 1)
            &&& p.finite()
            &&& 0real <= value(p) <= m
            &&& value(p) <= value(view.max_discharge_kw) || value(p) == 0real
            &&& value(p) <= value(allowance) || value(p) == 0real
            &&& next.energy_drawn_kwh == s.energy_drawn_kwh
            &&& value(next.energy_exported_kwh) - value(s.energy_exported_kwh) <= value(p) * d / 60real
                <= value(next.energy_exported_kwh) - value(s.energy_exported_kwh) + 2real * unit
        }),
{
    lemma_constants(value, unit);
    let v = sc.vehicles[i];
    let dt = sc.rules.slot_minutes;
    let eta_c = sc.rules.charge_efficiency;
    let eta_d = sc.rules.discharge_efficiency;
    assert(is_usable(value, sc, v));
    lemma_closer_fits(value, value(s.soc_kwh) * 60real, value(v.ceiling()) * 60real);
    discharging_respects_its_limits(value, unit, s, view, power_kw, dt, eta_d, allowance);
    let p = discharge_power(s, view, power_kw, dt, eta_d, allowance);
    let e = energy_of(p, dt);
    let next = after_discharge(s, p, dt, eta_d);
    lemma_moved(value, unit, sc, m, s.energy_exported_kwh, e, value(p), k);
    lemma_healthy_later(value, unit, sc, m, i, s, k);
    let b = value(s.soc_kwh) - value(s.soc_arrival_kwh);
    let inn = value(s.energy_drawn_kwh) * value(eta_c);
    let gap = b - (inn - value(s.energy_exported_kwh) / value(eta_d));
    lemma_discharge_books(
        gap,
        inn,
        value(s.energy_exported_kwh),
        value(e),
        value(eta_d),
        b,
        value(s.soc_kwh) - value(next.soc_kwh),
        unit,
    );
    let n = k as real;
    assert((k + 1) as real * unit == n * unit + unit) by (nonlinear_arith)
        requires
            n == k as real,
    ;
}

// ------------------------------------------------------------------ the slots

/// What the laws carry from slot to slot.
pub open spec fn is_lawful<N: Num>(
    value: spec_fn(N) -> real,
    unit: real,
    sc: ScenarioModel<N>,
    m: real,
    st: SiteModel<N>,
    t: int,
) -> bool {
    &&& is_shaped(sc, st)
    &&& are_healthy(value, unit, sc, m, st.active, t)
    &&& arrivals_in_range(value, sc, st)
    &&& are_sound_reports(value, unit, sc, st.results)
}

/// A session that ends on time is reported in range and in balance.
pub(crate) proof fn lemma_report<N: Num>(
    value: spec_fn(N) -> real,
    unit: real,
    sc: ScenarioModel<N>,
    m: real,
    st: SiteModel<N>,
    t: int,
    i: int,
)
    requires
        rounds_toward_zero(value, unit),
        is_ready(value, sc),
        sessions_run_forward(sc),
        0real <= m,
        is_lawful(value, unit, sc, m, st, t),
        0 <= i < sc.vehicles.len(),
        st.active[i] is Some ==> sc.vehicles[i].departure_slot == t,
    ensures
        report(sc, st, i) matches Some(r) ==> is_sound_report(value, unit, sc, r)
            && r.soc_departure_kwh.finite(),
{
    assert(is_row_healthy(value, unit, sc, m, st.active, t, i));
    let v = sc.vehicles[i];
    assert(v.arrival_slot < v.departure_slot);
    assert(is_in_range(value, v, st.arrival_soc[i]));
    lemma_fresh(value, unit, sc, m, i, 0, st.arrival_soc[i], v.departure_slot - v.arrival_slot);
    assert(sc.vehicles[i].vehicle_id == v.vehicle_id);
}

pub(crate) proof fn lemma_lawful_depart<N: Num>(
    value: spec_fn(N) -> real,
    unit: real,
    sc: ScenarioModel<N>,
    m: real,
    st: SiteModel<N>,
    slot: int,
    n: nat,
)
    requires
        rounds_toward_zero(value, unit),
        is_ready(value, sc),
        sessions_run_forward(sc),
        0real <= m,
        is_sound(sc, st, slot, slot),
        is_lawful(value, unit, sc, m, st, slot),
        n <= sc.vehicles.len(),
    ensures
        is_lawful(value, unit, sc, m, depart(sc, st, slot, n), slot),
    decreases n,
{
    if n > 0 {
        let i = n - 1;
        lemma_lawful_depart(value, unit, sc, m, st, slot, (n - 1) as nat);
        lemma_depart(sc, st, slot, (n - 1) as nat);
        lemma_depart(sc, st, slot, n);
        let here = depart(sc, st, slot, (n - 1) as nat);
        let next = depart(sc, st, slot, n);
        if sc.vehicles[i].departure_slot == slot {
            lemma_report(value, unit, sc, m, here, slot, i);
            assert forall|j: int| 0 <= j < next.active.len() implies #[trigger] is_row_healthy(
                value,
                unit,
                sc,
                m,
                next.active,
                slot,
                j,
            ) by {
                assert(is_row_healthy(value, unit, sc, m, here.active, slot, j));
            }
            assert forall|k: int| 0 <= k < next.results.len() implies is_sound_report(
                value,
                unit,
                sc,
                #[trigger] next.results[k],
            ) by {
                if k < here.results.len() {
                    assert(next.results[k] == here.results[k]);
                }
            }
            assert forall|id: u32| #[trigger] next.chain.dom().contains(id) implies next.chain[id].finite() by {
                if id != sc.vehicles[i].vehicle_id {
                    assert(here.chain.dom().contains(id));
                }
            }
        }
    }
}

/// A SoC that is carried over is moved into the range of its battery.
proof fn lemma_carried<N: Num>(
    value: spec_fn(N) -> real,
    unit: real,
    sc: ScenarioModel<N>,
    v: Vehicle<N>,
    last: N,
)
    requires
        rounds_toward_zero(value, unit),
        is_usable(value, sc, v),
        last.finite(),
    ensures
        is_in_range(value, v, clamped(last.minus(v.depletion_kwh), v.min_soc_kwh, v.ceiling())),
{
    lemma_finite(value, unit, last);
    lemma_finite(value, unit, v.min_soc_kwh);
    lemma_finite(value, unit, v.ceiling());
    lemma_still_numbers(value, unit, last, v.depletion_kwh);
    let raw = last.minus(v.depletion_kwh);
    lemma_compare(value, unit, raw, v.min_soc_kwh);
    lemma_compare(value, unit, v.ceiling(), raw);
    if !raw.below(v.min_soc_kwh) && !v.ceiling().below(raw) {
        lemma_closer_fits(value, value(raw), value(v.ceiling()));
        lemma_fitting(value, unit, raw);
    }
}

pub(crate) proof fn lemma_lawful_arrive<N: Num>(
    value: spec_fn(N) -> real,
    unit: real,
    sc: ScenarioModel<N>,
    m: real,
    st: SiteModel<N>,
    slot: int,
    order: Seq<usize>,
)
    requires
        rounds_toward_zero(value, unit),
        is_ready(value, sc),
        is_lawful(value, unit, sc, m, st, slot),
        forall|k: int| 0 <= k < order.len() ==> #[trigger] order[k] < sc.vehicles.len(),
    ensures
        is_lawful(value, unit, sc, m, arrive(sc, st, slot, order), slot),
        arrive(sc, st, slot, order).chain == st.chain,
    decreases order.len(),
{
    if order.len() > 0 {
        let rest = order.drop_last();
        assert forall|k: int| 0 <= k < rest.len() implies #[trigger] rest[k] < sc.vehicles.len() by {
            assert(rest[k] == order[k]);
        }
        assert(order[order.len() - 1] < sc.vehicles.len());
        lemma_lawful_arrive(value, unit, sc, m, st, slot, rest);
        let here = arrive(sc, st, slot, rest);
        let next = arrive(sc, st, slot, order);
        let row = order.last() as int;
        let v = sc.vehicles[row];
        assert(is_usable(value, sc, v));
        if here.chain.dom().contains(v.vehicle_id) {
            lemma_carried(value, unit, sc, v, here.chain[v.vehicle_id]);
        }
        assert(next.active == here.active);
        assert forall|i: int| 0 <= i < sc.vehicles.len() implies is_in_range(
            value,
            sc.vehicles[i],
            #[trigger] next.arrival_soc[i],
        ) by {
            assert(is_in_range(value, sc.vehicles[i], here.arrival_soc[i]));
        }
    }
}

pub(crate) proof fn lemma_lawful_assign<N: Num>(
    value: spec_fn(N) -> real,
    unit: real,
    sc: ScenarioModel<N>,
    m: real,
    st: SiteModel<N>,
    slot: int,
    order: Seq<usize>,
)
    requires
        rounds_toward_zero(value, unit),
        is_ready(value, sc),
        sessions_run_forward(sc),
        0real <= m,
        is_sound(sc, st, slot + 1, slot),
        is_lawful(value, unit, sc, m, st, slot),
        sc.vehicles.len() <= usize::MAX,
        sc.chargers.len() <= usize::MAX,
        forall|k: int| 0 <= k < order.len() ==> #[trigger] order[k] < sc.vehicles.len(),
    ensures
        is_lawful(value, unit, sc, m, assign(sc, st, slot, order), slot),
    decreases order.len(),
{
    if order.len() > 0 {
        let rest = order.drop_last();
        assert forall|k: int| 0 <= k < rest.len() implies #[trigger] rest[k] < sc.vehicles.len() by {
            assert(rest[k] == order[k]);
        }
        assert(order[order.len() - 1] < sc.vehicles.len());
        lemma_lawful_assign(value, unit, sc, m, st, slot, rest);
        lemma_assign(sc, st, slot, rest);
        lemma_assign(sc, st, slot, order);
        let here = assign(sc, st, slot, rest);
        let next = assign(sc, st, slot, order);
        let row = order.last() as int;
        assert(is_in_range(value, sc.vehicles[row], here.arrival_soc[row]));
        if sc.vehicles[row].arrival_slot == slot {
            match pick_port(sc.chargers, here.free) {
                Some(c) => {
                    lemma_fresh(value, unit, sc, m, row, c, here.arrival_soc[row], 0);
                },
                None => {},
            }
        }
        assert forall|i: int| 0 <= i < next.active.len() implies #[trigger] is_row_healthy(
            value,
            unit,
            sc,
            m,
            next.active,
            slot,
            i,
        ) by {
            assert(is_row_healthy(value, unit, sc, m, here.active, slot, i));
        }
    }
}


} // verus!
