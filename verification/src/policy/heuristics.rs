//! The heuristic decision policies.
//!
//! Conventions: SoC percentages are of the TRUE capacity (`battery_kwh`); the
//! operating ceiling is `max_soc_kwh`. The engine keeps strict physics (no grid
//! export, hard SoC clamps). Sorting is stable with an explicit `vehicle_id`
//! tie-break.

use vstd::prelude::*;

use crate::num::{count, from_count, unbounded_below, zero, zero_of, Num};
use crate::order::{sort, stable_order, Ranked};
use crate::policy::{Policy, POLICY_NAMES};
use crate::rounding::{is_number, lemma_compare, rounds_toward_zero};
use crate::scenario::{TouClass, Vehicle};
use crate::state::{Observation, ObservationModel, SessionView, Setpoint};
use crate::text::same_text;
use crate::{kwh_to_kw, power_of};

verus! {

/// The setpoint `kw` for a session.
pub open spec fn set<N>(s: SessionView<N>, kw: N) -> Setpoint<N> {
    Setpoint { session_index: s.index, power_kw: kw }
}

// ---------------------------------------------------------------- baselines

/// Never charges or discharges anything. The building-only baseline for
/// EV-vs-building cost attribution.
#[derive(Debug, Clone, Copy, PartialEq, Eq)]
pub struct Idle;

impl<N: Num> Policy<N> for Idle {
    open spec fn title(&self) -> &'static str {
        "idle"
    }

    open spec fn ready(&self) -> bool {
        true
    }

    open spec fn chooses(&self, obs: &Observation<N>, out: &Vec<Setpoint<N>>, after: &Self) -> bool {
        out@.len() == 0 && *after == *self
    }

    fn name(&self) -> (r: &'static str) {
        "idle"
    }

    fn decide(&mut self, obs: &Observation<N>) -> (out: Vec<Setpoint<N>>) {
        Vec::new()
    }
}

/// The power that fills a session to its target at the session's limit, kW.
pub open spec fn full_power<N: Num>(obs: ObservationModel<N>, s: SessionView<N>) -> N {
    if zero_of::<N>().below(s.need()) {
        power_of(s.need().over(obs.charge_efficiency), obs.slot_minutes).lesser(s.max_charge_kw)
    } else {
        zero_of()
    }
}

/// The setpoints of the uncontrolled baseline.
pub open spec fn uncontrolled<N: Num>(obs: ObservationModel<N>) -> Seq<Setpoint<N>> {
    Seq::new(obs.sessions.len(), |i: int| set(obs.sessions[i], full_power(obs, obs.sessions[i])))
}

/// Charge every vehicle toward its target at maximum feasible power.
#[derive(Debug, Clone, Copy, PartialEq, Eq)]
pub struct Uncontrolled;

impl<N: Num> Policy<N> for Uncontrolled {
    open spec fn title(&self) -> &'static str {
        "uncontrolled"
    }

    open spec fn ready(&self) -> bool {
        true
    }

    open spec fn chooses(&self, obs: &Observation<N>, out: &Vec<Setpoint<N>>, after: &Self) -> bool {
        out@ == uncontrolled(obs@) && *after == *self
    }

    fn name(&self) -> (r: &'static str) {
        "uncontrolled"
    }

    fn decide(&mut self, obs: &Observation<N>) -> (out: Vec<Setpoint<N>>) {
        let mut out: Vec<Setpoint<N>> = Vec::new();
        for i in 0..obs.sessions.len()
            invariant
                *self == *old(self),
                out@ == uncontrolled(obs@).take(i as int),
        {
            let s = &obs.sessions[i];
            let need = s.remaining_need_kwh();
            let kw: N = if zero::<N>().lt(need) {
                kwh_to_kw(need.div(obs.charge_efficiency), obs.slot_minutes).min(s.max_charge_kw)
            } else {
                zero()
            };
            out.push(Setpoint { session_index: s.index, power_kw: kw });
            assert(out@ =~= uncontrolled(obs@).take(i + 1));
        }
        assert(out@ =~= uncontrolled(obs@));
        out
    }
}

// ------------------------------------------------------------------- shared

/// `x` as a percentage of the capacity.
pub open spec fn percent<N: Num>(x: N, v: Vehicle<N>) -> N {
    x.over(v.battery_kwh).times(count(100))
}

/// The rate that a battery takes: full up to 90% of capacity, tapering to zero
/// at 100%, none above the vehicle's ceiling; discharge at the asked rate down to
/// the floor.
pub open spec fn tapered<N: Num>(v: Vehicle<N>, soc_kwh: N, rate_kw: N) -> N {
    let soc = percent(soc_kwh, v);
    if zero_of::<N>().below(rate_kw) {
        if soc.at_most(percent(v.ceiling(), v)) {
            if soc.at_most(count(90)) {
                rate_kw
            } else {
                rate_kw.negated().over(count(10)).times(soc.minus(count(90))).plus(rate_kw)
            }
        } else {
            zero_of()
        }
    } else if rate_kw.below(zero_of()) {
        if percent(v.min_soc_kwh, v).at_most(soc) {
            rate_kw
        } else {
            zero_of()
        }
    } else {
        zero_of()
    }
}

/// The >90% charge taper and the hard discharge floor. Percentages are of TRUE
/// capacity; the taper knee (90) and zero point (100) are independent of the
/// vehicle's own ceiling. Comparisons are exact (no tolerance).
pub fn get_rate<N: Num>(v: &Vehicle<N>, soc_kwh: N, rate_kw: N) -> (r: N)
    ensures
        r == tapered(*v, soc_kwh, rate_kw),
{
    let hundred: N = from_count(100);
    let soc = soc_kwh.div(v.battery_kwh).mul(hundred);
    let max_soc = v.ceiling_kwh().div(v.battery_kwh).mul(hundred);
    let min_soc = v.min_soc_kwh.div(v.battery_kwh).mul(hundred);
    if zero::<N>().lt(rate_kw) {
        if soc.le(max_soc) {
            if soc.le(from_count(90)) {
                rate_kw
            } else {
                rate_kw.neg().div(from_count(10)).mul(soc.sub(from_count(90))).add(rate_kw)
            }
        } else {
            zero()
        }
    } else if rate_kw.lt(zero()) {
        if min_soc.le(soc) {
            rate_kw
        } else {
            zero()
        }
    } else {
        zero()
    }
}

/// Two percentages are equal up to 0.1 and a relative 1e-5 of the second.
pub open spec fn are_close<N: Num>(a: N, b: N) -> bool {
    a.minus(b).magnitude().at_most(N::rational(1, 10).plus(N::rational(1, 100_000).times(b.magnitude())))
}

/// Closeness of SoC percentages: `|a - b| <= 0.1 + 1e-5 * |b|`. Used by policies
/// 0 to 2; NOT by EDF/LLF, whose eligibility is strict.
pub fn isclose_pct<N: Num>(a: N, b: N) -> (r: bool)
    ensures
        r == are_close(a, b),
{
    a.sub(b).abs().le(N::ratio(1, 10).add(N::ratio(1, 100_000).mul(b.abs())))
}

/// The SoC lies below `limit_kwh`, clearly.
pub open spec fn is_under<N: Num>(s: SessionView<N>, limit_kwh: N) -> bool {
    let soc = percent(s.soc_kwh, s.vehicle);
    let limit = percent(limit_kwh, s.vehicle);
    soc.below(limit) && !are_close(soc, limit)
}

/// The SoC lies above `limit_kwh`, clearly.
pub open spec fn is_over<N: Num>(s: SessionView<N>, limit_kwh: N) -> bool {
    let soc = percent(s.soc_kwh, s.vehicle);
    let limit = percent(limit_kwh, s.vehicle);
    limit.below(soc) && !are_close(soc, limit)
}

fn under_toleranced<N: Num>(s: &SessionView<N>, limit_kwh: N) -> (r: bool)
    ensures
        r == is_under(*s, limit_kwh),
{
    let soc = s.soc_kwh.div(s.vehicle.battery_kwh).mul(from_count(100));
    let limit = limit_kwh.div(s.vehicle.battery_kwh).mul(from_count(100));
    soc.lt(limit) && !isclose_pct(soc, limit)
}

fn over_toleranced<N: Num>(s: &SessionView<N>, limit_kwh: N) -> (r: bool)
    ensures
        r == is_over(*s, limit_kwh),
{
    let soc = s.soc_kwh.div(s.vehicle.battery_kwh).mul(from_count(100));
    let limit = limit_kwh.div(s.vehicle.battery_kwh).mul(from_count(100));
    limit.lt(soc) && !isclose_pct(soc, limit)
}

/// Seconds until departure.
pub open spec fn time_left<N: Num>(obs: ObservationModel<N>, s: SessionView<N>) -> N {
    count::<N>(s.vehicle.departure_slot - obs.slot).times(obs.slot_minutes).times(count(60))
}

fn time_left_sec<N: Num>(s: &SessionView<N>, obs: &Observation<N>) -> (r: N)
    requires
        obs.slot <= s.vehicle.departure_slot,
    ensures
        r == time_left(obs@, *s),
{
    from_count::<N>(s.vehicle.departure_slot - obs.slot).mul(obs.slot_minutes).mul(from_count(60))
}

// ----------------------------------------------------------------- policy 0

/// The minimum constant rate that reaches the target by departure, within
/// `[0, limit]` and tapered; zero for a car at its target, kW.
pub open spec fn constant_rate<N: Num>(obs: ObservationModel<N>, s: SessionView<N>) -> N {
    if is_under(s, s.vehicle.soc_target_kwh) {
        let need = s.vehicle.soc_target_kwh.minus(s.soc_kwh);
        let rate = need.over(time_left(obs, s).over(count(3600)));
        let capped = if s.max_charge_kw.below(rate) {
            s.max_charge_kw
        } else {
            rate
        };
        let floored = if capped.below(zero_of()) {
            zero_of()
        } else {
            capped
        };
        tapered(s.vehicle, s.soc_kwh, floored)
    } else {
        zero_of()
    }
}

/// The setpoints of policy 0.
pub open spec fn constant_rates<N: Num>(obs: ObservationModel<N>) -> Seq<Setpoint<N>> {
    Seq::new(obs.sessions.len(), |i: int| set(obs.sessions[i], constant_rate(obs, obs.sessions[i])))
}

/// Charge each below-target car at exactly the minimum constant rate that
/// reaches the target by departure; never discharge.
#[derive(Debug, Clone, Copy, PartialEq, Eq)]
pub struct Policy0;

impl<N: Num> Policy<N> for Policy0 {
    open spec fn title(&self) -> &'static str {
        "policy-0"
    }

    open spec fn ready(&self) -> bool {
        true
    }

    open spec fn chooses(&self, obs: &Observation<N>, out: &Vec<Setpoint<N>>, after: &Self) -> bool {
        out@ == constant_rates(obs@) && *after == *self
    }

    fn name(&self) -> (r: &'static str) {
        "policy-0"
    }

    fn decide(&mut self, obs: &Observation<N>) -> (out: Vec<Setpoint<N>>) {
        let mut out: Vec<Setpoint<N>> = Vec::new();
        for i in 0..obs.sessions.len()
            invariant
                obs@.well_formed(),
                *self == *old(self),
                out@ == constant_rates(obs@).take(i as int),
        {
            let s = &obs.sessions[i];
            assert(obs@.sessions[i as int].vehicle.departure_slot > obs@.slot);
            let mut rate: N = zero();
            if under_toleranced(s, s.vehicle.soc_target_kwh) {
                let need_kwh = s.vehicle.soc_target_kwh.sub(s.soc_kwh);
                let hours = time_left_sec(s, obs).div(from_count(3600));
                rate = need_kwh.div(hours);
                if s.max_charge_kw.lt(rate) {
                    rate = s.max_charge_kw;
                }
                if rate.lt(zero()) {
                    rate = zero();
                }
                rate = get_rate(&s.vehicle, s.soc_kwh, rate);
            }
            out.push(Setpoint { session_index: s.index, power_kw: rate });
            assert(out@[i as int] == constant_rates(obs@)[i as int]);
            assert(out@ =~= constant_rates(obs@).take(i + 1));
        }
        assert(out@ =~= constant_rates(obs@));
        out
    }
}

// ----------------------------------------------------------------- policy 1

/// What policy 1 does with a below-ceiling car: charge at the charger's full
/// rate outside slots of class `peak`.
pub open spec fn off_peak_rate<N: Num>(obs: ObservationModel<N>, s: SessionView<N>) -> N {
    if obs.tou == TouClass::Peak {
        zero_of()
    } else {
        tapered(s.vehicle, s.soc_kwh, s.max_charge_kw)
    }
}

/// What policy 1 does with an above-target car: discharge at the charger's full
/// rate in slots of class `peak`, stop otherwise.
pub open spec fn peak_rate<N: Num>(obs: ObservationModel<N>, s: SessionView<N>) -> N {
    if obs.tou == TouClass::Peak {
        tapered(s.vehicle, s.soc_kwh, s.max_discharge_kw.negated())
    } else {
        zero_of()
    }
}

/// The charging pass of policy 1 over the first `n` sessions.
pub open spec fn charge_pass<N: Num>(obs: ObservationModel<N>, n: nat) -> Seq<Setpoint<N>>
    decreases n,
{
    if n == 0 {
        Seq::empty()
    } else {
        let s = obs.sessions[n - 1];
        if is_under(s, s.vehicle.ceiling()) {
            charge_pass(obs, (n - 1) as nat).push(set(s, off_peak_rate(obs, s)))
        } else {
            charge_pass(obs, (n - 1) as nat)
        }
    }
}

/// The discharging pass of policy 1 over the first `n` sessions.
pub open spec fn discharge_pass<N: Num>(obs: ObservationModel<N>, n: nat) -> Seq<Setpoint<N>>
    decreases n,
{
    if n == 0 {
        Seq::empty()
    } else {
        let s = obs.sessions[n - 1];
        if is_over(s, s.vehicle.soc_target_kwh) {
            discharge_pass(obs, (n - 1) as nat).push(set(s, peak_rate(obs, s)))
        } else {
            discharge_pass(obs, (n - 1) as nat)
        }
    }
}

/// The setpoints of policy 1: the second pass comes later and so overrides the
/// first.
pub open spec fn two_passes<N: Num>(obs: ObservationModel<N>) -> Seq<Setpoint<N>> {
    charge_pass(obs, obs.sessions.len()) + discharge_pass(obs, obs.sessions.len())
}

/// Off-peak/super-off-peak, charge below-ceiling cars at the charger's full
/// rate; at peak, discharge above-target cars at the charger's full negative
/// rate. The two passes overlap and the second wins, so off-peak a car already
/// above its target is STOPPED, not charged.
#[derive(Debug, Clone, Copy, PartialEq, Eq)]
pub struct Policy1;

impl<N: Num> Policy<N> for Policy1 {
    open spec fn title(&self) -> &'static str {
        "policy-1"
    }

    open spec fn ready(&self) -> bool {
        true
    }

    open spec fn chooses(&self, obs: &Observation<N>, out: &Vec<Setpoint<N>>, after: &Self) -> bool {
        out@ == two_passes(obs@) && *after == *self
    }

    fn name(&self) -> (r: &'static str) {
        "policy-1"
    }

    fn decide(&mut self, obs: &Observation<N>) -> (out: Vec<Setpoint<N>>) {
        let peak: bool = obs.tou == TouClass::Peak;
        let mut out: Vec<Setpoint<N>> = Vec::new();
        for i in 0..obs.sessions.len()
            invariant
                *self == *old(self),
                peak == (obs@.tou == TouClass::Peak),
                out@ == charge_pass(obs@, i as nat),
        {
            let s = &obs.sessions[i];
            if under_toleranced(s, s.vehicle.ceiling_kwh()) {
                let rate: N = if peak {
                    zero()
                } else {
                    get_rate(&s.vehicle, s.soc_kwh, s.max_charge_kw)
                };
                out.push(Setpoint { session_index: s.index, power_kw: rate });
            }
        }
        let ghost first = out@;
        assert(out@ =~= first + discharge_pass(obs@, 0));
        for i in 0..obs.sessions.len()
            invariant
                *self == *old(self),
                peak == (obs@.tou == TouClass::Peak),
                out@ == first + discharge_pass(obs@, i as nat),
        {
            let s = &obs.sessions[i];
            if over_toleranced(s, s.vehicle.soc_target_kwh) {
                let rate: N = if peak {
                    get_rate(&s.vehicle, s.soc_kwh, s.max_discharge_kw.neg())
                } else {
                    zero()
                };
                out.push(Setpoint { session_index: s.index, power_kw: rate });
            }
            assert(out@ =~= first + discharge_pass(obs@, (i + 1) as nat));
        }
        out
    }
}

// ----------------------------------------------------------------- policy 2

/// The setpoints of policy 2 for the first `n` sessions.
pub open spec fn off_peak_only<N: Num>(obs: ObservationModel<N>, n: nat) -> Seq<Setpoint<N>>
    decreases n,
{
    if n == 0 {
        Seq::empty()
    } else {
        let s = obs.sessions[n - 1];
        if is_under(s, s.vehicle.ceiling()) {
            off_peak_only(obs, (n - 1) as nat).push(
                set(
                    s,
                    if obs.tou == TouClass::OffPeak {
                        tapered(s.vehicle, s.soc_kwh, s.max_charge_kw)
                    } else {
                        zero_of()
                    },
                ),
            )
        } else {
            off_peak_only(obs, (n - 1) as nat)
        }
    }
}

/// Charge below-ceiling cars at full rate ONLY when the TOU class is exactly
/// off-peak (super-off-peak charges nothing). Never discharges.
#[derive(Debug, Clone, Copy, PartialEq, Eq)]
pub struct Policy2;

impl<N: Num> Policy<N> for Policy2 {
    open spec fn title(&self) -> &'static str {
        "policy-2"
    }

    open spec fn ready(&self) -> bool {
        true
    }

    open spec fn chooses(&self, obs: &Observation<N>, out: &Vec<Setpoint<N>>, after: &Self) -> bool {
        out@ == off_peak_only(obs@, obs@.sessions.len()) && *after == *self
    }

    fn name(&self) -> (r: &'static str) {
        "policy-2"
    }

    fn decide(&mut self, obs: &Observation<N>) -> (out: Vec<Setpoint<N>>) {
        let mut out: Vec<Setpoint<N>> = Vec::new();
        for i in 0..obs.sessions.len()
            invariant
                *self == *old(self),
                out@ == off_peak_only(obs@, i as nat),
        {
            let s = &obs.sessions[i];
            if under_toleranced(s, s.vehicle.ceiling_kwh()) {
                let rate: N = if obs.tou == TouClass::OffPeak {
                    get_rate(&s.vehicle, s.soc_kwh, s.max_charge_kw)
                } else {
                    zero()
                };
                out.push(Setpoint { session_index: s.index, power_kw: rate });
            }
        }
        out
    }
}

// ----------------------------------------------------- EDF / LLF (threshold)

/// What a threshold scheduler sorts by.
#[derive(Debug, Clone, Copy, PartialEq, Eq, Structural)]
pub enum SortKey {
    /// EDF: descending "deadline pressure" =
    /// `100 * power_required_kwh * max_charge / ((threshold - building) * time_left_sec)`.
    DeadlinePressure,
    /// LLF: ascending `time_left`.
    TimeLeft,
}

/// The threshold-budget scheduler behind both EDF and LLF. Stateful: the
/// threshold ratchets monotonically upward across the episode, and is seeded
/// anew in the first slot of the next one.
#[derive(Debug, Clone, Copy, PartialEq)]
pub struct ThresholdScheduler<N> {
    pub key: SortKey,
    /// The threshold, seeded on the first decision of an episode, kW.
    pub threshold_kw: Option<N>,
}

impl<N: Num> ThresholdScheduler<N> {
    pub fn edf() -> (r: Self)
        ensures
            r.key == SortKey::DeadlinePressure,
            r.threshold_kw is None,
    {
        ThresholdScheduler { key: SortKey::DeadlinePressure, threshold_kw: None }
    }

    pub fn llf() -> (r: Self)
        ensures
            r.key == SortKey::TimeLeft,
            r.threshold_kw is None,
    {
        ThresholdScheduler { key: SortKey::TimeLeft, threshold_kw: None }
    }
}

/// One eligible car in the budget walk.
#[derive(Debug, Clone, Copy, PartialEq)]
pub struct Row<N> {
    pub session_index: usize,
    pub vehicle_id: u32,
    pub min_rate_needed_kw: N,
    pub time_left_sec: N,
    pub max_charge_kw: N,
    pub max_discharge_kw: N,
    pub key: N,
    /// Larger keys come first.
    pub descending: bool,
}

impl<N: Num> Ranked for Row<N> {
    /// By key, undefined keys last, then by vehicle.
    open spec fn ahead(&self, other: &Self) -> bool {
        let tie = self.vehicle_id < other.vehicle_id;
        if self.key.undefined() {
            other.key.undefined() && tie
        } else if other.key.undefined() {
            true
        } else if self.descending {
            other.key.below(self.key) || (!self.key.below(other.key) && tie)
        } else {
            self.key.below(other.key) || (!other.key.below(self.key) && tie)
        }
    }

    fn is_ahead(&self, other: &Self) -> (r: bool) {
        let tie: bool = self.vehicle_id < other.vehicle_id;
        if self.key.is_nan() {
            other.key.is_nan() && tie
        } else if other.key.is_nan() {
            true
        } else if self.descending {
            other.key.lt(self.key) || (!self.key.lt(other.key) && tie)
        } else {
            self.key.lt(other.key) || (!other.key.lt(self.key) && tie)
        }
    }
}

/// The largest of the first `n` loads.
pub open spec fn largest_load<N: Num>(series: Seq<N>, n: nat) -> N
    decreases n,
{
    if n == 0 {
        unbounded_below()
    } else {
        largest_load(series, (n - 1) as nat).greater(series[n - 1])
    }
}

/// The threshold with which a decision starts: the one kept from the slot
/// before. In the first slot of an episode, and where none was kept, it is the
/// manifest's seed, else 0.8 times the largest building load, kW.
pub open spec fn threshold_of<N: Num>(kept: Option<N>, obs: ObservationModel<N>) -> N {
    match kept {
        Some(t) if obs.slot > 0 => t,
        _ => match obs.heuristic_threshold_kw {
            Some(t) => t,
            None => N::rational(4, 5).times(
                largest_load(obs.building_series, obs.building_series.len()),
            ),
        },
    }
}

/// Strictly below the target in slots of class `peak`, strictly below the
/// ceiling otherwise.
pub open spec fn is_eligible<N: Num>(obs: ObservationModel<N>, s: SessionView<N>) -> bool {
    if obs.tou == TouClass::Peak {
        s.soc_kwh.below(s.vehicle.soc_target_kwh)
    } else {
        s.soc_kwh.below(s.vehicle.ceiling())
    }
}

/// The row of an eligible car. The needed rate is SIGNED: negative when above
/// target, which is the off-peak discharge channel.
pub open spec fn row_of<N: Num>(
    key: SortKey,
    threshold: N,
    obs: ObservationModel<N>,
    s: SessionView<N>,
) -> Row<N> {
    let need = s.vehicle.soc_target_kwh.minus(s.soc_kwh);
    let tl = time_left(obs, s);
    let rate = need.over(tl.over(count(3600)));
    Row {
        session_index: s.index,
        vehicle_id: s.vehicle.vehicle_id,
        min_rate_needed_kw: if rate.infinite() {
            zero_of()
        } else {
            rate
        },
        time_left_sec: tl,
        max_charge_kw: s.max_charge_kw,
        max_discharge_kw: s.max_discharge_kw,
        key: if key == SortKey::DeadlinePressure {
            count::<N>(100).times(need).times(s.max_charge_kw).over(
                threshold.minus(obs.building_load_kw).times(tl),
            )
        } else {
            tl
        },
        descending: key == SortKey::DeadlinePressure,
    }
}

/// The rows of the eligible cars among the first `n` sessions.
pub open spec fn eligible_rows<N: Num>(
    key: SortKey,
    threshold: N,
    obs: ObservationModel<N>,
    n: nat,
) -> Seq<Row<N>>
    decreases n,
{
    if n == 0 {
        Seq::empty()
    } else {
        let before = eligible_rows(key, threshold, obs, (n - 1) as nat);
        let s = obs.sessions[n - 1];
        if is_eligible(obs, s) {
            before.push(row_of(key, threshold, obs, s))
        } else {
            before
        }
    }
}

/// The rows of the eligible cars in serving order.
pub open spec fn serving_rows<N: Num>(key: SortKey, threshold: N, obs: ObservationModel<N>) -> Seq<Row<N>> {
    let rows = eligible_rows(key, threshold, obs, obs.sessions.len());
    let order = stable_order(rows);
    Seq::new(rows.len(), |i: int| rows[order[i] as int])
}

/// The state of the walk over the rows. `capacity` and `used` double-track the
/// budget: the guard uses the already-decremented capacity, and the clip is
/// against the remaining capacity.
#[verifier::ext_equal]
pub struct Walk<N> {
    pub out: Seq<Setpoint<N>>,
    /// Vehicles that got at least the rate they need.
    pub served: Seq<u32>,
    pub capacity: N,
    pub used: N,
}

/// The rate that a row gets from the budget.
pub open spec fn budget_rate<N: Num>(obs: ObservationModel<N>, w: Walk<N>, row: Row<N>) -> N {
    let s = obs.sessions[row.session_index as int];
    let needed = row.min_rate_needed_kw;
    let clipped = if w.capacity.below(w.used.plus(needed)) {
        needed.lesser(w.capacity)
    } else {
        needed
    };
    tapered(s.vehicle, s.soc_kwh, clipped.lesser(row.max_charge_kw))
}

/// The walk after a row: nothing is served once the budget is used up.
pub open spec fn walk_row<N: Num>(obs: ObservationModel<N>, w: Walk<N>, row: Row<N>) -> Walk<N> {
    if w.capacity.at_most(zero_of()) {
        w
    } else {
        let rate = budget_rate(obs, w, row);
        Walk {
            out: w.out.push(Setpoint { session_index: row.session_index, power_kw: rate }),
            served: if row.min_rate_needed_kw.at_most(rate) {
                w.served.push(row.vehicle_id)
            } else {
                w.served
            },
            used: w.used.plus(rate),
            capacity: w.capacity.minus(rate),
        }
    }
}

/// The walk over the first `n` rows.
pub open spec fn walk<N: Num>(obs: ObservationModel<N>, threshold: N, rows: Seq<Row<N>>, n: nat) -> Walk<N>
    decreases n,
{
    if n == 0 {
        Walk {
            out: Seq::empty(),
            served: Seq::empty(),
            capacity: threshold.minus(obs.building_load_kw),
            used: zero_of(),
        }
    } else {
        walk_row(obs, walk(obs, threshold, rows, (n - 1) as nat), rows[n - 1])
    }
}

/// The force-charge rate of a row: its full needed rate, positive needs capped
/// at the charge limit, negative ones at the discharge limit, tapered.
pub open spec fn forced_rate<N: Num>(obs: ObservationModel<N>, row: Row<N>) -> N {
    let s = obs.sessions[row.session_index as int];
    let needed = row.min_rate_needed_kw;
    let rate = if zero_of::<N>().below(needed) {
        needed.lesser(row.max_charge_kw)
    } else {
        needed.greater(row.max_discharge_kw.negated())
    };
    tapered(s.vehicle, s.soc_kwh, rate)
}

/// The row departs within the hour and was not fully served.
pub open spec fn is_forced<N: Num>(row: Row<N>, served: Seq<u32>) -> bool {
    row.time_left_sec.below(count(3600)) && !served.contains(row.vehicle_id)
}

/// The forced charging of the first `n` rows, outside the budget.
pub open spec fn forced<N: Num>(obs: ObservationModel<N>, w: Walk<N>, rows: Seq<Row<N>>, n: nat) -> Walk<N>
    decreases n,
{
    if n == 0 {
        w
    } else {
        let before = forced(obs, w, rows, (n - 1) as nat);
        let row = rows[n - 1];
        if is_forced(row, w.served) {
            let rate = forced_rate(obs, row);
            Walk {
                out: before.out.push(Setpoint { session_index: row.session_index, power_kw: rate }),
                used: before.used.plus(rate),
                ..before
            }
        } else {
            before
        }
    }
}

/// The decision: the walk over the budget, then the forced charging.
pub open spec fn scheduled<N: Num>(key: SortKey, threshold: N, obs: ObservationModel<N>) -> Walk<N> {
    let rows = serving_rows(key, threshold, obs);
    forced(obs, walk(obs, threshold, rows, rows.len()), rows, rows.len())
}

/// The threshold after a decision: it rises to the building load plus the power
/// handed out, and never falls.
pub open spec fn ratchet<N: Num>(threshold: N, obs: ObservationModel<N>, used: N) -> N {
    let reached = obs.building_load_kw.plus(used);
    if threshold.below(reached) {
        reached
    } else {
        threshold
    }
}

/// The threshold with which a decision starts.
fn find_threshold<N: Num>(kept: Option<N>, obs: &Observation<N>) -> (r: N)
    ensures
        r == threshold_of(kept, obs@),
{
    match kept {
        Some(t) if obs.slot > 0 => t,
        _ => match obs.heuristic_threshold_kw {
            Some(t) => t,
            None => {
                let mut largest: N = N::infinity().neg();
                for i in 0..obs.building_series.len()
                    invariant
                        largest == largest_load(obs@.building_series, i as nat),
                {
                    largest = largest.max(obs.building_series[i]);
                }
                N::ratio(4, 5).mul(largest)
            },
        },
    }
}

/// The rows point at sessions.
pub open spec fn are_rows<N: Num>(rows: Seq<Row<N>>, obs: ObservationModel<N>) -> bool {
    forall|i: int| 0 <= i < rows.len() ==> (#[trigger] rows[i]).session_index < obs.sessions.len()
}

/// The rows of the eligible cars in serving order.
fn make_rows<N: Num>(key: SortKey, threshold: N, obs: &Observation<N>) -> (r: Vec<Row<N>>)
    requires
        obs@.well_formed(),
    ensures
        r@ == serving_rows(key, threshold, obs@),
        are_rows(r@, obs@),
{
    let peak: bool = obs.tou == TouClass::Peak;
    let pressure: bool = key == SortKey::DeadlinePressure;
    let mut rows: Vec<Row<N>> = Vec::new();
    for i in 0..obs.sessions.len()
        invariant
            obs@.well_formed(),
            peak == (obs@.tou == TouClass::Peak),
            pressure == (key == SortKey::DeadlinePressure),
            rows@ == eligible_rows(key, threshold, obs@, i as nat),
            are_rows(rows@, obs@),
    {
        let s = &obs.sessions[i];
        assert(obs@.sessions[i as int].index == i);
        let eligible: bool = if peak {
            s.soc_kwh.lt(s.vehicle.soc_target_kwh)
        } else {
            s.soc_kwh.lt(s.vehicle.ceiling_kwh())
        };
        if eligible {
            let need_kwh = s.vehicle.soc_target_kwh.sub(s.soc_kwh);
            let tl = time_left_sec(s, obs);
            let mut min_rate = need_kwh.div(tl.div(from_count(3600)));
            if min_rate.is_infinite() {
                min_rate = zero();
            }
            let sort_key: N = if pressure {
                from_count::<N>(100).mul(need_kwh).mul(s.max_charge_kw).div(
                    threshold.sub(obs.building_load_kw).mul(tl),
                )
            } else {
                tl
            };
            rows.push(
                Row {
                    session_index: s.index,
                    vehicle_id: s.vehicle.vehicle_id,
                    min_rate_needed_kw: min_rate,
                    time_left_sec: tl,
                    max_charge_kw: s.max_charge_kw,
                    max_discharge_kw: s.max_discharge_kw,
                    key: sort_key,
                    descending: pressure,
                },
            );
        }
    }
    let order = sort(&rows);
    let mut sorted: Vec<Row<N>> = Vec::new();
    for i in 0..order.len()
        invariant
            order@ == stable_order(rows@),
            order@.len() == rows@.len(),
            forall|k: int| 0 <= k < order@.len() ==> #[trigger] order@[k] < rows@.len(),
            are_rows(rows@, obs@),
            are_rows(sorted@, obs@),
            sorted@ == Seq::new(i as nat, |j: int| rows@[order@[j] as int]),
    {
        sorted.push(rows[order[i]]);
        assert(sorted@ =~= Seq::new((i + 1) as nat, |j: int| rows@[order@[j] as int]));
    }
    assert(sorted@ =~= serving_rows(key, threshold, obs@));
    sorted
}

/// Whether `id` occurs in `list`.
fn holds(list: &Vec<u32>, id: u32) -> (r: bool)
    ensures
        r == list@.contains(id),
{
    for i in 0..list.len()
        invariant
            forall|j: int| 0 <= j < i ==> list@[j] != id,
    {
        if list[i] == id {
            assert(list@[i as int] == id);
            return true;
        }
    }
    false
}

proof fn lemma_walk_stops<N: Num>(obs: ObservationModel<N>, threshold: N, rows: Seq<Row<N>>, m: nat, n: nat)
    requires
        m <= n,
        walk(obs, threshold, rows, m).capacity.at_most(zero_of()),
    ensures
        walk(obs, threshold, rows, n) == walk(obs, threshold, rows, m),
    decreases n,
{
    if m < n {
        lemma_walk_stops(obs, threshold, rows, m, (n - 1) as nat);
    }
}

impl<N: Num> Policy<N> for ThresholdScheduler<N> {
    open spec fn title(&self) -> &'static str {
        match self.key {
            SortKey::DeadlinePressure => "edf",
            SortKey::TimeLeft => "llf",
        }
    }

    open spec fn ready(&self) -> bool {
        true
    }

    open spec fn chooses(&self, obs: &Observation<N>, out: &Vec<Setpoint<N>>, after: &Self) -> bool {
        let threshold = threshold_of(self.threshold_kw, obs@);
        let end = scheduled(self.key, threshold, obs@);
        &&& out@ == end.out
        &&& after.key == self.key
        &&& after.threshold_kw == Some(ratchet(threshold, obs@, end.used))
    }

    fn name(&self) -> (r: &'static str) {
        match self.key {
            SortKey::DeadlinePressure => "edf",
            SortKey::TimeLeft => "llf",
        }
    }

    fn decide(&mut self, obs: &Observation<N>) -> (out: Vec<Setpoint<N>>) {
        let threshold = find_threshold(self.threshold_kw, obs);
        let rows = make_rows(self.key, threshold, obs);
        let ghost n = rows@.len();
        let mut out: Vec<Setpoint<N>> = Vec::new();
        let mut served: Vec<u32> = Vec::new();
        let mut capacity: N = threshold.sub(obs.building_load_kw);
        let mut used: N = zero();
        let mut i: usize = 0;
        while i < rows.len() && !capacity.le(zero())
            invariant
                *self == *old(self),
                are_rows(rows@, obs@),
                i <= rows@.len(),
                ({
                    let w = walk(obs@, threshold, rows@, i as nat);
                    &&& out@ == w.out
                    &&& served@ == w.served
                    &&& capacity == w.capacity
                    &&& used == w.used
                }),
            decreases rows.len() - i,
        {
            let row = rows[i];
            assert(rows@[i as int].session_index < obs@.sessions.len());
            let s = &obs.sessions[row.session_index];
            let mut rate: N = row.min_rate_needed_kw;
            if capacity.lt(used.add(rate)) {
                rate = rate.min(capacity);
            }
            rate = get_rate(&s.vehicle, s.soc_kwh, rate.min(row.max_charge_kw));
            out.push(Setpoint { session_index: row.session_index, power_kw: rate });
            if row.min_rate_needed_kw.le(rate) {
                served.push(row.vehicle_id);
            }
            used = used.add(rate);
            capacity = capacity.sub(rate);
            i = i + 1;
        }
        proof {
            if i < n {
                lemma_walk_stops(obs@, threshold, rows@, i as nat, n);
            }
        }
        let ghost w = walk(obs@, threshold, rows@, n);
        for k in 0..rows.len()
            invariant
                *self == *old(self),
                are_rows(rows@, obs@),
                served@ == w.served,
                ({
                    let f = forced(obs@, w, rows@, k as nat);
                    &&& out@ == f.out
                    &&& used == f.used
                }),
        {
            let row = rows[k];
            assert(rows@[k as int].session_index < obs@.sessions.len());
            if row.time_left_sec.lt(from_count(3600)) && !holds(&served, row.vehicle_id) {
                let s = &obs.sessions[row.session_index];
                let asked: N = if zero::<N>().lt(row.min_rate_needed_kw) {
                    row.min_rate_needed_kw.min(row.max_charge_kw)
                } else {
                    row.min_rate_needed_kw.max(row.max_discharge_kw.neg())
                };
                let rate = get_rate(&s.vehicle, s.soc_kwh, asked);
                // The later setpoint wins in the engine.
                out.push(Setpoint { session_index: row.session_index, power_kw: rate });
                used = used.add(rate);
            }
        }
        let reached = obs.building_load_kw.add(used);
        self.threshold_kw =
        Some(
            if threshold.lt(reached) {
                reached
            } else {
                threshold
            },
        );
        out
    }
}

// ------------------------------------------------------------------ registry

/// A built-in policy.
#[derive(Debug, Clone, Copy, PartialEq)]
pub enum Builtin<N> {
    Idle(Idle),
    Uncontrolled(Uncontrolled),
    Policy0(Policy0),
    Policy1(Policy1),
    Policy2(Policy2),
    Threshold(ThresholdScheduler<N>),
}

impl<N: Num> Policy<N> for Builtin<N> {
    open spec fn title(&self) -> &'static str {
        match self {
            Builtin::Idle(p) => Policy::<N>::title(p),
            Builtin::Uncontrolled(p) => Policy::<N>::title(p),
            Builtin::Policy0(p) => Policy::<N>::title(p),
            Builtin::Policy1(p) => Policy::<N>::title(p),
            Builtin::Policy2(p) => Policy::<N>::title(p),
            Builtin::Threshold(p) => Policy::<N>::title(p),
        }
    }

    open spec fn ready(&self) -> bool {
        true
    }

    open spec fn chooses(&self, obs: &Observation<N>, out: &Vec<Setpoint<N>>, after: &Self) -> bool {
        match (*self, *after) {
            (Builtin::Idle(p), Builtin::Idle(q)) => p.chooses(obs, out, &q),
            (Builtin::Uncontrolled(p), Builtin::Uncontrolled(q)) => p.chooses(obs, out, &q),
            (Builtin::Policy0(p), Builtin::Policy0(q)) => p.chooses(obs, out, &q),
            (Builtin::Policy1(p), Builtin::Policy1(q)) => p.chooses(obs, out, &q),
            (Builtin::Policy2(p), Builtin::Policy2(q)) => p.chooses(obs, out, &q),
            (Builtin::Threshold(p), Builtin::Threshold(q)) => p.chooses(obs, out, &q),
            _ => false,
        }
    }

    fn name(&self) -> (r: &'static str) {
        match self {
            Builtin::Idle(p) => Policy::<N>::name(p),
            Builtin::Uncontrolled(p) => Policy::<N>::name(p),
            Builtin::Policy0(p) => Policy::<N>::name(p),
            Builtin::Policy1(p) => Policy::<N>::name(p),
            Builtin::Policy2(p) => Policy::<N>::name(p),
            Builtin::Threshold(p) => Policy::<N>::name(p),
        }
    }

    fn decide(&mut self, obs: &Observation<N>) -> (out: Vec<Setpoint<N>>) {
        match self {
            Builtin::Idle(p) => p.decide(obs),
            Builtin::Uncontrolled(p) => p.decide(obs),
            Builtin::Policy0(p) => p.decide(obs),
            Builtin::Policy1(p) => p.decide(obs),
            Builtin::Policy2(p) => p.decide(obs),
            Builtin::Threshold(p) => p.decide(obs),
        }
    }
}

/// The built-in policy with this name.
pub open spec fn builtin<N: Num>(name: Seq<char>) -> Option<Builtin<N>> {
    if name == "idle"@ {
        Some(Builtin::Idle(Idle))
    } else if name == "uncontrolled"@ {
        Some(Builtin::Uncontrolled(Uncontrolled))
    } else if name == "policy-0"@ {
        Some(Builtin::Policy0(Policy0))
    } else if name == "policy-1"@ {
        Some(Builtin::Policy1(Policy1))
    } else if name == "policy-2"@ {
        Some(Builtin::Policy2(Policy2))
    } else if name == "edf"@ {
        Some(
            Builtin::Threshold(
                ThresholdScheduler { key: SortKey::DeadlinePressure, threshold_kw: None },
            ),
        )
    } else if name == "llf"@ {
        Some(Builtin::Threshold(ThresholdScheduler { key: SortKey::TimeLeft, threshold_kw: None }))
    } else {
        None
    }
}

/// Look up a built-in policy by name.
pub fn by_name<N: Num>(name: &str) -> (r: Option<Builtin<N>>)
    ensures
        r == builtin::<N>(name@),
{
    if same_text(name, "idle") {
        Some(Builtin::Idle(Idle))
    } else if same_text(name, "uncontrolled") {
        Some(Builtin::Uncontrolled(Uncontrolled))
    } else if same_text(name, "policy-0") {
        Some(Builtin::Policy0(Policy0))
    } else if same_text(name, "policy-1") {
        Some(Builtin::Policy1(Policy1))
    } else if same_text(name, "policy-2") {
        Some(Builtin::Policy2(Policy2))
    } else if same_text(name, "edf") {
        Some(Builtin::Threshold(ThresholdScheduler::edf()))
    } else if same_text(name, "llf") {
        Some(Builtin::Threshold(ThresholdScheduler::llf()))
    } else {
        None
    }
}

// -------------------------------------------------------------------- laws

/// The threshold never falls within an episode, and after a decision it is at
/// least the building load plus the power handed out.
pub proof fn the_threshold_only_rises<N: Num>(
    value: spec_fn(N) -> real,
    unit: real,
    threshold: N,
    obs: ObservationModel<N>,
    used: N,
)
    requires
        rounds_toward_zero(value, unit),
        is_number(threshold),
        is_number(obs.building_load_kw.plus(used)),
    ensures
        value(threshold) <= value(ratchet(threshold, obs, used)),
        value(obs.building_load_kw.plus(used)) <= value(ratchet(threshold, obs, used)),
{
    lemma_compare(value, unit, threshold, obs.building_load_kw.plus(used));
}

/// Exactly the registered names are known, and each finds the policy of that
/// name.
pub proof fn registered_names_find_their_policy<N: Num>(name: Seq<char>)
    ensures
        builtin::<N>(name) is Some <==> exists|i: int|
            0 <= i < POLICY_NAMES.len() && (#[trigger] POLICY_NAMES[i])@ == name,
        builtin::<N>(name) matches Some(p) ==> Policy::<N>::title(&p)@ == name,
{
    assert(POLICY_NAMES[0]@ == "idle"@);
    assert(POLICY_NAMES[1]@ == "uncontrolled"@);
    assert(POLICY_NAMES[2]@ == "policy-0"@);
    assert(POLICY_NAMES[3]@ == "policy-1"@);
    assert(POLICY_NAMES[4]@ == "policy-2"@);
    assert(POLICY_NAMES[5]@ == "edf"@);
    assert(POLICY_NAMES[6]@ == "llf"@);
}

} // verus!
