//! Mutable simulation state and the observation handed to policies.

use vstd::prelude::*;

use crate::num::{count, from_count, zero, zero_of, Num};
use crate::scenario::{DrEvent, TouClass, Vehicle};
use crate::{energy_of, kw_to_kwh};

verus! {

/// A vehicle currently plugged in.
#[derive(Debug, Clone, Copy, PartialEq)]
pub struct Session<N> {
    /// Index into `Scenario::vehicles` for this session.
    pub vehicle_index: usize,
    /// Charger the session is assigned to (index into `Scenario::chargers`).
    pub charger_index: usize,
    /// Effective SoC at arrival (tabled or persistence-chained), kWh.
    pub soc_arrival_kwh: N,
    /// Current battery state of charge, kWh.
    pub soc_kwh: N,
    /// Grid energy drawn for this session so far, kWh (post-meter, pre-efficiency).
    pub energy_drawn_kwh: N,
    /// Energy exported to the building so far, kWh.
    pub energy_exported_kwh: N,
}

/// A connected session as seen by a policy.
#[derive(Debug, Clone, Copy, PartialEq)]
pub struct SessionView<N> {
    /// Stable key for setpoints: position of this session in `Observation::sessions`.
    pub index: usize,
    pub vehicle: Vehicle<N>,
    pub soc_kwh: N,
    /// Effective charge limit this slot, kW: min(vehicle, charger port).
    pub max_charge_kw: N,
    /// Effective discharge limit this slot, kW: min(vehicle, charger port),
    /// 0 unless both vehicle and charger support it.
    pub max_discharge_kw: N,
}

impl<N: Num> SessionView<N> {
    /// Energy still needed to reach the departure target, kWh (battery side).
    pub open spec fn need(self) -> N {
        self.vehicle.soc_target_kwh.minus(self.soc_kwh).greater(zero_of())
    }

    /// Slots left before departure, counting the current slot.
    pub open spec fn slots_left(self, slot: usize) -> int {
        if self.vehicle.departure_slot >= slot {
            self.vehicle.departure_slot - slot
        } else {
            0
        }
    }

    /// Slots of charging at full power that the remaining need takes.
    pub open spec fn slots_needed(self, slot_minutes: N, charge_efficiency: N) -> N {
        let per_slot = energy_of(self.max_charge_kw, slot_minutes).times(charge_efficiency);
        if self.need().at_most(zero_of()) {
            zero_of()
        } else if per_slot.at_most(zero_of()) {
            N::unbounded()
        } else {
            self.need().over(per_slot)
        }
    }

    /// Energy still needed to reach the departure target, kWh (battery side).
    pub fn remaining_need_kwh(&self) -> (r: N)
        ensures
            r == self.need(),
    {
        self.vehicle.soc_target_kwh.sub(self.soc_kwh).max(zero())
    }

    /// Slots left before departure, counting the current slot.
    pub fn slots_to_departure(&self, slot: usize) -> (r: usize)
        ensures
            r == self.slots_left(slot),
    {
        self.vehicle.departure_slot.saturating_sub(slot)
    }

    /// Laxity in slots: time remaining minus time needed at full charge power.
    /// Negative laxity means the target is no longer reachable.
    pub fn laxity_slots(&self, slot: usize, slot_minutes: N, charge_efficiency: N) -> (r: N)
        ensures
            r == count::<N>(self.slots_left(slot)).minus(
                self.slots_needed(slot_minutes, charge_efficiency),
            ),
    {
        let need_kwh = self.remaining_need_kwh();
        let per_slot_kwh = kw_to_kwh(self.max_charge_kw, slot_minutes).mul(charge_efficiency);
        let slots_needed = if need_kwh.le(zero()) {
            zero()
        } else if per_slot_kwh.le(zero()) {
            N::infinity()
        } else {
            need_kwh.div(per_slot_kwh)
        };
        from_count::<N>(self.slots_to_departure(slot)).sub(slots_needed)
    }
}

/// A policy's decision for one session in one slot.
/// Positive = charge (grid -> battery), negative = discharge (battery -> building), kW.
#[derive(Debug, Clone, Copy, PartialEq)]
pub struct Setpoint<N> {
    pub session_index: usize,
    pub power_kw: N,
}

/// What a policy is allowed to see when deciding slot `slot`.
#[derive(Debug)]
pub struct Observation<'a, N> {
    pub slot: usize,
    pub slot_minutes: N,
    /// Inflexible building load this slot, kW.
    pub building_load_kw: N,
    /// Grid price this slot, USD/kWh.
    pub price_usd_per_kwh: N,
    /// TOU class of this slot.
    pub tou: TouClass,
    /// Site power cap, kW, if any.
    pub site_cap_kw: Option<N>,
    /// Charging efficiency in (0, 1]: grid kWh -> battery kWh.
    pub charge_efficiency: N,
    /// Discharging efficiency in (0, 1]: battery kWh -> building kWh.
    pub discharge_efficiency: N,
    /// Firm service level if a DR window covers this slot, kW.
    pub dr_fsl_kw: Option<N>,
    /// Connected sessions with their static request data.
    pub sessions: Vec<SessionView<N>>,
    /// Full price series (policies may look ahead; the environment is
    /// deterministic and prices are day-ahead information).
    pub price_series: &'a [N],
    /// Full building-load series, kW.
    pub building_series: &'a [N],
    /// Full TOU class series.
    pub tou_series: &'a [TouClass],
    /// All demand-response events (public program information).
    pub dr_events: &'a [DrEvent<N>],
    /// Threshold seed for the EDF/LLF budget schedulers, kW (manifest).
    pub heuristic_threshold_kw: Option<N>,
    /// Facilities demand rate, USD/kW on the all-slots peak.
    pub demand_charge_usd_per_kw: N,
    /// Time-related demand rate, USD/kW on the peak-TOU-class peak.
    pub demand_charge_peak_usd_per_kw: N,
}

/// What an observation says.
#[verifier::ext_equal]
pub struct ObservationModel<N> {
    pub slot: usize,
    pub slot_minutes: N,
    pub building_load_kw: N,
    pub price_usd_per_kwh: N,
    pub tou: TouClass,
    pub site_cap_kw: Option<N>,
    pub charge_efficiency: N,
    pub discharge_efficiency: N,
    pub dr_fsl_kw: Option<N>,
    pub sessions: Seq<SessionView<N>>,
    pub price_series: Seq<N>,
    pub building_series: Seq<N>,
    pub tou_series: Seq<TouClass>,
    pub dr_events: Seq<DrEvent<N>>,
    pub heuristic_threshold_kw: Option<N>,
    pub demand_charge_usd_per_kw: N,
    pub demand_charge_peak_usd_per_kw: N,
}

impl<'a, N> View for Observation<'a, N> {
    type V = ObservationModel<N>;

    open spec fn view(&self) -> ObservationModel<N> {
        ObservationModel {
            slot: self.slot,
            slot_minutes: self.slot_minutes,
            building_load_kw: self.building_load_kw,
            price_usd_per_kwh: self.price_usd_per_kwh,
            tou: self.tou,
            site_cap_kw: self.site_cap_kw,
            charge_efficiency: self.charge_efficiency,
            discharge_efficiency: self.discharge_efficiency,
            dr_fsl_kw: self.dr_fsl_kw,
            sessions: self.sessions@,
            price_series: self.price_series@,
            building_series: self.building_series@,
            tou_series: self.tou_series@,
            dr_events: self.dr_events@,
            heuristic_threshold_kw: self.heuristic_threshold_kw,
            demand_charge_usd_per_kw: self.demand_charge_usd_per_kw,
            demand_charge_peak_usd_per_kw: self.demand_charge_peak_usd_per_kw,
        }
    }
}

impl<N: Num> ObservationModel<N> {
    /// What every observation handed to a policy satisfies: the current slot
    /// lies inside the series, the series have one length, each session is
    /// found under its own index and has not departed yet.
    pub open spec fn well_formed(self) -> bool {
        &&& self.slot < self.building_series.len()
        &&& self.building_series.len() <= usize::MAX
        &&& self.price_series.len() == self.building_series.len()
        &&& self.tou_series.len() == self.building_series.len()
        &&& forall|i: int|
            0 <= i < self.sessions.len() ==> (#[trigger] self.sessions[i]).index == i
                && self.sessions[i].vehicle.departure_slot > self.slot
    }

    /// Slots in one day, at least one.
    pub open spec fn slots_per_day(self) -> int {
        let whole = count::<N>(1440).over(self.slot_minutes).whole();
        if whole == 0 {
            1
        } else {
            whole as int
        }
    }

    /// The building load that is known or expected for `slot`: the realized
    /// value up to now, then the value of the same slot of the most recent day
    /// that has been seen, and the current load where no such day exists.
    pub open spec fn forecast(self, slot: int) -> N {
        if slot <= self.slot {
            self.building_series[slot]
        } else {
            let day = self.slots_per_day();
            let back = ((slot - self.slot - 1) / day + 1) * day;
            if back <= slot {
                self.building_series[slot - back]
            } else {
                self.building_load_kw
            }
        }
    }
}

impl<'a, N: Num> Observation<'a, N> {
    /// Building load for `slot` from what has been seen up to now, kW: the
    /// realized value up to the current slot, daily persistence after it.
    pub fn building_forecast_kw(&self, slot: usize) -> (r: N)
        requires
            self@.slot < self@.building_series.len(),
        ensures
            r == self@.forecast(slot as int),
    {
        if slot <= self.slot {
            return self.building_series[slot];
        }
        let whole: usize = from_count::<N>(1440).div(self.slot_minutes).to_usize();
        let day: usize = if whole == 0 {
            1
        } else {
            whole
        };
        let ahead: usize = slot - self.slot - 1;
        proof {
            vstd::arithmetic::div_mod::lemma_fundamental_div_mod(ahead as int, day as int);
            vstd::arithmetic::div_mod::lemma_fundamental_div_mod(slot as int, day as int);
            vstd::arithmetic::div_mod::lemma_div_is_ordered(ahead as int, slot as int, day as int);
        }
        let steps: usize = ahead / day;
        if steps < slot / day {
            proof {
                let q = slot as int / day as int;
                let st = steps as int + 1;
                assert(st * day <= q * day) by (nonlinear_arith)
                    requires
                        st <= q,
                        day > 0,
                ;
                assert((steps + 1) * day == steps * day + day) by (nonlinear_arith);
                assert(day * (ahead as int / day as int) == steps * day) by (nonlinear_arith)
                    requires
                        steps == ahead as int / day as int,
                ;
                assert(day * q == q * day) by (nonlinear_arith);
            }
            self.building_series[slot - (steps + 1) * day]
        } else {
            proof {
                let q = slot as int / day as int;
                assert((steps + 1) * day >= (q + 1) * day) by (nonlinear_arith)
                    requires
                        steps >= q,
                        day > 0,
                ;
                assert((q + 1) * day == day * q + day) by (nonlinear_arith);
            }
            self.building_load_kw
        }
    }
}

} // verus!
