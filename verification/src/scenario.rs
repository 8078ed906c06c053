//! Scenario inputs: everything the simulator reads before time starts.
//!
//! A scenario is a manifest plus tables of vehicles, chargers, building load,
//! grid prices, and (optionally) demand-response events. All times are
//! expressed in slot indices; all energies in kWh; all powers in kW.

use vstd::prelude::*;

use crate::num::{one, one_of, Num};

verus! {

/// Simulation-wide parameters.
#[derive(Debug, Clone)]
pub struct Manifest<N> {
    /// Length of one time slot in minutes (e.g. 15).
    pub slot_minutes: N,
    /// Number of slots in the simulation horizon.
    pub horizon_slots: usize,
    /// Charging efficiency in (0, 1]: grid kWh -> battery kWh.
    pub charge_efficiency: N,
    /// Discharging efficiency in (0, 1]: battery kWh -> building kWh.
    pub discharge_efficiency: N,
    /// Site power cap in kW (chargers + building may not exceed this), if any.
    pub site_cap_kw: Option<N>,
    /// Demand charge in USD per kW of the billing-period peak net load
    /// (all slots; "facilities-related" component).
    pub demand_charge_usd_per_kw: N,
    /// Demand charge in USD per kW of the peak net load over slots whose TOU
    /// class is `peak` ("time-related" component).
    pub demand_charge_peak_usd_per_kw: N,
    /// Threshold (kW) seeding the EDF/LLF budget schedulers. Absent: 0.8 times
    /// the largest building load.
    pub heuristic_threshold_kw: Option<N>,
    /// Whether sessions of the same vehicle chain their SoC across sessions
    /// (arrival SoC of a later session = previous departure SoC minus
    /// `depletion_kwh`, clamped). When false, every session uses its own
    /// `soc_arrival_kwh`.
    pub persistence: bool,
    /// Table file names, relative to the scenario directory.
    pub vehicles_file: String,
    pub chargers_file: String,
    pub building_file: String,
    pub prices_file: String,
    pub dr_events_file: Option<String>,
}

/// The efficiency of a manifest that names none.
pub fn default_efficiency<N: Num>() -> (r: N)
    ensures
        r == one_of::<N>(),
{
    one()
}

/// Sessions chain unless the manifest says otherwise.
pub fn default_true() -> (r: bool)
    ensures
        r,
{
    true
}

/// The vehicles table of a manifest that names none.
pub fn default_vehicles_file() -> (r: String)
    ensures
        r@ == "vehicles.csv"@,
{
    "vehicles.csv".to_owned()
}

/// The chargers table of a manifest that names none.
pub fn default_chargers_file() -> (r: String)
    ensures
        r@ == "chargers.csv"@,
{
    "chargers.csv".to_owned()
}

/// The building-load table of a manifest that names none.
pub fn default_building_file() -> (r: String)
    ensures
        r@ == "building_load.csv"@,
{
    "building_load.csv".to_owned()
}

/// The price table of a manifest that names none.
pub fn default_prices_file() -> (r: String)
    ensures
        r@ == "grid_prices.csv"@,
{
    "grid_prices.csv".to_owned()
}

/// One charging session request. `vehicle_id` may recur across sessions
/// (persistence); sessions of the same vehicle must not overlap in time.
#[derive(Debug, Clone, Copy, PartialEq)]
pub struct Vehicle<N> {
    pub vehicle_id: u32,
    /// First slot the vehicle is plugged in (inclusive).
    pub arrival_slot: usize,
    /// First slot the vehicle is gone (exclusive end of the session).
    pub departure_slot: usize,
    /// Usable battery capacity, kWh.
    pub battery_kwh: N,
    /// State of charge at arrival, kWh.
    pub soc_arrival_kwh: N,
    /// State of charge the user wants by departure, kWh.
    pub soc_target_kwh: N,
    /// Vehicle-side charge power limit, kW.
    pub max_charge_kw: N,
    /// Vehicle-side discharge power limit, kW (0 disables V2B for this vehicle).
    pub max_discharge_kw: N,
    /// Hard SoC floor, kWh: discharge may never take the battery below this.
    pub min_soc_kwh: N,
    /// Operating ceiling, kWh: charging may never take the battery above this.
    /// Defaults to the full capacity.
    pub max_soc_kwh: Option<N>,
    /// Battery energy consumed between the previous session's departure and
    /// this arrival (driving), kWh. Only meaningful for the second and later
    /// sessions of a vehicle when persistence is on; ignored otherwise.
    pub depletion_kwh: N,
}

impl<N: Num> Vehicle<N> {
    /// The effective charging ceiling: `max_soc_kwh` when set, else capacity.
    pub open spec fn ceiling(self) -> N {
        match self.max_soc_kwh {
            Some(c) => c,
            None => self.battery_kwh,
        }
    }

    /// The effective charging ceiling: `max_soc_kwh` when set, else capacity.
    pub fn ceiling_kwh(&self) -> (r: N)
        ensures
            r == self.ceiling(),
    {
        match self.max_soc_kwh {
            Some(c) => c,
            None => self.battery_kwh,
        }
    }
}

/// A charging station port.
#[derive(Debug, Clone, Copy, PartialEq)]
pub struct Charger<N> {
    pub charger_id: u32,
    /// Port power limit, kW (applies to charge and discharge magnitude).
    pub max_kw: N,
    /// Whether the port supports discharge (V2B).
    pub bidirectional: bool,
}

/// Time-of-use class of a slot's price. Affects the time-related demand
/// charge (peak-class slots only) and is visible to policies.
#[derive(Debug, Clone, Copy, PartialEq, Eq, Default, Structural)]
pub enum TouClass {
    Peak,
    #[default]
    OffPeak,
    SuperOffPeak,
}

/// A demand-response event: during the window the building committed to keep
/// its net load at or below `fsl_kw` (firm service level).
///
/// Window convention: the window covers slots `s` with
/// `start_slot < s <= end_slot` (half-open on the left, `(start, end]`).
#[derive(Debug, Clone, Copy, PartialEq)]
pub struct DrEvent<N> {
    pub start_slot: usize,
    pub end_slot: usize,
    /// Committed maximum net load during the window, kW.
    pub fsl_kw: N,
    /// Penalty in USD per kWh of energy above the commitment.
    pub penalty_usd_per_kwh: N,
    /// Credit in USD per kW of committed reduction, paid if the window is honored.
    pub incentive_usd_per_kw: N,
    /// Baseline load the reduction is measured against, kW.
    pub baseline_kw: N,
}

impl<N> DrEvent<N> {
    /// Whether `slot` falls inside this event's `(start, end]` window.
    pub open spec fn covers(self, slot: int) -> bool {
        self.start_slot < slot <= self.end_slot
    }

    /// Whether `slot` falls inside this event's `(start, end]` window.
    pub fn contains(&self, slot: usize) -> (r: bool)
        ensures
            r == self.covers(slot as int),
    {
        slot > self.start_slot && slot <= self.end_slot
    }
}

/// A fully loaded scenario.
#[derive(Debug, Clone)]
pub struct Scenario<N> {
    pub manifest: Manifest<N>,
    pub vehicles: Vec<Vehicle<N>>,
    /// Chargers sorted by `charger_id`.
    pub chargers: Vec<Charger<N>>,
    /// Inflexible building load per slot, kW; length == horizon_slots.
    pub building_load_kw: Vec<N>,
    /// Grid energy price per slot, USD/kWh; length == horizon_slots.
    pub price_usd_per_kwh: Vec<N>,
    /// TOU class per slot; length == horizon_slots.
    pub tou_class: Vec<TouClass>,
    pub dr_events: Vec<DrEvent<N>>,
}

/// The simulation-wide parameters of a manifest, without its file names.
#[verifier::ext_equal]
pub struct Rules<N> {
    pub slot_minutes: N,
    pub horizon_slots: usize,
    pub charge_efficiency: N,
    pub discharge_efficiency: N,
    pub site_cap_kw: Option<N>,
    pub demand_charge_usd_per_kw: N,
    pub demand_charge_peak_usd_per_kw: N,
    pub heuristic_threshold_kw: Option<N>,
    pub persistence: bool,
}

/// What a scenario says: its rules and its tables.
#[verifier::ext_equal]
pub struct ScenarioModel<N> {
    pub rules: Rules<N>,
    pub vehicles: Seq<Vehicle<N>>,
    pub chargers: Seq<Charger<N>>,
    pub building: Seq<N>,
    pub price: Seq<N>,
    pub tou: Seq<TouClass>,
    pub events: Seq<DrEvent<N>>,
}

impl<N> View for Manifest<N> {
    type V = Rules<N>;

    open spec fn view(&self) -> Rules<N> {
        Rules {
            slot_minutes: self.slot_minutes,
            horizon_slots: self.horizon_slots,
            charge_efficiency: self.charge_efficiency,
            discharge_efficiency: self.discharge_efficiency,
            site_cap_kw: self.site_cap_kw,
            demand_charge_usd_per_kw: self.demand_charge_usd_per_kw,
            demand_charge_peak_usd_per_kw: self.demand_charge_peak_usd_per_kw,
            heuristic_threshold_kw: self.heuristic_threshold_kw,
            persistence: self.persistence,
        }
    }
}

impl<N> View for Scenario<N> {
    type V = ScenarioModel<N>;

    open spec fn view(&self) -> ScenarioModel<N> {
        ScenarioModel {
            rules: self.manifest@,
            vehicles: self.vehicles@,
            chargers: self.chargers@,
            building: self.building_load_kw@,
            price: self.price_usd_per_kwh@,
            tou: self.tou_class@,
            events: self.dr_events@,
        }
    }
}

/// The elements of `list` in a list of their own.
pub(crate) fn copied<T: Copy>(list: &Vec<T>) -> (r: Vec<T>)
    ensures
        r@ == list@,
{
    let mut out: Vec<T> = Vec::new();
    for i in 0..list.len()
        invariant
            out@ == list@.take(i as int),
    {
        out.push(list[i]);
        assert(out@ =~= list@.take(i + 1));
    }
    assert(out@ =~= list@);
    out
}

impl<N: Num> Manifest<N> {
    /// The two manifests name the same files.
    pub open spec fn same_files(&self, other: &Manifest<N>) -> bool {
        &&& self.vehicles_file@ == other.vehicles_file@
        &&& self.chargers_file@ == other.chargers_file@
        &&& self.building_file@ == other.building_file@
        &&& self.prices_file@ == other.prices_file@
        &&& match (self.dr_events_file, other.dr_events_file) {
            (Some(a), Some(b)) => a@ == b@,
            (None, None) => true,
            _ => false,
        }
    }

    /// The same manifest once more.
    pub(crate) fn duplicate(&self) -> (r: Manifest<N>)
        ensures
            r@ == self@,
            r.same_files(self),
    {
        let dr_events_file: Option<String> = match &self.dr_events_file {
            Some(name) => Some(name.clone()),
            None => None,
        };
        Manifest {
            slot_minutes: self.slot_minutes,
            horizon_slots: self.horizon_slots,
            charge_efficiency: self.charge_efficiency,
            discharge_efficiency: self.discharge_efficiency,
            site_cap_kw: self.site_cap_kw,
            demand_charge_usd_per_kw: self.demand_charge_usd_per_kw,
            demand_charge_peak_usd_per_kw: self.demand_charge_peak_usd_per_kw,
            heuristic_threshold_kw: self.heuristic_threshold_kw,
            persistence: self.persistence,
            vehicles_file: self.vehicles_file.clone(),
            chargers_file: self.chargers_file.clone(),
            building_file: self.building_file.clone(),
            prices_file: self.prices_file.clone(),
            dr_events_file,
        }
    }
}

impl<N: Num> Scenario<N> {
    /// The same scenario with other sessions and ports.
    pub(crate) fn with_sessions(&self, vehicles: Vec<Vehicle<N>>, chargers: Vec<Charger<N>>) -> (r: Scenario<N>)
        ensures
            r@ == (ScenarioModel { vehicles: vehicles@, chargers: chargers@, ..self@ }),
            r.manifest.same_files(&self.manifest),
    {
        let r = Scenario {
            manifest: self.manifest.duplicate(),
            vehicles,
            chargers,
            building_load_kw: copied(&self.building_load_kw),
            price_usd_per_kwh: copied(&self.price_usd_per_kwh),
            tou_class: copied(&self.tou_class),
            dr_events: copied(&self.dr_events),
        };
        assert(r@ =~= (ScenarioModel { vehicles: vehicles@, chargers: chargers@, ..self@ }));
        r
    }
}

#[derive(Debug)]
pub enum ScenarioError {
    /// Reading a file failed, with the system's words for it.
    Io(String),
    /// The manifest does not parse, with the parser's words for it.
    Json(String),
    /// A table does not parse, with the parser's words for it.
    Csv(String),
    /// The contents break an invariant.
    Invalid(String),
}

/// What a scenario error says.
pub open spec fn scenario_error_text(e: ScenarioError) -> Seq<char> {
    match e {
        ScenarioError::Io(m) => "io error: "@ + m@,
        ScenarioError::Json(m) => "manifest error: "@ + m@,
        ScenarioError::Csv(m) => "csv error: "@ + m@,
        ScenarioError::Invalid(m) => "invalid scenario: "@ + m@,
    }
}

impl ScenarioError {
    /// The error in words.
    pub fn message(&self) -> (r: String)
        ensures
            r@ == scenario_error_text(*self),
    {
        match self {
            ScenarioError::Io(m) => {
                let mut out = "io error: ".to_owned();
                out.append(m.as_str());
                out
            },
            ScenarioError::Json(m) => {
                let mut out = "manifest error: ".to_owned();
                out.append(m.as_str());
                out
            },
            ScenarioError::Csv(m) => {
                let mut out = "csv error: ".to_owned();
                out.append(m.as_str());
                out
            },
            ScenarioError::Invalid(m) => {
                let mut out = "invalid scenario: ".to_owned();
                out.append(m.as_str());
                out
            },
        }
    }
}

} // verus!
