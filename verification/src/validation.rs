//! Structural invariants of scenario inputs.

use vstd::prelude::*;

use crate::num::{one, one_of, zero, zero_of, Num};
use crate::order::{
    ranks_consistently, sort, stable_order, stable_order_is_arrangement, stable_order_is_sorted, Rank, Ranked,
};
use crate::scenario::{Charger, DrEvent, Manifest, Scenario, ScenarioError, ScenarioModel, Vehicle};
use crate::text::{decimal, push_u64, push_usize};

verus! {

/// What is wrong with a scenario.
#[derive(Debug, Clone, Copy, PartialEq, Eq)]
pub enum Issue {
    /// A manifest number.
    ManifestNotFinite(&'static str),
    /// The building load of a slot.
    LoadNotFinite(usize),
    /// The price of a slot.
    PriceNotFinite(usize),
    /// A number of a vehicle.
    VehicleNotFinite(u32, &'static str),
    /// The power limit of a charger.
    ChargerNotFinite(u32),
    /// A number of the event with this window.
    EventNotFinite(usize, usize, &'static str),
    DuplicateCharger(u32),
    SlotMinutesNotPositive,
    ChargeEfficiencyOutOfRange,
    DischargeEfficiencyOutOfRange,
    DepartureNotAfterArrival(u32),
    DepartureBeyondHorizon(u32),
    ArrivalSocOutOfRange(u32),
    ArrivalSocBelowFloor(u32),
    TargetOutOfRange(u32),
    FloorOutOfRange(u32),
    NegativeDepletion(u32),
    CeilingOutOfRange(u32),
    /// Vehicle, arrival of the later session, departure of the earlier one.
    SessionsOverlap(u32, usize, usize),
    EmptyWindow,
    /// Window and horizon.
    EventBeyondHorizon(usize, usize, usize),
    /// Two windows.
    EventsOverlap(usize, usize, usize, usize),
    LimitsDisagree(u32),
}

/// `vehicle {id}: {rest}`.
pub open spec fn vehicle_text(id: u32, rest: Seq<char>) -> Seq<char> {
    "vehicle "@ + decimal(id as nat) + ": "@ + rest
}

/// `({start}, {end}]`.
pub open spec fn window_text(start: usize, end: usize) -> Seq<char> {
    "("@ + decimal(start as nat) + ", "@ + decimal(end as nat) + "]"@
}

/// What an issue says.
pub open spec fn issue_text(issue: Issue) -> Seq<char> {
    match issue {
        Issue::ManifestNotFinite(what) => what@ + " is not a finite number"@,
        Issue::LoadNotFinite(s) => "building_load at slot "@ + decimal(s as nat)
            + " is not a finite number"@,
        Issue::PriceNotFinite(s) => "price at slot "@ + decimal(s as nat) + " is not a finite number"@,
        Issue::VehicleNotFinite(id, what) => vehicle_text(id, what@) + " is not a finite number"@,
        Issue::ChargerNotFinite(id) => "charger "@ + decimal(id as nat)
            + ": max_kw is not a finite number"@,
        Issue::EventNotFinite(start, end, what) => "DR event "@ + window_text(start, end) + ": "@ + what@
            + " is not a finite number"@,
        Issue::DuplicateCharger(id) => "duplicate charger_id "@ + decimal(id as nat),
        Issue::SlotMinutesNotPositive => "slot_minutes must be positive"@,
        Issue::ChargeEfficiencyOutOfRange => "charge_efficiency must be in (0, 1]"@,
        Issue::DischargeEfficiencyOutOfRange => "discharge_efficiency must be in (0, 1]"@,
        Issue::DepartureNotAfterArrival(id) => vehicle_text(
            id,
            "departure_slot must be after arrival_slot"@,
        ),
        Issue::DepartureBeyondHorizon(id) => vehicle_text(id, "departure_slot beyond horizon"@),
        Issue::ArrivalSocOutOfRange(id) => vehicle_text(id, "soc_arrival_kwh outside [0, battery_kwh]"@),
        Issue::ArrivalSocBelowFloor(id) => vehicle_text(
            id,
            "soc_arrival_kwh below min_soc_kwh (arrives under its own floor)"@,
        ),
        Issue::TargetOutOfRange(id) => vehicle_text(id, "soc_target_kwh outside [0, battery_kwh]"@),
        Issue::FloorOutOfRange(id) => vehicle_text(id, "min_soc_kwh outside [0, battery_kwh]"@),
        Issue::NegativeDepletion(id) => vehicle_text(id, "depletion_kwh must be non-negative"@),
        Issue::CeilingOutOfRange(id) => vehicle_text(
            id,
            "max_soc_kwh must lie in [min_soc, battery] and bound arrival/target"@,
        ),
        Issue::SessionsOverlap(id, arrival, departure) => vehicle_text(id, "sessions overlap (arrival "@)
            + decimal(arrival as nat) + " before departure "@ + decimal(departure as nat) + ")"@,
        Issue::EmptyWindow => "DR event with empty (start, end] window"@,
        Issue::EventBeyondHorizon(start, end, horizon) => "DR event "@ + window_text(start, end)
            + " extends beyond the horizon ("@ + decimal(horizon as nat) + " slots)"@,
        Issue::EventsOverlap(s1, e1, s2, e2) => "DR events overlap: "@ + window_text(s1, e1) + " and "@
            + window_text(s2, e2),
        Issue::LimitsDisagree(id) => vehicle_text(
            id,
            "sessions disagree on battery/floor/power limits"@,
        ),
    }
}

/// Writes `vehicle {id}: {rest}`.
fn make_vehicle_text(id: u32, rest: &str) -> (r: String)
    ensures
        r@ == vehicle_text(id, rest@),
{
    let mut out = "vehicle ".to_owned();
    push_u64(&mut out, id as u64);
    out.append(": ");
    out.append(rest);
    out
}

/// Appends `({start}, {end}]`.
fn push_window(out: &mut String, start: usize, end: usize)
    ensures
        final(out)@ == old(out)@ + window_text(start, end),
{
    let ghost before = out@;
    let mut w = "(".to_owned();
    push_usize(&mut w, start);
    w.append(", ");
    push_usize(&mut w, end);
    w.append("]");
    out.append(w.as_str());
}

impl Issue {
    /// The issue in words.
    pub fn text(&self) -> (r: String)
        ensures
            r@ == issue_text(*self),
    {
        match self {
            Issue::ManifestNotFinite(what) => {
                let mut out = String::new();
                out.append(what);
                out.append(" is not a finite number");
                assert(out@ =~= issue_text(*self));
                out
            },
            Issue::LoadNotFinite(s) => {
                let mut out = "building_load at slot ".to_owned();
                push_usize(&mut out, *s);
                out.append(" is not a finite number");
                out
            },
            Issue::PriceNotFinite(s) => {
                let mut out = "price at slot ".to_owned();
                push_usize(&mut out, *s);
                out.append(" is not a finite number");
                out
            },
            Issue::VehicleNotFinite(id, what) => {
                let mut out = make_vehicle_text(*id, what);
                out.append(" is not a finite number");
                out
            },
            Issue::ChargerNotFinite(id) => {
                let mut out = "charger ".to_owned();
                push_u64(&mut out, *id as u64);
                out.append(": max_kw is not a finite number");
                out
            },
            Issue::EventNotFinite(start, end, what) => {
                let mut out = "DR event ".to_owned();
                push_window(&mut out, *start, *end);
                out.append(": ");
                out.append(what);
                out.append(" is not a finite number");
                out
            },
            Issue::DuplicateCharger(id) => {
                let mut out = "duplicate charger_id ".to_owned();
                push_u64(&mut out, *id as u64);
                out
            },
            Issue::SlotMinutesNotPositive => "slot_minutes must be positive".to_owned(),
            Issue::ChargeEfficiencyOutOfRange => "charge_efficiency must be in (0, 1]".to_owned(),
            Issue::DischargeEfficiencyOutOfRange => "discharge_efficiency must be in (0, 1]".to_owned(),
            Issue::DepartureNotAfterArrival(id) => make_vehicle_text(
                *id,
                "departure_slot must be after arrival_slot",
            ),
            Issue::DepartureBeyondHorizon(id) => make_vehicle_text(*id, "departure_slot beyond horizon"),
            Issue::ArrivalSocOutOfRange(id) => make_vehicle_text(
                *id,
                "soc_arrival_kwh outside [0, battery_kwh]",
            ),
            Issue::ArrivalSocBelowFloor(id) => make_vehicle_text(
                *id,
                "soc_arrival_kwh below min_soc_kwh (arrives under its own floor)",
            ),
            Issue::TargetOutOfRange(id) => make_vehicle_text(
                *id,
                "soc_target_kwh outside [0, battery_kwh]",
            ),
            Issue::FloorOutOfRange(id) => make_vehicle_text(*id, "min_soc_kwh outside [0, battery_kwh]"),
            Issue::NegativeDepletion(id) => make_vehicle_text(*id, "depletion_kwh must be non-negative"),
            Issue::CeilingOutOfRange(id) => make_vehicle_text(
                *id,
                "max_soc_kwh must lie in [min_soc, battery] and bound arrival/target",
            ),
            Issue::SessionsOverlap(id, arrival, departure) => {
                let mut out = make_vehicle_text(*id, "sessions overlap (arrival ");
                push_usize(&mut out, *arrival);
                out.append(" before departure ");
                push_usize(&mut out, *departure);
                out.append(")");
                out
            },
            Issue::EmptyWindow => "DR event with empty (start, end] window".to_owned(),
            Issue::EventBeyondHorizon(start, end, horizon) => {
                let mut out = "DR event ".to_owned();
                push_window(&mut out, *start, *end);
                out.append(" extends beyond the horizon (");
                push_usize(&mut out, *horizon);
                out.append(" slots)");
                out
            },
            Issue::EventsOverlap(s1, e1, s2, e2) => {
                let mut out = "DR events overlap: ".to_owned();
                push_window(&mut out, *s1, *e1);
                out.append(" and ");
                push_window(&mut out, *s2, *e2);
                out
            },
            Issue::LimitsDisagree(id) => make_vehicle_text(
                *id,
                "sessions disagree on battery/floor/power limits",
            ),
        }
    }
}

// ------------------------------------------------------------ first issues

/// The first issue that `check` finds among the first `n` rows.
pub open spec fn first_of(n: nat, check: spec_fn(int) -> Option<Issue>) -> Option<Issue>
    decreases n,
{
    if n == 0 {
        None
    } else {
        match first_of((n - 1) as nat, check) {
            Some(issue) => Some(issue),
            None => check(n - 1),
        }
    }
}

/// The first issue, else the second.
pub open spec fn or_else(a: Option<Issue>, b: Option<Issue>) -> Option<Issue> {
    match a {
        Some(issue) => Some(issue),
        None => b,
    }
}

proof fn lemma_first_is(n: nat, check: spec_fn(int) -> Option<Issue>, i: int)
    requires
        0 <= i < n,
        forall|j: int| 0 <= j < i ==> #[trigger] check(j) is None,
        check(i) is Some,
    ensures
        first_of(n, check) == check(i),
    decreases n,
{
    lemma_first_none(i as nat, check);
    if n > i + 1 {
        lemma_first_is((n - 1) as nat, check, i);
    }
}

proof fn lemma_first_none(n: nat, check: spec_fn(int) -> Option<Issue>)
    ensures
        first_of(n, check) is None <==> forall|j: int| 0 <= j < n ==> #[trigger] check(j) is None,
    decreases n,
{
    if n > 0 {
        lemma_first_none((n - 1) as nat, check);
        assert(check(n - 1) is None || check(n - 1) is Some);
        if first_of(n, check) is None {
            assert forall|j: int| 0 <= j < n implies #[trigger] check(j) is None by {
                if j < n - 1 {
                    assert(check(j) is None);
                }
            }
        }
    }
}

/// The issue of a manifest number.
pub open spec fn manifest_number<N: Num>(x: N, what: &'static str) -> Option<Issue> {
    if x.finite() {
        None
    } else {
        Some(Issue::ManifestNotFinite(what))
    }
}

/// The first manifest number that is not finite.
pub open spec fn manifest_issue<N: Num>(sc: ScenarioModel<N>) -> Option<Issue> {
    let m = sc.rules;
    or_else(
        manifest_number(m.slot_minutes, "slot_minutes"),
        or_else(
            manifest_number(m.charge_efficiency, "charge_efficiency"),
            or_else(
                manifest_number(m.discharge_efficiency, "discharge_efficiency"),
                or_else(
                    manifest_number(m.demand_charge_usd_per_kw, "demand_charge_usd_per_kw"),
                    or_else(
                        manifest_number(
                            m.demand_charge_peak_usd_per_kw,
                            "demand_charge_peak_usd_per_kw",
                        ),
                        or_else(
                            match m.site_cap_kw {
                                Some(cap) => manifest_number(cap, "site_cap_kw"),
                                None => None,
                            },
                            match m.heuristic_threshold_kw {
                                Some(seed) => manifest_number(seed, "heuristic_threshold_kw"),
                                None => None,
                            },
                        ),
                    ),
                ),
            ),
        ),
    )
}

/// The building load of slot `s` is not finite.
pub open spec fn load_issue<N: Num>(sc: ScenarioModel<N>, s: int) -> Option<Issue> {
    if sc.building[s].finite() {
        None
    } else {
        Some(Issue::LoadNotFinite(s as usize))
    }
}

/// The price of slot `s` is not finite.
pub open spec fn price_issue<N: Num>(sc: ScenarioModel<N>, s: int) -> Option<Issue> {
    if sc.price[s].finite() {
        None
    } else {
        Some(Issue::PriceNotFinite(s as usize))
    }
}

/// The issue of a vehicle number.
pub open spec fn vehicle_number<N: Num>(v: Vehicle<N>, x: N, what: &'static str) -> Option<Issue> {
    if x.finite() {
        None
    } else {
        Some(Issue::VehicleNotFinite(v.vehicle_id, what))
    }
}

/// The first number of a vehicle that is not finite.
pub open spec fn vehicle_finite_issue<N: Num>(v: Vehicle<N>) -> Option<Issue> {
    or_else(
        vehicle_number(v, v.battery_kwh, "battery_kwh"),
        or_else(
            vehicle_number(v, v.soc_arrival_kwh, "soc_arrival_kwh"),
            or_else(
                vehicle_number(v, v.soc_target_kwh, "soc_target_kwh"),
                or_else(
                    vehicle_number(v, v.max_charge_kw, "max_charge_kw"),
                    or_else(
                        vehicle_number(v, v.max_discharge_kw, "max_discharge_kw"),
                        or_else(
                            vehicle_number(v, v.min_soc_kwh, "min_soc_kwh"),
                            vehicle_number(v, v.depletion_kwh, "depletion_kwh"),
                        ),
                    ),
                ),
            ),
        ),
    )
}

/// The power limit of charger `c` is not finite.
pub open spec fn charger_issue<N: Num>(c: Charger<N>) -> Option<Issue> {
    if c.max_kw.finite() {
        None
    } else {
        Some(Issue::ChargerNotFinite(c.charger_id))
    }
}

/// The issue of an event number.
pub open spec fn event_number<N: Num>(e: DrEvent<N>, x: N, what: &'static str) -> Option<Issue> {
    if x.finite() {
        None
    } else {
        Some(Issue::EventNotFinite(e.start_slot, e.end_slot, what))
    }
}

/// The first number of an event that is not finite.
pub open spec fn event_finite_issue<N: Num>(e: DrEvent<N>) -> Option<Issue> {
    or_else(
        event_number(e, e.fsl_kw, "fsl_kw"),
        or_else(
            event_number(e, e.penalty_usd_per_kwh, "penalty_usd_per_kwh"),
            or_else(
                event_number(e, e.incentive_usd_per_kw, "incentive_usd_per_kw"),
                event_number(e, e.baseline_kw, "baseline_kw"),
            ),
        ),
    )
}

/// The rank of a charger: its id.
pub open spec fn charger_rank<N>(c: Charger<N>) -> Rank {
    Rank { major: c.charger_id as u64, middle: 0, minor: 0 }
}

/// The chargers by id.
pub open spec fn charger_order<N>(chargers: Seq<Charger<N>>) -> Seq<usize> {
    stable_order(Seq::new(chargers.len(), |i: int| charger_rank(chargers[i])))
}

/// The charger at position `p` by id has the id of the next one.
pub open spec fn duplicate_issue<N>(chargers: Seq<Charger<N>>, p: int) -> Option<Issue> {
    let order = charger_order(chargers);
    if chargers[order[p] as int].charger_id == chargers[order[p + 1] as int].charger_id {
        Some(Issue::DuplicateCharger(chargers[order[p] as int].charger_id))
    } else {
        None
    }
}

/// `x` lies in (0, 1].
pub open spec fn is_efficiency<N: Num>(x: N) -> bool {
    zero_of::<N>().below(x) && x.at_most(one_of())
}

/// A manifest number lies outside its range.
pub open spec fn range_issue<N: Num>(sc: ScenarioModel<N>) -> Option<Issue> {
    if !zero_of::<N>().below(sc.rules.slot_minutes) {
        Some(Issue::SlotMinutesNotPositive)
    } else if !is_efficiency(sc.rules.charge_efficiency) {
        Some(Issue::ChargeEfficiencyOutOfRange)
    } else if !is_efficiency(sc.rules.discharge_efficiency) {
        Some(Issue::DischargeEfficiencyOutOfRange)
    } else {
        None
    }
}

/// `x` lies in [0, battery].
pub open spec fn fits_battery<N: Num>(x: N, v: Vehicle<N>) -> bool {
    zero_of::<N>().at_most(x) && x.at_most(v.battery_kwh)
}

/// The operating ceiling, where there is one, is finite, lies between the floor
/// and the capacity, and bounds arrival and target.
pub open spec fn ceiling_is_fit<N: Num>(v: Vehicle<N>) -> bool {
    v.max_soc_kwh matches Some(c) ==> {
        &&& c.finite()
        &&& v.min_soc_kwh.at_most(c)
        &&& c.at_most(v.battery_kwh)
        &&& v.soc_arrival_kwh.at_most(c)
        &&& v.soc_target_kwh.at_most(c)
    }
}

/// The first thing that is wrong with a session on its own.
pub open spec fn vehicle_issue<N: Num>(v: Vehicle<N>, horizon: usize) -> Option<Issue> {
    let id = v.vehicle_id;
    if v.departure_slot <= v.arrival_slot {
        Some(Issue::DepartureNotAfterArrival(id))
    } else if v.departure_slot > horizon {
        Some(Issue::DepartureBeyondHorizon(id))
    } else if !fits_battery(v.soc_arrival_kwh, v) {
        Some(Issue::ArrivalSocOutOfRange(id))
    } else if !v.min_soc_kwh.at_most(v.soc_arrival_kwh) {
        Some(Issue::ArrivalSocBelowFloor(id))
    } else if !fits_battery(v.soc_target_kwh, v) {
        Some(Issue::TargetOutOfRange(id))
    } else if !fits_battery(v.min_soc_kwh, v) {
        Some(Issue::FloorOutOfRange(id))
    } else if !zero_of::<N>().at_most(v.depletion_kwh) {
        Some(Issue::NegativeDepletion(id))
    } else if !ceiling_is_fit(v) {
        Some(Issue::CeilingOutOfRange(id))
    } else {
        None
    }
}

/// The rank of a session: by vehicle, arrival and departure.
pub open spec fn session_rank<N>(v: Vehicle<N>) -> Rank {
    Rank {
        major: v.vehicle_id as u64,
        middle: v.arrival_slot as u64,
        minor: v.departure_slot as u64,
    }
}

/// The sessions by vehicle, arrival and departure.
pub open spec fn session_order<N>(vehicles: Seq<Vehicle<N>>) -> Seq<usize> {
    stable_order(Seq::new(vehicles.len(), |i: int| session_rank(vehicles[i])))
}

/// The session at position `p` overlaps the next one of the same vehicle.
pub open spec fn overlap_issue<N>(vehicles: Seq<Vehicle<N>>, p: int) -> Option<Issue> {
    let order = session_order(vehicles);
    let a = vehicles[order[p] as int];
    let b = vehicles[order[p + 1] as int];
    if a.vehicle_id == b.vehicle_id && b.arrival_slot < a.departure_slot {
        Some(Issue::SessionsOverlap(a.vehicle_id, b.arrival_slot, a.departure_slot))
    } else {
        None
    }
}

/// The window of an event is empty or leaves the horizon.
pub open spec fn event_issue<N>(e: DrEvent<N>, horizon: usize) -> Option<Issue> {
    if e.end_slot <= e.start_slot {
        Some(Issue::EmptyWindow)
    } else if e.end_slot >= horizon {
        Some(Issue::EventBeyondHorizon(e.start_slot, e.end_slot, horizon))
    } else {
        None
    }
}

/// The rank of an event: by start and end.
pub open spec fn event_rank<N>(e: DrEvent<N>) -> Rank {
    Rank { major: e.start_slot as u64, middle: e.end_slot as u64, minor: 0 }
}

/// The events by start and end.
pub open spec fn event_order<N>(events: Seq<DrEvent<N>>) -> Seq<usize> {
    stable_order(Seq::new(events.len(), |i: int| event_rank(events[i])))
}

/// The event at position `p` overlaps the next one.
pub open spec fn events_issue<N>(events: Seq<DrEvent<N>>, p: int) -> Option<Issue> {
    let order = event_order(events);
    let a = events[order[p] as int];
    let b = events[order[p + 1] as int];
    if b.start_slot < a.end_slot {
        Some(Issue::EventsOverlap(a.start_slot, a.end_slot, b.start_slot, b.end_slot))
    } else {
        None
    }
}

/// The first row of vehicle `id` among the first `n`.
pub open spec fn first_row<N>(vehicles: Seq<Vehicle<N>>, id: u32, n: nat) -> Option<int>
    decreases n,
{
    if n == 0 {
        None
    } else {
        match first_row(vehicles, id, (n - 1) as nat) {
            Some(i) => Some(i),
            None => if vehicles[n - 1].vehicle_id == id {
                Some(n - 1)
            } else {
                None
            },
        }
    }
}

/// Both ceilings are absent, or equal.
pub open spec fn same_ceiling<N: Num>(a: Option<N>, b: Option<N>) -> bool {
    match (a, b) {
        (Some(x), Some(y)) => x.same(y),
        (None, None) => true,
        _ => false,
    }
}

/// Two sessions agree on battery, floor, ceiling and power limits.
pub open spec fn same_limits<N: Num>(v: Vehicle<N>, w: Vehicle<N>) -> bool {
    &&& v.battery_kwh.same(w.battery_kwh)
    &&& v.min_soc_kwh.same(w.min_soc_kwh)
    &&& same_ceiling(v.max_soc_kwh, w.max_soc_kwh)
    &&& v.max_charge_kw.same(w.max_charge_kw)
    &&& v.max_discharge_kw.same(w.max_discharge_kw)
}

/// Row `i` disagrees with the first session of the same vehicle.
pub open spec fn limits_issue<N: Num>(vehicles: Seq<Vehicle<N>>, i: int) -> Option<Issue> {
    match first_row(vehicles, vehicles[i].vehicle_id, i as nat) {
        Some(f) => if same_limits(vehicles[i], vehicles[f]) {
            None
        } else {
            Some(Issue::LimitsDisagree(vehicles[i].vehicle_id))
        },
        None => None,
    }
}

/// The building load of each slot.
pub open spec fn load_check<N: Num>(sc: ScenarioModel<N>) -> spec_fn(int) -> Option<Issue> {
    |s: int| load_issue(sc, s)
}

/// The price of each slot.
pub open spec fn price_check<N: Num>(sc: ScenarioModel<N>) -> spec_fn(int) -> Option<Issue> {
    |s: int| price_issue(sc, s)
}

/// The numbers of each session.
pub open spec fn vehicle_finite_check<N: Num>(vehicles: Seq<Vehicle<N>>) -> spec_fn(int) -> Option<Issue> {
    |i: int| vehicle_finite_issue(vehicles[i])
}

/// The power limit of each charger.
pub open spec fn charger_check<N: Num>(chargers: Seq<Charger<N>>) -> spec_fn(int) -> Option<Issue> {
    |i: int| charger_issue(chargers[i])
}

/// The numbers of each event.
pub open spec fn event_finite_check<N: Num>(events: Seq<DrEvent<N>>) -> spec_fn(int) -> Option<Issue> {
    |i: int| event_finite_issue(events[i])
}

/// Each session on its own.
pub open spec fn vehicle_check<N: Num>(vehicles: Seq<Vehicle<N>>, horizon: usize) -> spec_fn(int) -> Option<Issue> {
    |i: int| vehicle_issue(vehicles[i], horizon)
}

/// Each pair of neighbouring sessions.
pub open spec fn overlap_check<N: Num>(vehicles: Seq<Vehicle<N>>) -> spec_fn(int) -> Option<Issue> {
    |p: int| overlap_issue(vehicles, p)
}

/// The window of each event.
pub open spec fn event_check<N: Num>(events: Seq<DrEvent<N>>, horizon: usize) -> spec_fn(int) -> Option<Issue> {
    |i: int| event_issue(events[i], horizon)
}

/// Each pair of neighbouring events.
pub open spec fn events_check<N: Num>(events: Seq<DrEvent<N>>) -> spec_fn(int) -> Option<Issue> {
    |p: int| events_issue(events, p)
}

/// The limits of each session.
pub open spec fn limits_check<N: Num>(vehicles: Seq<Vehicle<N>>) -> spec_fn(int) -> Option<Issue> {
    |i: int| limits_issue(vehicles, i)
}

/// Each pair of neighbouring charger ids.
pub open spec fn duplicate_check<N: Num>(chargers: Seq<Charger<N>>) -> spec_fn(int) -> Option<Issue> {
    |p: int| duplicate_issue(chargers, p)
}

/// The pairs of neighbours in a list of `n` rows.
pub open spec fn pairs(n: nat) -> nat {
    if n == 0 {
        0
    } else {
        (n - 1) as nat
    }
}

/// The first thing that is wrong with the numbers of a scenario: some number is
/// not finite.
pub open spec fn finite_issue<N: Num>(sc: ScenarioModel<N>) -> Option<Issue> {
    or_else(
        manifest_issue(sc),
        or_else(
            first_of(sc.building.len(), load_check(sc)),
            or_else(
                first_of(sc.price.len(), price_check(sc)),
                or_else(
                    first_of(sc.vehicles.len(), vehicle_finite_check(sc.vehicles)),
                    or_else(
                        first_of(sc.chargers.len(), charger_check(sc.chargers)),
                        first_of(sc.events.len(), event_finite_check(sc.events)),
                    ),
                ),
            ),
        ),
    )
}

/// The first thing that is wrong with the rows of a scenario.
pub open spec fn row_issue<N: Num>(sc: ScenarioModel<N>) -> Option<Issue> {
    let horizon = sc.rules.horizon_slots;
    or_else(
        first_of(sc.vehicles.len(), vehicle_check(sc.vehicles, horizon)),
        or_else(
            first_of(pairs(sc.vehicles.len()), overlap_check(sc.vehicles)),
            or_else(
                first_of(sc.events.len(), event_check(sc.events, horizon)),
                or_else(
                    first_of(pairs(sc.events.len()), events_check(sc.events)),
                    first_of(sc.vehicles.len(), limits_check(sc.vehicles)),
                ),
            ),
        ),
    )
}

/// The first thing that is wrong with a scenario.
pub open spec fn scenario_issue<N: Num>(sc: ScenarioModel<N>) -> Option<Issue> {
    or_else(
        finite_issue(sc),
        or_else(
            first_of(pairs(sc.chargers.len()), duplicate_check(sc.chargers)),
            or_else(range_issue(sc), row_issue(sc)),
        ),
    )
}

// ------------------------------------------------------------------ checks

/// The issue of a manifest number.
fn check_manifest_number<N: Num>(x: N, what: &'static str) -> (r: Option<Issue>)
    ensures
        r == manifest_number(x, what),
{
    if x.is_finite() {
        None
    } else {
        Some(Issue::ManifestNotFinite(what))
    }
}

/// The issue of a vehicle number.
fn check_vehicle_number<N: Num>(v: &Vehicle<N>, x: N, what: &'static str) -> (r: Option<Issue>)
    ensures
        r == vehicle_number(*v, x, what),
{
    if x.is_finite() {
        None
    } else {
        Some(Issue::VehicleNotFinite(v.vehicle_id, what))
    }
}

/// The issue of an event number.
fn check_event_number<N: Num>(e: &DrEvent<N>, x: N, what: &'static str) -> (r: Option<Issue>)
    ensures
        r == event_number(*e, x, what),
{
    if x.is_finite() {
        None
    } else {
        Some(Issue::EventNotFinite(e.start_slot, e.end_slot, what))
    }
}

/// The first issue, else the second.
fn either(a: Option<Issue>, b: Option<Issue>) -> (r: Option<Issue>)
    ensures
        r == or_else(a, b),
{
    match a {
        Some(issue) => Some(issue),
        None => b,
    }
}

/// The first manifest number that is not finite.
fn check_manifest<N: Num>(scenario: &Scenario<N>) -> (r: Option<Issue>)
    ensures
        r == manifest_issue(scenario@),
{
    let m = &scenario.manifest;
    let cap: Option<Issue> = match m.site_cap_kw {
        Some(cap) => check_manifest_number(cap, "site_cap_kw"),
        None => None,
    };
    let seed: Option<Issue> = match m.heuristic_threshold_kw {
        Some(seed) => check_manifest_number(seed, "heuristic_threshold_kw"),
        None => None,
    };
    either(
        check_manifest_number(m.slot_minutes, "slot_minutes"),
        either(
            check_manifest_number(m.charge_efficiency, "charge_efficiency"),
            either(
                check_manifest_number(m.discharge_efficiency, "discharge_efficiency"),
                either(
                    check_manifest_number(m.demand_charge_usd_per_kw, "demand_charge_usd_per_kw"),
                    either(
                        check_manifest_number(
                            m.demand_charge_peak_usd_per_kw,
                            "demand_charge_peak_usd_per_kw",
                        ),
                        either(cap, seed),
                    ),
                ),
            ),
        ),
    )
}

/// The first number of a vehicle that is not finite.
fn check_vehicle_numbers<N: Num>(v: &Vehicle<N>) -> (r: Option<Issue>)
    ensures
        r == vehicle_finite_issue(*v),
{
    either(
        check_vehicle_number(v, v.battery_kwh, "battery_kwh"),
        either(
            check_vehicle_number(v, v.soc_arrival_kwh, "soc_arrival_kwh"),
            either(
                check_vehicle_number(v, v.soc_target_kwh, "soc_target_kwh"),
                either(
                    check_vehicle_number(v, v.max_charge_kw, "max_charge_kw"),
                    either(
                        check_vehicle_number(v, v.max_discharge_kw, "max_discharge_kw"),
                        either(
                            check_vehicle_number(v, v.min_soc_kwh, "min_soc_kwh"),
                            check_vehicle_number(v, v.depletion_kwh, "depletion_kwh"),
                        ),
                    ),
                ),
            ),
        ),
    )
}

/// The first number of an event that is not finite.
fn check_event_numbers<N: Num>(e: &DrEvent<N>) -> (r: Option<Issue>)
    ensures
        r == event_finite_issue(*e),
{
    either(
        check_event_number(e, e.fsl_kw, "fsl_kw"),
        either(
            check_event_number(e, e.penalty_usd_per_kwh, "penalty_usd_per_kwh"),
            either(
                check_event_number(e, e.incentive_usd_per_kw, "incentive_usd_per_kw"),
                check_event_number(e, e.baseline_kw, "baseline_kw"),
            ),
        ),
    )
}

/// `x` lies in [0, battery].
fn check_battery<N: Num>(x: N, v: &Vehicle<N>) -> (r: bool)
    ensures
        r == fits_battery(x, *v),
{
    zero::<N>().le(x) && x.le(v.battery_kwh)
}

/// The operating ceiling, where there is one, is fit.
fn check_ceiling<N: Num>(v: &Vehicle<N>) -> (r: bool)
    ensures
        r == ceiling_is_fit(*v),
{
    match v.max_soc_kwh {
        Some(c) => c.is_finite() && v.min_soc_kwh.le(c) && c.le(v.battery_kwh) && v.soc_arrival_kwh.le(c)
            && v.soc_target_kwh.le(c),
        None => true,
    }
}

/// The first thing that is wrong with a session on its own.
fn check_vehicle<N: Num>(v: &Vehicle<N>, horizon: usize) -> (r: Option<Issue>)
    ensures
        r == vehicle_issue(*v, horizon),
{
    let id: u32 = v.vehicle_id;
    if v.departure_slot <= v.arrival_slot {
        Some(Issue::DepartureNotAfterArrival(id))
    } else if v.departure_slot > horizon {
        Some(Issue::DepartureBeyondHorizon(id))
    } else if !check_battery(v.soc_arrival_kwh, v) {
        Some(Issue::ArrivalSocOutOfRange(id))
    } else if !v.min_soc_kwh.le(v.soc_arrival_kwh) {
        Some(Issue::ArrivalSocBelowFloor(id))
    } else if !check_battery(v.soc_target_kwh, v) {
        Some(Issue::TargetOutOfRange(id))
    } else if !check_battery(v.min_soc_kwh, v) {
        Some(Issue::FloorOutOfRange(id))
    } else if !zero::<N>().le(v.depletion_kwh) {
        Some(Issue::NegativeDepletion(id))
    } else if !check_ceiling(v) {
        Some(Issue::CeilingOutOfRange(id))
    } else {
        None
    }
}

/// The window of an event is empty or leaves the horizon.
fn check_event<N: Num>(e: &DrEvent<N>, horizon: usize) -> (r: Option<Issue>)
    ensures
        r == event_issue(*e, horizon),
{
    if e.end_slot <= e.start_slot {
        Some(Issue::EmptyWindow)
    } else if e.end_slot >= horizon {
        Some(Issue::EventBeyondHorizon(e.start_slot, e.end_slot, horizon))
    } else {
        None
    }
}

/// A manifest number lies outside its range.
fn check_ranges<N: Num>(m: &Manifest<N>, Ghost(sc): Ghost<ScenarioModel<N>>) -> (r: Option<Issue>)
    requires
        sc.rules == m@,
    ensures
        r == range_issue(sc),
{
    if !zero::<N>().lt(m.slot_minutes) {
        Some(Issue::SlotMinutesNotPositive)
    } else if !(zero::<N>().lt(m.charge_efficiency) && m.charge_efficiency.le(one())) {
        Some(Issue::ChargeEfficiencyOutOfRange)
    } else if !(zero::<N>().lt(m.discharge_efficiency) && m.discharge_efficiency.le(one())) {
        Some(Issue::DischargeEfficiencyOutOfRange)
    } else {
        None
    }
}

/// Two sessions agree on battery, floor, ceiling and power limits.
fn check_same_limits<N: Num>(v: &Vehicle<N>, w: &Vehicle<N>) -> (r: bool)
    ensures
        r == same_limits(*v, *w),
{
    let ceilings: bool = match (v.max_soc_kwh, w.max_soc_kwh) {
        (Some(x), Some(y)) => x.eq(y),
        (None, None) => true,
        _ => false,
    };
    v.battery_kwh.eq(w.battery_kwh) && v.min_soc_kwh.eq(w.min_soc_kwh) && ceilings && v.max_charge_kw.eq(
        w.max_charge_kw,
    ) && v.max_discharge_kw.eq(w.max_discharge_kw)
}

proof fn lemma_first_row_stays<N>(vehicles: Seq<Vehicle<N>>, id: u32, m: nat, n: nat)
    requires
        m <= n,
        first_row(vehicles, id, m) is Some,
    ensures
        first_row(vehicles, id, n) == first_row(vehicles, id, m),
    decreases n,
{
    if m < n {
        lemma_first_row_stays(vehicles, id, m, (n - 1) as nat);
    }
}

/// Row `i` disagrees with the first session of the same vehicle.
fn check_limits<N: Num>(vehicles: &Vec<Vehicle<N>>, i: usize) -> (r: Option<Issue>)
    requires
        i < vehicles@.len(),
    ensures
        r == limits_issue(vehicles@, i as int),
{
    let id: u32 = vehicles[i].vehicle_id;
    for f in 0..i
        invariant
            i < vehicles@.len(),
            id == vehicles@[i as int].vehicle_id,
            first_row(vehicles@, id, f as nat) is None,
    {
        if vehicles[f].vehicle_id == id {
            proof {
                assert(first_row(vehicles@, id, (f + 1) as nat) == Some(f as int));
                lemma_first_row_stays(vehicles@, id, (f + 1) as nat, i as nat);
            }
            if check_same_limits(&vehicles[i], &vehicles[f]) {
                return None;
            } else {
                return Some(Issue::LimitsDisagree(id));
            }
        }
    }
    None
}

/// The first building load that is not finite.
fn check_loads<N: Num>(scenario: &Scenario<N>) -> (r: Option<Issue>)
    ensures
        r == first_of(scenario@.building.len(), load_check(scenario@)),
{
    for i in 0..scenario.building_load_kw.len()
        invariant
            forall|j: int| 0 <= j < i ==> #[trigger] load_check(scenario@)(j) is None,
    {
        let issue: Option<Issue> = if scenario.building_load_kw[i].is_finite() {
            None
        } else {
            Some(Issue::LoadNotFinite(i))
        };
        assert(issue == load_check(scenario@)(i as int));
        if issue.is_some() {
            proof {
                lemma_first_is(scenario@.building.len(), load_check(scenario@), i as int);
            }
            return issue;
        }
    }
    proof {
        lemma_first_none(scenario@.building.len(), load_check(scenario@));
    }
    None
}

/// The first price that is not finite.
fn check_prices<N: Num>(scenario: &Scenario<N>) -> (r: Option<Issue>)
    ensures
        r == first_of(scenario@.price.len(), price_check(scenario@)),
{
    for i in 0..scenario.price_usd_per_kwh.len()
        invariant
            forall|j: int| 0 <= j < i ==> #[trigger] price_check(scenario@)(j) is None,
    {
        let issue: Option<Issue> = if scenario.price_usd_per_kwh[i].is_finite() {
            None
        } else {
            Some(Issue::PriceNotFinite(i))
        };
        assert(issue == price_check(scenario@)(i as int));
        if issue.is_some() {
            proof {
                lemma_first_is(scenario@.price.len(), price_check(scenario@), i as int);
            }
            return issue;
        }
    }
    proof {
        lemma_first_none(scenario@.price.len(), price_check(scenario@));
    }
    None
}

/// The first number of a session that is not finite.
fn check_all_vehicle_numbers<N: Num>(vehicles: &Vec<Vehicle<N>>) -> (r: Option<Issue>)
    ensures
        r == first_of(vehicles@.len(), vehicle_finite_check(vehicles@)),
{
    for i in 0..vehicles.len()
        invariant
            forall|j: int| 0 <= j < i ==> #[trigger] vehicle_finite_check(vehicles@)(j) is None,
    {
        let issue: Option<Issue> = check_vehicle_numbers(&vehicles[i]);
        assert(issue == vehicle_finite_check(vehicles@)(i as int));
        if issue.is_some() {
            proof {
                lemma_first_is(vehicles@.len(), vehicle_finite_check(vehicles@), i as int);
            }
            return issue;
        }
    }
    proof {
        lemma_first_none(vehicles@.len(), vehicle_finite_check(vehicles@));
    }
    None
}

/// The first charger limit that is not finite.
fn check_chargers<N: Num>(chargers: &Vec<Charger<N>>) -> (r: Option<Issue>)
    ensures
        r == first_of(chargers@.len(), charger_check(chargers@)),
{
    for i in 0..chargers.len()
        invariant
            forall|j: int| 0 <= j < i ==> #[trigger] charger_check(chargers@)(j) is None,
    {
        let issue: Option<Issue> = if chargers[i].max_kw.is_finite() {
            None
        } else {
            Some(Issue::ChargerNotFinite(chargers[i].charger_id))
        };
        assert(issue == charger_check(chargers@)(i as int));
        if issue.is_some() {
            proof {
                lemma_first_is(chargers@.len(), charger_check(chargers@), i as int);
            }
            return issue;
        }
    }
    proof {
        lemma_first_none(chargers@.len(), charger_check(chargers@));
    }
    None
}

/// The first number of an event that is not finite.
fn check_all_event_numbers<N: Num>(events: &Vec<DrEvent<N>>) -> (r: Option<Issue>)
    ensures
        r == first_of(events@.len(), event_finite_check(events@)),
{
    for i in 0..events.len()
        invariant
            forall|j: int| 0 <= j < i ==> #[trigger] event_finite_check(events@)(j) is None,
    {
        let issue: Option<Issue> = check_event_numbers(&events[i]);
        assert(issue == event_finite_check(events@)(i as int));
        if issue.is_some() {
            proof {
                lemma_first_is(events@.len(), event_finite_check(events@), i as int);
            }
            return issue;
        }
    }
    proof {
        lemma_first_none(events@.len(), event_finite_check(events@));
    }
    None
}

/// The first session that is wrong on its own.
fn check_vehicles<N: Num>(vehicles: &Vec<Vehicle<N>>, horizon: usize) -> (r: Option<Issue>)
    ensures
        r == first_of(vehicles@.len(), vehicle_check(vehicles@, horizon)),
{
    for i in 0..vehicles.len()
        invariant
            forall|j: int| 0 <= j < i ==> #[trigger] vehicle_check(vehicles@, horizon)(j) is None,
    {
        let issue: Option<Issue> = check_vehicle(&vehicles[i], horizon);
        assert(issue == vehicle_check(vehicles@, horizon)(i as int));
        if issue.is_some() {
            proof {
                lemma_first_is(vehicles@.len(), vehicle_check(vehicles@, horizon), i as int);
            }
            return issue;
        }
    }
    proof {
        lemma_first_none(vehicles@.len(), vehicle_check(vehicles@, horizon));
    }
    None
}

/// The first event whose window is wrong.
fn check_events<N: Num>(events: &Vec<DrEvent<N>>, horizon: usize) -> (r: Option<Issue>)
    ensures
        r == first_of(events@.len(), event_check(events@, horizon)),
{
    for i in 0..events.len()
        invariant
            forall|j: int| 0 <= j < i ==> #[trigger] event_check(events@, horizon)(j) is None,
    {
        let issue: Option<Issue> = check_event(&events[i], horizon);
        assert(issue == event_check(events@, horizon)(i as int));
        if issue.is_some() {
            proof {
                lemma_first_is(events@.len(), event_check(events@, horizon), i as int);
            }
            return issue;
        }
    }
    proof {
        lemma_first_none(events@.len(), event_check(events@, horizon));
    }
    None
}

/// The first session that disagrees with an earlier one of its vehicle.
fn check_all_limits<N: Num>(vehicles: &Vec<Vehicle<N>>) -> (r: Option<Issue>)
    ensures
        r == first_of(vehicles@.len(), limits_check(vehicles@)),
{
    for i in 0..vehicles.len()
        invariant
            forall|j: int| 0 <= j < i ==> #[trigger] limits_check(vehicles@)(j) is None,
    {
        let issue: Option<Issue> = check_limits(vehicles, i);
        assert(issue == limits_check(vehicles@)(i as int));
        if issue.is_some() {
            proof {
                lemma_first_is(vehicles@.len(), limits_check(vehicles@), i as int);
            }
            return issue;
        }
    }
    proof {
        lemma_first_none(vehicles@.len(), limits_check(vehicles@));
    }
    None
}

/// The smallest charger id that occurs twice.
fn check_charger_ids<N: Num>(chargers: &Vec<Charger<N>>) -> (r: Option<Issue>)
    ensures
        r == first_of(pairs(chargers@.len()), duplicate_check(chargers@)),
{
    let mut keys: Vec<Rank> = Vec::new();
    for i in 0..chargers.len()
        invariant
            keys@ == Seq::new(i as nat, |j: int| charger_rank(chargers@[j])),
    {
        let key = Rank { major: chargers[i].charger_id as u64, middle: 0, minor: 0 };
        keys.push(key);
        assert(keys@ =~= Seq::new((i + 1) as nat, |j: int| charger_rank(chargers@[j])));
    }
    let order = sort(&keys);
    let n: usize = if chargers.len() == 0 {
        0
    } else {
        chargers.len() - 1
    };
    for i in 0..n
        invariant
            n == pairs(chargers@.len()),
            order@ == charger_order(chargers@),
            order@.len() == chargers@.len(),
            forall|k: int| 0 <= k < order@.len() ==> #[trigger] order@[k] < chargers@.len(),
            forall|j: int| 0 <= j < i ==> #[trigger] duplicate_check(chargers@)(j) is None,
    {
        let issue: Option<Issue> = if chargers[order[i]].charger_id == chargers[order[i + 1]].charger_id {
            Some(Issue::DuplicateCharger(chargers[order[i]].charger_id))
        } else {
            None
        };
        assert(issue == duplicate_check(chargers@)(i as int));
        if issue.is_some() {
            proof {
                lemma_first_is(pairs(chargers@.len()), duplicate_check(chargers@), i as int);
            }
            return issue;
        }
    }
    proof {
        lemma_first_none(pairs(chargers@.len()), duplicate_check(chargers@));
    }
    None
}

/// The first two sessions of one vehicle that overlap.
fn check_overlaps<N: Num>(vehicles: &Vec<Vehicle<N>>) -> (r: Option<Issue>)
    ensures
        r == first_of(pairs(vehicles@.len()), overlap_check(vehicles@)),
{
    let mut keys: Vec<Rank> = Vec::new();
    for i in 0..vehicles.len()
        invariant
            keys@ == Seq::new(i as nat, |j: int| session_rank(vehicles@[j])),
    {
        let key = Rank {
            major: vehicles[i].vehicle_id as u64,
            middle: vehicles[i].arrival_slot as u64,
            minor: vehicles[i].departure_slot as u64,
        };
        keys.push(key);
        assert(keys@ =~= Seq::new((i + 1) as nat, |j: int| session_rank(vehicles@[j])));
    }
    let order = sort(&keys);
    let n: usize = if vehicles.len() == 0 {
        0
    } else {
        vehicles.len() - 1
    };
    for i in 0..n
        invariant
            n == pairs(vehicles@.len()),
            order@ == session_order(vehicles@),
            order@.len() == vehicles@.len(),
            forall|k: int| 0 <= k < order@.len() ==> #[trigger] order@[k] < vehicles@.len(),
            forall|j: int| 0 <= j < i ==> #[trigger] overlap_check(vehicles@)(j) is None,
    {
        let issue: Option<Issue> = {
            let a = &vehicles[order[i]];
            let b = &vehicles[order[i + 1]];
            if a.vehicle_id == b.vehicle_id && b.arrival_slot < a.departure_slot {
                Some(Issue::SessionsOverlap(a.vehicle_id, b.arrival_slot, a.departure_slot))
            } else {
                None
            }
        };
        assert(issue == overlap_check(vehicles@)(i as int));
        if issue.is_some() {
            proof {
                lemma_first_is(pairs(vehicles@.len()), overlap_check(vehicles@), i as int);
            }
            return issue;
        }
    }
    proof {
        lemma_first_none(pairs(vehicles@.len()), overlap_check(vehicles@));
    }
    None
}

/// The first two events that overlap.
fn check_event_overlaps<N: Num>(events: &Vec<DrEvent<N>>) -> (r: Option<Issue>)
    ensures
        r == first_of(pairs(events@.len()), events_check(events@)),
{
    let mut keys: Vec<Rank> = Vec::new();
    for i in 0..events.len()
        invariant
            keys@ == Seq::new(i as nat, |j: int| event_rank(events@[j])),
    {
        let key = Rank {
            major: events[i].start_slot as u64,
            middle: events[i].end_slot as u64,
            minor: 0,
        };
        keys.push(key);
        assert(keys@ =~= Seq::new((i + 1) as nat, |j: int| event_rank(events@[j])));
    }
    let order = sort(&keys);
    let n: usize = if events.len() == 0 {
        0
    } else {
        events.len() - 1
    };
    for i in 0..n
        invariant
            n == pairs(events@.len()),
            order@ == event_order(events@),
            order@.len() == events@.len(),
            forall|k: int| 0 <= k < order@.len() ==> #[trigger] order@[k] < events@.len(),
            forall|j: int| 0 <= j < i ==> #[trigger] events_check(events@)(j) is None,
    {
        let issue: Option<Issue> = {
            let a = &events[order[i]];
            let b = &events[order[i + 1]];
            if b.start_slot < a.end_slot {
                Some(Issue::EventsOverlap(a.start_slot, a.end_slot, b.start_slot, b.end_slot))
            } else {
                None
            }
        };
        assert(issue == events_check(events@)(i as int));
        if issue.is_some() {
            proof {
                lemma_first_is(pairs(events@.len()), events_check(events@), i as int);
            }
            return issue;
        }
    }
    proof {
        lemma_first_none(pairs(events@.len()), events_check(events@));
    }
    None
}

/// The first thing that is wrong with a scenario.
pub fn find_issue<N: Num>(scenario: &Scenario<N>) -> (r: Option<Issue>)
    ensures
        r == scenario_issue(scenario@),
{
    let horizon: usize = scenario.manifest.horizon_slots;
    // Non-finite numbers anywhere would be silently repaired downstream (the
    // larger of a number and an undefined one is the number), understating the
    // bill: reject them first.
    let finite: Option<Issue> = either(
        check_manifest(scenario),
        either(
            check_loads(scenario),
            either(
                check_prices(scenario),
                either(
                    check_all_vehicle_numbers(&scenario.vehicles),
                    either(
                        check_chargers(&scenario.chargers),
                        check_all_event_numbers(&scenario.dr_events),
                    ),
                ),
            ),
        ),
    );
    if finite.is_some() {
        return finite;
    }
    let rows: Option<Issue> = either(
        check_vehicles(&scenario.vehicles, horizon),
        either(
            // One vehicle cannot be parked twice at once.
            check_overlaps(&scenario.vehicles),
            either(
                check_events(&scenario.dr_events, horizon),
                either(
                    // A slot covered twice would be settled twice.
                    check_event_overlaps(&scenario.dr_events),
                    // Rows of one vehicle describe one battery.
                    check_all_limits(&scenario.vehicles),
                ),
            ),
        ),
    );
    // Charger ids key the trace and per-port checks.
    let ids: Option<Issue> = check_charger_ids(&scenario.chargers);
    let ranges: Option<Issue> = check_ranges(&scenario.manifest, Ghost(scenario@));
    either(ids, either(ranges, rows))
}

impl<N: Num> Scenario<N> {
    /// Check structural invariants of the inputs.
    pub fn validate(&self) -> (r: Result<(), ScenarioError>)
        ensures
            match scenario_issue(self@) {
                Some(issue) => r matches Err(ScenarioError::Invalid(m)) && m@ == issue_text(issue),
                None => r is Ok,
            },
            r is Ok <==> is_valid(self@),
    {
        assert(self.vehicles.len() <= usize::MAX);
        assert(self.chargers.len() <= usize::MAX);
        assert(self.dr_events.len() <= usize::MAX);
        proof {
            validation_accepts_exactly_the_valid(self@);
        }
        match find_issue(self) {
            Some(issue) => Err(ScenarioError::Invalid(issue.text())),
            None => Ok(()),
        }
    }
}

// ---------------------------------------------------------------- validity

/// The numbers of a vehicle, apart from its ceiling, are finite.
pub open spec fn vehicle_is_finite<N: Num>(v: Vehicle<N>) -> bool {
    &&& v.battery_kwh.finite()
    &&& v.soc_arrival_kwh.finite()
    &&& v.soc_target_kwh.finite()
    &&& v.max_charge_kw.finite()
    &&& v.max_discharge_kw.finite()
    &&& v.min_soc_kwh.finite()
    &&& v.depletion_kwh.finite()
}

/// The numbers of an event are finite.
pub open spec fn event_is_finite<N: Num>(e: DrEvent<N>) -> bool {
    &&& e.fsl_kw.finite()
    &&& e.penalty_usd_per_kwh.finite()
    &&& e.incentive_usd_per_kw.finite()
    &&& e.baseline_kw.finite()
}

/// The numbers of a scenario, apart from ceilings, are finite (those are asked
/// to be finite where they are compared, see [`ceiling_is_fit`]).
pub open spec fn is_finite<N: Num>(sc: ScenarioModel<N>) -> bool {
    &&& sc.rules.slot_minutes.finite()
    &&& sc.rules.charge_efficiency.finite()
    &&& sc.rules.discharge_efficiency.finite()
    &&& sc.rules.demand_charge_usd_per_kw.finite()
    &&& sc.rules.demand_charge_peak_usd_per_kw.finite()
    &&& sc.rules.site_cap_kw matches Some(cap) ==> cap.finite()
    &&& sc.rules.heuristic_threshold_kw matches Some(seed) ==> seed.finite()
    &&& forall|s: int| 0 <= s < sc.building.len() ==> (#[trigger] sc.building[s]).finite()
    &&& forall|s: int| 0 <= s < sc.price.len() ==> (#[trigger] sc.price[s]).finite()
    &&& forall|i: int| 0 <= i < sc.vehicles.len() ==> vehicle_is_finite(#[trigger] sc.vehicles[i])
    &&& forall|c: int| 0 <= c < sc.chargers.len() ==> (#[trigger] sc.chargers[c]).max_kw.finite()
    &&& forall|e: int| 0 <= e < sc.events.len() ==> event_is_finite(#[trigger] sc.events[e])
}

/// A session runs forward inside the horizon, and its energies fit its battery.
pub open spec fn session_is_valid<N: Num>(v: Vehicle<N>, horizon: usize) -> bool {
    &&& v.arrival_slot < v.departure_slot <= horizon
    &&& fits_battery(v.soc_arrival_kwh, v)
    &&& v.min_soc_kwh.at_most(v.soc_arrival_kwh)
    &&& fits_battery(v.soc_target_kwh, v)
    &&& fits_battery(v.min_soc_kwh, v)
    &&& zero_of::<N>().at_most(v.depletion_kwh)
    &&& ceiling_is_fit(v)
}

/// Sessions of one vehicle do not overlap.
pub open spec fn sessions_are_disjoint<N>(vehicles: Seq<Vehicle<N>>) -> bool {
    forall|i: int, j: int|
        #![trigger vehicles[i], vehicles[j]]
        0 <= i < vehicles.len() && 0 <= j < vehicles.len() && i != j && vehicles[i].vehicle_id
            == vehicles[j].vehicle_id ==> vehicles[i].departure_slot <= vehicles[j].arrival_slot
            || vehicles[j].departure_slot <= vehicles[i].arrival_slot
}

/// Windows of events do not overlap.
pub open spec fn events_are_disjoint<N>(events: Seq<DrEvent<N>>) -> bool {
    forall|i: int, j: int|
        #![trigger events[i], events[j]]
        0 <= i < events.len() && 0 <= j < events.len() && i != j ==> events[i].end_slot
            <= events[j].start_slot || events[j].end_slot <= events[i].start_slot
}

/// No charger id occurs twice.
pub open spec fn charger_ids_are_unique<N>(chargers: Seq<Charger<N>>) -> bool {
    forall|i: int, j: int|
        #![trigger chargers[i], chargers[j]]
        0 <= i < chargers.len() && 0 <= j < chargers.len() && i != j ==> chargers[i].charger_id
            != chargers[j].charger_id
}

/// Every session agrees with the first one of its vehicle on battery, floor,
/// ceiling and power limits.
pub open spec fn limits_agree<N: Num>(vehicles: Seq<Vehicle<N>>) -> bool {
    forall|i: int|
        0 <= i < vehicles.len() ==> (first_row(
            vehicles,
            (#[trigger] vehicles[i]).vehicle_id,
            i as nat,
        ) matches Some(f) ==> same_limits(vehicles[i], vehicles[f]))
}

/// What a valid scenario satisfies.
pub open spec fn is_valid<N: Num>(sc: ScenarioModel<N>) -> bool {
    &&& is_finite(sc)
    &&& charger_ids_are_unique(sc.chargers)
    &&& zero_of::<N>().below(sc.rules.slot_minutes)
    &&& is_efficiency(sc.rules.charge_efficiency)
    &&& is_efficiency(sc.rules.discharge_efficiency)
    &&& forall|i: int|
        0 <= i < sc.vehicles.len() ==> session_is_valid(
            #[trigger] sc.vehicles[i],
            sc.rules.horizon_slots,
        )
    &&& sessions_are_disjoint(sc.vehicles)
    &&& forall|e: int|
        0 <= e < sc.events.len() ==> (#[trigger] sc.events[e]).start_slot < sc.events[e].end_slot
            < sc.rules.horizon_slots
    &&& events_are_disjoint(sc.events)
    &&& limits_agree(sc.vehicles)
}

proof fn lemma_finite<N: Num>(sc: ScenarioModel<N>)
    ensures
        finite_issue(sc) is None <==> is_finite(sc),
{
    lemma_first_none(sc.building.len(), load_check(sc));
    lemma_first_none(sc.price.len(), price_check(sc));
    lemma_first_none(sc.vehicles.len(), vehicle_finite_check(sc.vehicles));
    lemma_first_none(sc.chargers.len(), charger_check(sc.chargers));
    lemma_first_none(sc.events.len(), event_finite_check(sc.events));
    if finite_issue(sc) is None {
        assert forall|s: int| 0 <= s < sc.building.len() implies (#[trigger] sc.building[s]).finite() by {
            assert(load_check(sc)(s) is None);
        }
        assert forall|s: int| 0 <= s < sc.price.len() implies (#[trigger] sc.price[s]).finite() by {
            assert(price_check(sc)(s) is None);
        }
        assert forall|i: int| 0 <= i < sc.vehicles.len() implies vehicle_is_finite(
            #[trigger] sc.vehicles[i],
        ) by {
            assert(vehicle_finite_check(sc.vehicles)(i) is None);
        }
        assert forall|c: int| 0 <= c < sc.chargers.len() implies (#[trigger] sc.chargers[c]).max_kw.finite() by {
            assert(charger_check(sc.chargers)(c) is None);
        }
        assert forall|e: int| 0 <= e < sc.events.len() implies event_is_finite(
            #[trigger] sc.events[e],
        ) by {
            assert(event_finite_check(sc.events)(e) is None);
        }
    }
}

proof fn lemma_rank_is_consistent(keys: Seq<Rank>)
    ensures
        ranks_consistently(keys),
{
}

/// Where a row stands in an arrangement.
proof fn lemma_position<K: Ranked>(keys: Seq<K>, i: int) -> (p: int)
    requires
        0 <= i < keys.len() <= usize::MAX,
    ensures
        0 <= p < stable_order(keys).len(),
        stable_order(keys)[p] == i,
{
    stable_order_is_arrangement(keys, keys.len());
    assert(stable_order(keys).contains(i as usize));
    choose|p: int| 0 <= p < stable_order(keys).len() && stable_order(keys)[p] == i as usize
}

proof fn lemma_charger_ids<N: Num>(chargers: Seq<Charger<N>>)
    requires
        chargers.len() <= usize::MAX,
    ensures
        first_of(pairs(chargers.len()), duplicate_check(chargers)) is None <==> charger_ids_are_unique(
            chargers,
        ),
{
    let keys = Seq::new(chargers.len(), |i: int| charger_rank(chargers[i]));
    let order = charger_order(chargers);
    let n = pairs(chargers.len());
    lemma_first_none(n, duplicate_check(chargers));
    lemma_rank_is_consistent(keys);
    stable_order_is_arrangement(keys, keys.len());
    stable_order_is_sorted(keys, keys.len());
    if first_of(n, duplicate_check(chargers)) is None {
        assert forall|i: int, j: int|
            #![trigger chargers[i], chargers[j]]
            0 <= i < chargers.len() && 0 <= j < chargers.len() && i != j implies chargers[i].charger_id
            != chargers[j].charger_id by {
            let p = lemma_position(keys, i);
            let q = lemma_position(keys, j);
            if p < q {
                lemma_ids_rise(chargers, p, q);
            } else {
                lemma_ids_rise(chargers, q, p);
            }
        }
    } else if charger_ids_are_unique(chargers) {
        assert forall|p: int| 0 <= p < n implies #[trigger] duplicate_check(chargers)(p) is None by {
            assert(order[p] != order[p + 1]);
            assert(order[p] < chargers.len() && order[p + 1] < chargers.len());
            assert(chargers[order[p] as int].charger_id != chargers[order[p + 1] as int].charger_id);
        }
    }
}

proof fn lemma_ids_rise<N: Num>(chargers: Seq<Charger<N>>, p: int, q: int)
    requires
        chargers.len() <= usize::MAX,
        0 <= p < q < chargers.len(),
        forall|j: int|
            0 <= j < pairs(chargers.len()) ==> #[trigger] duplicate_check(chargers)(j) is None,
    ensures
        chargers[charger_order(chargers)[p] as int].charger_id < chargers[charger_order(
            chargers,
        )[q] as int].charger_id,
    decreases q,
{
    let keys = Seq::new(chargers.len(), |i: int| charger_rank(chargers[i]));
    let order = charger_order(chargers);
    lemma_rank_is_consistent(keys);
    stable_order_is_arrangement(keys, keys.len());
    stable_order_is_sorted(keys, keys.len());
    assert(duplicate_check(chargers)(q - 1) is None);
    assert(order[q - 1] < chargers.len() && order[q] < chargers.len());
    assert(!keys[order[q] as int].ahead(&keys[order[q - 1] as int]));
    if p < q - 1 {
        lemma_ids_rise(chargers, p, q - 1);
    }
}

/// In the order by vehicle, arrival and departure, a session ends before any
/// later one of its vehicle starts, if that holds of neighbours.
proof fn lemma_sessions_follow<N: Num>(vehicles: Seq<Vehicle<N>>, p: int, q: int)
    requires
        vehicles.len() <= usize::MAX,
        0 <= p < q < vehicles.len(),
        forall|i: int|
            0 <= i < vehicles.len() ==> (#[trigger] vehicles[i]).arrival_slot
                < vehicles[i].departure_slot,
        forall|j: int|
            0 <= j < pairs(vehicles.len()) ==> #[trigger] overlap_check(vehicles)(j) is None,
        vehicles[session_order(vehicles)[p] as int].vehicle_id == vehicles[session_order(
            vehicles,
        )[q] as int].vehicle_id,
    ensures
        vehicles[session_order(vehicles)[p] as int].departure_slot <= vehicles[session_order(
            vehicles,
        )[q] as int].arrival_slot,
    decreases q,
{
    let keys = Seq::new(vehicles.len(), |i: int| session_rank(vehicles[i]));
    let order = session_order(vehicles);
    lemma_rank_is_consistent(keys);
    stable_order_is_arrangement(keys, keys.len());
    stable_order_is_sorted(keys, keys.len());
    assert(overlap_check(vehicles)(q - 1) is None);
    assert(order[p] < vehicles.len() && order[q - 1] < vehicles.len() && order[q] < vehicles.len());
    if p < q - 1 {
        assert(!keys[order[q - 1] as int].ahead(&keys[order[p] as int]));
        assert(!keys[order[q] as int].ahead(&keys[order[q - 1] as int]));
        assert(vehicles[order[q - 1] as int].vehicle_id == vehicles[order[q] as int].vehicle_id);
        lemma_sessions_follow(vehicles, p, q - 1);
        assert(vehicles[order[q - 1] as int].arrival_slot < vehicles[order[q - 1] as int].departure_slot);
    }
}

proof fn lemma_sessions<N: Num>(vehicles: Seq<Vehicle<N>>)
    requires
        vehicles.len() <= usize::MAX,
        forall|i: int|
            0 <= i < vehicles.len() ==> (#[trigger] vehicles[i]).arrival_slot
                < vehicles[i].departure_slot,
    ensures
        first_of(pairs(vehicles.len()), overlap_check(vehicles)) is None <==> sessions_are_disjoint(
            vehicles,
        ),
{
    let keys = Seq::new(vehicles.len(), |i: int| session_rank(vehicles[i]));
    let order = session_order(vehicles);
    let n = pairs(vehicles.len());
    lemma_first_none(n, overlap_check(vehicles));
    lemma_rank_is_consistent(keys);
    stable_order_is_arrangement(keys, keys.len());
    stable_order_is_sorted(keys, keys.len());
    if first_of(n, overlap_check(vehicles)) is None {
        assert forall|i: int, j: int|
            #![trigger vehicles[i], vehicles[j]]
            0 <= i < vehicles.len() && 0 <= j < vehicles.len() && i != j && vehicles[i].vehicle_id
                == vehicles[j].vehicle_id implies vehicles[i].departure_slot <= vehicles[j].arrival_slot
            || vehicles[j].departure_slot <= vehicles[i].arrival_slot by {
            let p = lemma_position(keys, i);
            let q = lemma_position(keys, j);
            if p < q {
                lemma_sessions_follow(vehicles, p, q);
            } else {
                lemma_sessions_follow(vehicles, q, p);
            }
        }
    } else if sessions_are_disjoint(vehicles) {
        assert forall|p: int| 0 <= p < n implies #[trigger] overlap_check(vehicles)(p) is None by {
            let a = order[p] as int;
            let b = order[p + 1] as int;
            assert(order[p] != order[p + 1]);
            assert(order[p] < vehicles.len() && order[p + 1] < vehicles.len());
            assert(!keys[order[p + 1] as int].ahead(&keys[order[p] as int]));
            assert(vehicles[a].arrival_slot < vehicles[a].departure_slot);
            assert(vehicles[b].arrival_slot < vehicles[b].departure_slot);
        }
    }
}

proof fn lemma_events_follow<N: Num>(events: Seq<DrEvent<N>>, p: int, q: int)
    requires
        events.len() <= usize::MAX,
        0 <= p < q < events.len(),
        forall|i: int|
            0 <= i < events.len() ==> (#[trigger] events[i]).start_slot < events[i].end_slot,
        forall|j: int| 0 <= j < pairs(events.len()) ==> #[trigger] events_check(events)(j) is None,
    ensures
        events[event_order(events)[p] as int].end_slot <= events[event_order(
            events,
        )[q] as int].start_slot,
    decreases q,
{
    let keys = Seq::new(events.len(), |i: int| event_rank(events[i]));
    let order = event_order(events);
    stable_order_is_arrangement(keys, keys.len());
    assert(events_check(events)(q - 1) is None);
    assert(order[q - 1] < events.len() && order[q] < events.len());
    if p < q - 1 {
        lemma_events_follow(events, p, q - 1);
        assert(events[order[q - 1] as int].start_slot < events[order[q - 1] as int].end_slot);
    }
}

proof fn lemma_events<N: Num>(events: Seq<DrEvent<N>>)
    requires
        events.len() <= usize::MAX,
        forall|i: int|
            0 <= i < events.len() ==> (#[trigger] events[i]).start_slot < events[i].end_slot,
    ensures
        first_of(pairs(events.len()), events_check(events)) is None <==> events_are_disjoint(events),
{
    let keys = Seq::new(events.len(), |i: int| event_rank(events[i]));
    let order = event_order(events);
    let n = pairs(events.len());
    lemma_first_none(n, events_check(events));
    lemma_rank_is_consistent(keys);
    stable_order_is_arrangement(keys, keys.len());
    stable_order_is_sorted(keys, keys.len());
    if first_of(n, events_check(events)) is None {
        assert forall|i: int, j: int|
            #![trigger events[i], events[j]]
            0 <= i < events.len() && 0 <= j < events.len() && i != j implies events[i].end_slot
            <= events[j].start_slot || events[j].end_slot <= events[i].start_slot by {
            let p = lemma_position(keys, i);
            let q = lemma_position(keys, j);
            if p < q {
                lemma_events_follow(events, p, q);
            } else {
                lemma_events_follow(events, q, p);
            }
        }
    } else if events_are_disjoint(events) {
        assert forall|p: int| 0 <= p < n implies #[trigger] events_check(events)(p) is None by {
            let a = order[p] as int;
            let b = order[p + 1] as int;
            assert(order[p] != order[p + 1]);
            assert(order[p] < events.len() && order[p + 1] < events.len());
            assert(!keys[order[p + 1] as int].ahead(&keys[order[p] as int]));
            assert(events[a].start_slot < events[a].end_slot);
            assert(events[b].start_slot < events[b].end_slot);
        }
    }
}

proof fn lemma_each_row<N: Num>(sc: ScenarioModel<N>)
    ensures
        first_of(sc.vehicles.len(), vehicle_check(sc.vehicles, sc.rules.horizon_slots)) is None <==> (
        forall|i: int|
            0 <= i < sc.vehicles.len() ==> session_is_valid(
                #[trigger] sc.vehicles[i],
                sc.rules.horizon_slots,
            )),
        first_of(sc.events.len(), event_check(sc.events, sc.rules.horizon_slots)) is None <==> (forall|
            e: int,
        |
            0 <= e < sc.events.len() ==> (#[trigger] sc.events[e]).start_slot < sc.events[e].end_slot
                < sc.rules.horizon_slots),
        first_of(sc.vehicles.len(), limits_check(sc.vehicles)) is None <==> limits_agree(sc.vehicles),
{
    let horizon = sc.rules.horizon_slots;
    let vc = vehicle_check(sc.vehicles, horizon);
    let ec = event_check(sc.events, horizon);
    let lc = limits_check(sc.vehicles);
    lemma_first_none(sc.vehicles.len(), vc);
    lemma_first_none(sc.events.len(), ec);
    lemma_first_none(sc.vehicles.len(), lc);
    assert forall|i: int| 0 <= i < sc.vehicles.len() implies (vc(i) is None) == session_is_valid(
        #[trigger] sc.vehicles[i],
        horizon,
    ) by {}
    assert forall|e: int| 0 <= e < sc.events.len() implies (ec(e) is None) == ((
    #[trigger] sc.events[e]).start_slot < sc.events[e].end_slot < horizon) by {}
    if first_of(sc.vehicles.len(), vc) is None {
        assert forall|i: int| 0 <= i < sc.vehicles.len() implies session_is_valid(
            #[trigger] sc.vehicles[i],
            horizon,
        ) by {
            assert(vc(i) is None);
        }
    }
    if first_of(sc.events.len(), ec) is None {
        assert forall|e: int| 0 <= e < sc.events.len() implies (#[trigger] sc.events[e]).start_slot
            < sc.events[e].end_slot < horizon by {
            assert(ec(e) is None);
        }
    }
    if first_of(sc.vehicles.len(), lc) is None {
        assert forall|i: int| 0 <= i < sc.vehicles.len() implies (first_row(
            sc.vehicles,
            (#[trigger] sc.vehicles[i]).vehicle_id,
            i as nat,
        ) matches Some(f) ==> same_limits(sc.vehicles[i], sc.vehicles[f])) by {
            assert(lc(i) is None);
        }
    }
}

/// Validation finds nothing wrong with a scenario exactly if it is valid.
pub proof fn validation_accepts_exactly_the_valid<N: Num>(sc: ScenarioModel<N>)
    requires
        sc.vehicles.len() <= usize::MAX,
        sc.chargers.len() <= usize::MAX,
        sc.events.len() <= usize::MAX,
    ensures
        scenario_issue(sc) is None <==> is_valid(sc),
{
    lemma_finite(sc);
    lemma_charger_ids(sc.chargers);
    lemma_each_row(sc);
    if forall|i: int|
        0 <= i < sc.vehicles.len() ==> session_is_valid(#[trigger] sc.vehicles[i], sc.rules.horizon_slots) {
        assert forall|i: int| 0 <= i < sc.vehicles.len() implies (#[trigger] sc.vehicles[i]).arrival_slot
            < sc.vehicles[i].departure_slot by {
            assert(session_is_valid(sc.vehicles[i], sc.rules.horizon_slots));
        }
        lemma_sessions(sc.vehicles);
    }
    if forall|e: int|
        0 <= e < sc.events.len() ==> (#[trigger] sc.events[e]).start_slot < sc.events[e].end_slot
            < sc.rules.horizon_slots {
        lemma_events(sc.events);
    }
}

/// A valid scenario with a full series per table can be run, planned over and
/// negotiated about.
pub proof fn valid_scenarios_can_be_run<N: Num>(sc: ScenarioModel<N>)
    requires
        is_valid(sc),
        sc.building.len() == sc.rules.horizon_slots,
        sc.price.len() == sc.rules.horizon_slots,
        sc.tou.len() == sc.rules.horizon_slots,
    ensures
        crate::engine::is_runnable(sc),
        crate::policy::oracle::is_plannable(sc),
        (sc.vehicles.len() > 0 ==> sc.chargers.len() > 0) ==> crate::negotiation::is_negotiable(sc),
{
    assert forall|i: int| 0 <= i < sc.vehicles.len() implies (#[trigger] sc.vehicles[i]).arrival_slot
        < sc.vehicles[i].departure_slot <= sc.rules.horizon_slots && sc.vehicles[i].min_soc_kwh.at_most(
        sc.vehicles[i].battery_kwh,
    ) && sc.vehicles[i].min_soc_kwh.at_most(sc.vehicles[i].ceiling()) by {
        assert(session_is_valid(sc.vehicles[i], sc.rules.horizon_slots));
    }
}

/// In a valid scenario every slot is settled by at most one event, and none by an
/// event that the horizon cuts off; slot 0 is settled by none.
pub proof fn every_slot_settles_at_most_once<N: Num>(sc: ScenarioModel<N>, i: int, j: int, slot: int)
    requires
        is_valid(sc),
        0 <= i < sc.events.len(),
        0 <= j < sc.events.len(),
        sc.events[i].covers(slot),
    ensures
        0 < slot < sc.rules.horizon_slots,
        sc.events[j].covers(slot) ==> i == j,
{
    let a = sc.events[i];
    let b = sc.events[j];
    assert(a.end_slot < sc.rules.horizon_slots);
    assert(b.end_slot < sc.rules.horizon_slots);
    if i != j {
        assert(a.end_slot <= b.start_slot || b.end_slot <= a.start_slot);
    }
}

} // verus!
