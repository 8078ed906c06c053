//! The `one_month` verification dataset.
//!
//! Fully deterministic: every value is a round number on a slot boundary so
//! results can be cross-checked by hand. 30 days x 96 slots of 15 min.
//!
//! Vehicle archetypes (persistence-chained daily unless noted):
//!   0 commuter        daily 09:00-17:00, banks nothing under uncontrolled
//!   1 resident        overnight 18:00-08:00, session spans midnight
//!   2 surplus donor   daily 10:00-19:30, arrives far above target (V2B bank),
//!                     present through the evening DR windows
//!   3 deficit heavy   daily 08:00-20:00, large need, discharge disabled
//!   4 visitor         weekly 11:00-15:00 (days 2, 9, 16, 23)
//!   5 unserved        day 2 12:00-14:00, all four chargers busy -> never connects
//!   6 floor-bound     overnight 22:00-06:00 (spans midnight), high SoC floor
//!   7 evening light   daily 17:00-22:00, small battery, no V2B
//!
//! DR: Tue/Thu each week 17:00-19:00 (encoded per the (start, end] convention:
//! start_slot at 17:00 means the first affected slot is 17:15), plus four
//! boundary/interaction events:
//!   day 0  00:00-01:00  earliest representable window (covers slot 1..4)
//!   day 8  19:00-20:00  back-to-back with that day's standard event
//!   day 26 15:00-17:30  straddles the off-peak/peak TOU boundary at 16:00
//!   day 29 23:00-23:45  ends at the final slot of the horizon (2879)

use vstd::prelude::*;

use crate::num::{one, one_of, zero, zero_of, Num};
use crate::scenario::{
    default_building_file, default_chargers_file, default_prices_file, default_vehicles_file, Charger, DrEvent,
    Manifest, Rules, TouClass, Vehicle,
};
use crate::series::{PriceRow, SeriesRow};

verus! {

/// Days in the dataset.
pub const DAYS: usize = 30;

/// Slots in a day.
pub const SLOTS_PER_DAY: usize = 96;

/// The slot that starts `quarter` quarter-hours into `day`.
pub open spec fn month_slot(day: int, quarter: int) -> usize {
    (day * 96 + quarter) as usize
}

fn slot(day: usize, quarter: usize) -> (r: usize)
    requires
        day <= 30,
        quarter <= 96,
    ensures
        r == month_slot(day as int, quarter as int),
        r == day * 96 + quarter,
{
    day * 96 + quarter
}

// ----------------------------------------------------------------- sessions

/// A session with whole-number data: battery, arrival, target, charge limit,
/// discharge limit, floor and depletion.
pub open spec fn session<N: Num>(
    id: u32,
    arrival: usize,
    departure: usize,
    battery: u64,
    soc: u64,
    target: u64,
    charge: u64,
    discharge: u64,
    floor: u64,
    depletion: u64,
) -> Vehicle<N> {
    Vehicle {
        vehicle_id: id,
        arrival_slot: arrival,
        departure_slot: departure,
        battery_kwh: N::rational(battery, 1),
        soc_arrival_kwh: N::rational(soc, 1),
        soc_target_kwh: N::rational(target, 1),
        max_charge_kw: N::rational(charge, 1),
        max_discharge_kw: N::rational(discharge, 1),
        min_soc_kwh: N::rational(floor, 1),
        max_soc_kwh: None,
        depletion_kwh: N::rational(depletion, 1),
    }
}

fn make_session<N: Num>(
    id: u32,
    arrival: usize,
    departure: usize,
    battery: u64,
    soc: u64,
    target: u64,
    charge: u64,
    discharge: u64,
    floor: u64,
    depletion: u64,
) -> (r: Vehicle<N>)
    ensures
        r == session::<N>(
            id,
            arrival,
            departure,
            battery,
            soc,
            target,
            charge,
            discharge,
            floor,
            depletion,
        ),
{
    Vehicle {
        vehicle_id: id,
        arrival_slot: arrival,
        departure_slot: departure,
        battery_kwh: N::ratio(battery, 1),
        soc_arrival_kwh: N::ratio(soc, 1),
        soc_target_kwh: N::ratio(target, 1),
        max_charge_kw: N::ratio(charge, 1),
        max_discharge_kw: N::ratio(discharge, 1),
        min_soc_kwh: N::ratio(floor, 1),
        max_soc_kwh: None,
        depletion_kwh: N::ratio(depletion, 1),
    }
}

/// The sessions of vehicles 0, 2, 3 and 7 that start on `day`.
pub open spec fn daytime<N: Num>(day: int) -> Seq<Vehicle<N>> {
    seq![
        session::<N>(0, month_slot(day, 36), month_slot(day, 68), 60, 25, 45, 11, 11, 6, 12),
        session::<N>(2, month_slot(day, 40), month_slot(day, 78), 100, 90, 40, 20, 20, 10, 5),
        session::<N>(3, month_slot(day, 32), month_slot(day, 80), 60, 8, 55, 20, 0, 5, 30),
        session::<N>(7, month_slot(day, 68), month_slot(day, 88), 30, 10, 25, 6, 0, 3, 10),
    ]
}

/// The overnight sessions that start on `day`; none starts on the last day.
pub open spec fn overnight<N: Num>(day: int) -> Seq<Vehicle<N>> {
    if day + 1 < DAYS {
        seq![
            session::<N>(1, month_slot(day, 72), month_slot(day + 1, 32), 80, 30, 60, 19, 19, 8, 15),
            session::<N>(6, month_slot(day, 88), month_slot(day + 1, 24), 50, 20, 30, 10, 10, 15, 8),
        ]
    } else {
        Seq::empty()
    }
}

/// The sessions that start on the first `n` days.
pub open spec fn daily<N: Num>(n: nat) -> Seq<Vehicle<N>>
    decreases n,
{
    if n == 0 {
        Seq::empty()
    } else {
        daily::<N>((n - 1) as nat) + daytime::<N>(n - 1) + overnight::<N>(n - 1)
    }
}

/// The visitor's session on `day`.
pub open spec fn visitor<N: Num>(day: int) -> Vehicle<N> {
    session::<N>(4, month_slot(day, 44), month_slot(day, 60), 40, 15, 35, 7, 0, 4, 20)
}

/// All sessions of the month: the daily ones, the weekly visitor, and the car
/// that finds all four chargers busy.
pub open spec fn sessions<N: Num>() -> Seq<Vehicle<N>> {
    daily::<N>(DAYS as nat) + seq![
        visitor::<N>(2),
        visitor::<N>(9),
        visitor::<N>(16),
        visitor::<N>(23),
        session::<N>(5, month_slot(2, 48), month_slot(2, 56), 50, 20, 40, 20, 0, 5, 0),
    ]
}

/// All sessions of the month.
pub fn month_vehicles<N: Num>() -> (r: Vec<Vehicle<N>>)
    ensures
        r@ == sessions::<N>(),
{
    let mut v: Vec<Vehicle<N>> = Vec::new();
    for day in 0..DAYS
        invariant
            v@ == daily::<N>(day as nat),
    {
        let ghost before = v@;
        v.push(make_session(0, slot(day, 36), slot(day, 68), 60, 25, 45, 11, 11, 6, 12));
        v.push(make_session(2, slot(day, 40), slot(day, 78), 100, 90, 40, 20, 20, 10, 5));
        v.push(make_session(3, slot(day, 32), slot(day, 80), 60, 8, 55, 20, 0, 5, 30));
        v.push(make_session(7, slot(day, 68), slot(day, 88), 30, 10, 25, 6, 0, 3, 10));
        if day + 1 < DAYS {
            v.push(make_session(1, slot(day, 72), slot(day + 1, 32), 80, 30, 60, 19, 19, 8, 15));
            v.push(make_session(6, slot(day, 88), slot(day + 1, 24), 50, 20, 30, 10, 10, 15, 8));
        }
        assert(v@ =~= before + daytime::<N>(day as int) + overnight::<N>(day as int));
    }
    let ghost head = v@;
    v.push(make_session(4, slot(2, 44), slot(2, 60), 40, 15, 35, 7, 0, 4, 20));
    v.push(make_session(4, slot(9, 44), slot(9, 60), 40, 15, 35, 7, 0, 4, 20));
    v.push(make_session(4, slot(16, 44), slot(16, 60), 40, 15, 35, 7, 0, 4, 20));
    v.push(make_session(4, slot(23, 44), slot(23, 60), 40, 15, 35, 7, 0, 4, 20));
    v.push(make_session(5, slot(2, 48), slot(2, 56), 50, 20, 40, 20, 0, 5, 0));
    assert(v@ =~= sessions::<N>());
    v
}

// ------------------------------------------------------------------- events

/// An event at the month's rates: penalty 6 USD/kWh, incentive 13.60 USD/kW.
pub open spec fn event<N: Num>(start: usize, end: usize, fsl: u64, baseline: u64) -> DrEvent<N> {
    DrEvent {
        start_slot: start,
        end_slot: end,
        fsl_kw: N::rational(fsl, 1),
        penalty_usd_per_kwh: N::rational(6, 1),
        incentive_usd_per_kw: N::rational(68, 5),
        baseline_kw: N::rational(baseline, 1),
    }
}

fn make_event<N: Num>(start: usize, end: usize, fsl: u64, baseline: u64) -> (r: DrEvent<N>)
    ensures
        r == event::<N>(start, end, fsl, baseline),
{
    DrEvent {
        start_slot: start,
        end_slot: end,
        fsl_kw: N::ratio(fsl, 1),
        penalty_usd_per_kwh: N::ratio(6, 1),
        incentive_usd_per_kw: N::ratio(68, 5),
        baseline_kw: N::ratio(baseline, 1),
    }
}

/// The standard evening events of the first `n` days: Tuesdays and Thursdays.
pub open spec fn evenings<N: Num>(n: nat) -> Seq<DrEvent<N>>
    decreases n,
{
    if n == 0 {
        Seq::empty()
    } else {
        let before = evenings::<N>((n - 1) as nat);
        let day = n - 1;
        if day % 7 == 1 || day % 7 == 3 {
            before.push(event::<N>(month_slot(day, 68), month_slot(day, 76), 45, 62))
        } else {
            before
        }
    }
}

/// All events of the month. The day-0 event cannot be honored (its level is below
/// the night load), so the dataset settles both honored and violated windows.
pub open spec fn events<N: Num>() -> Seq<DrEvent<N>> {
    evenings::<N>(DAYS as nat) + seq![
        event::<N>(month_slot(0, 0), month_slot(0, 4), 18, 25),
        event::<N>(month_slot(8, 76), month_slot(8, 80), 45, 62),
        event::<N>(month_slot(26, 60), month_slot(26, 70), 55, 62),
        event::<N>(month_slot(29, 92), month_slot(29, 95), 30, 35),
    ]
}

/// All events of the month.
pub fn month_events<N: Num>() -> (r: Vec<DrEvent<N>>)
    ensures
        r@ == events::<N>(),
{
    let mut list: Vec<DrEvent<N>> = Vec::new();
    for day in 0..DAYS
        invariant
            list@ == evenings::<N>(day as nat),
    {
        if day % 7 == 1 || day % 7 == 3 {
            list.push(make_event(slot(day, 68), slot(day, 76), 45, 62));
        }
    }
    let ghost head = list@;
    list.push(make_event(slot(0, 0), slot(0, 4), 18, 25));
    list.push(make_event(slot(8, 76), slot(8, 80), 45, 62));
    list.push(make_event(slot(26, 60), slot(26, 70), 55, 62));
    list.push(make_event(slot(29, 92), slot(29, 95), 30, 35));
    assert(list@ =~= events::<N>());
    list
}

// ------------------------------------------------------------------- series

/// A building-load row.
pub open spec fn load_row<N: Num>(slot: usize, kw: u64) -> SeriesRow<N> {
    SeriesRow { slot, value: N::rational(kw, 1) }
}

/// The building load of the first `n` days: a daily double hump.
pub open spec fn loads<N: Num>(n: nat) -> Seq<SeriesRow<N>>
    decreases n,
{
    if n == 0 {
        Seq::empty()
    } else {
        let day = n - 1;
        loads::<N>((n - 1) as nat) + seq![
            load_row::<N>(month_slot(day, 0), 20),
            load_row::<N>(month_slot(day, 32), 45),
            load_row::<N>(month_slot(day, 48), 35),
            load_row::<N>(month_slot(day, 64), 60),
            load_row::<N>(month_slot(day, 84), 25),
        ]
    }
}

/// The building-load table of the month.
pub fn month_loads<N: Num>() -> (r: Vec<SeriesRow<N>>)
    ensures
        r@ == loads::<N>(DAYS as nat),
{
    let mut rows: Vec<SeriesRow<N>> = Vec::new();
    for day in 0..DAYS
        invariant
            rows@ == loads::<N>(day as nat),
    {
        let ghost before = rows@;
        rows.push(SeriesRow { slot: slot(day, 0), value: N::ratio(20, 1) });
        rows.push(SeriesRow { slot: slot(day, 32), value: N::ratio(45, 1) });
        rows.push(SeriesRow { slot: slot(day, 48), value: N::ratio(35, 1) });
        rows.push(SeriesRow { slot: slot(day, 64), value: N::ratio(60, 1) });
        rows.push(SeriesRow { slot: slot(day, 84), value: N::ratio(25, 1) });
        assert(rows@ =~= loads::<N>((day + 1) as nat));
    }
    rows
}

/// A price row in cents per kWh.
pub open spec fn price_row<N: Num>(slot: usize, cents: u64, tou: TouClass) -> PriceRow<N> {
    PriceRow { slot, value: N::rational(cents, 100), tou: Some(tou) }
}

/// The prices of the first `n` days.
pub open spec fn prices<N: Num>(n: nat) -> Seq<PriceRow<N>>
    decreases n,
{
    if n == 0 {
        Seq::empty()
    } else {
        let day = n - 1;
        prices::<N>((n - 1) as nat) + seq![
            price_row::<N>(month_slot(day, 0), 8, TouClass::SuperOffPeak),
            price_row::<N>(month_slot(day, 24), 15, TouClass::OffPeak),
            price_row::<N>(month_slot(day, 64), 32, TouClass::Peak),
            price_row::<N>(month_slot(day, 84), 15, TouClass::OffPeak),
        ]
    }
}

fn make_price_row<N: Num>(slot: usize, cents: u64, tou: TouClass) -> (r: PriceRow<N>)
    ensures
        r == price_row::<N>(slot, cents, tou),
{
    PriceRow { slot, value: N::ratio(cents, 100), tou: Some(tou) }
}

/// The price table of the month.
pub fn month_prices<N: Num>() -> (r: Vec<PriceRow<N>>)
    ensures
        r@ == prices::<N>(DAYS as nat),
{
    let mut rows: Vec<PriceRow<N>> = Vec::new();
    for day in 0..DAYS
        invariant
            rows@ == prices::<N>(day as nat),
    {
        let ghost before = rows@;
        rows.push(make_price_row(slot(day, 0), 8, TouClass::SuperOffPeak));
        rows.push(make_price_row(slot(day, 24), 15, TouClass::OffPeak));
        rows.push(make_price_row(slot(day, 64), 32, TouClass::Peak));
        rows.push(make_price_row(slot(day, 84), 15, TouClass::OffPeak));
        assert(rows@ =~= prices::<N>((day + 1) as nat));
    }
    rows
}

/// A 20 kW port.
pub open spec fn port<N: Num>(id: u32, bidirectional: bool) -> Charger<N> {
    Charger { charger_id: id, max_kw: N::rational(20, 1), bidirectional }
}

/// The ports of the month: four, two of them bidirectional.
pub fn month_chargers<N: Num>() -> (r: Vec<Charger<N>>)
    ensures
        r@ == seq![port::<N>(0, true), port::<N>(1, true), port::<N>(2, false), port::<N>(3, false)],
{
    let mut list: Vec<Charger<N>> = Vec::new();
    list.push(Charger { charger_id: 0, max_kw: N::ratio(20, 1), bidirectional: true });
    list.push(Charger { charger_id: 1, max_kw: N::ratio(20, 1), bidirectional: true });
    list.push(Charger { charger_id: 2, max_kw: N::ratio(20, 1), bidirectional: false });
    list.push(Charger { charger_id: 3, max_kw: N::ratio(20, 1), bidirectional: false });
    assert(list@ =~= seq![
        port::<N>(0, true),
        port::<N>(1, true),
        port::<N>(2, false),
        port::<N>(3, false),
    ]);
    list
}

/// The rules of the month. The lossy twin has asymmetric efficiencies and a
/// binding site cap.
pub open spec fn month_rules<N: Num>(lossy: bool) -> Rules<N> {
    Rules {
        slot_minutes: N::rational(15, 1),
        horizon_slots: 2880,
        charge_efficiency: if lossy {
            N::rational(92, 100)
        } else {
            one_of()
        },
        discharge_efficiency: if lossy {
            N::rational(94, 100)
        } else {
            one_of()
        },
        site_cap_kw: if lossy {
            Some(N::rational(75, 1))
        } else {
            None
        },
        demand_charge_usd_per_kw: zero_of(),
        demand_charge_peak_usd_per_kw: N::rational(1167, 100),
        heuristic_threshold_kw: None,
        persistence: true,
    }
}

/// The manifest of the month or of its lossy twin.
pub fn month_manifest<N: Num>(lossy: bool) -> (r: Manifest<N>)
    ensures
        r@ == month_rules::<N>(lossy),
        r.vehicles_file@ == "vehicles.csv"@,
        r.chargers_file@ == "chargers.csv"@,
        r.building_file@ == "building_load.csv"@,
        r.prices_file@ == "grid_prices.csv"@,
        r.dr_events_file matches Some(name) && name@ == "dr_events.csv"@,
{
    Manifest {
        slot_minutes: N::ratio(15, 1),
        horizon_slots: 2880,
        charge_efficiency: if lossy {
            N::ratio(92, 100)
        } else {
            one()
        },
        discharge_efficiency: if lossy {
            N::ratio(94, 100)
        } else {
            one()
        },
        site_cap_kw: if lossy {
            Some(N::ratio(75, 1))
        } else {
            None
        },
        demand_charge_usd_per_kw: zero(),
        demand_charge_peak_usd_per_kw: N::ratio(1167, 100),
        heuristic_threshold_kw: None,
        persistence: true,
        vehicles_file: default_vehicles_file(),
        chargers_file: default_chargers_file(),
        building_file: default_building_file(),
        prices_file: default_prices_file(),
        dr_events_file: Some("dr_events.csv".to_owned()),
    }
}

// -------------------------------------------------------------------- laws

/// A session that starts `slots` slots later.
pub open spec fn later<N>(v: Vehicle<N>, slots: int) -> Vehicle<N> {
    Vehicle {
        arrival_slot: (v.arrival_slot + slots) as usize,
        departure_slot: (v.departure_slot + slots) as usize,
        ..v
    }
}

/// Every day of the month is like the one before: the same sessions, loads and prices, a
/// day of slots later.
pub proof fn days_repeat<N: Num>(day: int, i: int)
    requires
        0 <= day < 28,
    ensures
        0 <= i < 4 ==> daytime::<N>(day + 1)[i] == later(daytime::<N>(day)[i], 96),
        0 <= i < 2 ==> overnight::<N>(day + 1)[i] == later(overnight::<N>(day)[i], 96),
        visitor::<N>(day + 1) == later(visitor::<N>(day), 96),
        daytime::<N>(day).len() == 4 && overnight::<N>(day).len() == 2,
{
}

/// The cars come and go at their hours: the commuter from nine to five, the donor from ten
/// to half past seven, the heavy car from eight to eight, the evening car from five to ten,
/// the resident overnight from six to eight and the floor-bound car from ten to six.
pub proof fn cars_keep_their_hours<N: Num>(day: int)
    requires
        0 <= day < 29,
    ensures
        ({
            let d = daytime::<N>(day);
            let o = overnight::<N>(day);
            let start = day * 24 * 4;
            &&& d[0].arrival_slot == start + 9 * 4 && d[0].departure_slot == start + 17 * 4
            &&& d[1].arrival_slot == start + 10 * 4 && d[1].departure_slot == start + 19 * 4 + 2
            &&& d[2].arrival_slot == start + 8 * 4 && d[2].departure_slot == start + 20 * 4
            &&& d[3].arrival_slot == start + 17 * 4 && d[3].departure_slot == start + 22 * 4
            &&& o[0].arrival_slot == start + 18 * 4 && o[0].departure_slot == start + (24 + 8) * 4
            &&& o[1].arrival_slot == start + 22 * 4 && o[1].departure_slot == start + (24 + 6) * 4
        }),
{
}

/// Evening events come on the second and the fourth day of each week, from five to seven.
pub proof fn evenings_are_tuesdays_and_thursdays<N: Num>(n: nat, k: int)
    requires
        n <= 30,
        0 <= k < evenings::<N>(n).len(),
    ensures
        ({
            let e = evenings::<N>(n)[k];
            let day = e.start_slot as int / 96;
            &&& 0 <= day < n && (day % 7 == 1 || day % 7 == 3)
            &&& e.start_slot == day * 96 + 17 * 4
            &&& e.end_slot == day * 96 + 19 * 4
        }),
    decreases n,
{
    let m = (n - 1) as nat;
    let before = evenings::<N>(m);
    if k < before.len() {
        assert(evenings::<N>(n)[k] == before[k]);
        evenings_are_tuesdays_and_thursdays::<N>(m, k);
    } else {
        assert((m * 96 + 68) / 96 == m);
    }
}

} // verus!
