//! The simulation loop.
//!
//! Time advances in fixed slots. At each slot boundary the engine processes
//! departures, then arrivals (deterministic order), asks the policy for power
//! setpoints, clamps them against physical limits, and integrates energy for
//! the slot. The engine, not the policy, is the authority on feasibility: a
//! policy that requests infeasible power gets silently clamped, so every
//! physical invariant holds for every policy.

use vstd::prelude::*;

use std::collections::HashMap;

use crate::billing::{compute_bill, Bill};
use crate::num::{clamp, zero, zero_of, Num};
use crate::order::{sort, Rank};
use crate::policy::{Builtin, Policy};
use crate::scenario::{Charger, DrEvent, Scenario, ScenarioModel, TouClass, Vehicle};
use crate::site::{
    after_setpoint, applied_power, arrival_order, arrival_rank, arrive, assign, boarded, charge_start, charged,
    connected, depart, discharged, dispatched, first_vacant, fresh, observation, opening, outcome, pass, pick_port,
    report, requested, result_rank, results_of, service_level, session_view, session_views, shown_rows, site_at,
    sorted_results, swept, trace_line, without, Flow, ResultsModel, SiteModel,
};
use crate::soundness::{
    are_for_shown, has_left, is_plugged, is_shaped, is_sound, lemma_arrival_order, lemma_arrive, lemma_assign,
    lemma_depart, lemma_dispatched, lemma_observation, lemma_pass, lemma_requested, lemma_shown, same_places,
    sessions_run_forward, the_site_is_sound_in_every_slot,
};
use crate::state::{Observation, Session, SessionView, Setpoint};
use crate::{kw_to_kwh, kwh_to_kw};

verus! {

/// Per-slot record of the site's power flows, kW.
#[derive(Debug, Clone, Copy, PartialEq)]
pub struct SlotRecord<N> {
    pub slot: usize,
    pub building_kw: N,
    pub ev_charge_kw: N,
    pub ev_discharge_kw: N,
    /// building + charge - discharge; never negative (no-export guard).
    pub net_kw: N,
    pub price_usd_per_kwh: N,
    pub tou: TouClass,
}

/// One session's power and SoC in one slot; lets a reader verify
/// charger exclusivity, queue fairness, and exact per-session trajectories.
#[derive(Debug, Clone, Copy, PartialEq)]
pub struct TraceRecord<N> {
    pub slot: usize,
    pub vehicle_id: u32,
    pub arrival_slot: usize,
    pub charger_id: u32,
    /// Applied power this slot: positive grid-side charge, negative
    /// building-side discharge, kW.
    pub power_kw: N,
    /// SoC at the END of the slot, kWh.
    pub soc_kwh: N,
}

/// Outcome of one vehicle session.
#[derive(Debug, Clone, Copy, PartialEq)]
pub struct SessionResult<N> {
    pub vehicle_id: u32,
    pub arrival_slot: usize,
    pub departure_slot: usize,
    /// Actual SoC at arrival: the tabled value, or the persistence-chained
    /// value (previous departure SoC minus depletion, clamped) for later
    /// sessions.
    pub soc_arrival_kwh: N,
    pub soc_departure_kwh: N,
    pub soc_target_kwh: N,
    pub target_met: bool,
    /// Missing charge at departure: max(0, target - departure SoC), kWh.
    pub missing_kwh: N,
    /// Banked (excess) charge at departure: max(0, departure SoC - target), kWh.
    pub banked_kwh: N,
    /// Grid energy drawn for this session, kWh (meter side).
    pub energy_drawn_kwh: N,
    /// Energy exported to the building, kWh (building side).
    pub energy_exported_kwh: N,
    /// Energy manufactured by the persistence clamp at this session's arrival:
    /// nonzero when the declared depletion exceeded what the battery held
    /// (the trip was physically infeasible as declared). Always reported,
    /// never silent.
    pub chain_clamped_kwh: N,
    /// True if the session never obtained a charger before departing.
    pub never_connected: bool,
}

#[derive(Debug, Clone, PartialEq)]
pub struct Results<N> {
    pub policy: String,
    pub slots: Vec<SlotRecord<N>>,
    pub sessions: Vec<SessionResult<N>>,
    pub trace: Vec<TraceRecord<N>>,
    pub bill: Bill<N>,
}

impl<N: Num> View for Results<N> {
    type V = ResultsModel<N>;

    open spec fn view(&self) -> ResultsModel<N> {
        ResultsModel {
            slots: self.slots@,
            sessions: self.sessions@,
            trace: self.trace@,
            bill: self.bill@,
        }
    }
}

/// The running state of a simulation; see [`SiteModel`].
struct Site<N> {
    active: Vec<Option<Session<N>>>,
    free: Vec<bool>,
    arrival_soc: Vec<N>,
    clamped: Vec<N>,
    chain: HashMap<u32, N>,
    dropped: Vec<bool>,
    results: Vec<SessionResult<N>>,
    trace: Vec<TraceRecord<N>>,
    slots: Vec<SlotRecord<N>>,
}

impl<N> View for Site<N> {
    type V = SiteModel<N>;

    closed spec fn view(&self) -> SiteModel<N> {
        SiteModel {
            active: self.active@,
            free: self.free@,
            arrival_soc: self.arrival_soc@,
            clamped: self.clamped@,
            chain: self.chain@,
            dropped: self.dropped@,
            results: self.results@,
            trace: self.trace@,
            slots: self.slots@,
        }
    }
}

/// Clamp a requested setpoint to physical limits, update the session's battery
/// state, and return the power actually applied (grid/building side, kW).
/// `allowance_kw` is the remaining site-level allowance for this request: the
/// charge headroom under the site cap for charging requests, or the remaining
/// offsettable draw (no-export guard) for discharge requests.
fn apply_setpoint<N: Num>(
    session: &mut Session<N>,
    view: &SessionView<N>,
    sp: &Setpoint<N>,
    dt_min: N,
    eta_c: N,
    eta_d: N,
    allowance_kw: N,
) -> (kw: N)
    ensures
        kw == applied_power(*old(session), *view, sp.power_kw, dt_min, eta_c, eta_d, allowance_kw),
        *final(session) == after_setpoint(
            *old(session),
            *view,
            sp.power_kw,
            dt_min,
            eta_c,
            eta_d,
            allowance_kw,
        ),
{
    let v = &view.vehicle;
    if zero::<N>().le(sp.power_kw) {
        // Charging: grid-side power, battery gains eta_c fraction.
        let asked = sp.power_kw.min(view.max_charge_kw).min(allowance_kw);
        // Don't overfill the battery.
        let room_kwh = v.ceiling_kwh().sub(session.soc_kwh);
        let max_grid_kwh = if zero::<N>().lt(eta_c) {
            room_kwh.div(eta_c)
        } else {
            zero()
        };
        let p = asked.min(kwh_to_kw(max_grid_kwh, dt_min)).max(zero());
        let grid_kwh = kw_to_kwh(p, dt_min);
        session.soc_kwh = session.soc_kwh.add(grid_kwh.mul(eta_c));
        session.energy_drawn_kwh = session.energy_drawn_kwh.add(grid_kwh);
        p
    } else {
        // Discharging: building-side power, battery loses 1/eta_d per unit.
        // Bounded by the port/vehicle limit, the SoC floor, and no-export.
        let asked = sp.power_kw.neg().min(view.max_discharge_kw).min(allowance_kw);
        let max_building_kwh = session.soc_kwh.sub(v.min_soc_kwh).max(zero()).mul(eta_d);
        let p = asked.min(kwh_to_kw(max_building_kwh, dt_min)).max(zero());
        let building_kwh = kw_to_kwh(p, dt_min);
        session.soc_kwh = session.soc_kwh.sub(building_kwh.div(eta_d));
        session.energy_exported_kwh = session.energy_exported_kwh.add(building_kwh);
        p.neg()
    }
}

/// A placeholder session for a vehicle that never obtained a charger.
fn unserved_session<N: Num>(vehicle_index: usize, arrival_soc_kwh: N) -> (s: Session<N>)
    ensures
        s == fresh(vehicle_index as int, 0, arrival_soc_kwh),
{
    Session {
        vehicle_index,
        charger_index: 0,
        soc_arrival_kwh: arrival_soc_kwh,
        soc_kwh: arrival_soc_kwh,
        energy_drawn_kwh: zero(),
        energy_exported_kwh: zero(),
    }
}

/// The report on a session that ends.
fn finish<N: Num>(v: &Vehicle<N>, s: &Session<N>, chain_clamped_kwh: N, never_connected: bool) -> (r:
    SessionResult<N>)
    ensures
        r == outcome(*v, *s, chain_clamped_kwh, never_connected),
{
    let missing_kwh = v.soc_target_kwh.sub(s.soc_kwh).max(zero());
    SessionResult {
        vehicle_id: v.vehicle_id,
        arrival_slot: v.arrival_slot,
        departure_slot: v.departure_slot,
        soc_arrival_kwh: s.soc_arrival_kwh,
        soc_departure_kwh: s.soc_kwh,
        soc_target_kwh: v.soc_target_kwh,
        // target_met is derived from missing_kwh so the two can never
        // contradict; the band absorbs rounding dust.
        target_met: missing_kwh.le(N::ratio(1, 1_000_000_000)),
        missing_kwh,
        banked_kwh: s.soc_kwh.sub(v.soc_target_kwh).max(zero()),
        energy_drawn_kwh: s.energy_drawn_kwh,
        energy_exported_kwh: s.energy_exported_kwh,
        chain_clamped_kwh,
        never_connected,
    }
}

/// The first vacant port that can discharge, or that need not if `any` is set.
fn find_vacant<N: Num>(chargers: &Vec<Charger<N>>, free: &Vec<bool>, any: bool) -> (r: Option<usize>)
    requires
        free.len() == chargers.len(),
    ensures
        match (r, first_vacant(chargers@, free@, any, chargers@.len())) {
            (Some(c), Some(d)) => c == d && c < chargers.len(),
            (None, None) => true,
            _ => false,
        },
{
    for c in 0..chargers.len()
        invariant
            free.len() == chargers.len(),
            first_vacant(chargers@, free@, any, c as nat) is None,
    {
        if free[c] && (any || chargers[c].bidirectional) {
            proof {
                assert(first_vacant(chargers@, free@, any, (c + 1) as nat) == Some(c as int));
                lemma_vacant_stays(chargers@, free@, any, (c + 1) as nat, chargers@.len());
            }
            return Some(c);
        }
    }
    None
}

proof fn lemma_vacant_stays<N: Num>(chargers: Seq<Charger<N>>, free: Seq<bool>, any: bool, m: nat, n: nat)
    requires
        m <= n,
        first_vacant(chargers, free, any, m) is Some,
    ensures
        first_vacant(chargers, free, any, n) == first_vacant(chargers, free, any, m),
    decreases n,
{
    if m < n {
        lemma_vacant_stays(chargers, free, any, m, (n - 1) as nat);
    }
}

/// The rows in the order in which arrivals are processed.
pub(crate) fn sort_by_arrival<N: Num>(vehicles: &Vec<Vehicle<N>>) -> (order: Vec<usize>)
    ensures
        order@ == arrival_order(vehicles@),
        order@.len() == vehicles@.len(),
        forall|k: int| 0 <= k < order@.len() ==> #[trigger] order@[k] < vehicles@.len(),
        order@.no_duplicates(),
{
    let mut keys: Vec<Rank> = Vec::new();
    for i in 0..vehicles.len()
        invariant
            keys@ == Seq::new(i as nat, |j: int| arrival_rank(vehicles@[j])),
    {
        let key = Rank {
            major: vehicles[i].arrival_slot as u64,
            middle: vehicles[i].vehicle_id as u64,
            minor: 0,
        };
        keys.push(key);
        assert(keys@ =~= Seq::new((i + 1) as nat, |j: int| arrival_rank(vehicles@[j])));
    }
    sort(&keys)
}

/// The lowest firm service level of the events that cover `slot`.
fn firm_level<N: Num>(events: &Vec<DrEvent<N>>, slot: usize) -> (r: Option<N>)
    ensures
        r == service_level(events@, slot as int),
{
    let mut level: Option<N> = None;
    for i in 0..events.len()
        invariant
            level == service_level(events@.take(i as int), slot as int),
    {
        assert(events@.take(i + 1).drop_last() =~= events@.take(i as int));
        assert(events@.take(i + 1).last() == events@[i as int]);
        if events[i].contains(slot) {
            level = match level {
                Some(f) => Some(f.min(events[i].fsl_kw)),
                None => Some(events[i].fsl_kw),
            };
        }
    }
    assert(events@.take(events@.len() as int) =~= events@);
    level
}

/// The setpoints the engine looks at: those for shown sessions with finite
/// power, in emission order, a later one for the same session overriding an
/// earlier one.
fn sift<N: Num>(out: &Vec<Setpoint<N>>, n_views: usize) -> (r: Vec<Setpoint<N>>)
    ensures
        r@ == requested(out@, n_views as nat),
{
    let mut kept: Vec<Setpoint<N>> = Vec::new();
    for i in 0..out.len()
        invariant
            kept@ == requested(out@.take(i as int), n_views as nat),
    {
        assert(out@.take(i + 1).drop_last() =~= out@.take(i as int));
        assert(out@.take(i + 1).last() == out@[i as int]);
        let sp = out[i];
        if sp.session_index < n_views && sp.power_kw.is_finite() {
            let mut next: Vec<Setpoint<N>> = Vec::new();
            for j in 0..kept.len()
                invariant
                    next@ == without(kept@.take(j as int), sp.session_index),
            {
                assert(kept@.take(j + 1).drop_last() =~= kept@.take(j as int));
                assert(kept@.take(j + 1).last() == kept@[j as int]);
                if kept[j].session_index != sp.session_index {
                    next.push(kept[j]);
                }
            }
            assert(kept@.take(kept@.len() as int) =~= kept@);
            next.push(sp);
            kept = next;
        }
    }
    assert(out@.take(out@.len() as int) =~= out@);
    kept
}


/// What a run asks of its scenario: one building load, price and class per slot
/// of the horizon, sessions that end after they start, and, where a vehicle's
/// SoC is carried into a later session, a floor that is not above the ceiling.
pub open spec fn is_runnable<N: Num>(sc: ScenarioModel<N>) -> bool {
    &&& sc.building.len() == sc.rules.horizon_slots
    &&& sc.price.len() == sc.rules.horizon_slots
    &&& sc.tou.len() == sc.rules.horizon_slots
    &&& sessions_run_forward(sc)
    &&& forall|i: int|
        #![trigger sc.vehicles[i]]
        0 <= i < sc.vehicles.len() && sc.rules.persistence && has_left(
            sc,
            sc.vehicles[i].vehicle_id,
            sc.vehicles[i].arrival_slot as int,
        ) ==> sc.vehicles[i].min_soc_kwh.at_most(sc.vehicles[i].ceiling())
}

impl<N: Num> Site<N> {
    /// The site before the first slot.
    fn open(scenario: &Scenario<N>) -> (site: Site<N>)
        ensures
            site@ == opening(scenario@),
    {
        broadcast use vstd::std_specs::hash::group_hash_axioms;

        let mut active: Vec<Option<Session<N>>> = Vec::new();
        let mut arrival_soc: Vec<N> = Vec::new();
        let mut clamped: Vec<N> = Vec::new();
        let mut dropped: Vec<bool> = Vec::new();
        for i in 0..scenario.vehicles.len()
            invariant
                active@ == Seq::new(i as nat, |j: int| None::<Session<N>>),
                arrival_soc@ == Seq::new(i as nat, |j: int| scenario.vehicles@[j].soc_arrival_kwh),
                clamped@ == Seq::new(i as nat, |j: int| zero_of::<N>()),
                dropped@ == Seq::new(i as nat, |j: int| false),
        {
            active.push(None);
            arrival_soc.push(scenario.vehicles[i].soc_arrival_kwh);
            clamped.push(zero());
            dropped.push(false);
            assert(active@ =~= Seq::new((i + 1) as nat, |j: int| None::<Session<N>>));
            assert(arrival_soc@ =~= Seq::new(
                (i + 1) as nat,
                |j: int| scenario.vehicles@[j].soc_arrival_kwh,
            ));
            assert(clamped@ =~= Seq::new((i + 1) as nat, |j: int| zero_of::<N>()));
            assert(dropped@ =~= Seq::new((i + 1) as nat, |j: int| false));
        }
        let mut free: Vec<bool> = Vec::new();
        for c in 0..scenario.chargers.len()
            invariant
                free@ == Seq::new(c as nat, |j: int| true),
        {
            free.push(true);
            assert(free@ =~= Seq::new((c + 1) as nat, |j: int| true));
        }
        let site = Site {
            active,
            free,
            arrival_soc,
            clamped,
            chain: HashMap::new(),
            dropped,
            results: Vec::new(),
            trace: Vec::new(),
            slots: Vec::new(),
        };
        assert(site@ =~= opening(scenario@));
        site
    }

    /// The report on row `i` if it ends now.
    fn report_row(&self, scenario: &Scenario<N>, i: usize) -> (r: Option<SessionResult<N>>)
        requires
            is_shaped(scenario@, self@),
            i < scenario.vehicles.len(),
        ensures
            r == report(scenario@, self@, i as int),
    {
        match self.active[i] {
            Some(session) => Some(finish(&scenario.vehicles[i], &session, self.clamped[i], false)),
            None => if self.dropped[i] {
                let session = unserved_session(i, self.arrival_soc[i]);
                Some(finish(&scenario.vehicles[i], &session, self.clamped[i], true))
            } else {
                None
            },
        }
    }

    /// Departures: a vehicle whose departure slot is `slot` is gone before this
    /// slot's decision. Chain state updates here, so a same-slot handoff to the
    /// vehicle's next session sees the fresh SoC.
    fn process_departures(&mut self, scenario: &Scenario<N>, slot: usize)
        requires
            is_sound(scenario@, old(self)@, slot as int, slot as int),
        ensures
            final(self)@ == depart(scenario@, old(self)@, slot as int, scenario@.vehicles.len()),
    {
        broadcast use vstd::std_specs::hash::group_hash_axioms;

        let ghost before = self@;
        for i in 0..scenario.vehicles.len()
            invariant
                is_sound(scenario@, before, slot as int, slot as int),
                self@ == depart(scenario@, before, slot as int, i as nat),
        {
            proof {
                lemma_depart(scenario@, before, slot as int, i as nat);
                assert(is_plugged(scenario@, self@, i as int));
            }
            let ghost here = self@;
            let v = &scenario.vehicles[i];
            if v.departure_slot == slot {
                match self.report_row(scenario, i) {
                    Some(r) => {
                        match self.active[i] {
                            Some(session) => {
                                self.free.set(session.charger_index, true);
                            },
                            None => {},
                        }
                        self.active.set(i, None);
                        self.dropped.set(i, false);
                        self.chain.insert(v.vehicle_id, r.soc_departure_kwh);
                        self.results.push(r);
                    },
                    None => {},
                }
            }
            assert(self@ =~= crate::site::depart_row(scenario@, here, slot as int, i as int));
        }
    }

    /// Arrivals: resolve the effective arrival SoC (persistence).
    fn process_arrivals(&mut self, scenario: &Scenario<N>, order: &Vec<usize>, slot: usize)
        requires
            is_runnable(scenario@),
            is_sound(scenario@, old(self)@, slot + 1, slot as int),
            forall|k: int| 0 <= k < order@.len() ==> #[trigger] order@[k] < scenario@.vehicles.len(),
        ensures
            final(self)@ == arrive(scenario@, old(self)@, slot as int, order@),
    {
        broadcast use vstd::std_specs::hash::group_hash_axioms;

        let ghost before = self@;
        for k in 0..order.len()
            invariant
                is_runnable(scenario@),
                is_sound(scenario@, before, slot + 1, slot as int),
                forall|k: int| 0 <= k < order@.len() ==> #[trigger] order@[k] < scenario@.vehicles.len(),
                self@ == arrive(scenario@, before, slot as int, order@.take(k as int)),
        {
            proof {
                let prefix = order@.take(k as int);
                assert forall|j: int| 0 <= j < prefix.len() implies #[trigger] prefix[j]
                    < scenario@.vehicles.len() by {
                    assert(prefix[j] == order@[j]);
                }
                lemma_arrive(scenario@, before, slot as int, prefix, slot + 1, slot as int);
                assert(order@.take(k + 1).drop_last() =~= prefix);
                assert(order@.take(k + 1).last() == order@[k as int]);
            }
            let ghost here = self@;
            let i: usize = order[k];
            let v = &scenario.vehicles[i];
            if v.arrival_slot == slot && scenario.manifest.persistence {
                match self.chain.get(&v.vehicle_id) {
                    Some(prev_soc) => {
                        assert(here.chain.dom().contains(v.vehicle_id));
                        assert(scenario@.vehicles[i as int] == *v);
                        let raw = prev_soc.sub(v.depletion_kwh);
                        let soc = clamp(raw, v.min_soc_kwh, v.ceiling_kwh());
                        self.arrival_soc.set(i, soc);
                        // Energy the clamp invented (declared trip infeasible).
                        self.clamped.set(i, soc.sub(raw).max(zero()));
                    },
                    None => {
                        assert(!here.chain.dom().contains(v.vehicle_id));
                    },
                }
            }
            assert(self@ =~= crate::site::arrive_row(scenario@, here, slot as int, i as int));
        }
        assert(order@.take(order@.len() as int) =~= order@);
    }

    /// Assignment: this slot's cars are processed in ascending vehicle-id order;
    /// each takes the first vacant port with bidirectional ports preferred; a car
    /// that finds no vacant port is dropped for good and is reported
    /// `never_connected` at its departure.
    fn assign_ports(&mut self, scenario: &Scenario<N>, order: &Vec<usize>, slot: usize)
        requires
            sessions_run_forward(scenario@),
            is_sound(scenario@, old(self)@, slot + 1, slot as int),
            forall|k: int| 0 <= k < order@.len() ==> #[trigger] order@[k] < scenario@.vehicles.len(),
        ensures
            final(self)@ == assign(scenario@, old(self)@, slot as int, order@),
    {
        let ghost before = self@;
        for k in 0..order.len()
            invariant
                sessions_run_forward(scenario@),
                is_sound(scenario@, before, slot + 1, slot as int),
                forall|k: int| 0 <= k < order@.len() ==> #[trigger] order@[k] < scenario@.vehicles.len(),
                self@ == assign(scenario@, before, slot as int, order@.take(k as int)),
        {
            proof {
                let prefix = order@.take(k as int);
                assert forall|j: int| 0 <= j < prefix.len() implies #[trigger] prefix[j]
                    < scenario@.vehicles.len() by {
                    assert(prefix[j] == order@[j]);
                }
                assert(scenario.vehicles.len() <= usize::MAX);
                assert(scenario.chargers.len() <= usize::MAX);
                lemma_assign(scenario@, before, slot as int, prefix);
                assert(order@.take(k + 1).drop_last() =~= prefix);
                assert(order@.take(k + 1).last() == order@[k as int]);
            }
            let ghost here = self@;
            let i: usize = order[k];
            if scenario.vehicles[i].arrival_slot == slot {
                let first: Option<usize> = find_vacant(&scenario.chargers, &self.free, false);
                let pick: Option<usize> = match first {
                    Some(c) => Some(c),
                    None => find_vacant(&scenario.chargers, &self.free, true),
                };
                match pick {
                    Some(c) => {
                        assert(pick_port(scenario@.chargers, here.free) == Some(c as int));
                        self.free.set(c, false);
                        let soc = self.arrival_soc[i];
                        self.active.set(
                            i,
                            Some(
                                Session {
                                    vehicle_index: i,
                                    charger_index: c,
                                    soc_arrival_kwh: soc,
                                    soc_kwh: soc,
                                    energy_drawn_kwh: zero(),
                                    energy_exported_kwh: zero(),
                                },
                            ),
                        );
                    },
                    None => {
                        self.dropped.set(i, true);
                    },
                }
            }
            assert(self@ =~= crate::site::assign_row(scenario@, here, slot as int, i as int));
        }
        assert(order@.take(order@.len() as int) =~= order@);
    }

    /// The plugged-in rows, in the canonical order.
    fn rows_shown(&self, scenario: &Scenario<N>, order: &Vec<usize>) -> (rows: Vec<usize>)
        requires
            is_shaped(scenario@, self@),
            order@ == arrival_order(scenario@.vehicles),
        ensures
            rows@ == shown_rows(scenario@, self@),
    {
        assert(scenario.vehicles.len() <= usize::MAX);
        proof {
            lemma_arrival_order(scenario@);
        }
        let mut rows: Vec<usize> = Vec::new();
        for k in 0..order.len()
            invariant
                is_shaped(scenario@, self@),
                forall|k: int| 0 <= k < order@.len() ==> #[trigger] order@[k] < scenario@.vehicles.len(),
                rows@ == connected(self@.active, order@.take(k as int)),
        {
            assert(order@.take(k + 1).drop_last() =~= order@.take(k as int));
            assert(order@.take(k + 1).last() == order@[k as int]);
            if self.active[order[k]].is_some() {
                rows.push(order[k]);
            }
        }
        assert(order@.take(order@.len() as int) =~= order@);
        rows
    }

    /// The sessions as the policy sees them.
    fn views(&self, scenario: &Scenario<N>, rows: &Vec<usize>) -> (views: Vec<SessionView<N>>)
        requires
            is_shaped(scenario@, self@),
            forall|i: int| 0 <= i < scenario@.vehicles.len() ==> #[trigger] is_plugged(scenario@, self@, i),
            rows@ == shown_rows(scenario@, self@),
        ensures
            views@ == session_views(scenario@, self@),
    {
        assert(scenario.vehicles.len() <= usize::MAX);
        proof {
            lemma_shown(scenario@, self@);
        }
        let mut views: Vec<SessionView<N>> = Vec::new();
        for k in 0..rows.len()
            invariant
                is_shaped(scenario@, self@),
                forall|i: int|
                    0 <= i < scenario@.vehicles.len() ==> #[trigger] is_plugged(scenario@, self@, i),
                forall|k: int|
                    0 <= k < rows@.len() ==> (#[trigger] rows@[k]) < scenario@.vehicles.len()
                        && self@.active[rows@[k] as int] is Some,
                views@ == Seq::new(
                    k as nat,
                    |j: int| session_view(scenario@, self@, j, rows@[j] as int),
                ),
        {
            let row: usize = rows[k];
            proof {
                assert(self@.active[row as int] is Some);
                assert(is_plugged(scenario@, self@, row as int));
            }
            let session = self.active[row].unwrap();
            let v = scenario.vehicles[row];
            let charger = &scenario.chargers[session.charger_index];
            let view = SessionView {
                index: k,
                vehicle: v,
                soc_kwh: session.soc_kwh,
                max_charge_kw: v.max_charge_kw.min(charger.max_kw),
                max_discharge_kw: if charger.bidirectional {
                    v.max_discharge_kw.min(charger.max_kw)
                } else {
                    zero()
                },
            };
            assert(view == session_view(scenario@, self@, k as int, row as int));
            views.push(view);
            assert(views@ =~= Seq::new(
                (k + 1) as nat,
                |j: int| session_view(scenario@, self@, j, rows@[j] as int),
            ));
        }
        assert(views@ =~= session_views(scenario@, self@));
        views
    }

    /// One pass over the requests: the charging ones under `allowance_kw`, or
    /// the discharging ones. Returns the pass's total power.
    fn run_pass(
        &mut self,
        scenario: &Scenario<N>,
        rows: &Vec<usize>,
        views: &Vec<SessionView<N>>,
        requests: &Vec<Setpoint<N>>,
        applied: &mut Vec<N>,
        allowance_kw: N,
        charging: bool,
    ) -> (total: N)
        requires
            is_shaped(scenario@, old(self)@),
            are_for_shown(requests@, rows@.len()),
            views@.len() == rows@.len(),
            old(applied)@.len() == rows@.len(),
            forall|k: int|
                0 <= k < rows@.len() ==> (#[trigger] rows@[k]) < scenario@.vehicles.len()
                    && old(self)@.active[rows@[k] as int] is Some,
        ensures
            ({
                let start = Flow {
                    active: old(self)@.active,
                    applied: old(applied)@,
                    total: zero_of(),
                    allowance: allowance_kw,
                };
                let end = pass(scenario@, rows@, views@, start, requests@, charging);
                &&& final(self)@ == (SiteModel { active: end.active, ..old(self)@ })
                &&& final(applied)@ == end.applied
                &&& total == end.total
            }),
    {
        let dt_min = scenario.manifest.slot_minutes;
        let eta_c = scenario.manifest.charge_efficiency;
        let eta_d = scenario.manifest.discharge_efficiency;
        let ghost before = self@;
        let ghost start = Flow {
            active: self@.active,
            applied: applied@,
            total: zero_of(),
            allowance: allowance_kw,
        };
        let mut total: N = zero();
        let mut allowance: N = allowance_kw;
        let ghost mut flow = start;
        assert(self@ =~= SiteModel { active: flow.active, ..before });
        for k in 0..requests.len()
            invariant
                dt_min == scenario@.rules.slot_minutes,
                eta_c == scenario@.rules.charge_efficiency,
                eta_d == scenario@.rules.discharge_efficiency,
                is_shaped(scenario@, before),
                are_for_shown(requests@, rows@.len()),
                views@.len() == rows@.len(),
                start.applied.len() == rows@.len(),
                start.active == before.active,
                forall|k: int|
                    0 <= k < rows@.len() ==> (#[trigger] rows@[k]) < scenario@.vehicles.len()
                        && start.active[rows@[k] as int] is Some,
                flow == pass(scenario@, rows@, views@, start, requests@.take(k as int), charging),
                self@ == (SiteModel { active: flow.active, ..before }),
                applied@ == flow.applied,
                total == flow.total,
                allowance == flow.allowance,
        {
            let ghost prefix = requests@.take(k as int);
            let sp = requests[k];
            proof {
                assert(are_for_shown(prefix, rows@.len())) by {
                    assert forall|j: int| 0 <= j < prefix.len() implies (#[trigger] prefix[j]).session_index
                        < rows@.len() && prefix[j].power_kw.finite() by {
                        assert(prefix[j] == requests@[j]);
                    }
                }
                lemma_pass(scenario@, rows@, views@, start, prefix, charging);
                assert(requests@.take(k + 1).drop_last() =~= prefix);
                assert(requests@.take(k + 1).last() == sp);
                assert(requests@[k as int].session_index < rows@.len());
            }
            let skip: bool = if charging {
                sp.power_kw.lt(zero())
            } else {
                zero::<N>().le(sp.power_kw)
            };
            if !skip {
                let row: usize = rows[sp.session_index];
                assert(start.active[row as int] is Some);
                assert(flow.active[row as int] is Some);
                let view = views[sp.session_index];
                let mut session = self.active[row].unwrap();
                let kw = apply_setpoint(&mut session, &view, &sp, dt_min, eta_c, eta_d, allowance);
                self.active.set(row, Some(session));
                applied.set(sp.session_index, kw);
                if charging {
                    total = total.add(kw);
                    allowance = allowance.sub(kw);
                } else {
                    total = total.sub(kw);
                    allowance = allowance.add(kw);
                }
            }
            proof {
                let next = pass(scenario@, rows@, views@, start, requests@.take(k + 1), charging);
                assert(self@ =~= SiteModel { active: next.active, ..before });
                assert(applied@ =~= next.applied);
                flow = next;
            }
        }
        assert(requests@.take(requests@.len() as int) =~= requests@);
        total
    }

    /// Clamps the policy's setpoints and integrates the slot. Charging is
    /// applied first, under the site cap (the cap binds the EV fleet; the
    /// building's own load is not curtailable); discharging second under a
    /// no-export guard: aggregate discharge may offset the site's draw (building
    /// + charging) but never exceed it, so net load stays non-negative. Scarce
    /// headroom is rationed in the order in which the policy asked.
    fn dispatch(
        &mut self,
        scenario: &Scenario<N>,
        slot: usize,
        rows: &Vec<usize>,
        views: &Vec<SessionView<N>>,
        out: &Vec<Setpoint<N>>,
    )
        requires
            is_runnable(scenario@),
            is_sound(scenario@, old(self)@, slot + 1, slot as int),
            slot < scenario@.rules.horizon_slots,
            rows@ == shown_rows(scenario@, old(self)@),
            views@ == session_views(scenario@, old(self)@),
        ensures
            final(self)@ == dispatched(scenario@, old(self)@, slot as int, out@),
    {
        let ghost before = self@;
        assert(scenario.vehicles.len() <= usize::MAX);
        proof {
            lemma_shown(scenario@, before);
            lemma_requested(out@, rows@.len());
            lemma_dispatched(scenario@, before, slot as int, out@, slot + 1, slot as int);
        }
        let requests = sift(out, rows.len());
        let building_kw = scenario.building_load_kw[slot];
        let mut applied: Vec<N> = Vec::new();
        for k in 0..rows.len()
            invariant
                applied@ == Seq::new(k as nat, |j: int| zero_of::<N>()),
        {
            applied.push(zero());
            assert(applied@ =~= Seq::new((k + 1) as nat, |j: int| zero_of::<N>()));
        }
        let charge_headroom_kw = match scenario.manifest.site_cap_kw {
            Some(cap) => cap.sub(building_kw).max(zero()),
            None => N::infinity(),
        };
        assert(applied@ =~= charge_start(scenario@, before, slot as int).applied);
        let charge_kw_total = self.run_pass(
            scenario,
            rows,
            views,
            &requests,
            &mut applied,
            charge_headroom_kw,
            true,
        );
        let ghost up = charged(scenario@, before, slot as int, out@);
        assert(self@.active == up.active && applied@ == up.applied && charge_kw_total == up.total);
        assert forall|k: int| 0 <= k < rows@.len() implies (#[trigger] rows@[k]) < scenario@.vehicles.len()
            && self@.active[rows@[k] as int] is Some by {
            assert(before.active[rows@[k] as int] is Some);
        }
        let discharge_kw_total = self.run_pass(
            scenario,
            rows,
            views,
            &requests,
            &mut applied,
            building_kw.add(charge_kw_total),
            false,
        );
        let ghost down = discharged(scenario@, before, slot as int, out@);
        assert(self@.active == down.active && applied@ == down.applied && discharge_kw_total == down.total);
        let ghost settled = self@;
        for k in 0..rows.len()
            invariant
                is_sound(scenario@, before, slot + 1, slot as int),
                before.trace == settled.trace,
                same_places(before.active, down.active),
                settled.active == down.active,
                applied@ == down.applied,
                down.applied.len() == rows@.len(),
                forall|k: int|
                    0 <= k < rows@.len() ==> (#[trigger] rows@[k]) < scenario@.vehicles.len()
                        && before.active[rows@[k] as int] is Some,
                self@ == (SiteModel {
                    trace: before.trace + Seq::new(
                        k as nat,
                        |j: int| trace_line(scenario@, rows@, down, slot as int, j),
                    ),
                    ..settled
                }),
        {
            let row: usize = rows[k];
            proof {
                assert(before.active[row as int] is Some);
                assert(down.active[row as int] is Some);
                assert(is_plugged(scenario@, before, row as int));
            }
            let session = self.active[row].unwrap();
            let v = &scenario.vehicles[row];
            let line = TraceRecord {
                slot,
                vehicle_id: v.vehicle_id,
                arrival_slot: v.arrival_slot,
                charger_id: scenario.chargers[session.charger_index].charger_id,
                power_kw: applied[k],
                soc_kwh: session.soc_kwh,
            };
            self.trace.push(line);
            assert(line == trace_line(scenario@, rows@, down, slot as int, k as int));
            assert(self@.trace =~= before.trace + Seq::new(
                (k + 1) as nat,
                |j: int| trace_line(scenario@, rows@, down, slot as int, j),
            ));
            assert(self@ =~= (SiteModel {
                trace: before.trace + Seq::new(
                    (k + 1) as nat,
                    |j: int| trace_line(scenario@, rows@, down, slot as int, j),
                ),
                ..settled
            }));
        }
        self.slots.push(
            SlotRecord {
                slot,
                building_kw,
                ev_charge_kw: charge_kw_total,
                ev_discharge_kw: discharge_kw_total,
                net_kw: building_kw.add(charge_kw_total).sub(discharge_kw_total),
                price_usd_per_kwh: scenario.price_usd_per_kwh[slot],
                tou: scenario.tou_class[slot],
            },
        );
        assert(self@ =~= dispatched(scenario@, before, slot as int, out@));
    }

    /// Reports the sessions still plugged in at horizon end (or never connected).
    fn sweep(&mut self, scenario: &Scenario<N>)
        requires
            is_shaped(scenario@, old(self)@),
        ensures
            final(self)@ == (SiteModel {
                results: swept(scenario@, old(self)@, scenario@.vehicles.len()),
                ..old(self)@
            }),
    {
        let ghost before = self@;
        assert(self@ =~= (SiteModel { results: swept(scenario@, before, 0), ..before }));
        for i in 0..scenario.vehicles.len()
            invariant
                is_shaped(scenario@, before),
                self@ == (SiteModel { results: swept(scenario@, before, i as nat), ..before }),
        {
            match self.report_row(scenario, i) {
                Some(r) => {
                    self.results.push(r);
                },
                None => {},
            }
            assert(self@ =~= (SiteModel { results: swept(scenario@, before, (i + 1) as nat), ..before }));
        }
    }
}

/// The reports by arrival slot and vehicle.
fn sort_results<N: Num>(list: &Vec<SessionResult<N>>) -> (r: Vec<SessionResult<N>>)
    ensures
        r@ == sorted_results(list@),
{
    let mut keys: Vec<Rank> = Vec::new();
    for i in 0..list.len()
        invariant
            keys@ == Seq::new(i as nat, |j: int| result_rank(list@[j])),
    {
        let key = Rank {
            major: list[i].arrival_slot as u64,
            middle: list[i].vehicle_id as u64,
            minor: 0,
        };
        keys.push(key);
        assert(keys@ =~= Seq::new((i + 1) as nat, |j: int| result_rank(list@[j])));
    }
    let order = sort(&keys);
    let mut sorted: Vec<SessionResult<N>> = Vec::new();
    for i in 0..order.len()
        invariant
            order@.len() == list@.len(),
            forall|k: int| 0 <= k < order@.len() ==> #[trigger] order@[k] < list@.len(),
            sorted@ == Seq::new(i as nat, |j: int| list@[order@[j] as int]),
    {
        sorted.push(list[order[i]]);
        assert(sorted@ =~= Seq::new((i + 1) as nat, |j: int| list@[order@[j] as int]));
    }
    assert(sorted@ =~= sorted_results(list@));
    sorted
}

/// `decisions` are answers that the policy, starting from `policies[0]`, may
/// give to what it is shown slot by slot, and `policies` its states between
/// them.
pub open spec fn is_episode<N: Num, P: Policy<N>>(
    sc: ScenarioModel<N>,
    policies: Seq<P>,
    decisions: Seq<Seq<Setpoint<N>>>,
) -> bool {
    &&& policies.len() == decisions.len() + 1
    &&& forall|t: int|
        0 <= t < decisions.len() ==> #[trigger] may_answer(
            policies[t],
            observation(sc, boarded(sc, site_at(sc, decisions, t as nat), t), t),
            decisions[t],
            policies[t + 1],
        )
}

/// The policy may answer an observation that says `seen` with `out`.
pub open spec fn may_answer<N: Num, P: Policy<N>>(
    policy: P,
    seen: crate::state::ObservationModel<N>,
    out: Seq<Setpoint<N>>,
    after: P,
) -> bool {
    exists|obs: Observation<N>, list: Vec<Setpoint<N>>|
        obs@ == seen && list@ == out && #[trigger] policy.chooses(&obs, &list, &after)
}

proof fn lemma_same_past<N: Num>(
    sc: ScenarioModel<N>,
    a: Seq<Seq<Setpoint<N>>>,
    b: Seq<Seq<Setpoint<N>>>,
    t: nat,
)
    requires
        forall|i: int| 0 <= i < t ==> #[trigger] a[i] == b[i],
    ensures
        site_at(sc, a, t) == site_at(sc, b, t),
    decreases t,
{
    if t > 0 {
        lemma_same_past(sc, a, b, (t - 1) as nat);
        assert(a[t - 1] == b[t - 1]);
    }
}

/// Run `policy` over `scenario` and return the full result set.
pub fn run<N: Num, P: Policy<N>>(scenario: &Scenario<N>, policy: &mut P) -> (r: Results<N>)
    requires
        is_runnable(scenario@),
        old(policy).ready(),
    ensures
        r.policy@ == old(policy).title()@,
        final(policy).ready(),
        exists|policies: Seq<P>, decisions: Seq<Seq<Setpoint<N>>>|
            {
                &&& #[trigger] is_episode(scenario@, policies, decisions)
                &&& decisions.len() == scenario@.rules.horizon_slots
                &&& policies[0] == *old(policy)
                &&& policies.last() == *final(policy)
                &&& r@ == results_of(scenario@, decisions)
            },
{
    let m = &scenario.manifest;
    let order = sort_by_arrival(&scenario.vehicles);
    let mut site = Site::open(scenario);
    let ghost mut policies: Seq<P> = seq![*policy];
    let ghost mut decisions: Seq<Seq<Setpoint<N>>> = Seq::empty();
    assert(scenario.vehicles.len() <= usize::MAX);
    assert(scenario.chargers.len() <= usize::MAX);
    assert(scenario.building_load_kw.len() <= usize::MAX);
    for slot in 0..m.horizon_slots
        invariant
            m.horizon_slots == scenario@.rules.horizon_slots,
            m@ == scenario@.rules,
            is_runnable(scenario@),
            scenario@.vehicles.len() <= usize::MAX,
            scenario@.chargers.len() <= usize::MAX,
            scenario@.building.len() <= usize::MAX,
            policy.ready(),
            policy.title()@ == old(policy).title()@,
            order@ == arrival_order(scenario@.vehicles),
            forall|k: int| 0 <= k < order@.len() ==> #[trigger] order@[k] < scenario@.vehicles.len(),
            decisions.len() == slot,
            is_episode(scenario@, policies, decisions),
            policies[0] == *old(policy),
            policies.last() == *policy,
            site@ == site_at(scenario@, decisions, slot as nat),
    {
        let ghost before = site@;
        proof {
            the_site_is_sound_in_every_slot(scenario@, decisions, slot as nat);
        }
        site.process_departures(scenario, slot);
        proof {
            lemma_depart(scenario@, before, slot as int, scenario@.vehicles.len());
            lemma_arrive(scenario@, site@, slot as int, order@, slot + 1, slot as int);
        }
        site.process_arrivals(scenario, &order, slot);
        site.assign_ports(scenario, &order, slot);
        let ghost here = site@;
        assert(here == boarded(scenario@, before, slot as int));
        proof {
            lemma_observation(scenario@, here, slot as int);
        }
        let rows = site.rows_shown(scenario, &order);
        let views = site.views(scenario, &rows);
        let shown = site.views(scenario, &rows);
        let obs = Observation {
            slot,
            slot_minutes: m.slot_minutes,
            building_load_kw: scenario.building_load_kw[slot],
            price_usd_per_kwh: scenario.price_usd_per_kwh[slot],
            tou: scenario.tou_class[slot],
            site_cap_kw: m.site_cap_kw,
            charge_efficiency: m.charge_efficiency,
            discharge_efficiency: m.discharge_efficiency,
            dr_fsl_kw: firm_level(&scenario.dr_events, slot),
            sessions: shown,
            price_series: scenario.price_usd_per_kwh.as_slice(),
            building_series: scenario.building_load_kw.as_slice(),
            tou_series: scenario.tou_class.as_slice(),
            dr_events: scenario.dr_events.as_slice(),
            heuristic_threshold_kw: m.heuristic_threshold_kw,
            demand_charge_usd_per_kw: m.demand_charge_usd_per_kw,
            demand_charge_peak_usd_per_kw: m.demand_charge_peak_usd_per_kw,
        };
        assert(obs@ =~= observation(scenario@, here, slot as int));
        let ghost asked = *policy;
        let out = policy.decide(&obs);
        assert(may_answer(asked, obs@, out@, *policy));
        site.dispatch(scenario, slot, &rows, &views, &out);
        proof {
            let longer = decisions.push(out@);
            let states = policies.push(*policy);
            lemma_same_past(scenario@, decisions, longer, slot as nat);
            assert forall|t: int| 0 <= t < longer.len() implies #[trigger] may_answer(
                states[t],
                observation(scenario@, boarded(scenario@, site_at(scenario@, longer, t as nat), t), t),
                longer[t],
                states[t + 1],
            ) by {
                lemma_same_past(scenario@, decisions, longer, t as nat);
                if t < slot {
                    assert(may_answer(
                        policies[t],
                        observation(
                            scenario@,
                            boarded(scenario@, site_at(scenario@, decisions, t as nat), t),
                            t,
                        ),
                        decisions[t],
                        policies[t + 1],
                    ));
                }
            }
            assert(is_episode(scenario@, states, longer));
            policies = states;
            decisions = longer;
        }
    }
    proof {
        the_site_is_sound_in_every_slot(scenario@, decisions, m.horizon_slots as nat);
    }
    let ghost end = site@;
    site.sweep(scenario);
    let sessions = sort_results(&site.results);
    let bill = compute_bill(scenario, site.slots.as_slice());
    let r = Results {
        policy: policy.name().to_owned(),
        slots: site.slots,
        sessions,
        trace: site.trace,
        bill,
    };
    assert(r@ =~= results_of(scenario@, decisions));
    assert(is_episode(scenario@, policies, decisions));
    r
}

// -------------------------------------------------------------------- laws

/// The policy's answer and its next state follow from its state and what it is
/// shown.
pub open spec fn is_deterministic<N: Num, P: Policy<N>>() -> bool {
    forall|
        p: P,
        o1: Observation<N>,
        o2: Observation<N>,
        l1: Vec<Setpoint<N>>,
        l2: Vec<Setpoint<N>>,
        q1: P,
        q2: P,
    |
        o1@ == o2@ && #[trigger] p.chooses(&o1, &l1, &q1) && #[trigger] p.chooses(&o2, &l2, &q2) ==> l1@
            == l2@ && q1 == q2
}

proof fn lemma_episodes_agree<N: Num, P: Policy<N>>(
    sc: ScenarioModel<N>,
    p1: Seq<P>,
    d1: Seq<Seq<Setpoint<N>>>,
    p2: Seq<P>,
    d2: Seq<Seq<Setpoint<N>>>,
    s: nat,
    t: nat,
)
    requires
        is_deterministic::<N, P>(),
        is_episode(sc, p1, d1),
        is_episode(sc, p2, d2),
        p1[s as int] == p2[s as int],
        forall|i: int| 0 <= i < s ==> #[trigger] d1[i] == d2[i],
        s <= t,
        t <= d1.len(),
        t <= d2.len(),
    ensures
        p1[t as int] == p2[t as int],
        forall|i: int| 0 <= i < t ==> #[trigger] d1[i] == d2[i],
    decreases t,
{
    if t > s {
        let m = t - 1;
        lemma_episodes_agree(sc, p1, d1, p2, d2, s, m as nat);
        lemma_same_past(sc, d1, d2, m as nat);
        let seen = observation(sc, boarded(sc, site_at(sc, d1, m as nat), m), m);
        assert(may_answer(p1[m], seen, d1[m], p1[m + 1]));
        assert(may_answer(p2[m], seen, d2[m], p2[m + 1]));
        let (o1, l1) = choose|obs: Observation<N>, list: Vec<Setpoint<N>>|
            obs@ == seen && list@ == d1[m] && #[trigger] p1[m].chooses(&obs, &list, &p1[m + 1]);
        let (o2, l2) = choose|obs: Observation<N>, list: Vec<Setpoint<N>>|
            obs@ == seen && list@ == d2[m] && #[trigger] p2[m].chooses(&obs, &list, &p2[m + 1]);
        assert(l1@ == l2@);
    }
}

/// A run is reproducible: two runs of a deterministic policy from the same state
/// over the same scenario make the same decisions and report the same.
pub proof fn deterministic_policies_repeat_their_runs<N: Num, P: Policy<N>>(
    sc: ScenarioModel<N>,
    p1: Seq<P>,
    d1: Seq<Seq<Setpoint<N>>>,
    p2: Seq<P>,
    d2: Seq<Seq<Setpoint<N>>>,
)
    requires
        is_deterministic::<N, P>(),
        is_episode(sc, p1, d1),
        is_episode(sc, p2, d2),
        p1[0] == p2[0],
        d1.len() == sc.rules.horizon_slots,
        d2.len() == sc.rules.horizon_slots,
    ensures
        d1 == d2,
        results_of(sc, d1) == results_of(sc, d2),
        p1.last() == p2.last(),
{
    lemma_episodes_agree(sc, p1, d1, p2, d2, 0, d1.len());
    assert(d1 =~= d2);
}

/// The built-in policies are deterministic.
pub proof fn builtin_policies_are_deterministic<N: Num>()
    ensures
        is_deterministic::<N, Builtin<N>>(),
        is_deterministic::<N, crate::policy::Idle>(),
        is_deterministic::<N, crate::policy::Uncontrolled>(),
        is_deterministic::<N, crate::policy::Policy0>(),
        is_deterministic::<N, crate::policy::Policy1>(),
        is_deterministic::<N, crate::policy::Policy2>(),
        is_deterministic::<N, crate::policy::ThresholdScheduler<N>>(),
        is_deterministic::<N, crate::policy::oracle::OracleReplay<N>>(),
{
    assert forall|
        p: crate::policy::Idle,
        o1: Observation<N>,
        o2: Observation<N>,
        l1: Vec<Setpoint<N>>,
        l2: Vec<Setpoint<N>>,
        q1: crate::policy::Idle,
        q2: crate::policy::Idle,
    |
        o1@ == o2@ && #[trigger] p.chooses(&o1, &l1, &q1) && #[trigger] p.chooses(&o2, &l2, &q2) implies l1@
        == l2@ && q1 == q2 by {
        assert(l1@ =~= l2@);
    }
    assert forall|
        p: Builtin<N>,
        o1: Observation<N>,
        o2: Observation<N>,
        l1: Vec<Setpoint<N>>,
        l2: Vec<Setpoint<N>>,
        q1: Builtin<N>,
        q2: Builtin<N>,
    |
        o1@ == o2@ && #[trigger] p.chooses(&o1, &l1, &q1) && #[trigger] p.chooses(&o2, &l2, &q2) implies l1@
        == l2@ && q1 == q2 by {
        assert(l1@ =~= l2@);
    }
}

proof fn lemma_answer<N: Num, P: Policy<N>>(
    sc: ScenarioModel<N>,
    policies: Seq<P>,
    decisions: Seq<Seq<Setpoint<N>>>,
    t: int,
)
    requires
        is_episode(sc, policies, decisions),
        0 <= t < decisions.len(),
    ensures
        may_answer(
            policies[t],
            observation(sc, boarded(sc, site_at(sc, decisions, t as nat), t), t),
            decisions[t],
            policies[t + 1],
        ),
{
}

/// The same built-in policy, whatever it has been through.
pub open spec fn are_alike<N: Num>(a: Builtin<N>, b: Builtin<N>) -> bool {
    match (a, b) {
        (Builtin::Threshold(p), Builtin::Threshold(q)) => p.key == q.key,
        _ => a == b,
    }
}

/// What a built-in policy remembers does not outlast the episode: two runs of it
/// over the same scenario report the same, whatever it was used for before.
pub proof fn builtin_policies_forget_earlier_runs<N: Num>(
    sc: ScenarioModel<N>,
    p1: Seq<Builtin<N>>,
    d1: Seq<Seq<Setpoint<N>>>,
    p2: Seq<Builtin<N>>,
    d2: Seq<Seq<Setpoint<N>>>,
)
    requires
        is_episode(sc, p1, d1),
        is_episode(sc, p2, d2),
        are_alike(p1[0], p2[0]),
        d1.len() == sc.rules.horizon_slots,
        d2.len() == sc.rules.horizon_slots,
    ensures
        d1 == d2,
        results_of(sc, d1) == results_of(sc, d2),
{
    builtin_policies_are_deterministic::<N>();
    if d1.len() > 0 {
        let seen = observation(sc, boarded(sc, site_at(sc, d1, 0), 0), 0);
        lemma_answer(sc, p1, d1, 0);
        lemma_answer(sc, p2, d2, 0);
        let (o1, l1) = choose|obs: Observation<N>, list: Vec<Setpoint<N>>|
            obs@ == seen && list@ == d1[0] && #[trigger] p1[0].chooses(&obs, &list, &p1[1]);
        let (o2, l2) = choose|obs: Observation<N>, list: Vec<Setpoint<N>>|
            obs@ == seen && list@ == d2[0] && #[trigger] p2[0].chooses(&obs, &list, &p2[1]);
        assert(p1[0].chooses(&o1, &l1, &p1[1]));
        assert(p2[0].chooses(&o2, &l2, &p2[1]));
        assert(d1[0] =~= d2[0]);
        lemma_episodes_agree(sc, p1, d1, p2, d2, 1, d1.len());
    }
    assert(d1 =~= d2);
}

} // verus!
