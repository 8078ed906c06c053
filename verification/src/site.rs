//! The site as the simulation sees it: which sessions are plugged in where,
//! what their batteries hold, and how one slot changes that.

use vstd::prelude::*;

use crate::billing::{bill_of, BillModel};
use crate::engine::{SessionResult, SlotRecord, TraceRecord};
use crate::num::{clamped, zero_of, Num};
use crate::order::{stable_order, Rank, Ranked};
use crate::scenario::{Charger, DrEvent, ScenarioModel, Vehicle};
use crate::state::{ObservationModel, Session, SessionView, Setpoint};
use crate::{energy_of, power_of};

verus! {

/// Everything the simulation carries from slot to slot. Sequences over
/// sessions are indexed like the scenario's vehicles, `free` like its chargers.
#[verifier::ext_equal]
pub struct SiteModel<N> {
    /// The plugged-in sessions.
    pub active: Seq<Option<Session<N>>>,
    /// The vacant ports.
    pub free: Seq<bool>,
    /// Effective arrival SoC, kWh.
    pub arrival_soc: Seq<N>,
    /// Energy added by the clamp at arrival, kWh.
    pub clamped: Seq<N>,
    /// Last observed SoC per vehicle identity, kWh.
    pub chain: Map<u32, N>,
    /// Sessions that arrived but found no vacant port and have not departed yet.
    pub dropped: Seq<bool>,
    /// The sessions that ended so far.
    pub results: Seq<SessionResult<N>>,
    pub trace: Seq<TraceRecord<N>>,
    pub slots: Seq<SlotRecord<N>>,
}

/// The site before the first slot.
pub open spec fn opening<N: Num>(sc: ScenarioModel<N>) -> SiteModel<N> {
    SiteModel {
        active: Seq::new(sc.vehicles.len(), |i: int| None),
        free: Seq::new(sc.chargers.len(), |c: int| true),
        arrival_soc: Seq::new(sc.vehicles.len(), |i: int| sc.vehicles[i].soc_arrival_kwh),
        clamped: Seq::new(sc.vehicles.len(), |i: int| zero_of()),
        chain: Map::empty(),
        dropped: Seq::new(sc.vehicles.len(), |i: int| false),
        results: Seq::empty(),
        trace: Seq::empty(),
        slots: Seq::empty(),
    }
}

/// The rank of a session: by arrival slot, then by vehicle.
pub open spec fn arrival_rank<N>(v: Vehicle<N>) -> Rank {
    Rank { major: v.arrival_slot as u64, middle: v.vehicle_id as u64, minor: 0 }
}

/// All sessions by arrival slot and vehicle: the order in which arrivals are
/// processed and sessions are shown to the policy.
pub open spec fn arrival_order<N>(vehicles: Seq<Vehicle<N>>) -> Seq<usize> {
    stable_order(Seq::new(vehicles.len(), |i: int| arrival_rank(vehicles[i])))
}

// ------------------------------------------------------------- departures

/// The departure target is missed by this much, kWh.
pub open spec fn missing<N: Num>(v: Vehicle<N>, s: Session<N>) -> N {
    v.soc_target_kwh.minus(s.soc_kwh).greater(zero_of())
}

/// The report on a session that ends.
pub open spec fn outcome<N: Num>(
    v: Vehicle<N>,
    s: Session<N>,
    chain_clamped_kwh: N,
    never_connected: bool,
) -> SessionResult<N> {
    SessionResult {
        vehicle_id: v.vehicle_id,
        arrival_slot: v.arrival_slot,
        departure_slot: v.departure_slot,
        soc_arrival_kwh: s.soc_arrival_kwh,
        soc_departure_kwh: s.soc_kwh,
        soc_target_kwh: v.soc_target_kwh,
        target_met: missing(v, s).at_most(N::rational(1, 1_000_000_000)),
        missing_kwh: missing(v, s),
        banked_kwh: s.soc_kwh.minus(v.soc_target_kwh).greater(zero_of()),
        energy_drawn_kwh: s.energy_drawn_kwh,
        energy_exported_kwh: s.energy_exported_kwh,
        chain_clamped_kwh,
        never_connected,
    }
}

/// A session at its start on port `charger_index`.
pub open spec fn fresh<N: Num>(vehicle_index: int, charger_index: int, soc: N) -> Session<N> {
    Session {
        vehicle_index: vehicle_index as usize,
        charger_index: charger_index as usize,
        soc_arrival_kwh: soc,
        soc_kwh: soc,
        energy_drawn_kwh: zero_of(),
        energy_exported_kwh: zero_of(),
    }
}

/// The report on row `i` if it ends now: its session where it is plugged in,
/// the unserved session where it was dropped, nothing otherwise.
pub open spec fn report<N: Num>(sc: ScenarioModel<N>, st: SiteModel<N>, i: int) -> Option<SessionResult<N>> {
    match st.active[i] {
        Some(s) => Some(outcome(sc.vehicles[i], s, st.clamped[i], false)),
        None => if st.dropped[i] {
            Some(outcome(sc.vehicles[i], fresh(i, 0, st.arrival_soc[i]), st.clamped[i], true))
        } else {
            None
        },
    }
}

/// Row `i` leaves if its departure slot is `slot`: its port becomes vacant, the
/// vehicle's SoC is remembered, and the session is reported.
pub open spec fn depart_row<N: Num>(sc: ScenarioModel<N>, st: SiteModel<N>, slot: int, i: int) -> SiteModel<
    N,
> {
    if sc.vehicles[i].departure_slot != slot {
        st
    } else {
        match report(sc, st, i) {
            Some(r) => SiteModel {
                active: st.active.update(i, None),
                free: match st.active[i] {
                    Some(s) => st.free.update(s.charger_index as int, true),
                    None => st.free,
                },
                dropped: st.dropped.update(i, false),
                chain: st.chain.insert(sc.vehicles[i].vehicle_id, r.soc_departure_kwh),
                results: st.results.push(r),
                ..st
            },
            None => st,
        }
    }
}

/// The first `n` rows leave if their departure slot is `slot`.
pub open spec fn depart<N: Num>(sc: ScenarioModel<N>, st: SiteModel<N>, slot: int, n: nat) -> SiteModel<N>
    decreases n,
{
    if n == 0 {
        st
    } else {
        depart_row(sc, depart(sc, st, slot, (n - 1) as nat), slot, n - 1)
    }
}

// --------------------------------------------------------------- arrivals

/// Row `i` arrives if its arrival slot is `slot`: under persistence its SoC is
/// the vehicle's last one minus the depletion, moved into the battery's range.
pub open spec fn arrive_row<N: Num>(sc: ScenarioModel<N>, st: SiteModel<N>, slot: int, i: int) -> SiteModel<
    N,
> {
    let v = sc.vehicles[i];
    if v.arrival_slot == slot && sc.rules.persistence && st.chain.dom().contains(v.vehicle_id) {
        let raw = st.chain[v.vehicle_id].minus(v.depletion_kwh);
        let soc = clamped(raw, v.min_soc_kwh, v.ceiling());
        SiteModel {
            arrival_soc: st.arrival_soc.update(i, soc),
            clamped: st.clamped.update(i, soc.minus(raw).greater(zero_of())),
            ..st
        }
    } else {
        st
    }
}

/// The rows of `order` arrive if their arrival slot is `slot`.
pub open spec fn arrive<N: Num>(
    sc: ScenarioModel<N>,
    st: SiteModel<N>,
    slot: int,
    order: Seq<usize>,
) -> SiteModel<N>
    decreases order.len(),
{
    if order.len() == 0 {
        st
    } else {
        arrive_row(sc, arrive(sc, st, slot, order.drop_last()), slot, order.last() as int)
    }
}

/// The first vacant port among the first `n` that can discharge, or that need
/// not if `any` is set.
pub open spec fn first_vacant<N: Num>(
    chargers: Seq<Charger<N>>,
    free: Seq<bool>,
    any: bool,
    n: nat,
) -> Option<int>
    decreases n,
{
    if n == 0 {
        None
    } else {
        match first_vacant(chargers, free, any, (n - 1) as nat) {
            Some(c) => Some(c),
            None => if free[n - 1] && (any || chargers[n - 1].bidirectional) {
                Some(n - 1)
            } else {
                None
            },
        }
    }
}

/// The port the next car takes: the first vacant bidirectional one, else the
/// first vacant one.
pub open spec fn pick_port<N: Num>(chargers: Seq<Charger<N>>, free: Seq<bool>) -> Option<int> {
    match first_vacant(chargers, free, false, chargers.len()) {
        Some(c) => Some(c),
        None => first_vacant(chargers, free, true, chargers.len()),
    }
}

/// Row `i` is plugged in if its arrival slot is `slot`; where no port is vacant
/// it is dropped for good.
pub open spec fn assign_row<N: Num>(sc: ScenarioModel<N>, st: SiteModel<N>, slot: int, i: int) -> SiteModel<
    N,
> {
    if sc.vehicles[i].arrival_slot != slot {
        st
    } else {
        match pick_port(sc.chargers, st.free) {
            Some(c) => SiteModel {
                free: st.free.update(c, false),
                active: st.active.update(i, Some(fresh(i, c, st.arrival_soc[i]))),
                ..st
            },
            None => SiteModel { dropped: st.dropped.update(i, true), ..st },
        }
    }
}

/// The rows of `order` are plugged in if their arrival slot is `slot`.
pub open spec fn assign<N: Num>(
    sc: ScenarioModel<N>,
    st: SiteModel<N>,
    slot: int,
    order: Seq<usize>,
) -> SiteModel<N>
    decreases order.len(),
{
    if order.len() == 0 {
        st
    } else {
        assign_row(sc, assign(sc, st, slot, order.drop_last()), slot, order.last() as int)
    }
}

/// The site at the decision point of `slot`: departures, then arrivals, then
/// port assignment.
pub open spec fn boarded<N: Num>(sc: ScenarioModel<N>, st: SiteModel<N>, slot: int) -> SiteModel<N> {
    let order = arrival_order(sc.vehicles);
    let left = depart(sc, st, slot, sc.vehicles.len());
    assign(sc, arrive(sc, left, slot, order), slot, order)
}

// ------------------------------------------------------------ observation

/// The rows of `order` that are plugged in, in that order.
pub open spec fn connected<N: Num>(active: Seq<Option<Session<N>>>, order: Seq<usize>) -> Seq<usize>
    decreases order.len(),
{
    if order.len() == 0 {
        Seq::empty()
    } else if active[order.last() as int] is Some {
        connected(active, order.drop_last()).push(order.last())
    } else {
        connected(active, order.drop_last())
    }
}

/// The plugged-in rows by arrival slot and vehicle.
pub open spec fn shown_rows<N: Num>(sc: ScenarioModel<N>, st: SiteModel<N>) -> Seq<usize> {
    connected(st.active, arrival_order(sc.vehicles))
}

/// How the session of row `row` looks to a policy, under index `index`.
pub open spec fn session_view<N: Num>(
    sc: ScenarioModel<N>,
    st: SiteModel<N>,
    index: int,
    row: int,
) -> SessionView<N> {
    let v = sc.vehicles[row];
    let s = st.active[row]->0;
    let port = sc.chargers[s.charger_index as int];
    SessionView {
        index: index as usize,
        vehicle: v,
        soc_kwh: s.soc_kwh,
        max_charge_kw: v.max_charge_kw.lesser(port.max_kw),
        max_discharge_kw: if port.bidirectional {
            v.max_discharge_kw.lesser(port.max_kw)
        } else {
            zero_of()
        },
    }
}

/// All plugged-in sessions as they look to a policy.
pub open spec fn session_views<N: Num>(sc: ScenarioModel<N>, st: SiteModel<N>) -> Seq<SessionView<N>> {
    let rows = shown_rows(sc, st);
    Seq::new(rows.len(), |k: int| session_view(sc, st, k, rows[k] as int))
}

/// The lowest firm service level of the events that cover `slot`.
pub open spec fn service_level<N: Num>(events: Seq<DrEvent<N>>, slot: int) -> Option<N>
    decreases events.len(),
{
    if events.len() == 0 {
        None
    } else if events.last().covers(slot) {
        match service_level(events.drop_last(), slot) {
            Some(f) => Some(f.lesser(events.last().fsl_kw)),
            None => Some(events.last().fsl_kw),
        }
    } else {
        service_level(events.drop_last(), slot)
    }
}

/// What the policy sees at the decision point of `slot`.
pub open spec fn observation<N: Num>(sc: ScenarioModel<N>, st: SiteModel<N>, slot: int) -> ObservationModel<
    N,
> {
    ObservationModel {
        slot: slot as usize,
        slot_minutes: sc.rules.slot_minutes,
        building_load_kw: sc.building[slot],
        price_usd_per_kwh: sc.price[slot],
        tou: sc.tou[slot],
        site_cap_kw: sc.rules.site_cap_kw,
        charge_efficiency: sc.rules.charge_efficiency,
        discharge_efficiency: sc.rules.discharge_efficiency,
        dr_fsl_kw: service_level(sc.events, slot),
        sessions: session_views(sc, st),
        price_series: sc.price,
        building_series: sc.building,
        tou_series: sc.tou,
        dr_events: sc.events,
        heuristic_threshold_kw: sc.rules.heuristic_threshold_kw,
        demand_charge_usd_per_kw: sc.rules.demand_charge_usd_per_kw,
        demand_charge_peak_usd_per_kw: sc.rules.demand_charge_peak_usd_per_kw,
    }
}

// --------------------------------------------------------------- dispatch

/// A setpoint the engine looks at: for a shown session, of finite power.
pub open spec fn is_admissible<N: Num>(sp: Setpoint<N>, n_views: nat) -> bool {
    sp.session_index < n_views && sp.power_kw.finite()
}

/// `list` without the setpoints for session `index`.
pub open spec fn without<N: Num>(list: Seq<Setpoint<N>>, index: usize) -> Seq<Setpoint<N>>
    decreases list.len(),
{
    if list.len() == 0 {
        Seq::empty()
    } else if list.last().session_index == index {
        without(list.drop_last(), index)
    } else {
        without(list.drop_last(), index).push(list.last())
    }
}

/// The admissible setpoints in emission order, of each session only the last.
pub open spec fn requested<N: Num>(out: Seq<Setpoint<N>>, n_views: nat) -> Seq<Setpoint<N>>
    decreases out.len(),
{
    if out.len() == 0 {
        Seq::empty()
    } else {
        let earlier = requested(out.drop_last(), n_views);
        let sp = out.last();
        if is_admissible(sp, n_views) {
            without(earlier, sp.session_index).push(sp)
        } else {
            earlier
        }
    }
}

/// Grid-side charging power that a request of `power_kw` gets: bounded by the
/// session's limit, the remaining allowance and the room in the battery.
pub open spec fn charge_power<N: Num>(
    s: Session<N>,
    view: SessionView<N>,
    power_kw: N,
    dt: N,
    eta_c: N,
    allowance_kw: N,
) -> N {
    let room = view.vehicle.ceiling().minus(s.soc_kwh);
    let grid_room = if zero_of::<N>().below(eta_c) {
        room.over(eta_c)
    } else {
        zero_of()
    };
    power_kw.lesser(view.max_charge_kw).lesser(allowance_kw).lesser(power_of(grid_room, dt)).greater(
        zero_of(),
    )
}

/// The session after charging with `p` kW for one slot.
pub open spec fn after_charge<N: Num>(s: Session<N>, p: N, dt: N, eta_c: N) -> Session<N> {
    Session {
        soc_kwh: s.soc_kwh.plus(energy_of(p, dt).times(eta_c)),
        energy_drawn_kwh: s.energy_drawn_kwh.plus(energy_of(p, dt)),
        ..s
    }
}

/// Building-side discharging power that a request of `power_kw` (negative)
/// gets: bounded by the session's limit, the remaining allowance and the energy
/// above the floor.
pub open spec fn discharge_power<N: Num>(
    s: Session<N>,
    view: SessionView<N>,
    power_kw: N,
    dt: N,
    eta_d: N,
    allowance_kw: N,
) -> N {
    let spare = s.soc_kwh.minus(view.vehicle.min_soc_kwh).greater(zero_of()).times(eta_d);
    power_kw.negated().lesser(view.max_discharge_kw).lesser(allowance_kw).lesser(
        power_of(spare, dt),
    ).greater(zero_of())
}

/// The session after discharging with `p` kW for one slot.
pub open spec fn after_discharge<N: Num>(s: Session<N>, p: N, dt: N, eta_d: N) -> Session<N> {
    Session {
        soc_kwh: s.soc_kwh.minus(energy_of(p, dt).over(eta_d)),
        energy_exported_kwh: s.energy_exported_kwh.plus(energy_of(p, dt)),
        ..s
    }
}

/// Signed power that a request gets, positive for charging, kW.
pub open spec fn applied_power<N: Num>(
    s: Session<N>,
    view: SessionView<N>,
    power_kw: N,
    dt: N,
    eta_c: N,
    eta_d: N,
    allowance_kw: N,
) -> N {
    if zero_of::<N>().at_most(power_kw) {
        charge_power(s, view, power_kw, dt, eta_c, allowance_kw)
    } else {
        discharge_power(s, view, power_kw, dt, eta_d, allowance_kw).negated()
    }
}

/// The session after a request was applied for one slot.
pub open spec fn after_setpoint<N: Num>(
    s: Session<N>,
    view: SessionView<N>,
    power_kw: N,
    dt: N,
    eta_c: N,
    eta_d: N,
    allowance_kw: N,
) -> Session<N> {
    if zero_of::<N>().at_most(power_kw) {
        after_charge(s, charge_power(s, view, power_kw, dt, eta_c, allowance_kw), dt, eta_c)
    } else {
        after_discharge(s, discharge_power(s, view, power_kw, dt, eta_d, allowance_kw), dt, eta_d)
    }
}

/// The state of one pass over the requests of a slot.
#[verifier::ext_equal]
pub struct Flow<N> {
    pub active: Seq<Option<Session<N>>>,
    /// Signed power per shown session, kW.
    pub applied: Seq<N>,
    /// Power of the pass so far, positive, kW.
    pub total: N,
    /// What the pass may still use, kW.
    pub allowance: N,
}

/// A request is applied to its session.
pub open spec fn apply_request<N: Num>(
    sc: ScenarioModel<N>,
    rows: Seq<usize>,
    views: Seq<SessionView<N>>,
    flow: Flow<N>,
    sp: Setpoint<N>,
    charging: bool,
) -> Flow<N> {
    let k = sp.session_index as int;
    let row = rows[k] as int;
    let s = flow.active[row]->0;
    let dt = sc.rules.slot_minutes;
    let eta_c = sc.rules.charge_efficiency;
    let eta_d = sc.rules.discharge_efficiency;
    let kw = applied_power(s, views[k], sp.power_kw, dt, eta_c, eta_d, flow.allowance);
    Flow {
        active: flow.active.update(
            row,
            Some(after_setpoint(s, views[k], sp.power_kw, dt, eta_c, eta_d, flow.allowance)),
        ),
        applied: flow.applied.update(k, kw),
        total: if charging {
            flow.total.plus(kw)
        } else {
            flow.total.minus(kw)
        },
        allowance: if charging {
            flow.allowance.minus(kw)
        } else {
            flow.allowance.plus(kw)
        },
    }
}

/// Whether a request belongs to the charging pass (else: to the discharging pass).
pub open spec fn in_pass<N: Num>(sp: Setpoint<N>, charging: bool) -> bool {
    if charging {
        !sp.power_kw.below(zero_of())
    } else {
        !zero_of::<N>().at_most(sp.power_kw)
    }
}

/// One pass over the requests, in order.
pub open spec fn pass<N: Num>(
    sc: ScenarioModel<N>,
    rows: Seq<usize>,
    views: Seq<SessionView<N>>,
    start: Flow<N>,
    requests: Seq<Setpoint<N>>,
    charging: bool,
) -> Flow<N>
    decreases requests.len(),
{
    if requests.len() == 0 {
        start
    } else {
        let flow = pass(sc, rows, views, start, requests.drop_last(), charging);
        if in_pass(requests.last(), charging) {
            apply_request(sc, rows, views, flow, requests.last(), charging)
        } else {
            flow
        }
    }
}

/// The charging pass starts with what the site cap leaves above the building.
pub open spec fn charge_start<N: Num>(sc: ScenarioModel<N>, st: SiteModel<N>, slot: int) -> Flow<N> {
    Flow {
        active: st.active,
        applied: Seq::new(shown_rows(sc, st).len(), |k: int| zero_of()),
        total: zero_of(),
        allowance: match sc.rules.site_cap_kw {
            Some(cap) => cap.minus(sc.building[slot]).greater(zero_of()),
            None => N::unbounded(),
        },
    }
}

/// The charging pass of a slot.
pub open spec fn charged<N: Num>(
    sc: ScenarioModel<N>,
    st: SiteModel<N>,
    slot: int,
    out: Seq<Setpoint<N>>,
) -> Flow<N> {
    let rows = shown_rows(sc, st);
    let views = session_views(sc, st);
    pass(sc, rows, views, charge_start(sc, st, slot), requested(out, rows.len()), true)
}

/// The discharging pass of a slot, after its charging pass: it may offset the
/// site's draw but not exceed it.
pub open spec fn discharged<N: Num>(
    sc: ScenarioModel<N>,
    st: SiteModel<N>,
    slot: int,
    out: Seq<Setpoint<N>>,
) -> Flow<N> {
    let rows = shown_rows(sc, st);
    let views = session_views(sc, st);
    let up = charged(sc, st, slot, out);
    let start = Flow { total: zero_of(), allowance: sc.building[slot].plus(up.total), ..up };
    pass(sc, rows, views, start, requested(out, rows.len()), false)
}

/// The trace line of shown session `k`.
pub open spec fn trace_line<N: Num>(
    sc: ScenarioModel<N>,
    rows: Seq<usize>,
    flow: Flow<N>,
    slot: int,
    k: int,
) -> TraceRecord<N> {
    let row = rows[k] as int;
    let v = sc.vehicles[row];
    let s = flow.active[row]->0;
    TraceRecord {
        slot: slot as usize,
        vehicle_id: v.vehicle_id,
        arrival_slot: v.arrival_slot,
        charger_id: sc.chargers[s.charger_index as int].charger_id,
        power_kw: flow.applied[k],
        soc_kwh: s.soc_kwh,
    }
}

/// The power flows of a slot.
pub open spec fn slot_record<N: Num>(
    sc: ScenarioModel<N>,
    slot: int,
    charge: N,
    discharge: N,
) -> SlotRecord<N> {
    SlotRecord {
        slot: slot as usize,
        building_kw: sc.building[slot],
        ev_charge_kw: charge,
        ev_discharge_kw: discharge,
        net_kw: sc.building[slot].plus(charge).minus(discharge),
        price_usd_per_kwh: sc.price[slot],
        tou: sc.tou[slot],
    }
}

/// The site after `slot`, when the policy answered `out` at its decision point.
pub open spec fn dispatched<N: Num>(
    sc: ScenarioModel<N>,
    st: SiteModel<N>,
    slot: int,
    out: Seq<Setpoint<N>>,
) -> SiteModel<N> {
    let rows = shown_rows(sc, st);
    let up = charged(sc, st, slot, out);
    let down = discharged(sc, st, slot, out);
    SiteModel {
        active: down.active,
        trace: st.trace + Seq::new(rows.len(), |k: int| trace_line(sc, rows, down, slot, k)),
        slots: st.slots.push(slot_record(sc, slot, up.total, down.total)),
        ..st
    }
}

// ---------------------------------------------------------------- the run

/// The site after the first `t` slots, when the policy answered `decisions`.
pub open spec fn site_at<N: Num>(
    sc: ScenarioModel<N>,
    decisions: Seq<Seq<Setpoint<N>>>,
    t: nat,
) -> SiteModel<N>
    decreases t,
{
    if t == 0 {
        opening(sc)
    } else {
        let before = site_at(sc, decisions, (t - 1) as nat);
        dispatched(sc, boarded(sc, before, t - 1), t - 1, decisions[t - 1])
    }
}

/// The reports of the first `n` rows that are still here at the horizon,
/// behind those of the sessions that ended before.
pub open spec fn swept<N: Num>(sc: ScenarioModel<N>, st: SiteModel<N>, n: nat) -> Seq<SessionResult<N>>
    decreases n,
{
    if n == 0 {
        st.results
    } else {
        match report(sc, st, n - 1) {
            Some(r) => swept(sc, st, (n - 1) as nat).push(r),
            None => swept(sc, st, (n - 1) as nat),
        }
    }
}

/// The rank of a report: by arrival slot, then by vehicle.
pub open spec fn result_rank<N>(r: SessionResult<N>) -> Rank {
    Rank { major: r.arrival_slot as u64, middle: r.vehicle_id as u64, minor: 0 }
}

/// The reports by arrival slot and vehicle.
pub open spec fn sorted_results<N>(list: Seq<SessionResult<N>>) -> Seq<SessionResult<N>> {
    let order = stable_order(Seq::new(list.len(), |i: int| result_rank(list[i])));
    Seq::new(list.len(), |i: int| list[order[i] as int])
}

/// What a run reports.
#[verifier::ext_equal]
pub struct ResultsModel<N> {
    pub slots: Seq<SlotRecord<N>>,
    pub sessions: Seq<SessionResult<N>>,
    pub trace: Seq<TraceRecord<N>>,
    pub bill: BillModel<N>,
}

/// What a run reports when the policy answered `decisions`, slot by slot.
pub open spec fn results_of<N: Num>(
    sc: ScenarioModel<N>,
    decisions: Seq<Seq<Setpoint<N>>>,
) -> ResultsModel<N> {
    let end = site_at(sc, decisions, sc.rules.horizon_slots as nat);
    ResultsModel {
        slots: end.slots,
        sessions: sorted_results(swept(sc, end, sc.vehicles.len())),
        trace: end.trace,
        bill: bill_of(sc, end.slots),
    }
}

} // verus!
