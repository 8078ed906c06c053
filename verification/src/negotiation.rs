//! Negotiation layer v1: arrival-time contract menus.
//!
//! For each session, the building offers a menu of contracts. Tier 0 is the
//! original request; deeper tiers trade a later departure and/or a reduced
//! target for a lower price; the final slot is always a REJECT option (charge
//! elsewhere at an external price, original terms kept). A seeded softmax
//! choice model picks one offer per session; chosen deviations are written
//! back into a modified scenario that then runs through the normal engine.
//!
//! Pricing: each tier is priced from the building's cost to serve that
//! contract, computed by a single-session LP over the session's window
//! (reusing the oracle solver on a one-vehicle sub-scenario). The building
//! passes `surplus_share` of the cost saving of a deviation on to the user:
//! `price_t = cost_0 - surplus_share * (cost_0 - cost_t)`, floored at zero.
//!
//! v1 approximations (revisit in v2):
//! - Menus are priced session-alone against the building load; other EVs'
//!   concurrent draw is not in the pricing LP (it is in the actual dispatch).
//! - Under persistence, the arrival SoC used for pricing session k+1 assumes
//!   session k departs exactly at its (possibly renegotiated) target.
//! - Negotiation is a PRE-PASS over arrivals in time order, not an in-loop
//!   hook; the engine then runs once on the modified scenario.

use vstd::prelude::*;

use std::collections::HashMap;

use crate::engine::sort_by_arrival;
use crate::milp::{MilpBackend, SolveError};
use crate::num::{clamp, clamped, count, from_count, unbounded_below, zero, zero_of, Num};
use crate::policy::oracle::{
    is_oracle_result, is_plannable, solve_oracle, usual_config, OracleConfig, OraclePlan,
};
use crate::order::{stable_order_is_sorted, Ranked};
use crate::rounding::{
    fits, is_number, lemma_closer_fits, lemma_compare, lemma_constants, lemma_finite, lemma_minus, lemma_still_numbers,
    lemma_times, most, rounds_toward_zero,
};
use crate::scenario::{copied, Charger, Scenario, ScenarioModel, Vehicle};
use crate::site::{arrival_order, arrival_rank};
use crate::soundness::lemma_arrival_order;
use crate::validation::{is_valid, issue_text, scenario_issue, sessions_are_disjoint};

verus! {

#[derive(Debug, Clone, Copy, PartialEq)]
pub struct NegotiationConfig<N> {
    /// Menu size INCLUDING the reject option (>= 2).
    pub choice_count: usize,
    /// Departure delay added per tier, slots.
    pub delay_slots_per_tier: usize,
    /// Target reduction per tier, kWh.
    pub target_reduction_per_tier_kwh: N,
    /// Share of the building's cost saving passed to the user in [0, 1].
    pub surplus_share: N,
    /// Price of charging elsewhere (reject option), USD/kWh of the deficit.
    pub external_price_usd_per_kwh: N,
    /// Inconvenience cost per slot of departure delay, USD (choice model).
    pub inconvenience_delay_usd_per_slot: N,
    /// Inconvenience cost per kWh of target reduction, USD (choice model).
    pub inconvenience_reduction_usd_per_kwh: N,
    /// Softmax temperature; 0 = deterministic argmax.
    pub temperature: N,
    /// RNG seed for the choice model (deterministic given the seed).
    pub seed: u64,
}

impl<N: Num> Default for NegotiationConfig<N> {
    fn default() -> (r: Self)
        ensures
            r == (NegotiationConfig {
                choice_count: 5,
                delay_slots_per_tier: 4,
                target_reduction_per_tier_kwh: count::<N>(2),
                surplus_share: N::rational(1, 2),
                external_price_usd_per_kwh: N::rational(9, 20),
                inconvenience_delay_usd_per_slot: N::rational(1, 10),
                inconvenience_reduction_usd_per_kwh: N::rational(1, 4),
                temperature: zero_of::<N>(),
                seed: 42,
            }),
    {
        NegotiationConfig {
            choice_count: 5,
            delay_slots_per_tier: 4,
            target_reduction_per_tier_kwh: N::ratio(2, 1),
            surplus_share: N::ratio(1, 2),
            external_price_usd_per_kwh: N::ratio(9, 20),
            inconvenience_delay_usd_per_slot: N::ratio(1, 10),
            inconvenience_reduction_usd_per_kwh: N::ratio(1, 4),
            temperature: zero(),
            seed: 42,
        }
    }
}

#[derive(Debug, Clone, Copy, PartialEq)]
pub struct Offer<N> {
    pub tier: usize,
    pub is_reject: bool,
    pub delay_slots: usize,
    pub target_reduction_kwh: N,
    pub price_usd: N,
}

#[derive(Debug, Clone, PartialEq)]
pub struct ContractRecord<N> {
    pub vehicle_id: u32,
    pub arrival_slot: usize,
    pub offers: Vec<Offer<N>>,
    pub utilities: Vec<N>,
    pub chosen_tier: usize,
    pub chosen_is_reject: bool,
    pub new_departure_slot: usize,
    pub new_target_kwh: N,
}

/// What a contract record says.
#[verifier::ext_equal]
pub struct ContractModel<N> {
    pub vehicle_id: u32,
    pub arrival_slot: usize,
    pub offers: Seq<Offer<N>>,
    pub utilities: Seq<N>,
    pub chosen_tier: usize,
    pub chosen_is_reject: bool,
    pub new_departure_slot: usize,
    pub new_target_kwh: N,
}

impl<N> View for ContractRecord<N> {
    type V = ContractModel<N>;

    open spec fn view(&self) -> ContractModel<N> {
        ContractModel {
            vehicle_id: self.vehicle_id,
            arrival_slot: self.arrival_slot,
            offers: self.offers@,
            utilities: self.utilities@,
            chosen_tier: self.chosen_tier,
            chosen_is_reject: self.chosen_is_reject,
            new_departure_slot: self.new_departure_slot,
            new_target_kwh: self.new_target_kwh,
        }
    }
}

// ------------------------------------------------------------ random draws

/// Deterministic xorshift64*.
#[derive(Debug, Clone, Copy, PartialEq, Eq)]
pub struct Rng(pub u64);

/// The state after one step.
pub open spec fn rng_next(x: u64) -> u64 {
    let a = x ^ (x >> 12);
    let b = a ^ (a << 25);
    b ^ (b >> 27)
}

/// The number in [0, 1) that a state gives.
pub open spec fn rng_value<N: Num>(x: u64) -> N {
    N::rational(vstd::wrapping::u64_specs::wrapping_mul(x, 0x2545_F491_4F6C_DD1D) >> 11, 0x20_0000_0000_0000)
}

impl Rng {
    /// The next number in [0, 1).
    pub fn unit<N: Num>(&mut self) -> (r: N)
        ensures
            final(self).0 == rng_next(old(self).0),
            r == rng_value::<N>(final(self).0),
    {
        let x: u64 = self.0;
        let a: u64 = x ^ (x >> 12);
        let b: u64 = a ^ (a << 25);
        let c: u64 = b ^ (b >> 27);
        self.0 = c;
        N::ratio(c.wrapping_mul(0x2545_F491_4F6C_DD1D) >> 11, 0x20_0000_0000_0000)
    }
}

/// The first of the `n` best utilities.
pub open spec fn best_of<N: Num>(utilities: Seq<N>, n: nat) -> int
    decreases n,
{
    if n == 0 {
        0
    } else {
        let best = best_of(utilities, (n - 1) as nat);
        if utilities[best].below(utilities[n - 1]) {
            n - 1
        } else {
            best
        }
    }
}

/// The largest of the first `n` utilities.
pub open spec fn largest<N: Num>(utilities: Seq<N>, n: nat) -> N
    decreases n,
{
    if n == 0 {
        unbounded_below()
    } else {
        largest(utilities, (n - 1) as nat).greater(utilities[n - 1])
    }
}

/// The softmax weight of a utility.
pub open spec fn weight<N: Num>(utilities: Seq<N>, temperature: N, k: int) -> N {
    utilities[k].minus(largest(utilities, utilities.len())).over(temperature).exponential()
}

/// The first `n` weights added up.
pub open spec fn weight_sum<N: Num>(utilities: Seq<N>, temperature: N, n: nat) -> N
    decreases n,
{
    if n == 0 {
        zero_of()
    } else {
        weight_sum(utilities, temperature, (n - 1) as nat).plus(weight(utilities, temperature, n - 1))
    }
}

/// What is left of `draw` after the first `n` weights.
pub open spec fn draw_left<N: Num>(utilities: Seq<N>, temperature: N, draw: N, n: nat) -> N
    decreases n,
{
    if n == 0 {
        draw
    } else {
        draw_left(utilities, temperature, draw, (n - 1) as nat).minus(
            weight(utilities, temperature, n - 1),
        )
    }
}

/// The first of the first `n` utilities at which the draw is used up.
pub open spec fn used_up<N: Num>(utilities: Seq<N>, temperature: N, draw: N, n: nat) -> Option<int>
    decreases n,
{
    if n == 0 {
        None
    } else {
        match used_up(utilities, temperature, draw, (n - 1) as nat) {
            Some(k) => Some(k),
            None => if draw_left(utilities, temperature, draw, n).at_most(zero_of()) {
                Some(n - 1)
            } else {
                None
            },
        }
    }
}

/// The offer that is chosen: the first best one at temperature zero, else the
/// one on which the draw falls.
pub open spec fn chosen<N: Num>(utilities: Seq<N>, temperature: N, rng: u64) -> int {
    let n = utilities.len();
    if temperature.at_most(zero_of()) {
        best_of(utilities, n)
    } else {
        let draw = rng_value::<N>(rng_next(rng)).times(weight_sum(utilities, temperature, n));
        match used_up(utilities, temperature, draw, n) {
            Some(k) => k,
            None => n - 1,
        }
    }
}

/// The generator's state after a choice.
pub open spec fn rng_after<N: Num>(temperature: N, rng: u64) -> u64 {
    if temperature.at_most(zero_of()) {
        rng
    } else {
        rng_next(rng)
    }
}

proof fn lemma_best_of<N: Num>(utilities: Seq<N>, n: nat)
    ensures
        0 <= best_of(utilities, n) <= n,
        n > 0 ==> best_of(utilities, n) < n,
    decreases n,
{
    if n > 0 {
        lemma_best_of(utilities, (n - 1) as nat);
    }
}

proof fn lemma_used_up<N: Num>(utilities: Seq<N>, temperature: N, draw: N, m: nat, n: nat)
    requires
        m <= n,
        used_up(utilities, temperature, draw, m) is Some,
    ensures
        used_up(utilities, temperature, draw, n) == used_up(utilities, temperature, draw, m),
    decreases n,
{
    if m < n {
        lemma_used_up(utilities, temperature, draw, m, (n - 1) as nat);
    }
}

/// Softmax sample over utilities (temperature > 0) or argmax (temperature 0).
/// Ties break toward the lower tier, deterministically.
pub fn pick<N: Num>(utilities: &Vec<N>, temperature: N, rng: &mut Rng) -> (r: usize)
    requires
        utilities@.len() > 0,
    ensures
        r == chosen(utilities@, temperature, old(rng).0),
        r < utilities@.len(),
        final(rng).0 == rng_after(temperature, old(rng).0),
{
    let n: usize = utilities.len();
    if temperature.le(zero()) {
        let mut best: usize = 0;
        for k in 0..n
            invariant
                n == utilities@.len(),
                n > 0,
                best == best_of(utilities@, k as nat),
                best < n,
        {
            proof {
                lemma_best_of(utilities@, k as nat);
            }
            if utilities[best].lt(utilities[k]) {
                best = k;
            }
        }
        return best;
    }
    let mut max_u: N = N::infinity().neg();
    for k in 0..n
        invariant
            n == utilities@.len(),
            max_u == largest(utilities@, k as nat),
    {
        max_u = max_u.max(utilities[k]);
    }
    let mut weights: Vec<N> = Vec::new();
    let mut total: N = zero();
    for k in 0..n
        invariant
            n == utilities@.len(),
            max_u == largest(utilities@, n as nat),
            total == weight_sum(utilities@, temperature, k as nat),
            weights@.len() == k,
            forall|j: int| 0 <= j < k ==> #[trigger] weights@[j] == weight(utilities@, temperature, j),
    {
        let w = utilities[k].sub(max_u).div(temperature).exp();
        weights.push(w);
        total = total.add(w);
    }
    let ghost start = rng.0;
    let drawn: N = rng.unit();
    let mut draw: N = drawn.mul(total);
    let ghost first = draw;
    for k in 0..n
        invariant
            n == utilities@.len(),
            weights@.len() == n,
            forall|j: int| 0 <= j < n ==> #[trigger] weights@[j] == weight(utilities@, temperature, j),
            draw == draw_left(utilities@, temperature, first, k as nat),
            used_up(utilities@, temperature, first, k as nat) is None,
            !temperature.at_most(zero_of()),
            first == rng_value::<N>(rng_next(start)).times(
                weight_sum(utilities@, temperature, n as nat),
            ),
            start == old(rng).0,
            rng.0 == rng_next(start),
    {
        draw = draw.sub(weights[k]);
        if draw.le(zero()) {
            proof {
                assert(used_up(utilities@, temperature, first, (k + 1) as nat) == Some(k as int));
                lemma_used_up(utilities@, temperature, first, (k + 1) as nat, n as nat);
            }
            return k;
        }
    }
    n - 1
}

// ---------------------------------------------------------------- the menu

/// The next of the positions from `q` on with a session of vehicle `id`.
pub open spec fn next_visit<N>(vehicles: Seq<Vehicle<N>>, order: Seq<usize>, id: u32, q: int) -> Option<int>
    decreases order.len() - q,
{
    if q < 0 || q >= order.len() {
        None
    } else if vehicles[order[q] as int].vehicle_id == id {
        Some(q)
    } else {
        next_visit(vehicles, order, id, q + 1)
    }
}

/// The latest slot to which the departure of the session at position `p` may
/// move: the arrival of the vehicle's next session, the horizon at most.
pub open spec fn latest_departure<N>(sc: ScenarioModel<N>, p: int) -> int {
    let order = arrival_order(sc.vehicles);
    let v = sc.vehicles[order[p] as int];
    let horizon = sc.rules.horizon_slots as int;
    match next_visit(sc.vehicles, order, v.vehicle_id, p + 1) {
        Some(q) => {
            let next = sc.vehicles[order[q] as int].arrival_slot as int;
            if next < horizon {
                next
            } else {
                horizon
            }
        },
        None => horizon,
    }
}

/// The departure of tier `t`.
pub open spec fn tier_departure<N>(config: NegotiationConfig<N>, v: Vehicle<N>, latest: int, t: int) -> int {
    let asked = v.departure_slot + t * config.delay_slots_per_tier;
    if asked < latest {
        asked
    } else {
        latest
    }
}

/// The target reduction of tier `t`, kWh.
pub open spec fn tier_reduction<N: Num>(config: NegotiationConfig<N>, v: Vehicle<N>, t: int) -> N {
    count::<N>(t).times(config.target_reduction_per_tier_kwh).lesser(
        v.soc_target_kwh.minus(v.min_soc_kwh).greater(zero_of()),
    )
}

/// The offer of tier `t` when serving the original request costs `cost_0` and
/// serving the tier costs `cost_t`.
pub open spec fn tier_offer<N: Num>(
    config: NegotiationConfig<N>,
    v: Vehicle<N>,
    latest: int,
    t: int,
    cost_0: N,
    cost_t: N,
) -> Offer<N> {
    Offer {
        tier: t as usize,
        is_reject: false,
        delay_slots: (tier_departure(config, v, latest, t) - v.departure_slot) as usize,
        target_reduction_kwh: tier_reduction(config, v, t),
        price_usd: cost_0.minus(config.surplus_share.times(cost_0.minus(cost_t))).greater(zero_of()),
    }
}

/// The offer to charge elsewhere.
pub open spec fn reject_offer<N: Num>(config: NegotiationConfig<N>, v: Vehicle<N>, arrival_soc: N) -> Offer<N> {
    Offer {
        tier: (config.choice_count - 1) as usize,
        is_reject: true,
        delay_slots: 0,
        target_reduction_kwh: zero_of(),
        price_usd: config.external_price_usd_per_kwh.times(
            v.soc_target_kwh.minus(arrival_soc).greater(zero_of()),
        ),
    }
}

/// The menu of a session: the tiers, then the offer to charge elsewhere.
/// `costs` are the costs to serve the original request and the tiers.
pub open spec fn menu_of<N: Num>(
    config: NegotiationConfig<N>,
    v: Vehicle<N>,
    latest: int,
    arrival_soc: N,
    costs: Seq<N>,
) -> Seq<Offer<N>> {
    Seq::new(
        (config.choice_count - 1) as nat,
        |t: int| tier_offer(config, v, latest, t, costs[0], costs[t + 1]),
    ).push(reject_offer(config, v, arrival_soc))
}

/// The utility of an offer: its price and inconvenience, negated; charging
/// elsewhere is exempt from the inconvenience.
pub open spec fn utility<N: Num>(config: NegotiationConfig<N>, o: Offer<N>) -> N {
    let inconvenience = if o.is_reject {
        zero_of()
    } else {
        config.inconvenience_delay_usd_per_slot.times(count(o.delay_slots as int)).plus(
            config.inconvenience_reduction_usd_per_kwh.times(o.target_reduction_kwh),
        )
    };
    o.price_usd.negated().minus(inconvenience)
}

/// The utilities of a menu.
pub open spec fn utilities_of<N: Num>(config: NegotiationConfig<N>, menu: Seq<Offer<N>>) -> Seq<N> {
    Seq::new(menu.len(), |k: int| utility(config, menu[k]))
}

/// The record of a session whose user chose offer `k` of `menu`.
pub open spec fn contract<N: Num>(
    config: NegotiationConfig<N>,
    v: Vehicle<N>,
    menu: Seq<Offer<N>>,
    k: int,
) -> ContractModel<N> {
    let o = menu[k];
    ContractModel {
        vehicle_id: v.vehicle_id,
        arrival_slot: v.arrival_slot,
        offers: menu,
        utilities: utilities_of(config, menu),
        chosen_tier: k as usize,
        chosen_is_reject: o.is_reject,
        new_departure_slot: if o.is_reject {
            v.departure_slot
        } else {
            (v.departure_slot + o.delay_slots) as usize
        },
        new_target_kwh: if o.is_reject {
            v.soc_target_kwh
        } else {
            v.soc_target_kwh.minus(o.target_reduction_kwh)
        },
    }
}

// --------------------------------------------------------------- the talks

/// The state of the talks between two sessions.
#[verifier::ext_equal]
pub struct Talks<N> {
    /// The sessions with the terms agreed so far.
    pub vehicles: Seq<Vehicle<N>>,
    /// The SoC assumed of each vehicle at its last departure, kWh.
    pub chain: Map<u32, N>,
    pub rng: u64,
    pub records: Seq<ContractModel<N>>,
}

/// The talks before the first session.
pub open spec fn talks_open<N: Num>(sc: ScenarioModel<N>, config: NegotiationConfig<N>) -> Talks<N> {
    Talks {
        vehicles: sc.vehicles,
        chain: Map::empty(),
        rng: config.seed | 1,
        records: Seq::empty(),
    }
}

/// The SoC with which the session at position `p` is priced.
pub open spec fn priced_soc<N: Num>(sc: ScenarioModel<N>, chain: Map<u32, N>, p: int) -> N {
    let v = sc.vehicles[arrival_order(sc.vehicles)[p] as int];
    if sc.rules.persistence && chain.dom().contains(v.vehicle_id) {
        clamped(chain[v.vehicle_id].minus(v.depletion_kwh), v.min_soc_kwh, v.battery_kwh)
    } else {
        v.soc_arrival_kwh
    }
}

/// The menu offered to the session at position `p`.
pub open spec fn offered<N: Num>(
    sc: ScenarioModel<N>,
    config: NegotiationConfig<N>,
    st: Talks<N>,
    p: int,
    costs: Seq<N>,
) -> Seq<Offer<N>> {
    let v = sc.vehicles[arrival_order(sc.vehicles)[p] as int];
    menu_of(config, v, latest_departure(sc, p), priced_soc(sc, st.chain, p), costs)
}

/// The record of the session at position `p`.
pub open spec fn agreed<N: Num>(
    sc: ScenarioModel<N>,
    config: NegotiationConfig<N>,
    st: Talks<N>,
    p: int,
    costs: Seq<N>,
) -> ContractModel<N> {
    let v = sc.vehicles[arrival_order(sc.vehicles)[p] as int];
    let menu = offered(sc, config, st, p, costs);
    contract(config, v, menu, chosen(utilities_of(config, menu), config.temperature, st.rng))
}

/// The talks after the session at position `p`, whose contracts cost `costs`.
pub open spec fn talked<N: Num>(
    sc: ScenarioModel<N>,
    config: NegotiationConfig<N>,
    st: Talks<N>,
    p: int,
    costs: Seq<N>,
) -> Talks<N> {
    let row = arrival_order(sc.vehicles)[p] as int;
    let v = sc.vehicles[row];
    let c = agreed(sc, config, st, p, costs);
    Talks {
        vehicles: if c.chosen_is_reject {
            st.vehicles
        } else {
            st.vehicles.update(
                row,
                Vehicle {
                    departure_slot: c.new_departure_slot,
                    soc_target_kwh: c.new_target_kwh,
                    ..st.vehicles[row]
                },
            )
        },
        chain: st.chain.insert(
            v.vehicle_id,
            c.new_target_kwh.greater(priced_soc(sc, st.chain, p).lesser(v.battery_kwh)),
        ),
        rng: rng_after(config.temperature, st.rng),
        records: st.records.push(c),
    }
}

/// The talks after the first `n` sessions in arrival order.
pub open spec fn talks_at<N: Num>(
    sc: ScenarioModel<N>,
    config: NegotiationConfig<N>,
    costs: Seq<Seq<N>>,
    n: nat,
) -> Talks<N>
    decreases n,
{
    if n == 0 {
        talks_open(sc, config)
    } else {
        talked(sc, config, talks_at(sc, config, costs, (n - 1) as nat), n - 1, costs[n - 1])
    }
}

// ------------------------------------------------------------------ pricing

/// The first of the first `n` ports with the given capability.
pub open spec fn matching_port<N>(chargers: Seq<Charger<N>>, bidirectional: bool, n: nat) -> Option<int>
    decreases n,
{
    if n == 0 {
        None
    } else {
        match matching_port(chargers, bidirectional, (n - 1) as nat) {
            Some(c) => Some(c),
            None => if chargers[n - 1].bidirectional == bidirectional {
                Some(n - 1)
            } else {
                None
            },
        }
    }
}

/// The port in the pricing problem: the first one with the vehicle's
/// capability, else the first one.
pub open spec fn pricing_port<N: Num>(chargers: Seq<Charger<N>>, v: Vehicle<N>) -> Charger<N> {
    match matching_port(chargers, zero_of::<N>().below(v.max_discharge_kw), chargers.len()) {
        Some(c) => chargers[c],
        None => chargers[0],
    }
}

/// The pricing problem of a contract: the session alone at one port.
pub open spec fn pricing_problem<N: Num>(
    sc: ScenarioModel<N>,
    v: Vehicle<N>,
    arrival_soc: N,
    departure: int,
    target: N,
) -> ScenarioModel<N> {
    ScenarioModel {
        vehicles: seq![
            Vehicle {
                soc_arrival_kwh: arrival_soc,
                departure_slot: departure as usize,
                soc_target_kwh: target,
                depletion_kwh: zero_of(),
                ..v
            },
        ],
        chargers: seq![pricing_port(sc.chargers, v)],
        ..sc
    }
}

/// The pricing problem of contract `j` of the session at position `p`: its
/// original request for 0, tier `j - 1` otherwise.
pub open spec fn priced_contract<N: Num>(
    sc: ScenarioModel<N>,
    config: NegotiationConfig<N>,
    st: Talks<N>,
    p: int,
    j: int,
) -> ScenarioModel<N> {
    let v = sc.vehicles[arrival_order(sc.vehicles)[p] as int];
    let soc = priced_soc(sc, st.chain, p);
    if j == 0 {
        pricing_problem(sc, v, soc, v.departure_slot as int, v.soc_target_kwh)
    } else {
        pricing_problem(
            sc,
            v,
            soc,
            tier_departure(config, v, latest_departure(sc, p), j - 1),
            v.soc_target_kwh.minus(tier_reduction(config, v, j - 1)),
        )
    }
}

/// Serving the pricing problem may cost `cost`.
pub open spec fn may_cost<N: Num, B: MilpBackend<N>>(backend: B, problem: ScenarioModel<N>, cost: N) -> bool {
    exists|plan: OraclePlan<N>|
        #[trigger] is_oracle_result(problem, backend, usual_config(), Ok(plan)) && plan.objective == cost
}

/// `costs` are costs of the contracts of the session at position `p`.
pub open spec fn are_costs<N: Num, B: MilpBackend<N>>(
    sc: ScenarioModel<N>,
    backend: B,
    config: NegotiationConfig<N>,
    st: Talks<N>,
    p: int,
    costs: Seq<N>,
) -> bool {
    forall|j: int|
        0 <= j < costs.len() ==> may_cost(
            backend,
            priced_contract(sc, config, st, p, j),
            #[trigger] costs[j],
        )
}

/// `costs` are costs of all contracts of the first `n` sessions.
pub open spec fn are_all_costs<N: Num, B: MilpBackend<N>>(
    sc: ScenarioModel<N>,
    backend: B,
    config: NegotiationConfig<N>,
    costs: Seq<Seq<N>>,
) -> bool {
    forall|p: int|
        #![trigger costs[p]]
        0 <= p < costs.len() ==> costs[p].len() == config.choice_count && are_costs(
            sc,
            backend,
            config,
            talks_at(sc, config, costs, p as nat),
            p,
            costs[p],
        )
}

/// The scenario with the agreed sessions.
pub open spec fn renegotiated<N: Num>(sc: ScenarioModel<N>, st: Talks<N>) -> ScenarioModel<N> {
    ScenarioModel { vehicles: st.vehicles, ..sc }
}

/// What records say.
pub open spec fn contracts_of<N>(records: Seq<ContractRecord<N>>) -> Seq<ContractModel<N>> {
    Seq::new(records.len(), |i: int| records[i]@)
}

/// What the negotiation asks of a scenario: the pricing problems can be laid
/// out, a vehicle's sessions do not overlap, and the floor of a battery whose
/// SoC is carried over is not above its capacity.
pub open spec fn is_negotiable<N: Num>(sc: ScenarioModel<N>) -> bool {
    &&& is_plannable(sc)
    &&& sc.vehicles.len() > 0 ==> sc.chargers.len() > 0
    &&& sessions_are_disjoint(sc.vehicles)
    &&& forall|i: int|
        0 <= i < sc.vehicles.len() && sc.rules.persistence ==> (
        #[trigger] sc.vehicles[i]).min_soc_kwh.at_most(sc.vehicles[i].battery_kwh)
}

/// Some pricing problem failed with `e`, after the contracts before it were
/// priced.
pub open spec fn pricing_failed<N: Num, B: MilpBackend<N>>(
    sc: ScenarioModel<N>,
    backend: B,
    config: NegotiationConfig<N>,
    costs: Seq<Seq<N>>,
    j: int,
    e: SolveError,
) -> bool {
    &&& are_all_costs(sc, backend, config, costs)
    &&& costs.len() < sc.vehicles.len()
    &&& 0 <= j < config.choice_count
    &&& is_oracle_result(
        priced_contract(
            sc,
            config,
            talks_at(sc, config, costs, costs.len()),
            costs.len() as int,
            j,
        ),
        backend,
        usual_config(),
        Err(e),
    )
}

/// What comes of talks that ended in `end`: the renegotiated scenario and the
/// records, or the first thing that is wrong with that scenario.
pub open spec fn concludes<N: Num>(
    sc: ScenarioModel<N>,
    end: Talks<N>,
    r: Result<(Scenario<N>, Vec<ContractRecord<N>>), SolveError>,
) -> bool {
    match (r, scenario_issue(renegotiated(sc, end))) {
        (Ok((modified, records)), None) => modified@ == renegotiated(sc, end) && contracts_of(records@)
            == end.records,
        (Err(SolveError::Backend(m)), Some(issue)) => m@ == "negotiated scenario invalid: "@ + (
        "invalid scenario: "@ + issue_text(issue)),
        _ => false,
    }
}

/// What the negotiation may return when every contract was priced.
pub open spec fn is_agreement<N: Num, B: MilpBackend<N>>(
    sc: ScenarioModel<N>,
    backend: B,
    config: NegotiationConfig<N>,
    costs: Seq<Seq<N>>,
    r: Result<(Scenario<N>, Vec<ContractRecord<N>>), SolveError>,
) -> bool {
    &&& are_all_costs(sc, backend, config, costs)
    &&& costs.len() == sc.vehicles.len()
    &&& concludes(sc, talks_at(sc, config, costs, sc.vehicles.len()), r)
}

// ---------------------------------------------------------------- execution

/// The next of the positions from `q` on with a session of vehicle `id`.
fn find_next_visit<N: Num>(vehicles: &Vec<Vehicle<N>>, order: &Vec<usize>, id: u32, q: usize) -> (r: Option<
    usize,
>)
    requires
        forall|k: int| 0 <= k < order@.len() ==> #[trigger] order@[k] < vehicles@.len(),
    ensures
        match (r, next_visit(vehicles@, order@, id, q as int)) {
            (Some(i), Some(j)) => i == j && q <= i < order@.len(),
            (None, None) => true,
            _ => false,
        },
{
    let mut i: usize = q;
    while i < order.len()
        invariant
            q <= i,
            forall|k: int| 0 <= k < order@.len() ==> #[trigger] order@[k] < vehicles@.len(),
            next_visit(vehicles@, order@, id, q as int) == next_visit(vehicles@, order@, id, i as int),
        decreases order.len() - i,
    {
        if vehicles[order[i]].vehicle_id == id {
            return Some(i);
        }
        i = i + 1;
    }
    None
}

proof fn lemma_next_visit<N>(vehicles: Seq<Vehicle<N>>, order: Seq<usize>, id: u32, q: int)
    requires
        0 <= q,
    ensures
        next_visit(vehicles, order, id, q) matches Some(i) ==> q <= i < order.len()
            && vehicles[order[i] as int].vehicle_id == id,
    decreases order.len() - q,
{
    if q < order.len() && vehicles[order[q] as int].vehicle_id != id {
        lemma_next_visit(vehicles, order, id, q + 1);
    }
}

/// A departure never has to move forward: the latest one is not before the
/// requested one.
pub proof fn departures_may_stay<N: Num>(sc: ScenarioModel<N>, p: int)
    requires
        is_negotiable(sc),
        sc.vehicles.len() <= usize::MAX,
        0 <= p < sc.vehicles.len(),
    ensures
        ({
            let v = sc.vehicles[arrival_order(sc.vehicles)[p] as int];
            v.departure_slot <= latest_departure(sc, p) <= sc.rules.horizon_slots
        }),
{
    let order = arrival_order(sc.vehicles);
    let keys = Seq::new(sc.vehicles.len(), |i: int| arrival_rank(sc.vehicles[i]));
    lemma_arrival_order(sc);
    stable_order_is_sorted(keys, keys.len());
    let a = order[p] as int;
    assert(order[p] < sc.vehicles.len());
    assert(sc.vehicles[a].arrival_slot < sc.vehicles[a].departure_slot);
    lemma_next_visit(sc.vehicles, order, sc.vehicles[a].vehicle_id, p + 1);
    match next_visit(sc.vehicles, order, sc.vehicles[a].vehicle_id, p + 1) {
        Some(q) => {
            let b = order[q] as int;
            assert(order[q] < sc.vehicles.len());
            assert(order[p] != order[q]);
            assert(!keys[order[q] as int].ahead(&keys[order[p] as int]));
            assert(sc.vehicles[b].arrival_slot < sc.vehicles[b].departure_slot);
        },
        None => {},
    }
}

/// The latest slot to which the departure of the session at position `p` may
/// move.
fn find_latest_departure<N: Num>(scenario: &Scenario<N>, order: &Vec<usize>, p: usize) -> (r: usize)
    requires
        order@ == arrival_order(scenario@.vehicles),
        forall|k: int| 0 <= k < order@.len() ==> #[trigger] order@[k] < scenario@.vehicles.len(),
        p < order@.len(),
    ensures
        r == latest_departure(scenario@, p as int),
{
    let horizon: usize = scenario.manifest.horizon_slots;
    let id: u32 = scenario.vehicles[order[p]].vehicle_id;
    assert(order.len() <= usize::MAX);
    match find_next_visit(&scenario.vehicles, order, id, p + 1) {
        Some(q) => {
            let next: usize = scenario.vehicles[order[q]].arrival_slot;
            if next < horizon {
                next
            } else {
                horizon
            }
        },
        None => horizon,
    }
}

/// The departure of tier `t`.
fn make_tier_departure<N: Num>(config: &NegotiationConfig<N>, v: &Vehicle<N>, latest: usize, t: usize) -> (r:
    usize)
    ensures
        r == tier_departure(*config, *v, latest as int, t as int),
{
    match t.checked_mul(config.delay_slots_per_tier) {
        Some(delay) => match v.departure_slot.checked_add(delay) {
            Some(asked) => if asked < latest {
                asked
            } else {
                latest
            },
            None => latest,
        },
        None => latest,
    }
}

/// The target reduction of tier `t`, kWh.
fn make_tier_reduction<N: Num>(config: &NegotiationConfig<N>, v: &Vehicle<N>, t: usize) -> (r: N)
    ensures
        r == tier_reduction(*config, *v, t as int),
{
    from_count::<N>(t).mul(config.target_reduction_per_tier_kwh).min(
        v.soc_target_kwh.sub(v.min_soc_kwh).max(zero()),
    )
}

/// The menu of a session whose contracts cost `costs`.
pub fn make_menu<N: Num>(
    config: &NegotiationConfig<N>,
    v: &Vehicle<N>,
    latest: usize,
    arrival_soc: N,
    costs: &Vec<N>,
) -> (menu: Vec<Offer<N>>)
    requires
        config.choice_count >= 2,
        costs@.len() == config.choice_count,
        v.departure_slot <= latest,
    ensures
        menu@ == menu_of(*config, *v, latest as int, arrival_soc, costs@),
        menu@.len() == config.choice_count,
{
    let ghost want = menu_of(*config, *v, latest as int, arrival_soc, costs@);
    let cost_0 = costs[0];
    let mut menu: Vec<Offer<N>> = Vec::new();
    for t in 0..config.choice_count - 1
        invariant
            config.choice_count >= 2,
            costs@.len() == config.choice_count,
            v.departure_slot <= latest,
            cost_0 == costs@[0],
            want == menu_of(*config, *v, latest as int, arrival_soc, costs@),
            menu@ == want.take(t as int),
    {
        let dep: usize = make_tier_departure(config, v, latest, t);
        assert(v.departure_slot <= dep) by {
            assert(0 <= t * config.delay_slots_per_tier) by (nonlinear_arith);
        }
        let cost_t = costs[t + 1];
        let offer = Offer {
            tier: t,
            is_reject: false,
            delay_slots: dep - v.departure_slot,
            target_reduction_kwh: make_tier_reduction(config, v, t),
            price_usd: cost_0.sub(config.surplus_share.mul(cost_0.sub(cost_t))).max(zero()),
        };
        assert(offer == want[t as int]);
        menu.push(offer);
        assert(menu@ =~= want.take(t + 1));
    }
    menu.push(
        Offer {
            tier: config.choice_count - 1,
            is_reject: true,
            delay_slots: 0,
            target_reduction_kwh: zero(),
            price_usd: config.external_price_usd_per_kwh.mul(
                v.soc_target_kwh.sub(arrival_soc).max(zero()),
            ),
        },
    );
    assert(menu@ =~= want);
    menu
}

/// The utilities of a menu.
pub fn make_utilities<N: Num>(config: &NegotiationConfig<N>, menu: &Vec<Offer<N>>) -> (r: Vec<N>)
    ensures
        r@ == utilities_of(*config, menu@),
{
    let mut out: Vec<N> = Vec::new();
    for k in 0..menu.len()
        invariant
            out@ == utilities_of(*config, menu@).take(k as int),
    {
        let o = &menu[k];
        let inconvenience: N = if o.is_reject {
            zero()
        } else {
            config.inconvenience_delay_usd_per_slot.mul(from_count(o.delay_slots)).add(
                config.inconvenience_reduction_usd_per_kwh.mul(o.target_reduction_kwh),
            )
        };
        out.push(o.price_usd.neg().sub(inconvenience));
        assert(out@ =~= utilities_of(*config, menu@).take(k + 1));
    }
    assert(out@ =~= utilities_of(*config, menu@));
    out
}

/// The port in the pricing problem.
fn find_pricing_port<N: Num>(chargers: &Vec<Charger<N>>, v: &Vehicle<N>) -> (r: Charger<N>)
    requires
        chargers@.len() > 0,
    ensures
        r == pricing_port(chargers@, *v),
{
    let v2b: bool = zero::<N>().lt(v.max_discharge_kw);
    for c in 0..chargers.len()
        invariant
            v2b == zero_of::<N>().below(v.max_discharge_kw),
            matching_port(chargers@, v2b, c as nat) is None,
    {
        if chargers[c].bidirectional == v2b {
            proof {
                assert(matching_port(chargers@, v2b, (c + 1) as nat) == Some(c as int));
                lemma_matching_port(chargers@, v2b, (c + 1) as nat, chargers@.len());
            }
            return chargers[c];
        }
    }
    chargers[0]
}

proof fn lemma_matching_port<N>(chargers: Seq<Charger<N>>, v2b: bool, m: nat, n: nat)
    requires
        m <= n,
        matching_port(chargers, v2b, m) is Some,
    ensures
        matching_port(chargers, v2b, n) == matching_port(chargers, v2b, m),
    decreases n,
{
    if m < n {
        lemma_matching_port(chargers, v2b, m, (n - 1) as nat);
    }
}

/// The cost to serve one contract: a single-session LP on a sub-scenario.
fn price_contract<N: Num, B: MilpBackend<N>>(
    scenario: &Scenario<N>,
    backend: &B,
    v: &Vehicle<N>,
    arrival_soc: N,
    departure: usize,
    target: N,
) -> (r: Result<N, SolveError>)
    requires
        is_negotiable(scenario@),
        scenario@.chargers.len() > 0,
        v.arrival_slot < departure <= scenario@.rules.horizon_slots,
    ensures
        ({
            let problem = pricing_problem(scenario@, *v, arrival_soc, departure as int, target);
            match r {
                Ok(cost) => may_cost(*backend, problem, cost),
                Err(e) => is_oracle_result(problem, *backend, usual_config(), Err(e)),
            }
        }),
{
    let ghost problem = pricing_problem(scenario@, *v, arrival_soc, departure as int, target);
    let mut session: Vehicle<N> = *v;
    session.soc_arrival_kwh = arrival_soc;
    session.departure_slot = departure;
    session.soc_target_kwh = target;
    session.depletion_kwh = zero();
    let mut vehicles: Vec<Vehicle<N>> = Vec::new();
    vehicles.push(session);
    let mut chargers: Vec<Charger<N>> = Vec::new();
    chargers.push(find_pricing_port(&scenario.chargers, v));
    let sub = scenario.with_sessions(vehicles, chargers);
    assert(sub@ =~= problem);
    let config: OracleConfig<N> = OracleConfig::default();
    match solve_oracle(&sub, backend, &config) {
        Ok(plan) => {
            assert(is_oracle_result(problem, *backend, usual_config(), Ok(plan)));
            Ok(plan.objective)
        },
        Err(e) => Err(e),
    }
}

/// The costs of the contracts of the session at position `p`; where one cannot
/// be priced, its number comes with the error.
fn price_contracts<N: Num, B: MilpBackend<N>>(
    scenario: &Scenario<N>,
    backend: &B,
    config: &NegotiationConfig<N>,
    order: &Vec<usize>,
    p: usize,
    latest: usize,
    soc: N,
    Ghost(st): Ghost<Talks<N>>,
) -> (r: Result<Vec<N>, (SolveError, usize)>)
    requires
        is_negotiable(scenario@),
        config.choice_count >= 2,
        order@ == arrival_order(scenario@.vehicles),
        forall|k: int| 0 <= k < order@.len() ==> #[trigger] order@[k] < scenario@.vehicles.len(),
        p < order@.len(),
        latest == latest_departure(scenario@, p as int),
        scenario@.vehicles[order@[p as int] as int].departure_slot <= latest
            <= scenario@.rules.horizon_slots,
        soc == priced_soc(scenario@, st.chain, p as int),
    ensures
        match r {
            Ok(costs) => costs@.len() == config.choice_count && are_costs(
                scenario@,
                *backend,
                *config,
                st,
                p as int,
                costs@,
            ),
            Err((e, j)) => j < config.choice_count && is_oracle_result(
                priced_contract(scenario@, *config, st, p as int, j as int),
                *backend,
                usual_config(),
                Err(e),
            ),
        },
{
    let v = scenario.vehicles[order[p]];
    assert(scenario@.vehicles[order@[p as int] as int].arrival_slot < v.departure_slot);
    let mut costs: Vec<N> = Vec::new();
    for j in 0..config.choice_count
        invariant
            is_negotiable(scenario@),
            p < order@.len(),
            order@ == arrival_order(scenario@.vehicles),
            v == scenario@.vehicles[order@[p as int] as int],
            v.arrival_slot < v.departure_slot <= latest <= scenario@.rules.horizon_slots,
            latest == latest_departure(scenario@, p as int),
            soc == priced_soc(scenario@, st.chain, p as int),
            costs@.len() == j,
            are_costs(scenario@, *backend, *config, st, p as int, costs@),
    {
        let (departure, target) = if j == 0 {
            (v.departure_slot, v.soc_target_kwh)
        } else {
            let t: usize = j - 1;
            assert(0 <= t * config.delay_slots_per_tier) by (nonlinear_arith);
            (
                make_tier_departure(config, &v, latest, t),
                v.soc_target_kwh.sub(make_tier_reduction(config, &v, t)),
            )
        };
        match price_contract(scenario, backend, &v, soc, departure, target) {
            Ok(cost) => {
                let ghost before = costs@;
                costs.push(cost);
                assert forall|i: int| 0 <= i < costs@.len() implies may_cost(
                    *backend,
                    priced_contract(scenario@, *config, st, p as int, i),
                    #[trigger] costs@[i],
                ) by {
                    if i < j {
                        assert(costs@[i] == before[i]);
                    }
                }
            },
            Err(e) => {
                return Err((e, j));
            },
        }
    }
    Ok(costs)
}

proof fn lemma_same_talks<N: Num>(
    sc: ScenarioModel<N>,
    config: NegotiationConfig<N>,
    a: Seq<Seq<N>>,
    b: Seq<Seq<N>>,
    n: nat,
)
    requires
        forall|i: int| 0 <= i < n ==> #[trigger] a[i] == b[i],
    ensures
        talks_at(sc, config, a, n) == talks_at(sc, config, b, n),
    decreases n,
{
    if n > 0 {
        lemma_same_talks(sc, config, a, b, (n - 1) as nat);
        assert(a[n - 1] == b[n - 1]);
    }
}

/// The running state of the talks; see [`Talks`].
struct Table<N> {
    vehicles: Vec<Vehicle<N>>,
    chain: HashMap<u32, N>,
    rng: Rng,
    records: Vec<ContractRecord<N>>,
}

impl<N> View for Table<N> {
    type V = Talks<N>;

    closed spec fn view(&self) -> Talks<N> {
        Talks {
            vehicles: self.vehicles@,
            chain: self.chain@,
            rng: self.rng.0,
            records: contracts_of(self.records@),
        }
    }
}

/// The SoC with which the session at position `p` is priced.
fn find_priced_soc<N: Num>(
    scenario: &Scenario<N>,
    chain: &HashMap<u32, N>,
    order: &Vec<usize>,
    p: usize,
) -> (soc: N)
    requires
        is_negotiable(scenario@),
        order@ == arrival_order(scenario@.vehicles),
        p < order@.len(),
        order@[p as int] < scenario@.vehicles.len(),
    ensures
        soc == priced_soc(scenario@, chain@, p as int),
{
    broadcast use vstd::std_specs::hash::group_hash_axioms;

    let v = &scenario.vehicles[order[p]];
    assert(scenario@.vehicles[order@[p as int] as int] == *v);
    if scenario.manifest.persistence {
        match chain.get(&v.vehicle_id) {
            Some(prev) => {
                assert(chain@.dom().contains(v.vehicle_id));
                clamp(prev.sub(v.depletion_kwh), v.min_soc_kwh, v.battery_kwh)
            },
            None => {
                assert(!chain@.dom().contains(v.vehicle_id));
                v.soc_arrival_kwh
            },
        }
    } else {
        v.soc_arrival_kwh
    }
}

/// Settles the session at position `p`, whose contracts cost `costs`.
fn settle<N: Num>(
    scenario: &Scenario<N>,
    config: &NegotiationConfig<N>,
    order: &Vec<usize>,
    p: usize,
    latest: usize,
    soc: N,
    costs: &Vec<N>,
    table: &mut Table<N>,
)
    requires
        is_negotiable(scenario@),
        config.choice_count >= 2,
        order@ == arrival_order(scenario@.vehicles),
        p < order@.len(),
        order@[p as int] < scenario@.vehicles.len(),
        latest == latest_departure(scenario@, p as int),
        scenario@.vehicles[order@[p as int] as int].departure_slot <= latest,
        soc == priced_soc(scenario@, old(table)@.chain, p as int),
        costs@.len() == config.choice_count,
        old(table)@.vehicles.len() == scenario@.vehicles.len(),
    ensures
        final(table)@ == talked(scenario@, *config, old(table)@, p as int, costs@),
        final(table)@.vehicles.len() == scenario@.vehicles.len(),
{
    broadcast use vstd::std_specs::hash::group_hash_axioms;

    let ghost sc = scenario@;
    let ghost st = table@;
    let row: usize = order[p];
    let v = scenario.vehicles[row];
    let menu = make_menu(config, &v, latest, soc, costs);
    let utilities = make_utilities(config, &menu);
    let picked: usize = pick(&utilities, config.temperature, &mut table.rng);
    let offer = menu[picked];
    proof {
        assert(offer.is_reject || v.departure_slot + offer.delay_slots <= latest) by {
            if picked < config.choice_count - 1 {
                assert(0 <= picked * config.delay_slots_per_tier) by (nonlinear_arith);
            }
        }
    }
    let (new_departure_slot, new_target_kwh) = if offer.is_reject {
        (v.departure_slot, v.soc_target_kwh)
    } else {
        (v.departure_slot + offer.delay_slots, v.soc_target_kwh.sub(offer.target_reduction_kwh))
    };
    if !offer.is_reject {
        let mut changed: Vehicle<N> = table.vehicles[row];
        changed.departure_slot = new_departure_slot;
        changed.soc_target_kwh = new_target_kwh;
        table.vehicles.set(row, changed);
    }
    table.chain.insert(v.vehicle_id, new_target_kwh.max(soc.min(v.battery_kwh)));
    let record = ContractRecord {
        vehicle_id: v.vehicle_id,
        arrival_slot: v.arrival_slot,
        offers: menu,
        utilities,
        chosen_tier: picked,
        chosen_is_reject: offer.is_reject,
        new_departure_slot,
        new_target_kwh,
    };
    let ghost before = table.records@;
    table.records.push(record);
    proof {
        assert(record@ =~= agreed(sc, *config, st, p as int, costs@));
        assert(contracts_of(table.records@) =~= contracts_of(before).push(record@));
        assert(table@ =~= talked(sc, *config, st, p as int, costs@));
    }
}

/// Puts the agreed terms into a scenario of their own and checks it.
fn conclude<N: Num>(scenario: &Scenario<N>, table: Table<N>) -> (r: Result<
    (Scenario<N>, Vec<ContractRecord<N>>),
    SolveError,
>)
    ensures
        concludes(scenario@, table@, r),
        r matches Ok((modified, records)) ==> {
            &&& is_valid(modified@)
            &&& modified.manifest.same_files(&scenario.manifest)
        },
{
    let chargers = copied(&scenario.chargers);
    let modified = scenario.with_sessions(table.vehicles, chargers);
    assert(modified@ =~= renegotiated(scenario@, table@));
    match modified.validate() {
        Ok(_) => Ok((modified, table.records)),
        Err(issue) => {
            let mut text = "negotiated scenario invalid: ".to_owned();
            text.append(issue.message().as_str());
            Err(SolveError::Backend(text))
        },
    }
}

proof fn lemma_more_costs<N: Num, B: MilpBackend<N>>(
    sc: ScenarioModel<N>,
    backend: B,
    config: NegotiationConfig<N>,
    costs: Seq<Seq<N>>,
    more: Seq<N>,
)
    requires
        are_all_costs(sc, backend, config, costs),
        more.len() == config.choice_count,
        are_costs(
            sc,
            backend,
            config,
            talks_at(sc, config, costs, costs.len()),
            costs.len() as int,
            more,
        ),
    ensures
        are_all_costs(sc, backend, config, costs.push(more)),
        talks_at(sc, config, costs.push(more), costs.len() + 1) == talked(
            sc,
            config,
            talks_at(sc, config, costs, costs.len()),
            costs.len() as int,
            more,
        ),
{
    let longer = costs.push(more);
    lemma_same_talks(sc, config, costs, longer, costs.len());
    assert forall|q: int|
        #![trigger longer[q]]
        0 <= q < longer.len() implies longer[q].len() == config.choice_count && are_costs(
        sc,
        backend,
        config,
        talks_at(sc, config, longer, q as nat),
        q,
        longer[q],
    ) by {
        lemma_same_talks(sc, config, costs, longer, q as nat);
        if q < costs.len() {
            assert(longer[q] == costs[q]);
        }
    }
}

/// The talks after the sessions whose contracts cost `costs`.
#[verifier::opaque]
spec fn is_under_way<N: Num, B: MilpBackend<N>>(
    sc: ScenarioModel<N>,
    backend: B,
    config: NegotiationConfig<N>,
    costs: Seq<Seq<N>>,
    st: Talks<N>,
) -> bool {
    &&& are_all_costs(sc, backend, config, costs)
    &&& st == talks_at(sc, config, costs, costs.len())
    &&& st.vehicles.len() == sc.vehicles.len()
}

/// The sessions of a scenario that can be negotiated, in arrival order.
#[verifier::opaque]
spec fn is_agenda<N: Num>(sc: ScenarioModel<N>, order: Seq<usize>) -> bool {
    &&& is_negotiable(sc)
    &&& order == arrival_order(sc.vehicles)
    &&& order.len() == sc.vehicles.len()
    &&& forall|k: int| 0 <= k < order.len() ==> #[trigger] order[k] < sc.vehicles.len()
}

/// The talks came to a contract that could not be priced.
#[verifier::opaque]
spec fn is_broken_off<N: Num, B: MilpBackend<N>>(
    sc: ScenarioModel<N>,
    backend: B,
    config: NegotiationConfig<N>,
    e: SolveError,
) -> bool {
    exists|costs: Seq<Seq<N>>, j: int| #[trigger] pricing_failed(sc, backend, config, costs, j, e)
}

proof fn lemma_talks_begin<N: Num, B: MilpBackend<N>>(
    sc: ScenarioModel<N>,
    backend: B,
    config: NegotiationConfig<N>,
    st: Talks<N>,
)
    requires
        st == talks_open(sc, config),
        st.vehicles.len() == sc.vehicles.len(),
    ensures
        is_under_way(sc, backend, config, Seq::empty(), st),
{
    reveal(is_under_way);
}

proof fn lemma_talks_end<N: Num, B: MilpBackend<N>>(
    sc: ScenarioModel<N>,
    backend: B,
    config: NegotiationConfig<N>,
    costs: Seq<Seq<N>>,
    st: Talks<N>,
    r: Result<(Scenario<N>, Vec<ContractRecord<N>>), SolveError>,
)
    requires
        is_under_way(sc, backend, config, costs, st),
        costs.len() == sc.vehicles.len(),
        concludes(sc, st, r),
    ensures
        is_agreement(sc, backend, config, costs, r),
{
    reveal(is_under_way);
}

/// Negotiates the next session in arrival order: prices its contracts, offers the menu
/// and settles what the user takes. Returns the costs it priced.
fn hold_talk<N: Num, B: MilpBackend<N>>(
    scenario: &Scenario<N>,
    backend: &B,
    config: &NegotiationConfig<N>,
    order: &Vec<usize>,
    p: usize,
    table: &mut Table<N>,
    costs: Ghost<Seq<Seq<N>>>,
) -> (r: Result<Vec<N>, SolveError>)
    requires
        is_agenda(scenario@, order@),
        config.choice_count >= 2,
        p < order@.len(),
        costs@.len() == p,
        is_under_way(scenario@, *backend, *config, costs@, old(table)@),
    ensures
        match r {
            Ok(priced) => is_under_way(
                scenario@,
                *backend,
                *config,
                costs@.push(priced@),
                final(table)@,
            ),
            Err(e) => is_broken_off(scenario@, *backend, *config, e),
        },
{
    assert(scenario.vehicles.len() <= usize::MAX);
    let ghost st = table@;
    proof {
        reveal(is_agenda);
        reveal(is_under_way);
        departures_may_stay(scenario@, p as int);
    }
    let soc = find_priced_soc(scenario, &table.chain, order, p);
    let latest: usize = find_latest_departure(scenario, order, p);
    match price_contracts(scenario, backend, config, order, p, latest, soc, Ghost(st)) {
        Ok(priced) => {
            settle(scenario, config, order, p, latest, soc, &priced, table);
            proof {
                lemma_more_costs(scenario@, *backend, *config, costs@, priced@);
            }
            Ok(priced)
        },
        Err((e, j)) => {
            proof {
                reveal(is_broken_off);
                assert(pricing_failed(scenario@, *backend, *config, costs@, j as int, e));
            }
            Err(e)
        },
    }
}

/// Negotiates every session of `order`.
fn hold_talks<N: Num, B: MilpBackend<N>>(
    scenario: &Scenario<N>,
    backend: &B,
    config: &NegotiationConfig<N>,
    order: &Vec<usize>,
    table: &mut Table<N>,
) -> (r: Result<Ghost<Seq<Seq<N>>>, SolveError>)
    requires
        is_agenda(scenario@, order@),
        config.choice_count >= 2,
        is_under_way(scenario@, *backend, *config, Seq::empty(), old(table)@),
    ensures
        match r {
            Ok(costs) => costs@.len() == order@.len() && is_under_way(
                scenario@,
                *backend,
                *config,
                costs@,
                final(table)@,
            ),
            Err(e) => is_broken_off(scenario@, *backend, *config, e),
        },
{
    let ghost mut costs: Seq<Seq<N>> = Seq::empty();
    for p in 0..order.len()
        invariant
            is_agenda(scenario@, order@),
            config.choice_count >= 2,
            costs.len() == p,
            is_under_way(scenario@, *backend, *config, costs, table@),
    {
        match hold_talk(scenario, backend, config, order, p, table, Ghost(costs)) {
            Ok(priced) => {
                proof {
                    costs = costs.push(priced@);
                }
            },
            Err(e) => {
                return Err(e);
            },
        }
    }
    Ok(Ghost(costs))
}

/// Run the negotiation pre-pass. Returns the modified scenario (renegotiated
/// departures/targets) and one contract record per session, in arrival order.
pub fn negotiate<N: Num, B: MilpBackend<N>>(
    scenario: &Scenario<N>,
    backend: &B,
    config: &NegotiationConfig<N>,
) -> (r: Result<(Scenario<N>, Vec<ContractRecord<N>>), SolveError>)
    requires
        is_negotiable(scenario@),
        config.choice_count >= 2,
    ensures
        (exists|costs: Seq<Seq<N>>| #[trigger] is_agreement(scenario@, *backend, *config, costs, r)) || (r
            matches Err(e) && exists|costs: Seq<Seq<N>>, j: int|
            #[trigger] pricing_failed(scenario@, *backend, *config, costs, j, e)),
        r matches Ok((modified, records)) ==> {
            &&& is_valid(modified@)
            &&& modified.manifest.same_files(&scenario.manifest)
        },
{
    let order = sort_by_arrival(&scenario.vehicles);
    let mut table = open_table(scenario, config);
    proof {
        reveal(is_agenda);
        lemma_talks_begin(scenario@, *backend, *config, table@);
    }
    match hold_talks(scenario, backend, config, &order, &mut table) {
        Ok(costs) => {
            let ghost end = table@;
            let r = conclude(scenario, table);
            proof {
                lemma_talks_end(scenario@, *backend, *config, costs@, end, r);
            }
            r
        },
        Err(e) => {
            proof {
                reveal(is_broken_off);
            }
            Err(e)
        },
    }
}

/// The talks before the first session.
fn open_table<N: Num>(scenario: &Scenario<N>, config: &NegotiationConfig<N>) -> (table: Table<N>)
    ensures
        table@ == talks_open(scenario@, *config),
        table@.vehicles.len() == scenario@.vehicles.len(),
{
    broadcast use vstd::std_specs::hash::group_hash_axioms;

    let table = Table {
        vehicles: copied(&scenario.vehicles),
        chain: HashMap::new(),
        rng: Rng(config.seed | 1),
        records: Vec::new(),
    };
    assert(table@ =~= talks_open(scenario@, *config));
    table
}

// -------------------------------------------------------------------- laws

/// A menu has `choice_count` offers; the last one, and only it, is the offer to
/// charge elsewhere, with no delay and no target reduction; tier 0 keeps the
/// departure; no offer moves the departure forward or past the latest one.
pub proof fn menus_have_the_promised_shape<N: Num>(
    config: NegotiationConfig<N>,
    v: Vehicle<N>,
    latest: int,
    arrival_soc: N,
    costs: Seq<N>,
)
    requires
        config.choice_count >= 2,
        v.departure_slot <= latest <= usize::MAX,
    ensures
        ({
            let menu = menu_of(config, v, latest, arrival_soc, costs);
            &&& menu.len() == config.choice_count
            &&& menu.last().is_reject
            &&& menu.last().delay_slots == 0
            &&& menu.last().target_reduction_kwh == zero_of::<N>()
            &&& menu[0].delay_slots == 0
            &&& forall|t: int|
                0 <= t < menu.len() ==> {
                    &&& (#[trigger] menu[t]).tier == t
                    &&& menu[t].is_reject <==> t == menu.len() - 1
                    &&& v.departure_slot + menu[t].delay_slots <= latest
                }
        }),
{
    let menu = menu_of(config, v, latest, arrival_soc, costs);
    assert forall|t: int| 0 <= t < menu.len() implies {
        &&& (#[trigger] menu[t]).tier == t
        &&& menu[t].is_reject <==> t == menu.len() - 1
        &&& v.departure_slot + menu[t].delay_slots <= latest
    } by {
        if t < menu.len() - 1 {
            assert(menu[t] == tier_offer(config, v, latest, t, costs[0], costs[t + 1]));
            assert(0 <= t * config.delay_slots_per_tier) by (nonlinear_arith)
                requires
                    0 <= t,
            ;
        }
    }
    assert(menu[0] == tier_offer(config, v, latest, 0, costs[0], costs[1]));
    assert(0 * config.delay_slots_per_tier == 0) by (nonlinear_arith);
}

/// Tier 0 asks for no target reduction.
pub proof fn the_first_tier_keeps_the_target<N: Num>(
    value: spec_fn(N) -> real,
    unit: real,
    config: NegotiationConfig<N>,
    v: Vehicle<N>,
    latest: int,
    arrival_soc: N,
    costs: Seq<N>,
)
    requires
        rounds_toward_zero(value, unit),
        config.choice_count >= 2,
        config.target_reduction_per_tier_kwh.finite(),
        0real <= value(config.target_reduction_per_tier_kwh),
        v.soc_target_kwh.finite(),
        v.min_soc_kwh.finite(),
    ensures
        value(menu_of(config, v, latest, arrival_soc, costs)[0].target_reduction_kwh) == 0real,
{
    lemma_constants(value, unit);
    let per_tier = config.target_reduction_per_tier_kwh;
    let none = zero_of::<N>().times(per_tier);
    assert(0real * value(per_tier) == 0real) by (nonlinear_arith);
    lemma_times(value, unit, zero_of::<N>(), per_tier);
    lemma_finite(value, unit, v.soc_target_kwh);
    lemma_still_numbers(value, unit, v.soc_target_kwh, v.min_soc_kwh);
    let spare = v.soc_target_kwh.minus(v.min_soc_kwh);
    lemma_compare(value, unit, spare, zero_of::<N>());
    lemma_compare(value, unit, none, spare.greater(zero_of()));
    let menu = menu_of(config, v, latest, arrival_soc, costs);
    assert(menu[0] == tier_offer(config, v, latest, 0, costs[0], costs[1]));
}

/// The price of a tier: the original cost less the shared part of the saving, up
/// to a unit, and never negative.
proof fn lemma_price<N: Num>(
    value: spec_fn(N) -> real,
    unit: real,
    config: NegotiationConfig<N>,
    v: Vehicle<N>,
    latest: int,
    t: int,
    cost_0: N,
    cost_t: N,
)
    requires
        rounds_toward_zero(value, unit),
        config.surplus_share.finite(),
        0real <= value(config.surplus_share) <= 1real,
        cost_0.finite() && cost_t.finite(),
        0real <= value(cost_0),
        value(cost_t) <= value(cost_0),
        fits(value, value(cost_0) - value(cost_t)),
    ensures
        ({
            let price = value(tier_offer(config, v, latest, t, cost_0, cost_t).price_usd);
            let shared = value(config.surplus_share) * (value(cost_0) - value(cost_t));
            &&& 0real <= shared <= value(cost_0) - value(cost_t)
            &&& most(value(cost_0) - shared, 0real) <= price <= most(value(cost_0) - shared + unit, 0real)
            &&& price <= value(cost_0)
        }),
{
    lemma_constants(value, unit);
    let share = value(config.surplus_share);
    let saving = value(cost_0) - value(cost_t);
    assert(0real <= share * saving && share * saving <= saving) by (nonlinear_arith)
        requires
            0real <= share,
            share <= 1real,
            saving >= 0real,
    ;
    lemma_minus(value, unit, cost_0, cost_t);
    lemma_closer_fits(value, share * saving, saving);
    lemma_times(value, unit, config.surplus_share, cost_0.minus(cost_t));
    let passed = config.surplus_share.times(cost_0.minus(cost_t));
    let price = cost_0.minus(passed);
    lemma_finite(value, unit, cost_0);
    lemma_finite(value, unit, cost_t);
    if 0real <= value(cost_0) - value(passed) {
        lemma_closer_fits(value, value(cost_0) - value(passed), value(cost_0));
    } else {
        lemma_closer_fits(value, value(cost_0) - value(passed), value(cost_t));
    }
    lemma_minus(value, unit, cost_0, passed);
    lemma_finite(value, unit, price);
    lemma_compare(value, unit, price, zero_of::<N>());
}

/// With a surplus share between zero and one, a tier that is cheaper to serve is
/// not dearer to the user than the cost of the original request, nor cheaper than
/// its own cost, and never negative.
pub proof fn prices_pass_savings_on<N: Num>(
    value: spec_fn(N) -> real,
    unit: real,
    config: NegotiationConfig<N>,
    v: Vehicle<N>,
    latest: int,
    t: int,
    cost_0: N,
    cost_t: N,
)
    requires
        rounds_toward_zero(value, unit),
        config.surplus_share.finite(),
        0real <= value(config.surplus_share) <= 1real,
        cost_0.finite() && cost_t.finite(),
        0real <= value(cost_0),
        value(cost_t) <= value(cost_0),
        fits(value, value(cost_0) - value(cost_t)),
    ensures
        0real <= value(tier_offer(config, v, latest, t, cost_0, cost_t).price_usd) <= value(cost_0),
        value(cost_t) <= value(tier_offer(config, v, latest, t, cost_0, cost_t).price_usd),
{
    lemma_price(value, unit, config, v, latest, t, cost_0, cost_t);
}

/// The vehicle differs at most in departure and target.
pub open spec fn same_but_terms<N>(a: Vehicle<N>, b: Vehicle<N>) -> bool {
    b == (Vehicle { departure_slot: b.departure_slot, soc_target_kwh: b.soc_target_kwh, ..a })
}

/// The terms of the session at position `p` after the talks: those of its
/// record, which are the original ones where the user charges elsewhere.
pub open spec fn terms_are_kept<N: Num>(
    sc: ScenarioModel<N>,
    config: NegotiationConfig<N>,
    st: Talks<N>,
    p: int,
) -> bool {
    let row = arrival_order(sc.vehicles)[p] as int;
    let v = sc.vehicles[row];
    let c = st.records[p];
    &&& c.vehicle_id == v.vehicle_id
    &&& c.arrival_slot == v.arrival_slot
    &&& st.vehicles[row].departure_slot == c.new_departure_slot
    &&& st.vehicles[row].soc_target_kwh == c.new_target_kwh
    &&& v.departure_slot <= c.new_departure_slot <= latest_departure(sc, p)
    &&& c.chosen_is_reject ==> st.vehicles[row] == v
    &&& c.offers.len() == config.choice_count
    &&& c.chosen_tier < c.offers.len()
    &&& c.chosen_is_reject <==> c.chosen_tier == config.choice_count - 1
}

proof fn lemma_chosen<N: Num>(utilities: Seq<N>, temperature: N, rng: u64)
    requires
        utilities.len() > 0,
    ensures
        0 <= chosen(utilities, temperature, rng) < utilities.len(),
{
    lemma_best_of(utilities, utilities.len());
    let n = utilities.len();
    let draw = rng_value::<N>(rng_next(rng)).times(weight_sum(utilities, temperature, n));
    lemma_used_up_range(utilities, temperature, draw, n);
}

proof fn lemma_used_up_range<N: Num>(utilities: Seq<N>, temperature: N, draw: N, n: nat)
    ensures
        used_up(utilities, temperature, draw, n) matches Some(k) ==> 0 <= k < n,
    decreases n,
{
    if n > 0 {
        lemma_used_up_range(utilities, temperature, draw, (n - 1) as nat);
    }
}

/// The talks leave one record per session in arrival order, and change nothing
/// but the departures and targets of the sessions whose users took an offer. A
/// departure moves only later, and never past the vehicle's next arrival or the
/// horizon.
pub proof fn talks_change_only_the_agreed_terms<N: Num>(
    sc: ScenarioModel<N>,
    config: NegotiationConfig<N>,
    costs: Seq<Seq<N>>,
    n: nat,
)
    requires
        is_negotiable(sc),
        config.choice_count >= 2,
        sc.vehicles.len() <= usize::MAX,
        n <= sc.vehicles.len(),
    ensures
        ({
            let st = talks_at(sc, config, costs, n);
            &&& st.records.len() == n
            &&& st.vehicles.len() == sc.vehicles.len()
            &&& forall|i: int|
                0 <= i < sc.vehicles.len() ==> same_but_terms(sc.vehicles[i], #[trigger] st.vehicles[i])
            &&& forall|p: int| 0 <= p < n ==> #[trigger] terms_are_kept(sc, config, st, p)
            &&& forall|p: int|
                #![trigger arrival_order(sc.vehicles)[p]]
                n <= p < sc.vehicles.len() ==> st.vehicles[arrival_order(sc.vehicles)[p] as int]
                    == sc.vehicles[arrival_order(sc.vehicles)[p] as int]
        }),
    decreases n,
{
    let order = arrival_order(sc.vehicles);
    lemma_arrival_order(sc);
    if n > 0 {
        let m = (n - 1) as nat;
        talks_change_only_the_agreed_terms(sc, config, costs, m);
        departures_may_stay(sc, m as int);
        let before = talks_at(sc, config, costs, m);
        let st = talks_at(sc, config, costs, n);
        let row = order[m as int] as int;
        assert(order[m as int] < sc.vehicles.len());
        let v = sc.vehicles[row];
        assert(before.vehicles[row] == v);
        let soc = priced_soc(sc, before.chain, m as int);
        let menu = offered(sc, config, before, m as int, costs[m as int]);
        menus_have_the_promised_shape(config, v, latest_departure(sc, m as int), soc, costs[m as int]);
        lemma_chosen(utilities_of(config, menu), config.temperature, before.rng);
        let c = agreed(sc, config, before, m as int, costs[m as int]);
        assert(st.records[m as int] == c);
        assert(terms_are_kept(sc, config, st, m as int));
        assert forall|i: int| 0 <= i < sc.vehicles.len() implies same_but_terms(
            sc.vehicles[i],
            #[trigger] st.vehicles[i],
        ) by {
            assert(same_but_terms(sc.vehicles[i], before.vehicles[i]));
        }
        assert forall|p: int| 0 <= p < n implies #[trigger] terms_are_kept(sc, config, st, p) by {
            if p < m {
                assert(terms_are_kept(sc, config, before, p));
                assert(order[p] != order[m as int]);
                assert(order[p] < sc.vehicles.len());
                assert(st.records[p] == before.records[p]);
            }
        }
        assert forall|p: int|
            #![trigger order[p]]
            n <= p < sc.vehicles.len() implies st.vehicles[order[p] as int] == sc.vehicles[order[p] as int] by {
            assert(order[p] != order[m as int]);
            assert(order[p] < sc.vehicles.len());
        }
    }
}

/// The records whose users took an offer.
pub open spec fn count_agreed<N>(records: Seq<ContractRecord<N>>) -> nat
    decreases records.len(),
{
    if records.len() == 0 {
        0
    } else {
        count_agreed(records.drop_last()) + if records.last().chosen_is_reject {
            0nat
        } else {
            1nat
        }
    }
}

/// How many users took an offer.
pub fn count_accepted<N: Num>(records: &Vec<ContractRecord<N>>) -> (r: usize)
    ensures
        r == count_agreed(records@),
        r <= records@.len(),
{
    let mut total: usize = 0;
    for i in 0..records.len()
        invariant
            total == count_agreed(records@.take(i as int)),
            total <= i,
    {
        assert(records@.take(i + 1).drop_last() =~= records@.take(i as int));
        assert(records@.take(i + 1).last() == records@[i as int]);
        if !records[i].chosen_is_reject {
            total = total + 1;
        }
    }
    assert(records@.take(records@.len() as int) =~= records@);
    total
}

/// A tier that is cheaper to serve than another is not dearer to the user, up to
/// a unit of rounding.
pub proof fn deeper_concessions_cost_no_more<N: Num>(
    value: spec_fn(N) -> real,
    unit: real,
    config: NegotiationConfig<N>,
    v: Vehicle<N>,
    latest: int,
    t: int,
    cost_0: N,
    cost_t: N,
    u: int,
    cost_u: N,
)
    requires
        rounds_toward_zero(value, unit),
        config.surplus_share.finite(),
        0real <= value(config.surplus_share) <= 1real,
        cost_0.finite() && cost_t.finite() && cost_u.finite(),
        0real <= value(cost_0),
        value(cost_u) <= value(cost_t) <= value(cost_0),
        fits(value, value(cost_0) - value(cost_u)),
    ensures
        value(tier_offer(config, v, latest, u, cost_0, cost_u).price_usd) <= value(
            tier_offer(config, v, latest, t, cost_0, cost_t).price_usd,
        ) + unit,
{
    lemma_closer_fits(value, value(cost_0) - value(cost_t), value(cost_0) - value(cost_u));
    lemma_price(value, unit, config, v, latest, t, cost_0, cost_t);
    lemma_price(value, unit, config, v, latest, u, cost_0, cost_u);
    let share = value(config.surplus_share);
    let a = value(cost_0) - value(cost_t);
    let b = value(cost_0) - value(cost_u);
    assert(share * a <= share * b) by (nonlinear_arith)
        requires
            0real <= share,
            a <= b,
    ;
    lemma_constants(value, unit);
}

/// At temperature zero the first of the offers with the largest utility is
/// taken.
pub proof fn the_best_offer_is_taken<N: Num>(
    value: spec_fn(N) -> real,
    unit: real,
    utilities: Seq<N>,
    temperature: N,
    rng: u64,
)
    requires
        rounds_toward_zero(value, unit),
        utilities.len() > 0,
        forall|k: int| 0 <= k < utilities.len() ==> is_number(#[trigger] utilities[k]),
        temperature.at_most(zero_of()),
    ensures
        ({
            let best = chosen(utilities, temperature, rng);
            &&& 0 <= best < utilities.len()
            &&& forall|k: int|
                0 <= k < utilities.len() ==> value(#[trigger] utilities[k]) <= value(utilities[best])
            &&& forall|k: int| 0 <= k < best ==> value(#[trigger] utilities[k]) < value(utilities[best])
        }),
{
    lemma_best_of(utilities, utilities.len());
    lemma_best(value, unit, utilities, utilities.len());
}

proof fn lemma_best<N: Num>(value: spec_fn(N) -> real, unit: real, utilities: Seq<N>, n: nat)
    requires
        rounds_toward_zero(value, unit),
        0 < n <= utilities.len(),
        forall|k: int| 0 <= k < utilities.len() ==> is_number(#[trigger] utilities[k]),
    ensures
        ({
            let best = best_of(utilities, n);
            &&& 0 <= best < n
            &&& forall|k: int|
                0 <= k < n ==> value(#[trigger] utilities[k]) <= value(utilities[best])
            &&& forall|k: int| 0 <= k < best ==> value(#[trigger] utilities[k]) < value(utilities[best])
        }),
    decreases n,
{
    lemma_best_of(utilities, n);
    let before = best_of(utilities, (n - 1) as nat);
    lemma_best_of(utilities, (n - 1) as nat);
    if n > 1 {
        lemma_best(value, unit, utilities, (n - 1) as nat);
    }
    assert(is_number(utilities[before]));
    assert(is_number(utilities[n - 1]));
    lemma_compare(value, unit, utilities[before], utilities[n - 1]);
}

} // verus!
