//! The laws of the scenario-MPC's program: a point satisfies it just where it holds, for
//! every sampled future, a plan that cars, building and tariff allow, with the same first
//! slot for the connected cars in all of them.

use vstd::prelude::*;

use crate::dispatch::total;
use crate::milp::{continuous, row, var, Program, RowModel, Sense, VarModel};
use crate::num::{minus_one_of, one_of, zero_of, Num};
use crate::order::{stable_order, stable_order_is_arrangement, stable_order_is_sorted, Ranked};
use crate::policy::feasible::{lemma_visits_len, plans_exactly};
use crate::policy::formulation::{
    agg_bound, agg_terms, block_base, envelope_row, label, place_of, places_of, spans_of, stored,
};
use crate::policy::mpc::{slot_hours, terminal_need};
use crate::policy::points::{
    are_numbered, cost_at, drawn, given, has_opposites, held, holds, is_from, is_kept_visit, is_net_load,
    is_visit_kept, lemma_agg_bound, lemma_agg_terms_at, lemma_base_grows, lemma_empty, lemma_envelope, lemma_extended,
    lemma_holds_one, lemma_long_enough, lemma_one_more_holds, lemma_ones, lemma_priced_one, lemma_two, lemma_unbounded,
    lemma_visits_meaning, lemma_within_one, prices_fit, satisfies, slot_flow, start_at, terms_of, visits_cost, Terms,
};
use crate::policy::scenario_mpc::{
    connected_entries, connected_entry, entries, entry_rank, entry_spans, entry_tag, entry_visit, entry_visits,
    expected_load, future_entries, future_entry, gathered, history_of, is_future, is_present_visit, known_depletion,
    position_of, rates_of, sawtooth_end, scenario_blocks, scenario_count, scenario_loads, scenario_places,
    scenario_program, scenario_tag, sorted_entries, tie_row, tied, visit_number, visit_order, visit_rank, with_load,
    with_loads, with_scenario, with_tie, with_ties, with_tops, Entry, ScenarioMpcRules,
};
use crate::scenario::{TouClass, Vehicle};
use crate::state::ObservationModel;

verus! {

/// What a plan asks of a planned session.
pub open spec fn entry_terms<N: Num>(config: ScenarioMpcRules<N>, obs: ObservationModel<N>, e: Entry<N>) -> Terms<N> {
    let hours = slot_hours(obs.slot_minutes);
    Terms {
        slots: (e.last_slot - e.first_slot + 1) as nat,
        charge: e.max_charge_kw.times(hours),
        discharge: e.max_discharge_kw.times(hours),
        floor: e.floor_kwh,
        ceiling: e.ceiling_kwh,
        needed: e.reach_needed_kwh,
        charge_efficiency: obs.charge_efficiency,
        discharge_efficiency: obs.discharge_efficiency,
        ramp: config.ramp_kwh_per_slot,
    }
}

/// Where the variables of session `i` of scenario `k` start.
pub open spec fn entry_base<N: Num>(config: ScenarioMpcRules<N>, obs: ObservationModel<N>, k: int, i: int) -> int {
    block_base(
        scenario_blocks(config, obs, k as nat).vars.len() as int,
        entry_spans(entries(config, obs, k)),
        i as nat,
    )
}

/// The energy with which session `i` of scenario `k` starts: a sampled session behind one of
/// the same vehicle with what that one ends with, less the depletion between them; every
/// other one with its own SoC.
pub open spec fn entry_from<N: Num>(
    value: spec_fn(N) -> real,
    config: ScenarioMpcRules<N>,
    obs: ObservationModel<N>,
    x: Seq<real>,
    k: int,
    i: int,
) -> real {
    let list = entries(config, obs, k);
    if i > 0 && list[i].view_index is None && list[i - 1].vehicle_id == list[i].vehicle_id {
        held(x, entry_base(config, obs, k, i - 1), list[i - 1].last_slot - list[i - 1].first_slot) - value(
            list[i].depletion_kwh,
        )
    } else {
        value(list[i].anchor_soc_kwh)
    }
}

/// Session `i` of scenario `k` does what the plan asks of it.
pub open spec fn is_entry_kept<N: Num>(
    value: spec_fn(N) -> real,
    config: ScenarioMpcRules<N>,
    obs: ObservationModel<N>,
    x: Seq<real>,
    k: int,
    i: int,
) -> bool {
    is_kept_visit(
        value,
        entry_terms(config, obs, entries(config, obs, k)[i]),
        x,
        entry_base(config, obs, k, i),
        entry_from(value, config, obs, x, k, i),
    )
}

/// The peaks of scenario `k` stand at `top`: first the time-related one, not below the
/// history, then the facilities one; behind them the net loads of the planned slots, each
/// the load that the scenario expects and its cars, under the facilities peak and in slots
/// of class `peak` under the time-related one.
pub open spec fn is_slot_planned<N: Num>(
    value: spec_fn(N) -> real,
    config: ScenarioMpcRules<N>,
    obs: ObservationModel<N>,
    x: Seq<real>,
    k: int,
    top: int,
    at: int,
    j: int,
) -> bool {
    let s = obs.slot + j;
    let net = x[at + j];
    &&& is_net_load(
        value,
        net,
        expected_load(config, obs, k, s),
        obs.site_cap_kw,
        slot_flow(x, scenario_places(config, obs, k), s),
        slot_hours(obs.slot_minutes),
    )
    &&& net <= x[top + 1]
    &&& obs.tou_series[s] == TouClass::Peak ==> net <= x[top]
}

/// The figures of a plan are finite.
pub open spec fn is_plannable_future<N: Num>(
    value: spec_fn(N) -> real,
    config: ScenarioMpcRules<N>,
    obs: ObservationModel<N>,
    p_max_hist: N,
) -> bool {
    &&& slot_hours(obs.slot_minutes).finite() && 0real < value(slot_hours(obs.slot_minutes))
    &&& obs.charge_efficiency.finite()
    &&& obs.site_cap_kw matches Some(c) ==> c.finite()
    &&& config.ramp_kwh_per_slot matches Some(q) ==> q.finite()
    &&& forall|k: int, s: int|
        0 <= k < scenario_count(config) && obs.slot <= s < sawtooth_end(config, obs) ==> (#[trigger] expected_load(
            config,
            obs,
            k,
            s,
        )).finite()
    &&& forall|k: int| 0 <= k < scenario_count(config) ==> #[trigger] are_entries_sound(config, obs, k)
    &&& obs.slot <= sawtooth_end(config, obs)
    &&& scenario_program(config, obs, p_max_hist).vars.len() < usize::MAX
}

/// The planned sessions of scenario `k` lie inside the series and have finite depletions.
#[verifier::opaque]
pub open spec fn are_entries_sound<N: Num>(config: ScenarioMpcRules<N>, obs: ObservationModel<N>, k: int) -> bool {
    let list = entries(config, obs, k);
    forall|i: int|
        0 <= i < list.len() ==> (#[trigger] list[i]).first_slot <= list[i].last_slot < obs.price_series.len()
            && list[i].depletion_kwh.finite()
}

/// What the sessions of the first `k` scenarios cost.
pub open spec fn scenarios_cost<N: Num>(
    value: spec_fn(N) -> real,
    config: ScenarioMpcRules<N>,
    obs: ObservationModel<N>,
    x: Seq<real>,
    k: nat,
) -> real
    decreases k,
{
    if k == 0 {
        0real
    } else {
        scenarios_cost(value, config, obs, x, (k - 1) as nat) + visits_cost(
            value,
            obs.price_series,
            entry_spans(entries(config, obs, k - 1)),
            scenario_blocks(config, obs, (k - 1) as nat).vars.len() as int,
            config.degradation_usd_per_kwh,
            config.shortfall_usd_per_kwh,
            x,
            entries(config, obs, k - 1).len(),
        )
    }
}

/// Where the peaks of scenario `k` stand.
pub open spec fn tops_at<N: Num>(config: ScenarioMpcRules<N>, obs: ObservationModel<N>, k: int) -> int {
    scenario_blocks(config, obs, scenario_count(config)).vars.len() + k * (sawtooth_end(config, obs) - obs.slot + 2)
}

/// What the peaks of the first `k` scenarios cost.
pub open spec fn tops_cost<N: Num>(
    value: spec_fn(N) -> real,
    config: ScenarioMpcRules<N>,
    obs: ObservationModel<N>,
    x: Seq<real>,
    k: nat,
) -> real
    decreases k,
{
    if k == 0 {
        0real
    } else {
        tops_cost(value, config, obs, x, (k - 1) as nat) + value(obs.demand_charge_peak_usd_per_kw) * x[tops_at(
            config,
            obs,
            k - 1,
        )] + value(obs.demand_charge_usd_per_kw) * x[tops_at(config, obs, k - 1) + 1]
    }
}

/// Scenario `k`: its sessions are kept.
#[verifier::opaque]
pub open spec fn are_entries_kept<N: Num>(
    value: spec_fn(N) -> real,
    config: ScenarioMpcRules<N>,
    obs: ObservationModel<N>,
    x: Seq<real>,
    k: int,
) -> bool {
    forall|i: int|
        0 <= i < entries(config, obs, k).len() ==> #[trigger] is_entry_kept(value, config, obs, x, k, i)
}

/// Scenario `k`: its peaks and its net loads are as they should be.
#[verifier::opaque]
pub open spec fn are_loads_planned<N: Num>(
    value: spec_fn(N) -> real,
    config: ScenarioMpcRules<N>,
    obs: ObservationModel<N>,
    history: N,
    x: Seq<real>,
    k: int,
    top: int,
) -> bool {
    &&& is_from(value, x[top], history)
    &&& 0real <= x[top + 1]
    &&& forall|j: int|
        0 <= j < sawtooth_end(config, obs) - obs.slot ==> #[trigger] is_slot_planned(
            value,
            config,
            obs,
            x,
            k,
            top,
            top + 2,
            j,
        )
}

/// Session `j` of a list is the first one that is connected session `view`.
pub open spec fn is_first_of<N>(list: Seq<Entry<N>>, view: usize, j: int) -> bool {
    &&& 0 <= j < list.len()
    &&& list[j].view_index == Some(view)
    &&& forall|i: int| 0 <= i < j ==> (#[trigger] list[i]).view_index != Some(view)
}

/// Session `i` of scenario `k`, if it is a connected one, has the same first slot as that
/// session in scenario 0: what it draws and what it gives.
#[verifier::opaque]
pub open spec fn is_tied<N: Num>(
    config: ScenarioMpcRules<N>,
    obs: ObservationModel<N>,
    x: Seq<real>,
    k: int,
    i: int,
) -> bool {
    entries(config, obs, k)[i].view_index matches Some(view) ==> forall|j: int|
        #[trigger] is_first_of(entries(config, obs, 0), view, j) ==> {
            let here = entry_base(config, obs, k, i);
            let there = entry_base(config, obs, 0, j);
            drawn(x, here, 0) == drawn(x, there, 0) && given(x, here, 0) == given(x, there, 0)
        }
}

/// The peak from which the time-related peaks start: the realized one where it is heeded,
/// else none.
pub open spec fn past_peak<N: Num>(config: ScenarioMpcRules<N>, p_max_hist: N) -> N {
    if config.use_peak_history {
        p_max_hist
    } else {
        zero_of()
    }
}

/// Plans for all scenarios, tied in their first slot.
pub open spec fn are_plans<N: Num>(
    value: spec_fn(N) -> real,
    config: ScenarioMpcRules<N>,
    obs: ObservationModel<N>,
    p_max_hist: N,
    x: Seq<real>,
) -> bool {
    let history = past_peak(config, p_max_hist);
    &&& forall|k: int|
        0 <= k < scenario_count(config) ==> #[trigger] are_entries_kept(value, config, obs, x, k)
    &&& forall|k: int|
        0 <= k < scenario_count(config) ==> #[trigger] are_loads_planned(
            value,
            config,
            obs,
            history,
            x,
            k,
            tops_at(config, obs, k),
        )
    &&& forall|k: int, i: int|
        1 <= k < scenario_count(config) && 0 <= i < entries(config, obs, k).len() ==> #[trigger] is_tied(
            config,
            obs,
            x,
            k,
            i,
        )
}

// ------------------------------------------------------------------ sessions

proof fn lemma_scenario<N: Num>(
    value: spec_fn(N) -> real,
    unit: real,
    config: ScenarioMpcRules<N>,
    obs: ObservationModel<N>,
    x: Seq<real>,
    k: int,
)
    requires
        plans_exactly(value, unit),
        obs.charge_efficiency.finite(),
        config.ramp_kwh_per_slot matches Some(q) ==> q.finite(),
        0 <= k,
        are_entries_sound(config, obs, k),
        with_scenario(config, obs, scenario_blocks(config, obs, k as nat), k).vars.len() <= usize::MAX,
    ensures
        ({
            let p = scenario_blocks(config, obs, k as nat);
            let q = with_scenario(config, obs, p, k);
            let list = entries(config, obs, k);
            &&& q.vars.len() == entry_base(config, obs, k, list.len() as int)
            &&& p.vars.len() <= q.vars.len()
            &&& are_numbered(scenario_places(config, obs, k))
            &&& satisfies(value, q, x) <==> satisfies(value, p, x) && q.vars.len() <= x.len() && are_entries_kept(
                value,
                config,
                obs,
                x,
                k,
            )
            &&& prices_fit(value, obs.price_series, config.degradation_usd_per_kwh) ==> cost_at(value, q, x) == cost_at(
                value,
                p,
                x,
            ) + visits_cost(
                value,
                obs.price_series,
                entry_spans(list),
                p.vars.len() as int,
                config.degradation_usd_per_kwh,
                config.shortfall_usd_per_kwh,
                x,
                list.len(),
            )
            &&& forall|i: int|
                0 <= i < list.len() ==> 0 <= #[trigger] entry_base(config, obs, k, i) && entry_base(config, obs, k, i)
                    + 3 < q.vars.len()
        }),
{
    reveal(are_entries_sound);
    reveal(are_entries_kept);
    let p = scenario_blocks(config, obs, k as nat);
    let q = with_scenario(config, obs, p, k);
    let list = entries(config, obs, k);
    let start = p.vars.len() as int;
    let visits = entry_visits(obs, list, start, k);
    let rates = rates_of(config, obs);
    let spans = entry_spans(list);
    let n = list.len();
    assert(spans_of(visits) =~= spans);
    assert forall|i: int| 0 <= i < n implies (#[trigger] spans[i]).first_slot <= spans[i].last_slot by {
        assert(list[i].first_slot <= list[i].last_slot);
    }
    assert forall|i: int| 0 <= i < n implies has_opposites(#[trigger] visits[i], rates) && visits[i].first_slot
        <= visits[i].last_slot < obs.price_series.len() by {
        assert(list[i].first_slot <= list[i].last_slot);
        assert(visits[i] == entry_visit(obs, list, start, k, i));
    }
    lemma_visits_len(p, "tgt_"@, visits, rates, obs.price_series, n);
    lemma_visits_meaning(value, unit, p, "tgt_"@, visits, rates, obs.price_series, x, n);
    lemma_base_grows(start, spans, 0, n);
    let places = places_of(start, spans);
    assert forall|i: int| 0 <= i < n implies 0 <= #[trigger] entry_base(config, obs, k, i) && entry_base(
        config,
        obs,
        k,
        i,
    ) + 3 * (spans[i].last_slot - spans[i].first_slot + 1) < q.vars.len() by {
        assert(spans[i].first_slot <= spans[i].last_slot);
        lemma_base_grows(start, spans, 0, i as nat);
        lemma_base_grows(start, spans, i as nat, n);
    }
    assert forall|i: int| 0 <= i < places.len() implies (#[trigger] places[i]).first_slot <= places[i].last_slot
        && places[i].base + 3 * (places[i].last_slot - places[i].first_slot + 1) <= usize::MAX by {
        assert(0 <= entry_base(config, obs, k, i));
        assert(spans[i].first_slot <= spans[i].last_slot);
        assert(places[i] == place_of(start, spans, i));
    }
    assert forall|i: int| 0 <= i < n implies #[trigger] is_visit_kept(value, visits, rates, x, start, i)
        == is_entry_kept(value, config, obs, x, k, i) by {
        reveal(is_visit_kept);
        assert(visits[i] == entry_visit(obs, list, start, k, i));
        assert(list[i].first_slot <= list[i].last_slot);
        assert(terms_of(visits[i], rates) == entry_terms(config, obs, list[i]));
        if i > 0 && list[i].view_index is None && list[i - 1].vehicle_id == list[i].vehicle_id {
            assert(list[i - 1].first_slot <= list[i - 1].last_slot);
            let b = entry_base(config, obs, k, i - 1);
            let m = list[i - 1].last_slot - list[i - 1].first_slot;
            assert(0 <= b);
            assert(spans[i - 1].last_slot - spans[i - 1].first_slot == m);
            assert(stored(b, m).0 as int == b + 3 * m + 2);
        }
        assert(start_at(value, visits[i].start, x) == entry_from(value, config, obs, x, k, i));
    }
    if satisfies(value, q, x) {
        assert forall|i: int| 0 <= i < n implies #[trigger] is_entry_kept(value, config, obs, x, k, i) by {
            assert(is_visit_kept(value, visits, rates, x, start, i));
        }
    }
    if are_entries_kept(value, config, obs, x, k) {
        assert forall|i: int| 0 <= i < n implies #[trigger] is_visit_kept(value, visits, rates, x, start, i) by {
            assert(is_entry_kept(value, config, obs, x, k, i));
        }
    }
}

proof fn lemma_blocks<N: Num>(
    value: spec_fn(N) -> real,
    unit: real,
    config: ScenarioMpcRules<N>,
    obs: ObservationModel<N>,
    x: Seq<real>,
    k: nat,
)
    requires
        plans_exactly(value, unit),
        obs.charge_efficiency.finite(),
        config.ramp_kwh_per_slot matches Some(q) ==> q.finite(),
        forall|j: int| 0 <= j < k ==> #[trigger] are_entries_sound(config, obs, j),
        scenario_blocks(config, obs, k).vars.len() <= usize::MAX,
    ensures
        ({
            let q = scenario_blocks(config, obs, k);
            &&& satisfies(value, q, x) <==> q.vars.len() <= x.len() && forall|j: int|
                0 <= j < k ==> #[trigger] are_entries_kept(value, config, obs, x, j)
            &&& prices_fit(value, obs.price_series, config.degradation_usd_per_kwh) ==> cost_at(value, q, x)
                == scenarios_cost(value, config, obs, x, k)
        }),
    decreases k,
{
    lemma_empty::<N>(value, unit, x);
    if k > 0 {
        let m = (k - 1) as nat;
        let p = scenario_blocks(config, obs, m);
        let q = scenario_blocks(config, obs, k);
        assert(are_entries_sound(config, obs, k - 1));
        lemma_scenario_grows(config, obs, p, k - 1);
        lemma_blocks(value, unit, config, obs, x, m);
        lemma_scenario(value, unit, config, obs, x, k - 1);
        if satisfies(value, q, x) {
            assert forall|j: int| 0 <= j < k implies #[trigger] are_entries_kept(value, config, obs, x, j) by {
                if j < m {
                    assert(are_entries_kept(value, config, obs, x, j));
                }
            }
        }
        if q.vars.len() <= x.len() && forall|j: int|
            0 <= j < k ==> #[trigger] are_entries_kept(value, config, obs, x, j) {
            assert(are_entries_kept(value, config, obs, x, k - 1));
        }
    }
}

/// The variables of all sessions can be numbered.
proof fn lemma_bases<N: Num>(
    value: spec_fn(N) -> real,
    unit: real,
    config: ScenarioMpcRules<N>,
    obs: ObservationModel<N>,
    x: Seq<real>,
    k: nat,
)
    requires
        plans_exactly(value, unit),
        obs.charge_efficiency.finite(),
        config.ramp_kwh_per_slot matches Some(q) ==> q.finite(),
        forall|j: int| 0 <= j < k ==> #[trigger] are_entries_sound(config, obs, j),
        scenario_blocks(config, obs, k).vars.len() <= usize::MAX,
    ensures
        forall|j: int| 0 <= j < k ==> are_numbered(#[trigger] scenario_places(config, obs, j)),
        forall|j: int, i: int|
            0 <= j < k && 0 <= i < entries(config, obs, j).len() ==> 0 <= #[trigger] entry_base(config, obs, j, i)
                && entry_base(config, obs, j, i) + 3 < scenario_blocks(config, obs, k).vars.len(),
    decreases k,
{
    if k > 0 {
        let m = (k - 1) as nat;
        let p = scenario_blocks(config, obs, m);
        assert(are_entries_sound(config, obs, k - 1));
        lemma_scenario_grows(config, obs, p, k - 1);
        lemma_bases(value, unit, config, obs, x, m);
        lemma_scenario(value, unit, config, obs, x, k - 1);
    }
}

proof fn lemma_scenario_grows<N: Num>(config: ScenarioMpcRules<N>, obs: ObservationModel<N>, p: Program<N>, k: int)
    requires
        are_entries_sound(config, obs, k),
    ensures
        p.vars.len() <= with_scenario(config, obs, p, k).vars.len(),
{
    reveal(are_entries_sound);
    let list = entries(config, obs, k);
    let start = p.vars.len() as int;
    let visits = entry_visits(obs, list, start, k);
    let n = list.len();
    assert forall|i: int| 0 <= i < n implies (#[trigger] visits[i]).first_slot <= visits[i].last_slot by {
        assert(list[i].first_slot <= list[i].last_slot);
        assert(visits[i] == entry_visit(obs, list, start, k, i));
    }
    lemma_visits_len(p, "tgt_"@, visits, rates_of(config, obs), obs.price_series, n);
    let spans = spans_of(visits);
    assert forall|i: int| 0 <= i < n implies (#[trigger] spans[i]).first_slot <= spans[i].last_slot by {
        assert(visits[i].first_slot <= visits[i].last_slot);
    }
    lemma_base_grows(start, spans, 0, n);
}

// --------------------------------------------------------------------- loads

proof fn lemma_load<N: Num>(
    value: spec_fn(N) -> real,
    unit: real,
    config: ScenarioMpcRules<N>,
    obs: ObservationModel<N>,
    p: Program<N>,
    x: Seq<real>,
    k: int,
    j: int,
    top: int,
    at: int,
)
    requires
        plans_exactly(value, unit),
        slot_hours(obs.slot_minutes).finite(),
        0real < value(slot_hours(obs.slot_minutes)),
        obs.site_cap_kw matches Some(c) ==> c.finite(),
        expected_load(config, obs, k, obs.slot + j).finite(),
        are_numbered(scenario_places(config, obs, k)),
        0 <= j,
        0 <= top,
        top + 1 <= usize::MAX,
        p.vars.len() == at + j,
        at + j <= usize::MAX,
    ensures
        ({
            let q = with_load(config, obs, p, k, obs.slot + j, top);
            &&& q.vars.len() == p.vars.len() + 1
            &&& satisfies(value, q, x) <==> satisfies(value, p, x) && q.vars.len() <= x.len() && is_slot_planned(
                value,
                config,
                obs,
                x,
                k,
                top,
                at,
                j,
            )
            &&& cost_at(value, q, x) == cost_at(value, p, x)
        }),
{
    lemma_ones::<N>(value, unit);
    let s = obs.slot + j;
    let load = expected_load(config, obs, k, s);
    let here = at + j;
    let agg = var(here);
    let tag = scenario_tag(k);
    let hours = slot_hours(obs.slot_minutes);
    let places = scenario_places(config, obs, k);
    let v = continuous(label("agg_"@, tag, s), zero_of::<N>(), agg_bound(obs.site_cap_kw, load), zero_of());
    let def = row(label("aggdef_"@, tag, s), agg_terms(agg, places, s, hours), Sense::Eq, load);
    let pk = envelope_row::<N>(label("pk_"@, tag, s), var(top), agg);
    let pka = envelope_row::<N>(label("pka_"@, tag, s), var(top + 1), agg);
    let q = with_load(config, obs, p, k, s, top);
    let rows = if obs.tou_series[s] == TouClass::Peak {
        seq![def, pk, pka]
    } else {
        seq![def, pka]
    };
    assert(q =~= p.with_vars(seq![v]).with_rows(rows));
    lemma_extended(value, p, seq![v], rows, x);
    lemma_priced_one(value, v, x, here);
    lemma_within_one(value, v, x, here);
    let net = x[here];
    assert(0real * net == 0real) by (nonlinear_arith);
    lemma_agg_bound(value, unit, obs.site_cap_kw, load, net);
    lemma_agg_terms_at(value, unit, agg, places, s, hours, x);
    lemma_envelope::<N>(value, unit, label("pk_"@, tag, s), var(top), agg, x);
    lemma_envelope::<N>(value, unit, label("pka_"@, tag, s), var(top + 1), agg, x);
    lemma_holds_one(value, def, x);
    lemma_one_more_holds(value, seq![def], pk, x);
    lemma_one_more_holds(value, seq![def].push(pk), pka, x);
    lemma_one_more_holds(value, seq![def], pka, x);
    assert(seq![def, pk, pka] =~= seq![def].push(pk).push(pka));
    assert(seq![def, pka] =~= seq![def].push(pka));
}

proof fn lemma_loads<N: Num>(
    value: spec_fn(N) -> real,
    unit: real,
    config: ScenarioMpcRules<N>,
    obs: ObservationModel<N>,
    p: Program<N>,
    x: Seq<real>,
    k: int,
    top: int,
    n: nat,
)
    requires
        plans_exactly(value, unit),
        slot_hours(obs.slot_minutes).finite(),
        0real < value(slot_hours(obs.slot_minutes)),
        obs.site_cap_kw matches Some(c) ==> c.finite(),
        0 <= k < scenario_count(config),
        forall|k: int, s: int|
            0 <= k < scenario_count(config) && obs.slot <= s < sawtooth_end(config, obs) ==> (#[trigger] expected_load(
                config,
                obs,
                k,
                s,
            )).finite(),
        are_numbered(scenario_places(config, obs, k)),
        obs.slot + n <= sawtooth_end(config, obs),
        0 <= top,
        top + 1 <= usize::MAX,
        p.vars.len() + n <= usize::MAX,
    ensures
        ({
            let q = with_loads(config, obs, p, k, top, n);
            &&& q.vars.len() == p.vars.len() + n
            &&& satisfies(value, q, x) <==> satisfies(value, p, x) && q.vars.len() <= x.len() && forall|j: int|
                0 <= j < n ==> #[trigger] is_slot_planned(
                    value,
                    config,
                    obs,
                    x,
                    k,
                    top,
                    p.vars.len() as int,
                    j,
                )
            &&& cost_at(value, q, x) == cost_at(value, p, x)
        }),
    decreases n,
{
    lemma_long_enough(value, p, x);
    if n > 0 {
        let m = (n - 1) as nat;
        let at = p.vars.len() as int;
        lemma_loads(value, unit, config, obs, p, x, k, top, m);
        let before = with_loads(config, obs, p, k, top, m);
        assert(expected_load(config, obs, k, obs.slot + m).finite());
        lemma_load(value, unit, config, obs, before, x, k, m as int, top, at);
        let q = with_loads(config, obs, p, k, top, n);
        if satisfies(value, q, x) {
            assert forall|j: int| 0 <= j < n implies #[trigger] is_slot_planned(
                value,
                config,
                obs,
                x,
                k,
                top,
                at,
                j,
            ) by {
                if j < m {
                    assert(is_slot_planned(value, config, obs, x, k, top, at, j));
                }
            }
        }
        if q.vars.len() <= x.len() && forall|j: int|
            0 <= j < n ==> #[trigger] is_slot_planned(value, config, obs, x, k, top, at, j) {
            assert(is_slot_planned(value, config, obs, x, k, top, at, m as int));
        }
    }
}

proof fn lemma_tops<N: Num>(
    value: spec_fn(N) -> real,
    unit: real,
    obs: ObservationModel<N>,
    history: N,
    p: Program<N>,
    x: Seq<real>,
    k: int,
)
    requires
        plans_exactly(value, unit),
    ensures
        ({
            let q = with_tops(obs, history, p, k);
            let top = p.vars.len() as int;
            &&& q.vars.len() == top + 2
            &&& satisfies(value, q, x) <==> satisfies(value, p, x) && q.vars.len() <= x.len() && is_from(
                value,
                x[top],
                history,
            ) && 0real <= x[top + 1]
            &&& cost_at(value, q, x) == cost_at(value, p, x) + value(obs.demand_charge_peak_usd_per_kw) * x[top] + value(
                obs.demand_charge_usd_per_kw,
            ) * x[top + 1]
        }),
{
    lemma_ones::<N>(value, unit);
    lemma_unbounded::<N>(value, unit);
    let top = p.vars.len() as int;
    let a = continuous(
        "pmaxtou_"@ + scenario_tag(k),
        history,
        N::unbounded(),
        obs.demand_charge_peak_usd_per_kw,
    );
    let b = continuous("pmax_"@ + scenario_tag(k), zero_of(), N::unbounded(), obs.demand_charge_usd_per_kw);
    let none = Seq::<RowModel<N>>::empty();
    let first = p.with_vars(seq![a]).with_rows(none);
    lemma_extended(value, p, seq![a], none, x);
    lemma_extended(value, first, seq![b], none, x);
    lemma_priced_one(value, a, x, top);
    lemma_priced_one(value, b, x, top + 1);
    lemma_within_one(value, a, x, top);
    lemma_within_one(value, b, x, top + 1);
    assert(with_tops(obs, history, p, k) =~= first.with_vars(seq![b]).with_rows(none));
}

/// The peaks and net loads of the first `k` scenarios.
proof fn lemma_all_loads<N: Num>(
    value: spec_fn(N) -> real,
    unit: real,
    config: ScenarioMpcRules<N>,
    obs: ObservationModel<N>,
    history: N,
    x: Seq<real>,
    k: nat,
)
    requires
        plans_exactly(value, unit),
        slot_hours(obs.slot_minutes).finite(),
        0real < value(slot_hours(obs.slot_minutes)),
        obs.site_cap_kw matches Some(c) ==> c.finite(),
        forall|k: int, s: int|
            0 <= k < scenario_count(config) && obs.slot <= s < sawtooth_end(config, obs) ==> (#[trigger] expected_load(
                config,
                obs,
                k,
                s,
            )).finite(),
        forall|j: int| 0 <= j < scenario_count(config) ==> are_numbered(#[trigger] scenario_places(config, obs, j)),
        obs.slot <= sawtooth_end(config, obs),
        k <= scenario_count(config),
        tops_at(config, obs, k as int) <= usize::MAX,
    ensures
        ({
            let q = scenario_loads(config, obs, history, k);
            let p = scenario_blocks(config, obs, scenario_count(config));
            &&& q.vars.len() == tops_at(config, obs, k as int)
            &&& satisfies(value, q, x) <==> satisfies(value, p, x) && q.vars.len() <= x.len() && forall|j: int|
                0 <= j < k ==> #[trigger] are_loads_planned(
                    value,
                    config,
                    obs,
                    history,
                    x,
                    j,
                    tops_at(config, obs, j),
                )
            &&& cost_at(value, q, x) == cost_at(value, p, x) + tops_cost(value, config, obs, x, k)
        }),
    decreases k,
{
    reveal(are_loads_planned);
    let p = scenario_blocks(config, obs, scenario_count(config));
    lemma_long_enough(value, p, x);
    let n = (sawtooth_end(config, obs) - obs.slot) as nat;
    if k == 0 {
        assert(0 * (n + 2) == 0) by (nonlinear_arith);
    } else {
        let m = (k - 1) as nat;
        assert(k * (n + 2) == m * (n + 2) + (n + 2) && 0 <= m * (n + 2)) by (nonlinear_arith)
            requires
                k == m + 1,
                0 <= m,
                0 <= n,
        ;
        lemma_all_loads(value, unit, config, obs, history, x, m);
        let before = scenario_loads(config, obs, history, m);
        let top = before.vars.len() as int;
        let mid = with_tops(obs, history, before, m as int);
        lemma_tops(value, unit, obs, history, before, x, m as int);
        assert(are_numbered(scenario_places(config, obs, m as int)));
        lemma_loads(value, unit, config, obs, mid, x, m as int, top, n);
        let q = scenario_loads(config, obs, history, k);
        assert(q == with_loads(config, obs, mid, m as int, top, n));
        if satisfies(value, q, x) {
            assert(are_loads_planned(value, config, obs, history, x, m as int, top));
            assert forall|j: int| 0 <= j < k implies #[trigger] are_loads_planned(
                value,
                config,
                obs,
                history,
                x,
                j,
                tops_at(config, obs, j),
            ) by {
                if j < m {
                    assert(are_loads_planned(value, config, obs, history, x, j, tops_at(config, obs, j)));
                }
            }
        }
        if q.vars.len() <= x.len() && forall|j: int|
            0 <= j < k ==> #[trigger] are_loads_planned(value, config, obs, history, x, j, tops_at(config, obs, j)) {
            assert(are_loads_planned(value, config, obs, history, x, m as int, tops_at(config, obs, m as int)));
        }
    }
}

// ---------------------------------------------------------------------- ties

proof fn lemma_position<N>(list: Seq<Entry<N>>, view: usize, n: nat)
    requires
        n <= list.len(),
    ensures
        match position_of(list, view, n) {
            Some(j) => is_first_of(list, view, j) && j < n,
            None => forall|i: int| 0 <= i < n ==> (#[trigger] list[i]).view_index != Some(view),
        },
    decreases n,
{
    if n > 0 {
        lemma_position(list, view, (n - 1) as nat);
    }
}

proof fn lemma_tie<N: Num>(
    value: spec_fn(N) -> real,
    unit: real,
    config: ScenarioMpcRules<N>,
    obs: ObservationModel<N>,
    p: Program<N>,
    x: Seq<real>,
    k: int,
    i: int,
)
    requires
        plans_exactly(value, unit),
        0 <= k < scenario_count(config),
        0 <= i < entries(config, obs, k).len(),
        forall|j: int, i: int|
            0 <= j < scenario_count(config) && 0 <= i < entries(config, obs, j).len() ==> 0
                <= #[trigger] entry_base(config, obs, j, i) && entry_base(config, obs, j, i) + 3 < usize::MAX,
    ensures
        ({
            let q = with_tie(config, obs, p, k, i);
            &&& q.vars == p.vars
            &&& satisfies(value, q, x) <==> satisfies(value, p, x) && is_tied(config, obs, x, k, i)
            &&& cost_at(value, q, x) == cost_at(value, p, x)
        }),
{
    reveal(is_tied);
    lemma_ones::<N>(value, unit);
    let first = entries(config, obs, 0);
    let q = with_tie(config, obs, p, k, i);
    let e = entries(config, obs, k)[i];
    match e.view_index {
        Some(view) => {
            lemma_position(first, view, first.len());
            match position_of(first, view, first.len()) {
                Some(j) => {
                    let here = entry_base(config, obs, k, i);
                    let there = entry_base(config, obs, 0, j);
                    assert(0 <= here && here + 3 < usize::MAX && 0 <= there && there + 3 < usize::MAX);
                    let places = scenario_places(config, obs, k);
                    assert(places[i].base == here);
                    assert(scenario_places(config, obs, 0)[j].base == there);
                    let a = tie_row::<N>("na_cp_"@ + entry_tag(k, i), var(here), var(there));
                    let b = tie_row::<N>("na_cn_"@ + entry_tag(k, i), var(here + 1), var(there + 1));
                    let none = Seq::<VarModel<N>>::empty();
                    assert(q =~= p.with_vars(none).with_rows(seq![a, b]));
                    lemma_extended(value, p, none, seq![a, b], x);
                    lemma_long_enough(value, p, x);
                    lemma_holds_one(value, a, x);
                    lemma_one_more_holds(value, seq![a], b, x);
                    assert(seq![a, b] =~= seq![a].push(b));
                    lemma_two(value, (var(here), one_of::<N>()), (var(there), minus_one_of::<N>()), x);
                    lemma_two(value, (var(here + 1), one_of::<N>()), (var(there + 1), minus_one_of::<N>()), x);
                    assert(forall|jj: int| #[trigger] is_first_of(first, view, jj) ==> jj == j) by {
                        assert forall|jj: int| #[trigger] is_first_of(first, view, jj) implies jj == j by {
                            if jj < j {
                                assert(first[jj].view_index != Some(view));
                            }
                            if j < jj {
                                assert(first[j].view_index != Some(view));
                            }
                        }
                    }
                    assert(is_first_of(first, view, j));
                    assert(is_tied(config, obs, x, k, i) <==> x[here] == x[there] && x[here + 1] == x[there + 1]) by {
                        assert(drawn(x, here, 0) == x[here] && given(x, here, 0) == x[here + 1]);
                        assert(drawn(x, there, 0) == x[there] && given(x, there, 0) == x[there + 1]);
                    }
                },
                None => {
                    assert forall|j: int| #[trigger] is_first_of(first, view, j) implies false by {
                        assert(first[j].view_index != Some(view));
                    }
                },
            }
        },
        None => {},
    }
}

proof fn lemma_ties<N: Num>(
    value: spec_fn(N) -> real,
    unit: real,
    config: ScenarioMpcRules<N>,
    obs: ObservationModel<N>,
    p: Program<N>,
    x: Seq<real>,
    k: int,
    n: nat,
)
    requires
        plans_exactly(value, unit),
        0 <= k < scenario_count(config),
        n <= entries(config, obs, k).len(),
        forall|j: int, i: int|
            0 <= j < scenario_count(config) && 0 <= i < entries(config, obs, j).len() ==> 0
                <= #[trigger] entry_base(config, obs, j, i) && entry_base(config, obs, j, i) + 3 < usize::MAX,
    ensures
        ({
            let q = with_ties(config, obs, p, k, n);
            &&& q.vars == p.vars
            &&& satisfies(value, q, x) <==> satisfies(value, p, x) && forall|i: int|
                0 <= i < n ==> #[trigger] is_tied(config, obs, x, k, i)
            &&& cost_at(value, q, x) == cost_at(value, p, x)
        }),
    decreases n,
{
    if n > 0 {
        let m = (n - 1) as nat;
        lemma_ties(value, unit, config, obs, p, x, k, m);
        lemma_tie(value, unit, config, obs, with_ties(config, obs, p, k, m), x, k, m as int);
    }
}

proof fn lemma_tied<N: Num>(
    value: spec_fn(N) -> real,
    unit: real,
    config: ScenarioMpcRules<N>,
    obs: ObservationModel<N>,
    p: Program<N>,
    x: Seq<real>,
    k: nat,
)
    requires
        plans_exactly(value, unit),
        k <= scenario_count(config),
        forall|j: int, i: int|
            0 <= j < scenario_count(config) && 0 <= i < entries(config, obs, j).len() ==> 0
                <= #[trigger] entry_base(config, obs, j, i) && entry_base(config, obs, j, i) + 3 < usize::MAX,
    ensures
        ({
            let q = tied(config, obs, p, k);
            &&& q.vars == p.vars
            &&& satisfies(value, q, x) <==> satisfies(value, p, x) && forall|j: int, i: int|
                1 <= j < k && 0 <= i < entries(config, obs, j).len() ==> #[trigger] is_tied(config, obs, x, j, i)
            &&& cost_at(value, q, x) == cost_at(value, p, x)
        }),
    decreases k,
{
    if k > 1 {
        let m = (k - 1) as nat;
        lemma_tied(value, unit, config, obs, p, x, m);
        let n = entries(config, obs, k - 1).len();
        let before = tied(config, obs, p, m);
        let q = tied(config, obs, p, k);
        assert(q == with_ties(config, obs, before, k - 1, n));
        lemma_ties(value, unit, config, obs, before, x, k - 1, n);
        if satisfies(value, q, x) {
            assert forall|j: int, i: int|
                1 <= j < k && 0 <= i < entries(config, obs, j).len() implies #[trigger] is_tied(
                config,
                obs,
                x,
                j,
                i,
            ) by {}
        }
    }
}

/// A point satisfies the program of the scenario-MPC just where it holds plans for all
/// scenarios, tied in their first slot, and the objective is what they cost together: the
/// flows and shortfalls of all sessions, and the demand charges on the peaks of every
/// scenario.
pub proof fn scenario_programs_are_plans<N: Num>(
    value: spec_fn(N) -> real,
    unit: real,
    config: ScenarioMpcRules<N>,
    obs: ObservationModel<N>,
    p_max_hist: N,
    x: Seq<real>,
)
    requires
        plans_exactly(value, unit),
        is_plannable_future(value, config, obs, p_max_hist),
    ensures
        ({
            let p = scenario_program(config, obs, p_max_hist);
            let n = scenario_count(config);
            &&& satisfies(value, p, x) <==> p.vars.len() <= x.len() && are_plans(value, config, obs, p_max_hist, x)
            &&& prices_fit(value, obs.price_series, config.degradation_usd_per_kwh) ==> cost_at(value, p, x)
                == scenarios_cost(value, config, obs, x, n) + tops_cost(value, config, obs, x, n)
        }),
{
    let n = scenario_count(config);
    let history = history_of(config, p_max_hist);
    let loads = scenario_loads(config, obs, history, n);
    let blocks = scenario_blocks(config, obs, n);
    lemma_tied_vars(config, obs, loads, n);
    lemma_loads_size(config, obs, history, n);
    let slots = sawtooth_end(config, obs) - obs.slot;
    assert(0 <= n * (slots + 2)) by (nonlinear_arith)
        requires
            0 <= n,
            0 <= slots,
    ;
    lemma_blocks(value, unit, config, obs, x, n);
    lemma_bases(value, unit, config, obs, x, n);
    lemma_all_loads(value, unit, config, obs, history, x, n);
    assert forall|j: int, i: int| 0 <= j < n && 0 <= i < entries(config, obs, j).len() implies 0
        <= #[trigger] entry_base(config, obs, j, i) && entry_base(config, obs, j, i) + 3 < usize::MAX by {}
    lemma_tied(value, unit, config, obs, loads, x, n);
    let p = scenario_program(config, obs, p_max_hist);
    assert(p == tied(config, obs, loads, n));
    lemma_long_enough(value, p, x);
    assert(blocks.vars.len() <= loads.vars.len());
    if satisfies(value, p, x) {
        assert(satisfies(value, loads, x));
        assert(satisfies(value, blocks, x));
        assert(are_plans(value, config, obs, p_max_hist, x));
    }
    if p.vars.len() <= x.len() && are_plans(value, config, obs, p_max_hist, x) {
        assert(satisfies(value, blocks, x));
        assert forall|j: int| 0 <= j < n implies #[trigger] are_loads_planned(
            value,
            config,
            obs,
            history,
            x,
            j,
            tops_at(config, obs, j),
        ) by {
            let past = past_peak(config, p_max_hist);
            assert(are_loads_planned(value, config, obs, past, x, j, tops_at(config, obs, j)));
        }
        assert(loads.vars.len() <= x.len());
        assert(satisfies(value, loads, x));
    }
}

proof fn lemma_tied_vars<N: Num>(config: ScenarioMpcRules<N>, obs: ObservationModel<N>, p: Program<N>, k: nat)
    ensures
        tied(config, obs, p, k).vars == p.vars,
    decreases k,
{
    if k > 1 {
        lemma_tied_vars(config, obs, p, (k - 1) as nat);
        lemma_ties_vars(
            config,
            obs,
            tied(config, obs, p, (k - 1) as nat),
            k - 1,
            entries(config, obs, k - 1).len(),
        );
    }
}

proof fn lemma_ties_vars<N: Num>(config: ScenarioMpcRules<N>, obs: ObservationModel<N>, p: Program<N>, k: int, n: nat)
    ensures
        with_ties(config, obs, p, k, n).vars == p.vars,
    decreases n,
{
    if n > 0 {
        lemma_ties_vars(config, obs, p, k, (n - 1) as nat);
    }
}

proof fn lemma_loads_vars<N: Num>(
    config: ScenarioMpcRules<N>,
    obs: ObservationModel<N>,
    p: Program<N>,
    k: int,
    top: int,
    n: nat,
)
    ensures
        with_loads(config, obs, p, k, top, n).vars.len() == p.vars.len() + n,
    decreases n,
{
    if n > 0 {
        lemma_loads_vars(config, obs, p, k, top, (n - 1) as nat);
    }
}

proof fn lemma_loads_size<N: Num>(config: ScenarioMpcRules<N>, obs: ObservationModel<N>, history: N, k: nat)
    requires
        obs.slot <= sawtooth_end(config, obs),
    ensures
        scenario_loads(config, obs, history, k).vars.len() == tops_at(config, obs, k as int),
    decreases k,
{
    let n = (sawtooth_end(config, obs) - obs.slot) as nat;
    if k == 0 {
        assert(0 * (n + 2) == 0) by (nonlinear_arith);
    } else {
        let m = (k - 1) as nat;
        assert(k * (n + 2) == m * (n + 2) + (n + 2)) by (nonlinear_arith)
            requires
                k == m + 1,
        ;
        lemma_loads_size(config, obs, history, m);
        let p = scenario_loads(config, obs, history, m);
        lemma_loads_vars(config, obs, with_tops(obs, history, p, k - 1), k - 1, p.vars.len() as int, n);
    }
}

// ------------------------------------------------------ what scenarios hold

/// The plan ends with the next day, more than one day and at most two ahead, or with the
/// series where that ends first.
pub proof fn horizons_end_with_the_next_day<N: Num>(config: ScenarioMpcRules<N>, obs: ObservationModel<N>)
    requires
        config.slots_per_day > 0,
    ensures
        ({
            let end = sawtooth_end(config, obs);
            let day = config.slots_per_day as int;
            &&& end <= obs.building_series.len()
            &&& end <= obs.slot + 2 * day
            &&& end < obs.building_series.len() ==> obs.slot + day < end && end % day == 0
            &&& obs.slot + 2 * day <= obs.building_series.len() ==> obs.slot + day < end
        }),
{
    let day = config.slots_per_day as int;
    let q = obs.slot as int / day;
    vstd::arithmetic::div_mod::lemma_fundamental_div_mod(obs.slot as int, day);
    vstd::arithmetic::div_mod::lemma_mod_bound(obs.slot as int, day);
    assert((q + 2) * day == day * q + 2 * day) by (nonlinear_arith);
    vstd::arithmetic::div_mod::lemma_mod_multiples_basic(q + 2, day);
}

/// Connected session `i` in a plan: from now on up to its departure or the end of the plan,
/// from its SoC, within its own limits.
#[verifier::opaque]
pub open spec fn is_car_entry<N: Num>(obs: ObservationModel<N>, end: int, i: int, e: Entry<N>) -> bool {
    let view = obs.sessions[i];
    let v = view.vehicle;
    &&& e.view_index == Some(view.index)
    &&& e.vehicle_id == v.vehicle_id
    &&& e.first_slot == obs.slot
    &&& e.last_slot + 1 == if v.departure_slot < end {
        v.departure_slot as int
    } else {
        end
    }
    &&& e.anchor_soc_kwh == view.soc_kwh
    &&& e.floor_kwh == v.min_soc_kwh
    &&& e.ceiling_kwh == v.ceiling()
    &&& e.max_charge_kw == view.max_charge_kw
    &&& e.max_discharge_kw == view.max_discharge_kw
    &&& e.reach_needed_kwh == terminal_need(
        v.soc_target_kwh,
        v.departure_slot,
        e.last_slot as int,
        view.max_charge_kw,
        slot_hours(obs.slot_minutes),
        obs.charge_efficiency,
        v.min_soc_kwh,
    )
}

/// A session of an episode comes into a plan: it arrives later, leaves before the plan ends,
/// and no connected session of its vehicle is still there when it arrives.
#[verifier::opaque]
pub open spec fn is_yet_to_come<N: Num>(obs: ObservationModel<N>, end: int, v: Vehicle<N>) -> bool {
    &&& obs.slot < v.arrival_slot < v.departure_slot < end
    &&& forall|i: int|
        0 <= i < obs.sessions.len() && (#[trigger] obs.sessions[i]).vehicle.vehicle_id == v.vehicle_id
            ==> obs.sessions[i].vehicle.departure_slot <= v.arrival_slot
}

/// A session of an episode in a plan: its whole stay, its own SoC and limits, its target at
/// departure; its own depletion where the actual ones are not known.
#[verifier::opaque]
pub open spec fn is_sampled_entry<N: Num>(
    config: ScenarioMpcRules<N>,
    obs: ObservationModel<N>,
    v: Vehicle<N>,
    e: Entry<N>,
) -> bool {
    &&& e.view_index is None
    &&& e.vehicle_id == v.vehicle_id
    &&& e.first_slot == v.arrival_slot
    &&& e.last_slot + 1 == v.departure_slot
    &&& e.anchor_soc_kwh == v.soc_arrival_kwh
    &&& e.floor_kwh == v.min_soc_kwh
    &&& e.ceiling_kwh == v.ceiling()
    &&& e.max_charge_kw == v.max_charge_kw
    &&& e.max_discharge_kw == v.max_discharge_kw
    &&& e.reach_needed_kwh == terminal_need(
        v.soc_target_kwh,
        v.departure_slot,
        v.departure_slot - 1,
        v.max_charge_kw,
        slot_hours(obs.slot_minutes),
        obs.charge_efficiency,
        v.min_soc_kwh,
    )
    &&& config.test_sessions.len() == 0 ==> e.depletion_kwh == v.depletion_kwh
}

/// A list holds the session `v` of an episode.
pub open spec fn holds_sample<N: Num>(
    config: ScenarioMpcRules<N>,
    obs: ObservationModel<N>,
    v: Vehicle<N>,
    list: Seq<Entry<N>>,
) -> bool {
    exists|j: int| 0 <= j < list.len() && is_sampled_entry(config, obs, v, #[trigger] list[j])
}

/// A list holds connected session `i`.
pub open spec fn holds_car<N: Num>(obs: ObservationModel<N>, end: int, i: int, list: Seq<Entry<N>>) -> bool {
    exists|j: int| 0 <= j < list.len() && is_car_entry(obs, end, i, #[trigger] list[j])
}

/// A planned session is one of an episode that is yet to come.
pub open spec fn is_a_sample<N: Num>(
    config: ScenarioMpcRules<N>,
    obs: ObservationModel<N>,
    end: int,
    vehicles: Seq<Vehicle<N>>,
    e: Entry<N>,
) -> bool {
    exists|r: int|
        0 <= r < vehicles.len() && is_yet_to_come(obs, end, #[trigger] vehicles[r]) && is_sampled_entry(
            config,
            obs,
            vehicles[r],
            e,
        )
}

/// A planned session is a connected one.
pub open spec fn is_a_car<N: Num>(obs: ObservationModel<N>, end: int, e: Entry<N>) -> bool {
    exists|i: int| 0 <= i < obs.sessions.len() && #[trigger] is_car_entry(obs, end, i, e)
}

/// Whether a session of an episode comes into a plan.
proof fn lemma_yet_to_come<N: Num>(obs: ObservationModel<N>, end: int, v: Vehicle<N>)
    ensures
        is_future(obs, v, end) == is_yet_to_come(obs, end, v),
{
    reveal(is_yet_to_come);
    if is_present_visit(obs.sessions, v) {
        let i = choose|i: int|
            0 <= i < obs.sessions.len() && (#[trigger] obs.sessions[i]).vehicle.vehicle_id == v.vehicle_id
                && v.arrival_slot < obs.sessions[i].vehicle.departure_slot;
        assert(obs.sessions[i].vehicle.vehicle_id == v.vehicle_id);
    }
}

/// A session of an episode as it stands in a plan.
proof fn lemma_sampled_entry<N: Num>(
    config: ScenarioMpcRules<N>,
    obs: ObservationModel<N>,
    vehicles: Seq<Vehicle<N>>,
    p: int,
)
    requires
        vehicles[visit_order(vehicles)[p] as int].arrival_slot < vehicles[visit_order(vehicles)[p] as int].departure_slot,
    ensures
        is_sampled_entry(
            config,
            obs,
            vehicles[visit_order(vehicles)[p] as int],
            future_entry(config, obs, vehicles, p),
        ),
{
    reveal(is_sampled_entry);
}

/// The sampled sessions among the first `n` of an episode.
proof fn lemma_sampled<N: Num>(
    config: ScenarioMpcRules<N>,
    obs: ObservationModel<N>,
    vehicles: Seq<Vehicle<N>>,
    n: nat,
)
    requires
        n <= vehicles.len(),
        visit_order(vehicles).len() == vehicles.len(),
        forall|p: int| 0 <= p < vehicles.len() ==> #[trigger] visit_order(vehicles)[p] < vehicles.len(),
    ensures
        ({
            let end = sawtooth_end(config, obs);
            let list = future_entries(config, obs, vehicles, n);
            &&& forall|j: int|
                0 <= j < list.len() ==> is_a_sample(config, obs, end, vehicles, #[trigger] list[j])
            &&& forall|p: int|
                #![trigger visit_order(vehicles)[p]]
                0 <= p < n && is_yet_to_come(obs, end, vehicles[visit_order(vehicles)[p] as int]) ==> holds_sample(
                    config,
                    obs,
                    vehicles[visit_order(vehicles)[p] as int],
                    list,
                )
        }),
    decreases n,
{
    if n > 0 {
        let m = (n - 1) as nat;
        let end = sawtooth_end(config, obs);
        let order = visit_order(vehicles);
        lemma_sampled(config, obs, vehicles, m);
        let before = future_entries(config, obs, vehicles, m);
        let list = future_entries(config, obs, vehicles, n);
        let row = order[m as int] as int;
        let v = vehicles[row];
        assert(order[m as int] < vehicles.len());
        lemma_yet_to_come(obs, end, v);
        if is_future(obs, v, end) {
            lemma_sampled_entry(config, obs, vehicles, m as int);
        }
        assert forall|j: int| 0 <= j < list.len() implies is_a_sample(
            config,
            obs,
            end,
            vehicles,
            #[trigger] list[j],
        ) by {
            if j < before.len() {
                assert(list[j] == before[j]);
            } else {
                assert(is_sampled_entry(config, obs, vehicles[row], list[j]));
            }
        }
        assert forall|p: int|
            #![trigger order[p]]
            0 <= p < n && is_yet_to_come(obs, end, vehicles[order[p] as int]) implies holds_sample(
            config,
            obs,
            vehicles[order[p] as int],
            list,
        ) by {
            if p < m {
                lemma_still_held(config, obs, vehicles[order[p] as int], before, list);
            } else {
                assert(is_sampled_entry(config, obs, v, list[before.len() as int]));
            }
        }
    }
}

proof fn lemma_still_held<N: Num>(
    config: ScenarioMpcRules<N>,
    obs: ObservationModel<N>,
    v: Vehicle<N>,
    before: Seq<Entry<N>>,
    list: Seq<Entry<N>>,
)
    requires
        holds_sample(config, obs, v, before),
        before.len() <= list.len(),
        forall|j: int| 0 <= j < before.len() ==> #[trigger] list[j] == before[j],
    ensures
        holds_sample(config, obs, v, list),
{
    let j = choose|j: int| 0 <= j < before.len() && is_sampled_entry(config, obs, v, #[trigger] before[j]);
    assert(list[j] == before[j]);
}

/// Sorting keeps what a list holds.
proof fn lemma_sorted_entries<N: Num>(all: Seq<Entry<N>>)
    requires
        all.len() <= usize::MAX,
    ensures
        ({
            let list = sorted_entries(all);
            &&& list.len() == all.len()
            &&& forall|i: int| #![trigger all[i]] 0 <= i < all.len() ==> list.contains(all[i])
            &&& forall|j: int| #![trigger list[j]] 0 <= j < list.len() ==> all.contains(list[j])
            &&& forall|a: int, b: int|
                #![trigger list[a], list[b]]
                0 <= a < b < list.len() ==> list[a].vehicle_id < list[b].vehicle_id || (list[a].vehicle_id
                    == list[b].vehicle_id && list[a].first_slot <= list[b].first_slot)
        }),
{
    let list = sorted_entries(all);
    let keys = Seq::new(all.len(), |i: int| entry_rank(all[i]));
    let order = stable_order(keys);
    stable_order_is_arrangement(keys, keys.len());
    stable_order_is_sorted(keys, keys.len());
    assert forall|i: int| #![trigger all[i]] 0 <= i < all.len() implies list.contains(all[i]) by {
        assert(order.contains(i as usize));
        let j = choose|j: int| 0 <= j < order.len() && order[j] == i as usize;
        assert(list[j] == all[i]);
    }
    assert forall|j: int| #![trigger list[j]] 0 <= j < list.len() implies all.contains(list[j]) by {
        assert(order[j] < keys.len());
        assert(list[j] == all[order[j] as int]);
    }
    assert forall|a: int, b: int|
        #![trigger list[a], list[b]]
        0 <= a < b < list.len() implies list[a].vehicle_id < list[b].vehicle_id || (list[a].vehicle_id
        == list[b].vehicle_id && list[a].first_slot <= list[b].first_slot) by {
        assert(order[a] < keys.len() && order[b] < keys.len());
        assert(!Ranked::ahead(&keys[order[b] as int], &keys[order[a] as int]));
        assert(list[a] == all[order[a] as int] && list[b] == all[order[b] as int]);
    }
}

/// A connected session as it stands in a plan.
proof fn lemma_car_entry<N: Num>(obs: ObservationModel<N>, end: int, i: int)
    requires
        obs.slot < end <= usize::MAX,
        obs.sessions[i].vehicle.departure_slot > obs.slot,
    ensures
        is_car_entry(obs, end, i, connected_entry(obs, obs.sessions[i], end)),
{
    reveal(is_car_entry);
}

/// What a scenario gathers, before it is sorted.
proof fn lemma_gathered<N: Num>(config: ScenarioMpcRules<N>, obs: ObservationModel<N>, k: int)
    requires
        0 <= k < config.futures.len(),
        obs.sessions.len() + config.futures[k].vehicles.len() <= usize::MAX,
    ensures
        ({
            let vehicles = config.futures[k].vehicles;
            let comers = future_entries(config, obs, vehicles, vehicles.len());
            &&& gathered(config, obs, k) == connected_entries(config, obs) + comers
            &&& gathered(config, obs, k).len() <= usize::MAX
            &&& entries(config, obs, k) == sorted_entries(gathered(config, obs, k))
        }),
{
    let vehicles = config.futures[k].vehicles;
    lemma_few_comers(config, obs, vehicles, vehicles.len());
}

/// Scenario `k` plans connected session `i`.
pub proof fn scenarios_hold_every_connected_car<N: Num>(
    config: ScenarioMpcRules<N>,
    obs: ObservationModel<N>,
    k: int,
    i: int,
)
    requires
        0 <= k < config.futures.len(),
        obs.sessions.len() + config.futures[k].vehicles.len() <= usize::MAX,
        obs.slot < sawtooth_end(config, obs) <= usize::MAX,
        forall|i: int|
            0 <= i < obs.sessions.len() ==> (#[trigger] obs.sessions[i]).vehicle.departure_slot > obs.slot,
        0 <= i < obs.sessions.len(),
    ensures
        holds_car(obs, sawtooth_end(config, obs), i, entries(config, obs, k)),
{
    let list = entries(config, obs, k);
    let end = sawtooth_end(config, obs);
    let all = gathered(config, obs, k);
    let cars = connected_entries(config, obs);
    lemma_gathered(config, obs, k);
    lemma_sorted_entries(all);
    assert(obs.sessions[i].vehicle.departure_slot > obs.slot);
    lemma_car_entry(obs, end, i);
    assert(all[i] == cars[i]);
    let j = choose|j: int| 0 <= j < list.len() && list[j] == all[i];
    assert(is_car_entry(obs, end, i, list[j]));
}

/// Scenario `k` plans every session of its episode that is yet to come.
pub proof fn scenarios_hold_their_future<N: Num>(
    config: ScenarioMpcRules<N>,
    obs: ObservationModel<N>,
    k: int,
    r: int,
)
    requires
        0 <= k < config.futures.len(),
        obs.sessions.len() + config.futures[k].vehicles.len() <= usize::MAX,
        obs.slot < sawtooth_end(config, obs) <= usize::MAX,
        forall|i: int|
            0 <= i < obs.sessions.len() ==> (#[trigger] obs.sessions[i]).vehicle.departure_slot > obs.slot,
        0 <= r < config.futures[k].vehicles.len(),
        is_yet_to_come(obs, sawtooth_end(config, obs), config.futures[k].vehicles[r]),
    ensures
        holds_sample(config, obs, config.futures[k].vehicles[r], entries(config, obs, k)),
{
    let list = entries(config, obs, k);
    let vehicles = config.futures[k].vehicles;
    let all = gathered(config, obs, k);
    let cars = connected_entries(config, obs);
    let comers = future_entries(config, obs, vehicles, vehicles.len());
    lemma_gathered(config, obs, k);
    lemma_sorted_entries(all);
    let visits = visit_order(vehicles);
    let keys = Seq::new(vehicles.len(), |i: int| visit_rank(vehicles[i]));
    stable_order_is_arrangement(keys, keys.len());
    lemma_sampled(config, obs, vehicles, vehicles.len());
    assert(visits.contains(r as usize));
    let p = choose|p: int| 0 <= p < visits.len() && visits[p] == r as usize;
    assert(visits[p] as int == r);
    assert(holds_sample(config, obs, vehicles[r], comers));
    let c = choose|c: int| 0 <= c < comers.len() && is_sampled_entry(config, obs, vehicles[r], #[trigger] comers[c]);
    let x = cars.len() + c;
    assert(all[x] == comers[c]);
    let j = choose|j: int| 0 <= j < list.len() && list[j] == all[x];
    assert(is_sampled_entry(config, obs, vehicles[r], list[j]));
}

/// Scenario `k` plans nothing but connected sessions and sessions of its episode that are
/// yet to come.
pub proof fn scenarios_hold_nothing_else<N: Num>(
    config: ScenarioMpcRules<N>,
    obs: ObservationModel<N>,
    k: int,
    j: int,
)
    requires
        0 <= k < config.futures.len(),
        obs.sessions.len() + config.futures[k].vehicles.len() <= usize::MAX,
        obs.slot < sawtooth_end(config, obs) <= usize::MAX,
        forall|i: int|
            0 <= i < obs.sessions.len() ==> (#[trigger] obs.sessions[i]).vehicle.departure_slot > obs.slot,
        0 <= j < entries(config, obs, k).len(),
    ensures
        ({
            let e = entries(config, obs, k)[j];
            let end = sawtooth_end(config, obs);
            is_a_car(obs, end, e) || is_a_sample(config, obs, end, config.futures[k].vehicles, e)
        }),
{
    let list = entries(config, obs, k);
    let end = sawtooth_end(config, obs);
    let vehicles = config.futures[k].vehicles;
    let all = gathered(config, obs, k);
    let cars = connected_entries(config, obs);
    let comers = future_entries(config, obs, vehicles, vehicles.len());
    lemma_gathered(config, obs, k);
    lemma_sorted_entries(all);
    let keys = Seq::new(vehicles.len(), |i: int| visit_rank(vehicles[i]));
    stable_order_is_arrangement(keys, keys.len());
    lemma_sampled(config, obs, vehicles, vehicles.len());
    assert(all.contains(list[j]));
    let x = choose|x: int| 0 <= x < all.len() && all[x] == list[j];
    if x < cars.len() {
        assert(all[x] == cars[x]);
        assert(obs.sessions[x].vehicle.departure_slot > obs.slot);
        lemma_car_entry(obs, end, x);
        assert(is_car_entry(obs, end, x, list[j]));
    } else {
        assert(all[x] == comers[x - cars.len()]);
    }
}

/// The sessions of scenario `k` stand by vehicle and then by first slot.
pub proof fn scenarios_keep_vehicles_together<N: Num>(
    config: ScenarioMpcRules<N>,
    obs: ObservationModel<N>,
    k: int,
    a: int,
    b: int,
)
    requires
        0 <= k < config.futures.len(),
        obs.sessions.len() + config.futures[k].vehicles.len() <= usize::MAX,
        obs.slot < sawtooth_end(config, obs) <= usize::MAX,
        forall|i: int|
            0 <= i < obs.sessions.len() ==> (#[trigger] obs.sessions[i]).vehicle.departure_slot > obs.slot,
        0 <= a < b < entries(config, obs, k).len(),
    ensures
        ({
            let x = entries(config, obs, k)[a];
            let y = entries(config, obs, k)[b];
            x.vehicle_id < y.vehicle_id || (x.vehicle_id == y.vehicle_id && x.first_slot <= y.first_slot)
        }),
{
    lemma_gathered(config, obs, k);
    lemma_sorted_entries(gathered(config, obs, k));
}

proof fn lemma_few_comers<N: Num>(
    config: ScenarioMpcRules<N>,
    obs: ObservationModel<N>,
    vehicles: Seq<Vehicle<N>>,
    n: nat,
)
    ensures
        future_entries(config, obs, vehicles, n).len() <= n,
    decreases n,
{
    if n > 0 {
        lemma_few_comers(config, obs, vehicles, (n - 1) as nat);
    }
}

/// What a scenario expects of the building: now what is seen, later the load of its own
/// episode where it is asked for and there is one, else the forecast from the past.
pub proof fn scenarios_expect_their_own_load<N: Num>(
    config: ScenarioMpcRules<N>,
    obs: ObservationModel<N>,
    k: int,
    s: int,
)
    requires
        0 <= k < scenario_count(config),
        obs.slot < obs.building_series.len(),
    ensures
        s == obs.slot ==> expected_load(config, obs, k, s) == obs.building_series[s],
        !config.building_from_futures || config.futures.len() == 0 ==> expected_load(config, obs, k, s)
            == obs.forecast(s),
        config.building_from_futures && k < config.futures.len() && obs.slot < s < config.futures[k].building.len()
            ==> expected_load(config, obs, k, s) == config.futures[k].building[s],
{
}

// ------------------------------------------------------- visits of a vehicle

/// One for each position of `order` with a session of vehicle `id`.
pub open spec fn visits_of<N>(vehicles: Seq<Vehicle<N>>, order: Seq<usize>, id: u32) -> spec_fn(int) -> real {
    |q: int|
        if vehicles[order[q] as int].vehicle_id == id {
            1real
        } else {
            0real
        }
}

proof fn lemma_no_visits<N>(vehicles: Seq<Vehicle<N>>, order: Seq<usize>, id: u32, n: nat)
    requires
        forall|q: int|
            #![trigger order[q]]
            0 <= q < n ==> vehicles[order[q] as int].vehicle_id != id,
    ensures
        total(visits_of(vehicles, order, id), n) == 0real,
    decreases n,
{
    if n > 0 {
        lemma_no_visits(vehicles, order, id, (n - 1) as nat);
        let last = order[n - 1];
        assert(vehicles[order[n - 1] as int].vehicle_id != id);
    }
}

proof fn lemma_visit_numbers<N>(vehicles: Seq<Vehicle<N>>, order: Seq<usize>, p: int)
    requires
        0 <= p < order.len(),
        forall|a: int, b: int|
            #![trigger order[a], order[b]]
            0 <= a < b < order.len() ==> vehicles[order[a] as int].vehicle_id <= vehicles[order[b] as int].vehicle_id,
    ensures
        visit_number(vehicles, order, p) as real == total(
            visits_of(vehicles, order, vehicles[order[p] as int].vehicle_id),
            p as nat,
        ),
    decreases p,
{
    let id = vehicles[order[p] as int].vehicle_id;
    if p > 0 {
        let x = order[p - 1];
        if vehicles[order[p - 1] as int].vehicle_id == id {
            lemma_visit_numbers(vehicles, order, p - 1);
        } else {
            assert forall|q: int| #![trigger order[q]] 0 <= q < p implies vehicles[order[q] as int].vehicle_id != id by {
                assert(vehicles[order[p - 1] as int].vehicle_id <= vehicles[order[p] as int].vehicle_id);
                if q < p - 1 {
                    assert(vehicles[order[q] as int].vehicle_id <= vehicles[order[p - 1] as int].vehicle_id);
                }
            }
            lemma_no_visits(vehicles, order, id, p as nat);
        }
    }
}

/// The visits of an episode stand by vehicle and arrival, and each is numbered by how many
/// visits of its vehicle stand before it.
pub proof fn visits_are_numbered_per_vehicle<N>(vehicles: Seq<Vehicle<N>>, p: int, q: int)
    requires
        vehicles.len() <= usize::MAX,
        0 <= q < p < vehicles.len(),
    ensures
        ({
            let order = visit_order(vehicles);
            let v = vehicles[order[p] as int];
            let w = vehicles[order[q] as int];
            &&& visit_number(vehicles, order, p) as real == total(visits_of(vehicles, order, v.vehicle_id), p as nat)
            &&& w.vehicle_id < v.vehicle_id || (w.vehicle_id == v.vehicle_id && w.arrival_slot <= v.arrival_slot)
        }),
{
    let order = visit_order(vehicles);
    let keys = Seq::new(vehicles.len(), |i: int| visit_rank(vehicles[i]));
    stable_order_is_arrangement(keys, keys.len());
    stable_order_is_sorted(keys, keys.len());
    assert forall|a: int, b: int|
        #![trigger order[a], order[b]]
        0 <= a < b < order.len() implies vehicles[order[a] as int].vehicle_id
        <= vehicles[order[b] as int].vehicle_id by {
        assert(order[a] < keys.len() && order[b] < keys.len());
        assert(!Ranked::ahead(&keys[order[b] as int], &keys[order[a] as int]));
    }
    assert(order[q] < keys.len() && order[p] < keys.len());
    assert(!Ranked::ahead(&keys[order[p] as int], &keys[order[q] as int]));
    lemma_visit_numbers(vehicles, order, p);
}

/// Position `q` holds visit `number` of vehicle `id`.
#[verifier::opaque]
pub open spec fn is_visit<N>(vehicles: Seq<Vehicle<N>>, order: Seq<usize>, id: u32, number: nat, q: int) -> bool {
    vehicles[order[q] as int].vehicle_id == id && visit_number(vehicles, order, q) == number
}

/// A depletion that is known is that of the visit of the same vehicle with the same number,
/// and one is known wherever there is such a visit.
pub proof fn known_depletions_match_the_visit<N>(
    vehicles: Seq<Vehicle<N>>,
    order: Seq<usize>,
    id: u32,
    number: nat,
    n: nat,
)
    requires
        n <= order.len(),
    ensures
        match known_depletion(vehicles, order, id, number, n) {
            Some(d) => exists|q: int|
                0 <= q < n && #[trigger] is_visit(vehicles, order, id, number, q)
                    && vehicles[order[q] as int].depletion_kwh == d,
            None => forall|q: int| 0 <= q < n ==> !#[trigger] is_visit(vehicles, order, id, number, q),
        },
    decreases n,
{
    if n > 0 {
        let last = n - 1;
        known_depletions_match_the_visit(vehicles, order, id, number, last as nat);
        assert(is_visit(vehicles, order, id, number, last) == (vehicles[order[last] as int].vehicle_id == id
            && visit_number(vehicles, order, last) == number)) by {
            reveal(is_visit);
        }
    }
}

} // verus!
