//! The linear programs behind the planning policies.
//!
//! Every planner lays out one block per planned visit: per slot the grid-side
//! charge energy `cp`, the building-side discharge energy `cn` (kWh/slot) and
//! the stored energy `e`, tied by `e[s] = e[s-1] + eta_c*cp[s] - cn[s]/eta_d`
//! within the battery's range, and a terminal requirement with a penalized
//! shortfall `z`. The visits of a slot add up to the site's net load `agg`,
//! which stays between zero (no export) and the site cap. Demand components
//! and demand-response overflow are priced on top.

use vstd::prelude::*;

use crate::milp::{continuous, row, var, Model, Program, RowModel, Sense, VarId, VarModel};
use crate::num::{minus_one, minus_one_of, one, one_of, zero, zero_of, Num};
use crate::scenario::{DrEvent, TouClass};
use crate::text::{decimal, push_usize};

verus! {

/// `prefix` + `tag` + `_` + `slot`.
pub open spec fn label(prefix: Seq<char>, tag: Seq<char>, slot: int) -> Seq<char> {
    prefix + tag + "_"@ + decimal(slot as nat)
}

/// `prefix` + `n`.
pub open spec fn numbered(prefix: Seq<char>, n: int) -> Seq<char> {
    prefix + decimal(n as nat)
}

/// Writes `prefix` + `tag` + `_` + `slot`.
pub(crate) fn make_label(prefix: &str, tag: &str, slot: usize) -> (r: String)
    ensures
        r@ == label(prefix@, tag@, slot as int),
{
    let mut out = prefix.to_owned();
    out.append(tag);
    out.append("_");
    push_usize(&mut out, slot);
    out
}

/// Writes `prefix` + `n`.
pub(crate) fn make_numbered(prefix: &str, n: usize) -> (r: String)
    ensures
        r@ == numbered(prefix@, n as int),
{
    let mut out = prefix.to_owned();
    push_usize(&mut out, n);
    out
}

/// Writes `prefix` + `tag`.
pub(crate) fn make_tagged(prefix: &str, tag: &str) -> (r: String)
    ensures
        r@ == prefix@ + tag@,
{
    let mut out = prefix.to_owned();
    out.append(tag);
    out
}

/// What a visit's stored energy starts from.
#[derive(Debug, Clone, Copy)]
pub enum Start<N> {
    /// A known SoC, kWh.
    At(N),
    /// The value of a variable minus a depletion, kWh.
    After(VarId, N),
}

/// One visit inside a plan.
#[derive(Debug)]
pub struct Visit<N> {
    /// Names the visit's variables and rows.
    pub tag: String,
    pub first_slot: usize,
    /// Inclusive.
    pub last_slot: usize,
    /// Largest grid-side charge energy per slot, kWh.
    pub charge_kwh: N,
    /// Largest building-side discharge energy per slot, kWh.
    pub discharge_kwh: N,
    pub floor_kwh: N,
    pub ceiling_kwh: N,
    pub start: Start<N>,
    /// Stored energy asked for at the end of the last slot, kWh.
    pub needed_kwh: N,
}

/// What a visit says.
#[verifier::ext_equal]
pub struct VisitModel<N> {
    pub tag: Seq<char>,
    pub first_slot: usize,
    pub last_slot: usize,
    pub charge_kwh: N,
    pub discharge_kwh: N,
    pub floor_kwh: N,
    pub ceiling_kwh: N,
    pub start: Start<N>,
    pub needed_kwh: N,
}

impl<N> View for Visit<N> {
    type V = VisitModel<N>;

    open spec fn view(&self) -> VisitModel<N> {
        VisitModel {
            tag: self.tag@,
            first_slot: self.first_slot,
            last_slot: self.last_slot,
            charge_kwh: self.charge_kwh,
            discharge_kwh: self.discharge_kwh,
            floor_kwh: self.floor_kwh,
            ceiling_kwh: self.ceiling_kwh,
            start: self.start,
            needed_kwh: self.needed_kwh,
        }
    }
}

impl<N> VisitModel<N> {
    /// Slots of the visit.
    pub open spec fn len(self) -> nat {
        (self.last_slot - self.first_slot + 1) as nat
    }
}

/// Rates that hold for every visit of a plan.
#[derive(Debug, Clone, Copy)]
pub struct PlanRates<N> {
    pub charge_efficiency: N,
    pub discharge_efficiency: N,
    /// Penalty per kWh of departure-target shortfall.
    pub shortfall_usd_per_kwh: N,
    /// Battery-wear cost per kWh discharged (building side).
    pub degradation_usd_per_kwh: N,
    /// Bound on the change of `cp - cn` between consecutive slots, kWh/slot.
    pub ramp_kwh_per_slot: Option<N>,
}

/// Where the variables of a visit stand: `cp`, `cn` and `e` of its slots in
/// turn from `base` on, then its shortfall.
#[derive(Debug, Clone, Copy, PartialEq, Eq)]
pub struct Place {
    pub base: usize,
    pub first_slot: usize,
    /// Inclusive.
    pub last_slot: usize,
}

/// The charge variable of the visit's slot number `i`.
pub open spec fn cp(base: int, i: int) -> VarId {
    var(base + 3 * i)
}

/// The discharge variable of the visit's slot number `i`.
pub open spec fn cn(base: int, i: int) -> VarId {
    var(base + 3 * i + 1)
}

/// The stored-energy variable of the visit's slot number `i`.
pub open spec fn stored(base: int, i: int) -> VarId {
    var(base + 3 * i + 2)
}

/// Variable number `j` of a visit's slots.
pub open spec fn visit_var<N: Num>(v: VisitModel<N>, rates: PlanRates<N>, price: Seq<N>, j: int) -> VarModel<
    N,
> {
    let s = v.first_slot + j / 3;
    if j % 3 == 0 {
        continuous(label("cp_"@, v.tag, s), zero_of(), v.charge_kwh, price[s])
    } else if j % 3 == 1 {
        continuous(
            label("cn_"@, v.tag, s),
            zero_of(),
            v.discharge_kwh,
            rates.degradation_usd_per_kwh.minus(price[s]),
        )
    } else {
        continuous(label("e_"@, v.tag, s), v.floor_kwh, v.ceiling_kwh, zero_of())
    }
}

/// The shortfall variable of a visit.
pub open spec fn shortfall_var<N: Num>(v: VisitModel<N>, rates: PlanRates<N>) -> VarModel<N> {
    continuous("z_"@ + v.tag, zero_of(), N::unbounded(), rates.shortfall_usd_per_kwh)
}

/// The variables of a visit.
pub open spec fn visit_vars<N: Num>(v: VisitModel<N>, rates: PlanRates<N>, price: Seq<N>) -> Seq<VarModel<N>> {
    Seq::new(3 * v.len(), |j: int| visit_var(v, rates, price, j)).push(shortfall_var(v, rates))
}

/// The energy balance of the visit's slot number `i`.
pub open spec fn soc_row<N: Num>(v: VisitModel<N>, rates: PlanRates<N>, base: int, i: int) -> RowModel<N> {
    let name = label("soc_"@, v.tag, v.first_slot + i);
    let terms = seq![
        (stored(base, i), one_of::<N>()),
        (cp(base, i), rates.charge_efficiency.negated()),
        (cn(base, i), one_of::<N>().over(rates.discharge_efficiency)),
    ];
    if i > 0 {
        row(name, terms.push((stored(base, i - 1), minus_one_of())), Sense::Eq, zero_of())
    } else {
        match v.start {
            Start::At(soc) => row(name, terms, Sense::Eq, soc),
            Start::After(prev, depletion) => row(
                name,
                terms.push((prev, minus_one_of())),
                Sense::Eq,
                depletion.negated(),
            ),
        }
    }
}

/// The terminal requirement of a visit.
pub open spec fn target_row<N: Num>(prefix: Seq<char>, v: VisitModel<N>, base: int) -> RowModel<N> {
    row(
        prefix + v.tag,
        seq![(stored(base, v.len() - 1), one_of::<N>()), (var(base + 3 * v.len()), one_of::<N>())],
        Sense::Ge,
        v.needed_kwh,
    )
}

/// Ramp bound number `j` of a visit: upward and downward in turn.
pub open spec fn ramp_row<N: Num>(v: VisitModel<N>, base: int, q: N, j: int) -> RowModel<N> {
    let i = j / 2 + 1;
    let terms = seq![
        (cp(base, i), one_of::<N>()),
        (cn(base, i), minus_one_of()),
        (cp(base, i - 1), minus_one_of()),
        (cn(base, i - 1), one_of()),
    ];
    if j % 2 == 0 {
        row(label("rup_"@, v.tag, i), terms, Sense::Le, q)
    } else {
        row(label("rdn_"@, v.tag, i), terms, Sense::Ge, q.negated())
    }
}

/// The ramp bounds of a visit.
pub open spec fn ramp_rows<N: Num>(v: VisitModel<N>, rates: PlanRates<N>, base: int) -> Seq<RowModel<N>> {
    match rates.ramp_kwh_per_slot {
        Some(q) => Seq::new((2 * (v.len() - 1)) as nat, |j: int| ramp_row(v, base, q, j)),
        None => Seq::empty(),
    }
}

/// The rows of a visit whose variables start at `base`.
pub open spec fn visit_rows<N: Num>(
    prefix: Seq<char>,
    v: VisitModel<N>,
    rates: PlanRates<N>,
    base: int,
) -> Seq<RowModel<N>> {
    Seq::new(v.len(), |i: int| soc_row(v, rates, base, i)).push(target_row(prefix, v, base)) + ramp_rows(
        v,
        rates,
        base,
    )
}

/// The program with a visit's block added; `prefix` names its terminal row.
pub open spec fn with_visit<N: Num>(
    p: Program<N>,
    prefix: Seq<char>,
    v: VisitModel<N>,
    rates: PlanRates<N>,
    price: Seq<N>,
) -> Program<N> {
    p.with_vars(visit_vars(v, rates, price)).with_rows(
        visit_rows(prefix, v, rates, p.vars.len() as int),
    )
}

/// Adds the variables of a visit.
fn add_visit_vars<N: Num>(m: &mut Model<N>, v: &Visit<N>, rates: &PlanRates<N>, price: &[N])
    requires
        v.first_slot <= v.last_slot < price@.len(),
    ensures
        final(m)@ == old(m)@.with_vars(visit_vars(v@, *rates, price@)),
        final(m)@.vars.len() == old(m)@.vars.len() + 3 * v@.len() + 1,
{
    let ghost before = m@;
    let ghost all = visit_vars(v@, *rates, price@);
    let mut s: usize = v.first_slot;
    let mut i: usize = 0;
    assert(m@ =~= before.with_vars(all.take(0)));
    while i <= v.last_slot - v.first_slot
        invariant
            v.first_slot <= v.last_slot < price@.len(),
            i <= v.last_slot - v.first_slot + 1,
            s == v.first_slot + i,
            all == visit_vars(v@, *rates, price@),
            m@ == before.with_vars(all.take(3 * i)),
        decreases v.last_slot - v.first_slot + 1 - i,
    {
        let ghost here = m@;
        m.add_var(make_label("cp_", v.tag.as_str(), s), zero(), v.charge_kwh, price[s]);
        m.add_var(
            make_label("cn_", v.tag.as_str(), s),
            zero(),
            v.discharge_kwh,
            rates.degradation_usd_per_kwh.sub(price[s]),
        );
        m.add_var(make_label("e_", v.tag.as_str(), s), v.floor_kwh, v.ceiling_kwh, zero());
        proof {
            assert((3 * i) / 3 == i && (3 * i + 1) / 3 == i && (3 * i + 2) / 3 == i);
            assert((3 * i) % 3 == 0 && (3 * i + 1) % 3 == 1 && (3 * i + 2) % 3 == 2);
            assert(all[3 * i] == visit_var(v@, *rates, price@, 3 * i));
            assert(all[3 * i + 1] == visit_var(v@, *rates, price@, 3 * i + 1));
            assert(all[3 * i + 2] == visit_var(v@, *rates, price@, 3 * i + 2));
            assert(all.take(3 * (i + 1)) =~= all.take(3 * i).push(all[3 * i]).push(all[3 * i + 1]).push(
                all[3 * i + 2],
            ));
            assert(m@ =~= before.with_vars(all.take(3 * (i + 1))));
        }
        s = s + 1;
        i = i + 1;
    }
    m.add_var(make_tagged("z_", v.tag.as_str()), zero(), N::infinity(), rates.shortfall_usd_per_kwh);
    assert(all.take(3 * v@.len() as int).push(shortfall_var(v@, *rates)) =~= all);
    assert(m@ =~= before.with_vars(all));
}

/// Adds the energy balances of a visit.
fn add_soc_rows<N: Num>(m: &mut Model<N>, v: &Visit<N>, rates: &PlanRates<N>, base: usize)
    requires
        v.first_slot <= v.last_slot,
        v.last_slot < usize::MAX,
        base + 3 * v@.len() <= usize::MAX,
    ensures
        final(m)@ == old(m)@.with_rows(Seq::new(v@.len(), |i: int| soc_row(v@, *rates, base as int, i))),
{
    let ghost before = m@;
    let ghost all = Seq::new(v@.len(), |i: int| soc_row(v@, *rates, base as int, i));
    let mut i: usize = 0;
    assert(m@ =~= before.with_rows(all.take(0)));
    while i <= v.last_slot - v.first_slot
        invariant
            v.first_slot <= v.last_slot,
            v.last_slot < usize::MAX,
            base + 3 * v@.len() <= usize::MAX,
            i <= v.last_slot - v.first_slot + 1,
            all == Seq::new(v@.len(), |i: int| soc_row(v@, *rates, base as int, i)),
            m@ == before.with_rows(all.take(i as int)),
        decreases v.last_slot - v.first_slot + 1 - i,
    {
        let mut terms: Vec<(VarId, N)> = Vec::new();
        terms.push((VarId(base + 3 * i + 2), one()));
        terms.push((VarId(base + 3 * i), rates.charge_efficiency.neg()));
        terms.push((VarId(base + 3 * i + 1), one::<N>().div(rates.discharge_efficiency)));
        assert(terms@ =~= seq![
            (stored(base as int, i as int), one_of::<N>()),
            (cp(base as int, i as int), rates.charge_efficiency.negated()),
            (cn(base as int, i as int), one_of::<N>().over(rates.discharge_efficiency)),
        ]);
        let rhs: N = if i > 0 {
            terms.push((VarId(base + 3 * i - 1), minus_one()));
            zero()
        } else {
            match v.start {
                Start::At(soc) => soc,
                Start::After(prev, depletion) => {
                    terms.push((prev, minus_one()));
                    depletion.neg()
                },
            }
        };
        m.add_constraint(make_label("soc_", v.tag.as_str(), v.first_slot + i), terms, Sense::Eq, rhs);
        proof {
            assert(m@.rows.last() == all[i as int]);
            assert(all.take(i + 1) =~= all.take(i as int).push(all[i as int]));
            assert(m@ =~= before.with_rows(all.take(i + 1)));
        }
        i = i + 1;
    }
    assert(all.take(all.len() as int) =~= all);
}

/// Adds the ramp bounds of a visit.
fn add_ramp_rows<N: Num>(m: &mut Model<N>, v: &Visit<N>, rates: &PlanRates<N>, base: usize)
    requires
        v.first_slot <= v.last_slot,
        v.last_slot < usize::MAX,
        base + 3 * v@.len() <= usize::MAX,
    ensures
        final(m)@ == old(m)@.with_rows(ramp_rows(v@, *rates, base as int)),
{
    let ghost before = m@;
    let ghost all = ramp_rows(v@, *rates, base as int);
    assert(m@ =~= before.with_rows(all.take(0)));
    match rates.ramp_kwh_per_slot {
        Some(q) => {
            let mut i: usize = 1;
            while i <= v.last_slot - v.first_slot
                invariant
                    v.first_slot <= v.last_slot,
                    v.last_slot < usize::MAX,
                    base + 3 * v@.len() <= usize::MAX,
                    1 <= i <= v.last_slot - v.first_slot + 1,
                    rates.ramp_kwh_per_slot == Some(q),
                    all == ramp_rows(v@, *rates, base as int),
                    m@ == before.with_rows(all.take(2 * (i - 1))),
                decreases v.last_slot - v.first_slot + 1 - i,
            {
                let mut up: Vec<(VarId, N)> = Vec::new();
                up.push((VarId(base + 3 * i), one()));
                up.push((VarId(base + 3 * i + 1), minus_one()));
                up.push((VarId(base + 3 * (i - 1)), minus_one()));
                up.push((VarId(base + 3 * (i - 1) + 1), one()));
                let mut down: Vec<(VarId, N)> = Vec::new();
                down.push((VarId(base + 3 * i), one()));
                down.push((VarId(base + 3 * i + 1), minus_one()));
                down.push((VarId(base + 3 * (i - 1)), minus_one()));
                down.push((VarId(base + 3 * (i - 1) + 1), one()));
                let ghost j = 2 * (i - 1);
                assert(j / 2 + 1 == i && (j + 1) / 2 + 1 == i && j % 2 == 0 && (j + 1) % 2 == 1);
                assert(all[j] == ramp_row(v@, base as int, q, j));
                assert(all[j + 1] == ramp_row(v@, base as int, q, j + 1));
                assert(up@ =~= all[j].terms);
                assert(down@ =~= all[j + 1].terms);
                m.add_constraint(make_label("rup_", v.tag.as_str(), i), up, Sense::Le, q);
                m.add_constraint(make_label("rdn_", v.tag.as_str(), i), down, Sense::Ge, q.neg());
                assert(all.take(2 * i) =~= all.take(j).push(all[j]).push(all[j + 1]));
                assert(m@ =~= before.with_rows(all.take(2 * i)));
                i = i + 1;
            }
        },
        None => {},
    }
    assert(all.take(all.len() as int) =~= all);
}

/// Adds a visit's block; returns where its variables start.
pub(crate) fn add_visit<N: Num>(
    m: &mut Model<N>,
    target_prefix: &str,
    v: &Visit<N>,
    rates: &PlanRates<N>,
    price: &[N],
) -> (place: Place)
    requires
        v.first_slot <= v.last_slot < price@.len(),
    ensures
        final(m)@ == with_visit(old(m)@, target_prefix@, v@, *rates, price@),
        place == (Place {
            base: old(m)@.vars.len() as usize,
            first_slot: v.first_slot,
            last_slot: v.last_slot,
        }),
        place.base == old(m)@.vars.len(),
        final(m)@.vars.len() == old(m)@.vars.len() + 3 * v@.len() + 1,
{
    let ghost before = m@;
    let base: usize = m.vars.len();
    assert(price.len() <= usize::MAX);
    add_visit_vars(m, v, rates, price);
    let end: usize = m.vars.len();
    assert(end == base + 3 * v@.len() + 1);
    add_soc_rows(m, v, rates, base);
    let mut terms: Vec<(VarId, N)> = Vec::new();
    terms.push((VarId(end - 2), one()));
    terms.push((VarId(end - 1), one()));
    assert(terms@ =~= target_row(target_prefix@, v@, base as int).terms);
    m.add_constraint(make_tagged(target_prefix, v.tag.as_str()), terms, Sense::Ge, v.needed_kwh);
    add_ramp_rows(m, v, rates, base);
    assert(m@ =~= with_visit(before, target_prefix@, v@, *rates, price@));
    Place { base, first_slot: v.first_slot, last_slot: v.last_slot }
}

/// The slots of a visit.
#[derive(Debug, Clone, Copy, PartialEq, Eq)]
pub struct Span {
    pub first_slot: usize,
    /// Inclusive.
    pub last_slot: usize,
}

/// The variables that the block of a visit takes.
pub open spec fn block_size(span: Span) -> int {
    3 * (span.last_slot - span.first_slot + 1) + 1
}

/// Where the block of visit `k` starts when the first one starts at `start`.
pub open spec fn block_base(start: int, spans: Seq<Span>, k: nat) -> int
    decreases k,
{
    if k == 0 {
        start
    } else {
        block_base(start, spans, (k - 1) as nat) + block_size(spans[k - 1])
    }
}

/// Where visit `k` stands.
pub open spec fn place_of(start: int, spans: Seq<Span>, k: int) -> Place {
    Place {
        base: block_base(start, spans, k as nat) as usize,
        first_slot: spans[k].first_slot,
        last_slot: spans[k].last_slot,
    }
}

/// Where the visits stand.
pub open spec fn places_of(start: int, spans: Seq<Span>) -> Seq<Place> {
    Seq::new(spans.len(), |k: int| place_of(start, spans, k))
}

/// The slots of each visit.
pub open spec fn spans_of<N>(visits: Seq<VisitModel<N>>) -> Seq<Span> {
    Seq::new(
        visits.len(),
        |k: int| Span { first_slot: visits[k].first_slot, last_slot: visits[k].last_slot },
    )
}

/// The program with the blocks of the first `k` visits.
pub open spec fn with_visits<N: Num>(
    p: Program<N>,
    prefix: Seq<char>,
    visits: Seq<VisitModel<N>>,
    rates: PlanRates<N>,
    price: Seq<N>,
    k: nat,
) -> Program<N>
    decreases k,
{
    if k == 0 {
        p
    } else {
        with_visit(
            with_visits(p, prefix, visits, rates, price, (k - 1) as nat),
            prefix,
            visits[k - 1],
            rates,
            price,
        )
    }
}

/// The program with the blocks of all visits.
pub open spec fn with_all_visits<N: Num>(
    p: Program<N>,
    prefix: Seq<char>,
    visits: Seq<VisitModel<N>>,
    rates: PlanRates<N>,
    price: Seq<N>,
) -> Program<N> {
    with_visits(p, prefix, visits, rates, price, visits.len())
}

// ------------------------------------------------------------ the net load

/// The terms of the net load of slot `s`: `agg` minus what the visits of the
/// slot draw, kW.
pub open spec fn agg_terms<N: Num>(agg: VarId, places: Seq<Place>, s: int, dt: N) -> Seq<(VarId, N)>
    decreases places.len(),
{
    if places.len() == 0 {
        seq![(agg, one_of::<N>())]
    } else {
        let before = agg_terms(agg, places.drop_last(), s, dt);
        let p = places.last();
        if p.first_slot <= s <= p.last_slot {
            before.push((cp(p.base as int, s - p.first_slot), minus_one_of::<N>().over(dt))).push(
                (cn(p.base as int, s - p.first_slot), one_of::<N>().over(dt)),
            )
        } else {
            before
        }
    }
}

/// Every place lies below `n` variables.
pub open spec fn are_placed(places: Seq<Place>, n: nat) -> bool {
    forall|k: int| 0 <= k < places.len() ==> is_placed(#[trigger] places[k], n)
}

/// The variables of a place lie below `n`.
pub open spec fn is_placed(p: Place, n: nat) -> bool {
    &&& p.first_slot <= p.last_slot
    &&& p.base + 3 * (p.last_slot - p.first_slot + 1) < n
}

/// The terms of the net load of slot `s`.
pub(crate) fn make_agg_terms<N: Num>(agg: VarId, places: &Vec<Place>, s: usize, dt: N) -> (terms: Vec<
    (VarId, N),
>)
    requires
        are_placed(places@, usize::MAX as nat),
    ensures
        terms@ == agg_terms(agg, places@, s as int, dt),
{
    let mut terms: Vec<(VarId, N)> = Vec::new();
    terms.push((agg, one()));
    assert(terms@ =~= seq![(agg, one_of::<N>())]);
    for k in 0..places.len()
        invariant
            are_placed(places@, usize::MAX as nat),
            terms@ == agg_terms(agg, places@.take(k as int), s as int, dt),
    {
        assert(places@.take(k + 1).drop_last() =~= places@.take(k as int));
        assert(places@.take(k + 1).last() == places@[k as int]);
        let p = places[k];
        assert(is_placed(places@[k as int], usize::MAX as nat));
        if p.first_slot <= s && s <= p.last_slot {
            let i: usize = s - p.first_slot;
            terms.push((VarId(p.base + 3 * i), minus_one::<N>().div(dt)));
            terms.push((VarId(p.base + 3 * i + 1), one::<N>().div(dt)));
        }
    }
    assert(places@.take(places@.len() as int) =~= places@);
    terms
}

/// The upper bound on the net load under the site cap.
pub open spec fn agg_bound<N: Num>(cap: Option<N>, building: N) -> N {
    match cap {
        Some(c) => c.greater(building),
        None => N::unbounded(),
    }
}

/// The upper bound on the net load under the site cap.
pub(crate) fn make_agg_bound<N: Num>(cap: Option<N>, building: N) -> (r: N)
    ensures
        r == agg_bound(cap, building),
{
    match cap {
        Some(c) => c.max(building),
        None => N::infinity(),
    }
}

/// The net-load variables of the slots from `from` on, given their building loads.
pub open spec fn agg_vars<N: Num>(from: int, building: Seq<N>, cap: Option<N>) -> Seq<VarModel<N>> {
    Seq::new(
        building.len(),
        |k: int|
            continuous(
                numbered("agg_"@, from + k),
                zero_of::<N>(),
                agg_bound(cap, building[k]),
                zero_of(),
            ),
    )
}

/// The net-load definitions of the slots from `from` on; their variables start at `base`.
pub open spec fn agg_rows<N: Num>(
    from: int,
    building: Seq<N>,
    places: Seq<Place>,
    base: int,
    dt: N,
) -> Seq<RowModel<N>> {
    Seq::new(
        building.len(),
        |k: int|
            row(
                numbered("aggdef_"@, from + k),
                agg_terms(var(base + k), places, from + k, dt),
                Sense::Eq,
                building[k],
            ),
    )
}

/// The program with the net loads of the slots from `from` on.
pub open spec fn with_agg<N: Num>(
    p: Program<N>,
    from: int,
    building: Seq<N>,
    cap: Option<N>,
    places: Seq<Place>,
    dt: N,
) -> Program<N> {
    p.with_vars(agg_vars(from, building, cap)).with_rows(
        agg_rows(from, building, places, p.vars.len() as int, dt),
    )
}

/// Adds the net loads of the slots from `from` on; returns the first variable.
pub(crate) fn add_agg<N: Num>(
    m: &mut Model<N>,
    from: usize,
    building: &Vec<N>,
    cap: Option<N>,
    places: &Vec<Place>,
    dt: N,
) -> (base: usize)
    requires
        from + building@.len() <= usize::MAX,
        are_placed(places@, usize::MAX as nat),
    ensures
        final(m)@ == with_agg(old(m)@, from as int, building@, cap, places@, dt),
        base == old(m)@.vars.len(),
        final(m)@.vars.len() == old(m)@.vars.len() + building@.len(),
{
    let ghost before = m@;
    let base: usize = m.vars.len();
    let ghost vars = agg_vars(from as int, building@, cap);
    let ghost rows = agg_rows(from as int, building@, places@, base as int, dt);
    assert(m@ =~= before.with_vars(vars.take(0)).with_rows(rows.take(0)));
    for k in 0..building.len()
        invariant
            from + building@.len() <= usize::MAX,
            are_placed(places@, usize::MAX as nat),
            base == before.vars.len(),
            vars == agg_vars(from as int, building@, cap),
            rows == agg_rows(from as int, building@, places@, base as int, dt),
            m@ == before.with_vars(vars.take(k as int)).with_rows(rows.take(k as int)),
    {
        let s: usize = from + k;
        let ub = make_agg_bound(cap, building[k]);
        let a = m.add_var(make_numbered("agg_", s), zero(), ub, zero());
        let terms = make_agg_terms(a, places, s, dt);
        m.add_constraint(make_numbered("aggdef_", s), terms, Sense::Eq, building[k]);
        assert(a == var(base + k));
        assert(vars.take(k + 1) =~= vars.take(k as int).push(vars[k as int]));
        assert(rows.take(k + 1) =~= rows.take(k as int).push(rows[k as int]));
        assert(m@ =~= before.with_vars(vars.take(k + 1)).with_rows(rows.take(k + 1)));
    }
    assert(vars.take(vars.len() as int) =~= vars);
    assert(rows.take(rows.len() as int) =~= rows);
    base
}

// ------------------------------------------------------- demand components

/// The row that keeps `bound` at or above `agg`.
pub open spec fn envelope_row<N: Num>(name: Seq<char>, bound: VarId, agg: VarId) -> RowModel<N> {
    row(name, seq![(bound, one_of::<N>()), (agg, minus_one_of::<N>())], Sense::Ge, zero_of())
}

/// Adds the row that keeps `bound` at or above `agg`.
pub(crate) fn add_envelope<N: Num>(m: &mut Model<N>, name: String, bound: VarId, agg: VarId)
    ensures
        final(m)@ == old(m)@.with_row(envelope_row(name@, bound, agg)),
{
    let mut terms: Vec<(VarId, N)> = Vec::new();
    terms.push((bound, one()));
    terms.push((agg, minus_one()));
    assert(terms@ =~= seq![(bound, one_of::<N>()), (agg, minus_one_of::<N>())]);
    m.add_constraint(name, terms, Sense::Ge, zero());
}

/// The peak envelopes of the first `n` slots from `from` on: one over all
/// slots, one over the slots of class `peak`.
pub open spec fn peak_rows<N: Num>(
    from: int,
    tou: Seq<TouClass>,
    agg_base: int,
    p_max: int,
    n: nat,
) -> Seq<RowModel<N>>
    decreases n,
{
    if n == 0 {
        Seq::empty()
    } else {
        let k = n - 1;
        let all = peak_rows::<N>(from, tou, agg_base, p_max, k as nat).push(
            envelope_row(numbered("peak_"@, from + k), var(p_max), var(agg_base + k)),
        );
        if tou[from + k] == TouClass::Peak {
            all.push(envelope_row(numbered("peaktou_"@, from + k), var(p_max + 1), var(agg_base + k)))
        } else {
            all
        }
    }
}

/// Some demand component has a price.
pub open spec fn demand_is_priced<N: Num>(rate: N, peak_rate: N) -> bool {
    zero_of::<N>().below(rate) || zero_of::<N>().below(peak_rate)
}

/// The program with both demand components over `n` slots from `from` on,
/// where one of them has a price.
pub open spec fn with_demand<N: Num>(
    p: Program<N>,
    from: int,
    n: nat,
    tou: Seq<TouClass>,
    agg_base: int,
    rate: N,
    peak_rate: N,
) -> Program<N> {
    if demand_is_priced(rate, peak_rate) {
        p.with_var(continuous("p_max"@, zero_of(), N::unbounded(), rate)).with_var(
            continuous("p_max_tou"@, zero_of(), N::unbounded(), peak_rate),
        ).with_rows(peak_rows(from, tou, agg_base, p.vars.len() as int, n))
    } else {
        p
    }
}

/// Adds both demand components, where one of them has a price.
pub(crate) fn add_demand<N: Num>(
    m: &mut Model<N>,
    from: usize,
    n: usize,
    tou: &[TouClass],
    agg_base: usize,
    rate: N,
    peak_rate: N,
) -> (priced: bool)
    requires
        from + n <= tou@.len(),
        tou@.len() <= usize::MAX,
        agg_base + n <= usize::MAX,
    ensures
        final(m)@ == with_demand(
            old(m)@,
            from as int,
            n as nat,
            tou@,
            agg_base as int,
            rate,
            peak_rate,
        ),
        priced == demand_is_priced(rate, peak_rate),
        priced ==> final(m)@.vars.len() == old(m)@.vars.len() + 2,
        !priced ==> final(m)@ == old(m)@,
{
    let ghost before = m@;
    if zero::<N>().lt(rate) || zero::<N>().lt(peak_rate) {
        let p_max = m.add_var("p_max".to_owned(), zero(), N::infinity(), rate);
        let p_max_tou = m.add_var("p_max_tou".to_owned(), zero(), N::infinity(), peak_rate);
        let ghost here = m@;
        let ghost top = before.vars.len() as int;
        assert(m@ =~= here.with_rows(peak_rows(from as int, tou@, agg_base as int, top, 0)));
        for k in 0..n
            invariant
                from + n <= tou@.len(),
                tou@.len() <= usize::MAX,
                agg_base + n <= usize::MAX,
                p_max == var(top),
                p_max_tou == var(top + 1),
                m@ == here.with_rows(peak_rows(from as int, tou@, agg_base as int, top, k as nat)),
        {
            let s: usize = from + k;
            let a = VarId(agg_base + k);
            add_envelope(m, make_numbered("peak_", s), p_max, a);
            if tou[s] == TouClass::Peak {
                add_envelope(m, make_numbered("peaktou_", s), p_max_tou, a);
            }
            assert(m@ =~= here.with_rows(
                peak_rows(from as int, tou@, agg_base as int, top, (k + 1) as nat),
            ));
        }
        assert(m@ =~= with_demand(before, from as int, n as nat, tou@, agg_base as int, rate, peak_rate));
        true
    } else {
        false
    }
}

// ---------------------------------------------------------- demand response

/// The overflow definition of a covered slot: `ov >= (agg - level) * dt`.
pub open spec fn overflow_row<N: Num>(
    name: Seq<char>,
    ov: VarId,
    agg: VarId,
    level: Option<VarId>,
    fsl_kw: N,
    dt: N,
) -> RowModel<N> {
    let terms = seq![(ov, one_of::<N>()), (agg, dt.negated())];
    match level {
        Some(f) => row(name, terms.push((f, dt)), Sense::Ge, zero_of()),
        None => row(name, terms, Sense::Ge, dt.negated().times(fsl_kw)),
    }
}

/// The name of an overflow item of event `ei` in slot `s`.
pub open spec fn event_label(prefix: Seq<char>, ei: int, s: int) -> Seq<char> {
    prefix + decimal(ei as nat) + "_"@ + decimal(s as nat)
}

fn make_event_label(prefix: &str, ei: usize, s: usize) -> (r: String)
    ensures
        r@ == event_label(prefix@, ei as int, s as int),
{
    let mut out = prefix.to_owned();
    push_usize(&mut out, ei);
    out.append("_");
    push_usize(&mut out, s);
    out
}

/// The program with the overflow of event `ei` over the first `n` slots from
/// `from` on, against the variable level or the event's own.
pub open spec fn with_overflow<N: Num>(
    p: Program<N>,
    ei: int,
    event: DrEvent<N>,
    level: Option<VarId>,
    from: int,
    agg_base: int,
    dt: N,
    n: nat,
) -> Program<N>
    decreases n,
{
    if n == 0 {
        p
    } else {
        let before = with_overflow(p, ei, event, level, from, agg_base, dt, (n - 1) as nat);
        let s = from + n - 1;
        if event.covers(s) {
            before.with_var(
                continuous(
                    event_label("ov"@, ei, s),
                    zero_of(),
                    N::unbounded(),
                    event.penalty_usd_per_kwh,
                ),
            ).with_row(
                overflow_row(
                    event_label("ovdef"@, ei, s),
                    var(before.vars.len() as int),
                    var(agg_base + n - 1),
                    level,
                    event.fsl_kw,
                    dt,
                ),
            )
        } else {
            before
        }
    }
}

/// Adds the overflow of one event.
fn add_overflow<N: Num>(
    m: &mut Model<N>,
    ei: usize,
    event: &DrEvent<N>,
    level: Option<VarId>,
    from: usize,
    n: usize,
    agg_base: usize,
    dt: N,
)
    requires
        from + n <= usize::MAX,
        agg_base + n <= usize::MAX,
    ensures
        final(m)@ == with_overflow(
            old(m)@,
            ei as int,
            *event,
            level,
            from as int,
            agg_base as int,
            dt,
            n as nat,
        ),
{
    let ghost before = m@;
    for k in 0..n
        invariant
            from + n <= usize::MAX,
            agg_base + n <= usize::MAX,
            m@ == with_overflow(
                before,
                ei as int,
                *event,
                level,
                from as int,
                agg_base as int,
                dt,
                k as nat,
            ),
    {
        let s: usize = from + k;
        if event.contains(s) {
            let ov = m.add_var(
                make_event_label("ov", ei, s),
                zero(),
                N::infinity(),
                event.penalty_usd_per_kwh,
            );
            let mut terms: Vec<(VarId, N)> = Vec::new();
            terms.push((ov, one()));
            terms.push((VarId(agg_base + k), dt.neg()));
            assert(terms@ =~= seq![(ov, one_of::<N>()), (var(agg_base + k), dt.negated())]);
            let rhs: N = match level {
                Some(f) => {
                    terms.push((f, dt));
                    zero()
                },
                None => dt.neg().mul(event.fsl_kw),
            };
            m.add_constraint(make_event_label("ovdef", ei, s), terms, Sense::Ge, rhs);
        }
    }
}

/// The program before the overflow of event `ei`: with the level variable where
/// the levels are decided by the plan.
pub open spec fn with_level<N: Num>(
    p: Program<N>,
    ei: int,
    event: DrEvent<N>,
    bounds: Option<Seq<N>>,
) -> Program<N> {
    match bounds {
        Some(b) => p.with_var(
            continuous(numbered("fsl_"@, ei), zero_of(), b[ei], event.incentive_usd_per_kw),
        ),
        None => p,
    }
}

/// The level variable of an event laid out on `p`, where the levels are decided
/// by the plan.
pub open spec fn level_var<N: Num>(p: Program<N>, bounds: Option<Seq<N>>) -> Option<VarId> {
    match bounds {
        Some(b) => Some(var(p.vars.len() as int)),
        None => None,
    }
}

/// The program with the terms of the first `k` events over `n` slots from
/// `from` on. `bounds` are the upper bounds of the levels where the plan
/// decides them.
pub open spec fn with_events<N: Num>(
    p: Program<N>,
    events: Seq<DrEvent<N>>,
    bounds: Option<Seq<N>>,
    from: int,
    agg_base: int,
    dt: N,
    n: nat,
    k: nat,
) -> Program<N>
    decreases k,
{
    if k == 0 {
        p
    } else {
        let before = with_events(p, events, bounds, from, agg_base, dt, n, (k - 1) as nat);
        with_overflow(
            with_level(before, k - 1, events[k - 1], bounds),
            k - 1,
            events[k - 1],
            level_var(before, bounds),
            from,
            agg_base,
            dt,
            n,
        )
    }
}

/// The level variables of the events, in input order.
pub open spec fn level_vars<N: Num>(
    p: Program<N>,
    events: Seq<DrEvent<N>>,
    bounds: Option<Seq<N>>,
    from: int,
    agg_base: int,
    dt: N,
    n: nat,
) -> Seq<Option<VarId>> {
    Seq::new(
        events.len(),
        |k: int| level_var(with_events(p, events, bounds, from, agg_base, dt, n, k as nat), bounds),
    )
}

/// Adds the terms of all events; returns their level variables.
pub(crate) fn add_events<N: Num>(
    m: &mut Model<N>,
    events: &[DrEvent<N>],
    bounds: Option<&Vec<N>>,
    from: usize,
    n: usize,
    agg_base: usize,
    dt: N,
) -> (levels: Vec<Option<VarId>>)
    requires
        from + n <= usize::MAX,
        agg_base + n <= usize::MAX,
        bounds matches Some(b) ==> b@.len() == events@.len(),
    ensures
        ({
            let b = match bounds {
                Some(b) => Some(b@),
                None => None,
            };
            &&& final(m)@ == with_events(
                old(m)@,
                events@,
                b,
                from as int,
                agg_base as int,
                dt,
                n as nat,
                events@.len(),
            )
            &&& levels@ == level_vars(old(m)@, events@, b, from as int, agg_base as int, dt, n as nat)
        }),
{
    let ghost before = m@;
    let ghost b: Option<Seq<N>> = match bounds {
        Some(b) => Some(b@),
        None => None,
    };
    let mut levels: Vec<Option<VarId>> = Vec::new();
    let ghost all = level_vars(before, events@, b, from as int, agg_base as int, dt, n as nat);
    for k in 0..events.len()
        invariant
            from + n <= usize::MAX,
            agg_base + n <= usize::MAX,
            bounds matches Some(b) ==> b@.len() == events@.len(),
            b == (match bounds {
                Some(b) => Some(b@),
                None => None,
            }),
            all == level_vars(before, events@, b, from as int, agg_base as int, dt, n as nat),
            m@ == with_events(
                before,
                events@,
                b,
                from as int,
                agg_base as int,
                dt,
                n as nat,
                k as nat,
            ),
            levels@ == all.take(k as int),
    {
        let ghost here = m@;
        let event = events[k];
        let level: Option<VarId> = match bounds {
            Some(list) => Some(
                m.add_var(make_numbered("fsl_", k), zero(), list[k], event.incentive_usd_per_kw),
            ),
            None => None,
        };
        assert(level == level_var(here, b));
        add_overflow(m, k, &event, level, from, n, agg_base, dt);
        levels.push(level);
        assert(levels@ =~= all.take(k + 1));
    }
    assert(all.take(all.len() as int) =~= all);
    levels
}

// ------------------------------------------------------------ well-formedness

pub(crate) proof fn lemma_more_vars<N: Num>(p: Program<N>, more: Seq<VarModel<N>>)
    requires
        p.well_formed(),
    ensures
        p.with_vars(more).well_formed(),
{
    let q = p.with_vars(more);
    assert forall|i: int| 0 <= i < q.rows.len() implies (#[trigger] q.rows[i]).fits(q.vars.len()) by {
        assert(p.rows[i].fits(p.vars.len()));
    }
}

pub(crate) proof fn lemma_more_rows<N: Num>(p: Program<N>, more: Seq<RowModel<N>>)
    requires
        p.well_formed(),
        p.vars.len() > 0 || more.len() == 0,
        forall|i: int| 0 <= i < more.len() ==> (#[trigger] more[i]).fits(p.vars.len()),
    ensures
        p.with_rows(more).well_formed(),
{
    let q = p.with_rows(more);
    assert forall|i: int| 0 <= i < q.rows.len() implies (#[trigger] q.rows[i]).fits(q.vars.len()) by {
        if i < p.rows.len() {
            assert(q.rows[i] == p.rows[i]);
        } else {
            assert(q.rows[i] == more[i - p.rows.len()]);
        }
    }
}

/// The start of a visit speaks of the first `n` variables only.
pub open spec fn start_fits<N>(start: Start<N>, n: nat) -> bool {
    start matches Start::After(prev, _) ==> prev.0 < n
}

pub(crate) proof fn lemma_with_visit<N: Num>(
    p: Program<N>,
    prefix: Seq<char>,
    v: VisitModel<N>,
    rates: PlanRates<N>,
    price: Seq<N>,
)
    requires
        p.well_formed(),
        v.first_slot <= v.last_slot,
        start_fits(v.start, p.vars.len()),
        p.vars.len() + 3 * v.len() + 1 <= usize::MAX,
    ensures
        with_visit(p, prefix, v, rates, price).well_formed(),
        with_visit(p, prefix, v, rates, price).vars.len() == p.vars.len() + 3 * v.len() + 1,
{
    let vars = visit_vars(v, rates, price);
    let base = p.vars.len() as int;
    let n = (p.vars.len() + vars.len()) as nat;
    lemma_more_vars(p, vars);
    let soc = Seq::new(v.len(), |i: int| soc_row(v, rates, base, i));
    let rows = visit_rows(prefix, v, rates, base);
    assert forall|i: int| 0 <= i < rows.len() implies (#[trigger] rows[i]).fits(n) by {
        if i < v.len() {
            let r = soc_row(v, rates, base, i);
            assert(rows[i] == r);
            assert forall|j: int| 0 <= j < r.terms.len() implies (#[trigger] r.terms[j]).0.0 < n by {
                let all = seq![
                    (stored(base, i), one_of::<N>()),
                    (cp(base, i), rates.charge_efficiency.negated()),
                    (cn(base, i), one_of::<N>().over(rates.discharge_efficiency)),
                ];
                if j < 3 {
                    assert(r.terms[j] == all[j]);
                }
            }
        } else if i == v.len() {
            let r = target_row(prefix, v, base);
            assert(rows[i] == r);
            assert forall|j: int| 0 <= j < r.terms.len() implies (#[trigger] r.terms[j]).0.0 < n by {}
        } else {
            let j0 = i - v.len() - 1;
            assert(rows[i] == ramp_rows(v, rates, base)[j0]);
            let r = ramp_row(v, base, rates.ramp_kwh_per_slot->0, j0);
            assert(rows[i] == r);
            assert forall|j: int| 0 <= j < r.terms.len() implies (#[trigger] r.terms[j]).0.0 < n by {}
        }
    }
    lemma_more_rows(p.with_vars(vars), rows);
}

pub(crate) proof fn lemma_block_base(start: int, spans: Seq<Span>, j: nat, k: nat)
    requires
        j <= k,
        forall|i: int| 0 <= i < k ==> (#[trigger] spans[i]).first_slot <= spans[i].last_slot,
    ensures
        block_base(start, spans, j) + 4 * (k - j) <= block_base(start, spans, k),
    decreases k,
{
    if j < k {
        lemma_block_base(start, spans, j, (k - 1) as nat);
        assert(spans[k - 1].first_slot <= spans[k - 1].last_slot);
    }
}

pub(crate) proof fn lemma_with_visits<N: Num>(
    p: Program<N>,
    prefix: Seq<char>,
    visits: Seq<VisitModel<N>>,
    rates: PlanRates<N>,
    price: Seq<N>,
    k: nat,
)
    requires
        p.well_formed(),
        k <= visits.len(),
        forall|i: int| 0 <= i < k ==> (#[trigger] visits[i]).first_slot <= visits[i].last_slot,
        forall|i: int|
            0 <= i < k ==> start_fits(
                (#[trigger] visits[i]).start,
                block_base(p.vars.len() as int, spans_of(visits), i as nat) as nat,
            ),
        block_base(p.vars.len() as int, spans_of(visits), k) <= usize::MAX,
    ensures
        with_visits(p, prefix, visits, rates, price, k).well_formed(),
        with_visits(p, prefix, visits, rates, price, k).vars.len() == block_base(
            p.vars.len() as int,
            spans_of(visits),
            k,
        ),
    decreases k,
{
    if k > 0 {
        let spans = spans_of(visits);
        assert(visits[k - 1].first_slot <= visits[k - 1].last_slot);
        assert(spans[k - 1] == (Span {
            first_slot: visits[k - 1].first_slot,
            last_slot: visits[k - 1].last_slot,
        }));
        lemma_with_visits(p, prefix, visits, rates, price, (k - 1) as nat);
        lemma_with_visit(
            with_visits(p, prefix, visits, rates, price, (k - 1) as nat),
            prefix,
            visits[k - 1],
            rates,
            price,
        );
    }
}

/// The places of the first `k` visits lie below what their blocks take.
pub(crate) proof fn lemma_places(start: int, spans: Seq<Span>, k: nat)
    requires
        0 <= start,
        k <= spans.len(),
        forall|i: int| 0 <= i < k ==> (#[trigger] spans[i]).first_slot <= spans[i].last_slot,
        block_base(start, spans, k) <= usize::MAX,
    ensures
        are_placed(places_of(start, spans).take(k as int), block_base(start, spans, k) as nat),
        forall|i: int|
            0 <= i < k ==> 0 <= #[trigger] block_base(start, spans, i as nat) && block_base(
                start,
                spans,
                i as nat,
            ) + block_size(spans[i]) <= block_base(start, spans, k),
{
    let all = places_of(start, spans).take(k as int);
    assert forall|i: int| 0 <= i < k implies 0 <= #[trigger] block_base(start, spans, i as nat)
        && block_base(start, spans, i as nat) + block_size(spans[i]) <= block_base(start, spans, k) by {
        assert(spans[i].first_slot <= spans[i].last_slot);
        lemma_block_base(start, spans, 0, i as nat);
        lemma_block_base(start, spans, (i + 1) as nat, k);
    }
    assert forall|i: int| 0 <= i < all.len() implies is_placed(
        #[trigger] all[i],
        block_base(start, spans, k) as nat,
    ) by {
        assert(spans[i].first_slot <= spans[i].last_slot);
        assert(0 <= block_base(start, spans, i as nat));
    }
}

pub(crate) proof fn lemma_agg_terms<N: Num>(agg: VarId, places: Seq<Place>, s: int, dt: N, n: nat)
    requires
        agg.0 < n,
        n <= usize::MAX,
        are_placed(places, n),
    ensures
        forall|j: int|
            0 <= j < agg_terms(agg, places, s, dt).len() ==> (#[trigger] agg_terms(
                agg,
                places,
                s,
                dt,
            )[j]).0.0 < n,
    decreases places.len(),
{
    if places.len() > 0 {
        let rest = places.drop_last();
        assert(are_placed(rest, n)) by {
            assert forall|k: int| 0 <= k < rest.len() implies is_placed(#[trigger] rest[k], n) by {
                assert(is_placed(places[k], n));
            }
        }
        lemma_agg_terms(agg, rest, s, dt, n);
        assert(is_placed(places[places.len() - 1], n));
        let before = agg_terms(agg, rest, s, dt);
        let all = agg_terms(agg, places, s, dt);
        assert forall|j: int| 0 <= j < all.len() implies (#[trigger] all[j]).0.0 < n by {
            if j < before.len() {
                assert(all[j] == before[j]);
            }
        }
    }
}

pub(crate) proof fn lemma_placed_later(places: Seq<Place>, m: nat, n: nat)
    requires
        are_placed(places, m),
        m <= n,
    ensures
        are_placed(places, n),
{
    assert forall|k: int| 0 <= k < places.len() implies is_placed(#[trigger] places[k], n) by {
        assert(is_placed(places[k], m));
    }
}

pub(crate) proof fn lemma_with_agg<N: Num>(
    p: Program<N>,
    from: int,
    building: Seq<N>,
    cap: Option<N>,
    places: Seq<Place>,
    dt: N,
)
    requires
        p.well_formed(),
        are_placed(places, p.vars.len()),
        p.vars.len() + building.len() <= usize::MAX,
    ensures
        with_agg(p, from, building, cap, places, dt).well_formed(),
        with_agg(p, from, building, cap, places, dt).vars.len() == p.vars.len() + building.len(),
{
    let vars = agg_vars(from, building, cap);
    let base = p.vars.len() as int;
    let n = p.vars.len() + building.len();
    lemma_more_vars(p, vars);
    lemma_placed_later(places, p.vars.len(), n);
    let rows = agg_rows(from, building, places, base, dt);
    assert forall|i: int| 0 <= i < rows.len() implies (#[trigger] rows[i]).fits(n) by {
        lemma_agg_terms(var(base + i), places, from + i, dt, n);
    }
    lemma_more_rows(p.with_vars(vars), rows);
}

proof fn lemma_peak_rows<N: Num>(
    from: int,
    tou: Seq<TouClass>,
    agg_base: int,
    p_max: int,
    n: nat,
    len: nat,
)
    requires
        0 <= agg_base,
        agg_base + n <= p_max,
        p_max + 2 <= len <= usize::MAX,
    ensures
        forall|i: int|
            0 <= i < peak_rows::<N>(from, tou, agg_base, p_max, n).len() ==> (#[trigger] peak_rows::<N>(
                from,
                tou,
                agg_base,
                p_max,
                n,
            )[i]).fits(len),
    decreases n,
{
    if n > 0 {
        lemma_peak_rows::<N>(from, tou, agg_base, p_max, (n - 1) as nat, len);
        let before = peak_rows::<N>(from, tou, agg_base, p_max, (n - 1) as nat);
        let all = peak_rows::<N>(from, tou, agg_base, p_max, n);
        assert forall|i: int| 0 <= i < all.len() implies (#[trigger] all[i]).fits(len) by {
            if i < before.len() {
                assert(all[i] == before[i]);
            }
        }
    }
}

pub(crate) proof fn lemma_with_demand<N: Num>(
    p: Program<N>,
    from: int,
    n: nat,
    tou: Seq<TouClass>,
    agg_base: int,
    rate: N,
    peak_rate: N,
)
    requires
        p.well_formed(),
        0 <= agg_base,
        agg_base + n <= p.vars.len(),
        p.vars.len() + 2 <= usize::MAX,
    ensures
        with_demand(p, from, n, tou, agg_base, rate, peak_rate).well_formed(),
        with_demand(p, from, n, tou, agg_base, rate, peak_rate).vars.len() >= p.vars.len(),
{
    if demand_is_priced(rate, peak_rate) {
        let a = continuous("p_max"@, zero_of(), N::unbounded(), rate);
        let b = continuous("p_max_tou"@, zero_of(), N::unbounded(), peak_rate);
        let q = p.with_vars(seq![a, b]);
        assert(p.with_var(a).with_var(b) =~= q);
        lemma_more_vars(p, seq![a, b]);
        lemma_peak_rows::<N>(from, tou, agg_base, p.vars.len() as int, n, q.vars.len());
        lemma_more_rows(q, peak_rows(from, tou, agg_base, p.vars.len() as int, n));
    }
}

pub(crate) proof fn lemma_with_overflow<N: Num>(
    p: Program<N>,
    ei: int,
    event: DrEvent<N>,
    level: Option<VarId>,
    from: int,
    agg_base: int,
    dt: N,
    n: nat,
)
    requires
        p.well_formed(),
        0 <= agg_base,
        agg_base + n <= p.vars.len(),
        level matches Some(f) ==> f.0 < p.vars.len(),
        with_overflow(p, ei, event, level, from, agg_base, dt, n).vars.len() <= usize::MAX,
    ensures
        with_overflow(p, ei, event, level, from, agg_base, dt, n).well_formed(),
        with_overflow(p, ei, event, level, from, agg_base, dt, n).vars.len() >= p.vars.len(),
    decreases n,
{
    if n > 0 {
        let before = with_overflow(p, ei, event, level, from, agg_base, dt, (n - 1) as nat);
        lemma_with_overflow(p, ei, event, level, from, agg_base, dt, (n - 1) as nat);
        let s = from + n - 1;
        if event.covers(s) {
            let v = continuous(
                event_label("ov"@, ei, s),
                zero_of(),
                N::unbounded(),
                event.penalty_usd_per_kwh,
            );
            let r = overflow_row(
                event_label("ovdef"@, ei, s),
                var(before.vars.len() as int),
                var(agg_base + n - 1),
                level,
                event.fsl_kw,
                dt,
            );
            let q = before.with_vars(seq![v]);
            assert(before.with_var(v) =~= q);
            lemma_more_vars(before, seq![v]);
            assert(r.fits(q.vars.len())) by {
                assert forall|j: int| 0 <= j < r.terms.len() implies (#[trigger] r.terms[j]).0.0
                    < q.vars.len() by {
                    let two = seq![
                        (var(before.vars.len() as int), one_of::<N>()),
                        (var(agg_base + n - 1), dt.negated()),
                    ];
                    if j < 2 {
                        assert(r.terms[j] == two[j]);
                    }
                }
            }
            assert(q.with_row(r) =~= q.with_rows(seq![r]));
            lemma_more_rows(q, seq![r]);
        }
    }
}

/// More slots never need fewer variables.
proof fn lemma_overflow_grows<N: Num>(
    p: Program<N>,
    ei: int,
    event: DrEvent<N>,
    level: Option<VarId>,
    from: int,
    agg_base: int,
    dt: N,
    n: nat,
)
    ensures
        with_overflow(p, ei, event, level, from, agg_base, dt, n).vars.len() >= p.vars.len(),
    decreases n,
{
    if n > 0 {
        lemma_overflow_grows(p, ei, event, level, from, agg_base, dt, (n - 1) as nat);
    }
}

pub(crate) proof fn lemma_with_events<N: Num>(
    p: Program<N>,
    events: Seq<DrEvent<N>>,
    bounds: Option<Seq<N>>,
    from: int,
    agg_base: int,
    dt: N,
    n: nat,
    k: nat,
)
    requires
        p.well_formed(),
        0 <= agg_base,
        agg_base + n <= p.vars.len(),
        with_events(p, events, bounds, from, agg_base, dt, n, k).vars.len() <= usize::MAX,
    ensures
        with_events(p, events, bounds, from, agg_base, dt, n, k).well_formed(),
        with_events(p, events, bounds, from, agg_base, dt, n, k).vars.len() >= p.vars.len(),
        forall|j: int|
            0 <= j < k && bounds is Some ==> (#[trigger] with_events(
                p,
                events,
                bounds,
                from,
                agg_base,
                dt,
                n,
                j as nat,
            )).vars.len() < with_events(p, events, bounds, from, agg_base, dt, n, k).vars.len(),
    decreases k,
{
    if k > 0 {
        let before = with_events(p, events, bounds, from, agg_base, dt, n, (k - 1) as nat);
        let mid = with_level(before, k - 1, events[k - 1], bounds);
        let level = level_var(before, bounds);
        lemma_overflow_grows(mid, k - 1, events[k - 1], level, from, agg_base, dt, n);
        lemma_with_events(p, events, bounds, from, agg_base, dt, n, (k - 1) as nat);
        match bounds {
            Some(b) => {
                let v = continuous(
                    numbered("fsl_"@, k - 1),
                    zero_of(),
                    b[k - 1],
                    events[k - 1].incentive_usd_per_kw,
                );
                assert(mid =~= before.with_vars(seq![v]));
                lemma_more_vars(before, seq![v]);
            },
            None => {},
        }
        lemma_with_overflow(mid, k - 1, events[k - 1], level, from, agg_base, dt, n);
    }
}

} // verus!
