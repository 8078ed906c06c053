//! What the points of the planning programs mean: which reals satisfy a program, what
//! they cost, and that this is the physics and the tariff of what was planned.

use vstd::prelude::*;

use crate::milp::{continuous, var, Program, RowModel, Sense, VarId, VarModel};
use crate::num::{minus_one_of, one_of, zero_of, Num};
use crate::policy::formulation::{
    agg_bound, agg_rows, agg_terms, agg_vars, block_base, block_size, cn, cp, demand_is_priced, envelope_row,
    event_label, level_var, numbered, overflow_row, peak_rows, ramp_row, ramp_rows, shortfall_var, soc_row, spans_of,
    stored, target_row, visit_rows, visit_var, visit_vars, with_agg, with_demand, with_events, with_level,
    with_overflow, with_visit, with_visits, Place, PlanRates, Span, Start, VisitModel,
};
use crate::rounding::{
    fits, has_infinity, has_measures, lemma_closer_fits, lemma_compare, lemma_constants, lemma_finite, lemma_fitting,
    lemma_minus, lemma_negated, lemma_over, rounds_toward_zero,
};
use crate::scenario::{DrEvent, TouClass};

verus! {

// ------------------------------------------------------------------- points

/// A linear expression at a point.
pub open spec fn terms_at<N>(value: spec_fn(N) -> real, terms: Seq<(VarId, N)>, x: Seq<real>) -> real
    decreases terms.len(),
{
    if terms.len() == 0 {
        0real
    } else {
        terms_at(value, terms.drop_last(), x) + value(terms.last().1) * x[terms.last().0.0 as int]
    }
}

/// A row holds at a point.
pub open spec fn holds<N>(value: spec_fn(N) -> real, r: RowModel<N>, x: Seq<real>) -> bool {
    let left = terms_at(value, r.terms, x);
    match r.sense {
        Sense::Le => left <= value(r.rhs),
        Sense::Ge => value(r.rhs) <= left,
        Sense::Eq => left == value(r.rhs),
    }
}

/// `y` is not above a bound, where the bound is finite.
pub open spec fn is_upto<N: Num>(value: spec_fn(N) -> real, y: real, bound: N) -> bool {
    bound.finite() ==> y <= value(bound)
}

/// `y` is not below a bound, where the bound is finite.
pub open spec fn is_from<N: Num>(value: spec_fn(N) -> real, y: real, bound: N) -> bool {
    bound.finite() ==> value(bound) <= y
}

/// A value lies within the bounds of its variable.
pub open spec fn is_within<N: Num>(value: spec_fn(N) -> real, v: VarModel<N>, y: real) -> bool {
    is_from(value, y, v.lb) && is_upto(value, y, v.ub)
}

/// A point satisfies a program: the bounds of its variables and all its rows.
#[verifier::opaque]
pub open spec fn satisfies<N: Num>(value: spec_fn(N) -> real, p: Program<N>, x: Seq<real>) -> bool {
    &&& p.vars.len() <= x.len()
    &&& forall|i: int| 0 <= i < p.vars.len() ==> is_within(value, #[trigger] p.vars[i], x[i])
    &&& forall|i: int| 0 <= i < p.rows.len() ==> holds(value, #[trigger] p.rows[i], x)
}

/// What variables that start at `at` cost at a point.
pub open spec fn priced<N>(value: spec_fn(N) -> real, vars: Seq<VarModel<N>>, x: Seq<real>, at: int) -> real
    decreases vars.len(),
{
    if vars.len() == 0 {
        0real
    } else {
        priced(value, vars.drop_last(), x, at) + value(vars.last().obj) * x[at + vars.len() - 1]
    }
}

/// The objective of a program at a point.
pub open spec fn cost_at<N>(value: spec_fn(N) -> real, p: Program<N>, x: Seq<real>) -> real {
    priced(value, p.vars, x, 0) + value(p.obj_constant)
}

/// All of `more` lie within their bounds, from variable `at` on.
pub open spec fn are_within<N: Num>(
    value: spec_fn(N) -> real,
    more: Seq<VarModel<N>>,
    x: Seq<real>,
    at: int,
) -> bool {
    forall|j: int| 0 <= j < more.len() ==> is_within(value, #[trigger] more[j], x[at + j])
}

/// All of `more` hold.
pub open spec fn all_hold<N>(value: spec_fn(N) -> real, more: Seq<RowModel<N>>, x: Seq<real>) -> bool {
    forall|j: int| 0 <= j < more.len() ==> holds(value, #[trigger] more[j], x)
}

pub(crate) proof fn lemma_empty<N: Num>(value: spec_fn(N) -> real, unit: real, x: Seq<real>)
    requires
        rounds_toward_zero(value, unit),
    ensures
        satisfies(value, Program::<N>::empty(), x),
        cost_at(value, Program::<N>::empty(), x) == 0real,
{
    reveal(satisfies);
    lemma_constants(value, unit);
}

/// A point that satisfies a program has its variables.
pub(crate) proof fn lemma_long_enough<N: Num>(value: spec_fn(N) -> real, p: Program<N>, x: Seq<real>)
    ensures
        satisfies(value, p, x) ==> p.vars.len() <= x.len(),
{
    reveal(satisfies);
}

/// What one variable costs.
pub(crate) proof fn lemma_priced_one<N>(value: spec_fn(N) -> real, v: VarModel<N>, x: Seq<real>, at: int)
    ensures
        priced(value, seq![v], x, at) == value(v.obj) * x[at],
{
    let none = Seq::<VarModel<N>>::empty();
    assert(seq![v].drop_last() =~= none);
    assert(priced(value, none, x, at) == 0real);
    assert(at + seq![v].len() - 1 == at);
}

/// One variable lies within its bounds.
pub(crate) proof fn lemma_within_one<N: Num>(value: spec_fn(N) -> real, v: VarModel<N>, x: Seq<real>, at: int)
    ensures
        are_within(value, seq![v], x, at) <==> is_within(value, v, x[at]),
{
    assert(seq![v][0] == v);
    if are_within(value, seq![v], x, at) {
        assert(is_within(value, seq![v][0], x[at + 0]));
    }
}

/// One row holds.
pub(crate) proof fn lemma_holds_one<N>(value: spec_fn(N) -> real, r: RowModel<N>, x: Seq<real>)
    ensures
        all_hold(value, seq![r], x) <==> holds(value, r, x),
{
    assert(seq![r][0] == r);
    if all_hold(value, seq![r], x) {
        assert(holds(value, seq![r][0], x));
    }
}

pub(crate) proof fn lemma_priced_join<N: Num>(
    value: spec_fn(N) -> real,
    a: Seq<VarModel<N>>,
    b: Seq<VarModel<N>>,
    x: Seq<real>,
    at: int,
)
    ensures
        priced(value, a + b, x, at) == priced(value, a, x, at) + priced(value, b, x, at + a.len()),
    decreases b.len(),
{
    if b.len() == 0 {
        assert(a + b =~= a);
    } else {
        lemma_priced_join(value, a, b.drop_last(), x, at);
        assert((a + b).drop_last() =~= a + b.drop_last());
        assert((a + b).last() == b.last());
    }
}

/// More variables and rows ask for themselves, and cost what they cost.
pub(crate) proof fn lemma_extended<N: Num>(
    value: spec_fn(N) -> real,
    p: Program<N>,
    vars: Seq<VarModel<N>>,
    rows: Seq<RowModel<N>>,
    x: Seq<real>,
)
    ensures
        ({
            let q = p.with_vars(vars).with_rows(rows);
            let at = p.vars.len() as int;
            &&& satisfies(value, q, x) <==> satisfies(value, p, x) && at + vars.len() <= x.len() && are_within(
                value,
                vars,
                x,
                at,
            ) && all_hold(value, rows, x)
            &&& cost_at(value, q, x) == cost_at(value, p, x) + priced(value, vars, x, at)
        }),
{
    reveal(satisfies);
    let q = p.with_vars(vars).with_rows(rows);
    let at = p.vars.len() as int;
    if satisfies(value, q, x) {
        assert forall|i: int| 0 <= i < p.vars.len() implies is_within(value, #[trigger] p.vars[i], x[i]) by {
            assert(q.vars[i] == p.vars[i]);
        }
        assert forall|i: int| 0 <= i < p.rows.len() implies holds(value, #[trigger] p.rows[i], x) by {
            assert(q.rows[i] == p.rows[i]);
        }
        assert forall|j: int| 0 <= j < vars.len() implies is_within(value, #[trigger] vars[j], x[at + j]) by {
            assert(q.vars[at + j] == vars[j]);
        }
        assert forall|j: int| 0 <= j < rows.len() implies holds(value, #[trigger] rows[j], x) by {
            assert(q.rows[p.rows.len() + j] == rows[j]);
        }
    }
    if satisfies(value, p, x) && at + vars.len() <= x.len() && are_within(value, vars, x, at) && all_hold(
        value,
        rows,
        x,
    ) {
        assert forall|i: int| 0 <= i < q.vars.len() implies is_within(value, #[trigger] q.vars[i], x[i]) by {
            if i < at {
                assert(q.vars[i] == p.vars[i]);
            } else {
                assert(q.vars[i] == vars[i - at]);
            }
        }
        assert forall|i: int| 0 <= i < q.rows.len() implies holds(value, #[trigger] q.rows[i], x) by {
            if i < p.rows.len() {
                assert(q.rows[i] == p.rows[i]);
            } else {
                assert(q.rows[i] == rows[i - p.rows.len()]);
            }
        }
    }
    lemma_priced_join(value, p.vars, vars, x, 0);
}

pub(crate) proof fn lemma_push<N>(value: spec_fn(N) -> real, terms: Seq<(VarId, N)>, t: (VarId, N), x: Seq<real>)
    ensures
        terms_at(value, terms.push(t), x) == terms_at(value, terms, x) + value(t.1) * x[t.0.0 as int],
{
    assert(terms.push(t).drop_last() =~= terms);
}

pub(crate) proof fn lemma_two<N>(value: spec_fn(N) -> real, a: (VarId, N), b: (VarId, N), x: Seq<real>)
    ensures
        terms_at(value, seq![a, b], x) == value(a.1) * x[a.0.0 as int] + value(b.1) * x[b.0.0 as int],
{
    let none = Seq::<(VarId, N)>::empty();
    lemma_push(value, none, a, x);
    lemma_push(value, none.push(a), b, x);
    assert(seq![a, b] =~= none.push(a).push(b));
}

pub(crate) proof fn lemma_three<N>(
    value: spec_fn(N) -> real,
    a: (VarId, N),
    b: (VarId, N),
    c: (VarId, N),
    x: Seq<real>,
)
    ensures
        terms_at(value, seq![a, b, c], x) == value(a.1) * x[a.0.0 as int] + value(b.1) * x[b.0.0 as int] + value(
            c.1,
        ) * x[c.0.0 as int],
{
    lemma_two(value, a, b, x);
    lemma_push(value, seq![a, b], c, x);
    assert(seq![a, b, c] =~= seq![a, b].push(c));
}

/// The constants of the rows.
pub(crate) proof fn lemma_ones<N: Num>(value: spec_fn(N) -> real, unit: real)
    requires
        rounds_toward_zero(value, unit),
    ensures
        value(one_of::<N>()) == 1real,
        value(minus_one_of::<N>()) == 0real - 1real,
        minus_one_of::<N>().finite(),
        one_of::<N>().finite(),
        zero_of::<N>().finite(),
        value(zero_of::<N>()) == 0real,
{
    lemma_constants(value, unit);
    lemma_negated(value, unit, one_of::<N>());
}

/// Infinity bounds nothing.
pub(crate) proof fn lemma_unbounded<N: Num>(value: spec_fn(N) -> real, unit: real)
    requires
        rounds_toward_zero(value, unit),
        has_infinity(value),
    ensures
        !N::unbounded().finite(),
{
    lemma_ones(value, unit);
    let top = N::unbounded();
    if top.finite() {
        let one = one_of::<N>();
        lemma_finite(value, unit, top);
        assert(value(one) <= value(top));
        lemma_closer_fits(value, value(top) - 1real, value(top));
        lemma_minus(value, unit, top, one);
        assert(top.minus(one) == top);
    }
}

/// What is divided by a positive number: one and minus one give opposite values.
pub(crate) proof fn lemma_per<N: Num>(value: spec_fn(N) -> real, unit: real, d: N)
    requires
        rounds_toward_zero(value, unit),
        has_measures(value),
        d.finite(),
        0real < value(d),
    ensures
        value(minus_one_of::<N>().over(d)) == 0real - value(one_of::<N>().over(d)),
        0real <= value(one_of::<N>().over(d)) <= 1real / value(d),
{
    lemma_ones(value, unit);
    reveal(has_measures);
    let one = one_of::<N>();
    let minus = minus_one_of::<N>();
    let back = minus.negated();
    lemma_negated(value, unit, minus);
    assert(value(back) == value(one));
    assert(value(back.over(d)) <= value(one.over(d)));
    assert(value(one.over(d)) <= value(back.over(d)));
    lemma_over(value, unit, one, d);
}

// ------------------------------------------------------------------- visits

/// What a plan asks of a visit.
pub struct Terms<N> {
    /// Slots of the visit.
    pub slots: nat,
    /// Largest grid-side charge energy per slot, kWh.
    pub charge: N,
    /// Largest building-side discharge energy per slot, kWh.
    pub discharge: N,
    pub floor: N,
    pub ceiling: N,
    /// Stored energy asked for at the end, kWh.
    pub needed: N,
    pub charge_efficiency: N,
    pub discharge_efficiency: N,
    /// Bound on the change of the energy flow between slots, kWh.
    pub ramp: Option<N>,
}

/// The energy that the visit at `base` draws in its slot number `i`, kWh.
pub open spec fn drawn(x: Seq<real>, base: int, i: int) -> real {
    x[base + 3 * i]
}

/// The energy that it gives, kWh.
pub open spec fn given(x: Seq<real>, base: int, i: int) -> real {
    x[base + 3 * i + 1]
}

/// The energy that it holds at the end of the slot, kWh.
pub open spec fn held(x: Seq<real>, base: int, i: int) -> real {
    x[base + 3 * i + 2]
}

/// What the visit of `slots` slots lacks at its end, kWh.
pub open spec fn lacking(x: Seq<real>, base: int, slots: nat) -> real {
    x[base + 3 * slots]
}

/// The energy that it holds before its slot number `i`, when it starts with `from`.
pub open spec fn held_before(x: Seq<real>, base: int, from: real, i: int) -> real {
    if i == 0 {
        from
    } else {
        held(x, base, i - 1)
    }
}

/// What a battery loses for each kWh that it gives.
pub open spec fn drain<N: Num>(value: spec_fn(N) -> real, discharge_efficiency: N) -> real {
    value(one_of::<N>().over(discharge_efficiency))
}

/// A slot of a visit within the limits of car and port, in which the battery gains what it
/// draws times the charging efficiency and loses what it gives over the discharging one.
pub open spec fn is_physical<N: Num>(
    value: spec_fn(N) -> real,
    t: Terms<N>,
    x: Seq<real>,
    base: int,
    from: real,
    i: int,
) -> bool {
    &&& 0real <= drawn(x, base, i) && is_upto(value, drawn(x, base, i), t.charge)
    &&& 0real <= given(x, base, i) && is_upto(value, given(x, base, i), t.discharge)
    &&& is_from(value, held(x, base, i), t.floor) && is_upto(value, held(x, base, i), t.ceiling)
    &&& held(x, base, i) == held_before(x, base, from, i) + value(t.charge_efficiency) * drawn(x, base, i) - drain(
        value,
        t.discharge_efficiency,
    ) * given(x, base, i)
}

/// The flow of a visit changes by no more than `ramp` into its slot number `i`.
pub open spec fn is_gentle<N: Num>(value: spec_fn(N) -> real, ramp: N, x: Seq<real>, base: int, i: int) -> bool {
    let now = drawn(x, base, i) - given(x, base, i);
    let before = drawn(x, base, i - 1) - given(x, base, i - 1);
    0real - value(ramp) <= now - before <= value(ramp)
}

/// A visit at `base` that starts with `from` kWh does what the plan asks of it.
#[verifier::opaque]
pub open spec fn is_kept_visit<N: Num>(
    value: spec_fn(N) -> real,
    t: Terms<N>,
    x: Seq<real>,
    base: int,
    from: real,
) -> bool {
    &&& forall|i: int| 0 <= i < t.slots ==> #[trigger] is_physical(value, t, x, base, from, i)
    &&& 0real <= lacking(x, base, t.slots)
    &&& value(t.needed) <= held(x, base, t.slots - 1) + lacking(x, base, t.slots)
    &&& t.ramp matches Some(q) ==> forall|i: int| 1 <= i < t.slots ==> #[trigger] is_gentle(value, q, x, base, i)
}

/// The terms of a planned visit.
pub(crate) open spec fn terms_of<N>(v: VisitModel<N>, rates: PlanRates<N>) -> Terms<N> {
    Terms {
        slots: v.len(),
        charge: v.charge_kwh,
        discharge: v.discharge_kwh,
        floor: v.floor_kwh,
        ceiling: v.ceiling_kwh,
        needed: v.needed_kwh,
        charge_efficiency: rates.charge_efficiency,
        discharge_efficiency: rates.discharge_efficiency,
        ramp: rates.ramp_kwh_per_slot,
    }
}

/// The energy with which a visit starts.
pub(crate) open spec fn start_at<N>(value: spec_fn(N) -> real, start: Start<N>, x: Seq<real>) -> real {
    match start {
        Start::At(soc) => value(soc),
        Start::After(prev, depletion) => x[prev.0 as int] - value(depletion),
    }
}

/// The numbers whose opposites stand in the rows of a visit.
pub(crate) open spec fn has_opposites<N: Num>(v: VisitModel<N>, rates: PlanRates<N>) -> bool {
    &&& rates.charge_efficiency.finite()
    &&& v.start matches Start::After(_, depletion) ==> depletion.finite()
    &&& rates.ramp_kwh_per_slot matches Some(q) ==> q.finite()
}

/// The balance row of a slot says how the stored energy changes.
proof fn lemma_soc_row<N: Num>(
    value: spec_fn(N) -> real,
    unit: real,
    v: VisitModel<N>,
    rates: PlanRates<N>,
    x: Seq<real>,
    base: int,
    i: int,
)
    requires
        rounds_toward_zero(value, unit),
        has_opposites(v, rates),
        0 <= base,
        0 <= i < v.len(),
        base + 3 * v.len() < usize::MAX,
    ensures
        holds(value, soc_row(v, rates, base, i), x) <==> held(x, base, i) == held_before(
            x,
            base,
            start_at(value, v.start, x),
            i,
        ) + value(rates.charge_efficiency) * drawn(x, base, i) - drain(value, rates.discharge_efficiency) * given(
            x,
            base,
            i,
        ),
{
    lemma_ones::<N>(value, unit);
    lemma_negated(value, unit, rates.charge_efficiency);
    let a = (stored(base, i), one_of::<N>());
    let b = (cp(base, i), rates.charge_efficiency.negated());
    let c = (cn(base, i), one_of::<N>().over(rates.discharge_efficiency));
    lemma_three(value, a, b, c, x);
    let e = value(rates.charge_efficiency);
    let d = drawn(x, base, i);
    assert((0real - e) * d == 0real - e * d) by (nonlinear_arith);
    let three = seq![a, b, c];
    if i > 0 {
        let t = (stored(base, i - 1), minus_one_of::<N>());
        lemma_push(value, three, t, x);
    } else {
        match v.start {
            Start::At(soc) => {},
            Start::After(prev, depletion) => {
                lemma_negated(value, unit, depletion);
                lemma_push(value, three, (prev, minus_one_of::<N>()), x);
            },
        }
    }
}

proof fn lemma_target_row<N: Num>(
    value: spec_fn(N) -> real,
    unit: real,
    prefix: Seq<char>,
    v: VisitModel<N>,
    x: Seq<real>,
    base: int,
)
    requires
        rounds_toward_zero(value, unit),
        0 <= base,
        0 < v.len(),
        base + 3 * v.len() < usize::MAX,
    ensures
        holds(value, target_row(prefix, v, base), x) <==> value(v.needed_kwh) <= held(x, base, v.len() - 1)
            + lacking(x, base, v.len()),
{
    lemma_ones::<N>(value, unit);
    lemma_two(
        value,
        (stored(base, v.len() - 1), one_of::<N>()),
        (var(base + 3 * v.len()), one_of::<N>()),
        x,
    );
}

proof fn lemma_ramp_row<N: Num>(
    value: spec_fn(N) -> real,
    unit: real,
    v: VisitModel<N>,
    x: Seq<real>,
    base: int,
    q: N,
    i: int,
)
    requires
        rounds_toward_zero(value, unit),
        q.finite(),
        0 <= base,
        1 <= i < v.len(),
        base + 3 * v.len() < usize::MAX,
    ensures
        holds(value, ramp_row(v, base, q, 2 * (i - 1)), x) && holds(value, ramp_row(v, base, q, 2 * (i - 1) + 1), x)
            <==> is_gentle(value, q, x, base, i),
{
    lemma_ones::<N>(value, unit);
    lemma_negated(value, unit, q);
    let j = 2 * (i - 1);
    assert(j / 2 + 1 == i && (j + 1) / 2 + 1 == i && j % 2 == 0 && (j + 1) % 2 == 1);
    let a = (cp(base, i), one_of::<N>());
    let b = (cn(base, i), minus_one_of::<N>());
    let c = (cp(base, i - 1), minus_one_of::<N>());
    let d = (cn(base, i - 1), one_of::<N>());
    lemma_three(value, a, b, c, x);
    lemma_push(value, seq![a, b, c], d, x);
    assert(seq![a, b, c, d] =~= seq![a, b, c].push(d));
}

/// The bounds of a visit's variables.
proof fn lemma_visit_bounds<N: Num>(
    value: spec_fn(N) -> real,
    unit: real,
    v: VisitModel<N>,
    rates: PlanRates<N>,
    price: Seq<N>,
    x: Seq<real>,
    base: int,
)
    requires
        rounds_toward_zero(value, unit),
        has_infinity(value),
    ensures
        are_within(value, visit_vars(v, rates, price), x, base) <==> {
            &&& forall|i: int| 0 <= i < v.len() ==> #[trigger] is_bounded(value, v, x, base, i)
            &&& 0real <= lacking(x, base, v.len())
        },
{
    lemma_ones::<N>(value, unit);
    lemma_unbounded::<N>(value, unit);
    let vars = visit_vars(v, rates, price);
    let n = v.len();
    if are_within(value, vars, x, base) {
        assert forall|i: int| 0 <= i < n implies #[trigger] is_bounded(value, v, x, base, i) by {
            assert((3 * i) % 3 == 0 && (3 * i + 1) % 3 == 1 && (3 * i + 2) % 3 == 2);
            assert(vars[3 * i] == visit_var(v, rates, price, 3 * i));
            assert(vars[3 * i + 1] == visit_var(v, rates, price, 3 * i + 1));
            assert(vars[3 * i + 2] == visit_var(v, rates, price, 3 * i + 2));
            assert(base + (3 * i + 1) == base + 3 * i + 1 && base + (3 * i + 2) == base + 3 * i + 2);
        }
        assert(vars[3 * n as int] == shortfall_var(v, rates));
    }
    if (forall|i: int| 0 <= i < n ==> #[trigger] is_bounded(value, v, x, base, i)) && 0real <= lacking(x, base, n) {
        assert forall|j: int| 0 <= j < vars.len() implies is_within(value, #[trigger] vars[j], x[base + j]) by {
            if j < 3 * n {
                let i = j / 3;
                assert(vars[j] == visit_var(v, rates, price, j));
                assert(is_bounded(value, v, x, base, i));
                assert(j == 3 * i || j == 3 * i + 1 || j == 3 * i + 2);
            } else {
                assert(vars[j] == shortfall_var(v, rates));
            }
        }
    }
}

/// The variables of the visit's slot number `i` lie within their bounds.
spec fn is_bounded<N: Num>(value: spec_fn(N) -> real, v: VisitModel<N>, x: Seq<real>, base: int, i: int) -> bool {
    &&& 0real <= drawn(x, base, i) && is_upto(value, drawn(x, base, i), v.charge_kwh)
    &&& 0real <= given(x, base, i) && is_upto(value, given(x, base, i), v.discharge_kwh)
    &&& is_from(value, held(x, base, i), v.floor_kwh) && is_upto(value, held(x, base, i), v.ceiling_kwh)
}

/// The rows of a visit hold just where its energy balances, its target is met up to the
/// shortfall, and its flow is gentle.
proof fn lemma_visit_rows<N: Num>(
    value: spec_fn(N) -> real,
    unit: real,
    prefix: Seq<char>,
    v: VisitModel<N>,
    rates: PlanRates<N>,
    x: Seq<real>,
    base: int,
)
    requires
        rounds_toward_zero(value, unit),
        has_opposites(v, rates),
        0 <= base,
        v.first_slot <= v.last_slot,
        base + 3 * v.len() < usize::MAX,
    ensures
        all_hold(value, visit_rows(prefix, v, rates, base), x) <==> {
            &&& forall|i: int| 0 <= i < v.len() ==> #[trigger] is_balanced(value, v, rates, x, base, i)
            &&& value(v.needed_kwh) <= held(x, base, v.len() - 1) + lacking(x, base, v.len())
            &&& rates.ramp_kwh_per_slot matches Some(q) ==> forall|i: int|
                1 <= i < v.len() ==> #[trigger] is_gentle(value, q, x, base, i)
        },
{
    let rows = visit_rows(prefix, v, rates, base);
    let n = v.len();
    let ramps = ramp_rows(v, rates, base);
    lemma_target_row(value, unit, prefix, v, x, base);
    assert(rows[n as int] == target_row(prefix, v, base));
    if all_hold(value, rows, x) {
        assert forall|i: int| 0 <= i < n implies #[trigger] is_balanced(value, v, rates, x, base, i) by {
            assert(rows[i] == soc_row(v, rates, base, i));
            lemma_soc_row(value, unit, v, rates, x, base, i);
        }
        assert(holds(value, rows[n as int], x));
        match rates.ramp_kwh_per_slot {
            Some(q) => {
                assert forall|i: int| 1 <= i < n implies #[trigger] is_gentle(value, q, x, base, i) by {
                    let j = 2 * (i - 1);
                    assert(rows[n + 1 + j] == ramps[j] && rows[n + 1 + (j + 1)] == ramps[j + 1]);
                    assert(ramps[j] == ramp_row(v, base, q, j) && ramps[j + 1] == ramp_row(v, base, q, j + 1));
                    lemma_ramp_row(value, unit, v, x, base, q, i);
                }
            },
            None => {},
        }
    }
    if (forall|i: int| 0 <= i < n ==> #[trigger] is_balanced(value, v, rates, x, base, i)) && value(v.needed_kwh)
        <= held(x, base, n - 1) + lacking(x, base, n) && (rates.ramp_kwh_per_slot matches Some(q) ==> forall|i: int|
        1 <= i < n ==> #[trigger] is_gentle(value, q, x, base, i)) {
        assert forall|j: int| 0 <= j < rows.len() implies holds(value, #[trigger] rows[j], x) by {
            if j < n {
                assert(rows[j] == soc_row(v, rates, base, j));
                assert(is_balanced(value, v, rates, x, base, j));
                lemma_soc_row(value, unit, v, rates, x, base, j);
            } else if j > n {
                let r = j - n - 1;
                let q = rates.ramp_kwh_per_slot->0;
                assert(rows[j] == ramps[r]);
                assert(ramps[r] == ramp_row(v, base, q, r));
                let i = r / 2 + 1;
                assert(r == 2 * (i - 1) || r == 2 * (i - 1) + 1);
                assert(is_gentle(value, q, x, base, i));
                lemma_ramp_row(value, unit, v, x, base, q, i);
            }
        }
    }
}

/// The energy of the visit's slot number `i` balances.
spec fn is_balanced<N: Num>(
    value: spec_fn(N) -> real,
    v: VisitModel<N>,
    rates: PlanRates<N>,
    x: Seq<real>,
    base: int,
    i: int,
) -> bool {
    held(x, base, i) == held_before(x, base, start_at(value, v.start, x), i) + value(rates.charge_efficiency)
        * drawn(x, base, i) - drain(value, rates.discharge_efficiency) * given(x, base, i)
}

/// What the flows of a visit that starts in slot `first` cost over its first `n` slots: the
/// price of what it draws less what it gives, and the wear of what it gives.
pub open spec fn flow_cost<N: Num>(
    value: spec_fn(N) -> real,
    price: Seq<N>,
    first: int,
    wear: N,
    x: Seq<real>,
    base: int,
    n: nat,
) -> real
    decreases n,
{
    if n == 0 {
        0real
    } else {
        let i = n - 1;
        flow_cost(value, price, first, wear, x, base, i as nat) + value(price[first + i]) * (drawn(x, base, i)
            - given(x, base, i)) + value(wear) * given(x, base, i)
    }
}

/// The wear and the prices are finite, and so is what a kWh given costs.
pub open spec fn prices_fit<N: Num>(value: spec_fn(N) -> real, price: Seq<N>, wear: N) -> bool {
    &&& wear.finite()
    &&& forall|s: int|
        0 <= s < price.len() ==> (#[trigger] price[s]).finite() && fits(
            value,
            value(wear) - value(price[s]),
        )
}

proof fn lemma_flow_cost<N: Num>(
    value: spec_fn(N) -> real,
    unit: real,
    v: VisitModel<N>,
    rates: PlanRates<N>,
    price: Seq<N>,
    x: Seq<real>,
    base: int,
    n: nat,
)
    requires
        rounds_toward_zero(value, unit),
        v.first_slot <= v.last_slot < price.len(),
        prices_fit(value, price, rates.degradation_usd_per_kwh),
        n <= v.len(),
    ensures
        priced(value, visit_vars(v, rates, price).take(3 * n as int), x, base) == flow_cost(
            value,
            price,
            v.first_slot as int,
            rates.degradation_usd_per_kwh,
            x,
            base,
            n,
        ),
    decreases n,
{
    lemma_ones::<N>(value, unit);
    let vars = visit_vars(v, rates, price);
    if n == 0 {
        assert(vars.take(0) =~= Seq::empty());
    } else {
        let i = n - 1;
        lemma_flow_cost(value, unit, v, rates, price, x, base, i as nat);
        let a = vars.take(3 * i);
        let b = a.push(vars[3 * i]);
        let c = b.push(vars[3 * i + 1]);
        let d = c.push(vars[3 * i + 2]);
        assert(vars.take(3 * n as int) =~= d);
        assert(b.drop_last() =~= a && c.drop_last() =~= b && d.drop_last() =~= c);
        assert((3 * i) % 3 == 0 && (3 * i + 1) % 3 == 1 && (3 * i + 2) % 3 == 2);
        assert((3 * i) / 3 == i && (3 * i + 1) / 3 == i && (3 * i + 2) / 3 == i);
        assert(vars[3 * i] == visit_var(v, rates, price, 3 * i));
        assert(vars[3 * i + 1] == visit_var(v, rates, price, 3 * i + 1));
        assert(vars[3 * i + 2] == visit_var(v, rates, price, 3 * i + 2));
        let s = v.first_slot + i;
        let wear = rates.degradation_usd_per_kwh;
        assert(price[s].finite());
        lemma_minus(value, unit, wear, price[s]);
        let w = value(wear);
        let p = value(price[s]);
        let u = drawn(x, base, i);
        let g = given(x, base, i);
        let h = held(x, base, i);
        assert(p * u + (w - p) * g + 0real * h == p * (u - g) + w * g) by (nonlinear_arith);
        assert(priced(value, b, x, base) == priced(value, a, x, base) + p * x[base + 3 * i]);
        assert(priced(value, c, x, base) == priced(value, b, x, base) + (w - p) * x[base + 3 * i + 1]);
        assert(priced(value, d, x, base) == priced(value, c, x, base) + 0real * x[base + 3 * i + 2]);
    }
}

/// A visit's block asks that the visit is kept, and costs its flows and its shortfall.
pub(crate) proof fn lemma_visit_meaning<N: Num>(
    value: spec_fn(N) -> real,
    unit: real,
    p: Program<N>,
    prefix: Seq<char>,
    v: VisitModel<N>,
    rates: PlanRates<N>,
    price: Seq<N>,
    x: Seq<real>,
)
    requires
        rounds_toward_zero(value, unit),
        has_infinity(value),
        has_opposites(v, rates),
        v.first_slot <= v.last_slot < price.len(),
        p.vars.len() + 3 * v.len() < usize::MAX,
    ensures
        ({
            let q = with_visit(p, prefix, v, rates, price);
            let base = p.vars.len() as int;
            &&& q.vars.len() == base + 3 * v.len() + 1
            &&& satisfies(value, q, x) <==> satisfies(value, p, x) && base + 3 * v.len() < x.len()
                && is_kept_visit(value, terms_of(v, rates), x, base, start_at(value, v.start, x))
            &&& prices_fit(value, price, rates.degradation_usd_per_kwh) ==> cost_at(value, q, x) == cost_at(
                value,
                p,
                x,
            ) + flow_cost(
                value,
                price,
                v.first_slot as int,
                rates.degradation_usd_per_kwh,
                x,
                base,
                v.len(),
            ) + value(rates.shortfall_usd_per_kwh) * lacking(x, base, v.len())
        }),
{
    reveal(is_kept_visit);
    let base = p.vars.len() as int;
    let vars = visit_vars(v, rates, price);
    let rows = visit_rows(prefix, v, rates, base);
    let t = terms_of(v, rates);
    let from = start_at(value, v.start, x);
    lemma_extended(value, p, vars, rows, x);
    lemma_visit_bounds(value, unit, v, rates, price, x, base);
    lemma_visit_rows(value, unit, prefix, v, rates, x, base);
    if is_kept_visit(value, t, x, base, from) {
        assert forall|i: int| 0 <= i < v.len() implies #[trigger] is_bounded(value, v, x, base, i) by {
            assert(is_physical(value, t, x, base, from, i));
        }
        assert forall|i: int| 0 <= i < v.len() implies #[trigger] is_balanced(value, v, rates, x, base, i) by {
            assert(is_physical(value, t, x, base, from, i));
        }
    }
    if are_within(value, vars, x, base) && all_hold(value, rows, x) {
        assert forall|i: int| 0 <= i < t.slots implies #[trigger] is_physical(value, t, x, base, from, i) by {
            assert(is_bounded(value, v, x, base, i));
            assert(is_balanced(value, v, rates, x, base, i));
        }
    }
    if prices_fit(value, price, rates.degradation_usd_per_kwh) {
        lemma_flow_cost(value, unit, v, rates, price, x, base, v.len());
        assert(vars.drop_last() =~= vars.take(3 * v.len() as int));
    }
}

/// What the first `k` visits cost, when their blocks start at `at`: their flows and their
/// shortfalls.
pub open spec fn visits_cost<N: Num>(
    value: spec_fn(N) -> real,
    price: Seq<N>,
    spans: Seq<Span>,
    at: int,
    wear: N,
    shortfall: N,
    x: Seq<real>,
    k: nat,
) -> real
    decreases k,
{
    if k == 0 {
        0real
    } else {
        let i = k - 1;
        let base = block_base(at, spans, i as nat);
        let slots = (spans[i].last_slot - spans[i].first_slot + 1) as nat;
        visits_cost(value, price, spans, at, wear, shortfall, x, i as nat) + flow_cost(
            value,
            price,
            spans[i].first_slot as int,
            wear,
            x,
            base,
            slots,
        ) + value(shortfall) * lacking(x, base, slots)
    }
}

/// Visit `i` of those whose blocks start at `at` is kept.
#[verifier::opaque]
pub(crate) open spec fn is_visit_kept<N: Num>(
    value: spec_fn(N) -> real,
    visits: Seq<VisitModel<N>>,
    rates: PlanRates<N>,
    x: Seq<real>,
    at: int,
    i: int,
) -> bool {
    is_kept_visit(
        value,
        terms_of(visits[i], rates),
        x,
        block_base(at, spans_of(visits), i as nat),
        start_at(value, visits[i].start, x),
    )
}

/// The visits of a plan as the lemmas need them.
pub(crate) open spec fn are_laid_out<N: Num>(
    visits: Seq<VisitModel<N>>,
    rates: PlanRates<N>,
    price: Seq<N>,
    k: nat,
) -> bool {
    &&& k <= visits.len()
    &&& forall|i: int|
        0 <= i < k ==> has_opposites(#[trigger] visits[i], rates) && visits[i].first_slot <= visits[i].last_slot
            < price.len()
}

pub(crate) proof fn lemma_base_grows(at: int, spans: Seq<Span>, j: nat, k: nat)
    requires
        j <= k <= spans.len(),
        forall|i: int| 0 <= i < k ==> (#[trigger] spans[i]).first_slot <= spans[i].last_slot,
    ensures
        block_base(at, spans, j) <= block_base(at, spans, k),
        j < k ==> block_base(at, spans, j) + block_size(spans[j as int]) <= block_base(at, spans, k),
    decreases k,
{
    if j < k {
        lemma_base_grows(at, spans, j, (k - 1) as nat);
        assert(spans[k - 1].first_slot <= spans[k - 1].last_slot);
    }
}

/// The blocks of visits ask that each visit is kept, and cost what the visits cost.
pub(crate) proof fn lemma_visits_meaning<N: Num>(
    value: spec_fn(N) -> real,
    unit: real,
    p: Program<N>,
    prefix: Seq<char>,
    visits: Seq<VisitModel<N>>,
    rates: PlanRates<N>,
    price: Seq<N>,
    x: Seq<real>,
    k: nat,
)
    requires
        rounds_toward_zero(value, unit),
        has_infinity(value),
        are_laid_out(visits, rates, price, k),
        block_base(p.vars.len() as int, spans_of(visits), k) <= usize::MAX,
    ensures
        ({
            let q = with_visits(p, prefix, visits, rates, price, k);
            let at = p.vars.len() as int;
            let spans = spans_of(visits);
            &&& q.vars.len() == block_base(at, spans, k)
            &&& satisfies(value, q, x) <==> satisfies(value, p, x) && q.vars.len() <= x.len() && forall|i: int|
                0 <= i < k ==> #[trigger] is_visit_kept(value, visits, rates, x, at, i)
            &&& prices_fit(value, price, rates.degradation_usd_per_kwh) ==> cost_at(value, q, x) == cost_at(
                value,
                p,
                x,
            ) + visits_cost(
                value,
                price,
                spans,
                at,
                rates.degradation_usd_per_kwh,
                rates.shortfall_usd_per_kwh,
                x,
                k,
            )
        }),
    decreases k,
{
    let at = p.vars.len() as int;
    let spans = spans_of(visits);
    lemma_long_enough(value, p, x);
    if k > 0 {
        let i = k - 1;
        let before = with_visits(p, prefix, visits, rates, price, i as nat);
        assert(has_opposites(visits[i], rates));
        assert(spans[i] == (Span { first_slot: visits[i].first_slot, last_slot: visits[i].last_slot }));
        lemma_visits_meaning(value, unit, p, prefix, visits, rates, price, x, i as nat);
        lemma_visit_meaning(value, unit, before, prefix, visits[i], rates, price, x);
        let q = with_visits(p, prefix, visits, rates, price, k);
        assert(q == with_visit(before, prefix, visits[i], rates, price));
        assert(is_visit_kept(value, visits, rates, x, at, i) == is_kept_visit(
            value,
            terms_of(visits[i], rates),
            x,
            before.vars.len() as int,
            start_at(value, visits[i].start, x),
        )) by {
            reveal(is_visit_kept);
        }
        if satisfies(value, q, x) {
            assert forall|j: int| 0 <= j < k implies #[trigger] is_visit_kept(value, visits, rates, x, at, j) by {
                if j == i {
                    assert(is_visit_kept(value, visits, rates, x, at, i));
                }
            }
        }
        assert(before.vars.len() <= q.vars.len());
    }
}

// ---------------------------------------------------------------- net loads

/// What the visits at `places` draw less what they give in slot `s`, kWh.
pub open spec fn slot_flow(x: Seq<real>, places: Seq<Place>, s: int) -> real
    decreases places.len(),
{
    if places.len() == 0 {
        0real
    } else {
        let p = places.last();
        slot_flow(x, places.drop_last(), s) + if p.first_slot <= s <= p.last_slot {
            drawn(x, p.base as int, s - p.first_slot) - given(x, p.base as int, s - p.first_slot)
        } else {
            0real
        }
    }
}

/// What a kWh in one slot is in kW.
pub open spec fn per_hour<N: Num>(value: spec_fn(N) -> real, dt: N) -> real {
    value(one_of::<N>().over(dt))
}

/// The net load of a slot: the building and what the visits draw, neither negative nor above
/// the cap, if there is one, and the building.
pub open spec fn is_net_load<N: Num>(
    value: spec_fn(N) -> real,
    net: real,
    building: N,
    cap: Option<N>,
    flow: real,
    dt: N,
) -> bool {
    &&& net == value(building) + per_hour(value, dt) * flow
    &&& 0real <= net
    &&& cap matches Some(c) ==> net <= value(c) || net <= value(building)
}

/// The variables of every place can be numbered.
pub(crate) open spec fn are_numbered(places: Seq<Place>) -> bool {
    forall|k: int|
        0 <= k < places.len() ==> (#[trigger] places[k]).first_slot <= places[k].last_slot && places[k].base + 3 * (
        places[k].last_slot - places[k].first_slot + 1) <= usize::MAX
}

pub(crate) proof fn lemma_agg_terms_at<N: Num>(
    value: spec_fn(N) -> real,
    unit: real,
    agg: VarId,
    places: Seq<Place>,
    s: int,
    dt: N,
    x: Seq<real>,
)
    requires
        rounds_toward_zero(value, unit),
        has_measures(value),
        dt.finite(),
        0real < value(dt),
        are_numbered(places),
    ensures
        terms_at(value, agg_terms(agg, places, s, dt), x) == x[agg.0 as int] - per_hour(value, dt) * slot_flow(
            x,
            places,
            s,
        ),
    decreases places.len(),
{
    lemma_ones::<N>(value, unit);
    lemma_per::<N>(value, unit, dt);
    let h = per_hour(value, dt);
    if places.len() == 0 {
        let t = (agg, one_of::<N>());
        lemma_push(value, Seq::empty(), t, x);
        assert(seq![t] =~= Seq::empty().push(t));
        assert(h * 0real == 0real) by (nonlinear_arith);
    } else {
        let rest = places.drop_last();
        assert forall|k: int| 0 <= k < rest.len() implies (#[trigger] rest[k]).first_slot <= rest[k].last_slot
            && rest[k].base + 3 * (rest[k].last_slot - rest[k].first_slot + 1) <= usize::MAX by {
            assert(rest[k] == places[k]);
        }
        lemma_agg_terms_at(value, unit, agg, rest, s, dt, x);
        let p = places.last();
        assert(p == places[places.len() - 1]);
        let before = agg_terms(agg, rest, s, dt);
        if p.first_slot <= s <= p.last_slot {
            let i = s - p.first_slot;
            let a = (cp(p.base as int, i), minus_one_of::<N>().over(dt));
            let b = (cn(p.base as int, i), one_of::<N>().over(dt));
            lemma_push(value, before, a, x);
            lemma_push(value, before.push(a), b, x);
            let u = drawn(x, p.base as int, i);
            let g = given(x, p.base as int, i);
            let f = slot_flow(x, rest, s);
            assert((0real - h) * u + h * g - h * f == 0real - h * (f + (u - g))) by (nonlinear_arith);
        } else {
            let f = slot_flow(x, rest, s);
            assert(f + 0real == f);
        }
    }
}

/// The bound of a net load.
pub(crate) proof fn lemma_agg_bound<N: Num>(
    value: spec_fn(N) -> real,
    unit: real,
    cap: Option<N>,
    building: N,
    net: real,
)
    requires
        rounds_toward_zero(value, unit),
        has_infinity(value),
        building.finite(),
        cap matches Some(c) ==> c.finite(),
    ensures
        is_upto(value, net, agg_bound(cap, building)) <==> (cap matches Some(c) ==> net <= value(c) || net <= value(
            building,
        )),
{
    lemma_unbounded::<N>(value, unit);
    match cap {
        Some(c) => {
            lemma_finite(value, unit, c);
            lemma_finite(value, unit, building);
            lemma_compare(value, unit, c, building);
            lemma_fitting(value, unit, c.greater(building));
        },
        None => {},
    }
}

/// The net loads of the slots from `from` on, whose variables start at `base`.
pub open spec fn are_net_loads<N: Num>(
    value: spec_fn(N) -> real,
    from: int,
    building: Seq<N>,
    cap: Option<N>,
    places: Seq<Place>,
    dt: N,
    x: Seq<real>,
    base: int,
) -> bool {
    forall|k: int|
        #![trigger building[k]]
        0 <= k < building.len() ==> is_net_load(
            value,
            x[base + k],
            building[k],
            cap,
            slot_flow(x, places, from + k),
            dt,
        )
}

proof fn lemma_priced_zero<N: Num>(
    value: spec_fn(N) -> real,
    vars: Seq<VarModel<N>>,
    x: Seq<real>,
    at: int,
)
    requires
        forall|j: int| 0 <= j < vars.len() ==> value((#[trigger] vars[j]).obj) == 0real,
    ensures
        priced(value, vars, x, at) == 0real,
    decreases vars.len(),
{
    if vars.len() > 0 {
        let rest = vars.drop_last();
        assert forall|j: int| 0 <= j < rest.len() implies value((#[trigger] rest[j]).obj) == 0real by {
            assert(rest[j] == vars[j]);
        }
        lemma_priced_zero(value, rest, x, at);
        assert(value(vars[vars.len() - 1].obj) == 0real);
        let y = x[at + vars.len() - 1];
        assert(0real * y == 0real) by (nonlinear_arith);
    }
}

pub(crate) proof fn lemma_agg_meaning<N: Num>(
    value: spec_fn(N) -> real,
    unit: real,
    p: Program<N>,
    from: int,
    building: Seq<N>,
    cap: Option<N>,
    places: Seq<Place>,
    dt: N,
    x: Seq<real>,
)
    requires
        rounds_toward_zero(value, unit),
        has_infinity(value),
        has_measures(value),
        dt.finite(),
        0real < value(dt),
        are_numbered(places),
        forall|k: int| 0 <= k < building.len() ==> (#[trigger] building[k]).finite(),
        cap matches Some(c) ==> c.finite(),
        p.vars.len() + building.len() <= usize::MAX,
    ensures
        ({
            let q = with_agg(p, from, building, cap, places, dt);
            let base = p.vars.len() as int;
            &&& q.vars.len() == base + building.len()
            &&& satisfies(value, q, x) <==> satisfies(value, p, x) && q.vars.len() <= x.len() && are_net_loads(
                value,
                from,
                building,
                cap,
                places,
                dt,
                x,
                base,
            )
            &&& cost_at(value, q, x) == cost_at(value, p, x)
        }),
{
    lemma_ones::<N>(value, unit);
    let base = p.vars.len() as int;
    let vars = agg_vars(from, building, cap);
    let rows = agg_rows(from, building, places, base, dt);
    lemma_extended(value, p, vars, rows, x);
    lemma_priced_zero(value, vars, x, base);
    if are_within(value, vars, x, base) && all_hold(value, rows, x) {
        assert forall|k: int| #![trigger building[k]] 0 <= k < building.len() implies is_net_load(
            value,
            x[base + k],
            building[k],
            cap,
            slot_flow(x, places, from + k),
            dt,
        ) by {
            assert(is_within(value, vars[k], x[base + k]));
            assert(holds(value, rows[k], x));
            lemma_agg_terms_at(value, unit, var(base + k), places, from + k, dt, x);
            lemma_agg_bound(value, unit, cap, building[k], x[base + k]);
        }
    }
    if are_net_loads(value, from, building, cap, places, dt, x, base) {
        assert forall|k: int| 0 <= k < vars.len() implies is_within(value, #[trigger] vars[k], x[base + k]) by {
            assert(building[k].finite());
            lemma_agg_bound(value, unit, cap, building[k], x[base + k]);
        }
        assert forall|k: int| 0 <= k < rows.len() implies holds(value, #[trigger] rows[k], x) by {
            assert(building[k].finite());
            lemma_agg_terms_at(value, unit, var(base + k), places, from + k, dt, x);
        }
    }
}

// ------------------------------------------------------------------- demand

/// The peaks at `top` and behind it are not negative, and not below the net loads, which
/// start at `base`: the first in every slot, the second in the slots of class `peak`.
pub open spec fn are_peaks(
    tou: Seq<TouClass>,
    from: int,
    n: nat,
    x: Seq<real>,
    base: int,
    top: int,
) -> bool {
    &&& 0real <= x[top]
    &&& 0real <= x[top + 1]
    &&& forall|k: int|
        #![trigger x[base + k]]
        0 <= k < n ==> x[base + k] <= x[top] && (tou[from + k] == TouClass::Peak ==> x[base + k] <= x[top + 1])
}

pub(crate) proof fn lemma_envelope<N: Num>(
    value: spec_fn(N) -> real,
    unit: real,
    name: Seq<char>,
    bound: VarId,
    agg: VarId,
    x: Seq<real>,
)
    requires
        rounds_toward_zero(value, unit),
    ensures
        holds(value, envelope_row::<N>(name, bound, agg), x) <==> x[agg.0 as int] <= x[bound.0 as int],
{
    lemma_ones::<N>(value, unit);
    lemma_two(value, (bound, one_of::<N>()), (agg, minus_one_of::<N>()), x);
}

proof fn lemma_peak_rows_hold<N: Num>(
    value: spec_fn(N) -> real,
    unit: real,
    tou: Seq<TouClass>,
    from: int,
    n: nat,
    x: Seq<real>,
    base: int,
    top: int,
)
    requires
        rounds_toward_zero(value, unit),
        0 <= base,
        base + n <= usize::MAX,
        0 <= top,
        top + 1 <= usize::MAX,
    ensures
        all_hold(value, peak_rows::<N>(from, tou, base, top, n), x) <==> forall|k: int|
            #![trigger x[base + k]]
            0 <= k < n ==> x[base + k] <= x[top] && (tou[from + k] == TouClass::Peak ==> x[base + k] <= x[top + 1]),
    decreases n,
{
    if n > 0 {
        let k = n - 1;
        lemma_peak_rows_hold::<N>(value, unit, tou, from, k as nat, x, base, top);
        let before = peak_rows::<N>(from, tou, base, top, k as nat);
        let a = envelope_row::<N>(numbered("peak_"@, from + k), var(top), var(base + k));
        let b = envelope_row::<N>(
            numbered("peaktou_"@, from + k),
            var(top + 1),
            var(base + k),
        );
        lemma_envelope::<N>(
            value,
            unit,
            numbered("peak_"@, from + k),
            var(top),
            var(base + k),
            x,
        );
        lemma_envelope::<N>(
            value,
            unit,
            numbered("peaktou_"@, from + k),
            var(top + 1),
            var(base + k),
            x,
        );
        lemma_one_more_holds(value, before, a, x);
        lemma_one_more_holds(value, before.push(a), b, x);
        let all = peak_rows::<N>(from, tou, base, top, n);
        if all_hold(value, all, x) {
            assert(x[base + k] <= x[top]);
            assert forall|j: int| #![trigger x[base + j]] 0 <= j < n implies x[base + j] <= x[top] && (tou[from + j]
                == TouClass::Peak ==> x[base + j] <= x[top + 1]) by {
                if j < k {
                    assert(x[base + j] <= x[top]);
                }
            }
        }
        if forall|j: int|
            #![trigger x[base + j]]
            0 <= j < n ==> x[base + j] <= x[top] && (tou[from + j] == TouClass::Peak ==> x[base + j] <= x[top + 1]) {
            assert(x[base + k] <= x[top]);
        }
    }
}

pub(crate) proof fn lemma_one_more_holds<N>(
    value: spec_fn(N) -> real,
    rows: Seq<RowModel<N>>,
    r: RowModel<N>,
    x: Seq<real>,
)
    ensures
        all_hold(value, rows.push(r), x) <==> all_hold(value, rows, x) && holds(value, r, x),
{
    let more = rows.push(r);
    if all_hold(value, more, x) {
        assert forall|j: int| 0 <= j < rows.len() implies holds(value, #[trigger] rows[j], x) by {
            assert(more[j] == rows[j]);
        }
        assert(more[rows.len() as int] == r);
    }
}

pub(crate) proof fn lemma_demand_meaning<N: Num>(
    value: spec_fn(N) -> real,
    unit: real,
    p: Program<N>,
    from: int,
    n: nat,
    tou: Seq<TouClass>,
    base: int,
    rate: N,
    peak_rate: N,
    x: Seq<real>,
)
    requires
        rounds_toward_zero(value, unit),
        has_infinity(value),
        0 <= base,
        base + n <= usize::MAX,
        p.vars.len() + 2 <= usize::MAX,
        demand_is_priced(rate, peak_rate),
    ensures
        ({
            let q = with_demand(p, from, n, tou, base, rate, peak_rate);
            let top = p.vars.len() as int;
            &&& q.vars.len() == top + 2
            &&& satisfies(value, q, x) <==> satisfies(value, p, x) && q.vars.len() <= x.len() && are_peaks(
                tou,
                from,
                n,
                x,
                base,
                top,
            )
            &&& cost_at(value, q, x) == cost_at(value, p, x) + value(rate) * x[top] + value(peak_rate) * x[top + 1]
        }),
{
    lemma_ones::<N>(value, unit);
    lemma_unbounded::<N>(value, unit);
    let top = p.vars.len() as int;
    let a = continuous("p_max"@, zero_of(), N::unbounded(), rate);
    let b = continuous("p_max_tou"@, zero_of(), N::unbounded(), peak_rate);
    let vars = seq![a, b];
    let rows = peak_rows::<N>(from, tou, base, top, n);
    assert(with_demand(p, from, n, tou, base, rate, peak_rate) =~= p.with_vars(vars).with_rows(rows));
    lemma_extended(value, p, vars, rows, x);
    lemma_peak_rows_hold::<N>(value, unit, tou, from, n, x, base, top);
    assert(vars[0] == a && vars[1] == b);
    assert(are_within(value, vars, x, top) <==> 0real <= x[top] && 0real <= x[top + 1]) by {
        if are_within(value, vars, x, top) {
            assert(is_within(value, vars[0], x[top + 0]) && is_within(value, vars[1], x[top + 1]));
        }
    }
    lemma_priced_one(value, a, x, top);
    assert(vars.drop_last() =~= seq![a]);
    assert(top + vars.len() - 1 == top + 1);
}

// ----------------------------------------------------------- demand response

/// How many of the first `n` slots from `from` on the event covers.
pub open spec fn covered_slots<N>(event: DrEvent<N>, from: int, n: nat) -> nat
    decreases n,
{
    if n == 0 {
        0
    } else {
        covered_slots(event, from, (n - 1) as nat) + if event.covers(from + n - 1) {
            1nat
        } else {
            0
        }
    }
}

/// The overflow `ov` of a covered slot with net load `net`: not negative, and not below the
/// energy above the level, which is variable or the event's own.
pub open spec fn is_overflow<N: Num>(
    value: spec_fn(N) -> real,
    event: DrEvent<N>,
    level: Option<real>,
    dt: N,
    net: real,
    ov: real,
) -> bool {
    &&& 0real <= ov
    &&& match level {
        Some(f) => value(dt) * (net - f) <= ov,
        None => value(dt) * net + value(dt.negated().times(event.fsl_kw)) <= ov,
    }
}

/// The overflows of an event over `n` slots from `from` on; they start at `at`, one for each
/// covered slot, and the net loads start at `base`.
pub open spec fn are_overflows<N: Num>(
    value: spec_fn(N) -> real,
    event: DrEvent<N>,
    level: Option<real>,
    from: int,
    dt: N,
    x: Seq<real>,
    base: int,
    at: int,
    n: nat,
) -> bool {
    forall|k: int|
        #![trigger x[base + k]]
        0 <= k < n && event.covers(from + k) ==> is_overflow(
            value,
            event,
            level,
            dt,
            x[base + k],
            x[at + covered_slots(event, from, k as nat)],
        )
}

/// What the overflows of an event add up to over the first `n` slots, kWh.
pub open spec fn overflow_sum<N>(event: DrEvent<N>, from: int, x: Seq<real>, at: int, n: nat) -> real
    decreases n,
{
    if n == 0 {
        0real
    } else {
        overflow_sum(event, from, x, at, (n - 1) as nat) + if event.covers(from + n - 1) {
            x[at + covered_slots(event, from, (n - 1) as nat)]
        } else {
            0real
        }
    }
}

/// A variable level at a point.
pub(crate) open spec fn level_at(level: Option<VarId>, x: Seq<real>) -> Option<real> {
    match level {
        Some(f) => Some(x[f.0 as int]),
        None => None,
    }
}

proof fn lemma_overflow_row<N: Num>(
    value: spec_fn(N) -> real,
    unit: real,
    name: Seq<char>,
    ov: VarId,
    agg: VarId,
    level: Option<VarId>,
    event: DrEvent<N>,
    dt: N,
    x: Seq<real>,
)
    requires
        rounds_toward_zero(value, unit),
        dt.finite(),
        0real <= x[ov.0 as int],
    ensures
        holds(value, overflow_row(name, ov, agg, level, event.fsl_kw, dt), x) <==> is_overflow(
            value,
            event,
            level_at(level, x),
            dt,
            x[agg.0 as int],
            x[ov.0 as int],
        ),
{
    lemma_ones::<N>(value, unit);
    lemma_negated(value, unit, dt);
    let a = (ov, one_of::<N>());
    let b = (agg, dt.negated());
    lemma_two(value, a, b, x);
    let h = value(dt);
    let net = x[agg.0 as int];
    assert((0real - h) * net == 0real - h * net) by (nonlinear_arith);
    match level {
        Some(f) => {
            lemma_push(value, seq![a, b], (f, dt), x);
            let y = x[f.0 as int];
            assert(h * (net - y) == h * net - h * y) by (nonlinear_arith);
        },
        None => {},
    }
}

pub(crate) proof fn lemma_overflow_meaning<N: Num>(
    value: spec_fn(N) -> real,
    unit: real,
    p: Program<N>,
    ei: int,
    event: DrEvent<N>,
    level: Option<VarId>,
    from: int,
    base: int,
    dt: N,
    x: Seq<real>,
    n: nat,
)
    requires
        rounds_toward_zero(value, unit),
        has_infinity(value),
        dt.finite(),
        0 <= base,
        base + n <= usize::MAX,
        p.vars.len() + covered_slots(event, from, n) <= usize::MAX,
    ensures
        ({
            let q = with_overflow(p, ei, event, level, from, base, dt, n);
            let at = p.vars.len() as int;
            &&& q.vars.len() == at + covered_slots(event, from, n)
            &&& satisfies(value, q, x) <==> satisfies(value, p, x) && q.vars.len() <= x.len() && are_overflows(
                value,
                event,
                level_at(level, x),
                from,
                dt,
                x,
                base,
                at,
                n,
            )
            &&& cost_at(value, q, x) == cost_at(value, p, x) + value(event.penalty_usd_per_kwh) * overflow_sum(
                event,
                from,
                x,
                at,
                n,
            )
        }),
    decreases n,
{
    lemma_ones::<N>(value, unit);
    lemma_unbounded::<N>(value, unit);
    let at = p.vars.len() as int;
    let rate = value(event.penalty_usd_per_kwh);
    lemma_long_enough(value, p, x);
    if n == 0 {
        assert(rate * 0real == 0real) by (nonlinear_arith);
    } else {
        let k = n - 1;
        let s = from + k;
        lemma_overflow_meaning(value, unit, p, ei, event, level, from, base, dt, x, k as nat);
        let before = with_overflow(p, ei, event, level, from, base, dt, k as nat);
        let q = with_overflow(p, ei, event, level, from, base, dt, n);
        let here = at + covered_slots(event, from, k as nat);
        if event.covers(s) {
            let v = continuous(event_label("ov"@, ei, s), zero_of(), N::unbounded(), event.penalty_usd_per_kwh);
            let name = event_label("ovdef"@, ei, s);
            let r = overflow_row(name, var(here), var(base + k), level, event.fsl_kw, dt);
            assert(q =~= before.with_vars(seq![v]).with_rows(seq![r]));
            lemma_extended(value, before, seq![v], seq![r], x);
            lemma_priced_one(value, v, x, here);
            lemma_within_one(value, v, x, here);
            lemma_holds_one(value, r, x);
            if 0real <= x[here] {
                lemma_overflow_row(value, unit, name, var(here), var(base + k), level, event, dt, x);
            }
            let sum = overflow_sum(event, from, x, at, k as nat);
            let ov = x[here];
            assert(rate * (sum + ov) == rate * sum + rate * ov) by (nonlinear_arith);
        }
        let lv = level_at(level, x);
        if satisfies(value, q, x) {
            assert forall|j: int|
                #![trigger x[base + j]]
                0 <= j < n && event.covers(from + j) implies is_overflow(
                value,
                event,
                lv,
                dt,
                x[base + j],
                x[at + covered_slots(event, from, j as nat)],
            ) by {}
        }
        if are_overflows(value, event, lv, from, dt, x, base, at, n) {
            assert(are_overflows(value, event, lv, from, dt, x, base, at, k as nat));
            if event.covers(s) {
                assert(is_overflow(value, event, lv, dt, x[base + k], x[here]));
            }
        }
    }
}

/// Where the variables of event `e` start, when those of the first start at `at`: each event
/// has its level, where the plan decides it, and one overflow for each covered slot.
pub open spec fn event_place<N>(events: Seq<DrEvent<N>>, decided: bool, from: int, n: nat, at: int, e: nat) -> int
    decreases e,
{
    if e == 0 {
        at
    } else {
        event_place(events, decided, from, n, at, (e - 1) as nat) + covered_slots(events[e - 1], from, n) + if decided {
            1int
        } else {
            0int
        }
    }
}

/// The level and the overflows of an event whose variables start at `at` are as they should
/// be: a level that the plan decides lies between zero and its bound.
#[verifier::opaque]
pub open spec fn is_event_kept<N: Num>(
    value: spec_fn(N) -> real,
    event: DrEvent<N>,
    bound: Option<N>,
    from: int,
    dt: N,
    x: Seq<real>,
    base: int,
    at: int,
    n: nat,
) -> bool {
    match bound {
        Some(b) => {
            &&& 0real <= x[at]
            &&& is_upto(value, x[at], b)
            &&& are_overflows(value, event, Some(x[at]), from, dt, x, base, at + 1, n)
        },
        None => are_overflows(value, event, None, from, dt, x, base, at, n),
    }
}

/// What an event costs: its penalty on the overflow, and for a level that the plan decides
/// its incentive, which a higher level forgoes.
pub open spec fn event_cost<N: Num>(
    value: spec_fn(N) -> real,
    event: DrEvent<N>,
    decided: bool,
    from: int,
    x: Seq<real>,
    at: int,
    n: nat,
) -> real {
    if decided {
        value(event.incentive_usd_per_kw) * x[at] + value(event.penalty_usd_per_kwh) * overflow_sum(
            event,
            from,
            x,
            at + 1,
            n,
        )
    } else {
        value(event.penalty_usd_per_kwh) * overflow_sum(event, from, x, at, n)
    }
}

/// What the first `k` events cost.
pub open spec fn events_cost<N: Num>(
    value: spec_fn(N) -> real,
    events: Seq<DrEvent<N>>,
    decided: bool,
    from: int,
    x: Seq<real>,
    at: int,
    n: nat,
    k: nat,
) -> real
    decreases k,
{
    if k == 0 {
        0real
    } else {
        let e = k - 1;
        events_cost(value, events, decided, from, x, at, n, e as nat) + event_cost(
            value,
            events[e],
            decided,
            from,
            x,
            event_place(events, decided, from, n, at, e as nat),
            n,
        )
    }
}

/// The bound of the level of event `e`.
pub open spec fn bound_of<N>(bounds: Option<Seq<N>>, e: int) -> Option<N> {
    match bounds {
        Some(b) => Some(b[e]),
        None => None,
    }
}

/// Event `e` is kept.
pub open spec fn is_nth_event_kept<N: Num>(
    value: spec_fn(N) -> real,
    events: Seq<DrEvent<N>>,
    bounds: Option<Seq<N>>,
    from: int,
    dt: N,
    x: Seq<real>,
    base: int,
    at: int,
    n: nat,
    e: int,
) -> bool {
    is_event_kept(
        value,
        events[e],
        bound_of(bounds, e),
        from,
        dt,
        x,
        base,
        event_place(events, bounds is Some, from, n, at, e as nat),
        n,
    )
}

/// One event.
proof fn lemma_event_meaning<N: Num>(
    value: spec_fn(N) -> real,
    unit: real,
    p: Program<N>,
    ei: int,
    event: DrEvent<N>,
    bounds: Option<Seq<N>>,
    from: int,
    base: int,
    dt: N,
    x: Seq<real>,
    n: nat,
)
    requires
        rounds_toward_zero(value, unit),
        has_infinity(value),
        dt.finite(),
        0 <= base,
        base + n <= usize::MAX,
        p.vars.len() + covered_slots(event, from, n) + 1 <= usize::MAX,
    ensures
        ({
            let q = with_overflow(
                with_level(p, ei, event, bounds),
                ei,
                event,
                level_var(p, bounds),
                from,
                base,
                dt,
                n,
            );
            let at = p.vars.len() as int;
            &&& q.vars.len() == at + covered_slots(event, from, n) + if bounds is Some {
                1int
            } else {
                0int
            }
            &&& satisfies(value, q, x) <==> satisfies(value, p, x) && q.vars.len() <= x.len() && is_event_kept(
                value,
                event,
                bound_of(bounds, ei),
                from,
                dt,
                x,
                base,
                at,
                n,
            )
            &&& cost_at(value, q, x) == cost_at(value, p, x) + event_cost(
                value,
                event,
                bounds is Some,
                from,
                x,
                at,
                n,
            )
        }),
{
    reveal(is_event_kept);
    lemma_ones::<N>(value, unit);
    let at = p.vars.len() as int;
    let mid = with_level(p, ei, event, bounds);
    let level = level_var(p, bounds);
    lemma_overflow_meaning(value, unit, mid, ei, event, level, from, base, dt, x, n);
    match bounds {
        Some(b) => {
            let v = continuous(
                numbered("fsl_"@, ei),
                zero_of(),
                b[ei],
                event.incentive_usd_per_kw,
            );
            let none = Seq::<RowModel<N>>::empty();
            assert(mid =~= p.with_vars(seq![v]).with_rows(none));
            lemma_extended(value, p, seq![v], none, x);
            lemma_priced_one(value, v, x, at);
            lemma_within_one(value, v, x, at);
            assert(level_at(level, x) == Some(x[at]));
        },
        None => {},
    }
}

/// The terms of the events ask that each event is kept, and cost what the events cost.
pub(crate) proof fn lemma_events_meaning<N: Num>(
    value: spec_fn(N) -> real,
    unit: real,
    p: Program<N>,
    events: Seq<DrEvent<N>>,
    bounds: Option<Seq<N>>,
    from: int,
    base: int,
    dt: N,
    x: Seq<real>,
    n: nat,
    k: nat,
)
    requires
        rounds_toward_zero(value, unit),
        has_infinity(value),
        dt.finite(),
        0 <= base,
        base + n <= usize::MAX,
        with_events(p, events, bounds, from, base, dt, n, k).vars.len() < usize::MAX,
    ensures
        ({
            let q = with_events(p, events, bounds, from, base, dt, n, k);
            let at = p.vars.len() as int;
            &&& q.vars.len() == event_place(events, bounds is Some, from, n, at, k)
            &&& satisfies(value, q, x) <==> satisfies(value, p, x) && q.vars.len() <= x.len() && forall|e: int|
                0 <= e < k ==> #[trigger] is_nth_event_kept(
                    value,
                    events,
                    bounds,
                    from,
                    dt,
                    x,
                    base,
                    at,
                    n,
                    e,
                )
            &&& cost_at(value, q, x) == cost_at(value, p, x) + events_cost(
                value,
                events,
                bounds is Some,
                from,
                x,
                at,
                n,
                k,
            )
        }),
    decreases k,
{
    let at = p.vars.len() as int;
    lemma_long_enough(value, p, x);
    if k > 0 {
        let e = k - 1;
        let before = with_events(p, events, bounds, from, base, dt, n, e as nat);
        let q = with_events(p, events, bounds, from, base, dt, n, k);
        let mid = with_level(before, e, events[e], bounds);
        lemma_overflow_len(mid, e, events[e], level_var(before, bounds), from, base, dt, n);
        lemma_events_meaning(value, unit, p, events, bounds, from, base, dt, x, n, e as nat);
        lemma_event_meaning(value, unit, before, e, events[e], bounds, from, base, dt, x, n);
        let place = event_place(events, bounds is Some, from, n, at, e as nat);
        assert(before.vars.len() == place);
        assert(before.vars.len() <= q.vars.len());
        if satisfies(value, q, x) {
            assert forall|j: int| 0 <= j < k implies #[trigger] is_nth_event_kept(
                value,
                events,
                bounds,
                from,
                dt,
                x,
                base,
                at,
                n,
                j,
            ) by {}
        }
        if q.vars.len() <= x.len() && forall|j: int|
            0 <= j < k ==> #[trigger] is_nth_event_kept(value, events, bounds, from, dt, x, base, at, n, j) {
            assert(is_nth_event_kept(value, events, bounds, from, dt, x, base, at, n, e));
        }
    }
}

/// One variable for each covered slot.
pub(crate) proof fn lemma_overflow_len<N: Num>(
    p: Program<N>,
    ei: int,
    event: DrEvent<N>,
    level: Option<VarId>,
    from: int,
    base: int,
    dt: N,
    n: nat,
)
    ensures
        with_overflow(p, ei, event, level, from, base, dt, n).vars.len() == p.vars.len() + covered_slots(
            event,
            from,
            n,
        ),
    decreases n,
{
    if n > 0 {
        lemma_overflow_len(p, ei, event, level, from, base, dt, (n - 1) as nat);
    }
}

} // verus!
