//! Backend-neutral linear/mixed-integer model + the [`MilpBackend`] trait.
//!
//! The formulation code (e.g. the MPC policy) builds a [`Model`] once per
//! solve; a backend turns it into a [`Solution`]. [`cli`] holds what a backend
//! that drives a solver program through files computes on its own.

use vstd::prelude::*;

pub mod cli;

use crate::num::{unbounded_below, zero, zero_of, Num};

verus! {

/// Index of a variable in its model (dense, insertion-ordered).
#[derive(Debug, Clone, Copy, PartialEq, Eq, Structural)]
pub struct VarId(pub usize);

#[derive(Debug, Clone)]
pub struct VarDef<N> {
    pub name: String,
    pub lb: N,
    pub ub: N,
    pub integer: bool,
    /// Objective coefficient (minimization).
    pub obj: N,
}

#[derive(Debug, Clone, Copy, PartialEq, Eq, Structural)]
pub enum Sense {
    Le,
    Ge,
    Eq,
}

#[derive(Debug, Clone)]
pub struct Constraint<N> {
    pub name: String,
    pub terms: Vec<(VarId, N)>,
    pub sense: Sense,
    pub rhs: N,
}

/// A minimization model. Insertion order is the serialization order, so LP
/// files (and therefore CLI-solver behavior) are deterministic.
#[derive(Debug, Clone)]
pub struct Model<N> {
    pub vars: Vec<VarDef<N>>,
    pub constraints: Vec<Constraint<N>>,
    /// Constant added to the objective (bookkeeping only).
    pub obj_constant: N,
}

/// What a variable definition says.
#[verifier::ext_equal]
pub struct VarModel<N> {
    pub name: Seq<char>,
    pub lb: N,
    pub ub: N,
    pub integer: bool,
    pub obj: N,
}

/// What a constraint says.
#[verifier::ext_equal]
pub struct RowModel<N> {
    pub name: Seq<char>,
    pub terms: Seq<(VarId, N)>,
    pub sense: Sense,
    pub rhs: N,
}

/// What a model says.
#[verifier::ext_equal]
pub struct Program<N> {
    pub vars: Seq<VarModel<N>>,
    pub rows: Seq<RowModel<N>>,
    pub obj_constant: N,
}

impl<N> View for VarDef<N> {
    type V = VarModel<N>;

    open spec fn view(&self) -> VarModel<N> {
        VarModel { name: self.name@, lb: self.lb, ub: self.ub, integer: self.integer, obj: self.obj }
    }
}

impl<N> View for Constraint<N> {
    type V = RowModel<N>;

    open spec fn view(&self) -> RowModel<N> {
        RowModel { name: self.name@, terms: self.terms@, sense: self.sense, rhs: self.rhs }
    }
}

impl<N> View for Model<N> {
    type V = Program<N>;

    open spec fn view(&self) -> Program<N> {
        Program {
            vars: Seq::new(self.vars@.len(), |i: int| self.vars@[i]@),
            rows: Seq::new(self.constraints@.len(), |i: int| self.constraints@[i]@),
            obj_constant: self.obj_constant,
        }
    }
}

/// A continuous variable.
pub open spec fn continuous<N>(name: Seq<char>, lb: N, ub: N, obj: N) -> VarModel<N> {
    VarModel { name, lb, ub, integer: false, obj }
}

/// The row `name: terms sense rhs`.
pub open spec fn row<N>(name: Seq<char>, terms: Seq<(VarId, N)>, sense: Sense, rhs: N) -> RowModel<N> {
    RowModel { name, terms, sense, rhs }
}

/// The variable with index `i`.
pub open spec fn var(i: int) -> VarId {
    VarId(i as usize)
}

impl<N> RowModel<N> {
    /// The row speaks of the first `n` variables only.
    pub open spec fn fits(self, n: nat) -> bool {
        forall|j: int| 0 <= j < self.terms.len() ==> (#[trigger] self.terms[j]).0.0 < n
    }
}

impl<N> Program<N> {
    /// The program with one more variable.
    pub open spec fn with_var(self, v: VarModel<N>) -> Program<N> {
        Program { vars: self.vars.push(v), ..self }
    }

    /// The program with one more row.
    pub open spec fn with_row(self, r: RowModel<N>) -> Program<N> {
        Program { rows: self.rows.push(r), ..self }
    }

    /// The program with more variables.
    pub open spec fn with_vars(self, more: Seq<VarModel<N>>) -> Program<N> {
        Program { vars: self.vars + more, ..self }
    }

    /// The program with more rows.
    pub open spec fn with_rows(self, more: Seq<RowModel<N>>) -> Program<N> {
        Program { rows: self.rows + more, ..self }
    }
}

impl<N: Num> Program<N> {
    /// The program without variables and rows.
    pub open spec fn empty() -> Program<N> {
        Program { vars: Seq::empty(), rows: Seq::empty(), obj_constant: zero_of() }
    }

    /// Every row speaks of variables of the program, and a program with rows
    /// has variables.
    pub open spec fn well_formed(self) -> bool {
        &&& forall|i: int| 0 <= i < self.rows.len() ==> (#[trigger] self.rows[i]).fits(self.vars.len())
        &&& self.rows.len() > 0 ==> self.vars.len() > 0
    }
}

impl<N: Num> Default for Model<N> {
    /// The model without variables and constraints.
    fn default() -> (r: Self)
        ensures
            r@ == Program::<N>::empty(),
    {
        let r = Model { vars: Vec::new(), constraints: Vec::new(), obj_constant: zero() };
        assert(r@ =~= Program::<N>::empty());
        r
    }
}

// ---------------------------------------------------------------- LP text

/// A coefficient as it stands in front of its variable.
pub open spec fn signed<N: Num>(x: N, first: bool) -> Seq<char> {
    if x.below(zero_of()) {
        "- "@ + x.negated().scientific()@
    } else if first {
        x.scientific()@
    } else {
        "+ "@ + x.scientific()@
    }
}

/// Some coefficient is not zero.
pub open spec fn has_term<N: Num>(list: Seq<(N, Seq<char>)>) -> bool
    decreases list.len(),
{
    list.len() > 0 && (has_term(list.drop_last()) || !list.last().0.same(zero_of()))
}

/// The terms with a nonzero coefficient.
pub open spec fn terms_text<N: Num>(list: Seq<(N, Seq<char>)>) -> Seq<char>
    decreases list.len(),
{
    if list.len() == 0 {
        Seq::empty()
    } else {
        let before = terms_text(list.drop_last());
        let (coef, name) = list.last();
        if coef.same(zero_of()) {
            before
        } else {
            before + " "@ + signed(coef, !has_term(list.drop_last())) + " "@ + name
        }
    }
}

/// A linear expression; where every coefficient is zero it is `0 filler`.
pub open spec fn expression_text<N: Num>(list: Seq<(N, Seq<char>)>, filler: Seq<char>) -> Seq<char> {
    if has_term(list) {
        terms_text(list)
    } else {
        terms_text(list) + " 0 "@ + filler
    }
}

/// The objective coefficients with the names of their variables.
pub open spec fn objective_terms<N: Num>(p: Program<N>) -> Seq<(N, Seq<char>)> {
    Seq::new(p.vars.len(), |i: int| (p.vars[i].obj, p.vars[i].name))
}

/// The coefficients of a row with the names of their variables.
pub open spec fn row_terms<N: Num>(p: Program<N>, r: RowModel<N>) -> Seq<(N, Seq<char>)> {
    Seq::new(r.terms.len(), |j: int| (r.terms[j].1, p.vars[r.terms[j].0.0 as int].name))
}

/// How a relation is written.
pub open spec fn sense_text(sense: Sense) -> Seq<char> {
    match sense {
        Sense::Le => "<="@,
        Sense::Ge => ">="@,
        Sense::Eq => "="@,
    }
}

/// One line of the constraints section.
pub open spec fn row_text<N: Num>(p: Program<N>, r: RowModel<N>) -> Seq<char> {
    " "@ + r.name + ":"@ + expression_text(row_terms(p, r), p.vars[0].name) + " "@ + sense_text(r.sense)
        + " "@ + r.rhs.scientific()@ + "\n"@
}

/// One line of the bounds section; both bounds are written out.
pub open spec fn bound_text<N: Num>(v: VarModel<N>) -> Seq<char> {
    let open_below = v.lb.same(unbounded_below());
    let open_above = v.ub.same(N::unbounded());
    if open_below && open_above {
        " "@ + v.name + " free\n"@
    } else {
        " "@ + (if open_below {
            "-inf"@
        } else {
            v.lb.scientific()@
        }) + " <= "@ + v.name + " <= "@ + (if open_above {
            "+inf"@
        } else {
            v.ub.scientific()@
        }) + "\n"@
    }
}

/// The lines of the first `n` rows.
pub open spec fn rows_text<N: Num>(p: Program<N>, n: nat) -> Seq<char>
    decreases n,
{
    if n == 0 {
        Seq::empty()
    } else {
        rows_text(p, (n - 1) as nat) + row_text(p, p.rows[n - 1])
    }
}

/// The bound lines of the first `n` variables.
pub open spec fn bounds_text<N: Num>(p: Program<N>, n: nat) -> Seq<char>
    decreases n,
{
    if n == 0 {
        Seq::empty()
    } else {
        bounds_text(p, (n - 1) as nat) + bound_text(p.vars[n - 1])
    }
}

/// The names of the integer variables among the first `n`, one per line.
pub open spec fn generals_text<N: Num>(p: Program<N>, n: nat) -> Seq<char>
    decreases n,
{
    if n == 0 {
        Seq::empty()
    } else if p.vars[n - 1].integer {
        generals_text(p, (n - 1) as nat) + " "@ + p.vars[n - 1].name + "\n"@
    } else {
        generals_text(p, (n - 1) as nat)
    }
}

/// Some variable among the first `n` is integer.
pub open spec fn has_general<N: Num>(p: Program<N>, n: nat) -> bool
    decreases n,
{
    n > 0 && (has_general(p, (n - 1) as nat) || p.vars[n - 1].integer)
}

/// What stands in an expression without terms.
pub open spec fn filler_name<N: Num>(p: Program<N>) -> Seq<char> {
    if p.vars.len() > 0 {
        p.vars[0].name
    } else {
        "x0"@
    }
}

/// The program in CPLEX-LP format.
pub open spec fn lp_text<N: Num>(p: Program<N>) -> Seq<char> {
    "Minimize\n obj:"@ + expression_text(objective_terms(p), filler_name(p)) + "\nSubject To\n"@
        + rows_text(p, p.rows.len()) + "Bounds\n"@ + bounds_text(p, p.vars.len()) + (if has_general(
        p,
        p.vars.len(),
    ) {
        "Generals\n"@ + generals_text(p, p.vars.len())
    } else {
        Seq::empty()
    }) + "End\n"@
}

/// Appends a coefficient as it stands in front of its variable.
fn push_signed<N: Num>(out: &mut String, x: N, first: bool)
    ensures
        final(out)@ == old(out)@ + signed(x, first),
{
    if x.lt(zero()) {
        out.append("- ");
        out.append(x.neg().to_scientific().as_str());
        assert(out@ =~= old(out)@ + signed(x, first));
    } else if first {
        out.append(x.to_scientific().as_str());
    } else {
        out.append("+ ");
        out.append(x.to_scientific().as_str());
        assert(out@ =~= old(out)@ + signed(x, first));
    }
}

/// Appends one term, unless its coefficient is zero. Returns whether the
/// expression has a term now.
fn push_term<N: Num>(
    out: &mut String,
    coef: N,
    name: &str,
    any: bool,
    Ghost(start): Ghost<Seq<char>>,
    Ghost(list): Ghost<Seq<(N, Seq<char>)>>,
) -> (r: bool)
    requires
        any == has_term(list),
        old(out)@ == start + terms_text(list),
    ensures
        final(out)@ == start + terms_text(list.push((coef, name@))),
        r == has_term(list.push((coef, name@))),
{
    let ghost more = list.push((coef, name@));
    assert(more.drop_last() =~= list);
    if coef.eq(zero()) {
        any
    } else {
        out.append(" ");
        push_signed(out, coef, !any);
        out.append(" ");
        out.append(name);
        assert(out@ =~= start + terms_text(more));
        true
    }
}

impl<N: Num> Model<N> {
    /// Adds a continuous variable.
    pub fn add_var(&mut self, name: String, lb: N, ub: N, obj: N) -> (id: VarId)
        ensures
            final(self)@ == old(self)@.with_var(continuous(name@, lb, ub, obj)),
            id == var(old(self)@.vars.len() as int),
            id.0 == old(self)@.vars.len(),
    {
        let ghost before = self@;
        let v = VarDef { name, lb, ub, integer: false, obj };
        self.vars.push(v);
        assert(self@ =~= before.with_var(v@));
        VarId(self.vars.len() - 1)
    }

    /// Adds the row `name: terms sense rhs`.
    pub fn add_constraint(&mut self, name: String, terms: Vec<(VarId, N)>, sense: Sense, rhs: N)
        ensures
            final(self)@ == old(self)@.with_row(row(name@, terms@, sense, rhs)),
    {
        let ghost before = self@;
        let c = Constraint { name, terms, sense, rhs };
        self.constraints.push(c);
        assert(self@ =~= before.with_row(c@));
    }

    /// Appends the objective expression.
    fn push_objective(&self, out: &mut String)
        ensures
            final(out)@ == old(out)@ + expression_text(objective_terms(self@), filler_name(self@)),
    {
        let ghost list = objective_terms(self@);
        let ghost start = out@;
        let mut any: bool = false;
        assert(out@ =~= start + terms_text(list.take(0)));
        for i in 0..self.vars.len()
            invariant
                list == objective_terms(self@),
                any == has_term(list.take(i as int)),
                out@ == start + terms_text(list.take(i as int)),
        {
            let ghost prefix = list.take(i as int);
            assert(list.take(i + 1) =~= prefix.push((self.vars@[i as int].obj, self.vars@[i as int].name@)));
            any = push_term(out, self.vars[i].obj, self.vars[i].name.as_str(), any, Ghost(start), Ghost(prefix));
        }
        assert(list.take(list.len() as int) =~= list);
        if !any {
            // LP format requires at least one objective term.
            out.append(" 0 ");
            if self.vars.len() > 0 {
                out.append(self.vars[0].name.as_str());
            } else {
                out.append("x0");
            }
        }
        assert(out@ =~= start + expression_text(list, filler_name(self@)));
    }

    /// Appends the expression of constraint `k`.
    fn push_row_terms(&self, out: &mut String, k: usize)
        requires
            self@.well_formed(),
            k < self.constraints.len(),
        ensures
            final(out)@ == old(out)@ + expression_text(
                row_terms(self@, self@.rows[k as int]),
                self@.vars[0].name,
            ),
    {
        let ghost p = self@;
        let ghost r = p.rows[k as int];
        let ghost list = row_terms(p, r);
        let c = &self.constraints[k];
        assert(r == c@);
        assert(r.fits(p.vars.len()));
        let ghost start = out@;
        let mut any: bool = false;
        assert(out@ =~= start + terms_text(list.take(0)));
        for j in 0..c.terms.len()
            invariant
                p == self@,
                p.well_formed(),
                r == c@,
                r.fits(p.vars.len()),
                list == row_terms(p, r),
                any == has_term(list.take(j as int)),
                out@ == start + terms_text(list.take(j as int)),
        {
            let ghost prefix = list.take(j as int);
            let (VarId(i), coef) = c.terms[j];
            assert(r.terms[j as int].0.0 < p.vars.len());
            assert(list.take(j + 1) =~= prefix.push((coef, self.vars@[i as int].name@)));
            any = push_term(
                out,
                coef,
                self.vars[i].name.as_str(),
                any,
                Ghost(start),
                Ghost(prefix),
            );
        }
        assert(list.take(list.len() as int) =~= list);
        if !any {
            out.append(" 0 ");
            out.append(self.vars[0].name.as_str());
            assert(out@ =~= start + expression_text(list, p.vars[0].name));
        }
    }

    /// Appends the line of constraint `k`.
    fn push_row(&self, out: &mut String, k: usize)
        requires
            self@.well_formed(),
            k < self.constraints.len(),
        ensures
            final(out)@ == old(out)@ + row_text(self@, self@.rows[k as int]),
    {
        let ghost p = self@;
        let ghost r = p.rows[k as int];
        let c = &self.constraints[k];
        assert(r == c@);
        let mut line = String::new();
        line.append(" ");
        assert(line@ =~= " "@);
        line.append(c.name.as_str());
        line.append(":");
        self.push_row_terms(&mut line, k);
        line.append(" ");
        line.append(
            match c.sense {
                Sense::Le => "<=",
                Sense::Ge => ">=",
                Sense::Eq => "=",
            },
        );
        line.append(" ");
        line.append(c.rhs.to_scientific().as_str());
        line.append("\n");
        assert(line@ == row_text(p, r));
        out.append(line.as_str());
    }

    /// Appends the bound line of variable `i`.
    fn push_bound(&self, out: &mut String, i: usize)
        requires
            i < self.vars.len(),
        ensures
            final(out)@ == old(out)@ + bound_text(self@.vars[i as int]),
    {
        let v = &self.vars[i];
        let open_below: bool = v.lb.eq(N::infinity().neg());
        let open_above: bool = v.ub.eq(N::infinity());
        out.append(" ");
        if open_below && open_above {
            out.append(v.name.as_str());
            out.append(" free\n");
        } else {
            if open_below {
                out.append("-inf");
            } else {
                out.append(v.lb.to_scientific().as_str());
            }
            out.append(" <= ");
            out.append(v.name.as_str());
            out.append(" <= ");
            if open_above {
                out.append("+inf");
            } else {
                out.append(v.ub.to_scientific().as_str());
            }
            out.append("\n");
        }
        assert(out@ =~= old(out)@ + bound_text(self@.vars[i as int]));
    }

    /// Serialize as CPLEX-LP format (readable by CPLEX, Gurobi, HiGHS, CBC,
    /// SCIP, Xpress). All bounds are written explicitly: the LP-format
    /// default of [0, +inf) is a classic silent-bug source.
    pub fn to_lp(&self) -> (out: String)
        requires
            self@.well_formed(),
        ensures
            out@ == lp_text(self@),
    {
        let ghost p = self@;
        let mut out = String::new();
        out.append("Minimize\n obj:");
        self.push_objective(&mut out);
        out.append("\nSubject To\n");
        let ghost head = out@;
        assert(out@ =~= head + rows_text(p, 0));
        for k in 0..self.constraints.len()
            invariant
                p == self@,
                p.well_formed(),
                out@ == head + rows_text(p, k as nat),
        {
            self.push_row(&mut out, k);
            assert(out@ =~= head + rows_text(p, (k + 1) as nat));
        }
        out.append("Bounds\n");
        let ghost middle = out@;
        assert(out@ =~= middle + bounds_text(p, 0));
        for i in 0..self.vars.len()
            invariant
                p == self@,
                out@ == middle + bounds_text(p, i as nat),
        {
            self.push_bound(&mut out, i);
            assert(out@ =~= middle + bounds_text(p, (i + 1) as nat));
        }
        let mut generals = String::new();
        let mut any: bool = false;
        assert(generals@ =~= generals_text(p, 0));
        for i in 0..self.vars.len()
            invariant
                p == self@,
                generals@ == generals_text(p, i as nat),
                any == has_general(p, i as nat),
        {
            if self.vars[i].integer {
                any = true;
                generals.append(" ");
                generals.append(self.vars[i].name.as_str());
                generals.append("\n");
            }
        }
        if any {
            out.append("Generals\n");
            out.append(generals.as_str());
        }
        out.append("End\n");
        assert(out@ =~= lp_text(p));
        out
    }
}

// --------------------------------------------------------------- solutions

#[derive(Debug, Clone, Copy, PartialEq, Eq, Structural)]
pub enum SolStatus {
    Optimal,
    Infeasible,
    Other,
}

#[derive(Debug, Clone)]
pub struct Solution<N> {
    pub status: SolStatus,
    pub objective: N,
    /// One value per variable, model insertion order. Variables absent from
    /// a solver's solution file default to 0 (LP solution files commonly omit
    /// zero-valued columns).
    pub values: Vec<N>,
}

/// What a solution says.
#[verifier::ext_equal]
pub struct SolutionModel<N> {
    pub status: SolStatus,
    pub objective: N,
    pub values: Seq<N>,
}

impl<N> View for Solution<N> {
    type V = SolutionModel<N>;

    open spec fn view(&self) -> SolutionModel<N> {
        SolutionModel { status: self.status, objective: self.objective, values: self.values@ }
    }
}

#[derive(Debug)]
pub enum SolveError {
    /// Reading, writing or running failed, with the system's words for it.
    Io(String),
    Backend(String),
}

/// What a solve error says.
pub open spec fn solve_error_text(e: SolveError) -> Seq<char> {
    match e {
        SolveError::Io(m) => "solver io error: "@ + m@,
        SolveError::Backend(m) => "solver error: "@ + m@,
    }
}

impl SolveError {
    /// The error in words.
    pub fn message(&self) -> (r: String)
        ensures
            r@ == solve_error_text(*self),
    {
        match self {
            SolveError::Io(m) => {
                let mut out = "solver io error: ".to_owned();
                out.append(m.as_str());
                out
            },
            SolveError::Backend(m) => {
                let mut out = "solver error: ".to_owned();
                out.append(m.as_str());
                out
            },
        }
    }
}

/// The objective value of a point.
pub open spec fn objective_value<N: Num>(p: Program<N>, values: Seq<N>) -> N {
    weighted(p.vars, values, values.len()).plus(p.obj_constant)
}

/// The first `n` values times their objective coefficients, added up.
pub open spec fn weighted<N: Num>(vars: Seq<VarModel<N>>, values: Seq<N>, n: nat) -> N
    decreases n,
{
    if n == 0 {
        zero_of()
    } else {
        weighted(vars, values, (n - 1) as nat).plus(values[n - 1].times(vars[n - 1].obj))
    }
}

impl<N: Num> Solution<N> {
    /// The answer that there is no feasible point.
    pub fn infeasible(model: &Model<N>) -> (r: Solution<N>)
        ensures
            r.status == SolStatus::Infeasible,
            r.objective == N::no_number(),
            r.values@ == Seq::new(model@.vars.len(), |i: int| zero_of::<N>()),
    {
        let mut values: Vec<N> = Vec::new();
        for i in 0..model.vars.len()
            invariant
                values@ == Seq::new(i as nat, |j: int| zero_of::<N>()),
        {
            values.push(zero());
            assert(values@ =~= Seq::new((i + 1) as nat, |j: int| zero_of::<N>()));
        }
        assert(values@ =~= Seq::new(model@.vars.len(), |i: int| zero_of::<N>()));
        Solution { status: SolStatus::Infeasible, objective: N::nan(), values }
    }

    /// The answer that `values` is an optimal point; the objective is computed
    /// from it.
    pub fn optimal(model: &Model<N>, values: Vec<N>) -> (r: Solution<N>)
        requires
            values@.len() == model@.vars.len(),
        ensures
            r.status == SolStatus::Optimal,
            r.values@ == values@,
            r.objective == objective_value(model@, values@),
    {
        let mut sum: N = zero();
        for i in 0..values.len()
            invariant
                values@.len() == model@.vars.len(),
                sum == weighted(model@.vars, values@, i as nat),
        {
            sum = sum.add(values[i].mul(model.vars[i].obj));
        }
        Solution { status: SolStatus::Optimal, objective: sum.add(model.obj_constant), values }
    }
}

/// A solver capable of handling [`Model`]s. Implementations should pin threads
/// and seeds where the underlying program allows.
pub trait MilpBackend<N: Num> {
    /// What [`MilpBackend::name`] returns.
    spec fn title(&self) -> &str;

    /// Whether the solver may answer `model` with `r`.
    spec fn answers(&self, model: &Model<N>, r: &Result<Solution<N>, SolveError>) -> bool;

    fn name(&self) -> (r: &str)
        ensures
            r@ == self.title()@,
    ;

    fn solve(&self, model: &Model<N>) -> (r: Result<Solution<N>, SolveError>)
        requires
            model@.well_formed(),
        ensures
            self.answers(model, &r),
            r matches Ok(s) ==> s.values@.len() == model@.vars.len(),
    ;
}

/// Two answers say the same; of two errors only that both are errors.
pub open spec fn same_answer<N>(a: Result<Solution<N>, SolveError>, b: Result<Solution<N>, SolveError>) -> bool {
    match (a, b) {
        (Ok(s), Ok(t)) => s@ == t@,
        (Err(_), Err(_)) => true,
        _ => false,
    }
}

/// The solver answers equal programs alike.
pub open spec fn is_repeatable<N: Num, B: MilpBackend<N>>(backend: B) -> bool {
    forall|
        m1: Model<N>,
        m2: Model<N>,
        r1: Result<Solution<N>, SolveError>,
        r2: Result<Solution<N>, SolveError>,
    |
        m1@ == m2@ && #[trigger] backend.answers(&m1, &r1) && #[trigger] backend.answers(&m2, &r2)
            ==> same_answer(r1, r2)
}

} // verus!
