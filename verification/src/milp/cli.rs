//! [`LpCliBackend`]: the universal, dependency-free backend. The model is
//! written as an LP file, any solver CLI is run on it, and the solution file is
//! read back. Slower per solve than an in-process backend (process spawn, license
//! check, file I/O: typically 100-500 ms) but works with every serious solver:
//! CPLEX, Gurobi, Xpress, HiGHS, CBC, SCIP, Hexaly.
//!
//! This module holds the recipes, the command lines and the reading of what the
//! solver wrote; running the program is up to the application.

use vstd::prelude::*;
use vstd::slice::slice_subrange;
use vstd::string::StringSliceAdditionalSpecFns;
use vstd::utf8::is_char_boundary;

use crate::milp::{
    objective_value, Model, Program, SolStatus, Solution, SolveError, VarModel,
};
use crate::num::{zero, zero_of, Num};
use crate::text::{chars_of, same_chars};

verus! {

/// How to read the solver's solution file.
#[derive(Debug, Clone, Copy, PartialEq, Eq, Structural)]
pub enum SolutionFormat {
    /// CPLEX `write <file> sol` XML: `<variable name="x" ... value="1.5"/>`.
    CplexXml,
    /// Any format reducible to plain `<name> <value>` token pairs per line
    /// (HiGHS `--solution_file`, Gurobi `.sol`, CBC `solution` output).
    VarValueLines,
}

/// Invocation recipe. `{lp}` and `{sol}` in `args` are replaced by the model
/// and solution file paths.
#[derive(Debug, Clone)]
pub struct LpCliBackend {
    pub name: String,
    pub program: String,
    pub args: Vec<String>,
    pub format: SolutionFormat,
    pub workdir: String,
}

/// What a list of texts says.
pub open spec fn texts(list: Seq<String>) -> Seq<Seq<char>> {
    Seq::new(list.len(), |i: int| list[i]@)
}

impl LpCliBackend {
    /// CPLEX interactive-optimizer recipe, deterministic (threads 1, fixed
    /// seed). `cplex_bin` example: /opt/ibm/cplex/bin/x86-64_linux/cplex.
    pub fn cplex(cplex_bin: String, workdir: String) -> (r: Self)
        ensures
            r.name@ == "cplex-cli"@,
            r.program == cplex_bin,
            texts(r.args@) == seq![
                "-c"@,
                "read {lp}"@,
                "set threads 1"@,
                "set randomseed 100"@,
                "optimize"@,
                "write {sol}"@,
            ],
            r.format == SolutionFormat::CplexXml,
            r.workdir == workdir,
    {
        let mut args: Vec<String> = Vec::new();
        args.push("-c".to_owned());
        args.push("read {lp}".to_owned());
        args.push("set threads 1".to_owned());
        args.push("set randomseed 100".to_owned());
        args.push("optimize".to_owned());
        args.push("write {sol}".to_owned());
        assert(texts(args@) =~= seq![
            "-c"@,
            "read {lp}"@,
            "set threads 1"@,
            "set randomseed 100"@,
            "optimize"@,
            "write {sol}"@,
        ]);
        LpCliBackend {
            name: "cplex-cli".to_owned(),
            program: cplex_bin,
            args,
            format: SolutionFormat::CplexXml,
            workdir,
        }
    }

    /// HiGHS CLI recipe.
    pub fn highs(highs_bin: String, workdir: String) -> (r: Self)
        ensures
            r.name@ == "highs-cli"@,
            r.program == highs_bin,
            texts(r.args@) == seq!["--solution_file"@, "{sol}"@, "--random_seed"@, "100"@, "{lp}"@],
            r.format == SolutionFormat::VarValueLines,
            r.workdir == workdir,
    {
        let mut args: Vec<String> = Vec::new();
        args.push("--solution_file".to_owned());
        args.push("{sol}".to_owned());
        args.push("--random_seed".to_owned());
        args.push("100".to_owned());
        args.push("{lp}".to_owned());
        assert(texts(args@) =~= seq![
            "--solution_file"@,
            "{sol}"@,
            "--random_seed"@,
            "100"@,
            "{lp}"@,
        ]);
        LpCliBackend {
            name: "highs-cli".to_owned(),
            program: highs_bin,
            args,
            format: SolutionFormat::VarValueLines,
            workdir,
        }
    }
}

// ------------------------------------------------------------ command lines

/// `pat` stands in `s` at position `i`.
pub open spec fn stands_at(s: Seq<char>, pat: Seq<char>, i: int) -> bool {
    0 <= i && i + pat.len() <= s.len() && s.subrange(i, i + pat.len()) == pat
}

/// `s` from position `i` on with every occurrence of `pat` replaced, from left
/// to right.
pub open spec fn replaced(s: Seq<char>, pat: Seq<char>, by: Seq<char>, i: int) -> Seq<char>
    decreases s.len() - i,
{
    if i < 0 || i >= s.len() {
        Seq::empty()
    } else if pat.len() > 0 && stands_at(s, pat, i) {
        by + replaced(s, pat, by, i + pat.len())
    } else {
        seq![s[i]] + replaced(s, pat, by, i + 1)
    }
}

/// Whether `pat` stands in `s` at position `i`.
fn find_at(s: &Vec<char>, pat: &Vec<char>, i: usize) -> (r: bool)
    ensures
        r == stands_at(s@, pat@, i as int),
{
    if pat.len() > s.len() || i > s.len() - pat.len() {
        return false;
    }
    let r: bool = same_chars(slice_subrange(s.as_slice(), i, i + pat.len()), pat.as_slice());
    r
}

/// `s` with every occurrence of `pat` replaced, from left to right.
fn replace_all(s: &str, pat: &str, by: &str) -> (r: String)
    requires
        pat@.len() > 0,
    ensures
        r@ == replaced(s@, pat@, by@, 0),
{
    let chars = chars_of(s);
    let pattern = chars_of(pat);
    let mut out = String::new();
    let mut i: usize = 0;
    assert(out@ + replaced(s@, pat@, by@, 0) =~= replaced(s@, pat@, by@, 0));
    while i < chars.len()
        invariant
            chars@ == s@,
            pattern@ == pat@,
            pat@.len() > 0,
            i <= s@.len(),
            out@ + replaced(s@, pat@, by@, i as int) == replaced(s@, pat@, by@, 0),
        decreases chars.len() - i,
    {
        let ghost before = out@;
        if find_at(&chars, &pattern, i) {
            out.append(by);
            assert(out@ + replaced(s@, pat@, by@, i + pat@.len()) =~= before + replaced(
                s@,
                pat@,
                by@,
                i as int,
            ));
            i = i + pattern.len();
        } else {
            out.append(s.substring_char(i, i + 1));
            assert(s@.subrange(i as int, i + 1) =~= seq![s@[i as int]]);
            assert(out@ + replaced(s@, pat@, by@, i + 1) =~= before + replaced(s@, pat@, by@, i as int));
            i = i + 1;
        }
    }
    assert(out@ + replaced(s@, pat@, by@, i as int) =~= out@);
    out
}

/// An argument with the paths of the model and solution files put in.
pub open spec fn filled_in(arg: Seq<char>, lp: Seq<char>, sol: Seq<char>) -> Seq<char> {
    replaced(replaced(arg, "{lp}"@, lp, 0), "{sol}"@, sol, 0)
}

impl LpCliBackend {
    /// The arguments for a run on the given files.
    pub fn command_line(&self, lp_path: &str, sol_path: &str) -> (r: Vec<String>)
        ensures
            texts(r@) == Seq::new(
                self.args@.len(),
                |i: int| filled_in(self.args@[i]@, lp_path@, sol_path@),
            ),
    {
        proof {
            reveal_strlit("{lp}");
            reveal_strlit("{sol}");
        }
        let ghost want = Seq::new(
            self.args@.len(),
            |i: int| filled_in(self.args@[i]@, lp_path@, sol_path@),
        );
        let mut out: Vec<String> = Vec::new();
        assert(texts(out@) =~= want.take(0));
        for i in 0..self.args.len()
            invariant
                "{lp}"@.len() > 0,
                "{sol}"@.len() > 0,
                want == Seq::new(
                    self.args@.len(),
                    |i: int| filled_in(self.args@[i]@, lp_path@, sol_path@),
                ),
                texts(out@) == want.take(i as int),
                out@.len() == i,
        {
            let half = replace_all(self.args[i].as_str(), "{lp}", lp_path);
            let arg = replace_all(half.as_str(), "{sol}", sol_path);
            let ghost before = out@;
            out.push(arg);
            assert(texts(out@) =~= texts(before).push(arg@));
            assert(texts(out@) =~= want.take(i + 1));
        }
        assert(want.take(want.len() as int) =~= want);
        out
    }
}

// -------------------------------------------------------------- searching

/// The first position from `lo` on at which `pat` stands, ending at `hi` at the
/// latest.
pub open spec fn found(s: Seq<char>, pat: Seq<char>, lo: int, hi: int) -> Option<int>
    decreases hi - lo + 1,
{
    if lo + pat.len() > hi {
        None
    } else if stands_at(s, pat, lo) {
        Some(lo)
    } else {
        found(s, pat, lo + 1, hi)
    }
}

/// The first position from `lo` on at which `pat` stands, ending at `hi` at the
/// latest.
fn find(s: &Vec<char>, pat: &Vec<char>, lo: usize, hi: usize) -> (r: Option<usize>)
    requires
        lo <= hi <= s@.len(),
        pat@.len() > 0,
    ensures
        match (r, found(s@, pat@, lo as int, hi as int)) {
            (Some(i), Some(j)) => i == j && lo <= i && i + pat@.len() <= hi,
            (None, None) => true,
            _ => false,
        },
{
    let mut i: usize = lo;
    while i < hi && pat.len() <= hi - i
        invariant
            lo <= i <= hi <= s@.len(),
            pat@.len() > 0,
            found(s@, pat@, lo as int, hi as int) == found(s@, pat@, i as int, hi as int),
        decreases hi - i,
    {
        if find_at(s, pat, i) {
            return Some(i);
        }
        i = i + 1;
    }
    None
}

/// The last of the first `n` variables named `name`.
pub open spec fn named<N>(vars: Seq<VarModel<N>>, name: Seq<char>, n: nat) -> Option<int>
    decreases n,
{
    if n == 0 {
        None
    } else if vars[n - 1].name == name {
        Some(n - 1)
    } else {
        named(vars, name, (n - 1) as nat)
    }
}

/// The number that a text spells.
pub open spec fn number_in<N: Num>(s: Seq<char>) -> Option<N> {
    N::spelled(choose|t: &[char]| t@ == s)
}

/// The values with `value` put at the variable `name`, where there is such a
/// variable and the value spells a number.
pub open spec fn assigned<N: Num>(p: Program<N>, values: Seq<N>, name: Seq<char>, value: Seq<char>) -> Seq<N> {
    match (named(p.vars, name, p.vars.len()), number_in::<N>(value)) {
        (Some(i), Some(x)) => values.update(i, x),
        _ => values,
    }
}

/// The names of the variables.
fn names_of<N: Num>(model: &Model<N>) -> (r: Vec<Vec<char>>)
    ensures
        r@.len() == model@.vars.len(),
        forall|i: int| 0 <= i < r@.len() ==> (#[trigger] r@[i])@ == model@.vars[i].name,
{
    let mut out: Vec<Vec<char>> = Vec::new();
    for i in 0..model.vars.len()
        invariant
            out@.len() == i,
            forall|j: int| 0 <= j < i ==> (#[trigger] out@[j])@ == model@.vars[j].name,
    {
        out.push(chars_of(model.vars[i].name.as_str()));
    }
    out
}

/// Puts a value at a variable, where there is such a variable and the value
/// spells a number.
fn assign<N: Num>(
    Ghost(p): Ghost<Program<N>>,
    names: &Vec<Vec<char>>,
    values: &mut Vec<N>,
    name: &[char],
    value: &[char],
)
    requires
        names@.len() == p.vars.len(),
        forall|i: int| 0 <= i < names@.len() ==> (#[trigger] names@[i])@ == p.vars[i].name,
        old(values)@.len() == p.vars.len(),
    ensures
        final(values)@ == assigned(p, old(values)@, name@, value@),
        final(values)@.len() == p.vars.len(),
{
    broadcast use vstd::slice::axiom_slice_ext_equal;

    let parsed: Option<N> = N::parse(value);
    proof {
        let t = choose|t: &[char]| t@ == value@;
        assert(t@ == value@);
        assert(t =~= value) by {
            assert forall|i: int| 0 <= i < t.len() implies t[i] == value[i] by {
                assert(t@[i] == value@[i]);
            }
        }
    }
    match parsed {
        Some(x) => {
            let mut n: usize = names.len();
            while n > 0
                invariant
                    n <= names@.len(),
                    names@.len() == p.vars.len(),
                    forall|i: int| 0 <= i < names@.len() ==> (#[trigger] names@[i])@ == p.vars[i].name,
                    values@ == old(values)@,
                    values@.len() == p.vars.len(),
                    number_in::<N>(value@) == Some(x),
                    named(p.vars, name@, p.vars.len()) == named(p.vars, name@, n as nat),
                decreases n,
            {
                if same_chars(names[n - 1].as_slice(), name) {
                    values.set(n - 1, x);
                    return;
                }
                n = n - 1;
            }
        },
        None => {},
    }
}

// ------------------------------------------------------------- CPLEX XML

/// The value of an attribute in `s[lo..hi]`, as its first and last position:
/// what stands between `key="` and the next quote.
pub open spec fn attribute(s: Seq<char>, key: Seq<char>, lo: int, hi: int) -> Option<(int, int)> {
    match found(s, key, lo, hi) {
        Some(i) => match found(s, "\""@, i + key.len(), hi) {
            Some(j) => Some((i + key.len(), j)),
            None => None,
        },
        None => None,
    }
}

/// The values after the element in `s[lo..hi]`.
pub open spec fn after_element<N: Num>(
    p: Program<N>,
    values: Seq<N>,
    s: Seq<char>,
    lo: int,
    hi: int,
) -> Seq<N> {
    match (attribute(s, "name=\""@, lo, hi), attribute(s, "value=\""@, lo, hi)) {
        (Some((a, b)), Some((c, d))) => assigned(p, values, s.subrange(a, b), s.subrange(c, d)),
        _ => values,
    }
}

/// The values after the `<variable` elements of `s` from `lo` on; an element
/// reaches up to the next one.
pub open spec fn xml_values<N: Num>(p: Program<N>, values: Seq<N>, s: Seq<char>, lo: int) -> Seq<N>
    decreases s.len() - lo,
    when "<variable "@.len() > 0
{
    let tag = "<variable "@;
    match found(s, tag, lo, s.len() as int) {
        Some(i) => if i < lo || i + tag.len() > s.len() {
            values
        } else {
            let start = i + tag.len();
            let end = match found(s, tag, start, s.len() as int) {
                Some(j) => if start <= j <= s.len() {
                    j
                } else {
                    s.len() as int
                },
                None => s.len() as int,
            };
            xml_values(p, after_element(p, values, s, start, end), s, end)
        },
        None => values,
    }
}

/// A list of zeros.
pub open spec fn zeros<N: Num>(n: nat) -> Seq<N> {
    Seq::new(n, |i: int| zero_of())
}

fn make_zeros<N: Num>(n: usize) -> (r: Vec<N>)
    ensures
        r@ == zeros::<N>(n as nat),
{
    let mut out: Vec<N> = Vec::new();
    for i in 0..n
        invariant
            out@ == zeros::<N>(i as nat),
    {
        out.push(zero());
        assert(out@ =~= zeros::<N>((i + 1) as nat));
    }
    out
}

/// The value of an attribute in `s[lo..hi]`.
fn find_attribute(s: &Vec<char>, key: &Vec<char>, lo: usize, hi: usize) -> (r: Option<(usize, usize)>)
    requires
        lo <= hi <= s@.len(),
        key@.len() > 0,
    ensures
        match (r, attribute(s@, key@, lo as int, hi as int)) {
            (Some((a, b)), Some((c, d))) => a == c && b == d && a <= b <= hi,
            (None, None) => true,
            _ => false,
        },
{
    proof {
        reveal_strlit("\"");
    }
    let quote = chars_of("\"");
    match find(s, key, lo, hi) {
        Some(i) => match find(s, &quote, i + key.len(), hi) {
            Some(j) => Some((i + key.len(), j)),
            None => None,
        },
        None => None,
    }
}

/// Minimal scan of CPLEX solution XML: just attribute pairs on
/// `<variable .../>` elements. Variables that the text does not name are 0.
pub fn parse_cplex_xml<N: Num>(text: &str, model: &Model<N>) -> (r: Vec<N>)
    ensures
        r@ == xml_values(model@, zeros(model@.vars.len()), text@, 0),
        r@.len() == model@.vars.len(),
{
    proof {
        reveal_strlit("<variable ");
        reveal_strlit("name=\"");
        reveal_strlit("value=\"");
    }
    let s = chars_of(text);
    let tag = chars_of("<variable ");
    let name_key = chars_of("name=\"");
    let value_key = chars_of("value=\"");
    let names = names_of(model);
    let ghost p = model@;
    let mut values: Vec<N> = make_zeros(model.vars.len());
    let mut lo: usize = 0;
    let ghost want = xml_values(p, zeros(p.vars.len()), s@, 0);
    loop
        invariant
            "<variable "@.len() > 0,
            tag@ == "<variable "@,
            name_key@ == "name=\""@,
            value_key@ == "value=\""@,
            name_key@.len() > 0,
            value_key@.len() > 0,
            p == model@,
            names@.len() == p.vars.len(),
            forall|i: int| 0 <= i < names@.len() ==> (#[trigger] names@[i])@ == p.vars[i].name,
            values@.len() == p.vars.len(),
            lo <= s@.len(),
            want == xml_values(p, values@, s@, lo as int),
        ensures
            values@ == want,
            values@.len() == p.vars.len(),
        decreases s@.len() - lo,
    {
        match find(&s, &tag, lo, s.len()) {
            Some(i) => {
                let start: usize = i + tag.len();
                let end: usize = match find(&s, &tag, start, s.len()) {
                    Some(j) => j,
                    None => s.len(),
                };
                let a = find_attribute(&s, &name_key, start, end);
                let b = find_attribute(&s, &value_key, start, end);
                match (a, b) {
                    (Some((n0, n1)), Some((v0, v1))) => {
                        assign(
                            Ghost(p),
                            &names,
                            &mut values,
                            slice_subrange(s.as_slice(), n0, n1),
                            slice_subrange(s.as_slice(), v0, v1),
                        );
                    },
                    _ => {},
                }
                lo = end;
            },
            None => {
                break;
            },
        }
    }
    values
}

// ---------------------------------------------------------- name/value lines

/// A white-space character.
pub open spec fn is_space(c: char) -> bool {
    let n = c as u32;
    ||| 9 <= n <= 13
    ||| n == 32
    ||| n == 0x85
    ||| n == 0xa0
    ||| n == 0x1680
    ||| 0x2000 <= n <= 0x200a
    ||| n == 0x2028
    ||| n == 0x2029
    ||| n == 0x202f
    ||| n == 0x205f
    ||| n == 0x3000
}

fn space(c: char) -> (r: bool)
    ensures
        r == is_space(c),
{
    let n: u32 = c as u32;
    (9 <= n && n <= 13) || n == 32 || n == 0x85 || n == 0xa0 || n == 0x1680 || (0x2000 <= n && n <= 0x200a)
        || n == 0x2028 || n == 0x2029 || n == 0x202f || n == 0x205f || n == 0x3000
}

/// The first position from `lo` on whose character is a space (`want`) or is
/// none, `hi` if there is none.
pub open spec fn skip(s: Seq<char>, want: bool, lo: int, hi: int) -> int
    decreases hi - lo,
{
    if lo >= hi || is_space(s[lo]) == want {
        lo
    } else {
        skip(s, want, lo + 1, hi)
    }
}

/// The end of the line that starts at `lo`.
pub open spec fn line_end(s: Seq<char>, lo: int) -> int
    decreases s.len() - lo,
{
    if lo >= s.len() || s[lo] == '\n' {
        lo
    } else {
        line_end(s, lo + 1)
    }
}

/// The values after the line `s[lo..hi]`: its first token names a variable and
/// its second spells a number, else the line is ignored.
pub open spec fn after_line<N: Num>(p: Program<N>, values: Seq<N>, s: Seq<char>, lo: int, hi: int) -> Seq<N> {
    let a = skip(s, false, lo, hi);
    let b = skip(s, true, a, hi);
    let c = skip(s, false, b, hi);
    let d = skip(s, true, c, hi);
    if a < b && c < d {
        assigned(p, values, s.subrange(a, b), s.subrange(c, d))
    } else {
        values
    }
}

/// The values after the lines of `s` from `lo` on.
pub open spec fn line_values<N: Num>(p: Program<N>, values: Seq<N>, s: Seq<char>, lo: int) -> Seq<N>
    decreases s.len() - lo + 1,
{
    if lo >= s.len() {
        values
    } else {
        let hi = line_end(s, lo);
        if hi < lo || hi > s.len() {
            values
        } else {
            line_values(p, after_line(p, values, s, lo, hi), s, hi + 1)
        }
    }
}

fn find_skip(s: &Vec<char>, want: bool, lo: usize, hi: usize) -> (r: usize)
    requires
        lo <= hi <= s@.len(),
    ensures
        r == skip(s@, want, lo as int, hi as int),
        lo <= r <= hi,
{
    let mut i: usize = lo;
    while i < hi && space(s[i]) != want
        invariant
            lo <= i <= hi <= s@.len(),
            skip(s@, want, lo as int, hi as int) == skip(s@, want, i as int, hi as int),
        decreases hi - i,
    {
        i = i + 1;
    }
    i
}

fn find_line_end(s: &Vec<char>, lo: usize) -> (r: usize)
    requires
        lo <= s@.len(),
    ensures
        r == line_end(s@, lo as int),
        lo <= r <= s@.len(),
{
    let mut i: usize = lo;
    while i < s.len() && s[i] != '\n'
        invariant
            lo <= i <= s@.len(),
            line_end(s@, lo as int) == line_end(s@, i as int),
        decreases s@.len() - i,
    {
        i = i + 1;
    }
    i
}

/// Any line whose first token names a model variable and whose second parses
/// as a number is taken as an assignment; everything else is ignored.
pub fn parse_var_value_lines<N: Num>(text: &str, model: &Model<N>) -> (r: Vec<N>)
    ensures
        r@ == line_values(model@, zeros(model@.vars.len()), text@, 0),
        r@.len() == model@.vars.len(),
{
    let s = chars_of(text);
    let names = names_of(model);
    let ghost p = model@;
    let mut values: Vec<N> = make_zeros(model.vars.len());
    let mut lo: usize = 0;
    let ghost want = line_values(p, zeros(p.vars.len()), s@, 0);
    while lo < s.len()
        invariant
            p == model@,
            names@.len() == p.vars.len(),
            forall|i: int| 0 <= i < names@.len() ==> (#[trigger] names@[i])@ == p.vars[i].name,
            values@.len() == p.vars.len(),
            want == line_values(p, values@, s@, lo as int),
        decreases s@.len() - lo,
    {
        let ghost before = values@;
        let hi: usize = find_line_end(&s, lo);
        let a: usize = find_skip(&s, false, lo, hi);
        let b: usize = find_skip(&s, true, a, hi);
        let c: usize = find_skip(&s, false, b, hi);
        let d: usize = find_skip(&s, true, c, hi);
        if a < b && c < d {
            assign(
                Ghost(p),
                &names,
                &mut values,
                slice_subrange(s.as_slice(), a, b),
                slice_subrange(s.as_slice(), c, d),
            );
        }
        assert(values@ == after_line(p, before, s@, lo as int, hi as int));
        assert(want == line_values(p, values@, s@, hi + 1));
        if hi == s.len() {
            lo = hi;
        } else {
            lo = hi + 1;
        }
    }
    values
}

// ------------------------------------------------------------- the outcome

/// `c` is the letter `l`, in upper or lower case.
pub open spec fn is_letter(c: char, l: char) -> bool {
    c == l || c as u64 + 32 == l as u64
}

/// The word `infeasible` stands at position `i`, in upper or lower case.
pub open spec fn infeasible_at(s: Seq<char>, i: int) -> bool {
    let word = "infeasible"@;
    &&& 0 <= i
    &&& i + word.len() <= s.len()
    &&& forall|k: int| 0 <= k < word.len() ==> is_letter(#[trigger] s[i + k], word[k])
}

/// The solver says that the model is infeasible.
pub open spec fn says_infeasible(s: Seq<char>) -> bool {
    exists|i: int| #[trigger] infeasible_at(s, i)
}

/// Whether the solver says that the model is infeasible.
fn find_infeasible(text: &str) -> (r: bool)
    ensures
        r == says_infeasible(text@),
{
    let s = chars_of(text);
    let word = chars_of("infeasible");
    let n: usize = word.len();
    let mut i: usize = 0;
    while n <= s.len() && i <= s.len() - n
        invariant
            s@ == text@,
            word@ == "infeasible"@,
            n == word@.len(),
            i <= s@.len() + 1,
            forall|j: int| 0 <= j < i ==> !#[trigger] infeasible_at(s@, j),
        decreases s@.len() + 1 - i,
    {
        let mut k: usize = 0;
        let mut same: bool = true;
        while k < n && same
            invariant
                word@ == "infeasible"@,
                n == word@.len(),
                i + n <= s@.len(),
                k <= n,
                same ==> forall|j: int| 0 <= j < k ==> is_letter(#[trigger] s@[i + j], word@[j]),
                !same ==> exists|j: int| 0 <= j < n && !is_letter(#[trigger] s@[i + j], word@[j]),
            decreases n - k + if same { 1int } else { 0int },
        {
            assert(s.len() <= usize::MAX);
            let c: char = s[i + k];
            let l: char = word[k];
            assert(s@[i + k] == c);
            let code: u64 = c as u64;
            let lower: u64 = l as u64;
            if c == l || (lower >= 32 && code == lower - 32) {
                k = k + 1;
            } else {
                same = false;
            }
        }
        if same {
            assert(infeasible_at(s@, i as int));
            return true;
        }
        i = i + 1;
    }
    assert forall|j: int| !#[trigger] infeasible_at(s@, j) by {}
    false
}

/// The last bytes of the solver's output, 500 at most.
pub open spec fn tail_bytes(s: Seq<u8>) -> Seq<u8> {
    if s.len() <= 500 {
        s
    } else {
        s.subrange(s.len() - 500, s.len() as int)
    }
}

/// Where the tail of an output of `n` bytes starts.
pub open spec fn tail_start(n: nat) -> int {
    if n <= 500 {
        0
    } else {
        n - 500
    }
}

/// The point that a solution file gives.
pub open spec fn read_point<N: Num>(format: SolutionFormat, p: Program<N>, text: Seq<char>) -> Seq<N> {
    match format {
        SolutionFormat::CplexXml => xml_values(p, zeros(p.vars.len()), text, 0),
        SolutionFormat::VarValueLines => line_values(p, zeros(p.vars.len()), text, 0),
    }
}

/// What a run comes to: `stdout` is what the solver printed, `solution` what it
/// wrote, if it wrote anything.
pub open spec fn is_outcome<N: Num>(
    backend: LpCliBackend,
    p: Program<N>,
    stdout: &str,
    solution: Option<&str>,
    r: Result<Solution<N>, SolveError>,
) -> bool {
    if says_infeasible(stdout@) {
        r matches Ok(s) && s.status == SolStatus::Infeasible && s.objective == N::no_number() && s.values@
            == zeros::<N>(p.vars.len())
    } else {
        match solution {
            None => r matches Err(SolveError::Backend(m)) && exists|tail: &str|
                #![trigger tail@]
                tail.spec_bytes() == tail_bytes(stdout.spec_bytes()) && m@ == backend.name@
                    + ": no solution file produced; stdout tail: "@ + tail@,
            Some(text) => r matches Ok(s) && s.status == SolStatus::Optimal && s.values@ == read_point(
                backend.format,
                p,
                text@,
            ) && s.objective == objective_value(p, s.values@),
        }
    }
}

impl LpCliBackend {
    /// Reads what a run left behind.
    pub fn read_outcome<N: Num>(&self, model: &Model<N>, stdout: &str, solution: Option<&str>) -> (r: Result<
        Solution<N>,
        SolveError,
    >)
        requires
            !says_infeasible(stdout@) && solution is None ==> is_char_boundary(
                stdout.spec_bytes(),
                tail_start(stdout.spec_bytes().len()),
            ),
        ensures
            is_outcome(*self, model@, stdout, solution, r),
            r matches Ok(s) ==> s.values@.len() == model@.vars.len(),
    {
        if find_infeasible(stdout) {
            let s = Solution::infeasible(model);
            assert(s.values@ =~= zeros::<N>(model@.vars.len()));
            return Ok(s);
        }
        match solution {
            None => {
                let n: usize = stdout.as_bytes().len();
                let start: usize = if n <= 500 {
                    0
                } else {
                    n - 500
                };
                let (_, tail) = stdout.split_at(start);
                let mut out = self.name.clone();
                out.append(": no solution file produced; stdout tail: ");
                out.append(tail);
                proof {
                    let bytes = stdout.spec_bytes();
                    assert(bytes.subrange(start as int, bytes.len() as int) =~= tail_bytes(bytes));
                    assert(tail.spec_bytes() == tail_bytes(bytes));
                    assert(out@ == self.name@ + ": no solution file produced; stdout tail: "@ + tail@);
                }
                Err(SolveError::Backend(out))
            },
            Some(text) => {
                let values: Vec<N> = match self.format {
                    SolutionFormat::CplexXml => parse_cplex_xml(text, model),
                    SolutionFormat::VarValueLines => parse_var_value_lines(text, model),
                };
                Ok(Solution::optimal(model, values))
            },
        }
    }
}

// -------------------------------------------------------------------- laws

/// A search finds the first place at which a text stands, where there is one.
pub proof fn searches_find_the_first_place(s: Seq<char>, pat: Seq<char>, lo: int, hi: int)
    requires
        0 <= lo,
        hi <= s.len(),
    ensures
        match found(s, pat, lo, hi) {
            Some(i) => lo <= i && i + pat.len() <= hi && s.subrange(i, i + pat.len()) == pat && forall|j: int|
                lo <= j < i ==> !#[trigger] stands_at(s, pat, j),
            None => forall|j: int| lo <= j && j + pat.len() <= hi ==> !#[trigger] stands_at(s, pat, j),
        },
    decreases hi - lo + 1,
{
    if lo + pat.len() <= hi && !stands_at(s, pat, lo) {
        searches_find_the_first_place(s, pat, lo + 1, hi);
    }
}

/// A line ends with the first line break, or with the text.
pub proof fn lines_end_at_the_first_break(s: Seq<char>, lo: int)
    requires
        0 <= lo <= s.len(),
    ensures
        lo <= line_end(s, lo) <= s.len(),
        line_end(s, lo) < s.len() ==> s[line_end(s, lo)] == '\n',
        forall|j: int| lo <= j < line_end(s, lo) ==> #[trigger] s[j] != '\n',
    decreases s.len() - lo,
{
    if lo < s.len() && s[lo] != '\n' {
        lines_end_at_the_first_break(s, lo + 1);
    }
}

/// A token ends where white space starts, and white space where a token starts.
pub proof fn tokens_end_at_white_space(s: Seq<char>, want: bool, lo: int, hi: int)
    requires
        0 <= lo <= hi <= s.len(),
    ensures
        lo <= skip(s, want, lo, hi) <= hi,
        skip(s, want, lo, hi) < hi ==> is_space(s[skip(s, want, lo, hi)]) == want,
        forall|j: int| lo <= j < skip(s, want, lo, hi) ==> is_space(#[trigger] s[j]) != want,
    decreases hi - lo,
{
    if lo < hi && is_space(s[lo]) != want {
        tokens_end_at_white_space(s, want, lo + 1, hi);
    }
}

/// A value goes to a variable of its name, and to no other; where no variable has the name,
/// or the text spells no number, nothing changes.
pub proof fn values_go_to_the_variable_of_their_name<N: Num>(
    p: Program<N>,
    values: Seq<N>,
    name: Seq<char>,
    text: Seq<char>,
    i: int,
)
    requires
        values.len() == p.vars.len(),
        0 <= i < p.vars.len(),
    ensures
        assigned(p, values, name, text).len() == values.len(),
        p.vars[i].name != name ==> assigned(p, values, name, text)[i] == values[i],
        number_in::<N>(text) is None ==> assigned(p, values, name, text) == values,
        p.vars[i].name == name && (forall|j: int|
            0 <= j < p.vars.len() && j != i ==> (#[trigger] p.vars[j]).name != name) ==> (number_in::<N>(
            text,
        ) matches Some(x) ==> assigned(p, values, name, text)[i] == x),
{
    lemma_named(p.vars, name, p.vars.len());
}

proof fn lemma_named<N>(vars: Seq<VarModel<N>>, name: Seq<char>, n: nat)
    requires
        n <= vars.len(),
    ensures
        match named(vars, name, n) {
            Some(i) => 0 <= i < n && vars[i].name == name,
            None => forall|j: int| 0 <= j < n ==> (#[trigger] vars[j]).name != name,
        },
    decreases n,
{
    if n > 0 {
        lemma_named(vars, name, (n - 1) as nat);
    }
}

} // verus!
