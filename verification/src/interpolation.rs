//! Interpolation: scripts for solvers that interpolate, what their output means,
//! and the transition relation of a body in linear integer arithmetic.
//!
//! Integers stand for `int` values without wraparound. Running a solver is the
//! caller's.

use vstd::prelude::*;
use vstd::string::*;

use crate::ir::{Body, ObligationId};
use crate::scan;
use crate::scan::{lines_of, slice, split_sexp_args, to_text, trimmed, words_of};
use crate::smt_text;
use crate::smt_text::{
    conjoin, make_edge_facts, make_facts, walk_body, Clause, ClauseList, ClauseSink, FreshPool,
    LiaTheory, PoolV, Recorded,
};
use crate::text;
use crate::text::{chars_of, make_join, make_sexp1, numbered, same, starts_with};

verus! {

/// The result of an interpolation query.
#[derive(Debug)]
pub enum InterpolationResult {
    /// The two parts contradict each other, and this is an interpolant.
    Interpolant(String),
    /// The two parts can hold together.
    Sat,
    /// The solver does not interpolate, or said something else.
    Unsupported,
}

/// View of [`InterpolationResult`].
#[verifier::ext_equal]
pub enum InterpolationV {
    Interpolant(Seq<char>),
    Sat,
    Unsupported,
}

impl View for InterpolationResult {
    type V = InterpolationV;

    open spec fn view(&self) -> InterpolationV {
        match *self {
            InterpolationResult::Interpolant(s) => InterpolationV::Interpolant(s@),
            InterpolationResult::Sat => InterpolationV::Sat,
            InterpolationResult::Unsupported => InterpolationV::Unsupported,
        }
    }
}

/// A solver that interpolates.
#[derive(Clone, Debug)]
pub enum InterpolationSolver {
    /// The program to run.
    Z3(String),
    /// The Java archive to run.
    SmtInterpol(String),
}

/// A program to run with a script on its standard input.
#[derive(Debug)]
pub struct SolverCall {
    pub binary: String,
    pub args: Vec<String>,
    pub script: String,
}

/// The two parts, each under a name.
pub open spec fn parts_text(declarations: Seq<char>, a: Seq<char>, b: Seq<char>) -> Seq<char> {
    declarations + "\n(assert (! "@ + a + " :named partA))\n(assert (! "@ + b
        + " :named partB))\n(check-sat)\n"@
}

/// The script that asks for an interpolant.
pub open spec fn query_text(
    solver: InterpolationSolver,
    declarations: Seq<char>,
    a: Seq<char>,
    b: Seq<char>,
) -> Seq<char> {
    match solver {
        InterpolationSolver::Z3(_) => "(set-logic QF_LIA)\n"@ + parts_text(declarations, a, b)
            + "(get-interpolant itp partA)\n(exit)\n"@,
        InterpolationSolver::SmtInterpol(_) => {
            "(set-option :produce-interpolants true)\n(set-logic QF_LIA)\n"@ + parts_text(
                declarations,
                a,
                b,
            ) + "(get-interpolants partA partB)\n(exit)\n"@
        },
    }
}

/// Does the line say that there is no interpolant?
pub open spec fn refuses(line: Seq<char>) -> bool {
    line == "unsupported"@ || text::starts(line, "(error"@) || text::starts(line, ";"@)
}

/// The interpolant in the lines from `i` on: the first line that is not blank,
/// unless it refuses.
pub open spec fn found_interpolant(lines: Seq<Seq<char>>, i: nat) -> InterpolationV
    decreases lines.len() - i,
{
    if i >= lines.len() {
        InterpolationV::Unsupported
    } else {
        let line = scan::trim(lines[i as int]);
        if line.len() == 0 {
            found_interpolant(lines, i + 1)
        } else if refuses(line) {
            InterpolationV::Unsupported
        } else {
            InterpolationV::Interpolant(line)
        }
    }
}

/// What the lines of a solver mean.
pub open spec fn response(lines: Seq<Seq<char>>) -> InterpolationV {
    if lines.len() == 0 {
        InterpolationV::Unsupported
    } else if lines[0] == "sat"@ {
        InterpolationV::Sat
    } else if lines[0] == "unsat"@ {
        found_interpolant(lines, 1)
    } else {
        InterpolationV::Unsupported
    }
}

/// What the lines of a solver mean.
pub fn parse_interpolant_response(lines: &Vec<String>) -> (r: InterpolationResult)
    ensures
        r@ == response(text::views(lines@)),
{
    let ghost all = text::views(lines@);
    if lines.len() == 0 {
        return InterpolationResult::Unsupported;
    }
    proof {
        assert(all[0] == lines@[0]@);
        reveal_strlit("sat");
        reveal_strlit("unsat");
        assert("sat"@.len() != "unsat"@.len());
    }
    if same(lines[0].as_str(), "sat") {
        return InterpolationResult::Sat;
    }
    if !same(lines[0].as_str(), "unsat") {
        return InterpolationResult::Unsupported;
    }
    let mut i: usize = 1;
    while i < lines.len()
        invariant
            1 <= i <= lines@.len(),
            all == text::views(lines@),
            found_interpolant(all, 1) == found_interpolant(all, i as nat),
            response(all) == found_interpolant(all, 1),
        decreases lines@.len() - i,
    {
        let line = to_text(&trimmed(&chars_of(lines[i].as_str())));
        proof {
            assert(all[i as int] == lines@[i as int]@);
        }
        if !same(line.as_str(), "") {
            proof {
                reveal_strlit("");
                if line@.len() == 0 {
                    assert(line@ =~= ""@);
                }
            }
            if same(line.as_str(), "unsupported") || starts_with(line.as_str(), "(error")
                || starts_with(line.as_str(), ";") {
                return InterpolationResult::Unsupported;
            }
            return InterpolationResult::Interpolant(line);
        }
        proof {
            reveal_strlit("");
        }
        i += 1;
    }
    InterpolationResult::Unsupported
}

/// The lines of a solver's output, without white space around them.
pub fn solver_lines(stdout: &str) -> (r: Vec<String>)
    ensures
        text::views(r@) == scan::trimmed_lines(stdout@),
{
    let lines = lines_of(&chars_of(stdout));
    let ghost all = scan::char_views(lines@);
    let mut r: Vec<String> = Vec::new();
    let mut i: usize = 0;
    while i < lines.len()
        invariant
            i <= lines@.len(),
            all == scan::char_views(lines@),
            r@.len() == i,
            forall|j: int| 0 <= j < i ==> (#[trigger] r@[j])@ == all[j],
        decreases lines@.len() - i,
    {
        r.push(to_text(&lines[i]));
        i += 1;
    }
    proof {
        assert(text::views(r@) =~= all);
    }
    r
}

/// What comes of a sequence of cuts: the interpolants, or why there are none.
/// `None` while answers are missing.
pub open spec fn sequence(cuts: nat, answers: Seq<InterpolationV>, i: nat) -> Option<
    Result<Seq<Seq<char>>, Seq<char>>,
>
    decreases i,
{
    if i == 0 {
        Some(Ok(Seq::empty()))
    } else {
        match sequence(cuts, answers, (i - 1) as nat) {
            Some(Ok(v)) => if i > answers.len() {
                None
            } else {
                match answers[i - 1] {
                    InterpolationV::Interpolant(s) => Some(Ok(v.push(s))),
                    InterpolationV::Sat => Some(Err("path formula is SAT at cut point"@)),
                    InterpolationV::Unsupported => Some(
                        Err("interpolation not supported by solver"@),
                    ),
                }
            },
            other => other,
        }
    }
}

/// The views of a list of results.
pub open spec fn result_views(v: Seq<InterpolationResult>) -> Seq<InterpolationV> {
    v.map_values(|r: InterpolationResult| r@)
}

/// The conjunction of parts of a path.
pub open spec fn path_part(parts: Seq<Seq<char>>) -> Seq<char> {
    if parts.len() == 1 {
        parts[0]
    } else {
        text::sexp1("and"@, text::join_with(parts, " "@))
    }
}

/// The interpolant of the cut before the `k`th, if there is one.
pub open spec fn before_cut(answers: Seq<InterpolationV>, k: int) -> Option<Seq<char>> {
    if k == 0 {
        None
    } else {
        Some(answers[k - 1]->Interpolant_0)
    }
}

/// The two parts of the query for cut `k` of a path. The interpolant of the cut before
/// it, if there is one, stands for the parts that lead to it.
pub open spec fn cut_at(parts: Seq<Seq<char>>, before: Option<Seq<char>>, k: int) -> (
    Seq<char>,
    Seq<char>,
) {
    (
        match before {
            Some(i) => path_part(seq![i, parts[k - 1]]),
            None => parts[0],
        },
        path_part(parts.skip(k)),
    )
}

proof fn lemma_sequence_of_interpolants(cuts: nat, answers: Seq<InterpolationV>, i: nat)
    requires
        i <= answers.len(),
        forall|j: int| 0 <= j < answers.len() ==> (#[trigger] answers[j]) is Interpolant,
    ensures
        sequence(cuts, answers, i) == Some(
            Ok::<Seq<Seq<char>>, Seq<char>>(Seq::new(i, |j: int| answers[j]->Interpolant_0)),
        ),
    decreases i,
{
    if i == 0 {
        assert(Seq::new(0, |j: int| answers[j]->Interpolant_0) =~= Seq::<Seq<char>>::empty());
    } else {
        lemma_sequence_of_interpolants(cuts, answers, (i - 1) as nat);
        assert(answers[i - 1] is Interpolant);
        assert(Seq::new(i, |j: int| answers[j]->Interpolant_0) =~= Seq::new(
            (i - 1) as nat,
            |j: int| answers[j]->Interpolant_0,
        ).push(answers[i - 1]->Interpolant_0));
    }
}

/// The interpolants along a path form a chain: the first part implies the first
/// interpolant, an interpolant with the part after it implies the next one, and the
/// last one contradicts the last part. `implies` and `clashes` are any relations
/// between formulas that each answer of the solver to its query satisfies.
pub proof fn law_interpolants_form_a_chain(
    parts: Seq<Seq<char>>,
    answers: Seq<InterpolationV>,
    implies_: spec_fn(Seq<char>, Seq<char>) -> bool,
    clashes: spec_fn(Seq<char>, Seq<char>) -> bool,
)
    requires
        answers.len() >= 1,
        parts.len() == answers.len() + 1,
        forall|k: int| 0 <= k < answers.len() ==> (#[trigger] answers[k]) is Interpolant,
        forall|k: int|
            0 <= k < answers.len() ==> {
                let q = cut_at(parts, before_cut(answers, k), k + 1);
                let i = (#[trigger] answers[k])->Interpolant_0;
                implies_(q.0, i) && clashes(i, q.1)
            },
    ensures
        ({
            let n = answers.len();
            let r = sequence(n, answers, n);
            let v = r->Some_0->Ok_0;
            &&& r is Some && r->Some_0 is Ok && v.len() == n
            &&& implies_(parts[0], v[0])
            &&& forall|k: int|
                0 <= k < n - 1 ==> implies_(path_part(seq![#[trigger] v[k], parts[k + 1]]), v[k + 1])
            &&& clashes(v[n - 1], parts[n as int])
        }),
{
    let n = answers.len();
    lemma_sequence_of_interpolants(n, answers, n);
    let v = Seq::new(n, |j: int| answers[j]->Interpolant_0);
    assert(answers[0] is Interpolant);
    assert(answers[n - 1] is Interpolant);
    assert(parts.skip(n as int) =~= seq![parts[n as int]]);
    assert forall|k: int| 0 <= k < n - 1 implies implies_(
        path_part(seq![#[trigger] v[k], parts[k + 1]]),
        v[k + 1],
    ) by {
        assert(answers[k + 1] is Interpolant);
        assert(cut_at(parts, before_cut(answers, k + 1), k + 2).0 == path_part(
            seq![v[k], parts[k + 1]],
        ));
    }
}

fn make_part(parts: &[String], from: usize, to: usize) -> (s: String)
    requires
        from < to <= parts@.len(),
    ensures
        s@ == path_part(text::views(parts@).subrange(from as int, to as int)),
{
    let ghost all = text::views(parts@);
    let mut v: Vec<String> = Vec::new();
    let mut i: usize = from;
    while i < to
        invariant
            from <= i <= to <= parts@.len(),
            all == text::views(parts@),
            text::views(v@) == all.subrange(from as int, i as int),
        decreases to - i,
    {
        let ghost had = text::views(v@);
        v.push(parts[i].clone());
        proof {
            assert(text::views(v@) =~= had.push(all[i as int]));
            assert(all.subrange(from as int, i + 1) =~= all.subrange(from as int, i as int).push(
                all[i as int],
            ));
        }
        i += 1;
    }
    if to - from == 1 {
        proof {
            assert(text::views(v@)[0] == v@[0]@);
        }
        v[0].clone()
    } else {
        let j = make_join(&v, " ");
        make_sexp1("and", j.as_str())
    }
}

fn text_list1(a: &str) -> (r: Vec<String>)
    ensures
        text::views(r@) == seq![a@],
{
    let mut r: Vec<String> = Vec::new();
    r.push(a.to_string());
    proof {
        assert(text::views(r@) =~= seq![a@]);
    }
    r
}

fn text_list2(a: &str, b: &str) -> (r: Vec<String>)
    ensures
        text::views(r@) == seq![a@, b@],
{
    let mut r: Vec<String> = Vec::new();
    r.push(a.to_string());
    r.push(b.to_string());
    proof {
        assert(text::views(r@) =~= seq![a@, b@]);
    }
    r
}

impl InterpolationSolver {
    /// What to run for an interpolant of two parts.
    pub fn query(&self, declarations: &str, formula_a: &str, formula_b: &str) -> (r: SolverCall)
        ensures
            r.script@ == query_text(*self, declarations@, formula_a@, formula_b@),
            match *self {
                InterpolationSolver::Z3(b) => r.binary@ == b@ && text::views(r.args@) == seq![
                    "-in"@,
                    "-smt2"@,
                ],
                InterpolationSolver::SmtInterpol(jar) => r.binary@ == "java"@ && text::views(r.args@)
                    == seq!["-jar"@, jar@],
            },
    {
        let mut parts = declarations.to_string();
        parts.append("\n(assert (! ");
        parts.append(formula_a);
        parts.append(" :named partA))\n(assert (! ");
        parts.append(formula_b);
        parts.append(" :named partB))\n(check-sat)\n");
        match self {
            InterpolationSolver::Z3(binary) => {
                let mut script = "(set-logic QF_LIA)\n".to_string();
                script.append(parts.as_str());
                script.append("(get-interpolant itp partA)\n(exit)\n");
                SolverCall { binary: binary.clone(), args: text_list2("-in", "-smt2"), script }
            },
            InterpolationSolver::SmtInterpol(jar) => {
                let mut script =
                    "(set-option :produce-interpolants true)\n(set-logic QF_LIA)\n".to_string();
                script.append(parts.as_str());
                script.append("(get-interpolants partA partB)\n(exit)\n");
                SolverCall {
                    binary: "java".to_string(),
                    args: text_list2("-jar", jar.as_str()),
                    script,
                }
            },
        }
    }

    /// The result of a query, from the lines that the solver wrote, or none if it
    /// could not be run.
    pub fn interpolate(&self, reply: &Option<Vec<String>>) -> (r: InterpolationResult)
        ensures
            r@ == match *reply {
                Some(lines) => response(text::views(lines@)),
                None => InterpolationV::Unsupported,
            },
    {
        match reply {
            Some(lines) => parse_interpolant_response(lines),
            None => InterpolationResult::Unsupported,
        }
    }

    /// The two parts of the next query along a path, given the results of the cuts
    /// before it: the last interpolant with the part that it leads into, and what
    /// comes after.
    pub fn cut(&self, partitions: &[String], answers: &Vec<InterpolationResult>) -> (r: (
        String,
        String,
    ))
        requires
            answers@.len() + 1 < partitions@.len(),
            forall|i: int| 0 <= i < answers@.len() ==> (#[trigger] answers@[i]) is Interpolant,
        ensures
            (r.0@, r.1@) == cut_at(
                text::views(partitions@),
                before_cut(result_views(answers@), answers@.len() as int),
                answers@.len() as int + 1,
            ),
    {
        let n = partitions.len();
        let k = answers.len() + 1;
        let ghost all = text::views(partitions@);
        let b = make_part(partitions, k, n);
        proof {
            assert(all.subrange(k as int, all.len() as int) =~= all.skip(k as int));
        }
        if k == 1 {
            return (partitions[0].clone(), b);
        }
        proof {
            assert(answers@[k - 2] is Interpolant);
            assert(result_views(answers@)[k - 2] == answers@[k - 2]@);
        }
        let mut pair: Vec<String> = Vec::new();
        if let InterpolationResult::Interpolant(i) = &answers[k - 2] {
            pair.push(i.clone());
        }
        pair.push(partitions[k - 1].clone());
        let a = make_part(pair.as_slice(), 0, 2);
        proof {
            let i = answers@[k - 2]->Interpolant_0;
            assert(text::views(pair@).subrange(0, 2) =~= seq![i@, all[k - 1]]);
        }
        (a, b)
    }

    /// The interpolants along a path, one for each cut, from the results of the
    /// cuts in order. `None` if the result of the next cut is needed.
    pub fn sequence_interpolants(
        &self,
        partitions: &[String],
        answers: &Vec<InterpolationResult>,
    ) -> (r: Option<Result<Vec<String>, String>>)
        ensures
            ({
                let cuts = if partitions@.len() < 2 {
                    0
                } else {
                    (partitions@.len() - 1) as nat
                };
                let want = sequence(cuts, result_views(answers@), cuts);
                match r {
                    Some(Ok(v)) => want == Some(
                        Ok::<Seq<Seq<char>>, Seq<char>>(text::views(v@)),
                    ),
                    Some(Err(e)) => want == Some(Err::<Seq<Seq<char>>, Seq<char>>(e@)),
                    None => want is None,
                }
            }),
    {
        if partitions.len() < 2 {
            let v: Vec<String> = Vec::new();
            proof {
                assert(text::views(v@) =~= Seq::empty());
            }
            return Some(Ok(v));
        }
        let cuts = partitions.len() - 1;
        let ghost all = result_views(answers@);
        let mut out: Vec<String> = Vec::new();
        let mut i: usize = 0;
        proof {
            assert(text::views(out@) =~= Seq::empty());
        }
        while i < cuts
            invariant
                i <= cuts,
                cuts == partitions@.len() - 1,
                cuts >= 1,
                all == result_views(answers@),
                sequence(cuts as nat, all, i as nat) == Some(
                    Ok::<Seq<Seq<char>>, Seq<char>>(text::views(out@)),
                ),
            decreases cuts - i,
        {
            if i >= answers.len() {
                proof {
                    lemma_sequence_stuck(cuts as nat, all, (i + 1) as nat, cuts as nat);
                }
                return None;
            }
            proof {
                assert(all[i as int] == answers@[i as int]@);
            }
            match &answers[i] {
                InterpolationResult::Interpolant(s) => {
                    let ghost had = text::views(out@);
                    out.push(s.clone());
                    proof {
                        assert(text::views(out@) =~= had.push(s@));
                    }
                },
                InterpolationResult::Sat => {
                    proof {
                        lemma_sequence_stuck(cuts as nat, all, (i + 1) as nat, cuts as nat);
                    }
                    return Some(Err("path formula is SAT at cut point".to_string()));
                },
                InterpolationResult::Unsupported => {
                    proof {
                        lemma_sequence_stuck(cuts as nat, all, (i + 1) as nat, cuts as nat);
                    }
                    return Some(Err("interpolation not supported by solver".to_string()));
                },
            }
            i += 1;
        }
        Some(Ok(out))
    }
}

proof fn lemma_sequence_stuck(cuts: nat, answers: Seq<InterpolationV>, i: nat, j: nat)
    requires
        i <= j,
        !(sequence(cuts, answers, i) matches Some(Ok(_))),
    ensures
        sequence(cuts, answers, j) == sequence(cuts, answers, i),
    decreases j,
{
    if i < j {
        lemma_sequence_stuck(cuts, answers, i, (j - 1) as nat);
    }
}

/// A complete sequence has one interpolant for each cut.
pub proof fn law_sequence_is_complete(cuts: nat, answers: Seq<InterpolationV>, i: nat)
    ensures
        sequence(cuts, answers, i) matches Some(Ok(v)) ==> v.len() == i && i <= answers.len() && (
        forall|j: int| 0 <= j < i ==> answers[j] == InterpolationV::Interpolant(#[trigger] v[j])),
    decreases i,
{
    if i > 0 {
        law_sequence_is_complete(cuts, answers, (i - 1) as nat);
    }
}

/// The transition relation of a body and the conditions of its errors.
#[derive(Debug)]
pub struct LiaEncoding {
    pub declarations: String,
    pub transition: String,
    pub error_formulas: Vec<(ObligationId, String)>,
    pub n_vars: usize,
}

/// View of [`LiaEncoding`].
#[verifier::ext_equal]
pub struct LiaV {
    pub declarations: Seq<char>,
    pub transition: Seq<char>,
    pub error_formulas: Seq<(ObligationId, Seq<char>)>,
    pub n_vars: nat,
}

/// The views of errors.
pub open spec fn error_views(v: Seq<(ObligationId, String)>) -> Seq<(ObligationId, Seq<char>)> {
    v.map_values(|p: (ObligationId, String)| (p.0, p.1@))
}

impl View for LiaEncoding {
    type V = LiaV;

    open spec fn view(&self) -> LiaV {
        LiaV {
            declarations: self.declarations@,
            transition: self.transition@,
            error_formulas: error_views(self.error_formulas@),
            n_vars: self.n_vars as nat,
        }
    }
}

/// The declaration of an integer.
pub open spec fn declare_int(name: Seq<char>) -> Seq<char> {
    "(declare-fun "@ + name + " () Int)\n"@
}

/// The declarations of the first `n` variables, before and after an edge.
pub open spec fn declare_vars(prefix: Seq<char>, n: nat) -> Seq<char>
    decreases n,
{
    if n == 0 {
        Seq::empty()
    } else {
        let name = prefix + "v"@ + text::dec((n - 1) as nat);
        declare_vars(prefix, (n - 1) as nat) + declare_int(name) + declare_int(name + "p"@)
    }
}

/// The declarations of the first `n` fresh symbols.
pub open spec fn declare_fresh(issued: Seq<(Seq<char>, u32)>, n: nat) -> Seq<char>
    decreases n,
{
    if n == 0 {
        Seq::empty()
    } else {
        declare_fresh(issued, (n - 1) as nat) + declare_int(issued[n - 1].0)
    }
}

/// One disjunct for each of the edges among the first `n` clauses. An edge about
/// which nothing holds has none.
pub open spec fn disjuncts(prefix: Seq<char>, clauses: Seq<Clause>, n: nat) -> Seq<Seq<char>>
    decreases n,
{
    if n == 0 {
        Seq::empty()
    } else {
        let rest = disjuncts(prefix, clauses, (n - 1) as nat);
        match clauses[n - 1] {
            Clause::Transition(t) => {
                let facts = smt_text::edge_facts(t, prefix + "v"@, "p"@);
                if facts.len() == 0 {
                    rest
                } else {
                    rest.push(smt_text::conjunction(facts))
                }
            },
            Clause::Error(_) => rest,
        }
    }
}

/// The conditions of the error sites among the first `n` clauses.
pub open spec fn error_conditions(clauses: Seq<Clause>, n: nat) -> Seq<(ObligationId, Seq<char>)>
    decreases n,
{
    if n == 0 {
        Seq::empty()
    } else {
        let rest = error_conditions(clauses, (n - 1) as nat);
        match clauses[n - 1] {
            Clause::Transition(_) => rest,
            Clause::Error(e) => rest.push(
                (e.obligation, smt_text::conjunction(e.bindings + e.conds)),
            ),
        }
    }
}

/// The disjunction of the edges.
pub open spec fn disjunction(parts: Seq<Seq<char>>) -> Seq<char> {
    if parts.len() == 0 {
        "true"@
    } else if parts.len() == 1 {
        parts[0]
    } else {
        text::sexp1("or"@, text::join_with(parts, " "@))
    }
}

/// The encoding of a body. The theory stands for its prefix only.
pub open spec fn lia_encoding(
    theory: &LiaTheory,
    body: Body,
    obligations: Seq<ObligationId>,
    prefix: Seq<char>,
) -> LiaV {
    let pool = PoolV { prefix, issued: Seq::empty() };
    let n = body.blocks@.len();
    let clauses = smt_text::walk_clauses(theory, body, obligations, pool, n);
    let after = smt_text::walk_pool(theory, body, pool, n);
    LiaV {
        declarations: declare_vars(prefix, body.vars@.len()) + declare_fresh(
            after.issued,
            after.issued.len(),
        ),
        transition: disjunction(disjuncts(prefix, clauses, clauses.len())),
        error_formulas: error_conditions(clauses, clauses.len()),
        n_vars: body.vars@.len(),
    }
}

/// Can every constant that the encoding mentions be written as an integer?
pub open spec fn lia_writable(body: Body, obligations: Seq<ObligationId>) -> bool {
    forall|theory: LiaTheory| #[trigger] smt_text::body_writable(&theory, body, obligations)
}

fn make_declare(name: &str) -> (s: String)
    ensures
        s@ == declare_int(name@),
{
    let mut s = "(declare-fun ".to_string();
    s.append(name);
    s.append(" () Int)\n");
    s
}

fn make_declare_vars(prefix: &str, n: usize) -> (s: String)
    ensures
        s@ == declare_vars(prefix@, n as nat),
{
    let mut base = prefix.to_string();
    base.append("v");
    let mut s = String::new();
    let mut i: usize = 0;
    while i < n
        invariant
            i <= n,
            base@ == prefix@ + "v"@,
            s@ == declare_vars(prefix@, i as nat),
        decreases n - i,
    {
        let mut name = numbered(base.as_str(), i as u64);
        let one = make_declare(name.as_str());
        s.append(one.as_str());
        name.append("p");
        let two = make_declare(name.as_str());
        s.append(two.as_str());
        i += 1;
    }
    s
}

fn make_disjuncts(list: &ClauseList, prefix: &str) -> (parts: Vec<String>)
    ensures
        text::views(parts@) == disjuncts(prefix@, list.seen(), list.seen().len()),
{
    let ghost clauses = list.seen();
    let mut base = prefix.to_string();
    base.append("v");
    let mut parts: Vec<String> = Vec::new();
    let mut i: usize = 0;
    proof {
        assert(text::views(parts@) =~= disjuncts(prefix@, clauses, 0));
    }
    while i < list.clauses.len()
        invariant
            i <= list.clauses@.len(),
            clauses == list.seen(),
            base@ == prefix@ + "v"@,
            text::views(parts@) == disjuncts(prefix@, clauses, i as nat),
        decreases list.clauses@.len() - i,
    {
        proof {
            assert(clauses[i as int] == list.clauses@[i as int]@);
        }
        if let Recorded::Transition { conds, var_exprs, bindings, .. } = &list.clauses[i] {
            let facts = make_edge_facts(bindings, conds, var_exprs, base.as_str(), "p");
            proof {
                assert(text::views(facts@).len() == facts@.len());
            }
            if facts.len() > 0 {
                let ghost had = text::views(parts@);
                let c = conjoin(facts.as_slice());
                parts.push(c);
                proof {
                    assert(text::views(parts@) =~= had.push(c@));
                }
            }
        }
        i += 1;
    }
    parts
}

fn make_errors(list: &ClauseList) -> (errors: Vec<(ObligationId, String)>)
    ensures
        error_views(errors@) == error_conditions(list.seen(), list.seen().len()),
{
    let ghost clauses = list.seen();
    let mut errors: Vec<(ObligationId, String)> = Vec::new();
    let mut i: usize = 0;
    proof {
        assert(error_views(errors@) =~= error_conditions(clauses, 0));
    }
    while i < list.clauses.len()
        invariant
            i <= list.clauses@.len(),
            clauses == list.seen(),
            error_views(errors@) == error_conditions(clauses, i as nat),
        decreases list.clauses@.len() - i,
    {
        proof {
            assert(clauses[i as int] == list.clauses@[i as int]@);
        }
        if let Recorded::Error { obligation, conds, bindings, .. } = &list.clauses[i] {
            let facts = make_facts(bindings, conds);
            let ghost had = error_views(errors@);
            let c = conjoin(facts.as_slice());
            errors.push((*obligation, c));
            proof {
                assert(error_views(errors@) =~= had.push((*obligation, c@)));
            }
        }
        i += 1;
    }
    errors
}

fn make_declare_fresh(issued: &[(String, u32)]) -> (s: String)
    ensures
        s@ == declare_fresh(smt_text::symbol_views(issued@), issued@.len()),
{
    let ghost symbols = smt_text::symbol_views(issued@);
    let mut s = String::new();
    let mut k: usize = 0;
    while k < issued.len()
        invariant
            k <= issued@.len(),
            symbols == smt_text::symbol_views(issued@),
            s@ == declare_fresh(symbols, k as nat),
        decreases issued@.len() - k,
    {
        proof {
            assert(symbols[k as int].0 == issued@[k as int].0@);
        }
        let d = make_declare(issued[k].0.as_str());
        s.append(d.as_str());
        k += 1;
    }
    s
}

fn make_disjunction(parts: &Vec<String>) -> (s: String)
    ensures
        s@ == disjunction(text::views(parts@)),
{
    if parts.len() == 0 {
        "true".to_string()
    } else if parts.len() == 1 {
        proof {
            assert(text::views(parts@)[0] == parts@[0]@);
        }
        parts[0].clone()
    } else {
        let j = make_join(parts, " ");
        make_sexp1("or", j.as_str())
    }
}

/// The transition relation of a body and the conditions of the errors of the given
/// obligations, in linear integer arithmetic.
pub fn encode_body_lia(body: &Body, obligations: &[ObligationId], prefix: &str) -> (r: LiaEncoding)
    requires
        body.well_formed(),
        lia_writable(*body, obligations@),
    ensures
        exists|theory: LiaTheory|
            {
                &&& theory.prefix@ == prefix@
                &&& r@ == #[trigger] lia_encoding(&theory, *body, obligations@, prefix@)
            },
{
    let theory = LiaTheory::new(prefix);
    let mut fresh = FreshPool::new(prefix);
    let mut list = ClauseList { clauses: Vec::new() };
    proof {
        assert(smt_text::body_writable(&theory, *body, obligations@));
    }
    walk_body(body, &theory, obligations, &mut fresh, &mut list);
    proof {
        assert(list.seen() =~= smt_text::walk_clauses(
            &theory,
            *body,
            obligations@,
            PoolV { prefix: prefix@, issued: Seq::empty() },
            body.blocks@.len(),
        ));
    }
    let parts = make_disjuncts(&list, prefix);
    let error_formulas = make_errors(&list);
    let more = make_declare_fresh(fresh.issued());
    let mut declarations = make_declare_vars(prefix, body.vars.len());
    declarations.append(more.as_str());
    let transition = make_disjunction(&parts);
    let r = LiaEncoding { declarations, transition, error_formulas, n_vars: body.vars.len() };
    proof {
        assert(r@ == lia_encoding(&theory, *body, obligations@, prefix@));
    }
    r
}

/// The number of bytes that a character takes.
pub open spec fn byte_width(c: char) -> int {
    let n = c as u32;
    if n < 0x80 {
        1
    } else if n < 0x800 {
        2
    } else if n < 0x1_0000 {
        3
    } else {
        4
    }
}

/// The text after its first `n` bytes; `None` if these end inside a character or
/// there are not as many.
pub open spec fn skip_bytes(s: Seq<char>, n: int) -> Option<Seq<char>>
    decreases s.len(),
{
    if n == 0 {
        Some(s)
    } else if n < 0 || s.len() == 0 {
        None
    } else {
        skip_bytes(s.skip(1), n - byte_width(s[0]))
    }
}

/// Is the word a comparison?
pub open spec fn compares(op: Seq<char>) -> bool {
    op == "<"@ || op == "<="@ || op == ">"@ || op == ">="@ || op == "="@
}

/// Is the word a connective?
pub open spec fn connects(op: Seq<char>) -> bool {
    op == "and"@ || op == "or"@ || op == "not"@
}

/// The first word, or the empty text.
pub open spec fn first_word(s: Seq<char>) -> Seq<char> {
    if scan::words(s).len() > 0 {
        scan::words(s)[0]
    } else {
        ""@
    }
}

/// A formula that is not taken apart is an atom, unless it is a truth value.
pub open spec fn whole(e: Seq<char>) -> Seq<Seq<char>> {
    if e == "true"@ || e == "false"@ {
        Seq::empty()
    } else {
        seq![e]
    }
}

/// The atoms of a formula, in order: comparisons, and what is neither a comparison
/// nor a connective. `None` where the text cannot be an S-expression: a lone
/// bracket, or one that is closed by something wider than a byte.
pub open spec fn atoms(s: Seq<char>) -> Option<Seq<Seq<char>>>
    decreases s.len(), 1int, 0int,
{
    let e = scan::trim(s);
    if e.len() == 0 {
        Some(Seq::empty())
    } else if e[0] == '(' {
        if e.len() < 2 || byte_width(e.last()) != 1 {
            None
        } else {
            let inner = e.subrange(1, e.len() - 1);
            let op = first_word(inner);
            if compares(op) {
                Some(seq![e])
            } else if connects(op) {
                match skip_bytes(inner, op.len() as int) {
                    Some(rest) => {
                        let args = scan::sexp_args(rest);
                        atoms_of_all(s.len(), args, args.len())
                    },
                    None => None,
                }
            } else {
                Some(whole(e))
            }
        }
    } else {
        Some(whole(e))
    }
}

/// The atoms of the first `n` arguments of a formula with `len` characters, each
/// of which is shorter.
pub open spec fn atoms_of_all(len: nat, args: Seq<Seq<char>>, n: nat) -> Option<Seq<Seq<char>>>
    decreases len, 0int, n,
{
    if n == 0 {
        Some(Seq::empty())
    } else if args[n - 1].len() >= len {
        None
    } else {
        match (atoms_of_all(len, args, (n - 1) as nat), atoms(args[n - 1])) {
            (Some(a), Some(b)) => Some(a + b),
            _ => None,
        }
    }
}

fn width_in_bytes(c: char) -> (r: usize)
    ensures
        r == byte_width(c),
{
    let n = c as u32;
    if n < 0x80 {
        1
    } else if n < 0x800 {
        2
    } else if n < 0x1_0000 {
        3
    } else {
        4
    }
}

fn after_bytes(v: &Vec<char>, n: usize) -> (r: Option<Vec<char>>)
    ensures
        match r {
            Some(t) => skip_bytes(v@, n as int) == Some(t@) && t@.len() <= v@.len(),
            None => skip_bytes(v@, n as int) is None,
        },
{
    let mut i: usize = 0;
    let mut left: usize = n;
    proof {
        assert(v@.skip(0) =~= v@);
    }
    while left > 0 && i < v.len()
        invariant
            i <= v@.len(),
            skip_bytes(v@, n as int) == skip_bytes(v@.skip(i as int), left as int),
        decreases v@.len() - i,
    {
        let w = width_in_bytes(v[i]);
        proof {
            assert(v@.skip(i as int).skip(1) =~= v@.skip(i + 1));
        }
        if w > left {
            proof {
                assert(skip_bytes(v@.skip(i + 1), left - w) is None);
            }
            return None;
        }
        left = left - w;
        i += 1;
    }
    if left > 0 {
        return None;
    }
    let r = slice(v, i, v.len());
    proof {
        assert(r@ =~= v@.skip(i as int));
    }
    Some(r)
}

fn first_word_of(v: &Vec<char>) -> (s: String)
    ensures
        s@ == first_word(v@),
{
    let w = words_of(v);
    if w.len() > 0 {
        proof {
            assert(scan::char_views(w@)[0] == w@[0]@);
        }
        to_text(&w[0])
    } else {
        proof {
            assert(scan::char_views(w@).len() == 0);
        }
        "".to_string()
    }
}

fn whole_of(e: &Vec<char>) -> (r: Vec<String>)
    ensures
        text::views(r@) == whole(e@),
{
    let t = to_text(e);
    if same(t.as_str(), "true") || same(t.as_str(), "false") {
        let r: Vec<String> = Vec::new();
        proof {
            assert(text::views(r@) =~= Seq::empty());
        }
        r
    } else {
        text_list1(t.as_str())
    }
}

proof fn lemma_skip_bytes_len(s: Seq<char>, n: int)
    ensures
        skip_bytes(s, n) matches Some(t) ==> t.len() <= s.len(),
    decreases s.len(),
{
    if n > 0 && s.len() > 0 {
        lemma_skip_bytes_len(s.skip(1), n - byte_width(s[0]));
    }
}

fn extract_all(len: Ghost<nat>, args: &Vec<Vec<char>>, n: usize) -> (r: Option<Vec<String>>)
    requires
        n <= args@.len(),
        forall|i: int| 0 <= i < args@.len() ==> (#[trigger] args@[i])@.len() < len@,
    ensures
        match r {
            Some(v) => atoms_of_all(len@, scan::char_views(args@), n as nat) == Some(
                text::views(v@),
            ),
            None => atoms_of_all(len@, scan::char_views(args@), n as nat) is None,
        },
    decreases len@, 0int, n,
{
    if n == 0 {
        let v: Vec<String> = Vec::new();
        proof {
            assert(text::views(v@) =~= Seq::empty());
        }
        return Some(v);
    }
    proof {
        assert(scan::char_views(args@)[n - 1] == args@[n - 1]@);
    }
    let before = extract_all(len, args, n - 1);
    let here = extract_atoms(&args[n - 1]);
    match (before, here) {
        (Some(mut a), Some(b)) => {
            let ghost had = text::views(a@);
            let mut i: usize = 0;
            proof {
                assert(had + text::views(b@).take(0) =~= had);
            }
            while i < b.len()
                invariant
                    i <= b@.len(),
                    text::views(a@) == had + text::views(b@).take(i as int),
                decreases b@.len() - i,
            {
                let ghost mid = text::views(a@);
                a.push(b[i].clone());
                proof {
                    assert(text::views(a@) =~= mid.push(b@[i as int]@));
                    assert(text::views(b@).take(i + 1) =~= text::views(b@).take(i as int).push(
                        b@[i as int]@,
                    ));
                }
                i += 1;
            }
            proof {
                assert(text::views(b@).take(i as int) =~= text::views(b@));
            }
            Some(a)
        },
        _ => None,
    }
}

fn extract_atoms(expr: &Vec<char>) -> (r: Option<Vec<String>>)
    ensures
        match r {
            Some(v) => atoms(expr@) == Some(text::views(v@)),
            None => atoms(expr@) is None,
        },
    decreases expr@.len(), 1int, 0int,
{
    let e = trimmed(expr);
    if e.len() == 0 {
        let v: Vec<String> = Vec::new();
        proof {
            assert(text::views(v@) =~= Seq::empty());
        }
        return Some(v);
    }
    if e[0] != '(' {
        return Some(whole_of(&e));
    }
    if e.len() < 2 || width_in_bytes(e[e.len() - 1]) != 1 {
        return None;
    }
    let inner = slice(&e, 1, e.len() - 1);
    let op = first_word_of(&inner);
    let o = op.as_str();
    if same(o, "<") || same(o, "<=") || same(o, ">") || same(o, ">=") || same(o, "=") {
        let t = to_text(&e);
        return Some(text_list1(t.as_str()));
    }
    if same(o, "and") || same(o, "or") || same(o, "not") {
        let n = chars_of(o).len();
        let rest = match after_bytes(&inner, n) {
            Some(t) => t,
            None => {
                return None;
            },
        };
        let args = split_sexp_args(&rest);
        proof {
            scan::lemma_args_len(rest@);
            assert forall|i: int| 0 <= i < args@.len() implies (#[trigger] args@[i])@.len()
                < expr@.len() by {
                assert(scan::char_views(args@)[i] == args@[i]@);
            }
        }
        return extract_all(Ghost(expr@.len()), &args, args.len());
    }
    Some(whole_of(&e))
}

/// The atoms of an interpolant, if it is an S-expression.
pub fn atoms_of(itp: &str) -> (r: Option<Vec<String>>)
    ensures
        match r {
            Some(v) => atoms(itp@) == Some(text::views(v@)),
            None => atoms(itp@) is None,
        },
{
    extract_atoms(&chars_of(itp))
}

/// The atoms of an interpolant.
pub fn extract_predicates_from_interpolant(itp: &str) -> (r: Vec<String>)
    requires
        atoms(itp@) is Some,
    ensures
        atoms(itp@) == Some(text::views(r@)),
{
    match atoms_of(itp) {
        Some(v) => v,
        None => Vec::new(),
    }
}

} // verus!
