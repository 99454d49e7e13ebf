//! Symbolic exploration of the paths of a program, up to a bound.
//!
//! Branches whose arms meet again are explored up to the meeting point and their
//! states joined there; other branches fork the path. Calls are followed into
//! their bodies up to a depth.

use vstd::prelude::*;

use super::encode;
use super::encode::{nonzero_constraint, zero_constraint};
use super::merge::copy_items;
use super::rvalue;
use super::rvalue::MAX_CALL_DEPTH;
use super::state::{Encoder, NondetTerm, State};
use crate::ir::{BlockId, MethodKey, ObligationId, Operand, Rvalue, Ty};
use crate::postdom;
use crate::postdom::PostDom;
use crate::program::Program;
use crate::term;
use crate::term::{Op2, Term, Terms, Tm};
use crate::verdict::{NondetEntry, NondetValue, NondetValueV, Witness};

verus! {

/// How often the solver is asked in one run.
pub const MAX_SOLVER_CALLS: u32 = 10_000;

/// How many violations are collected.
pub const MAX_VIOLATIONS: usize = 50;

/// How often a loop may be entered again on one path.
pub const MAX_LOOP_UNROLL: u32 = 5;

/// How many blocks are visited over all paths.
pub const MAX_BLOCK_VISITS: u64 = 50_000;

/// How often paths are forked.
pub const MAX_FORKS: u32 = 500;

/// What a solver answers.
#[derive(Clone, Copy, Debug, PartialEq, Eq, Structural)]
pub enum SatResult {
    Sat,
    Unsat,
    Unknown,
}

/// A solver for the formulas of a term store. Nothing is promised of its answers.
pub trait Solver {
    /// Everything that the solver was asked, with its answers, in order. It is a model
    /// alone: the methods say how it grows, and an implementation that is verified
    /// defines it accordingly.
    closed spec fn asked(&self) -> Seq<Asked> {
        Seq::empty()
    }

    /// Are the formulas asserted in the store satisfiable together with the
    /// assumed ones?
    fn check(&mut self, terms: &Terms, assumed: &Vec<Term>) -> (r: SatResult)
        ensures
            final(self).asked() == old(self).asked().push(
                Asked::Check {
                    asserted: tms(*terms, terms.asserted()),
                    assumed: tms(*terms, assumed@),
                    answer: r,
                },
            ),
    ;

    /// The value of a bit-vector term in the last model, as a signed number.
    fn value_i64(&mut self, t: Term) -> (r: Option<i64>)
        ensures
            final(self).asked() == old(self).asked().push(Asked::Number { of: t, value: r }),
    ;

    /// The value of a string term in the last model.
    fn value_string(&mut self, t: Term) -> (r: Option<String>)
        ensures
            final(self).asked() == old(self).asked().push(
                Asked::Content {
                    of: t,
                    text: match r {
                        Some(s) => Some(s@),
                        None => None,
                    },
                },
            ),
    ;
}

/// A question to the solver, with its answer.
pub enum Asked {
    /// Are the formulas asserted in the store satisfiable together with the
    /// assumed ones?
    Check { asserted: Seq<Tm>, assumed: Seq<Tm>, answer: SatResult },
    /// The value of a bit-vector term in the last model.
    Number { of: Term, value: Option<i64> },
    /// The value of a string term in the last model.
    Content { of: Term, text: Option<Seq<char>> },
}

/// How often the solver found that what it was asked is satisfiable.
pub open spec fn sat_answers(log: Seq<Asked>) -> nat
    decreases log.len(),
{
    if log.len() == 0 {
        0
    } else {
        sat_answers(log.drop_last()) + if log.last() matches Asked::Check { answer, .. } && answer
            == SatResult::Sat {
            1nat
        } else {
            0nat
        }
    }
}

pub proof fn lemma_sat_answers(a: Seq<Asked>, b: Seq<Asked>)
    ensures
        sat_answers(a) <= sat_answers(a + b),
    decreases b.len(),
{
    if b.len() == 0 {
        assert(a + b =~= a);
    } else {
        lemma_sat_answers(a, b.drop_last());
        assert((a + b).drop_last() =~= a + b.drop_last());
    }
}

/// The trees of a list of terms.
pub open spec fn tms(ts: Terms, v: Seq<Term>) -> Seq<Tm> {
    v.map_values(|t: Term| ts.tm(t))
}

/// An obligation that some input violates.
#[derive(Debug)]
pub struct Violation {
    pub method: MethodKey,
    pub id: ObligationId,
    pub witness: Witness,
}

/// What an exploration found out.
#[derive(Debug)]
pub struct Findings {
    pub violations: Vec<Violation>,
    /// Obligations that were reached under something not modelled and could not
    /// be excluded.
    pub skipped: Vec<ObligationId>,
    /// Methods whose bodies were explored at a call.
    pub inlined: Vec<MethodKey>,
    /// Was no path cut short?
    pub all_paths_complete: bool,
    /// Was every call modelled or explored?
    pub all_calls_resolved: bool,
    /// Was a call that was not resolved met in a block with exception handlers?
    pub has_unresolved_in_try: bool,
    pub exhausted: bool,
}

/// What an exploration has cost so far.
#[derive(Clone, Copy, Debug)]
pub struct Effort {
    pub solver_calls: u32,
    pub block_visits: u64,
    pub fork_count: u32,
}

/// Nothing of a list was taken back.
pub open spec fn extends<T>(new: Seq<T>, old: Seq<T>) -> bool {
    old.len() <= new.len() && new.take(old.len() as int) == old
}

/// The obligation exists.
pub open spec fn violation_ok(p: Program, v: Violation) -> bool {
    p.body_of(v.method@) matches Some(b) && v.id.0 < b.obligations@.len()
}

impl Findings {
    /// Findings only accumulate.
    pub open spec fn follows(self, old: Findings) -> bool {
        &&& extends(self.violations@, old.violations@)
        &&& extends(self.skipped@, old.skipped@)
        &&& extends(self.inlined@, old.inlined@)
        &&& !old.all_paths_complete ==> !self.all_paths_complete
        &&& !old.all_calls_resolved ==> !self.all_calls_resolved
        &&& old.has_unresolved_in_try ==> self.has_unresolved_in_try
        &&& old.exhausted ==> self.exhausted
    }

    /// Every violation is one of the program's obligations, and there are not too
    /// many.
    pub open spec fn valid(self, p: Program) -> bool {
        &&& self.violations@.len() <= MAX_VIOLATIONS
        &&& forall|i: int|
            0 <= i < self.violations@.len() ==> violation_ok(p, #[trigger] self.violations@[i])
    }
}

impl Effort {
    pub open spec fn follows(self, old: Effort) -> bool {
        &&& old.solver_calls <= self.solver_calls
        &&& old.block_visits <= self.block_visits
        &&& old.fork_count <= self.fork_count
    }
}

/// The exploration of a program.
pub struct Explorer<'a, S: Solver> {
    pub enc: Encoder<'a>,
    pub solver: S,
    pub found: Findings,
    pub effort: Effort,
    /// The conditions of the current path.
    pub path: Vec<Term>,
    pub depth: u32,
    pub max_depth: u32,
    pub call_depth: u32,
    /// Classes whose initialiser was run.
    pub clinit_done: Vec<String>,
    /// What the body of the current call returns, and whether that is tainted.
    pub ret: Option<Term>,
    pub ret_tainted: bool,
    /// Post-dominators of the bodies met so far.
    pub doms: Vec<(MethodKey, PostDom)>,
    /// How many questions the solver was asked before the exploration.
    pub since: Ghost<nat>,
}

/// Every term of the list is one of the store.
pub open spec fn terms_in(ts: Terms, v: Seq<Term>) -> bool {
    forall|i: int| 0 <= i < v.len() ==> ts.has(#[trigger] v[i])
}

/// The post-dominators belong to the bodies they are kept for.
pub open spec fn doms_ok(p: Program, doms: Seq<(MethodKey, PostDom)>) -> bool {
    forall|i: int|
        0 <= i < doms.len() ==> p.body_of((#[trigger] doms[i]).0@) is Some && doms[i].1.graph()
            == postdom::graph_of(p.body_of(doms[i].0@)->0)
}

impl<'a, S: Solver> Explorer<'a, S> {
    /// What the solver was asked in the exploration, with its answers.
    pub open spec fn log(self) -> Seq<Asked> {
        self.solver.asked().skip(self.since@ as int)
    }

    /// The parts agree with each other.
    pub open spec fn ok(self) -> bool {
        &&& self.since@ <= self.solver.asked().len()
        &&& self.enc.ok()
        &&& self.enc.prog.well_formed()
        &&& self.enc.prog.body_of(self.enc.body.key@) == Some(*self.enc.body)
        &&& terms_in(self.enc.terms, self.path@)
        &&& self.enc.terms.has_opt(self.ret)
        &&& self.found.valid(*self.enc.prog)
        &&& self.call_depth <= MAX_CALL_DEPTH
        &&& self.max_depth < u32::MAX
        &&& self.depth <= self.max_depth + 1
        &&& doms_ok(*self.enc.prog, self.doms@)
        &&& self.found.violations@.len() <= sat_answers(self.log())
        &&& all_backed(self.found.violations@, self.log())
    }

    /// The exploration stands at the same place.
    pub open spec fn same_place(self, old: Self) -> bool {
        &&& self.enc.body == old.enc.body
        &&& self.depth == old.depth
        &&& self.call_depth == old.call_depth
    }

    /// What exploring can do: it builds terms, extends the path and the list of
    /// inputs, and adds to what was found.
    pub open spec fn after(self, old: Self) -> bool {
        &&& self.enc.prog == old.enc.prog
        &&& self.enc.models == old.enc.models
        &&& self.enc.ascii_only == old.enc.ascii_only
        &&& self.max_depth == old.max_depth
        &&& self.enc.terms.grown_from(old.enc.terms)
        &&& extends(self.path@, old.path@)
        &&& extends(self.enc.st.nondet_terms@, old.enc.st.nondet_terms@)
        &&& self.found.follows(old.found)
        &&& self.effort.follows(old.effort)
        &&& extends(self.clinit_done@, old.clinit_done@)
        &&& self.since == old.since
        &&& extends(self.log(), old.log())
    }

    pub proof fn lemma_after_refl(self)
        requires
            self.ok(),
        ensures
            self.after(self),
            self.same_place(self),
    {
        assert(self.path@.take(self.path@.len() as int) =~= self.path@);
        let n = self.enc.st.nondet_terms@;
        assert(n.take(n.len() as int) =~= n);
        let c = self.clinit_done@;
        assert(c.take(c.len() as int) =~= c);
        lemma_extends_refl(self.log());
        let f = self.found;
        assert(f.violations@.take(f.violations@.len() as int) =~= f.violations@);
        assert(f.skipped@.take(f.skipped@.len() as int) =~= f.skipped@);
        assert(f.inlined@.take(f.inlined@.len() as int) =~= f.inlined@);
        let a = self.enc.terms.asserted();
        assert(a.take(a.len() as int) =~= a);
    }

    pub proof fn lemma_after_trans(self, mid: Self, old: Self)
        requires
            self.after(mid),
            mid.after(old),
        ensures
            self.after(old),
    {
        self.enc.terms.lemma_grown_trans(mid.enc.terms, old.enc.terms);
        lemma_extends_trans(self.path@, mid.path@, old.path@);
        lemma_extends_trans(
            self.enc.st.nondet_terms@,
            mid.enc.st.nondet_terms@,
            old.enc.st.nondet_terms@,
        );
        lemma_extends_trans(self.clinit_done@, mid.clinit_done@, old.clinit_done@);
        lemma_extends_trans(self.log(), mid.log(), old.log());
        lemma_extends_trans(
            self.found.violations@,
            mid.found.violations@,
            old.found.violations@,
        );
        lemma_extends_trans(self.found.skipped@, mid.found.skipped@, old.found.skipped@);
        lemma_extends_trans(self.found.inlined@, mid.found.inlined@, old.found.inlined@);
    }

    /// A step that only the encoder takes.
    pub proof fn lemma_enc_step(self, old: Self)
        requires
            old.ok(),
            self == (Explorer { enc: self.enc, ..old }),
            self.enc.ok(),
            self.enc.prog == old.enc.prog,
            self.enc.models == old.enc.models,
            self.enc.ascii_only == old.enc.ascii_only,
            self.enc.body == old.enc.body,
            self.enc.terms.grown_from(old.enc.terms),
            extends(self.enc.st.nondet_terms@, old.enc.st.nondet_terms@),
        ensures
            self.ok(),
            self.after(old),
            self.same_place(old),
    {
        old.lemma_after_refl();
        assert forall|i: int| 0 <= i < self.path@.len() implies self.enc.terms.has(
            #[trigger] self.path@[i],
        ) by {
            assert(old.enc.terms.has(old.path@[i]));
        }
    }
}

pub proof fn lemma_extends_trans<T>(a: Seq<T>, b: Seq<T>, c: Seq<T>)
    requires
        extends(a, b),
        extends(b, c),
    ensures
        extends(a, c),
{
    assert(a.take(c.len() as int) =~= a.take(b.len() as int).take(c.len() as int));
}

pub proof fn lemma_extends_refl<T>(a: Seq<T>)
    ensures
        extends(a, a),
{
    assert(a.take(a.len() as int) =~= a);
}

pub proof fn lemma_extends_push<T>(a: Seq<T>, x: T)
    ensures
        extends(a.push(x), a),
{
    assert(a.push(x).take(a.len() as int) =~= a);
}

/// Encoding a right-hand side only adds.
pub proof fn lemma_rvalue_step(e: Encoder, old: Encoder, rv: Rvalue, t: Term)
    requires
        old.ok(),
        rvalue::rvalue_outcome(e, old, rv, t),
    ensures
        e.ok(),
        e.prog == old.prog,
        e.models == old.models,
        e.ascii_only == old.ascii_only,
        e.body == old.body,
        e.terms.grown_from(old.terms),
        extends(e.st.nondet_terms@, old.st.nondet_terms@),
{
    lemma_extends_refl(old.st.nondet_terms@);
    let a = old.terms.asserted();
    assert(a.take(a.len() as int) =~= a);
    if let Rvalue::Nondet(ty, _) = rv {
        if ty != Ty::Ref {
            lemma_extends_push(old.st.nondet_terms@, e.st.nondet_terms@.last());
        }
    }
}

/// Did a check find a violation? Only where nothing in the condition is tainted:
/// else the model may be spurious.
pub open spec fn is_violation(res: SatResult, tainted: bool) -> bool {
    res == SatResult::Sat && !tainted
}

/// Is an obligation left open? One that could not be excluded, under something
/// that is not modelled.
pub open spec fn is_skipped(res: SatResult, tainted: bool, path_tainted: bool) -> bool {
    res != SatResult::Unsat && (tainted || path_tainted)
}

/// Record what the solver answered on an obligation. The witness is that of a
/// violation.
pub fn record_check(
    found: &mut Findings,
    method: &MethodKey,
    id: ObligationId,
    tainted: bool,
    path_tainted: bool,
    res: SatResult,
    witness: Witness,
)
    ensures
        final(found).violations@.len() == old(found).violations@.len() + if is_violation(
            res,
            tainted,
        ) {
            1int
        } else {
            0int
        },
        extends(final(found).violations@, old(found).violations@),
        is_violation(res, tainted) ==> final(found).violations@.last().method@ == method@
            && final(found).violations@.last().id == id && final(found).violations@.last().witness
            == witness,
        final(found).skipped@ == if is_skipped(res, tainted, path_tainted) {
            old(found).skipped@.push(id)
        } else {
            old(found).skipped@
        },
        !is_violation(res, tainted) ==> final(found).violations == old(found).violations,
        *final(found) == (Findings {
            violations: final(found).violations,
            skipped: final(found).skipped,
            ..*old(found)
        }),
{
    proof {
        lemma_extends_refl(found.violations@);
    }
    if res == SatResult::Sat && !tainted {
        let ghost before = found.violations@;
        found.violations.push(Violation { method: method.clone(), id, witness });
        proof {
            lemma_extends_push(before, found.violations@.last());
        }
    }
    if res != SatResult::Unsat && (tainted || path_tainted) {
        found.skipped.push(id);
    }
}

/// The typed value of an input: `raw` is its number in the model, `text` its
/// content.
pub open spec fn input_value(ty: Ty, raw: i64, text: Seq<char>) -> NondetValueV {
    match ty {
        Ty::Long => NondetValueV::Long(raw),
        Ty::Str => NondetValueV::Str(text),
        _ => NondetValueV::Int(raw as i32),
    }
}

/// What the solver is asked of an input, with its answers.
pub open spec fn input_asked(
    x: NondetTerm,
    number: Option<i64>,
    content: Option<Seq<char>>,
) -> Seq<Asked> {
    let n = Asked::Number { of: x.term, value: number };
    match x.text {
        Some(t) => seq![n, Asked::Content { of: t, text: content }],
        None => seq![n],
    }
}

/// The value that a witness has for an input, from what the model says of it.
/// What the model says nothing of is zero or empty; a number of a narrow input is
/// taken by its low half.
pub open spec fn input_read(
    x: NondetTerm,
    number: Option<i64>,
    content: Option<Seq<char>>,
) -> NondetValueV {
    let n = match number {
        Some(v) => v,
        None => 0i64,
    };
    input_value(
        x.ty,
        if x.width <= 32 {
            (n as i32) as i64
        } else {
            n
        },
        match (x.text, content) {
            (Some(_), Some(s)) => s,
            _ => Seq::empty(),
        },
    )
}

/// The entry of a witness is what the model says of the input, and it was asked.
pub open spec fn entry_read(
    after: Seq<Asked>,
    before: Seq<Asked>,
    x: NondetTerm,
    e: NondetEntry,
    number: Option<i64>,
    content: Option<Seq<char>>,
) -> bool {
    &&& after == before + input_asked(x, number, content)
    &&& e.value@ == input_read(x, number, content)
    &&& e.nondet_method@ == e.value@.method()
}

/// The first `n` entries are the values of the first `n` inputs in the model,
/// which was asked for them in order.
pub open spec fn witness_read(
    after: Seq<Asked>,
    before: Seq<Asked>,
    inputs: Seq<NondetTerm>,
    entries: Seq<NondetEntry>,
    n: nat,
) -> bool
    decreases n,
{
    if n == 0 {
        after == before
    } else {
        exists|mid: Seq<Asked>, number: Option<i64>, content: Option<Seq<char>>|
            {
                &&& witness_read(mid, before, inputs, entries, (n - 1) as nat)
                &&& #[trigger] entry_read(
                    after,
                    mid,
                    inputs[n - 1],
                    entries[n - 1],
                    number,
                    content,
                )
            }
    }
}

/// Does the formula say that a value is zero?
pub open spec fn tests_zero(t: Tm) -> bool {
    t matches Tm::App2(Op2::Eq, _, b) && *b == term::bv32(0)
}

/// The violation comes from question `p`: the solver found it satisfiable that, on a
/// path, a condition is zero. The witness is what the solver then said of the inputs,
/// up to question `q`.
pub open spec fn backed(
    v: Violation,
    log: Seq<Asked>,
    p: int,
    q: int,
    inputs: Seq<NondetTerm>,
) -> bool {
    &&& 0 <= p < q <= log.len()
    &&& log[p] matches Asked::Check { assumed, answer, .. } && answer == SatResult::Sat && assumed.len()
        > 0 && tests_zero(assumed.last())
    &&& v.witness.entries@.len() == inputs.len()
    &&& witness_read(
        log.take(q),
        log.take(p + 1),
        inputs,
        v.witness.entries@,
        inputs.len(),
    )
}

/// The violation comes from a question that the solver found satisfiable, with a
/// witness that was read from its model.
pub open spec fn from_model(v: Violation, log: Seq<Asked>) -> bool {
    exists|p: int, q: int, inputs: Seq<NondetTerm>| #[trigger]
        backed(v, log, p, q, inputs)
}

/// Every violation comes from such a question.
#[verifier::opaque]
pub open spec fn all_backed(violations: Seq<Violation>, log: Seq<Asked>) -> bool {
    forall|i: int| 0 <= i < violations.len() ==> from_model(#[trigger] violations[i], log)
}

/// Further questions change nothing.
proof fn lemma_backed_kept(violations: Seq<Violation>, log: Seq<Asked>, old: Seq<Asked>)
    requires
        all_backed(violations, old),
        extends(log, old),
    ensures
        all_backed(violations, log),
{
    reveal(all_backed);
    assert forall|i: int| 0 <= i < violations.len() implies from_model(
        #[trigger] violations[i],
        log,
    ) by {
        assert(from_model(violations[i], old));
        let (p, q, inputs) = choose|p: int, q: int, inputs: Seq<NondetTerm>| #[trigger]
            backed(violations[i], old, p, q, inputs);
        assert(log.take(old.len() as int)[p] == log[p]);
        assert(log.take(q) =~= old.take(q));
        assert(log.take(p + 1) =~= old.take(p + 1));
        assert(backed(violations[i], log, p, q, inputs));
    }
}

proof fn lemma_backed_push(
    violations: Seq<Violation>,
    v: Violation,
    log: Seq<Asked>,
    asked: Seq<Asked>,
    inputs: Seq<NondetTerm>,
)
    requires
        all_backed(violations, log),
        extends(log, asked),
        asked.len() > 0,
        asked.last() matches Asked::Check { assumed, answer, .. } && answer == SatResult::Sat
            && assumed.len() > 0 && tests_zero(assumed.last()),
        v.witness.entries@.len() == inputs.len(),
        witness_read(log, asked, inputs, v.witness.entries@, inputs.len()),
    ensures
        all_backed(violations.push(v), log),
{
    reveal(all_backed);
    let all = violations.push(v);
    let p = asked.len() - 1;
    let q = log.len() as int;
    assert(log.take(asked.len() as int)[p] == log[p]);
    assert(log.take(q) =~= log);
    assert(log.take(p + 1) =~= asked);
    assert(backed(v, log, p, q, inputs));
    assert(from_model(v, log));
    assert forall|i: int| 0 <= i < all.len() implies from_model(#[trigger] all[i], log) by {
        if i < violations.len() {
            assert(all[i] == violations[i]);
        }
    }
}

proof fn lemma_witness_prefix(
    after: Seq<Asked>,
    before: Seq<Asked>,
    inputs: Seq<NondetTerm>,
    a: Seq<NondetEntry>,
    b: Seq<NondetEntry>,
    n: nat,
)
    requires
        witness_read(after, before, inputs, a, n),
        n <= a.len() <= b.len(),
        b.take(a.len() as int) == a,
    ensures
        witness_read(after, before, inputs, b, n),
    decreases n,
{
    if n > 0 {
        let (mid, number, content) = choose|
            mid: Seq<Asked>,
            number: Option<i64>,
            content: Option<Seq<char>>,
        |
            {
                &&& witness_read(mid, before, inputs, a, (n - 1) as nat)
                &&& #[trigger] entry_read(
                    after,
                    mid,
                    inputs[n - 1],
                    a[n - 1],
                    number,
                    content,
                )
            };
        lemma_witness_prefix(mid, before, inputs, a, b, (n - 1) as nat);
        assert(b.take(a.len() as int)[n - 1] == b[n - 1]);
        assert(entry_read(after, mid, inputs[n - 1], b[n - 1], number, content));
    }
}

pub proof fn lemma_witness_extends(
    after: Seq<Asked>,
    before: Seq<Asked>,
    inputs: Seq<NondetTerm>,
    entries: Seq<NondetEntry>,
    n: nat,
)
    requires
        witness_read(after, before, inputs, entries, n),
    ensures
        extends(after, before),
        sat_answers(before) <= sat_answers(after),
    decreases n,
{
    if n == 0 {
        lemma_extends_refl(before);
    } else {
        let (mid, number, content) = choose|
            mid: Seq<Asked>,
            number: Option<i64>,
            content: Option<Seq<char>>,
        |
            {
                &&& witness_read(mid, before, inputs, entries, (n - 1) as nat)
                &&& #[trigger] entry_read(
                    after,
                    mid,
                    inputs[n - 1],
                    entries[n - 1],
                    number,
                    content,
                )
            };
        lemma_witness_extends(mid, before, inputs, entries, (n - 1) as nat);
        assert(after.take(mid.len() as int) =~= mid);
        lemma_sat_answers(mid, input_asked(inputs[n - 1], number, content));
        lemma_extends_trans(after, mid, before);
    }
}

/// The entry of a witness for an input, from what the model says of it.
pub fn witness_entry(ty: Ty, raw: i64, text: String) -> (r: NondetEntry)
    ensures
        r.value@ == input_value(ty, raw, text@),
        r.nondet_method@ == r.value@.method(),
        r.line is None,
{
    let value = match ty {
        Ty::Long => NondetValue::Long(raw),
        Ty::Str => NondetValue::Str(text),
        _ => NondetValue::Int(raw as i32),
    };
    let nondet_method = value.nondet_method();
    NondetEntry { value, nondet_method, line: None }
}

impl<'a, S: Solver> Explorer<'a, S> {
    /// Is there budget left?
    pub open spec fn has_budget(self) -> bool {
        &&& !self.found.exhausted
        &&& self.effort.solver_calls < MAX_SOLVER_CALLS
        &&& self.found.violations@.len() < MAX_VIOLATIONS
        &&& self.effort.block_visits < MAX_BLOCK_VISITS
        &&& self.effort.fork_count < MAX_FORKS
    }

    /// Is there budget left?
    pub fn budget_left(&self) -> (r: bool)
        ensures
            r == self.has_budget(),
    {
        !self.found.exhausted && self.effort.solver_calls < MAX_SOLVER_CALLS
            && self.found.violations.len() < MAX_VIOLATIONS && self.effort.block_visits
            < MAX_BLOCK_VISITS && self.effort.fork_count < MAX_FORKS
    }

    /// Only the solver was asked.
    pub open spec fn asked_from(self, old: Self) -> bool {
        &&& self == (Explorer {
            solver: self.solver,
            found: self.found,
            effort: self.effort,
            ..old
        })
        &&& self.found == (Findings { exhausted: self.found.exhausted, ..old.found })
        &&& self.effort == (Effort { solver_calls: self.effort.solver_calls, ..old.effort })
        &&& self.effort.solver_calls == super::paths::counted(old.effort.solver_calls)
        &&& self.found.exhausted == (old.found.exhausted || self.effort.solver_calls
            > MAX_SOLVER_CALLS)
    }

    /// The question whether the path is feasible, together with a further condition if
    /// one is given, and its answer.
    pub open spec fn question(self, extra: Option<Term>, res: SatResult) -> Asked {
        let path = tms(self.enc.terms, self.path@);
        Asked::Check {
            asserted: tms(self.enc.terms, self.enc.terms.asserted()),
            assumed: match extra {
                Some(c) => path.push(self.enc.terms.tm(c)),
                None => path,
            },
            answer: res,
        }
    }

    /// The solver was asked whether the path is feasible, together with a further
    /// condition if one is given, and answered. Past the limit it is not asked,
    /// and the answer is unknown.
    pub open spec fn answered(self, old: Self, extra: Option<Term>, res: SatResult) -> bool {
        &&& self.asked_from(old)
        &&& if self.effort.solver_calls > MAX_SOLVER_CALLS {
            res == SatResult::Unknown && self.solver == old.solver
        } else {
            &&& self.solver.asked() == old.solver.asked().push(old.question(extra, res))
            &&& self.log() == old.log().push(old.question(extra, res))
        }
    }

    /// Ask whether the current path is feasible, together with a further
    /// condition if one is given. Past the limit the answer is unknown.
    pub fn check_sat_with_path(&mut self, extra: Option<Term>) -> (r: SatResult)
        requires
            old(self).ok(),
            old(self).enc.terms.has_opt(extra),
        ensures
            final(self).answered(*old(self), extra, r),
            final(self).ok(),
            final(self).after(*old(self)),
            final(self).same_place(*old(self)),
            r == SatResult::Sat ==> sat_answers(final(self).log()) == sat_answers(old(self).log()) + 1,
    {
        proof {
            self.lemma_after_refl();
        }
        if self.effort.solver_calls < u32::MAX {
            self.effort.solver_calls = self.effort.solver_calls + 1;
        }
        if self.effort.solver_calls > MAX_SOLVER_CALLS {
            self.found.exhausted = true;
            return SatResult::Unknown;
        }
        let mut assumed = copy_items(&self.path);
        if let Some(c) = extra {
            assumed.push(c);
        }
        let r = self.solver.check(&self.enc.terms, &assumed);
        proof {
            let question = old(self).question(extra, r);
            if let Some(c) = extra {
                assert(tms(self.enc.terms, assumed@) =~= tms(self.enc.terms, self.path@).push(
                    self.enc.terms.tm(c),
                ));
            }
            assert(self.log() =~= old(self).log().push(question));
            lemma_extends_push(old(self).log(), question);
            lemma_backed_kept(self.found.violations@, self.log(), old(self).log());
            assert(self.log().drop_last() =~= old(self).log());
        }
        r
    }

    /// The inputs of the current path, with the values of the last model. What
    /// the model says nothing of is zero or empty.
    pub fn extract_witness(&mut self) -> (w: Witness)
        requires
            old(self).since@ <= old(self).solver.asked().len(),
        ensures
            *final(self) == (Explorer { solver: final(self).solver, ..*old(self) }),
            final(self).since@ <= final(self).solver.asked().len(),
            final(self).solver.asked() == old(self).solver.asked() + final(self).log().skip(
                old(self).log().len() as int,
            ),
            w.entries@.len() == old(self).enc.st.nondet_terms@.len(),
            witness_read(
                final(self).log(),
                old(self).log(),
                old(self).enc.st.nondet_terms@,
                w.entries@,
                w.entries@.len(),
            ),
    {
        let mut entries: Vec<NondetEntry> = Vec::new();
        let mut i: usize = 0;
        proof {
            lemma_extends_refl(self.solver.asked());
        }
        while i < self.enc.st.nondet_terms.len()
            invariant
                i <= self.enc.st.nondet_terms@.len(),
                *self == (Explorer { solver: self.solver, ..*old(self) }),
                extends(self.solver.asked(), old(self).solver.asked()),
                old(self).since@ <= old(self).solver.asked().len(),
                entries@.len() == i,
                witness_read(
                    self.log(),
                    old(self).log(),
                    old(self).enc.st.nondet_terms@,
                    entries@,
                    i as nat,
                ),
            decreases self.enc.st.nondet_terms@.len() - i,
        {
            let ghost had = entries@;
            let ghost before = self.log();
            let ghost asked = self.solver.asked();
            let nd = self.enc.st.nondet_terms[i];
            let number = self.solver.value_i64(nd.term);
            let val: i64 = match number {
                Some(v) => v,
                None => 0,
            };
            let raw: i64 = if nd.width <= 32 {
                (val as i32) as i64
            } else {
                val
            };
            let ghost mut content: Option<Seq<char>> = None;
            let text = match nd.text {
                Some(t) => match self.solver.value_string(t) {
                    Some(s) => {
                        proof {
                            content = Some(s@);
                        }
                        s
                    },
                    None => String::new(),
                },
                None => String::new(),
            };
            proof {
                let answers = input_asked(nd, number, content);
                assert(self.solver.asked() =~= asked + answers);
                assert(self.log() =~= before + answers);
                assert(extends(self.solver.asked(), asked)) by {
                    assert((asked + answers).take(asked.len() as int) =~= asked);
                }
                lemma_extends_trans(self.solver.asked(), asked, old(self).solver.asked());
            }
            entries.push(witness_entry(nd.ty, raw, text));
            proof {
                assert(entries@.take(had.len() as int) =~= had);
                lemma_witness_prefix(
                    before,
                    old(self).log(),
                    self.enc.st.nondet_terms@,
                    had,
                    entries@,
                    i as nat,
                );
                assert(entry_read(
                    self.log(),
                    before,
                    self.enc.st.nondet_terms@[(i + 1) - 1],
                    entries@[(i + 1) - 1],
                    number,
                    content,
                ));
            }
            i += 1;
        }
        proof {
            let n = old(self).solver.asked().len() as int;
            assert(self.solver.asked().skip(n) =~= self.log().skip(old(self).log().len() as int));
            assert(self.solver.asked() =~= self.solver.asked().take(n) + self.solver.asked().skip(n));
        }
        Witness { entries }
    }

    /// Only the encoder read the condition: `c` says that it is zero.
    pub open spec fn zero_read(self, old: Self, cond: Operand, c: Term) -> bool {
        &&& self == (Explorer { enc: self.enc, ..old })
        &&& self.enc.settled_from(old.enc)
        &&& self.enc.knows(cond)
        &&& self.enc.terms.has(c)
        &&& self.enc.terms.tm(c) == term::tm_eq(self.enc.operand_tm(cond), term::bv32(0))
    }

    /// What the solver answered on an obligation was recorded. A violation comes
    /// with the inputs of the model.
    pub open spec fn recorded(self, old: Self, id: ObligationId, tainted: bool, res: SatResult) -> bool {
        let n = old.found.violations@.len() as int;
        let inputs = old.enc.st.nondet_terms@;
        &&& self == (Explorer {
            solver: self.solver,
            found: Findings {
                violations: self.found.violations,
                skipped: self.found.skipped,
                ..old.found
            },
            ..old
        })
        &&& self.found.skipped@ == if is_skipped(res, tainted, old.enc.st.path_tainted) {
            old.found.skipped@.push(id)
        } else {
            old.found.skipped@
        }
        &&& if is_violation(res, tainted) {
            let v = self.found.violations@[n];
            &&& self.found.violations@ == old.found.violations@.push(v)
            &&& v.method@ == old.enc.body.key@
            &&& v.id == id
            &&& v.witness.entries@.len() == inputs.len()
            &&& witness_read(
                self.log(),
                old.log(),
                inputs,
                v.witness.entries@,
                inputs.len(),
            )
        } else {
            self.found.violations == old.found.violations && self.solver == old.solver
        }
    }

    /// An obligation was checked: the solver was asked whether its condition can
    /// be zero on the path, and the answer recorded.
    pub open spec fn checked(self, old: Self, id: ObligationId) -> bool {
        let cond = old.enc.body.obligations@[id.0 as int].cond;
        exists|read: Self, c: Term, asked: Self, res: SatResult|
            {
                &&& #[trigger] read.zero_read(old, cond, c)
                &&& #[trigger] asked.answered(read, Some(c), res)
                &&& self.recorded(asked, id, old.enc.is_tainted(cond), res)
            }
    }

    /// Check an obligation on the current path.
    pub fn exec_check(&mut self, id: ObligationId)
        requires
            old(self).ok(),
            old(self).has_budget(),
            id.0 < old(self).enc.body.obligations@.len(),
        ensures
            final(self).ok(),
            final(self).after(*old(self)),
            final(self).same_place(*old(self)),
            final(self).checked(*old(self), id),
    {
        let body = self.enc.body;
        let ob = body.obligation(id);
        proof {
            assert(body.obligations@[id.0 as int].cond.in_range(body.vars@.len()));
        }
        let tainted = self.enc.operand_tainted(&ob.cond);
        let t = self.enc.encode_operand(&ob.cond);
        let ghost settled = *self;
        let c = zero_constraint(&mut self.enc.terms, t);
        proof {
            self.enc.lemma_settle_then_build(settled.enc, old(self).enc);
            self.enc.lemma_operand_same(settled.enc, ob.cond);
            self.enc.terms.lemma_built_grows(old(self).enc.terms);
            lemma_extends_refl(self.enc.st.nondet_terms@);
            self.lemma_enc_step(*old(self));
            assert(self.zero_read(*old(self), ob.cond, c));
        }
        let ghost read = *self;
        let res = self.check_sat_with_path(Some(c));
        let ghost asked = *self;
        proof {
            asked.lemma_after_trans(read, *old(self));
            lemma_extends_refl(asked.log());
        }
        let witness = if res == SatResult::Sat && !tainted {
            self.extract_witness()
        } else {
            Witness { entries: Vec::new() }
        };
        let ghost extracted = *self;
        record_check(
            &mut self.found,
            &body.key,
            id,
            tainted,
            self.enc.st.path_tainted,
            res,
            witness,
        );
        proof {
            if is_violation(res, tainted) {
                lemma_witness_extends(
                    extracted.log(),
                    asked.log(),
                    asked.enc.st.nondet_terms@,
                    witness.entries@,
                    witness.entries@.len(),
                );
                lemma_backed_kept(asked.found.violations@, extracted.log(), asked.log());
            }
            extracted.lemma_after_refl();
            if is_skipped(res, tainted, self.enc.st.path_tainted) {
                lemma_extends_push(extracted.found.skipped@, id);
            }
            let n = extracted.found.violations@.len() as int;
            assert forall|i: int| 0 <= i < self.found.violations@.len() implies violation_ok(
                *self.enc.prog,
                #[trigger] self.found.violations@[i],
            ) by {
                if i < n {
                    assert(self.found.violations@.take(n)[i] == extracted.found.violations@[i]);
                } else {
                    assert(self.found.violations@[i] == self.found.violations@.last());
                }
            }
            if is_violation(res, tainted) {
                assert(self.found.violations@ =~= asked.found.violations@.push(
                    self.found.violations@[n],
                ));
                lemma_backed_push(
                    asked.found.violations@,
                    self.found.violations@[n],
                    self.log(),
                    asked.log(),
                    asked.enc.st.nondet_terms@,
                );
            } else {
                assert(self.found.violations == asked.found.violations);
            }
            assert(self.recorded(asked, id, tainted, res));
            assert(self.after(asked));
            self.lemma_after_trans(asked, *old(self));
        }
    }

    /// A condition was assumed: the path goes on if the solver does not exclude
    /// it. A tainted condition is not relied on; it only taints the path.
    pub open spec fn assumed(self, old: Self, op: Operand, go_on: bool) -> bool {
        if old.enc.is_tainted(op) {
            go_on && self == old.flagged(true)
        } else {
            exists|read: Self, res: SatResult|
                {
                    &&& read == (Explorer { enc: read.enc, path: read.path, ..old })
                    &&& read.enc.settled_from(old.enc)
                    &&& read.enc.knows(op)
                    &&& read.path@ == old.path@.push(read.path@.last())
                    &&& read.enc.terms.tm(read.path@.last()) == encode::not_null(
                        read.enc.operand_tm(op),
                    )
                    &&& #[trigger] self.answered(read, None, res)
                    &&& go_on == (res != SatResult::Unsat)
                }
        }
    }

    /// The path is tainted, if it was or `tainted` says so.
    pub open spec fn flagged(self, tainted: bool) -> Self {
        Explorer {
            enc: Encoder {
                st: State { path_tainted: self.enc.st.path_tainted || tainted, ..self.enc.st },
                ..self.enc
            },
            ..self
        }
    }

    /// Assume a condition on the current path. Returns whether the path may go on:
    /// it ends where the solver excludes it. A tainted condition is not relied
    /// on; it only taints the path.
    pub fn exec_assume(&mut self, op: &Operand) -> (go_on: bool)
        requires
            old(self).ok(),
            op.in_range(old(self).enc.body.vars@.len()),
        ensures
            final(self).ok(),
            final(self).after(*old(self)),
            final(self).same_place(*old(self)),
            final(self).assumed(*old(self), *op, go_on),
    {
        if self.enc.operand_tainted(op) {
            self.enc.st.path_tainted = true;
            proof {
                old(self).lemma_after_refl();
                lemma_flag_fits(
                    self.enc.st,
                    old(self).enc.st,
                    self.enc.body.vars@.len(),
                    self.enc.terms,
                );
            }
            return true;
        }
        let t = self.enc.encode_operand(op);
        let ghost settled = *self;
        let c = nonzero_constraint(&mut self.enc.terms, t);
        proof {
            self.enc.lemma_settle_then_build(settled.enc, old(self).enc);
            self.enc.lemma_operand_same(settled.enc, *op);
            self.enc.terms.lemma_built_grows(old(self).enc.terms);
            lemma_extends_refl(self.enc.st.nondet_terms@);
            self.lemma_enc_step(*old(self));
        }
        let ghost encoded = *self;
        self.path.push(c);
        let ghost pushed = *self;
        proof {
            encoded.lemma_after_refl();
            lemma_extends_push(encoded.path@, c);
            pushed.lemma_after_trans(encoded, *old(self));
            assert(pushed.path@ =~= old(self).path@.push(pushed.path@.last()));
        }
        let res = self.check_sat_with_path(None);
        proof {
            self.lemma_after_trans(pushed, *old(self));
        }
        res != SatResult::Unsat
    }

    /// One arm of a branch was entered, under its condition. A tainted condition
    /// is not relied on; it only taints the path.
    pub open spec fn side_taken(self, old: Self, tainted: bool, c: Term) -> bool {
        if tainted {
            self == old.flagged(true)
        } else {
            self == (Explorer { path: self.path, ..old }) && self.path@ == old.path@.push(c)
        }
    }

    /// Go into one arm of a branch, under its condition. A tainted condition is
    /// not relied on; it only taints the path.
    pub fn take_side(&mut self, tainted: bool, c: Term)
        requires
            old(self).ok(),
            old(self).enc.terms.has(c),
        ensures
            final(self).ok(),
            final(self).after(*old(self)),
            final(self).same_place(*old(self)),
            final(self).side_taken(*old(self), tainted, c),
    {
        proof {
            self.lemma_after_refl();
            lemma_extends_push(self.path@, c);
        }
        if tainted {
            self.enc.st.path_tainted = true;
            proof {
                lemma_flag_fits(
                    self.enc.st,
                    old(self).enc.st,
                    self.enc.body.vars@.len(),
                    self.enc.terms,
                );
            }
        } else {
            self.path.push(c);
        }
    }

    /// The join point of a branch in the current body.
    pub fn find_join_multi(&mut self, targets: &Vec<BlockId>) -> (r: Option<BlockId>)
        requires
            old(self).ok(),
            forall|i: int|
                0 <= i < targets@.len() ==> (#[trigger] targets@[i]).0 < old(self).enc.body.blocks@.len(),
        ensures
            *final(self) == (Explorer { doms: final(self).doms, ..*old(self) }),
            final(self).ok(),
            final(self).after(*old(self)),
            match r {
                Some(b) => postdom::join_point(
                    postdom::graph_of(*old(self).enc.body),
                    block_ids(targets@),
                ) == Some(b.0) && b.0 < old(self).enc.body.blocks@.len(),
                None => postdom::join_point(
                    postdom::graph_of(*old(self).enc.body),
                    block_ids(targets@),
                ) is None,
            },
    {
        proof {
            self.lemma_after_refl();
        }
        let body = self.enc.body;
        let mut ids: Vec<u32> = Vec::new();
        let mut i: usize = 0;
        while i < targets.len()
            invariant
                i <= targets@.len(),
                ids@.len() == i,
                forall|j: int| 0 <= j < i ==> #[trigger] ids@[j] == targets@[j].0,
            decreases targets@.len() - i,
        {
            ids.push(targets[i].0);
            i += 1;
        }
        let ghost g = postdom::graph_of(*body);
        proof {
            assert(ids@ =~= block_ids(targets@));
            postdom::lemma_join_in_range(g, ids@);
        }
        let mut k: usize = 0;
        while k < self.doms.len()
            invariant
                k <= self.doms@.len(),
                *self == *old(self),
                self.ok(),
                body == self.enc.body,
                g == postdom::graph_of(*body),
                ids@ == block_ids(targets@),
                self.after(*old(self)),
                postdom::join_point(g, ids@) matches Some(j) ==> j < body.blocks@.len(),
            decreases self.doms@.len() - k,
        {
            if self.doms[k].0.same_as(&body.key) {
                proof {
                    assert(self.doms@[k as int].1.graph() == g);
                }
                return match self.doms[k].1.common(ids.as_slice()) {
                    Some(b) => Some(BlockId(b)),
                    None => None,
                };
            }
            k += 1;
        }
        let pd = PostDom::new(body);
        let r = match pd.common(ids.as_slice()) {
            Some(b) => Some(BlockId(b)),
            None => None,
        };
        self.doms.push((body.key.clone(), pd));
        r
    }
}

/// The numbers of blocks.
pub open spec fn block_ids(v: Seq<BlockId>) -> Seq<u32> {
    v.map_values(|b: BlockId| b.0)
}

/// A flag does not change what fits.
proof fn lemma_flag_fits(s: State, old: State, n: nat, ts: Terms)
    requires
        old.fits(n, ts),
        s == (State { path_tainted: s.path_tainted, ..old }),
    ensures
        s.fits(n, ts),
{
    reveal(State::fits);
}

} // verus!
