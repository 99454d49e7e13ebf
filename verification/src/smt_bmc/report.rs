//! The engine: one exploration of the entry method, and what it settles.

use vstd::prelude::*;

use super::explore;
use super::explore::{Asked, Effort, Explorer, Findings, SatResult, Solver};
use super::frames::filled;
use super::rvalue;
use super::state;
use super::state::{Encoder, LoopKeyV, State};
use crate::assoc::Assoc;
use crate::engine;
use crate::engine::{
    lemma_filter_step, Direction, EngineId, ObligationRef, ObligationRefV, ProofKind, Status,
};
use crate::ir::{Body, FieldKeyV, MethodKey, MethodKeyV, ObligationId, VarId};
use crate::models::Models;
use crate::program::Program;
use crate::term::{Term, Terms, Tm};

verus! {

/// Was the obligation skipped?
pub open spec fn in_skipped(found: Findings, id: ObligationId) -> bool {
    exists|i: int| 0 <= i < found.skipped@.len() && #[trigger] found.skipped@[i] == id
}

/// Does a complete exploration without violations prove the obligation?
///
/// In the entry method it does unless a call in a block with handlers was not
/// resolved: what it throws might reach a handler that was not explored. In any
/// other method, explored or not, every call must have been resolved.
pub open spec fn can_discharge(found: Findings, entry: MethodKeyV, o: ObligationRefV) -> bool {
    &&& !in_skipped(found, o.id)
    &&& if o.method == entry {
        !found.has_unresolved_in_try
    } else {
        found.all_calls_resolved
    }
}

/// What an exploration settles.
pub enum Settled {
    /// Some inputs violate obligations.
    Violations,
    /// These obligations hold.
    Proved(Vec<ObligationRef>),
    /// These obligations hold up to the bound.
    Bounded(Vec<ObligationRef>),
    Nothing,
}

fn is_skipped(found: &Findings, id: ObligationId) -> (r: bool)
    ensures
        r == in_skipped(*found, id),
{
    let mut i: usize = 0;
    while i < found.skipped.len()
        invariant
            i <= found.skipped@.len(),
            forall|j: int| 0 <= j < i ==> #[trigger] found.skipped@[j] != id,
        decreases found.skipped@.len() - i,
    {
        if found.skipped[i] == id {
            return true;
        }
        i += 1;
    }
    false
}

/// Does a complete exploration without violations prove the obligation?
pub fn discharges(found: &Findings, entry: &MethodKey, o: &ObligationRef) -> (r: bool)
    ensures
        r == can_discharge(*found, entry@, o@),
{
    if is_skipped(found, o.id) {
        return false;
    }
    if o.method.same_as(entry) {
        !found.has_unresolved_in_try
    } else {
        found.all_calls_resolved
    }
}

/// What an exploration with the given findings settles, of the obligations that
/// are open. `budget` says whether it ended with budget left.
pub open spec fn settles(
    r: Settled,
    found: Findings,
    budget: bool,
    entry: MethodKeyV,
    open: Seq<ObligationRef>,
) -> bool {
    match r {
        Settled::Violations => found.violations@.len() > 0,
        Settled::Proved(v) => {
            &&& found.violations@.len() == 0 && budget && !found.exhausted
            &&& found.all_paths_complete
            &&& engine::ref_views(v@) == engine::ref_views(open).filter(
                |o: ObligationRefV| can_discharge(found, entry, o),
            )
        },
        Settled::Bounded(v) => {
            &&& found.violations@.len() == 0 && budget && !found.exhausted
            &&& !found.all_paths_complete
            &&& engine::ref_views(v@) == engine::ref_views(open).filter(
                |o: ObligationRefV| o.method == entry,
            )
        },
        Settled::Nothing => found.violations@.len() == 0 && !(budget && !found.exhausted),
    }
}

/// What an exploration with the given findings settles, of the obligations that
/// are open. `budget` says whether it ended with budget left.
pub fn settle(found: &Findings, budget: bool, entry: &MethodKey, open: &Vec<ObligationRef>) -> (r:
    Settled)
    ensures
        settles(r, *found, budget, entry@, open@),
{
    if found.violations.len() > 0 {
        return Settled::Violations;
    }
    if !budget || found.exhausted {
        return Settled::Nothing;
    }
    let ghost f = if found.all_paths_complete {
        |o: ObligationRefV| can_discharge(*found, entry@, o)
    } else {
        |o: ObligationRefV| o.method == entry@
    };
    let ghost all = engine::ref_views(open@);
    let mut out: Vec<ObligationRef> = Vec::new();
    proof {
        reveal(Seq::filter);
        assert(all.take(0).filter(f) =~= engine::ref_views(out@));
    }
    let mut i: usize = 0;
    while i < open.len()
        invariant
            i <= open@.len(),
            all == engine::ref_views(open@),
            found.all_paths_complete ==> f == (|o: ObligationRefV|
                can_discharge(*found, entry@, o)),
            !found.all_paths_complete ==> f == (|o: ObligationRefV| o.method == entry@),
            engine::ref_views(out@) == all.take(i as int).filter(f),
        decreases open@.len() - i,
    {
        proof {
            lemma_filter_step(all, f, i as int);
            assert(all[i as int] == open@[i as int]@);
        }
        let take = if found.all_paths_complete {
            discharges(found, entry, &open[i])
        } else {
            open[i].method.same_as(entry)
        };
        if take {
            let ghost before = out@;
            out.push(open[i].clone());
            proof {
                assert(engine::ref_views(out@) =~= engine::ref_views(before).push(all[i as int]));
            }
        }
        i += 1;
    }
    proof {
        assert(all.take(i as int) =~= all);
    }
    if found.all_paths_complete {
        Settled::Proved(out)
    } else {
        Settled::Bounded(out)
    }
}

/// The state before anything was executed, but for the variables.
pub open spec fn blank(s: State, n: nat) -> bool {
    &&& s.str_vars@ == Seq::new(n, |i: int| None::<Term>)
    &&& s.var_widths@ == Seq::new(n, |i: int| None::<u32>)
    &&& s.tainted@ == Seq::new(n, |i: int| false)
    &&& s.float_tainted@ == Seq::new(n, |i: int| false)
    &&& !s.path_tainted
    &&& forall|k: FieldKeyV| (#[trigger] s.statics.at(k)) is None
    &&& forall|k: FieldKeyV| (#[trigger] s.static_str.at(k)) is None
    &&& forall|k: FieldKeyV| (#[trigger] s.static_tainted.at(k)) is None
    &&& forall|k: FieldKeyV| (#[trigger] s.field_arrays.at(k)) is None
    &&& forall|k: FieldKeyV| (#[trigger] s.field_str.at(k)) is None
    &&& forall|k: FieldKeyV| (#[trigger] s.field_tainted.at(k)) is None
    &&& forall|k: LoopKeyV| (#[trigger] s.loop_visits.at(k)) is None
    &&& s.array_map@.len() == 0
    &&& s.nondet_terms@.len() == 0
}

/// Every variable has a fresh symbol of its declared width.
pub open spec fn vars_named(e: Encoder) -> bool {
    &&& e.st.vars@.len() == e.body.vars@.len()
    &&& forall|i: int|
        0 <= i < e.st.vars@.len() ==> {
            &&& (#[trigger] e.st.vars@[i]) is Some
            &&& e.terms.has(e.st.vars@[i]->0)
            &&& e.terms.tm(e.st.vars@[i]->0) == Tm::FreshBv(
                (e.st.vars@[i]->0).pos(),
                state::uninit_name(VarId(i as u32)),
                e.var_width(VarId(i as u32)),
            )
        }
}

/// Give every variable its symbol, so that what the arms of a branch do to one is
/// joined with its value before the branch.
fn name_vars(enc: &mut Encoder)
    requires
        old(enc).ok(),
        old(enc).st.vars@ == Seq::new(old(enc).body.vars@.len(), |i: int| None::<Term>),
    ensures
        final(enc).settled_from(*old(enc)),
        vars_named(*final(enc)),
{
    let n = enc.body.vars.len();
    proof {
        enc.lemma_built_settles(*enc);
    }
    let mut i: usize = 0;
    while i < n
        invariant
            i <= n,
            n == enc.body.vars@.len(),
            n <= u32::MAX,
            old(enc).ok(),
            old(enc).st.vars@ == Seq::new(n as nat, |i: int| None::<Term>),
            enc.settled_from(*old(enc)),
            forall|j: int| 0 <= j < i ==> (#[trigger] enc.st.vars@[j]) is Some,
        decreases n - i,
    {
        let ghost mid = *enc;
        enc.get_var(VarId(i as u32));
        proof {
            enc.lemma_settled_trans(mid, *old(enc));
            mid.st.lemma_fits(mid.body.vars@.len(), mid.terms);
            assert forall|j: int| 0 <= j < i + 1 implies (#[trigger] enc.st.vars@[j]) is Some by {
                if j < i {
                    assert(mid.st.vars@[j] is Some);
                }
            }
        }
        i += 1;
    }
    proof {
        enc.st.lemma_fits(n as nat, enc.terms);
        assert forall|j: int| 0 <= j < enc.st.vars@.len() implies {
            &&& (#[trigger] enc.st.vars@[j]) is Some
            &&& enc.terms.has(enc.st.vars@[j]->0)
            &&& enc.terms.tm(enc.st.vars@[j]->0) == Tm::FreshBv(
                (enc.st.vars@[j]->0).pos(),
                state::uninit_name(VarId(j as u32)),
                enc.var_width(VarId(j as u32)),
            )
        } by {
            assert(old(enc).st.vars@[j] is None);
            assert(enc.terms.has_opt(enc.st.vars@[j]));
        }
    }
}

/// The state before anything was executed.
fn blank_state(n: usize, type_array: Term) -> (s: State)
    ensures
        s.vars@ == Seq::new(n as nat, |i: int| None::<Term>),
        forall|ts: Terms| ts.has(type_array) ==> #[trigger] s.fits(n as nat, ts),
        s.type_array == type_array,
        blank(s, n as nat),
{
    let s = State {
        vars: filled(n, None),
        str_vars: filled(n, None),
        var_widths: filled(n, None),
        tainted: filled(n, false),
        float_tainted: filled(n, false),
        path_tainted: false,
        statics: Assoc::new(),
        static_str: Assoc::new(),
        static_tainted: Assoc::new(),
        field_arrays: Assoc::new(),
        field_str: Assoc::new(),
        field_tainted: Assoc::new(),
        array_map: Vec::new(),
        type_array,
        nondet_terms: Vec::new(),
        loop_visits: Assoc::new(),
    };
    proof {
        reveal(State::fits);
    }
    s
}

/// The explorer is at the start of the body, nothing was found yet, and the solver was
/// asked nothing since.
pub open spec fn at_entry<'a, S: Solver>(
    e: Explorer<'a, S>,
    prog: Program,
    models: Models,
    body: Body,
    max_depth: u32,
    ascii_only: bool,
) -> bool {
    &&& *e.enc.prog == prog
    &&& e.enc.ascii_only == ascii_only
    &&& *e.enc.models == models
    &&& *e.enc.body == body
    &&& blank(e.enc.st, body.vars@.len())
    &&& vars_named(e.enc)
    &&& e.enc.terms.tm(e.enc.st.type_array) == Tm::FreshArray(0, "type"@, 32)
    &&& e.enc.terms.asserted().len() == 0
    &&& forall|c: Seq<char>| (#[trigger] e.enc.type_ids.at(c)) is None
    &&& e.enc.next_type_id == 1
    &&& e.enc.next_alloc_id == 1
    &&& e.found.violations@.len() == 0
    &&& e.found.skipped@.len() == 0
    &&& e.found.inlined@.len() == 0
    &&& e.found.all_paths_complete
    &&& e.found.all_calls_resolved
    &&& !e.found.has_unresolved_in_try
    &&& !e.found.exhausted
    &&& e.effort == (Effort { solver_calls: 0, block_visits: 0, fork_count: 0 })
    &&& e.path@.len() == 0
    &&& e.depth == 0
    &&& e.max_depth == max_depth
    &&& e.call_depth == 0
    &&& e.clinit_done@.len() == 0
    &&& e.ret is None
    &&& !e.ret_tainted
    &&& e.since@ == e.solver.asked().len()
}

/// An explorer at the start of the body of a method.
pub fn start<'a, S: Solver>(
    prog: &'a Program,
    models: &'a Models,
    body: &'a Body,
    solver: S,
    max_depth: u32,
    ascii_only: bool,
) -> (r: Explorer<'a, S>)
    requires
        prog.well_formed(),
        prog.body_of(body.key@) == Some(*body),
        body.well_formed(),
        max_depth < u32::MAX,
    ensures
        r.ok(),
        at_entry(r, *prog, *models, *body, max_depth, ascii_only),
        r.solver == solver,
{
    let mut terms = Terms::new();
    let type_array = terms.fresh_array("type", 32);
    let st = blank_state(body.vars.len(), type_array);
    let mut enc = Encoder {
        prog,
        models,
        body,
        terms,
        st,
        type_ids: Assoc::new(),
        next_type_id: 1,
        next_alloc_id: 1,
        ascii_only,
    };
    name_vars(&mut enc);
    let since = Ghost(solver.asked().len());
    proof {
        reveal(explore::all_backed);
        assert(solver.asked().skip(since@ as int) =~= Seq::empty());
    }
    Explorer {
        enc,
        solver,
        found: Findings {
            violations: Vec::new(),
            skipped: Vec::new(),
            inlined: Vec::new(),
            all_paths_complete: true,
            all_calls_resolved: true,
            has_unresolved_in_try: false,
            exhausted: false,
        },
        effort: Effort { solver_calls: 0, block_visits: 0, fork_count: 0 },
        path: Vec::new(),
        depth: 0,
        max_depth,
        call_depth: 0,
        clinit_done: Vec::new(),
        ret: None,
        ret_tainted: false,
        doms: Vec::new(),
        since,
    }
}

/// The bounded model checker.
#[derive(Debug)]
pub struct SmtBmc {
    pub max_depth: u32,
    pub done: bool,
    /// Keep inputs that are characters to ASCII. Witnesses then have no other
    /// characters, which the character methods are not modelled on, and a violation
    /// that needs one is not found.
    pub ascii_only: bool,
}

/// What a step found: the violations with their witnesses, or what was settled
/// without any.
pub struct Report {
    pub found: Findings,
    pub settled: Settled,
}

/// The report is that of an exploration of the body, with its reference parameters
/// assumed to be objects, in which the given solver was asked. It has no more violations
/// than the solver found questions satisfiable, and the witness of each was read from the
/// model of one of them.
pub open spec fn reports<S: Solver>(
    p: Report,
    prog: Program,
    models: Models,
    body: Body,
    max_depth: u32,
    ascii_only: bool,
    open: Seq<ObligationRef>,
    solver: S,
) -> bool {
    exists|begun: Explorer<S>, ready: Explorer<S>, done: Explorer<S>|
        {
            &&& #[trigger] at_entry(begun, prog, models, body, max_depth, ascii_only)
            &&& begun.solver == solver
            &&& begun.ok() && ready.ok()
            &&& ready == (Explorer { enc: ready.enc, ..begun })
            &&& #[trigger] rvalue::params_assumed(ready.enc, begun.enc)
            &&& #[trigger] done.explored(ready, body.entry, 0, None)
            &&& done.found.violations@.len() <= explore::sat_answers(done.log())
            &&& explore::all_backed(done.found.violations@, done.log())
            &&& p.found == done.found
            &&& settles(p.settled, done.found, done.has_budget(), body.key@, open)
        }
}

/// A status to be published of an obligation, and the side it was found from.
#[derive(Debug)]
pub struct Publication {
    pub obligation: ObligationRef,
    pub direction: Direction,
    pub status: Status,
}

/// What is published of an obligation that was settled.
pub open spec fn published(p: Publication, o: ObligationRefV, d: Direction, s: Status) -> bool {
    p.obligation@ == o && p.direction == d && p.status == s
}

/// The statuses to be published after a step: first the violations, in the order
/// that they were found, then what was settled without any.
pub open spec fn publishes(r: Seq<Publication>, report: Report, k: u32) -> bool {
    let n = report.found.violations@.len();
    &&& forall|i: int|
        0 <= i < n ==> published(
            #[trigger] r[i],
            ObligationRefV {
                method: report.found.violations@[i].method@,
                id: report.found.violations@[i].id,
            },
            Direction::Under,
            Status::Violated(report.found.violations@[i].witness),
        )
    &&& match report.settled {
        Settled::Proved(v) => {
            &&& r.len() == n + v@.len()
            &&& forall|i: int|
                n <= i < r.len() ==> published(
                    #[trigger] r[i],
                    v@[i - n]@,
                    Direction::Over,
                    Status::Discharged(ProofKind::Exhaustive),
                )
        },
        Settled::Bounded(v) => {
            &&& r.len() == n + v@.len()
            &&& forall|i: int|
                n <= i < r.len() ==> published(
                    #[trigger] r[i],
                    v@[i - n]@,
                    Direction::Under,
                    Status::Bounded { k },
                )
        },
        _ => r.len() == n,
    }
}

/// Of each obligation the same status.
fn publish_all(out: &mut Vec<Publication>, refs: &Vec<ObligationRef>, proved: bool, k: u32)
    ensures
        final(out)@.len() == old(out)@.len() + refs@.len(),
        forall|i: int| 0 <= i < old(out)@.len() ==> #[trigger] final(out)@[i] == old(out)@[i],
        forall|i: int|
            old(out)@.len() <= i < final(out)@.len() ==> published(
                #[trigger] final(out)@[i],
                refs@[i - old(out)@.len()]@,
                if proved {
                    Direction::Over
                } else {
                    Direction::Under
                },
                if proved {
                    Status::Discharged(ProofKind::Exhaustive)
                } else {
                    Status::Bounded { k }
                },
            ),
{
    let ghost base = out@;
    let mut i: usize = 0;
    while i < refs.len()
        invariant
            i <= refs@.len(),
            out@.len() == base.len() + i,
            forall|j: int| 0 <= j < base.len() ==> #[trigger] out@[j] == base[j],
            forall|j: int|
                base.len() <= j < out@.len() ==> published(
                    #[trigger] out@[j],
                    refs@[j - base.len()]@,
                    if proved {
                        Direction::Over
                    } else {
                        Direction::Under
                    },
                    if proved {
                        Status::Discharged(ProofKind::Exhaustive)
                    } else {
                        Status::Bounded { k }
                    },
                ),
        decreases refs@.len() - i,
    {
        let (direction, status) = if proved {
            (Direction::Over, Status::Discharged(ProofKind::Exhaustive))
        } else {
            (Direction::Under, Status::Bounded { k })
        };
        out.push(Publication { obligation: refs[i].clone(), direction, status });
        i += 1;
    }
}

impl Report {
    /// The statuses to be published after a step with the bound `k`.
    pub fn publications(self, k: u32) -> (r: Vec<Publication>)
        ensures
            publishes(r@, self, k),
    {
        let ghost all = self.found.violations@;
        let mut violations = self.found.violations;
        let mut out: Vec<Publication> = Vec::new();
        while violations.len() > 0
            invariant
                out@.len() + violations@.len() == all.len(),
                violations@ == all.skip(out@.len() as int),
                forall|i: int|
                    0 <= i < out@.len() ==> published(
                        #[trigger] out@[i],
                        ObligationRefV { method: all[i].method@, id: all[i].id },
                        Direction::Under,
                        Status::Violated(all[i].witness),
                    ),
            decreases violations@.len(),
        {
            let v = violations.remove(0);
            proof {
                assert(v == all[out@.len() as int]);
                assert(all.skip(out@.len() as int).remove(0) =~= all.skip(out@.len() as int + 1));
            }
            out.push(
                Publication {
                    obligation: ObligationRef { method: v.method, id: v.id },
                    direction: Direction::Under,
                    status: Status::Violated(v.witness),
                },
            );
        }
        match &self.settled {
            Settled::Proved(v) => publish_all(&mut out, v, true, k),
            Settled::Bounded(v) => publish_all(&mut out, v, false, k),
            _ => {},
        }
        out
    }
}

impl SmtBmc {
    pub fn new(max_depth: u32) -> (r: Self)
        ensures
            r.max_depth == max_depth,
            !r.done,
            !r.ascii_only,
    {
        SmtBmc { max_depth, done: false, ascii_only: false }
    }

    pub fn id(&self) -> (r: EngineId)
        ensures
            (r.0)@ == "smt-bmc"@,
    {
        EngineId("smt-bmc")
    }

    /// Violations that it finds are real; only an exploration that misses nothing
    /// proves anything.
    pub fn direction(&self) -> (d: Direction)
        ensures
            d == Direction::Under,
    {
        Direction::Under
    }

    /// Explore the entry method and report. `None` where there is nothing to
    /// explore, or a step was taken before.
    ///
    /// Obligations are only reported as proved when no path was cut short and no
    /// violation was found; with a violation nothing is. There are no more violations
    /// than questions that the solver found satisfiable.
    pub fn step<S: Solver>(
        &mut self,
        prog: &Program,
        models: &Models,
        solver: S,
        open: &Vec<ObligationRef>,
    ) -> (r: Option<Report>)
        requires
            prog.well_formed(),
            old(self).max_depth < u32::MAX,
            prog.entry matches Some(e) ==> 2 * e.desc@.len() <= usize::MAX,
        ensures
            final(self).done,
            final(self).max_depth == old(self).max_depth,
            final(self).ascii_only == old(self).ascii_only,
            r is Some <==> !old(self).done && (prog.entry matches Some(e) && prog.body_of(e@) is Some),
            r matches Some(p) ==> {
                let e = (prog.entry->0)@;
                let body = prog.body_of(e)->0;
                &&& p.found.valid(*prog)
                &&& reports::<S>(
                    p,
                    *prog,
                    *models,
                    body,
                    old(self).max_depth,
                    old(self).ascii_only,
                    open@,
                    solver,
                )
            },
    {
        if self.done {
            return None;
        }
        self.done = true;
        let entry = match &prog.entry {
            Some(e) => e,
            None => {
                return None;
            },
        };
        let body = match prog.body(entry) {
            Some(b) => b,
            None => {
                return None;
            },
        };
        let mut ex = start(prog, models, body, solver, self.max_depth, self.ascii_only);
        let ghost begun = ex;
        ex.enc.constrain_ref_params_nonnull();
        proof {
            explore::lemma_extends_refl(begun.enc.st.nondet_terms@);
            ex.lemma_enc_step(begun);
        }
        let ghost ready = ex;
        ex.explore_block(body.entry);
        let budget = ex.budget_left();
        let settled = settle(&ex.found, budget, entry, open);
        let ghost done = ex;
        proof {
            assert(at_entry(
                begun,
                *prog,
                *models,
                *body,
                self.max_depth,
                self.ascii_only,
            ));
            assert(rvalue::params_assumed(ready.enc, begun.enc));
            assert(done.explored(ready, body.entry, 0, None));
        }
        let r = Report { found: ex.found, settled };
        proof {
            assert(reports::<S>(
                r,
                *prog,
                *models,
                *body,
                self.max_depth,
                self.ascii_only,
                open@,
                begun.solver,
            ));
        }
        Some(r)
    }
}

/// A complete exploration without violations proves every open obligation of the
/// entry method that was not skipped, as long as no unresolved call could throw
/// into a handler.
pub proof fn law_complete_exploration_proves_entry(
    found: Findings,
    entry: MethodKeyV,
    o: ObligationRefV,
)
    requires
        o.method == entry,
        !found.has_unresolved_in_try,
        !in_skipped(found, o.id),
    ensures
        can_discharge(found, entry, o),
{
}

/// What is found only accumulates: an obligation that was skipped stays so, and
/// more findings never discharge more.
pub proof fn law_findings_are_monotone(
    later: Findings,
    earlier: Findings,
    entry: MethodKeyV,
    o: ObligationRefV,
)
    requires
        later.follows(earlier),
        can_discharge(later, entry, o),
    ensures
        can_discharge(earlier, entry, o),
{
    if in_skipped(earlier, o.id) {
        let i = choose|i: int|
            0 <= i < earlier.skipped@.len() && #[trigger] earlier.skipped@[i] == o.id;
        assert(later.skipped@.take(earlier.skipped@.len() as int)[i] == o.id);
        assert(later.skipped@[i] == o.id);
    }
}

proof fn lemma_no_sat_answers(log: Seq<Asked>)
    requires
        forall|i: int|
            0 <= i < log.len() ==> !(#[trigger] log[i] matches Asked::Check { answer, .. } && answer
                == SatResult::Sat),
    ensures
        explore::sat_answers(log) == 0,
    decreases log.len(),
{
    if log.len() > 0 {
        lemma_no_sat_answers(log.drop_last());
        assert(log[log.len() - 1] == log.last());
    }
}

/// While the solver finds nothing satisfiable, no violation is found.
pub proof fn law_no_model_no_violation<'a, S: Solver>(e: Explorer<'a, S>)
    requires
        e.ok(),
        forall|i: int|
            0 <= i < e.log().len() ==> !(#[trigger] e.log()[i] matches Asked::Check { answer, .. }
                && answer == SatResult::Sat),
    ensures
        e.found.violations@.len() == 0,
{
    lemma_no_sat_answers(e.log());
}

} // verus!
