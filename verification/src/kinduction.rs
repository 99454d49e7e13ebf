//! The engine that proves obligations by induction.
//!
//! The base case is a bounded result of the model checker. A method without loops
//! needs nothing more. For one with loops the step case must be unsatisfiable: of
//! consecutive states, from one of which nothing is known, the obligation holds in as
//! many as the bound says and is violated in the next one. Running the solver is the
//! caller's.

use vstd::prelude::*;

use crate::body_analysis;
use crate::body_analysis::{body_has_loops, body_uses_havoced_ops};
use crate::engine;
use crate::engine::{
    bounded_obligations, Direction, EngineId, ObligationRef, ObligationRefV, Progress, ProofKind,
    Status,
};
use crate::imc;
use crate::ir::{Body, ObligationId};
use crate::program::Program;
use crate::smt_bmc::explore::SatResult;
use crate::smt_encode;
use crate::smt_encode::encode_steps;
use crate::term::{Term, Terms, Tm};

verus! {

/// Proves obligations by induction.
#[derive(Debug)]
pub struct KInduction {
    pub done: bool,
}

/// An obligation to prove, with the bound of its base case.
#[derive(Debug)]
pub struct Induction {
    pub obligation: ObligationRef,
    pub k: u32,
    /// Without loops the base case is everything.
    pub loop_free: bool,
}

/// View of [`Induction`].
#[verifier::ext_equal]
pub struct InductionV {
    pub obligation: ObligationRefV,
    pub k: u32,
    pub loop_free: bool,
}

impl View for Induction {
    type V = InductionV;

    open spec fn view(&self) -> InductionV {
        InductionV { obligation: self.obligation@, k: self.k, loop_free: self.loop_free }
    }
}

/// What a step begins with.
#[derive(Debug)]
pub enum InductionStart {
    /// There is nothing to do.
    End(Progress),
    /// Discharge those without loops, and try the step case of the others.
    Try(Vec<Induction>),
}

/// Does the body have a loop?
pub open spec fn loops(body: Body) -> bool {
    exists|i: int| 0 <= i < body.blocks@.len() && #[trigger] body_analysis::goes_back(body, i)
}

/// The obligations of bounded results that can be tried, in order.
pub open spec fn inductions(p: Program, bounded: Seq<(ObligationRefV, u32)>) -> Seq<InductionV>
    decreases bounded.len(),
{
    if bounded.len() == 0 {
        Seq::empty()
    } else {
        let rest = inductions(p, bounded.drop_last());
        let (o, k) = bounded.last();
        if imc::tractable(p, o) {
            rest.push(InductionV { obligation: o, k, loop_free: !loops(p.body_of(o.method)->0) })
        } else {
            rest
        }
    }
}

/// The views of a list.
pub open spec fn induction_views(v: Seq<Induction>) -> Seq<InductionV> {
    v.map_values(|i: Induction| i@)
}

/// The step case of an obligation.
pub enum StepCase {
    /// No state that comes after so many others checks the obligation.
    Holds,
    /// The obligation holds if the term cannot be true together with what the
    /// store asserts.
    Ask(Terms, Term),
}

/// The question of a step case, if there is one.
pub open spec fn asked(s: StepCase) -> Option<Term> {
    match s {
        StepCase::Holds => None,
        StepCase::Ask(_, t) => Some(t),
    }
}

/// What came of a step case.
#[derive(Clone, Copy, Debug, PartialEq, Eq, Structural)]
pub enum StepOutcome {
    /// There was no solver for it, or it was not asked for.
    NotSolved,
    /// There was nothing to ask.
    Holds,
    /// A solver answered.
    Solved(SatResult),
}

/// Does the obligation hold, by its base case alone or with the step case?
pub open spec fn inductive(i: InductionV, outcome: StepOutcome) -> bool {
    i.loop_free || outcome == StepOutcome::Holds || outcome == StepOutcome::Solved(SatResult::Unsat)
}

impl KInduction {
    pub fn new() -> (r: Self)
        ensures
            !r.done,
    {
        KInduction { done: false }
    }

    pub fn id(&self) -> (r: EngineId)
        ensures
            (r.0)@ == "k-induction"@,
    {
        EngineId("k-induction")
    }

    pub fn direction(&self) -> (d: Direction)
        ensures
            d == Direction::Over,
    {
        Direction::Over
    }

    /// Begin a step with the obligations that are open and their states.
    pub fn begin(&mut self, prog: &Program, open: &Vec<(ObligationRef, Status)>) -> (r: InductionStart)
        requires
            prog.well_formed(),
        ensures
            final(self).done,
            ({
                let idle = old(self).done || open@.len() == 0;
                let bounded = engine::bounded_of(open@);
                &&& r is Try <==> !idle && bounded.len() > 0
                &&& match r {
                    InductionStart::End(p) => {
                        &&& p != Progress::Advanced
                        &&& p == Progress::Exhausted <==> idle
                        &&& p == Progress::Stalled <==> !idle && bounded.len() == 0
                    },
                    InductionStart::Try(v) => induction_views(v@) == inductions(*prog, bounded),
                }
            }),
    {
        if self.done {
            return InductionStart::End(Progress::Exhausted);
        }
        self.done = true;
        if open.len() == 0 {
            return InductionStart::End(Progress::Exhausted);
        }
        let bounded = bounded_obligations(open);
        let ghost all = engine::bound_views(bounded@);
        if bounded.len() == 0 {
            proof {
                assert(all.len() == 0);
            }
            return InductionStart::End(Progress::Stalled);
        }
        let mut out: Vec<Induction> = Vec::new();
        let mut i: usize = 0;
        proof {
            assert(induction_views(out@) =~= inductions(*prog, all.take(0)));
        }
        while i < bounded.len()
            invariant
                i <= bounded@.len(),
                prog.well_formed(),
                all == engine::bound_views(bounded@),
                induction_views(out@) == inductions(*prog, all.take(i as int)),
            decreases bounded@.len() - i,
        {
            proof {
                assert(all.take(i + 1).drop_last() =~= all.take(i as int));
                assert(all[i as int].0 == bounded@[i as int].0@);
            }
            if let Some(b) = prog.body(&bounded[i].0.method) {
                if !body_uses_havoced_ops(b) {
                    let loop_free = !body_has_loops(b);
                    let ghost had = induction_views(out@);
                    let one = Induction {
                        obligation: bounded[i].0.clone(),
                        k: bounded[i].1,
                        loop_free,
                    };
                    out.push(one);
                    proof {
                        assert(induction_views(out@) =~= had.push(one@));
                    }
                }
            }
            i += 1;
        }
        proof {
            assert(all.take(i as int) =~= all);
        }
        InductionStart::Try(out)
    }

    /// The step case of an obligation that holds in the first `k` states of a run: can
    /// it be violated in the next one?
    pub fn step_case(&self, body: &Body, oid: ObligationId, k: u32) -> (r: StepCase)
        requires
            body.well_formed(),
        ensures
            oid.0 >= body.obligations@.len() ==> r is Holds,
            oid.0 < body.obligations@.len() ==> exists|ts: Terms, old: Terms, syms: Seq<Tm>|
                {
                    &&& #[trigger] smt_encode::inducts(
                        asked(r),
                        *body,
                        "step"@,
                        oid,
                        k as nat,
                        ts,
                        old,
                        syms,
                    )
                    &&& old.size() == 0 && old.asserted().len() == 0
                    &&& r matches StepCase::Ask(terms, _) ==> terms == ts
                },
    {
        if oid.0 as usize >= body.obligations.len() {
            return StepCase::Holds;
        }
        let mut terms = Terms::new();
        let ghost old = terms;
        let q = encode_steps(&mut terms, body, "step", oid, k);
        proof {
            let syms = choose|syms: Seq<Tm>| #[trigger]
                smt_encode::inducts(q, *body, "step"@, oid, k as nat, terms, old, syms);
            assert(smt_encode::inducts(q, *body, "step"@, oid, k as nat, terms, old, syms));
        }
        match q {
            Some(t) => StepCase::Ask(terms, t),
            None => StepCase::Holds,
        }
    }

    /// The status of an obligation after its step case, if it has a new one. The
    /// step case is not asked for where there are no loops.
    pub fn finish(&self, i: &Induction, outcome: StepOutcome) -> (r: Option<Status>)
        ensures
            r == if inductive(i@, outcome) {
                Some(Status::Discharged(ProofKind::KInduction { k: i.k }))
            } else {
                None
            },
    {
        let holds = i.loop_free || match outcome {
            StepOutcome::Holds => true,
            StepOutcome::Solved(result) => matches!(result, SatResult::Unsat),
            StepOutcome::NotSolved => false,
        };
        if holds {
            Some(Status::Discharged(ProofKind::KInduction { k: i.k }))
        } else {
            None
        }
    }
}

/// An obligation that is tried is open with a bounded result, its bound is that of
/// the result, and its method has a body without operations that the encoding says
/// nothing about.
pub proof fn law_induction_has_a_base_case(p: Program, open: Seq<(ObligationRef, Status)>, j: int)
    requires
        0 <= j < inductions(p, engine::bounded_of(open)).len(),
    ensures
        ({
            let i = inductions(p, engine::bounded_of(open))[j];
            &&& exists|n: int|
                0 <= n < open.len() && (#[trigger] open[n]).0@ == i.obligation && open[n].1 == (
                Status::Bounded { k: i.k })
            &&& imc::tractable(p, i.obligation)
            &&& i.loop_free == !loops(p.body_of(i.obligation.method)->0)
        }),
    decreases open.len(),
{
    if open.len() > 0 {
        let before = open.drop_last();
        let bounded = engine::bounded_of(open);
        let had = inductions(p, engine::bounded_of(before));
        if open.last().1 is Bounded {
            assert(bounded.drop_last() =~= engine::bounded_of(before));
            assert(bounded.last() == (open.last().0@, open.last().1->Bounded_k));
        } else {
            assert(bounded == engine::bounded_of(before));
        }
        if j < had.len() {
            law_induction_has_a_base_case(p, before, j);
            let i = had[j];
            let n = choose|n: int|
                0 <= n < before.len() && (#[trigger] before[n]).0@ == i.obligation && before[n].1 == (
                Status::Bounded { k: i.k });
            assert(open[n] == before[n]);
        } else {
            assert(open[open.len() - 1] == open.last());
        }
    }
}

impl Default for KInduction {
    fn default() -> (r: Self)
        ensures
            !r.done,
    {
        KInduction { done: false }
    }
}

} // verus!
