//! What engines decide: which obligations they settle, and how.
//!
//! An engine is asked for a step with the obligations that are still open. It
//! answers with the statuses it wants published; publishing them is the
//! caller's.

use vstd::prelude::*;

use crate::ir::{Const, MethodKey, MethodKeyV, ObligationId, Operand};
use crate::program::Program;
use crate::verdict::Witness;

verus! {

/// From which side an analysis approximates. One from above may discharge
/// obligations, one from below may refute them.
#[derive(Clone, Copy, Debug, PartialEq, Eq, Structural)]
pub enum Direction {
    Over,
    Under,
}

/// What a step came to.
#[derive(Clone, Copy, Debug, PartialEq, Eq, Structural)]
pub enum Progress {
    Advanced,
    Stalled,
    Exhausted,
}

/// Why an obligation holds.
#[derive(Clone, Copy, Debug, PartialEq, Eq, Structural)]
pub enum ProofKind {
    Trivial,
    Exhaustive,
    Invariant,
    KInduction { k: u32 },
}

/// Names an obligation.
#[derive(Debug)]
pub struct ObligationRef {
    pub method: MethodKey,
    pub id: ObligationId,
}

/// View of [`ObligationRef`].
#[verifier::ext_equal]
pub struct ObligationRefV {
    pub method: MethodKeyV,
    pub id: ObligationId,
}

impl View for ObligationRef {
    type V = ObligationRefV;

    open spec fn view(&self) -> ObligationRefV {
        ObligationRefV { method: self.method@, id: self.id }
    }
}

impl Clone for ObligationRef {
    fn clone(&self) -> (r: Self)
        ensures
            r == *self,
    {
        ObligationRef { method: self.method.clone(), id: self.id }
    }
}

/// The state of an obligation.
#[derive(Debug)]
pub enum Status {
    Open,
    /// No violation within `k` steps.
    Bounded { k: u32 },
    Discharged(ProofKind),
    Violated(Witness),
}

/// The name of an engine.
#[derive(Clone, Copy, Debug, PartialEq, Eq)]
pub struct EngineId(pub &'static str);

/// The views of a list of references.
pub open spec fn ref_views(v: Seq<ObligationRef>) -> Seq<ObligationRefV> {
    v.map_values(|o: ObligationRef| o@)
}

/// What comes of a step when `accepted` of the statuses it asked for were
/// published.
pub fn conclude(accepted: usize) -> (p: Progress)
    ensures
        p == if accepted > 0 {
            Progress::Advanced
        } else {
            Progress::Stalled
        },
{
    if accepted > 0 {
        Progress::Advanced
    } else {
        Progress::Stalled
    }
}

/// One more element of a filtered list.
pub proof fn lemma_filter_step<T>(s: Seq<T>, f: spec_fn(T) -> bool, i: int)
    requires
        0 <= i < s.len(),
    ensures
        s.take(i + 1).filter(f) == if f(s[i]) {
            s.take(i).filter(f).push(s[i])
        } else {
            s.take(i).filter(f)
        },
{
    reveal(Seq::filter);
    assert(s.take(i + 1).drop_last() =~= s.take(i));
}

/// The body of the obligation has it.
pub open spec fn ref_in(p: Program, o: ObligationRefV) -> bool {
    p.body_of(o.method) matches Some(b) ==> o.id.0 < b.obligations@.len()
}

/// Is the condition of the obligation a constant other than zero?
pub open spec fn trivially_safe(p: Program, o: ObligationRefV) -> bool {
    p.body_of(o.method) matches Some(b) && (b.obligations@[o.id.0 as int].cond matches Operand::Const(
        Const::Int(v),
    ) && v != 0)
}

/// Discharges the obligations whose condition is a constant: it holds on every
/// path.
#[derive(Debug)]
pub struct Presolve {
    pub done: bool,
}

impl Default for Presolve {
    fn default() -> (r: Self)
        ensures
            !r.done,
    {
        Presolve { done: false }
    }
}

impl Presolve {
    pub fn new() -> (r: Self)
        ensures
            !r.done,
    {
        Presolve { done: false }
    }

    pub fn id(&self) -> (r: EngineId)
        ensures
            (r.0)@ == "presolve"@,
    {
        EngineId("presolve")
    }

    pub fn direction(&self) -> (d: Direction)
        ensures
            d == Direction::Over,
    {
        Direction::Over
    }

    /// How this engine discharges an obligation.
    pub fn proof_kind(&self) -> (r: ProofKind)
        ensures
            r == ProofKind::Trivial,
    {
        ProofKind::Trivial
    }

    /// The open obligations that are trivially safe, in order, each to be
    /// discharged as [`ProofKind::Trivial`]. `None` once a step was taken.
    pub fn step(&mut self, prog: &Program, open: &Vec<ObligationRef>) -> (r: Option<
        Vec<ObligationRef>,
    >)
        requires
            forall|i: int| 0 <= i < open@.len() ==> ref_in(*prog, (#[trigger] open@[i])@),
        ensures
            final(self).done,
            r is None <==> old(self).done,
            r matches Some(v) ==> ref_views(v@) == ref_views(open@).filter(
                |o: ObligationRefV| trivially_safe(*prog, o),
            ),
    {
        if self.done {
            return None;
        }
        self.done = true;
        let ghost f = |o: ObligationRefV| trivially_safe(*prog, o);
        let ghost all = ref_views(open@);
        let mut out: Vec<ObligationRef> = Vec::new();
        proof {
            reveal(Seq::filter);
            assert(all.take(0).filter(f) =~= ref_views(out@));
        }
        let mut i: usize = 0;
        while i < open.len()
            invariant
                i <= open@.len(),
                all == ref_views(open@),
                f == (|o: ObligationRefV| trivially_safe(*prog, o)),
                forall|i: int| 0 <= i < open@.len() ==> ref_in(*prog, (#[trigger] open@[i])@),
                ref_views(out@) == all.take(i as int).filter(f),
            decreases open@.len() - i,
        {
            proof {
                lemma_filter_step(all, f, i as int);
                assert(all[i as int] == open@[i as int]@);
                assert(ref_in(*prog, open@[i as int]@));
            }
            let safe = match prog.body(&open[i].method) {
                Some(b) => match &b.obligation(open[i].id).cond {
                    Operand::Const(Const::Int(v)) => *v != 0,
                    _ => false,
                },
                None => false,
            };
            if safe {
                let ghost before = out@;
                out.push(open[i].clone());
                proof {
                    assert(ref_views(out@) =~= ref_views(before).push(all[i as int]));
                }
            }
            i += 1;
        }
        proof {
            assert(all.take(i as int) =~= all);
        }
        Some(out)
    }
}

/// The open obligations with a bounded result, and the bound.
pub open spec fn bounded_of(open: Seq<(ObligationRef, Status)>) -> Seq<(ObligationRefV, u32)>
    decreases open.len(),
{
    if open.len() == 0 {
        seq![]
    } else {
        let before = bounded_of(open.drop_last());
        match open.last().1 {
            Status::Bounded { k } => before.push((open.last().0@, k)),
            _ => before,
        }
    }
}

/// The views of references with bounds.
pub open spec fn bound_views(v: Seq<(ObligationRef, u32)>) -> Seq<(ObligationRefV, u32)> {
    v.map_values(|p: (ObligationRef, u32)| (p.0@, p.1))
}

/// The open obligations with a bounded result: those that a step case can be
/// tried on.
pub fn bounded_obligations(open: &Vec<(ObligationRef, Status)>) -> (r: Vec<(ObligationRef, u32)>)
    ensures
        bound_views(r@) == bounded_of(open@),
{
    let mut out: Vec<(ObligationRef, u32)> = Vec::new();
    proof {
        assert(bound_views(out@) =~= bounded_of(open@.take(0)));
    }
    let mut i: usize = 0;
    while i < open.len()
        invariant
            i <= open@.len(),
            bound_views(out@) == bounded_of(open@.take(i as int)),
        decreases open@.len() - i,
    {
        proof {
            assert(open@.take(i + 1).drop_last() =~= open@.take(i as int));
        }
        if let Status::Bounded { k } = &open[i].1 {
            let ghost before = out@;
            out.push((open[i].0.clone(), *k));
            proof {
                assert(bound_views(out@) =~= bound_views(before).push((open@[i as int].0@, *k)));
            }
        }
        i += 1;
    }
    proof {
        assert(open@.take(i as int) =~= open@);
    }
    out
}

} // verus!
