//! The engine: one execution with default inputs.

use vstd::prelude::*;

use super::entry;
use super::machine;
use super::machine::{Answer, Given, Outcome, OutcomeV, Request, RequestV};
use super::run;
use super::run::Machine;
use crate::assoc::Assoc;
use crate::engine::{Direction, EngineId, ObligationRef, ObligationRefV};
use crate::ir::{Body, VarId};
use crate::models::Models;
use crate::program::Program;
use crate::verdict;
use crate::verdict::{NondetEntryV, Witness};

verus! {

/// The budget of one execution.
pub const STEP_BUDGET: u64 = 200_000;

/// How the execution of the body ends.
pub open spec fn outcome(g: Given, body: Body, steps: nat) -> OutcomeV {
    machine::run(g, body, machine::initial(steps), Map::empty(), body.entry, 0).1
}

/// Run the body with the given choices; beyond the last, choices are 0.
pub fn run_with_choices(
    prog: &Program,
    models: &Models,
    body: &Body,
    choices: &Vec<i64>,
    answers: &Vec<Answer>,
    step_budget: u64,
) -> (o: Outcome)
    requires
        entry::can_run(*prog, *models, *body),
    ensures
        o@ == outcome(
            (Given {
                prog: *prog,
                models: *models,
                choices: choices@,
                answers: run::answer_views(answers@),
            }),
            *body,
            step_budget as nat,
        ),
{
    let mut m = Machine::new(prog, models, choices, answers, step_budget);
    let store: Assoc<VarId, crate::concrete::value::Value> = Assoc::new();
    proof {
        assert(store.map() =~= Map::empty());
    }
    m.run_body(body, store)
}

/// What the execution with default inputs is given.
pub open spec fn defaults(prog: Program, models: Models, answers: Seq<Answer>) -> Given {
    Given { prog, models, choices: Seq::empty(), answers: run::answer_views(answers) }
}

/// What a step finds.
pub enum Probe {
    /// There is nothing to do.
    Exhausted,
    /// An answer is missing.
    Ask(Request),
    /// The execution ended; the violation that it found, if any.
    Done(Option<(ObligationRef, Witness)>),
}

/// View of [`Probe`].
#[verifier::ext_equal]
pub enum ProbeV {
    Exhausted,
    Ask(RequestV),
    Done(Option<(ObligationRefV, Seq<NondetEntryV>)>),
}

impl View for Probe {
    type V = ProbeV;

    open spec fn view(&self) -> ProbeV {
        match *self {
            Probe::Exhausted => ProbeV::Exhausted,
            Probe::Ask(r) => ProbeV::Ask(r@),
            Probe::Done(Some((o, w))) => ProbeV::Done(
                Some((o@, verdict::entry_views(w.entries@))),
            ),
            Probe::Done(None) => ProbeV::Done(None),
        }
    }
}

/// What is found by an execution that ends so.
pub open spec fn found(o: OutcomeV) -> ProbeV {
    match o {
        OutcomeV::Violated { method, oid, entries } => ProbeV::Done(
            Some((ObligationRefV { method, id: oid }, entries)),
        ),
        OutcomeV::Ask(r) => ProbeV::Ask(r),
        _ => ProbeV::Done(None),
    }
}

/// What is found by an execution that ends so.
pub fn judge(o: Outcome) -> (p: Probe)
    ensures
        p@ == found(o@),
{
    match o {
        Outcome::Violated { method, oid, entries } => Probe::Done(
            Some((ObligationRef { method, id: oid }, Witness { entries })),
        ),
        Outcome::Ask(r) => Probe::Ask(r),
        _ => Probe::Done(None),
    }
}

/// One execution of the body with default inputs.
pub fn search(prog: &Program, models: &Models, body: &Body, answers: &Vec<Answer>) -> (p: Probe)
    requires
        entry::can_run(*prog, *models, *body),
    ensures
        p@ == found(
            outcome(defaults(*prog, *models, answers@), *body, STEP_BUDGET as nat),
        ),
{
    let choices: Vec<i64> = Vec::new();
    proof {
        assert(choices@ =~= Seq::empty());
    }
    judge(run_with_choices(prog, models, body, &choices, answers, STEP_BUDGET))
}

/// Runs the entry of the program once with default inputs. Finding the inputs
/// that lead to a violation is not its job.
#[derive(Debug)]
pub struct Concrete {
    pub done: bool,
}

impl Concrete {
    pub fn new() -> (r: Self)
        ensures
            !r.done,
    {
        Concrete { done: false }
    }

    pub fn id(&self) -> (r: EngineId)
        ensures
            (r.0)@ == "concrete"@,
    {
        EngineId("concrete")
    }

    /// Violations that it finds are real, and it finds only some of them.
    pub fn direction(&self) -> (d: Direction)
        ensures
            d == Direction::Under,
    {
        Direction::Under
    }

    /// Run the entry. While answers are missing the step can be taken again with
    /// one answer more; after that there is nothing left to do.
    pub fn step(&mut self, prog: &Program, models: &Models, answers: &Vec<Answer>) -> (p: Probe)
        requires
            prog.entry matches Some(e) ==> entry::callable(*prog, *models, e@),
        ensures
            p@ == (if old(self).done || prog.entry is None {
                ProbeV::Exhausted
            } else {
                match prog.body_of(prog.entry->0@) {
                    None => ProbeV::Exhausted,
                    Some(body) => found(
                        outcome(defaults(*prog, *models, answers@), body, STEP_BUDGET as nat),
                    ),
                }
            }),
            final(self).done == !(p is Ask),
    {
        if self.done {
            return Probe::Exhausted;
        }
        self.done = true;
        let entry = match &prog.entry {
            Some(e) => e,
            None => {
                return Probe::Exhausted;
            },
        };
        let body = match prog.body(entry) {
            Some(b) => b,
            None => {
                return Probe::Exhausted;
            },
        };
        let p = search(prog, models, body, answers);
        if let Probe::Ask(_) = &p {
            self.done = false;
        }
        p
    }
}

} // verus!
