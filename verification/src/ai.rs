//! The engine that proves obligations from intervals.
//!
//! It asks for the states that the entry method can be in, computed with
//! [`IntervalCpa`](crate::interval::IntervalCpa), and discharges each obligation
//! whose condition is nonzero in every state at its check.

use vstd::prelude::*;

use crate::engine;
use crate::engine::{
    lemma_filter_step, Direction, EngineId, ObligationRef, ObligationRefV, Progress,
    ProofKind,
};
use crate::interval;
use crate::interval::{Edge, Env, IState, Known, ProgramPoint};
use crate::ir::{
    BlockId, Body, MethodKey, MethodKeyV, Obligation, ObligationId, Operand, Stmt, Terminator, VarId,
};
use crate::program::Program;

verus! {

/// Proves obligations of the entry method from intervals.
#[derive(Debug)]
pub struct AiEngine {
    pub done: bool,
}

/// What a step begins with.
#[derive(Debug)]
pub enum Start {
    /// There is nothing to do.
    End(Progress),
    /// Compute the states that are reached from here, up to the given number.
    Explore(ProgramPoint, usize),
}

impl Default for AiEngine {
    fn default() -> (r: Self)
        ensures
            !r.done,
    {
        AiEngine { done: false }
    }
}

/// Is the state at a check of the obligation in the method?
pub open spec fn sees(body: Body, entry: MethodKeyV, s: IState, id: ObligationId) -> bool {
    let stmts = body.blocks@[s.at.block.0 as int].stmts@;
    &&& s.at.method@ == entry
    &&& s.at.index < stmts.len()
    &&& stmts[s.at.index as int] == Stmt::Check(id)
}

/// Can the condition of the obligation not be zero in the state?
pub open spec fn shows(body: Body, s: IState, id: ObligationId) -> bool {
    let i = interval::operand_value(s.known(), body.obligations@[id.0 as int].cond);
    !i.empty() && !i.has(0)
}

/// Does every reached state at a check of the obligation show that it holds? One
/// whose check is never reached does.
pub open spec fn safe(body: Body, entry: MethodKeyV, reached: Seq<IState>, id: ObligationId) -> bool {
    forall|i: int|
        0 <= i < reached.len() && #[trigger] sees(body, entry, reached[i], id) ==> shows(
            body,
            reached[i],
            id,
        )
}

/// The references of all obligations of a body.
pub open spec fn all_refs(body: Body, method: MethodKeyV) -> Seq<ObligationRefV> {
    body.obligations@.map_values(|o: Obligation| ObligationRefV { method, id: o.id })
}

/// The states are at blocks that the body has.
pub open spec fn located(body: Body, entry: MethodKeyV, reached: Seq<IState>) -> bool {
    forall|i: int|
        0 <= i < reached.len() && (#[trigger] reached[i]).at.method@ == entry
            ==> reached[i].at.block.0 < body.blocks@.len()
}

fn is_safe(body: &Body, entry: &MethodKey, reached: &Vec<IState>, id: ObligationId) -> (r: bool)
    requires
        body.well_formed(),
        id.0 < body.obligations@.len(),
        located(*body, entry@, reached@),
    ensures
        r == safe(*body, entry@, reached@, id),
{
    let mut i: usize = 0;
    while i < reached.len()
        invariant
            i <= reached@.len(),
            id.0 < body.obligations@.len(),
            located(*body, entry@, reached@),
            forall|j: int|
                0 <= j < i && #[trigger] sees(*body, entry@, reached@[j], id) ==> shows(
                    *body,
                    reached@[j],
                    id,
                ),
        decreases reached@.len() - i,
    {
        let s = &reached[i];
        if s.at.method.same_as(entry) {
            let b = body.block(s.at.block);
            if s.at.index < b.stmts.len() {
                if let Stmt::Check(oid) = &b.stmts[s.at.index] {
                    if *oid == id && !s.eval_operand(&body.obligation(id).cond).definitely_nonzero() {
                        proof {
                            assert(sees(*body, entry@, reached@[i as int], id));
                        }
                        return false;
                    }
                }
            }
        }
        i += 1;
    }
    true
}

impl AiEngine {
    pub fn new() -> (r: Self)
        ensures
            !r.done,
    {
        AiEngine { done: false }
    }

    pub fn id(&self) -> (r: EngineId)
        ensures
            (r.0)@ == "interval-ai"@,
    {
        EngineId("interval-ai")
    }

    pub fn direction(&self) -> (d: Direction)
        ensures
            d == Direction::Over,
    {
        Direction::Over
    }

    /// How this engine discharges an obligation.
    pub fn proof_kind(&self) -> (r: ProofKind)
        ensures
            r == ProofKind::Invariant,
    {
        ProofKind::Invariant
    }

    /// Begin a step, with the given amount of work allowed. A method that is not
    /// lifted to its end may hide obligations, so nothing can be proved of it.
    pub fn begin(&mut self, prog: &Program, work: u64) -> (r: Start)
        ensures
            final(self).done,
            r is Explore <==> !old(self).done && prog.entry is Some && (prog.body_of(
                (prog.entry->0)@,
            ) matches Some(b) && b.fully_lifted()),
            match r {
                Start::End(p) => {
                    &&& p != Progress::Advanced
                    &&& p == Progress::Exhausted <==> old(self).done || prog.entry is None
                        || prog.body_of((prog.entry->0)@) is None
                    &&& p == Progress::Stalled <==> !old(self).done && prog.entry is Some && (
                    prog.body_of((prog.entry->0)@) matches Some(b) && !b.fully_lifted())
                },
                Start::Explore(at, n) => {
                    &&& !old(self).done && prog.entry is Some
                    &&& prog.body_of((prog.entry->0)@) matches Some(b)
                    &&& b.fully_lifted()
                    &&& at.method@ == (prog.entry->0)@ && at.block == b.entry && at.index == 0
                    &&& n == if work < 64 {
                        64int
                    } else if work > usize::MAX {
                        usize::MAX as int
                    } else {
                        work as int
                    }
                },
            },
    {
        if self.done {
            return Start::End(Progress::Exhausted);
        }
        self.done = true;
        let entry = match &prog.entry {
            Some(e) => e,
            None => {
                return Start::End(Progress::Exhausted);
            },
        };
        let body = match prog.body(entry) {
            Some(b) => b,
            None => {
                return Start::End(Progress::Exhausted);
            },
        };
        if !body.is_fully_lifted() {
            return Start::End(Progress::Stalled);
        }
        let at = ProgramPoint { method: entry.clone(), block: body.entry, index: 0 };
        let states: usize = if work < 64 {
            64
        } else if work > usize::MAX as u64 {
            usize::MAX
        } else {
            work as usize
        };
        Start::Explore(at, states)
    }

    /// Finish a step with the states that were reached. The obligations to be
    /// discharged, in order; `None` if the search was cut short, because silence at
    /// an unexplored check proves nothing.
    pub fn finish(&self, body: &Body, reached: &Vec<IState>, complete: bool) -> (r: Option<
        Vec<ObligationRef>,
    >)
        requires
            body.well_formed(),
            located(*body, body.key@, reached@),
        ensures
            r is Some <==> complete,
            r matches Some(v) ==> engine::ref_views(v@) == all_refs(*body, body.key@).filter(
                |o: ObligationRefV| safe(*body, body.key@, reached@, o.id),
            ),
    {
        if !complete {
            return None;
        }
        let entry = &body.key;
        let ghost f = |o: ObligationRefV| safe(*body, body.key@, reached@, o.id);
        let ghost all = all_refs(*body, body.key@);
        let mut out: Vec<ObligationRef> = Vec::new();
        proof {
            reveal(Seq::filter);
            assert(all.take(0).filter(f) =~= engine::ref_views(out@));
        }
        let mut i: usize = 0;
        while i < body.obligations.len()
            invariant
                i <= body.obligations@.len(),
                body.well_formed(),
                *entry == body.key,
                located(*body, body.key@, reached@),
                all == all_refs(*body, body.key@),
                f == (|o: ObligationRefV| safe(*body, body.key@, reached@, o.id)),
                engine::ref_views(out@) == all.take(i as int).filter(f),
            decreases body.obligations@.len() - i,
        {
            let id = body.obligations[i].id;
            proof {
                lemma_filter_step(all, f, i as int);
                assert(body.obligations@[i as int].id.0 == i);
                assert(all[i as int] == (ObligationRefV { method: body.key@, id }));
            }
            if is_safe(body, entry, reached, id) {
                let ghost before = out@;
                out.push(ObligationRef { method: entry.clone(), id });
                proof {
                    assert(engine::ref_views(out@) =~= engine::ref_views(before).push(all[i as int]));
                }
            }
            i += 1;
        }
        proof {
            assert(all.take(i as int) =~= all);
        }
        Some(out)
    }
}

/// An obligation that is discharged holds at its check for all values that some
/// reached state covers.
pub proof fn law_discharged_obligation_holds(
    body: Body,
    entry: MethodKeyV,
    reached: Seq<IState>,
    id: ObligationId,
    i: int,
    env: Env,
)
    requires
        safe(body, entry, reached, id),
        0 <= i < reached.len(),
        sees(body, entry, reached[i], id),
        interval::covers(reached[i].known(), env),
    ensures
        interval::value_of(env, body.obligations@[id.0 as int].cond) matches Some(x) ==> x != 0,
{
    interval::lemma_operand_covered(
        reached[i].known(),
        env,
        body.obligations@[id.0 as int].cond,
    );
}

/// A run of a body at some place, with the values of the variables.
pub struct Moment {
    pub block: BlockId,
    pub index: nat,
    pub env: Env,
}

/// The edge leads over the terminator to the block; for a branch, with the side that
/// is taken.
pub open spec fn leads(term: Terminator, taken: Option<bool>, to: BlockId) -> bool {
    match term {
        Terminator::Goto(t) => taken is None && to == t,
        Terminator::Branch { then_, else_, .. } => taken matches Some(side) && to == if side {
            then_
        } else {
            else_
        },
        Terminator::Switch { cases, default, .. } => taken is None && (to == default || exists|i: int|
            0 <= i < cases@.len() && (#[trigger] cases@[i]).1 == to),
        _ => false,
    }
}

/// The run leaves its block to another one, with the side of a branch that is taken.
/// A side is taken according to the comparison that the block decides it by.
/// Handlers of exceptions are not entered.
pub open spec fn leaves(body: Body, a: Moment, taken: Option<bool>, to: BlockId) -> bool {
    let block = a.block.0 as int;
    &&& leads(body.blocks@[block].term, taken, to)
    &&& !interval::may_fail_to(body, block, to)
    &&& body.blocks@[block].term matches Terminator::Branch { cond: Operand::Var(v), .. }
        ==> interval::decides(body, block, v, a.env, taken == Some(true))
}

/// A step of a run inside a body.
pub open spec fn moves(body: Body, a: Moment, b: Moment) -> bool {
    let stmts = body.blocks@[a.block.0 as int].stmts@;
    &&& a.block.0 < body.blocks@.len()
    &&& if a.index < stmts.len() {
        &&& b.block == a.block && b.index == a.index + 1
        &&& match stmts[a.index as int] {
            Stmt::Assign(v, rv) => exists|n: int| #[trigger]
                interval::evaluates(a.env, rv, n) && b.env == (|w: VarId|
                    if w == v {
                        n
                    } else {
                        (a.env)(w)
                    }),
            Stmt::Assume(o) => {
                &&& interval::value_of(a.env, o) matches Some(x) ==> x != 0
                &&& b.env == a.env
            },
            _ => b.env == a.env,
        }
    } else {
        &&& a.index == stmts.len() && b.index == 0 && b.env == a.env
        &&& exists|taken: Option<bool>| #[trigger] leaves(body, a, taken, b.block)
    }
}

/// Some reached state is at the place and knows no more than `m`.
pub open spec fn reached_at(
    reached: Seq<IState>,
    entry: MethodKeyV,
    block: BlockId,
    index: nat,
    m: Known,
) -> bool {
    exists|j: int|
        {
            &&& 0 <= j < reached.len()
            &&& (#[trigger] reached[j]).at.method@ == entry
            &&& reached[j].at.block == block
            &&& reached[j].at.index == index
            &&& interval::known_leq(m, reached[j].known())
        }
}

/// The edge starts at the state and leads to the place.
pub open spec fn edge_from(body: Body, entry: MethodKeyV, s: IState, e: Edge, to: BlockId, index: nat) -> bool {
    let stmts = body.blocks@[s.at.block.0 as int].stmts@;
    &&& s.at.method@ == entry
    &&& s.at.block.0 < body.blocks@.len()
    &&& match e {
        Edge::Stmt(b, i) => {
            &&& b == s.at.block && i == s.at.index && i < stmts.len()
            &&& to == b && index == i + 1
        },
        Edge::Term(b, taken, t) => {
            &&& b == s.at.block && s.at.index == stmts.len()
            &&& t == to && index == 0
            &&& leads(body.blocks@[b.0 as int].term, taken, to)
        },
        Edge::Exit(_) => false,
    }
}

/// The reached states are all that there are: the one at the entry, of which nothing
/// is known, and with each state those that its edges lead to.
pub open spec fn complete_from(body: Body, entry: MethodKeyV, reached: Seq<IState>) -> bool {
    &&& reached_at(reached, entry, body.entry, 0, Map::empty())
    &&& forall|i: int, e: Edge, to: BlockId, index: nat|
        0 <= i < reached.len() && #[trigger] edge_from(body, entry, reached[i], e, to, index) ==> (
        interval::after_edge(reached[i].known(), body, e, to) matches Some(n) ==> reached_at(
            reached,
            entry,
            to,
            index,
            n,
        ))
}

/// The run starts at the entry of the body, with values of type `int`, and each
/// moment follows from the one before.
pub open spec fn runs(body: Body, run: Seq<Moment>) -> bool {
    &&& run.len() > 0 ==> {
        &&& run[0].block == body.entry
        &&& run[0].index == 0
        &&& interval::covers(Map::empty(), run[0].env)
    }
    &&& forall|k: int| 0 <= k < run.len() - 1 ==> moves(body, #[trigger] run[k], run[k + 1])
}

/// Some reached state is at the place of the run and covers its values.
pub open spec fn followed(reached: Seq<IState>, entry: MethodKeyV, a: Moment) -> bool {
    exists|i: int|
        {
            &&& 0 <= i < reached.len()
            &&& (#[trigger] reached[i]).at.method@ == entry
            &&& reached[i].at.block == a.block
            &&& reached[i].at.index == a.index
            &&& interval::covers(reached[i].known(), a.env)
        }
}

proof fn lemma_covered_at(reached: Seq<IState>, entry: MethodKeyV, a: Moment, m: Known)
    requires
        reached_at(reached, entry, a.block, a.index, m),
        interval::covers(m, a.env),
    ensures
        followed(reached, entry, a),
{
    let j = choose|j: int|
        {
            &&& 0 <= j < reached.len()
            &&& (#[trigger] reached[j]).at.method@ == entry
            &&& reached[j].at.block == a.block
            &&& reached[j].at.index == a.index
            &&& interval::known_leq(m, reached[j].known())
        };
    interval::law_order_of_states_is_sound(m, reached[j].known(), a.env);
    assert(reached[j].at.method@ == entry);
}

/// A complete set of reached states covers every moment of every run.
pub proof fn law_fixpoint_covers_every_run(
    body: Body,
    entry: MethodKeyV,
    reached: Seq<IState>,
    run: Seq<Moment>,
    k: int,
)
    requires
        complete_from(body, entry, reached),
        runs(body, run),
        0 <= k < run.len(),
    ensures
        followed(reached, entry, run[k]),
    decreases k,
{
    if k == 0 {
        lemma_covered_at(reached, entry, run[0], Map::empty());
    } else {
        law_fixpoint_covers_every_run(body, entry, reached, run, k - 1);
        let a = run[k - 1];
        let b = run[k - 1 + 1];
        assert(moves(body, a, b));
        let i = choose|i: int|
            {
                &&& 0 <= i < reached.len()
                &&& (#[trigger] reached[i]).at.method@ == entry
                &&& reached[i].at.block == a.block
                &&& reached[i].at.index == a.index
                &&& interval::covers(reached[i].known(), a.env)
            };
        let s = reached[i];
        let m = s.known();
        let stmts = body.blocks@[a.block.0 as int].stmts@;
        if a.index < stmts.len() {
            let e = Edge::Stmt(a.block, s.at.index);
            assert(edge_from(body, entry, s, e, b.block, b.index));
            match stmts[a.index as int] {
                Stmt::Assign(v, rv) => {
                    let n = choose|n: int| #[trigger]
                        interval::evaluates(a.env, rv, n) && b.env == (|w: VarId|
                            if w == v {
                                n
                            } else {
                                (a.env)(w)
                            });
                    interval::law_assignment_is_covered(m, a.env, v, rv, n);
                },
                Stmt::Assume(o) => {
                    interval::law_assumption_is_passed(m, a.env, o);
                },
                _ => {},
            }
            lemma_covered_at(reached, entry, b, interval::after_edge(m, body, e, b.block)->0);
        } else {
            let taken = choose|taken: Option<bool>| #[trigger] leaves(body, a, taken, b.block);
            assert(leaves(body, a, taken, b.block));
            let e = Edge::Term(a.block, taken, b.block);
            assert(edge_from(body, entry, s, e, b.block, b.index));
            interval::lemma_leaving_is_covered(m, body, a.block.0 as int, taken, b.block, a.env);
            lemma_covered_at(reached, entry, b, interval::after_edge(m, body, e, b.block)->0);
        }
    }
}

/// An obligation that is discharged from a complete set of reached states holds
/// wherever a run checks it.
pub proof fn law_discharged_obligation_holds_on_every_run(
    body: Body,
    entry: MethodKeyV,
    reached: Seq<IState>,
    id: ObligationId,
    run: Seq<Moment>,
    k: int,
)
    requires
        complete_from(body, entry, reached),
        safe(body, entry, reached, id),
        runs(body, run),
        0 <= k < run.len(),
        run[k].index < body.blocks@[run[k].block.0 as int].stmts@.len(),
        body.blocks@[run[k].block.0 as int].stmts@[run[k].index as int] == Stmt::Check(id),
    ensures
        interval::value_of(run[k].env, body.obligations@[id.0 as int].cond) matches Some(x) ==> x != 0,
{
    law_fixpoint_covers_every_run(body, entry, reached, run, k);
    let i = choose|i: int|
        {
            &&& 0 <= i < reached.len()
            &&& (#[trigger] reached[i]).at.method@ == entry
            &&& reached[i].at.block == run[k].block
            &&& reached[i].at.index == run[k].index
            &&& interval::covers(reached[i].known(), run[k].env)
        };
    assert(sees(body, entry, reached[i], id));
    law_discharged_obligation_holds(body, entry, reached, id, i, run[k].env);
}

} // verus!
