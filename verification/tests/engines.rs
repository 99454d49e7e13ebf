//! The engines that prove, and what they are built from.

use roast::ai::{AiEngine, Start};
use roast::assoc::Assoc;
use roast::engine::{
    bounded_obligations, conclude, Direction, EngineId, ObligationRef, Presolve, Progress, ProofKind,
    Status,
};
use roast::interval::{Edge, IState, Interval, IntervalCpa, ProgramPoint};
use roast::ir::{
    BinOp, Block, BlockId, Body, MethodKey, Obligation, ObligationId, ObligationKind, Operand, Rvalue,
    Stmt, Terminator, Ty, VarId, VarInfo, VarKind,
};
use roast::kinduction::{Induction, InductionStart, KInduction, StepCase, StepOutcome};
use roast::predicate::{
    CompOp, MergeResult, PredPrec, PredState, Predicate, PredicateCpa, PredicateOperand,
};
use roast::program::Program;
use roast::smt_bmc::explore::SatResult;
use roast::smt_encode::encode_body;
use roast::term::{Node, Op2, Terms};

fn key() -> MethodKey {
    MethodKey {
        class: "T".into(),
        name: "t".into(),
        desc: "()V".into(),
    }
}

fn v(i: u32) -> Operand {
    Operand::Var(VarId(i))
}

fn num(n: i32) -> Operand {
    Operand::int_const(n)
}

fn set(i: u32, rv: Rvalue) -> Stmt {
    Stmt::Assign(VarId(i), rv)
}

fn block(id: u32, stmts: Vec<Stmt>, term: Terminator) -> Block {
    Block {
        id: BlockId(id),
        bytecode_offset: 0,
        stmts,
        term,
        exceptional: vec![],
    }
}

fn body(blocks: Vec<Block>, n: usize, conds: Vec<Operand>) -> Body {
    Body {
        key: key(),
        entry: BlockId(0),
        blocks,
        vars: (0..n)
            .map(|i| VarInfo {
                kind: VarKind::Local(i as u16),
                ty: Ty::Int,
            })
            .collect(),
        obligations: conds
            .into_iter()
            .enumerate()
            .map(|(i, cond)| Obligation {
                id: ObligationId(i as u32),
                kind: ObligationKind::Assertion,
                cond,
                bytecode_offset: 0,
                line: None,
                guarded: false,
            })
            .collect(),
    }
}

fn program(b: Body) -> Program {
    let mut p = Program::new();
    p.entry = Some(key());
    p.put_body(b);
    p
}

fn o(i: u32) -> ObligationRef {
    ObligationRef {
        method: key(),
        id: ObligationId(i),
    }
}

fn at(block: u32, index: usize) -> ProgramPoint {
    ProgramPoint {
        method: key(),
        block: BlockId(block),
        index,
    }
}

/// v0 = 3; v1 = v0 < 5; if v1 {} else {}
fn branching() -> Body {
    body(
        vec![
            block(
                0,
                vec![
                    set(0, Rvalue::Nondet(Ty::Int, None)),
                    set(1, Rvalue::Bin(BinOp::Lt, v(0), num(5))),
                    Stmt::Check(ObligationId(0)),
                ],
                Terminator::Branch {
                    cond: v(1),
                    then_: BlockId(1),
                    else_: BlockId(2),
                },
            ),
            block(1, vec![], Terminator::Return(None)),
            block(2, vec![], Terminator::Return(None)),
        ],
        2,
        vec![v(0)],
    )
}

#[test]
fn constant_conditions_are_discharged_at_once() {
    let p = program(body(
        vec![block(0, vec![], Terminator::Return(None))],
        1,
        vec![num(1), num(0), v(0)],
    ));
    let mut e = Presolve::new();
    assert_eq!(e.id(), EngineId("presolve"));
    assert_eq!(e.direction(), Direction::Over);
    let done = e.step(&p, &vec![o(0), o(1), o(2)]).unwrap();
    assert_eq!(done.iter().map(|x| x.id.0).collect::<Vec<u32>>(), vec![0]);
    assert!(e.step(&p, &vec![o(0)]).is_none());
    assert_eq!(conclude(0), Progress::Stalled);
    assert_eq!(conclude(1), Progress::Advanced);
}

#[test]
fn only_bounded_results_are_listed() {
    let open = vec![
        (o(0), Status::Open),
        (o(1), Status::Bounded { k: 4 }),
        (o(2), Status::Discharged(ProofKind::Trivial)),
    ];
    let b = bounded_obligations(&open);
    assert_eq!(b.len(), 1);
    assert_eq!((b[0].0.id.0, b[0].1), (1, 4));
}

#[test]
fn intervals_follow_statements_and_branches() {
    let p = program(branching());
    let cpa = IntervalCpa;
    let s = cpa.initial(&p, &at(0, 0));
    assert_eq!(s.get(VarId(0)), Interval::top());
    let s = cpa.transfer(&s, &p, &Edge::Stmt(BlockId(0), 0), &at(0, 1), &());
    assert_eq!(s.len(), 1);
    let s = cpa.transfer(&s[0], &p, &Edge::Stmt(BlockId(0), 1), &at(0, 2), &());
    let yes = cpa.transfer(
        &s[0],
        &p,
        &Edge::Term(BlockId(0), Some(true), BlockId(1)),
        &at(1, 0),
        &(),
    );
    assert_eq!(yes[0].get(VarId(0)).hi, 4);
    let no = cpa.transfer(
        &s[0],
        &p,
        &Edge::Term(BlockId(0), Some(false), BlockId(2)),
        &at(2, 0),
        &(),
    );
    assert_eq!(no[0].get(VarId(0)).lo, 5);
    // The join covers both.
    let j = yes[0].join(&no[0]);
    assert!(yes[0].leq(&j) && no[0].leq(&j));
    assert_eq!(j.get(VarId(0)), Interval::top());
    // A side that no value takes is not followed.
    let mut known = cpa.initial(&p, &at(0, 2));
    known.vars.insert(VarId(0), Interval::point(9));
    let none = cpa.transfer(
        &known,
        &p,
        &Edge::Term(BlockId(0), Some(true), BlockId(1)),
        &at(1, 0),
        &(),
    );
    assert!(none.is_empty());
}

#[test]
fn obligations_that_hold_in_every_reached_state_are_discharged() {
    let p = program(branching());
    let mut e = AiEngine::new();
    assert_eq!(e.id(), EngineId("interval-ai"));
    assert_eq!(e.direction(), Direction::Over);
    match e.begin(&p, 10) {
        Start::Explore(from, n) => {
            assert_eq!((from.block, from.index, n), (BlockId(0), 0, 64));
        }
        s => panic!("{s:?}"),
    }
    assert!(matches!(e.begin(&p, 10), Start::End(Progress::Exhausted)));
    let cpa = IntervalCpa;
    let unknown = cpa.initial(&p, &at(0, 2));
    let b = &p.bodies[0];
    assert!(e.finish(b, &vec![unknown], true).unwrap().is_empty());
    let mut known = cpa.initial(&p, &at(0, 2));
    known.vars.insert(VarId(0), Interval { lo: 1, hi: 9 });
    assert_eq!(e.finish(b, &vec![known], true).unwrap().len(), 1);
    assert!(e.finish(b, &vec![], false).is_none());
    // A body that is not lifted completely is left alone.
    let mut p = program(branching());
    p.bodies[0].blocks[1].term = Terminator::Diverge("?".into());
    assert!(matches!(
        AiEngine::new().begin(&p, 10),
        Start::End(Progress::Stalled)
    ));
}

/// All states that are reached from the entry, those that others cover left out.
fn fixpoint(p: &Program) -> Vec<IState> {
    let cpa = IntervalCpa;
    let b = &p.bodies[0];
    let mut reached: Vec<IState> = vec![];
    let mut todo = vec![cpa.initial(p, &at(b.entry.0, 0))];
    while let Some(s) = todo.pop() {
        let (n, i) = (s.location().block, s.location().index);
        let covered = reached.iter().any(|r| {
            (r.location().block, r.location().index) == (n, i) && s.leq(r)
        });
        if covered {
            continue;
        }
        let block = &b.blocks[n.0 as usize];
        let steps: Vec<(Edge, ProgramPoint)> = if i < block.stmts.len() {
            vec![(Edge::Stmt(n, i), at(n.0, i + 1))]
        } else {
            match &block.term {
                Terminator::Goto(t) => vec![(Edge::Term(n, None, *t), at(t.0, 0))],
                Terminator::Branch { then_, else_, .. } => vec![
                    (Edge::Term(n, Some(true), *then_), at(then_.0, 0)),
                    (Edge::Term(n, Some(false), *else_), at(else_.0, 0)),
                ],
                _ => vec![],
            }
        };
        for (e, to) in steps {
            todo.extend(cpa.transfer(&s, p, &e, &to, &()));
        }
        reached.push(s);
    }
    reached
}

/// assume(v0 > 5); assert(v0 > limit), with each comparison stored as zero or one.
fn assumed_then_asserted(limit: i32) -> Program {
    let choice = |id: u32, stmts: Vec<Stmt>, cond: u32, yes: u32, no: u32| {
        block(
            id,
            stmts,
            Terminator::Branch {
                cond: v(cond),
                then_: BlockId(yes),
                else_: BlockId(no),
            },
        )
    };
    let go = |id: u32, i: u32, n: i32, t: u32| {
        block(id, vec![set(i, Rvalue::Use(num(n)))], Terminator::Goto(BlockId(t)))
    };
    program(body(
        vec![
            choice(
                0,
                vec![
                    set(0, Rvalue::Nondet(Ty::Int, None)),
                    set(1, Rvalue::Bin(BinOp::Le, v(0), num(5))),
                ],
                1,
                1,
                2,
            ),
            go(1, 2, 0, 3),
            go(2, 2, 1, 3),
            choice(
                3,
                vec![
                    Stmt::Assume(v(2)),
                    set(3, Rvalue::Bin(BinOp::Le, v(0), num(limit))),
                ],
                3,
                4,
                5,
            ),
            go(4, 4, 0, 6),
            go(5, 4, 1, 6),
            block(6, vec![Stmt::Check(ObligationId(0))], Terminator::Return(None)),
        ],
        5,
        vec![v(4)],
    ))
}

#[test]
fn what_is_assumed_proves_what_follows_from_it() {
    let p = assumed_then_asserted(3);
    let reached = fixpoint(&p);
    let at_check: Vec<&IState> = reached
        .iter()
        .filter(|s| s.location().block == BlockId(6) && s.location().index == 0)
        .collect();
    assert_eq!(at_check.len(), 1);
    assert_eq!(at_check[0].get(VarId(0)).lo, 6);
    let proved = AiEngine::new().finish(&p.bodies[0], &reached, true).unwrap();
    assert_eq!(proved.len(), 1);
    assert_eq!(proved[0].id, ObligationId(0));
    // What does not follow is not proved.
    let p = assumed_then_asserted(7);
    let reached = fixpoint(&p);
    assert!(AiEngine::new()
        .finish(&p.bodies[0], &reached, true)
        .unwrap()
        .is_empty());
}

#[test]
fn bounded_obligations_are_tried_by_induction() {
    let p = program(branching());
    let mut e = KInduction::new();
    assert_eq!(e.id(), EngineId("k-induction"));
    assert_eq!(e.direction(), Direction::Over);
    let open = vec![(o(0), Status::Bounded { k: 3 })];
    match e.begin(&p, &open) {
        InductionStart::Try(list) => {
            assert_eq!(list.len(), 1);
            assert_eq!(list[0].k, 3);
            assert!(list[0].loop_free);
        }
        InductionStart::End(_) => panic!("there is one to try"),
    }
    assert!(matches!(
        e.begin(&p, &open),
        InductionStart::End(Progress::Exhausted)
    ));
    let mut e = KInduction::new();
    assert!(matches!(
        e.begin(&p, &vec![(o(0), Status::Open)]),
        InductionStart::End(Progress::Stalled)
    ));
    // Without loops the base case is enough; with them the step case decides.
    let discharged = |i: &Induction, outcome: StepOutcome| {
        matches!(
            e.finish(i, outcome),
            Some(Status::Discharged(ProofKind::KInduction { k: 3 }))
        )
    };
    let mut i = Induction {
        obligation: o(0),
        k: 3,
        loop_free: true,
    };
    assert!(discharged(&i, StepOutcome::NotSolved));
    i.loop_free = false;
    assert!(!discharged(&i, StepOutcome::NotSolved));
    assert!(discharged(&i, StepOutcome::Holds));
    assert!(discharged(&i, StepOutcome::Solved(SatResult::Unsat)));
    assert!(!discharged(&i, StepOutcome::Solved(SatResult::Sat)));
    assert!(e.finish(&i, StepOutcome::Solved(SatResult::Unknown)).is_none());
    // The step case is about the violation of the obligation.
    assert!(matches!(e.step_case(&p.bodies[0], ObligationId(0), 0), StepCase::Ask(_, _)));
    assert!(matches!(e.step_case(&p.bodies[0], ObligationId(5), 0), StepCase::Holds));
    // No run is so long without a loop.
    assert!(matches!(e.step_case(&p.bodies[0], ObligationId(0), 3), StepCase::Holds));
}

#[test]
fn a_body_is_one_formula() {
    let b = branching();
    let mut ts = Terms::new();
    let e = encode_body(&mut ts, &b, "f");
    assert_eq!(e.violation_terms.len(), 1);
    assert!(e.violation_terms[0].is_some());
    assert_eq!(e.block_vars.len(), 3);
    assert!(e.block_vars.iter().all(|x| x.is_some()));
    // Every symbol carries the name of the frame.
    for i in 0..ts.len() {
        if let Node::FreshBv(name, _) = ts.node(i) {
            assert!(name.contains("f"), "{name}");
        }
    }
    // Encoded once more, its symbols are new.
    let n = ts.len();
    let again = encode_body(&mut ts, &b, "g");
    assert!(again.violation_terms[0].unwrap().0 >= n);
    assert!((n..ts.len()).any(|i| matches!(ts.node(i), Node::FreshBv(_, _))));
    // What is checked is compared with zero.
    let t = e.violation_terms[0].unwrap();
    assert!(matches!(ts.node(t.0), Node::App2(Op2::And, _, _)));
}

fn pred(i: u32, op: CompOp, c: i64) -> Predicate {
    Predicate {
        lhs: PredicateOperand::Var(VarId(i)),
        op,
        rhs: PredicateOperand::Const(c),
    }
}

#[test]
fn predicates_are_decided_by_ranges() {
    let mut vals: Assoc<VarId, (i64, i64)> = Assoc::new();
    vals.insert(VarId(0), (3, 5));
    assert_eq!(pred(0, CompOp::Lt, 6).evaluate(&vals), Some(true));
    assert_eq!(pred(0, CompOp::Lt, 3).evaluate(&vals), Some(false));
    assert_eq!(pred(0, CompOp::Lt, 4).evaluate(&vals), None);
    assert_eq!(pred(0, CompOp::Ge, 3).evaluate(&vals), Some(true));
    assert_eq!(pred(0, CompOp::Eq, 9).evaluate(&vals), Some(false));
    assert_eq!(pred(0, CompOp::Ne, 9).evaluate(&vals), Some(true));
    assert_eq!(pred(1, CompOp::Ne, 9).evaluate(&vals), None);
    assert_eq!(pred(0, CompOp::Le, -4).to_smt2(), "(<= v0 (- 4))");
    assert!(pred(2, CompOp::Gt, 0).mentions(VarId(2)));
    assert!(!pred(2, CompOp::Gt, 0).mentions(VarId(1)));
    assert_eq!(CompOp::from_binop(BinOp::Le), Some(CompOp::Le));
    assert_eq!(CompOp::from_binop(BinOp::Add), None);
}

#[test]
fn predicate_states_follow_statements_and_branches() {
    let p = program(branching());
    let prec = PredPrec {
        predicates: vec![pred(0, CompOp::Lt, 5), pred(0, CompOp::Eq, 7)],
    };
    let cpa = PredicateCpa;
    let s = cpa.initial(&p, &at(0, 0));
    assert!(s.values.is_empty() && !s.is_bottom() && s.is_consistent());
    let yes = cpa.transfer(
        &s,
        &p,
        &Edge::Term(BlockId(0), Some(true), BlockId(1)),
        &at(1, 0),
        &prec,
    );
    assert_eq!(yes[0].values[0], Some(true));
    let no = cpa.transfer(
        &s,
        &p,
        &Edge::Term(BlockId(0), Some(false), BlockId(2)),
        &at(1, 0),
        &prec,
    );
    assert_eq!(no[0].values[0], Some(false));
    // The join keeps what both know.
    let j = yes[0].join(&no[0]);
    assert_eq!(j.values[0], None);
    assert!(yes[0].leq(&j));
    assert!(matches!(
        cpa.merge(&yes[0], &no[0], &prec),
        MergeResult::Joined(s) if s.values == j.values
    ));
    assert!(matches!(cpa.merge(&yes[0], &j, &prec), MergeResult::Sep));
    // An assignment of a constant decides what is said of it.
    let mut b = branching();
    b.blocks[0].stmts[0] = set(0, Rvalue::Use(num(7)));
    let p = program(b);
    let s = cpa.transfer(&s, &p, &Edge::Stmt(BlockId(0), 0), &at(0, 1), &prec);
    assert_eq!(s[0].values, vec![Some(false), Some(true)]);
    assert_eq!(PredState::top(at(0, 0), 2).values, vec![None, None]);
    assert_eq!(s[0].location().index, 1);
}
