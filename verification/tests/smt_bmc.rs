//! Bounded model checking, with a solver that tries small values.

use roast::engine::{Direction, EngineId, ObligationRef, ProofKind, Status};
use roast::ir::{
    BinOp, Block, BlockId, Body, Const, FieldKey, MethodKey, Obligation, ObligationId, ObligationKind,
    Operand, Rvalue, Stmt, Terminator, Ty, VarId, VarInfo, VarKind,
};
use roast::kinduction::{KInduction, StepCase};
use roast::models::Models;
use roast::program::Program;
use roast::smt_bmc::explore::{SatResult, Solver};
use roast::smt_bmc::math_encode::math_call_modelled;
use roast::smt_bmc::report::{Report, Settled, SmtBmc};
use roast::smt_encode::encode_body;
use roast::term::{Node, Op1, Op2, Op3, Term, Terms};

/// A value of a term: a number, a truth value or something not looked at.
#[derive(Clone, Copy, PartialEq)]
enum Val {
    Num(i64, u32),
    Truth(bool),
    Other,
}

/// Tries every assignment of a few values to the symbols.
struct Brute {
    values: Vec<i64>,
    model: Vec<Val>,
    calls: usize,
    most_assumed: usize,
}

fn brute() -> Brute {
    Brute {
        values: vec![0, 1, 2, 7],
        model: vec![],
        calls: 0,
        most_assumed: 0,
    }
}

fn cut(n: i64, w: u32) -> i64 {
    if w == 32 {
        n as i32 as i64
    } else {
        n
    }
}

fn symbols(ts: &Terms) -> usize {
    (0..ts.len())
        .filter(|i| matches!(ts.node(*i), Node::FreshBv(_, _)))
        .count()
}

/// The terms that one of the given ones is made of.
fn parts_of(ts: &Terms, roots: &[Term]) -> Vec<bool> {
    let mut used = vec![false; ts.len()];
    for t in roots {
        used[t.0] = true;
    }
    for i in (0..ts.len()).rev() {
        if used[i] {
            match ts.node(i) {
                Node::App1(_, a) => used[a.0] = true,
                Node::App2(_, a, b) => {
                    used[a.0] = true;
                    used[b.0] = true;
                }
                Node::App3(_, a, b, c) => {
                    used[a.0] = true;
                    used[b.0] = true;
                    used[c.0] = true;
                }
                _ => {}
            }
        }
    }
    used
}

/// An element of an array. One of which nothing is known is full of zeros.
fn element(ts: &Terms, vals: &[Val], array: Term, at: Val) -> Val {
    match ts.node(array.0) {
        Node::App1(Op1::ConstArray(_), x) => vals[x.0],
        Node::App3(Op3::Store, rest, i, x) => {
            if vals[i.0] == at {
                vals[x.0]
            } else {
                element(ts, vals, *rest, at)
            }
        }
        Node::App3(Op3::Ite, c, x, y) => match vals[c.0] {
            Val::Truth(true) => element(ts, vals, *x, at),
            _ => element(ts, vals, *y, at),
        },
        _ => Val::Num(0, 32),
    }
}

/// The values of all terms, with the symbols at the given ones.
fn eval(ts: &Terms, picks: &[i64]) -> Vec<Val> {
    let mut out: Vec<Val> = vec![];
    let mut next = 0;
    for i in 0..ts.len() {
        let v = match ts.node(i) {
            Node::Bv(n, w) => Val::Num(cut(*n, *w), *w),
            Node::Bool(b) => Val::Truth(*b),
            Node::FreshBv(_, w) => {
                next += 1;
                Val::Num(cut(picks[next - 1], *w), *w)
            }
            Node::App1(Op1::Not, a) => match out[a.0] {
                Val::Truth(b) => Val::Truth(!b),
                _ => Val::Other,
            },
            Node::App1(Op1::SignExtend(32), a) => match out[a.0] {
                Val::Num(n, 32) => Val::Num(n, 64),
                _ => Val::Other,
            },
            Node::App1(Op1::Extract(31, 0), a) => match out[a.0] {
                Val::Num(n, _) => Val::Num(cut(n, 32), 32),
                _ => Val::Other,
            },
            Node::App1(Op1::BvNeg, a) => match out[a.0] {
                Val::Num(n, w) => Val::Num(cut(n.wrapping_neg(), w), w),
                _ => Val::Other,
            },
            Node::App2(Op2::Select, a, b) => element(ts, &out, *a, out[b.0]),
            Node::App2(op, a, b) => match (op, out[a.0], out[b.0]) {
                (Op2::Eq, x, y) if x != Val::Other && y != Val::Other => Val::Truth(x == y),
                (Op2::And, Val::Truth(x), Val::Truth(y)) => Val::Truth(x && y),
                (Op2::Or, Val::Truth(x), Val::Truth(y)) => Val::Truth(x || y),
                (Op2::BvAdd, Val::Num(x, w), Val::Num(y, _)) => Val::Num(cut(x.wrapping_add(y), w), w),
                (Op2::BvSub, Val::Num(x, w), Val::Num(y, _)) => Val::Num(cut(x.wrapping_sub(y), w), w),
                (Op2::BvMul, Val::Num(x, w), Val::Num(y, _)) => Val::Num(cut(x.wrapping_mul(y), w), w),
                (Op2::BvSdiv, Val::Num(x, w), Val::Num(y, _)) if y != 0 => {
                    Val::Num(cut(x.wrapping_div(y), w), w)
                }
                (Op2::BvSlt, Val::Num(x, _), Val::Num(y, _)) => Val::Truth(x < y),
                (Op2::BvSle, Val::Num(x, _), Val::Num(y, _)) => Val::Truth(x <= y),
                (Op2::BvSgt, Val::Num(x, _), Val::Num(y, _)) => Val::Truth(x > y),
                (Op2::BvSge, Val::Num(x, _), Val::Num(y, _)) => Val::Truth(x >= y),
                _ => Val::Other,
            },
            Node::App3(Op3::Ite, c, a, b) => match out[c.0] {
                Val::Truth(true) => out[a.0],
                Val::Truth(false) => out[b.0],
                _ => Val::Other,
            },
            _ => Val::Other,
        };
        out.push(v);
    }
    out
}

impl Solver for Brute {
    fn check(&mut self, terms: &Terms, assumed: &Vec<Term>) -> SatResult {
        self.calls += 1;
        self.most_assumed = self.most_assumed.max(assumed.len());
        let mut roots = terms.assertions().clone();
        roots.extend(assumed.iter().copied());
        let used = parts_of(terms, &roots);
        let free: Vec<bool> = (0..terms.len())
            .filter(|i| matches!(terms.node(*i), Node::FreshBv(_, _)))
            .map(|i| used[i])
            .collect();
        let n = free.iter().filter(|f| **f).count();
        let k = self.values.len();
        for code in 0..k.pow(n as u32) {
            let mut rest = code;
            let mut picks = vec![];
            for f in &free {
                if *f {
                    picks.push(self.values[rest % k]);
                    rest /= k;
                } else {
                    picks.push(0);
                }
            }
            let vals = eval(terms, &picks);
            let holds = |t: &Term| vals[t.0] == Val::Truth(true);
            if terms.assertions().iter().all(holds) && assumed.iter().all(holds) {
                self.model = vals;
                return SatResult::Sat;
            }
        }
        SatResult::Unsat
    }

    fn value_i64(&mut self, t: Term) -> Option<i64> {
        match self.model[t.0] {
            Val::Num(n, _) => Some(n),
            _ => None,
        }
    }

    fn value_string(&mut self, _: Term) -> Option<String> {
        None
    }
}

/// Answers always the same, with the given number in its models.
struct Fixed(SatResult, Option<i64>, Option<String>);

impl Solver for Fixed {
    fn check(&mut self, _: &Terms, _: &Vec<Term>) -> SatResult {
        self.0
    }

    fn value_i64(&mut self, _: Term) -> Option<i64> {
        self.1
    }

    fn value_string(&mut self, _: Term) -> Option<String> {
        self.2.clone()
    }
}

fn models() -> Models {
    Models {
        calls: vec![],
        enum_ordinal_field: "$$ordinal".into(),
        assertion_error: "java/lang/AssertionError".into(),
        exceptions: vec![],
        concrete_math: vec![],
        str_owners: vec!["java/lang/String".into()],
        transcendental: vec![],
    }
}

fn key(name: &str) -> MethodKey {
    MethodKey {
        class: "T".into(),
        name: name.into(),
        desc: "()V".into(),
    }
}

fn v(i: u32) -> Operand {
    Operand::Var(VarId(i))
}

fn num(n: i32) -> Operand {
    Operand::int_const(n)
}

fn set(i: u32, rv: Rvalue) -> Stmt {
    Stmt::Assign(VarId(i), rv)
}

fn any(i: u32) -> Stmt {
    set(i, Rvalue::Nondet(Ty::Int, None))
}

fn check(i: u32) -> Stmt {
    Stmt::Check(ObligationId(i))
}

fn block(id: u32, stmts: Vec<Stmt>, term: Terminator) -> Block {
    Block {
        id: BlockId(id),
        bytecode_offset: 0,
        stmts,
        term,
        exceptional: vec![],
    }
}

fn goto(t: u32) -> Terminator {
    Terminator::Goto(BlockId(t))
}

fn branch(c: Operand, t: u32, e: u32) -> Terminator {
    Terminator::Branch {
        cond: c,
        then_: BlockId(t),
        else_: BlockId(e),
    }
}

fn done() -> Terminator {
    Terminator::Return(None)
}

fn body(name: &str, blocks: Vec<Block>, n: usize, conds: Vec<Operand>) -> Body {
    Body {
        key: key(name),
        entry: BlockId(0),
        blocks,
        vars: (0..n)
            .map(|i| VarInfo {
                kind: VarKind::Local(i as u16),
                ty: Ty::Int,
            })
            .collect(),
        obligations: conds
            .into_iter()
            .enumerate()
            .map(|(i, cond)| Obligation {
                id: ObligationId(i as u32),
                kind: ObligationKind::Assertion,
                cond,
                bytecode_offset: 0,
                line: None,
                guarded: false,
            })
            .collect(),
    }
}

fn program(bodies: Vec<Body>) -> Program {
    let mut p = Program::new();
    p.entry = Some(key("main"));
    for b in bodies {
        p.put_body(b);
    }
    p
}

fn open(ids: &[u32]) -> Vec<ObligationRef> {
    ids.iter()
        .map(|i| ObligationRef {
            method: key("main"),
            id: ObligationId(*i),
        })
        .collect()
}

fn step<S: Solver>(p: &Program, s: S, open: &Vec<ObligationRef>) -> Report {
    SmtBmc::new(50).step(p, &models(), s, open).unwrap()
}

fn proved(r: &Report) -> Vec<u32> {
    match &r.settled {
        Settled::Proved(v) => v.iter().map(|o| o.id.0).collect(),
        _ => panic!("not proved"),
    }
}

#[test]
fn a_check_that_can_fail_is_reported_with_its_input() {
    // v0 = ?; v1 = v0 != 7; check v1
    let p = program(vec![body(
        "main",
        vec![block(
            0,
            vec![any(0), set(1, Rvalue::Bin(BinOp::Ne, v(0), num(7))), check(0)],
            done(),
        )],
        2,
        vec![v(1)],
    )]);
    let r = step(&p, brute(), &open(&[0]));
    assert!(matches!(r.settled, Settled::Violations));
    assert_eq!(r.found.violations.len(), 1);
    assert_eq!(r.found.violations[0].id, ObligationId(0));
    assert_eq!(r.found.violations[0].method.name, "main");
    assert_eq!(r.found.violations[0].witness.nondet_sequence(), vec![7]);
    let out = r.publications(9);
    assert_eq!(out.len(), 1);
    assert_eq!(out[0].obligation.id, ObligationId(0));
    assert_eq!(out[0].direction, Direction::Under);
    match &out[0].status {
        Status::Violated(w) => assert_eq!(w.nondet_sequence(), vec![7]),
        s => panic!("{s:?}"),
    }
}

#[test]
fn a_check_that_cannot_fail_is_proved() {
    // v0 = ?; assume v0; check v0
    let p = program(vec![body(
        "main",
        vec![block(0, vec![any(0), Stmt::Assume(v(0)), check(0)], done())],
        1,
        vec![v(0)],
    )]);
    let r = step(&p, brute(), &open(&[0]));
    assert_eq!(proved(&r), vec![0]);
    assert!(r.found.all_paths_complete && r.found.all_calls_resolved);
    let out = r.publications(9);
    assert_eq!(out.len(), 1);
    assert_eq!(out[0].direction, Direction::Over);
    assert!(matches!(
        out[0].status,
        Status::Discharged(ProofKind::Exhaustive)
    ));
}

#[test]
fn arms_that_meet_again_are_joined() {
    // v0 = ?; if v0 {v1 = 1} else {v1 = 2}; v2 = v1 != 2; check v2
    let p = program(vec![body(
        "main",
        vec![
            block(0, vec![any(0)], branch(v(0), 1, 2)),
            block(1, vec![set(1, Rvalue::Use(num(1)))], goto(3)),
            block(2, vec![set(1, Rvalue::Use(num(2)))], goto(3)),
            block(
                3,
                vec![set(2, Rvalue::Bin(BinOp::Ne, v(1), num(2))), check(0), check(1)],
                done(),
            ),
        ],
        3,
        vec![v(2), v(1)],
    )]);
    let r = step(&p, brute(), &open(&[0, 1]));
    assert_eq!(r.found.violations.len(), 1);
    assert_eq!(r.found.violations[0].id, ObligationId(0));
    assert_eq!(r.found.violations[0].witness.nondet_sequence(), vec![0]);
}

#[test]
fn arms_that_do_not_meet_again_fork_the_path() {
    // v0 = ?; assume v0; if v0 return else check 0
    let p = program(vec![body(
        "main",
        vec![
            block(0, vec![any(0), Stmt::Assume(v(0))], branch(v(0), 1, 2)),
            block(1, vec![], Terminator::Halt),
            block(2, vec![check(0)], done()),
        ],
        1,
        vec![num(0)],
    )]);
    // The second arm is excluded, so its check is never met.
    let r = step(&p, brute(), &open(&[0]));
    assert_eq!(proved(&r), vec![0]);
    // Where the solver does not know, it is met.
    let r = step(&p, Fixed(SatResult::Sat, None, None), &open(&[0]));
    assert_eq!(r.found.violations.len(), 1);
    assert_eq!(r.found.violations[0].witness.nondet_sequence(), vec![0]);
}

#[test]
fn the_cases_of_a_switch_are_told_apart() {
    // v0 = ?; switch v0 {1: v1 = 5, 2: v1 = 6, default: v1 = 0}; check v1
    let p = program(vec![body(
        "main",
        vec![
            block(
                0,
                vec![any(0)],
                Terminator::Switch {
                    value: v(0),
                    cases: vec![(1, BlockId(1)), (2, BlockId(2))],
                    default: BlockId(3),
                },
            ),
            block(1, vec![set(1, Rvalue::Use(num(5)))], goto(4)),
            block(2, vec![set(1, Rvalue::Use(num(6)))], goto(4)),
            block(3, vec![set(1, Rvalue::Use(num(0)))], goto(4)),
            block(
                4,
                vec![
                    set(2, Rvalue::Bin(BinOp::Ne, v(1), num(6))),
                    check(0),
                    check(1),
                ],
                done(),
            ),
        ],
        3,
        vec![v(2), v(1)],
    )]);
    let r = step(&p, brute(), &open(&[0, 1]));
    let found: Vec<(u32, Vec<i64>)> = r
        .found
        .violations
        .iter()
        .map(|x| (x.id.0, x.witness.nondet_sequence()))
        .collect();
    assert_eq!(found[0], (0, vec![2]));
    assert_eq!(found[1].0, 1);
    assert!(found[1].1 == vec![0] || found[1].1 == vec![7]);
}

#[test]
fn loops_are_unrolled_up_to_a_bound() {
    let p = program(vec![body(
        "main",
        vec![block(0, vec![check(0)], goto(0))],
        1,
        vec![num(1)],
    )]);
    let r = step(&p, brute(), &open(&[0]));
    match &r.settled {
        Settled::Bounded(b) => assert_eq!(b.len(), 1),
        _ => panic!("the loop is cut short"),
    }
    assert!(!r.found.all_paths_complete);
    let out = r.publications(9);
    assert_eq!(out.len(), 1);
    assert_eq!(out[0].direction, Direction::Under);
    assert!(matches!(out[0].status, Status::Bounded { k: 9 }));
}

#[test]
fn calls_are_followed_into_their_bodies() {
    // f(x): check x; return x - 1. main: v0 = ?; assume v0; v1 = f(v0); check v1
    let callee = body(
        "f",
        vec![block(
            0,
            vec![check(0), set(1, Rvalue::Bin(BinOp::Sub, v(0), num(1)))],
            Terminator::Return(Some(v(1))),
        )],
        2,
        vec![v(0)],
    );
    let main = body(
        "main",
        vec![block(
            0,
            vec![
                any(0),
                Stmt::Assume(v(0)),
                set(
                    1,
                    Rvalue::Call {
                        target: key("f"),
                        args: vec![v(0)],
                        is_virtual: false,
                    },
                ),
                check(0),
            ],
            done(),
        )],
        2,
        vec![v(1)],
    );
    let p = program(vec![main, callee]);
    let r = step(&p, brute(), &open(&[0]));
    assert_eq!(r.found.violations.len(), 1);
    assert_eq!(r.found.violations[0].method.name, "main");
    assert_eq!(r.found.violations[0].witness.nondet_sequence(), vec![1]);
    assert_eq!(r.found.inlined.len(), 1);
    assert_eq!(r.found.inlined[0].name, "f");
}

#[test]
fn what_is_unknown_is_not_reported_as_violated() {
    // v0 = havoc; check v0
    let p = program(vec![body(
        "main",
        vec![block(0, vec![set(0, Rvalue::Havoc(Ty::Int)), check(0)], done())],
        1,
        vec![v(0)],
    )]);
    let r = step(&p, brute(), &open(&[0]));
    assert!(r.found.violations.is_empty());
    assert_eq!(r.found.skipped, vec![ObligationId(0)]);
    assert!(proved(&r).is_empty());
}

#[test]
fn a_call_without_a_body_is_left_unresolved() {
    let p = program(vec![body(
        "main",
        vec![block(
            0,
            vec![set(
                0,
                Rvalue::Call {
                    target: key("missing"),
                    args: vec![],
                    is_virtual: false,
                },
            )],
            done(),
        )],
        1,
        vec![],
    )]);
    let r = step(&p, brute(), &vec![]);
    assert!(!r.found.all_calls_resolved);
    assert!(!r.found.has_unresolved_in_try);
}

#[test]
fn static_fields_hold_what_their_initialiser_stored() {
    let f = || FieldKey {
        class: "T".into(),
        name: "a".into(),
        desc: "I".into(),
    };
    let clinit = body(
        "<clinit>",
        vec![block(0, vec![Stmt::PutStatic(f(), num(7))], done())],
        0,
        vec![],
    );
    let main = body(
        "main",
        vec![block(
            0,
            vec![
                set(0, Rvalue::GetStatic(f())),
                set(1, Rvalue::Bin(BinOp::Eq, v(0), num(7))),
                check(0),
            ],
            done(),
        )],
        2,
        vec![v(1)],
    );
    let r = step(&program(vec![main, clinit]), brute(), &open(&[0]));
    assert_eq!(proved(&r), vec![0]);
}

#[test]
fn the_values_of_a_witness_have_the_types_of_the_inputs() {
    let mut b = body(
        "main",
        vec![block(
            0,
            vec![
                any(0),
                set(1, Rvalue::Nondet(Ty::Long, None)),
                set(2, Rvalue::Nondet(Ty::Str, None)),
                check(0),
            ],
            done(),
        )],
        3,
        vec![num(0)],
    );
    b.vars[1].ty = Ty::Long;
    b.vars[2].ty = Ty::Str;
    let wide = (1i64 << 40) + 3;
    let solver = Fixed(SatResult::Sat, Some(wide), Some("ab".into()));
    let r = step(&program(vec![b]), solver, &open(&[0]));
    let w = &r.found.violations[0].witness;
    assert_eq!(w.nondet_sequence(), vec![3, wide]);
    assert_eq!(w.string_values(), vec!["ab"]);
    assert_eq!(w.entries[1].nondet_method, "nondetLong");
}

#[test]
fn every_condition_of_the_path_is_assumed() {
    let p = program(vec![body(
        "main",
        vec![
            block(0, vec![any(0), Stmt::Assume(v(0)), Stmt::Assume(v(0))], branch(v(0), 1, 2)),
            block(1, vec![check(0)], done()),
            block(2, vec![], Terminator::Halt),
        ],
        1,
        vec![v(0)],
    )]);
    let mut s = brute();
    let r = {
        struct Shared<'a>(&'a mut Brute);
        impl<'a> Solver for Shared<'a> {
            fn check(&mut self, t: &Terms, a: &Vec<Term>) -> SatResult {
                self.0.check(t, a)
            }
            fn value_i64(&mut self, t: Term) -> Option<i64> {
                self.0.value_i64(t)
            }
            fn value_string(&mut self, t: Term) -> Option<String> {
                self.0.value_string(t)
            }
        }
        step(&p, Shared(&mut s), &open(&[0]))
    };
    assert_eq!(proved(&r), vec![0]);
    // Two assumptions, the branch and the check.
    assert_eq!(s.most_assumed, 4);
    // Once for each assumption, arm and check.
    assert_eq!(s.calls, 5);
}

#[test]
fn the_engine_explores_once() {
    let p = program(vec![body("main", vec![block(0, vec![], done())], 0, vec![])]);
    let mut e = SmtBmc::new(3);
    assert_eq!(e.id(), EngineId("smt-bmc"));
    assert_eq!(e.direction(), Direction::Under);
    assert!(e.step(&p, &models(), brute(), &vec![]).is_some());
    assert!(e.step(&p, &models(), brute(), &vec![]).is_none());
    let mut e = SmtBmc::new(3);
    assert!(e.step(&Program::new(), &models(), brute(), &vec![]).is_none());
}

#[test]
fn a_path_that_is_too_deep_is_cut_short() {
    let p = program(vec![body(
        "main",
        vec![
            block(0, vec![], goto(1)),
            block(1, vec![], goto(2)),
            block(2, vec![check(0)], done()),
        ],
        0,
        vec![num(0)],
    )]);
    let mut e = SmtBmc::new(1);
    let r = e.step(&p, &models(), brute(), &open(&[0])).unwrap();
    assert!(matches!(r.settled, Settled::Bounded(_)));
    let mut e = SmtBmc::new(2);
    let r = e.step(&p, &models(), brute(), &open(&[0])).unwrap();
    assert!(matches!(r.settled, Settled::Violations));
}

/// Can the formula of a body violate its first obligation?
fn violable(b: &Body) -> SatResult {
    let mut ts = Terms::new();
    let e = encode_body(&mut ts, b, "f");
    match e.violation_terms[0] {
        Some(t) => brute().check(&ts, &vec![t]),
        None => SatResult::Unsat,
    }
}

#[test]
fn every_assumption_of_a_block_narrows_its_path() {
    // v0 = ?; v1 = ?; assume v0; assume v1; check v0
    let stmts = |n: usize| {
        let mut s = vec![any(0), any(1)];
        for i in 0..n {
            s.push(Stmt::Assume(v(i as u32)));
        }
        s.push(check(0));
        body("main", vec![block(0, s, done())], 2, vec![v(0)])
    };
    assert_eq!(violable(&stmts(0)), SatResult::Sat);
    assert_eq!(violable(&stmts(1)), SatResult::Unsat);
    assert_eq!(violable(&stmts(2)), SatResult::Unsat);
}

#[test]
fn an_obligation_is_violated_at_any_of_its_checks() {
    // v0 = ?; check v0; v0 = 1; check v0
    let b = |first: bool| {
        let mut s = vec![any(0)];
        if first {
            s.push(check(0));
        }
        s.push(set(0, Rvalue::Use(num(1))));
        s.push(check(0));
        body("main", vec![block(0, s, done())], 1, vec![v(0)])
    };
    assert_eq!(violable(&b(true)), SatResult::Sat);
    assert_eq!(violable(&b(false)), SatResult::Unsat);
}

#[test]
fn a_formula_holds_where_a_run_fails() {
    // v0 = ?; if v0 then v1 = v0 - 7 else v1 = limit; check v1
    let b = |limit: i32| {
        body(
            "main",
            vec![
                block(0, vec![any(0)], branch(v(0), 1, 2)),
                block(1, vec![set(1, Rvalue::Bin(BinOp::Sub, v(0), num(7)))], goto(3)),
                block(2, vec![set(1, Rvalue::Use(num(limit)))], goto(3)),
                block(3, vec![check(0)], done()),
            ],
            2,
            vec![v(1)],
        )
    };
    for limit in [0, 3] {
        let body = b(limit);
        let mut ts = Terms::new();
        let e = encode_body(&mut ts, &body, "f");
        let violation = e.violation_terms[0].unwrap();
        let n = symbols(&ts);
        for x in [0, 1, 7] {
            // The variables at the start do not matter; the input is asked for last.
            let mut picks = vec![5; n];
            picks[n - 1] = x;
            let vals = eval(&ts, &picks);
            let fails = if x != 0 { x - 7 == 0 } else { limit == 0 };
            assert!(vals[violation.0] == Val::Truth(fails));
            assert!(vals[e.reach_term.0] == Val::Truth(true));
        }
    }
}

#[test]
fn a_store_in_one_arm_is_kept_at_the_join() {
    // v0 = ?; v1 = new int[3]; if v0 {v1[0] = 5}; v2 = v1[0]; v3 = v2 != 5; v4 = v2 != 0
    let p = program(vec![body(
        "main",
        vec![
            block(
                0,
                vec![
                    any(0),
                    set(
                        1,
                        Rvalue::NewArray {
                            elem: "I".into(),
                            len: num(3),
                        },
                    ),
                ],
                branch(v(0), 1, 2),
            ),
            block(
                1,
                vec![Stmt::ArrayStore {
                    arr: v(1),
                    idx: num(0),
                    val: num(5),
                }],
                goto(3),
            ),
            block(2, vec![], goto(3)),
            block(
                3,
                vec![
                    set(
                        2,
                        Rvalue::ArrayLoad {
                            arr: v(1),
                            idx: num(0),
                        },
                    ),
                    set(3, Rvalue::Bin(BinOp::Ne, v(2), num(5))),
                    set(4, Rvalue::Bin(BinOp::Ne, v(2), num(0))),
                    set(5, Rvalue::Bin(BinOp::Ne, v(2), num(7))),
                    check(0),
                    check(1),
                    check(2),
                ],
                done(),
            ),
        ],
        6,
        vec![v(3), v(4), v(5)],
    )]);
    let r = step(&p, brute(), &open(&[0, 1, 2]));
    let ids: Vec<u32> = r.found.violations.iter().map(|x| x.id.0).collect();
    assert_eq!(ids, vec![0, 1]);
}

#[test]
fn a_run_that_fails_is_found_and_nothing_else_is_proved() {
    // v0 = ?; if v0 {v1 = v0} else {v1 = 7}; v2 = v1 != limit; check v2
    for limit in [0, 1, 2, 7, 9] {
        let p = program(vec![body(
            "main",
            vec![
                block(0, vec![any(0)], branch(v(0), 1, 2)),
                block(1, vec![set(1, Rvalue::Use(v(0)))], goto(3)),
                block(2, vec![set(1, Rvalue::Use(num(7)))], goto(3)),
                block(
                    3,
                    vec![set(2, Rvalue::Bin(BinOp::Ne, v(1), num(limit))), check(0)],
                    done(),
                ),
            ],
            3,
            vec![v(2)],
        )]);
        let r = step(&p, brute(), &open(&[0]));
        if [1, 2, 7].contains(&limit) {
            assert_eq!(r.found.violations.len(), 1);
        } else {
            assert_eq!(proved(&r), vec![0]);
        }
    }
}

#[test]
fn a_variable_keeps_its_first_value_where_an_arm_does_not_set_it() {
    // if v0 {v1 = 1}; check v1: whatever v1 was before may be zero
    let p = program(vec![body(
        "main",
        vec![
            block(0, vec![any(0)], branch(v(0), 1, 2)),
            block(1, vec![set(1, Rvalue::Use(num(1)))], goto(2)),
            block(2, vec![check(0)], done()),
        ],
        2,
        vec![v(1)],
    )]);
    let r = step(&p, brute(), &open(&[0]));
    assert_eq!(r.found.violations.len(), 1);
}

#[test]
fn characters_are_limited_to_ascii_on_request() {
    // v0 = ? of type char; v1 = v0 != 200; check v1
    let p = program(vec![body(
        "main",
        vec![block(
            0,
            vec![
                set(0, Rvalue::Nondet(Ty::Int, Some(b'C'))),
                set(1, Rvalue::Bin(BinOp::Ne, v(0), num(200))),
                check(0),
            ],
            done(),
        )],
        2,
        vec![v(1)],
    )]);
    let solver = || Brute {
        values: vec![0, 127, 200, 70000],
        ..brute()
    };
    let mut all = SmtBmc::new(50);
    assert!(!all.ascii_only);
    let r = all.step(&p, &models(), solver(), &open(&[0])).unwrap();
    assert_eq!(r.found.violations[0].witness.nondet_sequence(), vec![200]);
    let mut ascii = SmtBmc::new(50);
    ascii.ascii_only = true;
    let r = ascii.step(&p, &models(), solver(), &open(&[0])).unwrap();
    assert_eq!(proved(&r), vec![0]);
}

#[test]
fn a_result_that_is_left_open_violates_nothing() {
    let called = |class: &str, name: &str, desc: &str, args: Vec<Operand>| {
        let target = MethodKey {
            class: class.into(),
            name: name.into(),
            desc: desc.into(),
        };
        let p = program(vec![body(
            "main",
            vec![block(
                0,
                vec![
                    set(
                        0,
                        Rvalue::Call {
                            target,
                            args,
                            is_virtual: false,
                        },
                    ),
                    check(0),
                ],
                done(),
            )],
            1,
            vec![v(0)],
        )]);
        let r = step(&p, Fixed(SatResult::Sat, Some(0), None), &open(&[0]));
        !r.found.violations.is_empty()
    };
    let text = || Operand::Const(Const::Str("a".into()));
    let (string, integer) = ("java/lang/String", "java/lang/Integer");
    assert!(called(integer, "sum", "(II)I", vec![num(0), num(0)]));
    assert!(called(string, "length", "()I", vec![text()]));
    assert!(!called(integer, "parseInt", "(Ljava/lang/String;)I", vec![text()]));
    assert!(!called("java/lang/Float", "sum", "(FF)F", vec![num(0), num(0)]));
    assert!(!called("java/lang/Double", "byteValue", "()B", vec![num(0)]));
    for name in ["trim", "reverse", "hashCode"] {
        assert!(!called(string, name, "()I", vec![text()]));
    }
    // A number is written as the method writes it, a float is not.
    assert!(called(string, "append", "(I)I", vec![text(), num(0)]));
    assert!(!called(string, "append", "(F)I", vec![text(), num(0)]));
    assert!(called(string, "insert", "(II)I", vec![text(), num(0), num(0)]));
    assert!(!called(string, "insert", "(IC)I", vec![text(), num(0), num(0)]));
}

#[test]
fn what_is_precise_is_said_of_each_method() {
    let modelled = |class: &str, name: &str| {
        math_call_modelled(&MethodKey {
            class: class.into(),
            name: name.into(),
            desc: "()V".into(),
        })
    };
    assert!(modelled("java/lang/Integer", "bitCount"));
    assert!(!modelled("java/lang/Integer", "parseInt"));
    assert!(!modelled("java/lang/Long", "parseLong"));
    assert!(!modelled("java/lang/Short", "parseShort"));
    assert!(!modelled("java/lang/Byte", "parseByte"));
    assert!(!modelled("java/lang/Float", "sum"));
    assert!(!modelled("java/lang/Double", "shortValue"));
}

#[test]
fn shifts_go_by_the_width_of_the_variable() {
    // v1 = v0 << 40
    let encoded = |ty: Ty| {
        let mut b = body(
            "main",
            vec![block(
                0,
                vec![set(1, Rvalue::Bin(BinOp::Shl, v(0), num(40)))],
                done(),
            )],
            2,
            vec![],
        );
        b.vars[0].ty = ty;
        b.vars[1].ty = ty;
        let mut ts = Terms::new();
        encode_body(&mut ts, &b, "f");
        let has = |n: i64| (0..ts.len()).any(|i| matches!(ts.node(i), Node::Bv(m, _) if *m == n));
        (has(0x1F), has(0x3F))
    };
    assert_eq!(encoded(Ty::Int), (true, false));
    assert_eq!(encoded(Ty::Long), (false, true));
}

/// 0 -> 2; 1 checks; 2 -> 1, 2
fn numbered_out_of_order(cond: Operand) -> Body {
    body(
        "main",
        vec![
            block(0, vec![], goto(2)),
            block(1, vec![check(0)], done()),
            block(2, vec![], branch(v(0), 1, 2)),
        ],
        1,
        vec![cond],
    )
}

#[test]
fn blocks_are_encoded_in_the_order_of_their_edges() {
    assert_eq!(violable(&numbered_out_of_order(num(0))), SatResult::Sat);
    assert_eq!(violable(&numbered_out_of_order(num(1))), SatResult::Unsat);
    // Only where v0 is not zero is the check reached.
    assert_eq!(violable(&numbered_out_of_order(v(0))), SatResult::Unsat);
    // 0 -> 3; 3 -> 2; 2 -> 1; 1 checks what 3 and 2 set
    let b = body(
        "main",
        vec![
            block(0, vec![set(0, Rvalue::Use(num(1)))], goto(3)),
            block(1, vec![check(0)], done()),
            block(2, vec![set(0, Rvalue::Bin(BinOp::Sub, v(0), num(1)))], goto(1)),
            block(3, vec![set(0, Rvalue::Bin(BinOp::Mul, v(0), num(2)))], goto(2)),
        ],
        1,
        vec![v(0)],
    );
    assert_eq!(violable(&b), SatResult::Unsat);
}

/// Is the step case of the first obligation satisfiable?
fn step_case(b: &Body, k: u32) -> SatResult {
    match KInduction::new().step_case(b, ObligationId(0), k) {
        StepCase::Holds => SatResult::Unsat,
        StepCase::Ask(ts, t) => brute().check(&ts, &vec![t]),
    }
}

#[test]
fn the_step_case_is_about_consecutive_states() {
    // A check that always fails is not inductive before every run has come to it.
    for k in 0..3 {
        assert_eq!(step_case(&numbered_out_of_order(num(0)), k), SatResult::Sat);
        assert_eq!(step_case(&numbered_out_of_order(num(1)), k), SatResult::Unsat);
    }
    assert_eq!(step_case(&numbered_out_of_order(num(0)), 3), SatResult::Unsat);
    // 0: v0 = 1; 1: check v0; again if v1, else 2: what held once holds the next time.
    let b = body(
        "main",
        vec![
            block(0, vec![set(0, Rvalue::Use(num(1)))], goto(1)),
            block(1, vec![check(0)], branch(v(1), 1, 2)),
            block(2, vec![], done()),
        ],
        2,
        vec![v(0)],
    );
    assert_eq!(step_case(&b, 0), SatResult::Sat);
    assert_eq!(step_case(&b, 1), SatResult::Unsat);
    assert_eq!(step_case(&b, 2), SatResult::Unsat);
}

/// As [`Brute`], and lists the symbols that were asked for.
struct Listed<'a>(Brute, Vec<String>, &'a mut Vec<String>);

impl<'a> Solver for Listed<'a> {
    fn check(&mut self, terms: &Terms, assumed: &Vec<Term>) -> SatResult {
        self.1 = (0..terms.len())
            .map(|i| match terms.node(i) {
                Node::FreshBv(s, _) => s.clone(),
                _ => "-".to_string(),
            })
            .collect();
        self.0.check(terms, assumed)
    }

    fn value_i64(&mut self, t: Term) -> Option<i64> {
        self.2.push(self.1[t.0].clone());
        self.0.value_i64(t)
    }

    fn value_string(&mut self, t: Term) -> Option<String> {
        self.0.value_string(t)
    }
}

#[test]
fn each_input_of_a_witness_is_asked_for_by_its_own_symbol() {
    // v0 = ?; v1 = ?; v2 = (v0 - v1) != 5; check v2
    let p = program(vec![body(
        "main",
        vec![block(
            0,
            vec![
                any(0),
                any(1),
                set(2, Rvalue::Bin(BinOp::Sub, v(0), v(1))),
                set(2, Rvalue::Bin(BinOp::Ne, v(2), num(5))),
                check(0),
            ],
            done(),
        )],
        3,
        vec![v(2)],
    )]);
    let mut asked = vec![];
    let r = step(&p, Listed(brute(), vec![], &mut asked), &open(&[0]));
    assert_eq!(r.found.violations[0].witness.nondet_sequence(), vec![7, 2]);
    assert_eq!(asked, vec!["nd_0", "nd_1"]);
}

#[test]
fn a_run_over_long_values_that_fails_is_found() {
    // v0 = ? of type int; v1 = (long) v0; v1 = v1 + (1L << 40); v2 = v1 cmp limit; check v2
    for limit in [0i64, 1, 2, 7, 9] {
        let big = |n: i64| Operand::Const(Const::Long((1i64 << 40) + n));
        let mut b = body(
            "main",
            vec![block(
                0,
                vec![
                    any(0),
                    set(1, Rvalue::Cast(Ty::Long, v(0))),
                    set(1, Rvalue::Bin(BinOp::Add, v(1), big(0))),
                    set(2, Rvalue::Cmp(v(1), big(limit))),
                    check(0),
                ],
                done(),
            )],
            3,
            vec![v(2)],
        );
        b.vars[1].ty = Ty::Long;
        let r = step(&program(vec![b]), brute(), &open(&[0]));
        if limit == 9 {
            assert_eq!(proved(&r), vec![0]);
        } else {
            assert_eq!(r.found.violations[0].witness.nondet_sequence(), vec![limit]);
        }
    }
}

#[test]
fn a_conversion_to_int_keeps_the_low_half() {
    // v0 = ? of type long; v0 = v0 + (1L << 32); v1 = (int) v0; v1 = v1 != 7; check v1
    let mut b = body(
        "main",
        vec![block(
            0,
            vec![
                set(0, Rvalue::Nondet(Ty::Long, None)),
                set(0, Rvalue::Bin(BinOp::Add, v(0), Operand::Const(Const::Long(1i64 << 32)))),
                set(1, Rvalue::Cast(Ty::Int, v(0))),
                set(1, Rvalue::Bin(BinOp::Ne, v(1), num(7))),
                check(0),
            ],
            done(),
        )],
        2,
        vec![v(1)],
    );
    b.vars[0].ty = Ty::Long;
    let r = step(&program(vec![b]), brute(), &open(&[0]));
    assert_eq!(r.found.violations[0].witness.nondet_sequence(), vec![7]);
}

fn cell() -> FieldKey {
    FieldKey {
        class: "T".into(),
        name: "a".into(),
        desc: "I".into(),
    }
}

#[test]
fn a_run_over_static_fields_that_fails_is_found() {
    // v0 = ?; T.a = v0; if v0 {T.a = 7}; v1 = T.a; v1 = v1 != limit; check v1
    for limit in [0, 1, 7] {
        let p = program(vec![body(
            "main",
            vec![
                block(0, vec![any(0), Stmt::PutStatic(cell(), v(0))], branch(v(0), 1, 2)),
                block(1, vec![Stmt::PutStatic(cell(), num(7))], goto(3)),
                block(2, vec![], goto(3)),
                block(
                    3,
                    vec![
                        set(1, Rvalue::GetStatic(cell())),
                        set(1, Rvalue::Bin(BinOp::Ne, v(1), num(limit))),
                        check(0),
                    ],
                    done(),
                ),
            ],
            2,
            vec![v(1)],
        )]);
        let r = step(&p, brute(), &open(&[0]));
        if limit == 1 {
            assert_eq!(proved(&r), vec![0]);
        } else {
            assert_eq!(r.found.violations.len(), 1);
        }
    }
}

#[test]
fn a_run_over_fields_of_objects_that_fails_is_found() {
    // v0 = ?; v1 = v0.a; if v0 {v0.a = 7}; v1 = v0.a; v1 = v1 != limit; check v1
    for limit in [0, 1, 7] {
        let read = || Rvalue::GetField { obj: v(0), field: cell() };
        let p = program(vec![body(
            "main",
            vec![
                block(0, vec![any(0), set(1, read())], branch(v(0), 1, 2)),
                block(
                    1,
                    vec![Stmt::PutField { obj: v(0), field: cell(), val: num(7) }],
                    goto(3),
                ),
                block(2, vec![], goto(3)),
                block(
                    3,
                    vec![
                        set(1, read()),
                        set(1, Rvalue::Bin(BinOp::Ne, v(1), num(limit))),
                        check(0),
                    ],
                    done(),
                ),
            ],
            2,
            vec![v(1)],
        )]);
        let r = step(&p, brute(), &open(&[0]));
        if limit == 1 {
            assert_eq!(proved(&r), vec![0]);
        } else {
            assert_eq!(r.found.violations.len(), 1);
        }
    }
}

#[test]
fn a_field_that_is_only_read_is_zero_in_every_arm() {
    // v0 = ?; if v0 {v1 = T.a} else {v1 = v0}; v1 = v1 != limit; check v1
    for limit in [0, 1] {
        let p = program(vec![body(
            "main",
            vec![
                block(0, vec![any(0)], branch(v(0), 1, 2)),
                block(1, vec![set(1, Rvalue::GetStatic(cell()))], goto(3)),
                block(2, vec![set(1, Rvalue::Use(v(0)))], goto(3)),
                block(
                    3,
                    vec![
                        set(2, Rvalue::GetStatic(cell())),
                        set(1, Rvalue::Bin(BinOp::Add, v(1), v(2))),
                        set(1, Rvalue::Bin(BinOp::Ne, v(1), num(limit))),
                        check(0),
                    ],
                    done(),
                ),
            ],
            3,
            vec![v(1)],
        )]);
        let r = step(&p, brute(), &open(&[0]));
        if limit == 1 {
            assert_eq!(proved(&r), vec![0]);
        } else {
            assert_eq!(r.found.violations.len(), 1);
        }
    }
}
