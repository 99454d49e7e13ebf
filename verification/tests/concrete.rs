//! The concrete interpreter.

use roast::concrete::entry::can_be_run;
use roast::concrete::machine::{Answer, Outcome};
use roast::concrete::probe::{run_with_choices, search, Concrete, Probe};
use roast::concrete::value::{eval_bin, Value};
use roast::engine::{Direction, EngineId};
use roast::ir::{
    BinOp, Block, BlockId, Body, Const, ExcEdge, FieldKey, MethodKey, Obligation, ObligationId,
    ObligationKind, Operand, Rvalue, Stmt, Terminator, Ty, VarId, VarInfo, VarKind,
};
use roast::models::Models;
use roast::program::Program;
use roast::verdict::NondetValue;

fn models() -> Models {
    Models {
        calls: vec![],
        enum_ordinal_field: "$$ordinal".into(),
        assertion_error: "java/lang/AssertionError".into(),
        exceptions: vec![(ObligationKind::DivByZero, "java/lang/ArithmeticException".into())],
        concrete_math: vec![("java/lang/Math".into(), "abs".into())],
        str_owners: vec!["java/lang/String".into()],
        transcendental: vec![],
    }
}

fn key(name: &str) -> MethodKey {
    MethodKey {
        class: "T".into(),
        name: name.into(),
        desc: "()V".into(),
    }
}

fn v(i: u32) -> Operand {
    Operand::Var(VarId(i))
}

fn num(n: i32) -> Operand {
    Operand::int_const(n)
}

fn block(id: u32, stmts: Vec<Stmt>, term: Terminator) -> Block {
    Block {
        id: BlockId(id),
        bytecode_offset: 0,
        stmts,
        term,
        exceptional: vec![],
    }
}

fn body(name: &str, blocks: Vec<Block>, n_vars: usize, conds: Vec<Operand>) -> Body {
    Body {
        key: key(name),
        entry: BlockId(0),
        blocks,
        vars: (0..n_vars)
            .map(|i| VarInfo {
                kind: VarKind::Local(i as u16),
                ty: Ty::Int,
            })
            .collect(),
        obligations: conds
            .into_iter()
            .enumerate()
            .map(|(i, cond)| Obligation {
                id: ObligationId(i as u32),
                kind: ObligationKind::DivByZero,
                cond,
                bytecode_offset: 0,
                line: None,
                guarded: false,
            })
            .collect(),
    }
}

fn program(bodies: Vec<Body>) -> Program {
    let mut p = Program::new();
    p.entry = Some(key("main"));
    for b in bodies {
        p.put_body(b);
    }
    p
}

fn ret(o: Operand) -> Terminator {
    Terminator::Return(Some(o))
}

fn run(p: &Program, choices: Vec<i64>, answers: Vec<Answer>) -> Outcome {
    run_with_choices(p, &models(), &p.bodies[0], &choices, &answers, 1000)
}

#[test]
fn operators_wrap_and_division_by_zero_gives_zero() {
    let i = Value::I32;
    let l = Value::I64;
    assert_eq!(eval_bin(BinOp::Add, i(i32::MAX), i(1)), i(i32::MIN));
    assert_eq!(eval_bin(BinOp::Mul, l(1 << 62), l(4)), l(0));
    assert_eq!(eval_bin(BinOp::Div, i(7), i(-2)), i(-3));
    assert_eq!(eval_bin(BinOp::Rem, i(-7), i(2)), i(-1));
    assert_eq!(eval_bin(BinOp::Div, i(7), i(0)), i(0));
    assert_eq!(eval_bin(BinOp::Div, i(i32::MIN), i(-1)), i(0));
    assert_eq!(eval_bin(BinOp::Shl, i(1), i(33)), i(2));
    assert_eq!(eval_bin(BinOp::Shr, i(-8), i(1)), i(-4));
    assert_eq!(eval_bin(BinOp::UShr, i(-1), i(28)), i(15));
    assert_eq!(eval_bin(BinOp::UShr, l(-1), l(60)), l(15));
    assert_eq!(eval_bin(BinOp::Xor, i(6), i(3)), i(5));
    assert_eq!(eval_bin(BinOp::Lt, i(1), l(2)), i(1));
    assert_eq!(eval_bin(BinOp::Eq, Value::Ref(3), Value::Ref(3)), i(1));
    assert_eq!(eval_bin(BinOp::Lt, Value::Ref(1), Value::Ref(3)), i(0));
    assert_eq!(eval_bin(BinOp::Add, Value::Unknown, i(1)), Value::Unknown);
}

#[test]
fn a_check_that_fails_by_default_is_found() {
    let p = program(vec![body(
        "main",
        vec![block(
            0,
            vec![
                Stmt::Assign(VarId(0), Rvalue::Nondet(Ty::Int, None)),
                Stmt::Assign(VarId(1), Rvalue::Bin(BinOp::Ne, v(0), num(0))),
                Stmt::Check(ObligationId(0)),
            ],
            Terminator::Return(None),
        )],
        2,
        vec![v(1)],
    )]);
    match search(&p, &models(), &p.bodies[0], &vec![]) {
        Probe::Done(Some((o, w))) => {
            assert_eq!(o.id, ObligationId(0));
            assert_eq!(o.method.name, "main");
            assert_eq!(w.nondet_sequence(), vec![0]);
            assert_eq!(w.entries[0].nondet_method, "nondetInt");
        }
        _ => panic!("the check fails"),
    }
    // With another choice it holds.
    assert!(matches!(run(&p, vec![3], vec![]), Outcome::Clean));
}

#[test]
fn choices_are_used_in_order_and_then_zero() {
    let p = program(vec![body(
        "main",
        vec![block(
            0,
            vec![
                Stmt::Assign(VarId(0), Rvalue::Nondet(Ty::Int, None)),
                Stmt::Assign(VarId(1), Rvalue::Nondet(Ty::Long, None)),
                Stmt::Assign(VarId(2), Rvalue::Nondet(Ty::Str, None)),
                Stmt::Assign(VarId(3), Rvalue::Nondet(Ty::Int, None)),
                Stmt::Check(ObligationId(0)),
            ],
            Terminator::Return(None),
        )],
        4,
        vec![v(3)],
    )]);
    match run(&p, vec![7, 8, 9], vec![]) {
        Outcome::Violated { entries, .. } => {
            assert!(matches!(entries[0].value, NondetValue::Int(7)));
            assert!(matches!(entries[1].value, NondetValue::Long(8)));
            assert!(matches!(&entries[2].value, NondetValue::Str(s) if s.is_empty()));
            assert!(matches!(entries[3].value, NondetValue::Int(0)));
        }
        _ => panic!("the last choice is zero"),
    }
}

#[test]
fn a_failed_check_goes_to_the_first_handler_that_catches_it() {
    let mut p = program(vec![body(
        "main",
        vec![
            block(0, vec![Stmt::Check(ObligationId(0))], ret(num(1))),
            block(1, vec![], ret(num(2))),
        ],
        1,
        vec![num(0)],
    )]);
    assert!(matches!(run(&p, vec![], vec![]), Outcome::Violated { .. }));
    p.bodies[0].blocks[0].exceptional = vec![
        ExcEdge {
            class: Some("java/lang/NullPointerException".into()),
            target: BlockId(0),
        },
        ExcEdge {
            class: Some("java/lang/ArithmeticException".into()),
            target: BlockId(1),
        },
    ];
    assert!(matches!(run(&p, vec![], vec![]), Outcome::Returned(Value::I32(2))));
}

#[test]
fn a_failed_assumption_halts() {
    let p = program(vec![body(
        "main",
        vec![block(
            0,
            vec![
                Stmt::Assign(VarId(0), Rvalue::Use(num(0))),
                Stmt::Assume(v(0)),
                Stmt::Check(ObligationId(0)),
            ],
            Terminator::Return(None),
        )],
        1,
        vec![num(0)],
    )]);
    assert!(matches!(run(&p, vec![], vec![]), Outcome::Halted));
}

#[test]
fn calls_are_followed_and_exceptions_leave_them() {
    let callee = body(
        "f",
        vec![block(
            0,
            vec![Stmt::Assign(VarId(1), Rvalue::Bin(BinOp::Mul, v(0), num(2)))],
            ret(v(1)),
        )],
        2,
        vec![],
    );
    let main = body(
        "main",
        vec![block(
            0,
            vec![Stmt::Assign(
                VarId(0),
                Rvalue::Call {
                    target: key("f"),
                    args: vec![num(21)],
                    is_virtual: false,
                },
            )],
            ret(v(0)),
        )],
        1,
        vec![],
    );
    let p = program(vec![main, callee]);
    assert!(matches!(run(&p, vec![], vec![]), Outcome::Returned(Value::I32(42))));
    // One that throws.
    let mut p = p;
    p.bodies[1].blocks[0] = block(
        0,
        vec![Stmt::Assign(VarId(0), Rvalue::New("E".into()))],
        Terminator::Throw(v(0)),
    );
    assert!(matches!(run(&p, vec![], vec![]), Outcome::Threw(c) if c == "E"));
}

#[test]
fn a_static_field_is_initialized_before_it_is_read() {
    let field = |name: &str| FieldKey {
        class: "T".into(),
        name: name.into(),
        desc: "I".into(),
    };
    let clinit = body(
        "<clinit>",
        vec![block(
            0,
            vec![Stmt::PutStatic(field("a"), num(5))],
            Terminator::Return(None),
        )],
        0,
        vec![],
    );
    let main = body(
        "main",
        vec![block(
            0,
            vec![
                Stmt::Assign(VarId(0), Rvalue::GetStatic(field("a"))),
                Stmt::Assign(VarId(1), Rvalue::GetStatic(field("b"))),
                Stmt::Assign(VarId(2), Rvalue::Bin(BinOp::Add, v(0), v(1))),
            ],
            ret(v(2)),
        )],
        3,
        vec![],
    );
    let p = program(vec![main, clinit]);
    assert!(matches!(run(&p, vec![], vec![]), Outcome::Returned(Value::I32(5))));
}

#[test]
fn a_loop_without_end_runs_out_of_budget() {
    let p = program(vec![body(
        "main",
        vec![block(0, vec![], Terminator::Goto(BlockId(0)))],
        0,
        vec![],
    )]);
    assert!(matches!(run(&p, vec![], vec![]), Outcome::Inconclusive));
}

#[test]
fn calls_on_numbers_are_asked_for_until_answered() {
    let p = program(vec![body(
        "main",
        vec![block(
            0,
            vec![Stmt::Assign(
                VarId(0),
                Rvalue::Call {
                    target: MethodKey {
                        class: "java/lang/Math".into(),
                        name: "abs".into(),
                        desc: "(I)I".into(),
                    },
                    args: vec![num(-3), Operand::Const(Const::Str("x".into()))],
                    is_virtual: false,
                },
            )],
            ret(v(0)),
        )],
        1,
        vec![],
    )]);
    match run(&p, vec![], vec![]) {
        Outcome::Ask(r) => {
            assert_eq!(r.target.name, "abs");
            assert_eq!(r.values, vec![Value::I32(-3), Value::Ref(1)]);
            assert_eq!(r.alloc, 2);
        }
        _ => panic!("an answer is missing"),
    }
    let answer = |n: i32| Answer {
        value: Value::I32(n),
        texts: vec![],
        builders: vec![],
        fresh: 0,
    };
    assert!(matches!(
        run(&p, vec![], vec![answer(3)]),
        Outcome::Returned(Value::I32(3))
    ));
    // Further answers change nothing.
    assert!(matches!(
        run(&p, vec![], vec![answer(3), answer(9)]),
        Outcome::Returned(Value::I32(3))
    ));
}

#[test]
fn the_engine_steps_once() {
    let p = program(vec![body(
        "main",
        vec![block(0, vec![Stmt::Check(ObligationId(0))], Terminator::Return(None))],
        0,
        vec![num(0)],
    )]);
    let mut e = Concrete::new();
    assert_eq!(e.id(), EngineId("concrete"));
    assert_eq!(e.direction(), Direction::Under);
    assert!(matches!(e.step(&p, &models(), &vec![]), Probe::Done(Some(_))));
    assert!(matches!(e.step(&p, &models(), &vec![]), Probe::Exhausted));
    let mut e = Concrete::new();
    assert!(matches!(e.step(&Program::new(), &models(), &vec![]), Probe::Exhausted));
}

#[test]
fn any_budget_is_taken() {
    let p = program(vec![body(
        "main",
        vec![block(0, vec![], ret(num(3)))],
        1,
        vec![],
    )]);
    for budget in [1, 0x8000_0000, u64::MAX] {
        let o = run_with_choices(&p, &models(), &p.bodies[0], &vec![], &vec![], budget);
        assert!(matches!(o, Outcome::Returned(Value::I32(3))));
    }
    let o = run_with_choices(&p, &models(), &p.bodies[0], &vec![], &vec![], 0);
    assert!(matches!(o, Outcome::Inconclusive));
}

#[test]
fn only_bodies_that_can_be_entered_must_look_at_variables() {
    let odd = || {
        body(
            "odd",
            vec![
                block(
                    0,
                    vec![],
                    Terminator::Branch { cond: num(1), then_: BlockId(1), else_: BlockId(1) },
                ),
                block(1, vec![], ret(num(4))),
            ],
            1,
            vec![],
        )
    };
    let call = |name: &str| {
        Stmt::Assign(
            VarId(0),
            Rvalue::Call { target: key(name), args: vec![], is_virtual: false },
        )
    };
    let alone = body("main", vec![block(0, vec![], ret(num(3)))], 1, vec![]);
    let p = program(vec![alone, odd()]);
    assert!(can_be_run(&p, &models(), &p.bodies[0]));
    assert!(!can_be_run(&p, &models(), &p.bodies[1]));
    assert!(matches!(run(&p, vec![], vec![]), Outcome::Returned(Value::I32(3))));
    // Entered by way of another method, it counts.
    let main = body("main", vec![block(0, vec![call("mid")], ret(v(0)))], 1, vec![]);
    let mid = body("mid", vec![block(0, vec![call("odd")], ret(v(0)))], 1, vec![]);
    let p = program(vec![main, mid, odd()]);
    assert!(!can_be_run(&p, &models(), &p.bodies[0]));
    let main = body("main", vec![block(0, vec![call("mid")], ret(v(0)))], 1, vec![]);
    let mid = body("mid", vec![block(0, vec![call("mid")], ret(v(0)))], 1, vec![]);
    let p = program(vec![main, mid, odd()]);
    assert!(can_be_run(&p, &models(), &p.bodies[0]));
}
