//! Encoding over the reals.

use roast::engine::{Direction, EngineId, ObligationRef};
use roast::ir::{
    BinOp, Block, BlockId, Body, Const, MethodKey, Obligation, ObligationId, ObligationKind,
    Operand, Rvalue, Stmt, Terminator, Ty, VarId, VarInfo, VarKind,
};
use roast::models::Models;
use roast::nra::engine::{encode_nra, ModelValue, NraEngine, NraQuery, NraResult};
use roast::nra::terms::{Node, RealTerm, RealTerms};
use roast::program::Program;
use roast::verdict::NondetValue;

fn key() -> MethodKey {
    MethodKey {
        class: "T".into(),
        name: "t".into(),
        desc: "(D)V".into(),
    }
}

fn v(i: u32) -> Operand {
    Operand::Var(VarId(i))
}

fn math(name: &str, args: Vec<Operand>) -> Rvalue {
    Rvalue::Call {
        target: MethodKey {
            class: "java/lang/Math".into(),
            name: name.into(),
            desc: "(D)D".into(),
        },
        args,
        is_virtual: false,
    }
}

fn block(id: u32, stmts: Vec<Stmt>, term: Terminator) -> Block {
    Block {
        id: BlockId(id),
        bytecode_offset: 0,
        stmts,
        term,
        exceptional: vec![],
    }
}

fn body(blocks: Vec<Block>, vars: Vec<VarInfo>, cond: Operand) -> Body {
    Body {
        key: key(),
        entry: BlockId(0),
        blocks,
        vars,
        obligations: vec![Obligation {
            id: ObligationId(0),
            kind: ObligationKind::Assertion,
            cond,
            bytecode_offset: 0,
            line: None,
            guarded: false,
        }],
    }
}

fn double(slot: u16) -> VarInfo {
    VarInfo {
        kind: VarKind::Local(slot),
        ty: Ty::Double,
    }
}

fn temp() -> VarInfo {
    VarInfo {
        kind: VarKind::Temp,
        ty: Ty::Int,
    }
}

/// The term as text.
fn show(ts: &RealTerms, t: RealTerm) -> String {
    match &ts.nodes[t.0] {
        Node::Number(n) => format!("{n}"),
        Node::Half => "0.5".to_string(),
        Node::Float(b) => format!("{:?}", f32::from_bits(*b)),
        Node::Double(b) => format!("{:?}", f64::from_bits(*b)),
        Node::Symbol(s, k) => format!("{s}#{k}"),
        Node::App(op, args) => {
            let mut s = format!("({op:?}");
            for a in args {
                s = format!("{s} {}", show(ts, *a));
            }
            format!("{s})")
        }
    }
}

fn formula(q: &NraQuery) -> String {
    show(&q.terms, q.formula)
}

/// The formula for one block that checks the given rvalue.
fn of_rvalue(rv: Rvalue) -> String {
    let b = body(
        vec![block(
            0,
            vec![Stmt::Assign(VarId(1), rv), Stmt::Check(ObligationId(0))],
            Terminator::Return(None),
        )],
        vec![double(0), temp()],
        v(1),
    );
    formula(&encode_nra(&b, ObligationId(0)))
}

#[test]
fn functions_have_their_terms() {
    let one = |name: &str| of_rvalue(math(name, vec![v(0)]));
    let two = |name: &str| of_rvalue(math(name, vec![v(0), Operand::int_const(2)]));
    assert_eq!(one("sin"), "(Equal (Sine v0#0) 0)");
    assert_eq!(one("sqrt"), "(Equal (Sqrt v0#0) 0)");
    assert_eq!(one("abs"), "(Equal (Ite (Lt v0#0 0) (Neg v0#0) v0#0) 0)");
    assert_eq!(one("ceil"), "(Equal (Neg (ToReal (ToInteger (Neg v0#0)))) 0)");
    assert_eq!(one("floor"), "(Equal (ToReal (ToInteger v0#0)) 0)");
    assert_eq!(one("round"), "(Equal (ToReal (ToInteger (Add v0#0 0.5))) 0)");
    assert_eq!(one("toRadians"), "(Equal (Mult (Division (Pi) 180) v0#0) 0)");
    assert_eq!(one("toDegrees"), "(Equal (Mult (Division 180 (Pi)) v0#0) 0)");
    assert_eq!(
        one("sinh"),
        "(Equal (Division (Sub (Exponential v0#0) (Exponential (Neg v0#0))) 2) 0)"
    );
    assert_eq!(
        one("tanh"),
        "(Equal (Division (Sub (Exponential v0#0) (Exponential (Neg v0#0))) (Add (Exponential v0#0) (Exponential (Neg v0#0)))) 0)"
    );
    assert_eq!(two("atan2"), "(Equal (Arctangent (Division v0#0 2)) 0)");
    assert_eq!(two("max"), "(Equal (Ite (Geq v0#0 2) v0#0 2) 0)");
    // What has no term is a new symbol.
    assert_eq!(one("log"), "(Equal _log#2 0)");
    assert_eq!(two("pow"), "(Equal _pow#2 0)");
    assert_eq!(one("nextUp"), "(Equal _unknown_call#2 0)");
}

#[test]
fn operators_have_their_terms() {
    let c = Operand::Const(Const::Double(0.25f64.to_bits()));
    assert_eq!(
        of_rvalue(Rvalue::Bin(BinOp::Le, v(0), c)),
        "(Equal (Ite (Leq v0#0 0.25) 1 0) 0)"
    );
    assert_eq!(
        of_rvalue(Rvalue::Bin(BinOp::Rem, v(0), Operand::int_const(3))),
        "(Equal (Sub v0#0 (Mult (ToReal (ToInteger (Division v0#0 3))) 3)) 0)"
    );
    assert_eq!(of_rvalue(Rvalue::Bin(BinOp::And, v(0), v(0))), "(Equal 0 0)");
    assert_eq!(
        of_rvalue(Rvalue::Cmp(v(0), Operand::int_const(1))),
        "(Equal (Ite (Lt v0#0 1) -1 (Ite (Equal v0#0 1) 0 1)) 0)"
    );
    assert_eq!(of_rvalue(Rvalue::Nondet(Ty::Double, None)), "(Equal _fresh#2 0)");
    // What is not finite is zero.
    let nan = Operand::Const(Const::Double(f64::NAN.to_bits()));
    assert_eq!(of_rvalue(Rvalue::Use(nan)), "(Equal 0 0)");
    let inf = Operand::Const(Const::Float(f32::INFINITY.to_bits()));
    assert_eq!(of_rvalue(Rvalue::Use(inf)), "(Equal 0 0)");
    let max = Operand::Const(Const::Float(f32::MAX.to_bits()));
    assert_eq!(of_rvalue(Rvalue::Use(max)), format!("(Equal {:?} 0)", f32::MAX));
}

#[test]
fn every_path_to_the_check_is_a_disjunct() {
    // if (v0) {} else {}; check v0
    let b = body(
        vec![
            block(
                0,
                vec![Stmt::Assume(v(0))],
                Terminator::Branch {
                    cond: v(0),
                    then_: BlockId(1),
                    else_: BlockId(2),
                },
            ),
            block(1, vec![], Terminator::Goto(BlockId(3))),
            block(2, vec![], Terminator::Goto(BlockId(3))),
            block(3, vec![Stmt::Check(ObligationId(0))], Terminator::Return(None)),
        ],
        vec![double(0)],
        v(0),
    );
    assert_eq!(
        formula(&encode_nra(&b, ObligationId(0))),
        "(Or (And (Not (Equal v0#0 0)) (Equal v0#0 0) (Equal v0#0 0)) (And (Not (Equal v0#0 0)) (Not (Equal v0#0 0)) (Equal v0#0 0)))"
    );
    // Without a check nothing fails.
    let mut b = b;
    b.blocks[3].stmts.clear();
    assert_eq!(formula(&encode_nra(&b, ObligationId(0))), "(False)");
}

#[test]
fn the_default_of_a_switch_excludes_its_cases() {
    let b = body(
        vec![
            block(
                0,
                vec![],
                Terminator::Switch {
                    value: v(0),
                    cases: vec![(4, BlockId(1)), (5, BlockId(1))],
                    default: BlockId(2),
                },
            ),
            block(1, vec![], Terminator::Return(None)),
            block(2, vec![Stmt::Check(ObligationId(0))], Terminator::Return(None)),
        ],
        vec![double(0)],
        v(0),
    );
    assert_eq!(
        formula(&encode_nra(&b, ObligationId(0))),
        "(And (Not (Equal v0#0 4)) (Not (Equal v0#0 5)) (Equal v0#0 0))"
    );
}

#[test]
fn a_path_that_is_too_long_is_left_out() {
    // A loop around the check: the check is on the way, so the path ends there; a
    // loop that never meets it gives nothing.
    let b = body(
        vec![block(0, vec![], Terminator::Goto(BlockId(0)))],
        vec![double(0)],
        v(0),
    );
    assert_eq!(formula(&encode_nra(&b, ObligationId(0))), "(False)");
}

#[test]
fn a_model_gives_the_choices_of_the_parameters() {
    let b = body(
        vec![block(0, vec![], Terminator::Return(None))],
        vec![
            VarInfo {
                kind: VarKind::Local(0),
                ty: Ty::Float,
            },
            double(1),
            double(2),
            VarInfo {
                kind: VarKind::Local(3),
                ty: Ty::Int,
            },
            temp(),
        ],
        v(0),
    );
    let value = |x: f64| ModelValue {
        double_bits: x.to_bits(),
        float_bits: (x as f32).to_bits(),
        long: x as i64,
        int: x as i32,
    };
    let e = NraEngine::new();
    let model = vec![value(1.5), value(2.5), value(3.5), value(4.5)];
    let w = e.finish(&b, &NraResult::Sat(model)).unwrap();
    // The second place of a wide parameter is skipped.
    assert_eq!(w.entries.len(), 3);
    assert!(matches!(w.entries[0].value, NondetValue::Int(n) if n as u32 == 1.5f32.to_bits()));
    assert_eq!(w.entries[0].nondet_method, "nondetFloat");
    assert!(matches!(w.entries[1].value, NondetValue::Long(n) if n as u64 == 2.5f64.to_bits()));
    assert_eq!(w.entries[1].nondet_method, "nondetDouble");
    assert!(matches!(w.entries[2].value, NondetValue::Int(4)));
    assert!(e.finish(&b, &NraResult::Unsat).is_none());
    assert!(e.finish(&b, &NraResult::Unknown).is_none());
}

#[test]
fn only_suitable_obligations_are_asked_about() {
    let models = Models {
        calls: vec![],
        enum_ordinal_field: "$$ordinal".into(),
        assertion_error: "java/lang/AssertionError".into(),
        exceptions: vec![],
        concrete_math: vec![],
        str_owners: vec![],
        transcendental: vec![("java/lang/Math".into(), "sin".into())],
    };
    let o = ObligationRef {
        method: key(),
        id: ObligationId(0),
    };
    let mut p = Program::new();
    p.put_body(body(
        vec![block(
            0,
            vec![Stmt::Assign(VarId(0), math("sin", vec![v(0)]))],
            Terminator::Return(None),
        )],
        vec![double(0)],
        v(0),
    ));
    let mut e = NraEngine::new();
    assert_eq!(e.id(), EngineId("nra"));
    assert_eq!(e.direction(), Direction::Over);
    assert!(e.available());
    assert!(e.question(&p, &models, &o).is_some());
    // With a value from elsewhere it is not.
    p.bodies[0].blocks[0]
        .stmts
        .push(Stmt::Assign(VarId(0), Rvalue::Havoc(Ty::Double)));
    assert!(e.question(&p, &models, &o).is_none());
    assert!(!e.begin(&vec![]));
    assert!(!e.begin(&vec![o]));
}
