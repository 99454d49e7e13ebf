//! The Horn-clause engine: what it asks the solver, and what it makes of the
//! answer. A Horn solver answers `sat` for a safe program and `unsat` for an
//! unsafe one.

use roast::chc::{encode_chc, parse_chc_answer, ChcAnswer, ChcEngine, ChcStart};
use roast::engine::{Direction, EngineId, ObligationRef};
use roast::ir::{
    BinOp, Block, BlockId, Body, MethodKey, Obligation, ObligationId, ObligationKind, Operand,
    Rvalue, Stmt, Terminator, Ty, VarId, VarInfo, VarKind,
};
use roast::program::Program;

fn key() -> MethodKey {
    MethodKey {
        class: "Main".into(),
        name: "main".into(),
        desc: "([Ljava/lang/String;)V".into(),
    }
}

fn int_var(slot: u16) -> VarInfo {
    VarInfo {
        kind: VarKind::Local(slot),
        ty: Ty::Int,
    }
}

/// Build a single-block body with the given statements and one obligation
/// whose safety condition is `cond`.
fn program_with(stmts: Vec<Stmt>, n_vars: usize, cond: Operand) -> Program {
    let body = Body {
        key: key(),
        entry: BlockId(0),
        blocks: vec![Block {
            id: BlockId(0),
            bytecode_offset: 0,
            stmts,
            term: Terminator::Return(None),
            exceptional: vec![],
        }],
        vars: (0..n_vars).map(|i| int_var(i as u16)).collect(),
        obligations: vec![Obligation {
            id: ObligationId(0),
            kind: ObligationKind::Assertion,
            cond,
            bytecode_offset: 0,
            line: None,
            guarded: false,
        }],
    };
    let mut prog = Program::new();
    prog.put_body(body);
    prog.entry = Some(key());
    prog
}

/// `v0` unconstrained; `assume(v0 >= 4)`; `assert(v0 > 3)`.
/// Safe: the assumption implies the assertion.
fn safe_program() -> Program {
    program_with(
        vec![
            Stmt::Assign(
                VarId(1),
                Rvalue::Bin(BinOp::Ge, Operand::Var(VarId(0)), Operand::int_const(4)),
            ),
            Stmt::Assume(Operand::Var(VarId(1))),
            Stmt::Assign(
                VarId(2),
                Rvalue::Bin(BinOp::Gt, Operand::Var(VarId(0)), Operand::int_const(3)),
            ),
            Stmt::Check(ObligationId(0)),
        ],
        3,
        Operand::Var(VarId(2)),
    )
}

/// `v0` unconstrained; `assert(v0 > 3)`. Unsafe: nothing rules out `v0 <= 3`.
fn unsafe_program() -> Program {
    program_with(
        vec![
            Stmt::Assign(
                VarId(1),
                Rvalue::Bin(BinOp::Gt, Operand::Var(VarId(0)), Operand::int_const(3)),
            ),
            Stmt::Check(ObligationId(0)),
        ],
        2,
        Operand::Var(VarId(1)),
    )
}

/// Same as `safe_program`, but the unconstrained value comes from an explicit
/// `Rvalue::Nondet` rather than an unwritten variable.
///
/// Its symbol must be bound in the script: solvers drop a clause with an unbound
/// symbol and print a verdict anyway.
fn safe_program_with_nondet() -> Program {
    program_with(
        vec![
            Stmt::Assign(VarId(0), Rvalue::Nondet(Ty::Int, None)),
            Stmt::Assign(
                VarId(1),
                Rvalue::Bin(BinOp::Ge, Operand::Var(VarId(0)), Operand::int_const(4)),
            ),
            Stmt::Assume(Operand::Var(VarId(1))),
            Stmt::Assign(
                VarId(2),
                Rvalue::Bin(BinOp::Gt, Operand::Var(VarId(0)), Operand::int_const(3)),
            ),
            Stmt::Check(ObligationId(0)),
        ],
        3,
        Operand::Var(VarId(2)),
    )
}

fn unsafe_program_with_nondet() -> Program {
    program_with(
        vec![
            Stmt::Assign(VarId(0), Rvalue::Nondet(Ty::Int, None)),
            Stmt::Assign(
                VarId(1),
                Rvalue::Bin(BinOp::Gt, Operand::Var(VarId(0)), Operand::int_const(3)),
            ),
            Stmt::Check(ObligationId(0)),
        ],
        2,
        Operand::Var(VarId(1)),
    )
}


fn open() -> Vec<ObligationRef> {
    vec![ObligationRef {
        method: key(),
        id: ObligationId(0),
    }]
}

/// Run the engine with a solver that answers so: is the obligation discharged?
fn discharged(prog: &Program, answer: &str) -> bool {
    let mut engine = ChcEngine::new("z3");
    match engine.begin(prog, &open()) {
        ChcStart::Solve { script, obligations } => {
            assert!(script.contains("(check-sat)"));
            let done = engine.finish(&key(), &obligations, answer);
            done.len() == 1 && done[0].id == ObligationId(0)
        }
        ChcStart::End(_) => panic!("there is an open obligation"),
    }
}

#[test]
fn sat_means_safe_and_unsat_means_unsafe() {
    assert_eq!(parse_chc_answer("sat\n"), ChcAnswer::Safe);
    assert_eq!(parse_chc_answer("unsat\n"), ChcAnswer::Unsafe);
}

#[test]
fn an_error_line_voids_the_answer() {
    let out = "(error \"line 6 column 73: unknown constant bv_fresh0\")\nsat\n";
    assert_eq!(parse_chc_answer(out), ChcAnswer::NoAnswer);
}

#[test]
fn unknown_and_junk_are_not_answers() {
    assert_eq!(parse_chc_answer("unknown\n"), ChcAnswer::NoAnswer);
    assert_eq!(parse_chc_answer(""), ChcAnswer::NoAnswer);
    assert_eq!(parse_chc_answer("timeout\n"), ChcAnswer::NoAnswer);
}

#[test]
fn trailing_blank_lines_do_not_hide_the_verdict() {
    assert_eq!(parse_chc_answer("sat\n\n  \n"), ChcAnswer::Safe);
}

#[test]
fn a_safe_program_is_discharged() {
    assert!(discharged(&safe_program(), "sat\n"));
}

#[test]
fn an_unsafe_program_is_not_discharged() {
    assert!(!discharged(&unsafe_program(), "unsat\n"));
}

#[test]
fn a_nondet_input_does_not_break_the_script() {
    let prog = safe_program_with_nondet();
    let script = encode_chc(&prog.bodies[0], &[ObligationId(0)]);
    // Every mention of the fresh symbol stands under a quantifier that binds it.
    assert!(script.contains("chc_"));
    for line in script.lines() {
        if line.contains("chc_") {
            assert!(line.contains("forall"), "{line}");
        }
    }
    assert!(discharged(&prog, "sat\n"));
}

#[test]
fn a_nondet_input_does_not_produce_a_spurious_proof() {
    assert!(!discharged(&unsafe_program_with_nondet(), "unsat\n"));
    let dropped = "(error \"line 6 column 73: unknown constant chc_0\")\nsat\n";
    assert!(!discharged(&unsafe_program_with_nondet(), dropped));
}

#[test]
fn the_engine_declares_and_publishes_as_over_approximating() {
    let engine = ChcEngine::new("z3");
    assert_eq!(engine.direction(), Direction::Over);
    assert_eq!(engine.id(), EngineId("chc"));
}
