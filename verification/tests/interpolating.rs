//! Interpolation and what is proved with it.

use roast::engine::{Direction, EngineId, ObligationRef, Progress, Status};
use roast::imc::{
    collect_free_vars, rename_post_to_vars, rename_var_in_sexp, rename_vars_to_post, start_imc,
    ImcEngine, ImcNext, ImcStart,
};
use roast::interpolation::{
    atoms_of, encode_body_lia, extract_predicates_from_interpolant, parse_interpolant_response,
    solver_lines, InterpolationResult, InterpolationSolver,
};
use roast::ir::{
    BinOp, Block, BlockId, Body, MethodKey, Obligation, ObligationId, ObligationKind, Operand, Rvalue,
    Stmt, Terminator, Ty, VarId, VarInfo, VarKind,
};
use roast::predicate::{
    parse_predicate_atom, predicates_from_interpolant, CompOp, Predicate, PredicateOperand,
};
use roast::program::Program;

fn key() -> MethodKey {
    MethodKey {
        class: "T".into(),
        name: "t".into(),
        desc: "()V".into(),
    }
}

/// v1 = v0 + 1; check v1
fn body() -> Body {
    Body {
        key: key(),
        entry: BlockId(0),
        blocks: vec![Block {
            id: BlockId(0),
            bytecode_offset: 0,
            stmts: vec![
                Stmt::Assign(
                    VarId(1),
                    Rvalue::Bin(BinOp::Add, Operand::Var(VarId(0)), Operand::int_const(1)),
                ),
                Stmt::Check(ObligationId(0)),
            ],
            term: Terminator::Return(None),
            exceptional: vec![],
        }],
        vars: vec![0, 1]
            .into_iter()
            .map(|i| VarInfo {
                kind: VarKind::Local(i),
                ty: Ty::Int,
            })
            .collect(),
        obligations: vec![Obligation {
            id: ObligationId(0),
            kind: ObligationKind::Assertion,
            cond: Operand::Var(VarId(1)),
            bytecode_offset: 0,
            line: None,
            guarded: false,
        }],
    }
}

fn lines(v: &[&str]) -> Vec<String> {
    v.iter().map(|s| s.to_string()).collect()
}

fn interpolant(r: InterpolationResult) -> Option<String> {
    match r {
        InterpolationResult::Interpolant(s) => Some(s),
        _ => None,
    }
}

#[test]
fn replies_are_understood() {
    assert!(matches!(
        parse_interpolant_response(&lines(&["sat"])),
        InterpolationResult::Sat
    ));
    assert!(matches!(
        parse_interpolant_response(&lines(&[])),
        InterpolationResult::Unsupported
    ));
    assert!(matches!(
        parse_interpolant_response(&lines(&["unknown"])),
        InterpolationResult::Unsupported
    ));
    assert_eq!(
        interpolant(parse_interpolant_response(&lines(&["unsat", "(< v0 5)"]))),
        Some("(< v0 5)".into())
    );
    assert_eq!(solver_lines(" unsat \n(x)\n"), lines(&["unsat", "(x)"]));
}

#[test]
fn scripts_name_the_two_parts() {
    let z3 = InterpolationSolver::Z3("z3".into());
    let call = z3.query("(declare-const v0 Int)", "A", "B");
    assert_eq!(call.binary, "z3");
    assert_eq!(call.args, lines(&["-in", "-smt2"]));
    assert!(call.script.contains("(assert (! A :named partA))"));
    assert!(call.script.contains("(assert (! B :named partB))"));
    let jar = InterpolationSolver::SmtInterpol("s.jar".into());
    let call = jar.query("", "A", "B");
    assert_eq!(call.binary, "java");
    assert_eq!(call.args, lines(&["-jar", "s.jar"]));
    assert!(matches!(z3.interpolate(&None), InterpolationResult::Unsupported));
}

#[test]
fn a_path_has_an_interpolant_at_each_cut() {
    let s = InterpolationSolver::Z3("z3".into());
    let parts = lines(&["a", "b", "c"]);
    let yes = |t: &str| InterpolationResult::Interpolant(t.into());
    assert_eq!(
        s.cut(&parts, &vec![]),
        ("a".to_string(), "(and b c)".to_string())
    );
    assert_eq!(
        s.cut(&parts, &vec![yes("x")]),
        ("(and x b)".to_string(), "c".to_string())
    );
    assert!(s.sequence_interpolants(&parts, &vec![yes("x")]).is_none());
    assert_eq!(
        s.sequence_interpolants(&parts, &vec![yes("x"), yes("y")]),
        Some(Ok(lines(&["x", "y"])))
    );
    assert!(matches!(
        s.sequence_interpolants(&parts, &vec![InterpolationResult::Sat]),
        Some(Err(_))
    ));
}

#[test]
fn a_body_is_encoded_over_the_integers() {
    let e = encode_body_lia(&body(), &[ObligationId(0)], "");
    assert_eq!(e.n_vars, 2);
    assert!(e.declarations.contains("v0"));
    assert!(e.declarations.contains("v1"));
    assert_eq!(e.error_formulas.len(), 1);
    assert!(e.error_formulas[0].1.contains("(+ v0 1)"));
}

#[test]
fn atoms_are_the_comparisons_of_an_interpolant() {
    let a = atoms_of("(and (< v0 5) (or (= v1 2) (not (>= v0 1))))").unwrap();
    assert_eq!(a, lines(&["(< v0 5)", "(= v1 2)", "(>= v0 1)"]));
    assert!(atoms_of("").unwrap().is_empty());
    assert_eq!(
        extract_predicates_from_interpolant("(<= v0 5)"),
        lines(&["(<= v0 5)"])
    );
    let p = predicates_from_interpolant("(and (< v0 5) (= v1 (+ v0 1)))");
    assert_eq!(
        p,
        vec![Predicate {
            lhs: PredicateOperand::Var(VarId(0)),
            op: CompOp::Lt,
            rhs: PredicateOperand::Const(5),
        }]
    );
    assert_eq!(parse_predicate_atom("(~ v0 5)"), None);
    assert_eq!(parse_predicate_atom("v0"), None);
    // What is written is read back.
    assert_eq!(parse_predicate_atom(&p[0].to_smt2()), Some(p[0]));
    let many = predicates_from_interpolant("(and (< v0 5) (or (= 7 v2) (not (>= v3 v1))))");
    assert_eq!(many.len(), 3);
    for q in &many {
        assert_eq!(predicates_from_interpolant(&q.to_smt2()), vec![*q]);
    }
}

#[test]
fn variables_are_renamed_as_whole_words() {
    assert_eq!(rename_var_in_sexp("(< v1 v10)", "v1", "w"), "(< w v10)");
    // What is renamed need not be a word itself.
    assert_eq!(rename_var_in_sexp("(< v1 v2 v1 v20)", "v1 v2", "w"), "(< w v1 v20)");
    assert_eq!(rename_var_in_sexp("((+ v1))", "(+ v1)", "w"), "(w)");
    assert_eq!(rename_var_in_sexp("ab", "", "w"), "ab");
    let post = rename_vars_to_post("(< v0 v1)", 2);
    assert_ne!(post, "(< v0 v1)");
    assert_eq!(rename_post_to_vars(&post, 2), "(< v0 v1)");
    assert_eq!(
        collect_free_vars("(< nd0 (+ nd0 hv3))", "(declare-const hv3 Int)"),
        lines(&["nd0"])
    );
}

#[test]
fn an_attempt_goes_from_answer_to_answer() {
    let run = start_imc(&body(), ObligationId(0)).unwrap();
    assert_eq!(run.reachable, "true");
    assert_eq!(run.parts().0, run.transition);
    assert!(matches!(
        run.answered(&InterpolationResult::Interpolant("(< v0 1)".into())),
        ImcNext::Proved
    ));
    assert!(matches!(
        run.answered(&InterpolationResult::Sat),
        ImcNext::Inconclusive
    ));
    assert!(matches!(
        run.answered(&InterpolationResult::Unsupported),
        ImcNext::Failed(e) if e == "interpolation not supported"
    ));
    let mut run = run;
    run.reachable = "(< v0 3)".into();
    assert!(run.parts().0.starts_with("(and (< v0 3) "));
    match run.answered(&InterpolationResult::Interpolant("(< v0 1)".into())) {
        ImcNext::Check {
            script,
            interpolant,
        } => {
            assert!(script.contains("(assert (and (< v0 1) (not (< v0 3))))"));
            assert!(matches!(
                run.checked(&interpolant, &Some(lines(&["unsat"]))),
                ImcNext::Proved
            ));
            assert!(matches!(
                run.checked(&interpolant, &Some(lines(&["sat"]))),
                ImcNext::Interpolate
            ));
        }
        _ => panic!("the interpolant is not known to be reachable"),
    }
    assert_eq!(run.reachable, "(or (< v0 3) (< v0 1))");
    assert_eq!(run.iteration, 1);
    // An obligation that is never checked holds.
    let mut b = body();
    b.blocks[0].stmts.pop();
    assert!(start_imc(&b, ObligationId(0)).is_none());
}

#[test]
fn the_engine_tries_what_is_bounded() {
    let mut p = Program::new();
    p.entry = Some(key());
    p.put_body(body());
    let open = || {
        vec![(
            ObligationRef {
                method: key(),
                id: ObligationId(0),
            },
            Status::Bounded { k: 2 },
        )]
    };
    let mut e = ImcEngine::new(Some(InterpolationSolver::Z3("z3".into())));
    assert_eq!(e.id(), EngineId("imc"));
    assert_eq!(e.direction(), Direction::Over);
    assert!(e.available());
    assert!(matches!(e.begin(&p, &open()), ImcStart::Try(v) if v.len() == 1));
    assert!(matches!(e.begin(&p, &open()), ImcStart::End(Progress::Exhausted)));
    let mut e = ImcEngine::new(None);
    assert!(!e.available());
    assert!(matches!(e.begin(&p, &open()), ImcStart::End(Progress::Exhausted)));
}
