//! Bodies, programs, models and descriptors.

use roast::body_analysis::{
    body_has_loops, body_uses_havoced_ops, body_uses_transcendental_math, body_uses_wide_types,
    find_defining_bin, negate_binop,
};
use roast::body_shape::analyze;
use roast::desc::{
    arg_width_from_desc, field_elem_width, is_ref_desc, parse_desc, parse_param_slots,
    ty_of_field_desc,
};
use roast::ir::{
    BinOp, Block, BlockId, Body, FieldKey, MethodKey, ObligationKind, Operand, Rvalue, Stmt,
    Terminator, Ty, VarId, VarInfo, VarKind,
};
use roast::models::{CallEntry, CallModel, Models};
use roast::program::Program;
use roast::scan::{split_sexp_args, to_text, trimmed, words_of};
use roast::text::{contains, dec_u64, hex_u64, make_join, numbered, starts_with};

fn key(class: &str, name: &str) -> MethodKey {
    MethodKey {
        class: class.into(),
        name: name.into(),
        desc: "()V".into(),
    }
}

fn block(id: u32, stmts: Vec<Stmt>, term: Terminator) -> Block {
    Block {
        id: BlockId(id),
        bytecode_offset: 0,
        stmts,
        term,
        exceptional: vec![],
    }
}

fn body(blocks: Vec<Block>, tys: &[Ty]) -> Body {
    Body {
        key: key("T", "t"),
        entry: BlockId(0),
        blocks,
        vars: tys
            .iter()
            .map(|ty| VarInfo {
                kind: VarKind::Temp,
                ty: *ty,
            })
            .collect(),
        obligations: vec![],
    }
}

fn one(s: Stmt) -> Body {
    body(vec![block(0, vec![s], Terminator::Return(None))], &[Ty::Int])
}

fn models() -> Models {
    Models {
        calls: vec![
            CallEntry {
                class: "V".into(),
                name: "any".into(),
                desc: None,
                model: CallModel::Nondet(Some(Ty::Int)),
            },
            CallEntry {
                class: "V".into(),
                name: "assume".into(),
                desc: Some("(Z)V".into()),
                model: CallModel::Assume,
            },
        ],
        enum_ordinal_field: "$$ordinal".into(),
        assertion_error: "java/lang/AssertionError".into(),
        exceptions: vec![(ObligationKind::NullDeref, "java/lang/NullPointerException".into())],
        concrete_math: vec![("java/lang/Math".into(), "abs".into())],
        str_owners: vec!["java/lang/String".into()],
        transcendental: vec![("java/lang/Math".into(), "sin".into())],
    }
}

fn v(i: u32) -> Operand {
    Operand::Var(VarId(i))
}

fn set(rv: Rvalue) -> Stmt {
    Stmt::Assign(VarId(0), rv)
}

fn call(class: &str, name: &str) -> Rvalue {
    Rvalue::Call {
        target: key(class, name),
        args: vec![],
        is_virtual: false,
    }
}

#[test]
fn features_of_a_body_are_found() {
    assert!(body_uses_havoced_ops(&one(set(Rvalue::Havoc(Ty::Int)))));
    assert!(!body_uses_havoced_ops(&one(set(Rvalue::Use(v(0))))));
    assert!(body_uses_wide_types(&body(vec![], &[Ty::Int, Ty::Long])));
    assert!(!body_uses_wide_types(&body(vec![], &[Ty::Int])));
    let m = models();
    assert!(body_uses_transcendental_math(&one(set(call("java/lang/Math", "sin"))), &m));
    assert!(!body_uses_transcendental_math(&one(set(call("java/lang/Math", "abs"))), &m));
    let looping = body(vec![block(0, vec![], Terminator::Goto(BlockId(0)))], &[]);
    assert!(body_has_loops(&looping));
    assert!(!body_has_loops(&one(Stmt::Nop)));
    let shape = analyze(
        &one(set(Rvalue::Bin(BinOp::Mul, v(0), v(0)))),
        &m,
    );
    assert!(shape.has_nonlinear_int && !shape.has_heap_ops && !shape.has_loops);
    assert_eq!((shape.num_vars, shape.num_blocks), (1, 1));
    assert!(shape.suitable_for_proving() && !shape.suitable_for_nra());
    let shape = analyze(&one(set(call("java/lang/Math", "sin"))), &m);
    assert!(shape.has_transcendental_math && shape.suitable_for_nra());
    let shape = analyze(&one(set(call("java/lang/String", "trim"))), &m);
    assert!(shape.has_string_ops);
    let shape = analyze(
        &one(Stmt::ArrayStore {
            arr: v(0),
            idx: v(0),
            val: v(0),
        }),
        &m,
    );
    assert!(shape.has_array_ops);
    let field = FieldKey {
        class: "T".into(),
        name: "f".into(),
        desc: "I".into(),
    };
    let put = one(Stmt::PutStatic(field, v(0)));
    assert!(analyze(&put, &m).has_heap_ops);
    assert!(body_uses_havoced_ops(&put));
}

#[test]
fn the_last_definition_counts() {
    let b = body(
        vec![block(
            0,
            vec![
                set(Rvalue::Bin(BinOp::Lt, v(0), v(0))),
                set(Rvalue::Bin(BinOp::Gt, v(0), v(0))),
                Stmt::Nop,
            ],
            Terminator::Return(None),
        )],
        &[Ty::Int],
    );
    assert!(matches!(
        find_defining_bin(&b, BlockId(0), VarId(0)),
        Some((BinOp::Gt, _, _))
    ));
    assert!(find_defining_bin(&b, BlockId(0), VarId(1)).is_none());
    assert_eq!(negate_binop(BinOp::Lt), BinOp::Ge);
    assert_eq!(negate_binop(BinOp::Eq), BinOp::Ne);
    assert_eq!(negate_binop(BinOp::Add), BinOp::Add);
}

#[test]
fn bodies_are_found_by_their_names() {
    let mut p = Program::new();
    p.put_body(one(Stmt::Nop));
    assert!(p.body(&key("T", "t")).is_some());
    assert!(p.body(&key("T", "u")).is_none());
    assert!(p.is_program_class("T"));
    assert!(!p.is_program_class("U"));
    // The one stored last counts.
    p.put_body(body(vec![], &[]));
    assert_eq!(p.bodies.len(), 1);
    assert!(p.body(&key("T", "t")).unwrap().blocks.is_empty());
}

#[test]
fn subtypes_follow_classes_and_interfaces() {
    let mut p = Program::new();
    p.set_super("A", "B");
    p.set_super("B", "C");
    p.set_interfaces("B", &vec!["I".to_string()]);
    p.set_interfaces("I", &vec!["J".to_string()]);
    assert!(p.is_subtype("A", "A"));
    assert!(p.is_subtype("A", "C"));
    assert!(p.is_subtype("A", "J"));
    assert!(!p.is_subtype("C", "A"));
    p.set_super("B", "D");
    assert!(!p.is_subtype("A", "C"));
    assert!(p.is_subtype("A", "D"));
}

#[test]
fn calls_and_fields_are_resolved_by_the_tables() {
    let mut p = Program::new();
    p.dispatch.push((key("A", "f"), vec![key("B", "f"), key("C", "f")]));
    let t = p.devirtualise(&key("A", "f"));
    assert_eq!(
        t.iter().map(|k| k.class.as_str()).collect::<Vec<&str>>(),
        vec!["B", "C"]
    );
    assert!(p.devirtualise(&key("A", "g")).is_empty());
    let f = FieldKey {
        class: "A".into(),
        name: "x".into(),
        desc: "I".into(),
    };
    assert_eq!(p.resolve_field_class(&f), "A");
}

#[test]
fn models_are_looked_up_by_class_name_and_descriptor() {
    let m = models();
    assert!(matches!(m.model_for("V", "any", "()I"), CallModel::Nondet(Some(Ty::Int))));
    assert!(matches!(m.model_for("V", "assume", "(Z)V"), CallModel::Assume));
    assert!(!matches!(m.model_for("V", "assume", "()V"), CallModel::Assume));
    assert_eq!(
        m.exception_class(ObligationKind::NullDeref),
        Some("java/lang/NullPointerException")
    );
    assert_eq!(m.exception_class(ObligationKind::DivByZero), None);
    assert!(m.is_concrete_math_call("java/lang/Math", "abs"));
    assert!(m.is_str_owner("java/lang/String"));
    assert!(!m.is_transcendental_math("java/lang/Math", "abs"));
}

#[test]
fn descriptors_are_read() {
    assert_eq!(parse_desc("(IJLjava/lang/String;[I)Z"), (4, Some(Ty::Int)));
    assert_eq!(parse_desc("()V"), (0, None));
    assert_eq!(arg_width_from_desc("(IJ)V", 0), 32);
    assert_eq!(arg_width_from_desc("(IJ)V", 1), 64);
    assert_eq!(field_elem_width("D"), 64);
    assert_eq!(field_elem_width("I"), 32);
    assert!(is_ref_desc("[I") && is_ref_desc("La/B;") && !is_ref_desc("I"));
    assert_eq!(ty_of_field_desc("J"), Ty::Long);
    // A wide parameter takes two slots.
    assert_eq!(
        parse_param_slots("(JLa/B;I)V"),
        vec![(2usize, "a/B".to_string())]
    );
}

#[test]
fn text_is_written_and_cut_up() {
    assert_eq!(dec_u64(0), "0");
    assert_eq!(dec_u64(9070), "9070");
    assert_eq!(hex_u64(0xca, 2), "ca");
    assert_eq!(hex_u64(0xabc, 2), "bc");
    assert_eq!(numbered("v", 12), "v12");
    let parts = vec!["a".to_string(), "b".to_string()];
    assert_eq!(make_join(&parts, ", "), "a, b");
    assert!(starts_with("abc", "ab") && !starts_with("abc", "bc"));
    assert!(contains("abc", "bc") && !contains("abc", "ac"));
    let chars: Vec<char> = " (a b) c ".chars().collect();
    assert_eq!(to_text(&trimmed(&chars)), "(a b) c");
    let args: Vec<String> = split_sexp_args(&chars).iter().map(|x| to_text(x)).collect();
    assert_eq!(args, vec!["(a b)", "c"]);
    let words: Vec<String> = words_of(&chars).iter().map(|x| to_text(x)).collect();
    assert_eq!(words, vec!["(a", "b)", "c"]);
}
