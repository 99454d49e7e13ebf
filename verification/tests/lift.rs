//! Lifting of bytecode.

use roast::classfile::{ClassFile, Code, Cp, Handler, MemberRef, Method};
use roast::ir::{
    BinOp, BlockId, Body, Const, ObligationKind, Operand, Rvalue, Stmt, Terminator, Ty, VarId,
    VarKind,
};
use roast::lift::decode::decode;
use roast::lift::method::{lift_class, lift_method};
use roast::models::{CallEntry, CallModel, Models};
use roast::program::Program;

fn models() -> Models {
    Models {
        calls: vec![
            CallEntry {
                class: "Verifier".into(),
                name: "assume".into(),
                desc: None,
                model: CallModel::Assume,
            },
            CallEntry {
                class: "Verifier".into(),
                name: "nondetInt".into(),
                desc: None,
                model: CallModel::Nondet(Some(Ty::Int)),
            },
            CallEntry {
                class: "java/lang/String".into(),
                name: "trim".into(),
                desc: Some("()Ljava/lang/String;".into()),
                model: CallModel::StrCall(Some(Ty::Str)),
            },
        ],
        enum_ordinal_field: "$$ordinal".into(),
        assertion_error: "java/lang/AssertionError".into(),
        exceptions: vec![],
        concrete_math: vec![],
        str_owners: vec![],
        transcendental: vec![],
    }
}

fn member(owner: &str, name: &str, desc: &str) -> Cp {
    Cp::Member(MemberRef {
        owner: owner.into(),
        name: name.into(),
        desc: desc.into(),
    })
}

fn class_with(bytes: Vec<u8>, handlers: Vec<Handler>, lines: Vec<(u16, u16)>, pool: Vec<Cp>) -> ClassFile {
    ClassFile {
        this_class: "T".into(),
        super_class: Some("java/lang/Object".into()),
        interfaces: vec!["I".into()],
        methods: vec![Method {
            name: "m".into(),
            desc: "()V".into(),
            code: Some(Code {
                bytes,
                handlers,
                lines,
            }),
        }],
        pool,
    }
}

fn lift(bytes: Vec<u8>) -> Body {
    lift_method(&class_with(bytes, vec![], vec![], vec![]), &models(), "m", "()V").unwrap()
}

fn lift_pool(bytes: Vec<u8>, pool: Vec<Cp>) -> Body {
    lift_method(&class_with(bytes, vec![], vec![], pool), &models(), "m", "()V").unwrap()
}

fn reason(b: &Body, i: usize) -> String {
    match &b.blocks[i].term {
        Terminator::Diverge(s) => s.clone(),
        t => panic!("expected a divergence, got {t:?}"),
    }
}

fn is_var(o: &Operand, i: u32) -> bool {
    matches!(o, Operand::Var(v) if *v == VarId(i))
}

#[test]
fn a_sum_of_locals_is_assigned_and_returned() {
    // iload_0, iload_1, iadd, ireturn
    let b = lift(vec![0x1a, 0x1b, 0x60, 0xac]);
    assert_eq!(b.blocks.len(), 1);
    assert_eq!(b.vars.len(), 3);
    assert_eq!(b.vars[0].kind, VarKind::Local(0));
    assert_eq!(b.vars[1].kind, VarKind::Local(1));
    assert_eq!(b.vars[2].kind, VarKind::Temp);
    assert_eq!(b.vars[2].ty, Ty::Int);
    match &b.blocks[0].stmts[0] {
        Stmt::Assign(v, Rvalue::Bin(BinOp::Add, x, y)) => {
            assert_eq!(*v, VarId(2));
            assert!(is_var(x, 0) && is_var(y, 1));
        }
        s => panic!("{s:?}"),
    }
    match &b.blocks[0].term {
        Terminator::Return(Some(o)) => assert!(is_var(o, 2)),
        t => panic!("{t:?}"),
    }
}

#[test]
fn arithmetic_types_follow_the_opcode() {
    // lload_0, lload_2, lsub, lreturn
    let b = lift(vec![0x1e, 0x20, 0x65, 0xad]);
    assert_eq!(b.vars[2].ty, Ty::Long);
    assert!(matches!(
        &b.blocks[0].stmts[0],
        Stmt::Assign(_, Rvalue::Bin(BinOp::Sub, _, _))
    ));
}

#[test]
fn constants_are_pushed_as_they_are() {
    // iconst_m1, ireturn
    let b = lift(vec![0x02, 0xac]);
    assert!(matches!(
        &b.blocks[0].term,
        Terminator::Return(Some(Operand::Const(Const::Int(-1))))
    ));
    // fconst_2, freturn: the bits of 2
    let b = lift(vec![0x0d, 0xae]);
    assert!(matches!(
        &b.blocks[0].term,
        Terminator::Return(Some(Operand::Const(Const::Float(bits)))) if f32::from_bits(*bits) == 2.0
    ));
    // dconst_1, dreturn: the bits of 1
    let b = lift(vec![0x0f, 0xaf]);
    assert!(matches!(
        &b.blocks[0].term,
        Terminator::Return(Some(Operand::Const(Const::Double(bits)))) if f64::from_bits(*bits) == 1.0
    ));
    // sipush -2, ireturn
    let b = lift(vec![0x11, 0xff, 0xfe, 0xac]);
    assert!(matches!(
        &b.blocks[0].term,
        Terminator::Return(Some(Operand::Const(Const::Int(-2))))
    ));
}

#[test]
fn a_division_carries_an_obligation() {
    // iload_0, iload_1, idiv, ireturn; the division is on line 7 and guarded
    let handler = Handler {
        start: 0,
        end: 3,
        target: 3,
        catch_type: 0,
    };
    let cf = class_with(
        vec![0x1a, 0x1b, 0x6c, 0xac],
        vec![handler],
        vec![(0, 5), (2, 7), (3, 9)],
        vec![],
    );
    let b = lift_method(&cf, &models(), "m", "()V").unwrap();
    assert_eq!(b.obligations.len(), 1);
    assert_eq!(b.obligations[0].kind, ObligationKind::DivByZero);
    assert_eq!(b.obligations[0].bytecode_offset, 2);
    assert_eq!(b.obligations[0].line, Some(7));
    assert!(b.obligations[0].guarded);
    assert_eq!(b.blocks.len(), 2);
    assert_eq!(b.blocks[0].exceptional.len(), 1);
    assert_eq!(b.blocks[0].exceptional[0].target, BlockId(1));
    assert!(b.blocks[0].exceptional[0].class.is_none());
}

#[test]
fn an_array_load_is_checked_twice() {
    // aload_0, iload_1, iaload, ireturn
    let b = lift(vec![0x2a, 0x1b, 0x2e, 0xac]);
    let kinds: Vec<ObligationKind> = b.obligations.iter().map(|o| o.kind).collect();
    assert_eq!(kinds, vec![ObligationKind::NullDeref, ObligationKind::ArrayBounds]);
}

#[test]
fn dup2_copies_one_wide_value_or_two_narrow_ones() {
    // lload_0, dup2, ladd, lreturn
    let b = lift(vec![0x1e, 0x5c, 0x61, 0xad]);
    match &b.blocks[0].stmts[0] {
        Stmt::Assign(_, Rvalue::Bin(BinOp::Add, x, y)) => assert!(is_var(x, 0) && is_var(y, 0)),
        s => panic!("{s:?}"),
    }
    // iload_0, iload_1, dup2, iadd, iadd, iadd, ireturn: a + (b + (a + b))
    let b = lift(vec![0x1a, 0x1b, 0x5c, 0x60, 0x60, 0x60, 0xac]);
    match &b.blocks[0].stmts[0] {
        Stmt::Assign(_, Rvalue::Bin(BinOp::Add, x, y)) => assert!(is_var(x, 0) && is_var(y, 1)),
        s => panic!("{s:?}"),
    }
    assert_eq!(b.blocks[0].stmts.len(), 3);
}

#[test]
fn a_branch_has_two_successors_and_spills_the_stack() {
    // iconst_5, iload_0, ifeq +5, nop, nop, ireturn
    let b = lift(vec![0x08, 0x1a, 0x99, 0x00, 0x05, 0x00, 0x00, 0xac]);
    assert_eq!(b.blocks.len(), 3);
    match &b.blocks[0].term {
        Terminator::Branch { then_, else_, .. } => {
            assert_eq!(*then_, BlockId(2));
            assert_eq!(*else_, BlockId(1));
        }
        t => panic!("{t:?}"),
    }
    // The five is in the variable of the bottom of the stack at the join.
    match &b.blocks[2].term {
        Terminator::Return(Some(Operand::Var(v))) => {
            assert_eq!(b.vars[v.0 as usize].kind, VarKind::Stack(0));
        }
        t => panic!("{t:?}"),
    }
}

#[test]
fn a_block_leaves_its_stack_in_the_variables_of_the_positions() {
    // iconst_1, iconst_5, goto +3, isub, ireturn
    let b = lift(vec![0x04, 0x08, 0xa7, 0x00, 0x03, 0x64, 0xac]);
    let mut held: Vec<Option<i64>> = vec![None; b.vars.len()];
    for s in &b.blocks[0].stmts {
        match s {
            Stmt::Assign(v, Rvalue::Use(o)) => {
                held[v.0 as usize] = match o {
                    Operand::Var(w) => held[w.0 as usize],
                    Operand::Const(Const::Int(i)) => Some(*i as i64),
                    o => panic!("{o:?}"),
                };
            }
            s => panic!("{s:?}"),
        }
    }
    for (i, v) in b.vars.iter().enumerate() {
        match v.kind {
            VarKind::Stack(0) => assert_eq!(held[i], Some(1)),
            VarKind::Stack(1) => assert_eq!(held[i], Some(5)),
            _ => {}
        }
    }
    match &b.blocks[1].stmts[0] {
        Stmt::Assign(_, Rvalue::Bin(BinOp::Sub, Operand::Var(x), Operand::Var(y))) => {
            assert_eq!(held[x.0 as usize], Some(1));
            assert_eq!(held[y.0 as usize], Some(5));
        }
        s => panic!("{s:?}"),
    }
}

/// The numbers that the variables hold after the first blocks.
fn held_after(b: &Body, blocks: usize) -> Vec<Option<i64>> {
    let mut held: Vec<Option<i64>> = vec![None; b.vars.len()];
    for s in b.blocks.iter().take(blocks).flat_map(|k| k.stmts.iter()) {
        match s {
            Stmt::Assign(v, Rvalue::Use(o)) => {
                held[v.0 as usize] = match o {
                    Operand::Var(w) => held[w.0 as usize],
                    Operand::Const(Const::Int(i)) => Some(*i as i64),
                    o => panic!("{o:?}"),
                };
            }
            Stmt::Assign(v, _) => held[v.0 as usize] = None,
            s => panic!("{s:?}"),
        }
    }
    held
}

#[test]
fn entries_that_change_places_keep_their_values() {
    // iconst_1, iconst_5, goto +3, swap, goto +3, isub, ireturn
    let b = lift(vec![0x04, 0x08, 0xa7, 0x00, 0x03, 0x5f, 0xa7, 0x00, 0x03, 0x64, 0xac]);
    let held = held_after(&b, 2);
    match &b.blocks[2].stmts[0] {
        Stmt::Assign(_, Rvalue::Bin(BinOp::Sub, Operand::Var(x), Operand::Var(y))) => {
            assert_eq!(held[x.0 as usize], Some(5));
            assert_eq!(held[y.0 as usize], Some(1));
        }
        s => panic!("{s:?}"),
    }
    // iconst_1, iconst_5, goto +3, swap, iload_0, ifeq +3, isub, ireturn
    let b = lift(vec![0x04, 0x08, 0xa7, 0x00, 0x03, 0x5f, 0x1a, 0x99, 0x00, 0x03, 0x64, 0xac]);
    let held = held_after(&b, 2);
    match &b.blocks[2].stmts[0] {
        Stmt::Assign(_, Rvalue::Bin(BinOp::Sub, Operand::Var(x), Operand::Var(y))) => {
            assert_eq!(held[x.0 as usize], Some(5));
            assert_eq!(held[y.0 as usize], Some(1));
        }
        s => panic!("{s:?}"),
    }
}

#[test]
fn a_switch_tests_the_value_that_was_on_top() {
    // iconst_1, iconst_5, goto +3, swap, tableswitch default +18, 1..1: +19; nop; pop; return
    let mut code = vec![0x04, 0x08, 0xa7, 0x00, 0x03, 0x5f, 0xaa, 0];
    for n in [18i32, 1, 1, 19] {
        code.extend_from_slice(&n.to_be_bytes());
    }
    code.extend_from_slice(&[0x00, 0x57, 0xb1]);
    let b = lift(code);
    let held = held_after(&b, 2);
    match &b.blocks[1].term {
        Terminator::Switch { value: Operand::Var(x), .. } => {
            assert_eq!(held[x.0 as usize], Some(1));
        }
        t => panic!("{t:?}"),
    }
    // What was below it is now at the bottom of the stack.
    for (i, v) in b.vars.iter().enumerate() {
        if v.kind == VarKind::Stack(0) {
            assert_eq!(held[i], Some(5));
        }
    }
}

#[test]
fn the_class_of_an_object_is_known_in_the_next_block() {
    // new #1, goto +3, athrow
    let pool = |c: &str| vec![Cp::Other, Cp::Class(c.into())];
    let code = vec![0xbb, 0, 1, 0xa7, 0x00, 0x03, 0xbf];
    let b = lift_pool(code.clone(), pool("java/lang/AssertionError"));
    assert_eq!(b.obligations.len(), 1);
    assert_eq!(b.obligations[0].kind, ObligationKind::Assertion);
    assert!(lift_pool(code, pool("java/lang/Error")).obligations.is_empty());
}

#[test]
fn a_switch_lists_its_cases() {
    // iload_0, tableswitch default +26, 1..2: +23, +24; nop; return
    let mut code = vec![0x1a, 0xaa, 0, 0];
    for n in [26i32, 1, 2, 23, 24] {
        code.extend_from_slice(&n.to_be_bytes());
    }
    code.extend_from_slice(&[0x00, 0x00, 0x00, 0xb1]);
    let b = lift(code);
    match &b.blocks[0].term {
        Terminator::Switch { cases, default, .. } => {
            assert_eq!(cases, &vec![(1, BlockId(1)), (2, BlockId(2))]);
            assert_eq!(*default, BlockId(3));
        }
        t => panic!("{t:?}"),
    }
}

#[test]
fn what_is_not_modelled_diverges_and_says_why() {
    assert_eq!(reason(&lift(vec![0xca]), 0), "unsupported opcode 0xca at 0");
    assert_eq!(reason(&lift(vec![0xba, 0, 0, 0, 0, 0xb1]), 0), "invokedynamic not modelled");
    assert_eq!(reason(&lift(vec![0x57]), 0), "stack underflow");
    assert_eq!(reason(&lift(vec![0x59]), 0), "dup on empty stack");
    assert_eq!(reason(&lift(vec![0x5c]), 0), "dup2 on empty stack");
    assert_eq!(reason(&lift(vec![0x12, 0x00]), 0), "unsupported ldc at 0");
    assert_eq!(reason(&lift(vec![0x00]), 0), "fell off end of code");
    assert_eq!(reason(&lift(vec![0x03, 0x99, 0x7f, 0x00, 0xb1]), 0), "bad branch target");
    assert_eq!(reason(&lift(vec![0xa7, 0x7f, 0x00]), 0), "bad goto target");
    assert_eq!(
        reason(&lift(vec![0x03, 0x99, 0xff, 0xff]), 0),
        "conditional branch at end of code"
    );
    assert_eq!(reason(&lift(vec![0xbb, 0x00, 0x09, 0xb1]), 0), "no class at 9");
    assert_eq!(reason(&lift(vec![0xb2, 0x00, 0x09, 0xb1]), 0), "no member reference at 9");
    let mut code = vec![0x1a, 0xab, 0, 0];
    for n in [100i32, 0] {
        code.extend_from_slice(&n.to_be_bytes());
    }
    assert_eq!(reason(&lift(code), 0), "bad switch default");
}

#[test]
fn different_stack_heights_at_a_block_diverge() {
    // iload_0, ifeq +7, iconst_1, goto +3, return
    let b = lift(vec![0x1a, 0x99, 0x00, 0x07, 0x04, 0xa7, 0x00, 0x03, 0xb1]);
    let last = b.blocks.len() - 1;
    assert!(reason(&b, last).starts_with("inconsistent stack height at bb2: "));
}

#[test]
fn code_that_is_not_reached_halts() {
    // return, nop, return
    let b = lift(vec![0xb1, 0x00, 0xb1]);
    assert_eq!(b.blocks.len(), 2);
    assert!(matches!(b.blocks[1].term, Terminator::Halt));
    assert!(b.blocks[1].stmts.is_empty());
}

#[test]
fn calls_follow_their_models() {
    let pool = vec![
        Cp::Other,
        member("Verifier", "nondetInt", "()I"),
        member("Verifier", "assume", "(Z)V"),
        member("java/lang/String", "trim", "()Ljava/lang/String;"),
        member("A", "f", "(IJ)I"),
    ];
    // invokestatic nondetInt, invokestatic assume, return
    let b = lift_pool(vec![0xb8, 0, 1, 0xb8, 0, 2, 0xb1], pool.iter().map(copy).collect());
    assert!(matches!(
        &b.blocks[0].stmts[0],
        Stmt::Assign(_, Rvalue::Nondet(Ty::Int, None))
    ));
    assert!(b
        .blocks
        .iter()
        .any(|x| x.stmts.iter().any(|s| matches!(s, Stmt::Assume(Operand::Var(_))))));
    // aload_0, invokevirtual trim, areturn: the receiver is checked, the result is a reference
    let b = lift_pool(vec![0x2a, 0xb6, 0, 3, 0xb0], pool.iter().map(copy).collect());
    assert_eq!(b.obligations[0].kind, ObligationKind::NullDeref);
    match &b.blocks[0].stmts[2] {
        Stmt::Assign(v, Rvalue::Call { args, is_virtual, .. }) => {
            assert_eq!(args.len(), 1);
            assert!(*is_virtual);
            assert_eq!(b.vars[v.0 as usize].ty, Ty::Ref);
        }
        s => panic!("{s:?}"),
    }
    // iconst_0, lconst_0, invokestatic f, ireturn
    let b = lift_pool(vec![0x03, 0x09, 0xb8, 0, 4, 0xac], pool.iter().map(copy).collect());
    match &b.blocks[0].stmts[0] {
        Stmt::Assign(_, Rvalue::Call { target, args, is_virtual }) => {
            assert_eq!(target.class, "A");
            assert_eq!(args.len(), 2);
            assert!(matches!(args[0], Operand::Const(Const::Int(0))));
            assert!(matches!(args[1], Operand::Const(Const::Long(0))));
            assert!(!*is_virtual);
        }
        s => panic!("{s:?}"),
    }
}

fn copy(c: &Cp) -> Cp {
    match c {
        Cp::Member(m) => member(&m.owner, &m.name, &m.desc),
        Cp::Class(s) => Cp::Class(s.clone()),
        _ => Cp::Other,
    }
}

#[test]
fn a_thrown_assertion_error_is_an_obligation_that_fails() {
    // new #1, athrow
    let b = lift_pool(
        vec![0xbb, 0, 1, 0xbf],
        vec![Cp::Other, Cp::Class("java/lang/AssertionError".into())],
    );
    assert_eq!(b.obligations.len(), 1);
    assert_eq!(b.obligations[0].kind, ObligationKind::Assertion);
    assert!(matches!(b.obligations[0].cond, Operand::Const(Const::Int(0))));
    let b = lift_pool(
        vec![0xbb, 0, 1, 0xbf],
        vec![Cp::Other, Cp::Class("java/lang/Error".into())],
    );
    assert!(b.obligations.is_empty());
}

#[test]
fn methods_that_cannot_be_lifted_are_named() {
    let mut cf = class_with(vec![0xb1], vec![], vec![], vec![]);
    assert_eq!(lift_method(&cf, &models(), "x", "()V").unwrap_err(), "no method x()V");
    cf.methods[0].code = None;
    assert_eq!(
        lift_method(&cf, &models(), "m", "()V").unwrap_err(),
        "m()V has no Code attribute"
    );
    assert_eq!(decode(&vec![0x10]).unwrap_err(), "truncated instruction at 0");
    assert_eq!(decode(&vec![0xaa, 0, 0, 0]).unwrap_err(), "truncated tableswitch");
    assert_eq!(decode(&vec![0xab, 0, 0, 0]).unwrap_err(), "truncated lookupswitch");
}

#[test]
fn a_class_is_entered_into_the_program() {
    let mut prog = Program::new();
    lift_class(&class_with(vec![0x10], vec![], vec![], vec![]), &models(), &mut prog);
    assert_eq!(prog.bodies.len(), 1);
    assert_eq!(reason(&prog.bodies[0], 0), "truncated instruction at 0");
    assert!(prog.is_subtype("T", "java/lang/Object"));
    assert!(prog.is_subtype("T", "I"));
    // A second class of the name replaces the first.
    lift_class(&class_with(vec![0xb1], vec![], vec![], vec![]), &models(), &mut prog);
    assert_eq!(prog.bodies.len(), 1);
    assert_eq!(prog.supers.len(), 1);
    assert_eq!(prog.interfaces.len(), 1);
    assert!(matches!(prog.bodies[0].blocks[0].term, Terminator::Return(None)));
}

#[test]
fn instructions_follow_one_another() {
    // wide iinc 300 by -2, lookupswitch with one case, return
    let mut code = vec![0xc4, 0x84, 0x01, 0x2c, 0xff, 0xfe, 0xab, 0x00];
    for n in [18i32, 1, 5, 18] {
        code.extend_from_slice(&n.to_be_bytes());
    }
    code.push(0xb1);
    let insns = decode(&code).unwrap();
    assert_eq!(insns.len(), 3);
    assert_eq!((insns[0].off, insns[0].len, insns[0].imm, insns[0].delta), (0, 6, 300, -2));
    assert_eq!((insns[1].off, insns[1].len), (6, 18));
    assert_eq!(insns[1].keys, vec![5]);
    assert_eq!(insns[1].targets, vec![24, 24]);
    assert_eq!((insns[2].off, insns[2].op), (24, 0xb1));
}
