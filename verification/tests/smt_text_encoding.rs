//! The shared text encoder: fresh symbols are reported, the text is the same for
//! the same body, and its size is linear in the number of statements.

use roast::ir::{
    BinOp, Block, BlockId, Body, FieldKey, MethodKey, Obligation, ObligationId, ObligationKind,
    Operand, Rvalue, Stmt, Terminator, Ty, VarId, VarInfo, VarKind,
};
use roast::smt_text::{
    is_precise, walk_body, BitvectorTheory, ClauseList, FreshPool, LiaTheory, Recorded,
};

// ---------------------------------------------------------------------------
// Builders
// ---------------------------------------------------------------------------

fn key() -> MethodKey {
    MethodKey {
        class: "T".into(),
        name: "t".into(),
        desc: "()V".into(),
    }
}

/// A single-block body with the given statements and an int var per slot.
fn body_with(stmts: Vec<Stmt>, n_vars: usize, obligations: Vec<Obligation>) -> Body {
    Body {
        key: key(),
        entry: BlockId(0),
        blocks: vec![Block {
            id: BlockId(0),
            bytecode_offset: 0,
            stmts,
            term: Terminator::Return(None),
            exceptional: vec![],
        }],
        vars: (0..n_vars)
            .map(|i| VarInfo {
                kind: VarKind::Local(i as u16),
                ty: Ty::Int,
            })
            .collect(),
        obligations,
    }
}

fn v(i: u32) -> Operand {
    Operand::Var(VarId(i))
}

/// Collect everything the walk emits, flattened to text.
#[derive(Default)]
struct Collect {
    transitions: Vec<String>,
    errors: Vec<String>,
    fresh_seen: Vec<String>,
}

fn collect(list: &ClauseList) -> Collect {
    let mut out = Collect::default();
    for c in &list.clauses {
        match c {
            Recorded::Transition {
                conds,
                var_exprs,
                bindings,
                fresh,
                ..
            } => {
                let mut parts: Vec<String> = bindings.clone();
                parts.extend_from_slice(conds);
                parts.extend(var_exprs.iter().cloned());
                out.transitions.push(parts.join(" "));
                out.fresh_seen.extend(fresh.iter().map(|(n, _)| n.clone()));
            }
            Recorded::Error {
                conds,
                bindings,
                fresh,
                ..
            } => {
                let mut parts: Vec<String> = bindings.clone();
                parts.extend_from_slice(conds);
                out.errors.push(parts.join(" "));
                out.fresh_seen.extend(fresh.iter().map(|(n, _)| n.clone()));
            }
        }
    }
    out
}

fn walk_bv(body: &Body, obs: &[ObligationId]) -> (Collect, FreshPool) {
    let mut fresh = FreshPool::new("t_");
    let mut list = ClauseList { clauses: vec![] };
    walk_body(body, &BitvectorTheory, obs, &mut fresh, &mut list);
    (collect(&list), fresh)
}

// ---------------------------------------------------------------------------
// Fresh symbols must be reported so the caller can bind them
// ---------------------------------------------------------------------------

#[test]
fn nondet_produces_a_reported_fresh_symbol() {
    let body = body_with(
        vec![Stmt::Assign(VarId(0), Rvalue::Nondet(Ty::Int, None))],
        1,
        vec![],
    );
    let (sink, fresh) = walk_bv(&body, &[]);

    assert_eq!(fresh.issued().len(), 1, "nondet mints exactly one symbol");
    let (name, width) = &fresh.issued()[0];
    assert_eq!(*width, 32);
    assert_eq!(sink.fresh_seen, vec![name.clone()]);
    assert!(
        sink.transitions.iter().any(|t| t.contains(name.as_str())),
        "the symbol must actually appear in the emitted text"
    );
}

#[test]
fn a_long_nondet_is_reported_as_64_bits() {
    let body = Body {
        vars: vec![VarInfo {
            kind: VarKind::Local(0),
            ty: Ty::Long,
        }],
        ..body_with(
            vec![Stmt::Assign(VarId(0), Rvalue::Nondet(Ty::Long, None))],
            1,
            vec![],
        )
    };
    let (_, fresh) = walk_bv(&body, &[]);
    assert_eq!(fresh.issued()[0].1, 64);
}

#[test]
fn unmodelled_rvalues_produce_fresh_symbols() {
    // Array reads, allocations and field reads all fall through to havoc. Each
    // must be reported, not quietly emitted as an unbound name.
    for rv in [
        Rvalue::ArrayLoad {
            arr: v(0),
            idx: Operand::int_const(0),
        },
        Rvalue::ArrayLength(v(0)),
        Rvalue::New("java/lang/Object".into()),
        Rvalue::GetStatic(FieldKey {
            class: "T".into(),
            name: "f".into(),
            desc: "I".into(),
        }),
    ] {
        let body = body_with(vec![Stmt::Assign(VarId(0), rv.clone())], 1, vec![]);
        let (_, fresh) = walk_bv(&body, &[]);
        assert!(
            !fresh.issued().is_empty(),
            "{rv:?} should have minted a fresh symbol"
        );
        assert!(!is_precise(&BitvectorTheory, &rv), "{rv:?}");
    }
}

#[test]
fn lia_havocs_bitwise_ops_and_says_so() {
    // LIA cannot express `&`. The encoder havocs it, and `is_precise` has to
    // agree — a guard that thought this was exact would let a proving engine
    // trust a result over a body whose semantics were dropped.
    let rv = Rvalue::Bin(BinOp::And, v(0), v(1));
    let theory = LiaTheory::new("p_");
    assert!(!is_precise(&theory, &rv));

    let body = body_with(vec![Stmt::Assign(VarId(2), rv)], 3, vec![]);
    let mut fresh = FreshPool::new("p_");
    let mut list = ClauseList { clauses: vec![] };
    walk_body(&body, &theory, &[], &mut fresh, &mut list);
    assert!(
        !fresh.issued().is_empty(),
        "a LIA bitwise op must mint a reported symbol"
    );
}

#[test]
fn bitvector_theory_expresses_bitwise_ops_exactly() {
    let rv = Rvalue::Bin(BinOp::And, v(0), v(1));
    assert!(is_precise(&BitvectorTheory, &rv));
}

#[test]
fn arithmetic_is_precise_in_both_theories() {
    let rv = Rvalue::Bin(BinOp::Add, v(0), v(1));
    assert!(is_precise(&BitvectorTheory, &rv));
    assert!(is_precise(&LiaTheory::new("p_"), &rv));
}

// ---------------------------------------------------------------------------
// Determinism
// ---------------------------------------------------------------------------

#[test]
fn encoding_the_same_body_twice_gives_identical_text() {
    let body = body_with(
        vec![
            Stmt::Assign(VarId(0), Rvalue::Nondet(Ty::Int, None)),
            Stmt::Assign(VarId(1), Rvalue::Nondet(Ty::Int, None)),
        ],
        2,
        vec![],
    );
    let (first, _) = walk_bv(&body, &[]);
    // Encode something else in between, to move any shared counter along.
    let _ = walk_bv(
        &body_with(
            vec![Stmt::Assign(VarId(0), Rvalue::Nondet(Ty::Int, None))],
            1,
            vec![],
        ),
        &[],
    );
    let (second, _) = walk_bv(&body, &[]);

    assert_eq!(first.transitions, second.transitions);
}

// ---------------------------------------------------------------------------
// Output size stays linear in statements
// ---------------------------------------------------------------------------

#[test]
fn chained_assignments_do_not_blow_up_the_output() {
    // `x = x + x` repeated. Doubling the statement count should roughly double
    // the output, not square it.
    let size_for = |n: usize| -> usize {
        let stmts: Vec<Stmt> = (0..n)
            .map(|_| Stmt::Assign(VarId(0), Rvalue::Bin(BinOp::Add, v(0), v(0))))
            .collect();
        let (sink, _) = walk_bv(&body_with(stmts, 1, vec![]), &[]);
        sink.transitions.iter().map(|t| t.len()).sum()
    };

    let small = size_for(10);
    let large = size_for(20);
    let ratio = large as f64 / small as f64;
    assert!(
        ratio < 3.0,
        "doubling statements grew output {ratio:.1}x ({small} -> {large} bytes); \
         anything near 2x is linear, an exponential encoder would be far larger"
    );

    // And the absolute size stays sane: substitution would have produced
    // roughly 2^20 nodes here.
    assert!(large < 4096, "20 statements produced {large} bytes");
}

#[test]
fn a_trivial_assignment_is_not_given_a_needless_name() {
    // `v1 = v0` should just alias, not mint a temporary.
    let body = body_with(vec![Stmt::Assign(VarId(1), Rvalue::Use(v(0)))], 2, vec![]);
    let (_, fresh) = walk_bv(&body, &[]);
    assert!(fresh.issued().is_empty());
}

// ---------------------------------------------------------------------------
// Structure of what the walk reports
// ---------------------------------------------------------------------------

#[test]
fn a_check_becomes_an_error_site_only_when_selected() {
    let ob = Obligation {
        id: ObligationId(0),
        kind: ObligationKind::Assertion,
        cond: v(0),
        bytecode_offset: 0,
        line: None,
        guarded: false,
    };
    let body = body_with(vec![Stmt::Check(ObligationId(0))], 1, vec![ob]);

    let (selected, _) = walk_bv(&body, &[ObligationId(0)]);
    assert_eq!(selected.errors.len(), 1);

    let (unselected, _) = walk_bv(&body, &[]);
    assert!(unselected.errors.is_empty());
}

#[test]
fn assume_becomes_a_path_condition_on_the_outgoing_edge() {
    let body = body_with(vec![Stmt::Assume(v(0))], 1, vec![]);
    let (sink, _) = walk_bv(&body, &[]);
    assert_eq!(sink.transitions.len(), 1);
    assert!(
        sink.transitions[0].contains("not (= v0"),
        "expected a nonzero constraint, got: {}",
        sink.transitions[0]
    );
}

#[test]
fn a_branch_emits_both_arms_with_opposite_guards() {
    let body = Body {
        blocks: vec![
            Block {
                id: BlockId(0),
                bytecode_offset: 0,
                stmts: vec![],
                term: Terminator::Branch {
                    cond: v(0),
                    then_: BlockId(1),
                    else_: BlockId(2),
                },
                exceptional: vec![],
            },
            Block {
                id: BlockId(1),
                bytecode_offset: 0,
                stmts: vec![],
                term: Terminator::Return(None),
                exceptional: vec![],
            },
            Block {
                id: BlockId(2),
                bytecode_offset: 0,
                stmts: vec![],
                term: Terminator::Return(None),
                exceptional: vec![],
            },
        ],
        ..body_with(vec![], 1, vec![])
    };
    let (sink, _) = walk_bv(&body, &[]);
    // Two arms from bb0, plus one leaving-edge each from bb1 and bb2.
    assert_eq!(sink.transitions.len(), 4);
    assert!(sink.transitions[0].contains("not (= v0"));
    assert!(sink.transitions[1].contains("(= v0"));
}

#[test]
fn a_returning_block_still_reports_its_edge() {
    // The edge is reported with `to: None`; each sink decides what to make of it.
    let body = body_with(vec![], 1, vec![]);
    let (sink, _) = walk_bv(&body, &[]);
    assert_eq!(sink.transitions.len(), 1);
}
