//! Questions about bodies that several engines ask.

use vstd::prelude::*;

use crate::ir::{BinOp, BlockId, Body, Operand, Rvalue, Stmt, VarId};
use crate::models::Models;
use crate::postdom;
use crate::postdom::successors;

verus! {

/// Does the simple encoding say nothing about the statement's effect?
pub open spec fn havocs(s: Stmt) -> bool {
    match s {
        Stmt::Assign(_, rv) => rv is GetStatic || rv is GetField || rv is InstanceOf || rv is Call
            || rv is Havoc,
        Stmt::PutField { .. } | Stmt::PutStatic(_, _) => true,
        _ => false,
    }
}

/// Does the statement call a transcendental function?
pub open spec fn transcends(m: Models, s: Stmt) -> bool {
    s matches Stmt::Assign(_, Rvalue::Call { target, .. }) && m.transcends(target.class@, target.name@)
}

/// Does some statement of the body satisfy `f`?
pub open spec fn some_stmt(body: Body, f: spec_fn(Stmt) -> bool) -> bool {
    exists|i: int, j: int|
        0 <= i < body.blocks@.len() && 0 <= j < body.blocks@[i].stmts@.len() && f(
            #[trigger] body.blocks@[i].stmts@[j],
        )
}

fn is_havoced(s: &Stmt) -> (r: bool)
    ensures
        r == havocs(*s),
{
    match s {
        Stmt::Assign(_, rv) => match rv {
            Rvalue::GetStatic(_) | Rvalue::GetField { .. } | Rvalue::InstanceOf { .. }
            | Rvalue::Call { .. } | Rvalue::Havoc(_) => true,
            _ => false,
        },
        Stmt::PutField { .. } | Stmt::PutStatic(_, _) => true,
        _ => false,
    }
}

fn is_transcendental(m: &Models, s: &Stmt) -> (r: bool)
    ensures
        r == transcends(*m, *s),
{
    match s {
        Stmt::Assign(_, Rvalue::Call { target, .. }) => m.is_transcendental_math(
            target.class.as_str(),
            target.name.as_str(),
        ),
        _ => false,
    }
}

/// Does the body use operations that the simple encodings say nothing about:
/// fields, type tests, calls or unknown values? Engines that prove skip such
/// bodies.
pub fn body_uses_havoced_ops(body: &Body) -> (r: bool)
    ensures
        r == some_stmt(*body, |s: Stmt| havocs(s)),
{
    let ghost f = |s: Stmt| havocs(s);
    let mut i: usize = 0;
    while i < body.blocks.len()
        invariant
            i <= body.blocks@.len(),
            f == (|s: Stmt| havocs(s)),
            forall|p: int, q: int|
                0 <= p < i && 0 <= q < body.blocks@[p].stmts@.len() ==> !f(
                    #[trigger] body.blocks@[p].stmts@[q],
                ),
        decreases body.blocks@.len() - i,
    {
        let b = &body.blocks[i];
        let mut j: usize = 0;
        while j < b.stmts.len()
            invariant
                j <= b.stmts@.len(),
                i < body.blocks@.len(),
                *b == body.blocks@[i as int],
                f == (|s: Stmt| havocs(s)),
                forall|q: int| 0 <= q < j ==> !f(#[trigger] body.blocks@[i as int].stmts@[q]),
            decreases b.stmts@.len() - j,
        {
            if is_havoced(&b.stmts[j]) {
                proof {
                    assert(f(body.blocks@[i as int].stmts@[j as int]));
                }
                return true;
            }
            j += 1;
        }
        i += 1;
    }
    false
}

/// Does the body have `long` or `double` variables? The interval domain is that
/// of `int`.
pub fn body_uses_wide_types(body: &Body) -> (r: bool)
    ensures
        r == exists|i: int| 0 <= i < body.vars@.len() && (#[trigger] body.vars@[i]).ty.wide(),
{
    let mut i: usize = 0;
    while i < body.vars.len()
        invariant
            i <= body.vars@.len(),
            forall|j: int| 0 <= j < i ==> !(#[trigger] body.vars@[j]).ty.wide(),
        decreases body.vars@.len() - i,
    {
        if body.vars[i].ty.is_wide() {
            return true;
        }
        i += 1;
    }
    false
}

/// Does the body call transcendental functions, which need a solver for real
/// arithmetic?
pub fn body_uses_transcendental_math(body: &Body, m: &Models) -> (r: bool)
    ensures
        r == some_stmt(*body, |s: Stmt| transcends(*m, s)),
{
    let ghost f = |s: Stmt| transcends(*m, s);
    let mut i: usize = 0;
    while i < body.blocks.len()
        invariant
            i <= body.blocks@.len(),
            f == (|s: Stmt| transcends(*m, s)),
            forall|p: int, q: int|
                0 <= p < i && 0 <= q < body.blocks@[p].stmts@.len() ==> !f(
                    #[trigger] body.blocks@[p].stmts@[q],
                ),
        decreases body.blocks@.len() - i,
    {
        let b = &body.blocks[i];
        let mut j: usize = 0;
        while j < b.stmts.len()
            invariant
                j <= b.stmts@.len(),
                i < body.blocks@.len(),
                *b == body.blocks@[i as int],
                f == (|s: Stmt| transcends(*m, s)),
                forall|q: int| 0 <= q < j ==> !f(#[trigger] body.blocks@[i as int].stmts@[q]),
            decreases b.stmts@.len() - j,
        {
            if is_transcendental(m, &b.stmts[j]) {
                proof {
                    assert(f(body.blocks@[i as int].stmts@[j as int]));
                }
                return true;
            }
            j += 1;
        }
        i += 1;
    }
    false
}

/// Does the block continue at itself or at one before it?
pub open spec fn goes_back(body: Body, i: int) -> bool {
    exists|j: int|
        0 <= j < postdom::succ_ids(body, i).len() && #[trigger] postdom::succ_ids(body, i)[j]
            <= body.blocks@[i].id.0
}

/// Does the body have an edge to the same or an earlier block?
pub fn body_has_loops(body: &Body) -> (r: bool)
    requires
        body.blocks@.len() <= u32::MAX,
    ensures
        r == exists|i: int| 0 <= i < body.blocks@.len() && #[trigger] goes_back(*body, i),
{
    let mut i: usize = 0;
    while i < body.blocks.len()
        invariant
            i <= body.blocks@.len(),
            body.blocks@.len() <= u32::MAX,
            forall|p: int| 0 <= p < i ==> !#[trigger] goes_back(*body, p),
        decreases body.blocks@.len() - i,
    {
        let succs = successors(body, i as u32);
        let mut j: usize = 0;
        while j < succs.len()
            invariant
                j <= succs@.len(),
                i < body.blocks@.len(),
                succs@ == postdom::succ_ids(*body, i as int),
                forall|q: int| 0 <= q < j ==> #[trigger] succs@[q] > body.blocks@[i as int].id.0,
            decreases succs@.len() - j,
        {
            if succs[j] <= body.blocks[i].id.0 {
                proof {
                    assert(postdom::succ_ids(*body, i as int)[j as int] <= body.blocks@[i as int].id.0);
                    assert(goes_back(*body, i as int));
                }
                return true;
            }
            j += 1;
        }
        i += 1;
    }
    false
}

/// A path from block to block.
pub open spec fn follows_edges(body: Body, path: Seq<int>) -> bool {
    &&& forall|k: int| 0 <= k < path.len() ==> 0 <= #[trigger] path[k] < body.blocks@.len()
    &&& forall|k: int|
        0 <= k < path.len() - 1 ==> exists|j: int|
            0 <= j < postdom::succ_ids(body, #[trigger] path[k]).len() && #[trigger] postdom::succ_ids(
                body,
                path[k],
            )[j] == path[k + 1]
}

proof fn lemma_path_ascends(body: Body, path: Seq<int>, a: int, b: int)
    requires
        body.well_formed(),
        forall|i: int| 0 <= i < body.blocks@.len() ==> !#[trigger] goes_back(body, i),
        follows_edges(body, path),
        0 <= a <= b < path.len(),
    ensures
        path[a] + (b - a) <= path[b],
    decreases b - a,
{
    if a < b {
        lemma_path_ascends(body, path, a, b - 1);
        let at = path[b - 1];
        assert(0 <= at < body.blocks@.len());
        assert(!goes_back(body, at));
        let j = choose|j: int|
            0 <= j < postdom::succ_ids(body, at).len() && #[trigger] postdom::succ_ids(body, at)[j]
                == path[b - 1 + 1];
        assert(postdom::succ_ids(body, at)[j] == path[b]);
        assert(body.blocks@[at].id.0 == at);
    }
}

/// In a body without loops no path comes to a block twice, so none has more blocks
/// than the body.
pub proof fn law_without_loops_paths_end(body: Body, path: Seq<int>)
    requires
        body.well_formed(),
        forall|i: int| 0 <= i < body.blocks@.len() ==> !#[trigger] goes_back(body, i),
        follows_edges(body, path),
    ensures
        forall|a: int, b: int|
            0 <= a < b < path.len() ==> #[trigger] path[a] < #[trigger] path[b],
        path.len() <= body.blocks@.len(),
{
    assert forall|a: int, b: int| 0 <= a < b < path.len() implies #[trigger] path[a]
        < #[trigger] path[b] by {
        lemma_path_ascends(body, path, a, b);
    }
    if path.len() > 0 {
        lemma_path_ascends(body, path, 0, path.len() - 1);
        assert(0 <= path[0] && path[path.len() - 1] < body.blocks@.len());
    }
}

/// The last of the first `n` statements that assigns a binary operation to `v`.
pub open spec fn defining_bin(stmts: Seq<Stmt>, v: VarId, n: nat) -> Option<
    (BinOp, Operand, Operand),
>
    decreases n,
{
    if n == 0 {
        None
    } else if stmts[n - 1] matches Stmt::Assign(d, Rvalue::Bin(op, a, b)) && d == v {
        let (op, a, b) = (stmts[n - 1]->Assign_1->Bin_0, stmts[n - 1]->Assign_1->Bin_1, stmts[n
            - 1]->Assign_1->Bin_2);
        Some((op, a, b))
    } else {
        defining_bin(stmts, v, (n - 1) as nat)
    }
}

/// The last binary operation that the block assigns to `v`.
pub fn find_defining_bin(body: &Body, block: BlockId, v: VarId) -> (r: Option<
    (BinOp, &Operand, &Operand),
>)
    requires
        block.0 < body.blocks@.len(),
    ensures
        match r {
            Some(x) => defining_bin(
                body.blocks@[block.0 as int].stmts@,
                v,
                body.blocks@[block.0 as int].stmts@.len(),
            ) == Some((x.0, *x.1, *x.2)),
            None => defining_bin(
                body.blocks@[block.0 as int].stmts@,
                v,
                body.blocks@[block.0 as int].stmts@.len(),
            ) is None,
        },
{
    let b = body.block(block);
    let mut i: usize = b.stmts.len();
    while i > 0
        invariant
            i <= b.stmts@.len(),
            *b == body.blocks@[block.0 as int],
            defining_bin(b.stmts@, v, b.stmts@.len()) == defining_bin(b.stmts@, v, i as nat),
        decreases i,
    {
        if let Stmt::Assign(d, Rvalue::Bin(op, x, y)) = &b.stmts[i - 1] {
            if *d == v {
                return Some((*op, x, y));
            }
        }
        i -= 1;
    }
    None
}

/// The comparison that holds exactly when `op` does not. Other operators are
/// their own.
pub open spec fn negated(op: BinOp) -> BinOp {
    match op {
        BinOp::Eq => BinOp::Ne,
        BinOp::Ne => BinOp::Eq,
        BinOp::Lt => BinOp::Ge,
        BinOp::Le => BinOp::Gt,
        BinOp::Gt => BinOp::Le,
        BinOp::Ge => BinOp::Lt,
        other => other,
    }
}

/// The comparison that holds exactly when `op` does not.
pub fn negate_binop(op: BinOp) -> (r: BinOp)
    ensures
        r == negated(op),
{
    match op {
        BinOp::Eq => BinOp::Ne,
        BinOp::Ne => BinOp::Eq,
        BinOp::Lt => BinOp::Ge,
        BinOp::Le => BinOp::Gt,
        BinOp::Gt => BinOp::Le,
        BinOp::Ge => BinOp::Lt,
        other => other,
    }
}

/// Is the operator a comparison?
pub open spec fn compares(op: BinOp) -> bool {
    op == BinOp::Eq || op == BinOp::Ne || op == BinOp::Lt || op == BinOp::Le || op == BinOp::Gt
        || op == BinOp::Ge
}

/// Does the comparison hold of two numbers?
pub open spec fn holds(op: BinOp, x: int, y: int) -> bool {
    match op {
        BinOp::Eq => x == y,
        BinOp::Ne => x != y,
        BinOp::Lt => x < y,
        BinOp::Le => x <= y,
        BinOp::Gt => x > y,
        BinOp::Ge => x >= y,
        _ => false,
    }
}

/// Negating twice gives the operator back, and a negated comparison holds of
/// exactly those numbers of which the comparison does not.
pub proof fn law_negation_is_complement(op: BinOp, x: int, y: int)
    ensures
        negated(negated(op)) == op,
        compares(op) ==> (holds(negated(op), x, y) <==> !holds(op, x, y)),
{
}

} // verus!
