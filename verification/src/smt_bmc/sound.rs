//! A run that fails is found: what an exploration comes to covers every run of a body
//! over values of 32 and 64 bits and over fields, if the solver tells the truth.

use vstd::prelude::*;

use super::effects;
use super::encode;
use super::explore;
use super::explore::{Asked, Explorer, SatResult, Solver};
use super::formula;
use super::merge;
use super::report;
use super::rvalue;
use super::runs;
use super::state;
use super::state::{Encoder, State};
use super::wide;
use super::wide::Mem;
use crate::assoc::Assoc;
use crate::concrete::value;
use crate::concrete::value::Value;
use crate::ir;
use crate::desc;
use crate::ir::{
    Block, BlockId, Body, FieldKey, FieldKeyV, ObligationId, Operand, Rvalue, Stmt, Terminator, Ty, VarId,
};
use crate::postdom;
use crate::program::Program;
use crate::engine::ObligationRef;
use crate::smt_text;
use crate::term;
use crate::term::{Op1, Op2, Term, Terms, Tm};
use crate::text;

verus! {

broadcast use {wide::lemma_rest_grown, wide::lemma_rest_built};

/// The operand is not of a floating-point type.
pub open spec fn integral(body: Body, o: Operand) -> bool {
    let ty = wide::operand_ty(body, o);
    ty != Ty::Float && ty != Ty::Double
}

/// The operand is not of a floating-point type, and not a `long`.
pub open spec fn narrow(body: Body, o: Operand) -> bool {
    integral(body, o) && wide::operand_ty(body, o) != Ty::Long
}

/// The width of an operand.
pub open spec fn width(body: Body, o: Operand) -> u32 {
    state::ty_width(wide::operand_ty(body, o))
}

/// The rvalue computes with values of 32 or 64 bits, as their types allow, or is an
/// input of type `int` or `long`, and its result is of the width of the variable.
pub open spec fn plain_rvalue(body: Body, v: VarId, rv: Rvalue) -> bool {
    let d = state::ty_width(body.vars@[v.0 as int].ty);
    match rv {
        Rvalue::Use(o) | Rvalue::Neg(o) => integral(body, o) && width(body, o) == d,
        Rvalue::Bin(op, a, b) => {
            &&& integral(body, a)
            &&& integral(body, b)
            &&& width(body, a) == d
            &&& if value::compares(op) {
                narrow(body, a) && narrow(body, b)
            } else if encode::shifts(op) {
                narrow(body, b)
            } else {
                width(body, a) == width(body, b)
            }
        },
        Rvalue::Cmp(a, b) => {
            &&& integral(body, a)
            &&& integral(body, b)
            &&& width(body, a) == width(body, b)
            &&& d == 32
        },
        Rvalue::Cast(ty, o) => {
            &&& integral(body, o)
            &&& ty == Ty::Int || ty == Ty::Long && narrow(body, o)
            &&& state::ty_width(ty) == d
        },
        Rvalue::GetStatic(f) => desc::field_width(f.desc@) == d,
        Rvalue::GetField { obj, field } => narrow(body, obj) && desc::field_width(field.desc@) == d,
        Rvalue::Nondet(ty, _) => (ty == Ty::Int || ty == Ty::Long) && state::ty_width(ty) == d,
        _ => false,
    }
}

/// The statement is an assignment of such a value, an assumption or a check, or stores a
/// value of the width of the field.
pub open spec fn plain_stmt(body: Body, s: Stmt) -> bool {
    match s {
        Stmt::Assign(v, rv) => plain_rvalue(body, v, rv),
        Stmt::Assume(o) => narrow(body, o),
        Stmt::PutStatic(f, x) => integral(body, x) && width(body, x) == desc::field_width(f.desc@),
        Stmt::PutField { obj, field, val } => {
            &&& narrow(body, obj)
            &&& integral(body, val)
            &&& width(body, val) == desc::field_width(field.desc@)
        },
        Stmt::Check(_) | Stmt::Nop => true,
        _ => false,
    }
}

/// The terminator tests values of 32 bits.
pub open spec fn plain_term(body: Body, t: Terminator) -> bool {
    match t {
        Terminator::Branch { cond, .. } => narrow(body, cond),
        Terminator::Switch { value, .. } => narrow(body, value),
        _ => true,
    }
}

/// The body is over values of 32 and 64 bits and fields alone, without floating point,
/// calls, arrays, strings and new objects, and its conditions are of 32 bits.
pub open spec fn plain(body: Body) -> bool {
    &&& body.well_formed()
    &&& forall|i: int|
        0 <= i < body.vars@.len() ==> (#[trigger] body.vars@[i]).ty != Ty::Double && body.vars@[i].ty
            != Ty::Float
    &&& forall|i: int|
        0 <= i < body.obligations@.len() ==> narrow(body, (#[trigger] body.obligations@[i]).cond)
    &&& forall|i: int, j: int|
        0 <= i < body.blocks@.len() && 0 <= j < body.blocks@[i].stmts@.len() ==> plain_stmt(
            body,
            #[trigger] body.blocks@[i].stmts@[j],
        )
    &&& forall|i: int|
        0 <= i < body.blocks@.len() ==> plain_term(body, (#[trigger] body.blocks@[i]).term)
}

/// The static field that the statement reads or writes.
pub open spec fn static_of(s: Stmt) -> Option<FieldKeyV> {
    match s {
        Stmt::Assign(_, Rvalue::GetStatic(f)) | Stmt::PutStatic(f, _) => Some(f@),
        _ => None,
    }
}

/// The field of an object that the statement reads or writes.
pub open spec fn field_of(prog: Program, s: Stmt) -> Option<FieldKeyV> {
    match s {
        Stmt::Assign(_, Rvalue::GetField { field, .. }) | Stmt::PutField { field, .. } => Some(
            wide::owned(prog, field),
        ),
        _ => None,
    }
}

/// Does one of the first `n` statements of the block use the static field?
pub open spec fn block_static(b: Block, n: int, k: FieldKeyV) -> bool {
    exists|j: int| 0 <= j < n && static_of(#[trigger] b.stmts@[j]) == Some(k)
}

/// Does one of the first `n` statements of the block use the field of an object?
pub open spec fn block_field(prog: Program, b: Block, n: int, k: FieldKeyV) -> bool {
    exists|j: int| 0 <= j < n && field_of(prog, #[trigger] b.stmts@[j]) == Some(k)
}

/// Does the body use the static field?
pub open spec fn uses_static(body: Body, k: FieldKeyV) -> bool {
    exists|i: int|
        0 <= i < body.blocks@.len() && block_static(
            #[trigger] body.blocks@[i],
            body.blocks@[i].stmts@.len() as int,
            k,
        )
}

/// Does the body use the field of an object?
pub open spec fn uses_field(prog: Program, body: Body, k: FieldKeyV) -> bool {
    exists|i: int|
        0 <= i < body.blocks@.len() && block_field(
            prog,
            #[trigger] body.blocks@[i],
            body.blocks@[i].stmts@.len() as int,
            k,
        )
}

/// The fields that the body uses are of classes of the program, whose static fields have
/// no initialiser, and those in which it stores are all used in its first block. (Where
/// arms meet, a field that only one of them has used keeps what it has there, whichever
/// arm was taken.)
#[verifier::opaque]
pub open spec fn settled_fields(prog: Program, body: Body) -> bool {
    let b = body.blocks@[body.entry.0 as int];
    &&& forall|k: FieldKeyV| #[trigger]
        uses_static(body, k) ==> prog.has_class(k.class) && prog.body_of(
            runs::clinit_of(k.class),
        ) is None
    &&& forall|k: FieldKeyV| #[trigger] uses_field(prog, body, k) ==> prog.has_class(k.class)
    &&& forall|k: FieldKeyV| #[trigger]
        wide::stores_static(body, k) ==> block_static(b, b.stmts@.len() as int, k)
    &&& forall|k: FieldKeyV| #[trigger]
        wide::stores_field(prog, body, k) ==> block_field(prog, b, b.stmts@.len() as int, k)
}

/// The rvalue can have the value: it is what is computed, or an input of its type and
/// in its range.
pub open spec fn possible(vals: Mem, rv: Rvalue, x: Value) -> bool {
    &&& x == wide::rvalue(vals, rv, x)
    &&& rv matches Rvalue::Nondet(ty, b) ==> {
        &&& wide::has_width(x, state::ty_width(ty))
        &&& encode::nondet_range(b, false) matches Some(r) ==> r.0 <= x.number() <= r.1
    }
}

/// A run passes the statement, with the values after it.
pub open spec fn passes(s: Stmt, vals: Mem, after: Mem) -> bool {
    match s {
        Stmt::Assign(v, rv) => exists|x: Value| #[trigger]
            possible(vals, rv, x) && after == vals.with_var(v.0 as int, x),
        Stmt::Assume(o) => wide::operand(vals, o) != Value::I32(0) && after == vals,
        Stmt::PutStatic(f, x) => after == vals.with_static(f@, wide::operand(vals, x)),
        Stmt::PutField { obj, field, val } => after == vals.with_field(
            wide::owned(vals.prog, field),
            wide::operand(vals, obj).number() as i32,
            wide::operand(vals, val),
        ),
        _ => after == vals,
    }
}

/// A run passes the first `n` statements of a block.
pub open spec fn through(b: Block, vals: Mem, after: Mem, n: nat) -> bool
    decreases n,
{
    if n == 0 {
        after == vals
    } else {
        exists|mid: Mem| #[trigger]
            passes(b.stmts@[n - 1], mid, after) && through(b, vals, mid, (n - 1) as nat)
    }
}

/// The statement is a check of the obligation that fails.
pub open spec fn fails_at(body: Body, s: Stmt, vals: Mem, id: ObligationId) -> bool {
    s == Stmt::Check(id) && wide::operand(vals, body.obligations@[id.0 as int].cond) == Value::I32(0)
}

/// A check of the obligation fails in the block, with the values before it.
pub open spec fn fails_in(body: Body, b: Block, vals: Mem, id: ObligationId, k: int, at: Mem) -> bool {
    &&& 0 <= k < b.stmts@.len()
    &&& through(b, vals, at, k as nat)
    &&& fails_at(body, b.stmts@[k], at, id)
}

/// A run goes on from the block to another one, with the values at its end.
pub open spec fn goes(b: Block, vals: Mem, at: Mem, to: BlockId) -> bool {
    &&& through(b, vals, at, b.stmts@.len())
    &&& wide::next_block(b.term, at) == Some(to)
}

/// Some run from the start of a block, of at most `n` blocks, fails a check of the
/// obligation before it comes to `stop`.
pub open spec fn fails(
    body: Body,
    block: BlockId,
    vals: Mem,
    stop: Option<BlockId>,
    id: ObligationId,
    n: nat,
) -> bool
    decreases n,
{
    let b = body.blocks@[block.0 as int];
    &&& n > 0
    &&& stop != Some(block)
    &&& {
        ||| exists|k: int, at: Mem| #[trigger] fails_in(body, b, vals, id, k, at)
        ||| exists|at: Mem, to: BlockId| #[trigger]
            goes(b, vals, at, to) && fails(body, to, at, stop, id, (n - 1) as nat)
    }
}

/// Some run from the start of a block comes to `stop` after `n` blocks.
pub open spec fn arrives(
    body: Body,
    block: BlockId,
    vals: Mem,
    stop: BlockId,
    end: Mem,
    n: nat,
) -> bool
    decreases n,
{
    if stop == block {
        n == 0 && end == vals
    } else {
        n > 0 && exists|at: Mem, to: BlockId| #[trigger]
            goes(body.blocks@[block.0 as int], vals, at, to) && arrives(
                body,
                to,
                at,
                stop,
                end,
                (n - 1) as nat,
            )
    }
}

/// The assignments agree on the symbols below `n`.
pub open spec fn same_below(a: spec_fn(nat) -> i64, b: spec_fn(nat) -> i64, n: nat) -> bool {
    forall|p: nat| p < n ==> #[trigger] a(p) == b(p)
}

/// Every formula of the list holds.
pub open spec fn all_true(fs: Seq<Tm>, env: spec_fn(nat) -> i64) -> bool {
    forall|i: int| 0 <= i < fs.len() ==> wide::truth_of(#[trigger] fs[i], env)
}

/// No values of the symbols make all of the formulas true.
pub open spec fn unsatisfiable(asserted: Seq<Tm>, assumed: Seq<Tm>) -> bool {
    forall|env: spec_fn(nat) -> i64| #[trigger] all_true(asserted, env) ==> !all_true(assumed, env)
}

/// The answer is one, and what is said to have no solution has none.
pub open spec fn told_truth(q: Asked) -> bool {
    match q {
        Asked::Check { asserted, assumed, answer } => match answer {
            SatResult::Sat => true,
            SatResult::Unsat => unsatisfiable(asserted, assumed),
            SatResult::Unknown => false,
        },
        _ => true,
    }
}

/// Every answer is one and is true.
pub open spec fn truthful(log: Seq<Asked>) -> bool {
    forall|i: int| 0 <= i < log.len() ==> told_truth(#[trigger] log[i])
}

/// Is a violation of the obligation of the method among those found?
pub open spec fn is_found(found: explore::Findings, method: ir::MethodKeyV, id: ObligationId) -> bool {
    exists|i: int|
        0 <= i < found.violations@.len() && (#[trigger] found.violations@[i]).method@ == method
            && found.violations@[i].id == id
}

/// Nothing was cut short, the solver told the truth, and no violation of the
/// obligation was found.
pub open spec fn clean<'a, S: Solver>(e: Explorer<'a, S>, id: ObligationId) -> bool {
    &&& e.found.all_paths_complete
    &&& e.has_budget()
    &&& truthful(e.log())
    &&& !is_found(e.found, e.enc.body.key@, id)
}

/// Every variable has a term of the width of its type, and nothing depends on what is not
/// modelled.
pub open spec fn formed<'a, S: Solver>(e: Explorer<'a, S>) -> bool {
    let n = e.enc.body.vars@.len() as int;
    &&& e.ok()
    &&& e.call_depth == 0
    &&& !e.enc.ascii_only
    &&& plain(*e.enc.body)
    &&& settled_fields(*e.enc.prog, *e.enc.body)
    &&& formed_state(e.enc.terms, e.enc.st, n, *e.enc.body, *e.enc.prog)
}

/// As [`formed`], and every field in which the body stores has a term.
pub open spec fn shaped<'a, S: Solver>(e: Explorer<'a, S>) -> bool {
    formed(e) && opened(e.enc.st, *e.enc.body, *e.enc.prog)
}

/// As [`formed`], of a state.
pub open spec fn formed_state(ts: Terms, s: State, n: int, body: Body, prog: Program) -> bool {
    &&& forall|i: int| 0 <= i < n ==> (#[trigger] s.vars@[i]) is Some
    &&& forall|i: int| 0 <= i < n ==> !#[trigger] s.tainted@[i]
    &&& forall|i: int|
        0 <= i < n ==> ((#[trigger] s.var_widths@[i]) is None || s.var_widths@[i] == Some(
            state::ty_width(body.vars@[i].ty),
        ))
    &&& !s.path_tainted
    &&& fields_used(s, body, prog)
    &&& resting(ts, s, body, prog)
}

/// As [`shaped`], of a state.
pub open spec fn shaped_state(ts: Terms, s: State, n: int, body: Body, prog: Program) -> bool {
    formed_state(ts, s, n, body, prog) && opened(s, body, prog)
}

/// Only fields that the body uses have terms, and none depends on what is not modelled.
#[verifier::opaque]
pub open spec fn used_maps(
    statics: Assoc<FieldKey, Term>,
    fields: Assoc<FieldKey, Term>,
    static_tainted: Assoc<FieldKey, ()>,
    field_tainted: Assoc<FieldKey, ()>,
    body: Body,
    prog: Program,
) -> bool {
    &&& forall|k: FieldKeyV| (#[trigger] statics.at(k)) is Some ==> uses_static(body, k)
    &&& forall|k: FieldKeyV| (#[trigger] fields.at(k)) is Some ==> uses_field(prog, body, k)
    &&& forall|k: FieldKeyV| !#[trigger] static_tainted.holds(k)
    &&& forall|k: FieldKeyV| !#[trigger] field_tainted.holds(k)
}

/// As [`used_maps`], of a state.
pub open spec fn fields_used(s: State, body: Body, prog: Program) -> bool {
    used_maps(s.statics, s.field_arrays, s.static_tainted, s.field_tainted, body, prog)
}

/// As [`wide::rest`], of a state.
pub open spec fn resting(ts: Terms, s: State, body: Body, prog: Program) -> bool {
    wide::rest(ts, s.statics, s.field_arrays, body, prog)
}

/// Every field in which the body stores has a term.
#[verifier::opaque]
pub open spec fn opened_maps(
    statics: Assoc<FieldKey, Term>,
    fields: Assoc<FieldKey, Term>,
    body: Body,
    prog: Program,
) -> bool {
    &&& forall|k: FieldKeyV| wide::stores_static(body, k) ==> (#[trigger] statics.at(k)) is Some
    &&& forall|k: FieldKeyV| wide::stores_field(prog, body, k) ==> (#[trigger] fields.at(k)) is Some
}

/// As [`opened_maps`], of a state.
pub open spec fn opened(s: State, body: Body, prog: Program) -> bool {
    opened_maps(s.statics, s.field_arrays, body, prog)
}

/// Every field that the first `n` statements of the block use has a term.
#[verifier::opaque]
spec fn opened_by(s: State, prog: Program, b: Block, n: int) -> bool {
    &&& forall|k: FieldKeyV| block_static(b, n, k) ==> (#[trigger] s.statics.at(k)) is Some
    &&& forall|k: FieldKeyV| block_field(prog, b, n, k) ==> (#[trigger] s.field_arrays.at(k)) is Some
}

/// Every field that had a term has one.
#[verifier::opaque]
spec fn keeps_fields(s: State, old: State) -> bool {
    &&& forall|k: FieldKeyV| old.statics.at(k) is Some ==> (#[trigger] s.statics.at(k)) is Some
    &&& forall|k: FieldKeyV|
        old.field_arrays.at(k) is Some ==> (#[trigger] s.field_arrays.at(k)) is Some
}

/// The path holds.
pub open spec fn on_path<'a, S: Solver>(e: Explorer<'a, S>, env: spec_fn(nat) -> i64) -> bool {
    forall|i: int| 0 <= i < e.path@.len() ==> wide::truth_of(e.enc.terms.tm(#[trigger] e.path@[i]), env)
}

/// The term of the static field has its value; without a term it is as at the start.
pub open spec fn static_is(
    ts: Terms,
    t: Option<Term>,
    k: FieldKeyV,
    vals: Mem,
    env: spec_fn(nat) -> i64,
) -> bool {
    (vals.statics)(k) == match t {
        Some(t) => wide::value_of(ts.tm(t), env),
        None => wide::initial(k),
    }
}

/// The term of the field has its values; without a term it is as at the start.
pub open spec fn field_is(
    ts: Terms,
    t: Option<Term>,
    k: FieldKeyV,
    vals: Mem,
    env: spec_fn(nat) -> i64,
) -> bool {
    forall|o: i32| #[trigger]
        (vals.fields)(k, o) == match t {
            Some(t) => wide::element_of(ts.tm(t), env, o),
            None => wide::initial(k),
        }
}

/// The terms of the fields have the values.
#[verifier::opaque]
pub open spec fn maps_are(
    ts: Terms,
    statics: Assoc<FieldKey, Term>,
    fields: Assoc<FieldKey, Term>,
    vals: Mem,
    env: spec_fn(nat) -> i64,
) -> bool {
    &&& forall|k: FieldKeyV| static_is(ts, #[trigger] statics.at(k), k, vals, env)
    &&& forall|k: FieldKeyV| field_is(ts, #[trigger] fields.at(k), k, vals, env)
}

/// As [`maps_are`], of a state.
pub open spec fn fields_are(ts: Terms, s: State, vals: Mem, env: spec_fn(nat) -> i64) -> bool {
    maps_are(ts, s.statics, s.field_arrays, vals, env)
}

/// The terms of the variables and of the fields have the values.
pub open spec fn vars_are(ts: Terms, s: State, vals: Mem, env: spec_fn(nat) -> i64) -> bool {
    &&& s.vars@.len() == vals.vars.len()
    &&& forall|i: int|
        0 <= i < vals.vars.len() ==> (#[trigger] s.vars@[i] matches Some(t) && wide::value_of(
            ts.tm(t),
            env,
        ) == vals.vars[i])
    &&& fields_are(ts, s, vals, env)
}

/// The explorer stands for a run with the values, under the assignment.
pub open spec fn stands_for<'a, S: Solver>(
    e: Explorer<'a, S>,
    env: spec_fn(nat) -> i64,
    vals: Mem,
) -> bool {
    &&& wide::store_holds(e.enc.terms, env)
    &&& on_path(e, env)
    &&& vals.prog == *e.enc.prog
    &&& wide::typed(*e.enc.body, vals)
    &&& vars_are(e.enc.terms, e.enc.st, vals, env)
}

/// The explorer stands for a run with the values, under an assignment that agrees with
/// the given one below `n`.
pub open spec fn reached_by<'a, S: Solver>(
    e: Explorer<'a, S>,
    env: spec_fn(nat) -> i64,
    n: nat,
    vals: Mem,
) -> bool {
    exists|more: spec_fn(nat) -> i64| #[trigger]
        same_below(more, env, n) && stands_for(e, more, vals)
}

/// What the store asserts can hold, under an assignment that agrees with the given one
/// below `n`.
pub open spec fn holdable(ts: Terms, env: spec_fn(nat) -> i64, n: nat) -> bool {
    exists|more: spec_fn(nat) -> i64| #[trigger]
        same_below(more, env, n) && wide::store_holds(ts, more)
}

proof fn lemma_same_value(t: Tm, n: nat, a: spec_fn(nat) -> i64, b: spec_fn(nat) -> i64)
    requires
        term::symbols_below(t, n),
        same_below(a, b, n),
    ensures
        wide::value_of(t, a) == wide::value_of(t, b),
        wide::truth_of(t, a) == wide::truth_of(t, b),
        forall|i: i32| #[trigger] wide::element_of(t, a, i) == wide::element_of(t, b, i),
    decreases t,
{
    reveal_with_fuel(wide::value_of, 2);
    reveal_with_fuel(wide::truth_of, 2);
    reveal_with_fuel(wide::element_of, 2);
    match t {
        Tm::FreshBv(at, _, _) => {
            assert(a(at) == b(at));
        },
        Tm::App1(_, x) => {
            lemma_same_value(*x, n, a, b);
        },
        Tm::App2(_, x, y) => {
            lemma_same_value(*x, n, a, b);
            lemma_same_value(*y, n, a, b);
            let i = wide::value_of(*y, a).number() as i32;
            assert(wide::element_of(*x, a, i) == wide::element_of(*x, b, i));
        },
        Tm::App3(_, x, y, z) => {
            lemma_same_value(*x, n, a, b);
            lemma_same_value(*y, n, a, b);
            lemma_same_value(*z, n, a, b);
            assert forall|i: i32| #[trigger] wide::element_of(t, a, i) == wide::element_of(t, b, i) by {
                assert(wide::element_of(*x, a, i) == wide::element_of(*x, b, i));
                assert(wide::element_of(*y, a, i) == wide::element_of(*y, b, i));
                assert(wide::element_of(*z, a, i) == wide::element_of(*z, b, i));
            }
        },
        _ => {},
    }
}

proof fn lemma_same_term(ts: Terms, t: Term, a: spec_fn(nat) -> i64, b: spec_fn(nat) -> i64)
    requires
        ts.has(t),
        same_below(a, b, ts.size()),
    ensures
        wide::value_of(ts.tm(t), a) == wide::value_of(ts.tm(t), b),
        wide::truth_of(ts.tm(t), a) == wide::truth_of(ts.tm(t), b),
        forall|i: i32| #[trigger]
            wide::element_of(ts.tm(t), a, i) == wide::element_of(ts.tm(t), b, i),
{
    ts.lemma_symbols(t);
    lemma_same_value(ts.tm(t), ts.size(), a, b);
}

/// What fields hold does not change with later terms and symbols.
proof fn lemma_fields_later(
    new: Terms,
    s: State,
    old: Terms,
    t: State,
    n: nat,
    vals: Mem,
    env: spec_fn(nat) -> i64,
    more: spec_fn(nat) -> i64,
)
    requires
        old.well_formed(),
        t.fits(n, old),
        forall|x: Term| old.has(x) ==> #[trigger] new.tm(x) == old.tm(x),
        same_below(more, env, old.size()),
        fields_are(old, t, vals, env),
        s.statics.agrees(t.statics),
        s.field_arrays.agrees(t.field_arrays),
    ensures
        fields_are(new, s, vals, more),
{
    reveal(maps_are);
    t.lemma_fits(n, old);
    assert forall|k: FieldKeyV| static_is(new, #[trigger] s.statics.at(k), k, vals, more) by {
        assert(static_is(old, t.statics.at(k), k, vals, env));
        assert(old.has_opt(t.statics.at(k)));
        if let Some(x) = t.statics.at(k) {
            lemma_same_term(old, x, more, env);
        }
    }
    assert forall|k: FieldKeyV| field_is(new, #[trigger] s.field_arrays.at(k), k, vals, more) by {
        assert(field_is(old, t.field_arrays.at(k), k, vals, env));
        assert(old.has_opt(t.field_arrays.at(k)));
        if let Some(x) = t.field_arrays.at(k) {
            lemma_same_term(old, x, more, env);
        }
    }
}

/// Values of symbols that come later change nothing.
proof fn lemma_later_symbols<'a, S: Solver>(
    e: Explorer<'a, S>,
    env: spec_fn(nat) -> i64,
    more: spec_fn(nat) -> i64,
    vals: Mem,
)
    requires
        e.ok(),
        stands_for(e, env, vals),
        same_below(more, env, e.enc.terms.size()),
    ensures
        stands_for(e, more, vals),
{
    let ts = e.enc.terms;
    e.enc.st.lemma_fits(e.enc.body.vars@.len(), ts);
    lemma_store_later(ts, env, more);
    assert forall|i: int| 0 <= i < e.path@.len() implies wide::truth_of(
        ts.tm(#[trigger] e.path@[i]),
        more,
    ) by {
        lemma_same_term(ts, e.path@[i], more, env);
    }
    lemma_fields_later(
        ts,
        e.enc.st,
        ts,
        e.enc.st,
        e.enc.body.vars@.len(),
        vals,
        env,
        more,
    );
    assert forall|i: int| 0 <= i < vals.vars.len() implies (#[trigger] e.enc.st.vars@[i] matches Some(t)
        && wide::value_of(ts.tm(t), more) == vals.vars[i]) by {
        let t = e.enc.st.vars@[i]->0;
        assert(ts.has_opt(e.enc.st.vars@[i]));
        lemma_same_term(ts, t, more, env);
    }
}

proof fn lemma_store_later(ts: Terms, env: spec_fn(nat) -> i64, more: spec_fn(nat) -> i64)
    requires
        ts.well_formed(),
        wide::store_holds(ts, env),
        same_below(more, env, ts.size()),
    ensures
        wide::store_holds(ts, more),
{
    assert forall|i: int| 0 <= i < ts.asserted().len() implies wide::truth_of(
        ts.tm(#[trigger] ts.asserted()[i]),
        more,
    ) by {
        ts.lemma_asserted_in();
        lemma_same_term(ts, ts.asserted()[i], more, env);
    }
}

/// What holds in a store holds when more terms were built.
proof fn lemma_store_built(new: Terms, old: Terms, env: spec_fn(nat) -> i64)
    requires
        new.built_from(old),
        old.well_formed(),
        wide::store_holds(old, env),
    ensures
        wide::store_holds(new, env),
{
    assert forall|i: int| 0 <= i < new.asserted().len() implies wide::truth_of(
        new.tm(#[trigger] new.asserted()[i]),
        env,
    ) by {
        old.lemma_asserted_in();
        assert(wide::truth_of(old.tm(old.asserted()[i]), env));
    }
}

/// The explorer stands for the same run when only terms were built.
proof fn lemma_stands_built<'a, S: Solver>(
    new: Explorer<'a, S>,
    old: Explorer<'a, S>,
    env: spec_fn(nat) -> i64,
    vals: Mem,
)
    requires
        old.ok(),
        stands_for(old, env, vals),
        new.enc.terms.built_from(old.enc.terms),
        new.enc.body == old.enc.body,
        new.enc.prog == old.enc.prog,
        new.enc.st.vars@ == old.enc.st.vars@,
        new.enc.st.statics.agrees(old.enc.st.statics),
        new.enc.st.field_arrays.agrees(old.enc.st.field_arrays),
        new.path@ == old.path@,
    ensures
        stands_for(new, env, vals),
{
    assert(same_below(env, env, old.enc.terms.size()));
    lemma_fields_later(
        new.enc.terms,
        new.enc.st,
        old.enc.terms,
        old.enc.st,
        old.enc.body.vars@.len(),
        vals,
        env,
        env,
    );
    let ts = old.enc.terms;
    old.enc.st.lemma_fits(old.enc.body.vars@.len(), ts);
    lemma_store_built(new.enc.terms, ts, env);
    assert forall|i: int| 0 <= i < new.path@.len() implies wide::truth_of(
        new.enc.terms.tm(#[trigger] new.path@[i]),
        env,
    ) by {
        assert(ts.has(old.path@[i]));
        assert(wide::truth_of(ts.tm(old.path@[i]), env));
    }
    assert forall|i: int| 0 <= i < vals.vars.len() implies (#[trigger] new.enc.st.vars@[i] matches Some(t)
        && wide::value_of(new.enc.terms.tm(t), env) == vals.vars[i]) by {
        assert(ts.has_opt(old.enc.st.vars@[i]));
        assert(old.enc.st.vars@[i] is Some);
    }
}

/// Where every variable has a term, reading one changes nothing.
proof fn lemma_settled_same<'a, S: Solver>(new: Encoder<'a>, old: Explorer<'a, S>)
    requires
        formed(old),
        new.settled_from(old.enc),
    ensures
        new.st.vars@ == old.enc.st.vars@,
        new.st == (State { vars: new.st.vars, ..old.enc.st }),
{
    old.enc.st.lemma_fits(old.enc.body.vars@.len(), old.enc.terms);
    assert forall|i: int| 0 <= i < new.st.vars@.len() implies new.st.vars@[i] == old.enc.st.vars@[i] by {
        assert(old.enc.st.vars@[i] is Some);
    }
    assert(new.st.vars@ =~= old.enc.st.vars@);
}

proof fn lemma_operand<'a, S: Solver>(
    new: Encoder<'a>,
    old: Explorer<'a, S>,
    o: Operand,
    env: spec_fn(nat) -> i64,
    vals: Mem,
)
    requires
        formed(old),
        new.settled_from(old.enc),
        stands_for(old, env, vals),
        o.in_range(old.enc.body.vars@.len()),
        integral(*old.enc.body, o),
    ensures
        wide::value_of(new.operand_tm(o), env) == wide::operand(vals, o),
        !old.enc.is_tainted(o),
        old.enc.operand_width(o) == width(*old.enc.body, o),
        wide::has_width(wide::operand(vals, o), width(*old.enc.body, o)),
        !old.enc.is_float(o),
{
    reveal_with_fuel(wide::value_of, 2);
    lemma_settled_same(new, old);
    lemma_widths(old, o);
    old.enc.st.lemma_fits(old.enc.body.vars@.len(), old.enc.terms);
    if let Operand::Var(v) = o {
        assert(old.enc.st.vars@[v.0 as int] is Some);
        assert(wide::has_width(
            vals.vars[v.0 as int],
            state::ty_width(old.enc.body.vars@[v.0 as int].ty),
        ));
        assert(old.enc.terms.has_opt(old.enc.st.vars@[v.0 as int]));
    }
}

proof fn lemma_widths<'a, S: Solver>(old: Explorer<'a, S>, o: Operand)
    requires
        formed(old),
        o.in_range(old.enc.body.vars@.len()),
        integral(*old.enc.body, o),
    ensures
        !old.enc.is_tainted(o),
        old.enc.operand_width(o) == width(*old.enc.body, o),
        !old.enc.is_float(o),
{
    let body = *old.enc.body;
    if let Operand::Var(v) = o {
        let i = v.0 as int;
        assert(!old.enc.st.tainted@[i]);
        assert(old.enc.st.var_widths@[i] is None || old.enc.st.var_widths@[i] == Some(
            state::ty_width(body.vars@[i].ty),
        ));
    }
}

/// What was found, asked and built before is still there.
spec fn grew<'a, S: Solver>(new: Explorer<'a, S>, old: Explorer<'a, S>) -> bool {
    &&& new.found.follows(old.found)
    &&& new.effort.follows(old.effort)
    &&& explore::extends(new.log(), old.log())
    &&& new.enc.terms.grown_from(old.enc.terms)
    &&& new.enc.body == old.enc.body
    &&& new.enc.prog == old.enc.prog
    &&& new.enc.ascii_only == old.enc.ascii_only
}

proof fn lemma_grew_self<'a, S: Solver>(e: Explorer<'a, S>)
    requires
        e.ok(),
    ensures
        grew(e, e),
{
    e.lemma_after_refl();
}

proof fn lemma_grew_trans<'a, S: Solver>(new: Explorer<'a, S>, mid: Explorer<'a, S>, old: Explorer<'a, S>)
    requires
        grew(new, mid),
        grew(mid, old),
    ensures
        grew(new, old),
{
    explore::lemma_extends_trans(new.log(), mid.log(), old.log());
    explore::lemma_extends_trans(new.found.violations@, mid.found.violations@, old.found.violations@);
    explore::lemma_extends_trans(new.found.skipped@, mid.found.skipped@, old.found.skipped@);
    explore::lemma_extends_trans(new.found.inlined@, mid.found.inlined@, old.found.inlined@);
    let (a, b, c) = (new.enc.terms.asserted(), mid.enc.terms.asserted(), old.enc.terms.asserted());
    assert(a.take(c.len() as int) =~= a.take(b.len() as int).take(c.len() as int));
    assert forall|t: Term| old.enc.terms.has(t) implies #[trigger] new.enc.terms.tm(t)
        == old.enc.terms.tm(t) by {
        assert(mid.enc.terms.has(t));
        assert(mid.enc.terms.tm(t) == old.enc.terms.tm(t));
    }
}

/// What is clean at the end was so before.
proof fn lemma_clean_before<'a, S: Solver>(new: Explorer<'a, S>, old: Explorer<'a, S>, id: ObligationId)
    requires
        grew(new, old),
        clean(new, id),
    ensures
        clean(old, id),
{
    assert forall|i: int| 0 <= i < old.log().len() implies told_truth(#[trigger] old.log()[i]) by {
        assert(new.log().take(old.log().len() as int)[i] == old.log()[i]);
        assert(told_truth(new.log()[i]));
    }
    let vs = old.found.violations@;
    if is_found(old.found, old.enc.body.key@, id) {
        let i = choose|i: int|
            0 <= i < vs.len() && (#[trigger] vs[i]).method@ == old.enc.body.key@ && vs[i].id == id;
        assert(new.found.violations@.take(vs.len() as int)[i] == vs[i]);
        assert(new.found.violations@[i] == vs[i]);
    }
}

/// A question whose formulas hold is found satisfiable.
proof fn lemma_found_satisfiable<'a, S: Solver>(
    new: Explorer<'a, S>,
    old: Explorer<'a, S>,
    extra: Option<Term>,
    res: SatResult,
    env: spec_fn(nat) -> i64,
)
    requires
        new.answered(old, extra, res),
        truthful(new.log()),
        !new.found.exhausted,
        wide::store_holds(old.enc.terms, env),
        on_path(old, env),
        extra matches Some(c) ==> wide::truth_of(old.enc.terms.tm(c), env),
    ensures
        res == SatResult::Sat,
{
    let ts = old.enc.terms;
    let q = new.log()[old.log().len() as int];
    assert(told_truth(q));
    let asserted = explore::tms(ts, ts.asserted());
    let path = explore::tms(ts, old.path@);
    let assumed = match extra {
        Some(c) => path.push(ts.tm(c)),
        None => path,
    };
    assert forall|i: int| 0 <= i < asserted.len() implies wide::truth_of(#[trigger] asserted[i], env) by {
        assert(asserted[i] == ts.tm(ts.asserted()[i]));
    }
    assert(all_true(asserted, env));
    assert forall|i: int| 0 <= i < assumed.len() implies wide::truth_of(#[trigger] assumed[i], env) by {
        if i < path.len() {
            assert(assumed[i] == ts.tm(old.path@[i]));
        }
    }
    assert(all_true(assumed, env));
    assert(q == Asked::Check { asserted, assumed, answer: res });
    if res == SatResult::Unsat {
        assert(unsatisfiable(asserted, assumed));
    }
}

proof fn lemma_answer_grew<'a, S: Solver>(
    new: Explorer<'a, S>,
    old: Explorer<'a, S>,
    extra: Option<Term>,
    res: SatResult,
)
    requires
        old.ok(),
        new.answered(old, extra, res),
    ensures
        grew(new, old),
        new.enc == old.enc,
        new.path == old.path,
{
    old.lemma_after_refl();
    if new.log() != old.log() {
        assert(new.log().take(old.log().len() as int) =~= old.log());
    }
}

/// The value that an input is given.
spec fn with_input(env: spec_fn(nat) -> i64, at: nat, x: i64) -> spec_fn(nat) -> i64 {
    |p: nat|
        if p == at {
            x
        } else {
            env(p)
        }
}

proof fn lemma_input<'a, S: Solver>(
    new: Encoder<'a>,
    old: Explorer<'a, S>,
    ty: Ty,
    b: Option<u8>,
    t: Term,
    env: spec_fn(nat) -> i64,
    x: Value,
)
    requires
        old.ok(),
        !old.enc.ascii_only,
        ty == Ty::Int || ty == Ty::Long,
        super::heap::nondet_outcome(new, old.enc, ty, b, t),
        wide::store_holds(old.enc.terms, env),
        wide::has_width(x, state::ty_width(ty)),
        encode::nondet_range(b, false) matches Some(r) ==> r.0 <= x.number() <= r.1,
    ensures
        wide::store_holds(new.terms, with_input(env, old.enc.terms.size(), x.number())),
        wide::value_of(new.terms.tm(t), with_input(env, old.enc.terms.size(), x.number())) == x,
        same_below(
            with_input(env, old.enc.terms.size(), x.number()),
            env,
            old.enc.terms.size(),
        ),
{
    let ts = old.enc.terms;
    let more = with_input(env, ts.size(), x.number());
    let v = new.terms.tm(t);
    let w = state::ty_width(ty);
    let facts = encode::nondet_facts(v, ty, b, false);
    reveal_with_fuel(wide::truth_of, 3);
    reveal_with_fuel(wide::value_of, 2);
    assert(wide::value_of(v, more) == x);
    lemma_store_later(ts, env, more);
    ts.lemma_asserted_in();
    assert forall|i: int| 0 <= i < new.terms.asserted().len() implies wide::truth_of(
        new.terms.tm(#[trigger] new.terms.asserted()[i]),
        more,
    ) by {
        let n = ts.asserted().len() as int;
        if i < n {
            assert(new.terms.asserted().take(n)[i] == ts.asserted()[i]);
            assert(new.terms.tm(ts.asserted()[i]) == ts.tm(ts.asserted()[i]));
        } else {
            assert(new.terms.tm(new.terms.asserted()[n + (i - n)]) == facts[i - n]);
            assert(facts.len() == 1);
            let r = encode::nondet_range(b, false)->0;
            let (low, high) = (Tm::Bv(r.0, w), Tm::Bv(r.1, w));
            assert(facts[0] == term::tm_and(formula::sge(v, low), formula::sle(v, high)));
            assert(wide::value_of(low, more).number() == r.0);
            assert(wide::value_of(high, more).number() == r.1);
        }
    }
}

/// An assignment.
#[verifier::spinoff_prover]
proof fn lemma_assigned<'a, S: Solver>(
    new: Explorer<'a, S>,
    old: Explorer<'a, S>,
    v: VarId,
    rv: Rvalue,
    env: spec_fn(nat) -> i64,
    vals: Mem,
    after: Mem,
)
    requires
        formed(old),
        new.ok(),
        new.plain_assigned(old, v, rv),
        plain_rvalue(*old.enc.body, v, rv),
        static_of(Stmt::Assign(v, rv)) matches Some(k) ==> uses_static(*old.enc.body, k),
        field_of(*old.enc.prog, Stmt::Assign(v, rv)) matches Some(k) ==> uses_field(
            *old.enc.prog,
            *old.enc.body,
            k,
        ),
        ir::stmt_in_range(Stmt::Assign(v, rv), old.enc.body.vars@.len(), old.enc.body.obligations@.len()),
    ensures
        grew(new, old),
        formed(new),
        keeps_fields(new.enc.st, old.enc.st),
        static_of(Stmt::Assign(v, rv)) matches Some(k) ==> new.enc.st.statics.at(k) is Some,
        field_of(*old.enc.prog, Stmt::Assign(v, rv)) matches Some(k) ==> new.enc.st.field_arrays.at(
            k,
        ) is Some,
        wide::store_holds(old.enc.terms, env) ==> holdable(
            new.enc.terms,
            env,
            old.enc.terms.size(),
        ),
        stands_for(old, env, vals) && passes(Stmt::Assign(v, rv), vals, after) ==> reached_by(
            new,
            env,
            old.enc.terms.size(),
            after,
        ),
{
    let (encoded, t, x) = choose|encoded: Explorer<'a, S>, t: Term, x: Option<Term>|
        {
            &&& #[trigger] encoded.plain_encoded(old, rv, t, x)
            &&& new.value_set(encoded, old, v, rv, t, x)
        };
    let mid = choose|mid: Explorer<'a, S>|
        {
            &&& mid == (Explorer { enc: mid.enc, ..old })
            &&& #[trigger] rvalue::rvalue_outcome(mid.enc, old.enc, rv, t)
            &&& encoded == mid
        };
    assert(encoded == mid);
    let body = *old.enc.body;
    let nv = body.vars@.len();
    let ts = old.enc.terms;
    let ops = ir::rvalue_operands(rv);
    old.enc.st.lemma_fits(nv, ts);
    new.enc.st.lemma_fits(nv, new.enc.terms);
    old.lemma_after_refl();
    match rv {
        Rvalue::Use(o) | Rvalue::Neg(o) | Rvalue::Cast(_, o) => {
            assert(ops[0] == o);
            lemma_widths(old, o);
        },
        Rvalue::Bin(_, a, b) | Rvalue::Cmp(a, b) => {
            assert(ops[0] == a && ops[1] == b);
            lemma_widths(old, a);
            lemma_widths(old, b);
        },
        Rvalue::GetField { obj, .. } => {
            assert(ops[0] == obj);
            lemma_widths(old, obj);
        },
        _ => {},
    }
    if rv is Nondet {
        assert(mid.enc.st.vars@ == old.enc.st.vars@);
    } else if rv is GetStatic || rv is GetField {
        lemma_opening(mid, old, rv, t);
    } else {
        lemma_settled_same(mid.enc, old);
        mid.enc.terms.lemma_built_grows(ts);
    }
    assert(!old.enc.taints(rv, old.call_depth)) by {
        reveal(used_maps);
        if let Rvalue::GetStatic(f) = rv {
            reveal(settled_fields);
            assert(uses_static(body, f@));
            assert(!old.enc.st.static_tainted.holds(f@));
        }
        if let Rvalue::GetField { obj, field } = rv {
            assert(!old.enc.st.field_tainted.holds(wide::owned(*old.enc.prog, field)));
        }
    }
    assert(keeps_fields(new.enc.st, old.enc.st) && fields_used(new.enc.st, body, *old.enc.prog)) by {
        reveal(keeps_fields);
        reveal(used_maps);
    }
    assert(resting(new.enc.terms, new.enc.st, body, *old.enc.prog)) by {
        if rv is GetStatic || rv is GetField {
            lemma_opening_rests(mid, old, rv, t);
        }
    }
    assert(grew(new, old));
    let i = v.0 as int;
    assert(formed(new)) by {
        assert forall|j: int| 0 <= j < nv implies (#[trigger] new.enc.st.vars@[j]) is Some by {
            assert(old.enc.st.vars@[j] is Some);
        }
        assert forall|j: int| 0 <= j < nv implies !#[trigger] new.enc.st.tainted@[j] by {
            assert(!old.enc.st.tainted@[j]);
        }
        assert forall|j: int|
            0 <= j < nv implies ((#[trigger] new.enc.st.var_widths@[j]) is None
            || new.enc.st.var_widths@[j] == Some(
            state::ty_width(body.vars@[j].ty),
        )) by {
            assert(old.enc.st.var_widths@[j] is None || old.enc.st.var_widths@[j] == Some(
            state::ty_width(body.vars@[j].ty),
        ));
        }
    }
    if let Rvalue::Nondet(ty, b) = rv {
        let low = wide::of_width(
            match encode::nondet_range(b, false) {
                Some(r) => r.0 as i64,
                None => 0,
            },
            state::ty_width(ty),
        );
        if wide::store_holds(ts, env) {
            lemma_input(mid.enc, old, ty, b, t, env, low);
            assert(same_below(with_input(env, ts.size(), low.number()), env, ts.size()));
        }
        if stands_for(old, env, vals) && passes(Stmt::Assign(v, rv), vals, after) {
            let x = choose|x: Value| #[trigger] possible(vals, rv, x) && after == vals.with_var(i, x);
            lemma_input(mid.enc, old, ty, b, t, env, x);
            let more = with_input(env, ts.size(), x.number());
            lemma_later_symbols(old, env, more, vals);
            lemma_assigned_stands(new, old, v, t, more, vals, x);
            assert(same_below(more, env, ts.size()));
        }
    } else if rv is GetStatic || rv is GetField {
        assert(same_below(env, env, ts.size()));
        if wide::store_holds(ts, env) {
            lemma_opening_holds(mid, old, rv, t, env);
        }
        if stands_for(old, env, vals) && passes(Stmt::Assign(v, rv), vals, after) {
            let x = choose|x: Value| #[trigger] possible(vals, rv, x) && after == vals.with_var(i, x);
            lemma_opening_holds(mid, old, rv, t, env);
            lemma_field_read(mid, old, v, rv, t, env, vals);
            lemma_assigned_stands(new, mid, v, t, env, vals, x);
        }
    } else {
        if wide::store_holds(ts, env) {
            lemma_store_built(mid.enc.terms, ts, env);
        }
        assert(same_below(env, env, ts.size()));
        if stands_for(old, env, vals) && passes(Stmt::Assign(v, rv), vals, after) {
            let x = choose|x: Value| #[trigger] possible(vals, rv, x) && after == vals.with_var(i, x);
            lemma_computed(mid.enc, old, v, rv, t, env, vals);
            assert(wide::value_of(new.enc.terms.tm(t), env) == x);
            lemma_assigned_stands(new, old, v, t, env, vals, x);
        }
    }
}

/// Reading a field: at most it is given its first term.
proof fn lemma_opening<'a, S: Solver>(mid: Explorer<'a, S>, old: Explorer<'a, S>, rv: Rvalue, t: Term)
    requires
        formed(old),
        mid == (Explorer { enc: mid.enc, ..old }),
        rvalue::rvalue_outcome(mid.enc, old.enc, rv, t),
        rv is GetStatic || rv is GetField,
        static_of(Stmt::Assign(VarId(0), rv)) matches Some(k) ==> uses_static(*old.enc.body, k),
        field_of(*old.enc.prog, Stmt::Assign(VarId(0), rv)) matches Some(k) ==> uses_field(
            *old.enc.prog,
            *old.enc.body,
            k,
        ),
    ensures
        mid.enc.ok(),
        mid.enc.terms.grown_from(old.enc.terms),
        mid.enc.terms.asserted() == old.enc.terms.asserted(),
        mid.enc.body == old.enc.body,
        mid.enc.prog == old.enc.prog,
        mid.enc.ascii_only == old.enc.ascii_only,
        mid.enc.st == (State {
            vars: mid.enc.st.vars,
            statics: mid.enc.st.statics,
            field_arrays: mid.enc.st.field_arrays,
            ..old.enc.st
        }),
        mid.enc.st.vars@ == old.enc.st.vars@,
        forall|k: FieldKeyV|
            old.enc.st.statics.at(k) is Some ==> #[trigger] mid.enc.st.statics.at(k)
                == old.enc.st.statics.at(k),
        forall|k: FieldKeyV|
            old.enc.st.field_arrays.at(k) is Some ==> #[trigger] mid.enc.st.field_arrays.at(k)
                == old.enc.st.field_arrays.at(k),
        forall|k: FieldKeyV|
            old.enc.st.statics.at(k) is None && (#[trigger] mid.enc.st.statics.at(k)) is Some ==> {
                &&& static_of(Stmt::Assign(VarId(0), rv)) == Some(k)
                &&& mid.enc.terms.tm(mid.enc.st.statics.at(k)->0) == Tm::Bv(
                    0,
                    desc::field_width(k.desc),
                )
            },
        forall|k: FieldKeyV|
            old.enc.st.field_arrays.at(k) is None && (#[trigger] mid.enc.st.field_arrays.at(k)) is Some
                ==> {
                &&& field_of(*old.enc.prog, Stmt::Assign(VarId(0), rv)) == Some(k)
                &&& mid.enc.terms.tm(mid.enc.st.field_arrays.at(k)->0) == term::t1(
                    Op1::ConstArray(desc::field_width(k.desc)),
                    Tm::Bv(0, desc::field_width(k.desc)),
                )
            },
        static_of(Stmt::Assign(VarId(0), rv)) matches Some(k) ==> mid.enc.st.statics.at(k) == Some(t),
        field_of(*old.enc.prog, Stmt::Assign(VarId(0), rv)) matches Some(k)
            ==> mid.enc.st.field_arrays.at(k) is Some,
{
    reveal(settled_fields);
    let ts = old.enc.terms;
    old.enc.st.lemma_fits(old.enc.body.vars@.len(), ts);
    old.lemma_after_refl();
    match rv {
        Rvalue::GetStatic(f) => {
            assert(uses_static(*old.enc.body, f@));
            assert(old.enc.prog.has_class(f.class@));
            if old.enc.st.statics.at(f@) is None {
                let a = mid.enc.terms.asserted();
                assert(a.take(ts.asserted().len() as int) =~= a);
            }
        },
        Rvalue::GetField { obj, field } => {
            let k = wide::owned(*old.enc.prog, field);
            assert(k == super::heap::resolved(old.enc, field));
            assert(uses_field(*old.enc.prog, *old.enc.body, k));
            mid.enc.terms.lemma_built_grows(ts);
            assert forall|i: int| 0 <= i < mid.enc.st.vars@.len() implies mid.enc.st.vars@[i]
                == old.enc.st.vars@[i] by {
                assert(old.enc.st.vars@[i] is Some);
            }
            assert(mid.enc.st.vars@ =~= old.enc.st.vars@);
        },
        _ => {},
    }
}

/// A field that is given its first term has its first value.
proof fn lemma_opening_rests<'a, S: Solver>(
    mid: Explorer<'a, S>,
    old: Explorer<'a, S>,
    rv: Rvalue,
    t: Term,
)
    requires
        formed(old),
        mid == (Explorer { enc: mid.enc, ..old }),
        rvalue::rvalue_outcome(mid.enc, old.enc, rv, t),
        rv is GetStatic || rv is GetField,
        static_of(Stmt::Assign(VarId(0), rv)) matches Some(k) ==> uses_static(*old.enc.body, k),
        field_of(*old.enc.prog, Stmt::Assign(VarId(0), rv)) matches Some(k) ==> uses_field(
            *old.enc.prog,
            *old.enc.body,
            k,
        ),
    ensures
        resting(mid.enc.terms, mid.enc.st, *old.enc.body, *old.enc.prog),
{
    lemma_opening(mid, old, rv, t);
    let (body, prog) = (*old.enc.body, *old.enc.prog);
    let ts = mid.enc.terms;
    mid.enc.st.lemma_fits(body.vars@.len(), ts);
    assert(resting(ts, old.enc.st, body, prog));
    reveal(wide::rest);
    reveal_with_fuel(wide::value_of, 2);
    reveal_with_fuel(wide::element_of, 2);
    assert forall|k: FieldKeyV|
        (#[trigger] mid.enc.st.statics.at(k)) is Some && !wide::stores_static(body, k) implies wide::static_rests(
        ts,
        mid.enc.st.statics.at(k)->0,
        k,
    ) by {
        assert(ts.has_opt(mid.enc.st.statics.at(k)));
        if old.enc.st.statics.at(k) is Some {
            assert(wide::static_rests(ts, old.enc.st.statics.at(k)->0, k));
        }
    }
    assert forall|k: FieldKeyV|
        (#[trigger] mid.enc.st.field_arrays.at(k)) is Some && !wide::stores_field(prog, body, k) implies wide::field_rests(
        ts,
        mid.enc.st.field_arrays.at(k)->0,
        k,
    ) by {
        assert(ts.has_opt(mid.enc.st.field_arrays.at(k)));
        if old.enc.st.field_arrays.at(k) is Some {
            assert(wide::field_rests(ts, old.enc.st.field_arrays.at(k)->0, k));
        }
    }
}

proof fn lemma_opening_holds<'a, S: Solver>(
    mid: Explorer<'a, S>,
    old: Explorer<'a, S>,
    rv: Rvalue,
    t: Term,
    env: spec_fn(nat) -> i64,
)
    requires
        old.ok(),
        mid.enc.terms.grown_from(old.enc.terms),
        mid.enc.terms.asserted() == old.enc.terms.asserted(),
        wide::store_holds(old.enc.terms, env),
    ensures
        wide::store_holds(mid.enc.terms, env),
{
    assert forall|i: int| 0 <= i < mid.enc.terms.asserted().len() implies wide::truth_of(
        mid.enc.terms.tm(#[trigger] mid.enc.terms.asserted()[i]),
        env,
    ) by {
        old.enc.terms.lemma_asserted_in();
        assert(wide::truth_of(old.enc.terms.tm(old.enc.terms.asserted()[i]), env));
    }
}

/// A field that is read has the value that it holds.
#[verifier::spinoff_prover]
proof fn lemma_field_read<'a, S: Solver>(
    mid: Explorer<'a, S>,
    old: Explorer<'a, S>,
    v: VarId,
    rv: Rvalue,
    t: Term,
    env: spec_fn(nat) -> i64,
    vals: Mem,
)
    requires
        formed(old),
        stands_for(old, env, vals),
        wide::store_holds(mid.enc.terms, env),
        mid == (Explorer { enc: mid.enc, ..old }),
        rvalue::rvalue_outcome(mid.enc, old.enc, rv, t),
        rv is GetStatic || rv is GetField,
        plain_rvalue(*old.enc.body, v, rv),
        ir::stmt_in_range(Stmt::Assign(v, rv), old.enc.body.vars@.len(), old.enc.body.obligations@.len()),
        static_of(Stmt::Assign(v, rv)) matches Some(k) ==> uses_static(*old.enc.body, k),
        field_of(*old.enc.prog, Stmt::Assign(v, rv)) matches Some(k) ==> uses_field(
            *old.enc.prog,
            *old.enc.body,
            k,
        ),
    ensures
        stands_for(mid, env, vals),
        wide::value_of(mid.enc.terms.tm(t), env) == wide::rvalue(vals, rv, Value::Unknown),
        wide::has_width(
            wide::rvalue(vals, rv, Value::Unknown),
            state::ty_width(old.enc.body.vars@[v.0 as int].ty),
        ),
{
    lemma_opening(mid, old, rv, t);
    let ts = old.enc.terms;
    let new = mid.enc.terms;
    let n = old.enc.body.vars@.len();
    old.enc.st.lemma_fits(n, ts);
    assert(fields_are(new, mid.enc.st, vals, env)) by {
        reveal(maps_are);
        reveal_with_fuel(wide::value_of, 2);
        reveal_with_fuel(wide::element_of, 2);
        assert forall|k: FieldKeyV| static_is(new, #[trigger] mid.enc.st.statics.at(k), k, vals, env) by {
            assert(static_is(ts, old.enc.st.statics.at(k), k, vals, env));
            assert(ts.has_opt(old.enc.st.statics.at(k)));
        }
        assert forall|k: FieldKeyV| field_is(new, #[trigger] mid.enc.st.field_arrays.at(k), k, vals, env) by {
            assert(field_is(ts, old.enc.st.field_arrays.at(k), k, vals, env));
            assert(ts.has_opt(old.enc.st.field_arrays.at(k)));
        }
    }
    assert forall|i: int| 0 <= i < mid.path@.len() implies wide::truth_of(
        new.tm(#[trigger] mid.path@[i]),
        env,
    ) by {
        assert(ts.has(old.path@[i]));
        assert(wide::truth_of(ts.tm(old.path@[i]), env));
    }
    assert forall|i: int| 0 <= i < vals.vars.len() implies (#[trigger] mid.enc.st.vars@[i] matches Some(w)
        && wide::value_of(new.tm(w), env) == vals.vars[i]) by {
        assert(ts.has_opt(old.enc.st.vars@[i]));
        assert(old.enc.st.vars@[i] is Some);
    }
    assert(stands_for(mid, env, vals));
    match rv {
        Rvalue::GetStatic(f) => {
            assert(static_is(new, mid.enc.st.statics.at(f@), f@, vals, env)) by {
                reveal(maps_are);
            }
            assert(wide::has_width((vals.statics)(f@), desc::field_width(f@.desc)));
        },
        Rvalue::GetField { obj, field } => {
            let k = wide::owned(*old.enc.prog, field);
            let ops = ir::rvalue_operands(rv);
            assert(ops[0] == obj);
            assert(obj.in_range(n));
            let o = wide::operand(vals, obj).number() as i32;
            assert(wide::value_of(mid.enc.operand_tm(obj), env) == wide::operand(vals, obj)) by {
                reveal_with_fuel(wide::value_of, 2);
                if let Operand::Var(w) = obj {
                    assert(mid.enc.st.vars@[w.0 as int] is Some);
                }
            }
            assert(field_is(new, mid.enc.st.field_arrays.at(k), k, vals, env)) by {
                reveal(maps_are);
            }
            assert((vals.fields)(k, o) == wide::element_of(mid.enc.field_tm(k), env, o));
            assert(wide::value_of(new.tm(t), env) == (vals.fields)(k, o)) by {
                reveal_with_fuel(wide::value_of, 2);
                reveal_with_fuel(wide::element_of, 2);
                assert(new.tm(t) == term::t2(
                    Op2::Select,
                    mid.enc.field_tm(k),
                    mid.enc.operand_tm(obj),
                ));
            }
            assert(wide::has_width((vals.fields)(k, o), desc::field_width(k.desc)));
        },
        _ => {},
    }
}

/// The term of a value that is computed has that value, and it is of the width of the
/// variable.
#[verifier::spinoff_prover]
proof fn lemma_computed<'a, S: Solver>(
    mid: Encoder<'a>,
    old: Explorer<'a, S>,
    v: VarId,
    rv: Rvalue,
    t: Term,
    env: spec_fn(nat) -> i64,
    vals: Mem,
)
    requires
        formed(old),
        stands_for(old, env, vals),
        rvalue::rvalue_outcome(mid, old.enc, rv, t),
        mid.settled_from(old.enc),
        plain_rvalue(*old.enc.body, v, rv),
        !(rv is Nondet) && !(rv is GetStatic) && !(rv is GetField),
        ir::stmt_in_range(Stmt::Assign(v, rv), old.enc.body.vars@.len(), old.enc.body.obligations@.len()),
    ensures
        wide::value_of(mid.terms.tm(t), env) == wide::rvalue(vals, rv, Value::Unknown),
        wide::has_width(
            wide::rvalue(vals, rv, Value::Unknown),
            state::ty_width(old.enc.body.vars@[v.0 as int].ty),
        ),
{
    reveal_with_fuel(wide::value_of, 2);
    let ops = ir::rvalue_operands(rv);
    match rv {
        Rvalue::Use(o) | Rvalue::Neg(o) => {
            assert(ops[0] == o);
            lemma_operand(mid, old, o, env, vals);
        },
        Rvalue::Cast(ty, o) => {
            assert(ops[0] == o);
            lemma_operand(mid, old, o, env, vals);
            wide::law_conversions_agree(ty, mid.operand_tm(o), env);
        },
        Rvalue::Bin(op, a, b) => {
            assert(ops[0] == a && ops[1] == b);
            lemma_operand(mid, old, a, env, vals);
            lemma_operand(mid, old, b, env, vals);
            wide::law_operators_agree(
                op,
                mid.operand_tm(a),
                mid.operand_tm(b),
                width(*old.enc.body, a),
                width(*old.enc.body, b),
                env,
            );
        },
        Rvalue::Cmp(a, b) => {
            assert(ops[0] == a && ops[1] == b);
            lemma_operand(mid, old, a, env, vals);
            lemma_operand(mid, old, b, env, vals);
            wide::law_three_way_comparison(
                mid.operand_tm(a),
                mid.operand_tm(b),
                width(*old.enc.body, a),
                env,
            );
        },
        _ => {},
    }
}

proof fn lemma_assigned_stands<'a, S: Solver>(
    new: Explorer<'a, S>,
    old: Explorer<'a, S>,
    v: VarId,
    t: Term,
    env: spec_fn(nat) -> i64,
    vals: Mem,
    x: Value,
)
    requires
        old.enc.terms.well_formed(),
        old.enc.st.fits(old.enc.body.vars@.len(), old.enc.terms),
        explore::terms_in(old.enc.terms, old.path@),
        new.ok(),
        stands_for(old, env, vals),
        wide::store_holds(new.enc.terms, env),
        new.enc.terms.grown_from(old.enc.terms),
        new.enc.body == old.enc.body,
        new.enc.prog == old.enc.prog,
        new.enc.st.statics == old.enc.st.statics,
        new.enc.st.field_arrays == old.enc.st.field_arrays,
        new.path == old.path,
        v.0 < old.enc.body.vars@.len(),
        wide::has_width(x, state::ty_width(old.enc.body.vars@[v.0 as int].ty)),
        new.enc.st.vars@ == old.enc.st.vars@.update(v.0 as int, Some(t)),
        wide::value_of(new.enc.terms.tm(t), env) == x,
    ensures
        stands_for(new, env, vals.with_var(v.0 as int, x)),
{
    let ts = old.enc.terms;
    let after = vals.with_var(v.0 as int, x);
    assert(same_below(env, env, ts.size()));
    lemma_fields_later(
        new.enc.terms,
        new.enc.st,
        ts,
        old.enc.st,
        old.enc.body.vars@.len(),
        vals,
        env,
        env,
    );
    assert(fields_are(new.enc.terms, new.enc.st, after, env)) by {
        reveal(maps_are);
        assert forall|k: FieldKeyV| static_is(
            new.enc.terms,
            #[trigger] new.enc.st.statics.at(k),
            k,
            after,
            env,
        ) by {
            assert(static_is(new.enc.terms, new.enc.st.statics.at(k), k, vals, env));
        }
        assert forall|k: FieldKeyV| field_is(
            new.enc.terms,
            #[trigger] new.enc.st.field_arrays.at(k),
            k,
            after,
            env,
        ) by {
            assert(field_is(new.enc.terms, new.enc.st.field_arrays.at(k), k, vals, env));
            assert(after.fields == vals.fields);
        }
    }
    old.enc.st.lemma_fits(old.enc.body.vars@.len(), ts);
    assert forall|i: int| 0 <= i < new.path@.len() implies wide::truth_of(
        new.enc.terms.tm(#[trigger] new.path@[i]),
        env,
    ) by {
        assert(ts.has(old.path@[i]));
        assert(wide::truth_of(ts.tm(old.path@[i]), env));
    }
    assert forall|i: int| 0 <= i < after.vars.len() implies (#[trigger] new.enc.st.vars@[i] matches Some(w)
        && wide::value_of(new.enc.terms.tm(w), env) == after.vars[i]) by {
        if i != v.0 {
            assert(ts.has_opt(old.enc.st.vars@[i]));
            assert(old.enc.st.vars@[i] is Some);
        }
    }
}

/// A statement: an explorer that stands for a run before it stands for it after it, and
/// a check that fails is found.
#[verifier::spinoff_prover]
proof fn lemma_executed<'a, S: Solver>(
    new: Explorer<'a, S>,
    old: Explorer<'a, S>,
    s: Stmt,
    guarded: bool,
    go_on: bool,
    id: ObligationId,
    env: spec_fn(nat) -> i64,
    vals: Mem,
    after: Mem,
)
    requires
        formed(old),
        new.ok(),
        new.executed(old, s, guarded, go_on),
        plain_stmt(*old.enc.body, s),
        static_of(s) matches Some(k) ==> uses_static(*old.enc.body, k),
        field_of(*old.enc.prog, s) matches Some(k) ==> uses_field(
            *old.enc.prog,
            *old.enc.body,
            k,
        ),
        s matches Stmt::PutStatic(f, _) ==> wide::stores_static(*old.enc.body, f@),
        s matches Stmt::PutField { field, .. } ==> wide::stores_field(
            *old.enc.prog,
            *old.enc.body,
            wide::owned(*old.enc.prog, field),
        ),
        ir::stmt_in_range(s, old.enc.body.vars@.len(), old.enc.body.obligations@.len()),
    ensures
        grew(new, old),
        formed(new),
        keeps_fields(new.enc.st, old.enc.st),
        static_of(s) matches Some(k) ==> new.enc.st.statics.at(k) is Some,
        field_of(*old.enc.prog, s) matches Some(k) ==> new.enc.st.field_arrays.at(k) is Some,
        wide::store_holds(old.enc.terms, env) ==> holdable(
            new.enc.terms,
            env,
            old.enc.terms.size(),
        ),
        clean(new, id) && stands_for(old, env, vals) && passes(s, vals, after) ==> go_on && reached_by(
            new,
            env,
            old.enc.terms.size(),
            after,
        ),
        clean(new, id) && stands_for(old, env, vals) ==> !fails_at(*old.enc.body, s, vals, id),
{
    let ts = old.enc.terms;
    let nv = old.enc.body.vars@.len();
    old.lemma_after_refl();
    assert(same_below(env, env, ts.size()));
    match s {
        Stmt::Assign(v, rv) => {
            let ready = choose|ready: Explorer<'a, S>|
                {
                    &&& #[trigger] ready.stays(old)
                    &&& match rv {
                        Rvalue::GetStatic(f) => ready.initialised(old, f.class@),
                        _ => ready == old,
                    }
                    &&& new.plain_assigned(ready, v, rv)
                };
            if let Rvalue::GetStatic(f) = rv {
                lemma_initialised(ready, old, f@);
            } else {
                lemma_grew_self(old);
            }
            assert(formed(ready));
            assert(stands_for(old, env, vals) ==> stands_for(ready, env, vals));
            lemma_assigned(new, ready, v, rv, env, vals, after);
            lemma_grew_trans(new, ready, old);
        },
        Stmt::PutStatic(f, x) => {
            let ready = choose|ready: Explorer<'a, S>|
                {
                    &&& #[trigger] ready.stays(old)
                    &&& ready.initialised(old, f.class@)
                    &&& new == (Explorer { enc: new.enc, ..ready })
                    &&& effects::static_stored(new.enc, ready.enc, f, x)
                };
            lemma_initialised(ready, old, f@);
            assert(formed(ready));
            assert(stands_for(old, env, vals) ==> stands_for(ready, env, vals));
            lemma_static_stored(new, ready, f, x, env, vals, after);
            lemma_grew_trans(new, ready, old);
        },
        Stmt::PutField { obj, field, val } => {
            lemma_field_stored(new, old, obj, field, val, env, vals, after);
        },
        Stmt::Assume(o) => {
            lemma_widths(old, o);
            let (read, res) = choose|read: Explorer<'a, S>, res: SatResult|
                {
                    &&& read == (Explorer { enc: read.enc, path: read.path, ..old })
                    &&& read.enc.settled_from(old.enc)
                    &&& read.enc.knows(o)
                    &&& read.path@ == old.path@.push(read.path@.last())
                    &&& read.enc.terms.tm(read.path@.last()) == encode::not_null(
                        read.enc.operand_tm(o),
                    )
                    &&& #[trigger] new.answered(read, None, res)
                    &&& go_on == (res != SatResult::Unsat)
                };
            lemma_settled_same(read.enc, old);
            read.enc.terms.lemma_built_grows(ts);
            assert(new.enc == read.enc && new.path == read.path);
            assert(keeps_fields(new.enc.st, old.enc.st)) by {
                reveal(keeps_fields);
            }
            assert(fields_used(new.enc.st, *old.enc.body, *old.enc.prog)) by {
                reveal(used_maps);
            }
            if new.log() != read.log() {
                assert(new.log().take(old.log().len() as int) =~= old.log());
            }
            assert(grew(new, old));
            if wide::store_holds(ts, env) {
                lemma_store_built(new.enc.terms, ts, env);
            }
            if stands_for(old, env, vals) && passes(s, vals, after) && clean(new, id) {
                lemma_operand(read.enc, old, o, env, vals);
                wide::law_tests_for_zero(read.enc.operand_tm(o), env);
                old.enc.st.lemma_fits(nv, ts);
                assert forall|i: int| 0 <= i < read.path@.len() implies wide::truth_of(
                    read.enc.terms.tm(#[trigger] read.path@[i]),
                    env,
                ) by {
                    if i < old.path@.len() {
                        assert(read.path@[i] == old.path@[i]);
                        assert(ts.has(old.path@[i]));
                        assert(wide::truth_of(ts.tm(old.path@[i]), env));
                    }
                }
                assert(on_path(read, env));
                lemma_found_satisfiable(new, read, None, res, env);
                lemma_fields_later(new.enc.terms, new.enc.st, ts, old.enc.st, nv, vals, env, env);
                assert forall|i: int| 0 <= i < vals.vars.len() implies (
                #[trigger] new.enc.st.vars@[i] matches Some(t) && wide::value_of(
                    new.enc.terms.tm(t),
                    env,
                ) == vals.vars[i]) by {
                    assert(ts.has_opt(old.enc.st.vars@[i]));
                    assert(old.enc.st.vars@[i] is Some);
                }
                assert(stands_for(new, env, after));
            }
        },
        Stmt::Check(other) => {
            let cond = old.enc.body.obligations@[other.0 as int].cond;
            assert(cond.in_range(nv) && narrow(*old.enc.body, cond));
            lemma_widths(old, cond);
            let (read, c, asked, res) = choose|
                read: Explorer<'a, S>,
                c: Term,
                asked: Explorer<'a, S>,
                res: SatResult,
            |
                {
                    &&& #[trigger] read.zero_read(old, cond, c)
                    &&& #[trigger] asked.answered(read, Some(c), res)
                    &&& new.recorded(asked, other, old.enc.is_tainted(cond), res)
                };
            lemma_settled_same(read.enc, old);
            read.enc.terms.lemma_built_grows(ts);
            assert(asked.enc == read.enc && asked.path == read.path);
            assert(keeps_fields(new.enc.st, old.enc.st)) by {
                reveal(keeps_fields);
            }
            assert(fields_used(new.enc.st, *old.enc.body, *old.enc.prog)) by {
                reveal(used_maps);
            }
            lemma_checked_grew(new, asked, read, old, other, res, c);
            if wide::store_holds(ts, env) {
                lemma_store_built(new.enc.terms, ts, env);
            }
            if stands_for(old, env, vals) && clean(new, id) {
                lemma_stands_built(new, old, env, vals);
                lemma_stands_built(read, old, env, vals);
                if fails_at(*old.enc.body, s, vals, id) {
                    lemma_operand(read.enc, old, cond, env, vals);
                    wide::law_tests_for_zero(read.enc.operand_tm(cond), env);
                    assert forall|i: int| 0 <= i < asked.log().len() implies told_truth(
                        #[trigger] asked.log()[i],
                    ) by {
                        assert(new.log().take(asked.log().len() as int)[i] == asked.log()[i]);
                        assert(told_truth(new.log()[i]));
                    }
                    lemma_found_satisfiable(asked, read, Some(c), res, env);
                    let k = asked.found.violations@.len() as int;
                    assert(new.found.violations@[k].id == id);
                    assert(is_found(new.found, new.enc.body.key@, id));
                }
            }
        },
        _ => {
            lemma_grew_self(old);
            assert(keeps_fields(new.enc.st, old.enc.st)) by {
                reveal(keeps_fields);
            }
        },
    }
}

/// A class without an initialiser is only marked.
proof fn lemma_initialised<'a, S: Solver>(ready: Explorer<'a, S>, old: Explorer<'a, S>, k: FieldKeyV)
    requires
        formed(old),
        ready.stays(old),
        ready.initialised(old, k.class),
        uses_static(*old.enc.body, k),
    ensures
        ready == (Explorer { clinit_done: ready.clinit_done, ..old }),
        grew(ready, old),
{
    reveal(settled_fields);
    assert(old.enc.prog.body_of(runs::clinit_of(k.class)) is None);
    lemma_grew_self(old);
}

/// A value was stored in a static field.
#[verifier::spinoff_prover]
proof fn lemma_static_stored<'a, S: Solver>(
    new: Explorer<'a, S>,
    old: Explorer<'a, S>,
    f: FieldKey,
    x: Operand,
    env: spec_fn(nat) -> i64,
    vals: Mem,
    after: Mem,
)
    requires
        formed(old),
        new.ok(),
        new == (Explorer { enc: new.enc, ..old }),
        effects::static_stored(new.enc, old.enc, f, x),
        uses_static(*old.enc.body, f@),
        wide::stores_static(*old.enc.body, f@),
        x.in_range(old.enc.body.vars@.len()),
        integral(*old.enc.body, x),
        width(*old.enc.body, x) == desc::field_width(f.desc@),
    ensures
        grew(new, old),
        formed(new),
        keeps_fields(new.enc.st, old.enc.st),
        wide::store_holds(old.enc.terms, env) ==> holdable(
            new.enc.terms,
            env,
            old.enc.terms.size(),
        ),
        stands_for(old, env, vals) && passes(Stmt::PutStatic(f, x), vals, after) ==> reached_by(
            new,
            env,
            old.enc.terms.size(),
            after,
        ),
{
    let ts = old.enc.terms;
    let nv = old.enc.body.vars@.len();
    let body = *old.enc.body;
    old.enc.st.lemma_fits(nv, ts);
    new.enc.st.lemma_fits(nv, new.enc.terms);
    lemma_widths(old, x);
    lemma_vars_settled(new.enc, old);
    new.enc.terms.lemma_built_grows(ts);
    lemma_grew_self(old);
    assert(same_below(env, env, ts.size()));
    assert(keeps_fields(new.enc.st, old.enc.st) && fields_used(new.enc.st, body, *old.enc.prog)) by {
        reveal(keeps_fields);
        reveal(used_maps);
        assert forall|k: FieldKeyV| !#[trigger] new.enc.st.static_tainted.holds(k) by {
            assert(!old.enc.st.static_tainted.holds(k));
            assert(k != f@ ==> new.enc.st.static_tainted.at(k) == old.enc.st.static_tainted.at(k));
        }
    }
    assert(resting(new.enc.terms, new.enc.st, body, *old.enc.prog)) by {
        assert(resting(new.enc.terms, old.enc.st, body, *old.enc.prog));
        reveal(wide::rest);
    }
    if wide::store_holds(ts, env) {
        lemma_store_built(new.enc.terms, ts, env);
    }
    if stands_for(old, env, vals) && passes(Stmt::PutStatic(f, x), vals, after) {
        lemma_read_operand(new.enc, old, x, env, vals);
        assert(fields_are(new.enc.terms, new.enc.st, after, env)) by {
            reveal(maps_are);
            assert forall|k: FieldKeyV| static_is(
                new.enc.terms,
                #[trigger] new.enc.st.statics.at(k),
                k,
                after,
                env,
            ) by {
                assert(static_is(ts, old.enc.st.statics.at(k), k, vals, env));
                assert(ts.has_opt(old.enc.st.statics.at(k)));
            }
            assert forall|k: FieldKeyV| field_is(
                new.enc.terms,
                #[trigger] new.enc.st.field_arrays.at(k),
                k,
                after,
                env,
            ) by {
                assert(field_is(ts, old.enc.st.field_arrays.at(k), k, vals, env));
                assert(ts.has_opt(old.enc.st.field_arrays.at(k)));
                assert(after.fields == vals.fields);
            }
        }
        lemma_stored_stands(new, old, env, vals, after);
    }
}

/// A value was stored in the field of an object.
#[verifier::spinoff_prover]
proof fn lemma_field_stored<'a, S: Solver>(
    new: Explorer<'a, S>,
    old: Explorer<'a, S>,
    obj: Operand,
    f: FieldKey,
    x: Operand,
    env: spec_fn(nat) -> i64,
    vals: Mem,
    after: Mem,
)
    requires
        formed(old),
        new.ok(),
        new == (Explorer { enc: new.enc, ..old }),
        effects::field_stored(new.enc, old.enc, obj, f, x),
        uses_field(*old.enc.prog, *old.enc.body, wide::owned(*old.enc.prog, f)),
        wide::stores_field(*old.enc.prog, *old.enc.body, wide::owned(*old.enc.prog, f)),
        obj.in_range(old.enc.body.vars@.len()),
        x.in_range(old.enc.body.vars@.len()),
        integral(*old.enc.body, obj),
        integral(*old.enc.body, x),
        width(*old.enc.body, x) == desc::field_width(f.desc@),
    ensures
        grew(new, old),
        formed(new),
        keeps_fields(new.enc.st, old.enc.st),
        new.enc.st.field_arrays.at(wide::owned(*old.enc.prog, f)) is Some,
        wide::store_holds(old.enc.terms, env) ==> holdable(
            new.enc.terms,
            env,
            old.enc.terms.size(),
        ),
        stands_for(old, env, vals) && passes(
            (Stmt::PutField { obj, field: f, val: x }),
            vals,
            after,
        ) ==> reached_by(new, env, old.enc.terms.size(), after),
{
    let ts = old.enc.terms;
    let nv = old.enc.body.vars@.len();
    let body = *old.enc.body;
    let k = wide::owned(*old.enc.prog, f);
    assert(k == super::heap::resolved(old.enc, f));
    old.enc.st.lemma_fits(nv, ts);
    new.enc.st.lemma_fits(nv, new.enc.terms);
    lemma_widths(old, x);
    lemma_vars_settled(new.enc, old);
    new.enc.terms.lemma_built_grows(ts);
    lemma_grew_self(old);
    assert(same_below(env, env, ts.size()));
    assert(old.enc.prog.has_class(k.class)) by {
        reveal(settled_fields);
    }
    assert(keeps_fields(new.enc.st, old.enc.st) && fields_used(new.enc.st, body, *old.enc.prog)) by {
        reveal(keeps_fields);
        reveal(used_maps);
        assert forall|j: FieldKeyV| !#[trigger] new.enc.st.field_tainted.holds(j) by {
            assert(!old.enc.st.field_tainted.holds(j));
            assert(j != k ==> new.enc.st.field_tainted.at(j) == old.enc.st.field_tainted.at(j));
        }
    }
    assert(resting(new.enc.terms, new.enc.st, body, *old.enc.prog)) by {
        assert(resting(new.enc.terms, old.enc.st, body, *old.enc.prog));
        reveal(wide::rest);
    }
    if wide::store_holds(ts, env) {
        lemma_store_built(new.enc.terms, ts, env);
    }
    if stands_for(old, env, vals) && passes(
        (Stmt::PutField { obj, field: f, val: x }),
        vals,
        after,
    ) {
        lemma_read_operand(new.enc, old, obj, env, vals);
        lemma_read_operand(new.enc, old, x, env, vals);
        assert(fields_are(new.enc.terms, new.enc.st, after, env)) by {
            reveal(maps_are);
            assert forall|j: FieldKeyV| static_is(
                new.enc.terms,
                #[trigger] new.enc.st.statics.at(j),
                j,
                after,
                env,
            ) by {
                assert(static_is(ts, old.enc.st.statics.at(j), j, vals, env));
                assert(ts.has_opt(old.enc.st.statics.at(j)));
            }
            assert forall|j: FieldKeyV| field_is(
                new.enc.terms,
                #[trigger] new.enc.st.field_arrays.at(j),
                j,
                after,
                env,
            ) by {
                assert(field_is(ts, old.enc.st.field_arrays.at(j), j, vals, env));
                assert(ts.has_opt(old.enc.st.field_arrays.at(j)));
                if j == k {
                    reveal_with_fuel(wide::element_of, 3);
                    reveal_with_fuel(wide::value_of, 2);
                    assert forall|o: i32| #[trigger] (after.fields)(k, o) == wide::element_of(
                        new.enc.field_tm(k),
                        env,
                        o,
                    ) by {
                        assert((vals.fields)(k, o) == match old.enc.st.field_arrays.at(k) {
                            Some(t) => wide::element_of(ts.tm(t), env, o),
                            None => wide::initial(k),
                        });
                    }
                } else {
                    assert forall|o: i32| #[trigger] (after.fields)(j, o) == (vals.fields)(j, o) by {}
                }
            }
        }
        lemma_stored_stands(new, old, env, vals, after);
    }
}

/// Where every variable has a term, settling the variables changes nothing.
proof fn lemma_vars_settled<'a, S: Solver>(new: Encoder<'a>, old: Explorer<'a, S>)
    requires
        formed(old),
        new.vars_settled(old.enc),
        new.body == old.enc.body,
    ensures
        new.st.vars@ == old.enc.st.vars@,
{
    old.enc.st.lemma_fits(old.enc.body.vars@.len(), old.enc.terms);
    assert forall|i: int| 0 <= i < new.st.vars@.len() implies new.st.vars@[i] == old.enc.st.vars@[i] by {
        assert(old.enc.st.vars@[i] is Some);
    }
    assert(new.st.vars@ =~= old.enc.st.vars@);
}

/// The term of an operand has its value.
proof fn lemma_read_operand<'a, S: Solver>(
    new: Encoder<'a>,
    old: Explorer<'a, S>,
    o: Operand,
    env: spec_fn(nat) -> i64,
    vals: Mem,
)
    requires
        formed(old),
        stands_for(old, env, vals),
        new.st.vars@ == old.enc.st.vars@,
        new.terms.grown_from(old.enc.terms),
        o.in_range(old.enc.body.vars@.len()),
        integral(*old.enc.body, o),
    ensures
        wide::value_of(new.operand_tm(o), env) == wide::operand(vals, o),
        wide::has_width(wide::operand(vals, o), width(*old.enc.body, o)),
{
    reveal_with_fuel(wide::value_of, 2);
    old.enc.st.lemma_fits(old.enc.body.vars@.len(), old.enc.terms);
    if let Operand::Var(v) = o {
        assert(old.enc.st.vars@[v.0 as int] is Some);
        assert(old.enc.terms.has_opt(old.enc.st.vars@[v.0 as int]));
        assert(wide::has_width(
            vals.vars[v.0 as int],
            state::ty_width(old.enc.body.vars@[v.0 as int].ty),
        ));
    }
}

/// After a store the explorer stands for the run.
proof fn lemma_stored_stands<'a, S: Solver>(
    new: Explorer<'a, S>,
    old: Explorer<'a, S>,
    env: spec_fn(nat) -> i64,
    vals: Mem,
    after: Mem,
)
    requires
        formed(old),
        stands_for(old, env, vals),
        new.enc.terms.built_from(old.enc.terms),
        new.enc.body == old.enc.body,
        new.enc.prog == old.enc.prog,
        new.path == old.path,
        new.enc.st.vars@ == old.enc.st.vars@,
        after.vars == vals.vars,
        after.prog == vals.prog,
        wide::typed(*old.enc.body, after),
        fields_are(new.enc.terms, new.enc.st, after, env),
    ensures
        stands_for(new, env, after),
        reached_by(new, env, old.enc.terms.size(), after),
{
    let ts = old.enc.terms;
    old.enc.st.lemma_fits(old.enc.body.vars@.len(), ts);
    lemma_store_built(new.enc.terms, ts, env);
    assert forall|i: int| 0 <= i < new.path@.len() implies wide::truth_of(
        new.enc.terms.tm(#[trigger] new.path@[i]),
        env,
    ) by {
        assert(ts.has(old.path@[i]));
        assert(wide::truth_of(ts.tm(old.path@[i]), env));
    }
    assert forall|i: int| 0 <= i < after.vars.len() implies (#[trigger] new.enc.st.vars@[i] matches Some(
        t,
    ) && wide::value_of(new.enc.terms.tm(t), env) == after.vars[i]) by {
        assert(ts.has_opt(old.enc.st.vars@[i]));
        assert(old.enc.st.vars@[i] is Some);
    }
    assert(same_below(env, env, ts.size()));
}

proof fn lemma_checked_grew<'a, S: Solver>(
    new: Explorer<'a, S>,
    asked: Explorer<'a, S>,
    read: Explorer<'a, S>,
    old: Explorer<'a, S>,
    id: ObligationId,
    res: SatResult,
    c: Term,
)
    requires
        old.ok(),
        read == (Explorer { enc: read.enc, ..old }),
        read.enc.terms.grown_from(old.enc.terms),
        read.enc.body == old.enc.body,
        read.enc.prog == old.enc.prog,
        read.enc.ascii_only == old.enc.ascii_only,
        asked.answered(read, Some(c), res),
        new.recorded(asked, id, false, res),
    ensures
        grew(new, old),
        explore::extends(new.log(), asked.log()),
{
    old.lemma_after_refl();
    if asked.log() != read.log() {
        assert(asked.log().take(old.log().len() as int) =~= old.log());
    }
    let inputs = asked.enc.st.nondet_terms@;
    let k = asked.found.violations@.len() as int;
    if explore::is_violation(res, false) {
        explore::lemma_witness_extends(
            new.log(),
            asked.log(),
            inputs,
            new.found.violations@[k].witness.entries@,
            inputs.len(),
        );
        assert(new.found.violations@.take(k) =~= asked.found.violations@);
    } else {
        assert(asked.log().take(asked.log().len() as int) =~= asked.log());
        assert(asked.found.violations@.take(k) =~= asked.found.violations@);
    }
    let n = asked.found.skipped@.len() as int;
    assert(new.found.skipped@.take(n) =~= asked.found.skipped@);
    assert(asked.found.inlined@.take(asked.found.inlined@.len() as int) =~= asked.found.inlined@);
    explore::lemma_extends_trans(new.log(), asked.log(), old.log());
}

proof fn lemma_same_below_trans(
    a: spec_fn(nat) -> i64,
    b: spec_fn(nat) -> i64,
    c: spec_fn(nat) -> i64,
    m: nat,
    n: nat,
)
    requires
        same_below(a, b, m),
        same_below(b, c, n),
        n <= m,
    ensures
        same_below(a, c, n),
{
    assert forall|p: nat| p < n implies #[trigger] a(p) == c(p) by {
        assert(a(p) == b(p) && b(p) == c(p));
    }
}

/// What a statement uses, its body uses.
proof fn lemma_uses(prog: Program, body: Body, i: int, j: int)
    requires
        0 <= i < body.blocks@.len(),
        0 <= j < body.blocks@[i].stmts@.len(),
    ensures
        static_of(body.blocks@[i].stmts@[j]) matches Some(k) ==> uses_static(body, k),
        field_of(prog, body.blocks@[i].stmts@[j]) matches Some(k) ==> uses_field(prog, body, k),
        body.blocks@[i].stmts@[j] matches Stmt::PutStatic(f, _) ==> wide::stores_static(body, f@),
        body.blocks@[i].stmts@[j] matches Stmt::PutField { field, .. } ==> wide::stores_field(
            prog,
            body,
            wide::owned(prog, field),
        ),
{
    let b = body.blocks@[i];
    if let Some(k) = static_of(b.stmts@[j]) {
        assert(block_static(b, b.stmts@.len() as int, k));
    }
    if let Some(k) = field_of(prog, b.stmts@[j]) {
        assert(block_field(prog, b, b.stmts@.len() as int, k));
    }
}

/// The first `i` statements of a block.
#[verifier::spinoff_prover]
proof fn lemma_ran<'a, S: Solver>(
    new: Explorer<'a, S>,
    old: Explorer<'a, S>,
    block: int,
    i: nat,
    id: ObligationId,
    env: spec_fn(nat) -> i64,
    vals: Mem,
    after: Mem,
    k: int,
    at: Mem,
)
    requires
        formed(old),
        new.stays(old),
        0 <= block < old.enc.body.blocks@.len(),
        new.ran(old, old.enc.body.blocks@[block], 0, i),
        i <= old.enc.body.blocks@[block].stmts@.len(),
    ensures
        grew(new, old),
        formed(new),
        keeps_fields(new.enc.st, old.enc.st),
        opened_by(new.enc.st, *old.enc.prog, old.enc.body.blocks@[block], i as int),
        wide::store_holds(old.enc.terms, env) ==> holdable(
            new.enc.terms,
            env,
            old.enc.terms.size(),
        ),
        clean(new, id) && stands_for(old, env, vals) && through(
            old.enc.body.blocks@[block],
            vals,
            after,
            i,
        ) ==> reached_by(new, env, old.enc.terms.size(), after),
        clean(new, id) && stands_for(old, env, vals) && 0 <= k < i && through(
            old.enc.body.blocks@[block],
            vals,
            at,
            k as nat,
        ) ==> !fails_at(*old.enc.body, old.enc.body.blocks@[block].stmts@[k], at, id),
    decreases i,
{
    let b = old.enc.body.blocks@[block];
    let size = old.enc.terms.size();
    assert(same_below(env, env, size));
    if i == 0 {
        lemma_grew_self(old);
        assert(keeps_fields(new.enc.st, old.enc.st) && opened_by(
            new.enc.st,
            *old.enc.prog,
            b,
            0,
        )) by {
            reveal(keeps_fields);
            reveal(opened_by);
        }
    } else {
        let m = (i - 1) as nat;
        let guarded = b.exceptional@.len() > 0;
        let s = b.stmts@[m as int];
        let mid = choose|mid: Explorer<'a, S>|
            {
                &&& #[trigger] mid.stays(old)
                &&& mid.ran(old, b, 0, m)
                &&& mid.has_budget()
                &&& new.executed(mid, s, guarded, true)
            };
        let body = *old.enc.body;
        assert(b.in_range(body.blocks@.len(), body.vars@.len(), body.obligations@.len()));
        assert(ir::stmt_in_range(s, body.vars@.len(), body.obligations@.len()));
        assert(plain_stmt(body, s));
        lemma_uses(*old.enc.prog, body, block, m as int);
        lemma_ran(mid, old, block, m, id, env, vals, at, k, at);
        lemma_executed(new, mid, s, guarded, true, id, env, vals, vals);
        lemma_grew_trans(new, mid, old);
        assert(keeps_fields(new.enc.st, old.enc.st)) by {
            reveal(keeps_fields);
        }
        assert(opened_by(new.enc.st, *old.enc.prog, b, i as int)) by {
            reveal(keeps_fields);
            reveal(opened_by);
            assert forall|k: FieldKeyV| block_static(b, i as int, k) implies (
            #[trigger] new.enc.st.statics.at(k)) is Some by {
                let j = choose|j: int| 0 <= j < i && static_of(#[trigger] b.stmts@[j]) == Some(k);
                if j < m {
                    assert(block_static(b, m as int, k));
                    assert(mid.enc.st.statics.at(k) is Some);
                }
            }
            assert forall|k: FieldKeyV| block_field(*old.enc.prog, b, i as int, k) implies (
            #[trigger] new.enc.st.field_arrays.at(k)) is Some by {
                let j = choose|j: int|
                    0 <= j < i && field_of(*old.enc.prog, #[trigger] b.stmts@[j]) == Some(k);
                if j < m {
                    assert(block_field(*old.enc.prog, b, m as int, k));
                    assert(mid.enc.st.field_arrays.at(k) is Some);
                }
            }
        }
        if wide::store_holds(old.enc.terms, env) {
            let first = choose|more: spec_fn(nat) -> i64| #[trigger]
                same_below(more, env, size) && wide::store_holds(mid.enc.terms, more);
            lemma_executed(new, mid, s, guarded, true, id, first, vals, vals);
            let second = choose|more: spec_fn(nat) -> i64| #[trigger]
                same_below(more, first, mid.enc.terms.size()) && wide::store_holds(
                    new.enc.terms,
                    more,
                );
            lemma_same_below_trans(second, first, env, mid.enc.terms.size(), size);
        }
        if clean(new, id) {
            lemma_clean_before(new, mid, id);
            if stands_for(old, env, vals) {
                if through(b, vals, after, i) {
                    let u = choose|u: Mem| #[trigger]
                        passes(s, u, after) && through(b, vals, u, m);
                    lemma_ran(mid, old, block, m, id, env, vals, u, k, at);
                    let one = choose|more: spec_fn(nat) -> i64| #[trigger]
                        same_below(more, env, size) && stands_for(mid, more, u);
                    lemma_executed(new, mid, s, guarded, true, id, one, u, after);
                    let two = choose|more: spec_fn(nat) -> i64| #[trigger]
                        same_below(more, one, mid.enc.terms.size()) && stands_for(new, more, after);
                    lemma_same_below_trans(two, one, env, mid.enc.terms.size(), size);
                }
                if k == m && through(b, vals, at, m) {
                    let one = choose|more: spec_fn(nat) -> i64| #[trigger]
                        same_below(more, env, size) && stands_for(mid, more, at);
                    lemma_executed(new, mid, s, guarded, true, id, one, at, at);
                }
            }
        }
    }
}

proof fn lemma_after_grew<'a, S: Solver>(new: Explorer<'a, S>, old: Explorer<'a, S>)
    requires
        new.after(old),
        new.same_place(old),
    ensures
        grew(new, old),
{
}

/// A run goes on to a block that the terminator leads to.
proof fn lemma_next_edge(body: Body, block: int, vals: Mem, to: BlockId)
    requires
        plain(body),
        0 <= block < body.blocks@.len(),
        wide::next_block(body.blocks@[block].term, vals) == Some(to),
    ensures
        to.0 < body.blocks@.len(),
        postdom::edge(postdom::graph_of(body), block, to.0 as int),
{
    let term = body.blocks@[block].term;
    let targets = ir::term_targets(term);
    let ids = postdom::succ_ids(body, block);
    assert(body.blocks@[block].in_range(
        body.blocks@.len(),
        body.vars@.len(),
        body.obligations@.len(),
    ));
    assert(plain_term(body, term));
    let k: int = match term {
        Terminator::Branch { cond, .. } => if wide::operand(vals, cond) != Value::I32(0) {
            0
        } else {
            1
        },
        Terminator::Switch { value, cases, default } => lemma_case_index(
            cases@,
            wide::operand(vals, value),
            cases@.len(),
        ),
        _ => 0,
    };
    assert(targets[k] == to);
    assert(ids[k] == to.0);
    assert(postdom::graph_of(body)[block] == ids);
    assert(ids.contains(to.0));
}

/// A run that fails does so before it comes to the block, or after.
proof fn lemma_split_failing(
    body: Body,
    b: BlockId,
    vals: Mem,
    stop: Option<BlockId>,
    j: BlockId,
    id: ObligationId,
    n: nat,
) -> (r: (Mem, nat))
    requires
        fails(body, b, vals, stop, id, n),
    ensures
        fails(body, b, vals, Some(j), id, n) || (r.1 <= n && arrives(body, b, vals, j, r.0, r.1)
            && fails(body, j, r.0, stop, id, (n - r.1) as nat)),
    decreases n,
{
    let block = body.blocks@[b.0 as int];
    if b == j {
        (vals, 0)
    } else if exists|k: int, at: Mem| #[trigger] fails_in(body, block, vals, id, k, at) {
        (vals, 0)
    } else {
        let (at, to) = choose|at: Mem, to: BlockId| #[trigger]
            goes(block, vals, at, to) && fails(body, to, at, stop, id, (n - 1) as nat);
        let (end, k) = lemma_split_failing(body, to, at, stop, j, id, (n - 1) as nat);
        if fails(body, to, at, Some(j), id, (n - 1) as nat) {
            assert(goes(block, vals, at, to));
            (vals, 0)
        } else {
            assert(goes(block, vals, at, to));
            assert((n - 1 - k) as nat == (n - (k + 1)) as nat);
            (end, k + 1)
        }
    }
}

/// A run that comes to `s` has come to a join point before it.
proof fn lemma_split_arriving(
    body: Body,
    b: BlockId,
    vals: Mem,
    s: BlockId,
    j: BlockId,
    end: Mem,
    n: nat,
) -> (r: (Mem, nat))
    requires
        plain(body),
        b.0 < body.blocks@.len(),
        arrives(body, b, vals, s, end, n),
        postdom::caught(postdom::graph_of(body), j.0 as int, b.0 as int),
        s == j || !postdom::caught(postdom::graph_of(body), j.0 as int, s.0 as int),
    ensures
        r.1 <= n,
        arrives(body, b, vals, j, r.0, r.1),
        arrives(body, j, r.0, s, end, (n - r.1) as nat),
    decreases n,
{
    let block = body.blocks@[b.0 as int];
    if b == j {
        (vals, 0)
    } else {
        let (at, to) = choose|at: Mem, to: BlockId| #[trigger]
            goes(block, vals, at, to) && arrives(body, to, at, s, end, (n - 1) as nat);
        assert(goes(block, vals, at, to));
        lemma_next_edge(body, b.0 as int, at, to);
        postdom::lemma_caught_step(postdom::graph_of(body), j.0 as int, b.0 as int, to.0 as int);
        let (mid, k) = lemma_split_arriving(body, to, at, s, j, end, (n - 1) as nat);
        assert((n - 1 - k) as nat == (n - (k + 1)) as nat);
        (mid, k + 1)
    }
}

/// A run that passes many statements passes the first of them.
proof fn lemma_through_first(b: Block, vals: Mem, at: Mem, i: nat, n: nat) -> (r: (
    Mem,
    Mem,
))
    requires
        i < n,
        through(b, vals, at, n),
    ensures
        through(b, vals, r.0, i),
        passes(b.stmts@[i as int], r.0, r.1),
    decreases n,
{
    let mid = choose|mid: Mem| #[trigger]
        passes(b.stmts@[n - 1], mid, at) && through(b, vals, mid, (n - 1) as nat);
    if i == n - 1 {
        (mid, at)
    } else {
        lemma_through_first(b, vals, mid, i, (n - 1) as nat)
    }
}

/// Where control is caught on its way.
spec fn heads_for(body: Body, stop: Option<BlockId>, b: BlockId) -> bool {
    stop matches Some(s) ==> s.0 < body.blocks@.len() && postdom::caught(
        postdom::graph_of(body),
        s.0 as int,
        b.0 as int,
    )
}

/// What exploring from the start of a block comes to covers every run from there.
#[verifier::rlimit(40)]
#[verifier::spinoff_prover]
proof fn lemma_explored<'a, S: Solver>(
    new: Explorer<'a, S>,
    old: Explorer<'a, S>,
    block: BlockId,
    stop: Option<BlockId>,
    id: ObligationId,
    env: spec_fn(nat) -> i64,
    vals: Mem,
    end: Mem,
    n: nat,
)
    requires
        formed(old),
        opened(old.enc.st, *old.enc.body, *old.enc.prog) || block == old.enc.body.entry,
        new.explored(old, block, 0, stop),
        block.0 < old.enc.body.blocks@.len(),
        clean(new, id),
        wide::store_holds(old.enc.terms, env),
        heads_for(*old.enc.body, stop, block),
    ensures
        formed(new),
        opened(old.enc.st, *old.enc.body, *old.enc.prog) ==> shaped(new),
        holdable(new.enc.terms, env, old.enc.terms.size()),
        stands_for(old, env, vals) ==> !fails(*old.enc.body, block, vals, stop, id, n),
        stands_for(old, env, vals) && stop is Some && arrives(
            *old.enc.body,
            block,
            vals,
            stop->0,
            end,
            n,
        ) ==> reached_by(new, env, old.enc.terms.size(), end),
    decreases old.max_depth + 2 - old.depth, 10int,
{
    let body = *old.enc.body;
    let v = old.visited();
    let b = body.blocks@[block.0 as int];
    let len = b.stmts@.len();
    let size = old.enc.terms.size();
    assert(same_below(env, env, size));
    if stop == Some(block) {
    } else if v.depth > v.max_depth || !v.has_budget() {
        assert(new == v.shortened());
    } else {
        let (ran, i) = choose|ran: Explorer<'a, S>, i: nat|
            {
                &&& #[trigger] ran.stays_at(v, i)
                &&& ran.ran(v, b, 0, i)
                &&& i <= len || i == 0
                &&& if i < len {
                    if ran.has_budget() {
                        new.executed(ran, b.stmts@[i as int], b.exceptional@.len() > 0, false)
                    } else {
                        new == ran.shortened()
                    }
                } else if ran.has_budget() {
                    new.ended(ran, b.term, block, stop)
                } else {
                    new == ran
                }
            };
        assert(formed(v));
        assert(v.ok());
        lemma_ran(ran, v, block.0 as int, i, id, env, vals, vals, 0, vals);
        assert(stands_for(old, env, vals) ==> stands_for(v, env, vals));
        assert(b.in_range(body.blocks@.len(), body.vars@.len(), body.obligations@.len()));
        let first = choose|more: spec_fn(nat) -> i64| #[trigger]
            same_below(more, env, size) && wide::store_holds(ran.enc.terms, more);
        if i < len {
            let s = b.stmts@[i as int];
            let guarded = b.exceptional@.len() > 0;
            assert(plain_stmt(body, s));
            lemma_uses(*old.enc.prog, body, block.0 as int, i as int);
            assert(ir::stmt_in_range(s, body.vars@.len(), body.obligations@.len()));
            assert(new.executed(ran, s, guarded, false));
            lemma_executed(new, ran, s, guarded, false, id, first, vals, vals);
            lemma_clean_before(new, ran, id);
            lemma_kept_opened(ran.enc.st, old.enc.st, body, *old.enc.prog);
            lemma_kept_opened(new.enc.st, ran.enc.st, body, *old.enc.prog);
            let second = choose|more: spec_fn(nat) -> i64| #[trigger]
                same_below(more, first, ran.enc.terms.size()) && wide::store_holds(
                    new.enc.terms,
                    more,
                );
            lemma_same_below_trans(second, first, env, ran.enc.terms.size(), size);
            if stands_for(old, env, vals) {
                assert forall|k: nat, at: Mem|
                    i < k <= len && #[trigger] through(b, vals, at, k) implies false by {
                    let (u, w) = lemma_through_first(b, vals, at, i, k);
                    lemma_ran(ran, v, block.0 as int, i, id, env, vals, u, 0, vals);
                    let one = choose|more: spec_fn(nat) -> i64| #[trigger]
                        same_below(more, env, size) && stands_for(ran, more, u);
                    lemma_executed(new, ran, s, guarded, false, id, one, u, w);
                }
                if exists|k: int, at: Mem| #[trigger] fails_in(body, b, vals, id, k, at) {
                    let (k, at) = choose|k: int, at: Mem| #[trigger]
                        fails_in(body, b, vals, id, k, at);
                    if k < i {
                        lemma_ran(ran, v, block.0 as int, i, id, env, vals, vals, k, at);
                    }
                    assert(through(b, vals, at, k as nat));
                    assert(k <= i);
                }
                assert forall|at: Mem, to: BlockId| !#[trigger] goes(b, vals, at, to) by {
                    if goes(b, vals, at, to) {
                        assert(through(b, vals, at, len));
                    }
                }
            }
        } else {
            assert(i == len);
            lemma_kept_opened(ran.enc.st, old.enc.st, body, *old.enc.prog);
            if block == body.entry {
                lemma_first_opened(ran.enc.st, body, *old.enc.prog);
            }
            assert(new.has_budget());
            if !ran.has_budget() {
                assert(new == ran);
            }
            let (deep, done) = choose|deep: Explorer<'a, S>, done: Explorer<'a, S>|
                {
                    &&& ran.depth <= ran.max_depth
                    &&& deep.depth == ran.depth + 1
                    &&& deep == (Explorer { depth: deep.depth, ..ran })
                    &&& #[trigger] done.stays(deep)
                    &&& done.followed(deep, b.term, block, stop)
                    &&& new == (Explorer { depth: ran.depth, ..done })
                };
            assert(deep.ok());
            assert(shaped(deep));
            assert(clean(done, id));
            lemma_followed(done, deep, block, stop, id, first, vals, vals, block, 0);
            assert(shaped(new));
            lemma_clean_before(new, ran, id);
            let second = choose|more: spec_fn(nat) -> i64| #[trigger]
                same_below(more, first, ran.enc.terms.size()) && wide::store_holds(
                    new.enc.terms,
                    more,
                );
            lemma_same_below_trans(second, first, env, ran.enc.terms.size(), size);
            if stands_for(old, env, vals) {
                if fails(body, block, vals, stop, id, n) {
                    if exists|k: int, at: Mem| #[trigger] fails_in(body, b, vals, id, k, at) {
                        let (k, at) = choose|k: int, at: Mem| #[trigger]
                            fails_in(body, b, vals, id, k, at);
                        lemma_ran(ran, v, block.0 as int, i, id, env, vals, vals, k, at);
                    } else {
                        let (at, to) = choose|at: Mem, to: BlockId| #[trigger]
                            goes(b, vals, at, to) && fails(body, to, at, stop, id, (n - 1) as nat);
                        lemma_ran(ran, v, block.0 as int, i, id, env, vals, at, 0, vals);
                        let one = choose|more: spec_fn(nat) -> i64| #[trigger]
                            same_below(more, env, size) && stands_for(ran, more, at);
                        assert(stands_for(deep, one, at));
                        lemma_followed(done, deep, block, stop, id, one, at, end, to, (n - 1) as nat);
                    }
                }
                if stop is Some && arrives(body, block, vals, stop->0, end, n) {
                    let (at, to) = choose|at: Mem, to: BlockId| #[trigger]
                        goes(b, vals, at, to) && arrives(
                            body,
                            to,
                            at,
                            stop->0,
                            end,
                            (n - 1) as nat,
                        );
                    lemma_ran(ran, v, block.0 as int, i, id, env, vals, at, 0, vals);
                    let one = choose|more: spec_fn(nat) -> i64| #[trigger]
                        same_below(more, env, size) && stands_for(ran, more, at);
                    assert(stands_for(deep, one, at));
                    lemma_followed(done, deep, block, stop, id, one, at, end, to, (n - 1) as nat);
                    let two = choose|more: spec_fn(nat) -> i64| #[trigger]
                        same_below(more, one, ran.enc.terms.size()) && stands_for(done, more, end);
                    lemma_same_below_trans(two, one, env, ran.enc.terms.size(), size);
                    assert(stands_for(new, two, end));
                }
            }
        }
    }
}

proof fn lemma_kept_opened(s: State, old: State, body: Body, prog: Program)
    requires
        keeps_fields(s, old),
    ensures
        opened(old, body, prog) ==> opened(s, body, prog),
{
    reveal(keeps_fields);
    reveal(opened_maps);
}

/// After the first block every field in which the body stores has a term.
proof fn lemma_first_opened(s: State, body: Body, prog: Program)
    requires
        settled_fields(prog, body),
        ({
            let b = body.blocks@[body.entry.0 as int];
            opened_by(s, prog, b, b.stmts@.len() as int)
        }),
    ensures
        opened(s, body, prog),
{
    reveal(settled_fields);
    reveal(opened_by);
    reveal(opened_maps);
}

/// What following the end of a block comes to covers every run that goes on.
#[verifier::spinoff_prover]
proof fn lemma_followed<'a, S: Solver>(
    new: Explorer<'a, S>,
    old: Explorer<'a, S>,
    block: BlockId,
    stop: Option<BlockId>,
    id: ObligationId,
    env: spec_fn(nat) -> i64,
    vals: Mem,
    end: Mem,
    to: BlockId,
    n: nat,
)
    requires
        shaped(old),
        new.stays(old),
        block.0 < old.enc.body.blocks@.len(),
        new.followed(old, old.enc.body.blocks@[block.0 as int].term, block, stop),
        clean(new, id),
        wide::store_holds(old.enc.terms, env),
        heads_for(*old.enc.body, stop, block),
        stop != Some(block),
        old.depth <= old.max_depth + 1,
    ensures
        shaped(new),
        grew(new, old),
        holdable(new.enc.terms, env, old.enc.terms.size()),
        stands_for(old, env, vals) && wide::next_block(
            old.enc.body.blocks@[block.0 as int].term,
            vals,
        ) == Some(to) ==> {
            &&& !fails(*old.enc.body, to, vals, stop, id, n)
            &&& stop is Some && arrives(*old.enc.body, to, vals, stop->0, end, n) ==> reached_by(
                new,
                env,
                old.enc.terms.size(),
                end,
            )
        },
    decreases
            old.max_depth + 2 - old.depth,
            60 + case_count(old.enc.body.blocks@[block.0 as int].term),
{
    let body = *old.enc.body;
    let term = body.blocks@[block.0 as int].term;
    let size = old.enc.terms.size();
    assert(same_below(env, env, size));
    assert(body.blocks@[block.0 as int].in_range(
        body.blocks@.len(),
        body.vars@.len(),
        body.obligations@.len(),
    ));
    assert(plain_term(body, term));
    match term {
        Terminator::Goto(t) => {
            assert(wide::next_block(term, vals) == Some(t));
            lemma_next_edge(body, block.0 as int, vals, t);
            if let Some(s) = stop {
                postdom::lemma_caught_step(
                    postdom::graph_of(body),
                    s.0 as int,
                    block.0 as int,
                    t.0 as int,
                );
            }
            if t.0 <= block.0 {
                let (entered, go_on) = choose|entered: Explorer<'a, S>, go_on: bool|
                    {
                        &&& #[trigger] entered.loop_entered(old, t, go_on)
                        &&& if go_on {
                            new.explored(entered, t, 0, stop)
                        } else {
                            new == entered.shortened()
                        }
                    };
                assert(entered.ok()) by {
                    reveal(State::fits);
                }
                assert(shaped(entered));
                assert(go_on);
                lemma_explored(new, entered, t, stop, id, env, vals, end, n);
                assert(stands_for(old, env, vals) ==> stands_for(entered, env, vals));
                lemma_after_grew(new, entered);
                lemma_grew_self(old);
                assert(grew(new, old));
            } else {
                lemma_explored(new, old, t, stop, id, env, vals, end, n);
                lemma_after_grew(new, old);
            }
        },
        Terminator::Branch { cond, then_, else_ } => {
            lemma_branched(new, old, block, cond, then_, else_, stop, id, env, vals, end, n);
        },
        Terminator::Switch { value, cases, default } => {
            lemma_switched(new, old, block, value, cases@, default, stop, id, env, vals, end, n);
            let k = lemma_case_index(
                cases@,
                wide::operand(vals, value),
                cases@.len(),
            );
        },
        Terminator::Return(_) | Terminator::Halt => {
            lemma_grew_self(old);
        },
        _ => {
            assert(new == old.shortened());
        },
    }
}

/// A terminator leads to each of its targets.
proof fn lemma_target_edge(body: Body, block: int, k: int)
    requires
        body.well_formed(),
        0 <= block < body.blocks@.len(),
        0 <= k < ir::term_targets(body.blocks@[block].term).len(),
    ensures
        ir::term_targets(body.blocks@[block].term)[k].0 < body.blocks@.len(),
        postdom::edge(
            postdom::graph_of(body),
            block,
            ir::term_targets(body.blocks@[block].term)[k].0 as int,
        ),
{
    let targets = ir::term_targets(body.blocks@[block].term);
    let ids = postdom::succ_ids(body, block);
    assert(body.blocks@[block].in_range(
        body.blocks@.len(),
        body.vars@.len(),
        body.obligations@.len(),
    ));
    assert(targets[k].0 < body.blocks@.len());
    assert(ids[k] == targets[k].0);
    assert(postdom::graph_of(body)[block] == ids);
    assert(ids.contains(targets[k].0));
}

/// The state stands for a run with the values, under an assignment that agrees with the
/// given one below `n` and with what the store asserts.
spec fn ends_with(
    body: Body,
    prog: Program,
    ts: Terms,
    s: State,
    env: spec_fn(nat) -> i64,
    n: nat,
    vals: Mem,
) -> bool {
    &&& vals.prog == prog
    &&& wide::typed(body, vals)
    &&& exists|more: spec_fn(nat) -> i64| #[trigger]
        same_below(more, env, n) && wide::store_holds(ts, more) && vars_are(ts, s, vals, more)
}

/// The values of the variables of a state do not change with later terms and symbols.
proof fn lemma_vars_later(
    new: Terms,
    old: Terms,
    s: State,
    n: nat,
    vals: Mem,
    env: spec_fn(nat) -> i64,
    more: spec_fn(nat) -> i64,
)
    requires
        old.well_formed(),
        s.fits(n, old),
        new.grown_from(old),
        same_below(more, env, old.size()),
        vars_are(old, s, vals, env),
    ensures
        vars_are(new, s, vals, more),
{
    s.lemma_fits(n, old);
    lemma_fields_later(new, s, old, s, n, vals, env, more);
    assert forall|i: int| 0 <= i < vals.vars.len() implies (#[trigger] s.vars@[i] matches Some(t)
        && wide::value_of(new.tm(t), more) == vals.vars[i]) by {
        assert(old.has_opt(s.vars@[i]));
        lemma_same_term(old, s.vars@[i]->0, more, env);
    }
}

/// One arm up to where the arms meet.
#[verifier::spinoff_prover]
proof fn lemma_side<'a, S: Solver>(
    new: Explorer<'a, S>,
    old: Explorer<'a, S>,
    c: Term,
    target: BlockId,
    at: BlockId,
    r: State,
    id: ObligationId,
    env: spec_fn(nat) -> i64,
    vals: Mem,
    end: Mem,
    n: nat,
)
    requires
        shaped(old),
        new.stays(old),
        new.side_explored(old, false, c, target, Some(at), r),
        target.0 < old.enc.body.blocks@.len(),
        clean(new, id),
        wide::store_holds(old.enc.terms, env),
        heads_for(*old.enc.body, Some(at), target),
        old.depth <= old.max_depth + 1,
    ensures
        grew(new, old),
        shaped(new),
        new.enc.st.alike(old.enc.st),
        new.path@ == old.path@,
        r.fits(old.enc.body.vars@.len(), new.enc.terms),
        shaped_state(new.enc.terms, r, old.enc.body.vars@.len() as int, *old.enc.body, *old.enc.prog),
        holdable(new.enc.terms, env, old.enc.terms.size()),
        stands_for(old, env, vals) && wide::truth_of(old.enc.terms.tm(c), env) ==> {
            &&& !fails(*old.enc.body, target, vals, Some(at), id, n)
            &&& arrives(*old.enc.body, target, vals, at, end, n) ==> ends_with(
                *old.enc.body,
                *old.enc.prog,
                new.enc.terms,
                r,
                env,
                old.enc.terms.size(),
                end,
            )
        },
    decreases old.max_depth + 2 - old.depth, 11int,
{
    let (taken, done) = choose|taken: Explorer<'a, S>, done: Explorer<'a, S>|
        {
            &&& taken.stays(old)
            &&& #[trigger] taken.side_taken(old, false, c)
            &&& #[trigger] done.stays(taken)
            &&& done.explored(taken, target, 0, Some(at))
            &&& r.alike(done.enc.st)
            &&& new.back_at(done, old)
        };
    let nv = old.enc.body.vars@.len();
    assert(shaped(taken));
    assert(clean(done, id));
    lemma_explored(done, taken, target, Some(at), id, env, vals, end, n);
    lemma_after_grew(done, taken);
    lemma_grew_self(old);
    assert(grew(new, old));
    r.lemma_alike_fits(done.enc.st, nv, done.enc.terms);
    lemma_alike_shape(done.enc.terms, r, done.enc.st, nv as int, *done.enc.body, *done.enc.prog);
    lemma_alike_shape(new.enc.terms, new.enc.st, old.enc.st, nv as int, *old.enc.body, *old.enc.prog);
    assert(new.path@ =~= old.path@) by {
        assert(done.path@.take(taken.path@.len() as int) == taken.path@);
        assert forall|i: int| 0 <= i < old.path@.len() implies done.path@[i] == old.path@[i] by {
            assert(done.path@.take(taken.path@.len() as int)[i] == taken.path@[i]);
        }
    }
    if stands_for(old, env, vals) && wide::truth_of(old.enc.terms.tm(c), env) {
        assert forall|i: int| 0 <= i < taken.path@.len() implies wide::truth_of(
            taken.enc.terms.tm(#[trigger] taken.path@[i]),
            env,
        ) by {
            if i < old.path@.len() {
                assert(taken.path@[i] == old.path@[i]);
            }
        }
        assert(stands_for(taken, env, vals));
        if arrives(*old.enc.body, target, vals, at, end, n) {
            let more = choose|more: spec_fn(nat) -> i64| #[trigger]
                same_below(more, env, old.enc.terms.size()) && stands_for(done, more, end);
            assert(same_below(more, more, done.enc.terms.size()));
            lemma_fields_later(
                done.enc.terms,
                r,
                done.enc.terms,
                done.enc.st,
                nv,
                end,
                more,
                more,
            );
            assert(vars_are(new.enc.terms, r, end, more));
        }
    }
}

/// The join of the fields of two states holds what the one that was taken does.
#[verifier::spinoff_prover]
proof fn lemma_fields_joined(
    ts: Terms,
    cond: Tm,
    base: State,
    a: State,
    b: State,
    r: State,
    env: spec_fn(nat) -> i64,
    vals: Mem,
    body: Body,
    prog: Program,
)
    requires
        merge::map_joins(ts, cond, base.statics, a.statics, b.statics, r.statics),
        merge::map_joins(ts, cond, base.field_arrays, a.field_arrays, b.field_arrays, r.field_arrays),
        resting(ts, base, body, prog),
        resting(ts, a, body, prog),
        resting(ts, b, body, prog),
        opened(a, body, prog),
        opened(b, body, prog),
        fields_are(
            ts,
            if wide::truth_of(cond, env) {
                a
            } else {
                b
            },
            vals,
            env,
        ),
    ensures
        fields_are(ts, r, vals, env),
{
    reveal(maps_are);
    reveal(wide::rest);
    reveal(opened_maps);
    let c = if wide::truth_of(cond, env) {
        a
    } else {
        b
    };
    assert forall|k: FieldKeyV| static_is(ts, #[trigger] r.statics.at(k), k, vals, env) by {
        assert(static_is(ts, c.statics.at(k), k, vals, env));
        let (x, y, z) = (a.statics.at(k), b.statics.at(k), r.statics.at(k));
        if wide::stores_static(body, k) {
            lemma_option_joined(ts, cond, x, y, z, env);
        } else {
            assert(x is Some ==> wide::static_rests(ts, x->0, k));
            assert(y is Some ==> wide::static_rests(ts, y->0, k));
            assert(base.statics.at(k) is Some ==> wide::static_rests(ts, base.statics.at(k)->0, k));
            if x is Some && y is Some {
                lemma_option_joined(ts, cond, x, y, z, env);
            }
        }
    }
    assert forall|k: FieldKeyV| field_is(ts, #[trigger] r.field_arrays.at(k), k, vals, env) by {
        assert(field_is(ts, c.field_arrays.at(k), k, vals, env));
        let (x, y, z) = (a.field_arrays.at(k), b.field_arrays.at(k), r.field_arrays.at(k));
        let w = base.field_arrays.at(k);
        if wide::stores_field(prog, body, k) {
            lemma_option_joined(ts, cond, x, y, z, env);
        } else {
            assert(x is Some ==> wide::field_rests(ts, x->0, k));
            assert(y is Some ==> wide::field_rests(ts, y->0, k));
            assert(w is Some ==> wide::field_rests(ts, w->0, k));
            if x is Some && y is Some {
                lemma_option_joined(ts, cond, x, y, z, env);
            }
            assert forall|o: i32| #[trigger] (vals.fields)(k, o) == wide::initial(k) by {
                assert((vals.fields)(k, o) == match c.field_arrays.at(k) {
                    Some(t) => wide::element_of(ts.tm(t), env, o),
                    None => wide::initial(k),
                });
            }
        }
    }
}

/// The join of two terms is the one that was taken.
proof fn lemma_option_joined(
    ts: Terms,
    cond: Tm,
    a: Option<Term>,
    b: Option<Term>,
    r: Option<Term>,
    env: spec_fn(nat) -> i64,
)
    requires
        a is Some,
        b is Some,
        merge::joins(ts, cond, a, b, r),
    ensures
        r is Some,
        ts.has(a->0) && ts.has(b->0) ==> ts.has(r->0),
        ({
            let c = if wide::truth_of(cond, env) {
                a
            } else {
                b
            };
            &&& r is Some ==> wide::value_of(ts.tm(r->0), env) == wide::value_of(ts.tm(c->0), env)
            &&& r is Some ==> forall|i: i32| #[trigger]
                wide::element_of(ts.tm(r->0), env, i) == wide::element_of(ts.tm(c->0), env, i)
        }),
{
    reveal_with_fuel(wide::value_of, 2);
    reveal_with_fuel(wide::truth_of, 2);
    reveal_with_fuel(wide::element_of, 2);
    if let (Some(x), Some(y), Some(z)) = (a, b, r) {
        let c = if wide::truth_of(cond, env) {
            x
        } else {
            y
        };
        assert(wide::value_of(ts.tm(z), env) == wide::value_of(ts.tm(c), env));
        assert forall|i: i32| #[trigger] wide::element_of(ts.tm(z), env, i) == wide::element_of(
            ts.tm(c),
            env,
            i,
        ) by {
            let (p, q) = (wide::element_of(ts.tm(x), env, i), wide::element_of(ts.tm(y), env, i));
        }
    }
}

/// The join of the fields of two states has the shape of both.
proof fn lemma_fields_shape(
    ts: Terms,
    cond: Tm,
    base: State,
    a: State,
    b: State,
    r: State,
    body: Body,
    prog: Program,
)
    requires
        merge::map_joins(ts, cond, base.statics, a.statics, b.statics, r.statics),
        merge::map_joins(ts, cond, base.field_arrays, a.field_arrays, b.field_arrays, r.field_arrays),
        merge::set_joins(a.static_tainted, b.static_tainted, r.static_tainted),
        merge::set_joins(a.field_tainted, b.field_tainted, r.field_tainted),
        fields_used(base, body, prog),
        fields_used(a, body, prog),
        fields_used(b, body, prog),
        resting(ts, base, body, prog),
        resting(ts, a, body, prog),
        resting(ts, b, body, prog),
        opened(a, body, prog),
        opened(b, body, prog),
    ensures
        fields_used(r, body, prog),
        resting(ts, r, body, prog),
        opened(r, body, prog),
{
    reveal(used_maps);
    reveal(opened_maps);
    assert forall|k: FieldKeyV| (#[trigger] r.statics.at(k)) is Some implies uses_static(body, k) by {
        let (x, y, w) = (a.statics.at(k), b.statics.at(k), base.statics.at(k));
    }
    assert forall|k: FieldKeyV| (#[trigger] r.field_arrays.at(k)) is Some implies uses_field(
        prog,
        body,
        k,
    ) by {
        let (x, y, w) = (a.field_arrays.at(k), b.field_arrays.at(k), base.field_arrays.at(k));
    }
    assert forall|k: FieldKeyV| wide::stores_static(body, k) implies (#[trigger] r.statics.at(k)) is Some by {
        assert(a.statics.at(k) is Some && b.statics.at(k) is Some);
    }
    assert forall|k: FieldKeyV| wide::stores_field(prog, body, k) implies (#[trigger] r.field_arrays.at(
        k,
    )) is Some by {
        assert(a.field_arrays.at(k) is Some && b.field_arrays.at(k) is Some);
    }
    assert(resting(ts, r, body, prog)) by {
        reveal(wide::rest);
        assert forall|k: FieldKeyV|
            (#[trigger] r.statics.at(k)) is Some && !wide::stores_static(body, k) implies wide::static_rests(
            ts,
            r.statics.at(k)->0,
            k,
        ) by {
            let (x, y, w) = (a.statics.at(k), b.statics.at(k), base.statics.at(k));
            assert(x is Some ==> wide::static_rests(ts, x->0, k));
            assert(y is Some ==> wide::static_rests(ts, y->0, k));
            assert(w is Some ==> wide::static_rests(ts, w->0, k));
            if x is Some && y is Some {
                assert forall|env: spec_fn(nat) -> i64| #[trigger] wide::value_of(
                    ts.tm(r.statics.at(k)->0),
                    env,
                ) == wide::initial(k) by {
                    lemma_option_joined(ts, cond, x, y, r.statics.at(k), env);
                    assert(wide::value_of(ts.tm(x->0), env) == wide::initial(k));
                    assert(wide::value_of(ts.tm(y->0), env) == wide::initial(k));
                }
                lemma_option_joined(ts, cond, x, y, r.statics.at(k), |p: nat| 0i64);
            }
        }
        assert forall|k: FieldKeyV|
            (#[trigger] r.field_arrays.at(k)) is Some && !wide::stores_field(prog, body, k) implies wide::field_rests(
            ts,
            r.field_arrays.at(k)->0,
            k,
        ) by {
            let (x, y, w) = (a.field_arrays.at(k), b.field_arrays.at(k), base.field_arrays.at(k));
            assert(x is Some ==> wide::field_rests(ts, x->0, k));
            assert(y is Some ==> wide::field_rests(ts, y->0, k));
            assert(w is Some ==> wide::field_rests(ts, w->0, k));
            if x is Some && y is Some {
                assert forall|env: spec_fn(nat) -> i64, o: i32| #[trigger] wide::element_of(
                    ts.tm(r.field_arrays.at(k)->0),
                    env,
                    o,
                ) == wide::initial(k) by {
                    lemma_option_joined(ts, cond, x, y, r.field_arrays.at(k), env);
                    assert(wide::element_of(ts.tm(x->0), env, o) == wide::initial(k));
                    assert(wide::element_of(ts.tm(y->0), env, o) == wide::initial(k));
                }
                lemma_option_joined(ts, cond, x, y, r.field_arrays.at(k), |p: nat| 0i64);
            }
        }
    }
}

/// The join of two states stands for a run that went through one of them.
#[verifier::spinoff_prover]
proof fn lemma_joined_vars(
    ts: Terms,
    cond: Tm,
    base: State,
    a: State,
    b: State,
    r: State,
    n: nat,
    env: spec_fn(nat) -> i64,
    vals: Mem,
    body: Body,
    prog: Program,
)
    requires
        merge::branch_joined(ts, cond, base, a, b, r),
        base.vars@.len() == n,
        a.vars@.len() == n,
        b.vars@.len() == n,
        vals.vars.len() == n,
        resting(ts, base, body, prog),
        shaped_state(ts, a, n as int, body, prog),
        shaped_state(ts, b, n as int, body, prog),
        vars_are(
            ts,
            if wide::truth_of(cond, env) {
                a
            } else {
                b
            },
            vals,
            env,
        ),
    ensures
        vars_are(ts, r, vals, env),
{
    reveal_with_fuel(wide::value_of, 2);
    reveal_with_fuel(wide::truth_of, 2);
    lemma_fields_joined(ts, cond, base, a, b, r, env, vals, body, prog);
    assert forall|i: int| 0 <= i < vals.vars.len() implies (#[trigger] r.vars@[i] matches Some(t)
        && wide::value_of(ts.tm(t), env) == vals.vars[i]) by {
        assert(a.vars@[i] is Some && b.vars@[i] is Some);
        assert(merge::joins(
            ts,
            cond,
            merge::or_else(a.vars@[i], base.vars@[i]),
            merge::or_else(b.vars@[i], base.vars@[i]),
            r.vars@[i],
        ));
    }
}

proof fn lemma_joined_shape(
    ts: Terms,
    cond: Tm,
    base: State,
    a: State,
    b: State,
    r: State,
    n: nat,
    body: Body,
    prog: Program,
)
    requires
        merge::branch_joined(ts, cond, base, a, b, r),
        base.vars@.len() == n,
        a.var_widths@.len() == n,
        shaped_state(ts, base, n as int, body, prog),
        shaped_state(ts, a, n as int, body, prog),
        shaped_state(ts, b, n as int, body, prog),
    ensures
        shaped_state(ts, r, n as int, body, prog),
{
    lemma_fields_shape(ts, cond, base, a, b, r, body, prog);
    assert forall|i: int| 0 <= i < n implies (#[trigger] r.vars@[i]) is Some by {
        assert(a.vars@[i] is Some && b.vars@[i] is Some);
        assert(merge::joins(
            ts,
            cond,
            merge::or_else(a.vars@[i], base.vars@[i]),
            merge::or_else(b.vars@[i], base.vars@[i]),
            r.vars@[i],
        ));
    }
    assert forall|i: int| 0 <= i < n implies !#[trigger] r.tainted@[i] by {
        assert(!a.tainted@[i] && !b.tainted@[i]);
    }
    assert forall|i: int| 0 <= i < n implies ((#[trigger] r.var_widths@[i]) is None || r.var_widths@[i]
        == Some(
            state::ty_width(body.vars@[i].ty),
        )) by {
        assert(a.var_widths@[i] is None || a.var_widths@[i] == Some(
            state::ty_width(body.vars@[i].ty),
        ));
        assert(b.var_widths@[i] is None || b.var_widths@[i] == Some(
            state::ty_width(body.vars@[i].ty),
        ));
        assert(base.var_widths@[i] is None || base.var_widths@[i] == Some(
            state::ty_width(body.vars@[i].ty),
        ));
    }
}

/// What holds the same has the same shape.
proof fn lemma_alike_shape(ts: Terms, s: State, old: State, n: int, body: Body, prog: Program)
    requires
        s.alike(old),
        shaped_state(ts, old, n, body, prog),
    ensures
        shaped_state(ts, s, n, body, prog),
{
    assert(fields_used(s, body, prog) && opened(s, body, prog) && resting(ts, s, body, prog)) by {
        reveal(wide::rest);
        reveal(used_maps);
        reveal(opened_maps);
        assert forall|k: FieldKeyV| !#[trigger] s.static_tainted.holds(k) by {
            assert(!old.static_tainted.holds(k));
            assert(s.static_tainted.at(k) == old.static_tainted.at(k));
        }
        assert forall|k: FieldKeyV| !#[trigger] s.field_tainted.holds(k) by {
            assert(!old.field_tainted.holds(k));
            assert(s.field_tainted.at(k) == old.field_tainted.at(k));
        }
    }
    assert forall|i: int| 0 <= i < n implies (#[trigger] s.vars@[i]) is Some by {
        assert(old.vars@[i] is Some);
    }
    assert forall|i: int| 0 <= i < n implies !#[trigger] s.tainted@[i] by {
        assert(!old.tainted@[i]);
    }
    assert forall|i: int| 0 <= i < n implies ((#[trigger] s.var_widths@[i]) is None || s.var_widths@[i]
        == Some(
            state::ty_width(body.vars@[i].ty),
        )) by {
        assert(old.var_widths@[i] is None || old.var_widths@[i] == Some(
            state::ty_width(body.vars@[i].ty),
        ));
    }
}

/// The condition of a branch was read.
#[verifier::spinoff_prover]
proof fn lemma_condition<'a, S: Solver>(
    start: Explorer<'a, S>,
    old: Explorer<'a, S>,
    cond: Operand,
    nonzero: Term,
    zero: Term,
    env: spec_fn(nat) -> i64,
    vals: Mem,
)
    requires
        shaped(old),
        start.condition_read(old, cond, nonzero, zero),
        start.doms@ == old.doms@ || explore::doms_ok(*old.enc.prog, start.doms@),
        cond.in_range(old.enc.body.vars@.len()),
        narrow(*old.enc.body, cond),
    ensures
        grew(start, old),
        shaped(start),
        wide::store_holds(old.enc.terms, env) ==> wide::store_holds(start.enc.terms, env),
        stands_for(old, env, vals) ==> {
            &&& stands_for(start, env, vals)
            &&& wide::truth_of(start.enc.terms.tm(zero), env) == (wide::operand(vals, cond)
                == Value::I32(0))
            &&& wide::truth_of(start.enc.terms.tm(nonzero), env) == (wide::operand(
                vals,
                cond,
            ) != Value::I32(0))
        },
{
    old.enc.st.lemma_fits(old.enc.body.vars@.len(), old.enc.terms);
    lemma_settled_same(start.enc, old);
    start.enc.terms.lemma_built_grows(old.enc.terms);
    lemma_grew_self(old);
    assert(start.ok());
    if wide::store_holds(old.enc.terms, env) {
        lemma_store_built(start.enc.terms, old.enc.terms, env);
    }
    if stands_for(old, env, vals) {
        lemma_stands_built(start, old, env, vals);
        lemma_operand(start.enc, old, cond, env, vals);
        wide::law_tests_for_zero(start.enc.operand_tm(cond), env);
        reveal_with_fuel(wide::truth_of, 2);
    }
}

/// Control that leaves a branch is still caught.
proof fn lemma_branch_heads(body: Body, block: BlockId, stop: Option<BlockId>)
    requires
        body.well_formed(),
        block.0 < body.blocks@.len(),
        body.blocks@[block.0 as int].term is Branch,
        heads_for(body, stop, block),
        stop != Some(block),
    ensures
        ({
            let t = body.blocks@[block.0 as int].term;
            &&& t->then_.0 < body.blocks@.len()
            &&& t->else_.0 < body.blocks@.len()
            &&& heads_for(body, stop, t->then_)
            &&& heads_for(body, stop, t->else_)
        }),
{
    let t = body.blocks@[block.0 as int].term;
    let g = postdom::graph_of(body);
    assert(ir::term_targets(t) =~= seq![t->then_, t->else_]);
    lemma_target_edge(body, block.0 as int, 0);
    lemma_target_edge(body, block.0 as int, 1);
    if let Some(s) = stop {
        postdom::lemma_caught_step(g, s.0 as int, block.0 as int, (t->then_).0 as int);
        postdom::lemma_caught_step(g, s.0 as int, block.0 as int, (t->else_).0 as int);
    }
}

/// Where the arms of a branch meet.
proof fn lemma_meeting_heads(body: Body, then_: BlockId, else_: BlockId, at: u32, stop: Option<BlockId>)
    requires
        body.well_formed(),
        then_.0 < body.blocks@.len(),
        else_.0 < body.blocks@.len(),
        heads_for(body, stop, then_),
        heads_for(body, stop, else_),
        postdom::join_point(
            postdom::graph_of(body),
            explore::block_ids(seq![then_, else_]),
        ) == Some(at),
    ensures
        at < body.blocks@.len(),
        heads_for(body, Some(BlockId(at)), then_),
        heads_for(body, Some(BlockId(at)), else_),
        heads_for(body, stop, BlockId(at)),
        stop matches Some(s) ==> s.0 == at || !postdom::caught(
            postdom::graph_of(body),
            at as int,
            s.0 as int,
        ),
{
    let g = postdom::graph_of(body);
    let targets = explore::block_ids(seq![then_, else_]);
    assert(targets.len() == 2 && targets[0] == then_.0 && targets[1] == else_.0);
    assert forall|i: int| 0 <= i < targets.len() implies (#[trigger] targets[i]) < g.len() by {}
    postdom::lemma_join_in_range(g, targets);
    postdom::law_join_point_is_reached(g, targets, 0);
    postdom::law_join_point_is_reached(g, targets, 1);
    if let Some(s) = stop {
        assert forall|i: int| 0 <= i < targets.len() implies postdom::caught(
            g,
            s.0 as int,
            #[trigger] targets[i] as int,
        ) by {}
        postdom::lemma_join_comes_first(g, targets, s.0 as int);
    }
}

/// A branch.
#[verifier::spinoff_prover]
proof fn lemma_branched<'a, S: Solver>(
    new: Explorer<'a, S>,
    old: Explorer<'a, S>,
    block: BlockId,
    cond: Operand,
    then_: BlockId,
    else_: BlockId,
    stop: Option<BlockId>,
    id: ObligationId,
    env: spec_fn(nat) -> i64,
    vals: Mem,
    end: Mem,
    n: nat,
)
    requires
        shaped(old),
        new.stays(old),
        block.0 < old.enc.body.blocks@.len(),
        old.enc.body.blocks@[block.0 as int].term == (Terminator::Branch { cond, then_, else_ }),
        new.branched(old, cond, then_, else_, stop),
        clean(new, id),
        wide::store_holds(old.enc.terms, env),
        heads_for(*old.enc.body, stop, block),
        stop != Some(block),
        old.depth <= old.max_depth + 1,
    ensures
        shaped(new),
        grew(new, old),
        holdable(new.enc.terms, env, old.enc.terms.size()),
        stands_for(old, env, vals) ==> {
            let to = if wide::operand(vals, cond) != Value::I32(0) {
                then_
            } else {
                else_
            };
            &&& !fails(*old.enc.body, to, vals, stop, id, n)
            &&& stop is Some && arrives(*old.enc.body, to, vals, stop->0, end, n) ==> reached_by(
                new,
                env,
                old.enc.terms.size(),
                end,
            )
        },
    decreases old.max_depth + 2 - old.depth, 16int,
{
    let body = *old.enc.body;
    let size = old.enc.terms.size();
    assert(body.blocks@[block.0 as int].in_range(
        body.blocks@.len(),
        body.vars@.len(),
        body.obligations@.len(),
    ));
    assert(plain_term(body, body.blocks@[block.0 as int].term));
    lemma_widths(old, cond);
    lemma_branch_heads(body, block, stop);
    let join = postdom::join_point(
        postdom::graph_of(body),
        explore::block_ids(seq![then_, else_]),
    );
    let (start, nonzero, zero) = choose|start: Explorer<'a, S>, nonzero: Term, zero: Term|
        {
            &&& #[trigger] start.condition_read(old, cond, nonzero, zero)
            &&& match join {
                Some(at) => new.sides_met(start, false, nonzero, zero, then_, else_, at, stop),
                None => new.forked(start, false, nonzero, zero, then_, else_, stop),
            }
        };
    lemma_condition(start, old, cond, nonzero, zero, env, vals);
    if let Some(at) = join {
        lemma_meeting_heads(body, then_, else_, at, stop);
        let (first, a, second, b, merged) = choose|
            first: Explorer<'a, S>,
            a: State,
            second: Explorer<'a, S>,
            b: State,
            merged: Explorer<'a, S>,
        |
            {
                &&& first.stays(start)
                &&& #[trigger] first.went_side(start, nonzero, a)
                &&& first.side_explored(start, false, nonzero, then_, Some(BlockId(at)), a)
                &&& second.stays(start)
                &&& #[trigger] second.went_side(first, zero, b)
                &&& second.side_explored(first, false, zero, else_, Some(BlockId(at)), b)
                &&& merged.stays(start)
                &&& #[trigger] merged.sides_joined(second, nonzero, a, b)
                &&& new.explored(merged, BlockId(at), 0, stop)
            };
        lemma_join_branch(
            new,
            merged,
            second,
            first,
            start,
            nonzero,
            zero,
            then_,
            else_,
            BlockId(at),
            a,
            b,
            stop,
            id,
            env,
            vals,
            end,
            n,
        );
    } else {
        lemma_forked(new, start, nonzero, zero, then_, else_, stop, id, env, vals, end, n);
    }
    lemma_grew_trans(new, start, old);
    lemma_from_start(new, start.enc.terms.size(), size, env, end);
}

/// What holds under an assignment that agrees below `m` does so below less.
proof fn lemma_from_start<'a, S: Solver>(
    new: Explorer<'a, S>,
    m: nat,
    n: nat,
    env: spec_fn(nat) -> i64,
    end: Mem,
)
    requires
        n <= m,
    ensures
        holdable(new.enc.terms, env, m) ==> holdable(new.enc.terms, env, n),
        reached_by(new, env, m, end) ==> reached_by(new, env, n, end),
{
    if holdable(new.enc.terms, env, m) {
        let held = choose|more: spec_fn(nat) -> i64| #[trigger]
            same_below(more, env, m) && wide::store_holds(new.enc.terms, more);
        lemma_same_below_trans(held, env, env, m, n);
    }
    if reached_by(new, env, m, end) {
        let more = choose|more: spec_fn(nat) -> i64| #[trigger]
            same_below(more, env, m) && stands_for(new, more, end);
        lemma_same_below_trans(more, env, env, m, n);
    }
}

/// A branch whose arms meet again.
#[verifier::rlimit(60)]
#[verifier::spinoff_prover]
proof fn lemma_join_branch<'a, S: Solver>(
    new: Explorer<'a, S>,
    merged: Explorer<'a, S>,
    second: Explorer<'a, S>,
    first: Explorer<'a, S>,
    start: Explorer<'a, S>,
    nonzero: Term,
    zero: Term,
    then_: BlockId,
    else_: BlockId,
    j: BlockId,
    a: State,
    b: State,
    stop: Option<BlockId>,
    id: ObligationId,
    env: spec_fn(nat) -> i64,
    vals: Mem,
    end: Mem,
    n: nat,
)
    requires
        shaped(start),
        first.stays(start),
        first.side_explored(start, false, nonzero, then_, Some(j), a),
        second.stays(start),
        second.side_explored(first, false, zero, else_, Some(j), b),
        merged.stays(start),
        merged.sides_joined(second, nonzero, a, b),
        new.explored(merged, j, 0, stop),
        then_.0 < start.enc.body.blocks@.len(),
        else_.0 < start.enc.body.blocks@.len(),
        j.0 < start.enc.body.blocks@.len(),
        clean(new, id),
        start.enc.terms.has(nonzero),
        start.enc.terms.has(zero),
        wide::store_holds(start.enc.terms, env),
        heads_for(*start.enc.body, Some(j), then_),
        heads_for(*start.enc.body, Some(j), else_),
        heads_for(*start.enc.body, stop, j),
        stop matches Some(s) ==> s == j || !postdom::caught(
            postdom::graph_of(*start.enc.body),
            j.0 as int,
            s.0 as int,
        ),
        start.depth <= start.max_depth + 1,
        start.enc.terms.tm(nonzero) == term::tm_not(start.enc.terms.tm(zero)),
    ensures
        shaped(new),
        grew(new, start),
        holdable(new.enc.terms, env, start.enc.terms.size()),
        stands_for(start, env, vals) ==> {
            let to = if wide::truth_of(start.enc.terms.tm(nonzero), env) {
                then_
            } else {
                else_
            };
            &&& !fails(*start.enc.body, to, vals, stop, id, n)
            &&& stop is Some && arrives(*start.enc.body, to, vals, stop->0, end, n) ==> reached_by(
                new,
                env,
                start.enc.terms.size(),
                end,
            )
        },
    decreases start.max_depth + 2 - start.depth, 15int,
{
    let body = *start.enc.body;
    let nv = body.vars@.len();
    let size = start.enc.terms.size();
    let collected = choose|collected: Explorer<'a, S>|
        {
            &&& #[trigger] collected.inputs_taken(second, a, b, true, true)
            &&& merged.states_merged(collected, nonzero, a, b)
        };
    merged.enc.terms.lemma_built_grows(second.enc.terms);
    lemma_grew_self(second);
    assert(grew(merged, second));
    lemma_after_grew(new, merged);
    lemma_clean_before(new, merged, id);
    lemma_clean_before(merged, second, id);
    lemma_side_grew(second, first, zero, else_, j, b);
    lemma_clean_before(second, first, id);
    lemma_side(first, start, nonzero, then_, j, a, id, env, vals, vals, 0);
    let e1 = choose|more: spec_fn(nat) -> i64| #[trigger]
        same_below(more, env, size) && wide::store_holds(first.enc.terms, more);
    lemma_side(second, first, zero, else_, j, b, id, e1, vals, vals, 0);
    let e2 = choose|more: spec_fn(nat) -> i64| #[trigger]
        same_below(more, e1, first.enc.terms.size()) && wide::store_holds(second.enc.terms, more);
    lemma_same_below_trans(e2, e1, env, first.enc.terms.size(), size);
    lemma_store_built(merged.enc.terms, second.enc.terms, e2);
    start.enc.st.lemma_fits(nv, start.enc.terms);
    a.lemma_fits(nv, first.enc.terms);
    b.lemma_fits(nv, second.enc.terms);
    second.enc.st.lemma_fits(nv, second.enc.terms);
    lemma_alike_shape(first.enc.terms, first.enc.st, start.enc.st, nv as int, *start.enc.body, *start.enc.prog);
    lemma_alike_shape(second.enc.terms, second.enc.st, first.enc.st, nv as int, *start.enc.body, *start.enc.prog);
    assert(shaped_state(merged.enc.terms, collected.enc.st, nv as int, *start.enc.body, *start.enc.prog));
    lemma_joined_shape(
        merged.enc.terms,
        second.enc.terms.tm(nonzero),
        collected.enc.st,
        a,
        b,
        merged.enc.st,
        nv,
        *start.enc.body,
        *start.enc.prog,
    );
    assert(shaped(merged));
    lemma_explored(new, merged, j, stop, id, e2, vals, vals, 0);
    lemma_grew_trans(second, first, start);
    lemma_grew_trans(merged, second, start);
    lemma_grew_trans(new, merged, start);
    let e3 = choose|more: spec_fn(nat) -> i64| #[trigger]
        same_below(more, e2, merged.enc.terms.size()) && wide::store_holds(new.enc.terms, more);
    lemma_same_below_trans(e3, e2, env, merged.enc.terms.size(), size);
    if stands_for(start, env, vals) {
        reveal_with_fuel(wide::truth_of, 2);
        let nz = wide::truth_of(start.enc.terms.tm(nonzero), env);
        let to = if nz {
            then_
        } else {
            else_
        };
        // How a run that comes to where the arms meet is stood for there.
        assert forall|mid: Mem, k: nat| #[trigger] arrives(body, to, vals, j, mid, k) implies reached_by(
            merged,
            env,
            size,
            mid,
        ) by {
            lemma_join_reached(
                merged,
                collected,
                second,
                first,
                start,
                nonzero,
                zero,
                then_,
                else_,
                j,
                a,
                b,
                id,
                env,
                vals,
                mid,
                k,
                nz,
            );
        }
        if fails(body, to, vals, stop, id, n) {
            let (mid, k) = lemma_split_failing(body, to, vals, stop, j, id, n);
            if fails(body, to, vals, Some(j), id, n) {
                if nz {
                    lemma_side(first, start, nonzero, then_, j, a, id, env, vals, vals, n);
                } else {
                    lemma_first_skipped(first, start, env, e1, vals);
                    lemma_same_term(start.enc.terms, zero, e1, env);
                    lemma_side(second, first, zero, else_, j, b, id, e1, vals, vals, n);
                }
            } else {
                assert(arrives(body, to, vals, j, mid, k));
                let more = choose|more: spec_fn(nat) -> i64| #[trigger]
                    same_below(more, env, size) && stands_for(merged, more, mid);
                lemma_explored(new, merged, j, stop, id, more, mid, end, (n - k) as nat);
            }
        }
        if stop is Some && arrives(body, to, vals, stop->0, end, n) {
            let (mid, k) = lemma_split_arriving(body, to, vals, stop->0, j, end, n);
            assert(arrives(body, to, vals, j, mid, k));
            let more = choose|more: spec_fn(nat) -> i64| #[trigger]
                same_below(more, env, size) && stands_for(merged, more, mid);
            lemma_explored(new, merged, j, stop, id, more, mid, end, (n - k) as nat);
            let last = choose|last: spec_fn(nat) -> i64| #[trigger]
                same_below(last, more, merged.enc.terms.size()) && stands_for(new, last, end);
            lemma_same_below_trans(last, more, env, merged.enc.terms.size(), size);
        }
    }
}

/// An arm keeps what was there.
proof fn lemma_side_grew<'a, S: Solver>(
    new: Explorer<'a, S>,
    old: Explorer<'a, S>,
    c: Term,
    target: BlockId,
    at: BlockId,
    r: State,
)
    requires
        old.ok(),
        new.stays(old),
        new.side_explored(old, false, c, target, Some(at), r),
    ensures
        grew(new, old),
{
    let (taken, done) = choose|taken: Explorer<'a, S>, done: Explorer<'a, S>|
        {
            &&& taken.stays(old)
            &&& #[trigger] taken.side_taken(old, false, c)
            &&& #[trigger] done.stays(taken)
            &&& done.explored(taken, target, 0, Some(at))
            &&& r.alike(done.enc.st)
            &&& new.back_at(done, old)
        };
    lemma_after_grew(done, taken);
    lemma_grew_self(old);
}

/// A run that does not take the first arm is stood for after it as before.
#[verifier::spinoff_prover]
proof fn lemma_first_skipped<'a, S: Solver>(
    first: Explorer<'a, S>,
    start: Explorer<'a, S>,
    env: spec_fn(nat) -> i64,
    more: spec_fn(nat) -> i64,
    vals: Mem,
)
    requires
        start.ok(),
        stands_for(start, env, vals),
        grew(first, start),
        first.path@ == start.path@,
        first.enc.st.alike(start.enc.st),
        same_below(more, env, start.enc.terms.size()),
        wide::store_holds(first.enc.terms, more),
    ensures
        stands_for(first, more, vals),
{
    let ts = start.enc.terms;
    lemma_vars_later(
        first.enc.terms,
        ts,
        start.enc.st,
        start.enc.body.vars@.len(),
        vals,
        env,
        more,
    );
    lemma_fields_later(
        first.enc.terms,
        first.enc.st,
        ts,
        start.enc.st,
        start.enc.body.vars@.len(),
        vals,
        env,
        more,
    );
    assert forall|i: int| 0 <= i < vals.vars.len() implies (#[trigger] first.enc.st.vars@[i] matches Some(t)
        && wide::value_of(first.enc.terms.tm(t), more) == vals.vars[i]) by {
        assert(start.enc.st.vars@[i] is Some);
    }
    assert forall|i: int| 0 <= i < first.path@.len() implies wide::truth_of(
        first.enc.terms.tm(#[trigger] first.path@[i]),
        more,
    ) by {
        assert(ts.has(start.path@[i]));
        assert(wide::truth_of(ts.tm(start.path@[i]), env));
        lemma_same_term(ts, start.path@[i], more, env);
    }
}

/// A run that comes to where the arms meet is stood for by the joined state.
#[verifier::rlimit(60)]
#[verifier::spinoff_prover]
proof fn lemma_join_reached<'a, S: Solver>(
    merged: Explorer<'a, S>,
    collected: Explorer<'a, S>,
    second: Explorer<'a, S>,
    first: Explorer<'a, S>,
    start: Explorer<'a, S>,
    nonzero: Term,
    zero: Term,
    then_: BlockId,
    else_: BlockId,
    j: BlockId,
    a: State,
    b: State,
    id: ObligationId,
    env: spec_fn(nat) -> i64,
    vals: Mem,
    mid: Mem,
    k: nat,
    nz: bool,
)
    requires
        shaped(start),
        first.stays(start),
        first.side_explored(start, false, nonzero, then_, Some(j), a),
        second.stays(start),
        second.side_explored(first, false, zero, else_, Some(j), b),
        merged.ok(),
        collected.inputs_taken(second, a, b, true, true),
        merged.states_merged(collected, nonzero, a, b),
        then_.0 < start.enc.body.blocks@.len(),
        else_.0 < start.enc.body.blocks@.len(),
        clean(first, id),
        clean(second, id),
        start.enc.terms.has(nonzero),
        start.enc.terms.has(zero),
        heads_for(*start.enc.body, Some(j), then_),
        heads_for(*start.enc.body, Some(j), else_),
        start.depth <= start.max_depth + 1,
        stands_for(start, env, vals),
        wide::truth_of(start.enc.terms.tm(nonzero), env) == nz,
        wide::truth_of(start.enc.terms.tm(zero), env) == !nz,
        arrives(
            *start.enc.body,
            if nz {
                then_
            } else {
                else_
            },
            vals,
            j,
            mid,
            k,
        ),
    ensures
        reached_by(merged, env, start.enc.terms.size(), mid),
    decreases start.max_depth + 2 - start.depth, 14int,
{
    let body = *start.enc.body;
    let nv = body.vars@.len();
    let size = start.enc.terms.size();
    let t1 = first.enc.terms;
    let t2 = second.enc.terms;
    let t3 = merged.enc.terms;
    t3.lemma_built_grows(t2);
    lemma_side(first, start, nonzero, then_, j, a, id, env, vals, mid, k);
    let e2 = if nz {
        let e1 = choose|more: spec_fn(nat) -> i64| #[trigger]
            same_below(more, env, size) && wide::store_holds(t1, more) && vars_are(t1, a, mid, more);
        lemma_side(second, first, zero, else_, j, b, id, e1, vals, vals, 0);
        let e2 = choose|more: spec_fn(nat) -> i64| #[trigger]
            same_below(more, e1, t1.size()) && wide::store_holds(t2, more);
        lemma_same_below_trans(e2, e1, env, t1.size(), size);
        lemma_grew_trans(second, first, start);
        lemma_store_built(t3, t2, e2);
        lemma_terms_trans(t3, t2, t1);
        lemma_vars_later(t3, t1, a, nv, mid, e1, e2);
        e2
    } else {
        let e1 = choose|more: spec_fn(nat) -> i64| #[trigger]
            same_below(more, env, size) && wide::store_holds(t1, more);
        lemma_first_skipped(first, start, env, e1, vals);
        lemma_same_term(start.enc.terms, zero, e1, env);
        lemma_side(second, first, zero, else_, j, b, id, e1, vals, mid, k);
        let e2 = choose|more: spec_fn(nat) -> i64| #[trigger]
            same_below(more, e1, t1.size()) && wide::store_holds(t2, more) && vars_are(
                t2,
                b,
                mid,
                more,
            );
        lemma_same_below_trans(e2, e1, env, t1.size(), size);
        lemma_grew_trans(second, first, start);
        lemma_store_built(t3, t2, e2);
        assert(same_below(e2, e2, t2.size()));
        lemma_vars_later(t3, t2, b, nv, mid, e2, e2);
        e2
    };
    start.enc.st.lemma_fits(nv, start.enc.terms);
    a.lemma_fits(nv, t1);
    b.lemma_fits(nv, t2);
    lemma_same_term(start.enc.terms, nonzero, e2, env);
    assert(t2.tm(nonzero) == start.enc.terms.tm(nonzero));
    assert(mid.vars.len() == nv);
    lemma_joined_vars(t3, t2.tm(nonzero), collected.enc.st, a, b, merged.enc.st, nv, e2, mid, *start.enc.body, *start.enc.prog);
    assert(merged.path@ == start.path@);
    assert forall|i: int| 0 <= i < merged.path@.len() implies wide::truth_of(
        t3.tm(#[trigger] merged.path@[i]),
        e2,
    ) by {
        let ts = start.enc.terms;
        assert(ts.has(start.path@[i]));
        assert(wide::truth_of(ts.tm(start.path@[i]), env));
        lemma_same_term(ts, start.path@[i], e2, env);
        assert(t2.tm(start.path@[i]) == ts.tm(start.path@[i]));
        assert(t2.has(start.path@[i]));
    }
    assert(stands_for(merged, e2, mid));
}

proof fn lemma_terms_trans(a: Terms, b: Terms, c: Terms)
    requires
        a.built_from(b),
        b.grown_from(c),
    ensures
        a.grown_from(c),
{
    assert forall|t: Term| c.has(t) implies #[trigger] a.tm(t) == c.tm(t) by {
        assert(b.has(t));
        assert(b.tm(t) == c.tm(t));
    }
}

/// One arm of a fork.
#[verifier::spinoff_prover]
proof fn lemma_arm<'a, S: Solver>(
    new: Explorer<'a, S>,
    old: Explorer<'a, S>,
    c: Term,
    target: BlockId,
    stop: Option<BlockId>,
    done: bool,
    id: ObligationId,
    env: spec_fn(nat) -> i64,
    vals: Mem,
    end: Mem,
    n: nat,
)
    requires
        shaped(old),
        new.stays(old),
        new.arm_explored(old, false, c, target, stop, done),
        target.0 < old.enc.body.blocks@.len(),
        clean(new, id),
        wide::store_holds(old.enc.terms, env),
        heads_for(*old.enc.body, stop, target),
        old.depth <= old.max_depth + 1,
    ensures
        grew(new, old),
        shaped(new),
        explore::extends(new.path@, old.path@),
        holdable(new.enc.terms, env, old.enc.terms.size()),
        stands_for(old, env, vals) && wide::truth_of(old.enc.terms.tm(c), env) ==> {
            &&& done
            &&& !fails(*old.enc.body, target, vals, stop, id, n)
            &&& stop is Some && arrives(*old.enc.body, target, vals, stop->0, end, n) ==> reached_by(
                new,
                env,
                old.enc.terms.size(),
                end,
            )
        },
    decreases old.max_depth + 2 - old.depth, 12int,
{
    let taken = choose|taken: Explorer<'a, S>|
        {
            &&& taken.stays(old)
            &&& #[trigger] taken.side_taken(old, false, c)
            &&& exists|asked: Explorer<'a, S>, res: SatResult|
                {
                    &&& asked.stays(taken)
                    &&& #[trigger] asked.answered(taken, None, res)
                    &&& done == (res != SatResult::Unsat)
                    &&& if done {
                        new.explored(asked, target, 0, stop)
                    } else {
                        new == asked
                    }
                }
        };
    let (asked, res) = choose|asked: Explorer<'a, S>, res: SatResult|
        {
            &&& asked.stays(taken)
            &&& #[trigger] asked.answered(taken, None, res)
            &&& done == (res != SatResult::Unsat)
            &&& if done {
                new.explored(asked, target, 0, stop)
            } else {
                new == asked
            }
        };
    let size = old.enc.terms.size();
    assert(same_below(env, env, size));
    assert(shaped(taken));
    lemma_answer_grew(asked, taken, None, res);
    lemma_grew_self(old);
    assert(grew(taken, old));
    lemma_grew_trans(asked, taken, old);
    assert(shaped(asked));
    if done {
        lemma_after_grew(new, asked);
        lemma_grew_trans(new, asked, old);
        lemma_explored(new, asked, target, stop, id, env, vals, end, n);
        lemma_clean_before(new, asked, id);
    }
    explore::lemma_extends_push(old.path@, c);
    if done {
        explore::lemma_extends_trans(new.path@, asked.path@, old.path@);
    }
    if stands_for(old, env, vals) && wide::truth_of(old.enc.terms.tm(c), env) {
        assert forall|i: int| 0 <= i < taken.path@.len() implies wide::truth_of(
            taken.enc.terms.tm(#[trigger] taken.path@[i]),
            env,
        ) by {
            if i < old.path@.len() {
                assert(taken.path@[i] == old.path@[i]);
            }
        }
        assert(stands_for(taken, env, vals));
        assert(stands_for(asked, env, vals));
        lemma_found_satisfiable(asked, taken, None, res, env);
    }
}

/// An arm of a fork keeps what was there.
proof fn lemma_arm_grew<'a, S: Solver>(
    new: Explorer<'a, S>,
    old: Explorer<'a, S>,
    c: Term,
    target: BlockId,
    stop: Option<BlockId>,
    done: bool,
)
    requires
        old.ok(),
        new.stays(old),
        new.arm_explored(old, false, c, target, stop, done),
    ensures
        grew(new, old),
{
    let taken = choose|taken: Explorer<'a, S>|
        {
            &&& taken.stays(old)
            &&& #[trigger] taken.side_taken(old, false, c)
            &&& exists|asked: Explorer<'a, S>, res: SatResult|
                {
                    &&& asked.stays(taken)
                    &&& #[trigger] asked.answered(taken, None, res)
                    &&& done == (res != SatResult::Unsat)
                    &&& if done {
                        new.explored(asked, target, 0, stop)
                    } else {
                        new == asked
                    }
                }
        };
    let (asked, res) = choose|asked: Explorer<'a, S>, res: SatResult|
        {
            &&& asked.stays(taken)
            &&& #[trigger] asked.answered(taken, None, res)
            &&& done == (res != SatResult::Unsat)
            &&& if done {
                new.explored(asked, target, 0, stop)
            } else {
                new == asked
            }
        };
    lemma_answer_grew(asked, taken, None, res);
    lemma_grew_self(old);
    assert(grew(taken, old));
    lemma_grew_trans(asked, taken, old);
    if done {
        lemma_after_grew(new, asked);
        lemma_grew_trans(new, asked, old);
    }
}

/// A branch whose arms do not meet again.
#[verifier::rlimit(80)]
#[verifier::spinoff_prover]
proof fn lemma_forked<'a, S: Solver>(
    new: Explorer<'a, S>,
    base: Explorer<'a, S>,
    nonzero: Term,
    zero: Term,
    then_: BlockId,
    else_: BlockId,
    stop: Option<BlockId>,
    id: ObligationId,
    env: spec_fn(nat) -> i64,
    vals: Mem,
    end: Mem,
    n: nat,
)
    requires
        shaped(base),
        new.stays(base),
        new.forked(base, false, nonzero, zero, then_, else_, stop),
        then_.0 < base.enc.body.blocks@.len(),
        else_.0 < base.enc.body.blocks@.len(),
        clean(new, id),
        base.enc.terms.has(nonzero),
        base.enc.terms.has(zero),
        base.enc.terms.tm(nonzero) == term::tm_not(base.enc.terms.tm(zero)),
        wide::store_holds(base.enc.terms, env),
        heads_for(*base.enc.body, stop, then_),
        heads_for(*base.enc.body, stop, else_),
        base.depth <= base.max_depth + 1,
    ensures
        shaped(new),
        grew(new, base),
        holdable(new.enc.terms, env, base.enc.terms.size()),
        stands_for(base, env, vals) ==> {
            let to = if wide::truth_of(base.enc.terms.tm(nonzero), env) {
                then_
            } else {
                else_
            };
            &&& !fails(*base.enc.body, to, vals, stop, id, n)
            &&& stop is Some && arrives(*base.enc.body, to, vals, stop->0, end, n) ==> reached_by(
                new,
                env,
                base.enc.terms.size(),
                end,
            )
        },
    decreases base.max_depth + 2 - base.depth, 15int,
{
    let start = base.fork_counted();
    let body = *base.enc.body;
    let nv = body.vars@.len();
    let size = base.enc.terms.size();
    let (first, then_done, between, second, else_done) = choose|
        first: Explorer<'a, S>,
        then_done: bool,
        between: Explorer<'a, S>,
        second: Explorer<'a, S>,
        else_done: bool,
    |
        {
            &&& #[trigger] first.stays_with(start, then_done)
            &&& first.arm_explored(start, false, nonzero, then_, stop, then_done)
            &&& between.stays(start)
            &&& #[trigger] between.rewound(first, start)
            &&& #[trigger] second.stays_with(between, else_done)
            &&& if between.has_budget() {
                second.arm_explored(between, false, zero, else_, stop, else_done)
            } else {
                second == between && !else_done
            }
            &&& new.fork_joined(second, first, start, nonzero, then_done, else_done)
        };
    let (a, b, back, merged) = choose|a: State, b: State, back: Explorer<'a, S>, merged: Explorer<'a, S>|
        {
            &&& #[trigger] a.alike(first.enc.st)
            &&& #[trigger] b.alike(second.enc.st)
            &&& #[trigger] back.back_at(second, start)
            &&& if then_done || else_done {
                exists|collected: Explorer<'a, S>|
                    {
                        &&& #[trigger] collected.inputs_taken(back, a, b, then_done, else_done)
                        &&& merged.states_merged(collected, nonzero, a, b)
                    }
            } else {
                merged == back
            }
            &&& #[trigger] new.returns_set(
                merged,
                nonzero,
                then_done,
                else_done,
                first,
                second,
                start,
            )
        };
    assert(start.ok());
    assert(shaped(start));
    lemma_grew_self(base);
    assert(grew(start, base));
    lemma_arm_grew(first, start, nonzero, then_, stop, then_done);
    lemma_grew_self(first);
    assert(grew(between, first));
    if between.has_budget() {
        lemma_arm_grew(second, between, zero, else_, stop, else_done);
    } else {
        lemma_grew_self(between);
    }
    lemma_grew_self(second);
    assert(merged.enc.terms.built_from(second.enc.terms)) by {
        if !(then_done || else_done) {
            assert(merged.enc.terms == second.enc.terms);
            second.lemma_after_refl();
        }
    }
    let t1 = first.enc.terms;
    let t2 = second.enc.terms;
    let t3 = new.enc.terms;
    lemma_built_trans(t3, merged.enc.terms, t2);
    t3.lemma_built_grows(t2);
    assert(new.found == second.found && new.effort == second.effort && new.log() == second.log());
    assert(grew(new, second));
    lemma_clean_before(new, second, id);
    lemma_clean_before(second, between, id);
    lemma_clean_before(between, first, id);
    assert(between.has_budget());
    lemma_arm(first, start, nonzero, then_, stop, then_done, id, env, vals, end, n);
    assert(between.path@ =~= start.path@) by {
        assert forall|i: int| 0 <= i < start.path@.len() implies first.path@[i] == start.path@[i] by {
            assert(first.path@.take(start.path@.len() as int)[i] == start.path@[i]);
        }
    }
    lemma_alike_shape(between.enc.terms, between.enc.st, start.enc.st, nv as int, *start.enc.body, *start.enc.prog);
    assert(shaped(between));
    let e1 = choose|more: spec_fn(nat) -> i64| #[trigger]
        same_below(more, env, size) && wide::store_holds(t1, more);
    lemma_arm(second, between, zero, else_, stop, else_done, id, e1, vals, end, n);
    let e2 = choose|more: spec_fn(nat) -> i64| #[trigger]
        same_below(more, e1, t1.size()) && wide::store_holds(t2, more);
    lemma_same_below_trans(e2, e1, env, t1.size(), size);
    lemma_store_built(t3, t2, e2);
    lemma_grew_trans(first, start, base);
    lemma_grew_trans(between, first, base);
    lemma_grew_trans(second, between, base);
    lemma_grew_trans(new, second, base);
    assert(back.path@ =~= start.path@) by {
        assert forall|i: int| 0 <= i < start.path@.len() implies second.path@[i] == start.path@[i] by {
            assert(second.path@.take(between.path@.len() as int)[i] == between.path@[i]);
        }
    }
    // The joined state.
    a.lemma_alike_fits(first.enc.st, nv, t1);
    b.lemma_alike_fits(second.enc.st, nv, t2);
    lemma_alike_shape(t1, a, first.enc.st, nv as int, *start.enc.body, *start.enc.prog);
    lemma_alike_shape(t2, b, second.enc.st, nv as int, *start.enc.body, *start.enc.prog);
    lemma_alike_shape(back.enc.terms, back.enc.st, start.enc.st, nv as int, *start.enc.body, *start.enc.prog);
    start.enc.st.lemma_fits(nv, start.enc.terms);
    a.lemma_fits(nv, t1);
    b.lemma_fits(nv, t2);
    assert(t2.tm(nonzero) == base.enc.terms.tm(nonzero));
    if then_done || else_done {
        let collected = choose|collected: Explorer<'a, S>|
            {
                &&& #[trigger] collected.inputs_taken(back, a, b, then_done, else_done)
                &&& merged.states_merged(collected, nonzero, a, b)
            };
        assert(shaped_state(merged.enc.terms, collected.enc.st, nv as int, *start.enc.body, *start.enc.prog));
        lemma_joined_shape(
            merged.enc.terms,
            t2.tm(nonzero),
            collected.enc.st,
            a,
            b,
            merged.enc.st,
            nv,
            *start.enc.body,
            *start.enc.prog,
        );
    }
    assert(shaped(new));
    if stands_for(base, env, vals) {
        reveal_with_fuel(wide::truth_of, 2);
        assert(stands_for(start, env, vals));
        let nz = wide::truth_of(base.enc.terms.tm(nonzero), env);
        if !nz {
            lemma_rewound_stands(between, first, start, env, e1, vals);
            lemma_same_term(base.enc.terms, zero, e1, env);
        }
        let to = if nz {
            then_
        } else {
            else_
        };
        if stop is Some && arrives(body, to, vals, stop->0, end, n) {
            assert(then_done || else_done);
            let collected = choose|collected: Explorer<'a, S>|
                {
                    &&& #[trigger] collected.inputs_taken(back, a, b, then_done, else_done)
                    &&& merged.states_merged(collected, nonzero, a, b)
                };
            let e4 = if nz {
                let x = choose|more: spec_fn(nat) -> i64| #[trigger]
                    same_below(more, env, size) && stands_for(first, more, end);
                lemma_arm(second, between, zero, else_, stop, else_done, id, x, vals, end, n);
                let y = choose|more: spec_fn(nat) -> i64| #[trigger]
                    same_below(more, x, t1.size()) && wide::store_holds(t2, more);
                lemma_same_below_trans(y, x, env, t1.size(), size);
                lemma_terms_trans(t3, t2, t1);
                assert(vars_are(t1, a, end, x)) by {
                    assert(same_below(x, x, t1.size()));
                    lemma_fields_later(t1, a, t1, first.enc.st, nv, end, x, x);
                    assert forall|i: int| 0 <= i < end.vars.len() implies (
                    #[trigger] a.vars@[i] matches Some(t) && wide::value_of(t1.tm(t), x) == end.vars[i]) by {
                        assert(first.enc.st.vars@[i] is Some);
                    }
                }
                lemma_vars_later(t3, t1, a, nv, end, x, y);
                y
            } else {
                let y = choose|more: spec_fn(nat) -> i64| #[trigger]
                    same_below(more, e1, t1.size()) && stands_for(second, more, end);
                lemma_same_below_trans(y, e1, env, t1.size(), size);
                assert(vars_are(t2, b, end, y)) by {
                    assert(same_below(y, y, t2.size()));
                    lemma_fields_later(t2, b, t2, second.enc.st, nv, end, y, y);
                    assert forall|i: int| 0 <= i < end.vars.len() implies (
                    #[trigger] b.vars@[i] matches Some(t) && wide::value_of(t2.tm(t), y) == end.vars[i]) by {
                        assert(second.enc.st.vars@[i] is Some);
                    }
                }
                assert(same_below(y, y, t2.size()));
                lemma_vars_later(t3, t2, b, nv, end, y, y);
                y
            };
            lemma_store_built(t3, t2, e4);
            lemma_same_term(base.enc.terms, nonzero, e4, env);
            lemma_joined_grown(
                t3,
                merged.enc.terms,
                t2.tm(nonzero),
                collected.enc.st,
                a,
                b,
                merged.enc.st,
                nv,
                t2,
                e4,
                end,
                *start.enc.body,
                *start.enc.prog,
            );
            assert(new.path@ == start.path@);
            assert forall|i: int| 0 <= i < new.path@.len() implies wide::truth_of(
                t3.tm(#[trigger] new.path@[i]),
                e4,
            ) by {
                let ts = base.enc.terms;
                assert(ts.has(start.path@[i]));
                assert(wide::truth_of(ts.tm(base.path@[i]), env));
                lemma_same_term(ts, start.path@[i], e4, env);
                assert(t2.tm(start.path@[i]) == ts.tm(start.path@[i]));
                assert(t2.has(start.path@[i]));
            }
            assert(stands_for(new, e4, end));
        }
    }
}

/// As [`lemma_joined_vars`], in a store with more terms.
#[verifier::spinoff_prover]
proof fn lemma_joined_grown(
    new: Terms,
    ts: Terms,
    cond: Tm,
    base: State,
    a: State,
    b: State,
    r: State,
    n: nat,
    old: Terms,
    env: spec_fn(nat) -> i64,
    vals: Mem,
    body: Body,
    prog: Program,
)
    requires
        merge::branch_joined(ts, cond, base, a, b, r),
        base.vars@.len() == n,
        a.vars@.len() == n,
        b.vars@.len() == n,
        vals.vars.len() == n,
        resting(ts, base, body, prog),
        shaped_state(ts, a, n as int, body, prog),
        shaped_state(ts, b, n as int, body, prog),
        new.built_from(ts),
        ts.built_from(old),
        state::vars_in(old, a.vars@),
        state::vars_in(old, b.vars@),
        state::assoc_in(old, a.statics),
        state::assoc_in(old, b.statics),
        state::assoc_in(old, a.field_arrays),
        state::assoc_in(old, b.field_arrays),
        vars_are(
            new,
            if wide::truth_of(cond, env) {
                a
            } else {
                b
            },
            vals,
            env,
        ),
    ensures
        vars_are(new, r, vals, env),
{
    reveal_with_fuel(wide::value_of, 2);
    reveal_with_fuel(wide::truth_of, 2);
    assert(fields_are(new, r, vals, env)) by {
        lemma_map_grown(new, ts, cond, base.statics, a.statics, b.statics, r.statics, old);
        lemma_map_grown(
            new,
            ts,
            cond,
            base.field_arrays,
            a.field_arrays,
            b.field_arrays,
            r.field_arrays,
            old,
        );
        lemma_fields_joined(new, cond, base, a, b, r, env, vals, body, prog);
    }
    assert forall|i: int| 0 <= i < vals.vars.len() implies (#[trigger] r.vars@[i] matches Some(t)
        && wide::value_of(new.tm(t), env) == vals.vars[i]) by {
        assert(a.vars@[i] is Some && b.vars@[i] is Some);
        assert(old.has_opt(a.vars@[i]) && old.has_opt(b.vars@[i]));
        let (x, y) = (a.vars@[i]->0, b.vars@[i]->0);
        assert(ts.has(x) && ts.has(y));
        assert(merge::joins(
            ts,
            cond,
            merge::or_else(a.vars@[i], base.vars@[i]),
            merge::or_else(b.vars@[i], base.vars@[i]),
            r.vars@[i],
        ));
        let t = r.vars@[i]->0;
        assert(ts.has(t));
        assert(new.tm(t) == ts.tm(t));
        assert(new.tm(x) == ts.tm(x) && new.tm(y) == ts.tm(y));
    }
}

/// A join of maps is one in a store with more terms.
proof fn lemma_map_grown(
    new: Terms,
    ts: Terms,
    cond: Tm,
    base: Assoc<FieldKey, Term>,
    a: Assoc<FieldKey, Term>,
    b: Assoc<FieldKey, Term>,
    r: Assoc<FieldKey, Term>,
    old: Terms,
)
    requires
        new.built_from(ts),
        ts.built_from(old),
        state::assoc_in(old, a),
        state::assoc_in(old, b),
        merge::map_joins(ts, cond, base, a, b, r),
    ensures
        merge::map_joins(new, cond, base, a, b, r),
{
    assert forall|k: FieldKeyV|
        #![trigger r.at(k)]
        if a.at(k) is None && b.at(k) is None {
            r.at(k) == base.at(k)
        } else {
            merge::joins(new, cond, a.at(k), b.at(k), r.at(k))
        } by {
        assert(old.has_opt(a.at(k)) && old.has_opt(b.at(k)));
        if let (Some(x), Some(y)) = (a.at(k), b.at(k)) {
            assert(ts.has(x) && ts.has(y));
            assert(new.tm(x) == ts.tm(x) && new.tm(y) == ts.tm(y));
        }
    }
}

proof fn lemma_built_trans(a: Terms, b: Terms, c: Terms)
    requires
        a.built_from(b),
        b.built_from(c),
    ensures
        a.built_from(c),
{
    assert forall|t: Term| c.has(t) implies #[trigger] a.tm(t) == c.tm(t) by {
        assert(b.has(t));
        assert(b.tm(t) == c.tm(t));
    }
}

/// A run that does not take the first arm of a fork is stood for after it as before.
#[verifier::spinoff_prover]
proof fn lemma_rewound_stands<'a, S: Solver>(
    between: Explorer<'a, S>,
    first: Explorer<'a, S>,
    start: Explorer<'a, S>,
    env: spec_fn(nat) -> i64,
    more: spec_fn(nat) -> i64,
    vals: Mem,
)
    requires
        start.ok(),
        stands_for(start, env, vals),
        grew(first, start),
        between.rewound(first, start),
        between.enc.body == start.enc.body,
        between.path@ == start.path@,
        same_below(more, env, start.enc.terms.size()),
        wide::store_holds(first.enc.terms, more),
    ensures
        stands_for(between, more, vals),
{
    let ts = start.enc.terms;
    lemma_vars_later(
        first.enc.terms,
        ts,
        start.enc.st,
        start.enc.body.vars@.len(),
        vals,
        env,
        more,
    );
    lemma_fields_later(
        between.enc.terms,
        between.enc.st,
        ts,
        start.enc.st,
        start.enc.body.vars@.len(),
        vals,
        env,
        more,
    );
    assert forall|i: int| 0 <= i < vals.vars.len() implies (#[trigger] between.enc.st.vars@[i] matches Some(t)
        && wide::value_of(between.enc.terms.tm(t), more) == vals.vars[i]) by {
        assert(start.enc.st.vars@[i] is Some);
    }
    assert forall|i: int| 0 <= i < between.path@.len() implies wide::truth_of(
        between.enc.terms.tm(#[trigger] between.path@[i]),
        more,
    ) by {
        assert(ts.has(start.path@[i]));
        assert(wide::truth_of(ts.tm(start.path@[i]), env));
        lemma_same_term(ts, start.path@[i], more, env);
    }
}

/// How many cases a terminator has.
spec fn case_count(t: Terminator) -> int {
    match t {
        Terminator::Switch { cases, .. } => cases@.len() as int,
        _ => 0,
    }
}

/// The first of the first `n` cases that has the value; `n` if none has.
proof fn lemma_case_index(cases: Seq<(i32, BlockId)>, x: Value, n: nat) -> (k: int)
    requires
        n <= cases.len(),
    ensures
        0 <= k <= n,
        forall|j: int| 0 <= j < k ==> Value::I32((#[trigger] cases[j]).0) != x,
        k < n ==> Value::I32(cases[k].0) == x && wide::case_taken(cases, x, n) == Some(cases[k].1),
        k == n ==> wide::case_taken(cases, x, n) is None,
    decreases n,
{
    if n == 0 {
        0
    } else {
        let k = lemma_case_index(cases, x, (n - 1) as nat);
        if k < n - 1 || Value::I32(cases[n - 1].0) == x {
            k
        } else {
            n as int
        }
    }
}

/// The target of the `k`th arm of a switch; the last one is the default.
spec fn arm_target(cases: Seq<(i32, BlockId)>, default: BlockId, k: int) -> BlockId {
    if k < cases.len() {
        cases[k].1
    } else {
        default
    }
}

proof fn lemma_case_grew<'a, S: Solver>(
    new: Explorer<'a, S>,
    mid: Explorer<'a, S>,
    base: Explorer<'a, S>,
    taken: Explorer<'a, S>,
    done: Explorer<'a, S>,
    c: Term,
    target: BlockId,
    stop: Option<BlockId>,
    count: bool,
)
    requires
        mid.ok(),
        taken.case_taken(mid, false, c, count),
        done.stays(taken),
        done.explored(taken, target, 0, stop),
        new.case_left(done, mid, base, !count),
    ensures
        grew(done, mid),
        grew(new, mid),
{
    lemma_grew_self(mid);
    assert(grew(taken, mid));
    lemma_after_grew(done, taken);
    lemma_grew_trans(done, taken, mid);
}

/// One case of a switch.
#[verifier::spinoff_prover]
proof fn lemma_case<'a, S: Solver>(
    new: Explorer<'a, S>,
    mid: Explorer<'a, S>,
    base: Explorer<'a, S>,
    taken: Explorer<'a, S>,
    done: Explorer<'a, S>,
    c: Term,
    target: BlockId,
    stop: Option<BlockId>,
    count: bool,
    r: State,
    id: ObligationId,
    env: spec_fn(nat) -> i64,
    vals: Mem,
    end: Mem,
    n: nat,
)
    requires
        shaped(mid),
        new.stays(mid),
        taken.stays(mid),
        taken.case_taken(mid, false, c, count),
        done.stays(taken),
        done.explored(taken, target, 0, stop),
        r.alike(done.enc.st),
        new.case_left(done, mid, base, !count),
        target.0 < mid.enc.body.blocks@.len(),
        clean(new, id),
        mid.enc.terms.has(c),
        wide::store_holds(mid.enc.terms, env),
        heads_for(*mid.enc.body, stop, target),
        mid.depth <= mid.max_depth + 1,
    ensures
        shaped(new),
        new.enc.st.alike(mid.enc.st),
        new.path@ == mid.path@,
        r.fits(mid.enc.body.vars@.len(), new.enc.terms),
        shaped_state(new.enc.terms, r, mid.enc.body.vars@.len() as int, *mid.enc.body, *mid.enc.prog),
        holdable(new.enc.terms, env, mid.enc.terms.size()),
        stands_for(mid, env, vals) && wide::truth_of(mid.enc.terms.tm(c), env) ==> {
            &&& !fails(*mid.enc.body, target, vals, stop, id, n)
            &&& stop is Some && arrives(*mid.enc.body, target, vals, stop->0, end, n) ==> ends_with(
                *mid.enc.body,
                *mid.enc.prog,
                new.enc.terms,
                r,
                env,
                mid.enc.terms.size(),
                end,
            )
        },
    decreases mid.max_depth + 2 - mid.depth, 11int,
{
    let nv = mid.enc.body.vars@.len();
    assert(shaped(taken));
    assert(clean(done, id));
    lemma_explored(done, taken, target, stop, id, env, vals, end, n);
    r.lemma_alike_fits(done.enc.st, nv, done.enc.terms);
    lemma_alike_shape(done.enc.terms, r, done.enc.st, nv as int, *done.enc.body, *done.enc.prog);
    lemma_alike_shape(new.enc.terms, new.enc.st, mid.enc.st, nv as int, *mid.enc.body, *mid.enc.prog);
    assert(new.path@ =~= mid.path@) by {
        assert(done.path@.take(taken.path@.len() as int) == taken.path@);
        assert forall|i: int| 0 <= i < mid.path@.len() implies done.path@[i] == mid.path@[i] by {
            assert(done.path@.take(taken.path@.len() as int)[i] == taken.path@[i]);
        }
    }
    if stands_for(mid, env, vals) && wide::truth_of(mid.enc.terms.tm(c), env) {
        assert forall|i: int| 0 <= i < taken.path@.len() implies wide::truth_of(
            taken.enc.terms.tm(#[trigger] taken.path@[i]),
            env,
        ) by {
            if i < mid.path@.len() {
                assert(taken.path@[i] == mid.path@[i]);
            }
        }
        assert(stands_for(taken, env, vals));
        if stop is Some && arrives(*mid.enc.body, target, vals, stop->0, end, n) {
            let more = choose|more: spec_fn(nat) -> i64| #[trigger]
                same_below(more, env, mid.enc.terms.size()) && stands_for(done, more, end);
            assert(same_below(more, more, done.enc.terms.size()));
            lemma_fields_later(
                done.enc.terms,
                r,
                done.enc.terms,
                done.enc.st,
                nv,
                end,
                more,
                more,
            );
            assert(vars_are(new.enc.terms, r, end, more));
        }
    }
}

/// The arms have states that exist.
spec fn arms_fit(ts: Terms, arms: runs::Arms, nv: nat, body: Body, prog: Program) -> bool {
    forall|x: int|
        0 <= x < arms.states@.len() ==> (#[trigger] arms.states@[x]).fits(nv, ts) && shaped_state(
            ts,
            arms.states@[x],
            nv as int,
            body,
            prog,
        )
}

/// The cases of a switch, one after the other.
#[verifier::rlimit(40)]
#[verifier::spinoff_prover]
proof fn lemma_cases<'a, S: Solver>(
    cased: Explorer<'a, S>,
    start: Explorer<'a, S>,
    conds: Seq<Term>,
    cases: Seq<(i32, BlockId)>,
    stop: Option<BlockId>,
    count: bool,
    i: nat,
    arms: runs::Arms,
    id: ObligationId,
    env: spec_fn(nat) -> i64,
    vals: Mem,
    end: Mem,
    n: nat,
    k: int,
)
    requires
        shaped(start),
        cased.stays(start),
        cased.cases_explored(start, false, conds, cases, stop, count, i, arms),
        i <= cases.len(),
        conds.len() == cases.len(),
        explore::terms_in(start.enc.terms, conds),
        forall|x: int|
            0 <= x < cases.len() ==> (#[trigger] cases[x]).1.0 < start.enc.body.blocks@.len()
                && heads_for(*start.enc.body, stop, cases[x].1),
        clean(cased, id),
        wide::store_holds(start.enc.terms, env),
        start.depth <= start.max_depth + 1,
    ensures
        grew(cased, start),
        shaped(cased),
        cased.enc.st.alike(start.enc.st),
        cased.path@ == start.path@,
        arms.conds@ == conds.take(i as int),
        arms.states@.len() == i,
        arms_fit(cased.enc.terms, arms, start.enc.body.vars@.len(), *start.enc.body, *start.enc.prog),
        holdable(cased.enc.terms, env, start.enc.terms.size()),
        stands_for(start, env, vals) && 0 <= k < i && wide::truth_of(
            start.enc.terms.tm(conds[k]),
            env,
        ) ==> {
            &&& !fails(*start.enc.body, cases[k].1, vals, stop, id, n)
            &&& stop is Some && arrives(*start.enc.body, cases[k].1, vals, stop->0, end, n)
                ==> ends_with(
                *start.enc.body,
                *start.enc.prog,
                cased.enc.terms,
                arms.states@[k],
                env,
                start.enc.terms.size(),
                end,
            )
        },
    decreases start.max_depth + 2 - start.depth, 20 + i,
{
    let nv = start.enc.body.vars@.len();
    let size = start.enc.terms.size();
    if i == 0 {
        lemma_grew_self(start);
        assert(same_below(env, env, size));
        assert(holdable(cased.enc.terms, env, size));
        assert(conds.take(0) =~= Seq::empty());
        assert(cased.enc.st.alike(start.enc.st));
    } else {
        let l = (i - 1) as nat;
        let (mid, had, taken, done, r) = choose|
            mid: Explorer<'a, S>,
            had: runs::Arms,
            taken: Explorer<'a, S>,
            done: Explorer<'a, S>,
            r: State,
        |
            {
                &&& #[trigger] mid.stays_having(start, had)
                &&& mid.cases_explored(start, false, conds, cases, stop, count, l, had)
                &&& mid.has_budget()
                &&& taken.stays(start)
                &&& #[trigger] taken.case_taken(mid, false, conds[i - 1], count)
                &&& #[trigger] done.stays(taken)
                &&& done.explored(taken, cases[i - 1].1, 0, stop)
                &&& #[trigger] r.alike(done.enc.st)
                &&& arms.grew(had, conds[i - 1], r, done.ret, done.ret_tainted)
                &&& cased.case_left(done, mid, start, !count)
            };
        let c = conds[i - 1];
        let target = cases[i - 1].1;
        lemma_case_grew(cased, mid, start, taken, done, c, target, stop, count);
        lemma_clean_before(cased, mid, id);
        lemma_cases(mid, start, conds, cases, stop, count, l, had, id, env, vals, end, n, k);
        assert(start.enc.terms.has(c));
        let e1 = choose|more: spec_fn(nat) -> i64| #[trigger]
            same_below(more, env, size) && wide::store_holds(mid.enc.terms, more);
        lemma_case(cased, mid, start, taken, done, c, target, stop, count, r, id, e1, vals, end, n);
        lemma_grew_trans(cased, mid, start);
        let e2 = choose|more: spec_fn(nat) -> i64| #[trigger]
            same_below(more, e1, mid.enc.terms.size()) && wide::store_holds(
                cased.enc.terms,
                more,
            );
        lemma_same_below_trans(e2, e1, env, mid.enc.terms.size(), size);
        assert(holdable(cased.enc.terms, env, size));
        assert(conds.take(i as int) =~= conds.take(l as int).push(c));
        assert forall|x: int| 0 <= x < arms.states@.len() implies (#[trigger] arms.states@[x]).fits(
            nv,
            cased.enc.terms,
        ) && shaped_state(cased.enc.terms, arms.states@[x], nv as int, *start.enc.body, *start.enc.prog) by {
            if x < l {
                assert(arms.states@[x] == had.states@[x]);
                assert(had.states@[x].fits(nv, mid.enc.terms));
                had.states@[x].lemma_fits_grown(nv, mid.enc.terms, cased.enc.terms);
            }
        }
        if stands_for(start, env, vals) && 0 <= k < i && wide::truth_of(
            start.enc.terms.tm(conds[k]),
            env,
        ) {
            if k < l {
                assert(arms.states@[k] == had.states@[k]);
                if stop is Some && arrives(*start.enc.body, cases[k].1, vals, stop->0, end, n) {
                    let a = had.states@[k];
                    let f1 = choose|more: spec_fn(nat) -> i64| #[trigger]
                        same_below(more, env, size) && wide::store_holds(mid.enc.terms, more)
                            && vars_are(mid.enc.terms, a, end, more);
                    lemma_case(
                        cased,
                        mid,
                        start,
                        taken,
                        done,
                        c,
                        target,
                        stop,
                        count,
                        r,
                        id,
                        f1,
                        vals,
                        end,
                        n,
                    );
                    let f2 = choose|more: spec_fn(nat) -> i64| #[trigger]
                        same_below(more, f1, mid.enc.terms.size()) && wide::store_holds(
                            cased.enc.terms,
                            more,
                        );
                    lemma_same_below_trans(f2, f1, env, mid.enc.terms.size(), size);
                    assert(a.fits(nv, mid.enc.terms));
                    lemma_vars_later(cased.enc.terms, mid.enc.terms, a, nv, end, f1, f2);
                }
            } else {
                lemma_first_skipped(mid, start, env, e1, vals);
                lemma_same_term(start.enc.terms, c, e1, env);
                if stop is Some && arrives(*start.enc.body, target, vals, stop->0, end, n) {
                    let f = choose|more: spec_fn(nat) -> i64| #[trigger]
                        same_below(more, e1, mid.enc.terms.size()) && wide::store_holds(
                            cased.enc.terms,
                            more,
                        ) && vars_are(cased.enc.terms, r, end, more);
                    lemma_same_below_trans(f, e1, env, mid.enc.terms.size(), size);
                    assert(arms.states@[k] == r);
                }
            }
        }
    }
}

/// The default of a switch.
#[verifier::spinoff_prover]
proof fn lemma_default<'a, S: Solver>(
    back: Explorer<'a, S>,
    cased: Explorer<'a, S>,
    taken: Explorer<'a, S>,
    done: Explorer<'a, S>,
    conds: Seq<Term>,
    target: BlockId,
    stop: Option<BlockId>,
    r: State,
    id: ObligationId,
    env: spec_fn(nat) -> i64,
    vals: Mem,
    end: Mem,
    n: nat,
)
    requires
        shaped(cased),
        taken.stays(cased),
        taken.default_taken(cased, false, conds),
        done.stays(taken),
        done.explored(taken, target, 0, stop),
        r.alike(done.enc.st),
        back.back_at(done, cased),
        target.0 < cased.enc.body.blocks@.len(),
        clean(done, id),
        explore::terms_in(cased.enc.terms, conds),
        wide::store_holds(cased.enc.terms, env),
        heads_for(*cased.enc.body, stop, target),
        cased.depth <= cased.max_depth + 1,
    ensures
        grew(done, cased),
        grew(back, cased),
        back.enc.terms.well_formed(),
        back.enc.st.alike(cased.enc.st),
        back.path@ == cased.path@,
        r.fits(cased.enc.body.vars@.len(), back.enc.terms),
        shaped_state(back.enc.terms, r, cased.enc.body.vars@.len() as int, *cased.enc.body, *cased.enc.prog),
        holdable(back.enc.terms, env, cased.enc.terms.size()),
        stands_for(cased, env, vals) && (forall|x: int|
            0 <= x < conds.len() ==> !wide::truth_of(
                cased.enc.terms.tm(#[trigger] conds[x]),
                env,
            )) ==> {
            &&& !fails(*cased.enc.body, target, vals, stop, id, n)
            &&& stop is Some && arrives(*cased.enc.body, target, vals, stop->0, end, n) ==> ends_with(
                *cased.enc.body,
                *cased.enc.prog,
                back.enc.terms,
                r,
                env,
                cased.enc.terms.size(),
                end,
            )
        },
    decreases cased.max_depth + 2 - cased.depth, 11int,
{
    let nv = cased.enc.body.vars@.len();
    let size = cased.enc.terms.size();
    taken.enc.terms.lemma_built_grows(cased.enc.terms);
    lemma_grew_self(cased);
    assert(grew(taken, cased));
    lemma_after_grew(done, taken);
    lemma_grew_trans(done, taken, cased);
    assert(shaped(taken));
    lemma_store_built(taken.enc.terms, cased.enc.terms, env);
    lemma_explored(done, taken, target, stop, id, env, vals, end, n);
    r.lemma_alike_fits(done.enc.st, nv, done.enc.terms);
    lemma_alike_shape(done.enc.terms, r, done.enc.st, nv as int, *done.enc.body, *done.enc.prog);
    lemma_from_start(done, taken.enc.terms.size(), size, env, end);
    assert(back.path@ =~= cased.path@) by {
        assert(done.path@.take(taken.path@.len() as int) == taken.path@);
        assert forall|i: int| 0 <= i < cased.path@.len() implies done.path@[i] == cased.path@[i] by {
            assert(done.path@.take(taken.path@.len() as int)[i] == taken.path@[i]);
            assert(taken.path@.take(cased.path@.len() as int)[i] == cased.path@[i]);
        }
    }
    if stands_for(cased, env, vals) && (forall|x: int|
        0 <= x < conds.len() ==> !wide::truth_of(cased.enc.terms.tm(#[trigger] conds[x]), env)) {
        let m = cased.path@.len() as int;
        lemma_vars_later(
            taken.enc.terms,
            cased.enc.terms,
            cased.enc.st,
            nv,
            vals,
            env,
            env,
        );
        assert forall|i: int| 0 <= i < taken.path@.len() implies wide::truth_of(
            taken.enc.terms.tm(#[trigger] taken.path@[i]),
            env,
        ) by {
            if i < m {
                assert(taken.path@.take(m)[i] == cased.path@[i]);
                assert(cased.enc.terms.has(cased.path@[i]));
                assert(wide::truth_of(cased.enc.terms.tm(cased.path@[i]), env));
            } else {
                let x = i - m;
                assert(taken.path@[m + x] == taken.path@[i]);
                assert(!wide::truth_of(cased.enc.terms.tm(conds[x]), env));
                reveal_with_fuel(wide::truth_of, 2);
            }
        }
        assert(stands_for(taken, env, vals));
        if stop is Some && arrives(*cased.enc.body, target, vals, stop->0, end, n) {
            let more = choose|more: spec_fn(nat) -> i64| #[trigger]
                same_below(more, env, size) && stands_for(done, more, end);
            assert(same_below(more, more, done.enc.terms.size()));
            lemma_fields_later(
                done.enc.terms,
                r,
                done.enc.terms,
                done.enc.st,
                nv,
                end,
                more,
                more,
            );
            assert(vars_are(back.enc.terms, r, end, more));
        }
    }
}

/// The state is one that the rest can be joined into.
spec fn joinable(ts: Terms, s: State, nv: nat, body: Body, prog: Program) -> bool {
    &&& s.vars@.len() == nv
    &&& s.var_widths@.len() == nv
    &&& s.tainted@.len() == nv
    &&& shaped_state(ts, s, nv as int, body, prog)
    &&& forall|x: int| 0 <= x < nv ==> ts.has((#[trigger] s.vars@[x])->0)
    &&& state::assoc_in(ts, s.statics)
    &&& state::assoc_in(ts, s.field_arrays)
}

proof fn lemma_joinable(ts: Terms, s: State, nv: nat, body: Body, prog: Program)
    requires
        s.fits(nv, ts),
        shaped_state(ts, s, nv as int, body, prog),
    ensures
        joinable(ts, s, nv, body, prog),
{
    s.lemma_fits(nv, ts);
    assert forall|x: int| 0 <= x < nv implies ts.has((#[trigger] s.vars@[x])->0) by {
        assert(s.vars@[x] is Some);
        assert(ts.has_opt(s.vars@[x]));
    }
}

/// The joined state stands for a run that went through one of the arms.
#[verifier::rlimit(40)]
#[verifier::spinoff_prover]
proof fn lemma_arms_joined(
    e: Encoder,
    old: Encoder,
    arms: runs::Arms,
    default: State,
    i: nat,
    r: State,
    nv: nat,
    env: spec_fn(nat) -> i64,
    vals: Mem,
    pick: int,
    body: Body,
    prog: Program,
)
    requires
        runs::arms_joined(e, old, arms, default, i, r),
        i <= arms.states@.len(),
        arms.conds@.len() == arms.states@.len(),
        old.terms.well_formed(),
        explore::terms_in(old.terms, arms.conds@),
        arms_fit(old.terms, arms, nv, body, prog),
        default.fits(nv, old.terms),
        shaped_state(old.terms, default, nv as int, body, prog),
    ensures
        e == (Encoder { terms: e.terms, ..old }),
        e.terms.built_from(old.terms),
        joinable(e.terms, r, nv, body, prog),
        ({
            &&& vals.vars.len() == nv
            &&& i <= pick <= arms.states@.len()
            &&& forall|x: int|
                i <= x < pick ==> !wide::truth_of(old.terms.tm(#[trigger] arms.conds@[x]), env)
            &&& pick < arms.states@.len() ==> wide::truth_of(old.terms.tm(arms.conds@[pick]), env)
            &&& vars_are(
                old.terms,
                if pick < arms.states@.len() {
                    arms.states@[pick]
                } else {
                    default
                },
                vals,
                env,
            )
        }) ==> vars_are(e.terms, r, vals, env),
    decreases arms.states@.len() - i,
{
    reveal_with_fuel(wide::value_of, 2);
    reveal_with_fuel(wide::truth_of, 2);
    if i >= arms.states@.len() {
        lemma_joinable(old.terms, default, nv, body, prog);
    } else {
        let (mid, acc) = choose|mid: Encoder, acc: State|
            {
                &&& runs::arms_joined(mid, old, arms, default, i + 1, acc)
                &&& #[trigger] runs::case_step(
                    e,
                    mid,
                    arms.conds@[i as int],
                    acc,
                    arms.states@[i as int],
                    r,
                )
            };
        lemma_arms_joined(mid, old, arms, default, i + 1, acc, nv, env, vals, pick, body, prog);
        lemma_built_trans(e.terms, mid.terms, old.terms);
        let case = arms.states@[i as int];
        let c = arms.conds@[i as int];
        assert(case.fits(nv, old.terms));
        lemma_joinable(old.terms, case, nv, body, prog);
        assert(old.terms.has(c));
        let t = mid.terms.tm(c);
        assert forall|x: int| 0 <= x < nv implies (#[trigger] r.vars@[x]) is Some && e.terms.has(
            r.vars@[x]->0,
        ) by {
            assert(acc.vars@[x] is Some && case.vars@[x] is Some);
            assert(mid.terms.has(acc.vars@[x]->0));
            assert(old.terms.has(case.vars@[x]->0));
            assert(merge::case_value(
                e.terms,
                t,
                mid.st.vars@[x],
                case.vars@[x],
                acc.vars@[x],
                r.vars@[x],
            ));
        }
        assert forall|x: int| 0 <= x < nv implies !#[trigger] r.tainted@[x] by {
            assert(!acc.tainted@[x] && !case.tainted@[x]);
        }
        assert forall|x: int| 0 <= x < nv implies ((#[trigger] r.var_widths@[x]) is None
            || r.var_widths@[x] == Some(
            state::ty_width(body.vars@[x].ty),
        )) by {
            assert(acc.var_widths@[x] is None || acc.var_widths@[x] == Some(
            state::ty_width(body.vars@[x].ty),
        ));
            assert(case.var_widths@[x] is None || case.var_widths@[x] == Some(
            state::ty_width(body.vars@[x].ty),
        ));
        }
        let chosen = if pick < arms.states@.len() {
            arms.states@[pick]
        } else {
            default
        };
        lemma_case_maps(e.terms, t, acc.statics, case.statics, r.statics, mid.terms, old.terms);
        lemma_case_maps(
            e.terms,
            t,
            acc.field_arrays,
            case.field_arrays,
            r.field_arrays,
            mid.terms,
            old.terms,
        );
        lemma_fields_shape(e.terms, t, acc, case, acc, r, body, prog);
        if vals.vars.len() == nv && i <= pick <= arms.states@.len() && (forall|x: int|
            i <= x < pick ==> !wide::truth_of(old.terms.tm(#[trigger] arms.conds@[x]), env)) && (
        pick < arms.states@.len() ==> wide::truth_of(old.terms.tm(arms.conds@[pick]), env))
            && vars_are(old.terms, chosen, vals, env) {
            assert(same_below(env, env, old.terms.size()) && same_below(env, env, mid.terms.size()));
            if pick == i {
                lemma_fields_later(e.terms, case, old.terms, case, nv, vals, env, env);
            } else {
                lemma_fields_built(e.terms, mid.terms, acc, vals, env);
            }
            lemma_fields_joined(e.terms, t, acc, case, acc, r, env, vals, body, prog);
            assert forall|x: int| 0 <= x < vals.vars.len() implies (#[trigger] r.vars@[x] matches Some(y)
                && wide::value_of(e.terms.tm(y), env) == vals.vars[x]) by {
                assert(acc.vars@[x] is Some && case.vars@[x] is Some);
                assert(mid.terms.has(acc.vars@[x]->0));
                assert(old.terms.has(case.vars@[x]->0));
                assert(e.terms.tm(acc.vars@[x]->0) == mid.terms.tm(acc.vars@[x]->0));
                assert(e.terms.tm(case.vars@[x]->0) == old.terms.tm(case.vars@[x]->0));
                assert(merge::case_value(
                    e.terms,
                    t,
                    mid.st.vars@[x],
                    case.vars@[x],
                    acc.vars@[x],
                    r.vars@[x],
                ));
                if pick == i {
                    assert(chosen.vars@[x] is Some);
                    assert(wide::truth_of(t, env));
                } else {
                    assert(!wide::truth_of(old.terms.tm(arms.conds@[i as int]), env));
                }
            }
        }
    }
}

/// The maps of one more case were joined.
proof fn lemma_case_maps(
    ts: Terms,
    cond: Tm,
    acc: Assoc<FieldKey, Term>,
    case: Assoc<FieldKey, Term>,
    r: Assoc<FieldKey, Term>,
    mid: Terms,
    old: Terms,
)
    requires
        ts.built_from(mid),
        mid.built_from(old),
        merge::map_joined_only(ts, cond, case, acc, r),
        state::assoc_in(mid, acc),
        state::assoc_in(old, case),
    ensures
        merge::map_joins(ts, cond, acc, case, acc, r),
        state::assoc_in(ts, r),
{
    assert forall|k: FieldKeyV| ts.has_opt(#[trigger] r.at(k)) by {
        assert(mid.has_opt(acc.at(k)) && old.has_opt(case.at(k)));
        assert(merge::joins(ts, cond, case.at(k), acc.at(k), r.at(k)));
    }
    assert forall|k: FieldKeyV|
        #![trigger r.at(k)]
        if case.at(k) is None && acc.at(k) is None {
            r.at(k) == acc.at(k)
        } else {
            merge::joins(ts, cond, case.at(k), acc.at(k), r.at(k))
        } by {
        assert(merge::joins(ts, cond, case.at(k), acc.at(k), r.at(k)));
    }
}

/// What fields hold does not change with later terms.
proof fn lemma_fields_built(new: Terms, old: Terms, s: State, vals: Mem, env: spec_fn(nat) -> i64)
    requires
        new.built_from(old),
        state::assoc_in(old, s.statics),
        state::assoc_in(old, s.field_arrays),
        fields_are(old, s, vals, env),
    ensures
        fields_are(new, s, vals, env),
{
    reveal(maps_are);
    assert forall|k: FieldKeyV| static_is(new, #[trigger] s.statics.at(k), k, vals, env) by {
        assert(static_is(old, s.statics.at(k), k, vals, env));
        assert(old.has_opt(s.statics.at(k)));
    }
    assert forall|k: FieldKeyV| field_is(new, #[trigger] s.field_arrays.at(k), k, vals, env) by {
        assert(field_is(old, s.field_arrays.at(k), k, vals, env));
        assert(old.has_opt(s.field_arrays.at(k)));
    }
}

/// What the arms return was joined: only terms were built.
proof fn lemma_returns_folded(
    e: Encoder,
    old: Encoder,
    arms: runs::Arms,
    default: Option<Term>,
    i: nat,
    r: Option<Term>,
)
    requires
        runs::returns_folded(e, old, arms, default, i, r),
        old.terms.well_formed(),
    ensures
        e == (Encoder { terms: e.terms, ..old }),
        e.terms.built_from(old.terms),
    decreases arms.rets@.len() - i,
{
    if i < arms.rets@.len() {
        let (mid, acc) = choose|mid: Encoder, acc: Option<Term>|
            {
                &&& runs::returns_folded(mid, old, arms, default, i + 1, acc)
                &&& #[trigger] runs::return_step(
                    e,
                    mid,
                    arms.conds@[i as int],
                    arms.rets@[i as int],
                    acc,
                    r,
                )
            };
        lemma_returns_folded(mid, old, arms, default, i + 1, acc);
        lemma_built_trans(e.terms, mid.terms, old.terms);
    }
}

/// The arms of a switch were explored: the cases, and then the default.
spec fn switch_explored<'a, S: Solver>(
    cased: Explorer<'a, S>,
    start: Explorer<'a, S>,
    taken: Explorer<'a, S>,
    done: Explorer<'a, S>,
    r: State,
    back: Explorer<'a, S>,
    conds: Seq<Term>,
    cases: Seq<(i32, BlockId)>,
    default: BlockId,
    stop: Option<BlockId>,
    count: bool,
    arms: runs::Arms,
) -> bool {
    &&& shaped(start)
    &&& start.depth <= start.max_depth + 1
    &&& cased.stays(start)
    &&& cased.cases_explored(start, false, conds, cases, stop, count, cases.len(), arms)
    &&& conds.len() == cases.len()
    &&& explore::terms_in(start.enc.terms, conds)
    &&& forall|x: int|
        0 <= x < cases.len() ==> (#[trigger] cases[x]).1.0 < start.enc.body.blocks@.len()
            && heads_for(*start.enc.body, stop, cases[x].1)
    &&& default.0 < start.enc.body.blocks@.len()
    &&& heads_for(*start.enc.body, stop, default)
    &&& taken.stays(start)
    &&& taken.default_taken(cased, false, conds)
    &&& done.stays(taken)
    &&& done.explored(taken, default, 0, stop)
    &&& r.alike(done.enc.st)
    &&& back.back_at(done, cased)
}

/// The `k`th arm of a switch is the one that is taken.
spec fn arm_taken<'a, S: Solver>(
    start: Explorer<'a, S>,
    conds: Seq<Term>,
    env: spec_fn(nat) -> i64,
    k: int,
) -> bool {
    &&& 0 <= k <= conds.len()
    &&& forall|x: int|
        0 <= x < k ==> !wide::truth_of(start.enc.terms.tm(#[trigger] conds[x]), env)
    &&& k < conds.len() ==> wide::truth_of(start.enc.terms.tm(conds[k]), env)
}

proof fn lemma_default_grew<'a, S: Solver>(
    cased: Explorer<'a, S>,
    taken: Explorer<'a, S>,
    done: Explorer<'a, S>,
    conds: Seq<Term>,
    target: BlockId,
    stop: Option<BlockId>,
)
    requires
        cased.ok(),
        taken.default_taken(cased, false, conds),
        done.stays(taken),
        done.explored(taken, target, 0, stop),
    ensures
        grew(done, cased),
{
    taken.enc.terms.lemma_built_grows(cased.enc.terms);
    lemma_grew_self(cased);
    assert(grew(taken, cased));
    lemma_after_grew(done, taken);
    lemma_grew_trans(done, taken, cased);
}

/// What holds after all arms of a switch.
#[verifier::rlimit(40)]
#[verifier::spinoff_prover]
proof fn lemma_switch_arms<'a, S: Solver>(
    cased: Explorer<'a, S>,
    start: Explorer<'a, S>,
    taken: Explorer<'a, S>,
    done: Explorer<'a, S>,
    r: State,
    back: Explorer<'a, S>,
    conds: Seq<Term>,
    cases: Seq<(i32, BlockId)>,
    default: BlockId,
    stop: Option<BlockId>,
    count: bool,
    arms: runs::Arms,
    id: ObligationId,
    env: spec_fn(nat) -> i64,
    vals: Mem,
    end: Mem,
    n: nat,
    k: int,
)
    requires
        switch_explored(
            cased,
            start,
            taken,
            done,
            r,
            back,
            conds,
            cases,
            default,
            stop,
            count,
            arms,
        ),
        clean(done, id),
        wide::store_holds(start.enc.terms, env),
    ensures
        grew(back, start),
        back.enc.terms.well_formed(),
        back.enc.st.alike(start.enc.st),
        back.path@ == start.path@,
        arms.conds@ == conds,
        arms.states@.len() == conds.len(),
        arms_fit(back.enc.terms, arms, start.enc.body.vars@.len(), *start.enc.body, *start.enc.prog),
        r.fits(start.enc.body.vars@.len(), back.enc.terms),
        shaped_state(back.enc.terms, r, start.enc.body.vars@.len() as int, *start.enc.body, *start.enc.prog),
        holdable(back.enc.terms, env, start.enc.terms.size()),
        stands_for(start, env, vals) && arm_taken(start, conds, env, k) ==> {
            let to = arm_target(cases, default, k);
            &&& !fails(*start.enc.body, to, vals, stop, id, n)
            &&& stop is Some && arrives(*start.enc.body, to, vals, stop->0, end, n) ==> ends_with(
                *start.enc.body,
                *start.enc.prog,
                back.enc.terms,
                if k < cases.len() {
                    arms.states@[k]
                } else {
                    r
                },
                env,
                start.enc.terms.size(),
                end,
            )
        },
    decreases start.max_depth + 2 - start.depth, 30 + cases.len(),
{
    let nv = start.enc.body.vars@.len();
    let size = start.enc.terms.size();
    let m = cases.len();
    lemma_default_grew(cased, taken, done, conds, default, stop);
    lemma_clean_before(done, cased, id);
    lemma_cases(cased, start, conds, cases, stop, count, m, arms, id, env, vals, end, n, k);
    assert(conds.take(m as int) =~= conds);
    assert forall|x: int| 0 <= x < conds.len() implies cased.enc.terms.has(#[trigger] conds[x]) by {
        assert(start.enc.terms.has(conds[x]));
    }
    let e1 = choose|more: spec_fn(nat) -> i64| #[trigger]
        same_below(more, env, size) && wide::store_holds(cased.enc.terms, more);
    lemma_default(back, cased, taken, done, conds, default, stop, r, id, e1, vals, end, n);
    lemma_grew_trans(back, cased, start);
    let e2 = choose|more: spec_fn(nat) -> i64| #[trigger]
        same_below(more, e1, cased.enc.terms.size()) && wide::store_holds(
            back.enc.terms,
            more,
        );
    lemma_same_below_trans(e2, e1, env, cased.enc.terms.size(), size);
    assert forall|x: int| 0 <= x < arms.states@.len() implies (#[trigger] arms.states@[x]).fits(
        nv,
        back.enc.terms,
    ) && shaped_state(back.enc.terms, arms.states@[x], nv as int, *start.enc.body, *start.enc.prog) by {
        assert(arms.states@[x].fits(nv, cased.enc.terms));
        arms.states@[x].lemma_fits_grown(nv, cased.enc.terms, back.enc.terms);
    }
    if stands_for(start, env, vals) && arm_taken(start, conds, env, k) {
        let to = arm_target(cases, default, k);
        if k < m {
            if stop is Some && arrives(*start.enc.body, to, vals, stop->0, end, n) {
                let a = arms.states@[k];
                let f1 = choose|more: spec_fn(nat) -> i64| #[trigger]
                    same_below(more, env, size) && wide::store_holds(cased.enc.terms, more)
                        && vars_are(cased.enc.terms, a, end, more);
                lemma_default(
                    back,
                    cased,
                    taken,
                    done,
                    conds,
                    default,
                    stop,
                    r,
                    id,
                    f1,
                    vals,
                    end,
                    n,
                );
                let f2 = choose|more: spec_fn(nat) -> i64| #[trigger]
                    same_below(more, f1, cased.enc.terms.size()) && wide::store_holds(
                        back.enc.terms,
                        more,
                    );
                lemma_same_below_trans(f2, f1, env, cased.enc.terms.size(), size);
                assert(a.fits(nv, cased.enc.terms));
                lemma_vars_later(back.enc.terms, cased.enc.terms, a, nv, end, f1, f2);
            }
        } else {
            lemma_first_skipped(cased, start, env, e1, vals);
            assert forall|x: int| 0 <= x < conds.len() implies !wide::truth_of(
                cased.enc.terms.tm(#[trigger] conds[x]),
                e1,
            ) by {
                assert(start.enc.terms.has(conds[x]));
                lemma_same_term(start.enc.terms, conds[x], e1, env);
            }
            if stop is Some && arrives(*start.enc.body, to, vals, stop->0, end, n) {
                let f = choose|more: spec_fn(nat) -> i64| #[trigger]
                    same_below(more, e1, cased.enc.terms.size()) && wide::store_holds(
                        back.enc.terms,
                        more,
                    ) && vars_are(back.enc.terms, r, end, more);
                lemma_same_below_trans(f, e1, env, cased.enc.terms.size(), size);
            }
        }
    }
}

/// The arms were joined into the state of `fin`.
#[verifier::rlimit(40)]
#[verifier::spinoff_prover]
proof fn lemma_switch_joins<'a, S: Solver>(
    fin: Explorer<'a, S>,
    from: Encoder<'a>,
    built: Encoder<'a>,
    s: State,
    cased: Explorer<'a, S>,
    start: Explorer<'a, S>,
    taken: Explorer<'a, S>,
    done: Explorer<'a, S>,
    r: State,
    back: Explorer<'a, S>,
    conds: Seq<Term>,
    cases: Seq<(i32, BlockId)>,
    default: BlockId,
    stop: Option<BlockId>,
    count: bool,
    arms: runs::Arms,
    id: ObligationId,
    env: spec_fn(nat) -> i64,
    vals: Mem,
    end: Mem,
    n: nat,
    k: int,
)
    requires
        switch_explored(
            cased,
            start,
            taken,
            done,
            r,
            back,
            conds,
            cases,
            default,
            stop,
            count,
            arms,
        ),
        clean(done, id),
        wide::store_holds(start.enc.terms, env),
        from.terms.built_from(back.enc.terms),
        runs::arms_joined(built, from, arms, r, 0, s),
        fin.stays(start),
        fin.enc.ascii_only == start.enc.ascii_only,
        fin.enc.prog == start.enc.prog,
        fin.enc.terms == built.terms,
        fin.enc.st == (State {
            nondet_terms: fin.enc.st.nondet_terms,
            loop_visits: fin.enc.st.loop_visits,
            ..s
        }),
        fin.path@ == back.path@,
    ensures
        shaped(fin),
        fin.enc.terms.grown_from(start.enc.terms),
        holdable(fin.enc.terms, env, start.enc.terms.size()),
        stands_for(start, env, vals) && arm_taken(start, conds, env, k) ==> {
            let to = arm_target(cases, default, k);
            &&& !fails(*start.enc.body, to, vals, stop, id, n)
            &&& stop is Some && arrives(*start.enc.body, to, vals, stop->0, end, n) ==> reached_by(
                fin,
                env,
                start.enc.terms.size(),
                end,
            )
        },
    decreases start.max_depth + 2 - start.depth, 32 + cases.len(),
{
    let nv = start.enc.body.vars@.len();
    let size = start.enc.terms.size();
    let ts = start.enc.terms;
    lemma_switch_arms(
        cased,
        start,
        taken,
        done,
        r,
        back,
        conds,
        cases,
        default,
        stop,
        count,
        arms,
        id,
        env,
        vals,
        end,
        n,
        k,
    );
    from.terms.lemma_built_grows(back.enc.terms);
    lemma_terms_trans(from.terms, back.enc.terms, ts);
    assert forall|x: int| 0 <= x < arms.states@.len() implies (#[trigger] arms.states@[x]).fits(
        nv,
        from.terms,
    ) && shaped_state(from.terms, arms.states@[x], nv as int, *start.enc.body, *start.enc.prog) by {
        assert(arms.states@[x].fits(nv, back.enc.terms));
        arms.states@[x].lemma_fits_grown(nv, back.enc.terms, from.terms);
    }
    r.lemma_fits_grown(nv, back.enc.terms, from.terms);
    assert forall|x: int| 0 <= x < conds.len() implies from.terms.has(#[trigger] conds[x]) by {
        assert(ts.has(conds[x]));
    }
    lemma_arms_joined(built, from, arms, r, 0, s, nv, env, vals, 0, *start.enc.body, *start.enc.prog);
    lemma_terms_trans(built.terms, from.terms, ts);
    assert(shaped_state(fin.enc.terms, fin.enc.st, nv as int, *start.enc.body, *start.enc.prog));
    assert(shaped(fin));
    let e2 = choose|more: spec_fn(nat) -> i64| #[trigger]
        same_below(more, env, size) && wide::store_holds(back.enc.terms, more);
    lemma_store_built(from.terms, back.enc.terms, e2);
    lemma_store_built(built.terms, from.terms, e2);
    assert(holdable(fin.enc.terms, env, size));
    if stands_for(start, env, vals) && arm_taken(start, conds, env, k) {
        let to = arm_target(cases, default, k);
        if stop is Some && arrives(*start.enc.body, to, vals, stop->0, end, n) {
            let a = if k < cases.len() {
                arms.states@[k]
            } else {
                r
            };
            let f = choose|more: spec_fn(nat) -> i64| #[trigger]
                same_below(more, env, size) && wide::store_holds(back.enc.terms, more)
                    && vars_are(back.enc.terms, a, end, more);
            assert(a.fits(nv, back.enc.terms));
            a.lemma_fits(nv, back.enc.terms);
            assert(end.vars.len() == nv);
            assert(same_below(f, f, back.enc.terms.size()));
            lemma_vars_later(from.terms, back.enc.terms, a, nv, end, f, f);
            assert forall|x: int| 0 <= x < conds.len() implies wide::truth_of(
                from.terms.tm(#[trigger] conds[x]),
                f,
            ) == wide::truth_of(ts.tm(conds[x]), env) by {
                assert(ts.has(conds[x]));
                lemma_same_term(ts, conds[x], f, env);
            }
            lemma_arms_joined(built, from, arms, r, 0, s, nv, f, end, k, *start.enc.body, *start.enc.prog);
            lemma_store_built(from.terms, back.enc.terms, f);
            lemma_store_built(built.terms, from.terms, f);
            assert forall|i: int| 0 <= i < fin.path@.len() implies wide::truth_of(
                fin.enc.terms.tm(#[trigger] fin.path@[i]),
                f,
            ) by {
                assert(ts.has(start.path@[i]));
                assert(wide::truth_of(ts.tm(start.path@[i]), env));
                lemma_same_term(ts, start.path@[i], f, env);
            }
            assert(stands_for(fin, f, end));
        }
    }
}

proof fn lemma_arms_built(
    e: Encoder,
    old: Encoder,
    arms: runs::Arms,
    default: State,
    i: nat,
    r: State,
)
    requires
        runs::arms_joined(e, old, arms, default, i, r),
        old.terms.well_formed(),
    ensures
        e == (Encoder { terms: e.terms, ..old }),
        e.terms.built_from(old.terms),
    decreases arms.states@.len() - i,
{
    if i < arms.states@.len() {
        let (mid, acc) = choose|mid: Encoder, acc: State|
            {
                &&& runs::arms_joined(mid, old, arms, default, i + 1, acc)
                &&& #[trigger] runs::case_step(
                    e,
                    mid,
                    arms.conds@[i as int],
                    acc,
                    arms.states@[i as int],
                    r,
                )
            };
        lemma_arms_built(mid, old, arms, default, i + 1, acc);
        lemma_built_trans(e.terms, mid.terms, old.terms);
    }
}

/// A switch whose arms meet again.
#[verifier::rlimit(60)]
#[verifier::spinoff_prover]
proof fn lemma_switch_joined<'a, S: Solver>(
    new: Explorer<'a, S>,
    start: Explorer<'a, S>,
    conds: Seq<Term>,
    cases: Seq<(i32, BlockId)>,
    default: BlockId,
    j: BlockId,
    stop: Option<BlockId>,
    id: ObligationId,
    env: spec_fn(nat) -> i64,
    vals: Mem,
    end: Mem,
    n: nat,
    k: int,
)
    requires
        shaped(start),
        new.stays(start),
        new.switch_joined(start, false, conds, cases, default, j, stop),
        conds.len() == cases.len(),
        explore::terms_in(start.enc.terms, conds),
        forall|x: int|
            0 <= x < cases.len() ==> (#[trigger] cases[x]).1.0 < start.enc.body.blocks@.len()
                && heads_for(*start.enc.body, Some(j), cases[x].1),
        default.0 < start.enc.body.blocks@.len(),
        heads_for(*start.enc.body, Some(j), default),
        j.0 < start.enc.body.blocks@.len(),
        heads_for(*start.enc.body, stop, j),
        stop matches Some(s) ==> s == j || !postdom::caught(
            postdom::graph_of(*start.enc.body),
            j.0 as int,
            s.0 as int,
        ),
        clean(new, id),
        wide::store_holds(start.enc.terms, env),
        start.depth <= start.max_depth + 1,
    ensures
        shaped(new),
        grew(new, start),
        holdable(new.enc.terms, env, start.enc.terms.size()),
        stands_for(start, env, vals) && arm_taken(start, conds, env, k) ==> {
            let to = arm_target(cases, default, k);
            &&& !fails(*start.enc.body, to, vals, stop, id, n)
            &&& stop is Some && arrives(*start.enc.body, to, vals, stop->0, end, n) ==> reached_by(
                new,
                env,
                start.enc.terms.size(),
                end,
            )
        },
    decreases start.max_depth + 2 - start.depth, 40 + cases.len(),
{
    let body = *start.enc.body;
    let size = start.enc.terms.size();
    let (cased, i, arms) = choose|cased: Explorer<'a, S>, i: nat, arms: runs::Arms|
        {
            &&& #[trigger] cased.stays_at(start, i)
            &&& #[trigger] cased.stays_having(start, arms)
            &&& cased.cases_explored(start, false, conds, cases, Some(j), false, i, arms)
            &&& i <= cases.len()
            &&& i < cases.len() ==> !cased.has_budget()
            &&& if cased.has_budget() {
                exists|
                    taken: Explorer<'a, S>,
                    done: Explorer<'a, S>,
                    r: State,
                    back: Explorer<'a, S>,
                    applied: Explorer<'a, S>,
                |
                    {
                        &&& taken.stays(start)
                        &&& #[trigger] taken.default_taken(cased, false, conds)
                        &&& #[trigger] done.stays(taken)
                        &&& done.explored(taken, default, 0, Some(j))
                        &&& #[trigger] r.alike(done.enc.st)
                        &&& #[trigger] back.back_at(done, cased)
                        &&& applied.stays(start)
                        &&& #[trigger] applied.arms_applied(back, arms, r)
                        &&& new.explored(applied, j, 0, stop)
                    }
            } else {
                new == cased
            }
        };
    assert(cased.has_budget());
    let (taken, done, r, back, applied) = choose|
        taken: Explorer<'a, S>,
        done: Explorer<'a, S>,
        r: State,
        back: Explorer<'a, S>,
        applied: Explorer<'a, S>,
    |
        {
            &&& taken.stays(start)
            &&& #[trigger] taken.default_taken(cased, false, conds)
            &&& #[trigger] done.stays(taken)
            &&& done.explored(taken, default, 0, Some(j))
            &&& #[trigger] r.alike(done.enc.st)
            &&& #[trigger] back.back_at(done, cased)
            &&& applied.stays(start)
            &&& #[trigger] applied.arms_applied(back, arms, r)
            &&& new.explored(applied, j, 0, stop)
        };
    let (collected, built, s) = choose|collected: Explorer<'a, S>, built: Encoder<'a>, s: State|
        {
            &&& #[trigger] collected.inputs_collected(back, arms.states@, r)
            &&& runs::arms_joined(built, collected.enc, arms, r, 0, s)
            &&& #[trigger] applied.merged_applied(Explorer { enc: built, ..collected }, s)
        };
    lemma_arms_built(built, collected.enc, arms, r, 0, s);
    built.terms.lemma_built_grows(done.enc.terms);
    lemma_grew_self(done);
    assert(grew(applied, done));
    lemma_after_grew(new, applied);
    lemma_clean_before(new, applied, id);
    lemma_clean_before(applied, done, id);
    assert(switch_explored(
        cased,
        start,
        taken,
        done,
        r,
        back,
        conds,
        cases,
        default,
        Some(j),
        false,
        arms,
    ));
    lemma_default_grew(cased, taken, done, conds, default, Some(j));
    lemma_cases_grew(cased, start, conds, cases, Some(j), false, cases.len(), arms);
    lemma_grew_trans(done, cased, start);
    lemma_grew_trans(applied, done, start);
    lemma_grew_trans(new, applied, start);
    lemma_switch_joins(
        applied, collected.enc, built, s, cased, start, taken, done, r, back, conds, cases, default,
        Some(j), false, arms, id, env, vals, vals, 0, k,
    );
    let e2 = choose|more: spec_fn(nat) -> i64| #[trigger]
        same_below(more, env, size) && wide::store_holds(applied.enc.terms, more);
    lemma_explored(new, applied, j, stop, id, e2, vals, vals, 0);
    let e3 = choose|more: spec_fn(nat) -> i64| #[trigger]
        same_below(more, e2, applied.enc.terms.size()) && wide::store_holds(
            new.enc.terms,
            more,
        );
    lemma_same_below_trans(e3, e2, env, applied.enc.terms.size(), size);
    if stands_for(start, env, vals) && arm_taken(start, conds, env, k) {
        let to = arm_target(cases, default, k);
        if fails(body, to, vals, stop, id, n) {
            let (mid, l) = lemma_split_failing(body, to, vals, stop, j, id, n);
            if fails(body, to, vals, Some(j), id, n) {
                lemma_switch_joins(
                    applied, collected.enc, built, s, cased, start, taken, done, r, back, conds,
                    cases, default, Some(j), false, arms, id, env, vals, vals, n, k,
                );
            } else {
                assert(arrives(body, to, vals, j, mid, l));
                lemma_switch_joins(
                    applied, collected.enc, built, s, cased, start, taken, done, r, back, conds,
                    cases, default, Some(j), false, arms, id, env, vals, mid, l, k,
                );
                let more = choose|more: spec_fn(nat) -> i64| #[trigger]
                    same_below(more, env, size) && stands_for(applied, more, mid);
                lemma_explored(new, applied, j, stop, id, more, mid, end, (n - l) as nat);
            }
        }
        if stop is Some && arrives(body, to, vals, stop->0, end, n) {
            let (mid, l) = lemma_split_arriving(body, to, vals, stop->0, j, end, n);
            assert(arrives(body, to, vals, j, mid, l));
            lemma_switch_joins(
                applied, collected.enc, built, s, cased, start, taken, done, r, back, conds, cases,
                default, Some(j), false, arms, id, env, vals, mid, l, k,
            );
            let more = choose|more: spec_fn(nat) -> i64| #[trigger]
                same_below(more, env, size) && stands_for(applied, more, mid);
            lemma_explored(new, applied, j, stop, id, more, mid, end, (n - l) as nat);
            let last = choose|last: spec_fn(nat) -> i64| #[trigger]
                same_below(last, more, applied.enc.terms.size()) && stands_for(new, last, end);
            lemma_same_below_trans(last, more, env, applied.enc.terms.size(), size);
        }
    }
}

/// The cases of a switch keep what was there.
#[verifier::spinoff_prover]
proof fn lemma_cases_grew<'a, S: Solver>(
    cased: Explorer<'a, S>,
    start: Explorer<'a, S>,
    conds: Seq<Term>,
    cases: Seq<(i32, BlockId)>,
    stop: Option<BlockId>,
    count: bool,
    i: nat,
    arms: runs::Arms,
)
    requires
        start.ok(),
        cased.cases_explored(start, false, conds, cases, stop, count, i, arms),
    ensures
        grew(cased, start),
    decreases i,
{
    if i == 0 {
        lemma_grew_self(start);
    } else {
        let l = (i - 1) as nat;
        let (mid, had, taken, done, r) = choose|
            mid: Explorer<'a, S>,
            had: runs::Arms,
            taken: Explorer<'a, S>,
            done: Explorer<'a, S>,
            r: State,
        |
            {
                &&& #[trigger] mid.stays_having(start, had)
                &&& mid.cases_explored(start, false, conds, cases, stop, count, l, had)
                &&& mid.has_budget()
                &&& taken.stays(start)
                &&& #[trigger] taken.case_taken(mid, false, conds[i - 1], count)
                &&& #[trigger] done.stays(taken)
                &&& done.explored(taken, cases[i - 1].1, 0, stop)
                &&& #[trigger] r.alike(done.enc.st)
                &&& arms.grew(had, conds[i - 1], r, done.ret, done.ret_tainted)
                &&& cased.case_left(done, mid, start, !count)
            };
        lemma_cases_grew(mid, start, conds, cases, stop, count, l, had);
        lemma_case_grew(cased, mid, start, taken, done, conds[i - 1], cases[i - 1].1, stop, count);
        lemma_grew_trans(cased, mid, start);
    }
}

/// A switch whose arms do not meet again.
#[verifier::rlimit(60)]
#[verifier::spinoff_prover]
proof fn lemma_switch_forked<'a, S: Solver>(
    new: Explorer<'a, S>,
    start: Explorer<'a, S>,
    conds: Seq<Term>,
    cases: Seq<(i32, BlockId)>,
    default: BlockId,
    stop: Option<BlockId>,
    id: ObligationId,
    env: spec_fn(nat) -> i64,
    vals: Mem,
    end: Mem,
    n: nat,
    k: int,
)
    requires
        shaped(start),
        new.stays(start),
        new.switch_forked(start, false, conds, cases, default, stop),
        conds.len() == cases.len(),
        explore::terms_in(start.enc.terms, conds),
        forall|x: int|
            0 <= x < cases.len() ==> (#[trigger] cases[x]).1.0 < start.enc.body.blocks@.len()
                && heads_for(*start.enc.body, stop, cases[x].1),
        default.0 < start.enc.body.blocks@.len(),
        heads_for(*start.enc.body, stop, default),
        clean(new, id),
        wide::store_holds(start.enc.terms, env),
        start.depth <= start.max_depth + 1,
    ensures
        shaped(new),
        grew(new, start),
        holdable(new.enc.terms, env, start.enc.terms.size()),
        stands_for(start, env, vals) && arm_taken(start, conds, env, k) ==> {
            let to = arm_target(cases, default, k);
            &&& !fails(*start.enc.body, to, vals, stop, id, n)
            &&& stop is Some && arrives(*start.enc.body, to, vals, stop->0, end, n) ==> reached_by(
                new,
                env,
                start.enc.terms.size(),
                end,
            )
        },
    decreases start.max_depth + 2 - start.depth, 40 + cases.len(),
{
    let (cased, i, arms, done, r, back) = choose|
        cased: Explorer<'a, S>,
        i: nat,
        arms: runs::Arms,
        done: Explorer<'a, S>,
        r: State,
        back: Explorer<'a, S>,
    |
        {
            &&& #[trigger] cased.stays_at(start, i)
            &&& #[trigger] cased.stays_having(start, arms)
            &&& cased.cases_explored(start, false, conds, cases, stop, true, i, arms)
            &&& i <= cases.len()
            &&& i < cases.len() ==> !cased.has_budget()
            &&& #[trigger] done.stays(cased)
            &&& if cased.has_budget() {
                exists|taken: Explorer<'a, S>|
                    {
                        &&& taken.stays(start)
                        &&& #[trigger] taken.default_taken(cased, false, conds)
                        &&& done.explored(taken, default, 0, stop)
                    }
            } else {
                done == cased
            }
            &&& #[trigger] r.alike(done.enc.st)
            &&& #[trigger] back.back_at(done, cased)
            &&& new.arms_returned(back, done, arms, r, start.ret)
        };
    let (collected, returned, ret, built, s) = choose|
        collected: Explorer<'a, S>,
        returned: Encoder<'a>,
        ret: Option<Term>,
        built: Encoder<'a>,
        s: State,
    |
        {
            &&& #[trigger] collected.inputs_collected(back, arms.states@, r)
            &&& #[trigger] runs::returns_folded(returned, collected.enc, arms, done.ret, 0, ret)
            &&& runs::arms_joined(built, returned, arms, r, 0, s)
            &&& #[trigger] (Explorer {
                ret: collected.ret,
                ret_tainted: collected.ret_tainted,
                ..new
            }).merged_applied(Explorer { enc: built, ..collected }, s)
            &&& new.ret == merge::or_else(ret, start.ret)
            &&& new.ret_tainted == (done.ret_tainted || arms.tainted)
        };
    lemma_returns_folded(returned, collected.enc, arms, done.ret, 0, ret);
    lemma_arms_built(built, returned, arms, r, 0, s);
    lemma_built_trans(built.terms, returned.terms, done.enc.terms);
    built.terms.lemma_built_grows(done.enc.terms);
    lemma_grew_self(done);
    assert(grew(new, done));
    lemma_clean_before(new, done, id);
    assert(cased.has_budget());
    let taken = choose|taken: Explorer<'a, S>|
        {
            &&& taken.stays(start)
            &&& #[trigger] taken.default_taken(cased, false, conds)
            &&& done.explored(taken, default, 0, stop)
        };
    assert(switch_explored(
        cased,
        start,
        taken,
        done,
        r,
        back,
        conds,
        cases,
        default,
        stop,
        true,
        arms,
    ));
    lemma_default_grew(cased, taken, done, conds, default, stop);
    lemma_cases_grew(cased, start, conds, cases, stop, true, cases.len(), arms);
    lemma_grew_trans(done, cased, start);
    lemma_grew_trans(new, done, start);
    lemma_switch_joins(
        new, returned, built, s, cased, start, taken, done, r, back, conds, cases, default, stop,
        true, arms, id, env, vals, end, n, k,
    );
}

/// Control that leaves a switch is still caught.
proof fn lemma_switch_heads(body: Body, block: BlockId, stop: Option<BlockId>)
    requires
        body.well_formed(),
        block.0 < body.blocks@.len(),
        body.blocks@[block.0 as int].term is Switch,
        heads_for(body, stop, block),
        stop != Some(block),
    ensures
        ({
            let t = body.blocks@[block.0 as int].term;
            let targets = runs::switch_targets(t->cases@, t->default);
            forall|x: int|
                0 <= x < targets.len() ==> (#[trigger] targets[x]).0 < body.blocks@.len() && heads_for(
                    body,
                    stop,
                    targets[x],
                )
        }),
{
    let t = body.blocks@[block.0 as int].term;
    let g = postdom::graph_of(body);
    let targets = runs::switch_targets(t->cases@, t->default);
    assert(ir::term_targets(t) =~= targets);
    assert forall|x: int| 0 <= x < targets.len() implies (#[trigger] targets[x]).0
        < body.blocks@.len() && heads_for(body, stop, targets[x]) by {
        lemma_target_edge(body, block.0 as int, x);
        if let Some(s) = stop {
            postdom::lemma_caught_step(g, s.0 as int, block.0 as int, targets[x].0 as int);
        }
    }
}

/// Where the arms of a switch meet.
proof fn lemma_switch_meeting(body: Body, arms: Seq<BlockId>, at: u32, stop: Option<BlockId>)
    requires
        body.well_formed(),
        forall|x: int|
            0 <= x < arms.len() ==> (#[trigger] arms[x]).0 < body.blocks@.len() && heads_for(
                body,
                stop,
                arms[x],
            ),
        postdom::join_point(postdom::graph_of(body), explore::block_ids(arms)) == Some(at),
    ensures
        at < body.blocks@.len(),
        forall|x: int|
            0 <= x < arms.len() ==> heads_for(body, Some(BlockId(at)), #[trigger] arms[x]),
        heads_for(body, stop, BlockId(at)),
        stop matches Some(s) ==> s.0 == at || !postdom::caught(
            postdom::graph_of(body),
            at as int,
            s.0 as int,
        ),
{
    let g = postdom::graph_of(body);
    let targets = explore::block_ids(arms);
    assert forall|i: int| 0 <= i < targets.len() implies (#[trigger] targets[i]) < g.len() by {
        assert(targets[i] == arms[i].0);
    }
    postdom::lemma_join_in_range(g, targets);
    assert forall|x: int| 0 <= x < arms.len() implies heads_for(
        body,
        Some(BlockId(at)),
        #[trigger] arms[x],
    ) by {
        assert(targets[x] == arms[x].0);
        postdom::law_join_point_is_reached(g, targets, x);
    }
    if let Some(s) = stop {
        assert forall|i: int| 0 <= i < targets.len() implies postdom::caught(
            g,
            s.0 as int,
            #[trigger] targets[i] as int,
        ) by {
            assert(targets[i] == arms[i].0);
        }
        postdom::lemma_join_comes_first(g, targets, s.0 as int);
    }
}

/// The value of a switch was read.
#[verifier::spinoff_prover]
proof fn lemma_value_read<'a, S: Solver>(
    start: Explorer<'a, S>,
    old: Explorer<'a, S>,
    value: Operand,
    cases: Seq<(i32, BlockId)>,
    conds: Seq<Term>,
    env: spec_fn(nat) -> i64,
    vals: Mem,
)
    requires
        shaped(old),
        start.cases_read(old, value, cases, conds),
        value.in_range(old.enc.body.vars@.len()),
        narrow(*old.enc.body, value),
    ensures
        grew(start, old),
        shaped(start),
        wide::store_holds(old.enc.terms, env) ==> wide::store_holds(start.enc.terms, env),
        stands_for(old, env, vals) ==> stands_for(start, env, vals),
        stands_for(old, env, vals) ==> forall|x: int|
            0 <= x < conds.len() ==> wide::truth_of(
                start.enc.terms.tm(#[trigger] conds[x]),
                env,
            ) == (wide::operand(vals, value) == Value::I32(cases[x].0)),
{
    old.enc.st.lemma_fits(old.enc.body.vars@.len(), old.enc.terms);
    lemma_settled_same(start.enc, old);
    start.enc.terms.lemma_built_grows(old.enc.terms);
    lemma_grew_self(old);
    assert(start.ok());
    if wide::store_holds(old.enc.terms, env) {
        lemma_store_built(start.enc.terms, old.enc.terms, env);
    }
    if stands_for(old, env, vals) {
        lemma_stands_built(start, old, env, vals);
        lemma_operand(start.enc, old, value, env, vals);
        reveal_with_fuel(wide::truth_of, 2);
        reveal_with_fuel(wide::value_of, 2);
    }
}

/// A switch.
#[verifier::rlimit(40)]
#[verifier::spinoff_prover]
proof fn lemma_switched<'a, S: Solver>(
    new: Explorer<'a, S>,
    old: Explorer<'a, S>,
    block: BlockId,
    value: Operand,
    cases: Seq<(i32, BlockId)>,
    default: BlockId,
    stop: Option<BlockId>,
    id: ObligationId,
    env: spec_fn(nat) -> i64,
    vals: Mem,
    end: Mem,
    n: nat,
)
    requires
        shaped(old),
        new.stays(old),
        block.0 < old.enc.body.blocks@.len(),
        old.enc.body.blocks@[block.0 as int].term is Switch,
        old.enc.body.blocks@[block.0 as int].term->value == value,
        old.enc.body.blocks@[block.0 as int].term->cases@ == cases,
        old.enc.body.blocks@[block.0 as int].term->default == default,
        new.switched(old, value, cases, default, stop),
        clean(new, id),
        wide::store_holds(old.enc.terms, env),
        heads_for(*old.enc.body, stop, block),
        stop != Some(block),
        old.depth <= old.max_depth + 1,
    ensures
        shaped(new),
        grew(new, old),
        holdable(new.enc.terms, env, old.enc.terms.size()),
        stands_for(old, env, vals) ==> {
            let to = match wide::case_taken(
                cases,
                wide::operand(vals, value),
                cases.len(),
            ) {
                Some(b) => b,
                None => default,
            };
            &&& !fails(*old.enc.body, to, vals, stop, id, n)
            &&& stop is Some && arrives(*old.enc.body, to, vals, stop->0, end, n) ==> reached_by(
                new,
                env,
                old.enc.terms.size(),
                end,
            )
        },
    decreases old.max_depth + 2 - old.depth, 50 + cases.len(),
{
    let body = *old.enc.body;
    let size = old.enc.terms.size();
    assert(body.blocks@[block.0 as int].in_range(
        body.blocks@.len(),
        body.vars@.len(),
        body.obligations@.len(),
    ));
    assert(plain_term(body, body.blocks@[block.0 as int].term));
    lemma_widths(old, value);
    lemma_switch_heads(body, block, stop);
    let arms = runs::switch_targets(cases, default);
    let join = postdom::join_point(postdom::graph_of(body), explore::block_ids(arms));
    let (start, conds) = choose|start: Explorer<'a, S>, conds: Seq<Term>|
        {
            &&& #[trigger] start.cases_read(old, value, cases, conds)
            &&& match join {
                Some(at) => new.switch_joined(
                    start,
                    false,
                    conds,
                    cases,
                    default,
                    BlockId(at),
                    stop,
                ),
                None => new.switch_forked(start, false, conds, cases, default, stop),
            }
        };
    lemma_value_read(start, old, value, cases, conds, env, vals);
    let k = lemma_case_index(cases, wide::operand(vals, value), cases.len());
    if stands_for(old, env, vals) {
        assert forall|x: int| 0 <= x < k implies !wide::truth_of(
            start.enc.terms.tm(#[trigger] conds[x]),
            env,
        ) by {
            assert(Value::I32(cases[x].0) != wide::operand(vals, value));
        }
        assert(arm_taken(start, conds, env, k));
    }
    lemma_switch_ways(new, start, conds, cases, default, stop, id, env, vals, end, n, k);
    lemma_grew_trans(new, start, old);
    lemma_from_start(new, start.enc.terms.size(), size, env, end);
}

/// A switch, after its value was read.
#[verifier::spinoff_prover]
#[verifier::rlimit(40)]
proof fn lemma_switch_ways<'a, S: Solver>(
    new: Explorer<'a, S>,
    start: Explorer<'a, S>,
    conds: Seq<Term>,
    cases: Seq<(i32, BlockId)>,
    default: BlockId,
    stop: Option<BlockId>,
    id: ObligationId,
    env: spec_fn(nat) -> i64,
    vals: Mem,
    end: Mem,
    n: nat,
    k: int,
)
    requires
        shaped(start),
        new.stays(start),
        ({
            let arms = runs::switch_targets(cases, default);
            &&& forall|x: int|
                0 <= x < arms.len() ==> (#[trigger] arms[x]).0 < start.enc.body.blocks@.len()
                    && heads_for(*start.enc.body, stop, arms[x])
            &&& match postdom::join_point(
                postdom::graph_of(*start.enc.body),
                explore::block_ids(arms),
            ) {
                Some(at) => new.switch_joined(
                    start,
                    false,
                    conds,
                    cases,
                    default,
                    BlockId(at),
                    stop,
                ),
                None => new.switch_forked(start, false, conds, cases, default, stop),
            }
        }),
        conds.len() == cases.len(),
        explore::terms_in(start.enc.terms, conds),
        clean(new, id),
        wide::store_holds(start.enc.terms, env),
        start.depth <= start.max_depth + 1,
    ensures
        shaped(new),
        grew(new, start),
        holdable(new.enc.terms, env, start.enc.terms.size()),
        stands_for(start, env, vals) && arm_taken(start, conds, env, k) ==> {
            let to = arm_target(cases, default, k);
            &&& !fails(*start.enc.body, to, vals, stop, id, n)
            &&& stop is Some && arrives(*start.enc.body, to, vals, stop->0, end, n) ==> reached_by(
                new,
                env,
                start.enc.terms.size(),
                end,
            )
        },
    decreases start.max_depth + 2 - start.depth, 45 + cases.len(),
{
    let body = *start.enc.body;
    let arms = runs::switch_targets(cases, default);
    let m = cases.len() as int;
    let join = postdom::join_point(postdom::graph_of(body), explore::block_ids(arms));
    assert(arms[m] == default);
    if let Some(at) = join {
        lemma_switch_meeting(body, arms, at, stop);
        assert forall|x: int| 0 <= x < m implies (#[trigger] cases[x]).1.0 < body.blocks@.len()
            && heads_for(body, Some(BlockId(at)), cases[x].1) by {
            assert(arms[x] == cases[x].1);
        }
        assert(heads_for(body, Some(BlockId(at)), arms[m]));
        lemma_switch_joined(
            new,
            start,
            conds,
            cases,
            default,
            BlockId(at),
            stop,
            id,
            env,
            vals,
            end,
            n,
            k,
        );
    } else {
        assert forall|x: int| 0 <= x < m implies (#[trigger] cases[x]).1.0 < body.blocks@.len()
            && heads_for(body, stop, cases[x].1) by {
            assert(arms[x] == cases[x].1);
        }
        lemma_switch_forked(new, start, conds, cases, default, stop, id, env, vals, end, n, k);
    }
}

/// The values that a run of the body may begin with: each is of the width of its type, a
/// reference parameter is an object, the fields are zero, and everything else is free.
pub open spec fn enters(e: Encoder, vals: Mem) -> bool {
    &&& vals.prog == *e.prog
    &&& wide::typed(*e.body, vals)
    &&& forall|k: FieldKeyV| #[trigger] (vals.statics)(k) == wide::initial(k)
    &&& forall|k: FieldKeyV, o: i32| #[trigger] (vals.fields)(k, o) == wide::initial(k)
    &&& forall|i: int|
        0 <= i < vals.vars.len() && (#[trigger] rvalue::param_class(e, i)) is Some ==> vals.vars[i]
            != Value::I32(0)
}

/// Is the place that of the symbol of the variable?
spec fn names_var(e: Encoder, i: int, at: nat) -> bool {
    &&& 0 <= i < e.st.vars@.len()
    &&& (e.st.vars@[i]->0).pos() == at
}

/// The assignment that gives each variable its value.
spec fn entering(e: Encoder, vals: Mem) -> spec_fn(nat) -> i64 {
    |at: nat|
        if exists|i: int| names_var(e, i, at) {
            vals.vars[choose|i: int| names_var(e, i, at)].number()
        } else {
            0
        }
}

proof fn lemma_entering(e: Encoder, vals: Mem, i: int)
    requires
        e.ok(),
        report::vars_named(e),
        wide::typed(*e.body, vals),
        0 <= i < vals.vars.len(),
    ensures
        wide::value_of(e.terms.tm(e.st.vars@[i]->0), entering(e, vals)) == vals.vars[i],
{
    reveal_with_fuel(wide::value_of, 2);
    let at = (e.st.vars@[i]->0).pos();
    assert(names_var(e, i, at));
    let j = choose|j: int| names_var(e, j, at);
    assert(names_var(e, j, at));
    let (s, t) = (e.st.vars@[i], e.st.vars@[j]);
    assert(s is Some && t is Some);
    assert(s->0 == t->0);
    let (a, b) = (text::dec(i as nat), text::dec(j as nat));
    let head = "uninit_v"@;
    assert(state::uninit_name(VarId(i as u32)) == head + a);
    assert(state::uninit_name(VarId(j as u32)) == head + b);
    assert(a =~= (head + a).skip(head.len() as int));
    assert(b =~= (head + b).skip(head.len() as int));
    smt_text::law_decimals_are_distinct(i as nat, j as nat);
}

proof fn lemma_params_hold(e: Encoder, vals: Mem, n: nat)
    requires
        e.ok(),
        report::vars_named(e),
        enters(e, vals),
        n <= vals.vars.len(),
    ensures
        all_true(rvalue::param_facts(e, n), entering(e, vals)),
    decreases n,
{
    let env = entering(e, vals);
    if n > 0 {
        let before = rvalue::param_facts(e, (n - 1) as nat);
        lemma_params_hold(e, vals, (n - 1) as nat);
        let all = rvalue::param_facts(e, n);
        if rvalue::param_class(e, n - 1) is Some {
            lemma_entering(e, vals, n - 1);
            let t = e.terms.tm(e.st.vars@[n - 1]->0);
            reveal_with_fuel(wide::truth_of, 3);
            reveal_with_fuel(wide::value_of, 2);
            assert(wide::truth_of(encode::not_null(t), env));
        }
        assert forall|i: int| 0 <= i < all.len() implies wide::truth_of(#[trigger] all[i], env) by {
            if i < before.len() {
                assert(before[i] == all[i]);
            }
        }
    }
}

/// What is said of parameters is not changed by what is built later.
proof fn lemma_facts_same(e: Encoder, f: Encoder, n: nat)
    requires
        e.body == f.body,
        report::vars_named(f),
        n <= f.st.vars@.len(),
        forall|t: Term| f.terms.has(t) ==> #[trigger] e.terms.tm(t) == f.terms.tm(t),
        forall|i: int| 0 <= i < f.st.vars@.len() ==> #[trigger] e.st.vars@[i] == f.st.vars@[i],
    ensures
        rvalue::param_facts(e, n) == rvalue::param_facts(f, n),
    decreases n,
{
    if n > 0 {
        lemma_facts_same(e, f, (n - 1) as nat);
        assert(e.st.vars@[n - 1] == f.st.vars@[n - 1]);
        assert(f.st.vars@[n - 1] is Some);
    }
}

/// Every run on which an obligation fails is found: if a body over values of 32 and 64
/// bits and over fields of classes of the program, without floating point, calls, arrays,
/// strings and new objects, and whose first block uses the fields that it stores in, was
/// explored to the end, and the solver always answered and always told the truth, the
/// obligation is among the violations. All characters are inputs here, not only those of
/// ASCII.
#[verifier::spinoff_prover]
pub proof fn law_failing_run_is_found<'a, S: Solver>(
    begun: Explorer<'a, S>,
    ready: Explorer<'a, S>,
    done: Explorer<'a, S>,
    vals: Mem,
    id: ObligationId,
    n: nat,
)
    requires
        begun.ok(),
        ready.ok(),
        report::at_entry(
            begun,
            *begun.enc.prog,
            *begun.enc.models,
            *begun.enc.body,
            begun.max_depth,
            false,
        ),
        ready == (Explorer { enc: ready.enc, ..begun }),
        rvalue::params_assumed(ready.enc, begun.enc),
        done.explored(ready, begun.enc.body.entry, 0, None),
        plain(*begun.enc.body),
        settled_fields(*begun.enc.prog, *begun.enc.body),
        done.found.all_paths_complete,
        done.has_budget(),
        truthful(done.log()),
        enters(begun.enc, vals),
        fails(*begun.enc.body, begun.enc.body.entry, vals, None, id, n),
    ensures
        is_found(done.found, begun.enc.body.key@, id),
{
    let body = *begun.enc.body;
    let env = entering(begun.enc, vals);
    let (e, f) = (ready.enc, begun.enc);
    let k = body.vars@.len();
    f.st.lemma_fits(k, f.terms);
    assert forall|i: int| 0 <= i < k implies #[trigger] e.st.vars@[i] == f.st.vars@[i] by {
        assert(f.st.vars@[i] is Some);
    }
    assert forall|i: int| 0 <= i < k implies (#[trigger] e.st.vars@[i] matches Some(t)
        && wide::value_of(e.terms.tm(t), env) == vals.vars[i]) by {
        assert(e.st.vars@[i] == f.st.vars@[i]);
        assert(f.st.vars@[i] is Some);
        lemma_entering(f, vals, i);
        assert(e.terms.tm(f.st.vars@[i]->0) == f.terms.tm(f.st.vars@[i]->0));
    }
    lemma_facts_same(e, f, k);
    lemma_params_hold(f, vals, k);
    let facts = rvalue::param_facts(f, k);
    assert forall|i: int| 0 <= i < e.terms.asserted().len() implies wide::truth_of(
        e.terms.tm(#[trigger] e.terms.asserted()[i]),
        env,
    ) by {
        assert(f.terms.asserted().len() == 0);
        assert(wide::truth_of(facts[i], env));
    }
    assert(fields_used(e.st, body, *f.prog)) by {
        reveal(used_maps);
        assert forall|x: FieldKeyV| !#[trigger] e.st.static_tainted.holds(x) by {
            assert(f.st.static_tainted.at(x) is None);
        }
        assert forall|x: FieldKeyV| !#[trigger] e.st.field_tainted.holds(x) by {
            assert(f.st.field_tainted.at(x) is None);
        }
    }
    assert(fields_are(e.terms, e.st, vals, env)) by {
        reveal(maps_are);
        assert forall|x: FieldKeyV| static_is(e.terms, #[trigger] e.st.statics.at(x), x, vals, env) by {
            assert(f.st.statics.at(x) is None);
            assert((vals.statics)(x) == wide::initial(x));
        }
        assert forall|x: FieldKeyV| field_is(e.terms, #[trigger] e.st.field_arrays.at(x), x, vals, env) by {
            assert(f.st.field_arrays.at(x) is None);
        }
    }
    assert(resting(e.terms, e.st, body, *f.prog)) by {
        reveal(wide::rest);
        assert forall|x: FieldKeyV| (#[trigger] e.st.statics.at(x)) is None by {
            assert(f.st.statics.at(x) is None);
        }
        assert forall|x: FieldKeyV| (#[trigger] e.st.field_arrays.at(x)) is None by {
            assert(f.st.field_arrays.at(x) is None);
        }
    }
    assert(formed_state(e.terms, e.st, k as int, body, *f.prog));
    assert(formed(ready));
    assert(stands_for(ready, env, vals));
    if !is_found(done.found, body.key@, id) {
        assert(done.stays(ready));
        lemma_explored(done, ready, body.entry, None, id, env, vals, vals, n);
    }
}

/// An obligation of the entry method that is reported as proved fails on no run, under
/// the same conditions.
pub proof fn law_proved_obligation_never_fails<'a, S: Solver>(
    begun: Explorer<'a, S>,
    ready: Explorer<'a, S>,
    done: Explorer<'a, S>,
    settled: report::Settled,
    open: Seq<ObligationRef>,
    vals: Mem,
    id: ObligationId,
    n: nat,
)
    requires
        begun.ok(),
        ready.ok(),
        report::at_entry(
            begun,
            *begun.enc.prog,
            *begun.enc.models,
            *begun.enc.body,
            begun.max_depth,
            false,
        ),
        ready == (Explorer { enc: ready.enc, ..begun }),
        rvalue::params_assumed(ready.enc, begun.enc),
        done.explored(ready, begun.enc.body.entry, 0, None),
        report::settles(settled, done.found, done.has_budget(), begun.enc.body.key@, open),
        settled is Proved,
        plain(*begun.enc.body),
        settled_fields(*begun.enc.prog, *begun.enc.body),
        truthful(done.log()),
        enters(begun.enc, vals),
    ensures
        !fails(*begun.enc.body, begun.enc.body.entry, vals, None, id, n),
{
    if fails(*begun.enc.body, begun.enc.body.entry, vals, None, id, n) {
        law_failing_run_is_found(begun, ready, done, vals, id, n);
    }
}

} // verus!
