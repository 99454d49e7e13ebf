//! How a body over 32-bit values runs, and that its formula says so.

use vstd::prelude::*;

use crate::body_analysis;
use crate::concrete::value;
use crate::concrete::value::Value;
use crate::ir;
use crate::ir::{BinOp, BlockId, Body, Const, Operand, Rvalue, Stmt, Terminator, Ty};
use crate::postdom;
use crate::smt_bmc::meaning;
use crate::smt_encode;
use crate::smt_encode::{Encoding, Flow, Whole};
use crate::term;
use crate::term::{Op2, Terms, Tm};

verus! {

/// What a run is given: the variables at the start, and what each statement takes
/// whose value is not computed, by its block and its place there.
pub struct Given {
    pub vars: Seq<i32>,
    pub chosen: spec_fn(int, int) -> i32,
}

/// Where a run stands.
#[verifier::ext_equal]
pub struct Point {
    pub vars: Seq<i32>,
    /// Every assumption held so far.
    pub live: bool,
    /// The obligations that did not hold where they were checked.
    pub failed: Seq<bool>,
    /// The last block that was run; below zero before the first.
    pub last: int,
}

/// The value of a constant; one of a string is not null.
pub open spec fn const_value(c: Const) -> i32 {
    match c {
        Const::Int(n) => n,
        Const::Str(_) => 1,
        _ => 0,
    }
}

/// The value of an operand.
pub open spec fn operand_value(vars: Seq<i32>, o: Operand) -> i32 {
    match o {
        Operand::Var(v) => vars[v.0 as int],
        Operand::Const(c) => const_value(c),
    }
}

/// The result of an operator; that of bit vectors where there is none.
pub open spec fn bin_value(op: BinOp, x: i32, y: i32) -> i32 {
    if meaning::undefined(op, x, y) {
        meaning::bits_op(
            if op == BinOp::Div {
                Op2::BvSdiv
            } else {
                Op2::BvSrem
            },
            x,
            y,
        )
    } else {
        value::binary(op, Value::I32(x), Value::I32(y))->I32_0
    }
}

/// The value of an rvalue; `chosen` if it is not computed.
pub open spec fn rvalue_value(vars: Seq<i32>, rv: Rvalue, chosen: i32) -> i32 {
    match rv {
        Rvalue::Use(o) => operand_value(vars, o),
        Rvalue::Bin(op, a, b) => bin_value(op, operand_value(vars, a), operand_value(vars, b)),
        Rvalue::Neg(o) => 0i32.wrapping_sub(operand_value(vars, o)),
        Rvalue::Cast(_, o) => operand_value(vars, o),
        Rvalue::Cmp(a, b) => {
            let x = operand_value(vars, a);
            let y = operand_value(vars, b);
            if x < y {
                -1i32 as i32
            } else if x == y {
                0
            } else {
                1
            }
        },
        _ => chosen,
    }
}

/// A statement. Where an assumption does not hold the run counts no more; a check
/// that fails is passed.
pub open spec fn stmt_run(body: Body, s: Stmt, p: Point, chosen: i32) -> Point {
    match s {
        Stmt::Assign(v, rv) => Point {
            vars: p.vars.update(v.0 as int, rvalue_value(p.vars, rv, chosen)),
            ..p
        },
        Stmt::Assume(o) => Point { live: p.live && operand_value(p.vars, o) != 0, ..p },
        Stmt::Check(id) => if p.live && operand_value(
            p.vars,
            body.obligations@[id.0 as int].cond,
        ) == 0 {
            Point { failed: p.failed.update(id.0 as int, true), ..p }
        } else {
            p
        },
        _ => p,
    }
}

/// The first `n` statements of a block.
pub open spec fn stmts_run(body: Body, b: int, p: Point, given: Given, n: nat) -> Point
    decreases n,
{
    if n == 0 {
        p
    } else {
        stmt_run(
            body,
            body.blocks@[b].stmts@[n - 1],
            stmts_run(body, b, p, given, (n - 1) as nat),
            (given.chosen)(b, n - 1),
        )
    }
}

/// The first of the first `n` cases that has the value.
pub open spec fn case_taken(cases: Seq<(i32, BlockId)>, value: i32, n: nat) -> Option<BlockId>
    decreases n,
{
    if n == 0 {
        None
    } else {
        match case_taken(cases, value, (n - 1) as nat) {
            Some(t) => Some(t),
            None => if cases[n - 1].0 == value {
                Some(cases[n - 1].1)
            } else {
                None
            },
        }
    }
}

/// Where a run goes on after a block.
pub open spec fn next_block(t: Terminator, vars: Seq<i32>) -> Option<BlockId> {
    match t {
        Terminator::Goto(b) => Some(b),
        Terminator::Branch { cond, then_, else_ } => if operand_value(vars, cond) != 0 {
            Some(then_)
        } else {
            Some(else_)
        },
        Terminator::Switch { value, cases, default } => match case_taken(
            cases@,
            operand_value(vars, value),
            cases@.len(),
        ) {
            Some(b) => Some(b),
            None => Some(default),
        },
        _ => None,
    }
}

/// A block up to its terminator.
pub open spec fn block_run(body: Body, b: int, p: Point, given: Given) -> Point {
    Point { last: b, ..stmts_run(body, b, p, given, body.blocks@[b].stmts@.len()) }
}

/// The run from a block on. Only edges to later blocks are followed.
pub open spec fn run(body: Body, b: int, p: Point, given: Given) -> Point
    decreases
            (if b < body.blocks@.len() {
                body.blocks@.len() - b
            } else {
                0
            }),
{
    if b < 0 || b >= body.blocks@.len() {
        p
    } else {
        let q = block_run(body, b, p, given);
        match next_block(body.blocks@[b].term, q.vars) {
            Some(t) => if b < t.0 {
                run(body, t.0 as int, q, given)
            } else {
                q
            },
            None => q,
        }
    }
}

/// The start of a run.
pub open spec fn start(body: Body, given: Given) -> Point {
    Point {
        vars: given.vars,
        live: true,
        failed: Seq::new(body.obligations@.len(), |i: int| false),
        last: -1,
    }
}

/// What a run comes to.
pub open spec fn whole_run(body: Body, given: Given) -> Point {
    run(body, body.entry.0 as int, start(body, given), given)
}

/// The operand is an `int` or a reference.
pub open spec fn narrow(o: Operand) -> bool {
    o matches Operand::Const(c) ==> !(c is Long) && !(c is Double) && !(c is Float)
}

/// The statement computes with values of 32 bits alone.
pub open spec fn narrow_stmt(s: Stmt) -> bool {
    match s {
        Stmt::Assign(_, Rvalue::Use(o)) | Stmt::Assign(_, Rvalue::Neg(o)) | Stmt::Assume(o) => narrow(
            o,
        ),
        Stmt::Assign(_, Rvalue::Bin(_, a, b)) | Stmt::Assign(_, Rvalue::Cmp(a, b)) => narrow(a)
            && narrow(b),
        Stmt::Assign(_, Rvalue::Cast(ty, o)) => ty == Ty::Int && narrow(o),
        _ => true,
    }
}

/// The terminator tests a value of 32 bits, and no value has two cases.
pub open spec fn narrow_term(t: Terminator) -> bool {
    match t {
        Terminator::Branch { cond, .. } => narrow(cond),
        Terminator::Switch { value, cases, .. } => {
            &&& narrow(value)
            &&& forall|i: int, j: int|
                0 <= i < j < cases@.len() ==> (#[trigger] cases@[i]).0 != (#[trigger] cases@[j]).0
        },
        _ => true,
    }
}

/// The body is over values of 32 bits alone, and no edge goes back.
pub open spec fn straight(body: Body) -> bool {
    &&& body.well_formed()
    &&& forall|i: int|
        0 <= i < body.vars@.len() ==> !(#[trigger] body.vars@[i]).ty.wide() && body.vars@[i].ty
            != Ty::Float
    &&& forall|i: int| 0 <= i < body.obligations@.len() ==> narrow((#[trigger] body.obligations@[i]).cond)
    &&& forall|i: int, j: int|
        0 <= i < body.blocks@.len() && 0 <= j < body.blocks@[i].stmts@.len() ==> narrow_stmt(
            #[trigger] body.blocks@[i].stmts@[j],
        )
    &&& forall|i: int| 0 <= i < body.blocks@.len() ==> narrow_term((#[trigger] body.blocks@[i]).term)
    &&& forall|i: int| 0 <= i < body.blocks@.len() ==> !#[trigger] body_analysis::goes_back(body, i)
}

/// The symbol that a statement takes whose value is not computed.
pub open spec fn symbol_of(body: Body, syms: Seq<Tm>, b: int, k: int) -> Tm {
    let w = smt_encode::whole(body, syms, b as nat);
    let p = smt_encode::flow(
        body,
        body.blocks@[b].stmts@,
        smt_encode::block_start(b, w),
        syms,
        k as nat,
    );
    syms[p.reqs.len() as int]
}

/// What a run is given where the symbols have the values of `env`.
pub open spec fn given_by(body: Body, syms: Seq<Tm>, env: spec_fn(nat) -> i32) -> Given {
    Given {
        vars: Seq::new(body.vars@.len(), |i: int| meaning::value_of(syms[i], env)),
        chosen: |b: int, k: int| meaning::value_of(symbol_of(body, syms, b, k), env),
    }
}

/// The terms have the given values.
spec fn agree(vars: Seq<Tm>, vals: Seq<i32>, env: spec_fn(nat) -> i32) -> bool {
    &&& vars.len() == vals.len()
    &&& forall|i: int| 0 <= i < vars.len() ==> meaning::value_of(#[trigger] vars[i], env) == vals[i]
}

/// The optional formula is there and holds.
pub open spec fn true_in(t: Option<Tm>, env: spec_fn(nat) -> i32) -> bool {
    t matches Some(f) && meaning::truth_of(f, env)
}

/// Just the obligations that failed have a violation that holds.
spec fn same_failures(violated: Seq<Option<Tm>>, failed: Seq<bool>, env: spec_fn(nat) -> i32) -> bool {
    &&& violated.len() == failed.len()
    &&& forall|i: int| 0 <= i < failed.len() ==> true_in(#[trigger] violated[i], env) == failed[i]
}

/// The encoding inside a block stands where the run does.
spec fn stands(f: Flow, p: Point, env: spec_fn(nat) -> i32) -> bool {
    &&& meaning::truth_of(f.pc, env) == p.live
    &&& f.vars.len() == p.vars.len()
    &&& p.live ==> agree(f.vars, p.vars, env)
    &&& same_failures(f.violated, p.failed, env)
}

proof fn lemma_operand(body: Body, vars: Seq<Tm>, vals: Seq<i32>, o: Operand, env: spec_fn(nat) -> i32)
    requires
        agree(vars, vals, env),
        o.in_range(vars.len()),
        narrow(o),
    ensures
        meaning::value_of(smt_encode::operand_tm(vars, o), env) == operand_value(vals, o),
        straight(body) && vars.len() == body.vars@.len() ==> smt_encode::operand_width(body, o) == 32,
        meaning::truth_of(smt_encode::is_zero(vars, o), env) == (operand_value(vals, o) == 0),
{
    meaning::law_conditions_are_tests_for_zero(smt_encode::operand_tm(vars, o), env);
}

proof fn lemma_rvalue(body: Body, vars: Seq<Tm>, vals: Seq<i32>, v: ir::VarId, rv: Rvalue, sym: Tm, env: spec_fn(nat) -> i32)
    requires
        agree(vars, vals, env),
        ir::operands_in_range(ir::rvalue_operands(rv), vars.len()),
        straight(body),
        vars.len() == body.vars@.len(),
        narrow_stmt(Stmt::Assign(v, rv)),
    ensures
        meaning::value_of(smt_encode::rvalue_tm(body, vars, rv, sym), env) == rvalue_value(
            vals,
            rv,
            meaning::value_of(sym, env),
        ),
{
    let ops = ir::rvalue_operands(rv);
    match rv {
        Rvalue::Use(o) | Rvalue::Neg(o) | Rvalue::Cast(_, o) => {
            assert(ops[0] == o);
            lemma_operand(body, vars, vals, o, env);
        },
        Rvalue::Bin(op, a, b) => {
            assert(ops[0] == a && ops[1] == b);
            lemma_operand(body, vars, vals, a, env);
            lemma_operand(body, vars, vals, b, env);
            let s = smt_encode::operand_tm(vars, a);
            let t = smt_encode::operand_tm(vars, b);
            if !meaning::undefined(op, meaning::value_of(s, env), meaning::value_of(t, env)) {
                meaning::law_operators_agree(op, s, t, env);
            }
        },
        Rvalue::Cmp(a, b) => {
            assert(ops[0] == a && ops[1] == b);
            lemma_operand(body, vars, vals, a, env);
            lemma_operand(body, vars, vals, b, env);
            meaning::law_three_way_comparison(
                smt_encode::operand_tm(vars, a),
                smt_encode::operand_tm(vars, b),
                env,
            );
        },
        _ => {},
    }
}

proof fn lemma_stmt(body: Body, s: Stmt, f: Flow, p: Point, sym: Tm, env: spec_fn(nat) -> i32)
    requires
        straight(body),
        ir::stmt_in_range(s, body.vars@.len(), body.obligations@.len()),
        narrow_stmt(s),
        stands(f, p, env),
        p.vars.len() == body.vars@.len(),
        p.failed.len() == body.obligations@.len(),
    ensures
        stands(
            smt_encode::step(body, s, f, sym),
            stmt_run(body, s, p, meaning::value_of(sym, env)),
            env,
        ),
{
    let g = smt_encode::step(body, s, f, sym);
    let q = stmt_run(body, s, p, meaning::value_of(sym, env));
    reveal_with_fuel(meaning::truth_of, 3);
    match s {
        Stmt::Assign(v, rv) => {
            if p.live {
                lemma_rvalue(body, f.vars, p.vars, v, rv, sym, env);
                assert forall|i: int| 0 <= i < g.vars.len() implies meaning::value_of(
                    #[trigger] g.vars[i],
                    env,
                ) == q.vars[i] by {
                    assert(meaning::value_of(f.vars[i], env) == p.vars[i]);
                }
            }
        },
        Stmt::Assume(o) => {
            if p.live {
                lemma_operand(body, f.vars, p.vars, o, env);
            }
        },
        Stmt::Check(id) => {
            let cond = body.obligations@[id.0 as int].cond;
            assert(narrow(cond));
            if p.live {
                lemma_operand(body, f.vars, p.vars, cond, env);
            }
            let z = smt_encode::is_zero(f.vars, cond);
            let here = term::tm_and(f.pc, z);
            let k = id.0 as int;
            assert(meaning::truth_of(here, env) == (p.live && operand_value(p.vars, cond) == 0));
            assert(true_in(g.violated[k], env) == (true_in(f.violated[k], env) || meaning::truth_of(
                here,
                env,
            )));
            assert forall|i: int| 0 <= i < q.failed.len() implies true_in(#[trigger] g.violated[i], env)
                == q.failed[i] by {
                assert(true_in(f.violated[i], env) == p.failed[i]);
            }
        },
        _ => {},
    }
}

proof fn lemma_run_sizes(body: Body, b: int, p: Point, given: Given, n: nat)
    requires
        body.well_formed(),
        0 <= b < body.blocks@.len(),
        n <= body.blocks@[b].stmts@.len(),
        p.vars.len() == body.vars@.len(),
        p.failed.len() == body.obligations@.len(),
    ensures
        stmts_run(body, b, p, given, n).vars.len() == p.vars.len(),
        stmts_run(body, b, p, given, n).failed.len() == p.failed.len(),
        !p.live ==> !stmts_run(body, b, p, given, n).live && stmts_run(body, b, p, given, n).failed
            == p.failed,
    decreases n,
{
    if n > 0 {
        lemma_run_sizes(body, b, p, given, (n - 1) as nat);
        assert(body.blocks@[b].in_range(
            body.blocks@.len(),
            body.vars@.len(),
            body.obligations@.len(),
        ));
        assert(ir::stmt_in_range(
            body.blocks@[b].stmts@[n - 1],
            body.vars@.len(),
            body.obligations@.len(),
        ));
    }
}

proof fn lemma_stmts(
    body: Body,
    b: int,
    f: Flow,
    p: Point,
    syms: Seq<Tm>,
    given: Given,
    env: spec_fn(nat) -> i32,
    n: nat,
)
    requires
        straight(body),
        0 <= b < body.blocks@.len(),
        n <= body.blocks@[b].stmts@.len(),
        stands(f, p, env),
        p.vars.len() == body.vars@.len(),
        p.failed.len() == body.obligations@.len(),
        forall|k: int|
            0 <= k < n ==> #[trigger] (given.chosen)(b, k) == meaning::value_of(
                syms[smt_encode::flow(body, body.blocks@[b].stmts@, f, syms, k as nat).reqs.len() as int],
                env,
            ),
    ensures
        stands(
            smt_encode::flow(body, body.blocks@[b].stmts@, f, syms, n),
            stmts_run(body, b, p, given, n),
            env,
        ),
    decreases n,
{
    if n > 0 {
        let m = (n - 1) as nat;
        lemma_stmts(body, b, f, p, syms, given, env, m);
        lemma_run_sizes(body, b, p, given, m);
        let g = smt_encode::flow(body, body.blocks@[b].stmts@, f, syms, m);
        let s = body.blocks@[b].stmts@[m as int];
        assert(body.blocks@[b].in_range(
            body.blocks@.len(),
            body.vars@.len(),
            body.obligations@.len(),
        ));
        assert((given.chosen)(b, m as int) == meaning::value_of(syms[g.reqs.len() as int], env));
        lemma_stmt(
            body,
            s,
            g,
            stmts_run(body, b, p, given, m),
            syms[g.reqs.len() as int],
            env,
        );
    }
}

/// The path condition of the block holds.
spec fn entered(w: Whole, b: int, env: spec_fn(nat) -> i32) -> bool {
    true_in(w.pcs[b], env)
}

/// The block is entered with the given values.
spec fn entered_with(w: Whole, b: int, vals: Seq<i32>, env: spec_fn(nat) -> i32) -> bool {
    w.envs[b] matches Some(e) && agree(e, vals, env)
}

/// The encoding is of the size of the body.
spec fn sized(w: Whole, body: Body) -> bool {
    &&& w.pcs.len() == body.blocks@.len()
    &&& w.envs.len() == body.blocks@.len()
    &&& forall|b: int| 0 <= b < w.pcs.len() ==> (#[trigger] w.pcs[b] is Some <==> w.envs[b] is Some)
    &&& forall|b: int|
        0 <= b < w.envs.len() ==> (#[trigger] w.envs[b] matches Some(e) ==> e.len()
            == body.vars@.len())
}

/// One more edge enters its target where it is taken, and leaves the rest as it was.
spec fn edge_added(
    v: Whole,
    w: Whole,
    t: Option<BlockId>,
    vals: Seq<i32>,
    live: bool,
    env: spec_fn(nat) -> i32,
) -> bool {
    &&& v.violated == w.violated
    &&& forall|b: int|
        0 <= b < w.pcs.len() ==> #[trigger] entered(v, b, env) == (entered(w, b, env) || (live && (
        t matches Some(x) && x.0 == b)))
    &&& live && (t matches Some(x) && x.0 < w.pcs.len()) ==> entered_with(v, (t->Some_0).0 as int, vals, env)
    &&& forall|b: int, old: Seq<i32>|
        0 <= b < w.pcs.len() && !(live && (t matches Some(x) && x.0 == b)) && entered_with(
            w,
            b,
            old,
            env,
        ) ==> #[trigger] entered_with(v, b, old, env)
}

proof fn lemma_merged(
    body: Body,
    w: Whole,
    t: BlockId,
    pc: Tm,
    vars: Seq<Tm>,
    vals: Seq<i32>,
    env: spec_fn(nat) -> i32,
)
    requires
        sized(w, body),
        t.0 < body.blocks@.len(),
        vars.len() == body.vars@.len(),
        meaning::truth_of(pc, env) ==> agree(vars, vals, env),
    ensures
        sized(smt_encode::merged(w, t, pc, vars), body),
        edge_added(
            smt_encode::merged(w, t, pc, vars),
            w,
            Some(t),
            vals,
            meaning::truth_of(pc, env),
            env,
        ),
{
    let v = smt_encode::merged(w, t, pc, vars);
    let live = meaning::truth_of(pc, env);
    let k = t.0 as int;
    assert forall|b: int| 0 <= b < w.pcs.len() implies #[trigger] entered(v, b, env) == (entered(
        w,
        b,
        env,
    ) || (live && b == k)) by {
        if b != k {
            assert(v.pcs[b] == w.pcs[b]);
        }
    }
    assert(w.pcs[k] is Some <==> w.envs[k] is Some);
    if live {
        let e = v.envs[k]->0;
        assert forall|i: int| 0 <= i < e.len() implies meaning::value_of(#[trigger] e[i], env)
            == vals[i] by {
            assert(meaning::value_of(vars[i], env) == vals[i]);
        }
    }
    assert forall|b: int, old: Seq<i32>|
        0 <= b < w.pcs.len() && !(live && b == k) && entered_with(w, b, old, env)
        implies #[trigger] entered_with(v, b, old, env) by {
        if b == k {
            let had = w.envs[k]->0;
            let e = v.envs[k]->0;
            assert forall|i: int| 0 <= i < e.len() implies meaning::value_of(#[trigger] e[i], env)
                == old[i] by {
                assert(meaning::value_of(had[i], env) == old[i]);
            }
        } else {
            assert(v.envs[b] == w.envs[b]);
        }
    }
}

/// Of two edges from one block no more than one is taken.
proof fn lemma_two_edges(
    u: Whole,
    v: Whole,
    w: Whole,
    s: Option<BlockId>,
    t: Option<BlockId>,
    vals: Seq<i32>,
    first: bool,
    second: bool,
    env: spec_fn(nat) -> i32,
)
    requires
        edge_added(v, w, s, vals, first, env),
        edge_added(u, v, t, vals, second, env),
        v.pcs.len() == w.pcs.len(),
        !(first && second),
    ensures
        edge_added(
            u,
            w,
            if first {
                s
            } else {
                t
            },
            vals,
            first || second,
            env,
        ),
{
    let x = if first {
        s
    } else {
        t
    };
    let live = first || second;
    assert forall|b: int| 0 <= b < w.pcs.len() implies #[trigger] entered(u, b, env) == (entered(
        w,
        b,
        env,
    ) || (live && (x matches Some(y) && y.0 == b))) by {
        assert(entered(v, b, env) == (entered(w, b, env) || (first && (s matches Some(y) && y.0
            == b))));
    }
    if first && (s matches Some(y) && y.0 < w.pcs.len()) {
        assert(entered_with(v, (s->Some_0).0 as int, vals, env));
        assert(entered_with(u, (s->Some_0).0 as int, vals, env));
    }
    assert forall|b: int, old: Seq<i32>|
        0 <= b < w.pcs.len() && !(live && (x matches Some(y) && y.0 == b)) && entered_with(
            w,
            b,
            old,
            env,
        ) implies #[trigger] entered_with(u, b, old, env) by {
        assert(entered_with(v, b, old, env));
    }
}

proof fn lemma_taken_case_matches(cases: Seq<(i32, BlockId)>, value: i32, n: nat)
    requires
        n <= cases.len(),
    ensures
        case_taken(cases, value, n) matches Some(t) ==> exists|k: int|
            0 <= k < n && (#[trigger] cases[k]).0 == value && cases[k].1 == t,
    decreases n,
{
    if n > 0 {
        lemma_taken_case_matches(cases, value, (n - 1) as nat);
        if case_taken(cases, value, (n - 1) as nat) is None {
            assert(cases[n - 1] == cases[n - 1]);
        }
    }
}

proof fn lemma_cases(
    body: Body,
    w: Whole,
    pc: Tm,
    vars: Seq<Tm>,
    value: Tm,
    cases: Seq<(i32, BlockId)>,
    vals: Seq<i32>,
    x: i32,
    env: spec_fn(nat) -> i32,
    n: nat,
)
    requires
        sized(w, body),
        n <= cases.len(),
        vars.len() == body.vars@.len(),
        meaning::truth_of(pc, env) ==> agree(vars, vals, env) && meaning::value_of(value, env) == x,
        forall|i: int| 0 <= i < cases.len() ==> (#[trigger] cases[i]).1.0 < body.blocks@.len(),
        forall|i: int, j: int|
            0 <= i < j < cases.len() ==> (#[trigger] cases[i]).0 != (#[trigger] cases[j]).0,
    ensures
        sized(smt_encode::with_cases(w, pc, vars, value, cases, n), body),
        edge_added(
            smt_encode::with_cases(w, pc, vars, value, cases, n),
            w,
            case_taken(cases, x, n),
            vals,
            meaning::truth_of(pc, env) && case_taken(cases, x, n) is Some,
            env,
        ),
        meaning::truth_of(smt_encode::default_pc(pc, value, cases, n), env) == (meaning::truth_of(
            pc,
            env,
        ) && case_taken(cases, x, n) is None),
    decreases n,
{
    reveal_with_fuel(meaning::truth_of, 3);
    if n > 0 {
        let m = (n - 1) as nat;
        lemma_cases(body, w, pc, vars, value, cases, vals, x, env, m);
        lemma_taken_case_matches(cases, x, m);
        let v = smt_encode::with_cases(w, pc, vars, value, cases, m);
        let edge = term::tm_and(pc, smt_encode::is_case(value, cases[m as int].0));
        let live = meaning::truth_of(pc, env);
        let first = live && case_taken(cases, x, m) is Some;
        let second = meaning::truth_of(edge, env);
        assert(second == (live && cases[m as int].0 == x));
        lemma_merged(body, v, cases[m as int].1, edge, vars, vals, env);
        if first {
            let k = choose|k: int| 0 <= k < m && (#[trigger] cases[k]).0 == x;
            assert(cases[k].0 != cases[m as int].0);
        }
        lemma_two_edges(
            smt_encode::merged(v, cases[m as int].1, edge, vars),
            v,
            w,
            case_taken(cases, x, m),
            Some(cases[m as int].1),
            vals,
            first,
            second,
            env,
        );
    }
}

proof fn lemma_leave(
    body: Body,
    w: Whole,
    t: Terminator,
    pc: Tm,
    vars: Seq<Tm>,
    vals: Seq<i32>,
    env: spec_fn(nat) -> i32,
)
    requires
        sized(w, body),
        vars.len() == body.vars@.len(),
        meaning::truth_of(pc, env) ==> agree(vars, vals, env),
        narrow_term(t),
        ir::term_in_range(t, body.vars@.len()),
        forall|i: int|
            0 <= i < ir::term_targets(t).len() ==> (#[trigger] ir::term_targets(t)[i]).0
                < body.blocks@.len(),
    ensures
        sized(smt_encode::leave(w, t, pc, vars), body),
        edge_added(
            smt_encode::leave(w, t, pc, vars),
            w,
            next_block(t, vals),
            vals,
            meaning::truth_of(pc, env) && next_block(t, vals) is Some,
            env,
        ),
{
    reveal_with_fuel(meaning::truth_of, 3);
    let live = meaning::truth_of(pc, env);
    let targets = ir::term_targets(t);
    match t {
        Terminator::Goto(b) => {
            assert(targets[0] == b);
            lemma_merged(body, w, b, pc, vars, vals, env);
        },
        Terminator::Branch { cond, then_, else_ } => {
            assert(targets[0] == then_ && targets[1] == else_);
            if live {
                lemma_operand(body, vars, vals, cond, env);
            }
            let z = smt_encode::is_zero(vars, cond);
            let a = term::tm_and(pc, term::tm_not(z));
            let b = term::tm_and(pc, z);
            lemma_merged(body, w, then_, a, vars, vals, env);
            let v = smt_encode::merged(w, then_, a, vars);
            lemma_merged(body, v, else_, b, vars, vals, env);
            lemma_two_edges(
                smt_encode::merged(v, else_, b, vars),
                v,
                w,
                Some(then_),
                Some(else_),
                vals,
                meaning::truth_of(a, env),
                meaning::truth_of(b, env),
                env,
            );
        },
        Terminator::Switch { value, cases, default } => {
            let n = cases@.len();
            assert forall|i: int| 0 <= i < n implies (#[trigger] cases@[i]).1.0 < body.blocks@.len() by {
                assert(targets[i] == cases@[i].1);
            }
            assert(targets[n as int] == default);
            if live {
                lemma_operand(body, vars, vals, value, env);
            }
            let x = operand_value(vals, value);
            let v = smt_encode::operand_tm(vars, value);
            lemma_cases(body, w, pc, vars, v, cases@, vals, x, env, n);
            let u = smt_encode::with_cases(w, pc, vars, v, cases@, n);
            let d = smt_encode::default_pc(pc, v, cases@, n);
            lemma_merged(body, u, default, d, vars, vals, env);
            lemma_two_edges(
                smt_encode::merged(u, default, d, vars),
                u,
                w,
                case_taken(cases@, x, n),
                Some(default),
                vals,
                live && case_taken(cases@, x, n) is Some,
                meaning::truth_of(d, env),
                env,
            );
        },
        _ => {},
    }
}

/// Where the run is once the first `n` blocks are behind it: at the entry of a later
/// block, or ended.
spec fn front(body: Body, given: Given, n: nat) -> (Option<int>, Point)
    decreases n,
{
    if n == 0 {
        (Some(body.entry.0 as int), start(body, given))
    } else {
        let (at, p) = front(body, given, (n - 1) as nat);
        if at == Some(n - 1) {
            let q = block_run(body, n - 1, p, given);
            (
                match next_block(body.blocks@[n - 1].term, q.vars) {
                    Some(t) => Some(t.0 as int),
                    None => None,
                },
                q,
            )
        } else {
            (at, p)
        }
    }
}

proof fn lemma_next_is_later(body: Body, b: int, vars: Seq<i32>)
    requires
        straight(body),
        0 <= b < body.blocks@.len(),
    ensures
        next_block(body.blocks@[b].term, vars) matches Some(t) ==> b < t.0 < body.blocks@.len() && (
        exists|k: int|
            0 <= k < ir::term_targets(body.blocks@[b].term).len() && #[trigger] ir::term_targets(
                body.blocks@[b].term,
            )[k] == t),
{
    let term = body.blocks@[b].term;
    let targets = ir::term_targets(term);
    let ids = postdom::succ_ids(body, b);
    if let Some(t) = next_block(term, vars) {
        let k = match term {
            Terminator::Branch { cond, .. } => if operand_value(vars, cond) != 0 {
                0
            } else {
                1
            },
            Terminator::Switch { value, cases, .. } => {
                let x = operand_value(vars, value);
                lemma_taken_case_matches(cases@, x, cases@.len());
                if case_taken(cases@, x, cases@.len()) is Some {
                    choose|k: int|
                        0 <= k < cases@.len() && (#[trigger] cases@[k]).0 == x && cases@[k].1 == t
                } else {
                    cases@.len() as int
                }
            },
            _ => 0,
        };
        assert(targets[k] == t);
        assert(ids[k] == t.0);
        assert(!body_analysis::goes_back(body, b));
        assert(body.blocks@[b].in_range(
            body.blocks@.len(),
            body.vars@.len(),
            body.obligations@.len(),
        ));
    }
}

proof fn lemma_front_runs(body: Body, given: Given, n: nat)
    requires
        straight(body),
        n <= body.blocks@.len(),
    ensures
        ({
            let (at, p) = front(body, given, n);
            &&& whole_run(body, given) == match at {
                Some(b) => run(body, b, p, given),
                None => p,
            }
            &&& at matches Some(b) ==> n <= b < body.blocks@.len()
            &&& p.last < n
        }),
    decreases n,
{
    if n > 0 {
        let m = (n - 1) as nat;
        lemma_front_runs(body, given, m);
        let (at, p) = front(body, given, m);
        if at == Some(m as int) {
            lemma_next_is_later(body, m as int, block_run(body, m as int, p, given).vars);
        }
    }
}

/// The encoding of the first `n` blocks stands where the run does.
spec fn keeps_up(
    body: Body,
    w: Whole,
    at: Option<int>,
    p: Point,
    n: nat,
    env: spec_fn(nat) -> i32,
) -> bool {
    &&& sized(w, body)
    &&& p.vars.len() == body.vars@.len()
    &&& p.failed.len() == body.obligations@.len()
    &&& forall|b: int|
        n <= b < body.blocks@.len() ==> #[trigger] entered(w, b, env) == (at == Some(b) && p.live)
    &&& (at is Some && p.live) ==> entered_with(w, at->Some_0, p.vars, env)
    &&& same_failures(w.violated, p.failed, env)
    &&& forall|b: int|
        0 <= b < n && smt_encode::ends(body.blocks@[b]) ==> #[trigger] entered(w, b, env) == (at is None
            && p.live && p.last == b)
}

proof fn lemma_keeps_up(body: Body, syms: Seq<Tm>, env: spec_fn(nat) -> i32, n: nat)
    requires
        straight(body),
        n <= body.blocks@.len(),
        body.vars@.len() <= syms.len(),
    ensures
        ({
            let (at, p) = front(body, given_by(body, syms, env), n);
            keeps_up(body, smt_encode::whole(body, syms, n), at, p, n, env)
        }),
    decreases n,
{
    let given = given_by(body, syms, env);
    if n == 0 {
        let w = smt_encode::begin(body, syms);
        let (at, p) = front(body, given, 0);
        assert(agree(syms.take(body.vars@.len() as int), given.vars, env));
        assert(entered_with(w, body.entry.0 as int, p.vars, env));
        assert(same_failures(w.violated, p.failed, env));
    } else {
        let m = (n - 1) as nat;
        lemma_keeps_up(body, syms, env, m);
        lemma_front_runs(body, given, m);
        let w = smt_encode::whole(body, syms, m);
        let (at, p) = front(body, given, m);
        let (now, q) = front(body, given, n);
        let block = body.blocks@[m as int];
        let count = block.stmts@.len();
        assert(block.in_range(body.blocks@.len(), body.vars@.len(), body.obligations@.len()));
        lemma_run_sizes(body, m as int, p, given, count);
        assert(entered(w, m as int, env) == (at == Some(m as int) && p.live));
        if at == Some(m as int) {
            lemma_next_is_later(body, m as int, q.vars);
        }
        if w.pcs[m as int] is Some {
            // A run that is elsewhere is followed as one that does not count.
            let here = if at == Some(m as int) {
                p
            } else {
                Point { live: false, ..p }
            };
            let f = smt_encode::block_start(m as int, w);
            assert(w.envs[m as int] is Some);
            assert(stands(f, here, env));
            assert forall|k: int| 0 <= k < count implies #[trigger] (given.chosen)(m as int, k)
                == meaning::value_of(
                syms[smt_encode::flow(body, block.stmts@, f, syms, k as nat).reqs.len() as int],
                env,
            ) by {
                assert((given.chosen)(m as int, k) == meaning::value_of(
                    symbol_of(body, syms, m as int, k),
                    env,
                ));
            }
            lemma_stmts(body, m as int, f, here, syms, given, env, count);
            lemma_run_sizes(body, m as int, here, given, count);
            let g = smt_encode::block_end(body, m as int, w, syms);
            let r = stmts_run(body, m as int, here, given, count);
            let mid = Whole {
                pcs: w.pcs.update(m as int, Some(g.pc)),
                envs: w.envs,
                reqs: g.reqs,
                facts: g.facts,
                violated: g.violated,
            };
            assert(sized(mid, body)) by {
                assert forall|b: int| 0 <= b < mid.pcs.len() implies (#[trigger] mid.pcs[b] is Some
                    <==> mid.envs[b] is Some) by {
                    assert(w.pcs[b] is Some <==> w.envs[b] is Some);
                }
                assert forall|b: int| 0 <= b < mid.envs.len() implies (
                #[trigger] mid.envs[b] matches Some(e) ==> e.len() == body.vars@.len()) by {
                    assert(w.envs[b] == mid.envs[b]);
                }
            }
            lemma_leave(body, mid, block.term, g.pc, g.vars, r.vars, env);
            let v = smt_encode::after_block(body, m as int, w, syms);
            let to = next_block(block.term, r.vars);
            lemma_next_is_later(body, m as int, r.vars);
            assert forall|b: int| n <= b < body.blocks@.len() implies #[trigger] entered(v, b, env) == (
            now == Some(b) && q.live) by {
                assert(entered(w, b, env) == (at == Some(b) && p.live));
                assert(entered(mid, b, env) == entered(w, b, env));
            }
            if let Some(b) = now {
                if q.live && at != Some(m as int) {
                    assert(entered_with(w, b, p.vars, env));
                    assert(entered_with(mid, b, p.vars, env));
                    assert(entered_with(v, b, p.vars, env));
                }
            }
            assert forall|b: int| 0 <= b < n && smt_encode::ends(body.blocks@[b]) implies #[trigger] entered(
                v,
                b,
                env,
            ) == (now is None && q.live && q.last == b) by {
                assert(entered(v, b, env) == entered(mid, b, env));
                if b < m {
                    assert(entered(w, b, env) == (at is None && p.live && p.last == b));
                    assert(entered(mid, b, env) == entered(w, b, env));
                }
            }
        } else {
            assert forall|b: int| n <= b < body.blocks@.len() implies #[trigger] entered(w, b, env) == (
            now == Some(b) && q.live) by {
                assert(entered(w, b, env) == (at == Some(b) && p.live));
            }
            assert forall|b: int| 0 <= b < n && smt_encode::ends(body.blocks@[b]) implies #[trigger] entered(
                w,
                b,
                env,
            ) == (now is None && q.live && q.last == b) by {
                if b < m {
                    assert(entered(w, b, env) == (at is None && p.live && p.last == b));
                }
            }
        }
    }
}

/// When one of the first `n` blocks ends the method.
proof fn lemma_reach(body: Body, w: Whole, env: spec_fn(nat) -> i32, n: nat)
    requires
        n <= body.blocks@.len(),
        w.pcs.len() == body.blocks@.len(),
    ensures
        meaning::truth_of(smt_encode::reach_tm(body, w, n), env) == exists|b: int|
            0 <= b < n && smt_encode::ends(body.blocks@[b]) && #[trigger] entered(w, b, env),
    decreases n,
{
    if n > 0 {
        let m = (n - 1) as nat;
        lemma_reach(body, w, env, m);
        if exists|b: int|
            0 <= b < m && smt_encode::ends(body.blocks@[b]) && #[trigger] entered(w, b, env) {
            let b = choose|b: int|
                0 <= b < m && smt_encode::ends(body.blocks@[b]) && #[trigger] entered(w, b, env);
            assert(entered(w, b, env));
        }
        assert(smt_encode::ends(body.blocks@[m as int]) && entered(w, m as int, env)
            ==> meaning::truth_of(smt_encode::reach_tm(body, w, n), env));
        if meaning::truth_of(smt_encode::reach_tm(body, w, n), env) && !meaning::truth_of(
            smt_encode::reach_tm(body, w, m),
            env,
        ) {
            assert(entered(w, m as int, env));
        }
    }
}

/// The violation of an obligation holds for just those values of the symbols with
/// which a check of it fails.
pub proof fn law_violation_is_a_failing_check(
    e: Encoding,
    body: Body,
    frame: Seq<char>,
    new: Terms,
    old: Terms,
    syms: Seq<Tm>,
    env: spec_fn(nat) -> i32,
    id: int,
)
    requires
        smt_encode::encodes(e, body, frame, new, old, syms),
        straight(body),
        0 <= id < body.obligations@.len(),
    ensures
        true_in(new.tm_opt(e.violation_terms@[id]), env) == whole_run(
            body,
            given_by(body, syms, env),
        ).failed[id],
{
    let n = body.blocks@.len();
    smt_encode::lemma_whole_grows(body, syms, n);
    lemma_keeps_up(body, syms, env, n);
    lemma_front_runs(body, given_by(body, syms, env), n);
    let w = smt_encode::whole(body, syms, n);
    assert(smt_encode::opt_tms(new, e.violation_terms@)[id] == w.violated[id]);
    assert(true_in(w.violated[id], env) == whole_run(body, given_by(body, syms, env)).failed[id]);
}

/// The method is ended in an orderly way for just those values of the symbols with
/// which every assumption holds and the last block is one that returns or halts.
pub proof fn law_reach_is_an_orderly_end(
    e: Encoding,
    body: Body,
    frame: Seq<char>,
    new: Terms,
    old: Terms,
    syms: Seq<Tm>,
    env: spec_fn(nat) -> i32,
)
    requires
        smt_encode::encodes(e, body, frame, new, old, syms),
        straight(body),
    ensures
        ({
            let p = whole_run(body, given_by(body, syms, env));
            meaning::truth_of(new.tm(e.reach_term), env) == (p.live && smt_encode::ends(
                body.blocks@[p.last],
            ))
        }),
{
    let n = body.blocks@.len();
    let given = given_by(body, syms, env);
    smt_encode::lemma_whole_grows(body, syms, n);
    lemma_keeps_up(body, syms, env, n);
    lemma_front_runs(body, given, n);
    let w = smt_encode::whole(body, syms, n);
    let (at, p) = front(body, given, n);
    lemma_reach(body, w, env, n);
    lemma_some_block_runs(body, given, n);
    if p.live && smt_encode::ends(body.blocks@[p.last]) {
        assert(entered(w, p.last, env));
    }
}

proof fn lemma_some_block_runs(body: Body, given: Given, n: nat)
    requires
        body.entry.0 < body.blocks@.len(),
    ensures
        ({
            let (at, p) = front(body, given, n);
            0 <= p.last < n || (p.last == -1 && at == Some(body.entry.0 as int))
        }),
    decreases n,
{
    if n > 0 {
        lemma_some_block_runs(body, given, (n - 1) as nat);
    }
}

/// The statement takes a value that is not computed.
pub open spec fn asks(s: Stmt) -> bool {
    s matches Stmt::Assign(_, rv) && smt_encode::request(rv) is Some
}

/// The block is one that some edge leads to, and the statement asks for a symbol.
spec fn located(body: Body, syms: Seq<Tm>, b: int, k: int) -> bool {
    &&& 0 <= b < body.blocks@.len()
    &&& 0 <= k < body.blocks@[b].stmts@.len()
    &&& smt_encode::whole(body, syms, b as nat).pcs[b] is Some
    &&& asks(body.blocks@[b].stmts@[k])
}

/// The number of symbols that were asked for before a statement.
spec fn index(body: Body, syms: Seq<Tm>, b: int, k: int) -> nat {
    smt_encode::flow(
        body,
        body.blocks@[b].stmts@,
        smt_encode::block_start(b, smt_encode::whole(body, syms, b as nat)),
        syms,
        k as nat,
    ).reqs.len()
}

proof fn lemma_blocks_grow(body: Body, syms: Seq<Tm>, n: nat, m: nat)
    requires
        n <= m,
    ensures
        smt_encode::whole(body, syms, n).reqs.len() <= smt_encode::whole(body, syms, m).reqs.len(),
    decreases m,
{
    if n < m {
        lemma_blocks_grow(body, syms, n, (m - 1) as nat);
        smt_encode::lemma_after_grows(
            body,
            smt_encode::block_at(body, m - 1),
            smt_encode::whole(body, syms, (m - 1) as nat),
            syms,
        );
    }
}

proof fn lemma_index_fits(body: Body, syms: Seq<Tm>, b: int, k: int)
    requires
        !smt_encode::goes_round(body),
        located(body, syms, b, k),
    ensures
        body.vars@.len() <= index(body, syms, b, k) < smt_encode::whole(
            body,
            syms,
            (b + 1) as nat,
        ).reqs.len(),
{
    let w = smt_encode::whole(body, syms, b as nat);
    let stmts = body.blocks@[b].stmts@;
    let f = smt_encode::block_start(b, w);
    smt_encode::lemma_whole_grows(body, syms, b as nat);
    smt_encode::lemma_flow_grows(body, stmts, f, syms, k as nat);
    smt_encode::lemma_flow_step_grows(body, stmts, f, syms, (k + 1) as nat, stmts.len());
    let g = smt_encode::block_end(body, b, w, syms);
    smt_encode::lemma_leave_reqs(
        Whole {
            pcs: w.pcs.update(b, Some(g.pc)),
            envs: w.envs,
            reqs: g.reqs,
            facts: g.facts,
            violated: g.violated,
        },
        body.blocks@[b].term,
        g.pc,
        g.vars,
    );
    assert(smt_encode::whole(body, syms, (b + 1) as nat).reqs == g.reqs);
    assert(smt_encode::flow(body, stmts, f, syms, (k + 1) as nat).reqs.len() == index(
        body,
        syms,
        b,
        k,
    ) + 1);
}

/// Two statements do not take the same symbol.
proof fn lemma_index_differs(body: Body, syms: Seq<Tm>, b: int, k: int, c: int, j: int)
    requires
        !smt_encode::goes_round(body),
        located(body, syms, b, k),
        located(body, syms, c, j),
        b < c || (b == c && k < j),
    ensures
        index(body, syms, b, k) < index(body, syms, c, j),
{
    let stmts = body.blocks@[c].stmts@;
    let f = smt_encode::block_start(c, smt_encode::whole(body, syms, c as nat));
    if b < c {
        lemma_index_fits(body, syms, b, k);
        lemma_blocks_grow(body, syms, (b + 1) as nat, c as nat);
        smt_encode::lemma_flow_grows(body, stmts, f, syms, j as nat);
    } else {
        smt_encode::lemma_flow_step_grows(body, stmts, f, syms, (k + 1) as nat, j as nat);
        assert(smt_encode::flow(body, stmts, f, syms, (k + 1) as nat).reqs.len() == index(
            body,
            syms,
            b,
            k,
        ) + 1);
    }
}

/// Values of the symbols with which a run is given what it should be.
spec fn env_for(body: Body, syms: Seq<Tm>, given: Given) -> spec_fn(nat) -> i32 {
    |pos: nat|
        if exists|i: int| 0 <= i < body.vars@.len() && smt_encode::at(#[trigger] syms[i]) == pos {
            let i = choose|i: int|
                0 <= i < body.vars@.len() && smt_encode::at(#[trigger] syms[i]) == pos;
            given.vars[i]
        } else {
            let (b, k) = choose|b: int, k: int| #[trigger]
                located(body, syms, b, k) && smt_encode::at(symbol_of(body, syms, b, k)) == pos;
            (given.chosen)(b, k)
        }
}

/// Every run can be given by values of the symbols.
proof fn lemma_env_for(body: Body, syms: Seq<Tm>, frame: Seq<char>, from: nat, given: Given)
    requires
        !smt_encode::goes_round(body),
        smt_encode::answers(
            syms,
            smt_encode::whole(body, syms, body.blocks@.len()).reqs,
            frame,
            from,
        ),
        given.vars.len() == body.vars@.len(),
    ensures
        ({
            let env = env_for(body, syms, given);
            &&& given_by(body, syms, env).vars == given.vars
            &&& forall|b: int, k: int| #[trigger]
                located(body, syms, b, k) ==> meaning::value_of(symbol_of(body, syms, b, k), env)
                    == (given.chosen)(b, k)
        }),
{
    let n = body.blocks@.len();
    let env = env_for(body, syms, given);
    smt_encode::lemma_whole_grows(body, syms, n);
    assert forall|i: int| 0 <= i < body.vars@.len() implies meaning::value_of(#[trigger] syms[i], env)
        == given.vars[i] by {
        let pos = smt_encode::at(syms[i]);
        let j = choose|j: int|
            0 <= j < body.vars@.len() && smt_encode::at(#[trigger] syms[j]) == pos;
        assert(0 <= j < body.vars@.len() && smt_encode::at(syms[j]) == pos);
        assert(i == j);
    }
    assert(given_by(body, syms, env).vars =~= given.vars);
    assert forall|b: int, k: int| #[trigger] located(body, syms, b, k) implies meaning::value_of(
        symbol_of(body, syms, b, k),
        env,
    ) == (given.chosen)(b, k) by {
        lemma_index_fits(body, syms, b, k);
        lemma_blocks_grow(body, syms, (b + 1) as nat, n);
        let x = index(body, syms, b, k) as int;
        let pos = smt_encode::at(syms[x]);
        assert(symbol_of(body, syms, b, k) == syms[x]);
        assert(!(exists|i: int|
            0 <= i < body.vars@.len() && smt_encode::at(#[trigger] syms[i]) == pos));
        let (c, j) = choose|c: int, j: int| #[trigger]
            located(body, syms, c, j) && smt_encode::at(symbol_of(body, syms, c, j)) == pos;
        assert(located(body, syms, c, j) && smt_encode::at(symbol_of(body, syms, c, j)) == pos);
        lemma_index_fits(body, syms, c, j);
        lemma_blocks_grow(body, syms, (c + 1) as nat, n);
        let y = index(body, syms, c, j) as int;
        assert(symbol_of(body, syms, c, j) == syms[y]);
        assert(x == y);
        if b < c || (b == c && k < j) {
            lemma_index_differs(body, syms, b, k, c, j);
        } else if c < b || (b == c && j < k) {
            lemma_index_differs(body, syms, c, j, b, k);
        }
    }
}

/// What was reached stays so.
spec fn marks_kept(v: Whole, w: Whole) -> bool {
    &&& v.pcs.len() == w.pcs.len()
    &&& forall|b: int| 0 <= b < w.pcs.len() && w.pcs[b] is Some ==> (#[trigger] v.pcs[b]) is Some
}

proof fn lemma_cases_mark(w: Whole, pc: Tm, vars: Seq<Tm>, value: Tm, cases: Seq<(i32, BlockId)>, n: nat)
    requires
        n <= cases.len(),
        forall|i: int| 0 <= i < cases.len() ==> (#[trigger] cases[i]).1.0 < w.pcs.len(),
    ensures
        ({
            let v = smt_encode::with_cases(w, pc, vars, value, cases, n);
            &&& marks_kept(v, w)
            &&& forall|i: int| 0 <= i < n ==> v.pcs[(#[trigger] cases[i]).1.0 as int] is Some
        }),
    decreases n,
{
    if n > 0 {
        lemma_cases_mark(w, pc, vars, value, cases, (n - 1) as nat);
    }
}

/// Every block that an edge leads to is reached.
proof fn lemma_leave_marks(w: Whole, t: Terminator, pc: Tm, vars: Seq<Tm>)
    requires
        forall|i: int|
            0 <= i < ir::term_targets(t).len() ==> (#[trigger] ir::term_targets(t)[i]).0 < w.pcs.len(),
    ensures
        ({
            let v = smt_encode::leave(w, t, pc, vars);
            &&& marks_kept(v, w)
            &&& forall|i: int|
                0 <= i < ir::term_targets(t).len() ==> v.pcs[(#[trigger] ir::term_targets(t)[i]).0 as int] is Some
        }),
{
    let targets = ir::term_targets(t);
    match t {
        Terminator::Goto(b) => {
            assert(targets[0] == b);
        },
        Terminator::Branch { then_, else_, .. } => {
            assert(targets[0] == then_ && targets[1] == else_);
        },
        Terminator::Switch { value, cases, default } => {
            let n = cases@.len();
            assert forall|i: int| 0 <= i < n implies (#[trigger] cases@[i]).1.0 < w.pcs.len() by {
                assert(targets[i] == cases@[i].1);
            }
            assert(targets[n as int] == default);
            lemma_cases_mark(w, pc, vars, smt_encode::operand_tm(vars, value), cases@, n);
            let v = smt_encode::leave(w, t, pc, vars);
            assert forall|i: int| 0 <= i < targets.len() implies v.pcs[(#[trigger] targets[i]).0 as int] is Some by {
                if i < n {
                    assert(targets[i] == cases@[i].1);
                }
            }
        },
        _ => {},
    }
}

/// A run is only ever at blocks that are encoded.
proof fn lemma_run_is_encoded(body: Body, syms: Seq<Tm>, given: Given, n: nat)
    requires
        straight(body),
        n <= body.blocks@.len(),
    ensures
        smt_encode::whole(body, syms, n).pcs.len() == body.blocks@.len(),
        front(body, given, n).0 matches Some(b) ==> smt_encode::whole(body, syms, n).pcs[b] is Some,
    decreases n,
{
    if n > 0 {
        let m = (n - 1) as nat;
        lemma_run_is_encoded(body, syms, given, m);
        lemma_front_runs(body, given, m);
        let w = smt_encode::whole(body, syms, m);
        let (at, p) = front(body, given, m);
        let block = body.blocks@[m as int];
        assert(block.in_range(body.blocks@.len(), body.vars@.len(), body.obligations@.len()));
        if w.pcs[m as int] is Some {
            let g = smt_encode::block_end(body, m as int, w, syms);
            let mid = Whole {
                pcs: w.pcs.update(m as int, Some(g.pc)),
                envs: w.envs,
                reqs: g.reqs,
                facts: g.facts,
                violated: g.violated,
            };
            lemma_leave_marks(mid, block.term, g.pc, g.vars);
            if at == Some(m as int) {
                let q = block_run(body, m as int, p, given);
                lemma_next_is_later(body, m as int, q.vars);
                if let Some(t) = next_block(block.term, q.vars) {
                    let k = choose|k: int|
                        0 <= k < ir::term_targets(block.term).len() && #[trigger] ir::term_targets(
                            block.term,
                        )[k] == t;
                    assert(ir::term_targets(block.term)[k] == t);
                }
            }
        }
    }
}

proof fn lemma_same_stmts(body: Body, syms: Seq<Tm>, b: int, p: Point, g: Given, h: Given, n: nat)
    requires
        0 <= b < body.blocks@.len(),
        n <= body.blocks@[b].stmts@.len(),
        smt_encode::whole(body, syms, b as nat).pcs[b] is Some,
        forall|c: int, k: int| #[trigger]
            located(body, syms, c, k) ==> (g.chosen)(c, k) == (h.chosen)(c, k),
    ensures
        stmts_run(body, b, p, g, n) == stmts_run(body, b, p, h, n),
    decreases n,
{
    if n > 0 {
        lemma_same_stmts(body, syms, b, p, g, h, (n - 1) as nat);
        if asks(body.blocks@[b].stmts@[n - 1]) {
            assert(located(body, syms, b, n - 1));
        }
    }
}

/// A run depends on nothing but what its statements ask for.
proof fn lemma_same_run(body: Body, syms: Seq<Tm>, g: Given, h: Given, n: nat)
    requires
        straight(body),
        n <= body.blocks@.len(),
        g.vars == h.vars,
        forall|c: int, k: int| #[trigger]
            located(body, syms, c, k) ==> (g.chosen)(c, k) == (h.chosen)(c, k),
    ensures
        front(body, g, n) == front(body, h, n),
    decreases n,
{
    if n > 0 {
        let m = (n - 1) as nat;
        lemma_same_run(body, syms, g, h, m);
        let (at, p) = front(body, g, m);
        if at == Some(m as int) {
            lemma_run_is_encoded(body, syms, g, m);
            lemma_same_stmts(body, syms, m as int, p, g, h, body.blocks@[m as int].stmts@.len());
        }
    }
}

/// A new object is made by the statement.
pub open spec fn allocates(s: Stmt) -> bool {
    s matches Stmt::Assign(_, rv) && rv is New
}

/// The references to new objects are not null.
pub open spec fn objects_exist(body: Body, given: Given) -> bool {
    forall|b: int, k: int|
        0 <= b < body.blocks@.len() && 0 <= k < body.blocks@[b].stmts@.len() && allocates(
            body.blocks@[b].stmts@[k],
        ) ==> #[trigger] (given.chosen)(b, k) != 0
}

/// The fact is that some new object is not null.
spec fn about_object(body: Body, syms: Seq<Tm>, fact: Tm) -> bool {
    exists|b: int, k: int|
        #[trigger] located(body, syms, b, k) && allocates(body.blocks@[b].stmts@[k]) && fact
            == term::tm_not(term::tm_eq(symbol_of(body, syms, b, k), term::bv32(0)))
}

proof fn lemma_flow_facts(body: Body, syms: Seq<Tm>, b: int, n: nat)
    requires
        0 <= b < body.blocks@.len(),
        n <= body.blocks@[b].stmts@.len(),
        smt_encode::whole(body, syms, b as nat).pcs[b] is Some,
        forall|i: int|
            0 <= i < smt_encode::whole(body, syms, b as nat).facts.len() ==> about_object(
                body,
                syms,
                #[trigger] smt_encode::whole(body, syms, b as nat).facts[i],
            ),
    ensures
        ({
            let f = smt_encode::flow(
                body,
                body.blocks@[b].stmts@,
                smt_encode::block_start(b, smt_encode::whole(body, syms, b as nat)),
                syms,
                n,
            );
            forall|i: int| 0 <= i < f.facts.len() ==> about_object(body, syms, #[trigger] f.facts[i])
        }),
    decreases n,
{
    if n > 0 {
        let m = (n - 1) as nat;
        lemma_flow_facts(body, syms, b, m);
        let stmts = body.blocks@[b].stmts@;
        let w = smt_encode::whole(body, syms, b as nat);
        let f = smt_encode::flow(body, stmts, smt_encode::block_start(b, w), syms, m);
        let g = smt_encode::flow(body, stmts, smt_encode::block_start(b, w), syms, n);
        assert forall|i: int| 0 <= i < g.facts.len() implies about_object(
            body,
            syms,
            #[trigger] g.facts[i],
        ) by {
            if i < f.facts.len() {
                assert(g.facts[i] == f.facts[i]);
            } else {
                assert(located(body, syms, b, m as int));
                assert(symbol_of(body, syms, b, m as int) == syms[f.reqs.len() as int]);
            }
        }
    }
}

proof fn lemma_leave_facts(w: Whole, t: Terminator, pc: Tm, vars: Seq<Tm>)
    ensures
        smt_encode::leave(w, t, pc, vars).facts == w.facts,
{
    if let Terminator::Switch { value, cases, .. } = t {
        lemma_cases_facts(
            w,
            pc,
            vars,
            smt_encode::operand_tm(vars, value),
            cases@,
            cases@.len(),
        );
    }
}

proof fn lemma_cases_facts(w: Whole, pc: Tm, vars: Seq<Tm>, value: Tm, cases: Seq<(i32, BlockId)>, n: nat)
    ensures
        smt_encode::with_cases(w, pc, vars, value, cases, n).facts == w.facts,
    decreases n,
{
    if n > 0 {
        lemma_cases_facts(w, pc, vars, value, cases, (n - 1) as nat);
    }
}

proof fn lemma_facts(body: Body, syms: Seq<Tm>, n: nat)
    requires
        !smt_encode::goes_round(body),
        n <= body.blocks@.len(),
    ensures
        forall|i: int|
            0 <= i < smt_encode::whole(body, syms, n).facts.len() ==> about_object(
                body,
                syms,
                #[trigger] smt_encode::whole(body, syms, n).facts[i],
            ),
    decreases n,
{
    if n > 0 {
        let m = (n - 1) as nat;
        lemma_facts(body, syms, m);
        let w = smt_encode::whole(body, syms, m);
        if w.pcs[m as int] is Some {
            let block = body.blocks@[m as int];
            lemma_flow_facts(body, syms, m as int, block.stmts@.len());
            let g = smt_encode::block_end(body, m as int, w, syms);
            lemma_leave_facts(
                Whole {
                    pcs: w.pcs.update(m as int, Some(g.pc)),
                    envs: w.envs,
                    reqs: g.reqs,
                    facts: g.facts,
                    violated: g.violated,
                },
                block.term,
                g.pc,
                g.vars,
            );
            assert(smt_encode::whole(body, syms, n).facts == g.facts);
        }
    }
}

/// Everything that the store asserts holds.
pub open spec fn store_holds(ts: Terms, env: spec_fn(nat) -> i32) -> bool {
    forall|i: int|
        0 <= i < ts.asserted().len() ==> meaning::truth_of(
            ts.tm(#[trigger] ts.asserted()[i]),
            env,
        )
}

/// If the violation of an obligation cannot hold together with what the store
/// asserts, no run of the body fails a check of it, whatever the run is given.
pub proof fn law_unsatisfiable_violation_means_safe(
    e: Encoding,
    body: Body,
    frame: Seq<char>,
    new: Terms,
    old: Terms,
    syms: Seq<Tm>,
    given: Given,
    id: int,
)
    requires
        smt_encode::encodes(e, body, frame, new, old, syms),
        old.asserted().len() == 0,
        straight(body),
        0 <= id < body.obligations@.len(),
        forall|env: spec_fn(nat) -> i32| #[trigger]
            store_holds(new, env) ==> !true_in(new.tm_opt(e.violation_terms@[id]), env),
        given.vars.len() == body.vars@.len(),
        objects_exist(body, given),
    ensures
        !whole_run(body, given).failed[id],
{
    let n = body.blocks@.len();
    let env = env_for(body, syms, given);
    let asked = given_by(body, syms, env);
    let w = smt_encode::whole(body, syms, n);
    lemma_env_for(body, syms, frame, old.size(), given);
    assert forall|c: int, k: int| #[trigger] located(body, syms, c, k) implies (given.chosen)(c, k)
        == (asked.chosen)(c, k) by {
        assert((asked.chosen)(c, k) == meaning::value_of(symbol_of(body, syms, c, k), env));
    }
    lemma_same_run(body, syms, given, asked, n);
    lemma_front_runs(body, given, n);
    lemma_front_runs(body, asked, n);
    lemma_facts(body, syms, n);
    assert forall|i: int| 0 <= i < new.asserted().len() implies meaning::truth_of(
        new.tm(#[trigger] new.asserted()[i]),
        env,
    ) by {
        let fact = w.facts[i];
        assert(new.tm(new.asserted()[old.asserted().len() + i]) == fact);
        assert(about_object(body, syms, fact));
        let (b, k) = choose|b: int, k: int|
            #[trigger] located(body, syms, b, k) && allocates(body.blocks@[b].stmts@[k]) && fact
                == term::tm_not(term::tm_eq(symbol_of(body, syms, b, k), term::bv32(0)));
        assert(located(body, syms, b, k));
        assert((given.chosen)(b, k) != 0);
        meaning::law_conditions_are_tests_for_zero(symbol_of(body, syms, b, k), env);
        reveal_with_fuel(meaning::truth_of, 3);
    }
    assert(store_holds(new, env));
    law_violation_is_a_failing_check(e, body, frame, new, old, syms, env, id);
}

} // verus!
