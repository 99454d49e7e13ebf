//! What terms over the reals mean, and that a model of the formula for an obligation is
//! the start of a run over the reals that fails it.

use vstd::prelude::*;
use vstd::string::*;

use super::encode;
use super::encode::MathFn;
use super::paths;
use super::paths::{Path, MAX_NRA_DEPTH};
use super::terms::{Real, RealOp};
use crate::ir;
use crate::ir::{BinOp, BlockId, Body, Const, ObligationId, Operand, Rvalue, Stmt, Terminator};

verus! {

/// What the symbols, the floating-point numbers and the functions stand for.
pub struct World {
    pub symbols: spec_fn(nat) -> real,
    pub float: spec_fn(u32) -> real,
    pub double: spec_fn(u64) -> real,
    pub function: spec_fn(RealOp, real) -> real,
    pub pi: real,
}

/// The greatest integer that is not above.
pub open spec fn whole_below(x: real) -> int {
    choose|n: int| #[trigger] between(n, x)
}

/// The integer is not above the number, and the next one is.
pub open spec fn between(n: int, x: real) -> bool {
    n as real <= x && x < (n + 1) as real
}

/// The value of a term.
pub open spec fn number(t: Real, w: World) -> real
    decreases t,
{
    match t {
        Real::Number(n) => n as int as real,
        Real::Half => (1 as real) / (2 as real),
        Real::Float(b) => (w.float)(b),
        Real::Double(b) => (w.double)(b),
        Real::Symbol(_, k) => (w.symbols)(k),
        Real::App(op, args) => if op == RealOp::Pi {
            w.pi
        } else if op == RealOp::Ite && args.len() == 3 {
            if holds(args[0], w) {
                number(args[1], w)
            } else {
                number(args[2], w)
            }
        } else if args.len() == 2 {
            let (x, y) = (number(args[0], w), number(args[1], w));
            match op {
                RealOp::Add => x + y,
                RealOp::Sub => x - y,
                RealOp::Mult => x * y,
                _ => x / y,
            }
        } else if args.len() == 1 {
            let x = number(args[0], w);
            match op {
                RealOp::Neg => (0 as real) - x,
                RealOp::ToReal => x,
                RealOp::ToInteger => whole_below(x) as real,
                _ => (w.function)(op, x),
            }
        } else {
            0 as real
        },
    }
}

/// Does the condition hold?
pub open spec fn holds(t: Real, w: World) -> bool
    decreases t,
{
    match t {
        Real::App(op, args) => match op {
            RealOp::True => true,
            RealOp::False => false,
            RealOp::Not => args.len() == 1 && !holds(args[0], w),
            RealOp::And => all_of(args, args.len(), w),
            RealOp::Or => any_of(args, args.len(), w),
            _ => args.len() == 2 && {
                let (x, y) = (number(args[0], w), number(args[1], w));
                match op {
                    RealOp::Equal => x == y,
                    RealOp::Lt => x < y,
                    RealOp::Leq => x <= y,
                    RealOp::Gt => x > y,
                    RealOp::Geq => x >= y,
                    _ => false,
                }
            },
        },
        _ => false,
    }
}

/// All of the first `n` conditions hold.
pub open spec fn all_of(args: Seq<Real>, n: nat, w: World) -> bool
    decreases args, n,
{
    0 < n <= args.len() ==> all_of(args, (n - 1) as nat, w) && holds(args[n - 1], w)
}

/// One of the first `n` conditions holds.
pub open spec fn any_of(args: Seq<Real>, n: nat, w: World) -> bool
    decreases args, n,
{
    0 < n <= args.len() && (any_of(args, (n - 1) as nat, w) || holds(args[n - 1], w))
}

/// The result of an operator on reals. Comparisons give 1 or 0, and the remainder is that
/// of the quotient rounded down.
pub open spec fn binary(op: BinOp, x: real, y: real) -> real {
    let (yes, no) = (1 as real, 0 as real);
    match op {
        BinOp::Add => x + y,
        BinOp::Sub => x - y,
        BinOp::Mul => x * y,
        BinOp::Div => x / y,
        BinOp::Rem => x - whole_below(x / y) as real * y,
        BinOp::Eq => if x == y { yes } else { no },
        BinOp::Ne => if x == y { no } else { yes },
        BinOp::Lt => if x < y { yes } else { no },
        BinOp::Le => if x <= y { yes } else { no },
        BinOp::Gt => if x > y { yes } else { no },
        BinOp::Ge => if x >= y { yes } else { no },
        _ => no,
    }
}

/// The formula for an operator means the operator on reals.
pub proof fn law_operators_compute(op: BinOp, a: Real, b: Real, w: World)
    ensures
        number(encode::binary(op, a, b), w) == binary(op, number(a, w), number(b, w)),
{
    reveal_with_fuel(number, 6);
    reveal_with_fuel(holds, 6);
}

/// The value of a function that is known by name; the given one of those that are not.
pub open spec fn function(f: MathFn, x: real, y: real, given: real, w: World) -> real {
    let grown = (w.function)(RealOp::Exponential, x);
    let shrunk = (w.function)(RealOp::Exponential, (0 as real) - x);
    match f {
        MathFn::Direct(op) => (w.function)(op, x),
        MathFn::Atan2 => (w.function)(RealOp::Arctangent, x / y),
        MathFn::Abs => if x < (0 as real) { (0 as real) - x } else { x },
        MathFn::Min => if x <= y { x } else { y },
        MathFn::Max => if x >= y { x } else { y },
        MathFn::Ceil => (0 as real) - whole_below((0 as real) - x) as real,
        MathFn::Floor => whole_below(x) as real,
        MathFn::Round => whole_below(x + (1 as real) / (2 as real)) as real,
        MathFn::ToRadians => w.pi / (180 as real) * x,
        MathFn::ToDegrees => (180 as real) / w.pi * x,
        MathFn::Sinh => (grown - shrunk) / (2 as real),
        MathFn::Cosh => (grown + shrunk) / (2 as real),
        MathFn::Tanh => (grown - shrunk) / (grown + shrunk),
        _ => given,
    }
}

/// The function is one with a value of its own that one term gives.
pub open spec fn known(f: MathFn) -> bool {
    &&& !(f is Log) && !(f is Log10) && !(f is Pow) && !(f is Unknown)
    &&& f matches MathFn::Direct(op) ==> op != RealOp::Pi && op != RealOp::Neg && op
        != RealOp::ToReal && op != RealOp::ToInteger && op != RealOp::Ite
}

/// The formula for a function means the function.
pub proof fn law_functions_compute(f: MathFn, args: Seq<Real>, given: real, w: World)
    requires
        args.len() >= encode::arity(f),
        known(f),
    ensures
        encode::value(f, args) is Ok,
        number(encode::value(f, args)->Ok_0, w) == function(
            f,
            number(args[0], w),
            number(args[1], w),
            given,
            w,
        ),
{
    reveal_with_fuel(number, 6);
    reveal_with_fuel(holds, 6);
}

// ---------------------------------------------------------------------------
// Runs over the reals
// ---------------------------------------------------------------------------

/// The value of an operand. What is no number is 0.
pub open spec fn operand(vals: Seq<real>, o: Operand, w: World) -> real {
    match o {
        Operand::Var(v) => vals[v.0 as int],
        Operand::Const(Const::Int(n)) => n as int as real,
        Operand::Const(Const::Long(n)) => n as int as real,
        Operand::Const(Const::Float(b)) => if encode::finite32(b) {
            (w.float)(b)
        } else {
            0 as real
        },
        Operand::Const(Const::Double(b)) => if encode::finite64(b) {
            (w.double)(b)
        } else {
            0 as real
        },
        _ => 0 as real,
    }
}

/// The value of an rvalue; the given one if it is not computed.
pub open spec fn rvalue(vals: Seq<real>, rv: Rvalue, given: real, w: World) -> real {
    match rv {
        Rvalue::Use(o) | Rvalue::Cast(_, o) => operand(vals, o, w),
        Rvalue::Bin(op, a, b) => binary(op, operand(vals, a, w), operand(vals, b, w)),
        Rvalue::Neg(o) => (0 as real) - operand(vals, o, w),
        Rvalue::Cmp(a, b) => {
            let (x, y) = (operand(vals, a, w), operand(vals, b, w));
            if x < y {
                -1 as real
            } else if x == y {
                0 as real
            } else {
                1 as real
            }
        },
        Rvalue::Call { target, args, .. } => function(
            encode::math_fn(target@),
            operand(vals, args@[0], w),
            operand(vals, args@[1], w),
            given,
            w,
        ),
        _ => given,
    }
}

/// The values after the first `n` statements; `given` has what is not computed.
pub open spec fn after(vals: Seq<real>, stmts: Seq<Stmt>, given: spec_fn(int) -> real, w: World, n: nat) -> Seq<
    real,
>
    decreases n,
{
    if n == 0 {
        vals
    } else {
        let had = after(vals, stmts, given, w, (n - 1) as nat);
        match stmts[n - 1] {
            Stmt::Assign(v, rv) => had.update(v.0 as int, rvalue(had, rv, given(n - 1), w)),
            _ => had,
        }
    }
}

/// Every assumption among the first `n` statements holds.
pub open spec fn passes(vals: Seq<real>, stmts: Seq<Stmt>, given: spec_fn(int) -> real, w: World, n: nat) -> bool {
    forall|j: int|
        0 <= j < n ==> (#[trigger] stmts[j] matches Stmt::Assume(o) ==> operand(
            after(vals, stmts, given, w, j as nat),
            o,
            w,
        ) != 0 as real)
}

/// Does a run go from the block to the other one with these values?
pub open spec fn goes(t: Terminator, vals: Seq<real>, to: BlockId, w: World) -> bool {
    match t {
        Terminator::Goto(b) => to == b,
        Terminator::Branch { cond, then_, else_ } => to == if operand(vals, cond, w) != 0 as real {
            then_
        } else {
            else_
        },
        Terminator::Switch { value, cases, default } => {
            ||| to == default && forall|i: int|
                0 <= i < cases@.len() ==> operand(vals, value, w) != (#[trigger] cases@[i]).0 as int as real
            ||| exists|i: int|
                0 <= i < cases@.len() && operand(vals, value, w) == (#[trigger] cases@[i]).0 as int as real
                    && to == cases@[i].1
        },
        _ => false,
    }
}

/// The obligation fails at statement `j`.
pub open spec fn fails_at(
    body: Body,
    oid: ObligationId,
    stmts: Seq<Stmt>,
    vals: Seq<real>,
    given: spec_fn(int) -> real,
    w: World,
    j: int,
) -> bool {
    &&& 0 <= j < stmts.len()
    &&& stmts[j] == Stmt::Check(oid)
    &&& passes(vals, stmts, given, w, j as nat)
    &&& operand(
        after(vals, stmts, given, w, j as nat),
        body.obligations@[oid.0 as int].cond,
        w,
    ) == 0 as real
}

/// A block on a run: the values before it, and what is not computed in it.
pub struct Visit {
    pub block: BlockId,
    pub vals: Seq<real>,
    pub given: spec_fn(int) -> real,
}

/// The values at the end of the block.
pub open spec fn end_of(body: Body, v: Visit, w: World) -> Seq<real> {
    let stmts = body.blocks@[v.block.0 as int].stmts@;
    after(v.vals, stmts, v.given, w, stmts.len())
}

/// The block is left for the next one of the run.
pub open spec fn continues(body: Body, v: Visit, next: Visit, w: World) -> bool {
    let b = body.blocks@[v.block.0 as int];
    &&& passes(v.vals, b.stmts@, v.given, w, b.stmts@.len())
    &&& goes(b.term, end_of(body, v, w), next.block, w)
    &&& next.vals == end_of(body, v, w)
}

/// The blocks are those of a run that fails the obligation in the last of them.
pub open spec fn failing_run(body: Body, oid: ObligationId, run: Seq<Visit>, w: World) -> bool {
    &&& run.len() > 0
    &&& forall|i: int| 0 <= i < run.len() - 1 ==> continues(body, #[trigger] run[i], run[i + 1], w)
    &&& exists|j: int|
        fails_at(
            body,
            oid,
            body.blocks@[run.last().block.0 as int].stmts@,
            run.last().vals,
            run.last().given,
            w,
            j,
        )
}

/// A run from the block with the values comes, through at most `k` blocks, to the
/// obligation and fails it.
pub open spec fn fails(body: Body, oid: ObligationId, block: BlockId, vals: Seq<real>, w: World, k: nat) -> bool {
    exists|run: Seq<Visit>| #[trigger]
        failing_run(body, oid, run, w) && run.len() <= k && run[0].block == block && run[0].vals == vals
}

spec fn numbers(v: Seq<Real>, w: World) -> Seq<real> {
    v.map_values(|t: Real| number(t, w))
}

/// All constraints hold.
pub open spec fn all_hold(conds: Seq<Real>, w: World) -> bool {
    forall|i: int| 0 <= i < conds.len() ==> holds(#[trigger] conds[i], w)
}

/// Operands name variables, and calls have their arguments.
pub open spec fn in_range(body: Body) -> bool {
    body.well_formed() && paths::encodable(body)
}

proof fn lemma_operand(vars: Seq<Real>, o: Operand, w: World)
    requires
        o.in_range(vars.len()),
    ensures
        number(encode::operand(vars, o), w) == operand(numbers(vars, w), o, w),
        holds(paths::is_zero(encode::operand(vars, o)), w) <==> operand(numbers(vars, w), o, w)
            == 0 as real,
        holds(paths::not_zero(encode::operand(vars, o)), w) <==> operand(numbers(vars, w), o, w)
            != 0 as real,
{
    reveal_with_fuel(number, 3);
    reveal_with_fuel(holds, 4);
}

proof fn lemma_rvalue(vars: Seq<Real>, rv: Rvalue, symbols: nat, w: World)
    requires
        ir::operands_in_range(ir::rvalue_operands(rv), vars.len()),
        encode::encodable(rv),
    ensures
        number(encode::rvalue(vars, rv, symbols).0, w) == rvalue(
            numbers(vars, w),
            rv,
            (w.symbols)(symbols),
            w,
        ),
{
    let ops = ir::rvalue_operands(rv);
    let given = (w.symbols)(symbols);
    match rv {
        Rvalue::Use(o) | Rvalue::Cast(_, o) | Rvalue::Neg(o) => {
            assert(ops[0] == o);
            lemma_operand(vars, o, w);
            reveal_with_fuel(number, 3);
        },
        Rvalue::Bin(op, a, b) => {
            assert(ops[0] == a && ops[1] == b);
            lemma_operand(vars, a, w);
            lemma_operand(vars, b, w);
            law_operators_compute(op, encode::operand(vars, a), encode::operand(vars, b), w);
        },
        Rvalue::Cmp(a, b) => {
            assert(ops[0] == a && ops[1] == b);
            lemma_operand(vars, a, w);
            lemma_operand(vars, b, w);
            reveal_with_fuel(number, 5);
            reveal_with_fuel(holds, 5);
        },
        Rvalue::Call { target, args, .. } => {
            let f = encode::math_fn(target@);
            let terms = encode::operands(vars, args@);
            if known(f) {
                law_functions_compute(f, terms, given, w);
                if encode::arity(f) >= 1 {
                    assert(ops[0] == args@[0]);
                    lemma_operand(vars, args@[0], w);
                    assert(terms[0] == encode::operand(vars, args@[0]));
                }
                if encode::arity(f) >= 2 {
                    assert(ops[1] == args@[1]);
                    lemma_operand(vars, args@[1], w);
                    assert(terms[1] == encode::operand(vars, args@[1]));
                }
            }
        },
        _ => {},
    }
}

/// What is not computed is what its symbol stands for.
spec fn given_by(body: Body, oid: ObligationId, p: Path, symbols: nat, stmts: Seq<Stmt>, w: World) -> spec_fn(
    int,
) -> real {
    |j: int| (w.symbols)(paths::walked(body, oid, p, symbols, stmts, j as nat).symbols)
}

proof fn lemma_walk(body: Body, oid: ObligationId, p: Path, symbols: nat, stmts: Seq<Stmt>, n: nat, w: World)
    requires
        body.well_formed(),
        p.vars.len() == body.vars@.len(),
        n <= stmts.len(),
        oid.0 < body.obligations@.len(),
        forall|j: int|
            0 <= j < stmts.len() ==> ir::stmt_in_range(
                #[trigger] stmts[j],
                body.vars@.len(),
                body.obligations@.len(),
            ) && (stmts[j] matches Stmt::Assign(_, rv) ==> encode::encodable(rv)),
    ensures
        ({
            let k = paths::walked(body, oid, p, symbols, stmts, n);
            let given = given_by(body, oid, p, symbols, stmts, w);
            let vals = numbers(p.vars, w);
            &&& k.path.vars.len() == p.vars.len()
            &&& numbers(k.path.vars, w) == after(vals, stmts, given, w, n)
            &&& all_hold(k.path.conds, w) ==> passes(vals, stmts, given, w, n)
            &&& forall|e: int|
                0 <= e < k.errors.len() && all_hold(#[trigger] k.errors[e], w) ==> exists|j: int|
                    fails_at(body, oid, stmts, vals, given, w, j)
        }),
    decreases n,
{
    let k = paths::walked(body, oid, p, symbols, stmts, n);
    let given = given_by(body, oid, p, symbols, stmts, w);
    let vals = numbers(p.vars, w);
    if n > 0 {
        let m = (n - 1) as nat;
        lemma_walk(body, oid, p, symbols, stmts, m, w);
        let h = paths::walked(body, oid, p, symbols, stmts, m);
        let s = stmts[m as int];
        assert(ir::stmt_in_range(s, body.vars@.len(), body.obligations@.len()));
        assert(k == paths::stepped(body, oid, h, s));
        match s {
            Stmt::Assign(v, rv) => {
                lemma_rvalue(h.path.vars, rv, h.symbols, w);
                assert(numbers(k.path.vars, w) =~= after(vals, stmts, given, w, n));
            },
            Stmt::Assume(o) => {
                lemma_operand(h.path.vars, o, w);
                if all_hold(k.path.conds, w) {
                    let c = paths::not_zero(encode::operand(h.path.vars, o));
                    assert(k.path.conds[h.path.conds.len() as int] == c);
                    assert forall|i: int| 0 <= i < h.path.conds.len() implies holds(
                        #[trigger] h.path.conds[i],
                        w,
                    ) by {
                        assert(k.path.conds[i] == h.path.conds[i]);
                    }
                }
            },
            Stmt::Check(id) => {
                if id == oid {
                    let cond = body.obligations@[oid.0 as int].cond;
                    assert(cond.in_range(body.vars@.len()));
                    lemma_operand(h.path.vars, cond, w);
                    let last = h.path.conds.push(paths::is_zero(encode::operand(h.path.vars, cond)));
                    assert forall|e: int| 0 <= e < k.errors.len() && all_hold(
                        #[trigger] k.errors[e],
                        w,
                    ) implies exists|j: int| fails_at(body, oid, stmts, vals, given, w, j) by {
                        if e < h.errors.len() {
                            assert(k.errors[e] == h.errors[e]);
                        } else {
                            assert(k.errors[e] == last);
                            assert(holds(last[h.path.conds.len() as int], w));
                            assert forall|i: int| 0 <= i < h.path.conds.len() implies holds(
                                #[trigger] h.path.conds[i],
                                w,
                            ) by {
                                assert(last[i] == h.path.conds[i]);
                            }
                            assert(fails_at(body, oid, stmts, vals, given, w, m as int));
                        }
                    }
                }
            },
            _ => {},
        }
    }
}

proof fn lemma_prefix_holds(conds: Seq<Real>, more: Seq<Real>, w: World)
    requires
        conds.len() <= more.len(),
        more.take(conds.len() as int) == conds,
        all_hold(more, w),
    ensures
        all_hold(conds, w),
{
    assert forall|i: int| 0 <= i < conds.len() implies holds(#[trigger] conds[i], w) by {
        assert(more[i] == more.take(conds.len() as int)[i]);
    }
}

proof fn lemma_no_case(conds: Seq<Real>, v: Real, cases: Seq<(i32, BlockId)>, n: nat, w: World)
    requires
        n <= cases.len(),
        all_hold(paths::no_case(conds, v, cases, n), w),
    ensures
        all_hold(conds, w),
        forall|i: int| 0 <= i < n ==> number(v, w) != (#[trigger] cases[i]).0 as int as real,
    decreases n,
{
    if n > 0 {
        let had = paths::no_case(conds, v, cases, (n - 1) as nat);
        let now = paths::no_case(conds, v, cases, n);
        assert(holds(now[had.len() as int], w));
        assert forall|i: int| 0 <= i < had.len() implies holds(#[trigger] had[i], w) by {
            assert(now[i] == had[i]);
        }
        reveal_with_fuel(holds, 3);
        reveal_with_fuel(number, 2);
        lemma_no_case(conds, v, cases, (n - 1) as nat, w);
    }
}

proof fn lemma_conjoined(c: Seq<Real>, w: World)
    requires
        holds(paths::conjoined(c), w),
    ensures
        all_hold(c, w),
{
    if c.len() > 1 {
        assert(holds(Real::App(RealOp::And, c), w));
        lemma_and(c, c.len(), w);
    }
}

proof fn lemma_and(c: Seq<Real>, n: nat, w: World)
    requires
        n <= c.len(),
        all_of(c, n, w),
    ensures
        forall|i: int| 0 <= i < n ==> holds(#[trigger] c[i], w),
    decreases n,
{
    if n > 0 {
        lemma_and(c, (n - 1) as nat, w);
    }
}

proof fn lemma_or(c: Seq<Real>, n: nat, w: World)
    requires
        n <= c.len(),
        any_of(c, n, w),
    ensures
        exists|i: int| 0 <= i < n && holds(#[trigger] c[i], w),
    decreases n,
{
    if holds(c[n - 1], w) {
        assert(0 <= n - 1 < n);
    } else {
        lemma_or(c, (n - 1) as nat, w);
    }
}

/// A block before a run that fails.
proof fn lemma_fails_before(
    body: Body,
    oid: ObligationId,
    v: Visit,
    to: BlockId,
    w: World,
    k: nat,
)
    requires
        ({
            let b = body.blocks@[v.block.0 as int];
            &&& passes(v.vals, b.stmts@, v.given, w, b.stmts@.len())
            &&& goes(b.term, end_of(body, v, w), to, w)
        }),
        fails(body, oid, to, end_of(body, v, w), w, k),
    ensures
        fails(body, oid, v.block, v.vals, w, k + 1),
{
    let end = end_of(body, v, w);
    let run = choose|run: Seq<Visit>| #[trigger]
        failing_run(body, oid, run, w) && run.len() <= k && run[0].block == to && run[0].vals == end;
    let all = seq![v] + run;
    assert forall|i: int| 0 <= i < all.len() - 1 implies continues(
        body,
        #[trigger] all[i],
        all[i + 1],
        w,
    ) by {
        if i > 0 {
            assert(all[i] == run[i - 1]);
            assert(all[i + 1] == run[i - 1 + 1]);
        }
    }
    assert(all.last() == run.last());
    assert(failing_run(body, oid, all, w));
}

/// A path whose constraints hold is a run that fails.
proof fn lemma_paths(
    body: Body,
    oid: ObligationId,
    block: BlockId,
    p: Path,
    symbols: nat,
    depth: nat,
    e: int,
    w: World,
)
    requires
        in_range(body),
        oid.0 < body.obligations@.len(),
        block.0 < body.blocks@.len(),
        p.vars.len() == body.vars@.len(),
        0 <= e < paths::paths(body, oid, block, p, symbols, depth).0.len(),
        all_hold(paths::paths(body, oid, block, p, symbols, depth).0[e], w),
    ensures
        fails(body, oid, block, numbers(p.vars, w), w, paths::left(depth)),
    decreases paths::left(depth), 0nat,
{
    let b = body.blocks@[block.0 as int];
    let stmts = b.stmts@;
    let n = stmts.len();
    let k = paths::walked(body, oid, p, symbols, stmts, n);
    let given = given_by(body, oid, p, symbols, stmts, w);
    let vals = numbers(p.vars, w);
    let all = paths::paths(body, oid, block, p, symbols, depth).0;
    let left = paths::left(depth);
    let here = Visit { block, vals, given };
    assert(b.in_range(body.blocks@.len(), body.vars@.len(), body.obligations@.len()));
    assert forall|j: int| 0 <= j < stmts.len() implies ir::stmt_in_range(
        #[trigger] stmts[j],
        body.vars@.len(),
        body.obligations@.len(),
    ) && (stmts[j] matches Stmt::Assign(_, rv) ==> encode::encodable(rv)) by {
        assert(body.blocks@[block.0 as int].stmts@[j] == stmts[j]);
    }
    lemma_walk(body, oid, p, symbols, stmts, n, w);
    if k.errors.len() > 0 {
        assert(all[e] == k.errors[e]);
        let run = seq![here];
        assert(run.last() == here);
        let j = choose|j: int| fails_at(body, oid, stmts, vals, given, w, j);
        assert(fails_at(body, oid, stmts, vals, given, w, j));
        assert(fails_at(
            body,
            oid,
            body.blocks@[run.last().block.0 as int].stmts@,
            run.last().vals,
            run.last().given,
            w,
            j,
        ));
        assert(failing_run(body, oid, run, w));
    } else {
        let end = after(vals, stmts, given, w, n);
        let targets = ir::term_targets(b.term);
        match b.term {
            Terminator::Goto(t) => {
                assert(targets[0] == t);
                paths::law_failing_paths_keep_their_constraints(body, oid, t, k.path, k.symbols, depth + 1);
                lemma_prefix_holds(k.path.conds, all[e], w);
                lemma_paths(body, oid, t, k.path, k.symbols, depth + 1, e, w);
                lemma_fails_before(body, oid, here, t, w, paths::left(depth + 1));
            },
            Terminator::Branch { cond, then_, else_ } => {
                assert(targets[0] == then_ && targets[1] == else_);
                lemma_operand(k.path.vars, cond, w);
                let c = encode::operand(k.path.vars, cond);
                let qe = paths::under(k.path, paths::is_zero(c));
                let qt = paths::under(k.path, paths::not_zero(c));
                let (pe, m) = paths::paths(body, oid, else_, qe, k.symbols, depth + 1);
                let (pt, _) = paths::paths(body, oid, then_, qt, m, depth + 1);
                if e < pe.len() {
                    assert(all[e] == pe[e]);
                    paths::law_failing_paths_keep_their_constraints(body, oid, else_, qe, k.symbols, depth + 1);
                    lemma_prefix_holds(qe.conds, all[e], w);
                    assert(holds(qe.conds[k.path.conds.len() as int], w));
                    assert(qe.conds.take(k.path.conds.len() as int) =~= k.path.conds);
                    lemma_prefix_holds(k.path.conds, qe.conds, w);
                    lemma_paths(body, oid, else_, qe, k.symbols, depth + 1, e, w);
                    lemma_fails_before(body, oid, here, else_, w, paths::left(depth + 1));
                } else {
                    let i = e - pe.len();
                    assert(all[e] == pt[i]);
                    paths::law_failing_paths_keep_their_constraints(body, oid, then_, qt, m, depth + 1);
                    lemma_prefix_holds(qt.conds, all[e], w);
                    assert(holds(qt.conds[k.path.conds.len() as int], w));
                    assert(qt.conds.take(k.path.conds.len() as int) =~= k.path.conds);
                    lemma_prefix_holds(k.path.conds, qt.conds, w);
                    lemma_paths(body, oid, then_, qt, m, depth + 1, i, w);
                    lemma_fails_before(body, oid, here, then_, w, paths::left(depth + 1));
                }
            },
            Terminator::Switch { value, cases, default } => {
                lemma_operand(k.path.vars, value, w);
                let v = encode::operand(k.path.vars, value);
                let q = Path {
                    conds: paths::no_case(k.path.conds, v, cases@, cases@.len()),
                    ..k.path
                };
                let (pd, m) = paths::paths(body, oid, default, q, k.symbols, depth + 1);
                if e < pd.len() {
                    assert(all[e] == pd[e]);
                    assert(targets[cases@.len() as int] == default);
                    paths::law_failing_paths_keep_their_constraints(body, oid, default, q, k.symbols, depth + 1);
                    lemma_prefix_holds(q.conds, all[e], w);
                    lemma_no_case(k.path.conds, v, cases@, cases@.len(), w);
                    lemma_paths(body, oid, default, q, k.symbols, depth + 1, e, w);
                    lemma_fails_before(body, oid, here, default, w, paths::left(depth + 1));
                } else {
                    let i = e - pd.len();
                    let pc = paths::case_paths(body, oid, k.path, v, cases@, cases@.len(), m, depth + 1).0;
                    assert(all[e] == pc[i]);
                    assert forall|j: int| 0 <= j < cases@.len() implies (#[trigger] cases@[j]).1.0
                        < body.blocks@.len() by {
                        assert(targets[j] == cases@[j].1);
                    }
                    lemma_case_paths(body, oid, k.path, v, cases@, cases@.len(), m, depth + 1, i, w);
                    let j = choose|j: int|
                        0 <= j < cases@.len() && number(v, w) == (#[trigger] cases@[j]).0 as int as real
                            && fails(body, oid, cases@[j].1, end, w, paths::left(depth + 1));
                    lemma_fails_before(body, oid, here, cases@[j].1, w, paths::left(depth + 1));
                }
            },
            _ => {},
        }
        assert(paths::left(depth + 1) + 1 == left);
    }
}

proof fn lemma_case_paths(
    body: Body,
    oid: ObligationId,
    p: Path,
    v: Real,
    cases: Seq<(i32, BlockId)>,
    k: nat,
    symbols: nat,
    depth: nat,
    e: int,
    w: World,
)
    requires
        in_range(body),
        oid.0 < body.obligations@.len(),
        k <= cases.len(),
        forall|j: int| 0 <= j < cases.len() ==> (#[trigger] cases[j]).1.0 < body.blocks@.len(),
        p.vars.len() == body.vars@.len(),
        0 <= e < paths::case_paths(body, oid, p, v, cases, k, symbols, depth).0.len(),
        all_hold(paths::case_paths(body, oid, p, v, cases, k, symbols, depth).0[e], w),
    ensures
        all_hold(p.conds, w),
        exists|j: int|
            0 <= j < k && number(v, w) == (#[trigger] cases[j]).0 as int as real && fails(
                body,
                oid,
                cases[j].1,
                numbers(p.vars, w),
                w,
                paths::left(depth),
            ),
    decreases paths::left(depth), k,
{
    let all = paths::case_paths(body, oid, p, v, cases, k, symbols, depth).0;
    let (key, t) = cases[k - 1];
    let q = paths::under(p, paths::is_case(v, key));
    let (p1, n) = paths::paths(body, oid, t, q, symbols, depth);
    if e < p1.len() {
        assert(all[e] == p1[e]);
        assert(cases[k - 1].1.0 < body.blocks@.len());
        paths::law_failing_paths_keep_their_constraints(body, oid, t, q, symbols, depth);
        lemma_prefix_holds(q.conds, all[e], w);
        assert(holds(q.conds[p.conds.len() as int], w));
        assert(q.conds.take(p.conds.len() as int) =~= p.conds);
        lemma_prefix_holds(p.conds, q.conds, w);
        reveal_with_fuel(holds, 3);
        reveal_with_fuel(number, 2);
        lemma_paths(body, oid, t, q, symbols, depth, e, w);
        assert(number(v, w) == cases[k - 1].0 as int as real);
    } else {
        let i = e - p1.len();
        assert(all[e] == paths::case_paths(body, oid, p, v, cases, (k - 1) as nat, n, depth).0[i]);
        lemma_case_paths(body, oid, p, v, cases, (k - 1) as nat, n, depth, i, w);
    }
}

/// Where the formula for an obligation holds, a run over the reals from the entry, with the
/// variables at the values of their symbols, comes to the obligation and fails it.
pub proof fn law_models_are_failing_runs(body: Body, oid: ObligationId, w: World)
    requires
        in_range(body),
        oid.0 < body.obligations@.len(),
        holds(paths::formula(body, oid), w),
    ensures
        fails(
            body,
            oid,
            body.entry,
            Seq::new(body.vars@.len(), |i: int| (w.symbols)(i as nat)),
            w,
            (MAX_NRA_DEPTH + 1) as nat,
        ),
{
    let n = body.vars@.len();
    let p = Path { vars: paths::symbols_of(n), conds: Seq::empty() };
    let errors = paths::paths(body, oid, body.entry, p, n, 0).0;
    let parts = errors.map_values(|c: Seq<Real>| paths::conjoined(c));
    reveal_with_fuel(holds, 3);
    reveal_with_fuel(number, 2);
    assert(numbers(p.vars, w) =~= Seq::new(n, |i: int| (w.symbols)(i as nat)));
    assert(parts.len() > 0);
    let e: int = if parts.len() == 1 {
        0
    } else {
        assert(holds(Real::App(RealOp::Or, parts), w));
        lemma_or(parts, parts.len(), w);
        choose|i: int| 0 <= i < parts.len() && holds(#[trigger] parts[i], w)
    };
    assert(holds(parts[e], w));
    assert(parts[e] == paths::conjoined(errors[e]));
    let c = errors[e];
    lemma_conjoined(c, w);
    lemma_paths(body, oid, body.entry, p, n, 0, e, w);
}

/// The functions that are known by name are those that the names say.
pub proof fn law_named_functions_compute(args: Seq<Real>, given: real, w: World)
    requires
        args.len() >= 2,
    ensures
        ({
            let x = number(args[0], w);
            let y = number(args[1], w);
            let r = |name: Seq<char>| number(encode::value(encode::named(name), args)->Ok_0, w);
            &&& r("abs"@) == if x < (0 as real) { (0 as real) - x } else { x }
            &&& r("min"@) == if x <= y { x } else { y }
            &&& r("max"@) == if x >= y { x } else { y }
            &&& r("floor"@) == whole_below(x) as real
            &&& r("ceil"@) == (0 as real) - whole_below((0 as real) - x) as real
            &&& r("round"@) == whole_below(x + (1 as real) / (2 as real)) as real
            &&& r("sin"@) == (w.function)(RealOp::Sine, x)
            &&& r("cos"@) == (w.function)(RealOp::Cosine, x)
            &&& r("tan"@) == (w.function)(RealOp::Tangent, x)
            &&& r("asin"@) == (w.function)(RealOp::Arcsine, x)
            &&& r("acos"@) == (w.function)(RealOp::Arccosine, x)
            &&& r("atan"@) == (w.function)(RealOp::Arctangent, x)
            &&& r("atan2"@) == (w.function)(RealOp::Arctangent, x / y)
            &&& r("exp"@) == (w.function)(RealOp::Exponential, x)
            &&& r("sqrt"@) == (w.function)(RealOp::Sqrt, x)
            &&& r("toRadians"@) == w.pi / (180 as real) * x
            &&& r("toDegrees"@) == (180 as real) / w.pi * x
        }),
{
    lemma_names_differ();
    law_functions_compute(encode::named("abs"@), args, given, w);
    law_functions_compute(encode::named("min"@), args, given, w);
    law_functions_compute(encode::named("max"@), args, given, w);
    law_functions_compute(encode::named("floor"@), args, given, w);
    law_functions_compute(encode::named("ceil"@), args, given, w);
    law_functions_compute(encode::named("round"@), args, given, w);
    law_functions_compute(encode::named("sin"@), args, given, w);
    law_functions_compute(encode::named("cos"@), args, given, w);
    law_functions_compute(encode::named("tan"@), args, given, w);
    law_functions_compute(encode::named("asin"@), args, given, w);
    law_functions_compute(encode::named("acos"@), args, given, w);
    law_functions_compute(encode::named("atan"@), args, given, w);
    law_functions_compute(encode::named("atan2"@), args, given, w);
    law_functions_compute(encode::named("exp"@), args, given, w);
    law_functions_compute(encode::named("sqrt"@), args, given, w);
    law_functions_compute(encode::named("toRadians"@), args, given, w);
    law_functions_compute(encode::named("toDegrees"@), args, given, w);
}

/// The names are all different.
proof fn lemma_names_differ()
    ensures
        "sin"@.len() == 3,
        "cos"@.len() == 3,
        "tan"@.len() == 3,
        "asin"@.len() == 4,
        "acos"@.len() == 4,
        "atan"@.len() == 4,
        "exp"@.len() == 3,
        "sqrt"@.len() == 4,
        "atan2"@.len() == 5,
        "log"@.len() == 3,
        "log10"@.len() == 5,
        "pow"@.len() == 3,
        "abs"@.len() == 3,
        "min"@.len() == 3,
        "max"@.len() == 3,
        "ceil"@.len() == 4,
        "floor"@.len() == 5,
        "round"@.len() == 5,
        "toRadians"@.len() == 9,
        "toDegrees"@.len() == 9,
        "sinh"@.len() == 4,
        "cosh"@.len() == 4,
        "tanh"@.len() == 4,
        "sin"@ != "cos"@,
        "sin"@ != "tan"@,
        "sin"@ != "exp"@,
        "sin"@ != "log"@,
        "sin"@ != "pow"@,
        "sin"@ != "abs"@,
        "sin"@ != "min"@,
        "sin"@ != "max"@,
        "cos"@ != "tan"@,
        "cos"@ != "exp"@,
        "cos"@ != "log"@,
        "cos"@ != "pow"@,
        "cos"@ != "abs"@,
        "cos"@ != "min"@,
        "cos"@ != "max"@,
        "tan"@ != "exp"@,
        "tan"@ != "log"@,
        "tan"@ != "pow"@,
        "tan"@ != "abs"@,
        "tan"@ != "min"@,
        "tan"@ != "max"@,
        "exp"@ != "log"@,
        "exp"@ != "pow"@,
        "exp"@ != "abs"@,
        "exp"@ != "min"@,
        "exp"@ != "max"@,
        "log"@ != "pow"@,
        "log"@ != "abs"@,
        "log"@ != "min"@,
        "log"@ != "max"@,
        "pow"@ != "abs"@,
        "pow"@ != "min"@,
        "pow"@ != "max"@,
        "abs"@ != "min"@,
        "abs"@ != "max"@,
        "min"@ != "max"@,
        "asin"@ != "acos"@,
        "asin"@ != "atan"@,
        "asin"@ != "sqrt"@,
        "asin"@ != "ceil"@,
        "asin"@ != "sinh"@,
        "asin"@ != "cosh"@,
        "asin"@ != "tanh"@,
        "acos"@ != "atan"@,
        "acos"@ != "sqrt"@,
        "acos"@ != "ceil"@,
        "acos"@ != "sinh"@,
        "acos"@ != "cosh"@,
        "acos"@ != "tanh"@,
        "atan"@ != "sqrt"@,
        "atan"@ != "ceil"@,
        "atan"@ != "sinh"@,
        "atan"@ != "cosh"@,
        "atan"@ != "tanh"@,
        "sqrt"@ != "ceil"@,
        "sqrt"@ != "sinh"@,
        "sqrt"@ != "cosh"@,
        "sqrt"@ != "tanh"@,
        "ceil"@ != "sinh"@,
        "ceil"@ != "cosh"@,
        "ceil"@ != "tanh"@,
        "sinh"@ != "cosh"@,
        "sinh"@ != "tanh"@,
        "cosh"@ != "tanh"@,
        "atan2"@ != "log10"@,
        "atan2"@ != "floor"@,
        "atan2"@ != "round"@,
        "log10"@ != "floor"@,
        "log10"@ != "round"@,
        "floor"@ != "round"@,
        "toRadians"@ != "toDegrees"@,
{
    reveal_strlit("sin");
    reveal_strlit("cos");
    reveal_strlit("tan");
    reveal_strlit("asin");
    reveal_strlit("acos");
    reveal_strlit("atan");
    reveal_strlit("exp");
    reveal_strlit("sqrt");
    reveal_strlit("atan2");
    reveal_strlit("log");
    reveal_strlit("log10");
    reveal_strlit("pow");
    reveal_strlit("abs");
    reveal_strlit("min");
    reveal_strlit("max");
    reveal_strlit("ceil");
    reveal_strlit("floor");
    reveal_strlit("round");
    reveal_strlit("toRadians");
    reveal_strlit("toDegrees");
    reveal_strlit("sinh");
    reveal_strlit("cosh");
    reveal_strlit("tanh");
    assert("sin"@[0] != "cos"@[0]);
    assert("sin"@[0] != "tan"@[0]);
    assert("sin"@[0] != "exp"@[0]);
    assert("sin"@[0] != "log"@[0]);
    assert("sin"@[0] != "pow"@[0]);
    assert("sin"@[0] != "abs"@[0]);
    assert("sin"@[0] != "min"@[0]);
    assert("sin"@[0] != "max"@[0]);
    assert("cos"@[0] != "tan"@[0]);
    assert("cos"@[0] != "exp"@[0]);
    assert("cos"@[0] != "log"@[0]);
    assert("cos"@[0] != "pow"@[0]);
    assert("cos"@[0] != "abs"@[0]);
    assert("cos"@[0] != "min"@[0]);
    assert("cos"@[0] != "max"@[0]);
    assert("tan"@[0] != "exp"@[0]);
    assert("tan"@[0] != "log"@[0]);
    assert("tan"@[0] != "pow"@[0]);
    assert("tan"@[0] != "abs"@[0]);
    assert("tan"@[0] != "min"@[0]);
    assert("tan"@[0] != "max"@[0]);
    assert("exp"@[0] != "log"@[0]);
    assert("exp"@[0] != "pow"@[0]);
    assert("exp"@[0] != "abs"@[0]);
    assert("exp"@[0] != "min"@[0]);
    assert("exp"@[0] != "max"@[0]);
    assert("log"@[0] != "pow"@[0]);
    assert("log"@[0] != "abs"@[0]);
    assert("log"@[0] != "min"@[0]);
    assert("log"@[0] != "max"@[0]);
    assert("pow"@[0] != "abs"@[0]);
    assert("pow"@[0] != "min"@[0]);
    assert("pow"@[0] != "max"@[0]);
    assert("abs"@[0] != "min"@[0]);
    assert("abs"@[0] != "max"@[0]);
    assert("min"@[1] != "max"@[1]);
    assert("asin"@[1] != "acos"@[1]);
    assert("asin"@[1] != "atan"@[1]);
    assert("asin"@[0] != "sqrt"@[0]);
    assert("asin"@[0] != "ceil"@[0]);
    assert("asin"@[0] != "sinh"@[0]);
    assert("asin"@[0] != "cosh"@[0]);
    assert("asin"@[0] != "tanh"@[0]);
    assert("acos"@[1] != "atan"@[1]);
    assert("acos"@[0] != "sqrt"@[0]);
    assert("acos"@[0] != "ceil"@[0]);
    assert("acos"@[0] != "sinh"@[0]);
    assert("acos"@[0] != "cosh"@[0]);
    assert("acos"@[0] != "tanh"@[0]);
    assert("atan"@[0] != "sqrt"@[0]);
    assert("atan"@[0] != "ceil"@[0]);
    assert("atan"@[0] != "sinh"@[0]);
    assert("atan"@[0] != "cosh"@[0]);
    assert("atan"@[0] != "tanh"@[0]);
    assert("sqrt"@[0] != "ceil"@[0]);
    assert("sqrt"@[1] != "sinh"@[1]);
    assert("sqrt"@[0] != "cosh"@[0]);
    assert("sqrt"@[0] != "tanh"@[0]);
    assert("ceil"@[0] != "sinh"@[0]);
    assert("ceil"@[1] != "cosh"@[1]);
    assert("ceil"@[0] != "tanh"@[0]);
    assert("sinh"@[0] != "cosh"@[0]);
    assert("sinh"@[0] != "tanh"@[0]);
    assert("cosh"@[0] != "tanh"@[0]);
    assert("atan2"@[0] != "log10"@[0]);
    assert("atan2"@[0] != "floor"@[0]);
    assert("atan2"@[0] != "round"@[0]);
    assert("log10"@[0] != "floor"@[0]);
    assert("log10"@[0] != "round"@[0]);
    assert("floor"@[0] != "round"@[0]);
    assert("toRadians"@[2] != "toDegrees"@[2]);
}

} // verus!
