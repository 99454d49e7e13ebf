//! What the formulas over integers for a body mean: every step of a run satisfies the
//! transition relation, and every failing check the condition of its error.

use vstd::prelude::*;
use vstd::string::*;

use crate::concrete::value;
use crate::concrete::value::Value;
use crate::horn;
use crate::interpolation;
use crate::ir;
use crate::ir::{BinOp, BlockId, Body, Const, ObligationId, Operand, Rvalue, Stmt, Terminator};
use crate::smt_text;
use crate::smt_text::{Clause, LiaTheory, PoolV, SmtTheory};
use crate::text;

verus! {

/// A symbol: the value of a variable before a step or after it, or a fresh one.
pub enum Sym {
    Before(nat),
    After(nat),
    Fresh(nat),
}

/// A term over the integers.
pub enum Int {
    Sym(Sym),
    Num(int),
    App(BinOp, Box<Int>, Box<Int>),
    Ite(Box<Test>, Box<Int>, Box<Int>),
}

/// A comparison of terms.
pub enum Test {
    Is(BinOp, Box<Int>, Box<Int>),
    Not(Box<Test>),
}

/// What the symbols stand for.
pub type Env = spec_fn(Sym) -> int;

pub open spec fn sym_text(s: Sym) -> Seq<char> {
    match s {
        Sym::Before(i) => "v"@ + text::dec(i),
        Sym::After(i) => "v"@ + text::dec(i) + "p"@,
        Sym::Fresh(k) => ""@ + "fresh"@ + text::dec(k),
    }
}

pub open spec fn op_name(op: BinOp) -> Seq<char> {
    match op {
        BinOp::Add => "+"@,
        BinOp::Sub => "-"@,
        BinOp::Mul => "*"@,
        BinOp::Div => "div"@,
        BinOp::Rem => "mod"@,
        BinOp::Lt => "<"@,
        BinOp::Le => "<="@,
        BinOp::Gt => ">"@,
        BinOp::Ge => ">="@,
        _ => "="@,
    }
}

pub open spec fn num_text(n: int) -> Seq<char> {
    if n < 0 {
        horn::list(seq!["-"@, text::dec((-n) as nat)])
    } else {
        text::dec(n as nat)
    }
}

pub open spec fn int_text(b: Int) -> Seq<char>
    decreases b,
{
    match b {
        Int::Sym(s) => sym_text(s),
        Int::Num(n) => num_text(n),
        Int::App(op, x, y) => horn::list(seq![op_name(op), int_text(*x), int_text(*y)]),
        Int::Ite(c, x, y) => horn::list(seq!["ite"@, test_text(*c), int_text(*x), int_text(*y)]),
    }
}

pub open spec fn test_text(t: Test) -> Seq<char>
    decreases t,
{
    match t {
        Test::Is(op, x, y) => horn::list(seq![op_name(op), int_text(*x), int_text(*y)]),
        Test::Not(c) => horn::list(seq!["not"@, test_text(*c)]),
    }
}

/// All of the facts.
pub open spec fn all_text(facts: Seq<Test>) -> Seq<char> {
    let parts = facts.map_values(|t: Test| test_text(t));
    if parts.len() == 0 {
        "true"@
    } else if parts.len() == 1 {
        parts[0]
    } else {
        horn::list(seq!["and"@, horn::row(parts)])
    }
}

/// One of the alternatives.
pub open spec fn any_text(edges: Seq<Seq<Test>>) -> Seq<char> {
    let parts = edges.map_values(|f: Seq<Test>| all_text(f));
    if parts.len() == 0 {
        "true"@
    } else if parts.len() == 1 {
        parts[0]
    } else {
        horn::list(seq!["or"@, horn::row(parts)])
    }
}

/// The value of a term. Division and remainder are those with a remainder that is not
/// negative.
pub open spec fn int_value(b: Int, env: Env) -> int
    decreases b,
{
    match b {
        Int::Sym(s) => env(s),
        Int::Num(n) => n,
        Int::App(op, x, y) => arith(op, int_value(*x, env), int_value(*y, env)),
        Int::Ite(c, x, y) => if test_holds(*c, env) {
            int_value(*x, env)
        } else {
            int_value(*y, env)
        },
    }
}

pub open spec fn arith(op: BinOp, x: int, y: int) -> int {
    match op {
        BinOp::Add => x + y,
        BinOp::Sub => x - y,
        BinOp::Mul => x * y,
        BinOp::Div => x / y,
        BinOp::Rem => x % y,
        _ => 0,
    }
}

pub open spec fn test_holds(t: Test, env: Env) -> bool
    decreases t,
{
    match t {
        Test::Is(op, x, y) => match op {
            BinOp::Lt => int_value(*x, env) < int_value(*y, env),
            BinOp::Le => int_value(*x, env) <= int_value(*y, env),
            BinOp::Gt => int_value(*x, env) > int_value(*y, env),
            BinOp::Ge => int_value(*x, env) >= int_value(*y, env),
            _ => int_value(*x, env) == int_value(*y, env),
        },
        Test::Not(c) => !test_holds(*c, env),
    }
}

/// All of the facts hold.
pub open spec fn all_hold(facts: Seq<Test>, env: Env) -> bool {
    forall|k: int| 0 <= k < facts.len() ==> test_holds(#[trigger] facts[k], env)
}

/// One of the alternatives holds, or there is none.
pub open spec fn any_holds(edges: Seq<Seq<Test>>, env: Env) -> bool {
    edges.len() > 0 ==> exists|k: int| 0 <= k < edges.len() && all_hold(#[trigger] edges[k], env)
}

// ---------------------------------------------------------------------------
// Steps of a run that integers follow
// ---------------------------------------------------------------------------

/// The integer that an rvalue has if nothing overflows; the given one if it is not
/// computed.
pub open spec fn ideal(vals: Seq<Value>, rv: Rvalue, given: int) -> int {
    match rv {
        Rvalue::Use(o) | Rvalue::Cast(_, o) => horn::operand_value(vals, o).number() as int,
        Rvalue::Neg(o) => -horn::operand_value(vals, o).number(),
        Rvalue::Bin(op, a, b) => {
            let x = horn::operand_value(vals, a).number() as int;
            let y = horn::operand_value(vals, b).number() as int;
            match op {
                BinOp::Eq => if x == y { 1 } else { 0 },
                BinOp::Ne => if x != y { 1 } else { 0 },
                BinOp::Lt => if x < y { 1 } else { 0 },
                BinOp::Le => if x <= y { 1 } else { 0 },
                BinOp::Gt => if x > y { 1 } else { 0 },
                BinOp::Ge => if x >= y { 1 } else { 0 },
                BinOp::Add => x + y,
                BinOp::Sub => x - y,
                BinOp::Mul => x * y,
                BinOp::Div => x / y,
                BinOp::Rem => x % y,
                _ => given,
            }
        },
        Rvalue::Cmp(a, b) => {
            let d = horn::operand_value(vals, a).number() - horn::operand_value(vals, b).number();
            if d < 0 {
                -1
            } else if d == 0 {
                0
            } else {
                1
            }
        },
        _ => given,
    }
}

/// No statement among the first `n` overflows: what it computes is what the integers give.
pub open spec fn faithful(
    body: Body,
    obs: Seq<ObligationId>,
    stmts: Seq<Stmt>,
    p: horn::Point,
    chosen: spec_fn(int) -> Value,
    n: nat,
) -> bool
    decreases n,
{
    n > 0 ==> {
        let m = (n - 1) as nat;
        let q = horn::stmts_run(body, obs, stmts, p, chosen, m);
        &&& faithful(body, obs, stmts, p, chosen, m)
        &&& stmts[n - 1] matches Stmt::Assign(_, rv) ==> {
            let x = horn::rvalue_value(q.vals, rv, chosen(n - 1)).number() as int;
            x == ideal(q.vals, rv, x)
        }
    }
}

/// A comparison, a copy and whatever is not computed by the formulas is always faithful, and
/// so is a sum, a difference or a product that does not overflow.
pub proof fn law_small_results_are_faithful(vals: Seq<Value>, op: BinOp, a: Operand, b: Operand)
    requires
        horn::operand_value(vals, a) is I32,
        horn::operand_value(vals, b) is I32,
    ensures
        ({
            let x = horn::operand_value(vals, a).number() as int;
            let y = horn::operand_value(vals, b).number() as int;
            let r = horn::rvalue_value(vals, Rvalue::Bin(op, a, b), Value::I32(0)).number() as int;
            let same = r == ideal(vals, Rvalue::Bin(op, a, b), r);
            &&& value::compares(op) ==> same
            &&& op == BinOp::Add && i32::MIN <= x + y <= i32::MAX ==> same
            &&& op == BinOp::Sub && i32::MIN <= x - y <= i32::MAX ==> same
            &&& smt_text::on_bits(op) ==> same
        }),
{
}

// ---------------------------------------------------------------------------
// The formulas of a body
// ---------------------------------------------------------------------------

pub open spec fn operand_int(vars: Seq<Int>, o: Operand) -> Int {
    match o {
        Operand::Var(v) => vars[v.0 as int],
        Operand::Const(Const::Int(n)) => Int::Num(n as int),
        Operand::Const(Const::Long(n)) => Int::Num(n as int),
        Operand::Const(Const::Str(_)) => Int::Num(1),
        Operand::Const(_) => Int::Num(0),
    }
}

pub open spec fn test(op: BinOp, x: Int, y: Int) -> Test {
    Test::Is(op, Box::new(x), Box::new(y))
}

pub open spec fn not(t: Test) -> Test {
    Test::Not(Box::new(t))
}

pub open spec fn ite(t: Test, x: Int, y: Int) -> Int {
    Int::Ite(Box::new(t), Box::new(x), Box::new(y))
}

pub open spec fn is_zero(x: Int) -> Test {
    test(BinOp::Eq, x, Int::Num(0))
}

/// Do the formulas compute the rvalue?
pub open spec fn computed(rv: Rvalue) -> bool {
    match rv {
        Rvalue::Bin(op, _, _) => !smt_text::on_bits(op),
        Rvalue::Use(_) | Rvalue::Neg(_) | Rvalue::Cast(_, _) | Rvalue::Cmp(_, _) => true,
        _ => false,
    }
}

pub open spec fn rvalue_int(vars: Seq<Int>, rv: Rvalue, k: nat) -> Int {
    if !computed(rv) {
        Int::Sym(Sym::Fresh(k))
    } else {
        match rv {
            Rvalue::Use(o) | Rvalue::Cast(_, o) => operand_int(vars, o),
            Rvalue::Neg(o) => Int::App(
                BinOp::Sub,
                Box::new(Int::Num(0)),
                Box::new(operand_int(vars, o)),
            ),
            Rvalue::Bin(op, a, b) => {
                let (x, y) = (operand_int(vars, a), operand_int(vars, b));
                if op == BinOp::Ne {
                    ite(not(test(BinOp::Eq, x, y)), Int::Num(1), Int::Num(0))
                } else if value::compares(op) {
                    ite(test(op, x, y), Int::Num(1), Int::Num(0))
                } else {
                    Int::App(op, Box::new(x), Box::new(y))
                }
            },
            Rvalue::Cmp(a, b) => {
                let (x, y) = (operand_int(vars, a), operand_int(vars, b));
                ite(
                    test(BinOp::Lt, x, y),
                    Int::Num(-1),
                    ite(test(BinOp::Eq, x, y), Int::Num(0), Int::Num(1)),
                )
            },
            _ => Int::Sym(Sym::Fresh(k)),
        }
    }
}

/// A symbol, or a number without a sign: what is put in place of a variable.
pub open spec fn simple(b: Int) -> bool {
    b is Sym || (b matches Int::Num(n) && n >= 0)
}

/// Where the formulas stand in a block.
pub struct Stand {
    pub vars: Seq<Int>,
    pub conds: Seq<Test>,
    pub bindings: Seq<Test>,
    pub issued: Seq<u32>,
}

pub open spec fn stmt_stand(body: Body, s: Stmt, p: Stand) -> Stand {
    match s {
        Stmt::Assign(v, rv) => {
            let k = p.issued.len();
            let e = rvalue_int(p.vars, rv, k);
            if !computed(rv) {
                Stand {
                    vars: p.vars.update(v.0 as int, e),
                    issued: p.issued.push(smt_text::unknown_width(rv)),
                    ..p
                }
            } else if simple(e) {
                Stand { vars: p.vars.update(v.0 as int, e), ..p }
            } else {
                let t = Int::Sym(Sym::Fresh(k));
                Stand {
                    vars: p.vars.update(v.0 as int, t),
                    bindings: p.bindings.push(test(BinOp::Eq, t, e)),
                    issued: p.issued.push(smt_text::width(body.vars@[v.0 as int].ty)),
                    ..p
                }
            }
        },
        Stmt::Assume(o) => Stand { conds: p.conds.push(not(is_zero(operand_int(p.vars, o)))), ..p },
        _ => p,
    }
}

pub open spec fn stmts_stand(body: Body, stmts: Seq<Stmt>, issued: Seq<u32>, n: nat) -> Stand
    decreases n,
{
    if n == 0 {
        Stand {
            vars: Seq::new(body.vars@.len(), |i: int| Int::Sym(Sym::Before(i as nat))),
            conds: Seq::empty(),
            bindings: Seq::empty(),
            issued,
        }
    } else {
        stmt_stand(body, stmts[n - 1], stmts_stand(body, stmts, issued, (n - 1) as nat))
    }
}

/// What the fresh symbols of a block stand for on a run of its first `n` statements.
pub open spec fn fresh_values(
    body: Body,
    obs: Seq<ObligationId>,
    stmts: Seq<Stmt>,
    issued: Seq<u32>,
    p: horn::Point,
    chosen: spec_fn(int) -> Value,
    n: nat,
) -> Seq<int>
    decreases n,
{
    if n == 0 {
        Seq::empty()
    } else {
        let m = (n - 1) as nat;
        let had = fresh_values(body, obs, stmts, issued, p, chosen, m);
        let q = horn::stmts_run(body, obs, stmts, p, chosen, m);
        let s = stmts_stand(body, stmts, issued, m);
        match stmts[n - 1] {
            Stmt::Assign(_, rv) => if computed(rv) && simple(rvalue_int(s.vars, rv, s.issued.len())) {
                had
            } else {
                had.push(horn::rvalue_value(q.vals, rv, chosen(n - 1)).number() as int)
            },
            _ => had,
        }
    }
}

/// The symbols stand for the values at the start and for the fresh values.
pub open spec fn fits(env: Env, vals: Seq<Value>, mark: nat, fresh: Seq<int>) -> bool {
    &&& forall|i: int| 0 <= i < vals.len() ==> env(Sym::Before(i as nat)) == (#[trigger] vals[i]).number()
    &&& forall|k: int| 0 <= k < fresh.len() ==> env(Sym::Fresh((mark + k) as nat)) == #[trigger] fresh[k]
}

spec fn stands(body: Body, s: Stand, q: horn::Point, issued: Seq<u32>, fresh: Seq<int>, env: Env) -> bool {
    &&& s.vars.len() == body.vars@.len()
    &&& horn::typed(body, q.vals)
    &&& forall|i: int|
        0 <= i < s.vars.len() ==> int_value(#[trigger] s.vars[i], env) == q.vals[i].number()
    &&& all_hold(s.bindings, env)
    &&& q.live ==> all_hold(s.conds, env)
    &&& s.issued.len() == issued.len() + fresh.len()
}

proof fn lemma_rvalue_meaning(
    body: Body,
    v: ir::VarId,
    vars: Seq<Int>,
    vals: Seq<Value>,
    rv: Rvalue,
    k: nat,
    given: int,
    env: Env,
)
    requires
        vars.len() == body.vars@.len(),
        vals.len() == vars.len(),
        forall|i: int| 0 <= i < vars.len() ==> int_value(#[trigger] vars[i], env) == vals[i].number(),
        ir::operands_in_range(ir::rvalue_operands(rv), vars.len()),
        horn::typed_stmt(body, Stmt::Assign(v, rv)),
        computed(rv),
    ensures
        int_value(rvalue_int(vars, rv, k), env) == ideal(vals, rv, given),
{
    reveal_with_fuel(int_value, 4);
    reveal_with_fuel(test_holds, 4);
    let ops = ir::rvalue_operands(rv);
    match rv {
        Rvalue::Use(o) | Rvalue::Neg(o) | Rvalue::Cast(_, o) => {
            assert(ops[0] == o);
            assert(int_value(operand_int(vars, o), env) == horn::operand_value(vals, o).number());
        },
        Rvalue::Cmp(a, b) | Rvalue::Bin(_, a, b) => {
            assert(ops[0] == a && ops[1] == b);
            assert(int_value(operand_int(vars, a), env) == horn::operand_value(vals, a).number());
            assert(int_value(operand_int(vars, b), env) == horn::operand_value(vals, b).number());
        },
        _ => {},
    }
}

proof fn lemma_stands(
    body: Body,
    obs: Seq<ObligationId>,
    stmts: Seq<Stmt>,
    issued: Seq<u32>,
    p: horn::Point,
    chosen: spec_fn(int) -> Value,
    n: nat,
    env: Env,
)
    requires
        body.vars@.len() <= u32::MAX,
        n <= stmts.len(),
        horn::typed_stmts(body, stmts),
        horn::typed_choice(stmts, chosen),
        horn::typed(body, p.vals),
        p.live,
        fits(env, p.vals, issued.len(), fresh_values(body, obs, stmts, issued, p, chosen, n)),
        faithful(body, obs, stmts, p, chosen, n),
    ensures
        stands(
            body,
            stmts_stand(body, stmts, issued, n),
            horn::stmts_run(body, obs, stmts, p, chosen, n),
            issued,
            fresh_values(body, obs, stmts, issued, p, chosen, n),
            env,
        ),
    decreases n,
{
    reveal_with_fuel(int_value, 3);
    reveal_with_fuel(test_holds, 4);
    let st = stmts_stand(body, stmts, issued, n);
    let q = horn::stmts_run(body, obs, stmts, p, chosen, n);
    let fresh = fresh_values(body, obs, stmts, issued, p, chosen, n);
    if n > 0 {
        let m = (n - 1) as nat;
        let st0 = stmts_stand(body, stmts, issued, m);
        let q0 = horn::stmts_run(body, obs, stmts, p, chosen, m);
        let fresh0 = fresh_values(body, obs, stmts, issued, p, chosen, m);
        let s = stmts[n - 1];
        assert(horn::typed_stmt(body, s));
        assert forall|k: int| 0 <= k < fresh0.len() implies env(
            Sym::Fresh((issued.len() + k) as nat),
        ) == #[trigger] fresh0[k] by {
            assert(fresh[k] == fresh0[k]);
        }
        lemma_stands(body, obs, stmts, issued, p, chosen, m, env);
        match s {
            Stmt::Assign(v, rv) => {
                let k = st0.issued.len();
                let x = horn::rvalue_value(q0.vals, rv, chosen(m as int));
                horn::lemma_rvalue_typed(body, v, q0.vals, rv, chosen(m as int));
                if computed(rv) {
                    lemma_rvalue_meaning(
                        body,
                        v,
                        st0.vars,
                        q0.vals,
                        rv,
                        k,
                        x.number() as int,
                        env,
                    );
                }
                if !computed(rv) || !simple(rvalue_int(st0.vars, rv, k)) {
                    assert(fresh[fresh.len() - 1] == x.number());
                    assert(env(Sym::Fresh(k)) == fresh[fresh.len() - 1]);
                }
                assert forall|i: int| 0 <= i < st.vars.len() implies int_value(
                    #[trigger] st.vars[i],
                    env,
                ) == q.vals[i].number() by {
                    if i != v.0 {
                        assert(st.vars[i] == st0.vars[i]);
                    }
                }
                assert forall|j: int| 0 <= j < st.bindings.len() implies test_holds(
                    #[trigger] st.bindings[j],
                    env,
                ) by {
                    if j < st0.bindings.len() {
                        assert(st.bindings[j] == st0.bindings[j]);
                    }
                }
            },
            Stmt::Assume(o) => {
                assert(int_value(operand_int(st0.vars, o), env) == horn::operand_value(
                    q0.vals,
                    o,
                ).number());
                if q.live {
                    assert forall|j: int| 0 <= j < st.conds.len() implies test_holds(
                        #[trigger] st.conds[j],
                        env,
                    ) by {
                        if j < st0.conds.len() {
                            assert(st.conds[j] == st0.conds[j]);
                        }
                    }
                }
            },
            _ => {},
        }
    }
}

/// Each variable has after the step the value of its term.
pub open spec fn updates(vars: Seq<Int>) -> Seq<Test> {
    Seq::new(vars.len(), |i: int| test(BinOp::Eq, Int::Sym(Sym::After(i as nat)), vars[i]))
}

/// What holds of a step with the additional condition.
pub open spec fn edge(s: Stand, extra: Seq<Test>) -> Seq<Test> {
    s.bindings + (s.conds + extra) + updates(s.vars)
}

/// The alternatives of a block: one for each way to leave it.
pub open spec fn ways(b: ir::Block, s: Stand) -> Seq<Seq<Test>> {
    match b.term {
        Terminator::Goto(_) | Terminator::Return(_) | Terminator::Halt => seq![edge(s, Seq::empty())],
        Terminator::Branch { cond, .. } => {
            let zero = is_zero(operand_int(s.vars, cond));
            seq![edge(s, seq![not(zero)]), edge(s, seq![zero])]
        },
        Terminator::Switch { value, cases, .. } => {
            let v = operand_int(s.vars, value);
            let is = |i: int| test(BinOp::Eq, v, Int::Num(cases@[i].0 as int));
            Seq::new(cases@.len(), |i: int| edge(s, seq![is(i)])).push(
                edge(s, Seq::new(cases@.len(), |i: int| not(is(i)))),
            )
        },
        _ => Seq::empty(),
    }
}

/// The conditions of the errors among the first `n` statements.
pub open spec fn errors(body: Body, obs: Seq<ObligationId>, stmts: Seq<Stmt>, issued: Seq<u32>, n: nat) -> Seq<
    (ObligationId, Seq<Test>),
>
    decreases n,
{
    if n == 0 {
        Seq::empty()
    } else {
        let m = (n - 1) as nat;
        let had = errors(body, obs, stmts, issued, m);
        let s = stmts_stand(body, stmts, issued, m);
        match stmts[n - 1] {
            Stmt::Check(id) => if obs.contains(id) {
                had.push(
                    (
                        id,
                        s.bindings + s.conds.push(
                            is_zero(operand_int(s.vars, body.obligations@[id.0 as int].cond)),
                        ),
                    ),
                )
            } else {
                had
            },
            _ => had,
        }
    }
}

/// The widths of the symbols handed out for the first `n` blocks.
pub open spec fn issued_by(body: Body, n: nat) -> Seq<u32>
    decreases n,
{
    if n == 0 {
        Seq::empty()
    } else {
        let stmts = body.blocks@[n - 1].stmts@;
        stmts_stand(body, stmts, issued_by(body, (n - 1) as nat), stmts.len()).issued
    }
}

/// The alternatives of the first `n` blocks.
pub open spec fn transition(body: Body, n: nat) -> Seq<Seq<Test>>
    decreases n,
{
    if n == 0 {
        Seq::empty()
    } else {
        let m = (n - 1) as nat;
        let b = body.blocks@[n - 1];
        transition(body, m) + ways(b, stmts_stand(body, b.stmts@, issued_by(body, m), b.stmts@.len()))
    }
}

/// The conditions of the errors of the first `n` blocks.
pub open spec fn all_errors(body: Body, obs: Seq<ObligationId>, n: nat) -> Seq<(ObligationId, Seq<Test>)>
    decreases n,
{
    if n == 0 {
        Seq::empty()
    } else {
        let m = (n - 1) as nat;
        let b = body.blocks@[n - 1];
        all_errors(body, obs, m) + errors(body, obs, b.stmts@, issued_by(body, m), b.stmts@.len())
    }
}

spec fn env_of(vals: Seq<Value>, after: Seq<Value>, mark: nat, fresh: Seq<int>) -> Env {
    |s: Sym|
        match s {
            Sym::Before(i) => vals[i as int].number() as int,
            Sym::After(i) => after[i as int].number() as int,
            Sym::Fresh(k) => if mark <= k < mark + fresh.len() {
                fresh[k - mark]
            } else {
                0
            },
        }
}

/// The symbols stand for the values before and after a step.
pub open spec fn relates(env: Env, before: Seq<Value>, after: Seq<Value>) -> bool {
    &&& forall|i: int|
        0 <= i < before.len() ==> env(Sym::Before(i as nat)) == (#[trigger] before[i]).number()
    &&& forall|i: int| 0 <= i < after.len() ==> env(Sym::After(i as nat)) == (#[trigger] after[i]).number()
}

proof fn lemma_edge_holds(
    body: Body,
    s: Stand,
    extra: Seq<Test>,
    q: horn::Point,
    vals: Seq<Value>,
    issued: Seq<u32>,
    fresh: Seq<int>,
)
    requires
        stands(body, s, q, issued, fresh, env_of(vals, q.vals, issued.len(), fresh)),
        q.live,
        all_hold(extra, env_of(vals, q.vals, issued.len(), fresh)),
    ensures
        all_hold(edge(s, extra), env_of(vals, q.vals, issued.len(), fresh)),
{
    reveal_with_fuel(int_value, 3);
    reveal_with_fuel(test_holds, 3);
    let env = env_of(vals, q.vals, issued.len(), fresh);
    let facts = edge(s, extra);
    assert forall|j: int| 0 <= j < facts.len() implies test_holds(#[trigger] facts[j], env) by {
        let a = s.bindings.len();
        let b = a + s.conds.len();
        let c = b + extra.len();
        if j < a {
            assert(facts[j] == s.bindings[j]);
        } else if j < b {
            assert(facts[j] == s.conds[j - a]);
        } else if j < c {
            assert(facts[j] == extra[j - b]);
        } else {
            assert(facts[j] == updates(s.vars)[j - c]);
            assert(int_value(s.vars[j - c], env) == q.vals[j - c].number());
        }
    }
}

proof fn lemma_transition_has(body: Body, b: int, n: nat, k: int)
    requires
        0 <= b < n,
        ({
            let block = body.blocks@[b];
            let s = stmts_stand(body, block.stmts@, issued_by(body, b as nat), block.stmts@.len());
            0 <= k < ways(block, s).len()
        }),
    ensures
        ({
            let block = body.blocks@[b];
            let s = stmts_stand(body, block.stmts@, issued_by(body, b as nat), block.stmts@.len());
            exists|j: int|
                0 <= j < transition(body, n).len() && #[trigger] transition(body, n)[j] == ways(block, s)[k]
        }),
    decreases n,
{
    let m = (n - 1) as nat;
    let block = body.blocks@[b];
    let s = stmts_stand(body, block.stmts@, issued_by(body, b as nat), block.stmts@.len());
    if b == m {
        assert(transition(body, n)[transition(body, m).len() + k] == ways(block, s)[k]);
    } else {
        lemma_transition_has(body, b, m, k);
        let j = choose|j: int|
            0 <= j < transition(body, m).len() && #[trigger] transition(body, m)[j] == ways(block, s)[k];
        assert(transition(body, n)[j] == transition(body, m)[j]);
    }
}

/// Every step of a run satisfies the transition relation: whatever the values before a
/// block, where no assumption of it fails and nothing overflows, the alternatives of the
/// relation have one that holds of the values before the block and after it.
pub proof fn law_steps_satisfy_the_transition(
    body: Body,
    obs: Seq<ObligationId>,
    b: BlockId,
    vals: Seq<Value>,
    chosen: spec_fn(int) -> Value,
)
    requires
        horn::typed_body(body),
        b.0 < body.blocks@.len(),
        horn::typed(body, vals),
        horn::typed_choice(body.blocks@[b.0 as int].stmts@, chosen),
        ({
            let stmts = body.blocks@[b.0 as int].stmts@;
            faithful(body, obs, stmts, horn::begun(vals), chosen, stmts.len())
        }),
        horn::block_run(body, obs, b.0 as int, horn::begun(vals), chosen).live,
        !(body.blocks@[b.0 as int].term is Throw),
        !(body.blocks@[b.0 as int].term is Diverge),
    ensures
        exists|env: Env|
            relates(env, vals, horn::block_run(body, obs, b.0 as int, horn::begun(vals), chosen).vals)
                && #[trigger] any_holds(transition(body, body.blocks@.len()), env),
{
    let block = body.blocks@[b.0 as int];
    let stmts = block.stmts@;
    let n = stmts.len();
    let issued = issued_by(body, b.0 as nat);
    assert(block.in_range(body.blocks@.len(), body.vars@.len(), body.obligations@.len()));
    assert(horn::typed_stmts(body, stmts)) by {
        assert forall|j: int| 0 <= j < stmts.len() implies horn::typed_stmt(body, #[trigger] stmts[j])
            && ir::stmt_in_range(stmts[j], body.vars@.len(), body.obligations@.len()) by {
            assert(body.blocks@[b.0 as int].stmts@[j] == stmts[j]);
        }
    }
    reveal_with_fuel(int_value, 3);
    reveal_with_fuel(test_holds, 3);
    let q = horn::block_run(body, obs, b.0 as int, horn::begun(vals), chosen);
    let s = stmts_stand(body, stmts, issued, n);
    let fresh = fresh_values(body, obs, stmts, issued, horn::begun(vals), chosen, n);
    let env = env_of(vals, q.vals, issued.len(), fresh);
    lemma_stands(body, obs, stmts, issued, horn::begun(vals), chosen, n, env);
    let all = ways(block, s);
    assert(horn::typed_term(body, block.term));
    let k: int = match block.term {
        Terminator::Branch { cond, .. } => {
            let v = operand_int(s.vars, cond);
            assert(int_value(v, env) == horn::operand_value(q.vals, cond).number());
            if horn::operand_value(q.vals, cond).number() != 0 {
                lemma_edge_holds(body, s, seq![not(is_zero(v))], q, vals, issued, fresh);
                0
            } else {
                lemma_edge_holds(body, s, seq![is_zero(v)], q, vals, issued, fresh);
                1
            }
        },
        Terminator::Switch { value, cases, .. } => {
            let x = horn::operand_value(q.vals, value).number();
            let v = operand_int(s.vars, value);
            assert(int_value(v, env) == x);
            let is = |j: int| test(BinOp::Eq, v, Int::Num(cases@[j].0 as int));
            if exists|j: int| 0 <= j < cases@.len() && (#[trigger] cases@[j]).0 == x {
                let j = choose|j: int| 0 <= j < cases@.len() && (#[trigger] cases@[j]).0 == x;
                lemma_edge_holds(body, s, seq![is(j)], q, vals, issued, fresh);
                j
            } else {
                let none = Seq::new(cases@.len(), |j: int| not(is(j)));
                assert forall|j: int| 0 <= j < none.len() implies test_holds(#[trigger] none[j], env) by {
                    assert(cases@[j].0 != x);
                }
                lemma_edge_holds(body, s, none, q, vals, issued, fresh);
                cases@.len() as int
            }
        },
        _ => {
            lemma_edge_holds(body, s, Seq::empty(), q, vals, issued, fresh);
            0
        },
    };
    assert(all_hold(all[k], env));
    lemma_transition_has(body, b.0 as int, body.blocks@.len(), k);
    let t = transition(body, body.blocks@.len());
    let j = choose|j: int| 0 <= j < t.len() && #[trigger] t[j] == all[k];
    assert(all_hold(t[j], env));
    assert(any_holds(t, env));
    assert(relates(env, vals, q.vals));
}

proof fn lemma_error_in_block(body: Body, obs: Seq<ObligationId>, stmts: Seq<Stmt>, issued: Seq<u32>, j: int, n: nat)
    requires
        0 <= j < n,
        stmts[j] matches Stmt::Check(id) && obs.contains(id),
    ensures
        ({
            let s = stmts_stand(body, stmts, issued, j as nat);
            let id = stmts[j]->Check_0;
            exists|k: int|
                0 <= k < errors(body, obs, stmts, issued, n).len() && #[trigger] errors(
                    body,
                    obs,
                    stmts,
                    issued,
                    n,
                )[k] == (
                    id,
                    s.bindings + s.conds.push(
                        is_zero(operand_int(s.vars, body.obligations@[id.0 as int].cond)),
                    ),
                )
        }),
    decreases n,
{
    let m = (n - 1) as nat;
    let s = stmts_stand(body, stmts, issued, j as nat);
    let id = stmts[j]->Check_0;
    let e = (
        id,
        s.bindings + s.conds.push(is_zero(operand_int(s.vars, body.obligations@[id.0 as int].cond))),
    );
    let had = errors(body, obs, stmts, issued, m);
    let now = errors(body, obs, stmts, issued, n);
    if j == m {
        assert(now[had.len() as int] == e);
    } else {
        lemma_error_in_block(body, obs, stmts, issued, j, m);
        let k = choose|k: int| 0 <= k < had.len() && #[trigger] had[k] == e;
        assert(now[k] == had[k]);
    }
}

proof fn lemma_error_in_body(body: Body, obs: Seq<ObligationId>, b: int, n: nat, e: (ObligationId, Seq<Test>), k: int)
    requires
        0 <= b < n,
        ({
            let stmts = body.blocks@[b].stmts@;
            let es = errors(body, obs, stmts, issued_by(body, b as nat), stmts.len());
            0 <= k < es.len() && es[k] == e
        }),
    ensures
        exists|j: int| 0 <= j < all_errors(body, obs, n).len() && #[trigger] all_errors(body, obs, n)[j] == e,
    decreases n,
{
    let m = (n - 1) as nat;
    let had = all_errors(body, obs, m);
    let now = all_errors(body, obs, n);
    if b == m {
        assert(now[had.len() + k] == e);
    } else {
        lemma_error_in_body(body, obs, b, m, e, k);
        let j = choose|j: int| 0 <= j < had.len() && #[trigger] had[j] == e;
        assert(now[j] == had[j]);
    }
}

/// Every check that fails satisfies the condition of its error: where a run of a block comes
/// to a check of a selected obligation whose condition is zero, and nothing overflowed, the
/// conditions of the obligation have one that holds of the values before the block.
pub proof fn law_failing_checks_satisfy_their_errors(
    body: Body,
    obs: Seq<ObligationId>,
    b: BlockId,
    vals: Seq<Value>,
    chosen: spec_fn(int) -> Value,
    j: int,
)
    requires
        horn::typed_body(body),
        b.0 < body.blocks@.len(),
        horn::typed(body, vals),
        horn::typed_choice(body.blocks@[b.0 as int].stmts@, chosen),
        0 <= j < body.blocks@[b.0 as int].stmts@.len(),
        body.blocks@[b.0 as int].stmts@[j] matches Stmt::Check(id) && obs.contains(id),
        ({
            let stmts = body.blocks@[b.0 as int].stmts@;
            let q = horn::stmts_run(body, obs, stmts, horn::begun(vals), chosen, j as nat);
            &&& faithful(body, obs, stmts, horn::begun(vals), chosen, j as nat)
            &&& q.live
            &&& horn::operand_value(
                q.vals,
                body.obligations@[stmts[j]->Check_0.0 as int].cond,
            ).number() == 0
        }),
    ensures
        exists|env: Env, k: int|
            relates(env, vals, vals) && 0 <= k < all_errors(body, obs, body.blocks@.len()).len()
                && #[trigger] all_hold(all_errors(body, obs, body.blocks@.len())[k].1, env) && all_errors(
                body,
                obs,
                body.blocks@.len(),
            )[k].0 == body.blocks@[b.0 as int].stmts@[j]->Check_0,
{
    let block = body.blocks@[b.0 as int];
    let stmts = block.stmts@;
    let m = j as nat;
    let issued = issued_by(body, b.0 as nat);
    assert(block.in_range(body.blocks@.len(), body.vars@.len(), body.obligations@.len()));
    assert(horn::typed_stmts(body, stmts)) by {
        assert forall|i: int| 0 <= i < stmts.len() implies horn::typed_stmt(body, #[trigger] stmts[i])
            && ir::stmt_in_range(stmts[i], body.vars@.len(), body.obligations@.len()) by {
            assert(body.blocks@[b.0 as int].stmts@[i] == stmts[i]);
        }
    }
    reveal_with_fuel(int_value, 3);
    reveal_with_fuel(test_holds, 3);
    let id = stmts[j]->Check_0;
    let cond = body.obligations@[id.0 as int].cond;
    assert(cond.in_range(body.vars@.len()));
    let q = horn::stmts_run(body, obs, stmts, horn::begun(vals), chosen, m);
    let s = stmts_stand(body, stmts, issued, m);
    let fresh = fresh_values(body, obs, stmts, issued, horn::begun(vals), chosen, m);
    let env = env_of(vals, vals, issued.len(), fresh);
    lemma_stands(body, obs, stmts, issued, horn::begun(vals), chosen, m, env);
    let facts = s.bindings + s.conds.push(is_zero(operand_int(s.vars, cond)));
    assert(int_value(operand_int(s.vars, cond), env) == horn::operand_value(q.vals, cond).number());
    assert forall|i: int| 0 <= i < facts.len() implies test_holds(#[trigger] facts[i], env) by {
        let a = s.bindings.len();
        if i < a {
            assert(facts[i] == s.bindings[i]);
        } else if i < a + s.conds.len() {
            assert(facts[i] == s.conds[i - a]);
        } else {
            assert(facts[i] == is_zero(operand_int(s.vars, cond)));
        }
    }
    lemma_error_in_block(body, obs, stmts, issued, j, stmts.len());
    let es = errors(body, obs, stmts, issued, stmts.len());
    let k = choose|k: int| 0 <= k < es.len() && #[trigger] es[k] == (id, facts);
    lemma_error_in_body(body, obs, b.0 as int, body.blocks@.len(), (id, facts), k);
    let all = all_errors(body, obs, body.blocks@.len());
    let i = choose|i: int| 0 <= i < all.len() && #[trigger] all[i] == (id, facts);
    assert(all_hold(all[i].1, env));
    assert(relates(env, vals, vals));
}

// ---------------------------------------------------------------------------
// What is written is the formulas
// ---------------------------------------------------------------------------

spec fn pool_of(issued: Seq<u32>) -> PoolV {
    PoolV {
        prefix: ""@,
        issued: Seq::new(issued.len(), |k: int| (sym_text(Sym::Fresh(k as nat)), issued[k])),
    }
}

spec fn int_texts(v: Seq<Int>) -> Seq<Seq<char>> {
    v.map_values(|b: Int| int_text(b))
}

spec fn test_texts(v: Seq<Test>) -> Seq<Seq<char>> {
    v.map_values(|t: Test| test_text(t))
}

spec fn point_of(s: Stand) -> smt_text::Point {
    smt_text::Point {
        vars: int_texts(s.vars),
        conds: test_texts(s.conds),
        bindings: test_texts(s.bindings),
        pool: pool_of(s.issued),
    }
}

proof fn lemma_constants()
    ensures
        num_text(0) == "0"@,
        num_text(1) == "1"@,
        num_text(-1) == "(- 1)"@,
{
    reveal_strlit("0");
    reveal_strlit("1");
    reveal_strlit("(- 1)");
    reveal_strlit("-");
    reveal_strlit("(");
    reveal_strlit(")");
    reveal_strlit(" ");
    horn::lemma_lists("-"@, text::dec(1), "-"@, "-"@);
    assert(num_text(0) =~= "0"@);
    assert(num_text(1) =~= "1"@);
    assert(text::sexp1("-"@, text::dec(1)) =~= "(- 1)"@);
}

proof fn lemma_number(n: int)
    ensures
        smt_text::number_text(n) == num_text(n),
{
    horn::lemma_lists("-"@, text::dec((-n) as nat), "-"@, "-"@);
}

proof fn lemma_operand_text(theory: &LiaTheory, vars: Seq<Int>, o: Operand)
    requires
        o.in_range(vars.len()),
        horn::whole(o),
    ensures
        smt_text::operand_text(theory, o, smt_text::by_index(int_texts(vars))) == int_text(
            operand_int(vars, o),
        ),
{
    lemma_constants();
    match o {
        Operand::Const(Const::Int(n)) => {
            lemma_number(n as int);
        },
        Operand::Const(Const::Long(n)) => {
            lemma_number(n as int);
        },
        _ => {},
    }
}

proof fn lemma_is_zero_text(theory: &LiaTheory, vars: Seq<Int>, o: Operand)
    requires
        o.in_range(vars.len()),
        horn::whole(o),
    ensures
        theory.is_zero_text(
            smt_text::operand_text(theory, o, smt_text::by_index(int_texts(vars))),
        ) == test_text(is_zero(operand_int(vars, o))),
        text::sexp1("not"@, test_text(is_zero(operand_int(vars, o)))) == test_text(
            not(is_zero(operand_int(vars, o))),
        ),
{
    reveal_with_fuel(int_text, 3);
    reveal_with_fuel(test_text, 3);
    lemma_constants();
    lemma_operand_text(theory, vars, o);
    let x = int_text(operand_int(vars, o));
    horn::lemma_lists("="@, x, "0"@, x);
    horn::lemma_lists("not"@, test_text(is_zero(operand_int(vars, o))), x, x);
}

proof fn lemma_rvalue_text(theory: &LiaTheory, body: Body, v: ir::VarId, vars: Seq<Int>, rv: Rvalue, issued: Seq<u32>)
    requires
        vars.len() == body.vars@.len(),
        ir::operands_in_range(ir::rvalue_operands(rv), vars.len()),
        horn::typed_stmt(body, Stmt::Assign(v, rv)),
    ensures
        smt_text::rvalue_text(theory, rv, smt_text::by_index(int_texts(vars)), pool_of(issued))
            == int_text(rvalue_int(vars, rv, issued.len())),
        smt_text::precise(theory, rv) == computed(rv),
{
    reveal_with_fuel(int_text, 4);
    reveal_with_fuel(test_text, 4);
    lemma_constants();
    let ops = ir::rvalue_operands(rv);
    let (one, zero) = ("1"@, "0"@);
    match rv {
        Rvalue::Use(o) | Rvalue::Neg(o) | Rvalue::Cast(_, o) => {
            assert(ops[0] == o);
            lemma_operand_text(theory, vars, o);
            let x = int_text(operand_int(vars, o));
            horn::lemma_lists("-"@, zero, x, x);
        },
        Rvalue::Bin(op, a, b) => {
            assert(ops[0] == a && ops[1] == b);
            lemma_operand_text(theory, vars, a);
            lemma_operand_text(theory, vars, b);
            let x = int_text(operand_int(vars, a));
            let y = int_text(operand_int(vars, b));
            let name = op_name(op);
            horn::lemma_lists(name, x, y, x);
            horn::lemma_lists("ite"@, text::sexp2(name, x, y), one, zero);
            horn::lemma_lists("not"@, text::sexp2("="@, x, y), x, x);
            horn::lemma_lists("ite"@, text::sexp1("not"@, text::sexp2("="@, x, y)), one, zero);
        },
        Rvalue::Cmp(a, b) => {
            assert(ops[0] == a && ops[1] == b);
            lemma_operand_text(theory, vars, a);
            lemma_operand_text(theory, vars, b);
            let x = int_text(operand_int(vars, a));
            let y = int_text(operand_int(vars, b));
            horn::lemma_lists("<"@, x, y, x);
            horn::lemma_lists("="@, x, y, x);
            horn::lemma_lists("ite"@, text::sexp2("="@, x, y), zero, one);
            horn::lemma_lists(
                "ite"@,
                text::sexp2("<"@, x, y),
                "(- 1)"@,
                text::sexp3("ite"@, text::sexp2("="@, x, y), zero, one),
            );
        },
        _ => {},
    }
}

proof fn lemma_dec_first(n: nat)
    ensures
        text::dec(n).len() > 0,
        text::dec(n)[0] != '(',
        '0' <= text::dec(n)[0],
        text::dec(n).last() != 'p',
    decreases n,
{
    if n >= 10 {
        lemma_dec_first(n / 10);
    }
}

proof fn lemma_trivial(b: Int)
    ensures
        smt_text::trivial(int_text(b)) <==> simple(b),
{
    reveal_strlit("(");
    reveal_strlit("v");
    reveal_strlit("");
    reveal_strlit("fresh");
    reveal_with_fuel(int_text, 1);
    let t = int_text(b);
    match b {
        Int::Sym(Sym::Before(_)) | Int::Sym(Sym::After(_)) => {
            assert(t[0] == 'v');
            assert(t.take(1)[0] == 'v');
        },
        Int::Sym(Sym::Fresh(_)) => {
            assert(t[0] == 'f');
            assert(t.take(1)[0] == 'f');
        },
        Int::Num(n) => {
            if n >= 0 {
                lemma_dec_first(n as nat);
                assert(t.take(1)[0] == t[0]);
            } else {
                assert(t[0] == '(');
                assert(t.take(1) =~= "("@);
            }
        },
        _ => {
            assert(t[0] == '(');
            assert(t.take(1) =~= "("@);
        },
    }
}

/// No term speaks of values after the step.
spec fn earlier(v: Seq<Int>) -> bool {
    forall|i: int|
        0 <= i < v.len() ==> simple(#[trigger] v[i]) && !(v[i] matches Int::Sym(Sym::After(_)))
}

proof fn lemma_step_text(theory: &LiaTheory, body: Body, s: Stmt, p: Stand)
    requires
        p.vars.len() == body.vars@.len(),
        earlier(p.vars),
        horn::typed_stmt(body, s),
        ir::stmt_in_range(s, body.vars@.len(), body.obligations@.len()),
    ensures
        smt_text::step(theory, body, s, point_of(p)) == point_of(stmt_stand(body, s, p)),
        stmt_stand(body, s, p).vars.len() == p.vars.len(),
        earlier(stmt_stand(body, s, p).vars),
{
    let q = stmt_stand(body, s, p);
    let t = smt_text::step(theory, body, s, point_of(p));
    match s {
        Stmt::Assign(v, rv) => {
            let k = p.issued.len();
            let e = rvalue_int(p.vars, rv, k);
            lemma_rvalue_text(theory, body, v, p.vars, rv, p.issued);
            lemma_trivial(e);
            match rv {
                Rvalue::Use(o) | Rvalue::Cast(_, o) => {
                    assert(ir::rvalue_operands(rv)[0] == o);
                },
                _ => {},
            }
            let n = sym_text(Sym::Fresh(k));
            assert(pool_of(p.issued).next() == n);
            if computed(rv) && !simple(e) {
                reveal_with_fuel(int_text, 2);
                reveal_with_fuel(test_text, 2);
                horn::lemma_lists("="@, n, int_text(e), n);
            }
            assert(t.vars =~= point_of(q).vars);
            assert(t.bindings =~= point_of(q).bindings);
            assert(t.pool.issued =~= point_of(q).pool.issued);
        },
        Stmt::Assume(o) => {
            lemma_is_zero_text(theory, p.vars, o);
            assert(t.conds =~= point_of(q).conds);
        },
        _ => {},
    }
}

proof fn lemma_stand_text(theory: &LiaTheory, body: Body, stmts: Seq<Stmt>, issued: Seq<u32>, n: nat)
    requires
        horn::typed_stmts(body, stmts),
        n <= stmts.len(),
    ensures
        smt_text::stmts_point(theory, body, stmts, pool_of(issued), n) == point_of(
            stmts_stand(body, stmts, issued, n),
        ),
        stmts_stand(body, stmts, issued, n).vars.len() == body.vars@.len(),
        earlier(stmts_stand(body, stmts, issued, n).vars),
    decreases n,
{
    let q = stmts_stand(body, stmts, issued, n);
    if n == 0 {
        reveal_with_fuel(int_text, 1);
        let t = smt_text::block_start(body, pool_of(issued));
        assert(t.vars =~= point_of(q).vars);
        assert(t.conds =~= point_of(q).conds);
        assert(t.bindings =~= point_of(q).bindings);
    } else {
        lemma_stand_text(theory, body, stmts, issued, (n - 1) as nat);
        lemma_step_text(theory, body, stmts[n - 1], stmts_stand(body, stmts, issued, (n - 1) as nat));
    }
}

proof fn lemma_not_after(b: Int, i: nat)
    requires
        simple(b),
        !(b matches Int::Sym(Sym::After(_))),
    ensures
        int_text(b) != sym_text(Sym::After(i)),
{
    reveal_strlit("p");
    reveal_with_fuel(int_text, 1);
    assert(sym_text(Sym::After(i)).last() == 'p');
    match b {
        Int::Sym(Sym::Before(k)) | Int::Sym(Sym::Fresh(k)) => {
            lemma_dec_first(k);
            assert(int_text(b).last() == text::dec(k).last());
        },
        Int::Num(n) => {
            lemma_dec_first(n as nat);
        },
        _ => {},
    }
}

proof fn lemma_updates_text(vars: Seq<Int>, n: nat)
    requires
        n <= vars.len(),
        earlier(vars),
    ensures
        smt_text::post_equations(int_texts(vars), "v"@, "p"@, n) == test_texts(updates(vars)).take(
            n as int,
        ),
    decreases n,
{
    let all = test_texts(updates(vars));
    if n == 0 {
        assert(all.take(0) =~= Seq::empty());
    } else {
        let i = (n - 1) as nat;
        lemma_updates_text(vars, i);
        lemma_not_after(vars[i as int], i);
        reveal_with_fuel(int_text, 2);
        reveal_with_fuel(test_text, 2);
        let post = sym_text(Sym::After(i));
        horn::lemma_lists("="@, post, int_text(vars[i as int]), post);
        assert(all.take(n as int) =~= all.take(i as int).push(all[i as int]));
    }
}

proof fn lemma_all_text(facts: Seq<Test>)
    ensures
        smt_text::conjunction(test_texts(facts)) == all_text(facts),
{
    let parts = test_texts(facts);
    assert(parts =~= facts.map_values(|t: Test| test_text(t)));
    horn::lemma_row(parts);
    horn::lemma_lists("and"@, horn::row(parts), "and"@, "and"@);
}

/// The clause is an edge that is written as the facts.
spec fn writes(c: Clause, facts: Seq<Test>) -> bool {
    &&& c is Transition
    &&& smt_text::edge_facts(c->Transition_0, ""@ + "v"@, "p"@) == test_texts(facts)
}

proof fn lemma_edge_text(from: BlockId, to: Option<BlockId>, extra: Seq<Test>, s: Stand, mark: nat)
    requires
        earlier(s.vars),
    ensures
        writes(
            smt_text::edge_clause(from, to, test_texts(extra), point_of(s), mark),
            edge(s, extra),
        ),
{
    reveal_strlit("");
    assert(""@ + "v"@ =~= "v"@);
    lemma_updates_text(s.vars, s.vars.len());
    let all = test_texts(updates(s.vars));
    assert(all.take(s.vars.len() as int) =~= all);
    let c = smt_text::edge_clause(from, to, test_texts(extra), point_of(s), mark);
    assert(smt_text::edge_facts(c->Transition_0, ""@ + "v"@, "p"@) =~= test_texts(edge(s, extra)));
}

proof fn lemma_case_text(theory: &LiaTheory, v: Int, case: i32)
    ensures
        smt_text::case_text(theory, int_text(v), case) == test_text(
            test(BinOp::Eq, v, Int::Num(case as int)),
        ),
        text::sexp1("not"@, test_text(test(BinOp::Eq, v, Int::Num(case as int)))) == test_text(
            not(test(BinOp::Eq, v, Int::Num(case as int))),
        ),
{
    reveal_with_fuel(int_text, 2);
    reveal_with_fuel(test_text, 3);
    lemma_number(case as int);
    let vt = int_text(v);
    horn::lemma_lists("="@, vt, num_text(case as int), vt);
    horn::lemma_lists("not"@, test_text(test(BinOp::Eq, v, Int::Num(case as int))), vt, vt);
}

/// The edges of a terminator are written as its alternatives.
proof fn lemma_ways_text(theory: &LiaTheory, body: Body, b: ir::Block, s: Stand, mark: nat)
    requires
        earlier(s.vars),
        s.vars.len() == body.vars@.len(),
        horn::typed_term(body, b.term),
        ir::term_in_range(b.term, body.vars@.len()),
    ensures
        ({
            let x = smt_text::term_edges(theory, b, point_of(s), mark);
            let y = ways(b, s);
            &&& x.len() == y.len()
            &&& forall|k: int| 0 <= k < x.len() ==> writes(#[trigger] x[k], y[k])
        }),
{
    let x = smt_text::term_edges(theory, b, point_of(s), mark);
    let y = ways(b, s);
    assert(test_texts(Seq::<Test>::empty()) =~= Seq::empty());
    match b.term {
        Terminator::Goto(t) => {
            lemma_edge_text(b.id, Some(t), Seq::empty(), s, mark);
        },
        Terminator::Return(_) | Terminator::Halt => {
            lemma_edge_text(b.id, None, Seq::empty(), s, mark);
        },
        Terminator::Branch { cond, then_, else_ } => {
            lemma_is_zero_text(theory, s.vars, cond);
            let zero = is_zero(operand_int(s.vars, cond));
            assert(test_texts(seq![zero]) =~= seq![test_text(zero)]);
            assert(test_texts(seq![not(zero)]) =~= seq![test_text(not(zero))]);
            lemma_edge_text(b.id, Some(then_), seq![not(zero)], s, mark);
            lemma_edge_text(b.id, Some(else_), seq![zero], s, mark);
        },
        Terminator::Switch { value, cases, default } => {
            lemma_operand_text(theory, s.vars, value);
            let v = operand_int(s.vars, value);
            let is = |i: int| test(BinOp::Eq, v, Int::Num(cases@[i].0 as int));
            let vt = int_text(v);
            let n = cases@.len();
            let none = Seq::new(n, |i: int| not(is(i)));
            let texts = smt_text::no_case(theory, vt, cases@, n);
            assert forall|i: int| 0 <= i < n implies test_texts(none)[i] == #[trigger] texts[i] by {
                lemma_case_text(theory, v, cases@[i].0);
            }
            assert(test_texts(none) =~= texts);
            lemma_edge_text(b.id, Some(default), none, s, mark);
            assert forall|k: int| 0 <= k < x.len() implies writes(#[trigger] x[k], y[k]) by {
                if k < n {
                    lemma_case_text(theory, v, cases@[k].0);
                    assert(test_texts(seq![is(k)]) =~= seq![
                        smt_text::case_text(theory, vt, cases@[k].0),
                    ]);
                    lemma_edge_text(b.id, Some(cases@[k].1), seq![is(k)], s, mark);
                    assert(y[k] == edge(s, seq![is(k)]));
                }
            }
        },
        _ => {},
    }
}

/// The formulas of the errors.
spec fn error_texts(es: Seq<(ObligationId, Seq<Test>)>) -> Seq<(ObligationId, Seq<char>)> {
    es.map_values(|e: (ObligationId, Seq<Test>)| (e.0, all_text(e.1)))
}

spec fn way_texts(ws: Seq<Seq<Test>>) -> Seq<Seq<char>> {
    ws.map_values(|f: Seq<Test>| all_text(f))
}

proof fn lemma_errors_text(theory: &LiaTheory, body: Body, obs: Seq<ObligationId>, b: ir::Block, issued: Seq<u32>, n: nat)
    requires
        body.well_formed(),
        horn::typed_stmts(body, b.stmts@),
        n <= b.stmts@.len(),
    ensures
        ({
            let x = smt_text::errors_of(theory, body, obs, b, pool_of(issued), n);
            let y = errors(body, obs, b.stmts@, issued, n);
            &&& x.len() == y.len()
            &&& interpolation::error_conditions(x, x.len()) == error_texts(y)
            &&& forall|k: int| 0 <= k < x.len() ==> #[trigger] x[k] is Error
        }),
    decreases n,
{
    let x = smt_text::errors_of(theory, body, obs, b, pool_of(issued), n);
    let y = errors(body, obs, b.stmts@, issued, n);
    if n == 0 {
        assert(error_texts(y) =~= Seq::empty());
    } else {
        let m = (n - 1) as nat;
        lemma_errors_text(theory, body, obs, b, issued, m);
        lemma_stand_text(theory, body, b.stmts@, issued, m);
        let x0 = smt_text::errors_of(theory, body, obs, b, pool_of(issued), m);
        let y0 = errors(body, obs, b.stmts@, issued, m);
        let s = b.stmts@[m as int];
        let p = stmts_stand(body, b.stmts@, issued, m);
        assert(horn::typed_stmt(body, s));
        let here = smt_text::error_of(theory, body, obs, b.id, s, point_of(p), issued.len());
        assert(x == x0 + here);
        match s {
            Stmt::Check(id) if obs.contains(id) => {
                let cond = body.obligations@[id.0 as int].cond;
                assert(cond.in_range(body.vars@.len()));
                lemma_is_zero_text(theory, p.vars, cond);
                let facts = p.bindings + p.conds.push(is_zero(operand_int(p.vars, cond)));
                let e = here[0]->Error_0;
                assert(e.bindings + e.conds =~= test_texts(facts));
                lemma_all_text(facts);
                lemma_conditions_split(x0, here, 1);
                reveal_with_fuel(interpolation::error_conditions, 2);
                assert(interpolation::error_conditions(here, 1) =~= seq![(id, all_text(facts))]);
                assert(error_texts(y) =~= error_texts(y0).push((id, all_text(facts))));
                assert(interpolation::error_conditions(x, x.len()) =~= error_texts(y));
            },
            _ => {
                assert(x =~= x0);
            },
        }
    }
}

proof fn lemma_conditions_split(xs: Seq<Clause>, ys: Seq<Clause>, k: nat)
    requires
        k <= ys.len(),
    ensures
        interpolation::error_conditions(xs + ys, xs.len() + k) == interpolation::error_conditions(
            xs,
            xs.len(),
        ) + interpolation::error_conditions(ys, k),
        interpolation::disjuncts(""@, xs + ys, xs.len() + k) == interpolation::disjuncts(
            ""@,
            xs,
            xs.len(),
        ) + interpolation::disjuncts(""@, ys, k),
    decreases k,
{
    let all = xs + ys;
    if k == 0 {
        lemma_conditions_prefix(xs, ys, xs.len());
        assert(interpolation::error_conditions(all, xs.len()) =~= interpolation::error_conditions(
            xs,
            xs.len(),
        ) + interpolation::error_conditions(ys, 0));
        assert(interpolation::disjuncts(""@, all, xs.len()) =~= interpolation::disjuncts(
            ""@,
            xs,
            xs.len(),
        ) + interpolation::disjuncts(""@, ys, 0));
    } else {
        lemma_conditions_split(xs, ys, (k - 1) as nat);
        assert(all[xs.len() + k - 1] == ys[k - 1]);
        assert(interpolation::error_conditions(all, xs.len() + k) =~= interpolation::error_conditions(
            xs,
            xs.len(),
        ) + interpolation::error_conditions(ys, k));
        assert(interpolation::disjuncts(""@, all, xs.len() + k) =~= interpolation::disjuncts(
            ""@,
            xs,
            xs.len(),
        ) + interpolation::disjuncts(""@, ys, k));
    }
}

proof fn lemma_conditions_prefix(xs: Seq<Clause>, ys: Seq<Clause>, k: nat)
    requires
        k <= xs.len(),
    ensures
        interpolation::error_conditions(xs + ys, k) == interpolation::error_conditions(xs, k),
        interpolation::disjuncts(""@, xs + ys, k) == interpolation::disjuncts(""@, xs, k),
    decreases k,
{
    if k > 0 {
        lemma_conditions_prefix(xs, ys, (k - 1) as nat);
        assert((xs + ys)[k - 1] == xs[k - 1]);
    }
}

proof fn lemma_no_edges(xs: Seq<Clause>, k: nat)
    requires
        k <= xs.len(),
        forall|i: int| 0 <= i < xs.len() ==> #[trigger] xs[i] is Error,
    ensures
        interpolation::disjuncts(""@, xs, k) == Seq::<Seq<char>>::empty(),
    decreases k,
{
    if k > 0 {
        lemma_no_edges(xs, (k - 1) as nat);
        assert(xs[k - 1] is Error);
    }
}

proof fn lemma_edges_only(xs: Seq<Clause>, ws: Seq<Seq<Test>>, k: nat)
    requires
        k <= xs.len(),
        xs.len() == ws.len(),
        forall|i: int| 0 <= i < xs.len() ==> writes(#[trigger] xs[i], ws[i]),
        forall|i: int| 0 <= i < ws.len() ==> (#[trigger] ws[i]).len() > 0,
    ensures
        interpolation::disjuncts(""@, xs, k) == way_texts(ws).take(k as int),
        interpolation::error_conditions(xs, k) == Seq::<(ObligationId, Seq<char>)>::empty(),
    decreases k,
{
    let all = way_texts(ws);
    if k == 0 {
        assert(all.take(0) =~= Seq::empty());
    } else {
        let m = (k - 1) as nat;
        lemma_edges_only(xs, ws, m);
        assert(writes(xs[m as int], ws[m as int]));
        assert(ws[m as int].len() > 0);
        lemma_all_text(ws[m as int]);
        assert(all.take(k as int) =~= all.take(m as int).push(all[m as int]));
    }
}

proof fn lemma_ways_nonempty(b: ir::Block, s: Stand)
    requires
        s.vars.len() > 0,
    ensures
        forall|i: int| 0 <= i < ways(b, s).len() ==> (#[trigger] ways(b, s)[i]).len() > 0,
{
}

proof fn lemma_body_text(theory: &LiaTheory, body: Body, obs: Seq<ObligationId>, n: nat)
    requires
        horn::typed_body(body),
        body.vars@.len() > 0,
        n <= body.blocks@.len(),
    ensures
        ({
            let pool = PoolV { prefix: ""@, issued: Seq::empty() };
            let x = smt_text::walk_clauses(theory, body, obs, pool, n);
            &&& smt_text::walk_pool(theory, body, pool, n) == pool_of(issued_by(body, n))
            &&& interpolation::disjuncts(""@, x, x.len()) == way_texts(transition(body, n))
            &&& interpolation::error_conditions(x, x.len()) == error_texts(all_errors(body, obs, n))
        }),
    decreases n,
{
    let pool = PoolV { prefix: ""@, issued: Seq::empty() };
    let x = smt_text::walk_clauses(theory, body, obs, pool, n);
    if n == 0 {
        assert(pool.issued =~= pool_of(issued_by(body, 0)).issued);
        assert(way_texts(transition(body, 0)) =~= Seq::empty());
        assert(error_texts(all_errors(body, obs, 0)) =~= Seq::empty());
    } else {
        let m = (n - 1) as nat;
        lemma_body_text(theory, body, obs, m);
        let b = body.blocks@[m as int];
        let stmts = b.stmts@;
        let issued = issued_by(body, m);
        assert(b.in_range(body.blocks@.len(), body.vars@.len(), body.obligations@.len()));
        assert(horn::typed_stmts(body, stmts)) by {
            assert forall|j: int| 0 <= j < stmts.len() implies horn::typed_stmt(body, #[trigger] stmts[j])
                && ir::stmt_in_range(stmts[j], body.vars@.len(), body.obligations@.len()) by {
                assert(body.blocks@[m as int].stmts@[j] == stmts[j]);
            }
        }
        let s = stmts_stand(body, stmts, issued, stmts.len());
        lemma_stand_text(theory, body, stmts, issued, stmts.len());
        lemma_errors_text(theory, body, obs, b, issued, stmts.len());
        lemma_ways_text(theory, body, b, s, issued.len());
        lemma_ways_nonempty(b, s);
        let x0 = smt_text::walk_clauses(theory, body, obs, pool, m);
        let es = smt_text::errors_of(theory, body, obs, b, pool_of(issued), stmts.len());
        let ts = smt_text::term_edges(theory, b, point_of(s), issued.len());
        let here = es + ts;
        assert(x == x0 + here);
        lemma_no_edges(es, es.len());
        lemma_edges_only(ts, ways(b, s), ts.len());
        let ws = way_texts(ways(b, s));
        assert(ws.take(ts.len() as int) =~= ws);
        lemma_conditions_split(es, ts, ts.len());
        lemma_conditions_split(x0, here, here.len());
        assert(interpolation::disjuncts(""@, x, x.len()) =~= way_texts(transition(body, n)));
        assert(interpolation::error_conditions(x, x.len()) =~= error_texts(all_errors(body, obs, n)));
    }
}

/// The texts of the encoding are those of the formulas that the laws above speak of: the
/// transition relation is one of the alternatives of the blocks, and each obligation has
/// the conditions of its errors.
pub proof fn law_encoding_is_what_is_written(theory: &LiaTheory, body: Body, obs: Seq<ObligationId>)
    requires
        horn::typed_body(body),
        body.vars@.len() > 0,
    ensures
        ({
            let e = interpolation::lia_encoding(theory, body, obs, ""@);
            let errors = all_errors(body, obs, body.blocks@.len());
            &&& e.transition == any_text(transition(body, body.blocks@.len()))
            &&& e.error_formulas.len() == errors.len()
            &&& forall|k: int|
                0 <= k < errors.len() ==> #[trigger] e.error_formulas[k] == (
                    errors[k].0,
                    all_text(errors[k].1),
                )
        }),
{
    let n = body.blocks@.len();
    lemma_body_text(theory, body, obs, n);
    let parts = way_texts(transition(body, n));
    assert(parts =~= transition(body, n).map_values(|f: Seq<Test>| all_text(f)));
    horn::lemma_row(parts);
    horn::lemma_lists("or"@, horn::row(parts), "or"@, "or"@);
}

} // verus!
