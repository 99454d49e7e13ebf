//! What the clauses of a Horn script mean, how a body runs, and that the script of a
//! body says so: an interpretation that satisfies it is an invariant of every run.

use vstd::prelude::*;
use vstd::string::*;

use crate::chc;
use crate::concrete::value;
use crate::concrete::value::Value;
use crate::ir;
use crate::ir::{BinOp, BlockId, Body, Const, ObligationId, Operand, Rvalue, Stmt, Terminator, Ty, VarInfo};
use crate::smt_bmc::meaning;
use crate::smt_bmc::wide;
use crate::smt_text;
use crate::smt_text::{BitvectorTheory, Clause, PoolV, SmtTheory};
use crate::term::Op2;
use crate::text;

verus! {

/// A symbol of a clause: the value of a variable before an edge or after it, or a fresh
/// one.
pub enum Sym {
    Before(nat),
    After(nat),
    Fresh(nat),
}

/// A term over bit vectors of 32 and of 64 bits.
pub enum Bits {
    Sym(Sym),
    Num(Value),
    App(Op2, Box<Bits>, Box<Bits>),
    Neg(Box<Bits>),
    /// A number of 32 bits as one of 64.
    Extend(Box<Bits>),
    /// The low 32 bits.
    Low(Box<Bits>),
    Ite(Box<Test>, Box<Bits>, Box<Bits>),
}

/// A comparison of terms.
pub enum Test {
    Is(Op2, Box<Bits>, Box<Bits>),
    Not(Box<Test>),
}

/// A clause: whatever the bound symbols stand for, where the facts hold and the first
/// relation holds of its arguments, the second one does. Without a second relation the
/// error state is reached.
pub struct Horn {
    pub vars: Seq<(Sym, u32)>,
    pub fresh: Seq<(Sym, u32)>,
    pub facts: Seq<Test>,
    pub from: (nat, Seq<Sym>),
    pub to: Option<(nat, Seq<Sym>)>,
}

// ---------------------------------------------------------------------------
// How it is written
// ---------------------------------------------------------------------------

/// The parts with a blank between neighbours.
pub open spec fn row(parts: Seq<Seq<char>>) -> Seq<char>
    decreases parts.len(),
{
    if parts.len() == 0 {
        Seq::empty()
    } else if parts.len() == 1 {
        parts[0]
    } else {
        row(parts.drop_last()) + " "@ + parts.last()
    }
}

/// The parts in brackets.
pub open spec fn list(parts: Seq<Seq<char>>) -> Seq<char> {
    "("@ + row(parts) + ")"@
}

pub open spec fn sym_text(s: Sym) -> Seq<char> {
    match s {
        Sym::Before(i) => "v"@ + text::dec(i),
        Sym::After(i) => "v"@ + text::dec(i) + "'"@,
        Sym::Fresh(k) => "chc_"@ + "fresh"@ + text::dec(k),
    }
}

/// The name of an operator or a comparison.
pub open spec fn op_name(op: Op2) -> Seq<char> {
    match op {
        Op2::BvAdd => "bvadd"@,
        Op2::BvSub => "bvsub"@,
        Op2::BvMul => "bvmul"@,
        Op2::BvSdiv => "bvsdiv"@,
        Op2::BvSrem => "bvsrem"@,
        Op2::BvAnd => "bvand"@,
        Op2::BvOr => "bvor"@,
        Op2::BvXor => "bvxor"@,
        Op2::BvShl => "bvshl"@,
        Op2::BvAshr => "bvashr"@,
        Op2::BvLshr => "bvlshr"@,
        Op2::BvSlt => "bvslt"@,
        Op2::BvSle => "bvsle"@,
        Op2::BvSgt => "bvsgt"@,
        Op2::BvSge => "bvsge"@,
        _ => "="@,
    }
}

/// The bits of a number, as the natural number that they write.
pub open spec fn bits_of(n: int, w: u32) -> nat {
    (if n >= 0 {
        n
    } else if w == 64 {
        n + 0x1_0000_0000_0000_0000
    } else {
        n + 0x1_0000_0000
    }) as nat
}

pub open spec fn num_text(v: Value) -> Seq<char> {
    if v is I64 {
        "#x"@ + text::hex(bits_of(v.number() as int, 64), 16)
    } else {
        "#x"@ + text::hex(bits_of(v.number() as int, 32), 8)
    }
}

pub open spec fn bits_text(b: Bits) -> Seq<char>
    decreases b,
{
    match b {
        Bits::Sym(s) => sym_text(s),
        Bits::Num(v) => num_text(v),
        Bits::App(op, x, y) => list(seq![op_name(op), bits_text(*x), bits_text(*y)]),
        Bits::Neg(x) => list(seq!["bvneg"@, bits_text(*x)]),
        Bits::Extend(x) => list(seq!["(_ sign_extend 32)"@, bits_text(*x)]),
        Bits::Low(x) => list(seq!["(_ extract 31 0)"@, bits_text(*x)]),
        Bits::Ite(c, x, y) => list(seq!["ite"@, test_text(*c), bits_text(*x), bits_text(*y)]),
    }
}

pub open spec fn test_text(t: Test) -> Seq<char>
    decreases t,
{
    match t {
        Test::Is(op, x, y) => list(seq![op_name(op), bits_text(*x), bits_text(*y)]),
        Test::Not(c) => list(seq!["not"@, test_text(*c)]),
    }
}

/// A symbol with its sort.
pub open spec fn bound_text(b: (Sym, u32)) -> Seq<char> {
    list(seq![sym_text(b.0), list(seq!["_"@, "BitVec"@, text::dec(b.1 as nat)])])
}

pub open spec fn bounds_row(b: Seq<(Sym, u32)>) -> Seq<char> {
    row(b.map_values(|s: (Sym, u32)| bound_text(s)))
}

/// A relation and its arguments.
pub open spec fn atom_text(a: (nat, Seq<Sym>)) -> Seq<char> {
    "("@ + ("block_"@ + text::dec(a.0)) + " "@ + row(a.1.map_values(|s: Sym| sym_text(s))) + ")"@
}

/// What is bound: the variables, and the fresh symbols if there are any.
pub open spec fn quantified(h: Horn) -> Seq<char> {
    if h.fresh.len() == 0 {
        bounds_row(h.vars)
    } else {
        bounds_row(h.vars) + " "@ + bounds_row(h.fresh)
    }
}

/// All of what must hold.
pub open spec fn premise(h: Horn) -> Seq<char> {
    let parts = h.facts.map_values(|t: Test| test_text(t)).push(atom_text(h.from));
    if parts.len() == 1 {
        parts[0]
    } else {
        list(seq!["and"@, row(parts)])
    }
}

pub open spec fn horn_text(h: Horn) -> Seq<char> {
    "(assert (forall ("@ + quantified(h) + ") (=> "@ + premise(h) + " "@ + match h.to {
        Some(a) => atom_text(a),
        None => "error"@,
    } + ")))\n"@
}

/// A clause that says nothing is not written.
pub open spec fn line_text(h: Option<Horn>) -> Seq<char> {
    match h {
        Some(c) => horn_text(c),
        None => Seq::empty(),
    }
}

/// The first `n` lines.
pub open spec fn lines_text(hs: Seq<Option<Horn>>, n: nat) -> Seq<char>
    decreases n,
{
    if n == 0 {
        Seq::empty()
    } else {
        lines_text(hs, (n - 1) as nat) + line_text(hs[n - 1])
    }
}

// ---------------------------------------------------------------------------
// What it means
// ---------------------------------------------------------------------------

/// What the symbols stand for.
pub type Env = spec_fn(Sym) -> Value;

pub open spec fn bits_value(b: Bits, env: Env) -> Value
    decreases b,
{
    match b {
        Bits::Sym(s) => env(s),
        Bits::Num(v) => v,
        Bits::App(op, x, y) => match (bits_value(*x, env), bits_value(*y, env)) {
            (Value::I64(a), Value::I64(c)) => Value::I64(wide::long_bits_op(op, a, c)),
            (Value::I32(a), Value::I32(c)) => Value::I32(meaning::bits_op(op, a, c)),
            _ => Value::Unknown,
        },
        Bits::Neg(x) => wide::negated(bits_value(*x, env)),
        Bits::Extend(x) => Value::I64(bits_value(*x, env).number()),
        Bits::Low(x) => Value::I32(bits_value(*x, env).number() as i32),
        Bits::Ite(c, x, y) => if test_holds(*c, env) {
            bits_value(*x, env)
        } else {
            bits_value(*y, env)
        },
    }
}

pub open spec fn test_holds(t: Test, env: Env) -> bool
    decreases t,
{
    match t {
        Test::Is(op, x, y) => match op {
            Op2::BvSlt => bits_value(*x, env).number() < bits_value(*y, env).number(),
            Op2::BvSle => bits_value(*x, env).number() <= bits_value(*y, env).number(),
            Op2::BvSgt => bits_value(*x, env).number() > bits_value(*y, env).number(),
            Op2::BvSge => bits_value(*x, env).number() >= bits_value(*y, env).number(),
            _ => bits_value(*x, env) == bits_value(*y, env),
        },
        Test::Not(c) => !test_holds(*c, env),
    }
}

/// An interpretation of the relations, and whether the error state is reached.
pub struct Interpretation {
    pub block: spec_fn(nat, Seq<Value>) -> bool,
    pub error: bool,
}

/// The symbols stand for values of their widths.
pub open spec fn sorted(b: Seq<(Sym, u32)>, env: Env) -> bool {
    forall|i: int| 0 <= i < b.len() ==> wide::has_width(env((#[trigger] b[i]).0), b[i].1)
}

pub open spec fn atom_holds(a: (nat, Seq<Sym>), i: Interpretation, env: Env) -> bool {
    (i.block)(a.0, a.1.map_values(|s: Sym| env(s)))
}

/// All facts hold.
pub open spec fn all_hold(facts: Seq<Test>, env: Env) -> bool {
    forall|k: int| 0 <= k < facts.len() ==> test_holds(#[trigger] facts[k], env)
}

/// The clause, for one choice of what the symbols stand for.
pub open spec fn instance_holds(h: Horn, i: Interpretation, env: Env) -> bool {
    sorted(h.vars, env) && sorted(h.fresh, env) && all_hold(h.facts, env) && atom_holds(h.from, i, env)
        ==> match h.to {
        Some(a) => atom_holds(a, i, env),
        None => i.error,
    }
}

/// The clause holds in the interpretation.
pub open spec fn horn_holds(h: Horn, i: Interpretation) -> bool {
    forall|env: Env| #[trigger] instance_holds(h, i, env)
}

// ---------------------------------------------------------------------------
// How a body runs
// ---------------------------------------------------------------------------

/// Where a run stands.
#[verifier::ext_equal]
pub struct Point {
    pub vals: Seq<Value>,
    /// Every assumption held so far.
    pub live: bool,
    /// Every shift so far was by less than the width.
    pub exact: bool,
    /// One of the obligations did not hold where it was checked, by a run that is live and
    /// exact.
    pub failed: bool,
}

/// The value of an operand. References are numbers: `null` is 0, and a constant text 1.
pub open spec fn operand_value(vals: Seq<Value>, o: Operand) -> Value {
    match o {
        Operand::Var(v) => vals[v.0 as int],
        Operand::Const(Const::Int(n)) => Value::I32(n),
        Operand::Const(Const::Long(n)) => Value::I64(n),
        Operand::Const(Const::Str(_)) => Value::I32(1),
        Operand::Const(_) => Value::I32(0),
    }
}

/// The value of an rvalue; `chosen` if it is not computed.
pub open spec fn rvalue_value(vals: Seq<Value>, rv: Rvalue, chosen: Value) -> Value {
    match rv {
        Rvalue::Use(o) => operand_value(vals, o),
        Rvalue::Bin(op, a, b) => wide::bin(op, operand_value(vals, a), operand_value(vals, b)),
        Rvalue::Neg(o) => wide::negated(operand_value(vals, o)),
        Rvalue::Cast(ty, o) => wide::of_width(operand_value(vals, o).number(), smt_text::width(ty)),
        Rvalue::Cmp(a, b) => value::three_way(operand_value(vals, a), operand_value(vals, b)),
        _ => chosen,
    }
}

/// Is the operator a shift?
pub open spec fn shifts(op: BinOp) -> bool {
    op == BinOp::Shl || op == BinOp::Shr || op == BinOp::UShr
}

/// Does the rvalue shift by less than the width, if it shifts?
pub open spec fn shifts_within(vals: Seq<Value>, rv: Rvalue) -> bool {
    rv matches Rvalue::Bin(op, _, b) ==> shifts(op) ==> 0 <= operand_value(vals, b).number() < 32
}

/// A statement. Where an assumption does not hold the run counts no more; a check that
/// fails is passed.
pub open spec fn stmt_run(body: Body, obs: Seq<ObligationId>, s: Stmt, p: Point, chosen: Value) -> Point {
    match s {
        Stmt::Assign(v, rv) => Point {
            vals: p.vals.update(v.0 as int, rvalue_value(p.vals, rv, chosen)),
            exact: p.exact && shifts_within(p.vals, rv),
            ..p
        },
        Stmt::Assume(o) => Point {
            live: p.live && operand_value(p.vals, o) != Value::I32(0),
            ..p
        },
        Stmt::Check(id) => Point {
            failed: p.failed || (p.live && p.exact && obs.contains(id) && operand_value(
                p.vals,
                body.obligations@[id.0 as int].cond,
            ) == Value::I32(0)),
            ..p
        },
        _ => p,
    }
}

/// The first `n` statements of a block; `chosen` gives what is not computed.
pub open spec fn stmts_run(
    body: Body,
    obs: Seq<ObligationId>,
    stmts: Seq<Stmt>,
    p: Point,
    chosen: spec_fn(int) -> Value,
    n: nat,
) -> Point
    decreases n,
{
    if n == 0 {
        p
    } else {
        stmt_run(
            body,
            obs,
            stmts[n - 1],
            stmts_run(body, obs, stmts, p, chosen, (n - 1) as nat),
            chosen(n - 1),
        )
    }
}

/// A block up to its terminator.
pub open spec fn block_run(
    body: Body,
    obs: Seq<ObligationId>,
    b: int,
    p: Point,
    chosen: spec_fn(int) -> Value,
) -> Point {
    let stmts = body.blocks@[b].stmts@;
    stmts_run(body, obs, stmts, p, chosen, stmts.len())
}

/// Where a run goes on.
pub open spec fn next_block(t: Terminator, vals: Seq<Value>) -> Option<BlockId> {
    match t {
        Terminator::Goto(b) => Some(b),
        Terminator::Branch { cond, then_, else_ } => if operand_value(vals, cond) != Value::I32(0) {
            Some(then_)
        } else {
            Some(else_)
        },
        Terminator::Switch { value, cases, default } => match wide::case_taken(
            cases@,
            operand_value(vals, value),
            cases@.len(),
        ) {
            Some(b) => Some(b),
            None => Some(default),
        },
        _ => None,
    }
}

/// A run after `k` blocks from the entry: the block that comes next, if the run goes on,
/// and where it stands. `chosen` gives what is not computed, by the number of the block on
/// the run and the place there.
pub open spec fn run(
    body: Body,
    obs: Seq<ObligationId>,
    vals: Seq<Value>,
    chosen: spec_fn(nat, int) -> Value,
    k: nat,
) -> (Option<BlockId>, Point)
    decreases k,
{
    if k == 0 {
        (Some(body.entry), Point { vals, live: true, exact: true, failed: false })
    } else {
        let m = (k - 1) as nat;
        match run(body, obs, vals, chosen, m) {
            (Some(b), p) => {
                let q = block_run(body, obs, b.0 as int, p, |j: int| chosen(m, j));
                if q.live && q.exact {
                    (next_block(body.blocks@[b.0 as int].term, q.vals), q)
                } else {
                    (None, q)
                }
            },
            (None, p) => (None, p),
        }
    }
}

/// Every value is of the width of its variable.
pub open spec fn typed(body: Body, vals: Seq<Value>) -> bool {
    &&& vals.len() == body.vars@.len()
    &&& forall|i: int|
        0 <= i < vals.len() ==> wide::has_width(#[trigger] vals[i], smt_text::width(body.vars@[i].ty))
}

/// The width of an operand.
pub open spec fn operand_width(body: Body, o: Operand) -> u32 {
    match o {
        Operand::Var(v) => smt_text::width(body.vars@[v.0 as int].ty),
        Operand::Const(Const::Long(_)) => 64,
        Operand::Const(_) => 32,
    }
}

/// The operand is not a floating-point number.
pub open spec fn whole(o: Operand) -> bool {
    !(o matches Operand::Const(Const::Float(_))) && !(o matches Operand::Const(Const::Double(_)))
}

/// The widths of the operands go together, and with that of the variable.
pub open spec fn typed_stmt(body: Body, s: Stmt) -> bool {
    match s {
        Stmt::Assign(v, rv) => {
            let w = smt_text::width(body.vars@[v.0 as int].ty);
            match rv {
                Rvalue::Use(o) | Rvalue::Neg(o) => whole(o) && operand_width(body, o) == w,
                Rvalue::Bin(op, a, b) => {
                    &&& whole(a) && whole(b)
                    &&& operand_width(body, a) == operand_width(body, b)
                    &&& shifts(op) ==> operand_width(body, a) == 32
                    &&& w == if value::compares(op) {
                        32
                    } else {
                        operand_width(body, a)
                    }
                },
                Rvalue::Cmp(a, b) => whole(a) && whole(b) && operand_width(body, a)
                    == operand_width(body, b) && w == 32,
                Rvalue::Cast(ty, o) => {
                    &&& whole(o)
                    &&& ty == Ty::Int && w == 32 || ty == Ty::Long && w == 64 && operand_width(
                        body,
                        o,
                    ) == 32
                },
                _ => w == smt_text::unknown_width(rv),
            }
        },
        Stmt::Assume(o) => whole(o) && operand_width(body, o) == 32,
        Stmt::Check(id) => whole(body.obligations@[id.0 as int].cond) && operand_width(
            body,
            body.obligations@[id.0 as int].cond,
        ) == 32,
        _ => true,
    }
}

/// The terminator tests a number of 32 bits.
pub open spec fn typed_term(body: Body, t: Terminator) -> bool {
    match t {
        Terminator::Branch { cond, .. } => whole(cond) && operand_width(body, cond) == 32,
        Terminator::Switch { value, .. } => whole(value) && operand_width(body, value) == 32,
        _ => true,
    }
}

/// The body computes with whole numbers, and their widths go together.
pub open spec fn typed_body(body: Body) -> bool {
    &&& body.well_formed()
    &&& forall|i: int, j: int|
        0 <= i < body.blocks@.len() && 0 <= j < body.blocks@[i].stmts@.len() ==> typed_stmt(
            body,
            #[trigger] body.blocks@[i].stmts@[j],
        )
    &&& forall|i: int| 0 <= i < body.blocks@.len() ==> typed_term(body, (#[trigger] body.blocks@[i]).term)
}

/// What is not computed is of the width that the statement asks for.
pub open spec fn typed_choice(stmts: Seq<Stmt>, chosen: spec_fn(int) -> Value) -> bool {
    forall|j: int|
        0 <= j < stmts.len() ==> ((#[trigger] stmts[j]) matches Stmt::Assign(_, rv) ==> wide::has_width(
            chosen(j),
            smt_text::unknown_width(rv),
        ))
}

// ---------------------------------------------------------------------------
// The clauses of a body
// ---------------------------------------------------------------------------

pub open spec fn operand_bits(vars: Seq<Bits>, o: Operand) -> Bits {
    match o {
        Operand::Var(v) => vars[v.0 as int],
        Operand::Const(Const::Int(n)) => Bits::Num(Value::I32(n)),
        Operand::Const(Const::Long(n)) => Bits::Num(Value::I64(n)),
        Operand::Const(Const::Str(_)) => Bits::Num(Value::I32(1)),
        Operand::Const(_) => Bits::Num(Value::I32(0)),
    }
}

pub open spec fn op_of(op: BinOp) -> Op2 {
    match op {
        BinOp::Add => Op2::BvAdd,
        BinOp::Sub => Op2::BvSub,
        BinOp::Mul => Op2::BvMul,
        BinOp::Div => Op2::BvSdiv,
        BinOp::Rem => Op2::BvSrem,
        BinOp::And => Op2::BvAnd,
        BinOp::Or => Op2::BvOr,
        BinOp::Xor => Op2::BvXor,
        BinOp::Shl => Op2::BvShl,
        BinOp::Shr => Op2::BvAshr,
        BinOp::UShr => Op2::BvLshr,
        BinOp::Lt => Op2::BvSlt,
        BinOp::Le => Op2::BvSle,
        BinOp::Gt => Op2::BvSgt,
        BinOp::Ge => Op2::BvSge,
        _ => Op2::Eq,
    }
}

pub open spec fn int_bits(n: i32) -> Bits {
    Bits::Num(Value::I32(n))
}

pub open spec fn test(op: Op2, x: Bits, y: Bits) -> Test {
    Test::Is(op, Box::new(x), Box::new(y))
}

pub open spec fn not(t: Test) -> Test {
    Test::Not(Box::new(t))
}

pub open spec fn ite(t: Test, x: Bits, y: Bits) -> Bits {
    Bits::Ite(Box::new(t), Box::new(x), Box::new(y))
}

pub open spec fn is_zero(x: Bits) -> Test {
    test(Op2::Eq, x, int_bits(0))
}

/// The term for an rvalue; the fresh symbol `k` if it is not computed.
pub open spec fn rvalue_bits(vars: Seq<Bits>, rv: Rvalue, k: nat) -> Bits {
    match rv {
        Rvalue::Use(o) => operand_bits(vars, o),
        Rvalue::Bin(op, a, b) => {
            let (x, y) = (operand_bits(vars, a), operand_bits(vars, b));
            if op == BinOp::Ne {
                ite(not(test(Op2::Eq, x, y)), int_bits(1), int_bits(0))
            } else if value::compares(op) {
                ite(test(op_of(op), x, y), int_bits(1), int_bits(0))
            } else {
                Bits::App(op_of(op), Box::new(x), Box::new(y))
            }
        },
        Rvalue::Neg(o) => Bits::Neg(Box::new(operand_bits(vars, o))),
        Rvalue::Cast(ty, o) => if ty == Ty::Long {
            Bits::Extend(Box::new(operand_bits(vars, o)))
        } else {
            Bits::Low(Box::new(operand_bits(vars, o)))
        },
        Rvalue::Cmp(a, b) => {
            let (x, y) = (operand_bits(vars, a), operand_bits(vars, b));
            ite(
                test(Op2::BvSlt, x, y),
                int_bits(-1i32 as i32),
                ite(test(Op2::Eq, x, y), int_bits(0), int_bits(1)),
            )
        },
        _ => Bits::Sym(Sym::Fresh(k)),
    }
}

/// Is the rvalue computed by the script?
pub open spec fn computed(rv: Rvalue) -> bool {
    rv is Use || rv is Bin || rv is Neg || rv is Cast || rv is Cmp
}

/// Does the term of the rvalue get a name?
pub open spec fn named(rv: Rvalue) -> bool {
    computed(rv) && !(rv is Use)
}

/// Where the clauses stand in a block: the term of each variable, what was assumed, the
/// equations, and the widths of all symbols handed out.
pub struct Stand {
    pub vars: Seq<Bits>,
    pub conds: Seq<Test>,
    pub bindings: Seq<Test>,
    pub issued: Seq<u32>,
}

pub open spec fn stmt_stand(body: Body, s: Stmt, p: Stand) -> Stand {
    match s {
        Stmt::Assign(v, rv) => {
            let k = p.issued.len();
            let e = rvalue_bits(p.vars, rv, k);
            if !computed(rv) {
                Stand {
                    vars: p.vars.update(v.0 as int, e),
                    issued: p.issued.push(smt_text::unknown_width(rv)),
                    ..p
                }
            } else if named(rv) {
                let t = Bits::Sym(Sym::Fresh(k));
                Stand {
                    vars: p.vars.update(v.0 as int, t),
                    bindings: p.bindings.push(test(Op2::Eq, t, e)),
                    issued: p.issued.push(smt_text::width(body.vars@[v.0 as int].ty)),
                    ..p
                }
            } else {
                Stand { vars: p.vars.update(v.0 as int, e), ..p }
            }
        },
        Stmt::Assume(o) => Stand {
            conds: p.conds.push(not(is_zero(operand_bits(p.vars, o)))),
            ..p
        },
        _ => p,
    }
}

pub open spec fn stmts_stand(body: Body, stmts: Seq<Stmt>, issued: Seq<u32>, n: nat) -> Stand
    decreases n,
{
    if n == 0 {
        Stand {
            vars: Seq::new(body.vars@.len(), |i: int| Bits::Sym(Sym::Before(i as nat))),
            conds: Seq::empty(),
            bindings: Seq::empty(),
            issued,
        }
    } else {
        stmt_stand(body, stmts[n - 1], stmts_stand(body, stmts, issued, (n - 1) as nat))
    }
}

proof fn lemma_rvalue_meaning(body: Body, v: ir::VarId, vars: Seq<Bits>, vals: Seq<Value>, rv: Rvalue, k: nat, env: Env)
    requires
        vars.len() == body.vars@.len(),
        typed(body, vals),
        forall|i: int| 0 <= i < vars.len() ==> bits_value(#[trigger] vars[i], env) == vals[i],
        v.0 < vars.len(),
        ir::operands_in_range(ir::rvalue_operands(rv), vars.len()),
        typed_stmt(body, Stmt::Assign(v, rv)),
        shifts_within(vals, rv),
        wide::has_width(env(Sym::Fresh(k)), smt_text::unknown_width(rv)),
    ensures
        bits_value(rvalue_bits(vars, rv, k), env) == rvalue_value(vals, rv, env(Sym::Fresh(k))),
        wide::has_width(
            rvalue_value(vals, rv, env(Sym::Fresh(k))),
            smt_text::width(body.vars@[v.0 as int].ty),
        ),
{
    reveal_with_fuel(bits_value, 4);
    reveal_with_fuel(test_holds, 4);
    let ops = ir::rvalue_operands(rv);
    match rv {
        Rvalue::Use(o) | Rvalue::Neg(o) | Rvalue::Cast(_, o) => {
            assert(ops[0] == o);
            assert(bits_value(operand_bits(vars, o), env) == operand_value(vals, o));
        },
        Rvalue::Cmp(a, b) => {
            assert(ops[0] == a && ops[1] == b);
            assert(bits_value(operand_bits(vars, a), env) == operand_value(vals, a));
            assert(bits_value(operand_bits(vars, b), env) == operand_value(vals, b));
        },
        Rvalue::Bin(op, a, b) => {
            assert(ops[0] == a && ops[1] == b);
            let x = operand_value(vals, a);
            let y = operand_value(vals, b);
            assert(bits_value(operand_bits(vars, a), env) == x);
            assert(bits_value(operand_bits(vars, b), env) == y);
            if shifts(op) {
                let d = y->I32_0;
                assert(0 <= d < 32 ==> (d as u32 & 31) == d as u32) by (bit_vector);
            }
            if op == BinOp::Div && !wide::undefined(op, x, y) {
                meaning::lemma_quotient_size(
                    meaning::size(x.number() as int),
                    meaning::size(y.number() as int),
                );
            }
        },
        _ => {},
    }
}

/// What an rvalue gives is of the width of the variable.
pub(crate) proof fn lemma_rvalue_typed(
    body: Body,
    v: ir::VarId,
    vals: Seq<Value>,
    rv: Rvalue,
    chosen: Value,
)
    requires
        typed(body, vals),
        v.0 < vals.len(),
        ir::operands_in_range(ir::rvalue_operands(rv), vals.len()),
        typed_stmt(body, Stmt::Assign(v, rv)),
        wide::has_width(chosen, smt_text::unknown_width(rv)),
    ensures
        wide::has_width(
            rvalue_value(vals, rv, chosen),
            smt_text::width(body.vars@[v.0 as int].ty),
        ),
{
    let ops = ir::rvalue_operands(rv);
    match rv {
        Rvalue::Use(o) | Rvalue::Neg(o) | Rvalue::Cast(_, o) => {
            assert(ops[0] == o);
        },
        Rvalue::Cmp(a, b) | Rvalue::Bin(_, a, b) => {
            assert(ops[0] == a && ops[1] == b);
        },
        _ => {},
    }
}

/// What the fresh symbols of a block stand for on a run of its first `n` statements.
pub open spec fn fresh_values(
    body: Body,
    obs: Seq<ObligationId>,
    stmts: Seq<Stmt>,
    p: Point,
    chosen: spec_fn(int) -> Value,
    n: nat,
) -> Seq<Value>
    decreases n,
{
    if n == 0 {
        Seq::empty()
    } else {
        let had = fresh_values(body, obs, stmts, p, chosen, (n - 1) as nat);
        let q = stmts_run(body, obs, stmts, p, chosen, (n - 1) as nat);
        match stmts[n - 1] {
            Stmt::Assign(_, rv) => if !computed(rv) {
                had.push(chosen(n - 1))
            } else if named(rv) {
                had.push(rvalue_value(q.vals, rv, chosen(n - 1)))
            } else {
                had
            },
            _ => had,
        }
    }
}

/// The symbols stand for the values at the start and for the fresh values.
pub open spec fn fits(env: Env, vals: Seq<Value>, mark: nat, fresh: Seq<Value>) -> bool {
    &&& forall|i: int| 0 <= i < vals.len() ==> env(Sym::Before(i as nat)) == #[trigger] vals[i]
    &&& forall|k: int| 0 <= k < fresh.len() ==> env(Sym::Fresh((mark + k) as nat)) == #[trigger] fresh[k]
}

/// The statements are in range and typed.
pub open spec fn typed_stmts(body: Body, stmts: Seq<Stmt>) -> bool {
    forall|j: int|
        0 <= j < stmts.len() ==> typed_stmt(body, #[trigger] stmts[j]) && ir::stmt_in_range(
            stmts[j],
            body.vars@.len(),
            body.obligations@.len(),
        )
}

/// The terms have the values where a run stands, and what was assumed and equated holds.
spec fn stands(
    body: Body,
    s: Stand,
    q: Point,
    issued: Seq<u32>,
    fresh: Seq<Value>,
    env: Env,
) -> bool {
    &&& s.vars.len() == body.vars@.len()
    &&& typed(body, q.vals)
    &&& forall|i: int| 0 <= i < s.vars.len() ==> bits_value(#[trigger] s.vars[i], env) == q.vals[i]
    &&& all_hold(s.bindings, env)
    &&& q.live ==> all_hold(s.conds, env)
    &&& s.issued.len() == issued.len() + fresh.len()
    &&& s.issued.take(issued.len() as int) == issued
    &&& forall|k: int|
        0 <= k < fresh.len() ==> wide::has_width(#[trigger] fresh[k], s.issued[issued.len() + k])
}

proof fn lemma_stands(
    body: Body,
    obs: Seq<ObligationId>,
    stmts: Seq<Stmt>,
    issued: Seq<u32>,
    p: Point,
    chosen: spec_fn(int) -> Value,
    n: nat,
    env: Env,
)
    requires
        body.vars@.len() <= u32::MAX,
        n <= stmts.len(),
        typed_stmts(body, stmts),
        typed_choice(stmts, chosen),
        typed(body, p.vals),
        p.live,
        fits(env, p.vals, issued.len(), fresh_values(body, obs, stmts, p, chosen, n)),
        stmts_run(body, obs, stmts, p, chosen, n).exact,
    ensures
        stands(
            body,
            stmts_stand(body, stmts, issued, n),
            stmts_run(body, obs, stmts, p, chosen, n),
            issued,
            fresh_values(body, obs, stmts, p, chosen, n),
            env,
        ),
    decreases n,
{
    reveal_with_fuel(bits_value, 3);
    reveal_with_fuel(test_holds, 4);
    let st = stmts_stand(body, stmts, issued, n);
    let q = stmts_run(body, obs, stmts, p, chosen, n);
    let fresh = fresh_values(body, obs, stmts, p, chosen, n);
    if n == 0 {
        assert(st.issued.take(issued.len() as int) =~= issued);
    } else {
        let m = (n - 1) as nat;
        let st0 = stmts_stand(body, stmts, issued, m);
        let q0 = stmts_run(body, obs, stmts, p, chosen, m);
        let fresh0 = fresh_values(body, obs, stmts, p, chosen, m);
        let s = stmts[n - 1];
        assert(typed_stmt(body, s));
        assert forall|k: int| 0 <= k < fresh0.len() implies env(
            Sym::Fresh((issued.len() + k) as nat),
        ) == #[trigger] fresh0[k] by {
            assert(fresh[k] == fresh0[k]);
        }
        lemma_stands(body, obs, stmts, issued, p, chosen, m, env);
        assert(st.issued.take(issued.len() as int) =~= issued);
        match s {
            Stmt::Assign(v, rv) => {
                let k = st0.issued.len();
                if computed(rv) {
                    if named(rv) {
                        assert(fresh.last() == rvalue_value(q0.vals, rv, chosen(m as int)));
                        assert(env(Sym::Fresh(k)) == fresh[fresh.len() - 1]);
                    }
                    lemma_rvalue_computed(body, v, st0.vars, q0.vals, rv, k, chosen(m as int), env);
                } else {
                    assert(fresh[fresh.len() - 1] == chosen(m as int));
                    assert(env(Sym::Fresh(k)) == fresh[fresh.len() - 1]);
                    lemma_rvalue_meaning(body, v, st0.vars, q0.vals, rv, k, env);
                }
                assert forall|i: int| 0 <= i < st.vars.len() implies bits_value(
                    #[trigger] st.vars[i],
                    env,
                ) == q.vals[i] by {
                    if i != v.0 {
                        assert(st.vars[i] == st0.vars[i]);
                    }
                }
                assert forall|j: int| 0 <= j < fresh.len() implies wide::has_width(
                    #[trigger] fresh[j],
                    st.issued[issued.len() + j],
                ) by {
                    if j < fresh0.len() {
                        assert(fresh[j] == fresh0[j]);
                        assert(st.issued[issued.len() + j] == st0.issued[issued.len() + j]);
                    }
                }
                assert forall|j: int| 0 <= j < st.bindings.len() implies test_holds(
                    #[trigger] st.bindings[j],
                    env,
                ) by {
                    if j < st0.bindings.len() {
                        assert(st.bindings[j] == st0.bindings[j]);
                    }
                }
            },
            Stmt::Assume(o) => {
                assert(bits_value(operand_bits(st0.vars, o), env) == operand_value(q0.vals, o));
                if q.live {
                    assert forall|j: int| 0 <= j < st.conds.len() implies test_holds(
                        #[trigger] st.conds[j],
                        env,
                    ) by {
                        if j < st0.conds.len() {
                            assert(st.conds[j] == st0.conds[j]);
                        }
                    }
                }
            },
            _ => {},
        }
    }
}

/// As [`lemma_rvalue_meaning`], of an rvalue that is computed.
proof fn lemma_rvalue_computed(
    body: Body,
    v: ir::VarId,
    vars: Seq<Bits>,
    vals: Seq<Value>,
    rv: Rvalue,
    k: nat,
    chosen: Value,
    env: Env,
)
    requires
        vars.len() == body.vars@.len(),
        typed(body, vals),
        forall|i: int| 0 <= i < vars.len() ==> bits_value(#[trigger] vars[i], env) == vals[i],
        v.0 < vars.len(),
        ir::operands_in_range(ir::rvalue_operands(rv), vars.len()),
        typed_stmt(body, Stmt::Assign(v, rv)),
        shifts_within(vals, rv),
        computed(rv),
    ensures
        bits_value(rvalue_bits(vars, rv, k), env) == rvalue_value(vals, rv, chosen),
        wide::has_width(
            rvalue_value(vals, rv, chosen),
            smt_text::width(body.vars@[v.0 as int].ty),
        ),
{
    reveal_with_fuel(bits_value, 4);
    reveal_with_fuel(test_holds, 4);
    let consts = Seq::new(vals.len(), |i: int| Bits::Num(vals[i]));
    let good: Env = |x: Sym| wide::of_width(0, smt_text::unknown_width(rv));
    lemma_rvalue_meaning(body, v, consts, vals, rv, k, good);
    let ops = ir::rvalue_operands(rv);
    assert forall|i: int| 0 <= i < ops.len() implies bits_value(
        operand_bits(vars, #[trigger] ops[i]),
        env,
    ) == bits_value(operand_bits(consts, ops[i]), good) by {
        if let Operand::Var(x) = ops[i] {
            assert(bits_value(vars[x.0 as int], env) == vals[x.0 as int]);
        }
    }
    match rv {
        Rvalue::Use(o) | Rvalue::Neg(o) | Rvalue::Cast(_, o) => {
            assert(ops[0] == o);
        },
        Rvalue::Cmp(a, b) | Rvalue::Bin(_, a, b) => {
            assert(ops[0] == a && ops[1] == b);
        },
        _ => {},
    }
}

// ---------------------------------------------------------------------------
// The clauses of a block
// ---------------------------------------------------------------------------

/// The variables, before or after an edge, with their widths.
pub open spec fn var_bounds(vars: Seq<VarInfo>, after: bool) -> Seq<(Sym, u32)> {
    Seq::new(vars.len(), |i: int| (var_syms(vars, after)[i], smt_text::width(vars[i].ty)))
}

/// The variables, before or after an edge.
pub open spec fn var_syms(vars: Seq<VarInfo>, after: bool) -> Seq<Sym> {
    Seq::new(
        vars.len(),
        |i: int|
            if after {
                Sym::After(i as nat)
            } else {
                Sym::Before(i as nat)
            },
    )
}

/// The symbols handed out since there were `mark` of them.
pub open spec fn fresh_bounds(issued: Seq<u32>, mark: nat) -> Seq<(Sym, u32)> {
    Seq::new(
        (issued.len() - mark) as nat,
        |k: int| (Sym::Fresh((mark + k) as nat), issued[mark + k]),
    )
}

/// Each variable has after the edge the value of its term.
pub open spec fn updates(vars: Seq<Bits>) -> Seq<Test> {
    Seq::new(vars.len(), |i: int| test(Op2::Eq, Bits::Sym(Sym::After(i as nat)), vars[i]))
}

/// The clause of an edge; none if it leaves the body.
pub open spec fn edge(
    vars: Seq<VarInfo>,
    from: BlockId,
    to: Option<BlockId>,
    extra: Seq<Test>,
    s: Stand,
    mark: nat,
) -> Option<Horn> {
    match to {
        None => None,
        Some(t) => Some(
            Horn {
                vars: var_bounds(vars, false) + var_bounds(vars, true),
                fresh: fresh_bounds(s.issued, mark),
                facts: s.bindings + (s.conds + extra) + updates(s.vars),
                from: (from.0 as nat, var_syms(vars, false)),
                to: Some((t.0 as nat, var_syms(vars, true))),
            },
        ),
    }
}

/// The clause of a check of a selected obligation.
pub open spec fn error(
    body: Body,
    obs: Seq<ObligationId>,
    block: BlockId,
    s: Stmt,
    p: Stand,
    mark: nat,
) -> Seq<Option<Horn>> {
    match s {
        Stmt::Check(id) => if obs.contains(id) {
            seq![
                Some(
                    Horn {
                        vars: var_bounds(body.vars@, false),
                        fresh: fresh_bounds(p.issued, mark),
                        facts: p.bindings + p.conds.push(
                            is_zero(operand_bits(p.vars, body.obligations@[id.0 as int].cond)),
                        ),
                        from: (block.0 as nat, var_syms(body.vars@, false)),
                        to: None,
                    },
                ),
            ]
        } else {
            Seq::empty()
        },
        _ => Seq::empty(),
    }
}

/// The clauses of the checks among the first `n` statements.
pub open spec fn errors(
    body: Body,
    obs: Seq<ObligationId>,
    b: ir::Block,
    issued: Seq<u32>,
    n: nat,
) -> Seq<Option<Horn>>
    decreases n,
{
    if n == 0 {
        Seq::empty()
    } else {
        let m = (n - 1) as nat;
        errors(body, obs, b, issued, m) + error(
            body,
            obs,
            b.id,
            b.stmts@[n - 1],
            stmts_stand(body, b.stmts@, issued, m),
            issued.len(),
        )
    }
}

/// The clauses of a terminator.
pub open spec fn term_horns(vars: Seq<VarInfo>, b: ir::Block, s: Stand, mark: nat) -> Seq<Option<Horn>> {
    match b.term {
        Terminator::Goto(t) => seq![edge(vars, b.id, Some(t), Seq::empty(), s, mark)],
        Terminator::Branch { cond, then_, else_ } => {
            let zero = is_zero(operand_bits(s.vars, cond));
            seq![
                edge(vars, b.id, Some(then_), seq![not(zero)], s, mark),
                edge(vars, b.id, Some(else_), seq![zero], s, mark),
            ]
        },
        Terminator::Switch { value, cases, default } => {
            let v = operand_bits(s.vars, value);
            let is = |i: int| test(Op2::Eq, v, int_bits(cases@[i].0));
            Seq::new(
                cases@.len(),
                |i: int| edge(vars, b.id, Some(cases@[i].1), seq![is(i)], s, mark),
            ).push(
                edge(
                    vars,
                    b.id,
                    Some(default),
                    Seq::new(cases@.len(), |i: int| not(is(i))),
                    s,
                    mark,
                ),
            )
        },
        Terminator::Return(_) | Terminator::Halt => seq![
            edge(vars, b.id, None, Seq::empty(), s, mark),
        ],
        _ => Seq::empty(),
    }
}

/// The clauses of a block.
pub open spec fn block_horns(body: Body, obs: Seq<ObligationId>, b: ir::Block, issued: Seq<u32>) -> Seq<
    Option<Horn>,
> {
    let n = b.stmts@.len();
    errors(body, obs, b, issued, n) + term_horns(
        body.vars@,
        b,
        stmts_stand(body, b.stmts@, issued, n),
        issued.len(),
    )
}

/// The widths of the symbols handed out for the first `n` blocks.
pub open spec fn issued_by(body: Body, n: nat) -> Seq<u32>
    decreases n,
{
    if n == 0 {
        Seq::empty()
    } else {
        let stmts = body.blocks@[n - 1].stmts@;
        stmts_stand(body, stmts, issued_by(body, (n - 1) as nat), stmts.len()).issued
    }
}

/// The clauses of the first `n` blocks.
pub open spec fn horns(body: Body, obs: Seq<ObligationId>, n: nat) -> Seq<Option<Horn>>
    decreases n,
{
    if n == 0 {
        Seq::empty()
    } else {
        let m = (n - 1) as nat;
        horns(body, obs, m) + block_horns(body, obs, body.blocks@[n - 1], issued_by(body, m))
    }
}

/// The interpretation satisfies what the script of a body asserts: whatever the values of
/// the variables are on entry, the relation of the entry holds; every clause holds; and the
/// error state is not reached.
pub open spec fn satisfies(i: Interpretation, body: Body, obs: Seq<ObligationId>) -> bool {
    &&& forall|vals: Seq<Value>| typed(body, vals) ==> #[trigger] (i.block)(body.entry.0 as nat, vals)
    &&& forall|k: int|
        0 <= k < horns(body, obs, body.blocks@.len()).len() ==> (#[trigger] horns(
            body,
            obs,
            body.blocks@.len(),
        )[k] matches Some(h) ==> horn_holds(h, i))
    &&& !i.error
}

/// The symbols of a run of a block.
spec fn env_of(vals: Seq<Value>, after: Seq<Value>, mark: nat, fresh: Seq<Value>) -> Env {
    |s: Sym|
        match s {
            Sym::Before(i) => vals[i as int],
            Sym::After(i) => after[i as int],
            Sym::Fresh(k) => if mark <= k < mark + fresh.len() {
                fresh[k - mark]
            } else {
                Value::I32(0)
            },
        }
}

/// An edge whose condition holds leads from one relation to the other.
proof fn lemma_edge(
    body: Body,
    i: Interpretation,
    from: BlockId,
    to: BlockId,
    extra: Seq<Test>,
    s: Stand,
    q: Point,
    vals: Seq<Value>,
    issued: Seq<u32>,
    fresh: Seq<Value>,
)
    requires
        typed(body, vals),
        stands(body, s, q, issued, fresh, env_of(vals, q.vals, issued.len(), fresh)),
        q.live,
        all_hold(extra, env_of(vals, q.vals, issued.len(), fresh)),
        horn_holds(edge(body.vars@, from, Some(to), extra, s, issued.len())->0, i),
        (i.block)(from.0 as nat, vals),
    ensures
        (i.block)(to.0 as nat, q.vals),
{
    reveal_with_fuel(bits_value, 3);
    reveal_with_fuel(test_holds, 3);
    let env = env_of(vals, q.vals, issued.len(), fresh);
    let h = edge(body.vars@, from, Some(to), extra, s, issued.len())->0;
    assert(instance_holds(h, i, env));
    assert(sorted(h.vars, env)) by {
        assert forall|j: int| 0 <= j < h.vars.len() implies wide::has_width(
            env((#[trigger] h.vars[j]).0),
            h.vars[j].1,
        ) by {
            let n = body.vars@.len();
            if j < n {
                assert(h.vars[j] == var_bounds(body.vars@, false)[j]);
                assert(env(h.vars[j].0) == vals[j]);
            } else {
                assert(h.vars[j] == var_bounds(body.vars@, true)[j - n]);
                assert(env(h.vars[j].0) == q.vals[j - n]);
            }
        }
    }
    assert(sorted(h.fresh, env)) by {
        assert forall|j: int| 0 <= j < h.fresh.len() implies wide::has_width(
            env((#[trigger] h.fresh[j]).0),
            h.fresh[j].1,
        ) by {
            assert(env(h.fresh[j].0) == fresh[j]);
        }
    }
    assert(all_hold(h.facts, env)) by {
        assert forall|j: int| 0 <= j < h.facts.len() implies test_holds(#[trigger] h.facts[j], env) by {
            let a = s.bindings.len();
            let b = a + s.conds.len();
            let c = b + extra.len();
            if j < a {
                assert(h.facts[j] == s.bindings[j]);
            } else if j < b {
                assert(h.facts[j] == s.conds[j - a]);
            } else if j < c {
                assert(h.facts[j] == extra[j - b]);
            } else {
                assert(h.facts[j] == updates(s.vars)[j - c]);
                assert(bits_value(s.vars[j - c], env) == q.vals[j - c]);
            }
        }
    }
    assert(h.from.1.map_values(|x: Sym| env(x)) =~= vals);
    assert((h.to->0).1.map_values(|x: Sym| env(x)) =~= q.vals);
}

/// All of the clauses hold.
pub open spec fn horns_hold(hs: Seq<Option<Horn>>, i: Interpretation) -> bool {
    forall|k: int| 0 <= k < hs.len() ==> (#[trigger] hs[k] matches Some(h) ==> horn_holds(h, i))
}

proof fn lemma_horns_of_block(body: Body, obs: Seq<ObligationId>, i: Interpretation, b: int, n: nat)
    requires
        0 <= b < n,
        horns_hold(horns(body, obs, n), i),
    ensures
        horns_hold(block_horns(body, obs, body.blocks@[b], issued_by(body, b as nat)), i),
    decreases n,
{
    let m = (n - 1) as nat;
    let all = horns(body, obs, n);
    let had = horns(body, obs, m);
    let here = block_horns(body, obs, body.blocks@[n - 1], issued_by(body, m));
    if b == n - 1 {
        assert forall|k: int| 0 <= k < here.len() implies (#[trigger] here[k] matches Some(h)
            ==> horn_holds(h, i)) by {
            assert(all[had.len() + k] == here[k]);
        }
    } else {
        assert forall|k: int| 0 <= k < had.len() implies (#[trigger] had[k] matches Some(h)
            ==> horn_holds(h, i)) by {
            assert(all[k] == had[k]);
        }
        lemma_horns_of_block(body, obs, i, b, m);
    }
}

/// Where a run of a block begins.
pub open spec fn begun(vals: Seq<Value>) -> Point {
    Point { vals, live: true, exact: true, failed: false }
}

/// No obligation fails in a block whose relation holds.
proof fn lemma_no_failure(
    body: Body,
    obs: Seq<ObligationId>,
    i: Interpretation,
    b: ir::Block,
    issued: Seq<u32>,
    vals: Seq<Value>,
    chosen: spec_fn(int) -> Value,
    n: nat,
)
    requires
        body.vars@.len() <= u32::MAX,
        forall|j: int| 0 <= j < body.obligations@.len() ==> (#[trigger] body.obligations@[j]).cond.in_range(
            body.vars@.len(),
        ),
        n <= b.stmts@.len(),
        typed_stmts(body, b.stmts@),
        typed_choice(b.stmts@, chosen),
        typed(body, vals),
        (i.block)(b.id.0 as nat, vals),
        horns_hold(errors(body, obs, b, issued, n), i),
        !i.error,
    ensures
        !stmts_run(body, obs, b.stmts@, begun(vals), chosen, n).failed,
    decreases n,
{
    if n > 0 {
        let m = (n - 1) as nat;
        let all = errors(body, obs, b, issued, n);
        let had = errors(body, obs, b, issued, m);
        assert forall|k: int| 0 <= k < had.len() implies (#[trigger] had[k] matches Some(h)
            ==> horn_holds(h, i)) by {
            assert(all[k] == had[k]);
        }
        lemma_no_failure(body, obs, i, b, issued, vals, chosen, m);
        let q = stmts_run(body, obs, b.stmts@, begun(vals), chosen, m);
        if stmts_run(body, obs, b.stmts@, begun(vals), chosen, n).failed {
            reveal_with_fuel(bits_value, 3);
            reveal_with_fuel(test_holds, 3);
            let id = b.stmts@[m as int]->Check_0;
            let cond = body.obligations@[id.0 as int].cond;
            assert(ir::stmt_in_range(b.stmts@[m as int], body.vars@.len(), body.obligations@.len()));
            assert(body.obligations@[id.0 as int].cond.in_range(body.vars@.len()));
            let s = stmts_stand(body, b.stmts@, issued, m);
            let fresh = fresh_values(body, obs, b.stmts@, begun(vals), chosen, m);
            let env = env_of(vals, vals, issued.len(), fresh);
            lemma_stands(body, obs, b.stmts@, issued, begun(vals), chosen, m, env);
            let h = error(body, obs, b.id, b.stmts@[m as int], s, issued.len())[0]->0;
            assert(all[had.len() as int] == Some(h));
            assert(horn_holds(h, i));
            assert(instance_holds(h, i, env));
            assert forall|j: int| 0 <= j < h.vars.len() implies wide::has_width(
                env((#[trigger] h.vars[j]).0),
                h.vars[j].1,
            ) by {
                assert(env(h.vars[j].0) == vals[j]);
            }
            assert forall|j: int| 0 <= j < h.fresh.len() implies wide::has_width(
                env((#[trigger] h.fresh[j]).0),
                h.fresh[j].1,
            ) by {
                assert(env(h.fresh[j].0) == fresh[j]);
            }
            assert forall|j: int| 0 <= j < h.facts.len() implies test_holds(
                #[trigger] h.facts[j],
                env,
            ) by {
                let a = s.bindings.len();
                if j < a {
                    assert(h.facts[j] == s.bindings[j]);
                } else if j < a + s.conds.len() {
                    assert(h.facts[j] == s.conds[j - a]);
                } else {
                    assert(h.facts[j] == is_zero(operand_bits(s.vars, cond)));
                    assert(bits_value(operand_bits(s.vars, cond), env) == operand_value(q.vals, cond));
                }
            }
            assert(h.from.1.map_values(|x: Sym| env(x)) =~= vals);
        }
    }
}

proof fn lemma_no_case(cases: Seq<(i32, BlockId)>, v: Value, n: nat)
    requires
        n <= cases.len(),
    ensures
        match wide::case_taken(cases, v, n) {
            Some(t) => exists|j: int|
                0 <= j < n && v == Value::I32((#[trigger] cases[j]).0) && cases[j].1 == t,
            None => forall|j: int| 0 <= j < n ==> v != Value::I32((#[trigger] cases[j]).0),
        },
    decreases n,
{
    if n > 0 {
        lemma_no_case(cases, v, (n - 1) as nat);
    }
}

/// An interpretation that satisfies the script is an invariant: where the relation of a
/// block holds of the values before it, no obligation of the script fails in the block,
/// and the relation of the block that a run goes on to holds of the values after it.
pub proof fn law_edges_keep_the_relations(
    i: Interpretation,
    body: Body,
    obs: Seq<ObligationId>,
    b: BlockId,
    vals: Seq<Value>,
    chosen: spec_fn(int) -> Value,
)
    requires
        typed_body(body),
        satisfies(i, body, obs),
        b.0 < body.blocks@.len(),
        typed(body, vals),
        typed_choice(body.blocks@[b.0 as int].stmts@, chosen),
        (i.block)(b.0 as nat, vals),
    ensures
        ({
            let q = block_run(body, obs, b.0 as int, begun(vals), chosen);
            &&& !q.failed
            &&& q.live && q.exact ==> typed(body, q.vals)
            &&& q.live && q.exact ==> (next_block(body.blocks@[b.0 as int].term, q.vals) matches Some(c)
                ==> c.0 < body.blocks@.len() && (i.block)(c.0 as nat, q.vals))
        }),
{
    let block = body.blocks@[b.0 as int];
    let stmts = block.stmts@;
    let n = stmts.len();
    let issued = issued_by(body, b.0 as nat);
    assert(block.in_range(body.blocks@.len(), body.vars@.len(), body.obligations@.len()));
    assert(typed_stmts(body, stmts)) by {
        assert forall|j: int| 0 <= j < stmts.len() implies typed_stmt(body, #[trigger] stmts[j])
            && ir::stmt_in_range(stmts[j], body.vars@.len(), body.obligations@.len()) by {
            assert(body.blocks@[b.0 as int].stmts@[j] == stmts[j]);
        }
    }
    assert(horns_hold(horns(body, obs, body.blocks@.len()), i));
    lemma_horns_of_block(body, obs, i, b.0 as int, body.blocks@.len());
    let all = block_horns(body, obs, block, issued);
    let errs = errors(body, obs, block, issued, n);
    assert forall|k: int| 0 <= k < errs.len() implies (#[trigger] errs[k] matches Some(h)
        ==> horn_holds(h, i)) by {
        assert(all[k] == errs[k]);
    }
    lemma_no_failure(body, obs, i, block, issued, vals, chosen, n);
    let q = block_run(body, obs, b.0 as int, begun(vals), chosen);
    if q.live && q.exact {
        reveal_with_fuel(bits_value, 3);
        reveal_with_fuel(test_holds, 3);
        let s = stmts_stand(body, stmts, issued, n);
        let fresh = fresh_values(body, obs, stmts, begun(vals), chosen, n);
        let env = env_of(vals, q.vals, issued.len(), fresh);
        lemma_stands(body, obs, stmts, issued, begun(vals), chosen, n, env);
        let edges = term_horns(body.vars@, block, s, issued.len());
        let base = errs.len() as int;
        assert(forall|k: int| 0 <= k < edges.len() ==> all[base + k] == #[trigger] edges[k]);
        let targets = ir::term_targets(block.term);
        match block.term {
            Terminator::Goto(t) => {
                assert(all[base] == edges[0]);
                assert(targets[0] == t);
                lemma_edge(body, i, b, t, Seq::empty(), s, q, vals, issued, fresh);
            },
            Terminator::Branch { cond, then_, else_ } => {
                assert(targets[0] == then_ && targets[1] == else_);
                assert(typed_term(body, block.term));
                let v = operand_bits(s.vars, cond);
                assert(bits_value(v, env) == operand_value(q.vals, cond));
                if operand_value(q.vals, cond) != Value::I32(0) {
                    assert(all[base] == edges[0]);
                    lemma_edge(body, i, b, then_, seq![not(is_zero(v))], s, q, vals, issued, fresh);
                } else {
                    assert(all[base + 1] == edges[1]);
                    lemma_edge(body, i, b, else_, seq![is_zero(v)], s, q, vals, issued, fresh);
                }
            },
            Terminator::Switch { value, cases, default } => {
                let x = operand_value(q.vals, value);
                let v = operand_bits(s.vars, value);
                assert(bits_value(v, env) == x);
                let is = |j: int| test(Op2::Eq, v, int_bits(cases@[j].0));
                lemma_no_case(cases@, x, cases@.len());
                if wide::case_taken(cases@, x, cases@.len()) is Some {
                    let t = wide::case_taken(cases@, x, cases@.len())->0;
                    let j = choose|j: int|
                        0 <= j < cases@.len() && x == Value::I32((#[trigger] cases@[j]).0)
                            && cases@[j].1 == t;
                    assert(all[base + j] == edges[j]);
                    lemma_switch_target(block.term, j);
                    lemma_edge(body, i, b, t, seq![is(j)], s, q, vals, issued, fresh);
                } else {
                    let k = cases@.len() as int;
                    assert(all[base + k] == edges[k]);
                    lemma_switch_default(block.term);
                    let none = Seq::new(cases@.len(), |j: int| not(is(j)));
                    assert forall|j: int| 0 <= j < none.len() implies test_holds(
                        #[trigger] none[j],
                        env,
                    ) by {
                        assert(x != Value::I32(cases@[j].0));
                    }
                    lemma_edge(body, i, b, default, none, s, q, vals, issued, fresh);
                }
            },
            _ => {},
        }
    }
}

proof fn lemma_switch_target(t: Terminator, j: int)
    requires
        t is Switch,
        0 <= j < t->Switch_cases@.len(),
    ensures
        exists|k: int| 0 <= k < ir::term_targets(t).len() && #[trigger] ir::term_targets(t)[k]
            == t->Switch_cases@[j].1,
{
    assert(ir::term_targets(t)[j] == t->Switch_cases@[j].1);
}

proof fn lemma_switch_default(t: Terminator)
    requires
        t is Switch,
    ensures
        exists|k: int| 0 <= k < ir::term_targets(t).len() && #[trigger] ir::term_targets(t)[k]
            == t->Switch_default,
{
    assert(ir::term_targets(t)[t->Switch_cases@.len() as int] == t->Switch_default);
}

/// What is not computed is, in each block of the run, of the width that is asked for.
pub open spec fn typed_choices(
    body: Body,
    obs: Seq<ObligationId>,
    vals: Seq<Value>,
    chosen: spec_fn(nat, int) -> Value,
) -> bool {
    forall|k: nat|
        (#[trigger] run(body, obs, vals, chosen, k)).0 matches Some(b) ==> typed_choice(
            body.blocks@[b.0 as int].stmts@,
            |j: int| chosen(k, j),
        )
}

proof fn lemma_run(
    i: Interpretation,
    body: Body,
    obs: Seq<ObligationId>,
    vals: Seq<Value>,
    chosen: spec_fn(nat, int) -> Value,
    k: nat,
)
    requires
        typed_body(body),
        satisfies(i, body, obs),
        typed(body, vals),
        typed_choices(body, obs, vals, chosen),
    ensures
        ({
            let (at, p) = run(body, obs, vals, chosen, k);
            &&& !p.failed
            &&& at matches Some(b) ==> {
                &&& b.0 < body.blocks@.len()
                &&& p == begun(p.vals)
                &&& typed(body, p.vals)
                &&& (i.block)(b.0 as nat, p.vals)
            }
        }),
    decreases k,
{
    if k > 0 {
        let m = (k - 1) as nat;
        lemma_run(i, body, obs, vals, chosen, m);
        let (at, p) = run(body, obs, vals, chosen, m);
        if let Some(b) = at {
            law_edges_keep_the_relations(i, body, obs, b, p.vals, |j: int| chosen(m, j));
        }
    }
}

/// If the script of a body has an interpretation that satisfies it, no run from the entry,
/// however long, fails one of the obligations of the script.
pub proof fn law_satisfiable_script_means_safe(
    i: Interpretation,
    body: Body,
    obs: Seq<ObligationId>,
    vals: Seq<Value>,
    chosen: spec_fn(nat, int) -> Value,
    k: nat,
)
    requires
        typed_body(body),
        satisfies(i, body, obs),
        typed(body, vals),
        typed_choices(body, obs, vals, chosen),
    ensures
        !run(body, obs, vals, chosen, k).1.failed,
{
    lemma_run(i, body, obs, vals, chosen, k);
}

// ---------------------------------------------------------------------------
// What is written is the script
// ---------------------------------------------------------------------------

pub(crate) proof fn lemma_row(parts: Seq<Seq<char>>)
    ensures
        text::join_with(parts, " "@) == row(parts),
    decreases parts.len(),
{
    if parts.len() > 1 {
        lemma_row(parts.drop_last());
    }
}

pub(crate) proof fn lemma_lists(op: Seq<char>, a: Seq<char>, b: Seq<char>, c: Seq<char>)
    ensures
        text::sexp1(op, a) == list(seq![op, a]),
        text::sexp2(op, a, b) == list(seq![op, a, b]),
        text::sexp3(op, a, b, c) == list(seq![op, a, b, c]),
{
    reveal_with_fuel(row, 5);
    assert(seq![op, a].drop_last() =~= seq![op]);
    assert(seq![op, a, b].drop_last() =~= seq![op, a]);
    assert(seq![op, a, b, c].drop_last() =~= seq![op, a, b]);
    assert(text::sexp1(op, a) =~= list(seq![op, a]));
    assert(text::sexp2(op, a, b) =~= list(seq![op, a, b]));
    assert(text::sexp3(op, a, b, c) =~= list(seq![op, a, b, c]));
}

proof fn lemma_constants()
    ensures
        num_text(Value::I32(0)) == "#x00000000"@,
        num_text(Value::I32(1)) == "#x00000001"@,
        num_text(Value::I32(-1i32 as i32)) == "#xffffffff"@,
{
    reveal_strlit("#x");
    reveal_strlit("#x00000000");
    reveal_strlit("#x00000001");
    reveal_strlit("#xffffffff");
    reveal_with_fuel(text::hex, 9);
    assert(num_text(Value::I32(0)) =~= "#x00000000"@);
    assert(num_text(Value::I32(1)) =~= "#x00000001"@);
    assert(num_text(Value::I32(-1i32 as i32)) =~= "#xffffffff"@);
}

/// The term is a symbol or a number.
spec fn simple(b: Bits) -> bool {
    b is Num || b is Sym
}

/// The symbols handed out, as they are recorded.
spec fn pool_of(issued: Seq<u32>) -> PoolV {
    PoolV {
        prefix: "chc_"@,
        issued: Seq::new(issued.len(), |k: int| (sym_text(Sym::Fresh(k as nat)), issued[k])),
    }
}

spec fn bits_texts(v: Seq<Bits>) -> Seq<Seq<char>> {
    v.map_values(|b: Bits| bits_text(b))
}

spec fn test_texts(v: Seq<Test>) -> Seq<Seq<char>> {
    v.map_values(|t: Test| test_text(t))
}

spec fn point_of(s: Stand) -> smt_text::Point {
    smt_text::Point {
        vars: bits_texts(s.vars),
        conds: test_texts(s.conds),
        bindings: test_texts(s.bindings),
        pool: pool_of(s.issued),
    }
}

proof fn lemma_operand_text(vars: Seq<Bits>, o: Operand)
    requires
        o.in_range(vars.len()),
        whole(o),
    ensures
        smt_text::operand_text(&BitvectorTheory, o, smt_text::by_index(bits_texts(vars))) == bits_text(
            operand_bits(vars, o),
        ),
{
    lemma_constants();
}

proof fn lemma_is_zero_text(vars: Seq<Bits>, o: Operand)
    requires
        o.in_range(vars.len()),
        whole(o),
    ensures
        BitvectorTheory.is_zero_text(
            smt_text::operand_text(&BitvectorTheory, o, smt_text::by_index(bits_texts(vars))),
        ) == test_text(is_zero(operand_bits(vars, o))),
        text::sexp1("not"@, test_text(is_zero(operand_bits(vars, o)))) == test_text(
            not(is_zero(operand_bits(vars, o))),
        ),
{
    reveal_with_fuel(bits_text, 3);
    reveal_with_fuel(test_text, 3);
    lemma_constants();
    lemma_operand_text(vars, o);
    let x = bits_text(operand_bits(vars, o));
    lemma_lists("="@, x, "#x00000000"@, x);
    lemma_lists("not"@, test_text(is_zero(operand_bits(vars, o))), x, x);
}

proof fn lemma_rvalue_text(body: Body, v: ir::VarId, vars: Seq<Bits>, rv: Rvalue, issued: Seq<u32>)
    requires
        vars.len() == body.vars@.len(),
        ir::operands_in_range(ir::rvalue_operands(rv), vars.len()),
        typed_stmt(body, Stmt::Assign(v, rv)),
    ensures
        smt_text::rvalue_text(
            &BitvectorTheory,
            rv,
            smt_text::by_index(bits_texts(vars)),
            pool_of(issued),
        ) == bits_text(rvalue_bits(vars, rv, issued.len())),
        smt_text::precise(&BitvectorTheory, rv) == computed(rv),
{
    reveal_with_fuel(bits_text, 4);
    reveal_with_fuel(test_text, 4);
    lemma_constants();
    let ops = ir::rvalue_operands(rv);
    let (one, zero) = ("#x00000001"@, "#x00000000"@);
    match rv {
        Rvalue::Use(o) | Rvalue::Neg(o) | Rvalue::Cast(_, o) => {
            assert(ops[0] == o);
            lemma_operand_text(vars, o);
            let x = bits_text(operand_bits(vars, o));
            lemma_lists("bvneg"@, x, x, x);
            lemma_lists("(_ sign_extend 32)"@, x, x, x);
            lemma_lists("(_ extract 31 0)"@, x, x, x);
        },
        Rvalue::Bin(op, a, b) => {
            assert(ops[0] == a && ops[1] == b);
            lemma_operand_text(vars, a);
            lemma_operand_text(vars, b);
            let x = bits_text(operand_bits(vars, a));
            let y = bits_text(operand_bits(vars, b));
            let name = op_name(op_of(op));
            lemma_lists(name, x, y, x);
            lemma_lists("ite"@, text::sexp2(name, x, y), one, zero);
            lemma_lists("not"@, text::sexp2("="@, x, y), x, x);
            lemma_lists("ite"@, text::sexp1("not"@, text::sexp2("="@, x, y)), one, zero);
        },
        Rvalue::Cmp(a, b) => {
            assert(ops[0] == a && ops[1] == b);
            lemma_operand_text(vars, a);
            lemma_operand_text(vars, b);
            let x = bits_text(operand_bits(vars, a));
            let y = bits_text(operand_bits(vars, b));
            lemma_lists("bvslt"@, x, y, x);
            lemma_lists("="@, x, y, x);
            lemma_lists("ite"@, text::sexp2("="@, x, y), zero, one);
            lemma_lists(
                "ite"@,
                text::sexp2("bvslt"@, x, y),
                "#xffffffff"@,
                text::sexp3("ite"@, text::sexp2("="@, x, y), zero, one),
            );
        },
        _ => {},
    }
}

/// Symbols and numbers are written without brackets, everything else with them.
proof fn lemma_trivial(b: Bits)
    ensures
        smt_text::trivial(bits_text(b)) <==> simple(b),
{
    reveal_strlit("(");
    reveal_strlit("v");
    reveal_strlit("chc_");
    reveal_strlit("#x");
    reveal_with_fuel(bits_text, 1);
    let t = bits_text(b);
    match b {
        Bits::Sym(Sym::Before(_)) | Bits::Sym(Sym::After(_)) => {
            assert(t[0] == 'v');
            assert(t.take(1)[0] == 'v');
        },
        Bits::Sym(Sym::Fresh(_)) => {
            assert(t[0] == 'c');
            assert(t.take(1)[0] == 'c');
        },
        Bits::Num(_) => {
            assert(t[0] == '#');
            assert(t.take(1)[0] == '#');
        },
        _ => {
            assert(t[0] == '(');
            assert(t.take(1) =~= "("@);
        },
    }
}

proof fn lemma_step_text(body: Body, s: Stmt, p: Stand)
    requires
        p.vars.len() == body.vars@.len(),
        forall|i: int| 0 <= i < p.vars.len() ==> simple(#[trigger] p.vars[i]),
        typed_stmt(body, s),
        ir::stmt_in_range(s, body.vars@.len(), body.obligations@.len()),
    ensures
        smt_text::step(&BitvectorTheory, body, s, point_of(p)) == point_of(stmt_stand(body, s, p)),
        ({
            let q = stmt_stand(body, s, p);
            &&& q.vars.len() == p.vars.len()
            &&& forall|i: int| 0 <= i < q.vars.len() ==> simple(#[trigger] q.vars[i])
        }),
{
    let q = stmt_stand(body, s, p);
    let t = smt_text::step(&BitvectorTheory, body, s, point_of(p));
    match s {
        Stmt::Assign(v, rv) => {
            let k = p.issued.len();
            let e = rvalue_bits(p.vars, rv, k);
            lemma_rvalue_text(body, v, p.vars, rv, p.issued);
            lemma_trivial(e);
            if rv is Use {
                assert(ir::rvalue_operands(rv)[0] == rv->Use_0);
            }
            assert(simple(e) <==> !named(rv));
            assert(pool_of(p.issued).next() == sym_text(Sym::Fresh(k)));
            if named(rv) {
                reveal_with_fuel(bits_text, 2);
                reveal_with_fuel(test_text, 2);
                let n = sym_text(Sym::Fresh(k));
                lemma_lists("="@, n, bits_text(e), n);
            }
            assert(t.vars =~= point_of(q).vars);
            assert(t.bindings =~= point_of(q).bindings);
            assert(t.pool.issued =~= point_of(q).pool.issued);
        },
        Stmt::Assume(o) => {
            lemma_is_zero_text(p.vars, o);
            assert(t.conds =~= point_of(q).conds);
        },
        _ => {},
    }
}

proof fn lemma_stand_text(body: Body, stmts: Seq<Stmt>, issued: Seq<u32>, n: nat)
    requires
        typed_stmts(body, stmts),
        n <= stmts.len(),
    ensures
        smt_text::stmts_point(&BitvectorTheory, body, stmts, pool_of(issued), n) == point_of(
            stmts_stand(body, stmts, issued, n),
        ),
        ({
            let q = stmts_stand(body, stmts, issued, n);
            &&& q.vars.len() == body.vars@.len()
            &&& issued.len() <= q.issued.len()
            &&& forall|i: int| 0 <= i < q.vars.len() ==> simple(#[trigger] q.vars[i])
        }),
    decreases n,
{
    let q = stmts_stand(body, stmts, issued, n);
    if n == 0 {
        reveal_with_fuel(bits_text, 1);
        let t = smt_text::block_start(body, pool_of(issued));
        assert(t.vars =~= point_of(q).vars);
        assert(t.conds =~= point_of(q).conds);
        assert(t.bindings =~= point_of(q).bindings);
    } else {
        lemma_stand_text(body, stmts, issued, (n - 1) as nat);
        lemma_step_text(body, stmts[n - 1], stmts_stand(body, stmts, issued, (n - 1) as nat));
    }
}

pub(crate) proof fn lemma_dec_last(n: nat)
    ensures
        text::dec(n).len() > 0,
        text::dec(n).last() != '\'',
{
}

proof fn lemma_not_after(b: Bits, i: nat)
    requires
        simple(b),
        !(b matches Bits::Sym(Sym::After(_))),
    ensures
        bits_text(b) != sym_text(Sym::After(i)),
{
    reveal_strlit("'");
    reveal_with_fuel(bits_text, 1);
    reveal_with_fuel(text::hex, 2);
    assert(sym_text(Sym::After(i)).last() == '\'');
    match b {
        Bits::Sym(Sym::Before(k)) | Bits::Sym(Sym::Fresh(k)) => {
            lemma_dec_last(k);
            assert(bits_text(b).last() == text::dec(k).last());
        },
        Bits::Num(v) => {
            let h = if v is I64 {
                text::hex(bits_of(v.number() as int, 64), 16)
            } else {
                text::hex(bits_of(v.number() as int, 32), 8)
            };
            assert(bits_text(b).last() == h.last());
        },
        _ => {},
    }
}

/// No term of the block speaks of values after the edge.
proof fn lemma_no_after(body: Body, stmts: Seq<Stmt>, issued: Seq<u32>, n: nat)
    requires
        typed_stmts(body, stmts),
        n <= stmts.len(),
    ensures
        ({
            let q = stmts_stand(body, stmts, issued, n);
            &&& q.vars.len() == body.vars@.len()
            &&& forall|i: int|
                0 <= i < q.vars.len() ==> !(#[trigger] q.vars[i] matches Bits::Sym(Sym::After(_)))
        }),
    decreases n,
{
    if n > 0 {
        lemma_no_after(body, stmts, issued, (n - 1) as nat);
        let s = stmts[n - 1];
        assert(typed_stmt(body, s));
        if let Stmt::Assign(v, rv) = s {
            if rv is Use {
                assert(ir::rvalue_operands(rv)[0] == rv->Use_0);
            }
        }
    }
}

proof fn lemma_updates_text(vars: Seq<Bits>, n: nat)
    requires
        n <= vars.len(),
        forall|i: int|
            0 <= i < vars.len() ==> simple(#[trigger] vars[i]) && !(vars[i] matches Bits::Sym(
                Sym::After(_),
            )),
    ensures
        smt_text::post_equations(bits_texts(vars), "v"@, "'"@, n) == test_texts(updates(vars)).take(
            n as int,
        ),
    decreases n,
{
    let all = test_texts(updates(vars));
    if n == 0 {
        assert(all.take(0) =~= Seq::empty());
    } else {
        let i = (n - 1) as nat;
        lemma_updates_text(vars, i);
        lemma_not_after(vars[i as int], i);
        reveal_with_fuel(bits_text, 2);
        reveal_with_fuel(test_text, 2);
        let post = sym_text(Sym::After(i));
        lemma_lists("="@, post, bits_text(vars[i as int]), post);
        assert(all.take(n as int) =~= all.take(i as int).push(all[i as int]));
    }
}

proof fn lemma_bound_text(name: Seq<char>, s: Sym, w: u32)
    requires
        name == sym_text(s),
    ensures
        chc::bound(name, w) == bound_text((s, w)),
{
    reveal_strlit("(_ BitVec ");
    reveal_strlit("(");
    reveal_strlit("_");
    reveal_strlit("BitVec");
    reveal_strlit(" ");
    let d = text::dec(w as nat);
    let sort = list(seq!["_"@, "BitVec"@, d]);
    lemma_lists("_"@, "BitVec"@, d, d);
    assert("(_ BitVec "@ =~= "("@ + "_"@ + " "@ + "BitVec"@ + " "@);
    assert(chc::bv_sort(w) =~= sort);
    lemma_lists(name, sort, sort, sort);
    assert(chc::bound(name, w) =~= list(seq![name, sort]));
}

proof fn lemma_bounds_text(vars: Seq<VarInfo>)
    ensures
        chc::bounds(vars, ""@) == var_bounds(vars, false).map_values(|s: (Sym, u32)| bound_text(s)),
        chc::bounds(vars, "'"@) == var_bounds(vars, true).map_values(|s: (Sym, u32)| bound_text(s)),
        chc::names(vars, ""@) == var_syms(vars, false).map_values(|s: Sym| sym_text(s)),
        chc::names(vars, "'"@) == var_syms(vars, true).map_values(|s: Sym| sym_text(s)),
{
    reveal_strlit("");
    assert forall|i: int| 0 <= i < vars.len() implies {
        &&& chc::var_name(i as nat, ""@) == sym_text(Sym::Before(i as nat))
        &&& #[trigger] chc::bound(chc::var_name(i as nat, ""@), smt_text::width(vars[i].ty))
            == bound_text((Sym::Before(i as nat), smt_text::width(vars[i].ty)))
        &&& chc::bound(chc::var_name(i as nat, "'"@), smt_text::width(vars[i].ty)) == bound_text(
            (Sym::After(i as nat), smt_text::width(vars[i].ty)),
        )
    } by {
        assert(chc::var_name(i as nat, ""@) =~= sym_text(Sym::Before(i as nat)));
        lemma_bound_text(
            chc::var_name(i as nat, ""@),
            Sym::Before(i as nat),
            smt_text::width(vars[i].ty),
        );
        lemma_bound_text(
            chc::var_name(i as nat, "'"@),
            Sym::After(i as nat),
            smt_text::width(vars[i].ty),
        );
    }
    assert(chc::bounds(vars, ""@) =~= var_bounds(vars, false).map_values(
        |s: (Sym, u32)| bound_text(s),
    ));
    assert forall|i: int| 0 <= i < vars.len() implies #[trigger] chc::bounds(vars, "'"@)[i]
        == bound_text((Sym::After(i as nat), smt_text::width(vars[i].ty))) by {
        assert(chc::bound(chc::var_name(i as nat, ""@), smt_text::width(vars[i].ty)) == bound_text(
            (Sym::Before(i as nat), smt_text::width(vars[i].ty)),
        ));
    }
    assert(chc::bounds(vars, "'"@) =~= var_bounds(vars, true).map_values(
        |s: (Sym, u32)| bound_text(s),
    ));
    assert forall|i: int| 0 <= i < vars.len() implies #[trigger] chc::names(vars, ""@)[i] == var_syms(
        vars,
        false,
    ).map_values(|s: Sym| sym_text(s))[i] by {
        assert(chc::var_name(i as nat, ""@) =~= sym_text(Sym::Before(i as nat)));
    }
    assert(chc::names(vars, ""@) =~= var_syms(vars, false).map_values(|s: Sym| sym_text(s)));
    assert(chc::names(vars, "'"@) =~= var_syms(vars, true).map_values(|s: Sym| sym_text(s)));
}

proof fn lemma_fresh_text(issued: Seq<u32>, mark: nat)
    requires
        mark <= issued.len(),
    ensures
        chc::fresh_bounds(pool_of(issued).since(mark)) == fresh_bounds(issued, mark).map_values(
            |s: (Sym, u32)| bound_text(s),
        ),
        pool_of(issued).since(mark).len() == fresh_bounds(issued, mark).len(),
{
    let f = pool_of(issued).since(mark);
    assert forall|k: int| 0 <= k < f.len() implies #[trigger] chc::fresh_bounds(f)[k] == bound_text(
        fresh_bounds(issued, mark)[k],
    ) by {
        assert(f[k] == (sym_text(Sym::Fresh((mark + k) as nat)), issued[mark + k]));
        lemma_bound_text(f[k].0, Sym::Fresh((mark + k) as nat), f[k].1);
    }
    assert(chc::fresh_bounds(f) =~= fresh_bounds(issued, mark).map_values(
        |s: (Sym, u32)| bound_text(s),
    ));
}

proof fn lemma_premise_text(h: Horn, parts: Seq<Seq<char>>)
    requires
        parts == test_texts(h.facts).push(atom_text(h.from)),
    ensures
        smt_text::conjunction(parts) == premise(h),
{
    assert(parts =~= h.facts.map_values(|t: Test| test_text(t)).push(atom_text(h.from)));
    lemma_row(parts);
    lemma_lists("and"@, row(parts), parts[0], parts[0]);
}

proof fn lemma_atom_text(vars: Seq<VarInfo>, b: nat)
    ensures
        chc::applied(b, chc::spaced(chc::names(vars, ""@))) == atom_text((b, var_syms(vars, false))),
        chc::applied(b, chc::spaced(chc::names(vars, "'"@))) == atom_text((b, var_syms(vars, true))),
{
    reveal_strlit("(block_");
    reveal_strlit("(");
    reveal_strlit("block_");
    lemma_bounds_text(vars);
    lemma_row(chc::names(vars, ""@));
    lemma_row(chc::names(vars, "'"@));
    assert("(block_"@ =~= "("@ + "block_"@);
    assert(chc::applied(b, chc::spaced(chc::names(vars, ""@))) =~= atom_text(
        (b, var_syms(vars, false)),
    ));
    assert(chc::applied(b, chc::spaced(chc::names(vars, "'"@))) =~= atom_text(
        (b, var_syms(vars, true)),
    ));
}

/// The clause of an edge is written as it is.
proof fn lemma_edge_text(
    vars: Seq<VarInfo>,
    from: BlockId,
    to: Option<BlockId>,
    extra: Seq<Test>,
    s: Stand,
    mark: nat,
)
    requires
        mark <= s.issued.len(),
        forall|i: int|
            0 <= i < s.vars.len() ==> simple(#[trigger] s.vars[i]) && !(s.vars[i] matches Bits::Sym(
                Sym::After(_),
            )),
    ensures
        chc::clause_text(
            vars,
            smt_text::edge_clause(from, to, test_texts(extra), point_of(s), mark),
        ) == line_text(edge(vars, from, to, extra, s, mark)),
{
    if to is Some {
        let c = smt_text::edge_clause(from, to, test_texts(extra), point_of(s), mark);
        let t = c->Transition_0;
        let h = edge(vars, from, to, extra, s, mark)->0;
        lemma_bounds_text(vars);
        lemma_fresh_text(s.issued, mark);
        lemma_atom_text(vars, from.0 as nat);
        lemma_atom_text(vars, (to->0).0 as nat);
        lemma_updates_text(s.vars, s.vars.len());
        let all = test_texts(updates(s.vars));
        assert(all.take(s.vars.len() as int) =~= all);
        let facts = smt_text::edge_facts(t, "v"@, "'"@);
        assert(facts =~= test_texts(h.facts));
        lemma_premise_text(h, facts.push(atom_text(h.from)));
        let both = chc::bounds(vars, ""@) + chc::bounds(vars, "'"@);
        assert(both =~= h.vars.map_values(|x: (Sym, u32)| bound_text(x)));
        lemma_row(both);
        lemma_row(chc::fresh_bounds(t.fresh));
        assert(chc::prefix_text(chc::spaced(both), t.fresh) == quantified(h));
    }
}

/// The clause of a check is written as it is.
proof fn lemma_error_text(body: Body, obs: Seq<ObligationId>, block: BlockId, s: Stmt, p: Stand, mark: nat)
    requires
        mark <= p.issued.len(),
        p.vars.len() == body.vars@.len(),
        typed_stmt(body, s),
        s matches Stmt::Check(id) ==> id.0 < body.obligations@.len()
            && body.obligations@[id.0 as int].cond.in_range(body.vars@.len()),
    ensures
        ({
            let a = smt_text::error_of(&BitvectorTheory, body, obs, block, s, point_of(p), mark);
            let b = error(body, obs, block, s, p, mark);
            &&& a.len() == b.len()
            &&& forall|k: int| 0 <= k < a.len() ==> chc::clause_text(body.vars@, #[trigger] a[k])
                == line_text(b[k])
        }),
{
    if let Stmt::Check(id) = s {
        if obs.contains(id) {
            let cond = body.obligations@[id.0 as int].cond;
            let h = error(body, obs, block, s, p, mark)[0]->0;
            let c = smt_text::error_of(&BitvectorTheory, body, obs, block, s, point_of(p), mark)[0];
            let e = c->Error_0;
            lemma_is_zero_text(p.vars, cond);
            lemma_bounds_text(body.vars@);
            lemma_fresh_text(p.issued, mark);
            lemma_atom_text(body.vars@, block.0 as nat);
            let facts = e.bindings + e.conds;
            assert(facts =~= test_texts(h.facts));
            lemma_premise_text(h, facts.push(atom_text(h.from)));
            lemma_row(chc::bounds(body.vars@, ""@));
            lemma_row(chc::fresh_bounds(e.fresh));
            reveal_strlit(" error)))\n");
            reveal_strlit(" ");
            reveal_strlit("error");
            reveal_strlit(")))\n");
            assert(" error)))\n"@ =~= " "@ + "error"@ + ")))\n"@);
            assert(chc::clause_text(body.vars@, c) =~= line_text(Some(h)));
        }
    }
}

proof fn lemma_errors_text(body: Body, obs: Seq<ObligationId>, b: ir::Block, issued: Seq<u32>, n: nat)
    requires
        body.well_formed(),
        typed_stmts(body, b.stmts@),
        n <= b.stmts@.len(),
    ensures
        ({
            let x = smt_text::errors_of(&BitvectorTheory, body, obs, b, pool_of(issued), n);
            let y = errors(body, obs, b, issued, n);
            &&& x.len() == y.len()
            &&& forall|k: int| 0 <= k < x.len() ==> chc::clause_text(body.vars@, #[trigger] x[k])
                == line_text(y[k])
        }),
    decreases n,
{
    if n > 0 {
        let m = (n - 1) as nat;
        lemma_errors_text(body, obs, b, issued, m);
        lemma_stand_text(body, b.stmts@, issued, m);
        let s = b.stmts@[m as int];
        assert(typed_stmt(body, s));
        if let Stmt::Check(id) = s {
            assert(body.obligations@[id.0 as int].cond.in_range(body.vars@.len()));
        }
        lemma_error_text(body, obs, b.id, s, stmts_stand(body, b.stmts@, issued, m), issued.len());
    }
}

/// The clauses of a switch are written as they are.
proof fn lemma_switch_text(body: Body, b: ir::Block, s: Stand, mark: nat)
    requires
        b.term is Switch,
        whole(b.term->Switch_value),
        b.term->Switch_value.in_range(s.vars.len()),
        mark <= s.issued.len(),
        forall|i: int|
            0 <= i < s.vars.len() ==> simple(#[trigger] s.vars[i]) && !(s.vars[i] matches Bits::Sym(
                Sym::After(_),
            )),
    ensures
        ({
            let x = smt_text::term_edges(&BitvectorTheory, b, point_of(s), mark);
            let y = term_horns(body.vars@, b, s, mark);
            &&& x.len() == y.len()
            &&& forall|k: int| 0 <= k < x.len() ==> chc::clause_text(body.vars@, #[trigger] x[k])
                == line_text(y[k])
        }),
{
    let x = smt_text::term_edges(&BitvectorTheory, b, point_of(s), mark);
    let y = term_horns(body.vars@, b, s, mark);
    let cases = b.term->Switch_cases@;
    let default = b.term->Switch_default;
    let n = cases.len();
    lemma_operand_text(s.vars, b.term->Switch_value);
    let v = operand_bits(s.vars, b.term->Switch_value);
    let is = |i: int| test(Op2::Eq, v, int_bits(cases[i].0));
    let vt = bits_text(v);
    assert forall|i: int| 0 <= i < n implies {
        &&& #[trigger] smt_text::case_text(&BitvectorTheory, vt, cases[i].0) == test_text(is(i))
        &&& text::sexp1("not"@, test_text(is(i))) == test_text(not(is(i)))
    } by {
        lemma_case_text(v, cases[i].0);
    }
    let none = Seq::new(n, |i: int| not(is(i)));
    let texts = smt_text::no_case(&BitvectorTheory, vt, cases, n);
    assert forall|i: int| 0 <= i < n implies test_texts(none)[i] == #[trigger] texts[i] by {
        assert(smt_text::case_text(&BitvectorTheory, vt, cases[i].0) == test_text(is(i)));
    }
    assert(test_texts(none) =~= texts);
    lemma_edge_text(body.vars@, b.id, Some(default), none, s, mark);
    assert(x.len() == n + 1 && y.len() == n + 1);
    assert forall|k: int| 0 <= k < x.len() implies chc::clause_text(body.vars@, #[trigger] x[k])
        == line_text(y[k]) by {
        if k < n {
            assert(smt_text::case_text(&BitvectorTheory, vt, cases[k].0) == test_text(is(k)));
            assert(test_texts(seq![is(k)]) =~= seq![
                smt_text::case_text(&BitvectorTheory, vt, cases[k].0),
            ]);
            lemma_edge_text(body.vars@, b.id, Some(cases[k].1), seq![is(k)], s, mark);
            assert(y[k] == edge(body.vars@, b.id, Some(cases[k].1), seq![is(k)], s, mark));
        } else {
            assert(y[k] == edge(body.vars@, b.id, Some(default), none, s, mark));
        }
    }
}

proof fn lemma_case_text(v: Bits, case: i32)
    ensures
        smt_text::case_text(&BitvectorTheory, bits_text(v), case) == test_text(
            test(Op2::Eq, v, int_bits(case)),
        ),
        text::sexp1("not"@, test_text(test(Op2::Eq, v, int_bits(case)))) == test_text(
            not(test(Op2::Eq, v, int_bits(case))),
        ),
{
    reveal_with_fuel(bits_text, 2);
    reveal_with_fuel(test_text, 3);
    let vt = bits_text(v);
    lemma_lists("="@, vt, bits_text(int_bits(case)), vt);
    lemma_lists("not"@, test_text(test(Op2::Eq, v, int_bits(case))), vt, vt);
}

proof fn lemma_term_text(body: Body, b: ir::Block, issued: Seq<u32>)
    requires
        typed_stmts(body, b.stmts@),
        typed_term(body, b.term),
        ir::term_in_range(b.term, body.vars@.len()),
    ensures
        ({
            let s = stmts_stand(body, b.stmts@, issued, b.stmts@.len());
            let x = smt_text::term_edges(&BitvectorTheory, b, point_of(s), issued.len());
            let y = term_horns(body.vars@, b, s, issued.len());
            &&& x.len() == y.len()
            &&& forall|k: int| 0 <= k < x.len() ==> chc::clause_text(body.vars@, #[trigger] x[k])
                == line_text(y[k])
        }),
{
    let n = b.stmts@.len();
    let s = stmts_stand(body, b.stmts@, issued, n);
    let mark = issued.len();
    lemma_stand_text(body, b.stmts@, issued, n);
    lemma_no_after(body, b.stmts@, issued, n);
    let x = smt_text::term_edges(&BitvectorTheory, b, point_of(s), mark);
    let y = term_horns(body.vars@, b, s, mark);
    assert(test_texts(Seq::<Test>::empty()) =~= Seq::empty());
    match b.term {
        Terminator::Goto(t) => {
            lemma_edge_text(body.vars@, b.id, Some(t), Seq::empty(), s, mark);
        },
        Terminator::Branch { cond, then_, else_ } => {
            lemma_is_zero_text(s.vars, cond);
            let zero = is_zero(operand_bits(s.vars, cond));
            assert(test_texts(seq![zero]) =~= seq![test_text(zero)]);
            assert(test_texts(seq![not(zero)]) =~= seq![test_text(not(zero))]);
            lemma_edge_text(body.vars@, b.id, Some(then_), seq![not(zero)], s, mark);
            lemma_edge_text(body.vars@, b.id, Some(else_), seq![zero], s, mark);
        },
        Terminator::Switch { .. } => {
            lemma_switch_text(body, b, s, mark);
        },
        Terminator::Return(_) | Terminator::Halt => {
            lemma_edge_text(body.vars@, b.id, None, Seq::empty(), s, mark);
        },
        _ => {},
    }
}

proof fn lemma_horns_text(body: Body, obs: Seq<ObligationId>, n: nat)
    requires
        typed_body(body),
        n <= body.blocks@.len(),
    ensures
        smt_text::walk_pool(&BitvectorTheory, body, chc::chc_pool(), n) == pool_of(issued_by(body, n)),
        ({
            let x = smt_text::walk_clauses(&BitvectorTheory, body, obs, chc::chc_pool(), n);
            let y = horns(body, obs, n);
            &&& x.len() == y.len()
            &&& forall|k: int| 0 <= k < x.len() ==> chc::clause_text(body.vars@, #[trigger] x[k])
                == line_text(y[k])
        }),
    decreases n,
{
    if n == 0 {
        assert(chc::chc_pool().issued =~= pool_of(issued_by(body, 0)).issued);
    } else {
        let m = (n - 1) as nat;
        lemma_horns_text(body, obs, m);
        let b = body.blocks@[m as int];
        let stmts = b.stmts@;
        let issued = issued_by(body, m);
        assert(b.in_range(body.blocks@.len(), body.vars@.len(), body.obligations@.len()));
        assert(typed_stmts(body, stmts)) by {
            assert forall|j: int| 0 <= j < stmts.len() implies typed_stmt(body, #[trigger] stmts[j])
                && ir::stmt_in_range(stmts[j], body.vars@.len(), body.obligations@.len()) by {
                assert(body.blocks@[m as int].stmts@[j] == stmts[j]);
            }
        }
        lemma_stand_text(body, stmts, issued, stmts.len());
        lemma_errors_text(body, obs, b, issued, stmts.len());
        lemma_term_text(body, b, issued);
    }
}

proof fn lemma_lines(body: Body, clauses: Seq<Clause>, hs: Seq<Option<Horn>>, n: nat)
    requires
        n <= clauses.len(),
        clauses.len() == hs.len(),
        forall|k: int| 0 <= k < clauses.len() ==> chc::clause_text(body.vars@, #[trigger] clauses[k])
            == line_text(hs[k]),
    ensures
        chc::clauses_text(body.vars@, clauses, n) == lines_text(hs, n),
    decreases n,
{
    if n > 0 {
        lemma_lines(body, clauses, hs, (n - 1) as nat);
    }
}

/// The declaration of the relation of a block over all variables.
pub open spec fn declaration(body: Body, b: nat) -> Seq<char> {
    "(declare-fun "@ + ("block_"@ + text::dec(b)) + " ("@ + row(
        body.vars@.map_values(
            |v: VarInfo| list(seq!["_"@, "BitVec"@, text::dec(smt_text::width(v.ty) as nat)]),
        ),
    ) + ") Bool)\n"@
}

/// The declarations of the first `n` relations.
pub open spec fn declarations(body: Body, n: nat) -> Seq<char>
    decreases n,
{
    if n == 0 {
        Seq::empty()
    } else {
        declarations(body, (n - 1) as nat) + declaration(body, (n - 1) as nat)
    }
}

/// The script of a body: the relations, the entry of which every value is, the clauses, and
/// that the error state is not reached.
pub open spec fn script(body: Body, obs: Seq<ObligationId>) -> Seq<char> {
    let all = horns(body, obs, body.blocks@.len());
    "(set-logic HORN)\n"@ + declarations(body, body.blocks@.len()) + "(declare-fun error () Bool)\n"@ + (
    "(assert (forall ("@ + bounds_row(var_bounds(body.vars@, false)) + ") "@ + atom_text(
        (body.entry.0 as nat, var_syms(body.vars@, false)),
    ) + "))\n"@) + lines_text(all, all.len()) + "(assert (not error))\n"@ + "(check-sat)\n"@
}

proof fn lemma_declarations(body: Body, n: nat)
    requires
        body.well_formed(),
        n <= body.blocks@.len(),
    ensures
        chc::relations_text(body, n) == declarations(body, n),
    decreases n,
{
    if n > 0 {
        let m = (n - 1) as nat;
        lemma_declarations(body, m);
        let f = |v: VarInfo| list(seq!["_"@, "BitVec"@, text::dec(smt_text::width(v.ty) as nat)]);
        let sorts = chc::sorts(body.vars@);
        reveal_strlit("(_ BitVec ");
        reveal_strlit("(");
        reveal_strlit("_");
        reveal_strlit("BitVec");
        reveal_strlit(" ");
        assert("(_ BitVec "@ =~= "("@ + "_"@ + " "@ + "BitVec"@ + " "@);
        assert forall|i: int| 0 <= i < body.vars@.len() implies #[trigger] sorts[i] == f(body.vars@[i]) by {
            let d = text::dec(smt_text::width(body.vars@[i].ty) as nat);
            lemma_lists("_"@, "BitVec"@, d, d);
            assert(sorts[i] =~= list(seq!["_"@, "BitVec"@, d]));
        }
        assert(sorts =~= body.vars@.map_values(f));
        lemma_row(sorts);
        reveal_strlit("(declare-fun block_");
        reveal_strlit("(declare-fun ");
        reveal_strlit("block_");
        assert("(declare-fun block_"@ =~= "(declare-fun "@ + "block_"@);
        assert(body.blocks@[m as int].id.0 == m);
        assert(chc::relation_text(body.blocks@[m as int], body.vars@) =~= declaration(body, m));
    }
}

/// The text that a solver is given for a body is the script whose clauses the laws above
/// speak of: the declarations, the entry, the clauses of [`horns`] in order, and that the
/// error state is not reached.
pub proof fn law_script_is_what_is_written(body: Body, obs: Seq<ObligationId>)
    requires
        typed_body(body),
    ensures
        chc::chc_text(body, obs) == script(body, obs),
{
    let n = body.blocks@.len();
    lemma_horns_text(body, obs, n);
    let clauses = smt_text::walk_clauses(&BitvectorTheory, body, obs, chc::chc_pool(), n);
    lemma_lines(body, clauses, horns(body, obs, n), clauses.len());
    lemma_declarations(body, n);
    lemma_bounds_text(body.vars@);
    lemma_row(chc::bounds(body.vars@, ""@));
    lemma_atom_text(body.vars@, body.entry.0 as nat);
    assert(chc::chc_text(body, obs) =~= script(body, obs));
}

/// Different symbols have different names, so that what is bound under one name is one
/// symbol.
pub proof fn law_symbols_have_their_own_names(a: Sym, b: Sym)
    requires
        sym_text(a) == sym_text(b),
    ensures
        a == b,
{
    reveal_strlit("v");
    reveal_strlit("'");
    reveal_strlit("chc_");
    let (s, t) = (sym_text(a), sym_text(b));
    assert(s[0] == t[0] && s.last() == t.last());
    match (a, b) {
        (Sym::Before(i), Sym::Before(j)) => {
            assert(s.skip(1) =~= text::dec(i));
            assert(t.skip(1) =~= text::dec(j));
            smt_text::law_decimals_are_distinct(i, j);
        },
        (Sym::After(i), Sym::After(j)) => {
            assert(s.drop_last().skip(1) =~= text::dec(i));
            assert(t.drop_last().skip(1) =~= text::dec(j));
            smt_text::law_decimals_are_distinct(i, j);
        },
        (Sym::Fresh(i), Sym::Fresh(j)) => {
            let head = "chc_"@ + "fresh"@;
            assert(s.skip(head.len() as int) =~= text::dec(i));
            assert(t.skip(head.len() as int) =~= text::dec(j));
            smt_text::law_decimals_are_distinct(i, j);
        },
        (Sym::Before(i), Sym::After(_)) | (Sym::After(_), Sym::Before(i)) => {
            lemma_dec_last(i);
            assert(s.last() == '\'' || t.last() == '\'');
            assert(s.last() == text::dec(i).last() || t.last() == text::dec(i).last());
        },
        _ => {
            assert(s[0] == 'v' && t[0] == 'c' || s[0] == 'c' && t[0] == 'v');
        },
    }
}

} // verus!
