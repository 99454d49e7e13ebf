//! What terms over numbers of 32 and of 64 bits mean, what the right-hand sides of
//! assignments compute from such numbers, and that the one agrees with the other.

use vstd::prelude::*;

use super::encode;
use super::meaning;
use super::rvalue;
use super::state;
use crate::assoc::Assoc;
use crate::concrete::value;
use crate::concrete::value::Value;
use crate::desc;
use crate::ir::{
    BinOp, BlockId, Body, Const, FieldKey, FieldKeyV, Operand, Rvalue, Stmt, Terminator, Ty,
};
use crate::program;
use crate::program::Program;
use crate::term;
use crate::term::{Op1, Op2, Op3, Term, Terms, Tm};

verus! {

/// The value of a binary operation on bit vectors of 64 bits, as [`meaning::bits_op`]
/// has it for 32.
pub open spec fn long_bits_op(op: Op2, x: i64, y: i64) -> i64 {
    match op {
        Op2::BvAdd => x.wrapping_add(y),
        Op2::BvSub => x.wrapping_sub(y),
        Op2::BvMul => x.wrapping_mul(y),
        Op2::BvSdiv => if y == 0 {
            if x < 0 {
                1
            } else {
                -1i64 as i64
            }
        } else {
            match x.checked_div(y) {
                Some(q) => q,
                None => i64::MIN,
            }
        },
        Op2::BvSrem => if y == 0 {
            x
        } else {
            match x.checked_rem(y) {
                Some(r) => r,
                None => 0,
            }
        },
        Op2::BvUdiv => if y == 0 {
            -1i64 as i64
        } else {
            ((x as u64) / (y as u64)) as i64
        },
        Op2::BvUrem => if y == 0 {
            x
        } else {
            ((x as u64) % (y as u64)) as i64
        },
        Op2::BvAnd => x & y,
        Op2::BvOr => x | y,
        Op2::BvXor => x ^ y,
        Op2::BvShl => if 0 <= y < 64 {
            x << (y as u32)
        } else {
            0
        },
        Op2::BvAshr => if 0 <= y < 64 {
            x >> (y as u32)
        } else if x < 0 {
            -1i64 as i64
        } else {
            0
        },
        Op2::BvLshr => if 0 <= y < 64 {
            ((x as u64) >> (y as u32)) as i64
        } else {
            0
        },
        _ => 0,
    }
}

/// A number of 64 bits, or the low half of it, by the width.
pub open spec fn of_width(n: i64, w: u32) -> Value {
    if w == 64 {
        Value::I64(n)
    } else {
        Value::I32(n as i32)
    }
}

/// The negative of a number.
pub open spec fn negated(v: Value) -> Value {
    match v {
        Value::I64(x) => Value::I64(0i64.wrapping_sub(x)),
        _ => Value::I32(0i32.wrapping_sub(v.number() as i32)),
    }
}

/// The bits of a number, read without a sign.
pub open spec fn unsigned(v: Value) -> int {
    match v {
        Value::I64(x) => x as u64 as int,
        _ => v.number() as i32 as u32 as int,
    }
}

/// The value of a term of 32 or of 64 bits, with the symbols at the values that `env`
/// gives them by their positions. A term of another sort is taken as zero.
#[verifier::opaque]
pub open spec fn value_of(t: Tm, env: spec_fn(nat) -> i64) -> Value
    decreases t,
{
    match t {
        Tm::Bv(n, w) => if w == 64 {
            Value::I64(n as i64)
        } else {
            Value::I32(n as i32)
        },
        Tm::FreshBv(at, _, w) => of_width(env(at), w),
        Tm::App1(Op1::BvNeg, a) => negated(value_of(*a, env)),
        Tm::App1(Op1::Extract(high, low), a) => if high == 31 && low == 0 {
            Value::I32(value_of(*a, env).number() as i32)
        } else {
            Value::I32(0)
        },
        Tm::App1(Op1::SignExtend(n), a) => if n == 32 {
            Value::I64(value_of(*a, env).number())
        } else {
            Value::I32(0)
        },
        Tm::App1(Op1::ZeroExtend(n), a) => if n == 32 {
            Value::I64(((value_of(*a, env).number() as i32) as u32) as i64)
        } else {
            Value::I32(0)
        },
        Tm::App2(Op2::Select, a, i) => element_of(*a, env, value_of(*i, env).number() as i32),
        Tm::App2(op, a, b) => match (value_of(*a, env), value_of(*b, env)) {
            (Value::I64(x), Value::I64(y)) => Value::I64(long_bits_op(op, x, y)),
            (Value::I32(x), Value::I32(y)) => Value::I32(meaning::bits_op(op, x, y)),
            _ => Value::I32(0),
        },
        Tm::App3(Op3::Ite, c, a, b) => if truth_of(*c, env) {
            value_of(*a, env)
        } else {
            value_of(*b, env)
        },
        _ => Value::I32(0),
    }
}

/// What an array term holds at an index: an array that is the same everywhere, a store
/// in an array, or a choice of two. One of another kind holds zero.
#[verifier::opaque]
pub open spec fn element_of(t: Tm, env: spec_fn(nat) -> i64, i: i32) -> Value
    decreases t,
{
    match t {
        Tm::App1(Op1::ConstArray(_), x) => value_of(*x, env),
        Tm::App3(Op3::Store, a, at, x) => if value_of(*at, env).number() as i32 == i {
            value_of(*x, env)
        } else {
            element_of(*a, env, i)
        },
        Tm::App3(Op3::Ite, c, a, b) => if truth_of(*c, env) {
            element_of(*a, env, i)
        } else {
            element_of(*b, env, i)
        },
        _ => Value::I32(0),
    }
}

/// Does a formula over terms of 32 and of 64 bits hold? One of another kind does not.
#[verifier::opaque]
pub open spec fn truth_of(t: Tm, env: spec_fn(nat) -> i64) -> bool
    decreases t,
{
    match t {
        Tm::Bool(b) => b,
        Tm::App1(Op1::Not, a) => !truth_of(*a, env),
        Tm::App2(Op2::And, a, b) => truth_of(*a, env) && truth_of(*b, env),
        Tm::App2(Op2::Or, a, b) => truth_of(*a, env) || truth_of(*b, env),
        Tm::App2(Op2::Eq, a, b) => value_of(*a, env) == value_of(*b, env),
        Tm::App2(Op2::BvSlt, a, b) => value_of(*a, env).number() < value_of(*b, env).number(),
        Tm::App2(Op2::BvSle, a, b) => value_of(*a, env).number() <= value_of(*b, env).number(),
        Tm::App2(Op2::BvSgt, a, b) => value_of(*a, env).number() > value_of(*b, env).number(),
        Tm::App2(Op2::BvSge, a, b) => value_of(*a, env).number() >= value_of(*b, env).number(),
        Tm::App2(Op2::BvUlt, a, b) => unsigned(value_of(*a, env)) < unsigned(value_of(*b, env)),
        _ => false,
    }
}

/// Everything that the store asserts holds.
pub open spec fn store_holds(ts: Terms, env: spec_fn(nat) -> i64) -> bool {
    forall|i: int|
        0 <= i < ts.asserted().len() ==> truth_of(ts.tm(#[trigger] ts.asserted()[i]), env)
}

/// The value is of the width.
pub open spec fn has_width(v: Value, w: u32) -> bool {
    if w == 64 {
        v is I64
    } else {
        v is I32
    }
}

/// What a run of the program holds: the values of the variables, of the static fields
/// and of the fields of objects.
pub struct Mem {
    pub prog: Program,
    pub vars: Seq<Value>,
    pub statics: spec_fn(FieldKeyV) -> Value,
    pub fields: spec_fn(FieldKeyV, i32) -> Value,
}

impl Mem {
    pub open spec fn with_var(self, i: int, x: Value) -> Mem {
        Mem { vars: self.vars.update(i, x), ..self }
    }

    pub open spec fn with_static(self, k: FieldKeyV, x: Value) -> Mem {
        Mem {
            statics: |j: FieldKeyV|
                if j == k {
                    x
                } else {
                    (self.statics)(j)
                },
            ..self
        }
    }

    pub open spec fn with_field(self, k: FieldKeyV, obj: i32, x: Value) -> Mem {
        Mem {
            fields: |j: FieldKeyV, o: i32|
                if j == k && o == obj {
                    x
                } else {
                    (self.fields)(j, o)
                },
            ..self
        }
    }
}

/// The field, named by the class that declares it.
pub open spec fn owned(p: Program, f: FieldKey) -> FieldKeyV {
    FieldKeyV { class: program::owner_of(p.field_owners@, f@), name: f.name@, desc: f.desc@ }
}

/// The value that a field has before anything is stored in it.
pub open spec fn initial(k: FieldKeyV) -> Value {
    of_width(0, desc::field_width(k.desc))
}

/// Does the body store in the static field?
pub open spec fn stores_static(body: Body, k: FieldKeyV) -> bool {
    exists|i: int, j: int|
        0 <= i < body.blocks@.len() && 0 <= j < body.blocks@[i].stmts@.len() && (
        #[trigger] body.blocks@[i].stmts@[j] matches Stmt::PutStatic(f, _) && f@ == k)
}

/// Does the body store in the field of an object?
pub open spec fn stores_field(p: Program, body: Body, k: FieldKeyV) -> bool {
    exists|i: int, j: int|
        0 <= i < body.blocks@.len() && 0 <= j < body.blocks@[i].stmts@.len() && (
        #[trigger] body.blocks@[i].stmts@[j] matches Stmt::PutField { field, .. } && owned(p, field)
            == k)
}

/// Whatever the symbols stand for, the term has the first value of the static field.
pub open spec fn static_rests(ts: Terms, t: Term, k: FieldKeyV) -> bool {
    ts.has(t) && forall|env: spec_fn(nat) -> i64| #[trigger] value_of(ts.tm(t), env) == initial(k)
}

/// Whatever the symbols stand for, the term has the first value of the field everywhere.
pub open spec fn field_rests(ts: Terms, t: Term, k: FieldKeyV) -> bool {
    ts.has(t) && forall|env: spec_fn(nat) -> i64, o: i32| #[trigger]
        element_of(ts.tm(t), env, o) == initial(k)
}

/// The fields in which the body does not store have their first values.
#[verifier::opaque]
pub open spec fn rest(
    ts: Terms,
    statics: Assoc<FieldKey, Term>,
    fields: Assoc<FieldKey, Term>,
    body: Body,
    p: Program,
) -> bool {
    &&& forall|k: FieldKeyV|
        (#[trigger] statics.at(k)) is Some && !stores_static(body, k) ==> static_rests(
            ts,
            statics.at(k)->0,
            k,
        )
    &&& forall|k: FieldKeyV|
        (#[trigger] fields.at(k)) is Some && !stores_field(p, body, k) ==> field_rests(
            ts,
            fields.at(k)->0,
            k,
        )
}

/// They keep them when the store grows.
pub broadcast proof fn lemma_rest_grown(
    new: Terms,
    old: Terms,
    statics: Assoc<FieldKey, Term>,
    fields: Assoc<FieldKey, Term>,
    body: Body,
    p: Program,
)
    requires
        #[trigger] new.grown_from(old),
        #[trigger] rest(old, statics, fields, body, p),
    ensures
        rest(new, statics, fields, body, p),
{
    reveal(rest);
    assert forall|k: FieldKeyV|
        (#[trigger] statics.at(k)) is Some && !stores_static(body, k) implies static_rests(
        new,
        statics.at(k)->0,
        k,
    ) by {
        assert(static_rests(old, statics.at(k)->0, k));
        assert(new.tm(statics.at(k)->0) == old.tm(statics.at(k)->0));
    }
    assert forall|k: FieldKeyV|
        (#[trigger] fields.at(k)) is Some && !stores_field(p, body, k) implies field_rests(
        new,
        fields.at(k)->0,
        k,
    ) by {
        assert(field_rests(old, fields.at(k)->0, k));
        assert(new.tm(fields.at(k)->0) == old.tm(fields.at(k)->0));
    }
}

/// They keep them when terms are built.
pub broadcast proof fn lemma_rest_built(
    new: Terms,
    old: Terms,
    statics: Assoc<FieldKey, Term>,
    fields: Assoc<FieldKey, Term>,
    body: Body,
    p: Program,
)
    requires
        #[trigger] new.built_from(old),
        #[trigger] rest(old, statics, fields, body, p),
    ensures
        rest(new, statics, fields, body, p),
{
    assert(new.asserted().take(old.asserted().len() as int) =~= old.asserted());
    lemma_rest_grown(new, old, statics, fields, body, p);
}

/// Every variable and field has a value of the width of its type.
pub open spec fn typed(body: Body, m: Mem) -> bool {
    &&& m.vars.len() == body.vars@.len()
    &&& forall|i: int|
        0 <= i < m.vars.len() ==> has_width(#[trigger] m.vars[i], state::ty_width(body.vars@[i].ty))
    &&& forall|k: FieldKeyV| has_width(#[trigger] (m.statics)(k), desc::field_width(k.desc))
    &&& forall|k: FieldKeyV, o: i32| has_width(#[trigger] (m.fields)(k, o), desc::field_width(k.desc))
}

/// The type of an operand.
pub open spec fn operand_ty(body: Body, o: Operand) -> Ty {
    match o {
        Operand::Const(c) => c.ty_of(),
        Operand::Var(v) => body.vars@[v.0 as int].ty,
    }
}

/// The value of an operand. References are numbers: `null` is 0, and a constant object
/// is 1.
pub open spec fn operand(m: Mem, o: Operand) -> Value {
    match o {
        Operand::Var(v) => m.vars[v.0 as int],
        Operand::Const(Const::Int(n)) => Value::I32(n),
        Operand::Const(Const::Long(n)) => Value::I64(n),
        Operand::Const(Const::Str(_)) => Value::I32(1),
        Operand::Const(_) => Value::I32(0),
    }
}

/// Is there no number in range that is the result of the operator? A division by zero
/// throws, and the least number divided by minus one is too large.
pub open spec fn undefined(op: BinOp, a: Value, b: Value) -> bool {
    ||| (op == BinOp::Div || op == BinOp::Rem) && b.number() == 0
    ||| op == BinOp::Div && b.number() == -1 && a.number() == if a is I64 {
        i64::MIN
    } else {
        i32::MIN as i64
    }
}

/// The quotient or the remainder of bit vectors.
pub open spec fn bits_quotient(op: BinOp, a: Value, b: Value) -> Value {
    let o = if op == BinOp::Div {
        Op2::BvSdiv
    } else {
        Op2::BvSrem
    };
    match (a, b) {
        (Value::I64(x), Value::I64(y)) => Value::I64(long_bits_op(o, x, y)),
        _ => Value::I32(meaning::bits_op(o, a.number() as i32, b.number() as i32)),
    }
}

/// The result of an operator, as the interpreter has it; that of bit vectors where there
/// is none.
pub open spec fn bin(op: BinOp, a: Value, b: Value) -> Value {
    if undefined(op, a, b) {
        bits_quotient(op, a, b)
    } else {
        value::binary(op, a, b)
    }
}

/// The number converted to the type.
pub open spec fn cast(ty: Ty, v: Value) -> Value {
    of_width(v.number(), state::ty_width(ty))
}

/// The value of an rvalue; `chosen` if it is not computed.
pub open spec fn rvalue(m: Mem, rv: Rvalue, chosen: Value) -> Value {
    match rv {
        Rvalue::Use(o) => operand(m, o),
        Rvalue::Bin(op, a, b) => bin(op, operand(m, a), operand(m, b)),
        Rvalue::Neg(o) => negated(operand(m, o)),
        Rvalue::Cast(ty, o) => cast(ty, operand(m, o)),
        Rvalue::Cmp(a, b) => {
            let x = operand(m, a).number();
            let y = operand(m, b).number();
            Value::I32(
                if x < y {
                    -1i32 as i32
                } else if x == y {
                    0
                } else {
                    1
                },
            )
        },
        Rvalue::GetStatic(f) => (m.statics)(f@),
        Rvalue::GetField { obj, field } => (m.fields)(
            owned(m.prog, field),
            operand(m, obj).number() as i32,
        ),
        _ => chosen,
    }
}

/// The first of the first `n` cases that has the value.
pub open spec fn case_taken(cases: Seq<(i32, BlockId)>, v: Value, n: nat) -> Option<BlockId>
    decreases n,
{
    if n == 0 {
        None
    } else {
        match case_taken(cases, v, (n - 1) as nat) {
            Some(t) => Some(t),
            None => if Value::I32(cases[n - 1].0) == v {
                Some(cases[n - 1].1)
            } else {
                None
            },
        }
    }
}

/// Where a run goes on after a block.
pub open spec fn next_block(t: Terminator, m: Mem) -> Option<BlockId> {
    match t {
        Terminator::Goto(b) => Some(b),
        Terminator::Branch { cond, then_, else_ } => if operand(m, cond) != Value::I32(0) {
            Some(then_)
        } else {
            Some(else_)
        },
        Terminator::Switch { value, cases, default } => match case_taken(
            cases@,
            operand(m, value),
            cases@.len(),
        ) {
            Some(b) => Some(b),
            None => Some(default),
        },
        _ => None,
    }
}

pub(crate) proof fn lemma_long_distance(x: i64, y: i32)
    ensures
        0 <= (y & 0x3f) < 64,
        x << ((y & 0x3f) as u32) == x << (((y as i64) as u32) % 64),
        x >> ((y & 0x3f) as u32) == x >> (((y as i64) as u32) % 64),
        ((x as u64) >> ((y & 0x3f) as u32)) == (x as u64) >> (((y as i64) as u32) & 63),
{
    assert(0 <= (y & 0x3f) && (y & 0x3f) < 64) by (bit_vector);
    assert(x << ((y & 0x3f) as u32) == x << (((y as i64) as u32) % 64)) by (bit_vector);
    assert(x >> ((y & 0x3f) as u32) == x >> (((y as i64) as u32) % 64)) by (bit_vector);
    assert(((x as u64) >> ((y & 0x3f) as u32)) == (x as u64) >> (((y as i64) as u32) & 63))
        by (bit_vector);
}

/// The quotient of two numbers of 64 bits is in range.
proof fn lemma_long_quotient_fits(x: i64, y: i64)
    requires
        y != 0,
        !(x == i64::MIN && y == -1),
    ensures
        x.checked_div(y) is Some,
{
    meaning::lemma_quotient_size(meaning::size(x as int), meaning::size(y as int));
}

/// The encoding of an operator agrees with executing it: whatever the solver finds, the
/// interpreter computes. Both operands are of one width, but for the distance of a shift,
/// which is of 32 bits; a comparison is of values of 32 bits.
pub proof fn law_operators_agree(op: BinOp, a: Tm, b: Tm, aw: u32, bw: u32, env: spec_fn(nat) -> i64)
    requires
        aw == 32 || aw == 64,
        bw == 32 || bw == 64,
        has_width(value_of(a, env), aw),
        has_width(value_of(b, env), bw),
        value::compares(op) ==> aw == 32 && bw == 32,
        encode::shifts(op) ==> bw == 32,
        !encode::shifts(op) ==> aw == bw,
    ensures
        value_of(encode::bin_tm(op, a, b, aw, bw), env) == bin(
            op,
            value_of(a, env),
            value_of(b, env),
        ),
        has_width(value_of(encode::bin_tm(op, a, b, aw, bw), env), aw),
{
    reveal_with_fuel(value_of, 4);
    reveal_with_fuel(truth_of, 4);
    let x = value_of(a, env).number();
    let y = value_of(b, env).number();
    if encode::shifts(op) {
        if aw == 64 {
            lemma_long_distance(x, y as i32);
        } else {
            meaning::lemma_shift_distance(x as i32, y as i32);
        }
    }
    if op == BinOp::Div && !undefined(op, value_of(a, env), value_of(b, env)) {
        if aw == 64 {
            lemma_long_quotient_fits(x, y);
        } else {
            meaning::lemma_quotient_fits(x as i32, y as i32);
        }
    }
}

/// The three-way comparison of two values of one width.
pub proof fn law_three_way_comparison(a: Tm, b: Tm, w: u32, env: spec_fn(nat) -> i64)
    requires
        has_width(value_of(a, env), w),
        has_width(value_of(b, env), w),
    ensures
        ({
            let x = value_of(a, env).number();
            let y = value_of(b, env).number();
            value_of(encode::ordered_tm(a, b, w, w), env) == Value::I32(
                if x < y {
                    -1i32 as i32
                } else if x == y {
                    0
                } else {
                    1
                },
            )
        }),
{
    reveal_with_fuel(value_of, 4);
    reveal_with_fuel(truth_of, 4);
}

/// A conversion to `int` keeps the low half of a number, and one from `int` to `long`
/// keeps the number.
pub proof fn law_conversions_agree(ty: Ty, a: Tm, env: spec_fn(nat) -> i64)
    requires
        ty == Ty::Int || ty == Ty::Long,
    ensures
        value_of(rvalue::cast_tm(ty, a), env) == cast(ty, value_of(a, env)),
{
    reveal_with_fuel(value_of, 2);
}

/// The interpreter computes from its store what a run computes from the values of its
/// variables, and so what the formulas for the right-hand sides mean.
pub proof fn law_interpreter_agrees_with_runs(store: value::Store, m: Mem, rv: Rvalue, chosen: Value)
    requires
        forall|o: Operand|
            #[trigger] value::operand(store, o) == operand(m, o) || !rvalue_reads(rv, o),
        forall|o: Operand| #[trigger] rvalue_reads(rv, o) ==> value::numeric(operand(m, o)),
        rv is Use || rv is Bin || rv is Neg || rv is Cmp || rv is Cast,
        rv matches Rvalue::Bin(op, a, b) ==> !undefined(op, operand(m, a), operand(m, b)),
        rv matches Rvalue::Cast(ty, _) ==> ty == Ty::Int || ty == Ty::Long,
    ensures
        value::plain(store, rv) == rvalue(m, rv, chosen),
{
    match rv {
        Rvalue::Use(o) | Rvalue::Neg(o) | Rvalue::Cast(_, o) => {
            assert(rvalue_reads(rv, o));
            assert(value::operand(store, o) == operand(m, o));
        },
        Rvalue::Bin(_, a, b) | Rvalue::Cmp(a, b) => {
            assert(rvalue_reads(rv, a) && rvalue_reads(rv, b));
            assert(value::operand(store, a) == operand(m, a));
            assert(value::operand(store, b) == operand(m, b));
        },
        _ => {},
    }
}

/// Is the operand one of the rvalue's?
pub open spec fn rvalue_reads(rv: Rvalue, o: Operand) -> bool {
    match rv {
        Rvalue::Use(a) | Rvalue::Neg(a) | Rvalue::Cast(_, a) => o == a,
        Rvalue::Bin(_, a, b) | Rvalue::Cmp(a, b) => o == a || o == b,
        _ => false,
    }
}

/// A branch is taken where its condition is not zero, and a check fails where its
/// condition is zero.
pub proof fn law_tests_for_zero(t: Tm, env: spec_fn(nat) -> i64)
    ensures
        truth_of(encode::not_null(t), env) <==> value_of(t, env) != Value::I32(0),
        truth_of(term::tm_eq(t, term::bv32(0)), env) <==> value_of(t, env) == Value::I32(0),
{
    reveal_with_fuel(value_of, 2);
    reveal_with_fuel(truth_of, 3);
}

} // verus!
