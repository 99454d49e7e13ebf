//! Concrete values, and the rvalues that are computed from them alone.

use vstd::arithmetic::div_mod::lemma_mod_multiples_basic;
use vstd::prelude::*;

use crate::assoc::Assoc;
use crate::ir::{BinOp, Const, Operand, Rvalue, Ty, VarId};

verus! {

/// A value of an execution.
#[derive(Clone, Copy, Debug, PartialEq, Eq, Structural)]
pub enum Value {
    I32(i32),
    I64(i64),
    /// The identity of an object: 0 is null, 1 an object that was not allocated
    /// here, such as a literal, and the rest are fresh allocations.
    Ref(u64),
    Unknown,
}

impl Value {
    /// The number; 0 for anything else.
    pub open spec fn number(self) -> i64 {
        match self {
            Value::I32(v) => v as i64,
            Value::I64(v) => v,
            _ => 0,
        }
    }

    /// Is it a number other than zero, or a reference that is not null?
    pub open spec fn truth(self) -> bool {
        match self {
            Value::I32(v) => v != 0,
            Value::I64(v) => v != 0,
            Value::Ref(id) => id != 0,
            Value::Unknown => false,
        }
    }

    /// The number; 0 for anything else.
    pub fn as_i64(self) -> (r: i64)
        ensures
            r == self.number(),
    {
        match self {
            Value::I32(v) => v as i64,
            Value::I64(v) => v,
            _ => 0,
        }
    }

    /// Is it a number other than zero, or a reference that is not null?
    pub fn nonzero(self) -> (r: bool)
        ensures
            r == self.truth(),
    {
        match self {
            Value::I32(v) => v != 0,
            Value::I64(v) => v != 0,
            Value::Ref(id) => id != 0,
            Value::Unknown => false,
        }
    }
}

/// The values of the variables.
pub type Store = Map<VarId, Value>;

/// The value of a variable.
pub open spec fn var(store: Store, v: VarId) -> Value {
    if store.dom().contains(v) {
        store[v]
    } else {
        Value::Unknown
    }
}

/// The value of an operand.
pub open spec fn operand(store: Store, o: Operand) -> Value {
    match o {
        Operand::Var(v) => var(store, v),
        Operand::Const(Const::Int(n)) => Value::I32(n),
        Operand::Const(Const::Long(n)) => Value::I64(n),
        Operand::Const(Const::Null) => Value::Ref(0),
        Operand::Const(_) => Value::Ref(1),
    }
}

/// The value of a variable.
pub fn eval_var(store: &Assoc<VarId, Value>, v: VarId) -> (r: Value)
    ensures
        r == var(store.map(), v),
{
    match store.get(&v) {
        Some(x) => x,
        None => Value::Unknown,
    }
}

/// The value of an operand.
pub fn eval_op(store: &Assoc<VarId, Value>, o: &Operand) -> (r: Value)
    ensures
        r == operand(store.map(), *o),
{
    match o {
        Operand::Var(v) => eval_var(store, *v),
        Operand::Const(Const::Int(n)) => Value::I32(*n),
        Operand::Const(Const::Long(n)) => Value::I64(*n),
        Operand::Const(Const::Null) => Value::Ref(0),
        Operand::Const(_) => Value::Ref(1),
    }
}

/// 1 if it holds, else 0.
pub open spec fn bit(b: bool) -> Value {
    Value::I32(
        if b {
            1
        } else {
            0
        },
    )
}

fn make_bit(b: bool) -> (r: Value)
    ensures
        r == bit(b),
{
    Value::I32(
        if b {
            1
        } else {
            0
        },
    )
}

/// Does the comparison of the numbers hold?
pub open spec fn ordered(op: BinOp, x: i64, y: i64) -> bool {
    match op {
        BinOp::Eq => x == y,
        BinOp::Ne => x != y,
        BinOp::Lt => x < y,
        BinOp::Le => x <= y,
        BinOp::Gt => x > y,
        _ => x >= y,
    }
}

/// Is the operator a comparison?
pub open spec fn compares(op: BinOp) -> bool {
    op == BinOp::Eq || op == BinOp::Ne || op == BinOp::Lt || op == BinOp::Le || op == BinOp::Gt || op
        == BinOp::Ge
}

/// The operator on numbers of 64 bits: arithmetic wraps around, division by zero
/// gives 0, and shifts use the low bits of the count.
pub open spec fn wide_op(op: BinOp, x: i64, y: i64) -> i64 {
    match op {
        BinOp::Add => x.wrapping_add(y),
        BinOp::Sub => x.wrapping_sub(y),
        BinOp::Mul => x.wrapping_mul(y),
        BinOp::Div => match x.checked_div(y) {
            Some(v) => v,
            None => 0,
        },
        BinOp::Rem => match x.checked_rem(y) {
            Some(v) => v,
            None => 0,
        },
        BinOp::And => x & y,
        BinOp::Or => x | y,
        BinOp::Xor => x ^ y,
        BinOp::Shl => x.wrapping_shl(y as u32),
        BinOp::Shr => x.wrapping_shr(y as u32),
        _ => ((x as u64) >> (y as u32 & 63)) as i64,
    }
}

/// The operator on numbers of 32 bits.
pub open spec fn narrow_op(op: BinOp, x: i32, y: i32) -> i32 {
    match op {
        BinOp::Add => x.wrapping_add(y),
        BinOp::Sub => x.wrapping_sub(y),
        BinOp::Mul => x.wrapping_mul(y),
        BinOp::Div => match x.checked_div(y) {
            Some(v) => v,
            None => 0,
        },
        BinOp::Rem => match x.checked_rem(y) {
            Some(v) => v,
            None => 0,
        },
        BinOp::And => x & y,
        BinOp::Or => x | y,
        BinOp::Xor => x ^ y,
        BinOp::Shl => x.wrapping_shl(y as u32),
        BinOp::Shr => x.wrapping_shr(y as u32),
        _ => ((x as u32) >> (y as u32 & 31)) as i32,
    }
}

/// The operator on two values: unknown if one of them is. Of references it is
/// only known whether they are the same.
pub open spec fn binary(op: BinOp, a: Value, b: Value) -> Value {
    if a is Unknown || b is Unknown {
        Value::Unknown
    } else if compares(op) {
        match (a, b) {
            (Value::Ref(x), Value::Ref(y)) => bit(
                (op == BinOp::Eq && x == y) || (op == BinOp::Ne && x != y),
            ),
            _ => bit(ordered(op, a.number(), b.number())),
        }
    } else if a is I64 || b is I64 {
        Value::I64(wide_op(op, a.number(), b.number()))
    } else {
        Value::I32(narrow_op(op, a.number() as i32, b.number() as i32))
    }
}

fn eval_wide(op: BinOp, x: i64, y: i64) -> (r: i64)
    requires
        !compares(op),
    ensures
        r == wide_op(op, x, y),
{
    match op {
        BinOp::Add => x.wrapping_add(y),
        BinOp::Sub => x.wrapping_sub(y),
        BinOp::Mul => x.wrapping_mul(y),
        BinOp::Div => match x.checked_div(y) {
            Some(v) => v,
            None => 0,
        },
        BinOp::Rem => match x.checked_rem(y) {
            Some(v) => v,
            None => 0,
        },
        BinOp::And => x & y,
        BinOp::Or => x | y,
        BinOp::Xor => x ^ y,
        BinOp::Shl => x.wrapping_shl(y as u32),
        BinOp::Shr => x.wrapping_shr(y as u32),
        _ => {
            let s = y as u32 & 63;
            assert(s <= 63) by (bit_vector)
                requires
                    s == y as u32 & 63,
            ;
            ((x as u64) >> s) as i64
        },
    }
}

fn eval_narrow(op: BinOp, x: i32, y: i32) -> (r: i32)
    requires
        !compares(op),
    ensures
        r == narrow_op(op, x, y),
{
    match op {
        BinOp::Add => x.wrapping_add(y),
        BinOp::Sub => x.wrapping_sub(y),
        BinOp::Mul => x.wrapping_mul(y),
        BinOp::Div => match x.checked_div(y) {
            Some(v) => v,
            None => 0,
        },
        BinOp::Rem => match x.checked_rem(y) {
            Some(v) => v,
            None => 0,
        },
        BinOp::And => x & y,
        BinOp::Or => x | y,
        BinOp::Xor => x ^ y,
        BinOp::Shl => x.wrapping_shl(y as u32),
        BinOp::Shr => x.wrapping_shr(y as u32),
        _ => {
            let s = y as u32 & 31;
            assert(s <= 31) by (bit_vector)
                requires
                    s == y as u32 & 31,
            ;
            ((x as u32) >> s) as i32
        },
    }
}

/// The operator on two values.
pub fn eval_bin(op: BinOp, a: Value, b: Value) -> (r: Value)
    ensures
        r == binary(op, a, b),
{
    if matches!(a, Value::Unknown) || matches!(b, Value::Unknown) {
        return Value::Unknown;
    }
    match op {
        BinOp::Eq | BinOp::Ne | BinOp::Lt | BinOp::Le | BinOp::Gt | BinOp::Ge => {
            if let (Value::Ref(x), Value::Ref(y)) = (a, b) {
                return make_bit(match op {
                    BinOp::Eq => x == y,
                    BinOp::Ne => x != y,
                    _ => false,
                });
            }
            let x = a.as_i64();
            let y = b.as_i64();
            make_bit(
                match op {
                    BinOp::Eq => x == y,
                    BinOp::Ne => x != y,
                    BinOp::Lt => x < y,
                    BinOp::Le => x <= y,
                    BinOp::Gt => x > y,
                    _ => x >= y,
                },
            )
        },
        _ => {
            if matches!(a, Value::I64(_)) || matches!(b, Value::I64(_)) {
                Value::I64(eval_wide(op, a.as_i64(), b.as_i64()))
            } else {
                Value::I32(eval_narrow(op, a.as_i64() as i32, b.as_i64() as i32))
            }
        },
    }
}

/// The negated value.
pub open spec fn negative(a: Value) -> Value {
    match a {
        Value::I32(v) => Value::I32(0i32.wrapping_sub(v)),
        Value::I64(v) => Value::I64(0i64.wrapping_sub(v)),
        _ => Value::Unknown,
    }
}

/// The value as one of the type.
pub open spec fn converted(ty: Ty, a: Value) -> Value {
    match (ty, a) {
        (Ty::Int, Value::I64(v)) => Value::I32(v as i32),
        (Ty::Long, Value::I32(v)) => Value::I64(v as i64),
        _ => a,
    }
}

/// -1, 0 or 1 as the first number is less than, equal to or greater than the
/// second.
pub open spec fn three_way(a: Value, b: Value) -> Value {
    if a is Unknown || b is Unknown {
        Value::Unknown
    } else if a.number() < b.number() {
        Value::I32((-1i32) as i32)
    } else if a.number() == b.number() {
        Value::I32(0)
    } else {
        Value::I32(1)
    }
}

/// What is known of an rvalue from the values of the variables alone.
pub open spec fn plain(store: Store, rv: Rvalue) -> Value {
    match rv {
        Rvalue::Use(o) => operand(store, o),
        Rvalue::Neg(o) => negative(operand(store, o)),
        Rvalue::Bin(op, a, b) => binary(op, operand(store, a), operand(store, b)),
        Rvalue::Cast(ty, o) => converted(ty, operand(store, o)),
        Rvalue::Cmp(a, b) => three_way(operand(store, a), operand(store, b)),
        _ => Value::Unknown,
    }
}

/// What is known of an rvalue from the values of the variables alone.
pub fn eval_rvalue(store: &Assoc<VarId, Value>, rv: &Rvalue) -> (r: Value)
    ensures
        r == plain(store.map(), *rv),
{
    match rv {
        Rvalue::Use(o) => eval_op(store, o),
        Rvalue::Neg(o) => match eval_op(store, o) {
            Value::I32(v) => Value::I32(0i32.wrapping_sub(v)),
            Value::I64(v) => Value::I64(0i64.wrapping_sub(v)),
            _ => Value::Unknown,
        },
        Rvalue::Bin(op, a, b) => eval_bin(*op, eval_op(store, a), eval_op(store, b)),
        Rvalue::Cast(ty, o) => match (*ty, eval_op(store, o)) {
            (Ty::Int, Value::I64(v)) => Value::I32(v as i32),
            (Ty::Long, Value::I32(v)) => Value::I64(v as i64),
            (_, v) => v,
        },
        Rvalue::Cmp(a, b) => {
            let x = eval_op(store, a);
            let y = eval_op(store, b);
            if matches!(x, Value::Unknown) || matches!(y, Value::Unknown) {
                return Value::Unknown;
            }
            if x.as_i64() < y.as_i64() {
                Value::I32(-1)
            } else if x.as_i64() == y.as_i64() {
                Value::I32(0)
            } else {
                Value::I32(1)
            }
        },
        _ => Value::Unknown,
    }
}

/// An operator on numbers of 32 bits gives what the Java language says: sums,
/// differences and products are taken modulo the range, and comparisons are
/// those of the numbers.
pub proof fn law_int_arithmetic(op: BinOp, x: i32, y: i32)
    ensures
        binary(BinOp::Add, Value::I32(x), Value::I32(y)) == Value::I32(x.wrapping_add(y)),
        binary(BinOp::Sub, Value::I32(x), Value::I32(y)) == Value::I32(x.wrapping_sub(y)),
        binary(BinOp::Mul, Value::I32(x), Value::I32(y)) == Value::I32(x.wrapping_mul(y)),
        compares(op) ==> binary(op, Value::I32(x), Value::I32(y)) == bit(
            ordered(op, x as i64, y as i64),
        ),
{
}

/// Is it an `int` or a `long`?
pub open spec fn numeric(v: Value) -> bool {
    v is I32 || v is I64
}

/// The three-way comparison of two numbers is less than, equal to or greater than zero
/// as the first number is less than, equal to or greater than the second: its sign is
/// that of the difference over the integers. Comparing them the other way round gives
/// the opposite.
pub proof fn law_three_way_is_the_sign_of_the_difference(store: Store, a: Operand, b: Operand)
    requires
        numeric(operand(store, a)),
        numeric(operand(store, b)),
    ensures
        ({
            let d = operand(store, a).number() - operand(store, b).number();
            let r = plain(store, Rvalue::Cmp(a, b));
            let back = plain(store, Rvalue::Cmp(b, a));
            &&& r is I32
            &&& back is I32
            &&& r->I32_0 < 0 <==> d < 0
            &&& r->I32_0 == 0 <==> d == 0
            &&& r->I32_0 > 0 <==> d > 0
            &&& -1 <= r->I32_0 <= 1
            &&& back->I32_0 == -r->I32_0
        }),
{
}

/// A comparison of two numbers, of whatever widths, gives 1 where it holds of the
/// integers and 0 where it does not; testing the three-way comparison against zero gives
/// the same.
pub proof fn law_comparisons_are_those_of_integers(store: Store, a: Operand, b: Operand)
    requires
        numeric(operand(store, a)),
        numeric(operand(store, b)),
    ensures
        ({
            let x = operand(store, a).number() as int;
            let y = operand(store, b).number() as int;
            let test = |op: BinOp| plain(store, Rvalue::Bin(op, a, b));
            let c = plain(store, Rvalue::Cmp(a, b));
            let sign = |op: BinOp| binary(op, c, Value::I32(0));
            &&& test(BinOp::Eq) == if x == y { Value::I32(1) } else { Value::I32(0) }
            &&& test(BinOp::Ne) == if x == y { Value::I32(0) } else { Value::I32(1) }
            &&& test(BinOp::Lt) == if x < y { Value::I32(1) } else { Value::I32(0) }
            &&& test(BinOp::Ge) == if x < y { Value::I32(0) } else { Value::I32(1) }
            &&& test(BinOp::Gt) == if y < x { Value::I32(1) } else { Value::I32(0) }
            &&& test(BinOp::Le) == if y < x { Value::I32(0) } else { Value::I32(1) }
            &&& sign(BinOp::Eq) == test(BinOp::Eq)
            &&& sign(BinOp::Ne) == test(BinOp::Ne)
            &&& sign(BinOp::Lt) == test(BinOp::Lt)
            &&& sign(BinOp::Ge) == test(BinOp::Ge)
            &&& sign(BinOp::Gt) == test(BinOp::Gt)
            &&& sign(BinOp::Le) == test(BinOp::Le)
        }),
{
}

/// Two references are equal just where they are the same object; no other comparison
/// of them holds.
pub proof fn law_references_are_compared_by_identity(store: Store, a: Operand, b: Operand)
    requires
        operand(store, a) is Ref,
        operand(store, b) is Ref,
    ensures
        ({
            let same = operand(store, a)->Ref_0 == operand(store, b)->Ref_0;
            &&& plain(store, Rvalue::Bin(BinOp::Eq, a, b)).truth() <==> same
            &&& plain(store, Rvalue::Bin(BinOp::Ne, a, b)).truth() <==> !same
            &&& !plain(store, Rvalue::Bin(BinOp::Lt, a, b)).truth()
            &&& !plain(store, Rvalue::Bin(BinOp::Gt, a, b)).truth()
        }),
{
}

/// Negation gives the number that makes zero with its operand, modulo the range. It
/// undoes itself.
pub proof fn law_negation_is_the_additive_inverse(store: Store, a: Operand)
    requires
        numeric(operand(store, a)),
    ensures
        ({
            let x = operand(store, a);
            let r = plain(store, Rvalue::Neg(a));
            &&& binary(BinOp::Add, x, r) == match x {
                Value::I64(_) => Value::I64(0),
                _ => Value::I32(0),
            }
            &&& x is I64 <==> r is I64
            &&& numeric(r)
            &&& x.number() == (if x is I64 { i64::MIN as int } else { i32::MIN as int }) || r.number()
                == -x.number()
            &&& negative(r) == x
        }),
{
}

/// A conversion to `long` keeps the number, and one to `int` keeps it modulo the range;
/// so an `int` that was made a `long` comes back.
pub proof fn law_conversions_keep_the_number(store: Store, a: Operand)
    requires
        numeric(operand(store, a)),
    ensures
        ({
            let x = operand(store, a).number() as int;
            let long = plain(store, Rvalue::Cast(Ty::Long, a));
            let short = plain(store, Rvalue::Cast(Ty::Int, a));
            &&& long is I64
            &&& long.number() == x
            &&& short is I32
            &&& (short.number() - x) % 0x1_0000_0000 == 0
            &&& i32::MIN <= x <= i32::MAX ==> short.number() == x
            &&& operand(store, a) is I32 ==> converted(Ty::Int, long) == operand(store, a)
        }),
{
    let x = operand(store, a).number();
    let high = x >> 32u32;
    let low = x as u32;
    let short = x as i32;
    assert(x == high * 0x1_0000_0000 + low) by (bit_vector)
        requires
            high == x >> 32u32,
            low == x as u32,
    ;
    assert(low < 0x8000_0000 ==> short == low) by (bit_vector)
        requires
            low == x as u32,
            short == x as i32,
    ;
    assert(low >= 0x8000_0000 ==> short == low - 0x1_0000_0000) by (bit_vector)
        requires
            low == x as u32,
            short == x as i32,
    ;
    let k: int = if low < 0x8000_0000 {
        -high
    } else {
        -high - 1
    };
    assert(short - x == k * 0x1_0000_0000);
    lemma_mod_multiples_basic(k, 0x1_0000_0000);
}


/// What is computed from something unknown is unknown.
pub proof fn law_unknown_propagates(op: BinOp, a: Value, b: Value)
    ensures
        binary(op, Value::Unknown, b) == Value::Unknown,
        binary(op, a, Value::Unknown) == Value::Unknown,
        !(a is Unknown) && !(b is Unknown) ==> !(binary(op, a, b) is Unknown),
{
}

} // verus!
