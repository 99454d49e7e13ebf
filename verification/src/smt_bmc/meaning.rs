//! What terms over 32-bit values mean, and that the formulas built for the
//! operators and functions of Java mean what those compute.

use vstd::arithmetic::div_mod::{lemma_fundamental_div_mod, lemma_fundamental_div_mod_converse};
use vstd::prelude::*;

use super::char_encode;
use super::char_encode::CharFn;
use super::encode;
use super::formula;
use super::merge;
use crate::concrete::value;
use crate::concrete::value::Value;
use crate::ir::BinOp;
use crate::term;
use crate::term::{Op1, Op2, Op3, Term, Terms, Tm};

verus! {

/// The value of a binary operation on bit vectors. Division by zero gives all ones,
/// or one for a negative number; a shift past the width loses every bit.
pub open spec fn bits_op(op: Op2, x: i32, y: i32) -> i32 {
    match op {
        Op2::BvAdd => x.wrapping_add(y),
        Op2::BvSub => x.wrapping_sub(y),
        Op2::BvMul => x.wrapping_mul(y),
        Op2::BvSdiv => if y == 0 {
            if x < 0 {
                1
            } else {
                -1i32 as i32
            }
        } else {
            match x.checked_div(y) {
                Some(q) => q,
                None => i32::MIN,
            }
        },
        Op2::BvSrem => if y == 0 {
            x
        } else {
            match x.checked_rem(y) {
                Some(r) => r,
                None => 0,
            }
        },
        Op2::BvUdiv => if y == 0 {
            -1i32 as i32
        } else {
            ((x as u32) / (y as u32)) as i32
        },
        Op2::BvUrem => if y == 0 {
            x
        } else {
            ((x as u32) % (y as u32)) as i32
        },
        Op2::BvAnd => x & y,
        Op2::BvOr => x | y,
        Op2::BvXor => x ^ y,
        Op2::BvShl => if 0 <= y < 32 {
            x << (y as u32)
        } else {
            0
        },
        Op2::BvAshr => if 0 <= y < 32 {
            x >> (y as u32)
        } else if x < 0 {
            -1i32 as i32
        } else {
            0
        },
        Op2::BvLshr => if 0 <= y < 32 {
            ((x as u32) >> (y as u32)) as i32
        } else {
            0
        },
        _ => 0,
    }
}

/// The value of a 32-bit term, with the symbols at the values that `env` gives them
/// by their positions. A term of another sort is taken as zero.
pub open spec fn value_of(t: Tm, env: spec_fn(nat) -> i32) -> i32
    decreases t,
{
    match t {
        Tm::Bv(n, _) => n as i32,
        Tm::FreshBv(at, _, _) => env(at),
        Tm::App1(Op1::BvNeg, a) => 0i32.wrapping_sub(value_of(*a, env)),
        Tm::App1(Op1::Extract(high, low), a) => if high == 31 && low == 0 {
            value_of(*a, env)
        } else {
            0
        },
        Tm::App2(op, a, b) => bits_op(op, value_of(*a, env), value_of(*b, env)),
        Tm::App3(Op3::Ite, c, a, b) => if truth_of(*c, env) {
            value_of(*a, env)
        } else {
            value_of(*b, env)
        },
        _ => 0,
    }
}

/// Does a formula over 32-bit terms hold? One of another kind does not.
pub open spec fn truth_of(t: Tm, env: spec_fn(nat) -> i32) -> bool
    decreases t,
{
    match t {
        Tm::Bool(b) => b,
        Tm::App1(Op1::Not, a) => !truth_of(*a, env),
        Tm::App2(Op2::And, a, b) => truth_of(*a, env) && truth_of(*b, env),
        Tm::App2(Op2::Or, a, b) => truth_of(*a, env) || truth_of(*b, env),
        Tm::App2(Op2::Eq, a, b) => value_of(*a, env) == value_of(*b, env),
        Tm::App2(Op2::BvSlt, a, b) => value_of(*a, env) < value_of(*b, env),
        Tm::App2(Op2::BvSle, a, b) => value_of(*a, env) <= value_of(*b, env),
        Tm::App2(Op2::BvSgt, a, b) => value_of(*a, env) > value_of(*b, env),
        Tm::App2(Op2::BvSge, a, b) => value_of(*a, env) >= value_of(*b, env),
        _ => false,
    }
}

/// Is there no number in range that is the result of the operator? A division by zero
/// throws, and the least number divided by minus one is too large.
pub open spec fn undefined(op: BinOp, x: i32, y: i32) -> bool {
    ||| (op == BinOp::Div || op == BinOp::Rem) && y == 0
    ||| op == BinOp::Div && x == i32::MIN && y == -1
}

pub(crate) proof fn lemma_shift_distance(x: i32, y: i32)
    ensures
        0 <= (y & 0x1f) < 32,
        x << ((y & 0x1f) as u32) == x << ((y as u32) % 32),
        x >> ((y & 0x1f) as u32) == x >> ((y as u32) % 32),
        ((x as u32) >> ((y & 0x1f) as u32)) == (x as u32) >> ((y as u32) & 31),
{
    assert(0 <= (y & 0x1f) && (y & 0x1f) < 32) by (bit_vector);
    assert(x << ((y & 0x1f) as u32) == x << ((y as u32) % 32)) by (bit_vector);
    assert(x >> ((y & 0x1f) as u32) == x >> ((y as u32) % 32)) by (bit_vector);
    assert(((x as u32) >> ((y & 0x1f) as u32)) == (x as u32) >> ((y as u32) & 31)) by (bit_vector);
}

/// The size of a number.
pub open spec fn size(x: int) -> int {
    if x < 0 {
        -x
    } else {
        x
    }
}

/// A quotient is no larger than what is divided, and at most half as large where
/// that is not divided by one.
pub(crate) proof fn lemma_quotient_size(n: int, d: int)
    requires
        n >= 0,
        d > 0,
    ensures
        n == d * (n / d) + n % d,
        0 <= n % d < d,
        0 <= n / d <= n,
        d >= 2 ==> 2 * (n / d) <= n,
{
    lemma_fundamental_div_mod(n, d);
    let q = n / d;
    let r = n % d;
    assert(0 <= q <= n && (d >= 2 ==> 2 * q <= n)) by (nonlinear_arith)
        requires
            n == d * q + r,
            0 <= r < d,
            n >= 0,
            d > 0,
    ;
}

/// The quotient of two numbers is in range.
pub(crate) proof fn lemma_quotient_fits(x: i32, y: i32)
    requires
        !undefined(BinOp::Div, x, y),
    ensures
        x.checked_div(y) is Some,
{
    lemma_quotient_size(size(x as int), size(y as int));
}

/// The encoding of an operator on 32-bit values agrees with executing it: whatever
/// the solver finds, the interpreter computes.
pub proof fn law_operators_agree(op: BinOp, a: Tm, b: Tm, env: spec_fn(nat) -> i32)
    requires
        !undefined(op, value_of(a, env), value_of(b, env)),
    ensures
        value::binary(op, Value::I32(value_of(a, env)), Value::I32(value_of(b, env)))
            == Value::I32(value_of(encode::bin_tm(op, a, b, 32, 32), env)),
{
    reveal_with_fuel(value_of, 4);
    reveal_with_fuel(truth_of, 4);
    let x = value_of(a, env);
    let y = value_of(b, env);
    lemma_shift_distance(x, y);
    if op == BinOp::Div {
        lemma_quotient_fits(x, y);
    }
}

/// The three-way comparison of two 32-bit values.
pub proof fn law_three_way_comparison(a: Tm, b: Tm, env: spec_fn(nat) -> i32)
    ensures
        ({
            let x = value_of(a, env);
            let y = value_of(b, env);
            value_of(encode::ordered_tm(a, b, 32, 32), env) == if x < y {
                -1int
            } else if x == y {
                0int
            } else {
                1int
            }
        }),
{
    reveal_with_fuel(value_of, 4);
    reveal_with_fuel(truth_of, 4);
}

/// A branch is taken where its condition is not zero, and a check fails where its
/// condition is zero.
pub proof fn law_conditions_are_tests_for_zero(t: Tm, env: spec_fn(nat) -> i32)
    ensures
        truth_of(encode::not_null(t), env) <==> value_of(t, env) != 0,
        truth_of(term::tm_eq(t, term::bv32(0)), env) <==> value_of(t, env) == 0,
{
    reveal_with_fuel(value_of, 2);
    reveal_with_fuel(truth_of, 3);
}

/// What two paths are joined to is the value of the one whose condition holds.
pub proof fn law_join_selects_the_path(
    ts: Terms,
    cond: Tm,
    a: Term,
    b: Term,
    r: Option<Term>,
    env: spec_fn(nat) -> i32,
)
    requires
        merge::joins(ts, cond, Some(a), Some(b), r),
    ensures
        r is Some,
        truth_of(cond, env) ==> value_of(ts.tm(r->0), env) == value_of(ts.tm(a), env),
        !truth_of(cond, env) ==> value_of(ts.tm(r->0), env) == value_of(ts.tm(b), env),
{
}

/// `Math.abs`, `signum` and the choice of one of two numbers.
pub proof fn law_absolute_value_and_sign(a: Tm, b: Tm, env: spec_fn(nat) -> i32)
    ensures
        ({
            let x = value_of(a, env);
            let y = value_of(b, env);
            &&& value_of(formula::abs_tm(32, a), env) == if x == i32::MIN {
                i32::MIN as int
            } else if x < 0 {
                -x
            } else {
                x as int
            }
            &&& value_of(formula::signum_tm(32, a), env) == if x < 0 {
                -1int
            } else if x == 0 {
                0int
            } else {
                1int
            }
            &&& value_of(formula::select_tm(Op2::BvSge, a, b), env) == if x >= y {
                x
            } else {
                y
            }
            &&& value_of(formula::select_tm(Op2::BvSle, a, b), env) == if x <= y {
                x
            } else {
                y
            }
        }),
{
    reveal_with_fuel(value_of, 4);
    reveal_with_fuel(truth_of, 4);
}

/// The quotient rounded toward negative infinity.
pub open spec fn floor_quotient(x: int, y: int) -> int {
    if y > 0 {
        x / y
    } else {
        (-x) / (-y)
    }
}

/// Dividing the negative of a number.
proof fn lemma_negative_quotient(n: int, d: int)
    requires
        n >= 0,
        d > 0,
    ensures
        (-n) / d == if n % d == 0 {
            -(n / d)
        } else {
            -(n / d) - 1
        },
{
    let q = n / d;
    let r = n % d;
    lemma_fundamental_div_mod(n, d);
    assert(-n == (-q) * d - r) by (nonlinear_arith)
        requires
            n == d * q + r,
    ;
    if r == 0 {
        lemma_fundamental_div_mod_converse(-n, d, -q, 0);
    } else {
        assert((-q - 1) * d + (d - r) == (-q) * d - r) by (nonlinear_arith);
        lemma_fundamental_div_mod_converse(-n, d, -q - 1, d - r);
    }
}

/// `Math.floorDiv` and `Math.floorMod`: the quotient is rounded toward negative
/// infinity, and the remainder goes with it. Only the quotient can be out of range: the
/// least number divided by minus one gives itself.
pub proof fn law_floor_division(a: Tm, b: Tm, env: spec_fn(nat) -> i32)
    requires
        value_of(b, env) != 0,
    ensures
        ({
            let x = value_of(a, env);
            let y = value_of(b, env);
            let q = floor_quotient(x as int, y as int);
            &&& value_of(formula::floor_div_tm(32, a, b), env) == if undefined(BinOp::Div, x, y) {
                i32::MIN as int
            } else {
                q
            }
            &&& value_of(formula::floor_mod_tm(32, a, b), env) == x - y * q
        }),
{
    reveal_with_fuel(value_of, 5);
    reveal_with_fuel(truth_of, 5);
    let x = value_of(a, env);
    let y = value_of(b, env);
    assert((x ^ y) < 0 <==> (x < 0) != (y < 0)) by (bit_vector);
    let n = size(x as int);
    let d = size(y as int);
    let q = n / d;
    lemma_quotient_size(n, d);
    if !undefined(BinOp::Div, x, y) {
        lemma_quotient_fits(x, y);
    }
    lemma_negative_quotient(n, d);
    assert(y * (-q - 1) == -(y * q) - y) by (nonlinear_arith);
    assert(y * (-q) == -(y * q)) by (nonlinear_arith);
    assert((-y) * q == -(y * q)) by (nonlinear_arith);
}

/// The tests of characters are those of the ASCII characters, and a letter has one
/// case or the other.
pub proof fn law_character_tests(a: Tm, b: Tm, env: spec_fn(nat) -> i32)
    ensures
        ({
            let x = value_of(a, env);
            let test = |f: CharFn| value_of(char_encode::char_tm(f, a, b), env) == 1;
            &&& test(CharFn::IsDigit) <==> 0x30 <= x <= 0x39
            &&& test(CharFn::IsUpperCase) <==> 0x41 <= x <= 0x5A
            &&& test(CharFn::IsLowerCase) <==> 0x61 <= x <= 0x7A
            &&& test(CharFn::IsLetter) <==> test(CharFn::IsUpperCase) || test(CharFn::IsLowerCase)
            &&& test(CharFn::IsLetterOrDigit) <==> test(CharFn::IsLetter) || test(CharFn::IsDigit)
            &&& test(CharFn::IsValidCodePoint) <==> 0 <= x <= 0x10FFFF
        }),
{
    reveal_with_fuel(value_of, 6);
    reveal_with_fuel(truth_of, 6);
}

/// Changing the case of a letter gives a letter of that case, and changing it back
/// gives the letter that it was.
pub proof fn law_case_changes(a: Tm, b: Tm, env: spec_fn(nat) -> i32)
    ensures
        ({
            let x = value_of(a, env);
            let upper = char_encode::char_tm(CharFn::ToUpperCase, a, b);
            let lower = char_encode::char_tm(CharFn::ToLowerCase, a, b);
            &&& 0x61 <= x <= 0x7A ==> 0x41 <= value_of(upper, env) <= 0x5A && value_of(
                char_encode::char_tm(CharFn::ToLowerCase, upper, b),
                env,
            ) == x
            &&& 0x41 <= x <= 0x5A ==> 0x61 <= value_of(lower, env) <= 0x7A && value_of(
                char_encode::char_tm(CharFn::ToUpperCase, lower, b),
                env,
            ) == x
            &&& !(0x61 <= x <= 0x7A) ==> value_of(upper, env) == x
            &&& !(0x41 <= x <= 0x5A) ==> value_of(lower, env) == x
        }),
{
    reveal_with_fuel(value_of, 6);
    reveal_with_fuel(truth_of, 6);
}

/// The value of the character for a digit is the digit.
pub proof fn law_digits_are_read_back(v: Tm, radix: Tm, env: spec_fn(nat) -> i32)
    requires
        0 <= value_of(v, env) < value_of(radix, env),
        value_of(radix, env) <= 36,
    ensures
        value_of(
            char_encode::char_tm(
                CharFn::Digit,
                char_encode::char_tm(CharFn::ForDigit, v, radix),
                radix,
            ),
            env,
        ) == value_of(v, env),
{
    reveal_with_fuel(value_of, 6);
    reveal_with_fuel(truth_of, 6);
    let x = value_of(v, env);
    let c = char_encode::char_tm(CharFn::ForDigit, v, radix);
    assert(value_of(c, env) == if x < 10 {
        x + 0x30
    } else {
        x - 10 + 0x61
    });
    assert(value_of(char_encode::digit_value(c), env) == x);
}

} // verus!
