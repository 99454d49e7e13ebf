//! That the formulas for the methods of `Math`, `Integer` and `Long` mean what those
//! methods compute, on numbers of 32 and of 64 bits.

use vstd::prelude::*;
use vstd::string::*;

use super::formula;
use super::math_encode;
use super::meaning;
use super::wide;
use crate::concrete::value::Value;
use crate::ir::BinOp;
use crate::term::{Op2, Tm};

verus! {

/// The formula for a call of the method with numbers of the width.
pub open spec fn called(class: Seq<char>, name: Seq<char>, d: Seq<char>, w: u32, a: Tm, b: Tm) -> Tm {
    math_encode::math_tm(math_encode::call_case(class, name, d)->0.f, w, a, b)
}

/// The class is that of the wrapped numbers of the width.
pub open spec fn wraps(class: Seq<char>, w: u32) -> bool {
    w == 32 && class == "java/lang/Integer"@ || w == 64 && class == "java/lang/Long"@
}

/// The class is one of those with the functions.
pub open spec fn maths(class: Seq<char>) -> bool {
    class == "java/lang/Math"@ || class == "java/lang/StrictMath"@
}

/// The least and the largest number of the width.
pub open spec fn in_range(n: int, w: u32) -> bool {
    if w == 64 {
        i64::MIN <= n <= i64::MAX
    } else {
        i32::MIN <= n <= i32::MAX
    }
}

/// The two arguments are numbers of the width.
pub open spec fn given(a: Tm, b: Tm, w: u32, env: spec_fn(nat) -> i64) -> bool {
    &&& w == 32 || w == 64
    &&& wide::has_width(wide::value_of(a, env), w)
    &&& wide::has_width(wide::value_of(b, env), w)
}

/// The number that a formula means.
pub open spec fn means(t: Tm, env: spec_fn(nat) -> i64) -> int {
    wide::value_of(t, env).number() as int
}

/// `min` and `max` are the smaller and the larger of the two numbers, `abs` is the size of
/// a number, and the exact operations are those of the integers where they are in range.
pub proof fn law_functions_compute(class: Seq<char>, d: Seq<char>, w: u32, a: Tm, b: Tm, env: spec_fn(nat) -> i64)
    requires
        maths(class),
        given(a, b, w, env),
    ensures
        ({
            let x = means(a, env);
            let y = means(b, env);
            let r = |name: Seq<char>| means(called(class, name, d, w, a, b), env);
            &&& r("min"@) == if x <= y { x } else { y }
            &&& r("max"@) == if x >= y { x } else { y }
            &&& in_range(-x, w) ==> r("abs"@) == if x < 0 { -x } else { x }
            &&& in_range(x + y, w) ==> r("addExact"@) == x + y
            &&& in_range(x - y, w) ==> r("subtractExact"@) == x - y
            &&& in_range(-x, w) ==> r("negateExact"@) == -x
        }),
{
    lemma_names();
    lemma_classes();
    reveal_with_fuel(wide::value_of, 4);
    reveal_with_fuel(wide::truth_of, 4);
}

/// `floorDiv` is the quotient rounded toward negative infinity, and `floorMod` the
/// remainder that goes with it.
pub proof fn law_floor_functions_compute(class: Seq<char>, d: Seq<char>, a: Tm, b: Tm, env: spec_fn(nat) -> i32)
    requires
        maths(class),
        meaning::value_of(b, env) != 0,
        !meaning::undefined(BinOp::Div, meaning::value_of(a, env), meaning::value_of(b, env)),
    ensures
        ({
            let x = meaning::value_of(a, env) as int;
            let y = meaning::value_of(b, env) as int;
            let q = meaning::value_of(called(class, "floorDiv"@, d, 32, a, b), env) as int;
            let r = meaning::value_of(called(class, "floorMod"@, d, 32, a, b), env) as int;
            &&& q == if y > 0 { x / y } else { (-x) / (-y) }
            &&& r == x - y * q
        }),
{
    lemma_names();
    lemma_classes();
    meaning::law_floor_division(a, b, env);
}

/// What `Integer` and `Long` share: the smaller and the larger of two numbers, their sum
/// where it is in range, the sign, and the comparisons with and without signs.
pub proof fn law_numbers_are_compared(class: Seq<char>, d: Seq<char>, w: u32, a: Tm, b: Tm, env: spec_fn(nat) -> i64)
    requires
        wraps(class, w),
        given(a, b, w, env),
    ensures
        ({
            let x = means(a, env);
            let y = means(b, env);
            let u = wide::unsigned(wide::value_of(a, env));
            let v = wide::unsigned(wide::value_of(b, env));
            let r = |name: Seq<char>| means(called(class, name, d, w, a, b), env);
            &&& r("min"@) == if x <= y { x } else { y }
            &&& r("max"@) == if x >= y { x } else { y }
            &&& in_range(x + y, w) ==> r("sum"@) == x + y
            &&& r("signum"@) < 0 <==> x < 0
            &&& r("signum"@) > 0 <==> x > 0
            &&& r("compare"@) < 0 <==> x < y
            &&& r("compare"@) > 0 <==> x > y
            &&& r("compareTo"@) == r("compare"@)
            &&& r("compareUnsigned"@) < 0 <==> u < v
            &&& r("compareUnsigned"@) > 0 <==> u > v
        }),
{
    lemma_names();
    lemma_classes();
    reveal_with_fuel(wide::value_of, 4);
    reveal_with_fuel(wide::truth_of, 4);
    let (x, y) = (wide::value_of(a, env).number(), wide::value_of(b, env).number());
    assert((x as u64) == (y as u64) <==> x == y) by (bit_vector);
    assert(((x as i32) as u32) == ((y as i32) as u32) <==> (x as i32) == (y as i32)) by (bit_vector);
}

/// `toUnsignedLong` reads the bits of an `int` without its sign, `divideUnsigned` and
/// `remainderUnsigned` divide so, and the hash of an `int` is the number itself.
pub proof fn law_numbers_without_signs(d: Seq<char>, a: Tm, b: Tm, env: spec_fn(nat) -> i64)
    requires
        given(a, b, 32, env),
    ensures
        ({
            let class = "java/lang/Integer"@;
            let x = means(a, env);
            let u = wide::unsigned(wide::value_of(a, env));
            let v = wide::unsigned(wide::value_of(b, env));
            let r = |name: Seq<char>| wide::value_of(called(class, name, d, 32, a, b), env);
            &&& r("toUnsignedLong"@) is I64
            &&& r("toUnsignedLong"@).number() == u
            &&& u == if x < 0 { x + 0x1_0000_0000 } else { x }
            &&& r("hashCode"@).number() == x
            &&& v != 0 ==> wide::unsigned(r("divideUnsigned"@)) == u / v
            &&& v != 0 ==> wide::unsigned(r("remainderUnsigned"@)) == u % v
        }),
{
    lemma_names();
    lemma_classes();
    reveal_with_fuel(wide::value_of, 4);
    reveal_with_fuel(wide::truth_of, 4);
    let x = wide::value_of(a, env)->I32_0;
    let y = wide::value_of(b, env)->I32_0;
    assert(x < 0 ==> (x as u32) == x + 0x1_0000_0000) by (bit_vector);
    assert(x >= 0 ==> (x as u32) == x) by (bit_vector);
    assert((y as u32) == 0 <==> y == 0) by (bit_vector);
    if y != 0 {
        let q = (x as u32) / (y as u32);
        let m = (x as u32) % (y as u32);
        assert(((q as i32) as u32) == q) by (bit_vector);
        assert(((m as i32) as u32) == m) by (bit_vector);
    }
}

/// `lowestOneBit` is a power of two that is a bit of the number, and no lower bit of the
/// number is set; it is zero for zero.
pub proof fn law_lowest_bit(d: Seq<char>, a: Tm, b: Tm, env: spec_fn(nat) -> i64)
    requires
        given(a, b, 32, env),
    ensures
        ({
            let x = wide::value_of(a, env)->I32_0;
            let v = wide::value_of(called("java/lang/Integer"@, "lowestOneBit"@, d, 32, a, b), env);
            let r = v->I32_0;
            let below = r.wrapping_sub(1);
            &&& v is I32
            &&& r == 0 <==> x == 0
            &&& r & below == 0
            &&& x & r == r
            &&& x != 0 ==> x & below == 0
        }),
{
    lemma_names();
    lemma_classes();
    reveal_with_fuel(wide::value_of, 4);
    let x = wide::value_of(a, env)->I32_0;
    let n: i32 = 0i32.wrapping_sub(x);
    let u = x as u32;
    let r = x & n;
    let below = r.wrapping_sub(1);
    assert(n == (if x == i32::MIN { i32::MIN as int } else { -x }));
    if x == i32::MIN {
        assert(i32::MIN & i32::MIN == i32::MIN) by (bit_vector);
        assert(i32::MIN & i32::MAX == 0i32) by (bit_vector);
    } else {
        assert(x & n == 0i32 <==> x == 0i32) by (bit_vector)
            requires
                n == 0 - x,
        ;
        assert(x & (x & n) == x & n) by (bit_vector);
        assert(x > i32::MIN && n == 0 - x ==> x & n != i32::MIN) by (bit_vector);
        let low = (r - 1) as i32;
        assert(below == low);
        assert(r & low == 0) by (bit_vector)
            requires
                n == 0 - x,
                r == x & n,
                low == r - 1,
        ;
        if x != 0 {
            assert(x & low == 0) by (bit_vector)
                requires
                    n == 0 - x,
                    r == x & n,
                    low == r - 1,
                    x != 0,
            ;
        }
    }
}

/// The formulas of rotations, unfolded.
proof fn lemma_rotated(a: Tm, b: Tm, env: spec_fn(nat) -> i64)
    requires
        given(a, b, 32, env),
    ensures
        ({
            let x = wide::value_of(a, env)->I32_0;
            let y = wide::value_of(b, env)->I32_0;
            let t = y & 31;
            let rest = 32i32.wrapping_sub(t);
            &&& wide::value_of(formula::rotate_tm(true, 32, a, b), env) == Value::I32(
                meaning::bits_op(Op2::BvShl, x, t) | meaning::bits_op(Op2::BvLshr, x, rest),
            )
            &&& wide::value_of(formula::rotate_tm(false, 32, a, b), env) == Value::I32(
                meaning::bits_op(Op2::BvLshr, x, t) | meaning::bits_op(Op2::BvShl, x, rest),
            )
        }),
{
    let mask = Tm::Bv(31, 32);
    let full = Tm::Bv(32, 32);
    let dist = formula::band(b, mask);
    let rest = formula::minus(full, dist);
    reveal_with_fuel(wide::value_of, 2);
    let y = wide::value_of(b, env)->I32_0;
    assert(wide::value_of(mask, env) == Value::I32(31));
    assert(wide::value_of(full, env) == Value::I32(32));
    assert(wide::value_of(dist, env) == Value::I32(y & 31));
    assert(wide::value_of(rest, env) == Value::I32(32i32.wrapping_sub(y & 31)));
    let (l1, l2) = (formula::shl(a, dist), formula::lshr(a, rest));
    let (r1, r2) = (formula::lshr(a, dist), formula::shl(a, rest));
    let x = wide::value_of(a, env)->I32_0;
    let t = y & 31;
    let k = 32i32.wrapping_sub(t);
    assert(wide::value_of(l1, env) == Value::I32(meaning::bits_op(Op2::BvShl, x, t)));
    assert(wide::value_of(l2, env) == Value::I32(meaning::bits_op(Op2::BvLshr, x, k)));
    assert(wide::value_of(r1, env) == Value::I32(meaning::bits_op(Op2::BvLshr, x, t)));
    assert(wide::value_of(r2, env) == Value::I32(meaning::bits_op(Op2::BvShl, x, k)));
    assert(formula::rotate_tm(true, 32, a, b) == formula::bor(l1, l2));
    assert(formula::rotate_tm(false, 32, a, b) == formula::bor(r1, r2));
}

/// `rotateLeft` moves every bit up by the distance, the ones that leave at the top coming
/// in again at the bottom; `rotateRight` moves them down.
pub proof fn law_bits_are_rotated(d: Seq<char>, a: Tm, b: Tm, env: spec_fn(nat) -> i64, k: u32)
    requires
        given(a, b, 32, env),
        k < 32,
    ensures
        ({
            let x = wide::value_of(a, env)->I32_0;
            let t = (wide::value_of(b, env)->I32_0 & 31) as u32;
            let l = wide::value_of(called("java/lang/Integer"@, "rotateLeft"@, d, 32, a, b), env);
            let r = wide::value_of(called("java/lang/Integer"@, "rotateRight"@, d, 32, a, b), env);
            let up: u32 = if k + t < 32 {
                (k + t) as u32
            } else {
                (k + t - 32) as u32
            };
            &&& l is I32 && r is I32
            &&& ((l->I32_0 as u32) >> up) & 1u32 == ((x as u32) >> k) & 1u32
            &&& ((r->I32_0 as u32) >> k) & 1u32 == ((x as u32) >> up) & 1u32
        }),
{
    lemma_names();
    lemma_classes();
    lemma_rotated(a, b, env);
    let x = wide::value_of(a, env)->I32_0;
    let y = wide::value_of(b, env)->I32_0;
    lemma_rotation(x, y, k);
}

proof fn lemma_rotation(x: i32, y: i32, k: u32)
    requires
        k < 32,
    ensures
        ({
            let t = y & 31;
            let rest = 32i32.wrapping_sub(t);
            let l = meaning::bits_op(Op2::BvShl, x, t) | meaning::bits_op(Op2::BvLshr, x, rest);
            let r = meaning::bits_op(Op2::BvLshr, x, t) | meaning::bits_op(Op2::BvShl, x, rest);
            let up: u32 = if k + t < 32 {
                (k + t) as u32
            } else {
                (k + t - 32) as u32
            };
            &&& 0 <= t <= 31
            &&& ((l as u32) >> up) & 1u32 == ((x as u32) >> k) & 1u32
            &&& ((r as u32) >> k) & 1u32 == ((x as u32) >> up) & 1u32
        }),
{
    let t = y & 31;
    assert(0 <= t <= 31) by (bit_vector)
        requires
            t == y & 31,
    ;
    let s = t as u32;
    let rest = (32 - t) as u32;
    let up: u32 = if k + t < 32 {
        (k + t) as u32
    } else {
        (k + t - 32) as u32
    };
    if t == 0 {
        assert(x << 0u32 == x) by (bit_vector);
        assert(((x as u32) >> 0u32) as i32 == x) by (bit_vector);
        assert(x | 0i32 == x) by (bit_vector);
    } else {
        let l = (x << s) | (((x as u32) >> rest) as i32);
        let r = (((x as u32) >> s) as i32) | (x << rest);
        assert(((l as u32) >> up) & 1u32 == ((x as u32) >> k) & 1u32) by (bit_vector)
            requires
                l == (x << s) | (((x as u32) >> rest) as i32),
                0 < s < 32,
                rest == 32 - s,
                k < 32,
                up == if k + s < 32 { k + s } else { k + s - 32 },
        ;
        assert(((r as u32) >> k) & 1u32 == ((x as u32) >> up) & 1u32) by (bit_vector)
            requires
                r == (((x as u32) >> s) as i32) | (x << rest),
                0 < s < 32,
                rest == 32 - s,
                k < 32,
                up == if k + s < 32 { k + s } else { k + s - 32 },
        ;
    }
}

/// The names of the methods are all different.
proof fn lemma_names()
    ensures
        "abs"@.len() == 3,
        "min"@.len() == 3,
        "max"@.len() == 3,
        "addExact"@.len() == 8,
        "subtractExact"@.len() == 13,
        "multiplyExact"@.len() == 13,
        "negateExact"@.len() == 11,
        "floorDiv"@.len() == 8,
        "floorMod"@.len() == 8,
        "sum"@.len() == 3,
        "signum"@.len() == 6,
        "divideUnsigned"@.len() == 14,
        "remainderUnsigned"@.len() == 17,
        "compareUnsigned"@.len() == 15,
        "compare"@.len() == 7,
        "bitCount"@.len() == 8,
        "numberOfTrailingZeros"@.len() == 21,
        "numberOfLeadingZeros"@.len() == 20,
        "reverse"@.len() == 7,
        "highestOneBit"@.len() == 13,
        "lowestOneBit"@.len() == 12,
        "rotateLeft"@.len() == 10,
        "rotateRight"@.len() == 11,
        "parseInt"@.len() == 8,
        "parseLong"@.len() == 9,
        "toUnsignedLong"@.len() == 14,
        "compareTo"@.len() == 9,
        "hashCode"@.len() == 8,
        "reverseBytes"@.len() == 12,
        "abs"@ != "min"@,
        "abs"@ != "max"@,
        "abs"@ != "sum"@,
        "min"@ != "max"@,
        "min"@ != "sum"@,
        "max"@ != "sum"@,
        "compare"@ != "reverse"@,
        "addExact"@ != "floorDiv"@,
        "addExact"@ != "floorMod"@,
        "addExact"@ != "bitCount"@,
        "addExact"@ != "parseInt"@,
        "addExact"@ != "hashCode"@,
        "floorDiv"@ != "floorMod"@,
        "floorDiv"@ != "bitCount"@,
        "floorDiv"@ != "parseInt"@,
        "floorDiv"@ != "hashCode"@,
        "floorMod"@ != "bitCount"@,
        "floorMod"@ != "parseInt"@,
        "floorMod"@ != "hashCode"@,
        "bitCount"@ != "parseInt"@,
        "bitCount"@ != "hashCode"@,
        "parseInt"@ != "hashCode"@,
        "parseLong"@ != "compareTo"@,
        "negateExact"@ != "rotateRight"@,
        "lowestOneBit"@ != "reverseBytes"@,
        "subtractExact"@ != "multiplyExact"@,
        "subtractExact"@ != "highestOneBit"@,
        "multiplyExact"@ != "highestOneBit"@,
        "divideUnsigned"@ != "toUnsignedLong"@,
{
    reveal_strlit("abs");
    reveal_strlit("min");
    reveal_strlit("max");
    reveal_strlit("addExact");
    reveal_strlit("subtractExact");
    reveal_strlit("multiplyExact");
    reveal_strlit("negateExact");
    reveal_strlit("floorDiv");
    reveal_strlit("floorMod");
    reveal_strlit("sum");
    reveal_strlit("signum");
    reveal_strlit("divideUnsigned");
    reveal_strlit("remainderUnsigned");
    reveal_strlit("compareUnsigned");
    reveal_strlit("compare");
    reveal_strlit("bitCount");
    reveal_strlit("numberOfTrailingZeros");
    reveal_strlit("numberOfLeadingZeros");
    reveal_strlit("reverse");
    reveal_strlit("highestOneBit");
    reveal_strlit("lowestOneBit");
    reveal_strlit("rotateLeft");
    reveal_strlit("rotateRight");
    reveal_strlit("parseInt");
    reveal_strlit("parseLong");
    reveal_strlit("toUnsignedLong");
    reveal_strlit("compareTo");
    reveal_strlit("hashCode");
    reveal_strlit("reverseBytes");
    assert("abs"@[0] != "min"@[0]);
    assert("abs"@[0] != "max"@[0]);
    assert("abs"@[0] != "sum"@[0]);
    assert("min"@[1] != "max"@[1]);
    assert("min"@[0] != "sum"@[0]);
    assert("max"@[0] != "sum"@[0]);
    assert("compare"@[0] != "reverse"@[0]);
    assert("addExact"@[0] != "floorDiv"@[0]);
    assert("addExact"@[0] != "floorMod"@[0]);
    assert("addExact"@[0] != "bitCount"@[0]);
    assert("addExact"@[0] != "parseInt"@[0]);
    assert("addExact"@[0] != "hashCode"@[0]);
    assert("floorDiv"@[5] != "floorMod"@[5]);
    assert("floorDiv"@[0] != "bitCount"@[0]);
    assert("floorDiv"@[0] != "parseInt"@[0]);
    assert("floorDiv"@[0] != "hashCode"@[0]);
    assert("floorMod"@[0] != "bitCount"@[0]);
    assert("floorMod"@[0] != "parseInt"@[0]);
    assert("floorMod"@[0] != "hashCode"@[0]);
    assert("bitCount"@[0] != "parseInt"@[0]);
    assert("bitCount"@[0] != "hashCode"@[0]);
    assert("parseInt"@[0] != "hashCode"@[0]);
    assert("parseLong"@[0] != "compareTo"@[0]);
    assert("negateExact"@[0] != "rotateRight"@[0]);
    assert("lowestOneBit"@[0] != "reverseBytes"@[0]);
    assert("subtractExact"@[0] != "multiplyExact"@[0]);
    assert("subtractExact"@[0] != "highestOneBit"@[0]);
    assert("multiplyExact"@[0] != "highestOneBit"@[0]);
    assert("divideUnsigned"@[0] != "toUnsignedLong"@[0]);
}

/// The classes are all different.
proof fn lemma_classes()
    ensures
        "java/lang/Math"@.len() == 14,
        "java/lang/StrictMath"@.len() == 20,
        "java/lang/Integer"@.len() == 17,
        "java/lang/Long"@.len() == 14,
        "java/lang/Math"@ != "java/lang/Long"@,
{
    reveal_strlit("java/lang/Math");
    reveal_strlit("java/lang/StrictMath");
    reveal_strlit("java/lang/Integer");
    reveal_strlit("java/lang/Long");
    assert("java/lang/Math"@[10] != "java/lang/Long"@[10]);
}

} // verus!
