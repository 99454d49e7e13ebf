//! Formulas, evaluated on concrete numbers.

use roast::ir::BinOp;
use roast::smt_bmc::char_encode::{encode_char_wrapper_call, find_char_fn};
use roast::smt_bmc::encode::{build_binop, build_three_way};
use roast::smt_bmc::formula::{
    abs, bit_count, fold_long, floor_div, floor_mod, fp_compare, fp_is_infinite, fp_is_nan, fp_select,
    highest_one_bit, leading_zeros, lowest_one_bit, reverse, rotate, select, signum, swap2, swap8,
    trailing_zeros,
};
use roast::term::{Node, Op1, Op2, Op3, Term, Terms};

/// The bits of a value and how many there are; a truth value has none.
#[derive(Clone, Copy, PartialEq, Debug)]
struct Bits(u64, u32);

fn mask(n: u64, w: u32) -> u64 {
    if w >= 64 {
        n
    } else {
        n & ((1u64 << w) - 1)
    }
}

fn signed(b: Bits) -> i64 {
    if b.1 < 64 && b.0 >> (b.1 - 1) == 1 {
        (b.0 | !((1u64 << b.1) - 1)) as i64
    } else {
        b.0 as i64
    }
}

fn truth(b: bool) -> Bits {
    Bits(b as u64, 0)
}

fn eval(ts: &Terms, t: Term) -> Bits {
    match ts.node(t.0) {
        Node::Bv(n, w) => Bits(mask(*n as u64, *w), *w),
        Node::Bool(b) => truth(*b),
        Node::App1(op, a) => {
            let x = eval(ts, *a);
            match op {
                Op1::Not => truth(x.0 == 0),
                Op1::BvNeg => Bits(mask(x.0.wrapping_neg(), x.1), x.1),
                Op1::ZeroExtend(k) => Bits(x.0, x.1 + k),
                Op1::SignExtend(k) => Bits(mask(signed(x) as u64, x.1 + k), x.1 + k),
                Op1::Extract(hi, lo) => Bits(mask(x.0 >> lo, hi - lo + 1), hi - lo + 1),
                op => panic!("{op:?}"),
            }
        }
        Node::App2(op, a, b) => {
            let (x, y) = (eval(ts, *a), eval(ts, *b));
            let (p, q) = (signed_or_zero(x), signed_or_zero(y));
            let num = |n: u64| Bits(mask(n, x.1), x.1);
            match op {
                Op2::BvAdd => num(x.0.wrapping_add(y.0)),
                Op2::BvSub => num(x.0.wrapping_sub(y.0)),
                Op2::BvMul => num(x.0.wrapping_mul(y.0)),
                Op2::BvSdiv => num(if q == 0 { 0 } else { p.wrapping_div(q) as u64 }),
                Op2::BvSrem => num(if q == 0 { x.0 } else { p.wrapping_rem(q) as u64 }),
                Op2::BvAnd => num(x.0 & y.0),
                Op2::BvOr => num(x.0 | y.0),
                Op2::BvXor => num(x.0 ^ y.0),
                Op2::BvShl => num(if y.0 >= x.1 as u64 { 0 } else { x.0 << y.0 }),
                Op2::BvLshr => num(if y.0 >= x.1 as u64 { 0 } else { x.0 >> y.0 }),
                Op2::BvAshr => num((p >> y.0.min(63)) as u64),
                Op2::BvSlt => truth(p < q),
                Op2::BvSle => truth(p <= q),
                Op2::BvSgt => truth(p > q),
                Op2::BvSge => truth(p >= q),
                Op2::BvUlt => truth(x.0 < y.0),
                Op2::Eq => truth(x == y),
                Op2::And => truth(x.0 == 1 && y.0 == 1),
                Op2::Or => truth(x.0 == 1 || y.0 == 1),
                Op2::Concat => Bits((x.0 << y.1) | y.0, x.1 + y.1),
                op => panic!("{op:?}"),
            }
        }
        Node::App3(Op3::Ite, c, a, b) => {
            if eval(ts, *c).0 == 1 {
                eval(ts, *a)
            } else {
                eval(ts, *b)
            }
        }
        n => panic!("{n:?}"),
    }
}

fn signed_or_zero(b: Bits) -> i64 {
    if b.1 == 0 {
        0
    } else {
        signed(b)
    }
}

/// What a formula of one number gives.
fn of1(w: u32, x: i64, f: impl Fn(&mut Terms, Term) -> Term) -> i64 {
    let mut ts = Terms::new();
    let a = ts.bv_const(x, w);
    let t = f(&mut ts, a);
    signed(eval(&ts, t))
}

/// What a formula of two numbers gives.
fn of2(w: u32, x: i64, y: i64, f: impl Fn(&mut Terms, Term, Term) -> Term) -> i64 {
    let mut ts = Terms::new();
    let a = ts.bv_const(x, w);
    let b = ts.bv_const(y, w);
    let t = f(&mut ts, a, b);
    signed(eval(&ts, t))
}

fn bin(op: BinOp, x: i32, y: i32) -> i64 {
    of2(32, x as i64, y as i64, |ts, a, b| build_binop(ts, op, a, b, 32, 32))
}

#[test]
fn operators_wrap_around() {
    assert_eq!(bin(BinOp::Add, i32::MAX, 1), i32::MIN as i64);
    assert_eq!(bin(BinOp::Mul, 1 << 30, 4), 0);
    assert_eq!(bin(BinOp::Div, -7, 2), -3);
    assert_eq!(bin(BinOp::Rem, -7, 2), -1);
    assert_eq!(bin(BinOp::Shl, 1, 33), 2);
    assert_eq!(bin(BinOp::Shr, -8, 1), -4);
    assert_eq!(bin(BinOp::UShr, -1, 28), 15);
    assert_eq!(bin(BinOp::Lt, -1, 1), 1);
    assert_eq!(bin(BinOp::Ge, -1, 1), 0);
    // A narrow value is extended to meet a wide one.
    let mut ts = Terms::new();
    let a = ts.bv_const(-1, 32);
    let b = ts.bv_const(1 << 40, 64);
    let t = build_binop(&mut ts, BinOp::Add, a, b, 32, 64);
    assert_eq!(signed(eval(&ts, t)), (1 << 40) - 1);
    let t = build_three_way(&mut ts, a, b, 32, 64);
    assert_eq!(signed(eval(&ts, t)), -1);
}

#[test]
fn numbers_have_sizes_and_signs() {
    assert_eq!(of1(32, -5, |ts, a| abs(ts, 32, a)), 5);
    assert_eq!(of1(32, i32::MIN as i64, |ts, a| abs(ts, 32, a)), i32::MIN as i64);
    assert_eq!(of1(64, -5, |ts, a| signum(ts, 64, a)), -1);
    assert_eq!(of1(32, 0, |ts, a| signum(ts, 32, a)), 0);
    assert_eq!(of2(32, 3, -4, |ts, a, b| select(ts, Op2::BvSge, a, b)), 3);
    assert_eq!(of2(32, 3, -4, |ts, a, b| select(ts, Op2::BvSle, a, b)), -4);
}

#[test]
fn floor_division_rounds_down() {
    for (x, y) in [(7, 2), (-7, 2), (7, -2), (-7, -2), (6, -3), (0, 5)] {
        let q = (x as f64 / y as f64).floor() as i64;
        assert_eq!(of2(32, x, y, |ts, a, b| floor_div(ts, 32, a, b)), q);
        assert_eq!(of2(32, x, y, |ts, a, b| floor_mod(ts, 32, a, b)), x - y * q);
    }
    let least = i32::MIN as i64;
    assert_eq!(of2(32, least, -1, |ts, a, b| floor_div(ts, 32, a, b)), least);
    assert_eq!(of2(32, least, -1, |ts, a, b| floor_mod(ts, 32, a, b)), 0);
}

#[test]
fn bits_are_counted_and_moved() {
    for x in [0i32, 1, -1, 0x00f0_0100, i32::MIN, 0x1234_5678] {
        let n = x as i64;
        assert_eq!(of1(32, n, |ts, a| bit_count(ts, 32, a)), x.count_ones() as i64);
        assert_eq!(of1(32, n, |ts, a| reverse(ts, 32, a)), x.reverse_bits() as i64);
        assert_eq!(of1(32, n, |ts, a| trailing_zeros(ts, 32, a)), x.trailing_zeros() as i64);
        assert_eq!(of1(32, n, |ts, a| leading_zeros(ts, 32, a)), x.leading_zeros() as i64);
        assert_eq!(of1(32, n, |ts, a| lowest_one_bit(ts, a)), (x & x.wrapping_neg()) as i64);
        let top = if x == 0 { 0 } else { (1u32 << (31 - x.leading_zeros())) as i32 };
        assert_eq!(of1(32, n, |ts, a| highest_one_bit(ts, 32, a)), top as i64);
        assert_eq!(
            of2(32, n, 7, |ts, a, b| rotate(ts, true, 32, a, b)),
            x.rotate_left(7) as i64
        );
        assert_eq!(
            of2(32, n, 7, |ts, a, b| rotate(ts, false, 32, a, b)),
            x.rotate_right(7) as i64
        );
    }
    let wide = 0x1234_5678_9abc_def0i64;
    assert_eq!(of1(64, wide, |ts, a| bit_count(ts, 64, a)), wide.count_ones() as i64);
    assert_eq!(of1(64, wide, |ts, a| swap8(ts, a)), wide.swap_bytes());
    assert_eq!(of1(32, 0x1234, |ts, a| swap2(ts, a)), 0x3412);
    assert_eq!(
        of1(64, wide, |ts, a| fold_long(ts, a)),
        ((wide ^ ((wide as u64) >> 32) as i64) as i32) as i64
    );
}

#[test]
fn floating_point_is_ordered_by_its_bits() {
    let b = |x: f32| x.to_bits() as i32 as i64;
    let order = |x: f32, y: f32| of2(32, b(x), b(y), |ts, p, q| fp_compare(ts, 32, p, q));
    assert_eq!(order(1.0, 2.0), -1);
    assert_eq!(order(-1.0, -2.0), 1);
    assert_eq!(order(-0.0, 0.0), -1);
    assert_eq!(order(f32::NAN, f32::INFINITY), 1);
    assert_eq!(order(f32::NAN, f32::NAN), 0);
    let holds = |x: f32, f: fn(&mut Terms, u32, Term) -> Term| {
        let mut ts = Terms::new();
        let a = ts.bv_const(b(x), 32);
        let t = f(&mut ts, 32, a);
        eval(&ts, t).0 == 1
    };
    assert!(holds(f32::NAN, fp_is_nan) && !holds(f32::INFINITY, fp_is_nan));
    assert!(holds(f32::NEG_INFINITY, fp_is_infinite) && !holds(1.0, fp_is_infinite));
    assert_eq!(
        of2(32, b(1.5), b(-2.0), |ts, p, q| fp_select(ts, true, 32, p, q)),
        b(1.5)
    );
    assert_eq!(
        of2(32, b(1.5), b(-2.0), |ts, p, q| fp_select(ts, false, 32, p, q)),
        b(-2.0)
    );
}

fn on_char(name: &str, c: char, other: i64) -> i64 {
    let f = find_char_fn(name).unwrap();
    of2(32, c as i64, other, |ts, a, b| encode_char_wrapper_call(ts, f, a, b))
}

#[test]
fn characters_are_classified() {
    for c in ['0', '9', 'a', 'z', 'A', 'Z', ' ', '_', '~', '\n'] {
        assert_eq!(on_char("isDigit", c, 0), c.is_ascii_digit() as i64);
        assert_eq!(on_char("isLetter", c, 0), c.is_ascii_alphabetic() as i64);
        assert_eq!(on_char("isLetterOrDigit", c, 0), c.is_ascii_alphanumeric() as i64);
        assert_eq!(on_char("isUpperCase", c, 0), c.is_ascii_uppercase() as i64);
        assert_eq!(on_char("toUpperCase", c, 0), c.to_ascii_uppercase() as i64);
        assert_eq!(on_char("toLowerCase", c, 0), c.to_ascii_lowercase() as i64);
    }
    assert_eq!(on_char("digit", 'f', 16), 15);
    assert_eq!(on_char("digit", 'g', 16), -1);
    assert_eq!(on_char("forDigit", '\u{b}', 16), 'b' as i64);
    assert!(find_char_fn("getType").is_none());
}
