//! Formulas over strings.
//!
//! Positions and lengths are integers in the theory of strings; the program's
//! values are bit vectors, and the formulas convert between the two.

use vstd::prelude::*;

use super::formula;
use crate::term;
use crate::term::{Op1, Op2, Op3, Term, Terms, Tm};

verus! {

pub open spec fn to_bv(a: Tm) -> Tm {
    term::t1(Op1::IntToBv32, a)
}

pub open spec fn to_num(a: Tm) -> Tm {
    term::t1(Op1::Bv32ToInt, a)
}

pub open spec fn len_tm(s: Tm) -> Tm {
    term::t1(Op1::StrLen, s)
}

/// The length of `s` as a bit vector.
pub open spec fn len_bv(s: Tm) -> Tm {
    to_bv(len_tm(s))
}

/// The string of the one character whose code is the bit vector `c`.
pub open spec fn char_str(c: Tm) -> Tm {
    term::t1(Op1::StrFromCode, to_num(c))
}

pub open spec fn joined(a: Tm, b: Tm) -> Tm {
    term::t2(Op2::StrConcat, a, b)
}

/// `n` characters of `s` from position `i` on.
pub open spec fn part(s: Tm, i: Tm, n: Tm) -> Tm {
    term::t3(Op3::StrSubstr, s, i, n)
}

/// What is left of `s` from the bit-vector position `i` on.
pub open spec fn tail(s: Tm, i: Tm) -> Tm {
    part(s, to_num(i), to_num(formula::minus(len_bv(s), i)))
}

/// The first characters of `s`, up to the bit-vector position `i`.
pub open spec fn head(s: Tm, i: Tm) -> Tm {
    part(s, Tm::Num(0), to_num(i))
}

/// "true" for any value but zero.
pub open spec fn bool_text(v: Tm) -> Tm {
    term::tm_ite(
        term::tm_not(term::tm_eq(v, term::bv32(0))),
        Tm::Text("true"@),
        Tm::Text("false"@),
    )
}

/// A signed value in decimal.
pub open spec fn signed_text(v: Tm, w: u32) -> Tm {
    term::tm_ite(
        formula::slt(v, Tm::Bv(0, w)),
        joined(Tm::Text("-"@), term::t1(Op1::StrFromInt, to_num(formula::neg(v)))),
        term::t1(Op1::StrFromInt, to_num(v)),
    )
}

/// An unsigned value in decimal.
pub open spec fn unsigned_text(v: Tm) -> Tm {
    term::t1(Op1::StrFromInt, to_num(v))
}

/// `s` with the first `k` letters of the alphabet replaced by those of the
/// other case.
pub open spec fn recased(to_lower: bool, s: Tm, k: nat) -> Tm
    decreases k,
{
    if k == 0 {
        s
    } else {
        let upper = Tm::Text(seq![(64 + k) as char]);
        let lower = Tm::Text(seq![(96 + k) as char]);
        term::t3(
            Op3::StrReplaceAll,
            recased(to_lower, s, (k - 1) as nat),
            if to_lower {
                upper
            } else {
                lower
            },
            if to_lower {
                lower
            } else {
                upper
            },
        )
    }
}

/// `s` in lower or upper case, on ASCII.
pub open spec fn cased(to_lower: bool, s: Tm) -> Tm {
    recased(to_lower, s, 26)
}

/// Position of `needle` in `s` at or after `from`.
pub open spec fn index_of(s: Tm, needle: Tm, from: Tm) -> Tm {
    term::t3(Op3::StrIndexOf, s, needle, from)
}

/// The match found after looking on `n` times past `cur`.
pub open spec fn later_match(s: Tm, needle: Tm, cur: Tm, n: nat) -> Tm
    decreases n,
{
    if n == 0 {
        cur
    } else {
        let before = later_match(s, needle, cur, (n - 1) as nat);
        let next = index_of(
            s,
            needle,
            to_num(formula::plus(to_bv(before), term::bv32(1))),
        );
        term::tm_ite(term::tm_not(term::tm_eq(next, Tm::Num(-1))), next, before)
    }
}

/// The last match of `needle` among the first nine, in the part of `s` where
/// a match can begin at or before `max_from`.
pub open spec fn last_index_tm(s: Tm, needle: Tm, max_from: Option<Tm>) -> Tm {
    let area = match max_from {
        Some(m) => part(
            s,
            Tm::Num(0),
            to_num(formula::plus(to_bv(m), to_bv(len_tm(needle)))),
        ),
        None => s,
    };
    to_bv(later_match(area, needle, index_of(area, needle, Tm::Num(0)), 8))
}

/// Where Java answers `false` for offsets or a length out of range.
pub open spec fn region_fits(s: Tm, other: Tm, toff: Tm, ooff: Tm, n: Tm) -> Tm {
    let zero = term::bv32(0);
    term::tm_and(
        term::tm_and(
            term::tm_and(
                term::tm_and(
                    formula::sle(formula::plus(toff, n), len_bv(s)),
                    formula::sle(formula::plus(ooff, n), len_bv(other)),
                ),
                formula::sle(zero, toff),
            ),
            formula::sle(zero, ooff),
        ),
        formula::sle(zero, n),
    )
}

/// The regions of the two strings are equal; `fold` says whether case counts,
/// for the variant that takes it as an argument.
pub open spec fn regions_equal(
    s: Tm,
    other: Tm,
    toff: Tm,
    ooff: Tm,
    n: Tm,
    fold: Option<Tm>,
) -> Tm {
    let a = part(s, to_num(toff), to_num(n));
    let b = part(other, to_num(ooff), to_num(n));
    let exact = term::t2(Op2::StrEq, a, b);
    match fold {
        None => exact,
        Some(f) => term::tm_ite(
            term::tm_not(term::tm_eq(f, term::bv32(0))),
            term::t2(Op2::StrEq, cased(true, a), cased(true, b)),
            exact,
        ),
    }
}

/// Digit `i` of `v` as a string, where a digit has `bits` bits.
pub open spec fn digit_text(v: Tm, w: u32, bits: u32, hexadecimal: bool, i: nat) -> Tm {
    let d = formula::band(
        formula::lshr(v, Tm::Bv(i * bits as int, w)),
        Tm::Bv(radix_mask(bits), w),
    );
    let decimal = formula::plus(d, Tm::Bv(48, w));
    char_str(
        if hexadecimal {
            term::tm_ite(
                formula::ult(d, Tm::Bv(10, w)),
                decimal,
                formula::plus(d, Tm::Bv(87, w)),
            )
        } else {
            decimal
        },
    )
}

/// The value of the largest digit of `bits` bits.
pub open spec fn radix_mask(bits: u32) -> int {
    if bits == 4 {
        15
    } else if bits == 3 {
        7
    } else {
        1
    }
}

/// The lowest `i + 1` digits of `v`.
pub open spec fn low_digits(v: Tm, w: u32, bits: u32, hexadecimal: bool, i: nat) -> Tm
    decreases i,
{
    if i == 0 {
        digit_text(v, w, bits, hexadecimal, 0)
    } else {
        joined(
            digit_text(v, w, bits, hexadecimal, i),
            low_digits(v, w, bits, hexadecimal, (i - 1) as nat),
        )
    }
}

/// How many digits a value of width `w` has.
pub open spec fn digit_count(w: u32, bits: u32) -> nat {
    ((w + bits - 1) / bits as int) as nat
}

/// The constant two to the power `s`, as the solver's signed constant.
pub open spec fn power_const(s: int) -> int {
    ((1u64 << (s as u64)) as i64) as int
}

/// The digits of `v` without leading zeros, if it has more than `i`.
pub open spec fn shortest_from(v: Tm, w: u32, bits: u32, hexadecimal: bool, i: nat) -> Tm
    decreases digit_count(w, bits) - i,
{
    if i + 1 >= digit_count(w, bits) {
        low_digits(v, w, bits, hexadecimal, (digit_count(w, bits) - 1) as nat)
    } else {
        term::tm_ite(
            formula::ult(v, Tm::Bv(power_const((i + 1) * bits), w)),
            low_digits(v, w, bits, hexadecimal, i),
            shortest_from(v, w, bits, hexadecimal, i + 1),
        )
    }
}

/// An unsigned value in the radix of `bits` bits per digit.
pub open spec fn radix_text(v: Tm, w: u32, bits: u32, hexadecimal: bool) -> Tm {
    term::tm_ite(
        term::tm_eq(v, Tm::Bv(0, w)),
        Tm::Text("0"@),
        shortest_from(v, w, bits, hexadecimal, 0),
    )
}

// ---------------------------------------------------------------------------
// Builders
// ---------------------------------------------------------------------------

pub fn make_len_bv(ts: &mut Terms, s: Term) -> (t: Term)
    requires
        old(ts).well_formed(),
        old(ts).has(s),
    ensures
        final(ts).built_from(*old(ts)),
        final(ts).has(t),
        final(ts).tm(t) == len_bv(old(ts).tm(s)),
{
    let n = ts.app1(Op1::StrLen, s);
    ts.app1(Op1::IntToBv32, n)
}

pub fn make_char_str(ts: &mut Terms, c: Term) -> (t: Term)
    requires
        old(ts).well_formed(),
        old(ts).has(c),
    ensures
        final(ts).built_from(*old(ts)),
        final(ts).has(t),
        final(ts).tm(t) == char_str(old(ts).tm(c)),
{
    let n = ts.app1(Op1::Bv32ToInt, c);
    ts.app1(Op1::StrFromCode, n)
}

pub fn make_tail(ts: &mut Terms, s: Term, i: Term) -> (t: Term)
    requires
        old(ts).well_formed(),
        old(ts).has(s),
        old(ts).has(i),
    ensures
        final(ts).built_from(*old(ts)),
        final(ts).has(t),
        final(ts).tm(t) == tail(old(ts).tm(s), old(ts).tm(i)),
{
    let start = ts.app1(Op1::Bv32ToInt, i);
    let total = make_len_bv(ts, s);
    let rest = ts.app2(Op2::BvSub, total, i);
    let n = ts.app1(Op1::Bv32ToInt, rest);
    ts.app3(Op3::StrSubstr, s, start, n)
}

pub fn make_head(ts: &mut Terms, s: Term, i: Term) -> (t: Term)
    requires
        old(ts).well_formed(),
        old(ts).has(s),
        old(ts).has(i),
    ensures
        final(ts).built_from(*old(ts)),
        final(ts).has(t),
        final(ts).tm(t) == head(old(ts).tm(s), old(ts).tm(i)),
{
    let zero = ts.int_number(0);
    let n = ts.app1(Op1::Bv32ToInt, i);
    ts.app3(Op3::StrSubstr, s, zero, n)
}

pub fn make_bool_text(ts: &mut Terms, v: Term) -> (t: Term)
    requires
        old(ts).well_formed(),
        old(ts).has(v),
    ensures
        final(ts).built_from(*old(ts)),
        final(ts).has(t),
        final(ts).tm(t) == bool_text(old(ts).tm(v)),
{
    let zero = ts.bv_const(0, 32);
    let eq = ts.equal(v, zero);
    let nonzero = ts.not(eq);
    let yes = ts.str_const("true");
    let no = ts.str_const("false");
    ts.ite(nonzero, yes, no)
}

pub fn signed_bv_to_str(ts: &mut Terms, v: Term, w: u32) -> (t: Term)
    requires
        old(ts).well_formed(),
        old(ts).has(v),
    ensures
        final(ts).built_from(*old(ts)),
        final(ts).has(t),
        final(ts).tm(t) == signed_text(old(ts).tm(v), w),
{
    let zero = ts.bv_const(0, w);
    let is_neg = ts.app2(Op2::BvSlt, v, zero);
    let negated = ts.app1(Op1::BvNeg, v);
    let magnitude = ts.app1(Op1::Bv32ToInt, negated);
    let value = ts.app1(Op1::Bv32ToInt, v);
    let pos_str = ts.app1(Op1::StrFromInt, value);
    let digits = ts.app1(Op1::StrFromInt, magnitude);
    let minus = ts.str_const("-");
    let neg_str = ts.app2(Op2::StrConcat, minus, digits);
    ts.ite(is_neg, neg_str, pos_str)
}

pub fn unsigned_bv_to_str(ts: &mut Terms, v: Term) -> (t: Term)
    requires
        old(ts).well_formed(),
        old(ts).has(v),
    ensures
        final(ts).built_from(*old(ts)),
        final(ts).has(t),
        final(ts).tm(t) == unsigned_text(old(ts).tm(v)),
{
    let n = ts.app1(Op1::Bv32ToInt, v);
    ts.app1(Op1::StrFromInt, n)
}

fn letter(base: u8, k: u8) -> (s: String)
    requires
        base + k < 128,
    ensures
        s@ == seq![(base + k) as char],
{
    let c: char = (base + k) as char;
    let mut s = String::new();
    s.push(c);
    proof {
        assert(s@ =~= seq![(base + k) as char]);
    }
    s
}

pub fn change_case(ts: &mut Terms, to_lower: bool, s: Term) -> (t: Term)
    requires
        old(ts).well_formed(),
        old(ts).has(s),
    ensures
        final(ts).built_from(*old(ts)),
        final(ts).has(t),
        final(ts).tm(t) == cased(to_lower, old(ts).tm(s)),
{
    let mut result = s;
    let mut k: u8 = 0;
    while k < 26
        invariant
            k <= 26,
            ts.built_from(*old(ts)),
            ts.has(result),
            ts.tm(result) == recased(to_lower, old(ts).tm(s), k as nat),
        decreases 26 - k,
    {
        let upper = letter(65, k);
        let lower = letter(97, k);
        let u = ts.str_const(upper.as_str());
        let l = ts.str_const(lower.as_str());
        result = if to_lower {
            ts.app3(Op3::StrReplaceAll, result, u, l)
        } else {
            ts.app3(Op3::StrReplaceAll, result, l, u)
        };
        k += 1;
    }
    result
}

pub fn encode_last_indexof(ts: &mut Terms, s: Term, needle: Term, max_from: Option<Term>) -> (t: Term)
    requires
        old(ts).well_formed(),
        old(ts).has(s),
        old(ts).has(needle),
        old(ts).has_opt(max_from),
    ensures
        final(ts).built_from(*old(ts)),
        final(ts).has(t),
        final(ts).tm(t) == last_index_tm(
            old(ts).tm(s),
            old(ts).tm(needle),
            old(ts).tm_opt(max_from),
        ),
{
    let area = match max_from {
        Some(m) => {
            let m_bv = ts.app1(Op1::IntToBv32, m);
            let n = ts.app1(Op1::StrLen, needle);
            let n_bv = ts.app1(Op1::IntToBv32, n);
            let bound_bv = ts.app2(Op2::BvAdd, m_bv, n_bv);
            let bound = ts.app1(Op1::Bv32ToInt, bound_bv);
            let zero = ts.int_number(0);
            ts.app3(Op3::StrSubstr, s, zero, bound)
        },
        None => s,
    };
    let start = ts.int_number(0);
    let mut cur = ts.app3(Op3::StrIndexOf, area, needle, start);
    let ghost area_tm = ts.tm(area);
    let ghost first = ts.tm(cur);
    let ghost needle_tm = old(ts).tm(needle);
    let mut k: usize = 0;
    while k < 8
        invariant
            k <= 8,
            ts.built_from(*old(ts)),
            old(ts).has(needle),
            needle_tm == old(ts).tm(needle),
            ts.has(area),
            ts.has(cur),
            ts.tm(area) == area_tm,
            ts.tm(cur) == later_match(area_tm, needle_tm, first, k as nat),
        decreases 8 - k,
    {
        let cur_bv = ts.app1(Op1::IntToBv32, cur);
        let one = ts.bv_const(1, 32);
        let next_bv = ts.app2(Op2::BvAdd, cur_bv, one);
        let from = ts.app1(Op1::Bv32ToInt, next_bv);
        let next = ts.app3(Op3::StrIndexOf, area, needle, from);
        let none = ts.int_number(-1);
        let missing = ts.equal(next, none);
        let found = ts.not(missing);
        cur = ts.ite(found, next, cur);
        k += 1;
    }
    ts.app1(Op1::IntToBv32, cur)
}

pub fn region_bounds(ts: &mut Terms, s: Term, other: Term, toff: Term, ooff: Term, n: Term) -> (t:
    Term)
    requires
        old(ts).well_formed(),
        old(ts).has(s),
        old(ts).has(other),
        old(ts).has(toff),
        old(ts).has(ooff),
        old(ts).has(n),
    ensures
        final(ts).built_from(*old(ts)),
        final(ts).has(t),
        final(ts).tm(t) == region_fits(
            old(ts).tm(s),
            old(ts).tm(other),
            old(ts).tm(toff),
            old(ts).tm(ooff),
            old(ts).tm(n),
        ),
{
    let zero = ts.bv_const(0, 32);
    let s_len = make_len_bv(ts, s);
    let o_len = make_len_bv(ts, other);
    let t_end = ts.app2(Op2::BvAdd, toff, n);
    let t_ok = ts.app2(Op2::BvSle, t_end, s_len);
    let o_end = ts.app2(Op2::BvAdd, ooff, n);
    let o_ok = ts.app2(Op2::BvSle, o_end, o_len);
    let t_pos = ts.app2(Op2::BvSle, zero, toff);
    let o_pos = ts.app2(Op2::BvSle, zero, ooff);
    let n_pos = ts.app2(Op2::BvSle, zero, n);
    let b1 = ts.app2(Op2::And, t_ok, o_ok);
    let b2 = ts.app2(Op2::And, b1, t_pos);
    let b3 = ts.app2(Op2::And, b2, o_pos);
    ts.app2(Op2::And, b3, n_pos)
}

pub fn region_equality(
    ts: &mut Terms,
    s: Term,
    other: Term,
    toff: Term,
    ooff: Term,
    n: Term,
    fold: Option<Term>,
) -> (t: Term)
    requires
        old(ts).well_formed(),
        old(ts).has(s),
        old(ts).has(other),
        old(ts).has(toff),
        old(ts).has(ooff),
        old(ts).has(n),
        old(ts).has_opt(fold),
    ensures
        final(ts).built_from(*old(ts)),
        final(ts).has(t),
        final(ts).tm(t) == regions_equal(
            old(ts).tm(s),
            old(ts).tm(other),
            old(ts).tm(toff),
            old(ts).tm(ooff),
            old(ts).tm(n),
            old(ts).tm_opt(fold),
        ),
{
    let t_num = ts.app1(Op1::Bv32ToInt, toff);
    let o_num = ts.app1(Op1::Bv32ToInt, ooff);
    let n_num = ts.app1(Op1::Bv32ToInt, n);
    let a = ts.app3(Op3::StrSubstr, s, t_num, n_num);
    let b = ts.app3(Op3::StrSubstr, other, o_num, n_num);
    let exact = ts.app2(Op2::StrEq, a, b);
    match fold {
        None => exact,
        Some(f) => {
            let zero = ts.bv_const(0, 32);
            let off = ts.equal(f, zero);
            let on = ts.not(off);
            let la = change_case(ts, true, a);
            let lb = change_case(ts, true, b);
            let folded = ts.app2(Op2::StrEq, la, lb);
            ts.ite(on, folded, exact)
        },
    }
}

fn make_digit_text(ts: &mut Terms, v: Term, w: u32, bits: u32, hexadecimal: bool, i: usize) -> (t:
    Term)
    requires
        old(ts).well_formed(),
        old(ts).has(v),
        bits == 4 || bits == 3 || bits == 1,
        i < 64,
    ensures
        final(ts).built_from(*old(ts)),
        final(ts).has(t),
        final(ts).tm(t) == digit_text(old(ts).tm(v), w, bits, hexadecimal, i as nat),
{
    let digit_mask: i64 = if bits == 4 {
        15
    } else if bits == 3 {
        7
    } else {
        1
    };
    let mask = ts.bv_const(digit_mask, w);
    let amount: i64 = i as i64 * bits as i64;
    let shift = ts.bv_const(amount, w);
    let shifted = ts.app2(Op2::BvLshr, v, shift);
    let d = ts.app2(Op2::BvAnd, shifted, mask);
    let c48 = ts.bv_const(48, w);
    let decimal = ts.app2(Op2::BvAdd, d, c48);
    let code = if hexadecimal {
        let ten = ts.bv_const(10, w);
        let small = ts.app2(Op2::BvUlt, d, ten);
        let c87 = ts.bv_const(87, w);
        let letter_code = ts.app2(Op2::BvAdd, d, c87);
        ts.ite(small, decimal, letter_code)
    } else {
        decimal
    };
    make_char_str(ts, code)
}

/// An unsigned value in hexadecimal (4 bits per digit), octal (3) or binary (1).
pub fn unsigned_bv_to_radix_str(ts: &mut Terms, v: Term, w: u32, bits: u32, hexadecimal: bool) -> (t:
    Term)
    requires
        old(ts).well_formed(),
        old(ts).has(v),
        w == 32 || w == 64,
        bits == 4 || bits == 3 || bits == 1,
    ensures
        final(ts).built_from(*old(ts)),
        final(ts).has(t),
        final(ts).tm(t) == radix_text(old(ts).tm(v), w, bits, hexadecimal),
{
    let ghost v_tm = old(ts).tm(v);
    let n: usize = ((w + bits - 1) / bits) as usize;
    proof {
        if bits == 4 {
            assert(n == (w + 3) / 4);
        } else if bits == 3 {
            assert(n == (w + 2) / 3);
        }
        assert(1 <= n <= 64);
        assert(n * bits <= w + bits - 1) by {
            if bits == 4 {
                assert(n * 4 <= w + 3);
            } else if bits == 3 {
                assert(n * 3 <= w + 2);
            }
        }
    }
    let first = make_digit_text(ts, v, w, bits, hexadecimal, 0);
    let mut cumulative: Vec<Term> = Vec::new();
    cumulative.push(first);
    let mut i: usize = 1;
    while i < n
        invariant
            1 <= i <= n <= 64,
            n == digit_count(w, bits),
            bits == 4 || bits == 3 || bits == 1,
            cumulative@.len() == i,
            ts.built_from(*old(ts)),
            old(ts).has(v),
            v_tm == old(ts).tm(v),
            forall|j: int| 0 <= j < cumulative@.len() ==> ts.has(#[trigger] cumulative@[j]),
            forall|j: int|
                0 <= j < cumulative@.len() ==> ts.tm(#[trigger] cumulative@[j]) == low_digits(
                    v_tm,
                    w,
                    bits,
                    hexadecimal,
                    j as nat,
                ),
        decreases n - i,
    {
        let ghost before = *ts;
        let ghost done = cumulative@;
        let d = make_digit_text(ts, v, w, bits, hexadecimal, i);
        let prev = cumulative[i - 1];
        proof {
            assert(before.has(done[i - 1]));
        }
        let cur = ts.app2(Op2::StrConcat, d, prev);
        cumulative.push(cur);
        proof {
            assert forall|j: int| 0 <= j < cumulative@.len() implies ts.tm(
                #[trigger] cumulative@[j],
            ) == low_digits(v_tm, w, bits, hexadecimal, j as nat) by {
                if j < i {
                    assert(done[j] == cumulative@[j]);
                    assert(before.has(done[j]));
                }
            }
            assert forall|j: int| 0 <= j < cumulative@.len() implies ts.has(
                #[trigger] cumulative@[j],
            ) by {
                if j < i {
                    assert(done[j] == cumulative@[j]);
                    assert(before.has(done[j]));
                }
            }
        }
        i += 1;
    }
    let ghost built = *ts;
    let mut result = cumulative[n - 1];
    let mut i: usize = n - 1;
    while i > 0
        invariant
            i < n <= 64,
            n == digit_count(w, bits),
            w == 32 || w == 64,
            bits == 4 || bits == 3 || bits == 1,
            n * bits <= w + bits - 1,
            cumulative@.len() == n,
            built.built_from(*old(ts)),
            ts.built_from(built),
            old(ts).has(v),
            v_tm == old(ts).tm(v),
            forall|j: int| 0 <= j < cumulative@.len() ==> built.has(#[trigger] cumulative@[j]),
            forall|j: int|
                0 <= j < cumulative@.len() ==> built.tm(#[trigger] cumulative@[j]) == low_digits(
                    v_tm,
                    w,
                    bits,
                    hexadecimal,
                    j as nat,
                ),
            ts.has(result),
            ts.tm(result) == shortest_from(v_tm, w, bits, hexadecimal, i as nat),
        decreases i,
    {
        i -= 1;
        proof {
            assert((i + 1) * bits < 64) by (nonlinear_arith)
                requires
                    i + 1 < n,
                    n * bits <= w + bits - 1,
                    bits >= 1,
                    w <= 64,
                    n <= 64,
            ;
            assert(built.has(cumulative@[i as int]));
            assert(built.has(v));
        }
        let shift: u64 = (i as u64 + 1) * bits as u64;
        let threshold = ts.bv_const((1u64 << shift) as i64, w);
        let below = ts.app2(Op2::BvUlt, v, threshold);
        result = ts.ite(below, cumulative[i], result);
    }
    let zero = ts.bv_const(0, w);
    let zero_str = ts.str_const("0");
    let is_zero = ts.equal(v, zero);
    ts.ite(is_zero, zero_str, result)
}

} // verus!
