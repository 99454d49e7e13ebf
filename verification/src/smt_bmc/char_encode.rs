//! Formulas for the classification methods of `java.lang.Character`, exact on
//! ASCII.

use vstd::prelude::*;

use super::formula;
use super::formula::{equals_code, flag, in_range};
use crate::term;
use crate::term::{Op2, Term, Terms, Tm};
use crate::text::same;

verus! {

/// The modelled methods of `java.lang.Character`; those that agree on every
/// input share a name.
#[derive(Clone, Copy, Debug, PartialEq, Eq, Structural)]
pub enum CharFn {
    IsDigit,
    IsLetter,
    IsLetterOrDigit,
    IsUpperCase,
    IsLowerCase,
    IsWhitespace,
    IsSpaceChar,
    IsBmpCodePoint,
    IsValidCodePoint,
    IsSupplementaryCodePoint,
    IsIsoControl,
    IsIdentifierStart,
    IsIdentifierPart,
    ToUpperCase,
    ToLowerCase,
    CharCount,
    ToCodePoint,
    Digit,
    ForDigit,
}

/// The method of `java.lang.Character` with the given name.
pub open spec fn char_fn(name: Seq<char>) -> Option<CharFn> {
    if name == "isDigit"@ {
        Some(CharFn::IsDigit)
    } else if name == "isLetter"@ || name == "isAlphabetic"@ {
        Some(CharFn::IsLetter)
    } else if name == "isLetterOrDigit"@ {
        Some(CharFn::IsLetterOrDigit)
    } else if name == "isUpperCase"@ {
        Some(CharFn::IsUpperCase)
    } else if name == "isLowerCase"@ {
        Some(CharFn::IsLowerCase)
    } else if name == "isWhitespace"@ {
        Some(CharFn::IsWhitespace)
    } else if name == "isSpaceChar"@ {
        Some(CharFn::IsSpaceChar)
    } else if name == "isBmpCodePoint"@ {
        Some(CharFn::IsBmpCodePoint)
    } else if name == "isValidCodePoint"@ {
        Some(CharFn::IsValidCodePoint)
    } else if name == "isSupplementaryCodePoint"@ {
        Some(CharFn::IsSupplementaryCodePoint)
    } else if name == "isISOControl"@ {
        Some(CharFn::IsIsoControl)
    } else if name == "isJavaLetter"@ || name == "isJavaIdentifierStart"@ {
        Some(CharFn::IsIdentifierStart)
    } else if name == "isJavaLetterOrDigit"@ || name == "isJavaIdentifierPart"@ {
        Some(CharFn::IsIdentifierPart)
    } else if name == "toUpperCase"@ {
        Some(CharFn::ToUpperCase)
    } else if name == "toLowerCase"@ {
        Some(CharFn::ToLowerCase)
    } else if name == "charCount"@ {
        Some(CharFn::CharCount)
    } else if name == "toCodePoint"@ {
        Some(CharFn::ToCodePoint)
    } else if name == "digit"@ {
        Some(CharFn::Digit)
    } else if name == "forDigit"@ {
        Some(CharFn::ForDigit)
    } else {
        None
    }
}

/// The method of `java.lang.Character` with the given name.
pub fn find_char_fn(name: &str) -> (r: Option<CharFn>)
    ensures
        r == char_fn(name@),
{
    if same(name, "isDigit") {
        Some(CharFn::IsDigit)
    } else if same(name, "isLetter") || same(name, "isAlphabetic") {
        Some(CharFn::IsLetter)
    } else if same(name, "isLetterOrDigit") {
        Some(CharFn::IsLetterOrDigit)
    } else if same(name, "isUpperCase") {
        Some(CharFn::IsUpperCase)
    } else if same(name, "isLowerCase") {
        Some(CharFn::IsLowerCase)
    } else if same(name, "isWhitespace") {
        Some(CharFn::IsWhitespace)
    } else if same(name, "isSpaceChar") {
        Some(CharFn::IsSpaceChar)
    } else if same(name, "isBmpCodePoint") {
        Some(CharFn::IsBmpCodePoint)
    } else if same(name, "isValidCodePoint") {
        Some(CharFn::IsValidCodePoint)
    } else if same(name, "isSupplementaryCodePoint") {
        Some(CharFn::IsSupplementaryCodePoint)
    } else if same(name, "isISOControl") {
        Some(CharFn::IsIsoControl)
    } else if same(name, "isJavaLetter") || same(name, "isJavaIdentifierStart") {
        Some(CharFn::IsIdentifierStart)
    } else if same(name, "isJavaLetterOrDigit") || same(name, "isJavaIdentifierPart") {
        Some(CharFn::IsIdentifierPart)
    } else if same(name, "toUpperCase") {
        Some(CharFn::ToUpperCase)
    } else if same(name, "toLowerCase") {
        Some(CharFn::ToLowerCase)
    } else if same(name, "charCount") {
        Some(CharFn::CharCount)
    } else if same(name, "toCodePoint") {
        Some(CharFn::ToCodePoint)
    } else if same(name, "digit") {
        Some(CharFn::Digit)
    } else if same(name, "forDigit") {
        Some(CharFn::ForDigit)
    } else {
        None
    }
}

/// Does the method take two arguments?
pub open spec fn char_binary(f: CharFn) -> bool {
    f == CharFn::ToCodePoint || f == CharFn::Digit || f == CharFn::ForDigit
}

/// 1 for an ASCII letter, else 0.
pub open spec fn alpha_tm(c: Tm) -> Tm {
    formula::flag_tm(term::tm_or(formula::within(c, 0x41, 0x5A), formula::within(c, 0x61, 0x7A)))
}

/// The character is an ASCII letter.
pub open spec fn is_alpha(c: Tm) -> Tm {
    term::tm_eq(alpha_tm(c), term::bv32(1))
}

/// The value of a digit or letter, without regard to the radix; -1 for any
/// other character.
pub open spec fn digit_value(c: Tm) -> Tm {
    let number = term::tm_ite(
        formula::within(c, 0x30, 0x39),
        formula::minus(c, term::bv32(0x30)),
        term::bv32(-1),
    );
    let lower = term::tm_ite(
        formula::within(c, 0x61, 0x7A),
        formula::plus(formula::minus(c, term::bv32(0x61)), term::bv32(10)),
        number,
    );
    term::tm_ite(
        formula::within(c, 0x41, 0x5A),
        formula::plus(formula::minus(c, term::bv32(0x41)), term::bv32(10)),
        lower,
    )
}

/// `v` where it is a digit of the radix, else `otherwise`.
pub open spec fn if_in_radix(v: Tm, radix: Tm, then_: Tm, otherwise: Tm) -> Tm {
    term::tm_ite(
        term::tm_and(formula::slt(v, radix), formula::sge(v, term::bv32(0))),
        then_,
        otherwise,
    )
}

/// The formula of a method applied to `a`, and to `b` where it takes two
/// arguments.
pub open spec fn char_tm(f: CharFn, a: Tm, b: Tm) -> Tm {
    match f {
        CharFn::IsDigit => formula::flag_tm(formula::within(a, 0x30, 0x39)),
        CharFn::IsLetter => alpha_tm(a),
        CharFn::IsLetterOrDigit => formula::flag_tm(
            term::tm_or(formula::within(a, 0x30, 0x39), is_alpha(a)),
        ),
        CharFn::IsUpperCase => formula::flag_tm(formula::within(a, 0x41, 0x5A)),
        CharFn::IsLowerCase => formula::flag_tm(formula::within(a, 0x61, 0x7A)),
        CharFn::IsWhitespace => formula::flag_tm(
            term::tm_or(
                formula::is_code(a, 0x20),
                term::tm_or(
                    formula::is_code(a, 0x09),
                    term::tm_or(
                        formula::is_code(a, 0x0A),
                        term::tm_or(formula::is_code(a, 0x0D), formula::is_code(a, 0x0C)),
                    ),
                ),
            ),
        ),
        CharFn::IsSpaceChar => formula::flag_tm(formula::is_code(a, 0x20)),
        CharFn::IsBmpCodePoint => formula::flag_tm(formula::within(a, 0, 0xFFFF)),
        CharFn::IsValidCodePoint => formula::flag_tm(formula::within(a, 0, 0x10FFFF)),
        CharFn::IsSupplementaryCodePoint => formula::flag_tm(
            formula::within(a, 0x10000, 0x10FFFF),
        ),
        CharFn::IsIsoControl => formula::flag_tm(
            term::tm_or(formula::within(a, 0, 0x1F), formula::within(a, 0x7F, 0x9F)),
        ),
        CharFn::IsIdentifierStart => formula::flag_tm(
            term::tm_or(
                term::tm_or(is_alpha(a), formula::is_code(a, 0x24)),
                formula::is_code(a, 0x5F),
            ),
        ),
        CharFn::IsIdentifierPart => formula::flag_tm(
            term::tm_or(
                term::tm_or(
                    term::tm_or(is_alpha(a), formula::within(a, 0x30, 0x39)),
                    formula::is_code(a, 0x24),
                ),
                formula::is_code(a, 0x5F),
            ),
        ),
        CharFn::ToUpperCase => term::tm_ite(
            formula::within(a, 0x61, 0x7A),
            formula::minus(a, term::bv32(0x20)),
            a,
        ),
        CharFn::ToLowerCase => term::tm_ite(
            formula::within(a, 0x41, 0x5A),
            formula::plus(a, term::bv32(0x20)),
            a,
        ),
        CharFn::CharCount => term::tm_ite(
            formula::sge(a, term::bv32(0x10000)),
            term::bv32(2),
            term::bv32(1),
        ),
        CharFn::ToCodePoint => formula::plus(
            formula::plus(
                formula::times(formula::minus(a, term::bv32(0xD800)), term::bv32(0x400)),
                formula::minus(b, term::bv32(0xDC00)),
            ),
            term::bv32(0x10000),
        ),
        CharFn::Digit => if_in_radix(digit_value(a), b, digit_value(a), term::bv32(-1)),
        CharFn::ForDigit => if_in_radix(
            a,
            b,
            term::tm_ite(
                formula::slt(a, term::bv32(10)),
                formula::plus(a, term::bv32(0x30)),
                formula::plus(formula::minus(a, term::bv32(10)), term::bv32(0x61)),
            ),
            term::bv32(0),
        ),
    }
}

fn alpha_flag(ts: &mut Terms, c: Term) -> (t: Term)
    requires
        old(ts).well_formed(),
        old(ts).has(c),
    ensures
        final(ts).built_from(*old(ts)),
        final(ts).has(t),
        final(ts).tm(t) == alpha_tm(old(ts).tm(c)),
{
    let upper = in_range(ts, c, 0x41, 0x5A);
    let lower = in_range(ts, c, 0x61, 0x7A);
    let either = ts.app2(Op2::Or, upper, lower);
    flag(ts, either)
}

fn alpha_test(ts: &mut Terms, c: Term) -> (t: Term)
    requires
        old(ts).well_formed(),
        old(ts).has(c),
    ensures
        final(ts).built_from(*old(ts)),
        final(ts).has(t),
        final(ts).tm(t) == is_alpha(old(ts).tm(c)),
{
    let f = alpha_flag(ts, c);
    let one = ts.bv_const(1, 32);
    ts.equal(f, one)
}

fn radix_guard(ts: &mut Terms, v: Term, radix: Term, then_: Term, otherwise: Term) -> (t: Term)
    requires
        old(ts).well_formed(),
        old(ts).has(v),
        old(ts).has(radix),
        old(ts).has(then_),
        old(ts).has(otherwise),
    ensures
        final(ts).built_from(*old(ts)),
        final(ts).has(t),
        final(ts).tm(t) == if_in_radix(
            old(ts).tm(v),
            old(ts).tm(radix),
            old(ts).tm(then_),
            old(ts).tm(otherwise),
        ),
{
    let below = ts.app2(Op2::BvSlt, v, radix);
    let zero = ts.bv_const(0, 32);
    let valid = ts.app2(Op2::BvSge, v, zero);
    let ok = ts.app2(Op2::And, below, valid);
    ts.ite(ok, then_, otherwise)
}

fn letter_value(ts: &mut Terms, c: Term, lo: i64, hi: i64, rest: Term) -> (t: Term)
    requires
        old(ts).well_formed(),
        old(ts).has(c),
        old(ts).has(rest),
    ensures
        final(ts).built_from(*old(ts)),
        final(ts).has(t),
        final(ts).tm(t) == term::tm_ite(
            formula::within(old(ts).tm(c), lo as int, hi as int),
            formula::plus(
                formula::minus(old(ts).tm(c), term::bv32(lo as int)),
                term::bv32(10),
            ),
            old(ts).tm(rest),
        ),
{
    let first = ts.bv_const(lo, 32);
    let d = ts.app2(Op2::BvSub, c, first);
    let ten = ts.bv_const(10, 32);
    let v = ts.app2(Op2::BvAdd, d, ten);
    let inside = in_range(ts, c, lo, hi);
    ts.ite(inside, v, rest)
}

fn digit_of(ts: &mut Terms, c: Term) -> (t: Term)
    requires
        old(ts).well_formed(),
        old(ts).has(c),
    ensures
        final(ts).built_from(*old(ts)),
        final(ts).has(t),
        final(ts).tm(t) == digit_value(old(ts).tm(c)),
{
    let zero = ts.bv_const(0x30, 32);
    let d = ts.app2(Op2::BvSub, c, zero);
    let is_num = in_range(ts, c, 0x30, 0x39);
    let none = ts.bv_const(-1, 32);
    let number = ts.ite(is_num, d, none);
    let lower = letter_value(ts, c, 0x61, 0x7A, number);
    letter_value(ts, c, 0x41, 0x5A, lower)
}

/// Build the formula of a method of `java.lang.Character`.
pub fn encode_char_wrapper_call(ts: &mut Terms, f: CharFn, a: Term, b: Term) -> (t: Term)
    requires
        old(ts).well_formed(),
        old(ts).has(a),
        old(ts).has(b),
    ensures
        final(ts).built_from(*old(ts)),
        final(ts).has(t),
        final(ts).tm(t) == char_tm(f, old(ts).tm(a), old(ts).tm(b)),
{
    match f {
        CharFn::IsDigit => {
            let c = in_range(ts, a, 0x30, 0x39);
            flag(ts, c)
        },
        CharFn::IsLetter => alpha_flag(ts, a),
        CharFn::IsLetterOrDigit => {
            let digit = in_range(ts, a, 0x30, 0x39);
            let alpha = alpha_test(ts, a);
            let c = ts.app2(Op2::Or, digit, alpha);
            flag(ts, c)
        },
        CharFn::IsUpperCase => {
            let c = in_range(ts, a, 0x41, 0x5A);
            flag(ts, c)
        },
        CharFn::IsLowerCase => {
            let c = in_range(ts, a, 0x61, 0x7A);
            flag(ts, c)
        },
        CharFn::IsWhitespace => {
            let space = equals_code(ts, a, 0x20);
            let tab = equals_code(ts, a, 0x09);
            let line = equals_code(ts, a, 0x0A);
            let ret = equals_code(ts, a, 0x0D);
            let page = equals_code(ts, a, 0x0C);
            let r1 = ts.app2(Op2::Or, ret, page);
            let r2 = ts.app2(Op2::Or, line, r1);
            let r3 = ts.app2(Op2::Or, tab, r2);
            let c = ts.app2(Op2::Or, space, r3);
            flag(ts, c)
        },
        CharFn::IsSpaceChar => {
            let c = equals_code(ts, a, 0x20);
            flag(ts, c)
        },
        CharFn::IsBmpCodePoint => {
            let c = in_range(ts, a, 0, 0xFFFF);
            flag(ts, c)
        },
        CharFn::IsValidCodePoint => {
            let c = in_range(ts, a, 0, 0x10FFFF);
            flag(ts, c)
        },
        CharFn::IsSupplementaryCodePoint => {
            let c = in_range(ts, a, 0x10000, 0x10FFFF);
            flag(ts, c)
        },
        CharFn::IsIsoControl => {
            let low = in_range(ts, a, 0, 0x1F);
            let high = in_range(ts, a, 0x7F, 0x9F);
            let c = ts.app2(Op2::Or, low, high);
            flag(ts, c)
        },
        CharFn::IsIdentifierStart => {
            let alpha = alpha_test(ts, a);
            let dollar = equals_code(ts, a, 0x24);
            let under = equals_code(ts, a, 0x5F);
            let r = ts.app2(Op2::Or, alpha, dollar);
            let c = ts.app2(Op2::Or, r, under);
            flag(ts, c)
        },
        CharFn::IsIdentifierPart => {
            let alpha = alpha_test(ts, a);
            let digit = in_range(ts, a, 0x30, 0x39);
            let dollar = equals_code(ts, a, 0x24);
            let under = equals_code(ts, a, 0x5F);
            let r1 = ts.app2(Op2::Or, alpha, digit);
            let r2 = ts.app2(Op2::Or, r1, dollar);
            let c = ts.app2(Op2::Or, r2, under);
            flag(ts, c)
        },
        CharFn::ToUpperCase => {
            let lower = in_range(ts, a, 0x61, 0x7A);
            let delta = ts.bv_const(0x20, 32);
            let upper = ts.app2(Op2::BvSub, a, delta);
            ts.ite(lower, upper, a)
        },
        CharFn::ToLowerCase => {
            let upper = in_range(ts, a, 0x41, 0x5A);
            let delta = ts.bv_const(0x20, 32);
            let lower = ts.app2(Op2::BvAdd, a, delta);
            ts.ite(upper, lower, a)
        },
        CharFn::CharCount => {
            let threshold = ts.bv_const(0x10000, 32);
            let supplementary = ts.app2(Op2::BvSge, a, threshold);
            let two = ts.bv_const(2, 32);
            let one = ts.bv_const(1, 32);
            ts.ite(supplementary, two, one)
        },
        CharFn::ToCodePoint => {
            let high_base = ts.bv_const(0xD800, 32);
            let low_base = ts.bv_const(0xDC00, 32);
            let step = ts.bv_const(0x400, 32);
            let start = ts.bv_const(0x10000, 32);
            let h = ts.app2(Op2::BvSub, a, high_base);
            let l = ts.app2(Op2::BvSub, b, low_base);
            let hh = ts.app2(Op2::BvMul, h, step);
            let hl = ts.app2(Op2::BvAdd, hh, l);
            ts.app2(Op2::BvAdd, hl, start)
        },
        CharFn::Digit => {
            let v = digit_of(ts, a);
            let none = ts.bv_const(-1, 32);
            radix_guard(ts, v, b, v, none)
        },
        CharFn::ForDigit => {
            let ten = ts.bv_const(10, 32);
            let small = ts.app2(Op2::BvSlt, a, ten);
            let c0 = ts.bv_const(0x30, 32);
            let ca = ts.bv_const(0x61, 32);
            let above = ts.app2(Op2::BvSub, a, ten);
            let as_digit = ts.app2(Op2::BvAdd, a, c0);
            let as_letter = ts.app2(Op2::BvAdd, above, ca);
            let ch = ts.ite(small, as_digit, as_letter);
            let zero = ts.bv_const(0, 32);
            radix_guard(ts, a, b, ch, zero)
        },
    }
}

} // verus!
