//! What terms over strings mean, and that the formulas built for the methods of strings
//! and string builders mean what those methods do.

use vstd::arithmetic::div_mod::lemma_small_mod;
use vstd::prelude::*;
use vstd::string::*;

use super::formula;
use super::meaning;
use super::str_encode;
use super::str_encode::StrFn;
use super::str_formula;
use super::wide;
use crate::concrete::value::Value;
use crate::term;
use crate::term::{Op1, Op2, Op3, Tm};
use crate::text;

verus! {

/// What the symbols stand for, by their positions: numbers, and texts as the codes of
/// their characters.
pub struct Env {
    pub words: spec_fn(nat) -> i64,
    pub texts: spec_fn(nat) -> Seq<int>,
}

/// The codes of the characters.
pub open spec fn codes(s: Seq<char>) -> Seq<int> {
    s.map_values(|c: char| c as int)
}

/// The number read without its sign.
pub open spec fn unsigned(v: Value) -> int {
    match v {
        Value::I64(x) => if x < 0 {
            x + 0x1_0000_0000_0000_0000
        } else {
            x as int
        },
        _ => if v.number() < 0 {
            v.number() + 0x1_0000_0000
        } else {
            v.number() as int
        },
    }
}

/// The number of 32 bits that is the integer modulo the range.
pub open spec fn low_word(n: int) -> i32 {
    ((n + 0x8000_0000) % 0x1_0000_0000 - 0x8000_0000) as i32
}

/// Does the part stand at the position?
pub open spec fn stands(s: Seq<int>, part: Seq<int>, i: int) -> bool {
    0 <= i && i + part.len() <= s.len() && s.subrange(i, i + part.len()) == part
}

/// Does the part stand somewhere?
pub open spec fn occurs(s: Seq<int>, part: Seq<int>) -> bool {
    exists|i: int| stands(s, part, i)
}

/// The first position from `from` on at which the part stands; -1 if there is none.
pub open spec fn first_at(s: Seq<int>, part: Seq<int>, from: int) -> int
    decreases s.len() + 1 - from,
{
    if from < 0 || from > s.len() {
        -1
    } else if stands(s, part, from) {
        from
    } else {
        first_at(s, part, from + 1)
    }
}

/// Every place of the part, from left to right, is taken by the other text.
pub open spec fn replaced(s: Seq<int>, part: Seq<int>, by: Seq<int>) -> Seq<int>
    decreases s.len(),
{
    if part.len() == 0 || s.len() == 0 {
        s
    } else if stands(s, part, 0) {
        by + replaced(s.skip(part.len() as int), part, by)
    } else {
        seq![s[0]] + replaced(s.skip(1), part, by)
    }
}

/// The characters from `i` on, at most `n` of them; none where `i` is not in the text.
pub open spec fn slice(s: Seq<int>, i: int, n: int) -> Seq<int> {
    if i < 0 || i >= s.len() || n <= 0 {
        Seq::empty()
    } else if i + n <= s.len() {
        s.subrange(i, i + n)
    } else {
        s.skip(i)
    }
}

/// Is the term an integer of the theory of strings?
pub open spec fn is_num(t: Tm) -> bool
    decreases t,
{
    match t {
        Tm::Num(_) => true,
        Tm::App1(op, _) => op == Op1::StrLen || op == Op1::Bv32ToInt || op == Op1::StrToCode,
        Tm::App3(Op3::StrIndexOf, _, _, _) => true,
        Tm::App3(Op3::Ite, _, a, _) => is_num(*a),
        _ => false,
    }
}

/// The value of a term of 32 or of 64 bits. One of another sort is taken as zero.
#[verifier::opaque]
pub open spec fn word(t: Tm, e: Env) -> Value
    decreases t,
{
    match t {
        Tm::Bv(n, w) => if w == 64 {
            Value::I64(n as i64)
        } else {
            Value::I32(n as i32)
        },
        Tm::FreshBv(at, _, w) => wide::of_width((e.words)(at), w),
        Tm::App1(Op1::BvNeg, a) => wide::negated(word(*a, e)),
        Tm::App1(Op1::IntToBv32, a) => Value::I32(low_word(num(*a, e))),
        Tm::App2(op, a, b) => match (word(*a, e), word(*b, e)) {
            (Value::I64(x), Value::I64(y)) => Value::I64(wide::long_bits_op(op, x, y)),
            (Value::I32(x), Value::I32(y)) => Value::I32(meaning::bits_op(op, x, y)),
            _ => Value::I32(0),
        },
        Tm::App3(Op3::Ite, c, a, b) => if holds(*c, e) {
            word(*a, e)
        } else {
            word(*b, e)
        },
        _ => Value::I32(0),
    }
}

/// The value of an integer term. A bit vector is read without its sign, and the code of
/// a text that is not one character is -1.
#[verifier::opaque]
pub open spec fn num(t: Tm, e: Env) -> int
    decreases t,
{
    match t {
        Tm::Num(n) => n,
        Tm::App1(Op1::StrLen, s) => content(*s, e).len() as int,
        Tm::App1(Op1::Bv32ToInt, a) => unsigned(word(*a, e)),
        Tm::App1(Op1::StrToCode, s) => if content(*s, e).len() == 1 {
            content(*s, e)[0]
        } else {
            -1
        },
        Tm::App3(Op3::StrIndexOf, s, p, i) => first_at(content(*s, e), content(*p, e), num(*i, e)),
        Tm::App3(Op3::Ite, c, a, b) => if holds(*c, e) {
            num(*a, e)
        } else {
            num(*b, e)
        },
        _ => 0,
    }
}

/// The text that a string term stands for.
#[verifier::opaque]
pub open spec fn content(t: Tm, e: Env) -> Seq<int>
    decreases t,
{
    match t {
        Tm::Text(s) => codes(s),
        Tm::FreshStr(at, _) => (e.texts)(at),
        Tm::App1(Op1::StrFromCode, n) => if 0 <= num(*n, e) <= 0x2_FFFF {
            seq![num(*n, e)]
        } else {
            Seq::empty()
        },
        Tm::App1(Op1::StrFromInt, n) => if num(*n, e) < 0 {
            Seq::empty()
        } else {
            codes(text::dec(num(*n, e) as nat))
        },
        Tm::App2(Op2::StrAt, s, i) => slice(content(*s, e), num(*i, e), 1),
        Tm::App2(Op2::StrConcat, a, b) => content(*a, e) + content(*b, e),
        Tm::App3(Op3::StrSubstr, s, i, n) => slice(content(*s, e), num(*i, e), num(*n, e)),
        Tm::App3(Op3::StrReplaceAll, s, p, by) => replaced(
            content(*s, e),
            content(*p, e),
            content(*by, e),
        ),
        Tm::App3(Op3::Ite, c, a, b) => if holds(*c, e) {
            content(*a, e)
        } else {
            content(*b, e)
        },
        _ => Seq::empty(),
    }
}

/// Does the formula hold? One of another kind does not.
#[verifier::opaque]
pub open spec fn holds(t: Tm, e: Env) -> bool
    decreases t,
{
    match t {
        Tm::Bool(b) => b,
        Tm::App1(Op1::Not, a) => !holds(*a, e),
        Tm::App2(Op2::And, a, b) => holds(*a, e) && holds(*b, e),
        Tm::App2(Op2::Or, a, b) => holds(*a, e) || holds(*b, e),
        Tm::App2(Op2::Eq, a, b) => if is_num(*a) {
            num(*a, e) == num(*b, e)
        } else {
            word(*a, e) == word(*b, e)
        },
        Tm::App2(Op2::BvSlt, a, b) => word(*a, e).number() < word(*b, e).number(),
        Tm::App2(Op2::BvSle, a, b) => word(*a, e).number() <= word(*b, e).number(),
        Tm::App2(Op2::StrEq, a, b) => content(*a, e) == content(*b, e),
        Tm::App2(Op2::StrContains, a, b) => occurs(content(*a, e), content(*b, e)),
        Tm::App2(Op2::StrPrefixOf, a, b) => stands(content(*b, e), content(*a, e), 0),
        Tm::App2(Op2::StrSuffixOf, a, b) => stands(
            content(*b, e),
            content(*a, e),
            content(*b, e).len() - content(*a, e).len(),
        ),
        Tm::App3(Op3::Ite, c, a, b) => if holds(*c, e) {
            holds(*a, e)
        } else {
            holds(*b, e)
        },
        _ => false,
    }
}

/// A call of a string method with the values and the contents of its arguments, the
/// receiver first: what the formula for it gives and, where that is a string or the
/// receiver is changed, the content.
pub open spec fn called(f: StrFn, vals: Seq<Tm>, texts: Seq<Tm>, x: Tm) -> (Tm, Option<Tm>) {
    let at = str_encode::value_args(f, vals.len());
    str_encode::str_value(
        f,
        texts[0],
        texts[str_encode::other_text(f)->0],
        Seq::new(at.len(), |j: int| vals[at[j] as int]),
        x,
    )
}

/// The method that is called by the name.
pub open spec fn method(name: Seq<char>, d: Seq<char>) -> StrFn {
    str_encode::str_fn(name, d, true, true)->0
}

broadcast proof fn lemma_length(s: Tm, e: Env)
    ensures
        (#[trigger] num(term::t1(Op1::StrLen, s), e)) == content(s, e).len(),
{
    reveal(word);
    reveal(num);
    reveal(content);
    reveal(holds);
}

broadcast proof fn lemma_to_num(a: Tm, e: Env)
    ensures
        #[trigger] num(term::t1(Op1::Bv32ToInt, a), e) == unsigned(word(a, e)),
{
    reveal(word);
    reveal(num);
    reveal(content);
    reveal(holds);
}

broadcast proof fn lemma_constant(n: int, e: Env)
    ensures
        #[trigger] num(Tm::Num(n), e) == n,
{
    reveal(word);
    reveal(num);
    reveal(content);
    reveal(holds);
}

broadcast proof fn lemma_to_code(s: Tm, e: Env)
    ensures
        content(s, e).len() == 1 ==> #[trigger] num(term::t1(Op1::StrToCode, s), e) == content(s, e)[0],
{
    reveal(word);
    reveal(num);
    reveal(content);
    reveal(holds);
}

broadcast proof fn lemma_index_of(s: Tm, p: Tm, i: Tm, e: Env)
    ensures
        #[trigger] num(term::t3(Op3::StrIndexOf, s, p, i), e) == first_at(
            content(s, e),
            content(p, e),
            num(i, e),
        ),
{
    reveal(word);
    reveal(num);
    reveal(content);
    reveal(holds);
}

broadcast proof fn lemma_num_choice(c: Tm, a: Tm, b: Tm, e: Env)
    ensures
        #[trigger] num(term::t3(Op3::Ite, c, a, b), e) == if holds(c, e) {
            num(a, e)
        } else {
            num(b, e)
        },
{
    reveal(word);
    reveal(num);
    reveal(content);
    reveal(holds);
}

broadcast proof fn lemma_to_word(a: Tm, e: Env)
    ensures
        #[trigger] word(term::t1(Op1::IntToBv32, a), e) == Value::I32(low_word(num(a, e))),
{
    reveal(word);
    reveal(num);
    reveal(content);
    reveal(holds);
}

broadcast proof fn lemma_word(n: int, w: u32, e: Env)
    ensures
        #[trigger] word(Tm::Bv(n, w), e) == if w == 64 {
            Value::I64(n as i64)
        } else {
            Value::I32(n as i32)
        },
{
    reveal(word);
    reveal(num);
    reveal(content);
    reveal(holds);
}

broadcast proof fn lemma_negative(a: Tm, e: Env)
    ensures
        #[trigger] word(term::t1(Op1::BvNeg, a), e) == wide::negated(word(a, e)),
{
    reveal(word);
    reveal(num);
    reveal(content);
    reveal(holds);
}

broadcast proof fn lemma_sum(a: Tm, b: Tm, e: Env)
    ensures
        word(a, e) is I32 && word(b, e) is I32 ==> #[trigger] word(term::t2(Op2::BvAdd, a, b), e)
            == Value::I32(word(a, e)->I32_0.wrapping_add(word(b, e)->I32_0)),
{
    reveal(word);
    reveal(num);
    reveal(content);
    reveal(holds);
}

broadcast proof fn lemma_difference(a: Tm, b: Tm, e: Env)
    ensures
        word(a, e) is I32 && word(b, e) is I32 ==> #[trigger] word(term::t2(Op2::BvSub, a, b), e)
            == Value::I32(word(a, e)->I32_0.wrapping_sub(word(b, e)->I32_0)),
{
    reveal(word);
    reveal(num);
    reveal(content);
    reveal(holds);
}

broadcast proof fn lemma_word_choice(c: Tm, a: Tm, b: Tm, e: Env)
    ensures
        #[trigger] word(term::t3(Op3::Ite, c, a, b), e) == if holds(c, e) {
            word(a, e)
        } else {
            word(b, e)
        },
{
    reveal(word);
    reveal(num);
    reveal(content);
    reveal(holds);
}

broadcast proof fn lemma_literal(s: Seq<char>, e: Env)
    ensures
        #[trigger] content(Tm::Text(s), e) == codes(s),
{
    reveal(word);
    reveal(num);
    reveal(content);
    reveal(holds);
}

broadcast proof fn lemma_from_code(n: Tm, e: Env)
    ensures
        0 <= num(n, e) <= 0x2_FFFF ==> #[trigger] content(term::t1(Op1::StrFromCode, n), e) == seq![
            num(n, e),
        ],
{
    reveal(word);
    reveal(num);
    reveal(content);
    reveal(holds);
}

broadcast proof fn lemma_from_int(n: Tm, e: Env)
    ensures
        0 <= num(n, e) ==> #[trigger] content(term::t1(Op1::StrFromInt, n), e) == codes(
            text::dec(num(n, e) as nat),
        ),
{
    reveal(word);
    reveal(num);
    reveal(content);
    reveal(holds);
}

broadcast proof fn lemma_at(s: Tm, i: Tm, e: Env)
    ensures
        #[trigger] content(term::t2(Op2::StrAt, s, i), e) == slice(content(s, e), num(i, e), 1),
{
    reveal(word);
    reveal(num);
    reveal(content);
    reveal(holds);
}

broadcast proof fn lemma_concat(a: Tm, b: Tm, e: Env)
    ensures
        #[trigger] content(term::t2(Op2::StrConcat, a, b), e) == content(a, e) + content(b, e),
{
    reveal(word);
    reveal(num);
    reveal(content);
    reveal(holds);
}

broadcast proof fn lemma_slice(s: Tm, i: Tm, n: Tm, e: Env)
    ensures
        #[trigger] content(term::t3(Op3::StrSubstr, s, i, n), e) == slice(
            content(s, e),
            num(i, e),
            num(n, e),
        ),
{
    reveal(word);
    reveal(num);
    reveal(content);
    reveal(holds);
}

broadcast proof fn lemma_replaced(s: Tm, p: Tm, by: Tm, e: Env)
    ensures
        #[trigger] content(term::t3(Op3::StrReplaceAll, s, p, by), e) == replaced(
            content(s, e),
            content(p, e),
            content(by, e),
        ),
{
    reveal(word);
    reveal(num);
    reveal(content);
    reveal(holds);
}

broadcast proof fn lemma_text_choice(c: Tm, a: Tm, b: Tm, e: Env)
    ensures
        #[trigger] content(term::t3(Op3::Ite, c, a, b), e) == if holds(c, e) {
            content(a, e)
        } else {
            content(b, e)
        },
{
    reveal(word);
    reveal(num);
    reveal(content);
    reveal(holds);
}

broadcast proof fn lemma_not(a: Tm, e: Env)
    ensures
        #[trigger] holds(term::t1(Op1::Not, a), e) == !holds(a, e),
{
    reveal(word);
    reveal(num);
    reveal(content);
    reveal(holds);
}

broadcast proof fn lemma_and(a: Tm, b: Tm, e: Env)
    ensures
        #[trigger] holds(term::t2(Op2::And, a, b), e) == (holds(a, e) && holds(b, e)),
{
    reveal(word);
    reveal(num);
    reveal(content);
    reveal(holds);
}

broadcast proof fn lemma_equal(a: Tm, b: Tm, e: Env)
    ensures
        #[trigger] holds(term::t2(Op2::Eq, a, b), e) == if is_num(a) {
            num(a, e) == num(b, e)
        } else {
            word(a, e) == word(b, e)
        },
{
    reveal(word);
    reveal(num);
    reveal(content);
    reveal(holds);
}

broadcast proof fn lemma_less(a: Tm, b: Tm, e: Env)
    ensures
        #[trigger] holds(term::t2(Op2::BvSlt, a, b), e) == (word(a, e).number() < word(b, e).number()),
{
    reveal(word);
    reveal(num);
    reveal(content);
    reveal(holds);
}

broadcast proof fn lemma_at_most(a: Tm, b: Tm, e: Env)
    ensures
        #[trigger] holds(term::t2(Op2::BvSle, a, b), e) == (word(a, e).number() <= word(b, e).number()),
{
    reveal(word);
    reveal(num);
    reveal(content);
    reveal(holds);
}

broadcast proof fn lemma_same_text(a: Tm, b: Tm, e: Env)
    ensures
        #[trigger] holds(term::t2(Op2::StrEq, a, b), e) == (content(a, e) == content(b, e)),
{
    reveal(word);
    reveal(num);
    reveal(content);
    reveal(holds);
}

broadcast proof fn lemma_holds_part(a: Tm, b: Tm, e: Env)
    ensures
        #[trigger] holds(term::t2(Op2::StrContains, a, b), e) == occurs(content(a, e), content(b, e)),
{
    reveal(word);
    reveal(num);
    reveal(content);
    reveal(holds);
}

broadcast proof fn lemma_prefix(a: Tm, b: Tm, e: Env)
    ensures
        #[trigger] holds(term::t2(Op2::StrPrefixOf, a, b), e) == stands(
            content(b, e),
            content(a, e),
            0,
        ),
{
    reveal(word);
    reveal(num);
    reveal(content);
    reveal(holds);
}

broadcast proof fn lemma_suffix(a: Tm, b: Tm, e: Env)
    ensures
        #[trigger] holds(term::t2(Op2::StrSuffixOf, a, b), e) == stands(
            content(b, e),
            content(a, e),
            content(b, e).len() - content(a, e).len(),
        ),
{
    reveal(word);
    reveal(num);
    reveal(content);
    reveal(holds);
}

broadcast proof fn lemma_truth_choice(c: Tm, a: Tm, b: Tm, e: Env)
    ensures
        #[trigger] holds(term::t3(Op3::Ite, c, a, b), e) == if holds(c, e) {
            holds(a, e)
        } else {
            holds(b, e)
        },
{
    reveal(word);
    reveal(num);
    reveal(content);
    reveal(holds);
}

broadcast group group_unfold {
    lemma_truth_choice,
    lemma_length,
    lemma_to_num,
    lemma_constant,
    lemma_to_code,
    lemma_index_of,
    lemma_num_choice,
    lemma_to_word,
    lemma_word,
    lemma_negative,
    lemma_sum,
    lemma_difference,
    lemma_word_choice,
    lemma_literal,
    lemma_from_code,
    lemma_from_int,
    lemma_at,
    lemma_concat,
    lemma_slice,
    lemma_replaced,
    lemma_text_choice,
    lemma_not,
    lemma_and,
    lemma_equal,
    lemma_less,
    lemma_at_most,
    lemma_same_text,
    lemma_holds_part,
    lemma_prefix,
    lemma_suffix,
}

proof fn lemma_low_word(n: int)
    requires
        -0x8000_0000 <= n < 0x8000_0000,
    ensures
        low_word(n) == n,
{
    lemma_small_mod((n + 0x8000_0000) as nat, 0x1_0000_0000);
}

/// Can the length of the text be an `int`?
pub open spec fn sized(s: Seq<int>) -> bool {
    s.len() <= 0x7FFF_FFFF
}

/// The value of an argument as a number.
pub open spec fn arg(vals: Seq<Tm>, i: int, e: Env) -> int {
    word(vals[i], e).number() as int
}

/// The argument is an `int`.
pub open spec fn is_int(vals: Seq<Tm>, i: int, e: Env) -> bool {
    0 <= i < vals.len() && !is_num(vals[i]) && word(vals[i], e) is I32
}

/// What is left of a text from a position on.
proof fn lemma_tail(s: Tm, i: Tm, e: Env)
    requires
        sized(content(s, e)),
        word(i, e) is I32,
        word(i, e).number() >= 0,
    ensures
        word(i, e).number() <= content(s, e).len() ==> content(str_formula::tail(s, i), e) == content(
            s,
            e,
        ).skip(word(i, e).number() as int),
        word(i, e).number() >= content(s, e).len() ==> content(str_formula::tail(s, i), e)
            == Seq::<int>::empty(),
{
    broadcast use group_unfold;

    lemma_low_word(content(s, e).len() as int);
    let t = content(s, e);
    let k = word(i, e).number() as int;
    if k <= t.len() {
        assert(content(str_formula::tail(s, i), e) =~= t.skip(k));
    }
}

/// The first characters of a text.
proof fn lemma_head(s: Tm, i: Tm, e: Env)
    requires
        word(i, e) is I32,
        0 <= word(i, e).number() <= content(s, e).len(),
    ensures
        content(str_formula::head(s, i), e) == content(s, e).take(word(i, e).number() as int),
{
    broadcast use group_unfold;

    assert(content(str_formula::head(s, i), e) =~= content(s, e).take(word(i, e).number() as int));
}

/// `substring(i, j)` is the part of the text from `i` up to `j`, so it has `j - i`
/// characters, the first of them that at `i`; `substring(i)` is what is left from `i` on.
pub proof fn law_substring_is_the_part_between(vals: Seq<Tm>, texts: Seq<Tm>, d: Seq<char>, x: Tm, e: Env)
    requires
        texts.len() > 0,
        vals.len() == 2 || vals.len() == 3,
        sized(content(texts[0], e)),
        is_int(vals, 1, e),
        vals.len() == 3 ==> is_int(vals, 2, e),
        0 <= arg(vals, 1, e) <= content(texts[0], e).len(),
        vals.len() == 3 ==> arg(vals, 1, e) <= arg(vals, 2, e) <= content(texts[0], e).len(),
    ensures
        ({
            let s = content(texts[0], e);
            let i = arg(vals, 1, e);
            let j = if vals.len() == 3 {
                arg(vals, 2, e)
            } else {
                s.len() as int
            };
            let r = called(method("substring"@, d), vals, texts, x);
            &&& r.1 is Some
            &&& content(r.1->0, e).len() == j - i
            &&& forall|k: int| 0 <= k < j - i ==> content(r.1->0, e)[k] == #[trigger] s[i + k]
            &&& content(r.1->0, e) == s.subrange(i, j)
            &&& word(r.0, e) != Value::I32(0)
        }),
{
    broadcast use group_unfold;

    lemma_names(d);
    let s = content(texts[0], e);
    let r = called(method("substring"@, d), vals, texts, x);
    if vals.len() == 3 {
        assert(content(r.1->0, e) =~= s.subrange(arg(vals, 1, e), arg(vals, 2, e)));
    } else {
        lemma_tail(texts[0], vals[1], e);
        assert(s.skip(arg(vals, 1, e)) =~= s.subrange(arg(vals, 1, e), s.len() as int));
    }
}

/// Is the value the one of a flag that is set just where the condition holds?
pub open spec fn flags(t: Tm, e: Env, c: bool) -> bool {
    word(t, e) == if c {
        Value::I32(1)
    } else {
        Value::I32(0)
    }
}

/// `length` is the number of characters, `isEmpty` tells whether there are none, and
/// `charAt(i)` is the character at `i`.
pub proof fn law_characters_are_counted_and_read(vals: Seq<Tm>, texts: Seq<Tm>, d: Seq<char>, x: Tm, e: Env)
    requires
        texts.len() > 0,
        sized(content(texts[0], e)),
    ensures
        ({
            let s = content(texts[0], e);
            &&& word(called(method("length"@, d), vals, texts, x).0, e) == Value::I32(s.len() as i32)
            &&& flags(called(method("isEmpty"@, d), vals, texts, x).0, e, s.len() == 0)
            &&& is_int(vals, 1, e) && 0 <= arg(vals, 1, e) < s.len() && 0 <= s[arg(vals, 1, e)]
                <= 0xFFFF ==> word(called(method("charAt"@, d), vals, texts, x).0, e).number()
                == s[arg(vals, 1, e)]
        }),
{
    broadcast use group_unfold;

    lemma_names(d);
    let s = content(texts[0], e);
    lemma_low_word(s.len() as int);
    if is_int(vals, 1, e) && 0 <= arg(vals, 1, e) < s.len() && 0 <= s[arg(vals, 1, e)] <= 0xFFFF {
        lemma_low_word(s[arg(vals, 1, e)]);
        assert(slice(s, arg(vals, 1, e), 1)[0] == s[arg(vals, 1, e)]);
    }
}

/// `equals` tells whether the two texts are the same, `contains` whether the other one
/// stands somewhere in the text, `endsWith` whether it stands at its end, and
/// `startsWith` whether it stands at its beginning, or at the given position.
pub proof fn law_questions_compare_the_texts(vals: Seq<Tm>, texts: Seq<Tm>, d: Seq<char>, x: Tm, e: Env)
    requires
        texts.len() > 1,
        sized(content(texts[0], e)),
        vals.len() == 2 || vals.len() == 3,
        vals.len() == 3 ==> is_int(vals, 2, e) && 0 <= arg(vals, 2, e) <= content(texts[0], e).len(),
    ensures
        ({
            let s = content(texts[0], e);
            let t = content(texts[1], e);
            let from = if vals.len() == 3 {
                arg(vals, 2, e)
            } else {
                0
            };
            &&& flags(called(method("equals"@, d), vals, texts, x).0, e, s == t)
            &&& flags(
                called(method("contains"@, d), vals, texts, x).0,
                e,
                exists|i: int| stands(s, t, i),
            )
            &&& flags(
                called(method("endsWith"@, d), vals, texts, x).0,
                e,
                stands(s, t, s.len() - t.len()),
            )
            &&& flags(called(method("startsWith"@, d), vals, texts, x).0, e, stands(s, t, from))
        }),
{
    broadcast use group_unfold;

    lemma_names(d);
    if vals.len() == 3 {
        let s = content(texts[0], e);
        let t = content(texts[1], e);
        let from = arg(vals, 2, e);
        lemma_tail(texts[0], vals[2], e);
        if from + t.len() <= s.len() {
            assert(s.skip(from).subrange(0, 0int + t.len()) =~= s.subrange(from, from + t.len()));
        }
    }
}

proof fn lemma_first(s: Seq<int>, part: Seq<int>, from: int)
    requires
        from >= 0,
    ensures
        ({
            let r = first_at(s, part, from);
            &&& r == -1 || (from <= r && stands(s, part, r))
            &&& r == -1 ==> forall|i: int| from <= i ==> !#[trigger] stands(s, part, i)
            &&& r != -1 ==> forall|i: int| from <= i < r ==> !#[trigger] stands(s, part, i)
        }),
    decreases s.len() + 1 - from,
{
    if from <= s.len() && !stands(s, part, from) {
        lemma_first(s, part, from + 1);
    }
}

/// What is searched for: a character, or the other text.
pub open spec fn needle(vals: Seq<Tm>, texts: Seq<Tm>, d: Seq<char>, e: Env) -> Seq<int> {
    if text::starts(d, "(I"@) {
        seq![arg(vals, 1, e)]
    } else {
        content(texts[1], e)
    }
}

/// Where a search begins.
pub open spec fn search_start(vals: Seq<Tm>, e: Env) -> int {
    if vals.len() == 3 {
        arg(vals, 2, e)
    } else {
        0
    }
}

/// `indexOf` is the first position, from the given one on, at which the other text or
/// the character stands, and -1 if there is none.
pub proof fn law_index_is_the_first_place(vals: Seq<Tm>, texts: Seq<Tm>, d: Seq<char>, x: Tm, e: Env)
    requires
        texts.len() > 1,
        vals.len() == 2 || vals.len() == 3,
        sized(content(texts[0], e)),
        vals.len() == 3 ==> is_int(vals, 2, e) && 0 <= arg(vals, 2, e),
        text::starts(d, "(I"@) ==> is_int(vals, 1, e) && 0 <= arg(vals, 1, e) <= 0xFFFF,
    ensures
        ({
            let s = content(texts[0], e);
            let t = needle(vals, texts, d, e);
            let from = search_start(vals, e);
            let r = word(called(method("indexOf"@, d), vals, texts, x).0, e).number();
            &&& r == -1 || (from <= r && stands(s, t, r as int))
            &&& r == -1 ==> forall|i: int| from <= i ==> !#[trigger] stands(s, t, i)
            &&& r != -1 ==> forall|i: int| from <= i < r ==> !#[trigger] stands(s, t, i)
        }),
{
    broadcast use group_unfold;

    lemma_names(d);
    let s = content(texts[0], e);
    let t = needle(vals, texts, d, e);
    let from = search_start(vals, e);
    lemma_first(s, t, from);
    lemma_low_word(first_at(s, t, from));
}

/// How many places up to the position the part stands at.
pub open spec fn places(s: Seq<int>, part: Seq<int>, upto: int) -> nat
    decreases upto + 1,
{
    if upto < 0 {
        0
    } else {
        places(s, part, upto - 1) + if stands(s, part, upto) {
            1nat
        } else {
            0nat
        }
    }
}

proof fn lemma_more_places(s: Seq<int>, part: Seq<int>, i: int, j: int)
    requires
        -1 <= i < j,
        stands(s, part, j),
    ensures
        places(s, part, i) < places(s, part, j),
    decreases j,
{
    lemma_places_grow(s, part, i, j - 1);
}

proof fn lemma_places_grow(s: Seq<int>, part: Seq<int>, i: int, j: int)
    requires
        -1 <= i <= j,
    ensures
        places(s, part, i) <= places(s, part, j),
    decreases j - i,
{
    if i < j {
        lemma_places_grow(s, part, i, j - 1);
    }
}

/// The place is the last one, or one of at least `n`; there is none if it is -1.
spec fn late(s: Seq<int>, part: Seq<int>, r: int, n: nat) -> bool {
    &&& r == -1 || stands(s, part, r)
    &&& r == -1 ==> forall|i: int| !#[trigger] stands(s, part, i)
    &&& (forall|i: int| r < i ==> !#[trigger] stands(s, part, i)) || places(s, part, r) >= n
}

proof fn lemma_later(s: Tm, p: Tm, n: nat, e: Env)
    requires
        content(s, e).len() < 0x7FFF_FFFF,
    ensures
        late(
            content(s, e),
            content(p, e),
            num(
                str_formula::later_match(s, p, str_formula::index_of(s, p, Tm::Num(0)), n),
                e,
            ),
            n + 1,
        ),
        is_num(str_formula::later_match(s, p, str_formula::index_of(s, p, Tm::Num(0)), n)),
    decreases n,
{
    broadcast use group_unfold;

    let (t, q) = (content(s, e), content(p, e));
    let cur = str_formula::index_of(s, p, Tm::Num(0));
    lemma_first(t, q, 0);
    if n == 0 {
        let r = num(cur, e);
        if r >= 0 {
            lemma_more_places(t, q, -1, r);
        } else {
            assert forall|i: int| !#[trigger] stands(t, q, i) by {
                if i >= 0 {
                }
            }
        }
    } else {
        lemma_later(s, p, (n - 1) as nat, e);
        let before = str_formula::later_match(s, p, cur, (n - 1) as nat);
        let b = num(before, e);
        lemma_low_word(b);
        let from = str_formula::to_num(formula::plus(str_formula::to_bv(before), term::bv32(1)));
        assert(num(from, e) == b + 1);
        let next = str_formula::index_of(s, p, from);
        lemma_first(t, q, b + 1);
        let a = num(next, e);
        let r = num(str_formula::later_match(s, p, cur, n), e);
        assert(r == if a != -1 {
            a
        } else {
            b
        });
        if a != -1 {
            lemma_more_places(t, q, b, a);
        }
    }
}

/// `lastIndexOf` is a place of the other text or of the character, and -1 just where there
/// is none. It is the last place, unless there are nine places at or before it.
pub proof fn law_last_index_is_a_late_place(vals: Seq<Tm>, texts: Seq<Tm>, d: Seq<char>, x: Tm, e: Env)
    requires
        texts.len() > 1,
        vals.len() == 2,
        content(texts[0], e).len() < 0x7FFF_FFFF,
        text::starts(d, "(I"@) ==> is_int(vals, 1, e) && 0 <= arg(vals, 1, e) <= 0xFFFF,
    ensures
        ({
            let s = content(texts[0], e);
            let t = needle(vals, texts, d, e);
            let r = word(called(method("lastIndexOf"@, d), vals, texts, x).0, e).number() as int;
            &&& r == -1 || stands(s, t, r)
            &&& r == -1 ==> forall|i: int| !#[trigger] stands(s, t, i)
            &&& (forall|i: int| r < i ==> !#[trigger] stands(s, t, i)) || places(s, t, r) >= 9
        }),
{
    broadcast use group_unfold;

    lemma_names(d);
    let s = content(texts[0], e);
    let p = if text::starts(d, "(I"@) {
        str_formula::char_str(vals[1])
    } else {
        texts[1]
    };
    assert(content(p, e) == needle(vals, texts, d, e));
    lemma_later(texts[0], p, 8, e);
    let m = str_formula::later_match(texts[0], p, str_formula::index_of(texts[0], p, Tm::Num(0)), 8);
    lemma_low_word(num(m, e));
}

/// `concat` and `append` put the other text behind the text; `toString` keeps it. A
/// builder gives itself back.
pub proof fn law_texts_are_joined(vals: Seq<Tm>, texts: Seq<Tm>, d: Seq<char>, x: Tm, e: Env)
    requires
        texts.len() > 1,
        vals.len() == 2,
    ensures
        ({
            let s = content(texts[0], e);
            let t = content(texts[1], e);
            let r = called(method("concat"@, d), vals, texts, x);
            let a = called(method("append"@, d), vals, texts, x);
            let k = called(method("toString"@, d), vals, texts, x);
            &&& r.1 is Some && a.1 is Some && k.1 is Some
            &&& content(r.1->0, e) == s + t
            &&& content(a.1->0, e) == s + t
            &&& content(k.1->0, e) == s
            &&& a.0 == vals[0]
        }),
{
    broadcast use group_unfold;

    lemma_names(d);
}

/// `setLength(n)` keeps the first `n` characters, `delete(i, j)` leaves out those from
/// `i` up to `j`, or to the end, `deleteCharAt(i)` that at `i`, and `insert(i, t)` puts
/// the text before that at `i`. The builder gives itself back.
pub proof fn law_builders_are_edited(vals: Seq<Tm>, texts: Seq<Tm>, d: Seq<char>, x: Tm, e: Env)
    requires
        texts.len() > 2,
        vals.len() == 3,
        sized(content(texts[0], e)),
        is_int(vals, 1, e),
        0 <= arg(vals, 1, e) <= content(texts[0], e).len(),
    ensures
        ({
            let s = content(texts[0], e);
            let t = content(texts[2], e);
            let i = arg(vals, 1, e);
            let j = arg(vals, 2, e);
            let set = called(method("setLength"@, d), vals, texts, x);
            let cut = called(method("deleteCharAt"@, d), vals, texts, x);
            let del = called(method("delete"@, d), vals, texts, x);
            let ins = called(method("insert"@, d), vals, texts, x);
            &&& set.0 == vals[0] && cut.0 == vals[0] && del.0 == vals[0] && ins.0 == vals[0]
            &&& set.1 is Some && cut.1 is Some && del.1 is Some && ins.1 is Some
            &&& content(set.1->0, e) == s.take(i)
            &&& i < s.len() ==> content(cut.1->0, e) == s.remove(i)
            &&& is_int(vals, 2, e) && i <= j <= s.len() ==> content(del.1->0, e) == s.take(i) + s.skip(
                j,
            )
            &&& is_int(vals, 2, e) && j >= s.len() ==> content(del.1->0, e) == s.take(i)
            &&& content(ins.1->0, e) == s.take(i) + t + s.skip(i)
        }),
{
    broadcast use group_unfold;

    lemma_names(d);
    let s = content(texts[0], e);
    let i = arg(vals, 1, e);
    lemma_head(texts[0], vals[1], e);
    lemma_tail(texts[0], vals[1], e);
    if is_int(vals, 2, e) && arg(vals, 2, e) >= i {
        lemma_tail(texts[0], vals[2], e);
        assert(s.take(i) + Seq::<int>::empty() =~= s.take(i));
    }
    if i < s.len() {
        let after = term::t2(Op2::BvAdd, vals[1], term::bv32(1));
        assert(word(after, e).number() == i + 1);
        lemma_tail(texts[0], after, e);
        assert(s.take(i) + s.skip(i + 1) =~= s.remove(i));
    }
}

/// Every place of one character is taken by another one.
proof fn lemma_characters_replaced(s: Seq<int>, c: int, by: int)
    ensures
        replaced(s, seq![c], seq![by]) == s.map_values(
            |k: int|
                if k == c {
                    by
                } else {
                    k
                },
        ),
    decreases s.len(),
{
    let f = |k: int|
        if k == c {
            by
        } else {
            k
        };
    let part = seq![c];
    if s.len() > 0 {
        lemma_characters_replaced(s.skip(1), c, by);
        assert(s.subrange(0, 1) =~= seq![s[0]]);
        assert(stands(s, part, 0) <==> s[0] == c) by {
            if s[0] == c {
                assert(s.subrange(0, 0int + part.len()) =~= part);
            } else {
                assert(s.subrange(0, 0int + part.len())[0] == s[0]);
            }
        }
        assert(seq![f(s[0])] + s.skip(1).map_values(f) =~= s.map_values(f));
    } else {
        assert(s.map_values(f) =~= s);
    }
}

/// `replace` of one character by another keeps the length, and each character is the
/// one that it was unless it was the first of the two, and then the second.
pub proof fn law_characters_are_replaced(vals: Seq<Tm>, texts: Seq<Tm>, d: Seq<char>, x: Tm, e: Env)
    requires
        texts.len() > 0,
        vals.len() == 3,
        text::starts(d, "(CC)"@),
        is_int(vals, 1, e),
        is_int(vals, 2, e),
        0 <= arg(vals, 1, e) <= 0xFFFF,
        0 <= arg(vals, 2, e) <= 0xFFFF,
    ensures
        ({
            let s = content(texts[0], e);
            let r = called(method("replace"@, d), vals, texts, x);
            &&& r.1 is Some
            &&& content(r.1->0, e).len() == s.len()
            &&& forall|k: int|
                0 <= k < s.len() ==> #[trigger] content(r.1->0, e)[k] == if s[k] == arg(vals, 1, e) {
                    arg(vals, 2, e)
                } else {
                    s[k]
                }
        }),
{
    broadcast use group_unfold;

    lemma_names(d);
    lemma_characters_replaced(content(texts[0], e), arg(vals, 1, e), arg(vals, 2, e));
}

/// The letter of the other case, if the character is one of the first `k` letters of
/// the alphabet in the case that is changed.
pub open spec fn other_case(to_lower: bool, k: nat, c: int) -> int {
    if to_lower && 65 <= c < 65 + k {
        c + 32
    } else if !to_lower && 97 <= c < 97 + k {
        c - 32
    } else {
        c
    }
}

proof fn lemma_recased(to_lower: bool, s: Tm, k: nat, e: Env)
    requires
        k <= 26,
    ensures
        content(str_formula::recased(to_lower, s, k), e) == content(s, e).map_values(
            |c: int| other_case(to_lower, k, c),
        ),
    decreases k,
{
    broadcast use group_unfold;

    let t = content(s, e);
    let r = content(str_formula::recased(to_lower, s, k), e);
    if k == 0 {
        assert(r =~= t.map_values(|c: int| other_case(to_lower, k, c)));
    } else {
        lemma_recased(to_lower, s, (k - 1) as nat, e);
        let upper = seq![(64 + k) as char];
        let lower = seq![(96 + k) as char];
        assert(codes(upper) =~= seq![64int + k]);
        assert(codes(lower) =~= seq![96int + k]);
        let before = content(str_formula::recased(to_lower, s, (k - 1) as nat), e);
        if to_lower {
            lemma_characters_replaced(before, 64int + k, 96int + k);
        } else {
            lemma_characters_replaced(before, 96int + k, 64int + k);
        }
        assert(r =~= t.map_values(|c: int| other_case(to_lower, k, c)));
    }
}

/// The character in lower case, on ASCII.
pub open spec fn lower(c: int) -> int {
    if 65 <= c <= 90 {
        c + 32
    } else {
        c
    }
}

/// The character in upper case, on ASCII.
pub open spec fn upper(c: int) -> int {
    if 97 <= c <= 122 {
        c - 32
    } else {
        c
    }
}

proof fn lemma_cased(s: Tm, e: Env)
    ensures
        content(str_formula::cased(true, s), e) == content(s, e).map_values(|c: int| lower(c)),
        content(str_formula::cased(false, s), e) == content(s, e).map_values(|c: int| upper(c)),
{
    lemma_recased(true, s, 26, e);
    lemma_recased(false, s, 26, e);
    assert(content(str_formula::cased(true, s), e) =~= content(s, e).map_values(|c: int| lower(c)));
    assert(content(str_formula::cased(false, s), e) =~= content(s, e).map_values(|c: int| upper(c)));
}

/// `toLowerCase` and `toUpperCase` change every letter of the other case and nothing
/// else, and `equalsIgnoreCase` tells whether the texts are the same in lower case.
pub proof fn law_case_is_changed(vals: Seq<Tm>, texts: Seq<Tm>, d: Seq<char>, x: Tm, e: Env)
    requires
        texts.len() > 1,
        vals.len() == 2,
    ensures
        ({
            let s = content(texts[0], e);
            let t = content(texts[1], e);
            let l = called(method("toLowerCase"@, d), vals, texts, x);
            let u = called(method("toUpperCase"@, d), vals, texts, x);
            &&& l.1 is Some && u.1 is Some
            &&& content(l.1->0, e).len() == s.len() && content(u.1->0, e).len() == s.len()
            &&& forall|k: int| 0 <= k < s.len() ==> #[trigger] content(l.1->0, e)[k] == lower(s[k])
            &&& forall|k: int| 0 <= k < s.len() ==> #[trigger] content(u.1->0, e)[k] == upper(s[k])
            &&& flags(
                called(method("equalsIgnoreCase"@, d), vals, texts, x).0,
                e,
                s.map_values(|c: int| lower(c)) == t.map_values(|c: int| lower(c)),
            )
        }),
{
    broadcast use group_unfold;

    lemma_names(d);
    lemma_cased(texts[0], e);
    lemma_cased(texts[1], e);
}

/// How Java writes a number: its digits, after a minus sign if it is negative.
pub open spec fn decimal(n: int) -> Seq<int> {
    if n < 0 {
        seq!['-' as int] + codes(text::dec((-n) as nat))
    } else {
        codes(text::dec(n as nat))
    }
}

/// The text of a value: a number in decimal, a character as itself, and a truth value
/// as a word.
pub open spec fn java_text(d: Seq<char>, v: Value) -> Seq<int> {
    if text::starts(d, "(Z)"@) {
        if v.number() != 0 {
            codes("true"@)
        } else {
            codes("false"@)
        }
    } else if text::starts(d, "(C)"@) {
        seq![v.number() as int]
    } else {
        decimal(v.number() as int)
    }
}

proof fn lemma_signed_text(v: Tm, w: u32, e: Env)
    requires
        w == 32 || w == 64,
        wide::has_width(word(v, e), w),
    ensures
        content(str_formula::signed_text(v, w), e) == decimal(word(v, e).number() as int),
{
    broadcast use group_unfold;

    reveal_strlit("-");
    assert(codes("-"@) =~= seq!['-' as int]);
}

/// Does the value fit the type of the parameter?
pub open spec fn fits(d: Seq<char>, t: Tm, e: Env) -> bool {
    let v = word(t, e);
    &&& !is_num(t)
    &&& v is I64 <==> text::starts(d, "(J)"@)
    &&& v is I32 || v is I64
    &&& text::starts(d, "(C)"@) ==> 0 <= v.number() <= 0xFFFF
}

/// `valueOf` gives the text of a value, `append` puts it behind the text of a builder,
/// and `insert` puts that of an `int` at the position.
pub proof fn law_values_are_written(vals: Seq<Tm>, texts: Seq<Tm>, d: Seq<char>, x: Tm, e: Env)
    requires
        texts.len() > 0,
        vals.len() == 3,
        str_encode::written(d),
        fits(d, vals[0], e),
        fits(d, vals[1], e),
    ensures
        ({
            let s = content(texts[0], e);
            let v = called(method("valueOf"@, d), vals, texts, x);
            let a = called(str_encode::str_fn("append"@, d, false, false)->0, vals, texts, x);
            let i = called(str_encode::str_fn("insert"@, d, false, false)->0, vals, texts, x);
            let at = arg(vals, 1, e);
            &&& v.1 is Some && a.1 is Some && i.1 is Some
            &&& content(v.1->0, e) == java_text(d, word(vals[0], e))
            &&& content(a.1->0, e) == s + java_text(d, word(vals[1], e))
            &&& a.0 == vals[0] && i.0 == vals[0]
            &&& sized(s) && is_int(vals, 1, e) && is_int(vals, 2, e) && 0 <= at <= s.len()
                ==> content(i.1->0, e) == s.take(at) + decimal(arg(vals, 2, e)) + s.skip(at)
        }),
{
    broadcast use group_unfold;

    lemma_starts_apart(d);
    lemma_names(d);
    if !text::starts(d, "(Z)"@) && !text::starts(d, "(C)"@) {
        let w: u32 = if text::starts(d, "(J)"@) {
            64
        } else {
            32
        };
        lemma_signed_text(vals[0], w, e);
        lemma_signed_text(vals[1], w, e);
    }
    assert(content(str_encode::value_text(str_encode::text_of(d), vals[0]), e) == java_text(
        d,
        word(vals[0], e),
    ));
    assert(content(str_encode::value_text(str_encode::text_of(d), vals[1]), e) == java_text(
        d,
        word(vals[1], e),
    ));
    let s = content(texts[0], e);
    if sized(s) && is_int(vals, 1, e) && is_int(vals, 2, e) && 0 <= arg(vals, 1, e) <= s.len() {
        lemma_head(texts[0], vals[1], e);
        lemma_tail(texts[0], vals[1], e);
        lemma_signed_text(vals[2], 32, e);
    }
}

proof fn lemma_starts_apart(d: Seq<char>)
    requires
        str_encode::written(d),
    ensures
        str_encode::takes_primitive(d),
        text::starts(d, "(Z)"@) ==> !text::starts(d, "(C)"@) && !text::starts(d, "(J)"@),
        text::starts(d, "(C)"@) ==> !text::starts(d, "(J)"@),
{
    reveal_strlit("(Z)");
    reveal_strlit("(C)");
    reveal_strlit("(J)");
    reveal_strlit("(I)");
    reveal_strlit("(L");
    reveal_strlit("([");
    if text::starts(d, "(Z)"@) {
        assert(d[1] == "(Z)"@[1]);
    }
    if text::starts(d, "(C)"@) {
        assert(d[1] == "(C)"@[1]);
    }
    if text::starts(d, "(J)"@) {
        assert(d[1] == "(J)"@[1]);
    }
    if text::starts(d, "(I)"@) {
        assert(d[1] == "(I)"@[1]);
    }
    if text::starts(d, "(L"@) {
        assert(d[1] == "(L"@[1]);
    }
    if text::starts(d, "(["@) {
        assert(d[1] == "(["@[1]);
    }
}

/// The `n` characters of one text from `i` on are those of the other from `j` on.
pub open spec fn regions_same(s: Seq<int>, i: int, t: Seq<int>, j: int, n: int, fold: bool) -> bool {
    &&& 0 <= i && 0 <= j && 0 <= n
    &&& i + n <= s.len() && j + n <= t.len()
    &&& forall|m: int|
        0 <= m < n ==> if fold {
            lower(#[trigger] s[i + m]) == lower(t[j + m])
        } else {
            s[i + m] == t[j + m]
        }
}

/// How many arguments say whether case counts: the first one, if there is one.
pub open spec fn fold_args(d: Seq<char>) -> int {
    if text::starts(d, "(ZI"@) {
        1
    } else {
        0
    }
}

/// `regionMatches` tells whether both regions lie in their texts and are the same, in
/// lower case if that is asked for; as long as no region ends beyond the range of `int`.
pub proof fn law_regions_are_compared(vals: Seq<Tm>, texts: Seq<Tm>, d: Seq<char>, x: Tm, e: Env)
    requires
        ({
            let k = fold_args(d);
            &&& texts.len() == vals.len() == 5 + k
            &&& sized(content(texts[0], e))
            &&& sized(content(texts[2 + k], e))
            &&& is_int(vals, 1, e)
            &&& is_int(vals, 1 + k, e)
            &&& is_int(vals, 3 + k, e)
            &&& is_int(vals, 4 + k, e)
            &&& i32::MIN <= arg(vals, 1 + k, e) + arg(vals, 4 + k, e) <= i32::MAX
            &&& i32::MIN <= arg(vals, 3 + k, e) + arg(vals, 4 + k, e) <= i32::MAX
        }),
    ensures
        ({
            let k = fold_args(d);
            let s = content(texts[0], e);
            let t = content(texts[2 + k], e);
            let i = arg(vals, 1 + k, e);
            let j = arg(vals, 3 + k, e);
            let n = arg(vals, 4 + k, e);
            let fold = k == 1 && arg(vals, 1, e) != 0;
            flags(
                called(method("regionMatches"@, d), vals, texts, x).0,
                e,
                regions_same(s, i, t, j, n, fold),
            )
        }),
{
    broadcast use group_unfold;

    lemma_names(d);
    let k = fold_args(d);
    let (s, t) = (content(texts[0], e), content(texts[2 + k], e));
    let (i, j, n) = (arg(vals, 1 + k, e), arg(vals, 3 + k, e), arg(vals, 4 + k, e));
    lemma_low_word(s.len() as int);
    lemma_low_word(t.len() as int);
    if 0 <= i && 0 <= j && 0 <= n && i + n <= s.len() && j + n <= t.len() {
        let a = str_formula::part(
            texts[0],
            str_formula::to_num(vals[1 + k]),
            str_formula::to_num(vals[4 + k]),
        );
        let b = str_formula::part(
            texts[2 + k],
            str_formula::to_num(vals[3 + k]),
            str_formula::to_num(vals[4 + k]),
        );
        assert(content(a, e) =~= s.subrange(i, i + n));
        assert(content(b, e) =~= t.subrange(j, j + n));
        lemma_cased(a, e);
        lemma_cased(b, e);
        let p = s.subrange(i, i + n);
        let q = t.subrange(j, j + n);
        let f = |c: int| lower(c);
        if forall|m: int| 0 <= m < n ==> #[trigger] s[i + m] == t[j + m] {
            assert forall|m: int| 0 <= m < n implies p[m] == q[m] by {
                assert(s[i + m] == t[j + m]);
            }
            assert(p =~= q);
        }
        if p == q {
            assert forall|m: int| 0 <= m < n implies #[trigger] s[i + m] == t[j + m] by {
                assert(p[m] == q[m]);
            }
        }
        if forall|m: int| 0 <= m < n ==> lower(#[trigger] s[i + m]) == lower(t[j + m]) {
            assert forall|m: int| 0 <= m < n implies p.map_values(f)[m] == q.map_values(f)[m] by {
                assert(lower(s[i + m]) == lower(t[j + m]));
            }
            assert(p.map_values(f) =~= q.map_values(f));
        }
        if p.map_values(f) == q.map_values(f) {
            assert forall|m: int| 0 <= m < n implies lower(#[trigger] s[i + m]) == lower(t[j + m]) by {
                assert(p.map_values(f)[m] == q.map_values(f)[m]);
            }
        }
        assert(regions_same(s, i, t, j, n, false) <==> p == q);
        assert(regions_same(s, i, t, j, n, true) <==> p.map_values(f) == q.map_values(f));
    }
    let inside = str_formula::region_fits(texts[0], texts[2 + k], vals[1 + k], vals[3 + k], vals[4 + k]);
    assert(holds(inside, e) <==> 0 <= i && 0 <= j && 0 <= n && i + n <= s.len() && j + n <= t.len());
    let fold = if k == 1 {
        Some(vals[1])
    } else {
        None
    };
    let same = str_formula::regions_equal(
        texts[0],
        texts[2 + k],
        vals[1 + k],
        vals[3 + k],
        vals[4 + k],
        fold,
    );
    assert(holds(inside, e) ==> (holds(same, e) <==> regions_same(
        s,
        i,
        t,
        j,
        n,
        k == 1 && arg(vals, 1, e) != 0,
    )));
}

/// The names of the methods are all different.
proof fn lemma_names_differ()
    ensures
        "length"@.len() == 6,
        "isEmpty"@.len() == 7,
        "contains"@.len() == 8,
        "equals"@.len() == 6,
        "startsWith"@.len() == 10,
        "endsWith"@.len() == 8,
        "charAt"@.len() == 6,
        "indexOf"@.len() == 7,
        "lastIndexOf"@.len() == 11,
        "substring"@.len() == 9,
        "concat"@.len() == 6,
        "toString"@.len() == 8,
        "equalsIgnoreCase"@.len() == 16,
        "regionMatches"@.len() == 13,
        "replace"@.len() == 7,
        "trim"@.len() == 4,
        "toLowerCase"@.len() == 11,
        "toUpperCase"@.len() == 11,
        "hashCode"@.len() == 8,
        "valueOf"@.len() == 7,
        "append"@.len() == 6,
        "setLength"@.len() == 9,
        "deleteCharAt"@.len() == 12,
        "delete"@.len() == 6,
        "insert"@.len() == 6,
        "reverse"@.len() == 7,
        "length"@ != "equals"@,
        "length"@ != "charAt"@,
        "length"@ != "concat"@,
        "length"@ != "append"@,
        "length"@ != "delete"@,
        "length"@ != "insert"@,
        "equals"@ != "charAt"@,
        "equals"@ != "concat"@,
        "equals"@ != "append"@,
        "equals"@ != "delete"@,
        "equals"@ != "insert"@,
        "charAt"@ != "concat"@,
        "charAt"@ != "append"@,
        "charAt"@ != "delete"@,
        "charAt"@ != "insert"@,
        "concat"@ != "append"@,
        "concat"@ != "delete"@,
        "concat"@ != "insert"@,
        "append"@ != "delete"@,
        "append"@ != "insert"@,
        "delete"@ != "insert"@,
        "isEmpty"@ != "indexOf"@,
        "isEmpty"@ != "replace"@,
        "isEmpty"@ != "valueOf"@,
        "isEmpty"@ != "reverse"@,
        "indexOf"@ != "replace"@,
        "indexOf"@ != "valueOf"@,
        "indexOf"@ != "reverse"@,
        "replace"@ != "valueOf"@,
        "replace"@ != "reverse"@,
        "valueOf"@ != "reverse"@,
        "contains"@ != "endsWith"@,
        "contains"@ != "toString"@,
        "contains"@ != "hashCode"@,
        "endsWith"@ != "toString"@,
        "endsWith"@ != "hashCode"@,
        "toString"@ != "hashCode"@,
        "substring"@ != "setLength"@,
        "lastIndexOf"@ != "toLowerCase"@,
        "lastIndexOf"@ != "toUpperCase"@,
        "toLowerCase"@ != "toUpperCase"@,
{
    reveal_strlit("length");
    reveal_strlit("isEmpty");
    reveal_strlit("contains");
    reveal_strlit("equals");
    reveal_strlit("startsWith");
    reveal_strlit("endsWith");
    reveal_strlit("charAt");
    reveal_strlit("indexOf");
    reveal_strlit("lastIndexOf");
    reveal_strlit("substring");
    reveal_strlit("concat");
    reveal_strlit("toString");
    reveal_strlit("equalsIgnoreCase");
    reveal_strlit("regionMatches");
    reveal_strlit("replace");
    reveal_strlit("trim");
    reveal_strlit("toLowerCase");
    reveal_strlit("toUpperCase");
    reveal_strlit("hashCode");
    reveal_strlit("valueOf");
    reveal_strlit("append");
    reveal_strlit("setLength");
    reveal_strlit("deleteCharAt");
    reveal_strlit("delete");
    reveal_strlit("insert");
    reveal_strlit("reverse");
    assert("length"@[0] != "equals"@[0]);
    assert("length"@[0] != "charAt"@[0]);
    assert("length"@[0] != "concat"@[0]);
    assert("length"@[0] != "append"@[0]);
    assert("length"@[0] != "delete"@[0]);
    assert("length"@[0] != "insert"@[0]);
    assert("equals"@[0] != "charAt"@[0]);
    assert("equals"@[0] != "concat"@[0]);
    assert("equals"@[0] != "append"@[0]);
    assert("equals"@[0] != "delete"@[0]);
    assert("equals"@[0] != "insert"@[0]);
    assert("charAt"@[1] != "concat"@[1]);
    assert("charAt"@[0] != "append"@[0]);
    assert("charAt"@[0] != "delete"@[0]);
    assert("charAt"@[0] != "insert"@[0]);
    assert("concat"@[0] != "append"@[0]);
    assert("concat"@[0] != "delete"@[0]);
    assert("concat"@[0] != "insert"@[0]);
    assert("append"@[0] != "delete"@[0]);
    assert("append"@[0] != "insert"@[0]);
    assert("delete"@[0] != "insert"@[0]);
    assert("isEmpty"@[1] != "indexOf"@[1]);
    assert("isEmpty"@[0] != "replace"@[0]);
    assert("isEmpty"@[0] != "valueOf"@[0]);
    assert("isEmpty"@[0] != "reverse"@[0]);
    assert("indexOf"@[0] != "replace"@[0]);
    assert("indexOf"@[0] != "valueOf"@[0]);
    assert("indexOf"@[0] != "reverse"@[0]);
    assert("replace"@[0] != "valueOf"@[0]);
    assert("replace"@[2] != "reverse"@[2]);
    assert("valueOf"@[0] != "reverse"@[0]);
    assert("contains"@[0] != "endsWith"@[0]);
    assert("contains"@[0] != "toString"@[0]);
    assert("contains"@[0] != "hashCode"@[0]);
    assert("endsWith"@[0] != "toString"@[0]);
    assert("endsWith"@[0] != "hashCode"@[0]);
    assert("toString"@[0] != "hashCode"@[0]);
    assert("substring"@[1] != "setLength"@[1]);
    assert("lastIndexOf"@[0] != "toLowerCase"@[0]);
    assert("lastIndexOf"@[0] != "toUpperCase"@[0]);
    assert("toLowerCase"@[2] != "toUpperCase"@[2]);
}

/// The methods that the names stand for.
proof fn lemma_names(d: Seq<char>)
    ensures
        method("length"@, d) == StrFn::Length,
        method("isEmpty"@, d) == StrFn::IsEmpty,
        method("contains"@, d) == StrFn::Contains,
        method("equals"@, d) == StrFn::Equals,
        method("startsWith"@, d) == StrFn::StartsWith,
        method("endsWith"@, d) == StrFn::EndsWith,
        method("charAt"@, d) == StrFn::CharAt,
        method("substring"@, d) == StrFn::Substring,
        method("concat"@, d) == StrFn::Concat,
        method("toString"@, d) == StrFn::ToStr,
        method("equalsIgnoreCase"@, d) == StrFn::EqualsIgnoreCase,
        method("toLowerCase"@, d) == StrFn::Lower,
        method("toUpperCase"@, d) == StrFn::Upper,
        method("append"@, d) == StrFn::AppendStr,
        method("setLength"@, d) == StrFn::SetLength,
        method("deleteCharAt"@, d) == StrFn::DeleteCharAt,
        method("delete"@, d) == StrFn::Delete,
        method("insert"@, d) == StrFn::InsertStr,
        method("indexOf"@, d) == if text::starts(d, "(I"@) {
            StrFn::IndexOfChar
        } else {
            StrFn::IndexOfStr
        },
        method("lastIndexOf"@, d) == if text::starts(d, "(I"@) {
            StrFn::LastIndexOfChar
        } else {
            StrFn::LastIndexOfStr
        },
        method("regionMatches"@, d) == if text::starts(d, "(ZI"@) {
            StrFn::RegionMatchesFold
        } else {
            StrFn::RegionMatches
        },
        text::starts(d, "(CC)"@) ==> method("replace"@, d) == StrFn::ReplaceChar,
        str_encode::takes_primitive(d) ==> method("valueOf"@, d) == StrFn::ValueOf(
            str_encode::text_of(d),
        ),
        str_encode::str_fn("append"@, d, false, false) == Some(
            StrFn::AppendValue(str_encode::text_of(d)),
        ),
        str_encode::str_fn("insert"@, d, false, false) == Some(StrFn::InsertValue),
{
    lemma_names_differ();
}

} // verus!
