//! Calls of methods on strings and string builders.

use vstd::prelude::*;

use super::formula;
use super::formula::flag;
use super::state::{Encoder, State};
use super::str_formula;
use super::str_formula::{
    change_case, encode_last_indexof, make_bool_text, make_char_str, make_head, make_len_bv,
    make_tail, region_bounds, region_equality, signed_bv_to_str,
};
use crate::ir;
use crate::ir::{Const, MethodKey, Operand};
use crate::term;
use crate::term::{Op1, Op2, Op3, Term, Terms, Tm};
use crate::text;
use crate::text::{contains, same, starts_with};

verus! {

/// How a value of a primitive type is written.
#[derive(Clone, Copy, Debug, PartialEq, Eq, Structural)]
pub enum TextOf {
    Bool,
    Char,
    Signed(u32),
}

/// A string method with a formula.
#[derive(Clone, Copy, Debug, PartialEq, Eq, Structural)]
pub enum StrFn {
    Length,
    IsEmpty,
    Contains,
    Equals,
    StartsWith,
    EndsWith,
    CharAt,
    IndexOfChar,
    IndexOfStr,
    LastIndexOfChar,
    LastIndexOfStr,
    Substring,
    Concat,
    ToStr,
    EqualsIgnoreCase,
    RegionMatches,
    RegionMatchesFold,
    ReplaceChar,
    Trim,
    Lower,
    Upper,
    Hash,
    ValueOf(TextOf),
    AppendStr,
    AppendValue(TextOf),
    SetLength,
    DeleteCharAt,
    Delete,
    InsertStr,
    InsertValue,
    Reverse,
}

/// How the value of the single parameter is written.
pub open spec fn text_of(d: Seq<char>) -> TextOf {
    if text::starts(d, "(Z)"@) {
        TextOf::Bool
    } else if text::starts(d, "(C)"@) {
        TextOf::Char
    } else if text::starts(d, "(J)"@) {
        TextOf::Signed(64)
    } else {
        TextOf::Signed(32)
    }
}

fn find_text_of(d: &str) -> (r: TextOf)
    ensures
        r == text_of(d@),
{
    if starts_with(d, "(Z)") {
        TextOf::Bool
    } else if starts_with(d, "(C)") {
        TextOf::Char
    } else if starts_with(d, "(J)") {
        TextOf::Signed(64)
    } else {
        TextOf::Signed(32)
    }
}

/// Is the parameter of a primitive type?
pub open spec fn takes_primitive(d: Seq<char>) -> bool {
    !text::starts(d, "(L"@) && !text::starts(d, "(["@)
}

/// The method a name stands for. `known1` and `known2` say whether the content
/// of the first and second argument after the receiver is known.
pub open spec fn str_fn(name: Seq<char>, d: Seq<char>, known1: bool, known2: bool) -> Option<StrFn> {
    let by_char = text::starts(d, "(I"@);
    if name == "length"@ {
        Some(StrFn::Length)
    } else if name == "isEmpty"@ {
        Some(StrFn::IsEmpty)
    } else if name == "contains"@ {
        Some(StrFn::Contains)
    } else if name == "equals"@ {
        Some(StrFn::Equals)
    } else if name == "startsWith"@ {
        Some(StrFn::StartsWith)
    } else if name == "endsWith"@ {
        Some(StrFn::EndsWith)
    } else if name == "charAt"@ {
        Some(StrFn::CharAt)
    } else if name == "indexOf"@ {
        Some(
            if by_char {
                StrFn::IndexOfChar
            } else {
                StrFn::IndexOfStr
            },
        )
    } else if name == "lastIndexOf"@ {
        Some(
            if by_char {
                StrFn::LastIndexOfChar
            } else {
                StrFn::LastIndexOfStr
            },
        )
    } else if name == "substring"@ {
        Some(StrFn::Substring)
    } else if name == "concat"@ {
        Some(StrFn::Concat)
    } else if name == "toString"@ {
        Some(StrFn::ToStr)
    } else if name == "equalsIgnoreCase"@ {
        Some(StrFn::EqualsIgnoreCase)
    } else if name == "regionMatches"@ {
        Some(
            if text::starts(d, "(ZI"@) {
                StrFn::RegionMatchesFold
            } else {
                StrFn::RegionMatches
            },
        )
    } else if name == "replace"@ {
        if text::starts(d, "(CC)"@) {
            Some(StrFn::ReplaceChar)
        } else {
            None
        }
    } else if name == "trim"@ {
        Some(StrFn::Trim)
    } else if name == "toLowerCase"@ {
        Some(StrFn::Lower)
    } else if name == "toUpperCase"@ {
        Some(StrFn::Upper)
    } else if name == "hashCode"@ {
        Some(StrFn::Hash)
    } else if name == "valueOf"@ {
        if takes_primitive(d) {
            Some(StrFn::ValueOf(text_of(d)))
        } else {
            None
        }
    } else if name == "append"@ {
        Some(
            if known1 {
                StrFn::AppendStr
            } else {
                StrFn::AppendValue(text_of(d))
            },
        )
    } else if name == "setLength"@ {
        Some(StrFn::SetLength)
    } else if name == "deleteCharAt"@ {
        Some(StrFn::DeleteCharAt)
    } else if name == "delete"@ {
        Some(StrFn::Delete)
    } else if name == "insert"@ {
        Some(
            if known2 {
                StrFn::InsertStr
            } else {
                StrFn::InsertValue
            },
        )
    } else if name == "reverse"@ {
        Some(StrFn::Reverse)
    } else {
        None
    }
}

/// The method a name stands for.
pub fn find_str_fn(target: &MethodKey, known1: bool, known2: bool) -> (r: Option<StrFn>)
    ensures
        r == str_fn(target.name@, target.desc@, known1, known2),
{
    let name = target.name.as_str();
    let d = target.desc.as_str();
    if same(name, "length") {
        Some(StrFn::Length)
    } else if same(name, "isEmpty") {
        Some(StrFn::IsEmpty)
    } else if same(name, "contains") {
        Some(StrFn::Contains)
    } else if same(name, "equals") {
        Some(StrFn::Equals)
    } else if same(name, "startsWith") {
        Some(StrFn::StartsWith)
    } else if same(name, "endsWith") {
        Some(StrFn::EndsWith)
    } else if same(name, "charAt") {
        Some(StrFn::CharAt)
    } else if same(name, "indexOf") {
        if starts_with(d, "(I") {
            Some(StrFn::IndexOfChar)
        } else {
            Some(StrFn::IndexOfStr)
        }
    } else if same(name, "lastIndexOf") {
        if starts_with(d, "(I") {
            Some(StrFn::LastIndexOfChar)
        } else {
            Some(StrFn::LastIndexOfStr)
        }
    } else if same(name, "substring") {
        Some(StrFn::Substring)
    } else if same(name, "concat") {
        Some(StrFn::Concat)
    } else if same(name, "toString") {
        Some(StrFn::ToStr)
    } else if same(name, "equalsIgnoreCase") {
        Some(StrFn::EqualsIgnoreCase)
    } else if same(name, "regionMatches") {
        if starts_with(d, "(ZI") {
            Some(StrFn::RegionMatchesFold)
        } else {
            Some(StrFn::RegionMatches)
        }
    } else if same(name, "replace") {
        if starts_with(d, "(CC)") {
            Some(StrFn::ReplaceChar)
        } else {
            None
        }
    } else if same(name, "trim") {
        Some(StrFn::Trim)
    } else if same(name, "toLowerCase") {
        Some(StrFn::Lower)
    } else if same(name, "toUpperCase") {
        Some(StrFn::Upper)
    } else if same(name, "hashCode") {
        Some(StrFn::Hash)
    } else if same(name, "valueOf") {
        if !starts_with(d, "(L") && !starts_with(d, "([") {
            Some(StrFn::ValueOf(find_text_of(d)))
        } else {
            None
        }
    } else if same(name, "append") {
        if known1 {
            Some(StrFn::AppendStr)
        } else {
            Some(StrFn::AppendValue(find_text_of(d)))
        }
    } else if same(name, "setLength") {
        Some(StrFn::SetLength)
    } else if same(name, "deleteCharAt") {
        Some(StrFn::DeleteCharAt)
    } else if same(name, "delete") {
        Some(StrFn::Delete)
    } else if same(name, "insert") {
        if known2 {
            Some(StrFn::InsertStr)
        } else {
            Some(StrFn::InsertValue)
        }
    } else if same(name, "reverse") {
        Some(StrFn::Reverse)
    } else {
        None
    }
}

/// The position of the argument whose content the method reads besides that of
/// the receiver.
pub open spec fn other_text(f: StrFn) -> Option<int> {
    match f {
        StrFn::Contains | StrFn::Equals | StrFn::StartsWith | StrFn::EndsWith | StrFn::IndexOfStr
        | StrFn::LastIndexOfStr | StrFn::Concat | StrFn::EqualsIgnoreCase | StrFn::AppendStr => Some(
            1,
        ),
        StrFn::RegionMatches | StrFn::InsertStr => Some(2),
        StrFn::RegionMatchesFold => Some(3),
        _ => None,
    }
}

fn find_other_text(f: StrFn) -> (r: Option<usize>)
    ensures
        match r {
            Some(i) => other_text(f) == Some(i as int),
            None => other_text(f) is None,
        },
{
    match f {
        StrFn::Contains | StrFn::Equals | StrFn::StartsWith | StrFn::EndsWith | StrFn::IndexOfStr
        | StrFn::LastIndexOfStr | StrFn::Concat | StrFn::EqualsIgnoreCase | StrFn::AppendStr => Some(
            1,
        ),
        StrFn::RegionMatches | StrFn::InsertStr => Some(2),
        StrFn::RegionMatchesFold => Some(3),
        _ => None,
    }
}

/// The positions of the arguments whose values the method reads, when it is
/// called with `n` arguments.
pub open spec fn value_args(f: StrFn, n: nat) -> Seq<usize> {
    match f {
        StrFn::StartsWith | StrFn::IndexOfStr | StrFn::LastIndexOfStr => if n > 2 {
            seq![2usize]
        } else {
            seq![]
        },
        StrFn::IndexOfChar | StrFn::LastIndexOfChar | StrFn::Substring => if n > 2 {
            seq![1usize, 2usize]
        } else {
            seq![1usize]
        },
        StrFn::CharAt => seq![1usize],
        StrFn::RegionMatches => seq![1usize, 3usize, 4usize],
        StrFn::RegionMatchesFold => seq![2usize, 4usize, 5usize, 1usize],
        StrFn::ReplaceChar => seq![1usize, 2usize],
        StrFn::ValueOf(_) | StrFn::AppendStr | StrFn::Reverse => seq![0usize],
        StrFn::AppendValue(_) | StrFn::SetLength | StrFn::DeleteCharAt | StrFn::InsertStr => seq![
            0usize,
            1usize,
        ],
        StrFn::Delete | StrFn::InsertValue => seq![0usize, 1usize, 2usize],
        _ => seq![],
    }
}

fn find_value_args(f: StrFn, n: usize) -> (r: Vec<usize>)
    ensures
        r@ == value_args(f, n as nat),
{
    let mut v: Vec<usize> = Vec::new();
    match f {
        StrFn::StartsWith | StrFn::IndexOfStr | StrFn::LastIndexOfStr => {
            if n > 2 {
                v.push(2);
            }
        },
        StrFn::IndexOfChar | StrFn::LastIndexOfChar | StrFn::Substring => {
            v.push(1);
            if n > 2 {
                v.push(2);
            }
        },
        StrFn::CharAt => {
            v.push(1);
        },
        StrFn::RegionMatches => {
            v.push(1);
            v.push(3);
            v.push(4);
        },
        StrFn::RegionMatchesFold => {
            v.push(2);
            v.push(4);
            v.push(5);
            v.push(1);
        },
        StrFn::ReplaceChar => {
            v.push(1);
            v.push(2);
        },
        StrFn::ValueOf(_) | StrFn::AppendStr | StrFn::Reverse => {
            v.push(0);
        },
        StrFn::AppendValue(_) | StrFn::SetLength | StrFn::DeleteCharAt | StrFn::InsertStr => {
            v.push(0);
            v.push(1);
        },
        StrFn::Delete | StrFn::InsertValue => {
            v.push(0);
            v.push(1);
            v.push(2);
        },
        _ => {},
    }
    proof {
        assert(v@ =~= value_args(f, n as nat));
    }
    v
}

/// The text of a value.
pub open spec fn value_text(k: TextOf, v: Tm) -> Tm {
    match k {
        TextOf::Bool => str_formula::bool_text(v),
        TextOf::Char => str_formula::char_str(v),
        TextOf::Signed(w) => str_formula::signed_text(v, w),
    }
}

fn make_value_text(ts: &mut Terms, k: TextOf, v: Term) -> (t: Term)
    requires
        old(ts).well_formed(),
        old(ts).has(v),
    ensures
        final(ts).built_from(*old(ts)),
        final(ts).has(t),
        final(ts).tm(t) == value_text(k, old(ts).tm(v)),
{
    match k {
        TextOf::Bool => make_bool_text(ts, v),
        TextOf::Char => make_char_str(ts, v),
        TextOf::Signed(w) => signed_bv_to_str(ts, v, w),
    }
}

/// The result of a method and, where that is a string, its content, given the
/// content `s` of the receiver, the content `t` of the other string, the values
/// `b` of the arguments and the symbol `x` for a content left open.
pub open spec fn str_value(f: StrFn, s: Tm, t: Tm, b: Seq<Tm>, x: Tm) -> (Tm, Option<Tm>) {
    let one = term::bv32(1);
    match f {
        StrFn::Length => (str_formula::len_bv(s), None),
        StrFn::IsEmpty => (
            formula::flag_tm(term::tm_eq(str_formula::len_tm(s), Tm::Num(0))),
            None,
        ),
        StrFn::Contains => (formula::flag_tm(term::t2(Op2::StrContains, s, t)), None),
        StrFn::Equals => (formula::flag_tm(term::t2(Op2::StrEq, s, t)), None),
        StrFn::StartsWith => (
            formula::flag_tm(
                term::t2(
                    Op2::StrPrefixOf,
                    t,
                    if b.len() > 0 {
                        str_formula::tail(s, b[0])
                    } else {
                        s
                    },
                ),
            ),
            None,
        ),
        StrFn::EndsWith => (formula::flag_tm(term::t2(Op2::StrSuffixOf, t, s)), None),
        StrFn::CharAt => (
            str_formula::to_bv(
                term::t1(Op1::StrToCode, term::t2(Op2::StrAt, s, str_formula::to_num(b[0]))),
            ),
            None,
        ),
        StrFn::IndexOfChar => (
            str_formula::to_bv(
                str_formula::index_of(
                    s,
                    str_formula::char_str(b[0]),
                    if b.len() > 1 {
                        str_formula::to_num(b[1])
                    } else {
                        Tm::Num(0)
                    },
                ),
            ),
            None,
        ),
        StrFn::IndexOfStr => (
            str_formula::to_bv(
                str_formula::index_of(
                    s,
                    t,
                    if b.len() > 0 {
                        str_formula::to_num(b[0])
                    } else {
                        Tm::Num(0)
                    },
                ),
            ),
            None,
        ),
        StrFn::LastIndexOfChar => (
            str_formula::last_index_tm(
                s,
                str_formula::char_str(b[0]),
                if b.len() > 1 {
                    Some(str_formula::to_num(b[1]))
                } else {
                    None
                },
            ),
            None,
        ),
        StrFn::LastIndexOfStr => (
            str_formula::last_index_tm(
                s,
                t,
                if b.len() > 0 {
                    Some(str_formula::to_num(b[0]))
                } else {
                    None
                },
            ),
            None,
        ),
        StrFn::Substring => (
            one,
            Some(
                if b.len() > 1 {
                    str_formula::part(
                        s,
                        str_formula::to_num(b[0]),
                        str_formula::to_num(formula::minus(b[1], b[0])),
                    )
                } else {
                    str_formula::tail(s, b[0])
                },
            ),
        ),
        StrFn::Concat => (one, Some(str_formula::joined(s, t))),
        StrFn::ToStr => (one, Some(s)),
        StrFn::EqualsIgnoreCase => (
            formula::flag_tm(
                term::t2(Op2::StrEq, str_formula::cased(true, s), str_formula::cased(true, t)),
            ),
            None,
        ),
        StrFn::RegionMatches => (
            formula::flag_tm(
                term::tm_and(
                    str_formula::region_fits(s, t, b[0], b[1], b[2]),
                    str_formula::regions_equal(s, t, b[0], b[1], b[2], None),
                ),
            ),
            None,
        ),
        StrFn::RegionMatchesFold => (
            formula::flag_tm(
                term::tm_and(
                    str_formula::region_fits(s, t, b[0], b[1], b[2]),
                    str_formula::regions_equal(s, t, b[0], b[1], b[2], Some(b[3])),
                ),
            ),
            None,
        ),
        StrFn::ReplaceChar => (
            one,
            Some(
                term::t3(
                    Op3::StrReplaceAll,
                    s,
                    str_formula::char_str(b[0]),
                    str_formula::char_str(b[1]),
                ),
            ),
        ),
        StrFn::Trim => (one, Some(x)),
        StrFn::Lower => (one, Some(str_formula::cased(true, s))),
        StrFn::Upper => (one, Some(str_formula::cased(false, s))),
        StrFn::Hash => (x, None),
        StrFn::ValueOf(k) => (one, Some(value_text(k, b[0]))),
        StrFn::AppendStr => (b[0], Some(str_formula::joined(s, t))),
        StrFn::AppendValue(k) => (b[0], Some(str_formula::joined(s, value_text(k, b[1])))),
        StrFn::SetLength => (b[0], Some(str_formula::head(s, b[1]))),
        StrFn::DeleteCharAt => (
            b[0],
            Some(
                str_formula::joined(
                    str_formula::head(s, b[1]),
                    str_formula::tail(s, formula::plus(b[1], one)),
                ),
            ),
        ),
        StrFn::Delete => (
            b[0],
            Some(str_formula::joined(str_formula::head(s, b[1]), str_formula::tail(s, b[2]))),
        ),
        StrFn::InsertStr => (
            b[0],
            Some(
                str_formula::joined(
                    str_formula::joined(str_formula::head(s, b[1]), t),
                    str_formula::tail(s, b[1]),
                ),
            ),
        ),
        StrFn::InsertValue => (
            b[0],
            Some(
                str_formula::joined(
                    str_formula::joined(
                        str_formula::head(s, b[1]),
                        str_formula::signed_text(b[2], 32),
                    ),
                    str_formula::tail(s, b[1]),
                ),
            ),
        ),
        StrFn::Reverse => (b[0], Some(x)),
    }
}

/// What is asserted of a content `x` left open.
pub open spec fn str_facts(f: StrFn, s: Tm, x: Tm) -> Seq<Tm> {
    match f {
        StrFn::Trim => seq![
            formula::sle(str_formula::len_bv(x), str_formula::len_bv(s)),
            term::t2(Op2::StrContains, s, x),
        ],
        StrFn::Reverse => seq![term::tm_eq(str_formula::len_tm(x), str_formula::len_tm(s))],
        _ => seq![],
    }
}

/// The symbol for what is left open is one that the store did not have before.
pub open spec fn str_open(f: StrFn, old: Terms, x: Tm) -> bool {
    match f {
        StrFn::Trim => x matches Tm::FreshStr(at, n) && at >= old.size() && n == "trimmed"@,
        StrFn::Reverse => x matches Tm::FreshStr(at, n) && at >= old.size() && n == "reversed"@,
        StrFn::Hash => x matches Tm::FreshBv(at, n, w) && at >= old.size() && n == "hash"@ && w == 32,
        _ => true,
    }
}

/// Which part of the result is the symbol for what is left open.
pub open spec fn open_part(f: StrFn, r: (Tm, Option<Tm>)) -> Tm {
    match f {
        StrFn::Hash => r.0,
        _ => r.1->0,
    }
}

/// The trees of a result.
pub open spec fn pair_tm(ts: Terms, r: (Term, Option<Term>)) -> (Tm, Option<Tm>) {
    (ts.tm(r.0), ts.tm_opt(r.1))
}

/// Every handle of the list is one of the store.
pub open spec fn all_in(ts: Terms, v: Seq<Term>) -> bool {
    forall|i: int| 0 <= i < v.len() ==> ts.has(#[trigger] v[i])
}

/// Are there as many values as the method reads?
pub open spec fn enough(f: StrFn, n: nat) -> bool {
    match f {
        StrFn::IndexOfChar | StrFn::LastIndexOfChar | StrFn::Substring | StrFn::CharAt
        | StrFn::ValueOf(_) | StrFn::AppendStr | StrFn::Reverse => n >= 1,
        StrFn::ReplaceChar | StrFn::AppendValue(_) | StrFn::SetLength | StrFn::DeleteCharAt
        | StrFn::InsertStr => n >= 2,
        StrFn::RegionMatches | StrFn::Delete | StrFn::InsertValue => n >= 3,
        StrFn::RegionMatchesFold => n >= 4,
        _ => true,
    }
}

/// Build the formula of a search in a string.
fn build_search(ts: &mut Terms, f: StrFn, s: Term, t: Term, b: &Vec<Term>) -> (r: Term)
    requires
        old(ts).well_formed(),
        old(ts).has(s),
        old(ts).has(t),
        all_in(*old(ts), b@),
        enough(f, b@.len()),
        f == StrFn::IndexOfChar || f == StrFn::IndexOfStr || f == StrFn::LastIndexOfChar || f
            == StrFn::LastIndexOfStr,
    ensures
        final(ts).built_from(*old(ts)),
        final(ts).has(r),
        forall|x: Tm|
            #[trigger] str_value(f, old(ts).tm(s), old(ts).tm(t), formula::trees(*old(ts), b@), x)
                == (final(ts).tm(r), None::<Tm>),
{
    let by_char = match f {
        StrFn::IndexOfChar | StrFn::LastIndexOfChar => true,
        _ => false,
    };
    let from_at: usize = if by_char {
        1
    } else {
        0
    };
    let needle = if by_char {
        make_char_str(ts, b[0])
    } else {
        t
    };
    let from = if b.len() > from_at {
        Some(ts.app1(Op1::Bv32ToInt, b[from_at]))
    } else {
        None
    };
    match f {
        StrFn::IndexOfChar | StrFn::IndexOfStr => {
            let start = match from {
                Some(x) => x,
                None => ts.int_number(0),
            };
            let at = ts.app3(Op3::StrIndexOf, s, needle, start);
            ts.app1(Op1::IntToBv32, at)
        },
        _ => encode_last_indexof(ts, s, needle, from),
    }
}

/// Build the formula of a yes-or-no question.
fn build_question(ts: &mut Terms, f: StrFn, s: Term, t: Term, b: &Vec<Term>) -> (r: Term)
    requires
        old(ts).well_formed(),
        old(ts).has(s),
        old(ts).has(t),
        all_in(*old(ts), b@),
        enough(f, b@.len()),
        f == StrFn::IsEmpty || f == StrFn::Contains || f == StrFn::Equals || f == StrFn::StartsWith
            || f == StrFn::EndsWith || f == StrFn::EqualsIgnoreCase || f == StrFn::RegionMatches
            || f == StrFn::RegionMatchesFold,
    ensures
        final(ts).built_from(*old(ts)),
        final(ts).has(r),
        forall|x: Tm|
            #[trigger] str_value(f, old(ts).tm(s), old(ts).tm(t), formula::trees(*old(ts), b@), x)
                == (final(ts).tm(r), None::<Tm>),
{
    let c = match f {
        StrFn::IsEmpty => {
            let n = ts.app1(Op1::StrLen, s);
            let zero = ts.int_number(0);
            ts.equal(n, zero)
        },
        StrFn::Contains => ts.app2(Op2::StrContains, s, t),
        StrFn::Equals => ts.app2(Op2::StrEq, s, t),
        StrFn::StartsWith => {
            let whole = if b.len() > 0 {
                make_tail(ts, s, b[0])
            } else {
                s
            };
            ts.app2(Op2::StrPrefixOf, t, whole)
        },
        StrFn::EndsWith => ts.app2(Op2::StrSuffixOf, t, s),
        StrFn::EqualsIgnoreCase => {
            let ls = change_case(ts, true, s);
            let lt = change_case(ts, true, t);
            ts.app2(Op2::StrEq, ls, lt)
        },
        _ => {
            let fold = match f {
                StrFn::RegionMatchesFold => Some(b[3]),
                _ => None,
            };
            let inside = region_bounds(ts, s, t, b[0], b[1], b[2]);
            let eq = region_equality(ts, s, t, b[0], b[1], b[2], fold);
            ts.app2(Op2::And, inside, eq)
        },
    };
    flag(ts, c)
}

/// Build the content of a string result.
fn build_content(ts: &mut Terms, f: StrFn, s: Term, t: Term, b: &Vec<Term>) -> (r: Term)
    requires
        old(ts).well_formed(),
        old(ts).has(s),
        old(ts).has(t),
        all_in(*old(ts), b@),
        enough(f, b@.len()),
        f != StrFn::Trim && f != StrFn::Reverse,
    ensures
        final(ts).built_from(*old(ts)),
        final(ts).has(r),
        forall|x: Tm|
            (#[trigger] str_value(
                f,
                old(ts).tm(s),
                old(ts).tm(t),
                formula::trees(*old(ts), b@),
                x,
            )).1 is Some ==> str_value(
                f,
                old(ts).tm(s),
                old(ts).tm(t),
                formula::trees(*old(ts), b@),
                x,
            ).1 == Some(final(ts).tm(r)),
{
    match f {
        StrFn::Substring => {
            if b.len() > 1 {
                let start = ts.app1(Op1::Bv32ToInt, b[0]);
                let diff = ts.app2(Op2::BvSub, b[1], b[0]);
                let n = ts.app1(Op1::Bv32ToInt, diff);
                ts.app3(Op3::StrSubstr, s, start, n)
            } else {
                make_tail(ts, s, b[0])
            }
        },
        StrFn::Concat | StrFn::AppendStr => ts.app2(Op2::StrConcat, s, t),
        StrFn::ReplaceChar => {
            let x = make_char_str(ts, b[0]);
            let y = make_char_str(ts, b[1]);
            ts.app3(Op3::StrReplaceAll, s, x, y)
        },
        StrFn::Lower => change_case(ts, true, s),
        StrFn::Upper => change_case(ts, false, s),
        StrFn::ValueOf(k) => make_value_text(ts, k, b[0]),
        StrFn::AppendValue(k) => {
            let x = make_value_text(ts, k, b[1]);
            ts.app2(Op2::StrConcat, s, x)
        },
        StrFn::SetLength => make_head(ts, s, b[1]),
        StrFn::DeleteCharAt => {
            let before = make_head(ts, s, b[1]);
            let one = ts.bv_const(1, 32);
            let next = ts.app2(Op2::BvAdd, b[1], one);
            let after = make_tail(ts, s, next);
            ts.app2(Op2::StrConcat, before, after)
        },
        StrFn::Delete => {
            let before = make_head(ts, s, b[1]);
            let after = make_tail(ts, s, b[2]);
            ts.app2(Op2::StrConcat, before, after)
        },
        StrFn::InsertStr => {
            let before = make_head(ts, s, b[1]);
            let after = make_tail(ts, s, b[1]);
            let tmp = ts.app2(Op2::StrConcat, before, t);
            ts.app2(Op2::StrConcat, tmp, after)
        },
        StrFn::InsertValue => {
            let before = make_head(ts, s, b[1]);
            let after = make_tail(ts, s, b[1]);
            let x = signed_bv_to_str(ts, b[2], 32);
            let tmp = ts.app2(Op2::StrConcat, before, x);
            ts.app2(Op2::StrConcat, tmp, after)
        },
        _ => s,
    }
}

/// Build the formula of a string method.
pub fn build_str(ts: &mut Terms, f: StrFn, s: Term, t: Term, b: &Vec<Term>) -> (r: (
    Term,
    Option<Term>,
))
    requires
        old(ts).well_formed(),
        old(ts).has(s),
        old(ts).has(t),
        all_in(*old(ts), b@),
        enough(f, b@.len()),
    ensures
        final(ts).has(r.0),
        final(ts).has_opt(r.1),
        ({
            let x = open_part(f, pair_tm(*final(ts), r));
            &&& str_open(f, *old(ts), x)
            &&& final(ts).stated_from(*old(ts), str_facts(f, old(ts).tm(s), x))
            &&& pair_tm(*final(ts), r) == str_value(
                f,
                old(ts).tm(s),
                old(ts).tm(t),
                formula::trees(*old(ts), b@),
                x,
            )
        }),
{
    let r = match f {
        StrFn::Length => (make_len_bv(ts, s), None),
        StrFn::CharAt => {
            let i = ts.app1(Op1::Bv32ToInt, b[0]);
            let c = ts.app2(Op2::StrAt, s, i);
            let code = ts.app1(Op1::StrToCode, c);
            (ts.app1(Op1::IntToBv32, code), None)
        },
        StrFn::IndexOfChar | StrFn::IndexOfStr | StrFn::LastIndexOfChar | StrFn::LastIndexOfStr => (
            build_search(ts, f, s, t, b),
            None,
        ),
        StrFn::IsEmpty | StrFn::Contains | StrFn::Equals | StrFn::StartsWith | StrFn::EndsWith
        | StrFn::EqualsIgnoreCase | StrFn::RegionMatches | StrFn::RegionMatchesFold => (
            build_question(ts, f, s, t, b),
            None,
        ),
        StrFn::Hash => (ts.fresh_bv("hash", 32), None),
        StrFn::Trim => {
            let one = ts.bv_const(1, 32);
            let x = ts.fresh_str("trimmed");
            let xn = make_len_bv(ts, x);
            let sn = make_len_bv(ts, s);
            let le = ts.app2(Op2::BvSle, xn, sn);
            let ghost m1 = *ts;
            ts.insist(le);
            let ghost m2 = *ts;
            let part = ts.app2(Op2::StrContains, s, x);
            let ghost m3 = *ts;
            ts.insist(part);
            proof {
                m1.lemma_built_states(*old(ts));
                m2.lemma_state_more(m1, *old(ts), seq![], le);
                m3.lemma_state_then_build(m2, *old(ts), seq![].push(m1.tm(le)));
                ts.lemma_state_more(m3, *old(ts), seq![].push(m1.tm(le)), part);
                assert(seq![].push(m1.tm(le)).push(m3.tm(part)) =~= str_facts(
                    f,
                    old(ts).tm(s),
                    ts.tm(x),
                ));
            }
            return (one, Some(x));
        },
        StrFn::Reverse => {
            let x = ts.fresh_str("reversed");
            let xn = ts.app1(Op1::StrLen, x);
            let sn = ts.app1(Op1::StrLen, s);
            let eq = ts.equal(xn, sn);
            let ghost m1 = *ts;
            ts.insist(eq);
            proof {
                m1.lemma_built_states(*old(ts));
                ts.lemma_state_more(m1, *old(ts), seq![], eq);
                assert(seq![].push(m1.tm(eq)) =~= str_facts(f, old(ts).tm(s), ts.tm(x)));
            }
            return (b[0], Some(x));
        },
        StrFn::AppendStr | StrFn::AppendValue(_) | StrFn::SetLength | StrFn::DeleteCharAt
        | StrFn::Delete | StrFn::InsertStr | StrFn::InsertValue => {
            let content = build_content(ts, f, s, t, b);
            (b[0], Some(content))
        },
        _ => {
            let one = ts.bv_const(1, 32);
            let ghost mid = *ts;
            let content = build_content(ts, f, s, t, b);
            proof {
                assert(formula::trees(mid, b@) =~= formula::trees(*old(ts), b@));
            }
            (one, Some(content))
        },
    };
    proof {
        ts.lemma_built_states(*old(ts));
        assert(str_facts(f, old(ts).tm(s), open_part(f, pair_tm(*ts, r))) =~= Seq::<Tm>::empty());
    }
    r
}

/// Is the content of argument `i` known?
pub open spec fn text_known(e: Encoder, args: Seq<Operand>, i: int) -> bool {
    i < args.len() && e.str_tm(args[i]) is Some
}

/// The method a call names.
pub open spec fn str_case(e: Encoder, target: MethodKey, args: Seq<Operand>) -> Option<StrFn> {
    str_fn(target.name@, target.desc@, text_known(e, args, 1), text_known(e, args, 2))
}

/// Are the contents known that the method reads?
pub open spec fn texts_known(e: Encoder, f: StrFn, args: Seq<Operand>) -> bool {
    &&& f is ValueOf || text_known(e, args, 0)
    &&& other_text(f) matches Some(i) ==> text_known(e, args, i)
}

/// Is a value of the single parameter written as the method writes it? A float, a
/// double or an object is not.
pub open spec fn written(d: Seq<char>) -> bool {
    text::starts(d, "(Z)"@) || text::starts(d, "(C)"@) || text::starts(d, "(J)"@) || text::starts(
        d,
        "(I)"@,
    )
}

/// Does the formula of the method say what its result is? The results of `trim`,
/// `reverse` and `hashCode` are left open.
pub open spec fn str_exact(f: StrFn, d: Seq<char>) -> bool {
    match f {
        StrFn::Trim | StrFn::Reverse | StrFn::Hash => false,
        StrFn::ValueOf(_) | StrFn::AppendValue(_) => written(d),
        StrFn::InsertValue => text::starts(d, "(II)"@),
        _ => true,
    }
}

fn says_all(f: StrFn, d: &str) -> (r: bool)
    ensures
        r == str_exact(f, d@),
{
    match f {
        StrFn::Trim | StrFn::Reverse | StrFn::Hash => false,
        StrFn::ValueOf(_) | StrFn::AppendValue(_) => starts_with(d, "(Z)") || starts_with(d, "(C)")
            || starts_with(d, "(J)") || starts_with(d, "(I)"),
        StrFn::InsertValue => starts_with(d, "(II)"),
        _ => true,
    }
}

/// Is there a precise formula for a call of a string method?
pub open spec fn str_modelled(e: Encoder, target: MethodKey, args: Seq<Operand>) -> bool {
    str_case(e, target, args) matches Some(f) && texts_known(e, f, args) && str_exact(
        f,
        target.desc@,
    )
}

/// Are the arguments there whose values the method reads?
pub open spec fn values_given(f: StrFn, n: nat) -> bool {
    forall|j: int| 0 <= j < value_args(f, n).len() ==> (#[trigger] value_args(f, n)[j]) < n
}

/// The values of the arguments at the given positions.
pub open spec fn arg_trees(e: Encoder, args: Seq<Operand>, at: Seq<usize>) -> Seq<Tm> {
    Seq::new(at.len(), |j: int| e.operand_tm(args[at[j] as int]))
}

/// The result of a call that is encoded.
pub open spec fn str_outcome(
    e: Encoder,
    old: Encoder,
    f: StrFn,
    args: Seq<Operand>,
    r: (Term, Option<Term>),
) -> bool {
    let x = open_part(f, pair_tm(e.terms, r));
    let s = old.str_tm(args[0])->0;
    let t = old.str_tm(args[other_text(f)->0])->0;
    &&& str_open(f, old.terms, x)
    &&& e.extended_from(old, str_facts(f, s, x))
    &&& forall|j: int|
        0 <= j < value_args(f, args.len()).len() ==> e.knows(
            args[#[trigger] value_args(f, args.len())[j] as int],
        )
    &&& pair_tm(e.terms, r) == str_value(
        f,
        s,
        t,
        arg_trees(e, args, value_args(f, args.len())),
        x,
    )
}

proof fn lemma_enough(f: StrFn, n: nat)
    ensures
        enough(f, value_args(f, n).len()),
{
}

impl<'a> Encoder<'a> {
    /// As [`Encoder::settled_from`], where the formulas `facts` were asserted too.
    pub open spec fn extended_from(self, old: Encoder<'a>, facts: Seq<Tm>) -> bool {
        &&& self.ok()
        &&& self.same_frame(old)
        &&& self.terms.stated_from(old.terms, facts)
        &&& self.vars_settled(old)
        &&& self.st == State { vars: self.st.vars, ..old.st }
    }

    /// Stating formulas after settling variables.
    pub proof fn lemma_settle_then_state(
        self,
        mid: Encoder<'a>,
        old: Encoder<'a>,
        facts: Seq<Tm>,
    )
        requires
            old.ok(),
            mid.settled_from(old),
            self == (Encoder { terms: self.terms, ..mid }),
            self.terms.stated_from(mid.terms, facts),
        ensures
            self.extended_from(old, facts),
    {
        self.terms.lemma_build_then_state(mid.terms, old.terms, facts);
        mid.st.lemma_fits(mid.body.vars@.len(), mid.terms);
        mid.st.lemma_fits_grown(mid.body.vars@.len(), mid.terms, self.terms);
        assert forall|i: int|
            0 <= i < self.st.vars@.len() && old.st.vars@[i] is None && (
            #[trigger] self.st.vars@[i]) is Some implies {
            &&& (self.st.vars@[i]->0).pos() >= old.terms.size()
            &&& self.terms.tm(self.st.vars@[i]->0) == Tm::FreshBv(
                (self.st.vars@[i]->0).pos(),
                super::state::uninit_name(crate::ir::VarId(i as u32)),
                self.var_width(crate::ir::VarId(i as u32)),
            )
        } by {
            assert(mid.terms.has_opt(mid.st.vars@[i]));
            assert(mid.terms.has(mid.st.vars@[i]->0));
        }
    }

    /// The tree of an operand is the same in every store grown from this one.
    pub proof fn lemma_operand_kept(self, mid: Encoder<'a>, op: Operand)
        requires
            mid.ok(),
            op.in_range(mid.body.vars@.len()),
            mid.knows(op),
            self.st.vars == mid.st.vars,
            self.terms.grown_from(mid.terms),
        ensures
            self.knows(op),
            self.operand_tm(op) == mid.operand_tm(op),
    {
        mid.st.lemma_fits(mid.body.vars@.len(), mid.terms);
        if let Operand::Var(v) = op {
            assert(mid.terms.has_opt(mid.st.vars@[v.0 as int]));
            assert(mid.terms.has(mid.st.vars@[v.0 as int]->0));
        }
    }

    /// The content of a string does not depend on what is settled.
    proof fn lemma_text_stable(self, old: Encoder<'a>, op: Operand)
        requires
            old.ok(),
            op.in_range(old.body.vars@.len()),
            self.st.str_vars == old.st.str_vars,
            self.terms.built_from(old.terms),
        ensures
            self.str_tm(op) == old.str_tm(op),
    {
        old.st.lemma_fits(old.body.vars@.len(), old.terms);
        if let Operand::Var(v) = op {
            assert(old.terms.has_opt(old.st.str_vars@[v.0 as int]));
        }
    }

    /// Is the content of argument `i` known?
    fn knows_text(&self, args: &Vec<Operand>, i: usize) -> (r: bool)
        requires
            self.ok(),
            ir::operands_in_range(args@, self.body.vars@.len()),
        ensures
            r == text_known(*self, args@, i as int),
    {
        proof {
            self.st.lemma_fits(self.body.vars@.len(), self.terms);
        }
        if i >= args.len() {
            return false;
        }
        proof {
            assert(args@[i as int].in_range(self.body.vars@.len()));
        }
        match &args[i] {
            Operand::Var(v) => self.st.str_vars[v.0 as usize].is_some(),
            Operand::Const(Const::Str(_)) => true,
            _ => false,
        }
    }

    fn knows_texts(&self, f: StrFn, args: &Vec<Operand>) -> (r: bool)
        requires
            self.ok(),
            ir::operands_in_range(args@, self.body.vars@.len()),
        ensures
            r == texts_known(*self, f, args@),
    {
        let by_value = match f {
            StrFn::ValueOf(_) => true,
            _ => false,
        };
        if !by_value && !self.knows_text(args, 0) {
            return false;
        }
        match find_other_text(f) {
            Some(i) => self.knows_text(args, i),
            None => true,
        }
    }

    /// Is there a precise formula for a call of a string method? That asks for the
    /// contents that the method reads to be known.
    pub fn str_call_modelled(&self, target: &MethodKey, args: &Vec<Operand>) -> (r: bool)
        requires
            self.ok(),
            ir::operands_in_range(args@, self.body.vars@.len()),
        ensures
            r == str_modelled(*self, *target, args@),
    {
        let known1 = self.knows_text(args, 1);
        let known2 = self.knows_text(args, 2);
        match find_str_fn(target, known1, known2) {
            Some(f) => self.knows_texts(f, args) && says_all(f, target.desc.as_str()),
            None => false,
        }
    }

    /// The values of the arguments at the given positions.
    fn encode_values(&mut self, args: &Vec<Operand>, at: &Vec<usize>) -> (r: Vec<Term>)
        requires
            old(self).ok(),
            ir::operands_in_range(args@, old(self).body.vars@.len()),
            forall|j: int| 0 <= j < at@.len() ==> (#[trigger] at@[j]) < args@.len(),
        ensures
            final(self).settled_from(*old(self)),
            all_in(final(self).terms, r@),
            forall|j: int| 0 <= j < at@.len() ==> final(self).knows(args@[#[trigger] at@[j] as int]),
            formula::trees(final(self).terms, r@) == arg_trees(*final(self), args@, at@),
    {
        let mut r: Vec<Term> = Vec::new();
        proof {
            self.lemma_built_settles(*self);
        }
        let mut k: usize = 0;
        while k < at.len()
            invariant
                k <= at@.len(),
                r@.len() == k,
                old(self).ok(),
                self.settled_from(*old(self)),
                ir::operands_in_range(args@, old(self).body.vars@.len()),
                forall|j: int| 0 <= j < at@.len() ==> (#[trigger] at@[j]) < args@.len(),
                all_in(self.terms, r@),
                forall|j: int| 0 <= j < k ==> self.knows(args@[#[trigger] at@[j] as int]),
                forall|j: int|
                    0 <= j < k ==> self.terms.tm(#[trigger] r@[j]) == self.operand_tm(
                        args@[at@[j] as int],
                    ),
            decreases at@.len() - k,
        {
            let ghost mid = *self;
            let ghost done = r@;
            let i = at[k];
            proof {
                assert(args@[i as int].in_range(self.body.vars@.len()));
            }
            let t = self.encode_operand(&args[i]);
            r.push(t);
            proof {
                self.lemma_settled_trans(mid, *old(self));
                assert forall|j: int| 0 <= j < r@.len() implies self.terms.has(#[trigger] r@[j]) by {
                    if j < k {
                        assert(mid.terms.has(done[j]));
                    }
                }
                assert forall|j: int| 0 <= j <= k implies self.knows(
                    args@[#[trigger] at@[j] as int],
                ) by {
                    if j < k {
                        assert(args@[at@[j] as int].in_range(mid.body.vars@.len()));
                        self.lemma_operand_stable(mid, args@[at@[j] as int]);
                    }
                }
                assert forall|j: int| 0 <= j <= k implies self.terms.tm(#[trigger] r@[j])
                    == self.operand_tm(args@[at@[j] as int]) by {
                    if j < k {
                        assert(args@[at@[j] as int].in_range(mid.body.vars@.len()));
                        assert(mid.knows(args@[at@[j] as int]));
                        self.lemma_operand_stable(mid, args@[at@[j] as int]);
                        assert(mid.terms.has(done[j]));
                        assert(r@[j] == done[j]);
                    }
                }
            }
            k += 1;
        }
        proof {
            assert(formula::trees(self.terms, r@) =~= arg_trees(*self, args@, at@));
        }
        r
    }

    /// Encode a call of a string method: the value of its result and, where that
    /// is a string, its content. A call is encoded when the contents it reads
    /// are known and the arguments are there.
    pub fn encode_str_call(&mut self, target: &MethodKey, args: &Vec<Operand>) -> (r: Option<
        (Term, Option<Term>),
    >)
        requires
            old(self).ok(),
            ir::operands_in_range(args@, old(self).body.vars@.len()),
        ensures
            r is Some <==> (str_case(*old(self), *target, args@) matches Some(f) && texts_known(
                *old(self),
                f,
                args@,
            ) && values_given(f, args@.len())),
            match r {
                None => *final(self) == *old(self),
                Some(p) => {
                    &&& final(self).terms.has(p.0)
                    &&& final(self).terms.has_opt(p.1)
                    &&& str_outcome(
                        *final(self),
                        *old(self),
                        str_case(*old(self), *target, args@)->0,
                        args@,
                        p,
                    )
                },
            },
    {
        let known1 = self.knows_text(args, 1);
        let known2 = self.knows_text(args, 2);
        let f = match find_str_fn(target, known1, known2) {
            Some(f) => f,
            None => {
                return None;
            },
        };
        if !self.knows_texts(f, args) {
            return None;
        }
        let at = find_value_args(f, args.len());
        let mut j: usize = 0;
        while j < at.len()
            invariant
                *self == *old(self),
                j <= at@.len(),
                at@ == value_args(f, args@.len()),
                Some(f) == str_case(*old(self), *target, args@),
                forall|i: int| 0 <= i < j ==> (#[trigger] at@[i]) < args@.len(),
            decreases at@.len() - j,
        {
            if at[j] >= args.len() {
                proof {
                    assert(value_args(f, args@.len())[j as int] >= args@.len());
                }
                return None;
            }
            j += 1;
        }
        let b = self.encode_values(args, &at);
        let ghost settled = *self;
        let has_receiver = match f {
            StrFn::ValueOf(_) => false,
            _ => true,
        };
        let s = if has_receiver {
            proof {
                assert(args@[0].in_range(self.body.vars@.len()));
                self.lemma_text_stable(*old(self), args@[0]);
            }
            match self.encode_str_operand(&args[0]) {
                Some(s) => s,
                None => self.terms.str_const(""),
            }
        } else {
            self.terms.str_const("")
        };
        let ghost with_s = *self;
        proof {
            self.lemma_built_settles(settled);
            self.lemma_settled_trans(settled, *old(self));
        }
        let t = match find_other_text(f) {
            Some(i) => {
                proof {
                    assert(args@[i as int].in_range(self.body.vars@.len()));
                    self.lemma_text_stable(*old(self), args@[i as int]);
                }
                match self.encode_str_operand(&args[i]) {
                    Some(t) => t,
                    None => s,
                }
            },
            None => s,
        };
        let ghost mid = *self;
        proof {
            self.lemma_built_settles(with_s);
            self.lemma_settled_trans(with_s, *old(self));
            lemma_enough(f, args@.len());
            assert(formula::trees(settled.terms, b@).len() == b@.len());
            assert forall|k: int| 0 <= k < b@.len() implies self.terms.has(#[trigger] b@[k]) by {
                assert(settled.terms.has(b@[k]));
            }
            assert(formula::trees(self.terms, b@) =~= formula::trees(settled.terms, b@));
        }
        let r = build_str(&mut self.terms, f, s, t, &b);
        proof {
            let x = open_part(f, pair_tm(self.terms, r));
            self.lemma_settle_then_state(mid, *old(self), str_facts(f, mid.terms.tm(s), x));
            assert forall|k: int| 0 <= k < at@.len() implies self.knows(
                args@[#[trigger] at@[k] as int],
            ) by {
                assert(args@[at@[k] as int].in_range(settled.body.vars@.len()));
                self.lemma_operand_kept(settled, args@[at@[k] as int]);
            }
            assert(arg_trees(*self, args@, at@) =~= arg_trees(settled, args@, at@)) by {
                assert forall|k: int| 0 <= k < at@.len() implies arg_trees(*self, args@, at@)[k]
                    == arg_trees(settled, args@, at@)[k] by {
                    assert(args@[at@[k] as int].in_range(settled.body.vars@.len()));
                    assert(settled.knows(args@[at@[k] as int]));
                    self.lemma_operand_kept(settled, args@[at@[k] as int]);
                }
            }
            assert(str_open(f, old(self).terms, x));
            assert(str_facts(f, mid.terms.tm(s), x) == str_facts(
                f,
                old(self).str_tm(args@[0])->0,
                x,
            ));
        }
        Some(r)
    }
}

} // verus!
