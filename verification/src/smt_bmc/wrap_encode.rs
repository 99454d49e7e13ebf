//! Calls that write a primitive value, boxed or not, as a string.

use vstd::prelude::*;

use super::math_encode;
use super::math_encode::Boxing;
use super::state::Encoder;
use super::str_encode;
use super::str_formula;
use super::str_formula::{
    make_bool_text, signed_bv_to_str, unsigned_bv_to_radix_str, unsigned_bv_to_str,
};
use crate::ir;
use crate::ir::{MethodKey, Operand};
use crate::term;
use crate::term::{Op1, Term, Terms, Tm};
use crate::text;
use crate::text::{contains, same, starts_with};

verus! {

/// How the value is written.
#[derive(Clone, Copy, Debug, PartialEq, Eq, Structural)]
pub enum WrapText {
    Bool,
    Signed(u32),
    Unsigned,
    /// Width, bits per digit, and whether letters follow the ten digits.
    Radix(u32, u32, bool),
    /// Some string of one character.
    OneChar,
}

/// What a call writes: how, where the value is found, and whether the first
/// argument is read at all.
#[derive(Clone, Copy, Debug, PartialEq, Eq, Structural)]
pub struct WrapCase {
    pub how: WrapText,
    pub boxing: Boxing,
    pub reads: bool,
}

/// The value is the argument itself.
pub open spec fn by_value(how: WrapText) -> Option<WrapCase> {
    Some(WrapCase { how, boxing: Boxing::Plain, reads: true })
}

/// The value is that of the box.
pub open spec fn from_box(how: WrapText, boxing: Boxing) -> Option<WrapCase> {
    Some(WrapCase { how, boxing, reads: true })
}

/// `toString` of a box class: on a value where the descriptor starts with
/// `prim`, on the box where there is no parameter.
pub open spec fn boxed_or_value(
    d: Seq<char>,
    prim: Seq<char>,
    how: WrapText,
    boxing: Boxing,
) -> Option<WrapCase> {
    if text::starts(d, prim) {
        by_value(how)
    } else if d == "()Ljava/lang/String;"@ {
        from_box(how, boxing)
    } else {
        None
    }
}

/// The conversions that `Integer` and `Long` share.
pub open spec fn integral_text(name: Seq<char>, d: Seq<char>, w: u32, prim: Seq<char>) -> Option<
    WrapCase,
> {
    if name == "toHexString"@ {
        by_value(WrapText::Radix(w, 4, true))
    } else if name == "toBinaryString"@ {
        by_value(WrapText::Radix(w, 1, false))
    } else if name == "toOctalString"@ {
        by_value(WrapText::Radix(w, 3, false))
    } else if name == "toUnsignedString"@ && text::starts(d, prim) {
        by_value(WrapText::Unsigned)
    } else {
        None
    }
}

/// What a call writes, if it is one of these.
pub open spec fn wrap_case(class: Seq<char>, name: Seq<char>, d: Seq<char>) -> Option<WrapCase> {
    if class == "java/lang/Boolean"@ {
        if name == "toString"@ {
            boxed_or_value(d, "(Z)"@, WrapText::Bool, Boxing::Int)
        } else {
            None
        }
    } else if class == "java/lang/Integer"@ {
        if name == "toString"@ {
            boxed_or_value(d, "(I)"@, WrapText::Signed(32), Boxing::Int)
        } else {
            integral_text(name, d, 32, "(I)"@)
        }
    } else if class == "java/lang/Long"@ {
        if name == "toString"@ {
            boxed_or_value(d, "(J)"@, WrapText::Signed(64), Boxing::Long)
        } else {
            integral_text(name, d, 64, "(J)"@)
        }
    } else if class == "java/lang/Short"@ || class == "java/lang/Byte"@ {
        if name == "toString"@ && text::holds_part(d, ")Ljava/lang/String;"@) {
            if d == "()Ljava/lang/String;"@ {
                from_box(WrapText::Signed(32), Boxing::Int)
            } else {
                by_value(WrapText::Signed(32))
            }
        } else {
            None
        }
    } else if class == "java/lang/Character"@ {
        if name == "toString"@ && text::holds_part(d, ")Ljava/lang/String;"@) {
            Some(WrapCase { how: WrapText::OneChar, boxing: Boxing::Plain, reads: false })
        } else {
            None
        }
    } else if class == "java/lang/String"@ {
        if name == "valueOf"@ && str_encode::takes_primitive(d) {
            if text::starts(d, "(Z)"@) {
                by_value(WrapText::Bool)
            } else if text::starts(d, "(C)"@) {
                by_value(WrapText::OneChar)
            } else if text::starts(d, "(J)"@) {
                by_value(WrapText::Signed(64))
            } else {
                by_value(WrapText::Signed(32))
            }
        } else {
            None
        }
    } else {
        None
    }
}

fn make_by_value(how: WrapText) -> (r: Option<WrapCase>)
    ensures
        r == by_value(how),
{
    Some(WrapCase { how, boxing: Boxing::Plain, reads: true })
}

fn find_boxed_or_value(d: &str, prim: &str, how: WrapText, boxing: Boxing) -> (r: Option<WrapCase>)
    ensures
        r == boxed_or_value(d@, prim@, how, boxing),
{
    if starts_with(d, prim) {
        make_by_value(how)
    } else if same(d, "()Ljava/lang/String;") {
        Some(WrapCase { how, boxing, reads: true })
    } else {
        None
    }
}

fn find_integral_text(name: &str, d: &str, w: u32, prim: &str) -> (r: Option<WrapCase>)
    ensures
        r == integral_text(name@, d@, w, prim@),
{
    if same(name, "toHexString") {
        make_by_value(WrapText::Radix(w, 4, true))
    } else if same(name, "toBinaryString") {
        make_by_value(WrapText::Radix(w, 1, false))
    } else if same(name, "toOctalString") {
        make_by_value(WrapText::Radix(w, 3, false))
    } else if same(name, "toUnsignedString") && starts_with(d, prim) {
        make_by_value(WrapText::Unsigned)
    } else {
        None
    }
}

/// What a call writes, if it is one of these.
pub fn find_wrap_case(target: &MethodKey) -> (r: Option<WrapCase>)
    ensures
        r == wrap_case(target.class@, target.name@, target.desc@),
{
    let class = target.class.as_str();
    let name = target.name.as_str();
    let d = target.desc.as_str();
    if same(class, "java/lang/Boolean") {
        if same(name, "toString") {
            find_boxed_or_value(d, "(Z)", WrapText::Bool, Boxing::Int)
        } else {
            None
        }
    } else if same(class, "java/lang/Integer") {
        if same(name, "toString") {
            find_boxed_or_value(d, "(I)", WrapText::Signed(32), Boxing::Int)
        } else {
            find_integral_text(name, d, 32, "(I)")
        }
    } else if same(class, "java/lang/Long") {
        if same(name, "toString") {
            find_boxed_or_value(d, "(J)", WrapText::Signed(64), Boxing::Long)
        } else {
            find_integral_text(name, d, 64, "(J)")
        }
    } else if same(class, "java/lang/Short") || same(class, "java/lang/Byte") {
        if same(name, "toString") && contains(d, ")Ljava/lang/String;") {
            if same(d, "()Ljava/lang/String;") {
                Some(WrapCase { how: WrapText::Signed(32), boxing: Boxing::Int, reads: true })
            } else {
                make_by_value(WrapText::Signed(32))
            }
        } else {
            None
        }
    } else if same(class, "java/lang/Character") {
        if same(name, "toString") && contains(d, ")Ljava/lang/String;") {
            Some(WrapCase { how: WrapText::OneChar, boxing: Boxing::Plain, reads: false })
        } else {
            None
        }
    } else if same(class, "java/lang/String") {
        if same(name, "valueOf") && !starts_with(d, "(L") && !starts_with(d, "([") {
            if starts_with(d, "(Z)") {
                make_by_value(WrapText::Bool)
            } else if starts_with(d, "(C)") {
                make_by_value(WrapText::OneChar)
            } else if starts_with(d, "(J)") {
                make_by_value(WrapText::Signed(64))
            } else {
                make_by_value(WrapText::Signed(32))
            }
        } else {
            None
        }
    } else {
        None
    }
}

/// The text of a value, where it is not left open.
pub open spec fn wrap_tm(how: WrapText, v: Tm) -> Tm {
    match how {
        WrapText::Bool => str_formula::bool_text(v),
        WrapText::Signed(w) => str_formula::signed_text(v, w),
        WrapText::Unsigned => str_formula::unsigned_text(v),
        WrapText::Radix(w, bits, letters) => str_formula::radix_text(v, w, bits, letters),
        WrapText::OneChar => v,
    }
}

/// The sizes that occur.
pub open spec fn wrap_sized(how: WrapText) -> bool {
    how matches WrapText::Radix(w, bits, _) ==> (w == 32 || w == 64) && (bits == 4 || bits == 3
        || bits == 1)
}

/// Build the text of a value.
fn build_wrap(ts: &mut Terms, how: WrapText, v: Term) -> (t: Term)
    requires
        old(ts).well_formed(),
        old(ts).has(v),
        wrap_sized(how),
    ensures
        final(ts).built_from(*old(ts)),
        final(ts).has(t),
        final(ts).tm(t) == wrap_tm(how, old(ts).tm(v)),
{
    match how {
        WrapText::Bool => make_bool_text(ts, v),
        WrapText::Signed(w) => signed_bv_to_str(ts, v, w),
        WrapText::Unsigned => unsigned_bv_to_str(ts, v),
        WrapText::Radix(w, bits, letters) => unsigned_bv_to_radix_str(ts, v, w, bits, letters),
        WrapText::OneChar => v,
    }
}

/// Is the call one whose text is modelled, with the argument it reads?
pub open spec fn wraps(target: MethodKey, n: nat) -> bool {
    wrap_case(target.class@, target.name@, target.desc@) matches Some(c) && (c.reads ==> n > 0)
}

/// What the encoding of such a call leaves behind: the reference and its content.
pub open spec fn wrap_outcome(
    e: Encoder,
    old: Encoder,
    target: MethodKey,
    args: Seq<Operand>,
    p: (Term, Option<Term>),
) -> bool {
    let c = wrap_case(target.class@, target.name@, target.desc@)->0;
    let content = e.terms.tm(p.1->0);
    &&& e.terms.has(p.0)
    &&& e.terms.tm(p.0) == term::bv32(1)
    &&& p.1 is Some
    &&& e.terms.has_opt(p.1)
    &&& c.reads ==> e.knows(args[0])
    &&& if c.how == WrapText::OneChar {
        &&& content matches Tm::FreshStr(at, n) && at >= old.terms.size()
            && n == "char_str"@
        &&& e.extended_from(
            old,
            seq![term::tm_eq(str_formula::len_tm(content), Tm::Num(1))],
        )
    } else {
        &&& e.math_from(old, target.class@, c.boxing)
        &&& content == wrap_tm(
            c.how,
            math_encode::arg_tm(e, target.class@, c.boxing, args[0]),
        )
    }
}

impl<'a> Encoder<'a> {
    /// Encode a call that writes a primitive value as a string. The result is a
    /// reference to an object, with the string as its content.
    pub fn encode_wrapper_str_call(&mut self, target: &MethodKey, args: &Vec<Operand>) -> (r: Option<
        (Term, Option<Term>),
    >)
        requires
            old(self).ok(),
            ir::operands_in_range(args@, old(self).body.vars@.len()),
        ensures
            r is Some <==> wraps(*target, args@.len()),
            match r {
                None => *final(self) == *old(self),
                Some(p) => wrap_outcome(*final(self), *old(self), *target, args@, p),
            },
    {
        let c = match find_wrap_case(target) {
            Some(c) => c,
            None => {
                return None;
            },
        };
        if c.reads && args.len() == 0 {
            return None;
        }
        if let WrapText::OneChar = c.how {
            if c.reads {
                proof {
                    assert(args@[0].in_range(self.body.vars@.len()));
                }
                let _ = self.encode_operand(&args[0]);
            } else {
                proof {
                    self.lemma_built_settles(*self);
                }
            }
            let ghost mid = *self;
            let one = self.terms.bv_const(1, 32);
            let s = self.terms.fresh_str("char_str");
            let n = self.terms.app1(Op1::StrLen, s);
            let one_num = self.terms.int_number(1);
            let eq = self.terms.equal(n, one_num);
            let ghost built = self.terms;
            self.terms.insist(eq);
            proof {
                built.lemma_built_states(mid.terms);
                self.terms.lemma_state_more(built, mid.terms, seq![], eq);
                let facts = seq![
                    term::tm_eq(str_formula::len_tm(self.terms.tm(s)), Tm::Num(1)),
                ];
                assert(Seq::<Tm>::empty().push(built.tm(eq)) =~= facts);
                self.lemma_settle_then_state(mid, *old(self), facts);
                if c.reads {
                    self.lemma_operand_kept(mid, args@[0]);
                }
            }
            return Some((one, Some(s)));
        }
        let (v, _) = self.encode_arguments(&target.class, c.boxing, 1, args);
        let ghost mid = *self;
        let one = self.terms.bv_const(1, 32);
        let s = build_wrap(&mut self.terms, c.how, v);
        proof {
            let k = math_encode::value_field(target.class@, c.boxing);
            let kw = math_encode::boxed_width(c.boxing);
            if c.boxing == Boxing::Plain {
                self.lemma_built_settles(mid);
                self.lemma_settled_trans(mid, *old(self));
            } else {
                self.lemma_open_then_build(mid, *old(self), k, kw);
            }
            assert(args@[0].in_range(mid.body.vars@.len()));
            self.lemma_operand_same(mid, args@[0]);
        }
        Some((one, Some(s)))
    }
}

} // verus!
