//! Encoding of the static and instance methods of `Math` and of the wrapper
//! classes.

use vstd::prelude::*;

use super::char_encode;
use super::char_encode::{encode_char_wrapper_call, find_char_fn, CharFn};
use super::formula;
use super::formula::{
    abs, bit_count, compare, exponent_all_ones, flag, floor_div, floor_mod, fold_long, fp_canonical,
    fp_compare, fp_is_infinite, fp_is_nan, fp_select, highest_one_bit, leading_zeros,
    lowest_one_bit, masked, reverse, rotate, select, signum, swap2, swap4, swap8, trailing_zeros,
};
use super::state::Encoder;
use crate::desc;
use crate::desc::arg_width_from_desc;
use crate::ir::{FieldKey, FieldKeyV, MethodKey, Operand};
use crate::term;
use crate::term::{Op1, Op2, Term, Terms, Tm};
use crate::text;
use crate::text::{same, starts_with};

verus! {

/// What a modelled method computes. A width of 32 stands for `int` or `float`,
/// 64 for `long` or `double`.
#[derive(Clone, Copy, Debug, PartialEq, Eq, Structural)]
pub enum MathFn {
    Abs,
    Min,
    Max,
    Sum,
    Difference,
    Product,
    Negation,
    FloorDiv,
    FloorMod,
    Signum,
    DivideUnsigned,
    RemainderUnsigned,
    CompareUnsigned,
    Compare,
    CompareByDifference,
    /// The argument itself.
    Identity,
    /// The argument widened to 64 bits with zeros.
    Widen,
    HashLong,
    HashBoolean,
    BitCount,
    TrailingZeros,
    LeadingZeros,
    Reverse,
    HighestOneBit,
    LowestOneBit,
    RotateLeft,
    RotateRight,
    SwapInt,
    SwapLong,
    SwapShort,
    SwapChar,
    /// The low byte or the low two bytes, as 32 bits or widened to 64.
    Low8,
    Low8Wide,
    Low16,
    Low16Wide,
    FpCanonical(u32),
    FpIsNan(u32),
    FpIsInfinite(u32),
    FpIsFinite(u32),
    FpCompare(u32),
    FpMax(u32),
    FpMin(u32),
    FpHashDouble,
    /// Not modelled further: any value of the given width.
    AnyParsed(u32),
    AnyFpSum,
    AnyFpTruncated,
    Char(CharFn),
}

/// How the arguments are passed: as values, or as references to boxes whose
/// value field has the given descriptor.
#[derive(Clone, Copy, Debug, PartialEq, Eq, Structural)]
pub enum Boxing {
    Plain,
    Int,
    Long,
    Double,
}

/// A modelled method.
#[derive(Clone, Copy, Debug, PartialEq, Eq, Structural)]
pub struct MathCase {
    pub f: MathFn,
    pub boxing: Boxing,
}

pub open spec fn plain(f: MathFn) -> Option<MathCase> {
    Some(MathCase { f, boxing: Boxing::Plain })
}

pub open spec fn boxed(f: MathFn, boxing: Boxing) -> Option<MathCase> {
    Some(MathCase { f, boxing })
}

fn make_plain(f: MathFn) -> (r: Option<MathCase>)
    ensures
        r == plain(f),
{
    Some(MathCase { f, boxing: Boxing::Plain })
}

fn make_boxed(f: MathFn, boxing: Boxing) -> (r: Option<MathCase>)
    ensures
        r == boxed(f, boxing),
{
    Some(MathCase { f, boxing })
}

/// The methods of `Math` and `StrictMath`.
pub open spec fn math_case(name: Seq<char>) -> Option<MathCase> {
    if name == "abs"@ {
        plain(MathFn::Abs)
    } else if name == "min"@ {
        plain(MathFn::Min)
    } else if name == "max"@ {
        plain(MathFn::Max)
    } else if name == "addExact"@ {
        plain(MathFn::Sum)
    } else if name == "subtractExact"@ {
        plain(MathFn::Difference)
    } else if name == "multiplyExact"@ {
        plain(MathFn::Product)
    } else if name == "negateExact"@ {
        plain(MathFn::Negation)
    } else if name == "floorDiv"@ {
        plain(MathFn::FloorDiv)
    } else if name == "floorMod"@ {
        plain(MathFn::FloorMod)
    } else {
        None
    }
}

fn find_math(name: &str) -> (r: Option<MathCase>)
    ensures
        r == math_case(name@),
{
    if same(name, "abs") {
        make_plain(MathFn::Abs)
    } else if same(name, "min") {
        make_plain(MathFn::Min)
    } else if same(name, "max") {
        make_plain(MathFn::Max)
    } else if same(name, "addExact") {
        make_plain(MathFn::Sum)
    } else if same(name, "subtractExact") {
        make_plain(MathFn::Difference)
    } else if same(name, "multiplyExact") {
        make_plain(MathFn::Product)
    } else if same(name, "negateExact") {
        make_plain(MathFn::Negation)
    } else if same(name, "floorDiv") {
        make_plain(MathFn::FloorDiv)
    } else if same(name, "floorMod") {
        make_plain(MathFn::FloorMod)
    } else {
        None
    }
}

/// The methods that `Integer` and `Long` share.
pub open spec fn integral_case(name: Seq<char>) -> Option<MathCase> {
    if name == "min"@ {
        plain(MathFn::Min)
    } else if name == "max"@ {
        plain(MathFn::Max)
    } else if name == "sum"@ {
        plain(MathFn::Sum)
    } else if name == "signum"@ {
        plain(MathFn::Signum)
    } else if name == "divideUnsigned"@ {
        plain(MathFn::DivideUnsigned)
    } else if name == "remainderUnsigned"@ {
        plain(MathFn::RemainderUnsigned)
    } else if name == "compareUnsigned"@ {
        plain(MathFn::CompareUnsigned)
    } else if name == "compare"@ {
        plain(MathFn::Compare)
    } else if name == "bitCount"@ {
        plain(MathFn::BitCount)
    } else if name == "numberOfTrailingZeros"@ {
        plain(MathFn::TrailingZeros)
    } else if name == "numberOfLeadingZeros"@ {
        plain(MathFn::LeadingZeros)
    } else if name == "reverse"@ {
        plain(MathFn::Reverse)
    } else if name == "highestOneBit"@ {
        plain(MathFn::HighestOneBit)
    } else if name == "lowestOneBit"@ {
        plain(MathFn::LowestOneBit)
    } else if name == "rotateLeft"@ {
        plain(MathFn::RotateLeft)
    } else if name == "rotateRight"@ {
        plain(MathFn::RotateRight)
    } else {
        None
    }
}

fn find_integral(name: &str) -> (r: Option<MathCase>)
    ensures
        r == integral_case(name@),
{
    if same(name, "min") {
        make_plain(MathFn::Min)
    } else if same(name, "max") {
        make_plain(MathFn::Max)
    } else if same(name, "sum") {
        make_plain(MathFn::Sum)
    } else if same(name, "signum") {
        make_plain(MathFn::Signum)
    } else if same(name, "divideUnsigned") {
        make_plain(MathFn::DivideUnsigned)
    } else if same(name, "remainderUnsigned") {
        make_plain(MathFn::RemainderUnsigned)
    } else if same(name, "compareUnsigned") {
        make_plain(MathFn::CompareUnsigned)
    } else if same(name, "compare") {
        make_plain(MathFn::Compare)
    } else if same(name, "bitCount") {
        make_plain(MathFn::BitCount)
    } else if same(name, "numberOfTrailingZeros") {
        make_plain(MathFn::TrailingZeros)
    } else if same(name, "numberOfLeadingZeros") {
        make_plain(MathFn::LeadingZeros)
    } else if same(name, "reverse") {
        make_plain(MathFn::Reverse)
    } else if same(name, "highestOneBit") {
        make_plain(MathFn::HighestOneBit)
    } else if same(name, "lowestOneBit") {
        make_plain(MathFn::LowestOneBit)
    } else if same(name, "rotateLeft") {
        make_plain(MathFn::RotateLeft)
    } else if same(name, "rotateRight") {
        make_plain(MathFn::RotateRight)
    } else {
        None
    }
}

/// The methods of `Float` (`w` 32) and `Double` (`w` 64) that the two share. A
/// descriptor that begins with the primitive's takes the value itself.
pub open spec fn fp_case(w: u32, name: Seq<char>, by_value: bool) -> Option<MathCase> {
    let at_box = if by_value {
        Boxing::Plain
    } else if w == 64 {
        Boxing::Double
    } else {
        Boxing::Int
    };
    if name == "isNaN"@ {
        boxed(MathFn::FpIsNan(w), at_box)
    } else if name == "isInfinite"@ {
        boxed(MathFn::FpIsInfinite(w), at_box)
    } else if name == "isFinite"@ {
        plain(MathFn::FpIsFinite(w))
    } else if name == "compare"@ {
        plain(MathFn::FpCompare(w))
    } else if name == "compareTo"@ {
        boxed(
            MathFn::FpCompare(w),
            if w == 64 {
                Boxing::Double
            } else {
                Boxing::Int
            },
        )
    } else if name == "max"@ {
        plain(MathFn::FpMax(w))
    } else if name == "min"@ {
        plain(MathFn::FpMin(w))
    } else if name == "sum"@ {
        plain(MathFn::AnyFpSum)
    } else if name == "byteValue"@ || name == "shortValue"@ {
        plain(MathFn::AnyFpTruncated)
    } else {
        None
    }
}

fn find_fp(w: u32, name: &str, by_value: bool) -> (r: Option<MathCase>)
    ensures
        r == fp_case(w, name@, by_value),
{
    let at_box = if by_value {
        Boxing::Plain
    } else if w == 64 {
        Boxing::Double
    } else {
        Boxing::Int
    };
    if same(name, "isNaN") {
        make_boxed(MathFn::FpIsNan(w), at_box)
    } else if same(name, "isInfinite") {
        make_boxed(MathFn::FpIsInfinite(w), at_box)
    } else if same(name, "isFinite") {
        make_plain(MathFn::FpIsFinite(w))
    } else if same(name, "compare") {
        make_plain(MathFn::FpCompare(w))
    } else if same(name, "compareTo") {
        make_boxed(
            MathFn::FpCompare(w),
            if w == 64 {
                Boxing::Double
            } else {
                Boxing::Int
            },
        )
    } else if same(name, "max") {
        make_plain(MathFn::FpMax(w))
    } else if same(name, "min") {
        make_plain(MathFn::FpMin(w))
    } else if same(name, "sum") {
        make_plain(MathFn::AnyFpSum)
    } else if same(name, "byteValue") || same(name, "shortValue") {
        make_plain(MathFn::AnyFpTruncated)
    } else {
        None
    }
}

/// The modelled method that a call names.
pub open spec fn call_case(class: Seq<char>, name: Seq<char>, d: Seq<char>) -> Option<MathCase> {
    if class == "java/lang/Math"@ || class == "java/lang/StrictMath"@ {
        math_case(name)
    } else if class == "java/lang/Integer"@ {
        if name == "parseInt"@ {
            plain(MathFn::AnyParsed(32))
        } else if name == "toUnsignedLong"@ {
            plain(MathFn::Widen)
        } else if name == "compareTo"@ {
            boxed(MathFn::Compare, Boxing::Int)
        } else if name == "hashCode"@ {
            plain(MathFn::Identity)
        } else if name == "reverseBytes"@ {
            plain(MathFn::SwapInt)
        } else {
            integral_case(name)
        }
    } else if class == "java/lang/Long"@ {
        if name == "parseLong"@ {
            plain(MathFn::AnyParsed(64))
        } else if name == "compareTo"@ {
            boxed(MathFn::Compare, Boxing::Long)
        } else if name == "hashCode"@ {
            plain(MathFn::HashLong)
        } else if name == "reverseBytes"@ {
            plain(MathFn::SwapLong)
        } else {
            integral_case(name)
        }
    } else if class == "java/lang/Short"@ {
        if name == "parseShort"@ {
            plain(MathFn::AnyParsed(32))
        } else if name == "compare"@ {
            plain(MathFn::CompareByDifference)
        } else if name == "compareTo"@ {
            boxed(MathFn::CompareByDifference, Boxing::Int)
        } else if name == "hashCode"@ {
            plain(MathFn::Identity)
        } else if name == "reverseBytes"@ {
            plain(MathFn::SwapShort)
        } else if name == "toUnsignedInt"@ {
            plain(MathFn::Low16)
        } else if name == "toUnsignedLong"@ {
            plain(MathFn::Low16Wide)
        } else {
            None
        }
    } else if class == "java/lang/Byte"@ {
        if name == "parseByte"@ {
            plain(MathFn::AnyParsed(32))
        } else if name == "compare"@ {
            plain(MathFn::CompareByDifference)
        } else if name == "compareTo"@ {
            boxed(MathFn::CompareByDifference, Boxing::Int)
        } else if name == "hashCode"@ {
            plain(MathFn::Identity)
        } else if name == "toUnsignedInt"@ {
            plain(MathFn::Low8)
        } else if name == "toUnsignedLong"@ {
            plain(MathFn::Low8Wide)
        } else {
            None
        }
    } else if class == "java/lang/Character"@ {
        if name == "compare"@ {
            plain(MathFn::CompareByDifference)
        } else if name == "compareTo"@ {
            boxed(MathFn::CompareByDifference, Boxing::Int)
        } else if name == "hashCode"@ {
            plain(MathFn::Identity)
        } else if name == "reverseBytes"@ {
            plain(MathFn::SwapChar)
        } else {
            match char_encode::char_fn(name) {
                Some(f) => plain(MathFn::Char(f)),
                None => None,
            }
        }
    } else if class == "java/lang/Boolean"@ {
        if name == "compareTo"@ {
            boxed(MathFn::CompareByDifference, Boxing::Int)
        } else if name == "hashCode"@ {
            boxed(
                MathFn::HashBoolean,
                if text::starts(d, "(Z)"@) {
                    Boxing::Plain
                } else {
                    Boxing::Int
                },
            )
        } else {
            None
        }
    } else if class == "java/lang/Float"@ {
        let by_value = text::starts(d, "(F)"@);
        if name == "floatToRawIntBits"@ || name == "intBitsToFloat"@ {
            plain(MathFn::Identity)
        } else if name == "floatToIntBits"@ {
            plain(MathFn::FpCanonical(32))
        } else if name == "hashCode"@ {
            if by_value {
                plain(MathFn::FpCanonical(32))
            } else {
                boxed(MathFn::Identity, Boxing::Int)
            }
        } else {
            fp_case(32, name, by_value)
        }
    } else if class == "java/lang/Double"@ {
        let by_value = text::starts(d, "(D)"@);
        if name == "doubleToRawLongBits"@ || name == "longBitsToDouble"@ {
            plain(MathFn::Identity)
        } else if name == "doubleToLongBits"@ {
            plain(MathFn::FpCanonical(64))
        } else if name == "hashCode"@ {
            if by_value {
                plain(MathFn::FpHashDouble)
            } else {
                boxed(MathFn::HashLong, Boxing::Double)
            }
        } else {
            fp_case(64, name, by_value)
        }
    } else {
        None
    }
}

/// The modelled method that a call names.
pub fn find_case(target: &MethodKey) -> (r: Option<MathCase>)
    ensures
        r == call_case(target.class@, target.name@, target.desc@),
{
    let class = target.class.as_str();
    let name = target.name.as_str();
    if same(class, "java/lang/Math") || same(class, "java/lang/StrictMath") {
        find_math(name)
    } else if same(class, "java/lang/Integer") {
        if same(name, "parseInt") {
            make_plain(MathFn::AnyParsed(32))
        } else if same(name, "toUnsignedLong") {
            make_plain(MathFn::Widen)
        } else if same(name, "compareTo") {
            make_boxed(MathFn::Compare, Boxing::Int)
        } else if same(name, "hashCode") {
            make_plain(MathFn::Identity)
        } else if same(name, "reverseBytes") {
            make_plain(MathFn::SwapInt)
        } else {
            find_integral(name)
        }
    } else if same(class, "java/lang/Long") {
        if same(name, "parseLong") {
            make_plain(MathFn::AnyParsed(64))
        } else if same(name, "compareTo") {
            make_boxed(MathFn::Compare, Boxing::Long)
        } else if same(name, "hashCode") {
            make_plain(MathFn::HashLong)
        } else if same(name, "reverseBytes") {
            make_plain(MathFn::SwapLong)
        } else {
            find_integral(name)
        }
    } else if same(class, "java/lang/Short") {
        if same(name, "parseShort") {
            make_plain(MathFn::AnyParsed(32))
        } else if same(name, "compare") {
            make_plain(MathFn::CompareByDifference)
        } else if same(name, "compareTo") {
            make_boxed(MathFn::CompareByDifference, Boxing::Int)
        } else if same(name, "hashCode") {
            make_plain(MathFn::Identity)
        } else if same(name, "reverseBytes") {
            make_plain(MathFn::SwapShort)
        } else if same(name, "toUnsignedInt") {
            make_plain(MathFn::Low16)
        } else if same(name, "toUnsignedLong") {
            make_plain(MathFn::Low16Wide)
        } else {
            None
        }
    } else if same(class, "java/lang/Byte") {
        if same(name, "parseByte") {
            make_plain(MathFn::AnyParsed(32))
        } else if same(name, "compare") {
            make_plain(MathFn::CompareByDifference)
        } else if same(name, "compareTo") {
            make_boxed(MathFn::CompareByDifference, Boxing::Int)
        } else if same(name, "hashCode") {
            make_plain(MathFn::Identity)
        } else if same(name, "toUnsignedInt") {
            make_plain(MathFn::Low8)
        } else if same(name, "toUnsignedLong") {
            make_plain(MathFn::Low8Wide)
        } else {
            None
        }
    } else if same(class, "java/lang/Character") {
        if same(name, "compare") {
            make_plain(MathFn::CompareByDifference)
        } else if same(name, "compareTo") {
            make_boxed(MathFn::CompareByDifference, Boxing::Int)
        } else if same(name, "hashCode") {
            make_plain(MathFn::Identity)
        } else if same(name, "reverseBytes") {
            make_plain(MathFn::SwapChar)
        } else {
            match find_char_fn(name) {
                Some(f) => make_plain(MathFn::Char(f)),
                None => None,
            }
        }
    } else if same(class, "java/lang/Boolean") {
        if same(name, "compareTo") {
            make_boxed(MathFn::CompareByDifference, Boxing::Int)
        } else if same(name, "hashCode") {
            make_boxed(
                MathFn::HashBoolean,
                if starts_with(target.desc.as_str(), "(Z)") {
                    Boxing::Plain
                } else {
                    Boxing::Int
                },
            )
        } else {
            None
        }
    } else if same(class, "java/lang/Float") {
        let by_value = starts_with(target.desc.as_str(), "(F)");
        if same(name, "floatToRawIntBits") || same(name, "intBitsToFloat") {
            make_plain(MathFn::Identity)
        } else if same(name, "floatToIntBits") {
            make_plain(MathFn::FpCanonical(32))
        } else if same(name, "hashCode") {
            if by_value {
                make_plain(MathFn::FpCanonical(32))
            } else {
                make_boxed(MathFn::Identity, Boxing::Int)
            }
        } else {
            find_fp(32, name, by_value)
        }
    } else if same(class, "java/lang/Double") {
        let by_value = starts_with(target.desc.as_str(), "(D)");
        if same(name, "doubleToRawLongBits") || same(name, "longBitsToDouble") {
            make_plain(MathFn::Identity)
        } else if same(name, "doubleToLongBits") {
            make_plain(MathFn::FpCanonical(64))
        } else if same(name, "hashCode") {
            if by_value {
                make_plain(MathFn::FpHashDouble)
            } else {
                make_boxed(MathFn::HashLong, Boxing::Double)
            }
        } else {
            find_fp(64, name, by_value)
        }
    } else {
        None
    }
}

/// Does the formula of the method say what its result is? Where it does not, the
/// result is a symbol of which nothing is known.
pub open spec fn math_exact(f: MathFn) -> bool {
    !(f is AnyParsed || f is AnyFpSum || f is AnyFpTruncated)
}

/// Is there a precise formula for the method that a call names?
pub open spec fn math_modelled(target: MethodKey) -> bool {
    call_case(target.class@, target.name@, target.desc@) matches Some(c) && math_exact(c.f)
}

/// Is there a precise formula for the method that a call names? A call that is
/// said to be modelled always has one.
pub fn math_call_modelled(target: &MethodKey) -> (r: bool)
    ensures
        r == math_modelled(*target),
{
    match find_case(target) {
        Some(c) => match c.f {
            MathFn::AnyParsed(_) => false,
            MathFn::AnyFpSum => false,
            MathFn::AnyFpTruncated => false,
            _ => true,
        },
        None => false,
    }
}

/// How many arguments the method reads.
pub open spec fn math_arity(f: MathFn) -> nat {
    match f {
        MathFn::AnyParsed(_) | MathFn::AnyFpSum | MathFn::AnyFpTruncated => 0,
        MathFn::Min | MathFn::Max | MathFn::Sum | MathFn::Difference | MathFn::Product
        | MathFn::FloorDiv | MathFn::FloorMod | MathFn::DivideUnsigned | MathFn::RemainderUnsigned
        | MathFn::CompareUnsigned | MathFn::Compare | MathFn::CompareByDifference
        | MathFn::RotateLeft | MathFn::RotateRight | MathFn::FpCompare(_) | MathFn::FpMax(_)
        | MathFn::FpMin(_) => 2,
        MathFn::Char(c) => if char_encode::char_binary(c) {
            2
        } else {
            1
        },
        _ => 1,
    }
}

/// How many arguments the method reads.
pub fn arity(f: MathFn) -> (n: usize)
    ensures
        n == math_arity(f),
{
    match f {
        MathFn::AnyParsed(_) | MathFn::AnyFpSum | MathFn::AnyFpTruncated => 0,
        MathFn::Min | MathFn::Max | MathFn::Sum | MathFn::Difference | MathFn::Product
        | MathFn::FloorDiv | MathFn::FloorMod | MathFn::DivideUnsigned | MathFn::RemainderUnsigned
        | MathFn::CompareUnsigned | MathFn::Compare | MathFn::CompareByDifference
        | MathFn::RotateLeft | MathFn::RotateRight | MathFn::FpCompare(_) | MathFn::FpMax(_)
        | MathFn::FpMin(_) => 2,
        MathFn::Char(c) => match c {
            CharFn::ToCodePoint | CharFn::Digit | CharFn::ForDigit => 2,
            _ => 1,
        },
        _ => 1,
    }
}

/// The symbol that stands for a result that is not modelled further.
pub open spec fn math_any(f: MathFn, w: u32) -> Option<(Seq<char>, u32)> {
    match f {
        MathFn::AnyParsed(n) => Some(("parse"@, n)),
        MathFn::AnyFpSum => Some(("fp_sum"@, w)),
        MathFn::AnyFpTruncated => Some(("fp_trunc"@, 32)),
        _ => None,
    }
}

/// The formula of a method on argument values `a` and `b`, where `w` is the
/// width of its first parameter.
pub open spec fn math_tm(f: MathFn, w: u32, a: Tm, b: Tm) -> Tm {
    match f {
        MathFn::Abs => formula::abs_tm(w, a),
        MathFn::Min => formula::select_tm(Op2::BvSlt, a, b),
        MathFn::Max => formula::select_tm(Op2::BvSgt, a, b),
        MathFn::Sum => formula::plus(a, b),
        MathFn::Difference | MathFn::CompareByDifference => formula::minus(a, b),
        MathFn::Product => formula::times(a, b),
        MathFn::Negation => formula::neg(a),
        MathFn::FloorDiv => formula::floor_div_tm(w, a, b),
        MathFn::FloorMod => formula::floor_mod_tm(w, a, b),
        MathFn::Signum => formula::signum_tm(w, a),
        MathFn::DivideUnsigned => term::t2(Op2::BvUdiv, a, b),
        MathFn::RemainderUnsigned => term::t2(Op2::BvUrem, a, b),
        MathFn::CompareUnsigned => formula::compare_tm(Op2::BvUlt, a, b),
        MathFn::Compare => formula::compare_tm(Op2::BvSlt, a, b),
        MathFn::Widen => formula::zext(a, 32),
        MathFn::HashLong => formula::fold_long_tm(a),
        MathFn::HashBoolean => term::tm_ite(
            term::tm_eq(a, term::bv32(0)),
            term::bv32(1237),
            term::bv32(1231),
        ),
        MathFn::BitCount => formula::bit_count_tm(w, a),
        MathFn::TrailingZeros => formula::trailing_zeros_from(a, w, term::bv32(0)),
        MathFn::LeadingZeros => formula::leading_zeros_from(a, w, term::bv32(0)),
        MathFn::Reverse => formula::reverse_tm(w, a),
        MathFn::HighestOneBit => formula::highest_one_bit_tm(w, a),
        MathFn::LowestOneBit => formula::lowest_one_bit_tm(a),
        MathFn::RotateLeft => formula::rotate_tm(true, w, a, b),
        MathFn::RotateRight => formula::rotate_tm(false, w, a, b),
        MathFn::SwapInt => formula::swap4_tm(a, 0),
        MathFn::SwapLong => formula::cat(formula::swap4_tm(a, 0), formula::swap4_tm(a, 4)),
        MathFn::SwapShort => formula::sext(formula::swap2_tm(a), 16),
        MathFn::SwapChar => formula::zext(formula::swap2_tm(a), 16),
        MathFn::Low8 => formula::masked_tm(a, 0xFF),
        MathFn::Low8Wide => formula::zext(formula::masked_tm(a, 0xFF), 32),
        MathFn::Low16 => formula::masked_tm(a, 0xFFFF),
        MathFn::Low16Wide => formula::zext(formula::masked_tm(a, 0xFFFF), 32),
        MathFn::FpCanonical(n) => formula::fp_canonical_tm(n, a),
        MathFn::FpIsNan(n) => formula::flag_tm(formula::fp_nan(n, a)),
        MathFn::FpIsInfinite(n) => formula::flag_tm(formula::fp_infinite(n, a)),
        MathFn::FpIsFinite(n) => formula::flag_tm(term::tm_not(formula::fp_special(n, a))),
        MathFn::FpCompare(n) => formula::fp_compare_tm(n, a, b),
        MathFn::FpMax(n) => formula::fp_select_tm(true, n, a, b),
        MathFn::FpMin(n) => formula::fp_select_tm(false, n, a, b),
        MathFn::FpHashDouble => formula::fold_long_tm(formula::fp_canonical_tm(64, a)),
        MathFn::Char(c) => char_encode::char_tm(c, a, b),
        MathFn::Identity | MathFn::AnyParsed(_) | MathFn::AnyFpSum | MathFn::AnyFpTruncated => a,
    }
}

/// The widths that occur in a case found by name are those of the two kinds of
/// floating-point number.
pub open spec fn math_sized(f: MathFn) -> bool {
    match f {
        MathFn::FpCanonical(n) | MathFn::FpIsNan(n) | MathFn::FpIsInfinite(n)
        | MathFn::FpIsFinite(n) | MathFn::FpCompare(n) | MathFn::FpMax(n) | MathFn::FpMin(n) => n
            == 32 || n == 64,
        _ => true,
    }
}

/// Build the formula of a method on argument values.
pub fn build_math(ts: &mut Terms, f: MathFn, w: u32, a: Term, b: Term) -> (t: Term)
    requires
        old(ts).well_formed(),
        old(ts).has(a),
        old(ts).has(b),
        w == 32 || w == 64,
        math_sized(f),
        math_any(f, w) is None,
    ensures
        final(ts).built_from(*old(ts)),
        final(ts).has(t),
        final(ts).tm(t) == math_tm(f, w, old(ts).tm(a), old(ts).tm(b)),
{
    match f {
        MathFn::Abs => abs(ts, w, a),
        MathFn::Min => select(ts, Op2::BvSlt, a, b),
        MathFn::Max => select(ts, Op2::BvSgt, a, b),
        MathFn::Sum => ts.app2(Op2::BvAdd, a, b),
        MathFn::Difference => ts.app2(Op2::BvSub, a, b),
        MathFn::CompareByDifference => ts.app2(Op2::BvSub, a, b),
        MathFn::Product => ts.app2(Op2::BvMul, a, b),
        MathFn::Negation => ts.app1(Op1::BvNeg, a),
        MathFn::FloorDiv => floor_div(ts, w, a, b),
        MathFn::FloorMod => floor_mod(ts, w, a, b),
        MathFn::Signum => signum(ts, w, a),
        MathFn::DivideUnsigned => ts.app2(Op2::BvUdiv, a, b),
        MathFn::RemainderUnsigned => ts.app2(Op2::BvUrem, a, b),
        MathFn::CompareUnsigned => compare(ts, Op2::BvUlt, a, b),
        MathFn::Compare => compare(ts, Op2::BvSlt, a, b),
        MathFn::Widen => ts.app1(Op1::ZeroExtend(32), a),
        MathFn::HashLong => fold_long(ts, a),
        MathFn::HashBoolean => {
            let zero = ts.bv_const(0, 32);
            let is_false = ts.equal(a, zero);
            let on_true = ts.bv_const(1231, 32);
            let on_false = ts.bv_const(1237, 32);
            ts.ite(is_false, on_false, on_true)
        },
        MathFn::BitCount => bit_count(ts, w, a),
        MathFn::TrailingZeros => trailing_zeros(ts, w, a),
        MathFn::LeadingZeros => leading_zeros(ts, w, a),
        MathFn::Reverse => reverse(ts, w, a),
        MathFn::HighestOneBit => highest_one_bit(ts, w, a),
        MathFn::LowestOneBit => lowest_one_bit(ts, a),
        MathFn::RotateLeft => rotate(ts, true, w, a, b),
        MathFn::RotateRight => rotate(ts, false, w, a, b),
        MathFn::SwapInt => swap4(ts, a, 0),
        MathFn::SwapLong => swap8(ts, a),
        MathFn::SwapShort => {
            let s = swap2(ts, a);
            ts.app1(Op1::SignExtend(16), s)
        },
        MathFn::SwapChar => {
            let s = swap2(ts, a);
            ts.app1(Op1::ZeroExtend(16), s)
        },
        MathFn::Low8 => masked(ts, a, 0xFF),
        MathFn::Low8Wide => {
            let m = masked(ts, a, 0xFF);
            ts.app1(Op1::ZeroExtend(32), m)
        },
        MathFn::Low16 => masked(ts, a, 0xFFFF),
        MathFn::Low16Wide => {
            let m = masked(ts, a, 0xFFFF);
            ts.app1(Op1::ZeroExtend(32), m)
        },
        MathFn::FpCanonical(n) => fp_canonical(ts, n, a),
        MathFn::FpIsNan(n) => {
            let c = fp_is_nan(ts, n, a);
            flag(ts, c)
        },
        MathFn::FpIsInfinite(n) => {
            let c = fp_is_infinite(ts, n, a);
            flag(ts, c)
        },
        MathFn::FpIsFinite(n) => {
            let special = exponent_all_ones(ts, n, a);
            let c = ts.not(special);
            flag(ts, c)
        },
        MathFn::FpCompare(n) => fp_compare(ts, n, a, b),
        MathFn::FpMax(n) => fp_select(ts, true, n, a, b),
        MathFn::FpMin(n) => fp_select(ts, false, n, a, b),
        MathFn::FpHashDouble => {
            let v = fp_canonical(ts, 64, a);
            fold_long(ts, v)
        },
        MathFn::Char(c) => encode_char_wrapper_call(ts, c, a, b),
        MathFn::Identity | MathFn::AnyParsed(_) | MathFn::AnyFpSum | MathFn::AnyFpTruncated => a,
    }
}

/// The field that holds the value of a box.
pub open spec fn value_field(class: Seq<char>, boxing: Boxing) -> FieldKeyV {
    FieldKeyV {
        class,
        name: "$$value"@,
        desc: match boxing {
            Boxing::Long => "J"@,
            Boxing::Double => "D"@,
            _ => "I"@,
        },
    }
}

/// The width of the value in a box.
pub open spec fn boxed_width(boxing: Boxing) -> u32 {
    if boxing == Boxing::Long || boxing == Boxing::Double {
        64
    } else {
        32
    }
}

/// The value an argument stands for: the argument itself, or the value of the
/// box it refers to.
pub open spec fn arg_tm(e: Encoder, class: Seq<char>, boxing: Boxing, op: Operand) -> Tm {
    if boxing == Boxing::Plain {
        e.operand_tm(op)
    } else {
        term::t2(Op2::Select, e.field_tm(value_field(class, boxing)), e.operand_tm(op))
    }
}

/// All widths found by name are usable.
proof fn lemma_sized(class: Seq<char>, name: Seq<char>, d: Seq<char>)
    ensures
        call_case(class, name, d) matches Some(c) ==> math_sized(c.f),
{
}

/// What the encoding of a modelled call leaves behind: `t` is its value. What is
/// not modelled exactly is a new symbol.
pub open spec fn math_outcome(
    e: Encoder,
    old: Encoder,
    target: MethodKey,
    args: Seq<Operand>,
    t: Term,
) -> bool {
    match call_case(target.class@, target.name@, target.desc@) {
        None => {
            &&& e.settled_from(old)
            &&& e.terms.tm(t) == Tm::FreshBv(
                old.terms.size(),
                "math_hv"@,
                32,
            )
        },
        Some(c) => {
            let w = desc::param_width(target.desc@, 0);
            match math_any(c.f, w) {
                Some(s) => {
                    &&& e.settled_from(old)
                    &&& e.terms.tm(t) == Tm::FreshBv(
                        old.terms.size(),
                        s.0,
                        s.1,
                    )
                },
                None => {
                    &&& e.math_from(old, target.class@, c.boxing)
                    &&& e.knows(args[0])
                    &&& math_arity(c.f) == 2 ==> e.knows(args[1])
                    &&& e.terms.tm(t) == math_tm(
                        c.f,
                        w,
                        arg_tm(e, target.class@, c.boxing, args[0]),
                        arg_tm(
                            e,
                            target.class@,
                            c.boxing,
                            args[if math_arity(c.f) == 2 {
                                1
                            } else {
                                0
                            }],
                        ),
                    )
                },
            }
        },
    }
}

impl<'a> Encoder<'a> {
    /// Opening a field after settling variables.
    pub proof fn lemma_open_after_settle(
        self,
        mid: Encoder<'a>,
        old: Encoder<'a>,
        k: FieldKeyV,
        w: u32,
    )
        requires
            old.ok(),
            mid.settled_from(old),
            self.opened_from(mid, k, w),
            self.st.vars == mid.st.vars,
        ensures
            self.opened_from(old, k, w),
    {
        old.st.lemma_fits(old.body.vars@.len(), old.terms);
        mid.st.lemma_fits(mid.body.vars@.len(), mid.terms);
        assert forall|i: int|
            0 <= i < self.st.vars@.len() && old.st.vars@[i] is None && (
            #[trigger] self.st.vars@[i]) is Some implies {
            &&& (self.st.vars@[i]->0).pos() >= old.terms.size()
            &&& self.terms.tm(self.st.vars@[i]->0) == Tm::FreshBv(
                (self.st.vars@[i]->0).pos(),
                super::state::uninit_name(crate::ir::VarId(i as u32)),
                self.var_width(crate::ir::VarId(i as u32)),
            )
        } by {
            assert(mid.st.vars@[i] is Some);
            assert(mid.terms.has_opt(mid.st.vars@[i]));
            assert(mid.terms.has(mid.st.vars@[i]->0));
        }
        assert forall|x: FieldKeyV|
            x != k || old.st.field_arrays.at(k) is Some implies #[trigger] self.st.field_arrays.at(x)
            == old.st.field_arrays.at(x) by {
            assert(mid.st.field_arrays.at(x) == old.st.field_arrays.at(x));
        }
    }

    /// Building terms after opening a field.
    pub proof fn lemma_open_then_build(self, mid: Encoder<'a>, old: Encoder<'a>, k: FieldKeyV, w: u32)
        requires
            old.ok(),
            mid.opened_from(old, k, w),
            self == (Encoder { terms: self.terms, ..mid }),
            self.terms.built_from(mid.terms),
        ensures
            self.opened_from(old, k, w),
            self.field_tm(k) == mid.field_tm(k),
    {
        mid.st.lemma_fits(mid.body.vars@.len(), mid.terms);
        mid.st.lemma_fits_grown(mid.body.vars@.len(), mid.terms, self.terms);
        assert(mid.terms.has_opt(mid.st.field_arrays.at(k)));
        assert(mid.terms.has(mid.st.field_arrays.at(k)->0));
        assert forall|i: int|
            0 <= i < self.st.vars@.len() && old.st.vars@[i] is None && (
            #[trigger] self.st.vars@[i]) is Some implies {
            &&& (self.st.vars@[i]->0).pos() >= old.terms.size()
            &&& self.terms.tm(self.st.vars@[i]->0) == Tm::FreshBv(
                (self.st.vars@[i]->0).pos(),
                super::state::uninit_name(crate::ir::VarId(i as u32)),
                self.var_width(crate::ir::VarId(i as u32)),
            )
        } by {
            assert(mid.terms.has_opt(mid.st.vars@[i]));
            assert(mid.terms.has(mid.st.vars@[i]->0));
        }
    }

    /// The tree of an operand is the same in every store grown from this one.
    pub proof fn lemma_operand_same(self, mid: Encoder<'a>, op: Operand)
        requires
            mid.ok(),
            op.in_range(mid.body.vars@.len()),
            mid.knows(op),
            self.st.vars == mid.st.vars,
            self.terms.built_from(mid.terms),
        ensures
            self.knows(op),
            self.operand_tm(op) == mid.operand_tm(op),
    {
        mid.st.lemma_fits(mid.body.vars@.len(), mid.terms);
        if let Operand::Var(v) = op {
            assert(mid.terms.has_opt(mid.st.vars@[v.0 as int]));
            assert(mid.terms.has(mid.st.vars@[v.0 as int]->0));
        }
    }

    /// What a modelled call leaves behind besides its result.
    pub open spec fn math_from(self, old: Encoder<'a>, class: Seq<char>, boxing: Boxing) -> bool {
        if boxing == Boxing::Plain {
            self.settled_from(old)
        } else {
            self.opened_from(old, value_field(class, boxing), boxed_width(boxing))
        }
    }

    /// The values of the first two arguments that a method reads. Where it reads
    /// fewer, the missing ones repeat the first.
    pub fn encode_arguments(
        &mut self,
        class: &String,
        boxing: Boxing,
        n: usize,
        args: &Vec<Operand>,
    ) -> (r: (Term, Term))
        requires
            old(self).ok(),
            1 <= n <= 2,
            n <= args@.len(),
            crate::ir::operands_in_range(args@, old(self).body.vars@.len()),
        ensures
            final(self).math_from(*old(self), class@, boxing),
            final(self).terms.has(r.0),
            final(self).terms.has(r.1),
            final(self).knows(args@[0]),
            final(self).terms.tm(r.0) == arg_tm(*final(self), class@, boxing, args@[0]),
            n == 2 ==> final(self).knows(args@[1]) && final(self).terms.tm(r.1) == arg_tm(
                *final(self),
                class@,
                boxing,
                args@[1],
            ),
    {
        let a = self.encode_operand(&args[0]);
        let ghost first = *self;
        let b = if n == 2 {
            self.encode_operand(&args[1])
        } else {
            a
        };
        proof {
            if n == 2 {
                self.lemma_settled_trans(first, *old(self));
                self.lemma_operand_stable(first, args@[0]);
            }
        }
        let ghost mid = *self;
        match boxing {
            Boxing::Plain => (a, b),
            _ => {
                let d = match boxing {
                    Boxing::Long => "J",
                    Boxing::Double => "D",
                    _ => "I",
                };
                let w: u32 = match boxing {
                    Boxing::Long | Boxing::Double => 64,
                    _ => 32,
                };
                let key = FieldKey {
                    class: class.clone(),
                    name: "$$value".to_string(),
                    desc: d.to_string(),
                };
                let arr = self.get_field_array(&key, w);
                let ghost opened = *self;
                proof {
                    assert(key@ == value_field(class@, boxing));
                    self.lemma_open_after_settle(mid, *old(self), key@, w);
                    self.lemma_operand_same(mid, args@[0]);
                    if n == 2 {
                        self.lemma_operand_same(mid, args@[1]);
                    }
                }
                let x = self.terms.app2(Op2::Select, arr, a);
                let y = if n == 2 {
                    self.terms.app2(Op2::Select, arr, b)
                } else {
                    x
                };
                proof {
                    self.lemma_open_then_build(opened, *old(self), key@, w);
                    self.lemma_operand_same(opened, args@[0]);
                    if n == 2 {
                        self.lemma_operand_same(opened, args@[1]);
                    }
                }
                (x, y)
            },
        }
    }

    /// Encode a call of a modelled method; any other call gives an unconstrained
    /// 32-bit value.
    pub fn encode_math_call(&mut self, target: &MethodKey, args: &Vec<Operand>) -> (t: Term)
        requires
            old(self).ok(),
            crate::ir::operands_in_range(args@, old(self).body.vars@.len()),
            call_case(target.class@, target.name@, target.desc@) matches Some(c) ==> math_arity(c.f)
                <= args@.len(),
        ensures
            final(self).terms.has(t),
            math_outcome(*final(self), *old(self), *target, args@, t),
    {
        let w = arg_width_from_desc(target.desc.as_str(), 0);
        proof {
            lemma_sized(target.class@, target.name@, target.desc@);
        }
        match find_case(target) {
            None => {
                let t = self.terms.fresh_bv("math_hv", 32);
                proof {
                    self.lemma_built_settles(*old(self));
                }
                t
            },
            Some(c) => {
                let n = arity(c.f);
                if n == 0 {
                    let t = match c.f {
                        MathFn::AnyParsed(k) => self.terms.fresh_bv("parse", k),
                        MathFn::AnyFpSum => self.terms.fresh_bv("fp_sum", w),
                        _ => self.terms.fresh_bv("fp_trunc", 32),
                    };
                    proof {
                        self.lemma_built_settles(*old(self));
                    }
                    t
                } else {
                    let (a, b) = self.encode_arguments(&target.class, c.boxing, n, args);
                    let b = if n == 2 {
                        b
                    } else {
                        a
                    };
                    let ghost mid = *self;
                    let t = build_math(&mut self.terms, c.f, w, a, b);
                    proof {
                        let k = value_field(target.class@, c.boxing);
                        let kw = boxed_width(c.boxing);
                        if c.boxing == Boxing::Plain {
                            self.lemma_built_settles(mid);
                            self.lemma_settled_trans(mid, *old(self));
                        } else {
                            self.lemma_open_then_build(mid, *old(self), k, kw);
                        }
                        self.lemma_operand_same(mid, args@[0]);
                        if n == 2 {
                            self.lemma_operand_same(mid, args@[1]);
                        }
                    }
                    t
                }
            },
        }
    }
}

} // verus!
