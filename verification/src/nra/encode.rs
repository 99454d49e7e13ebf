//! Operands, rvalues and calls as terms over the reals.

use vstd::prelude::*;

use super::terms::{Real, RealOp, RealTerm, RealTerms};
use crate::ir;
use crate::ir::{BinOp, Const, MethodKey, MethodKeyV, Operand, Rvalue};
use crate::text::same;

verus! {

/// An operation on one term.
pub open spec fn of1(op: RealOp, a: Real) -> Real {
    Real::App(op, seq![a])
}

/// An operation on two terms.
pub open spec fn of2(op: RealOp, a: Real, b: Real) -> Real {
    Real::App(op, seq![a, b])
}

/// The first term if the condition holds, else the second.
pub open spec fn ite(c: Real, a: Real, b: Real) -> Real {
    Real::App(RealOp::Ite, seq![c, a, b])
}

/// Is the floating-point number neither infinite nor not a number?
pub open spec fn finite32(bits: u32) -> bool {
    (bits / 0x80_0000) % 256 != 255
}

/// Is the floating-point number neither infinite nor not a number?
pub open spec fn finite64(bits: u64) -> bool {
    (bits / 0x10_0000_0000_0000) % 2048 != 2047
}

/// An operand. What is no number is 0.
pub open spec fn operand(vars: Seq<Real>, o: Operand) -> Real {
    match o {
        Operand::Var(v) => vars[v.0 as int],
        Operand::Const(Const::Int(n)) => Real::Number(n as i64),
        Operand::Const(Const::Long(n)) => Real::Number(n),
        Operand::Const(Const::Float(b)) => if finite32(b) {
            Real::Float(b)
        } else {
            Real::Number(0)
        },
        Operand::Const(Const::Double(b)) => if finite64(b) {
            Real::Double(b)
        } else {
            Real::Number(0)
        },
        _ => Real::Number(0),
    }
}

/// 1 if the condition holds, else 0.
pub open spec fn as_number(c: Real) -> Real {
    ite(c, Real::Number(1), Real::Number(0))
}

/// The greatest integer that is not above, as a real.
pub open spec fn floor(a: Real) -> Real {
    of1(RealOp::ToReal, of1(RealOp::ToInteger, a))
}

/// A binary operator. The remainder is that of the quotient rounded down;
/// operators on bits have no meaning for reals and give 0.
pub open spec fn binary(op: BinOp, a: Real, b: Real) -> Real {
    match op {
        BinOp::Add => of2(RealOp::Add, a, b),
        BinOp::Sub => of2(RealOp::Sub, a, b),
        BinOp::Mul => of2(RealOp::Mult, a, b),
        BinOp::Div => of2(RealOp::Division, a, b),
        BinOp::Rem => of2(
            RealOp::Sub,
            a,
            of2(RealOp::Mult, floor(of2(RealOp::Division, a, b)), b),
        ),
        BinOp::Eq => as_number(of2(RealOp::Equal, a, b)),
        BinOp::Ne => as_number(of1(RealOp::Not, of2(RealOp::Equal, a, b))),
        BinOp::Lt => as_number(of2(RealOp::Lt, a, b)),
        BinOp::Le => as_number(of2(RealOp::Leq, a, b)),
        BinOp::Gt => as_number(of2(RealOp::Gt, a, b)),
        BinOp::Ge => as_number(of2(RealOp::Geq, a, b)),
        _ => Real::Number(0),
    }
}

/// -1, 0 or 1 as the first is less than, equal to or greater than the second.
pub open spec fn three_way(a: Real, b: Real) -> Real {
    ite(
        of2(RealOp::Lt, a, b),
        Real::Number((-1i64) as i64),
        ite(of2(RealOp::Equal, a, b), Real::Number(0), Real::Number(1)),
    )
}

/// The functions on numbers that are known by name.
#[derive(Clone, Copy, Debug, PartialEq, Eq, Structural)]
pub enum MathFn {
    /// One that is an operation on terms.
    Direct(RealOp),
    Atan2,
    Log,
    Log10,
    Pow,
    Abs,
    Min,
    Max,
    Ceil,
    Floor,
    Round,
    ToRadians,
    ToDegrees,
    Sinh,
    Cosh,
    Tanh,
    Unknown,
}

/// Is the class one of functions on numbers?
pub open spec fn math_class(class: Seq<char>) -> bool {
    class == "java/lang/Math"@ || class == "java/lang/StrictMath"@
}

/// The function of the name.
pub open spec fn named(name: Seq<char>) -> MathFn {
    if name == "sin"@ {
        MathFn::Direct(RealOp::Sine)
    } else if name == "cos"@ {
        MathFn::Direct(RealOp::Cosine)
    } else if name == "tan"@ {
        MathFn::Direct(RealOp::Tangent)
    } else if name == "asin"@ {
        MathFn::Direct(RealOp::Arcsine)
    } else if name == "acos"@ {
        MathFn::Direct(RealOp::Arccosine)
    } else if name == "atan"@ {
        MathFn::Direct(RealOp::Arctangent)
    } else if name == "exp"@ {
        MathFn::Direct(RealOp::Exponential)
    } else if name == "sqrt"@ {
        MathFn::Direct(RealOp::Sqrt)
    } else if name == "atan2"@ {
        MathFn::Atan2
    } else if name == "log"@ {
        MathFn::Log
    } else if name == "log10"@ {
        MathFn::Log10
    } else if name == "pow"@ {
        MathFn::Pow
    } else if name == "abs"@ {
        MathFn::Abs
    } else if name == "min"@ {
        MathFn::Min
    } else if name == "max"@ {
        MathFn::Max
    } else if name == "ceil"@ {
        MathFn::Ceil
    } else if name == "floor"@ {
        MathFn::Floor
    } else if name == "round"@ {
        MathFn::Round
    } else if name == "toRadians"@ {
        MathFn::ToRadians
    } else if name == "toDegrees"@ {
        MathFn::ToDegrees
    } else if name == "sinh"@ {
        MathFn::Sinh
    } else if name == "cosh"@ {
        MathFn::Cosh
    } else if name == "tanh"@ {
        MathFn::Tanh
    } else {
        MathFn::Unknown
    }
}

/// The function that a call is of.
pub open spec fn math_fn(target: MethodKeyV) -> MathFn {
    if math_class(target.class) {
        named(target.name)
    } else {
        MathFn::Unknown
    }
}

/// The number of arguments that are looked at.
pub open spec fn arity(f: MathFn) -> nat {
    match f {
        MathFn::Log10 | MathFn::Pow | MathFn::Unknown => 0,
        MathFn::Atan2 | MathFn::Min | MathFn::Max => 2,
        _ => 1,
    }
}

/// Half a turn is 180 degrees.
pub open spec fn pi() -> Real {
    Real::App(RealOp::Pi, Seq::empty())
}

/// The exponentials of the number and of its negation.
pub open spec fn exponentials(a: Real) -> (Real, Real) {
    (of1(RealOp::Exponential, a), of1(RealOp::Exponential, of1(RealOp::Neg, a)))
}

/// The value of a function. Logarithms and powers have no operation and are left
/// unconstrained, as are functions that are not known: the name of a new symbol.
pub open spec fn value(f: MathFn, args: Seq<Real>) -> Result<Real, Seq<char>> {
    let a = args[0];
    let b = args[1];
    match f {
        MathFn::Direct(op) => Ok(of1(op, a)),
        MathFn::Atan2 => Ok(of1(RealOp::Arctangent, of2(RealOp::Division, a, b))),
        MathFn::Log => Err("_log"@),
        MathFn::Log10 => Err("_log10"@),
        MathFn::Pow => Err("_pow"@),
        MathFn::Abs => Ok(ite(of2(RealOp::Lt, a, Real::Number(0)), of1(RealOp::Neg, a), a)),
        MathFn::Min => Ok(ite(of2(RealOp::Leq, a, b), a, b)),
        MathFn::Max => Ok(ite(of2(RealOp::Geq, a, b), a, b)),
        MathFn::Ceil => Ok(of1(RealOp::Neg, floor(of1(RealOp::Neg, a)))),
        MathFn::Floor => Ok(floor(a)),
        MathFn::Round => Ok(floor(of2(RealOp::Add, a, Real::Half))),
        MathFn::ToRadians => Ok(
            of2(RealOp::Mult, of2(RealOp::Division, pi(), Real::Number(180)), a),
        ),
        MathFn::ToDegrees => Ok(
            of2(RealOp::Mult, of2(RealOp::Division, Real::Number(180), pi()), a),
        ),
        MathFn::Sinh => {
            let (p, n) = exponentials(a);
            Ok(of2(RealOp::Division, of2(RealOp::Sub, p, n), Real::Number(2)))
        },
        MathFn::Cosh => {
            let (p, n) = exponentials(a);
            Ok(of2(RealOp::Division, of2(RealOp::Add, p, n), Real::Number(2)))
        },
        MathFn::Tanh => {
            let (p, n) = exponentials(a);
            Ok(of2(RealOp::Division, of2(RealOp::Sub, p, n), of2(RealOp::Add, p, n)))
        },
        MathFn::Unknown => Err("_unknown_call"@),
    }
}

/// The operands.
pub open spec fn operands(vars: Seq<Real>, args: Seq<Operand>) -> Seq<Real> {
    args.map_values(|o: Operand| operand(vars, o))
}

/// An rvalue, or the name of a new symbol where nothing is known of it.
pub open spec fn meaning(vars: Seq<Real>, rv: Rvalue) -> Result<Real, Seq<char>> {
    match rv {
        Rvalue::Use(o) | Rvalue::Cast(_, o) => Ok(operand(vars, o)),
        Rvalue::Bin(op, a, b) => Ok(binary(op, operand(vars, a), operand(vars, b))),
        Rvalue::Neg(o) => Ok(of1(RealOp::Neg, operand(vars, o))),
        Rvalue::Cmp(a, b) => Ok(three_way(operand(vars, a), operand(vars, b))),
        Rvalue::Call { target, args, .. } => value(math_fn(target@), operands(vars, args@)),
        _ => Err("_fresh"@),
    }
}

/// The term of an rvalue, and the number of symbols after it.
pub open spec fn rvalue(vars: Seq<Real>, rv: Rvalue, symbols: nat) -> (Real, nat) {
    match meaning(vars, rv) {
        Ok(t) => (t, symbols),
        Err(name) => (Real::Symbol(name, symbols), symbols + 1),
    }
}

/// A call has the arguments that are looked at.
pub open spec fn encodable(rv: Rvalue) -> bool {
    rv matches Rvalue::Call { target, args, .. } ==> args@.len() >= arity(math_fn(target@))
}

fn named_exec(name: &str) -> (r: MathFn)
    ensures
        r == named(name@),
{
    if same(name, "sin") {
        return MathFn::Direct(RealOp::Sine);
    }
    if same(name, "cos") {
        return MathFn::Direct(RealOp::Cosine);
    }
    if same(name, "tan") {
        return MathFn::Direct(RealOp::Tangent);
    }
    if same(name, "asin") {
        return MathFn::Direct(RealOp::Arcsine);
    }
    if same(name, "acos") {
        return MathFn::Direct(RealOp::Arccosine);
    }
    if same(name, "atan") {
        return MathFn::Direct(RealOp::Arctangent);
    }
    if same(name, "exp") {
        return MathFn::Direct(RealOp::Exponential);
    }
    if same(name, "sqrt") {
        return MathFn::Direct(RealOp::Sqrt);
    }
    if same(name, "atan2") {
        return MathFn::Atan2;
    }
    if same(name, "log") {
        return MathFn::Log;
    }
    if same(name, "log10") {
        return MathFn::Log10;
    }
    if same(name, "pow") {
        return MathFn::Pow;
    }
    if same(name, "abs") {
        return MathFn::Abs;
    }
    if same(name, "min") {
        return MathFn::Min;
    }
    if same(name, "max") {
        return MathFn::Max;
    }
    if same(name, "ceil") {
        return MathFn::Ceil;
    }
    if same(name, "floor") {
        return MathFn::Floor;
    }
    if same(name, "round") {
        return MathFn::Round;
    }
    if same(name, "toRadians") {
        return MathFn::ToRadians;
    }
    if same(name, "toDegrees") {
        return MathFn::ToDegrees;
    }
    if same(name, "sinh") {
        return MathFn::Sinh;
    }
    if same(name, "cosh") {
        return MathFn::Cosh;
    }
    if same(name, "tanh") {
        return MathFn::Tanh;
    }
    MathFn::Unknown
}

fn math_fn_of(target: &MethodKey) -> (r: MathFn)
    ensures
        r == math_fn(target@),
{
    if same(target.class.as_str(), "java/lang/Math") || same(
        target.class.as_str(),
        "java/lang/StrictMath",
    ) {
        named_exec(target.name.as_str())
    } else {
        MathFn::Unknown
    }
}

impl RealTerms {
    /// An operand.
    pub fn encode_operand(&mut self, o: &Operand, vars: &Vec<RealTerm>) -> (r: RealTerm)
        requires
            old(self).well_formed(),
            old(self).has_all(vars@),
            o.in_range(vars@.len()),
        ensures
            final(self).extends(*old(self)),
            final(self).symbols == old(self).symbols,
            final(self).has(r),
            final(self).tree(r) == operand(old(self).all(vars@), *o),
    {
        match o {
            Operand::Var(v) => {
                proof {
                    assert(self.has(vars@[v.0 as int]));
                }
                vars[v.0 as usize]
            },
            Operand::Const(Const::Int(n)) => self.number(*n as i64),
            Operand::Const(Const::Long(n)) => self.number(*n),
            Operand::Const(Const::Float(b)) => if (*b / 0x80_0000) % 256 != 255 {
                self.float(*b)
            } else {
                self.number(0)
            },
            Operand::Const(Const::Double(b)) => if (*b / 0x10_0000_0000_0000) % 2048 != 2047 {
                self.double(*b)
            } else {
                self.number(0)
            },
            _ => self.number(0),
        }
    }

    /// 1 if the condition holds, else 0.
    fn encode_bit(&mut self, c: RealTerm) -> (r: RealTerm)
        requires
            old(self).well_formed(),
            old(self).has(c),
        ensures
            final(self).extends(*old(self)),
            final(self).symbols == old(self).symbols,
            final(self).has(r),
            final(self).tree(r) == as_number(old(self).tree(c)),
    {
        let one = self.number(1);
        let zero = self.number(0);
        self.ite(c, one, zero)
    }

    fn encode_floor(&mut self, a: RealTerm) -> (r: RealTerm)
        requires
            old(self).well_formed(),
            old(self).has(a),
        ensures
            final(self).extends(*old(self)),
            final(self).symbols == old(self).symbols,
            final(self).has(r),
            final(self).tree(r) == floor(old(self).tree(a)),
    {
        let i = self.app1(RealOp::ToInteger, a);
        self.app1(RealOp::ToReal, i)
    }

    /// A binary operator.
    pub fn encode_binop(&mut self, op: BinOp, a: RealTerm, b: RealTerm) -> (r: RealTerm)
        requires
            old(self).well_formed(),
            old(self).has(a),
            old(self).has(b),
        ensures
            final(self).extends(*old(self)),
            final(self).symbols == old(self).symbols,
            final(self).has(r),
            final(self).tree(r) == binary(op, old(self).tree(a), old(self).tree(b)),
    {
        match op {
            BinOp::Add => self.app2(RealOp::Add, a, b),
            BinOp::Sub => self.app2(RealOp::Sub, a, b),
            BinOp::Mul => self.app2(RealOp::Mult, a, b),
            BinOp::Div => self.app2(RealOp::Division, a, b),
            BinOp::Rem => {
                let q = self.app2(RealOp::Division, a, b);
                let f = self.encode_floor(q);
                let p = self.app2(RealOp::Mult, f, b);
                self.app2(RealOp::Sub, a, p)
            },
            BinOp::Eq => {
                let c = self.app2(RealOp::Equal, a, b);
                self.encode_bit(c)
            },
            BinOp::Ne => {
                let e = self.app2(RealOp::Equal, a, b);
                let c = self.app1(RealOp::Not, e);
                self.encode_bit(c)
            },
            BinOp::Lt => {
                let c = self.app2(RealOp::Lt, a, b);
                self.encode_bit(c)
            },
            BinOp::Le => {
                let c = self.app2(RealOp::Leq, a, b);
                self.encode_bit(c)
            },
            BinOp::Gt => {
                let c = self.app2(RealOp::Gt, a, b);
                self.encode_bit(c)
            },
            BinOp::Ge => {
                let c = self.app2(RealOp::Geq, a, b);
                self.encode_bit(c)
            },
            _ => self.number(0),
        }
    }

    fn encode_three_way(&mut self, a: RealTerm, b: RealTerm) -> (r: RealTerm)
        requires
            old(self).well_formed(),
            old(self).has(a),
            old(self).has(b),
        ensures
            final(self).extends(*old(self)),
            final(self).symbols == old(self).symbols,
            final(self).has(r),
            final(self).tree(r) == three_way(old(self).tree(a), old(self).tree(b)),
    {
        let less = self.app2(RealOp::Lt, a, b);
        let equal = self.app2(RealOp::Equal, a, b);
        let minus = self.number(-1);
        let zero = self.number(0);
        let one = self.number(1);
        let rest = self.ite(equal, zero, one);
        self.ite(less, minus, rest)
    }

    fn encode_exponentials(&mut self, a: RealTerm) -> (r: (RealTerm, RealTerm))
        requires
            old(self).well_formed(),
            old(self).has(a),
        ensures
            final(self).extends(*old(self)),
            final(self).symbols == old(self).symbols,
            final(self).has(r.0),
            final(self).has(r.1),
            (final(self).tree(r.0), final(self).tree(r.1)) == exponentials(old(self).tree(a)),
    {
        let p = self.app1(RealOp::Exponential, a);
        let m = self.app1(RealOp::Neg, a);
        let n = self.app1(RealOp::Exponential, m);
        (p, n)
    }

    /// A function of one argument.
    fn encode_math1(&mut self, f: MathFn, a: RealTerm) -> (r: RealTerm)
        requires
            old(self).well_formed(),
            old(self).has(a),
            arity(f) == 1,
            f != MathFn::Log,
        ensures
            final(self).extends(*old(self)),
            final(self).symbols == old(self).symbols,
            final(self).has(r),
            forall|args: Seq<Real>|
                args.len() >= 1 && args[0] == old(self).tree(a) ==> #[trigger] value(f, args) == Ok::<
                    Real,
                    Seq<char>,
                >(final(self).tree(r)),
    {
        match f {
            MathFn::Direct(op) => self.app1(op, a),
            MathFn::Abs => {
                let zero = self.number(0);
                let neg = self.app1(RealOp::Neg, a);
                let less = self.app2(RealOp::Lt, a, zero);
                self.ite(less, neg, a)
            },
            MathFn::Ceil => {
                let neg = self.app1(RealOp::Neg, a);
                let down = self.encode_floor(neg);
                self.app1(RealOp::Neg, down)
            },
            MathFn::Floor => self.encode_floor(a),
            MathFn::Round => {
                let half = self.half();
                let sum = self.app2(RealOp::Add, a, half);
                self.encode_floor(sum)
            },
            MathFn::ToRadians => {
                let pi = self.app0(RealOp::Pi);
                let half_turn = self.number(180);
                let factor = self.app2(RealOp::Division, pi, half_turn);
                self.app2(RealOp::Mult, factor, a)
            },
            MathFn::ToDegrees => {
                let pi = self.app0(RealOp::Pi);
                let half_turn = self.number(180);
                let factor = self.app2(RealOp::Division, half_turn, pi);
                self.app2(RealOp::Mult, factor, a)
            },
            MathFn::Sinh => {
                let (p, n) = self.encode_exponentials(a);
                let diff = self.app2(RealOp::Sub, p, n);
                let two = self.number(2);
                self.app2(RealOp::Division, diff, two)
            },
            MathFn::Cosh => {
                let (p, n) = self.encode_exponentials(a);
                let sum = self.app2(RealOp::Add, p, n);
                let two = self.number(2);
                self.app2(RealOp::Division, sum, two)
            },
            _ => {
                let (p, n) = self.encode_exponentials(a);
                let diff = self.app2(RealOp::Sub, p, n);
                let sum = self.app2(RealOp::Add, p, n);
                self.app2(RealOp::Division, diff, sum)
            },
        }
    }

    /// A function of two arguments.
    fn encode_math2(&mut self, f: MathFn, a: RealTerm, b: RealTerm) -> (r: RealTerm)
        requires
            old(self).well_formed(),
            old(self).has(a),
            old(self).has(b),
            arity(f) == 2,
        ensures
            final(self).extends(*old(self)),
            final(self).symbols == old(self).symbols,
            final(self).has(r),
            forall|args: Seq<Real>|
                args.len() >= 2 && args[0] == old(self).tree(a) && args[1] == old(self).tree(b)
                    ==> #[trigger] value(f, args) == Ok::<Real, Seq<char>>(final(self).tree(r)),
    {
        match f {
            MathFn::Atan2 => {
                let ratio = self.app2(RealOp::Division, a, b);
                self.app1(RealOp::Arctangent, ratio)
            },
            MathFn::Min => {
                let c = self.app2(RealOp::Leq, a, b);
                self.ite(c, a, b)
            },
            _ => {
                let c = self.app2(RealOp::Geq, a, b);
                self.ite(c, a, b)
            },
        }
    }

    /// A call of a function.
    pub fn encode_transcendental_call(
        &mut self,
        target: &MethodKey,
        args: &Vec<Operand>,
        vars: &Vec<RealTerm>,
    ) -> (r: RealTerm)
        requires
            old(self).well_formed(),
            old(self).has_all(vars@),
            ir::operands_in_range(args@, vars@.len()),
            args@.len() >= arity(math_fn(target@)),
        ensures
            final(self).extends(*old(self)),
            final(self).has(r),
            match value(math_fn(target@), operands(old(self).all(vars@), args@)) {
                Ok(t) => final(self).tree(r) == t && final(self).symbols == old(self).symbols,
                Err(name) => final(self).tree(r) == Real::Symbol(name, old(self).symbols as nat)
                    && final(self).symbols == old(self).symbols + 1,
            },
    {
        let f = math_fn_of(target);
        let ghost vs = self.all(vars@);
        match f {
            MathFn::Log => self.symbol("_log"),
            MathFn::Log10 => self.symbol("_log10"),
            MathFn::Pow => self.symbol("_pow"),
            MathFn::Unknown => self.symbol("_unknown_call"),
            MathFn::Atan2 | MathFn::Min | MathFn::Max => {
                proof {
                    assert(args@[0].in_range(vars@.len()));
                    assert(args@[1].in_range(vars@.len()));
                }
                let a = self.encode_operand(&args[0], vars);
                proof {
                    self.lemma_kept(*old(self), vars@);
                }
                let b = self.encode_operand(&args[1], vars);
                let r = self.encode_math2(f, a, b);
                proof {
                    assert(operands(vs, args@)[0] == operand(vs, args@[0]));
                    assert(operands(vs, args@)[1] == operand(vs, args@[1]));
                }
                r
            },
            _ => {
                proof {
                    assert(args@[0].in_range(vars@.len()));
                }
                let a = self.encode_operand(&args[0], vars);
                let r = self.encode_math1(f, a);
                proof {
                    assert(operands(vs, args@)[0] == operand(vs, args@[0]));
                }
                r
            },
        }
    }

    /// An rvalue.
    pub fn encode_rvalue(&mut self, rv: &Rvalue, vars: &Vec<RealTerm>) -> (r: RealTerm)
        requires
            old(self).well_formed(),
            old(self).has_all(vars@),
            ir::operands_in_range(ir::rvalue_operands(*rv), vars@.len()),
            encodable(*rv),
        ensures
            final(self).extends(*old(self)),
            final(self).has(r),
            (final(self).tree(r), final(self).symbols as nat) == rvalue(
                old(self).all(vars@),
                *rv,
                old(self).symbols as nat,
            ),
    {
        let ghost ops = ir::rvalue_operands(*rv);
        match rv {
            Rvalue::Use(o) | Rvalue::Cast(_, o) => {
                proof {
                    assert(ops[0].in_range(vars@.len()));
                }
                self.encode_operand(o, vars)
            },
            Rvalue::Bin(op, a, b) => {
                proof {
                    assert(ops[0].in_range(vars@.len()) && ops[1].in_range(vars@.len()));
                }
                let x = self.encode_operand(a, vars);
                proof {
                    self.lemma_kept(*old(self), vars@);
                }
                let y = self.encode_operand(b, vars);
                self.encode_binop(*op, x, y)
            },
            Rvalue::Neg(o) => {
                proof {
                    assert(ops[0].in_range(vars@.len()));
                }
                let x = self.encode_operand(o, vars);
                self.app1(RealOp::Neg, x)
            },
            Rvalue::Cmp(a, b) => {
                proof {
                    assert(ops[0].in_range(vars@.len()) && ops[1].in_range(vars@.len()));
                }
                let x = self.encode_operand(a, vars);
                proof {
                    self.lemma_kept(*old(self), vars@);
                }
                let y = self.encode_operand(b, vars);
                self.encode_three_way(x, y)
            },
            Rvalue::Call { target, args, .. } => self.encode_transcendental_call(
                target,
                args,
                vars,
            ),
            _ => self.symbol("_fresh"),
        }
    }
}

} // verus!
