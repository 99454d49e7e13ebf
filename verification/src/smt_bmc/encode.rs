//! Terms of the right-hand sides of assignments.

use vstd::prelude::*;

use super::formula;
use super::formula::{flag, three_way};
use super::state;
use super::state::{width_of_ty, ArrayEntry, Encoder};
use crate::ir::{BinOp, Const, Operand, Ty};
use crate::term;
use crate::term::{Op1, Op2, Term, Terms, Tm};

verus! {

/// The next number, as long as there is one.
pub open spec fn bump(n: i64) -> i64 {
    if n < i64::MAX {
        (n + 1) as i64
    } else {
        n
    }
}

pub fn next_number(n: i64) -> (r: i64)
    ensures
        r == bump(n),
{
    if n < i64::MAX {
        n + 1
    } else {
        n
    }
}

/// The value `t` of width `w`, widened to the width of the other operand where
/// that is larger.
pub open spec fn widened(t: Tm, w: u32, other: u32) -> Tm {
    if w < other {
        formula::sext(t, (other - w) as u32)
    } else {
        t
    }
}

fn widen(ts: &mut Terms, t: Term, w: u32, other: u32) -> (r: Term)
    requires
        old(ts).well_formed(),
        old(ts).has(t),
    ensures
        final(ts).built_from(*old(ts)),
        final(ts).has(r),
        final(ts).tm(r) == widened(old(ts).tm(t), w, other),
{
    if w < other {
        ts.app1(Op1::SignExtend(other - w), t)
    } else {
        t
    }
}

/// Is the operator a shift?
pub open spec fn shifts(op: BinOp) -> bool {
    op == BinOp::Shl || op == BinOp::Shr || op == BinOp::UShr
}

/// The distance of a shift: the low five bits, or six for a wide value.
pub open spec fn distance(b: Tm, aw: u32) -> Tm {
    if aw == 64 {
        formula::zext(formula::band(b, term::bv32(0x3F)), 32)
    } else {
        formula::band(b, term::bv32(0x1F))
    }
}

/// The result of a binary operator on values of widths `aw` and `bw`.
pub open spec fn bin_tm(op: BinOp, a: Tm, b: Tm, aw: u32, bw: u32) -> Tm {
    let x = widened(a, aw, bw);
    let y = widened(b, bw, aw);
    match op {
        BinOp::Add => formula::plus(x, y),
        BinOp::Sub => formula::minus(x, y),
        BinOp::Mul => formula::times(x, y),
        BinOp::Div => formula::sdiv(x, y),
        BinOp::Rem => formula::srem(x, y),
        BinOp::And => formula::band(x, y),
        BinOp::Or => formula::bor(x, y),
        BinOp::Xor => formula::bxor(x, y),
        BinOp::Shl => formula::shl(a, distance(b, aw)),
        BinOp::Shr => term::t2(Op2::BvAshr, a, distance(b, aw)),
        BinOp::UShr => formula::lshr(a, distance(b, aw)),
        BinOp::Eq => formula::flag_tm(term::tm_eq(x, y)),
        BinOp::Ne => formula::flag_tm(term::tm_not(term::tm_eq(x, y))),
        BinOp::Lt => formula::flag_tm(formula::slt(x, y)),
        BinOp::Le => formula::flag_tm(formula::sle(x, y)),
        BinOp::Gt => formula::flag_tm(formula::sgt(x, y)),
        BinOp::Ge => formula::flag_tm(formula::sge(x, y)),
    }
}

fn shift_distance(ts: &mut Terms, b: Term, aw: u32) -> (t: Term)
    requires
        old(ts).well_formed(),
        old(ts).has(b),
    ensures
        final(ts).built_from(*old(ts)),
        final(ts).has(t),
        final(ts).tm(t) == distance(old(ts).tm(b), aw),
{
    if aw == 64 {
        let mask = ts.bv_const(0x3F, 32);
        let low = ts.app2(Op2::BvAnd, b, mask);
        ts.app1(Op1::ZeroExtend(32), low)
    } else {
        let mask = ts.bv_const(0x1F, 32);
        ts.app2(Op2::BvAnd, b, mask)
    }
}

/// Build the result of a binary operator on values of widths `aw` and `bw`.
pub fn build_binop(ts: &mut Terms, op: BinOp, a: Term, b: Term, aw: u32, bw: u32) -> (t: Term)
    requires
        old(ts).well_formed(),
        old(ts).has(a),
        old(ts).has(b),
    ensures
        final(ts).built_from(*old(ts)),
        final(ts).has(t),
        final(ts).tm(t) == bin_tm(op, old(ts).tm(a), old(ts).tm(b), aw, bw),
{
    match op {
        BinOp::Shl => {
            let d = shift_distance(ts, b, aw);
            ts.app2(Op2::BvShl, a, d)
        },
        BinOp::Shr => {
            let d = shift_distance(ts, b, aw);
            ts.app2(Op2::BvAshr, a, d)
        },
        BinOp::UShr => {
            let d = shift_distance(ts, b, aw);
            ts.app2(Op2::BvLshr, a, d)
        },
        _ => {
            let x = widen(ts, a, aw, bw);
            let y = widen(ts, b, bw, aw);
            match op {
                BinOp::Add => ts.app2(Op2::BvAdd, x, y),
                BinOp::Sub => ts.app2(Op2::BvSub, x, y),
                BinOp::Mul => ts.app2(Op2::BvMul, x, y),
                BinOp::Div => ts.app2(Op2::BvSdiv, x, y),
                BinOp::Rem => ts.app2(Op2::BvSrem, x, y),
                BinOp::And => ts.app2(Op2::BvAnd, x, y),
                BinOp::Or => ts.app2(Op2::BvOr, x, y),
                BinOp::Xor => ts.app2(Op2::BvXor, x, y),
                BinOp::Eq => {
                    let c = ts.equal(x, y);
                    flag(ts, c)
                },
                BinOp::Ne => {
                    let e = ts.equal(x, y);
                    let c = ts.not(e);
                    flag(ts, c)
                },
                BinOp::Lt => {
                    let c = ts.app2(Op2::BvSlt, x, y);
                    flag(ts, c)
                },
                BinOp::Le => {
                    let c = ts.app2(Op2::BvSle, x, y);
                    flag(ts, c)
                },
                BinOp::Gt => {
                    let c = ts.app2(Op2::BvSgt, x, y);
                    flag(ts, c)
                },
                _ => {
                    let c = ts.app2(Op2::BvSge, x, y);
                    flag(ts, c)
                },
            }
        },
    }
}

/// The three-way comparison of values of widths `aw` and `bw`.
pub open spec fn ordered_tm(a: Tm, b: Tm, aw: u32, bw: u32) -> Tm {
    let x = widened(a, aw, bw);
    let y = widened(b, bw, aw);
    formula::three_way_tm(formula::slt(x, y), term::tm_eq(x, y))
}

pub fn build_three_way(ts: &mut Terms, a: Term, b: Term, aw: u32, bw: u32) -> (t: Term)
    requires
        old(ts).well_formed(),
        old(ts).has(a),
        old(ts).has(b),
    ensures
        final(ts).built_from(*old(ts)),
        final(ts).has(t),
        final(ts).tm(t) == ordered_tm(old(ts).tm(a), old(ts).tm(b), aw, bw),
{
    let x = widen(ts, a, aw, bw);
    let y = widen(ts, b, bw, aw);
    let lt = ts.app2(Op2::BvSlt, x, y);
    let eq = ts.equal(x, y);
    three_way(ts, lt, eq)
}

/// The contents of the array that `r` refers to: those of the last entry with an
/// equal reference among the first `n`, and `base` if there is none.
pub open spec fn contents_tm(ts: Terms, arrays: Seq<ArrayEntry>, n: nat, r: Tm, base: Tm) -> Tm
    decreases n,
{
    if n == 0 {
        base
    } else {
        let e = arrays[n - 1];
        term::tm_ite(
            term::tm_eq(r, ts.tm(e.reference)),
            ts.tm(e.contents),
            contents_tm(ts, arrays, (n - 1) as nat, r, base),
        )
    }
}

/// The symbol for the length of an array that is not known.
pub open spec fn unknown_length(at: nat) -> Tm {
    Tm::FreshBv(at, "len_default"@, 32)
}

/// The symbol for the contents of an array that is not known.
pub open spec fn unknown_contents(at: nat) -> Tm {
    Tm::FreshArray(at, "arr_default"@, 32)
}

/// The length of the array that `r` refers to, found as its contents are.
pub open spec fn length_tm(ts: Terms, arrays: Seq<ArrayEntry>, n: nat, r: Tm, base: Tm) -> Tm
    decreases n,
{
    if n == 0 {
        base
    } else {
        let e = arrays[n - 1];
        term::tm_ite(
            term::tm_eq(r, ts.tm(e.reference)),
            ts.tm(e.length),
            length_tm(ts, arrays, (n - 1) as nat, r, base),
        )
    }
}

/// The range of an input declared with one of the narrow types `Z`, `B`, `S` and
/// `C` (given by their codes). With `ascii_only` characters stay in the range on which
/// the character methods are modelled precisely.
pub open spec fn nondet_range(b: Option<u8>, ascii_only: bool) -> Option<(int, int)> {
    match b {
        Some(c) => if c == 90 {
            Some((0, 1))
        } else if c == 66 {
            Some((-128, 127))
        } else if c == 83 {
            Some((-32768, 32767))
        } else if c == 67 {
            Some(
                (
                    0,
                    if ascii_only {
                        127
                    } else {
                        65535
                    },
                ),
            )
        } else {
            None
        },
        None => None,
    }
}

fn find_range(b: Option<u8>, ascii_only: bool) -> (r: Option<(i64, i64)>)
    ensures
        match r {
            Some(p) => nondet_range(b, ascii_only) == Some((p.0 as int, p.1 as int)),
            None => nondet_range(b, ascii_only) is None,
        },
{
    match b {
        Some(c) => {
            if c == 90 {
                Some((0, 1))
            } else if c == 66 {
                Some((-128, 127))
            } else if c == 83 {
                Some((-32768, 32767))
            } else if c == 67 && ascii_only {
                Some((0, 127))
            } else if c == 67 {
                Some((0, 65535))
            } else {
                None
            }
        },
        None => None,
    }
}

/// The formula that a reference is not `null`.
pub open spec fn not_null(t: Tm) -> Tm {
    term::tm_not(term::tm_eq(t, term::bv32(0)))
}

/// What is asserted of an input `x`.
pub open spec fn nondet_facts(x: Tm, ty: Ty, b: Option<u8>, ascii_only: bool) -> Seq<Tm> {
    let w = state::ty_width(ty);
    let first = if ty == Ty::Str {
        seq![not_null(x)]
    } else {
        seq![]
    };
    match nondet_range(b, ascii_only) {
        Some(p) => first.push(
            term::tm_and(formula::sge(x, Tm::Bv(p.0, w)), formula::sle(x, Tm::Bv(p.1, w))),
        ),
        None => first,
    }
}

/// Is `x` a value equal to one of the type numbers?
pub open spec fn one_of(x: Tm, ids: Seq<i64>, n: nat) -> Tm
    decreases n,
{
    if n == 0 {
        Tm::Bool(false)
    } else {
        term::tm_or(
            one_of(x, ids, (n - 1) as nat),
            term::tm_eq(x, term::bv32(ids[n - 1] as int)),
        )
    }
}

/// The formula that a reference is not `null`.
pub fn nonzero_constraint(ts: &mut Terms, t: Term) -> (r: Term)
    requires
        old(ts).well_formed(),
        old(ts).has(t),
    ensures
        final(ts).built_from(*old(ts)),
        final(ts).has(r),
        final(ts).tm(r) == not_null(old(ts).tm(t)),
{
    let zero = ts.bv_const(0, 32);
    let eq = ts.equal(t, zero);
    ts.not(eq)
}

/// The formula that a value is zero.
pub fn zero_constraint(ts: &mut Terms, t: Term) -> (r: Term)
    requires
        old(ts).well_formed(),
        old(ts).has(t),
    ensures
        final(ts).built_from(*old(ts)),
        final(ts).has(r),
        final(ts).tm(r) == term::tm_eq(old(ts).tm(t), term::bv32(0)),
{
    let zero = ts.bv_const(0, 32);
    ts.equal(t, zero)
}

/// Assert that a value is not zero.
pub fn assert_nonzero(ts: &mut Terms, t: Term)
    requires
        old(ts).well_formed(),
        old(ts).has(t),
    ensures
        final(ts).stated_from(*old(ts), seq![not_null(old(ts).tm(t))]),
{
    let c = nonzero_constraint(ts, t);
    let ghost mid = *ts;
    ts.insist(c);
    proof {
        mid.lemma_built_states(*old(ts));
        ts.lemma_state_more(mid, *old(ts), seq![], c);
        assert(Seq::<Tm>::empty().push(mid.tm(c)) =~= seq![not_null(old(ts).tm(t))]);
    }
}

/// Assert what holds of an input.
pub fn state_nondet(ts: &mut Terms, t: Term, ty: Ty, b: Option<u8>, w: u32, ascii_only: bool)
    requires
        old(ts).well_formed(),
        old(ts).has(t),
        w == state::ty_width(ty),
    ensures
        final(ts).stated_from(*old(ts), nondet_facts(old(ts).tm(t), ty, b, ascii_only)),
{
    proof {
        ts.lemma_built_states(*ts);
    }
    let ghost mut facts: Seq<Tm> = seq![];
    if ty == Ty::Str {
        assert_nonzero(ts, t);
        proof {
            facts = seq![not_null(old(ts).tm(t))];
        }
    }
    let ghost mid = *ts;
    if let Some((lo, hi)) = find_range(b, ascii_only) {
        let lo_t = ts.bv_const(lo, w);
        let hi_t = ts.bv_const(hi, w);
        let ge = ts.app2(Op2::BvSge, t, lo_t);
        let le = ts.app2(Op2::BvSle, t, hi_t);
        let c = ts.app2(Op2::And, ge, le);
        let ghost built = *ts;
        proof {
            built.lemma_state_then_build(mid, *old(ts), facts);
        }
        ts.insist(c);
        proof {
            ts.lemma_state_more(built, *old(ts), facts, c);
        }
    }
}

impl<'a> Encoder<'a> {
    /// The width of an operand: that of the last assignment, or the declared one.
    pub open spec fn operand_width(self, op: Operand) -> u32 {
        match op {
            Operand::Var(v) => match self.st.var_widths@[v.0 as int] {
                Some(w) => w,
                None => self.var_width(v),
            },
            Operand::Const(Const::Long(_)) | Operand::Const(Const::Double(_)) => 64,
            _ => 32,
        }
    }

    /// The width of an operand.
    pub fn width_of_operand(&self, op: &Operand) -> (w: u32)
        requires
            self.ok(),
            op.in_range(self.body.vars@.len()),
        ensures
            w == self.operand_width(*op),
    {
        proof {
            self.st.lemma_fits(self.body.vars@.len(), self.terms);
        }
        match op {
            Operand::Var(v) => match self.st.var_widths[v.0 as usize] {
                Some(w) => w,
                None => width_of_ty(&self.body.var(*v).ty),
            },
            Operand::Const(Const::Long(_)) | Operand::Const(Const::Double(_)) => 64,
            _ => 32,
        }
    }

    /// The terms of two operands.
    pub fn encode_pair(&mut self, a: &Operand, b: &Operand) -> (r: (Term, Term))
        requires
            old(self).ok(),
            a.in_range(old(self).body.vars@.len()),
            b.in_range(old(self).body.vars@.len()),
        ensures
            final(self).settled_from(*old(self)),
            final(self).terms.has(r.0),
            final(self).terms.has(r.1),
            final(self).knows(*a),
            final(self).knows(*b),
            final(self).terms.tm(r.0) == final(self).operand_tm(*a),
            final(self).terms.tm(r.1) == final(self).operand_tm(*b),
    {
        let x = self.encode_operand(a);
        let ghost mid = *self;
        let y = self.encode_operand(b);
        proof {
            self.lemma_settled_trans(mid, *old(self));
            self.lemma_operand_stable(mid, *a);
        }
        (x, y)
    }

    /// Building terms after settling variables.
    pub proof fn lemma_settle_then_build(self, mid: Encoder<'a>, old: Encoder<'a>)
        requires
            old.ok(),
            mid.settled_from(old),
            self == (Encoder { terms: self.terms, ..mid }),
            self.terms.built_from(mid.terms),
        ensures
            self.settled_from(old),
    {
        self.lemma_built_settles(mid);
        self.lemma_settled_trans(mid, old);
    }

    /// Encode a binary operation.
    pub fn encode_binop(&mut self, op: BinOp, a: &Operand, b: &Operand) -> (t: Term)
        requires
            old(self).ok(),
            a.in_range(old(self).body.vars@.len()),
            b.in_range(old(self).body.vars@.len()),
        ensures
            final(self).settled_from(*old(self)),
            final(self).terms.has(t),
            final(self).knows(*a),
            final(self).knows(*b),
            final(self).terms.tm(t) == bin_tm(
                op,
                final(self).operand_tm(*a),
                final(self).operand_tm(*b),
                old(self).operand_width(*a),
                old(self).operand_width(*b),
            ),
    {
        let (x, y) = self.encode_pair(a, b);
        let aw = self.width_of_operand(a);
        let bw = self.width_of_operand(b);
        let ghost mid = *self;
        let t = build_binop(&mut self.terms, op, x, y, aw, bw);
        proof {
            self.lemma_settle_then_build(mid, *old(self));
            self.lemma_operand_same(mid, *a);
            self.lemma_operand_same(mid, *b);
        }
        t
    }

    pub fn encode_three_way(&mut self, a: &Operand, b: &Operand) -> (t: Term)
        requires
            old(self).ok(),
            a.in_range(old(self).body.vars@.len()),
            b.in_range(old(self).body.vars@.len()),
        ensures
            final(self).settled_from(*old(self)),
            final(self).terms.has(t),
            final(self).knows(*a),
            final(self).knows(*b),
            final(self).terms.tm(t) == ordered_tm(
                final(self).operand_tm(*a),
                final(self).operand_tm(*b),
                old(self).operand_width(*a),
                old(self).operand_width(*b),
            ),
    {
        let (x, y) = self.encode_pair(a, b);
        let aw = self.width_of_operand(a);
        let bw = self.width_of_operand(b);
        let ghost mid = *self;
        let t = build_three_way(&mut self.terms, x, y, aw, bw);
        proof {
            self.lemma_settle_then_build(mid, *old(self));
            self.lemma_operand_same(mid, *a);
            self.lemma_operand_same(mid, *b);
        }
        t
    }
}

} // verus!
