//! The interval domain: `[lo, hi]` for each variable of type `int`.
//!
//! States are kept apart rather than joined, so a branch is narrowed on both of
//! its edges and a path whose assumption fails is dropped. Arithmetic that could
//! leave the range of `int` gives the whole range: a bound that is too wide only
//! costs precision, one that is too narrow would be wrong.

use core::ops::{Add, Mul, Neg, Sub};

use vstd::prelude::*;
use vstd::std_specs::ops::{AddSpecImpl, MulSpecImpl, NegSpecImpl, SubSpecImpl};

use crate::assoc::{Assoc, Name};
use crate::body_analysis;
use crate::body_analysis::{find_defining_bin, negate_binop};
use crate::ir::{
    BinOp, BlockId, Body, Const, MethodKey, MethodKeyV, Operand, Rvalue, Stmt, Terminator, VarId,
};
use crate::program::Program;

verus! {

/// The least `int`.
pub const NEG_INF: i64 = -2147483648;

/// The greatest `int`.
pub const POS_INF: i64 = 2147483647;

/// The numbers from `lo` to `hi`; none if `lo > hi`.
#[derive(Clone, Copy, PartialEq, Eq, Structural, Debug)]
pub struct Interval {
    pub lo: i64,
    pub hi: i64,
}

/// The result of an `int` operation: the low 32 bits, signed.
pub open spec fn wrap32(n: int) -> int {
    (n + 0x8000_0000) % 0x1_0000_0000 - 0x8000_0000
}

/// The lesser of two numbers.
pub open spec fn least(a: int, b: int) -> int {
    if a <= b {
        a
    } else {
        b
    }
}

/// The greater of two numbers.
pub open spec fn greatest(a: int, b: int) -> int {
    if a >= b {
        a
    } else {
        b
    }
}

/// The interval with the given bounds, or everything if a bound is not an `int`.
pub open spec fn clamped(lo: int, hi: int) -> Interval {
    if lo < NEG_INF || hi > POS_INF {
        Interval { lo: NEG_INF, hi: POS_INF }
    } else {
        Interval { lo: lo as i64, hi: hi as i64 }
    }
}

fn min64(a: i64, b: i64) -> (r: i64)
    ensures
        r == least(a as int, b as int),
{
    if a <= b {
        a
    } else {
        b
    }
}

fn max64(a: i64, b: i64) -> (r: i64)
    ensures
        r == greatest(a as int, b as int),
{
    if a >= b {
        a
    } else {
        b
    }
}

fn min128(a: i128, b: i128) -> (r: i128)
    ensures
        r == least(a as int, b as int),
{
    if a <= b {
        a
    } else {
        b
    }
}

fn max128(a: i128, b: i128) -> (r: i128)
    ensures
        r == greatest(a as int, b as int),
{
    if a >= b {
        a
    } else {
        b
    }
}

fn below(n: i64) -> (r: i64)
    ensures
        r == greatest(n - 1, i64::MIN as int),
{
    if n == i64::MIN {
        n
    } else {
        n - 1
    }
}

fn above(n: i64) -> (r: i64)
    ensures
        r == least(n + 1, i64::MAX as int),
{
    if n == i64::MAX {
        n
    } else {
        n + 1
    }
}

impl Interval {
    /// Is the number in the interval?
    pub open spec fn has(self, v: int) -> bool {
        self.lo <= v <= self.hi
    }

    /// Is nothing in the interval?
    pub open spec fn empty(self) -> bool {
        self.lo > self.hi
    }

    /// Every `int`.
    pub open spec fn all() -> Interval {
        Interval { lo: NEG_INF, hi: POS_INF }
    }

    /// No number.
    pub open spec fn none() -> Interval {
        Interval { lo: 1, hi: 0 }
    }

    /// Only `int` values are in the interval.
    pub open spec fn bounded(self) -> bool {
        self.empty() || (NEG_INF <= self.lo && self.hi <= POS_INF)
    }

    /// Everything in this interval is in the other one.
    pub open spec fn within(self, o: Interval) -> bool {
        self.empty() || (!o.empty() && o.lo <= self.lo && self.hi <= o.hi)
    }

    /// The least interval that holds both.
    pub open spec fn joined(self, o: Interval) -> Interval {
        if self.empty() {
            o
        } else if o.empty() {
            self
        } else {
            Interval {
                lo: least(self.lo as int, o.lo as int) as i64,
                hi: greatest(self.hi as int, o.hi as int) as i64,
            }
        }
    }

    pub open spec fn plus(self, o: Interval) -> Interval {
        if self.empty() || o.empty() {
            Interval::none()
        } else {
            clamped(self.lo + o.lo, self.hi + o.hi)
        }
    }

    pub open spec fn minus(self, o: Interval) -> Interval {
        if self.empty() || o.empty() {
            Interval::none()
        } else {
            clamped(self.lo - o.hi, self.hi - o.lo)
        }
    }

    /// The bounds of a product are among the products of the bounds.
    pub open spec fn times(self, o: Interval) -> Interval {
        if self.empty() || o.empty() {
            Interval::none()
        } else {
            clamped(
                least(
                    least(self.lo * o.lo, self.lo * o.hi),
                    least(self.hi * o.lo, self.hi * o.hi),
                ),
                greatest(
                    greatest(self.lo * o.lo, self.lo * o.hi),
                    greatest(self.hi * o.lo, self.hi * o.hi),
                ),
            )
        }
    }

    pub open spec fn negative(self) -> Interval {
        if self.empty() {
            self
        } else {
            clamped(-(self.hi as int), -(self.lo as int))
        }
    }

    /// What is left of `a` when `a OP b` holds. Only the five comparisons below
    /// narrow anything.
    pub open spec fn left_of(op: BinOp, a: Interval, b: Interval) -> Interval {
        match op {
            BinOp::Lt => Interval {
                lo: a.lo,
                hi: least(a.hi as int, greatest(b.hi - 1, i64::MIN as int)) as i64,
            },
            BinOp::Le => Interval { lo: a.lo, hi: least(a.hi as int, b.hi as int) as i64 },
            BinOp::Gt => Interval {
                lo: greatest(a.lo as int, least(b.lo + 1, i64::MAX as int)) as i64,
                hi: a.hi,
            },
            BinOp::Ge => Interval { lo: greatest(a.lo as int, b.lo as int) as i64, hi: a.hi },
            BinOp::Eq => Interval {
                lo: greatest(a.lo as int, b.lo as int) as i64,
                hi: least(a.hi as int, b.hi as int) as i64,
            },
            _ => a,
        }
    }

    /// What is left of `a` and `b` when `a OP b` holds.
    pub open spec fn narrowed(op: BinOp, a: Interval, b: Interval) -> (Interval, Interval) {
        if a.empty() || b.empty() {
            (Interval::none(), Interval::none())
        } else {
            let back = match op {
                BinOp::Lt => BinOp::Gt,
                BinOp::Le => BinOp::Ge,
                BinOp::Gt => BinOp::Lt,
                BinOp::Ge => BinOp::Le,
                other => other,
            };
            (Interval::left_of(op, a, b), Interval::left_of(back, b, a))
        }
    }

    /// The interval of one number.
    pub fn point(v: i64) -> (r: Self)
        ensures
            r == (Interval { lo: v, hi: v }),
    {
        Interval { lo: v, hi: v }
    }

    /// Every `int`.
    pub fn top() -> (r: Self)
        ensures
            r == Interval::all(),
    {
        Interval { lo: NEG_INF, hi: POS_INF }
    }

    /// No number.
    pub fn bottom() -> (r: Self)
        ensures
            r == Interval::none(),
    {
        Interval { lo: 1, hi: 0 }
    }

    /// Is nothing in the interval?
    pub fn is_bottom(&self) -> (r: bool)
        ensures
            r == self.empty(),
    {
        self.lo > self.hi
    }

    fn clamp(lo: i128, hi: i128) -> (r: Interval)
        requires
            lo <= hi,
        ensures
            r == clamped(lo as int, hi as int),
    {
        if lo < NEG_INF as i128 || hi > POS_INF as i128 {
            Interval::top()
        } else {
            Interval { lo: lo as i64, hi: hi as i64 }
        }
    }

    /// Is the number in the interval?
    pub fn contains(&self, v: i64) -> (r: bool)
        ensures
            r == self.has(v as int),
    {
        !self.is_bottom() && self.lo <= v && v <= self.hi
    }

    /// Is there a number in the interval, and none of them zero?
    pub fn definitely_nonzero(&self) -> (r: bool)
        ensures
            r == (!self.empty() && !self.has(0)),
    {
        !self.is_bottom() && (self.lo > 0 || self.hi < 0)
    }

    /// Is zero the one number in the interval?
    pub fn definitely_zero(&self) -> (r: bool)
        ensures
            r == (self.lo == 0 && self.hi == 0),
    {
        self.lo == 0 && self.hi == 0
    }

    /// The least interval that holds both.
    pub fn join(self, o: Interval) -> (r: Interval)
        ensures
            r == self.joined(o),
    {
        if self.is_bottom() {
            return o;
        }
        if o.is_bottom() {
            return self;
        }
        Interval { lo: min64(self.lo, o.lo), hi: max64(self.hi, o.hi) }
    }

    /// Is everything in this interval in the other one?
    pub fn leq(self, o: Interval) -> (r: bool)
        ensures
            r == self.within(o),
    {
        self.is_bottom() || (!o.is_bottom() && o.lo <= self.lo && self.hi <= o.hi)
    }

    /// Does the operator narrow its operands?
    pub open spec fn narrows(op: BinOp) -> bool {
        op == BinOp::Lt || op == BinOp::Le || op == BinOp::Gt || op == BinOp::Ge || op == BinOp::Eq
    }

    /// What is left of both operands of `a OP b` when it holds; `None` for an operator
    /// that does not narrow them.
    pub fn narrow(op: BinOp, a: Interval, b: Interval) -> (r: Option<(Interval, Interval)>)
        ensures
            r == if Interval::narrows(op) {
                Some(Interval::narrowed(op, a, b))
            } else {
                None
            },
    {
        match op {
            BinOp::Lt | BinOp::Le | BinOp::Gt | BinOp::Ge | BinOp::Eq => {},
            _ => {
                return None;
            },
        }
        if a.is_bottom() || b.is_bottom() {
            return Some((Interval::bottom(), Interval::bottom()));
        }
        let na = match op {
            BinOp::Lt => Interval { lo: a.lo, hi: min64(a.hi, below(b.hi)) },
            BinOp::Le => Interval { lo: a.lo, hi: min64(a.hi, b.hi) },
            BinOp::Gt => Interval { lo: max64(a.lo, above(b.lo)), hi: a.hi },
            BinOp::Ge => Interval { lo: max64(a.lo, b.lo), hi: a.hi },
            BinOp::Eq => Interval { lo: max64(a.lo, b.lo), hi: min64(a.hi, b.hi) },
            _ => a,
        };
        let nb = match op {
            BinOp::Lt => Interval { lo: max64(b.lo, above(a.lo)), hi: b.hi },
            BinOp::Le => Interval { lo: max64(b.lo, a.lo), hi: b.hi },
            BinOp::Gt => Interval { lo: b.lo, hi: min64(b.hi, below(a.hi)) },
            BinOp::Ge => Interval { lo: b.lo, hi: min64(b.hi, a.hi) },
            BinOp::Eq => Interval { lo: max64(b.lo, a.lo), hi: min64(b.hi, a.hi) },
            _ => b,
        };
        Some((na, nb))
    }
}

impl AddSpecImpl for Interval {
    open spec fn obeys_add_spec() -> bool {
        true
    }

    open spec fn add_req(self, o: Interval) -> bool {
        true
    }

    open spec fn add_spec(self, o: Interval) -> Interval {
        self.plus(o)
    }
}

impl Add for Interval {
    type Output = Interval;

    fn add(self, o: Interval) -> (r: Interval) {
        if self.is_bottom() || o.is_bottom() {
            return Interval::bottom();
        }
        Interval::clamp(self.lo as i128 + o.lo as i128, self.hi as i128 + o.hi as i128)
    }
}

impl SubSpecImpl for Interval {
    open spec fn obeys_sub_spec() -> bool {
        true
    }

    open spec fn sub_req(self, o: Interval) -> bool {
        true
    }

    open spec fn sub_spec(self, o: Interval) -> Interval {
        self.minus(o)
    }
}

impl Sub for Interval {
    type Output = Interval;

    fn sub(self, o: Interval) -> (r: Interval) {
        if self.is_bottom() || o.is_bottom() {
            return Interval::bottom();
        }
        Interval::clamp(self.lo as i128 - o.hi as i128, self.hi as i128 - o.lo as i128)
    }
}

proof fn lemma_product_fits(x: int, y: int)
    by (nonlinear_arith)
    requires
        i64::MIN <= x <= i64::MAX,
        i64::MIN <= y <= i64::MAX,
    ensures
        i128::MIN <= x * y <= i128::MAX,
{
    assert(-0x8000_0000_0000_0000 <= x <= 0x8000_0000_0000_0000);
    assert(-0x8000_0000_0000_0000 <= y <= 0x8000_0000_0000_0000);
    assert(x * y <= 0x8000_0000_0000_0000 * 0x8000_0000_0000_0000);
    assert(x * y >= -(0x8000_0000_0000_0000 * 0x8000_0000_0000_0000));
}

fn product(x: i64, y: i64) -> (r: i128)
    ensures
        r == x * y,
{
    proof {
        lemma_product_fits(x as int, y as int);
    }
    x as i128 * y as i128
}

impl MulSpecImpl for Interval {
    open spec fn obeys_mul_spec() -> bool {
        true
    }

    open spec fn mul_req(self, o: Interval) -> bool {
        true
    }

    open spec fn mul_spec(self, o: Interval) -> Interval {
        self.times(o)
    }
}

impl Mul for Interval {
    type Output = Interval;

    fn mul(self, o: Interval) -> (r: Interval) {
        if self.is_bottom() || o.is_bottom() {
            return Interval::bottom();
        }
        let ll = product(self.lo, o.lo);
        let lh = product(self.lo, o.hi);
        let hl = product(self.hi, o.lo);
        let hh = product(self.hi, o.hi);
        Interval::clamp(
            min128(min128(ll, lh), min128(hl, hh)),
            max128(max128(ll, lh), max128(hl, hh)),
        )
    }
}

impl NegSpecImpl for Interval {
    open spec fn obeys_neg_spec() -> bool {
        true
    }

    open spec fn neg_req(self) -> bool {
        true
    }

    open spec fn neg_spec(self) -> Interval {
        self.negative()
    }
}

impl Neg for Interval {
    type Output = Interval;

    fn neg(self) -> (r: Interval) {
        if self.is_bottom() {
            return self;
        }
        Interval::clamp(-(self.hi as i128), -(self.lo as i128))
    }
}

/// A place in a program: before statement `index` of a block, or before its
/// terminator.
#[derive(Debug)]
pub struct ProgramPoint {
    pub method: MethodKey,
    pub block: BlockId,
    pub index: usize,
}

/// View of [`ProgramPoint`].
#[verifier::ext_equal]
pub struct ProgramPointV {
    pub method: MethodKeyV,
    pub block: BlockId,
    pub index: usize,
}

impl View for ProgramPoint {
    type V = ProgramPointV;

    open spec fn view(&self) -> ProgramPointV {
        ProgramPointV { method: self.method@, block: self.block, index: self.index }
    }
}

impl Clone for ProgramPoint {
    fn clone(&self) -> (r: Self)
        ensures
            r == *self,
    {
        ProgramPoint { method: self.method.clone(), block: self.block, index: self.index }
    }
}

/// A step of control.
#[derive(Clone, Copy, Debug, PartialEq, Eq, Structural)]
pub enum Edge {
    /// Over a statement.
    Stmt(BlockId, usize),
    /// Over the terminator of a block to another one; for a branch, with the side
    /// that was taken.
    Term(BlockId, Option<bool>, BlockId),
    /// Out of the method.
    Exit(BlockId),
}

/// The block that the step starts in.
pub open spec fn edge_in(e: Edge, body: Body) -> bool {
    match e {
        Edge::Stmt(b, i) => b.0 < body.blocks@.len() && i < body.blocks@[b.0 as int].stmts@.len(),
        Edge::Term(b, _, _) => b.0 < body.blocks@.len(),
        Edge::Exit(_) => true,
    }
}

/// What is known of each variable; nothing of one that is absent.
pub type Known = Map<VarId, Interval>;

/// What is known of a variable.
pub open spec fn got(m: Known, v: VarId) -> Interval {
    if m.dom().contains(v) {
        m[v]
    } else {
        Interval::all()
    }
}

/// Make an interval all that is known of a variable.
pub open spec fn put(m: Known, v: VarId, i: Interval) -> Known {
    if i == Interval::all() {
        m.remove(v)
    } else {
        m.insert(v, i)
    }
}

/// What is known of an operand. Only constants of type `int` are.
pub open spec fn operand_value(m: Known, o: Operand) -> Interval {
    match o {
        Operand::Var(v) => got(m, v),
        Operand::Const(Const::Int(n)) => Interval { lo: n as i64, hi: n as i64 },
        _ => Interval::all(),
    }
}

/// Do all pairs from the intervals satisfy the comparison?
pub open spec fn surely(op: BinOp, a: Interval, b: Interval) -> bool {
    match op {
        BinOp::Eq => a == b && a.lo == a.hi,
        BinOp::Ne => a.hi < b.lo || b.hi < a.lo,
        BinOp::Lt => a.hi < b.lo,
        BinOp::Le => a.hi <= b.lo,
        BinOp::Gt => a.lo > b.hi,
        BinOp::Ge => a.lo >= b.hi,
        _ => false,
    }
}

/// The result of a comparison: 1, 0 or either.
pub open spec fn comparison(op: BinOp, a: Interval, b: Interval) -> Interval {
    if a.empty() || b.empty() {
        Interval::none()
    } else if surely(op, a, b) {
        Interval { lo: 1, hi: 1 }
    } else if body_analysis::compares(op) && surely(body_analysis::negated(op), a, b) {
        Interval { lo: 0, hi: 0 }
    } else {
        Interval { lo: 0, hi: 1 }
    }
}

/// What is known of an rvalue. Everything but sums, differences, products and
/// comparisons is left open.
pub open spec fn rvalue_value(m: Known, rv: Rvalue) -> Interval {
    match rv {
        Rvalue::Use(o) => operand_value(m, o),
        Rvalue::Neg(o) => operand_value(m, o).negative(),
        Rvalue::Bin(op, a, b) => {
            let (x, y) = (operand_value(m, a), operand_value(m, b));
            match op {
                BinOp::Add => x.plus(y),
                BinOp::Sub => x.minus(y),
                BinOp::Mul => x.times(y),
                _ => if body_analysis::compares(op) {
                    comparison(op, x, y)
                } else {
                    Interval::all()
                },
            }
        },
        _ => Interval::all(),
    }
}

fn definite(op: BinOp, a: Interval, b: Interval) -> (r: bool)
    ensures
        r == surely(op, a, b),
{
    match op {
        BinOp::Eq => a == b && a.lo == a.hi,
        BinOp::Ne => a.hi < b.lo || b.hi < a.lo,
        BinOp::Lt => a.hi < b.lo,
        BinOp::Le => a.hi <= b.lo,
        BinOp::Gt => a.lo > b.hi,
        BinOp::Ge => a.lo >= b.hi,
        _ => false,
    }
}

fn eval_comparison(op: BinOp, a: Interval, b: Interval) -> (r: Interval)
    requires
        body_analysis::compares(op),
    ensures
        r == comparison(op, a, b),
{
    if a.is_bottom() || b.is_bottom() {
        return Interval::bottom();
    }
    if definite(op, a, b) {
        Interval::point(1)
    } else if definite(negate_binop(op), a, b) {
        Interval::point(0)
    } else {
        Interval { lo: 0, hi: 1 }
    }
}

impl View for VarId {
    type V = VarId;

    open spec fn view(&self) -> VarId {
        *self
    }
}

impl Name for VarId {
    fn same_name(&self, other: &Self) -> (r: bool) {
        *self == *other
    }

    fn copy_name(&self) -> (r: Self) {
        *self
    }
}

/// A place and what is known of the variables there.
pub struct IState {
    pub at: ProgramPoint,
    pub vars: Assoc<VarId, Interval>,
}

/// Every state that agrees with one or the other agrees with the join.
pub open spec fn known_join(m: Known, n: Known) -> Known {
    Map::new(
        |v: VarId|
            (m.dom().contains(v) || n.dom().contains(v)) && got(m, v).joined(got(n, v))
                != Interval::all(),
        |v: VarId| got(m, v).joined(got(n, v)),
    )
}

/// What is known of each variable in the one is known in the other, and both know
/// something of the same variables.
pub open spec fn known_leq(m: Known, n: Known) -> bool {
    &&& forall|v: VarId| #[trigger] m.dom().contains(v) ==> m[v].within(got(n, v))
    &&& forall|v: VarId| #[trigger] n.dom().contains(v) ==> m.dom().contains(v)
}

/// Is some variable without a value?
pub open spec fn known_empty(m: Known) -> bool {
    exists|v: VarId| #[trigger] m.dom().contains(v) && m[v].empty()
}

impl IState {
    /// What is known of the variables.
    pub open spec fn known(self) -> Known {
        self.vars.map()
    }

    /// What is known of the variable.
    pub fn get(&self, v: VarId) -> (r: Interval)
        ensures
            r == got(self.known(), v),
    {
        match self.vars.get(&v) {
            Some(i) => i,
            None => Interval::top(),
        }
    }

    fn set(&mut self, v: VarId, i: Interval)
        ensures
            final(self).at == old(self).at,
            final(self).known() == put(old(self).known(), v, i),
    {
        if i == Interval::top() {
            self.vars.remove(&v);
        } else {
            self.vars.insert(v, i);
        }
        proof {
            assert(self.known() =~= put(old(self).known(), v, i));
        }
    }

    fn copy(&self) -> (r: IState)
        ensures
            r.at == self.at,
            r.known() == self.known(),
    {
        let r = IState { at: self.at.clone(), vars: self.vars.copy() };
        proof {
            assert(r.known() =~= self.known());
        }
        r
    }

    /// What is known of an operand.
    pub fn eval_operand(&self, op: &Operand) -> (r: Interval)
        ensures
            r == operand_value(self.known(), *op),
    {
        match op {
            Operand::Var(v) => self.get(*v),
            Operand::Const(Const::Int(n)) => Interval::point(*n as i64),
            _ => Interval::top(),
        }
    }

    /// What is known of an rvalue.
    pub fn eval_rvalue(&self, rv: &Rvalue) -> (r: Interval)
        ensures
            r == rvalue_value(self.known(), *rv),
    {
        match rv {
            Rvalue::Use(o) => self.eval_operand(o),
            Rvalue::Neg(o) => self.eval_operand(o).neg(),
            Rvalue::Bin(op, a, b) => {
                let x = self.eval_operand(a);
                let y = self.eval_operand(b);
                match op {
                    BinOp::Add => x + y,
                    BinOp::Sub => x - y,
                    BinOp::Mul => x * y,
                    BinOp::Eq | BinOp::Ne | BinOp::Lt | BinOp::Le | BinOp::Gt | BinOp::Ge => {
                        eval_comparison(*op, x, y)
                    },
                    _ => Interval::top(),
                }
            },
            _ => Interval::top(),
        }
    }

    /// Does the other state cover this one?
    pub fn leq(&self, other: &IState) -> (r: bool)
        ensures
            r == known_leq(self.known(), other.known()),
    {
        proof {
            self.vars.lemma_keys();
            other.vars.lemma_keys();
        }
        let mut i: usize = 0;
        while i < self.vars.len()
            invariant
                i <= self.vars.len_spec(),
                forall|i: int|
                    0 <= i < self.vars.len_spec() ==> self.vars.at(
                        #[trigger] self.vars.key_spec(i),
                    ) is Some,
                forall|j: int|
                    0 <= j < i ==> self.known()[#[trigger] self.vars.key_spec(j)].within(
                        got(other.known(), self.vars.key_spec(j)),
                    ),
            decreases self.vars.len_spec() - i,
        {
            let v = *self.vars.key(i);
            proof {
                assert(self.vars.key_spec(i as int) == v);
                assert(self.known().dom().contains(v));
            }
            if !self.get(v).leq(other.get(v)) {
                return false;
            }
            i += 1;
        }
        let ghost n = self.vars.len_spec();
        proof {
            assert forall|v: VarId| #[trigger] self.known().dom().contains(v) implies self.known()[v].within(
                got(other.known(), v),
            ) by {
                assert(self.vars.at(v) is Some);
                let j = choose|j: int|
                    0 <= j < self.vars.len_spec() && #[trigger] self.vars.key_spec(j) == v;
                assert(self.vars.key_spec(j) == v);
            }
        }
        let mut i: usize = 0;
        while i < other.vars.len()
            invariant
                i <= other.vars.len_spec(),
                forall|i: int|
                    0 <= i < other.vars.len_spec() ==> other.vars.at(
                        #[trigger] other.vars.key_spec(i),
                    ) is Some,
                forall|j: int|
                    0 <= j < i ==> self.known().dom().contains(#[trigger] other.vars.key_spec(j)),
            decreases other.vars.len_spec() - i,
        {
            let v = *other.vars.key(i);
            proof {
                assert(other.vars.key_spec(i as int) == v);
                assert(other.known().dom().contains(v));
            }
            if !self.vars.contains(&v) {
                return false;
            }
            i += 1;
        }
        proof {
            assert forall|v: VarId| #[trigger] other.known().dom().contains(v) implies self.known().dom().contains(
                v,
            ) by {
                assert(other.vars.at(v) is Some);
                let j = choose|j: int|
                    0 <= j < other.vars.len_spec() && #[trigger] other.vars.key_spec(j) == v;
                assert(other.vars.key_spec(j) == v);
            }
        }
        true
    }

    /// The least state that covers both, at the place of this one.
    pub fn join(&self, other: &IState) -> (r: IState)
        ensures
            r.at == self.at,
            r.known() == known_join(self.known(), other.known()),
    {
        let mut r = IState { at: self.at.clone(), vars: Assoc::new() };
        let ghost full = known_join(self.known(), other.known());
        proof {
            self.vars.lemma_keys();
            other.vars.lemma_keys();
            assert(r.known() =~= Map::empty());
        }
        let mut i: usize = 0;
        while i < self.vars.len()
            invariant
                i <= self.vars.len_spec(),
                r.at == self.at,
                full == known_join(self.known(), other.known()),
                forall|i: int|
                    0 <= i < self.vars.len_spec() ==> self.vars.at(
                        #[trigger] self.vars.key_spec(i),
                    ) is Some,
                forall|v: VarId| #[trigger]
                    r.known().dom().contains(v) ==> full.dom().contains(v) && r.known()[v]
                        == full[v],
                forall|j: int|
                    0 <= j < i && full.dom().contains(#[trigger] self.vars.key_spec(j))
                        ==> r.known().dom().contains(self.vars.key_spec(j)),
            decreases self.vars.len_spec() - i,
        {
            let v = *self.vars.key(i);
            proof {
                assert(self.vars.key_spec(i as int) == v);
                assert(self.known().dom().contains(v));
            }
            r.set(v, self.get(v).join(other.get(v)));
            i += 1;
        }
        proof {
            assert forall|v: VarId| full.dom().contains(v) && #[trigger] self.known().dom().contains(v) implies
                r.known().dom().contains(v) by {
                assert(self.vars.at(v) is Some);
                let j = choose|j: int|
                    0 <= j < self.vars.len_spec() && #[trigger] self.vars.key_spec(j) == v;
                assert(self.vars.key_spec(j) == v);
            }
        }
        let mut i: usize = 0;
        while i < other.vars.len()
            invariant
                i <= other.vars.len_spec(),
                r.at == self.at,
                full == known_join(self.known(), other.known()),
                forall|i: int|
                    0 <= i < other.vars.len_spec() ==> other.vars.at(
                        #[trigger] other.vars.key_spec(i),
                    ) is Some,
                forall|v: VarId| #[trigger]
                    r.known().dom().contains(v) ==> full.dom().contains(v) && r.known()[v]
                        == full[v],
                forall|v: VarId|
                    full.dom().contains(v) && #[trigger] self.known().dom().contains(v)
                        ==> r.known().dom().contains(v),
                forall|j: int|
                    0 <= j < i && full.dom().contains(#[trigger] other.vars.key_spec(j))
                        ==> r.known().dom().contains(other.vars.key_spec(j)),
            decreases other.vars.len_spec() - i,
        {
            let v = *other.vars.key(i);
            proof {
                assert(other.vars.key_spec(i as int) == v);
                assert(other.known().dom().contains(v));
            }
            r.set(v, self.get(v).join(other.get(v)));
            i += 1;
        }
        proof {
            assert forall|v: VarId| #[trigger] full.dom().contains(v) implies r.known().dom().contains(
                v,
            ) by {
                if !self.known().dom().contains(v) {
                    assert(other.known().dom().contains(v));
                    assert(other.vars.at(v) is Some);
                    let j = choose|j: int|
                        0 <= j < other.vars.len_spec() && #[trigger] other.vars.key_spec(j) == v;
                    assert(other.vars.key_spec(j) == v);
                }
            }
            assert(r.known() =~= full);
        }
        r
    }

    /// Is some variable without a value, so that nothing gets here?
    pub fn is_bottom(&self) -> (r: bool)
        ensures
            r == known_empty(self.known()),
    {
        proof {
            self.vars.lemma_keys();
        }
        let mut i: usize = 0;
        while i < self.vars.len()
            invariant
                i <= self.vars.len_spec(),
                forall|i: int|
                    0 <= i < self.vars.len_spec() ==> self.vars.at(
                        #[trigger] self.vars.key_spec(i),
                    ) is Some,
                forall|j: int|
                    0 <= j < i ==> !self.known()[#[trigger] self.vars.key_spec(j)].empty(),
            decreases self.vars.len_spec() - i,
        {
            let v = *self.vars.key(i);
            proof {
                assert(self.vars.key_spec(i as int) == v);
                assert(self.known().dom().contains(v));
            }
            if self.get(v).is_bottom() {
                return true;
            }
            i += 1;
        }
        proof {
            assert forall|v: VarId| #[trigger] self.known().dom().contains(v) implies !self.known()[v].empty() by {
                assert(self.vars.at(v) is Some);
                let j = choose|j: int|
                    0 <= j < self.vars.len_spec() && #[trigger] self.vars.key_spec(j) == v;
                assert(self.vars.key_spec(j) == v);
            }
        }
        false
    }

    /// The place.
    pub fn location(&self) -> (r: &ProgramPoint)
        ensures
            *r == self.at,
    {
        &self.at
    }
}

/// Narrow an operand, if it is a variable.
pub open spec fn put_operand(m: Known, o: Operand, i: Interval) -> Known {
    match o {
        Operand::Var(v) => put(m, v, i),
        _ => m,
    }
}

/// What is known when the comparison holds as well.
pub open spec fn constrained(m: Known, op: BinOp, a: Operand, b: Operand) -> Known {
    if Interval::narrows(op) {
        let (na, nb) = Interval::narrowed(op, operand_value(m, a), operand_value(m, b));
        put_operand(put_operand(m, a, na), b, nb)
    } else {
        m
    }
}

/// What is known when the variable, which the block defines by a comparison, is
/// not zero, or zero. Nothing is known if the block does not define it so.
pub open spec fn tested(m: Known, body: Body, block: int, v: VarId, truth: bool) -> Option<Known> {
    let stmts = body.blocks@[block].stmts@;
    match body_analysis::defining_bin(stmts, v, stmts.len()) {
        Some((op, a, b)) => Some(
            constrained(
                m,
                if truth {
                    op
                } else {
                    body_analysis::negated(op)
                },
                a,
                b,
            ),
        ),
        None => None,
    }
}

/// What is known after a statement; `None` if it is never passed.
pub open spec fn after_stmt(m: Known, s: Stmt) -> Option<Known> {
    match s {
        Stmt::Assign(v, rv) => Some(put(m, v, rvalue_value(m, rv))),
        Stmt::Assume(o) => {
            let i = operand_value(m, o);
            if i.lo == 0 && i.hi == 0 {
                None
            } else {
                Some(m)
            }
        },
        _ => Some(m),
    }
}

/// What is known on one side of a branch.
pub open spec fn after_branch(m: Known, body: Body, block: int, taken: Option<bool>) -> Known {
    if taken is Some && body.blocks@[block].term is Branch
        && body.blocks@[block].term->cond matches Operand::Var(v) {
        match tested(m, body, block, body.blocks@[block].term->cond->Var_0, taken->0) {
            Some(n) => n,
            None => m,
        }
    } else {
        m
    }
}

/// Can control come to the block because a check in this one fails?
pub open spec fn may_fail_to(body: Body, block: int, to: BlockId) -> bool {
    !(body.blocks@[block].term is Throw) && exists|i: int|
        0 <= i < body.blocks@[block].exceptional@.len() && (
        #[trigger] body.blocks@[block].exceptional@[i]).target == to
}

/// What is known when statement `i`, a check of a variable that the block defines
/// by a comparison, fails.
pub open spec fn failure(m: Known, body: Body, block: int, i: int) -> Option<Known> {
    match body.blocks@[block].stmts@[i] {
        Stmt::Check(id) => match body.obligations@[id.0 as int].cond {
            Operand::Var(v) => tested(m, body, block, v, false),
            _ => None,
        },
        _ => None,
    }
}

/// What is known when one of the first `n` checks fails.
pub open spec fn failures(m: Known, body: Body, block: int, n: nat) -> Option<Known>
    decreases n,
{
    if n == 0 {
        None
    } else {
        match (failures(m, body, block, (n - 1) as nat), failure(m, body, block, n - 1)) {
            (None, f) => f,
            (Some(s), None) => Some(s),
            (Some(s), Some(f)) => Some(known_join(s, f)),
        }
    }
}

/// What is known after the terminator of a block, in the block `to`; `None` if
/// nothing gets there.
pub open spec fn after_term(m: Known, body: Body, block: int, taken: Option<bool>, to: BlockId) -> Option<
    Known,
> {
    let n = after_branch(m, body, block, taken);
    let stmts = body.blocks@[block].stmts@;
    let r = match failures(n, body, block, stmts.len()) {
        Some(s) => if may_fail_to(body, block, to) {
            s
        } else {
            n
        },
        None => n,
    };
    if known_empty(r) {
        None
    } else {
        Some(r)
    }
}

/// What is known after a step to the block `to`.
pub open spec fn after_edge(m: Known, body: Body, e: Edge, to: BlockId) -> Option<Known> {
    match e {
        Edge::Stmt(b, i) => after_stmt(m, body.blocks@[b.0 as int].stmts@[i as int]),
        Edge::Term(b, taken, _) => after_term(m, body, b.0 as int, taken, to),
        Edge::Exit(_) => Some(m),
    }
}

fn constrain(s: &IState, op: BinOp, a: &Operand, b: &Operand) -> (r: IState)
    ensures
        r.at == s.at,
        r.known() == constrained(s.known(), op, *a, *b),
{
    let mut r = s.copy();
    if let Some((na, nb)) = Interval::narrow(op, s.eval_operand(a), s.eval_operand(b)) {
        if let Operand::Var(v) = a {
            r.set(*v, na);
        }
        if let Operand::Var(v) = b {
            r.set(*v, nb);
        }
    }
    r
}

fn assuming(s: &IState, body: &Body, block: BlockId, v: VarId, truth: bool) -> (r: Option<IState>)
    requires
        block.0 < body.blocks@.len(),
    ensures
        match r {
            Some(n) => n.at == s.at && tested(s.known(), *body, block.0 as int, v, truth) == Some(
                n.known(),
            ),
            None => tested(s.known(), *body, block.0 as int, v, truth) is None,
        },
{
    match find_defining_bin(body, block, v) {
        Some((op, a, b)) => {
            let eff = if truth {
                op
            } else {
                negate_binop(op)
            };
            Some(constrain(s, eff, a, b))
        },
        None => None,
    }
}

fn any_failure(s: &IState, body: &Body, block: BlockId) -> (r: Option<IState>)
    requires
        body.well_formed(),
        block.0 < body.blocks@.len(),
    ensures
        match r {
            Some(n) => n.at == s.at && failures(
                s.known(),
                *body,
                block.0 as int,
                body.blocks@[block.0 as int].stmts@.len(),
            ) == Some(n.known()),
            None => failures(
                s.known(),
                *body,
                block.0 as int,
                body.blocks@[block.0 as int].stmts@.len(),
            ) is None,
        },
{
    let b = body.block(block);
    let mut out: Option<IState> = None;
    let mut i: usize = 0;
    while i < b.stmts.len()
        invariant
            i <= b.stmts@.len(),
            body.well_formed(),
            block.0 < body.blocks@.len(),
            *b == body.blocks@[block.0 as int],
            match out {
                Some(n) => n.at == s.at && failures(s.known(), *body, block.0 as int, i as nat)
                    == Some(n.known()),
                None => failures(s.known(), *body, block.0 as int, i as nat) is None,
            },
        decreases b.stmts@.len() - i,
    {
        let one = match &b.stmts[i] {
            Stmt::Check(id) => {
                proof {
                    assert(body.blocks@[block.0 as int].in_range(
                        body.blocks@.len(),
                        body.vars@.len(),
                        body.obligations@.len(),
                    ));
                }
                match &body.obligation(*id).cond {
                    Operand::Var(v) => assuming(s, body, block, *v, false),
                    _ => None,
                }
            },
            _ => None,
        };
        if let Some(f) = one {
            out = match out {
                None => Some(f),
                Some(n) => Some(n.join(&f)),
            };
        }
        i += 1;
    }
    out
}

fn can_fail_to(body: &Body, block: BlockId, to: BlockId) -> (r: bool)
    requires
        block.0 < body.blocks@.len(),
    ensures
        r == may_fail_to(*body, block.0 as int, to),
{
    let b = body.block(block);
    if let Terminator::Throw(_) = &b.term {
        return false;
    }
    let mut i: usize = 0;
    while i < b.exceptional.len()
        invariant
            i <= b.exceptional@.len(),
            *b == body.blocks@[block.0 as int],
            !(b.term is Throw),
            forall|j: int| 0 <= j < i ==> (#[trigger] b.exceptional@[j]).target != to,
        decreases b.exceptional@.len() - i,
    {
        if b.exceptional[i].target == to {
            return true;
        }
        i += 1;
    }
    false
}

/// The analysis that keeps one interval for each variable.
#[derive(Debug)]
pub struct IntervalCpa;

impl IntervalCpa {
    /// Nothing is known at the start.
    pub fn initial(&self, _prog: &Program, at: &ProgramPoint) -> (r: IState)
        ensures
            r.at == *at,
            r.known() == Map::<VarId, Interval>::empty(),
    {
        let r = IState { at: at.clone(), vars: Assoc::new() };
        proof {
            assert(r.known() =~= Map::empty());
        }
        r
    }

    /// The states after a step to the place `to`: one, or none where nothing gets
    /// there.
    pub fn transfer(
        &self,
        state: &IState,
        prog: &Program,
        edge: &Edge,
        to: &ProgramPoint,
        _prec: &(),
    ) -> (r: Vec<IState>)
        requires
            prog.well_formed(),
            prog.body_of(to.method@) matches Some(b) ==> edge_in(*edge, b),
        ensures
            match prog.body_of(to.method@) {
                Some(b) => match after_edge(state.known(), b, *edge, to.block) {
                    Some(n) => r@.len() == 1 && r@[0].at == *to && r@[0].known() == n,
                    None => r@.len() == 0,
                },
                None => r@.len() == 0,
            },
    {
        let body = match prog.body(&to.method) {
            Some(b) => b,
            None => {
                return Vec::new();
            },
        };
        let mut next = state.copy();
        next.at = to.clone();
        let mut out: Vec<IState> = Vec::new();
        match edge {
            Edge::Stmt(block, idx) => {
                match &body.block(*block).stmts[*idx] {
                    Stmt::Assign(v, rv) => {
                        let val = next.eval_rvalue(rv);
                        next.set(*v, val);
                    },
                    Stmt::Assume(op) => {
                        if next.eval_operand(op).definitely_zero() {
                            return out;
                        }
                    },
                    _ => {},
                }
                out.push(next);
            },
            Edge::Term(block, taken, _) => {
                if let Some(is_then) = taken {
                    if let Terminator::Branch { cond: Operand::Var(cv), .. } = &body.block(*block).term {
                        if let Some(n) = assuming(&next, body, *block, *cv, *is_then) {
                            next = n;
                        }
                    }
                }
                if can_fail_to(body, *block, to.block) {
                    if let Some(n) = any_failure(&next, body, *block) {
                        next = n;
                    }
                }
                if next.is_bottom() {
                    return out;
                }
                out.push(next);
            },
            Edge::Exit(_) => {
                out.push(next);
            },
        }
        out
    }
}

/// Joining is commutative and idempotent and gives the least upper bound; the
/// order is reflexive and transitive and agrees with membership.
pub proof fn law_intervals_form_a_lattice(a: Interval, b: Interval, c: Interval)
    ensures
        a.within(a),
        a.within(b) && b.within(c) ==> a.within(c),
        a.within(a.joined(b)),
        b.within(a.joined(b)),
        a.within(c) && b.within(c) ==> a.joined(b).within(c),
        a.joined(a) == a,
        !a.empty() && !b.empty() ==> a.joined(b) == b.joined(a),
        a.joined(b).within(b.joined(a)),
        Interval::none().within(a),
        a.bounded() ==> a.within(Interval::all()),
        a.within(b) <==> forall|v: int| #[trigger] a.has(v) ==> b.has(v),
{
    if !a.empty() && !a.within(b) {
        assert(a.has(a.lo as int) && a.has(a.hi as int));
        assert(!b.has(a.lo as int) || !b.has(a.hi as int));
    }
}

/// A sum, difference, product or negation of numbers from the intervals is in the
/// resulting interval, also where it wraps around. Nothing comes of an empty
/// interval, and results have only `int` bounds.
pub proof fn law_arithmetic_is_sound(a: Interval, b: Interval, x: int, y: int)
    requires
        a.has(x),
        b.has(y),
    ensures
        a.plus(b).has(wrap32(x + y)),
        a.minus(b).has(wrap32(x - y)),
        a.times(b).has(wrap32(x * y)),
        a.negative().has(wrap32(-x)),
        a.plus(b).bounded() && a.minus(b).bounded() && a.times(b).bounded() && a.negative().bounded(),
{
    lemma_product_between(x, a.lo as int, a.hi as int, y, b.lo as int, b.hi as int);
}

/// Nothing comes of an empty interval.
pub proof fn law_arithmetic_on_nothing(a: Interval, b: Interval)
    requires
        a.empty() || b.empty(),
    ensures
        a.plus(b).empty(),
        a.minus(b).empty(),
        a.times(b).empty(),
        a.empty() ==> a.negative().empty(),
{
}

proof fn lemma_product_between(x: int, xl: int, xh: int, y: int, yl: int, yh: int)
    requires
        xl <= x <= xh,
        yl <= y <= yh,
    ensures
        least(least(xl * yl, xl * yh), least(xh * yl, xh * yh)) <= x * y,
        x * y <= greatest(greatest(xl * yl, xl * yh), greatest(xh * yl, xh * yh)),
{
    lemma_scaled(x, xl, xh, y);
    lemma_scaled(y, yl, yh, xl);
    lemma_scaled(y, yl, yh, xh);
    assert(y * xl == xl * y && y * xh == xh * y) by (nonlinear_arith);
    assert(yl * xl == xl * yl && yl * xh == xh * yl) by (nonlinear_arith);
    assert(yh * xl == xl * yh && yh * xh == xh * yh) by (nonlinear_arith);
}

proof fn lemma_scaled(x: int, xl: int, xh: int, y: int)
    requires
        xl <= x <= xh,
    ensures
        least(xl * y, xh * y) <= x * y <= greatest(xl * y, xh * y),
{
    if y >= 0 {
        assert(xl * y <= x * y <= xh * y) by (nonlinear_arith)
            requires
                xl <= x <= xh,
                y >= 0,
        ;
    } else {
        assert(xh * y <= x * y <= xl * y) by (nonlinear_arith)
            requires
                xl <= x <= xh,
                y <= 0,
        ;
    }
}

/// Narrowing keeps every pair that satisfies the comparison, and nothing that was
/// not there before.
pub proof fn law_narrowing_keeps_what_satisfies(op: BinOp, a: Interval, b: Interval, x: int, y: int)
    ensures
        ({
            let (na, nb) = Interval::narrowed(op, a, b);
            &&& a.has(x) && b.has(y) && (body_analysis::compares(op) ==> body_analysis::holds(
                op,
                x,
                y,
            )) ==> na.has(x) && nb.has(y)
            &&& na.has(x) ==> a.has(x)
            &&& nb.has(y) ==> b.has(y)
        }),
{
}

/// The abstract result of a comparison holds the concrete one.
pub proof fn law_comparison_is_sound(op: BinOp, a: Interval, b: Interval, x: int, y: int)
    requires
        body_analysis::compares(op),
        a.has(x),
        b.has(y),
    ensures
        comparison(op, a, b).has(
            if body_analysis::holds(op, x, y) {
                1
            } else {
                0
            },
        ),
{
}

/// What `definitely_nonzero` and `definitely_zero` answer is true of every number
/// in the interval.
pub proof fn law_definite_answers(a: Interval, x: int)
    requires
        a.has(x),
    ensures
        !a.empty() && !a.has(0) ==> x != 0,
        a.lo == 0 && a.hi == 0 ==> x == 0,
{
}

/// The values of the variables of type `int`.
pub type Env = spec_fn(VarId) -> int;

/// The values agree with what is known.
pub open spec fn covers(m: Known, env: Env) -> bool {
    forall|v: VarId| (#[trigger] got(m, v)).has(env(v))
}

/// The value of an operand that is a variable or a constant of type `int`.
pub open spec fn value_of(env: Env, o: Operand) -> Option<int> {
    match o {
        Operand::Var(v) => Some(env(v)),
        Operand::Const(Const::Int(n)) => Some(n as int),
        _ => None,
    }
}

/// Is `n` the value of the rvalue, as far as the domain models it? Where it does
/// not, `n` is any `int`.
pub open spec fn evaluates(env: Env, rv: Rvalue, n: int) -> bool {
    &&& NEG_INF <= n <= POS_INF
    &&& match rv {
        Rvalue::Use(o) => value_of(env, o) matches Some(x) ==> n == x,
        Rvalue::Neg(o) => value_of(env, o) matches Some(x) ==> n == wrap32(-x),
        Rvalue::Bin(op, a, b) => match (value_of(env, a), value_of(env, b)) {
            (Some(x), Some(y)) => {
                &&& op == BinOp::Add ==> n == wrap32(x + y)
                &&& op == BinOp::Sub ==> n == wrap32(x - y)
                &&& op == BinOp::Mul ==> n == wrap32(x * y)
                &&& body_analysis::compares(op) ==> n == if body_analysis::holds(op, x, y) {
                    1int
                } else {
                    0
                }
            },
            _ => !body_analysis::compares(op) && op != BinOp::Add && op != BinOp::Sub && op
                != BinOp::Mul,
        },
        _ => true,
    }
}

/// After an assignment the values still agree with what is known: no value that
/// the variable can have is excluded.
pub proof fn law_assignment_is_covered(m: Known, env: Env, v: VarId, rv: Rvalue, n: int)
    requires
        covers(m, env),
        evaluates(env, rv, n),
    ensures
        rvalue_value(m, rv).has(n),
        after_stmt(m, Stmt::Assign(v, rv)) matches Some(r) && covers(
            r,
            |w: VarId| if w == v {
                n
            } else {
                env(w)
            },
        ),
{
    match rv {
        Rvalue::Use(o) => lemma_operand_covered(m, env, o),
        Rvalue::Neg(o) => {
            lemma_operand_covered(m, env, o);
            if let Some(x) = value_of(env, o) {
                law_arithmetic_is_sound(operand_value(m, o), operand_value(m, o), x, x);
            } else {
                assert(Interval::all().negative() == Interval::all());
            }
        },
        Rvalue::Bin(op, a, b) => {
            lemma_operand_covered(m, env, a);
            lemma_operand_covered(m, env, b);
            if let (Some(x), Some(y)) = (value_of(env, a), value_of(env, b)) {
                law_arithmetic_is_sound(operand_value(m, a), operand_value(m, b), x, y);
            }
        },
        _ => {},
    }
    let r = put(m, v, rvalue_value(m, rv));
    let after = |w: VarId| if w == v {
        n
    } else {
        env(w)
    };
    assert forall|w: VarId| (#[trigger] got(r, w)).has(after(w)) by {
        assert(got(m, w).has(env(w)));
    }
}

pub proof fn lemma_operand_covered(m: Known, env: Env, o: Operand)
    requires
        covers(m, env),
    ensures
        value_of(env, o) matches Some(x) ==> operand_value(m, o).has(x),
        value_of(env, o) is None ==> operand_value(m, o) == Interval::all(),
{
    if let Operand::Var(v) = o {
        assert(got(m, v).has(env(v)));
    }
}

/// An assumption that holds is passed, and what is known stays.
pub proof fn law_assumption_is_passed(m: Known, env: Env, o: Operand)
    requires
        covers(m, env),
        value_of(env, o) matches Some(x) ==> x != 0,
    ensures
        after_stmt(m, Stmt::Assume(o)) == Some(m),
{
    lemma_operand_covered(m, env, o);
}

proof fn lemma_constrained_covers(m: Known, env: Env, op: BinOp, a: Operand, b: Operand)
    requires
        covers(m, env),
        body_analysis::compares(op) ==> (value_of(env, a) matches Some(x) ==> (value_of(env, b) matches Some(
            y,
        ) ==> body_analysis::holds(op, x, y))),
        value_of(env, a) is Some,
        value_of(env, b) is Some,
    ensures
        covers(constrained(m, op, a, b), env),
{
    let (x, y) = (value_of(env, a)->0, value_of(env, b)->0);
    lemma_operand_covered(m, env, a);
    lemma_operand_covered(m, env, b);
    let (na, nb) = Interval::narrowed(op, operand_value(m, a), operand_value(m, b));
    law_narrowing_keeps_what_satisfies(op, operand_value(m, a), operand_value(m, b), x, y);
    let r = constrained(m, op, a, b);
    assert forall|w: VarId| (#[trigger] got(r, w)).has(env(w)) by {
        assert(got(m, w).has(env(w)));
    }
}

proof fn lemma_covered_is_feasible(m: Known, env: Env)
    requires
        covers(m, env),
    ensures
        !known_empty(m),
{
    assert forall|v: VarId| #[trigger] m.dom().contains(v) implies !m[v].empty() by {
        assert(got(m, v).has(env(v)));
    }
}

/// Is the variable defined in the block by a comparison of `int` values that has
/// the given truth?
pub open spec fn decides(body: Body, block: int, v: VarId, env: Env, truth: bool) -> bool {
    let stmts = body.blocks@[block].stmts@;
    body_analysis::defining_bin(stmts, v, stmts.len()) matches Some(d) ==> {
        &&& value_of(env, d.1) is Some
        &&& value_of(env, d.2) is Some
        &&& body_analysis::compares(d.0) ==> body_analysis::holds(
            d.0,
            value_of(env, d.1)->0,
            value_of(env, d.2)->0,
        ) == truth
    }
}

proof fn lemma_tested_covers(m: Known, body: Body, block: int, v: VarId, env: Env, truth: bool)
    requires
        covers(m, env),
        decides(body, block, v, env, truth),
    ensures
        tested(m, body, block, v, truth) matches Some(n) ==> covers(n, env),
{
    let stmts = body.blocks@[block].stmts@;
    if let Some(d) = body_analysis::defining_bin(stmts, v, stmts.len()) {
        let (op, a, b) = d;
        let eff = if truth {
            op
        } else {
            body_analysis::negated(op)
        };
        body_analysis::law_negation_is_complement(
            op,
            value_of(env, a)->0,
            value_of(env, b)->0,
        );
        lemma_constrained_covers(m, env, eff, a, b);
    }
}

/// A step over a branch never drops or excludes values that take that side. Where
/// the target is also a handler of the block, the step is the subject of
/// [`law_failing_check_is_covered`].
pub proof fn law_branch_is_covered(m: Known, body: Body, block: int, taken: bool, to: BlockId, env: Env)
    requires
        covers(m, env),
        !may_fail_to(body, block, to),
        body.blocks@[block].term matches Terminator::Branch { cond: Operand::Var(v), .. } ==> decides(
            body,
            block,
            v,
            env,
            taken,
        ),
    ensures
        after_term(m, body, block, Some(taken), to) matches Some(r) && covers(r, env),
{
    if let Terminator::Branch { cond: Operand::Var(v), .. } = body.blocks@[block].term {
        lemma_tested_covers(m, body, block, v, env, taken);
    }
    lemma_covered_is_feasible(after_branch(m, body, block, Some(taken)), env);
}

/// A step over a terminator to a block that is no handler of its own covers what it
/// starts with, if a branch is taken as its comparison decides.
pub proof fn lemma_leaving_is_covered(
    m: Known,
    body: Body,
    block: int,
    taken: Option<bool>,
    to: BlockId,
    env: Env,
)
    requires
        covers(m, env),
        !may_fail_to(body, block, to),
        taken is Some ==> (body.blocks@[block].term matches Terminator::Branch {
            cond: Operand::Var(v),
            ..
        } ==> decides(body, block, v, env, taken == Some(true))),
    ensures
        after_term(m, body, block, taken, to) matches Some(r) && covers(r, env),
{
    match taken {
        Some(side) => law_branch_is_covered(m, body, block, side, to, env),
        None => lemma_covered_is_feasible(m, env),
    }
}

/// A step to a handler never drops or excludes values with which some check of the
/// block fails that tests a comparison.
pub proof fn law_failing_check_is_covered(m: Known, body: Body, block: int, to: BlockId, env: Env, i: int)
    requires
        covers(m, env),
        0 <= i < body.blocks@[block].stmts@.len(),
        failure(m, body, block, i) is Some,
        body.blocks@[block].stmts@[i] matches Stmt::Check(id) && (
        body.obligations@[id.0 as int].cond matches Operand::Var(v) ==> decides(
            body,
            block,
            v,
            env,
            false,
        )),
    ensures
        after_term(m, body, block, None, to) matches Some(r) && covers(r, env),
{
    let n = body.blocks@[block].stmts@.len();
    lemma_failures_cover(m, body, block, env, i, n);
    lemma_covered_is_feasible(m, env);
    lemma_covered_is_feasible(failures(m, body, block, n)->0, env);
}

proof fn lemma_join_covers(m: Known, n: Known, env: Env)
    requires
        covers(m, env) || covers(n, env),
    ensures
        covers(known_join(m, n), env),
{
    let r = known_join(m, n);
    assert forall|v: VarId| (#[trigger] got(r, v)).has(env(v)) by {
        if covers(m, env) {
            assert(got(m, v).has(env(v)));
        } else {
            assert(got(n, v).has(env(v)));
        }
    }
}

proof fn lemma_failures_cover(m: Known, body: Body, block: int, env: Env, i: int, n: nat)
    requires
        covers(m, env),
        0 <= i < n <= body.blocks@[block].stmts@.len(),
        failure(m, body, block, i) is Some,
        body.blocks@[block].stmts@[i] matches Stmt::Check(id) && (
        body.obligations@[id.0 as int].cond matches Operand::Var(v) ==> decides(
            body,
            block,
            v,
            env,
            false,
        )),
    ensures
        failures(m, body, block, n) matches Some(r) && covers(r, env),
    decreases n,
{
    if let Stmt::Check(id) = body.blocks@[block].stmts@[i] {
        if let Operand::Var(v) = body.obligations@[id.0 as int].cond {
            lemma_tested_covers(m, body, block, v, env, false);
        }
    }
    let before = failures(m, body, block, (n - 1) as nat);
    if i == n - 1 {
        if let Some(s) = before {
            lemma_join_covers(s, failure(m, body, block, i)->0, env);
        }
    } else {
        lemma_failures_cover(m, body, block, env, i, (n - 1) as nat);
        if let Some(f) = failure(m, body, block, n - 1) {
            lemma_join_covers(before->0, f, env);
        }
    }
}

/// Values that agree with either state agree with the join.
pub proof fn law_join_of_states_covers_both(m: Known, n: Known, env: Env)
    requires
        covers(m, env) || covers(n, env),
    ensures
        covers(known_join(m, n), env),
{
    lemma_join_covers(m, n, env);
}

/// Where one state is below another, values that agree with it agree with the
/// other.
pub proof fn law_order_of_states_is_sound(m: Known, n: Known, env: Env)
    requires
        known_leq(m, n),
        covers(m, env),
    ensures
        covers(n, env),
{
    assert forall|v: VarId| (#[trigger] got(n, v)).has(env(v)) by {
        assert(got(m, v).has(env(v)));
        if n.dom().contains(v) {
            assert(m.dom().contains(v));
        }
    }
}

} // verus!
