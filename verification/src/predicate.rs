//! Predicate abstraction: states that know the truth of some comparisons.

use vstd::prelude::*;
use vstd::string::*;

use crate::assoc::Assoc;
use crate::body_analysis;
use crate::body_analysis::{find_defining_bin, negate_binop};
use crate::interpolation;
use crate::interpolation::extract_predicates_from_interpolant;
use crate::interval;
use crate::interval::{Edge, ProgramPoint};
use crate::ir::{BinOp, Body, Const, Operand, Rvalue, Stmt, Terminator, VarId};
use crate::program::Program;
use crate::scan;
use crate::scan::{is_digit_char, slice, to_text, trimmed, words_of, Cut};
use crate::smt_text;
use crate::smt_text::make_number;
use crate::text;
use crate::text::{chars_of, make_sexp2, numbered, same};

verus! {

/// A comparison operator.
#[derive(Clone, Copy, Debug, PartialEq, Eq, Structural, Hash)]
pub enum CompOp {
    Lt,
    Le,
    Gt,
    Ge,
    Eq,
    Ne,
}

/// A variable or a constant.
#[derive(Clone, Copy, Debug, PartialEq, Eq, Structural, Hash)]
pub enum PredicateOperand {
    Var(VarId),
    Const(i64),
}

/// A comparison of variables and constants.
#[derive(Clone, Copy, Debug, PartialEq, Eq, Structural, Hash)]
pub struct Predicate {
    pub lhs: PredicateOperand,
    pub op: CompOp,
    pub rhs: PredicateOperand,
}

impl CompOp {
    /// Does the comparison hold of two numbers?
    pub open spec fn holds(self, a: int, b: int) -> bool {
        match self {
            CompOp::Lt => a < b,
            CompOp::Le => a <= b,
            CompOp::Gt => a > b,
            CompOp::Ge => a >= b,
            CompOp::Eq => a == b,
            CompOp::Ne => a != b,
        }
    }

    /// The comparison that holds when this one does not.
    pub open spec fn negated(self) -> CompOp {
        match self {
            CompOp::Lt => CompOp::Ge,
            CompOp::Le => CompOp::Gt,
            CompOp::Gt => CompOp::Le,
            CompOp::Ge => CompOp::Lt,
            CompOp::Eq => CompOp::Ne,
            CompOp::Ne => CompOp::Eq,
        }
    }

    /// The comparison that the operator is, if it is one.
    pub open spec fn of(op: BinOp) -> Option<CompOp> {
        match op {
            BinOp::Lt => Some(CompOp::Lt),
            BinOp::Le => Some(CompOp::Le),
            BinOp::Gt => Some(CompOp::Gt),
            BinOp::Ge => Some(CompOp::Ge),
            BinOp::Eq => Some(CompOp::Eq),
            BinOp::Ne => Some(CompOp::Ne),
            _ => None,
        }
    }

    /// The text of the operator.
    pub open spec fn symbol(self) -> Seq<char> {
        match self {
            CompOp::Lt => "<"@,
            CompOp::Le => "<="@,
            CompOp::Gt => ">"@,
            CompOp::Ge => ">="@,
            CompOp::Eq => "="@,
            CompOp::Ne => "distinct"@,
        }
    }

    fn negate(self) -> (r: CompOp)
        ensures
            r == self.negated(),
    {
        match self {
            CompOp::Lt => CompOp::Ge,
            CompOp::Le => CompOp::Gt,
            CompOp::Gt => CompOp::Le,
            CompOp::Ge => CompOp::Lt,
            CompOp::Eq => CompOp::Ne,
            CompOp::Ne => CompOp::Eq,
        }
    }

    /// The comparison that the operator is, if it is one.
    pub fn from_binop(op: BinOp) -> (r: Option<CompOp>)
        ensures
            r == CompOp::of(op),
    {
        match op {
            BinOp::Lt => Some(CompOp::Lt),
            BinOp::Le => Some(CompOp::Le),
            BinOp::Gt => Some(CompOp::Gt),
            BinOp::Ge => Some(CompOp::Ge),
            BinOp::Eq => Some(CompOp::Eq),
            BinOp::Ne => Some(CompOp::Ne),
            _ => None,
        }
    }
}

/// The least and the greatest value of each variable that something is known of.
pub type Ranges = Map<VarId, (i64, i64)>;

impl PredicateOperand {
    /// The least and the greatest value of the operand.
    pub open spec fn range(self, vals: Ranges) -> Option<(i64, i64)> {
        match self {
            PredicateOperand::Var(v) => if vals.dom().contains(v) {
                Some(vals[v])
            } else {
                None
            },
            PredicateOperand::Const(c) => Some((c, c)),
        }
    }

    /// The value of the operand.
    pub open spec fn value(self, env: spec_fn(VarId) -> int) -> int {
        match self {
            PredicateOperand::Var(v) => env(v),
            PredicateOperand::Const(c) => c as int,
        }
    }

    /// The text of the operand.
    pub open spec fn written(self) -> Seq<char> {
        match self {
            PredicateOperand::Var(v) => "v"@ + text::dec(v.0 as nat),
            PredicateOperand::Const(c) => smt_text::number_text(c as int),
        }
    }

    /// Can the operand be written?
    pub open spec fn writable(self) -> bool {
        self != PredicateOperand::Const(i64::MIN)
    }

    fn range_of(&self, vals: &Assoc<VarId, (i64, i64)>) -> (r: Option<(i64, i64)>)
        ensures
            r == self.range(vals.map()),
    {
        match self {
            PredicateOperand::Var(v) => vals.get(v),
            PredicateOperand::Const(c) => Some((*c, *c)),
        }
    }

    fn to_text(&self) -> (s: String)
        requires
            self.writable(),
        ensures
            s@ == self.written(),
    {
        match self {
            PredicateOperand::Var(v) => numbered("v", v.0 as u64),
            PredicateOperand::Const(c) => make_number(*c),
        }
    }
}

/// Do all numbers from the ranges satisfy the comparison, or none?
pub open spec fn decided(op: CompOp, l: (i64, i64), r: (i64, i64)) -> Option<bool> {
    let apart = l.1 < r.0 || r.1 < l.0;
    let same = l.0 == l.1 && r.0 == r.1 && l.0 == r.0;
    let (yes, no) = match op {
        CompOp::Lt => (l.1 < r.0, l.0 >= r.1),
        CompOp::Le => (l.1 <= r.0, l.0 > r.1),
        CompOp::Gt => (l.0 > r.1, l.1 <= r.0),
        CompOp::Ge => (l.0 >= r.1, l.1 < r.0),
        CompOp::Eq => (same, apart),
        CompOp::Ne => (apart, same),
    };
    if yes {
        Some(true)
    } else if no {
        Some(false)
    } else {
        None
    }
}

impl Predicate {
    /// Does the predicate hold of the values?
    pub open spec fn holds(self, env: spec_fn(VarId) -> int) -> bool {
        self.op.holds(self.lhs.value(env), self.rhs.value(env))
    }

    /// What the ranges of the variables say about the predicate.
    pub open spec fn verdict(self, vals: Ranges) -> Option<bool> {
        match (self.lhs.range(vals), self.rhs.range(vals)) {
            (Some(l), Some(r)) => decided(self.op, l, r),
            _ => None,
        }
    }

    /// Does the variable occur?
    pub open spec fn names(self, v: VarId) -> bool {
        self.lhs == PredicateOperand::Var(v) || self.rhs == PredicateOperand::Var(v)
    }

    /// The predicate as an SMT-LIB term.
    pub open spec fn written(self) -> Seq<char> {
        text::sexp2(self.op.symbol(), self.lhs.written(), self.rhs.written())
    }

    /// What the ranges of the variables say about the predicate: true, false, or
    /// nothing.
    pub fn evaluate(&self, var_vals: &Assoc<VarId, (i64, i64)>) -> (r: Option<bool>)
        ensures
            r == self.verdict(var_vals.map()),
    {
        let lhs = match self.lhs.range_of(var_vals) {
            Some(x) => x,
            None => {
                return None;
            },
        };
        let rhs = match self.rhs.range_of(var_vals) {
            Some(x) => x,
            None => {
                return None;
            },
        };
        match self.op {
            CompOp::Lt => if lhs.1 < rhs.0 {
                Some(true)
            } else if lhs.0 >= rhs.1 {
                Some(false)
            } else {
                None
            },
            CompOp::Le => if lhs.1 <= rhs.0 {
                Some(true)
            } else if lhs.0 > rhs.1 {
                Some(false)
            } else {
                None
            },
            CompOp::Gt => if lhs.0 > rhs.1 {
                Some(true)
            } else if lhs.1 <= rhs.0 {
                Some(false)
            } else {
                None
            },
            CompOp::Ge => if lhs.0 >= rhs.1 {
                Some(true)
            } else if lhs.1 < rhs.0 {
                Some(false)
            } else {
                None
            },
            CompOp::Eq => if lhs.0 == lhs.1 && rhs.0 == rhs.1 && lhs.0 == rhs.0 {
                Some(true)
            } else if lhs.1 < rhs.0 || rhs.1 < lhs.0 {
                Some(false)
            } else {
                None
            },
            CompOp::Ne => if lhs.1 < rhs.0 || rhs.1 < lhs.0 {
                Some(true)
            } else if lhs.0 == lhs.1 && rhs.0 == rhs.1 && lhs.0 == rhs.0 {
                Some(false)
            } else {
                None
            },
        }
    }

    /// Does the variable occur?
    pub fn mentions(&self, v: VarId) -> (r: bool)
        ensures
            r == self.names(v),
    {
        self.lhs == PredicateOperand::Var(v) || self.rhs == PredicateOperand::Var(v)
    }

    /// The predicate as an SMT-LIB term.
    pub fn to_smt2(&self) -> (s: String)
        requires
            self.lhs.writable(),
            self.rhs.writable(),
        ensures
            s@ == self.written(),
    {
        let lhs = self.lhs.to_text();
        let rhs = self.rhs.to_text();
        let op = match self.op {
            CompOp::Lt => "<",
            CompOp::Le => "<=",
            CompOp::Gt => ">",
            CompOp::Ge => ">=",
            CompOp::Eq => "=",
            CompOp::Ne => "distinct",
        };
        make_sexp2(op, lhs.as_str(), rhs.as_str())
    }
}

/// The predicates that are tracked.
#[derive(Debug)]
pub struct PredPrec {
    pub predicates: Vec<Predicate>,
}

impl Default for PredPrec {
    fn default() -> (r: Self)
        ensures
            r.predicates@.len() == 0,
    {
        PredPrec { predicates: Vec::new() }
    }
}

/// A place, and what is known there of each predicate.
#[derive(Debug)]
pub struct PredState {
    pub at: ProgramPoint,
    pub values: Vec<Option<bool>>,
}

/// Whatever one list knows, the other knows too or leaves open; and it knows
/// nothing that the first leaves open. Only the common positions count.
pub open spec fn knows_no_more(weak: Seq<Option<bool>>, strong: Seq<Option<bool>>) -> bool {
    forall|i: int|
        0 <= i < weak.len() && i < strong.len() ==> (#[trigger] weak[i] is Some ==> strong[i]
            == weak[i])
}

/// What both lists know, at the common positions.
pub open spec fn common(a: Seq<Option<bool>>, b: Seq<Option<bool>>) -> Seq<Option<bool>> {
    Seq::new(
        if a.len() <= b.len() {
            a.len()
        } else {
            b.len()
        },
        |i: int|
            if a[i] == b[i] {
                a[i]
            } else {
                None
            },
    )
}

/// Whether two states were merged.
#[derive(Debug)]
pub enum MergeResult {
    Joined(PredState),
    Sep,
}

/// The values, made as long as the list of predicates.
pub open spec fn padded(values: Seq<Option<bool>>, n: nat) -> Seq<Option<bool>> {
    if values.len() >= n {
        values
    } else {
        values + Seq::new((n - values.len()) as nat, |i: int| None)
    }
}

impl PredState {
    /// Nothing is known.
    pub fn top(at: ProgramPoint, n_predicates: usize) -> (r: Self)
        ensures
            r.at == at,
            r.values@.len() == n_predicates,
            forall|i: int| 0 <= i < n_predicates ==> (#[trigger] r.values@[i]) is None,
    {
        let mut values: Vec<Option<bool>> = Vec::new();
        let mut i: usize = 0;
        while i < n_predicates
            invariant
                i <= n_predicates,
                values@.len() == i,
                forall|j: int| 0 <= j < i ==> (#[trigger] values@[j]) is None,
            decreases n_predicates - i,
        {
            values.push(None);
            i += 1;
        }
        PredState { at, values }
    }

    /// Contradictions are not represented, so no state has one.
    pub fn is_consistent(&self) -> (r: bool)
        ensures
            r,
    {
        true
    }

    /// Does the other state cover this one?
    pub fn leq(&self, other: &PredState) -> (r: bool)
        ensures
            r == knows_no_more(other.values@, self.values@),
    {
        let mut i: usize = 0;
        while i < self.values.len() && i < other.values.len()
            invariant
                i <= self.values@.len(),
                i <= other.values@.len(),
                forall|j: int|
                    0 <= j < i ==> (#[trigger] other.values@[j] is Some ==> self.values@[j]
                        == other.values@[j]),
            decreases self.values@.len() - i,
        {
            if let Some(b) = other.values[i] {
                match self.values[i] {
                    Some(a) => {
                        if a != b {
                            return false;
                        }
                    },
                    None => {
                        return false;
                    },
                }
            }
            i += 1;
        }
        true
    }

    /// What both states know, at the place of this one.
    pub fn join(&self, other: &PredState) -> (r: PredState)
        ensures
            r.at == self.at,
            r.values@ == common(self.values@, other.values@),
    {
        let mut values: Vec<Option<bool>> = Vec::new();
        let mut i: usize = 0;
        while i < self.values.len() && i < other.values.len()
            invariant
                i <= self.values@.len(),
                i <= other.values@.len(),
                values@ == common(self.values@, other.values@).take(i as int),
            decreases self.values@.len() - i,
        {
            let v = match (self.values[i], other.values[i]) {
                (Some(a), Some(b)) => if a == b {
                    Some(a)
                } else {
                    None
                },
                _ => None,
            };
            values.push(v);
            proof {
                let c = common(self.values@, other.values@);
                assert(c.take(i + 1) =~= c.take(i as int).push(c[i as int]));
            }
            i += 1;
        }
        proof {
            assert(common(self.values@, other.values@).take(i as int) =~= common(
                self.values@,
                other.values@,
            ));
        }
        PredState { at: self.at.clone(), values }
    }

    /// Contradictions are not represented, so no state has one.
    pub fn is_bottom(&self) -> (r: bool)
        ensures
            !r,
    {
        false
    }

    /// The place.
    pub fn location(&self) -> (r: &ProgramPoint)
        ensures
            *r == self.at,
    {
        &self.at
    }

    fn copy(&self, to: &ProgramPoint, n: usize) -> (r: PredState)
        ensures
            r.at == *to,
            r.values@ == padded(self.values@, n as nat),
    {
        let mut values: Vec<Option<bool>> = Vec::new();
        let mut i: usize = 0;
        while i < self.values.len()
            invariant
                i <= self.values@.len(),
                values@ == self.values@.take(i as int),
            decreases self.values@.len() - i,
        {
            values.push(self.values[i]);
            i += 1;
        }
        proof {
            assert(values@ =~= self.values@);
        }
        while values.len() < n
            invariant
                values@.len() >= self.values@.len(),
                values@.len() <= n || values@ == self.values@,
                values@ == self.values@ + Seq::new(
                    (values@.len() - self.values@.len()) as nat,
                    |i: int| None::<bool>,
                ),
            decreases n - values@.len(),
        {
            values.push(None);
        }
        proof {
            assert(values@ =~= padded(self.values@, n as nat));
        }
        PredState { at: to.clone(), values }
    }
}

/// The constant that the first `n` predicates know the variable to be: that of the
/// first equation that is known to hold.
pub open spec fn known_value(preds: Seq<Predicate>, values: Seq<Option<bool>>, v: VarId, i: nat) -> Option<
    i64,
>
    decreases preds.len() - i,
{
    if i >= preds.len() {
        None
    } else if i < values.len() && values[i as int] == Some(true) && preds[i as int].op == CompOp::Eq
        && preds[i as int].lhs == PredicateOperand::Var(v) && preds[i as int].rhs is Const {
        Some(preds[i as int].rhs->Const_0)
    } else {
        known_value(preds, values, v, i + 1)
    }
}

/// The value of an operand after `v` was set to `n`.
pub open spec fn operand_after(
    preds: Seq<Predicate>,
    values: Seq<Option<bool>>,
    o: PredicateOperand,
    v: VarId,
    n: i64,
) -> Option<i64> {
    match o {
        PredicateOperand::Var(x) => if x == v {
            Some(n)
        } else {
            known_value(preds, values, x, 0)
        },
        PredicateOperand::Const(c) => Some(c),
    }
}

/// What is known of a predicate after an assignment: something only where a
/// constant of type `int` is assigned.
pub open spec fn after_assign(
    preds: Seq<Predicate>,
    values: Seq<Option<bool>>,
    p: Predicate,
    v: VarId,
    rv: Rvalue,
) -> Option<bool> {
    match rv {
        Rvalue::Use(Operand::Const(Const::Int(n))) => {
            match (
                operand_after(preds, values, p.lhs, v, n as i64),
                operand_after(preds, values, p.rhs, v, n as i64),
            ) {
                (Some(l), Some(r)) => Some(p.op.holds(l as int, r as int)),
                _ => None,
            }
        },
        _ => None,
    }
}

/// Is the operand of the predicate the one of the comparison?
pub open spec fn operand_matches(p: PredicateOperand, o: Operand) -> bool {
    match (p, o) {
        (PredicateOperand::Var(x), Operand::Var(y)) => x == y,
        (PredicateOperand::Const(c), Operand::Const(Const::Int(n))) => c == n,
        _ => false,
    }
}

/// Is the predicate the comparison?
pub open spec fn matches_comparison(p: Predicate, op: CompOp, a: Operand, b: Operand) -> bool {
    p.op == op && operand_matches(p.lhs, a) && operand_matches(p.rhs, b)
}

/// What is known of a predicate when the comparison holds.
pub open spec fn learned(p: Predicate, before: Option<bool>, op: CompOp, a: Operand, b: Operand) -> Option<
    bool,
> {
    if matches_comparison(p, op, a, b) {
        Some(true)
    } else if matches_comparison(p, op.negated(), a, b) {
        Some(false)
    } else {
        before
    }
}

/// What is known after a statement; `None` if it is never passed.
pub open spec fn after_stmt(preds: Seq<Predicate>, values: Seq<Option<bool>>, s: Stmt) -> Option<
    Seq<Option<bool>>,
> {
    let all = padded(values, preds.len());
    match s {
        Stmt::Assign(v, rv) => Some(
            Seq::new(
                all.len(),
                |i: int|
                    if i < preds.len() && preds[i].names(v) {
                        after_assign(preds, values, preds[i], v, rv)
                    } else {
                        all[i]
                    },
            ),
        ),
        Stmt::Assume(Operand::Const(Const::Int(0))) => None,
        _ => Some(all),
    }
}

/// The comparison that is known on one side of a branch.
pub open spec fn branch_comparison(body: Body, block: int, taken: Option<bool>) -> Option<
    (CompOp, Operand, Operand),
> {
    let b = body.blocks@[block];
    if taken is Some && b.term is Branch && b.term->cond is Var {
        match body_analysis::defining_bin(b.stmts@, b.term->cond->Var_0, b.stmts@.len()) {
            Some((op, x, y)) => match CompOp::of(
                if taken->0 {
                    op
                } else {
                    body_analysis::negated(op)
                },
            ) {
                Some(c) => Some((c, x, y)),
                None => None,
            },
            None => None,
        }
    } else {
        None
    }
}

/// What is known after the terminator of a block.
pub open spec fn after_term(
    preds: Seq<Predicate>,
    values: Seq<Option<bool>>,
    body: Body,
    block: int,
    taken: Option<bool>,
) -> Seq<Option<bool>> {
    let all = padded(values, preds.len());
    match branch_comparison(body, block, taken) {
        Some((op, a, b)) => Seq::new(
            all.len(),
            |i: int|
                if i < preds.len() {
                    learned(preds[i], all[i], op, a, b)
                } else {
                    all[i]
                },
        ),
        None => all,
    }
}

/// What is known after a step.
pub open spec fn after_edge(
    preds: Seq<Predicate>,
    values: Seq<Option<bool>>,
    body: Body,
    e: Edge,
) -> Option<Seq<Option<bool>>> {
    match e {
        Edge::Stmt(b, i) => after_stmt(preds, values, body.blocks@[b.0 as int].stmts@[i as int]),
        Edge::Term(b, taken, _) => Some(after_term(preds, values, body, b.0 as int, taken)),
        Edge::Exit(_) => Some(padded(values, preds.len())),
    }
}

fn get_known_value(prec: &PredPrec, state: &PredState, v: VarId) -> (r: Option<i64>)
    ensures
        r == known_value(prec.predicates@, state.values@, v, 0),
{
    let mut i: usize = 0;
    while i < prec.predicates.len()
        invariant
            i <= prec.predicates@.len(),
            known_value(prec.predicates@, state.values@, v, 0) == known_value(
                prec.predicates@,
                state.values@,
                v,
                i as nat,
            ),
        decreases prec.predicates@.len() - i,
    {
        if i < state.values.len() && state.values[i] == Some(true) && prec.predicates[i].op
            == CompOp::Eq {
            if prec.predicates[i].lhs == PredicateOperand::Var(v) {
                if let PredicateOperand::Const(c) = prec.predicates[i].rhs {
                    return Some(c);
                }
            }
        }
        i += 1;
    }
    None
}

fn eval_comp(op: CompOp, a: i64, b: i64) -> (r: bool)
    ensures
        r == op.holds(a as int, b as int),
{
    match op {
        CompOp::Lt => a < b,
        CompOp::Le => a <= b,
        CompOp::Gt => a > b,
        CompOp::Ge => a >= b,
        CompOp::Eq => a == b,
        CompOp::Ne => a != b,
    }
}

fn value_after(prec: &PredPrec, state: &PredState, o: PredicateOperand, v: VarId, n: i64) -> (r: Option<
    i64,
>)
    ensures
        r == operand_after(prec.predicates@, state.values@, o, v, n),
{
    match o {
        PredicateOperand::Var(x) => if x == v {
            Some(n)
        } else {
            get_known_value(prec, state, x)
        },
        PredicateOperand::Const(c) => Some(c),
    }
}

fn evaluate_predicate_after_assign(
    pred: &Predicate,
    v: VarId,
    rv: &Rvalue,
    state: &PredState,
    prec: &PredPrec,
) -> (r: Option<bool>)
    ensures
        r == after_assign(prec.predicates@, state.values@, *pred, v, *rv),
{
    if let Rvalue::Use(Operand::Const(Const::Int(n))) = rv {
        let l = value_after(prec, state, pred.lhs, v, *n as i64);
        let r = value_after(prec, state, pred.rhs, v, *n as i64);
        if let (Some(l), Some(r)) = (l, r) {
            return Some(eval_comp(pred.op, l, r));
        }
    }
    None
}

fn does_operand_match(p: &PredicateOperand, o: &Operand) -> (r: bool)
    ensures
        r == operand_matches(*p, *o),
{
    match (p, o) {
        (PredicateOperand::Var(x), Operand::Var(y)) => *x == *y,
        (PredicateOperand::Const(c), Operand::Const(Const::Int(n))) => *c == *n as i64,
        _ => false,
    }
}

fn predicate_matches_comparison(pred: &Predicate, comp: CompOp, a: &Operand, b: &Operand) -> (r: bool)
    ensures
        r == matches_comparison(*pred, comp, *a, *b),
{
    pred.op == comp && does_operand_match(&pred.lhs, a) && does_operand_match(&pred.rhs, b)
}

/// The analysis that keeps the truth of predicates.
#[derive(Debug)]
pub struct PredicateCpa;

impl PredicateCpa {
    /// Nothing is known at the start.
    pub fn initial(&self, _prog: &Program, at: &ProgramPoint) -> (r: PredState)
        ensures
            r.at == *at,
            r.values@.len() == 0,
    {
        PredState { at: at.clone(), values: Vec::new() }
    }

    /// The states after a step to the place `to`: one, or none where nothing gets
    /// there.
    pub fn transfer(
        &self,
        state: &PredState,
        prog: &Program,
        edge: &Edge,
        to: &ProgramPoint,
        prec: &PredPrec,
    ) -> (r: Vec<PredState>)
        requires
            prog.well_formed(),
            prog.body_of(to.method@) matches Some(b) ==> interval::edge_in(*edge, b),
        ensures
            match prog.body_of(to.method@) {
                Some(b) => match after_edge(prec.predicates@, state.values@, b, *edge) {
                    Some(n) => r@.len() == 1 && r@[0].at == *to && r@[0].values@ == n,
                    None => r@.len() == 0,
                },
                None => r@.len() == 0,
            },
    {
        let body = match prog.body(&to.method) {
            Some(b) => b,
            None => {
                return Vec::new();
            },
        };
        let mut next = state.copy(to, prec.predicates.len());
        let ghost all = padded(state.values@, prec.predicates@.len());
        let mut out: Vec<PredState> = Vec::new();
        match edge {
            Edge::Stmt(block, idx) => {
                match &body.block(*block).stmts[*idx] {
                    Stmt::Assign(v, rv) => {
                        let mut i: usize = 0;
                        while i < prec.predicates.len()
                            invariant
                                i <= prec.predicates@.len() <= all.len(),
                                next.at == *to,
                                next.values@.len() == all.len(),
                                forall|j: int|
                                    0 <= j < all.len() ==> (#[trigger] next.values@[j]) == if j < i
                                        && prec.predicates@[j].names(*v) {
                                        after_assign(
                                            prec.predicates@,
                                            state.values@,
                                            prec.predicates@[j],
                                            *v,
                                            *rv,
                                        )
                                    } else {
                                        all[j]
                                    },
                            decreases prec.predicates@.len() - i,
                        {
                            if prec.predicates[i].mentions(*v) {
                                let t = evaluate_predicate_after_assign(
                                    &prec.predicates[i],
                                    *v,
                                    rv,
                                    state,
                                    prec,
                                );
                                next.values.set(i, t);
                            }
                            i += 1;
                        }
                        proof {
                            let want = after_edge(
                                prec.predicates@,
                                state.values@,
                                *body,
                                *edge,
                            );
                            assert(next.values@ =~= want->0);
                        }
                    },
                    Stmt::Assume(Operand::Const(Const::Int(n))) => {
                        if *n == 0 {
                            return out;
                        }
                    },
                    _ => {},
                }
                out.push(next);
            },
            Edge::Term(block, taken, _) => {
                if let Some(is_then) = taken {
                    if let Terminator::Branch { cond: Operand::Var(cv), .. } = &body.block(*block).term {
                        if let Some((op, a, b)) = find_defining_bin(body, *block, *cv) {
                            let eff = if *is_then {
                                op
                            } else {
                                negate_binop(op)
                            };
                            if let Some(c) = CompOp::from_binop(eff) {
                                learn(&mut next, prec, c, a, b);
                            }
                        }
                    }
                }
                proof {
                    let want = after_edge(prec.predicates@, state.values@, *body, *edge);
                    assert(next.values@ =~= want->0);
                }
                out.push(next);
            },
            Edge::Exit(_) => {
                out.push(next);
            },
        }
        out
    }

    /// Merge a new state into one at the same place that was reached before, unless
    /// nothing is lost by leaving it out.
    pub fn merge(&self, new: &PredState, reached: &PredState, _prec: &PredPrec) -> (r: MergeResult)
        ensures
            ({
                let joined = common(new.values@, reached.values@);
                if new.at@ == reached.at@ && joined != reached.values@ {
                    r matches MergeResult::Joined(s) && s.at == new.at && s.values@ == joined
                } else {
                    r is Sep
                }
            }),
    {
        if !(new.at.method.same_as(&reached.at.method) && new.at.block == reached.at.block
            && new.at.index == reached.at.index) {
            return MergeResult::Sep;
        }
        let joined = new.join(reached);
        let mut equal = joined.values.len() == reached.values.len();
        let mut i: usize = 0;
        while equal && i < joined.values.len()
            invariant
                equal ==> joined.values@.len() == reached.values@.len(),
                equal ==> i <= joined.values@.len(),
                equal ==> forall|j: int|
                    0 <= j < i ==> #[trigger] joined.values@[j] == reached.values@[j],
                !equal ==> joined.values@ != reached.values@,
            decreases joined.values@.len() - i,
        {
            equal = joined.values[i] == reached.values[i];
            i += 1;
        }
        if equal {
            proof {
                assert(joined.values@ =~= reached.values@);
            }
            MergeResult::Sep
        } else {
            MergeResult::Joined(joined)
        }
    }
}

fn learn(s: &mut PredState, prec: &PredPrec, c: CompOp, a: &Operand, b: &Operand)
    requires
        prec.predicates@.len() <= old(s).values@.len(),
    ensures
        final(s).at == old(s).at,
        final(s).values@ == Seq::new(
            old(s).values@.len(),
            |i: int|
                if i < prec.predicates@.len() {
                    learned(prec.predicates@[i], old(s).values@[i], c, *a, *b)
                } else {
                    old(s).values@[i]
                },
        ),
{
    let ghost all = s.values@;
    let mut i: usize = 0;
    while i < prec.predicates.len()
        invariant
            i <= prec.predicates@.len() <= all.len(),
            s.at == old(s).at,
            s.values@.len() == all.len(),
            forall|j: int|
                0 <= j < all.len() ==> (#[trigger] s.values@[j]) == if j < i {
                    learned(prec.predicates@[j], all[j], c, *a, *b)
                } else {
                    all[j]
                },
        decreases prec.predicates@.len() - i,
    {
        if predicate_matches_comparison(&prec.predicates[i], c, a, b) {
            s.values.set(i, Some(true));
        } else if predicate_matches_comparison(&prec.predicates[i], c.negate(), a, b) {
            s.values.set(i, Some(false));
        }
        i += 1;
    }
    proof {
        assert(s.values@ =~= Seq::new(
            old(s).values@.len(),
            |i: int|
                if i < prec.predicates@.len() {
                    learned(prec.predicates@[i], old(s).values@[i], c, *a, *b)
                } else {
                    old(s).values@[i]
                },
        ));
    }
}

/// The value of decimal digits.
pub open spec fn digits_value(s: Seq<char>) -> nat
    decreases s.len(),
{
    if s.len() == 0 {
        0
    } else {
        digits_value(s.drop_last()) * 10 + (s.last() as u32 - 48) as nat
    }
}

/// Is the text made of digits?
pub open spec fn all_digits(s: Seq<char>) -> bool {
    s.len() > 0 && forall|i: int| 0 <= i < s.len() ==> scan::digit_char(#[trigger] s[i])
}

/// The number that digits with an optional plus sign stand for, if it is at most
/// `max`.
pub open spec fn parse_unsigned(s: Seq<char>, max: nat) -> Option<nat> {
    let t = if s.len() > 0 && s[0] == '+' {
        s.skip(1)
    } else {
        s
    };
    if all_digits(t) && digits_value(t) <= max {
        Some(digits_value(t))
    } else {
        None
    }
}

/// The number that digits with an optional sign stand for, if it is an `i64`.
pub open spec fn parse_signed(s: Seq<char>) -> Option<int> {
    if s.len() > 0 && s[0] == '-' {
        if all_digits(s.skip(1)) && digits_value(s.skip(1)) <= 0x8000_0000_0000_0000 {
            Some(-(digits_value(s.skip(1)) as int))
        } else {
            None
        }
    } else {
        match parse_unsigned(s, i64::MAX as nat) {
            Some(n) => Some(n as int),
            None => None,
        }
    }
}

/// The operand that the text stands for.
pub open spec fn parse_operand(s: Seq<char>) -> Option<PredicateOperand> {
    if s.len() > 0 && s[0] == 'v' {
        match parse_unsigned(s.skip(1), u32::MAX as nat) {
            Some(n) => Some(PredicateOperand::Var(VarId(n as u32))),
            None => None,
        }
    } else {
        match parse_signed(s) {
            Some(n) => Some(PredicateOperand::Const(n as i64)),
            None => None,
        }
    }
}

/// The comparison that the text stands for.
pub open spec fn parse_symbol(s: Seq<char>) -> Option<CompOp> {
    if s == "<"@ {
        Some(CompOp::Lt)
    } else if s == "<="@ {
        Some(CompOp::Le)
    } else if s == ">"@ {
        Some(CompOp::Gt)
    } else if s == ">="@ {
        Some(CompOp::Ge)
    } else if s == "="@ {
        Some(CompOp::Eq)
    } else if s == "distinct"@ {
        Some(CompOp::Ne)
    } else {
        None
    }
}

/// The predicate that an atom stands for: an operator and two operands in
/// brackets.
pub open spec fn parse_atom(s: Seq<char>) -> Option<Predicate> {
    let e = scan::trim(s);
    if e.len() < 2 || e[0] != '(' || e.last() != ')' {
        None
    } else {
        let w = scan::words(e.subrange(1, e.len() - 1));
        if w.len() != 3 {
            None
        } else {
            match (parse_symbol(w[0]), parse_operand(w[1]), parse_operand(w[2])) {
                (Some(op), Some(lhs), Some(rhs)) => Some(Predicate { lhs, op, rhs }),
                _ => None,
            }
        }
    }
}

/// The predicates among the first `n` atoms.
pub open spec fn parse_atoms(atoms: Seq<Seq<char>>, n: nat) -> Seq<Predicate>
    decreases n,
{
    if n == 0 {
        Seq::empty()
    } else {
        match parse_atom(atoms[n - 1]) {
            Some(p) => parse_atoms(atoms, (n - 1) as nat).push(p),
            None => parse_atoms(atoms, (n - 1) as nat),
        }
    }
}

/// The predicates of an interpolant: its atoms, as far as they are comparisons of
/// variables and constants.
pub fn predicates_from_interpolant(itp: &str) -> (r: Vec<Predicate>)
    requires
        interpolation::atoms(itp@) is Some,
    ensures
        ({
            let atoms = interpolation::atoms(itp@)->0;
            r@ == parse_atoms(atoms, atoms.len())
        }),
{
    let atoms = extract_predicates_from_interpolant(itp);
    let ghost all = text::views(atoms@);
    let mut preds: Vec<Predicate> = Vec::new();
    let mut i: usize = 0;
    while i < atoms.len()
        invariant
            i <= atoms@.len(),
            all == text::views(atoms@),
            preds@ == parse_atoms(all, i as nat),
        decreases atoms@.len() - i,
    {
        proof {
            assert(all[i as int] == atoms@[i as int]@);
        }
        if let Some(p) = parse_predicate_atom(atoms[i].as_str()) {
            preds.push(p);
        }
        i += 1;
    }
    preds
}

fn digits_from(v: &Vec<char>, from: usize, max: u64) -> (r: Option<u64>)
    requires
        from <= v@.len(),
    ensures
        ({
            let t = v@.skip(from as int);
            match r {
                Some(n) => all_digits(t) && digits_value(t) == n && n <= max,
                None => !(all_digits(t) && digits_value(t) <= max),
            }
        }),
{
    let ghost t = v@.skip(from as int);
    if from == v.len() {
        return None;
    }
    let mut n: u64 = 0;
    let mut i: usize = from;
    let mut over = false;
    proof {
        assert(t.take(0) =~= Seq::empty());
    }
    while i < v.len()
        invariant
            from <= i <= v@.len(),
            t == v@.skip(from as int),
            t.len() > 0,
            forall|j: int| 0 <= j < i - from ==> scan::digit_char(#[trigger] t[j]),
            over ==> digits_value(t.take(i - from)) > max,
            !over ==> digits_value(t.take(i - from)) == n && n <= max,
        decreases v@.len() - i,
    {
        proof {
            assert(t[i - from] == v@[i as int]);
            assert(t.take(i + 1 - from).drop_last() =~= t.take(i - from));
            assert(t.take(i + 1 - from).last() == v@[i as int]);
        }
        if !is_digit_char(v[i]) {
            proof {
                assert(!scan::digit_char(t[i - from]));
            }
            return None;
        }
        let d = (v[i] as u32 - 48) as u64;
        if !over {
            let wide: u128 = n as u128 * 10 + d as u128;
            if wide > max as u128 {
                over = true;
            } else {
                n = wide as u64;
            }
        }
        i += 1;
    }
    proof {
        assert(t.take(i - from) =~= t);
    }
    if over {
        None
    } else {
        Some(n)
    }
}

fn unsigned_from(v: &Vec<char>, from: usize, max: u64) -> (r: Option<u64>)
    requires
        from <= v@.len(),
    ensures
        match r {
            Some(n) => parse_unsigned(v@.skip(from as int), max as nat) == Some(n as nat) && n <= max,
            None => parse_unsigned(v@.skip(from as int), max as nat) is None,
        },
{
    let ghost s = v@.skip(from as int);
    if from < v.len() && v[from] == '+' {
        proof {
            assert(s[0] == '+');
            assert(s.skip(1) =~= v@.skip(from + 1));
        }
        digits_from(v, from + 1, max)
    } else {
        digits_from(v, from, max)
    }
}

fn parse_predicate_operand(v: &Vec<char>) -> (r: Option<PredicateOperand>)
    ensures
        r == parse_operand(v@),
{
    proof {
        assert(v@.skip(0) =~= v@);
    }
    if v.len() > 0 && v[0] == 'v' {
        match unsigned_from(v, 1, u32::MAX as u64) {
            Some(n) => Some(PredicateOperand::Var(VarId(n as u32))),
            None => None,
        }
    } else if v.len() > 0 && v[0] == '-' {
        match digits_from(v, 1, 0x8000_0000_0000_0000) {
            Some(n) => if n == 0x8000_0000_0000_0000 {
                Some(PredicateOperand::Const(i64::MIN))
            } else {
                Some(PredicateOperand::Const(-(n as i64)))
            },
            None => None,
        }
    } else {
        match unsigned_from(v, 0, i64::MAX as u64) {
            Some(n) => Some(PredicateOperand::Const(n as i64)),
            None => None,
        }
    }
}

fn parse_op(s: &str) -> (r: Option<CompOp>)
    ensures
        r == parse_symbol(s@),
{
    if same(s, "<") {
        Some(CompOp::Lt)
    } else if same(s, "<=") {
        Some(CompOp::Le)
    } else if same(s, ">") {
        Some(CompOp::Gt)
    } else if same(s, ">=") {
        Some(CompOp::Ge)
    } else if same(s, "=") {
        Some(CompOp::Eq)
    } else if same(s, "distinct") {
        Some(CompOp::Ne)
    } else {
        None
    }
}

/// The predicate that an atom like `(< v0 5)` stands for.
pub fn parse_predicate_atom(atom: &str) -> (r: Option<Predicate>)
    ensures
        r == parse_atom(atom@),
{
    let e = trimmed(&chars_of(atom));
    if e.len() < 2 || e[0] != '(' || e[e.len() - 1] != ')' {
        return None;
    }
    let inner = slice(&e, 1, e.len() - 1);
    let w = words_of(&inner);
    let ghost all = scan::char_views(w@);
    if w.len() != 3 {
        proof {
            assert(all.len() != 3);
        }
        return None;
    }
    proof {
        assert(all[0] == w@[0]@ && all[1] == w@[1]@ && all[2] == w@[2]@);
    }
    let o = to_text(&w[0]);
    let op = match parse_op(o.as_str()) {
        Some(op) => op,
        None => {
            return None;
        },
    };
    let lhs = match parse_predicate_operand(&w[1]) {
        Some(x) => x,
        None => {
            return None;
        },
    };
    let rhs = match parse_predicate_operand(&w[2]) {
        Some(x) => x,
        None => {
            return None;
        },
    };
    Some(Predicate { lhs, op, rhs })
}

/// The values are in the ranges.
pub open spec fn in_ranges(vals: Ranges, env: spec_fn(VarId) -> int) -> bool {
    forall|v: VarId| #[trigger] vals.dom().contains(v) ==> vals[v].0 <= env(v) <= vals[v].1
}

/// A definite answer about a predicate is right for all values in the ranges.
pub proof fn law_evaluation_is_sound(p: Predicate, vals: Ranges, env: spec_fn(VarId) -> int)
    requires
        in_ranges(vals, env),
    ensures
        p.verdict(vals) matches Some(b) ==> p.holds(env) == b,
{
    if let PredicateOperand::Var(v) = p.lhs {
        assert(vals.dom().contains(v) ==> vals[v].0 <= env(v) <= vals[v].1);
    }
    if let PredicateOperand::Var(v) = p.rhs {
        assert(vals.dom().contains(v) ==> vals[v].0 <= env(v) <= vals[v].1);
    }
}

/// Negating a comparison twice gives it back; the negation holds exactly where the
/// comparison does not; and it is the same for the operator it comes from.
pub proof fn law_comparison_negation(op: CompOp, b: BinOp, x: int, y: int)
    ensures
        op.negated().negated() == op,
        op.negated().holds(x, y) <==> !op.holds(x, y),
        CompOp::of(b) matches Some(c) ==> CompOp::of(body_analysis::negated(b)) == Some(c.negated())
            && (c.holds(x, y) <==> body_analysis::holds(b, x, y)),
        CompOp::of(b) is Some <==> body_analysis::compares(b),
{
}

/// What is known of each predicate is true of the values.
pub open spec fn covers(
    preds: Seq<Predicate>,
    values: Seq<Option<bool>>,
    env: spec_fn(VarId) -> int,
) -> bool {
    forall|i: int|
        0 <= i < preds.len() && i < values.len() ==> (#[trigger] values[i] matches Some(b)
            ==> preds[i].holds(env) == b)
}

/// States that know less cover more, and the join covers what either state does.
pub proof fn law_states_form_a_lattice(
    preds: Seq<Predicate>,
    a: Seq<Option<bool>>,
    b: Seq<Option<bool>>,
    env: spec_fn(VarId) -> int,
)
    requires
        a.len() == b.len(),
    ensures
        knows_no_more(a, a),
        knows_no_more(common(a, b), a),
        knows_no_more(common(a, b), b),
        common(a, b) == common(b, a),
        common(a, a) == a,
        knows_no_more(a, b) && covers(preds, b, env) ==> covers(preds, a, env),
        covers(preds, a, env) || covers(preds, b, env) ==> covers(preds, common(a, b), env),
        forall|c: Seq<Option<bool>>|
            c.len() == a.len() && knows_no_more(c, a) && knows_no_more(c, b) ==> #[trigger] knows_no_more(
                c,
                common(a, b),
            ),
{
    assert(common(a, b) =~= common(b, a));
    assert(common(a, a) =~= a);
    if knows_no_more(a, b) && covers(preds, b, env) {
        assert forall|i: int| 0 <= i < preds.len() && i < a.len() implies (#[trigger] a[i] matches Some(
            t,
        ) ==> preds[i].holds(env) == t) by {
            assert(a[i] is Some ==> b[i] == a[i]);
        }
    }
    let c = common(a, b);
    if covers(preds, a, env) {
        assert forall|i: int| 0 <= i < preds.len() && i < c.len() implies (#[trigger] c[i] matches Some(
            t,
        ) ==> preds[i].holds(env) == t) by {
            assert(c[i] is Some ==> c[i] == a[i]);
        }
    }
    if covers(preds, b, env) {
        assert forall|i: int| 0 <= i < preds.len() && i < c.len() implies (#[trigger] c[i] matches Some(
            t,
        ) ==> preds[i].holds(env) == t) by {
            assert(c[i] is Some ==> c[i] == b[i]);
        }
    }
}

proof fn lemma_known_value(
    preds: Seq<Predicate>,
    values: Seq<Option<bool>>,
    v: VarId,
    i: nat,
    env: spec_fn(VarId) -> int,
)
    requires
        covers(preds, values, env),
    ensures
        known_value(preds, values, v, i) matches Some(c) ==> env(v) == c,
    decreases preds.len() - i,
{
    if i < preds.len() {
        if i < values.len() {
            assert(values[i as int] matches Some(b) ==> preds[i as int].holds(env) == b);
        }
        lemma_known_value(preds, values, v, i + 1, env);
    }
}

/// After an assignment of `n` to `v`, what is known of each predicate is true of
/// the new values. A constant that is assigned is `n` itself.
pub proof fn law_assignment_keeps_truth(
    preds: Seq<Predicate>,
    values: Seq<Option<bool>>,
    v: VarId,
    rv: Rvalue,
    env: spec_fn(VarId) -> int,
    n: int,
)
    requires
        covers(preds, values, env),
        rv matches Rvalue::Use(Operand::Const(Const::Int(c))) ==> n == c,
    ensures
        after_stmt(preds, values, Stmt::Assign(v, rv)) matches Some(r) && covers(
            preds,
            r,
            |w: VarId| if w == v {
                n
            } else {
                env(w)
            },
        ),
{
    let after = |w: VarId| if w == v {
        n
    } else {
        env(w)
    };
    let r = after_stmt(preds, values, Stmt::Assign(v, rv))->0;
    assert forall|i: int| 0 <= i < preds.len() && i < r.len() implies (#[trigger] r[i] matches Some(b)
        ==> preds[i].holds(after) == b) by {
        let p = preds[i];
        if p.names(v) {
            if let PredicateOperand::Var(x) = p.lhs {
                lemma_known_value(preds, values, x, 0, env);
            }
            if let PredicateOperand::Var(x) = p.rhs {
                lemma_known_value(preds, values, x, 0, env);
            }
        } else {
            assert(p.holds(after) == p.holds(env));
            if i < values.len() {
                assert(values[i] matches Some(b) ==> preds[i].holds(env) == b);
            }
        }
    }
}

/// On the side of a branch that values take, what is learned of the predicates is
/// true of them.
pub proof fn law_branch_learns_truth(
    preds: Seq<Predicate>,
    values: Seq<Option<bool>>,
    body: Body,
    block: int,
    taken: bool,
    env: spec_fn(VarId) -> int,
)
    requires
        covers(preds, values, env),
        body.blocks@[block].term matches Terminator::Branch { cond: Operand::Var(v), .. }
            ==> interval::decides(body, block, v, env, taken),
    ensures
        covers(preds, after_term(preds, values, body, block, Some(taken)), env),
{
    let r = after_term(preds, values, body, block, Some(taken));
    let all = padded(values, preds.len());
    assert forall|i: int| 0 <= i < preds.len() && i < r.len() implies (#[trigger] r[i] matches Some(b)
        ==> preds[i].holds(env) == b) by {
        if i < values.len() {
            assert(values[i] matches Some(b) ==> preds[i].holds(env) == b);
        }
        if let Some((op, a, b)) = branch_comparison(body, block, Some(taken)) {
            let x = interval::value_of(env, a)->0;
            let y = interval::value_of(env, b)->0;
            let blk = body.blocks@[block];
            let d = body_analysis::defining_bin(
                blk.stmts@,
                blk.term->cond->Var_0,
                blk.stmts@.len(),
            )->0;
            law_comparison_negation(op, d.0, x, y);
            assert(op.holds(x, y));
        }
    }
}

proof fn lemma_pieces_extend(s: Seq<char>, t: Seq<char>, cut: Cut)
    requires
        forall|i: int| 0 <= i < t.len() ==> !cut.at(#[trigger] t[i]),
        scan::pieces(s, cut).len() > 0,
    ensures
        scan::pieces(s + t, cut) == scan::pieces(s, cut).drop_last().push(
            scan::pieces(s, cut).last() + t,
        ),
    decreases t.len(),
{
    let p = scan::pieces(s, cut);
    if t.len() == 0 {
        assert(s + t =~= s);
        assert(p.last() + t =~= p.last());
        assert(p =~= p.drop_last().push(p.last()));
    } else {
        let u = t.drop_last();
        assert((s + t).drop_last() =~= s + u);
        assert forall|i: int| 0 <= i < u.len() implies !cut.at(#[trigger] u[i]) by {
            assert(u[i] == t[i]);
        }
        lemma_pieces_extend(s, u, cut);
        assert((s + t).last() == t.last());
        assert(!cut.at(t[t.len() - 1]));
        let q = scan::pieces(s + u, cut);
        assert(q.drop_last() =~= p.drop_last());
        assert(q.last().push(t.last()) =~= p.last() + t);
    }
}

proof fn lemma_pieces_cut(s: Seq<char>, c: char, cut: Cut)
    requires
        cut.at(c),
    ensures
        scan::pieces(s.push(c), cut) == scan::pieces(s, cut).push(Seq::empty()),
{
    assert(s.push(c).drop_last() =~= s);
}

/// A text without white space.
spec fn solid(s: Seq<char>) -> bool {
    forall|i: int| 0 <= i < s.len() ==> !scan::white(#[trigger] s[i])
}

proof fn lemma_three_words(a: Seq<char>, b: Seq<char>, c: Seq<char>)
    requires
        solid(a),
        solid(b),
        solid(c),
        a.len() > 0,
        b.len() > 0,
        c.len() > 0,
    ensures
        scan::words(a + " "@ + b + " "@ + c) == seq![a, b, c],
{
    reveal_strlit(" ");
    let cut = Cut::White;
    let none = Seq::<char>::empty();
    assert(scan::pieces(none, cut) =~= seq![none]);
    lemma_pieces_extend(none, a, cut);
    assert(none + a =~= a);
    assert(scan::pieces(a, cut) =~= seq![a]);
    lemma_pieces_cut(a, ' ', cut);
    let s1 = a + " "@;
    assert(s1 =~= a.push(' '));
    assert(scan::pieces(s1, cut) =~= seq![a, none]);
    lemma_pieces_extend(s1, b, cut);
    let s2 = s1 + b;
    assert(none + b =~= b);
    assert(scan::pieces(s2, cut) =~= seq![a, b]);
    lemma_pieces_cut(s2, ' ', cut);
    let s3 = s2 + " "@;
    assert(s3 =~= s2.push(' '));
    assert(scan::pieces(s3, cut) =~= seq![a, b, none]);
    lemma_pieces_extend(s3, c, cut);
    assert(none + c =~= c);
    let p = seq![a, b, c];
    assert(scan::pieces(s3 + c, cut) =~= p);
    assert(p.drop_last() =~= seq![a, b]);
    assert(seq![a, b].drop_last() =~= seq![a]);
    assert(seq![a].drop_last() =~= Seq::empty());
    reveal_with_fuel(scan::nonempty, 4);
    assert(scan::nonempty(p) =~= seq![a, b, c]);
}

proof fn lemma_dec_value(n: nat)
    ensures
        all_digits(text::dec(n)),
        digits_value(text::dec(n)) == n,
    decreases n,
{
    if n >= 10 {
        lemma_dec_value(n / 10);
        assert(text::dec(n).drop_last() =~= text::dec(n / 10));
        assert(text::dec(n).last() == text::digit(n % 10));
        assert((n / 10) * 10 + n % 10 == n);
    } else {
        assert(text::dec(n).drop_last() =~= Seq::empty());
        assert(text::dec(n).last() == text::digit(n));
        assert(digits_value(Seq::empty()) == 0);
    }
}

proof fn lemma_operand_text(o: PredicateOperand)
    requires
        o matches PredicateOperand::Const(c) ==> c >= 0,
    ensures
        solid(o.written()),
        o.written().len() > 0,
        parse_operand(o.written()) == Some(o),
{
    let s = o.written();
    match o {
        PredicateOperand::Var(v) => {
            reveal_strlit("v");
            lemma_dec_value(v.0 as nat);
            assert(s[0] == 'v');
            assert(s.skip(1) =~= text::dec(v.0 as nat));
            assert(scan::digit_char(text::dec(v.0 as nat)[0]));
            assert forall|i: int| 0 <= i < s.len() implies !scan::white(#[trigger] s[i]) by {
                if i > 0 {
                    assert(s[i] == text::dec(v.0 as nat)[i - 1]);
                }
            }
        },
        PredicateOperand::Const(c) => {
            lemma_dec_value(c as nat);
            assert(scan::digit_char(text::dec(c as nat)[0]));
        },
    }
}

proof fn lemma_symbol_text(op: CompOp)
    ensures
        solid(op.symbol()),
        op.symbol().len() > 0,
        parse_symbol(op.symbol()) == Some(op),
{
    reveal_strlit("<");
    reveal_strlit("<=");
    reveal_strlit(">");
    reveal_strlit(">=");
    reveal_strlit("=");
    reveal_strlit("distinct");
    assert("<"@.len() == 1 && "<="@.len() == 2 && ">"@.len() == 1 && ">="@.len() == 2);
    assert("<"@[0] == '<' && ">"@[0] == '>' && "="@[0] == '=');
    assert("<="@[0] == '<' && ">="@[0] == '>');
    assert("distinct"@.len() == 8 && "="@.len() == 1);
}

/// A predicate whose constants are not negative is read back as it was written.
pub proof fn law_predicates_are_read_back(p: Predicate)
    requires
        p.lhs matches PredicateOperand::Const(c) ==> c >= 0,
        p.rhs matches PredicateOperand::Const(c) ==> c >= 0,
    ensures
        parse_atom(p.written()) == Some(p),
{
    lemma_operand_text(p.lhs);
    lemma_operand_text(p.rhs);
    lemma_symbol_text(p.op);
    let (a, b, c) = (p.op.symbol(), p.lhs.written(), p.rhs.written());
    reveal_strlit("(");
    reveal_strlit(")");
    lemma_three_words(a, b, c);
    let s = p.written();
    assert(s[0] == '(' && s.last() == ')');
    assert(scan::trim_start(s) == s);
    assert(scan::trim_end(s) == s);
    assert(s.subrange(1, s.len() - 1) =~= a + " "@ + b + " "@ + c);
}

/// A written predicate is not taken apart.
proof fn lemma_alone(w: Seq<char>, inner: Seq<char>, op: CompOp)
    requires
        scan::trim(w) == w,
        w.len() >= 2,
        w[0] == '(',
        w.last() == ')',
        inner == w.subrange(1, w.len() - 1),
        interpolation::first_word(inner) == op.symbol(),
    ensures
        interpolation::atoms(w) == Some(seq![w]),
{
    reveal_strlit("true");
    reveal_strlit("false");
    reveal_strlit("and");
    reveal_strlit("or");
    reveal_strlit("not");
    reveal_strlit("distinct");
    assert("true"@[0] == 't' && "false"@[0] == 'f');
    assert(w != "true"@ && w != "false"@);
    if op == CompOp::Ne {
        assert("distinct"@[0] == 'd' && "and"@[0] == 'a' && "or"@[0] == 'o' && "not"@[0] == 'n');
    }
}

/// A predicate whose constants are not negative, written as an interpolant, is read back:
/// it is the one atom there and the one predicate.
pub proof fn law_written_predicates_are_interpolants(p: Predicate)
    requires
        p.lhs matches PredicateOperand::Const(c) ==> c >= 0,
        p.rhs matches PredicateOperand::Const(c) ==> c >= 0,
    ensures
        interpolation::atoms(p.written()) == Some(seq![p.written()]),
        parse_atoms(seq![p.written()], 1) == seq![p],
{
    let w = p.written();
    assert(parse_atoms(seq![w], 1) == seq![p]) by {
        law_predicates_are_read_back(p);
        reveal_with_fuel(parse_atoms, 2);
        assert(seq![w][0] == w);
        assert(parse_atoms(seq![w], 0) =~= Seq::empty());
        assert(parse_atoms(seq![w], 1) =~= seq![p]);
    }
    let (a, b, c) = (p.op.symbol(), p.lhs.written(), p.rhs.written());
    let inner = w.subrange(1, w.len() - 1);
    assert(w.len() >= 2 && w[0] == '(' && w.last() == ')') by {
        reveal_strlit("(");
        reveal_strlit(")");
    }
    assert(scan::trim(w) == w) by {
        assert(scan::trim_start(w) == w);
        assert(scan::trim_end(w) == w);
    }
    assert(interpolation::first_word(inner) == a) by {
        reveal_strlit("(");
        reveal_strlit(")");
        lemma_operand_text(p.lhs);
        lemma_operand_text(p.rhs);
        lemma_symbol_text(p.op);
        lemma_three_words(a, b, c);
        assert(inner =~= a + " "@ + b + " "@ + c);
    }
    lemma_alone(w, inner, p.op);
}

/// Every predicate of an interpolant whose constants are not negative, written as an
/// interpolant of its own, is read back: it is the one atom there and the one predicate.
pub proof fn law_interpolant_predicates_are_read_back(itp: Seq<char>, i: int)
    requires
        interpolation::atoms(itp) is Some,
        ({
            let all = interpolation::atoms(itp)->0;
            let ps = parse_atoms(all, all.len());
            &&& 0 <= i < ps.len()
            &&& ps[i].lhs matches PredicateOperand::Const(c) ==> c >= 0
            &&& ps[i].rhs matches PredicateOperand::Const(c) ==> c >= 0
        }),
    ensures
        ({
            let all = interpolation::atoms(itp)->0;
            let p = parse_atoms(all, all.len())[i];
            let w = p.written();
            &&& interpolation::atoms(w) == Some(seq![w])
            &&& parse_atoms(seq![w], 1) == seq![p]
        }),
{
    let all = interpolation::atoms(itp)->0;
    let p = parse_atoms(all, all.len())[i];
    law_written_predicates_are_interpolants(p);
}

} // verus!
