//! The paths of a body to an obligation, as constraints over the reals.

use vstd::prelude::*;

use super::encode;
use super::terms::{Real, RealOp, RealTerm, RealTerms};
use crate::ir;
use crate::ir::{Block, BlockId, Body, ObligationId, Operand, Stmt, Terminator};
use crate::text;

verus! {

/// How many blocks a path goes through after the first.
pub const MAX_NRA_DEPTH: usize = 50;

/// What is known on a path: the terms of the variables, and the constraints.
#[verifier::ext_equal]
pub struct Path {
    pub vars: Seq<Real>,
    pub conds: Seq<Real>,
}

/// A path, the number of symbols after it, and the constraints under which the
/// obligation fails on it.
#[verifier::ext_equal]
pub struct Walked {
    pub path: Path,
    pub symbols: nat,
    pub errors: Seq<Seq<Real>>,
}

/// The term is zero.
pub open spec fn is_zero(t: Real) -> Real {
    encode::of2(RealOp::Equal, t, Real::Number(0))
}

/// The term is not zero.
pub open spec fn not_zero(t: Real) -> Real {
    encode::of1(RealOp::Not, is_zero(t))
}

/// One statement.
pub open spec fn stepped(body: Body, oid: ObligationId, w: Walked, s: Stmt) -> Walked {
    match s {
        Stmt::Assign(v, rv) => {
            let (t, n) = encode::rvalue(w.path.vars, rv, w.symbols);
            Walked {
                path: Path { vars: w.path.vars.update(v.0 as int, t), ..w.path },
                symbols: n,
                ..w
            }
        },
        Stmt::Assume(o) => Walked {
            path: Path {
                conds: w.path.conds.push(not_zero(encode::operand(w.path.vars, o))),
                ..w.path
            },
            ..w
        },
        Stmt::Check(id) => if id == oid {
            let cond = encode::operand(w.path.vars, body.obligations@[id.0 as int].cond);
            Walked { errors: w.errors.push(w.path.conds.push(is_zero(cond))), ..w }
        } else {
            w
        },
        _ => w,
    }
}

/// The first `n` statements.
pub open spec fn walked(body: Body, oid: ObligationId, p: Path, symbols: nat, stmts: Seq<Stmt>, n: nat) -> Walked
    decreases n,
{
    if n == 0 {
        Walked { path: p, symbols, errors: Seq::empty() }
    } else {
        stepped(
            body,
            oid,
            walked(body, oid, p, symbols, stmts, (n - 1) as nat),
            stmts[n - 1],
        )
    }
}

/// With one more constraint.
pub open spec fn under(p: Path, c: Real) -> Path {
    Path { conds: p.conds.push(c), ..p }
}

/// The value is the key of the case.
pub open spec fn is_case(v: Real, k: i32) -> Real {
    encode::of2(RealOp::Equal, v, Real::Number(k as i64))
}

/// The constraints of the default: the value is the key of none of the first `n`
/// cases.
pub open spec fn no_case(conds: Seq<Real>, v: Real, cases: Seq<(i32, BlockId)>, n: nat) -> Seq<Real>
    decreases n,
{
    if n == 0 {
        conds
    } else {
        no_case(conds, v, cases, (n - 1) as nat).push(encode::of1(RealOp::Not, is_case(v, cases[n - 1].0)))
    }
}

/// How far a path can still go.
pub open spec fn left(depth: nat) -> nat {
    if depth <= MAX_NRA_DEPTH {
        (MAX_NRA_DEPTH + 1 - depth) as nat
    } else {
        0
    }
}

/// The failing paths through a block, and the number of symbols after them. A
/// path ends at the obligation; paths that are too long are left out.
pub open spec fn paths(
    body: Body,
    oid: ObligationId,
    block: BlockId,
    p: Path,
    symbols: nat,
    depth: nat,
) -> (Seq<Seq<Real>>, nat)
    decreases left(depth), 0nat,
{
    let b = body.blocks@[block.0 as int];
    let w = walked(body, oid, p, symbols, b.stmts@, b.stmts@.len());
    if depth > MAX_NRA_DEPTH {
        (Seq::empty(), symbols)
    } else if w.errors.len() > 0 {
        (w.errors, w.symbols)
    } else {
        match b.term {
            Terminator::Goto(t) => paths(body, oid, t, w.path, w.symbols, depth + 1),
            Terminator::Branch { cond, then_, else_ } => {
                let c = encode::operand(w.path.vars, cond);
                let (pe, n) = paths(
                    body,
                    oid,
                    else_,
                    under(w.path, is_zero(c)),
                    w.symbols,
                    depth + 1,
                );
                let (pt, m) = paths(
                    body,
                    oid,
                    then_,
                    under(w.path, not_zero(c)),
                    n,
                    depth + 1,
                );
                (pe + pt, m)
            },
            Terminator::Switch { value, cases, default } => {
                let v = encode::operand(w.path.vars, value);
                let (pd, n) = paths(
                    body,
                    oid,
                    default,
                    Path { conds: no_case(w.path.conds, v, cases@, cases@.len()), ..w.path },
                    w.symbols,
                    depth + 1,
                );
                let (pc, m) = case_paths(
                    body,
                    oid,
                    w.path,
                    v,
                    cases@,
                    cases@.len(),
                    n,
                    depth + 1,
                );
                (pd + pc, m)
            },
            _ => (Seq::empty(), w.symbols),
        }
    }
}

/// The failing paths through the first `k` cases of a switch, the last case
/// first.
pub open spec fn case_paths(
    body: Body,
    oid: ObligationId,
    p: Path,
    v: Real,
    cases: Seq<(i32, BlockId)>,
    k: nat,
    symbols: nat,
    depth: nat,
) -> (Seq<Seq<Real>>, nat)
    decreases left(depth), k,
{
    if k == 0 {
        (Seq::empty(), symbols)
    } else {
        let (key, t) = cases[k - 1];
        let (p1, n) = paths(body, oid, t, under(p, is_case(v, key)), symbols, depth);
        let (p2, m) = case_paths(body, oid, p, v, cases, (k - 1) as nat, n, depth);
        (p1 + p2, m)
    }
}

/// All constraints of a path.
pub open spec fn conjoined(conds: Seq<Real>) -> Real {
    if conds.len() == 0 {
        Real::App(RealOp::True, Seq::empty())
    } else if conds.len() == 1 {
        conds[0]
    } else {
        Real::App(RealOp::And, conds)
    }
}

/// Some failing path is taken.
pub open spec fn assertion(errors: Seq<Seq<Real>>) -> Real {
    let parts = errors.map_values(|c: Seq<Real>| conjoined(c));
    if parts.len() == 0 {
        Real::App(RealOp::False, Seq::empty())
    } else if parts.len() == 1 {
        parts[0]
    } else {
        Real::App(RealOp::Or, parts)
    }
}

/// A symbol for every variable.
pub open spec fn symbols_of(n: nat) -> Seq<Real> {
    Seq::new(n, |i: int| Real::Symbol("v"@ + text::dec(i as nat), i as nat))
}

/// The formula that holds where the obligation fails.
pub open spec fn formula(body: Body, oid: ObligationId) -> Real {
    let n = body.vars@.len();
    assertion(
        paths(
            body,
            oid,
            body.entry,
            Path { vars: symbols_of(n), conds: Seq::empty() },
            n,
            0,
        ).0,
    )
}

/// Calls have the arguments that are looked at.
pub open spec fn encodable(body: Body) -> bool {
    forall|i: int, j: int|
        0 <= i < body.blocks@.len() && 0 <= j < body.blocks@[i].stmts@.len() ==> (
        #[trigger] body.blocks@[i].stmts@[j] matches Stmt::Assign(_, rv) ==> encode::encodable(rv))
}

/// Every failing path keeps the constraints, and adds to them.
pub open spec fn all_keep(conds: Seq<Real>, errors: Seq<Seq<Real>>) -> bool {
    forall|i: int|
        0 <= i < errors.len() ==> conds.len() < (#[trigger] errors[i]).len() && errors[i].take(
            conds.len() as int,
        ) == conds
}

proof fn lemma_keep_shorter(short: Seq<Real>, long: Seq<Real>, errors: Seq<Seq<Real>>)
    requires
        short.len() <= long.len(),
        long.take(short.len() as int) == short,
        all_keep(long, errors),
    ensures
        all_keep(short, errors),
{
    assert forall|i: int| 0 <= i < errors.len() implies short.len() < (#[trigger] errors[i]).len()
        && errors[i].take(short.len() as int) == short by {
        assert(errors[i].take(long.len() as int) == long);
        assert(errors[i].take(short.len() as int) =~= long.take(short.len() as int));
    }
}

proof fn lemma_walked_keeps(body: Body, oid: ObligationId, p: Path, symbols: nat, stmts: Seq<Stmt>, n: nat)
    ensures
        ({
            let w = walked(body, oid, p, symbols, stmts, n);
            &&& p.conds.len() <= w.path.conds.len()
            &&& w.path.conds.take(p.conds.len() as int) == p.conds
            &&& all_keep(p.conds, w.errors)
        }),
    decreases n,
{
    if n > 0 {
        lemma_walked_keeps(body, oid, p, symbols, stmts, (n - 1) as nat);
        let w = walked(body, oid, p, symbols, stmts, (n - 1) as nat);
        let k = p.conds.len() as int;
        match stmts[n - 1] {
            Stmt::Assume(o) => {
                let c = not_zero(encode::operand(w.path.vars, o));
                assert(w.path.conds.push(c).take(k) =~= w.path.conds.take(k));
            },
            Stmt::Check(id) => {
                if id == oid {
                    let cond = encode::operand(w.path.vars, body.obligations@[id.0 as int].cond);
                    assert(w.path.conds.push(is_zero(cond)).take(k) =~= w.path.conds.take(k));
                }
            },
            _ => {},
        }
    } else {
        assert(p.conds.take(p.conds.len() as int) =~= p.conds);
    }
}

proof fn lemma_no_case_keeps(conds: Seq<Real>, v: Real, cases: Seq<(i32, BlockId)>, n: nat)
    ensures
        conds.len() <= no_case(conds, v, cases, n).len(),
        no_case(conds, v, cases, n).take(conds.len() as int) == conds,
    decreases n,
{
    if n > 0 {
        lemma_no_case_keeps(conds, v, cases, (n - 1) as nat);
        let had = no_case(conds, v, cases, (n - 1) as nat);
        assert(no_case(conds, v, cases, n).take(conds.len() as int) =~= had.take(
            conds.len() as int,
        ));
    } else {
        assert(conds.take(conds.len() as int) =~= conds);
    }
}

/// A failing path through a block has all the constraints under which the block
/// is entered, and at least one more: that the obligation fails.
pub proof fn law_failing_paths_keep_their_constraints(
    body: Body,
    oid: ObligationId,
    block: BlockId,
    p: Path,
    symbols: nat,
    depth: nat,
)
    ensures
        all_keep(p.conds, paths(body, oid, block, p, symbols, depth).0),
    decreases left(depth), 0nat,
{
    let b = body.blocks@[block.0 as int];
    let w = walked(body, oid, p, symbols, b.stmts@, b.stmts@.len());
    lemma_walked_keeps(body, oid, p, symbols, b.stmts@, b.stmts@.len());
    if depth <= MAX_NRA_DEPTH && w.errors.len() == 0 {
        match b.term {
            Terminator::Goto(t) => {
                law_failing_paths_keep_their_constraints(
                    body,
                    oid,
                    t,
                    w.path,
                    w.symbols,
                    depth + 1,
                );
                lemma_keep_shorter(
                    p.conds,
                    w.path.conds,
                    paths(body, oid, t, w.path, w.symbols, depth + 1).0,
                );
            },
            Terminator::Branch { cond, then_, else_ } => {
                let c = encode::operand(w.path.vars, cond);
                let qe = under(w.path, is_zero(c));
                let qt = under(w.path, not_zero(c));
                let (pe, n) = paths(body, oid, else_, qe, w.symbols, depth + 1);
                let (pt, _) = paths(body, oid, then_, qt, n, depth + 1);
                law_failing_paths_keep_their_constraints(body, oid, else_, qe, w.symbols, depth + 1);
                law_failing_paths_keep_their_constraints(body, oid, then_, qt, n, depth + 1);
                let k = p.conds.len() as int;
                assert(qe.conds.take(k) =~= w.path.conds.take(k));
                assert(qt.conds.take(k) =~= w.path.conds.take(k));
                lemma_keep_shorter(p.conds, qe.conds, pe);
                lemma_keep_shorter(p.conds, qt.conds, pt);
            },
            Terminator::Switch { value, cases, default } => {
                let v = encode::operand(w.path.vars, value);
                let q = Path { conds: no_case(w.path.conds, v, cases@, cases@.len()), ..w.path };
                let (pd, n) = paths(body, oid, default, q, w.symbols, depth + 1);
                lemma_no_case_keeps(w.path.conds, v, cases@, cases@.len());
                law_failing_paths_keep_their_constraints(
                    body,
                    oid,
                    default,
                    q,
                    w.symbols,
                    depth + 1,
                );
                let k = p.conds.len() as int;
                assert(q.conds.take(k) =~= q.conds.take(w.path.conds.len() as int).take(k));
                lemma_keep_shorter(p.conds, q.conds, pd);
                lemma_cases_keep(body, oid, w.path, v, cases@, cases@.len(), n, depth + 1);
                lemma_keep_shorter(
                    p.conds,
                    w.path.conds,
                    case_paths(body, oid, w.path, v, cases@, cases@.len(), n, depth + 1).0,
                );
            },
            _ => {},
        }
    }
}

proof fn lemma_cases_keep(
    body: Body,
    oid: ObligationId,
    p: Path,
    v: Real,
    cases: Seq<(i32, BlockId)>,
    k: nat,
    symbols: nat,
    depth: nat,
)
    ensures
        all_keep(p.conds, case_paths(body, oid, p, v, cases, k, symbols, depth).0),
    decreases left(depth), k,
{
    if k > 0 {
        let (key, t) = cases[k - 1];
        let q = under(p, is_case(v, key));
        let (p1, n) = paths(body, oid, t, q, symbols, depth);
        law_failing_paths_keep_their_constraints(body, oid, t, q, symbols, depth);
        assert(q.conds.take(p.conds.len() as int) =~= p.conds);
        lemma_keep_shorter(p.conds, q.conds, p1);
        lemma_cases_keep(body, oid, p, v, cases, (k - 1) as nat, n, depth);
    }
}

/// What is known on a path.
pub struct PathTerms {
    pub vars: Vec<RealTerm>,
    pub conds: Vec<RealTerm>,
}

impl PathTerms {
    /// The handles are of the store.
    pub open spec fn of(self, ts: RealTerms) -> bool {
        ts.has_all(self.vars@) && ts.has_all(self.conds@)
    }

    /// The path that the handles stand for.
    pub open spec fn path(self, ts: RealTerms) -> Path {
        Path { vars: ts.all(self.vars@), conds: ts.all(self.conds@) }
    }

    proof fn lemma_kept(self, old: RealTerms, ts: RealTerms)
        requires
            old.well_formed(),
            ts.extends(old),
            self.of(old),
        ensures
            self.of(ts),
            self.path(ts) == self.path(old),
    {
        ts.lemma_kept(old, self.vars@);
        ts.lemma_kept(old, self.conds@);
    }

    /// With one more constraint.
    fn with(&self, c: RealTerm, Ghost(ts): Ghost<RealTerms>) -> (r: PathTerms)
        requires
            self.of(ts),
            ts.has(c),
        ensures
            r.of(ts),
            r.path(ts) == under(self.path(ts), ts.tree(c)),
            r.vars@.len() == self.vars@.len(),
    {
        let vars = copy(&self.vars);
        let mut conds = copy(&self.conds);
        conds.push(c);
        proof {
            assert(ts.all(conds@) =~= ts.all(self.conds@).push(ts.tree(c)));
        }
        PathTerms { vars, conds }
    }
}

/// A copy of handles.
pub fn copy(v: &Vec<RealTerm>) -> (r: Vec<RealTerm>)
    ensures
        r@ == v@,
{
    let mut r: Vec<RealTerm> = Vec::new();
    let mut i: usize = 0;
    while i < v.len()
        invariant
            i <= v@.len(),
            r@ =~= v@.take(i as int),
        decreases v@.len() - i,
    {
        r.push(v[i]);
        i += 1;
    }
    r
}

/// The constraints of failing paths.
pub open spec fn error_trees(ts: RealTerms, errors: Seq<Vec<RealTerm>>) -> Seq<Seq<Real>> {
    errors.map_values(|e: Vec<RealTerm>| ts.all(e@))
}

/// The handles are of the store.
pub open spec fn errors_in(ts: RealTerms, errors: Seq<Vec<RealTerm>>) -> bool {
    forall|i: int| 0 <= i < errors.len() ==> ts.has_all((#[trigger] errors[i])@)
}

proof fn lemma_errors_kept(old: RealTerms, ts: RealTerms, errors: Seq<Vec<RealTerm>>)
    requires
        old.well_formed(),
        ts.extends(old),
        errors_in(old, errors),
    ensures
        errors_in(ts, errors),
        error_trees(ts, errors) == error_trees(old, errors),
{
    assert forall|i: int| 0 <= i < errors.len() implies ts.has_all((#[trigger] errors[i])@)
        && error_trees(ts, errors)[i] == error_trees(old, errors)[i] by {
        ts.lemma_kept(old, errors[i]@);
    }
    assert(error_trees(ts, errors) =~= error_trees(old, errors));
}

fn append(a: &mut Vec<Vec<RealTerm>>, b: Vec<Vec<RealTerm>>, Ghost(ts): Ghost<RealTerms>)
    requires
        errors_in(ts, old(a)@),
        errors_in(ts, b@),
    ensures
        errors_in(ts, final(a)@),
        error_trees(ts, final(a)@) == error_trees(ts, old(a)@) + error_trees(ts, b@),
{
    let mut b = b;
    let ghost x = a@;
    let ghost y = b@;
    a.append(&mut b);
    proof {
        assert(error_trees(ts, a@) =~= error_trees(ts, x) + error_trees(ts, y));
        assert forall|i: int| 0 <= i < a@.len() implies ts.has_all((#[trigger] a@[i])@) by {
            if i < x.len() {
                assert(a@[i] == x[i]);
            } else {
                assert(a@[i] == y[i - x.len()]);
            }
        }
    }
}

impl RealTerms {
    fn zero_test(&mut self, t: RealTerm) -> (r: RealTerm)
        requires
            old(self).well_formed(),
            old(self).has(t),
        ensures
            final(self).extends(*old(self)),
            final(self).symbols == old(self).symbols,
            final(self).has(r),
            final(self).tree(r) == is_zero(old(self).tree(t)),
    {
        let zero = self.number(0);
        self.app2(RealOp::Equal, t, zero)
    }

    fn nonzero_test(&mut self, t: RealTerm) -> (r: RealTerm)
        requires
            old(self).well_formed(),
            old(self).has(t),
        ensures
            final(self).extends(*old(self)),
            final(self).symbols == old(self).symbols,
            final(self).has(r),
            final(self).tree(r) == not_zero(old(self).tree(t)),
    {
        let e = self.zero_test(t);
        self.app1(RealOp::Not, e)
    }

    fn case_test(&mut self, v: RealTerm, k: i32) -> (r: RealTerm)
        requires
            old(self).well_formed(),
            old(self).has(v),
        ensures
            final(self).extends(*old(self)),
            final(self).symbols == old(self).symbols,
            final(self).has(r),
            final(self).tree(r) == is_case(old(self).tree(v), k),
    {
        let n = self.number(k as i64);
        self.app2(RealOp::Equal, v, n)
    }

    /// One statement.
    fn step_stmt(
        &mut self,
        body: &Body,
        oid: ObligationId,
        p: &mut PathTerms,
        errors: &mut Vec<Vec<RealTerm>>,
        s: &Stmt,
    )
        requires
            old(self).well_formed(),
            body.well_formed(),
            old(p).of(*old(self)),
            old(p).vars@.len() == body.vars@.len(),
            errors_in(*old(self), old(errors)@),
            ir::stmt_in_range(*s, body.vars@.len(), body.obligations@.len()),
            *s matches Stmt::Assign(_, rv) ==> encode::encodable(rv),
        ensures
            final(self).extends(*old(self)),
            final(p).of(*final(self)),
            final(p).vars@.len() == old(p).vars@.len(),
            errors_in(*final(self), final(errors)@),
            (Walked {
                path: final(p).path(*final(self)),
                symbols: final(self).symbols as nat,
                errors: error_trees(*final(self), final(errors)@),
            }) == stepped(
                *body,
                oid,
                (Walked {
                    path: old(p).path(*old(self)),
                    symbols: old(self).symbols as nat,
                    errors: error_trees(*old(self), old(errors)@),
                }),
                *s,
            ),
    {
        let ghost p0 = *p;
        let ghost e0 = errors@;
        match s {
            Stmt::Assign(v, rv) => {
                let t = self.encode_rvalue(rv, &p.vars);
                proof {
                    p0.lemma_kept(*old(self), *self);
                    lemma_errors_kept(*old(self), *self, e0);
                }
                p.vars.set(v.0 as usize, t);
                proof {
                    assert(self.all(p.vars@) =~= self.all(p0.vars@).update(
                        v.0 as int,
                        self.tree(t),
                    ));
                    assert forall|i: int| 0 <= i < p.vars@.len() implies self.has(
                        #[trigger] p.vars@[i],
                    ) by {
                        if i != v.0 {
                            assert(self.has(p0.vars@[i]));
                        }
                    }
                }
            },
            Stmt::Assume(o) => {
                let x = self.encode_operand(o, &p.vars);
                let c = self.nonzero_test(x);
                proof {
                    p0.lemma_kept(*old(self), *self);
                    lemma_errors_kept(*old(self), *self, e0);
                }
                p.conds.push(c);
                proof {
                    assert(self.all(p.conds@) =~= self.all(p0.conds@).push(self.tree(c)));
                    assert forall|i: int| 0 <= i < p.conds@.len() implies self.has(
                        #[trigger] p.conds@[i],
                    ) by {
                        if i < p0.conds@.len() {
                            assert(self.has(p0.conds@[i]));
                        }
                    }
                }
            },
            Stmt::Check(id) => {
                if *id == oid {
                    let x = self.encode_operand(&body.obligation(*id).cond, &p.vars);
                    let c = self.zero_test(x);
                    proof {
                        p0.lemma_kept(*old(self), *self);
                        lemma_errors_kept(*old(self), *self, e0);
                    }
                    let mut conds = copy(&p.conds);
                    conds.push(c);
                    proof {
                        assert(self.all(conds@) =~= self.all(p0.conds@).push(self.tree(c)));
                        assert forall|i: int| 0 <= i < conds@.len() implies self.has(
                            #[trigger] conds@[i],
                        ) by {
                            if i < p0.conds@.len() {
                                assert(self.has(p0.conds@[i]));
                            }
                        }
                    }
                    let ghost cs = conds@;
                    errors.push(conds);
                    proof {
                        assert(error_trees(*self, errors@) =~= error_trees(*self, e0).push(
                            self.all(cs),
                        ));
                    }
                }
            },
            _ => {},
        }
    }

    /// The statements of a block.
    fn walk(&mut self, body: &Body, oid: ObligationId, b: &Block, p: &mut PathTerms) -> (errors: Vec<
        Vec<RealTerm>,
    >)
        requires
            old(self).well_formed(),
            body.well_formed(),
            encodable(*body),
            body.blocks@.contains(*b),
            old(p).of(*old(self)),
            old(p).vars@.len() == body.vars@.len(),
        ensures
            final(self).extends(*old(self)),
            final(p).of(*final(self)),
            final(p).vars@.len() == old(p).vars@.len(),
            errors_in(*final(self), errors@),
            (Walked {
                path: final(p).path(*final(self)),
                symbols: final(self).symbols as nat,
                errors: error_trees(*final(self), errors@),
            }) == walked(
                *body,
                oid,
                old(p).path(*old(self)),
                old(self).symbols as nat,
                b.stmts@,
                b.stmts@.len(),
            ),
    {
        let mut errors: Vec<Vec<RealTerm>> = Vec::new();
        let ghost k = choose|k: int| 0 <= k < body.blocks@.len() && body.blocks@[k] == *b;
        proof {
            assert(error_trees(*self, errors@) =~= Seq::empty());
            assert(body.blocks@[k].in_range(
                body.blocks@.len(),
                body.vars@.len(),
                body.obligations@.len(),
            ));
        }
        let ghost p0 = p.path(*self);
        let ghost n0 = self.symbols as nat;
        let mut i: usize = 0;
        while i < b.stmts.len()
            invariant
                i <= b.stmts@.len(),
                old(self).well_formed(),
                self.extends(*old(self)),
                body.well_formed(),
                encodable(*body),
                0 <= k < body.blocks@.len(),
                body.blocks@[k] == *b,
                b.in_range(body.blocks@.len(), body.vars@.len(), body.obligations@.len()),
                p.of(*self),
                p.vars@.len() == body.vars@.len(),
                errors_in(*self, errors@),
                (Walked {
                    path: p.path(*self),
                    symbols: self.symbols as nat,
                    errors: error_trees(*self, errors@),
                }) == walked(*body, oid, p0, n0, b.stmts@, i as nat),
            decreases b.stmts@.len() - i,
        {
            proof {
                assert(ir::stmt_in_range(
                    b.stmts@[i as int],
                    body.vars@.len(),
                    body.obligations@.len(),
                ));
                assert(body.blocks@[k].stmts@[i as int] == b.stmts@[i as int]);
            }
            self.step_stmt(body, oid, p, &mut errors, &b.stmts[i]);
            i += 1;
        }
        errors
    }

    /// The constraints of the default of a switch.
    fn default_path(&mut self, p: &PathTerms, v: RealTerm, cases: &Vec<(i32, BlockId)>) -> (r: PathTerms)
        requires
            old(self).well_formed(),
            p.of(*old(self)),
            old(self).has(v),
        ensures
            final(self).extends(*old(self)),
            final(self).symbols == old(self).symbols,
            r.of(*final(self)),
            r.vars@.len() == p.vars@.len(),
            r.path(*final(self)) == (Path {
                conds: no_case(
                    p.path(*old(self)).conds,
                    old(self).tree(v),
                    cases@,
                    cases@.len(),
                ),
                ..p.path(*old(self))
            }),
    {
        let vars = copy(&p.vars);
        let mut conds = copy(&p.conds);
        let ghost first = self.all(p.conds@);
        let mut i: usize = 0;
        while i < cases.len()
            invariant
                i <= cases@.len(),
                old(self).well_formed(),
                self.extends(*old(self)),
                self.symbols == old(self).symbols,
                old(self).has(v),
                self.has_all(conds@),
                self.all(conds@) == no_case(first, old(self).tree(v), cases@, i as nat),
            decreases cases@.len() - i,
        {
            let ghost mid = *self;
            let e = self.case_test(v, cases[i].0);
            let c = self.app1(RealOp::Not, e);
            let ghost had = conds@;
            proof {
                self.lemma_kept(mid, had);
            }
            conds.push(c);
            proof {
                assert(self.all(conds@) =~= self.all(had).push(self.tree(c)));
                assert forall|k: int| 0 <= k < conds@.len() implies self.has(
                    #[trigger] conds@[k],
                ) by {
                    if k < had.len() {
                        assert(self.has(had[k]));
                    }
                }
            }
            i += 1;
        }
        proof {
            self.lemma_kept(*old(self), vars@);
        }
        PathTerms { vars, conds }
    }

    /// The failing paths through a block.
    pub fn explore(&mut self, body: &Body, oid: ObligationId, block: BlockId, p: PathTerms, depth: usize) -> (
        errors: Vec<Vec<RealTerm>>)
        requires
            old(self).well_formed(),
            body.well_formed(),
            encodable(*body),
            block.0 < body.blocks@.len(),
            p.of(*old(self)),
            p.vars@.len() == body.vars@.len(),
            depth <= MAX_NRA_DEPTH + 1,
        ensures
            final(self).extends(*old(self)),
            errors_in(*final(self), errors@),
            (error_trees(*final(self), errors@), final(self).symbols as nat) == paths(
                *body,
                oid,
                block,
                p.path(*old(self)),
                old(self).symbols as nat,
                depth as nat,
            ),
        decreases left(depth as nat), 1nat,
    {
        let none: Vec<Vec<RealTerm>> = Vec::new();
        proof {
            assert(error_trees(*self, none@) =~= Seq::empty());
        }
        if depth > MAX_NRA_DEPTH {
            return none;
        }
        let b = body.block(block);
        proof {
            assert(body.blocks@[block.0 as int] == *b);
            assert(body.blocks@.contains(*b));
            assert(body.blocks@[block.0 as int].in_range(
                body.blocks@.len(),
                body.vars@.len(),
                body.obligations@.len(),
            ));
        }
        let mut p = p;
        let errors = self.walk(body, oid, b, &mut p);
        if errors.len() > 0 {
            return errors;
        }
        let ghost ts = ir::term_targets(b.term);
        match &b.term {
            Terminator::Goto(t) => {
                proof {
                    assert(ts[0] == *t);
                }
                self.explore(body, oid, *t, p, depth + 1)
            },
            Terminator::Branch { cond, then_, else_ } => {
                proof {
                    assert(ts[0] == *then_ && ts[1] == *else_);
                }
                self.explore_branch(body, oid, cond, *then_, *else_, p, depth)
            },
            Terminator::Switch { value, cases, default } => {
                proof {
                    assert(ts[cases@.len() as int] == *default);
                    assert forall|i: int| 0 <= i < cases@.len() implies (#[trigger] cases@[i]).1.0
                        < body.blocks@.len() by {
                        assert(ts[i] == cases@[i].1);
                    }
                }
                self.explore_switch(body, oid, value, cases, *default, p, depth)
            },
            _ => {
                proof {
                    assert(error_trees(*self, none@) =~= Seq::empty());
                }
                none
            },
        }
    }

    /// The failing paths through both sides of a branch.
    fn explore_branch(
        &mut self,
        body: &Body,
        oid: ObligationId,
        cond: &Operand,
        then_: BlockId,
        else_: BlockId,
        p: PathTerms,
        depth: usize,
    ) -> (errors: Vec<Vec<RealTerm>>)
        requires
            old(self).well_formed(),
            body.well_formed(),
            encodable(*body),
            then_.0 < body.blocks@.len(),
            else_.0 < body.blocks@.len(),
            cond.in_range(body.vars@.len()),
            p.of(*old(self)),
            p.vars@.len() == body.vars@.len(),
            depth <= MAX_NRA_DEPTH,
        ensures
            final(self).extends(*old(self)),
            errors_in(*final(self), errors@),
            ({
                let w = p.path(*old(self));
                let c = encode::operand(w.vars, *cond);
                let (pe, n) = paths(
                    *body,
                    oid,
                    else_,
                    under(w, is_zero(c)),
                    old(self).symbols as nat,
                    (depth + 1) as nat,
                );
                let (pt, m) = paths(
                    *body,
                    oid,
                    then_,
                    under(w, not_zero(c)),
                    n,
                    (depth + 1) as nat,
                );
                error_trees(*final(self), errors@) == pe + pt && final(self).symbols == m
            }),
        decreases left(depth as nat), 0nat,
    {
        let c = self.encode_operand(cond, &p.vars);
        let zero = self.zero_test(c);
        let nonzero = self.nonzero_test(c);
        let ghost mid = *self;
        proof {
            p.lemma_kept(*old(self), mid);
        }
        let p_else = p.with(zero, Ghost(mid));
        let p_then = p.with(nonzero, Ghost(mid));
        let mut errors = self.explore(body, oid, else_, p_else, depth + 1);
        let ghost after = *self;
        proof {
            p_then.lemma_kept(mid, after);
        }
        let more = self.explore(body, oid, then_, p_then, depth + 1);
        proof {
            lemma_errors_kept(after, *self, errors@);
        }
        append(&mut errors, more, Ghost(*self));
        errors
    }

    /// The failing paths through the sides of a switch.
    fn explore_switch(
        &mut self,
        body: &Body,
        oid: ObligationId,
        value: &Operand,
        cases: &Vec<(i32, BlockId)>,
        default: BlockId,
        p: PathTerms,
        depth: usize,
    ) -> (errors: Vec<Vec<RealTerm>>)
        requires
            old(self).well_formed(),
            body.well_formed(),
            encodable(*body),
            default.0 < body.blocks@.len(),
            forall|i: int|
                0 <= i < cases@.len() ==> (#[trigger] cases@[i]).1.0 < body.blocks@.len(),
            value.in_range(body.vars@.len()),
            p.of(*old(self)),
            p.vars@.len() == body.vars@.len(),
            depth <= MAX_NRA_DEPTH,
        ensures
            final(self).extends(*old(self)),
            errors_in(*final(self), errors@),
            ({
                let w = p.path(*old(self));
                let v = encode::operand(w.vars, *value);
                let (pd, n) = paths(
                    *body,
                    oid,
                    default,
                    (Path { conds: no_case(w.conds, v, cases@, cases@.len()), ..w }),
                    old(self).symbols as nat,
                    (depth + 1) as nat,
                );
                let (pc, m) = case_paths(
                    *body,
                    oid,
                    w,
                    v,
                    cases@,
                    cases@.len(),
                    n,
                    (depth + 1) as nat,
                );
                error_trees(*final(self), errors@) == pd + pc && final(self).symbols == m
            }),
        decreases left(depth as nat), 0nat,
    {
        let ghost w = p.path(*self);
        let v = self.encode_operand(value, &p.vars);
        let ghost vt = self.tree(v);
        proof {
            p.lemma_kept(*old(self), *self);
        }
        let p_default = self.default_path(&p, v, cases);
        proof {
            p.lemma_kept(*old(self), *self);
        }
        let ghost mid = *self;
        let mut errors = self.explore(body, oid, default, p_default, depth + 1);
        let ghost pd = error_trees(*self, errors@);
        let ghost n1 = self.symbols as nat;
        proof {
            p.lemma_kept(mid, *self);
        }
        let ghost whole = case_paths(
            *body,
            oid,
            w,
            vt,
            cases@,
            cases@.len(),
            n1,
            (depth + 1) as nat,
        );
        let mut k: usize = cases.len();
        proof {
            let rest = case_paths(*body, oid, w, vt, cases@, k as nat, n1, (depth + 1) as nat);
            assert(pd + whole.0 =~= error_trees(*self, errors@) + rest.0);
        }
        while k > 0
            invariant
                k <= cases@.len(),
                depth <= MAX_NRA_DEPTH,
                old(self).well_formed(),
                body.well_formed(),
                encodable(*body),
                forall|i: int|
                    0 <= i < cases@.len() ==> (#[trigger] cases@[i]).1.0 < body.blocks@.len(),
                self.extends(*old(self)),
                self.has(v),
                self.tree(v) == vt,
                p.of(*self),
                p.path(*self) == w,
                p.vars@.len() == body.vars@.len(),
                errors_in(*self, errors@),
                ({
                    let rest = case_paths(
                        *body,
                        oid,
                        w,
                        vt,
                        cases@,
                        k as nat,
                        self.symbols as nat,
                        (depth + 1) as nat,
                    );
                    pd + whole.0 == error_trees(*self, errors@) + rest.0 && whole.1 == rest.1
                }),
            decreases k,
        {
            let ghost m0 = *self;
            let ghost rest = case_paths(
                *body,
                oid,
                w,
                vt,
                cases@,
                k as nat,
                self.symbols as nat,
                (depth + 1) as nat,
            );
            let (key, t) = cases[k - 1];
            proof {
                assert(cases@[k - 1].1.0 < body.blocks@.len());
            }
            let c = self.case_test(v, key);
            proof {
                p.lemma_kept(m0, *self);
                lemma_errors_kept(m0, *self, errors@);
            }
            let ghost m1 = *self;
            let p_case = p.with(c, Ghost(m1));
            let more = self.explore(body, oid, t, p_case, depth + 1);
            proof {
                p.lemma_kept(m1, *self);
                lemma_errors_kept(m1, *self, errors@);
            }
            let ghost had = error_trees(*self, errors@);
            let ghost new = error_trees(*self, more@);
            append(&mut errors, more, Ghost(*self));
            proof {
                let next = case_paths(
                    *body,
                    oid,
                    w,
                    vt,
                    cases@,
                    (k - 1) as nat,
                    self.symbols as nat,
                    (depth + 1) as nat,
                );
                assert(rest.0 == new + next.0);
                assert(had + (new + next.0) =~= (had + new) + next.0);
            }
            k -= 1;
        }
        proof {
            assert(pd + whole.0 =~= error_trees(*self, errors@));
        }
        errors
    }
}

} // verus!
