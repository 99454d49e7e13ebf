//! The engine: what is asked of the solver, and what its answers mean.

use vstd::prelude::*;

use super::paths;
use super::paths::PathTerms;
use super::terms::{Real, RealOp, RealTerm, RealTerms};
use crate::body_shape;
use crate::body_shape::analyze;
use crate::engine::{Direction, EngineId, ObligationRef};
use crate::ir::{Body, ObligationId, Ty, VarInfo, VarKind};
use crate::models::Models;
use crate::program::Program;
use crate::text::numbered;
use crate::verdict;
use crate::verdict::{NondetEntry, NondetEntryV, NondetValue, NondetValueV, Witness};

verus! {

/// The number of variables, from `i` on, before the first that is no local.
pub open spec fn params_from(vars: Seq<VarInfo>, i: nat) -> nat
    decreases vars.len() - i,
{
    if i >= vars.len() || !(vars[i as int].kind is Local) {
        i
    } else {
        params_from(vars, i + 1)
    }
}

/// A question to the solver: is the formula satisfiable, and with what values of
/// the parameters?
pub struct NraQuery {
    pub terms: RealTerms,
    pub formula: RealTerm,
    pub params: Vec<RealTerm>,
}

impl RealTerms {
    fn conjoin(&mut self, conds: Vec<RealTerm>) -> (r: RealTerm)
        requires
            old(self).well_formed(),
            old(self).has_all(conds@),
        ensures
            final(self).extends(*old(self)),
            final(self).has(r),
            final(self).tree(r) == paths::conjoined(old(self).all(conds@)),
    {
        if conds.len() == 0 {
            self.app0(RealOp::True)
        } else if conds.len() == 1 {
            proof {
                assert(self.has(conds@[0]));
            }
            conds[0]
        } else {
            self.app(RealOp::And, conds)
        }
    }

    fn disjoin(&mut self, errors: Vec<Vec<RealTerm>>) -> (r: RealTerm)
        requires
            old(self).well_formed(),
            paths::errors_in(*old(self), errors@),
        ensures
            final(self).extends(*old(self)),
            final(self).has(r),
            final(self).tree(r) == paths::assertion(paths::error_trees(*old(self), errors@)),
    {
        let ghost es = paths::error_trees(*self, errors@);
        let ghost parts_v = es.map_values(|c: Seq<Real>| paths::conjoined(c));
        let mut parts: Vec<RealTerm> = Vec::new();
        let mut i: usize = 0;
        proof {
            assert(self.all(parts@) =~= parts_v.take(0));
        }
        while i < errors.len()
            invariant
                i <= errors@.len(),
                old(self).well_formed(),
                self.extends(*old(self)),
                paths::errors_in(*old(self), errors@),
                es == paths::error_trees(*old(self), errors@),
                parts_v == es.map_values(|c: Seq<Real>| paths::conjoined(c)),
                self.has_all(parts@),
                self.all(parts@) == parts_v.take(i as int),
            decreases errors@.len() - i,
        {
            let ghost mid = *self;
            proof {
                self.lemma_kept(*old(self), errors@[i as int]@);
                assert(es[i as int] == old(self).all(errors@[i as int]@));
            }
            let conds = paths::copy(&errors[i]);
            let c = self.conjoin(conds);
            let ghost had = parts@;
            proof {
                self.lemma_kept(mid, had);
            }
            parts.push(c);
            proof {
                assert(parts_v.take(i + 1) =~= parts_v.take(i as int).push(parts_v[i as int]));
                assert(self.all(parts@) =~= self.all(had).push(self.tree(c)));
                assert forall|k: int| 0 <= k < parts@.len() implies self.has(
                    #[trigger] parts@[k],
                ) by {
                    if k < had.len() {
                        assert(self.has(had[k]));
                    }
                }
            }
            i += 1;
        }
        proof {
            assert(parts_v.take(i as int) =~= parts_v);
        }
        if parts.len() == 0 {
            self.app0(RealOp::False)
        } else if parts.len() == 1 {
            proof {
                assert(self.has(parts@[0]));
                assert(self.all(parts@)[0] == self.tree(parts@[0]));
            }
            parts[0]
        } else {
            self.app(RealOp::Or, parts)
        }
    }
}

/// Encode the obligation: the formula is satisfiable over the reals if and only
/// if some path on which it fails is.
pub fn encode_nra(body: &Body, oid: ObligationId) -> (q: NraQuery)
    requires
        body.well_formed(),
        paths::encodable(*body),
    ensures
        q.terms.well_formed(),
        q.terms.has(q.formula),
        q.terms.tree(q.formula) == paths::formula(*body, oid),
        q.terms.has_all(q.params@),
        q.terms.all(q.params@) == paths::symbols_of(body.vars@.len()).take(
            params_from(body.vars@, 0) as int,
        ),
{
    let mut ts = RealTerms::new();
    let mut vars: Vec<RealTerm> = Vec::new();
    let n = body.vars.len();
    let ghost syms = paths::symbols_of(n as nat);
    let mut i: usize = 0;
    proof {
        assert(ts.all(vars@) =~= syms.take(0));
    }
    while i < n
        invariant
            i <= n,
            ts.well_formed(),
            ts.symbols == i,
            ts.has_all(vars@),
            vars@.len() == i,
            syms == paths::symbols_of(n as nat),
            ts.all(vars@) == syms.take(i as int),
        decreases n - i,
    {
        let name = numbered("v", i as u64);
        let ghost before = ts;
        let v = ts.symbol(name.as_str());
        let ghost had = vars@;
        proof {
            ts.lemma_kept(before, had);
        }
        vars.push(v);
        proof {
            assert(syms.take(i + 1) =~= syms.take(i as int).push(syms[i as int]));
            assert(ts.all(vars@) =~= ts.all(had).push(ts.tree(v)));
            assert forall|k: int| 0 <= k < vars@.len() implies ts.has(#[trigger] vars@[k]) by {
                if k < had.len() {
                    assert(ts.has(had[k]));
                }
            }
        }
        i += 1;
    }
    let mut k: usize = 0;
    let mut params: Vec<RealTerm> = Vec::new();
    proof {
        assert(syms.take(n as int) =~= syms);
        assert(params@ =~= vars@.take(0));
    }
    while k < n && matches!(body.vars[k].kind, VarKind::Local(_))
        invariant
            k <= n == body.vars@.len(),
            vars@.len() == n,
            params@ == vars@.take(k as int),
            params_from(body.vars@, 0) == params_from(body.vars@, k as nat),
        decreases n - k,
    {
        params.push(vars[k]);
        proof {
            assert(vars@.take(k + 1) =~= vars@.take(k as int).push(vars@[k as int]));
        }
        k += 1;
    }
    let ghost first = ts;
    proof {
        assert forall|j: int| 0 <= j < params@.len() implies first.has(#[trigger] params@[j]) by {
            assert(first.has(vars@[j]));
        }
        assert(first.all(params@) =~= syms.take(k as int));
    }
    let conds: Vec<RealTerm> = Vec::new();
    proof {
        assert(ts.all(conds@) =~= Seq::empty());
    }
    let errors = ts.explore(body, oid, body.entry, PathTerms { vars, conds }, 0);
    let formula = ts.disjoin(errors);
    proof {
        ts.lemma_kept(first, params@);
    }
    NraQuery { terms: ts, formula, params }
}

/// The value of a parameter in a model, in the forms that a witness needs: the
/// bits of the number as a `double` and as a `float`, and the number rounded
/// towards zero.
#[derive(Clone, Copy, Debug, PartialEq, Eq, Structural)]
pub struct ModelValue {
    pub double_bits: u64,
    pub float_bits: u32,
    pub long: i64,
    pub int: i32,
}

/// Zero.
pub open spec fn zero_value() -> ModelValue {
    ModelValue { double_bits: 0, float_bits: 0, long: 0, int: 0 }
}

/// The value of variable `i`; zero if the model has none.
pub open spec fn model_at(model: Seq<ModelValue>, i: int) -> ModelValue {
    if i < model.len() {
        model[i]
    } else {
        zero_value()
    }
}

/// The choice that gives a parameter of the type its value.
pub open spec fn choice(ty: Ty, v: ModelValue) -> NondetEntryV {
    match ty {
        Ty::Double => NondetEntryV {
            value: NondetValueV::Long(v.double_bits as i64),
            nondet_method: "nondetDouble"@,
            line: None,
        },
        Ty::Float => NondetEntryV {
            value: NondetValueV::Int(v.float_bits as i32),
            nondet_method: "nondetFloat"@,
            line: None,
        },
        Ty::Long => NondetEntryV {
            value: NondetValueV::Long(v.long),
            nondet_method: "nondetLong"@,
            line: None,
        },
        _ => NondetEntryV {
            value: NondetValueV::Int(v.int),
            nondet_method: "nondetInt"@,
            line: None,
        },
    }
}

/// The choices for the parameters from variable `i` on; a wide one takes two
/// places.
pub open spec fn choices_from(vars: Seq<VarInfo>, model: Seq<ModelValue>, i: nat) -> Seq<NondetEntryV>
    decreases vars.len() + 1 - i,
{
    if i >= vars.len() || !(vars[i as int].kind is Local) {
        Seq::empty()
    } else {
        let ty = vars[i as int].ty;
        seq![choice(ty, model_at(model, i as int))] + choices_from(
            vars,
            model,
            i + (if ty.wide() {
                2nat
            } else {
                1
            }),
        )
    }
}

fn make_choice(ty: Ty, v: ModelValue) -> (e: NondetEntry)
    ensures
        e@ == choice(ty, v),
{
    match ty {
        Ty::Double => NondetEntry {
            value: NondetValue::Long(v.double_bits as i64),
            nondet_method: "nondetDouble",
            line: None,
        },
        Ty::Float => NondetEntry {
            value: NondetValue::Int(v.float_bits as i32),
            nondet_method: "nondetFloat",
            line: None,
        },
        Ty::Long => NondetEntry {
            value: NondetValue::Long(v.long),
            nondet_method: "nondetLong",
            line: None,
        },
        _ => NondetEntry {
            value: NondetValue::Int(v.int),
            nondet_method: "nondetInt",
            line: None,
        },
    }
}

/// The choices that lead to the violation that the model describes.
pub fn build_witness_from_model(body: &Body, model: &Vec<ModelValue>) -> (w: Witness)
    ensures
        verdict::entry_views(w.entries@) == choices_from(body.vars@, model@, 0),
{
    let mut entries: Vec<NondetEntry> = Vec::new();
    let ghost whole = choices_from(body.vars@, model@, 0);
    let mut i: usize = 0;
    proof {
        assert(verdict::entry_views(entries@) + whole =~= whole);
    }
    while i < body.vars.len() && matches!(body.vars[i].kind, VarKind::Local(_))
        invariant
            whole == verdict::entry_views(entries@) + choices_from(body.vars@, model@, i as nat),
        decreases body.vars@.len() - i,
    {
        let ty = body.vars[i].ty;
        let v = if i < model.len() {
            model[i]
        } else {
            ModelValue { double_bits: 0, float_bits: 0, long: 0, int: 0 }
        };
        let e = make_choice(ty, v);
        let ghost ev = e@;
        let ghost had = verdict::entry_views(entries@);
        entries.push(e);
        let step: usize = if ty.is_wide() {
            2
        } else {
            1
        };
        proof {
            assert(verdict::entry_views(entries@) =~= had.push(ev));
            let rest = choices_from(body.vars@, model@, (i + step) as nat);
            assert(had + (seq![ev] + rest) =~= had.push(ev) + rest);
        }
        if i >= body.vars.len() - 1 {
            i = body.vars.len();
        } else {
            i = i + step;
        }
    }
    proof {
        assert(verdict::entry_views(entries@) + Seq::empty() =~= verdict::entry_views(entries@));
    }
    Witness { entries }
}

/// What the solver said.
#[derive(Debug)]
pub enum NraResult {
    /// Satisfiable, with the values of the parameters.
    Sat(Vec<ModelValue>),
    Unsat,
    Unknown,
}

/// Is the obligation one for this engine?
pub open spec fn suitable(prog: Program, models: Models, o: ObligationRef) -> Option<Body> {
    match prog.body_of(o.method@) {
        Some(b) => if b.fully_lifted() && body_shape::shape_of(b, models).for_nra() {
            Some(b)
        } else {
            None
        },
        None => None,
    }
}

/// Encodes methods with transcendental functions over the reals.
#[derive(Debug)]
pub struct NraEngine {
    pub done: bool,
}

impl NraEngine {
    pub fn new() -> (r: Self)
        ensures
            !r.done,
    {
        NraEngine { done: false }
    }

    /// The solver is part of the program.
    pub fn available(&self) -> (r: bool)
        ensures
            r,
    {
        true
    }

    pub fn id(&self) -> (r: EngineId)
        ensures
            (r.0)@ == "nra"@,
    {
        EngineId("nra")
    }

    /// The formulas are about reals, which stand for more than the numbers of the
    /// machine.
    pub fn direction(&self) -> (d: Direction)
        ensures
            d == Direction::Over,
    {
        Direction::Over
    }

    /// Is there something to do? Only once, and only if obligations are open.
    pub fn begin(&mut self, open: &Vec<ObligationRef>) -> (r: bool)
        ensures
            r == (!old(self).done && open@.len() > 0),
            final(self).done,
    {
        let first = !self.done;
        self.done = true;
        first && open.len() > 0
    }

    /// The question about an obligation, if it is one for this engine.
    pub fn question(&self, prog: &Program, models: &Models, o: &ObligationRef) -> (r: Option<NraQuery>)
        requires
            prog.well_formed(),
            suitable(*prog, *models, *o) matches Some(b) ==> paths::encodable(b),
        ensures
            match (r, suitable(*prog, *models, *o)) {
                (Some(q), Some(b)) => {
                    &&& q.terms.well_formed()
                    &&& q.terms.has(q.formula)
                    &&& q.terms.tree(q.formula) == paths::formula(b, o.id)
                    &&& q.terms.has_all(q.params@)
                    &&& q.terms.all(q.params@) == paths::symbols_of(b.vars@.len()).take(
                        params_from(b.vars@, 0) as int,
                    )
                },
                (None, None) => true,
                _ => false,
            },
    {
        match prog.body(&o.method) {
            Some(b) => {
                if !b.is_fully_lifted() {
                    return None;
                }
                if !analyze(b, models).suitable_for_nra() {
                    return None;
                }
                Some(encode_nra(b, o.id))
            },
            None => None,
        }
    }

    /// The violation that an answer shows, if any. That a formula has no solution
    /// over the reals discharges nothing: the numbers of the machine can be
    /// infinite or no number at all.
    pub fn finish(&self, body: &Body, result: &NraResult) -> (r: Option<Witness>)
        ensures
            match (r, *result) {
                (Some(w), NraResult::Sat(model)) => verdict::entry_views(w.entries@)
                    == choices_from(body.vars@, model@, 0),
                (None, NraResult::Sat(_)) => false,
                (r, _) => r is None,
            },
    {
        match result {
            NraResult::Sat(model) => Some(build_witness_from_model(body, model)),
            _ => None,
        }
    }
}

} // verus!
