//! Right-hand sides of assignments: their terms, widths and taint.

use vstd::prelude::*;

use super::encode;
use super::encode::assert_nonzero;
use super::heap;
use super::math_encode;
use super::math_encode::math_call_modelled;
use super::state;
use super::state::{width_of_ty, Encoder, State};
use super::str_encode;
use crate::desc;
use crate::desc::{field_elem_width, is_ref_desc, parse_param_slots};
use crate::ir;
use crate::ir::{Const, MethodKey, MethodKeyV, Operand, Rvalue, Ty, VarId, VarKind};
use crate::program;
use crate::program::Program;
use crate::term;
use crate::term::{Op1, Op2, Op3, Term, Terms, Tm};
use crate::text::chars_of;

verus! {

/// How deep calls are followed.
pub const MAX_CALL_DEPTH: u32 = 10;

/// The term of a right-hand side, and what else its evaluation does. A call
/// that reaches this point is not modelled.
pub open spec fn rvalue_outcome(e: Encoder, old: Encoder, rv: Rvalue, t: Term) -> bool {
    match rv {
        Rvalue::Use(o) => {
            &&& e.settled_from(old)
            &&& e.knows(o)
            &&& e.terms.tm(t) == e.operand_tm(o)
        },
        Rvalue::Nondet(ty, b) => heap::nondet_outcome(e, old, ty, b, t),
        Rvalue::Havoc(ty) => {
            &&& e.settled_from(old)
            &&& e.st == old.st
            &&& e.terms.tm(t) == Tm::FreshBv(old.terms.size(), "hv"@, state::ty_width(ty))
        },
        Rvalue::Bin(op, a, b) => {
            &&& e.settled_from(old)
            &&& e.knows(a)
            &&& e.knows(b)
            &&& e.terms.tm(t) == encode::bin_tm(
                op,
                e.operand_tm(a),
                e.operand_tm(b),
                old.operand_width(a),
                old.operand_width(b),
            )
        },
        Rvalue::Neg(o) => {
            &&& e.settled_from(old)
            &&& e.knows(o)
            &&& e.terms.tm(t) == term::t1(Op1::BvNeg, e.operand_tm(o))
        },
        Rvalue::Cast(ty, o) => {
            &&& e.settled_from(old)
            &&& e.knows(o)
            &&& e.terms.tm(t) == cast_tm(ty, e.operand_tm(o))
        },
        Rvalue::Cmp(a, b) => {
            &&& e.settled_from(old)
            &&& e.knows(a)
            &&& e.knows(b)
            &&& e.terms.tm(t) == encode::ordered_tm(
                e.operand_tm(a),
                e.operand_tm(b),
                old.operand_width(a),
                old.operand_width(b),
            )
        },
        Rvalue::GetStatic(f) => heap::static_outcome(e, old, f, t),
        Rvalue::GetField { obj, field } => {
            let k = heap::resolved(old, field);
            &&& e.opened_from(old, k, desc::field_width(field.desc@))
            &&& e.knows(obj)
            &&& e.terms.tm(t) == term::t2(Op2::Select, e.field_tm(k), e.operand_tm(obj))
        },
        Rvalue::New(class) => heap::new_outcome(e, old, class@, t),
        Rvalue::NewArray { len, .. } => heap::new_array_outcome(e, old, len, t),
        Rvalue::ArrayLength(a) => {
            &&& e.settled_from(old)
            &&& e.knows(a)
            &&& exists|at: nat|
                at >= old.terms.size() && e.terms.tm(t) == encode::length_tm(
                    old.terms,
                    old.st.array_map@,
                    old.st.array_map@.len(),
                    e.operand_tm(a),
                    #[trigger] encode::unknown_length(at),
                )
        },
        Rvalue::ArrayLoad { arr, idx } => {
            &&& e.settled_from(old)
            &&& e.knows(arr)
            &&& e.knows(idx)
            &&& exists|at: nat|
                at >= old.terms.size() && e.terms.tm(t) == term::t2(
                    Op2::Select,
                    encode::contents_tm(
                        old.terms,
                        old.st.array_map@,
                        old.st.array_map@.len(),
                        e.operand_tm(arr),
                        #[trigger] encode::unknown_contents(at),
                    ),
                    e.operand_tm(idx),
                )
        },
        Rvalue::InstanceOf { obj, class } => heap::instance_outcome(e, old, obj, class@, t),
        Rvalue::Call { .. } => {
            &&& e.settled_from(old)
            &&& e.st == old.st
            &&& e.terms.tm(t) == Tm::FreshBv(old.terms.size(), "havoc"@, 32)
        },
    }
}

/// A conversion between `int` and `long`; any other keeps the value.
pub open spec fn cast_tm(ty: Ty, a: Tm) -> Tm {
    match ty {
        Ty::Long => term::t1(Op1::SignExtend(32), a),
        Ty::Int => term::t1(Op1::Extract(31, 0), a),
        _ => a,
    }
}

/// Lookups do not depend on terms built later.
proof fn lemma_lookups_same(
    after: Terms,
    before: Terms,
    arrays: Seq<super::state::ArrayEntry>,
    n: nat,
    r: Tm,
    base: Tm,
)
    requires
        after.built_from(before),
        state::arrays_in(before, arrays),
        n <= arrays.len(),
    ensures
        encode::length_tm(after, arrays, n, r, base) == encode::length_tm(before, arrays, n, r, base),
        encode::contents_tm(after, arrays, n, r, base) == encode::contents_tm(
            before,
            arrays,
            n,
            r,
            base,
        ),
    decreases n,
{
    if n > 0 {
        lemma_lookups_same(after, before, arrays, (n - 1) as nat, r, base);
        assert(before.has(arrays[n - 1].reference));
    }
}

/// The width of the value a method returns, by its descriptor.
pub open spec fn return_width(d: Seq<char>) -> u32 {
    let i = desc::find_from(d, 0, ')');
    if i + 1 < d.len() && (d[i + 1] == 'J' || d[i + 1] == 'D') {
        64
    } else {
        32
    }
}

fn find_return_width(d: &str) -> (w: u32)
    ensures
        w == return_width(d@),
{
    let v = chars_of(d);
    let mut i: usize = 0;
    while i < v.len() && v[i] != ')'
        invariant
            v@ == d@,
            i <= v@.len(),
            desc::find_from(d@, 0, ')') == desc::find_from(d@, i as int, ')'),
        decreases v@.len() - i,
    {
        i += 1;
    }
    if i < v.len() && i + 1 < v.len() && (v[i + 1] == 'J' || v[i + 1] == 'D') {
        64
    } else {
        32
    }
}

/// Do all the methods that a call can reach have bodies?
pub open spec fn inlinable(p: Program, depth: u32, target: MethodKeyV, is_virtual: bool) -> bool {
    &&& depth < MAX_CALL_DEPTH
    &&& if is_virtual {
        let ts = program::targets_of(p.dispatch@, target);
        ts.len() > 0 && forall|i: int|
            0 <= i < ts.len() ==> p.body_of(#[trigger] ts[i]) is Some
    } else {
        p.body_of(target) is Some
    }
}

/// Can a call be followed into its body?
pub fn can_inline(p: &Program, depth: u32, target: &MethodKey, is_virtual: bool) -> (r: bool)
    ensures
        r == inlinable(*p, depth, target@, is_virtual),
{
    if depth >= MAX_CALL_DEPTH {
        return false;
    }
    if !is_virtual {
        return p.body(target).is_some();
    }
    let targets = p.devirtualise(target);
    let ghost views = program::targets_of(p.dispatch@, target@);
    proof {
        assert(program::method_views(targets@).len() == targets@.len());
    }
    let mut i: usize = 0;
    while i < targets.len()
        invariant
            i <= targets@.len(),
            is_virtual,
            views == program::targets_of(p.dispatch@, target@),
            program::method_views(targets@) == views,
            views.len() == targets@.len(),
            forall|j: int| 0 <= j < i ==> p.body_of(#[trigger] views[j]) is Some,
        decreases targets@.len() - i,
    {
        proof {
            assert(program::method_views(targets@)[i as int] == targets@[i as int]@);
        }
        if p.body(&targets[i]).is_none() {
            return false;
        }
        i += 1;
    }
    targets.len() > 0
}

impl<'a> Encoder<'a> {
    /// Is the operand a variable whose value is tainted?
    pub open spec fn is_tainted(self, op: Operand) -> bool {
        op matches Operand::Var(v) && self.st.tainted@[v.0 as int]
    }

    /// Is the operand a variable whose value depends on floating point?
    pub open spec fn is_float_tainted(self, op: Operand) -> bool {
        op matches Operand::Var(v) && self.st.float_tainted@[v.0 as int]
    }

    /// Is the operand of a floating-point type?
    pub open spec fn is_float(self, op: Operand) -> bool {
        let ty = match op {
            Operand::Const(c) => c.ty_of(),
            Operand::Var(v) => self.body.vars@[v.0 as int].ty,
        };
        ty == Ty::Float || ty == Ty::Double
    }

    /// Is the operand a variable whose value is tainted?
    pub fn operand_tainted(&self, op: &Operand) -> (r: bool)
        requires
            self.ok(),
            op.in_range(self.body.vars@.len()),
        ensures
            r == self.is_tainted(*op),
    {
        proof {
            self.st.lemma_fits(self.body.vars@.len(), self.terms);
        }
        match op {
            Operand::Var(v) => self.st.tainted[v.0 as usize],
            _ => false,
        }
    }

    /// Is the operand a variable whose value depends on floating point?
    pub fn operand_float_tainted(&self, op: &Operand) -> (r: bool)
        requires
            self.ok(),
            op.in_range(self.body.vars@.len()),
        ensures
            r == self.is_float_tainted(*op),
    {
        proof {
            self.st.lemma_fits(self.body.vars@.len(), self.terms);
        }
        match op {
            Operand::Var(v) => self.st.float_tainted[v.0 as usize],
            _ => false,
        }
    }

    /// Is the operand of a floating-point type?
    pub fn operand_is_float(&self, op: &Operand) -> (r: bool)
        requires
            op.in_range(self.body.vars@.len()),
        ensures
            r == self.is_float(*op),
    {
        let ty = match op {
            Operand::Const(c) => c.ty(),
            Operand::Var(v) => self.body.var(*v).ty,
        };
        matches!(ty, Ty::Float | Ty::Double)
    }

    /// Does the value depend on something that is not modelled? Static fields
    /// are asked for after their class has been initialised.
    pub open spec fn taints(self, rv: Rvalue, depth: u32) -> bool {
        match rv {
            Rvalue::GetStatic(f) => if self.st.statics.holds(f@) {
                self.st.static_tainted.holds(f@)
            } else {
                !self.prog.has_class(f.class@) && !desc::ref_desc(f.desc@)
            },
            Rvalue::GetField { field, .. } => self.st.field_tainted.holds(
                heap::resolved(self, field),
            ),
            Rvalue::ArrayLoad { arr, idx } => self.is_tainted(arr) || self.is_tainted(idx),
            Rvalue::ArrayLength(o) | Rvalue::NewArray { len: o, .. } | Rvalue::InstanceOf {
                obj: o,
                ..
            } => self.is_tainted(o),
            Rvalue::New(_) | Rvalue::Nondet(_, _) => false,
            Rvalue::Call { target, args, is_virtual } => if self.models.owns_strings(target.class@) {
                !str_encode::str_modelled(self, target, args@)
            } else {
                !math_encode::math_modelled(target) && !inlinable(*self.prog, depth, target@, is_virtual)
            },
            Rvalue::Use(o) | Rvalue::Neg(o) | Rvalue::Cast(_, o) => self.is_tainted(o)
                || self.is_float(o),
            Rvalue::Bin(_, a, b) | Rvalue::Cmp(a, b) => self.is_tainted(a) || self.is_tainted(b)
                || self.is_float(a) || self.is_float(b),
            Rvalue::Havoc(_) => true,
        }
    }

    /// Does the value depend on something that is not modelled?
    pub fn rvalue_tainted(&self, rv: &Rvalue, depth: u32) -> (r: bool)
        requires
            self.ok(),
            ir::operands_in_range(ir::rvalue_operands(*rv), self.body.vars@.len()),
        ensures
            r == self.taints(*rv, depth),
    {
        let ghost ops = ir::rvalue_operands(*rv);
        proof {
            if ops.len() > 0 {
                assert(ops[0].in_range(self.body.vars@.len()));
            }
            if ops.len() > 1 {
                assert(ops[1].in_range(self.body.vars@.len()));
            }
        }
        match rv {
            Rvalue::GetStatic(f) => {
                if self.st.statics.contains(f) {
                    self.st.static_tainted.contains(f)
                } else {
                    !self.prog.is_program_class(f.class.as_str()) && !is_ref_desc(f.desc.as_str())
                }
            },
            Rvalue::GetField { field, .. } => {
                let k = self.field_key_resolved(field);
                self.st.field_tainted.contains(&k)
            },
            Rvalue::ArrayLoad { arr, idx } => self.operand_tainted(arr) || self.operand_tainted(idx),
            Rvalue::ArrayLength(o) => self.operand_tainted(o),
            Rvalue::NewArray { len, .. } => self.operand_tainted(len),
            Rvalue::InstanceOf { obj, .. } => self.operand_tainted(obj),
            Rvalue::New(_) => false,
            Rvalue::Nondet(_, _) => false,
            Rvalue::Call { target, args, is_virtual } => {
                if self.models.is_str_owner(target.class.as_str()) {
                    !self.str_call_modelled(target, args)
                } else {
                    !math_call_modelled(target) && !can_inline(self.prog, depth, target, *is_virtual)
                }
            },
            Rvalue::Use(o) => self.operand_tainted(o) || self.operand_is_float(o),
            Rvalue::Neg(o) => self.operand_tainted(o) || self.operand_is_float(o),
            Rvalue::Cast(_, o) => self.operand_tainted(o) || self.operand_is_float(o),
            Rvalue::Bin(_, a, b) => self.operand_tainted(a) || self.operand_tainted(b)
                || self.operand_is_float(a) || self.operand_is_float(b),
            Rvalue::Cmp(a, b) => self.operand_tainted(a) || self.operand_tainted(b)
                || self.operand_is_float(a) || self.operand_is_float(b),
            Rvalue::Havoc(_) => true,
        }
    }

    /// Does the value depend on floating-point arithmetic? That is a narrower
    /// question than [`Encoder::taints`]: what comes from the heap or from a call
    /// does not count.
    pub open spec fn float_taints(self, rv: Rvalue) -> bool {
        match rv {
            Rvalue::Use(o) | Rvalue::Neg(o) | Rvalue::Cast(_, o) => self.is_float_tainted(o)
                || self.is_float(o),
            Rvalue::Bin(_, a, b) | Rvalue::Cmp(a, b) => self.is_float_tainted(a)
                || self.is_float_tainted(b) || self.is_float(a) || self.is_float(b),
            _ => false,
        }
    }

    /// Does the value depend on floating-point arithmetic?
    pub fn rvalue_float_tainted(&self, rv: &Rvalue) -> (r: bool)
        requires
            self.ok(),
            ir::operands_in_range(ir::rvalue_operands(*rv), self.body.vars@.len()),
        ensures
            r == self.float_taints(*rv),
    {
        let ghost ops = ir::rvalue_operands(*rv);
        proof {
            if ops.len() > 0 {
                assert(ops[0].in_range(self.body.vars@.len()));
            }
            if ops.len() > 1 {
                assert(ops[1].in_range(self.body.vars@.len()));
            }
        }
        match rv {
            Rvalue::Use(o) => self.operand_float_tainted(o) || self.operand_is_float(o),
            Rvalue::Neg(o) => self.operand_float_tainted(o) || self.operand_is_float(o),
            Rvalue::Cast(_, o) => self.operand_float_tainted(o) || self.operand_is_float(o),
            Rvalue::Bin(_, a, b) => self.operand_float_tainted(a) || self.operand_float_tainted(b)
                || self.operand_is_float(a) || self.operand_is_float(b),
            Rvalue::Cmp(a, b) => self.operand_float_tainted(a) || self.operand_float_tainted(b)
                || self.operand_is_float(a) || self.operand_is_float(b),
            _ => false,
        }
    }

    /// The width of the value.
    pub open spec fn result_width(self, rv: Rvalue) -> u32 {
        match rv {
            Rvalue::Use(o) | Rvalue::Neg(o) => self.operand_width(o),
            Rvalue::Bin(_, a, _) => self.operand_width(a),
            Rvalue::Nondet(ty, _) | Rvalue::Havoc(ty) | Rvalue::Cast(ty, _) => state::ty_width(ty),
            Rvalue::GetStatic(f) | Rvalue::GetField { field: f, .. } => desc::field_width(f.desc@),
            Rvalue::Call { target, .. } => return_width(target.desc@),
            _ => 32,
        }
    }

    /// The width of the value.
    pub fn rvalue_result_width(&self, rv: &Rvalue) -> (w: u32)
        requires
            self.ok(),
            ir::operands_in_range(ir::rvalue_operands(*rv), self.body.vars@.len()),
        ensures
            w == self.result_width(*rv),
    {
        let ghost ops = ir::rvalue_operands(*rv);
        proof {
            if ops.len() > 0 {
                assert(ops[0].in_range(self.body.vars@.len()));
            }
        }
        match rv {
            Rvalue::Use(o) => self.width_of_operand(o),
            Rvalue::Neg(o) => self.width_of_operand(o),
            Rvalue::Bin(_, a, _) => self.width_of_operand(a),
            Rvalue::Nondet(ty, _) => width_of_ty(ty),
            Rvalue::Havoc(ty) => width_of_ty(ty),
            Rvalue::Cast(ty, _) => width_of_ty(ty),
            Rvalue::GetStatic(f) => field_elem_width(f.desc.as_str()),
            Rvalue::GetField { field, .. } => field_elem_width(field.desc.as_str()),
            Rvalue::Call { target, .. } => find_return_width(target.desc.as_str()),
            _ => 32,
        }
    }

    /// Encode the right-hand side of an assignment.
    pub fn encode_rvalue(&mut self, rv: &Rvalue) -> (t: Term)
        requires
            old(self).ok(),
            ir::operands_in_range(ir::rvalue_operands(*rv), old(self).body.vars@.len()),
        ensures
            final(self).terms.has(t),
            rvalue_outcome(*final(self), *old(self), *rv, t),
    {
        let ghost ops = ir::rvalue_operands(*rv);
        proof {
            if ops.len() > 0 {
                assert(ops[0].in_range(self.body.vars@.len()));
            }
            if ops.len() > 1 {
                assert(ops[1].in_range(self.body.vars@.len()));
            }
            self.st.lemma_fits(self.body.vars@.len(), self.terms);
        }
        match rv {
            Rvalue::Use(o) => self.encode_operand(o),
            Rvalue::Nondet(ty, b) => self.encode_nondet(*ty, *b),
            Rvalue::Havoc(ty) => {
                let w = width_of_ty(ty);
                let t = self.terms.fresh_bv("hv", w);
                proof {
                    self.lemma_built_settles(*old(self));
                }
                t
            },
            Rvalue::Bin(op, a, b) => self.encode_binop(*op, a, b),
            Rvalue::Neg(o) => {
                let x = self.encode_operand(o);
                let ghost mid = *self;
                let t = self.terms.app1(Op1::BvNeg, x);
                proof {
                    self.lemma_settle_then_build(mid, *old(self));
                    self.lemma_operand_same(mid, *o);
                }
                t
            },
            Rvalue::Cast(ty, o) => {
                let x = self.encode_operand(o);
                let ghost mid = *self;
                let t = match ty {
                    Ty::Long => self.terms.app1(Op1::SignExtend(32), x),
                    Ty::Int => self.terms.app1(Op1::Extract(31, 0), x),
                    _ => x,
                };
                proof {
                    self.lemma_settle_then_build(mid, *old(self));
                    self.lemma_operand_same(mid, *o);
                }
                t
            },
            Rvalue::Cmp(a, b) => self.encode_three_way(a, b),
            Rvalue::GetStatic(f) => self.encode_static(f),
            Rvalue::GetField { obj, field } => self.encode_field(obj, field),
            Rvalue::New(class) => self.encode_new(class),
            Rvalue::NewArray { len, .. } => self.encode_new_array(len),
            Rvalue::ArrayLength(a) => {
                let r = self.encode_operand(a);
                let ghost mid = *self;
                let t = self.array_length_lookup(r);
                proof {
                    self.lemma_settle_then_build(mid, *old(self));
                    self.lemma_operand_same(mid, *a);
                    lemma_lookups_same(
                        mid.terms,
                        old(self).terms,
                        old(self).st.array_map@,
                        old(self).st.array_map@.len(),
                        mid.operand_tm(*a),
                        encode::unknown_length(mid.terms.size()),
                    );
                }
                t
            },
            Rvalue::ArrayLoad { arr, idx } => {
                let (r, i) = self.encode_pair(arr, idx);
                let ghost mid = *self;
                let t = self.array_select_lookup(r, i);
                proof {
                    self.lemma_settle_then_build(mid, *old(self));
                    self.lemma_operand_same(mid, *arr);
                    self.lemma_operand_same(mid, *idx);
                    lemma_lookups_same(
                        mid.terms,
                        old(self).terms,
                        old(self).st.array_map@,
                        old(self).st.array_map@.len(),
                        mid.operand_tm(*arr),
                        encode::unknown_contents(mid.terms.size()),
                    );
                }
                t
            },
            Rvalue::InstanceOf { obj, class } => self.encode_instance_of(obj, class),
            Rvalue::Call { .. } => {
                let t = self.terms.fresh_bv("havoc", 32);
                proof {
                    self.lemma_built_settles(*old(self));
                }
                t
            },
        }
    }
}

/// The class of the first parameter in the given slot.
pub open spec fn class_in_slot(params: Seq<(nat, Seq<char>)>, slot: nat) -> Option<Seq<char>>
    decreases params.len(),
{
    if params.len() == 0 {
        None
    } else if params[0].0 == slot {
        Some(params[0].1)
    } else {
        class_in_slot(params.skip(1), slot)
    }
}

/// The declared class of a variable that is a reference parameter.
pub open spec fn param_class(e: Encoder, i: int) -> Option<Seq<char>> {
    match e.body.vars@[i].kind {
        VarKind::Local(slot) => if e.body.vars@[i].ty == Ty::Ref {
            class_in_slot(desc::ref_params(e.body.key.desc@), slot as nat)
        } else {
            None
        },
        _ => None,
    }
}

/// What is asserted of the reference parameters among the first `n` variables.
pub open spec fn param_facts(e: Encoder, n: nat) -> Seq<Tm>
    decreases n,
{
    if n == 0 {
        seq![]
    } else {
        let before = param_facts(e, (n - 1) as nat);
        if param_class(e, n - 1) is Some {
            before.push(encode::not_null(e.terms.tm(e.st.vars@[n - 1]->0)))
        } else {
            before
        }
    }
}

/// The types of objects once those of the reference parameters among the first
/// `n` variables are stored in `base`.
pub open spec fn param_types(e: Encoder, base: Tm, n: nat) -> Tm
    decreases n,
{
    if n == 0 {
        base
    } else {
        let before = param_types(e, base, (n - 1) as nat);
        match param_class(e, n - 1) {
            Some(c) => term::t3(
                Op3::Store,
                before,
                e.terms.tm(e.st.vars@[n - 1]->0),
                term::bv32((e.type_ids.at(c)->0) as int),
            ),
            None => before,
        }
    }
}

/// What is said of parameters is not changed by what is built later.
proof fn lemma_params_same(after: Encoder, before: Encoder, base: Tm, n: nat)
    requires
        before.ok(),
        after.body == before.body,
        n <= before.body.vars@.len(),
        forall|t: Term| before.terms.has(t) ==> #[trigger] after.terms.tm(t) == before.terms.tm(t),
        forall|i: int|
            0 <= i < n && before.st.vars@[i] is Some ==> #[trigger] after.st.vars@[i]
                == before.st.vars@[i],
        forall|c: Seq<char>|
            before.type_ids.at(c) is Some ==> #[trigger] after.type_ids.at(c)
                == before.type_ids.at(c),
        params_known(before, n),
    ensures
        param_facts(after, n) == param_facts(before, n),
        param_types(after, base, n) == param_types(before, base, n),
        params_known(after, n),
    decreases n,
{
    assert forall|i: int| 0 <= i < n && (#[trigger] param_class(after, i)) is Some implies {
        &&& after.st.vars@[i] is Some
        &&& after.type_ids.at(param_class(after, i)->0) is Some
    } by {
        assert(param_class(before, i) is Some);
    }
    if n > 0 {
        before.st.lemma_fits(before.body.vars@.len(), before.terms);
        lemma_params_same(after, before, base, (n - 1) as nat);
        if param_class(before, n - 1) is Some {
            assert(before.terms.has_opt(before.st.vars@[n - 1]));
            assert(before.terms.has(before.st.vars@[n - 1]->0));
            assert(after.st.vars@[n - 1] == before.st.vars@[n - 1]);
        }
    }
}

/// The reference parameters among the first `n` variables have terms, and their
/// classes have numbers.
pub open spec fn params_known(e: Encoder, n: nat) -> bool {
    forall|i: int|
        0 <= i < n && (#[trigger] param_class(e, i)) is Some ==> {
            &&& e.st.vars@[i] is Some
            &&& e.type_ids.at(param_class(e, i)->0) is Some
        }
}

fn find_class(params: &Vec<(usize, String)>, slot: u16) -> (r: Option<String>)
    ensures
        match r {
            Some(c) => class_in_slot(desc::slot_views(params@), slot as nat) == Some(c@),
            None => class_in_slot(desc::slot_views(params@), slot as nat) is None,
        },
{
    let ghost views = desc::slot_views(params@);
    let mut i: usize = 0;
    proof {
        assert(views.skip(0) =~= views);
    }
    while i < params.len()
        invariant
            i <= params@.len(),
            views == desc::slot_views(params@),
            class_in_slot(views, slot as nat) == class_in_slot(views.skip(i as int), slot as nat),
        decreases params@.len() - i,
    {
        proof {
            assert(views.skip(i as int)[0] == views[i as int]);
            assert(views.skip(i as int).skip(1) =~= views.skip(i + 1));
        }
        if params[i].0 == slot as usize {
            return Some(params[i].1.clone());
        }
        i += 1;
    }
    None
}

/// The reference parameters of the entry method were assumed to be objects of their
/// declared classes.
pub open spec fn params_assumed(e: Encoder, old: Encoder) -> bool {
    let n = old.body.vars@.len();
    &&& e.ok()
    &&& e.prog == old.prog && e.models == old.models && e.ascii_only == old.ascii_only
        && e.body == old.body
    &&& e.next_alloc_id == old.next_alloc_id
    &&& e.vars_settled(old)
    &&& e.st == State {
        vars: e.st.vars,
        type_array: e.st.type_array,
        ..old.st
    }
    &&& params_known(e, n)
    &&& e.terms.stated_from(old.terms, param_facts(e, n))
    &&& e.terms.tm(e.st.type_array) == param_types(
        e,
        old.terms.tm(old.st.type_array),
        n,
    )
    &&& forall|c: Seq<char>|
        old.type_ids.at(c) is Some ==> #[trigger] e.type_ids.at(c)
            == old.type_ids.at(c)
}

impl<'a> Encoder<'a> {
    /// Assume that the reference parameters of the entry method are objects of
    /// their declared classes.
    pub fn constrain_ref_params_nonnull(&mut self)
        requires
            old(self).ok(),
            2 * old(self).body.key.desc@.len() <= usize::MAX,
        ensures
            params_assumed(*final(self), *old(self)),
    {
        let params = parse_param_slots(self.body.key.desc.as_str());
        let ghost base = old(self).terms.tm(old(self).st.type_array);
        let n = self.body.vars.len();
        proof {
            self.lemma_built_settles(*self);
            self.terms.lemma_built_states(self.terms);
        }
        let mut i: usize = 0;
        while i < n
            invariant
                i <= n,
                n == self.body.vars@.len(),
                old(self).ok(),
                self.ok(),
                base == old(self).terms.tm(old(self).st.type_array),
                desc::slot_views(params@) == desc::ref_params(self.body.key.desc@),
                self.prog == old(self).prog && self.models == old(self).models && self.body == old(self).body,
                self.ascii_only == old(self).ascii_only,
                self.next_alloc_id == old(self).next_alloc_id,
                self.vars_settled(*old(self)),
                self.st == (State {
                    vars: self.st.vars,
                    type_array: self.st.type_array,
                    ..old(self).st
                }),
                params_known(*self, i as nat),
                self.terms.stated_from(old(self).terms, param_facts(*self, i as nat)),
                self.terms.tm(self.st.type_array) == param_types(*self, base, i as nat),
                forall|c: Seq<char>|
                    old(self).type_ids.at(c) is Some ==> #[trigger] self.type_ids.at(c) == old(self).type_ids.at(c),
            decreases n - i,
        {
            let ghost before = *self;
            proof {
                self.st.lemma_fits(self.body.vars@.len(), self.terms);
            }
            let info = self.body.vars[i];
            let class = match info.kind {
                VarKind::Local(slot) => {
                    if info.ty == Ty::Ref {
                        find_class(&params, slot)
                    } else {
                        None
                    }
                },
                _ => None,
            };
            if let Some(class) = class {
                proof {
                    assert(param_class(*self, i as int) == Some(class@));
                }
                let t = self.get_var(VarId(i as u32));
                let ghost got = *self;
                assert_nonzero(&mut self.terms, t);
                let ghost stated = self.terms;
                let id = self.get_type_id(&class);
                let id_term = self.terms.bv_const(id, 32);
                proof {
                    got.st.lemma_fits(self.body.vars@.len(), got.terms);
                }
                let types = self.terms.app3(Op3::Store, self.st.type_array, t, id_term);
                proof {
                    got.st.lemma_fits_grown(self.body.vars@.len(), got.terms, self.terms);
                }
                self.st.type_array = types;
                proof {
                    reveal(State::fits);
                    assert(self.ok());
                    let facts = param_facts(before, i as nat);
                    got.terms.lemma_state_then_build(before.terms, old(self).terms, facts);
                    lemma_state_last(
                        stated,
                        got.terms,
                        old(self).terms,
                        facts,
                        encode::not_null(got.terms.tm(t)),
                    );
                    self.terms.lemma_state_then_build(
                        stated,
                        old(self).terms,
                        facts.push(encode::not_null(got.terms.tm(t))),
                    );
                    assert forall|x: Term| before.terms.has(x) implies #[trigger] self.terms.tm(x)
                        == before.terms.tm(x) by {
                        assert(got.terms.tm(x) == before.terms.tm(x));
                        assert(stated.tm(x) == got.terms.tm(x));
                    }
                    lemma_params_same(*self, before, base, i as nat);
                    assert(self.st.vars@[i as int] == Some(t));
                    assert(param_class(*self, i as int) == Some(class@));
                    assert(self.type_ids.at(class@) == Some(id));
                    lemma_settled_through(*self, got, before, *old(self));
                }
            } else {
                proof {
                    assert(param_class(*self, i as int) is None);
                }
            }
            i += 1;
        }
    }
}

/// Stating one formula after others.
proof fn lemma_state_last(after: Terms, mid: Terms, old: Terms, facts: Seq<Tm>, x: Tm)
    requires
        mid.stated_from(old, facts),
        after.stated_from(mid, seq![x]),
    ensures
        after.stated_from(old, facts.push(x)),
{
    assert forall|t: Term| old.has(t) implies #[trigger] after.tm(t) == old.tm(t) by {
        assert(mid.tm(t) == old.tm(t));
    }
    let n = old.asserted().len() as int;
    let m = mid.asserted().len() as int;
    assert(after.asserted().take(n) =~= after.asserted().take(m).take(n));
    mid.lemma_asserted_in();
    let more = facts.push(x);
    assert forall|i: int| 0 <= i < more.len() implies after.tm(after.asserted()[n + i])
        == #[trigger] more[i] by {
        if i < facts.len() {
            assert(more[i] == facts[i]);
            assert(after.asserted()[n + i] == after.asserted().take(m)[n + i]);
            assert(mid.has(mid.asserted()[n + i]));
        } else {
            assert(seq![x][0] == x);
            assert(m == n + facts.len());
        }
    }
}

/// Variables stay settled when terms and types are added.
proof fn lemma_settled_through(after: Encoder, got: Encoder, before: Encoder, old: Encoder)
    requires
        old.ok(),
        before.ok(),
        got.ok(),
        before.vars_settled(old),
        old.terms.size() <= before.terms.size(),
        got.vars_settled(before),
        after.st.vars == got.st.vars,
        after.body == got.body,
        got.body == before.body,
        before.body == old.body,
        forall|t: Term| got.terms.has(t) ==> #[trigger] after.terms.tm(t) == got.terms.tm(t),
        forall|t: Term| before.terms.has(t) ==> #[trigger] got.terms.tm(t) == before.terms.tm(t),
    ensures
        after.vars_settled(old),
{
    old.st.lemma_fits(old.body.vars@.len(), old.terms);
    before.st.lemma_fits(before.body.vars@.len(), before.terms);
    got.st.lemma_fits(got.body.vars@.len(), got.terms);
    assert forall|i: int|
        0 <= i < after.st.vars@.len() && old.st.vars@[i] is Some implies #[trigger] after.st.vars@[i]
        == old.st.vars@[i] by {
        assert(before.st.vars@[i] == old.st.vars@[i]);
        assert(got.st.vars@[i] == before.st.vars@[i]);
    }
    assert forall|i: int|
        0 <= i < after.st.vars@.len() && old.st.vars@[i] is None && (
        #[trigger] after.st.vars@[i]) is Some implies {
        &&& (after.st.vars@[i]->0).pos() >= old.terms.size()
        &&& after.terms.tm(after.st.vars@[i]->0) == Tm::FreshBv(
            (after.st.vars@[i]->0).pos(),
            state::uninit_name(VarId(i as u32)),
            after.var_width(VarId(i as u32)),
        )
    } by {
        assert(got.terms.has_opt(got.st.vars@[i]));
        assert(got.terms.has(got.st.vars@[i]->0));
        if before.st.vars@[i] is Some {
            assert(got.st.vars@[i] == before.st.vars@[i]);
            assert(before.terms.has_opt(before.st.vars@[i]));
            assert(before.terms.has(before.st.vars@[i]->0));
        }
    }
}

} // verus!
