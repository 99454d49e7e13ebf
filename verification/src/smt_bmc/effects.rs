//! Statements that change the state.

use vstd::prelude::*;

use super::heap;
use super::state;
use super::state::{Encoder, State};
use crate::desc;
use crate::desc::field_elem_width;
use crate::ir::{FieldKey, FieldKeyV, Operand, VarId};
use crate::term;
use crate::term::{Op3, Term};

verus! {

/// What an assignment stores in a variable.
pub struct Assigned {
    pub term: Term,
    /// The content, where the value is a string whose content is known.
    pub text: Option<Term>,
    pub width: u32,
    pub tainted: bool,
    pub float_tainted: bool,
}

/// A value was stored in the field, and whether it is tainted.
pub open spec fn static_stored(
    e: Encoder,
    old: Encoder,
    f: FieldKey,
    val: Operand,
) -> bool {
    &&& e.ok()
    &&& e.same_frame(old)
    &&& e.terms.built_from(old.terms)
    &&& e.vars_settled(old)
    &&& e.knows(val)
    &&& e.st == State {
        vars: e.st.vars,
        statics: e.st.statics,
        static_tainted: e.st.static_tainted,
        static_str: e.st.static_str,
        ..old.st
    }
    &&& e.st.statics.at(f@) is Some
    &&& e.terms.tm(e.st.statics.at(f@)->0) == e.operand_tm(val)
    &&& e.terms.tm_opt(e.st.static_str.at(f@)) == old.str_tm(val)
    &&& e.st.static_tainted.holds(f@) == old.is_tainted(val)
    &&& forall|k: FieldKeyV| k != f@ ==> #[trigger] e.st.statics.at(k) == old.st.statics.at(k)
    &&& forall|k: FieldKeyV| k != f@ ==> #[trigger] e.st.static_str.at(k) == old.st.static_str.at(k)
    &&& forall|k: FieldKeyV|
        k != f@ ==> #[trigger] e.st.static_tainted.at(k) == old.st.static_tainted.at(k)
}

/// A value was stored in the field of an object.
pub open spec fn field_stored(
    e: Encoder,
    old: Encoder,
    obj: Operand,
    f: FieldKey,
    val: Operand,
) -> bool {
    let k = heap::resolved(old, f);
    let w = desc::field_width(f.desc@);
    &&& e.ok()
    &&& e.same_frame(old)
    &&& e.terms.built_from(old.terms)
    &&& e.vars_settled(old)
    &&& e.knows(obj)
    &&& e.knows(val)
    &&& e.st == State {
        vars: e.st.vars,
        field_arrays: e.st.field_arrays,
        field_tainted: e.st.field_tainted,
        ..old.st
    }
    &&& e.st.field_arrays.at(k) is Some
    &&& match old.st.field_arrays.at(k) {
        Some(arr) => e.field_tm(k) == term::t3(
            Op3::Store,
            old.terms.tm(arr),
            e.operand_tm(obj),
            e.operand_tm(val),
        ),
        None => exists|at: nat|
            e.field_tm(k) == term::t3(
                Op3::Store,
                #[trigger] old.initial_field(k, w, at),
                e.operand_tm(obj),
                e.operand_tm(val),
            ),
    }
    &&& e.st.field_tainted.holds(k) == old.is_tainted(val)
    &&& forall|x: FieldKeyV|
        x != k ==> #[trigger] e.st.field_arrays.at(x) == old.st.field_arrays.at(x)
    &&& forall|x: FieldKeyV|
        x != k ==> #[trigger] e.st.field_tainted.at(x) == old.st.field_tainted.at(x)
}

/// A value was assigned to the variable.
pub open spec fn var_assigned(e: Encoder, old: Encoder, v: VarId, a: Assigned) -> bool {
    let i = v.0 as int;
    let b = old.st;
    let s = e.st;
    &&& e == Encoder { st: s, ..old }
    &&& s == State {
        vars: s.vars,
        str_vars: s.str_vars,
        var_widths: s.var_widths,
        tainted: s.tainted,
        float_tainted: s.float_tainted,
        ..b
    }
    &&& s.vars@ == b.vars@.update(i, Some(a.term))
    &&& s.str_vars@ == b.str_vars@.update(i, a.text)
    &&& s.var_widths@ == b.var_widths@.update(i, Some(a.width))
    &&& s.tainted@ == b.tainted@.update(i, a.tainted)
    &&& s.float_tainted@ == b.float_tainted@.update(i, a.float_tainted)
}

impl<'a> Encoder<'a> {
    /// Assign to a variable.
    pub fn set_var(&mut self, v: VarId, a: Assigned)
        requires
            old(self).ok(),
            v.0 < old(self).body.vars@.len(),
            old(self).terms.has(a.term),
            old(self).terms.has_opt(a.text),
        ensures
            final(self).ok(),
            var_assigned(*final(self), *old(self), v, a),
    {
        proof {
            self.st.lemma_fits(self.body.vars@.len(), self.terms);
        }
        let i = v.0 as usize;
        self.st.vars.set(i, Some(a.term));
        self.st.str_vars.set(i, a.text);
        self.st.var_widths.set(i, Some(a.width));
        self.st.tainted.set(i, a.tainted);
        self.st.float_tainted.set(i, a.float_tainted);
        proof {
            reveal(State::fits);
            assert(state::vars_in(self.terms, self.st.vars@)) by {
                assert(state::vars_in(self.terms, old(self).st.vars@));
            }
            assert(state::vars_in(self.terms, self.st.str_vars@)) by {
                assert(state::vars_in(self.terms, old(self).st.str_vars@));
            }
        }
    }

    /// Store in a static field.
    pub fn put_static(&mut self, f: &FieldKey, val: &Operand)
        requires
            old(self).ok(),
            val.in_range(old(self).body.vars@.len()),
        ensures
            static_stored(*final(self), *old(self), *f, *val),
    {
        let tainted = self.operand_tainted(val);
        let t = self.encode_operand(val);
        let ghost settled = *self;
        proof {
            old(self).st.lemma_fits(self.body.vars@.len(), old(self).terms);
            settled.st.lemma_fits(self.body.vars@.len(), settled.terms);
            settled.lemma_text_kept(*old(self), *val);
        }
        let text = self.encode_str_operand(val);
        let ghost read = *self;
        proof {
            read.lemma_settled_trans(settled, *old(self));
            read.lemma_operand_same(settled, *val);
            read.st.lemma_fits(self.body.vars@.len(), read.terms);
        }
        self.st.statics.insert(f.clone(), t);
        if tainted {
            self.st.static_tainted.insert(f.clone(), ());
        } else {
            self.st.static_tainted.remove(f);
        }
        match text {
            Some(s) => {
                self.st.static_str.insert(f.clone(), s);
            },
            None => {
                self.st.static_str.remove(f);
            },
        }
        proof {
            reveal(State::fits);
            assert forall|k: FieldKeyV| self.terms.has_opt(#[trigger] self.st.statics.at(k)) by {
                assert(self.terms.has_opt(read.st.statics.at(k)));
            }
            assert forall|k: FieldKeyV| self.terms.has_opt(#[trigger] self.st.static_str.at(k)) by {
                assert(self.terms.has_opt(read.st.static_str.at(k)));
            }
        }
    }

    /// The content of a string does not depend on what is settled.
    pub proof fn lemma_text_kept(self, old: Encoder<'a>, op: Operand)
        requires
            old.ok(),
            op.in_range(old.body.vars@.len()),
            self.settled_from(old),
        ensures
            self.str_tm(op) == old.str_tm(op),
    {
        old.st.lemma_fits(old.body.vars@.len(), old.terms);
        if let Operand::Var(v) = op {
            assert(old.terms.has_opt(old.st.str_vars@[v.0 as int]));
        }
    }

    /// Store in an instance field.
    pub fn put_field(&mut self, obj: &Operand, f: &FieldKey, val: &Operand)
        requires
            old(self).ok(),
            obj.in_range(old(self).body.vars@.len()),
            val.in_range(old(self).body.vars@.len()),
        ensures
            field_stored(*final(self), *old(self), *obj, *f, *val),
    {
        let tainted = self.operand_tainted(val);
        let (o, x) = self.encode_pair(obj, val);
        let ghost settled = *self;
        let k = self.field_key_resolved(f);
        let w = field_elem_width(f.desc.as_str());
        let arr = self.get_field_array(&k, w);
        let ghost opened = *self;
        let stored = self.terms.app3(Op3::Store, arr, o, x);
        let ghost built = *self;
        proof {
            old(self).st.lemma_fits(self.body.vars@.len(), old(self).terms);
            opened.lemma_open_after_settle(settled, *old(self), k@, w);
            built.lemma_open_then_build(opened, *old(self), k@, w);
            opened.lemma_operand_same(settled, *obj);
            opened.lemma_operand_same(settled, *val);
            built.lemma_operand_same(opened, *obj);
            built.lemma_operand_same(opened, *val);
            built.st.lemma_fits(self.body.vars@.len(), built.terms);
            assert(old(self).terms.has_opt(old(self).st.field_arrays.at(k@)));
            if old(self).st.field_arrays.at(k@) is None {
                assert(opened.field_tm(k@) == old(self).initial_field(
                    k@,
                    w,
                    (opened.st.field_arrays.at(k@)->0).pos(),
                ));
            }
        }
        let ghost key = k@;
        if tainted {
            self.st.field_tainted.insert(k.clone(), ());
        } else {
            self.st.field_tainted.remove(&k);
        }
        self.st.field_arrays.insert(k, stored);
        proof {
            reveal(State::fits);
            assert forall|y: FieldKeyV| self.terms.has_opt(#[trigger] self.st.field_arrays.at(y)) by {
                assert(self.terms.has_opt(built.st.field_arrays.at(y)));
            }
        }
    }
}

} // verus!
