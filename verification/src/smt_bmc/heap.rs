//! Objects, arrays, fields, types and inputs.

use vstd::prelude::*;

use super::encode;
use super::encode::{assert_nonzero, nonzero_constraint, state_nondet};
use super::formula::flag;
use super::formula;
use super::state;
use super::state::{width_of_ty, ArrayEntry, Encoder, NondetTerm, State};
use crate::desc;
use crate::desc::{field_elem_width, is_ref_desc};
use crate::ir::{Const, FieldKey, FieldKeyV, Operand, Ty};
use crate::program;
use crate::term;
use crate::term::{Op1, Op2, Op3, Term, Tm};
use crate::text;
use crate::text::{numbered, same};

verus! {

/// The field, named by the class that declares it.
pub open spec fn resolved(e: Encoder, f: FieldKey) -> FieldKeyV {
    FieldKeyV {
        class: program::owner_of(e.prog.field_owners@, f@),
        name: f.name@,
        desc: f.desc@,
    }
}

/// Only terms were built and formulas `facts` asserted.
pub open spec fn grown(e: Encoder, old: Encoder, facts: Seq<Tm>) -> bool {
    &&& e.ok()
    &&& e.same_frame(old)
    &&& e.terms.stated_from(old.terms, facts)
    &&& e.st.vars == old.st.vars
}

/// A new input `t` of type `ty`.
pub open spec fn nondet_outcome(e: Encoder, old: Encoder, ty: Ty, b: Option<u8>, t: Term) -> bool {
    let idx = old.st.nondet_terms@.len();
    let x = e.terms.tm(t);
    &&& grown(e, old, encode::nondet_facts(x, ty, b, old.ascii_only))
    &&& x == Tm::FreshBv(
        old.terms.size(),
        "nd_"@ + text::dec(idx),
        state::ty_width(ty),
    )
    &&& e.st == State { nondet_terms: e.st.nondet_terms, ..old.st }
    &&& if ty == Ty::Ref {
        e.st.nondet_terms@ == old.st.nondet_terms@
    } else {
        let nd = e.st.nondet_terms@.last();
        &&& e.st.nondet_terms@ == old.st.nondet_terms@.push(nd)
        &&& nd.idx == idx
        &&& nd.term == t
        &&& nd.width == state::ty_width(ty)
        &&& nd.ty == ty
        &&& nd.text is Some <==> ty == Ty::Str
        &&& ty == Ty::Str ==> e.terms.tm(nd.text->0) == Tm::FreshStr(
            (nd.text->0).pos(),
            "nds_"@ + text::dec(idx),
        )
    }
}

/// The static field is given the value `t`.
pub open spec fn static_set(e: Encoder, old: Encoder, k: FieldKeyV, t: Term) -> bool {
    forall|x: FieldKeyV|
        #[trigger] e.st.statics.at(x) == if x == k {
            Some(t)
        } else {
            old.st.statics.at(x)
        }
}

/// The value `t` of a static field: that last stored; else zero for a class of
/// the program, and an unknown that is not `null` for one of the library.
pub open spec fn static_outcome(e: Encoder, old: Encoder, f: FieldKey, t: Term) -> bool {
    let w = desc::field_width(f.desc@);
    match old.st.statics.at(f@) {
        Some(x) => t == x && e == old,
        None => {
            &&& e.st == State { statics: e.st.statics, ..old.st }
            &&& static_set(e, old, f@, t)
            &&& if old.prog.has_class(f.class@) {
                &&& grown(e, old, seq![])
                &&& e.terms.tm(t) == Tm::Bv(0, w)
            } else {
                &&& e.terms.tm(t) == Tm::FreshBv(old.terms.size(), "static"@, w)
                &&& grown(
                    e,
                    old,
                    if desc::ref_desc(f.desc@) {
                        seq![encode::not_null(e.terms.tm(t))]
                    } else {
                        seq![]
                    },
                )
            }
        },
    }
}

/// The number of a type; new types are numbered in order.
pub open spec fn type_id_outcome(e: Encoder, old: Encoder, class: Seq<char>, id: i64) -> bool {
    &&& e == (Encoder { type_ids: e.type_ids, next_type_id: e.next_type_id, ..old })
    &&& forall|c: Seq<char>|
        #[trigger] e.type_ids.at(c) == if c == class {
            Some(id)
        } else {
            old.type_ids.at(c)
        }
    &&& match old.type_ids.at(class) {
        Some(x) => id == x && e.next_type_id == old.next_type_id,
        None => id == old.next_type_id && e.next_type_id == encode::bump(old.next_type_id),
    }
}

/// Is `id` the number of a known type that is a subtype of `class`?
pub open spec fn numbers_subtype(e: Encoder, class: Seq<char>, id: i64) -> bool {
    exists|c: Seq<char>| #[trigger] e.type_ids.at(c) == Some(id) && e.prog.subtype(c, class)
}

/// The numbers of `class` and its known subtypes, each once.
pub open spec fn subtype_numbers(e: Encoder, old: Encoder, class: Seq<char>, ids: Seq<i64>) -> bool {
    &&& ids.len() >= 1
    &&& type_id_outcome(e, old, class, ids[0])
    &&& ids.no_duplicates()
    &&& forall|id: i64| #[trigger]
        ids.contains(id) <==> id == ids[0] || numbers_subtype(old, class, id)
}

/// A new object `t` of the class.
pub open spec fn new_outcome(e: Encoder, old: Encoder, class: Seq<char>, t: Term) -> bool {
    let typed = Encoder { type_ids: e.type_ids, next_type_id: e.next_type_id, ..old };
    &&& e.ok()
    &&& e.prog == old.prog && e.models == old.models && e.body == old.body
        && e.ascii_only == old.ascii_only
    &&& e.terms.built_from(old.terms)
    &&& type_id_outcome(typed, old, class, e.type_ids.at(class)->0)
    &&& e.next_alloc_id == encode::bump(old.next_alloc_id)
    &&& e.terms.tm(t) == term::bv32(old.next_alloc_id as int)
    &&& e.st == State { type_array: e.st.type_array, ..old.st }
    &&& e.terms.tm(e.st.type_array) == term::t3(
        Op3::Store,
        old.terms.tm(old.st.type_array),
        e.terms.tm(t),
        term::bv32((e.type_ids.at(class)->0) as int),
    )
}

/// A new array `t` of the given length, filled with zeros.
pub open spec fn new_array_outcome(e: Encoder, old: Encoder, len: Operand, t: Term) -> bool {
    let entry = e.st.array_map@.last();
    &&& e.ok()
    &&& e.prog == old.prog && e.models == old.models && e.body == old.body
        && e.ascii_only == old.ascii_only
    &&& e.type_ids == old.type_ids && e.next_type_id == old.next_type_id
    &&& e.terms.built_from(old.terms)
    &&& e.vars_settled(old)
    &&& e.next_alloc_id == encode::bump(old.next_alloc_id)
    &&& e.terms.tm(t) == term::bv32(old.next_alloc_id as int)
    &&& e.knows(len)
    &&& e.st == State { vars: e.st.vars, array_map: e.st.array_map, ..old.st }
    &&& e.st.array_map@ == old.st.array_map@.push(entry)
    &&& entry.reference == t
    &&& e.terms.tm(entry.contents) == term::t1(Op1::ConstArray(32), term::bv32(0))
    &&& e.terms.tm(entry.length) == e.operand_tm(len)
}

/// Whether the object is an instance of the class.
pub open spec fn instance_outcome(
    e: Encoder,
    old: Encoder,
    obj: Operand,
    class: Seq<char>,
    t: Term,
) -> bool {
    let typed = Encoder { type_ids: e.type_ids, next_type_id: e.next_type_id, ..old };
    let is_object = encode::not_null(e.operand_tm(obj));
    &&& e.ok()
    &&& e.prog == old.prog && e.models == old.models && e.body == old.body
        && e.ascii_only == old.ascii_only
    &&& e.next_alloc_id == old.next_alloc_id
    &&& e.terms.built_from(old.terms)
    &&& e.vars_settled(old)
    &&& e.st == State { vars: e.st.vars, ..old.st }
    &&& e.knows(obj)
    &&& if class == "java/lang/Object"@ {
        &&& e.same_frame(old)
        &&& e.terms.tm(t) == formula::flag_tm(is_object)
    } else if obj matches Operand::Const(Const::Str(_)) {
        &&& e.same_frame(old)
        &&& e.terms.tm(t) == term::bv32(
            if old.prog.subtype("java/lang/String"@, class) {
                1
            } else {
                0
            },
        )
    } else {
        exists|ids: Seq<i64>| #[trigger]
            subtype_numbers(typed, old, class, ids) && e.terms.tm(t) == formula::flag_tm(
                term::tm_and(
                    is_object,
                    encode::one_of(
                        term::t2(
                            Op2::Select,
                            old.terms.tm(old.st.type_array),
                            e.operand_tm(obj),
                        ),
                        ids,
                        ids.len(),
                    ),
                ),
            )
    }
}

/// A value was stored in an array. The array is known from then on by its new
/// contents.
pub open spec fn array_stored(e: Encoder, old: Encoder, r: Term, idx: Term, val: Term) -> bool {
    let entry = e.st.array_map@.last();
    let arrays = old.st.array_map@;
    let before = old.terms;
    &&& e.ok()
    &&& e.same_frame(old)
    &&& e.terms.built_from(before)
    &&& e.st == State {
        array_map: e.st.array_map,
        ..old.st
    }
    &&& e.st.array_map@ == arrays.push(entry)
    &&& entry.reference == r
    &&& e.terms.tm(entry.contents) == term::t3(
        Op3::Store,
        encode::contents_tm(
            before,
            arrays,
            arrays.len(),
            before.tm(r),
            encode::unknown_contents(before.size()),
        ),
        before.tm(idx),
        before.tm(val),
    )
    &&& exists|at: nat|
        at >= before.size() && e.terms.tm(entry.length) == encode::length_tm(
            before,
            arrays,
            arrays.len(),
            before.tm(r),
            #[trigger] encode::unknown_length(at),
        )
}

impl<'a> Encoder<'a> {
    /// The contents of the array that a reference stands for.
    pub fn array_contents_lookup(&mut self, r: Term) -> (t: Term)
        requires
            old(self).ok(),
            old(self).terms.has(r),
        ensures
            *final(self) == (Encoder { terms: final(self).terms, ..*old(self) }),
            final(self).terms.built_from(old(self).terms),
            final(self).terms.has(t),
            final(self).terms.tm(t) == encode::contents_tm(
                old(self).terms,
                old(self).st.array_map@,
                old(self).st.array_map@.len(),
                old(self).terms.tm(r),
                encode::unknown_contents(old(self).terms.size()),
            ),
    {
        proof {
            self.st.lemma_fits(self.body.vars@.len(), self.terms);
        }
        let ghost base = encode::unknown_contents(old(self).terms.size());
        let mut result = self.terms.fresh_array("arr_default", 32);
        let mut i: usize = 0;
        while i < self.st.array_map.len()
            invariant
                i <= self.st.array_map@.len(),
                *self == (Encoder { terms: self.terms, ..*old(self) }),
                self.terms.built_from(old(self).terms),
                self.terms.has(result),
                old(self).terms.has(r),
                state::arrays_in(old(self).terms, old(self).st.array_map@),
                self.terms.tm(result) == encode::contents_tm(
                    old(self).terms,
                    old(self).st.array_map@,
                    i as nat,
                    old(self).terms.tm(r),
                    base,
                ),
            decreases self.st.array_map@.len() - i,
        {
            let entry = self.st.array_map[i];
            proof {
                assert(old(self).terms.has(old(self).st.array_map@[i as int].reference));
            }
            let eq = self.terms.equal(r, entry.reference);
            result = self.terms.ite(eq, entry.contents, result);
            i += 1;
        }
        result
    }

    /// The length of the array that a reference stands for.
    pub fn array_length_lookup(&mut self, r: Term) -> (t: Term)
        requires
            old(self).ok(),
            old(self).terms.has(r),
        ensures
            *final(self) == (Encoder { terms: final(self).terms, ..*old(self) }),
            final(self).terms.built_from(old(self).terms),
            final(self).terms.has(t),
            final(self).terms.tm(t) == encode::length_tm(
                old(self).terms,
                old(self).st.array_map@,
                old(self).st.array_map@.len(),
                old(self).terms.tm(r),
                encode::unknown_length(old(self).terms.size()),
            ),
    {
        proof {
            self.st.lemma_fits(self.body.vars@.len(), self.terms);
        }
        let ghost base = encode::unknown_length(old(self).terms.size());
        let mut result = self.terms.fresh_bv("len_default", 32);
        let mut i: usize = 0;
        while i < self.st.array_map.len()
            invariant
                i <= self.st.array_map@.len(),
                *self == (Encoder { terms: self.terms, ..*old(self) }),
                self.terms.built_from(old(self).terms),
                self.terms.has(result),
                old(self).terms.has(r),
                state::arrays_in(old(self).terms, old(self).st.array_map@),
                self.terms.tm(result) == encode::length_tm(
                    old(self).terms,
                    old(self).st.array_map@,
                    i as nat,
                    old(self).terms.tm(r),
                    base,
                ),
            decreases self.st.array_map@.len() - i,
        {
            let entry = self.st.array_map[i];
            proof {
                assert(old(self).terms.has(old(self).st.array_map@[i as int].reference));
            }
            let eq = self.terms.equal(r, entry.reference);
            result = self.terms.ite(eq, entry.length, result);
            i += 1;
        }
        result
    }

    /// An element of the array that a reference stands for.
    pub fn array_select_lookup(&mut self, r: Term, idx: Term) -> (t: Term)
        requires
            old(self).ok(),
            old(self).terms.has(r),
            old(self).terms.has(idx),
        ensures
            *final(self) == (Encoder { terms: final(self).terms, ..*old(self) }),
            final(self).terms.built_from(old(self).terms),
            final(self).terms.has(t),
            final(self).terms.tm(t) == term::t2(
                Op2::Select,
                encode::contents_tm(
                    old(self).terms,
                    old(self).st.array_map@,
                    old(self).st.array_map@.len(),
                    old(self).terms.tm(r),
                    encode::unknown_contents(old(self).terms.size()),
                ),
                old(self).terms.tm(idx),
            ),
    {
        let arr = self.array_contents_lookup(r);
        self.terms.app2(Op2::Select, arr, idx)
    }

    /// Store an element in the array that a reference stands for: a new entry
    /// goes before all earlier ones.
    pub fn array_store_update(&mut self, r: Term, idx: Term, val: Term)
        requires
            old(self).ok(),
            old(self).terms.has(r),
            old(self).terms.has(idx),
            old(self).terms.has(val),
        ensures
            array_stored(*final(self), *old(self), r, idx, val),
    {
        let arr = self.array_contents_lookup(r);
        let contents = self.terms.app3(Op3::Store, arr, idx, val);
        let ghost mid = *self;
        proof {
            self.lemma_built_settles(*old(self));
            old(self).st.lemma_fits(self.body.vars@.len(), old(self).terms);
        }
        let length = self.array_length_lookup(r);
        proof {
            lemma_lengths_same(
                mid.terms,
                old(self).terms,
                mid.st.array_map@,
                mid.st.array_map@.len(),
                old(self).terms.tm(r),
                encode::unknown_length(mid.terms.size()),
            );
            self.lemma_built_settles(*old(self));
        }
        self.st.array_map.push(ArrayEntry { reference: r, contents, length });
        proof {
            reveal(State::fits);
            assert(state::arrays_in(self.terms, old(self).st.array_map@));
        }
    }

    /// A new nondeterministic input.
    pub fn encode_nondet(&mut self, ty: Ty, b: Option<u8>) -> (t: Term)
        requires
            old(self).ok(),
        ensures
            final(self).terms.has(t),
            nondet_outcome(*final(self), *old(self), ty, b, t),
    {
        let w = width_of_ty(&ty);
        let idx = self.st.nondet_terms.len();
        let name = numbered("nd_", idx as u64);
        let t = self.terms.fresh_bv(name.as_str(), w);
        let ghost created = self.terms;
        state_nondet(&mut self.terms, t, ty, b, w, self.ascii_only);
        let ghost stated = self.terms;
        let text = if ty == Ty::Str {
            let name = numbered("nds_", idx as u64);
            Some(self.terms.fresh_str(name.as_str()))
        } else {
            None
        };
        proof {
            stated.lemma_build_then_state(
                created,
                old(self).terms,
                encode::nondet_facts(created.tm(t), ty, b, self.ascii_only),
            );
            if ty == Ty::Str {
                self.terms.lemma_state_then_build(
                    stated,
                    old(self).terms,
                    encode::nondet_facts(created.tm(t), ty, b, self.ascii_only),
                );
            }
            old(self).st.lemma_fits_grown(self.body.vars@.len(), old(self).terms, self.terms);
        }
        if ty != Ty::Ref {
            self.st.nondet_terms.push(NondetTerm { idx, term: t, width: w, ty, text });
            proof {
                reveal(State::fits);
                assert(state::nondets_in(self.terms, old(self).st.nondet_terms@));
            }
        }
        t
    }

    /// The value of a static field.
    pub fn encode_static(&mut self, f: &FieldKey) -> (t: Term)
        requires
            old(self).ok(),
        ensures
            final(self).terms.has(t),
            static_outcome(*final(self), *old(self), *f, t),
    {
        proof {
            self.st.lemma_fits(self.body.vars@.len(), self.terms);
        }
        if let Some(t) = self.st.statics.get(f) {
            proof {
                assert(self.terms.has_opt(self.st.statics.at(f@)));
            }
            return t;
        }
        let w = field_elem_width(f.desc.as_str());
        let t = if self.prog.is_program_class(f.class.as_str()) {
            let t = self.terms.bv_const(0, w);
            proof {
                self.terms.lemma_built_states(old(self).terms);
            }
            t
        } else {
            let t = self.terms.fresh_bv("static", w);
            let ghost created = self.terms;
            proof {
                self.terms.lemma_built_states(old(self).terms);
            }
            if is_ref_desc(f.desc.as_str()) {
                assert_nonzero(&mut self.terms, t);
                proof {
                    self.terms.lemma_build_then_state(
                        created,
                        old(self).terms,
                        seq![encode::not_null(created.tm(t))],
                    );
                }
            }
            t
        };
        proof {
            old(self).st.lemma_fits_grown(self.body.vars@.len(), old(self).terms, self.terms);
        }
        self.st.statics.insert(f.clone(), t);
        proof {
            reveal(State::fits);
            assert(state::assoc_in(self.terms, self.st.statics)) by {
                assert forall|x: FieldKeyV| self.terms.has_opt(#[trigger] self.st.statics.at(x)) by {
                    assert(old(self).terms.has_opt(old(self).st.statics.at(x)));
                }
            }
        }
        t
    }

    /// The key of a field under the class that declares it.
    pub fn field_key_resolved(&self, f: &FieldKey) -> (k: FieldKey)
        ensures
            k@ == resolved(*self, *f),
    {
        FieldKey {
            class: self.prog.resolve_field_class(f),
            name: f.name.clone(),
            desc: f.desc.clone(),
        }
    }

    /// The value of an instance field.
    pub fn encode_field(&mut self, obj: &Operand, f: &FieldKey) -> (t: Term)
        requires
            old(self).ok(),
            obj.in_range(old(self).body.vars@.len()),
        ensures
            final(self).terms.has(t),
            final(self).opened_from(
                *old(self),
                resolved(*old(self), *f),
                desc::field_width(f.desc@),
            ),
            final(self).knows(*obj),
            final(self).terms.tm(t) == term::t2(
                Op2::Select,
                final(self).field_tm(resolved(*old(self), *f)),
                final(self).operand_tm(*obj),
            ),
    {
        let o = self.encode_operand(obj);
        let ghost settled = *self;
        let k = self.field_key_resolved(f);
        let w = field_elem_width(f.desc.as_str());
        let arr = self.get_field_array(&k, w);
        let ghost opened = *self;
        let t = self.terms.app2(Op2::Select, arr, o);
        proof {
            opened.lemma_open_after_settle(settled, *old(self), k@, w);
            opened.lemma_operand_same(settled, *obj);
            self.lemma_open_then_build(opened, *old(self), k@, w);
            self.lemma_operand_same(opened, *obj);
        }
        t
    }

    /// The number of a type.
    pub fn get_type_id(&mut self, class: &String) -> (id: i64)
        ensures
            type_id_outcome(*final(self), *old(self), class@, id),
    {
        if let Some(id) = self.type_ids.get(class) {
            return id;
        }
        let id = self.next_type_id;
        self.next_type_id = encode::next_number(id);
        self.type_ids.insert(class.clone(), id);
        id
    }

    /// The numbers of a class and its known subtypes.
    pub fn subtype_ids(&mut self, class: &String) -> (ids: Vec<i64>)
        ensures
            subtype_numbers(*final(self), *old(self), class@, ids@),
    {
        let mut found: Vec<i64> = Vec::new();
        let mut i: usize = 0;
        while i < self.type_ids.len()
            invariant
                *self == *old(self),
                i <= self.type_ids.len_spec(),
                forall|id: i64| #[trigger]
                    found@.contains(id) <==> exists|j: int|
                        0 <= j < i && self.type_ids.at(#[trigger] self.type_ids.key_spec(j)) == Some(
                            id,
                        ) && self.type_ids.key_spec(j) != class@ && self.prog.subtype(
                            self.type_ids.key_spec(j),
                            class@,
                        ),
            decreases self.type_ids.len_spec() - i,
        {
            let ghost before = found@;
            let k = self.type_ids.key(i);
            proof {
                self.type_ids.lemma_keys();
                assert(self.type_ids.at(self.type_ids.key_spec(i as int)) is Some);
            }
            let fits = !same(k.as_str(), class.as_str()) && self.prog.is_subtype(
                k.as_str(),
                class.as_str(),
            );
            let ghost taken = fits;
            let ghost number = self.type_ids.at(self.type_ids.key_spec(i as int))->0;
            if fits {
                if let Some(id) = self.type_ids.get(k) {
                    found.push(id);
                    proof {
                        assert(found@.last() == id);
                        assert(found@.contains(id)) by {
                            assert(found@[before.len() as int] == id);
                        }
                    }
                }
            }
            proof {
                assert forall|id: i64| #[trigger] found@.contains(id) <==> exists|j: int|
                    0 <= j < i + 1 && self.type_ids.at(#[trigger] self.type_ids.key_spec(j)) == Some(
                        id,
                    ) && self.type_ids.key_spec(j) != class@ && self.prog.subtype(
                        self.type_ids.key_spec(j),
                        class@,
                    ) by {
                    if found@.contains(id) {
                        if before.contains(id) {
                            let j = choose|j: int|
                                0 <= j < i && self.type_ids.at(#[trigger] self.type_ids.key_spec(j))
                                    == Some(id) && self.type_ids.key_spec(j) != class@
                                    && self.prog.subtype(self.type_ids.key_spec(j), class@);
                            assert(0 <= j < i + 1);
                        } else {
                            let p = choose|p: int| 0 <= p < found@.len() && found@[p] == id;
                            if p < before.len() {
                                assert(before[p] == id);
                            }
                            assert(taken && id == number);
                            assert(0 <= i < i + 1 && self.type_ids.at(
                                self.type_ids.key_spec(i as int),
                            ) == Some(id));
                        }
                    }
                    if exists|j: int|
                        0 <= j < i + 1 && self.type_ids.at(#[trigger] self.type_ids.key_spec(j)) == Some(
                            id,
                        ) && self.type_ids.key_spec(j) != class@ && self.prog.subtype(
                            self.type_ids.key_spec(j),
                            class@,
                        ) {
                        let j = choose|j: int|
                            0 <= j < i + 1 && self.type_ids.at(#[trigger] self.type_ids.key_spec(j))
                                == Some(id) && self.type_ids.key_spec(j) != class@
                                && self.prog.subtype(self.type_ids.key_spec(j), class@);
                        if j < i {
                            assert(before.contains(id));
                            let p = choose|p: int| 0 <= p < before.len() && before[p] == id;
                            assert(found@[p] == id);
                        }
                    }
                }
            }
            i += 1;
        }
        let first = self.get_type_id(class);
        let mut ids: Vec<i64> = Vec::new();
        ids.push(first);
        proof {
            assert(ids@[0] == first);
        }
        let mut i: usize = 0;
        while i < found.len()
            invariant
                i <= found@.len(),
                ids@.len() >= 1,
                ids@[0] == first,
                ids@.no_duplicates(),
                forall|id: i64| #[trigger]
                    ids@.contains(id) <==> id == first || found@.take(i as int).contains(id),
            decreases found@.len() - i,
        {
            let ghost before = ids@;
            let id = found[i];
            let mut known = false;
            let mut j: usize = 0;
            while j < ids.len()
                invariant
                    j <= ids@.len(),
                    ids@ == before,
                    known <==> exists|p: int| 0 <= p < j && #[trigger] ids@[p] == id,
                decreases ids@.len() - j,
            {
                if ids[j] == id {
                    known = true;
                }
                j += 1;
            }
            proof {
                assert(known <==> before.contains(id));
            }
            if !known {
                ids.push(id);
            }
            proof {
                let done = found@.take(i as int);
                let next = found@.take(i + 1);
                assert(next =~= done.push(id));
                assert forall|x: i64| #[trigger] ids@.contains(x) <==> x == first || next.contains(x) by {
                    if next.contains(x) {
                        let p = choose|p: int| 0 <= p < next.len() && next[p] == x;
                        if p < i {
                            assert(done[p] == x);
                            assert(before.contains(x));
                        }
                    }
                    if before.contains(x) {
                        let p = choose|p: int| 0 <= p < before.len() && before[p] == x;
                        assert(ids@[p] == x);
                        if x != first {
                            let q = choose|q: int| 0 <= q < done.len() && done[q] == x;
                            assert(next[q] == x);
                        }
                    }
                    if x == id {
                        assert(next[i as int] == x);
                        if !known {
                            assert(ids@[before.len() as int] == x);
                        }
                    }
                    if ids@.contains(x) && !before.contains(x) {
                        let p = choose|p: int| 0 <= p < ids@.len() && ids@[p] == x;
                        if p < before.len() {
                            assert(before[p] == x);
                        }
                        assert(x == id);
                    }
                    if x == first {
                        assert(ids@[0] == x);
                    }
                }
            }
            i += 1;
        }
        proof {
            assert(found@.take(i as int) =~= found@);
            old(self).type_ids.lemma_keys();
            assert forall|id: i64| #[trigger] ids@.contains(id) <==> id == ids@[0] || numbers_subtype(
                *old(self),
                class@,
                id,
            ) by {
                if found@.contains(id) {
                    let j = choose|j: int|
                        0 <= j < old(self).type_ids.len_spec() && old(self).type_ids.at(
                            #[trigger] old(self).type_ids.key_spec(j),
                        ) == Some(id) && old(self).type_ids.key_spec(j) != class@
                            && old(self).prog.subtype(old(self).type_ids.key_spec(j), class@);
                    assert(old(self).type_ids.at(old(self).type_ids.key_spec(j)) == Some(id));
                }
                if numbers_subtype(*old(self), class@, id) {
                    let c = choose|c: Seq<char>| #[trigger]
                        old(self).type_ids.at(c) == Some(id) && old(self).prog.subtype(c, class@);
                    assert(old(self).type_ids.at(c) is Some);
                    let j = choose|j: int|
                        0 <= j < old(self).type_ids.len_spec() && #[trigger] old(self).type_ids.key_spec(j) == c;
                    if c == class@ {
                        assert(id == first);
                    } else {
                        assert(found@.contains(id));
                    }
                }
            }
        }
        ids
    }

    /// A new object.
    pub fn encode_new(&mut self, class: &String) -> (t: Term)
        requires
            old(self).ok(),
        ensures
            final(self).terms.has(t),
            new_outcome(*final(self), *old(self), class@, t),
    {
        proof {
            self.st.lemma_fits(self.body.vars@.len(), self.terms);
        }
        let id = self.next_alloc_id;
        self.next_alloc_id = encode::next_number(id);
        let t = self.terms.bv_const(id, 32);
        let type_id = self.get_type_id(class);
        let type_term = self.terms.bv_const(type_id, 32);
        let types = self.terms.app3(Op3::Store, self.st.type_array, t, type_term);
        proof {
            old(self).st.lemma_fits_grown(self.body.vars@.len(), old(self).terms, self.terms);
        }
        self.st.type_array = types;
        proof {
            reveal(State::fits);
        }
        t
    }

    /// A new array.
    pub fn encode_new_array(&mut self, len: &Operand) -> (t: Term)
        requires
            old(self).ok(),
            len.in_range(old(self).body.vars@.len()),
        ensures
            final(self).terms.has(t),
            new_array_outcome(*final(self), *old(self), *len, t),
    {
        let id = self.next_alloc_id;
        let length = self.encode_operand(len);
        let ghost settled = *self;
        self.next_alloc_id = encode::next_number(id);
        let t = self.terms.bv_const(id, 32);
        let zero = self.terms.bv_const(0, 32);
        let contents = self.terms.app1(Op1::ConstArray(32), zero);
        proof {
            let built = Encoder { terms: self.terms, ..settled };
            built.lemma_settle_then_build(settled, *old(self));
            built.lemma_operand_same(settled, *len);
        }
        self.st.array_map.push(ArrayEntry { reference: t, contents, length });
        proof {
            reveal(State::fits);
            assert(state::arrays_in(self.terms, old(self).st.array_map@));
        }
        t
    }

    /// Whether an object is an instance of a class.
    pub fn encode_instance_of(&mut self, obj: &Operand, class: &String) -> (t: Term)
        requires
            old(self).ok(),
            obj.in_range(old(self).body.vars@.len()),
        ensures
            final(self).terms.has(t),
            instance_outcome(*final(self), *old(self), *obj, class@, t),
    {
        let o = self.encode_operand(obj);
        let ghost settled = *self;
        let is_object = nonzero_constraint(&mut self.terms, o);
        let ghost checked = *self;
        proof {
            checked.lemma_settle_then_build(settled, *old(self));
            checked.lemma_operand_same(settled, *obj);
            old(self).st.lemma_fits(self.body.vars@.len(), old(self).terms);
        }
        if same(class.as_str(), "java/lang/Object") {
            let t = flag(&mut self.terms, is_object);
            proof {
                self.lemma_settle_then_build(checked, *old(self));
                self.lemma_operand_same(checked, *obj);
            }
            return t;
        }
        if let Operand::Const(Const::Str(_)) = obj {
            let is_str = self.prog.is_subtype("java/lang/String", class.as_str());
            let t = self.terms.bv_const(
                if is_str {
                    1
                } else {
                    0
                },
                32,
            );
            proof {
                self.lemma_settle_then_build(checked, *old(self));
                self.lemma_operand_same(checked, *obj);
            }
            return t;
        }
        let obj_type = self.terms.app2(Op2::Select, self.st.type_array, o);
        let ghost typed = term::t2(
            Op2::Select,
            old(self).terms.tm(old(self).st.type_array),
            checked.operand_tm(*obj),
        );
        let ids = self.subtype_ids(class);
        let mut any = self.terms.bool_const(false);
        let ghost renumbered = *self;
        let mut i: usize = 0;
        while i < ids.len()
            invariant
                i <= ids@.len(),
                *self == (Encoder { terms: self.terms, ..renumbered }),
                self.terms.built_from(checked.terms),
                self.terms.has(any),
                self.terms.has(obj_type),
                self.terms.tm(obj_type) == typed,
                self.terms.tm(any) == encode::one_of(typed, ids@, i as nat),
            decreases ids@.len() - i,
        {
            let n = self.terms.bv_const(ids[i], 32);
            let eq = self.terms.equal(obj_type, n);
            any = self.terms.app2(Op2::Or, any, eq);
            i += 1;
        }
        let c = self.terms.app2(Op2::And, is_object, any);
        let t = flag(&mut self.terms, c);
        proof {
            let built = Encoder { terms: self.terms, ..checked };
            built.lemma_settle_then_build(checked, *old(self));
            built.lemma_operand_same(checked, *obj);
            assert(self.st == built.st);
            let numbered_old = Encoder {
                type_ids: self.type_ids,
                next_type_id: self.next_type_id,
                ..*old(self)
            };
            assert(subtype_numbers(numbered_old, *old(self), class@, ids@));
        }
        t
    }
}

/// Contents of known arrays do not depend on terms built later.
pub proof fn lemma_contents_same(
    after: crate::term::Terms,
    before: crate::term::Terms,
    arrays: Seq<ArrayEntry>,
    n: nat,
    r: Tm,
    base: Tm,
)
    requires
        after.built_from(before),
        state::arrays_in(before, arrays),
        n <= arrays.len(),
    ensures
        encode::contents_tm(after, arrays, n, r, base) == encode::contents_tm(
            before,
            arrays,
            n,
            r,
            base,
        ),
    decreases n,
{
    if n > 0 {
        lemma_contents_same(after, before, arrays, (n - 1) as nat, r, base);
        assert(before.has(arrays[n - 1].reference));
    }
}

/// Lengths of known arrays do not depend on terms built later.
pub proof fn lemma_lengths_same(
    after: crate::term::Terms,
    before: crate::term::Terms,
    arrays: Seq<ArrayEntry>,
    n: nat,
    r: Tm,
    base: Tm,
)
    requires
        after.built_from(before),
        state::arrays_in(before, arrays),
        n <= arrays.len(),
    ensures
        encode::length_tm(after, arrays, n, r, base) == encode::length_tm(before, arrays, n, r, base),
    decreases n,
{
    if n > 0 {
        lemma_lengths_same(after, before, arrays, (n - 1) as nat, r, base);
        assert(before.has(arrays[n - 1].reference));
    }
}

} // verus!
