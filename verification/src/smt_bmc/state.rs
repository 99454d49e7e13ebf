//! The symbolic state of one path, and the encoder that extends it.

use vstd::prelude::*;

use crate::assoc::{Assoc, Name};
use crate::ir::{Body, Const, FieldKey, FieldKeyV, MethodKey, MethodKeyV, Operand, Ty, VarId};
use crate::models::Models;
use crate::program::Program;
use crate::term;
use crate::term::{Op1, Term, Terms, Tm};
use crate::text;
use crate::text::numbered;

verus! {

/// A nondeterministic input met on the path: its position among the inputs, the
/// symbol that stands for it, and for strings the symbol of its content.
#[derive(Clone, Copy)]
pub struct NondetTerm {
    pub idx: usize,
    pub term: Term,
    pub width: u32,
    pub ty: Ty,
    pub text: Option<Term>,
}

/// One array known by reference: the reference, its contents and its length.
#[derive(Clone, Copy)]
pub struct ArrayEntry {
    pub reference: Term,
    pub contents: Term,
    pub length: Term,
}

/// Names a loop by its method and the block it returns to.
pub struct LoopKey {
    pub method: MethodKey,
    pub block: u32,
}

/// View of [`LoopKey`].
pub struct LoopKeyV {
    pub method: MethodKeyV,
    pub block: u32,
}

impl View for LoopKey {
    type V = LoopKeyV;

    open spec fn view(&self) -> LoopKeyV {
        LoopKeyV { method: self.method@, block: self.block }
    }
}

impl Name for LoopKey {
    fn same_name(&self, other: &Self) -> (r: bool) {
        self.block == other.block && self.method.same_as(&other.method)
    }

    fn copy_name(&self) -> (r: Self) {
        LoopKey { method: self.method.clone(), block: self.block }
    }
}

/// What is known at one point of one path. Variables are indexed by their
/// number; an entry of `None` has not been assigned or read yet.
pub struct State {
    pub vars: Vec<Option<Term>>,
    /// Content of the strings that variables refer to.
    pub str_vars: Vec<Option<Term>>,
    /// Width of the value last assigned.
    pub var_widths: Vec<Option<u32>>,
    /// Does the value depend on something that is not modelled?
    pub tainted: Vec<bool>,
    /// Does the value depend on floating-point arithmetic?
    pub float_tainted: Vec<bool>,
    /// Did a branch on this path depend on something that is not modelled?
    pub path_tainted: bool,
    pub statics: Assoc<FieldKey, Term>,
    pub static_str: Assoc<FieldKey, Term>,
    pub static_tainted: Assoc<FieldKey, ()>,
    /// Per field, the array from object references to values.
    pub field_arrays: Assoc<FieldKey, Term>,
    pub field_str: Assoc<FieldKey, Term>,
    pub field_tainted: Assoc<FieldKey, ()>,
    pub array_map: Vec<ArrayEntry>,
    /// The array from object references to type numbers.
    pub type_array: Term,
    pub nondet_terms: Vec<NondetTerm>,
    /// How often each loop has been entered again.
    pub loop_visits: Assoc<LoopKey, u32>,
}

/// Every handle stored under a key is one of the store.
pub open spec fn assoc_in(ts: Terms, m: Assoc<FieldKey, Term>) -> bool {
    forall|k: FieldKeyV| ts.has_opt(#[trigger] m.at(k))
}

pub open spec fn vars_in(ts: Terms, v: Seq<Option<Term>>) -> bool {
    forall|i: int| 0 <= i < v.len() ==> ts.has_opt(#[trigger] v[i])
}

pub open spec fn arrays_in(ts: Terms, v: Seq<ArrayEntry>) -> bool {
    forall|i: int|
        0 <= i < v.len() ==> ts.has((#[trigger] v[i]).reference) && ts.has(v[i].contents) && ts.has(
            v[i].length,
        )
}

pub open spec fn nondets_in(ts: Terms, v: Seq<NondetTerm>) -> bool {
    forall|i: int| 0 <= i < v.len() ==> ts.has((#[trigger] v[i]).term) && ts.has_opt(v[i].text)
}

impl State {
    /// The state of `n` variables refers only to terms of the store.
    #[verifier::opaque]
    pub open spec fn fits(self, n: nat, ts: Terms) -> bool {
        &&& self.vars@.len() == n
        &&& self.str_vars@.len() == n
        &&& self.var_widths@.len() == n
        &&& self.tainted@.len() == n
        &&& self.float_tainted@.len() == n
        &&& vars_in(ts, self.vars@)
        &&& vars_in(ts, self.str_vars@)
        &&& assoc_in(ts, self.statics)
        &&& assoc_in(ts, self.static_str)
        &&& assoc_in(ts, self.field_arrays)
        &&& assoc_in(ts, self.field_str)
        &&& arrays_in(ts, self.array_map@)
        &&& ts.has(self.type_array)
        &&& nondets_in(ts, self.nondet_terms@)
    }

    /// A state still fits after the store has grown.
    pub proof fn lemma_fits_grown(self, n: nat, before: Terms, after: Terms)
        requires
            self.fits(n, before),
            before.size() <= after.size(),
        ensures
            self.fits(n, after),
    {
        reveal(State::fits);
    }

    /// What fitting says of the variables.
    pub proof fn lemma_fits(self, n: nat, ts: Terms)
        requires
            self.fits(n, ts),
        ensures
            self.vars@.len() == n,
            self.str_vars@.len() == n,
            self.var_widths@.len() == n,
            self.tainted@.len() == n,
            self.float_tainted@.len() == n,
            vars_in(ts, self.vars@),
            vars_in(ts, self.str_vars@),
            assoc_in(ts, self.statics),
            assoc_in(ts, self.static_str),
            assoc_in(ts, self.field_arrays),
            assoc_in(ts, self.field_str),
            arrays_in(ts, self.array_map@),
            ts.has(self.type_array),
            nondets_in(ts, self.nondet_terms@),
    {
        reveal(State::fits);
    }
}

/// Builds the terms of one method body on top of a state.
pub struct Encoder<'a> {
    pub prog: &'a Program,
    pub models: &'a Models,
    pub body: &'a Body,
    pub terms: Terms,
    pub st: State,
    /// Class name to type number.
    pub type_ids: Assoc<String, i64>,
    pub next_type_id: i64,
    pub next_alloc_id: i64,
    /// Keep inputs that are characters to ASCII.
    pub ascii_only: bool,
}

/// Width in bits of the values of a type.
pub open spec fn ty_width(ty: Ty) -> u32 {
    if ty.wide() {
        64
    } else {
        32
    }
}

/// Width in bits of the values of a type.
pub fn width_of_ty(ty: &Ty) -> (w: u32)
    ensures
        w == ty_width(*ty),
{
    if ty.is_wide() {
        64
    } else {
        32
    }
}

/// The term of a constant. References are numbers: `null` is 0, and a constant
/// object is 1.
pub open spec fn const_tm(c: Const) -> Tm {
    match c {
        Const::Int(n) => term::bv32(n as int),
        Const::Long(n) => Tm::Bv(n as int, 64),
        Const::Null => term::bv32(0),
        Const::Str(_) => term::bv32(1),
        Const::Float(b) => term::bv32(b as int),
        Const::Double(b) => Tm::Bv((b as i64) as int, 64),
        Const::Class(_) => term::bv32(0),
    }
}

/// The name of the symbol that stands for a variable read before it is written.
pub open spec fn uninit_name(v: VarId) -> Seq<char> {
    "uninit_v"@ + text::dec(v.0 as nat)
}

/// The name of the symbol that stands for the contents of a library field.
pub open spec fn field_array_name(k: FieldKeyV) -> Seq<char> {
    "f_"@ + flatten(k.class) + "_"@ + k.name
}

/// The text with every slash replaced by an underscore.
pub open spec fn flatten(s: Seq<char>) -> Seq<char> {
    s.map_values(
        |c: char|
            if c == '/' {
                '_'
            } else {
                c
            },
    )
}

fn make_flat(s: &str) -> (r: String)
    ensures
        r@ == flatten(s@),
{
    let v = text::chars_of(s);
    let mut r = String::new();
    let mut i: usize = 0;
    while i < v.len()
        invariant
            i <= v.len(),
            v@ == s@,
            r@ == flatten(s@.take(i as int)),
        decreases v.len() - i,
    {
        let c = v[i];
        if c == '/' {
            r.push('_');
        } else {
            r.push(c);
        }
        proof {
            assert(flatten(s@.take(i + 1)) =~= flatten(s@.take(i as int)).push(
                if c == '/' {
                    '_'
                } else {
                    c
                },
            ));
        }
        i += 1;
    }
    proof {
        assert(s@.take(i as int) =~= s@);
    }
    r
}

impl<'a> Encoder<'a> {
    /// The parts agree with each other.
    pub open spec fn ok(self) -> bool {
        &&& self.terms.well_formed()
        &&& self.body.well_formed()
        &&& self.st.fits(self.body.vars@.len(), self.terms)
    }

    /// Does the operand need no new symbol?
    pub open spec fn knows(self, op: Operand) -> bool {
        op matches Operand::Var(v) ==> self.st.vars@[v.0 as int] is Some
    }

    /// The tree of an operand that [`Encoder::knows`].
    pub open spec fn operand_tm(self, op: Operand) -> Tm {
        match op {
            Operand::Var(v) => self.terms.tm(self.st.vars@[v.0 as int]->0),
            Operand::Const(c) => const_tm(c),
        }
    }

    /// The declared width of a variable.
    pub open spec fn var_width(self, v: VarId) -> u32 {
        ty_width(self.body.vars@[v.0 as int].ty)
    }

    /// Everything but the store and the state is the same.
    pub open spec fn same_frame(self, old: Encoder<'a>) -> bool {
        &&& self.prog == old.prog
        &&& self.models == old.models
        &&& self.ascii_only == old.ascii_only
        &&& self.body == old.body
        &&& self.type_ids == old.type_ids
        &&& self.next_type_id == old.next_type_id
        &&& self.next_alloc_id == old.next_alloc_id
    }

    /// Variables that had a term keep it, and one that newly has a term has a
    /// fresh symbol of its declared width.
    pub open spec fn vars_settled(self, old: Encoder<'a>) -> bool {
        &&& self.st.vars@.len() == old.st.vars@.len()
        &&& forall|i: int|
            0 <= i < self.st.vars@.len() && old.st.vars@[i] is Some ==> #[trigger] self.st.vars@[i]
                == old.st.vars@[i]
        &&& forall|i: int|
            0 <= i < self.st.vars@.len() && old.st.vars@[i] is None && (
            #[trigger] self.st.vars@[i]) is Some ==> {
                &&& (self.st.vars@[i]->0).pos() >= old.terms.size()
                &&& self.terms.tm(self.st.vars@[i]->0) == Tm::FreshBv(
                    (self.st.vars@[i]->0).pos(),
                    uninit_name(VarId(i as u32)),
                    self.var_width(VarId(i as u32)),
                )
            }
    }

    /// Only terms were built and variables given their first symbol.
    pub open spec fn settled_from(self, old: Encoder<'a>) -> bool {
        &&& self.ok()
        &&& self.same_frame(old)
        &&& self.terms.built_from(old.terms)
        &&& self.vars_settled(old)
        &&& self.st == State { vars: self.st.vars, ..old.st }
    }

    /// Settling twice is settling.
    pub proof fn lemma_settled_trans(self, mid: Encoder<'a>, old: Encoder<'a>)
        requires
            self.settled_from(mid),
            mid.settled_from(old),
            old.ok(),
        ensures
            self.settled_from(old),
    {
        old.st.lemma_fits(old.body.vars@.len(), old.terms);
        mid.st.lemma_fits(mid.body.vars@.len(), mid.terms);
        assert forall|i: int|
            0 <= i < self.st.vars@.len() && old.st.vars@[i] is None && (
            #[trigger] self.st.vars@[i]) is Some implies {
            &&& (self.st.vars@[i]->0).pos() >= old.terms.size()
            &&& self.terms.tm(self.st.vars@[i]->0) == Tm::FreshBv(
                (self.st.vars@[i]->0).pos(),
                uninit_name(VarId(i as u32)),
                self.var_width(VarId(i as u32)),
            )
        } by {
            if mid.st.vars@[i] is Some {
                assert(self.st.vars@[i] == mid.st.vars@[i]);
                assert(mid.terms.has_opt(mid.st.vars@[i]));
                assert(mid.terms.has(mid.st.vars@[i]->0));
            }
        }
        assert forall|i: int|
            0 <= i < self.st.vars@.len() && old.st.vars@[i] is Some implies #[trigger] self.st.vars@[i]
            == old.st.vars@[i] by {
            assert(mid.st.vars@[i] == old.st.vars@[i]);
        }
    }

    /// The tree of an operand does not change by settling others.
    pub proof fn lemma_operand_stable(self, old: Encoder<'a>, op: Operand)
        requires
            self.settled_from(old),
            old.ok(),
            op.in_range(old.body.vars@.len()),
            old.knows(op),
        ensures
            self.knows(op),
            self.operand_tm(op) == old.operand_tm(op),
    {
        old.st.lemma_fits(old.body.vars@.len(), old.terms);
        if let Operand::Var(v) = op {
            assert(self.st.vars@[v.0 as int] == old.st.vars@[v.0 as int]);
            assert(old.terms.has_opt(old.st.vars@[v.0 as int]));
            assert(old.terms.has(old.st.vars@[v.0 as int]->0));
        }
    }

    /// Building further terms is settling.
    pub proof fn lemma_built_settles(self, old: Encoder<'a>)
        requires
            old.ok(),
            self == (Encoder { terms: self.terms, ..old }),
            self.terms.built_from(old.terms),
        ensures
            self.settled_from(old),
    {
        old.st.lemma_fits(old.body.vars@.len(), old.terms);
        old.st.lemma_fits_grown(old.body.vars@.len(), old.terms, self.terms);
    }

    /// The term of a variable, given a fresh symbol at its first use.
    pub fn get_var(&mut self, v: VarId) -> (t: Term)
        requires
            old(self).ok(),
            v.0 < old(self).body.vars@.len(),
        ensures
            final(self).settled_from(*old(self)),
            final(self).st.vars@ == old(self).st.vars@.update(v.0 as int, Some(t)),
            final(self).terms.has(t),
    {
        proof {
            self.st.lemma_fits(self.body.vars@.len(), self.terms);
        }
        if let Some(t) = self.st.vars[v.0 as usize] {
            proof {
                assert(self.st.vars@.update(v.0 as int, Some(t)) =~= self.st.vars@);
                assert(self.terms.has_opt(self.st.vars@[v.0 as int]));
                self.lemma_built_settles(*self);
            }
            return t;
        }
        let w = width_of_ty(&self.body.var(v).ty);
        let name = numbered("uninit_v", v.0 as u64);
        let t = self.terms.fresh_bv(name.as_str(), w);
        self.st.vars.set(v.0 as usize, Some(t));
        proof {
            old(self).st.lemma_fits_grown(self.body.vars@.len(), old(self).terms, self.terms);
            reveal(State::fits);
            assert(vars_in(self.terms, old(self).st.vars@));
            assert(vars_in(self.terms, self.st.vars@));
            assert(VarId(v.0 as int as u32) == v);
        }
        t
    }

    /// The term of an operand.
    pub fn encode_operand(&mut self, op: &Operand) -> (t: Term)
        requires
            old(self).ok(),
            op.in_range(old(self).body.vars@.len()),
        ensures
            final(self).settled_from(*old(self)),
            final(self).terms.has(t),
            final(self).knows(*op),
            final(self).terms.tm(t) == final(self).operand_tm(*op),
    {
        match op {
            Operand::Var(v) => {
                let t = self.get_var(*v);
                proof {
                    old(self).st.lemma_fits(self.body.vars@.len(), old(self).terms);
                }
                t
            },
            Operand::Const(c) => {
                let t = match c {
                    Const::Int(n) => self.terms.bv_const(*n as i64, 32),
                    Const::Long(n) => self.terms.bv_const(*n, 64),
                    Const::Null => self.terms.bv_const(0, 32),
                    Const::Str(_) => self.terms.bv_const(1, 32),
                    Const::Float(b) => self.terms.bv_const(*b as i64, 32),
                    Const::Double(b) => self.terms.bv_const(*b as i64, 64),
                    Const::Class(_) => self.terms.bv_const(0, 32),
                };
                proof {
                    self.lemma_built_settles(*old(self));
                }
                t
            },
        }
    }

    /// The tree of a string operand's content, if that is known.
    pub open spec fn str_tm(self, op: Operand) -> Option<Tm> {
        match op {
            Operand::Var(v) => self.terms.tm_opt(self.st.str_vars@[v.0 as int]),
            Operand::Const(Const::Str(s)) => Some(Tm::Text(s@)),
            _ => None,
        }
    }

    /// The content of a string operand, if that is known.
    pub fn encode_str_operand(&mut self, op: &Operand) -> (r: Option<Term>)
        requires
            old(self).ok(),
            op.in_range(old(self).body.vars@.len()),
        ensures
            final(self).settled_from(*old(self)),
            final(self).st == old(self).st,
            final(self).terms.has_opt(r),
            final(self).terms.tm_opt(r) == old(self).str_tm(*op),
            old(self).str_tm(*op) == final(self).str_tm(*op),
    {
        proof {
            self.st.lemma_fits(self.body.vars@.len(), self.terms);
        }
        let r = match op {
            Operand::Var(v) => {
                proof {
                    assert(self.terms.has_opt(self.st.str_vars@[v.0 as int]));
                }
                self.st.str_vars[v.0 as usize]
            },
            Operand::Const(Const::Str(s)) => Some(self.terms.str_const(s.as_str())),
            _ => None,
        };
        proof {
            self.lemma_built_settles(*old(self));
        }
        r
    }

    /// The array of a field's values before anything is stored in it: zero for a
    /// class of the program, unknown for one of the library.
    pub open spec fn initial_field(self, k: FieldKeyV, w: u32, at: nat) -> Tm {
        if self.prog.has_class(k.class) {
            term::t1(Op1::ConstArray(w), Tm::Bv(0, w))
        } else {
            Tm::FreshArray(at, field_array_name(k), w)
        }
    }

    /// Only terms were built, variables given their first symbol, and the field
    /// `k` given its first array.
    pub open spec fn opened_from(self, old: Encoder<'a>, k: FieldKeyV, w: u32) -> bool {
        &&& self.ok()
        &&& self.same_frame(old)
        &&& self.terms.built_from(old.terms)
        &&& self.vars_settled(old)
        &&& self.st == State {
            vars: self.st.vars,
            field_arrays: self.st.field_arrays,
            ..old.st
        }
        &&& self.st.field_arrays.at(k) is Some
        &&& forall|x: FieldKeyV|
            x != k || old.st.field_arrays.at(k) is Some ==> #[trigger] self.st.field_arrays.at(x)
                == old.st.field_arrays.at(x)
        &&& old.st.field_arrays.at(k) is None ==> self.terms.tm(self.st.field_arrays.at(k)->0)
            == self.initial_field(k, w, (self.st.field_arrays.at(k)->0).pos())
    }

    /// The tree of a field's array.
    pub open spec fn field_tm(self, k: FieldKeyV) -> Tm {
        self.terms.tm(self.st.field_arrays.at(k)->0)
    }

    /// The array of an instance field.
    pub fn get_field_array(&mut self, k: &FieldKey, w: u32) -> (t: Term)
        requires
            old(self).ok(),
        ensures
            final(self).opened_from(*old(self), k@, w),
            final(self).st.vars == old(self).st.vars,
            final(self).terms.has(t),
            final(self).st.field_arrays.at(k@) == Some(t),
    {
        proof {
            self.st.lemma_fits(self.body.vars@.len(), self.terms);
        }
        if let Some(t) = self.st.field_arrays.get(k) {
            proof {
                assert(self.terms.has_opt(self.st.field_arrays.at(k@)));
            }
            return t;
        }
        let t = if self.prog.is_program_class(k.class.as_str()) {
            let zero = self.terms.bv_const(0, w);
            self.terms.app1(Op1::ConstArray(w), zero)
        } else {
            let mut name = "f_".to_string();
            let flat = make_flat(k.class.as_str());
            name.append(flat.as_str());
            name.append("_");
            name.append(k.name.as_str());
            self.terms.fresh_array(name.as_str(), w)
        };
        self.st.field_arrays.insert(k.clone(), t);
        proof {
            old(self).st.lemma_fits_grown(self.body.vars@.len(), old(self).terms, self.terms);
            reveal(State::fits);
            assert(assoc_in(self.terms, old(self).st.field_arrays));
            assert(assoc_in(self.terms, self.st.field_arrays)) by {
                assert forall|x: FieldKeyV| self.terms.has_opt(#[trigger] self.st.field_arrays.at(x)) by {
                    assert(self.terms.has_opt(old(self).st.field_arrays.at(x)));
                }
            }
        }
        t
    }
}

} // verus!
