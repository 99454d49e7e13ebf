//! Running the program.

use vstd::prelude::*;

use super::entry;
use super::entry::make_clinit;
use super::machine;
use super::machine::{
    Answer, AnswerV, Flow, Given, Moved, Outcome, OutcomeV, Request, State, MAX_CALL_DEPTH,
};
use super::value;
use super::value::{eval_op, eval_rvalue, eval_var, Value};
use crate::assoc::{Assoc, TextMap};
use crate::ir;
use crate::ir::{
    Block, BlockId, Body, Const, FieldKey, MethodKey, MethodKeyV, ObligationId, Operand, Rvalue,
    Stmt, Terminator, Ty, VarId, VarInfo, VarKind,
};
use crate::models::Models;
use crate::program;
use crate::program::{in_list, Program};
use crate::smt_bmc::frames;
use crate::smt_bmc::frames::find_local;
use crate::text::{chars_of, same};
use crate::verdict;
use crate::verdict::{NondetEntry, NondetValue};

verus! {

/// The views of answers.
pub open spec fn answer_views(v: Seq<Answer>) -> Seq<AnswerV> {
    v.map_values(|a: Answer| a@)
}

/// An execution.
pub struct Machine<'a> {
    pub prog: &'a Program,
    pub models: &'a Models,
    pub choices: &'a Vec<i64>,
    pub answers: &'a Vec<Answer>,
    pub choice: usize,
    pub entries: Vec<NondetEntry>,
    pub steps: u64,
    pub alloc: u64,
    pub types: TextMap<u64>,
    pub lengths: Assoc<u64, i64>,
    pub texts: TextMap<u64>,
    pub builders: TextMap<u64>,
    pub fields: Assoc<(u64, String), Value>,
    pub statics: Assoc<(String, String), Value>,
    pub depth: u64,
    pub inits: Vec<String>,
    pub answered: usize,
}

/// The names in a list.
pub open spec fn name_set(v: Seq<String>) -> Set<Seq<char>> {
    Set::new(|c: Seq<char>| program::listed(v, c))
}

proof fn lemma_name_set_push(v: Seq<String>, s: String)
    ensures
        name_set(v.push(s)) == name_set(v).insert(s@),
{
    let w = v.push(s);
    assert forall|c: Seq<char>| #[trigger] name_set(w).contains(c) == name_set(v).insert(s@).contains(
        c,
    ) by {
        if program::listed(v, c) {
            let i = choose|i: int| 0 <= i < v.len() && (#[trigger] v[i])@ == c;
            assert(w[i]@ == c);
        }
        if c == s@ {
            assert(w[v.len() as int]@ == c);
        }
        if program::listed(w, c) && c != s@ {
            let i = choose|i: int| 0 <= i < w.len() && (#[trigger] w[i])@ == c;
            assert(v[i]@ == c);
        }
    }
    assert(name_set(w) =~= name_set(v).insert(s@));
}

impl<'a> Machine<'a> {
    /// What the execution is given.
    pub open spec fn given(self) -> Given {
        Given {
            prog: *self.prog,
            models: *self.models,
            choices: self.choices@,
            answers: answer_views(self.answers@),
        }
    }

    /// The state.
    pub open spec fn state(self) -> State {
        State {
            choice: self.choice as nat,
            entries: verdict::entry_views(self.entries@),
            steps: self.steps as nat,
            alloc: self.alloc,
            types: self.types.map(),
            lengths: self.lengths.map(),
            texts: self.texts.map(),
            builders: self.builders.map(),
            fields: self.fields.map(),
            statics: self.statics.map(),
            depth: self.depth as nat,
            inits: name_set(self.inits@),
            answered: self.answered as nat,
        }
    }

    /// The calls that the steps that are left can make are countable.
    pub open spec fn ok(self) -> bool {
        &&& self.depth + self.steps <= u64::MAX
        &&& self.choice <= self.choices@.len()
        &&& self.answered <= self.answers@.len()
    }

    /// There is room for one step more.
    pub open spec fn room(self) -> bool {
        &&& self.ok()
        &&& self.depth + self.steps + 1 <= u64::MAX
    }

    /// The execution is the same, and no step was added.
    pub open spec fn follows(self, old: Machine<'a>) -> bool {
        &&& self.ok()
        &&& self.given() == old.given()
        &&& self.prog == old.prog
        &&& self.steps <= old.steps
        &&& self.depth == old.depth
    }

    /// An execution at its start.
    pub fn new(
        prog: &'a Program,
        models: &'a Models,
        choices: &'a Vec<i64>,
        answers: &'a Vec<Answer>,
        steps: u64,
    ) -> (m: Self)
        ensures
            m.ok(),
            m.given() == (Given {
                prog: *prog,
                models: *models,
                choices: choices@,
                answers: answer_views(answers@),
            }),
            m.prog == prog,
            m.state() == machine::initial(steps as nat),
    {
        let m = Machine {
            prog,
            models,
            choices,
            answers,
            choice: 0,
            entries: Vec::new(),
            steps,
            alloc: 2,
            types: TextMap::new(),
            lengths: Assoc::new(),
            texts: TextMap::new(),
            builders: TextMap::new(),
            fields: Assoc::new(),
            statics: Assoc::new(),
            depth: 0,
            inits: Vec::new(),
            answered: 0,
        };
        proof {
            assert(verdict::entry_views(m.entries@) =~= Seq::empty());
            assert(m.lengths.map() =~= Map::empty());
            assert(m.fields.map() =~= Map::empty());
            assert(m.statics.map() =~= Map::empty());
            assert(name_set(m.inits@) =~= Set::empty());
        }
        m
    }

    /// A fresh object.
    fn allocate(&mut self) -> (id: u64)
        requires
            old(self).room(),
        ensures
            final(self).follows(*old(self)),
            id == old(self).alloc,
            final(self).state() == machine::allocated(old(self).state()),
    {
        let id = self.alloc;
        self.alloc = self.alloc.wrapping_add(1);
        id
    }

    fn record(&mut self, value: NondetValue)
        requires
            old(self).ok(),
        ensures
            final(self).follows(*old(self)),
            final(self).alloc == old(self).alloc,
            final(self).steps == old(self).steps,
            final(self).state() == machine::recorded(old(self).state(), value@),
    {
        let m = value.nondet_method();
        let e = NondetEntry { value, nondet_method: m, line: None };
        let ghost ev = e@;
        self.entries.push(e);
        proof {
            assert(verdict::entry_views(self.entries@) =~= verdict::entry_views(
                old(self).entries@,
            ).push(ev));
        }
    }

    /// A nondeterministic input.
    fn eval_nondet(&mut self, ty: Ty) -> (v: Value)
        requires
            old(self).room(),
        ensures
            final(self).follows(*old(self)),
            (final(self).state(), v) == machine::nondet(old(self).given(), old(self).state(), ty),
    {
        let raw: i64 = if self.choice < self.choices.len() {
            let r = self.choices[self.choice];
            self.choice = self.choice + 1;
            r
        } else {
            0
        };
        match ty {
            Ty::Str => {
                let s = String::new();
                proof {
                    assert(s@ =~= Seq::empty());
                }
                self.record(NondetValue::Str(s));
                let id = self.allocate();
                let s = String::new();
                proof {
                    assert(s@ =~= Seq::empty());
                }
                self.texts.insert(id, s);
                Value::Ref(id)
            },
            Ty::Ref => Value::Ref(self.allocate()),
            Ty::Long => {
                self.record(NondetValue::Long(raw));
                Value::I64(raw)
            },
            _ => {
                self.record(NondetValue::Int(raw as i32));
                Value::I32(raw as i32)
            },
        }
    }

    /// A value that the model says nothing about.
    fn eval_havoc(&mut self, ty: Ty) -> (v: Value)
        requires
            old(self).room(),
        ensures
            final(self).follows(*old(self)),
            (final(self).state(), v) == machine::havoc(old(self).state(), ty),
    {
        match ty {
            Ty::Long => Value::I64(0),
            Ty::Str => {
                let id = self.allocate();
                let s = String::new();
                proof {
                    assert(s@ =~= Seq::empty());
                }
                self.texts.insert(id, s);
                Value::Ref(id)
            },
            Ty::Ref => Value::Ref(self.allocate()),
            _ => Value::I32(0),
        }
    }

    /// A new object.
    fn eval_new(&mut self, class: &String) -> (v: Value)
        requires
            old(self).room(),
        ensures
            final(self).follows(*old(self)),
            (final(self).state(), v) == machine::created(old(self).state(), class@),
    {
        let id = self.allocate();
        self.types.insert(id, class.clone());
        if same(class.as_str(), "java/lang/StringBuilder") || same(
            class.as_str(),
            "java/lang/StringBuffer",
        ) {
            let s = String::new();
            proof {
                assert(s@ =~= Seq::empty());
            }
            self.builders.insert(id, s);
        }
        Value::Ref(id)
    }

    /// A new array.
    fn eval_new_array(&mut self, len: Value) -> (v: Value)
        requires
            old(self).room(),
        ensures
            final(self).follows(*old(self)),
            (final(self).state(), v) == machine::array_created(old(self).state(), len),
    {
        let id = self.allocate();
        if let Value::I32(n) = len {
            let ghost had = self.lengths.map();
            self.lengths.insert(id, n as i64);
            proof {
                assert(self.lengths.map() =~= had.insert(id, n as i64));
            }
        }
        Value::Ref(id)
    }

    fn class_has_super(&self, class: &str) -> (r: bool)
        ensures
            r == machine::has_super(*self.prog, class@),
    {
        let mut i: usize = 0;
        while i < self.prog.supers.len()
            invariant
                i <= self.prog.supers@.len(),
                forall|j: int| 0 <= j < i ==> (#[trigger] self.prog.supers@[j]).0@ != class@,
            decreases self.prog.supers@.len() - i,
        {
            if same(self.prog.supers[i].0.as_str(), class) {
                return true;
            }
            i += 1;
        }
        false
    }

    /// Is the object of the class?
    fn eval_instance(&self, obj: Value, class: &str) -> (v: Value)
        ensures
            v == machine::instance(self.given(), self.state(), obj, class@),
    {
        match obj {
            Value::Ref(id) => {
                if id == 0 {
                    return Value::I32(0);
                }
                match self.types.get(&id) {
                    Some(known) => if self.class_has_super(known.as_str())
                        && self.prog.is_subtype(known.as_str(), class) {
                        Value::I32(1)
                    } else {
                        Value::I32(0)
                    },
                    None => Value::Unknown,
                }
            },
            _ => Value::Unknown,
        }
    }

    /// The length of an array.
    fn eval_length(&self, store: &Assoc<VarId, Value>, arr: &Operand) -> (v: Value)
        ensures
            v == machine::length_of(self.state(), store.map(), *arr),
    {
        if let Operand::Var(x) = arr {
            if let Value::Ref(id) = eval_var(store, *x) {
                if let Some(n) = self.lengths.get(&id) {
                    return Value::I32(n as i32);
                }
            }
        }
        Value::Unknown
    }

    /// The value of a field.
    fn eval_field(&self, obj: Value, name: &String) -> (v: Value)
        ensures
            v == machine::field_of(self.state(), obj, name@),
    {
        if let Value::Ref(id) = obj {
            if id != 0 {
                let k = (id, name.clone());
                if let Some(v) = self.fields.get(&k) {
                    return v;
                }
            }
        }
        Value::Unknown
    }

    /// The value of a static field.
    fn eval_static(&self, f: &FieldKey) -> (v: Value)
        ensures
            v == machine::static_of(self.given(), self.state(), *f),
    {
        let k = (f.class.clone(), f.name.clone());
        if let Some(v) = self.statics.get(&k) {
            return v;
        }
        if !self.prog.is_program_class(f.class.as_str()) {
            return Value::Unknown;
        }
        let d = chars_of(f.desc.as_str());
        if d.len() > 0 && d[0] == 'J' {
            Value::I64(0)
        } else if d.len() > 0 && (d[0] == 'L' || d[0] == '[') {
            Value::Ref(0)
        } else {
            Value::I32(0)
        }
    }
}

/// The handler of the block that catches the class: the first one wins.
pub fn route(prog: &Program, block: &Block, class: &str) -> (r: Option<BlockId>)
    ensures
        r == machine::routed(*prog, *block, class@),
        r matches Some(t) ==> exists|i: int|
            0 <= i < block.exceptional@.len() && t == (#[trigger] block.exceptional@[i]).target,
{
    let mut i: usize = 0;
    while i < block.exceptional.len()
        invariant
            i <= block.exceptional@.len(),
            machine::routed(*prog, *block, class@) == machine::route_from(
                *prog,
                block.exceptional@,
                class@,
                i as nat,
            ),
        decreases block.exceptional@.len() - i,
    {
        let e = &block.exceptional[i];
        let caught = match &e.class {
            None => true,
            Some(c) => prog.is_subtype(class, c.as_str()),
        };
        if caught {
            return Some(e.target);
        }
        i += 1;
    }
    None
}

fn apply_texts(m: &mut TextMap<u64>, v: &Vec<(u64, String)>)
    ensures
        final(m).map() == machine::stored(
            old(m).map(),
            machine::text_views(v@),
            v@.len(),
        ),
{
    let mut i: usize = 0;
    let ghost all = machine::text_views(v@);
    while i < v.len()
        invariant
            i <= v@.len(),
            all == machine::text_views(v@),
            m.map() == machine::stored(old(m).map(), all, i as nat),
        decreases v@.len() - i,
    {
        m.insert(v[i].0, v[i].1.clone());
        i += 1;
    }
}

/// The values of operands.
fn eval_all(store: &Assoc<VarId, Value>, args: &Vec<Operand>) -> (r: Vec<Value>)
    ensures
        r@ == machine::values(store.map(), args@),
{
    let mut r: Vec<Value> = Vec::new();
    let mut i: usize = 0;
    while i < args.len()
        invariant
            i <= args@.len(),
            r@ =~= machine::values(store.map(), args@).take(i as int),
        decreases args@.len() - i,
    {
        r.push(eval_op(store, &args[i]));
        i += 1;
    }
    r
}

fn copy_operands(args: &Vec<Operand>) -> (r: Vec<Operand>)
    ensures
        ir::operand_views(r@) == ir::operand_views(args@),
{
    let mut r: Vec<Operand> = Vec::new();
    let mut i: usize = 0;
    while i < args.len()
        invariant
            i <= args@.len(),
            r@ =~= args@.take(i as int),
        decreases args@.len() - i,
    {
        r.push(args[i].clone());
        i += 1;
    }
    proof {
        assert(r@ =~= args@);
    }
    r
}

/// The variables of a callee.
fn pass(infos: &Vec<VarInfo>, args: &Vec<Value>) -> (store: Assoc<VarId, Value>)
    ensures
        store.map() == machine::passed(infos@, args@, args@.len()),
{
    let mut store: Assoc<VarId, Value> = Assoc::new();
    proof {
        assert(store.map() =~= Map::empty());
    }
    let mut slot: u32 = 0;
    let mut i: usize = 0;
    while i < args.len()
        invariant
            i <= args@.len(),
            slot == frames::slot_of(infos@, i as nat),
            slot <= 65537,
            store.map() == machine::passed(infos@, args@, i as nat),
        decreases args@.len() - i,
    {
        let mut step: u32 = 1;
        if let Some(v) = find_local(infos, slot) {
            let ghost had = store.map();
            store.insert(VarId(v as u32), args[i]);
            proof {
                assert(store.map() =~= had.insert(VarId(v as u32), args@[i as int]));
            }
            if infos[v].ty.is_wide() {
                step = 2;
            }
        }
        if slot <= 65535 {
            slot = slot + step;
        }
        i += 1;
    }
    store
}

/// Does the condition hold?
fn eval_condition(store: &Assoc<VarId, Value>, o: &Operand) -> (r: Option<bool>)
    ensures
        r == machine::condition(store.map(), *o),
{
    match o {
        Operand::Const(Const::Int(v)) => Some(*v != 0),
        Operand::Var(v) => {
            let x = eval_var(store, *v);
            if let Value::Unknown = x {
                None
            } else {
                Some(x.nonzero())
            }
        },
        _ => None,
    }
}

fn stack_bottom(infos: &Vec<VarInfo>) -> (r: Option<VarId>)
    ensures
        r == machine::bottom_from(infos@, 0),
{
    let mut i: usize = 0;
    while i < infos.len()
        invariant
            i <= infos@.len(),
            machine::bottom_from(infos@, 0) == machine::bottom_from(infos@, i as nat),
        decreases infos@.len() - i,
    {
        if let VarKind::Stack(0) = infos[i].kind {
            return Some(VarId(i as u32));
        }
        i += 1;
    }
    None
}

fn pick_case(cases: &Vec<(i32, BlockId)>, default: BlockId, k: i32) -> (r: BlockId)
    ensures
        r == machine::case_from(cases@, default, k, 0),
        r == default || exists|i: int| 0 <= i < cases@.len() && r == (#[trigger] cases@[i]).1,
{
    let mut i: usize = 0;
    while i < cases.len()
        invariant
            i <= cases@.len(),
            machine::case_from(cases@, default, k, 0) == machine::case_from(
                cases@,
                default,
                k,
                i as nat,
            ),
        decreases cases@.len() - i,
    {
        if cases[i].0 == k {
            return cases[i].1;
        }
        i += 1;
    }
    default
}

impl Flow {
    /// Execution goes on in a block that exists.
    pub open spec fn inside(self, blocks: nat) -> bool {
        self matches Flow::To(t) ==> t.0 < blocks
    }
}

impl<'a> Machine<'a> {
    /// A call that is computed elsewhere.
    fn consult(&mut self, store: &Assoc<VarId, Value>, target: &MethodKey, args: &Vec<Operand>) -> (r:
        Result<Value, Outcome>)
        requires
            old(self).room(),
        ensures
            final(self).follows(*old(self)),
            (final(self).state(), result_view(r)) == machine::consulted(
                old(self).given(),
                old(self).state(),
                store.map(),
                *target,
                args@,
            ),
    {
        if self.answered < self.answers.len() {
            let a = &self.answers[self.answered];
            proof {
                assert(self.given().answers[self.answered as int] == a@);
            }
            apply_texts(&mut self.texts, &a.texts);
            apply_texts(&mut self.builders, &a.builders);
            self.alloc = self.alloc.wrapping_add(a.fresh as u64);
            self.answered = self.answered + 1;
            Ok(a.value)
        } else {
            Err(
                Outcome::Ask(
                    Request {
                        target: target.clone(),
                        args: copy_operands(args),
                        values: eval_all(store, args),
                        texts: self.texts.copy(),
                        builders: self.builders.copy(),
                        alloc: self.alloc,
                    },
                ),
            )
        }
    }

    /// A failed check.
    fn fail_check(
        &mut self,
        body: &Body,
        b: &Block,
        oid: ObligationId,
        store: &mut Assoc<VarId, Value>,
    ) -> (f: Flow)
        requires
            old(self).room(),
            body.well_formed(),
            oid.0 < body.obligations@.len(),
            body.blocks@.contains(*b),
            machine::condition(old(store).map(), body.obligations@[oid.0 as int].cond) == Some(
                false,
            ),
        ensures
            final(self).follows(*old(self)),
            f.inside(body.blocks@.len()),
            (Moved { st: final(self).state(), store: final(store).map(), flow: f@ })
                == machine::checked(
                old(self).given(),
                *body,
                *b,
                old(self).state(),
                old(store).map(),
                oid,
            ),
    {
        let ob = body.obligation(oid);
        let target = match self.models.exception_class(ob.kind) {
            Some(c) => route(self.prog, b, c),
            None => None,
        };
        match target {
            Some(t) => {
                proof {
                    lemma_target(*body, *b, t);
                }
                if let Some(v) = stack_bottom(&body.vars) {
                    let id = self.allocate();
                    let ghost had = store.map();
                    store.insert(v, Value::Ref(id));
                    proof {
                        assert(store.map() =~= had.insert(v, Value::Ref(id)));
                    }
                }
                Flow::To(t)
            },
            None => {
                let mut entries: Vec<NondetEntry> = Vec::new();
                std::mem::swap(&mut entries, &mut self.entries);
                proof {
                    assert(verdict::entry_views(self.entries@) =~= Seq::empty());
                }
                Flow::Exit(Outcome::Violated { method: body.key.clone(), oid, entries })
            },
        }
    }

    /// A check.
    fn eval_check(
        &mut self,
        body: &Body,
        b: &Block,
        oid: ObligationId,
        store: &mut Assoc<VarId, Value>,
    ) -> (f: Flow)
        requires
            old(self).room(),
            body.well_formed(),
            oid.0 < body.obligations@.len(),
            body.blocks@.contains(*b),
        ensures
            final(self).follows(*old(self)),
            f.inside(body.blocks@.len()),
            (Moved { st: final(self).state(), store: final(store).map(), flow: f@ })
                == machine::checked(
                old(self).given(),
                *body,
                *b,
                old(self).state(),
                old(store).map(),
                oid,
            ),
    {
        match eval_condition(store, &body.obligation(oid).cond) {
            None => Flow::Exit(Outcome::Inconclusive),
            Some(true) => Flow::Next,
            Some(false) => self.fail_check(body, b, oid, store),
        }
    }

    /// An exception of the class is raised in the block.
    fn throw(&self, body: &Body, b: &Block, class: String) -> (f: Flow)
        requires
            body.well_formed(),
            body.blocks@.contains(*b),
        ensures
            f.inside(body.blocks@.len()),
            f@ == machine::thrown(self.given(), *b, class@),
    {
        match route(self.prog, b, class.as_str()) {
            Some(t) => {
                proof {
                    lemma_target(*body, *b, t);
                }
                Flow::To(t)
            },
            None => Flow::Exit(Outcome::Threw(class)),
        }
    }

    /// What a terminator does.
    fn end_block(&self, body: &Body, b: &Block, store: &Assoc<VarId, Value>) -> (f: Flow)
        requires
            body.well_formed(),
            body.blocks@.contains(*b),
        ensures
            f.inside(body.blocks@.len()),
            !(f is Next),
            f@ == machine::ended(self.given(), *b, self.state(), store.map()),
    {
        proof {
            let i = choose|i: int| 0 <= i < body.blocks@.len() && body.blocks@[i] == *b;
            assert(body.blocks@[i].in_range(
                body.blocks@.len(),
                body.vars@.len(),
                body.obligations@.len(),
            ));
        }
        let ghost ts = ir::term_targets(b.term);
        match &b.term {
            Terminator::Goto(t) => {
                proof {
                    assert(ts[0] == *t);
                }
                Flow::To(*t)
            },
            Terminator::Branch { cond, then_, else_ } => {
                proof {
                    assert(ts[0] == *then_ && ts[1] == *else_);
                }
                let v = eval_op(store, cond);
                if let Value::Unknown = v {
                    return Flow::Exit(Outcome::Inconclusive);
                }
                if v.nonzero() {
                    Flow::To(*then_)
                } else {
                    Flow::To(*else_)
                }
            },
            Terminator::Switch { value, cases, default } => {
                let k = match value {
                    Operand::Var(x) => eval_var(store, *x).as_i64() as i32,
                    Operand::Const(Const::Int(n)) => *n,
                    _ => 0,
                };
                let t = pick_case(cases, *default, k);
                proof {
                    assert(ts[cases@.len() as int] == *default);
                    if t != *default {
                        let i = choose|i: int|
                            0 <= i < cases@.len() && t == (#[trigger] cases@[i]).1;
                        assert(ts[i] == t);
                    }
                }
                Flow::To(t)
            },
            Terminator::Return(Some(o)) => Flow::Exit(Outcome::Returned(eval_op(store, o))),
            Terminator::Return(None) => Flow::Exit(Outcome::Clean),
            Terminator::Halt => Flow::Exit(Outcome::Halted),
            Terminator::Throw(o) => {
                if let Operand::Var(x) = o {
                    if let Value::Ref(id) = eval_var(store, *x) {
                        if let Some(c) = self.types.get(&id) {
                            return self.throw(body, b, c.clone());
                        }
                    }
                }
                Flow::Exit(Outcome::Inconclusive)
            },
            Terminator::Diverge(_) => Flow::Exit(Outcome::Inconclusive),
        }
    }
}

/// The view of a result.
pub open spec fn result_view(r: Result<Value, Outcome>) -> Result<Value, OutcomeV> {
    match r {
        Ok(v) => Ok(v),
        Err(o) => Err(o@),
    }
}

proof fn lemma_target(body: Body, b: Block, t: BlockId)
    requires
        body.well_formed(),
        body.blocks@.contains(b),
        exists|i: int|
            0 <= i < b.exceptional@.len() && t == (#[trigger] b.exceptional@[i]).target,
    ensures
        t.0 < body.blocks@.len(),
{
    let k = choose|k: int| 0 <= k < body.blocks@.len() && body.blocks@[k] == b;
    assert(body.blocks@[k].in_range(
        body.blocks@.len(),
        body.vars@.len(),
        body.obligations@.len(),
    ));
}

fn leave(o: Outcome) -> (r: Result<Value, Outcome>)
    ensures
        result_view(r) == machine::returned(o@),
{
    match o {
        Outcome::Clean => Ok(Value::Unknown),
        Outcome::Inconclusive => Ok(Value::Unknown),
        Outcome::Returned(v) => Ok(v),
        _ => Err(o),
    }
}

impl<'a> Machine<'a> {
    /// Run the initializer of the class, unless that was done before.
    fn ensure_clinit(&mut self, class: &String) -> (r: Option<Outcome>)
        requires
            old(self).room(),
            entry::callable(
                *old(self).prog,
                *old(self).models,
                machine::clinit_key(class@),
            ),
        ensures
            final(self).follows(*old(self)),
            final(self).state() == machine::initialized(
                old(self).given(),
                old(self).state(),
                class@,
            ).0,
            match r {
                Some(o) => machine::initialized(
                    old(self).given(),
                    old(self).state(),
                    class@,
                ).1 == Some(o@),
                None => machine::initialized(
                    old(self).given(),
                    old(self).state(),
                    class@,
                ).1 is None,
            },
        decreases old(self).steps, 2nat,
    {
        if in_list(&self.inits, class.as_str()) {
            return None;
        }
        let name = class.clone();
        proof {
            lemma_name_set_push(self.inits@, name);
        }
        self.inits.push(name);
        let key = make_clinit(class);
        let prog = self.prog;
        match prog.body(&key) {
            Some(body) => {
                self.depth = self.depth + 1;
                let store: Assoc<VarId, Value> = Assoc::new();
                proof {
                    assert(store.map() =~= Map::empty());
                }
                let o = self.run_body(body, store);
                self.depth = self.depth - 1;
                if let Outcome::Ask(_) = &o {
                    Some(o)
                } else {
                    None
                }
            },
            None => None,
        }
    }

    /// Call a method of the program.
    fn try_inline_call(
        &mut self,
        target: &MethodKey,
        args: &Vec<Operand>,
        caller_store: &Assoc<VarId, Value>,
    ) -> (r: Result<Value, Outcome>)
        requires
            old(self).room(),
            entry::callable(*old(self).prog, *old(self).models, target@),
        ensures
            final(self).follows(*old(self)),
            (final(self).state(), result_view(r)) == machine::inlined(
                old(self).given(),
                old(self).state(),
                caller_store.map(),
                target@,
                args@,
            ),
        decreases old(self).steps, 2nat,
    {
        if self.depth >= MAX_CALL_DEPTH as u64 {
            return Ok(Value::Unknown);
        }
        let prog = self.prog;
        match prog.body(target) {
            Some(body) => {
                let values = eval_all(caller_store, args);
                let store = pass(&body.vars, &values);
                self.depth = self.depth + 1;
                let o = self.run_body(body, store);
                self.depth = self.depth - 1;
                leave(o)
            },
            None => Ok(Value::Unknown),
        }
    }

    /// The value of an rvalue, or how execution ends.
    fn eval_assign(&mut self, rv: &Rvalue, store: &Assoc<VarId, Value>) -> (r: Result<Value, Outcome>)
        requires
            old(self).room(),
            forall|k: MethodKeyV| #[trigger]
                entry::rvalue_enters(*old(self).models, *rv, k) ==> entry::callable(
                    *old(self).prog,
                    *old(self).models,
                    k,
                ),
        ensures
            final(self).follows(*old(self)),
            (final(self).state(), result_view(r)) == machine::assigned(
                old(self).given(),
                old(self).state(),
                store.map(),
                *rv,
            ),
        decreases old(self).steps, 3nat,
    {
        match rv {
            Rvalue::Nondet(ty, _) => Ok(self.eval_nondet(*ty)),
            Rvalue::Havoc(ty) => Ok(self.eval_havoc(*ty)),
            Rvalue::New(class) => Ok(self.eval_new(class)),
            Rvalue::NewArray { len, .. } => Ok(self.eval_new_array(eval_op(store, len))),
            Rvalue::InstanceOf { obj, class } => Ok(
                self.eval_instance(eval_op(store, obj), class.as_str()),
            ),
            Rvalue::ArrayLength(arr) => Ok(self.eval_length(store, arr)),
            Rvalue::GetField { obj, field } => Ok(self.eval_field(eval_op(store, obj), &field.name)),
            Rvalue::GetStatic(f) => {
                if same(f.name.as_str(), "$assertionsDisabled") {
                    return Ok(Value::I32(0));
                }
                proof {
                    let k = machine::clinit_key(f.class@);
                    assert(entry::rvalue_enters(*self.models, *rv, k));
                }
                match self.ensure_clinit(&f.class) {
                    Some(o) => Err(o),
                    None => Ok(self.eval_static(f)),
                }
            },
            Rvalue::Call { target, args, .. } => {
                if self.models.is_concrete_math_call(target.class.as_str(), target.name.as_str())
                    || self.models.is_str_owner(target.class.as_str()) {
                    self.consult(store, target, args)
                } else {
                    proof {
                        assert(entry::rvalue_enters(*self.models, *rv, target@));
                    }
                    self.try_inline_call(target, args, store)
                }
            },
            _ => Ok(eval_rvalue(store, rv)),
        }
    }

    /// What a statement does.
    fn step_stmt(&mut self, body: &Body, b: &Block, stmt: &Stmt, store: &mut Assoc<VarId, Value>) -> (f:
        Flow)
        requires
            old(self).room(),
            body.well_formed(),
            body.blocks@.contains(*b),
            ir::stmt_in_range(*stmt, body.vars@.len(), body.obligations@.len()),
            forall|k: MethodKeyV| #[trigger]
                entry::stmt_enters(*old(self).models, *stmt, k) ==> entry::callable(
                    *old(self).prog,
                    *old(self).models,
                    k,
                ),
        ensures
            final(self).follows(*old(self)),
            f.inside(body.blocks@.len()),
            (Moved { st: final(self).state(), store: final(store).map(), flow: f@ })
                == machine::stepped(
                old(self).given(),
                *body,
                *b,
                old(self).state(),
                old(store).map(),
                *stmt,
            ),
        decreases old(self).steps, 4nat,
    {
        match stmt {
            Stmt::Assign(v, rv) => {
                proof {
                    assert forall|k: MethodKeyV| #[trigger]
                        entry::rvalue_enters(*self.models, *rv, k) implies entry::callable(
                        *self.prog,
                        *self.models,
                        k,
                    ) by {
                        assert(entry::stmt_enters(*self.models, *stmt, k));
                    }
                }
                match self.eval_assign(rv, store) {
                    Ok(val) => {
                        let ghost had = store.map();
                        store.insert(*v, val);
                        proof {
                            assert(store.map() =~= had.insert(*v, val));
                        }
                        Flow::Next
                    },
                    Err(Outcome::Threw(c)) => self.throw(body, b, c),
                    Err(o) => Flow::Exit(o),
                }
            },
            Stmt::Assume(o) => {
                if eval_op(store, o).nonzero() {
                    Flow::Next
                } else {
                    Flow::Exit(Outcome::Halted)
                }
            },
            Stmt::PutField { obj, field, val } => {
                let target = eval_op(store, obj);
                let v = eval_op(store, val);
                if let Value::Ref(id) = target {
                    if id != 0 {
                        let ghost had = self.fields.map();
                        self.fields.insert((id, field.name.clone()), v);
                        proof {
                            assert(self.fields.map() =~= had.insert((id, field.name@), v));
                        }
                    }
                }
                Flow::Next
            },
            Stmt::PutStatic(f, val) => {
                proof {
                    let k = machine::clinit_key(f.class@);
                    assert(entry::stmt_enters(*self.models, *stmt, k));
                }
                if let Some(o) = self.ensure_clinit(&f.class) {
                    return Flow::Exit(o);
                }
                let v = eval_op(store, val);
                let ghost had = self.statics.map();
                self.statics.insert((f.class.clone(), f.name.clone()), v);
                proof {
                    assert(self.statics.map() =~= had.insert((f.class@, f.name@), v));
                }
                Flow::Next
            },
            Stmt::Check(oid) => self.eval_check(body, b, *oid, store),
            _ => Flow::Next,
        }
    }

    /// Run a method to its end.
    pub fn run_body(&mut self, body: &Body, start: Assoc<VarId, Value>) -> (o: Outcome)
        requires
            old(self).ok(),
            entry::can_run(*old(self).prog, *old(self).models, *body),
        ensures
            final(self).follows(*old(self)),
            (final(self).state(), o@) == machine::run(
                old(self).given(),
                *body,
                old(self).state(),
                start.map(),
                body.entry,
                0,
            ),
        decreases old(self).steps, 0nat,
    {
        let mut store = start;
        let ghost whole = machine::run(
            self.given(),
            *body,
            self.state(),
            store.map(),
            body.entry,
            0,
        );
        let mut block = body.entry;
        let mut idx: usize = 0;
        loop
            invariant
                self.follows(*old(self)),
                entry::can_run(*self.prog, *self.models, *body),
                block.0 < body.blocks@.len(),
                whole == machine::run(
                    self.given(),
                    *body,
                    self.state(),
                    store.map(),
                    block,
                    idx as nat,
                ),
                whole == machine::run(
                    old(self).given(),
                    *body,
                    old(self).state(),
                    start.map(),
                    body.entry,
                    0,
                ),
            decreases self.steps,
        {
            if self.steps == 0 {
                return Outcome::Inconclusive;
            }
            let b = body.block(block);
            proof {
                assert(body.blocks@[block.0 as int] == *b);
                assert(body.blocks@.contains(*b));
                assert(body.blocks@[block.0 as int].in_range(
                    body.blocks@.len(),
                    body.vars@.len(),
                    body.obligations@.len(),
                ));
            }
            proof {
                if idx < b.stmts@.len() {
                    assert forall|k: MethodKeyV| #[trigger]
                        entry::stmt_enters(*self.models, b.stmts@[idx as int], k) implies entry::callable(
                        *self.prog,
                        *self.models,
                        k,
                    ) by {
                        entry::lemma_callable(
                            *self.prog,
                            *self.models,
                            *body,
                            block.0 as int,
                            idx as int,
                            k,
                        );
                    }
                }
            }
            self.steps = self.steps - 1;
            let flow = if idx >= b.stmts.len() {
                self.end_block(body, b, &store)
            } else {
                self.step_stmt(body, b, &b.stmts[idx], &mut store)
            };
            match flow {
                Flow::Exit(o) => {
                    return o;
                },
                Flow::To(t) => {
                    block = t;
                    idx = 0;
                },
                Flow::Next => {
                    idx = idx + 1;
                },
            }
        }
    }
}

} // verus!
