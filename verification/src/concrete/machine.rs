//! The state of an execution, and what one statement or terminator does to it.
//!
//! Calls of methods on numbers and strings are not computed here: an execution is
//! given their answers in order, and ends with a request where one is missing.

use vstd::prelude::*;

use super::value;
use super::value::{Store, Value};
use crate::assoc::TextMap;
use crate::ir;
use crate::ir::{
    Block, BlockId, Body, Const, ExcEdge, FieldKey, MethodKey, MethodKeyV, ObligationId, Operand,
    OperandV, Rvalue, Stmt, Terminator, Ty, VarId, VarInfo, VarKind,
};
use crate::models::Models;
use crate::program::Program;
use crate::smt_bmc::frames;
use crate::verdict;
use crate::verdict::{NondetEntry, NondetEntryV, NondetValueV};

verus! {

/// How deeply calls are followed.
pub const MAX_CALL_DEPTH: u32 = 20;

/// The answer to a call that is computed elsewhere: its value, the texts of
/// strings and builders that it changes, and the number of objects it allocates.
#[derive(Debug)]
pub struct Answer {
    pub value: Value,
    pub texts: Vec<(u64, String)>,
    pub builders: Vec<(u64, String)>,
    pub fresh: u32,
}

/// View of [`Answer`].
#[verifier::ext_equal]
pub struct AnswerV {
    pub value: Value,
    pub texts: Seq<(u64, Seq<char>)>,
    pub builders: Seq<(u64, Seq<char>)>,
    pub fresh: u32,
}

/// The views of texts by object.
pub open spec fn text_views(v: Seq<(u64, String)>) -> Seq<(u64, Seq<char>)> {
    v.map_values(|p: (u64, String)| (p.0, p.1@))
}

impl View for Answer {
    type V = AnswerV;

    open spec fn view(&self) -> AnswerV {
        AnswerV {
            value: self.value,
            texts: text_views(self.texts@),
            builders: text_views(self.builders@),
            fresh: self.fresh,
        }
    }
}

/// A call that is computed elsewhere: its arguments, their values, and the texts
/// of strings and builders. Fresh objects are numbered from `alloc`.
pub struct Request {
    pub target: MethodKey,
    pub args: Vec<Operand>,
    pub values: Vec<Value>,
    pub texts: TextMap<u64>,
    pub builders: TextMap<u64>,
    pub alloc: u64,
}

/// View of [`Request`].
#[verifier::ext_equal]
pub struct RequestV {
    pub target: MethodKeyV,
    pub args: Seq<OperandV>,
    pub values: Seq<Value>,
    pub texts: Map<u64, Seq<char>>,
    pub builders: Map<u64, Seq<char>>,
    pub alloc: u64,
}

impl View for Request {
    type V = RequestV;

    open spec fn view(&self) -> RequestV {
        RequestV {
            target: self.target@,
            args: ir::operand_views(self.args@),
            values: self.values@,
            texts: self.texts.map(),
            builders: self.builders.map(),
            alloc: self.alloc,
        }
    }
}

/// How an execution ends.
pub enum Outcome {
    /// Returned without a value.
    Clean,
    Returned(Value),
    /// An assumption failed: the path is of no interest.
    Halted,
    /// A check failed and nothing can catch it.
    Violated { method: MethodKey, oid: ObligationId, entries: Vec<NondetEntry> },
    /// Out of budget, or something that is not known.
    Inconclusive,
    /// An exception of the class left the method.
    Threw(String),
    /// An answer is missing.
    Ask(Request),
}

/// View of [`Outcome`].
#[verifier::ext_equal]
pub enum OutcomeV {
    Clean,
    Returned(Value),
    Halted,
    Violated { method: MethodKeyV, oid: ObligationId, entries: Seq<NondetEntryV> },
    Inconclusive,
    Threw(Seq<char>),
    Ask(RequestV),
}

impl View for Outcome {
    type V = OutcomeV;

    open spec fn view(&self) -> OutcomeV {
        match *self {
            Outcome::Clean => OutcomeV::Clean,
            Outcome::Returned(v) => OutcomeV::Returned(v),
            Outcome::Halted => OutcomeV::Halted,
            Outcome::Violated { method, oid, entries } => OutcomeV::Violated {
                method: method@,
                oid,
                entries: verdict::entry_views(entries@),
            },
            Outcome::Inconclusive => OutcomeV::Inconclusive,
            Outcome::Threw(c) => OutcomeV::Threw(c@),
            Outcome::Ask(r) => OutcomeV::Ask(r@),
        }
    }
}

/// What an execution is given.
pub struct Given {
    pub prog: Program,
    pub models: Models,
    pub choices: Seq<i64>,
    pub answers: Seq<AnswerV>,
}

/// The state of an execution. It is shared by the methods that it runs.
#[verifier::ext_equal]
pub struct State {
    /// How many choices were used.
    pub choice: nat,
    pub entries: Seq<NondetEntryV>,
    pub steps: nat,
    /// The next object.
    pub alloc: u64,
    pub types: Map<u64, Seq<char>>,
    pub lengths: Map<u64, i64>,
    pub texts: Map<u64, Seq<char>>,
    pub builders: Map<u64, Seq<char>>,
    /// Fields by object and name.
    pub fields: Map<(u64, Seq<char>), Value>,
    /// Static fields by class and name.
    pub statics: Map<(Seq<char>, Seq<char>), Value>,
    pub depth: nat,
    /// The classes whose initializer was run.
    pub inits: Set<Seq<char>>,
    /// How many answers were used.
    pub answered: nat,
}

/// The state at the start.
pub open spec fn initial(steps: nat) -> State {
    State {
        choice: 0,
        entries: Seq::empty(),
        steps,
        alloc: 2,
        types: Map::empty(),
        lengths: Map::empty(),
        texts: Map::empty(),
        builders: Map::empty(),
        fields: Map::empty(),
        statics: Map::empty(),
        depth: 0,
        inits: Set::empty(),
        answered: 0,
    }
}

/// Where execution goes on.
#[verifier::ext_equal]
pub enum FlowV {
    Next,
    To(BlockId),
    Exit(OutcomeV),
}

/// Where execution goes on.
pub enum Flow {
    Next,
    To(BlockId),
    Exit(Outcome),
}

impl View for Flow {
    type V = FlowV;

    open spec fn view(&self) -> FlowV {
        match *self {
            Flow::Next => FlowV::Next,
            Flow::To(b) => FlowV::To(b),
            Flow::Exit(o) => FlowV::Exit(o@),
        }
    }
}

/// The state and the variables after a statement, and where execution goes on.
#[verifier::ext_equal]
pub struct Moved {
    pub st: State,
    pub store: Store,
    pub flow: FlowV,
}

/// The first handler from `i` on that catches the class.
pub open spec fn route_from(prog: Program, edges: Seq<ExcEdge>, class: Seq<char>, i: nat) -> Option<
    BlockId,
>
    decreases edges.len() - i,
{
    if i >= edges.len() {
        None
    } else {
        let e = edges[i as int];
        if e.class is None || prog.subtype(class, e.class->0@) {
            Some(e.target)
        } else {
            route_from(prog, edges, class, i + 1)
        }
    }
}

/// The handler of the block that catches the class: the first one wins.
pub open spec fn routed(prog: Program, b: Block, class: Seq<char>) -> Option<BlockId> {
    route_from(prog, b.exceptional@, class, 0)
}

/// One more object.
pub open spec fn allocated(st: State) -> State {
    State { alloc: st.alloc.wrapping_add(1), ..st }
}

/// The next choice; 0 beyond the last.
pub open spec fn chosen(g: Given, st: State) -> i64 {
    if st.choice < g.choices.len() {
        g.choices[st.choice as int]
    } else {
        0
    }
}

/// With the choice recorded.
pub open spec fn recorded(st: State, value: NondetValueV) -> State {
    State {
        entries: st.entries.push(
            NondetEntryV { value, nondet_method: value.method(), line: None },
        ),
        ..st
    }
}

/// A nondeterministic input: the next choice, an empty string, or an object.
pub open spec fn nondet(g: Given, st: State, ty: Ty) -> (State, Value) {
    let raw = chosen(g, st);
    let s = State {
        choice: if st.choice < g.choices.len() {
            st.choice + 1
        } else {
            st.choice
        },
        ..st
    };
    match ty {
        Ty::Str => (
            State {
                texts: s.texts.insert(s.alloc, Seq::empty()),
                ..allocated(recorded(s, NondetValueV::Str(Seq::empty())))
            },
            Value::Ref(s.alloc),
        ),
        Ty::Ref => (allocated(s), Value::Ref(s.alloc)),
        Ty::Long => (recorded(s, NondetValueV::Long(raw)), Value::I64(raw)),
        _ => (recorded(s, NondetValueV::Int(raw as i32)), Value::I32(raw as i32)),
    }
}

/// A value that the model says nothing about. It is not part of the witness.
pub open spec fn havoc(st: State, ty: Ty) -> (State, Value) {
    match ty {
        Ty::Long => (st, Value::I64(0)),
        Ty::Str => (
            State { texts: st.texts.insert(st.alloc, Seq::empty()), ..allocated(st) },
            Value::Ref(st.alloc),
        ),
        Ty::Ref => (allocated(st), Value::Ref(st.alloc)),
        _ => (st, Value::I32(0)),
    }
}

/// A new object. Builders start empty.
pub open spec fn created(st: State, class: Seq<char>) -> (State, Value) {
    let s = State { types: st.types.insert(st.alloc, class), ..allocated(st) };
    (
        if class == "java/lang/StringBuilder"@ || class == "java/lang/StringBuffer"@ {
            State { builders: st.builders.insert(st.alloc, Seq::empty()), ..s }
        } else {
            s
        },
        Value::Ref(st.alloc),
    )
}

/// A new array. Its length is known if it is an `int`.
pub open spec fn array_created(st: State, len: Value) -> (State, Value) {
    (
        match len {
            Value::I32(n) => State {
                lengths: st.lengths.insert(st.alloc, n as i64),
                ..allocated(st)
            },
            _ => allocated(st),
        },
        Value::Ref(st.alloc),
    )
}

/// Does the class have a recorded superclass?
pub open spec fn has_super(prog: Program, class: Seq<char>) -> bool {
    exists|i: int| 0 <= i < prog.supers@.len() && (#[trigger] prog.supers@[i]).0@ == class
}

/// Is the object of the class? Only objects that were created here are known,
/// and classes outside the program are of no other.
pub open spec fn instance(g: Given, st: State, obj: Value, class: Seq<char>) -> Value {
    match obj {
        Value::Ref(id) => if id == 0 {
            Value::I32(0)
        } else if st.types.dom().contains(id) {
            value::bit(has_super(g.prog, st.types[id]) && g.prog.subtype(st.types[id], class))
        } else {
            Value::Unknown
        },
        _ => Value::Unknown,
    }
}

/// The length of an array, where it is known.
pub open spec fn length_of(st: State, store: Store, arr: Operand) -> Value {
    match arr {
        Operand::Var(v) => match value::var(store, v) {
            Value::Ref(id) => if st.lengths.dom().contains(id) {
                Value::I32(st.lengths[id] as i32)
            } else {
                Value::Unknown
            },
            _ => Value::Unknown,
        },
        _ => Value::Unknown,
    }
}

/// The value of a field, where it was written.
pub open spec fn field_of(st: State, obj: Value, name: Seq<char>) -> Value {
    match obj {
        Value::Ref(id) => if id != 0 && st.fields.dom().contains((id, name)) {
            st.fields[(id, name)]
        } else {
            Value::Unknown
        },
        _ => Value::Unknown,
    }
}

/// The value of a static field that was not written: zero or null in a class of
/// the program.
pub open spec fn default_static(g: Given, class: Seq<char>, desc: Seq<char>) -> Value {
    if !g.prog.has_class(class) {
        Value::Unknown
    } else if desc.len() > 0 && desc[0] == 'J' {
        Value::I64(0)
    } else if desc.len() > 0 && (desc[0] == 'L' || desc[0] == '[') {
        Value::Ref(0)
    } else {
        Value::I32(0)
    }
}

/// The value of a static field.
pub open spec fn static_of(g: Given, st: State, f: FieldKey) -> Value {
    let k = (f.class@, f.name@);
    if st.statics.dom().contains(k) {
        st.statics[k]
    } else {
        default_static(g, f.class@, f.desc@)
    }
}

/// With the first `n` texts stored.
pub open spec fn stored(m: Map<u64, Seq<char>>, v: Seq<(u64, Seq<char>)>, n: nat) -> Map<u64, Seq<char>>
    decreases n,
{
    if n == 0 {
        m
    } else {
        stored(m, v, (n - 1) as nat).insert(v[n - 1].0, v[n - 1].1)
    }
}

/// The state after an answer.
pub open spec fn answered(st: State, a: AnswerV) -> State {
    State {
        texts: stored(st.texts, a.texts, a.texts.len()),
        builders: stored(st.builders, a.builders, a.builders.len()),
        alloc: st.alloc.wrapping_add(a.fresh as u64),
        answered: st.answered + 1,
        ..st
    }
}

/// The values of operands.
pub open spec fn values(store: Store, args: Seq<Operand>) -> Seq<Value> {
    args.map_values(|o: Operand| value::operand(store, o))
}

/// The request for a call.
pub open spec fn request(st: State, store: Store, target: MethodKey, args: Seq<Operand>) -> RequestV {
    RequestV {
        target: target@,
        args: ir::operand_views(args),
        values: values(store, args),
        texts: st.texts,
        builders: st.builders,
        alloc: st.alloc,
    }
}

/// A call that is computed elsewhere.
pub open spec fn consulted(
    g: Given,
    st: State,
    store: Store,
    target: MethodKey,
    args: Seq<Operand>,
) -> (State, Result<Value, OutcomeV>) {
    if st.answered < g.answers.len() {
        let a = g.answers[st.answered as int];
        (answered(st, a), Ok(a.value))
    } else {
        (st, Err(OutcomeV::Ask(request(st, store, target, args))))
    }
}

/// Is the call computed elsewhere?
pub open spec fn elsewhere(models: Models, target: MethodKey) -> bool {
    models.computes(target.class@, target.name@) || models.owns_strings(target.class@)
}

/// The variables of a callee after the first `n` arguments were passed: each goes
/// to the variable of its local slot, and wide ones take two slots.
pub open spec fn passed(infos: Seq<VarInfo>, args: Seq<Value>, n: nat) -> Store
    decreases n,
{
    if n == 0 {
        Map::empty()
    } else {
        let had = passed(infos, args, (n - 1) as nat);
        match frames::local_from(infos, frames::slot_of(infos, (n - 1) as nat), 0) {
            Some(v) => had.insert(VarId(v as u32), args[n - 1]),
            None => had,
        }
    }
}

/// The initializer of a class.
pub open spec fn clinit_key(class: Seq<char>) -> MethodKeyV {
    MethodKeyV { class, name: "<clinit>"@, desc: "()V"@ }
}

/// What the caller makes of the end of a callee.
pub open spec fn returned(o: OutcomeV) -> Result<Value, OutcomeV> {
    match o {
        OutcomeV::Clean | OutcomeV::Inconclusive => Ok(Value::Unknown),
        OutcomeV::Returned(v) => Ok(v),
        _ => Err(o),
    }
}

/// A call of a method of the program. One that has no body, or is too deep, gives
/// an unknown value.
pub open spec fn inlined(g: Given, st: State, store: Store, target: MethodKeyV, args: Seq<Operand>) -> (
    State,
    Result<Value, OutcomeV>,
)
    decreases st.steps, 2nat,
{
    match g.prog.body_of(target) {
        Some(body) if st.depth < MAX_CALL_DEPTH => {
            let (s, o) = run(
                g,
                body,
                State { depth: st.depth + 1, ..st },
                passed(body.vars@, values(store, args), args.len()),
                body.entry,
                0,
            );
            (State { depth: st.depth, ..s }, returned(o))
        },
        _ => (st, Ok(Value::Unknown)),
    }
}

/// The initializer of the class is run when a static field is first used. How it
/// ends does not matter, unless an answer is missing.
pub open spec fn initialized(g: Given, st: State, class: Seq<char>) -> (State, Option<OutcomeV>)
    decreases st.steps, 2nat,
{
    if st.inits.contains(class) {
        (st, None)
    } else {
        let s = State { inits: st.inits.insert(class), ..st };
        match g.prog.body_of(clinit_key(class)) {
            None => (s, None),
            Some(body) => {
                let (t, o) = run(
                    g,
                    body,
                    State { depth: s.depth + 1, ..s },
                    Map::empty(),
                    body.entry,
                    0,
                );
                (
                    State { depth: s.depth, ..t },
                    if o is Ask {
                        Some(o)
                    } else {
                        None
                    },
                )
            },
        }
    }
}

/// The value of an rvalue, or how execution ends.
pub open spec fn assigned(g: Given, st: State, store: Store, rv: Rvalue) -> (
    State,
    Result<Value, OutcomeV>,
)
    decreases st.steps, 3nat,
{
    match rv {
        Rvalue::Nondet(ty, _) => (nondet(g, st, ty).0, Ok(nondet(g, st, ty).1)),
        Rvalue::Havoc(ty) => (havoc(st, ty).0, Ok(havoc(st, ty).1)),
        Rvalue::New(c) => (created(st, c@).0, Ok(created(st, c@).1)),
        Rvalue::NewArray { len, .. } => {
            let r = array_created(st, value::operand(store, len));
            (r.0, Ok(r.1))
        },
        Rvalue::InstanceOf { obj, class } => (
            st,
            Ok(instance(g, st, value::operand(store, obj), class@)),
        ),
        Rvalue::ArrayLength(arr) => (st, Ok(length_of(st, store, arr))),
        Rvalue::GetField { obj, field } => (
            st,
            Ok(field_of(st, value::operand(store, obj), field.name@)),
        ),
        Rvalue::GetStatic(f) => if f.name@ == "$assertionsDisabled"@ {
            (st, Ok(Value::I32(0)))
        } else {
            let (s, o) = initialized(g, st, f.class@);
            match o {
                Some(o) => (s, Err(o)),
                None => (s, Ok(static_of(g, s, f))),
            }
        },
        Rvalue::Call { target, args, .. } => if elsewhere(g.models, target) {
            consulted(g, st, store, target, args@)
        } else {
            inlined(g, st, store, target@, args@)
        },
        _ => (st, Ok(value::plain(store, rv))),
    }
}

/// The first variable, from `i` on, that is the bottom of the stack.
pub open spec fn bottom_from(infos: Seq<VarInfo>, i: nat) -> Option<VarId>
    decreases infos.len() - i,
{
    if i >= infos.len() {
        None
    } else if infos[i as int].kind == VarKind::Stack(0) {
        Some(VarId(i as u32))
    } else {
        bottom_from(infos, i + 1)
    }
}

/// Does the condition hold? `None` if that is not known.
pub open spec fn condition(store: Store, o: Operand) -> Option<bool> {
    match o {
        Operand::Const(Const::Int(v)) => Some(v != 0),
        Operand::Var(v) => if value::var(store, v) is Unknown {
            None
        } else {
            Some(value::var(store, v).truth())
        },
        _ => None,
    }
}

/// A check: one that fails goes to the handler of its exception, with the
/// exception on the stack; without a handler it is a violation.
pub open spec fn checked(g: Given, body: Body, b: Block, st: State, store: Store, oid: ObligationId) -> Moved {
    let ob = body.obligations@[oid.0 as int];
    match condition(store, ob.cond) {
        None => Moved { st, store, flow: FlowV::Exit(OutcomeV::Inconclusive) },
        Some(true) => Moved { st, store, flow: FlowV::Next },
        Some(false) => {
            let target = match g.models.exception_of(ob.kind) {
                Some(c) => routed(g.prog, b, c),
                None => None,
            };
            match target {
                Some(t) => match bottom_from(body.vars@, 0) {
                    Some(v) => Moved {
                        st: allocated(st),
                        store: store.insert(v, Value::Ref(st.alloc)),
                        flow: FlowV::To(t),
                    },
                    None => Moved { st, store, flow: FlowV::To(t) },
                },
                None => Moved {
                    st: State { entries: Seq::empty(), ..st },
                    store,
                    flow: FlowV::Exit(
                        (OutcomeV::Violated { method: body.key@, oid, entries: st.entries }),
                    ),
                },
            }
        },
    }
}

/// An exception of the class is raised in the block.
pub open spec fn thrown(g: Given, b: Block, class: Seq<char>) -> FlowV {
    match routed(g.prog, b, class) {
        Some(t) => FlowV::To(t),
        None => FlowV::Exit(OutcomeV::Threw(class)),
    }
}

/// What a statement does.
pub open spec fn stepped(g: Given, body: Body, b: Block, st: State, store: Store, s: Stmt) -> Moved
    decreases st.steps, 4nat,
{
    match s {
        Stmt::Assign(v, rv) => {
            let (t, r) = assigned(g, st, store, rv);
            match r {
                Ok(val) => Moved { st: t, store: store.insert(v, val), flow: FlowV::Next },
                Err(OutcomeV::Threw(c)) => Moved { st: t, store, flow: thrown(g, b, c) },
                Err(o) => Moved { st: t, store, flow: FlowV::Exit(o) },
            }
        },
        Stmt::Assume(o) => Moved {
            st,
            store,
            flow: if value::operand(store, o).truth() {
                FlowV::Next
            } else {
                FlowV::Exit(OutcomeV::Halted)
            },
        },
        Stmt::PutField { obj, field, val } => match value::operand(store, obj) {
            Value::Ref(id) if id != 0 => Moved {
                st: State {
                    fields: st.fields.insert((id, field.name@), value::operand(store, val)),
                    ..st
                },
                store,
                flow: FlowV::Next,
            },
            _ => Moved { st, store, flow: FlowV::Next },
        },
        Stmt::PutStatic(f, val) => {
            let (t, o) = initialized(g, st, f.class@);
            match o {
                Some(o) => Moved { st: t, store, flow: FlowV::Exit(o) },
                None => Moved {
                    st: State {
                        statics: t.statics.insert(
                            (f.class@, f.name@),
                            value::operand(store, val),
                        ),
                        ..t
                    },
                    store,
                    flow: FlowV::Next,
                },
            }
        },
        Stmt::Check(oid) => checked(g, body, b, st, store, oid),
        _ => Moved { st, store, flow: FlowV::Next },
    }
}

/// The first case from `i` on with the key, or the default.
pub open spec fn case_from(cases: Seq<(i32, BlockId)>, default: BlockId, k: i32, i: nat) -> BlockId
    decreases cases.len() - i,
{
    if i >= cases.len() {
        default
    } else if cases[i as int].0 == k {
        cases[i as int].1
    } else {
        case_from(cases, default, k, i + 1)
    }
}

/// The number that a switch looks at: 0 for anything but an `int`.
pub open spec fn switch_key(store: Store, o: Operand) -> i32 {
    match o {
        Operand::Var(v) => value::var(store, v).number() as i32,
        Operand::Const(Const::Int(n)) => n,
        _ => 0,
    }
}

/// What a terminator does.
pub open spec fn ended(g: Given, b: Block, st: State, store: Store) -> FlowV {
    match b.term {
        Terminator::Goto(t) => FlowV::To(t),
        Terminator::Branch { cond, then_, else_ } => if value::operand(store, cond) is Unknown {
            FlowV::Exit(OutcomeV::Inconclusive)
        } else if value::operand(store, cond).truth() {
            FlowV::To(then_)
        } else {
            FlowV::To(else_)
        },
        Terminator::Switch { value, cases, default } => FlowV::To(
            case_from(cases@, default, switch_key(store, value), 0),
        ),
        Terminator::Return(Some(o)) => FlowV::Exit(OutcomeV::Returned(value::operand(store, o))),
        Terminator::Return(None) => FlowV::Exit(OutcomeV::Clean),
        Terminator::Halt => FlowV::Exit(OutcomeV::Halted),
        Terminator::Throw(o) => match o {
            Operand::Var(v) => match value::var(store, v) {
                Value::Ref(id) if st.types.dom().contains(id) => thrown(g, b, st.types[id]),
                _ => FlowV::Exit(OutcomeV::Inconclusive),
            },
            _ => FlowV::Exit(OutcomeV::Inconclusive),
        },
        Terminator::Diverge(_) => FlowV::Exit(OutcomeV::Inconclusive),
    }
}

/// A method is run from a statement of a block to its end. Every statement and
/// terminator takes one step of the budget.
pub open spec fn run(g: Given, body: Body, st: State, store: Store, block: BlockId, idx: nat) -> (
    State,
    OutcomeV,
)
    decreases st.steps, 0nat,
{
    if st.steps == 0 {
        (st, OutcomeV::Inconclusive)
    } else {
        let s = State { steps: (st.steps - 1) as nat, ..st };
        let b = body.blocks@[block.0 as int];
        let m = if idx >= b.stmts@.len() {
            Moved { st: s, store, flow: ended(g, b, s, store) }
        } else {
            stepped(g, body, b, s, store, b.stmts@[idx as int])
        };
        if m.st.steps >= st.steps {
            (m.st, OutcomeV::Inconclusive)
        } else {
            match m.flow {
                FlowV::Exit(o) => (m.st, o),
                FlowV::To(t) => run(g, body, m.st, m.store, t, 0),
                FlowV::Next => run(g, body, m.st, m.store, block, idx + 1),
            }
        }
    }
}

} // verus!
