//! Laws of executions.

use vstd::prelude::*;

use super::machine;
use super::machine::{FlowV, Given, OutcomeV, State};
use super::value;
use super::value::{Store, Value};
use crate::ir::{
    Block, BlockId, Body, ExcEdge, FieldKey, MethodKeyV, ObligationId, Operand, Rvalue, Stmt,
    Terminator, Ty, VarId, VarInfo, VarKind,
};
use crate::smt_bmc::frames;
use crate::verdict::{NondetEntryV, NondetValueV};

verus! {

/// The second execution is given all that the first is given, and perhaps more
/// answers.
pub open spec fn more(g: Given, h: Given) -> bool {
    &&& h.prog == g.prog
    &&& h.models == g.models
    &&& h.choices == g.choices
    &&& g.answers.len() <= h.answers.len()
    &&& forall|i: int| 0 <= i < g.answers.len() ==> #[trigger] h.answers[i] == g.answers[i]
}

/// An execution that does not ask for an answer is not changed by further
/// answers: an execution can be started again with one answer more until it asks
/// no longer.
pub proof fn law_further_answers_change_nothing(
    g: Given,
    h: Given,
    body: Body,
    st: State,
    store: Store,
    block: BlockId,
    idx: nat,
)
    requires
        more(g, h),
        !(machine::run(g, body, st, store, block, idx).1 is Ask),
    ensures
        machine::run(h, body, st, store, block, idx) == machine::run(
            g,
            body,
            st,
            store,
            block,
            idx,
        ),
    decreases st.steps, 0nat,
{
    if st.steps > 0 {
        let s = State { steps: (st.steps - 1) as nat, ..st };
        let b = body.blocks@[block.0 as int];
        lemma_routes(g, h);
        if idx < b.stmts@.len() {
            let stmt = b.stmts@[idx as int];
            let m = machine::stepped(g, body, b, s, store, stmt);
            if !(m.flow matches FlowV::Exit(OutcomeV::Ask(_))) {
                lemma_stepped(g, h, body, b, s, store, stmt);
            }
            lemma_steps(g, body, b, s, store, stmt);
            match m.flow {
                FlowV::Exit(_) => {},
                FlowV::To(t) => {
                    law_further_answers_change_nothing(g, h, body, m.st, m.store, t, 0);
                },
                FlowV::Next => {
                    law_further_answers_change_nothing(g, h, body, m.st, m.store, block, idx + 1);
                },
            }
        } else {
            match machine::ended(g, b, s, store) {
                FlowV::To(t) => {
                    law_further_answers_change_nothing(g, h, body, s, store, t, 0);
                },
                FlowV::Next => {
                    law_further_answers_change_nothing(g, h, body, s, store, block, idx + 1);
                },
                FlowV::Exit(_) => {},
            }
        }
    }
}

/// An execution takes no more than its budget.
pub proof fn law_budget_is_kept(
    g: Given,
    body: Body,
    st: State,
    store: Store,
    block: BlockId,
    idx: nat,
)
    ensures
        machine::run(g, body, st, store, block, idx).0.steps <= st.steps,
    decreases st.steps, 0nat,
{
    if st.steps > 0 {
        let s = State { steps: (st.steps - 1) as nat, ..st };
        let b = body.blocks@[block.0 as int];
        if idx < b.stmts@.len() {
            let stmt = b.stmts@[idx as int];
            let m = machine::stepped(g, body, b, s, store, stmt);
            lemma_steps(g, body, b, s, store, stmt);
            match m.flow {
                FlowV::Exit(_) => {},
                FlowV::To(t) => {
                    law_budget_is_kept(g, body, m.st, m.store, t, 0);
                },
                FlowV::Next => {
                    law_budget_is_kept(g, body, m.st, m.store, block, idx + 1);
                },
            }
        } else {
            match machine::ended(g, b, s, store) {
                FlowV::To(t) => {
                    law_budget_is_kept(g, body, s, store, t, 0);
                },
                FlowV::Next => {
                    law_budget_is_kept(g, body, s, store, block, idx + 1);
                },
                FlowV::Exit(_) => {},
            }
        }
    }
}

proof fn lemma_steps(g: Given, body: Body, b: Block, st: State, store: Store, s: Stmt)
    ensures
        machine::stepped(g, body, b, st, store, s).st.steps <= st.steps,
    decreases st.steps, 4nat,
{
    match s {
        Stmt::Assign(_, rv) => {
            lemma_assigned_steps(g, st, store, rv);
        },
        Stmt::PutStatic(f, _) => {
            lemma_initialized_steps(g, st, f.class@);
        },
        _ => {},
    }
}

proof fn lemma_assigned_steps(g: Given, st: State, store: Store, rv: Rvalue)
    ensures
        machine::assigned(g, st, store, rv).0.steps <= st.steps,
    decreases st.steps, 3nat,
{
    match rv {
        Rvalue::GetStatic(f) => {
            lemma_initialized_steps(g, st, f.class@);
        },
        Rvalue::Call { target, args, .. } => {
            if !machine::elsewhere(g.models, target) {
                match g.prog.body_of(target@) {
                    Some(body) if st.depth < machine::MAX_CALL_DEPTH => {
                        law_budget_is_kept(
                            g,
                            body,
                            State { depth: st.depth + 1, ..st },
                            machine::passed(
                                body.vars@,
                                machine::values(store, args@),
                                args@.len(),
                            ),
                            body.entry,
                            0,
                        );
                    },
                    _ => {},
                }
            }
        },
        _ => {},
    }
}

proof fn lemma_initialized_steps(g: Given, st: State, class: Seq<char>)
    ensures
        machine::initialized(g, st, class).0.steps <= st.steps,
    decreases st.steps, 2nat,
{
    if !st.inits.contains(class) {
        let s = State { inits: st.inits.insert(class), ..st };
        if let Some(body) = g.prog.body_of(machine::clinit_key(class)) {
            law_budget_is_kept(
                g,
                body,
                State { depth: s.depth + 1, ..s },
                Map::empty(),
                body.entry,
                0,
            );
        }
    }
}

proof fn lemma_routes(g: Given, h: Given)
    requires
        more(g, h),
    ensures
        forall|b: Block, c: Seq<char>| #[trigger]
            machine::thrown(h, b, c) == machine::thrown(g, b, c),
        forall|b: Block, st: State, store: Store| #[trigger]
            machine::ended(h, b, st, store) == machine::ended(g, b, st, store),
{
}

proof fn lemma_stepped(g: Given, h: Given, body: Body, b: Block, st: State, store: Store, s: Stmt)
    requires
        more(g, h),
        !(machine::stepped(g, body, b, st, store, s).flow matches FlowV::Exit(OutcomeV::Ask(_))),
    ensures
        machine::stepped(h, body, b, st, store, s) == machine::stepped(g, body, b, st, store, s),
    decreases st.steps, 4nat,
{
    lemma_routes(g, h);
    match s {
        Stmt::Assign(_, rv) => {
            lemma_assigned(g, h, st, store, rv);
        },
        Stmt::PutStatic(f, _) => {
            lemma_initialized(g, h, st, f.class@);
        },
        _ => {},
    }
}

proof fn lemma_assigned(g: Given, h: Given, st: State, store: Store, rv: Rvalue)
    requires
        more(g, h),
        !(machine::assigned(g, st, store, rv).1 matches Err(OutcomeV::Ask(_))),
    ensures
        machine::assigned(h, st, store, rv) == machine::assigned(g, st, store, rv),
    decreases st.steps, 3nat,
{
    match rv {
        Rvalue::GetStatic(f) => {
            if f.name@ != "$assertionsDisabled"@ {
                lemma_initialized(g, h, st, f.class@);
            }
        },
        Rvalue::Call { target, args, .. } => {
            if !machine::elsewhere(g.models, target) {
                lemma_inlined(g, h, st, store, target@, args@);
            }
        },
        _ => {},
    }
}

proof fn lemma_inlined(g: Given, h: Given, st: State, store: Store, target: MethodKeyV, args: Seq<Operand>)
    requires
        more(g, h),
        !(machine::inlined(g, st, store, target, args).1 matches Err(OutcomeV::Ask(_))),
    ensures
        machine::inlined(h, st, store, target, args) == machine::inlined(g, st, store, target, args),
    decreases st.steps, 2nat,
{
    match g.prog.body_of(target) {
        Some(body) if st.depth < machine::MAX_CALL_DEPTH => {
            law_further_answers_change_nothing(
                g,
                h,
                body,
                State { depth: st.depth + 1, ..st },
                machine::passed(body.vars@, machine::values(store, args), args.len()),
                body.entry,
                0,
            );
        },
        _ => {},
    }
}

proof fn lemma_initialized(g: Given, h: Given, st: State, class: Seq<char>)
    requires
        more(g, h),
        machine::initialized(g, st, class).1 is None,
    ensures
        machine::initialized(h, st, class) == machine::initialized(g, st, class),
    decreases st.steps, 2nat,
{
    if !st.inits.contains(class) {
        let s = State { inits: st.inits.insert(class), ..st };
        if let Some(body) = g.prog.body_of(machine::clinit_key(class)) {
            law_further_answers_change_nothing(
                g,
                h,
                body,
                State { depth: s.depth + 1, ..s },
                Map::empty(),
                body.entry,
                0,
            );
        }
    }
}

/// Is every recorded input zero or empty?
pub open spec fn defaults_only(entries: Seq<NondetEntryV>) -> bool {
    forall|i: int|
        0 <= i < entries.len() ==> {
            ||| (#[trigger] entries[i]).value == NondetValueV::Int(0)
            ||| entries[i].value == NondetValueV::Long(0)
            ||| entries[i].value == NondetValueV::Str(Seq::empty())
        }
}

/// Are the inputs of a violation zero or empty?
pub open spec fn plain_outcome(o: OutcomeV) -> bool {
    o matches OutcomeV::Violated { entries, .. } ==> defaults_only(entries)
}

/// Without choices every input is zero or empty, and so is every input of a
/// violation that is found.
pub proof fn law_default_inputs_are_zero(
    g: Given,
    body: Body,
    st: State,
    store: Store,
    block: BlockId,
    idx: nat,
)
    requires
        g.choices.len() == 0,
        defaults_only(st.entries),
    ensures
        defaults_only(machine::run(g, body, st, store, block, idx).0.entries),
        plain_outcome(machine::run(g, body, st, store, block, idx).1),
    decreases st.steps, 0nat,
{
    if st.steps > 0 {
        let s = State { steps: (st.steps - 1) as nat, ..st };
        let b = body.blocks@[block.0 as int];
        if idx < b.stmts@.len() {
            let stmt = b.stmts@[idx as int];
            let m = machine::stepped(g, body, b, s, store, stmt);
            lemma_stepped_plain(g, body, b, s, store, stmt);
            if m.st.steps < st.steps {
                match m.flow {
                    FlowV::Exit(_) => {},
                    FlowV::To(t) => {
                        law_default_inputs_are_zero(g, body, m.st, m.store, t, 0);
                    },
                    FlowV::Next => {
                        law_default_inputs_are_zero(g, body, m.st, m.store, block, idx + 1);
                    },
                }
            }
        } else {
            match machine::ended(g, b, s, store) {
                FlowV::To(t) => {
                    law_default_inputs_are_zero(g, body, s, store, t, 0);
                },
                FlowV::Next => {
                    law_default_inputs_are_zero(g, body, s, store, block, idx + 1);
                },
                FlowV::Exit(_) => {},
            }
        }
    }
}

proof fn lemma_stepped_plain(g: Given, body: Body, b: Block, st: State, store: Store, s: Stmt)
    requires
        g.choices.len() == 0,
        defaults_only(st.entries),
    ensures
        defaults_only(machine::stepped(g, body, b, st, store, s).st.entries),
        machine::stepped(g, body, b, st, store, s).flow matches FlowV::Exit(o) ==> plain_outcome(o),
    decreases st.steps, 4nat,
{
    match s {
        Stmt::Assign(_, rv) => {
            lemma_assigned_plain(g, st, store, rv);
        },
        Stmt::PutStatic(f, _) => {
            lemma_initialized_plain(g, st, f.class@);
        },
        _ => {},
    }
}

proof fn lemma_assigned_plain(g: Given, st: State, store: Store, rv: Rvalue)
    requires
        g.choices.len() == 0,
        defaults_only(st.entries),
    ensures
        defaults_only(machine::assigned(g, st, store, rv).0.entries),
        machine::assigned(g, st, store, rv).1 matches Err(o) ==> plain_outcome(o),
    decreases st.steps, 3nat,
{
    match rv {
        Rvalue::GetStatic(f) => {
            lemma_initialized_plain(g, st, f.class@);
        },
        Rvalue::Call { target, args, .. } => {
            if !machine::elsewhere(g.models, target) {
                match g.prog.body_of(target@) {
                    Some(body) if st.depth < machine::MAX_CALL_DEPTH => {
                        law_default_inputs_are_zero(
                            g,
                            body,
                            State { depth: st.depth + 1, ..st },
                            machine::passed(
                                body.vars@,
                                machine::values(store, args@),
                                args@.len(),
                            ),
                            body.entry,
                            0,
                        );
                    },
                    _ => {},
                }
            }
        },
        _ => {},
    }
}

proof fn lemma_initialized_plain(g: Given, st: State, class: Seq<char>)
    requires
        g.choices.len() == 0,
        defaults_only(st.entries),
    ensures
        defaults_only(machine::initialized(g, st, class).0.entries),
        machine::initialized(g, st, class).1 matches Some(o) ==> plain_outcome(o),
    decreases st.steps, 2nat,
{
    if !st.inits.contains(class) {
        let s = State { inits: st.inits.insert(class), ..st };
        if let Some(body) = g.prog.body_of(machine::clinit_key(class)) {
            law_default_inputs_are_zero(
                g,
                body,
                State { depth: s.depth + 1, ..s },
                Map::empty(),
                body.entry,
                0,
            );
        }
    }
}

/// A check passes where its condition is a number other than zero or an object, and then
/// changes nothing. Where it is zero or null and no handler of the block catches the
/// exception, the obligation is violated, with the inputs that were taken so far. What is
/// not known decides nothing.
pub proof fn law_check_is_decided_by_its_condition(
    g: Given,
    body: Body,
    b: Block,
    st: State,
    store: Store,
    id: ObligationId,
)
    requires
        body.obligations@[id.0 as int].cond is Var,
    ensures
        ({
            let ob = body.obligations@[id.0 as int];
            let m = machine::stepped(g, body, b, st, store, Stmt::Check(id));
            match value::operand(store, ob.cond) {
                Value::Unknown => m.flow == FlowV::Exit(OutcomeV::Inconclusive),
                v => {
                    let zero = v == Value::I32(0) || v == Value::I64(0) || v == Value::Ref(0);
                    let caught = exists|i: int|
                        0 <= i < b.exceptional@.len() && g.models.exception_of(ob.kind) is Some
                            && catches(g, #[trigger] b.exceptional@[i], g.models.exception_of(ob.kind)->0);
                    &&& !zero ==> m == (machine::Moved { st, store, flow: FlowV::Next })
                    &&& zero && !caught ==> m.flow == FlowV::Exit(
                        (OutcomeV::Violated { method: body.key@, oid: id, entries: st.entries }),
                    )
                    &&& zero && caught ==> m.flow is To
                    &&& m.flow matches FlowV::Exit(_) ==> zero
                },
            }
        }),
{
    let ob = body.obligations@[id.0 as int];
    if g.models.exception_of(ob.kind) is Some {
        lemma_routed(g, b, g.models.exception_of(ob.kind)->0, 0);
    }
}

/// Does the edge catch an exception of the class?
pub open spec fn catches(g: Given, e: ExcEdge, class: Seq<char>) -> bool {
    e.class is None || g.prog.subtype(class, e.class->0@)
}

proof fn lemma_routed(g: Given, b: Block, class: Seq<char>, i: nat)
    requires
        i <= b.exceptional@.len(),
    ensures
        match machine::route_from(g.prog, b.exceptional@, class, i) {
            Some(t) => exists|k: int|
                i <= k < b.exceptional@.len() && catches(g, #[trigger] b.exceptional@[k], class)
                    && b.exceptional@[k].target == t && forall|j: int|
                    i <= j < k ==> !catches(g, #[trigger] b.exceptional@[j], class),
            None => forall|k: int|
                i <= k < b.exceptional@.len() ==> !catches(g, #[trigger] b.exceptional@[k], class),
        },
    decreases b.exceptional@.len() - i,
{
    if i < b.exceptional@.len() {
        let e = b.exceptional@[i as int];
        if catches(g, e, class) {
            assert(machine::route_from(g.prog, b.exceptional@, class, i) == Some(e.target));
        } else {
            lemma_routed(g, b, class, i + 1);
        }
    }
}

/// An exception that is raised in a block goes to the first of its handlers that catches
/// it, and leaves the method if there is none.
pub proof fn law_first_handler_catches(g: Given, b: Block, class: Seq<char>)
    ensures
        match machine::thrown(g, b, class) {
            FlowV::To(t) => exists|k: int|
                0 <= k < b.exceptional@.len() && catches(g, #[trigger] b.exceptional@[k], class)
                    && b.exceptional@[k].target == t && forall|j: int|
                    0 <= j < k ==> !catches(g, #[trigger] b.exceptional@[j], class),
            FlowV::Exit(o) => o == OutcomeV::Threw(class) && forall|k: int|
                0 <= k < b.exceptional@.len() ==> !catches(g, #[trigger] b.exceptional@[k], class),
            FlowV::Next => false,
        },
{
    lemma_routed(g, b, class, 0);
}

/// An assumption is passed where it is a number other than zero or an object, and else ends
/// the execution without a violation.
pub proof fn law_assumption_holds_or_halts(
    g: Given,
    body: Body,
    b: Block,
    st: State,
    store: Store,
    o: Operand,
)
    ensures
        ({
            let m = machine::stepped(g, body, b, st, store, Stmt::Assume(o));
            let v = value::operand(store, o);
            let zero = v is Unknown || v == Value::I32(0) || v == Value::I64(0) || v == Value::Ref(0);
            &&& m.st == st && m.store == store
            &&& m.flow == if zero {
                FlowV::Exit(OutcomeV::Halted)
            } else {
                FlowV::Next
            }
        }),
{
}

/// A branch goes to its first target where its condition is not zero and to its second
/// where it is; a switch goes to the first case with the number, and to the default just
/// where no case has it.
pub proof fn law_terminators_follow_their_values(g: Given, b: Block, st: State, store: Store)
    ensures
        match b.term {
            Terminator::Branch { cond, then_, else_ } => {
                let v = value::operand(store, cond);
                &&& value::numeric(v) && v.number() != 0 ==> machine::ended(g, b, st, store)
                    == FlowV::To(then_)
                &&& value::numeric(v) && v.number() == 0 ==> machine::ended(g, b, st, store)
                    == FlowV::To(else_)
                &&& v is Unknown ==> machine::ended(g, b, st, store) == FlowV::Exit(
                    OutcomeV::Inconclusive,
                )
            },
            Terminator::Switch { value: o, cases, default } => {
                let v = value::operand(store, o);
                v is I32 ==> {
                    ||| machine::ended(g, b, st, store) == FlowV::To(default) && forall|i: int|
                        0 <= i < cases@.len() ==> (#[trigger] cases@[i]).0 != v.number()
                    ||| exists|k: int|
                        0 <= k < cases@.len() && (#[trigger] cases@[k]).0 == v.number()
                            && machine::ended(g, b, st, store) == FlowV::To(cases@[k].1)
                            && forall|i: int| 0 <= i < k ==> (#[trigger] cases@[i]).0 != v.number()
                }
            },
            Terminator::Return(Some(o)) => machine::ended(g, b, st, store) == FlowV::Exit(
                OutcomeV::Returned(value::operand(store, o)),
            ),
            _ => true,
        },
{
    if let Terminator::Switch { value: o, cases, default } = b.term {
        lemma_case(cases@, default, machine::switch_key(store, o), 0);
    }
}

proof fn lemma_case(cases: Seq<(i32, BlockId)>, default: BlockId, v: i32, i: nat)
    requires
        i <= cases.len(),
    ensures
        ({
            let t = machine::case_from(cases, default, v, i);
            ||| t == default && forall|j: int| i <= j < cases.len() ==> (#[trigger] cases[j]).0 != v
            ||| exists|k: int|
                i <= k < cases.len() && (#[trigger] cases[k]).0 == v && t == cases[k].1 && forall|
                    j: int,
                | i <= j < k ==> (#[trigger] cases[j]).0 != v
        }),
    decreases cases.len() - i,
{
    if i < cases.len() && cases[i as int].0 != v {
        lemma_case(cases, default, v, i + 1);
    }
}

/// What was written to a field of an object is read back from it, and nothing else is
/// changed: neither another field, nor that field of another object.
pub proof fn law_fields_are_read_back(
    g: Given,
    body: Body,
    b: Block,
    st: State,
    store: Store,
    obj: Operand,
    field: FieldKey,
    val: Operand,
    other: Operand,
    name: FieldKey,
)
    requires
        value::operand(store, obj) matches Value::Ref(id) && id != 0,
    ensures
        ({
            let m = machine::stepped(
                g,
                body,
                b,
                st,
                store,
                (Stmt::PutField { obj, field, val }),
            );
            let read = |s: State, o: Operand, f: FieldKey|
                machine::assigned(g, s, store, (Rvalue::GetField { obj: o, field: f })).1;
            &&& m.flow == FlowV::Next
            &&& m.store == store
            &&& read(m.st, obj, field) == Ok::<Value, OutcomeV>(value::operand(store, val))
            &&& value::operand(store, other) != value::operand(store, obj) || name.name@ != field.name@
                ==> read(m.st, other, name) == read(st, other, name)
        }),
{
}

/// What was written to a static field of an initialized class is read back, and other
/// static fields of it keep their values.
pub proof fn law_statics_are_read_back(
    g: Given,
    body: Body,
    b: Block,
    st: State,
    store: Store,
    field: FieldKey,
    val: Operand,
    name: FieldKey,
)
    requires
        st.inits.contains(field.class@),
        st.inits.contains(name.class@),
        field.name@ != "$assertionsDisabled"@,
    ensures
        ({
            let m = machine::stepped(g, body, b, st, store, Stmt::PutStatic(field, val));
            let read = |s: State, f: FieldKey| machine::assigned(g, s, store, Rvalue::GetStatic(f)).1;
            &&& m.flow == FlowV::Next
            &&& m.store == store
            &&& read(m.st, field) == Ok::<Value, OutcomeV>(value::operand(store, val))
            &&& name.class@ != field.class@ || name.name@ != field.name@ ==> read(m.st, name) == read(
                st,
                name,
            )
        }),
{
}

/// A new object or array is not null and is not any object from before, as long as objects
/// can be numbered; the array has the length that was asked for, and the object is of its
/// class.
pub proof fn law_new_objects_are_new(
    g: Given,
    st: State,
    store: Store,
    class: String,
    elem: String,
    len: Operand,
    v: VarId,
)
    requires
        2 <= st.alloc < u64::MAX,
        value::operand(store, len) is I32,
    ensures
        ({
            let (s, o) = machine::assigned(g, st, store, Rvalue::New(class));
            let (t, a) = machine::assigned(g, st, store, (Rvalue::NewArray { elem, len }));
            let held = store.insert(v, Value::Ref(st.alloc));
            &&& o == Ok::<Value, OutcomeV>(Value::Ref(st.alloc))
            &&& a == Ok::<Value, OutcomeV>(Value::Ref(st.alloc))
            &&& s.alloc == st.alloc + 1 && t.alloc == st.alloc + 1
            &&& s.types.dom().contains(st.alloc) && s.types[st.alloc] == class@
            &&& machine::assigned(g, t, held, Rvalue::ArrayLength(Operand::Var(v))).1 == Ok::<
                Value,
                OutcomeV,
            >(value::operand(store, len))
        }),
{
}

/// An input is the next of the choices, zero beyond the last, and is recorded as it was
/// given: the inputs of a violation are those that led to it.
pub proof fn law_inputs_are_recorded(g: Given, st: State, store: Store, b: Option<u8>)
    ensures
        ({
            let k = st.choice as int;
            let raw = if k < g.choices.len() {
                g.choices[k]
            } else {
                0
            };
            let (s, i) = machine::assigned(g, st, store, Rvalue::Nondet(Ty::Int, b));
            let (t, l) = machine::assigned(g, st, store, Rvalue::Nondet(Ty::Long, b));
            &&& i == Ok::<Value, OutcomeV>(Value::I32(raw as i32))
            &&& l == Ok::<Value, OutcomeV>(Value::I64(raw))
            &&& s.entries.len() == st.entries.len() + 1 && t.entries.len() == st.entries.len() + 1
            &&& s.entries.last().value == NondetValueV::Int(raw as i32)
            &&& t.entries.last().value == NondetValueV::Long(raw)
            &&& s.entries.drop_last() == st.entries && t.entries.drop_last() == st.entries
            &&& k < g.choices.len() ==> s.choice == k + 1 && t.choice == k + 1
        }),
{
    let s = machine::assigned(g, st, store, Rvalue::Nondet(Ty::Int, b)).0;
    let t = machine::assigned(g, st, store, Rvalue::Nondet(Ty::Long, b)).0;
    assert(s.entries.drop_last() =~= st.entries);
    assert(t.entries.drop_last() =~= st.entries);
}

/// The first argument of a call goes to local 0, and each further one to the local after
/// those that the one before it takes: two for a `long` or a `double`, else one.
pub proof fn law_arguments_go_to_their_locals(infos: Seq<VarInfo>, args: Seq<Value>, n: nat, v: int)
    requires
        0 < n <= args.len(),
        0 <= v < infos.len(),
        infos.len() <= u32::MAX,
        infos[v].kind == VarKind::Local(frames::slot_of(infos, (n - 1) as nat) as u16),
        0 <= frames::slot_of(infos, (n - 1) as nat) <= 65535,
        forall|i: int| 0 <= i < v ==> (#[trigger] infos[i]).kind != infos[v].kind,
    ensures
        machine::passed(infos, args, n).dom().contains(VarId(v as u32)),
        machine::passed(infos, args, n)[VarId(v as u32)] == args[n - 1],
        frames::slot_of(infos, n) == frames::slot_of(infos, (n - 1) as nat) + if infos[v].ty.wide() {
            2int
        } else {
            1int
        },
        frames::slot_of(infos, 0) == 0,
{
    lemma_local_found(infos, frames::slot_of(infos, (n - 1) as nat), v, 0);
}

proof fn lemma_local_found(infos: Seq<VarInfo>, slot: int, v: int, i: int)
    requires
        0 <= i <= v < infos.len(),
        0 <= slot <= 65535,
        infos[v].kind == VarKind::Local(slot as u16),
        forall|j: int| 0 <= j < v ==> (#[trigger] infos[j]).kind != infos[v].kind,
    ensures
        frames::local_from(infos, slot, i) == Some(v),
    decreases v - i,
{
    if i < v {
        assert(infos[i].kind != infos[v].kind);
        lemma_local_found(infos, slot, v, i + 1);
    }
}

} // verus!
