//! What the instructions of the virtual machine do, and that what they are lifted to
//! does the same.

use vstd::prelude::*;

use super::decode::InsnV;
use super::frame;
use super::frame::{Frame, SiteV};
use super::insn;
use super::step;
use super::step::Step;
use crate::classfile::{ClassFile, Code, Cp, MemberRefV};
use crate::concrete::value;
use crate::concrete::value::{Store, Value};
use crate::desc;
use crate::ir::{
    BinOp, BlockId, ConstV, FieldKeyV, MethodKeyV, OperandV, RvalueV, StmtV, TerminatorV, Ty, VarId,
};
use crate::smt_bmc::meaning;
use crate::smt_bmc::wide;

verus! {

/// What objects, arrays and static fields hold.
#[verifier::ext_equal]
pub struct Heap {
    pub statics: Map<FieldKeyV, Value>,
    pub fields: Map<(FieldKeyV, Value), Value>,
    pub arrays: Map<(Value, int), Value>,
    pub lengths: Map<Value, i32>,
}

/// The machine inside a method. A value takes one entry of the stack, whatever its type.
#[verifier::ext_equal]
pub struct Machine {
    pub locals: Map<u16, Value>,
    pub stack: Seq<Value>,
    pub heap: Heap,
}

impl Machine {
    /// The entry of the stack, counted from the top.
    pub open spec fn top(self, k: int) -> Value {
        self.stack[self.stack.len() - 1 - k]
    }

    /// Without the top `k` entries.
    pub open spec fn popped(self, k: int) -> Machine {
        Machine { stack: self.stack.take(self.stack.len() - k), ..self }
    }

    pub open spec fn pushed(self, v: Value) -> Machine {
        Machine { stack: self.stack.push(v), ..self }
    }

    pub open spec fn with_local(self, slot: u16, v: Value) -> Machine {
        Machine { locals: self.locals.insert(slot, v), ..self }
    }

    /// Are there as many entries?
    pub open spec fn has(self, k: int) -> bool {
        self.stack.len() >= k
    }

    /// Are the top two entries numbers of 32 bits?
    pub open spec fn ints(self) -> bool {
        self.has(2) && self.top(0) is I32 && self.top(1) is I32
    }

    /// Are the top two entries numbers of 64 bits?
    pub open spec fn longs(self) -> bool {
        self.has(2) && self.top(0) is I64 && self.top(1) is I64
    }
}

/// What an instruction leads to.
pub enum Then {
    /// The next instruction.
    Next(Machine),
    /// The instruction at the offset.
    At(Machine, int),
    /// The method is left, with a value or without.
    Left(Option<Value>),
    /// An exception is thrown.
    Throws,
    /// Nothing is said of it here.
    Unsaid,
}

/// The slot that a load or a store names.
pub open spec fn slot_of(n: InsnV) -> u16 {
    if 0x1a <= n.op <= 0x2d {
        ((n.op - 0x1a) % 4) as u16
    } else if 0x3b <= n.op <= 0x4e {
        ((n.op - 0x3b) % 4) as u16
    } else {
        n.imm as u16
    }
}

/// Constants, loads, stores, arrays and rearranging the stack.
pub open spec fn low(cf: ClassFile, n: InsnV, m: Machine) -> Then {
    let op = n.op;
    if op == 0x00 {
        Then::Next(m)
    } else if op == 0x01 {
        Then::Next(m.pushed(Value::Ref(0)))
    } else if 0x02 <= op <= 0x08 {
        Then::Next(m.pushed(Value::I32((op - 3) as i32)))
    } else if op == 0x09 || op == 0x0a {
        Then::Next(m.pushed(Value::I64((op - 9) as i64)))
    } else if op == 0x10 || op == 0x11 {
        Then::Next(m.pushed(Value::I32(n.imm as i32)))
    } else if 0x12 <= op <= 0x14 {
        match cf.entry(n.imm as u16) {
            Cp::Int(v) => Then::Next(m.pushed(Value::I32(v))),
            Cp::Long(v) => Then::Next(m.pushed(Value::I64(v))),
            _ => Then::Unsaid,
        }
    } else if 0x15 <= op <= 0x2d {
        Then::Next(m.pushed(m.locals[slot_of(n)]))
    } else if 0x2e <= op <= 0x35 {
        if m.has(2) && m.top(0) is I32 && m.top(1) is Ref {
            let (arr, i) = (m.top(1), m.top(0).number() as int);
            if m.top(1) == Value::Ref(0) || i < 0 || i >= m.heap.lengths[arr] {
                Then::Throws
            } else {
                Then::Next(m.popped(2).pushed(m.heap.arrays[(arr, i)]))
            }
        } else {
            Then::Unsaid
        }
    } else if 0x36 <= op <= 0x4e {
        if m.has(1) {
            Then::Next(m.popped(1).with_local(slot_of(n), m.top(0)))
        } else {
            Then::Unsaid
        }
    } else if 0x4f <= op <= 0x56 {
        if m.has(3) && m.top(1) is I32 && m.top(2) is Ref {
            let (arr, i) = (m.top(2), m.top(1).number() as int);
            if arr == Value::Ref(0) || i < 0 || i >= m.heap.lengths[arr] {
                Then::Throws
            } else {
                let p = m.popped(3);
                Then::Next(
                    Machine {
                        heap: Heap {
                            arrays: p.heap.arrays.insert((arr, i), m.top(0)),
                            ..p.heap
                        },
                        ..p
                    },
                )
            }
        } else {
            Then::Unsaid
        }
    } else if op == 0x57 || op == 0x58 {
        if m.has(1) && (op == 0x58 ==> m.top(0) is I64) {
            Then::Next(m.popped(1))
        } else {
            Then::Unsaid
        }
    } else if op == 0x59 {
        if m.has(1) {
            Then::Next(m.pushed(m.top(0)))
        } else {
            Then::Unsaid
        }
    } else if op == 0x5a {
        if m.has(2) {
            Then::Next(
                Machine {
                    stack: m.stack.take(m.stack.len() - 2) + seq![m.top(0), m.top(1), m.top(0)],
                    ..m
                },
            )
        } else {
            Then::Unsaid
        }
    } else if op == 0x5b {
        if m.has(3) && !(m.top(1) is I64) {
            Then::Next(
                Machine {
                    stack: m.stack.take(m.stack.len() - 3) + seq![
                        m.top(0),
                        m.top(2),
                        m.top(1),
                        m.top(0),
                    ],
                    ..m
                },
            )
        } else {
            Then::Unsaid
        }
    } else if op == 0x5c {
        if m.has(1) && m.top(0) is I64 {
            Then::Next(m.pushed(m.top(0)))
        } else if m.has(2) {
            Then::Next(Machine { stack: m.stack + seq![m.top(1), m.top(0)], ..m })
        } else {
            Then::Unsaid
        }
    } else if op == 0x5f {
        if m.has(2) {
            Then::Next(
                Machine {
                    stack: m.stack.take(m.stack.len() - 2) + seq![m.top(0), m.top(1)],
                    ..m
                },
            )
        } else {
            Then::Unsaid
        }
    } else {
        Then::Unsaid
    }
}

/// The result of arithmetic on numbers of 32 bits: the one below the top of the stack,
/// and the one at the top.
pub open spec fn int_result(op: u8, x: i32, y: i32) -> Option<i32> {
    if op == 0x60 {
        Some(x.wrapping_add(y))
    } else if op == 0x64 {
        Some(x.wrapping_sub(y))
    } else if op == 0x68 {
        Some(x.wrapping_mul(y))
    } else if op == 0x6c && y != 0 {
        x.checked_div(y)
    } else if op == 0x70 && y != 0 {
        x.checked_rem(y)
    } else if op == 0x78 {
        Some(x << ((y & 0x1f) as u32))
    } else if op == 0x7a {
        Some(x >> ((y & 0x1f) as u32))
    } else if op == 0x7c {
        Some(((x as u32) >> ((y & 0x1f) as u32)) as i32)
    } else if op == 0x7e {
        Some(x & y)
    } else if op == 0x80 {
        Some(x | y)
    } else if op == 0x82 {
        Some(x ^ y)
    } else {
        None
    }
}

/// The result of arithmetic on numbers of 64 bits.
pub open spec fn long_result(op: u8, x: i64, y: i64) -> Option<i64> {
    if op == 0x61 {
        Some(x.wrapping_add(y))
    } else if op == 0x65 {
        Some(x.wrapping_sub(y))
    } else if op == 0x69 {
        Some(x.wrapping_mul(y))
    } else if op == 0x6d && y != 0 {
        x.checked_div(y)
    } else if op == 0x71 && y != 0 {
        x.checked_rem(y)
    } else if op == 0x7f {
        Some(x & y)
    } else if op == 0x81 {
        Some(x | y)
    } else if op == 0x83 {
        Some(x ^ y)
    } else {
        None
    }
}

/// The result of shifting a number of 64 bits.
pub open spec fn long_shift(op: u8, x: i64, y: i32) -> Option<i64> {
    if op == 0x79 {
        Some(x << ((y & 0x3f) as u32))
    } else if op == 0x7b {
        Some(x >> ((y & 0x3f) as u32))
    } else if op == 0x7d {
        Some(((x as u64) >> ((y & 0x3f) as u32)) as i64)
    } else {
        None
    }
}

/// Is it a division or a remainder of integers?
pub open spec fn divides(op: u8) -> bool {
    op == 0x6c || op == 0x6d || op == 0x70 || op == 0x71
}

/// Arithmetic, conversions and the three-way comparison.
pub open spec fn arithmetic(n: InsnV, m: Machine) -> Then {
    let op = n.op;
    if divides(op) && (m.ints() || m.longs()) && m.top(0).number() == 0 && (m.longs() <==> op % 2
        == 1) {
        Then::Throws
    } else if m.ints() && int_result(op, m.top(1)->I32_0, m.top(0)->I32_0) is Some {
        Then::Next(
            m.popped(2).pushed(
                Value::I32(int_result(op, m.top(1)->I32_0, m.top(0)->I32_0)->0),
            ),
        )
    } else if m.longs() && long_result(op, m.top(1)->I64_0, m.top(0)->I64_0) is Some {
        Then::Next(
            m.popped(2).pushed(
                Value::I64(long_result(op, m.top(1)->I64_0, m.top(0)->I64_0)->0),
            ),
        )
    } else if m.has(2) && m.top(1) is I64 && m.top(0) is I32 && long_shift(
        op,
        m.top(1)->I64_0,
        m.top(0)->I32_0,
    ) is Some {
        Then::Next(
            m.popped(2).pushed(
                Value::I64(long_shift(op, m.top(1)->I64_0, m.top(0)->I32_0)->0),
            ),
        )
    } else if op == 0x74 && m.has(1) && m.top(0) is I32 {
        Then::Next(m.popped(1).pushed(Value::I32(0i32.wrapping_sub(m.top(0)->I32_0))))
    } else if op == 0x75 && m.has(1) && m.top(0) is I64 {
        Then::Next(m.popped(1).pushed(Value::I64(0i64.wrapping_sub(m.top(0)->I64_0))))
    } else if op == 0x84 && m.locals[n.imm as u16] is I32 {
        let x = m.locals[n.imm as u16]->I32_0;
        Then::Next(m.with_local(n.imm as u16, Value::I32(x.wrapping_add(n.delta as i32))))
    } else if op == 0x85 && m.has(1) && m.top(0) is I32 {
        Then::Next(m.popped(1).pushed(Value::I64(m.top(0)->I32_0 as i64)))
    } else if op == 0x88 && m.has(1) && m.top(0) is I64 {
        Then::Next(m.popped(1).pushed(Value::I32(m.top(0)->I64_0 as i32)))
    } else if op == 0x94 && m.longs() {
        let d = m.top(1).number() - m.top(0).number();
        Then::Next(
            m.popped(2).pushed(
                Value::I32(
                    if d > 0 {
                        1
                    } else if d == 0 {
                        0
                    } else {
                        -1i32 as i32
                    },
                ),
            ),
        )
    } else {
        Then::Unsaid
    }
}

/// Does the comparison hold, of the six that branches make?
pub open spec fn relation(k: int, x: int, y: int) -> bool {
    if k == 0 {
        x == y
    } else if k == 1 {
        x != y
    } else if k == 2 {
        x < y
    } else if k == 3 {
        x >= y
    } else if k == 4 {
        x > y
    } else {
        x <= y
    }
}

/// A branch to the target of the instruction, or past it.
pub open spec fn branch(n: InsnV, m: Machine, taken: bool) -> Then {
    Then::At(
        m,
        if taken {
            n.targets[0]
        } else {
            (n.off + n.len) as int
        },
    )
}

/// The target for a value, of the first `k` keys.
pub open spec fn target_for(n: InsnV, v: int, k: nat) -> Option<int>
    decreases k,
{
    if k == 0 {
        None
    } else {
        match target_for(n, v, (k - 1) as nat) {
            Some(t) => Some(t),
            None => if n.keys[k - 1] == v {
                Some(n.targets[k as int])
            } else {
                None
            },
        }
    }
}

/// Branches, returns and access to fields.
pub open spec fn high(cf: ClassFile, n: InsnV, m: Machine) -> Then {
    let op = n.op;
    if 0x99 <= op <= 0x9e && m.has(1) && m.top(0) is I32 {
        branch(n, m.popped(1), relation(op - 0x99, m.top(0).number() as int, 0))
    } else if 0x9f <= op <= 0xa4 && m.ints() {
        branch(
            n,
            m.popped(2),
            relation(op - 0x9f, m.top(1).number() as int, m.top(0).number() as int),
        )
    } else if (op == 0xa5 || op == 0xa6) && m.has(2) && m.top(0) is Ref && m.top(1) is Ref {
        branch(n, m.popped(2), (m.top(0) == m.top(1)) == (op == 0xa5))
    } else if (op == 0xc6 || op == 0xc7) && m.has(1) && m.top(0) is Ref {
        branch(n, m.popped(1), (m.top(0) == Value::Ref(0)) == (op == 0xc6))
    } else if op == 0xa7 || op == 0xc8 {
        branch(n, m, true)
    } else if (op == 0xaa || op == 0xab) && m.has(1) && m.top(0) is I32 {
        Then::At(
            m.popped(1),
            match target_for(n, m.top(0).number() as int, n.keys.len()) {
                Some(t) => t,
                None => n.targets[0],
            },
        )
    } else if 0xac <= op <= 0xb0 && m.has(1) {
        Then::Left(Some(m.top(0)))
    } else if op == 0xb1 {
        Then::Left(None)
    } else if 0xb2 <= op <= 0xb5 {
        match cf.entry(n.imm as u16) {
            Cp::Member(r) => {
                let field = FieldKeyV { class: r@.owner, name: r@.name, desc: r@.desc };
                if op == 0xb2 {
                    Then::Next(m.pushed(m.heap.statics[field]))
                } else if op == 0xb3 && m.has(1) {
                    let p = m.popped(1);
                    Then::Next(
                        Machine {
                            heap: Heap {
                                statics: p.heap.statics.insert(field, m.top(0)),
                                ..p.heap
                            },
                            ..p
                        },
                    )
                } else if op == 0xb4 && m.has(1) && m.top(0) is Ref {
                    if m.top(0) == Value::Ref(0) {
                        Then::Throws
                    } else {
                        Then::Next(m.popped(1).pushed(m.heap.fields[(field, m.top(0))]))
                    }
                } else if op == 0xb5 && m.has(2) && m.top(1) is Ref {
                    if m.top(1) == Value::Ref(0) {
                        Then::Throws
                    } else {
                        let p = m.popped(2);
                        Then::Next(
                            Machine {
                                heap: Heap {
                                    fields: p.heap.fields.insert((field, m.top(1)), m.top(0)),
                                    ..p.heap
                                },
                                ..p
                            },
                        )
                    }
                } else {
                    Then::Unsaid
                }
            },
            _ => Then::Unsaid,
        }
    } else if op == 0xbe && m.has(1) && m.top(0) is Ref {
        if m.top(0) == Value::Ref(0) {
            Then::Throws
        } else {
            Then::Next(m.popped(1).pushed(Value::I32(m.heap.lengths[m.top(0)])))
        }
    } else if (op == 0xc2 || op == 0xc3) && m.has(1) && m.top(0) is Ref {
        if m.top(0) == Value::Ref(0) {
            Then::Throws
        } else {
            Then::Next(m.popped(1))
        }
    } else {
        Then::Unsaid
    }
}

/// What an instruction does, by its opcode.
pub open spec fn executed(cf: ClassFile, n: InsnV, m: Machine) -> Then {
    if n.op < 0x60 {
        low(cf, n, m)
    } else if n.op < 0x99 {
        arithmetic(n, m)
    } else {
        high(cf, n, m)
    }
}

/// The state of a body that runs: its variables, the heap, and whether every check so
/// far has passed.
#[verifier::ext_equal]
pub struct Running {
    pub vars: Store,
    pub heap: Heap,
    pub passed: bool,
}

/// The value of an operand.
pub open spec fn operand(vars: Store, o: OperandV) -> Value {
    match o {
        OperandV::Var(v) => value::var(vars, v),
        OperandV::Const(ConstV::Int(k)) => Value::I32(k),
        OperandV::Const(ConstV::Long(k)) => Value::I64(k),
        OperandV::Const(ConstV::Null) => Value::Ref(0),
        OperandV::Const(_) => Value::Ref(1),
    }
}

/// The value of an rvalue.
pub open spec fn rvalue(r: Running, rv: RvalueV) -> Value {
    match rv {
        RvalueV::Use(o) => operand(r.vars, o),
        RvalueV::Bin(op, a, b) => value::binary(op, operand(r.vars, a), operand(r.vars, b)),
        RvalueV::Neg(o) => value::negative(operand(r.vars, o)),
        RvalueV::Cast(ty, o) => value::converted(ty, operand(r.vars, o)),
        RvalueV::Cmp(a, b) => value::three_way(operand(r.vars, a), operand(r.vars, b)),
        RvalueV::GetStatic(k) => r.heap.statics[k],
        RvalueV::GetField { obj, field } => r.heap.fields[(field, operand(r.vars, obj))],
        RvalueV::ArrayLoad { arr, idx } => r.heap.arrays[(
            operand(r.vars, arr),
            operand(r.vars, idx).number() as int,
        )],
        RvalueV::ArrayLength(o) => Value::I32(r.heap.lengths[operand(r.vars, o)]),
        _ => Value::Unknown,
    }
}

/// After a statement of a frame.
pub open spec fn stepped(f: Frame, s: StmtV, r: Running) -> Running {
    match s {
        StmtV::Assign(v, rv) => Running { vars: r.vars.insert(v, rvalue(r, rv)), ..r },
        StmtV::Check(id) => Running {
            passed: r.passed && operand(r.vars, f.obligations[id.0 as int].cond).truth(),
            ..r
        },
        StmtV::PutStatic(k, o) => Running {
            heap: Heap { statics: r.heap.statics.insert(k, operand(r.vars, o)), ..r.heap },
            ..r
        },
        StmtV::PutField { obj, field, val } => Running {
            heap: Heap {
                fields: r.heap.fields.insert((field, operand(r.vars, obj)), operand(r.vars, val)),
                ..r.heap
            },
            ..r
        },
        StmtV::ArrayStore { arr, idx, val } => Running {
            heap: Heap {
                arrays: r.heap.arrays.insert(
                    (operand(r.vars, arr), operand(r.vars, idx).number() as int),
                    operand(r.vars, val),
                ),
                ..r.heap
            },
            ..r
        },
        _ => r,
    }
}

/// After the statements of a frame from `i` on.
pub open spec fn ran(f: Frame, i: int, r: Running) -> Running
    decreases f.stmts.len() - i,
{
    if i >= f.stmts.len() {
        r
    } else {
        ran(f, i + 1, stepped(f, f.stmts[i], r))
    }
}

/// The first of the cases that has the value.
pub open spec fn case_for(cases: Seq<(i32, BlockId)>, v: int, k: nat) -> Option<BlockId>
    decreases k,
{
    if k == 0 {
        None
    } else {
        match case_for(cases, v, (k - 1) as nat) {
            Some(t) => Some(t),
            None => if cases[k - 1].0 == v {
                Some(cases[k - 1].1)
            } else {
                None
            },
        }
    }
}

/// The block that follows.
pub open spec fn follows(t: TerminatorV, vars: Store) -> Option<BlockId> {
    match t {
        TerminatorV::Goto(b) => Some(b),
        TerminatorV::Branch { cond, then_, else_ } => if operand(vars, cond).truth() {
            Some(then_)
        } else {
            Some(else_)
        },
        TerminatorV::Switch { value, cases, default } => match case_for(
            cases,
            operand(vars, value).number() as int,
            cases.len(),
        ) {
            Some(b) => Some(b),
            None => Some(default),
        },
        _ => None,
    }
}

/// What the lifter has in hand stands for the machine: each entry of its stack has the
/// value that is there, and so has the variable of each local.
pub open spec fn stands_for(f: Frame, r: Running, m: Machine) -> bool {
    &&& f.stack.len() == m.stack.len()
    &&& forall|i: int| 0 <= i < f.stack.len() ==> operand(r.vars, #[trigger] f.stack[i]) == m.stack[i]
    &&& forall|s: u16| #[trigger]
        f.locals.dom().contains(s) ==> value::var(r.vars, f.locals[s]) == m.locals[s]
    &&& r.heap == m.heap
}

/// Variables and obligations exist and can be numbered, and every local has its own.
pub open spec fn in_order(f: Frame) -> bool {
    &&& f.vars.len() + 8 <= u32::MAX
    &&& f.obligations.len() + 8 <= u32::MAX
    &&& f.stack.len() <= 0xffff
    &&& forall|i: int|
        0 <= i < f.stack.len() ==> (#[trigger] f.stack[i] matches OperandV::Var(v) ==> v.0
            < f.vars.len())
    &&& forall|s: u16| #[trigger] f.locals.dom().contains(s) ==> f.locals[s].0 < f.vars.len()
    &&& forall|s: u16, t: u16|
        #[trigger] f.locals.dom().contains(s) && #[trigger] f.locals.dom().contains(t) && s != t
            ==> f.locals[s] != f.locals[t]
}

/// Nothing on the stack is read from the local.
pub open spec fn unread(f: Frame, s: u16) -> bool {
    f.locals.dom().contains(s) ==> forall|i: int|
        0 <= i < f.stack.len() ==> #[trigger] f.stack[i] != OperandV::Var(f.locals[s])
}

/// The lifter knows what the instruction looks at: a local that is read has a variable, a
/// local that is written is not on the stack, an entry is known to be wide if it is, a
/// short number is in its range, and assertions are not asked for.
pub open spec fn ready(cf: ClassFile, n: InsnV, f: Frame, m: Machine) -> bool {
    &&& 0x15 <= n.op <= 0x2d ==> f.locals.dom().contains(slot_of(n))
    &&& 0x36 <= n.op <= 0x4e ==> f.stack.len() > 0 && unread(
        (Frame { stack: f.stack.drop_last(), ..f }),
        slot_of(n),
    )
    &&& n.op == 0x84 ==> f.locals.dom().contains(n.imm as u16) && unread(f, n.imm as u16)
    &&& n.op == 0x5c && f.stack.len() > 0 ==> (step::wide(f, f.top(0)) <==> m.top(0) is I64)
    &&& n.op == 0xb2 ==> (cf.entry(n.imm as u16) matches Cp::Member(r) ==> r@.name
        != "$assertionsDisabled"@)
}

/// Every target of the instruction begins a block, and so does what comes after it.
pub open spec fn led(site: SiteV, n: InsnV) -> bool {
    &&& n.keys.len() < n.targets.len()
    &&& forall|i: int| 0 <= i < n.keys.len() ==> i32::MIN <= #[trigger] n.keys[i] <= i32::MAX
    &&& forall|i: int|
        0 <= i < n.targets.len() ==> frame::block_at(site.leaders, #[trigger] n.targets[i]) is Some
    &&& n.op != 0xa7 && n.op != 0xc8 && n.op != 0xaa && n.op != 0xab ==> n.off + n.len
        < site.code.bytes@.len() && frame::block_at(site.leaders, (n.off + n.len) as int) is Some
}

/// What the lifted instruction does is what the instruction does.
pub open spec fn agrees(site: SiteV, n: InsnV, f: Frame, r: Running, m: Machine) -> bool {
    let l = step::lifted(site, n, f);
    let q = ran(l.frame, f.stmts.len() as int, r);
    match executed(site.cf, n, m) {
        Then::Next(to) => l.step is Next && stands_for(l.frame, q, to) && q.passed == r.passed,
        Then::At(to, off) => led(site, n) ==> {
            &&& l.step matches Step::End(t, _) && follows(t, q.vars) == frame::block_at(
                site.leaders,
                off,
            )
            &&& stands_for(l.frame, q, to)
            &&& q.passed == r.passed
        },
        Then::Left(v) => {
            &&& l.step matches Step::End(TerminatorV::Return(o), _) && match (v, o) {
                (Some(x), Some(y)) => operand(q.vars, y) == x,
                (None, None) => true,
                _ => false,
            }
            &&& q.passed == r.passed
        },
        Then::Throws => l.step is Next && !q.passed,
        Then::Unsaid => true,
    }
}

/// The stack and the locals are there as they were where only new variables are written.
proof fn lemma_kept(f: Frame, r: Running, vars: Store)
    requires
        in_order(f),
        forall|v: VarId| v.0 < f.vars.len() ==> #[trigger] value::var(vars, v) == value::var(r.vars, v),
    ensures
        forall|i: int|
            0 <= i < f.stack.len() ==> operand(vars, #[trigger] f.stack[i]) == operand(r.vars, f.stack[i]),
        forall|s: u16| #[trigger]
            f.locals.dom().contains(s) ==> value::var(vars, f.locals[s]) == value::var(
                r.vars,
                f.locals[s],
            ),
{
}

proof fn lemma_moves(site: SiteV, n: InsnV, f: Frame, r: Running, m: Machine)
    requires
        stands_for(f, r, m),
        in_order(f),
        ready(site.cf, n, f, m),
        n.op < 0x2e || 0x36 <= n.op <= 0x4e || 0x57 <= n.op < 0x60,
    ensures
        agrees(site, n, f, r, m),
{
    reveal_with_fuel(ran, 3);
    let l = step::lifted(site, n, f);
    let q = ran(l.frame, f.stmts.len() as int, r);
    if 0x36 <= n.op <= 0x4e {
        let (g, v) = f.dropped(1).local(slot_of(n), insn::slot_ty(0));
        assert(q.vars == r.vars.insert(v, operand(r.vars, f.top(0)))) by {
            assert(l.frame.stmts.last() == StmtV::Assign(v, RvalueV::Use(f.top(0))));
        }
        if executed(site.cf, n, m) is Next {
            let to = executed(site.cf, n, m)->Next_0;
            assert forall|i: int| 0 <= i < l.frame.stack.len() implies operand(
                q.vars,
                #[trigger] l.frame.stack[i],
            ) == to.stack[i] by {
                assert(l.frame.stack[i] == f.stack[i]);
                assert(f.stack.drop_last()[i] == f.stack[i]);
            }
        }
    }
}

/// A conditional branch is taken just where its comparison holds.
proof fn lemma_tested(
    site: SiteV,
    n: InsnV,
    f: Frame,
    r: Running,
    m: Machine,
    g: Frame,
    op: BinOp,
    a: OperandV,
    b: OperandV,
    taken: bool,
)
    requires
        stands_for(g, r, m),
        in_order(g),
        g.stmts == f.stmts,
        step::lifted(site, n, f) == step::tested(site, n, g, op, a, b),
        value::binary(op, operand(r.vars, a), operand(r.vars, b)).truth() == taken,
        led(site, n),
        n.op != 0xa7 && n.op != 0xc8 && n.op != 0xaa && n.op != 0xab,
    ensures
        ({
            let l = step::lifted(site, n, f);
            let q = ran(l.frame, f.stmts.len() as int, r);
            &&& l.step matches Step::End(t, _) && follows(t, q.vars) == frame::block_at(
                site.leaders,
                if taken {
                    n.targets[0]
                } else {
                    (n.off + n.len) as int
                },
            )
            &&& stands_for(l.frame, q, m)
            &&& q.passed == r.passed
        }),
{
    reveal_with_fuel(ran, 3);
    let l = step::lifted(site, n, f);
    let q = ran(l.frame, f.stmts.len() as int, r);
    let h = g.emitted(Ty::Int, RvalueV::Bin(op, a, b));
    assert(frame::block_at(site.leaders, n.targets[0]) is Some);
    assert(l.frame == h);
    assert(h.stmts.last() == StmtV::Assign(g.next(), RvalueV::Bin(op, a, b)));
    assert(q.vars == r.vars.insert(g.next(), rvalue(r, RvalueV::Bin(op, a, b))));
    lemma_kept(g, r, q.vars);
}

proof fn lemma_branches(site: SiteV, n: InsnV, f: Frame, r: Running, m: Machine)
    requires
        stands_for(f, r, m),
        in_order(f),
        0x99 <= n.op <= 0xa6 || n.op == 0xc6 || n.op == 0xc7,
    ensures
        agrees(site, n, f, r, m),
{
    if executed(site.cf, n, m) is At && led(site, n) {
        let k: int = if n.op <= 0x9e || n.op >= 0xc6 {
            1
        } else {
            2
        };
        let g = f.dropped(k);
        let to = m.popped(k);
        let (x, y) = if k == 1 {
            (m.top(0), if n.op >= 0xc6 {
                Value::Ref(0)
            } else {
                Value::I32(0)
            })
        } else {
            (m.top(1), m.top(0))
        };
        let (a, b) = if k == 1 {
            (
                f.top(0),
                if n.op >= 0xc6 {
                    OperandV::Const(ConstV::Null)
                } else {
                    step::int_v(0)
                },
            )
        } else {
            (f.top(1), f.top(0))
        };
        let op = if n.op <= 0x9e {
            insn::order(n.op - 0x99)
        } else if n.op <= 0xa4 {
            insn::order(n.op - 0x9f)
        } else if n.op <= 0xa6 {
            insn::order(n.op - 0xa5)
        } else {
            insn::order(n.op - 0xc6)
        };
        let taken = if n.op <= 0x9e {
            relation(n.op - 0x99, m.top(0).number() as int, 0)
        } else if n.op <= 0xa4 {
            relation(n.op - 0x9f, m.top(1).number() as int, m.top(0).number() as int)
        } else if n.op <= 0xa6 {
            (m.top(0) == m.top(1)) == (n.op == 0xa5)
        } else {
            (m.top(0) == Value::Ref(0)) == (n.op == 0xc6)
        };
        assert(operand(r.vars, a) == x && operand(r.vars, b) == y);
        assert(value::binary(op, x, y).truth() == taken);
        lemma_tested(site, n, f, r, to, g, op, a, b, taken);
        assert(executed(site.cf, n, m) == branch(n, to, taken));
    }
}

/// A value is computed from the top `k` entries and takes their place.
proof fn lemma_computed(f: Frame, g: Frame, r: Running, m: Machine, k: int, ty: Ty, rv: RvalueV)
    requires
        stands_for(f, r, m),
        in_order(f),
        0 <= k <= f.stack.len(),
        g == f.dropped(k).computed(ty, rv),
    ensures
        ({
            let q = ran(g, f.stmts.len() as int, r);
            &&& stands_for(g, q, m.popped(k).pushed(rvalue(r, rv)))
            &&& q.passed == r.passed
        }),
{
    reveal_with_fuel(ran, 3);
    let q = ran(g, f.stmts.len() as int, r);
    assert(g.stmts.last() == StmtV::Assign(f.next(), rv));
    assert(q.vars == r.vars.insert(f.next(), rvalue(r, rv)));
    lemma_kept(f, r, q.vars);
    let to = m.popped(k).pushed(rvalue(r, rv));
    assert forall|i: int| 0 <= i < g.stack.len() implies operand(q.vars, #[trigger] g.stack[i])
        == to.stack[i] by {
        if i < g.stack.len() - 1 {
            assert(g.stack[i] == f.stack[i]);
        }
    }
}

proof fn lemma_divided(site: SiteV, n: InsnV, f: Frame, r: Running, m: Machine)
    requires
        stands_for(f, r, m),
        in_order(f),
        divides(n.op),
        m.ints() || m.longs(),
        m.longs() <==> n.op % 2 == 1,
    ensures
        agrees(site, n, f, r, m),
{
    reveal_with_fuel(ran, 5);
    let l = step::lifted(site, n, f);
    let base = f.stmts.len() as int;
    let q = ran(l.frame, base, r);
    let op = if n.op <= 0x6d {
        BinOp::Div
    } else {
        BinOp::Rem
    };
    let ty = if n.op % 2 == 1 {
        Ty::Long
    } else {
        Ty::Int
    };
    let (a, b) = (f.top(1), f.top(0));
    assert(operand(r.vars, a) == m.top(1) && operand(r.vars, b) == m.top(0));
    let t0 = f.next();
    let t1 = VarId((f.vars.len() + 1) as u32);
    let test = RvalueV::Bin(BinOp::Ne, b, step::zero(ty));
    assert(l.frame.stmts[base] == StmtV::Assign(t0, test));
    assert(l.frame.stmts[base + 1] is Check);
    assert(l.frame.stmts[base + 2] == StmtV::Assign(t1, RvalueV::Bin(op, a, b)));
    assert(l.frame.stmts.len() == base + 3);
    let id = l.frame.stmts[base + 1]->Check_0;
    assert(l.frame.obligations[id.0 as int].cond == OperandV::Var(t0));
    let r1 = stepped(l.frame, l.frame.stmts[base], r);
    let r2 = stepped(l.frame, l.frame.stmts[base + 1], r1);
    let r3 = stepped(l.frame, l.frame.stmts[base + 2], r2);
    assert(q == r3);
    assert(operand(r1.vars, OperandV::Var(t0)).truth() == (m.top(0).number() != 0));
    assert(operand(r2.vars, a) == m.top(1) && operand(r2.vars, b) == m.top(0));
    lemma_kept(f, r, q.vars);
    if executed(site.cf, n, m) is Next {
        let to = executed(site.cf, n, m)->Next_0;
        assert(value::var(q.vars, t1) == to.stack.last());
        assert forall|i: int| 0 <= i < l.frame.stack.len() implies operand(
            q.vars,
            #[trigger] l.frame.stack[i],
        ) == to.stack[i] by {
            if i < l.frame.stack.len() - 1 {
                assert(l.frame.stack[i] == f.stack[i]);
            }
        }
    }
}

proof fn lemma_arithmetic(site: SiteV, n: InsnV, f: Frame, r: Running, m: Machine)
    requires
        stands_for(f, r, m),
        in_order(f),
        ready(site.cf, n, f, m),
        0x60 <= n.op < 0x99,
    ensures
        agrees(site, n, f, r, m),
{
    let l = step::lifted(site, n, f);
    let base = f.stmts.len() as int;
    let q = ran(l.frame, base, r);
    let a = insn::action(n.op);
    if !(executed(site.cf, n, m) is Unsaid) {
        if divides(n.op) {
            lemma_divided(site, n, f, r, m);
        } else if n.op == 0x84 {
            reveal_with_fuel(ran, 4);
            let slot = n.imm as u16;
            let v = f.locals[slot];
            let t = f.next();
            let sum = RvalueV::Bin(BinOp::Add, OperandV::Var(v), step::int_v(n.delta as i32));
            assert(l.frame.stmts[base] == StmtV::Assign(t, sum));
            assert(l.frame.stmts[base + 1] == StmtV::Assign(v, RvalueV::Use(OperandV::Var(t))));
            let r1 = stepped(l.frame, l.frame.stmts[base], r);
            assert(q == stepped(l.frame, l.frame.stmts[base + 1], r1));
            assert(value::var(r1.vars, t) == rvalue(r, sum));
            assert(q.vars == r.vars.insert(t, rvalue(r, sum)).insert(v, rvalue(r, sum)));
        } else if n.op == 0x74 || n.op == 0x75 || n.op == 0x85 || n.op == 0x88 {
            assert(operand(r.vars, f.top(0)) == m.top(0));
            let (ty, rv) = match a {
                insn::Action::Neg(ty) => (ty, RvalueV::Neg(f.top(0))),
                insn::Action::Convert(ty) => (ty, RvalueV::Cast(ty, f.top(0))),
                _ => (Ty::Int, RvalueV::Use(f.top(0))),
            };
            lemma_computed(f, l.frame, r, m, 1, ty, rv);
        } else if n.op == 0x94 {
            lemma_computed(f, l.frame, r, m, 2, Ty::Int, RvalueV::Cmp(f.top(1), f.top(0)));
        } else {
            assert(operand(r.vars, f.top(0)) == m.top(0));
            assert(operand(r.vars, f.top(1)) == m.top(1));
            let (op, ty) = (a->Bin_0, a->Bin_1);
            if m.top(0) is I32 && m.top(1) is I32 {
                meaning::lemma_shift_distance(m.top(1)->I32_0, m.top(0)->I32_0);
            } else if m.top(0) is I32 {
                wide::lemma_long_distance(m.top(1)->I64_0, m.top(0)->I32_0);
            }
            lemma_computed(f, l.frame, r, m, 2, ty, RvalueV::Bin(op, f.top(1), f.top(0)));
        }
    }
}

proof fn lemma_cases(site: SiteV, n: InsnV, v: i32, k: nat)
    requires
        led(site, n),
        k <= n.keys.len(),
    ensures
        step::cases(site.leaders, n, k) is Some,
        step::cases(site.leaders, n, k)->0.len() == k,
        case_for(step::cases(site.leaders, n, k)->0, v as int, k) == match target_for(n, v as int, k) {
            Some(t) => frame::block_at(site.leaders, t),
            None => None,
        },
        target_for(n, v as int, k) matches Some(t) ==> frame::block_at(site.leaders, t) is Some,
    decreases k,
{
    if k > 0 {
        lemma_cases(site, n, v, (k - 1) as nat);
        assert(frame::block_at(site.leaders, n.targets[k as int]) is Some);
        assert(i32::MIN <= n.keys[k - 1] <= i32::MAX);
        let had = step::cases(site.leaders, n, (k - 1) as nat)->0;
        let now = step::cases(site.leaders, n, k)->0;
        lemma_case_prefix(had, now, v as int, (k - 1) as nat);
    }
}

proof fn lemma_case_prefix(a: Seq<(i32, BlockId)>, b: Seq<(i32, BlockId)>, v: int, k: nat)
    requires
        k <= a.len() <= b.len(),
        forall|i: int| 0 <= i < k ==> a[i] == #[trigger] b[i],
    ensures
        case_for(a, v, k) == case_for(b, v, k),
    decreases k,
{
    if k > 0 {
        lemma_case_prefix(a, b, v, (k - 1) as nat);
    }
}

proof fn lemma_switched(site: SiteV, n: InsnV, f: Frame, r: Running, m: Machine)
    requires
        stands_for(f, r, m),
        in_order(f),
        n.op == 0xaa || n.op == 0xab,
    ensures
        agrees(site, n, f, r, m),
{
    reveal_with_fuel(ran, 3);
    if executed(site.cf, n, m) is At && led(site, n) {
        let l = step::lifted(site, n, f);
        let base = f.stmts.len() as int;
        let q = ran(l.frame, base, r);
        assert(operand(r.vars, f.top(0)) == m.top(0));
        lemma_cases(site, n, m.top(0)->I32_0, n.keys.len());
        assert(frame::block_at(site.leaders, n.targets[0]) is Some);
        let g = f.dropped(1);
        if step::on_stack(g, f.top(0)) {
            assert(l.frame.stmts[base] == StmtV::Assign(f.next(), RvalueV::Use(f.top(0))));
            assert(q.vars == r.vars.insert(f.next(), m.top(0)));
            lemma_kept(f, r, q.vars);
        } else {
            assert(q == r);
        }
        assert forall|i: int| 0 <= i < l.frame.stack.len() implies operand(
            q.vars,
            #[trigger] l.frame.stack[i],
        ) == m.popped(1).stack[i] by {
            assert(l.frame.stack[i] == f.stack[i]);
        }
    }
}

/// A check that an object is not null passes just where it is not.
proof fn lemma_null_checked(h: Frame, f: Frame, code: Code, obj: OperandV, off: u16, r: Running)
    requires
        in_order(f),
        operand(r.vars, obj) is Ref,
        ({
            let g = f.null_checked(code, obj, off);
            let base = f.stmts.len() as int;
            &&& h.stmts.len() >= base + 2
            &&& h.stmts[base] == g.stmts[base]
            &&& h.stmts[base + 1] == g.stmts[base + 1]
            &&& h.obligations.len() >= g.obligations.len()
            &&& h.obligations[f.obligations.len() as int] == g.obligations[f.obligations.len() as int]
        }),
    ensures
        ({
            let base = f.stmts.len() as int;
            let t = rvalue(r, RvalueV::Bin(BinOp::Ne, obj, OperandV::Const(ConstV::Null)));
            ran(h, base, r) == ran(
                h,
                base + 2,
                Running {
                    vars: r.vars.insert(f.next(), t),
                    passed: r.passed && operand(r.vars, obj) != Value::Ref(0),
                    ..r
                },
            )
        }),
{
    reveal_with_fuel(ran, 3);
    let g = f.null_checked(code, obj, off);
    let base = f.stmts.len() as int;
    let id = f.obligations.len() as int;
    assert(g.obligations[id].cond == OperandV::Var(f.next()));
    let r1 = stepped(h, h.stmts[base], r);
    let r2 = stepped(h, h.stmts[base + 1], r1);
    assert(value::var(r1.vars, f.next()) == rvalue(
        r,
        RvalueV::Bin(BinOp::Ne, obj, OperandV::Const(ConstV::Null)),
    ));
    assert(ran(h, base, r) == ran(h, base + 1, r1));
    assert(ran(h, base + 1, r1) == ran(h, base + 2, r2));
}

proof fn lemma_fields(site: SiteV, n: InsnV, f: Frame, r: Running, m: Machine)
    requires
        stands_for(f, r, m),
        in_order(f),
        ready(site.cf, n, f, m),
        0xb2 <= n.op <= 0xb5,
    ensures
        agrees(site, n, f, r, m),
{
    if !(executed(site.cf, n, m) is Unsaid) {
        let l = step::lifted(site, n, f);
        let base = f.stmts.len() as int;
        let q = ran(l.frame, base, r);
        let field = step::field_v(site.cf.member(step::index(n))->Ok_0);
        if n.op == 0xb2 {
            assert(f.dropped(0) == f) by {
                assert(f.stack.take(f.stack.len() as int) =~= f.stack);
            }
            assert(m.popped(0).stack =~= m.stack);
            lemma_computed(
                f,
                l.frame,
                r,
                m,
                0,
                desc::field_ty(field.desc),
                RvalueV::GetStatic(field),
            );
        } else if n.op == 0xb3 {
            reveal_with_fuel(ran, 3);
            assert(operand(r.vars, f.top(0)) == m.top(0));
            assert(l.frame.stmts[base] == StmtV::PutStatic(field, f.top(0)));
            assert(q == stepped(l.frame, l.frame.stmts[base], r));
        } else {
            let k: int = if n.op == 0xb4 {
                1
            } else {
                2
            };
            let obj = f.top(k - 1);
            let g = f.dropped(k);
            assert(operand(r.vars, obj) == m.top(k - 1));
            lemma_null_checked(l.frame, g, site.code, obj, step::offset(n), r);
            reveal_with_fuel(ran, 3);
            let t = rvalue(r, RvalueV::Bin(BinOp::Ne, obj, OperandV::Const(ConstV::Null)));
            let r2 = Running {
                vars: r.vars.insert(f.next(), t),
                passed: r.passed && m.top(k - 1) != Value::Ref(0),
                ..r
            };
            assert(q == stepped(l.frame, l.frame.stmts[base + 2], r2));
            lemma_kept(f, r, r2.vars);
            lemma_kept(f, r, q.vars);
            if n.op == 0xb4 {
                assert(l.frame.stmts[base + 2] == StmtV::Assign(
                    VarId((f.vars.len() + 1) as u32),
                    (RvalueV::GetField { obj, field }),
                ));
            } else {
                assert(l.frame.stmts[base + 2] == (StmtV::PutField { obj, field, val: f.top(0) }));
                assert(operand(r2.vars, f.top(0)) == m.top(0));
            }
            assert(operand(r2.vars, obj) == m.top(k - 1));
            if executed(site.cf, n, m) is Next {
                let to = executed(site.cf, n, m)->Next_0;
                assert forall|i: int| 0 <= i < l.frame.stack.len() implies operand(
                    q.vars,
                    #[trigger] l.frame.stack[i],
                ) == to.stack[i] by {
                    if i < f.stack.len() - k {
                        assert(l.frame.stack[i] == f.stack[i]);
                    }
                }
            }
        }
    }
}

/// `arraylength`, `monitorenter` and `monitorexit`.
proof fn lemma_objects(site: SiteV, n: InsnV, f: Frame, r: Running, m: Machine)
    requires
        stands_for(f, r, m),
        in_order(f),
        n.op == 0xbe || n.op == 0xc2 || n.op == 0xc3,
    ensures
        agrees(site, n, f, r, m),
{
    if !(executed(site.cf, n, m) is Unsaid) {
        let l = step::lifted(site, n, f);
        let base = f.stmts.len() as int;
        let q = ran(l.frame, base, r);
        let obj = f.top(0);
        assert(operand(r.vars, obj) == m.top(0));
        lemma_null_checked(l.frame, f.dropped(1), site.code, obj, step::offset(n), r);
        reveal_with_fuel(ran, 3);
        let t = rvalue(r, RvalueV::Bin(BinOp::Ne, obj, OperandV::Const(ConstV::Null)));
        let r2 = Running {
            vars: r.vars.insert(f.next(), t),
            passed: r.passed && m.top(0) != Value::Ref(0),
            ..r
        };
        lemma_kept(f, r, r2.vars);
        assert(operand(r2.vars, obj) == m.top(0));
        if n.op == 0xbe {
            assert(l.frame.stmts[base + 2] == StmtV::Assign(
                VarId((f.vars.len() + 1) as u32),
                RvalueV::ArrayLength(obj),
            ));
            assert(q == stepped(l.frame, l.frame.stmts[base + 2], r2));
        } else {
            assert(q == r2);
        }
        lemma_kept(f, r, q.vars);
        if executed(site.cf, n, m) is Next {
            let to = executed(site.cf, n, m)->Next_0;
            assert forall|i: int| 0 <= i < l.frame.stack.len() implies operand(
                q.vars,
                #[trigger] l.frame.stack[i],
            ) == to.stack[i] by {
                if i < f.stack.len() - 1 {
                    assert(l.frame.stack[i] == f.stack[i]);
                }
            }
        }
    }
}

proof fn lemma_both(x: bool, y: bool)
    ensures
        value::binary(BinOp::And, value::bit(x), value::bit(y)).truth() == (x && y),
{
    assert(1i32 & 1i32 == 1i32) by (bit_vector);
    assert(1i32 & 0i32 == 0i32) by (bit_vector);
    assert(0i32 & 1i32 == 0i32) by (bit_vector);
    assert(0i32 & 0i32 == 0i32) by (bit_vector);
}

/// Reads and writes of arrays.
proof fn lemma_arrays(site: SiteV, n: InsnV, f: Frame, r: Running, m: Machine)
    requires
        stands_for(f, r, m),
        in_order(f),
        0x2e <= n.op <= 0x35 || 0x4f <= n.op <= 0x56,
    ensures
        agrees(site, n, f, r, m),
{
    if !(executed(site.cf, n, m) is Unsaid) {
        let l = step::lifted(site, n, f);
        let base = f.stmts.len() as int;
        let q = ran(l.frame, base, r);
        let reads = n.op <= 0x35;
        let k: int = if reads {
            2
        } else {
            3
        };
        let (arr, idx) = (f.top(k - 1), f.top(k - 2));
        let (va, vi) = (m.top(k - 1), m.top(k - 2));
        assert(operand(r.vars, arr) == va && operand(r.vars, idx) == vi);
        lemma_null_checked(l.frame, f.dropped(k), site.code, arr, step::offset(n), r);
        let t = rvalue(r, RvalueV::Bin(BinOp::Ne, arr, OperandV::Const(ConstV::Null)));
        let r2 = Running {
            vars: r.vars.insert(f.next(), t),
            passed: r.passed && va != Value::Ref(0),
            ..r
        };
        let nv = f.vars.len();
        let (v1, v2, v3, v4) = (
            VarId((nv + 1) as u32),
            VarId((nv + 2) as u32),
            VarId((nv + 3) as u32),
            VarId((nv + 4) as u32),
        );
        let st = l.frame.stmts;
        assert(st[base + 2] == StmtV::Assign(v1, RvalueV::ArrayLength(arr)));
        assert(st[base + 3] == StmtV::Assign(v2, RvalueV::Bin(BinOp::Ge, idx, step::int_v(0))));
        assert(st[base + 4] == StmtV::Assign(
            v3,
            RvalueV::Bin(BinOp::Lt, idx, OperandV::Var(v1)),
        ));
        assert(st[base + 5] == StmtV::Assign(
            v4,
            RvalueV::Bin(BinOp::And, OperandV::Var(v2), OperandV::Var(v3)),
        ));
        assert(st[base + 6] is Check);
        let id = st[base + 6]->Check_0;
        assert(l.frame.obligations[id.0 as int].cond == OperandV::Var(v4));
        let r3 = stepped(l.frame, st[base + 2], r2);
        let r4 = stepped(l.frame, st[base + 3], r3);
        let r5 = stepped(l.frame, st[base + 4], r4);
        let r6 = stepped(l.frame, st[base + 5], r5);
        let r7 = stepped(l.frame, st[base + 6], r6);
        let r8 = stepped(l.frame, st[base + 7], r7);
        lemma_kept(f, r, r2.vars);
        lemma_kept(f, r, r3.vars);
        lemma_kept(f, r, r4.vars);
        lemma_kept(f, r, r5.vars);
        lemma_kept(f, r, r7.vars);
        let len = m.heap.lengths[va];
        let i = vi.number() as int;
        assert(value::var(r5.vars, v2) == value::bit(i >= 0));
        assert(value::var(r5.vars, v3) == value::bit(i < len));
        lemma_both(i >= 0, i < len);
        assert(value::var(r6.vars, v4).truth() == (0 <= i < len));
        assert(r7.passed == (r.passed && va != Value::Ref(0) && 0 <= i < len));
        reveal_with_fuel(ran, 8);
        assert(ran(l.frame, base + 2, r2) == ran(l.frame, base + 7, r7));
        assert(q == r8);
        if reads {
            assert(st[base + 7] is Assign);
            assert(st[base + 7]->Assign_1 == (RvalueV::ArrayLoad { arr, idx }));
            assert(st[base + 7]->Assign_0 == VarId((nv + 5) as u32));
        } else {
            assert(st[base + 7] == (StmtV::ArrayStore { arr, idx, val: f.top(0) }));
        }
        lemma_kept(f, r, q.vars);
        if executed(site.cf, n, m) is Next {
            let to = executed(site.cf, n, m)->Next_0;
            assert forall|i: int| 0 <= i < l.frame.stack.len() implies operand(
                q.vars,
                #[trigger] l.frame.stack[i],
            ) == to.stack[i] by {
                if i < f.stack.len() - k {
                    assert(l.frame.stack[i] == f.stack[i]);
                }
            }
        }
    }
}

/// A lifted instruction does what the instruction does. Run from values that the lifter's
/// stack and locals stand for, its statements leave values that they stand for again; the
/// block that follows is the one at the offset where the machine goes on, so a branch is
/// taken just where its comparison holds of the numbers or references; what is returned is
/// what the machine returns; and a check fails just where the machine throws.
pub proof fn law_lifting_follows_the_machine(
    site: SiteV,
    n: InsnV,
    f: Frame,
    r: Running,
    m: Machine,
)
    requires
        stands_for(f, r, m),
        in_order(f),
        ready(site.cf, n, f, m),
    ensures
        agrees(site, n, f, r, m),
{
    if n.op < 0x60 {
        if 0x2e <= n.op <= 0x35 || 0x4f <= n.op <= 0x56 {
            lemma_arrays(site, n, f, r, m);
        } else {
            lemma_moves(site, n, f, r, m);
        }
    } else if n.op < 0x99 {
        lemma_arithmetic(site, n, f, r, m);
    } else if n.op <= 0xa6 || n.op == 0xc6 || n.op == 0xc7 {
        lemma_branches(site, n, f, r, m);
    } else if n.op == 0xaa || n.op == 0xab {
        lemma_switched(site, n, f, r, m);
    } else if 0xb2 <= n.op <= 0xb5 {
        lemma_fields(site, n, f, r, m);
    } else if n.op == 0xbe || n.op == 0xc2 || n.op == 0xc3 {
        lemma_objects(site, n, f, r, m);
    } else if n.op == 0xa7 || n.op == 0xc8 {
        if led(site, n) {
            assert(frame::block_at(site.leaders, n.targets[0]) is Some);
        }
    } else if 0xac <= n.op <= 0xb0 {
        if f.stack.len() > 0 {
            assert(operand(r.vars, f.top(0)) == m.top(0));
        }
    }
}

/// `if_icmp` and the like: on a stack that ends in the values of two operands, what is
/// emitted makes the branch go to its target just where the comparison that the opcode
/// names holds of them, the one below being on the left.
pub proof fn law_branches_compare_in_order(site: SiteV, n: InsnV, f: Frame, r: Running, m: Machine)
    requires
        stands_for(f, r, m),
        in_order(f),
        led(site, n),
        0x9f <= n.op <= 0xa4,
        m.ints(),
        frame::block_at(site.leaders, n.targets[0]) != frame::block_at(
            site.leaders,
            (n.off + n.len) as int,
        ),
    ensures
        ({
            let l = step::lifted(site, n, f);
            let q = ran(l.frame, f.stmts.len() as int, r);
            let x = m.top(1).number();
            let y = m.top(0).number();
            let taken = match l.step {
                Step::End(t, _) => follows(t, q.vars) == frame::block_at(site.leaders, n.targets[0]),
                _ => false,
            };
            &&& l.step matches Step::End(t, _) && t is Branch
            &&& n.op == 0x9f ==> (taken <==> x == y)
            &&& n.op == 0xa0 ==> (taken <==> x != y)
            &&& n.op == 0xa1 ==> (taken <==> x < y)
            &&& n.op == 0xa2 ==> (taken <==> x >= y)
            &&& n.op == 0xa3 ==> (taken <==> x > y)
            &&& n.op == 0xa4 ==> (taken <==> x <= y)
        }),
{
    law_lifting_follows_the_machine(site, n, f, r, m);
    assert(frame::block_at(site.leaders, n.targets[0]) is Some);
}

/// A call passes the values that are on the stack, in their order: the receiver first, if
/// there is one, and the last argument from the top. The receiver is checked just for not
/// being null, the values leave the stack, and a result takes their place.
pub proof fn law_calls_pass_their_arguments(
    site: SiteV,
    n: InsnV,
    f: Frame,
    r: Running,
    m: Machine,
    member: MemberRefV,
)
    requires
        stands_for(f, r, m),
        in_order(f),
        0xb6 <= n.op <= 0xb9,
        site.cf.member(step::index(n)) == Ok::<MemberRefV, Seq<char>>(member),
        site.models.model_of(member.owner, member.name, member.desc) is Unmodelled,
        ({
            let count = desc::count_params(member.desc, 1) + if n.op == 0xb8 { 0int } else { 1int };
            &&& m.stack.len() >= count
            &&& n.op != 0xb8 ==> m.stack[m.stack.len() - count] is Ref
        }),
    ensures
        ({
            let count = desc::count_params(member.desc, 1) + if n.op == 0xb8 { 0int } else { 1int };
            let l = step::lifted(site, n, f);
            let q = ran(l.frame, f.stmts.len() as int, r);
            let below = m.stack.len() - count;
            let has_result = desc::return_ty(member.desc) is Some;
            &&& l.step is Next
            &&& l.frame.stmts.last() matches StmtV::Assign(v, RvalueV::Call { target, args, is_virtual }) && {
                &&& target == (MethodKeyV {
                    class: member.owner,
                    name: member.name,
                    desc: member.desc,
                })
                &&& args.len() == count
                &&& forall|i: int|
                    0 <= i < count ==> operand(q.vars, #[trigger] args[i]) == m.stack[below + i]
                &&& is_virtual <==> n.op == 0xb6 || n.op == 0xb9
                &&& has_result ==> l.frame.stack.last() == OperandV::Var(v)
                &&& v.0 >= f.vars.len()
            }
            &&& l.frame.stack.len() == below + if has_result { 1int } else { 0int }
            &&& forall|i: int|
                0 <= i < below ==> operand(q.vars, #[trigger] l.frame.stack[i]) == m.stack[i]
            &&& q.passed == (r.passed && (n.op != 0xb8 ==> m.stack[below] != Value::Ref(0)))
            &&& q.heap == m.heap
        }),
{
    let recv = n.op != 0xb8;
    let count = desc::count_params(member.desc, 1) + if recv {
        1int
    } else {
        0int
    };
    let l = step::lifted(site, n, f);
    let base = f.stmts.len() as int;
    let q = ran(l.frame, base, r);
    let all = f.stack.skip(f.stack.len() - count);
    let g = f.dropped(count);
    assert forall|i: int| 0 <= i < count implies operand(r.vars, #[trigger] all[i]) == m.stack[
        m.stack.len() - count + i] by {
        assert(all[i] == f.stack[f.stack.len() - count + i]);
    }
    let rv = step::call_v(n, member, all);
    if recv {
        let obj = all[0];
        assert(operand(r.vars, obj) == m.stack[m.stack.len() - count]);
        lemma_null_checked(l.frame, g, site.code, obj, step::offset(n), r);
        let t = rvalue(r, RvalueV::Bin(BinOp::Ne, obj, OperandV::Const(ConstV::Null)));
        let r2 = Running {
            vars: r.vars.insert(f.next(), t),
            passed: r.passed && operand(r.vars, obj) != Value::Ref(0),
            ..r
        };
        assert(l.frame.stmts[base + 2] == StmtV::Assign(VarId((f.vars.len() + 1) as u32), rv));
        assert(l.frame.stmts.len() == base + 3);
        reveal_with_fuel(ran, 3);
        assert(q == stepped(l.frame, l.frame.stmts[base + 2], r2));
    } else {
        assert(l.frame.stmts[base] == StmtV::Assign(f.next(), rv));
        assert(l.frame.stmts.len() == base + 1);
        reveal_with_fuel(ran, 3);
        assert(q == stepped(l.frame, l.frame.stmts[base], r));
    }
    lemma_kept(f, r, q.vars);
    assert forall|i: int| 0 <= i < count implies operand(q.vars, #[trigger] all[i]) == m.stack[
        m.stack.len() - count + i] by {
        assert(all[i] == f.stack[f.stack.len() - count + i]);
    }
    assert forall|i: int| 0 <= i < m.stack.len() - count implies operand(
        q.vars,
        #[trigger] l.frame.stack[i],
    ) == m.stack[i] by {
        assert(l.frame.stack[i] == f.stack[i]);
    }
}

/// A new array takes its length from the top of the stack and is pushed in its place; the
/// check before it passes just where the length is not negative.
pub proof fn law_array_lengths_are_checked(site: SiteV, n: InsnV, f: Frame, r: Running, m: Machine)
    requires
        stands_for(f, r, m),
        in_order(f),
        n.op == 0xbc || n.op == 0xbd,
        m.has(1),
        m.top(0) is I32,
    ensures
        ({
            let l = step::lifted(site, n, f);
            let q = ran(l.frame, f.stmts.len() as int, r);
            &&& l.step is Next
            &&& q.passed == (r.passed && m.top(0).number() >= 0)
            &&& l.frame.stack.len() == m.stack.len()
            &&& l.frame.stmts.last() matches StmtV::Assign(v, RvalueV::NewArray { elem, len }) && {
                &&& operand(q.vars, len) == m.top(0)
                &&& l.frame.stack.last() == OperandV::Var(v)
            }
            &&& forall|i: int|
                0 <= i < m.stack.len() - 1 ==> operand(q.vars, #[trigger] l.frame.stack[i])
                    == m.stack[i]
        }),
{
    let l = step::lifted(site, n, f);
    let base = f.stmts.len() as int;
    let q = ran(l.frame, base, r);
    let len = f.top(0);
    assert(operand(r.vars, len) == m.top(0));
    let st = l.frame.stmts;
    let test = RvalueV::Bin(BinOp::Ge, len, step::int_v(0));
    assert(st[base] == StmtV::Assign(f.next(), test));
    assert(st[base + 1] is Check);
    let id = st[base + 1]->Check_0;
    assert(l.frame.obligations[id.0 as int].cond == OperandV::Var(f.next()));
    assert(st.len() == base + 3);
    let r1 = stepped(l.frame, st[base], r);
    let r2 = stepped(l.frame, st[base + 1], r1);
    reveal_with_fuel(ran, 4);
    assert(q == stepped(l.frame, st[base + 2], r2));
    assert(value::var(r1.vars, f.next()) == rvalue(r, test));
    lemma_kept(f, r, q.vars);
    assert forall|i: int| 0 <= i < m.stack.len() - 1 implies operand(
        q.vars,
        #[trigger] l.frame.stack[i],
    ) == m.stack[i] by {
        assert(l.frame.stack[i] == f.stack[i]);
    }
    assert(operand(q.vars, len) == m.top(0)) by {
        assert(f.stack[f.stack.len() - 1] == len);
    }
}

} // verus!
