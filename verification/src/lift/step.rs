//! Lifting of single instructions.

use vstd::prelude::*;
use vstd::string::*;

use super::decode::{Insn, InsnV};
use super::frame;
use super::frame::{Frame, Lifter, SiteV};
use super::insn;
use super::insn::{action_of, Action};
use crate::classfile::{Cp, MemberRef, MemberRefV};
use crate::desc;
use crate::desc::{parse_desc, ty_of_field_desc};
use crate::ir;
use crate::ir::{
    BinOp, BlockId, Const, ConstV, FieldKey, FieldKeyV, MethodKey, MethodKeyV, ObligationKind,
    Operand, OperandV, Rvalue, RvalueV, Stmt, StmtV, Terminator, TerminatorV, Ty, VarId, VarKind,
};
use crate::models::CallModel;
use crate::text;
use crate::text::{dec_u64, hex_u64, same};

verus! {

/// What follows an instruction.
#[verifier::ext_equal]
pub enum Step {
    /// The next instruction.
    Next,
    /// The block ends; the blocks that follow and the height of the stack there.
    End(TerminatorV, Seq<(usize, u16)>),
    /// The instruction is not modelled.
    Stop(Seq<char>),
}

/// What follows an instruction.
pub enum Done {
    Next,
    End(Terminator, Vec<(usize, u16)>),
    Stop(String),
}

impl View for Done {
    type V = Step;

    open spec fn view(&self) -> Step {
        match *self {
            Done::Next => Step::Next,
            Done::End(t, s) => Step::End(t@, s@),
            Done::Stop(e) => Step::Stop(e@),
        }
    }
}

impl Done {
    /// The terminator refers to blocks and variables that exist.
    pub open spec fn fits(self, blocks: nat, vars: nat) -> bool {
        self matches Done::End(t, _) ==> {
            &&& ir::term_in_range(t, vars)
            &&& forall|i: int|
                0 <= i < ir::term_targets(t).len() ==> (#[trigger] ir::term_targets(t)[i]).0 < blocks
        }
    }
}

/// The state after an instruction, and what follows.
#[verifier::ext_equal]
pub struct Lifted {
    pub frame: Frame,
    pub step: Step,
}

/// Go on with the next instruction.
pub open spec fn next(f: Frame) -> Lifted {
    Lifted { frame: f, step: Step::Next }
}

/// Stop for the reason.
pub open spec fn stop(f: Frame, why: Seq<char>) -> Lifted {
    Lifted { frame: f, step: Step::Stop(why) }
}

/// The stack holds too little.
pub open spec fn short(f: Frame) -> Lifted {
    stop(f, "stack underflow"@)
}

/// The integer constant.
pub open spec fn int_v(n: i32) -> OperandV {
    OperandV::Const(ConstV::Int(n))
}

/// The offset as it is recorded.
pub open spec fn offset(n: InsnV) -> u16 {
    n.off as u16
}

/// The operand of the instruction as an index.
pub open spec fn index(n: InsnV) -> u16 {
    n.imm as u16
}

/// A constant of the pool. Strings are references whose content is unknown.
pub open spec fn ldc(site: SiteV, n: InsnV, f: Frame) -> Lifted {
    match site.cf.entry(index(n)) {
        Cp::Int(v) => next(f.pushed(OperandV::Const(ConstV::Int(v)))),
        Cp::Long(v) => next(f.pushed(OperandV::Const(ConstV::Long(v)))),
        Cp::Float(v) => next(f.pushed(OperandV::Const(ConstV::Float(v)))),
        Cp::Double(v) => next(f.pushed(OperandV::Const(ConstV::Double(v)))),
        Cp::Str(_) => next(f.computed(Ty::Ref, RvalueV::Nondet(Ty::Ref, None))),
        Cp::Class(_) => next(f.pushed(OperandV::Const(ConstV::Class("<class>"@)))),
        _ => stop(f, "unsupported ldc at "@ + text::dec(offset(n) as nat)),
    }
}

/// The slot that the instruction names.
pub open spec fn slot(n: InsnV, s: Option<u16>) -> u16 {
    match s {
        Some(k) => k,
        None => index(n),
    }
}

/// Push a local.
pub open spec fn load(n: InsnV, f: Frame, s: Option<u16>, ty: Ty) -> Lifted {
    let (g, v) = f.local(slot(n, s), ty);
    next(g.pushed(OperandV::Var(v)))
}

/// Store into a local.
pub open spec fn store(n: InsnV, f: Frame, s: Option<u16>, ty: Ty) -> Lifted {
    if f.stack.len() < 1 {
        short(f)
    } else {
        let val = f.top(0);
        let (g, v) = f.dropped(1).local(slot(n, s), ty);
        next(g.class_copied(v, val).with_stmt(StmtV::Assign(v, RvalueV::Use(val))))
    }
}

/// Read an array.
pub open spec fn array_load(site: SiteV, n: InsnV, f: Frame, ty: Ty) -> Lifted {
    if f.stack.len() < 2 {
        short(f)
    } else {
        let arr = f.top(1);
        let idx = f.top(0);
        let g = f.dropped(2).null_checked(site.code, arr, offset(n)).bounds_checked(
            site.code,
            arr,
            idx,
            offset(n),
        );
        next(g.computed(ty, (RvalueV::ArrayLoad { arr, idx })))
    }
}

/// Write an array.
pub open spec fn array_store(site: SiteV, n: InsnV, f: Frame) -> Lifted {
    if f.stack.len() < 3 {
        short(f)
    } else {
        let arr = f.top(2);
        let idx = f.top(1);
        let val = f.top(0);
        let g = f.dropped(3).null_checked(site.code, arr, offset(n)).bounds_checked(
            site.code,
            arr,
            idx,
            offset(n),
        );
        next(g.with_stmt((StmtV::ArrayStore { arr, idx, val })))
    }
}

/// Does the operand take two slots?
pub open spec fn wide(f: Frame, o: OperandV) -> bool {
    match o {
        OperandV::Const(ConstV::Long(_)) | OperandV::Const(ConstV::Double(_)) => true,
        OperandV::Var(v) => f.vars[v.0 as int].ty.wide(),
        _ => false,
    }
}

/// Rearrange the stack. A stack entry is a value, so that `dup2` copies one
/// entry if it is wide and two otherwise.
pub open spec fn shuffled(f: Frame, a: Action) -> Lifted {
    let n = f.stack.len();
    match a {
        Action::Pop => if n < 1 {
            short(f)
        } else {
            next(f.dropped(1))
        },
        Action::Dup => if n < 1 {
            stop(f, "dup on empty stack"@)
        } else {
            next(f.pushed(f.top(0)))
        },
        Action::DupX1 => if n < 2 {
            short(f)
        } else {
            next(f.dropped(2).pushed(f.top(0)).pushed(f.top(1)).pushed(f.top(0)))
        },
        Action::DupX2 => if n < 3 {
            short(f)
        } else {
            next(
                f.dropped(3).pushed(f.top(0)).pushed(f.top(2)).pushed(f.top(1)).pushed(f.top(0)),
            )
        },
        Action::Dup2 => if n < 1 {
            stop(f, "dup2 on empty stack"@)
        } else if wide(f, f.top(0)) {
            next(f.pushed(f.top(0)))
        } else if n < 2 {
            short(f)
        } else {
            next(
                f.dropped(2).pushed(f.top(1)).pushed(f.top(0)).pushed(f.top(1)).pushed(f.top(0)),
            )
        },
        _ => if n < 2 {
            short(f)
        } else {
            next(f.dropped(2).pushed(f.top(0)).pushed(f.top(1)))
        },
    }
}

/// An operator on two values.
pub open spec fn binary(f: Frame, op: BinOp, ty: Ty) -> Lifted {
    if f.stack.len() < 2 {
        short(f)
    } else {
        next(f.dropped(2).computed(ty, RvalueV::Bin(op, f.top(1), f.top(0))))
    }
}

/// The zero of an integer type.
pub open spec fn zero(ty: Ty) -> OperandV {
    if ty == Ty::Long {
        OperandV::Const(ConstV::Long(0))
    } else {
        int_v(0)
    }
}

/// Division or remainder of integers, which must not be by zero.
pub open spec fn divided(site: SiteV, n: InsnV, f: Frame, op: BinOp, ty: Ty) -> Lifted {
    if f.stack.len() < 2 {
        short(f)
    } else {
        let a = f.top(1);
        let b = f.top(0);
        let g = f.dropped(2);
        let h = g.emitted(Ty::Int, RvalueV::Bin(BinOp::Ne, b, zero(ty))).checked(
            site.code,
            ObligationKind::DivByZero,
            OperandV::Var(g.next()),
            offset(n),
        );
        next(h.computed(ty, RvalueV::Bin(op, a, b)))
    }
}

/// An operation on one value.
pub open spec fn unary(f: Frame, a: Action) -> Lifted {
    if f.stack.len() < 1 {
        short(f)
    } else {
        let o = f.top(0);
        let g = f.dropped(1);
        match a {
            Action::Neg(ty) => next(g.computed(ty, RvalueV::Neg(o))),
            Action::Convert(ty) => next(g.computed(ty, RvalueV::Cast(ty, o))),
            _ => next(g),
        }
    }
}

/// The three-way comparison of two values.
pub open spec fn compared(f: Frame) -> Lifted {
    if f.stack.len() < 2 {
        short(f)
    } else {
        next(f.dropped(2).computed(Ty::Int, RvalueV::Cmp(f.top(1), f.top(0))))
    }
}

/// Add a constant to a local.
pub open spec fn incremented(n: InsnV, f: Frame) -> Lifted {
    let (g, v) = f.local(index(n), Ty::Int);
    let h = g.emitted(Ty::Int, RvalueV::Bin(BinOp::Add, OperandV::Var(v), int_v(n.delta as i32)));
    next(h.with_stmt(StmtV::Assign(v, RvalueV::Use(OperandV::Var(g.next())))))
}

/// Branch on the condition. The stack is spilled when the block ends.
pub open spec fn branched(site: SiteV, n: InsnV, f: Frame, cond: OperandV) -> Lifted {
    let after = n.off + n.len;
    match frame::block_at(site.leaders, n.targets[0]) {
        None => stop(f, "bad branch target"@),
        Some(then_) => if after >= site.code.bytes@.len() {
            stop(f, "conditional branch at end of code"@)
        } else {
            match frame::block_at(site.leaders, after as int) {
                None => stop(f, "no block at fallthrough "@ + text::dec(after)),
                Some(else_) => {
                    let h = f.stack.len() as u16;
                    Lifted {
                        frame: f,
                        step: Step::End(
                            TerminatorV::Branch { cond, then_, else_ },
                            seq![(then_.0 as usize, h), (else_.0 as usize, h)],
                        ),
                    }
                },
            }
        },
    }
}

/// Branch on the comparison of two values that were popped before.
pub open spec fn tested(site: SiteV, n: InsnV, f: Frame, op: BinOp, a: OperandV, b: OperandV) -> Lifted {
    branched(site, n, f.emitted(Ty::Int, RvalueV::Bin(op, a, b)), OperandV::Var(f.next()))
}

/// A conditional branch.
pub open spec fn conditional(site: SiteV, n: InsnV, f: Frame, a: Action) -> Lifted {
    match a {
        Action::IfZero(op) => if f.stack.len() < 1 {
            short(f)
        } else {
            tested(site, n, f.dropped(1), op, f.top(0), int_v(0))
        },
        Action::IfNull(op) => if f.stack.len() < 1 {
            short(f)
        } else {
            tested(site, n, f.dropped(1), op, f.top(0), OperandV::Const(ConstV::Null))
        },
        Action::IfPair(op) => if f.stack.len() < 2 {
            short(f)
        } else {
            tested(site, n, f.dropped(2), op, f.top(1), f.top(0))
        },
        _ => next(f),
    }
}

/// An unconditional branch.
pub open spec fn jumped(site: SiteV, n: InsnV, f: Frame) -> Lifted {
    match frame::block_at(site.leaders, n.targets[0]) {
        None => stop(f, "bad goto target"@),
        Some(t) => Lifted {
            frame: f,
            step: Step::End(TerminatorV::Goto(t), seq![(t.0 as usize, f.stack.len() as u16)]),
        },
    }
}

/// The first `k` cases of a switch, if all lead to blocks.
pub open spec fn cases(leaders: Seq<nat>, n: InsnV, k: nat) -> Option<Seq<(i32, BlockId)>>
    decreases k,
{
    if k == 0 {
        Some(Seq::empty())
    } else {
        match (
            cases(leaders, n, (k - 1) as nat),
            frame::block_at(leaders, n.targets[k as int]),
        ) {
            (Some(had), Some(b)) => Some(had.push((n.keys[k - 1] as i32, b))),
            _ => None,
        }
    }
}

/// The number of cases of a switch.
pub open spec fn case_count(n: InsnV) -> nat {
    if n.keys.len() + 1 <= n.targets.len() {
        n.keys.len()
    } else {
        (n.targets.len() - 1) as nat
    }
}

/// The blocks that follow a switch.
pub open spec fn switch_succs(default: BlockId, cs: Seq<(i32, BlockId)>, h: u16) -> Seq<(usize, u16)> {
    seq![(default.0 as usize, h)] + cs.map_values(|c: (i32, BlockId)| (c.1.0 as usize, h))
}

/// Is the operand the variable of a stack position?
pub open spec fn on_stack(f: Frame, op: OperandV) -> bool {
    op matches OperandV::Var(v) && f.vars[v.0 as int].kind is Stack
}

/// A value that is read after the stack was spilled: one that is in the variable of a
/// stack position is copied before.
pub open spec fn kept(f: Frame, op: OperandV) -> (Frame, OperandV) {
    if on_stack(f, op) {
        (f.emitted(Ty::Int, RvalueV::Use(op)), OperandV::Var(f.next()))
    } else {
        (f, op)
    }
}

/// A switch.
pub open spec fn switched(site: SiteV, n: InsnV, f: Frame) -> Lifted {
    if f.stack.len() < 1 {
        short(f)
    } else {
        let (g, value) = kept(f.dropped(1), f.top(0));
        let h = g.stack.len() as u16;
        match frame::block_at(site.leaders, n.targets[0]) {
            None => stop(g, "bad switch default"@),
            Some(default) => match cases(site.leaders, n, case_count(n)) {
                None => stop(g, "bad switch case"@),
                Some(cs) => Lifted {
                    frame: g,
                    step: Step::End(
                        TerminatorV::Switch { value, cases: cs, default },
                        switch_succs(default, cs, h),
                    ),
                },
            },
        }
    }
}

/// A return, or a throw.
pub open spec fn left(site: SiteV, n: InsnV, f: Frame, a: Action) -> Lifted {
    if a == Action::Return {
        Lifted { frame: f, step: Step::End(TerminatorV::Return(None), Seq::empty()) }
    } else if f.stack.len() < 1 {
        short(f)
    } else {
        let v = f.top(0);
        let g = f.dropped(1);
        if a == Action::ReturnValue {
            Lifted { frame: g, step: Step::End(TerminatorV::Return(Some(v)), Seq::empty()) }
        } else {
            let fails = match v {
                OperandV::Var(x) => f.classes.dom().contains(x) && f.classes[x]
                    == site.models.assertion_error@,
                _ => false,
            };
            let h = if fails {
                g.checked(site.code, ObligationKind::Assertion, int_v(0), offset(n))
            } else {
                g
            };
            Lifted { frame: h, step: Step::End(TerminatorV::Throw(v), Seq::empty()) }
        }
    }
}

/// The field that a reference names.
pub open spec fn field_v(r: MemberRefV) -> FieldKeyV {
    FieldKeyV { class: r.owner, name: r.name, desc: r.desc }
}

/// Access to a field. Assertions are switched on.
pub open spec fn field_access(site: SiteV, n: InsnV, f: Frame, a: Action) -> Lifted {
    match site.cf.member(index(n)) {
        Err(e) => stop(f, e),
        Ok(r) => match a {
            Action::GetStatic => if r.name == "$assertionsDisabled"@ {
                next(f.pushed(int_v(0)))
            } else {
                next(f.computed(desc::field_ty(r.desc), RvalueV::GetStatic(field_v(r))))
            },
            Action::PutStatic => if f.stack.len() < 1 {
                short(f)
            } else {
                next(f.dropped(1).with_stmt(StmtV::PutStatic(field_v(r), f.top(0))))
            },
            Action::GetField => if f.stack.len() < 1 {
                short(f)
            } else {
                let obj = f.top(0);
                next(
                    f.dropped(1).null_checked(site.code, obj, offset(n)).computed(
                        desc::field_ty(r.desc),
                        (RvalueV::GetField { obj, field: field_v(r) }),
                    ),
                )
            },
            _ => if f.stack.len() < 2 {
                short(f)
            } else {
                let obj = f.top(1);
                next(
                    f.dropped(2).null_checked(site.code, obj, offset(n)).with_stmt(
                        (StmtV::PutField { obj, field: field_v(r), val: f.top(0) }),
                    ),
                )
            },
        },
    }
}

/// What the array's elements are, by the code of the type.
pub open spec fn primitive(atype: int) -> Seq<char> {
    if atype == 4 {
        "boolean"@
    } else if atype == 5 {
        "char"@
    } else if atype == 6 {
        "float"@
    } else if atype == 7 {
        "double"@
    } else if atype == 8 {
        "byte"@
    } else if atype == 9 {
        "short"@
    } else if atype == 10 {
        "int"@
    } else if atype == 11 {
        "long"@
    } else {
        "?"@
    }
}

/// With a check that the length is not negative.
pub open spec fn length_checked(site: SiteV, n: InsnV, f: Frame, len: OperandV) -> Frame {
    f.emitted(Ty::Int, RvalueV::Bin(BinOp::Ge, len, int_v(0))).checked(
        site.code,
        ObligationKind::NegArraySize,
        OperandV::Var(f.next()),
        offset(n),
    )
}

/// The top `k` entries of the stack are checked as lengths.
pub open spec fn dims_checked(site: SiteV, n: InsnV, f: Frame, k: nat) -> Lifted
    decreases k,
{
    if k == 0 {
        next(f)
    } else if f.stack.len() < 1 {
        short(f)
    } else {
        dims_checked(site, n, length_checked(site, n, f.dropped(1), f.top(0)), (k - 1) as nat)
    }
}

/// The number of dimensions, at least one.
pub open spec fn dims(n: InsnV) -> nat {
    if n.keys.len() > 0 && n.keys[0] > 1 {
        n.keys[0] as nat
    } else {
        1
    }
}

/// Allocation.
pub open spec fn allocated(site: SiteV, n: InsnV, f: Frame, a: Action) -> Lifted {
    match a {
        Action::New => match site.cf.class_at(index(n)) {
            Err(e) => stop(f, e),
            Ok(c) => {
                let g = f.emitted(Ty::Ref, RvalueV::New(c));
                next(
                    Frame { classes: g.classes.insert(f.next(), c), ..g }.pushed(
                        OperandV::Var(f.next()),
                    ),
                )
            },
        },
        Action::NewArray => if f.stack.len() < 1 {
            short(f)
        } else {
            let len = f.top(0);
            let elem = if n.op == 0xbd {
                match site.cf.class_at(index(n)) {
                    Ok(c) => c,
                    Err(_) => "?"@,
                }
            } else {
                primitive(n.imm)
            };
            next(
                length_checked(site, n, f.dropped(1), len).computed(
                    Ty::Ref,
                    (RvalueV::NewArray { elem, len }),
                ),
            )
        },
        _ => {
            let l = dims_checked(site, n, f, dims(n));
            if l.step is Next {
                next(l.frame.computed(Ty::Ref, RvalueV::Nondet(Ty::Ref, None)))
            } else {
                l
            }
        },
    }
}

/// Length, cast, type test and monitors.
pub open spec fn inspected(site: SiteV, n: InsnV, f: Frame, a: Action) -> Lifted {
    if f.stack.len() < 1 {
        short(f)
    } else {
        let obj = f.top(0);
        let g = f.dropped(1);
        match a {
            Action::Length => next(
                g.null_checked(site.code, obj, offset(n)).computed(
                    Ty::Int,
                    RvalueV::ArrayLength(obj),
                ),
            ),
            Action::Monitor => next(g.null_checked(site.code, obj, offset(n))),
            Action::InstanceOf => match site.cf.class_at(index(n)) {
                Err(e) => stop(g, e),
                Ok(class) => next(g.computed(Ty::Int, (RvalueV::InstanceOf { obj, class }))),
            },
            _ => match site.cf.class_at(index(n)) {
                Err(e) => stop(g, e),
                Ok(class) => {
                    let h1 = g.emitted(Ty::Int, (RvalueV::InstanceOf { obj, class }));
                    let h2 = h1.emitted(
                        Ty::Int,
                        RvalueV::Bin(BinOp::Eq, obj, OperandV::Const(ConstV::Null)),
                    );
                    let h3 = h2.emitted(
                        Ty::Int,
                        RvalueV::Bin(BinOp::Or, OperandV::Var(h1.next()), OperandV::Var(g.next())),
                    );
                    next(
                        h3.checked(
                            site.code,
                            ObligationKind::ClassCast,
                            OperandV::Var(h2.next()),
                            offset(n),
                        ).pushed(obj),
                    )
                },
            },
        }
    }
}

/// The field of the ordinal.
pub open spec fn ordinal_field(site: SiteV) -> FieldKeyV {
    FieldKeyV {
        class: "java/lang/Enum"@,
        name: site.models.enum_ordinal_field@,
        desc: "I"@,
    }
}

/// With the result of a call, if there is one, on the stack.
pub open spec fn returned(f: Frame, ty: Option<Ty>, rv: RvalueV) -> Frame {
    match ty {
        Some(t) => f.computed(t, rv),
        None => f.emitted(Ty::Int, rv),
    }
}

/// Strings are references.
pub open spec fn as_ref_ty(ty: Option<Ty>) -> Option<Ty> {
    if ty == Some(Ty::Str) {
        Some(Ty::Ref)
    } else {
        ty
    }
}

/// The receiver, if there is one, is the first of the values that a call takes.
pub open spec fn receiver(recv: bool, all: Seq<OperandV>) -> Option<OperandV> {
    if recv {
        Some(all[0])
    } else {
        None
    }
}

/// The receiver is not null.
pub open spec fn receiver_checked(site: SiteV, n: InsnV, f: Frame, recv: Option<OperandV>) -> Frame {
    match recv {
        Some(o) => f.null_checked(site.code, o, offset(n)),
        None => f,
    }
}

/// The call that the instruction makes.
pub open spec fn call_v(n: InsnV, r: MemberRefV, all: Seq<OperandV>) -> RvalueV {
    RvalueV::Call {
        target: MethodKeyV { class: r.owner, name: r.name, desc: r.desc },
        args: all,
        is_virtual: n.op != 0xb8 && n.op != 0xb7,
    }
}

/// A call after the values that it takes were popped: the receiver, if there is
/// one, and the arguments.
pub open spec fn called(
    site: SiteV,
    n: InsnV,
    f: Frame,
    r: MemberRefV,
    recv: bool,
    all: Seq<OperandV>,
) -> Frame {
    let rv = call_v(n, r, all);
    let checked = receiver_checked(site, n, f, receiver(recv, all));
    match site.models.model_of(r.owner, r.name, r.desc) {
        CallModel::Assume => f.with_stmt(
            StmtV::Assume(
                all[if recv {
                    1
                } else {
                    0
                }],
            ),
        ),
        CallModel::NoOp => f,
        CallModel::Nondet(t) => {
            let ty = match t {
                Some(ty) => ty,
                None => Ty::Int,
            };
            f.computed(ty, RvalueV::Nondet(ty, None))
        },
        CallModel::Pure(None) => checked,
        CallModel::Pure(Some(ty)) => checked.computed(ty, RvalueV::Nondet(ty, None)),
        CallModel::StrCall(t) => returned(checked, as_ref_ty(t), rv),
        CallModel::EnumInit => {
            let ordinal = if all.len() >= 3 {
                all[2]
            } else {
                int_v(0)
            };
            f.with_stmt(
                (StmtV::PutField { obj: all[0], field: ordinal_field(site), val: ordinal }),
            )
        },
        CallModel::EnumOrdinal => f.null_checked(site.code, all[0], offset(n)).computed(
            Ty::Int,
            (RvalueV::GetField { obj: all[0], field: ordinal_field(site) }),
        ),
        CallModel::Unmodelled => returned(checked, desc::return_ty(r.desc), rv),
    }
}

/// A call.
pub open spec fn invoked(site: SiteV, n: InsnV, f: Frame) -> Lifted {
    match site.cf.member(index(n)) {
        Err(e) => stop(f, e),
        Ok(r) => {
            let recv = n.op != 0xb8;
            let count: int = if recv {
                desc::count_params(r.desc, 1) as int + 1
            } else {
                desc::count_params(r.desc, 1) as int
            };
            if f.stack.len() < count {
                short(f)
            } else {
                next(
                    called(
                        site,
                        n,
                        f.dropped(count),
                        r,
                        recv,
                        f.stack.skip(f.stack.len() - count),
                    ),
                )
            }
        },
    }
}

/// The instruction has what its lifting looks at: a branch has its target, and a
/// call that is modelled by its argument has one.
pub open spec fn liftable(site: SiteV, n: InsnV) -> bool {
    match insn::action(n.op) {
        Action::IfZero(_) | Action::IfPair(_) | Action::IfNull(_) | Action::Goto | Action::Switch =>
            n.targets.len() > 0,
        Action::Invoke => site.cf.member(index(n)) matches Ok(r) ==> {
            let argc = desc::count_params(r.desc, 1);
            match site.models.model_of(r.owner, r.name, r.desc) {
                CallModel::Assume => argc >= 1,
                CallModel::EnumInit | CallModel::EnumOrdinal => n.op != 0xb8 || argc >= 1,
                _ => true,
            }
        },
        _ => true,
    }
}

/// The instruction, lifted.
pub open spec fn lifted(site: SiteV, n: InsnV, f: Frame) -> Lifted {
    let a = insn::action(n.op);
    match a {
        Action::Nothing => next(f),
        Action::Push(c) => next(f.pushed(OperandV::Const(c.value()))),
        Action::PushImm => next(f.pushed(int_v(n.imm as i32))),
        Action::Ldc => ldc(site, n, f),
        Action::Load(s, ty) => load(n, f, s, ty),
        Action::Store(s, ty) => store(n, f, s, ty),
        Action::ArrayLoad(ty) => array_load(site, n, f, ty),
        Action::ArrayStore => array_store(site, n, f),
        Action::Pop | Action::Dup | Action::DupX1 | Action::DupX2 | Action::Dup2 | Action::Swap =>
            shuffled(f, a),
        Action::Bin(op, ty) => binary(f, op, ty),
        Action::Divide(op, ty) => divided(site, n, f, op, ty),
        Action::Neg(_) | Action::Convert(_) => unary(f, a),
        Action::Increment => incremented(n, f),
        Action::Compare => compared(f),
        Action::IfZero(_) | Action::IfPair(_) | Action::IfNull(_) => conditional(site, n, f, a),
        Action::Goto => jumped(site, n, f),
        Action::Switch => switched(site, n, f),
        Action::Return | Action::ReturnValue | Action::Throw => left(site, n, f, a),
        Action::GetStatic | Action::PutStatic | Action::GetField | Action::PutField => field_access(
            site,
            n,
            f,
            a,
        ),
        Action::Invoke => invoked(site, n, f),
        Action::Dynamic => stop(f, "invokedynamic not modelled"@),
        Action::New | Action::NewArray | Action::NewMulti => allocated(site, n, f, a),
        Action::Length | Action::CheckCast | Action::InstanceOf | Action::Monitor => inspected(
            site,
            n,
            f,
            a,
        ),
        Action::Unsupported => stop(
            f,
            "unsupported opcode 0x"@ + text::hex(n.op as nat, 2) + " at "@ + text::dec(
                offset(n) as nat,
            ),
        ),
    }
}


fn underflow() -> (d: Done)
    ensures
        d@ == Step::Stop("stack underflow"@),
        !(d is End),
{
    Done::Stop("stack underflow".to_string())
}

fn primitive_array_elem(atype: i32) -> (s: String)
    ensures
        s@ == primitive(atype as int),
{
    match atype {
        4 => "boolean".to_string(),
        5 => "char".to_string(),
        6 => "float".to_string(),
        7 => "double".to_string(),
        8 => "byte".to_string(),
        9 => "short".to_string(),
        10 => "int".to_string(),
        11 => "long".to_string(),
        _ => "?".to_string(),
    }
}

proof fn lemma_operands_wider(ops: Seq<Operand>, n: nat, m: nat)
    requires
        ir::operands_in_range(ops, n),
        n <= m,
    ensures
        ir::operands_in_range(ops, m),
{
    assert forall|i: int| 0 <= i < ops.len() implies (#[trigger] ops[i]).in_range(m) by {
        assert(ops[i].in_range(n));
    }
}

/// The field that a reference names.
fn field_key(r: MemberRef) -> (k: FieldKey)
    ensures
        k@ == field_v(r@),
{
    FieldKey { class: r.owner, name: r.name, desc: r.desc }
}

impl<'a> Lifter<'a> {
    fn lift_ldc(&mut self, n: &Insn) -> (d: Done)
        requires
            old(self).ok(),
        ensures
            final(self).extends(*old(self)),
            d.fits(final(self).site.leaders@.len(), final(self).vars@.len()),
            (Lifted { frame: final(self).frame(), step: d@ }) == ldc(old(self).site@, n@, old(self).frame()),
    {
        match self.site.cf.constant(n.imm as u16) {
            Some(Cp::Int(v)) => self.push(Operand::Const(Const::Int(*v))),
            Some(Cp::Long(v)) => self.push(Operand::Const(Const::Long(*v))),
            Some(Cp::Float(v)) => self.push(Operand::Const(Const::Float(*v))),
            Some(Cp::Double(v)) => self.push(Operand::Const(Const::Double(*v))),
            Some(Cp::Str(_)) => self.compute(Ty::Ref, Rvalue::Nondet(Ty::Ref, None)),
            Some(Cp::Class(_)) => self.push(Operand::Const(Const::Class("<class>".to_string()))),
            _ => {
                let mut e = "unsupported ldc at ".to_string();
                let d = dec_u64(n.off as u16 as u64);
                e.append(d.as_str());
                return Done::Stop(e);
            },
        }
        Done::Next
    }

    fn lift_load(&mut self, n: &Insn, s: Option<u16>, ty: Ty) -> (d: Done)
        requires
            old(self).ok(),
        ensures
            final(self).extends(*old(self)),
            d.fits(final(self).site.leaders@.len(), final(self).vars@.len()),
            (Lifted { frame: final(self).frame(), step: d@ }) == load(n@, old(self).frame(), s, ty),
    {
        let k = match s {
            Some(k) => k,
            None => n.imm as u16,
        };
        let v = self.local(k, ty);
        self.push(Operand::Var(v));
        Done::Next
    }

    fn lift_store(&mut self, n: &Insn, s: Option<u16>, ty: Ty) -> (d: Done)
        requires
            old(self).ok(),
        ensures
            final(self).extends(*old(self)),
            d.fits(final(self).site.leaders@.len(), final(self).vars@.len()),
            (Lifted { frame: final(self).frame(), step: d@ }) == store(n@, old(self).frame(), s, ty),
    {
        if self.stack.len() < 1 {
            return underflow();
        }
        let k = match s {
            Some(k) => k,
            None => n.imm as u16,
        };
        let val = self.take();
        let v = self.local(k, ty);
        self.copy_class(v, &val);
        self.emit(Stmt::Assign(v, Rvalue::Use(val)));
        Done::Next
    }

    fn lift_array_load(&mut self, n: &Insn, ty: Ty) -> (d: Done)
        requires
            old(self).ok(),
        ensures
            final(self).extends(*old(self)),
            d.fits(final(self).site.leaders@.len(), final(self).vars@.len()),
            (Lifted { frame: final(self).frame(), step: d@ }) == array_load(old(self).site@, n@, old(self).frame(), ty),
    {
        if self.stack.len() < 2 {
            return underflow();
        }
        let off = n.off as u16;
        let (arr, idx) = self.take2();
        self.nullcheck(&arr, off);
        self.boundscheck(&arr, &idx, off);
        self.compute(ty, Rvalue::ArrayLoad { arr, idx });
        Done::Next
    }

    fn lift_array_store(&mut self, n: &Insn) -> (d: Done)
        requires
            old(self).ok(),
        ensures
            final(self).extends(*old(self)),
            d.fits(final(self).site.leaders@.len(), final(self).vars@.len()),
            (Lifted { frame: final(self).frame(), step: d@ }) == array_store(old(self).site@, n@, old(self).frame()),
    {
        if self.stack.len() < 3 {
            return underflow();
        }
        let off = n.off as u16;
        let (arr, idx, val) = self.take3();
        self.nullcheck(&arr, off);
        self.boundscheck(&arr, &idx, off);
        self.emit(Stmt::ArrayStore { arr, idx, val });
        Done::Next
    }

    /// Does the operand take two slots?
    fn is_wide_operand(&self, o: &Operand) -> (r: bool)
        requires
            o.in_range(self.vars@.len()),
        ensures
            r == wide(self.frame(), o@),
    {
        match o {
            Operand::Const(Const::Long(_)) | Operand::Const(Const::Double(_)) => true,
            Operand::Var(v) => self.vars[v.0 as usize].ty.is_wide(),
            _ => false,
        }
    }

    fn lift_dup2(&mut self) -> (d: Done)
        requires
            old(self).ok(),
        ensures
            final(self).extends(*old(self)),
            d.fits(final(self).site.leaders@.len(), final(self).vars@.len()),
            (Lifted { frame: final(self).frame(), step: d@ }) == shuffled(old(self).frame(), Action::Dup2),
    {
        if self.stack.len() < 1 {
            return Done::Stop("dup2 on empty stack".to_string());
        }
        let top = self.stack[self.stack.len() - 1].clone();
        proof {
            let k = self.stack@.len() - 1;
            assert(self.stack@[k].in_range(self.vars@.len()));
            assert(self.frame().top(0) == top@);
        }
        if self.is_wide_operand(&top) {
            self.push(top);
            return Done::Next;
        }
        if self.stack.len() < 2 {
            return underflow();
        }
        let (a, b) = self.take2();
        self.push(a.clone());
        self.push(b.clone());
        self.push(a);
        self.push(b);
        Done::Next
    }

    fn lift_dup(&mut self) -> (d: Done)
        requires
            old(self).ok(),
        ensures
            final(self).extends(*old(self)),
            d.fits(final(self).site.leaders@.len(), final(self).vars@.len()),
            (Lifted { frame: final(self).frame(), step: d@ }) == shuffled(old(self).frame(), Action::Dup),
    {
        if self.stack.len() < 1 {
            return Done::Stop("dup on empty stack".to_string());
        }
        let top = self.stack[self.stack.len() - 1].clone();
        proof {
            let k = self.stack@.len() - 1;
            assert(self.stack@[k].in_range(self.vars@.len()));
            assert(self.frame().top(0) == top@);
        }
        self.push(top);
        Done::Next
    }

    fn lift_dup_below(&mut self, a: Action) -> (d: Done)
        requires
            old(self).ok(),
            !(a is Dup) && !(a is Dup2),
        ensures
            final(self).extends(*old(self)),
            d.fits(final(self).site.leaders@.len(), final(self).vars@.len()),
            (Lifted { frame: final(self).frame(), step: d@ }) == shuffled(old(self).frame(), a),
    {
        match a {
            Action::Pop => {
                if self.stack.len() < 1 {
                    return underflow();
                }
                let _ = self.take();
            },
            Action::DupX1 => {
                if self.stack.len() < 2 {
                    return underflow();
                }
                let (b, a) = self.take2();
                self.push(a.clone());
                self.push(b);
                self.push(a);
            },
            Action::DupX2 => {
                if self.stack.len() < 3 {
                    return underflow();
                }
                let (c, b, a) = self.take3();
                self.push(a.clone());
                self.push(c);
                self.push(b);
                self.push(a);
            },
            _ => {
                if self.stack.len() < 2 {
                    return underflow();
                }
                let (b, a) = self.take2();
                self.push(a);
                self.push(b);
            },
        }
        Done::Next
    }

    fn lift_binary(&mut self, op: BinOp, ty: Ty) -> (d: Done)
        requires
            old(self).ok(),
        ensures
            final(self).extends(*old(self)),
            d.fits(final(self).site.leaders@.len(), final(self).vars@.len()),
            (Lifted { frame: final(self).frame(), step: d@ }) == binary(old(self).frame(), op, ty),
    {
        if self.stack.len() < 2 {
            return underflow();
        }
        let (a, b) = self.take2();
        self.compute(ty, Rvalue::Bin(op, a, b));
        Done::Next
    }

    fn lift_divide(&mut self, n: &Insn, op: BinOp, ty: Ty) -> (d: Done)
        requires
            old(self).ok(),
        ensures
            final(self).extends(*old(self)),
            d.fits(final(self).site.leaders@.len(), final(self).vars@.len()),
            (Lifted { frame: final(self).frame(), step: d@ }) == divided(old(self).site@, n@, old(self).frame(), op, ty),
    {
        if self.stack.len() < 2 {
            return underflow();
        }
        let (a, b) = self.take2();
        let zero = match ty {
            Ty::Long => Operand::Const(Const::Long(0)),
            _ => Operand::int_const(0),
        };
        let guard = self.assign(Ty::Int, Rvalue::Bin(BinOp::Ne, b.clone(), zero));
        self.check(ObligationKind::DivByZero, Operand::Var(guard), n.off as u16);
        self.compute(ty, Rvalue::Bin(op, a, b));
        Done::Next
    }

    fn lift_unary(&mut self, a: Action) -> (d: Done)
        requires
            old(self).ok(),
        ensures
            final(self).extends(*old(self)),
            d.fits(final(self).site.leaders@.len(), final(self).vars@.len()),
            (Lifted { frame: final(self).frame(), step: d@ }) == unary(old(self).frame(), a),
    {
        if self.stack.len() < 1 {
            return underflow();
        }
        let o = self.take();
        match a {
            Action::Neg(ty) => self.compute(ty, Rvalue::Neg(o)),
            Action::Convert(ty) => self.compute(ty, Rvalue::Cast(ty, o)),
            _ => {},
        }
        Done::Next
    }

    fn lift_compare(&mut self) -> (d: Done)
        requires
            old(self).ok(),
        ensures
            final(self).extends(*old(self)),
            d.fits(final(self).site.leaders@.len(), final(self).vars@.len()),
            (Lifted { frame: final(self).frame(), step: d@ }) == compared(old(self).frame()),
    {
        if self.stack.len() < 2 {
            return underflow();
        }
        let (a, b) = self.take2();
        self.compute(Ty::Int, Rvalue::Cmp(a, b));
        Done::Next
    }

    fn lift_increment(&mut self, n: &Insn) -> (d: Done)
        requires
            old(self).ok(),
        ensures
            final(self).extends(*old(self)),
            d.fits(final(self).site.leaders@.len(), final(self).vars@.len()),
            (Lifted { frame: final(self).frame(), step: d@ }) == incremented(n@, old(self).frame()),
    {
        let v = self.local(n.imm as u16, Ty::Int);
        let sum = self.assign(
            Ty::Int,
            Rvalue::Bin(BinOp::Add, Operand::Var(v), Operand::int_const(n.delta)),
        );
        self.emit(Stmt::Assign(v, Rvalue::Use(Operand::Var(sum))));
        Done::Next
    }

    /// Branch on the condition.
    fn branch(&mut self, n: &Insn, cond: VarId) -> (d: Done)
        requires
            old(self).ok(),
            cond.0 < old(self).vars@.len(),
            n@.targets.len() > 0,
            n.off + n.len <= 0x7fff_ffff,
        ensures
            final(self).extends(*old(self)),
            d.fits(final(self).site.leaders@.len(), final(self).vars@.len()),
            (Lifted { frame: final(self).frame(), step: d@ }) == branched(old(self).site@, n@, old(self).frame(), OperandV::Var(cond)),
    {
        let h = self.stack.len() as u16;
        let then_ = match self.block_of(n.targets[0]) {
            Some(b) => b,
            None => {
                return Done::Stop("bad branch target".to_string());
            },
        };
        let next = n.off + n.len;
        if next >= self.site.code.bytes.len() {
            return Done::Stop("conditional branch at end of code".to_string());
        }
        let else_ = match self.block_of(next as i64) {
            Some(b) => b,
            None => {
                let mut e = "no block at fallthrough ".to_string();
                let d = dec_u64(next as u64);
                e.append(d.as_str());
                return Done::Stop(e);
            },
        };
        let mut succs: Vec<(usize, u16)> = Vec::new();
        succs.push((then_.0 as usize, h));
        succs.push((else_.0 as usize, h));
        proof {
            assert(succs@ =~= seq![(then_.0 as usize, h), (else_.0 as usize, h)]);
        }
        Done::End(Terminator::Branch { cond: Operand::Var(cond), then_, else_ }, succs)
    }

    fn lift_if(&mut self, n: &Insn, a: Action) -> (d: Done)
        requires
            old(self).ok(),
            n@.targets.len() > 0,
            n.off + n.len <= 0x7fff_ffff,
        ensures
            final(self).extends(*old(self)),
            d.fits(final(self).site.leaders@.len(), final(self).vars@.len()),
            (Lifted { frame: final(self).frame(), step: d@ }) == conditional(old(self).site@, n@, old(self).frame(), a),
    {
        match a {
            Action::IfZero(op) => {
                if self.stack.len() < 1 {
                    return underflow();
                }
                let o = self.take();
                let cond = self.assign(Ty::Int, Rvalue::Bin(op, o, Operand::int_const(0)));
                self.branch(n, cond)
            },
            Action::IfNull(op) => {
                if self.stack.len() < 1 {
                    return underflow();
                }
                let o = self.take();
                let cond = self.assign(
                    Ty::Int,
                    Rvalue::Bin(op, o, Operand::Const(Const::Null)),
                );
                self.branch(n, cond)
            },
            Action::IfPair(op) => {
                if self.stack.len() < 2 {
                    return underflow();
                }
                let (a, b) = self.take2();
                let cond = self.assign(Ty::Int, Rvalue::Bin(op, a, b));
                self.branch(n, cond)
            },
            _ => Done::Next,
        }
    }

    fn lift_goto(&mut self, n: &Insn) -> (d: Done)
        requires
            old(self).ok(),
            n@.targets.len() > 0,
        ensures
            final(self).extends(*old(self)),
            d.fits(final(self).site.leaders@.len(), final(self).vars@.len()),
            (Lifted { frame: final(self).frame(), step: d@ }) == jumped(old(self).site@, n@, old(self).frame()),
    {
        let t = match self.block_of(n.targets[0]) {
            Some(b) => b,
            None => {
                return Done::Stop("bad goto target".to_string());
            },
        };
        let h = self.stack.len() as u16;
        let mut succs: Vec<(usize, u16)> = Vec::new();
        succs.push((t.0 as usize, h));
        proof {
            assert(succs@ =~= seq![(t.0 as usize, h)]);
        }
        Done::End(Terminator::Goto(t), succs)
    }

    /// The value as it is after the stack was spilled.
    fn keep(&mut self, op: Operand) -> (r: Operand)
        requires
            old(self).ok(),
            op.in_range(old(self).vars@.len()),
        ensures
            final(self).extends(*old(self)),
            r.in_range(final(self).vars@.len()),
            (final(self).frame(), r@) == kept(old(self).frame(), op@),
    {
        let stacked = match &op {
            Operand::Var(v) => match self.vars[v.0 as usize].kind {
                VarKind::Stack(_) => true,
                _ => false,
            },
            _ => false,
        };
        if stacked {
            Operand::Var(self.assign(Ty::Int, Rvalue::Use(op)))
        } else {
            op
        }
    }

    /// The cases of a switch.
    fn switch_cases(&self, n: &Insn) -> (r: Option<Vec<(i32, BlockId)>>)
        requires
            n@.targets.len() > 0,
        ensures
            match r {
                Some(cs) => cases(self.site@.leaders, n@, case_count(n@)) == Some(cs@) && forall|
                    i: int,
                |
                    0 <= i < cs@.len() ==> (#[trigger] cs@[i]).1.0 < self.site.leaders@.len(),
                None => cases(self.site@.leaders, n@, case_count(n@)) is None,
            },
    {
        let count = if n.keys.len() < n.targets.len() {
            n.keys.len()
        } else {
            n.targets.len() - 1
        };
        let mut cs: Vec<(i32, BlockId)> = Vec::new();
        let mut k: usize = 0;
        while k < count
            invariant
                k <= count,
                count == case_count(n@),
                count <= n.keys@.len(),
                count + 1 <= n.targets@.len(),
                cases(self.site@.leaders, n@, k as nat) == Some(cs@),
                forall|i: int|
                    0 <= i < cs@.len() ==> (#[trigger] cs@[i]).1.0 < self.site.leaders@.len(),
            decreases count - k,
        {
            match self.block_of(n.targets[k + 1]) {
                Some(b) => cs.push((n.keys[k], b)),
                None => {
                    proof {
                        assert(cases(self.site@.leaders, n@, (k + 1) as nat) is None);
                        lemma_no_case(self.site@.leaders, n@, (k + 1) as nat, count as nat);
                    }
                    return None;
                },
            }
            k += 1;
        }
        Some(cs)
    }

    fn lift_switch(&mut self, n: &Insn) -> (d: Done)
        requires
            old(self).ok(),
            n@.targets.len() > 0,
        ensures
            final(self).extends(*old(self)),
            d.fits(final(self).site.leaders@.len(), final(self).vars@.len()),
            (Lifted { frame: final(self).frame(), step: d@ }) == switched(old(self).site@, n@, old(self).frame()),
    {
        if self.stack.len() < 1 {
            return underflow();
        }
        let popped = self.take();
        let value = self.keep(popped);
        let h = self.stack.len() as u16;
        let default = match self.block_of(n.targets[0]) {
            Some(b) => b,
            None => {
                return Done::Stop("bad switch default".to_string());
            },
        };
        let cases = match self.switch_cases(n) {
            Some(cs) => cs,
            None => {
                return Done::Stop("bad switch case".to_string());
            },
        };
        let mut succs: Vec<(usize, u16)> = Vec::new();
        succs.push((default.0 as usize, h));
        let mut k: usize = 0;
        while k < cases.len()
            invariant
                k <= cases@.len(),
                succs@ == switch_succs(default, cases@.take(k as int), h),
            decreases cases@.len() - k,
        {
            let ghost had = cases@.take(k as int);
            succs.push((cases[k].1.0 as usize, h));
            proof {
                assert(cases@.take(k + 1) =~= had.push(cases@[k as int]));
                assert(succs@ =~= switch_succs(default, cases@.take(k + 1), h));
            }
            k += 1;
        }
        proof {
            assert(cases@.take(k as int) =~= cases@);
        }
        Done::End(Terminator::Switch { value, cases, default }, succs)
    }

    fn lift_leave(&mut self, n: &Insn, a: Action) -> (d: Done)
        requires
            old(self).ok(),
        ensures
            final(self).extends(*old(self)),
            d.fits(final(self).site.leaders@.len(), final(self).vars@.len()),
            (Lifted { frame: final(self).frame(), step: d@ }) == left(old(self).site@, n@, old(self).frame(), a),
    {
        if let Action::Return = a {
            return Done::End(Terminator::Return(None), Vec::new());
        }
        if self.stack.len() < 1 {
            return underflow();
        }
        let v = self.take();
        if let Action::ReturnValue = a {
            return Done::End(Terminator::Return(Some(v)), Vec::new());
        }
        let fails = match &v {
            Operand::Var(x) => match self.classes.get(x) {
                Some(c) => same(c.as_str(), self.site.models.assertion_error.as_str()),
                None => false,
            },
            _ => false,
        };
        if fails {
            self.check(ObligationKind::Assertion, Operand::int_const(0), n.off as u16);
        }
        Done::End(Terminator::Throw(v), Vec::new())
    }

    fn lift_field(&mut self, n: &Insn, a: Action) -> (d: Done)
        requires
            old(self).ok(),
        ensures
            final(self).extends(*old(self)),
            d.fits(final(self).site.leaders@.len(), final(self).vars@.len()),
            (Lifted { frame: final(self).frame(), step: d@ }) == field_access(old(self).site@, n@, old(self).frame(), a),
    {
        let r = match self.site.cf.member_ref(n.imm as u16) {
            Ok(r) => r,
            Err(e) => {
                return Done::Stop(e);
            },
        };
        let off = n.off as u16;
        match a {
            Action::GetStatic => {
                if same(r.name.as_str(), "$assertionsDisabled") {
                    self.push(Operand::int_const(0));
                } else {
                    let ty = ty_of_field_desc(r.desc.as_str());
                    self.compute(ty, Rvalue::GetStatic(field_key(r)));
                }
            },
            Action::PutStatic => {
                if self.stack.len() < 1 {
                    return underflow();
                }
                let v = self.take();
                self.emit(Stmt::PutStatic(field_key(r), v));
            },
            Action::GetField => {
                if self.stack.len() < 1 {
                    return underflow();
                }
                let obj = self.take();
                self.nullcheck(&obj, off);
                let ty = ty_of_field_desc(r.desc.as_str());
                self.compute(ty, Rvalue::GetField { obj, field: field_key(r) });
            },
            _ => {
                if self.stack.len() < 2 {
                    return underflow();
                }
                let (obj, val) = self.take2();
                self.nullcheck(&obj, off);
                self.emit(Stmt::PutField { obj, field: field_key(r), val });
            },
        }
        Done::Next
    }

    /// Check that the length is not negative.
    fn lengthcheck(&mut self, n: &Insn, len: &Operand)
        requires
            old(self).ok(),
            len.in_range(old(self).vars@.len()),
        ensures
            final(self).extends(*old(self)),
            final(self).frame() == length_checked(old(self).site@, n@, old(self).frame(), len@),
            final(self).stack == old(self).stack,
    {
        let nonneg = self.assign(
            Ty::Int,
            Rvalue::Bin(BinOp::Ge, len.clone(), Operand::int_const(0)),
        );
        self.check(ObligationKind::NegArraySize, Operand::Var(nonneg), n.off as u16);
    }

    fn lift_new(&mut self, n: &Insn) -> (d: Done)
        requires
            old(self).ok(),
        ensures
            final(self).extends(*old(self)),
            d.fits(final(self).site.leaders@.len(), final(self).vars@.len()),
            (Lifted { frame: final(self).frame(), step: d@ }) == allocated(old(self).site@, n@, old(self).frame(), Action::New),
    {
        let cls = match self.site.cf.class_name(n.imm as u16) {
            Ok(c) => c,
            Err(e) => {
                return Done::Stop(e);
            },
        };
        let t = self.assign(Ty::Ref, Rvalue::New(cls.clone()));
        self.classes.insert(t, cls);
        self.push(Operand::Var(t));
        Done::Next
    }

    fn lift_new_array(&mut self, n: &Insn) -> (d: Done)
        requires
            old(self).ok(),
        ensures
            final(self).extends(*old(self)),
            d.fits(final(self).site.leaders@.len(), final(self).vars@.len()),
            (Lifted { frame: final(self).frame(), step: d@ }) == allocated(old(self).site@, n@, old(self).frame(), Action::NewArray),
    {
        if self.stack.len() < 1 {
            return underflow();
        }
        let len = self.take();
        self.lengthcheck(n, &len);
        let elem = if n.op == 0xbd {
            match self.site.cf.class_name(n.imm as u16) {
                Ok(c) => c,
                Err(_) => "?".to_string(),
            }
        } else {
            primitive_array_elem(n.imm)
        };
        self.compute(Ty::Ref, Rvalue::NewArray { elem, len });
        Done::Next
    }

    fn lift_dims(&mut self, n: &Insn, k: u32) -> (d: Done)
        requires
            old(self).ok(),
        ensures
            final(self).extends(*old(self)),
            d.fits(final(self).site.leaders@.len(), final(self).vars@.len()),
            (Lifted { frame: final(self).frame(), step: d@ }) == dims_checked(old(self).site@, n@, old(self).frame(), k as nat),
    {
        let mut i: u32 = k;
        while i > 0
            invariant
                i <= k,
                self.extends(*old(self)),
                dims_checked(old(self).site@, n@, old(self).frame(), k as nat) == dims_checked(
                    old(self).site@,
                    n@,
                    self.frame(),
                    i as nat,
                ),
            decreases i,
        {
            if self.stack.len() < 1 {
                return underflow();
            }
            let len = self.take();
            self.lengthcheck(n, &len);
            i -= 1;
        }
        Done::Next
    }

    fn lift_new_multi(&mut self, n: &Insn) -> (d: Done)
        requires
            old(self).ok(),
        ensures
            final(self).extends(*old(self)),
            d.fits(final(self).site.leaders@.len(), final(self).vars@.len()),
            (Lifted { frame: final(self).frame(), step: d@ }) == allocated(old(self).site@, n@, old(self).frame(), Action::NewMulti),
    {
        let k: u32 = if n.keys.len() > 0 && n.keys[0] > 1 {
            n.keys[0] as u32
        } else {
            1
        };
        let d = self.lift_dims(n, k);
        if let Done::Next = d {
            self.compute(Ty::Ref, Rvalue::Nondet(Ty::Ref, None));
        }
        d
    }

    fn lift_cast(&mut self, n: &Insn) -> (d: Done)
        requires
            old(self).ok(),
        ensures
            final(self).extends(*old(self)),
            d.fits(final(self).site.leaders@.len(), final(self).vars@.len()),
            (Lifted { frame: final(self).frame(), step: d@ }) == inspected(old(self).site@, n@, old(self).frame(), Action::CheckCast),
    {
        if self.stack.len() < 1 {
            return underflow();
        }
        let obj = self.take();
        let class = match self.site.cf.class_name(n.imm as u16) {
            Ok(c) => c,
            Err(e) => {
                return Done::Stop(e);
            },
        };
        let isinst = self.assign(Ty::Int, Rvalue::InstanceOf { obj: obj.clone(), class });
        let isnull = self.assign(
            Ty::Int,
            Rvalue::Bin(BinOp::Eq, obj.clone(), Operand::Const(Const::Null)),
        );
        // A cast of null always succeeds.
        let ok = self.assign(
            Ty::Int,
            Rvalue::Bin(BinOp::Or, Operand::Var(isnull), Operand::Var(isinst)),
        );
        self.check(ObligationKind::ClassCast, Operand::Var(ok), n.off as u16);
        self.push(obj);
        Done::Next
    }

    fn lift_inspect(&mut self, n: &Insn, a: Action) -> (d: Done)
        requires
            old(self).ok(),
            a is Length || a is Monitor || a is InstanceOf || a is CheckCast,
        ensures
            final(self).extends(*old(self)),
            d.fits(final(self).site.leaders@.len(), final(self).vars@.len()),
            (Lifted { frame: final(self).frame(), step: d@ }) == inspected(old(self).site@, n@, old(self).frame(), a),
    {
        if let Action::CheckCast = a {
            return self.lift_cast(n);
        }
        if self.stack.len() < 1 {
            return underflow();
        }
        let obj = self.take();
        match a {
            Action::Length => {
                self.nullcheck(&obj, n.off as u16);
                self.compute(Ty::Int, Rvalue::ArrayLength(obj));
            },
            Action::Monitor => self.nullcheck(&obj, n.off as u16),
            _ => {
                let class = match self.site.cf.class_name(n.imm as u16) {
                    Ok(c) => c,
                    Err(e) => {
                        return Done::Stop(e);
                    },
                };
                self.compute(Ty::Int, Rvalue::InstanceOf { obj, class });
            },
        }
        Done::Next
    }

    /// Check that the receiver is not null.
    fn receivercheck(&mut self, n: &Insn, recv: bool, all: &Vec<Operand>)
        requires
            old(self).ok(),
            recv ==> all@.len() > 0,
            ir::operands_in_range(all@, old(self).vars@.len()),
        ensures
            final(self).extends(*old(self)),
            final(self).frame() == receiver_checked(old(self).site@, n@, old(self).frame(), receiver(recv, ir::operand_views(all@))),
    {
        if recv {
            proof {
                assert(all@[0].in_range(self.vars@.len()));
            }
            self.nullcheck(&all[0], n.off as u16);
        }
    }

    /// Make the call and push its result, if there is one.
    fn finish_call(&mut self, n: &Insn, r: MemberRef, all: Vec<Operand>, ty: Option<Ty>)
        requires
            old(self).ok(),
            ir::operands_in_range(all@, old(self).vars@.len()),
        ensures
            final(self).extends(*old(self)),
            final(self).frame() == returned(old(self).frame(), ty, call_v(n@, r@, ir::operand_views(all@))),
    {
        let rv = Rvalue::Call {
            target: MethodKey { class: r.owner, name: r.name, desc: r.desc },
            args: all,
            is_virtual: n.op != 0xb8 && n.op != 0xb7,
        };
        match ty {
            Some(t) => self.compute(t, rv),
            None => {
                let _ = self.assign(Ty::Int, rv);
            },
        }
    }

    /// The field of the ordinal.
    fn ordinal_key(&self) -> (k: FieldKey)
        ensures
            k@ == ordinal_field(self.site@),
    {
        FieldKey {
            class: "java/lang/Enum".to_string(),
            name: self.site.models.enum_ordinal_field.clone(),
            desc: "I".to_string(),
        }
    }

    /// A call after its arguments were popped.
    fn lift_call(&mut self, n: &Insn, r: MemberRef, recv: bool, all: Vec<Operand>)
        requires
            old(self).ok(),
            recv ==> all@.len() > 0,
            ir::operands_in_range(all@, old(self).vars@.len()),
            match old(self).site.models.model_of(r@.owner, r@.name, r@.desc) {
                CallModel::Assume => all@.len() >= (if recv {
                    2int
                } else {
                    1
                }),
                CallModel::EnumInit | CallModel::EnumOrdinal => all@.len() >= 1,
                _ => true,
            },
        ensures
            final(self).extends(*old(self)),
            final(self).frame() == called(old(self).site@, n@, old(self).frame(), r@, recv, ir::operand_views(all@)),
    {
        let (_, ret) = parse_desc(r.desc.as_str());
        let model = self.site.models.model_for(
            r.owner.as_str(),
            r.name.as_str(),
            r.desc.as_str(),
        );
        let first: usize = if recv {
            1
        } else {
            0
        };
        match model {
            CallModel::Assume => {
                proof {
                    assert(all@[first as int].in_range(self.vars@.len()));
                }
                self.emit(Stmt::Assume(all[first].clone()));
            },
            CallModel::NoOp => {},
            CallModel::Nondet(t) => {
                let ty = match t {
                    Some(ty) => ty,
                    None => Ty::Int,
                };
                self.compute(ty, Rvalue::Nondet(ty, None));
            },
            CallModel::Pure(t) => {
                self.receivercheck(n, recv, &all);
                if let Some(ty) = t {
                    self.compute(ty, Rvalue::Nondet(ty, None));
                }
            },
            CallModel::StrCall(t) => {
                self.receivercheck(n, recv, &all);
                let ty = match t {
                    Some(Ty::Str) => Some(Ty::Ref),
                    _ => t,
                };
                proof {
                    lemma_operands_wider(all@, old(self).vars@.len(), self.vars@.len());
                }
                self.finish_call(n, r, all, ty);
            },
            CallModel::EnumInit => {
                proof {
                    assert(all@[0].in_range(self.vars@.len()));
                }
                let ordinal = if all.len() >= 3 {
                    proof {
                        assert(all@[2].in_range(self.vars@.len()));
                    }
                    all[2].clone()
                } else {
                    Operand::int_const(0)
                };
                let field = self.ordinal_key();
                self.emit(Stmt::PutField { obj: all[0].clone(), field, val: ordinal });
            },
            CallModel::EnumOrdinal => {
                proof {
                    assert(all@[0].in_range(self.vars@.len()));
                }
                let this = all[0].clone();
                self.nullcheck(&this, n.off as u16);
                let field = self.ordinal_key();
                self.compute(Ty::Int, Rvalue::GetField { obj: this, field });
            },
            CallModel::Unmodelled => {
                self.receivercheck(n, recv, &all);
                proof {
                    lemma_operands_wider(all@, old(self).vars@.len(), self.vars@.len());
                }
                self.finish_call(n, r, all, ret);
            },
        }
    }

    fn lift_invoke(&mut self, n: &Insn) -> (d: Done)
        requires
            old(self).ok(),
            insn::action(n.op) is Invoke,
            liftable(old(self).site@, n@),
        ensures
            final(self).extends(*old(self)),
            d.fits(final(self).site.leaders@.len(), final(self).vars@.len()),
            (Lifted { frame: final(self).frame(), step: d@ }) == invoked(old(self).site@, n@, old(self).frame()),
    {
        let r = match self.site.cf.member_ref(n.imm as u16) {
            Ok(r) => r,
            Err(e) => {
                return Done::Stop(e);
            },
        };
        let (argc, _) = parse_desc(r.desc.as_str());
        let recv = n.op != 0xb8;
        if self.stack.len() < argc || (recv && self.stack.len() == argc) {
            return underflow();
        }
        let count = if recv {
            argc + 1
        } else {
            argc
        };
        let all = self.take_many(count);
        self.lift_call(n, r, recv, all);
        Done::Next
    }

    /// Lift one instruction.
    pub fn lift_insn(&mut self, n: &Insn) -> (d: Done)
        requires
            old(self).ok(),
            liftable(old(self).site@, n@),
            n.off + n.len <= 0x7fff_ffff,
        ensures
            final(self).extends(*old(self)),
            d.fits(final(self).site.leaders@.len(), final(self).vars@.len()),
            (Lifted { frame: final(self).frame(), step: d@ }) == lifted(old(self).site@, n@, old(self).frame()),
    {
        let a = action_of(n.op);
        match a {
            Action::Nothing => Done::Next,
            Action::Push(c) => {
                self.push(Operand::Const(c.make()));
                Done::Next
            },
            Action::PushImm => {
                self.push(Operand::int_const(n.imm));
                Done::Next
            },
            Action::Ldc => self.lift_ldc(n),
            Action::Load(s, ty) => self.lift_load(n, s, ty),
            Action::Store(s, ty) => self.lift_store(n, s, ty),
            Action::ArrayLoad(ty) => self.lift_array_load(n, ty),
            Action::ArrayStore => self.lift_array_store(n),
            Action::Dup => self.lift_dup(),
            Action::Dup2 => self.lift_dup2(),
            Action::Pop | Action::DupX1 | Action::DupX2 | Action::Swap => self.lift_dup_below(a),
            Action::Bin(op, ty) => self.lift_binary(op, ty),
            Action::Divide(op, ty) => self.lift_divide(n, op, ty),
            Action::Neg(_) | Action::Convert(_) => self.lift_unary(a),
            Action::Increment => self.lift_increment(n),
            Action::Compare => self.lift_compare(),
            Action::IfZero(_) | Action::IfPair(_) | Action::IfNull(_) => self.lift_if(n, a),
            Action::Goto => self.lift_goto(n),
            Action::Switch => self.lift_switch(n),
            Action::Return | Action::ReturnValue | Action::Throw => self.lift_leave(n, a),
            Action::GetStatic | Action::PutStatic | Action::GetField | Action::PutField => self.lift_field(
                n,
                a,
            ),
            Action::Invoke => self.lift_invoke(n),
            Action::Dynamic => Done::Stop("invokedynamic not modelled".to_string()),
            Action::New => self.lift_new(n),
            Action::NewArray => self.lift_new_array(n),
            Action::NewMulti => self.lift_new_multi(n),
            Action::Length | Action::CheckCast | Action::InstanceOf | Action::Monitor => self.lift_inspect(
                n,
                a,
            ),
            Action::Unsupported => {
                let mut e = "unsupported opcode 0x".to_string();
                let h = hex_u64(n.op as u64, 2);
                e.append(h.as_str());
                e.append(" at ");
                let d = dec_u64(n.off as u16 as u64);
                e.append(d.as_str());
                Done::Stop(e)
            },
        }
    }
}

proof fn lemma_no_case(leaders: Seq<nat>, n: InsnV, k: nat, m: nat)
    requires
        k <= m,
        cases(leaders, n, k) is None,
    ensures
        cases(leaders, n, m) is None,
    decreases m,
{
    if k < m {
        lemma_no_case(leaders, n, k, (m - 1) as nat);
    }
}

} // verus!
