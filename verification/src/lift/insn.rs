//! What the opcodes do.

use vstd::prelude::*;

use crate::ir::{BinOp, Const, ConstV, Ty};

verus! {

/// A constant without text.
#[derive(Clone, Copy, PartialEq, Eq, Structural, Debug)]
pub enum Plain {
    Null,
    Int(i32),
    Long(i64),
    Float(u32),
    Double(u64),
}

impl Plain {
    /// The constant.
    pub open spec fn value(self) -> ConstV {
        match self {
            Plain::Null => ConstV::Null,
            Plain::Int(n) => ConstV::Int(n),
            Plain::Long(n) => ConstV::Long(n),
            Plain::Float(b) => ConstV::Float(b),
            Plain::Double(b) => ConstV::Double(b),
        }
    }

    /// The constant.
    pub fn make(self) -> (r: Const)
        ensures
            r@ == self.value(),
    {
        match self {
            Plain::Null => Const::Null,
            Plain::Int(n) => Const::Int(n),
            Plain::Long(n) => Const::Long(n),
            Plain::Float(b) => Const::Float(b),
            Plain::Double(b) => Const::Double(b),
        }
    }
}

/// What an instruction does.
#[derive(Clone, Copy, PartialEq, Eq, Structural, Debug)]
pub enum Action {
    Nothing,
    Push(Plain),
    /// Push the operand of the instruction.
    PushImm,
    Ldc,
    /// The slot, or the operand of the instruction, and the type.
    Load(Option<u16>, Ty),
    Store(Option<u16>, Ty),
    ArrayLoad(Ty),
    ArrayStore,
    Pop,
    Dup,
    DupX1,
    DupX2,
    Dup2,
    Swap,
    Bin(BinOp, Ty),
    /// Division or remainder of integers.
    Divide(BinOp, Ty),
    Neg(Ty),
    Increment,
    Convert(Ty),
    Compare,
    /// Branch on the comparison with zero, with another value, with null.
    IfZero(BinOp),
    IfPair(BinOp),
    IfNull(BinOp),
    Goto,
    Switch,
    Return,
    ReturnValue,
    GetStatic,
    PutStatic,
    GetField,
    PutField,
    Invoke,
    Dynamic,
    New,
    NewArray,
    NewMulti,
    Length,
    CheckCast,
    InstanceOf,
    Monitor,
    Throw,
    Unsupported,
}

/// The types of loads and stores, in the order of their opcodes.
pub open spec fn slot_ty(k: int) -> Ty {
    if k == 0 {
        Ty::Int
    } else if k == 1 {
        Ty::Long
    } else if k == 2 {
        Ty::Float
    } else if k == 3 {
        Ty::Double
    } else {
        Ty::Ref
    }
}

fn slot_ty_exec(k: u8) -> (r: Ty)
    ensures
        r == slot_ty(k as int),
{
    match k {
        0 => Ty::Int,
        1 => Ty::Long,
        2 => Ty::Float,
        3 => Ty::Double,
        _ => Ty::Ref,
    }
}

/// Numeric opcodes are laid out int, long, float, double in blocks of four.
pub open spec fn arith(op: u8) -> Ty {
    slot_ty(op as int % 4)
}

/// Numeric opcodes are laid out int, long, float, double in blocks of four.
pub fn arith_ty(op: u8) -> (r: Ty)
    ensures
        r == arith(op),
{
    match op % 4 {
        0 => Ty::Int,
        1 => Ty::Long,
        2 => Ty::Float,
        _ => Ty::Double,
    }
}

/// The comparisons, in the order of the opcodes of branches.
pub open spec fn order(k: int) -> BinOp {
    if k == 0 {
        BinOp::Eq
    } else if k == 1 {
        BinOp::Ne
    } else if k == 2 {
        BinOp::Lt
    } else if k == 3 {
        BinOp::Ge
    } else if k == 4 {
        BinOp::Gt
    } else {
        BinOp::Le
    }
}

fn order_exec(k: u8) -> (r: BinOp)
    ensures
        r == order(k as int),
{
    match k {
        0 => BinOp::Eq,
        1 => BinOp::Ne,
        2 => BinOp::Lt,
        3 => BinOp::Ge,
        4 => BinOp::Gt,
        _ => BinOp::Le,
    }
}

/// The opcodes below 0x60.
pub open spec fn low_action(op: u8) -> Action {
    if op == 0x00 {
        Action::Nothing
    } else if op == 0x01 {
        Action::Push(Plain::Null)
    } else if op <= 0x08 {
        Action::Push(Plain::Int((op - 3) as i32))
    } else if op <= 0x0a {
        Action::Push(Plain::Long((op - 9) as i64))
    } else if op == 0x0b {
        Action::Push(Plain::Float(0))
    } else if op == 0x0c {
        Action::Push(Plain::Float(0x3f80_0000))
    } else if op == 0x0d {
        Action::Push(Plain::Float(0x4000_0000))
    } else if op == 0x0e {
        Action::Push(Plain::Double(0))
    } else if op == 0x0f {
        Action::Push(Plain::Double(0x3ff0_0000_0000_0000))
    } else if op <= 0x11 {
        Action::PushImm
    } else if op <= 0x14 {
        Action::Ldc
    } else if op <= 0x19 {
        Action::Load(None, slot_ty(op - 0x15))
    } else if op <= 0x2d {
        Action::Load(Some(((op - 0x1a) % 4) as u16), slot_ty((op - 0x1a) / 4))
    } else if op <= 0x35 {
        Action::ArrayLoad(
            if op == 0x2f {
                Ty::Long
            } else if op == 0x30 {
                Ty::Float
            } else if op == 0x31 {
                Ty::Double
            } else if op == 0x32 {
                Ty::Ref
            } else {
                Ty::Int
            },
        )
    } else if op <= 0x3a {
        Action::Store(None, slot_ty(op - 0x36))
    } else if op <= 0x4e {
        Action::Store(Some(((op - 0x3b) % 4) as u16), slot_ty((op - 0x3b) / 4))
    } else if op <= 0x56 {
        Action::ArrayStore
    } else if op <= 0x58 {
        Action::Pop
    } else if op == 0x59 {
        Action::Dup
    } else if op == 0x5a {
        Action::DupX1
    } else if op == 0x5b {
        Action::DupX2
    } else if op == 0x5c {
        Action::Dup2
    } else if op == 0x5f {
        Action::Swap
    } else {
        Action::Unsupported
    }
}

/// The opcodes from 0x60 to 0x98.
pub open spec fn arith_action(op: u8) -> Action {
    if op <= 0x63 {
        Action::Bin(BinOp::Add, arith(op))
    } else if op <= 0x67 {
        Action::Bin(BinOp::Sub, arith(op))
    } else if op <= 0x6b {
        Action::Bin(BinOp::Mul, arith(op))
    } else if op <= 0x6d {
        Action::Divide(BinOp::Div, arith(op))
    } else if op <= 0x6f {
        Action::Bin(BinOp::Div, arith(op))
    } else if op <= 0x71 {
        Action::Divide(BinOp::Rem, arith(op))
    } else if op <= 0x73 {
        Action::Bin(BinOp::Rem, arith(op))
    } else if op <= 0x77 {
        Action::Neg(arith(op))
    } else if op <= 0x83 {
        Action::Bin(
            if op <= 0x79 {
                BinOp::Shl
            } else if op <= 0x7b {
                BinOp::Shr
            } else if op <= 0x7d {
                BinOp::UShr
            } else if op <= 0x7f {
                BinOp::And
            } else if op <= 0x81 {
                BinOp::Or
            } else {
                BinOp::Xor
            },
            if op as int % 2 == 1 {
                Ty::Long
            } else {
                Ty::Int
            },
        )
    } else if op == 0x84 {
        Action::Increment
    } else if op <= 0x93 {
        Action::Convert(
            if op == 0x85 || op == 0x8c || op == 0x8f {
                Ty::Long
            } else if op == 0x86 || op == 0x89 || op == 0x90 {
                Ty::Float
            } else if op == 0x87 || op == 0x8a || op == 0x8d {
                Ty::Double
            } else {
                Ty::Int
            },
        )
    } else {
        Action::Compare
    }
}

/// The opcodes from 0x99 on.
pub open spec fn high_action(op: u8) -> Action {
    if op <= 0x9e {
        Action::IfZero(order(op - 0x99))
    } else if op <= 0xa4 {
        Action::IfPair(order(op - 0x9f))
    } else if op <= 0xa6 {
        Action::IfPair(order(op - 0xa5))
    } else if op == 0xa7 || op == 0xc8 {
        Action::Goto
    } else if op == 0xaa || op == 0xab {
        Action::Switch
    } else if 0xac <= op <= 0xb0 {
        Action::ReturnValue
    } else if op == 0xb1 {
        Action::Return
    } else if op == 0xb2 {
        Action::GetStatic
    } else if op == 0xb3 {
        Action::PutStatic
    } else if op == 0xb4 {
        Action::GetField
    } else if op == 0xb5 {
        Action::PutField
    } else if 0xb6 <= op <= 0xb9 {
        Action::Invoke
    } else if op == 0xba {
        Action::Dynamic
    } else if op == 0xbb {
        Action::New
    } else if op == 0xbc || op == 0xbd {
        Action::NewArray
    } else if op == 0xbe {
        Action::Length
    } else if op == 0xbf {
        Action::Throw
    } else if op == 0xc0 {
        Action::CheckCast
    } else if op == 0xc1 {
        Action::InstanceOf
    } else if op == 0xc2 || op == 0xc3 {
        Action::Monitor
    } else if op == 0xc5 {
        Action::NewMulti
    } else if op == 0xc6 || op == 0xc7 {
        Action::IfNull(order(op - 0xc6))
    } else {
        Action::Unsupported
    }
}

/// What an opcode does.
pub open spec fn action(op: u8) -> Action {
    if op < 0x60 {
        low_action(op)
    } else if op <= 0x98 {
        arith_action(op)
    } else {
        high_action(op)
    }
}

fn low_of(op: u8) -> (r: Action)
    requires
        op < 0x60,
    ensures
        r == low_action(op),
{
    match op {
        0x00 => Action::Nothing,
        0x01 => Action::Push(Plain::Null),
        0x02..=0x08 => Action::Push(Plain::Int(op as i32 - 3)),
        0x09 | 0x0a => Action::Push(Plain::Long(op as i64 - 9)),
        0x0b => Action::Push(Plain::Float(0)),
        0x0c => Action::Push(Plain::Float(0x3f80_0000)),
        0x0d => Action::Push(Plain::Float(0x4000_0000)),
        0x0e => Action::Push(Plain::Double(0)),
        0x0f => Action::Push(Plain::Double(0x3ff0_0000_0000_0000)),
        0x10 | 0x11 => Action::PushImm,
        0x12..=0x14 => Action::Ldc,
        0x15..=0x19 => Action::Load(None, slot_ty_exec(op - 0x15)),
        0x1a..=0x2d => Action::Load(Some(((op - 0x1a) % 4) as u16), slot_ty_exec((op - 0x1a) / 4)),
        0x2f => Action::ArrayLoad(Ty::Long),
        0x30 => Action::ArrayLoad(Ty::Float),
        0x31 => Action::ArrayLoad(Ty::Double),
        0x32 => Action::ArrayLoad(Ty::Ref),
        0x2e..=0x35 => Action::ArrayLoad(Ty::Int),
        0x36..=0x3a => Action::Store(None, slot_ty_exec(op - 0x36)),
        0x3b..=0x4e => Action::Store(Some(((op - 0x3b) % 4) as u16), slot_ty_exec((op - 0x3b) / 4)),
        0x4f..=0x56 => Action::ArrayStore,
        0x57 | 0x58 => Action::Pop,
        0x59 => Action::Dup,
        0x5a => Action::DupX1,
        0x5b => Action::DupX2,
        0x5c => Action::Dup2,
        0x5f => Action::Swap,
        _ => Action::Unsupported,
    }
}

fn arith_of(op: u8) -> (r: Action)
    requires
        0x60 <= op <= 0x98,
    ensures
        r == arith_action(op),
{
    let wide = if op % 2 == 1 {
        Ty::Long
    } else {
        Ty::Int
    };
    match op {
        0x60..=0x63 => Action::Bin(BinOp::Add, arith_ty(op)),
        0x64..=0x67 => Action::Bin(BinOp::Sub, arith_ty(op)),
        0x68..=0x6b => Action::Bin(BinOp::Mul, arith_ty(op)),
        0x6c | 0x6d => Action::Divide(BinOp::Div, arith_ty(op)),
        0x6e | 0x6f => Action::Bin(BinOp::Div, arith_ty(op)),
        0x70 | 0x71 => Action::Divide(BinOp::Rem, arith_ty(op)),
        0x72 | 0x73 => Action::Bin(BinOp::Rem, arith_ty(op)),
        0x74..=0x77 => Action::Neg(arith_ty(op)),
        0x78 | 0x79 => Action::Bin(BinOp::Shl, wide),
        0x7a | 0x7b => Action::Bin(BinOp::Shr, wide),
        0x7c | 0x7d => Action::Bin(BinOp::UShr, wide),
        0x7e | 0x7f => Action::Bin(BinOp::And, wide),
        0x80 | 0x81 => Action::Bin(BinOp::Or, wide),
        0x82 | 0x83 => Action::Bin(BinOp::Xor, wide),
        0x84 => Action::Increment,
        0x85 | 0x8c | 0x8f => Action::Convert(Ty::Long),
        0x86 | 0x89 | 0x90 => Action::Convert(Ty::Float),
        0x87 | 0x8a | 0x8d => Action::Convert(Ty::Double),
        0x85..=0x93 => Action::Convert(Ty::Int),
        _ => Action::Compare,
    }
}

fn high_of(op: u8) -> (r: Action)
    requires
        0x99 <= op,
    ensures
        r == high_action(op),
{
    match op {
        0x99..=0x9e => Action::IfZero(order_exec(op - 0x99)),
        0x9f..=0xa4 => Action::IfPair(order_exec(op - 0x9f)),
        0xa5 | 0xa6 => Action::IfPair(order_exec(op - 0xa5)),
        0xa7 | 0xc8 => Action::Goto,
        0xaa | 0xab => Action::Switch,
        0xac..=0xb0 => Action::ReturnValue,
        0xb1 => Action::Return,
        0xb2 => Action::GetStatic,
        0xb3 => Action::PutStatic,
        0xb4 => Action::GetField,
        0xb5 => Action::PutField,
        0xb6..=0xb9 => Action::Invoke,
        0xba => Action::Dynamic,
        0xbb => Action::New,
        0xbc | 0xbd => Action::NewArray,
        0xbe => Action::Length,
        0xbf => Action::Throw,
        0xc0 => Action::CheckCast,
        0xc1 => Action::InstanceOf,
        0xc2 | 0xc3 => Action::Monitor,
        0xc5 => Action::NewMulti,
        0xc6 | 0xc7 => Action::IfNull(order_exec(op - 0xc6)),
        _ => Action::Unsupported,
    }
}

/// What an opcode does.
pub fn action_of(op: u8) -> (r: Action)
    ensures
        r == action(op),
{
    if op < 0x60 {
        low_of(op)
    } else if op <= 0x98 {
        arith_of(op)
    } else {
        high_of(op)
    }
}

} // verus!
