//! The intermediate representation: method bodies as graphs of basic blocks
//! over typed variables, with explicit obligations.
//!
//! Each type that owns text has a view in which the text is a `Seq<char>`;
//! contracts speak of the views.

use vstd::prelude::*;

use crate::text::same;

verus! {

/// Index of a variable in [`Body::vars`].
#[derive(Clone, Copy, Debug, PartialEq, Eq, Structural, Hash, PartialOrd, Ord)]
pub struct VarId(pub u32);

/// Index of a block in [`Body::blocks`].
#[derive(Clone, Copy, Debug, PartialEq, Eq, Structural, Hash, PartialOrd, Ord)]
pub struct BlockId(pub u32);

/// Index of an obligation in [`Body::obligations`].
#[derive(Clone, Copy, Debug, PartialEq, Eq, Structural, Hash, PartialOrd, Ord)]
pub struct ObligationId(pub u32);

/// The type of a value.
#[derive(Clone, Copy, Debug, PartialEq, Eq, Structural, Hash)]
pub enum Ty {
    Int,
    Long,
    Float,
    Double,
    Ref,
    Str,
}

impl Ty {
    /// `long` and `double` occupy two local slots.
    pub open spec fn wide(self) -> bool {
        self == Ty::Long || self == Ty::Double
    }

    /// `long` and `double` occupy two local slots.
    pub fn is_wide(&self) -> (r: bool)
        ensures
            r == self.wide(),
    {
        matches!(*self, Ty::Long | Ty::Double)
    }
}

/// A constant. Floating-point constants are held as their bit patterns.
#[derive(Debug)]
pub enum Const {
    Int(i32),
    Long(i64),
    Float(u32),
    Double(u64),
    Null,
    Str(String),
    Class(String),
}

/// View of [`Const`].
#[verifier::ext_equal]
pub enum ConstV {
    Int(i32),
    Long(i64),
    Float(u32),
    Double(u64),
    Null,
    Str(Seq<char>),
    Class(Seq<char>),
}

impl View for Const {
    type V = ConstV;

    open spec fn view(&self) -> ConstV {
        match *self {
            Const::Int(n) => ConstV::Int(n),
            Const::Long(n) => ConstV::Long(n),
            Const::Float(b) => ConstV::Float(b),
            Const::Double(b) => ConstV::Double(b),
            Const::Null => ConstV::Null,
            Const::Str(s) => ConstV::Str(s@),
            Const::Class(s) => ConstV::Class(s@),
        }
    }
}

impl Clone for Const {
    fn clone(&self) -> (r: Self)
        ensures
            r == *self,
    {
        match self {
            Const::Int(n) => Const::Int(*n),
            Const::Long(n) => Const::Long(*n),
            Const::Float(b) => Const::Float(*b),
            Const::Double(b) => Const::Double(*b),
            Const::Null => Const::Null,
            Const::Str(s) => Const::Str(s.clone()),
            Const::Class(s) => Const::Class(s.clone()),
        }
    }
}

impl Const {
    /// The type of a constant; class objects and `null` are references.
    pub open spec fn ty_of(self) -> Ty {
        match self {
            Const::Int(_) => Ty::Int,
            Const::Long(_) => Ty::Long,
            Const::Float(_) => Ty::Float,
            Const::Double(_) => Ty::Double,
            Const::Str(_) => Ty::Str,
            Const::Null | Const::Class(_) => Ty::Ref,
        }
    }

    /// The type of a constant.
    pub fn ty(&self) -> (r: Ty)
        ensures
            r == self.ty_of(),
    {
        match self {
            Const::Int(_) => Ty::Int,
            Const::Long(_) => Ty::Long,
            Const::Float(_) => Ty::Float,
            Const::Double(_) => Ty::Double,
            Const::Str(_) => Ty::Str,
            Const::Null | Const::Class(_) => Ty::Ref,
        }
    }
}

/// A variable or a constant.
#[derive(Debug)]
pub enum Operand {
    Var(VarId),
    Const(Const),
}

/// View of [`Operand`].
#[verifier::ext_equal]
pub enum OperandV {
    Var(VarId),
    Const(ConstV),
}

impl View for Operand {
    type V = OperandV;

    open spec fn view(&self) -> OperandV {
        match *self {
            Operand::Var(v) => OperandV::Var(v),
            Operand::Const(c) => OperandV::Const(c@),
        }
    }
}

impl Clone for Operand {
    fn clone(&self) -> (r: Self)
        ensures
            r == *self,
    {
        match self {
            Operand::Var(v) => Operand::Var(*v),
            Operand::Const(c) => Operand::Const(c.clone()),
        }
    }
}

impl Operand {
    /// The integer constant `n`.
    pub fn int_const(n: i32) -> (r: Operand)
        ensures
            r == Operand::Const(Const::Int(n)),
    {
        Operand::Const(Const::Int(n))
    }

    /// Does the operand name a variable below `n`, or none at all?
    pub open spec fn in_range(self, n: nat) -> bool {
        self matches Operand::Var(v) ==> v.0 < n
    }
}

/// A binary operator. Comparisons give 1 or 0.
#[derive(Clone, Copy, Debug, PartialEq, Eq, Structural, Hash)]
pub enum BinOp {
    Add,
    Sub,
    Mul,
    Div,
    Rem,
    And,
    Or,
    Xor,
    Shl,
    Shr,
    UShr,
    Eq,
    Ne,
    Lt,
    Le,
    Gt,
    Ge,
}

/// Names a method by owner, name and descriptor.
#[derive(Debug)]
pub struct MethodKey {
    pub class: String,
    pub name: String,
    pub desc: String,
}

/// View of [`MethodKey`].
#[verifier::ext_equal]
pub struct MethodKeyV {
    pub class: Seq<char>,
    pub name: Seq<char>,
    pub desc: Seq<char>,
}

impl View for MethodKey {
    type V = MethodKeyV;

    open spec fn view(&self) -> MethodKeyV {
        MethodKeyV { class: self.class@, name: self.name@, desc: self.desc@ }
    }
}

impl Clone for MethodKey {
    fn clone(&self) -> (r: Self)
        ensures
            r == *self,
    {
        MethodKey { class: self.class.clone(), name: self.name.clone(), desc: self.desc.clone() }
    }
}

impl MethodKey {
    /// Do the two keys name the same method?
    pub fn same_as(&self, other: &MethodKey) -> (r: bool)
        ensures
            r == (self@ == other@),
    {
        same(self.class.as_str(), other.class.as_str()) && same(
            self.name.as_str(),
            other.name.as_str(),
        ) && same(self.desc.as_str(), other.desc.as_str())
    }
}

/// Names a field by owner, name and descriptor.
#[derive(Debug)]
pub struct FieldKey {
    pub class: String,
    pub name: String,
    pub desc: String,
}

/// View of [`FieldKey`].
#[verifier::ext_equal]
pub struct FieldKeyV {
    pub class: Seq<char>,
    pub name: Seq<char>,
    pub desc: Seq<char>,
}

impl View for FieldKey {
    type V = FieldKeyV;

    open spec fn view(&self) -> FieldKeyV {
        FieldKeyV { class: self.class@, name: self.name@, desc: self.desc@ }
    }
}

impl Clone for FieldKey {
    fn clone(&self) -> (r: Self)
        ensures
            r == *self,
    {
        FieldKey { class: self.class.clone(), name: self.name.clone(), desc: self.desc.clone() }
    }
}

impl FieldKey {
    /// Do the two keys name the same field?
    pub fn same_as(&self, other: &FieldKey) -> (r: bool)
        ensures
            r == (self@ == other@),
    {
        same(self.class.as_str(), other.class.as_str()) && same(
            self.name.as_str(),
            other.name.as_str(),
        ) && same(self.desc.as_str(), other.desc.as_str())
    }
}

/// What an assignment computes.
#[derive(Clone, Debug)]
pub enum Rvalue {
    Use(Operand),
    Bin(BinOp, Operand, Operand),
    Neg(Operand),
    Cast(Ty, Operand),
    /// Three-way comparison: -1, 0 or 1.
    Cmp(Operand, Operand),
    /// A nondeterministic input, with the JVM type byte it was declared with.
    Nondet(Ty, Option<u8>),
    /// A value the model says nothing about.
    Havoc(Ty),
    New(String),
    NewArray { elem: String, len: Operand },
    ArrayLoad { arr: Operand, idx: Operand },
    ArrayLength(Operand),
    GetStatic(FieldKey),
    GetField { obj: Operand, field: FieldKey },
    InstanceOf { obj: Operand, class: String },
    Call { target: MethodKey, args: Vec<Operand>, is_virtual: bool },
}

/// View of [`Rvalue`].
#[verifier::ext_equal]
pub enum RvalueV {
    Use(OperandV),
    Bin(BinOp, OperandV, OperandV),
    Neg(OperandV),
    Cast(Ty, OperandV),
    Cmp(OperandV, OperandV),
    Nondet(Ty, Option<u8>),
    Havoc(Ty),
    New(Seq<char>),
    NewArray { elem: Seq<char>, len: OperandV },
    ArrayLoad { arr: OperandV, idx: OperandV },
    ArrayLength(OperandV),
    GetStatic(FieldKeyV),
    GetField { obj: OperandV, field: FieldKeyV },
    InstanceOf { obj: OperandV, class: Seq<char> },
    Call { target: MethodKeyV, args: Seq<OperandV>, is_virtual: bool },
}

/// The views of a list of operands.
pub open spec fn operand_views(ops: Seq<Operand>) -> Seq<OperandV> {
    ops.map_values(|o: Operand| o@)
}

impl View for Rvalue {
    type V = RvalueV;

    open spec fn view(&self) -> RvalueV {
        match *self {
            Rvalue::Use(o) => RvalueV::Use(o@),
            Rvalue::Bin(op, a, b) => RvalueV::Bin(op, a@, b@),
            Rvalue::Neg(o) => RvalueV::Neg(o@),
            Rvalue::Cast(ty, o) => RvalueV::Cast(ty, o@),
            Rvalue::Cmp(a, b) => RvalueV::Cmp(a@, b@),
            Rvalue::Nondet(ty, b) => RvalueV::Nondet(ty, b),
            Rvalue::Havoc(ty) => RvalueV::Havoc(ty),
            Rvalue::New(c) => RvalueV::New(c@),
            Rvalue::NewArray { elem, len } => RvalueV::NewArray { elem: elem@, len: len@ },
            Rvalue::ArrayLoad { arr, idx } => RvalueV::ArrayLoad { arr: arr@, idx: idx@ },
            Rvalue::ArrayLength(o) => RvalueV::ArrayLength(o@),
            Rvalue::GetStatic(f) => RvalueV::GetStatic(f@),
            Rvalue::GetField { obj, field } => RvalueV::GetField { obj: obj@, field: field@ },
            Rvalue::InstanceOf { obj, class } => RvalueV::InstanceOf { obj: obj@, class: class@ },
            Rvalue::Call { target, args, is_virtual } => RvalueV::Call {
                target: target@,
                args: operand_views(args@),
                is_virtual,
            },
        }
    }
}

/// A statement.
#[derive(Debug)]
pub enum Stmt {
    Assign(VarId, Rvalue),
    Assume(Operand),
    Check(ObligationId),
    PutStatic(FieldKey, Operand),
    PutField { obj: Operand, field: FieldKey, val: Operand },
    ArrayStore { arr: Operand, idx: Operand, val: Operand },
    Nop,
}

/// View of [`Stmt`].
#[verifier::ext_equal]
pub enum StmtV {
    Assign(VarId, RvalueV),
    Assume(OperandV),
    Check(ObligationId),
    PutStatic(FieldKeyV, OperandV),
    PutField { obj: OperandV, field: FieldKeyV, val: OperandV },
    ArrayStore { arr: OperandV, idx: OperandV, val: OperandV },
    Nop,
}

impl View for Stmt {
    type V = StmtV;

    open spec fn view(&self) -> StmtV {
        match *self {
            Stmt::Assign(v, rv) => StmtV::Assign(v, rv@),
            Stmt::Assume(o) => StmtV::Assume(o@),
            Stmt::Check(id) => StmtV::Check(id),
            Stmt::PutStatic(f, o) => StmtV::PutStatic(f@, o@),
            Stmt::PutField { obj, field, val } => StmtV::PutField {
                obj: obj@,
                field: field@,
                val: val@,
            },
            Stmt::ArrayStore { arr, idx, val } => StmtV::ArrayStore {
                arr: arr@,
                idx: idx@,
                val: val@,
            },
            Stmt::Nop => StmtV::Nop,
        }
    }
}

/// The views of a list of statements.
pub open spec fn stmt_views(stmts: Seq<Stmt>) -> Seq<StmtV> {
    stmts.map_values(|s: Stmt| s@)
}

/// How a block ends.
#[derive(Debug)]
pub enum Terminator {
    Goto(BlockId),
    Branch { cond: Operand, then_: BlockId, else_: BlockId },
    Switch { value: Operand, cases: Vec<(i32, BlockId)>, default: BlockId },
    Return(Option<Operand>),
    Throw(Operand),
    /// Nothing can follow: an assumption failed, or the code is dead.
    Halt,
    /// What follows is not modelled; the text says why.
    Diverge(String),
}

/// View of [`Terminator`].
#[verifier::ext_equal]
pub enum TerminatorV {
    Goto(BlockId),
    Branch { cond: OperandV, then_: BlockId, else_: BlockId },
    Switch { value: OperandV, cases: Seq<(i32, BlockId)>, default: BlockId },
    Return(Option<OperandV>),
    Throw(OperandV),
    Halt,
    Diverge(Seq<char>),
}

impl View for Terminator {
    type V = TerminatorV;

    open spec fn view(&self) -> TerminatorV {
        match *self {
            Terminator::Goto(t) => TerminatorV::Goto(t),
            Terminator::Branch { cond, then_, else_ } => TerminatorV::Branch {
                cond: cond@,
                then_,
                else_,
            },
            Terminator::Switch { value, cases, default } => TerminatorV::Switch {
                value: value@,
                cases: cases@,
                default,
            },
            Terminator::Return(Some(o)) => TerminatorV::Return(Some(o@)),
            Terminator::Return(None) => TerminatorV::Return(None),
            Terminator::Throw(o) => TerminatorV::Throw(o@),
            Terminator::Halt => TerminatorV::Halt,
            Terminator::Diverge(s) => TerminatorV::Diverge(s@),
        }
    }
}

/// An exceptional successor: `None` catches everything.
#[derive(Debug)]
pub struct ExcEdge {
    pub class: Option<String>,
    pub target: BlockId,
}

/// View of [`ExcEdge`].
#[verifier::ext_equal]
pub struct ExcEdgeV {
    pub class: Option<Seq<char>>,
    pub target: BlockId,
}

impl View for ExcEdge {
    type V = ExcEdgeV;

    open spec fn view(&self) -> ExcEdgeV {
        ExcEdgeV {
            class: match self.class {
                Some(c) => Some(c@),
                None => None,
            },
            target: self.target,
        }
    }
}

/// A basic block.
#[derive(Debug)]
pub struct Block {
    pub id: BlockId,
    pub bytecode_offset: u16,
    pub stmts: Vec<Stmt>,
    pub term: Terminator,
    pub exceptional: Vec<ExcEdge>,
}

/// View of [`Block`].
#[verifier::ext_equal]
pub struct BlockV {
    pub id: BlockId,
    pub bytecode_offset: u16,
    pub stmts: Seq<StmtV>,
    pub term: TerminatorV,
    pub exceptional: Seq<ExcEdgeV>,
}

impl View for Block {
    type V = BlockV;

    open spec fn view(&self) -> BlockV {
        BlockV {
            id: self.id,
            bytecode_offset: self.bytecode_offset,
            stmts: stmt_views(self.stmts@),
            term: self.term@,
            exceptional: self.exceptional@.map_values(|e: ExcEdge| e@),
        }
    }
}

/// Where a variable comes from.
#[derive(Clone, Copy, Debug, PartialEq, Eq, Structural, Hash)]
pub enum VarKind {
    /// A JVM local slot.
    Local(u16),
    /// A canonical operand-stack register.
    Stack(u16),
    Temp,
}

/// A variable's origin and type.
#[derive(Clone, Copy, Debug, PartialEq, Eq, Structural, Hash)]
pub struct VarInfo {
    pub kind: VarKind,
    pub ty: Ty,
}

/// What an obligation guards against.
#[derive(Clone, Copy, Debug, PartialEq, Eq, Structural, Hash)]
pub enum ObligationKind {
    NullDeref,
    ArrayBounds,
    DivByZero,
    NegArraySize,
    ClassCast,
    Assertion,
}

/// A safety condition: the program is unsafe if control reaches the
/// corresponding `Check` with the condition zero.
#[derive(Debug)]
pub struct Obligation {
    pub id: ObligationId,
    pub kind: ObligationKind,
    pub cond: Operand,
    pub bytecode_offset: u16,
    pub line: Option<u16>,
    /// Could the exception be caught inside the method?
    pub guarded: bool,
}

/// View of [`Obligation`].
#[verifier::ext_equal]
pub struct ObligationV {
    pub id: ObligationId,
    pub kind: ObligationKind,
    pub cond: OperandV,
    pub bytecode_offset: u16,
    pub line: Option<u16>,
    pub guarded: bool,
}

impl View for Obligation {
    type V = ObligationV;

    open spec fn view(&self) -> ObligationV {
        ObligationV {
            id: self.id,
            kind: self.kind,
            cond: self.cond@,
            bytecode_offset: self.bytecode_offset,
            line: self.line,
            guarded: self.guarded,
        }
    }
}

/// A method body.
#[derive(Debug)]
pub struct Body {
    pub key: MethodKey,
    pub entry: BlockId,
    pub blocks: Vec<Block>,
    pub vars: Vec<VarInfo>,
    pub obligations: Vec<Obligation>,
}

/// View of [`Body`].
#[verifier::ext_equal]
pub struct BodyV {
    pub key: MethodKeyV,
    pub entry: BlockId,
    pub blocks: Seq<BlockV>,
    pub vars: Seq<VarInfo>,
    pub obligations: Seq<ObligationV>,
}

impl View for Body {
    type V = BodyV;

    open spec fn view(&self) -> BodyV {
        BodyV {
            key: self.key@,
            entry: self.entry,
            blocks: self.blocks@.map_values(|b: Block| b@),
            vars: self.vars@,
            obligations: self.obligations@.map_values(|o: Obligation| o@),
        }
    }
}

/// The blocks a terminator can continue at: none for one that leaves the body.
pub open spec fn term_targets(t: Terminator) -> Seq<BlockId> {
    match t {
        Terminator::Goto(b) => seq![b],
        Terminator::Branch { then_, else_, .. } => seq![then_, else_],
        Terminator::Switch { cases, default, .. } => cases@.map_values(
            |c: (i32, BlockId)| c.1,
        ).push(default),
        _ => Seq::empty(),
    }
}

/// The operands an rvalue reads.
pub open spec fn rvalue_operands(rv: Rvalue) -> Seq<Operand> {
    match rv {
        Rvalue::Use(o) | Rvalue::Neg(o) | Rvalue::Cast(_, o) | Rvalue::ArrayLength(o) => seq![o],
        Rvalue::NewArray { len, .. } => seq![len],
        Rvalue::GetField { obj, .. } | Rvalue::InstanceOf { obj, .. } => seq![obj],
        Rvalue::Bin(_, a, b) | Rvalue::Cmp(a, b) => seq![a, b],
        Rvalue::ArrayLoad { arr, idx } => seq![arr, idx],
        Rvalue::Call { args, .. } => args@,
        _ => Seq::empty(),
    }
}

/// All operands name variables below `n`.
pub open spec fn operands_in_range(ops: Seq<Operand>, n: nat) -> bool {
    forall|i: int| 0 <= i < ops.len() ==> (#[trigger] ops[i]).in_range(n)
}

/// The statement names only variables below `n` and obligations below `m`.
pub open spec fn stmt_in_range(s: Stmt, n: nat, m: nat) -> bool {
    match s {
        Stmt::Assign(v, rv) => v.0 < n && operands_in_range(rvalue_operands(rv), n),
        Stmt::Assume(o) | Stmt::PutStatic(_, o) => o.in_range(n),
        Stmt::Check(id) => id.0 < m,
        Stmt::PutField { obj, val, .. } => obj.in_range(n) && val.in_range(n),
        Stmt::ArrayStore { arr, idx, val } => arr.in_range(n) && idx.in_range(n) && val.in_range(n),
        Stmt::Nop => true,
    }
}

/// The operand a terminator reads, if any, names a variable below `n`.
pub open spec fn term_in_range(t: Terminator, n: nat) -> bool {
    match t {
        Terminator::Branch { cond, .. } => cond.in_range(n),
        Terminator::Switch { value, .. } => value.in_range(n),
        Terminator::Return(Some(o)) => o.in_range(n),
        Terminator::Throw(o) => o.in_range(n),
        _ => true,
    }
}

impl Block {
    /// Every index in the block is below the given limits.
    pub open spec fn in_range(self, blocks: nat, vars: nat, obligations: nat) -> bool {
        &&& forall|i: int|
            0 <= i < self.stmts@.len() ==> stmt_in_range(#[trigger] self.stmts@[i], vars, obligations)
        &&& term_in_range(self.term, vars)
        &&& forall|i: int|
            0 <= i < term_targets(self.term).len() ==> (#[trigger] term_targets(self.term)[i]).0
                < blocks
        &&& forall|i: int|
            0 <= i < self.exceptional@.len() ==> (#[trigger] self.exceptional@[i]).target.0 < blocks
    }
}

impl Body {
    /// Blocks and obligations are numbered by position, the entry exists, and
    /// no index leads outside the body.
    pub open spec fn well_formed(self) -> bool {
        &&& self.entry.0 < self.blocks@.len()
        &&& self.blocks@.len() < u32::MAX
        &&& self.vars@.len() <= u32::MAX
        &&& forall|i: int| 0 <= i < self.blocks@.len() ==> (#[trigger] self.blocks@[i]).id.0 == i
        &&& forall|i: int|
            0 <= i < self.obligations@.len() ==> (#[trigger] self.obligations@[i]).id.0 == i
                && self.obligations@[i].cond.in_range(self.vars@.len())
        &&& forall|i: int|
            0 <= i < self.blocks@.len() ==> (#[trigger] self.blocks@[i]).in_range(
                self.blocks@.len(),
                self.vars@.len(),
                self.obligations@.len(),
            )
    }

    /// Nothing in the body was left unmodelled.
    pub open spec fn fully_lifted(self) -> bool {
        forall|i: int|
            0 <= i < self.blocks@.len() ==> !((#[trigger] self.blocks@[i]).term is Diverge)
    }

    /// The block with the given id.
    pub fn block(&self, id: BlockId) -> (b: &Block)
        requires
            id.0 < self.blocks@.len(),
        ensures
            *b == self.blocks@[id.0 as int],
    {
        &self.blocks[id.0 as usize]
    }

    /// The variable with the given id.
    pub fn var(&self, id: VarId) -> (v: &VarInfo)
        requires
            id.0 < self.vars@.len(),
        ensures
            *v == self.vars@[id.0 as int],
    {
        &self.vars[id.0 as usize]
    }

    /// The obligation with the given id.
    pub fn obligation(&self, id: ObligationId) -> (o: &Obligation)
        requires
            id.0 < self.obligations@.len(),
        ensures
            *o == self.obligations@[id.0 as int],
    {
        &self.obligations[id.0 as usize]
    }

    /// Is every block modelled to its end?
    pub fn is_fully_lifted(&self) -> (r: bool)
        ensures
            r == self.fully_lifted(),
    {
        let mut i: usize = 0;
        while i < self.blocks.len()
            invariant
                i <= self.blocks.len(),
                forall|j: int| 0 <= j < i ==> !((#[trigger] self.blocks@[j]).term is Diverge),
            decreases self.blocks.len() - i,
        {
            if let Terminator::Diverge(_) = &self.blocks[i].term {
                return false;
            }
            i += 1;
        }
        true
    }
}

} // verus!
