//! The lifter at work: variables, obligations, the simulated stack and the
//! statements of the block.

use vstd::prelude::*;

use crate::assoc::{Assoc, TextMap};
use crate::classfile::{ClassFile, Code, Handler};
use crate::ir;
use crate::ir::{
    BinOp, BlockId, Const, ConstV, Obligation, ObligationId, ObligationKind, ObligationV, Operand,
    OperandV, Rvalue, RvalueV, Stmt, StmtV, Ty, VarId, VarInfo, VarKind,
};
use crate::models::Models;

verus! {

/// What is being lifted.
#[derive(Clone, Copy)]
pub struct Site<'a> {
    pub cf: &'a ClassFile,
    pub models: &'a Models,
    pub code: &'a Code,
    /// Where blocks begin, in order.
    pub leaders: &'a Vec<usize>,
}

/// View of [`Site`].
#[verifier::ext_equal]
pub struct SiteV {
    pub cf: ClassFile,
    pub models: Models,
    pub code: Code,
    pub leaders: Seq<nat>,
}

/// Positions as numbers.
pub open spec fn nats(v: Seq<usize>) -> Seq<nat> {
    v.map_values(|x: usize| x as nat)
}

impl<'a> View for Site<'a> {
    type V = SiteV;

    open spec fn view(&self) -> SiteV {
        SiteV {
            cf: *self.cf,
            models: *self.models,
            code: *self.code,
            leaders: nats(self.leaders@),
        }
    }
}

/// The state of the lifter inside a block.
#[verifier::ext_equal]
pub struct Frame {
    pub vars: Seq<VarInfo>,
    /// The variable of each local slot in use.
    pub locals: Map<u16, VarId>,
    /// The variable of each stack position in use.
    pub slots: Map<u16, VarId>,
    pub obligations: Seq<ObligationV>,
    /// The class of the new object that a variable holds, where known.
    pub classes: Map<VarId, Seq<char>>,
    pub stack: Seq<OperandV>,
    pub stmts: Seq<StmtV>,
}

/// The source line of an offset: that of the last entry that is not beyond it.
pub open spec fn line_of(lines: Seq<(u16, u16)>, off: u16, n: nat) -> Option<u16>
    decreases n,
{
    if n == 0 {
        None
    } else if lines[n - 1].0 <= off {
        Some(lines[n - 1].1)
    } else {
        line_of(lines, off, (n - 1) as nat)
    }
}

/// Could an exception raised at the offset be caught in the method?
pub open spec fn guarded_at(handlers: Seq<Handler>, off: u16) -> bool {
    exists|i: int|
        0 <= i < handlers.len() && (#[trigger] handlers[i]).start <= off && off < handlers[i].end
}

/// The block that begins at the offset, from block `i` on.
pub open spec fn block_from(leaders: Seq<nat>, off: int, i: nat) -> Option<BlockId>
    decreases leaders.len() - i,
{
    if i >= leaders.len() {
        None
    } else if leaders[i as int] == off {
        Some(BlockId(i as u32))
    } else {
        block_from(leaders, off, i + 1)
    }
}

/// The block that begins at the offset.
pub open spec fn block_at(leaders: Seq<nat>, off: int) -> Option<BlockId> {
    block_from(leaders, off, 0)
}

impl Frame {
    /// The next variable.
    pub open spec fn next(self) -> VarId {
        VarId(self.vars.len() as u32)
    }

    /// With one more variable.
    pub open spec fn with_var(self, kind: VarKind, ty: Ty) -> Frame {
        Frame { vars: self.vars.push(VarInfo { kind, ty }), ..self }
    }

    /// The variable of a local slot, which is made with the type at its first use.
    pub open spec fn local(self, slot: u16, ty: Ty) -> (Frame, VarId) {
        if self.locals.dom().contains(slot) {
            (self, self.locals[slot])
        } else {
            (
                Frame {
                    locals: self.locals.insert(slot, self.next()),
                    ..self.with_var(VarKind::Local(slot), ty)
                },
                self.next(),
            )
        }
    }

    /// The variable of a stack position.
    pub open spec fn slot(self, depth: u16) -> (Frame, VarId) {
        if self.slots.dom().contains(depth) {
            (self, self.slots[depth])
        } else {
            (
                Frame {
                    slots: self.slots.insert(depth, self.next()),
                    ..self.with_var(VarKind::Stack(depth), Ty::Int)
                },
                self.next(),
            )
        }
    }

    pub open spec fn with_stmt(self, s: StmtV) -> Frame {
        Frame { stmts: self.stmts.push(s), ..self }
    }

    /// The rvalue is assigned to a new variable, which is [`Frame::next`].
    pub open spec fn emitted(self, ty: Ty, rv: RvalueV) -> Frame {
        self.with_var(VarKind::Temp, ty).with_stmt(StmtV::Assign(self.next(), rv))
    }

    /// The rvalue is assigned to a new variable, which is pushed.
    pub open spec fn computed(self, ty: Ty, rv: RvalueV) -> Frame {
        self.emitted(ty, rv).pushed(OperandV::Var(self.next()))
    }

    pub open spec fn pushed(self, o: OperandV) -> Frame {
        Frame { stack: self.stack.push(o), ..self }
    }

    /// Without the top `n` entries of the stack.
    pub open spec fn dropped(self, n: int) -> Frame {
        Frame { stack: self.stack.take(self.stack.len() - n), ..self }
    }

    /// Entry `n` of the stack, counted from the top.
    pub open spec fn top(self, n: int) -> OperandV {
        self.stack[self.stack.len() - 1 - n]
    }

    /// A copy of a new object is known to be one.
    pub open spec fn class_copied(self, dst: VarId, src: OperandV) -> Frame {
        match src {
            OperandV::Var(v) => if self.classes.dom().contains(v) {
                Frame { classes: self.classes.insert(dst, self.classes[v]), ..self }
            } else {
                self
            },
            _ => self,
        }
    }

    /// With a check of a new obligation.
    pub open spec fn checked(self, code: Code, kind: ObligationKind, cond: OperandV, off: u16) -> Frame {
        let id = ObligationId(self.obligations.len() as u32);
        Frame {
            obligations: self.obligations.push(
                ObligationV {
                    id,
                    kind,
                    cond,
                    bytecode_offset: off,
                    line: line_of(code.lines@, off, code.lines@.len()),
                    guarded: guarded_at(code.handlers@, off),
                },
            ),
            ..self
        }.with_stmt(StmtV::Check(id))
    }

    /// With a check that the object is not null.
    pub open spec fn null_checked(self, code: Code, obj: OperandV, off: u16) -> Frame {
        self.emitted(
            Ty::Int,
            RvalueV::Bin(BinOp::Ne, obj, OperandV::Const(ConstV::Null)),
        ).checked(code, ObligationKind::NullDeref, OperandV::Var(self.next()), off)
    }

    /// With a check that the index is in the bounds of the array.
    pub open spec fn bounds_checked(self, code: Code, arr: OperandV, idx: OperandV, off: u16) -> Frame {
        let f1 = self.emitted(Ty::Int, RvalueV::ArrayLength(arr));
        let f2 = f1.emitted(
            Ty::Int,
            RvalueV::Bin(BinOp::Ge, idx, OperandV::Const(ConstV::Int(0))),
        );
        let f3 = f2.emitted(Ty::Int, RvalueV::Bin(BinOp::Lt, idx, OperandV::Var(self.next())));
        let f4 = f3.emitted(
            Ty::Int,
            RvalueV::Bin(BinOp::And, OperandV::Var(f1.next()), OperandV::Var(f2.next())),
        );
        f4.checked(code, ObligationKind::ArrayBounds, OperandV::Var(f3.next()), off)
    }
}

/// Every variable of a stack position is the one made for it, and classes are known of
/// variables that there are; as long as variables can be numbered.
pub open spec fn in_place(
    vars: Seq<VarInfo>,
    slots: Map<u16, VarId>,
    classes: Map<VarId, Seq<char>>,
) -> bool {
    vars.len() <= 0x1_0000_0000 ==> {
        &&& forall|d: u16| #[trigger]
            slots.dom().contains(d) ==> slots[d].0 < vars.len() && vars[slots[d].0 as int].kind
                == VarKind::Stack(d)
        &&& forall|v: VarId| #[trigger] classes.dom().contains(v) ==> v.0 < vars.len()
    }
}

/// The block that begins at the offset.
pub fn find_block(leaders: &Vec<usize>, off: i64) -> (r: Option<BlockId>)
    ensures
        r == block_at(nats(leaders@), off as int),
        r matches Some(b) ==> b.0 < leaders@.len(),
{
    if off < 0 {
        proof {
            lemma_no_block(nats(leaders@), off as int, 0);
        }
        return None;
    }
    let mut i: usize = 0;
    while i < leaders.len()
        invariant
            i <= leaders@.len(),
            off >= 0,
            block_at(nats(leaders@), off as int) == block_from(nats(leaders@), off as int, i as nat),
        decreases leaders@.len() - i,
    {
        if leaders[i] as u64 == off as u64 {
            proof {
                assert(i as u32 <= i) by (bit_vector);
            }
            return Some(BlockId(i as u32));
        }
        i += 1;
    }
    None
}

proof fn lemma_no_block(leaders: Seq<nat>, off: int, i: nat)
    requires
        off < 0,
    ensures
        block_from(leaders, off, i) is None,
    decreases leaders.len() - i,
{
    if i < leaders.len() {
        lemma_no_block(leaders, off, i + 1);
    }
}

/// The first `n` stack entries that are not in the variables of their positions
/// are saved in new variables.
pub open spec fn saved(f: Frame, n: nat) -> (Frame, Seq<(u16, VarId)>)
    decreases n,
{
    if n == 0 {
        (f, Seq::empty())
    } else {
        let (g, temps) = saved(f, (n - 1) as nat);
        let d = (n - 1) as nat;
        let (h, canonical) = g.slot(d as u16);
        let op = f.stack[d as int];
        if op == OperandV::Var(canonical) {
            (h, temps)
        } else {
            let t = h.next();
            (
                h.with_var(VarKind::Temp, Ty::Int).class_copied(t, op).with_stmt(
                    StmtV::Assign(t, RvalueV::Use(op)),
                ),
                temps.push((d as u16, t)),
            )
        }
    }
}

/// The first `n` saved entries are put into the variables of their positions.
pub open spec fn restored(f: Frame, temps: Seq<(u16, VarId)>, n: nat) -> Frame
    decreases n,
{
    if n == 0 {
        f
    } else {
        let g = restored(f, temps, (n - 1) as nat);
        let (d, t) = temps[n - 1];
        let (h, canonical) = g.slot(d);
        h.class_copied(canonical, OperandV::Var(t)).with_stmt(
            StmtV::Assign(canonical, RvalueV::Use(OperandV::Var(t))),
        )
    }
}

/// The stack is put into the variables of its positions. All entries are read
/// before any of the variables is written.
pub open spec fn spilled(f: Frame) -> Frame {
    let (g, temps) = saved(f, f.stack.len());
    restored(g, temps, temps.len())
}

/// A lifter inside a block.
pub struct Lifter<'a> {
    pub site: Site<'a>,
    pub vars: Vec<VarInfo>,
    pub locals: Assoc<u16, VarId>,
    pub slots: Assoc<u16, VarId>,
    pub obligations: Vec<Obligation>,
    pub classes: TextMap<VarId>,
    pub stack: Vec<Operand>,
    pub stmts: Vec<Stmt>,
}

/// The views of obligations.
pub open spec fn obligation_views(v: Seq<Obligation>) -> Seq<ObligationV> {
    v.map_values(|o: Obligation| o@)
}

impl<'a> Lifter<'a> {
    /// The state.
    pub open spec fn frame(self) -> Frame {
        Frame {
            vars: self.vars@,
            locals: self.locals.map(),
            slots: self.slots.map(),
            obligations: obligation_views(self.obligations@),
            classes: self.classes.map(),
            stack: ir::operand_views(self.stack@),
            stmts: ir::stmt_views(self.stmts@),
        }
    }

    /// Everything refers to variables and obligations that exist, and every stack
    /// position has the variable that was made for it.
    pub open spec fn ok(self) -> bool {
        let n = self.vars@.len();
        &&& in_place(self.vars@, self.slots.map(), self.classes.map())
        &&& forall|k: u16| (#[trigger] self.locals.at(k)) matches Some(v) ==> v.0 < n
        &&& forall|k: u16| (#[trigger] self.slots.at(k)) matches Some(v) ==> v.0 < n
        &&& forall|i: int|
            0 <= i < self.obligations@.len() ==> (#[trigger] self.obligations@[i]).cond.in_range(n)
                && self.obligations@[i].id == ObligationId(i as u32)
        &&& ir::operands_in_range(self.stack@, n)
        &&& forall|i: int|
            0 <= i < self.stmts@.len() ==> ir::stmt_in_range(
                #[trigger] self.stmts@[i],
                n,
                self.obligations@.len(),
            )
    }

    /// Nothing was taken away: what was in range stays so.
    pub open spec fn extends(self, old: Lifter<'a>) -> bool {
        &&& self.ok()
        &&& self.site == old.site
        &&& old.vars@.len() <= self.vars@.len()
        &&& old.obligations@.len() <= self.obligations@.len()
    }

    /// Only variables were added.
    spec fn wider(self, old: Lifter<'a>) -> bool {
        &&& self.site == old.site
        &&& old.vars@ == self.vars@.take(old.vars@.len() as int)
        &&& old.vars@.len() <= self.vars@.len()
        &&& self.locals == old.locals
        &&& self.slots == old.slots
        &&& self.obligations == old.obligations
        &&& self.classes == old.classes
        &&& self.stack == old.stack
        &&& self.stmts == old.stmts
    }

    proof fn lemma_wider(self, old: Lifter<'a>)
        requires
            old.ok(),
            self.wider(old),
        ensures
            self.ok(),
    {
        let n = self.vars@.len();
        assert(in_place(self.vars@, self.slots.map(), self.classes.map())) by {
            let slots = self.slots.map();
            assert forall|d: u16|
                n <= 0x1_0000_0000 && #[trigger] slots.dom().contains(d) implies slots[d].0 < n
                && self.vars@[slots[d].0 as int].kind == VarKind::Stack(d) by {
                assert(old.vars@[slots[d].0 as int] == self.vars@[slots[d].0 as int]);
            }
        }
        assert forall|i: int| 0 <= i < self.stmts@.len() implies ir::stmt_in_range(
            #[trigger] self.stmts@[i],
            n,
            self.obligations@.len(),
        ) by {
            assert(ir::stmt_in_range(old.stmts@[i], old.vars@.len(), old.obligations@.len()));
        }
        assert forall|i: int| 0 <= i < self.obligations@.len() implies (#[trigger] self.obligations@[i]).cond.in_range(
            n,
        ) && self.obligations@[i].id == ObligationId(i as u32) by {
            assert(old.obligations@[i].cond.in_range(old.vars@.len()));
        }
        assert forall|i: int| 0 <= i < self.stack@.len() implies (#[trigger] self.stack@[i]).in_range(n) by {
            assert(old.stack@[i].in_range(old.vars@.len()));
        }
    }

    /// A new variable.
    pub fn fresh(&mut self, kind: VarKind, ty: Ty) -> (v: VarId)
        requires
            old(self).ok(),
        ensures
            final(self).extends(*old(self)),
            v == old(self).frame().next(),
            v.0 < final(self).vars@.len(),
            final(self).frame() == old(self).frame().with_var(kind, ty),
            final(self).stack == old(self).stack,
    {
        let id = VarId(self.vars.len() as u32);
        proof {
            assert(self.vars@.len() as u32 <= self.vars@.len()) by {
                let x = self.vars.len();
                assert(x as u32 <= x) by (bit_vector);
            }
        }
        self.vars.push(VarInfo { kind, ty });
        proof {
            assert(self.vars@.take(old(self).vars@.len() as int) =~= old(self).vars@);
            self.lemma_wider(*old(self));
        }
        id
    }

    /// The variable of a local slot.
    pub fn local(&mut self, slot: u16, ty: Ty) -> (v: VarId)
        requires
            old(self).ok(),
        ensures
            final(self).extends(*old(self)),
            v.0 < final(self).vars@.len(),
            (final(self).frame(), v) == old(self).frame().local(slot, ty),
            final(self).stack == old(self).stack,
    {
        if let Some(v) = self.locals.get(&slot) {
            return v;
        }
        let v = self.fresh(VarKind::Local(slot), ty);
        let ghost mid = *self;
        self.locals.insert(slot, v);
        proof {
            assert(self.locals.map() =~= mid.locals.map().insert(slot, v));
            self.lemma_same_but_maps(mid);
        }
        v
    }

    proof fn lemma_same_but_maps(self, old: Lifter<'a>)
        requires
            old.ok(),
            self.vars == old.vars,
            self.site == old.site,
            self.obligations == old.obligations,
            self.stack == old.stack,
            self.stmts == old.stmts,
            in_place(self.vars@, self.slots.map(), self.classes.map()),
            forall|k: u16| (#[trigger] self.locals.at(k)) matches Some(v) ==> v.0 < self.vars@.len(),
            forall|k: u16| (#[trigger] self.slots.at(k)) matches Some(v) ==> v.0 < self.vars@.len(),
        ensures
            self.ok(),
    {
    }

    /// The variable of a stack position.
    pub fn stack_slot(&mut self, depth: u16) -> (v: VarId)
        requires
            old(self).ok(),
        ensures
            final(self).extends(*old(self)),
            v.0 < final(self).vars@.len(),
            (final(self).frame(), v) == old(self).frame().slot(depth),
            final(self).stack == old(self).stack,
    {
        if let Some(v) = self.slots.get(&depth) {
            return v;
        }
        let v = self.fresh(VarKind::Stack(depth), Ty::Int);
        let ghost mid = *self;
        self.slots.insert(depth, v);
        proof {
            assert(self.slots.map() =~= mid.slots.map().insert(depth, v));
            self.lemma_same_but_maps(mid);
        }
        v
    }

    /// A copy of a new object is known to be one.
    pub fn copy_class(&mut self, dst: VarId, src: &Operand)
        requires
            old(self).ok(),
            dst.0 < old(self).vars@.len(),
        ensures
            final(self).extends(*old(self)),
            final(self).vars == old(self).vars,
            final(self).frame() == old(self).frame().class_copied(dst, src@),
            final(self).stack == old(self).stack,
    {
        if let Operand::Var(v) = src {
            let found = match self.classes.get(v) {
                Some(c) => Some(c.clone()),
                None => None,
            };
            if let Some(c) = found {
                self.classes.insert(dst, c);
            }
        }
    }

    /// One more statement.
    pub fn emit(&mut self, s: Stmt)
        requires
            old(self).ok(),
            ir::stmt_in_range(s, old(self).vars@.len(), old(self).obligations@.len()),
        ensures
            final(self).extends(*old(self)),
            final(self).vars == old(self).vars,
            final(self).frame() == old(self).frame().with_stmt(s@),
            final(self).stack == old(self).stack,
    {
        self.stmts.push(s);
        proof {
            assert(ir::stmt_views(self.stmts@) =~= ir::stmt_views(old(self).stmts@).push(s@));
            assert forall|i: int| 0 <= i < self.stmts@.len() implies ir::stmt_in_range(
                #[trigger] self.stmts@[i],
                self.vars@.len(),
                self.obligations@.len(),
            ) by {
                if i < old(self).stmts@.len() {
                    assert(old(self).stmts@[i] == self.stmts@[i]);
                }
            }
        }
    }

    /// Assign an rvalue to a new variable.
    pub fn assign(&mut self, ty: Ty, rv: Rvalue) -> (v: VarId)
        requires
            old(self).ok(),
            ir::operands_in_range(ir::rvalue_operands(rv), old(self).vars@.len()),
        ensures
            final(self).extends(*old(self)),
            v == old(self).frame().next(),
            v.0 < final(self).vars@.len(),
            final(self).frame() == old(self).frame().emitted(ty, rv@),
            final(self).stack == old(self).stack,
    {
        let v = self.fresh(VarKind::Temp, ty);
        proof {
            let ops = ir::rvalue_operands(rv);
            assert forall|i: int| 0 <= i < ops.len() implies (#[trigger] ops[i]).in_range(
                self.vars@.len(),
            ) by {
                assert(ops[i].in_range(old(self).vars@.len()));
            }
        }
        self.emit(Stmt::Assign(v, rv));
        v
    }

    /// Push an operand.
    pub fn push(&mut self, o: Operand)
        requires
            old(self).ok(),
            o.in_range(old(self).vars@.len()),
        ensures
            final(self).extends(*old(self)),
            final(self).vars == old(self).vars,
            final(self).stack@ == old(self).stack@.push(o),
            final(self).frame() == old(self).frame().pushed(o@),
    {
        self.stack.push(o);
        proof {
            assert(ir::operand_views(self.stack@) =~= ir::operand_views(old(self).stack@).push(o@));
            assert forall|i: int| 0 <= i < self.stack@.len() implies (#[trigger] self.stack@[i]).in_range(
                self.vars@.len(),
            ) by {
                if i < old(self).stack@.len() {
                    assert(old(self).stack@[i] == self.stack@[i]);
                }
            }
        }
    }

    /// Assign an rvalue to a new variable and push it.
    pub fn compute(&mut self, ty: Ty, rv: Rvalue)
        requires
            old(self).ok(),
            ir::operands_in_range(ir::rvalue_operands(rv), old(self).vars@.len()),
        ensures
            final(self).extends(*old(self)),
            final(self).frame() == old(self).frame().computed(ty, rv@),
    {
        let v = self.assign(ty, rv);
        self.push(Operand::Var(v));
    }

    /// Take an operand off the stack.
    pub fn take(&mut self) -> (o: Operand)
        requires
            old(self).ok(),
            old(self).stack@.len() > 0,
        ensures
            final(self).extends(*old(self)),
            final(self).vars == old(self).vars,
            final(self).obligations == old(self).obligations,
            o.in_range(final(self).vars@.len()),
            o == old(self).stack@.last(),
            o@ == old(self).frame().top(0),
            final(self).stack@ == old(self).stack@.drop_last(),
            final(self).frame() == old(self).frame().dropped(1),
    {
        proof {
            let k = self.stack@.len() - 1;
            assert(self.stack@[k].in_range(self.vars@.len()));
            assert(ir::operand_views(self.stack@)[k] == self.stack@[k]@);
        }
        let o = match self.stack.pop() {
            Some(o) => o,
            None => Operand::Const(Const::Null),
        };
        proof {
            assert(ir::operand_views(self.stack@) =~= ir::operand_views(old(self).stack@).take(
                old(self).stack@.len() - 1,
            ));
            assert forall|i: int| 0 <= i < self.stack@.len() implies (#[trigger] self.stack@[i]).in_range(
                self.vars@.len(),
            ) by {
                assert(old(self).stack@[i] == self.stack@[i]);
            }
        }
        o
    }

    /// Take two operands off the stack; the upper one comes second.
    pub fn take2(&mut self) -> (r: (Operand, Operand))
        requires
            old(self).ok(),
            old(self).stack@.len() >= 2,
        ensures
            final(self).extends(*old(self)),
            final(self).vars == old(self).vars,
            r.0.in_range(final(self).vars@.len()),
            r.1.in_range(final(self).vars@.len()),
            r.0@ == old(self).frame().top(1),
            r.1@ == old(self).frame().top(0),
            final(self).frame() == old(self).frame().dropped(2),
    {
        let b = self.take();
        let a = self.take();
        proof {
            let s = old(self).frame().stack;
            assert(s.take(s.len() - 1).take(s.len() - 2) =~= s.take(s.len() - 2));
        }
        (a, b)
    }

    /// Take three operands off the stack; the uppermost comes last.
    pub fn take3(&mut self) -> (r: (Operand, Operand, Operand))
        requires
            old(self).ok(),
            old(self).stack@.len() >= 3,
        ensures
            final(self).extends(*old(self)),
            final(self).vars == old(self).vars,
            r.0.in_range(final(self).vars@.len()),
            r.1.in_range(final(self).vars@.len()),
            r.2.in_range(final(self).vars@.len()),
            r.0@ == old(self).frame().top(2),
            r.1@ == old(self).frame().top(1),
            r.2@ == old(self).frame().top(0),
            final(self).frame() == old(self).frame().dropped(3),
    {
        let c = self.take();
        let (a, b) = self.take2();
        proof {
            let s = old(self).frame().stack;
            assert(s.take(s.len() - 1).take(s.len() - 3) =~= s.take(s.len() - 3));
        }
        (a, b, c)
    }

    /// Take `n` operands off the stack; the uppermost comes last.
    pub fn take_many(&mut self, n: usize) -> (r: Vec<Operand>)
        requires
            old(self).ok(),
            old(self).stack@.len() >= n,
        ensures
            final(self).extends(*old(self)),
            final(self).vars == old(self).vars,
            ir::operands_in_range(r@, final(self).vars@.len()),
            ir::operand_views(r@) == old(self).frame().stack.skip(
                old(self).frame().stack.len() - n,
            ),
            final(self).frame() == old(self).frame().dropped(n as int),
    {
        let start = self.stack.len() - n;
        let ghost all = self.stack@;
        let r = self.stack.split_off(start);
        proof {
            assert(ir::operand_views(self.stack@) =~= ir::operand_views(all).take(start as int));
            assert(ir::operand_views(r@) =~= ir::operand_views(all).skip(start as int));
            assert forall|i: int| 0 <= i < self.stack@.len() implies (#[trigger] self.stack@[i]).in_range(
                self.vars@.len(),
            ) by {
                assert(all[i] == self.stack@[i]);
            }
            assert forall|i: int| 0 <= i < r@.len() implies (#[trigger] r@[i]).in_range(
                self.vars@.len(),
            ) by {
                assert(all[start + i] == r@[i]);
            }
        }
        r
    }

    /// The block that begins at the offset.
    pub fn block_of(&self, off: i64) -> (r: Option<BlockId>)
        ensures
            r == block_at(self.site@.leaders, off as int),
            r matches Some(b) ==> b.0 < self.site.leaders@.len(),
    {
        find_block(self.site.leaders, off)
    }

    fn line_at(&self, off: u16) -> (r: Option<u16>)
        ensures
            r == line_of(self.site.code.lines@, off, self.site.code.lines@.len()),
    {
        let lines = &self.site.code.lines;
        let mut i: usize = lines.len();
        while i > 0
            invariant
                *lines == self.site.code.lines,
                i <= lines@.len(),
                line_of(lines@, off, lines@.len()) == line_of(lines@, off, i as nat),
            decreases i,
        {
            if lines[i - 1].0 <= off {
                return Some(lines[i - 1].1);
            }
            i -= 1;
        }
        None
    }

    fn is_guarded(&self, off: u16) -> (r: bool)
        ensures
            r == guarded_at(self.site.code.handlers@, off),
    {
        let hs = &self.site.code.handlers;
        let mut i: usize = 0;
        while i < hs.len()
            invariant
                *hs == self.site.code.handlers,
                i <= hs@.len(),
                forall|j: int|
                    0 <= j < i ==> !((#[trigger] hs@[j]).start <= off && off < hs@[j].end),
            decreases hs@.len() - i,
        {
            if hs[i].start <= off && off < hs[i].end {
                return true;
            }
            i += 1;
        }
        false
    }

    /// A new obligation and its check.
    pub fn check(&mut self, kind: ObligationKind, cond: Operand, off: u16)
        requires
            old(self).ok(),
            cond.in_range(old(self).vars@.len()),
        ensures
            final(self).extends(*old(self)),
            final(self).vars == old(self).vars,
            final(self).frame() == old(self).frame().checked(*old(self).site.code, kind, cond@, off),
            final(self).stack == old(self).stack,
    {
        let id = ObligationId(self.obligations.len() as u32);
        let line = self.line_at(off);
        let guarded = self.is_guarded(off);
        let o = Obligation { id, kind, cond, bytecode_offset: off, line, guarded };
        let ghost ov = o@;
        proof {
            let x = self.obligations.len();
            assert(x as u32 <= x) by (bit_vector);
        }
        self.obligations.push(o);
        proof {
            assert(obligation_views(self.obligations@) =~= obligation_views(
                old(self).obligations@,
            ).push(ov));
            assert forall|i: int| 0 <= i < self.stmts@.len() implies ir::stmt_in_range(
                #[trigger] self.stmts@[i],
                self.vars@.len(),
                self.obligations@.len(),
            ) by {
                assert(ir::stmt_in_range(
                    old(self).stmts@[i],
                    old(self).vars@.len(),
                    old(self).obligations@.len(),
                ));
            }
            assert forall|i: int| 0 <= i < self.obligations@.len() implies (#[trigger] self.obligations@[i]).cond.in_range(
                self.vars@.len(),
            ) && self.obligations@[i].id == ObligationId(i as u32) by {
                if i < old(self).obligations@.len() {
                    assert(old(self).obligations@[i] == self.obligations@[i]);
                }
            }
        }
        self.emit(Stmt::Check(id));
    }

    /// Check that the object is not null.
    pub fn nullcheck(&mut self, obj: &Operand, off: u16)
        requires
            old(self).ok(),
            obj.in_range(old(self).vars@.len()),
        ensures
            final(self).extends(*old(self)),
            final(self).frame() == old(self).frame().null_checked(
                *old(self).site.code,
                obj@,
                off,
            ),
            final(self).stack == old(self).stack,
    {
        let g = self.assign(
            Ty::Int,
            Rvalue::Bin(BinOp::Ne, obj.clone(), Operand::Const(Const::Null)),
        );
        self.check(ObligationKind::NullDeref, Operand::Var(g), off);
    }

    /// Check that the index is in the bounds of the array.
    pub fn boundscheck(&mut self, arr: &Operand, idx: &Operand, off: u16)
        requires
            old(self).ok(),
            arr.in_range(old(self).vars@.len()),
            idx.in_range(old(self).vars@.len()),
        ensures
            final(self).extends(*old(self)),
            final(self).frame() == old(self).frame().bounds_checked(
                *old(self).site.code,
                arr@,
                idx@,
                off,
            ),
            final(self).stack == old(self).stack,
    {
        let len = self.assign(Ty::Int, Rvalue::ArrayLength(arr.clone()));
        let lo = self.assign(
            Ty::Int,
            Rvalue::Bin(BinOp::Ge, idx.clone(), Operand::int_const(0)),
        );
        let hi = self.assign(Ty::Int, Rvalue::Bin(BinOp::Lt, idx.clone(), Operand::Var(len)));
        let inb = self.assign(
            Ty::Int,
            Rvalue::Bin(BinOp::And, Operand::Var(lo), Operand::Var(hi)),
        );
        self.check(ObligationKind::ArrayBounds, Operand::Var(inb), off);
    }

    /// Put the stack into the variables of its positions.
    pub fn spill(&mut self)
        requires
            old(self).ok(),
        ensures
            final(self).extends(*old(self)),
            final(self).frame() == spilled(old(self).frame()),
            final(self).stack == old(self).stack,
    {
        let ghost f = self.frame();
        let n = self.stack.len();
        let mut temps: Vec<(u16, VarId)> = Vec::new();
        let mut d: usize = 0;
        while d < n
            invariant
                d <= n == self.stack@.len(),
                f == old(self).frame(),
                self.extends(*old(self)),
                self.stack == old(self).stack,
                (self.frame(), temps@) == saved(f, d as nat),
                forall|i: int| 0 <= i < temps@.len() ==> (#[trigger] temps@[i]).1.0 < self.vars@.len(),
            decreases n - d,
        {
            let ghost mid = *self;
            let canonical = self.stack_slot(d as u16);
            let op = self.stack[d].clone();
            proof {
                assert(self.stack@[d as int].in_range(self.vars@.len()));
                assert(f.stack[d as int] == op@);
            }
            let placed = match &op {
                Operand::Var(v) => *v == canonical,
                _ => false,
            };
            if !placed {
                let t = self.fresh(VarKind::Temp, Ty::Int);
                self.copy_class(t, &op);
                self.emit(Stmt::Assign(t, Rvalue::Use(op)));
                temps.push((d as u16, t));
            }
            d += 1;
        }
        let ghost g = self.frame();
        let mut i: usize = 0;
        while i < temps.len()
            invariant
                i <= temps@.len(),
                self.extends(*old(self)),
                self.stack == old(self).stack,
                self.frame() == restored(g, temps@, i as nat),
                forall|i: int| 0 <= i < temps@.len() ==> (#[trigger] temps@[i]).1.0 < self.vars@.len(),
            decreases temps@.len() - i,
        {
            let d = temps[i].0;
            let t = temps[i].1;
            let canonical = self.stack_slot(d);
            let src = Operand::Var(t);
            self.copy_class(canonical, &src);
            self.emit(Stmt::Assign(canonical, Rvalue::Use(src)));
            i += 1;
        }
    }
}

} // verus!
