//! Lifting of methods and classes.

use vstd::prelude::*;
use vstd::string::*;

use super::decode;
use super::decode::{can_throw, decode, ends_block, Insn, InsnV};
use super::frame;
use super::frame::{Frame, Lifter, Site, SiteV};
use super::step;
use super::step::{Done, Lifted, Step};
use crate::assoc::{Assoc, TextMap};
use crate::classfile;
use crate::classfile::{ClassFile, Code, Handler};
use crate::ir;
use crate::ir::{
    Block, BlockId, BlockV, Body, BodyV, ExcEdge, ExcEdgeV, MethodKey, MethodKeyV, ObligationId,
    Operand, OperandV, Stmt, Terminator, TerminatorV,
};
use crate::models::Models;
use crate::program;
use crate::program::Program;
use crate::text;
use crate::text::dec_u64;

verus! {

/// Does the handler begin, end or lead to the offset?
pub open spec fn handler_bound(h: Handler, off: nat) -> bool {
    h.target == off || h.start == off || h.end == off
}

/// Does the instruction lead to the offset, or end a block before it? A block
/// ends after an instruction that can throw, so that exceptional edges belong to
/// a block that ends there.
pub open spec fn insn_bound(n: InsnV, len: nat, off: nat) -> bool {
    ||| n.targets.contains(off as int)
    ||| (decode::block_end(n.op) || decode::throws(n.op)) && n.off + n.len == off && off < len
}

/// Does a block begin at the offset?
pub open spec fn is_leader(code: Code, insns: Seq<InsnV>, off: nat) -> bool {
    ||| off == 0
    ||| exists|i: int| 0 <= i < code.handlers@.len() && handler_bound(#[trigger] code.handlers@[i], off)
    ||| exists|i: int|
        0 <= i < insns.len() && insn_bound(#[trigger] insns[i], code.bytes@.len(), off)
}

/// Where blocks begin, among the first `k` instructions.
pub open spec fn leaders(code: Code, insns: Seq<InsnV>, k: nat) -> Seq<nat>
    decreases k,
{
    if k == 0 {
        Seq::empty()
    } else {
        let had = leaders(code, insns, (k - 1) as nat);
        if is_leader(code, insns, insns[k - 1].off) {
            had.push(insns[k - 1].off)
        } else {
            had
        }
    }
}

/// The instruction at the offset, from instruction `i` on.
pub open spec fn insn_index(insns: Seq<InsnV>, off: int, i: nat) -> nat
    decreases insns.len() - i,
{
    if i >= insns.len() || insns[i as int].off == off {
        i
    } else {
        insn_index(insns, off, i + 1)
    }
}

/// The instructions from `i` on up to the offset, lifted one after the other.
pub open spec fn lifted_from(site: SiteV, insns: Seq<InsnV>, i: nat, end: int, f: Frame) -> Lifted
    decreases insns.len() - i,
{
    if i >= insns.len() || insns[i as int].off >= end {
        step::next(f)
    } else {
        let l = step::lifted(site, insns[i as int], f);
        if l.step is Next {
            lifted_from(site, insns, i + 1, end, l.frame)
        } else {
            l
        }
    }
}

/// At the start of a block the stack is in the variables of its positions.
pub open spec fn entered(f: Frame, h: nat) -> Frame
    decreases h,
{
    if h == 0 {
        Frame { stack: Seq::empty(), stmts: Seq::empty(), ..f }
    } else {
        let (g, v) = entered(f, (h - 1) as nat).slot((h - 1) as u16);
        g.pushed(OperandV::Var(v))
    }
}

/// Does the handler cover an instruction of the block?
pub open spec fn covers(h: Handler, start: int, end: int) -> bool {
    h.start < end && start < h.end
}

/// The class that a handler catches; none if it catches everything.
pub open spec fn caught(cf: ClassFile, h: Handler) -> Option<Seq<char>> {
    if h.catch_type == 0 {
        None
    } else {
        match cf.class_at(h.catch_type) {
            Ok(c) => Some(c),
            Err(_) => None,
        }
    }
}

/// The exceptional edges of a block for the first `k` handlers.
pub open spec fn edges(site: SiteV, start: int, end: int, k: nat) -> Seq<ExcEdgeV>
    decreases k,
{
    if k == 0 {
        Seq::empty()
    } else {
        let had = edges(site, start, end, (k - 1) as nat);
        let h = site.code.handlers@[k - 1];
        match frame::block_at(site.leaders, h.target as int) {
            Some(target) if covers(h, start, end) => had.push(
                ExcEdgeV { class: caught(site.cf, h), target },
            ),
            _ => had,
        }
    }
}

/// The handlers are entered with the exception on the stack.
pub open spec fn edge_succs(es: Seq<ExcEdgeV>) -> Seq<(usize, u16)> {
    es.map_values(|e: ExcEdgeV| (e.target.0 as usize, 1u16))
}

/// The views of exceptional edges.
pub open spec fn edge_views(v: Seq<ExcEdge>) -> Seq<ExcEdgeV> {
    v.map_values(|e: ExcEdge| e@)
}

/// A block that was lifted, the state after it, and the blocks that follow.
#[verifier::ext_equal]
pub struct LiftedBlock {
    pub frame: Frame,
    pub block: BlockV,
    pub succs: Seq<(usize, u16)>,
}

/// How the block ends, and the blocks that follow.
pub open spec fn ending(site: SiteV, l: Lifted, end: int) -> (TerminatorV, Seq<(usize, u16)>) {
    match l.step {
        Step::End(t, s) => (t, s),
        Step::Stop(e) => (TerminatorV::Diverge(e), Seq::empty()),
        Step::Next => match frame::block_at(site.leaders, end) {
            Some(b) => (
                TerminatorV::Goto(b),
                seq![(b.0 as usize, l.frame.stack.len() as u16)],
            ),
            None => (TerminatorV::Diverge("fell off end of code"@), Seq::empty()),
        },
    }
}

/// Does control go on inside the body?
pub open spec fn goes_on(t: TerminatorV) -> bool {
    t is Goto || t is Branch || t is Switch
}

/// Where the block ends.
pub open spec fn block_end(site: SiteV, bi: int) -> int {
    if bi + 1 < site.leaders.len() {
        site.leaders[bi + 1] as int
    } else {
        site.code.bytes@.len() as int
    }
}

/// The instructions of a block that is entered with the given height of the stack.
pub open spec fn block_lifted(site: SiteV, insns: Seq<InsnV>, f: Frame, bi: int, h: u16) -> Lifted {
    let start = site.leaders[bi] as int;
    lifted_from(site, insns, insn_index(insns, start, 0), block_end(site, bi), entered(f, h as nat))
}

/// The block that is entered with the given height of the stack. Where control goes on
/// inside the body, the stack is spilled at its end.
pub open spec fn lifted_block(site: SiteV, insns: Seq<InsnV>, f: Frame, bi: int, h: u16) -> LiftedBlock {
    let start = site.leaders[bi] as int;
    let end = block_end(site, bi);
    let l = block_lifted(site, insns, f, bi, h);
    let (term, succs) = ending(site, l, end);
    let g = if goes_on(term) {
        frame::spilled(l.frame)
    } else {
        l.frame
    };
    let exceptional = edges(site, start, end, site.code.handlers@.len());
    LiftedBlock {
        frame: Frame { stack: Seq::empty(), stmts: Seq::empty(), ..g },
        block: BlockV {
            id: BlockId(bi as u32),
            bytecode_offset: start as u16,
            stmts: g.stmts,
            term,
            exceptional,
        },
        succs: succs + edge_succs(exceptional),
    }
}

/// The state of the lifting of a method.
#[verifier::ext_equal]
pub struct WorkV {
    pub frame: Frame,
    pub blocks: Seq<Option<BlockV>>,
    /// The height of the stack at the blocks that were entered.
    pub seen: Seq<Option<u16>>,
    /// Blocks to enter, and the height of the stack there.
    pub work: Seq<(usize, u16)>,
}

/// The number of blocks that were not entered.
pub open spec fn unseen(seen: Seq<Option<u16>>) -> nat
    decreases seen.len(),
{
    if seen.len() == 0 {
        0
    } else {
        unseen(seen.drop_last()) + (if seen.last() is None {
            1nat
        } else {
            0
        })
    }
}

pub proof fn lemma_unseen_update(seen: Seq<Option<u16>>, i: int, h: u16)
    requires
        0 <= i < seen.len(),
        seen[i] is None,
    ensures
        unseen(seen.update(i, Some(h))) < unseen(seen),
    decreases seen.len(),
{
    let after = seen.update(i, Some(h));
    if i == seen.len() - 1 {
        assert(after.drop_last() =~= seen.drop_last());
    } else {
        assert(after.drop_last() =~= seen.drop_last().update(i, Some(h)));
        lemma_unseen_update(seen.drop_last(), i, h);
    }
}

/// What is said of a block that is entered with different heights of the stack.
pub open spec fn inconsistent(bi: usize, was: u16, h: u16) -> Seq<char> {
    "inconsistent stack height at bb"@ + text::dec(bi as nat) + ": "@ + text::dec(was as nat)
        + " vs "@ + text::dec(h as nat)
}

/// A block about which nothing is known.
pub open spec fn diverging(id: BlockId, off: u16, reason: Seq<char>) -> BlockV {
    BlockV {
        id,
        bytecode_offset: off,
        stmts: Seq::empty(),
        term: TerminatorV::Diverge(reason),
        exceptional: Seq::empty(),
    }
}

/// The block is lifted.
pub open spec fn visited(site: SiteV, insns: Seq<InsnV>, w: WorkV, bi: usize, h: u16) -> WorkV {
    let l = lifted_block(site, insns, w.frame, bi as int, h);
    WorkV {
        frame: l.frame,
        blocks: w.blocks.update(bi as int, Some(l.block)),
        seen: w.seen.update(bi as int, Some(h)),
        work: w.work + l.succs,
    }
}

/// The block was lifted before.
pub open spec fn revisited(site: SiteV, w: WorkV, bi: usize, was: u16, h: u16) -> WorkV {
    if was == h {
        w
    } else {
        WorkV {
            blocks: w.blocks.update(
                bi as int,
                Some(
                    diverging(
                        BlockId(bi as u32),
                        site.leaders[bi as int] as u16,
                        inconsistent(bi, was, h),
                    ),
                ),
            ),
            ..w
        }
    }
}

/// Blocks are lifted as they are reached, the one that was found last first.
pub open spec fn lifted_blocks(site: SiteV, insns: Seq<InsnV>, w: WorkV) -> WorkV
    decreases unseen(w.seen), w.work.len(),
{
    if w.work.len() == 0 {
        w
    } else {
        let (bi, h) = w.work.last();
        let rest = WorkV { work: w.work.drop_last(), ..w };
        if bi >= w.seen.len() {
            lifted_blocks(site, insns, rest)
        } else {
            match w.seen[bi as int] {
                Some(was) => lifted_blocks(site, insns, revisited(site, rest, bi, was, h)),
                None => {
                    proof {
                        lemma_unseen_update(w.seen, bi as int, h);
                    }
                    lifted_blocks(site, insns, visited(site, insns, rest, bi, h))
                },
            }
        }
    }
}

/// The blocks to enter from outside: the first one, and the handlers.
pub open spec fn entries(site: SiteV, k: nat) -> Seq<(usize, u16)>
    decreases k,
{
    if k == 0 {
        seq![(0usize, 0u16)]
    } else {
        let had = entries(site, (k - 1) as nat);
        match frame::block_at(site.leaders, site.code.handlers@[k - 1].target as int) {
            Some(b) => had.push((b.0 as usize, 1u16)),
            None => had,
        }
    }
}

/// Nothing yet.
pub open spec fn blank() -> Frame {
    Frame {
        vars: Seq::empty(),
        locals: Map::empty(),
        slots: Map::empty(),
        obligations: Seq::empty(),
        classes: Map::empty(),
        stack: Seq::empty(),
        stmts: Seq::empty(),
    }
}

/// The state before the first block.
pub open spec fn started(site: SiteV) -> WorkV {
    let n = site.leaders.len();
    WorkV {
        frame: blank(),
        blocks: Seq::new(n, |i: int| None),
        seen: Seq::new(n, |i: int| None),
        work: entries(site, site.code.handlers@.len()),
    }
}

/// The block, or one that is never reached: dead code, which halts.
pub open spec fn or_dead(site: SiteV, b: Option<BlockV>, i: int) -> BlockV {
    match b {
        Some(b) => b,
        None => BlockV {
            id: BlockId(i as u32),
            bytecode_offset: site.leaders[i] as u16,
            stmts: Seq::empty(),
            term: TerminatorV::Halt,
            exceptional: Seq::empty(),
        },
    }
}

/// The body of a method with the code.
pub open spec fn lifted_body(site: SiteV, insns: Seq<InsnV>, key: MethodKeyV) -> BodyV {
    let w = lifted_blocks(site, insns, started(site));
    BodyV {
        key,
        entry: BlockId(0),
        blocks: Seq::new(w.blocks.len(), |i: int| or_dead(site, w.blocks[i], i)),
        vars: w.frame.vars,
        obligations: w.frame.obligations,
    }
}

/// What is not modelled diverges: where lifting stops inside a block, the block
/// says why and control does not go on.
pub proof fn law_unmodelled_diverges(site: SiteV, insns: Seq<InsnV>, f: Frame, bi: int, h: u16)
    ensures
        ({
            let start = site.leaders[bi] as int;
            let end = block_end(site, bi);
            lifted_from(
                site,
                insns,
                insn_index(insns, start, 0),
                end,
                entered(f, h as nat),
            ).step matches Step::Stop(e) ==> lifted_block(site, insns, f, bi, h).block.term
                == TerminatorV::Diverge(e)
        }),
{
}

/// A block has an exceptional edge to every handler that covers any of its
/// instructions.
pub proof fn law_block_inherits_handlers(site: SiteV, start: int, end: int, k: nat, i: int)
    requires
        0 <= i < k <= site.code.handlers@.len(),
        covers(site.code.handlers@[i], start, end),
        frame::block_at(site.leaders, site.code.handlers@[i].target as int) is Some,
    ensures
        edges(site, start, end, k).contains(
            ExcEdgeV {
                class: caught(site.cf, site.code.handlers@[i]),
                target: frame::block_at(
                    site.leaders,
                    site.code.handlers@[i].target as int,
                )->0,
            },
        ),
    decreases k,
{
    let all = edges(site, start, end, k);
    let e = ExcEdgeV {
        class: caught(site.cf, site.code.handlers@[i]),
        target: frame::block_at(site.leaders, site.code.handlers@[i].target as int)->0,
    };
    if i == k - 1 {
        assert(all.last() == e);
    } else {
        let had = edges(site, start, end, (k - 1) as nat);
        law_block_inherits_handlers(site, start, end, (k - 1) as nat, i);
        let j = choose|j: int| 0 <= j < had.len() && had[j] == e;
        assert(all[j] == e);
    }
}

/// The instructions can be lifted at the site.
pub open spec fn all_liftable(site: SiteV, insns: Seq<InsnV>) -> bool {
    forall|i: int|
        0 <= i < insns.len() ==> step::liftable(site, #[trigger] insns[i]) && insns[i].off
            + insns[i].len <= 0x7fff_ffff
}

proof fn lemma_stmts_wider(s: Seq<Stmt>, n: nat, m: nat, n2: nat, m2: nat)
    requires
        forall|i: int| 0 <= i < s.len() ==> ir::stmt_in_range(#[trigger] s[i], n, m),
        n <= n2,
        m <= m2,
    ensures
        forall|i: int| 0 <= i < s.len() ==> ir::stmt_in_range(#[trigger] s[i], n2, m2),
{
    assert forall|i: int| 0 <= i < s.len() implies ir::stmt_in_range(#[trigger] s[i], n2, m2) by {
        assert(ir::stmt_in_range(s[i], n, m));
    }
}

proof fn lemma_block_wider(b: Block, k: nat, n: nat, m: nat, n2: nat, m2: nat)
    requires
        b.in_range(k, n, m),
        n <= n2,
        m <= m2,
    ensures
        b.in_range(k, n2, m2),
{
    lemma_stmts_wider(b.stmts@, n, m, n2, m2);
}

impl<'a> Lifter<'a> {
    /// Start a block: the stack is in the variables of its positions.
    fn enter(&mut self, h: u16)
        requires
            old(self).ok(),
        ensures
            final(self).extends(*old(self)),
            final(self).frame() == entered(old(self).frame(), h as nat),
    {
        self.stack = Vec::new();
        self.stmts = Vec::new();
        proof {
            assert(ir::operand_views(self.stack@) =~= Seq::empty());
            assert(ir::stmt_views(self.stmts@) =~= Seq::empty());
        }
        let mut d: u16 = 0;
        while d < h
            invariant
                d <= h,
                self.extends(*old(self)),
                self.frame() == entered(old(self).frame(), d as nat),
            decreases h - d,
        {
            let v = self.stack_slot(d);
            self.push(Operand::Var(v));
            d += 1;
        }
    }

    /// Lift the instructions from `i` on up to the offset.
    fn lift_from(&mut self, insns: &Vec<Insn>, i: usize, end: usize) -> (d: Done)
        requires
            old(self).ok(),
            all_liftable(old(self).site@, decode::insn_views(insns@)),
            i <= insns@.len(),
        ensures
            final(self).extends(*old(self)),
            d.fits(final(self).site.leaders@.len(), final(self).vars@.len()),
            (Lifted { frame: final(self).frame(), step: d@ }) == lifted_from(
                old(self).site@,
                decode::insn_views(insns@),
                i as nat,
                end as int,
                old(self).frame(),
            ),
    {
        let ghost all = decode::insn_views(insns@);
        let mut k: usize = i;
        while k < insns.len() && insns[k].off < end
            invariant
                i <= k <= insns@.len(),
                all == decode::insn_views(insns@),
                self.extends(*old(self)),
                all_liftable(old(self).site@, all),
                lifted_from(old(self).site@, all, i as nat, end as int, old(self).frame())
                    == lifted_from(old(self).site@, all, k as nat, end as int, self.frame()),
            decreases insns@.len() - k,
        {
            proof {
                assert(all[k as int] == insns@[k as int]@);
                assert(step::liftable(self.site@, all[k as int]));
            }
            let d = self.lift_insn(&insns[k]);
            match d {
                Done::Next => {},
                _ => {
                    return d;
                },
            }
            k += 1;
        }
        proof {
            if k < insns@.len() {
                assert(all[k as int] == insns@[k as int]@);
            }
        }
        Done::Next
    }

    /// The exceptional edges of a block.
    fn handler_edges(&self, start: usize, end: usize) -> (r: Vec<ExcEdge>)
        ensures
            edge_views(r@) == edges(
                self.site@,
                start as int,
                end as int,
                self.site.code.handlers@.len(),
            ),
            forall|i: int|
                0 <= i < r@.len() ==> (#[trigger] r@[i]).target.0 < self.site.leaders@.len(),
    {
        let mut r: Vec<ExcEdge> = Vec::new();
        let mut k: usize = 0;
        proof {
            assert(edge_views(r@) =~= Seq::empty());
        }
        while k < self.site.code.handlers.len()
            invariant
                k <= self.site.code.handlers@.len(),
                edge_views(r@) == edges(self.site@, start as int, end as int, k as nat),
                forall|i: int|
                    0 <= i < r@.len() ==> (#[trigger] r@[i]).target.0 < self.site.leaders@.len(),
            decreases self.site.code.handlers@.len() - k,
        {
            let h = self.site.code.handlers[k];
            if (h.start as usize) < end && start < (h.end as usize) {
                if let Some(target) = self.block_of(h.target as i64) {
                    let class = if h.catch_type == 0 {
                        None
                    } else {
                        match self.site.cf.class_name(h.catch_type) {
                            Ok(c) => Some(c),
                            Err(_) => None,
                        }
                    };
                    let e = ExcEdge { class, target };
                    let ghost had = edge_views(r@);
                    let ghost ev = e@;
                    r.push(e);
                    proof {
                        assert(edge_views(r@) =~= had.push(ev));
                    }
                }
            }
            k += 1;
        }
        r
    }

    /// Lift a block that is entered with the given height of the stack.
    fn lift_block(&mut self, insns: &Vec<Insn>, bi: usize, h: u16) -> (r: (Block, Vec<(usize, u16)>))
        requires
            old(self).ok(),
            bi < old(self).site.leaders@.len(),
            all_liftable(old(self).site@, decode::insn_views(insns@)),
            old(self).site.code.bytes@.len() <= 0x7fff_ffff,
            forall|i: int|
                0 <= i < old(self).site.leaders@.len() ==> #[trigger] old(self).site.leaders@[i]
                    <= 0x7fff_ffff,
        ensures
            final(self).extends(*old(self)),
            r.0.in_range(
                final(self).site.leaders@.len(),
                final(self).vars@.len(),
                final(self).obligations@.len(),
            ),
            (LiftedBlock { frame: final(self).frame(), block: r.0@, succs: r.1@ }) == lifted_block(
                old(self).site@,
                decode::insn_views(insns@),
                old(self).frame(),
                bi as int,
                h,
            ),
    {
        let ghost all = decode::insn_views(insns@);
        let start = self.site.leaders[bi];
        let count = self.site.leaders.len();
        let end = if bi < count - 1 {
            self.site.leaders[bi + 1]
        } else {
            self.site.code.bytes.len()
        };
        let mut i: usize = 0;
        while i < insns.len() && insns[i].off != start
            invariant
                i <= insns@.len(),
                all == decode::insn_views(insns@),
                insn_index(all, start as int, 0) == insn_index(all, start as int, i as nat),
            decreases insns@.len() - i,
        {
            proof {
                assert(all[i as int] == insns@[i as int]@);
            }
            i += 1;
        }
        proof {
            if i < insns@.len() {
                assert(all[i as int] == insns@[i as int]@);
            }
        }
        self.enter(h);
        let d = self.lift_from(insns, i, end);
        let ghost l = Lifted { frame: self.frame(), step: d@ };
        let (term, succs) = self.finish(d, end);
        let goes_on = match &term {
            Terminator::Goto(_) => true,
            Terminator::Branch { .. } => true,
            Terminator::Switch { .. } => true,
            _ => false,
        };
        if goes_on {
            self.spill();
        }
        let exceptional = self.handler_edges(start, end);
        let mut succs = succs;
        let ghost had = succs@;
        let mut k: usize = 0;
        proof {
            assert(edge_views(exceptional@).take(0) =~= Seq::empty());
            assert(succs@ =~= had + edge_succs(edge_views(exceptional@).take(0)));
        }
        while k < exceptional.len()
            invariant
                k <= exceptional@.len(),
                succs@ == had + edge_succs(edge_views(exceptional@).take(k as int)),
            decreases exceptional@.len() - k,
        {
            succs.push((exceptional[k].target.0 as usize, 1));
            proof {
                assert(edge_views(exceptional@).take(k + 1) =~= edge_views(exceptional@).take(
                    k as int,
                ).push(exceptional@[k as int]@));
                assert(succs@ =~= had + edge_succs(edge_views(exceptional@).take(k + 1)));
            }
            k += 1;
        }
        proof {
            assert(edge_views(exceptional@).take(k as int) =~= edge_views(exceptional@));
        }
        let mut stmts: Vec<Stmt> = Vec::new();
        std::mem::swap(&mut stmts, &mut self.stmts);
        self.stack = Vec::new();
        proof {
            assert(ir::operand_views(self.stack@) =~= Seq::empty());
            assert(ir::stmt_views(self.stmts@) =~= Seq::empty());
        }
        let b = Block { id: BlockId(bi as u32), bytecode_offset: start as u16, stmts, term, exceptional };
        (b, succs)
    }

    /// How the block ends.
    fn finish(&self, d: Done, end: usize) -> (r: (Terminator, Vec<(usize, u16)>))
        requires
            d.fits(self.site.leaders@.len(), self.vars@.len()),
            end <= 0x7fff_ffff,
        ensures
            (r.0@, r.1@) == ending(
                self.site@,
                (Lifted { frame: self.frame(), step: d@ }),
                end as int,
            ),
            ir::term_in_range(r.0, self.vars@.len()),
            forall|i: int|
                0 <= i < ir::term_targets(r.0).len() ==> (#[trigger] ir::term_targets(r.0)[i]).0
                    < self.site.leaders@.len(),
    {
        match d {
            Done::End(t, s) => (t, s),
            Done::Stop(e) => (Terminator::Diverge(e), Vec::new()),
            Done::Next => match self.block_of(end as i64) {
                Some(b) => {
                    let mut succs: Vec<(usize, u16)> = Vec::new();
                    succs.push((b.0 as usize, self.stack.len() as u16));
                    proof {
                        assert(succs@ =~= seq![(b.0 as usize, self.stack@.len() as u16)]);
                    }
                    (Terminator::Goto(b), succs)
                },
                None => (Terminator::Diverge("fell off end of code".to_string()), Vec::new()),
            },
        }
    }
}

/// Does a block begin at the offset, as far as the first handlers and
/// instructions say?
spec fn bound_by(code: Code, insns: Seq<InsnV>, hk: int, ik: int, off: nat) -> bool {
    ||| off == 0
    ||| exists|i: int| 0 <= i < hk && handler_bound(#[trigger] code.handlers@[i], off)
    ||| exists|i: int| 0 <= i < ik && insn_bound(#[trigger] insns[i], code.bytes@.len(), off)
}

fn mark(marks: &mut Vec<bool>, off: usize)
    ensures
        final(marks)@.len() == old(marks)@.len(),
        forall|j: int|
            0 <= j < old(marks)@.len() ==> #[trigger] final(marks)@[j] == (old(marks)@[j] || j
                == off),
{
    if off < marks.len() {
        marks.set(off, true);
    }
}

fn mark_targets(marks: &mut Vec<bool>, targets: &Vec<i64>)
    ensures
        final(marks)@.len() == old(marks)@.len(),
        forall|j: int|
            0 <= j < old(marks)@.len() ==> #[trigger] final(marks)@[j] == (old(marks)@[j]
                || decode::longs(targets@).contains(j)),
{
    let mut k: usize = 0;
    let ghost all = decode::longs(targets@);
    while k < targets.len()
        invariant
            k <= targets@.len(),
            all == decode::longs(targets@),
            marks@.len() == old(marks)@.len(),
            forall|j: int|
                0 <= j < marks@.len() ==> #[trigger] marks@[j] == (old(marks)@[j] || all.take(
                    k as int,
                ).contains(j)),
        decreases targets@.len() - k,
    {
        let ghost had = marks@;
        let t = targets[k];
        if t >= 0 && (t as u64) < marks.len() as u64 {
            mark(marks, t as usize);
        }
        proof {
            assert(all.take(k + 1) =~= all.take(k as int).push(t as int));
            assert forall|j: int| 0 <= j < marks@.len() implies #[trigger] marks@[j] == (
            old(marks)@[j] || all.take(k + 1).contains(j)) by {
                assert(had[j] == (old(marks)@[j] || all.take(k as int).contains(j)));
                if all.take(k as int).contains(j) {
                    let x = choose|x: int| 0 <= x < k && all.take(k as int)[x] == j;
                    assert(all.take(k + 1)[x] == j);
                }
                if j == t {
                    assert(all.take(k + 1)[k as int] == j);
                }
                if all.take(k + 1).contains(j) && j != t {
                    let more = all.take(k + 1);
                    let x = choose|x: int| 0 <= x < more.len() && more[x] == j;
                    assert(all.take(k as int)[x] == j);
                }
            }
        }
        k += 1;
    }
    proof {
        assert(all.take(k as int) =~= all);
    }
}

/// Where blocks begin: at the entry, at branch targets, after instructions that
/// end a block or can throw, and at the bounds of handlers.
fn find_marks(code: &Code, insns: &Vec<Insn>) -> (marks: Vec<bool>)
    requires
        code.bytes@.len() <= 0x7fff_ffff,
        forall|i: int|
            0 <= i < insns@.len() ==> (#[trigger] insns@[i]).off + insns@[i].len <= 0x7fff_ffff,
    ensures
        marks@.len() == code.bytes@.len(),
        forall|j: int|
            0 <= j < marks@.len() ==> #[trigger] marks@[j] == is_leader(
                *code,
                decode::insn_views(insns@),
                j as nat,
            ),
{
    let ghost all = decode::insn_views(insns@);
    let len = code.bytes.len();
    let mut marks: Vec<bool> = Vec::new();
    while marks.len() < len
        invariant
            marks@.len() <= len,
            forall|j: int| 0 <= j < marks@.len() ==> #[trigger] marks@[j] == (j == 0),
        decreases len - marks@.len(),
    {
        let first = marks.len() == 0;
        marks.push(first);
    }
    let mut k: usize = 0;
    while k < code.handlers.len()
        invariant
            k <= code.handlers@.len(),
            marks@.len() == len,
            forall|j: int|
                0 <= j < marks@.len() ==> #[trigger] marks@[j] == bound_by(
                    *code,
                    all,
                    k as int,
                    0,
                    j as nat,
                ),
        decreases code.handlers@.len() - k,
    {
        let h = code.handlers[k];
        let ghost had = marks@;
        mark(&mut marks, h.target as usize);
        mark(&mut marks, h.start as usize);
        mark(&mut marks, h.end as usize);
        proof {
            assert forall|j: int| 0 <= j < marks@.len() implies #[trigger] marks@[j] == bound_by(
                *code,
                all,
                k + 1,
                0,
                j as nat,
            ) by {
                assert(had[j] == bound_by(*code, all, k as int, 0, j as nat));
                assert(code.handlers@[k as int] == h);
                assert(marks@[j] == (had[j] || handler_bound(h, j as nat)));
            }
        }
        k += 1;
    }
    let hn = code.handlers.len();
    let mut i: usize = 0;
    while i < insns.len()
        invariant
            i <= insns@.len(),
            all == decode::insn_views(insns@),
            marks@.len() == len,
            len == code.bytes@.len(),
            hn == code.handlers@.len(),
            forall|i: int|
                0 <= i < insns@.len() ==> (#[trigger] insns@[i]).off + insns@[i].len
                    <= 0x7fff_ffff,
            forall|j: int|
                0 <= j < marks@.len() ==> #[trigger] marks@[j] == bound_by(
                    *code,
                    all,
                    hn as int,
                    i as int,
                    j as nat,
                ),
        decreases insns@.len() - i,
    {
        let n = &insns[i];
        let ghost had = marks@;
        mark_targets(&mut marks, &n.targets);
        if ends_block(n.op) || can_throw(n.op) {
            mark(&mut marks, n.off + n.len);
        }
        proof {
            assert forall|j: int| 0 <= j < marks@.len() implies #[trigger] marks@[j] == bound_by(
                *code,
                all,
                hn as int,
                i + 1,
                j as nat,
            ) by {
                assert(had[j] == bound_by(*code, all, hn as int, i as int, j as nat));
                assert(all[i as int] == n@);
                assert(marks@[j] == (had[j] || insn_bound(n@, len as nat, j as nat)));
            }
        }
        i += 1;
    }
    marks
}

/// Where blocks begin.
fn find_leaders(code: &Code, insns: &Vec<Insn>) -> (r: Vec<usize>)
    requires
        code.bytes@.len() <= 0x7fff_ffff,
        forall|i: int|
            0 <= i < insns@.len() ==> (#[trigger] insns@[i]).off < code.bytes@.len()
                && insns@[i].off + insns@[i].len <= 0x7fff_ffff,
    ensures
        frame::nats(r@) == leaders(*code, decode::insn_views(insns@), insns@.len()),
        forall|i: int| 0 <= i < r@.len() ==> #[trigger] r@[i] <= 0x7fff_ffff,
{
    let ghost all = decode::insn_views(insns@);
    let marks = find_marks(code, insns);
    let mut r: Vec<usize> = Vec::new();
    let mut k: usize = 0;
    proof {
        assert(frame::nats(r@) =~= Seq::empty());
    }
    while k < insns.len()
        invariant
            k <= insns@.len(),
            all == decode::insn_views(insns@),
            marks@.len() == code.bytes@.len(),
            code.bytes@.len() <= 0x7fff_ffff,
            forall|i: int| 0 <= i < insns@.len() ==> (#[trigger] insns@[i]).off < code.bytes@.len(),
            forall|j: int|
                0 <= j < marks@.len() ==> #[trigger] marks@[j] == is_leader(*code, all, j as nat),
            frame::nats(r@) == leaders(*code, all, k as nat),
            forall|i: int| 0 <= i < r@.len() ==> #[trigger] r@[i] <= 0x7fff_ffff,
        decreases insns@.len() - k,
    {
        let off = insns[k].off;
        proof {
            assert(all[k as int] == insns@[k as int]@);
        }
        if marks[off] {
            let ghost had = frame::nats(r@);
            r.push(off);
            proof {
                assert(frame::nats(r@) =~= had.push(off as nat));
            }
        }
        k += 1;
    }
    r
}

/// What the code is lifted with.
pub open spec fn site_of(cf: ClassFile, models: Models, code: Code, insns: Seq<InsnV>) -> SiteV {
    SiteV { cf, models, code, leaders: leaders(code, insns, insns.len()) }
}

/// The body of a method, or why there is none.
pub open spec fn lifted_method(
    cf: ClassFile,
    models: Models,
    name: Seq<char>,
    desc: Seq<char>,
) -> Result<BodyV, Seq<char>> {
    match classfile::method_from(cf.methods@, name, desc, 0) {
        None => Err("no method "@ + name + desc),
        Some(i) => match cf.methods@[i].code {
            None => Err(name + desc + " has no Code attribute"@),
            Some(code) => match decode::insns_from(code.bytes@, 0) {
                Err(e) => Err(e),
                Ok(insns) => Ok(
                    lifted_body(
                        site_of(cf, models, code, insns),
                        insns,
                        MethodKeyV { class: cf.this_class@, name, desc },
                    ),
                ),
            },
        },
    }
}

/// The code is not too long, and each of its instructions has what its lifting
/// looks at.
pub open spec fn code_liftable(cf: ClassFile, models: Models, code: Code) -> bool {
    &&& code.bytes@.len() <= 0x7fff_ffff
    &&& decode::insns_from(code.bytes@, 0) matches Ok(insns) ==> forall|i: int|
        0 <= i < insns.len() ==> step::liftable(
            site_of(cf, models, code, insns),
            #[trigger] insns[i],
        )
}

/// The method, if it has code, can be lifted.
pub open spec fn method_liftable(
    cf: ClassFile,
    models: Models,
    name: Seq<char>,
    desc: Seq<char>,
) -> bool {
    classfile::method_from(cf.methods@, name, desc, 0) matches Some(i) ==> (
    cf.methods@[i].code matches Some(code) ==> code_liftable(cf, models, code))
}

/// Everything in the body can be numbered.
pub open spec fn numbered(b: Body) -> bool {
    &&& 0 < b.blocks@.len() < u32::MAX
    &&& b.vars@.len() <= u32::MAX
    &&& b.obligations@.len() <= u32::MAX
}

/// The views of blocks.
pub open spec fn block_views(v: Seq<Block>) -> Seq<BlockV> {
    v.map_values(|b: Block| b@)
}

/// The blocks, with dead ones where none was lifted.
pub open spec fn filled(site: SiteV, v: Seq<Option<BlockV>>) -> Seq<BlockV> {
    Seq::new(v.len(), |i: int| or_dead(site, v[i], i))
}

/// All blocks refer to what exists.
spec fn all_in_range(bs: Seq<Block>, k: nat, n: nat, m: nat) -> bool {
    forall|i: int|
        0 <= i < bs.len() ==> (#[trigger] bs[i]).in_range(k, n, m) && bs[i].id == BlockId(i as u32)
}

proof fn lemma_all_wider(bs: Seq<Block>, k: nat, n: nat, m: nat, n2: nat, m2: nat)
    requires
        all_in_range(bs, k, n, m),
        n <= n2,
        m <= m2,
    ensures
        all_in_range(bs, k, n2, m2),
{
    assert forall|i: int| 0 <= i < bs.len() implies (#[trigger] bs[i]).in_range(k, n2, m2)
        && bs[i].id == BlockId(i as u32) by {
        lemma_block_wider(bs[i], k, n, m, n2, m2);
    }
}

/// A block about which nothing is known.
pub fn diverging_block(id: BlockId, off: u16, reason: String) -> (b: Block)
    ensures
        b@ == diverging(id, off, reason@),
        b.id == id,
        forall|k: nat, n: nat, m: nat| b.in_range(k, n, m),
{
    let b = Block {
        id,
        bytecode_offset: off,
        stmts: Vec::new(),
        term: Terminator::Diverge(reason),
        exceptional: Vec::new(),
    };
    proof {
        assert(ir::stmt_views(b.stmts@) =~= Seq::empty());
        assert(b@.exceptional =~= Seq::empty());
    }
    b
}

fn dead_block(id: BlockId, off: u16) -> (b: Block)
    ensures
        b@ == (BlockV {
            id,
            bytecode_offset: off,
            stmts: Seq::empty(),
            term: TerminatorV::Halt,
            exceptional: Seq::empty(),
        }),
        b.id == id,
        forall|k: nat, n: nat, m: nat| b.in_range(k, n, m),
{
    let b = Block {
        id,
        bytecode_offset: off,
        stmts: Vec::new(),
        term: Terminator::Halt,
        exceptional: Vec::new(),
    };
    proof {
        assert(ir::stmt_views(b.stmts@) =~= Seq::empty());
        assert(b@.exceptional =~= Seq::empty());
    }
    b
}

fn make_inconsistent(bi: usize, was: u16, h: u16) -> (s: String)
    ensures
        s@ == inconsistent(bi, was, h),
{
    let mut s = "inconsistent stack height at bb".to_string();
    let d = dec_u64(bi as u64);
    s.append(d.as_str());
    s.append(": ");
    let d = dec_u64(was as u64);
    s.append(d.as_str());
    s.append(" vs ");
    let d = dec_u64(h as u64);
    s.append(d.as_str());
    s
}

impl<'a> Lifter<'a> {
    /// The blocks to enter from outside.
    fn first_work(&self) -> (r: Vec<(usize, u16)>)
        ensures
            r@ == entries(self.site@, self.site.code.handlers@.len()),
    {
        let mut r: Vec<(usize, u16)> = Vec::new();
        r.push((0, 0));
        proof {
            assert(r@ =~= seq![(0usize, 0u16)]);
        }
        let mut k: usize = 0;
        while k < self.site.code.handlers.len()
            invariant
                k <= self.site.code.handlers@.len(),
                r@ == entries(self.site@, k as nat),
            decreases self.site.code.handlers@.len() - k,
        {
            if let Some(b) = self.block_of(self.site.code.handlers[k].target as i64) {
                r.push((b.0 as usize, 1));
            }
            k += 1;
        }
        r
    }

    /// Lift the blocks that are reached.
    fn lift_blocks(&mut self, insns: &Vec<Insn>) -> (blocks: Vec<Block>)
        requires
            old(self).ok(),
            old(self).frame() == blank(),
            all_liftable(old(self).site@, decode::insn_views(insns@)),
            old(self).site.code.bytes@.len() <= 0x7fff_ffff,
            forall|i: int|
                0 <= i < old(self).site.leaders@.len() ==> #[trigger] old(self).site.leaders@[i]
                    <= 0x7fff_ffff,
        ensures
            final(self).extends(*old(self)),
            all_in_range(
                blocks@,
                blocks@.len(),
                final(self).vars@.len(),
                final(self).obligations@.len(),
            ),
            ({
                let w = lifted_blocks(
                    old(self).site@,
                    decode::insn_views(insns@),
                    started(old(self).site@),
                );
                block_views(blocks@) == filled(old(self).site@, w.blocks) && final(self).frame()
                    == w.frame
            }),
    {
        let ghost all = decode::insn_views(insns@);
        let ghost site = self.site@;
        let n = self.site.leaders.len();
        let mut blocks: Vec<Block> = Vec::new();
        let mut seen: Vec<Option<u16>> = Vec::new();
        let ghost mut w = started(site);
        while blocks.len() < n
            invariant
                blocks@.len() <= n,
                seen@.len() == blocks@.len(),
                n == self.site.leaders@.len(),
                site == self.site@,
                forall|i: int| 0 <= i < seen@.len() ==> #[trigger] seen@[i] is None,
                forall|i: int|
                    0 <= i < blocks@.len() ==> (#[trigger] blocks@[i])@ == or_dead(site, None, i),
                all_in_range(
                    blocks@,
                    n as nat,
                    self.vars@.len(),
                    self.obligations@.len(),
                ),
            decreases n - blocks@.len(),
        {
            let i = blocks.len();
            let b = dead_block(BlockId(i as u32), self.site.leaders[i] as u16);
            blocks.push(b);
            seen.push(None);
        }
        let mut work = self.first_work();
        proof {
            assert(seen@ =~= w.seen);
            assert(block_views(blocks@) =~= filled(site, w.blocks));
            assert(w == (WorkV { frame: self.frame(), blocks: w.blocks, seen: seen@, work: work@ }));
        }
        while work.len() > 0
            invariant
                all == decode::insn_views(insns@),
                site == self.site@,
                n == self.site.leaders@.len(),
                blocks@.len() == n,
                seen@.len() == n,
                w.blocks.len() == n,
                self.extends(*old(self)),
                all_liftable(site, all),
                self.site.code.bytes@.len() <= 0x7fff_ffff,
                forall|i: int|
                    0 <= i < self.site.leaders@.len() ==> #[trigger] self.site.leaders@[i]
                        <= 0x7fff_ffff,
                w == (WorkV {
                    frame: self.frame(),
                    blocks: w.blocks,
                    seen: seen@,
                    work: work@,
                }),
                block_views(blocks@) == filled(site, w.blocks),
                lifted_blocks(site, all, started(site)) == lifted_blocks(site, all, w),
                all_in_range(blocks@, n as nat, self.vars@.len(), self.obligations@.len()),
            decreases unseen(seen@), work@.len(),
        {
            let ghost before = w;
            let ghost rest = WorkV { work: w.work.drop_last(), ..w };
            let (bi, h) = match work.pop() {
                Some(x) => x,
                None => (0, 0),
            };
            if bi >= n {
                proof {
                    w = rest;
                }
                continue;
            }
            if let Some(was) = seen[bi] {
                proof {
                    w = revisited(site, rest, bi, was, h);
                }
                if was != h {
                    let b = diverging_block(
                        BlockId(bi as u32),
                        self.site.leaders[bi] as u16,
                        make_inconsistent(bi, was, h),
                    );
                    let ghost bv = b@;
                    let ghost had = blocks@;
                    blocks.set(bi, b);
                    proof {
                        assert(block_views(blocks@) =~= block_views(had).update(bi as int, bv));
                        assert(filled(site, w.blocks) =~= filled(site, before.blocks).update(
                            bi as int,
                            bv,
                        ));
                    }
                }
                continue;
            }
            proof {
                lemma_unseen_update(seen@, bi as int, h);
            }
            let ghost mid = *self;
            let (b, succs) = self.lift_block(insns, bi, h);
            let ghost bv = b@;
            let ghost had = blocks@;
            proof {
                lemma_all_wider(
                    blocks@,
                    n as nat,
                    mid.vars@.len(),
                    mid.obligations@.len(),
                    self.vars@.len(),
                    self.obligations@.len(),
                );
                w = visited(site, all, rest, bi, h);
            }
            seen.set(bi, Some(h));
            blocks.set(bi, b);
            let mut succs = succs;
            work.append(&mut succs);
            proof {
                assert(block_views(blocks@) =~= block_views(had).update(bi as int, bv));
                assert(filled(site, w.blocks) =~= filled(site, before.blocks).update(
                    bi as int,
                    bv,
                ));
            }
        }
        blocks
    }
}

/// Lift the code of a method.
fn lift_code(cf: &ClassFile, models: &Models, code: &Code, key: MethodKey) -> (r: Result<
    Body,
    String,
>)
    requires
        code_liftable(*cf, *models, *code),
    ensures
        match (r, decode::insns_from(code.bytes@, 0)) {
            (Ok(b), Ok(insns)) => {
                &&& b@ == lifted_body(site_of(*cf, *models, *code, insns), insns, key@)
                &&& b.key == key
                &&& numbered(b) ==> b.well_formed()
            },
            (Err(e), Err(f)) => e@ == f,
            _ => false,
        },
{
    let insns = match decode(&code.bytes) {
        Ok(v) => v,
        Err(e) => {
            return Err(e);
        },
    };
    let ghost all = decode::insn_views(insns@);
    proof {
        decode::law_instructions_cover_the_code(code.bytes@, 0);
        assert forall|i: int| 0 <= i < insns@.len() implies (#[trigger] insns@[i]).off
            < code.bytes@.len() && insns@[i].off + insns@[i].len <= 0x7fff_ffff by {
            assert(all[i] == insns@[i]@);
        }
    }
    let leaders = find_leaders(code, &insns);
    let site = Site { cf, models, code, leaders: &leaders };
    proof {
        assert(site@ == site_of(*cf, *models, *code, all));
    }
    let mut lf = Lifter {
        site,
        vars: Vec::new(),
        locals: Assoc::new(),
        slots: Assoc::new(),
        obligations: Vec::new(),
        classes: TextMap::new(),
        stack: Vec::new(),
        stmts: Vec::new(),
    };
    proof {
        assert(lf.locals.map() =~= Map::empty());
        assert(lf.slots.map() =~= Map::empty());
        assert(ir::operand_views(lf.stack@) =~= Seq::empty());
        assert(ir::stmt_views(lf.stmts@) =~= Seq::empty());
        assert(frame::obligation_views(lf.obligations@) =~= Seq::empty());
    }
    let blocks = lf.lift_blocks(&insns);
    let b = Body { key, entry: BlockId(0), blocks, vars: lf.vars, obligations: lf.obligations };
    proof {
        assert(b@ =~= lifted_body(site@, all, key@));
        if numbered(b) {
            assert forall|i: int| 0 <= i < b.obligations@.len() implies (
            #[trigger] b.obligations@[i]).id.0 == i && b.obligations@[i].cond.in_range(
                b.vars@.len(),
            ) by {
                assert(b.obligations@[i].id == ObligationId(i as u32));
            }
            assert(b.well_formed());
        }
    }
    Ok(b)
}

/// Lift a method. Variables and blocks of the body are numbered by position.
pub fn lift_method(cf: &ClassFile, models: &Models, name: &str, desc: &str) -> (r: Result<
    Body,
    String,
>)
    requires
        method_liftable(*cf, *models, name@, desc@),
    ensures
        match (r, lifted_method(*cf, *models, name@, desc@)) {
            (Ok(b), Ok(v)) => b@ == v && (numbered(b) ==> b.well_formed()),
            (Err(e), Err(f)) => e@ == f,
            _ => false,
        },
{
    let m = match cf.method(name, desc) {
        Some(m) => m,
        None => {
            let mut e = "no method ".to_string();
            e.append(name);
            e.append(desc);
            return Err(e);
        },
    };
    let code = match &m.code {
        Some(c) => c,
        None => {
            let mut e = name.to_string();
            e.append(desc);
            e.append(" has no Code attribute");
            return Err(e);
        },
    };
    let key = MethodKey {
        class: cf.this_class.clone(),
        name: name.to_string(),
        desc: desc.to_string(),
    };
    lift_code(cf, models, code, key)
}

/// The body that stands for a method: one that could not be lifted diverges, so
/// that it does not look like one that is not there.
pub open spec fn body_or_diverging(
    cf: ClassFile,
    models: Models,
    name: Seq<char>,
    desc: Seq<char>,
) -> BodyV {
    match lifted_method(cf, models, name, desc) {
        Ok(b) => b,
        Err(e) => BodyV {
            key: MethodKeyV { class: cf.this_class@, name, desc },
            entry: BlockId(0),
            blocks: seq![diverging(BlockId(0), 0, e)],
            vars: Seq::empty(),
            obligations: Seq::empty(),
        },
    }
}

/// The bodies after the first `k` methods of the class were added.
pub open spec fn bodies_with(had: Seq<BodyV>, cf: ClassFile, models: Models, k: nat) -> Seq<BodyV>
    decreases k,
{
    if k == 0 {
        had
    } else {
        let before = bodies_with(had, cf, models, (k - 1) as nat);
        let m = cf.methods@[k - 1];
        if m.code is None {
            before
        } else {
            program::placed(before, body_or_diverging(cf, models, m.name@, m.desc@))
        }
    }
}

fn lift_or_diverge(cf: &ClassFile, models: &Models, name: &str, desc: &str) -> (b: Body)
    requires
        method_liftable(*cf, *models, name@, desc@),
    ensures
        b@ == body_or_diverging(*cf, *models, name@, desc@),
        numbered(b) ==> b.well_formed(),
{
    match lift_method(cf, models, name, desc) {
        Ok(b) => b,
        Err(e) => {
            let mut blocks: Vec<Block> = Vec::new();
            blocks.push(diverging_block(BlockId(0), 0, e));
            let b = Body {
                key: MethodKey {
                    class: cf.this_class.clone(),
                    name: name.to_string(),
                    desc: desc.to_string(),
                },
                entry: BlockId(0),
                blocks,
                vars: Vec::new(),
                obligations: Vec::new(),
            };
            proof {
                assert(b@.blocks =~= seq![diverging(BlockId(0), 0, e@)]);
                assert(b@.obligations =~= Seq::empty());
            }
            b
        },
    }
}

/// Lift every method of a class that has code into the program, and enter the
/// class into the hierarchy.
pub fn lift_class(cf: &ClassFile, models: &Models, prog: &mut Program)
    requires
        forall|i: int|
            0 <= i < cf.methods@.len() && cf.methods@[i].code is Some ==> method_liftable(
                *cf,
                *models,
                (#[trigger] cf.methods@[i]).name@,
                cf.methods@[i].desc@,
            ),
    ensures
        program::body_views(final(prog).bodies@) == bodies_with(
            program::body_views(old(prog).bodies@),
            *cf,
            *models,
            cf.methods@.len(),
        ),
        program::super_views(final(prog).supers@) == (match cf.super_class {
            Some(sup) => program::with_entry(
                program::super_views(old(prog).supers@),
                cf.this_class@,
                sup@,
            ),
            None => program::super_views(old(prog).supers@),
        }),
        program::interface_views(final(prog).interfaces@) == program::with_entry(
            program::interface_views(old(prog).interfaces@),
            cf.this_class@,
            text::views(cf.interfaces@),
        ),
        final(prog).entry == old(prog).entry,
        final(prog).dispatch == old(prog).dispatch,
        final(prog).field_owners == old(prog).field_owners,
        old(prog).well_formed() && (forall|i: int|
            0 <= i < final(prog).bodies@.len() ==> numbered(#[trigger] final(prog).bodies@[i]))
            ==> final(prog).well_formed(),
{
    if let Some(sup) = &cf.super_class {
        prog.set_super(cf.this_class.as_str(), sup.as_str());
    }
    prog.set_interfaces(cf.this_class.as_str(), &cf.interfaces);
    let mut k: usize = 0;
    let ghost had = program::body_views(prog.bodies@);
    proof {
        assert(prog.bodies == old(prog).bodies);
    }
    let ghost mid = *prog;
    while k < cf.methods.len()
        invariant
            k <= cf.methods@.len(),
            forall|i: int|
                0 <= i < cf.methods@.len() && cf.methods@[i].code is Some ==> method_liftable(
                    *cf,
                    *models,
                    (#[trigger] cf.methods@[i]).name@,
                    cf.methods@[i].desc@,
                ),
            program::body_views(prog.bodies@) == bodies_with(had, *cf, *models, k as nat),
            prog.supers == mid.supers,
            prog.interfaces == mid.interfaces,
            prog.entry == mid.entry,
            prog.dispatch == mid.dispatch,
            prog.field_owners == mid.field_owners,
            mid.well_formed() ==> forall|i: int|
                0 <= i < prog.bodies@.len() ==> numbered(#[trigger] prog.bodies@[i])
                    ==> prog.bodies@[i].well_formed(),
        decreases cf.methods@.len() - k,
    {
        let m = &cf.methods[k];
        if m.code.is_some() {
            let b = lift_or_diverge(cf, models, m.name.as_str(), m.desc.as_str());
            prog.put_body(b);
        }
        k += 1;
    }
}

} // verus!
