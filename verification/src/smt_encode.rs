//! The whole of a method body as one formula over bit vectors.
//!
//! Blocks are taken in the order of the edges between them. Each block has a path condition and a term for each
//! variable at its entry. Where several edges meet, the path conditions are
//! joined by disjunction and the variables by the condition of the edge.

use vstd::prelude::*;
use vstd::string::*;

use crate::body_analysis;
use crate::body_analysis::body_has_loops;
use crate::ir::{Block, BlockId, Body, Const, ObligationId, Operand, Rvalue, Stmt, Terminator, Ty};
use crate::postdom;
use crate::postdom::successors;
use crate::smt_bmc::encode;
use crate::smt_bmc::encode::{build_binop, build_three_way};
use crate::smt_bmc::formula;
use crate::smt_bmc::state;
use crate::smt_text;
use crate::smt_text::width_of_ty;
use crate::term;
use crate::term::{Op1, Op2, Term, Terms, Tm};
use crate::text;
use crate::text::numbered;

verus! {

/// What a fresh symbol was asked for: the base of its name, and its width.
pub struct Request {
    pub base: Seq<char>,
    pub width: u32,
}

/// Where the encoding stands inside a block.
#[verifier::ext_equal]
pub struct Flow {
    pub vars: Seq<Tm>,
    pub pc: Tm,
    pub reqs: Seq<Request>,
    pub facts: Seq<Tm>,
    pub violated: Seq<Option<Tm>>,
}

/// Where the encoding stands between blocks.
#[verifier::ext_equal]
pub struct Whole {
    /// The path condition of each block that is reached.
    pub pcs: Seq<Option<Tm>>,
    /// The variables at the entry of each block that is reached.
    pub envs: Seq<Option<Seq<Tm>>>,
    pub reqs: Seq<Request>,
    /// What holds on all paths.
    pub facts: Seq<Tm>,
    /// For each obligation, when it is violated.
    pub violated: Seq<Option<Tm>>,
}

/// The width of an operand: that of the type of the variable or the constant.
pub open spec fn operand_width(body: Body, op: Operand) -> u32 {
    match op {
        Operand::Var(v) => smt_text::width(body.vars@[v.0 as int].ty),
        Operand::Const(Const::Long(_)) | Operand::Const(Const::Double(_)) => 64,
        _ => 32,
    }
}

/// The term of an operand.
pub open spec fn operand_tm(vars: Seq<Tm>, op: Operand) -> Tm {
    match op {
        Operand::Var(v) => vars[v.0 as int],
        Operand::Const(c) => state::const_tm(c),
    }
}

/// Is the operand zero?
pub open spec fn is_zero(vars: Seq<Tm>, op: Operand) -> Tm {
    term::tm_eq(operand_tm(vars, op), term::bv32(0))
}

/// The fresh symbol that an rvalue asks for, if it is not expressed.
pub open spec fn request(rv: Rvalue) -> Option<Request> {
    match rv {
        Rvalue::Use(_) | Rvalue::Bin(_, _, _) | Rvalue::Neg(_) | Rvalue::Cast(_, _)
        | Rvalue::Cmp(_, _) => None,
        Rvalue::Nondet(ty, _) => Some(Request { base: "nd"@, width: smt_text::width(ty) }),
        Rvalue::Havoc(ty) => Some(Request { base: "nd"@, width: smt_text::width(ty) }),
        Rvalue::New(_) => Some(Request { base: "alloc"@, width: 32 }),
        _ => Some(Request { base: "havoc"@, width: 32 }),
    }
}

/// The term of an rvalue; `sym` if it is not expressed.
pub open spec fn rvalue_tm(body: Body, vars: Seq<Tm>, rv: Rvalue, sym: Tm) -> Tm {
    match rv {
        Rvalue::Use(o) => operand_tm(vars, o),
        Rvalue::Bin(op, a, b) => encode::bin_tm(
            op,
            operand_tm(vars, a),
            operand_tm(vars, b),
            operand_width(body, a),
            operand_width(body, b),
        ),
        Rvalue::Neg(o) => formula::neg(operand_tm(vars, o)),
        Rvalue::Cast(ty, o) => match ty {
            Ty::Long => formula::sext(operand_tm(vars, o), 32),
            Ty::Int => term::t1(Op1::Extract(31, 0), operand_tm(vars, o)),
            _ => operand_tm(vars, o),
        },
        Rvalue::Cmp(a, b) => encode::ordered_tm(
            operand_tm(vars, a),
            operand_tm(vars, b),
            operand_width(body, a),
            operand_width(body, b),
        ),
        _ => sym,
    }
}

/// A new object is not null.
pub open spec fn rvalue_facts(rv: Rvalue, sym: Tm) -> Seq<Tm> {
    match rv {
        Rvalue::New(_) => seq![term::tm_not(term::tm_eq(sym, term::bv32(0)))],
        _ => Seq::empty(),
    }
}

/// After a statement; `sym` is the next fresh symbol. A path on which an assumption
/// does not hold is left, and one on which a check fails is followed on.
pub open spec fn step(body: Body, s: Stmt, p: Flow, sym: Tm) -> Flow {
    match s {
        Stmt::Assign(v, rv) => Flow {
            vars: p.vars.update(v.0 as int, rvalue_tm(body, p.vars, rv, sym)),
            reqs: match request(rv) {
                Some(r) => p.reqs.push(r),
                None => p.reqs,
            },
            facts: p.facts + rvalue_facts(rv, sym),
            ..p
        },
        Stmt::Assume(o) => Flow {
            pc: term::tm_and(p.pc, term::tm_not(is_zero(p.vars, o))),
            ..p
        },
        Stmt::Check(id) => {
            let here = term::tm_and(p.pc, is_zero(p.vars, body.obligations@[id.0 as int].cond));
            Flow {
                violated: p.violated.update(
                    id.0 as int,
                    Some(
                        match p.violated[id.0 as int] {
                            Some(t) => term::tm_or(t, here),
                            None => here,
                        },
                    ),
                ),
                ..p
            }
        },
        _ => p,
    }
}

/// After the first `n` statements of a block. The fresh symbols are taken from
/// `syms` in order.
pub open spec fn flow(body: Body, stmts: Seq<Stmt>, p: Flow, syms: Seq<Tm>, n: nat) -> Flow
    decreases n,
{
    if n == 0 {
        p
    } else {
        let q = flow(body, stmts, p, syms, (n - 1) as nat);
        step(body, stmts[n - 1], q, syms[q.reqs.len() as int])
    }
}

/// With one more edge into a block, taken under `pc` with the given variables.
pub open spec fn merged(w: Whole, t: BlockId, pc: Tm, vars: Seq<Tm>) -> Whole {
    Whole {
        pcs: w.pcs.update(
            t.0 as int,
            Some(
                match w.pcs[t.0 as int] {
                    Some(x) => term::tm_or(x, pc),
                    None => pc,
                },
            ),
        ),
        envs: w.envs.update(
            t.0 as int,
            Some(
                match w.envs[t.0 as int] {
                    Some(e) => Seq::new(vars.len(), |i: int| term::tm_ite(pc, vars[i], e[i])),
                    None => vars,
                },
            ),
        ),
        ..w
    }
}

/// The condition of a case of a switch.
pub open spec fn is_case(value: Tm, case: i32) -> Tm {
    term::tm_eq(value, term::bv32(case as int))
}

/// The path condition under which none of the first `n` cases is taken.
pub open spec fn default_pc(pc: Tm, value: Tm, cases: Seq<(i32, BlockId)>, n: nat) -> Tm
    decreases n,
{
    if n == 0 {
        pc
    } else {
        term::tm_and(
            default_pc(pc, value, cases, (n - 1) as nat),
            term::tm_not(is_case(value, cases[n - 1].0)),
        )
    }
}

/// With the edges of the first `n` cases of a switch.
pub open spec fn with_cases(
    w: Whole,
    pc: Tm,
    vars: Seq<Tm>,
    value: Tm,
    cases: Seq<(i32, BlockId)>,
    n: nat,
) -> Whole
    decreases n,
{
    if n == 0 {
        w
    } else {
        merged(
            with_cases(w, pc, vars, value, cases, (n - 1) as nat),
            cases[n - 1].1,
            term::tm_and(pc, is_case(value, cases[n - 1].0)),
            vars,
        )
    }
}

/// With the edges of a terminator.
pub open spec fn leave(w: Whole, t: Terminator, pc: Tm, vars: Seq<Tm>) -> Whole {
    match t {
        Terminator::Goto(b) => merged(w, b, pc, vars),
        Terminator::Branch { cond, then_, else_ } => {
            let z = is_zero(vars, cond);
            merged(
                merged(w, then_, term::tm_and(pc, term::tm_not(z)), vars),
                else_,
                term::tm_and(pc, z),
                vars,
            )
        },
        Terminator::Switch { value, cases, default } => {
            let v = operand_tm(vars, value);
            let n = cases@.len();
            merged(
                with_cases(w, pc, vars, v, cases@, n),
                default,
                default_pc(pc, v, cases@, n),
                vars,
            )
        },
        _ => w,
    }
}

/// The start of a block that is reached.
pub open spec fn block_start(i: int, w: Whole) -> Flow {
    Flow {
        vars: w.envs[i]->0,
        pc: w.pcs[i]->0,
        reqs: w.reqs,
        facts: w.facts,
        violated: w.violated,
    }
}

/// The end of the statements of a block that is reached.
pub open spec fn block_end(body: Body, i: int, w: Whole, syms: Seq<Tm>) -> Flow {
    let stmts = body.blocks@[i].stmts@;
    flow(body, stmts, block_start(i, w), syms, stmts.len())
}

/// After a block. One that no edge leads to is left out.
pub open spec fn after_block(body: Body, i: int, w: Whole, syms: Seq<Tm>) -> Whole {
    if w.pcs[i] is None {
        w
    } else {
        let p = block_end(body, i, w, syms);
        let mid = Whole {
            pcs: w.pcs.update(i, Some(p.pc)),
            envs: w.envs,
            reqs: p.reqs,
            facts: p.facts,
            violated: p.violated,
        };
        leave(mid, body.blocks@[i].term, p.pc, p.vars)
    }
}

/// The symbol asked for at the start for a variable.
pub open spec fn var_request(body: Body, i: int) -> Request {
    Request { base: "v"@ + text::dec(i as nat), width: smt_text::width(body.vars@[i].ty) }
}

/// Before the first block: the entry is reached, with a fresh symbol for each
/// variable.
pub open spec fn begin(body: Body, syms: Seq<Tm>) -> Whole {
    let n = body.vars@.len();
    Whole {
        pcs: Seq::new(
            body.blocks@.len(),
            |i: int|
                if i == body.entry.0 {
                    Some(Tm::Bool(true))
                } else {
                    None
                },
        ),
        envs: Seq::new(
            body.blocks@.len(),
            |i: int|
                if i == body.entry.0 {
                    Some(syms.take(n as int))
                } else {
                    None
                },
        ),
        reqs: Seq::new(n, |i: int| var_request(body, i)),
        facts: Seq::empty(),
        violated: Seq::new(body.obligations@.len(), |i: int| None),
    }
}

/// Does the body have a loop, or blocks that are not numbered in the order in which
/// they are run?
pub open spec fn goes_round(body: Body) -> bool {
    exists|i: int| 0 <= i < body.blocks@.len() && #[trigger] body_analysis::goes_back(body, i)
}

/// Does block `a` lead to block `b` at once?
pub open spec fn has_edge(body: Body, a: int, b: int) -> bool {
    exists|j: int|
        0 <= j < postdom::succ_ids(body, a).len() && #[trigger] postdom::succ_ids(body, a)[j] == b
}

/// With one more step along the edges from the blocks marked in `from`, to blocks that
/// were not taken.
pub open spec fn spread(body: Body, taken: Seq<bool>, from: Seq<bool>) -> Seq<bool> {
    Seq::new(
        from.len(),
        |b: int|
            from[b] || (!taken[b] && exists|a: int|
                0 <= a < from.len() && from[a] && #[trigger] has_edge(body, a, b)),
    )
}

/// The blocks that `n` steps lead to from one of them, without a block that was taken.
pub open spec fn ahead(body: Body, taken: Seq<bool>, from: Seq<bool>, n: nat) -> Seq<bool>
    decreases n,
{
    if n == 0 {
        from
    } else {
        spread(body, taken, ahead(body, taken, from, (n - 1) as nat))
    }
}

/// The blocks that can be taken next: the entry, and what blocks that were taken lead
/// to.
pub open spec fn waiting(body: Body, taken: Seq<bool>) -> Seq<bool> {
    Seq::new(
        taken.len(),
        |b: int|
            !taken[b] && (b == body.entry.0 || exists|a: int|
                0 <= a < taken.len() && taken[a] && #[trigger] has_edge(body, a, b)),
    )
}

/// No other block that waits still leads to block `b`.
pub open spec fn is_next(body: Body, taken: Seq<bool>, b: int) -> bool {
    let w = waiting(body, taken);
    &&& 0 <= b < taken.len() && w[b]
    &&& !ahead(body, taken, w.update(b, false), taken.len())[b]
}

/// The first of the first `n` positions that is marked.
pub open spec fn first_marked(v: Seq<bool>, n: nat) -> Option<int>
    decreases n,
{
    if n == 0 {
        None
    } else {
        match first_marked(v, (n - 1) as nat) {
            Some(i) => Some(i),
            None => if v[n - 1] {
                Some(n - 1)
            } else {
                None
            },
        }
    }
}

/// The block that is taken next: the first that no other one that waits leads to, or
/// the first that waits, if they all lead to one another.
pub open spec fn next_block(body: Body, taken: Seq<bool>) -> Option<int> {
    let n = taken.len();
    match first_marked(Seq::new(n, |b: int| is_next(body, taken, b)), n) {
        Some(b) => Some(b),
        None => first_marked(waiting(body, taken), n),
    }
}

/// The blocks among those of a list.
pub open spec fn listed(n: nat, order: Seq<int>) -> Seq<bool> {
    Seq::new(n, |b: int| order.contains(b))
}

/// The first `n` blocks in the order in which they are taken. A block comes after all
/// that lead to it, but for those that it leads back to.
pub open spec fn taken_first(body: Body, n: nat) -> Seq<int>
    decreases n,
{
    if n == 0 {
        Seq::empty()
    } else {
        let before = taken_first(body, (n - 1) as nat);
        match next_block(body, listed(body.blocks@.len(), before)) {
            Some(b) => before.push(b),
            None => before,
        }
    }
}

/// The order in which the blocks are encoded: that of their numbers, if every edge
/// leads to a later one.
pub open spec fn order(body: Body) -> Seq<int> {
    if goes_round(body) {
        taken_first(body, body.blocks@.len())
    } else {
        Seq::new(body.blocks@.len(), |i: int| i)
    }
}

/// The block that is encoded at the given place.
pub open spec fn block_at(body: Body, i: int) -> int {
    if goes_round(body) {
        order(body)[i]
    } else {
        i
    }
}

proof fn lemma_block_at(body: Body, i: int)
    requires
        0 <= i < order(body).len(),
    ensures
        block_at(body, i) == order(body)[i],
{
    if !goes_round(body) {
        let v = Seq::new(body.blocks@.len(), |i: int| i);
        assert(order(body) == v);
        assert(v[i] == i);
    }
}

/// After the first `n` blocks, in their order.
pub open spec fn whole(body: Body, syms: Seq<Tm>, n: nat) -> Whole
    decreases n,
{
    if n == 0 {
        begin(body, syms)
    } else {
        after_block(
            body,
            block_at(body, n - 1),
            whole(body, syms, (n - 1) as nat),
            syms,
        )
    }
}

/// A state of a run of which nothing is known: it is at some block, with some values.
pub open spec fn anywhere(body: Body, syms: Seq<Tm>) -> Whole {
    let n = body.vars@.len();
    Whole {
        pcs: Seq::new(
            body.blocks@.len(),
            |b: int| Some(term::tm_eq(syms[n as int], term::bv32(b))),
        ),
        envs: Seq::new(body.blocks@.len(), |b: int| Some(syms.take(n as int))),
        reqs: Seq::new(n, |i: int| var_request(body, i)).push(Request { base: "at"@, width: 32 }),
        facts: Seq::empty(),
        violated: Seq::new(body.obligations@.len(), |i: int| None),
    }
}

/// The state after the run made one step, from a block to the next, with the edges of
/// the first `n` blocks. What is violated is what the block checks that was left.
pub open spec fn stepped(body: Body, from: Whole, syms: Seq<Tm>, n: nat) -> Whole
    decreases n,
{
    if n == 0 {
        Whole {
            pcs: Seq::new(body.blocks@.len(), |b: int| None),
            envs: Seq::new(body.blocks@.len(), |b: int| None),
            reqs: from.reqs,
            facts: from.facts,
            violated: Seq::new(body.obligations@.len(), |i: int| None),
        }
    } else {
        let w = stepped(body, from, syms, (n - 1) as nat);
        if from.pcs[n - 1] is None {
            w
        } else {
            let p = block_end(body, n - 1, Whole { pcs: from.pcs, envs: from.envs, ..w }, syms);
            leave(
                Whole { reqs: p.reqs, facts: p.facts, violated: p.violated, ..w },
                body.blocks@[n - 1].term,
                p.pc,
                p.vars,
            )
        }
    }
}

/// The state after `k` steps from anywhere.
pub open spec fn walked(body: Body, syms: Seq<Tm>, k: nat) -> Whole
    decreases k,
{
    if k == 0 {
        anywhere(body, syms)
    } else {
        stepped(body, walked(body, syms, (k - 1) as nat), syms, body.blocks@.len())
    }
}

/// When the obligation is violated in the state after `k` steps.
pub open spec fn fails_after(body: Body, syms: Seq<Tm>, o: ObligationId, k: nat) -> Option<Tm> {
    walked(body, syms, k + 1).violated[o.0 as int]
}

/// The formula `t`, where the obligation holds in the first `k` states.
pub open spec fn first_held(body: Body, syms: Seq<Tm>, o: ObligationId, k: nat, t: Tm) -> Tm
    decreases k,
{
    if k == 0 {
        t
    } else {
        let rest = first_held(body, syms, o, (k - 1) as nat, t);
        match fails_after(body, syms, o, (k - 1) as nat) {
            Some(v) => term::tm_and(rest, term::tm_not(v)),
            None => rest,
        }
    }
}

/// The question of the step case: of consecutive states, from one of which nothing is
/// known, the obligation holds in the first `k` and is violated in the next one. None
/// if the next one cannot check it.
pub open spec fn step_question(body: Body, syms: Seq<Tm>, o: ObligationId, k: nat) -> Option<Tm> {
    match fails_after(body, syms, o, k) {
        Some(v) => Some(first_held(body, syms, o, k, v)),
        None => None,
    }
}

/// What the encoding of the step case in a store says, for some list of fresh symbols.
pub open spec fn inducts(
    r: Option<Term>,
    body: Body,
    frame: Seq<char>,
    o: ObligationId,
    k: nat,
    new: Terms,
    old: Terms,
    syms: Seq<Tm>,
) -> bool {
    let w = walked(body, syms, k + 1);
    &&& answers(syms, w.reqs, frame, old.size())
    &&& new.stated_from(old, w.facts)
    &&& new.has_opt(r)
    &&& new.tm_opt(r) == step_question(body, syms, o, k)
}

/// Does the block end the method in an orderly way?
pub open spec fn ends(b: Block) -> bool {
    b.term is Return || b.term is Halt
}

/// When one of the first `n` blocks ends the method.
pub open spec fn reach_tm(body: Body, w: Whole, n: nat) -> Tm
    decreases n,
{
    if n == 0 {
        Tm::Bool(false)
    } else {
        let rest = reach_tm(body, w, (n - 1) as nat);
        match w.pcs[n - 1] {
            Some(pc) => if ends(body.blocks@[n - 1]) {
                term::tm_or(rest, pc)
            } else {
                rest
            },
            None => rest,
        }
    }
}

/// The name of a fresh symbol.
pub open spec fn symbol_name(frame: Seq<char>, base: Seq<char>, i: nat) -> Seq<char> {
    frame + "_"@ + base + text::dec(i + 1)
}

/// The symbols are those that were asked for, in order, and none of them was in
/// the store when it had `from` terms.
pub open spec fn answers(syms: Seq<Tm>, reqs: Seq<Request>, frame: Seq<char>, from: nat) -> bool {
    &&& syms.len() == reqs.len()
    &&& forall|i: int|
        0 <= i < syms.len() ==> (#[trigger] syms[i] matches Tm::FreshBv(pos, name, width) && pos
            >= from && name == symbol_name(frame, reqs[i].base, i as nat) && width == reqs[i].width)
    &&& forall|i: int, j: int| 0 <= i < j < syms.len() ==> at(#[trigger] syms[i]) < at(#[trigger] syms[j])
}

/// The position of a fresh symbol in its store.
pub open spec fn at(t: Tm) -> nat {
    t->FreshBv_0
}

pub proof fn lemma_flow_grows(
    body: Body,
    stmts: Seq<Stmt>,
    p: Flow,
    syms: Seq<Tm>,
    n: nat,
)
    ensures
        flow(body, stmts, p, syms, n).reqs.len() >= p.reqs.len(),
    decreases n,
{
    if n > 0 {
        lemma_flow_grows(body, stmts, p, syms, (n - 1) as nat);
    }
}

pub proof fn lemma_flow_step_grows(
    body: Body,
    stmts: Seq<Stmt>,
    p: Flow,
    syms: Seq<Tm>,
    n: nat,
    m: nat,
)
    requires
        n <= m,
    ensures
        flow(body, stmts, p, syms, n).reqs.len() <= flow(body, stmts, p, syms, m).reqs.len(),
    decreases m,
{
    if n < m {
        lemma_flow_step_grows(body, stmts, p, syms, n, (m - 1) as nat);
    }
}

/// The lists agree on their first `n` members.
spec fn agree(a: Seq<Tm>, b: Seq<Tm>, n: nat) -> bool {
    n <= a.len() && n <= b.len() && forall|i: int| 0 <= i < n ==> #[trigger] a[i] == b[i]
}

proof fn lemma_flow_agrees(
    body: Body,
    stmts: Seq<Stmt>,
    p: Flow,
    a: Seq<Tm>,
    b: Seq<Tm>,
    n: nat,
)
    requires
        agree(a, b, flow(body, stmts, p, a, n).reqs.len()),
    ensures
        flow(body, stmts, p, a, n) == flow(body, stmts, p, b, n),
    decreases n,
{
    if n > 0 {
        let m = (n - 1) as nat;
        let q = flow(body, stmts, p, a, m);
        let f = flow(body, stmts, p, a, n);
        assert(q.reqs.len() <= f.reqs.len());
        lemma_flow_agrees(body, stmts, p, a, b, m);
        let last = stmts[n - 1];
        let k = q.reqs.len() as int;
        if let Stmt::Assign(v, rv) = last {
            if request(rv) is Some {
                assert(f.reqs.len() == k + 1);
                assert(a[k] == b[k]);
            }
        }
    }
}

proof fn lemma_cases_reqs(w: Whole, pc: Tm, vars: Seq<Tm>, value: Tm, cases: Seq<(i32, BlockId)>, n: nat)
    ensures
        with_cases(w, pc, vars, value, cases, n).reqs == w.reqs,
    decreases n,
{
    if n > 0 {
        lemma_cases_reqs(w, pc, vars, value, cases, (n - 1) as nat);
    }
}

pub proof fn lemma_leave_reqs(w: Whole, t: Terminator, pc: Tm, vars: Seq<Tm>)
    ensures
        leave(w, t, pc, vars).reqs == w.reqs,
{
    if let Terminator::Switch { value, cases, default } = t {
        lemma_cases_reqs(w, pc, vars, operand_tm(vars, value), cases@, cases@.len());
    }
}

proof fn lemma_whole_agrees(body: Body, a: Seq<Tm>, b: Seq<Tm>, n: nat)
    requires
        agree(a, b, whole(body, a, n).reqs.len()),
        n <= order(body).len(),
    ensures
        whole(body, a, n) == whole(body, b, n),
        whole(body, a, n).reqs.len() >= body.vars@.len(),
    decreases n,
{
    lemma_whole_grows(body, a, n);
    if n == 0 {
        assert(a.take(body.vars@.len() as int) =~= b.take(body.vars@.len() as int));
        assert(begin(body, a).envs =~= begin(body, b).envs);
    } else {
        let m = (n - 1) as nat;
        let w = whole(body, a, m);
        let x = block_at(body, m as int);
        lemma_after_grows(body, x, w, a);
        lemma_whole_agrees(body, a, b, m);
        if w.pcs[x] is Some {
            let pc = w.pcs[x]->0;
            let p = Flow {
                vars: w.envs[x]->0,
                pc,
                reqs: w.reqs,
                facts: w.facts,
                violated: w.violated,
            };
            let stmts = body.blocks@[x].stmts@;
            let e = block_end(body, x, w, a);
            lemma_leave_reqs(
                Whole {
                    pcs: w.pcs.update(x, Some(e.pc)),
                    envs: w.envs,
                    reqs: e.reqs,
                    facts: e.facts,
                    violated: e.violated,
                },
                body.blocks@[x].term,
                e.pc,
                e.vars,
            );
            lemma_flow_agrees(body, stmts, p, a, b, stmts.len());
        }
    }
}

pub proof fn lemma_after_grows(body: Body, i: int, w: Whole, syms: Seq<Tm>)
    ensures
        after_block(body, i, w, syms).reqs.len() >= w.reqs.len(),
{
    if w.pcs[i] is Some {
        let e = block_end(body, i, w, syms);
        let pc = w.pcs[i]->0;
        let p = Flow {
            vars: w.envs[i]->0,
            pc,
            reqs: w.reqs,
            facts: w.facts,
            violated: w.violated,
        };
        let stmts = body.blocks@[i].stmts@;
        lemma_flow_grows(body, stmts, p, syms, stmts.len());
        lemma_leave_reqs(
            Whole {
                pcs: w.pcs.update(i, Some(e.pc)),
                envs: w.envs,
                reqs: e.reqs,
                facts: e.facts,
                violated: e.violated,
            },
            body.blocks@[i].term,
            e.pc,
            e.vars,
        );
    }
}

pub proof fn lemma_whole_grows(body: Body, syms: Seq<Tm>, n: nat)
    ensures
        whole(body, syms, n).reqs.len() >= body.vars@.len(),
    decreases n,
{
    if n > 0 {
        lemma_whole_grows(body, syms, (n - 1) as nat);
        lemma_after_grows(body, block_at(body, n - 1), whole(body, syms, (n - 1) as nat), syms);
    }
}

proof fn lemma_stepped_grows(body: Body, from: Whole, syms: Seq<Tm>, n: nat, m: nat)
    requires
        n <= m,
    ensures
        stepped(body, from, syms, n).reqs.len() <= stepped(body, from, syms, m).reqs.len(),
        stepped(body, from, syms, n).reqs.len() >= from.reqs.len(),
    decreases m,
{
    if m > 0 {
        let l = (m - 1) as nat;
        if n < m {
            lemma_stepped_grows(body, from, syms, n, l);
        } else {
            lemma_stepped_grows(body, from, syms, l, l);
        }
        let w = stepped(body, from, syms, l);
        if from.pcs[m - 1] is Some {
            let v = Whole { pcs: from.pcs, envs: from.envs, ..w };
            let stmts = body.blocks@[m - 1].stmts@;
            lemma_flow_grows(body, stmts, block_start(m - 1, v), syms, stmts.len());
            let p = block_end(body, m - 1, v, syms);
            lemma_leave_reqs(
                Whole { reqs: p.reqs, facts: p.facts, violated: p.violated, ..w },
                body.blocks@[m - 1].term,
                p.pc,
                p.vars,
            );
        }
    }
}

proof fn lemma_stepped_agrees(body: Body, from: Whole, a: Seq<Tm>, b: Seq<Tm>, n: nat)
    requires
        agree(a, b, stepped(body, from, a, n).reqs.len()),
        n <= body.blocks@.len(),
    ensures
        stepped(body, from, a, n) == stepped(body, from, b, n),
    decreases n,
{
    if n > 0 {
        let m = (n - 1) as nat;
        lemma_stepped_grows(body, from, a, m, n);
        lemma_stepped_agrees(body, from, a, b, m);
        let w = stepped(body, from, a, m);
        if from.pcs[m as int] is Some {
            let v = Whole { pcs: from.pcs, envs: from.envs, ..w };
            let stmts = body.blocks@[m as int].stmts@;
            let p = block_end(body, m as int, v, a);
            lemma_leave_reqs(
                Whole { reqs: p.reqs, facts: p.facts, violated: p.violated, ..w },
                body.blocks@[m as int].term,
                p.pc,
                p.vars,
            );
            lemma_flow_agrees(body, stmts, block_start(m as int, v), a, b, stmts.len());
        }
    }
}

proof fn lemma_walked_grows(body: Body, syms: Seq<Tm>, k: nat, l: nat)
    requires
        k <= l,
    ensures
        walked(body, syms, k).reqs.len() <= walked(body, syms, l).reqs.len(),
        walked(body, syms, k).reqs.len() > body.vars@.len(),
    decreases l,
{
    if l > 0 {
        let m = (l - 1) as nat;
        if k < l {
            lemma_walked_grows(body, syms, k, m);
        } else {
            lemma_walked_grows(body, syms, m, m);
        }
        lemma_stepped_grows(body, walked(body, syms, m), syms, 0, body.blocks@.len());
    }
}

proof fn lemma_walked_agrees(body: Body, a: Seq<Tm>, b: Seq<Tm>, k: nat)
    requires
        agree(a, b, walked(body, a, k).reqs.len()),
    ensures
        walked(body, a, k) == walked(body, b, k),
    decreases k,
{
    lemma_walked_grows(body, a, k, k);
    if k == 0 {
        let n = body.vars@.len() as int;
        assert(a[n] == b[n]);
        assert(a.take(n) =~= b.take(n));
        assert(anywhere(body, a).pcs =~= anywhere(body, b).pcs);
        assert(anywhere(body, a).envs =~= anywhere(body, b).envs);
    } else {
        let m = (k - 1) as nat;
        lemma_walked_grows(body, a, m, k);
        lemma_walked_agrees(body, a, b, m);
        lemma_stepped_agrees(body, walked(body, a, m), a, b, body.blocks@.len());
    }
}

/// The trees of a list of terms.
pub open spec fn tms(ts: Terms, v: Seq<Term>) -> Seq<Tm> {
    v.map_values(|t: Term| ts.tm(t))
}

/// The trees of a list of optional terms.
pub open spec fn opt_tms(ts: Terms, v: Seq<Option<Term>>) -> Seq<Option<Tm>> {
    v.map_values(|t: Option<Term>| ts.tm_opt(t))
}

/// The trees of a list of optional lists of terms.
pub open spec fn env_tms(ts: Terms, v: Seq<Option<Vec<Term>>>) -> Seq<Option<Seq<Tm>>> {
    v.map_values(
        |e: Option<Vec<Term>>|
            match e {
                Some(x) => Some(tms(ts, x@)),
                None => None,
            },
    )
}

/// The terms are in the store.
spec fn all_in(ts: Terms, v: Seq<Term>) -> bool {
    forall|i: int| 0 <= i < v.len() ==> ts.has(#[trigger] v[i])
}

spec fn opts_in(ts: Terms, v: Seq<Option<Term>>) -> bool {
    forall|i: int| 0 <= i < v.len() ==> ts.has_opt(#[trigger] v[i])
}

spec fn envs_in(ts: Terms, v: Seq<Option<Vec<Term>>>, n: nat) -> bool {
    forall|i: int|
        0 <= i < v.len() ==> (#[trigger] v[i] matches Some(e) ==> e@.len() == n && all_in(ts, e@))
}

proof fn lemma_tms_kept(new: Terms, old: Terms, v: Seq<Term>)
    requires
        new.grown_from(old),
        all_in(old, v),
    ensures
        tms(new, v) == tms(old, v),
        all_in(new, v),
{
    assert forall|i: int| 0 <= i < v.len() implies new.has(#[trigger] v[i]) by {
        assert(old.has(v[i]));
    }
    assert(tms(new, v) =~= tms(old, v));
}

proof fn lemma_opts_kept(new: Terms, old: Terms, v: Seq<Option<Term>>)
    requires
        new.grown_from(old),
        opts_in(old, v),
    ensures
        opt_tms(new, v) == opt_tms(old, v),
        opts_in(new, v),
{
    assert forall|i: int| 0 <= i < v.len() implies new.has_opt(#[trigger] v[i]) by {
        assert(old.has_opt(v[i]));
    }
    assert forall|i: int| 0 <= i < v.len() implies opt_tms(new, v)[i] == opt_tms(old, v)[i] by {
        assert(old.has_opt(v[i]));
    }
    assert(opt_tms(new, v) =~= opt_tms(old, v));
}

proof fn lemma_envs_kept(new: Terms, old: Terms, v: Seq<Option<Vec<Term>>>, n: nat)
    requires
        new.grown_from(old),
        envs_in(old, v, n),
    ensures
        env_tms(new, v) == env_tms(old, v),
        envs_in(new, v, n),
{
    assert forall|i: int| 0 <= i < v.len() implies (#[trigger] v[i] matches Some(e) ==> e@.len() == n
        && all_in(new, e@)) by {
        if let Some(e) = v[i] {
            lemma_tms_kept(new, old, e@);
        }
    }
    assert forall|i: int| 0 <= i < v.len() implies env_tms(new, v)[i] == env_tms(old, v)[i] by {
        if let Some(e) = v[i] {
            lemma_tms_kept(new, old, e@);
        }
    }
    assert(env_tms(new, v) =~= env_tms(old, v));
}

/// The formula of a body.
#[derive(Debug)]
pub struct Encoding {
    /// For each obligation, when it is violated; none if it is never checked.
    pub violation_terms: Vec<Option<Term>>,
    /// When the method ends in an orderly way.
    pub reach_term: Term,
    /// The variables at the entry of each block; none if it is not reached.
    pub block_vars: Vec<Option<Vec<Term>>>,
}

/// An encoding under way.
struct Run<'a> {
    body: &'a Body,
    frame: &'a str,
    terms: Terms,
    /// The fresh symbols.
    made: Vec<Term>,
    pcs: Vec<Option<Term>>,
    envs: Vec<Option<Vec<Term>>>,
    violated: Vec<Option<Term>>,
    start: Ghost<Terms>,
    facts: Ghost<Seq<Tm>>,
    reqs: Ghost<Seq<Request>>,
}

impl<'a> Run<'a> {
    /// The fresh symbols.
    spec fn syms(self) -> Seq<Tm> {
        tms(self.terms, self.made@)
    }

    /// Everything that the run refers to exists.
    spec fn ok(self) -> bool {
        &&& self.body.well_formed()
        &&& self.terms.stated_from(self.start@, self.facts@)
        &&& self.start@.size() <= self.terms.size()
        &&& all_in(self.terms, self.made@)
        &&& opts_in(self.terms, self.pcs@)
        &&& envs_in(self.terms, self.envs@, self.body.vars@.len())
        &&& opts_in(self.terms, self.violated@)
        &&& answers(self.syms(), self.reqs@, self.frame@, self.start@.size())
        &&& forall|i: int| 0 <= i < self.syms().len() ==> at(#[trigger] self.syms()[i]) < self.terms.size()
        &&& self.pcs@.len() == self.body.blocks@.len()
        &&& self.envs@.len() == self.body.blocks@.len()
        &&& self.violated@.len() == self.body.obligations@.len()
        &&& forall|i: int|
            0 <= i < self.pcs@.len() ==> (#[trigger] self.pcs@[i] is Some <==> self.envs@[i] is Some)
    }

    /// Where the run stands between blocks.
    spec fn at(self) -> Whole {
        Whole {
            pcs: opt_tms(self.terms, self.pcs@),
            envs: env_tms(self.terms, self.envs@),
            reqs: self.reqs@,
            facts: self.facts@,
            violated: opt_tms(self.terms, self.violated@),
        }
    }

    /// Only terms were built.
    spec fn only_built(self, old: Run<'a>) -> bool {
        &&& self.body == old.body
        &&& self.frame == old.frame
        &&& self.made == old.made
        &&& self.pcs == old.pcs
        &&& self.envs == old.envs
        &&& self.violated == old.violated
        &&& self.start == old.start
        &&& self.facts == old.facts
        &&& self.reqs == old.reqs
        &&& self.terms.built_from(old.terms)
    }

    proof fn lemma_built(self, old: Run<'a>)
        requires
            old.ok(),
            self.only_built(old),
        ensures
            self.ok(),
            self.at() == old.at(),
            self.syms() == old.syms(),
            self.terms.grown_from(old.terms),
    {
        self.terms.lemma_built_grows(old.terms);
        lemma_tms_kept(self.terms, old.terms, self.made@);
        lemma_opts_kept(self.terms, old.terms, self.pcs@);
        lemma_opts_kept(self.terms, old.terms, self.violated@);
        lemma_envs_kept(self.terms, old.terms, self.envs@, self.body.vars@.len());
        self.terms.lemma_state_then_build(old.terms, self.start@, self.facts@);
    }

    /// A fresh symbol.
    fn fresh(&mut self, base: &str, width: u32) -> (t: Term)
        requires
            old(self).ok(),
        ensures
            final(self).ok(),
            final(self).body == old(self).body,
            final(self).frame == old(self).frame,
            final(self).start == old(self).start,
            final(self).terms.grown_from(old(self).terms),
            final(self).terms.has(t),
            final(self).syms() == old(self).syms().push(final(self).terms.tm(t)),
            final(self).pcs == old(self).pcs,
            final(self).envs == old(self).envs,
            final(self).at() == (Whole {
                reqs: old(self).reqs@.push(Request { base: base@, width }),
                ..old(self).at()
            }),
    {
        let ghost before = *self;
        self.made.push(Term(0));
        let n = self.made.len();
        let mut name = self.frame.to_string();
        name.append("_");
        name.append(base);
        let full = numbered(name.as_str(), n as u64);
        let t = self.terms.fresh_bv(full.as_str(), width);
        self.made.set(n - 1, t);
        proof {
            self.reqs = Ghost(self.reqs@.push(Request { base: base@, width }));
            self.terms.lemma_built_grows(before.terms);
            lemma_tms_kept(self.terms, before.terms, before.made@);
            lemma_opts_kept(self.terms, before.terms, self.pcs@);
            lemma_opts_kept(self.terms, before.terms, self.violated@);
            lemma_envs_kept(self.terms, before.terms, self.envs@, self.body.vars@.len());
            self.terms.lemma_state_then_build(before.terms, self.start@, self.facts@);
            assert(self.made@ =~= before.made@.push(t));
            assert(self.syms() =~= before.syms().push(self.terms.tm(t)));
            assert forall|i: int| 0 <= i < self.made@.len() implies self.terms.has(
                #[trigger] self.made@[i],
            ) by {
                if i < before.made@.len() {
                    assert(self.terms.has(before.made@[i]));
                }
            }
            assert forall|i: int| 0 <= i < self.syms().len() implies (#[trigger] self.syms()[i] matches Tm::FreshBv(
                pos,
                name,
                w,
            ) && pos >= self.start@.size() && name == symbol_name(
                self.frame@,
                self.reqs@[i].base,
                i as nat,
            ) && w == self.reqs@[i].width) by {
                if i < before.syms().len() {
                    assert(before.syms()[i] == self.syms()[i]);
                }
            }
        }
        t
    }

    fn encode_operand(&mut self, vars: &Vec<Term>, op: &Operand) -> (t: Term)
        requires
            old(self).ok(),
            all_in(old(self).terms, vars@),
            op.in_range(vars@.len()),
        ensures
            final(self).only_built(*old(self)),
            final(self).terms.has(t),
            final(self).terms.tm(t) == operand_tm(tms(old(self).terms, vars@), *op),
    {
        match op {
            Operand::Var(v) => {
                proof {
                    assert(self.terms.has(vars@[v.0 as int]));
                    self.terms.lemma_built_grows_self();
                }
                vars[v.0 as usize]
            },
            Operand::Const(c) => match c {
                Const::Int(n) => self.terms.bv_const(*n as i64, 32),
                Const::Long(n) => self.terms.bv_const(*n, 64),
                Const::Null => self.terms.bv_const(0, 32),
                Const::Str(_) => self.terms.bv_const(1, 32),
                Const::Float(b) => self.terms.bv_const(*b as i64, 32),
                Const::Double(b) => self.terms.bv_const(*b as i64, 64),
                Const::Class(_) => self.terms.bv_const(0, 32),
            },
        }
    }
}

fn width_of_operand(body: &Body, op: &Operand) -> (r: u32)
    requires
        op.in_range(body.vars@.len()),
    ensures
        r == operand_width(*body, *op),
{
    match op {
        Operand::Var(v) => width_of_ty(&body.vars[v.0 as usize].ty),
        Operand::Const(Const::Long(_)) | Operand::Const(Const::Double(_)) => 64,
        _ => 32,
    }
}

/// Where a run stands inside a block.
struct Cursor {
    vars: Vec<Term>,
    pc: Term,
}

impl<'a> Run<'a> {
    /// The run comes later: symbols were only added, and terms kept.
    spec fn follows(self, old: Run<'a>) -> bool {
        &&& self.ok()
        &&& self.body == old.body
        &&& self.frame == old.frame
        &&& self.start == old.start
        &&& self.terms.grown_from(old.terms)
        &&& old.syms().len() <= self.syms().len()
        &&& self.syms().take(old.syms().len() as int) == old.syms()
    }

    proof fn lemma_follows_self(self)
        requires
            self.ok(),
        ensures
            self.follows(self),
    {
        self.terms.lemma_built_grows_self();
        assert(self.syms().take(self.syms().len() as int) =~= self.syms());
    }

    proof fn lemma_follows_trans(self, mid: Run<'a>, old: Run<'a>)
        requires
            self.follows(mid),
            mid.follows(old),
        ensures
            self.follows(old),
    {
        self.terms.lemma_grown_trans(mid.terms, old.terms);
        let n = old.syms().len() as int;
        assert(self.syms().take(n) =~= self.syms().take(mid.syms().len() as int).take(n));
    }

    proof fn lemma_follows_built(self, old: Run<'a>)
        requires
            old.ok(),
            self.only_built(old),
        ensures
            self.follows(old),
            self.at() == old.at(),
            self.syms() == old.syms(),
    {
        self.lemma_built(old);
        assert(self.syms().take(old.syms().len() as int) =~= old.syms());
    }

    fn state_nonnull(&mut self, t: Term)
        requires
            old(self).ok(),
            old(self).terms.has(t),
        ensures
            final(self).follows(*old(self)),
            final(self).syms() == old(self).syms(),
            final(self).pcs == old(self).pcs,
            final(self).envs == old(self).envs,
            final(self).at() == (Whole {
                facts: old(self).facts@.push(
                    term::tm_not(term::tm_eq(old(self).terms.tm(t), term::bv32(0))),
                ),
                ..old(self).at()
            }),
    {
        let ghost first = *self;
        let zero = self.terms.bv_const(0, 32);
        let eq = self.terms.equal(t, zero);
        let ne = self.terms.not(eq);
        let ghost mid = *self;
        proof {
            mid.lemma_follows_built(first);
        }
        self.terms.insist(ne);
        proof {
            let fact = term::tm_not(term::tm_eq(first.terms.tm(t), term::bv32(0)));
            assert(mid.terms.tm(ne) == fact);
            self.terms.lemma_state_more(mid.terms, self.start@, self.facts@, ne);
            self.facts = Ghost(self.facts@.push(fact));
            lemma_tms_kept(self.terms, mid.terms, self.made@);
            lemma_opts_kept(self.terms, mid.terms, self.pcs@);
            lemma_opts_kept(self.terms, mid.terms, self.violated@);
            lemma_envs_kept(self.terms, mid.terms, self.envs@, self.body.vars@.len());
            self.terms.lemma_grown_trans(mid.terms, first.terms);
            assert(self.syms().take(first.syms().len() as int) =~= first.syms());
        }
    }

    fn encode_rvalue(&mut self, vars: &Vec<Term>, rv: &Rvalue) -> (t: Term)
        requires
            old(self).ok(),
            all_in(old(self).terms, vars@),
            vars@.len() == old(self).body.vars@.len(),
            crate::ir::operands_in_range(crate::ir::rvalue_operands(*rv), vars@.len()),
        ensures
            final(self).follows(*old(self)),
            final(self).pcs == old(self).pcs,
            final(self).envs == old(self).envs,
            final(self).terms.has(t),
            final(self).terms.tm(t) == rvalue_tm(
                *old(self).body,
                tms(old(self).terms, vars@),
                *rv,
                final(self).syms()[old(self).syms().len() as int],
            ),
            final(self).at() == (Whole {
                reqs: match request(*rv) {
                    Some(r) => old(self).reqs@.push(r),
                    None => old(self).reqs@,
                },
                facts: old(self).facts@ + rvalue_facts(
                    *rv,
                    final(self).syms()[old(self).syms().len() as int],
                ),
                ..old(self).at()
            }),
    {
        let ghost first = *self;
        let ghost ops = crate::ir::rvalue_operands(*rv);
        match rv {
            Rvalue::Use(o) => {
                proof {
                    assert(ops[0].in_range(vars@.len()));
                }
                let t = self.encode_operand(vars, o);
                proof {
                    self.lemma_follows_built(first);
                    assert(self.facts@ + rvalue_facts(*rv, arbitrary()) =~= self.facts@);
                }
                t
            },
            Rvalue::Bin(op, a, b) => {
                proof {
                    assert(ops[0].in_range(vars@.len()) && ops[1].in_range(vars@.len()));
                }
                let x = self.encode_operand(vars, a);
                let ghost mid = *self;
                proof {
                    mid.lemma_follows_built(first);
                    lemma_tms_kept(mid.terms, first.terms, vars@);
                }
                let y = self.encode_operand(vars, b);
                let t = build_binop(
                    &mut self.terms,
                    *op,
                    x,
                    y,
                    width_of_operand(self.body, a),
                    width_of_operand(self.body, b),
                );
                proof {
                    self.lemma_follows_built(first);
                    assert(self.facts@ + rvalue_facts(*rv, arbitrary()) =~= self.facts@);
                }
                t
            },
            Rvalue::Neg(o) => {
                proof {
                    assert(ops[0].in_range(vars@.len()));
                }
                let x = self.encode_operand(vars, o);
                let t = self.terms.app1(Op1::BvNeg, x);
                proof {
                    self.lemma_follows_built(first);
                    assert(self.facts@ + rvalue_facts(*rv, arbitrary()) =~= self.facts@);
                }
                t
            },
            Rvalue::Cast(ty, o) => {
                proof {
                    assert(ops[0].in_range(vars@.len()));
                }
                let x = self.encode_operand(vars, o);
                let t = match ty {
                    Ty::Long => self.terms.app1(Op1::SignExtend(32), x),
                    Ty::Int => self.terms.app1(Op1::Extract(31, 0), x),
                    _ => x,
                };
                proof {
                    self.lemma_follows_built(first);
                    assert(self.facts@ + rvalue_facts(*rv, arbitrary()) =~= self.facts@);
                }
                t
            },
            Rvalue::Cmp(a, b) => {
                proof {
                    assert(ops[0].in_range(vars@.len()) && ops[1].in_range(vars@.len()));
                }
                let x = self.encode_operand(vars, a);
                let ghost mid = *self;
                proof {
                    mid.lemma_follows_built(first);
                    lemma_tms_kept(mid.terms, first.terms, vars@);
                }
                let y = self.encode_operand(vars, b);
                let t = build_three_way(
                    &mut self.terms,
                    x,
                    y,
                    width_of_operand(self.body, a),
                    width_of_operand(self.body, b),
                );
                proof {
                    self.lemma_follows_built(first);
                    assert(self.facts@ + rvalue_facts(*rv, arbitrary()) =~= self.facts@);
                }
                t
            },
            Rvalue::Nondet(ty, _) => self.unknown(rv, "nd", width_of_ty(ty)),
            Rvalue::Havoc(ty) => self.unknown(rv, "nd", width_of_ty(ty)),
            Rvalue::New(_) => {
                let t = self.fresh("alloc", 32);
                let ghost mid = *self;
                proof {
                    assert(mid.syms().take(first.syms().len() as int) =~= first.syms());
                    assert(mid.syms()[first.syms().len() as int] == mid.terms.tm(t));
                }
                self.state_nonnull(t);
                proof {
                    self.lemma_follows_trans(mid, first);
                    let fact = term::tm_not(term::tm_eq(mid.terms.tm(t), term::bv32(0)));
                    assert(first.facts@ + seq![fact] =~= first.facts@.push(fact));
                }
                t
            },
            _ => self.unknown(rv, "havoc", 32),
        }
    }

    fn unknown(&mut self, rv: &Rvalue, base: &str, width: u32) -> (t: Term)
        requires
            old(self).ok(),
            request(*rv) == Some(Request { base: base@, width }),
            !(rv is New),
        ensures
            final(self).follows(*old(self)),
            final(self).pcs == old(self).pcs,
            final(self).envs == old(self).envs,
            final(self).terms.has(t),
            final(self).terms.tm(t) == final(self).syms()[old(self).syms().len() as int],
            final(self).at() == (Whole {
                reqs: old(self).reqs@.push(Request { base: base@, width }),
                facts: old(self).facts@ + rvalue_facts(
                    *rv,
                    final(self).syms()[old(self).syms().len() as int],
                ),
                ..old(self).at()
            }),
    {
        let ghost first = *self;
        let t = self.fresh(base, width);
        proof {
            assert(self.syms().take(first.syms().len() as int) =~= first.syms());
            assert(first.facts@ + rvalue_facts(*rv, arbitrary()) =~= first.facts@);
        }
        t
    }

    /// Is the operand zero?
    fn encode_is_zero(&mut self, vars: &Vec<Term>, op: &Operand) -> (t: Term)
        requires
            old(self).ok(),
            all_in(old(self).terms, vars@),
            op.in_range(vars@.len()),
        ensures
            final(self).only_built(*old(self)),
            final(self).terms.has(t),
            final(self).terms.tm(t) == is_zero(tms(old(self).terms, vars@), *op),
    {
        let x = self.encode_operand(vars, op);
        let zero = self.terms.bv_const(0, 32);
        self.terms.equal(x, zero)
    }

    /// Where the run stands inside a block.
    spec fn flow_at(self, c: Cursor) -> Flow {
        Flow {
            vars: tms(self.terms, c.vars@),
            pc: self.terms.tm(c.pc),
            reqs: self.reqs@,
            facts: self.facts@,
            violated: opt_tms(self.terms, self.violated@),
        }
    }

    spec fn holds(self, c: Cursor) -> bool {
        &&& c.vars@.len() == self.body.vars@.len()
        &&& all_in(self.terms, c.vars@)
        &&& self.terms.has(c.pc)
    }

    proof fn lemma_cursor_kept(self, old: Run<'a>, c: Cursor)
        requires
            self.follows(old),
            old.holds(c),
        ensures
            self.holds(c),
            tms(self.terms, c.vars@) == tms(old.terms, c.vars@),
            self.terms.tm(c.pc) == old.terms.tm(c.pc),
    {
        lemma_tms_kept(self.terms, old.terms, c.vars@);
    }

    fn do_stmt(&mut self, s: &Stmt, c: &mut Cursor)
        requires
            old(self).ok(),
            old(self).holds(*old(c)),
            crate::ir::stmt_in_range(
                *s,
                old(self).body.vars@.len(),
                old(self).body.obligations@.len(),
            ),
        ensures
            final(self).follows(*old(self)),
            final(self).holds(*final(c)),
            final(self).pcs == old(self).pcs,
            final(self).envs == old(self).envs,
            final(self).flow_at(*final(c)) == step(
                *old(self).body,
                *s,
                old(self).flow_at(*old(c)),
                final(self).syms()[old(self).syms().len() as int],
            ),
    {
        let ghost first = *self;
        let ghost had = *c;
        match s {
            Stmt::Assign(v, rv) => {
                let t = self.encode_rvalue(&c.vars, rv);
                proof {
                    self.lemma_cursor_kept(first, had);
                }
                c.vars.set(v.0 as usize, t);
                proof {
                    assert(tms(self.terms, c.vars@) =~= tms(self.terms, had.vars@).update(
                        v.0 as int,
                        self.terms.tm(t),
                    ));
                    assert(self.at().violated == first.at().violated);
                }
            },
            Stmt::Assume(o) => {
                let z = self.encode_is_zero(&c.vars, o);
                let nz = self.terms.not(z);
                let pc = self.terms.app2(Op2::And, c.pc, nz);
                proof {
                    self.lemma_follows_built(first);
                    self.lemma_cursor_kept(first, had);
                    assert(self.at().violated == first.at().violated);
                }
                c.pc = pc;
            },
            Stmt::Check(id) => {
                proof {
                    assert(self.body.obligations@[id.0 as int].cond.in_range(
                        self.body.vars@.len(),
                    ));
                }
                let body = self.body;
                let z = self.encode_is_zero(&c.vars, &body.obligation(*id).cond);
                let ghost one = *self;
                proof {
                    one.lemma_follows_built(first);
                    one.lemma_cursor_kept(first, had);
                }
                let here = self.terms.app2(Op2::And, c.pc, z);
                proof {
                    self.lemma_follows_built(first);
                    assert(self.terms.has_opt(self.violated@[id.0 as int]));
                    assert(self.at().violated[id.0 as int] == self.terms.tm_opt(
                        self.violated@[id.0 as int],
                    ));
                }
                let t = match self.violated[id.0 as usize] {
                    Some(v) => self.terms.app2(Op2::Or, v, here),
                    None => here,
                };
                let ghost mid = *self;
                proof {
                    mid.lemma_follows_built(first);
                    mid.lemma_cursor_kept(first, had);
                    assert(mid.at().violated == first.at().violated);
                }
                self.violated.set(id.0 as usize, Some(t));
                proof {
                    assert(opt_tms(self.terms, self.violated@) =~= opt_tms(
                        mid.terms,
                        mid.violated@,
                    ).update(id.0 as int, Some(self.terms.tm(t))));
                    assert forall|i: int| 0 <= i < self.violated@.len() implies self.terms.has_opt(
                        #[trigger] self.violated@[i],
                    ) by {
                        if i != id.0 {
                            assert(mid.terms.has_opt(mid.violated@[i]));
                        }
                    }
                    assert(self.syms().take(first.syms().len() as int) =~= first.syms());
                }
            },
            _ => {
                proof {
                    self.lemma_follows_self();
                }
            },
        }
    }

    /// The statements of a block that is reached.
    fn do_stmts(&mut self, i: usize) -> (c: Cursor)
        requires
            old(self).ok(),
            i < old(self).body.blocks@.len(),
            old(self).pcs@[i as int] is Some,
        ensures
            final(self).follows(*old(self)),
            final(self).holds(c),
            final(self).pcs == old(self).pcs,
            final(self).envs == old(self).envs,
            final(self).flow_at(c) == block_end(
                *old(self).body,
                i as int,
                old(self).at(),
                final(self).syms(),
            ),
    {
        let ghost first = *self;
        let ghost w = self.at();
        let body = self.body;
        proof {
            assert(self.envs@[i as int] is Some);
            assert(self.terms.has_opt(self.pcs@[i as int]));
        }
        let entry = match self.pcs[i] {
            Some(t) => t,
            None => Term(0),
        };
        let vars = match &self.envs[i] {
            Some(v) => copy_terms(v),
            None => Vec::new(),
        };
        let mut c = Cursor { vars, pc: entry };
        let ghost start = self.flow_at(c);
        let ghost stmts = body.blocks@[i as int].stmts@;
        proof {
            self.lemma_follows_self();
            assert(body.blocks@[i as int].in_range(
                body.blocks@.len(),
                body.vars@.len(),
                body.obligations@.len(),
            ));
        }
        let n = body.blocks[i].stmts.len();
        let mut j: usize = 0;
        while j < n
            invariant
                j <= n == stmts.len(),
                body == first.body,
                i < body.blocks@.len(),
                stmts == body.blocks@[i as int].stmts@,
                body.blocks@[i as int].in_range(
                    body.blocks@.len(),
                    body.vars@.len(),
                    body.obligations@.len(),
                ),
                first.ok(),
                self.follows(first),
                self.holds(c),
                self.pcs == first.pcs,
                self.envs == first.envs,
                self.flow_at(c) == flow(*body, stmts, start, self.syms(), j as nat),
            decreases n - j,
        {
            let ghost mid = *self;
            proof {
                assert(crate::ir::stmt_in_range(
                    stmts[j as int],
                    body.vars@.len(),
                    body.obligations@.len(),
                ));
            }
            self.do_stmt(&body.blocks[i].stmts[j], &mut c);
            proof {
                self.lemma_follows_trans(mid, first);
                let k = mid.syms().len();
                assert(flow(*body, stmts, start, mid.syms(), j as nat).reqs.len() == k);
                assert forall|x: int| 0 <= x < k implies #[trigger] mid.syms()[x] == self.syms()[x] by {
                    assert(self.syms().take(k as int)[x] == self.syms()[x]);
                }
                lemma_flow_agrees(*body, stmts, start, mid.syms(), self.syms(), j as nat);
            }
            j += 1;
        }
        proof {
            assert(start.vars == w.envs[i as int]->0);
            assert(start.pc == w.pcs[i as int]->0);
        }
        c
    }

    /// One more edge into a block.
    fn merge_pc(&mut self, target: BlockId, pc: Term, vars: &Vec<Term>)
        requires
            old(self).ok(),
            target.0 < old(self).body.blocks@.len(),
            old(self).terms.has(pc),
            vars@.len() == old(self).body.vars@.len(),
            all_in(old(self).terms, vars@),
        ensures
            final(self).follows(*old(self)),
            final(self).syms() == old(self).syms(),
            final(self).at() == merged(
                old(self).at(),
                target,
                old(self).terms.tm(pc),
                tms(old(self).terms, vars@),
            ),
    {
        let ghost first = *self;
        let ghost xs = tms(self.terms, vars@);
        let t = target.0 as usize;
        proof {
            self.lemma_follows_self();
            assert(first.pcs@[t as int] is Some <==> first.envs@[t as int] is Some);
            assert(first.terms.has_opt(first.pcs@[t as int]));
        }
        let joined = match self.pcs[t] {
            Some(x) => self.terms.app2(Op2::Or, x, pc),
            None => {
                proof {
                    self.terms.lemma_built_grows_self();
                }
                pc
            },
        };
        let ghost mid = *self;
        proof {
            mid.lemma_follows_built(first);
            lemma_tms_kept(mid.terms, first.terms, vars@);
        }
        let env = match &self.envs[t] {
            Some(e) => copy_terms(e),
            None => Vec::new(),
        };
        let had = self.envs[t].is_some();
        let mut out: Vec<Term> = Vec::new();
        let mut i: usize = 0;
        while i < vars.len()
            invariant
                i <= vars@.len(),
                mid.ok(),
                mid.terms.has(pc),
                self.only_built(mid),
                all_in(mid.terms, vars@),
                had ==> env@.len() == vars@.len() && all_in(mid.terms, env@),
                all_in(self.terms, out@),
                out@.len() == i,
                forall|j: int|
                    0 <= j < i ==> self.terms.tm(#[trigger] out@[j]) == if had {
                        term::tm_ite(
                            mid.terms.tm(pc),
                            mid.terms.tm(vars@[j]),
                            mid.terms.tm(env@[j]),
                        )
                    } else {
                        mid.terms.tm(vars@[j])
                    },
            decreases vars@.len() - i,
        {
            let ghost prev = *self;
            proof {
                assert(mid.terms.has(vars@[i as int]));
            }
            if had {
                proof {
                    assert(mid.terms.has(env@[i as int]));
                }
                let x = self.terms.ite(pc, vars[i], env[i]);
                out.push(x);
            } else {
                proof {
                    self.terms.lemma_built_grows_self();
                }
                out.push(vars[i]);
            }
            proof {
                assert forall|j: int| 0 <= j < out@.len() implies self.terms.has(#[trigger] out@[j]) by {
                    if j < i {
                        assert(prev.terms.has(out@[j]));
                    }
                }
            }
            i += 1;
        }
        let ghost built = *self;
        proof {
            built.lemma_follows_built(mid);
            built.lemma_follows_trans(mid, first);
        }
        self.pcs.set(t, Some(joined));
        self.envs.set(t, Some(out));
        proof {
            assert(self.at().pcs =~= built.at().pcs.update(t as int, Some(self.terms.tm(joined))));
            assert(self.at().envs =~= built.at().envs.update(
                t as int,
                Some(tms(self.terms, out@)),
            ));
            assert forall|i: int| 0 <= i < self.pcs@.len() implies self.terms.has_opt(
                #[trigger] self.pcs@[i],
            ) by {
                assert(built.terms.has_opt(built.pcs@[i]));
            }
            assert forall|i: int| 0 <= i < self.envs@.len() implies (#[trigger] self.envs@[i] matches Some(
                e,
            ) ==> e@.len() == self.body.vars@.len() && all_in(self.terms, e@)) by {
                if i != t {
                    assert(built.envs@[i] matches Some(e) ==> e@.len() == self.body.vars@.len()
                        && all_in(built.terms, e@));
                }
            }
            assert(first.at().pcs[t as int] == first.terms.tm_opt(first.pcs@[t as int]));
            if had {
                let e = first.at().envs[t as int]->0;
                assert(e =~= tms(first.terms, env@));
                assert(tms(mid.terms, env@) =~= e) by {
                    lemma_tms_kept(mid.terms, first.terms, env@);
                }
                assert(tms(self.terms, out@) =~= Seq::new(
                    xs.len(),
                    |i: int| term::tm_ite(first.terms.tm(pc), xs[i], e[i]),
                ));
            } else {
                assert(tms(self.terms, out@) =~= xs);
            }
            assert(self.at().pcs =~= merged(first.at(), target, first.terms.tm(pc), xs).pcs);
            assert(self.at().envs =~= merged(first.at(), target, first.terms.tm(pc), xs).envs);
        }
    }

    fn do_switch(&mut self, c: &Cursor, value: Term, cases: &Vec<(i32, BlockId)>, default: BlockId)
        requires
            old(self).ok(),
            old(self).holds(*c),
            old(self).terms.has(value),
            default.0 < old(self).body.blocks@.len(),
            forall|i: int|
                0 <= i < cases@.len() ==> (#[trigger] cases@[i]).1.0 < old(self).body.blocks@.len(),
        ensures
            final(self).follows(*old(self)),
            final(self).syms() == old(self).syms(),
            ({
                let pc = old(self).terms.tm(c.pc);
                let vars = tms(old(self).terms, c.vars@);
                let v = old(self).terms.tm(value);
                final(self).at() == merged(
                    with_cases(old(self).at(), pc, vars, v, cases@, cases@.len()),
                    default,
                    default_pc(pc, v, cases@, cases@.len()),
                    vars,
                )
            }),
    {
        let ghost first = *self;
        let ghost pc = self.terms.tm(c.pc);
        let ghost vars = tms(self.terms, c.vars@);
        let ghost v = self.terms.tm(value);
        proof {
            self.lemma_follows_self();
        }
        let mut rest = c.pc;
        let mut i: usize = 0;
        while i < cases.len()
            invariant
                i <= cases@.len(),
                first.ok(),
                first.holds(*c),
                first.terms.has(value),
                pc == first.terms.tm(c.pc),
                vars == tms(first.terms, c.vars@),
                v == first.terms.tm(value),
                forall|i: int|
                    0 <= i < cases@.len() ==> (#[trigger] cases@[i]).1.0 < first.body.blocks@.len(),
                self.follows(first),
                self.syms() == first.syms(),
                self.terms.has(rest),
                self.terms.tm(rest) == default_pc(pc, v, cases@, i as nat),
                self.at() == with_cases(first.at(), pc, vars, v, cases@, i as nat),
            decreases cases@.len() - i,
        {
            let ghost mid = *self;
            proof {
                mid.lemma_cursor_kept(first, *c);
            }
            let k = self.terms.bv_const(cases[i].0 as i64, 32);
            let eq = self.terms.equal(value, k);
            let taken = self.terms.app2(Op2::And, c.pc, eq);
            let ne = self.terms.not(eq);
            let next = self.terms.app2(Op2::And, rest, ne);
            let ghost built = *self;
            proof {
                built.lemma_follows_built(mid);
                built.lemma_cursor_kept(mid, *c);
            }
            self.merge_pc(cases[i].1, taken, &c.vars);
            proof {
                self.lemma_follows_trans(built, mid);
                self.lemma_follows_trans(mid, first);
            }
            rest = next;
            i += 1;
        }
        let ghost mid = *self;
        proof {
            mid.lemma_cursor_kept(first, *c);
        }
        self.merge_pc(default, rest, &c.vars);
        proof {
            self.lemma_follows_trans(mid, first);
        }
    }

    /// The edges of a terminator.
    fn do_term(&mut self, c: &Cursor, t: &Terminator)
        requires
            old(self).ok(),
            old(self).holds(*c),
            crate::ir::term_in_range(*t, old(self).body.vars@.len()),
            forall|i: int|
                0 <= i < crate::ir::term_targets(*t).len() ==> (#[trigger] crate::ir::term_targets(
                    *t,
                )[i]).0 < old(self).body.blocks@.len(),
        ensures
            final(self).follows(*old(self)),
            final(self).syms() == old(self).syms(),
            final(self).at() == leave(
                old(self).at(),
                *t,
                old(self).terms.tm(c.pc),
                tms(old(self).terms, c.vars@),
            ),
    {
        let ghost first = *self;
        let ghost targets = crate::ir::term_targets(*t);
        match t {
            Terminator::Goto(b) => {
                proof {
                    assert(targets[0].0 < self.body.blocks@.len());
                }
                self.merge_pc(*b, c.pc, &c.vars);
            },
            Terminator::Branch { cond, then_, else_ } => {
                proof {
                    assert(targets[0].0 < self.body.blocks@.len());
                    assert(targets[1].0 < self.body.blocks@.len());
                }
                let z = self.encode_is_zero(&c.vars, cond);
                let nz = self.terms.not(z);
                let ghost one = *self;
                proof {
                    one.lemma_follows_built(first);
                    one.lemma_cursor_kept(first, *c);
                }
                let yes = self.terms.app2(Op2::And, c.pc, nz);
                let no = self.terms.app2(Op2::And, c.pc, z);
                let ghost mid = *self;
                proof {
                    mid.lemma_follows_built(first);
                    mid.lemma_cursor_kept(first, *c);
                }
                self.merge_pc(*then_, yes, &c.vars);
                let ghost one_side = *self;
                proof {
                    one_side.lemma_cursor_kept(mid, *c);
                }
                self.merge_pc(*else_, no, &c.vars);
                proof {
                    self.lemma_follows_trans(one_side, mid);
                    self.lemma_follows_trans(mid, first);
                }
            },
            Terminator::Switch { value, cases, default } => {
                let v = self.encode_operand(&c.vars, value);
                let ghost mid = *self;
                proof {
                    mid.lemma_follows_built(first);
                    mid.lemma_cursor_kept(first, *c);
                    assert(targets.last() == *default);
                    assert(targets[targets.len() - 1].0 < self.body.blocks@.len());
                    assert forall|i: int| 0 <= i < cases@.len() implies (#[trigger] cases@[i]).1.0
                        < self.body.blocks@.len() by {
                        assert(targets[i] == cases@[i].1);
                    }
                }
                self.do_switch(c, v, cases, *default);
                proof {
                    self.lemma_follows_trans(mid, first);
                }
            },
            _ => {
                proof {
                    self.lemma_follows_self();
                }
            },
        }
    }

    /// One block.
    fn do_block(&mut self, i: usize)
        requires
            old(self).ok(),
            i < old(self).body.blocks@.len(),
        ensures
            final(self).follows(*old(self)),
            final(self).at() == after_block(
                *old(self).body,
                i as int,
                old(self).at(),
                final(self).syms(),
            ),
    {
        let ghost first = *self;
        if self.pcs[i].is_none() {
            proof {
                self.lemma_follows_self();
            }
            return;
        }
        let c = self.do_stmts(i);
        let ghost mid = *self;
        self.pcs.set(i, Some(c.pc));
        proof {
            assert(self.at().pcs =~= mid.at().pcs.update(i as int, Some(self.terms.tm(c.pc))));
            assert forall|j: int| 0 <= j < self.pcs@.len() implies self.terms.has_opt(
                #[trigger] self.pcs@[j],
            ) by {
                assert(mid.terms.has_opt(mid.pcs@[j]));
            }
            assert(mid.pcs@[i as int] is Some);
            assert(self.follows(first));
            lemma_opts_kept(mid.terms, first.terms, first.pcs@);
            lemma_envs_kept(mid.terms, first.terms, first.envs@, first.body.vars@.len());
            assert(self.body.blocks@[i as int].in_range(
                self.body.blocks@.len(),
                self.body.vars@.len(),
                self.body.obligations@.len(),
            ));
        }
        let ghost set = *self;
        let body = self.body;
        self.do_term(&c, &body.blocks[i].term);
        proof {
            self.lemma_follows_trans(set, first);
        }
    }
}

fn copy_terms(v: &Vec<Term>) -> (r: Vec<Term>)
    ensures
        r@ == v@,
{
    let mut r: Vec<Term> = Vec::new();
    let mut i: usize = 0;
    while i < v.len()
        invariant
            i <= v@.len(),
            r@ == v@.take(i as int),
        decreases v@.len() - i,
    {
        r.push(v[i]);
        i += 1;
    }
    proof {
        assert(r@ =~= v@);
    }
    r
}

/// What an encoding of a body in a store says, for some list of fresh symbols.
pub open spec fn encodes(
    e: Encoding,
    body: Body,
    frame: Seq<char>,
    new: Terms,
    old: Terms,
    syms: Seq<Tm>,
) -> bool {
    let w = whole(body, syms, order(body).len());
    &&& answers(syms, w.reqs, frame, old.size())
    &&& new.stated_from(old, w.facts)
    &&& opt_tms(new, e.violation_terms@) == w.violated
    &&& env_tms(new, e.block_vars@) == w.envs
    &&& new.has(e.reach_term)
    &&& new.tm(e.reach_term) == reach_tm(body, w, body.blocks@.len())
    &&& forall|i: int| 0 <= i < e.violation_terms@.len() ==> new.has_opt(#[trigger] e.violation_terms@[i])
}

/// A run that has a fresh symbol for each variable, and has reached nothing.
fn name_run<'a>(terms: Terms, body: &'a Body, frame: &'a str) -> (p: (Run<'a>, Vec<Term>))
    requires
        terms.well_formed(),
        body.well_formed(),
    ensures
        p.0.ok(),
        p.0.body == body,
        p.0.frame == frame,
        p.0.start@ == terms,
        all_in(p.0.terms, p.1@),
        p.1@.len() == body.vars@.len(),
        p.0.syms() == tms(p.0.terms, p.1@),
        p.0.reqs@ == Seq::new(body.vars@.len(), |j: int| var_request(*body, j)),
        p.0.facts@ == Seq::<Tm>::empty(),
        forall|j: int| 0 <= j < p.0.pcs@.len() ==> (#[trigger] p.0.pcs@[j]) is None,
        forall|j: int| 0 <= j < p.0.envs@.len() ==> (#[trigger] p.0.envs@[j]) is None,
        forall|j: int| 0 <= j < p.0.violated@.len() ==> (#[trigger] p.0.at().violated[j]) is None,
{
    let ghost first = terms;
    let mut pcs: Vec<Option<Term>> = Vec::new();
    let mut envs: Vec<Option<Vec<Term>>> = Vec::new();
    let mut violated: Vec<Option<Term>> = Vec::new();
    let mut i: usize = 0;
    while i < body.blocks.len()
        invariant
            i <= body.blocks@.len(),
            pcs@.len() == i,
            envs@.len() == i,
            forall|j: int| 0 <= j < i ==> (#[trigger] pcs@[j]) is None,
            forall|j: int| 0 <= j < i ==> (#[trigger] envs@[j]) is None,
        decreases body.blocks@.len() - i,
    {
        pcs.push(None);
        envs.push(None);
        i += 1;
    }
    let mut i: usize = 0;
    while i < body.obligations.len()
        invariant
            i <= body.obligations@.len(),
            violated@.len() == i,
            forall|j: int| 0 <= j < i ==> (#[trigger] violated@[j]) is None,
        decreases body.obligations@.len() - i,
    {
        violated.push(None);
        i += 1;
    }
    let mut r = Run {
        body,
        frame,
        terms,
        made: Vec::new(),
        pcs,
        envs,
        violated,
        start: Ghost(terms),
        facts: Ghost(Seq::empty()),
        reqs: Ghost(Seq::empty()),
    };
    proof {
        r.terms.lemma_built_grows_self();
        r.terms.lemma_built_states(first);
        assert(r.reqs@ =~= Seq::new(0, |j: int| var_request(*body, j)));
    }
    let mut vars: Vec<Term> = Vec::new();
    let mut i: usize = 0;
    while i < body.vars.len()
        invariant
            i <= body.vars@.len(),
            r.ok(),
            r.body == body,
            r.frame == frame,
            r.start@ == first,
            all_in(r.terms, vars@),
            vars@.len() == i,
            r.syms() == tms(r.terms, vars@),
            r.reqs@ == Seq::new(i as nat, |j: int| var_request(*body, j)),
            r.facts@ == Seq::<Tm>::empty(),
            forall|j: int| 0 <= j < r.pcs@.len() ==> (#[trigger] r.pcs@[j]) is None,
            forall|j: int| 0 <= j < r.envs@.len() ==> (#[trigger] r.envs@[j]) is None,
            forall|j: int| 0 <= j < r.violated@.len() ==> (#[trigger] r.at().violated[j]) is None,
        decreases body.vars@.len() - i,
    {
        let ghost prev = r;
        let base = numbered("v", i as u64);
        let t = r.fresh(base.as_str(), width_of_ty(&body.vars[i].ty));
        let ghost had = vars@;
        vars.push(t);
        proof {
            lemma_tms_kept(r.terms, prev.terms, had);
            assert(tms(r.terms, vars@) =~= tms(r.terms, had).push(r.terms.tm(t)));
            assert(r.reqs@ =~= Seq::new((i + 1) as nat, |j: int| var_request(*body, j)));
            assert(r.at().violated == prev.at().violated);
            assert(r.violated@.len() == prev.violated@.len());
        }
        i += 1;
    }
    (r, vars)
}

fn start_run<'a>(terms: Terms, body: &'a Body, frame: &'a str) -> (r: Run<'a>)
    requires
        terms.well_formed(),
        body.well_formed(),
    ensures
        r.ok(),
        r.body == body,
        r.frame == frame,
        r.start@ == terms,
        r.at() == begin(*body, r.syms()),
{
    let (mut r, vars) = name_run(terms, body, frame);
    let ghost mid = r;
    let yes = r.terms.bool_const(true);
    let ghost built = r;
    proof {
        built.lemma_follows_built(mid);
        lemma_tms_kept(built.terms, mid.terms, vars@);
    }
    let e = body.entry.0 as usize;
    r.pcs.set(e, Some(yes));
    r.envs.set(e, Some(vars));
    proof {
        assert forall|j: int| 0 <= j < r.pcs@.len() implies r.terms.has_opt(#[trigger] r.pcs@[j]) by {
            assert(built.terms.has_opt(built.pcs@[j]));
        }
        assert forall|j: int| 0 <= j < r.envs@.len() implies (#[trigger] r.envs@[j] matches Some(x)
            ==> x@.len() == r.body.vars@.len() && all_in(r.terms, x@)) by {
            assert(j != e ==> r.envs@[j] is None);
        }
        let want = begin(*body, r.syms());
        assert(r.at().pcs =~= want.pcs);
        assert(tms(r.terms, vars@) =~= r.syms().take(body.vars@.len() as int));
        assert(r.at().envs =~= want.envs);
        assert forall|j: int| 0 <= j < r.violated@.len() implies r.at().violated[j] == want.violated[j] by {
            assert(mid.at().violated[j] is None);
        }
        assert(r.at().violated =~= want.violated);
        assert(r.ok());
    }
    r
}

/// A run that may be at any block, with any values.
fn start_anywhere<'a>(terms: Terms, body: &'a Body, frame: &'a str) -> (r: Run<'a>)
    requires
        terms.well_formed(),
        body.well_formed(),
    ensures
        r.ok(),
        r.body == body,
        r.frame == frame,
        r.start@ == terms,
        r.at() == anywhere(*body, r.syms()),
{
    let (mut r, vars) = name_run(terms, body, frame);
    let ghost named = r;
    let n = body.blocks.len();
    let place = r.fresh("at", 32);
    let ghost nv = body.vars@.len() as int;
    proof {
        lemma_tms_kept(r.terms, named.terms, vars@);
        assert(r.syms().take(nv) =~= tms(r.terms, vars@));
        assert(r.syms()[nv] == r.terms.tm(place));
    }
    let ghost asked = r;
    proof {
        asked.lemma_follows_self();
    }
    let mut i: usize = 0;
    while i < n
        invariant
            i <= n == body.blocks@.len(),
            nv == body.vars@.len(),
            asked.ok(),
            asked.terms.has(place),
            asked.syms()[nv] == asked.terms.tm(place),
            asked.syms().len() == nv + 1,
            asked.syms().take(nv) == tms(asked.terms, vars@),
            all_in(asked.terms, vars@),
            vars@.len() == nv,
            forall|j: int| 0 <= j < asked.pcs@.len() ==> (#[trigger] asked.pcs@[j]) is None,
            forall|j: int| 0 <= j < asked.envs@.len() ==> (#[trigger] asked.envs@[j]) is None,
            r.ok(),
            r.body == body,
            r.frame == frame,
            r.start == asked.start,
            r.syms() == asked.syms(),
            r.reqs == asked.reqs,
            r.facts == asked.facts,
            r.at().violated == asked.at().violated,
            r.terms.grown_from(asked.terms),
            r.pcs@.len() == n,
            r.envs@.len() == n,
            forall|j: int|
                0 <= j < n ==> #[trigger] r.at().pcs[j] == if j < i {
                    Some(term::tm_eq(asked.syms()[nv], term::bv32(j)))
                } else {
                    None
                },
            forall|j: int|
                0 <= j < n ==> #[trigger] r.at().envs[j] == if j < i {
                    Some(asked.syms().take(nv))
                } else {
                    None
                },
        decreases n - i,
    {
        let ghost prev = r;
        let number = r.terms.bv_const(i as i64, 32);
        let here = r.terms.equal(place, number);
        let ghost built = r;
        proof {
            built.lemma_follows_built(prev);
            built.terms.lemma_grown_trans(prev.terms, asked.terms);
            lemma_tms_kept(built.terms, asked.terms, vars@);
        }
        let own = copy_terms(&vars);
        r.pcs.set(i, Some(here));
        r.envs.set(i, Some(own));
        proof {
            assert forall|j: int| 0 <= j < r.pcs@.len() implies r.terms.has_opt(
                #[trigger] r.pcs@[j],
            ) by {
                assert(built.terms.has_opt(built.pcs@[j]));
            }
            assert forall|j: int| 0 <= j < r.envs@.len() implies (#[trigger] r.envs@[j] matches Some(
                x,
            ) ==> x@.len() == r.body.vars@.len() && all_in(r.terms, x@)) by {
                if j != i {
                    assert(r.envs@[j] == built.envs@[j]);
                }
            }
            assert forall|j: int| 0 <= j < n implies #[trigger] r.at().pcs[j] == if j < i + 1 {
                Some(term::tm_eq(asked.syms()[nv], term::bv32(j)))
            } else {
                None
            } by {
                assert(built.at().pcs[j] == prev.at().pcs[j]);
            }
            assert forall|j: int| 0 <= j < n implies #[trigger] r.at().envs[j] == if j < i + 1 {
                Some(asked.syms().take(nv))
            } else {
                None
            } by {
                assert(built.at().envs[j] == prev.at().envs[j]);
            }
            assert(r.ok());
        }
        i += 1;
    }
    proof {
        let want = anywhere(*body, r.syms());
        assert(r.at().pcs =~= want.pcs);
        assert(r.at().envs =~= want.envs);
        assert(r.at().reqs =~= want.reqs);
        assert(r.at().facts =~= want.facts);
        assert(asked.at().violated == named.at().violated);
        assert forall|j: int| 0 <= j < r.violated@.len() implies r.at().violated[j] == want.violated[j] by {
            assert(named.at().violated[j] is None);
        }
        assert(r.at().violated =~= want.violated);
    }
    r
}

/// Positions as numbers.
spec fn positions(v: Seq<usize>) -> Seq<int> {
    v.map_values(|i: usize| i as int)
}

spec fn in_bounds(v: Seq<usize>, n: nat) -> bool {
    forall|i: int| 0 <= i < v.len() ==> #[trigger] v[i] < n
}

fn leads_on(body: &Body, a: usize, b: usize) -> (r: bool)
    requires
        a < body.blocks@.len() <= u32::MAX,
    ensures
        r == has_edge(*body, a as int, b as int),
{
    let succs = successors(body, a as u32);
    let mut j: usize = 0;
    while j < succs.len()
        invariant
            j <= succs@.len(),
            succs@ == postdom::succ_ids(*body, a as int),
            forall|q: int| 0 <= q < j ==> #[trigger] succs@[q] != b,
        decreases succs@.len() - j,
    {
        if succs[j] as usize == b {
            return true;
        }
        j += 1;
    }
    false
}

/// Does a marked block lead to block `b`?
fn any_leads(body: &Body, marked: &Vec<bool>, b: usize) -> (r: bool)
    requires
        marked@.len() == body.blocks@.len() <= u32::MAX,
    ensures
        r == exists|a: int|
            0 <= a < marked@.len() && marked@[a] && #[trigger] has_edge(*body, a, b as int),
{
    let mut a: usize = 0;
    while a < marked.len()
        invariant
            a <= marked@.len(),
            marked@.len() == body.blocks@.len() <= u32::MAX,
            forall|q: int|
                0 <= q < a && marked@[q] ==> !#[trigger] has_edge(*body, q, b as int),
        decreases marked@.len() - a,
    {
        if marked[a] && leads_on(body, a, b) {
            return true;
        }
        a += 1;
    }
    false
}

fn find_ahead(body: &Body, taken: &Vec<bool>, from: Vec<bool>) -> (r: Vec<bool>)
    requires
        taken@.len() == body.blocks@.len() <= u32::MAX,
        from@.len() == taken@.len(),
    ensures
        r@ == ahead(*body, taken@, from@, taken@.len()),
        r@.len() == taken@.len(),
{
    let ghost first = from@;
    let mut now = from;
    let mut k: usize = 0;
    while k < taken.len()
        invariant
            k <= taken@.len(),
            taken@.len() == body.blocks@.len() <= u32::MAX,
            now@.len() == taken@.len(),
            now@ == ahead(*body, taken@, first, k as nat),
        decreases taken@.len() - k,
    {
        let mut next: Vec<bool> = Vec::new();
        let mut b: usize = 0;
        while b < now.len()
            invariant
                b <= now@.len(),
                taken@.len() == body.blocks@.len() <= u32::MAX,
                now@.len() == taken@.len(),
                next@ == spread(*body, taken@, now@).take(b as int),
            decreases now@.len() - b,
        {
            let x = now[b] || (!taken[b] && any_leads(body, &now, b));
            let ghost all = spread(*body, taken@, now@);
            next.push(x);
            proof {
                assert(all[b as int] == x);
                assert(all.take(b + 1) =~= all.take(b as int).push(x));
            }
            b += 1;
        }
        proof {
            let all = spread(*body, taken@, now@);
            assert(all.take(b as int) =~= all);
        }
        now = next;
        k += 1;
    }
    now
}

fn find_waiting(body: &Body, taken: &Vec<bool>) -> (r: Vec<bool>)
    requires
        taken@.len() == body.blocks@.len() <= u32::MAX,
    ensures
        r@ == waiting(*body, taken@),
{
    let ghost all = waiting(*body, taken@);
    let mut r: Vec<bool> = Vec::new();
    let mut b: usize = 0;
    while b < taken.len()
        invariant
            b <= taken@.len(),
            taken@.len() == body.blocks@.len() <= u32::MAX,
            all == waiting(*body, taken@),
            r@ == all.take(b as int),
        decreases taken@.len() - b,
    {
        let x = !taken[b] && (b == body.entry.0 as usize || any_leads(body, taken, b));
        r.push(x);
        proof {
            assert(all[b as int] == x);
            assert(all.take(b + 1) =~= all.take(b as int).push(x));
        }
        b += 1;
    }
    proof {
        assert(all.take(b as int) =~= all);
    }
    r
}

fn without(v: &Vec<bool>, i: usize) -> (r: Vec<bool>)
    requires
        i < v@.len(),
    ensures
        r@ == v@.update(i as int, false),
{
    let ghost all = v@.update(i as int, false);
    let mut r: Vec<bool> = Vec::new();
    let mut j: usize = 0;
    while j < v.len()
        invariant
            j <= v@.len(),
            all == v@.update(i as int, false),
            i < v@.len(),
            r@ == all.take(j as int),
        decreases v@.len() - j,
    {
        r.push(j != i && v[j]);
        proof {
            assert(all.take(j + 1) =~= all.take(j as int).push(all[j as int]));
        }
        j += 1;
    }
    proof {
        assert(all.take(j as int) =~= all);
    }
    r
}

proof fn lemma_first_marked(v: Seq<bool>, n: nat, m: nat)
    requires
        n <= m,
    ensures
        first_marked(v, n) is Some ==> first_marked(v, m) == first_marked(v, n),
        first_marked(v, n) matches Some(i) ==> 0 <= i < n,
    decreases m,
{
    if n < m {
        lemma_first_marked(v, n, (m - 1) as nat);
    } else if n > 0 {
        lemma_first_marked(v, (n - 1) as nat, (m - 1) as nat);
    }
}

/// The block that is taken next.
fn find_next(body: &Body, taken: &Vec<bool>) -> (r: Option<usize>)
    requires
        taken@.len() == body.blocks@.len() <= u32::MAX,
    ensures
        match r {
            Some(b) => next_block(*body, taken@) == Some(b as int) && b < taken@.len(),
            None => next_block(*body, taken@) is None,
        },
{
    let n = taken.len();
    let w = find_waiting(body, taken);
    let ghost free = Seq::new(n as nat, |b: int| is_next(*body, taken@, b));
    let mut first: Option<usize> = None;
    let mut b: usize = 0;
    while b < n
        invariant
            b <= n,
            n == taken@.len() == body.blocks@.len() <= u32::MAX,
            w@ == waiting(*body, taken@),
            free == Seq::new(n as nat, |b: int| is_next(*body, taken@, b)),
            first_marked(free, b as nat) is None,
            match first {
                Some(i) => first_marked(w@, b as nat) == Some(i as int) && i < n,
                None => first_marked(w@, b as nat) is None,
            },
        decreases n - b,
    {
        if w[b] {
            let others = without(&w, b);
            let far = find_ahead(body, taken, others);
            if !far[b] {
                proof {
                    assert(free[b as int]);
                    lemma_first_marked(free, (b + 1) as nat, n as nat);
                }
                return Some(b);
            }
            if first.is_none() {
                first = Some(b);
            }
        }
        proof {
            assert(!free[b as int]);
        }
        b += 1;
    }
    first
}

/// The order in which the blocks are encoded.
fn find_order(body: &Body) -> (r: Vec<usize>)
    requires
        body.well_formed(),
    ensures
        positions(r@) == order(*body),
        in_bounds(r@, body.blocks@.len()),
{
    let n = body.blocks.len();
    let mut r: Vec<usize> = Vec::new();
    let mut i: usize = 0;
    if !body_has_loops(body) {
        while i < n
            invariant
                i <= n == body.blocks@.len(),
                r@.len() == i,
                forall|j: int| 0 <= j < i ==> #[trigger] r@[j] == j,
            decreases n - i,
        {
            r.push(i);
            i += 1;
        }
        proof {
            assert(positions(r@) =~= order(*body));
        }
        return r;
    }
    let mut taken: Vec<bool> = Vec::new();
    while i < n
        invariant
            i <= n,
            taken@.len() == i,
            forall|j: int| 0 <= j < i ==> !#[trigger] taken@[j],
        decreases n - i,
    {
        taken.push(false);
        i += 1;
    }
    proof {
        assert(positions(r@) =~= taken_first(*body, 0));
        assert(taken@ =~= listed(n as nat, taken_first(*body, 0)));
    }
    let mut k: usize = 0;
    while k < n
        invariant
            k <= n == body.blocks@.len() <= u32::MAX,
            taken@.len() == n,
            in_bounds(r@, n as nat),
            positions(r@) == taken_first(*body, k as nat),
            taken@ == listed(n as nat, taken_first(*body, k as nat)),
        decreases n - k,
    {
        let ghost before = taken_first(*body, k as nat);
        if let Some(b) = find_next(body, &taken) {
            let ghost had = r@;
            r.push(b);
            taken.set(b, true);
            proof {
                let now = before.push(b as int);
                assert(positions(r@) =~= now);
                assert(taken_first(*body, (k + 1) as nat) == now);
                assert forall|x: int| 0 <= x < n implies taken@[x] == now.contains(x) by {
                    if now.contains(x) {
                        let j = now.index_of(x);
                        if j < before.len() {
                            assert(before[j] == x);
                        }
                    }
                    if before.contains(x) {
                        let j = before.index_of(x);
                        assert(now[j] == x);
                    }
                    if x == b {
                        assert(now[before.len() as int] == x);
                    }
                }
                assert(taken@ =~= listed(n as nat, now));
            }
        }
        k += 1;
    }
    r
}

/// Encode a method body. `frame` is put before the names of fresh symbols.
pub fn encode_body(terms: &mut Terms, body: &Body, frame: &str) -> (r: Encoding)
    requires
        old(terms).well_formed(),
        body.well_formed(),
    ensures
        exists|syms: Seq<Tm>| #[trigger]
            encodes(r, *body, frame@, *final(terms), *old(terms), syms),
{
    let ghost first = *terms;
    let mut own = Terms::new();
    std::mem::swap(terms, &mut own);
    let mut run = start_run(own, body, frame);
    let list = find_order(body);
    let mut i: usize = 0;
    while i < list.len()
        invariant
            i <= list@.len(),
            positions(list@) == order(*body),
            in_bounds(list@, body.blocks@.len()),
            run.ok(),
            run.body == body,
            run.frame == frame,
            run.start@ == first,
            run.at() == whole(*body, run.syms(), i as nat),
        decreases list@.len() - i,
    {
        let ghost prev = run;
        proof {
            assert(positions(list@)[i as int] == list@[i as int]);
        }
        run.do_block(list[i]);
        proof {
            let k = prev.syms().len();
            assert(whole(*body, prev.syms(), i as nat).reqs.len() == k);
            assert forall|x: int| 0 <= x < k implies #[trigger] prev.syms()[x] == run.syms()[x] by {
                assert(run.syms().take(k as int)[x] == run.syms()[x]);
            }
            lemma_whole_agrees(*body, prev.syms(), run.syms(), i as nat);
            assert(order(*body)[i as int] == positions(list@)[i as int]);
            assert(positions(list@).len() == list@.len());
            lemma_block_at(*body, i as int);
            assert(run.at() == whole(*body, run.syms(), (i + 1) as nat));
        }
        i += 1;
    }
    let n = body.blocks.len();
    let ghost done = run;
    let ghost w = run.at();
    let mut reach = run.terms.bool_const(false);
    proof {
        run.lemma_follows_built(done);
    }
    let mut i: usize = 0;
    while i < n
        invariant
            i <= n == body.blocks@.len(),
            done.ok(),
            run.ok(),
            run.body == body,
            run.only_built(done),
            run.at() == w,
            w == done.at(),
            run.syms() == done.syms(),
            run.terms.has(reach),
            run.terms.tm(reach) == reach_tm(*body, w, i as nat),
        decreases n - i,
    {
        let ghost prev = run;
        proof {
            assert(run.terms.has_opt(run.pcs@[i as int]));
            assert(w.pcs[i as int] == run.terms.tm_opt(run.pcs@[i as int]));
        }
        let last = match &body.blocks[i].term {
            Terminator::Return(_) | Terminator::Halt => true,
            _ => false,
        };
        if last {
            if let Some(pc) = run.pcs[i] {
                reach = run.terms.app2(Op2::Or, reach, pc);
                proof {
                    run.lemma_follows_built(prev);
                }
            }
        }
        proof {
            assert forall|t: Term| done.terms.has(t) implies #[trigger] run.terms.tm(t) == done.terms.tm(
                t,
            ) by {
                assert(prev.terms.tm(t) == done.terms.tm(t));
            }
        }
        i += 1;
    }
    let ghost syms = run.syms();
    let r = Encoding { violation_terms: run.violated, reach_term: reach, block_vars: run.envs };
    *terms = run.terms;
    proof {
        assert(encodes(r, *body, frame@, *terms, first, syms));
    }
    r
}

fn no_terms(n: usize) -> (r: Vec<Option<Term>>)
    ensures
        r@.len() == n,
        forall|i: int| 0 <= i < n ==> (#[trigger] r@[i]) is None,
{
    let mut r: Vec<Option<Term>> = Vec::new();
    let mut i: usize = 0;
    while i < n
        invariant
            i <= n,
            r@.len() == i,
            forall|j: int| 0 <= j < i ==> (#[trigger] r@[j]) is None,
        decreases n - i,
    {
        r.push(None);
        i += 1;
    }
    r
}

fn no_lists(n: usize) -> (r: Vec<Option<Vec<Term>>>)
    ensures
        r@.len() == n,
        forall|i: int| 0 <= i < n ==> (#[trigger] r@[i]) is None,
{
    let mut r: Vec<Option<Vec<Term>>> = Vec::new();
    let mut i: usize = 0;
    while i < n
        invariant
            i <= n,
            r@.len() == i,
            forall|j: int| 0 <= j < i ==> (#[trigger] r@[j]) is None,
        decreases n - i,
    {
        r.push(None);
        i += 1;
    }
    r
}

/// The path conditions and the variables of the blocks that a run may be at next.
struct Places {
    pcs: Vec<Option<Term>>,
    envs: Vec<Option<Vec<Term>>>,
}

impl<'a> Run<'a> {
    /// The places exist.
    spec fn has_places(self, p: Places) -> bool {
        &&& opts_in(self.terms, p.pcs@)
        &&& envs_in(self.terms, p.envs@, self.body.vars@.len())
        &&& p.pcs@.len() == self.body.blocks@.len()
        &&& p.envs@.len() == self.body.blocks@.len()
        &&& forall|i: int|
            0 <= i < p.pcs@.len() ==> (#[trigger] p.pcs@[i] is Some <==> p.envs@[i] is Some)
    }

    /// The state of a run that is at one of the places.
    spec fn at_places(self, p: Places) -> Whole {
        Whole {
            pcs: opt_tms(self.terms, p.pcs@),
            envs: env_tms(self.terms, p.envs@),
            ..self.at()
        }
    }

    proof fn lemma_places_kept(self, old: Run<'a>, p: Places)
        requires
            old.has_places(p),
            self.body == old.body,
            self.terms.grown_from(old.terms),
        ensures
            self.has_places(p),
            self.at_places(p).pcs == old.at_places(p).pcs,
            self.at_places(p).envs == old.at_places(p).envs,
    {
        lemma_opts_kept(self.terms, old.terms, p.pcs@);
        lemma_envs_kept(self.terms, old.terms, p.envs@, self.body.vars@.len());
    }

    /// The step of the runs that are at one block.
    fn step_block(&mut self, i: usize, p: &mut Places)
        requires
            old(self).ok(),
            old(self).has_places(*old(p)),
            i < old(self).body.blocks@.len(),
            old(self).pcs@[i as int] is Some,
        ensures
            final(self).follows(*old(self)),
            final(self).pcs == old(self).pcs,
            final(self).envs == old(self).envs,
            final(self).has_places(*final(p)),
            ({
                let f = block_end(*old(self).body, i as int, old(self).at(), final(self).syms());
                final(self).at_places(*final(p)) == leave(
                    Whole {
                        reqs: f.reqs,
                        facts: f.facts,
                        violated: f.violated,
                        ..old(self).at_places(*old(p))
                    },
                    old(self).body.blocks@[i as int].term,
                    f.pc,
                    f.vars,
                )
            }),
    {
        let ghost first = *self;
        let body = self.body;
        let c = self.do_stmts(i);
        let ghost mid = *self;
        proof {
            mid.lemma_places_kept(first, *p);
            assert(body.blocks@[i as int].in_range(
                body.blocks@.len(),
                body.vars@.len(),
                body.obligations@.len(),
            ));
        }
        std::mem::swap(&mut self.pcs, &mut p.pcs);
        std::mem::swap(&mut self.envs, &mut p.envs);
        let ghost away = *self;
        proof {
            assert(away.ok());
            assert(away.follows(mid)) by {
                mid.lemma_follows_self();
            }
        }
        self.do_term(&c, &body.blocks[i].term);
        let ghost left = *self;
        std::mem::swap(&mut self.pcs, &mut p.pcs);
        std::mem::swap(&mut self.envs, &mut p.envs);
        proof {
            lemma_opts_kept(left.terms, mid.terms, mid.pcs@);
            lemma_envs_kept(left.terms, mid.terms, mid.envs@, mid.body.vars@.len());
            assert(self.ok());
            left.lemma_follows_trans(away, mid);
            left.lemma_follows_trans(mid, first);
            assert(self.follows(first));
            assert(self.syms() == mid.syms());
            let f = mid.flow_at(c);
            assert(away.at() == (Whole {
                reqs: f.reqs,
                facts: f.facts,
                violated: f.violated,
                ..first.at_places(*old(p))
            }));
            assert(self.at_places(*p) == left.at());
        }
    }

    /// One step of the run, from a block to the next.
    fn do_step(&mut self)
        requires
            old(self).ok(),
        ensures
            final(self).follows(*old(self)),
            final(self).at() == stepped(
                *old(self).body,
                old(self).at(),
                final(self).syms(),
                old(self).body.blocks@.len(),
            ),
    {
        let ghost first = *self;
        let ghost from = self.at();
        let n = self.body.blocks.len();
        let mut p = Places { pcs: no_terms(n), envs: no_lists(n) };
        self.violated = no_terms(self.body.obligations.len());
        proof {
            self.terms.lemma_built_grows_self();
            assert(self.syms() == first.syms());
            assert(self.ok());
            assert(self.syms().take(first.syms().len() as int) =~= first.syms());
            let want = stepped(*self.body, from, self.syms(), 0);
            assert(self.at_places(p).pcs =~= want.pcs);
            assert(self.at_places(p).envs =~= want.envs);
            assert(self.at_places(p).violated =~= want.violated);
        }
        let mut i: usize = 0;
        while i < n
            invariant
                i <= n,
                n == first.body.blocks@.len(),
                first.ok(),
                from == first.at(),
                self.follows(first),
                self.has_places(p),
                self.pcs == first.pcs,
                self.envs == first.envs,
                self.at().pcs == from.pcs,
                self.at().envs == from.envs,
                self.at_places(p) == stepped(*first.body, from, self.syms(), i as nat),
            decreases n - i,
        {
            let ghost prev = *self;
            let ghost w = stepped(*first.body, from, prev.syms(), i as nat);
            if self.pcs[i].is_some() {
                let ghost places = p;
                self.step_block(i, &mut p);
                proof {
                    let k = prev.syms().len();
                    assert(w.reqs == prev.reqs@);
                    assert forall|x: int| 0 <= x < k implies #[trigger] prev.syms()[x]
                        == self.syms()[x] by {
                        assert(self.syms().take(k as int)[x] == self.syms()[x]);
                    }
                    lemma_stepped_agrees(*first.body, from, prev.syms(), self.syms(), i as nat);
                    self.lemma_follows_trans(prev, first);
                    lemma_opts_kept(self.terms, prev.terms, first.pcs@);
                    lemma_envs_kept(self.terms, prev.terms, first.envs@, first.body.vars@.len());
                    assert(prev.at() == (Whole { pcs: from.pcs, envs: from.envs, ..w }));
                    assert(from.pcs[i as int] is Some);
                }
            } else {
                proof {
                    assert(from.pcs[i as int] is None);
                }
            }
            i += 1;
        }
        let ghost done = *self;
        self.pcs = p.pcs;
        self.envs = p.envs;
        proof {
            assert(self.at() == done.at_places(p));
            assert(self.ok());
        }
    }
}

/// Encode the step case of an obligation: is there a run of consecutive states, from
/// one of which nothing is known, such that the obligation holds in the first `k` and is
/// violated in the next one? None if no state can be the next one and check it.
pub fn encode_steps(terms: &mut Terms, body: &Body, frame: &str, o: ObligationId, k: u32) -> (r:
    Option<Term>)
    requires
        old(terms).well_formed(),
        body.well_formed(),
        o.0 < body.obligations@.len(),
    ensures
        exists|syms: Seq<Tm>| #[trigger]
            inducts(r, *body, frame@, o, k as nat, *final(terms), *old(terms), syms),
{
    let ghost first = *terms;
    let mut own = Terms::new();
    std::mem::swap(terms, &mut own);
    let mut run = start_anywhere(own, body, frame);
    let mut fails: Vec<Option<Term>> = Vec::new();
    let mut i: u64 = 0;
    let n = k as u64 + 1;
    while i < n
        invariant
            i <= n,
            n == k + 1,
            run.ok(),
            run.body == body,
            run.frame == frame,
            run.start@ == first,
            o.0 < body.obligations@.len(),
            run.at() == walked(*body, run.syms(), i as nat),
            fails@.len() == i,
            opts_in(run.terms, fails@),
            forall|j: int|
                0 <= j < i ==> run.terms.tm_opt(#[trigger] fails@[j]) == fails_after(
                    *body,
                    run.syms(),
                    o,
                    j as nat,
                ),
        decreases n - i,
    {
        let ghost prev = run;
        run.do_step();
        let ghost had = fails@;
        let v = run.violated[o.0 as usize];
        fails.push(v);
        proof {
            let m = prev.syms().len();
            assert(walked(*body, prev.syms(), i as nat).reqs.len() == m);
            assert forall|x: int| 0 <= x < m implies #[trigger] prev.syms()[x] == run.syms()[x] by {
                assert(run.syms().take(m as int)[x] == run.syms()[x]);
            }
            lemma_walked_agrees(*body, prev.syms(), run.syms(), i as nat);
            assert(run.at() == walked(*body, run.syms(), (i + 1) as nat));
            assert(run.terms.has_opt(run.violated@[o.0 as int]));
            assert(run.at().violated[o.0 as int] == run.terms.tm_opt(v));
            lemma_opts_kept(run.terms, prev.terms, had);
            assert forall|j: int| 0 <= j < i + 1 implies run.terms.tm_opt(#[trigger] fails@[j])
                == fails_after(*body, run.syms(), o, j as nat) by {
                if j < i {
                    assert(fails@[j] == had[j]);
                    assert(prev.terms.has_opt(had[j]));
                    lemma_walked_grows(*body, prev.syms(), (j + 1) as nat, i as nat);
                    lemma_walked_agrees(*body, prev.syms(), run.syms(), (j + 1) as nat);
                }
            }
        }
        i += 1;
    }
    let ghost done = run;
    let ghost syms = run.syms();
    let mut question = fails[k as usize];
    if let Some(t) = question {
        let mut acc = t;
        let mut i: usize = 0;
        proof {
            done.lemma_follows_self();
            assert(done.terms.has_opt(fails@[k as int]));
        }
        while i < k as usize
            invariant
                i <= k,
                done.ok(),
                run.ok(),
                run.body == body,
                run.frame == frame,
                run.start@ == first,
                run.at() == done.at(),
                run.syms() == syms,
                run.terms.grown_from(done.terms),
                run.terms.has(acc),
                fails@.len() == k + 1,
                opts_in(done.terms, fails@),
                forall|j: int|
                    0 <= j < k ==> done.terms.tm_opt(#[trigger] fails@[j]) == fails_after(
                        *body,
                        syms,
                        o,
                        j as nat,
                    ),
                run.terms.tm(acc) == first_held(*body, syms, o, i as nat, done.terms.tm(t)),
            decreases k - i,
        {
            let ghost prev = run;
            proof {
                assert(done.terms.has_opt(fails@[i as int]));
            }
            if let Some(v) = fails[i] {
                let not = run.terms.not(v);
                acc = run.terms.app2(Op2::And, acc, not);
                proof {
                    run.lemma_follows_built(prev);
                    run.terms.lemma_grown_trans(prev.terms, done.terms);
                }
            }
            i += 1;
        }
        question = Some(acc);
    }
    *terms = run.terms;
    proof {
        assert(inducts(question, *body, frame@, o, k as nat, *terms, first, syms));
    }
    question
}

/// No two fresh symbols of an encoding are the same, and none was there before.
pub proof fn law_symbols_of_an_encoding_are_new(
    e: Encoding,
    body: Body,
    frame: Seq<char>,
    new: Terms,
    old: Terms,
    syms: Seq<Tm>,
    i: int,
    j: int,
)
    requires
        encodes(e, body, frame, new, old, syms),
        0 <= i < syms.len(),
        0 <= j < syms.len(),
        syms[i] == syms[j],
    ensures
        i == j,
        syms[i] matches Tm::FreshBv(pos, _, _) && pos >= old.size(),
{
    assert(syms[i] is FreshBv);
}

} // verus!
