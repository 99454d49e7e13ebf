//! The engine that proves obligations with constrained Horn clauses.
//!
//! Each block becomes a relation over all variables of the method, and each edge
//! a clause. The solver is asked for an interpretation of the relations in which
//! the error state is not derived. Running the solver is the caller's.

use vstd::prelude::*;
use vstd::string::*;

use crate::body_analysis;
use crate::body_analysis::body_uses_havoced_ops;
use crate::engine;
use crate::engine::{Direction, EngineId, ObligationRef, ObligationRefV, Progress, ProofKind};
use crate::ir::{Block, Body, MethodKey, MethodKeyV, ObligationId, Stmt, VarInfo};
use crate::program::Program;
use crate::scan;
use crate::scan::lines_of;
use crate::smt_text;
use crate::smt_text::{
    conjoin, make_edge_facts, make_facts, walk_body, width_of_ty, BitvectorTheory, Clause,
    ClauseList, ClauseSink, ErrorSiteV, FreshPool, PoolV, Recorded, TransitionV,
};
use crate::text;
use crate::text::{chars_of, contains, dec_u64, make_join, numbered, same};

verus! {

/// The sort of bit vectors of the given width.
pub open spec fn bv_sort(w: u32) -> Seq<char> {
    "(_ BitVec "@ + text::dec(w as nat) + ")"@
}

/// A symbol with its sort, as a quantifier binds it.
pub open spec fn bound(name: Seq<char>, w: u32) -> Seq<char> {
    "("@ + name + " "@ + bv_sort(w) + ")"@
}

/// The name of a variable; with a suffix, after an edge.
pub open spec fn var_name(i: nat, suffix: Seq<char>) -> Seq<char> {
    "v"@ + text::dec(i) + suffix
}

/// The sorts of all variables.
pub open spec fn sorts(vars: Seq<VarInfo>) -> Seq<Seq<char>> {
    vars.map_values(|v: VarInfo| bv_sort(smt_text::width(v.ty)))
}

/// The names of all variables.
pub open spec fn names(vars: Seq<VarInfo>, suffix: Seq<char>) -> Seq<Seq<char>> {
    Seq::new(vars.len(), |i: int| var_name(i as nat, suffix))
}

/// The names of all variables with their sorts.
pub open spec fn bounds(vars: Seq<VarInfo>, suffix: Seq<char>) -> Seq<Seq<char>> {
    Seq::new(
        vars.len(),
        |i: int| bound(var_name(i as nat, suffix), smt_text::width(vars[i].ty)),
    )
}

/// The parts with a blank between neighbours.
pub open spec fn spaced(parts: Seq<Seq<char>>) -> Seq<char> {
    text::join_with(parts, " "@)
}

/// The declaration of the relation of a block.
pub open spec fn relation_text(block: Block, vars: Seq<VarInfo>) -> Seq<char> {
    "(declare-fun block_"@ + text::dec(block.id.0 as nat) + " ("@ + spaced(sorts(vars)) + ") Bool)\n"@
}

/// The declarations of the relations of the first `n` blocks.
pub open spec fn relations_text(body: Body, n: nat) -> Seq<char>
    decreases n,
{
    if n == 0 {
        Seq::empty()
    } else {
        relations_text(body, (n - 1) as nat) + relation_text(body.blocks@[n - 1], body.vars@)
    }
}

/// The relation of a block, applied.
pub open spec fn applied(block: nat, args: Seq<char>) -> Seq<char> {
    "(block_"@ + text::dec(block) + " "@ + args + ")"@
}

/// Every variable is unconstrained on entry.
pub open spec fn entry_text(body: Body) -> Seq<char> {
    "(assert (forall ("@ + spaced(bounds(body.vars@, ""@)) + ") "@ + applied(
        body.entry.0 as nat,
        spaced(names(body.vars@, ""@)),
    ) + "))\n"@
}

/// The fresh symbols of a clause with their sorts.
pub open spec fn fresh_bounds(fresh: Seq<(Seq<char>, u32)>) -> Seq<Seq<char>> {
    fresh.map_values(|f: (Seq<char>, u32)| bound(f.0, f.1))
}

/// What a clause quantifies over: the variables, and the fresh symbols that it
/// mentions. A symbol that is not bound would make a solver drop the clause.
pub open spec fn prefix_text(base: Seq<char>, fresh: Seq<(Seq<char>, u32)>) -> Seq<char> {
    if fresh.len() == 0 {
        base
    } else {
        base + " "@ + spaced(fresh_bounds(fresh))
    }
}

/// The clause of an edge. One that leaves the body implies nothing.
pub open spec fn transition_text(vars: Seq<VarInfo>, t: TransitionV) -> Seq<char> {
    match t.to {
        None => Seq::empty(),
        Some(to) => {
            let base = spaced(bounds(vars, ""@) + bounds(vars, "'"@));
            let facts = smt_text::edge_facts(t, "v"@, "'"@).push(
                applied(t.from.0 as nat, spaced(names(vars, ""@))),
            );
            "(assert (forall ("@ + prefix_text(base, t.fresh) + ") (=> "@ + smt_text::conjunction(
                facts,
            ) + " "@ + applied(to.0 as nat, spaced(names(vars, "'"@))) + ")))\n"@
        },
    }
}

/// The clause of an error site.
pub open spec fn error_text(vars: Seq<VarInfo>, e: ErrorSiteV) -> Seq<char> {
    let facts = (e.bindings + e.conds).push(
        applied(e.block.0 as nat, spaced(names(vars, ""@))),
    );
    "(assert (forall ("@ + prefix_text(spaced(bounds(vars, ""@)), e.fresh) + ") (=> "@
        + smt_text::conjunction(facts) + " error)))\n"@
}

/// A clause of the script.
pub open spec fn clause_text(vars: Seq<VarInfo>, c: Clause) -> Seq<char> {
    match c {
        Clause::Transition(t) => transition_text(vars, t),
        Clause::Error(e) => error_text(vars, e),
    }
}

/// The first `n` clauses of the script.
pub open spec fn clauses_text(vars: Seq<VarInfo>, clauses: Seq<Clause>, n: nat) -> Seq<char>
    decreases n,
{
    if n == 0 {
        Seq::empty()
    } else {
        clauses_text(vars, clauses, (n - 1) as nat) + clause_text(vars, clauses[n - 1])
    }
}

/// The symbols of the script before any was handed out.
pub open spec fn chc_pool() -> PoolV {
    PoolV { prefix: "chc_"@, issued: Seq::empty() }
}

/// The script for a body: is there an interpretation of the relations that
/// satisfies all clauses and in which the error state is not derived?
pub open spec fn chc_text(body: Body, obligations: Seq<ObligationId>) -> Seq<char> {
    let clauses = smt_text::walk_clauses(
        &BitvectorTheory,
        body,
        obligations,
        chc_pool(),
        body.blocks@.len(),
    );
    "(set-logic HORN)\n"@ + relations_text(body, body.blocks@.len()) + "(declare-fun error () Bool)\n"@
        + entry_text(body) + clauses_text(body.vars@, clauses, clauses.len())
        + "(assert (not error))\n"@ + "(check-sat)\n"@
}

fn make_sort(w: u32) -> (s: String)
    ensures
        s@ == bv_sort(w),
{
    let mut s = "(_ BitVec ".to_string();
    let d = dec_u64(w as u64);
    s.append(d.as_str());
    s.append(")");
    s
}

fn make_bound(name: &str, w: u32) -> (s: String)
    ensures
        s@ == bound(name@, w),
{
    let mut s = "(".to_string();
    s.append(name);
    s.append(" ");
    let sort = make_sort(w);
    s.append(sort.as_str());
    s.append(")");
    s
}

fn make_name(i: usize, suffix: &str) -> (s: String)
    ensures
        s@ == var_name(i as nat, suffix@),
{
    let mut s = numbered("v", i as u64);
    s.append(suffix);
    s
}

fn make_sorts(vars: &Vec<VarInfo>) -> (r: Vec<String>)
    ensures
        text::views(r@) == sorts(vars@),
{
    let mut r: Vec<String> = Vec::new();
    let mut i: usize = 0;
    while i < vars.len()
        invariant
            i <= vars@.len(),
            r@.len() == i,
            forall|j: int| 0 <= j < i ==> (#[trigger] r@[j])@ == sorts(vars@)[j],
        decreases vars@.len() - i,
    {
        r.push(make_sort(width_of_ty(&vars[i].ty)));
        i += 1;
    }
    proof {
        assert(text::views(r@) =~= sorts(vars@));
    }
    r
}

fn make_names(vars: &Vec<VarInfo>, suffix: &str) -> (s: String)
    ensures
        s@ == spaced(names(vars@, suffix@)),
{
    let mut r: Vec<String> = Vec::new();
    let mut i: usize = 0;
    while i < vars.len()
        invariant
            i <= vars@.len(),
            r@.len() == i,
            forall|j: int| 0 <= j < i ==> (#[trigger] r@[j])@ == names(vars@, suffix@)[j],
        decreases vars@.len() - i,
    {
        r.push(make_name(i, suffix));
        i += 1;
    }
    proof {
        assert(text::views(r@) =~= names(vars@, suffix@));
    }
    make_join(&r, " ")
}

fn push_bounds(r: &mut Vec<String>, vars: &Vec<VarInfo>, suffix: &str)
    ensures
        text::views(final(r)@) == text::views(old(r)@) + bounds(vars@, suffix@),
{
    let ghost before = text::views(r@);
    let mut i: usize = 0;
    proof {
        assert(before + bounds(vars@, suffix@).take(0) =~= before);
    }
    while i < vars.len()
        invariant
            i <= vars@.len(),
            text::views(r@) == before + bounds(vars@, suffix@).take(i as int),
        decreases vars@.len() - i,
    {
        let name = make_name(i, suffix);
        let b = make_bound(name.as_str(), width_of_ty(&vars[i].ty));
        let ghost had = text::views(r@);
        r.push(b);
        proof {
            assert(text::views(r@) =~= had.push(b@));
            assert(bounds(vars@, suffix@).take(i + 1) =~= bounds(vars@, suffix@).take(i as int).push(
                b@,
            ));
        }
        i += 1;
    }
    proof {
        assert(bounds(vars@, suffix@).take(i as int) =~= bounds(vars@, suffix@));
    }
}

fn make_bounds(vars: &Vec<VarInfo>) -> (s: String)
    ensures
        s@ == spaced(bounds(vars@, ""@)),
{
    let mut r: Vec<String> = Vec::new();
    push_bounds(&mut r, vars, "");
    proof {
        assert(text::views(r@) =~= bounds(vars@, ""@));
    }
    make_join(&r, " ")
}

fn make_both_bounds(vars: &Vec<VarInfo>) -> (s: String)
    ensures
        s@ == spaced(bounds(vars@, ""@) + bounds(vars@, "'"@)),
{
    let mut r: Vec<String> = Vec::new();
    push_bounds(&mut r, vars, "");
    push_bounds(&mut r, vars, "'");
    proof {
        assert(text::views(r@) =~= bounds(vars@, ""@) + bounds(vars@, "'"@));
    }
    make_join(&r, " ")
}

fn make_applied(block: u32, args: &str) -> (s: String)
    ensures
        s@ == applied(block as nat, args@),
{
    let mut s = "(block_".to_string();
    let d = dec_u64(block as u64);
    s.append(d.as_str());
    s.append(" ");
    s.append(args);
    s.append(")");
    s
}

/// Turns the edges of a body into Horn clauses.
struct HornSink {
    forall_src: String,
    forall_both: String,
    src_args: String,
    dst_args: String,
}

impl HornSink {
    /// The texts are those of the variables.
    spec fn is_for(self, vars: Seq<VarInfo>) -> bool {
        &&& self.forall_src@ == spaced(bounds(vars, ""@))
        &&& self.forall_both@ == spaced(bounds(vars, ""@) + bounds(vars, "'"@))
        &&& self.src_args@ == spaced(names(vars, ""@))
        &&& self.dst_args@ == spaced(names(vars, "'"@))
    }

    fn new(vars: &Vec<VarInfo>) -> (r: Self)
        ensures
            r.is_for(vars@),
    {
        HornSink {
            forall_src: make_bounds(vars),
            forall_both: make_both_bounds(vars),
            src_args: make_names(vars, ""),
            dst_args: make_names(vars, "'"),
        }
    }

    fn prefix(base: &str, fresh: &Vec<(String, u32)>) -> (s: String)
        ensures
            s@ == prefix_text(base@, smt_text::symbol_views(fresh@)),
    {
        if fresh.len() == 0 {
            return base.to_string();
        }
        let ghost symbols = smt_text::symbol_views(fresh@);
        let mut parts: Vec<String> = Vec::new();
        let mut i: usize = 0;
        while i < fresh.len()
            invariant
                i <= fresh@.len(),
                symbols == smt_text::symbol_views(fresh@),
                parts@.len() == i,
                forall|j: int| 0 <= j < i ==> (#[trigger] parts@[j])@ == fresh_bounds(symbols)[j],
            decreases fresh@.len() - i,
        {
            parts.push(make_bound(fresh[i].0.as_str(), fresh[i].1));
            i += 1;
        }
        proof {
            assert(text::views(parts@) =~= fresh_bounds(symbols));
        }
        let extra = make_join(&parts, " ");
        let mut s = base.to_string();
        s.append(" ");
        s.append(extra.as_str());
        s
    }

    fn line(&self, Ghost(vars): Ghost<Seq<VarInfo>>, c: &Recorded) -> (s: String)
        requires
            self.is_for(vars),
        ensures
            s@ == clause_text(vars, c@),
    {
        match c {
            Recorded::Transition { from, to, conds, var_exprs, bindings, fresh } => {
                let target = match to {
                    None => {
                        return String::new();
                    },
                    Some(t) => t.0,
                };
                let mut facts = make_edge_facts(bindings, conds, var_exprs, "v", "'");
                let ghost had = text::views(facts@);
                let src = make_applied(from.0, self.src_args.as_str());
                facts.push(src);
                proof {
                    assert(text::views(facts@) =~= had.push(src@));
                }
                let mut s = "(assert (forall (".to_string();
                let p = Self::prefix(self.forall_both.as_str(), fresh);
                s.append(p.as_str());
                s.append(") (=> ");
                let all = conjoin(facts.as_slice());
                s.append(all.as_str());
                s.append(" ");
                let dst = make_applied(target, self.dst_args.as_str());
                s.append(dst.as_str());
                s.append(")))\n");
                s
            },
            Recorded::Error { block, obligation: _, conds, bindings, fresh } => {
                let mut facts = make_facts(bindings, conds);
                let ghost had = text::views(facts@);
                let src = make_applied(block.0, self.src_args.as_str());
                facts.push(src);
                proof {
                    assert(text::views(facts@) =~= had.push(src@));
                }
                let mut s = "(assert (forall (".to_string();
                let p = Self::prefix(self.forall_src.as_str(), fresh);
                s.append(p.as_str());
                s.append(") (=> ");
                let all = conjoin(facts.as_slice());
                s.append(all.as_str());
                s.append(" error)))\n");
                s
            },
        }
    }
}

fn make_relations(body: &Body) -> (s: String)
    ensures
        s@ == relations_text(*body, body.blocks@.len()),
{
    let sorts = make_sorts(&body.vars);
    let sig = make_join(&sorts, " ");
    let mut s = String::new();
    let mut i: usize = 0;
    while i < body.blocks.len()
        invariant
            i <= body.blocks@.len(),
            sig@ == spaced(self::sorts(body.vars@)),
            s@ == relations_text(*body, i as nat),
        decreases body.blocks@.len() - i,
    {
        let mut line = "(declare-fun block_".to_string();
        let d = dec_u64(body.blocks[i].id.0 as u64);
        line.append(d.as_str());
        line.append(" (");
        line.append(sig.as_str());
        line.append(") Bool)\n");
        s.append(line.as_str());
        i += 1;
    }
    s
}

/// The script for a body.
pub fn encode_chc(body: &Body, obligations: &[ObligationId]) -> (s: String)
    requires
        body.well_formed(),
    ensures
        s@ == chc_text(*body, obligations@),
{
    let mut fresh = FreshPool::new("chc_");
    let mut list = ClauseList { clauses: Vec::new() };
    proof {
        lemma_bits_write_all(*body, obligations@);
    }
    walk_body(body, &BitvectorTheory, obligations, &mut fresh, &mut list);
    let ghost clauses = list.seen();
    proof {
        assert(clauses =~= smt_text::walk_clauses(
            &BitvectorTheory,
            *body,
            obligations@,
            chc_pool(),
            body.blocks@.len(),
        ));
    }
    let sink = HornSink::new(&body.vars);
    let mut rules = String::new();
    let mut i: usize = 0;
    while i < list.clauses.len()
        invariant
            i <= list.clauses@.len(),
            clauses == list.seen(),
            sink.is_for(body.vars@),
            rules@ == clauses_text(body.vars@, clauses, i as nat),
        decreases list.clauses@.len() - i,
    {
        let line = sink.line(Ghost(body.vars@), &list.clauses[i]);
        rules.append(line.as_str());
        i += 1;
    }
    let mut entry = "(assert (forall (".to_string();
    entry.append(sink.forall_src.as_str());
    entry.append(") ");
    let start = make_applied(body.entry.0, sink.src_args.as_str());
    entry.append(start.as_str());
    entry.append("))\n");

    let mut out = "(set-logic HORN)\n".to_string();
    let relations = make_relations(body);
    out.append(relations.as_str());
    out.append("(declare-fun error () Bool)\n");
    out.append(entry.as_str());
    out.append(rules.as_str());
    out.append("(assert (not error))\n");
    out.append("(check-sat)\n");
    out
}

proof fn lemma_bits_write_all(body: Body, obligations: Seq<ObligationId>)
    ensures
        smt_text::body_writable(&BitvectorTheory, body, obligations),
{
}

/// What a Horn solver said.
#[derive(Clone, Copy, PartialEq, Eq, Structural, Debug)]
pub enum ChcAnswer {
    /// There is an interpretation in which the error state is not derived: the
    /// program is safe.
    Safe,
    /// The error state is derived.
    Unsafe,
    /// Anything else.
    NoAnswer,
}

/// The last of the first `n` lines that is not blank, without the white space
/// around it.
pub open spec fn last_line(lines: Seq<Seq<char>>, n: nat) -> Option<Seq<char>>
    decreases n,
{
    if n == 0 {
        None
    } else if lines[n - 1].len() > 0 {
        Some(lines[n - 1])
    } else {
        last_line(lines, (n - 1) as nat)
    }
}

/// What the output of a Horn solver means. The script asks for an interpretation,
/// so `sat` means safe. An error voids the answer: the solver dropped a clause,
/// which makes the rest easier to satisfy.
pub open spec fn chc_answer(stdout: Seq<char>) -> ChcAnswer {
    let lines = scan::trimmed_lines(stdout);
    if text::holds_part(stdout, "(error"@) {
        ChcAnswer::NoAnswer
    } else if last_line(lines, lines.len()) == Some("sat"@) {
        ChcAnswer::Safe
    } else if last_line(lines, lines.len()) == Some("unsat"@) {
        ChcAnswer::Unsafe
    } else {
        ChcAnswer::NoAnswer
    }
}

/// What the output of a Horn solver means.
pub fn parse_chc_answer(stdout: &str) -> (r: ChcAnswer)
    ensures
        r == chc_answer(stdout@),
{
    if contains(stdout, "(error") {
        return ChcAnswer::NoAnswer;
    }
    proof {
        reveal_strlit("sat");
        reveal_strlit("unsat");
        assert("sat"@.len() != "unsat"@.len());
    }
    let lines = lines_of(&chars_of(stdout));
    let ghost all = scan::trimmed_lines(stdout@);
    let mut i: usize = lines.len();
    while i > 0
        invariant
            i <= lines@.len(),
            all == scan::trimmed_lines(stdout@),
            all == scan::char_views(lines@),
            "sat"@ != "unsat"@,
            last_line(all, all.len()) == last_line(all, i as nat),
            !text::holds_part(stdout@, "(error"@),
        decreases i,
    {
        proof {
            assert(all[i - 1] == lines@[i - 1]@);
        }
        if lines[i - 1].len() > 0 {
            let line = scan::to_text(&lines[i - 1]);
            return if same(line.as_str(), "sat") {
                ChcAnswer::Safe
            } else if same(line.as_str(), "unsat") {
                ChcAnswer::Unsafe
            } else {
                ChcAnswer::NoAnswer
            };
        }
        i -= 1;
    }
    ChcAnswer::NoAnswer
}

/// Proves obligations of the entry method with Horn clauses.
#[derive(Debug)]
pub struct ChcEngine {
    /// The program that solves Horn clauses.
    pub solver_binary: String,
    pub done: bool,
}

/// What a step begins with.
#[derive(Debug)]
pub enum ChcStart {
    /// There is nothing to do.
    End(Progress),
    /// Have the script solved; it is about these obligations.
    Solve { script: String, obligations: Vec<ObligationId> },
}

/// The ids of the obligations of a method, in order.
pub open spec fn ids_in(open: Seq<ObligationRef>, method: MethodKeyV) -> Seq<ObligationId>
    decreases open.len(),
{
    if open.len() == 0 {
        Seq::empty()
    } else if open.last().method@ == method {
        ids_in(open.drop_last(), method).push(open.last().id)
    } else {
        ids_in(open.drop_last(), method)
    }
}

/// The ids of the obligations of a method, in order.
pub fn ids_of_method(open: &Vec<ObligationRef>, method: &MethodKey) -> (r: Vec<ObligationId>)
    ensures
        r@ == ids_in(open@, method@),
{
    let mut r: Vec<ObligationId> = Vec::new();
    let mut i: usize = 0;
    while i < open.len()
        invariant
            i <= open@.len(),
            r@ == ids_in(open@.take(i as int), method@),
        decreases open@.len() - i,
    {
        proof {
            assert(open@.take(i + 1).drop_last() =~= open@.take(i as int));
        }
        if open[i].method.same_as(method) {
            r.push(open[i].id);
        }
        i += 1;
    }
    proof {
        assert(open@.take(i as int) =~= open@);
    }
    r
}

/// The body that a step is about: that of the entry method.
pub open spec fn entry_body(prog: Program) -> Option<Body> {
    match prog.entry {
        Some(e) => prog.body_of(e@),
        None => None,
    }
}

/// The references of obligations of a method.
pub open spec fn refs_to(method: MethodKeyV, ids: Seq<ObligationId>) -> Seq<ObligationRefV> {
    ids.map_values(|id: ObligationId| ObligationRefV { method, id })
}

impl ChcEngine {
    /// An engine that uses the given solver.
    pub fn new(solver_binary: &str) -> (r: Self)
        ensures
            r.solver_binary@ == solver_binary@,
            !r.done,
    {
        ChcEngine { solver_binary: solver_binary.to_string(), done: false }
    }

    pub fn id(&self) -> (r: EngineId)
        ensures
            (r.0)@ == "chc"@,
    {
        EngineId("chc")
    }

    pub fn direction(&self) -> (d: Direction)
        ensures
            d == Direction::Over,
    {
        Direction::Over
    }

    /// How this engine discharges an obligation.
    pub fn proof_kind(&self) -> (r: ProofKind)
        ensures
            r == ProofKind::Exhaustive,
    {
        ProofKind::Exhaustive
    }

    /// Begin a step with the obligations that are open. A method with operations
    /// that the script says nothing about, or that is not lifted to its end, is
    /// left alone.
    pub fn begin(&mut self, prog: &Program, open: &Vec<ObligationRef>) -> (r: ChcStart)
        requires
            prog.well_formed(),
        ensures
            final(self).done,
            final(self).solver_binary == old(self).solver_binary,
            ({
                let idle = old(self).done || open@.len() == 0 || entry_body(*prog) is None;
                let body = entry_body(*prog)->0;
                let unfit = !body.fully_lifted() || body_analysis::some_stmt(
                    body,
                    |s: Stmt| body_analysis::havocs(s),
                );
                let ids = ids_in(open@, (prog.entry->0)@);
                &&& r is Solve <==> !idle && !unfit && ids.len() > 0
                &&& match r {
                    ChcStart::End(p) => {
                        &&& p != Progress::Advanced
                        &&& p == Progress::Exhausted <==> idle || (!unfit && ids.len() == 0)
                        &&& p == Progress::Stalled <==> !idle && unfit
                    },
                    ChcStart::Solve { script, obligations } => {
                        &&& obligations@ == ids
                        &&& script@ == chc_text(body, ids)
                    },
                }
            }),
    {
        if self.done {
            return ChcStart::End(Progress::Exhausted);
        }
        self.done = true;
        if open.len() == 0 {
            return ChcStart::End(Progress::Exhausted);
        }
        let entry = match &prog.entry {
            Some(e) => e,
            None => {
                return ChcStart::End(Progress::Exhausted);
            },
        };
        let body = match prog.body(entry) {
            Some(b) => b,
            None => {
                return ChcStart::End(Progress::Exhausted);
            },
        };
        if !body.is_fully_lifted() {
            return ChcStart::End(Progress::Stalled);
        }
        if body_uses_havoced_ops(body) {
            return ChcStart::End(Progress::Stalled);
        }
        let obligations = ids_of_method(open, entry);
        if obligations.len() == 0 {
            return ChcStart::End(Progress::Exhausted);
        }
        let script = encode_chc(body, obligations.as_slice());
        ChcStart::Solve { script, obligations }
    }

    /// Finish a step with what the solver said: the obligations to be discharged.
    /// One error state stands for all of them, so it is all or none.
    pub fn finish(&self, method: &MethodKey, obligations: &Vec<ObligationId>, stdout: &str) -> (r: Vec<
        ObligationRef,
    >)
        ensures
            engine::ref_views(r@) == if chc_answer(stdout@) == ChcAnswer::Safe {
                refs_to(method@, obligations@)
            } else {
                Seq::empty()
            },
    {
        let mut r: Vec<ObligationRef> = Vec::new();
        if parse_chc_answer(stdout) == ChcAnswer::Safe {
            let mut i: usize = 0;
            while i < obligations.len()
                invariant
                    i <= obligations@.len(),
                    r@.len() == i,
                    forall|j: int|
                        0 <= j < i ==> (#[trigger] r@[j])@ == refs_to(method@, obligations@)[j],
                decreases obligations@.len() - i,
            {
                r.push(ObligationRef { method: method.clone(), id: obligations[i] });
                i += 1;
            }
            proof {
                assert(engine::ref_views(r@) =~= refs_to(method@, obligations@));
            }
        } else {
            proof {
                assert(engine::ref_views(r@) =~= Seq::empty());
            }
        }
        r
    }
}

/// An error in the output, wherever it stands, leaves no answer; nothing is
/// discharged unless the last line says `sat`.
pub proof fn law_only_a_clean_sat_discharges(stdout: Seq<char>)
    ensures
        text::holds_part(stdout, "(error"@) ==> chc_answer(stdout) == ChcAnswer::NoAnswer,
        chc_answer(stdout) == ChcAnswer::Safe ==> last_line(
            scan::trimmed_lines(stdout),
            scan::trimmed_lines(stdout).len(),
        ) == Some("sat"@),
{
}

/// Every symbol that a clause of a body mentions as fresh is bound by the
/// quantifier of that clause.
pub proof fn law_fresh_symbols_are_bound(base: Seq<char>, fresh: Seq<(Seq<char>, u32)>, i: int)
    requires
        0 <= i < fresh.len(),
    ensures
        prefix_text(base, fresh) == base + " "@ + spaced(fresh_bounds(fresh)),
        fresh_bounds(fresh)[i] == bound(fresh[i].0, fresh[i].1),
        text::holds_part(prefix_text(base, fresh), bound(fresh[i].0, fresh[i].1)),
{
    let b = fresh_bounds(fresh);
    lemma_joined_holds(b, i);
    let w = spaced(b);
    let head = base + " "@;
    let k = choose|k: int| 0 <= k && k + b[i].len() <= w.len() && #[trigger] w.subrange(k, k + b[i].len()) == b[i];
    let whole = prefix_text(base, fresh);
    assert(whole == head + w);
    assert(whole.subrange(head.len() + k, head.len() + k + b[i].len()) =~= w.subrange(
        k,
        k + b[i].len(),
    ));
}

proof fn lemma_joined_holds(parts: Seq<Seq<char>>, i: int)
    requires
        0 <= i < parts.len(),
    ensures
        text::holds_part(spaced(parts), parts[i]),
    decreases parts.len(),
{
    let w = spaced(parts);
    if parts.len() == 1 {
        let k: int = 0;
        assert(w.subrange(k, k + parts[0].len()) =~= parts[0]);
    } else if i == parts.len() - 1 {
        let k = w.len() - parts[i].len();
        assert(w.subrange(k, k + parts[i].len()) =~= parts[i]);
    } else {
        lemma_joined_holds(parts.drop_last(), i);
        let v = spaced(parts.drop_last());
        let k = choose|k: int| 0 <= k && k + parts[i].len() <= v.len() && #[trigger] v.subrange(k, k + parts[i].len()) == parts[i];
        assert(w.subrange(k, k + parts[i].len()) =~= v.subrange(k, k + parts[i].len()));
    }
}

} // verus!
