//! Following the paths of a program.

use vstd::prelude::*;
use vstd::string::*;

use super::effects::Assigned;
use super::encode::zero_constraint;
use super::explore;
use super::explore::{
    lemma_extends_push, lemma_extends_refl, lemma_extends_trans, lemma_rvalue_step, Explorer,
    Findings, SatResult, Solver, MAX_LOOP_UNROLL,
};
use super::frames::{place_args, Args, Locals};
use super::heap;
use super::math_encode;
use super::math_encode::{arity, find_case};
use super::merge::copy_items;
use super::rvalue::{can_inline, MAX_CALL_DEPTH};
use super::runs;
use super::runs::Arms;
use super::rvalue;
use super::state;
use super::state::{width_of_ty, Encoder, LoopKey, State};
use crate::ir;
use crate::ir::{BlockId, Body, MethodKey, Operand, Rvalue, Stmt, Terminator, Ty, VarId};
use crate::program;
use crate::term;
use crate::term::{Term, Terms, Tm};

verus! {

/// What two arms of a fork return: joined where both were explored and return a
/// value, else that of the arm that was explored, else what was there before.
pub open spec fn returns_joined(
    ts: Terms,
    cond: Tm,
    then_done: bool,
    else_done: bool,
    a: Option<Term>,
    b: Option<Term>,
    before: Option<Term>,
    r: Option<Term>,
) -> bool {
    if then_done && else_done {
        if a is Some && b is Some {
            super::merge::joins(ts, cond, a, b, r)
        } else {
            r == before
        }
    } else if then_done {
        r == super::merge::or_else(a, before)
    } else if else_done {
        r == super::merge::or_else(b, before)
    } else {
        r == before
    }
}

/// Whether what two arms of a fork return is tainted.
pub open spec fn returns_tainted(
    then_done: bool,
    else_done: bool,
    a: Option<Term>,
    b: Option<Term>,
    a_tainted: bool,
    b_tainted: bool,
    before: bool,
) -> bool {
    if then_done && else_done {
        if a is Some && b is Some {
            a_tainted || b_tainted
        } else {
            before
        }
    } else if then_done {
        a_tainted
    } else if else_done {
        b_tainted
    } else {
        before
    }
}

fn join_returns(
    ts: &mut Terms,
    cond: Term,
    then_done: bool,
    else_done: bool,
    a: Option<Term>,
    b: Option<Term>,
    before: Option<Term>,
) -> (r: Option<Term>)
    requires
        old(ts).well_formed(),
        old(ts).has(cond),
        old(ts).has_opt(a),
        old(ts).has_opt(b),
        old(ts).has_opt(before),
    ensures
        final(ts).built_from(*old(ts)),
        final(ts).has_opt(r),
        returns_joined(
            *final(ts),
            old(ts).tm(cond),
            then_done,
            else_done,
            a,
            b,
            before,
            r,
        ),
{
    if then_done && else_done {
        match (a, b) {
            (Some(x), Some(y)) => {
                if x != y {
                    Some(ts.ite(cond, x, y))
                } else {
                    Some(x)
                }
            },
            _ => before,
        }
    } else if then_done {
        match a {
            Some(x) => Some(x),
            None => before,
        }
    } else if else_done {
        match b {
            Some(x) => Some(x),
            None => before,
        }
    } else {
        before
    }
}

fn tainted_returns(
    then_done: bool,
    else_done: bool,
    a: Option<Term>,
    b: Option<Term>,
    a_tainted: bool,
    b_tainted: bool,
    before: bool,
) -> (r: bool)
    ensures
        r == returns_tainted(then_done, else_done, a, b, a_tainted, b_tainted, before),
{
    if then_done && else_done {
        if a.is_some() && b.is_some() {
            a_tainted || b_tainted
        } else {
            before
        }
    } else if then_done {
        a_tainted
    } else if else_done {
        b_tainted
    } else {
        before
    }
}

/// The number after `n`, as long as there is one.
pub open spec fn counted(n: u32) -> u32 {
    if n < u32::MAX {
        (n + 1) as u32
    } else {
        n
    }
}

impl<'a, S: Solver> Explorer<'a, S> {
    /// Go back to a saved state and to the first `n` conditions of the path.
    pub fn restore_state(&mut self, s: State, n: usize)
        requires
            old(self).ok(),
            s.fits(old(self).enc.body.vars@.len(), old(self).enc.terms),
            n <= old(self).path@.len(),
        ensures
            final(self).ok(),
            *final(self) == (Explorer {
                enc: Encoder { st: s, ..old(self).enc },
                path: final(self).path,
                ..*old(self)
            }),
            final(self).path@ == old(self).path@.take(n as int),
    {
        self.enc.st = s;
        self.path.truncate(n);
        proof {
            assert forall|i: int| 0 <= i < self.path@.len() implies self.enc.terms.has(
                #[trigger] self.path@[i],
            ) by {
                assert(old(self).enc.terms.has(old(self).path@[i]));
            }
        }
    }

    /// Having gone back counts as having explored from `base`.
    proof fn lemma_restored(self, mid: Self, base: Self)
        requires
            self.ok(),
            mid.after(base),
            self == (Explorer {
                enc: Encoder { st: self.enc.st, ..mid.enc },
                path: self.path,
                ..mid
            }),
            self.path@ == mid.path@.take(base.path@.len() as int),
            extends_nondets(self.enc.st, base.enc.st),
        ensures
            self.after(base),
            self.path@ == base.path@,
    {
        lemma_extends_refl(base.path@);
    }

    /// Count a visit of a block.
    fn count_visit(&mut self)
        requires
            old(self).ok(),
        ensures
            final(self).ok(),
            final(self).after(*old(self)),
            final(self).same_place(*old(self)),
            *final(self) == old(self).visited(),
    {
        proof {
            self.lemma_after_refl();
        }
        if self.effort.block_visits < u64::MAX {
            self.effort.block_visits = self.effort.block_visits + 1;
        }
    }

    /// Count a fork of the path.
    fn count_fork(&mut self)
        requires
            old(self).ok(),
        ensures
            final(self).ok(),
            final(self).after(*old(self)),
            final(self).same_place(*old(self)),
            *final(self) == old(self).fork_counted(),
    {
        proof {
            self.lemma_after_refl();
        }
        if self.effort.fork_count < u32::MAX {
            self.effort.fork_count = self.effort.fork_count + 1;
        }
    }

    /// Record that a path was cut short.
    fn cut_short(&mut self)
        requires
            old(self).ok(),
        ensures
            final(self).ok(),
            final(self).after(*old(self)),
            final(self).same_place(*old(self)),
            *final(self) == old(self).shortened(),
    {
        proof {
            self.lemma_after_refl();
        }
        self.found.all_paths_complete = false;
    }

    /// Record that a call was not resolved, in a block that has exception
    /// handlers or not.
    fn leave_unresolved(&mut self, guarded: bool)
        requires
            old(self).ok(),
        ensures
            final(self).ok(),
            final(self).after(*old(self)),
            final(self).same_place(*old(self)),
            *final(self) == old(self).left_unresolved(guarded),
    {
        proof {
            self.lemma_after_refl();
        }
        self.found.all_calls_resolved = false;
        if guarded {
            self.found.has_unresolved_in_try = true;
        }
    }

    /// Count another entry of a loop. Returns whether it may be entered.
    fn enter_loop(&mut self, target: BlockId) -> (go_on: bool)
        requires
            old(self).ok(),
        ensures
            final(self).ok(),
            final(self).after(*old(self)),
            final(self).same_place(*old(self)),
            final(self).loop_entered(*old(self), target, go_on),
    {
        proof {
            self.lemma_after_refl();
        }
        let key = LoopKey { method: self.enc.body.key.clone(), block: target.0 };
        let before: u32 = match self.enc.st.loop_visits.get(&key) {
            Some(n) => n,
            None => 0,
        };
        let n: u32 = if before < u32::MAX {
            before + 1
        } else {
            before
        };
        self.enc.st.loop_visits.insert(key, n);
        proof {
            reveal(State::fits);
        }
        n <= MAX_LOOP_UNROLL
    }
}

/// The inputs met only grew.
pub open spec fn extends_nondets(new: State, old: State) -> bool {
    explore::extends(new.nondet_terms@, old.nondet_terms@)
}

impl<'a, S: Solver> Explorer<'a, S> {
    /// What is known of the arguments of a call.
    fn encode_args(&mut self, args: &Vec<Operand>) -> (r: Args)
        requires
            old(self).ok(),
            ir::operands_in_range(args@, old(self).enc.body.vars@.len()),
        ensures
            final(self).ok(),
            final(self).after(*old(self)),
            final(self).same_place(*old(self)),
            final(self).args_read(*old(self), args@, r),
    {
        let mut terms: Vec<Term> = Vec::new();
        let mut texts: Vec<Option<Term>> = Vec::new();
        let mut tainted: Vec<bool> = Vec::new();
        proof {
            self.enc.lemma_built_settles(self.enc);
        }
        let mut i: usize = 0;
        while i < args.len()
            invariant
                i <= args@.len(),
                old(self).ok(),
                *self == (Explorer { enc: self.enc, ..*old(self) }),
                self.enc.settled_from(old(self).enc),
                ir::operands_in_range(args@, old(self).enc.body.vars@.len()),
                terms@.len() == i,
                texts@.len() == i,
                tainted@.len() == i,
                explore::terms_in(self.enc.terms, terms@),
                state::vars_in(self.enc.terms, texts@),
                forall|j: int|
                    0 <= j < i ==> {
                        &&& self.enc.knows(args@[j])
                        &&& self.enc.terms.tm(#[trigger] terms@[j]) == self.enc.operand_tm(args@[j])
                        &&& self.enc.terms.tm_opt(texts@[j]) == old(self).enc.str_tm(args@[j])
                        &&& tainted@[j] == old(self).enc.is_tainted(args@[j])
                    },
            decreases args@.len() - i,
        {
            let ghost mid = self.enc;
            let ghost t0 = terms@;
            let ghost x0 = texts@;
            proof {
                assert(args@[i as int].in_range(self.enc.body.vars@.len()));
            }
            let t = self.enc.encode_operand(&args[i]);
            let ghost settled = self.enc;
            let x = self.enc.encode_str_operand(&args[i]);
            let bad = self.enc.operand_tainted(&args[i]);
            let ghost b0 = tainted@;
            terms.push(t);
            texts.push(x);
            tainted.push(bad);
            proof {
                self.enc.lemma_settled_trans(settled, mid);
                self.enc.lemma_settled_trans(mid, old(self).enc);
                settled.lemma_text_kept(mid, args@[i as int]);
                mid.lemma_text_kept(old(self).enc, args@[i as int]);
                self.enc.lemma_operand_stable(settled, args@[i as int]);
                assert forall|j: int| 0 <= j < i + 1 implies {
                    &&& self.enc.knows(args@[j])
                    &&& self.enc.terms.tm(#[trigger] terms@[j]) == self.enc.operand_tm(args@[j])
                    &&& self.enc.terms.tm_opt(texts@[j]) == old(self).enc.str_tm(args@[j])
                    &&& tainted@[j] == old(self).enc.is_tainted(args@[j])
                } by {
                    if j < i {
                        assert(terms@[j] == t0[j] && texts@[j] == x0[j] && tainted@[j] == b0[j]);
                        assert(args@[j].in_range(self.enc.body.vars@.len()));
                        assert(mid.terms.has(t0[j]));
                        assert(mid.terms.has_opt(x0[j]));
                        self.enc.lemma_operand_stable(mid, args@[j]);
                    }
                }
                assert forall|j: int| 0 <= j < terms@.len() implies self.enc.terms.has(
                    #[trigger] terms@[j],
                ) by {
                    if j < i {
                        assert(mid.terms.has(t0[j]));
                    }
                }
                assert forall|j: int| 0 <= j < texts@.len() implies self.enc.terms.has_opt(
                    #[trigger] texts@[j],
                ) by {
                    if j < i {
                        assert(mid.terms.has_opt(x0[j]));
                    }
                }
            }
            i += 1;
        }
        proof {
            self.enc.terms.lemma_built_grows(old(self).enc.terms);
            lemma_extends_refl(self.enc.st.nondet_terms@);
            self.lemma_enc_step(*old(self));
        }
        Args { terms, texts, tainted }
    }

    /// Run the initialiser of a class, once, if it has a body.
    fn ensure_clinit(&mut self, class: &String)
        requires
            old(self).ok(),
        ensures
            final(self).ok(),
            final(self).after(*old(self)),
            final(self).same_place(*old(self)),
            program::listed(final(self).clinit_done@, class@),
            final(self).initialised(*old(self), class@),
        decreases
            MAX_CALL_DEPTH - old(self).call_depth,
            old(self).max_depth + 2 - old(self).depth,
            2int,
    {
        proof {
            self.lemma_after_refl();
        }
        if program::in_list(&self.clinit_done, class.as_str()) {
            return;
        }
        self.clinit_done.push(class.clone());
        let ghost marked = *self;
        proof {
            lemma_extends_push(old(self).clinit_done@, self.clinit_done@.last());
            assert(self.clinit_done@[old(self).clinit_done@.len() as int]@ == class@);
            assert(marked.after(*old(self)));
            assert(program::listed(marked.clinit_done@, class@));
            assert(marked.marked(*old(self), class@));
        }
        let key = MethodKey {
            class: class.clone(),
            name: "<clinit>".to_string(),
            desc: "()V".to_string(),
        };
        let prog = self.enc.prog;
        let callee = match prog.body(&key) {
            Some(b) => b,
            None => {
                proof {
                    assert(key@ == runs::clinit_of(class@));
                }
                return;
            },
        };
        if self.call_depth >= MAX_CALL_DEPTH || !self.budget_left() {
            return;
        }
        let body = self.enc.body;
        let depth = self.call_depth;
        let saved = self.save_locals();
        let path_tainted = self.enc.st.path_tainted;
        let n = self.path.len();
        self.switch_to(callee, Locals::unknown(callee.vars.len()), depth + 1);
        let ghost inside = *self;
        proof {
            assert(key@ == runs::clinit_of(class@));
            assert(marked.enc.prog.body_of(runs::clinit_of(class@)) == Some(*callee));
            assert(inside.entered(marked, *callee));
            assert(runs::at_start(inside.enc.st, *callee));
        }
        self.explore_block_until(callee.entry, 0, None);
        let ghost done = *self;
        proof {
            assert(done.stays(inside));
            done.lemma_after_trans(inside, marked);
            lemma_locals_grown(saved, body.vars@.len(), marked.enc.terms, done.enc.terms);
        }
        self.switch_to(body, saved, depth);
        let ghost back = *self;
        self.enc.st.path_tainted = path_tainted;
        self.path.truncate(n);
        proof {
            back.lemma_after_trans(done, marked);
            lemma_listed_kept(marked.clinit_done@, self.clinit_done@, class@);
            self.lemma_cut_back(back, marked);
            self.lemma_after_trans(marked, *old(self));
            assert(self.left(done, marked, marked.enc.st.path_tainted));
            assert(self.initialiser_run(marked, *callee));
        }
    }

    /// Dropping the conditions that were added, and setting the taint.
    proof fn lemma_cut_back(self, mid: Self, base: Self)
        requires
            base.ok(),
            mid.ok(),
            mid.after(base),
            self == (Explorer {
                enc: Encoder {
                    st: State { path_tainted: self.enc.st.path_tainted, ..mid.enc.st },
                    ..mid.enc
                },
                path: self.path,
                ..mid
            }),
            self.path@ == mid.path@.take(base.path@.len() as int),
        ensures
            self.ok(),
            self.after(base),
            self.same_place(mid),
    {
        reveal(State::fits);
        lemma_extends_refl(base.path@);
        assert forall|i: int| 0 <= i < self.path@.len() implies self.enc.terms.has(
            #[trigger] self.path@[i],
        ) by {
            assert(mid.enc.terms.has(mid.path@[i]));
        }
    }

    /// Explore the body of a call, and come back. Returns whether what it returns
    /// is tainted. A path that was tainted inside stays so.
    fn run_callee(&mut self, callee: &'a Body, args: &Args) -> (tainted: bool)
        requires
            old(self).ok(),
            old(self).call_depth < MAX_CALL_DEPTH,
            old(self).enc.prog.body_of(callee.key@) == Some(*callee),
            callee.well_formed(),
            args.fits(old(self).enc.terms),
        ensures
            final(self).ok(),
            final(self).after(*old(self)),
            final(self).same_place(*old(self)),
            final(self).path@ == old(self).path@,
            final(self).enc.st.vars@ == old(self).enc.st.vars@,
            final(self).enc.st.str_vars@ == old(self).enc.st.str_vars@,
            tainted == final(self).ret_tainted,
            final(self).called(*old(self), *callee, *args),
        decreases
            MAX_CALL_DEPTH - old(self).call_depth,
            old(self).max_depth + 2 - old(self).depth,
            1int,
    {
        let body = self.enc.body;
        let depth = self.call_depth;
        let n = self.path.len();
        let saved = self.save_locals();
        let path_tainted = self.enc.st.path_tainted;
        let locals = place_args(&callee.vars, args, &self.enc.terms);
        self.switch_to(callee, locals, depth + 1);
        self.ret = None;
        self.ret_tainted = false;
        let ghost inside = *self;
        proof {
            lemma_placed(locals, inside.enc.st, *callee, *args);
            assert(inside.entered(*old(self), *callee));
        }
        self.explore_block_until(callee.entry, 0, None);
        let ghost done = *self;
        let callee_tainted = self.enc.st.path_tainted;
        proof {
            done.lemma_after_trans(inside, *old(self));
            lemma_locals_grown(saved, body.vars@.len(), old(self).enc.terms, done.enc.terms);
        }
        self.switch_to(body, saved, depth);
        let ghost back = *self;
        self.enc.st.path_tainted = path_tainted || callee_tainted;
        self.path.truncate(n);
        proof {
            back.lemma_after_trans(done, *old(self));
            self.lemma_cut_back(back, *old(self));
            assert(self.path@ =~= old(self).path@);
            assert(done.stays(inside));
            assert(self.left(
                done,
                *old(self),
                old(self).enc.st.path_tainted || done.enc.st.path_tainted,
            ));
        }
        self.ret_tainted
    }

    /// Give a variable what the call returned: an unknown, tainted value if it
    /// returned none.
    fn take_result(&mut self, name: &String, dest: VarId, tainted: bool)
        requires
            old(self).ok(),
            dest.0 < old(self).enc.body.vars@.len(),
        ensures
            final(self).ok(),
            final(self).after(*old(self)),
            final(self).same_place(*old(self)),
            final(self).result_taken(*old(self), name@, dest, tainted),
    {
        let w = width_of_ty(&self.enc.body.var(dest).ty);
        let value = match self.ret {
            Some(t) => {
                proof {
                    self.lemma_after_refl();
                }
                t
            },
            None => {
                let mut full = "ret_".to_string();
                full.append(name.as_str());
                let t = self.enc.terms.fresh_bv(full.as_str(), w);
                proof {
                    self.enc.lemma_built_settles(old(self).enc);
                    self.enc.terms.lemma_built_grows(old(self).enc.terms);
                    lemma_extends_refl(self.enc.st.nondet_terms@);
                    self.lemma_enc_step(*old(self));
                }
                t
            },
        };
        let ghost named = *self;
        proof {
            self.enc.st.lemma_fits(self.enc.body.vars@.len(), self.enc.terms);
        }
        let v = dest.0 as usize;
        self.enc.st.vars.set(v, Some(value));
        if tainted || self.ret.is_none() {
            self.enc.st.tainted.set(v, true);
        }
        proof {
            lemma_var_set(*self, named, v as int, value);
            self.lemma_after_trans(named, *old(self));
            assert(self.enc.st.vars@ =~= old(self).enc.st.vars@.update(
                v as int,
                self.enc.st.vars@[v as int],
            ));
        }
    }

    /// Record that the bodies of methods were explored.
    fn note_inlined(&mut self, targets: &Vec<MethodKey>)
        requires
            old(self).ok(),
        ensures
            final(self).ok(),
            final(self).after(*old(self)),
            final(self).same_place(*old(self)),
            final(self).inlined_noted(*old(self), program::method_views(targets@)),
    {
        proof {
            self.lemma_after_refl();
            assert(program::method_views(self.found.inlined@) =~= program::method_views(
                self.found.inlined@,
            ) + program::method_views(targets@.take(0)));
        }
        let mut i: usize = 0;
        while i < targets.len()
            invariant
                i <= targets@.len(),
                self.ok(),
                self.after(*old(self)),
                *self == (Explorer {
                    found: Findings { inlined: self.found.inlined, ..old(self).found },
                    ..*old(self)
                }),
                program::method_views(self.found.inlined@) == program::method_views(
                    old(self).found.inlined@,
                ) + program::method_views(targets@.take(i as int)),
            decreases targets@.len() - i,
        {
            let ghost before = self.found.inlined@;
            self.found.inlined.push(targets[i].clone());
            proof {
                lemma_extends_push(before, self.found.inlined@.last());
                lemma_extends_trans(self.found.inlined@, before, old(self).found.inlined@);
                assert(program::method_views(self.found.inlined@) =~= program::method_views(
                    before,
                ).push(targets@[i as int]@));
                assert(program::method_views(targets@.take(i + 1)) =~= program::method_views(
                    targets@.take(i as int),
                ).push(targets@[i as int]@));
                assert(program::method_views(self.found.inlined@) =~= program::method_views(
                    old(self).found.inlined@,
                ) + program::method_views(targets@.take(i + 1)));
            }
            i += 1;
        }
        proof {
            assert(targets@.take(i as int) =~= targets@);
        }
    }

    /// Follow a call into the bodies it can reach. Returns whether that was
    /// possible; if it was, the variable holds what they return.
    fn try_inline_call(
        &mut self,
        target: &MethodKey,
        args: &Vec<Operand>,
        dest: VarId,
        is_virtual: bool,
    ) -> (done: bool)
        requires
            old(self).ok(),
            dest.0 < old(self).enc.body.vars@.len(),
            ir::operands_in_range(args@, old(self).enc.body.vars@.len()),
        ensures
            final(self).ok(),
            final(self).after(*old(self)),
            final(self).same_place(*old(self)),
            done == (old(self).has_budget() && rvalue::inlinable(
                *old(self).enc.prog,
                old(self).call_depth,
                target@,
                is_virtual,
            )),
            !done ==> *final(self) == *old(self),
            done ==> final(self).inlined(*old(self), *target, args@, dest, is_virtual),
        decreases
            MAX_CALL_DEPTH - old(self).call_depth,
            old(self).max_depth + 2 - old(self).depth,
            2int,
    {
        proof {
            self.lemma_after_refl();
        }
        if !self.budget_left() || !can_inline(self.enc.prog, self.call_depth, target, is_virtual) {
            return false;
        }
        let prog = self.enc.prog;
        let targets = if is_virtual {
            prog.devirtualise(target)
        } else {
            let mut one: Vec<MethodKey> = Vec::new();
            one.push(target.clone());
            one
        };
        let ghost reached = program::method_views(targets@);
        proof {
            lemma_targets_have_bodies(*prog, self.call_depth, target@, is_virtual, targets@);
            assert(reached =~= runs::callees_of(*prog, target@, is_virtual));
        }
        let placed = self.encode_args(args);
        let body = self.enc.body;
        let depth = self.call_depth;
        let n = self.path.len();
        let ghost start = *self;
        proof {
            start.lemma_after_refl();
        }
        let mut ret_tainted = false;
        let mut i: usize = 0;
        while i < targets.len() && self.budget_left()
            invariant
                i <= targets@.len(),
                start.ok(),
                self.ok(),
                self.after(start),
                self.same_place(start),
                self.path@ == start.path@,
                n == start.path@.len(),
                body == start.enc.body,
                prog == start.enc.prog,
                depth == start.call_depth,
                depth < MAX_CALL_DEPTH,
                depth == old(self).call_depth,
                start.depth == old(self).depth,
                start.max_depth == old(self).max_depth,
                placed.fits(start.enc.terms),
                dest.0 < body.vars@.len(),
                reached == program::method_views(targets@),
                self.called_all(start, reached, placed, i as nat, ret_tainted),
                forall|j: int|
                    0 <= j < targets@.len() ==> prog.body_of((#[trigger] targets@[j])@) is Some,
            decreases targets@.len() - i,
        {
            let ghost before = *self;
            proof {
                assert(prog.body_of(targets@[i as int]@) is Some);
            }
            if let Some(callee) = prog.body(&targets[i]) {
                proof {
                    lemma_args_grown(placed, start.enc.terms, self.enc.terms);
                }
                let ghost tainted_before = ret_tainted;
                let bad = self.run_callee(callee, &placed);
                ret_tainted = ret_tainted || bad;
                proof {
                    self.lemma_after_trans(before, start);
                    assert(reached[i as int] == targets@[i as int]@);
                    assert(before.stays_with(start, tainted_before));
                    assert(self.called_all(start, reached, placed, (i + 1) as nat, ret_tainted));
                }
            }
            i += 1;
        }
        let ghost looped = *self;
        proof {
            looped.enc.st.lemma_fits(looped.enc.body.vars@.len(), looped.enc.terms);
        }
        self.take_result(&target.name, dest, ret_tainted);
        let ghost set = *self;
        self.note_inlined(&targets);
        proof {
            set.lemma_after_trans(looped, start);
            self.lemma_after_trans(set, start);
            self.lemma_after_trans(start, *old(self));
            assert(looped.stays_at(start, i as nat));
            assert(set.result_taken(looped, target.name@, dest, ret_tainted));
            assert(start.args_read(*old(self), args@, placed));
        }
        true
    }
}

/// The variables of the state in which a callee begins.
proof fn lemma_placed(l: Locals, s: State, callee: Body, args: Args)
    requires
        super::frames::placed(l, callee.vars@, args, args.terms@.len()),
        l.of(s),
        l.var_widths@ == Seq::new(callee.vars@.len(), |i: int| None::<u32>),
        l.float_tainted@ == Seq::new(callee.vars@.len(), |i: int| false),
    ensures
        runs::at_call(s, callee, args),
{
    assert forall|v: int| 0 <= v < callee.vars@.len() implies match super::frames::arg_in(
        callee.vars@,
        args.terms@.len(),
        v,
    ) {
        Some(i) => {
            &&& #[trigger] s.vars@[v] == Some(args.terms@[i])
            &&& s.str_vars@[v] == args.texts@[i]
            &&& s.tainted@[v] == args.tainted@[i]
        },
        None => {
            &&& s.vars@[v] is None
            &&& s.str_vars@[v] is None
            &&& !s.tainted@[v]
        },
    } by {
        assert(l.vars@[v] == s.vars@[v]);
    }
}

/// What is known of variables still fits after the store has grown.
proof fn lemma_locals_grown(l: Locals, n: nat, before: Terms, after: Terms)
    requires
        l.fits(n, before),
        before.size() <= after.size(),
    ensures
        l.fits(n, after),
{
}

/// What is known of arguments still fits after the store has grown.
proof fn lemma_args_grown(a: Args, before: Terms, after: Terms)
    requires
        a.fits(before),
        before.size() <= after.size(),
    ensures
        a.fits(after),
{
}

proof fn lemma_listed_kept(before: Seq<String>, after: Seq<String>, name: Seq<char>)
    requires
        program::listed(before, name),
        explore::extends(after, before),
    ensures
        program::listed(after, name),
{
    let i = choose|i: int| 0 <= i < before.len() && (#[trigger] before[i])@ == name;
    assert(after.take(before.len() as int)[i] == before[i]);
    assert(after[i]@ == name);
}

/// The bodies a call can reach exist.
proof fn lemma_targets_have_bodies(
    p: program::Program,
    depth: u32,
    target: ir::MethodKeyV,
    is_virtual: bool,
    targets: Seq<MethodKey>,
)
    requires
        rvalue::inlinable(p, depth, target, is_virtual),
        is_virtual ==> program::method_views(targets) == program::targets_of(p.dispatch@, target),
        !is_virtual ==> targets.len() == 1 && targets[0]@ == target,
    ensures
        forall|j: int| 0 <= j < targets.len() ==> p.body_of((#[trigger] targets[j])@) is Some,
{
    if is_virtual {
        let ts = program::targets_of(p.dispatch@, target);
        assert forall|j: int| 0 <= j < targets.len() implies p.body_of(
            (#[trigger] targets[j])@,
        ) is Some by {
            assert(program::method_views(targets)[j] == targets[j]@);
            assert(p.body_of(ts[j]) is Some);
        }
    }
}

/// Setting a variable keeps everything in order.
proof fn lemma_var_set<'a, S: Solver>(new: Explorer<'a, S>, old: Explorer<'a, S>, v: int, t: Term)
    requires
        old.ok(),
        old.enc.terms.has(t),
        0 <= v < old.enc.body.vars@.len(),
        new == (Explorer { enc: new.enc, ..old }),
        new.enc == (Encoder { st: new.enc.st, ..old.enc }),
        new.enc.st == (State { vars: new.enc.st.vars, tainted: new.enc.st.tainted, ..old.enc.st }),
        new.enc.st.vars@ == old.enc.st.vars@.update(v, Some(t)),
        new.enc.st.tainted@.len() == old.enc.st.tainted@.len(),
    ensures
        new.ok(),
        new.after(old),
        new.same_place(old),
{
    reveal(State::fits);
    assert(state::vars_in(new.enc.terms, old.enc.st.vars@));
    assert(new.enc.st.fits(new.enc.body.vars@.len(), new.enc.terms));
    old.lemma_after_refl();
}

/// Is a call modelled by a formula, and are there as many arguments as it reads?
pub open spec fn formula_call(target: MethodKey, n: nat) -> bool {
    math_encode::call_case(target.class@, target.name@, target.desc@) matches Some(c)
        && math_encode::math_arity(c.f) <= n
}

fn is_formula_call(target: &MethodKey, n: usize) -> (r: bool)
    ensures
        r == formula_call(*target, n as nat),
{
    match find_case(target) {
        Some(c) => arity(c.f) <= n,
        None => false,
    }
}

/// A modelled call only adds.
proof fn lemma_math_step(e: Encoder, old: Encoder, class: Seq<char>, boxing: math_encode::Boxing)
    requires
        old.ok(),
        e.math_from(old, class, boxing),
    ensures
        e.ok(),
        e.prog == old.prog,
        e.models == old.models,
        e.ascii_only == old.ascii_only,
        e.body == old.body,
        e.terms.grown_from(old.terms),
        explore::extends(e.st.nondet_terms@, old.st.nondet_terms@),
{
    lemma_extends_refl(old.st.nondet_terms@);
    e.terms.lemma_built_grows(old.terms);
}

impl<'a, S: Solver> Explorer<'a, S> {
    /// The value of a call that is not followed into a body, with its content
    /// where that is known. `None` if the call is not modelled.
    fn encode_call(&mut self, target: &MethodKey, args: &Vec<Operand>) -> (r: Option<
        (Term, Option<Term>),
    >)
        requires
            old(self).ok(),
            ir::operands_in_range(args@, old(self).enc.body.vars@.len()),
        ensures
            final(self).ok(),
            final(self).after(*old(self)),
            final(self).same_place(*old(self)),
            r is Some <==> runs::call_modelled(old(self).enc, *target, args@),
            r is None ==> *final(self) == *old(self),
            r matches Some(p) ==> final(self).enc.terms.has(p.0) && final(self).enc.terms.has_opt(p.1)
                && final(self).call_encoded(*old(self), *target, args@, p),
    {
        proof {
            self.lemma_after_refl();
            lemma_extends_refl(self.enc.st.nondet_terms@);
        }
        if self.enc.models.is_str_owner(target.class.as_str()) {
            let r = self.enc.encode_str_call(target, args);
            proof {
                if r is Some {
                    self.lemma_enc_step(*old(self));
                }
            }
            r
        } else if is_formula_call(target, args.len()) {
            let t = self.enc.encode_math_call(target, args);
            proof {
                let c = math_encode::call_case(target.class@, target.name@, target.desc@)->0;
                if math_encode::math_any(
                    c.f,
                    crate::desc::param_width(target.desc@, 0),
                ) is Some {
                    self.enc.terms.lemma_built_grows(old(self).enc.terms);
                } else {
                    lemma_math_step(self.enc, old(self).enc, target.class@, c.boxing);
                }
                self.lemma_enc_step(*old(self));
            }
            Some((t, None))
        } else {
            let r = self.enc.encode_wrapper_str_call(target, args);
            proof {
                if r is Some {
                    let c = super::wrap_encode::wrap_case(
                        target.class@,
                        target.name@,
                        target.desc@,
                    )->0;
                    if c.how != super::wrap_encode::WrapText::OneChar {
                        lemma_math_step(self.enc, old(self).enc, target.class@, c.boxing);
                    }
                    self.lemma_enc_step(*old(self));
                }
            }
            r
        }
    }

    /// Encode a right-hand side as it stands.
    fn encode_plain(&mut self, rv: &Rvalue) -> (t: Term)
        requires
            old(self).ok(),
            ir::operands_in_range(ir::rvalue_operands(*rv), old(self).enc.body.vars@.len()),
        ensures
            final(self).ok(),
            final(self).after(*old(self)),
            final(self).same_place(*old(self)),
            *final(self) == (Explorer { enc: final(self).enc, ..*old(self) }),
            final(self).enc.terms.has(t),
            rvalue::rvalue_outcome(final(self).enc, old(self).enc, *rv, t),
    {
        let t = self.enc.encode_rvalue(rv);
        proof {
            lemma_rvalue_step(self.enc, old(self).enc, *rv, t);
            self.lemma_enc_step(*old(self));
        }
        t
    }

    /// Give a variable the value of a right-hand side. `ready` is the explorer before
    /// it was encoded.
    fn store_value(&mut self, v: VarId, a: Assigned, ready: Ghost<Self>, rv: Ghost<Rvalue>)
        requires
            old(self).ok(),
            v.0 < old(self).enc.body.vars@.len(),
            old(self).enc.terms.has(a.term),
            old(self).enc.terms.has_opt(a.text),
            a.width == ready@.enc.result_width(rv@),
            a.tainted == ready@.enc.taints(rv@, ready@.call_depth),
            a.float_tainted == ready@.enc.float_taints(rv@),
        ensures
            final(self).ok(),
            final(self).after(*old(self)),
            final(self).same_place(*old(self)),
            final(self).value_set(*old(self), ready@, v, rv@, a.term, a.text),
    {
        proof {
            self.enc.st.lemma_fits(self.enc.body.vars@.len(), self.enc.terms);
        }
        self.enc.set_var(v, a);
        proof {
            lemma_extends_refl(self.enc.st.nondet_terms@);
            let f = self.enc.terms.asserted();
            assert(f.take(f.len() as int) =~= f);
            self.lemma_enc_step(*old(self));
        }
    }

    /// Assign the value of a call to a variable. `guarded` says whether the block has
    /// exception handlers.
    fn assign_call(
        &mut self,
        v: VarId,
        rv: &Rvalue,
        target: &MethodKey,
        args: &Vec<Operand>,
        is_virtual: bool,
        guarded: bool,
    )
        requires
            old(self).ok(),
            v.0 < old(self).enc.body.vars@.len(),
            ir::operands_in_range(ir::rvalue_operands(*rv), old(self).enc.body.vars@.len()),
            *rv == (Rvalue::Call { target: *target, args: *args, is_virtual }),
        ensures
            final(self).ok(),
            final(self).after(*old(self)),
            final(self).same_place(*old(self)),
            final(self).call_assigned(*old(self), v, *rv, guarded),
        decreases
            MAX_CALL_DEPTH - old(self).call_depth,
            old(self).max_depth + 2 - old(self).depth,
            3int,
    {
        proof {
            self.lemma_after_refl();
        }
        let tainted = self.enc.rvalue_tainted(rv, self.call_depth);
        let float_tainted = self.enc.rvalue_float_tainted(rv);
        let width = self.enc.rvalue_result_width(rv);
        match self.encode_call(target, args) {
            Some((term, text)) => {
                let ghost encoded = *self;
                self.store_value(
                    v,
                    Assigned { term, text, width, tainted, float_tainted },
                    Ghost(*old(self)),
                    Ghost(*rv),
                );
                proof {
                    assert(encoded.call_encoded(*old(self), *target, args@, (term, text)));
                    self.lemma_after_trans(encoded, *old(self));
                }
            },
            None => {
                if !self.enc.models.is_str_owner(target.class.as_str()) && self.try_inline_call(
                    target,
                    args,
                    v,
                    is_virtual,
                ) {
                    return;
                }
                self.leave_unresolved(guarded);
                let ghost left = *self;
                let term = self.encode_plain(rv);
                let ghost encoded = *self;
                self.store_value(
                    v,
                    Assigned { term, text: None, width, tainted, float_tainted },
                    Ghost(*old(self)),
                    Ghost(*rv),
                );
                proof {
                    assert(encoded.plain_encoded(left, *rv, term, None));
                    encoded.lemma_after_trans(left, *old(self));
                    self.lemma_after_trans(encoded, *old(self));
                }
            },
        }
    }

    /// Encode a right-hand side that is no call. Returns its value, and its content
    /// where that is known.
    fn encode_value(&mut self, rv: &Rvalue) -> (r: (Term, Option<Term>))
        requires
            old(self).ok(),
            ir::operands_in_range(ir::rvalue_operands(*rv), old(self).enc.body.vars@.len()),
        ensures
            final(self).ok(),
            final(self).after(*old(self)),
            final(self).same_place(*old(self)),
            final(self).enc.terms.has(r.0),
            final(self).enc.terms.has_opt(r.1),
            final(self).plain_encoded(*old(self), *rv, r.0, r.1),
    {
        proof {
            self.enc.st.lemma_fits(self.enc.body.vars@.len(), self.enc.terms);
        }
        match rv {
            Rvalue::Use(Operand::Var(src)) => {
                proof {
                    assert(ir::rvalue_operands(*rv)[0].in_range(self.enc.body.vars@.len()));
                    assert(self.enc.terms.has_opt(self.enc.st.str_vars@[src.0 as int]));
                }
                let x = self.enc.st.str_vars[src.0 as usize];
                let t = self.encode_plain(rv);
                (t, x)
            },
            Rvalue::Nondet(Ty::Str, _) => {
                let t = self.encode_plain(rv);
                proof {
                    self.enc.st.lemma_fits(self.enc.body.vars@.len(), self.enc.terms);
                }
                let k = self.enc.st.nondet_terms.len();
                let x = self.enc.st.nondet_terms[k - 1].text;
                (t, x)
            },
            Rvalue::Havoc(Ty::Str) => {
                let t = self.encode_plain(rv);
                let ghost plain = *self;
                let x = self.enc.terms.fresh_str("hvs");
                proof {
                    self.enc.lemma_built_settles(plain.enc);
                    self.enc.terms.lemma_built_grows(plain.enc.terms);
                    lemma_extends_refl(self.enc.st.nondet_terms@);
                    self.lemma_enc_step(plain);
                    self.lemma_after_trans(plain, *old(self));
                    assert(rvalue::rvalue_outcome(plain.enc, old(self).enc, *rv, t));
                }
                (t, Some(x))
            },
            Rvalue::GetStatic(f) => {
                proof {
                    assert(self.enc.terms.has_opt(self.enc.st.static_str.at(f@)));
                }
                let x = self.enc.st.static_str.get(f);
                let t = self.encode_plain(rv);
                (t, x)
            },
            _ => (self.encode_plain(rv), None),
        }
    }

    /// Assign the value of a right-hand side to a variable. `guarded` says whether
    /// the block has exception handlers.
    fn exec_assign(&mut self, v: VarId, rv: &Rvalue, guarded: bool)
        requires
            old(self).ok(),
            v.0 < old(self).enc.body.vars@.len(),
            ir::operands_in_range(ir::rvalue_operands(*rv), old(self).enc.body.vars@.len()),
        ensures
            final(self).ok(),
            final(self).after(*old(self)),
            final(self).same_place(*old(self)),
            final(self).assigned(*old(self), v, *rv, guarded),
        decreases
            MAX_CALL_DEPTH - old(self).call_depth,
            old(self).max_depth + 2 - old(self).depth,
            4int,
    {
        proof {
            self.lemma_after_refl();
        }
        if let Rvalue::GetStatic(f) = rv {
            self.ensure_clinit(&f.class);
        }
        let ghost ready = *self;
        proof {
            assert(ready.stays(*old(self)));
        }
        if let Rvalue::Call { target, args, is_virtual } = rv {
            self.assign_call(v, rv, target, args, *is_virtual, guarded);
            return;
        }
        let tainted = self.enc.rvalue_tainted(rv, self.call_depth);
        let float_tainted = self.enc.rvalue_float_tainted(rv);
        let width = self.enc.rvalue_result_width(rv);
        let (term, text) = self.encode_value(rv);
        let ghost encoded = *self;
        self.store_value(
            v,
            Assigned { term, text, width, tainted, float_tainted },
            Ghost(ready),
            Ghost(*rv),
        );
        proof {
            assert(encoded.plain_encoded(ready, *rv, term, text));
            self.lemma_after_trans(encoded, ready);
            self.lemma_after_trans(ready, *old(self));
        }
    }

    /// Run a statement. Returns whether the path goes on.
    fn exec_stmt(&mut self, stmt: &Stmt, guarded: bool) -> (go_on: bool)
        requires
            old(self).ok(),
            old(self).has_budget(),
            ir::stmt_in_range(
                *stmt,
                old(self).enc.body.vars@.len(),
                old(self).enc.body.obligations@.len(),
            ),
        ensures
            final(self).ok(),
            final(self).after(*old(self)),
            final(self).same_place(*old(self)),
            final(self).executed(*old(self), *stmt, guarded, go_on),
        decreases
            MAX_CALL_DEPTH - old(self).call_depth,
            old(self).max_depth + 2 - old(self).depth,
            5int,
    {
        proof {
            self.lemma_after_refl();
        }
        match stmt {
            Stmt::Assign(v, rv) => {
                self.exec_assign(*v, rv, guarded);
                true
            },
            Stmt::Assume(op) => self.exec_assume(op),
            Stmt::Check(id) => {
                self.exec_check(*id);
                true
            },
            Stmt::PutStatic(f, val) => {
                self.ensure_clinit(&f.class);
                let ghost ready = *self;
                self.enc.put_static(f, val);
                proof {
                    self.enc.terms.lemma_built_grows(ready.enc.terms);
                    lemma_extends_refl(self.enc.st.nondet_terms@);
                    self.lemma_enc_step(ready);
                    self.lemma_after_trans(ready, *old(self));
                    assert(ready.stays(*old(self)));
                }
                true
            },
            Stmt::PutField { obj, field, val } => {
                self.enc.put_field(obj, field, val);
                proof {
                    self.enc.terms.lemma_built_grows(old(self).enc.terms);
                    lemma_extends_refl(self.enc.st.nondet_terms@);
                    self.lemma_enc_step(*old(self));
                }
                true
            },
            Stmt::ArrayStore { arr, idx, val } => {
                let (r, i) = self.enc.encode_pair(arr, idx);
                let ghost first = self.enc;
                let x = self.enc.encode_operand(val);
                let ghost second = self.enc;
                proof {
                    second.lemma_settled_trans(first, old(self).enc);
                    second.lemma_operand_stable(first, *arr);
                    second.lemma_operand_stable(first, *idx);
                }
                self.enc.array_store_update(r, i, x);
                proof {
                    assert(heap::array_stored(self.enc, second, r, i, x));
                    self.enc.terms.lemma_built_grows(second.terms);
                    second.terms.lemma_built_grows(old(self).enc.terms);
                    self.enc.terms.lemma_grown_trans(second.terms, old(self).enc.terms);
                    lemma_extends_refl(self.enc.st.nondet_terms@);
                    self.lemma_enc_step(*old(self));
                }
                true
            },
            Stmt::Nop => true,
        }
    }

    /// Explore a whole body from a block on.
    pub fn explore_block(&mut self, block: BlockId)
        requires
            old(self).ok(),
            block.0 < old(self).enc.body.blocks@.len(),
        ensures
            final(self).ok(),
            final(self).after(*old(self)),
            final(self).same_place(*old(self)),
            final(self).explored(*old(self), block, 0, None),
    {
        self.explore_block_until(block, 0, None);
    }

    /// Explore from a statement of a block on, up to the block `stop`.
    ///
    /// A path that runs into a bound is recorded as cut short; so is one that
    /// throws or reaches what is not modelled.
    pub fn explore_block_until(&mut self, block: BlockId, from: usize, stop: Option<BlockId>)
        requires
            old(self).ok(),
            block.0 < old(self).enc.body.blocks@.len(),
        ensures
            final(self).ok(),
            final(self).after(*old(self)),
            final(self).same_place(*old(self)),
            final(self).explored(*old(self), block, from as nat, stop),
        decreases
            MAX_CALL_DEPTH - old(self).call_depth,
            old(self).max_depth + 2 - old(self).depth,
            6int,
    {
        proof {
            self.lemma_after_refl();
        }
        if let Some(s) = stop {
            if s == block {
                return;
            }
        }
        self.count_visit();
        let ghost visited = *self;
        proof {
            visited.lemma_after_refl();
        }
        if self.depth > self.max_depth || !self.budget_left() {
            self.cut_short();
            proof {
                self.lemma_after_trans(visited, *old(self));
            }
            return;
        }
        let body = self.enc.body;
        let b = body.block(block);
        let guarded = b.exceptional.len() > 0;
        proof {
            assert(body.blocks@[block.0 as int].in_range(
                body.blocks@.len(),
                body.vars@.len(),
                body.obligations@.len(),
            ));
        }
        let mut idx: usize = from;
        while idx < b.stmts.len()
            invariant
                from <= idx,
                idx <= b.stmts@.len() || idx == from,
                guarded == (b.exceptional@.len() > 0),
                visited == old(self).visited(),
                visited.has_budget(),
                self.stays(visited),
                self.ran(visited, *b, from as nat, idx as nat),
                self.ok(),
                self.after(*old(self)),
                self.same_place(*old(self)),
                body == self.enc.body,
                *b == body.blocks@[block.0 as int],
                block.0 < body.blocks@.len(),
                old(self).depth <= old(self).max_depth,
                b.in_range(body.blocks@.len(), body.vars@.len(), body.obligations@.len()),
                stop != Some(block),
                old(self).has_budget(),
                self.max_depth == old(self).max_depth,
            decreases b.stmts@.len() - idx,
        {
            let ghost before = *self;
            proof {
                assert(before.stays_at(visited, idx as nat));
            }
            if !self.budget_left() {
                self.cut_short();
                proof {
                    self.lemma_after_trans(before, *old(self));
                }
                return;
            }
            proof {
                assert(ir::stmt_in_range(
                    b.stmts@[idx as int],
                    body.vars@.len(),
                    body.obligations@.len(),
                ));
            }
            let go_on = self.exec_stmt(&b.stmts[idx], guarded);
            proof {
                self.lemma_after_trans(before, *old(self));
            }
            if !go_on {
                return;
            }
            idx += 1;
        }
        let ghost ran = *self;
        proof {
            assert(ran.stays_at(visited, idx as nat));
        }
        if !self.budget_left() {
            return;
        }
        self.depth = self.depth + 1;
        let ghost inside = *self;
        proof {
            ran.lemma_after_refl();
        }
        self.explore_terminator(&b.term, block, stop);
        let ghost done = *self;
        self.depth = self.depth - 1;
        proof {
            done.lemma_after_trans(inside, ran);
            done.lemma_after_trans(ran, *old(self));
            assert(done.stays(inside));
            assert(self.ended(ran, b.term, block, stop));
        }
    }

    /// Follow the end of a block.
    fn explore_terminator(&mut self, term: &Terminator, block: BlockId, stop: Option<BlockId>)
        requires
            old(self).ok(),
            ir::term_in_range(*term, old(self).enc.body.vars@.len()),
            forall|i: int|
                0 <= i < ir::term_targets(*term).len() ==> (#[trigger] ir::term_targets(*term)[i]).0
                    < old(self).enc.body.blocks@.len(),
        ensures
            final(self).ok(),
            final(self).after(*old(self)),
            final(self).same_place(*old(self)),
            final(self).followed(*old(self), *term, block, stop),
        decreases
            MAX_CALL_DEPTH - old(self).call_depth,
            old(self).max_depth + 2 - old(self).depth,
            10int,
    {
        proof {
            self.lemma_after_refl();
        }
        match term {
            Terminator::Goto(t) => {
                proof {
                    assert(ir::term_targets(*term)[0] == *t);
                }
                if t.0 <= block.0 {
                    let go_on = self.enter_loop(*t);
                    let ghost entered = *self;
                    proof {
                        assert(entered.loop_entered(*old(self), *t, go_on));
                    }
                    if !go_on {
                        self.cut_short();
                    } else {
                        self.explore_block_until(*t, 0, stop);
                    }
                    proof {
                        self.lemma_after_trans(entered, *old(self));
                    }
                } else {
                    self.explore_block_until(*t, 0, stop);
                }
            },
            Terminator::Branch { cond, then_, else_ } => {
                proof {
                    assert(ir::term_targets(*term)[0] == *then_);
                    assert(ir::term_targets(*term)[1] == *else_);
                }
                self.explore_branch(cond, *then_, *else_, stop);
            },
            Terminator::Switch { value, cases, default } => {
                proof {
                    lemma_switch_targets(
                        *term,
                        cases@,
                        *default,
                        self.enc.body.blocks@.len(),
                    );
                }
                self.explore_switch(value, cases, *default, stop);
            },
            Terminator::Return(Some(val)) => {
                if self.call_depth > 0 {
                    let tainted = self.enc.operand_tainted(val);
                    let t = self.enc.encode_operand(val);
                    proof {
                        self.enc.terms.lemma_built_grows(old(self).enc.terms);
                        lemma_extends_refl(self.enc.st.nondet_terms@);
                        self.lemma_enc_step(*old(self));
                    }
                    self.ret = Some(t);
                    self.ret_tainted = self.ret_tainted || tainted || self.enc.st.path_tainted;
                }
            },
            Terminator::Return(None) => {},
            Terminator::Halt => {},
            Terminator::Throw(_) => {
                self.cut_short();
            },
            Terminator::Diverge(_) => {
                self.cut_short();
            },
        }
    }
}

/// The end of one arm of a fork: was it explored, its state, and what it returns,
/// with what was returned before it.
struct ForkEnd {
    done: bool,
    state: State,
    ret: Option<Term>,
    tainted: bool,
    before: Option<Term>,
    tainted_before: bool,
}

impl ForkEnd {
    spec fn of<'a, S: Solver>(self, e: Explorer<'a, S>) -> bool {
        &&& self.state.alike(e.enc.st)
        &&& self.ret == e.ret
        &&& self.tainted == e.ret_tainted
    }
}

proof fn lemma_switch_targets(t: Terminator, cases: Seq<(i32, BlockId)>, default: BlockId, n: nat)
    requires
        t matches Terminator::Switch { cases: c, default: d, .. } && c@ == cases && d == default,
        forall|i: int|
            0 <= i < ir::term_targets(t).len() ==> (#[trigger] ir::term_targets(t)[i]).0 < n,
    ensures
        default.0 < n,
        forall|i: int| 0 <= i < cases.len() ==> (#[trigger] cases[i]).1.0 < n,
{
    let ts = ir::term_targets(t);
    assert(ts[cases.len() as int] == default);
    assert forall|i: int| 0 <= i < cases.len() implies (#[trigger] cases[i]).1.0 < n by {
        assert(ts[i] == cases[i].1);
    }
}

impl<'a, S: Solver> Explorer<'a, S> {
    /// Explore one arm of a branch and come back to where it began. Returns the
    /// state at its end.
    fn explore_side(&mut self, tainted: bool, c: Term, target: BlockId, stop: Option<BlockId>) -> (r:
        State)
        requires
            old(self).ok(),
            old(self).enc.terms.has(c),
            target.0 < old(self).enc.body.blocks@.len(),
        ensures
            final(self).ok(),
            final(self).after(*old(self)),
            final(self).same_place(*old(self)),
            final(self).enc.st.alike(old(self).enc.st),
            final(self).path@ == old(self).path@,
            r.fits(old(self).enc.body.vars@.len(), final(self).enc.terms),
            extends_nondets(r, old(self).enc.st),
            final(self).side_explored(*old(self), tainted, c, target, stop, r),
        decreases
            MAX_CALL_DEPTH - old(self).call_depth,
            old(self).max_depth + 2 - old(self).depth,
            7int,
    {
        let saved = self.enc.st.save_state();
        let n = self.path.len();
        proof {
            saved.lemma_alike_fits(self.enc.st, self.enc.body.vars@.len(), self.enc.terms);
        }
        self.take_side(tainted, c);
        let ghost taken = *self;
        self.explore_block_until(target, 0, stop);
        let ghost done = *self;
        let r = self.enc.st.save_state();
        proof {
            done.lemma_after_trans(taken, *old(self));
            r.lemma_alike_fits(done.enc.st, self.enc.body.vars@.len(), done.enc.terms);
            saved.lemma_fits_grown(
                self.enc.body.vars@.len(),
                old(self).enc.terms,
                done.enc.terms,
            );
            lemma_extends_refl(old(self).enc.st.nondet_terms@);
        }
        self.restore_state(saved, n);
        proof {
            self.lemma_restored(done, *old(self));
            assert(taken.stays(*old(self)));
            assert(taken.side_taken(*old(self), tainted, c));
            assert(done.stays(taken));
            assert(self.back_at(done, *old(self)));
        }
        r
    }

    /// Follow a branch. Where the arms meet again they are explored up to that
    /// point and joined; else the path forks.
    fn explore_branch(
        &mut self,
        cond: &Operand,
        then_: BlockId,
        else_: BlockId,
        stop: Option<BlockId>,
    )
        requires
            old(self).ok(),
            cond.in_range(old(self).enc.body.vars@.len()),
            then_.0 < old(self).enc.body.blocks@.len(),
            else_.0 < old(self).enc.body.blocks@.len(),
        ensures
            final(self).ok(),
            final(self).after(*old(self)),
            final(self).same_place(*old(self)),
            final(self).branched(*old(self), *cond, then_, else_, stop),
        decreases
            MAX_CALL_DEPTH - old(self).call_depth,
            old(self).max_depth + 2 - old(self).depth,
            9int,
    {
        let ghost n = self.enc.body.vars@.len();
        let tainted = self.enc.operand_tainted(cond);
        let ct = self.enc.encode_operand(cond);
        let ghost settled = *self;
        let zero = zero_constraint(&mut self.enc.terms, ct);
        let nonzero = self.enc.terms.not(zero);
        proof {
            self.enc.lemma_settle_then_build(settled.enc, old(self).enc);
            self.enc.lemma_operand_same(settled.enc, *cond);
            self.enc.terms.lemma_built_grows(old(self).enc.terms);
            lemma_extends_refl(self.enc.st.nondet_terms@);
            self.lemma_enc_step(*old(self));
        }
        let ghost encoded = *self;
        let mut targets: Vec<BlockId> = Vec::new();
        targets.push(then_);
        targets.push(else_);
        let join = self.find_join_multi(&targets);
        let ghost start = *self;
        proof {
            start.lemma_after_trans(encoded, *old(self));
            assert(targets@ =~= seq![then_, else_]);
            assert(start.condition_read(*old(self), *cond, nonzero, zero));
        }
        match join {
            Some(at) => {
                let a = self.explore_side(tainted, nonzero, then_, Some(at));
                let ghost first = *self;
                let b = self.explore_side(tainted, zero, else_, Some(at));
                let ghost second = *self;
                proof {
                    a.lemma_fits_grown(n, first.enc.terms, second.enc.terms);
                    second.lemma_after_trans(first, start);
                    assert(self.enc.st.nondet_terms@ == start.enc.st.nondet_terms@);
                }
                self.enc.collect_nondets_binary(&a, &b);
                let ghost collected = *self;
                proof {
                    let k = start.enc.st.nondet_terms@;
                    assert(self.enc.st.nondet_terms@.take(k.len() as int) =~= k);
                    second.enc.terms.lemma_built_grows_self();
                    self.lemma_enc_step(second);
                    self.lemma_after_trans(second, start);
                }
                self.enc.merge_states_ite(nonzero, &a, &b);
                let ghost merged = *self;
                proof {
                    self.enc.terms.lemma_built_grows(collected.enc.terms);
                    lemma_extends_refl(collected.enc.st.nondet_terms@);
                    self.lemma_enc_step(collected);
                    self.lemma_after_trans(collected, start);
                }
                proof {
                    assert(collected.inputs_taken(second, a, b, true, true));
                    assert(merged.states_merged(collected, nonzero, a, b));
                    assert(merged.sides_joined(second, nonzero, a, b));
                    assert(first.went_side(start, nonzero, a));
                    assert(second.went_side(first, zero, b));
                    assert(merged.stays(start));
                }
                self.explore_block_until(at, 0, stop);
                proof {
                    self.lemma_after_trans(merged, start);
                    self.lemma_after_trans(start, *old(self));
                }
            },
            None => {
                self.explore_fork(tainted, nonzero, zero, then_, else_, stop);
                proof {
                    self.lemma_after_trans(start, *old(self));
                }
            },
        }
    }

    /// Explore one arm of a fork, if the solver does not exclude it. Returns
    /// whether it was explored; the state is that at its end.
    fn explore_arm(&mut self, tainted: bool, c: Term, target: BlockId, stop: Option<BlockId>) -> (done:
        bool)
        requires
            old(self).ok(),
            old(self).enc.terms.has(c),
            target.0 < old(self).enc.body.blocks@.len(),
        ensures
            final(self).ok(),
            final(self).after(*old(self)),
            final(self).same_place(*old(self)),
            final(self).arm_explored(*old(self), tainted, c, target, stop, done),
        decreases
            MAX_CALL_DEPTH - old(self).call_depth,
            old(self).max_depth + 2 - old(self).depth,
            7int,
    {
        self.take_side(tainted, c);
        let ghost taken = *self;
        proof {
            assert(taken.stays(*old(self)));
            assert(taken.side_taken(*old(self), tainted, c));
        }
        if !tainted {
            let res = self.check_sat_with_path(None);
            proof {
                self.lemma_after_trans(taken, *old(self));
                assert(self.answered(taken, None, res));
                assert(self.stays(taken));
            }
            if res == SatResult::Unsat {
                return false;
            }
        }
        let ghost asked = *self;
        self.explore_block_until(target, 0, stop);
        proof {
            self.lemma_after_trans(asked, *old(self));
        }
        true
    }

    /// Fork the path at a branch: explore both arms to their ends, and join their
    /// states and what they return.
    fn explore_fork(
        &mut self,
        tainted: bool,
        nonzero: Term,
        zero: Term,
        then_: BlockId,
        else_: BlockId,
        stop: Option<BlockId>,
    )
        requires
            old(self).ok(),
            old(self).enc.terms.has(nonzero),
            old(self).enc.terms.has(zero),
            then_.0 < old(self).enc.body.blocks@.len(),
            else_.0 < old(self).enc.body.blocks@.len(),
        ensures
            final(self).ok(),
            final(self).after(*old(self)),
            final(self).same_place(*old(self)),
            final(self).forked(*old(self), tainted, nonzero, zero, then_, else_, stop),
        decreases
            MAX_CALL_DEPTH - old(self).call_depth,
            old(self).max_depth + 2 - old(self).depth,
            8int,
    {
        let ghost vars = self.enc.body.vars@.len();
        self.count_fork();
        let ghost start = *self;
        let n = self.path.len();
        let ret_before = self.ret;
        let tainted_before = self.ret_tainted;
        let saved = self.enc.st.save_state();
        let saved_again = self.enc.st.save_state();
        proof {
            saved.lemma_alike_fits(self.enc.st, vars, self.enc.terms);
            saved_again.lemma_alike_fits(self.enc.st, vars, self.enc.terms);
            lemma_extends_refl(start.enc.st.nondet_terms@);
        }
        let then_done = self.explore_arm(tainted, nonzero, then_, stop);
        let ghost first = *self;
        let a = self.enc.st.save_state();
        let a_ret = self.ret;
        let a_tainted = self.ret_tainted;
        proof {
            a.lemma_alike_fits(first.enc.st, vars, first.enc.terms);
            saved.lemma_fits_grown(vars, start.enc.terms, first.enc.terms);
        }
        self.restore_state(saved, n);
        self.ret = ret_before;
        self.ret_tainted = tainted_before;
        let ghost second = *self;
        proof {
            let plain = Explorer { ret: first.ret, ret_tainted: first.ret_tainted, ..second };
            plain.lemma_restored(first, start);
            assert(first.stays_with(start, then_done));
            assert(second.rewound(first, start));
            assert(second.stays(start));
        }
        let else_done = if self.budget_left() {
            self.explore_arm(tainted, zero, else_, stop)
        } else {
            proof {
                self.lemma_after_refl();
            }
            false
        };
        let ghost third = *self;
        let b = self.enc.st.save_state();
        let b_ret = self.ret;
        let b_tainted = self.ret_tainted;
        proof {
            third.lemma_after_trans(second, start);
            b.lemma_alike_fits(third.enc.st, vars, third.enc.terms);
            a.lemma_fits_grown(vars, first.enc.terms, third.enc.terms);
            saved_again.lemma_fits_grown(vars, start.enc.terms, third.enc.terms);
        }
        self.restore_state(saved_again, n);
        let ghost back = *self;
        proof {
            back.lemma_restored(third, start);
            assert(third.stays_with(second, else_done));
            assert(back.back_at(third, start));
        }
        self.join_fork(
            nonzero,
            &ForkEnd {
                done: then_done,
                state: a,
                ret: a_ret,
                tainted: a_tainted,
                before: ret_before,
                tainted_before,
            },
            &ForkEnd {
                done: else_done,
                state: b,
                ret: b_ret,
                tainted: b_tainted,
                before: ret_before,
                tainted_before,
            },
            Ghost(first),
            Ghost(third),
            Ghost(start),
        );
        proof {
            self.lemma_after_trans(back, start);
            self.lemma_after_trans(start, *old(self));
        }
    }

    /// Join the states at the ends of the arms of a fork, and what they return.
    fn join_fork(
        &mut self,
        nonzero: Term,
        a: &ForkEnd,
        b: &ForkEnd,
        first: Ghost<Self>,
        second: Ghost<Self>,
        start: Ghost<Self>,
    )
        requires
            old(self).ok(),
            old(self).enc.terms.has(nonzero),
            a.state.fits(old(self).enc.body.vars@.len(), old(self).enc.terms),
            b.state.fits(old(self).enc.body.vars@.len(), old(self).enc.terms),
            extends_nondets(a.state, old(self).enc.st),
            extends_nondets(b.state, old(self).enc.st),
            old(self).enc.terms.has_opt(a.ret),
            old(self).enc.terms.has_opt(b.ret),
            old(self).back_at(second@, start@),
            a.of(first@),
            b.of(second@),
            a.before == start@.ret,
            old(self).enc.terms.has_opt(a.before),
            a.tainted_before == start@.ret_tainted,
        ensures
            final(self).ok(),
            final(self).after(*old(self)),
            final(self).same_place(*old(self)),
            final(self).fork_joined(second@, first@, start@, nonzero, a.done, b.done),
    {
        let ghost back = *self;
        proof {
            back.lemma_after_refl();
        }
        if a.done || b.done {
            self.collect_arms(&a.state, &b.state, a.done, b.done);
            let ghost collected = *self;
            self.enc.merge_states_ite(nonzero, &a.state, &b.state);
            proof {
                self.enc.terms.lemma_built_grows(collected.enc.terms);
                lemma_extends_refl(collected.enc.st.nondet_terms@);
                self.lemma_enc_step(collected);
                self.lemma_after_trans(collected, back);
                assert(collected.inputs_taken(back, a.state, b.state, a.done, b.done));
                assert(self.states_merged(collected, nonzero, a.state, b.state));
            }
        }
        let ghost merged = *self;
        let ret = join_returns(
            &mut self.enc.terms,
            nonzero,
            a.done,
            b.done,
            a.ret,
            b.ret,
            a.before,
        );
        proof {
            self.enc.lemma_built_settles(merged.enc);
            self.enc.terms.lemma_built_grows(merged.enc.terms);
            lemma_extends_refl(merged.enc.st.nondet_terms@);
            self.lemma_enc_step(merged);
            self.lemma_after_trans(merged, back);
        }
        self.ret = ret;
        self.ret_tainted = tainted_returns(
            a.done,
            b.done,
            a.ret,
            b.ret,
            a.tainted,
            b.tainted,
            a.tainted_before,
        );
        proof {
            assert(a.state.alike(first@.enc.st));
            assert(b.state.alike(second@.enc.st));
            assert(back.back_at(second@, start@));
            assert(self.returns_set(
                merged,
                nonzero,
                a.done,
                b.done,
                first@,
                second@,
                start@,
            ));
        }
    }

    /// Take over the inputs met in the arms of a fork that were explored.
    fn collect_arms(&mut self, a: &State, b: &State, with_a: bool, with_b: bool)
        requires
            old(self).ok(),
            a.fits(old(self).enc.body.vars@.len(), old(self).enc.terms),
            b.fits(old(self).enc.body.vars@.len(), old(self).enc.terms),
            extends_nondets(*a, old(self).enc.st),
            extends_nondets(*b, old(self).enc.st),
        ensures
            final(self).ok(),
            final(self).after(*old(self)),
            final(self).same_place(*old(self)),
            final(self).inputs_taken(*old(self), *a, *b, with_a, with_b),
    {
        proof {
            self.enc.st.lemma_fits(self.enc.body.vars@.len(), self.enc.terms);
            a.lemma_fits(self.enc.body.vars@.len(), self.enc.terms);
            b.lemma_fits(self.enc.body.vars@.len(), self.enc.terms);
        }
        let k = self.enc.st.nondet_terms.len();
        let mut list = copy_items(&self.enc.st.nondet_terms);
        if with_a {
            super::merge::push_tail(&mut list, &a.nondet_terms, k);
        }
        if with_b {
            super::merge::push_tail(&mut list, &b.nondet_terms, k);
        }
        self.enc.st.nondet_terms = list;
        proof {
            reveal(State::fits);
            let base = old(self).enc.st.nondet_terms@;
            assert(self.enc.st.nondet_terms@ =~= base + (if with_a {
                a.nondet_terms@.skip(k as int)
            } else {
                seq![]
            }) + (if with_b {
                b.nondet_terms@.skip(k as int)
            } else {
                seq![]
            }));
            assert(self.enc.st.nondet_terms@.take(base.len() as int) =~= base);
            self.enc.terms.lemma_built_grows_self();
            self.lemma_enc_step(*old(self));
        }
    }
}

/// Every state of the list fits, and has met at least the inputs of `base`.
pub open spec fn states_fit(states: Seq<State>, base: State, n: nat, ts: Terms) -> bool {
    forall|i: int|
        0 <= i < states.len() ==> (#[trigger] states[i]).fits(n, ts) && extends_nondets(
            states[i],
            base,
        )
}

proof fn lemma_states_grown(states: Seq<State>, base: State, n: nat, before: Terms, after: Terms)
    requires
        states_fit(states, base, n, before),
        before.size() <= after.size(),
    ensures
        states_fit(states, base, n, after),
{
    assert forall|i: int| 0 <= i < states.len() implies (#[trigger] states[i]).fits(n, after)
        && extends_nondets(states[i], base) by {
        states[i].lemma_fits_grown(n, before, after);
    }
}

/// Every value of the list is absent or a term of the store.
pub open spec fn opts_in(ts: Terms, v: Seq<Option<Term>>) -> bool {
    state::vars_in(ts, v)
}

impl Arms {
    spec fn fits(self, base: State, n: nat, ts: Terms) -> bool {
        &&& self.conds@.len() == self.states@.len()
        &&& self.rets@.len() == self.states@.len()
        &&& explore::terms_in(ts, self.conds@)
        &&& states_fit(self.states@, base, n, ts)
        &&& opts_in(ts, self.rets@)
    }
}

proof fn lemma_arms_grown(a: Arms, base: State, n: nat, before: Terms, after: Terms)
    requires
        a.fits(base, n, before),
        before.size() <= after.size(),
    ensures
        a.fits(base, n, after),
{
    lemma_states_grown(a.states@, base, n, before, after);
}

/// What is joined depends on what the arms hold.
proof fn lemma_same_arms(
    e: Encoder,
    old: Encoder,
    a: Arms,
    b: Arms,
    default: State,
    i: nat,
    r: State,
)
    requires
        runs::arms_joined(e, old, a, default, i, r),
        a.conds@ == b.conds@,
        a.states@ == b.states@,
    ensures
        runs::arms_joined(e, old, b, default, i, r),
    decreases a.states@.len() - i,
{
    if i < a.states@.len() {
        let (mid, acc) = choose|mid: Encoder, acc: State|
            {
                &&& runs::arms_joined(mid, old, a, default, i + 1, acc)
                &&& #[trigger] runs::case_step(
                    e,
                    mid,
                    a.conds@[i as int],
                    acc,
                    a.states@[i as int],
                    r,
                )
            };
        lemma_same_arms(mid, old, a, b, default, i + 1, acc);
        assert(runs::case_step(e, mid, b.conds@[i as int], acc, b.states@[i as int], r));
    }
}

/// What is returned depends on what the arms hold.
proof fn lemma_same_returns(
    e: Encoder,
    old: Encoder,
    a: Arms,
    b: Arms,
    default: Option<Term>,
    i: nat,
    r: Option<Term>,
)
    requires
        runs::returns_folded(e, old, a, default, i, r),
        a.conds@ == b.conds@,
        a.rets@ == b.rets@,
    ensures
        runs::returns_folded(e, old, b, default, i, r),
    decreases a.rets@.len() - i,
{
    if i < a.rets@.len() {
        let (mid, acc) = choose|mid: Encoder, acc: Option<Term>|
            {
                &&& runs::returns_folded(mid, old, a, default, i + 1, acc)
                &&& #[trigger] runs::return_step(
                    e,
                    mid,
                    a.conds@[i as int],
                    a.rets@[i as int],
                    acc,
                    r,
                )
            };
        lemma_same_returns(mid, old, a, b, default, i + 1, acc);
        assert(runs::return_step(e, mid, b.conds@[i as int], b.rets@[i as int], acc, r));
    }
}

impl<'a, S: Solver> Explorer<'a, S> {
    /// The conditions of the cases of a switch.
    fn case_conditions(&mut self, v: Term, cases: &Vec<(i32, BlockId)>) -> (r: Vec<Term>)
        requires
            old(self).ok(),
            old(self).enc.terms.has(v),
        ensures
            final(self).ok(),
            final(self).after(*old(self)),
            final(self).same_place(*old(self)),
            *final(self) == (Explorer {
                enc: Encoder { terms: final(self).enc.terms, ..old(self).enc },
                ..*old(self)
            }),
            final(self).enc.terms.built_from(old(self).enc.terms),
            r@.len() == cases@.len(),
            explore::terms_in(final(self).enc.terms, r@),
            forall|i: int|
                0 <= i < r@.len() ==> final(self).enc.terms.tm(#[trigger] r@[i]) == term::tm_eq(
                    old(self).enc.terms.tm(v),
                    term::bv32(cases@[i].0 as int),
                ),
    {
        let mut r: Vec<Term> = Vec::new();
        proof {
            self.enc.terms.lemma_built_grows_self();
        }
        let mut i: usize = 0;
        while i < cases.len()
            invariant
                i <= cases@.len(),
                *self == (Explorer {
                    enc: Encoder { terms: self.enc.terms, ..old(self).enc },
                    ..*old(self)
                }),
                self.enc.terms.built_from(old(self).enc.terms),
                old(self).enc.terms.has(v),
                r@.len() == i,
                explore::terms_in(self.enc.terms, r@),
                forall|j: int|
                    0 <= j < i ==> self.enc.terms.tm(#[trigger] r@[j]) == term::tm_eq(
                        old(self).enc.terms.tm(v),
                        term::bv32(cases@[j].0 as int),
                    ),
            decreases cases@.len() - i,
        {
            let ghost before = self.enc.terms;
            let ghost done = r@;
            let c = self.enc.terms.bv_const(cases[i].0 as i64, 32);
            let eq = self.enc.terms.equal(v, c);
            r.push(eq);
            proof {
                assert forall|j: int| 0 <= j < r@.len() implies self.enc.terms.has(
                    #[trigger] r@[j],
                ) by {
                    if j < i {
                        assert(before.has(done[j]));
                    }
                }
                assert forall|j: int| 0 <= j < i + 1 implies self.enc.terms.tm(#[trigger] r@[j])
                    == term::tm_eq(
                    old(self).enc.terms.tm(v),
                    term::bv32(cases@[j].0 as int),
                ) by {
                    if j < i {
                        assert(before.has(done[j]));
                        assert(r@[j] == done[j]);
                    }
                }
            }
            i += 1;
        }
        proof {
            self.enc.lemma_built_settles(old(self).enc);
            self.enc.terms.lemma_built_grows(old(self).enc.terms);
            lemma_extends_refl(self.enc.st.nondet_terms@);
            self.lemma_enc_step(*old(self));
        }
        r
    }

    /// Go into the default arm of a switch: none of the cases holds.
    fn take_default(&mut self, tainted: bool, conds: &Vec<Term>)
        requires
            old(self).ok(),
            explore::terms_in(old(self).enc.terms, conds@),
        ensures
            final(self).ok(),
            final(self).after(*old(self)),
            final(self).same_place(*old(self)),
            final(self).default_taken(*old(self), tainted, conds@),
    {
        proof {
            self.lemma_after_refl();
        }
        if tainted {
            self.enc.st.path_tainted = true;
            proof {
                reveal(State::fits);
                self.lemma_enc_step(*old(self));
            }
        }
        let ghost flagged = *self;
        let mut i: usize = 0;
        while i < conds.len()
            invariant
                flagged == old(self).flagged(tainted),
                *self == (Explorer {
                    enc: Encoder { terms: self.enc.terms, ..flagged.enc },
                    path: self.path,
                    ..flagged
                }),
                i <= conds@.len(),
                old(self).ok(),
                explore::terms_in(old(self).enc.terms, conds@),
                self.ok(),
                self.after(*old(self)),
                self.same_place(*old(self)),
                self.enc.terms.built_from(old(self).enc.terms),
                self.path@.len() == old(self).path@.len() + i,
                forall|j: int|
                    0 <= j < i ==> self.enc.terms.tm(
                        #[trigger] self.path@[old(self).path@.len() + j],
                    ) == term::tm_not(old(self).enc.terms.tm(conds@[j])),
            decreases conds@.len() - i,
        {
            let ghost before = *self;
            proof {
                assert(old(self).enc.terms.has(conds@[i as int]));
            }
            let c = self.enc.terms.not(conds[i]);
            proof {
                self.enc.lemma_built_settles(before.enc);
                self.enc.terms.lemma_built_grows(before.enc.terms);
                lemma_extends_refl(self.enc.st.nondet_terms@);
                self.lemma_enc_step(before);
            }
            let ghost built = *self;
            self.path.push(c);
            proof {
                built.lemma_after_refl();
                lemma_extends_push(built.path@, c);
                self.lemma_after_trans(built, before);
                self.lemma_after_trans(before, *old(self));
                assert forall|j: int| 0 <= j < i + 1 implies self.enc.terms.tm(
                    #[trigger] self.path@[old(self).path@.len() + j],
                ) == term::tm_not(old(self).enc.terms.tm(conds@[j])) by {
                    if j < i {
                        assert(before.enc.terms.has(before.path@[old(self).path@.len() + j]));
                        assert(self.path@[old(self).path@.len() + j] == before.path@[old(
                            self).path@.len() + j]);
                    }
                }
            }
            i += 1;
        }
    }

    /// Explore the cases of a switch one after the other, as long as there is
    /// budget. Each starts from the same state; `count` says whether they count as
    /// forks.
    fn explore_cases(
        &mut self,
        tainted: bool,
        conds: &Vec<Term>,
        cases: &Vec<(i32, BlockId)>,
        stop: Option<BlockId>,
        count: bool,
    ) -> (r: Arms)
        requires
            old(self).ok(),
            conds@.len() == cases@.len(),
            explore::terms_in(old(self).enc.terms, conds@),
            forall|i: int|
                0 <= i < cases@.len() ==> (#[trigger] cases@[i]).1.0 < old(
                    self).enc.body.blocks@.len(),
        ensures
            final(self).ok(),
            final(self).after(*old(self)),
            final(self).same_place(*old(self)),
            final(self).enc.st.alike(old(self).enc.st),
            final(self).path@ == old(self).path@,
            r.fits(old(self).enc.st, old(self).enc.body.vars@.len(), final(self).enc.terms),
            r.states@.len() <= cases@.len(),
            r.states@.len() < cases@.len() ==> !final(self).has_budget(),
            final(self).cases_explored(
                *old(self),
                tainted,
                conds@,
                cases@,
                stop,
                count,
                r.states@.len(),
                r,
            ),
        decreases
            MAX_CALL_DEPTH - old(self).call_depth,
            old(self).max_depth + 2 - old(self).depth,
            7int,
    {
        let ghost vars = self.enc.body.vars@.len();
        let n = self.path.len();
        let ret_before = self.ret;
        let tainted_before = self.ret_tainted;
        let mut arms = Arms {
            conds: Vec::new(),
            states: Vec::new(),
            rets: Vec::new(),
            tainted: false,
        };
        proof {
            self.lemma_after_refl();
        }
        let mut i: usize = 0;
        while i < cases.len() && self.budget_left()
            invariant
                i <= cases@.len(),
                conds@.len() == cases@.len(),
                old(self).ok(),
                explore::terms_in(old(self).enc.terms, conds@),
                forall|i: int|
                    0 <= i < cases@.len() ==> (#[trigger] cases@[i]).1.0 < old(
                        self).enc.body.blocks@.len(),
                self.ok(),
                self.after(*old(self)),
                self.same_place(*old(self)),
                self.enc.st.alike(old(self).enc.st),
                self.path@ == old(self).path@,
                n == old(self).path@.len(),
                vars == old(self).enc.body.vars@.len(),
                ret_before == old(self).ret,
                tainted_before == old(self).ret_tainted,
                arms.fits(old(self).enc.st, vars, self.enc.terms),
                arms.states@.len() == i,
                self.cases_explored(
                    *old(self),
                    tainted,
                    conds@,
                    cases@,
                    stop,
                    count,
                    i as nat,
                    arms,
                ),
            decreases cases@.len() - i,
        {
            let ghost before = *self;
            let saved = self.enc.st.save_state();
            proof {
                saved.lemma_alike_fits(self.enc.st, vars, self.enc.terms);
                before.lemma_after_refl();
                assert(old(self).enc.terms.has(conds@[i as int]));
            }
            if count {
                self.count_fork();
            }
            let ghost ready = *self;
            if tainted {
                self.enc.st.path_tainted = true;
                proof {
                    reveal(State::fits);
                    lemma_extends_refl(self.enc.st.nondet_terms@);
                    self.enc.terms.lemma_built_grows_self();
                    self.lemma_enc_step(ready);
                }
            } else {
                proof {
                    self.lemma_after_refl();
                }
            }
            let ghost flagged = *self;
            self.path.push(conds[i]);
            proof {
                flagged.lemma_after_refl();
                lemma_extends_push(flagged.path@, conds@[i as int]);
            }
            let ghost taken = *self;
            proof {
                taken.lemma_after_trans(flagged, ready);
                taken.lemma_after_trans(ready, before);
                assert(cases@[i as int].1.0 < self.enc.body.blocks@.len());
            }
            self.explore_block_until(cases[i].1, 0, stop);
            let ghost done = *self;
            let end = self.enc.st.save_state();
            proof {
                done.lemma_after_trans(taken, before);
                end.lemma_alike_fits(done.enc.st, vars, done.enc.terms);
                saved.lemma_fits_grown(vars, before.enc.terms, done.enc.terms);
                lemma_arms_grown(
                    arms,
                    old(self).enc.st,
                    vars,
                    before.enc.terms,
                    done.enc.terms,
                );
                lemma_extends_refl(before.enc.st.nondet_terms@);
            }
            let ghost arms_before = arms;
            let ghost end_state = end;
            arms.conds.push(conds[i]);
            arms.states.push(end);
            arms.rets.push(self.ret);
            arms.tainted = arms.tainted || self.ret_tainted;
            proof {
                assert(arms.fits(old(self).enc.st, vars, done.enc.terms)) by {
                    assert forall|j: int| 0 <= j < arms.states@.len() implies (
                    #[trigger] arms.states@[j]).fits(vars, done.enc.terms) && extends_nondets(
                        arms.states@[j],
                        old(self).enc.st,
                    ) by {
                        if j < i {
                            assert(arms.states@[j] == arms_before.states@[j]);
                        }
                    }
                    assert forall|j: int| 0 <= j < arms.conds@.len() implies done.enc.terms.has(
                        #[trigger] arms.conds@[j],
                    ) by {
                        if j < i {
                            assert(arms.conds@[j] == arms_before.conds@[j]);
                        }
                    }
                    assert forall|j: int| 0 <= j < arms.rets@.len() implies done.enc.terms.has_opt(
                        #[trigger] arms.rets@[j],
                    ) by {
                        if j < i {
                            assert(arms.rets@[j] == arms_before.rets@[j]);
                        }
                    }
                }
            }
            self.restore_state(saved, n);
            proof {
                self.lemma_restored(done, before);
                self.lemma_after_trans(before, *old(self));
            }
            if count {
                self.ret = ret_before;
                self.ret_tainted = tainted_before;
            }
            proof {
                assert(before.stays_having(*old(self), arms_before));
                assert(taken.stays(*old(self)));
                assert(taken.case_taken(before, tainted, conds@[i as int], count));
                assert(done.stays(taken));
                assert(end_state.alike(done.enc.st));
                assert(arms.grew(
                    arms_before,
                    conds@[i as int],
                    end_state,
                    done.ret,
                    done.ret_tainted,
                ));
                assert(self.case_left(done, before, *old(self), !count));
                assert(before.cases_explored(
                    *old(self),
                    tainted,
                    conds@,
                    cases@,
                    stop,
                    count,
                    ((i + 1) - 1) as nat,
                    arms_before,
                ));
                assert(before.has_budget());
                assert(done.explored(taken, cases@[(i + 1) - 1].1, 0, stop));
                assert(self.cases_explored(
                    *old(self),
                    tainted,
                    conds@,
                    cases@,
                    stop,
                    count,
                    (i + 1) as nat,
                    arms,
                ));
            }
            i += 1;
        }
        arms
    }

    /// Join the arms of a switch into the state at the end of its default, the
    /// first case on top.
    fn join_arms(&mut self, arms: &Arms, default: State, base: Ghost<State>) -> (r: State)
        requires
            old(self).ok(),
            arms.fits(base@, old(self).enc.body.vars@.len(), old(self).enc.terms),
            default.fits(old(self).enc.body.vars@.len(), old(self).enc.terms),
        ensures
            final(self).ok(),
            final(self).after(*old(self)),
            final(self).same_place(*old(self)),
            *final(self) == (Explorer {
                enc: Encoder { terms: final(self).enc.terms, ..old(self).enc },
                ..*old(self)
            }),
            final(self).enc.terms.built_from(old(self).enc.terms),
            r.fits(old(self).enc.body.vars@.len(), final(self).enc.terms),
            runs::arms_joined(final(self).enc, old(self).enc, *arms, default, 0, r),
    {
        let ghost vars = self.enc.body.vars@.len();
        let mut acc = default;
        proof {
            self.enc.terms.lemma_built_grows_self();
            self.lemma_after_refl();
        }
        let mut i: usize = arms.states.len();
        while i > 0
            invariant
                i <= arms.states@.len(),
                old(self).ok(),
                *self == (Explorer {
                    enc: Encoder { terms: self.enc.terms, ..old(self).enc },
                    ..*old(self)
                }),
                self.enc.terms.built_from(old(self).enc.terms),
                self.ok(),
                vars == self.enc.body.vars@.len(),
                acc.fits(vars, self.enc.terms),
                arms.fits(base@, vars, self.enc.terms),
                runs::arms_joined(self.enc, old(self).enc, *arms, default, i as nat, acc),
            decreases i,
        {
            let ghost before = *self;
            i -= 1;
            proof {
                assert(self.enc.terms.has(arms.conds@[i as int]));
                assert(arms.states@[i as int].fits(vars, self.enc.terms));
            }
            let ghost had = acc;
            acc = self.enc.merge_saved_into(acc, arms.conds[i], &arms.states[i]);
            proof {
                assert(runs::case_step(
                    self.enc,
                    before.enc,
                    arms.conds@[i as int],
                    had,
                    arms.states@[i as int],
                    acc,
                ));
                lemma_arms_grown(*arms, base@, vars, before.enc.terms, self.enc.terms);
                self.enc.terms.lemma_built_grows(before.enc.terms);
                lemma_extends_refl(self.enc.st.nondet_terms@);
                self.lemma_enc_step(before);
            }
        }
        proof {
            self.enc.terms.lemma_built_grows(old(self).enc.terms);
            lemma_extends_refl(self.enc.st.nondet_terms@);
            self.lemma_enc_step(*old(self));
        }
        acc
    }

    /// Join what the arms of a switch return into what its default returns, the
    /// first case on top.
    fn join_arm_returns(&mut self, arms: &Arms, default: Option<Term>, base: Ghost<State>) -> (r:
        Option<Term>)
        requires
            old(self).ok(),
            arms.fits(base@, old(self).enc.body.vars@.len(), old(self).enc.terms),
            old(self).enc.terms.has_opt(default),
        ensures
            final(self).ok(),
            final(self).after(*old(self)),
            final(self).same_place(*old(self)),
            *final(self) == (Explorer {
                enc: Encoder { terms: final(self).enc.terms, ..old(self).enc },
                ..*old(self)
            }),
            final(self).enc.terms.has_opt(r),
            runs::returns_folded(final(self).enc, old(self).enc, *arms, default, 0, r),
    {
        let mut acc = default;
        proof {
            self.enc.terms.lemma_built_grows_self();
            self.lemma_after_refl();
        }
        let mut i: usize = arms.states.len();
        while i > 0
            invariant
                i <= arms.states@.len(),
                old(self).ok(),
                arms.fits(base@, old(self).enc.body.vars@.len(), old(self).enc.terms),
                *self == (Explorer {
                    enc: Encoder { terms: self.enc.terms, ..old(self).enc },
                    ..*old(self)
                }),
                self.enc.terms.built_from(old(self).enc.terms),
                self.enc.terms.has_opt(acc),
                runs::returns_folded(self.enc, old(self).enc, *arms, default, i as nat, acc),
            decreases i,
        {
            let ghost before = self.enc;
            let ghost had = acc;
            i -= 1;
            proof {
                assert(old(self).enc.terms.has(arms.conds@[i as int]));
                assert(old(self).enc.terms.has_opt(arms.rets@[i as int]));
            }
            match (arms.rets[i], acc) {
                (Some(x), Some(y)) => {
                    if x != y {
                        acc = Some(self.enc.terms.ite(arms.conds[i], x, y));
                    }
                },
                (Some(x), None) => {
                    acc = Some(x);
                },
                _ => {},
            }
            proof {
                before.terms.lemma_built_grows_self();
                assert(runs::return_step(
                    self.enc,
                    before,
                    arms.conds@[i as int],
                    arms.rets@[i as int],
                    had,
                    acc,
                ));
            }
        }
        proof {
            self.enc.lemma_built_settles(old(self).enc);
            self.enc.terms.lemma_built_grows(old(self).enc.terms);
            lemma_extends_refl(self.enc.st.nondet_terms@);
            self.lemma_enc_step(*old(self));
        }
        acc
    }

    /// Take over the inputs that the arms of a switch met.
    fn collect_all(&mut self, arms: &mut Arms, default: &State, base: Ghost<State>)
        requires
            old(self).ok(),
            old(arms).fits(base@, old(self).enc.body.vars@.len(), old(self).enc.terms),
            default.fits(old(self).enc.body.vars@.len(), old(self).enc.terms),
            extends_nondets(*default, base@),
            old(self).enc.st.nondet_terms@ == base@.nondet_terms@,
        ensures
            final(self).ok(),
            final(self).after(*old(self)),
            final(self).same_place(*old(self)),
            final(self).inputs_collected(*old(self), old(arms).states@, *default),
            final(arms).fits(base@, old(self).enc.body.vars@.len(), old(self).enc.terms),
            final(arms).states@ == old(arms).states@,
            final(arms).conds == old(arms).conds,
            final(arms).rets == old(arms).rets,
            final(arms).tainted == old(arms).tainted,
    {
        let ghost vars = self.enc.body.vars@.len();
        let last = default.save_state();
        proof {
            last.lemma_alike_fits(*default, vars, self.enc.terms);
        }
        let ghost listed = arms.states@;
        let ghost last_state = last;
        arms.states.push(last);
        proof {
            assert forall|i: int| 0 <= i < arms.states@.len() implies {
                &&& (#[trigger] arms.states@[i]).fits(vars, self.enc.terms)
                &&& self.enc.st.nondet_terms@.len() <= arms.states@[i].nondet_terms@.len()
            } by {
                if i < listed.len() {
                    assert(arms.states@[i] == listed[i]);
                }
            }
        }
        self.enc.collect_nondets_dedup(&arms.states);
        let _ = arms.states.pop();
        proof {
            assert(arms.states@ =~= listed);
            assert(last_state.alike(*default));
            super::merge::lemma_case_inputs_extend(
                old(self).enc.st.nondet_terms@,
                listed.push(last),
                (listed.len() + 1) as nat,
            );
            self.enc.terms.lemma_built_grows_self();
            self.lemma_enc_step(*old(self));
        }
    }

    /// Follow a switch. Where the arms meet again they are explored up to that
    /// point and joined; else the path forks.
    fn explore_switch(
        &mut self,
        value: &Operand,
        cases: &Vec<(i32, BlockId)>,
        default: BlockId,
        stop: Option<BlockId>,
    )
        requires
            old(self).ok(),
            value.in_range(old(self).enc.body.vars@.len()),
            default.0 < old(self).enc.body.blocks@.len(),
            forall|i: int|
                0 <= i < cases@.len() ==> (#[trigger] cases@[i]).1.0 < old(
                    self).enc.body.blocks@.len(),
        ensures
            final(self).ok(),
            final(self).after(*old(self)),
            final(self).same_place(*old(self)),
            final(self).switched(*old(self), *value, cases@, default, stop),
        decreases
            MAX_CALL_DEPTH - old(self).call_depth,
            old(self).max_depth + 2 - old(self).depth,
            9int,
    {
        let ghost vars = self.enc.body.vars@.len();
        let tainted = self.enc.operand_tainted(value);
        let v = self.enc.encode_operand(value);
        proof {
            self.enc.terms.lemma_built_grows(old(self).enc.terms);
            lemma_extends_refl(self.enc.st.nondet_terms@);
            self.lemma_enc_step(*old(self));
        }
        let ghost settled = *self;
        let mut targets: Vec<BlockId> = Vec::new();
        let mut i: usize = 0;
        while i < cases.len()
            invariant
                i <= cases@.len(),
                targets@.len() == i,
                forall|j: int| 0 <= j < i ==> #[trigger] targets@[j] == cases@[j].1,
            decreases cases@.len() - i,
        {
            targets.push(cases[i].1);
            i += 1;
        }
        targets.push(default);
        proof {
            assert forall|j: int| 0 <= j < targets@.len() implies (#[trigger] targets@[j]).0
                < self.enc.body.blocks@.len() by {
                if j < cases@.len() {
                    assert(targets@[j] == cases@[j].1);
                }
            }
        }
        let join = self.find_join_multi(&targets);
        let ghost joined = *self;
        proof {
            joined.lemma_after_trans(settled, *old(self));
        }
        let conds = self.case_conditions(v, cases);
        let ghost start = *self;
        proof {
            start.lemma_after_trans(joined, *old(self));
            assert(targets@ =~= runs::switch_targets(cases@, default));
            start.enc.lemma_settle_then_build(settled.enc, old(self).enc);
            start.enc.lemma_operand_same(settled.enc, *value);
            assert(start.cases_read(*old(self), *value, cases@, conds@));
        }
        match join {
            Some(at) => {
                self.switch_to_join(tainted, &conds, cases, default, at, stop);
            },
            None => {
                self.switch_by_forks(tainted, &conds, cases, default, stop);
            },
        }
        proof {
            self.lemma_after_trans(start, *old(self));
        }
    }

    /// A switch whose arms meet again.
    fn switch_to_join(
        &mut self,
        tainted: bool,
        conds: &Vec<Term>,
        cases: &Vec<(i32, BlockId)>,
        default: BlockId,
        at: BlockId,
        stop: Option<BlockId>,
    )
        requires
            old(self).ok(),
            default.0 < old(self).enc.body.blocks@.len(),
            at.0 < old(self).enc.body.blocks@.len(),
            conds@.len() == cases@.len(),
            explore::terms_in(old(self).enc.terms, conds@),
            forall|i: int|
                0 <= i < cases@.len() ==> (#[trigger] cases@[i]).1.0 < old(
                    self).enc.body.blocks@.len(),
        ensures
            final(self).ok(),
            final(self).after(*old(self)),
            final(self).same_place(*old(self)),
            final(self).switch_joined(
                *old(self),
                tainted,
                conds@,
                cases@,
                default,
                at,
                stop,
            ),
        decreases
            MAX_CALL_DEPTH - old(self).call_depth,
            old(self).max_depth + 2 - old(self).depth,
            8int,
    {
        let ghost vars = self.enc.body.vars@.len();
        let ghost base = self.enc.st;
        let mut arms = self.explore_cases(tainted, conds, cases, Some(at), false);
        let ghost cased = *self;
        let ghost arms_cased = arms;
        proof {
            assert(cased.stays_at(*old(self), arms.states@.len()));
            assert(cased.stays_having(*old(self), arms));
        }
        if !self.budget_left() {
            return;
        }
        let n = self.path.len();
        let saved = self.enc.st.save_state();
        proof {
            saved.lemma_alike_fits(self.enc.st, vars, self.enc.terms);
        }
        self.take_default(tainted, conds);
        let ghost taken = *self;
        self.explore_block_until(default, 0, Some(at));
        let ghost done = *self;
        let end = self.enc.st.save_state();
        proof {
            done.lemma_after_trans(taken, cased);
            end.lemma_alike_fits(done.enc.st, vars, done.enc.terms);
            saved.lemma_fits_grown(vars, cased.enc.terms, done.enc.terms);
            lemma_arms_grown(arms, base, vars, cased.enc.terms, done.enc.terms);
            lemma_extends_refl(cased.enc.st.nondet_terms@);
        }
        self.restore_state(saved, n);
        let ghost back = *self;
        proof {
            back.lemma_restored(done, cased);
            assert(taken.stays(*old(self)));
            assert(taken.default_taken(cased, tainted, conds@));
            assert(done.stays(taken));
            assert(end.alike(done.enc.st));
            assert(back.back_at(done, cased));
        }
        let ghost ended = end;
        self.collect_all(&mut arms, &end, Ghost(base));
        let ghost collected = *self;
        let merged = self.join_arms(&arms, end, Ghost(base));
        let ghost built = *self;
        self.enc.apply_merged_state(merged);
        let ghost applied = *self;
        proof {
            collected.lemma_after_trans(back, cased);
            built.lemma_after_trans(collected, cased);
            lemma_extends_refl(built.enc.st.nondet_terms@);
            built.enc.terms.lemma_built_grows_self();
            applied.lemma_enc_step(built);
            applied.lemma_after_trans(built, cased);
            lemma_same_arms(built.enc, collected.enc, arms, arms_cased, ended, 0, merged);
            assert(collected.inputs_collected(back, arms_cased.states@, ended));
            assert(built == (Explorer { enc: built.enc, ..collected }));
            assert(applied.merged_applied(built, merged));
            assert(applied.arms_applied(back, arms_cased, ended));
            assert(applied.stays(*old(self)));
        }
        self.explore_block_until(at, 0, stop);
        proof {
            self.lemma_after_trans(applied, cased);
            self.lemma_after_trans(cased, *old(self));
        }
    }

    /// A switch whose arms do not meet again.
    fn switch_by_forks(
        &mut self,
        tainted: bool,
        conds: &Vec<Term>,
        cases: &Vec<(i32, BlockId)>,
        default: BlockId,
        stop: Option<BlockId>,
    )
        requires
            old(self).ok(),
            default.0 < old(self).enc.body.blocks@.len(),
            conds@.len() == cases@.len(),
            explore::terms_in(old(self).enc.terms, conds@),
            forall|i: int|
                0 <= i < cases@.len() ==> (#[trigger] cases@[i]).1.0 < old(
                    self).enc.body.blocks@.len(),
        ensures
            final(self).ok(),
            final(self).after(*old(self)),
            final(self).same_place(*old(self)),
            final(self).switch_forked(*old(self), tainted, conds@, cases@, default, stop),
        decreases
            MAX_CALL_DEPTH - old(self).call_depth,
            old(self).max_depth + 2 - old(self).depth,
            8int,
    {
        let ghost vars = self.enc.body.vars@.len();
        let ghost base = self.enc.st;
        let ret_before = self.ret;
        let mut arms = self.explore_cases(tainted, conds, cases, stop, true);
        let ghost cased = *self;
        let ghost arms_cased = arms;
        proof {
            assert(cased.stays_at(*old(self), arms.states@.len()));
            assert(cased.stays_having(*old(self), arms));
        }
        let n = self.path.len();
        let saved = self.enc.st.save_state();
        proof {
            saved.lemma_alike_fits(self.enc.st, vars, self.enc.terms);
            cased.lemma_after_refl();
        }
        if self.budget_left() {
            self.take_default(tainted, conds);
            let ghost taken = *self;
            self.explore_block_until(default, 0, stop);
            proof {
                self.lemma_after_trans(taken, cased);
                assert(taken.stays(*old(self)));
                assert(taken.default_taken(cased, tainted, conds@));
            }
        }
        let ghost done = *self;
        let end = self.enc.st.save_state();
        let end_ret = self.ret;
        let end_tainted = self.ret_tainted;
        proof {
            end.lemma_alike_fits(done.enc.st, vars, done.enc.terms);
            saved.lemma_fits_grown(vars, cased.enc.terms, done.enc.terms);
            lemma_arms_grown(arms, base, vars, cased.enc.terms, done.enc.terms);
            lemma_extends_refl(cased.enc.st.nondet_terms@);
        }
        self.restore_state(saved, n);
        let ghost back = *self;
        proof {
            back.lemma_restored(done, cased);
            assert(done.stays(cased));
            assert(end.alike(done.enc.st));
            assert(back.back_at(done, cased));
        }
        let ghost ended = end;
        self.collect_all(&mut arms, &end, Ghost(base));
        let ghost collected = *self;
        let ret = self.join_arm_returns(&arms, end_ret, Ghost(base));
        let ghost returned = *self;
        proof {
            lemma_arms_grown(arms, base, vars, collected.enc.terms, returned.enc.terms);
            end.lemma_fits_grown(vars, done.enc.terms, returned.enc.terms);
        }
        let merged = self.join_arms(&arms, end, Ghost(base));
        let ghost built = *self;
        self.enc.apply_merged_state(merged);
        let ghost applied = *self;
        proof {
            collected.lemma_after_trans(back, cased);
            returned.lemma_after_trans(collected, cased);
            built.lemma_after_trans(returned, cased);
            lemma_extends_refl(built.enc.st.nondet_terms@);
            built.enc.terms.lemma_built_grows_self();
            applied.lemma_enc_step(built);
            applied.lemma_after_trans(built, cased);
            applied.lemma_after_trans(cased, *old(self));
        }
        self.ret = match ret {
            Some(t) => Some(t),
            None => ret_before,
        };
        self.ret_tainted = end_tainted || arms.tainted;
        proof {
            lemma_same_arms(built.enc, returned.enc, arms, arms_cased, ended, 0, merged);
            lemma_same_returns(returned.enc, collected.enc, arms, arms_cased, done.ret, 0, ret);
            assert(collected.inputs_collected(back, arms_cased.states@, ended));
            assert(runs::returns_folded(
                returned.enc,
                collected.enc,
                arms_cased,
                done.ret,
                0,
                ret,
            ));
            assert(built == (Explorer { enc: built.enc, ..collected }));
            assert((Explorer {
                ret: collected.ret,
                ret_tainted: collected.ret_tainted,
                ..*self
            }) == applied);
            assert(applied.merged_applied(built, merged));
            assert(self.arms_returned(back, done, arms_cased, ended, old(self).ret));
        }
    }
}

} // verus!
