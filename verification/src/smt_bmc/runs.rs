//! What an exploration does, as relations between the explorer before and after.
//!
//! The solver decides which paths are followed, and new symbols are numbered as
//! they come, so an exploration is not a function of the program alone. Each
//! relation here says which states can come after a given one. The questions and the
//! answers are those that the solver has recorded since the exploration began.

use vstd::prelude::*;

use super::effects;
use super::effects::Assigned;
use super::explore;
use super::explore::{Effort, Explorer, Findings, SatResult, Solver, MAX_LOOP_UNROLL};
use super::frames;
use super::frames::Args;
use super::heap;
use super::math_encode;
use super::merge;
use super::paths;
use super::rvalue;
use super::rvalue::MAX_CALL_DEPTH;
use super::state::{Encoder, LoopKeyV, State};
use super::str_encode;
use super::wrap_encode;
use crate::ir::{
    Block, BlockId, Body, MethodKey, MethodKeyV, Operand, Rvalue, Stmt, Terminator, Ty, VarId,
};
use crate::postdom;
use crate::program;
use crate::term;
use crate::term::{Term, Tm};

verus! {

/// What was explored of a switch: the condition, the final state and the returned
/// value of each arm, and whether one of those values is tainted.
pub struct Arms {
    pub conds: Vec<Term>,
    pub states: Vec<State>,
    pub rets: Vec<Option<Term>>,
    pub tainted: bool,
}

impl Arms {
    /// No arm was explored.
    pub open spec fn none(self) -> bool {
        &&& self.conds@.len() == 0
        &&& self.states@.len() == 0
        &&& self.rets@.len() == 0
        &&& !self.tainted
    }

    /// One more arm was explored.
    pub open spec fn grew(self, old: Arms, c: Term, end: State, ret: Option<Term>, tainted: bool) -> bool {
        &&& self.conds@ == old.conds@.push(c)
        &&& self.states@ == old.states@.push(end)
        &&& self.rets@ == old.rets@.push(ret)
        &&& self.tainted == (old.tainted || tainted)
    }
}

/// The state of one arm was joined into what was joined before.
pub open spec fn case_step(e: Encoder, old: Encoder, c: Term, acc: State, case: State, r: State) -> bool {
    &&& e == Encoder { terms: e.terms, ..old }
    &&& e.terms.built_from(old.terms)
    &&& merge::case_joined(e.terms, old.terms.tm(c), old.st, acc, case, r)
}

/// The arms from the last down to `i` were joined into the state at the end of the
/// default, one after the other: the first is on top at the end.
pub open spec fn arms_joined(e: Encoder, old: Encoder, arms: Arms, default: State, i: nat, r: State) -> bool
    decreases arms.states@.len() - i,
{
    if i >= arms.states@.len() {
        e == old && r == default
    } else {
        exists|mid: Encoder, acc: State|
            {
                &&& arms_joined(mid, old, arms, default, i + 1, acc)
                &&& #[trigger] case_step(
                    e,
                    mid,
                    arms.conds@[i as int],
                    acc,
                    arms.states@[i as int],
                    r,
                )
            }
    }
}

/// What one arm returns was joined into what was joined before.
pub open spec fn return_step(
    e: Encoder,
    old: Encoder,
    c: Term,
    x: Option<Term>,
    acc: Option<Term>,
    r: Option<Term>,
) -> bool {
    &&& e == Encoder { terms: e.terms, ..old }
    &&& e.terms.built_from(old.terms)
    &&& merge::joins(e.terms, old.terms.tm(c), x, acc, r)
}

/// What the arms from the last down to `i` return was joined into what the default
/// returns.
pub open spec fn returns_folded(
    e: Encoder,
    old: Encoder,
    arms: Arms,
    default: Option<Term>,
    i: nat,
    r: Option<Term>,
) -> bool
    decreases arms.rets@.len() - i,
{
    if i >= arms.rets@.len() {
        e == old && r == default
    } else {
        exists|mid: Encoder, acc: Option<Term>|
            {
                &&& returns_folded(mid, old, arms, default, i + 1, acc)
                &&& #[trigger] return_step(
                    e,
                    mid,
                    arms.conds@[i as int],
                    arms.rets@[i as int],
                    acc,
                    r,
                )
            }
    }
}

/// Is the call modelled without following it into a body?
pub open spec fn call_modelled(e: Encoder, target: MethodKey, args: Seq<Operand>) -> bool {
    if e.models.owns_strings(target.class@) {
        str_encode::str_case(e, target, args) matches Some(f) && str_encode::texts_known(e, f, args)
            && str_encode::values_given(f, args.len())
    } else {
        paths::formula_call(target, args.len()) || wrap_encode::wraps(target, args.len())
    }
}

/// What the encoding of a modelled call leaves behind: its value, and its content
/// where that is known.
pub open spec fn call_outcome(
    e: Encoder,
    old: Encoder,
    target: MethodKey,
    args: Seq<Operand>,
    p: (Term, Option<Term>),
) -> bool {
    if old.models.owns_strings(target.class@) {
        str_encode::str_outcome(e, old, str_encode::str_case(old, target, args)->0, args, p)
    } else if paths::formula_call(target, args.len()) {
        math_encode::math_outcome(e, old, target, args, p.0) && p.1 is None
    } else {
        wrap_encode::wrap_outcome(e, old, target, args, p)
    }
}

/// The methods that a call can reach.
pub open spec fn callees_of(p: program::Program, target: MethodKeyV, is_virtual: bool) -> Seq<
    MethodKeyV,
> {
    if is_virtual {
        program::targets_of(p.dispatch@, target)
    } else {
        seq![target]
    }
}

/// The initialiser of a class.
pub open spec fn clinit_of(class: Seq<char>) -> MethodKeyV {
    MethodKeyV { class, name: "<clinit>"@, desc: "()V"@ }
}

/// The variables of a state are those at the start of a call.
pub open spec fn at_call(s: State, callee: Body, args: Args) -> bool {
    let infos = callee.vars@;
    &&& forall|v: int|
        0 <= v < infos.len() ==> match frames::arg_in(infos, args.terms@.len(), v) {
            Some(i) => {
                &&& #[trigger] s.vars@[v] == Some(args.terms@[i])
                &&& s.str_vars@[v] == args.texts@[i]
                &&& s.tainted@[v] == args.tainted@[i]
            },
            None => {
                &&& s.vars@[v] is None
                &&& s.str_vars@[v] is None
                &&& !s.tainted@[v]
            },
        }
    &&& s.var_widths@ == Seq::new(infos.len(), |i: int| None::<u32>)
    &&& s.float_tainted@ == Seq::new(infos.len(), |i: int| false)
}

/// Nothing is known of the variables of a state.
pub open spec fn at_start(s: State, callee: Body) -> bool {
    let n = callee.vars@.len();
    &&& s.vars@ == Seq::new(n, |i: int| None::<Term>)
    &&& s.str_vars@ == Seq::new(n, |i: int| None::<Term>)
    &&& s.var_widths@ == Seq::new(n, |i: int| None::<u32>)
    &&& s.tainted@ == Seq::new(n, |i: int| false)
    &&& s.float_tainted@ == Seq::new(n, |i: int| false)
}

/// The same variables.
pub open spec fn same_locals(s: State, old: State) -> bool {
    &&& s.vars@ == old.vars@
    &&& s.str_vars@ == old.str_vars@
    &&& s.var_widths@ == old.var_widths@
    &&& s.tainted@ == old.tainted@
    &&& s.float_tainted@ == old.float_tainted@
}

impl<'a, S: Solver> Explorer<'a, S> {
    /// The exploration stands at the same place, under the same bound.
    pub open spec fn stays(self, old: Self) -> bool {
        self.ok() && self.same_place(old) && self.max_depth == old.max_depth
    }

    /// As [`Explorer::stays`], after `i` steps.
    pub open spec fn stays_at(self, old: Self, i: nat) -> bool {
        self.stays(old)
    }

    /// As [`Explorer::stays`], with a flag.
    pub open spec fn stays_with(self, old: Self, flag: bool) -> bool {
        self.stays(old)
    }

    /// As [`Explorer::stays`], with the arms explored so far.
    pub open spec fn stays_having(self, old: Self, arms: Arms) -> bool {
        self.stays(old)
    }

    /// A path was cut short.
    pub open spec fn shortened(self) -> Self {
        Explorer { found: Findings { all_paths_complete: false, ..self.found }, ..self }
    }

    /// One more block was visited.
    pub open spec fn visited(self) -> Self {
        Explorer {
            effort: Effort {
                block_visits: if self.effort.block_visits < u64::MAX {
                    (self.effort.block_visits + 1) as u64
                } else {
                    self.effort.block_visits
                },
                ..self.effort
            },
            ..self
        }
    }

    /// The path was forked once more.
    pub open spec fn fork_counted(self) -> Self {
        Explorer {
            effort: Effort { fork_count: paths::counted(self.effort.fork_count), ..self.effort },
            ..self
        }
    }

    /// A call was not resolved, in a block that has exception handlers or not.
    pub open spec fn left_unresolved(self, guarded: bool) -> Self {
        Explorer {
            found: Findings {
                all_calls_resolved: false,
                has_unresolved_in_try: self.found.has_unresolved_in_try || guarded,
                ..self.found
            },
            ..self
        }
    }

    /// A loop was entered once more; `go_on` says whether it may be.
    pub open spec fn loop_entered(self, old: Self, target: BlockId, go_on: bool) -> bool {
        let k = LoopKeyV { method: old.enc.body.key@, block: target.0 };
        let before = match old.enc.st.loop_visits.at(k) {
            Some(n) => n,
            None => 0u32,
        };
        &&& go_on == (paths::counted(before) <= MAX_LOOP_UNROLL)
        &&& forall|x: LoopKeyV|
            #[trigger] self.enc.st.loop_visits.at(x) == if x == k {
                Some(paths::counted(before))
            } else {
                old.enc.st.loop_visits.at(x)
            }
        &&& self == (Explorer {
            enc: Encoder {
                st: State { loop_visits: self.enc.st.loop_visits, ..old.enc.st },
                ..old.enc
            },
            ..old
        })
    }

    /// The state and the path are those of `base` again; all else is as at the end
    /// of what was explored since.
    pub open spec fn back_at(self, done: Self, base: Self) -> bool {
        &&& self == (Explorer {
            enc: Encoder { st: self.enc.st, ..done.enc },
            path: self.path,
            ..done
        })
        &&& self.enc.st.alike(base.enc.st)
        &&& self.path@ == done.path@.take(base.path@.len() as int)
    }

    /// A body was entered. The heap stays.
    pub open spec fn entered(self, old: Self, callee: Body) -> bool {
        &&& *self.enc.body == callee
        &&& self.call_depth == old.call_depth + 1
        &&& self == (Explorer {
            enc: Encoder { st: self.enc.st, body: self.enc.body, ..old.enc },
            call_depth: self.call_depth,
            ret: self.ret,
            ret_tainted: self.ret_tainted,
            ..old
        })
        &&& self.enc.st == (State {
            vars: self.enc.st.vars,
            str_vars: self.enc.st.str_vars,
            var_widths: self.enc.st.var_widths,
            tainted: self.enc.st.tainted,
            float_tainted: self.enc.st.float_tainted,
            ..old.enc.st
        })
    }

    /// The body was left again: the variables and the path are those of `base`,
    /// the heap that at its end.
    pub open spec fn left(self, done: Self, base: Self, tainted: bool) -> bool {
        &&& self == (Explorer {
            enc: Encoder { st: self.enc.st, body: base.enc.body, ..done.enc },
            path: self.path,
            call_depth: base.call_depth,
            ..done
        })
        &&& self.path@ == done.path@.take(base.path@.len() as int)
        &&& same_locals(self.enc.st, base.enc.st)
        &&& self.enc.st == (State {
            vars: self.enc.st.vars,
            str_vars: self.enc.st.str_vars,
            var_widths: self.enc.st.var_widths,
            tainted: self.enc.st.tainted,
            float_tainted: self.enc.st.float_tainted,
            path_tainted: tainted,
            ..done.enc.st
        })
    }

    /// The class was marked as initialised.
    pub open spec fn marked(self, old: Self, class: Seq<char>) -> bool {
        &&& self == (Explorer { clinit_done: self.clinit_done, ..old })
        &&& self.clinit_done@.len() == old.clinit_done@.len() + 1
        &&& explore::extends(self.clinit_done@, old.clinit_done@)
        &&& self.clinit_done@.last()@ == class
    }

    /// The arguments of a call were read.
    pub open spec fn args_read(self, old: Self, args: Seq<Operand>, r: Args) -> bool {
        &&& self == (Explorer { enc: self.enc, ..old })
        &&& self.enc.settled_from(old.enc)
        &&& r.fits(self.enc.terms)
        &&& r.terms@.len() == args.len()
        &&& forall|i: int|
            0 <= i < args.len() ==> {
                &&& self.enc.knows(args[i])
                &&& self.enc.terms.tm(#[trigger] r.terms@[i]) == self.enc.operand_tm(args[i])
                &&& self.enc.terms.tm_opt(r.texts@[i]) == old.enc.str_tm(args[i])
                &&& r.tainted@[i] == old.enc.is_tainted(args[i])
            }
    }

    /// A variable was given what a call returned: an unknown, tainted value if it
    /// returned none.
    pub open spec fn result_taken(self, old: Self, name: Seq<char>, dest: VarId, tainted: bool) -> bool {
        let v = self.enc.st.vars@[dest.0 as int];
        &&& self == (Explorer {
            enc: Encoder {
                terms: self.enc.terms,
                st: State {
                    vars: self.enc.st.vars,
                    tainted: self.enc.st.tainted,
                    ..old.enc.st
                },
                ..old.enc
            },
            ..old
        })
        &&& self.enc.st.vars@ == old.enc.st.vars@.update(dest.0 as int, v)
        &&& match old.ret {
            Some(t) => v == Some(t) && self.enc.terms == old.enc.terms,
            None => {
                &&& v is Some
                &&& self.enc.terms.built_from(old.enc.terms)
                &&& self.enc.terms.tm(v->0) == Tm::FreshBv(
                    old.enc.terms.size(),
                    "ret_"@ + name,
                    old.enc.var_width(dest),
                )
            },
        }
        &&& self.enc.st.tainted@ == if tainted || old.ret is None {
            old.enc.st.tainted@.update(dest.0 as int, true)
        } else {
            old.enc.st.tainted@
        }
    }

    /// The methods were recorded as explored at a call.
    pub open spec fn inlined_noted(self, old: Self, targets: Seq<MethodKeyV>) -> bool {
        &&& self == (Explorer {
            found: Findings { inlined: self.found.inlined, ..old.found },
            ..old
        })
        &&& program::method_views(self.found.inlined@) == program::method_views(old.found.inlined@)
            + targets
    }

    /// A right-hand side was encoded as it stands: `t` is its value and `x` its
    /// content, where that is known.
    pub open spec fn plain_encoded(self, old: Self, rv: Rvalue, t: Term, x: Option<Term>) -> bool {
        exists|mid: Self|
            {
                &&& mid == (Explorer { enc: mid.enc, ..old })
                &&& #[trigger] rvalue::rvalue_outcome(mid.enc, old.enc, rv, t)
                &&& match rv {
                    Rvalue::Havoc(Ty::Str) => {
                        &&& self == (Explorer {
                            enc: Encoder { terms: self.enc.terms, ..mid.enc },
                            ..mid
                        })
                        &&& self.enc.terms.built_from(mid.enc.terms)
                        &&& x is Some
                        &&& self.enc.terms.tm(x->0) == Tm::FreshStr(
                            mid.enc.terms.size(),
                            "hvs"@,
                        )
                    },
                    Rvalue::Use(Operand::Var(src)) => {
                        self == mid && x == old.enc.st.str_vars@[src.0 as int]
                    },
                    Rvalue::Nondet(Ty::Str, _) => {
                        self == mid && x == self.enc.st.nondet_terms@.last().text
                    },
                    Rvalue::GetStatic(f) => self == mid && x == old.enc.st.static_str.at(f@),
                    _ => self == mid && x is None,
                }
            }
    }

    /// A variable was assigned the value of a right-hand side. Whether that is
    /// tainted is what `ready` says, before it was encoded.
    pub open spec fn value_set(
        self,
        old: Self,
        ready: Self,
        v: VarId,
        rv: Rvalue,
        t: Term,
        x: Option<Term>,
    ) -> bool {
        &&& self == (Explorer { enc: self.enc, ..old })
        &&& effects::var_assigned(
            self.enc,
            old.enc,
            v,
            Assigned {
                term: t,
                text: x,
                width: ready.enc.result_width(rv),
                tainted: ready.enc.taints(rv, ready.call_depth),
                float_tainted: ready.enc.float_taints(rv),
            },
        )
    }

    /// A modelled call was encoded.
    pub open spec fn call_encoded(
        self,
        old: Self,
        target: MethodKey,
        args: Seq<Operand>,
        p: (Term, Option<Term>),
    ) -> bool {
        &&& self == (Explorer { enc: self.enc, ..old })
        &&& call_outcome(self.enc, old.enc, target, args, p)
    }

    /// A value was stored in an array.
    pub open spec fn element_stored(self, old: Self, arr: Operand, idx: Operand, val: Operand) -> bool {
        &&& self == (Explorer { enc: self.enc, ..old })
        &&& exists|read: Encoder<'a>, r: Term, i: Term, x: Term|
            {
                &&& read.settled_from(old.enc)
                &&& read.knows(arr) && read.knows(idx) && read.knows(val)
                &&& read.terms.tm(r) == read.operand_tm(arr)
                &&& read.terms.tm(i) == read.operand_tm(idx)
                &&& read.terms.tm(x) == read.operand_tm(val)
                &&& #[trigger] heap::array_stored(self.enc, read, r, i, x)
            }
    }

    /// The condition of a branch was read: `zero` says that it is zero, `nonzero`
    /// that it is not.
    pub open spec fn condition_read(self, old: Self, cond: Operand, nonzero: Term, zero: Term) -> bool {
        &&& self == (Explorer { enc: self.enc, doms: self.doms, ..old })
        &&& self.enc.settled_from(old.enc)
        &&& self.enc.knows(cond)
        &&& self.enc.terms.has(zero)
        &&& self.enc.terms.has(nonzero)
        &&& self.enc.terms.tm(zero) == term::tm_eq(self.enc.operand_tm(cond), term::bv32(0))
        &&& self.enc.terms.tm(nonzero) == term::tm_not(self.enc.terms.tm(zero))
    }

    /// The value of a switch was read: each condition says that it is that of the
    /// case.
    pub open spec fn cases_read(
        self,
        old: Self,
        value: Operand,
        cases: Seq<(i32, BlockId)>,
        conds: Seq<Term>,
    ) -> bool {
        &&& self.ok()
        &&& self == (Explorer { enc: self.enc, doms: self.doms, ..old })
        &&& self.enc.settled_from(old.enc)
        &&& self.enc.knows(value)
        &&& conds.len() == cases.len()
        &&& explore::terms_in(self.enc.terms, conds)
        &&& forall|i: int|
            0 <= i < conds.len() ==> self.enc.terms.tm(#[trigger] conds[i]) == term::tm_eq(
                self.enc.operand_tm(value),
                term::bv32(cases[i].0 as int),
            )
    }

    /// The two arms of a branch were joined: `a` and `b` are their final states.
    pub open spec fn sides_joined(self, old: Self, nonzero: Term, a: State, b: State) -> bool {
        exists|collected: Self|
            {
                &&& #[trigger] collected.inputs_taken(old, a, b, true, true)
                &&& self.states_merged(collected, nonzero, a, b)
            }
    }

    /// The inputs met in two arms were taken over, but for an arm that is left out.
    pub open spec fn inputs_taken(self, old: Self, a: State, b: State, with_a: bool, with_b: bool) -> bool {
        let base = old.enc.st.nondet_terms@;
        let k = base.len() as int;
        &&& self == (Explorer {
            enc: Encoder {
                st: State { nondet_terms: self.enc.st.nondet_terms, ..old.enc.st },
                ..old.enc
            },
            ..old
        })
        &&& self.enc.st.nondet_terms@ == base + (if with_a {
            a.nondet_terms@.skip(k)
        } else {
            seq![]
        }) + (if with_b {
            b.nondet_terms@.skip(k)
        } else {
            seq![]
        })
    }

    /// The states of two arms were joined under the condition of the first.
    pub open spec fn states_merged(self, old: Self, nonzero: Term, a: State, b: State) -> bool {
        &&& self == (Explorer { enc: self.enc, ..old })
        &&& self.enc.same_frame(old.enc)
        &&& self.enc.terms.built_from(old.enc.terms)
        &&& merge::branch_joined(
            self.enc.terms,
            old.enc.terms.tm(nonzero),
            old.enc.st,
            a,
            b,
            self.enc.st,
        )
    }

    /// The state, the path and what is returned are those of `base` again.
    pub open spec fn rewound(self, done: Self, base: Self) -> bool {
        &&& self.ret == base.ret
        &&& self.ret_tainted == base.ret_tainted
        &&& (Explorer { ret: done.ret, ret_tainted: done.ret_tainted, ..self }).back_at(done, base)
    }

    /// The arms of a fork were joined: `first` is the end of the one, `second` that
    /// of the other. An arm that was not explored has nothing to add.
    pub open spec fn fork_joined(
        self,
        second: Self,
        first: Self,
        start: Self,
        nonzero: Term,
        then_done: bool,
        else_done: bool,
    ) -> bool {
        exists|a: State, b: State, back: Self, merged: Self|
            {
                &&& #[trigger] a.alike(first.enc.st)
                &&& #[trigger] b.alike(second.enc.st)
                &&& #[trigger] back.back_at(second, start)
                &&& if then_done || else_done {
                    exists|collected: Self|
                        {
                            &&& #[trigger] collected.inputs_taken(
                                back,
                                a,
                                b,
                                then_done,
                                else_done,
                            )
                            &&& merged.states_merged(collected, nonzero, a, b)
                        }
                } else {
                    merged == back
                }
                &&& #[trigger] self.returns_set(
                    merged,
                    nonzero,
                    then_done,
                    else_done,
                    first,
                    second,
                    start,
                )
            }
    }

    /// What the arms of a fork return was joined.
    pub open spec fn returns_set(
        self,
        merged: Self,
        nonzero: Term,
        then_done: bool,
        else_done: bool,
        first: Self,
        second: Self,
        start: Self,
    ) -> bool {
        &&& self == (Explorer {
            enc: Encoder { terms: self.enc.terms, ..merged.enc },
            ret: self.ret,
            ret_tainted: self.ret_tainted,
            ..merged
        })
        &&& self.enc.terms.built_from(merged.enc.terms)
        &&& paths::returns_joined(
            self.enc.terms,
            merged.enc.terms.tm(nonzero),
            then_done,
            else_done,
            first.ret,
            second.ret,
            start.ret,
            self.ret,
        )
        &&& self.ret_tainted == paths::returns_tainted(
            then_done,
            else_done,
            first.ret,
            second.ret,
            first.ret_tainted,
            second.ret_tainted,
            start.ret_tainted,
        )
    }

    /// One case of a switch was entered; `count` says whether that counts as a fork.
    pub open spec fn case_taken(self, old: Self, tainted: bool, c: Term, count: bool) -> bool {
        let base = if count {
            old.fork_counted()
        } else {
            old
        };
        &&& self == (Explorer { path: self.path, ..base.flagged(tainted) })
        &&& self.path@ == old.path@.push(c)
    }

    /// The default of a switch was entered: none of the cases holds.
    pub open spec fn default_taken(self, old: Self, tainted: bool, conds: Seq<Term>) -> bool {
        let base = old.flagged(tainted);
        let n = old.path@.len() as int;
        &&& self == (Explorer {
            enc: Encoder { terms: self.enc.terms, ..base.enc },
            path: self.path,
            ..base
        })
        &&& self.enc.terms.built_from(old.enc.terms)
        &&& explore::extends(self.path@, old.path@)
        &&& self.path@.len() == n + conds.len()
        &&& forall|i: int|
            0 <= i < conds.len() ==> self.enc.terms.tm(#[trigger] self.path@[n + i])
                == term::tm_not(old.enc.terms.tm(conds[i]))
    }

    /// One case of a switch was left again; `keep` says whether what it returns is
    /// kept.
    pub open spec fn case_left(self, done: Self, old: Self, base: Self, keep: bool) -> bool {
        if keep {
            self.back_at(done, old)
        } else {
            &&& self.ret == base.ret
            &&& self.ret_tainted == base.ret_tainted
            &&& (Explorer { ret: done.ret, ret_tainted: done.ret_tainted, ..self }).back_at(
                done,
                old,
            )
        }
    }

    /// The inputs that the arms of a switch met were taken over, each once.
    pub open spec fn inputs_collected(self, old: Self, states: Seq<State>, end: State) -> bool {
        &&& self == (Explorer {
            enc: Encoder {
                st: State { nondet_terms: self.enc.st.nondet_terms, ..old.enc.st },
                ..old.enc
            },
            ..old
        })
        &&& exists|last: State|
            {
                &&& #[trigger] last.alike(end)
                &&& self.enc.st.nondet_terms@ == merge::case_inputs(
                    old.enc.st.nondet_terms@,
                    states.push(last),
                    states.len() + 1,
                )
            }
    }

    /// The joined state was put in place. The inputs and the loops entered stay.
    pub open spec fn merged_applied(self, old: Self, s: State) -> bool {
        self == (Explorer {
            enc: Encoder {
                st: State {
                    nondet_terms: old.enc.st.nondet_terms,
                    loop_visits: old.enc.st.loop_visits,
                    ..s
                },
                ..old.enc
            },
            ..old
        })
    }

    /// The arms of a switch were joined with the end of its default.
    pub open spec fn arms_applied(self, back: Self, arms: Arms, end: State) -> bool {
        exists|collected: Self, built: Encoder<'a>, s: State|
            {
                &&& #[trigger] collected.inputs_collected(back, arms.states@, end)
                &&& arms_joined(built, collected.enc, arms, end, 0, s)
                &&& #[trigger] self.merged_applied(Explorer { enc: built, ..collected }, s)
            }
    }

    /// As [`Explorer::arms_applied`], and what the arms return was joined.
    pub open spec fn arms_returned(self, back: Self, done: Self, arms: Arms, end: State, before: Option<Term>) -> bool {
        exists|collected: Self, returned: Encoder<'a>, ret: Option<Term>, built: Encoder<'a>, s: State|
            {
                &&& #[trigger] collected.inputs_collected(back, arms.states@, end)
                &&& #[trigger] returns_folded(returned, collected.enc, arms, done.ret, 0, ret)
                &&& arms_joined(built, returned, arms, end, 0, s)
                &&& #[trigger] (Explorer { ret: collected.ret, ret_tainted: collected.ret_tainted, ..self }).merged_applied(
                    Explorer { enc: built, ..collected },
                    s,
                )
                &&& self.ret == merge::or_else(ret, before)
                &&& self.ret_tainted == (done.ret_tainted || arms.tainted)
            }
    }
}

impl<'a, S: Solver> Explorer<'a, S> {
    /// What exploring from a statement of a block on, up to the block `stop`, can
    /// leave behind.
    ///
    /// A path that runs into a bound is cut short. Else the statements run in order
    /// until an assumption excludes the path or the budget ends, and then the end of
    /// the block is followed.
    pub open spec fn explored(self, old: Self, block: BlockId, from: nat, stop: Option<BlockId>) -> bool
        decreases
            MAX_CALL_DEPTH - old.call_depth,
            old.max_depth + 2 - old.depth,
            10int,
            0int,
    {
        let v = old.visited();
        let b = old.enc.body.blocks@[block.0 as int];
        let n = b.stmts@.len();
        &&& self.stays(old)
        &&& self.after(old)
        &&& if stop == Some(block) {
            self == old
        } else if v.depth > v.max_depth || !v.has_budget() {
            self == v.shortened()
        } else {
            exists|ran: Self, i: nat|
                {
                    &&& #[trigger] ran.stays_at(v, i)
                    &&& ran.ran(v, b, from, i)
                    &&& i <= n || i == from
                    &&& if i < n {
                        if ran.has_budget() {
                            self.executed(ran, b.stmts@[i as int], b.exceptional@.len() > 0, false)
                        } else {
                            self == ran.shortened()
                        }
                    } else if ran.has_budget() {
                        self.ended(ran, b.term, block, stop)
                    } else {
                        self == ran
                    }
                }
        }
    }

    /// The statements of the block from `from` up to `i` ran, and the path goes on.
    pub open spec fn ran(self, old: Self, b: Block, from: nat, i: nat) -> bool
        decreases
            MAX_CALL_DEPTH - old.call_depth,
            old.max_depth + 2 - old.depth,
            9int,
            i,
    {
        if i <= from {
            i == from && self == old
        } else {
            exists|mid: Self|
                {
                    &&& #[trigger] mid.stays(old)
                    &&& mid.ran(old, b, from, (i - 1) as nat)
                    &&& mid.has_budget()
                    &&& self.executed(mid, b.stmts@[i - 1], b.exceptional@.len() > 0, true)
                }
        }
    }

    /// The end of a block was followed, one step deeper.
    pub open spec fn ended(self, old: Self, term: Terminator, block: BlockId, stop: Option<BlockId>) -> bool
        decreases
            MAX_CALL_DEPTH - old.call_depth,
            old.max_depth + 2 - old.depth,
            1int,
            0int,
    {
        exists|deep: Self, done: Self|
            {
                &&& old.depth <= old.max_depth
                &&& deep.depth == old.depth + 1
                &&& deep == (Explorer { depth: deep.depth, ..old })
                &&& #[trigger] done.stays(deep)
                &&& done.followed(deep, term, block, stop)
                &&& self == (Explorer { depth: old.depth, ..done })
            }
    }

    /// A statement ran; `go_on` says whether the path goes on.
    pub open spec fn executed(self, old: Self, s: Stmt, guarded: bool, go_on: bool) -> bool
        decreases
            MAX_CALL_DEPTH - old.call_depth,
            old.max_depth + 2 - old.depth,
            8int,
            0int,
    {
        match s {
            Stmt::Assign(v, rv) => go_on && self.assigned(old, v, rv, guarded),
            Stmt::Assume(op) => self.assumed(old, op, go_on),
            Stmt::Check(id) => go_on && self.checked(old, id),
            Stmt::PutStatic(f, val) => go_on && exists|ready: Self|
                {
                    &&& #[trigger] ready.stays(old)
                    &&& ready.initialised(old, f.class@)
                    &&& self == (Explorer { enc: self.enc, ..ready })
                    &&& effects::static_stored(self.enc, ready.enc, f, val)
                },
            Stmt::PutField { obj, field, val } => {
                &&& go_on
                &&& self == (Explorer { enc: self.enc, ..old })
                &&& effects::field_stored(self.enc, old.enc, obj, field, val)
            },
            Stmt::ArrayStore { arr, idx, val } => go_on && self.element_stored(old, arr, idx, val),
            Stmt::Nop => go_on && self == old,
        }
    }

    /// The value of a right-hand side was assigned to a variable. A call that is
    /// not modelled is followed into its bodies where that is possible; else its
    /// value is unknown, and that is recorded.
    pub open spec fn assigned(self, old: Self, v: VarId, rv: Rvalue, guarded: bool) -> bool
        decreases
            MAX_CALL_DEPTH - old.call_depth,
            old.max_depth + 2 - old.depth,
            7int,
            0int,
    {
        exists|ready: Self|
            {
                &&& #[trigger] ready.stays(old)
                &&& match rv {
                    Rvalue::GetStatic(f) => ready.initialised(old, f.class@),
                    _ => ready == old,
                }
                &&& if rv is Call {
                    self.call_assigned(ready, v, rv, guarded)
                } else {
                    self.plain_assigned(ready, v, rv)
                }
            }
    }

    /// The value of a right-hand side that is no call was assigned.
    pub open spec fn plain_assigned(self, old: Self, v: VarId, rv: Rvalue) -> bool {
        exists|encoded: Self, t: Term, x: Option<Term>|
            {
                &&& #[trigger] encoded.plain_encoded(old, rv, t, x)
                &&& self.value_set(encoded, old, v, rv, t, x)
            }
    }

    /// The value of a call was assigned.
    pub open spec fn call_assigned(self, old: Self, v: VarId, rv: Rvalue, guarded: bool) -> bool
        decreases
            MAX_CALL_DEPTH - old.call_depth,
            old.max_depth + 2 - old.depth,
            6int,
            0int,
    {
        &&& rv matches Rvalue::Call { target, args, is_virtual }
        &&& if call_modelled(old.enc, target, args@) {
            exists|encoded: Self, p: (Term, Option<Term>)|
                {
                    &&& #[trigger] encoded.call_encoded(old, target, args@, p)
                    &&& self.value_set(encoded, old, v, rv, p.0, p.1)
                }
        } else if old.follows(target, is_virtual) {
            self.inlined(old, target, args@, v, is_virtual)
        } else {
            exists|encoded: Self, t: Term|
                {
                    &&& #[trigger] encoded.plain_encoded(
                        old.left_unresolved(guarded),
                        rv,
                        t,
                        None,
                    )
                    &&& self.value_set(encoded, old, v, rv, t, None)
                }
        }
    }

    /// Is a call that is not modelled followed into its bodies?
    pub open spec fn follows(self, target: MethodKey, is_virtual: bool) -> bool {
        &&& !self.enc.models.owns_strings(target.class@)
        &&& self.has_budget()
        &&& rvalue::inlinable(*self.enc.prog, self.call_depth, target@, is_virtual)
    }

    /// The initialiser of the class ran, if it has one and did not run before.
    pub open spec fn initialised(self, old: Self, class: Seq<char>) -> bool
        decreases
            MAX_CALL_DEPTH - old.call_depth,
            old.max_depth + 2 - old.depth,
            5int,
            0int,
    {
        if program::listed(old.clinit_done@, class) {
            self == old
        } else {
            exists|marked: Self|
                {
                    &&& #[trigger] marked.marked(old, class)
                    &&& match old.enc.prog.body_of(clinit_of(class)) {
                        Some(callee) => if old.call_depth < MAX_CALL_DEPTH && marked.has_budget() {
                            self.initialiser_run(marked, callee)
                        } else {
                            self == marked
                        },
                        None => self == marked,
                    }
                }
        }
    }

    /// The body of an initialiser was explored and left again. Whether the path was
    /// tainted inside does not count.
    pub open spec fn initialiser_run(self, old: Self, callee: Body) -> bool
        decreases
            MAX_CALL_DEPTH - old.call_depth,
            old.max_depth + 2 - old.depth,
            3int,
            0int,
    {
        exists|inside: Self, done: Self|
            {
                &&& old.call_depth < MAX_CALL_DEPTH
                &&& #[trigger] inside.entered(old, callee)
                &&& inside.ret == old.ret
                &&& inside.ret_tainted == old.ret_tainted
                &&& at_start(inside.enc.st, callee)
                &&& #[trigger] done.stays(inside)
                &&& done.explored(inside, callee.entry, 0, None)
                &&& self.left(done, old, old.enc.st.path_tainted)
            }
    }

    /// A call was followed into the bodies it can reach, as long as there is budget.
    pub open spec fn inlined(
        self,
        old: Self,
        target: MethodKey,
        args: Seq<Operand>,
        dest: VarId,
        is_virtual: bool,
    ) -> bool
        decreases
            MAX_CALL_DEPTH - old.call_depth,
            old.max_depth + 2 - old.depth,
            5int,
            0int,
    {
        let targets = callees_of(*old.enc.prog, target@, is_virtual);
        exists|start: Self, placed: Args, ran: Self, i: nat, tainted: bool, took: Self|
            {
                &&& #[trigger] start.args_read(old, args, placed)
                &&& #[trigger] ran.stays_at(start, i)
                &&& ran.called_all(start, targets, placed, i, tainted)
                &&& i <= targets.len()
                &&& i < targets.len() ==> !ran.has_budget()
                &&& #[trigger] took.result_taken(ran, target.name@, dest, tainted)
                &&& self.inlined_noted(took, targets)
            }
    }

    /// The bodies of the first `i` targets were explored one after the other.
    pub open spec fn called_all(
        self,
        old: Self,
        targets: Seq<MethodKeyV>,
        args: Args,
        i: nat,
        tainted: bool,
    ) -> bool
        decreases
            MAX_CALL_DEPTH - old.call_depth,
            old.max_depth + 2 - old.depth,
            4int,
            i,
    {
        if i == 0 {
            self == old && !tainted
        } else {
            exists|mid: Self, before: bool|
                {
                    &&& #[trigger] mid.stays_with(old, before)
                    &&& mid.called_all(old, targets, args, (i - 1) as nat, before)
                    &&& mid.has_budget()
                    &&& match old.enc.prog.body_of(targets[i - 1]) {
                        Some(callee) => self.called(mid, callee, args) && tainted == (before
                            || self.ret_tainted),
                        None => self == mid && tainted == before,
                    }
                }
        }
    }

    /// The body of a call was explored and left again. A path that was tainted
    /// inside stays so.
    pub open spec fn called(self, old: Self, callee: Body, args: Args) -> bool
        decreases
            MAX_CALL_DEPTH - old.call_depth,
            old.max_depth + 2 - old.depth,
            3int,
            0int,
    {
        exists|inside: Self, done: Self|
            {
                &&& old.call_depth < MAX_CALL_DEPTH
                &&& #[trigger] inside.entered(old, callee)
                &&& inside.ret is None
                &&& !inside.ret_tainted
                &&& at_call(inside.enc.st, callee, args)
                &&& #[trigger] done.stays(inside)
                &&& done.explored(inside, callee.entry, 0, None)
                &&& self.left(done, old, old.enc.st.path_tainted || done.enc.st.path_tainted)
            }
    }

    /// The end of a block was followed.
    pub open spec fn followed(self, old: Self, term: Terminator, block: BlockId, stop: Option<BlockId>) -> bool
        decreases
            MAX_CALL_DEPTH - old.call_depth,
            old.max_depth + 2 - old.depth,
            14int,
            0int,
    {
        match term {
            Terminator::Goto(t) => if t.0 <= block.0 {
                exists|entered: Self, go_on: bool|
                    {
                        &&& #[trigger] entered.loop_entered(old, t, go_on)
                        &&& if go_on {
                            self.explored(entered, t, 0, stop)
                        } else {
                            self == entered.shortened()
                        }
                    }
            } else {
                self.explored(old, t, 0, stop)
            },
            Terminator::Branch { cond, then_, else_ } => self.branched(old, cond, then_, else_, stop),
            Terminator::Switch { value, cases, default } => self.switched(
                old,
                value,
                cases@,
                default,
                stop,
            ),
            Terminator::Return(Some(val)) => if old.call_depth > 0 {
                &&& self == (Explorer {
                    enc: self.enc,
                    ret: self.ret,
                    ret_tainted: self.ret_tainted,
                    ..old
                })
                &&& self.enc.settled_from(old.enc)
                &&& self.enc.knows(val)
                &&& self.ret is Some
                &&& self.enc.terms.tm(self.ret->0) == self.enc.operand_tm(val)
                &&& self.ret_tainted == (old.ret_tainted || old.enc.is_tainted(val)
                    || old.enc.st.path_tainted)
            } else {
                self == old
            },
            Terminator::Return(None) => self == old,
            Terminator::Halt => self == old,
            Terminator::Throw(_) => self == old.shortened(),
            Terminator::Diverge(_) => self == old.shortened(),
        }
    }

    /// A branch was followed. Where the arms meet again they are explored up to
    /// that point and joined, and the exploration goes on from there; else the path
    /// forks.
    pub open spec fn branched(
        self,
        old: Self,
        cond: Operand,
        then_: BlockId,
        else_: BlockId,
        stop: Option<BlockId>,
    ) -> bool
        decreases
            MAX_CALL_DEPTH - old.call_depth,
            old.max_depth + 2 - old.depth,
            13int,
            0int,
    {
        let tainted = old.enc.is_tainted(cond);
        let join = postdom::join_point(
            postdom::graph_of(*old.enc.body),
            explore::block_ids(seq![then_, else_]),
        );
        exists|start: Self, nonzero: Term, zero: Term|
            {
                &&& #[trigger] start.condition_read(old, cond, nonzero, zero)
                &&& match join {
                    Some(at) => self.sides_met(
                        start,
                        tainted,
                        nonzero,
                        zero,
                        then_,
                        else_,
                        at,
                        stop,
                    ),
                    None => self.forked(start, tainted, nonzero, zero, then_, else_, stop),
                }
            }
    }

    /// Both arms of a branch were explored up to where they meet and joined, and the
    /// exploration went on from there.
    pub open spec fn sides_met(
        self,
        start: Self,
        tainted: bool,
        nonzero: Term,
        zero: Term,
        then_: BlockId,
        else_: BlockId,
        at: u32,
        stop: Option<BlockId>,
    ) -> bool
        decreases
            MAX_CALL_DEPTH - start.call_depth,
            start.max_depth + 2 - start.depth,
            12int,
            0int,
    {
        exists|first: Self, a: State, second: Self, b: State, merged: Self|
            {
                &&& first.stays(start)
                &&& #[trigger] first.went_side(start, nonzero, a)
                &&& first.side_explored(start, tainted, nonzero, then_, Some(BlockId(at)), a)
                &&& second.stays(start)
                &&& #[trigger] second.went_side(first, zero, b)
                &&& second.side_explored(first, tainted, zero, else_, Some(BlockId(at)), b)
                &&& merged.stays(start)
                &&& #[trigger] merged.sides_joined(second, nonzero, a, b)
                &&& self.explored(merged, BlockId(at), 0, stop)
            }
    }

    /// One arm was explored under its condition; `r` is the state at its end.
    pub open spec fn went_side(self, old: Self, c: Term, r: State) -> bool {
        self.stays(old)
    }

    /// One arm of a branch was explored and left again; `r` is the state at its end.
    pub open spec fn side_explored(
        self,
        old: Self,
        tainted: bool,
        c: Term,
        target: BlockId,
        stop: Option<BlockId>,
        r: State,
    ) -> bool
        decreases
            MAX_CALL_DEPTH - old.call_depth,
            old.max_depth + 2 - old.depth,
            11int,
            0int,
    {
        exists|taken: Self, done: Self|
            {
                &&& taken.stays(old)
                &&& #[trigger] taken.side_taken(old, tainted, c)
                &&& #[trigger] done.stays(taken)
                &&& done.explored(taken, target, 0, stop)
                &&& r.alike(done.enc.st)
                &&& self.back_at(done, old)
            }
    }

    /// One arm of a fork was explored, if the solver does not exclude it; `done`
    /// says whether it was.
    pub open spec fn arm_explored(
        self,
        old: Self,
        tainted: bool,
        c: Term,
        target: BlockId,
        stop: Option<BlockId>,
        done: bool,
    ) -> bool
        decreases
            MAX_CALL_DEPTH - old.call_depth,
            old.max_depth + 2 - old.depth,
            11int,
            0int,
    {
        exists|taken: Self|
            {
                &&& taken.stays(old)
                &&& #[trigger] taken.side_taken(old, tainted, c)
                &&& if tainted {
                    done && self.explored(taken, target, 0, stop)
                } else {
                    exists|asked: Self, res: SatResult|
                        {
                            &&& asked.stays(taken)
                            &&& #[trigger] asked.answered(taken, None, res)
                            &&& done == (res != SatResult::Unsat)
                            &&& if done {
                                self.explored(asked, target, 0, stop)
                            } else {
                                self == asked
                            }
                        }
                }
            }
    }

    /// The path was forked at a branch: both arms were explored to their ends, the
    /// second as long as there is budget, and joined.
    pub open spec fn forked(
        self,
        old: Self,
        tainted: bool,
        nonzero: Term,
        zero: Term,
        then_: BlockId,
        else_: BlockId,
        stop: Option<BlockId>,
    ) -> bool
        decreases
            MAX_CALL_DEPTH - old.call_depth,
            old.max_depth + 2 - old.depth,
            12int,
            0int,
    {
        let start = old.fork_counted();
        exists|first: Self, then_done: bool, between: Self, second: Self, else_done: bool|
            {
                &&& #[trigger] first.stays_with(start, then_done)
                &&& first.arm_explored(start, tainted, nonzero, then_, stop, then_done)
                &&& between.stays(start)
                &&& #[trigger] between.rewound(first, start)
                &&& #[trigger] second.stays_with(between, else_done)
                &&& if between.has_budget() {
                    second.arm_explored(between, tainted, zero, else_, stop, else_done)
                } else {
                    second == between && !else_done
                }
                &&& self.fork_joined(second, first, start, nonzero, then_done, else_done)
            }
    }

    /// A switch was followed. Where the arms meet again they are explored up to
    /// that point and joined, and the exploration goes on from there; else the path
    /// forks.
    pub open spec fn switched(
        self,
        old: Self,
        value: Operand,
        cases: Seq<(i32, BlockId)>,
        default: BlockId,
        stop: Option<BlockId>,
    ) -> bool
        decreases
            MAX_CALL_DEPTH - old.call_depth,
            old.max_depth + 2 - old.depth,
            13int,
            0int,
    {
        let tainted = old.enc.is_tainted(value);
        let join = postdom::join_point(
            postdom::graph_of(*old.enc.body),
            explore::block_ids(switch_targets(cases, default)),
        );
        exists|start: Self, conds: Seq<Term>|
            {
                &&& #[trigger] start.cases_read(old, value, cases, conds)
                &&& match join {
                    Some(at) => self.switch_joined(
                        start,
                        tainted,
                        conds,
                        cases,
                        default,
                        BlockId(at),
                        stop,
                    ),
                    None => self.switch_forked(start, tainted, conds, cases, default, stop),
                }
            }
    }

    /// The first `i` cases of a switch were explored one after the other, each from
    /// the same state. `count` says whether they count as forks.
    pub open spec fn cases_explored(
        self,
        old: Self,
        tainted: bool,
        conds: Seq<Term>,
        cases: Seq<(i32, BlockId)>,
        stop: Option<BlockId>,
        count: bool,
        i: nat,
        arms: Arms,
    ) -> bool
        decreases
            MAX_CALL_DEPTH - old.call_depth,
            old.max_depth + 2 - old.depth,
            11int,
            i,
    {
        if i == 0 {
            self == old && arms.none()
        } else {
            exists|mid: Self, had: Arms, taken: Self, done: Self, end: State|
                {
                    &&& #[trigger] mid.stays_having(old, had)
                    &&& mid.cases_explored(
                        old,
                        tainted,
                        conds,
                        cases,
                        stop,
                        count,
                        (i - 1) as nat,
                        had,
                    )
                    &&& mid.has_budget()
                    &&& taken.stays(old)
                    &&& #[trigger] taken.case_taken(mid, tainted, conds[i - 1], count)
                    &&& #[trigger] done.stays(taken)
                    &&& done.explored(taken, cases[i - 1].1, 0, stop)
                    &&& #[trigger] end.alike(done.enc.st)
                    &&& arms.grew(had, conds[i - 1], end, done.ret, done.ret_tainted)
                    &&& self.case_left(done, mid, old, !count)
                }
        }
    }

    /// A switch whose arms meet again was followed. Nothing is joined where the
    /// budget ends before the default.
    pub open spec fn switch_joined(
        self,
        old: Self,
        tainted: bool,
        conds: Seq<Term>,
        cases: Seq<(i32, BlockId)>,
        default: BlockId,
        at: BlockId,
        stop: Option<BlockId>,
    ) -> bool
        decreases
            MAX_CALL_DEPTH - old.call_depth,
            old.max_depth + 2 - old.depth,
            12int,
            0int,
    {
        exists|cased: Self, i: nat, arms: Arms|
            {
                &&& #[trigger] cased.stays_at(old, i)
                &&& #[trigger] cased.stays_having(old, arms)
                &&& cased.cases_explored(old, tainted, conds, cases, Some(at), false, i, arms)
                &&& i <= cases.len()
                &&& i < cases.len() ==> !cased.has_budget()
                &&& if cased.has_budget() {
                    exists|taken: Self, done: Self, end: State, back: Self, applied: Self|
                        {
                            &&& taken.stays(old)
                            &&& #[trigger] taken.default_taken(cased, tainted, conds)
                            &&& #[trigger] done.stays(taken)
                            &&& done.explored(taken, default, 0, Some(at))
                            &&& #[trigger] end.alike(done.enc.st)
                            &&& #[trigger] back.back_at(done, cased)
                            &&& applied.stays(old)
                            &&& #[trigger] applied.arms_applied(back, arms, end)
                            &&& self.explored(applied, at, 0, stop)
                        }
                } else {
                    self == cased
                }
            }
    }

    /// A switch whose arms do not meet again was followed.
    pub open spec fn switch_forked(
        self,
        old: Self,
        tainted: bool,
        conds: Seq<Term>,
        cases: Seq<(i32, BlockId)>,
        default: BlockId,
        stop: Option<BlockId>,
    ) -> bool
        decreases
            MAX_CALL_DEPTH - old.call_depth,
            old.max_depth + 2 - old.depth,
            12int,
            0int,
    {
        exists|cased: Self, i: nat, arms: Arms, done: Self, end: State, back: Self|
            {
                &&& #[trigger] cased.stays_at(old, i)
                &&& #[trigger] cased.stays_having(old, arms)
                &&& cased.cases_explored(old, tainted, conds, cases, stop, true, i, arms)
                &&& i <= cases.len()
                &&& i < cases.len() ==> !cased.has_budget()
                &&& #[trigger] done.stays(cased)
                &&& if cased.has_budget() {
                    exists|taken: Self|
                        {
                            &&& taken.stays(old)
                            &&& #[trigger] taken.default_taken(cased, tainted, conds)
                            &&& done.explored(taken, default, 0, stop)
                        }
                } else {
                    done == cased
                }
                &&& #[trigger] end.alike(done.enc.st)
                &&& #[trigger] back.back_at(done, cased)
                &&& self.arms_returned(back, done, arms, end, old.ret)
            }
    }
}

/// The blocks that a switch leads to.
pub open spec fn switch_targets(cases: Seq<(i32, BlockId)>, default: BlockId) -> Seq<BlockId> {
    cases.map_values(|c: (i32, BlockId)| c.1).push(default)
}

} // verus!
