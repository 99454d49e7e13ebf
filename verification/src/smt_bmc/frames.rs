//! The variables of a body while it is explored, and the arguments of calls.

use vstd::prelude::*;

use super::explore;
use super::explore::{Explorer, Solver};
use super::merge::copy_items;
use super::state;
use super::state::{Encoder, State};
use crate::ir::{Body, VarInfo, VarKind};
use crate::term::{Term, Terms};

verus! {

/// What is known of the variables of one body.
pub struct Locals {
    pub vars: Vec<Option<Term>>,
    pub str_vars: Vec<Option<Term>>,
    pub var_widths: Vec<Option<u32>>,
    pub tainted: Vec<bool>,
    pub float_tainted: Vec<bool>,
}

impl Locals {
    /// There are `n` variables, and their terms are those of the store.
    pub open spec fn fits(self, n: nat, ts: Terms) -> bool {
        &&& self.vars@.len() == n
        &&& self.str_vars@.len() == n
        &&& self.var_widths@.len() == n
        &&& self.tainted@.len() == n
        &&& self.float_tainted@.len() == n
        &&& state::vars_in(ts, self.vars@)
        &&& state::vars_in(ts, self.str_vars@)
    }

    /// The variables of a state.
    pub open spec fn of(self, s: State) -> bool {
        &&& self.vars@ == s.vars@
        &&& self.str_vars@ == s.str_vars@
        &&& self.var_widths@ == s.var_widths@
        &&& self.tainted@ == s.tainted@
        &&& self.float_tainted@ == s.float_tainted@
    }

    /// Variables of which nothing is known.
    pub fn unknown(n: usize) -> (r: Locals)
        ensures
            r.vars@ == Seq::new(n as nat, |i: int| None::<Term>),
            r.str_vars@ == Seq::new(n as nat, |i: int| None::<Term>),
            r.var_widths@ == Seq::new(n as nat, |i: int| None::<u32>),
            r.tainted@ == Seq::new(n as nat, |i: int| false),
            r.float_tainted@ == Seq::new(n as nat, |i: int| false),
            forall|ts: Terms| r.fits(n as nat, ts),
    {
        Locals {
            vars: filled(n, None),
            str_vars: filled(n, None),
            var_widths: filled(n, None),
            tainted: filled(n, false),
            float_tainted: filled(n, false),
        }
    }
}

/// A list of one value.
pub fn filled<T: Copy>(n: usize, x: T) -> (r: Vec<T>)
    ensures
        r@ == Seq::new(n as nat, |i: int| x),
{
    let mut r: Vec<T> = Vec::new();
    let mut i: usize = 0;
    while i < n
        invariant
            i <= n,
            r@ == Seq::new(i as nat, |j: int| x),
        decreases n - i,
    {
        r.push(x);
        proof {
            assert(r@ =~= Seq::new((i + 1) as nat, |j: int| x));
        }
        i += 1;
    }
    r
}

/// The first variable, at or after `i`, that is the local slot.
pub open spec fn local_from(infos: Seq<VarInfo>, slot: int, i: int) -> Option<int>
    decreases infos.len() - i,
{
    if i >= infos.len() {
        None
    } else if infos[i].kind matches VarKind::Local(s) && s == slot {
        Some(i)
    } else {
        local_from(infos, slot, i + 1)
    }
}

/// The slot after one that holds an argument. Slots past all locals are not
/// counted on.
pub open spec fn slot_after(infos: Seq<VarInfo>, slot: int) -> int {
    if slot > 65535 {
        slot
    } else {
        match local_from(infos, slot, 0) {
            Some(v) => if infos[v].ty.wide() {
                slot + 2
            } else {
                slot + 1
            },
            None => slot + 1,
        }
    }
}

/// The slot of argument `n`.
pub open spec fn slot_of(infos: Seq<VarInfo>, n: nat) -> int
    decreases n,
{
    if n == 0 {
        0
    } else {
        slot_after(infos, slot_of(infos, (n - 1) as nat))
    }
}

/// Which of the first `n` arguments is placed in variable `v`?
pub open spec fn arg_in(infos: Seq<VarInfo>, n: nat, v: int) -> Option<int>
    decreases n,
{
    if n == 0 {
        None
    } else if local_from(infos, slot_of(infos, (n - 1) as nat), 0) == Some(v) {
        Some(n - 1)
    } else {
        arg_in(infos, (n - 1) as nat, v)
    }
}

/// The first variable that is the local slot.
pub fn find_local(infos: &Vec<VarInfo>, slot: u32) -> (r: Option<usize>)
    ensures
        match r {
            Some(v) => local_from(infos@, slot as int, 0) == Some(v as int) && v < infos@.len(),
            None => local_from(infos@, slot as int, 0) is None,
        },
{
    let mut i: usize = 0;
    while i < infos.len()
        invariant
            i <= infos@.len(),
            local_from(infos@, slot as int, 0) == local_from(infos@, slot as int, i as int),
        decreases infos@.len() - i,
    {
        if let VarKind::Local(s) = infos[i].kind {
            if s as u32 == slot {
                return Some(i);
            }
        }
        i += 1;
    }
    None
}

/// What is known of the arguments of a call.
pub struct Args {
    pub terms: Vec<Term>,
    pub texts: Vec<Option<Term>>,
    pub tainted: Vec<bool>,
}

impl Args {
    /// The lists are of one length and refer to terms of the store.
    pub open spec fn fits(self, ts: Terms) -> bool {
        &&& self.texts@.len() == self.terms@.len()
        &&& self.tainted@.len() == self.terms@.len()
        &&& explore::terms_in(ts, self.terms@)
        &&& state::vars_in(ts, self.texts@)
    }
}

/// The variables at the start of a call.
pub open spec fn placed(l: Locals, infos: Seq<VarInfo>, args: Args, n: nat) -> bool {
    forall|v: int|
        0 <= v < infos.len() ==> match arg_in(infos, n, v) {
            Some(i) => {
                &&& #[trigger] l.vars@[v] == Some(args.terms@[i])
                &&& l.str_vars@[v] == args.texts@[i]
                &&& l.tainted@[v] == args.tainted@[i]
            },
            None => {
                &&& l.vars@[v] is None
                &&& l.str_vars@[v] is None
                &&& !l.tainted@[v]
            },
        }
}

proof fn lemma_arg_in(infos: Seq<VarInfo>, n: nat, v: int)
    ensures
        arg_in(infos, n, v) matches Some(i) ==> 0 <= i < n,
    decreases n,
{
    if n > 0 {
        lemma_arg_in(infos, (n - 1) as nat, v);
    }
}

/// Place the arguments of a call in the local slots of the callee: one slot each,
/// two for a wide one.
pub fn place_args(infos: &Vec<VarInfo>, args: &Args, ts: &Terms) -> (l: Locals)
    requires
        args.fits(*ts),
    ensures
        l.fits(infos@.len(), *ts),
        placed(l, infos@, *args, args.terms@.len()),
        l.var_widths@ == Seq::new(infos@.len(), |i: int| None::<u32>),
        l.float_tainted@ == Seq::new(infos@.len(), |i: int| false),
{
    let mut l = Locals::unknown(infos.len());
    let mut slot: u32 = 0;
    let mut i: usize = 0;
    while i < args.terms.len()
        invariant
            i <= args.terms@.len(),
            args.fits(*ts),
            l.fits(infos@.len(), *ts),
            slot == slot_of(infos@, i as nat),
            slot <= 65537,
            placed(l, infos@, *args, i as nat),
            l.var_widths@ == Seq::new(infos@.len(), |i: int| None::<u32>),
            l.float_tainted@ == Seq::new(infos@.len(), |i: int| false),
        decreases args.terms@.len() - i,
    {
        let ghost before = l;
        let found = find_local(infos, slot);
        let mut step: u32 = 1;
        if let Some(v) = found {
            proof {
                assert(ts.has(args.terms@[i as int]));
                assert(ts.has_opt(args.texts@[i as int]));
            }
            l.vars.set(v, Some(args.terms[i]));
            l.str_vars.set(v, args.texts[i]);
            l.tainted.set(v, args.tainted[i]);
            if infos[v].ty.is_wide() {
                step = 2;
            }
        }
        proof {
            assert forall|v: int| 0 <= v < infos@.len() implies match arg_in(
                infos@,
                (i + 1) as nat,
                v,
            ) {
                Some(k) => {
                    &&& #[trigger] l.vars@[v] == Some(args.terms@[k])
                    &&& l.str_vars@[v] == args.texts@[k]
                    &&& l.tainted@[v] == args.tainted@[k]
                },
                None => {
                    &&& l.vars@[v] is None
                    &&& l.str_vars@[v] is None
                    &&& !l.tainted@[v]
                },
            } by {
                assert(before.vars@[v] == before.vars@[v]);
            }
        }
        if slot <= 65535 {
            slot = slot + step;
        }
        i += 1;
    }
    l
}

impl<'a, S: Solver> Explorer<'a, S> {
    /// The variables of the current body.
    pub fn save_locals(&self) -> (r: Locals)
        requires
            self.ok(),
        ensures
            r.of(self.enc.st),
            r.fits(self.enc.body.vars@.len(), self.enc.terms),
    {
        proof {
            self.enc.st.lemma_fits(self.enc.body.vars@.len(), self.enc.terms);
        }
        Locals {
            vars: copy_items(&self.enc.st.vars),
            str_vars: copy_items(&self.enc.st.str_vars),
            var_widths: copy_items(&self.enc.st.var_widths),
            tainted: copy_items(&self.enc.st.tainted),
            float_tainted: copy_items(&self.enc.st.float_tainted),
        }
    }

    /// Go to another body, with the given variables. The heap stays.
    pub fn switch_to(&mut self, body: &'a Body, l: Locals, call_depth: u32)
        requires
            old(self).ok(),
            old(self).enc.prog.body_of(body.key@) == Some(*body),
            body.well_formed(),
            l.fits(body.vars@.len(), old(self).enc.terms),
            call_depth <= super::rvalue::MAX_CALL_DEPTH,
        ensures
            final(self).ok(),
            final(self).after(*old(self)),
            final(self).enc.body == body,
            final(self).call_depth == call_depth,
            final(self).depth == old(self).depth,
            l.of(final(self).enc.st),
            *final(self) == (Explorer {
                enc: Encoder { st: final(self).enc.st, body: body, ..old(self).enc },
                call_depth,
                ..*old(self)
            }),
            final(self).enc.st == (State {
                vars: final(self).enc.st.vars,
                str_vars: final(self).enc.st.str_vars,
                var_widths: final(self).enc.st.var_widths,
                tainted: final(self).enc.st.tainted,
                float_tainted: final(self).enc.st.float_tainted,
                ..old(self).enc.st
            }),
    {
        proof {
            self.lemma_after_refl();
        }
        self.enc.body = body;
        self.call_depth = call_depth;
        self.enc.st.vars = l.vars;
        self.enc.st.str_vars = l.str_vars;
        self.enc.st.var_widths = l.var_widths;
        self.enc.st.tainted = l.tainted;
        self.enc.st.float_tainted = l.float_tainted;
        proof {
            reveal(State::fits);
        }
    }
}

} // verus!
