//! Which methods an execution can enter, and whether all of them can be run.

use vstd::prelude::*;

use super::machine;
use crate::ir::{Body, MethodKey, MethodKeyV, Operand, Rvalue, Stmt, Terminator};
use crate::models::Models;
use crate::program::Program;
use crate::text::same;

verus! {

/// Branches and assumptions look at variables.
pub open spec fn runnable(b: Body) -> bool {
    &&& b.well_formed()
    &&& forall|i: int|
        0 <= i < b.blocks@.len() ==> ((#[trigger] b.blocks@[i]).term matches Terminator::Branch {
            cond,
            ..
        } ==> cond is Var)
    &&& forall|i: int, j: int|
        0 <= i < b.blocks@.len() && 0 <= j < b.blocks@[i].stmts@.len() ==> (
        #[trigger] b.blocks@[i].stmts@[j] matches Stmt::Assume(o) ==> o is Var)
}

/// Does computing the rvalue enter the method: is it called, or is it the initializer of
/// a class whose static field is read?
pub open spec fn rvalue_enters(m: Models, rv: Rvalue, k: MethodKeyV) -> bool {
    match rv {
        Rvalue::Call { target, .. } => !machine::elsewhere(m, target) && k == target@,
        Rvalue::GetStatic(f) => f.name@ != "$assertionsDisabled"@ && k == machine::clinit_key(
            f.class@,
        ),
        _ => false,
    }
}

/// Does the statement enter the method?
pub open spec fn stmt_enters(m: Models, s: Stmt, k: MethodKeyV) -> bool {
    match s {
        Stmt::Assign(_, rv) => rvalue_enters(m, rv, k),
        Stmt::PutStatic(f, _) => k == machine::clinit_key(f.class@),
        _ => false,
    }
}

/// Does some statement of the body enter the method?
pub open spec fn body_enters(m: Models, b: Body, k: MethodKeyV) -> bool {
    exists|i: int, j: int|
        0 <= i < b.blocks@.len() && 0 <= j < b.blocks@[i].stmts@.len() && stmt_enters(
            m,
            #[trigger] b.blocks@[i].stmts@[j],
            k,
        )
}

/// Does the body of one method enter the other?
pub open spec fn leads(p: Program, m: Models, via: MethodKeyV, k: MethodKeyV) -> bool {
    p.body_of(via) matches Some(c) && body_enters(m, c, k)
}

/// The method is entered from the body through `n` other methods.
pub open spec fn entered(p: Program, m: Models, b: Body, k: MethodKeyV, n: nat) -> bool
    decreases n,
{
    if n == 0 {
        body_enters(m, b, k)
    } else {
        exists|via: MethodKeyV| #[trigger]
            leads(p, m, via, k) && entered(p, m, b, via, (n - 1) as nat)
    }
}

/// The body and all that can be entered from it can be run.
pub open spec fn can_run(p: Program, m: Models, b: Body) -> bool {
    &&& runnable(b)
    &&& forall|k: MethodKeyV, n: nat| #[trigger]
        entered(p, m, b, k, n) ==> (p.body_of(k) matches Some(c) ==> runnable(c))
}

/// The method, if it has a body, can be run.
pub open spec fn callable(p: Program, m: Models, k: MethodKeyV) -> bool {
    p.body_of(k) matches Some(c) ==> can_run(p, m, c)
}

proof fn lemma_entered_later(p: Program, m: Models, b: Body, via: MethodKeyV, k: MethodKeyV, n: nat)
    requires
        body_enters(m, b, via),
        p.body_of(via) is Some,
        entered(p, m, p.body_of(via)->0, k, n),
    ensures
        entered(p, m, b, k, n + 1),
    decreases n,
{
    let c = p.body_of(via)->0;
    if n == 0 {
        assert(leads(p, m, via, k) && entered(p, m, b, via, 0));
    } else {
        let mid = choose|mid: MethodKeyV| #[trigger]
            leads(p, m, mid, k) && entered(p, m, c, mid, (n - 1) as nat);
        lemma_entered_later(p, m, b, via, mid, (n - 1) as nat);
        assert(leads(p, m, mid, k) && entered(p, m, b, mid, n));
    }
}

/// What a body that can be run enters can be run.
pub proof fn lemma_callable(p: Program, m: Models, b: Body, i: int, j: int, k: MethodKeyV)
    requires
        can_run(p, m, b),
        0 <= i < b.blocks@.len(),
        0 <= j < b.blocks@[i].stmts@.len(),
        stmt_enters(m, b.blocks@[i].stmts@[j], k),
    ensures
        callable(p, m, k),
{
    if let Some(c) = p.body_of(k) {
        assert(body_enters(m, b, k));
        assert(entered(p, m, b, k, 0));
        assert forall|l: MethodKeyV, n: nat| #[trigger] entered(p, m, c, l, n) implies (
        p.body_of(l) matches Some(d) ==> runnable(d)) by {
            lemma_entered_later(p, m, b, k, l, n);
        }
    }
}

/// The initializer of a class.
pub fn make_clinit(class: &String) -> (k: MethodKey)
    ensures
        k@ == machine::clinit_key(class@),
{
    MethodKey { class: class.clone(), name: "<clinit>".to_string(), desc: "()V".to_string() }
}

fn does_enter(m: &Models, s: &Stmt, k: &MethodKey) -> (r: bool)
    ensures
        r == stmt_enters(*m, *s, k@),
{
    match s {
        Stmt::Assign(_, Rvalue::Call { target, .. }) => {
            !m.is_concrete_math_call(target.class.as_str(), target.name.as_str())
                && !m.is_str_owner(target.class.as_str()) && k.same_as(target)
        },
        Stmt::Assign(_, Rvalue::GetStatic(f)) => {
            !same(f.name.as_str(), "$assertionsDisabled") && k.same_as(&make_clinit(&f.class))
        },
        Stmt::PutStatic(f, _) => k.same_as(&make_clinit(&f.class)),
        _ => false,
    }
}

fn some_enters(m: &Models, b: &Body, k: &MethodKey) -> (r: bool)
    ensures
        r == body_enters(*m, *b, k@),
{
    let mut i: usize = 0;
    while i < b.blocks.len()
        invariant
            i <= b.blocks@.len(),
            forall|x: int, y: int|
                0 <= x < i && 0 <= y < b.blocks@[x].stmts@.len() ==> !stmt_enters(
                    *m,
                    #[trigger] b.blocks@[x].stmts@[y],
                    k@,
                ),
        decreases b.blocks@.len() - i,
    {
        let stmts = &b.blocks[i].stmts;
        let mut j: usize = 0;
        while j < stmts.len()
            invariant
                i < b.blocks@.len(),
                *stmts == b.blocks@[i as int].stmts,
                j <= stmts@.len(),
                forall|y: int| 0 <= y < j ==> !stmt_enters(*m, #[trigger] stmts@[y], k@),
            decreases stmts@.len() - j,
        {
            if does_enter(m, &stmts[j], k) {
                proof {
                    assert(stmt_enters(*m, b.blocks@[i as int].stmts@[j as int], k@));
                }
                return true;
            }
            j += 1;
        }
        i += 1;
    }
    false
}

fn is_runnable(b: &Body) -> (r: bool)
    requires
        b.well_formed(),
    ensures
        r == runnable(*b),
{
    let mut i: usize = 0;
    while i < b.blocks.len()
        invariant
            i <= b.blocks@.len(),
            forall|x: int|
                0 <= x < i ==> ((#[trigger] b.blocks@[x]).term matches Terminator::Branch {
                    cond,
                    ..
                } ==> cond is Var),
            forall|x: int, y: int|
                0 <= x < i && 0 <= y < b.blocks@[x].stmts@.len() ==> (
                #[trigger] b.blocks@[x].stmts@[y] matches Stmt::Assume(o) ==> o is Var),
        decreases b.blocks@.len() - i,
    {
        if let Terminator::Branch { cond: Operand::Const(_), .. } = &b.blocks[i].term {
            return false;
        }
        let stmts = &b.blocks[i].stmts;
        let mut j: usize = 0;
        while j < stmts.len()
            invariant
                i < b.blocks@.len(),
                *stmts == b.blocks@[i as int].stmts,
                j <= stmts@.len(),
                forall|y: int|
                    0 <= y < j ==> (#[trigger] stmts@[y] matches Stmt::Assume(o) ==> o is Var),
            decreases stmts@.len() - j,
        {
            if let Stmt::Assume(Operand::Const(_)) = &stmts[j] {
                proof {
                    assert(b.blocks@[i as int].stmts@[j as int] is Assume);
                }
                return false;
            }
            j += 1;
        }
        i += 1;
    }
    true
}

/// How many of the first `n` are not marked.
spec fn unmarked(marks: Seq<bool>, n: nat) -> nat
    decreases n,
{
    if n == 0 {
        0
    } else {
        unmarked(marks, (n - 1) as nat) + if marks[n - 1] {
            0nat
        } else {
            1nat
        }
    }
}

proof fn lemma_unmarked(marks: Seq<bool>, j: int, n: nat)
    requires
        0 <= j < marks.len(),
        n <= marks.len(),
        !marks[j],
    ensures
        unmarked(marks.update(j, true), n) == unmarked(marks, n) - if j < n {
            1int
        } else {
            0int
        },
    decreases n,
{
    if n > 0 {
        lemma_unmarked(marks, j, (n - 1) as nat);
    }
}

/// Every method that is marked is entered.
spec fn marked_entered(p: Program, m: Models, b: Body, marks: Seq<bool>) -> bool {
    forall|i: int|
        0 <= i < marks.len() && #[trigger] marks[i] ==> exists|n: nat| #[trigger]
            entered(p, m, b, p.bodies@[i].key@, n)
}

/// The method is entered from the body, or from one that is marked.
spec fn next_entered(p: Program, m: Models, b: Body, marks: Seq<bool>, k: MethodKeyV) -> bool {
    ||| body_enters(m, b, k)
    ||| exists|i: int|
        0 <= i < marks.len() && #[trigger] marks[i] && (p.body_of(p.bodies@[i].key@) matches Some(c)
            && body_enters(m, c, k))
}

fn is_next(p: &Program, m: &Models, b: &Body, marks: &Vec<bool>, k: &MethodKey) -> (r: bool)
    requires
        marks@.len() == p.bodies@.len(),
    ensures
        r == next_entered(*p, *m, *b, marks@, k@),
{
    if some_enters(m, b, k) {
        return true;
    }
    let mut i: usize = 0;
    while i < marks.len()
        invariant
            i <= marks@.len(),
            marks@.len() == p.bodies@.len(),
            forall|x: int|
                0 <= x < i && #[trigger] marks@[x] ==> !(p.body_of(p.bodies@[x].key@) matches Some(c)
                    && body_enters(*m, c, k@)),
        decreases marks@.len() - i,
    {
        if marks[i] {
            if let Some(c) = p.body(&p.bodies[i].key) {
                if some_enters(m, c, k) {
                    return true;
                }
            }
        }
        i += 1;
    }
    false
}

proof fn lemma_all_marked(p: Program, m: Models, b: Body, marks: Seq<bool>, k: MethodKeyV, n: nat)
    requires
        marks.len() == p.bodies@.len(),
        forall|j: int|
            0 <= j < marks.len() && !#[trigger] marks[j] ==> !next_entered(
                p,
                m,
                b,
                marks,
                p.bodies@[j].key@,
            ),
        entered(p, m, b, k, n),
        p.body_of(k) is Some,
    ensures
        exists|j: int| 0 <= j < marks.len() && #[trigger] marks[j] && p.bodies@[j].key@ == k,
    decreases n,
{
    p.lemma_body_of(k);
    let c = p.body_of(k)->0;
    let j = choose|j: int| 0 <= j < p.bodies@.len() && p.bodies@[j] == c;
    assert(p.bodies@[j].key@ == k);
    if n > 0 {
        let via = choose|via: MethodKeyV| #[trigger]
            leads(p, m, via, k) && entered(p, m, b, via, (n - 1) as nat);
        lemma_all_marked(p, m, b, marks, via, (n - 1) as nat);
        let i = choose|i: int| 0 <= i < marks.len() && #[trigger] marks[i] && p.bodies@[i].key@ == via;
        assert(marks[i]);
    }
    assert(next_entered(p, m, b, marks, k));
    if !marks[j] {
        assert(!next_entered(p, m, b, marks, p.bodies@[j].key@));
    }
}

/// Can the body be run, and all that can be entered from it?
pub fn can_be_run(p: &Program, m: &Models, b: &Body) -> (r: bool)
    requires
        p.well_formed(),
        b.well_formed(),
    ensures
        r == can_run(*p, *m, *b),
{
    if !is_runnable(b) {
        return false;
    }
    let n = p.bodies.len();
    let mut marks: Vec<bool> = Vec::new();
    while marks.len() < n
        invariant
            marks@.len() <= n,
            forall|i: int| 0 <= i < marks@.len() ==> !#[trigger] marks@[i],
        decreases n - marks@.len(),
    {
        marks.push(false);
    }
    let mut changed = true;
    while changed
        invariant
            n == p.bodies@.len(),
            marks@.len() == n,
            p.well_formed(),
            marked_entered(*p, *m, *b, marks@),
            !changed ==> forall|j: int|
                0 <= j < marks@.len() && !#[trigger] marks@[j] ==> !next_entered(
                    *p,
                    *m,
                    *b,
                    marks@,
                    p.bodies@[j].key@,
                ),
        decreases unmarked(marks@, n as nat), (if changed {
            1int
        } else {
            0int
        }),
    {
        changed = false;
        let ghost before = marks@;
        let mut j: usize = 0;
        while j < n && !changed
            invariant
                n == p.bodies@.len(),
                marks@.len() == n,
                before.len() == n,
                j <= n,
                p.well_formed(),
                marked_entered(*p, *m, *b, marks@),
                changed ==> unmarked(marks@, n as nat) < unmarked(before, n as nat),
                !changed ==> marks@ == before,
                !changed ==> forall|x: int|
                    0 <= x < j && !#[trigger] marks@[x] ==> !next_entered(
                        *p,
                        *m,
                        *b,
                        marks@,
                        p.bodies@[x].key@,
                    ),
            decreases n - j,
        {
            if !marks[j] && is_next(p, m, b, &marks, &p.bodies[j].key) {
                let ghost old_marks = marks@;
                proof {
                    let k = p.bodies@[j as int].key@;
                    lemma_unmarked(marks@, j as int, n as nat);
                    assert(exists|x: nat| #[trigger] entered(*p, *m, *b, k, x)) by {
                        if body_enters(*m, *b, k) {
                            assert(entered(*p, *m, *b, k, 0));
                        } else {
                            let i = choose|i: int|
                                0 <= i < marks@.len() && #[trigger] marks@[i] && (p.body_of(
                                    p.bodies@[i].key@,
                                ) matches Some(c) && body_enters(*m, c, k));
                            let via = p.bodies@[i].key@;
                            let x = choose|x: nat| #[trigger] entered(*p, *m, *b, via, x);
                            assert(leads(*p, *m, via, k));
                            assert(entered(*p, *m, *b, k, x + 1));
                        }
                    }
                }
                marks.set(j, true);
                changed = true;
                proof {
                    assert forall|i: int| 0 <= i < marks@.len() && #[trigger] marks@[i] implies exists|
                        x: nat,
                    | #[trigger] entered(*p, *m, *b, p.bodies@[i].key@, x) by {
                        if i != j {
                            assert(old_marks[i]);
                        }
                    }
                }
            }
            j += 1;
        }
    }
    let mut i: usize = 0;
    while i < n
        invariant
            n == p.bodies@.len(),
            marks@.len() == n,
            i <= n,
            p.well_formed(),
            marked_entered(*p, *m, *b, marks@),
            forall|x: int|
                0 <= x < i && #[trigger] marks@[x] ==> (p.body_of(p.bodies@[x].key@) matches Some(c)
                    ==> runnable(c)),
        decreases n - i,
    {
        if marks[i] {
            if let Some(c) = p.body(&p.bodies[i].key) {
                if !is_runnable(c) {
                    proof {
                        assert(marks@[i as int]);
                        let k = p.bodies@[i as int].key@;
                        let x = choose|x: nat| #[trigger] entered(*p, *m, *b, k, x);
                        assert(entered(*p, *m, *b, k, x));
                    }
                    return false;
                }
            }
        }
        i += 1;
    }
    proof {
        assert forall|k: MethodKeyV, x: nat| #[trigger] entered(*p, *m, *b, k, x) implies (p.body_of(
            k,
        ) matches Some(c) ==> runnable(c)) by {
            if p.body_of(k) is Some {
                lemma_all_marked(*p, *m, *b, marks@, k, x);
                let j = choose|j: int|
                    0 <= j < marks@.len() && #[trigger] marks@[j] && p.bodies@[j].key@ == k;
                assert(marks@[j]);
            }
        }
    }
    true
}

} // verus!
