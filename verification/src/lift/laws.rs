//! What spilling the stack does to the values of the variables.

use vstd::prelude::*;

use super::frame;
use super::decode::InsnV;
use super::frame::{Frame, SiteV};
use super::method;
use crate::ir::{ConstV, OperandV, RvalueV, StmtV, Ty, VarId, VarKind};

verus! {

/// The value of an operand, from those of the variables and the constants.
pub open spec fn held(o: OperandV, env: spec_fn(VarId) -> int, k: spec_fn(ConstV) -> int) -> int {
    match o {
        OperandV::Var(v) => env(v),
        OperandV::Const(c) => k(c),
    }
}

/// The values of the variables after a statement that copies a value.
pub open spec fn after_move(
    s: StmtV,
    env: spec_fn(VarId) -> int,
    k: spec_fn(ConstV) -> int,
) -> spec_fn(VarId) -> int {
    match s {
        StmtV::Assign(v, RvalueV::Use(o)) => |x: VarId|
            if x == v {
                held(o, env, k)
            } else {
                env(x)
            },
        _ => env,
    }
}

/// The values of the variables after `n` statements, from statement `from` on.
pub open spec fn after_moves(
    stmts: Seq<StmtV>,
    from: int,
    n: nat,
    env: spec_fn(VarId) -> int,
    k: spec_fn(ConstV) -> int,
) -> spec_fn(VarId) -> int
    decreases n,
{
    if n == 0 {
        env
    } else {
        after_move(stmts[from + n - 1], after_moves(stmts, from, (n - 1) as nat, env, k), k)
    }
}

proof fn lemma_moves_split(
    stmts: Seq<StmtV>,
    from: int,
    a: nat,
    b: nat,
    env: spec_fn(VarId) -> int,
    k: spec_fn(ConstV) -> int,
)
    ensures
        after_moves(stmts, from, a + b, env, k) == after_moves(
            stmts,
            from + a,
            b,
            after_moves(stmts, from, a, env, k),
            k,
        ),
    decreases b,
{
    if b > 0 {
        lemma_moves_split(stmts, from, a, (b - 1) as nat, env, k);
        assert((a + b - 1) as nat == a + (b - 1) as nat);
        assert(from + (a + b) - 1 == from + a + b - 1);
    }
}

proof fn lemma_moves_same(
    s: Seq<StmtV>,
    t: Seq<StmtV>,
    from: int,
    n: nat,
    env: spec_fn(VarId) -> int,
    k: spec_fn(ConstV) -> int,
)
    requires
        forall|i: int| from <= i < from + n ==> #[trigger] s[i] == t[i],
    ensures
        after_moves(s, from, n, env, k) == after_moves(t, from, n, env, k),
    decreases n,
{
    if n > 0 {
        lemma_moves_same(s, t, from, (n - 1) as nat, env, k);
    }
}

/// Every stack position has a variable of its own.
pub open spec fn own_slots(f: Frame) -> bool {
    &&& forall|d: u16| #[trigger] f.slots.dom().contains(d) ==> f.slots[d].0 < f.vars.len()
    &&& forall|d: u16, e: u16|
        #[trigger] f.slots.dom().contains(d) && #[trigger] f.slots.dom().contains(e) && d != e
            ==> f.slots[d] != f.slots[e]
}

/// The stack refers to variables that exist, and there is room for more.
pub open spec fn spillable(f: Frame) -> bool {
    &&& own_slots(f)
    &&& forall|i: int|
        0 <= i < f.stack.len() ==> (#[trigger] f.stack[i] matches OperandV::Var(v) ==> v.0
            < f.vars.len())
    &&& f.stack.len() <= 0x10000
    &&& f.vars.len() + 2 * f.stack.len() <= u32::MAX
}

/// A lifter at work can spill its stack, as long as positions and variables can be
/// numbered, and knows classes only of variables that there are: so the laws on spilling
/// hold wherever lifting comes.
pub proof fn law_lifting_keeps_the_stack_spillable(l: frame::Lifter)
    requires
        l.ok(),
        l.stack@.len() <= 0x10000,
        l.vars@.len() + 2 * l.stack@.len() <= u32::MAX,
    ensures
        spillable(l.frame()),
        forall|v: VarId| #[trigger]
            l.frame().classes.dom().contains(v) ==> v.0 < l.frame().vars.len(),
{
    let f = l.frame();
    assert forall|i: int| 0 <= i < f.stack.len() implies (#[trigger] f.stack[i] matches OperandV::Var(
        v,
    ) ==> v.0 < f.vars.len()) by {
        assert(l.stack@[i].in_range(l.vars@.len()));
        assert(f.stack[i] == l.stack@[i]@);
    }
    assert forall|d: u16, e: u16|
        #[trigger] f.slots.dom().contains(d) && #[trigger] f.slots.dom().contains(e) && d != e
        implies f.slots[d] != f.slots[e] by {
        assert(f.vars[f.slots[d].0 as int].kind == VarKind::Stack(d));
        assert(f.vars[f.slots[e].0 as int].kind == VarKind::Stack(e));
    }
}

/// What saving the first `n` entries leaves behind.
spec fn entries_saved(
    f: Frame,
    n: nat,
    g: Frame,
    temps: Seq<(u16, VarId)>,
    env: spec_fn(VarId) -> int,
    k: spec_fn(ConstV) -> int,
) -> bool {
    let base = f.stmts.len() as int;
    let e = after_moves(g.stmts, base, temps.len(), env, k);
    &&& g.stmts.len() == f.stmts.len() + temps.len()
    &&& forall|i: int| 0 <= i < base ==> #[trigger] g.stmts[i] == f.stmts[i]
    &&& f.vars.len() <= g.vars.len() <= f.vars.len() + 2 * n
    &&& g.stack == f.stack
    &&& own_slots(g)
    &&& forall|d: u16| d < n ==> #[trigger] g.slots.dom().contains(d)
    &&& forall|d: u16| #[trigger] f.slots.dom().contains(d) ==> g.slots.dom().contains(d) && g.slots[d]
        == f.slots[d]
    &&& forall|j: int|
        0 <= j < temps.len() ==> {
            &&& (#[trigger] temps[j]).0 < n
            &&& f.vars.len() <= temps[j].1.0 < g.vars.len()
            &&& e(temps[j].1) == held(f.stack[temps[j].0 as int], env, k)
        }
    &&& forall|i: int, j: int|
        0 <= i < j < temps.len() ==> (#[trigger] temps[i]).0 < (#[trigger] temps[j]).0 && temps[i].1
            != temps[j].1
    &&& forall|j: int, d: u16|
        0 <= j < temps.len() && #[trigger] g.slots.dom().contains(d) ==> (#[trigger] temps[j]).1
            != g.slots[d]
    &&& forall|v: VarId| v.0 < f.vars.len() ==> #[trigger] e(v) == env(v)
    &&& forall|d: u16|
        d < n && (forall|j: int| 0 <= j < temps.len() ==> (#[trigger] temps[j]).0 != d)
            ==> f.stack[d as int] == OperandV::Var(#[trigger] g.slots[d])
}

proof fn lemma_saved(f: Frame, n: nat, env: spec_fn(VarId) -> int, k: spec_fn(ConstV) -> int)
    requires
        spillable(f),
        n <= f.stack.len(),
    ensures
        entries_saved(f, n, frame::saved(f, n).0, frame::saved(f, n).1, env, k),
    decreases n,
{
    if n > 0 {
        let m = (n - 1) as nat;
        lemma_saved(f, m, env, k);
        let (g, temps) = frame::saved(f, m);
        let d = m as u16;
        let (h, canonical) = g.slot(d);
        let op = f.stack[m as int];
        let base = f.stmts.len() as int;
        let e = after_moves(g.stmts, base, temps.len(), env, k);
        assert(own_slots(h));
        assert(h.slots.dom().contains(d) && h.slots[d] == canonical);
        assert(h.stmts == g.stmts);
        if op == OperandV::Var(canonical) {
            assert(entries_saved(f, n, h, temps, env, k));
        } else {
            let t = h.next();
            let r = h.with_var(VarKind::Temp, Ty::Int).class_copied(t, op).with_stmt(
                StmtV::Assign(t, RvalueV::Use(op)),
            );
            let all = temps.push((d, t));
            assert(r.stmts == g.stmts.push(StmtV::Assign(t, RvalueV::Use(op))));
            lemma_moves_same(r.stmts, g.stmts, base, temps.len(), env, k);
            let e2 = after_moves(r.stmts, base, all.len(), env, k);
            assert(r.stmts[base + all.len() - 1] == StmtV::Assign(t, RvalueV::Use(op)));
            assert(forall|x: VarId| #[trigger] e2(x) == if x == t {
                held(op, e, k)
            } else {
                e(x)
            });
            assert(held(op, e, k) == held(op, env, k)) by {
                if let OperandV::Var(v) = op {
                    assert(e(v) == env(v));
                }
            }
            assert(r.slots == h.slots);
            assert forall|j: int| 0 <= j < all.len() implies {
                &&& (#[trigger] all[j]).0 < n
                &&& f.vars.len() <= all[j].1.0 < r.vars.len()
                &&& e2(all[j].1) == held(f.stack[all[j].0 as int], env, k)
            } by {
                if j < temps.len() {
                    assert(all[j] == temps[j]);
                }
            }
            assert forall|i: int, j: int| 0 <= i < j < all.len() implies (#[trigger] all[i]).0 < (
            #[trigger] all[j]).0 && all[i].1 != all[j].1 by {
                assert(all[i] == temps[i]);
                if j < temps.len() {
                    assert(all[j] == temps[j]);
                }
            }
            assert forall|j: int, x: u16|
                0 <= j < all.len() && #[trigger] r.slots.dom().contains(x) implies (
            #[trigger] all[j]).1 != r.slots[x] by {
                if j < temps.len() {
                    assert(all[j] == temps[j]);
                }
            }
            assert forall|x: u16|
                x < n && (forall|j: int| 0 <= j < all.len() ==> (#[trigger] all[j]).0 != x)
                implies f.stack[x as int] == OperandV::Var(#[trigger] r.slots[x]) by {
                assert(all[temps.len() as int] == (d, t));
                assert forall|j: int| 0 <= j < temps.len() implies (#[trigger] temps[j]).0 != x by {
                    assert(all[j] == temps[j]);
                }
                assert(f.stack[x as int] == OperandV::Var(g.slots[x]));
            }
            assert(entries_saved(f, n, r, all, env, k));
        }
    } else {
        assert(frame::saved(f, 0).1 =~= Seq::empty());
    }
}

proof fn lemma_restored(
    g: Frame,
    temps: Seq<(u16, VarId)>,
    i: nat,
    env: spec_fn(VarId) -> int,
    k: spec_fn(ConstV) -> int,
)
    requires
        own_slots(g),
        i <= temps.len(),
        forall|j: int| 0 <= j < temps.len() ==> g.slots.dom().contains((#[trigger] temps[j]).0),
        forall|j: int, l: int|
            0 <= j < l < temps.len() ==> (#[trigger] temps[j]).0 < (#[trigger] temps[l]).0,
        forall|j: int, d: u16|
            0 <= j < temps.len() && #[trigger] g.slots.dom().contains(d) ==> (#[trigger] temps[j]).1
                != g.slots[d],
    ensures
        ({
            let h = frame::restored(g, temps, i);
            let base = g.stmts.len() as int;
            let e = after_moves(h.stmts, base, i, env, k);
            &&& h.stmts.len() == base + i
            &&& forall|x: int| 0 <= x < base ==> #[trigger] h.stmts[x] == g.stmts[x]
            &&& h.slots == g.slots
            &&& h.vars == g.vars
            &&& h.stack == g.stack
            &&& forall|j: int|
                0 <= j < i ==> e(g.slots[(#[trigger] temps[j]).0]) == env(temps[j].1)
            &&& forall|v: VarId|
                (forall|j: int| 0 <= j < i ==> g.slots[(#[trigger] temps[j]).0] != v)
                    ==> #[trigger] e(v) == env(v)
        }),
    decreases i,
{
    if i > 0 {
        let m = (i - 1) as nat;
        lemma_restored(g, temps, m, env, k);
        let h = frame::restored(g, temps, m);
        let (d, t) = temps[m as int];
        let base = g.stmts.len() as int;
        let e = after_moves(h.stmts, base, m, env, k);
        let r = frame::restored(g, temps, i);
        assert(g.slots.dom().contains(temps[m as int].0));
        let canonical = g.slots[d];
        let last = StmtV::Assign(canonical, RvalueV::Use(OperandV::Var(t)));
        assert(r.stmts == h.stmts.push(last));
        lemma_moves_same(r.stmts, h.stmts, base, m, env, k);
        let e2 = after_moves(r.stmts, base, i, env, k);
        assert(r.stmts[base + i - 1] == last);
        assert(forall|x: VarId| #[trigger] e2(x) == if x == canonical {
            e(t)
        } else {
            e(x)
        });
        assert(e(t) == env(t)) by {
            assert forall|j: int| 0 <= j < m implies g.slots[(#[trigger] temps[j]).0] != t by {
                assert(g.slots.dom().contains(temps[j].0));
                assert(temps[m as int].1 != g.slots[temps[j].0]);
            }
        }
        assert forall|j: int| 0 <= j < i implies e2(g.slots[(#[trigger] temps[j]).0]) == env(
            temps[j].1,
        ) by {
            if j < m {
                assert(temps[j].0 < temps[m as int].0);
                assert(g.slots.dom().contains(temps[j].0));
                assert(g.slots[temps[j].0] != canonical);
            }
        }
        assert forall|v: VarId|
            (forall|j: int| 0 <= j < i ==> g.slots[(#[trigger] temps[j]).0] != v)
            implies #[trigger] e2(v) == env(v) by {
            assert(g.slots[temps[m as int].0] != v);
            assert(e(v) == env(v));
        }
    }
}

/// The values of the variables after the stack was spilled.
pub open spec fn after_spill(
    f: Frame,
    env: spec_fn(VarId) -> int,
    k: spec_fn(ConstV) -> int,
) -> spec_fn(VarId) -> int {
    let g = frame::spilled(f);
    after_moves(g.stmts, f.stmts.len() as int, (g.stmts.len() - f.stmts.len()) as nat, env, k)
}

/// Spilling puts each stack entry into the variable of its position, also where
/// entries are in the variables of other positions. No other variable that there was
/// before changes its value.
pub proof fn law_stack_is_in_its_variables(
    f: Frame,
    env: spec_fn(VarId) -> int,
    k: spec_fn(ConstV) -> int,
)
    requires
        spillable(f),
    ensures
        ({
            let g = frame::spilled(f);
            let e = after_spill(f, env, k);
            &&& forall|d: u16|
                d < f.stack.len() ==> #[trigger] g.slots.dom().contains(d) && e(g.slots[d])
                    == held(f.stack[d as int], env, k)
            &&& forall|v: VarId|
                v.0 < f.vars.len() && (forall|d: u16|
                    d < f.stack.len() ==> #[trigger] g.slots[d] != v) ==> #[trigger] e(v) == env(v)
            &&& forall|d: u16| #[trigger] f.slots.dom().contains(d) ==> g.slots.dom().contains(d)
                && g.slots[d] == f.slots[d]
            &&& own_slots(g)
            &&& g.stack == f.stack
            &&& f.vars.len() <= g.vars.len() <= f.vars.len() + 2 * f.stack.len()
        }),
{
    let n = f.stack.len();
    let (s, temps) = frame::saved(f, n);
    let base = f.stmts.len() as int;
    lemma_saved(f, n, env, k);
    let e1 = after_moves(s.stmts, base, temps.len(), env, k);
    assert forall|j: int| 0 <= j < temps.len() implies s.slots.dom().contains(
        (#[trigger] temps[j]).0,
    ) by {
        assert(temps[j].0 < n);
    }
    assert forall|j: int, l: int| 0 <= j < l < temps.len() implies (#[trigger] temps[j]).0 < (
    #[trigger] temps[l]).0 by {}
    lemma_restored(s, temps, temps.len(), e1, k);
    let g = frame::spilled(f);
    lemma_moves_same(g.stmts, s.stmts, base, temps.len(), env, k);
    lemma_moves_split(g.stmts, base, temps.len(), temps.len(), env, k);
    let e = after_spill(f, env, k);
    assert(e == after_moves(g.stmts, s.stmts.len() as int, temps.len(), e1, k));
    assert forall|d: u16| d < n implies #[trigger] g.slots.dom().contains(d) && e(g.slots[d])
        == held(f.stack[d as int], env, k) by {
        if exists|j: int| 0 <= j < temps.len() && (#[trigger] temps[j]).0 == d {
            let j = choose|j: int| 0 <= j < temps.len() && (#[trigger] temps[j]).0 == d;
            assert(e(s.slots[temps[j].0]) == e1(temps[j].1));
        } else {
            assert(f.stack[d as int] == OperandV::Var(s.slots[d]));
            assert forall|j: int| 0 <= j < temps.len() implies s.slots[(#[trigger] temps[j]).0]
                != s.slots[d] by {
                assert(s.slots.dom().contains(temps[j].0));
                assert(s.slots.dom().contains(d));
            }
            assert(e(s.slots[d]) == e1(s.slots[d]));
            assert(e1(s.slots[d]) == env(s.slots[d]));
        }
    }
    assert forall|v: VarId|
        v.0 < f.vars.len() && (forall|d: u16| d < n ==> #[trigger] g.slots[d] != v)
        implies #[trigger] e(v) == env(v) by {
        assert forall|j: int| 0 <= j < temps.len() implies s.slots[(#[trigger] temps[j]).0] != v by {
            assert(temps[j].0 < n);
            assert(g.slots[temps[j].0] != v);
        }
        assert(e(v) == e1(v));
        assert(e1(v) == env(v));
    }
}

/// What the spilled stack is known to hold: saving.
proof fn lemma_classes_saved(f: Frame, n: nat)
    requires
        spillable(f),
        forall|v: VarId| #[trigger] f.classes.dom().contains(v) ==> v.0 < f.vars.len(),
        n <= f.stack.len(),
    ensures
        ({
            let (g, temps) = frame::saved(f, n);
            &&& forall|v: VarId|
                v.0 < f.vars.len() ==> (#[trigger] g.classes.dom().contains(v) <==> f.classes.dom().contains(
                    v,
                )) && g.classes[v] == f.classes[v]
            &&& forall|j: int|
                0 <= j < temps.len() ==> (class_of(f, f.stack[(#[trigger] temps[j]).0 as int]) is Some
                    ==> class_of(g, OperandV::Var(temps[j].1)) == class_of(
                    f,
                    f.stack[temps[j].0 as int],
                ))
        }),
    decreases n,
{
    if n > 0 {
        let m = (n - 1) as nat;
        lemma_classes_saved(f, m);
        lemma_saved(f, m, |v: VarId| 0int, |c: ConstV| 0int);
        let (g, temps) = frame::saved(f, m);
        let (h, canonical) = g.slot(m as u16);
        let op = f.stack[m as int];
        assert(h.classes == g.classes);
        if op != OperandV::Var(canonical) {
            let t = h.next();
            let (r, all) = frame::saved(f, n);
            assert(all == temps.push((m as u16, t)));
            assert(r.classes == h.class_copied(t, op).classes);
            assert forall|j: int| 0 <= j < all.len() && class_of(
                f,
                f.stack[(#[trigger] all[j]).0 as int],
            ) is Some implies class_of(r, OperandV::Var(all[j].1)) == class_of(
                f,
                f.stack[all[j].0 as int],
            ) by {
                if j < temps.len() {
                    assert(all[j] == temps[j]);
                    assert(temps[j].1 != t);
                }
            }
        }
    }
}

/// What the spilled stack is known to hold: putting the entries in place.
proof fn lemma_classes_restored(g: Frame, temps: Seq<(u16, VarId)>, i: nat)
    requires
        own_slots(g),
        i <= temps.len(),
        forall|j: int| 0 <= j < temps.len() ==> g.slots.dom().contains((#[trigger] temps[j]).0),
        forall|j: int, l: int|
            0 <= j < l < temps.len() ==> (#[trigger] temps[j]).0 < (#[trigger] temps[l]).0,
        forall|j: int, d: u16|
            0 <= j < temps.len() && #[trigger] g.slots.dom().contains(d) ==> (#[trigger] temps[j]).1
                != g.slots[d],
    ensures
        ({
            let h = frame::restored(g, temps, i);
            &&& h.slots == g.slots
            &&& forall|j: int|
                0 <= j < i ==> (class_of(g, OperandV::Var((#[trigger] temps[j]).1)) is Some
                    ==> class_of(h, OperandV::Var(g.slots[temps[j].0])) == class_of(
                    g,
                    OperandV::Var(temps[j].1),
                ))
            &&& forall|v: VarId|
                (forall|j: int| 0 <= j < i ==> g.slots[(#[trigger] temps[j]).0] != v)
                    ==> #[trigger] h.classes.dom().contains(v) == g.classes.dom().contains(v)
                    && h.classes[v] == g.classes[v]
        }),
    decreases i,
{
    if i > 0 {
        let m = (i - 1) as nat;
        lemma_classes_restored(g, temps, m);
        let h = frame::restored(g, temps, m);
        let (d, t) = temps[m as int];
        assert(g.slots.dom().contains(temps[m as int].0));
        let canonical = g.slots[d];
        let r = frame::restored(g, temps, i);
        assert(r.classes == h.class_copied(canonical, OperandV::Var(t)).classes);
        assert forall|j: int| 0 <= j < m implies g.slots[(#[trigger] temps[j]).0] != t by {
            assert(g.slots.dom().contains(temps[j].0));
            assert(temps[m as int].1 != g.slots[temps[j].0]);
        }
        assert(h.classes.dom().contains(t) == g.classes.dom().contains(t));
        assert forall|j: int| 0 <= j < i && class_of(g, OperandV::Var((#[trigger] temps[j]).1)) is Some implies class_of(
            r,
            OperandV::Var(g.slots[temps[j].0]),
        ) == class_of(g, OperandV::Var(temps[j].1)) by {
            if j < m {
                assert(temps[j].0 < temps[m as int].0);
                assert(g.slots.dom().contains(temps[j].0));
                assert(g.slots[temps[j].0] != canonical);
            }
        }
        assert forall|v: VarId|
            (forall|j: int| 0 <= j < i ==> g.slots[(#[trigger] temps[j]).0] != v)
            implies #[trigger] r.classes.dom().contains(v) == g.classes.dom().contains(v)
            && r.classes[v] == g.classes[v] by {
            assert(g.slots[temps[m as int].0] != v);
            assert(h.classes.dom().contains(v) == g.classes.dom().contains(v));
        }
    }
}

/// The class of the object that an operand is known to refer to.
pub open spec fn class_of(f: Frame, op: OperandV) -> Option<Seq<char>> {
    match op {
        OperandV::Var(v) => if f.classes.dom().contains(v) {
            Some(f.classes[v])
        } else {
            None
        },
        _ => None,
    }
}

/// Spilling carries the class that a stack entry is known to have to the variable of its
/// position.
pub proof fn law_spilled_entries_keep_their_classes(f: Frame, d: u16)
    requires
        spillable(f),
        forall|v: VarId| #[trigger] f.classes.dom().contains(v) ==> v.0 < f.vars.len(),
        d < f.stack.len(),
        class_of(f, f.stack[d as int]) is Some,
    ensures
        ({
            let g = frame::spilled(f);
            g.slots.dom().contains(d) && class_of(g, OperandV::Var(g.slots[d])) == class_of(
                f,
                f.stack[d as int],
            )
        }),
{
    let n = f.stack.len();
    let (s, temps) = frame::saved(f, n);
    lemma_saved(f, n, |v: VarId| 0int, |c: ConstV| 0int);
    lemma_classes_saved(f, n);
    assert forall|j: int| 0 <= j < temps.len() implies s.slots.dom().contains(
        (#[trigger] temps[j]).0,
    ) by {
        assert(temps[j].0 < n);
    }
    assert forall|j: int, l: int| 0 <= j < l < temps.len() implies (#[trigger] temps[j]).0 < (
    #[trigger] temps[l]).0 by {}
    lemma_classes_restored(s, temps, temps.len());
    assert(s.slots.dom().contains(d));
    if exists|j: int| 0 <= j < temps.len() && (#[trigger] temps[j]).0 == d {
        let j = choose|j: int| 0 <= j < temps.len() && (#[trigger] temps[j]).0 == d;
        assert(class_of(s, OperandV::Var(temps[j].1)) == class_of(f, f.stack[d as int]));
    } else {
        assert(f.stack[d as int] == OperandV::Var(s.slots[d]));
        let v = s.slots[d];
        assert forall|j: int| 0 <= j < temps.len() implies s.slots[(#[trigger] temps[j]).0] != v by {
            assert(s.slots.dom().contains(temps[j].0));
        }
        assert(f.classes.dom().contains(v));
        assert(s.classes.dom().contains(v));
        assert(frame::spilled(f).classes.dom().contains(v) == s.classes.dom().contains(v));
    }
}

/// A block that is left inside the body ends with the moves that put each stack entry
/// into the variable of its position.
pub proof fn law_block_leaves_its_stack_in_variables(
    site: SiteV,
    insns: Seq<InsnV>,
    f: Frame,
    bi: int,
    h: u16,
    env: spec_fn(VarId) -> int,
    k: spec_fn(ConstV) -> int,
)
    requires
        ({
            let l = method::block_lifted(site, insns, f, bi, h);
            &&& method::goes_on(method::ending(site, l, method::block_end(site, bi)).0)
            &&& spillable(l.frame)
        }),
    ensures
        ({
            let l = method::block_lifted(site, insns, f, bi, h);
            let b = method::lifted_block(site, insns, f, bi, h);
            let n = l.frame.stmts.len();
            let e = after_moves(
                b.block.stmts,
                n as int,
                (b.block.stmts.len() - n) as nat,
                env,
                k,
            );
            forall|d: u16|
                d < l.frame.stack.len() ==> #[trigger] b.frame.slots.dom().contains(d) && e(
                    b.frame.slots[d],
                ) == held(l.frame.stack[d as int], env, k)
        }),
{
    let l = method::block_lifted(site, insns, f, bi, h);
    law_stack_is_in_its_variables(l.frame, env, k);
    let b = method::lifted_block(site, insns, f, bi, h);
    let g = frame::spilled(l.frame);
    assert(b.block.stmts == g.stmts);
    assert(b.frame.slots == g.slots);
    let n = l.frame.stmts.len();
    let e = after_moves(b.block.stmts, n as int, (b.block.stmts.len() - n) as nat, env, k);
    assert(e == after_spill(l.frame, env, k));
    assert forall|d: u16| d < l.frame.stack.len() implies #[trigger] b.frame.slots.dom().contains(d)
        && e(b.frame.slots[d]) == held(l.frame.stack[d as int], env, k) by {
        assert(g.slots.dom().contains(d));
    }
}

} // verus!
