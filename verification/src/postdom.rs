//! Post-dominators of the blocks of a body.
//!
//! Block `p` post-dominates `b` when every way from `b` out of the body leads
//! through `p`. The nearest common post-dominator of the targets of a branch is
//! the point where its arms provably meet again, so that their states can be
//! joined there. Nothing here depends on how blocks are numbered.
//!
//! All exits lead to one node behind the last block; it stands for leaving the
//! body.

use vstd::prelude::*;

use crate::ir;
use crate::ir::{Body, BlockId, Terminator};

verus! {

/// The blocks that block `b` can continue at.
pub open spec fn succ_ids(body: Body, b: int) -> Seq<u32> {
    ir::term_targets(body.blocks@[b].term).map_values(|t: BlockId| t.0)
}

/// The blocks that block `b` can continue at. `Return`, `Throw`, `Halt` and
/// `Diverge` leave the body and have none.
pub fn successors(body: &Body, b: u32) -> (r: Vec<u32>)
    requires
        b < body.blocks@.len(),
    ensures
        r@ == succ_ids(*body, b as int),
{
    let mut v: Vec<u32> = Vec::new();
    let ghost targets = ir::term_targets(body.blocks@[b as int].term);
    match &body.blocks[b as usize].term {
        Terminator::Goto(t) => {
            v.push(t.0);
        },
        Terminator::Branch { then_, else_, .. } => {
            v.push(then_.0);
            v.push(else_.0);
        },
        Terminator::Switch { cases, default, .. } => {
            let mut i: usize = 0;
            while i < cases.len()
                invariant
                    i <= cases@.len(),
                    v@.len() == i,
                    forall|j: int| 0 <= j < i ==> #[trigger] v@[j] == cases@[j].1.0,
                decreases cases@.len() - i,
            {
                v.push(cases[i].1.0);
                i += 1;
            }
            v.push(default.0);
        },
        _ => {},
    }
    proof {
        assert(v@ =~= succ_ids(*body, b as int));
    }
    v
}

/// The successors of every block.
pub open spec fn graph_of(body: Body) -> Seq<Seq<u32>> {
    Seq::new(body.blocks@.len(), |b: int| succ_ids(body, b))
}

/// Can control go from `a` to `b`? A block without successors leads to the exit,
/// the node `g.len()`; a successor that is no block leads nowhere.
pub open spec fn edge(g: Seq<Seq<u32>>, a: int, b: int) -> bool {
    &&& 0 <= a < g.len()
    &&& if g[a].len() == 0 {
        b == g.len()
    } else {
        0 <= b < g.len() && g[a].contains(b as u32)
    }
}

/// A way from `b` out of the body.
pub open spec fn way_out(g: Seq<Seq<u32>>, path: Seq<int>, b: int) -> bool {
    &&& path.len() >= 1
    &&& path[0] == b
    &&& path.last() == g.len()
    &&& forall|i: int| 0 <= i < path.len() - 1 ==> edge(g, #[trigger] path[i], path[i + 1])
}

/// Is there a way from `b` out of the body?
pub open spec fn escapes(g: Seq<Seq<u32>>, b: int) -> bool {
    exists|path: Seq<int>| way_out(g, path, b)
}

/// Is there a way from `b` out of the body that avoids `p`?
pub open spec fn bypasses(g: Seq<Seq<u32>>, b: int, p: int) -> bool {
    exists|path: Seq<int>| #[trigger] way_out(g, path, b) && !path.contains(p)
}

/// Does `p` post-dominate `b`? Every block does so to itself; no other block
/// does so to one from which there is no way out.
pub open spec fn post_dom(g: Seq<Seq<u32>>, p: int, b: int) -> bool {
    p == b || (escapes(g, b) && !bypasses(g, b, p))
}

/// `p` is the nearest of the post-dominators of `b` other than `b` itself.
pub open spec fn nearest(g: Seq<Seq<u32>>, b: int, p: int) -> bool {
    &&& 0 <= p <= g.len()
    &&& p != b
    &&& post_dom(g, p, b)
    &&& forall|q: int|
        0 <= q <= g.len() && q != b && #[trigger] post_dom(g, q, b) ==> post_dom(g, q, p)
}

/// The immediate post-dominator of `b`: the nearest one, or none when that is outside the
/// body or there is no way out of `b`.
pub open spec fn is_ipdom(g: Seq<Seq<u32>>, b: int, r: Option<u32>) -> bool {
    match r {
        Some(p) => p < g.len() && escapes(g, b) && nearest(g, b, p as int),
        None => !escapes(g, b) || b == g.len() || nearest(g, b, g.len() as int),
    }
}

/// `m` is the nearest of the common post-dominators of `a` and `b`.
pub open spec fn meets_at(g: Seq<Seq<u32>>, a: int, b: int, m: int) -> bool {
    &&& 0 <= m <= g.len()
    &&& post_dom(g, m, a)
    &&& post_dom(g, m, b)
    &&& forall|q: int|
        0 <= q <= g.len() && #[trigger] post_dom(g, q, a) && post_dom(g, q, b) ==> post_dom(g, q, m)
}

/// Where `a` and `b` meet; `a` itself if one of them has no way out.
pub open spec fn meet(g: Seq<Seq<u32>>, a: int, b: int) -> int {
    if a == b {
        a
    } else if escapes(g, a) && escapes(g, b) {
        choose|m: int| #[trigger] meets_at(g, a, b, m)
    } else {
        a
    }
}

/// Where the first `n` targets meet.
pub open spec fn meet_all(g: Seq<Seq<u32>>, targets: Seq<u32>, n: nat) -> int
    decreases n,
{
    if n <= 1 {
        targets[0] as int
    } else {
        let before = meet_all(g, targets, (n - 1) as nat);
        if before == g.len() {
            before
        } else {
            meet(g, before, targets[n - 1] as int)
        }
    }
}

/// Does one of the targets post-dominate another?
pub open spec fn dependent(g: Seq<Seq<u32>>, targets: Seq<u32>) -> bool {
    exists|i: int, j: int|
        0 <= i < targets.len() && 0 <= j < targets.len() && i != j && #[trigger] post_dom(
            g,
            targets[i] as int,
            targets[j] as int,
        )
}

/// Is there a way out of the body from each of the targets?
pub open spec fn all_escape(g: Seq<Seq<u32>>, targets: Seq<u32>) -> bool {
    forall|j: int| 0 <= j < targets.len() ==> escapes(g, #[trigger] targets[j] as int)
}

/// The join point of a branch: where its targets meet, unless that is outside
/// the body or one of the targets, the targets are not independent, or there is no
/// way out from one of them.
pub open spec fn join_point(g: Seq<Seq<u32>>, targets: Seq<u32>) -> Option<u32> {
    let m = meet_all(g, targets, targets.len());
    if targets.len() == 0 || !all_escape(g, targets) || dependent(g, targets) || m == g.len()
        || targets.contains(m as u32) {
        None
    } else {
        Some(m as u32)
    }
}

// ---------------------------------------------------------------------------
// Facts about ways out
// ---------------------------------------------------------------------------

/// The rest of a way out is one.
proof fn lemma_suffix(g: Seq<Seq<u32>>, path: Seq<int>, b: int, i: int)
    requires
        way_out(g, path, b),
        0 <= i < path.len(),
    ensures
        way_out(g, path.skip(i), path[i]),
        forall|x: int| path.skip(i).contains(x) ==> path.contains(x),
{
    let rest = path.skip(i);
    assert forall|j: int| 0 <= j < rest.len() - 1 implies edge(g, #[trigger] rest[j], rest[j + 1]) by {
        assert(edge(g, path[i + j], path[i + j + 1]));
    }
    assert forall|x: int| rest.contains(x) implies path.contains(x) by {
        let j = choose|j: int| 0 <= j < rest.len() && rest[j] == x;
        assert(path[i + j] == x);
    }
}

/// A way out may be continued by another from any of its nodes.
proof fn lemma_splice(g: Seq<Seq<u32>>, first: Seq<int>, b: int, i: int, second: Seq<int>)
    requires
        way_out(g, first, b),
        0 <= i < first.len(),
        way_out(g, second, first[i]),
    ensures
        way_out(g, first.take(i) + second, b),
{
    let path = first.take(i) + second;
    assert forall|j: int| 0 <= j < path.len() - 1 implies edge(g, #[trigger] path[j], path[j + 1]) by {
        if j + 1 < i {
            assert(edge(g, first[j], first[j + 1]));
        } else if j + 1 == i {
            assert(edge(g, first[j], first[j + 1]));
            assert(path[j + 1] == second[0]);
        } else {
            assert(edge(g, second[j - i], second[j - i + 1]));
        }
    }
}

/// The nodes on a way out are blocks or the exit.
proof fn lemma_nodes(g: Seq<Seq<u32>>, path: Seq<int>, b: int, i: int)
    requires
        way_out(g, path, b),
        0 <= i < path.len(),
    ensures
        0 <= path[i] <= g.len(),
        i < path.len() - 1 ==> path[i] < g.len(),
{
    if i < path.len() - 1 {
        assert(edge(g, path[i], path[i + 1]));
    }
}

/// The exit is on every way out.
proof fn lemma_exit(g: Seq<Seq<u32>>, b: int)
    ensures
        escapes(g, b) ==> post_dom(g, g.len() as int, b),
{
    if escapes(g, b) && bypasses(g, b, g.len() as int) {
        let path = choose|path: Seq<int>| #[trigger]
            way_out(g, path, b) && !path.contains(g.len() as int);
        assert(path[path.len() - 1] == g.len());
    }
}

/// What a node post-dominates has a way out through it.
proof fn lemma_through(g: Seq<Seq<u32>>, p: int, b: int)
    requires
        post_dom(g, p, b),
        escapes(g, b),
    ensures
        escapes(g, p),
        0 <= p <= g.len(),
{
    let path = choose|path: Seq<int>| way_out(g, path, b);
    if p == b {
        lemma_nodes(g, path, b, 0);
    } else {
        assert(path.contains(p));
        let i = choose|i: int| 0 <= i < path.len() && path[i] == p;
        lemma_suffix(g, path, b, i);
        lemma_nodes(g, path, b, i);
        assert(way_out(g, path.skip(i), p));
    }
}

/// Post-dominance is transitive.
pub proof fn law_post_dom_transitive(g: Seq<Seq<u32>>, q: int, p: int, b: int)
    requires
        post_dom(g, q, p),
        post_dom(g, p, b),
    ensures
        post_dom(g, q, b),
{
    if p != b && q != b && q != p {
        if bypasses(g, b, q) {
            let path = choose|path: Seq<int>| #[trigger] way_out(g, path, b) && !path.contains(q);
            assert(path.contains(p));
            let i = choose|i: int| 0 <= i < path.len() && path[i] == p;
            lemma_suffix(g, path, b, i);
            assert(way_out(g, path.skip(i), p));
            assert(bypasses(g, p, q));
        }
    }
}

proof fn lemma_no_way(g: Seq<Seq<u32>>, p: int, q: int, path: Seq<int>)
    requires
        p != q,
        post_dom(g, p, q),
        post_dom(g, q, p),
    ensures
        !way_out(g, path, p),
    decreases path.len(),
{
    if way_out(g, path, p) {
        assert(path.contains(q));
        let i = choose|i: int| 0 <= i < path.len() && path[i] == q;
        lemma_suffix(g, path, p, i);
        assert(i > 0);
        lemma_no_way(g, q, p, path.skip(i));
    }
}

/// Two different nodes do not post-dominate each other.
pub proof fn law_post_dom_antisymmetric(g: Seq<Seq<u32>>, p: int, q: int)
    requires
        post_dom(g, p, q),
        post_dom(g, q, p),
    ensures
        p == q,
{
    if p != q {
        let path = choose|path: Seq<int>| way_out(g, path, p);
        lemma_no_way(g, p, q, path);
    }
}

/// First position of either node on a path that holds both.
proof fn lemma_first_of(path: Seq<int>, p: int, q: int, n: int) -> (i: int)
    requires
        0 <= n <= path.len(),
        exists|j: int| 0 <= j < n && (#[trigger] path[j] == p || path[j] == q),
    ensures
        0 <= i < n,
        path[i] == p || path[i] == q,
        forall|j: int| 0 <= j < i ==> #[trigger] path[j] != p && path[j] != q,
    decreases n,
{
    if exists|j: int| 0 <= j < n - 1 && (#[trigger] path[j] == p || path[j] == q) {
        lemma_first_of(path, p, q, n - 1)
    } else {
        let j = choose|j: int| 0 <= j < n && (#[trigger] path[j] == p || path[j] == q);
        assert(j == n - 1);
        n - 1
    }
}

/// Of two post-dominators of a block with a way out, one post-dominates the
/// other.
pub proof fn law_post_doms_form_a_chain(g: Seq<Seq<u32>>, b: int, p: int, q: int)
    requires
        escapes(g, b),
        post_dom(g, p, b),
        post_dom(g, q, b),
    ensures
        post_dom(g, p, q) || post_dom(g, q, p),
{
    lemma_through(g, p, b);
    lemma_through(g, q, b);
    if !post_dom(g, p, q) && !post_dom(g, q, p) {
        let beyond_q = choose|path: Seq<int>| #[trigger] way_out(g, path, q) && !path.contains(p);
        let beyond_p = choose|path: Seq<int>| #[trigger] way_out(g, path, p) && !path.contains(q);
        let path = choose|path: Seq<int>| way_out(g, path, b);
        assert(path.contains(p)) by {
            if p == b {
                assert(path[0] == p);
            }
        }
        let at = choose|i: int| 0 <= i < path.len() && path[i] == p;
        assert(path[at] == p);
        let i = lemma_first_of(path, p, q, path.len() as int);
        let rest = if path[i] == p {
            beyond_p
        } else {
            beyond_q
        };
        let missed = if path[i] == p {
            q
        } else {
            p
        };
        lemma_splice(g, path, b, i, rest);
        let around = path.take(i) + rest;
        assert(!around.contains(missed)) by {
            if around.contains(missed) {
                let j = choose|j: int| 0 <= j < around.len() && around[j] == missed;
                if j < i {
                    assert(path[j] == missed);
                } else {
                    assert(rest[j - i] == missed);
                }
            }
        }
        assert(bypasses(g, b, missed));
        if missed == b {
            assert(path[0] == missed);
            assert(around[0] == b);
        }
    }
}

/// Among the nodes below `k` that satisfy `f`, all post-dominators of `b`, one is
/// post-dominated by all the others.
proof fn lemma_least(g: Seq<Seq<u32>>, b: int, f: spec_fn(int) -> bool, k: int) -> (m: Option<int>)
    requires
        escapes(g, b),
        0 <= k,
        forall|x: int| 0 <= x < k && #[trigger] f(x) ==> post_dom(g, x, b),
    ensures
        match m {
            Some(x) => 0 <= x < k && f(x) && forall|q: int|
                0 <= q < k && #[trigger] f(q) ==> post_dom(g, q, x),
            None => forall|q: int| 0 <= q < k ==> !#[trigger] f(q),
        },
    decreases k,
{
    if k == 0 {
        None
    } else {
        let before = lemma_least(g, b, f, k - 1);
        if !f(k - 1) {
            before
        } else {
            match before {
                None => Some(k - 1),
                Some(x) => {
                    law_post_doms_form_a_chain(g, b, x, k - 1);
                    if post_dom(g, k - 1, x) {
                        Some(x)
                    } else {
                        assert forall|q: int| 0 <= q < k && #[trigger] f(q) implies post_dom(
                            g,
                            q,
                            k - 1,
                        ) by {
                            if q < k - 1 {
                                law_post_dom_transitive(g, q, x, k - 1);
                            }
                        }
                        Some(k - 1)
                    }
                },
            }
        }
    }
}

/// Two blocks with ways out meet in exactly one node.
pub proof fn law_meeting_point_exists(g: Seq<Seq<u32>>, a: int, b: int)
    requires
        escapes(g, a),
        escapes(g, b),
    ensures
        exists|m: int| #[trigger] meets_at(g, a, b, m),
        forall|m: int, m2: int| #[trigger]
            meets_at(g, a, b, m) && #[trigger] meets_at(g, a, b, m2) ==> m == m2,
{
    let f = |x: int| post_dom(g, x, a) && post_dom(g, x, b);
    let n = g.len() as int;
    lemma_exit(g, a);
    lemma_exit(g, b);
    assert(f(n));
    let m = lemma_least(g, a, f, n + 1);
    assert(meets_at(g, a, b, m->0)) by {
        assert forall|q: int|
            0 <= q <= g.len() && #[trigger] post_dom(g, q, a) && post_dom(g, q, b) implies post_dom(
            g,
            q,
            m->0,
        ) by {
            assert(f(q));
        }
    }
    assert forall|m: int, m2: int| #[trigger]
        meets_at(g, a, b, m) && #[trigger] meets_at(g, a, b, m2) implies m == m2 by {
        law_post_dom_antisymmetric(g, m, m2);
    }
}

/// A block with a way out has exactly one nearest post-dominator.
pub proof fn law_nearest_exists(g: Seq<Seq<u32>>, b: int)
    requires
        escapes(g, b),
        b != g.len(),
    ensures
        exists|p: int| nearest(g, b, p),
        forall|p: int, p2: int| #[trigger]
            nearest(g, b, p) && #[trigger] nearest(g, b, p2) ==> p == p2,
{
    let f = |x: int| x != b && post_dom(g, x, b);
    let n = g.len() as int;
    lemma_exit(g, b);
    assert(f(n));
    let m = lemma_least(g, b, f, n + 1);
    assert(nearest(g, b, m->0)) by {
        assert forall|q: int|
            0 <= q <= g.len() && q != b && #[trigger] post_dom(g, q, b) implies post_dom(
            g,
            q,
            m->0,
        ) by {
            assert(f(q));
        }
    }
    assert forall|p: int, p2: int| #[trigger]
        nearest(g, b, p) && #[trigger] nearest(g, b, p2) implies p == p2 by {
        law_post_dom_antisymmetric(g, p, p2);
    }
}

// ---------------------------------------------------------------------------
// Computation
// ---------------------------------------------------------------------------

/// The successors as lists.
spec fn lists(succs: Seq<Vec<u32>>) -> Seq<Seq<u32>> {
    succs.map_values(|v: Vec<u32>| v@)
}

/// Does one of the ways out of `b` start with a step to a marked node?
spec fn steps_to(g: Seq<Seq<u32>>, marked: Seq<bool>, b: int) -> bool {
    exists|c: int| #[trigger] edge(g, b, c) && marked[c]
}

/// Is one of the successors of `b` marked?
fn leads_on(succs: &Vec<Vec<u32>>, marked: &Vec<bool>, b: usize) -> (r: bool)
    requires
        b < succs@.len(),
        succs@.len() < u32::MAX,
        marked@.len() == succs@.len() + 1,
    ensures
        r == steps_to(lists(succs@), marked@, b as int),
{
    let ghost g = lists(succs@);
    let n = succs.len();
    let out = &succs[b];
    if out.len() == 0 {
        proof {
            assert(g[b as int].len() == 0);
            assert(edge(g, b as int, n as int));
        }
        return marked[n];
    }
    let mut i: usize = 0;
    while i < out.len()
        invariant
            i <= out@.len(),
            out@ == succs@[b as int]@,
            b < succs@.len(),
            n == succs@.len(),
            n < u32::MAX,
            g == lists(succs@),
            marked@.len() == n + 1,
            forall|j: int| 0 <= j < i ==> (#[trigger] out@[j]) >= n || !marked@[out@[j] as int],
        decreases out@.len() - i,
    {
        let c = out[i] as usize;
        if c < n && marked[c] {
            proof {
                assert(g[b as int][i as int] == c);
                assert(edge(g, b as int, c as int));
            }
            return true;
        }
        i += 1;
    }
    proof {
        assert(g[b as int] == out@);
        assert forall|c: int| #[trigger] edge(g, b as int, c) implies !marked@[c] by {
            let j = choose|j: int| 0 <= j < out@.len() && out@[j] == c as u32;
            assert(out@[j] == c);
        }
    }
    false
}

/// Is there a way out of `b` that avoids `p`, if a node is to be avoided?
spec fn open_way(g: Seq<Seq<u32>>, b: int, p: Option<u32>) -> bool {
    match p {
        Some(x) => bypasses(g, b, x as int),
        None => escapes(g, b),
    }
}

/// A way out after one step.
proof fn lemma_step(g: Seq<Seq<u32>>, b: int, c: int, p: Option<u32>)
    requires
        edge(g, b, c),
        open_way(g, c, p),
        p != Some(b as u32) || b > u32::MAX,
        0 <= b <= u32::MAX,
    ensures
        open_way(g, b, p),
{
    let rest = match p {
        Some(x) => choose|path: Seq<int>| #[trigger]
            way_out(g, path, c) && !path.contains(x as int),
        None => choose|path: Seq<int>| way_out(g, path, c),
    };
    let path = seq![b] + rest;
    assert forall|j: int| 0 <= j < path.len() - 1 implies edge(g, #[trigger] path[j], path[j + 1]) by {
        if j == 0 {
            assert(path[1] == rest[0]);
        } else {
            assert(edge(g, rest[j - 1], rest[j]));
        }
    }
    assert(way_out(g, path, b));
    if let Some(x) = p {
        assert(!path.contains(x as int)) by {
            if path.contains(x as int) {
                let j = choose|j: int| 0 <= j < path.len() && path[j] == x;
                if j > 0 {
                    assert(rest[j - 1] == x);
                }
            }
        }
    }
}

/// Where the marks are closed under stepping back, every node with a way out is
/// marked.
proof fn lemma_closed(g: Seq<Seq<u32>>, marked: Seq<bool>, p: Option<u32>, path: Seq<int>, b: int)
    requires
        g.len() < u32::MAX,
        marked.len() == g.len() + 1,
        way_out(g, path, b),
        p matches Some(x) ==> !path.contains(x as int),
        marked[g.len() as int] || p == Some(g.len() as u32),
        forall|x: int|
            0 <= x < g.len() && p != Some(x as u32) && #[trigger] steps_to(g, marked, x)
                ==> marked[x],
    ensures
        0 <= b <= g.len(),
        marked[b],
    decreases path.len(),
{
    lemma_nodes(g, path, b, 0);
    assert(path[0] == b);
    if path.len() > 1 {
        lemma_suffix(g, path, b, 1);
        lemma_closed(g, marked, p, path.skip(1), path[1]);
        assert(edge(g, path[0], path[1]));
        assert(steps_to(g, marked, b));
        assert(path.contains(b));
    }
}

/// Which nodes have a way out that avoids `p`? Sweeps from the last block to the
/// first until nothing changes.
fn sweep(succs: &Vec<Vec<u32>>, p: Option<u32>) -> (r: Vec<bool>)
    requires
        succs@.len() < u32::MAX,
    ensures
        r@.len() == succs@.len() + 1,
        forall|b: int| 0 <= b < r@.len() ==> #[trigger] r@[b] == open_way(lists(succs@), b, p),
{
    let ghost g = lists(succs@);
    let n = succs.len();
    let mut marked: Vec<bool> = Vec::new();
    let mut i: usize = 0;
    while i < n
        invariant
            i <= n,
            marked@.len() == i,
            forall|j: int| 0 <= j < i ==> !(#[trigger] marked@[j]),
        decreases n - i,
    {
        marked.push(false);
        i += 1;
    }
    let exit_open = match p {
        Some(x) => x as usize != n,
        None => true,
    };
    marked.push(exit_open);
    proof {
        let path = seq![n as int];
        assert(way_out(g, path, n as int));
        if let Some(x) = p {
            if x as int != n {
                assert(!path.contains(x as int)) by {
                    if path.contains(x as int) {
                        let j = choose|j: int| 0 <= j < path.len() && path[j] == x;
                    }
                }
            }
        }
        assert(exit_open ==> open_way(g, n as int, p));
    }
    proof {
        lemma_unmarked_all(marked@, n as int);
    }
    let mut left: usize = n;
    let mut changed = true;
    while changed
        invariant
            n == succs@.len(),
            n < u32::MAX,
            g == lists(succs@),
            marked@.len() == n + 1,
            marked@[n as int] || p == Some(n as u32),
            forall|b: int| 0 <= b <= n && #[trigger] marked@[b] ==> open_way(g, b, p),
            left <= n,
            !changed ==> forall|x: int|
                0 <= x < n && p != Some(x as u32) && #[trigger] steps_to(g, marked@, x)
                    ==> marked@[x],
            unmarked(marked@, n as int) == left,
        decreases left, (if changed {
            1int
        } else {
            0int
        }),
    {
        changed = false;
        let ghost start = marked@;
        let mut b: usize = n;
        while b > 0
            invariant
                b <= n,
                n == succs@.len(),
                n < u32::MAX,
                g == lists(succs@),
                marked@.len() == n + 1,
                marked@[n as int] || p == Some(n as u32),
                forall|x: int| 0 <= x <= n && #[trigger] marked@[x] ==> open_way(g, x, p),
                left <= n,
                unmarked(marked@, n as int) == left,
                !changed ==> marked@ == start && left == unmarked(start, n as int),
                changed ==> left < unmarked(start, n as int),
                !changed ==> forall|x: int|
                    b <= x < n && p != Some(x as u32) && #[trigger] steps_to(g, marked@, x)
                        ==> marked@[x],
            decreases b,
        {
            b -= 1;
            let avoided = match p {
                Some(x) => x as usize == b,
                None => false,
            };
            if !avoided && !marked[b] && leads_on(succs, &marked, b) {
                proof {
                    let c = choose|c: int| #[trigger] edge(g, b as int, c) && marked@[c];
                    lemma_step(g, b as int, c, p);
                    lemma_unmarked_less(marked@, b as int, n as int);
                }
                marked.set(b, true);
                left -= 1;
                changed = true;
            }
        }
    }
    proof {
        assert forall|b: int| 0 <= b < marked@.len() implies #[trigger] marked@[b] == open_way(
            g,
            b,
            p,
        ) by {
            if open_way(g, b, p) {
                let path = match p {
                    Some(x) => choose|path: Seq<int>| #[trigger]
                        way_out(g, path, b) && !path.contains(x as int),
                    None => choose|path: Seq<int>| way_out(g, path, b),
                };
                lemma_closed(g, marked@, p, path, b);
            }
        }
    }
    marked
}

/// How many of the first `n` nodes are not marked.
spec fn unmarked(marked: Seq<bool>, n: int) -> nat
    decreases n,
{
    if n <= 0 {
        0
    } else {
        unmarked(marked, n - 1) + if marked[n - 1] {
            0nat
        } else {
            1nat
        }
    }
}

proof fn lemma_unmarked_less(marked: Seq<bool>, b: int, n: int)
    requires
        0 <= b < n <= marked.len(),
        !marked[b],
    ensures
        unmarked(marked.update(b, true), n) == unmarked(marked, n) - 1,
    decreases n,
{
    if b < n - 1 {
        lemma_unmarked_less(marked, b, n - 1);
    } else {
        lemma_unmarked_same(marked, b, n - 1);
    }
}

proof fn lemma_unmarked_same(marked: Seq<bool>, b: int, n: int)
    requires
        0 <= n <= b < marked.len(),
    ensures
        unmarked(marked.update(b, true), n) == unmarked(marked, n),
    decreases n,
{
    if n > 0 {
        lemma_unmarked_same(marked, b, n - 1);
    }
}

proof fn lemma_unmarked_all(marked: Seq<bool>, n: int)
    requires
        0 <= n <= marked.len(),
        forall|j: int| 0 <= j < n ==> !(#[trigger] marked[j]),
    ensures
        unmarked(marked, n) == n,
    decreases n,
{
    if n > 0 {
        lemma_unmarked_all(marked, n - 1);
    }
}

/// The post-dominators of one body, computed once.
pub struct PostDom {
    succs: Vec<Vec<u32>>,
    /// Which nodes have a way out?
    open: Vec<bool>,
    /// Per node, which nodes have a way out that avoids it?
    around: Vec<Vec<bool>>,
}

impl PostDom {
    /// The graph that was given.
    pub closed spec fn graph(self) -> Seq<Seq<u32>> {
        lists(self.succs@)
    }

    #[verifier::type_invariant]
    spec fn computed(self) -> bool {
        let g = lists(self.succs@);
        let n = g.len() as int;
        &&& n < u32::MAX
        &&& self.open@.len() == n + 1
        &&& self.around@.len() == n + 1
        &&& forall|b: int| 0 <= b <= n ==> #[trigger] self.open@[b] == escapes(g, b)
        &&& forall|p: int| 0 <= p <= n ==> (#[trigger] self.around@[p])@.len() == n + 1
        &&& forall|p: int, b: int|
            0 <= p <= n && 0 <= b <= n ==> #[trigger] self.around@[p]@[b] == bypasses(g, b, p)
    }

    /// The post-dominators of a body.
    pub fn new(body: &Body) -> (r: PostDom)
        requires
            body.blocks@.len() < u32::MAX,
        ensures
            r.graph() == graph_of(*body),
    {
        let n = body.blocks.len();
        let mut succs: Vec<Vec<u32>> = Vec::new();
        let mut b: usize = 0;
        while b < n
            invariant
                b <= n,
                n == body.blocks@.len(),
                n < u32::MAX,
                succs@.len() == b,
                forall|j: int| 0 <= j < b ==> (#[trigger] succs@[j])@ == succ_ids(*body, j),
            decreases n - b,
        {
            succs.push(successors(body, b as u32));
            b += 1;
        }
        proof {
            assert(lists(succs@) =~= graph_of(*body));
        }
        let ghost g = lists(succs@);
        let open = sweep(&succs, None);
        let mut around: Vec<Vec<bool>> = Vec::new();
        let mut p: usize = 0;
        while p <= n
            invariant
                p <= n + 1,
                n == succs@.len(),
                n < u32::MAX,
                g == lists(succs@),
                around@.len() == p,
                forall|q: int| 0 <= q < p ==> (#[trigger] around@[q])@.len() == n + 1,
                forall|q: int, b: int|
                    0 <= q < p && 0 <= b <= n ==> #[trigger] around@[q]@[b] == bypasses(g, b, q),
            decreases n + 1 - p,
        {
            let ghost done = around@;
            let row = sweep(&succs, Some(p as u32));
            let ghost marks = row@;
            around.push(row);
            proof {
                assert forall|q: int, b: int|
                    0 <= q < p + 1 && 0 <= b <= n implies #[trigger] around@[q]@[b] == bypasses(
                    g,
                    b,
                    q,
                ) by {
                    if q < p {
                        assert(around@[q] == done[q]);
                        assert(done[q]@[b] == bypasses(g, b, q));
                    } else {
                        assert(marks[b] == open_way(g, b, Some(p as u32)));
                    }
                }
            }
            p += 1;
        }
        proof {
            assert forall|b: int| 0 <= b <= n implies #[trigger] open@[b] == escapes(g, b) by {
                assert(open@[b] == open_way(g, b, None::<u32>));
            }
        }
        PostDom { succs, open, around }
    }

    /// Is there a way from `b` out of the body?
    fn has_way_out(&self, b: u32) -> (r: bool)
        ensures
            r == escapes(self.graph(), b as int),
    {
        proof {
            use_type_invariant(self);
            let g = self.graph();
            if b > g.len() && escapes(g, b as int) {
                let path = choose|path: Seq<int>| way_out(g, path, b as int);
                lemma_nodes(g, path, b as int, 0);
            }
        }
        (b as usize) < self.open.len() && self.open[b as usize]
    }

    /// Does `p` post-dominate `b`?
    pub fn post_dominates(&self, p: u32, b: u32) -> (r: bool)
        ensures
            r == post_dom(self.graph(), p as int, b as int),
    {
        if p == b {
            return true;
        }
        if !self.has_way_out(b) {
            return false;
        }
        proof {
            use_type_invariant(self);
            let g = self.graph();
            let path = choose|path: Seq<int>| way_out(g, path, b as int);
            lemma_nodes(g, path, b as int, 0);
            if p > g.len() {
                assert(!path.contains(p as int)) by {
                    if path.contains(p as int) {
                        let i = choose|i: int| 0 <= i < path.len() && path[i] == p;
                        lemma_nodes(g, path, b as int, i);
                    }
                }
                assert(bypasses(g, b as int, p as int));
            }
        }
        if (p as usize) >= self.around.len() {
            return false;
        }
        proof {
            assert(self.around@[p as int]@[b as int] == bypasses(
                self.graph(),
                b as int,
                p as int,
            ));
        }
        !self.around[p as usize][b as usize]
    }

    /// The nearest post-dominator of `b`, or `None` when that is outside the body
    /// or there is no way out of `b`.
    pub fn ipdom(&self, b: u32) -> (r: Option<u32>)
        ensures
            is_ipdom(self.graph(), b as int, r),
    {
        proof {
            use_type_invariant(self);
        }
        let ghost g = self.graph();
        let n = self.succs.len();
        if !self.has_way_out(b) || b as usize == n {
            return None;
        }
        let mut p: usize = 0;
        while p < n
            invariant
                p <= n,
                n == g.len(),
                n < u32::MAX,
                g == self.graph(),
                forall|x: int| 0 <= x < p ==> !#[trigger] nearest(g, b as int, x),
            decreases n - p,
        {
            if self.is_nearest(b, p as u32) {
                return Some(p as u32);
            }
            p += 1;
        }
        proof {
            law_nearest_exists(g, b as int);
            let x = choose|x: int| nearest(g, b as int, x);
            assert(x == n);
        }
        None
    }

    /// Is `p` the nearest post-dominator of `b`?
    fn is_nearest(&self, b: u32, p: u32) -> (r: bool)
        requires
            p <= self.graph().len(),
        ensures
            r == nearest(self.graph(), b as int, p as int),
    {
        if p == b || !self.post_dominates(p, b) {
            return false;
        }
        proof {
            use_type_invariant(self);
        }
        let ghost g = self.graph();
        let n = self.succs.len();
        let mut q: usize = 0;
        while q <= n
            invariant
                q <= n + 1,
                n == g.len(),
                n < u32::MAX,
                g == self.graph(),
                forall|x: int|
                    0 <= x < q && x != b && #[trigger] post_dom(g, x, b as int) ==> post_dom(
                        g,
                        x,
                        p as int,
                    ),
            decreases n + 1 - q,
        {
            if q as u32 != b && self.post_dominates(q as u32, b) && !self.post_dominates(
                q as u32,
                p,
            ) {
                return false;
            }
            q += 1;
        }
        true
    }

    /// Is `m` the nearest common post-dominator of `a` and `b`?
    fn is_meeting(&self, a: u32, b: u32, m: u32) -> (r: bool)
        requires
            m <= self.graph().len(),
        ensures
            r == meets_at(self.graph(), a as int, b as int, m as int),
    {
        if !self.post_dominates(m, a) || !self.post_dominates(m, b) {
            return false;
        }
        proof {
            use_type_invariant(self);
        }
        let ghost g = self.graph();
        let n = self.succs.len();
        let mut q: usize = 0;
        while q <= n
            invariant
                q <= n + 1,
                n == g.len(),
                n < u32::MAX,
                g == self.graph(),
                forall|x: int|
                    0 <= x < q && #[trigger] post_dom(g, x, a as int) && post_dom(g, x, b as int)
                        ==> post_dom(g, x, m as int),
            decreases n + 1 - q,
        {
            if self.post_dominates(q as u32, a) && self.post_dominates(q as u32, b)
                && !self.post_dominates(q as u32, m) {
                return false;
            }
            q += 1;
        }
        true
    }

    /// Where two nodes meet.
    fn intersect(&self, a: u32, b: u32) -> (r: u32)
        ensures
            r == meet(self.graph(), a as int, b as int),
    {
        if a == b || !self.has_way_out(a) || !self.has_way_out(b) {
            return a;
        }
        proof {
            use_type_invariant(self);
        }
        let ghost g = self.graph();
        let n = self.succs.len();
        proof {
            law_meeting_point_exists(g, a as int, b as int);
        }
        let mut m: usize = 0;
        while m < n
            invariant
                m <= n,
                n == g.len(),
                n < u32::MAX,
                g == self.graph(),
                a != b,
                escapes(g, a as int),
                escapes(g, b as int),
                exists|x: int| #[trigger] meets_at(g, a as int, b as int, x),
                forall|x: int, y: int| #[trigger]
                    meets_at(g, a as int, b as int, x) && #[trigger] meets_at(
                        g,
                        a as int,
                        b as int,
                        y,
                    ) ==> x == y,
                forall|x: int| 0 <= x < m ==> !#[trigger] meets_at(g, a as int, b as int, x),
            decreases n - m,
        {
            if self.is_meeting(a, b, m as u32) {
                return m as u32;
            }
            m += 1;
        }
        n as u32
    }

    /// The nearest block that post-dominates all of `targets`: the join point of a
    /// branch or switch. `None` when the arms do not meet inside the body, or
    /// when one target post-dominates another: then the arms are not independent.
    pub fn common(&self, targets: &[u32]) -> (r: Option<u32>)
        ensures
            r == join_point(self.graph(), targets@),
            r matches Some(j) ==> forall|i: int|
                0 <= i < targets@.len() ==> post_dom(
                    self.graph(),
                    j as int,
                    #[trigger] targets@[i] as int,
                ),
            r matches Some(j) ==> forall|q: int|
                0 <= q <= self.graph().len() && #[trigger] common_post_dom(self.graph(), targets@, q)
                    ==> post_dom(self.graph(), q, j as int),
    {
        proof {
            use_type_invariant(self);
        }
        let ghost g = self.graph();
        let k = targets.len();
        if k == 0 {
            return None;
        }
        let mut i: usize = 0;
        while i < k
            invariant
                i <= k,
                k == targets@.len(),
                g == self.graph(),
                forall|j: int| 0 <= j < i ==> escapes(g, #[trigger] targets@[j] as int),
            decreases k - i,
        {
            if !self.has_way_out(targets[i]) {
                proof {
                    assert(!escapes(g, targets@[i as int] as int));
                }
                return None;
            }
            i += 1;
        }
        let mut i: usize = 0;
        while i < k
            invariant
                i <= k,
                k == targets@.len(),
                k > 0,
                g == self.graph(),
                forall|x: int, y: int|
                    0 <= x < i && 0 <= y < k && x != y ==> !#[trigger] post_dom(
                        g,
                        targets@[x] as int,
                        targets@[y] as int,
                    ),
            decreases k - i,
        {
            let mut j: usize = 0;
            while j < k
                invariant
                    j <= k,
                    i < k,
                    k == targets@.len(),
                    g == self.graph(),
                    forall|y: int|
                        0 <= y < j && i != y ==> !#[trigger] post_dom(
                            g,
                            targets@[i as int] as int,
                            targets@[y] as int,
                        ),
                decreases k - j,
            {
                if i != j && self.post_dominates(targets[i], targets[j]) {
                    proof {
                        assert(dependent(g, targets@));
                    }
                    return None;
                }
                j += 1;
            }
            i += 1;
        }
        let n = self.succs.len();
        let mut acc = targets[0];
        let mut i: usize = 1;
        while i < k && acc as usize != n
            invariant
                1 <= i <= k,
                k == targets@.len(),
                n == g.len(),
                n < u32::MAX,
                g == self.graph(),
                acc == meet_all(g, targets@, i as nat),
            decreases k - i,
        {
            acc = self.intersect(acc, targets[i]);
            i += 1;
        }
        proof {
            assert(!dependent(g, targets@));
            if acc == n {
                lemma_stays_out(g, targets@, i as nat, k as nat);
            }
        }
        if acc as usize == n {
            return None;
        }
        let mut i: usize = 0;
        while i < k
            invariant
                i <= k,
                k == targets@.len(),
                g == self.graph(),
                acc == meet_all(g, targets@, k as nat),
                forall|j: int| 0 <= j < i ==> #[trigger] targets@[j] != acc,
            decreases k - i,
        {
            if targets[i] == acc {
                proof {
                    assert(targets@[i as int] == acc);
                    assert(targets@.contains(acc));
                }
                return None;
            }
            i += 1;
        }
        proof {
            lemma_meet_all(g, targets@, k as nat);
        }
        Some(acc)
    }
}

/// What meets outside the body stays there.
proof fn lemma_stays_out(g: Seq<Seq<u32>>, targets: Seq<u32>, i: nat, k: nat)
    requires
        1 <= i <= k,
        meet_all(g, targets, i) == g.len(),
    ensures
        meet_all(g, targets, k) == g.len(),
    decreases k,
{
    if i < k {
        lemma_stays_out(g, targets, i, (k - 1) as nat);
    }
}

/// A join point post-dominates every target.
pub proof fn law_join_point_is_reached(g: Seq<Seq<u32>>, targets: Seq<u32>, i: int)
    requires
        g.len() <= u32::MAX,
        0 <= i < targets.len(),
        join_point(g, targets) is Some,
    ensures
        post_dom(g, (join_point(g, targets)->0) as int, targets[i] as int),
{
    lemma_meet_all(g, targets, targets.len());
}

/// No way from `b` out of the body avoids `s`.
pub open spec fn caught(g: Seq<Seq<u32>>, s: int, b: int) -> bool {
    b == s || !bypasses(g, b, s)
}

/// Control that is caught stays so until it is there.
pub proof fn lemma_caught_step(g: Seq<Seq<u32>>, s: int, b: int, t: int)
    requires
        caught(g, s, b),
        b != s,
        edge(g, b, t),
    ensures
        caught(g, s, t),
{
    if t != s && bypasses(g, t, s) {
        let path = choose|path: Seq<int>| #[trigger] way_out(g, path, t) && !path.contains(s);
        let whole = seq![b] + path;
        assert forall|i: int| 0 <= i < whole.len() - 1 implies edge(g, #[trigger] whole[i], whole[i + 1]) by {
            if i > 0 {
                assert(edge(g, path[i - 1], path[i - 1 + 1]));
            }
        }
        assert(whole.last() == path.last());
        assert(way_out(g, whole, b));
        if whole.contains(s) {
            let i = choose|i: int| 0 <= i < whole.len() && whole[i] == s;
            assert(path[i - 1] == s);
        }
        assert(bypasses(g, b, s));
    }
}

/// Where control is caught by `s`, the join point of a branch comes before `s`, and
/// is not passed again after it.
pub proof fn lemma_join_comes_first(g: Seq<Seq<u32>>, targets: Seq<u32>, s: int)
    requires
        g.len() <= u32::MAX,
        join_point(g, targets) is Some,
        0 <= s <= g.len(),
        forall|i: int| 0 <= i < targets.len() ==> caught(g, s, #[trigger] targets[i] as int),
    ensures
        caught(g, s, (join_point(g, targets)->0) as int),
        s == (join_point(g, targets)->0) as int || !caught(g, (join_point(g, targets)->0) as int, s),
{
    let j = (join_point(g, targets)->0) as int;
    assert forall|i: int| 0 <= i < targets.len() implies post_dom(g, s, #[trigger] targets[i] as int) by {
        assert(escapes(g, targets[i] as int));
    }
    assert(common_post_dom(g, targets, s));
    law_join_point_is_nearest(g, targets, s);
    if s != j && caught(g, j, s) {
        let t = targets[0] as int;
        assert(escapes(g, targets[0] as int));
        assert(caught(g, s, targets[0] as int));
        let path = choose|path: Seq<int>| way_out(g, path, t);
        if t == s {
            assert(path[0] == s);
        } else {
            assert(path.contains(s));
        }
        let i = choose|i: int| 0 <= i < path.len() && path[i] == s;
        lemma_suffix(g, path, t, i);
        assert(escapes(g, s));
        law_post_dom_antisymmetric(g, s, j);
    }
}

/// Does the node post-dominate all of the targets?
pub open spec fn common_post_dom(g: Seq<Seq<u32>>, targets: Seq<u32>, q: int) -> bool {
    forall|i: int| 0 <= i < targets.len() ==> post_dom(g, q, #[trigger] targets[i] as int)
}

/// A join point is the nearest of the common post-dominators of the targets: all
/// others post-dominate it.
pub proof fn law_join_point_is_nearest(g: Seq<Seq<u32>>, targets: Seq<u32>, q: int)
    requires
        g.len() <= u32::MAX,
        join_point(g, targets) is Some,
        0 <= q <= g.len(),
        common_post_dom(g, targets, q),
    ensures
        post_dom(g, q, (join_point(g, targets)->0) as int),
{
    lemma_meet_all(g, targets, targets.len());
}

/// Whether there is a join point does not depend on the order of the targets, nor
/// does the join point.
pub proof fn law_join_point_has_no_order(g: Seq<Seq<u32>>, a: Seq<u32>, b: Seq<u32>, j: u32)
    requires
        g.len() < u32::MAX,
        join_point(g, a) == Some(j),
        a.len() == b.len(),
        exists|f: spec_fn(int) -> int| #[trigger] reorders(f, a, b),
    ensures
        join_point(g, b) == Some(j),
{
    let f = choose|f: spec_fn(int) -> int| #[trigger] reorders(f, a, b);
    assert(reorders(f, a, b));
    assert forall|i: int| 0 <= i < b.len() implies escapes(g, #[trigger] b[i] as int) by {
        assert(b[i] == a[f(i)]);
        assert(escapes(g, a[f(i)] as int));
    }
    if dependent(g, b) {
        let (x, y) = choose|x: int, y: int|
            0 <= x < b.len() && 0 <= y < b.len() && x != y && #[trigger] post_dom(
                g,
                b[x] as int,
                b[y] as int,
            );
        assert(b[x] == a[f(x)] && b[y] == a[f(y)]);
        assert(f(x) != f(y));
        assert(post_dom(g, a[f(x)] as int, a[f(y)] as int));
        assert(dependent(g, a));
    }
    let n = a.len();
    lemma_meet_all(g, a, n);
    lemma_meet_all(g, b, n);
    let m = meet_all(g, a, n);
    let k = meet_all(g, b, n);
    assert(common_post_dom(g, a, m));
    assert(common_post_dom(g, b, k));
    assert forall|i: int| 0 <= i < b.len() implies post_dom(g, m, #[trigger] b[i] as int) by {
        assert(b[i] == a[f(i)]);
        assert(post_dom(g, m, a[f(i)] as int));
    }
    assert(common_post_dom(g, b, m));
    assert forall|i: int| 0 <= i < a.len() implies post_dom(g, k, #[trigger] a[i] as int) by {
        assert(hit(f, b.len(), i));
        let x = choose|x: int| 0 <= x < b.len() && #[trigger] f(x) == i;
        assert(b[x] == a[f(x)]);
        assert(post_dom(g, k, b[x] as int));
    }
    assert(common_post_dom(g, a, k));
    law_post_dom_antisymmetric(g, m, k);
    if b.contains(m as u32) {
        let i = choose|i: int| 0 <= i < b.len() && b[i] == m as u32;
        assert(b[i] == a[f(i)]);
        assert(a.contains(m as u32));
    }
}

/// `b` lists what `a` does in another order: `f` says where in `a` each is.
pub open spec fn reorders(f: spec_fn(int) -> int, a: Seq<u32>, b: Seq<u32>) -> bool {
    &&& forall|i: int| 0 <= i < b.len() ==> 0 <= #[trigger] f(i) < a.len() && b[i] == a[f(i)]
    &&& forall|i: int, j: int|
        0 <= i < b.len() && 0 <= j < b.len() && #[trigger] f(i) == #[trigger] f(j) ==> i == j
    &&& forall|i: int| 0 <= i < a.len() ==> #[trigger] hit(f, b.len(), i)
}

/// One of the first `n` is at `i`.
pub open spec fn hit(f: spec_fn(int) -> int, n: nat, i: int) -> bool {
    exists|x: int| 0 <= x < n && #[trigger] f(x) == i
}

proof fn lemma_meet_all(g: Seq<Seq<u32>>, targets: Seq<u32>, n: nat)
    requires
        1 <= n <= targets.len(),
        forall|j: int| 0 <= j < targets.len() ==> escapes(g, #[trigger] targets[j] as int),
    ensures
        0 <= meet_all(g, targets, n) <= g.len(),
        escapes(g, meet_all(g, targets, n)),
        forall|j: int|
            0 <= j < n ==> post_dom(g, meet_all(g, targets, n), #[trigger] targets[j] as int),
        forall|q: int|
            0 <= q <= g.len() && #[trigger] common_post_dom(g, targets.take(n as int), q) ==> post_dom(
                g,
                q,
                meet_all(g, targets, n),
            ),
        n == targets.len() ==> forall|q: int|
            0 <= q <= g.len() && #[trigger] common_post_dom(g, targets, q) ==> post_dom(
                g,
                q,
                meet_all(g, targets, n),
            ),
    decreases n,
{
    if n == targets.len() {
        assert(targets.take(n as int) =~= targets);
    }
    assert forall|q: int|
        0 <= q <= g.len() && #[trigger] common_post_dom(g, targets.take(n as int), q)
        implies post_dom(g, q, targets[n - 1] as int) && (n > 1 ==> common_post_dom(
        g,
        targets.take(n - 1),
        q,
    )) by {
        let t = targets.take(n as int);
        assert(t[n - 1] == targets[n - 1]);
        if n > 1 {
            let s = targets.take(n - 1);
            assert forall|i: int| 0 <= i < s.len() implies post_dom(g, q, #[trigger] s[i] as int) by {
                assert(s[i] == t[i]);
            }
        }
    }
    let m = meet_all(g, targets, n);
    if n == 1 {
        let path = choose|path: Seq<int>| way_out(g, path, targets[0] as int);
        assert(escapes(g, targets[0] as int));
        lemma_nodes(g, path, targets[0] as int, 0);
    } else {
        lemma_meet_all(g, targets, (n - 1) as nat);
        let before = meet_all(g, targets, (n - 1) as nat);
        let last = targets[n - 1] as int;
        assert(escapes(g, last));
        if before == g.len() {
            lemma_exit(g, last);
        } else if before != last {
            law_meeting_point_exists(g, before, last);
            assert(meets_at(g, before, last, m));
            lemma_through(g, m, last);
            assert forall|j: int| 0 <= j < n implies post_dom(g, m, #[trigger] targets[j] as int) by {
                if j < n - 1 {
                    law_post_dom_transitive(g, m, before, targets[j] as int);
                }
            }
        }
    }
}

/// A join point of blocks is a block.
pub proof fn lemma_join_in_range(g: Seq<Seq<u32>>, targets: Seq<u32>)
    requires
        g.len() < u32::MAX,
        forall|j: int| 0 <= j < targets.len() ==> (#[trigger] targets[j]) < g.len(),
    ensures
        join_point(g, targets) matches Some(j) ==> j < g.len(),
{
    if targets.len() > 0 {
        lemma_meet_in_range(g, targets, targets.len());
    }
}

proof fn lemma_meet_in_range(g: Seq<Seq<u32>>, targets: Seq<u32>, n: nat)
    requires
        1 <= n <= targets.len(),
        forall|j: int| 0 <= j < targets.len() ==> (#[trigger] targets[j]) < g.len(),
    ensures
        0 <= meet_all(g, targets, n) <= g.len(),
    decreases n,
{
    assert(targets[0] < g.len());
    if n > 1 {
        lemma_meet_in_range(g, targets, (n - 1) as nat);
        let before = meet_all(g, targets, (n - 1) as nat);
        let last = targets[n - 1] as int;
        if escapes(g, before) && escapes(g, last) {
            law_meeting_point_exists(g, before, last);
        }
    }
}

/// The numbers are a permutation of those of `n` blocks.
pub open spec fn permutes(p: Seq<u32>, n: nat) -> bool {
    &&& p.len() == n
    &&& forall|i: int| 0 <= i < n ==> #[trigger] p[i] < n
    &&& forall|i: int, j: int| 0 <= i < j < n ==> #[trigger] p[i] != #[trigger] p[j]
}

/// The new number of a block. The exit keeps its own.
pub open spec fn renamed(p: Seq<u32>, b: int) -> int {
    if 0 <= b < p.len() {
        p[b] as int
    } else {
        b
    }
}

/// `h` is the graph `g` with its blocks renumbered: block `b` is block `p[b]` in it, and
/// leads to the same blocks under their new numbers.
pub open spec fn renumbers(g: Seq<Seq<u32>>, h: Seq<Seq<u32>>, p: Seq<u32>) -> bool {
    &&& h.len() == g.len()
    &&& permutes(p, g.len())
    &&& forall|b: int, j: int|
        0 <= b < g.len() && 0 <= j < g[b].len() ==> #[trigger] g[b][j] < g.len()
    &&& forall|b: int|
        0 <= b < g.len() ==> #[trigger] h[p[b] as int] == g[b].map_values(|t: u32| p[t as int])
}

/// The old numbers of the blocks.
spec fn undone(p: Seq<u32>) -> Seq<u32> {
    Seq::new(p.len(), |i: int| (choose|j: int| 0 <= j < p.len() && #[trigger] p[j] == i) as u32)
}

/// Every number is the new number of a block.
proof fn lemma_hit_all(p: Seq<u32>, n: nat, i: int)
    requires
        permutes(p, n),
        0 <= i < n,
    ensures
        exists|j: int| 0 <= j < n && #[trigger] p[j] == i,
{
    let s = p.map_values(|x: u32| x as int);
    assert forall|a: int, b: int| 0 <= a < s.len() && 0 <= b < s.len() && a != b implies s[a] != s[b] by {
        if a < b {
            assert(p[a] != p[b]);
        } else {
            assert(p[b] != p[a]);
        }
    }
    assert(s.no_duplicates());
    s.unique_seq_to_set();
    let all = vstd::set_lib::set_int_range(0, n as int);
    vstd::set_lib::lemma_int_range(0, n as int);
    assert(s.to_set().subset_of(all)) by {
        assert forall|x: int| s.to_set().contains(x) implies all.contains(x) by {
            let a = choose|a: int| 0 <= a < s.len() && s[a] == x;
            assert(s[a] == p[a]);
        }
    }
    vstd::seq_lib::seq_to_set_is_finite(s);
    vstd::set_lib::lemma_subset_equality(s.to_set(), all);
    assert(all.contains(i));
    assert(s.to_set().contains(i));
    let a = choose|a: int| 0 <= a < s.len() && s[a] == i;
    assert(p[a] == i);
}

proof fn lemma_undone(p: Seq<u32>, n: nat)
    requires
        permutes(p, n),
        n <= u32::MAX,
    ensures
        permutes(undone(p), n),
        forall|i: int| 0 <= i < n ==> #[trigger] p[undone(p)[i] as int] == i,
        forall|i: int| 0 <= i < n ==> undone(p)[#[trigger] p[i] as int] == i,
{
    let q = undone(p);
    assert forall|i: int| 0 <= i < n implies 0 <= #[trigger] q[i] < n && p[q[i] as int] == i by {
        lemma_hit_all(p, n, i);
        let j = choose|j: int| 0 <= j < p.len() && #[trigger] p[j] == i;
        assert(q[i] == j as u32);
    }
    assert forall|i: int, j: int| 0 <= i < j < n implies #[trigger] q[i] != #[trigger] q[j] by {
        assert(p[q[i] as int] == i && p[q[j] as int] == j);
    }
    assert forall|i: int| 0 <= i < n implies #[trigger] p[q[i] as int] == i by {
        assert(q[i] < n);
    }
    assert forall|i: int| 0 <= i < n implies q[#[trigger] p[i] as int] == i by {
        let x = p[i] as int;
        let j = q[x] as int;
        assert(q[x] < n && p[j] == x);
        if j < i {
            assert(p[j] != p[i]);
        } else if i < j {
            assert(p[i] != p[j]);
        }
    }
}

/// The other way round, the blocks get their old numbers back.
proof fn lemma_renumbers_back(g: Seq<Seq<u32>>, h: Seq<Seq<u32>>, p: Seq<u32>)
    requires
        renumbers(g, h, p),
        g.len() <= u32::MAX,
    ensures
        renumbers(h, g, undone(p)),
        forall|b: int| 0 <= b <= g.len() ==> #[trigger] renamed(undone(p), renamed(p, b)) == b,
        forall|b: int| 0 <= b <= g.len() ==> #[trigger] renamed(p, renamed(undone(p), b)) == b,
{
    let q = undone(p);
    let n = g.len();
    lemma_undone(p, n);
    assert forall|b: int, j: int| 0 <= b < n && 0 <= j < h[b].len() implies #[trigger] h[b][j] < n by {
        let a = q[b] as int;
        assert(q[b] < n);
        assert(p[a] == b);
        assert(h[p[a] as int] == g[a].map_values(|t: u32| p[t as int]));
        assert(g[a][j] < n);
        assert(h[b][j] == p[g[a][j] as int]);
    }
    assert forall|b: int| 0 <= b < n implies #[trigger] g[q[b] as int] == h[b].map_values(
        |t: u32| q[t as int],
    ) by {
        let a = q[b] as int;
        assert(q[b] < n);
        assert(p[a] == b);
        assert(h[p[a] as int] == g[a].map_values(|t: u32| p[t as int]));
        let back = h[b].map_values(|t: u32| q[t as int]);
        assert forall|j: int| 0 <= j < g[a].len() implies g[a][j] == back[j] by {
            assert(g[a][j] < n);
            assert(h[b][j] == p[g[a][j] as int]);
            assert(q[p[g[a][j] as int] as int] == g[a][j]);
        }
        assert(g[a] =~= back);
    }
    assert forall|b: int| 0 <= b <= n implies #[trigger] renamed(q, renamed(p, b)) == b by {
        if b < n {
            assert(p[b] < n);
            assert(q[p[b] as int] == b);
        }
    }
    assert forall|b: int| 0 <= b <= n implies #[trigger] renamed(p, renamed(q, b)) == b by {
        if b < n {
            assert(q[b] < n);
            assert(p[q[b] as int] == b);
        }
    }
}

proof fn lemma_edge_renamed(g: Seq<Seq<u32>>, h: Seq<Seq<u32>>, p: Seq<u32>, a: int, b: int)
    requires
        renumbers(g, h, p),
        g.len() <= u32::MAX,
        edge(g, a, b),
    ensures
        edge(h, renamed(p, a), renamed(p, b)),
{
    assert(h[p[a] as int] == g[a].map_values(|t: u32| p[t as int]));
    assert(p[a] < g.len());
    if g[a].len() > 0 {
        let j = choose|j: int| 0 <= j < g[a].len() && g[a][j] == b as u32;
        assert(h[p[a] as int][j] == p[b]);
        assert(p[b] < g.len());
    }
}

proof fn lemma_way_renamed(g: Seq<Seq<u32>>, h: Seq<Seq<u32>>, p: Seq<u32>, path: Seq<int>, b: int)
    requires
        renumbers(g, h, p),
        g.len() <= u32::MAX,
        way_out(g, path, b),
    ensures
        way_out(h, path.map_values(|x: int| renamed(p, x)), renamed(p, b)),
{
    let r = path.map_values(|x: int| renamed(p, x));
    assert forall|i: int| 0 <= i < r.len() - 1 implies edge(h, #[trigger] r[i], r[i + 1]) by {
        assert(edge(g, path[i], path[i + 1]));
        lemma_edge_renamed(g, h, p, path[i], path[i + 1]);
    }
}

/// What post-dominates a block does so under the new numbers.
proof fn lemma_post_dom_renamed(g: Seq<Seq<u32>>, h: Seq<Seq<u32>>, p: Seq<u32>, q: int, b: int)
    requires
        renumbers(g, h, p),
        g.len() <= u32::MAX,
        0 <= b <= g.len(),
        0 <= q <= g.len(),
    ensures
        escapes(g, b) ==> escapes(h, renamed(p, b)),
        post_dom(g, q, b) ==> post_dom(h, renamed(p, q), renamed(p, b)),
{
    let back = undone(p);
    lemma_renumbers_back(g, h, p);
    if escapes(g, b) {
        let path = choose|path: Seq<int>| way_out(g, path, b);
        lemma_way_renamed(g, h, p, path, b);
    }
    if post_dom(g, q, b) && q != b {
        if bypasses(h, renamed(p, b), renamed(p, q)) {
            let path = choose|path: Seq<int>| #[trigger]
                way_out(h, path, renamed(p, b)) && !path.contains(renamed(p, q));
            lemma_way_renamed(h, g, back, path, renamed(p, b));
            let r = path.map_values(|x: int| renamed(back, x));
            assert(renamed(back, renamed(p, b)) == b);
            assert(renamed(back, renamed(p, q)) == q);
            if r.contains(q) {
                let i = choose|i: int| 0 <= i < r.len() && r[i] == q;
                lemma_nodes(h, path, renamed(p, b), i);
                assert(renamed(p, renamed(back, path[i])) == path[i]);
                assert(path[i] == renamed(p, q));
            }
            assert(bypasses(g, b, q));
        }
    }
}

/// Post-dominance does not depend on how the blocks are numbered, nor on how many there
/// are.
pub proof fn law_post_doms_are_renamed(
    g: Seq<Seq<u32>>,
    h: Seq<Seq<u32>>,
    p: Seq<u32>,
    q: int,
    b: int,
)
    requires
        renumbers(g, h, p),
        g.len() <= u32::MAX,
        0 <= b <= g.len(),
        0 <= q <= g.len(),
    ensures
        escapes(h, renamed(p, b)) == escapes(g, b),
        post_dom(h, renamed(p, q), renamed(p, b)) == post_dom(g, q, b),
        nearest(h, renamed(p, b), renamed(p, q)) == nearest(g, b, q),
{
    let n = g.len() as int;
    let back = undone(p);
    lemma_renumbers_back(g, h, p);
    assert forall|x: int, y: int| 0 <= x <= n && 0 <= y <= n implies #[trigger] post_dom(
        h,
        renamed(p, x),
        renamed(p, y),
    ) == post_dom(g, x, y) && escapes(h, renamed(p, y)) == escapes(g, y) by {
        lemma_post_dom_renamed(g, h, p, x, y);
        let (rx, ry) = (renamed(p, x), renamed(p, y));
        assert(0 <= rx <= n && 0 <= ry <= n) by {
            if x < n {
                assert(p[x] < n);
            }
            if y < n {
                assert(p[y] < n);
            }
        }
        lemma_post_dom_renamed(h, g, back, rx, ry);
        assert(renamed(back, rx) == x);
        assert(renamed(back, ry) == y);
    }
    let (rq, rb) = (renamed(p, q), renamed(p, b));
    assert(post_dom(h, rq, rb) == post_dom(g, q, b));
    assert(renamed(back, rq) == q && renamed(back, rb) == b);
    assert(0 <= rq <= n) by {
        if q < n {
            assert(p[q] < n);
        }
    }
    if nearest(g, b, q) {
        assert forall|x: int| 0 <= x <= h.len() && x != rb && #[trigger] post_dom(h, x, rb) implies post_dom(
            h,
            x,
            rq,
        ) by {
            let y = renamed(back, x);
            assert(renamed(p, y) == x);
            assert(0 <= y <= n) by {
                if x < n {
                    assert(back[x] < n);
                }
            }
            assert(post_dom(h, renamed(p, y), renamed(p, b)) == post_dom(g, y, b));
            assert(post_dom(h, renamed(p, y), renamed(p, q)) == post_dom(g, y, q));
        }
    }
    if nearest(h, rb, rq) {
        assert forall|x: int| 0 <= x <= g.len() && x != b && #[trigger] post_dom(g, x, b) implies post_dom(
            g,
            x,
            q,
        ) by {
            assert(post_dom(h, renamed(p, x), renamed(p, b)) == post_dom(g, x, b));
            assert(post_dom(h, renamed(p, x), renamed(p, q)) == post_dom(g, x, q));
            assert(renamed(back, renamed(p, x)) == x);
            assert(0 <= renamed(p, x) <= n) by {
                if x < n {
                    assert(p[x] < n);
                }
            }
        }
    }
}

/// Renumbering the blocks of a body renames its immediate post-dominators with them.
pub proof fn law_immediate_post_doms_are_renamed(
    body: Body,
    other: Body,
    p: Seq<u32>,
    b: u32,
    r: Option<u32>,
    s: Option<u32>,
)
    requires
        renumbers(graph_of(body), graph_of(other), p),
        body.blocks@.len() <= u32::MAX,
        b < body.blocks@.len(),
        is_ipdom(graph_of(body), b as int, r),
        is_ipdom(graph_of(other), p[b as int] as int, s),
    ensures
        s == match r {
            Some(x) => Some(p[x as int]),
            None => None,
        },
{
    let g = graph_of(body);
    let h = graph_of(other);
    let n = g.len() as int;
    let rb = renamed(p, b as int);
    assert(p[b as int] < n);
    let near: int = match r {
        Some(x) => x as int,
        None => n,
    };
    law_post_doms_are_renamed(g, h, p, near, b as int);
    if escapes(g, b as int) {
        assert(nearest(h, rb, renamed(p, near)));
        law_nearest_exists(h, rb);
        let other_near: int = match s {
            Some(x) => x as int,
            None => n,
        };
        assert(nearest(h, rb, other_near));
        if let Some(x) = r {
            assert(p[x as int] < n);
        }
    }
}

} // verus!
