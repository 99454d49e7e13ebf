//! Solver terms.
//!
//! An encoder builds terms in a [`Terms`] store and refers to them by handle,
//! so that a term used twice is shared and not copied. The store also keeps the
//! formulas asserted so far. A back end replays the store node by node into the
//! solver of its choice.
//!
//! In contracts a handle stands for the tree it denotes, [`Terms::tm`].

use vstd::prelude::*;

verus! {

/// Handle of a term in a [`Terms`] store.
#[derive(Clone, Copy, Debug, PartialEq, Eq, Structural, Hash)]
pub struct Term(pub usize);

impl Term {
    /// Position in the store.
    pub open spec fn pos(self) -> nat {
        self.0 as nat
    }
}

/// Operators of one argument.
#[derive(Clone, Copy, Debug, PartialEq, Eq, Structural)]
pub enum Op1 {
    BvNeg,
    Not,
    /// Prepend this many zero bits.
    ZeroExtend(u32),
    /// Prepend this many copies of the sign bit.
    SignExtend(u32),
    /// Bits `.0` down to `.1`, inclusive.
    Extract(u32, u32),
    /// Array of the given element width holding the argument everywhere.
    ConstArray(u32),
    StrLen,
    IntToBv32,
    Bv32ToInt,
    StrFromCode,
    StrToCode,
    StrFromInt,
}

/// Operators of two arguments.
#[derive(Clone, Copy, Debug, PartialEq, Eq, Structural)]
pub enum Op2 {
    BvAdd,
    BvSub,
    BvMul,
    BvSdiv,
    BvSrem,
    BvUdiv,
    BvUrem,
    BvAnd,
    BvOr,
    BvXor,
    BvShl,
    BvAshr,
    BvLshr,
    BvSlt,
    BvSle,
    BvSgt,
    BvSge,
    BvUlt,
    /// Equality, at any sort.
    Eq,
    And,
    Or,
    Concat,
    Select,
    StrEq,
    StrContains,
    StrPrefixOf,
    StrSuffixOf,
    StrAt,
    StrConcat,
}

/// Operators of three arguments.
#[derive(Clone, Copy, Debug, PartialEq, Eq, Structural)]
pub enum Op3 {
    Ite,
    Store,
    StrSubstr,
    StrIndexOf,
    StrReplaceAll,
}

/// One node of a term store. Arguments come before the node that uses them.
#[derive(Debug)]
pub enum Node {
    /// Bit-vector constant: value (modulo two to the width) and width.
    Bv(i64, u32),
    Bool(bool),
    /// Integer constant.
    Num(i64),
    Text(String),
    FreshBv(String, u32),
    FreshStr(String),
    /// Array from 32-bit indices to elements of the given width.
    FreshArray(String, u32),
    App1(Op1, Term),
    App2(Op2, Term, Term),
    App3(Op3, Term, Term, Term),
}

/// The tree a handle denotes. A fresh symbol is told apart from every other by
/// its position in the store.
#[verifier::ext_equal]
pub enum Tm {
    Bv(int, u32),
    Bool(bool),
    Num(int),
    Text(Seq<char>),
    FreshBv(nat, Seq<char>, u32),
    FreshStr(nat, Seq<char>),
    FreshArray(nat, Seq<char>, u32),
    App1(Op1, Box<Tm>),
    App2(Op2, Box<Tm>, Box<Tm>),
    App3(Op3, Box<Tm>, Box<Tm>, Box<Tm>),
}

pub open spec fn t1(op: Op1, a: Tm) -> Tm {
    Tm::App1(op, Box::new(a))
}

pub open spec fn t2(op: Op2, a: Tm, b: Tm) -> Tm {
    Tm::App2(op, Box::new(a), Box::new(b))
}

pub open spec fn t3(op: Op3, a: Tm, b: Tm, c: Tm) -> Tm {
    Tm::App3(op, Box::new(a), Box::new(b), Box::new(c))
}

/// The 32-bit constant `n`.
pub open spec fn bv32(n: int) -> Tm {
    Tm::Bv(n, 32)
}

pub open spec fn tm_not(a: Tm) -> Tm {
    t1(Op1::Not, a)
}

pub open spec fn tm_and(a: Tm, b: Tm) -> Tm {
    t2(Op2::And, a, b)
}

pub open spec fn tm_or(a: Tm, b: Tm) -> Tm {
    t2(Op2::Or, a, b)
}

pub open spec fn tm_eq(a: Tm, b: Tm) -> Tm {
    t2(Op2::Eq, a, b)
}

pub open spec fn tm_ite(c: Tm, a: Tm, b: Tm) -> Tm {
    t3(Op3::Ite, c, a, b)
}

/// Every argument of the node lies before position `i`.
pub open spec fn node_before(n: Node, i: nat) -> bool {
    match n {
        Node::App1(_, a) => a.0 < i,
        Node::App2(_, a, b) => a.0 < i && b.0 < i,
        Node::App3(_, a, b, c) => a.0 < i && b.0 < i && c.0 < i,
        _ => true,
    }
}

/// The tree at position `i`.
pub open spec fn tree(nodes: Seq<Node>, i: nat) -> Tm
    decreases i,
{
    if node_before(nodes[i as int], i) {
        match nodes[i as int] {
            Node::Bv(n, w) => Tm::Bv(n as int, w),
            Node::Bool(b) => Tm::Bool(b),
            Node::Num(n) => Tm::Num(n as int),
            Node::Text(s) => Tm::Text(s@),
            Node::FreshBv(s, w) => Tm::FreshBv(i, s@, w),
            Node::FreshStr(s) => Tm::FreshStr(i, s@),
            Node::FreshArray(s, w) => Tm::FreshArray(i, s@, w),
            Node::App1(op, a) => t1(op, tree(nodes, a.0 as nat)),
            Node::App2(op, a, b) => t2(op, tree(nodes, a.0 as nat), tree(nodes, b.0 as nat)),
            Node::App3(op, a, b, c) => t3(
                op,
                tree(nodes, a.0 as nat),
                tree(nodes, b.0 as nat),
                tree(nodes, c.0 as nat),
            ),
        }
    } else {
        Tm::Bool(false)
    }
}

proof fn lemma_tree_push(nodes: Seq<Node>, n: Node, i: nat)
    requires
        i < nodes.len(),
    ensures
        tree(nodes.push(n), i) == tree(nodes, i),
    decreases i,
{
    if node_before(nodes[i as int], i) {
        match nodes[i as int] {
            Node::App1(_, a) => {
                lemma_tree_push(nodes, n, a.0 as nat);
            },
            Node::App2(_, a, b) => {
                lemma_tree_push(nodes, n, a.0 as nat);
                lemma_tree_push(nodes, n, b.0 as nat);
            },
            Node::App3(_, a, b, c) => {
                lemma_tree_push(nodes, n, a.0 as nat);
                lemma_tree_push(nodes, n, b.0 as nat);
                lemma_tree_push(nodes, n, c.0 as nat);
            },
            _ => {},
        }
    }
}

/// Every bit-vector symbol of the tree stands below position `n`.
pub open spec fn symbols_below(t: Tm, n: nat) -> bool
    decreases t,
{
    match t {
        Tm::FreshBv(at, _, _) => at < n,
        Tm::App1(_, a) => symbols_below(*a, n),
        Tm::App2(_, a, b) => symbols_below(*a, n) && symbols_below(*b, n),
        Tm::App3(_, a, b, c) => symbols_below(*a, n) && symbols_below(*b, n) && symbols_below(*c, n),
        _ => true,
    }
}

proof fn lemma_tree_symbols(nodes: Seq<Node>, i: nat, n: nat)
    requires
        i < n,
    ensures
        symbols_below(tree(nodes, i), n),
    decreases i,
{
    if node_before(nodes[i as int], i) {
        match nodes[i as int] {
            Node::App1(_, a) => {
                lemma_tree_symbols(nodes, a.0 as nat, n);
            },
            Node::App2(_, a, b) => {
                lemma_tree_symbols(nodes, a.0 as nat, n);
                lemma_tree_symbols(nodes, b.0 as nat, n);
            },
            Node::App3(_, a, b, c) => {
                lemma_tree_symbols(nodes, a.0 as nat, n);
                lemma_tree_symbols(nodes, b.0 as nat, n);
                lemma_tree_symbols(nodes, c.0 as nat, n);
            },
            _ => {},
        }
    }
}

/// A store of shared terms, with the formulas asserted so far.
#[derive(Debug)]
pub struct Terms {
    nodes: Vec<Node>,
    asserted: Vec<Term>,
}

impl Terms {
    /// How many terms have been built.
    pub closed spec fn size(self) -> nat {
        self.nodes@.len()
    }

    /// Is the handle one of this store?
    pub open spec fn has(self, t: Term) -> bool {
        t.0 < self.size()
    }

    /// Is the handle absent, or one of this store?
    pub open spec fn has_opt(self, t: Option<Term>) -> bool {
        t matches Some(x) ==> self.has(x)
    }

    /// The tree a handle denotes.
    pub closed spec fn tm(self, t: Term) -> Tm {
        tree(self.nodes@, t.0 as nat)
    }

    /// The tree an optional handle denotes.
    pub open spec fn tm_opt(self, t: Option<Term>) -> Option<Tm> {
        match t {
            Some(x) => Some(self.tm(x)),
            None => None,
        }
    }

    /// The formulas asserted so far, oldest first.
    pub closed spec fn asserted(self) -> Seq<Term> {
        self.asserted@
    }

    /// Arguments precede their users and asserted handles exist.
    pub closed spec fn well_formed(self) -> bool {
        &&& forall|i: int| 0 <= i < self.nodes@.len() ==> node_before(#[trigger] self.nodes@[i], i as nat)
        &&& forall|i: int| 0 <= i < self.asserted@.len() ==> self.has(#[trigger] self.asserted@[i])
    }

    /// The symbols of a term are terms of its store.
    pub proof fn lemma_symbols(self, t: Term)
        requires
            self.has(t),
        ensures
            symbols_below(self.tm(t), self.size()),
    {
        lemma_tree_symbols(self.nodes@, t.0 as nat, self.size());
    }

    /// Every handle of `old` still denotes the same tree, and nothing asserted
    /// was taken back.
    pub open spec fn grown_from(self, old: Terms) -> bool {
        &&& self.well_formed()
        &&& old.size() <= self.size()
        &&& forall|t: Term| old.has(t) ==> #[trigger] self.tm(t) == old.tm(t)
        &&& old.asserted().len() <= self.asserted().len()
        &&& self.asserted().take(old.asserted().len() as int) == old.asserted()
    }

    /// As [`Terms::grown_from`], with nothing newly asserted.
    pub open spec fn built_from(self, old: Terms) -> bool {
        &&& self.well_formed()
        &&& old.size() <= self.size()
        &&& forall|t: Term| old.has(t) ==> #[trigger] self.tm(t) == old.tm(t)
        &&& self.asserted() == old.asserted()
    }

    /// As [`Terms::grown_from`], where exactly the formulas `facts` were newly
    /// asserted.
    pub open spec fn stated_from(self, old: Terms, facts: Seq<Tm>) -> bool {
        &&& self.grown_from(old)
        &&& self.asserted().len() == old.asserted().len() + facts.len()
        &&& forall|i: int|
            0 <= i < facts.len() ==> self.tm(self.asserted()[old.asserted().len() + i])
                == #[trigger] facts[i]
    }

    /// Building states nothing.
    pub proof fn lemma_built_states(self, old: Terms)
        requires
            self.built_from(old),
        ensures
            self.stated_from(old, Seq::<Tm>::empty()),
    {
        assert(self.asserted().take(old.asserted().len() as int) =~= old.asserted());
    }

    /// Growing twice is growing.
    pub proof fn lemma_grown_trans(self, mid: Terms, old: Terms)
        requires
            self.grown_from(mid),
            mid.grown_from(old),
        ensures
            self.grown_from(old),
    {
        assert forall|t: Term| old.has(t) implies #[trigger] self.tm(t) == old.tm(t) by {
            assert(mid.tm(t) == old.tm(t));
        }
        let n = old.asserted().len() as int;
        assert(self.asserted().take(n) =~= self.asserted().take(mid.asserted().len() as int).take(n));
    }

    /// Building is growing.
    pub proof fn lemma_built_grows(self, old: Terms)
        requires
            self.built_from(old),
        ensures
            self.grown_from(old),
    {
        assert(self.asserted().take(old.asserted().len() as int) =~= old.asserted());
    }

    /// Doing nothing is growing.
    pub proof fn lemma_built_grows_self(self)
        requires
            self.well_formed(),
        ensures
            self.grown_from(self),
            self.built_from(self),
    {
        assert(self.asserted().take(self.asserted().len() as int) =~= self.asserted());
    }

    /// Asserted formulas are terms of the store.
    pub proof fn lemma_asserted_in(self)
        requires
            self.well_formed(),
        ensures
            forall|i: int| 0 <= i < self.asserted().len() ==> self.has(#[trigger] self.asserted()[i]),
    {
    }

    /// Stating, and building after it.
    pub proof fn lemma_state_then_build(self, mid: Terms, old: Terms, facts: Seq<Tm>)
        requires
            mid.stated_from(old, facts),
            self.built_from(mid),
        ensures
            self.stated_from(old, facts),
    {
        assert forall|t: Term| old.has(t) implies #[trigger] self.tm(t) == old.tm(t) by {
            assert(mid.tm(t) == old.tm(t));
        }
        assert forall|i: int| 0 <= i < facts.len() implies self.tm(
            self.asserted()[old.asserted().len() + i],
        ) == #[trigger] facts[i] by {
            assert(mid.has(mid.asserted@[old.asserted().len() + i]));
        }
    }

    /// Building, and stating after it.
    pub proof fn lemma_build_then_state(self, mid: Terms, old: Terms, facts: Seq<Tm>)
        requires
            mid.built_from(old),
            self.stated_from(mid, facts),
        ensures
            self.stated_from(old, facts),
    {
        assert forall|t: Term| old.has(t) implies #[trigger] self.tm(t) == old.tm(t) by {
            assert(mid.tm(t) == old.tm(t));
        }
    }

    /// Stating one formula more.
    pub proof fn lemma_state_more(self, mid: Terms, old: Terms, facts: Seq<Tm>, a: Term)
        requires
            mid.stated_from(old, facts),
            mid.has(a),
            self.grown_from(mid),
            self.asserted() == mid.asserted().push(a),
        ensures
            self.stated_from(old, facts.push(mid.tm(a))),
    {
        assert forall|t: Term| old.has(t) implies #[trigger] self.tm(t) == old.tm(t) by {
            assert(mid.tm(t) == old.tm(t));
        }
        assert(self.asserted().take(old.asserted().len() as int) =~= mid.asserted().take(
            old.asserted().len() as int,
        ));
        let more = facts.push(mid.tm(a));
        assert forall|i: int| 0 <= i < more.len() implies self.tm(
            self.asserted()[old.asserted().len() + i],
        ) == #[trigger] more[i] by {
            if i < facts.len() {
                assert(mid.has(mid.asserted@[old.asserted().len() + i]));
                assert(more[i] == facts[i]);
            }
        }
    }

    /// An empty store.
    pub fn new() -> (r: Terms)
        ensures
            r.well_formed(),
            r.size() == 0,
            r.asserted() == Seq::<Term>::empty(),
    {
        Terms { nodes: Vec::new(), asserted: Vec::new() }
    }

    /// How many terms have been built.
    pub fn len(&self) -> (n: usize)
        ensures
            n == self.size(),
    {
        self.nodes.len()
    }

    /// The node at position `i`.
    pub fn node(&self, i: usize) -> (n: &Node)
        requires
            self.well_formed(),
            i < self.size(),
        ensures
            node_before(*n, i as nat),
            self.tm(Term(i)) == (match *n {
                Node::Bv(n, w) => Tm::Bv(n as int, w),
                Node::Bool(b) => Tm::Bool(b),
                Node::Num(n) => Tm::Num(n as int),
                Node::Text(s) => Tm::Text(s@),
                Node::FreshBv(s, w) => Tm::FreshBv(i as nat, s@, w),
                Node::FreshStr(s) => Tm::FreshStr(i as nat, s@),
                Node::FreshArray(s, w) => Tm::FreshArray(i as nat, s@, w),
                Node::App1(op, a) => t1(op, self.tm(a)),
                Node::App2(op, a, b) => t2(op, self.tm(a), self.tm(b)),
                Node::App3(op, a, b, c) => t3(op, self.tm(a), self.tm(b), self.tm(c)),
            }),
    {
        &self.nodes[i]
    }

    /// The formulas asserted so far.
    pub fn assertions(&self) -> (a: &Vec<Term>)
        ensures
            a@ == self.asserted(),
    {
        &self.asserted
    }

    fn add_node(&mut self, n: Node) -> (t: Term)
        requires
            old(self).well_formed(),
            node_before(n, old(self).size()),
        ensures
            final(self).built_from(*old(self)),
            final(self).size() == old(self).size() + 1,
            t.0 == old(self).size(),
            final(self).nodes@ == old(self).nodes@.push(n),
    {
        let t = Term(self.nodes.len());
        self.nodes.push(n);
        proof {
            assert forall|u: Term| old(self).has(u) implies #[trigger] self.tm(u) == old(self).tm(u) by {
                lemma_tree_push(old(self).nodes@, n, u.0 as nat);
            }
        }
        t
    }

    /// A bit-vector constant.
    pub fn bv_const(&mut self, value: i64, width: u32) -> (t: Term)
        requires
            old(self).well_formed(),
        ensures
            final(self).built_from(*old(self)),
            final(self).has(t),
            final(self).tm(t) == Tm::Bv(value as int, width),
    {
        self.add_node(Node::Bv(value, width))
    }

    /// A truth constant.
    pub fn bool_const(&mut self, b: bool) -> (t: Term)
        requires
            old(self).well_formed(),
        ensures
            final(self).built_from(*old(self)),
            final(self).has(t),
            final(self).tm(t) == Tm::Bool(b),
    {
        self.add_node(Node::Bool(b))
    }

    /// An integer constant.
    pub fn int_number(&mut self, n: i64) -> (t: Term)
        requires
            old(self).well_formed(),
        ensures
            final(self).built_from(*old(self)),
            final(self).has(t),
            final(self).tm(t) == Tm::Num(n as int),
    {
        self.add_node(Node::Num(n))
    }

    /// A string constant.
    pub fn str_const(&mut self, s: &str) -> (t: Term)
        requires
            old(self).well_formed(),
        ensures
            final(self).built_from(*old(self)),
            final(self).has(t),
            final(self).tm(t) == Tm::Text(s@),
    {
        self.add_node(Node::Text(s.to_string()))
    }

    /// A bit-vector symbol that occurs nowhere else.
    pub fn fresh_bv(&mut self, name: &str, width: u32) -> (t: Term)
        requires
            old(self).well_formed(),
        ensures
            final(self).built_from(*old(self)),
            final(self).has(t),
            t.0 == old(self).size(),
            final(self).tm(t) == Tm::FreshBv(old(self).size(), name@, width),
    {
        self.add_node(Node::FreshBv(name.to_string(), width))
    }

    /// A string symbol that occurs nowhere else.
    pub fn fresh_str(&mut self, name: &str) -> (t: Term)
        requires
            old(self).well_formed(),
        ensures
            final(self).built_from(*old(self)),
            final(self).has(t),
            t.0 == old(self).size(),
            final(self).tm(t) == Tm::FreshStr(old(self).size(), name@),
    {
        self.add_node(Node::FreshStr(name.to_string()))
    }

    /// An array symbol that occurs nowhere else.
    pub fn fresh_array(&mut self, name: &str, elem_width: u32) -> (t: Term)
        requires
            old(self).well_formed(),
        ensures
            final(self).built_from(*old(self)),
            final(self).has(t),
            t.0 == old(self).size(),
            final(self).tm(t) == Tm::FreshArray(old(self).size(), name@, elem_width),
    {
        self.add_node(Node::FreshArray(name.to_string(), elem_width))
    }

    /// `op(a)`.
    pub fn app1(&mut self, op: Op1, a: Term) -> (t: Term)
        requires
            old(self).well_formed(),
            old(self).has(a),
        ensures
            final(self).built_from(*old(self)),
            final(self).has(t),
            final(self).tm(t) == t1(op, old(self).tm(a)),
    {
        let t = self.add_node(Node::App1(op, a));
        proof {
            assert(self.tm(a) == old(self).tm(a));
        }
        t
    }

    /// `op(a, b)`.
    pub fn app2(&mut self, op: Op2, a: Term, b: Term) -> (t: Term)
        requires
            old(self).well_formed(),
            old(self).has(a),
            old(self).has(b),
        ensures
            final(self).built_from(*old(self)),
            final(self).has(t),
            final(self).tm(t) == t2(op, old(self).tm(a), old(self).tm(b)),
    {
        let t = self.add_node(Node::App2(op, a, b));
        proof {
            assert(self.tm(a) == old(self).tm(a));
            assert(self.tm(b) == old(self).tm(b));
        }
        t
    }

    /// `op(a, b, c)`.
    pub fn app3(&mut self, op: Op3, a: Term, b: Term, c: Term) -> (t: Term)
        requires
            old(self).well_formed(),
            old(self).has(a),
            old(self).has(b),
            old(self).has(c),
        ensures
            final(self).built_from(*old(self)),
            final(self).has(t),
            final(self).tm(t) == t3(op, old(self).tm(a), old(self).tm(b), old(self).tm(c)),
    {
        let t = self.add_node(Node::App3(op, a, b, c));
        proof {
            assert(self.tm(a) == old(self).tm(a));
            assert(self.tm(b) == old(self).tm(b));
            assert(self.tm(c) == old(self).tm(c));
        }
        t
    }

    /// `if c { a } else { b }`.
    pub fn ite(&mut self, c: Term, a: Term, b: Term) -> (t: Term)
        requires
            old(self).well_formed(),
            old(self).has(a),
            old(self).has(b),
            old(self).has(c),
        ensures
            final(self).built_from(*old(self)),
            final(self).has(t),
            final(self).tm(t) == tm_ite(old(self).tm(c), old(self).tm(a), old(self).tm(b)),
    {
        self.app3(Op3::Ite, c, a, b)
    }

    /// `!a`.
    pub fn not(&mut self, a: Term) -> (t: Term)
        requires
            old(self).well_formed(),
            old(self).has(a),
        ensures
            final(self).built_from(*old(self)),
            final(self).has(t),
            final(self).tm(t) == tm_not(old(self).tm(a)),
    {
        self.app1(Op1::Not, a)
    }

    /// `a == b`.
    pub fn equal(&mut self, a: Term, b: Term) -> (t: Term)
        requires
            old(self).well_formed(),
            old(self).has(a),
            old(self).has(b),
        ensures
            final(self).built_from(*old(self)),
            final(self).has(t),
            final(self).tm(t) == tm_eq(old(self).tm(a), old(self).tm(b)),
    {
        self.app2(Op2::Eq, a, b)
    }

    /// Assert a formula for good.
    pub fn insist(&mut self, a: Term)
        requires
            old(self).well_formed(),
            old(self).has(a),
        ensures
            final(self).grown_from(*old(self)),
            final(self).size() == old(self).size(),
            final(self).asserted() == old(self).asserted().push(a),
    {
        self.asserted.push(a);
        proof {
            assert(self.asserted().take(old(self).asserted().len() as int)
                =~= old(self).asserted());
        }
    }
}

} // verus!
