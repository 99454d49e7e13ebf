//! Terms over the reals, built in a store and named by handles.

use vstd::prelude::*;

verus! {

/// An operation on terms.
#[derive(Clone, Copy, Debug, PartialEq, Eq, Structural)]
pub enum RealOp {
    True,
    False,
    Not,
    And,
    Or,
    Ite,
    Equal,
    Lt,
    Leq,
    Gt,
    Geq,
    Add,
    Sub,
    Mult,
    Division,
    Neg,
    /// The integer as a real.
    ToReal,
    /// The greatest integer that is not above.
    ToInteger,
    Pi,
    Sine,
    Cosine,
    Tangent,
    Arcsine,
    Arccosine,
    Arctangent,
    Exponential,
    Sqrt,
}

/// A term. Floating-point numbers are held as their bit patterns and stand for
/// the real that they denote; symbols are told apart by their numbers.
pub enum Real {
    Number(i64),
    /// One half.
    Half,
    Float(u32),
    Double(u64),
    Symbol(Seq<char>, nat),
    App(RealOp, Seq<Real>),
}

/// A term as it is stored; arguments are named by their positions.
#[derive(Debug)]
pub enum Node {
    Number(i64),
    Half,
    Float(u32),
    Double(u64),
    Symbol(String, usize),
    App(RealOp, Vec<RealTerm>),
}

/// A handle of a term.
#[derive(Clone, Copy, Debug, PartialEq, Eq, Structural)]
pub struct RealTerm(pub usize);

/// The terms that handles stand for.
pub open spec fn trees_of(trees: Seq<Real>, ts: Seq<RealTerm>) -> Seq<Real> {
    ts.map_values(|t: RealTerm| trees[t.0 as int])
}

/// The node stands for the term at position `i`.
pub open spec fn stands(n: Node, trees: Seq<Real>, i: int) -> bool {
    match n {
        Node::Number(k) => trees[i] == Real::Number(k),
        Node::Half => trees[i] == Real::Half,
        Node::Float(b) => trees[i] == Real::Float(b),
        Node::Double(b) => trees[i] == Real::Double(b),
        Node::Symbol(s, k) => trees[i] == Real::Symbol(s@, k as nat),
        Node::App(op, args) => {
            &&& forall|j: int| 0 <= j < args@.len() ==> (#[trigger] args@[j]).0 < i
            &&& trees[i] == Real::App(op, trees_of(trees, args@))
        },
    }
}

/// A store of terms.
pub struct RealTerms {
    pub nodes: Vec<Node>,
    /// The number of symbols.
    pub symbols: usize,
    pub trees: Ghost<Seq<Real>>,
}

impl RealTerms {
    /// Every node stands for its term, and refers to earlier ones only.
    pub open spec fn well_formed(self) -> bool {
        &&& self.trees@.len() == self.nodes@.len()
        &&& self.symbols <= self.nodes@.len()
        &&& forall|i: int|
            0 <= i < self.nodes@.len() ==> stands(#[trigger] self.nodes@[i], self.trees@, i)
    }

    /// Is the handle one of this store?
    pub open spec fn has(self, t: RealTerm) -> bool {
        t.0 < self.nodes@.len()
    }

    pub open spec fn has_all(self, ts: Seq<RealTerm>) -> bool {
        forall|i: int| 0 <= i < ts.len() ==> self.has(#[trigger] ts[i])
    }

    /// The term that a handle stands for.
    pub open spec fn tree(self, t: RealTerm) -> Real {
        self.trees@[t.0 as int]
    }

    pub open spec fn all(self, ts: Seq<RealTerm>) -> Seq<Real> {
        trees_of(self.trees@, ts)
    }

    /// Terms were added; handles still stand for the same terms.
    pub open spec fn extends(self, old: RealTerms) -> bool {
        &&& self.well_formed()
        &&& old.nodes@.len() <= self.nodes@.len()
        &&& forall|i: int|
            0 <= i < old.trees@.len() ==> #[trigger] self.trees@[i] == old.trees@[i]
    }

    /// What handles of the older store stand for is the same in the newer one.
    pub proof fn lemma_kept(self, old: RealTerms, ts: Seq<RealTerm>)
        requires
            old.well_formed(),
            self.extends(old),
            old.has_all(ts),
        ensures
            self.has_all(ts),
            self.all(ts) == old.all(ts),
    {
        assert forall|i: int| 0 <= i < ts.len() implies self.has(#[trigger] ts[i]) by {
            assert(old.has(ts[i]));
        }
        assert(self.all(ts) =~= old.all(ts)) by {
            assert forall|i: int| 0 <= i < ts.len() implies #[trigger] self.all(ts)[i] == old.all(
                ts,
            )[i] by {
                assert(old.has(ts[i]));
            }
        }
    }

    pub fn new() -> (r: Self)
        ensures
            r.well_formed(),
            r.symbols == 0,
            r.nodes@.len() == 0,
    {
        RealTerms { nodes: Vec::new(), symbols: 0, trees: Ghost(Seq::empty()) }
    }

    fn push(&mut self, n: Node, Ghost(t): Ghost<Real>) -> (r: RealTerm)
        requires
            old(self).well_formed(),
            stands(n, old(self).trees@.push(t), old(self).nodes@.len() as int),
        ensures
            final(self).extends(*old(self)),
            final(self).symbols == old(self).symbols,
            final(self).has(r),
            final(self).nodes@.len() == old(self).nodes@.len() + 1,
            final(self).tree(r) == t,
    {
        let i = self.nodes.len();
        self.nodes.push(n);
        proof {
            self.trees = Ghost(self.trees@.push(t));
            let had = old(self).trees@;
            assert forall|k: int| 0 <= k < self.nodes@.len() implies stands(
                #[trigger] self.nodes@[k],
                self.trees@,
                k,
            ) by {
                if k < had.len() {
                    assert(stands(old(self).nodes@[k], had, k));
                    if let Node::App(op, args) = self.nodes@[k] {
                        assert(trees_of(self.trees@, args@) =~= trees_of(had, args@)) by {
                            assert forall|j: int| 0 <= j < args@.len() implies #[trigger] trees_of(
                                self.trees@,
                                args@,
                            )[j] == trees_of(had, args@)[j] by {
                                assert(args@[j].0 < k);
                            }
                        }
                    }
                }
            }
        }
        RealTerm(i)
    }

    /// A number.
    pub fn number(&mut self, n: i64) -> (r: RealTerm)
        requires
            old(self).well_formed(),
        ensures
            final(self).extends(*old(self)),
            final(self).symbols == old(self).symbols,
            final(self).has(r),
            final(self).tree(r) == Real::Number(n),
    {
        self.push(Node::Number(n), Ghost(Real::Number(n)))
    }

    /// One half.
    pub fn half(&mut self) -> (r: RealTerm)
        requires
            old(self).well_formed(),
        ensures
            final(self).extends(*old(self)),
            final(self).symbols == old(self).symbols,
            final(self).has(r),
            final(self).tree(r) == Real::Half,
    {
        self.push(Node::Half, Ghost(Real::Half))
    }

    /// A floating-point number of 32 bits.
    pub fn float(&mut self, bits: u32) -> (r: RealTerm)
        requires
            old(self).well_formed(),
        ensures
            final(self).extends(*old(self)),
            final(self).symbols == old(self).symbols,
            final(self).has(r),
            final(self).tree(r) == Real::Float(bits),
    {
        self.push(Node::Float(bits), Ghost(Real::Float(bits)))
    }

    /// A floating-point number of 64 bits.
    pub fn double(&mut self, bits: u64) -> (r: RealTerm)
        requires
            old(self).well_formed(),
        ensures
            final(self).extends(*old(self)),
            final(self).symbols == old(self).symbols,
            final(self).has(r),
            final(self).tree(r) == Real::Double(bits),
    {
        self.push(Node::Double(bits), Ghost(Real::Double(bits)))
    }

    /// A new symbol.
    pub fn symbol(&mut self, name: &str) -> (r: RealTerm)
        requires
            old(self).well_formed(),
        ensures
            final(self).extends(*old(self)),
            final(self).symbols == old(self).symbols + 1,
            final(self).has(r),
            final(self).tree(r) == Real::Symbol(name@, old(self).symbols as nat),
    {
        let k = self.symbols;
        let r = self.push(Node::Symbol(name.to_string(), k), Ghost(Real::Symbol(name@, k as nat)));
        let n = self.nodes.len();
        assert(k < n);
        self.symbols = k + 1;
        r
    }

    /// An operation on terms.
    pub fn app(&mut self, op: RealOp, args: Vec<RealTerm>) -> (r: RealTerm)
        requires
            old(self).well_formed(),
            old(self).has_all(args@),
        ensures
            final(self).extends(*old(self)),
            final(self).symbols == old(self).symbols,
            final(self).has(r),
            final(self).tree(r) == Real::App(op, old(self).all(args@)),
    {
        let ghost t = Real::App(op, self.all(args@));
        proof {
            assert forall|j: int| 0 <= j < args@.len() implies (#[trigger] args@[j]).0
                < self.nodes@.len() by {
                assert(self.has(args@[j]));
            }
            assert(trees_of(self.trees@.push(t), args@) =~= self.all(args@));
        }
        self.push(Node::App(op, args), Ghost(t))
    }

    /// An operation without arguments.
    pub fn app0(&mut self, op: RealOp) -> (r: RealTerm)
        requires
            old(self).well_formed(),
        ensures
            final(self).extends(*old(self)),
            final(self).symbols == old(self).symbols,
            final(self).has(r),
            final(self).tree(r) == Real::App(op, Seq::empty()),
    {
        let args: Vec<RealTerm> = Vec::new();
        proof {
            assert(self.all(args@) =~= Seq::empty());
        }
        self.app(op, args)
    }

    /// An operation on one term.
    pub fn app1(&mut self, op: RealOp, a: RealTerm) -> (r: RealTerm)
        requires
            old(self).well_formed(),
            old(self).has(a),
        ensures
            final(self).extends(*old(self)),
            final(self).symbols == old(self).symbols,
            final(self).has(r),
            final(self).tree(r) == Real::App(op, seq![old(self).tree(a)]),
    {
        let mut args: Vec<RealTerm> = Vec::new();
        args.push(a);
        proof {
            assert(self.all(args@) =~= seq![self.tree(a)]);
        }
        self.app(op, args)
    }

    /// An operation on two terms.
    pub fn app2(&mut self, op: RealOp, a: RealTerm, b: RealTerm) -> (r: RealTerm)
        requires
            old(self).well_formed(),
            old(self).has(a),
            old(self).has(b),
        ensures
            final(self).extends(*old(self)),
            final(self).symbols == old(self).symbols,
            final(self).has(r),
            final(self).tree(r) == Real::App(op, seq![old(self).tree(a), old(self).tree(b)]),
    {
        let mut args: Vec<RealTerm> = Vec::new();
        args.push(a);
        args.push(b);
        proof {
            assert(self.all(args@) =~= seq![self.tree(a), self.tree(b)]);
        }
        self.app(op, args)
    }

    /// The first term if the condition holds, else the second.
    pub fn ite(&mut self, c: RealTerm, a: RealTerm, b: RealTerm) -> (r: RealTerm)
        requires
            old(self).well_formed(),
            old(self).has(a),
            old(self).has(b),
            old(self).has(c),
        ensures
            final(self).extends(*old(self)),
            final(self).symbols == old(self).symbols,
            final(self).has(r),
            final(self).tree(r) == Real::App(
                RealOp::Ite,
                seq![old(self).tree(c), old(self).tree(a), old(self).tree(b)],
            ),
    {
        let mut args: Vec<RealTerm> = Vec::new();
        args.push(c);
        args.push(a);
        args.push(b);
        proof {
            assert(self.all(args@) =~= seq![self.tree(c), self.tree(a), self.tree(b)]);
        }
        self.app(RealOp::Ite, args)
    }
}

} // verus!
