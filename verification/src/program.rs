//! A whole program: method bodies, the class hierarchy, and how calls and
//! fields resolve.

use vstd::prelude::*;

use crate::ir::{Body, BodyV, FieldKey, FieldKeyV, MethodKey, MethodKeyV};
use crate::text;
use crate::text::same;

verus! {

/// A program.
pub struct Program {
    pub bodies: Vec<Body>,
    pub entry: Option<MethodKey>,
    /// Class and direct superclass.
    pub supers: Vec<(String, String)>,
    /// Class and direct interfaces.
    pub interfaces: Vec<(String, Vec<String>)>,
    /// For a virtual call target, the methods it can dispatch to.
    pub dispatch: Vec<(MethodKey, Vec<MethodKey>)>,
    /// For a field reference, the class that declares the field.
    pub field_owners: Vec<(FieldKey, String)>,
}

/// Position of the body stored last under the key.
pub open spec fn body_index(bodies: Seq<Body>, k: MethodKeyV) -> Option<int>
    decreases bodies.len(),
{
    if bodies.len() == 0 {
        None
    } else if bodies.last().key@ == k {
        Some(bodies.len() - 1)
    } else {
        body_index(bodies.drop_last(), k)
    }
}

/// The views of bodies.
pub open spec fn body_views(v: Seq<Body>) -> Seq<BodyV> {
    v.map_values(|b: Body| b@)
}

/// Position of the last body under the key.
pub open spec fn place_of(v: Seq<BodyV>, k: MethodKeyV) -> Option<int>
    decreases v.len(),
{
    if v.len() == 0 {
        None
    } else if v.last().key == k {
        Some(v.len() - 1)
    } else {
        place_of(v.drop_last(), k)
    }
}

/// With the body, in place of one under the same key.
pub open spec fn placed(v: Seq<BodyV>, b: BodyV) -> Seq<BodyV> {
    match place_of(v, b.key) {
        Some(i) => v.update(i, b),
        None => v.push(b),
    }
}

/// Superclasses by class.
pub open spec fn super_views(v: Seq<(String, String)>) -> Seq<(Seq<char>, Seq<char>)> {
    v.map_values(|p: (String, String)| (p.0@, p.1@))
}

/// Interfaces by class.
pub open spec fn interface_views(v: Seq<(String, Vec<String>)>) -> Seq<(Seq<char>, Seq<Seq<char>>)> {
    v.map_values(|p: (String, Vec<String>)| (p.0@, text::views(p.1@)))
}

/// The first `n` entries without those under the key.
pub open spec fn without<T>(v: Seq<(Seq<char>, T)>, k: Seq<char>, n: nat) -> Seq<(Seq<char>, T)>
    decreases n,
{
    if n == 0 {
        Seq::empty()
    } else if v[n - 1].0 == k {
        without(v, k, (n - 1) as nat)
    } else {
        without(v, k, (n - 1) as nat).push(v[n - 1])
    }
}

/// With the value under the key, in place of earlier ones.
pub open spec fn with_entry<T>(v: Seq<(Seq<char>, T)>, k: Seq<char>, x: T) -> Seq<(Seq<char>, T)> {
    without(v, k, v.len()).push((k, x))
}

/// The views of a list of method keys.
pub open spec fn method_views(keys: Seq<MethodKey>) -> Seq<MethodKeyV> {
    keys.map_values(|m: MethodKey| m@)
}

/// The dispatch targets stored last for the key; none if there is no entry.
pub open spec fn targets_of(
    table: Seq<(MethodKey, Vec<MethodKey>)>,
    k: MethodKeyV,
) -> Seq<MethodKeyV>
    decreases table.len(),
{
    if table.len() == 0 {
        Seq::empty()
    } else if table.last().0@ == k {
        method_views(table.last().1@)
    } else {
        targets_of(table.drop_last(), k)
    }
}

/// The declaring class stored last for the field; its own class if there is no
/// entry.
pub open spec fn owner_of(table: Seq<(FieldKey, String)>, k: FieldKeyV) -> Seq<char>
    decreases table.len(),
{
    if table.len() == 0 {
        k.class
    } else if table.last().0@ == k {
        table.last().1@
    } else {
        owner_of(table.drop_last(), k)
    }
}

/// A chain of classes, each a direct subclass or implementor of the next.
pub open spec fn is_chain(p: Program, path: Seq<Seq<char>>) -> bool {
    &&& path.len() >= 1
    &&& forall|i: int| 0 <= i < path.len() - 1 ==> p.direct(#[trigger] path[i], path[i + 1])
}

proof fn lemma_places(bodies: Seq<Body>, k: MethodKeyV)
    ensures
        place_of(body_views(bodies), k) == body_index(bodies, k),
    decreases bodies.len(),
{
    if bodies.len() > 0 {
        assert(body_views(bodies).drop_last() =~= body_views(bodies.drop_last()));
        lemma_places(bodies.drop_last(), k);
    }
}

proof fn lemma_same_keys(a: Seq<Body>, b: Seq<Body>, k: MethodKeyV)
    requires
        a.len() == b.len(),
        forall|j: int| 0 <= j < a.len() ==> (#[trigger] a[j]).key@ == b[j].key@,
    ensures
        body_index(a, k) == body_index(b, k),
    decreases a.len(),
{
    if a.len() > 0 {
        lemma_same_keys(a.drop_last(), b.drop_last(), k);
    }
}

/// What is stored under a key is found there, and nothing else changes.
pub proof fn law_stored_body_is_found(before: Program, after: Program, b: Body, k: MethodKeyV)
    requires
        after.bodies@ == (match body_index(before.bodies@, b.key@) {
            Some(i) => before.bodies@.update(i, b),
            None => before.bodies@.push(b),
        }),
    ensures
        after.body_of(k) == if k == b.key@ {
            Some(b)
        } else {
            before.body_of(k)
        },
{
    let had = before.bodies@;
    Program::lemma_index_bounds(had, b.key@);
    Program::lemma_index_bounds(had, k);
    match body_index(had, b.key@) {
        Some(i) => {
            lemma_same_keys(had.update(i, b), had, k);
        },
        None => {
            assert(had.push(b).drop_last() =~= had);
        },
    }
}

fn copy_names(names: &Vec<String>) -> (r: Vec<String>)
    ensures
        text::views(r@) == text::views(names@),
{
    let mut r: Vec<String> = Vec::new();
    let mut i: usize = 0;
    while i < names.len()
        invariant
            i <= names@.len(),
            text::views(r@) =~= text::views(names@).take(i as int),
        decreases names@.len() - i,
    {
        let ghost had = text::views(r@);
        r.push(names[i].clone());
        proof {
            assert(text::views(r@) =~= had.push(names@[i as int]@));
            assert(text::views(names@).take(i + 1) =~= had.push(names@[i as int]@));
        }
        i += 1;
    }
    proof {
        assert(text::views(names@).take(i as int) =~= text::views(names@));
    }
    r
}

impl Program {
    /// Every body is well formed.
    pub open spec fn well_formed(self) -> bool {
        forall|i: int| 0 <= i < self.bodies@.len() ==> (#[trigger] self.bodies@[i]).well_formed()
    }

    /// The body stored under the key.
    pub open spec fn body_of(self, k: MethodKeyV) -> Option<Body> {
        match body_index(self.bodies@, k) {
            Some(i) => Some(self.bodies@[i]),
            None => None,
        }
    }

    /// Does some method of the class have a body?
    pub open spec fn has_class(self, class: Seq<char>) -> bool {
        exists|i: int| 0 <= i < self.bodies@.len() && (#[trigger] self.bodies@[i]).key.class@ == class
    }

    /// Is `sup` a direct superclass or interface of `sub`?
    pub open spec fn direct(self, sub: Seq<char>, sup: Seq<char>) -> bool {
        ||| exists|i: int|
            0 <= i < self.supers@.len() && (#[trigger] self.supers@[i]).0@ == sub
                && self.supers@[i].1@ == sup
        ||| exists|i: int, j: int|
            0 <= i < self.interfaces@.len() && 0 <= j < self.interfaces@[i].1@.len()
                && self.interfaces@[i].0@ == sub && (#[trigger] self.interfaces@[i].1@[j])@ == sup
    }

    /// Is `sub` the class `sup` or one of its direct or indirect subtypes?
    pub open spec fn subtype(self, sub: Seq<char>, sup: Seq<char>) -> bool {
        exists|path: Seq<Seq<char>>|
            #[trigger] is_chain(self, path) && path[0] == sub && path.last() == sup
    }

    proof fn lemma_index_bounds(bodies: Seq<Body>, k: MethodKeyV)
        ensures
            body_index(bodies, k) matches Some(i) ==> 0 <= i < bodies.len() && bodies[i].key@ == k,
        decreases bodies.len(),
    {
        if bodies.len() > 0 && bodies.last().key@ != k {
            Self::lemma_index_bounds(bodies.drop_last(), k);
        }
    }

    /// A stored body is one of the program's bodies and carries the key it is
    /// stored under.
    pub proof fn lemma_body_of(self, k: MethodKeyV)
        ensures
            self.body_of(k) matches Some(b) ==> b.key@ == k && self.bodies@.contains(b),
            self.well_formed() && self.body_of(k) is Some ==> self.body_of(k)->0.well_formed(),
    {
        Self::lemma_index_bounds(self.bodies@, k);
        if let Some(i) = body_index(self.bodies@, k) {
            assert(self.bodies@.contains(self.bodies@[i]));
        }
    }

    /// An empty program.
    pub fn new() -> (r: Program)
        ensures
            r.bodies@.len() == 0,
            r.entry is None,
            r.supers@.len() == 0,
            r.interfaces@.len() == 0,
            r.dispatch@.len() == 0,
            r.field_owners@.len() == 0,
    {
        Program {
            bodies: Vec::new(),
            entry: None,
            supers: Vec::new(),
            interfaces: Vec::new(),
            dispatch: Vec::new(),
            field_owners: Vec::new(),
        }
    }

    /// Store a body, in place of one under the same key.
    pub fn put_body(&mut self, b: Body)
        ensures
            final(self).bodies@ == (match body_index(old(self).bodies@, b.key@) {
                Some(i) => old(self).bodies@.update(i, b),
                None => old(self).bodies@.push(b),
            }),
            forall|j: int|
                0 <= j < final(self).bodies@.len() ==> #[trigger] final(self).bodies@[j] == b || (j
                    < old(self).bodies@.len() && final(self).bodies@[j] == old(self).bodies@[j]),
            body_views(final(self).bodies@) == placed(body_views(old(self).bodies@), b@),
            final(self).supers == old(self).supers,
            final(self).interfaces == old(self).interfaces,
            final(self).entry == old(self).entry,
            final(self).dispatch == old(self).dispatch,
            final(self).field_owners == old(self).field_owners,
    {
        let ghost had = self.bodies@;
        let ghost bv = b@;
        proof {
            lemma_places(had, b.key@);
            Self::lemma_index_bounds(had, b.key@);
        }
        let mut i: usize = self.bodies.len();
        proof {
            assert(had.take(i as int) =~= had);
        }
        while i > 0
            invariant
                self.bodies@ == had,
                i <= had.len(),
                *self == *old(self),
                bv == b@,
                place_of(body_views(had), b.key@) == body_index(had, b.key@),
                body_index(had, b.key@) == body_index(had.take(i as int), b.key@),
            decreases i,
        {
            proof {
                assert(had.take(i as int).drop_last() =~= had.take(i - 1));
            }
            if self.bodies[i - 1].key.same_as(&b.key) {
                self.bodies.set(i - 1, b);
                proof {
                    assert(body_views(self.bodies@) =~= body_views(had).update(i - 1, bv));
                }
                return ;
            }
            i -= 1;
        }
        self.bodies.push(b);
        proof {
            assert(body_views(self.bodies@) =~= body_views(had).push(bv));
        }
    }

    /// Record the superclass of a class.
    pub fn set_super(&mut self, class: &str, sup: &str)
        ensures
            super_views(final(self).supers@) == with_entry(
                super_views(old(self).supers@),
                class@,
                sup@,
            ),
            final(self).bodies == old(self).bodies,
            final(self).interfaces == old(self).interfaces,
            final(self).entry == old(self).entry,
            final(self).dispatch == old(self).dispatch,
            final(self).field_owners == old(self).field_owners,
    {
        let mut out: Vec<(String, String)> = Vec::new();
        let ghost all = super_views(self.supers@);
        let mut i: usize = 0;
        proof {
            assert(super_views(out@) =~= Seq::empty());
        }
        while i < self.supers.len()
            invariant
                i <= self.supers@.len(),
                all == super_views(self.supers@),
                super_views(out@) == without(all, class@, i as nat),
            decreases self.supers@.len() - i,
        {
            if !same(self.supers[i].0.as_str(), class) {
                let ghost had = super_views(out@);
                let p = (self.supers[i].0.clone(), self.supers[i].1.clone());
                out.push(p);
                proof {
                    assert(super_views(out@) =~= had.push(all[i as int]));
                }
            }
            i += 1;
        }
        let ghost had = super_views(out@);
        out.push((class.to_string(), sup.to_string()));
        proof {
            assert(super_views(out@) =~= had.push((class@, sup@)));
        }
        self.supers = out;
    }

    /// Record the interfaces of a class.
    pub fn set_interfaces(&mut self, class: &str, interfaces: &Vec<String>)
        ensures
            interface_views(final(self).interfaces@) == with_entry(
                interface_views(old(self).interfaces@),
                class@,
                text::views(interfaces@),
            ),
            final(self).bodies == old(self).bodies,
            final(self).supers == old(self).supers,
            final(self).entry == old(self).entry,
            final(self).dispatch == old(self).dispatch,
            final(self).field_owners == old(self).field_owners,
    {
        let mut out: Vec<(String, Vec<String>)> = Vec::new();
        let ghost all = interface_views(self.interfaces@);
        let mut i: usize = 0;
        proof {
            assert(interface_views(out@) =~= Seq::empty());
        }
        while i < self.interfaces.len()
            invariant
                i <= self.interfaces@.len(),
                all == interface_views(self.interfaces@),
                interface_views(out@) == without(all, class@, i as nat),
            decreases self.interfaces@.len() - i,
        {
            if !same(self.interfaces[i].0.as_str(), class) {
                let ghost had = interface_views(out@);
                let p = (self.interfaces[i].0.clone(), copy_names(&self.interfaces[i].1));
                out.push(p);
                proof {
                    assert(interface_views(out@) =~= had.push(all[i as int]));
                }
            }
            i += 1;
        }
        let ghost had = interface_views(out@);
        out.push((class.to_string(), copy_names(interfaces)));
        proof {
            assert(interface_views(out@) =~= had.push((class@, text::views(interfaces@))));
        }
        self.interfaces = out;
    }

    /// The body stored under the key.
    pub fn body(&self, key: &MethodKey) -> (r: Option<&Body>)
        ensures
            match r {
                Some(b) => self.body_of(key@) == Some(*b) && b.key@ == key@,
                None => self.body_of(key@) is None,
            },
            self.well_formed() ==> (r matches Some(b) ==> b.well_formed()),
    {
        let mut i: usize = self.bodies.len();
        proof {
            assert(self.bodies@.take(i as int) =~= self.bodies@);
        }
        while i > 0
            invariant
                i <= self.bodies.len(),
                body_index(self.bodies@, key@) == body_index(self.bodies@.take(i as int), key@),
            decreases i,
        {
            proof {
                assert(self.bodies@.take(i as int).drop_last() =~= self.bodies@.take(i - 1));
            }
            if self.bodies[i - 1].key.same_as(key) {
                return Some(&self.bodies[i - 1]);
            }
            i -= 1;
        }
        None
    }

    /// Does some method of the class have a body?
    pub fn is_program_class(&self, class: &str) -> (r: bool)
        ensures
            r == self.has_class(class@),
    {
        let mut i: usize = 0;
        while i < self.bodies.len()
            invariant
                i <= self.bodies.len(),
                forall|j: int| 0 <= j < i ==> (#[trigger] self.bodies@[j]).key.class@ != class@,
            decreases self.bodies.len() - i,
        {
            if same(self.bodies[i].key.class.as_str(), class) {
                return true;
            }
            i += 1;
        }
        false
    }

    /// The methods a virtual call of `target` can reach.
    pub fn devirtualise(&self, target: &MethodKey) -> (r: Vec<MethodKey>)
        ensures
            method_views(r@) == targets_of(self.dispatch@, target@),
    {
        let mut i: usize = self.dispatch.len();
        proof {
            assert(self.dispatch@.take(i as int) =~= self.dispatch@);
        }
        while i > 0
            invariant
                i <= self.dispatch.len(),
                targets_of(self.dispatch@, target@) == targets_of(
                    self.dispatch@.take(i as int),
                    target@,
                ),
            decreases i,
        {
            proof {
                assert(self.dispatch@.take(i as int).drop_last() =~= self.dispatch@.take(i - 1));
            }
            if self.dispatch[i - 1].0.same_as(target) {
                let found = &self.dispatch[i - 1].1;
                let mut out: Vec<MethodKey> = Vec::new();
                let mut j: usize = 0;
                while j < found.len()
                    invariant
                        j <= found.len(),
                        out@ == found@.take(j as int),
                    decreases found.len() - j,
                {
                    out.push(found[j].clone());
                    j += 1;
                }
                proof {
                    assert(out@ =~= found@);
                }
                return out;
            }
            i -= 1;
        }
        let out: Vec<MethodKey> = Vec::new();
        proof {
            assert(method_views(out@) =~= Seq::empty());
        }
        out
    }

    /// The class that declares the field.
    pub fn resolve_field_class(&self, field: &FieldKey) -> (r: String)
        ensures
            r@ == owner_of(self.field_owners@, field@),
    {
        let mut i: usize = self.field_owners.len();
        proof {
            assert(self.field_owners@.take(i as int) =~= self.field_owners@);
        }
        while i > 0
            invariant
                i <= self.field_owners.len(),
                owner_of(self.field_owners@, field@) == owner_of(
                    self.field_owners@.take(i as int),
                    field@,
                ),
            decreases i,
        {
            proof {
                assert(self.field_owners@.take(i as int).drop_last() =~= self.field_owners@.take(
                    i - 1,
                ));
            }
            if self.field_owners[i - 1].0.same_as(field) {
                return self.field_owners[i - 1].1.clone();
            }
            i -= 1;
        }
        field.class.clone()
    }

    /// The pairs of class and direct supertype.
    fn direct_pairs(&self) -> (r: Vec<(String, String)>)
        ensures
            forall|i: int| 0 <= i < r@.len() ==> self.direct((#[trigger] r@[i]).0@, r@[i].1@),
            forall|c: Seq<char>, d: Seq<char>| #[trigger] self.direct(c, d) ==> paired(r@, c, d),
    {
        let mut r: Vec<(String, String)> = Vec::new();
        let mut i: usize = 0;
        while i < self.supers.len()
            invariant
                i <= self.supers.len(),
                forall|k: int| 0 <= k < r@.len() ==> self.direct((#[trigger] r@[k]).0@, r@[k].1@),
                forall|k: int|
                    0 <= k < i ==> paired(r@, (#[trigger] self.supers@[k]).0@, self.supers@[k].1@),
            decreases self.supers.len() - i,
        {
            let ghost before = r@;
            r.push((self.supers[i].0.clone(), self.supers[i].1.clone()));
            proof {
                lemma_paired_push(before, r@.last());
                assert(r@ =~= before.push(r@.last()));
                assert(self.supers@[i as int].0@ == r@.last().0@);
            }
            i += 1;
        }
        let mut i: usize = 0;
        while i < self.interfaces.len()
            invariant
                i <= self.interfaces.len(),
                forall|k: int| 0 <= k < r@.len() ==> self.direct((#[trigger] r@[k]).0@, r@[k].1@),
                forall|k: int|
                    0 <= k < self.supers@.len() ==> paired(
                        r@,
                        (#[trigger] self.supers@[k]).0@,
                        self.supers@[k].1@,
                    ),
                forall|a: int, b: int|
                    0 <= a < i && 0 <= b < self.interfaces@[a].1@.len() ==> paired(
                        r@,
                        self.interfaces@[a].0@,
                        (#[trigger] self.interfaces@[a].1@[b])@,
                    ),
            decreases self.interfaces.len() - i,
        {
            let list = &self.interfaces[i].1;
            let mut j: usize = 0;
            while j < list.len()
                invariant
                    i < self.interfaces.len(),
                    *list == self.interfaces@[i as int].1,
                    j <= list.len(),
                    forall|k: int|
                        0 <= k < r@.len() ==> self.direct((#[trigger] r@[k]).0@, r@[k].1@),
                    forall|k: int|
                        0 <= k < self.supers@.len() ==> paired(
                            r@,
                            (#[trigger] self.supers@[k]).0@,
                            self.supers@[k].1@,
                        ),
                    forall|a: int, b: int|
                        0 <= a < i && 0 <= b < self.interfaces@[a].1@.len() ==> paired(
                            r@,
                            self.interfaces@[a].0@,
                            (#[trigger] self.interfaces@[a].1@[b])@,
                        ),
                    forall|b: int|
                        0 <= b < j ==> paired(
                            r@,
                            self.interfaces@[i as int].0@,
                            (#[trigger] self.interfaces@[i as int].1@[b])@,
                        ),
                decreases list.len() - j,
            {
                let ghost before = r@;
                r.push((self.interfaces[i].0.clone(), list[j].clone()));
                proof {
                    lemma_paired_push(before, r@.last());
                    assert(r@ =~= before.push(r@.last()));
                    assert(self.interfaces@[i as int].1@[j as int]@ == r@.last().1@);
                }
                j += 1;
            }
            i += 1;
        }
        proof {
            assert forall|c: Seq<char>, d: Seq<char>| #[trigger] self.direct(c, d) implies paired(
                r@,
                c,
                d,
            ) by {
                if exists|k: int|
                    0 <= k < self.supers@.len() && (#[trigger] self.supers@[k]).0@ == c
                        && self.supers@[k].1@ == d {
                } else {
                    let (a, b) = choose|a: int, b: int|
                        0 <= a < self.interfaces@.len() && 0 <= b < self.interfaces@[a].1@.len()
                            && self.interfaces@[a].0@ == c
                            && (#[trigger] self.interfaces@[a].1@[b])@ == d;
                    assert(self.interfaces@[a].1@[b]@ == d);
                }
            }
        }
        r
    }

    /// Is `sub` the class `sup` or one of its direct or indirect subtypes?
    pub fn is_subtype(&self, sub: &str, sup: &str) -> (r: bool)
        ensures
            r == self.subtype(sub@, sup@),
    {
        let pairs = self.direct_pairs();
        let mut known: Vec<String> = Vec::new();
        known.push(sub.to_string());
        let mut used: Vec<bool> = Vec::new();
        let mut i: usize = 0;
        while i < pairs.len()
            invariant
                i <= pairs.len(),
                used@.len() == i,
                forall|k: int| 0 <= k < used@.len() ==> !(#[trigger] used@[k]),
            decreases pairs.len() - i,
        {
            used.push(false);
            i += 1;
        }
        proof {
            self.lemma_subtype_refl(sub@);
            lemma_free_all(used@);
        }
        let mut left: usize = pairs.len();
        let mut changed = true;
        while changed && left > 0
            invariant
                used@.len() == pairs@.len(),
                known@.len() >= 1,
                known@[0]@ == sub@,
                forall|k: int| 0 <= k < known@.len() ==> self.subtype(sub@, #[trigger] known@[k]@),
                forall|k: int| 0 <= k < used@.len() && #[trigger] used@[k] ==> listed(known@, pairs@[k].1@),
                left == free(used@),
                !changed ==> closed_under(known@, pairs@),
                forall|k: int| 0 <= k < pairs@.len() ==> self.direct((#[trigger] pairs@[k]).0@, pairs@[k].1@),
            decreases left, (if changed { 1int } else { 0int }),
        {
            changed = false;
            let mut i: usize = 0;
            while i < pairs.len() && !changed
                invariant
                    i <= pairs.len(),
                    used@.len() == pairs@.len(),
                    known@.len() >= 1,
                    known@[0]@ == sub@,
                    forall|k: int| 0 <= k < known@.len() ==> self.subtype(sub@, #[trigger] known@[k]@),
                    forall|k: int| 0 <= k < used@.len() && #[trigger] used@[k] ==> listed(known@, pairs@[k].1@),
                    left > 0,
                    left == free(used@) + (if changed { 1int } else { 0int }),
                    !changed ==> forall|k: int|
                        0 <= k < i && listed(known@, (#[trigger] pairs@[k]).0@) ==> used@[k],
                    forall|k: int| 0 <= k < pairs@.len() ==> self.direct((#[trigger] pairs@[k]).0@, pairs@[k].1@),
                decreases pairs.len() - i,
            {
                if !used[i] && in_list(&known, pairs[i].0.as_str()) {
                    let ghost old_known = known@;
                    let ghost old_used = used@;
                    used.set(i, true);
                    known.push(pairs[i].1.clone());
                    changed = true;
                    proof {
                        lemma_free_set(old_used, i as int);
                        let w = choose|w: int| 0 <= w < old_known.len() && (#[trigger] old_known[w])@ == pairs@[i as int].0@;
                        assert(self.subtype(sub@, old_known[w]@));
                        self.lemma_subtype_step(sub@, pairs@[i as int].0@, pairs@[i as int].1@);
                        assert(forall|k: int| 0 <= k < old_known.len() ==> old_known[k] == #[trigger] known@[k]);
                        assert forall|k: int| 0 <= k < used@.len() && #[trigger] used@[k] implies listed(known@, pairs@[k].1@) by {
                            if k == i {
                                assert(known@[old_known.len() as int]@ == pairs@[k].1@);
                            } else {
                                assert(old_used[k]);
                                let w = choose|w: int| 0 <= w < old_known.len() && (#[trigger] old_known[w])@ == pairs@[k].1@;
                                assert(known@[w] == old_known[w]);
                            }
                        }
                    }
                }
                i += 1;
            }
            if changed {
                left -= 1;
            } else {
                proof {
                    assert(closed_under(known@, pairs@));
                }
            }
        }
        proof {
            if left == 0 {
                lemma_free_zero(used@);
                assert forall|k: int|
                    0 <= k < pairs@.len() && listed(known@, (#[trigger] pairs@[k]).0@) implies listed(
                    known@,
                    pairs@[k].1@,
                ) by {
                    assert(used@[k]);
                }
                assert(closed_under(known@, pairs@));
            }
            if self.subtype(sub@, sup@) {
                let path = choose|path: Seq<Seq<char>>|
                    #[trigger] is_chain(*self, path) && path[0] == sub@ && path.last() == sup@;
                self.lemma_chain_listed(path, known@, pairs@, path.len() - 1);
            }
        }
        in_list(&known, sup)
    }

    proof fn lemma_subtype_refl(self, c: Seq<char>)
        ensures
            self.subtype(c, c),
    {
        let path = seq![c];
        assert(is_chain(self, path));
    }

    proof fn lemma_subtype_step(self, c: Seq<char>, d: Seq<char>, e: Seq<char>)
        requires
            self.subtype(c, d),
            self.direct(d, e),
        ensures
            self.subtype(c, e),
    {
        let path = choose|path: Seq<Seq<char>>|
            #[trigger] is_chain(self, path) && path[0] == c && path.last() == d;
        let longer = path.push(e);
        assert forall|i: int| 0 <= i < longer.len() - 1 implies self.direct(
            #[trigger] longer[i],
            longer[i + 1],
        ) by {
            if i < path.len() - 1 {
                assert(self.direct(path[i], path[i + 1]));
            }
        }
        assert(is_chain(self, longer));
    }

    proof fn lemma_chain_listed(
        self,
        path: Seq<Seq<char>>,
        known: Seq<String>,
        pairs: Seq<(String, String)>,
        i: int,
    )
        requires
            is_chain(self, path),
            0 <= i < path.len(),
            listed(known, path[0]),
            closed_under(known, pairs),
            forall|c: Seq<char>, d: Seq<char>| #[trigger] self.direct(c, d) ==> paired(pairs, c, d),
        ensures
            listed(known, path[i]),
        decreases i,
    {
        if i > 0 {
            self.lemma_chain_listed(path, known, pairs, i - 1);
            assert(self.direct(path[i - 1], path[i - 1 + 1]));
            assert(paired(pairs, path[i - 1], path[i]));
            let k = choose|k: int|
                0 <= k < pairs.len() && (#[trigger] pairs[k]).0@ == path[i - 1] && pairs[k].1@
                    == path[i];
            assert(listed(known, pairs[k].0@));
        }
    }

    /// Being a subtype is reflexive and transitive.
    pub proof fn law_subtype_is_a_preorder(self, a: Seq<char>, b: Seq<char>, c: Seq<char>)
        ensures
            self.subtype(a, a),
            self.subtype(a, b) && self.subtype(b, c) ==> self.subtype(a, c),
    {
        self.lemma_subtype_refl(a);
        if self.subtype(a, b) && self.subtype(b, c) {
            let path = choose|path: Seq<Seq<char>>|
                #[trigger] is_chain(self, path) && path[0] == b && path.last() == c;
            self.lemma_follow(a, path, path.len() - 1);
        }
    }

    proof fn lemma_follow(self, a: Seq<char>, path: Seq<Seq<char>>, i: int)
        requires
            is_chain(self, path),
            self.subtype(a, path[0]),
            0 <= i < path.len(),
        ensures
            self.subtype(a, path[i]),
        decreases i,
    {
        if i > 0 {
            self.lemma_follow(a, path, i - 1);
            assert(self.direct(path[i - 1], path[i - 1 + 1]));
            self.lemma_subtype_step(a, path[i - 1], path[i]);
        }
    }
}

/// Is the pair in the list?
pub open spec fn paired(pairs: Seq<(String, String)>, c: Seq<char>, d: Seq<char>) -> bool {
    exists|k: int| 0 <= k < pairs.len() && (#[trigger] pairs[k]).0@ == c && pairs[k].1@ == d
}

proof fn lemma_paired_push(pairs: Seq<(String, String)>, p: (String, String))
    ensures
        forall|c: Seq<char>, d: Seq<char>| #[trigger]
            paired(pairs, c, d) ==> paired(pairs.push(p), c, d),
        paired(pairs.push(p), p.0@, p.1@),
{
    let next = pairs.push(p);
    assert forall|c: Seq<char>, d: Seq<char>| #[trigger] paired(pairs, c, d) implies paired(
        next,
        c,
        d,
    ) by {
        let k = choose|k: int|
            0 <= k < pairs.len() && (#[trigger] pairs[k]).0@ == c && pairs[k].1@ == d;
        assert(next[k] == pairs[k]);
    }
    assert(next[pairs.len() as int] == p);
}

/// Is the name in the list?
pub open spec fn listed(names: Seq<String>, name: Seq<char>) -> bool {
    exists|i: int| 0 <= i < names.len() && (#[trigger] names[i])@ == name
}

/// With the first of a pair, the second is in the list too.
spec fn closed_under(names: Seq<String>, pairs: Seq<(String, String)>) -> bool {
    forall|k: int|
        0 <= k < pairs.len() && listed(names, (#[trigger] pairs[k]).0@) ==> listed(
            names,
            pairs[k].1@,
        )
}

/// How many entries are not yet used.
spec fn free(used: Seq<bool>) -> nat
    decreases used.len(),
{
    if used.len() == 0 {
        0
    } else {
        free(used.drop_last()) + if used.last() {
            0nat
        } else {
            1nat
        }
    }
}

proof fn lemma_free_set(used: Seq<bool>, i: int)
    requires
        0 <= i < used.len(),
        !used[i],
    ensures
        free(used.update(i, true)) + 1 == free(used),
    decreases used.len(),
{
    let next = used.update(i, true);
    if i == used.len() - 1 {
        assert(next.drop_last() =~= used.drop_last());
    } else {
        lemma_free_set(used.drop_last(), i);
        assert(next.drop_last() =~= used.drop_last().update(i, true));
    }
}

proof fn lemma_free_zero(used: Seq<bool>)
    requires
        free(used) == 0,
    ensures
        forall|k: int| 0 <= k < used.len() ==> #[trigger] used[k],
    decreases used.len(),
{
    if used.len() > 0 {
        lemma_free_zero(used.drop_last());
        assert forall|k: int| 0 <= k < used.len() implies #[trigger] used[k] by {
            if k < used.len() - 1 {
                assert(used.drop_last()[k]);
            }
        }
    }
}

proof fn lemma_free_all(used: Seq<bool>)
    requires
        forall|k: int| 0 <= k < used.len() ==> !(#[trigger] used[k]),
    ensures
        free(used) == used.len(),
    decreases used.len(),
{
    if used.len() > 0 {
        assert forall|k: int| 0 <= k < used.len() - 1 implies !(#[trigger] used.drop_last()[k]) by {
            assert(!used[k]);
        }
        lemma_free_all(used.drop_last());
    }
}

/// Is the name in the list?
pub fn in_list(names: &Vec<String>, name: &str) -> (r: bool)
    ensures
        r == listed(names@, name@),
{
    let mut i: usize = 0;
    while i < names.len()
        invariant
            i <= names.len(),
            forall|k: int| 0 <= k < i ==> (#[trigger] names@[k])@ != name@,
        decreases names.len() - i,
    {
        if same(names[i].as_str(), name) {
            return true;
        }
        i += 1;
    }
    false
}

} // verus!
