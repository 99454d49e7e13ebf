//! Association lists: small maps keyed by names.

use vstd::prelude::*;

use crate::ir::{FieldKey, MethodKey};
use crate::text::same;

verus! {

/// A key that can be compared and copied by its view.
pub trait Name: View + Sized {
    /// Do the two keys have the same view?
    fn same_name(&self, other: &Self) -> (r: bool)
        ensures
            r == (self@ == other@),
    ;

    /// A copy of the key.
    fn copy_name(&self) -> (r: Self)
        ensures
            r@ == self@,
    ;
}

impl Name for FieldKey {
    fn same_name(&self, other: &Self) -> (r: bool) {
        self.same_as(other)
    }

    fn copy_name(&self) -> (r: Self) {
        self.clone()
    }
}

impl Name for MethodKey {
    fn same_name(&self, other: &Self) -> (r: bool) {
        self.same_as(other)
    }

    fn copy_name(&self) -> (r: Self) {
        self.clone()
    }
}

impl Name for u16 {
    fn same_name(&self, other: &Self) -> (r: bool) {
        *self == *other
    }

    fn copy_name(&self) -> (r: Self) {
        *self
    }
}

impl Name for u64 {
    fn same_name(&self, other: &Self) -> (r: bool) {
        *self == *other
    }

    fn copy_name(&self) -> (r: Self) {
        *self
    }
}

impl Name for (u64, String) {
    fn same_name(&self, other: &Self) -> (r: bool) {
        self.0 == other.0 && same(self.1.as_str(), other.1.as_str())
    }

    fn copy_name(&self) -> (r: Self) {
        (self.0, self.1.clone())
    }
}

impl Name for (String, String) {
    fn same_name(&self, other: &Self) -> (r: bool) {
        same(self.0.as_str(), other.0.as_str()) && same(self.1.as_str(), other.1.as_str())
    }

    fn copy_name(&self) -> (r: Self) {
        (self.0.clone(), self.1.clone())
    }
}

impl Name for String {
    fn same_name(&self, other: &Self) -> (r: bool) {
        same(self.as_str(), other.as_str())
    }

    fn copy_name(&self) -> (r: Self) {
        self.clone()
    }
}

/// The value stored last under the key `k`.
pub open spec fn lookup<K: Name, V>(items: Seq<(K, V)>, k: K::V) -> Option<V>
    decreases items.len(),
{
    if items.len() == 0 {
        None
    } else if items.last().0@ == k {
        Some(items.last().1)
    } else {
        lookup(items.drop_last(), k)
    }
}

/// A map from names to values.
pub struct Assoc<K: Name, V: Copy> {
    items: Vec<(K, V)>,
}

impl<K: Name, V: Copy> Assoc<K, V> {
    /// The value under the key `k`, if there is one.
    pub closed spec fn at(self, k: K::V) -> Option<V> {
        lookup(self.items@, k)
    }

    /// Is there a value under the key `k`?
    pub open spec fn holds(self, k: K::V) -> bool {
        self.at(k) is Some
    }

    /// Two maps that give the same value under every key.
    pub open spec fn agrees(self, other: Self) -> bool {
        forall|k: K::V| #[trigger] self.at(k) == other.at(k)
    }

    /// The values by key.
    pub open spec fn map(self) -> Map<K::V, V> {
        Map::new(|k: K::V| self.holds(k), |k: K::V| self.at(k)->0)
    }

    pub closed spec fn len_spec(self) -> nat {
        self.items@.len()
    }

    pub closed spec fn key_spec(self, i: int) -> K::V {
        self.items@[i].0@
    }

    /// The empty map.
    pub fn new() -> (r: Self)
        ensures
            forall|k: K::V| #[trigger] r.at(k) is None,
    {
        Assoc { items: Vec::new() }
    }

    /// Upper bound of the positions that [`Assoc::key`] takes.
    pub fn len(&self) -> (n: usize)
        ensures
            n == self.len_spec(),
    {
        self.items.len()
    }

    /// The key at position `i`.
    pub fn key(&self, i: usize) -> (k: &K)
        requires
            i < self.len_spec(),
        ensures
            k@ == self.key_spec(i as int),
    {
        &self.items[i].0
    }

    /// Every key that holds a value stands at some position, and every key at a
    /// position holds a value.
    pub proof fn lemma_keys(&self)
        ensures
            forall|k: K::V|
                #[trigger] self.at(k) is Some ==> exists|i: int|
                    0 <= i < self.len_spec() && #[trigger] self.key_spec(i) == k,
            forall|i: int| 0 <= i < self.len_spec() ==> self.at(#[trigger] self.key_spec(i)) is Some,
    {
        assert forall|k: K::V| #[trigger] self.at(k) is Some implies exists|i: int|
            0 <= i < self.len_spec() && #[trigger] self.key_spec(i) == k by {
            let i = Self::lemma_found(self.items@, k);
            assert(self.key_spec(i) == k);
        }
        assert forall|i: int| 0 <= i < self.len_spec() implies self.at(#[trigger] self.key_spec(i)) is Some by {
            Self::lemma_present(self.items@, i);
        }
    }

    proof fn lemma_found(items: Seq<(K, V)>, k: K::V) -> (i: int)
        requires
            lookup(items, k) is Some,
        ensures
            0 <= i < items.len(),
            items[i].0@ == k,
        decreases items.len(),
    {
        if items.last().0@ == k {
            items.len() - 1
        } else {
            Self::lemma_found(items.drop_last(), k)
        }
    }

    proof fn lemma_present(items: Seq<(K, V)>, i: int)
        requires
            0 <= i < items.len(),
        ensures
            lookup(items, items[i].0@) is Some,
        decreases items.len(),
    {
        if items.last().0@ != items[i].0@ {
            Self::lemma_present(items.drop_last(), i);
        }
    }

    /// The value under the key, if there is one.
    pub fn get(&self, k: &K) -> (r: Option<V>)
        ensures
            r == self.at(k@),
    {
        let mut i: usize = self.items.len();
        proof {
            assert(self.items@.take(i as int) =~= self.items@);
        }
        while i > 0
            invariant
                i <= self.items.len(),
                lookup(self.items@, k@) == lookup(self.items@.take(i as int), k@),
            decreases i,
        {
            proof {
                assert(self.items@.take(i as int).drop_last() =~= self.items@.take(i - 1));
            }
            if self.items[i - 1].0.same_name(k) {
                return Some(self.items[i - 1].1);
            }
            i -= 1;
        }
        None
    }

    /// Is there a value under the key?
    pub fn contains(&self, k: &K) -> (r: bool)
        ensures
            r == self.holds(k@),
    {
        self.get(k).is_some()
    }

    /// Take the key out.
    pub fn remove(&mut self, k: &K)
        ensures
            forall|x: K::V|
                #[trigger] final(self).at(x) == if x == k@ {
                    None
                } else {
                    old(self).at(x)
                },
    {
        let mut out: Vec<(K, V)> = Vec::new();
        let mut i: usize = 0;
        while i < self.items.len()
            invariant
                i <= self.items.len(),
                self.items@ == old(self).items@,
                forall|x: K::V|
                    #[trigger] lookup(out@, x) == if x == k@ {
                        None
                    } else {
                        lookup(self.items@.take(i as int), x)
                    },
            decreases self.items.len() - i,
        {
            let ghost before = out@;
            proof {
                assert(self.items@.take(i + 1).drop_last() =~= self.items@.take(i as int));
            }
            if !self.items[i].0.same_name(k) {
                out.push((self.items[i].0.copy_name(), self.items[i].1));
                proof {
                    assert(out@.drop_last() =~= before);
                }
            }
            proof {
                assert forall|x: K::V| #[trigger] lookup(out@, x) == if x == k@ {
                    None
                } else {
                    lookup(self.items@.take(i + 1), x)
                } by {
                    assert(lookup(before, x) == if x == k@ {
                        None
                    } else {
                        lookup(self.items@.take(i as int), x)
                    });
                }
            }
            i += 1;
        }
        proof {
            assert(self.items@.take(i as int) =~= self.items@);
        }
        self.items = out;
    }

    /// Store a value under the key, in place of an earlier one.
    pub fn insert(&mut self, k: K, v: V)
        ensures
            forall|x: K::V|
                #[trigger] final(self).at(x) == if x == k@ {
                    Some(v)
                } else {
                    old(self).at(x)
                },
    {
        self.remove(&k);
        let ghost mid = self.items@;
        let ghost removed = *self;
        proof {
            assert forall|x: K::V| #[trigger] lookup(mid, x) == if x == k@ {
                None
            } else {
                old(self).at(x)
            } by {
                assert(removed.at(x) == lookup(mid, x));
            }
        }
        self.items.push((k, v));
        proof {
            assert(self.items@.drop_last() =~= mid);
            assert forall|x: K::V| #[trigger] self.at(x) == if x == k@ {
                Some(v)
            } else {
                old(self).at(x)
            } by {
                assert(lookup(mid, x) == if x == k@ {
                    None
                } else {
                    old(self).at(x)
                });
            }
        }
    }

    /// A copy of the map.
    pub fn copy(&self) -> (r: Self)
        ensures
            r.agrees(*self),
            self.agrees(r),
    {
        let mut out: Vec<(K, V)> = Vec::new();
        let mut i: usize = 0;
        while i < self.items.len()
            invariant
                i <= self.items.len(),
                out@.len() == i,
                forall|x: K::V| #[trigger] lookup(out@, x) == lookup(self.items@.take(i as int), x),
            decreases self.items.len() - i,
        {
            let ghost before = out@;
            out.push((self.items[i].0.copy_name(), self.items[i].1));
            proof {
                assert(out@.drop_last() =~= before);
                assert(self.items@.take(i + 1).drop_last() =~= self.items@.take(i as int));
                assert forall|x: K::V| #[trigger] lookup(out@, x) == lookup(self.items@.take(i + 1), x) by {
                    assert(lookup(before, x) == lookup(self.items@.take(i as int), x));
                }
            }
            i += 1;
        }
        proof {
            assert(self.items@.take(i as int) =~= self.items@);
        }
        Assoc { items: out }
    }
}

/// The text stored last under the key.
pub open spec fn text_of<K: Name>(items: Seq<(K, String)>, k: K::V) -> Option<Seq<char>>
    decreases items.len(),
{
    if items.len() == 0 {
        None
    } else if items.last().0@ == k {
        Some(items.last().1@)
    } else {
        text_of(items.drop_last(), k)
    }
}

/// A map from names to texts.
pub struct TextMap<K: Name> {
    items: Vec<(K, String)>,
}

impl<K: Name> TextMap<K> {
    /// The text under the key, if there is one.
    pub closed spec fn at(self, k: K::V) -> Option<Seq<char>> {
        text_of(self.items@, k)
    }

    /// The texts by key.
    pub open spec fn map(self) -> Map<K::V, Seq<char>> {
        Map::new(|k: K::V| self.at(k) is Some, |k: K::V| self.at(k)->0)
    }

    /// The empty map.
    pub fn new() -> (r: Self)
        ensures
            r.map() == Map::<K::V, Seq<char>>::empty(),
    {
        let r = TextMap { items: Vec::new() };
        proof {
            assert(r.map() =~= Map::empty());
        }
        r
    }

    /// The text under the key, if there is one.
    pub fn get(&self, k: &K) -> (r: Option<&String>)
        ensures
            match r {
                Some(s) => self.map().dom().contains(k@) && self.map()[k@] == s@,
                None => !self.map().dom().contains(k@),
            },
    {
        let mut i: usize = self.items.len();
        proof {
            assert(self.items@.take(i as int) =~= self.items@);
        }
        while i > 0
            invariant
                i <= self.items@.len(),
                self.at(k@) == text_of(self.items@.take(i as int), k@),
            decreases i,
        {
            proof {
                assert(self.items@.take(i as int).drop_last() =~= self.items@.take(i - 1));
            }
            if self.items[i - 1].0.same_name(k) {
                return Some(&self.items[i - 1].1);
            }
            i -= 1;
        }
        None
    }

    /// Store a text under the key, in place of an earlier one.
    pub fn insert(&mut self, k: K, s: String)
        ensures
            final(self).map() == old(self).map().insert(k@, s@),
    {
        self.items.push((k, s));
        proof {
            assert(self.items@.drop_last() =~= old(self).items@);
            assert(self.map() =~= old(self).map().insert(k@, s@));
        }
    }

    /// A copy of the map.
    pub fn copy(&self) -> (r: Self)
        ensures
            r.map() == self.map(),
    {
        let mut items: Vec<(K, String)> = Vec::new();
        let mut i: usize = 0;
        while i < self.items.len()
            invariant
                i <= self.items@.len(),
                items@.len() == i,
                forall|j: int|
                    0 <= j < i ==> (#[trigger] items@[j]).0@ == self.items@[j].0@ && items@[j].1@
                        == self.items@[j].1@,
            decreases self.items@.len() - i,
        {
            items.push((self.items[i].0.copy_name(), self.items[i].1.clone()));
            i += 1;
        }
        let r = TextMap { items };
        proof {
            assert forall|k: K::V| #[trigger] r.at(k) == self.at(k) by {
                Self::lemma_same_texts(r.items@, self.items@, k);
            }
            assert(r.map() =~= self.map());
        }
        r
    }

    proof fn lemma_same_texts(a: Seq<(K, String)>, b: Seq<(K, String)>, k: K::V)
        requires
            a.len() == b.len(),
            forall|j: int|
                0 <= j < a.len() ==> (#[trigger] a[j]).0@ == b[j].0@ && a[j].1@ == b[j].1@,
        ensures
            text_of(a, k) == text_of(b, k),
        decreases a.len(),
    {
        if a.len() > 0 {
            assert(a.last().0@ == b.last().0@);
            Self::lemma_same_texts(a.drop_last(), b.drop_last(), k);
        }
    }
}

} // verus!
