//! Copying the state at a branch, and joining the states of its sides.

use vstd::prelude::*;

use super::encode;
use super::heap;
use super::state;
use super::state::{ArrayEntry, Encoder, NondetTerm, State};
use crate::assoc::{Assoc, Name};
use crate::ir::{FieldKey, FieldKeyV};
use crate::term;
use crate::term::{Term, Terms, Tm};

verus! {

/// The first value, or the second where there is no first.
pub open spec fn or_else<T>(a: Option<T>, b: Option<T>) -> Option<T> {
    if a is Some {
        a
    } else {
        b
    }
}

/// `r` is the value under `cond` of `a`, else of `b`. A value that one side
/// lacks is that of the other.
pub open spec fn joins(
    ts: Terms,
    cond: Tm,
    a: Option<Term>,
    b: Option<Term>,
    r: Option<Term>,
) -> bool {
    match (a, b) {
        (Some(x), Some(y)) => if x == y {
            r == a
        } else {
            r is Some && ts.has(r->0) && ts.tm(r->0) == term::tm_ite(cond, ts.tm(x), ts.tm(y))
        },
        (Some(_), None) => r == a,
        (None, _) => r == b,
    }
}

/// As [`joins`], but a value that one side lacks is dropped.
pub open spec fn joins_both(
    ts: Terms,
    cond: Tm,
    a: Option<Term>,
    b: Option<Term>,
    r: Option<Term>,
) -> bool {
    if a is Some && b is Some {
        joins(ts, cond, a, b, r)
    } else {
        r is None
    }
}

fn first_of(a: Option<Term>, b: Option<Term>) -> (r: Option<Term>)
    ensures
        r == or_else(a, b),
{
    match a {
        Some(_) => a,
        None => b,
    }
}

/// Build the join of two values.
fn join_terms(ts: &mut Terms, cond: Term, a: Option<Term>, b: Option<Term>) -> (r: Option<Term>)
    requires
        old(ts).well_formed(),
        old(ts).has(cond),
        old(ts).has_opt(a),
        old(ts).has_opt(b),
    ensures
        final(ts).built_from(*old(ts)),
        final(ts).has_opt(r),
        joins(*final(ts), old(ts).tm(cond), a, b, r),
{
    match (a, b) {
        (Some(x), Some(y)) => {
            if x == y {
                Some(x)
            } else {
                Some(ts.ite(cond, x, y))
            }
        },
        (Some(x), None) => Some(x),
        (None, _) => b,
    }
}

/// A join stays one when more terms are built.
proof fn lemma_joins_kept(
    after: Terms,
    before: Terms,
    cond: Tm,
    a: Option<Term>,
    b: Option<Term>,
    r: Option<Term>,
)
    requires
        after.built_from(before),
        before.has_opt(a),
        before.has_opt(b),
        before.has_opt(r),
        joins(before, cond, a, b, r),
    ensures
        joins(after, cond, a, b, r),
{
}

/// Every key joined, where neither side has one the value of `base`.
pub open spec fn map_joins(
    ts: Terms,
    cond: Tm,
    base: Assoc<FieldKey, Term>,
    a: Assoc<FieldKey, Term>,
    b: Assoc<FieldKey, Term>,
    r: Assoc<FieldKey, Term>,
) -> bool {
    forall|k: FieldKeyV|
        #![trigger r.at(k)]
        if a.at(k) is None && b.at(k) is None {
            r.at(k) == base.at(k)
        } else {
            joins(ts, cond, a.at(k), b.at(k), r.at(k))
        }
}

/// Does the key stand among the first `n`?
spec fn among<V: Copy>(m: Assoc<FieldKey, V>, n: int, k: FieldKeyV) -> bool {
    exists|j: int| 0 <= j < n && #[trigger] m.key_spec(j) == k
}

fn join_maps(
    ts: &mut Terms,
    cond: Term,
    base: Assoc<FieldKey, Term>,
    a: &Assoc<FieldKey, Term>,
    b: &Assoc<FieldKey, Term>,
) -> (r: Assoc<FieldKey, Term>)
    requires
        old(ts).well_formed(),
        old(ts).has(cond),
        state::assoc_in(*old(ts), base),
        state::assoc_in(*old(ts), *a),
        state::assoc_in(*old(ts), *b),
    ensures
        final(ts).built_from(*old(ts)),
        state::assoc_in(*final(ts), r),
        map_joins(*final(ts), old(ts).tm(cond), base, *a, *b, r),
{
    let mut r = base;
    let ghost c = old(ts).tm(cond);
    let mut i: usize = 0;
    while i < a.len()
        invariant
            i <= a.len_spec(),
            ts.built_from(*old(ts)),
            old(ts).has(cond),
            c == old(ts).tm(cond),
            state::assoc_in(*old(ts), base),
            state::assoc_in(*old(ts), *a),
            state::assoc_in(*old(ts), *b),
            state::assoc_in(*ts, r),
            forall|k: FieldKeyV|
                #![trigger r.at(k)]
                if among(*a, i as int, k) {
                    joins(*ts, c, a.at(k), b.at(k), r.at(k))
                } else {
                    r.at(k) == base.at(k)
                },
        decreases a.len_spec() - i,
    {
        let ghost before = *ts;
        let ghost done = r;
        let key = a.key(i);
        let x = a.get(key);
        let y = b.get(key);
        proof {
            a.lemma_keys();
            assert(a.at(a.key_spec(i as int)) is Some);
            assert(old(ts).has_opt(a.at(key@)));
            assert(old(ts).has_opt(b.at(key@)));
        }
        let j = join_terms(ts, cond, x, y);
        if let Some(v) = j {
            r.insert(key.copy_name(), v);
        }
        proof {
            assert forall|k: FieldKeyV|
                #![trigger r.at(k)]
                if among(*a, i + 1, k) {
                    joins(*ts, c, a.at(k), b.at(k), r.at(k))
                } else {
                    r.at(k) == base.at(k)
                } by {
                assert(done.at(k) == done.at(k));
                if k == key@ {
                    assert(a.key_spec(i as int) == k);
                    assert(among(*a, i + 1, k));
                } else {
                    if among(*a, i + 1, k) {
                        let p = choose|p: int| 0 <= p < i + 1 && #[trigger] a.key_spec(p) == k;
                        assert(p < i);
                        assert(among(*a, i as int, k));
                        assert(old(ts).has_opt(a.at(k)));
                        assert(old(ts).has_opt(b.at(k)));
                        assert(before.has_opt(done.at(k)));
                        lemma_joins_kept(*ts, before, c, a.at(k), b.at(k), done.at(k));
                    } else {
                        assert(!among(*a, i as int, k)) by {
                            if among(*a, i as int, k) {
                                let p = choose|p: int|
                                    0 <= p < i && #[trigger] a.key_spec(p) == k;
                                assert(among(*a, i + 1, k));
                            }
                        }
                    }
                }
            }
            assert forall|k: FieldKeyV| ts.has_opt(#[trigger] r.at(k)) by {
                assert(before.has_opt(done.at(k)));
            }
        }
        i += 1;
    }
    let ghost n_a = i as int;
    let ghost with_a = r;
    proof {
        a.lemma_keys();
        assert forall|k: FieldKeyV|
            #![trigger r.at(k)]
            if a.at(k) is None {
                r.at(k) == base.at(k)
            } else {
                joins(*ts, c, a.at(k), b.at(k), r.at(k))
            } by {
            if a.at(k) is Some {
                assert(among(*a, i as int, k));
            } else if among(*a, i as int, k) {
                let p = choose|p: int| 0 <= p < i && #[trigger] a.key_spec(p) == k;
                assert(a.at(a.key_spec(p)) is Some);
            }
        }
    }
    let mut i: usize = 0;
    while i < b.len()
        invariant
            i <= b.len_spec(),
            ts.built_from(*old(ts)),
            state::assoc_in(*old(ts), *b),
            state::assoc_in(*ts, r),
            forall|k: FieldKeyV|
                #![trigger r.at(k)]
                if a.at(k) is None && !among(*b, i as int, k) {
                    r.at(k) == base.at(k)
                } else {
                    joins(*ts, c, a.at(k), b.at(k), r.at(k))
                },
        decreases b.len_spec() - i,
    {
        let ghost done = r;
        let key = b.key(i);
        proof {
            b.lemma_keys();
            assert(b.at(b.key_spec(i as int)) is Some);
            assert(old(ts).has_opt(b.at(key@)));
        }
        if !a.contains(key) {
            if let Some(v) = b.get(key) {
                r.insert(key.copy_name(), v);
            }
        }
        proof {
            assert forall|k: FieldKeyV|
                #![trigger r.at(k)]
                if a.at(k) is None && !among(*b, i + 1, k) {
                    r.at(k) == base.at(k)
                } else {
                    joins(*ts, c, a.at(k), b.at(k), r.at(k))
                } by {
                assert(done.at(k) == done.at(k));
                if k == key@ {
                    assert(b.key_spec(i as int) == k);
                    assert(among(*b, i + 1, k));
                } else if among(*b, i + 1, k) {
                    let p = choose|p: int| 0 <= p < i + 1 && #[trigger] b.key_spec(p) == k;
                    assert(p < i);
                    assert(among(*b, i as int, k));
                } else if among(*b, i as int, k) {
                    let p = choose|p: int| 0 <= p < i && #[trigger] b.key_spec(p) == k;
                    assert(among(*b, i + 1, k));
                }
            }
            assert forall|k: FieldKeyV| ts.has_opt(#[trigger] r.at(k)) by {
                assert(ts.has_opt(done.at(k)));
            }
        }
        i += 1;
    }
    proof {
        b.lemma_keys();
        assert forall|k: FieldKeyV|
            #![trigger r.at(k)]
            if a.at(k) is None && b.at(k) is None {
                r.at(k) == base.at(k)
            } else {
                joins(*ts, c, a.at(k), b.at(k), r.at(k))
            } by {
            if b.at(k) is Some {
                assert(among(*b, i as int, k));
            } else if among(*b, i as int, k) {
                let p = choose|p: int| 0 <= p < i && #[trigger] b.key_spec(p) == k;
                assert(b.at(b.key_spec(p)) is Some);
            }
        }
    }
    r
}

/// A key is in `r` when it is in `a` or in `b`.
pub open spec fn set_joins(
    a: Assoc<FieldKey, ()>,
    b: Assoc<FieldKey, ()>,
    r: Assoc<FieldKey, ()>,
) -> bool {
    forall|k: FieldKeyV| #[trigger] r.holds(k) <==> a.holds(k) || b.holds(k)
}

fn join_sets(a: &Assoc<FieldKey, ()>, b: &Assoc<FieldKey, ()>) -> (r: Assoc<FieldKey, ()>)
    ensures
        set_joins(*a, *b, r),
{
    let mut r = a.copy();
    proof {
        assert forall|k: FieldKeyV| #[trigger] r.holds(k) <==> a.holds(k) || among(*b, 0, k) by {
            assert(r.at(k) == a.at(k));
        }
    }
    let mut i: usize = 0;
    while i < b.len()
        invariant
            i <= b.len_spec(),
            forall|k: FieldKeyV| #[trigger]
                r.holds(k) <==> a.holds(k) || among(*b, i as int, k),
        decreases b.len_spec() - i,
    {
        let ghost done = r;
        let key = b.key(i);
        r.insert(key.copy_name(), ());
        proof {
            assert forall|k: FieldKeyV| #[trigger] r.holds(k) <==> a.holds(k) || among(
                *b,
                i + 1,
                k,
            ) by {
                assert(done.holds(k) <==> a.holds(k) || among(*b, i as int, k));
                if k == key@ {
                    assert(b.key_spec(i as int) == k);
                    assert(among(*b, i + 1, k));
                } else if among(*b, i + 1, k) {
                    let p = choose|p: int| 0 <= p < i + 1 && #[trigger] b.key_spec(p) == k;
                    assert(p < i);
                    assert(among(*b, i as int, k));
                } else if among(*b, i as int, k) {
                    let p = choose|p: int| 0 <= p < i && #[trigger] b.key_spec(p) == k;
                    assert(among(*b, i + 1, k));
                }
            }
        }
        i += 1;
    }
    proof {
        b.lemma_keys();
        assert forall|k: FieldKeyV| #[trigger] r.holds(k) <==> a.holds(k) || b.holds(k) by {
            if b.at(k) is Some {
                assert(among(*b, i as int, k));
            } else if among(*b, i as int, k) {
                let p = choose|p: int| 0 <= p < i && #[trigger] b.key_spec(p) == k;
                assert(b.at(b.key_spec(p)) is Some);
            }
        }
    }
    r
}

/// The value on one side of a branch: `x` under `cond` and `y` else, or the other way
/// round.
pub open spec fn on_side(cond: Tm, yes: bool, x: Tm, y: Tm) -> Tm {
    if yes {
        term::tm_ite(cond, x, y)
    } else {
        term::tm_ite(cond, y, x)
    }
}

/// `r` is what the entry `e`, made on one side of a branch on `cond`, comes to after
/// the branch. On the other side the array is as `arrays` has it.
pub open spec fn guards(
    ts: Terms,
    cond: Tm,
    yes: bool,
    arrays: Seq<ArrayEntry>,
    e: ArrayEntry,
    r: ArrayEntry,
) -> bool {
    &&& r.reference == e.reference
    &&& exists|at: nat|
        ts.tm(r.contents) == on_side(
            cond,
            yes,
            ts.tm(e.contents),
            encode::contents_tm(
                ts,
                arrays,
                arrays.len(),
                ts.tm(e.reference),
                #[trigger] encode::unknown_contents(at),
            ),
        )
    &&& exists|at: nat|
        ts.tm(r.length) == on_side(
            cond,
            yes,
            ts.tm(e.length),
            encode::length_tm(
                ts,
                arrays,
                arrays.len(),
                ts.tm(e.reference),
                #[trigger] encode::unknown_length(at),
            ),
        )
}

/// `r` has the entries of `base`, and then those that one side of a branch on `cond`
/// added to its first `k`: each holds on that side only.
pub open spec fn entries_added(
    ts: Terms,
    cond: Tm,
    yes: bool,
    base: Seq<ArrayEntry>,
    from: Seq<ArrayEntry>,
    k: int,
    r: Seq<ArrayEntry>,
) -> bool {
    let n = base.len() as int;
    &&& r.len() == n + if from.len() > k {
        from.len() - k
    } else {
        0
    }
    &&& forall|i: int| 0 <= i < n ==> #[trigger] r[i] == base[i]
    &&& forall|i: int|
        n <= i < r.len() ==> guards(ts, cond, yes, r.take(i), from[k + i - n], #[trigger] r[i])
}

/// The entries after a branch: those of before, then those of the side taken where
/// `cond` holds, then those of the other.
pub open spec fn arrays_joined(
    ts: Terms,
    cond: Tm,
    base: Seq<ArrayEntry>,
    a: Seq<ArrayEntry>,
    b: Seq<ArrayEntry>,
    r: Seq<ArrayEntry>,
) -> bool {
    let k = base.len() as int;
    let mid = r.take(
        if a.len() > k {
            a.len() as int
        } else {
            k
        },
    );
    &&& entries_added(ts, cond, true, base, a, k, mid)
    &&& entries_added(ts, cond, false, mid, b, k, r)
}

/// Entries stay what they are when more terms are built.
proof fn lemma_guards_kept(
    after: Terms,
    before: Terms,
    cond: Tm,
    yes: bool,
    arrays: Seq<ArrayEntry>,
    e: ArrayEntry,
    r: ArrayEntry,
)
    requires
        after.built_from(before),
        state::arrays_in(before, arrays),
        before.has(e.reference) && before.has(e.contents) && before.has(e.length),
        before.has(r.contents) && before.has(r.length),
        guards(before, cond, yes, arrays, e, r),
    ensures
        guards(after, cond, yes, arrays, e, r),
{
    let t = before.tm(e.reference);
    let m = arrays.len();
    let at = choose|at: nat|
        before.tm(r.contents) == on_side(
            cond,
            yes,
            before.tm(e.contents),
            encode::contents_tm(before, arrays, m, t, #[trigger] encode::unknown_contents(at)),
        );
    heap::lemma_contents_same(after, before, arrays, m, t, encode::unknown_contents(at));
    let to = choose|at: nat|
        before.tm(r.length) == on_side(
            cond,
            yes,
            before.tm(e.length),
            encode::length_tm(before, arrays, m, t, #[trigger] encode::unknown_length(at)),
        );
    heap::lemma_lengths_same(after, before, arrays, m, t, encode::unknown_length(to));
    assert(after.tm(r.contents) == on_side(
        cond,
        yes,
        after.tm(e.contents),
        encode::contents_tm(after, arrays, m, t, encode::unknown_contents(at)),
    ));
    assert(after.tm(r.length) == on_side(
        cond,
        yes,
        after.tm(e.length),
        encode::length_tm(after, arrays, m, t, encode::unknown_length(to)),
    ));
}

/// Entries stay what they are when more terms are built.
proof fn lemma_added_kept(
    after: Terms,
    before: Terms,
    cond: Tm,
    yes: bool,
    base: Seq<ArrayEntry>,
    from: Seq<ArrayEntry>,
    k: int,
    r: Seq<ArrayEntry>,
)
    requires
        after.built_from(before),
        k >= 0,
        state::arrays_in(before, r),
        state::arrays_in(before, from),
        entries_added(before, cond, yes, base, from, k, r),
    ensures
        entries_added(after, cond, yes, base, from, k, r),
{
    let n = base.len() as int;
    assert forall|i: int| n <= i < r.len() implies guards(
        after,
        cond,
        yes,
        r.take(i),
        from[k + i - n],
        #[trigger] r[i],
    ) by {
        let e = from[k + i - n];
        assert(before.has(e.reference));
        assert(before.has(r[i].reference));
        assert forall|j: int| 0 <= j < i implies before.has((#[trigger] r.take(i)[j]).reference)
            && before.has(r.take(i)[j].contents) && before.has(r.take(i)[j].length) by {
            assert(r.take(i)[j] == r[j]);
        }
        lemma_guards_kept(after, before, cond, yes, r.take(i), e, r[i]);
    }
}

impl<'a> Encoder<'a> {
    /// Add the entries that one side of a branch made, from the `k`th on: each holds
    /// on that side only.
    fn add_entries(&mut self, cond: Term, yes: bool, from: &Vec<ArrayEntry>, k: usize)
        requires
            old(self).ok(),
            old(self).terms.has(cond),
            state::arrays_in(old(self).terms, from@),
        ensures
            final(self).ok(),
            final(self).same_frame(*old(self)),
            final(self).terms.built_from(old(self).terms),
            final(self).st == (State { array_map: final(self).st.array_map, ..old(self).st }),
            entries_added(
                final(self).terms,
                old(self).terms.tm(cond),
                yes,
                old(self).st.array_map@,
                from@,
                k as int,
                final(self).st.array_map@,
            ),
    {
        let ghost c = self.terms.tm(cond);
        let ghost base = self.st.array_map@;
        let ghost t0 = self.terms;
        let mut i: usize = k;
        while i < from.len()
            invariant
                k <= i,
                i <= from@.len() || i == k,
                base == old(self).st.array_map@,
                t0 == old(self).terms,
                c == t0.tm(cond),
                t0.has(cond),
                state::arrays_in(t0, from@),
                self.ok(),
                self.same_frame(*old(self)),
                self.terms.built_from(t0),
                self.st == (State { array_map: self.st.array_map, ..old(self).st }),
                self.st.array_map@.len() == base.len() + i - k,
                forall|j: int| 0 <= j < base.len() ==> #[trigger] self.st.array_map@[j] == base[j],
                forall|j: int|
                    base.len() <= j < self.st.array_map@.len() ==> guards(
                        self.terms,
                        c,
                        yes,
                        self.st.array_map@.take(j),
                        from@[k + j - base.len()],
                        #[trigger] self.st.array_map@[j],
                    ),
            decreases from@.len() - i,
        {
            let e = from[i];
            let ghost before = *self;
            let ghost arrays = self.st.array_map@;
            proof {
                assert(t0.has(from@[i as int].reference));
                before.st.lemma_fits(before.body.vars@.len(), before.terms);
            }
            let other = self.array_contents_lookup(e.reference);
            let ghost looked = self.terms;
            let contents = if yes {
                self.terms.ite(cond, e.contents, other)
            } else {
                self.terms.ite(cond, other, e.contents)
            };
            let ghost mid = *self;
            proof {
                self.lemma_built_settles(before);
                mid.st.lemma_fits(mid.body.vars@.len(), mid.terms);
            }
            let other_length = self.array_length_lookup(e.reference);
            let length = if yes {
                self.terms.ite(cond, e.length, other_length)
            } else {
                self.terms.ite(cond, other_length, e.length)
            };
            let entry = ArrayEntry { reference: e.reference, contents, length };
            proof {
                self.lemma_built_settles(before);
                let at = before.terms.size();
                let to = mid.terms.size();
                let r = t0.tm(e.reference);
                heap::lemma_contents_same(
                    self.terms,
                    before.terms,
                    arrays,
                    arrays.len(),
                    r,
                    encode::unknown_contents(at),
                );
                heap::lemma_lengths_same(
                    self.terms,
                    mid.terms,
                    arrays,
                    arrays.len(),
                    r,
                    encode::unknown_length(to),
                );
                assert(self.terms.tm(contents) == on_side(
                    c,
                    yes,
                    self.terms.tm(e.contents),
                    encode::contents_tm(
                        self.terms,
                        arrays,
                        arrays.len(),
                        r,
                        encode::unknown_contents(at),
                    ),
                ));
                assert(self.terms.tm(length) == on_side(
                    c,
                    yes,
                    self.terms.tm(e.length),
                    encode::length_tm(
                        self.terms,
                        arrays,
                        arrays.len(),
                        r,
                        encode::unknown_length(to),
                    ),
                ));
                assert(guards(self.terms, c, yes, arrays, e, entry));
            }
            self.st.array_map.push(entry);
            proof {
                reveal(State::fits);
                let now = self.st.array_map@;
                assert(state::arrays_in(self.terms, arrays));
                assert forall|j: int| base.len() <= j < now.len() implies guards(
                    self.terms,
                    c,
                    yes,
                    now.take(j),
                    from@[k + j - base.len()],
                    #[trigger] now[j],
                ) by {
                    assert(now.take(j) =~= arrays.take(j));
                    if j < arrays.len() {
                        assert(now[j] == arrays[j]);
                        assert(before.terms.has(arrays[j].reference));
                        let f = from@[k + j - base.len()];
                        assert(t0.has(f.reference));
                        assert forall|l: int| 0 <= l < j implies before.terms.has(
                            (#[trigger] arrays.take(j)[l]).reference,
                        ) && before.terms.has(arrays.take(j)[l].contents) && before.terms.has(
                            arrays.take(j)[l].length,
                        ) by {
                            assert(arrays.take(j)[l] == arrays[l]);
                        }
                        lemma_guards_kept(
                            self.terms,
                            before.terms,
                            c,
                            yes,
                            arrays.take(j),
                            f,
                            arrays[j],
                        );
                    } else {
                        assert(arrays.take(j) =~= arrays);
                    }
                }
            }
            i += 1;
        }
    }
}

fn copy_arrays(arrays: &Vec<ArrayEntry>) -> (r: Vec<ArrayEntry>)
    ensures
        r@ == arrays@,
{
    let mut r: Vec<ArrayEntry> = Vec::new();
    let mut i: usize = 0;
    while i < arrays.len()
        invariant
            i <= arrays@.len(),
            r@ == arrays@.take(i as int),
        decreases arrays@.len() - i,
    {
        r.push(arrays[i]);
        proof {
            assert(arrays@.take(i + 1) =~= arrays@.take(i as int).push(arrays@[i as int]));
        }
        i += 1;
    }
    proof {
        assert(arrays@.take(i as int) =~= arrays@);
    }
    r
}

impl State {
    /// The two states hold the same.
    pub open spec fn alike(self, other: State) -> bool {
        &&& self.vars@ == other.vars@
        &&& self.str_vars@ == other.str_vars@
        &&& self.var_widths@ == other.var_widths@
        &&& self.tainted@ == other.tainted@
        &&& self.float_tainted@ == other.float_tainted@
        &&& self.path_tainted == other.path_tainted
        &&& self.statics.agrees(other.statics)
        &&& self.static_str.agrees(other.static_str)
        &&& self.static_tainted.agrees(other.static_tainted)
        &&& self.field_arrays.agrees(other.field_arrays)
        &&& self.field_str.agrees(other.field_str)
        &&& self.field_tainted.agrees(other.field_tainted)
        &&& self.array_map@ == other.array_map@
        &&& self.type_array == other.type_array
        &&& self.nondet_terms@ == other.nondet_terms@
        &&& self.loop_visits.agrees(other.loop_visits)
    }

    /// What holds the same fits the same.
    pub proof fn lemma_alike_fits(self, other: State, n: nat, ts: Terms)
        requires
            other.fits(n, ts),
            self.alike(other),
        ensures
            self.fits(n, ts),
    {
        reveal(State::fits);
        assert forall|k: FieldKeyV| ts.has_opt(#[trigger] self.statics.at(k)) by {
            assert(ts.has_opt(other.statics.at(k)));
        }
        assert forall|k: FieldKeyV| ts.has_opt(#[trigger] self.static_str.at(k)) by {
            assert(ts.has_opt(other.static_str.at(k)));
        }
        assert forall|k: FieldKeyV| ts.has_opt(#[trigger] self.field_arrays.at(k)) by {
            assert(ts.has_opt(other.field_arrays.at(k)));
        }
        assert forall|k: FieldKeyV| ts.has_opt(#[trigger] self.field_str.at(k)) by {
            assert(ts.has_opt(other.field_str.at(k)));
        }
    }

    /// A copy of the state.
    pub fn save_state(&self) -> (r: State)
        ensures
            r.alike(*self),
    {
        State {
            vars: copy_items(&self.vars),
            str_vars: copy_items(&self.str_vars),
            var_widths: copy_items(&self.var_widths),
            tainted: copy_items(&self.tainted),
            float_tainted: copy_items(&self.float_tainted),
            path_tainted: self.path_tainted,
            statics: self.statics.copy(),
            static_str: self.static_str.copy(),
            static_tainted: self.static_tainted.copy(),
            field_arrays: self.field_arrays.copy(),
            field_str: self.field_str.copy(),
            field_tainted: self.field_tainted.copy(),
            array_map: copy_arrays(&self.array_map),
            type_array: self.type_array,
            nondet_terms: copy_items(&self.nondet_terms),
            loop_visits: self.loop_visits.copy(),
        }
    }
}

/// A copy of a list.
pub fn copy_items<T: Copy>(v: &Vec<T>) -> (r: Vec<T>)
    ensures
        r@ == v@,
{
    let mut r: Vec<T> = Vec::new();
    let mut i: usize = 0;
    while i < v.len()
        invariant
            i <= v@.len(),
            r@ == v@.take(i as int),
        decreases v@.len() - i,
    {
        r.push(v[i]);
        proof {
            assert(v@.take(i + 1) =~= v@.take(i as int).push(v@[i as int]));
        }
        i += 1;
    }
    proof {
        assert(v@.take(i as int) =~= v@);
    }
    r
}

/// The state `r` after a branch on `cond` whose sides ended in `a` and `b`, where
/// `base` is the state before the branch.
pub open spec fn branch_joined(ts: Terms, cond: Tm, base: State, a: State, b: State, r: State) -> bool {
    let n = base.vars@.len() as int;
    &&& r.vars@.len() == n && r.str_vars@.len() == n && r.var_widths@.len() == n
        && r.tainted@.len() == n && r.float_tainted@.len() == n
    &&& forall|i: int|
        0 <= i < n ==> joins(
            ts,
            cond,
            or_else(a.vars@[i], base.vars@[i]),
            or_else(b.vars@[i], base.vars@[i]),
            #[trigger] r.vars@[i],
        )
    &&& forall|i: int|
        0 <= i < n ==> #[trigger] r.var_widths@[i] == or_else(
            or_else(a.var_widths@[i], b.var_widths@[i]),
            base.var_widths@[i],
        )
    &&& forall|i: int|
        0 <= i < n ==> joins_both(ts, cond, a.str_vars@[i], b.str_vars@[i], #[trigger] r.str_vars@[i])
    &&& forall|i: int| 0 <= i < n ==> #[trigger] r.tainted@[i] == (a.tainted@[i] || b.tainted@[i])
    &&& forall|i: int|
        0 <= i < n ==> #[trigger] r.float_tainted@[i] == (a.float_tainted@[i]
            || b.float_tainted@[i])
    &&& r.path_tainted == (a.path_tainted || b.path_tainted)
    &&& map_joins(ts, cond, base.statics, a.statics, b.statics, r.statics)
    &&& map_joins(ts, cond, base.field_arrays, a.field_arrays, b.field_arrays, r.field_arrays)
    &&& map_joined_only(ts, cond, a.static_str, b.static_str, r.static_str)
    &&& map_joined_only(ts, cond, a.field_str, b.field_str, r.field_str)
    &&& set_joins(a.static_tainted, b.static_tainted, r.static_tainted)
    &&& set_joins(a.field_tainted, b.field_tainted, r.field_tainted)
    &&& arrays_joined(ts, cond, base.array_map@, a.array_map@, b.array_map@, r.array_map@)
    &&& joins(ts, cond, Some(a.type_array), Some(b.type_array), Some(r.type_array))
    &&& r.nondet_terms == base.nondet_terms
    &&& r.loop_visits == base.loop_visits
}

/// Every key joined, with nothing where neither side has a value.
pub open spec fn map_joined_only(
    ts: Terms,
    cond: Tm,
    a: Assoc<FieldKey, Term>,
    b: Assoc<FieldKey, Term>,
    r: Assoc<FieldKey, Term>,
) -> bool {
    forall|k: FieldKeyV| joins(ts, cond, a.at(k), b.at(k), #[trigger] r.at(k))
}

/// A map of joins stays one when more terms are built.
proof fn lemma_map_kept(
    after: Terms,
    before: Terms,
    cond: Tm,
    base: Assoc<FieldKey, Term>,
    a: Assoc<FieldKey, Term>,
    b: Assoc<FieldKey, Term>,
    r: Assoc<FieldKey, Term>,
)
    requires
        after.built_from(before),
        state::assoc_in(before, a),
        state::assoc_in(before, b),
        state::assoc_in(before, r),
        map_joins(before, cond, base, a, b, r),
    ensures
        map_joins(after, cond, base, a, b, r),
        state::assoc_in(after, r),
{
    assert forall|k: FieldKeyV|
        #![trigger r.at(k)]
        if a.at(k) is None && b.at(k) is None {
            r.at(k) == base.at(k)
        } else {
            joins(after, cond, a.at(k), b.at(k), r.at(k))
        } by {
        assert(before.has_opt(a.at(k)));
        assert(before.has_opt(b.at(k)));
        assert(before.has_opt(r.at(k)));
        if !(a.at(k) is None && b.at(k) is None) {
            lemma_joins_kept(after, before, cond, a.at(k), b.at(k), r.at(k));
        }
    }
    assert forall|k: FieldKeyV| after.has_opt(#[trigger] r.at(k)) by {
        assert(before.has_opt(r.at(k)));
    }
}

/// Joining onto nothing.
proof fn lemma_only(
    ts: Terms,
    cond: Tm,
    base: Assoc<FieldKey, Term>,
    a: Assoc<FieldKey, Term>,
    b: Assoc<FieldKey, Term>,
    r: Assoc<FieldKey, Term>,
)
    requires
        map_joins(ts, cond, base, a, b, r),
        forall|k: FieldKeyV| #[trigger] base.at(k) is None,
    ensures
        map_joined_only(ts, cond, a, b, r),
{
    assert forall|k: FieldKeyV| joins(ts, cond, a.at(k), b.at(k), #[trigger] r.at(k)) by {
        assert(base.at(k) is None);
    }
}

/// Join lists of values position by position, each side falling back to `base`.
fn join_vars(
    ts: &mut Terms,
    cond: Term,
    base: &Vec<Option<Term>>,
    a: &Vec<Option<Term>>,
    b: &Vec<Option<Term>>,
) -> (r: Vec<Option<Term>>)
    requires
        old(ts).well_formed(),
        old(ts).has(cond),
        state::vars_in(*old(ts), base@),
        state::vars_in(*old(ts), a@),
        state::vars_in(*old(ts), b@),
        a@.len() == base@.len(),
        b@.len() == base@.len(),
    ensures
        final(ts).built_from(*old(ts)),
        state::vars_in(*final(ts), r@),
        r@.len() == base@.len(),
        forall|i: int|
            0 <= i < base@.len() ==> joins(
                *final(ts),
                old(ts).tm(cond),
                or_else(a@[i], base@[i]),
                or_else(b@[i], base@[i]),
                #[trigger] r@[i],
            ),
{
    let ghost c = old(ts).tm(cond);
    let mut r: Vec<Option<Term>> = Vec::new();
    let mut i: usize = 0;
    while i < base.len()
        invariant
            i <= base@.len(),
            r@.len() == i,
            a@.len() == base@.len(),
            b@.len() == base@.len(),
            ts.built_from(*old(ts)),
            old(ts).has(cond),
            c == old(ts).tm(cond),
            state::vars_in(*old(ts), base@),
            state::vars_in(*old(ts), a@),
            state::vars_in(*old(ts), b@),
            state::vars_in(*ts, r@),
            forall|j: int|
                0 <= j < i ==> joins(
                    *ts,
                    c,
                    or_else(a@[j], base@[j]),
                    or_else(b@[j], base@[j]),
                    #[trigger] r@[j],
                ),
        decreases base@.len() - i,
    {
        let ghost before = *ts;
        let ghost done = r@;
        proof {
            assert(old(ts).has_opt(a@[i as int]));
            assert(old(ts).has_opt(b@[i as int]));
            assert(old(ts).has_opt(base@[i as int]));
        }
        let x = first_of(a[i], base[i]);
        let y = first_of(b[i], base[i]);
        let j = join_terms(ts, cond, x, y);
        r.push(j);
        proof {
            assert forall|k: int| 0 <= k < r@.len() implies ts.has_opt(#[trigger] r@[k]) by {
                if k < i {
                    assert(before.has_opt(done[k]));
                }
            }
            assert forall|k: int| 0 <= k < i + 1 implies joins(
                *ts,
                c,
                or_else(a@[k], base@[k]),
                or_else(b@[k], base@[k]),
                #[trigger] r@[k],
            ) by {
                if k < i {
                    assert(old(ts).has_opt(a@[k]));
                    assert(old(ts).has_opt(b@[k]));
                    assert(old(ts).has_opt(base@[k]));
                    assert(before.has_opt(done[k]));
                    assert(r@[k] == done[k]);
                    lemma_joins_kept(
                        *ts,
                        before,
                        c,
                        or_else(a@[k], base@[k]),
                        or_else(b@[k], base@[k]),
                        done[k],
                    );
                }
            }
        }
        i += 1;
    }
    r
}

/// Join the contents of strings that both sides know.
fn join_texts(ts: &mut Terms, cond: Term, a: &Vec<Option<Term>>, b: &Vec<Option<Term>>) -> (r: Vec<
    Option<Term>,
>)
    requires
        old(ts).well_formed(),
        old(ts).has(cond),
        state::vars_in(*old(ts), a@),
        state::vars_in(*old(ts), b@),
        a@.len() == b@.len(),
    ensures
        final(ts).built_from(*old(ts)),
        state::vars_in(*final(ts), r@),
        r@.len() == a@.len(),
        forall|i: int|
            0 <= i < a@.len() ==> joins_both(
                *final(ts),
                old(ts).tm(cond),
                a@[i],
                b@[i],
                #[trigger] r@[i],
            ),
{
    let ghost c = old(ts).tm(cond);
    let mut r: Vec<Option<Term>> = Vec::new();
    let mut i: usize = 0;
    while i < a.len()
        invariant
            i <= a@.len(),
            r@.len() == i,
            a@.len() == b@.len(),
            ts.built_from(*old(ts)),
            old(ts).has(cond),
            c == old(ts).tm(cond),
            state::vars_in(*old(ts), a@),
            state::vars_in(*old(ts), b@),
            state::vars_in(*ts, r@),
            forall|j: int| 0 <= j < i ==> joins_both(*ts, c, a@[j], b@[j], #[trigger] r@[j]),
        decreases a@.len() - i,
    {
        let ghost before = *ts;
        let ghost done = r@;
        proof {
            assert(old(ts).has_opt(a@[i as int]));
            assert(old(ts).has_opt(b@[i as int]));
        }
        let j = if a[i].is_some() && b[i].is_some() {
            join_terms(ts, cond, a[i], b[i])
        } else {
            None
        };
        r.push(j);
        proof {
            assert forall|k: int| 0 <= k < r@.len() implies ts.has_opt(#[trigger] r@[k]) by {
                if k < i {
                    assert(before.has_opt(done[k]));
                }
            }
            assert forall|k: int| 0 <= k < i + 1 implies joins_both(
                *ts,
                c,
                a@[k],
                b@[k],
                #[trigger] r@[k],
            ) by {
                if k < i {
                    assert(old(ts).has_opt(a@[k]));
                    assert(old(ts).has_opt(b@[k]));
                    assert(before.has_opt(done[k]));
                    assert(r@[k] == done[k]);
                    if a@[k] is Some && b@[k] is Some {
                        lemma_joins_kept(*ts, before, c, a@[k], b@[k], done[k]);
                    }
                }
            }
        }
        i += 1;
    }
    r
}

fn join_flags(a: &Vec<bool>, b: &Vec<bool>) -> (r: Vec<bool>)
    requires
        a@.len() == b@.len(),
    ensures
        r@.len() == a@.len(),
        forall|i: int| 0 <= i < a@.len() ==> #[trigger] r@[i] == (a@[i] || b@[i]),
{
    let mut r: Vec<bool> = Vec::new();
    let mut i: usize = 0;
    while i < a.len()
        invariant
            i <= a@.len(),
            a@.len() == b@.len(),
            r@.len() == i,
            forall|j: int| 0 <= j < i ==> #[trigger] r@[j] == (a@[j] || b@[j]),
        decreases a@.len() - i,
    {
        r.push(a[i] || b[i]);
        i += 1;
    }
    r
}

fn join_widths(a: &Vec<Option<u32>>, b: &Vec<Option<u32>>, base: &Vec<Option<u32>>) -> (r: Vec<
    Option<u32>,
>)
    requires
        a@.len() == b@.len(),
        a@.len() == base@.len(),
    ensures
        r@.len() == a@.len(),
        forall|i: int|
            0 <= i < a@.len() ==> #[trigger] r@[i] == or_else(or_else(a@[i], b@[i]), base@[i]),
{
    let mut r: Vec<Option<u32>> = Vec::new();
    let mut i: usize = 0;
    while i < a.len()
        invariant
            i <= a@.len(),
            a@.len() == b@.len(),
            a@.len() == base@.len(),
            r@.len() == i,
            forall|j: int|
                0 <= j < i ==> #[trigger] r@[j] == or_else(or_else(a@[j], b@[j]), base@[j]),
        decreases a@.len() - i,
    {
        let w = match a[i] {
            Some(w) => Some(w),
            None => match b[i] {
                Some(w) => Some(w),
                None => base[i],
            },
        };
        r.push(w);
        i += 1;
    }
    r
}

/// Joined positions of two lists, each falling back to `base`.
pub open spec fn list_joins(
    ts: Terms,
    cond: Tm,
    base: Seq<Option<Term>>,
    a: Seq<Option<Term>>,
    b: Seq<Option<Term>>,
    r: Seq<Option<Term>>,
) -> bool {
    forall|i: int|
        0 <= i < r.len() ==> joins(
            ts,
            cond,
            or_else(a[i], base[i]),
            or_else(b[i], base[i]),
            #[trigger] r[i],
        )
}

proof fn lemma_list_kept(
    after: Terms,
    before: Terms,
    cond: Tm,
    base: Seq<Option<Term>>,
    a: Seq<Option<Term>>,
    b: Seq<Option<Term>>,
    r: Seq<Option<Term>>,
)
    requires
        after.built_from(before),
        base.len() == r.len(),
        a.len() == r.len(),
        b.len() == r.len(),
        state::vars_in(before, base),
        state::vars_in(before, a),
        state::vars_in(before, b),
        state::vars_in(before, r),
        list_joins(before, cond, base, a, b, r),
    ensures
        list_joins(after, cond, base, a, b, r),
        state::vars_in(after, r),
{
    assert forall|i: int| 0 <= i < r.len() implies joins(
        after,
        cond,
        or_else(a[i], base[i]),
        or_else(b[i], base[i]),
        #[trigger] r[i],
    ) by {
        assert(before.has_opt(a[i]));
        assert(before.has_opt(b[i]));
        assert(before.has_opt(base[i]));
        assert(before.has_opt(r[i]));
        lemma_joins_kept(
            after,
            before,
            cond,
            or_else(a[i], base[i]),
            or_else(b[i], base[i]),
            r[i],
        );
    }
    assert forall|i: int| 0 <= i < r.len() implies after.has_opt(#[trigger] r[i]) by {
        assert(before.has_opt(r[i]));
    }
}

proof fn lemma_texts_kept(
    after: Terms,
    before: Terms,
    cond: Tm,
    a: Seq<Option<Term>>,
    b: Seq<Option<Term>>,
    r: Seq<Option<Term>>,
)
    requires
        after.built_from(before),
        a.len() == r.len(),
        b.len() == r.len(),
        state::vars_in(before, a),
        state::vars_in(before, b),
        state::vars_in(before, r),
        forall|i: int| 0 <= i < r.len() ==> joins_both(before, cond, a[i], b[i], #[trigger] r[i]),
    ensures
        forall|i: int| 0 <= i < r.len() ==> joins_both(after, cond, a[i], b[i], #[trigger] r[i]),
        state::vars_in(after, r),
{
    assert forall|i: int| 0 <= i < r.len() implies joins_both(
        after,
        cond,
        a[i],
        b[i],
        #[trigger] r[i],
    ) by {
        assert(before.has_opt(a[i]));
        assert(before.has_opt(b[i]));
        assert(before.has_opt(r[i]));
        if a[i] is Some && b[i] is Some {
            lemma_joins_kept(after, before, cond, a[i], b[i], r[i]);
        }
    }
    assert forall|i: int| 0 <= i < r.len() implies after.has_opt(#[trigger] r[i]) by {
        assert(before.has_opt(r[i]));
    }
}

/// The maps of a state, joined on one store.
struct JoinedMaps {
    statics: Assoc<FieldKey, Term>,
    field_arrays: Assoc<FieldKey, Term>,
    static_str: Assoc<FieldKey, Term>,
    field_str: Assoc<FieldKey, Term>,
    type_array: Term,
}

fn join_all_maps(ts: &mut Terms, cond: Term, base: &State, a: &State, b: &State, n: Ghost<nat>) -> (r:
    JoinedMaps)
    requires
        old(ts).well_formed(),
        old(ts).has(cond),
        base.fits(n@, *old(ts)),
        a.fits(n@, *old(ts)),
        b.fits(n@, *old(ts)),
    ensures
        final(ts).built_from(*old(ts)),
        final(ts).has(r.type_array),
        state::assoc_in(*final(ts), r.statics),
        state::assoc_in(*final(ts), r.field_arrays),
        state::assoc_in(*final(ts), r.static_str),
        state::assoc_in(*final(ts), r.field_str),
        ({
            let c = old(ts).tm(cond);
            &&& map_joins(*final(ts), c, base.statics, a.statics, b.statics, r.statics)
            &&& map_joins(
                *final(ts),
                c,
                base.field_arrays,
                a.field_arrays,
                b.field_arrays,
                r.field_arrays,
            )
            &&& map_joined_only(*final(ts), c, a.static_str, b.static_str, r.static_str)
            &&& map_joined_only(*final(ts), c, a.field_str, b.field_str, r.field_str)
            &&& joins(
                *final(ts),
                c,
                Some(a.type_array),
                Some(b.type_array),
                Some(r.type_array),
            )
        }),
{
    let ghost t0 = *ts;
    let ghost c = t0.tm(cond);
    proof {
        base.lemma_fits(n@, t0);
        a.lemma_fits(n@, t0);
        b.lemma_fits(n@, t0);
    }
    let base_statics = base.statics.copy();
    let base_fields = base.field_arrays.copy();
    proof {
        assert forall|k: FieldKeyV| t0.has_opt(#[trigger] base_statics.at(k)) by {
            assert(t0.has_opt(base.statics.at(k)));
        }
    }
    let ghost copied_statics = base_statics;
    let ghost copied_fields = base_fields;
    let statics = join_maps(ts, cond, base_statics, &a.statics, &b.statics);
    let ghost t1 = *ts;
    proof {
        a.lemma_fits_grown(n@, t0, t1);
        b.lemma_fits_grown(n@, t0, t1);
        a.lemma_fits(n@, t1);
        b.lemma_fits(n@, t1);
        assert forall|k: FieldKeyV| t1.has_opt(#[trigger] base_fields.at(k)) by {
            assert(t0.has_opt(base.field_arrays.at(k)));
        }
    }
    let field_arrays = join_maps(ts, cond, base_fields, &a.field_arrays, &b.field_arrays);
    let ghost t2 = *ts;
    proof {
        a.lemma_fits_grown(n@, t1, t2);
        b.lemma_fits_grown(n@, t1, t2);
        a.lemma_fits(n@, t2);
        b.lemma_fits(n@, t2);
    }
    let none1: Assoc<FieldKey, Term> = Assoc::new();
    let ghost empty1 = none1;
    let static_str = join_maps(ts, cond, none1, &a.static_str, &b.static_str);
    let ghost t3 = *ts;
    proof {
        a.lemma_fits_grown(n@, t2, t3);
        b.lemma_fits_grown(n@, t2, t3);
        a.lemma_fits(n@, t3);
        b.lemma_fits(n@, t3);
    }
    let none2: Assoc<FieldKey, Term> = Assoc::new();
    let ghost empty2 = none2;
    let field_str = join_maps(ts, cond, none2, &a.field_str, &b.field_str);
    let ghost t4 = *ts;
    let type_array = if a.type_array != b.type_array {
        ts.ite(cond, a.type_array, b.type_array)
    } else {
        a.type_array
    };
    proof {
        lemma_map_kept(*ts, t1, c, copied_statics, a.statics, b.statics, statics);
        assert(map_joins(*ts, c, base.statics, a.statics, b.statics, statics)) by {
            assert forall|k: FieldKeyV|
                #![trigger statics.at(k)]
                if a.statics.at(k) is None && b.statics.at(k) is None {
                    statics.at(k) == base.statics.at(k)
                } else {
                    joins(*ts, c, a.statics.at(k), b.statics.at(k), statics.at(k))
                } by {
                assert(copied_statics.at(k) == base.statics.at(k));
            }
        }
        lemma_map_kept(*ts, t2, c, copied_fields, a.field_arrays, b.field_arrays, field_arrays);
        assert(map_joins(
            *ts,
            c,
            base.field_arrays,
            a.field_arrays,
            b.field_arrays,
            field_arrays,
        )) by {
            assert forall|k: FieldKeyV|
                #![trigger field_arrays.at(k)]
                if a.field_arrays.at(k) is None && b.field_arrays.at(k) is None {
                    field_arrays.at(k) == base.field_arrays.at(k)
                } else {
                    joins(*ts, c, a.field_arrays.at(k), b.field_arrays.at(k), field_arrays.at(k))
                } by {
                assert(copied_fields.at(k) == base.field_arrays.at(k));
            }
        }
        lemma_map_kept(*ts, t3, c, empty1, a.static_str, b.static_str, static_str);
        lemma_only(*ts, c, empty1, a.static_str, b.static_str, static_str);
        lemma_map_kept(*ts, t4, c, empty2, a.field_str, b.field_str, field_str);
        lemma_only(*ts, c, empty2, a.field_str, b.field_str, field_str);
    }
    JoinedMaps { statics, field_arrays, static_str, field_str, type_array }
}

impl<'a> Encoder<'a> {
    /// Join the two sides of a branch. The current state is that before the
    /// branch: what one side did not touch keeps its value from there.
    pub fn merge_states_ite(&mut self, cond: Term, a: &State, b: &State)
        requires
            old(self).ok(),
            old(self).terms.has(cond),
            a.fits(old(self).body.vars@.len(), old(self).terms),
            b.fits(old(self).body.vars@.len(), old(self).terms),
        ensures
            final(self).ok(),
            final(self).same_frame(*old(self)),
            final(self).terms.built_from(old(self).terms),
            branch_joined(
                final(self).terms,
                old(self).terms.tm(cond),
                old(self).st,
                *a,
                *b,
                final(self).st,
            ),
    {
        let ghost n = self.body.vars@.len();
        let ghost c = self.terms.tm(cond);
        let ghost ta = self.terms;
        proof {
            self.st.lemma_fits(n, ta);
            a.lemma_fits(n, ta);
            b.lemma_fits(n, ta);
        }
        let k = self.st.array_map.len();
        self.add_entries(cond, true, &a.array_map, k);
        let ghost tb = self.terms;
        let ghost mid = self.st.array_map@;
        proof {
            a.lemma_fits_grown(n, ta, tb);
            b.lemma_fits_grown(n, ta, tb);
            a.lemma_fits(n, tb);
            b.lemma_fits(n, tb);
            self.st.lemma_fits(n, tb);
        }
        self.add_entries(cond, false, &b.array_map, k);
        let ghost t0 = self.terms;
        let ghost arrays = self.st.array_map@;
        proof {
            lemma_added_kept(t0, tb, c, true, old(self).st.array_map@, a.array_map@, k as int, mid);
            assert(arrays.take(mid.len() as int) =~= mid);
            a.lemma_fits_grown(n, tb, t0);
            b.lemma_fits_grown(n, tb, t0);
            self.st.lemma_fits(n, t0);
            a.lemma_fits(n, t0);
            b.lemma_fits(n, t0);
        }
        let vars = join_vars(&mut self.terms, cond, &self.st.vars, &a.vars, &b.vars);
        let ghost t1 = self.terms;
        proof {
            self.st.lemma_fits_grown(n, t0, t1);
            a.lemma_fits_grown(n, t0, t1);
            b.lemma_fits_grown(n, t0, t1);
            a.lemma_fits(n, t1);
            b.lemma_fits(n, t1);
        }
        let texts = join_texts(&mut self.terms, cond, &a.str_vars, &b.str_vars);
        let ghost t2 = self.terms;
        proof {
            self.st.lemma_fits_grown(n, t1, t2);
            a.lemma_fits_grown(n, t1, t2);
            b.lemma_fits_grown(n, t1, t2);
        }
        let maps = join_all_maps(&mut self.terms, cond, &self.st, a, b, Ghost(n));
        let widths = join_widths(&a.var_widths, &b.var_widths, &self.st.var_widths);
        let tainted = join_flags(&a.tainted, &b.tainted);
        let float_tainted = join_flags(&a.float_tainted, &b.float_tainted);
        let static_tainted = join_sets(&a.static_tainted, &b.static_tainted);
        let field_tainted = join_sets(&a.field_tainted, &b.field_tainted);
        proof {
            assert(list_joins(t1, c, self.st.vars@, a.vars@, b.vars@, vars@));
            self.st.lemma_fits(n, t1);
            lemma_list_kept(self.terms, t1, c, self.st.vars@, a.vars@, b.vars@, vars@);
            a.lemma_fits(n, t2);
            b.lemma_fits(n, t2);
            lemma_texts_kept(self.terms, t2, c, a.str_vars@, b.str_vars@, texts@);
            a.lemma_fits_grown(n, t2, self.terms);
            b.lemma_fits_grown(n, t2, self.terms);
            self.st.lemma_fits_grown(n, t2, self.terms);
            a.lemma_fits(n, self.terms);
            b.lemma_fits(n, self.terms);
            self.st.lemma_fits(n, self.terms);
            assert forall|i: int| 0 <= i < mid.len() implies t0.has((#[trigger] mid[i]).reference)
                && t0.has(mid[i].contents) && t0.has(mid[i].length) by {
                assert(mid[i] == arrays[i]);
            }
            lemma_added_kept(
                self.terms,
                t0,
                c,
                true,
                old(self).st.array_map@,
                a.array_map@,
                k as int,
                mid,
            );
            lemma_added_kept(self.terms, t0, c, false, mid, b.array_map@, k as int, arrays);
        }
        self.st.vars = vars;
        self.st.str_vars = texts;
        self.st.var_widths = widths;
        self.st.tainted = tainted;
        self.st.float_tainted = float_tainted;
        self.st.path_tainted = a.path_tainted || b.path_tainted;
        self.st.statics = maps.statics;
        self.st.static_str = maps.static_str;
        self.st.static_tainted = static_tainted;
        self.st.field_arrays = maps.field_arrays;
        self.st.field_str = maps.field_str;
        self.st.field_tainted = field_tainted;
        self.st.type_array = maps.type_array;
        proof {
            reveal(State::fits);
            let base = old(self).st;
            assert forall|i: int| 0 <= i < n implies joins(
                self.terms,
                c,
                or_else(a.vars@[i], base.vars@[i]),
                or_else(b.vars@[i], base.vars@[i]),
                #[trigger] self.st.vars@[i],
            ) by {
                assert(joins(
                    self.terms,
                    c,
                    or_else(a.vars@[i], base.vars@[i]),
                    or_else(b.vars@[i], base.vars@[i]),
                    vars@[i],
                ));
            }
        }
    }
}

/// The values under `cond` of `case`, else of `acc`; a side without a value falls
/// back to `base`, unless both have none.
pub open spec fn case_value(
    ts: Terms,
    cond: Tm,
    base: Option<Term>,
    case: Option<Term>,
    acc: Option<Term>,
    r: Option<Term>,
) -> bool {
    if case is None && acc is None {
        r is None
    } else {
        joins(ts, cond, or_else(case, base), or_else(acc, base), r)
    }
}

/// The content of a string that both know is joined; else it is that of `acc`.
pub open spec fn case_text(
    ts: Terms,
    cond: Tm,
    case: Option<Term>,
    acc: Option<Term>,
    r: Option<Term>,
) -> bool {
    if case is Some && acc is Some {
        joins(ts, cond, case, acc, r)
    } else {
        r == acc
    }
}

/// The state `r` that joins one more case into `acc`, where `base` is the state
/// before the branch.
pub open spec fn case_joined(ts: Terms, cond: Tm, base: State, acc: State, case: State, r: State) -> bool {
    let n = acc.vars@.len() as int;
    &&& r.vars@.len() == n && r.str_vars@.len() == n && r.var_widths@.len() == n
        && r.tainted@.len() == n && r.float_tainted@.len() == n
    &&& forall|i: int|
        0 <= i < n ==> case_value(
            ts,
            cond,
            base.vars@[i],
            case.vars@[i],
            acc.vars@[i],
            #[trigger] r.vars@[i],
        )
    &&& forall|i: int|
        0 <= i < n ==> #[trigger] r.var_widths@[i] == or_else(
            acc.var_widths@[i],
            case.var_widths@[i],
        )
    &&& forall|i: int|
        0 <= i < n ==> case_text(
            ts,
            cond,
            case.str_vars@[i],
            acc.str_vars@[i],
            #[trigger] r.str_vars@[i],
        )
    &&& forall|i: int|
        0 <= i < n ==> #[trigger] r.tainted@[i] == (acc.tainted@[i] || case.tainted@[i])
    &&& forall|i: int|
        0 <= i < n ==> #[trigger] r.float_tainted@[i] == (acc.float_tainted@[i]
            || case.float_tainted@[i])
    &&& r.path_tainted == (acc.path_tainted || case.path_tainted)
    &&& map_joined_only(ts, cond, case.statics, acc.statics, r.statics)
    &&& map_joined_only(ts, cond, case.field_arrays, acc.field_arrays, r.field_arrays)
    &&& map_joined_only(ts, cond, case.static_str, acc.static_str, r.static_str)
    &&& map_joined_only(ts, cond, case.field_str, acc.field_str, r.field_str)
    &&& set_joins(acc.static_tainted, case.static_tainted, r.static_tainted)
    &&& set_joins(acc.field_tainted, case.field_tainted, r.field_tainted)
    &&& entries_added(
        ts,
        cond,
        true,
        acc.array_map@,
        case.array_map@,
        base.array_map@.len() as int,
        r.array_map@,
    )
    &&& joins(ts, cond, Some(case.type_array), Some(acc.type_array), Some(r.type_array))
    &&& r.nondet_terms@ == acc.nondet_terms@
    &&& r.loop_visits.agrees(acc.loop_visits)
}

/// Keep only the positions where one of the two lists has a value.
fn keep_touched(v: &Vec<Option<Term>>, a: &Vec<Option<Term>>, b: &Vec<Option<Term>>) -> (r: Vec<
    Option<Term>,
>)
    requires
        a@.len() == v@.len(),
        b@.len() == v@.len(),
    ensures
        r@.len() == v@.len(),
        forall|i: int|
            0 <= i < v@.len() ==> #[trigger] r@[i] == if a@[i] is None && b@[i] is None {
                None
            } else {
                v@[i]
            },
{
    let mut r: Vec<Option<Term>> = Vec::new();
    let mut i: usize = 0;
    while i < v.len()
        invariant
            i <= v@.len(),
            a@.len() == v@.len(),
            b@.len() == v@.len(),
            r@.len() == i,
            forall|j: int|
                0 <= j < i ==> #[trigger] r@[j] == if a@[j] is None && b@[j] is None {
                    None
                } else {
                    v@[j]
                },
        decreases v@.len() - i,
    {
        if a[i].is_none() && b[i].is_none() {
            r.push(None);
        } else {
            r.push(v[i]);
        }
        i += 1;
    }
    r
}

/// Fill the positions where one of the lists has no value from `acc`.
fn fill_texts(v: &Vec<Option<Term>>, case: &Vec<Option<Term>>, acc: &Vec<Option<Term>>) -> (r: Vec<
    Option<Term>,
>)
    requires
        case@.len() == v@.len(),
        acc@.len() == v@.len(),
    ensures
        r@.len() == v@.len(),
        forall|i: int|
            0 <= i < v@.len() ==> #[trigger] r@[i] == if case@[i] is Some && acc@[i] is Some {
                v@[i]
            } else {
                acc@[i]
            },
{
    let mut r: Vec<Option<Term>> = Vec::new();
    let mut i: usize = 0;
    while i < v.len()
        invariant
            i <= v@.len(),
            case@.len() == v@.len(),
            acc@.len() == v@.len(),
            r@.len() == i,
            forall|j: int|
                0 <= j < i ==> #[trigger] r@[j] == if case@[j] is Some && acc@[j] is Some {
                    v@[j]
                } else {
                    acc@[j]
                },
        decreases v@.len() - i,
    {
        if case[i].is_some() && acc[i].is_some() {
            r.push(v[i]);
        } else {
            r.push(acc[i]);
        }
        i += 1;
    }
    r
}

/// Joining onto the second side.
proof fn lemma_onto_second(
    ts: Terms,
    cond: Tm,
    a: Assoc<FieldKey, Term>,
    b: Assoc<FieldKey, Term>,
    r: Assoc<FieldKey, Term>,
)
    requires
        map_joins(ts, cond, b, a, b, r),
    ensures
        map_joined_only(ts, cond, a, b, r),
{
    assert forall|k: FieldKeyV| joins(ts, cond, a.at(k), b.at(k), #[trigger] r.at(k)) by {}
}

impl<'a> Encoder<'a> {
    /// Join one more case into the accumulated state of a branch.
    pub fn merge_saved_into(&mut self, acc: State, cond: Term, case: &State) -> (r: State)
        requires
            old(self).ok(),
            old(self).terms.has(cond),
            acc.fits(old(self).body.vars@.len(), old(self).terms),
            case.fits(old(self).body.vars@.len(), old(self).terms),
        ensures
            final(self).ok(),
            *final(self) == (Encoder { terms: final(self).terms, ..*old(self) }),
            final(self).terms.built_from(old(self).terms),
            r.fits(old(self).body.vars@.len(), final(self).terms),
            case_joined(
                final(self).terms,
                old(self).terms.tm(cond),
                old(self).st,
                acc,
                *case,
                r,
            ),
    {
        let ghost n = self.body.vars@.len();
        let ghost ta = self.terms;
        let ghost c = ta.tm(cond);
        proof {
            self.st.lemma_fits(n, ta);
            acc.lemma_fits(n, ta);
            case.lemma_fits(n, ta);
        }
        let k = self.st.array_map.len();
        let mut arrays = copy_arrays(&acc.array_map);
        std::mem::swap(&mut self.st.array_map, &mut arrays);
        proof {
            reveal(State::fits);
        }
        self.add_entries(cond, true, &case.array_map, k);
        std::mem::swap(&mut self.st.array_map, &mut arrays);
        let ghost t0 = self.terms;
        proof {
            assert(state::arrays_in(t0, arrays@));
            old(self).st.lemma_fits_grown(n, ta, t0);
            assert(self.st == old(self).st);
            acc.lemma_fits_grown(n, ta, t0);
            case.lemma_fits_grown(n, ta, t0);
            self.st.lemma_fits(n, t0);
            acc.lemma_fits(n, t0);
            case.lemma_fits(n, t0);
        }
        let joined = join_vars(&mut self.terms, cond, &self.st.vars, &case.vars, &acc.vars);
        let vars = keep_touched(&joined, &case.vars, &acc.vars);
        let ghost t1 = self.terms;
        proof {
            acc.lemma_fits_grown(n, t0, t1);
            case.lemma_fits_grown(n, t0, t1);
            self.st.lemma_fits_grown(n, t0, t1);
            acc.lemma_fits(n, t1);
            case.lemma_fits(n, t1);
            self.st.lemma_fits(n, t1);
        }
        let both = join_texts(&mut self.terms, cond, &case.str_vars, &acc.str_vars);
        let texts = fill_texts(&both, &case.str_vars, &acc.str_vars);
        let ghost t2 = self.terms;
        proof {
            acc.lemma_fits_grown(n, t1, t2);
            case.lemma_fits_grown(n, t1, t2);
            acc.lemma_fits(n, t2);
            case.lemma_fits(n, t2);
        }
        let maps = join_all_maps(&mut self.terms, cond, &acc, case, &acc, Ghost(n));
        let widths = join_widths(&acc.var_widths, &case.var_widths, &acc.var_widths);
        let tainted = join_flags(&acc.tainted, &case.tainted);
        let float_tainted = join_flags(&acc.float_tainted, &case.float_tainted);
        let static_tainted = join_sets(&acc.static_tainted, &case.static_tainted);
        let field_tainted = join_sets(&acc.field_tainted, &case.field_tainted);
        let nondet_terms = copy_items(&acc.nondet_terms);
        let loop_visits = acc.loop_visits.copy();
        proof {
            assert(list_joins(t1, c, self.st.vars@, case.vars@, acc.vars@, joined@));
            lemma_list_kept(self.terms, t1, c, self.st.vars@, case.vars@, acc.vars@, joined@);
            lemma_texts_kept(self.terms, t2, c, case.str_vars@, acc.str_vars@, both@);
            acc.lemma_fits_grown(n, t2, self.terms);
            case.lemma_fits_grown(n, t2, self.terms);
            self.st.lemma_fits_grown(n, t1, self.terms);
            acc.lemma_fits(n, self.terms);
            case.lemma_fits(n, self.terms);
            lemma_added_kept(
                self.terms,
                t0,
                c,
                true,
                acc.array_map@,
                case.array_map@,
                k as int,
                arrays@,
            );
            lemma_onto_second(self.terms, c, case.statics, acc.statics, maps.statics);
            lemma_onto_second(self.terms, c, case.field_arrays, acc.field_arrays, maps.field_arrays);
        }
        let r = State {
            vars,
            str_vars: texts,
            var_widths: widths,
            tainted,
            float_tainted,
            path_tainted: acc.path_tainted || case.path_tainted,
            statics: maps.statics,
            static_str: maps.static_str,
            static_tainted,
            field_arrays: maps.field_arrays,
            field_str: maps.field_str,
            field_tainted,
            array_map: arrays,
            type_array: maps.type_array,
            nondet_terms,
            loop_visits,
        };
        proof {
            reveal(State::fits);
            assert forall|i: int| 0 <= i < n implies self.terms.has_opt(#[trigger] r.vars@[i]) by {
                assert(self.terms.has_opt(joined@[i]));
            }
            assert forall|i: int| 0 <= i < n implies self.terms.has_opt(#[trigger] r.str_vars@[i]) by {
                assert(self.terms.has_opt(both@[i]));
                assert(self.terms.has_opt(acc.str_vars@[i]));
            }
            assert forall|i: int| 0 <= i < n implies case_value(
                self.terms,
                c,
                self.st.vars@[i],
                case.vars@[i],
                acc.vars@[i],
                #[trigger] r.vars@[i],
            ) by {
                assert(joins(
                    self.terms,
                    c,
                    or_else(case.vars@[i], self.st.vars@[i]),
                    or_else(acc.vars@[i], self.st.vars@[i]),
                    joined@[i],
                ));
            }
            assert forall|i: int| 0 <= i < n implies case_text(
                self.terms,
                c,
                case.str_vars@[i],
                acc.str_vars@[i],
                #[trigger] r.str_vars@[i],
            ) by {
                assert(joins_both(
                    self.terms,
                    c,
                    case.str_vars@[i],
                    acc.str_vars@[i],
                    both@[i],
                ));
            }
        }
        r
    }

    /// Make a joined state the current one. Inputs and loop counts stay as they
    /// are.
    pub fn apply_merged_state(&mut self, s: State)
        requires
            old(self).ok(),
            s.fits(old(self).body.vars@.len(), old(self).terms),
        ensures
            final(self).ok(),
            *final(self) == (Encoder {
                st: State {
                    nondet_terms: old(self).st.nondet_terms,
                    loop_visits: old(self).st.loop_visits,
                    ..s
                },
                ..*old(self)
            }),
    {
        self.st.vars = s.vars;
        self.st.str_vars = s.str_vars;
        self.st.var_widths = s.var_widths;
        self.st.tainted = s.tainted;
        self.st.float_tainted = s.float_tainted;
        self.st.path_tainted = s.path_tainted;
        self.st.statics = s.statics;
        self.st.static_str = s.static_str;
        self.st.static_tainted = s.static_tainted;
        self.st.field_arrays = s.field_arrays;
        self.st.field_str = s.field_str;
        self.st.field_tainted = s.field_tainted;
        self.st.array_map = s.array_map;
        self.st.type_array = s.type_array;
        proof {
            reveal(State::fits);
        }
    }

    /// Take over the inputs that the two sides of a branch met.
    pub fn collect_nondets_binary(&mut self, a: &State, b: &State)
        requires
            old(self).ok(),
            a.fits(old(self).body.vars@.len(), old(self).terms),
            b.fits(old(self).body.vars@.len(), old(self).terms),
            old(self).st.nondet_terms@.len() <= a.nondet_terms@.len(),
            old(self).st.nondet_terms@.len() <= b.nondet_terms@.len(),
        ensures
            final(self).ok(),
            *final(self) == (Encoder {
                st: State { nondet_terms: final(self).st.nondet_terms, ..old(self).st },
                ..*old(self)
            }),
            ({
                let n = old(self).st.nondet_terms@.len() as int;
                final(self).st.nondet_terms@ == old(self).st.nondet_terms@ + a.nondet_terms@.skip(n)
                    + b.nondet_terms@.skip(n)
            }),
    {
        let n = self.st.nondet_terms.len();
        let mut list = copy_items(&self.st.nondet_terms);
        push_tail(&mut list, &a.nondet_terms, n);
        push_tail(&mut list, &b.nondet_terms, n);
        self.st.nondet_terms = list;
        proof {
            reveal(State::fits);
        }
    }

    /// Take over the inputs that the cases of a branch met, each position once.
    pub fn collect_nondets_dedup(&mut self, states: &Vec<State>)
        requires
            old(self).ok(),
            forall|i: int|
                0 <= i < states@.len() ==> {
                    &&& (#[trigger] states@[i]).fits(
                        old(self).body.vars@.len(),
                        old(self).terms,
                    )
                    &&& old(self).st.nondet_terms@.len() <= states@[i].nondet_terms@.len()
                },
        ensures
            final(self).ok(),
            *final(self) == (Encoder {
                st: State { nondet_terms: final(self).st.nondet_terms, ..old(self).st },
                ..*old(self)
            }),
            final(self).st.nondet_terms@ == case_inputs(
                old(self).st.nondet_terms@,
                states@,
                states@.len(),
            ),
    {
        let n = self.st.nondet_terms.len();
        let mut list = copy_items(&self.st.nondet_terms);
        let ghost base = list@;
        proof {
            self.st.lemma_fits(self.body.vars@.len(), self.terms);
        }
        let mut i: usize = 0;
        while i < states.len()
            invariant
                *self == *old(self),
                i <= states@.len(),
                n == base.len(),
                base == old(self).st.nondet_terms@,
                state::nondets_in(self.terms, list@),
                forall|j: int|
                    0 <= j < states@.len() ==> {
                        &&& (#[trigger] states@[j]).fits(
                            old(self).body.vars@.len(),
                            old(self).terms,
                        )
                        &&& n <= states@[j].nondet_terms@.len()
                    },
                list@ == case_inputs(base, states@, i as nat),
            decreases states@.len() - i,
        {
            proof {
                states@[i as int].lemma_fits(self.body.vars@.len(), self.terms);
            }
            let ghost start = list@;
            let from = &states[i].nondet_terms;
            let mut j: usize = n;
            while j < from.len()
                invariant
                    n <= j <= from@.len(),
                    state::nondets_in(self.terms, from@),
                    state::nondets_in(self.terms, list@),
                    list@ == new_inputs(start, from@, n as int, j as int),
                decreases from@.len() - j,
            {
                let nd = from[j];
                if !knows_input(&list, nd.idx) {
                    list.push(nd);
                }
                j += 1;
            }
            i += 1;
        }
        self.st.nondet_terms = list;
        proof {
            reveal(State::fits);
        }
    }
}

/// Is there an input at the position?
pub open spec fn has_input(list: Seq<NondetTerm>, idx: usize) -> bool {
    exists|i: int| 0 <= i < list.len() && (#[trigger] list[i]).idx == idx
}

fn knows_input(list: &Vec<NondetTerm>, idx: usize) -> (r: bool)
    ensures
        r == has_input(list@, idx),
{
    let mut i: usize = 0;
    while i < list.len()
        invariant
            i <= list@.len(),
            forall|j: int| 0 <= j < i ==> (#[trigger] list@[j]).idx != idx,
        decreases list@.len() - i,
    {
        if list[i].idx == idx {
            return true;
        }
        i += 1;
    }
    false
}

/// The inputs of `from` between two positions, added where there is none yet.
pub open spec fn new_inputs(base: Seq<NondetTerm>, from: Seq<NondetTerm>, lo: int, hi: int) -> Seq<
    NondetTerm,
>
    decreases hi - lo,
{
    if hi <= lo {
        base
    } else {
        let before = new_inputs(base, from, lo, hi - 1);
        if has_input(before, from[hi - 1].idx) {
            before
        } else {
            before.push(from[hi - 1])
        }
    }
}

/// The inputs that the first `n` cases met after those of `base`, each position
/// once.
pub open spec fn case_inputs(base: Seq<NondetTerm>, states: Seq<State>, n: nat) -> Seq<NondetTerm>
    decreases n,
{
    if n == 0 {
        base
    } else {
        let from = states[n - 1].nondet_terms@;
        new_inputs(
            case_inputs(base, states, (n - 1) as nat),
            from,
            base.len() as int,
            from.len() as int,
        )
    }
}

/// Append the inputs of a list from a position on.
pub fn push_tail(list: &mut Vec<NondetTerm>, from: &Vec<NondetTerm>, n: usize)
    requires
        n <= from@.len(),
    ensures
        final(list)@ == old(list)@ + from@.skip(n as int),
{
    let mut i: usize = n;
    while i < from.len()
        invariant
            n <= i <= from@.len(),
            list@ == old(list)@ + from@.subrange(n as int, i as int),
        decreases from@.len() - i,
    {
        list.push(from[i]);
        proof {
            assert(from@.subrange(n as int, i + 1) =~= from@.subrange(n as int, i as int).push(
                from@[i as int],
            ));
            assert(list@ =~= old(list)@ + from@.subrange(n as int, i + 1));
        }
        i += 1;
    }
    proof {
        assert(from@.subrange(n as int, i as int) =~= from@.skip(n as int));
    }
}

proof fn lemma_new_inputs_extend(base: Seq<NondetTerm>, from: Seq<NondetTerm>, lo: int, hi: int)
    ensures
        base.len() <= new_inputs(base, from, lo, hi).len(),
        new_inputs(base, from, lo, hi).take(base.len() as int) == base,
    decreases hi - lo,
{
    if hi <= lo {
        assert(base.take(base.len() as int) =~= base);
    } else {
        lemma_new_inputs_extend(base, from, lo, hi - 1);
        let before = new_inputs(base, from, lo, hi - 1);
        assert(before.push(from[hi - 1]).take(base.len() as int) =~= before.take(base.len() as int));
    }
}

/// Taking over inputs keeps those that were there.
pub proof fn lemma_case_inputs_extend(base: Seq<NondetTerm>, states: Seq<State>, n: nat)
    ensures
        base.len() <= case_inputs(base, states, n).len(),
        case_inputs(base, states, n).take(base.len() as int) == base,
    decreases n,
{
    if n == 0 {
        assert(base.take(base.len() as int) =~= base);
    } else {
        lemma_case_inputs_extend(base, states, (n - 1) as nat);
        let before = case_inputs(base, states, (n - 1) as nat);
        let from = states[n - 1].nondet_terms@;
        lemma_new_inputs_extend(before, from, base.len() as int, from.len() as int);
        let all = case_inputs(base, states, n);
        assert(all.take(base.len() as int) =~= all.take(before.len() as int).take(
            base.len() as int,
        ));
    }
}

} // verus!
