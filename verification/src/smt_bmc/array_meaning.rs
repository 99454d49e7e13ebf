//! What the terms for arrays mean: reads give back what was written.

use vstd::prelude::*;

use super::encode;
use super::heap;
use super::state;
use super::state::{ArrayEntry, Encoder};
use super::wide;
use crate::concrete::value::Value;
use crate::ir::Operand;
use crate::term;
use crate::term::{Op1, Op2, Op3, Term, Terms, Tm};

verus! {

/// What the symbols stand for.
pub type Env = spec_fn(nat) -> i64;

/// The element at an index of the array that a reference stands for, by the entries.
pub open spec fn element(e: Encoder, r: Tm, i: Tm, base: Tm, env: Env) -> Value {
    let arrays = e.st.array_map@;
    wide::value_of(
        term::t2(Op2::Select, encode::contents_tm(e.terms, arrays, arrays.len(), r, base), i),
        env,
    )
}

/// The length of the array that a reference stands for, by the entries.
pub open spec fn length(e: Encoder, r: Tm, base: Tm, env: Env) -> Value {
    let arrays = e.st.array_map@;
    wide::value_of(encode::length_tm(e.terms, arrays, arrays.len(), r, base), env)
}

/// One of the first `n` entries is of the array that the reference stands for.
pub open spec fn known(ts: Terms, arrays: Seq<ArrayEntry>, n: nat, r: Tm, env: Env) -> bool {
    exists|k: int|
        0 <= k < n && wide::value_of(ts.tm((#[trigger] arrays[k]).reference), env) == wide::value_of(
            r,
            env,
        )
}

/// The numbers by which two references or indices are told apart.
pub open spec fn same(a: Tm, b: Tm, env: Env) -> bool {
    wide::value_of(a, env) == wide::value_of(b, env)
}

proof fn lemma_choice(c: Tm, a: Tm, b: Tm, env: Env, k: i32)
    ensures
        wide::element_of(term::tm_ite(c, a, b), env, k) == if wide::truth_of(c, env) {
            wide::element_of(a, env, k)
        } else {
            wide::element_of(b, env, k)
        },
        wide::value_of(term::tm_ite(c, a, b), env) == if wide::truth_of(c, env) {
            wide::value_of(a, env)
        } else {
            wide::value_of(b, env)
        },
        wide::truth_of(term::tm_eq(a, b), env) == same(a, b, env),
{
    reveal_with_fuel(wide::value_of, 2);
    reveal_with_fuel(wide::element_of, 2);
    reveal_with_fuel(wide::truth_of, 2);
}

proof fn lemma_select(a: Tm, i: Tm, env: Env)
    ensures
        wide::value_of(term::t2(Op2::Select, a, i), env) == wide::element_of(
            a,
            env,
            wide::value_of(i, env).number() as i32,
        ),
{
    reveal_with_fuel(wide::value_of, 2);
    reveal_with_fuel(wide::element_of, 2);
    reveal_with_fuel(wide::truth_of, 2);
}

proof fn lemma_store(a: Tm, i: Tm, x: Tm, env: Env, k: i32)
    ensures
        wide::element_of(term::t3(Op3::Store, a, i, x), env, k) == if wide::value_of(i, env).number() as i32
            == k {
            wide::value_of(x, env)
        } else {
            wide::element_of(a, env, k)
        },
{
    reveal_with_fuel(wide::value_of, 2);
    reveal_with_fuel(wide::element_of, 2);
    reveal_with_fuel(wide::truth_of, 2);
}

proof fn lemma_filled(n: int, env: Env, k: i32)
    ensures
        wide::element_of(term::t1(Op1::ConstArray(32), term::bv32(n)), env, k) == Value::I32(n as i32),
{
    reveal_with_fuel(wide::value_of, 2);
    reveal_with_fuel(wide::element_of, 2);
}

/// Two references to one array have the same contents and length; with the same base, or
/// with any if the array is known.
proof fn lemma_same_reference(
    ts: Terms,
    us: Terms,
    arrays: Seq<ArrayEntry>,
    more: Seq<ArrayEntry>,
    n: nat,
    q: Tm,
    r: Tm,
    a: Tm,
    b: Tm,
    env: Env,
    k: i32,
)
    requires
        n <= arrays.len() <= more.len(),
        forall|i: int| 0 <= i < arrays.len() ==> arrays[i] == #[trigger] more[i],
        state::arrays_in(ts, arrays),
        us.built_from(ts),
        same(q, r, env),
        a == b || known(ts, arrays, n, r, env),
    ensures
        wide::element_of(encode::contents_tm(us, more, n, q, a), env, k) == wide::element_of(
            encode::contents_tm(ts, arrays, n, r, b),
            env,
            k,
        ),
    decreases n,
{
    if n > 0 {
        let m = (n - 1) as nat;
        let e = arrays[m as int];
        assert(more[m as int] == e);
        assert(us.tm(e.reference) == ts.tm(e.reference));
        assert(us.tm(e.contents) == ts.tm(e.contents));
        let t = ts.tm(e.reference);
        lemma_choice(
            term::tm_eq(q, t),
            us.tm(e.contents),
            encode::contents_tm(us, more, m, q, a),
            env,
            k,
        );
        lemma_choice(
            term::tm_eq(r, t),
            ts.tm(e.contents),
            encode::contents_tm(ts, arrays, m, r, b),
            env,
            k,
        );
        lemma_choice(q, q, t, env, k);
        lemma_choice(r, r, t, env, k);
        if !same(r, t, env) {
            lemma_same_reference(ts, us, arrays, more, m, q, r, a, b, env, k);
        }
    }
}

proof fn lemma_same_length(
    ts: Terms,
    us: Terms,
    arrays: Seq<ArrayEntry>,
    more: Seq<ArrayEntry>,
    n: nat,
    q: Tm,
    r: Tm,
    a: Tm,
    b: Tm,
    env: Env,
)
    requires
        n <= arrays.len() <= more.len(),
        forall|i: int| 0 <= i < arrays.len() ==> arrays[i] == #[trigger] more[i],
        state::arrays_in(ts, arrays),
        us.built_from(ts),
        same(q, r, env),
        a == b || known(ts, arrays, n, r, env),
    ensures
        wide::value_of(encode::length_tm(us, more, n, q, a), env) == wide::value_of(
            encode::length_tm(ts, arrays, n, r, b),
            env,
        ),
    decreases n,
{
    if n > 0 {
        let m = (n - 1) as nat;
        let e = arrays[m as int];
        assert(more[m as int] == e);
        assert(us.tm(e.reference) == ts.tm(e.reference));
        assert(us.tm(e.length) == ts.tm(e.length));
        let t = ts.tm(e.reference);
        lemma_choice(term::tm_eq(q, t), us.tm(e.length), encode::length_tm(us, more, m, q, a), env, 0);
        lemma_choice(
            term::tm_eq(r, t),
            ts.tm(e.length),
            encode::length_tm(ts, arrays, m, r, b),
            env,
            0,
        );
        lemma_choice(q, q, t, env, 0);
        lemma_choice(r, r, t, env, 0);
        if !same(r, t, env) {
            lemma_same_length(ts, us, arrays, more, m, q, r, a, b, env);
        }
    }
}

/// What is stored in an array is read back at that index, through whatever reference to the
/// array; its other elements, its length and all other arrays are as they were.
pub proof fn law_stored_elements_are_read_back(
    e: Encoder,
    old: Encoder,
    r: Term,
    idx: Term,
    val: Term,
    q: Tm,
    i: Tm,
    base: Tm,
    env: Env,
)
    requires
        old.ok(),
        old.terms.has(r),
        old.terms.has(idx),
        old.terms.has(val),
        heap::array_stored(e, old, r, idx, val),
    ensures
        ({
            let (tr, ti) = (old.terms.tm(r), old.terms.tm(idx));
            let at = |t: Tm| wide::value_of(t, env).number() as i32;
            let arrays = old.st.array_map@;
            let was = known(old.terms, arrays, arrays.len(), tr, env);
            &&& same(q, tr, env) && at(i) == at(ti) ==> element(e, q, i, base, env)
                == wide::value_of(old.terms.tm(val), env)
            &&& same(q, tr, env) && at(i) != at(ti) && was ==> element(e, q, i, base, env) == element(
                old,
                q,
                i,
                base,
                env,
            )
            &&& !same(q, tr, env) ==> element(e, q, i, base, env) == element(old, q, i, base, env)
            &&& !same(q, tr, env) || was ==> length(e, q, base, env) == length(old, q, base, env)
        }),
{
    old.st.lemma_fits(old.body.vars@.len(), old.terms);
    let arrays = old.st.array_map@;
    let now = e.st.array_map@;
    let entry = now.last();
    let n = arrays.len();
    let (tr, ti) = (old.terms.tm(r), old.terms.tm(idx));
    let k = wide::value_of(i, env).number() as i32;
    let unknown = encode::unknown_contents(old.terms.size());
    let before = encode::contents_tm(old.terms, arrays, n, tr, unknown);
    let stored = term::t3(Op3::Store, before, ti, old.terms.tm(val));
    let rest = encode::contents_tm(e.terms, now, n, q, base);
    assert(e.terms.tm(r) == tr);
    assert(encode::contents_tm(e.terms, now, n + 1, q, base) == term::tm_ite(
        term::tm_eq(q, tr),
        stored,
        rest,
    ));
    lemma_select(encode::contents_tm(e.terms, now, n + 1, q, base), i, env);
    lemma_select(encode::contents_tm(old.terms, arrays, n, q, base), i, env);
    lemma_choice(term::tm_eq(q, tr), stored, rest, env, k);
    lemma_choice(q, q, tr, env, k);
    lemma_store(before, ti, old.terms.tm(val), env, k);
    let was = known(old.terms, arrays, n, tr, env);
    lemma_same_reference(old.terms, e.terms, arrays, now, n, q, q, base, base, env, k);
    if same(q, tr, env) && was {
        lemma_same_reference(old.terms, old.terms, arrays, arrays, n, q, tr, base, unknown, env, k);
    }
    let at = choose|at: nat|
        at >= old.terms.size() && e.terms.tm(entry.length) == encode::length_tm(
            old.terms,
            arrays,
            n,
            tr,
            #[trigger] encode::unknown_length(at),
        );
    let len = encode::length_tm(old.terms, arrays, n, tr, encode::unknown_length(at));
    let others = encode::length_tm(e.terms, now, n, q, base);
    assert(encode::length_tm(e.terms, now, n + 1, q, base) == term::tm_ite(
        term::tm_eq(q, tr),
        len,
        others,
    ));
    lemma_choice(term::tm_eq(q, tr), len, others, env, k);
    lemma_same_length(old.terms, e.terms, arrays, now, n, q, q, base, base, env);
    if same(q, tr, env) && was {
        lemma_same_length(
            old.terms,
            old.terms,
            arrays,
            arrays,
            n,
            q,
            tr,
            base,
            encode::unknown_length(at),
            env,
        );
    }
}

/// A new array has the length that was asked for and holds zero everywhere; the arrays that
/// were there are as they were.
pub proof fn law_new_arrays_hold_zeros(
    e: Encoder,
    old: Encoder,
    len: Operand,
    t: Term,
    q: Tm,
    i: Tm,
    base: Tm,
    env: Env,
)
    requires
        old.ok(),
        heap::new_array_outcome(e, old, len, t),
    ensures
        ({
            let tr = e.terms.tm(t);
            &&& same(q, tr, env) ==> element(e, q, i, base, env) == Value::I32(0)
            &&& same(q, tr, env) ==> length(e, q, base, env) == wide::value_of(e.operand_tm(len), env)
            &&& !same(q, tr, env) ==> element(e, q, i, base, env) == element(old, q, i, base, env)
            &&& !same(q, tr, env) ==> length(e, q, base, env) == length(old, q, base, env)
        }),
{
    old.st.lemma_fits(old.body.vars@.len(), old.terms);
    let arrays = old.st.array_map@;
    let now = e.st.array_map@;
    let n = arrays.len();
    let tr = e.terms.tm(t);
    let k = wide::value_of(i, env).number() as i32;
    let zeros = term::t1(Op1::ConstArray(32), term::bv32(0));
    let rest = encode::contents_tm(e.terms, now, n, q, base);
    assert(encode::contents_tm(e.terms, now, n + 1, q, base) == term::tm_ite(
        term::tm_eq(q, tr),
        zeros,
        rest,
    ));
    lemma_select(encode::contents_tm(e.terms, now, n + 1, q, base), i, env);
    lemma_select(encode::contents_tm(old.terms, arrays, n, q, base), i, env);
    lemma_choice(term::tm_eq(q, tr), zeros, rest, env, k);
    lemma_choice(q, q, tr, env, k);
    lemma_filled(0, env, k);
    lemma_same_reference(old.terms, e.terms, arrays, now, n, q, q, base, base, env, k);
    let others = encode::length_tm(e.terms, now, n, q, base);
    assert(encode::length_tm(e.terms, now, n + 1, q, base) == term::tm_ite(
        term::tm_eq(q, tr),
        e.operand_tm(len),
        others,
    ));
    lemma_choice(term::tm_eq(q, tr), e.operand_tm(len), others, env, k);
    lemma_same_length(old.terms, e.terms, arrays, now, n, q, q, base, base, env);
}

} // verus!
