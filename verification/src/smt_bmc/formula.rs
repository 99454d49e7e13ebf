//! Bit-vector formulas for the arithmetic of `java.lang`.
//!
//! Every function builds one formula; its contract gives the formula as a tree
//! over the trees of its arguments.

use vstd::prelude::*;

use crate::term;
use crate::term::{Op1, Op2, Term, Terms, Tm};

verus! {

// ---------------------------------------------------------------------------
// Shorthands for trees
// ---------------------------------------------------------------------------

pub open spec fn plus(a: Tm, b: Tm) -> Tm {
    term::t2(Op2::BvAdd, a, b)
}

pub open spec fn minus(a: Tm, b: Tm) -> Tm {
    term::t2(Op2::BvSub, a, b)
}

pub open spec fn times(a: Tm, b: Tm) -> Tm {
    term::t2(Op2::BvMul, a, b)
}

pub open spec fn neg(a: Tm) -> Tm {
    term::t1(Op1::BvNeg, a)
}

pub open spec fn sdiv(a: Tm, b: Tm) -> Tm {
    term::t2(Op2::BvSdiv, a, b)
}

pub open spec fn srem(a: Tm, b: Tm) -> Tm {
    term::t2(Op2::BvSrem, a, b)
}

pub open spec fn band(a: Tm, b: Tm) -> Tm {
    term::t2(Op2::BvAnd, a, b)
}

pub open spec fn bor(a: Tm, b: Tm) -> Tm {
    term::t2(Op2::BvOr, a, b)
}

pub open spec fn bxor(a: Tm, b: Tm) -> Tm {
    term::t2(Op2::BvXor, a, b)
}

pub open spec fn shl(a: Tm, b: Tm) -> Tm {
    term::t2(Op2::BvShl, a, b)
}

pub open spec fn lshr(a: Tm, b: Tm) -> Tm {
    term::t2(Op2::BvLshr, a, b)
}

pub open spec fn slt(a: Tm, b: Tm) -> Tm {
    term::t2(Op2::BvSlt, a, b)
}

pub open spec fn sle(a: Tm, b: Tm) -> Tm {
    term::t2(Op2::BvSle, a, b)
}

pub open spec fn sgt(a: Tm, b: Tm) -> Tm {
    term::t2(Op2::BvSgt, a, b)
}

pub open spec fn sge(a: Tm, b: Tm) -> Tm {
    term::t2(Op2::BvSge, a, b)
}

pub open spec fn ult(a: Tm, b: Tm) -> Tm {
    term::t2(Op2::BvUlt, a, b)
}

pub open spec fn bits(a: Tm, hi: u32, lo: u32) -> Tm {
    term::t1(Op1::Extract(hi, lo), a)
}

pub open spec fn zext(a: Tm, n: u32) -> Tm {
    term::t1(Op1::ZeroExtend(n), a)
}

pub open spec fn sext(a: Tm, n: u32) -> Tm {
    term::t1(Op1::SignExtend(n), a)
}

pub open spec fn cat(a: Tm, b: Tm) -> Tm {
    term::t2(Op2::Concat, a, b)
}

/// 1 where `c` holds, else 0.
pub open spec fn flag_tm(c: Tm) -> Tm {
    term::tm_ite(c, term::bv32(1), term::bv32(0))
}

/// -1 where `lt` holds, else 0 where `eq` holds, else 1.
pub open spec fn three_way_tm(lt: Tm, eq: Tm) -> Tm {
    term::tm_ite(lt, term::bv32(-1), term::tm_ite(eq, term::bv32(0), term::bv32(1)))
}

/// `lo <= c <= hi` as signed 32-bit values.
pub open spec fn within(c: Tm, lo: int, hi: int) -> Tm {
    term::tm_and(sge(c, term::bv32(lo)), sle(c, term::bv32(hi)))
}

/// `c == n` as 32-bit values.
pub open spec fn is_code(c: Tm, n: int) -> Tm {
    term::tm_eq(c, term::bv32(n))
}

/// 1 where `c` holds, else 0.
pub fn flag(ts: &mut Terms, c: Term) -> (t: Term)
    requires
        old(ts).well_formed(),
        old(ts).has(c),
    ensures
        final(ts).built_from(*old(ts)),
        final(ts).has(t),
        final(ts).tm(t) == flag_tm(old(ts).tm(c)),
{
    let one = ts.bv_const(1, 32);
    let zero = ts.bv_const(0, 32);
    ts.ite(c, one, zero)
}

/// -1 where `lt` holds, else 0 where `eq` holds, else 1.
pub fn three_way(ts: &mut Terms, lt: Term, eq: Term) -> (t: Term)
    requires
        old(ts).well_formed(),
        old(ts).has(lt),
        old(ts).has(eq),
    ensures
        final(ts).built_from(*old(ts)),
        final(ts).has(t),
        final(ts).tm(t) == three_way_tm(old(ts).tm(lt), old(ts).tm(eq)),
{
    let one = ts.bv_const(1, 32);
    let mone = ts.bv_const(-1, 32);
    let zero = ts.bv_const(0, 32);
    let inner = ts.ite(eq, zero, one);
    ts.ite(lt, mone, inner)
}

/// `lo <= c <= hi`.
pub fn in_range(ts: &mut Terms, c: Term, lo: i64, hi: i64) -> (t: Term)
    requires
        old(ts).well_formed(),
        old(ts).has(c),
    ensures
        final(ts).built_from(*old(ts)),
        final(ts).has(t),
        final(ts).tm(t) == within(old(ts).tm(c), lo as int, hi as int),
{
    let l = ts.bv_const(lo, 32);
    let h = ts.bv_const(hi, 32);
    let ge = ts.app2(Op2::BvSge, c, l);
    let le = ts.app2(Op2::BvSle, c, h);
    ts.app2(Op2::And, ge, le)
}

/// `c == n`.
pub fn equals_code(ts: &mut Terms, c: Term, n: i64) -> (t: Term)
    requires
        old(ts).well_formed(),
        old(ts).has(c),
    ensures
        final(ts).built_from(*old(ts)),
        final(ts).has(t),
        final(ts).tm(t) == is_code(old(ts).tm(c), n as int),
{
    let k = ts.bv_const(n, 32);
    ts.equal(c, k)
}

// ---------------------------------------------------------------------------
// Integer arithmetic
// ---------------------------------------------------------------------------

/// The absolute value, which wraps at the least value of the width.
pub open spec fn abs_tm(w: u32, a: Tm) -> Tm {
    term::tm_ite(slt(a, Tm::Bv(0, w)), neg(a), a)
}

pub fn abs(ts: &mut Terms, w: u32, a: Term) -> (t: Term)
    requires
        old(ts).well_formed(),
        old(ts).has(a),
    ensures
        final(ts).built_from(*old(ts)),
        final(ts).has(t),
        final(ts).tm(t) == abs_tm(w, old(ts).tm(a)),
{
    let zero = ts.bv_const(0, w);
    let n = ts.app1(Op1::BvNeg, a);
    let is_neg = ts.app2(Op2::BvSlt, a, zero);
    ts.ite(is_neg, n, a)
}

/// There is a remainder and the signs of the operands differ: the truncated
/// quotient then lies one above the floor.
pub open spec fn floor_adjusts(w: u32, a: Tm, b: Tm) -> Tm {
    term::tm_and(
        term::tm_not(term::tm_eq(srem(a, b), Tm::Bv(0, w))),
        slt(bxor(a, b), Tm::Bv(0, w)),
    )
}

/// Division that rounds toward negative infinity.
pub open spec fn floor_div_tm(w: u32, a: Tm, b: Tm) -> Tm {
    term::tm_ite(floor_adjusts(w, a, b), minus(sdiv(a, b), Tm::Bv(1, w)), sdiv(a, b))
}

/// The remainder that goes with [`floor_div_tm`].
pub open spec fn floor_mod_tm(w: u32, a: Tm, b: Tm) -> Tm {
    term::tm_ite(floor_adjusts(w, a, b), plus(srem(a, b), b), srem(a, b))
}

fn floor_adjustment(ts: &mut Terms, w: u32, a: Term, b: Term, r: Term) -> (t: Term)
    requires
        old(ts).well_formed(),
        old(ts).has(a),
        old(ts).has(b),
        old(ts).has(r),
        old(ts).tm(r) == srem(old(ts).tm(a), old(ts).tm(b)),
    ensures
        final(ts).built_from(*old(ts)),
        final(ts).has(t),
        final(ts).tm(t) == floor_adjusts(w, old(ts).tm(a), old(ts).tm(b)),
{
    let zero = ts.bv_const(0, w);
    let no_rem = ts.equal(r, zero);
    let has_rem = ts.not(no_rem);
    let axb = ts.app2(Op2::BvXor, a, b);
    let signs_differ = ts.app2(Op2::BvSlt, axb, zero);
    ts.app2(Op2::And, has_rem, signs_differ)
}

pub fn floor_div(ts: &mut Terms, w: u32, a: Term, b: Term) -> (t: Term)
    requires
        old(ts).well_formed(),
        old(ts).has(a),
        old(ts).has(b),
    ensures
        final(ts).built_from(*old(ts)),
        final(ts).has(t),
        final(ts).tm(t) == floor_div_tm(w, old(ts).tm(a), old(ts).tm(b)),
{
    let q = ts.app2(Op2::BvSdiv, a, b);
    let r = ts.app2(Op2::BvSrem, a, b);
    let adjust = floor_adjustment(ts, w, a, b, r);
    let one = ts.bv_const(1, w);
    let lower = ts.app2(Op2::BvSub, q, one);
    ts.ite(adjust, lower, q)
}

pub fn floor_mod(ts: &mut Terms, w: u32, a: Term, b: Term) -> (t: Term)
    requires
        old(ts).well_formed(),
        old(ts).has(a),
        old(ts).has(b),
    ensures
        final(ts).built_from(*old(ts)),
        final(ts).has(t),
        final(ts).tm(t) == floor_mod_tm(w, old(ts).tm(a), old(ts).tm(b)),
{
    let r = ts.app2(Op2::BvSrem, a, b);
    let adjust = floor_adjustment(ts, w, a, b, r);
    let raised = ts.app2(Op2::BvAdd, r, b);
    ts.ite(adjust, raised, r)
}

/// The sign of a value as a 32-bit -1, 0 or 1.
pub open spec fn signum_tm(w: u32, a: Tm) -> Tm {
    three_way_tm(slt(a, Tm::Bv(0, w)), term::tm_eq(a, Tm::Bv(0, w)))
}

pub fn signum(ts: &mut Terms, w: u32, a: Term) -> (t: Term)
    requires
        old(ts).well_formed(),
        old(ts).has(a),
    ensures
        final(ts).built_from(*old(ts)),
        final(ts).has(t),
        final(ts).tm(t) == signum_tm(w, old(ts).tm(a)),
{
    let zero = ts.bv_const(0, w);
    let is_neg = ts.app2(Op2::BvSlt, a, zero);
    let is_zero = ts.equal(a, zero);
    three_way(ts, is_neg, is_zero)
}

/// Three-way comparison by the given strict order.
pub open spec fn compare_tm(less: Op2, a: Tm, b: Tm) -> Tm {
    three_way_tm(term::t2(less, a, b), term::tm_eq(a, b))
}

pub fn compare(ts: &mut Terms, less: Op2, a: Term, b: Term) -> (t: Term)
    requires
        old(ts).well_formed(),
        old(ts).has(a),
        old(ts).has(b),
    ensures
        final(ts).built_from(*old(ts)),
        final(ts).has(t),
        final(ts).tm(t) == compare_tm(less, old(ts).tm(a), old(ts).tm(b)),
{
    let lt = ts.app2(less, a, b);
    let eq = ts.equal(a, b);
    three_way(ts, lt, eq)
}

/// The smaller (by `BvSlt`) or the larger (by `BvSgt`) of two values.
pub open spec fn select_tm(better: Op2, a: Tm, b: Tm) -> Tm {
    term::tm_ite(term::t2(better, a, b), a, b)
}

pub fn select(ts: &mut Terms, better: Op2, a: Term, b: Term) -> (t: Term)
    requires
        old(ts).well_formed(),
        old(ts).has(a),
        old(ts).has(b),
    ensures
        final(ts).built_from(*old(ts)),
        final(ts).has(t),
        final(ts).tm(t) == select_tm(better, old(ts).tm(a), old(ts).tm(b)),
{
    let c = ts.app2(better, a, b);
    ts.ite(c, a, b)
}

/// The two halves of a 64-bit value, combined by exclusive or.
pub open spec fn fold_long_tm(a: Tm) -> Tm {
    bits(bxor(a, lshr(a, Tm::Bv(32, 64))), 31, 0)
}

pub fn fold_long(ts: &mut Terms, a: Term) -> (t: Term)
    requires
        old(ts).well_formed(),
        old(ts).has(a),
    ensures
        final(ts).built_from(*old(ts)),
        final(ts).has(t),
        final(ts).tm(t) == fold_long_tm(old(ts).tm(a)),
{
    let c32 = ts.bv_const(32, 64);
    let shifted = ts.app2(Op2::BvLshr, a, c32);
    let x = ts.app2(Op2::BvXor, a, shifted);
    ts.app1(Op1::Extract(31, 0), x)
}

// ---------------------------------------------------------------------------
// Bit manipulation
// ---------------------------------------------------------------------------

/// The `w` single bits of `a`, lowest first.
pub open spec fn bit_list(a: Tm, w: nat) -> Seq<Tm> {
    Seq::new(w, |i: int| bits(a, i as u32, i as u32))
}

fn make_bit_list(ts: &mut Terms, a: Term, w: u32) -> (v: Vec<Term>)
    requires
        old(ts).well_formed(),
        old(ts).has(a),
    ensures
        final(ts).built_from(*old(ts)),
        v@.len() == w,
        forall|i: int| 0 <= i < v@.len() ==> final(ts).has(#[trigger] v@[i]),
        forall|i: int|
            0 <= i < v@.len() ==> final(ts).tm(#[trigger] v@[i]) == bit_list(
                old(ts).tm(a),
                w as nat,
            )[i],
{
    let mut v: Vec<Term> = Vec::new();
    let mut i: u32 = 0;
    while i < w
        invariant
            i <= w,
            v@.len() == i,
            ts.built_from(*old(ts)),
            old(ts).has(a),
            forall|j: int| 0 <= j < v@.len() ==> ts.has(#[trigger] v@[j]),
            forall|j: int|
                0 <= j < v@.len() ==> ts.tm(#[trigger] v@[j]) == bits(
                    old(ts).tm(a),
                    j as u32,
                    j as u32,
                ),
        decreases w - i,
    {
        let ghost before = *ts;
        let b = ts.app1(Op1::Extract(i, i), a);
        v.push(b);
        proof {
            assert(before.tm(a) == old(ts).tm(a));
            assert forall|j: int| 0 <= j < v@.len() implies ts.tm(#[trigger] v@[j]) == bits(
                old(ts).tm(a),
                j as u32,
                j as u32,
            ) by {
                if j < v@.len() - 1 {
                    assert(before.has(v@[j]));
                }
            }
        }
        i += 1;
    }
    v
}

/// One round of pairwise addition, each partner widened by one bit.
pub open spec fn add_pairs(nodes: Seq<Tm>) -> Seq<Tm> {
    Seq::new(
        (nodes.len() + 1) / 2,
        |i: int|
            if 2 * i + 1 < nodes.len() {
                plus(zext(nodes[2 * i], 1), zext(nodes[2 * i + 1], 1))
            } else {
                zext(nodes[2 * i], 1)
            },
    )
}

/// Pairwise addition until one number is left.
pub open spec fn add_all(nodes: Seq<Tm>) -> Tm
    decreases nodes.len(),
{
    if nodes.len() <= 1 {
        nodes[0]
    } else {
        add_all(add_pairs(nodes))
    }
}

/// How many rounds of pairing reduce `n` numbers to one.
pub open spec fn rounds(n: nat) -> nat
    decreases n,
{
    if n <= 1 {
        0
    } else {
        1 + rounds((n + 1) / 2)
    }
}

/// The number of one bits, as a 32-bit value.
pub open spec fn bit_count_tm(w: u32, a: Tm) -> Tm {
    zext(add_all(bit_list(a, w as nat)), (31 - rounds(w as nat)) as u32)
}

/// One round of pairwise concatenation, the first partner on top.
pub open spec fn cat_pairs(nodes: Seq<Tm>) -> Seq<Tm> {
    Seq::new(
        (nodes.len() + 1) / 2,
        |i: int|
            if 2 * i + 1 < nodes.len() {
                cat(nodes[2 * i], nodes[2 * i + 1])
            } else {
                nodes[2 * i]
            },
    )
}

/// Pairwise concatenation until one value is left.
pub open spec fn cat_all(nodes: Seq<Tm>) -> Tm
    decreases nodes.len(),
{
    if nodes.len() <= 1 {
        nodes[0]
    } else {
        cat_all(cat_pairs(nodes))
    }
}

/// The bits of `a` in reverse order.
pub open spec fn reverse_tm(w: u32, a: Tm) -> Tm {
    cat_all(bit_list(a, w as nat))
}

/// The trees of a list of handles.
pub open spec fn trees(ts: Terms, v: Seq<Term>) -> Seq<Tm> {
    v.map_values(|t: Term| ts.tm(t))
}

fn pair_round(ts: &mut Terms, nodes: &Vec<Term>, adding: bool) -> (next: Vec<Term>)
    requires
        old(ts).well_formed(),
        nodes@.len() >= 1,
        nodes@.len() < usize::MAX,
        forall|i: int| 0 <= i < nodes@.len() ==> old(ts).has(#[trigger] nodes@[i]),
    ensures
        final(ts).built_from(*old(ts)),
        next@.len() == (nodes@.len() + 1) / 2,
        forall|i: int| 0 <= i < next@.len() ==> final(ts).has(#[trigger] next@[i]),
        trees(*final(ts), next@) == if adding {
            add_pairs(trees(*old(ts), nodes@))
        } else {
            cat_pairs(trees(*old(ts), nodes@))
        },
{
    let mut next: Vec<Term> = Vec::new();
    let mut i: usize = 0;
    let ghost goal = if adding {
        add_pairs(trees(*old(ts), nodes@))
    } else {
        cat_pairs(trees(*old(ts), nodes@))
    };
    while i < nodes.len()
        invariant
            i <= nodes.len() + 1,
            nodes.len() < usize::MAX,
            i % 2 == 0,
            i < nodes.len() ==> next@.len() == i / 2,
            i >= nodes.len() ==> next@.len() == (nodes@.len() + 1) / 2,
            ts.built_from(*old(ts)),
            forall|j: int| 0 <= j < nodes@.len() ==> old(ts).has(#[trigger] nodes@[j]),
            forall|j: int| 0 <= j < next@.len() ==> ts.has(#[trigger] next@[j]),
            forall|j: int| 0 <= j < next@.len() ==> ts.tm(#[trigger] next@[j]) == goal[j],
            goal == (if adding {
                add_pairs(trees(*old(ts), nodes@))
            } else {
                cat_pairs(trees(*old(ts), nodes@))
            }),
        decreases nodes.len() + 1 - i,
    {
        let ghost before = *ts;
        let ghost done = next@;
        proof {
            assert(before.has(nodes@[i as int]));
            assert(before.tm(nodes@[i as int]) == trees(*old(ts), nodes@)[i as int]);
            if i + 1 < nodes.len() {
                assert(before.has(nodes@[i + 1]));
                assert(before.tm(nodes@[i + 1]) == trees(*old(ts), nodes@)[i + 1]);
            }
        }
        if i + 1 < nodes.len() {
            if adding {
                let l = ts.app1(Op1::ZeroExtend(1), nodes[i]);
                let r = ts.app1(Op1::ZeroExtend(1), nodes[i + 1]);
                let s = ts.app2(Op2::BvAdd, l, r);
                next.push(s);
            } else {
                let s = ts.app2(Op2::Concat, nodes[i], nodes[i + 1]);
                next.push(s);
            }
        } else {
            if adding {
                let s = ts.app1(Op1::ZeroExtend(1), nodes[i]);
                next.push(s);
            } else {
                next.push(nodes[i]);
            }
        }
        proof {
            assert(ts.tm(next@[done.len() as int]) == goal[done.len() as int]);
            assert forall|j: int| 0 <= j < next@.len() implies ts.tm(#[trigger] next@[j]) == goal[j] by {
                if j < done.len() {
                    assert(done[j] == next@[j]);
                    assert(before.has(done[j]));
                }
            }
            assert forall|j: int| 0 <= j < next@.len() implies ts.has(#[trigger] next@[j]) by {
                if j < done.len() {
                    assert(done[j] == next@[j]);
                    assert(before.has(done[j]));
                }
            }
        }
        i += 2;
    }
    proof {
        assert(trees(*ts, next@) =~= goal);
    }
    next
}

proof fn lemma_rounds_32_64()
    ensures
        rounds(32) == 5,
        rounds(64) == 6,
{
    reveal_with_fuel(rounds, 8);
}

pub fn bit_count(ts: &mut Terms, w: u32, a: Term) -> (t: Term)
    requires
        old(ts).well_formed(),
        old(ts).has(a),
        w == 32 || w == 64,
    ensures
        final(ts).built_from(*old(ts)),
        final(ts).has(t),
        final(ts).tm(t) == bit_count_tm(w, old(ts).tm(a)),
{
    let mut nodes = make_bit_list(ts, a, w);
    let ghost all = bit_list(old(ts).tm(a), w as nat);
    proof {
        assert(trees(*ts, nodes@) =~= all);
        lemma_rounds_32_64();
    }
    let mut width: u32 = 1;
    while nodes.len() > 1
        invariant
            nodes@.len() >= 1,
            nodes@.len() <= 64,
            ts.built_from(*old(ts)),
            forall|i: int| 0 <= i < nodes@.len() ==> ts.has(#[trigger] nodes@[i]),
            add_all(trees(*ts, nodes@)) == add_all(all),
            width + rounds(nodes@.len()) == 1 + rounds(w as nat),
            rounds(w as nat) <= 6,
        decreases nodes@.len(),
    {
        nodes = pair_round(ts, &nodes, true);
        width += 1;
    }
    let count = nodes[0];
    proof {
        assert(trees(*ts, nodes@)[0] == ts.tm(count));
    }
    ts.app1(Op1::ZeroExtend(32 - width), count)
}

pub fn reverse(ts: &mut Terms, w: u32, a: Term) -> (t: Term)
    requires
        old(ts).well_formed(),
        old(ts).has(a),
        w == 32 || w == 64,
    ensures
        final(ts).built_from(*old(ts)),
        final(ts).has(t),
        final(ts).tm(t) == reverse_tm(w, old(ts).tm(a)),
{
    let mut nodes = make_bit_list(ts, a, w);
    let ghost all = bit_list(old(ts).tm(a), w as nat);
    proof {
        assert(trees(*ts, nodes@) =~= all);
    }
    while nodes.len() > 1
        invariant
            nodes@.len() >= 1,
            nodes@.len() <= 64,
            ts.built_from(*old(ts)),
            forall|i: int| 0 <= i < nodes@.len() ==> ts.has(#[trigger] nodes@[i]),
            cat_all(trees(*ts, nodes@)) == cat_all(all),
        decreases nodes@.len(),
    {
        nodes = pair_round(ts, &nodes, false);
    }
    proof {
        assert(trees(*ts, nodes@)[0] == ts.tm(nodes@[0]));
    }
    nodes[0]
}

/// Binary search for the lowest one bit: `val` holds `n` bits of which all
/// below were zero, and `count` says how many those were.
pub open spec fn trailing_zeros_from(val: Tm, n: u32, count: Tm) -> Tm
    decreases n,
{
    if n > 1 {
        let half = n / 2;
        let low = bits(val, (half - 1) as u32, 0);
        let none = term::tm_eq(low, Tm::Bv(0, half));
        trailing_zeros_from(
            term::tm_ite(none, bits(val, (n - 1) as u32, half), low),
            half,
            term::tm_ite(none, plus(count, term::bv32(half as int)), count),
        )
    } else {
        term::tm_ite(term::tm_eq(bits(val, 0, 0), Tm::Bv(0, 1)), plus(count, term::bv32(1)), count)
    }
}

/// The same from the top end.
pub open spec fn leading_zeros_from(val: Tm, n: u32, count: Tm) -> Tm
    decreases n,
{
    if n > 1 {
        let half = n / 2;
        let high = bits(val, (n - 1) as u32, (n - half) as u32);
        let none = term::tm_eq(high, Tm::Bv(0, half));
        leading_zeros_from(
            term::tm_ite(none, bits(val, (n - half - 1) as u32, 0), high),
            half,
            term::tm_ite(none, plus(count, term::bv32(half as int)), count),
        )
    } else {
        term::tm_ite(term::tm_eq(bits(val, 0, 0), Tm::Bv(0, 1)), plus(count, term::bv32(1)), count)
    }
}

/// The width is a power of two, so that halving leaves no odd bit over.
pub open spec fn halves_evenly(n: u32) -> bool {
    n == 1 || n == 2 || n == 4 || n == 8 || n == 16 || n == 32 || n == 64
}

pub fn trailing_zeros(ts: &mut Terms, w: u32, a: Term) -> (t: Term)
    requires
        old(ts).well_formed(),
        old(ts).has(a),
        w == 32 || w == 64,
    ensures
        final(ts).built_from(*old(ts)),
        final(ts).has(t),
        final(ts).tm(t) == trailing_zeros_from(old(ts).tm(a), w, term::bv32(0)),
{
    let mut count = ts.bv_const(0, 32);
    let mut val = a;
    let mut n: u32 = w;
    let ghost goal = trailing_zeros_from(old(ts).tm(a), w, term::bv32(0));
    while n > 1
        invariant
            halves_evenly(n),
            ts.built_from(*old(ts)),
            ts.has(count),
            ts.has(val),
            trailing_zeros_from(ts.tm(val), n, ts.tm(count)) == goal,
        decreases n,
    {
        let ghost v0 = ts.tm(val);
        let ghost c0 = ts.tm(count);
        let half = n / 2;
        let low = ts.app1(Op1::Extract(half - 1, 0), val);
        let zero = ts.bv_const(0, half);
        let none = ts.equal(low, zero);
        let high = ts.app1(Op1::Extract(n - 1, half), val);
        let hc = ts.bv_const(half as i64, 32);
        let more = ts.app2(Op2::BvAdd, count, hc);
        count = ts.ite(none, more, count);
        val = ts.ite(none, high, low);
        n = half;
    }
    let last = ts.app1(Op1::Extract(0, 0), val);
    let zero1 = ts.bv_const(0, 1);
    let is_zero = ts.equal(last, zero1);
    let one = ts.bv_const(1, 32);
    let more = ts.app2(Op2::BvAdd, count, one);
    ts.ite(is_zero, more, count)
}

pub fn leading_zeros(ts: &mut Terms, w: u32, a: Term) -> (t: Term)
    requires
        old(ts).well_formed(),
        old(ts).has(a),
        w == 32 || w == 64,
    ensures
        final(ts).built_from(*old(ts)),
        final(ts).has(t),
        final(ts).tm(t) == leading_zeros_from(old(ts).tm(a), w, term::bv32(0)),
{
    let mut count = ts.bv_const(0, 32);
    let mut val = a;
    let mut n: u32 = w;
    let ghost goal = leading_zeros_from(old(ts).tm(a), w, term::bv32(0));
    while n > 1
        invariant
            halves_evenly(n),
            ts.built_from(*old(ts)),
            ts.has(count),
            ts.has(val),
            leading_zeros_from(ts.tm(val), n, ts.tm(count)) == goal,
        decreases n,
    {
        let ghost v0 = ts.tm(val);
        let ghost c0 = ts.tm(count);
        let half = n / 2;
        let high = ts.app1(Op1::Extract(n - 1, n - half), val);
        let zero = ts.bv_const(0, half);
        let none = ts.equal(high, zero);
        let low = ts.app1(Op1::Extract(n - half - 1, 0), val);
        let hc = ts.bv_const(half as i64, 32);
        let more = ts.app2(Op2::BvAdd, count, hc);
        count = ts.ite(none, more, count);
        val = ts.ite(none, low, high);
        n = half;
    }
    let last = ts.app1(Op1::Extract(0, 0), val);
    let zero1 = ts.bv_const(0, 1);
    let is_zero = ts.equal(last, zero1);
    let one = ts.bv_const(1, 32);
    let more = ts.app2(Op2::BvAdd, count, one);
    ts.ite(is_zero, more, count)
}

/// The constant with only bit `i` set.
pub open spec fn one_bit(i: int) -> int {
    if i == 63 {
        i64::MIN as int
    } else {
        (1i64 << i) as int
    }
}

/// The highest one bit among the lowest `n` bits of `a`, else zero.
pub open spec fn highest_below(w: u32, a: Tm, n: nat) -> Tm
    decreases n,
{
    if n == 0 {
        Tm::Bv(0, w)
    } else {
        let mask = Tm::Bv(one_bit(n - 1), w);
        term::tm_ite(term::tm_eq(band(a, mask), mask), mask, highest_below(w, a, (n - 1) as nat))
    }
}

/// The value with only the highest one bit of `a`; zero for zero.
pub open spec fn highest_one_bit_tm(w: u32, a: Tm) -> Tm {
    term::tm_ite(term::tm_eq(a, Tm::Bv(0, w)), Tm::Bv(0, w), highest_below(w, a, w as nat))
}

pub fn highest_one_bit(ts: &mut Terms, w: u32, a: Term) -> (t: Term)
    requires
        old(ts).well_formed(),
        old(ts).has(a),
        w == 32 || w == 64,
    ensures
        final(ts).built_from(*old(ts)),
        final(ts).has(t),
        final(ts).tm(t) == highest_one_bit_tm(w, old(ts).tm(a)),
{
    let zero = ts.bv_const(0, w);
    let is_zero = ts.equal(a, zero);
    let mut result = zero;
    let mut i: u32 = 0;
    while i < w
        invariant
            i <= w <= 64,
            ts.built_from(*old(ts)),
            old(ts).has(a),
            ts.has(result),
            ts.has(zero),
            ts.has(is_zero),
            ts.tm(zero) == Tm::Bv(0, w),
            ts.tm(is_zero) == term::tm_eq(old(ts).tm(a), Tm::Bv(0, w)),
            ts.tm(result) == highest_below(w, old(ts).tm(a), i as nat),
        decreases w - i,
    {
        let bit: i64 = if i == 63 {
            i64::MIN
        } else {
            1i64 << i
        };
        let mask = ts.bv_const(bit, w);
        let masked = ts.app2(Op2::BvAnd, a, mask);
        let has_bit = ts.equal(masked, mask);
        result = ts.ite(has_bit, mask, result);
        i += 1;
    }
    ts.ite(is_zero, zero, result)
}

/// The value with only the lowest one bit of `a`.
pub open spec fn lowest_one_bit_tm(a: Tm) -> Tm {
    band(a, neg(a))
}

pub fn lowest_one_bit(ts: &mut Terms, a: Term) -> (t: Term)
    requires
        old(ts).well_formed(),
        old(ts).has(a),
    ensures
        final(ts).built_from(*old(ts)),
        final(ts).has(t),
        final(ts).tm(t) == lowest_one_bit_tm(old(ts).tm(a)),
{
    let n = ts.app1(Op1::BvNeg, a);
    ts.app2(Op2::BvAnd, a, n)
}

/// The distance of a rotation, reduced to the width and widened to it.
pub open spec fn rotate_distance(w: u32, d: Tm) -> Tm {
    band(
        if w == 64 {
            zext(d, 32)
        } else {
            d
        },
        Tm::Bv(w - 1, w),
    )
}

/// `a` rotated by `d` to the left, or to the right.
pub open spec fn rotate_tm(left: bool, w: u32, a: Tm, d: Tm) -> Tm {
    let dist = rotate_distance(w, d);
    let rest = minus(Tm::Bv(w as int, w), dist);
    if left {
        bor(shl(a, dist), lshr(a, rest))
    } else {
        bor(lshr(a, dist), shl(a, rest))
    }
}

pub fn rotate(ts: &mut Terms, left: bool, w: u32, a: Term, d: Term) -> (t: Term)
    requires
        old(ts).well_formed(),
        old(ts).has(a),
        old(ts).has(d),
        w == 32 || w == 64,
    ensures
        final(ts).built_from(*old(ts)),
        final(ts).has(t),
        final(ts).tm(t) == rotate_tm(left, w, old(ts).tm(a), old(ts).tm(d)),
{
    let wc = ts.bv_const(w as i64, w);
    let dw = if w == 64 {
        ts.app1(Op1::ZeroExtend(32), d)
    } else {
        d
    };
    let mask = ts.bv_const(w as i64 - 1, w);
    let dist = ts.app2(Op2::BvAnd, dw, mask);
    let rest = ts.app2(Op2::BvSub, wc, dist);
    if left {
        let l = ts.app2(Op2::BvShl, a, dist);
        let r = ts.app2(Op2::BvLshr, a, rest);
        ts.app2(Op2::BvOr, l, r)
    } else {
        let r = ts.app2(Op2::BvLshr, a, dist);
        let l = ts.app2(Op2::BvShl, a, rest);
        ts.app2(Op2::BvOr, r, l)
    }
}

/// Byte `k` of `a`, counted from the lowest.
pub open spec fn byte_of(a: Tm, k: int) -> Tm {
    bits(a, (8 * k + 7) as u32, (8 * k) as u32)
}

/// The two low bytes of `a`, swapped.
pub open spec fn swap2_tm(a: Tm) -> Tm {
    cat(byte_of(a, 0), byte_of(a, 1))
}

/// The four bytes of `a` from byte `k` on, in reverse order.
pub open spec fn swap4_tm(a: Tm, k: int) -> Tm {
    cat(cat(byte_of(a, k), byte_of(a, k + 1)), cat(byte_of(a, k + 2), byte_of(a, k + 3)))
}

fn swap_pair(ts: &mut Terms, a: Term, k: u32) -> (t: Term)
    requires
        old(ts).well_formed(),
        old(ts).has(a),
        k <= 6,
    ensures
        final(ts).built_from(*old(ts)),
        final(ts).has(t),
        final(ts).tm(t) == cat(byte_of(old(ts).tm(a), k as int), byte_of(old(ts).tm(a), k + 1)),
{
    let lo = ts.app1(Op1::Extract(8 * k + 7, 8 * k), a);
    let hi = ts.app1(Op1::Extract(8 * (k + 1) + 7, 8 * (k + 1)), a);
    ts.app2(Op2::Concat, lo, hi)
}

pub fn swap2(ts: &mut Terms, a: Term) -> (t: Term)
    requires
        old(ts).well_formed(),
        old(ts).has(a),
    ensures
        final(ts).built_from(*old(ts)),
        final(ts).has(t),
        final(ts).tm(t) == swap2_tm(old(ts).tm(a)),
{
    swap_pair(ts, a, 0)
}

pub fn swap4(ts: &mut Terms, a: Term, k: u32) -> (t: Term)
    requires
        old(ts).well_formed(),
        old(ts).has(a),
        k <= 4,
    ensures
        final(ts).built_from(*old(ts)),
        final(ts).has(t),
        final(ts).tm(t) == swap4_tm(old(ts).tm(a), k as int),
{
    let p = swap_pair(ts, a, k);
    let q = swap_pair(ts, a, k + 2);
    ts.app2(Op2::Concat, p, q)
}

pub fn swap8(ts: &mut Terms, a: Term) -> (t: Term)
    requires
        old(ts).well_formed(),
        old(ts).has(a),
    ensures
        final(ts).built_from(*old(ts)),
        final(ts).has(t),
        final(ts).tm(t) == cat(swap4_tm(old(ts).tm(a), 0), swap4_tm(old(ts).tm(a), 4)),
{
    let p = swap4(ts, a, 0);
    let q = swap4(ts, a, 4);
    ts.app2(Op2::Concat, p, q)
}

/// `a` with only the bits of `mask`.
pub open spec fn masked_tm(a: Tm, mask: int) -> Tm {
    band(a, term::bv32(mask))
}

pub fn masked(ts: &mut Terms, a: Term, mask: i64) -> (t: Term)
    requires
        old(ts).well_formed(),
        old(ts).has(a),
    ensures
        final(ts).built_from(*old(ts)),
        final(ts).has(t),
        final(ts).tm(t) == masked_tm(old(ts).tm(a), mask as int),
{
    let m = ts.bv_const(mask, 32);
    ts.app2(Op2::BvAnd, a, m)
}

// ---------------------------------------------------------------------------
// Floating-point values as bit patterns
// ---------------------------------------------------------------------------

/// The exponent of a `float` (`w` 32) or a `double` (`w` 64) is all ones.
pub open spec fn fp_special(w: u32, a: Tm) -> Tm {
    if w == 64 {
        term::tm_eq(bits(a, 62, 52), Tm::Bv(0x7FF, 11))
    } else {
        term::tm_eq(bits(a, 30, 23), Tm::Bv(0xFF, 8))
    }
}

/// The mantissa is zero.
pub open spec fn fp_whole(w: u32, a: Tm) -> Tm {
    if w == 64 {
        term::tm_eq(bits(a, 51, 0), Tm::Bv(0, 52))
    } else {
        term::tm_eq(bits(a, 22, 0), Tm::Bv(0, 23))
    }
}

pub open spec fn fp_nan(w: u32, a: Tm) -> Tm {
    term::tm_and(fp_special(w, a), term::tm_not(fp_whole(w, a)))
}

pub open spec fn fp_infinite(w: u32, a: Tm) -> Tm {
    term::tm_and(fp_special(w, a), fp_whole(w, a))
}

/// The bit pattern every NaN is collapsed to.
pub open spec fn canonical_nan(w: u32) -> Tm {
    if w == 64 {
        Tm::Bv(0x7ff8000000000000, 64)
    } else {
        Tm::Bv(0x7fc00000, 32)
    }
}

pub open spec fn fp_canonical_tm(w: u32, a: Tm) -> Tm {
    term::tm_ite(fp_nan(w, a), canonical_nan(w), a)
}

/// A signed integer ordered as the value is: NaN above infinity, and negative
/// values with their magnitude bits flipped.
pub open spec fn fp_rank(w: u32, a: Tm) -> Tm {
    term::tm_ite(
        fp_nan(w, a),
        if w == 64 {
            Tm::Bv(0x7FF0000000000001, 64)
        } else {
            Tm::Bv(0x7F800001, 32)
        },
        term::tm_ite(
            term::tm_eq(bits(a, (w - 1) as u32, (w - 1) as u32), Tm::Bv(1, 1)),
            bxor(
                a,
                if w == 64 {
                    Tm::Bv(0x7FFFFFFFFFFFFFFF, 64)
                } else {
                    Tm::Bv(0x7FFFFFFF, 32)
                },
            ),
            a,
        ),
    )
}

/// Three-way comparison in the order of `Float.compare` and `Double.compare`.
pub open spec fn fp_compare_tm(w: u32, a: Tm, b: Tm) -> Tm {
    compare_tm(Op2::BvSlt, fp_rank(w, a), fp_rank(w, b))
}

/// The larger or the smaller of two values; NaN if either is.
pub open spec fn fp_select_tm(larger: bool, w: u32, a: Tm, b: Tm) -> Tm {
    term::tm_ite(
        term::tm_or(fp_nan(w, a), fp_nan(w, b)),
        canonical_nan(w),
        term::tm_ite(
            term::t2(
                if larger {
                    Op2::BvSgt
                } else {
                    Op2::BvSlt
                },
                fp_compare_tm(w, a, b),
                term::bv32(0),
            ),
            a,
            b,
        ),
    )
}

pub fn exponent_all_ones(ts: &mut Terms, w: u32, a: Term) -> (t: Term)
    requires
        old(ts).well_formed(),
        old(ts).has(a),
    ensures
        final(ts).built_from(*old(ts)),
        final(ts).has(t),
        final(ts).tm(t) == fp_special(w, old(ts).tm(a)),
{
    if w == 64 {
        let exp = ts.app1(Op1::Extract(62, 52), a);
        let all = ts.bv_const(0x7FF, 11);
        ts.equal(exp, all)
    } else {
        let exp = ts.app1(Op1::Extract(30, 23), a);
        let all = ts.bv_const(0xFF, 8);
        ts.equal(exp, all)
    }
}

fn mantissa_zero(ts: &mut Terms, w: u32, a: Term) -> (t: Term)
    requires
        old(ts).well_formed(),
        old(ts).has(a),
    ensures
        final(ts).built_from(*old(ts)),
        final(ts).has(t),
        final(ts).tm(t) == fp_whole(w, old(ts).tm(a)),
{
    if w == 64 {
        let man = ts.app1(Op1::Extract(51, 0), a);
        let zero = ts.bv_const(0, 52);
        ts.equal(man, zero)
    } else {
        let man = ts.app1(Op1::Extract(22, 0), a);
        let zero = ts.bv_const(0, 23);
        ts.equal(man, zero)
    }
}

pub fn fp_is_nan(ts: &mut Terms, w: u32, a: Term) -> (t: Term)
    requires
        old(ts).well_formed(),
        old(ts).has(a),
    ensures
        final(ts).built_from(*old(ts)),
        final(ts).has(t),
        final(ts).tm(t) == fp_nan(w, old(ts).tm(a)),
{
    let special = exponent_all_ones(ts, w, a);
    let whole = mantissa_zero(ts, w, a);
    let part = ts.not(whole);
    ts.app2(Op2::And, special, part)
}

pub fn fp_is_infinite(ts: &mut Terms, w: u32, a: Term) -> (t: Term)
    requires
        old(ts).well_formed(),
        old(ts).has(a),
    ensures
        final(ts).built_from(*old(ts)),
        final(ts).has(t),
        final(ts).tm(t) == fp_infinite(w, old(ts).tm(a)),
{
    let special = exponent_all_ones(ts, w, a);
    let whole = mantissa_zero(ts, w, a);
    ts.app2(Op2::And, special, whole)
}

fn make_canonical_nan(ts: &mut Terms, w: u32) -> (t: Term)
    requires
        old(ts).well_formed(),
    ensures
        final(ts).built_from(*old(ts)),
        final(ts).has(t),
        final(ts).tm(t) == canonical_nan(w),
{
    if w == 64 {
        ts.bv_const(0x7ff8000000000000, 64)
    } else {
        ts.bv_const(0x7fc00000, 32)
    }
}

pub fn fp_canonical(ts: &mut Terms, w: u32, a: Term) -> (t: Term)
    requires
        old(ts).well_formed(),
        old(ts).has(a),
    ensures
        final(ts).built_from(*old(ts)),
        final(ts).has(t),
        final(ts).tm(t) == fp_canonical_tm(w, old(ts).tm(a)),
{
    let nan = fp_is_nan(ts, w, a);
    let canonical = make_canonical_nan(ts, w);
    ts.ite(nan, canonical, a)
}

fn fp_to_comparable(ts: &mut Terms, w: u32, a: Term) -> (t: Term)
    requires
        old(ts).well_formed(),
        old(ts).has(a),
        w >= 1,
    ensures
        final(ts).built_from(*old(ts)),
        final(ts).has(t),
        final(ts).tm(t) == fp_rank(w, old(ts).tm(a)),
{
    let nan = fp_is_nan(ts, w, a);
    let rank = if w == 64 {
        ts.bv_const(0x7FF0000000000001, 64)
    } else {
        ts.bv_const(0x7F800001, 32)
    };
    let sign = ts.app1(Op1::Extract(w - 1, w - 1), a);
    let one1 = ts.bv_const(1, 1);
    let is_neg = ts.equal(sign, one1);
    let mask = if w == 64 {
        ts.bv_const(0x7FFFFFFFFFFFFFFF, 64)
    } else {
        ts.bv_const(0x7FFFFFFF, 32)
    };
    let flipped = ts.app2(Op2::BvXor, a, mask);
    let plain = ts.ite(is_neg, flipped, a);
    ts.ite(nan, rank, plain)
}

pub fn fp_compare(ts: &mut Terms, w: u32, a: Term, b: Term) -> (t: Term)
    requires
        old(ts).well_formed(),
        old(ts).has(a),
        old(ts).has(b),
        w >= 1,
    ensures
        final(ts).built_from(*old(ts)),
        final(ts).has(t),
        final(ts).tm(t) == fp_compare_tm(w, old(ts).tm(a), old(ts).tm(b)),
{
    let ra = fp_to_comparable(ts, w, a);
    let rb = fp_to_comparable(ts, w, b);
    compare(ts, Op2::BvSlt, ra, rb)
}

pub fn fp_select(ts: &mut Terms, larger: bool, w: u32, a: Term, b: Term) -> (t: Term)
    requires
        old(ts).well_formed(),
        old(ts).has(a),
        old(ts).has(b),
        w >= 1,
    ensures
        final(ts).built_from(*old(ts)),
        final(ts).has(t),
        final(ts).tm(t) == fp_select_tm(larger, w, old(ts).tm(a), old(ts).tm(b)),
{
    let an = fp_is_nan(ts, w, a);
    let bn = fp_is_nan(ts, w, b);
    let either = ts.app2(Op2::Or, an, bn);
    let canonical = make_canonical_nan(ts, w);
    let order = fp_compare(ts, w, a, b);
    let zero = ts.bv_const(0, 32);
    let c = if larger {
        ts.app2(Op2::BvSgt, order, zero)
    } else {
        ts.app2(Op2::BvSlt, order, zero)
    };
    let pick = ts.ite(c, a, b);
    ts.ite(either, canonical, pick)
}

} // verus!
