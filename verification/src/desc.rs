//! JVM method and field descriptors.

use vstd::prelude::*;

use crate::ir::Ty;
use crate::text::{chars_of, slice_string};

verus! {

/// First position at or after `i` that holds `c`; the length if there is none.
pub open spec fn find_from(d: Seq<char>, i: int, c: char) -> int
    decreases d.len() - i,
{
    if i >= d.len() || d[i] == c {
        i
    } else {
        find_from(d, i + 1, c)
    }
}

/// First position at or after `i` that does not hold `c`.
pub open spec fn skip_from(d: Seq<char>, i: int, c: char) -> int
    decreases d.len() - i,
{
    if i >= d.len() || d[i] != c {
        i
    } else {
        skip_from(d, i + 1, c)
    }
}

pub proof fn lemma_find_bounds(d: Seq<char>, i: int, c: char)
    ensures
        i <= find_from(d, i, c),
        i <= d.len() ==> find_from(d, i, c) <= d.len(),
    decreases d.len() - i,
{
    if i < d.len() && d[i] != c {
        lemma_find_bounds(d, i + 1, c);
    }
}

pub proof fn lemma_skip_bounds(d: Seq<char>, i: int, c: char)
    ensures
        i <= skip_from(d, i, c),
        i <= d.len() ==> skip_from(d, i, c) <= d.len(),
    decreases d.len() - i,
{
    if i < d.len() && d[i] == c {
        lemma_skip_bounds(d, i + 1, c);
    }
}

/// The smaller of a position and the length.
pub open spec fn clip(i: int, n: nat) -> int {
    if i <= n {
        i
    } else {
        n as int
    }
}

/// Position after the type that begins at `i`: a class name runs to its
/// semicolon, an array's brackets belong to its element type, and a type that
/// is cut off ends with the text.
pub open spec fn type_end(d: Seq<char>, i: int) -> int {
    let j = skip_from(d, i, '[');
    clip(
        if j < d.len() && d[j] == 'L' {
            find_from(d, j, ';') + 1
        } else {
            j + 1
        },
        d.len(),
    )
}

/// Width in bits of the value whose type begins at `i`.
pub open spec fn width_at(d: Seq<char>, i: int) -> u32 {
    if d[i] == 'J' || d[i] == 'D' {
        64
    } else {
        32
    }
}

pub proof fn lemma_type_end(d: Seq<char>, i: int)
    requires
        i < d.len(),
    ensures
        i < type_end(d, i) <= d.len(),
{
    lemma_skip_bounds(d, i, '[');
    lemma_find_bounds(d, skip_from(d, i, '['), ';');
}

/// Width of the `k`-th type from position `i` on; 32 if there are fewer.
pub open spec fn nth_width(d: Seq<char>, i: int, k: nat) -> u32
    decreases d.len() - i,
{
    if i >= d.len() {
        32
    } else if k == 0 {
        width_at(d, i)
    } else {
        proof {
            lemma_type_end(d, i);
        }
        nth_width(d, type_end(d, i), (k - 1) as nat)
    }
}

/// The text between the parentheses of a method descriptor.
pub open spec fn params_of(d: Seq<char>) -> Seq<char> {
    let end = find_from(d, 0, ')');
    if end >= 1 {
        d.subrange(1, end)
    } else {
        Seq::empty()
    }
}

/// Width in bits of parameter `k` of a method descriptor.
pub open spec fn param_width(d: Seq<char>, k: nat) -> u32 {
    nth_width(params_of(d), 0, k)
}

fn find_exec(v: &Vec<char>, i: usize, c: char) -> (r: usize)
    requires
        i <= v.len(),
    ensures
        r == find_from(v@, i as int, c),
        i <= r <= v.len(),
{
    let mut j: usize = i;
    while j < v.len() && v[j] != c
        invariant
            i <= j <= v.len(),
            find_from(v@, i as int, c) == find_from(v@, j as int, c),
        decreases v.len() - j,
    {
        j += 1;
    }
    j
}

fn skip_exec(v: &Vec<char>, i: usize, c: char) -> (r: usize)
    requires
        i <= v.len(),
    ensures
        r == skip_from(v@, i as int, c),
        i <= r <= v.len(),
{
    let mut j: usize = i;
    while j < v.len() && v[j] == c
        invariant
            i <= j <= v.len(),
            skip_from(v@, i as int, c) == skip_from(v@, j as int, c),
        decreases v.len() - j,
    {
        j += 1;
    }
    j
}

/// Position after the type that begins at `i`.
fn type_end_exec(v: &Vec<char>, i: usize) -> (r: usize)
    requires
        i < v.len(),
    ensures
        i < r <= v.len(),
        r == type_end(v@, i as int),
{
    let j = skip_exec(v, i, '[');
    let k = if j < v.len() && v[j] == 'L' {
        find_exec(v, j, ';')
    } else {
        j
    };
    if k < v.len() {
        k + 1
    } else {
        v.len()
    }
}

/// Width in bits of parameter `idx` of a method descriptor; 32 if there are
/// fewer parameters.
pub fn arg_width_from_desc(desc: &str, idx: usize) -> (w: u32)
    ensures
        w == param_width(desc@, idx as nat),
        w == 32 || w == 64,
{
    let all = chars_of(desc);
    let end = find_exec(&all, 0, ')');
    if end < 1 {
        return 32;
    }
    let mut v: Vec<char> = Vec::new();
    let mut n: usize = 1;
    while n < end
        invariant
            1 <= n <= end <= all.len(),
            v@ == all@.subrange(1, n as int),
        decreases end - n,
    {
        v.push(all[n]);
        n += 1;
    }
    proof {
        assert(v@ == params_of(desc@));
    }
    let mut pos: usize = 0;
    let mut k: usize = 0;
    while pos < v.len()
        invariant
            v@ == params_of(desc@),
            pos <= v.len(),
            k <= idx,
            nth_width(v@, 0, idx as nat) == nth_width(v@, pos as int, (idx - k) as nat),
        decreases v.len() - pos,
    {
        if k == idx {
            return if v[pos] == 'J' || v[pos] == 'D' {
                64
            } else {
                32
            };
        }
        proof {
            lemma_type_end(v@, pos as int);
        }
        pos = type_end_exec(&v, pos);
        k += 1;
    }
    32
}

/// Width of the values of a field.
pub open spec fn field_width(d: Seq<char>) -> u32 {
    if d.len() > 0 && (d[0] == 'J' || d[0] == 'D') {
        64
    } else {
        32
    }
}

/// Is the field a reference?
pub open spec fn ref_desc(d: Seq<char>) -> bool {
    d.len() > 0 && (d[0] == 'L' || d[0] == '[')
}

/// Width in bits of the values of a field.
pub fn field_elem_width(desc: &str) -> (w: u32)
    ensures
        w == field_width(desc@),
{
    let v = chars_of(desc);
    if v.len() > 0 && (v[0] == 'J' || v[0] == 'D') {
        64
    } else {
        32
    }
}

/// Is the field a reference?
pub fn is_ref_desc(desc: &str) -> (r: bool)
    ensures
        r == ref_desc(desc@),
{
    let v = chars_of(desc);
    v.len() > 0 && (v[0] == 'L' || v[0] == '[')
}

/// The type of a field.
pub open spec fn field_ty(d: Seq<char>) -> Ty {
    if d.len() == 0 {
        Ty::Int
    } else {
        value_ty(d[0])
    }
}

/// The type that a descriptor's first character stands for.
pub open spec fn value_ty(c: char) -> Ty {
    if c == 'J' {
        Ty::Long
    } else if c == 'F' {
        Ty::Float
    } else if c == 'D' {
        Ty::Double
    } else if c == 'L' || c == '[' {
        Ty::Ref
    } else {
        Ty::Int
    }
}

fn value_ty_exec(c: char) -> (r: Ty)
    ensures
        r == value_ty(c),
{
    if c == 'J' {
        Ty::Long
    } else if c == 'F' {
        Ty::Float
    } else if c == 'D' {
        Ty::Double
    } else if c == 'L' || c == '[' {
        Ty::Ref
    } else {
        Ty::Int
    }
}

/// The type of a field.
pub fn ty_of_field_desc(desc: &str) -> (r: Ty)
    ensures
        r == field_ty(desc@),
{
    let v = chars_of(desc);
    if v.len() == 0 {
        Ty::Int
    } else {
        value_ty_exec(v[0])
    }
}

/// Number of parameters from position `i` on, up to the closing parenthesis.
pub open spec fn count_params(d: Seq<char>, i: int) -> nat
    decreases d.len() - i,
{
    if i >= d.len() || d[i] == ')' {
        0
    } else {
        proof {
            lemma_type_end(d, i);
        }
        1 + count_params(d, type_end(d, i))
    }
}

/// Position of the closing parenthesis that ends the parameters from `i` on, or
/// a position at or beyond the end.
pub open spec fn params_end(d: Seq<char>, i: int) -> int
    decreases d.len() - i,
{
    if i >= d.len() || d[i] == ')' {
        i
    } else {
        proof {
            lemma_type_end(d, i);
        }
        params_end(d, type_end(d, i))
    }
}

/// The return type of a method descriptor; `None` for `void`.
pub open spec fn return_ty(d: Seq<char>) -> Option<Ty> {
    let i = params_end(d, 1) + 1;
    if i >= d.len() || d[i] == 'V' {
        None
    } else {
        Some(value_ty(d[i]))
    }
}

/// Number of values a method takes, and its return type.
pub fn parse_desc(desc: &str) -> (r: (usize, Option<Ty>))
    ensures
        r.0 == count_params(desc@, 1),
        r.1 == return_ty(desc@),
{
    let v = chars_of(desc);
    if v.len() <= 1 {
        return (0, None);
    }
    let mut i: usize = 1;
    let mut n: usize = 0;
    while i < v.len() && v[i] != ')'
        invariant
            v@ == desc@,
            1 <= i <= v.len(),
            n < i,
            count_params(desc@, 1) == n + count_params(desc@, i as int),
            params_end(desc@, 1) == params_end(desc@, i as int),
        decreases v.len() - i,
    {
        proof {
            lemma_type_end(v@, i as int);
        }
        i = type_end_exec(&v, i);
        n += 1;
    }
    if i >= v.len() - 1 || v[i + 1] == 'V' {
        (n, None)
    } else {
        (n, Some(value_ty_exec(v[i + 1])))
    }
}

/// The slot after one value: `long` and `double` take two.
pub open spec fn slots_at(d: Seq<char>, i: int) -> nat {
    if d[i] == 'J' || d[i] == 'D' {
        2
    } else {
        1
    }
}

/// The reference parameters from position `i` on, with the slot each occupies
/// and the class it is declared with. An array's class is its descriptor.
pub open spec fn ref_slots(d: Seq<char>, i: int, slot: nat) -> Seq<(nat, Seq<char>)>
    decreases d.len() - i,
{
    if i >= d.len() || d[i] == ')' {
        Seq::empty()
    } else {
        proof {
            lemma_type_end(d, i);
        }
        let end = type_end(d, i);
        let rest = ref_slots(d, end, slot + slots_at(d, i));
        if d[i] == 'L' {
            seq![(slot, d.subrange(i + 1, find_from(d, i, ';')))] + rest
        } else if d[i] == '[' {
            seq![(slot, d.subrange(i, end))] + rest
        } else {
            rest
        }
    }
}

/// The reference parameters of a method descriptor.
pub open spec fn ref_params(d: Seq<char>) -> Seq<(nat, Seq<char>)> {
    ref_slots(d, skip_from(d, 0, '('), 0)
}

/// View of a list of slots with class names.
pub open spec fn slot_views(v: Seq<(usize, String)>) -> Seq<(nat, Seq<char>)> {
    v.map_values(|p: (usize, String)| (p.0 as nat, p.1@))
}

/// The reference parameters of a method descriptor: the slot and the class of
/// each.
pub fn parse_param_slots(desc: &str) -> (r: Vec<(usize, String)>)
    requires
        2 * desc@.len() <= usize::MAX,
    ensures
        slot_views(r@) == ref_params(desc@),
{
    let v = chars_of(desc);
    let mut i = skip_exec(&v, 0, '(');
    let mut slot: usize = 0;
    let mut out: Vec<(usize, String)> = Vec::new();
    while i < v.len() && v[i] != ')'
        invariant
            v@ == desc@,
            2 * desc@.len() <= usize::MAX,
            i <= v.len(),
            slot <= 2 * i,
            ref_params(desc@) == slot_views(out@) + ref_slots(desc@, i as int, slot as nat),
        decreases v.len() - i,
    {
        let ghost before = out@;
        proof {
            lemma_type_end(v@, i as int);
            lemma_skip_bounds(v@, i as int, '[');
        }
        let end = type_end_exec(&v, i);
        if v[i] == 'L' {
            let stop = find_exec(&v, i, ';');
            proof {
                assert(skip_from(v@, i as int, '[') == i);
                assert(find_from(v@, i as int, ';') == find_from(v@, i + 1, ';'));
                lemma_find_bounds(v@, i + 1, ';');
            }
            out.push((slot, slice_string(&v, i + 1, stop)));
        } else if v[i] == '[' {
            out.push((slot, slice_string(&v, i, end)));
        }
        proof {
            if v@[i as int] == 'L' || v@[i as int] == '[' {
                assert(slot_views(out@) =~= slot_views(before).push(
                    (slot as nat, out@.last().1@),
                ));
            }
            let rest = ref_slots(desc@, type_end(desc@, i as int), (slot as nat) + slots_at(desc@, i as int));
            assert(rest == ref_slots(desc@, end as int, (slot as nat) + slots_at(desc@, i as int)));
            assert(slot_views(before) + ref_slots(desc@, i as int, slot as nat) =~= slot_views(out@)
                + rest);
        }
        slot = if v[i] == 'J' || v[i] == 'D' {
            slot + 2
        } else {
            slot + 1
        };
        i = end;
    }
    proof {
        assert(slot_views(out@) + Seq::<(nat, Seq<char>)>::empty() =~= slot_views(out@));
    }
    out
}

} // verus!
