//! SMT-LIB text for operands, rvalues and whole bodies.
//!
//! Two theories share the structure: bit vectors for Horn clauses, and linear
//! integer arithmetic for interpolation. Only constants and operators differ.

use std::collections::HashMap;

use vstd::prelude::*;
use vstd::slice::slice_subrange;
use vstd::string::*;

use crate::ir::{
    BinOp, Block, BlockId, Body, Const, ObligationId, Operand, Rvalue, Stmt, Terminator, Ty,
};
use crate::text;
use crate::text::{
    dec_u64, hex_u64, make_join, make_sexp1, make_sexp2, make_sexp3, numbered, same, starts_with,
};

verus! {

/// The text that stands for each variable.
pub trait VarLookup {
    /// The text for the variable with the given index.
    spec fn text_of(&self, i: nat) -> Seq<char>;

    fn lookup(&self, var_index: usize) -> (s: String)
        ensures
            s@ == self.text_of(var_index as nat),
    ;
}

/// The text for a variable of which nothing else is known.
pub open spec fn plain(i: nat) -> Seq<char> {
    "v"@ + text::dec(i)
}

/// The text at the index, or the plain name of the variable.
pub open spec fn text_at(vars: Seq<Seq<char>>, i: nat) -> Seq<char> {
    if i < vars.len() {
        vars[i as int]
    } else {
        plain(i)
    }
}

impl VarLookup for Vec<String> {
    open spec fn text_of(&self, i: nat) -> Seq<char> {
        text_at(text::views(self@), i)
    }

    fn lookup(&self, var_index: usize) -> (s: String) {
        if var_index < self.len() {
            self[var_index].clone()
        } else {
            numbered("v", var_index as u64)
        }
    }
}

impl VarLookup for HashMap<usize, String> {
    open spec fn text_of(&self, i: nat) -> Seq<char> {
        if i <= usize::MAX && self@.dom().contains(i as usize) {
            self@[i as usize]@
        } else {
            plain(i)
        }
    }

    fn lookup(&self, var_index: usize) -> (s: String) {
        broadcast use vstd::std_specs::hash::group_hash_axioms;

        match self.get(&var_index) {
            Some(s) => s.clone(),
            None => numbered("v", var_index as u64),
        }
    }
}

/// The symbols handed out so far.
#[verifier::ext_equal]
pub struct PoolV {
    pub prefix: Seq<char>,
    pub issued: Seq<(Seq<char>, u32)>,
}

impl PoolV {
    /// The symbol with the given number.
    pub open spec fn name(self, i: nat) -> Seq<char> {
        self.prefix + "fresh"@ + text::dec(i)
    }

    /// The symbol that comes next.
    pub open spec fn next(self) -> Seq<char> {
        self.name(self.issued.len())
    }

    /// With one more symbol of the given width.
    pub open spec fn with(self, width: u32) -> PoolV {
        PoolV { prefix: self.prefix, issued: self.issued.push((self.next(), width)) }
    }

    /// The symbols handed out since there were `mark` of them.
    pub open spec fn since(self, mark: nat) -> Seq<(Seq<char>, u32)> {
        if mark <= self.issued.len() {
            self.issued.skip(mark as int)
        } else {
            Seq::empty()
        }
    }

    /// The symbols are those that the pool hands out, in order.
    pub open spec fn numbered(self) -> bool {
        forall|i: int| 0 <= i < self.issued.len() ==> (#[trigger] self.issued[i]).0 == self.name(i as nat)
    }

    /// The pool has handed out more symbols since, or none.
    pub open spec fn follows(self, earlier: PoolV) -> bool {
        &&& self.prefix == earlier.prefix
        &&& self.issued.len() >= earlier.issued.len()
        &&& self.issued.take(earlier.issued.len() as int) == earlier.issued
        &&& earlier.numbered() ==> self.numbered()
    }
}

/// A source of fresh symbols, and the record of every one handed out. Whoever
/// uses the text has to bind them all.
#[derive(Debug)]
pub struct FreshPool {
    prefix: String,
    issued: Vec<(String, u32)>,
}

/// The views of symbols and widths.
pub open spec fn symbol_views(v: Seq<(String, u32)>) -> Seq<(Seq<char>, u32)> {
    v.map_values(|p: (String, u32)| (p.0@, p.1))
}

impl View for FreshPool {
    type V = PoolV;

    closed spec fn view(&self) -> PoolV {
        PoolV { prefix: self.prefix@, issued: symbol_views(self.issued@) }
    }
}

impl Default for FreshPool {
    fn default() -> (r: Self)
        ensures
            r@ == (PoolV { prefix: Seq::empty(), issued: Seq::empty() }),
    {
        FreshPool { prefix: String::new(), issued: Vec::new() }
    }
}

impl FreshPool {
    /// A pool whose symbols begin with the given prefix.
    pub fn new(prefix: &str) -> (r: Self)
        ensures
            r@ == (PoolV { prefix: prefix@, issued: Seq::empty() }),
    {
        let r = FreshPool { prefix: prefix.to_string(), issued: Vec::new() };
        proof {
            assert(r@.issued =~= Seq::empty());
        }
        r
    }

    /// A new symbol of the given bit width, which is recorded.
    pub fn make(&mut self, width: u32) -> (s: String)
        ensures
            s@ == old(self)@.next(),
            final(self)@ == old(self)@.with(width),
            final(self)@.follows(old(self)@),
    {
        let mut base = self.prefix.clone();
        base.append("fresh");
        let name = numbered(base.as_str(), self.issued.len() as u64);
        let copy = name.clone();
        self.issued.push((copy, width));
        proof {
            assert(self@.issued =~= old(self)@.with(width).issued);
            assert(self@.issued.take(old(self)@.issued.len() as int) =~= old(self)@.issued);
        }
        name
    }

    /// Every symbol handed out so far, with its width.
    pub fn issued(&self) -> (r: &[(String, u32)])
        ensures
            symbol_views(r@) == self@.issued,
    {
        self.issued.as_slice()
    }

    /// The symbols handed out since `mark`.
    pub fn issued_since(&self, mark: usize) -> (r: &[(String, u32)])
        ensures
            symbol_views(r@) == self@.since(mark as nat),
    {
        let n = self.issued.len();
        let from = if mark < n {
            mark
        } else {
            n
        };
        let r = slice_subrange(self.issued.as_slice(), from, n);
        proof {
            assert(symbol_views(r@) =~= self@.since(mark as nat));
        }
        r
    }

    /// How many symbols were handed out.
    pub fn mark(&self) -> (r: usize)
        ensures
            r == self@.issued.len(),
    {
        self.issued.len()
    }
}

/// The bit width that a value of the type takes.
pub open spec fn width(ty: Ty) -> u32 {
    if ty.wide() {
        64
    } else {
        32
    }
}

/// The bit width that a value of the type takes.
pub fn width_of_ty(ty: &Ty) -> (r: u32)
    ensures
        r == width(*ty),
{
    match ty {
        Ty::Long | Ty::Double => 64,
        _ => 32,
    }
}

/// Is the operator one on bits: logic or a shift?
pub open spec fn on_bits(op: BinOp) -> bool {
    op == BinOp::And || op == BinOp::Or || op == BinOp::Xor || op == BinOp::Shl || op == BinOp::Shr
        || op == BinOp::UShr
}

/// How a theory writes constants and operators.
pub trait SmtTheory {
    /// Can the theory express the operators on bits?
    spec fn bitwise(&self) -> bool;

    /// Can the theory write the constant?
    spec fn has_long(&self, value: i64) -> bool;

    spec fn int_text(&self, value: i32) -> Seq<char>;

    spec fn long_text(&self, value: i64) -> Seq<char>;

    spec fn zero_text(&self) -> Seq<char>;

    spec fn one_text(&self) -> Seq<char>;

    /// The operator applied to two texts, for an operator that the theory has.
    spec fn binop_text(&self, op: BinOp, left: Seq<char>, right: Seq<char>) -> Seq<char>;

    spec fn neg_text(&self, operand: Seq<char>) -> Seq<char>;

    spec fn cast_text(&self, ty: Ty, operand: Seq<char>) -> Seq<char>;

    /// The three-way comparison of two texts.
    spec fn order_text(&self, left: Seq<char>, right: Seq<char>) -> Seq<char>;

    spec fn sort_text(&self, width: u32) -> Seq<char>;

    spec fn is_zero_text(&self, operand: Seq<char>) -> Seq<char>;

    fn encode_int(&self, value: i32) -> (s: String)
        ensures
            s@ == self.int_text(value),
    ;

    fn encode_long(&self, value: i64) -> (s: String)
        requires
            self.has_long(value),
        ensures
            s@ == self.long_text(value),
    ;

    fn encode_null(&self) -> (s: String)
        ensures
            s@ == self.zero_text(),
    ;

    fn encode_non_null(&self) -> (s: String)
        ensures
            s@ == self.one_text(),
    ;

    fn encode_zero(&self) -> (s: String)
        ensures
            s@ == self.zero_text(),
    ;

    fn encode_true(&self) -> (s: String)
        ensures
            s@ == self.one_text(),
    ;

    fn encode_false(&self) -> (s: String)
        ensures
            s@ == self.zero_text(),
    ;

    /// The operator applied to two texts. An operator that the theory cannot
    /// express becomes a fresh symbol.
    fn encode_binop(&self, op: &BinOp, left: &str, right: &str, fresh: &mut FreshPool) -> (s: String)
        ensures
            on_bits(*op) && !self.bitwise() ==> s@ == old(fresh)@.next() && final(fresh)@ == old(fresh)@.with(32),
            !(on_bits(*op) && !self.bitwise()) ==> s@ == self.binop_text(*op, left@, right@) && final(fresh)@ == old(fresh)@,
    ;

    fn supports_bitwise(&self) -> (r: bool)
        ensures
            r == self.bitwise(),
    ;

    fn encode_neg(&self, operand: &str) -> (s: String)
        ensures
            s@ == self.neg_text(operand@),
    ;

    fn encode_cast(&self, ty: &Ty, operand: &str) -> (s: String)
        ensures
            s@ == self.cast_text(*ty, operand@),
    ;

    fn encode_cmp(&self, left: &str, right: &str) -> (s: String)
        ensures
            s@ == self.order_text(left@, right@),
    ;

    /// The sort of a symbol of the given bit width.
    fn declare_sort(&self, width: u32) -> (s: String)
        ensures
            s@ == self.sort_text(width),
    ;

    fn encode_nonzero(&self, operand: &str) -> (s: String)
        ensures
            s@ == text::sexp1("not"@, self.is_zero_text(operand@)),
    ;

    fn encode_is_zero(&self, operand: &str) -> (s: String)
        ensures
            s@ == self.is_zero_text(operand@),
    ;
}

/// Can the theory write the operand?
pub open spec fn writable<T: SmtTheory>(theory: &T, op: Operand) -> bool {
    op matches Operand::Const(Const::Long(n)) ==> theory.has_long(n)
}

/// The text of an operand: the current text of a variable, or a constant. Texts
/// are just non-null references, and constants that are not modelled are zero.
pub open spec fn operand_text<T: SmtTheory>(
    theory: &T,
    op: Operand,
    vars: spec_fn(nat) -> Seq<char>,
) -> Seq<char> {
    match op {
        Operand::Var(v) => vars(v.0 as nat),
        Operand::Const(Const::Int(n)) => theory.int_text(n),
        Operand::Const(Const::Long(n)) => theory.long_text(n),
        Operand::Const(Const::Str(_)) => theory.one_text(),
        Operand::Const(_) => theory.zero_text(),
    }
}

/// The text of each variable in a lookup.
pub open spec fn texts<V: VarLookup>(vars: &V) -> spec_fn(nat) -> Seq<char> {
    |i: nat| vars.text_of(i)
}

/// The text of an operand.
pub fn encode_operand<T: SmtTheory, V: VarLookup>(theory: &T, op: &Operand, vars: &V) -> (s: String)
    requires
        writable(theory, *op),
    ensures
        s@ == operand_text(theory, *op, texts(vars)),
{
    match op {
        Operand::Var(v) => vars.lookup(v.0 as usize),
        Operand::Const(Const::Int(n)) => theory.encode_int(*n),
        Operand::Const(Const::Long(n)) => theory.encode_long(*n),
        Operand::Const(Const::Null) => theory.encode_null(),
        Operand::Const(Const::Str(_)) => theory.encode_non_null(),
        Operand::Const(_) => theory.encode_zero(),
    }
}

/// The operands that the text of an rvalue mentions.
pub open spec fn mentioned(rv: Rvalue) -> Seq<Operand> {
    match rv {
        Rvalue::Use(o) | Rvalue::Neg(o) | Rvalue::Cast(_, o) => seq![o],
        Rvalue::Bin(_, a, b) | Rvalue::Cmp(a, b) => seq![a, b],
        _ => Seq::empty(),
    }
}

/// Can the theory write all operands?
pub open spec fn all_writable<T: SmtTheory>(theory: &T, ops: Seq<Operand>) -> bool {
    forall|i: int| 0 <= i < ops.len() ==> writable(theory, #[trigger] ops[i])
}

/// Does the theory express the rvalue exactly?
pub open spec fn precise<T: SmtTheory>(theory: &T, rv: Rvalue) -> bool {
    match rv {
        Rvalue::Bin(op, _, _) => on_bits(op) ==> theory.bitwise(),
        Rvalue::Use(_) | Rvalue::Neg(_) | Rvalue::Cast(_, _) | Rvalue::Cmp(_, _) => true,
        _ => false,
    }
}

/// The width of the symbol that stands for an rvalue that is not expressed.
pub open spec fn unknown_width(rv: Rvalue) -> u32 {
    match rv {
        Rvalue::Nondet(ty, _) => width(ty),
        Rvalue::Havoc(ty) => width(ty),
        _ => 32,
    }
}

/// The text of an rvalue: exact, or the next fresh symbol.
pub open spec fn rvalue_text<T: SmtTheory>(
    theory: &T,
    rv: Rvalue,
    vars: spec_fn(nat) -> Seq<char>,
    pool: PoolV,
) -> Seq<char> {
    if !precise(theory, rv) {
        pool.next()
    } else {
        match rv {
            Rvalue::Use(o) => operand_text(theory, o, vars),
            Rvalue::Bin(op, a, b) => theory.binop_text(
                op,
                operand_text(theory, a, vars),
                operand_text(theory, b, vars),
            ),
            Rvalue::Neg(o) => theory.neg_text(operand_text(theory, o, vars)),
            Rvalue::Cast(ty, o) => theory.cast_text(ty, operand_text(theory, o, vars)),
            Rvalue::Cmp(a, b) => theory.order_text(
                operand_text(theory, a, vars),
                operand_text(theory, b, vars),
            ),
            _ => pool.next(),
        }
    }
}

/// The symbols handed out after the text of an rvalue.
pub open spec fn rvalue_pool<T: SmtTheory>(theory: &T, rv: Rvalue, pool: PoolV) -> PoolV {
    if precise(theory, rv) {
        pool
    } else {
        pool.with(unknown_width(rv))
    }
}

/// The text of an rvalue. One that the theory cannot express exactly becomes a
/// fresh symbol, and [`is_precise`] says in advance which those are.
pub fn encode_rvalue<T: SmtTheory, V: VarLookup>(
    theory: &T,
    rvalue: &Rvalue,
    vars: &V,
    fresh: &mut FreshPool,
) -> (s: String)
    requires
        all_writable(theory, mentioned(*rvalue)),
    ensures
        s@ == rvalue_text(theory, *rvalue, texts(vars), old(fresh)@),
        final(fresh)@ == rvalue_pool(theory, *rvalue, old(fresh)@),
{
    proof {
        assert(forall|i: int|
            0 <= i < mentioned(*rvalue).len() ==> writable(theory, #[trigger] mentioned(*rvalue)[i]));
    }
    match rvalue {
        Rvalue::Use(o) => {
            proof {
                assert(mentioned(*rvalue)[0] == *o);
            }
            encode_operand(theory, o, vars)
        },
        Rvalue::Nondet(ty, _) => fresh.make(width_of_ty(ty)),
        Rvalue::Havoc(ty) => fresh.make(width_of_ty(ty)),
        Rvalue::Bin(op, a, b) => {
            proof {
                assert(mentioned(*rvalue)[0] == *a && mentioned(*rvalue)[1] == *b);
            }
            let left = encode_operand(theory, a, vars);
            let right = encode_operand(theory, b, vars);
            theory.encode_binop(op, left.as_str(), right.as_str(), fresh)
        },
        Rvalue::Neg(o) => {
            proof {
                assert(mentioned(*rvalue)[0] == *o);
            }
            let operand = encode_operand(theory, o, vars);
            theory.encode_neg(operand.as_str())
        },
        Rvalue::Cast(ty, o) => {
            proof {
                assert(mentioned(*rvalue)[0] == *o);
            }
            let operand = encode_operand(theory, o, vars);
            theory.encode_cast(ty, operand.as_str())
        },
        Rvalue::Cmp(a, b) => {
            proof {
                assert(mentioned(*rvalue)[0] == *a && mentioned(*rvalue)[1] == *b);
            }
            let left = encode_operand(theory, a, vars);
            let right = encode_operand(theory, b, vars);
            theory.encode_cmp(left.as_str(), right.as_str())
        },
        _ => fresh.make(32),
    }
}

/// Does [`encode_rvalue`] express the rvalue exactly under the theory?
pub fn is_precise<T: SmtTheory>(theory: &T, rvalue: &Rvalue) -> (r: bool)
    ensures
        r == precise(theory, *rvalue),
{
    match rvalue {
        Rvalue::Bin(op, _, _) => match op {
            BinOp::And | BinOp::Or | BinOp::Xor | BinOp::Shl | BinOp::Shr | BinOp::UShr => {
                theory.supports_bitwise()
            },
            _ => true,
        },
        Rvalue::Use(_) | Rvalue::Neg(_) | Rvalue::Cast(_, _) | Rvalue::Cmp(_, _) => true,
        _ => false,
    }
}

/// An rvalue is expressed exactly if and only if no symbol is handed out for it.
pub proof fn law_precise_means_no_fresh_symbol<T: SmtTheory>(theory: &T, rv: Rvalue, pool: PoolV)
    ensures
        precise(theory, rv) <==> rvalue_pool(theory, rv, pool) == pool,
{
    if !precise(theory, rv) {
        assert(pool.with(unknown_width(rv)).issued.len() == pool.issued.len() + 1);
    }
}

/// Different numbers are written differently.
pub proof fn law_decimals_are_distinct(a: nat, b: nat)
    requires
        text::dec(a) == text::dec(b),
    ensures
        a == b,
    decreases a,
{
    let (s, t) = (text::dec(a), text::dec(b));
    lemma_dec_len(a);
    lemma_dec_len(b);
    if a < 10 && b < 10 {
        assert(s[0] == t[0]);
    } else if a >= 10 && b >= 10 {
        assert(s.drop_last() =~= text::dec(a / 10));
        assert(t.drop_last() =~= text::dec(b / 10));
        law_decimals_are_distinct(a / 10, b / 10);
        assert(s.last() == t.last());
    }
}

proof fn lemma_dec_len(a: nat)
    ensures
        text::dec(a).len() >= 1,
        a >= 10 ==> text::dec(a).len() >= 2,
    decreases a,
{
    if a >= 10 {
        lemma_dec_len(a / 10);
    }
}

/// No two symbols of a pool have the same name.
pub proof fn law_fresh_symbols_are_distinct(pool: PoolV, i: int, j: int)
    requires
        pool.numbered(),
        0 <= i < pool.issued.len(),
        0 <= j < pool.issued.len(),
        pool.issued[i].0 == pool.issued[j].0,
    ensures
        i == j,
{
    let base = pool.prefix + "fresh"@;
    assert(pool.issued[i].0 == base + text::dec(i as nat));
    assert(pool.issued[j].0 == base + text::dec(j as nat));
    assert(pool.issued[i].0.skip(base.len() as int) =~= text::dec(i as nat));
    assert(pool.issued[j].0.skip(base.len() as int) =~= text::dec(j as nat));
    law_decimals_are_distinct(i as nat, j as nat);
}

/// Bit vectors, for Horn clauses.
#[derive(Debug)]
pub struct BitvectorTheory;

/// The value modulo a power of two, as the bits of a negative number are.
pub open spec fn bits_of(value: int, modulus: int) -> nat {
    (if value < 0 {
        value + modulus
    } else {
        value
    }) as nat
}

/// `(ite (op l r) 1 0)` in the given notation.
pub open spec fn test_text(
    op: Seq<char>,
    l: Seq<char>,
    r: Seq<char>,
    one: Seq<char>,
    zero: Seq<char>,
) -> Seq<char> {
    text::sexp3("ite"@, text::sexp2(op, l, r), one, zero)
}

fn make_test(op: &str, l: &str, r: &str, one: &str, zero: &str) -> (s: String)
    ensures
        s@ == test_text(op@, l@, r@, one@, zero@),
{
    let c = make_sexp2(op, l, r);
    make_sexp3("ite", c.as_str(), one, zero)
}

/// `(ite (not (= l r)) 1 0)` in the given notation.
pub open spec fn differ_text(l: Seq<char>, r: Seq<char>, one: Seq<char>, zero: Seq<char>) -> Seq<char> {
    text::sexp3("ite"@, text::sexp1("not"@, text::sexp2("="@, l, r)), one, zero)
}

fn make_differ(l: &str, r: &str, one: &str, zero: &str) -> (s: String)
    ensures
        s@ == differ_text(l@, r@, one@, zero@),
{
    let c = make_sexp2("=", l, r);
    let n = make_sexp1("not", c.as_str());
    make_sexp3("ite", n.as_str(), one, zero)
}

/// `(ite (less l r) -1 (ite (= l r) 0 1))` in the given notation.
pub open spec fn ordering_text(
    less: Seq<char>,
    l: Seq<char>,
    r: Seq<char>,
    minus: Seq<char>,
    zero: Seq<char>,
    one: Seq<char>,
) -> Seq<char> {
    text::sexp3("ite"@, text::sexp2(less, l, r), minus, test_text("="@, l, r, zero, one))
}

fn make_ordering(less: &str, l: &str, r: &str, minus: &str, zero: &str, one: &str) -> (s: String)
    ensures
        s@ == ordering_text(less@, l@, r@, minus@, zero@, one@),
{
    let c = make_sexp2(less, l, r);
    let e = make_test("=", l, r, zero, one);
    make_sexp3("ite", c.as_str(), minus, e.as_str())
}

fn prefixed(a: &str, b: &str) -> (s: String)
    ensures
        s@ == a@ + b@,
{
    let mut s = a.to_string();
    s.append(b);
    s
}

impl SmtTheory for BitvectorTheory {
    open spec fn bitwise(&self) -> bool {
        true
    }

    open spec fn has_long(&self, value: i64) -> bool {
        true
    }

    open spec fn int_text(&self, value: i32) -> Seq<char> {
        "#x"@ + text::hex(bits_of(value as int, 0x1_0000_0000), 8)
    }

    open spec fn long_text(&self, value: i64) -> Seq<char> {
        "#x"@ + text::hex(bits_of(value as int, 0x1_0000_0000_0000_0000), 16)
    }

    open spec fn zero_text(&self) -> Seq<char> {
        "#x00000000"@
    }

    open spec fn one_text(&self) -> Seq<char> {
        "#x00000001"@
    }

    open spec fn binop_text(&self, op: BinOp, left: Seq<char>, right: Seq<char>) -> Seq<char> {
        let (one, zero) = ("#x00000001"@, "#x00000000"@);
        match op {
            BinOp::Add => text::sexp2("bvadd"@, left, right),
            BinOp::Sub => text::sexp2("bvsub"@, left, right),
            BinOp::Mul => text::sexp2("bvmul"@, left, right),
            BinOp::Div => text::sexp2("bvsdiv"@, left, right),
            BinOp::Rem => text::sexp2("bvsrem"@, left, right),
            BinOp::And => text::sexp2("bvand"@, left, right),
            BinOp::Or => text::sexp2("bvor"@, left, right),
            BinOp::Xor => text::sexp2("bvxor"@, left, right),
            BinOp::Shl => text::sexp2("bvshl"@, left, right),
            BinOp::Shr => text::sexp2("bvashr"@, left, right),
            BinOp::UShr => text::sexp2("bvlshr"@, left, right),
            BinOp::Eq => test_text("="@, left, right, one, zero),
            BinOp::Ne => differ_text(left, right, one, zero),
            BinOp::Lt => test_text("bvslt"@, left, right, one, zero),
            BinOp::Le => test_text("bvsle"@, left, right, one, zero),
            BinOp::Gt => test_text("bvsgt"@, left, right, one, zero),
            BinOp::Ge => test_text("bvsge"@, left, right, one, zero),
        }
    }

    open spec fn neg_text(&self, operand: Seq<char>) -> Seq<char> {
        text::sexp1("bvneg"@, operand)
    }

    open spec fn cast_text(&self, ty: Ty, operand: Seq<char>) -> Seq<char> {
        match ty {
            Ty::Long => text::sexp1("(_ sign_extend 32)"@, operand),
            Ty::Int => text::sexp1("(_ extract 31 0)"@, operand),
            _ => operand,
        }
    }

    open spec fn order_text(&self, left: Seq<char>, right: Seq<char>) -> Seq<char> {
        ordering_text("bvslt"@, left, right, "#xffffffff"@, "#x00000000"@, "#x00000001"@)
    }

    open spec fn sort_text(&self, width: u32) -> Seq<char> {
        text::sexp2("_"@, "BitVec"@, text::dec(width as nat))
    }

    open spec fn is_zero_text(&self, operand: Seq<char>) -> Seq<char> {
        text::sexp2("="@, operand, "#x00000000"@)
    }

    fn encode_int(&self, value: i32) -> (s: String) {
        let bits: u64 = if value < 0 {
            (value as i64 + 0x1_0000_0000) as u64
        } else {
            value as u64
        };
        let h = hex_u64(bits, 8);
        prefixed("#x", h.as_str())
    }

    fn encode_long(&self, value: i64) -> (s: String) {
        let bits: u64 = if value < 0 {
            (value as i128 + 0x1_0000_0000_0000_0000) as u64
        } else {
            value as u64
        };
        let h = hex_u64(bits, 16);
        prefixed("#x", h.as_str())
    }

    fn encode_null(&self) -> (s: String) {
        "#x00000000".to_string()
    }

    fn encode_non_null(&self) -> (s: String) {
        "#x00000001".to_string()
    }

    fn encode_zero(&self) -> (s: String) {
        "#x00000000".to_string()
    }

    fn encode_true(&self) -> (s: String) {
        "#x00000001".to_string()
    }

    fn encode_false(&self) -> (s: String) {
        "#x00000000".to_string()
    }

    fn encode_binop(&self, op: &BinOp, left: &str, right: &str, fresh: &mut FreshPool) -> (s: String) {
        let one = "#x00000001";
        let zero = "#x00000000";
        match op {
            BinOp::Add => make_sexp2("bvadd", left, right),
            BinOp::Sub => make_sexp2("bvsub", left, right),
            BinOp::Mul => make_sexp2("bvmul", left, right),
            BinOp::Div => make_sexp2("bvsdiv", left, right),
            BinOp::Rem => make_sexp2("bvsrem", left, right),
            BinOp::And => make_sexp2("bvand", left, right),
            BinOp::Or => make_sexp2("bvor", left, right),
            BinOp::Xor => make_sexp2("bvxor", left, right),
            BinOp::Shl => make_sexp2("bvshl", left, right),
            BinOp::Shr => make_sexp2("bvashr", left, right),
            BinOp::UShr => make_sexp2("bvlshr", left, right),
            BinOp::Eq => make_test("=", left, right, one, zero),
            BinOp::Ne => make_differ(left, right, one, zero),
            BinOp::Lt => make_test("bvslt", left, right, one, zero),
            BinOp::Le => make_test("bvsle", left, right, one, zero),
            BinOp::Gt => make_test("bvsgt", left, right, one, zero),
            BinOp::Ge => make_test("bvsge", left, right, one, zero),
        }
    }

    fn supports_bitwise(&self) -> (r: bool) {
        true
    }

    fn encode_neg(&self, operand: &str) -> (s: String) {
        make_sexp1("bvneg", operand)
    }

    fn encode_cast(&self, ty: &Ty, operand: &str) -> (s: String) {
        match ty {
            Ty::Long => make_sexp1("(_ sign_extend 32)", operand),
            Ty::Int => make_sexp1("(_ extract 31 0)", operand),
            _ => operand.to_string(),
        }
    }

    fn encode_cmp(&self, left: &str, right: &str) -> (s: String) {
        make_ordering("bvslt", left, right, "#xffffffff", "#x00000000", "#x00000001")
    }

    fn declare_sort(&self, width: u32) -> (s: String) {
        let w = dec_u64(width as u64);
        make_sexp2("_", "BitVec", w.as_str())
    }

    fn encode_nonzero(&self, operand: &str) -> (s: String) {
        let z = make_sexp2("=", operand, "#x00000000");
        make_sexp1("not", z.as_str())
    }

    fn encode_is_zero(&self, operand: &str) -> (s: String) {
        make_sexp2("=", operand, "#x00000000")
    }
}

/// Linear integer arithmetic, for interpolation. It has no operators on bits.
#[derive(Debug)]
pub struct LiaTheory {
    pub prefix: String,
}

impl LiaTheory {
    pub fn new(prefix: &str) -> (r: Self)
        ensures
            r.prefix@ == prefix@,
    {
        LiaTheory { prefix: prefix.to_string() }
    }
}

/// A number as an SMT-LIB term.
pub open spec fn number_text(n: int) -> Seq<char> {
    if n < 0 {
        text::sexp1("-"@, text::dec((-n) as nat))
    } else {
        text::dec(n as nat)
    }
}

/// A number as an SMT-LIB term.
pub fn make_number(n: i64) -> (s: String)
    requires
        n != i64::MIN,
    ensures
        s@ == number_text(n as int),
{
    if n < 0 {
        let d = dec_u64((-n) as u64);
        make_sexp1("-", d.as_str())
    } else {
        dec_u64(n as u64)
    }
}

impl SmtTheory for LiaTheory {
    open spec fn bitwise(&self) -> bool {
        false
    }

    open spec fn has_long(&self, value: i64) -> bool {
        value != i64::MIN
    }

    open spec fn int_text(&self, value: i32) -> Seq<char> {
        number_text(value as int)
    }

    open spec fn long_text(&self, value: i64) -> Seq<char> {
        number_text(value as int)
    }

    open spec fn zero_text(&self) -> Seq<char> {
        "0"@
    }

    open spec fn one_text(&self) -> Seq<char> {
        "1"@
    }

    open spec fn binop_text(&self, op: BinOp, left: Seq<char>, right: Seq<char>) -> Seq<char> {
        match op {
            BinOp::Add => text::sexp2("+"@, left, right),
            BinOp::Sub => text::sexp2("-"@, left, right),
            BinOp::Mul => text::sexp2("*"@, left, right),
            BinOp::Div => text::sexp2("div"@, left, right),
            BinOp::Rem => text::sexp2("mod"@, left, right),
            BinOp::Eq => test_text("="@, left, right, "1"@, "0"@),
            BinOp::Ne => differ_text(left, right, "1"@, "0"@),
            BinOp::Lt => test_text("<"@, left, right, "1"@, "0"@),
            BinOp::Le => test_text("<="@, left, right, "1"@, "0"@),
            BinOp::Gt => test_text(">"@, left, right, "1"@, "0"@),
            BinOp::Ge => test_text(">="@, left, right, "1"@, "0"@),
            _ => Seq::empty(),
        }
    }

    open spec fn neg_text(&self, operand: Seq<char>) -> Seq<char> {
        text::sexp2("-"@, "0"@, operand)
    }

    open spec fn cast_text(&self, ty: Ty, operand: Seq<char>) -> Seq<char> {
        operand
    }

    open spec fn order_text(&self, left: Seq<char>, right: Seq<char>) -> Seq<char> {
        ordering_text("<"@, left, right, "(- 1)"@, "0"@, "1"@)
    }

    open spec fn sort_text(&self, width: u32) -> Seq<char> {
        "Int"@
    }

    open spec fn is_zero_text(&self, operand: Seq<char>) -> Seq<char> {
        text::sexp2("="@, operand, "0"@)
    }

    fn encode_int(&self, value: i32) -> (s: String) {
        make_number(value as i64)
    }

    fn encode_long(&self, value: i64) -> (s: String) {
        make_number(value)
    }

    fn encode_null(&self) -> (s: String) {
        "0".to_string()
    }

    fn encode_non_null(&self) -> (s: String) {
        "1".to_string()
    }

    fn encode_zero(&self) -> (s: String) {
        "0".to_string()
    }

    fn encode_true(&self) -> (s: String) {
        "1".to_string()
    }

    fn encode_false(&self) -> (s: String) {
        "0".to_string()
    }

    fn encode_binop(&self, op: &BinOp, left: &str, right: &str, fresh: &mut FreshPool) -> (s: String) {
        match op {
            BinOp::Add => make_sexp2("+", left, right),
            BinOp::Sub => make_sexp2("-", left, right),
            BinOp::Mul => make_sexp2("*", left, right),
            BinOp::Div => make_sexp2("div", left, right),
            BinOp::Rem => make_sexp2("mod", left, right),
            BinOp::Eq => make_test("=", left, right, "1", "0"),
            BinOp::Ne => make_differ(left, right, "1", "0"),
            BinOp::Lt => make_test("<", left, right, "1", "0"),
            BinOp::Le => make_test("<=", left, right, "1", "0"),
            BinOp::Gt => make_test(">", left, right, "1", "0"),
            BinOp::Ge => make_test(">=", left, right, "1", "0"),
            _ => fresh.make(32),
        }
    }

    fn supports_bitwise(&self) -> (r: bool) {
        false
    }

    fn encode_neg(&self, operand: &str) -> (s: String) {
        make_sexp2("-", "0", operand)
    }

    fn encode_cast(&self, _ty: &Ty, operand: &str) -> (s: String) {
        operand.to_string()
    }

    fn encode_cmp(&self, left: &str, right: &str) -> (s: String) {
        make_ordering("<", left, right, "(- 1)", "0", "1")
    }

    fn declare_sort(&self, _width: u32) -> (s: String) {
        "Int".to_string()
    }

    fn encode_nonzero(&self, operand: &str) -> (s: String) {
        let z = make_sexp2("=", operand, "0");
        make_sexp1("not", z.as_str())
    }

    fn encode_is_zero(&self, operand: &str) -> (s: String) {
        make_sexp2("=", operand, "0")
    }
}

/// One outgoing edge of a block.
pub struct Transition<'a> {
    pub from: BlockId,
    /// `None` for a terminator that leaves the body.
    pub to: Option<BlockId>,
    /// What holds when the edge is taken.
    pub conds: &'a [String],
    /// The text of each variable at the end of the block.
    pub var_exprs: &'a [String],
    /// Equations for intermediate results.
    pub bindings: &'a [String],
    /// The symbols that the block introduced, which the sink must bind.
    pub fresh: &'a [(String, u32)],
}

/// An obligation that can be violated in a block.
pub struct ErrorSite<'a> {
    pub block: BlockId,
    pub obligation: ObligationId,
    /// What holds when the obligation is violated.
    pub conds: &'a [String],
    pub bindings: &'a [String],
    pub fresh: &'a [(String, u32)],
}

/// View of [`Transition`].
#[verifier::ext_equal]
pub struct TransitionV {
    pub from: BlockId,
    pub to: Option<BlockId>,
    pub conds: Seq<Seq<char>>,
    pub var_exprs: Seq<Seq<char>>,
    pub bindings: Seq<Seq<char>>,
    pub fresh: Seq<(Seq<char>, u32)>,
}

/// View of [`ErrorSite`].
#[verifier::ext_equal]
pub struct ErrorSiteV {
    pub block: BlockId,
    pub obligation: ObligationId,
    pub conds: Seq<Seq<char>>,
    pub bindings: Seq<Seq<char>>,
    pub fresh: Seq<(Seq<char>, u32)>,
}

impl<'a> View for Transition<'a> {
    type V = TransitionV;

    open spec fn view(&self) -> TransitionV {
        TransitionV {
            from: self.from,
            to: self.to,
            conds: text::views(self.conds@),
            var_exprs: text::views(self.var_exprs@),
            bindings: text::views(self.bindings@),
            fresh: symbol_views(self.fresh@),
        }
    }
}

impl<'a> View for ErrorSite<'a> {
    type V = ErrorSiteV;

    open spec fn view(&self) -> ErrorSiteV {
        ErrorSiteV {
            block: self.block,
            obligation: self.obligation,
            conds: text::views(self.conds@),
            bindings: text::views(self.bindings@),
            fresh: symbol_views(self.fresh@),
        }
    }
}

/// What a walk hands to a sink.
#[verifier::ext_equal]
pub enum Clause {
    Transition(TransitionV),
    Error(ErrorSiteV),
}

/// What an encoder does with the edges of a body.
pub trait ClauseSink {
    /// Everything that was handed to the sink, in order.
    spec fn seen(&self) -> Seq<Clause>;

    fn transition(&mut self, t: Transition<'_>)
        ensures
            final(self).seen() == old(self).seen().push(Clause::Transition(t@)),
    ;

    fn error(&mut self, e: ErrorSite<'_>)
        ensures
            final(self).seen() == old(self).seen().push(Clause::Error(e@)),
    ;
}

/// A clause that was handed to a [`ClauseList`].
#[derive(Debug)]
pub enum Recorded {
    Transition {
        from: BlockId,
        to: Option<BlockId>,
        conds: Vec<String>,
        var_exprs: Vec<String>,
        bindings: Vec<String>,
        fresh: Vec<(String, u32)>,
    },
    Error {
        block: BlockId,
        obligation: ObligationId,
        conds: Vec<String>,
        bindings: Vec<String>,
        fresh: Vec<(String, u32)>,
    },
}

impl View for Recorded {
    type V = Clause;

    open spec fn view(&self) -> Clause {
        match *self {
            Recorded::Transition { from, to, conds, var_exprs, bindings, fresh } => {
                Clause::Transition(
                    TransitionV {
                        from,
                        to,
                        conds: text::views(conds@),
                        var_exprs: text::views(var_exprs@),
                        bindings: text::views(bindings@),
                        fresh: symbol_views(fresh@),
                    },
                )
            },
            Recorded::Error { block, obligation, conds, bindings, fresh } => Clause::Error(
                ErrorSiteV {
                    block,
                    obligation,
                    conds: text::views(conds@),
                    bindings: text::views(bindings@),
                    fresh: symbol_views(fresh@),
                },
            ),
        }
    }
}

/// A sink that keeps what it is handed.
#[derive(Debug)]
pub struct ClauseList {
    pub clauses: Vec<Recorded>,
}

fn keep_texts(v: &[String]) -> (r: Vec<String>)
    ensures
        r@ == v@,
{
    let mut r: Vec<String> = Vec::new();
    let mut i: usize = 0;
    while i < v.len()
        invariant
            i <= v@.len(),
            r@ == v@.take(i as int),
        decreases v@.len() - i,
    {
        r.push(v[i].clone());
        i += 1;
    }
    proof {
        assert(r@ =~= v@);
    }
    r
}

fn keep_symbols(v: &[(String, u32)]) -> (r: Vec<(String, u32)>)
    ensures
        r@ == v@,
{
    let mut r: Vec<(String, u32)> = Vec::new();
    let mut i: usize = 0;
    while i < v.len()
        invariant
            i <= v@.len(),
            r@ == v@.take(i as int),
        decreases v@.len() - i,
    {
        r.push((v[i].0.clone(), v[i].1));
        i += 1;
    }
    proof {
        assert(r@ =~= v@);
    }
    r
}

impl ClauseSink for ClauseList {
    open spec fn seen(&self) -> Seq<Clause> {
        self.clauses@.map_values(|c: Recorded| c@)
    }

    fn transition(&mut self, t: Transition<'_>) {
        let c = Recorded::Transition {
            from: t.from,
            to: t.to,
            conds: keep_texts(t.conds),
            var_exprs: keep_texts(t.var_exprs),
            bindings: keep_texts(t.bindings),
            fresh: keep_symbols(t.fresh),
        };
        self.clauses.push(c);
        proof {
            assert(self.seen() =~= old(self).seen().push(c@));
        }
    }

    fn error(&mut self, e: ErrorSite<'_>) {
        let c = Recorded::Error {
            block: e.block,
            obligation: e.obligation,
            conds: keep_texts(e.conds),
            bindings: keep_texts(e.bindings),
            fresh: keep_symbols(e.fresh),
        };
        self.clauses.push(c);
        proof {
            assert(self.seen() =~= old(self).seen().push(c@));
        }
    }
}

/// Equations for the values after an edge, one for each of the first `n`
/// variables: the name after the edge is the number of the variable between
/// `before` and `after`.
pub open spec fn post_equations(
    exprs: Seq<Seq<char>>,
    before: Seq<char>,
    after: Seq<char>,
    n: nat,
) -> Seq<Seq<char>>
    decreases n,
{
    if n == 0 {
        Seq::empty()
    } else {
        let rest = post_equations(exprs, before, after, (n - 1) as nat);
        let post = before + text::dec((n - 1) as nat) + after;
        if exprs[n - 1] == post {
            rest
        } else {
            rest.push(text::sexp2("="@, post, exprs[n - 1]))
        }
    }
}

/// What holds on an edge: the equations for intermediate results, the conditions,
/// and the values after it.
pub open spec fn edge_facts(t: TransitionV, before: Seq<char>, after: Seq<char>) -> Seq<Seq<char>> {
    t.bindings + t.conds + post_equations(t.var_exprs, before, after, t.var_exprs.len())
}

fn push_all(v: &mut Vec<String>, more: &Vec<String>)
    ensures
        text::views(final(v)@) == text::views(old(v)@) + text::views(more@),
{
    let ghost before = text::views(v@);
    let mut i: usize = 0;
    while i < more.len()
        invariant
            i <= more@.len(),
            text::views(v@) == before + text::views(more@).take(i as int),
        decreases more@.len() - i,
    {
        push_text(v, more[i].clone());
        proof {
            assert(text::views(more@).take(i + 1) =~= text::views(more@).take(i as int).push(
                more@[i as int]@,
            ));
        }
        i += 1;
    }
    proof {
        assert(text::views(more@).take(i as int) =~= text::views(more@));
    }
}

/// The equations and conditions of a clause, one list after the other.
pub fn make_facts(bindings: &Vec<String>, conds: &Vec<String>) -> (r: Vec<String>)
    ensures
        text::views(r@) == text::views(bindings@) + text::views(conds@),
{
    let mut r = copy_texts(bindings);
    push_all(&mut r, conds);
    r
}

/// What holds on an edge.
pub fn make_edge_facts(
    bindings: &Vec<String>,
    conds: &Vec<String>,
    var_exprs: &Vec<String>,
    before: &str,
    after: &str,
) -> (r: Vec<String>)
    ensures
        text::views(r@) == text::views(bindings@) + text::views(conds@) + post_equations(
            text::views(var_exprs@),
            before@,
            after@,
            var_exprs@.len(),
        ),
{
    let mut r = make_facts(bindings, conds);
    let ghost base = text::views(r@);
    let ghost exprs = text::views(var_exprs@);
    let mut i: usize = 0;
    proof {
        assert(text::views(r@) =~= base + post_equations(exprs, before@, after@, 0));
    }
    while i < var_exprs.len()
        invariant
            i <= var_exprs@.len(),
            exprs == text::views(var_exprs@),
            text::views(r@) == base + post_equations(exprs, before@, after@, i as nat),
        decreases var_exprs@.len() - i,
    {
        let mut post = numbered(before, i as u64);
        post.append(after);
        let ghost had = text::views(r@);
        if !same(var_exprs[i].as_str(), post.as_str()) {
            push_text(&mut r, make_sexp2("=", post.as_str(), var_exprs[i].as_str()));
        }
        proof {
            assert(exprs[i as int] == var_exprs@[i as int]@);
            assert(text::views(r@) =~= base + post_equations(exprs, before@, after@, (i + 1) as nat));
        }
        i += 1;
    }
    r
}

/// A symbol or a literal: short enough to be put in place of a variable.
pub open spec fn trivial(e: Seq<char>) -> bool {
    !text::starts(e, "("@)
}

/// Where a walk stands in a block.
#[verifier::ext_equal]
pub struct Point {
    /// The text of each variable.
    pub vars: Seq<Seq<char>>,
    /// What was assumed.
    pub conds: Seq<Seq<char>>,
    /// Equations for intermediate results.
    pub bindings: Seq<Seq<char>>,
    pub pool: PoolV,
}

/// The text of each variable in a list.
pub open spec fn by_index(vars: Seq<Seq<char>>) -> spec_fn(nat) -> Seq<char> {
    |i: nat| text_at(vars, i)
}

/// At the start of a block each variable has its own name.
pub open spec fn block_start(body: Body, pool: PoolV) -> Point {
    Point {
        vars: Seq::new(body.vars@.len(), |i: int| plain(i as nat)),
        conds: Seq::empty(),
        bindings: Seq::empty(),
        pool,
    }
}

/// After a statement. A result that is not trivial gets a name, so that the text
/// stays linear in the number of statements.
pub open spec fn step<T: SmtTheory>(theory: &T, body: Body, s: Stmt, p: Point) -> Point {
    match s {
        Stmt::Assign(v, rv) => {
            let e = rvalue_text(theory, rv, by_index(p.vars), p.pool);
            let pool = rvalue_pool(theory, rv, p.pool);
            if trivial(e) {
                Point { vars: p.vars.update(v.0 as int, e), pool, ..p }
            } else {
                Point {
                    vars: p.vars.update(v.0 as int, pool.next()),
                    bindings: p.bindings.push(text::sexp2("="@, pool.next(), e)),
                    pool: pool.with(width(body.vars@[v.0 as int].ty)),
                    ..p
                }
            }
        },
        Stmt::Assume(o) => Point {
            conds: p.conds.push(
                text::sexp1(
                    "not"@,
                    theory.is_zero_text(operand_text(theory, o, by_index(p.vars))),
                ),
            ),
            ..p
        },
        _ => p,
    }
}

/// After the first `n` statements of a block.
pub open spec fn stmts_point<T: SmtTheory>(
    theory: &T,
    body: Body,
    stmts: Seq<Stmt>,
    pool: PoolV,
    n: nat,
) -> Point
    decreases n,
{
    if n == 0 {
        block_start(body, pool)
    } else {
        step(theory, body, stmts[n - 1], stmts_point(theory, body, stmts, pool, (n - 1) as nat))
    }
}

/// The error site of a check of a selected obligation.
pub open spec fn error_of<T: SmtTheory>(
    theory: &T,
    body: Body,
    selected: Seq<ObligationId>,
    block: BlockId,
    s: Stmt,
    p: Point,
    mark: nat,
) -> Seq<Clause> {
    match s {
        Stmt::Check(id) => if selected.contains(id) {
            let c = operand_text(
                theory,
                body.obligations@[id.0 as int].cond,
                by_index(p.vars),
            );
            seq![
                Clause::Error(
                    ErrorSiteV {
                        block,
                        obligation: id,
                        conds: p.conds.push(theory.is_zero_text(c)),
                        bindings: p.bindings,
                        fresh: p.pool.since(mark),
                    },
                ),
            ]
        } else {
            Seq::empty()
        },
        _ => Seq::empty(),
    }
}

/// The error sites of the first `n` statements of a block.
pub open spec fn errors_of<T: SmtTheory>(
    theory: &T,
    body: Body,
    selected: Seq<ObligationId>,
    block: Block,
    pool: PoolV,
    n: nat,
) -> Seq<Clause>
    decreases n,
{
    if n == 0 {
        Seq::empty()
    } else {
        let m = (n - 1) as nat;
        errors_of(theory, body, selected, block, pool, m) + error_of(
            theory,
            body,
            selected,
            block.id,
            block.stmts@[n - 1],
            stmts_point(theory, body, block.stmts@, pool, m),
            pool.issued.len(),
        )
    }
}

/// An edge with additional conditions.
pub open spec fn edge_clause(
    from: BlockId,
    to: Option<BlockId>,
    extra: Seq<Seq<char>>,
    p: Point,
    mark: nat,
) -> Clause {
    Clause::Transition(
        TransitionV {
            from,
            to,
            conds: p.conds + extra,
            var_exprs: p.vars,
            bindings: p.bindings,
            fresh: p.pool.since(mark),
        },
    )
}

/// The condition of a case of a switch.
pub open spec fn case_text<T: SmtTheory>(theory: &T, value: Seq<char>, case: i32) -> Seq<char> {
    text::sexp2("="@, value, theory.int_text(case))
}

/// The conditions of the first `n` cases, each negated.
pub open spec fn no_case<T: SmtTheory>(
    theory: &T,
    value: Seq<char>,
    cases: Seq<(i32, BlockId)>,
    n: nat,
) -> Seq<Seq<char>> {
    Seq::new(n, |i: int| text::sexp1("not"@, case_text(theory, value, cases[i].0)))
}

/// The edges of the first `n` cases of a switch.
pub open spec fn case_edges<T: SmtTheory>(
    theory: &T,
    from: BlockId,
    value: Seq<char>,
    cases: Seq<(i32, BlockId)>,
    p: Point,
    mark: nat,
    n: nat,
) -> Seq<Clause> {
    Seq::new(
        n,
        |i: int|
            edge_clause(
                from,
                Some(cases[i].1),
                seq![case_text(theory, value, cases[i].0)],
                p,
                mark,
            ),
    )
}

/// The edges of a terminator. A throw and what is not modelled have none.
pub open spec fn term_edges<T: SmtTheory>(theory: &T, block: Block, p: Point, mark: nat) -> Seq<
    Clause,
> {
    match block.term {
        Terminator::Goto(t) => seq![edge_clause(block.id, Some(t), Seq::empty(), p, mark)],
        Terminator::Branch { cond, then_, else_ } => {
            let zero = theory.is_zero_text(operand_text(theory, cond, by_index(p.vars)));
            seq![
                edge_clause(block.id, Some(then_), seq![text::sexp1("not"@, zero)], p, mark),
                edge_clause(block.id, Some(else_), seq![zero], p, mark),
            ]
        },
        Terminator::Switch { value, cases, default } => {
            let v = operand_text(theory, value, by_index(p.vars));
            let n = cases@.len();
            case_edges(theory, block.id, v, cases@, p, mark, n).push(
                edge_clause(block.id, Some(default), no_case(theory, v, cases@, n), p, mark),
            )
        },
        Terminator::Return(_) | Terminator::Halt => seq![
            edge_clause(block.id, None, Seq::empty(), p, mark),
        ],
        _ => Seq::empty(),
    }
}

/// What the walk hands over for a block.
pub open spec fn block_clauses<T: SmtTheory>(
    theory: &T,
    body: Body,
    selected: Seq<ObligationId>,
    block: Block,
    pool: PoolV,
) -> Seq<Clause> {
    let n = block.stmts@.len();
    errors_of(theory, body, selected, block, pool, n) + term_edges(
        theory,
        block,
        stmts_point(theory, body, block.stmts@, pool, n),
        pool.issued.len(),
    )
}

/// The symbols handed out after the first `n` blocks.
pub open spec fn walk_pool<T: SmtTheory>(theory: &T, body: Body, pool: PoolV, n: nat) -> PoolV
    decreases n,
{
    if n == 0 {
        pool
    } else {
        let stmts = body.blocks@[n - 1].stmts@;
        stmts_point(
            theory,
            body,
            stmts,
            walk_pool(theory, body, pool, (n - 1) as nat),
            stmts.len(),
        ).pool
    }
}

/// What the walk hands over for the first `n` blocks.
pub open spec fn walk_clauses<T: SmtTheory>(
    theory: &T,
    body: Body,
    selected: Seq<ObligationId>,
    pool: PoolV,
    n: nat,
) -> Seq<Clause>
    decreases n,
{
    if n == 0 {
        Seq::empty()
    } else {
        let m = (n - 1) as nat;
        walk_clauses(theory, body, selected, pool, m) + block_clauses(
            theory,
            body,
            selected,
            body.blocks@[n - 1],
            walk_pool(theory, body, pool, m),
        )
    }
}

/// Can the theory write what the walk mentions of a statement?
pub open spec fn stmt_writable<T: SmtTheory>(
    theory: &T,
    body: Body,
    selected: Seq<ObligationId>,
    s: Stmt,
) -> bool {
    match s {
        Stmt::Assign(_, rv) => all_writable(theory, mentioned(rv)),
        Stmt::Assume(o) => writable(theory, o),
        Stmt::Check(id) => selected.contains(id) ==> writable(
            theory,
            body.obligations@[id.0 as int].cond,
        ),
        _ => true,
    }
}

/// Can the theory write what the walk mentions of a block?
pub open spec fn block_writable<T: SmtTheory>(
    theory: &T,
    body: Body,
    selected: Seq<ObligationId>,
    b: Block,
) -> bool {
    &&& forall|j: int|
        0 <= j < b.stmts@.len() ==> stmt_writable(theory, body, selected, #[trigger] b.stmts@[j])
    &&& match b.term {
        Terminator::Branch { cond, .. } => writable(theory, cond),
        Terminator::Switch { value, .. } => writable(theory, value),
        _ => true,
    }
}

/// Can the theory write what the walk mentions of a body?
pub open spec fn body_writable<T: SmtTheory>(theory: &T, body: Body, selected: Seq<ObligationId>) -> bool {
    forall|i: int|
        0 <= i < body.blocks@.len() ==> block_writable(
            theory,
            body,
            selected,
            #[trigger] body.blocks@[i],
        )
}

/// The texts at a point of the walk.
struct Cursor {
    vars: Vec<String>,
    conds: Vec<String>,
    bindings: Vec<String>,
}

impl Cursor {
    spec fn point(self, pool: PoolV) -> Point {
        Point {
            vars: text::views(self.vars@),
            conds: text::views(self.conds@),
            bindings: text::views(self.bindings@),
            pool,
        }
    }
}

fn copy_texts(v: &Vec<String>) -> (r: Vec<String>)
    ensures
        r@ == v@,
{
    let r = v.clone();
    proof {
        assert(r@ =~= v@);
    }
    r
}

fn push_text(v: &mut Vec<String>, s: String)
    ensures
        text::views(final(v)@) == text::views(old(v)@).push(s@),
{
    v.push(s);
    proof {
        assert(text::views(v@) =~= text::views(old(v)@).push(s@));
    }
}

proof fn lemma_texts(vars: Vec<String>)
    ensures
        texts(&vars) == by_index(text::views(vars@)),
{
    assert(texts(&vars) =~= by_index(text::views(vars@)));
}

fn is_selected(selected: &[ObligationId], id: ObligationId) -> (r: bool)
    ensures
        r == selected@.contains(id),
{
    let mut i: usize = 0;
    while i < selected.len()
        invariant
            i <= selected@.len(),
            forall|j: int| 0 <= j < i ==> selected@[j] != id,
        decreases selected@.len() - i,
    {
        if selected[i] == id {
            return true;
        }
        i += 1;
    }
    false
}

/// A symbol or a literal: short enough to be put in place of a variable.
fn is_trivial_expr(e: &str) -> (r: bool)
    ensures
        r == trivial(e@),
{
    !starts_with(e, "(")
}

fn start_block(body: &Body, Ghost(pool): Ghost<PoolV>) -> (c: Cursor)
    ensures
        c.vars@.len() == body.vars@.len(),
        c.point(pool) == block_start(*body, pool),
{
    let mut vars: Vec<String> = Vec::new();
    let mut i: usize = 0;
    while i < body.vars.len()
        invariant
            i <= body.vars@.len(),
            vars@.len() == i,
            forall|j: int| 0 <= j < i ==> (#[trigger] vars@[j])@ == plain(j as nat),
        decreases body.vars@.len() - i,
    {
        vars.push(numbered("v", i as u64));
        i += 1;
    }
    let c = Cursor { vars, conds: Vec::new(), bindings: Vec::new() };
    proof {
        assert(c.point(pool) =~= block_start(*body, pool));
    }
    c
}

fn do_stmt<T: SmtTheory>(theory: &T, body: &Body, s: &Stmt, c: &mut Cursor, fresh: &mut FreshPool)
    requires
        old(c).vars@.len() == body.vars@.len(),
        body.vars@.len() <= u32::MAX,
        s matches Stmt::Assign(v, rv) ==> v.0 < body.vars@.len() && all_writable(
            theory,
            mentioned(*rv),
        ),
        s matches Stmt::Assume(o) ==> writable(theory, *o),
    ensures
        final(c).vars@.len() == body.vars@.len(),
        final(c).point(final(fresh)@) == step(theory, *body, *s, old(c).point(old(fresh)@)),
{
    let ghost before = c.point(fresh@);
    proof {
        lemma_texts(c.vars);
    }
    match s {
        Stmt::Assign(v, rv) => {
            let expr = encode_rvalue(theory, rv, &c.vars, fresh);
            if is_trivial_expr(expr.as_str()) {
                c.vars.set(v.0 as usize, expr);
            } else {
                let tmp = fresh.make(width_of_ty(&body.vars[v.0 as usize].ty));
                push_text(&mut c.bindings, make_sexp2("=", tmp.as_str(), expr.as_str()));
                c.vars.set(v.0 as usize, tmp);
            }
            proof {
                assert(text::views(c.vars@) =~= step(theory, *body, *s, before).vars);
            }
        },
        Stmt::Assume(op) => {
            let expr = encode_operand(theory, op, &c.vars);
            push_text(&mut c.conds, theory.encode_nonzero(expr.as_str()));
        },
        _ => {},
    }
}

fn emit<S: ClauseSink>(
    sink: &mut S,
    from: BlockId,
    to: Option<BlockId>,
    extra: &Vec<String>,
    c: &Cursor,
    fresh: &FreshPool,
    mark: usize,
)
    ensures
        final(sink).seen() == old(sink).seen().push(
            edge_clause(from, to, text::views(extra@), c.point(fresh@), mark as nat),
        ),
{
    let mut conds = copy_texts(&c.conds);
    let mut i: usize = 0;
    while i < extra.len()
        invariant
            i <= extra@.len(),
            text::views(conds@) == text::views(c.conds@) + text::views(extra@).take(i as int),
        decreases extra@.len() - i,
    {
        push_text(&mut conds, extra[i].clone());
        proof {
            assert(text::views(extra@).take(i + 1) =~= text::views(extra@).take(i as int).push(
                extra@[i as int]@,
            ));
        }
        i += 1;
    }
    let t = Transition {
        from,
        to,
        conds: conds.as_slice(),
        var_exprs: c.vars.as_slice(),
        bindings: c.bindings.as_slice(),
        fresh: fresh.issued_since(mark),
    };
    proof {
        assert(text::views(extra@).take(i as int) =~= text::views(extra@));
        assert(Clause::Transition(t@) == edge_clause(
            from,
            to,
            text::views(extra@),
            c.point(fresh@),
            mark as nat,
        ));
    }
    sink.transition(t);
}

fn emit_if<S: ClauseSink>(
    sink: &mut S,
    from: BlockId,
    to: BlockId,
    cond: String,
    c: &Cursor,
    fresh: &FreshPool,
    mark: usize,
)
    ensures
        final(sink).seen() == old(sink).seen().push(
            edge_clause(from, Some(to), seq![cond@], c.point(fresh@), mark as nat),
        ),
{
    let mut extra: Vec<String> = Vec::new();
    extra.push(cond);
    proof {
        assert(text::views(extra@) =~= seq![cond@]);
    }
    emit(sink, from, Some(to), &extra, c, fresh, mark);
}

fn do_switch<T: SmtTheory, S: ClauseSink>(
    theory: &T,
    from: BlockId,
    value: &str,
    cases: &Vec<(i32, BlockId)>,
    default: BlockId,
    c: &Cursor,
    fresh: &FreshPool,
    mark: usize,
    sink: &mut S,
)
    ensures
        final(sink).seen() == old(sink).seen() + case_edges(
            theory,
            from,
            value@,
            cases@,
            c.point(fresh@),
            mark as nat,
            cases@.len(),
        ).push(
            edge_clause(
                from,
                Some(default),
                no_case(theory, value@, cases@, cases@.len()),
                c.point(fresh@),
                mark as nat,
            ),
        ),
{
    let ghost p = c.point(fresh@);
    let ghost before = sink.seen();
    let mut neg: Vec<String> = Vec::new();
    let mut i: usize = 0;
    proof {
        assert(case_edges(theory, from, value@, cases@, p, mark as nat, 0) =~= Seq::empty());
        assert(text::views(neg@) =~= no_case(theory, value@, cases@, 0));
    }
    while i < cases.len()
        invariant
            i <= cases@.len(),
            p == c.point(fresh@),
            sink.seen() == before + case_edges(
                theory,
                from,
                value@,
                cases@,
                p,
                mark as nat,
                i as nat,
            ),
            text::views(neg@) == no_case(theory, value@, cases@, i as nat),
        decreases cases@.len() - i,
    {
        let n = theory.encode_int(cases[i].0);
        let eq = make_sexp2("=", value, n.as_str());
        push_text(&mut neg, make_sexp1("not", eq.as_str()));
        emit_if(sink, from, cases[i].1, eq, c, fresh, mark);
        proof {
            assert(case_edges(theory, from, value@, cases@, p, mark as nat, (i + 1) as nat)
                =~= case_edges(theory, from, value@, cases@, p, mark as nat, i as nat).push(
                edge_clause(
                    from,
                    Some(cases@[i as int].1),
                    seq![case_text(theory, value@, cases@[i as int].0)],
                    p,
                    mark as nat,
                ),
            ));
            assert(no_case(theory, value@, cases@, (i + 1) as nat) =~= no_case(
                theory,
                value@,
                cases@,
                i as nat,
            ).push(text::sexp1("not"@, case_text(theory, value@, cases@[i as int].0))));
        }
        i += 1;
    }
    emit(sink, from, Some(default), &neg, c, fresh, mark);
}

fn do_term<T: SmtTheory, S: ClauseSink>(
    theory: &T,
    block: &Block,
    c: &Cursor,
    fresh: &FreshPool,
    mark: usize,
    sink: &mut S,
)
    requires
        match block.term {
            Terminator::Branch { cond, .. } => writable(theory, cond),
            Terminator::Switch { value, .. } => writable(theory, value),
            _ => true,
        },
    ensures
        final(sink).seen() == old(sink).seen() + term_edges(
            theory,
            *block,
            c.point(fresh@),
            mark as nat,
        ),
{
    proof {
        lemma_texts(c.vars);
    }
    let none: Vec<String> = Vec::new();
    proof {
        assert(text::views(none@) =~= Seq::empty());
    }
    match &block.term {
        Terminator::Goto(t) => emit(sink, block.id, Some(*t), &none, c, fresh, mark),
        Terminator::Branch { cond, then_, else_ } => {
            let e = encode_operand(theory, cond, &c.vars);
            let nz = theory.encode_nonzero(e.as_str());
            let z = theory.encode_is_zero(e.as_str());
            emit_if(sink, block.id, *then_, nz, c, fresh, mark);
            emit_if(sink, block.id, *else_, z, c, fresh, mark);
        },
        Terminator::Switch { value, cases, default } => {
            let e = encode_operand(theory, value, &c.vars);
            do_switch(theory, block.id, e.as_str(), cases, *default, c, fresh, mark, sink);
        },
        Terminator::Return(_) | Terminator::Halt => emit(
            sink,
            block.id,
            None,
            &none,
            c,
            fresh,
            mark,
        ),
        Terminator::Throw(_) | Terminator::Diverge(_) => {},
    }
    proof {
        assert(sink.seen() =~= old(sink).seen() + term_edges(
            theory,
            *block,
            c.point(fresh@),
            mark as nat,
        ));
    }
}

fn do_check<T: SmtTheory, S: ClauseSink>(
    theory: &T,
    body: &Body,
    selected: &[ObligationId],
    block: BlockId,
    s: &Stmt,
    c: &Cursor,
    fresh: &FreshPool,
    mark: usize,
    sink: &mut S,
)
    requires
        s matches Stmt::Check(id) ==> id.0 < body.obligations@.len(),
        stmt_writable(theory, *body, selected@, *s),
    ensures
        final(sink).seen() == old(sink).seen() + error_of(
            theory,
            *body,
            selected@,
            block,
            *s,
            c.point(fresh@),
            mark as nat,
        ),
{
    if let Stmt::Check(id) = s {
        if is_selected(selected, *id) {
            proof {
                lemma_texts(c.vars);
            }
            let e = encode_operand(theory, &body.obligation(*id).cond, &c.vars);
            let mut conds = copy_texts(&c.conds);
            push_text(&mut conds, theory.encode_is_zero(e.as_str()));
            let site = ErrorSite {
                block,
                obligation: *id,
                conds: conds.as_slice(),
                bindings: c.bindings.as_slice(),
                fresh: fresh.issued_since(mark),
            };
            sink.error(site);
        }
    }
    proof {
        assert(sink.seen() =~= old(sink).seen() + error_of(
            theory,
            *body,
            selected@,
            block,
            *s,
            c.point(fresh@),
            mark as nat,
        ));
    }
}

fn walk_block<T: SmtTheory, S: ClauseSink>(
    body: &Body,
    theory: &T,
    obligations: &[ObligationId],
    block: &Block,
    fresh: &mut FreshPool,
    sink: &mut S,
)
    requires
        body.well_formed(),
        block.in_range(body.blocks@.len(), body.vars@.len(), body.obligations@.len()),
        block_writable(theory, *body, obligations@, *block),
    ensures
        final(sink).seen() == old(sink).seen() + block_clauses(
            theory,
            *body,
            obligations@,
            *block,
            old(fresh)@,
        ),
        final(fresh)@ == stmts_point(
            theory,
            *body,
            block.stmts@,
            old(fresh)@,
            block.stmts@.len(),
        ).pool,
{
    let ghost pool = fresh@;
    let ghost before = sink.seen();
    let mark = fresh.mark();
    let mut c = start_block(body, Ghost(pool));
    let mut i: usize = 0;
    proof {
        assert(sink.seen() =~= before + errors_of(theory, *body, obligations@, *block, pool, 0));
    }
    while i < block.stmts.len()
        invariant
            i <= block.stmts@.len(),
            body.well_formed(),
            block.in_range(body.blocks@.len(), body.vars@.len(), body.obligations@.len()),
            block_writable(theory, *body, obligations@, *block),
            mark == pool.issued.len(),
            c.vars@.len() == body.vars@.len(),
            c.point(fresh@) == stmts_point(theory, *body, block.stmts@, pool, i as nat),
            sink.seen() == before + errors_of(
                theory,
                *body,
                obligations@,
                *block,
                pool,
                i as nat,
            ),
        decreases block.stmts@.len() - i,
    {
        let s = &block.stmts[i];
        proof {
            assert(stmt_writable(theory, *body, obligations@, block.stmts@[i as int]));
        }
        do_check(theory, body, obligations, block.id, s, &c, fresh, mark, sink);
        proof {
            assert(sink.seen() =~= before + errors_of(
                theory,
                *body,
                obligations@,
                *block,
                pool,
                (i + 1) as nat,
            ));
        }
        do_stmt(theory, body, s, &mut c, fresh);
        i += 1;
    }
    do_term(theory, block, &c, fresh, mark, sink);
    proof {
        assert(sink.seen() =~= before + block_clauses(theory, *body, obligations@, *block, pool));
    }
}

/// Walk the blocks of a body in order and hand every error site and every
/// outgoing edge to the sink. Only checks of the given obligations make error
/// sites.
pub fn walk_body<T: SmtTheory, S: ClauseSink>(
    body: &Body,
    theory: &T,
    obligations: &[ObligationId],
    fresh: &mut FreshPool,
    sink: &mut S,
)
    requires
        body.well_formed(),
        body_writable(theory, *body, obligations@),
    ensures
        final(sink).seen() == old(sink).seen() + walk_clauses(
            theory,
            *body,
            obligations@,
            old(fresh)@,
            body.blocks@.len(),
        ),
        final(fresh)@ == walk_pool(theory, *body, old(fresh)@, body.blocks@.len()),
{
    let ghost pool = fresh@;
    let ghost before = sink.seen();
    let mut i: usize = 0;
    proof {
        assert(sink.seen() =~= before + walk_clauses(theory, *body, obligations@, pool, 0));
    }
    while i < body.blocks.len()
        invariant
            i <= body.blocks@.len(),
            body.well_formed(),
            body_writable(theory, *body, obligations@),
            fresh@ == walk_pool(theory, *body, pool, i as nat),
            sink.seen() == before + walk_clauses(theory, *body, obligations@, pool, i as nat),
        decreases body.blocks@.len() - i,
    {
        proof {
            assert(block_writable(theory, *body, obligations@, body.blocks@[i as int]));
            assert(body.blocks@[i as int].in_range(
                body.blocks@.len(),
                body.vars@.len(),
                body.obligations@.len(),
            ));
        }
        walk_block(body, theory, obligations, &body.blocks[i], fresh, sink);
        proof {
            assert(sink.seen() =~= before + walk_clauses(
                theory,
                *body,
                obligations@,
                pool,
                (i + 1) as nat,
            ));
        }
        i += 1;
    }
}

/// The conjunction of conditions.
pub open spec fn conjunction(parts: Seq<Seq<char>>) -> Seq<char> {
    if parts.len() == 0 {
        "true"@
    } else if parts.len() == 1 {
        parts[0]
    } else {
        text::sexp1("and"@, text::join_with(parts, " "@))
    }
}

/// The conjunction of conditions.
pub fn conjoin(parts: &[String]) -> (s: String)
    ensures
        s@ == conjunction(text::views(parts@)),
{
    if parts.len() == 0 {
        "true".to_string()
    } else if parts.len() == 1 {
        parts[0].clone()
    } else {
        let mut v: Vec<String> = Vec::new();
        let mut i: usize = 0;
        while i < parts.len()
            invariant
                i <= parts@.len(),
                v@ == parts@.take(i as int),
            decreases parts@.len() - i,
        {
            v.push(parts[i].clone());
            i += 1;
        }
        proof {
            assert(v@ =~= parts@);
        }
        let j = make_join(&v, " ");
        make_sexp1("and", j.as_str())
    }
}

/// At every point of a block the text of each variable is a symbol or a literal,
/// however many statements came before: nothing is substituted into anything.
pub proof fn law_variables_stay_symbols<T: SmtTheory>(
    theory: &T,
    body: Body,
    stmts: Seq<Stmt>,
    pool: PoolV,
    n: nat,
    i: int,
)
    requires
        trivial(pool.prefix),
        n <= stmts.len(),
        forall|j: int|
            0 <= j < stmts.len() ==> (#[trigger] stmts[j] matches Stmt::Assign(v, _) ==> v.0
                < body.vars@.len()),
        0 <= i < body.vars@.len(),
    ensures
        stmts_point(theory, body, stmts, pool, n).vars.len() == body.vars@.len(),
        trivial(stmts_point(theory, body, stmts, pool, n).vars[i]),
        stmts_point(theory, body, stmts, pool, n).pool.prefix == pool.prefix,
        stmts_point(theory, body, stmts, pool, n).bindings.len() <= n,
    decreases n,
{
    reveal_strlit("(");
    reveal_strlit("v");
    let p = stmts_point(theory, body, stmts, pool, n);
    if n == 0 {
        assert(p.vars[i] == plain(i as nat));
        assert(p.vars[i][0] == 'v');
        lemma_not_open(p.vars[i]);
    } else {
        law_variables_stay_symbols(theory, body, stmts, pool, (n - 1) as nat, i);
        let q = stmts_point(theory, body, stmts, pool, (n - 1) as nat);
        let last = stmts[n - 1];
        if let Stmt::Assign(v, rv) = last {
            let next = rvalue_pool(theory, rv, q.pool).next();
            reveal_strlit("fresh");
            if pool.prefix.len() > 0 {
                assert(next[0] == pool.prefix[0]);
                lemma_not_open(pool.prefix);
            } else {
                assert(next[0] == 'f');
            }
            lemma_not_open(next);
        }
    }
}

proof fn lemma_not_open(s: Seq<char>)
    requires
        s.len() > 0,
    ensures
        trivial(s) <==> s[0] != '(',
{
    reveal_strlit("(");
    if s[0] == '(' {
        assert(s.take(1) =~= "("@);
    } else {
        assert(s.take(1)[0] != '(');
    }
}

/// Every symbol that a walk hands out is new: with those from before, no two are
/// the same.
pub proof fn law_walk_hands_out_new_symbols<T: SmtTheory>(
    theory: &T,
    body: Body,
    pool: PoolV,
    n: nat,
)
    requires
        pool.numbered(),
        n <= body.blocks@.len(),
    ensures
        walk_pool(theory, body, pool, n).numbered(),
        walk_pool(theory, body, pool, n).follows(pool),
    decreases n,
{
    if n == 0 {
        assert(pool.issued.take(pool.issued.len() as int) =~= pool.issued);
    } else {
        law_walk_hands_out_new_symbols(theory, body, pool, (n - 1) as nat);
        let stmts = body.blocks@[n - 1].stmts@;
        let mid = walk_pool(theory, body, pool, (n - 1) as nat);
        lemma_stmts_follow(theory, body, stmts, mid, stmts.len());
        lemma_follows_trans(walk_pool(theory, body, pool, n), mid, pool);
    }
}

proof fn lemma_follows_trans(c: PoolV, b: PoolV, a: PoolV)
    requires
        c.follows(b),
        b.follows(a),
    ensures
        c.follows(a),
{
    assert(c.issued.take(a.issued.len() as int) =~= b.issued.take(a.issued.len() as int));
}

proof fn lemma_with_follows(a: PoolV, w: u32)
    ensures
        a.with(w).follows(a),
{
    assert(a.with(w).issued.take(a.issued.len() as int) =~= a.issued);
}

proof fn lemma_stmts_follow<T: SmtTheory>(theory: &T, body: Body, stmts: Seq<Stmt>, pool: PoolV, n: nat)
    ensures
        stmts_point(theory, body, stmts, pool, n).pool.follows(pool),
    decreases n,
{
    if n == 0 {
        assert(pool.issued.take(pool.issued.len() as int) =~= pool.issued);
    } else {
        lemma_stmts_follow(theory, body, stmts, pool, (n - 1) as nat);
        let q = stmts_point(theory, body, stmts, pool, (n - 1) as nat);
        if let Stmt::Assign(v, rv) = stmts[n - 1] {
            let mid = rvalue_pool(theory, rv, q.pool);
            if mid != q.pool {
                lemma_with_follows(q.pool, unknown_width(rv));
                lemma_follows_trans(mid, q.pool, pool);
            }
            let w = width(body.vars@[v.0 as int].ty);
            lemma_with_follows(mid, w);
            lemma_follows_trans(mid.with(w), mid, pool);
        }
    }
}

/// Every clause of a block carries the symbols that were handed out since the
/// block began, and the equations and conditions found there.
pub proof fn law_clauses_carry_the_symbols_of_their_block<T: SmtTheory>(
    theory: &T,
    body: Body,
    selected: Seq<ObligationId>,
    block: Block,
    pool: PoolV,
    i: int,
)
    requires
        0 <= i < block_clauses(theory, body, selected, block, pool).len(),
    ensures
        match block_clauses(theory, body, selected, block, pool)[i] {
            Clause::Transition(t) => {
                let p = stmts_point(theory, body, block.stmts@, pool, block.stmts@.len());
                &&& t.from == block.id
                &&& t.fresh == p.pool.issued.skip(pool.issued.len() as int)
                &&& t.bindings == p.bindings
                &&& t.var_exprs == p.vars
                &&& t.conds.take(p.conds.len() as int) == p.conds
            },
            Clause::Error(e) => {
                &&& e.block == block.id
                &&& selected.contains(e.obligation)
                &&& exists|n: nat|
                    n < block.stmts@.len() && {
                        let p = #[trigger] stmts_point(theory, body, block.stmts@, pool, n);
                        &&& e.fresh == p.pool.issued.skip(pool.issued.len() as int)
                        &&& e.bindings == p.bindings
                        &&& e.conds.drop_last() == p.conds
                    }
            },
        },
{
    let n = block.stmts@.len();
    let errors = errors_of(theory, body, selected, block, pool, n);
    if i < errors.len() {
        lemma_error_clause(theory, body, selected, block, pool, n, i);
    } else {
        let p = stmts_point(theory, body, block.stmts@, pool, n);
        lemma_stmts_follow(theory, body, block.stmts@, pool, n);
        let t = term_edges(theory, block, p, pool.issued.len())[i - errors.len()];
        assert(block_clauses(theory, body, selected, block, pool)[i] == t);
        assert(t is Transition);
        assert(t->Transition_0.conds.take(p.conds.len() as int) =~= p.conds);
    }
}

proof fn lemma_error_clause<T: SmtTheory>(
    theory: &T,
    body: Body,
    selected: Seq<ObligationId>,
    block: Block,
    pool: PoolV,
    n: nat,
    i: int,
)
    requires
        n <= block.stmts@.len(),
        0 <= i < errors_of(theory, body, selected, block, pool, n).len(),
    ensures
        errors_of(theory, body, selected, block, pool, n)[i] matches Clause::Error(e) && {
            &&& e.block == block.id
            &&& selected.contains(e.obligation)
            &&& exists|n: nat|
                n < block.stmts@.len() && {
                    let p = #[trigger] stmts_point(theory, body, block.stmts@, pool, n);
                    &&& e.fresh == p.pool.issued.skip(pool.issued.len() as int)
                    &&& e.bindings == p.bindings
                    &&& e.conds.drop_last() == p.conds
                }
        },
    decreases n,
{
    let m = (n - 1) as nat;
    let before = errors_of(theory, body, selected, block, pool, m);
    if i < before.len() {
        lemma_error_clause(theory, body, selected, block, pool, m, i);
    } else {
        let p = stmts_point(theory, body, block.stmts@, pool, m);
        lemma_stmts_follow(theory, body, block.stmts@, pool, m);
        let e = errors_of(theory, body, selected, block, pool, n)[i];
        assert(e->Error_0.conds.drop_last() =~= p.conds);
    }
}

} // verus!
