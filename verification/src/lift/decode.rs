//! Decoding of instructions.

use vstd::prelude::*;
use vstd::string::*;

use crate::text;
use crate::text::numbered;

verus! {

/// An instruction.
#[derive(Debug)]
pub struct Insn {
    pub off: usize,
    pub len: usize,
    pub op: u8,
    /// The operand: a constant, an index into the constant pool, or a slot.
    pub imm: i32,
    /// What an increment adds.
    pub delta: i32,
    /// Branch targets; for a switch, the default and then each case.
    pub targets: Vec<i64>,
    /// The keys of a switch, or the number of dimensions of an array.
    pub keys: Vec<i32>,
    /// Was there a `wide` prefix?
    pub wide: bool,
}

/// View of [`Insn`].
#[verifier::ext_equal]
pub struct InsnV {
    pub off: nat,
    pub len: nat,
    pub op: u8,
    pub imm: int,
    pub delta: int,
    pub targets: Seq<int>,
    pub keys: Seq<int>,
    pub wide: bool,
}

/// A list of numbers.
pub open spec fn longs(v: Seq<i64>) -> Seq<int> {
    v.map_values(|x: i64| x as int)
}

/// A list of numbers.
pub open spec fn ints(v: Seq<i32>) -> Seq<int> {
    v.map_values(|x: i32| x as int)
}

impl View for Insn {
    type V = InsnV;

    open spec fn view(&self) -> InsnV {
        InsnV {
            off: self.off as nat,
            len: self.len as nat,
            op: self.op,
            imm: self.imm as int,
            delta: self.delta as int,
            targets: longs(self.targets@),
            keys: ints(self.keys@),
            wide: self.wide,
        }
    }
}

/// The number as a signed one of `m` values.
pub open spec fn signed(n: int, m: int) -> int {
    if n >= m / 2 {
        n - m
    } else {
        n
    }
}

/// The unsigned number in two bytes.
pub open spec fn u16_at(c: Seq<u8>, i: int) -> int {
    c[i] * 256 + c[i + 1]
}

/// The signed number in a byte.
pub open spec fn i8_at(c: Seq<u8>, i: int) -> int {
    signed(c[i] as int, 256)
}

/// The signed number in two bytes.
pub open spec fn i16_at(c: Seq<u8>, i: int) -> int {
    signed(u16_at(c, i), 65536)
}

/// The signed number in four bytes.
pub open spec fn i32_at(c: Seq<u8>, i: int) -> int {
    signed(u16_at(c, i) * 65536 + u16_at(c, i + 2), 0x1_0000_0000)
}

fn u16at(c: &Vec<u8>, i: usize) -> (r: i32)
    requires
        i + 1 < c@.len(),
        c@.len() <= 0x7fff_ffff,
    ensures
        r == u16_at(c@, i as int),
        0 <= r < 65536,
{
    c[i] as i32 * 256 + c[i + 1] as i32
}

fn i8at(c: &Vec<u8>, i: usize) -> (r: i32)
    requires
        i < c@.len(),
    ensures
        r == i8_at(c@, i as int),
{
    let n = c[i] as i32;
    if n >= 128 {
        n - 256
    } else {
        n
    }
}

fn i16at(c: &Vec<u8>, i: usize) -> (r: i32)
    requires
        i + 1 < c@.len(),
        c@.len() <= 0x7fff_ffff,
    ensures
        r == i16_at(c@, i as int),
        -32768 <= r < 32768,
{
    let n = u16at(c, i);
    if n >= 32768 {
        n - 65536
    } else {
        n
    }
}

fn i32at(c: &Vec<u8>, i: usize) -> (r: i32)
    requires
        i + 3 < c@.len(),
        c@.len() <= 0x7fff_ffff,
    ensures
        r == i32_at(c@, i as int),
{
    let n = u16at(c, i) as i64 * 65536 + u16at(c, i + 2) as i64;
    if n >= 0x8000_0000 {
        (n - 0x1_0000_0000) as i32
    } else {
        n as i32
    }
}

/// How the operands of an instruction are laid out.
#[derive(Clone, Copy, PartialEq, Eq, Structural, Debug)]
pub enum Layout {
    /// None.
    Bare,
    /// One signed byte.
    Byte,
    /// Two signed bytes.
    Short,
    /// One unsigned byte.
    Index,
    /// Two unsigned bytes.
    WideIndex,
    /// Two unsigned bytes, and two more.
    LongIndex,
    /// Two unsigned bytes and the number of dimensions.
    Array,
    /// A slot and what is added to it.
    Increment,
    /// A target as two bytes.
    Branch,
    /// A target as four bytes.
    WideBranch,
    Table,
    Lookup,
}

/// How the operands of an instruction are laid out.
pub open spec fn layout(op: u8) -> Layout {
    if op == 0x10 {
        Layout::Byte
    } else if op == 0x11 {
        Layout::Short
    } else if op == 0x12 || 0x15 <= op <= 0x19 || 0x36 <= op <= 0x3a || op == 0xa9 || op == 0xbc {
        Layout::Index
    } else if op == 0x13 || op == 0x14 || 0xb2 <= op <= 0xb8 || op == 0xbb || op == 0xbd || op == 0xc0
        || op == 0xc1 {
        Layout::WideIndex
    } else if op == 0x84 {
        Layout::Increment
    } else if 0x99 <= op <= 0xa8 || op == 0xc6 || op == 0xc7 {
        Layout::Branch
    } else if op == 0xc8 || op == 0xc9 {
        Layout::WideBranch
    } else if op == 0xaa {
        Layout::Table
    } else if op == 0xab {
        Layout::Lookup
    } else if op == 0xb9 || op == 0xba {
        Layout::LongIndex
    } else if op == 0xc5 {
        Layout::Array
    } else {
        Layout::Bare
    }
}

fn layout_of(op: u8) -> (r: Layout)
    ensures
        r == layout(op),
{
    match op {
        0x10 => Layout::Byte,
        0x11 => Layout::Short,
        0x12 | 0x15..=0x19 | 0x36..=0x3a | 0xa9 | 0xbc => Layout::Index,
        0x13 | 0x14 | 0xb2..=0xb8 | 0xbb | 0xbd | 0xc0 | 0xc1 => Layout::WideIndex,
        0x84 => Layout::Increment,
        0x99..=0xa8 | 0xc6 | 0xc7 => Layout::Branch,
        0xc8 | 0xc9 => Layout::WideBranch,
        0xaa => Layout::Table,
        0xab => Layout::Lookup,
        0xb9 | 0xba => Layout::LongIndex,
        0xc5 => Layout::Array,
        _ => Layout::Bare,
    }
}

/// The length of an instruction without a table.
pub open spec fn fixed_len(l: Layout) -> nat {
    match l {
        Layout::Bare => 1,
        Layout::Byte | Layout::Index => 2,
        Layout::Short | Layout::WideIndex | Layout::Increment | Layout::Branch => 3,
        Layout::Array => 4,
        Layout::LongIndex | Layout::WideBranch => 5,
        Layout::Table | Layout::Lookup => 1,
    }
}

/// Where the table of a switch at `i` begins: aligned to four bytes.
pub open spec fn table_base(i: int) -> int {
    i + 1 + (4 - (i + 1) % 4) % 4
}

/// How many cases a table switch has.
pub open spec fn table_cases(c: Seq<u8>, i: int) -> int {
    let n = i32_at(c, table_base(i) + 8) - i32_at(c, table_base(i) + 4) + 1;
    if n < 0 {
        0
    } else {
        n
    }
}

/// How many cases a lookup switch has.
pub open spec fn lookup_cases(c: Seq<u8>, i: int) -> int {
    let n = i32_at(c, table_base(i) + 4);
    if n < 0 {
        0
    } else {
        n
    }
}

/// What is said of code that ends inside an instruction.
pub open spec fn truncated(i: int) -> Seq<char> {
    "truncated instruction at "@ + text::dec(i as nat)
}

/// An instruction without operands.
pub open spec fn bare(i: int, len: nat, op: u8) -> InsnV {
    InsnV {
        off: i as nat,
        len,
        op,
        imm: 0,
        delta: 0,
        targets: Seq::empty(),
        keys: Seq::empty(),
        wide: false,
    }
}

/// The instruction at `i` after a `wide` prefix.
pub open spec fn wide_insn(c: Seq<u8>, i: int) -> Result<InsnV, Seq<char>> {
    if i + 2 > c.len() {
        Err(truncated(i))
    } else {
        let op = c[i + 1];
        let len: nat = if op == 0x84 {
            6
        } else {
            4
        };
        if i + len > c.len() {
            Err(truncated(i))
        } else {
            Ok(
                InsnV {
                    imm: u16_at(c, i + 2),
                    delta: if op == 0x84 {
                        i16_at(c, i + 4)
                    } else {
                        0
                    },
                    wide: true,
                    ..bare(i, len, op)
                },
            )
        }
    }
}

/// The table switch at `i`.
pub open spec fn table_insn(c: Seq<u8>, i: int) -> Result<InsnV, Seq<char>> {
    let base = table_base(i);
    if base + 12 > c.len() {
        Err("truncated tableswitch"@)
    } else {
        let n = table_cases(c, i);
        let end = base + 12 + n * 4;
        if end > c.len() {
            Err("truncated tableswitch table"@)
        } else {
            Ok(
                InsnV {
                    targets: seq![i + i32_at(c, base)] + Seq::new(
                        n as nat,
                        |k: int| i + i32_at(c, base + 12 + k * 4),
                    ),
                    keys: Seq::new(n as nat, |k: int| i32_at(c, base + 4) + k),
                    ..bare(i, (end - i) as nat, 0xaa)
                },
            )
        }
    }
}

/// The lookup switch at `i`.
pub open spec fn lookup_insn(c: Seq<u8>, i: int) -> Result<InsnV, Seq<char>> {
    let base = table_base(i);
    if base + 8 > c.len() {
        Err("truncated lookupswitch"@)
    } else {
        let n = lookup_cases(c, i);
        let end = base + 8 + n * 8;
        if end > c.len() {
            Err("truncated lookupswitch table"@)
        } else {
            Ok(
                InsnV {
                    targets: seq![i + i32_at(c, base)] + Seq::new(
                        n as nat,
                        |k: int| i + i32_at(c, base + 8 + k * 8 + 4),
                    ),
                    keys: Seq::new(n as nat, |k: int| i32_at(c, base + 8 + k * 8)),
                    ..bare(i, (end - i) as nat, 0xab)
                },
            )
        }
    }
}

/// The instruction at `i`, or what is wrong with it.
pub open spec fn insn_at(c: Seq<u8>, i: int) -> Result<InsnV, Seq<char>> {
    let op = c[i];
    let l = layout(op);
    let len = fixed_len(l);
    let b = bare(i, len, op);
    if op == 0xc4 {
        wide_insn(c, i)
    } else if l == Layout::Table {
        table_insn(c, i)
    } else if l == Layout::Lookup {
        lookup_insn(c, i)
    } else if i + len > c.len() {
        Err(truncated(i))
    } else {
        Ok(
            match l {
                Layout::Byte => InsnV { imm: i8_at(c, i + 1), ..b },
                Layout::Short => InsnV { imm: i16_at(c, i + 1), ..b },
                Layout::Index => InsnV { imm: c[i + 1] as int, ..b },
                Layout::WideIndex | Layout::LongIndex => InsnV { imm: u16_at(c, i + 1), ..b },
                Layout::Array => InsnV {
                    imm: u16_at(c, i + 1),
                    keys: seq![c[i + 3] as int],
                    ..b
                },
                Layout::Increment => InsnV { imm: c[i + 1] as int, delta: i8_at(c, i + 2), ..b },
                Layout::Branch => InsnV { targets: seq![i + i16_at(c, i + 1)], ..b },
                Layout::WideBranch => InsnV { targets: seq![i + i32_at(c, i + 1)], ..b },
                _ => b,
            },
        )
    }
}

/// The instructions from `i` on, or what is wrong with the first one that is.
pub open spec fn insns_from(c: Seq<u8>, i: int) -> Result<Seq<InsnV>, Seq<char>>
    decreases c.len() - i,
{
    if i >= c.len() {
        Ok(Seq::empty())
    } else {
        match insn_at(c, i) {
            Err(e) => Err(e),
            Ok(n) => {
                if n.len == 0 {
                    Err(Seq::empty())
                } else {
                    match insns_from(c, i + n.len) {
                        Err(e) => Err(e),
                        Ok(rest) => Ok(seq![n] + rest),
                    }
                }
            },
        }
    }
}

proof fn lemma_len(c: Seq<u8>, i: int)
    requires
        0 <= i < c.len(),
    ensures
        insn_at(c, i) matches Ok(n) ==> 1 <= n.len && n.off == i && i + n.len <= c.len(),
{
    if layout(c[i]) == Layout::Table && c[i] != 0xc4 {
        assert(table_cases(c, i) * 4 >= 0);
    }
    if layout(c[i]) == Layout::Lookup && c[i] != 0xc4 {
        assert(lookup_cases(c, i) * 8 >= 0);
    }
}

/// The instructions cover the code from its first byte to its last: each begins
/// where the one before it ends.
pub proof fn law_instructions_cover_the_code(c: Seq<u8>, i: int)
    requires
        0 <= i <= c.len(),
    ensures
        insns_from(c, i) matches Ok(v) ==> {
            &&& (v.len() == 0 <==> i == c.len())
            &&& v.len() > 0 ==> v[0].off == i && v.last().off + v.last().len == c.len()
            &&& forall|k: int|
                0 <= k < v.len() - 1 ==> #[trigger] v[k + 1].off == v[k].off + v[k].len
            &&& forall|k: int|
                0 <= k < v.len() ==> i <= (#[trigger] v[k]).off && v[k].len >= 1 && v[k].off
                    + v[k].len <= c.len() && insn_at(c, v[k].off as int) == Ok::<
                    InsnV,
                    Seq<char>,
                >(v[k])
        },
    decreases c.len() - i,
{
    if i < c.len() {
        lemma_len(c, i);
        if let Ok(n) = insn_at(c, i) {
            law_instructions_cover_the_code(c, i + n.len);
            if let Ok(rest) = insns_from(c, i + n.len) {
                let v = seq![n] + rest;
                assert(insns_from(c, i) == Ok::<Seq<InsnV>, Seq<char>>(v));
                assert forall|k: int| 0 <= k < v.len() - 1 implies #[trigger] v[k + 1].off == v[k].off
                    + v[k].len by {
                    if k > 0 {
                        assert(v[k] == rest[k - 1] && v[k + 1] == rest[k - 1 + 1]);
                    } else {
                        assert(v[1] == rest[0]);
                    }
                }
                assert forall|k: int| 0 <= k < v.len() implies i <= (#[trigger] v[k]).off && v[k].len
                    >= 1 && v[k].off + v[k].len <= c.len() && insn_at(c, v[k].off as int) == Ok::<
                    InsnV,
                    Seq<char>,
                >(v[k]) by {
                    if k > 0 {
                        assert(v[k] == rest[k - 1]);
                    }
                }
                if rest.len() > 0 {
                    assert(v.last() == rest.last());
                }
            }
        }
    }
}

fn make_truncated(i: usize) -> (s: String)
    ensures
        s@ == truncated(i as int),
{
    numbered("truncated instruction at ", i as u64)
}

fn plain_insn(i: usize, len: usize, op: u8) -> (r: Insn)
    ensures
        r@ == bare(i as int, len as nat, op),
        r.targets@.len() == 0,
        r.keys@.len() == 0,
{
    let r = Insn {
        off: i,
        len,
        op,
        imm: 0,
        delta: 0,
        targets: Vec::new(),
        keys: Vec::new(),
        wide: false,
    };
    proof {
        assert(r@ =~= bare(i as int, len as nat, op));
    }
    r
}

fn decode_wide(c: &Vec<u8>, i: usize) -> (r: Result<Insn, String>)
    requires
        i < c@.len(),
        c@.len() <= 0x7fff_ffff,
    ensures
        match (r, wide_insn(c@, i as int)) {
            (Ok(n), Ok(m)) => n@ == m,
            (Err(e), Err(f)) => e@ == f,
            _ => false,
        },
{
    if i + 2 > c.len() {
        return Err(make_truncated(i));
    }
    let op = c[i + 1];
    let len: usize = if op == 0x84 {
        6
    } else {
        4
    };
    if i + len > c.len() {
        return Err(make_truncated(i));
    }
    let mut n = plain_insn(i, len, op);
    n.imm = u16at(c, i + 2);
    if op == 0x84 {
        n.delta = i16at(c, i + 4);
    }
    n.wide = true;
    Ok(n)
}

fn base_of(i: usize) -> (r: usize)
    requires
        i <= 0x7fff_ffff,
    ensures
        r == table_base(i as int),
        i < r <= i + 4,
{
    let pad: usize = (4 - (i + 1) % 4) % 4;
    i + 1 + pad
}

fn decode_table(c: &Vec<u8>, i: usize) -> (r: Result<Insn, String>)
    requires
        i < c@.len(),
        c@.len() <= 0x7fff_ffff,
        c@[i as int] == 0xaa,
    ensures
        match (r, table_insn(c@, i as int)) {
            (Ok(n), Ok(m)) => n@ == m,
            (Err(e), Err(f)) => e@ == f,
            _ => false,
        },
{
    let base = base_of(i);
    if base + 12 > c.len() {
        return Err("truncated tableswitch".to_string());
    }
    let def = i32at(c, base);
    let low = i32at(c, base + 4);
    let high = i32at(c, base + 8);
    let wanted: i64 = high as i64 - low as i64 + 1;
    let room: i64 = (c.len() - (base + 12)) as i64 / 4;
    let count: i64 = if wanted < 0 {
        0
    } else {
        wanted
    };
    if count > room {
        return Err("truncated tableswitch table".to_string());
    }
    let n = count as usize;
    let mut targets: Vec<i64> = Vec::new();
    let mut keys: Vec<i32> = Vec::new();
    targets.push(i as i64 + def as i64);
    let mut k: usize = 0;
    while k < n
        invariant
            k <= n,
            i < c@.len(),
            c@.len() <= 0x7fff_ffff,
            base + 12 + n * 4 <= c@.len(),
            n > 0 ==> n == high - low + 1,
            low == i32_at(c@, base + 4),
            def == i32_at(c@, base as int),
            keys@.len() == k,
            targets@.len() == k + 1,
            targets@[0] == i + def,
            forall|j: int| 0 <= j < k ==> (#[trigger] keys@[j]) == low + j,
            forall|j: int|
                1 <= j <= k ==> (#[trigger] targets@[j]) == i + i32_at(c@, base + 12 + (j - 1) * 4),
        decreases n - k,
    {
        targets.push(i as i64 + i32at(c, base + 12 + k * 4) as i64);
        keys.push((low as i64 + k as i64) as i32);
        k += 1;
    }
    let r = Insn {
        off: i,
        len: base + 12 + n * 4 - i,
        op: 0xaa,
        imm: 0,
        delta: 0,
        targets,
        keys,
        wide: false,
    };
    proof {
        let m = table_insn(c@, i as int)->Ok_0;
        assert(r@.targets =~= m.targets);
        assert(r@.keys =~= m.keys);
        assert(r@ =~= m);
    }
    Ok(r)
}

fn decode_lookup(c: &Vec<u8>, i: usize) -> (r: Result<Insn, String>)
    requires
        i < c@.len(),
        c@.len() <= 0x7fff_ffff,
        c@[i as int] == 0xab,
    ensures
        match (r, lookup_insn(c@, i as int)) {
            (Ok(n), Ok(m)) => n@ == m,
            (Err(e), Err(f)) => e@ == f,
            _ => false,
        },
{
    let base = base_of(i);
    if base + 8 > c.len() {
        return Err("truncated lookupswitch".to_string());
    }
    let def = i32at(c, base);
    let wanted: i64 = i32at(c, base + 4) as i64;
    let room: i64 = (c.len() - (base + 8)) as i64 / 8;
    let count: i64 = if wanted < 0 {
        0
    } else {
        wanted
    };
    if count > room {
        return Err("truncated lookupswitch table".to_string());
    }
    let n = count as usize;
    let mut targets: Vec<i64> = Vec::new();
    let mut keys: Vec<i32> = Vec::new();
    targets.push(i as i64 + def as i64);
    let mut k: usize = 0;
    while k < n
        invariant
            k <= n,
            i < c@.len(),
            c@.len() <= 0x7fff_ffff,
            base + 8 + n * 8 <= c@.len(),
            def == i32_at(c@, base as int),
            keys@.len() == k,
            targets@.len() == k + 1,
            targets@[0] == i + def,
            forall|j: int| 0 <= j < k ==> (#[trigger] keys@[j]) == i32_at(c@, base + 8 + j * 8),
            forall|j: int|
                1 <= j <= k ==> (#[trigger] targets@[j]) == i + i32_at(
                    c@,
                    base + 8 + (j - 1) * 8 + 4,
                ),
        decreases n - k,
    {
        keys.push(i32at(c, base + 8 + k * 8));
        targets.push(i as i64 + i32at(c, base + 8 + k * 8 + 4) as i64);
        k += 1;
    }
    let r = Insn {
        off: i,
        len: base + 8 + n * 8 - i,
        op: 0xab,
        imm: 0,
        delta: 0,
        targets,
        keys,
        wide: false,
    };
    proof {
        let m = lookup_insn(c@, i as int)->Ok_0;
        assert(r@.targets =~= m.targets);
        assert(r@.keys =~= m.keys);
        assert(r@ =~= m);
    }
    Ok(r)
}

fn decode_one(c: &Vec<u8>, i: usize) -> (r: Result<Insn, String>)
    requires
        i < c@.len(),
        c@.len() <= 0x7fff_ffff,
    ensures
        match (r, insn_at(c@, i as int)) {
            (Ok(n), Ok(m)) => n@ == m,
            (Err(e), Err(f)) => e@ == f,
            _ => false,
        },
{
    let op = c[i];
    if op == 0xc4 {
        return decode_wide(c, i);
    }
    let l = layout_of(op);
    let len: usize = match l {
        Layout::Table => {
            return decode_table(c, i);
        },
        Layout::Lookup => {
            return decode_lookup(c, i);
        },
        Layout::Bare => 1,
        Layout::Byte | Layout::Index => 2,
        Layout::Short | Layout::WideIndex | Layout::Increment | Layout::Branch => 3,
        Layout::Array => 4,
        Layout::LongIndex | Layout::WideBranch => 5,
    };
    if i + len > c.len() {
        return Err(make_truncated(i));
    }
    let mut n = plain_insn(i, len, op);
    match l {
        Layout::Byte => {
            n.imm = i8at(c, i + 1);
        },
        Layout::Short => {
            n.imm = i16at(c, i + 1);
        },
        Layout::Index => {
            n.imm = c[i + 1] as i32;
        },
        Layout::WideIndex | Layout::LongIndex => {
            n.imm = u16at(c, i + 1);
        },
        Layout::Array => {
            n.imm = u16at(c, i + 1);
            n.keys.push(c[i + 3] as i32);
        },
        Layout::Increment => {
            n.imm = c[i + 1] as i32;
            n.delta = i8at(c, i + 2);
        },
        Layout::Branch => {
            n.targets.push(i as i64 + i16at(c, i + 1) as i64);
        },
        Layout::WideBranch => {
            n.targets.push(i as i64 + i32at(c, i + 1) as i64);
        },
        _ => {},
    }
    proof {
        let m = insn_at(c@, i as int)->Ok_0;
        assert(n@.targets =~= m.targets);
        assert(n@.keys =~= m.keys);
        assert(n@ =~= m);
    }
    Ok(n)
}

/// The views of instructions.
pub open spec fn insn_views(v: Seq<Insn>) -> Seq<InsnV> {
    v.map_values(|n: Insn| n@)
}

/// Decode the instructions of a method.
pub fn decode(code: &Vec<u8>) -> (r: Result<Vec<Insn>, String>)
    requires
        code@.len() <= 0x7fff_ffff,
    ensures
        match (r, insns_from(code@, 0)) {
            (Ok(v), Ok(w)) => insn_views(v@) == w,
            (Err(e), Err(f)) => e@ == f,
            _ => false,
        },
{
    let mut out: Vec<Insn> = Vec::new();
    let mut i: usize = 0;
    let ghost whole = insns_from(code@, 0);
    proof {
        if let Ok(w) = whole {
            assert(insn_views(out@) + w =~= w);
        }
    }
    while i < code.len()
        invariant
            i <= code@.len(),
            code@.len() <= 0x7fff_ffff,
            whole == insns_from(code@, 0),
            match (whole, insns_from(code@, i as int)) {
                (Ok(w), Ok(rest)) => w == insn_views(out@) + rest,
                (Err(e), Err(f)) => e == f,
                _ => false,
            },
        decreases code@.len() - i,
    {
        proof {
            lemma_len(code@, i as int);
        }
        let n = match decode_one(code, i) {
            Ok(n) => n,
            Err(e) => {
                return Err(e);
            },
        };
        let len = n.len;
        let ghost had = insn_views(out@);
        let ghost one = n@;
        out.push(n);
        proof {
            assert(insn_views(out@) =~= had.push(one));
            if let Ok(rest) = insns_from(code@, i + len) {
                assert(had + (seq![one] + rest) =~= had.push(one) + rest);
            }
        }
        i = i + len;
    }
    proof {
        assert(insn_views(out@) + Seq::empty() =~= insn_views(out@));
    }
    Ok(out)
}

/// Does the instruction end a block?
pub open spec fn block_end(op: u8) -> bool {
    0x99 <= op <= 0xb1 || op == 0xbf || 0xc6 <= op <= 0xc9
}

/// Does the instruction end a block?
pub fn ends_block(op: u8) -> (r: bool)
    ensures
        r == block_end(op),
{
    matches!(op, 0x99..=0xab | 0xac..=0xb1 | 0xbf | 0xc6..=0xc9)
}

/// Can the instruction raise an exception?
pub open spec fn throws(op: u8) -> bool {
    ||| 0x2e <= op <= 0x35
    ||| 0x4f <= op <= 0x56
    ||| op == 0x6c || op == 0x6d || op == 0x70 || op == 0x71
    ||| 0xb2 <= op <= 0xb9
    ||| 0xbb <= op <= 0xc3
    ||| op == 0xc5
}

/// Can the instruction raise an exception?
pub fn can_throw(op: u8) -> (r: bool)
    ensures
        r == throws(op),
{
    matches!(op,
        0x2e..=0x35 | 0x4f..=0x56
        | 0x6c | 0x6d | 0x70 | 0x71
        | 0xb2..=0xb9
        | 0xbb..=0xc3
        | 0xc5)
}

} // verus!
