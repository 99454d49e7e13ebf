//! Verdicts, and the witnesses of violations.
//!
//! An analysis that approximates from above may conclude TRUE but never FALSE;
//! one that approximates from below may conclude FALSE but never TRUE.

use vstd::prelude::*;

verus! {

/// A verdict. `Unknown` is no information; `Contradiction` means that two
/// analyses disagreed.
#[derive(Clone, Copy, Debug, PartialEq, Eq, Structural)]
pub enum Verdict {
    Unknown,
    True,
    False,
    Contradiction,
}

impl Verdict {
    /// Does the other verdict say at least as much?
    pub open spec fn leq(self, other: Verdict) -> bool {
        self == Verdict::Unknown || self == other || other == Verdict::Contradiction
    }

    /// The least verdict that says what both say.
    pub open spec fn joined(self, other: Verdict) -> Verdict {
        if self == Verdict::Unknown {
            other
        } else if other == Verdict::Unknown || self == other {
            self
        } else {
            Verdict::Contradiction
        }
    }

    /// The least verdict that says what both say. Verdicts that disagree give
    /// `Contradiction`, never one of the two.
    pub fn join(self, other: Verdict) -> (r: Verdict)
        ensures
            r == self.joined(other),
            self.leq(r) && other.leq(r),
    {
        match (self, other) {
            (Verdict::Unknown, v) => v,
            (v, Verdict::Unknown) => v,
            (a, b) => {
                if a == b {
                    a
                } else {
                    Verdict::Contradiction
                }
            },
        }
    }

    /// What is printed; a contradiction is not claimed as an answer.
    pub open spec fn printed(self) -> Seq<char> {
        match self {
            Verdict::True => "TRUE"@,
            Verdict::False => "FALSE"@,
            Verdict::Unknown | Verdict::Contradiction => "UNKNOWN"@,
        }
    }

    /// What is printed for a verdict.
    pub fn as_svcomp(self) -> (r: &'static str)
        ensures
            r@ == self.printed(),
    {
        match self {
            Verdict::True => "TRUE",
            Verdict::False => "FALSE",
            Verdict::Unknown | Verdict::Contradiction => "UNKNOWN",
        }
    }
}

/// Verdicts form a join semilattice with `Unknown` at the bottom and
/// `Contradiction` at the top: joining is associative, commutative and
/// idempotent, and gives the least upper bound.
pub proof fn law_verdicts_form_a_semilattice(a: Verdict, b: Verdict, c: Verdict)
    ensures
        a.joined(b.joined(c)) == a.joined(b).joined(c),
        a.joined(b) == b.joined(a),
        a.joined(a) == a,
        Verdict::Unknown.joined(a) == a,
        Verdict::Contradiction.joined(a) == Verdict::Contradiction,
        a.leq(b) <==> a.joined(b) == b,
        a.leq(c) && b.leq(c) ==> a.joined(b).leq(c),
{
}

/// A nondeterministic value chosen during an execution.
#[derive(Clone, Debug)]
pub enum NondetValue {
    Int(i32),
    Long(i64),
    Bool(bool),
    Str(String),
}

/// View of [`NondetValue`].
#[verifier::ext_equal]
pub enum NondetValueV {
    Int(i32),
    Long(i64),
    Bool(bool),
    Str(Seq<char>),
}

impl View for NondetValue {
    type V = NondetValueV;

    open spec fn view(&self) -> NondetValueV {
        match *self {
            NondetValue::Int(n) => NondetValueV::Int(n),
            NondetValue::Long(n) => NondetValueV::Long(n),
            NondetValue::Bool(b) => NondetValueV::Bool(b),
            NondetValue::Str(s) => NondetValueV::Str(s@),
        }
    }
}

impl NondetValueV {
    /// The number that stands for the value; strings have none.
    pub open spec fn raw(self) -> Option<i64> {
        match self {
            NondetValueV::Int(n) => Some(n as i64),
            NondetValueV::Long(n) => Some(n),
            NondetValueV::Bool(b) => Some(
                if b {
                    1
                } else {
                    0
                },
            ),
            NondetValueV::Str(_) => None,
        }
    }

    /// The method that the value came back from.
    pub open spec fn method(self) -> Seq<char> {
        match self {
            NondetValueV::Int(_) => "nondetInt"@,
            NondetValueV::Long(_) => "nondetLong"@,
            NondetValueV::Bool(_) => "nondetBoolean"@,
            NondetValueV::Str(_) => "nondetString"@,
        }
    }
}

impl NondetValue {
    /// The number that stands for the value. Strings have none: they are passed
    /// on their own and do not take a place in the sequence of numbers.
    pub fn as_raw(&self) -> (r: Option<i64>)
        ensures
            r == self@.raw(),
    {
        match self {
            NondetValue::Int(v) => Some(*v as i64),
            NondetValue::Long(v) => Some(*v),
            NondetValue::Bool(v) => Some(
                if *v {
                    1
                } else {
                    0
                },
            ),
            NondetValue::Str(_) => None,
        }
    }

    /// The method that the value came back from.
    pub fn nondet_method(&self) -> (r: &'static str)
        ensures
            r@ == self@.method(),
    {
        match self {
            NondetValue::Int(_) => "nondetInt",
            NondetValue::Long(_) => "nondetLong",
            NondetValue::Bool(_) => "nondetBoolean",
            NondetValue::Str(_) => "nondetString",
        }
    }
}

/// One choice of an execution.
#[derive(Clone, Debug)]
pub struct NondetEntry {
    pub value: NondetValue,
    /// Which method asked for it.
    pub nondet_method: &'static str,
    /// Source line, if known.
    pub line: Option<u16>,
}

/// View of [`NondetEntry`].
#[verifier::ext_equal]
pub struct NondetEntryV {
    pub value: NondetValueV,
    pub nondet_method: Seq<char>,
    pub line: Option<u16>,
}

impl View for NondetEntry {
    type V = NondetEntryV;

    open spec fn view(&self) -> NondetEntryV {
        NondetEntryV { value: self.value@, nondet_method: self.nondet_method@, line: self.line }
    }
}

/// The views of choices.
pub open spec fn entry_views(v: Seq<NondetEntry>) -> Seq<NondetEntryV> {
    v.map_values(|e: NondetEntry| e@)
}

/// The nondeterministic choices of an execution that violates an obligation, in
/// the order in which the program made them.
#[derive(Clone, Debug)]
pub struct Witness {
    pub entries: Vec<NondetEntry>,
}

impl Default for Witness {
    fn default() -> (r: Self)
        ensures
            r.entries@.len() == 0,
    {
        Witness { entries: Vec::new() }
    }
}

/// The numbers among the choices, in order.
pub open spec fn numbers(entries: Seq<NondetEntry>) -> Seq<i64>
    decreases entries.len(),
{
    if entries.len() == 0 {
        seq![]
    } else {
        let before = numbers(entries.drop_last());
        match entries.last().value@.raw() {
            Some(n) => before.push(n),
            None => before,
        }
    }
}

/// The strings among the choices, in order.
pub open spec fn strings(entries: Seq<NondetEntry>) -> Seq<Seq<char>>
    decreases entries.len(),
{
    if entries.len() == 0 {
        seq![]
    } else {
        let before = strings(entries.drop_last());
        match entries.last().value@ {
            NondetValueV::Str(s) => before.push(s),
            _ => before,
        }
    }
}

impl Witness {
    /// The values of the numeric choices, in order.
    pub fn nondet_sequence(&self) -> (r: Vec<i64>)
        ensures
            r@ == numbers(self.entries@),
    {
        let mut out: Vec<i64> = Vec::new();
        let mut i: usize = 0;
        while i < self.entries.len()
            invariant
                i <= self.entries@.len(),
                out@ == numbers(self.entries@.take(i as int)),
            decreases self.entries@.len() - i,
        {
            proof {
                assert(self.entries@.take(i + 1).drop_last() =~= self.entries@.take(i as int));
            }
            if let Some(n) = self.entries[i].value.as_raw() {
                out.push(n);
            }
            i += 1;
        }
        proof {
            assert(self.entries@.take(i as int) =~= self.entries@);
        }
        out
    }

    /// The string choices, in order.
    pub fn string_values(&self) -> (r: Vec<&str>)
        ensures
            r@.len() == strings(self.entries@).len(),
            forall|i: int| 0 <= i < r@.len() ==> (#[trigger] r@[i])@ == strings(self.entries@)[i],
    {
        let mut out: Vec<&str> = Vec::new();
        let mut i: usize = 0;
        while i < self.entries.len()
            invariant
                i <= self.entries@.len(),
                out@.len() == strings(self.entries@.take(i as int)).len(),
                forall|j: int|
                    0 <= j < out@.len() ==> (#[trigger] out@[j])@ == strings(
                        self.entries@.take(i as int),
                    )[j],
            decreases self.entries@.len() - i,
        {
            proof {
                assert(self.entries@.take(i + 1).drop_last() =~= self.entries@.take(i as int));
            }
            if let NondetValue::Str(s) = &self.entries[i].value {
                out.push(s.as_str());
            }
            i += 1;
        }
        proof {
            assert(self.entries@.take(i as int) =~= self.entries@);
        }
        out
    }

    /// Did the execution make no choice?
    pub fn is_empty(&self) -> (r: bool)
        ensures
            r == (self.entries@.len() == 0),
    {
        self.entries.len() == 0
    }
}

/// A string takes no place among the numbers, and a number none among the
/// strings: adding either leaves the other sequence as it was.
pub proof fn law_strings_and_numbers_are_apart(entries: Seq<NondetEntry>, e: NondetEntry)
    ensures
        e.value@ is Str ==> numbers(entries.push(e)) == numbers(entries),
        e.value@ !is Str ==> strings(entries.push(e)) == strings(entries),
        numbers(entries).len() + strings(entries).len() == entries.len(),
{
    assert(entries.push(e).drop_last() =~= entries);
    lemma_count(entries);
}

proof fn lemma_count(entries: Seq<NondetEntry>)
    ensures
        numbers(entries).len() + strings(entries).len() == entries.len(),
    decreases entries.len(),
{
    if entries.len() > 0 {
        lemma_count(entries.drop_last());
    }
}

} // verus!
