//! Tables of the library methods that are treated specially. What stands in
//! them is the user's choice; the engines only look entries up.

use vstd::prelude::*;

use crate::ir::{ObligationKind, Ty};
use crate::text::same;

verus! {

/// How a call is lifted.
#[derive(Clone, Copy, Debug, PartialEq, Eq, Structural)]
pub enum CallModel {
    /// The argument is assumed to be nonzero.
    Assume,
    NoOp,
    /// Any value of the type; of `int` if there is none.
    Nondet(Option<Ty>),
    /// No effect, and any value of the type.
    Pure(Option<Ty>),
    /// A method on the content of strings.
    StrCall(Option<Ty>),
    /// The constructor of enumerations, which is given the ordinal.
    EnumInit,
    EnumOrdinal,
    /// Nothing is known.
    Unmodelled,
}

/// How the calls of a method are lifted; without a descriptor, those of all
/// methods of the name.
#[derive(Debug)]
pub struct CallEntry {
    pub class: String,
    pub name: String,
    pub desc: Option<String>,
    pub model: CallModel,
}

impl CallEntry {
    /// Is the entry about the method?
    pub open spec fn is_for(self, class: Seq<char>, name: Seq<char>, desc: Seq<char>) -> bool {
        &&& self.class@ == class
        &&& self.name@ == name
        &&& self.desc matches Some(d) ==> d@ == desc
    }
}

/// The model in the first entry from `i` on that is about the method.
pub open spec fn model_from(
    calls: Seq<CallEntry>,
    class: Seq<char>,
    name: Seq<char>,
    desc: Seq<char>,
    i: nat,
) -> CallModel
    decreases calls.len() - i,
{
    if i >= calls.len() {
        CallModel::Unmodelled
    } else if calls[i as int].is_for(class, name, desc) {
        calls[i as int].model
    } else {
        model_from(calls, class, name, desc, i + 1)
    }
}

/// The class in the first entry from `i` on for the kind.
pub open spec fn exception_from(
    table: Seq<(ObligationKind, String)>,
    kind: ObligationKind,
    i: nat,
) -> Option<Seq<char>>
    decreases table.len() - i,
{
    if i >= table.len() {
        None
    } else if table[i as int].0 == kind {
        Some(table[i as int].1@)
    } else {
        exception_from(table, kind, i + 1)
    }
}

/// What is known of library classes.
#[derive(Debug)]
pub struct Models {
    /// How calls are lifted; the first entry that fits counts.
    pub calls: Vec<CallEntry>,
    /// The field that holds the ordinal of an enumeration constant.
    pub enum_ordinal_field: String,
    /// The class that a failed assertion throws.
    pub assertion_error: String,
    /// The class of the exception that is raised when an obligation fails.
    pub exceptions: Vec<(ObligationKind, String)>,
    /// Class and name of the methods on numbers that are computed outright.
    pub concrete_math: Vec<(String, String)>,
    /// Classes whose methods work on the content of strings.
    pub str_owners: Vec<String>,
    /// Class and name of the methods that compute transcendental functions.
    pub transcendental: Vec<(String, String)>,
}

impl Models {
    /// Do the methods of the class work on the content of strings?
    pub open spec fn owns_strings(self, class: Seq<char>) -> bool {
        exists|i: int| 0 <= i < self.str_owners@.len() && (#[trigger] self.str_owners@[i])@ == class
    }

    /// Does the method compute a transcendental function?
    pub open spec fn transcends(self, class: Seq<char>, name: Seq<char>) -> bool {
        exists|i: int|
            0 <= i < self.transcendental@.len() && (#[trigger] self.transcendental@[i]).0@ == class
                && self.transcendental@[i].1@ == name
    }

    /// Do the methods of the class work on the content of strings?
    pub fn is_str_owner(&self, class: &str) -> (r: bool)
        ensures
            r == self.owns_strings(class@),
    {
        let mut i: usize = 0;
        while i < self.str_owners.len()
            invariant
                i <= self.str_owners@.len(),
                forall|j: int| 0 <= j < i ==> (#[trigger] self.str_owners@[j])@ != class@,
            decreases self.str_owners@.len() - i,
        {
            if same(self.str_owners[i].as_str(), class) {
                return true;
            }
            i += 1;
        }
        false
    }

    /// Does the method compute a transcendental function?
    pub fn is_transcendental_math(&self, class: &str, name: &str) -> (r: bool)
        ensures
            r == self.transcends(class@, name@),
    {
        let mut i: usize = 0;
        while i < self.transcendental.len()
            invariant
                i <= self.transcendental@.len(),
                forall|j: int|
                    0 <= j < i ==> !((#[trigger] self.transcendental@[j]).0@ == class@
                        && self.transcendental@[j].1@ == name@),
            decreases self.transcendental@.len() - i,
        {
            if same(self.transcendental[i].0.as_str(), class) && same(
                self.transcendental[i].1.as_str(),
                name,
            ) {
                return true;
            }
            i += 1;
        }
        false
    }

    /// How the calls of the method are lifted.
    pub open spec fn model_of(self, class: Seq<char>, name: Seq<char>, desc: Seq<char>) -> CallModel {
        model_from(self.calls@, class, name, desc, 0)
    }

    /// The exception that is raised when an obligation of the kind fails.
    pub open spec fn exception_of(self, kind: ObligationKind) -> Option<Seq<char>> {
        exception_from(self.exceptions@, kind, 0)
    }

    /// Is the method computed outright?
    pub open spec fn computes(self, class: Seq<char>, name: Seq<char>) -> bool {
        exists|i: int|
            0 <= i < self.concrete_math@.len() && (#[trigger] self.concrete_math@[i]).0@ == class
                && self.concrete_math@[i].1@ == name
    }

    /// How the calls of the method are lifted.
    pub fn model_for(&self, class: &str, name: &str, desc: &str) -> (r: CallModel)
        ensures
            r == self.model_of(class@, name@, desc@),
    {
        let mut i: usize = 0;
        while i < self.calls.len()
            invariant
                i <= self.calls@.len(),
                self.model_of(class@, name@, desc@) == model_from(
                    self.calls@,
                    class@,
                    name@,
                    desc@,
                    i as nat,
                ),
            decreases self.calls@.len() - i,
        {
            let e = &self.calls[i];
            let fits = match &e.desc {
                Some(d) => same(d.as_str(), desc),
                None => true,
            };
            if fits && same(e.class.as_str(), class) && same(e.name.as_str(), name) {
                return e.model;
            }
            i += 1;
        }
        CallModel::Unmodelled
    }

    /// The exception that is raised when an obligation of the kind fails.
    pub fn exception_class(&self, kind: ObligationKind) -> (r: Option<&str>)
        ensures
            match r {
                Some(s) => self.exception_of(kind) == Some(s@),
                None => self.exception_of(kind) is None,
            },
    {
        let mut i: usize = 0;
        while i < self.exceptions.len()
            invariant
                i <= self.exceptions@.len(),
                self.exception_of(kind) == exception_from(self.exceptions@, kind, i as nat),
            decreases self.exceptions@.len() - i,
        {
            if self.exceptions[i].0 == kind {
                return Some(self.exceptions[i].1.as_str());
            }
            i += 1;
        }
        None
    }

    /// Is the method computed outright?
    pub fn is_concrete_math_call(&self, class: &str, name: &str) -> (r: bool)
        ensures
            r == self.computes(class@, name@),
    {
        let mut i: usize = 0;
        while i < self.concrete_math.len()
            invariant
                i <= self.concrete_math@.len(),
                forall|j: int|
                    0 <= j < i ==> !((#[trigger] self.concrete_math@[j]).0@ == class@
                        && self.concrete_math@[j].1@ == name@),
            decreases self.concrete_math@.len() - i,
        {
            if same(self.concrete_math[i].0.as_str(), class) && same(
                self.concrete_math[i].1.as_str(),
                name,
            ) {
                return true;
            }
            i += 1;
        }
        false
    }
}

} // verus!
