//! Class files, as far as lifting needs them: the constant pool with its
//! references resolved, and the code of the methods.

use vstd::prelude::*;
use vstd::string::*;

use crate::text;
use crate::text::{dec_u64, same};

verus! {

/// Names a field or a method of a class.
#[derive(Debug)]
pub struct MemberRef {
    pub owner: String,
    pub name: String,
    pub desc: String,
}

/// View of [`MemberRef`].
#[verifier::ext_equal]
pub struct MemberRefV {
    pub owner: Seq<char>,
    pub name: Seq<char>,
    pub desc: Seq<char>,
}

impl View for MemberRef {
    type V = MemberRefV;

    open spec fn view(&self) -> MemberRefV {
        MemberRefV { owner: self.owner@, name: self.name@, desc: self.desc@ }
    }
}

/// An entry of the constant pool. Floating-point constants are held as their bit
/// patterns.
#[derive(Debug)]
pub enum Cp {
    Int(i32),
    Long(i64),
    Float(u32),
    Double(u64),
    Str(String),
    Class(String),
    Member(MemberRef),
    /// Anything else, and the places that no entry takes.
    Other,
}

/// An entry of the exception table: the range that it covers, where the handler
/// is, and the class that it catches, 0 for all.
#[derive(Clone, Copy, Debug, PartialEq, Eq, Structural)]
pub struct Handler {
    pub start: u16,
    pub end: u16,
    pub target: u16,
    pub catch_type: u16,
}

/// The code of a method.
#[derive(Debug)]
pub struct Code {
    pub bytes: Vec<u8>,
    pub handlers: Vec<Handler>,
    /// Offset and source line, in order of offsets.
    pub lines: Vec<(u16, u16)>,
}

/// A method.
#[derive(Debug)]
pub struct Method {
    pub name: String,
    pub desc: String,
    /// Abstract and native methods have none.
    pub code: Option<Code>,
}

/// A class.
#[derive(Debug)]
pub struct ClassFile {
    pub this_class: String,
    pub super_class: Option<String>,
    pub interfaces: Vec<String>,
    pub methods: Vec<Method>,
    pub pool: Vec<Cp>,
}

/// The first method from `i` on with the given name and descriptor.
pub open spec fn method_from(ms: Seq<Method>, name: Seq<char>, desc: Seq<char>, i: nat) -> Option<int>
    decreases ms.len() - i,
{
    if i >= ms.len() {
        None
    } else if ms[i as int].name@ == name && ms[i as int].desc@ == desc {
        Some(i as int)
    } else {
        method_from(ms, name, desc, i + 1)
    }
}

impl ClassFile {
    /// The entry of the constant pool.
    pub open spec fn entry(self, i: u16) -> Cp {
        if i < self.pool@.len() {
            self.pool@[i as int]
        } else {
            Cp::Other
        }
    }

    /// The member that the entry names, or what is wrong with it.
    pub open spec fn member(self, i: u16) -> Result<MemberRefV, Seq<char>> {
        match self.entry(i) {
            Cp::Member(m) => Ok(m@),
            _ => Err("no member reference at "@ + text::dec(i as nat)),
        }
    }

    /// The class that the entry names, or what is wrong with it.
    pub open spec fn class_at(self, i: u16) -> Result<Seq<char>, Seq<char>> {
        match self.entry(i) {
            Cp::Class(s) => Ok(s@),
            _ => Err("no class at "@ + text::dec(i as nat)),
        }
    }

    /// The entry of the constant pool, if there is one.
    pub fn constant(&self, i: u16) -> (r: Option<&Cp>)
        ensures
            match r {
                Some(c) => *c == self.entry(i),
                None => self.entry(i) is Other,
            },
    {
        if (i as usize) < self.pool.len() {
            Some(&self.pool[i as usize])
        } else {
            None
        }
    }

    /// The member that the entry names.
    pub fn member_ref(&self, i: u16) -> (r: Result<MemberRef, String>)
        ensures
            match (r, self.member(i)) {
                (Ok(m), Ok(n)) => m@ == n,
                (Err(e), Err(f)) => e@ == f,
                _ => false,
            },
    {
        if let Some(Cp::Member(m)) = self.constant(i) {
            return Ok(
                MemberRef { owner: m.owner.clone(), name: m.name.clone(), desc: m.desc.clone() },
            );
        }
        let mut e = "no member reference at ".to_string();
        let d = dec_u64(i as u64);
        e.append(d.as_str());
        Err(e)
    }

    /// The class that the entry names.
    pub fn class_name(&self, i: u16) -> (r: Result<String, String>)
        ensures
            match (r, self.class_at(i)) {
                (Ok(s), Ok(t)) => s@ == t,
                (Err(e), Err(f)) => e@ == f,
                _ => false,
            },
    {
        if let Some(Cp::Class(s)) = self.constant(i) {
            return Ok(s.clone());
        }
        let mut e = "no class at ".to_string();
        let d = dec_u64(i as u64);
        e.append(d.as_str());
        Err(e)
    }

    /// The method with the given name and descriptor.
    pub fn method(&self, name: &str, desc: &str) -> (r: Option<&Method>)
        ensures
            match r {
                Some(m) => method_from(self.methods@, name@, desc@, 0) matches Some(i) && 0 <= i
                    < self.methods@.len() && *m == self.methods@[i],
                None => method_from(self.methods@, name@, desc@, 0) is None,
            },
    {
        let mut i: usize = 0;
        while i < self.methods.len()
            invariant
                i <= self.methods@.len(),
                method_from(self.methods@, name@, desc@, 0) == method_from(
                    self.methods@,
                    name@,
                    desc@,
                    i as nat,
                ),
            decreases self.methods@.len() - i,
        {
            if same(self.methods[i].name.as_str(), name) && same(
                self.methods[i].desc.as_str(),
                desc,
            ) {
                return Some(&self.methods[i]);
            }
            i += 1;
        }
        None
    }
}

} // verus!
