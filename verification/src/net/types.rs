//! Partial types, as the net refines them, and the closed types read back.

use vstd::prelude::*;
use vstd::string::StringExecFns;

use crate::util::{alphabetize, numeral};

verus! {

/// Handle of a partial type in the type store of a net.
#[derive(Clone, Copy, PartialEq, Eq, Structural, Hash, Debug)]
pub struct PartialTypeKey {
    pub id: u64,
}

/// A type under construction. Its parts are handles into the same store.
#[derive(Clone, Copy, PartialEq, Eq, Structural, Debug)]
pub enum PartialType {
    Arrow { a: PartialTypeKey, b: PartialTypeKey },
    Cloneable { a: PartialTypeKey },
    Uncloneable { a: PartialTypeKey },
    Unsafe { a: PartialTypeKey },
    /// Forwards to another handle.
    Indirect(PartialTypeKey),
    /// A type variable, numbered once the net is read back.
    Free(Option<usize>),
}

impl PartialType {
    /// The handle `c` is a part of this type.
    pub open spec fn points_to(self, c: u64) -> bool {
        match self {
            PartialType::Arrow { a, b } => a.id == c || b.id == c,
            PartialType::Cloneable { a } => a.id == c,
            PartialType::Uncloneable { a } => a.id == c,
            PartialType::Unsafe { a } => a.id == c,
            PartialType::Indirect(t) => t.id == c,
            PartialType::Free(_) => false,
        }
    }
}

/// A closed type.
#[derive(PartialEq, Eq, Debug)]
pub enum Type {
    Arrow { a: Box<Type>, b: Box<Type> },
    Cloneable { a: Box<Type> },
    Uncloneable { a: Box<Type> },
    Unsafe { a: Box<Type> },
    Var(usize),
}

impl Type {
    /// The type of the argument, if this is an arrow under any number of
    /// marks.
    pub open spec fn arg_of(self) -> Option<Type>
        decreases self,
    {
        match self {
            Type::Arrow { a, b } => Some(*a),
            Type::Cloneable { a } => a.arg_of(),
            Type::Uncloneable { a } => a.arg_of(),
            Type::Unsafe { a } => a.arg_of(),
            Type::Var(_) => None,
        }
    }

    /// No part of the type is marked unsafe.
    pub open spec fn is_safe(self) -> bool
        decreases self,
    {
        match self {
            Type::Arrow { a, b } => a.is_safe() && b.is_safe(),
            Type::Cloneable { a } => a.is_safe(),
            Type::Uncloneable { a } => a.is_safe(),
            Type::Unsafe { a } => false,
            Type::Var(_) => true,
        }
    }

    /// How the type is written: `(a->b)`, `!a`, `?a`, `#a`, and the
    /// variables `A`, `B`, ..., `Z`, `AA`, `AB`, ...
    pub open spec fn text(self) -> Seq<char>
        decreases self,
    {
        match self {
            Type::Arrow { a, b } => "("@ + a.text() + "->"@ + b.text() + ")"@,
            Type::Cloneable { a } => "!"@ + a.text(),
            Type::Uncloneable { a } => "?"@ + a.text(),
            Type::Unsafe { a } => "#"@ + a.text(),
            Type::Var(i) => numeral('A', i as nat),
        }
    }

    /// The type of the argument, if this is an arrow under any number of
    /// marks.
    pub fn arg(self) -> (r: Option<Type>)
        ensures
            r == self.arg_of(),
        decreases self,
    {
        match self {
            Type::Arrow { a, b: _b } => Some(*a),
            Type::Cloneable { a } => a.arg(),
            Type::Uncloneable { a } => a.arg(),
            Type::Unsafe { a } => a.arg(),
            Type::Var(_) => None,
        }
    }

    /// Writes the type.
    pub fn to_string(&self) -> (s: String)
        ensures
            s@ == self.text(),
        decreases self,
    {
        match self {
            Type::Arrow { a, b } => {
                let mut s = String::from_str("(");
                s.append(a.to_string().as_str());
                s.append("->");
                s.append(b.to_string().as_str());
                s.append(")");
                s
            },
            Type::Var(i) => alphabetize(*i),
            Type::Cloneable { a } => {
                let mut s = String::from_str("!");
                s.append(a.to_string().as_str());
                s
            },
            Type::Uncloneable { a } => {
                let mut s = String::from_str("?");
                s.append(a.to_string().as_str());
                s
            },
            Type::Unsafe { a } => {
                let mut s = String::from_str("#");
                s.append(a.to_string().as_str());
                s
            },
        }
    }
}

} // verus!
