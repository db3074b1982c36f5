//! Runtime values of the source language, as far as circuits are built from
//! them.

use crate::ops::VsType;
use vstd::prelude::*;

verus! {

/// What stands for a signal in a value: the identifier of the signal and
/// its type.
#[derive(Debug, Clone, Copy, PartialEq, Eq, Structural)]
pub struct SignalHandle {
    pub id: usize,
    pub type_: VsType,
}

/// What is known of an object: whether it is the description of the type
/// `number` that inputs and outputs are declared with.
#[derive(Debug, Clone, Copy, PartialEq, Eq, Structural)]
pub enum ObjectKind {
    NumberType,
    Other,
}

/// A runtime value. Only `Bool`, `Number` and `Signal` take part in
/// circuits; a `Number` is a whole number.
#[derive(Debug, PartialEq)]
pub enum Val {
    Undefined,
    Null,
    Bool(bool),
    Number(i128),
    BigInt,
    String(String),
    Array,
    Object(ObjectKind),
    Signal(SignalHandle),
}

impl Clone for Val {
    fn clone(&self) -> (r: Self)
        ensures
            r == *self,
    {
        match self {
            Val::Undefined => Val::Undefined,
            Val::Null => Val::Null,
            Val::Bool(b) => Val::Bool(*b),
            Val::Number(n) => Val::Number(*n),
            Val::BigInt => Val::BigInt,
            Val::String(s) => Val::String(s.clone()),
            Val::Array => Val::Array,
            Val::Object(k) => Val::Object(*k),
            Val::Signal(h) => Val::Signal(*h),
        }
    }
}

impl Val {
    /// The type of the value; a signal has the type that its handle gives.
    pub open spec fn spec_typeof(self) -> VsType {
        match self {
            Val::Undefined => VsType::Undefined,
            Val::Null => VsType::Null,
            Val::Bool(_) => VsType::Bool,
            Val::Number(_) => VsType::Number,
            Val::BigInt => VsType::BigInt,
            Val::String(_) => VsType::String,
            Val::Array => VsType::Array,
            Val::Object(_) => VsType::Object,
            Val::Signal(h) => h.type_,
        }
    }

    /// Whether the value is a number or a boolean, or a signal of such a
    /// type.
    pub open spec fn is_numeric(self) -> bool {
        self.spec_typeof() == VsType::Number || self.spec_typeof() == VsType::Bool
    }

    /// Whether a boolean or a number counts as true: `true`, and every number
    /// but zero.
    pub open spec fn spec_truthy(self) -> bool {
        match self {
            Val::Bool(b) => b,
            Val::Number(n) => n != 0,
            _ => false,
        }
    }

    /// The type of the value.
    pub fn typeof_(&self) -> (t: VsType)
        ensures
            t == self.spec_typeof(),
    {
        match self {
            Val::Undefined => VsType::Undefined,
            Val::Null => VsType::Null,
            Val::Bool(_) => VsType::Bool,
            Val::Number(_) => VsType::Number,
            Val::BigInt => VsType::BigInt,
            Val::String(_) => VsType::String,
            Val::Array => VsType::Array,
            Val::Object(_) => VsType::Object,
            Val::Signal(h) => h.type_,
        }
    }

    /// Whether the value is a number or a boolean, or a signal of such a
    /// type.
    pub fn numeric(&self) -> (r: bool)
        ensures
            r == self.is_numeric(),
    {
        match self.typeof_() {
            VsType::Number => true,
            VsType::Bool => true,
            _ => false,
        }
    }

    /// The handle of the signal that the value is, if it is one.
    pub fn as_signal(&self) -> (r: Option<SignalHandle>)
        ensures
            r == match *self {
                Val::Signal(h) => Some(h),
                _ => None,
            },
    {
        match self {
            Val::Signal(h) => Some(*h),
            _ => None,
        }
    }
}

} // verus!
