//! The names that a program finds defined, and the object `summon` among
//! them.

use crate::summon_io::{HostError, HostErrorKind};
use crate::vs_value::{ObjectKind, Val};
use vstd::prelude::*;
use vstd::string::StringExecFns;

verus! {

/// The names that a program finds defined, in the order of their codes.
#[allow(non_camel_case_types)]
#[derive(Debug, Clone, Copy, PartialEq, Eq, Structural)]
pub enum BuiltinName {
    Debug,
    Math,
    String,
    Number,
    Boolean,
    Array,
    isFinite,
    isNaN,
    parseFloat,
    parseInt,
    Error,
    TypeError,
    RangeError,
    InternalError,
    Symbol,
    SymbolIterator,
    BigInt,
    console,
    summon,
}

/// The number of names.
pub const BUILTIN_COUNT: usize = 19;

impl BuiltinName {
    /// The code of the name: its position among the names, from zero.
    pub open spec fn spec_code(self) -> usize {
        match self {
            BuiltinName::Debug => 0,
            BuiltinName::Math => 1,
            BuiltinName::String => 2,
            BuiltinName::Number => 3,
            BuiltinName::Boolean => 4,
            BuiltinName::Array => 5,
            BuiltinName::isFinite => 6,
            BuiltinName::isNaN => 7,
            BuiltinName::parseFloat => 8,
            BuiltinName::parseInt => 9,
            BuiltinName::Error => 10,
            BuiltinName::TypeError => 11,
            BuiltinName::RangeError => 12,
            BuiltinName::InternalError => 13,
            BuiltinName::Symbol => 14,
            BuiltinName::SymbolIterator => 15,
            BuiltinName::BigInt => 16,
            BuiltinName::console => 17,
            BuiltinName::summon => 18,
        }
    }

    /// The name as it is written.
    pub open spec fn spec_text(self) -> Seq<char> {
        match self {
            BuiltinName::Debug => "Debug"@,
            BuiltinName::Math => "Math"@,
            BuiltinName::String => "String"@,
            BuiltinName::Number => "Number"@,
            BuiltinName::Boolean => "Boolean"@,
            BuiltinName::Array => "Array"@,
            BuiltinName::isFinite => "isFinite"@,
            BuiltinName::isNaN => "isNaN"@,
            BuiltinName::parseFloat => "parseFloat"@,
            BuiltinName::parseInt => "parseInt"@,
            BuiltinName::Error => "Error"@,
            BuiltinName::TypeError => "TypeError"@,
            BuiltinName::RangeError => "RangeError"@,
            BuiltinName::InternalError => "InternalError"@,
            BuiltinName::Symbol => "Symbol"@,
            BuiltinName::SymbolIterator => "SymbolIterator"@,
            BuiltinName::BigInt => "BigInt"@,
            BuiltinName::console => "console"@,
            BuiltinName::summon => "summon"@,
        }
    }

    /// The code of the name: its position among the names, from zero.
    pub fn to_code(&self) -> (code: usize)
        ensures
            code == self.spec_code(),
            code < BUILTIN_COUNT,
    {
        match self {
            BuiltinName::Debug => 0,
            BuiltinName::Math => 1,
            BuiltinName::String => 2,
            BuiltinName::Number => 3,
            BuiltinName::Boolean => 4,
            BuiltinName::Array => 5,
            BuiltinName::isFinite => 6,
            BuiltinName::isNaN => 7,
            BuiltinName::parseFloat => 8,
            BuiltinName::parseInt => 9,
            BuiltinName::Error => 10,
            BuiltinName::TypeError => 11,
            BuiltinName::RangeError => 12,
            BuiltinName::InternalError => 13,
            BuiltinName::Symbol => 14,
            BuiltinName::SymbolIterator => 15,
            BuiltinName::BigInt => 16,
            BuiltinName::console => 17,
            BuiltinName::summon => 18,
        }
    }

    /// The name with the code `code`, if there is one.
    pub fn from_code(code: usize) -> (r: Option<BuiltinName>)
        ensures
            match r {
                Some(name) => name.spec_code() == code,
                None => code >= BUILTIN_COUNT,
            },
    {
        match code {
            0 => Some(BuiltinName::Debug),
            1 => Some(BuiltinName::Math),
            2 => Some(BuiltinName::String),
            3 => Some(BuiltinName::Number),
            4 => Some(BuiltinName::Boolean),
            5 => Some(BuiltinName::Array),
            6 => Some(BuiltinName::isFinite),
            7 => Some(BuiltinName::isNaN),
            8 => Some(BuiltinName::parseFloat),
            9 => Some(BuiltinName::parseInt),
            10 => Some(BuiltinName::Error),
            11 => Some(BuiltinName::TypeError),
            12 => Some(BuiltinName::RangeError),
            13 => Some(BuiltinName::InternalError),
            14 => Some(BuiltinName::Symbol),
            15 => Some(BuiltinName::SymbolIterator),
            16 => Some(BuiltinName::BigInt),
            17 => Some(BuiltinName::console),
            18 => Some(BuiltinName::summon),
            _ => None,
        }
    }

    /// The name as it is written.
    pub fn text(&self) -> (s: &'static str)
        ensures
            s@ == self.spec_text(),
    {
        match self {
            BuiltinName::Debug => "Debug",
            BuiltinName::Math => "Math",
            BuiltinName::String => "String",
            BuiltinName::Number => "Number",
            BuiltinName::Boolean => "Boolean",
            BuiltinName::Array => "Array",
            BuiltinName::isFinite => "isFinite",
            BuiltinName::isNaN => "isNaN",
            BuiltinName::parseFloat => "parseFloat",
            BuiltinName::parseInt => "parseInt",
            BuiltinName::Error => "Error",
            BuiltinName::TypeError => "TypeError",
            BuiltinName::RangeError => "RangeError",
            BuiltinName::InternalError => "InternalError",
            BuiltinName::Symbol => "Symbol",
            BuiltinName::SymbolIterator => "SymbolIterator",
            BuiltinName::BigInt => "BigInt",
            BuiltinName::console => "console",
            BuiltinName::summon => "summon",
        }
    }
}

/// The object `summon` that a program finds defined.
#[derive(Debug, Clone, Copy)]
pub struct SummonBuiltin {}

/// The functions of the object `summon`.
#[derive(Debug, Clone, Copy, PartialEq, Eq, Structural)]
pub enum SummonMember {
    IsSignal,
    Number,
}

impl SummonBuiltin {
    /// The name of the object.
    pub fn bo_name() -> (s: &'static str)
        ensures
            s@ == "summon"@,
    {
        "summon"
    }

    /// The function of the object under the key `key`, if it has one:
    /// `isSignal` or `number`.
    pub fn bo_sub(key: &str) -> (r: Option<SummonMember>)
        ensures
            r == if key@ == "isSignal"@ {
                Some(SummonMember::IsSignal)
            } else if key@ == "number"@ {
                Some(SummonMember::Number)
            } else {
                None
            },
    {
        if same(key, "isSignal") {
            Some(SummonMember::IsSignal)
        } else if same(key, "number") {
            Some(SummonMember::Number)
        } else {
            None
        }
    }

    /// `isSignal(x)`: whether the first argument is a signal; `false` where
    /// there is no argument.
    pub fn is_signal(params: &Vec<Val>) -> (r: Val)
        ensures
            r == Val::Bool(params@.len() > 0 && params@[0] is Signal),
    {
        if params.len() == 0 {
            return Val::Bool(false);
        }
        Val::Bool(params[0].as_signal().is_some())
    }

    /// `number()`: the description of the type `number`. It takes no
    /// argument.
    pub fn number(params: &Vec<Val>) -> (r: Result<Val, HostError>)
        ensures
            match r {
                Ok(v) => params@.len() == 0 && v == Val::Object(ObjectKind::NumberType),
                Err(e) => params@.len() > 0 && e.kind == HostErrorKind::TypeError && e.message@
                    == "Unexpected arguments"@,
            },
    {
        if params.len() != 0 {
            return Err(
                HostError {
                    kind: HostErrorKind::TypeError,
                    message: String::from_str("Unexpected arguments"),
                },
            );
        }
        Ok(Val::Object(ObjectKind::NumberType))
    }
}

/// Whether two texts are the same.
fn same(a: &str, b: &str) -> (r: bool)
    ensures
        r == (a@ == b@),
{
    match crate::name_map::compare_names(a, b) {
        crate::name_map::NameOrder::Same => true,
        _ => {
            proof {
                crate::name_map::lemma_name_order_total(a@, a@);
            }
            false
        },
    }
}

} // verus!
