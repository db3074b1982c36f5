//! The operators of the source language and the types of its values.

use vstd::prelude::*;
use vstd::string::StringExecFns;

verus! {

/// An operator with one operand.
#[derive(Debug, Clone, Copy, PartialEq, Eq, Structural)]
pub enum UnaryOp {
    Plus,
    Minus,
    Not,
    BitNot,
}

/// An operator with two operands.
#[derive(Debug, Clone, Copy, PartialEq, Eq, Structural)]
pub enum BinaryOp {
    Plus,
    Minus,
    Mul,
    Div,
    Mod,
    Exp,
    LooseEq,
    LooseNe,
    Eq,
    Ne,
    And,
    Or,
    Less,
    LessEq,
    Greater,
    GreaterEq,
    BitAnd,
    BitOr,
    BitXor,
    LeftShift,
    RightShift,
    RightShiftUnsigned,
}

/// The type of a runtime value.
#[derive(Debug, Clone, Copy, PartialEq, Eq, Structural)]
pub enum VsType {
    Undefined,
    Null,
    Bool,
    Number,
    BigInt,
    String,
    Array,
    Object,
}

/// The type of what a unary operator gives: `!` gives a boolean, the others
/// a number.
pub open spec fn unary_type(op: UnaryOp) -> VsType {
    match op {
        UnaryOp::Not => VsType::Bool,
        _ => VsType::Number,
    }
}

/// Whether a binary operator compares its operands; it then gives a boolean.
pub open spec fn is_comparison(op: BinaryOp) -> bool {
    match op {
        BinaryOp::LooseEq
        | BinaryOp::LooseNe
        | BinaryOp::Eq
        | BinaryOp::Ne
        | BinaryOp::Less
        | BinaryOp::LessEq
        | BinaryOp::Greater
        | BinaryOp::GreaterEq => true,
        _ => false,
    }
}

/// Whether a binary operator is `&&` or `||`; what it gives has the type of
/// its operands.
pub open spec fn is_logical(op: BinaryOp) -> bool {
    op == BinaryOp::And || op == BinaryOp::Or
}


/// The name of a unary operator in a Bristol circuit.
pub open spec fn unary_mnemonic(op: UnaryOp) -> Seq<char> {
    match op {
        UnaryOp::Plus => "COPY"@,
        UnaryOp::Minus => "NEG"@,
        UnaryOp::Not => "INV"@,
        UnaryOp::BitNot => "BITNOT"@,
    }
}

/// The name of a binary operator in a Bristol circuit. The two forms of
/// equality have one name, and so have the two of inequality.
pub open spec fn binary_mnemonic(op: BinaryOp) -> Seq<char> {
    match op {
        BinaryOp::Plus => "ADD"@,
        BinaryOp::Minus => "SUB"@,
        BinaryOp::Mul => "MUL"@,
        BinaryOp::Div => "DIV"@,
        BinaryOp::Mod => "MOD"@,
        BinaryOp::Exp => "EXP"@,
        BinaryOp::LooseEq => "EQ"@,
        BinaryOp::LooseNe => "NE"@,
        BinaryOp::Eq => "EQ"@,
        BinaryOp::Ne => "NE"@,
        BinaryOp::And => "AND"@,
        BinaryOp::Or => "OR"@,
        BinaryOp::Less => "LT"@,
        BinaryOp::LessEq => "LE"@,
        BinaryOp::Greater => "GT"@,
        BinaryOp::GreaterEq => "GE"@,
        BinaryOp::BitAnd => "BITAND"@,
        BinaryOp::BitOr => "BITOR"@,
        BinaryOp::BitXor => "XOR"@,
        BinaryOp::LeftShift => "SHL"@,
        BinaryOp::RightShift => "SHR"@,
        BinaryOp::RightShiftUnsigned => "USHR"@,
    }
}

/// The name of a unary operator in a Bristol circuit.
pub fn to_bristol_unary_op(op: UnaryOp) -> (r: String)
    ensures
        r@ == unary_mnemonic(op),
{
    String::from_str(
        match op {
            UnaryOp::Plus => "COPY",
            UnaryOp::Minus => "NEG",
            UnaryOp::Not => "INV",
            UnaryOp::BitNot => "BITNOT",
        },
    )
}

/// The name of a binary operator in a Bristol circuit.
pub fn to_bristol_binary_op(op: BinaryOp) -> (r: String)
    ensures
        r@ == binary_mnemonic(op),
{
    String::from_str(
        match op {
            BinaryOp::Plus => "ADD",
            BinaryOp::Minus => "SUB",
            BinaryOp::Mul => "MUL",
            BinaryOp::Div => "DIV",
            BinaryOp::Mod => "MOD",
            BinaryOp::Exp => "EXP",
            BinaryOp::LooseEq => "EQ",
            BinaryOp::LooseNe => "NE",
            BinaryOp::Eq => "EQ",
            BinaryOp::Ne => "NE",
            BinaryOp::And => "AND",
            BinaryOp::Or => "OR",
            BinaryOp::Less => "LT",
            BinaryOp::LessEq => "LE",
            BinaryOp::Greater => "GT",
            BinaryOp::GreaterEq => "GE",
            BinaryOp::BitAnd => "BITAND",
            BinaryOp::BitOr => "BITOR",
            BinaryOp::BitXor => "XOR",
            BinaryOp::LeftShift => "SHL",
            BinaryOp::RightShift => "SHR",
            BinaryOp::RightShiftUnsigned => "USHR",
        },
    )
}

} // verus!
