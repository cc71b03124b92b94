use crate::calculator::names::Function;
use vstd::prelude::*;
use vstd::string::StringExecFns;

verus! {

/// Why a line could not be evaluated. `S` is the type of the names that an
/// error quotes: `String` in a running program, `Seq<char>` in specifications.
#[derive(Debug, Clone, PartialEq)]
pub enum CalcError<S> {
    /// A run of digits and dots that is no decimal number.
    InvalidNumber,
    /// An identifier before `(` that names no function.
    UnknownFunction(S),
    /// A function name that no `(` follows.
    MissingParentheses(S),
    /// A `(` without its `)`.
    ExpectedClosingParenthesis,
    /// The input ended where an operand had to stand.
    UnexpectedEnd,
    /// Something other than an operand stood where one had to stand.
    ExpectedOperand,
    /// A constant token whose name is none of the constants.
    UnknownConstant(S),
    /// The expression ended before the input did.
    UnexpectedTokens,
    DivisionByZero,
    ModuloByZero,
    /// The argument of an inverse sine or cosine outside [-1, 1].
    OutsideUnitInterval(Function),
    /// The argument of a logarithm that is not greater than zero.
    NotPositive(Function),
    /// The argument of a square root below zero.
    Negative(Function),
}

impl View for CalcError<String> {
    type V = CalcError<Seq<char>>;

    open spec fn view(&self) -> CalcError<Seq<char>> {
        match *self {
            CalcError::InvalidNumber => CalcError::InvalidNumber,
            CalcError::UnknownFunction(name) => CalcError::UnknownFunction(name@),
            CalcError::MissingParentheses(name) => CalcError::MissingParentheses(name@),
            CalcError::ExpectedClosingParenthesis => CalcError::ExpectedClosingParenthesis,
            CalcError::UnexpectedEnd => CalcError::UnexpectedEnd,
            CalcError::ExpectedOperand => CalcError::ExpectedOperand,
            CalcError::UnknownConstant(name) => CalcError::UnknownConstant(name@),
            CalcError::UnexpectedTokens => CalcError::UnexpectedTokens,
            CalcError::DivisionByZero => CalcError::DivisionByZero,
            CalcError::ModuloByZero => CalcError::ModuloByZero,
            CalcError::OutsideUnitInterval(f) => CalcError::OutsideUnitInterval(f),
            CalcError::NotPositive(f) => CalcError::NotPositive(f),
            CalcError::Negative(f) => CalcError::Negative(f),
        }
    }
}

/// The one-line message of an error.
pub open spec fn message_text(e: CalcError<Seq<char>>) -> Seq<char> {
    match e {
        CalcError::InvalidNumber => "Invalid number"@,
        CalcError::UnknownFunction(name) => "Unknown function '"@ + name
            + "'. Available functions: sin, cos, tan, asin, acos, atan, ln, log2, log10, exp, sqrt, round, floor, ceil, abs"@,
        CalcError::MissingParentheses(name) => "Function '"@ + name + "' requires parentheses: "@
            + name + "(...)"@,
        CalcError::ExpectedClosingParenthesis => "Expected closing parenthesis"@,
        CalcError::UnexpectedEnd => "Unexpected end of expression"@,
        CalcError::ExpectedOperand => "Expected number, function, constant, memory location, _, or opening parenthesis"@,
        CalcError::UnknownConstant(name) => "Unknown constant: "@ + name,
        CalcError::UnexpectedTokens => "Unexpected tokens at end of expression"@,
        CalcError::DivisionByZero => "Division by zero"@,
        CalcError::ModuloByZero => "Modulo by zero"@,
        CalcError::OutsideUnitInterval(f) => f.spec_name() + " requires argument between -1 and 1"@,
        CalcError::NotPositive(f) => f.spec_name() + " requires positive argument"@,
        CalcError::Negative(f) => f.spec_name() + " requires non-negative argument"@,
    }
}

impl CalcError<String> {
    /// The one-line message of the error.
    pub fn message(&self) -> (text: String)
        ensures
            text@ == message_text(self@),
    {
        match self {
            CalcError::InvalidNumber => String::from_str("Invalid number"),
            CalcError::UnknownFunction(name) => {
                let mut text = String::from_str("Unknown function '");
                text.append(name.as_str());
                text.append(
                    "'. Available functions: sin, cos, tan, asin, acos, atan, ln, log2, log10, exp, sqrt, round, floor, ceil, abs",
                );
                text
            },
            CalcError::MissingParentheses(name) => {
                let mut text = String::from_str("Function '");
                text.append(name.as_str());
                text.append("' requires parentheses: ");
                text.append(name.as_str());
                text.append("(...)");
                text
            },
            CalcError::ExpectedClosingParenthesis => String::from_str(
                "Expected closing parenthesis",
            ),
            CalcError::UnexpectedEnd => String::from_str("Unexpected end of expression"),
            CalcError::ExpectedOperand => String::from_str(
                "Expected number, function, constant, memory location, _, or opening parenthesis",
            ),
            CalcError::UnknownConstant(name) => {
                let mut text = String::from_str("Unknown constant: ");
                text.append(name.as_str());
                text
            },
            CalcError::UnexpectedTokens => String::from_str(
                "Unexpected tokens at end of expression",
            ),
            CalcError::DivisionByZero => String::from_str("Division by zero"),
            CalcError::ModuloByZero => String::from_str("Modulo by zero"),
            CalcError::OutsideUnitInterval(f) => {
                let mut text = String::from_str(f.name());
                text.append(" requires argument between -1 and 1");
                text
            },
            CalcError::NotPositive(f) => {
                let mut text = String::from_str(f.name());
                text.append(" requires positive argument");
                text
            },
            CalcError::Negative(f) => {
                let mut text = String::from_str(f.name());
                text.append(" requires non-negative argument");
                text
            },
        }
    }
}

} // verus!
