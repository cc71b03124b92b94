use crate::text::{chars_of, spells};
use vstd::prelude::*;

verus! {

/// The named constants.
#[derive(Debug, Clone, Copy, PartialEq, Eq, Structural)]
pub enum Constant {
    Pi,
    E,
    Phi,
    Tau,
    Sqrt2,
    Sqrt3,
}

/// The named functions, each of one argument.
#[derive(Debug, Clone, Copy, PartialEq, Eq, Structural)]
pub enum Function {
    Sin,
    Cos,
    Tan,
    Asin,
    Acos,
    Atan,
    Ln,
    Log2,
    Log10,
    Exp,
    Sqrt,
    Round,
    Floor,
    Ceil,
    Abs,
}

impl Constant {
    /// The name of the constant, as it is written in an expression.
    pub open spec fn spec_name(self) -> Seq<char> {
        match self {
            Constant::Pi => "pi"@,
            Constant::E => "e"@,
            Constant::Phi => "phi"@,
            Constant::Tau => "tau"@,
            Constant::Sqrt2 => "sqrt2"@,
            Constant::Sqrt3 => "sqrt3"@,
        }
    }

    /// The constant that a name stands for, if it is one.
    pub open spec fn spec_from_name(name: Seq<char>) -> Option<Constant> {
        if name == "pi"@ {
            Some(Constant::Pi)
        } else if name == "e"@ {
            Some(Constant::E)
        } else if name == "phi"@ {
            Some(Constant::Phi)
        } else if name == "tau"@ {
            Some(Constant::Tau)
        } else if name == "sqrt2"@ {
            Some(Constant::Sqrt2)
        } else if name == "sqrt3"@ {
            Some(Constant::Sqrt3)
        } else {
            None
        }
    }

    /// The value of the constant as an IEEE 754 binary64 bit pattern: the
    /// double nearest to pi, e, (1 + sqrt 5) / 2, 2 pi, sqrt 2 and sqrt 3.
    pub open spec fn spec_bits(self) -> u64 {
        match self {
            Constant::Pi => 0x4009_21FB_5444_2D18,
            Constant::E => 0x4005_BF0A_8B14_5769,
            Constant::Phi => 0x3FF9_E377_9B97_F4A8,
            Constant::Tau => 0x4019_21FB_5444_2D18,
            Constant::Sqrt2 => 0x3FF6_A09E_667F_3BCD,
            Constant::Sqrt3 => 0x3FFB_B67A_E858_4CAA,
        }
    }

    /// The name, as it is written in an expression.
    pub fn name(self) -> (s: &'static str)
        ensures
            s@ == self.spec_name(),
    {
        match self {
            Constant::Pi => "pi",
            Constant::E => "e",
            Constant::Phi => "phi",
            Constant::Tau => "tau",
            Constant::Sqrt2 => "sqrt2",
            Constant::Sqrt3 => "sqrt3",
        }
    }

    /// The constant that a name stands for, if it is one.
    pub fn from_name(name: &str) -> (c: Option<Constant>)
        ensures
            c == Self::spec_from_name(name@),
    {
        let chars = chars_of(name);
        let word = &chars;
        if spells(word, "pi") {
            Some(Constant::Pi)
        } else if spells(word, "e") {
            Some(Constant::E)
        } else if spells(word, "phi") {
            Some(Constant::Phi)
        } else if spells(word, "tau") {
            Some(Constant::Tau)
        } else if spells(word, "sqrt2") {
            Some(Constant::Sqrt2)
        } else if spells(word, "sqrt3") {
            Some(Constant::Sqrt3)
        } else {
            None
        }
    }

    /// The value of the constant as a bit pattern.
    pub fn bits(self) -> (b: u64)
        ensures
            b == self.spec_bits(),
    {
        match self {
            Constant::Pi => 0x4009_21FB_5444_2D18,
            Constant::E => 0x4005_BF0A_8B14_5769,
            Constant::Phi => 0x3FF9_E377_9B97_F4A8,
            Constant::Tau => 0x4019_21FB_5444_2D18,
            Constant::Sqrt2 => 0x3FF6_A09E_667F_3BCD,
            Constant::Sqrt3 => 0x3FFB_B67A_E858_4CAA,
        }
    }
}

impl Function {
    /// The name of the function, as it is written in an expression.
    pub open spec fn spec_name(self) -> Seq<char> {
        match self {
            Function::Sin => "sin"@,
            Function::Cos => "cos"@,
            Function::Tan => "tan"@,
            Function::Asin => "asin"@,
            Function::Acos => "acos"@,
            Function::Atan => "atan"@,
            Function::Ln => "ln"@,
            Function::Log2 => "log2"@,
            Function::Log10 => "log10"@,
            Function::Exp => "exp"@,
            Function::Sqrt => "sqrt"@,
            Function::Round => "round"@,
            Function::Floor => "floor"@,
            Function::Ceil => "ceil"@,
            Function::Abs => "abs"@,
        }
    }

    /// The function that a name stands for, if it is one.
    pub open spec fn spec_from_name(name: Seq<char>) -> Option<Function> {
        if name == "sin"@ {
            Some(Function::Sin)
        } else if name == "cos"@ {
            Some(Function::Cos)
        } else if name == "tan"@ {
            Some(Function::Tan)
        } else if name == "asin"@ {
            Some(Function::Asin)
        } else if name == "acos"@ {
            Some(Function::Acos)
        } else if name == "atan"@ {
            Some(Function::Atan)
        } else if name == "ln"@ {
            Some(Function::Ln)
        } else if name == "log2"@ {
            Some(Function::Log2)
        } else if name == "log10"@ {
            Some(Function::Log10)
        } else if name == "exp"@ {
            Some(Function::Exp)
        } else if name == "sqrt"@ {
            Some(Function::Sqrt)
        } else if name == "round"@ {
            Some(Function::Round)
        } else if name == "floor"@ {
            Some(Function::Floor)
        } else if name == "ceil"@ {
            Some(Function::Ceil)
        } else if name == "abs"@ {
            Some(Function::Abs)
        } else {
            None
        }
    }

    /// The name, as it is written in an expression.
    pub fn name(self) -> (s: &'static str)
        ensures
            s@ == self.spec_name(),
    {
        match self {
            Function::Sin => "sin",
            Function::Cos => "cos",
            Function::Tan => "tan",
            Function::Asin => "asin",
            Function::Acos => "acos",
            Function::Atan => "atan",
            Function::Ln => "ln",
            Function::Log2 => "log2",
            Function::Log10 => "log10",
            Function::Exp => "exp",
            Function::Sqrt => "sqrt",
            Function::Round => "round",
            Function::Floor => "floor",
            Function::Ceil => "ceil",
            Function::Abs => "abs",
        }
    }

    /// The function that a name stands for, if it is one.
    pub fn from_name(name: &str) -> (f: Option<Function>)
        ensures
            f == Self::spec_from_name(name@),
    {
        let word = chars_of(name);
        if spells(&word, "sin") {
            Some(Function::Sin)
        } else if spells(&word, "cos") {
            Some(Function::Cos)
        } else if spells(&word, "tan") {
            Some(Function::Tan)
        } else if spells(&word, "asin") {
            Some(Function::Asin)
        } else if spells(&word, "acos") {
            Some(Function::Acos)
        } else if spells(&word, "atan") {
            Some(Function::Atan)
        } else if spells(&word, "ln") {
            Some(Function::Ln)
        } else if spells(&word, "log2") {
            Some(Function::Log2)
        } else if spells(&word, "log10") {
            Some(Function::Log10)
        } else if spells(&word, "exp") {
            Some(Function::Exp)
        } else if spells(&word, "sqrt") {
            Some(Function::Sqrt)
        } else if spells(&word, "round") {
            Some(Function::Round)
        } else if spells(&word, "floor") {
            Some(Function::Floor)
        } else if spells(&word, "ceil") {
            Some(Function::Ceil)
        } else if spells(&word, "abs") {
            Some(Function::Abs)
        } else {
            None
        }
    }
}

} // verus!
