//! The closed vocabulary of lexical tokens and tree-node tags: elementary
//! function keywords, binary operators, grouping brackets, the variable,
//! real constants, and the empty tag a freshly made node carries.

use vstd::prelude::*;

verus! {

/// Tag of a token or of an expression-tree node.
#[derive(Debug, Clone, Copy, PartialEq, Eq, Structural)]
pub enum Func {
    /// sin(f(x))
    Sin,
    /// cos(f(x))
    Cos,
    /// tg(f(x)), the tangent
    Tg,
    /// ctg(f(x)), the cotangent
    Ctg,
    /// ln(f(x))
    Ln,
    /// e^(f(x))
    Exp,
    /// sqrt(f(x))
    Sqrt,
    /// atg(f(x)), the arctangent
    Atg,
    /// actg(f(x)), the arccotangent
    Actg,
    /// asin(f(x))
    Asin,
    /// acos(f(x))
    Acos,
    /// Binary +
    Add,
    /// Binary -
    Sub,
    /// Binary *
    Mul,
    /// Binary /
    Div,
    /// Binary ^
    Pow,
    /// Open bracket
    Ob,
    /// Closed bracket
    Cb,
    /// The function variable
    X,
    /// A real constant
    Const,
    /// Empty tag: a node not yet given a meaning
    Nil,
}

impl Func {
    /// Whether this tag is one of the prefix function keywords, which act
    /// as unary operators.
    pub open spec fn spec_is_unary(self) -> bool {
        self matches (Func::Sin | Func::Cos | Func::Tg | Func::Ctg | Func::Ln | Func::Exp
            | Func::Sqrt | Func::Atg | Func::Actg | Func::Asin | Func::Acos)
    }

    /// Whether this tag is one of the binary operators.
    pub open spec fn spec_is_binary(self) -> bool {
        self matches (Func::Add | Func::Sub | Func::Mul | Func::Div | Func::Pow)
    }

    pub fn is_unary(&self) -> (r: bool)
        ensures
            r == self.spec_is_unary(),
    {
        match self {
            Func::Sin | Func::Cos | Func::Tg | Func::Ctg | Func::Ln | Func::Exp | Func::Sqrt
                | Func::Atg | Func::Actg | Func::Asin | Func::Acos => true,
            _ => false,
        }
    }

    pub fn is_binary(&self) -> (r: bool)
        ensures
            r == self.spec_is_binary(),
    {
        match self {
            Func::Add | Func::Sub | Func::Mul | Func::Div | Func::Pow => true,
            _ => false,
        }
    }

    /// The spelling of this tag in an expression string, as the renderer
    /// and the debug printer write it.
    pub fn symbol(&self) -> (r: &'static str)
        ensures
            (*self matches Func::Add ==> r@ == "+"@),
            (*self matches Func::Sub ==> r@ == "-"@),
            (*self matches Func::Mul ==> r@ == "*"@),
            (*self matches Func::Div ==> r@ == "/"@),
            (*self matches Func::Pow ==> r@ == "^"@),
            (*self matches Func::X ==> r@ == "x"@),
            (*self matches Func::Sin ==> r@ == "sin"@),
            (*self matches Func::Cos ==> r@ == "cos"@),
            (*self matches Func::Tg ==> r@ == "tg"@),
            (*self matches Func::Ctg ==> r@ == "ctg"@),
            (*self matches Func::Ln ==> r@ == "ln"@),
            (*self matches Func::Exp ==> r@ == "e^"@),
            (*self matches Func::Sqrt ==> r@ == "sqrt"@),
            (*self matches Func::Atg ==> r@ == "arctg"@),
            (*self matches Func::Actg ==> r@ == "arcctg"@),
            (*self matches Func::Asin ==> r@ == "arcsin"@),
            (*self matches Func::Acos ==> r@ == "arccos"@),
            (*self matches Func::Ob ==> r@ == "("@),
            (*self matches Func::Cb ==> r@ == ")"@),
            (*self matches Func::Const ==> r@ == "Const"@),
            (*self matches Func::Nil ==> r@ == "None"@),
    {
        match self {
            Func::Add => "+",
            Func::Sub => "-",
            Func::Mul => "*",
            Func::Div => "/",
            Func::Pow => "^",
            Func::X => "x",
            Func::Sin => "sin",
            Func::Cos => "cos",
            Func::Tg => "tg",
            Func::Ctg => "ctg",
            Func::Ln => "ln",
            Func::Exp => "e^",
            Func::Sqrt => "sqrt",
            Func::Atg => "arctg",
            Func::Actg => "arcctg",
            Func::Asin => "arcsin",
            Func::Acos => "arccos",
            Func::Ob => "(",
            Func::Cb => ")",
            Func::Const => "Const",
            Func::Nil => "None",
        }
    }
}

} // verus!
