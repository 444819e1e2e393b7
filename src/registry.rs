//! The operator registry: what each non-numeric token means.
use vstd::prelude::*;
use vstd::string::*;

verus! {

/// A named constant, pushed by a zero-arity operator.
#[derive(Clone, Copy, Debug, PartialEq, Eq, Structural)]
pub enum NamedConstant {
    Pi,
    E,
}

/// A function of one operand.
#[derive(Clone, Copy, Debug, PartialEq, Eq, Structural)]
pub enum UnaryFunction {
    Sin,
    Ln,
    Log10,
}

/// A function of two operands, applied as `f(first, second)`.
#[derive(Clone, Copy, Debug, PartialEq, Eq, Structural)]
pub enum BinaryFunction {
    Add,
    Sub,
    Mul,
    Div,
    Rem,
    Pow,
}

/// What a registered token does, keyed by its arity.
#[derive(Clone, Copy, Debug, PartialEq, Eq, Structural)]
pub enum Operator {
    Constant(NamedConstant),
    Unary(UnaryFunction),
    Binary(BinaryFunction),
}

/// The number of operands an operator consumes.
pub open spec fn arity(op: Operator) -> nat {
    match op {
        Operator::Constant(_) => 0,
        Operator::Unary(_) => 1,
        Operator::Binary(_) => 2,
    }
}

impl Operator {
    pub fn arity(&self) -> (r: usize)
        ensures
            r == arity(*self),
    {
        match self {
            Operator::Constant(_) => 0,
            Operator::Unary(_) => 1,
            Operator::Binary(_) => 2,
        }
    }
}

/// The registry as a mapping from token text to operator. Lookup is by exact
/// match; aliases are distinct keys with the same meaning. `\u{2212}` is the
/// minus sign and `\u{d7}` the multiplication sign.
pub open spec fn operator_of(name: Seq<char>) -> Option<Operator> {
    if name == seq!['+'] {
        Some(Operator::Binary(BinaryFunction::Add))
    } else if name == seq!['-'] || name == seq!['\u{2212}'] {
        Some(Operator::Binary(BinaryFunction::Sub))
    } else if name == seq!['*'] || name == seq!['x'] || name == seq!['\u{d7}'] {
        Some(Operator::Binary(BinaryFunction::Mul))
    } else if name == seq!['/'] {
        Some(Operator::Binary(BinaryFunction::Div))
    } else if name == seq!['%'] {
        Some(Operator::Binary(BinaryFunction::Rem))
    } else if name == seq!['^'] {
        Some(Operator::Binary(BinaryFunction::Pow))
    } else if name == seq!['s', 'i', 'n'] {
        Some(Operator::Unary(UnaryFunction::Sin))
    } else if name == seq!['l', 'n'] {
        Some(Operator::Unary(UnaryFunction::Ln))
    } else if name == seq!['l', 'o', 'g', '1', '0'] {
        Some(Operator::Unary(UnaryFunction::Log10))
    } else if name == seq!['p', 'i'] {
        Some(Operator::Constant(NamedConstant::Pi))
    } else if name == seq!['e'] {
        Some(Operator::Constant(NamedConstant::E))
    } else {
        None
    }
}

/// Looks a token up in the registry; `None` for an unknown name.
pub fn get_operator(name: &str) -> (r: Option<Operator>)
    ensures
        r == operator_of(name@),
{
    let n = name.unicode_len();
    if n == 1 {
        let c = name.get_char(0);
        assert(name@ =~= seq![c]);
        if c == '+' {
            Some(Operator::Binary(BinaryFunction::Add))
        } else if c == '-' || c == '\u{2212}' {
            Some(Operator::Binary(BinaryFunction::Sub))
        } else if c == '*' || c == 'x' || c == '\u{d7}' {
            Some(Operator::Binary(BinaryFunction::Mul))
        } else if c == '/' {
            Some(Operator::Binary(BinaryFunction::Div))
        } else if c == '%' {
            Some(Operator::Binary(BinaryFunction::Rem))
        } else if c == '^' {
            Some(Operator::Binary(BinaryFunction::Pow))
        } else if c == 'e' {
            Some(Operator::Constant(NamedConstant::E))
        } else {
            None
        }
    } else if n == 2 {
        let c0 = name.get_char(0);
        let c1 = name.get_char(1);
        assert(name@ =~= seq![c0, c1]);
        if c0 == 'l' && c1 == 'n' {
            Some(Operator::Unary(UnaryFunction::Ln))
        } else if c0 == 'p' && c1 == 'i' {
            Some(Operator::Constant(NamedConstant::Pi))
        } else {
            None
        }
    } else if n == 3 {
        let c0 = name.get_char(0);
        let c1 = name.get_char(1);
        let c2 = name.get_char(2);
        assert(name@ =~= seq![c0, c1, c2]);
        if c0 == 's' && c1 == 'i' && c2 == 'n' {
            Some(Operator::Unary(UnaryFunction::Sin))
        } else {
            None
        }
    } else if n == 5 {
        let c0 = name.get_char(0);
        let c1 = name.get_char(1);
        let c2 = name.get_char(2);
        let c3 = name.get_char(3);
        let c4 = name.get_char(4);
        assert(name@ =~= seq![c0, c1, c2, c3, c4]);
        if c0 == 'l' && c1 == 'o' && c2 == 'g' && c3 == '1' && c4 == '0' {
            Some(Operator::Unary(UnaryFunction::Log10))
        } else {
            None
        }
    } else {
        None
    }
}

} // verus!
