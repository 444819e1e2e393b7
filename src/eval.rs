//! Evaluation of a token sequence into an expression tree.
use vstd::prelude::*;

use crate::lexer::{lexemes, parse, views, Lexeme, Token};
use crate::registry::{
    get_operator, operator_of, BinaryFunction, NamedConstant, Operator, UnaryFunction,
};

verus! {

/// An expression tree. A `Number` holds a literal that the float parser
/// accepts; a `Binary` node applies its function as `f(first, second)`.
#[derive(Debug, PartialEq)]
pub enum Expr {
    Number(String),
    Constant(NamedConstant),
    Unary(UnaryFunction, Box<Expr>),
    Binary(BinaryFunction, Box<Expr>, Box<Expr>),
}

/// An expression tree, in specifications.
pub enum Term {
    Number(Seq<char>),
    Constant(NamedConstant),
    Unary(UnaryFunction, Box<Term>),
    Binary(BinaryFunction, Box<Term>, Box<Term>),
}

pub open spec fn term_of(e: &Expr) -> Term
    decreases e,
{
    match e {
        Expr::Number(s) => Term::Number(s@),
        Expr::Constant(c) => Term::Constant(*c),
        Expr::Unary(f, a) => Term::Unary(*f, Box::new(term_of(a))),
        Expr::Binary(f, a, b) => Term::Binary(*f, Box::new(term_of(a)), Box::new(term_of(b))),
    }
}

impl View for Expr {
    type V = Term;

    open spec fn view(&self) -> Term {
        term_of(self)
    }
}

/// Why an expression could not be evaluated.
#[derive(Debug, PartialEq)]
pub enum EvaluationError {
    /// An identifier that the registry does not hold.
    UnknownOperator { name: String },
    /// An operator met fewer operands than its arity.
    InsufficientOperands { expected: usize, found: usize },
    /// Nothing to evaluate.
    EmptyExpression,
    /// More than one value was left once every token was consumed.
    TooManyOperands { count: usize },
}

/// An evaluation error, in specifications.
pub enum Failure {
    UnknownOperator(Seq<char>),
    InsufficientOperands { expected: nat, found: nat },
    EmptyExpression,
    TooManyOperands(nat),
}

impl View for EvaluationError {
    type V = Failure;

    open spec fn view(&self) -> Failure {
        match self {
            EvaluationError::UnknownOperator { name } => Failure::UnknownOperator(name@),
            EvaluationError::InsufficientOperands { expected, found } => {
                Failure::InsufficientOperands { expected: *expected as nat, found: *found as nat }
            },
            EvaluationError::EmptyExpression => Failure::EmptyExpression,
            EvaluationError::TooManyOperands { count } => Failure::TooManyOperands(*count as nat),
        }
    }
}

pub open spec fn outcome(r: Result<Expr, EvaluationError>) -> Result<Term, Failure> {
    match r {
        Ok(e) => Ok(e@),
        Err(err) => Err(err@),
    }
}

pub open spec fn terms(stack: Seq<Expr>) -> Seq<Term> {
    stack.map_values(|e: Expr| e@)
}

/// One step of the stack machine on a stack of trees (top last).
pub open spec fn step(stack: Seq<Term>, t: Lexeme) -> Result<Seq<Term>, Failure> {
    match t {
        Lexeme::Number(s) => Ok(stack.push(Term::Number(s))),
        Lexeme::Identifier(name) => match operator_of(name) {
            None => Err(Failure::UnknownOperator(name)),
            Some(Operator::Constant(c)) => Ok(stack.push(Term::Constant(c))),
            Some(Operator::Unary(f)) => if stack.len() < 1 {
                Err(Failure::InsufficientOperands { expected: 1, found: stack.len() })
            } else {
                Ok(stack.drop_last().push(Term::Unary(f, Box::new(stack.last()))))
            },
            Some(Operator::Binary(f)) => if stack.len() < 2 {
                Err(Failure::InsufficientOperands { expected: 2, found: stack.len() })
            } else {
                let n = stack.len();
                Ok(
                    stack.take(n - 2).push(
                        Term::Binary(f, Box::new(stack[n - 2]), Box::new(stack[n - 1])),
                    ),
                )
            },
        },
    }
}

/// The stack after the stack machine, started on `stack`, has consumed
/// `tokens` left to right, or the first error it met.
pub open spec fn run_from(stack: Seq<Term>, tokens: Seq<Lexeme>) -> Result<Seq<Term>, Failure>
    decreases tokens.len(),
{
    if tokens.len() == 0 {
        Ok(stack)
    } else {
        match run_from(stack, tokens.drop_last()) {
            Err(e) => Err(e),
            Ok(st) => step(st, tokens.last()),
        }
    }
}

/// The stack machine from an empty stack.
pub open spec fn run(tokens: Seq<Lexeme>) -> Result<Seq<Term>, Failure> {
    run_from(seq![], tokens)
}

/// The value of a token sequence: the single tree left on the stack.
pub open spec fn evaluation(tokens: Seq<Lexeme>) -> Result<Term, Failure> {
    match run(tokens) {
        Err(e) => Err(e),
        Ok(stack) => if stack.len() == 0 {
            Err(Failure::EmptyExpression)
        } else if stack.len() == 1 {
            Ok(stack[0])
        } else {
            Err(Failure::TooManyOperands(stack.len()))
        },
    }
}

/// Once the stack machine fails, it fails with that error whatever follows.
pub proof fn lemma_failure_persists(tokens: Seq<Lexeme>, k: int)
    requires
        0 <= k <= tokens.len(),
        run(tokens.take(k)) is Err,
    ensures
        run(tokens) == run(tokens.take(k)),
    decreases tokens.len(),
{
    if k < tokens.len() {
        assert(tokens.drop_last().take(k) =~= tokens.take(k));
        lemma_failure_persists(tokens.drop_last(), k);
    } else {
        assert(tokens.take(k) =~= tokens);
    }
}

fn copy_text(s: &String) -> (r: String)
    ensures
        r@ == s@,
{
    s.clone()
}

/// Runs the stack machine over `tokens`, left to right.
pub fn execute(tokens: Vec<Token>) -> (r: Result<Expr, EvaluationError>)
    ensures
        outcome(r) == evaluation(views(tokens@)),
{
    let ghost ts = views(tokens@);
    let mut stack: Vec<Expr> = Vec::new();
    let mut i: usize = 0;
    assert(ts.take(0) =~= seq![]);
    assert(terms(stack@) =~= seq![]);
    while i < tokens.len()
        invariant
            i <= tokens@.len(),
            ts == views(tokens@),
            run(ts.take(i as int)) == Ok::<Seq<Term>, Failure>(terms(stack@)),
        decreases tokens@.len() - i,
    {
        let ghost before = terms(stack@);
        assert(ts.take(i + 1).drop_last() =~= ts.take(i as int));
        assert(ts.take(i + 1).last() == tokens@[i as int]@);
        match &tokens[i] {
            Token::Number(s) => {
                stack.push(Expr::Number(copy_text(s)));
                assert(terms(stack@) =~= before.push(stack@.last()@));
            },
            Token::Identifier(name) => {
                match get_operator(name.as_str()) {
                    None => {
                        proof {
                            lemma_failure_persists(ts, i + 1);
                        }
                        return Err(EvaluationError::UnknownOperator { name: copy_text(name) });
                    },
                    Some(Operator::Constant(c)) => {
                        stack.push(Expr::Constant(c));
                        assert(terms(stack@) =~= before.push(stack@.last()@));
                    },
                    Some(Operator::Unary(f)) => {
                        match stack.pop() {
                            None => {
                                proof {
                                    lemma_failure_persists(ts, i + 1);
                                }
                                return Err(
                                    EvaluationError::InsufficientOperands { expected: 1, found: 0 },
                                );
                            },
                            Some(a) => {
                                assert(a@ == before.last());
                                assert(terms(stack@) =~= before.drop_last());
                                stack.push(Expr::Unary(f, Box::new(a)));
                                assert(terms(stack@) =~= before.drop_last().push(stack@.last()@));
                            },
                        }
                    },
                    Some(Operator::Binary(f)) => {
                        if stack.len() < 2 {
                            proof {
                                lemma_failure_persists(ts, i + 1);
                            }
                            return Err(
                                EvaluationError::InsufficientOperands {
                                    expected: 2,
                                    found: stack.len(),
                                },
                            );
                        }
                        let b = stack.pop().unwrap();
                        let a = stack.pop().unwrap();
                        let ghost n = before.len();
                        assert(a@ == before[n - 2]);
                        assert(b@ == before[n - 1]);
                        assert(terms(stack@) =~= before.take(n - 2));
                        stack.push(Expr::Binary(f, Box::new(a), Box::new(b)));
                        assert(terms(stack@) =~= before.take(n - 2).push(stack@.last()@));
                    },
                }
            },
        }
        i = i + 1;
    }
    assert(ts.take(i as int) =~= ts);
    if stack.len() == 0 {
        Err(EvaluationError::EmptyExpression)
    } else if stack.len() == 1 {
        Ok(stack.pop().unwrap())
    } else {
        Err(EvaluationError::TooManyOperands { count: stack.len() })
    }
}

/// Tokenizes `expr` and evaluates it with the stack machine.
pub fn evaluate_expression(expr: &str) -> (r: Result<Expr, EvaluationError>)
    ensures
        outcome(r) == evaluation(lexemes(expr@)),
{
    execute(parse(expr))
}

/// Right-to-left recursive descent: the expression that ends just before
/// position `end`, and the position where it starts. A binary operator's
/// first descent yields its second operand.
pub open spec fn descend(tokens: Seq<Lexeme>, end: int) -> Result<(Term, int), Failure>
    decreases end,
{
    if end <= 0 {
        Err(Failure::InsufficientOperands { expected: 1, found: 0 })
    } else if end > tokens.len() {
        Err(Failure::EmptyExpression)
    } else {
        let next = end - 1;
        match tokens[next] {
            Lexeme::Number(s) => Ok((Term::Number(s), next)),
            Lexeme::Identifier(name) => match operator_of(name) {
                None => Err(Failure::UnknownOperator(name)),
                Some(Operator::Constant(c)) => Ok((Term::Constant(c), next)),
                Some(Operator::Unary(f)) => if next == 0 {
                    Err(Failure::InsufficientOperands { expected: 1, found: 0 })
                } else {
                    match descend(tokens, next) {
                        Err(e) => Err(e),
                        Ok((a, k)) => Ok((Term::Unary(f, Box::new(a)), k)),
                    }
                },
                Some(Operator::Binary(f)) => if next == 0 {
                    Err(Failure::InsufficientOperands { expected: 2, found: 0 })
                } else {
                    match descend(tokens, next) {
                        Err(e) => Err(e),
                        Ok((b, k)) => if k <= 0 || k >= end {
                            Err(Failure::InsufficientOperands { expected: 2, found: 1 })
                        } else {
                            match descend(tokens, k) {
                                Err(e) => Err(e),
                                Ok((a, j)) => Ok(
                                    (Term::Binary(f, Box::new(a), Box::new(b)), j),
                                ),
                            }
                        },
                    }
                },
            },
        }
    }
}

/// An expression read by descent starts before it ends.
pub proof fn lemma_descend_bounds(tokens: Seq<Lexeme>, end: int)
    ensures
        descend(tokens, end) matches Ok((_, k)) ==> 0 <= k < end,
    decreases end,
{
    if 0 < end <= tokens.len() {
        lemma_descend_bounds(tokens, end - 1);
        if let Ok((_, k)) = descend(tokens, end - 1) {
            lemma_descend_bounds(tokens, k);
        }
    }
}

/// How many whole expressions descent reads from `tokens[..end]`, one after
/// another from the right.
pub open spec fn trees_before(tokens: Seq<Lexeme>, end: int) -> Result<nat, Failure>
    decreases end,
{
    if end <= 0 || end > tokens.len() {
        Ok(0)
    } else {
        match descend(tokens, end) {
            Err(e) => Err(e),
            Ok((_, k)) => if 0 <= k < end {
                match trees_before(tokens, k) {
                    Err(e) => Err(e),
                    Ok(n) => Ok(n + 1),
                }
            } else {
                Ok(1)
            },
        }
    }
}

/// Evaluation by recursive descent: one expression that spans all tokens.
/// Tokens left over before it are an error that counts every expression.
pub open spec fn descent_evaluation(tokens: Seq<Lexeme>) -> Result<Term, Failure> {
    if tokens.len() == 0 {
        Err(Failure::EmptyExpression)
    } else {
        match descend(tokens, tokens.len() as int) {
            Err(e) => Err(e),
            Ok((t, k)) => if k == 0 {
                Ok(t)
            } else {
                match trees_before(tokens, k) {
                    Err(e) => Err(e),
                    Ok(n) => Err(Failure::TooManyOperands(n + 1)),
                }
            },
        }
    }
}

pub open spec fn descent_outcome(r: Result<(Expr, usize), EvaluationError>) -> Result<
    (Term, int),
    Failure,
> {
    match r {
        Ok((e, k)) => Ok((e@, k as int)),
        Err(err) => Err(err@),
    }
}

/// Reads, by recursive descent, the expression that ends just before `end`,
/// and returns it with the position where it starts. With no tokens left
/// before `end`, there is no operand to read.
pub fn exec_index(tokens: &Vec<Token>, end: usize) -> (r: Result<(Expr, usize), EvaluationError>)
    requires
        end <= tokens@.len(),
    ensures
        descent_outcome(r) == descend(views(tokens@), end as int),
    decreases end,
{
    let ghost ts = views(tokens@);
    if end == 0 {
        return Err(EvaluationError::InsufficientOperands { expected: 1, found: 0 });
    }
    let next = end - 1;
    assert(ts[next as int] == tokens@[next as int]@);
    match &tokens[next] {
        Token::Number(s) => Ok((Expr::Number(copy_text(s)), next)),
        Token::Identifier(name) => match get_operator(name.as_str()) {
            None => Err(EvaluationError::UnknownOperator { name: copy_text(name) }),
            Some(Operator::Constant(c)) => Ok((Expr::Constant(c), next)),
            Some(Operator::Unary(f)) => {
                if next == 0 {
                    return Err(EvaluationError::InsufficientOperands { expected: 1, found: 0 });
                }
                match exec_index(tokens, next) {
                    Err(e) => Err(e),
                    Ok((a, k)) => Ok((Expr::Unary(f, Box::new(a)), k)),
                }
            },
            Some(Operator::Binary(f)) => {
                if next == 0 {
                    return Err(EvaluationError::InsufficientOperands { expected: 2, found: 0 });
                }
                match exec_index(tokens, next) {
                    Err(e) => Err(e),
                    Ok((b, k)) => {
                        proof {
                            lemma_descend_bounds(ts, next as int);
                        }
                        if k == 0 {
                            return Err(
                                EvaluationError::InsufficientOperands { expected: 2, found: 1 },
                            );
                        }
                        match exec_index(tokens, k) {
                            Err(e) => Err(e),
                            Ok((a, j)) => Ok((Expr::Binary(f, Box::new(a), Box::new(b)), j)),
                        }
                    },
                }
            },
        },
    }
}

/// Runs recursive descent over `tokens`, from the last token back, and
/// rejects tokens that the top-level expression leaves unread.
pub fn execute_recursive(tokens: Vec<Token>) -> (r: Result<Expr, EvaluationError>)
    ensures
        outcome(r) == descent_evaluation(views(tokens@)),
{
    let ghost ts = views(tokens@);
    let n = tokens.len();
    if n == 0 {
        return Err(EvaluationError::EmptyExpression);
    }
    let (top, start) = match exec_index(&tokens, n) {
        Err(e) => {
            return Err(e);
        },
        Ok(found) => found,
    };
    proof {
        lemma_descend_bounds(ts, n as int);
    }
    if start == 0 {
        return Ok(top);
    }
    let mut count: usize = 1;
    let mut end: usize = start;
    while end > 0
        invariant
            ts == views(tokens@),
            n == tokens@.len(),
            0 <= end <= start < n,
            1 <= count <= 1 + start - end,
            descend(ts, n as int) matches Ok((_, k)) && k == start,
            trees_before(ts, start as int) == match trees_before(ts, end as int) {
                Err(e) => Err(e),
                Ok(m) => Ok::<nat, Failure>((m + count - 1) as nat),
            },
        decreases end,
    {
        match exec_index(&tokens, end) {
            Err(e) => {
                assert(trees_before(ts, end as int) == Err::<nat, Failure>(e@));
                assert(trees_before(ts, start as int) == Err::<nat, Failure>(e@));
                return Err(e);
            },
            Ok((_, k)) => {
                proof {
                    lemma_descend_bounds(ts, end as int);
                }
                count = count + 1;
                end = k;
            },
        }
    }
    Err(EvaluationError::TooManyOperands { count })
}

} // verus!
