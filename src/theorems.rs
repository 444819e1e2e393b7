//! Laws of evaluation: over whole input texts, of the stack machine's
//! depth, and between the two engines.
use vstd::prelude::*;

use crate::eval::{
    descend, descent_evaluation, evaluation, lemma_descend_bounds, lemma_failure_persists, run,
    run_from, step, Failure, Term,
};
use crate::lexer::{
    has_no_whitespace, is_all_whitespace, is_float_literal, is_mantissa, is_whitespace,
    lemma_float_literal_has_no_whitespace, lemma_scan_run, lemma_scan_separator,
    lemma_scan_whitespace, lemma_single_word, lexemes, scan_words, unsigned_part, words, Lexeme,
};
use crate::registry::{arity, operator_of, BinaryFunction, Operator};

verus! {

/// A text that is a single numeric literal evaluates to that literal.
pub proof fn lemma_single_number(s: Seq<char>)
    requires
        is_float_literal(s),
    ensures
        evaluation(lexemes(s)) == Ok::<Term, Failure>(Term::Number(s)),
{
    lemma_float_literal_has_no_whitespace(s);
    if s.len() == 0 {
        assert(unsigned_part(s) =~= s);
        assert forall|k: int| 0 <= k <= s.len() implies !is_mantissa(#[trigger] s.take(k)) by {
            assert(s.take(k).len() == 0);
        }
    }
    lemma_single_word(s);
    let ts = lexemes(s);
    assert(ts =~= seq![Lexeme::Number(s)]);
    assert(ts.drop_last() =~= seq![]);
    assert(run(ts.drop_last()) == Ok::<Seq<Term>, Failure>(seq![]));
    assert(run(ts) == Ok::<Seq<Term>, Failure>(seq![Term::Number(s)]));
}

/// The name of a binary operator is one character, neither whitespace nor
/// part of a numeric literal on its own.
proof fn lemma_binary_name(op: Seq<char>, f: BinaryFunction)
    requires
        operator_of(op) == Some(Operator::Binary(f)),
    ensures
        op.len() == 1,
        has_no_whitespace(op),
        !is_float_literal(op),
{
    assert(op.len() == 1);
    let c = op[0];
    assert(!is_whitespace(c));
    assert(!('0' <= c <= '9'));
    let b = unsigned_part(op);
    assert(b.len() <= 1);
    if b.len() == 1 {
        assert(b[0] == c);
    }
    assert forall|k: int| 0 <= k <= b.len() implies !is_mantissa(#[trigger] b.take(k)) by {
        let m = b.take(k);
        if m.len() == 1 {
            assert(m[0] == c);
        }
    }
}

/// `a b op`, with two numeric literals and a binary operator, evaluates to
/// the operator applied to `a` as first and `b` as second operand.
pub proof fn lemma_binary_expression(a: Seq<char>, b: Seq<char>, op: Seq<char>, f: BinaryFunction)
    requires
        is_float_literal(a),
        is_float_literal(b),
        operator_of(op) == Some(Operator::Binary(f)),
    ensures
        evaluation(lexemes(a + seq![' '] + b + seq![' '] + op)) == Ok::<Term, Failure>(
            Term::Binary(f, Box::new(Term::Number(a)), Box::new(Term::Number(b))),
        ),
{
    lemma_float_literal_has_no_whitespace(a);
    lemma_float_literal_has_no_whitespace(b);
    lemma_binary_name(op, f);
    lemma_single_number(a);
    lemma_single_number(b);
    lemma_single_word(a);
    lemma_single_word(b);
    let e = Seq::<char>::empty();
    let p1 = a + seq![' '];
    let p2 = p1 + b;
    let p3 = p2 + seq![' '];
    let s = p3 + op;
    assert(scan_words(e) == (Seq::<Seq<char>>::empty(), e));
    lemma_scan_run(e, a);
    assert(e + a =~= a);
    lemma_scan_separator(a, ' ');
    assert(a.push(' ') =~= p1);
    lemma_scan_run(p1, b);
    lemma_scan_separator(p2, ' ');
    assert(p2.push(' ') =~= p3);
    lemma_scan_run(p3, op);
    assert(a + seq![' '] + b + seq![' '] + op =~= s);
    assert(words(s) =~= seq![a, b, op]);
    let ts = lexemes(s);
    assert(ts =~= seq![Lexeme::Number(a), Lexeme::Number(b), Lexeme::Identifier(op)]);
    let t1 = seq![Lexeme::Number(a)];
    let t2 = seq![Lexeme::Number(a), Lexeme::Number(b)];
    assert(ts.drop_last() =~= t2);
    assert(t2.drop_last() =~= t1);
    assert(t1.drop_last() =~= seq![]);
    assert(run(t1.drop_last()) == Ok::<Seq<Term>, Failure>(seq![]));
    assert(t1.last() == Lexeme::Number(a));
    assert(Seq::<Term>::empty().push(Term::Number(a)) =~= seq![Term::Number(a)]);
    assert(run(t1) == Ok::<Seq<Term>, Failure>(seq![Term::Number(a)]));
    assert(seq![Term::Number(a)].push(Term::Number(b)) =~= seq![Term::Number(a), Term::Number(b)]);
    assert(run(t2) == Ok::<Seq<Term>, Failure>(seq![Term::Number(a), Term::Number(b)]));
    let st = seq![Term::Number(a), Term::Number(b)];
    assert(st.take(0) =~= seq![]);
}

/// Text made of whitespace alone, the empty text included, is an empty
/// expression.
pub proof fn lemma_blank_is_empty(s: Seq<char>)
    requires
        is_all_whitespace(s),
    ensures
        evaluation(lexemes(s)) == Err::<Term, Failure>(Failure::EmptyExpression),
{
    lemma_scan_whitespace(s);
    assert(lexemes(s) =~= seq![]);
}

/// Evaluation depends on the text alone: two evaluations of one text agree.
pub proof fn lemma_evaluation_is_repeatable(s: Seq<char>, t: Seq<char>)
    requires
        s == t,
    ensures
        evaluation(lexemes(s)) == evaluation(lexemes(t)),
{
}

/// Running two token sequences one after the other runs their concatenation.
proof fn lemma_run_from_append(stack: Seq<Term>, a: Seq<Lexeme>, b: Seq<Lexeme>)
    ensures
        run_from(stack, a + b) == match run_from(stack, a) {
            Err(e) => Err(e),
            Ok(st) => run_from(st, b),
        },
    decreases b.len(),
{
    if b.len() == 0 {
        assert(a + b =~= a);
    } else {
        assert((a + b).drop_last() =~= a + b.drop_last());
        assert((a + b).last() == b.last());
        lemma_run_from_append(stack, a, b.drop_last());
    }
}

/// After at least one token, a successful stack machine holds a value.
proof fn lemma_run_nonempty(tokens: Seq<Lexeme>, end: int)
    requires
        0 < end <= tokens.len(),
        run(tokens.take(end)) is Ok,
    ensures
        run(tokens.take(end))->Ok_0.len() > 0,
{
    assert(tokens.take(end).drop_last() =~= tokens.take(end - 1));
}

/// The top of the stack after `tokens[..end]` is the expression that descent
/// reads back from `end`, and below it lies the stack of what precedes.
pub proof fn lemma_run_descends(tokens: Seq<Lexeme>, end: int)
    requires
        0 < end <= tokens.len(),
        run(tokens.take(end)) is Ok,
    ensures
        ({
            let st = run(tokens.take(end))->Ok_0;
            descend(tokens, end) matches Ok((t, k)) && t == st.last() && 0 <= k < end && run(
                tokens.take(k),
            ) == Ok::<Seq<Term>, Failure>(st.drop_last())
        }),
    decreases end,
{
    lemma_run_nonempty(tokens, end);
    let pre = tokens.take(end - 1);
    assert(tokens.take(end).drop_last() =~= pre);
    assert(tokens.take(end).last() == tokens[end - 1]);
    assert(tokens.take(0) =~= seq![]);
    let st0 = run(pre)->Ok_0;
    let st = run(tokens.take(end))->Ok_0;
    assert(step(st0, tokens[end - 1]) == Ok::<Seq<Term>, Failure>(st));
    match tokens[end - 1] {
        Lexeme::Number(_) => {
            assert(st.drop_last() =~= st0);
        },
        Lexeme::Identifier(name) => match operator_of(name) {
            None => {},
            Some(Operator::Constant(_)) => {
                assert(st.drop_last() =~= st0);
            },
            Some(Operator::Unary(f)) => {
                lemma_run_descends(tokens, end - 1);
                assert(st.drop_last() =~= st0.drop_last());
            },
            Some(Operator::Binary(f)) => {
                let n = st0.len();
                lemma_run_descends(tokens, end - 1);
                let k = descend(tokens, end - 1)->Ok_0.1;
                if k > 0 {
                    lemma_run_descends(tokens, k);
                } else {
                    assert(st0.drop_last().len() > 0);
                }
                assert(st.drop_last() =~= st0.drop_last().drop_last());
                assert(st0.drop_last().last() == st0[n - 2]);
            },
        },
    }
}

/// The tokens that descent reads as one expression push exactly that
/// expression, whatever stack the machine starts on.
pub proof fn lemma_descend_runs(tokens: Seq<Lexeme>, end: int, stack: Seq<Term>)
    requires
        descend(tokens, end) is Ok,
    ensures
        ({
            let (t, k) = descend(tokens, end)->Ok_0;
            run_from(stack, tokens.subrange(k, end)) == Ok::<Seq<Term>, Failure>(stack.push(t))
        }),
    decreases end,
{
    lemma_descend_bounds(tokens, end);
    let (t, k) = descend(tokens, end)->Ok_0;
    let seg = tokens.subrange(k, end);
    assert(seg.last() == tokens[end - 1]);
    match tokens[end - 1] {
        Lexeme::Number(_) => {
            assert(seg.drop_last() =~= seq![]);
        },
        Lexeme::Identifier(name) => match operator_of(name) {
            None => {},
            Some(Operator::Constant(_)) => {
                assert(seg.drop_last() =~= seq![]);
            },
            Some(Operator::Unary(f)) => {
                lemma_descend_runs(tokens, end - 1, stack);
                let a = descend(tokens, end - 1)->Ok_0.0;
                assert(seg.drop_last() =~= tokens.subrange(k, end - 1));
                assert(stack.push(a).drop_last() =~= stack);
                assert(step(stack.push(a), seg.last()) == Ok::<Seq<Term>, Failure>(stack.push(t)));
            },
            Some(Operator::Binary(f)) => {
                lemma_descend_bounds(tokens, end - 1);
                let (b, m) = descend(tokens, end - 1)->Ok_0;
                let a = descend(tokens, m)->Ok_0.0;
                lemma_descend_bounds(tokens, m);
                lemma_descend_runs(tokens, m, stack);
                lemma_descend_runs(tokens, end - 1, stack.push(a));
                lemma_run_from_append(
                    stack,
                    tokens.subrange(k, m),
                    tokens.subrange(m, end - 1),
                );
                assert(tokens.subrange(k, m) + tokens.subrange(m, end - 1) =~= seg.drop_last());
                let s2 = stack.push(a).push(b);
                assert(run_from(stack, seg.drop_last()) == Ok::<Seq<Term>, Failure>(s2));
                assert(s2.take(s2.len() - 2) =~= stack);
                assert(s2[s2.len() - 2] == a);
                assert(step(s2, seg.last()) == Ok::<Seq<Term>, Failure>(stack.push(t)));
            },
        },
    }
}

/// The stack machine and recursive descent agree: where either of them
/// yields a value, both yield the same one.
pub proof fn lemma_engines_agree(tokens: Seq<Lexeme>)
    ensures
        evaluation(tokens) is Ok || descent_evaluation(tokens) is Ok ==> evaluation(tokens)
            == descent_evaluation(tokens),
{
    let n = tokens.len() as int;
    assert(tokens.take(n) =~= tokens);
    assert(tokens.subrange(0, n) =~= tokens);
    if evaluation(tokens) is Ok {
        lemma_run_descends(tokens, n);
        let k = descend(tokens, n)->Ok_0.1;
        if k > 0 {
            lemma_run_nonempty(tokens, k);
        }
    } else if descent_evaluation(tokens) is Ok {
        lemma_descend_runs(tokens, n, seq![]);
        let t = descend(tokens, n)->Ok_0.0;
        assert(Seq::<Term>::empty().push(t) =~= seq![t]);
    }
}

/// What a token does to the depth of the stack: a literal or a constant adds
/// one value, an operator of arity `n` takes `n` and gives one back.
pub open spec fn depth_change(t: Lexeme) -> int {
    match t {
        Lexeme::Number(_) => 1,
        Lexeme::Identifier(name) => match operator_of(name) {
            Some(op) => 1 - arity(op),
            None => 0,
        },
    }
}

pub open spec fn net_depth(tokens: Seq<Lexeme>) -> int
    decreases tokens.len(),
{
    if tokens.len() == 0 {
        0
    } else {
        net_depth(tokens.drop_last()) + depth_change(tokens.last())
    }
}

/// When the stack machine succeeds, its depth after every prefix is the sum
/// of what each token of that prefix does to it, and so never negative.
pub proof fn lemma_stack_depth(tokens: Seq<Lexeme>)
    ensures
        run(tokens) matches Ok(st) ==> st.len() == net_depth(tokens),
        run(tokens) is Ok ==> forall|i: int|
            0 <= i <= tokens.len() ==> #[trigger] net_depth(tokens.take(i)) >= 0,
{
    lemma_depth_is_net(tokens);
    if run(tokens) is Ok {
        assert forall|i: int| 0 <= i <= tokens.len() implies #[trigger] net_depth(tokens.take(i)) >= 0 by {
            if run(tokens.take(i)) is Err {
                lemma_failure_persists(tokens, i);
            }
            lemma_depth_is_net(tokens.take(i));
        }
    }
}

proof fn lemma_depth_is_net(tokens: Seq<Lexeme>)
    ensures
        run(tokens) matches Ok(st) ==> st.len() == net_depth(tokens),
    decreases tokens.len(),
{
    if tokens.len() > 0 {
        lemma_depth_is_net(tokens.drop_last());
    }
}

} // verus!
