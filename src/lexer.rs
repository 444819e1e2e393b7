//! The tokenizer: splits text on whitespace and tells numeric literals from
//! identifiers, without consulting the registry.
use vstd::prelude::*;
use vstd::std_specs::iter::IteratorSpec;
use vstd::string::*;

verus! {

/// Unicode `White_Space`, the separator between tokens.
pub open spec fn is_whitespace(c: char) -> bool {
    ||| '\u{9}' <= c <= '\u{d}'
    ||| c == ' '
    ||| c == '\u{85}'
    ||| c == '\u{a0}'
    ||| c == '\u{1680}'
    ||| '\u{2000}' <= c <= '\u{200a}'
    ||| c == '\u{2028}'
    ||| c == '\u{2029}'
    ||| c == '\u{202f}'
    ||| c == '\u{205f}'
    ||| c == '\u{3000}'
}

pub fn is_whitespace_char(c: char) -> (r: bool)
    ensures
        r == is_whitespace(c),
{
    ('\u{9}' <= c && c <= '\u{d}') || c == ' ' || c == '\u{85}' || c == '\u{a0}' || c
        == '\u{1680}' || ('\u{2000}' <= c && c <= '\u{200a}') || c == '\u{2028}' || c
        == '\u{2029}' || c == '\u{202f}' || c == '\u{205f}' || c == '\u{3000}'
}

/// The characters of `s` as a vector.
fn chars_of(s: &str) -> (r: Vec<char>)
    ensures
        r@ == s@,
{
    broadcast use vstd::string::group_string_axioms;

    let mut it = s.chars();
    let mut out: Vec<char> = Vec::new();
    loop
        invariant
            it.obeys_prophetic_iter_laws(),
            out@ + it.remaining() == s@,
            IteratorSpec::decrease(&it) is Some,
        ensures
            out@ == s@,
        decreases IteratorSpec::decrease(&it)->0,
    {
        match it.next() {
            Some(c) => {
                let ghost before = out@;
                out.push(c);
                assert(out@ + it.remaining() =~= before + seq![c] + it.remaining());
            },
            None => {
                assert(out@ + it.remaining() =~= out@);
                break ;
            },
        }
    }
    out
}

pub open spec fn is_digit(c: char) -> bool {
    '0' <= c <= '9'
}

pub open spec fn all_digits(s: Seq<char>) -> bool {
    forall|i: int| 0 <= i < s.len() ==> is_digit(#[trigger] s[i])
}

/// One or more decimal digits.
pub open spec fn is_digits(s: Seq<char>) -> bool {
    s.len() > 0 && all_digits(s)
}

pub open spec fn is_sign(c: char) -> bool {
    c == '+' || c == '-'
}

/// `s` without one leading sign, if it has one.
pub open spec fn unsigned_part(s: Seq<char>) -> Seq<char> {
    if s.len() > 0 && is_sign(s[0]) {
        s.skip(1)
    } else {
        s
    }
}

/// `Digit+ | Digit+ '.' Digit* | Digit* '.' Digit+`
pub open spec fn is_mantissa(m: Seq<char>) -> bool {
    ||| is_digits(m)
    ||| exists|p: int|
        0 <= p < m.len() && m[p] == '.' && m.len() >= 2 && all_digits(#[trigger] m.take(p))
            && all_digits(m.skip(p + 1))
}

pub open spec fn is_exponent_mark(c: char) -> bool {
    c == 'e' || c == 'E'
}

/// Empty, or `e` followed by an optionally signed run of digits.
pub open spec fn is_exponent(x: Seq<char>) -> bool {
    x.len() == 0 || (is_exponent_mark(x[0]) && is_digits(unsigned_part(x.skip(1))))
}

/// `c` is the lower-case ASCII letter `lower` in either case.
pub open spec fn same_letter(c: char, lower: char) -> bool {
    c == lower || (lower as u32 >= 32 && c as u32 == (lower as u32) - 32)
}

pub open spec fn matches_ignoring_case(s: Seq<char>, word: Seq<char>) -> bool {
    s.len() == word.len() && forall|i: int| 0 <= i < s.len() ==> same_letter(#[trigger] s[i], word[i])
}

/// `inf`, `infinity` or `nan`, in any mix of cases.
pub open spec fn is_special_value(s: Seq<char>) -> bool {
    ||| matches_ignoring_case(s, seq!['i', 'n', 'f'])
    ||| matches_ignoring_case(s, seq!['i', 'n', 'f', 'i', 'n', 'i', 't', 'y'])
    ||| matches_ignoring_case(s, seq!['n', 'a', 'n'])
}

/// The text that the platform's 64-bit float parser accepts:
/// `Sign? ('inf' | 'infinity' | 'nan' | Mantissa Exponent?)`.
pub open spec fn is_float_literal(s: Seq<char>) -> bool {
    let b = unsigned_part(s);
    ||| is_special_value(b)
    ||| exists|k: int| 0 <= k <= b.len() && is_mantissa(#[trigger] b.take(k)) && is_exponent(b.skip(k))
}

fn digits_between(cs: &Vec<char>, lo: usize, hi: usize) -> (r: bool)
    requires
        lo <= hi <= cs@.len(),
    ensures
        r == all_digits(cs@.subrange(lo as int, hi as int)),
{
    let mut i = lo;
    while i < hi
        invariant
            lo <= i <= hi <= cs@.len(),
            all_digits(cs@.subrange(lo as int, i as int)),
        decreases hi - i,
    {
        if !('0' <= cs[i] && cs[i] <= '9') {
            assert(cs@.subrange(lo as int, hi as int)[i - lo] == cs@[i as int]);
            return false;
        }
        i = i + 1;
        assert forall|j: int| 0 <= j < i - lo implies is_digit(
            #[trigger] cs@.subrange(lo as int, i as int)[j],
        ) by {
            if j < i - 1 - lo {
                assert(cs@.subrange(lo as int, i - 1 as int)[j] == cs@[lo + j]);
            }
        }
    }
    true
}

/// Whether `cs[lo..hi]` is a mantissa.
fn mantissa_between(cs: &Vec<char>, lo: usize, hi: usize) -> (r: bool)
    requires
        lo <= hi <= cs@.len(),
    ensures
        r == is_mantissa(cs@.subrange(lo as int, hi as int)),
{
    let ghost m = cs@.subrange(lo as int, hi as int);
    let mut p = lo;
    while p < hi && cs[p] != '.'
        invariant
            lo <= p <= hi <= cs@.len(),
            forall|j: int| lo <= j < p ==> cs@[j] != '.',
        decreases hi - p,
    {
        p = p + 1;
    }
    if p == hi {
        let r = lo < hi && digits_between(cs, lo, hi);
        proof {
            if exists|q: int|
                0 <= q < m.len() && m[q] == '.' && m.len() >= 2 && all_digits(#[trigger] m.take(q))
                    && all_digits(m.skip(q + 1)) {
                let q = choose|q: int|
                    0 <= q < m.len() && m[q] == '.' && m.len() >= 2 && all_digits(
                        #[trigger] m.take(q),
                    ) && all_digits(m.skip(q + 1));
                assert(cs@[lo + q] == m[q]);
            }
        }
        r
    } else {
        let r = hi - lo >= 2 && digits_between(cs, lo, p) && digits_between(cs, p + 1, hi);
        proof {
            let q = p - lo;
            assert(m.take(q) =~= cs@.subrange(lo as int, p as int));
            assert(m.skip(q + 1) =~= cs@.subrange(p + 1, hi as int));
            assert(m[q] == '.');
            assert(!all_digits(m)) by {
                assert(!is_digit(m[q]));
            }
            if r {
                assert(is_mantissa(m));
            } else if is_mantissa(m) {
                let q2 = choose|q2: int|
                    0 <= q2 < m.len() && m[q2] == '.' && m.len() >= 2 && all_digits(
                        #[trigger] m.take(q2),
                    ) && all_digits(m.skip(q2 + 1));
                if q2 > q {
                    assert(!is_digit(m.take(q2)[q]));
                } else if q2 < q {
                    assert(cs@[lo + q2] == m[q2]);
                }
            }
        }
        r
    }
}

/// Whether `cs[lo..hi]` is an exponent.
fn exponent_between(cs: &Vec<char>, lo: usize, hi: usize) -> (r: bool)
    requires
        lo <= hi <= cs@.len(),
    ensures
        r == is_exponent(cs@.subrange(lo as int, hi as int)),
{
    let ghost x = cs@.subrange(lo as int, hi as int);
    if lo == hi {
        return true;
    }
    if !(cs[lo] == 'e' || cs[lo] == 'E') {
        assert(x[0] == cs@[lo as int]);
        return false;
    }
    let mut a = lo + 1;
    if a < hi && (cs[a] == '+' || cs[a] == '-') {
        a = a + 1;
    }
    let r = a < hi && digits_between(cs, a, hi);
    proof {
        assert(x[0] == cs@[lo as int]);
        assert(x.skip(1) =~= cs@.subrange(lo + 1, hi as int));
        assert(unsigned_part(x.skip(1)) =~= cs@.subrange(a as int, hi as int));
    }
    r
}

/// Whether `cs[lo..hi]` is `word` (lower-case ASCII letters) in any mix of cases.
fn matches_word_between(cs: &Vec<char>, lo: usize, hi: usize, word: &Vec<char>) -> (r: bool)
    requires
        lo <= hi <= cs@.len(),
    ensures
        r == matches_ignoring_case(cs@.subrange(lo as int, hi as int), word@),
{
    let ghost s = cs@.subrange(lo as int, hi as int);
    if hi - lo != word.len() {
        return false;
    }
    let mut i: usize = 0;
    while i < word.len()
        invariant
            lo <= hi <= cs@.len(),
            hi - lo == word@.len(),
            s == cs@.subrange(lo as int, hi as int),
            i <= word@.len(),
            forall|j: int| 0 <= j < i ==> same_letter(#[trigger] s[j], word@[j]),
        decreases word@.len() - i,
    {
        let c = cs[lo + i];
        let w = word[i];
        let wl = w as u32;
        assert(s[i as int] == c);
        if !(c == w || (wl >= 32 && c as u32 == wl - 32)) {
            return false;
        }
        i = i + 1;
    }
    true
}

/// Whether `cs[lo..hi]` is a literal that the float parser accepts.
fn float_literal_between(cs: &Vec<char>, lo: usize, hi: usize) -> (r: bool)
    requires
        lo <= hi <= cs@.len(),
    ensures
        r == is_float_literal(cs@.subrange(lo as int, hi as int)),
{
    let ghost s = cs@.subrange(lo as int, hi as int);
    let mut b = lo;
    if b < hi && (cs[b] == '+' || cs[b] == '-') {
        b = b + 1;
    }
    let ghost u = cs@.subrange(b as int, hi as int);
    assert(unsigned_part(s) =~= u);
    if matches_word_between(cs, b, hi, &vec!['i', 'n', 'f']) || matches_word_between(
        cs,
        b,
        hi,
        &vec!['i', 'n', 'f', 'i', 'n', 'i', 't', 'y'],
    ) || matches_word_between(cs, b, hi, &vec!['n', 'a', 'n']) {
        return true;
    }
    let mut k = b;
    while k < hi && !(cs[k] == 'e' || cs[k] == 'E')
        invariant
            b <= k <= hi <= cs@.len(),
            forall|j: int| b <= j < k ==> !is_exponent_mark(#[trigger] cs@[j]),
        decreases hi - k,
    {
        k = k + 1;
    }
    let r = mantissa_between(cs, b, k) && exponent_between(cs, k, hi);
    proof {
        let q = k - b;
        assert(u.take(q) =~= cs@.subrange(b as int, k as int));
        assert(u.skip(q) =~= cs@.subrange(k as int, hi as int));
        assert forall|j: int| 0 <= j < q implies !is_exponent_mark(u[j]) by {
            assert(u[j] == cs@[b + j]);
        }
        if q < u.len() {
            assert(u[q] == cs@[k as int]);
        }
        lemma_mantissa_ends_at_mark(u, q);
    }
    r
}

/// A mantissa holds no exponent mark, so the only split of `u` into a
/// mantissa and an exponent is at its first mark `q`.
proof fn lemma_mantissa_ends_at_mark(u: Seq<char>, q: int)
    requires
        0 <= q <= u.len(),
        forall|j: int| 0 <= j < q ==> !is_exponent_mark(u[j]),
        q < u.len() ==> is_exponent_mark(u[q]),
    ensures
        (exists|k: int| 0 <= k <= u.len() && is_mantissa(#[trigger] u.take(k)) && is_exponent(u.skip(k)))
            <==> (is_mantissa(u.take(q)) && is_exponent(u.skip(q))),
{
    if exists|k: int|
        0 <= k <= u.len() && is_mantissa(#[trigger] u.take(k)) && is_exponent(u.skip(k)) {
        let k = choose|k: int|
            0 <= k <= u.len() && is_mantissa(#[trigger] u.take(k)) && is_exponent(u.skip(k));
        if k < q {
            assert(u.skip(k)[0] == u[k]);
        } else if k > q {
            let m = u.take(k);
            assert(m[q] == u[q]);
            assert(!is_digit(m[q]));
            if exists|p: int|
                0 <= p < m.len() && m[p] == '.' && m.len() >= 2 && all_digits(#[trigger] m.take(p))
                    && all_digits(m.skip(p + 1)) {
                let p = choose|p: int|
                    0 <= p < m.len() && m[p] == '.' && m.len() >= 2 && all_digits(
                        #[trigger] m.take(p),
                    ) && all_digits(m.skip(p + 1));
                if q < p {
                    assert(m.take(p)[q] == m[q]);
                } else {
                    assert(m.skip(p + 1)[q - p - 1] == m[q]);
                }
            }
        }
    }
}

/// The words of `s` as a scan from the left leaves them: the words already
/// closed by whitespace, and the word still being read.
pub open spec fn scan_words(s: Seq<char>) -> (Seq<Seq<char>>, Seq<char>)
    decreases s.len(),
{
    if s.len() == 0 {
        (seq![], seq![])
    } else {
        let (done, current) = scan_words(s.drop_last());
        if is_whitespace(s.last()) {
            if current.len() > 0 {
                (done.push(current), seq![])
            } else {
                (done, seq![])
            }
        } else {
            (done, current.push(s.last()))
        }
    }
}

/// The maximal runs of non-whitespace characters of `s`, in order.
pub open spec fn words(s: Seq<char>) -> Seq<Seq<char>> {
    let (done, current) = scan_words(s);
    if current.len() > 0 {
        done.push(current)
    } else {
        done
    }
}

pub open spec fn has_no_whitespace(s: Seq<char>) -> bool {
    forall|i: int| 0 <= i < s.len() ==> !is_whitespace(#[trigger] s[i])
}

pub open spec fn is_all_whitespace(s: Seq<char>) -> bool {
    forall|i: int| 0 <= i < s.len() ==> is_whitespace(#[trigger] s[i])
}

/// Text made of whitespace alone closes no word and leaves none open.
pub proof fn lemma_scan_whitespace(s: Seq<char>)
    requires
        is_all_whitespace(s),
    ensures
        scan_words(s) == (Seq::<Seq<char>>::empty(), Seq::<char>::empty()),
    decreases s.len(),
{
    if s.len() > 0 {
        assert(s.last() == s[s.len() - 1]);
        lemma_scan_whitespace(s.drop_last());
    }
}

/// Reading a run `y` without whitespace after a point where no word is
/// open leaves `y` as the open word.
pub proof fn lemma_scan_run(p: Seq<char>, y: Seq<char>)
    requires
        scan_words(p).1.len() == 0,
        has_no_whitespace(y),
    ensures
        scan_words(p + y) == (scan_words(p).0, y),
    decreases y.len(),
{
    if y.len() == 0 {
        assert(p + y =~= p);
    } else {
        assert((p + y).drop_last() =~= p + y.drop_last());
        assert((p + y).last() == y[y.len() - 1]);
        lemma_scan_run(p, y.drop_last());
        assert(y.drop_last().push(y.last()) =~= y);
    }
}

/// A nonempty run without whitespace is one word.
pub proof fn lemma_single_word(y: Seq<char>)
    requires
        y.len() > 0,
        has_no_whitespace(y),
    ensures
        words(y) == seq![y],
{
    lemma_scan_run(seq![], y);
    assert(Seq::<char>::empty() + y =~= y);
}

/// Whitespace after a nonempty run closes it as a word.
pub proof fn lemma_scan_separator(p: Seq<char>, c: char)
    requires
        scan_words(p).1.len() > 0,
        is_whitespace(c),
    ensures
        scan_words(p.push(c)) == (scan_words(p).0.push(scan_words(p).1), Seq::<char>::empty()),
{
    assert(p.push(c).drop_last() =~= p);
}

/// A float literal holds no whitespace.
pub proof fn lemma_float_literal_has_no_whitespace(s: Seq<char>)
    requires
        is_float_literal(s),
    ensures
        has_no_whitespace(s),
{
    let b = unsigned_part(s);
    let off: int = if s.len() > 0 && is_sign(s[0]) { 1 } else { 0 };
    assert forall|i: int| 0 <= i < s.len() implies !is_whitespace(#[trigger] s[i]) by {
        if i < off {
        } else {
            let c = s[i];
            let j = i - off;
            assert(b[j] == c);
            if is_special_value(b) {
                if matches_ignoring_case(b, seq!['i', 'n', 'f']) {
                    assert(same_letter(b[j], seq!['i', 'n', 'f'][j]));
                } else if matches_ignoring_case(b, seq!['n', 'a', 'n']) {
                    assert(same_letter(b[j], seq!['n', 'a', 'n'][j]));
                } else {
                    assert(same_letter(b[j], seq!['i', 'n', 'f', 'i', 'n', 'i', 't', 'y'][j]));
                }
            } else {
                let k = choose|k: int|
                    0 <= k <= b.len() && is_mantissa(#[trigger] b.take(k)) && is_exponent(
                        b.skip(k),
                    );
                if j < k {
                    let m = b.take(k);
                    assert(m[j] == c);
                    if !is_digits(m) {
                        let p = choose|p: int|
                            0 <= p < m.len() && m[p] == '.' && m.len() >= 2 && all_digits(
                                #[trigger] m.take(p),
                            ) && all_digits(m.skip(p + 1));
                        if j < p {
                            assert(m.take(p)[j] == c);
                        } else if j > p {
                            assert(m.skip(p + 1)[j - p - 1] == c);
                        }
                    }
                } else {
                    let x = b.skip(k);
                    assert(x[j - k] == c);
                    if j > k {
                        let u = unsigned_part(x.skip(1));
                        if x.skip(1).len() > 0 && is_sign(x.skip(1)[0]) {
                            if j > k + 1 {
                                assert(u[j - k - 2] == c);
                            }
                        } else {
                            assert(u[j - k - 1] == c);
                        }
                    }
                }
            }
        }
    }
}

/// A token as text: a numeric literal or any other word.
#[derive(Debug, PartialEq)]
pub enum Token {
    Number(String),
    Identifier(String),
}

/// What a token stands for, in specifications.
pub enum Lexeme {
    Number(Seq<char>),
    Identifier(Seq<char>),
}

impl View for Token {
    type V = Lexeme;

    open spec fn view(&self) -> Lexeme {
        match self {
            Token::Number(s) => Lexeme::Number(s@),
            Token::Identifier(s) => Lexeme::Identifier(s@),
        }
    }
}

/// The token that a word becomes.
pub open spec fn lexeme_of(word: Seq<char>) -> Lexeme {
    if is_float_literal(word) {
        Lexeme::Number(word)
    } else {
        Lexeme::Identifier(word)
    }
}

/// The tokens of a text: one per word, in order.
pub open spec fn lexemes(s: Seq<char>) -> Seq<Lexeme> {
    words(s).map_values(|w: Seq<char>| lexeme_of(w))
}

pub open spec fn views(tokens: Seq<Token>) -> Seq<Lexeme> {
    tokens.map_values(|t: Token| t@)
}

/// Splits `expr` on whitespace into tokens. A word is a `Number` when the
/// float parser accepts it, and an `Identifier` otherwise; this never fails.
pub fn parse(expr: &str) -> (r: Vec<Token>)
    ensures
        views(r@) == lexemes(expr@),
{
    let cs = chars_of(expr);
    let n = cs.len();
    let mut out: Vec<Token> = Vec::new();
    let mut start: usize = 0;
    let mut i: usize = 0;
    while i < n
        invariant
            n == cs@.len() == expr@.len(),
            cs@ == expr@,
            start <= i <= n,
            scan_words(cs@.take(i as int)) == (
                words(cs@.take(start as int)),
                cs@.subrange(start as int, i as int),
            ),
            views(out@) == words(cs@.take(start as int)).map_values(
                |w: Seq<char>| lexeme_of(w),
            ),
        decreases n - i,
    {
        let c = cs[i];
        let ghost prefix = cs@.take(i as int);
        assert(cs@.take(i + 1).drop_last() =~= prefix);
        assert(cs@.take(i + 1).last() == c);
        if is_whitespace_char(c) {
            if start < i {
                let word = expr.substring_char(start, i).to_owned();
                let ghost w = cs@.subrange(start as int, i as int);
                let t = if float_literal_between(&cs, start, i) {
                    Token::Number(word)
                } else {
                    Token::Identifier(word)
                };
                assert(t@ == lexeme_of(w));
                let ghost before = out@;
                out.push(t);
                proof {
                    assert(views(out@) =~= views(before).push(t@));
                    assert(words(prefix) == words(cs@.take(start as int)).push(w));
                    assert(views(out@) =~= words(prefix).map_values(|w: Seq<char>| lexeme_of(w)));
                    assert(scan_words(prefix).1 =~= cs@.subrange(start as int, i as int));
                }
            }
            proof {
                assert(words(cs@.take(i + 1)) =~= words(prefix));
                assert(cs@.subrange(i + 1, i + 1) =~= seq![]);
            }
            start = i + 1;
        } else {
            assert(cs@.subrange(start as int, i + 1) =~= cs@.subrange(start as int, i as int).push(c));
        }
        i = i + 1;
    }
    if start < n {
        let word = expr.substring_char(start, n).to_owned();
        let t = if float_literal_between(&cs, start, n) {
            Token::Number(word)
        } else {
            Token::Identifier(word)
        };
        let ghost w = cs@.subrange(start as int, n as int);
        assert(t@ == lexeme_of(w));
        let ghost before = out@;
        out.push(t);
        assert(views(out@) =~= views(before).push(t@));
    }
    proof {
        assert(cs@.take(n as int) =~= expr@);
        assert(views(out@) =~= lexemes(expr@));
    }
    out
}

} // verus!
