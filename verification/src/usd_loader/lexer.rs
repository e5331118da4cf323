//! Tokenizer for the USDA text format.

use vstd::prelude::*;
use crate::text::{chars_of, string_from_chars, subvec};

verus! {

/// A USDA token. Numbers keep their literal text; a lexeme that looks
/// numeric but is not a valid floating-point literal becomes a word.
#[derive(Debug, Clone)]
pub enum Token<S> {
    Word(S),
    Str(S),
    LBrace,
    RBrace,
    LBracket,
    RBracket,
    LParen,
    RParen,
    Comma,
    Eq,
    Num(S),
}

/// The token type produced by `tokenize`.
pub type Tok = Token<String>;

impl View for Token<String> {
    type V = Token<Seq<char>>;

    open spec fn view(&self) -> Token<Seq<char>> {
        match self {
            Token::Word(s) => Token::Word(s@),
            Token::Str(s) => Token::Str(s@),
            Token::LBrace => Token::LBrace,
            Token::RBrace => Token::RBrace,
            Token::LBracket => Token::LBracket,
            Token::RBracket => Token::RBracket,
            Token::LParen => Token::LParen,
            Token::RParen => Token::RParen,
            Token::Comma => Token::Comma,
            Token::Eq => Token::Eq,
            Token::Num(s) => Token::Num(s@),
        }
    }
}

/// The views of a token vector.
pub open spec fn toks_view(toks: Seq<Tok>) -> Seq<Token<Seq<char>>> {
    toks.map_values(|t: Tok| t@)
}

// ── Character classes ───────────────────────────────────────────────────────

/// Characters with the Unicode `White_Space` property (what std's
/// `char::is_whitespace` tests).
pub open spec fn is_white_space(c: char) -> bool {
    ||| ('\u{9}' <= c && c <= '\u{d}')
    ||| c == ' '
    ||| c == '\u{85}'
    ||| c == '\u{a0}'
    ||| c == '\u{1680}'
    ||| ('\u{2000}' <= c && c <= '\u{200a}')
    ||| c == '\u{2028}'
    ||| c == '\u{2029}'
    ||| c == '\u{202f}'
    ||| c == '\u{205f}'
    ||| c == '\u{3000}'
}

/// Whether `c` has the Unicode `White_Space` property.
pub fn white_space(c: char) -> (b: bool)
    ensures
        b == is_white_space(c),
{
    ('\u{9}' <= c && c <= '\u{d}') || c == ' ' || c == '\u{85}' || c == '\u{a0}' || c == '\u{1680}'
        || ('\u{2000}' <= c && c <= '\u{200a}') || c == '\u{2028}' || c == '\u{2029}' || c
        == '\u{202f}' || c == '\u{205f}' || c == '\u{3000}'
}

/// ASCII decimal digit.
pub open spec fn is_digit(c: char) -> bool {
    '0' <= c && c <= '9'
}

/// Characters that end a bare word.
pub open spec fn is_delimiter(c: char) -> bool {
    c == '{' || c == '}' || c == '[' || c == ']' || c == '(' || c == ')' || c == ',' || c == '='
        || c == '"' || c == '#'
}

/// The token for a single punctuation character, if it is one.
pub open spec fn punct(c: char) -> Option<Token<Seq<char>>> {
    if c == '{' {
        Some(Token::LBrace)
    } else if c == '}' {
        Some(Token::RBrace)
    } else if c == '[' {
        Some(Token::LBracket)
    } else if c == ']' {
        Some(Token::RBracket)
    } else if c == '(' {
        Some(Token::LParen)
    } else if c == ')' {
        Some(Token::RParen)
    } else if c == ',' {
        Some(Token::Comma)
    } else if c == '=' {
        Some(Token::Eq)
    } else {
        None
    }
}

// ── Floating-point literal grammar ──────────────────────────────────────────
//
// std documents the strings that `f64::from_str` accepts:
//   Float  ::= Sign? ( 'inf' | 'infinity' | 'nan' | Number )
//   Number ::= ( Digit+ | Digit+ '.' Digit* | Digit* '.' Digit+ ) Exp?
//   Exp    ::= 'e' Sign? Digit+
// letters compared without regard to ASCII case.

pub open spec fn is_sign(c: char) -> bool {
    c == '+' || c == '-'
}

pub open spec fn is_exp_mark(c: char) -> bool {
    c == 'e' || c == 'E'
}

/// `s` spells the letters of `lower` (given also in `upper`) in either case.
pub open spec fn spells_either_case(s: Seq<char>, lower: Seq<char>, upper: Seq<char>) -> bool {
    s.len() == lower.len() && forall|i: int|
        0 <= i < s.len() ==> #[trigger] s[i] == lower[i] || s[i] == upper[i]
}

/// Index of the first exponent mark at or after `i`, or the length.
pub open spec fn first_exp_mark(s: Seq<char>, i: int) -> int
    decreases s.len() - i,
{
    if i < 0 || i >= s.len() {
        s.len() as int
    } else if is_exp_mark(s[i]) {
        i
    } else {
        first_exp_mark(s, i + 1)
    }
}

/// `Digit+ | Digit+ '.' Digit* | Digit* '.' Digit+` spans `s[lo..hi]`:
/// digits with at most one point and at least one digit.
pub open spec fn is_mantissa(s: Seq<char>, lo: int, hi: int) -> bool {
    &&& forall|k: int| lo <= k < hi ==> is_digit(#[trigger] s[k]) || s[k] == '.'
    &&& forall|k1: int, k2: int|
        lo <= k1 < k2 < hi && #[trigger] s[k1] == '.' ==> #[trigger] s[k2] != '.'
    &&& exists|k: int| lo <= k < hi && is_digit(#[trigger] s[k])
}

/// Where the digits of an exponent starting at `e` begin.
pub open spec fn exponent_digits_start(s: Seq<char>, e: int) -> int {
    if e + 1 < s.len() && is_sign(s[e + 1]) {
        e + 2
    } else {
        e + 1
    }
}

/// `Exp?` spans `s[e..]`: nothing, or an exponent mark, an optional sign and
/// at least one digit.
pub open spec fn is_exponent(s: Seq<char>, e: int) -> bool {
    e == s.len() || (0 <= e < s.len() && is_exp_mark(s[e]) && {
        let d = exponent_digits_start(s, e);
        d < s.len() && forall|k: int| d <= k < s.len() ==> is_digit(#[trigger] s[k])
    })
}

/// Where the body of a literal starts, after an optional sign.
pub open spec fn body_start(s: Seq<char>) -> int {
    if s.len() > 0 && is_sign(s[0]) {
        1
    } else {
        0
    }
}

/// The strings that std's `f64::from_str` accepts.
pub open spec fn is_float_literal(s: Seq<char>) -> bool {
    let lo = body_start(s);
    let b = s.subrange(lo, s.len() as int);
    let e = first_exp_mark(s, lo);
    ||| spells_either_case(b, seq!['i', 'n', 'f'], seq!['I', 'N', 'F'])
    ||| spells_either_case(
        b,
        seq!['i', 'n', 'f', 'i', 'n', 'i', 't', 'y'],
        seq!['I', 'N', 'F', 'I', 'N', 'I', 'T', 'Y'],
    )
    ||| spells_either_case(b, seq!['n', 'a', 'n'], seq!['N', 'A', 'N'])
    ||| is_mantissa(s, lo, e) && is_exponent(s, e)
}

// ── Lexing, as a function of the remaining input ────────────────────────────

/// Index just past the first newline at or after `i` (the end if none).
pub open spec fn comment_end(s: Seq<char>, i: int) -> int
    decreases s.len() - i,
{
    if i >= s.len() {
        s.len() as int
    } else if s[i] == '\n' {
        i + 1
    } else {
        comment_end(s, i + 1)
    }
}

/// Index of the first `"` at or after `i` (the end if none).
pub open spec fn quote_end(s: Seq<char>, i: int) -> int
    decreases s.len() - i,
{
    if i >= s.len() {
        s.len() as int
    } else if s[i] == '"' {
        i
    } else {
        quote_end(s, i + 1)
    }
}

/// Whether a numeric lexeme continues with `c`; `seen_e` tells whether the
/// text so far holds a lower-case `e`.
pub open spec fn number_continues(c: char, seen_e: bool) -> bool {
    is_digit(c) || c == '.' || c == 'e' || c == 'E' || c == '+' || (c == '-' && seen_e)
}

/// End of a numeric lexeme whose text so far ends just before `i`.
pub open spec fn number_end(s: Seq<char>, i: int, seen_e: bool) -> int
    decreases s.len() - i,
{
    if i >= s.len() {
        s.len() as int
    } else if number_continues(s[i], seen_e) {
        number_end(s, i + 1, seen_e || s[i] == 'e')
    } else {
        i
    }
}

/// End of a bare word starting at `i`.
pub open spec fn word_end(s: Seq<char>, i: int) -> int
    decreases s.len() - i,
{
    if i >= s.len() {
        s.len() as int
    } else if is_white_space(s[i]) || is_delimiter(s[i]) {
        i
    } else {
        word_end(s, i + 1)
    }
}

/// Number token if the text is a floating-point literal, word otherwise.
pub open spec fn numeric_token(t: Seq<char>) -> Token<Seq<char>> {
    if is_float_literal(t) {
        Token::Num(t)
    } else {
        Token::Word(t)
    }
}

/// Whether a `-` at `i` starts a number: it is followed by a digit or `.`.
pub open spec fn minus_starts_number(s: Seq<char>, i: int) -> bool {
    i + 1 < s.len() && (is_digit(s[i + 1]) || s[i + 1] == '.')
}

pub proof fn lemma_comment_end_bounds(s: Seq<char>, i: int)
    requires
        0 <= i <= s.len(),
    ensures
        i <= comment_end(s, i) <= s.len(),
    decreases s.len() - i,
{
    if i < s.len() && s[i] != '\n' {
        lemma_comment_end_bounds(s, i + 1);
    }
}

pub proof fn lemma_quote_end_bounds(s: Seq<char>, i: int)
    requires
        0 <= i <= s.len(),
    ensures
        i <= quote_end(s, i) <= s.len(),
        quote_end(s, i) < s.len() ==> s[quote_end(s, i)] == '"',
        forall|k: int| i <= k < quote_end(s, i) ==> s[k] != '"',
    decreases s.len() - i,
{
    if i < s.len() && s[i] != '"' {
        lemma_quote_end_bounds(s, i + 1);
    }
}

pub proof fn lemma_number_end_bounds(s: Seq<char>, i: int, seen_e: bool)
    requires
        0 <= i <= s.len(),
    ensures
        i <= number_end(s, i, seen_e) <= s.len(),
    decreases s.len() - i,
{
    if i < s.len() && number_continues(s[i], seen_e) {
        lemma_number_end_bounds(s, i + 1, seen_e || s[i] == 'e');
    }
}

pub proof fn lemma_word_end_bounds(s: Seq<char>, i: int)
    requires
        0 <= i <= s.len(),
    ensures
        i <= word_end(s, i) <= s.len(),
        i < s.len() && !is_white_space(s[i]) && !is_delimiter(s[i]) ==> i < word_end(s, i),
    decreases s.len() - i,
{
    if i < s.len() && !is_white_space(s[i]) && !is_delimiter(s[i]) {
        lemma_word_end_bounds(s, i + 1);
    }
}

/// The tokens of `s` from index `i` on.
pub open spec fn lex_from(s: Seq<char>, i: int) -> Seq<Token<Seq<char>>>
    decreases s.len() - i,
{
    if i < 0 || i >= s.len() {
        seq![]
    } else {
        let c = s[i];
        proof {
            lemma_comment_end_bounds(s, i + 1);
            lemma_quote_end_bounds(s, i + 1);
            lemma_number_end_bounds(s, i + 1, false);
            lemma_word_end_bounds(s, i);
        }
        if c == '#' {
            lex_from(s, comment_end(s, i + 1))
        } else if is_white_space(c) {
            lex_from(s, i + 1)
        } else if punct(c) is Some {
            seq![punct(c)->0] + lex_from(s, i + 1)
        } else if c == '"' {
            let j = quote_end(s, i + 1);
            let next = if j < s.len() {
                j + 1
            } else {
                j
            };
            seq![Token::Str(s.subrange(i + 1, j))] + lex_from(s, next)
        } else if is_digit(c) || c == '-' {
            if c == '-' && !minus_starts_number(s, i) {
                seq![Token::Word(seq!['-'])] + lex_from(s, i + 1)
            } else {
                let j = number_end(s, i + 1, false);
                seq![numeric_token(s.subrange(i, j))] + lex_from(s, j)
            }
        } else {
            let j = word_end(s, i);
            seq![Token::Word(s.subrange(i, j))] + lex_from(s, j)
        }
    }
}


/// The character at `m` extends the numeric lexeme that starts at `i`: a
/// digit, `.`, `e`, `E`, `+`, or a `-` once the lexeme so far holds an `e`
/// (a signed exponent, as in `1e-5`).
pub open spec fn extends_number(s: Seq<char>, i: int, m: int) -> bool {
    let c = s[m];
    is_digit(c) || c == '.' || c == 'e' || c == 'E' || c == '+' || (c == '-' && s.subrange(i, m).contains('e'))
}

/// A numeric lexeme starts at `i`: a digit, or a `-` followed by a digit or `.`.
pub open spec fn starts_number(s: Seq<char>, i: int) -> bool {
    0 <= i < s.len() && (is_digit(s[i]) || (s[i] == '-' && minus_starts_number(s, i)))
}

proof fn lemma_contains_extend(s: Seq<char>, i: int, k: int)
    requires
        0 <= i <= k < s.len(),
    ensures
        s.subrange(i, k + 1).contains('e') == (s.subrange(i, k).contains('e') || s[k] == 'e'),
{
    let a = s.subrange(i, k);
    let b = s.subrange(i, k + 1);
    if a.contains('e') {
        let w = choose|w: int| 0 <= w < a.len() && #[trigger] a[w] == 'e';
        assert(b[w] == 'e');
    }
    if s[k] == 'e' {
        assert(b[k - i] == 'e');
    }
    if b.contains('e') {
        let w = choose|w: int| 0 <= w < b.len() && #[trigger] b[w] == 'e';
        if w < k - i {
            assert(a[w] == 'e');
        }
    }
}

proof fn lemma_number_run(s: Seq<char>, i: int, k: int, seen_e: bool)
    requires
        0 <= i < k <= s.len(),
        seen_e == s.subrange(i, k).contains('e'),
        forall|m: int| i < m < k ==> extends_number(s, i, m),
    ensures
        k <= number_end(s, k, seen_e) <= s.len(),
        forall|m: int| i < m < number_end(s, k, seen_e) ==> extends_number(s, i, m),
        number_end(s, k, seen_e) < s.len() ==> !extends_number(s, i, number_end(s, k, seen_e)),
    decreases s.len() - k,
{
    if k < s.len() {
        assert(number_continues(s[k], seen_e) == extends_number(s, i, k));
        if number_continues(s[k], seen_e) {
            lemma_contains_extend(s, i, k);
            lemma_number_run(s, i, k + 1, seen_e || s[k] == 'e');
        }
    }
}

/// A numeric lexeme runs as far as it can: from its start, the lexer takes
/// every following digit, `.`, `e`, `E`, `+`, and `-` once an `e` has been
/// seen, stops at the first other character, and makes the whole text one
/// token (a number when it is a float literal). So `1e-5` is one lexeme.
pub proof fn lemma_numeric_lexeme_is_maximal(s: Seq<char>, i: int)
    requires
        starts_number(s, i),
    ensures
        exists|j: int|
            i < j <= s.len() && lex_from(s, i) == seq![numeric_token(s.subrange(i, j))] + lex_from(s, j)
                && (forall|m: int| i < m < j ==> extends_number(s, i, m)) && (j < s.len()
                ==> !extends_number(s, i, j)),
{
    assert(s.subrange(i, i + 1) =~= seq![s[i]]);
    assert(!s.subrange(i, i + 1).contains('e')) by {
        assert(s.subrange(i, i + 1)[0] == s[i]);
    }
    lemma_number_run(s, i, i + 1, false);
    let j = number_end(s, i + 1, false);
    assert(lex_from(s, i) == seq![numeric_token(s.subrange(i, j))] + lex_from(s, j));
}

} // verus!

verus! {

// ── Executable recognizers ───────────────────────────────────────────────────

fn spells_at(t: &Vec<char>, lo: usize, lower: &Vec<char>, upper: &Vec<char>) -> (b: bool)
    requires
        lo <= t.len(),
        lower.len() == upper.len(),
    ensures
        b == spells_either_case(t@.subrange(lo as int, t.len() as int), lower@, upper@),
{
    if t.len() - lo != lower.len() {
        return false;
    }
    let mut k: usize = 0;
    while k < lower.len()
        invariant
            k <= lower.len(),
            lower.len() == upper.len(),
            lo <= t.len(),
            t.len() - lo == lower.len(),
            forall|i: int| 0 <= i < k ==> t@[lo + i] == lower@[i] || t@[lo + i] == upper@[i],
        decreases lower.len() - k,
    {
        if !(t[lo + k] == lower[k] || t[lo + k] == upper[k]) {
            assert(t@.subrange(lo as int, t.len() as int)[k as int] == t@[lo + k]);
            return false;
        }
        k = k + 1;
    }
    let ghost b = t@.subrange(lo as int, t.len() as int);
    assert forall|i: int| 0 <= i < b.len() implies #[trigger] b[i] == lower@[i] || b[i] == upper@[i] by {
        assert(b[i] == t@[lo + i]);
    }
    true
}

fn find_exp_mark(t: &Vec<char>, lo: usize) -> (e: usize)
    requires
        lo <= t.len(),
    ensures
        e == first_exp_mark(t@, lo as int),
        lo <= e <= t.len(),
{
    let mut j = lo;
    while j < t.len() && !(t[j] == 'e' || t[j] == 'E')
        invariant
            lo <= j <= t.len(),
            first_exp_mark(t@, j as int) == first_exp_mark(t@, lo as int),
        decreases t.len() - j,
    {
        j = j + 1;
    }
    j
}

fn mantissa_ok(t: &Vec<char>, lo: usize, hi: usize) -> (b: bool)
    requires
        lo <= hi <= t.len(),
    ensures
        b == is_mantissa(t@, lo as int, hi as int),
{
    let mut seen_dot = false;
    let mut seen_digit = false;
    let mut k = lo;
    while k < hi
        invariant
            lo <= k <= hi <= t.len(),
            forall|j: int| lo <= j < k ==> is_digit(#[trigger] t@[j]) || t@[j] == '.',
            forall|j1: int, j2: int|
                lo <= j1 < j2 < k && #[trigger] t@[j1] == '.' ==> #[trigger] t@[j2] != '.',
            seen_dot == (exists|j: int| lo <= j < k && #[trigger] t@[j] == '.'),
            seen_digit == (exists|j: int| lo <= j < k && is_digit(#[trigger] t@[j])),
        decreases hi - k,
    {
        let c = t[k];
        if c == '.' {
            if seen_dot {
                let ghost j1 = choose|j: int| lo <= j < k && #[trigger] t@[j] == '.';
                assert(t@[j1] == '.' && t@[k as int] == '.');
                return false;
            }
            seen_dot = true;
        } else if !('0' <= c && c <= '9') {
            assert(!(is_digit(t@[k as int]) || t@[k as int] == '.'));
            return false;
        } else {
            seen_digit = true;
        }
        k = k + 1;
    }
    seen_digit
}

fn exponent_ok(t: &Vec<char>, e: usize) -> (b: bool)
    requires
        e <= t.len(),
    ensures
        b == is_exponent(t@, e as int),
{
    if e == t.len() {
        return true;
    }
    if !(t[e] == 'e' || t[e] == 'E') {
        return false;
    }
    let d = if e + 1 < t.len() && (t[e + 1] == '+' || t[e + 1] == '-') {
        e + 2
    } else {
        e + 1
    };
    assert(d == exponent_digits_start(t@, e as int));
    if d >= t.len() {
        return false;
    }
    let mut k = d;
    while k < t.len()
        invariant
            d <= k <= t.len(),
            e < t.len(),
            is_exp_mark(t@[e as int]),
            d == exponent_digits_start(t@, e as int),
            forall|j: int| d <= j < k ==> is_digit(#[trigger] t@[j]),
        decreases t.len() - k,
    {
        if !('0' <= t[k] && t[k] <= '9') {
            assert(!is_digit(t@[k as int]));
            return false;
        }
        k = k + 1;
    }
    true
}

/// Whether `t` is a string that std's `f64::from_str` accepts.
pub fn float_literal(t: &Vec<char>) -> (b: bool)
    ensures
        b == is_float_literal(t@),
{
    let lo: usize = if t.len() > 0 && (t[0] == '+' || t[0] == '-') {
        1
    } else {
        0
    };
    assert(lo == body_start(t@));
    let inf_l = vec!['i', 'n', 'f'];
    let inf_u = vec!['I', 'N', 'F'];
    let infinity_l = vec!['i', 'n', 'f', 'i', 'n', 'i', 't', 'y'];
    let infinity_u = vec!['I', 'N', 'F', 'I', 'N', 'I', 'T', 'Y'];
    let nan_l = vec!['n', 'a', 'n'];
    let nan_u = vec!['N', 'A', 'N'];
    assert(inf_l@ =~= seq!['i', 'n', 'f']);
    assert(inf_u@ =~= seq!['I', 'N', 'F']);
    assert(infinity_l@ =~= seq!['i', 'n', 'f', 'i', 'n', 'i', 't', 'y']);
    assert(infinity_u@ =~= seq!['I', 'N', 'F', 'I', 'N', 'I', 'T', 'Y']);
    assert(nan_l@ =~= seq!['n', 'a', 'n']);
    assert(nan_u@ =~= seq!['N', 'A', 'N']);
    if spells_at(t, lo, &inf_l, &inf_u) || spells_at(t, lo, &infinity_l, &infinity_u) || spells_at(
        t,
        lo,
        &nan_l,
        &nan_u,
    ) {
        return true;
    }
    let e = find_exp_mark(t, lo);
    mantissa_ok(t, lo, e) && exponent_ok(t, e)
}

// ── Tokenizer ───────────────────────────────────────────────────────────────

fn punct_token(c: char) -> (t: Option<Tok>)
    ensures
        t is Some <==> punct(c) is Some,
        t is Some ==> t->0@ == punct(c)->0,
{
    if c == '{' {
        Some(Token::LBrace)
    } else if c == '}' {
        Some(Token::RBrace)
    } else if c == '[' {
        Some(Token::LBracket)
    } else if c == ']' {
        Some(Token::RBracket)
    } else if c == '(' {
        Some(Token::LParen)
    } else if c == ')' {
        Some(Token::RParen)
    } else if c == ',' {
        Some(Token::Comma)
    } else if c == '=' {
        Some(Token::Eq)
    } else {
        None
    }
}

fn delimiter(c: char) -> (b: bool)
    ensures
        b == is_delimiter(c),
{
    c == '{' || c == '}' || c == '[' || c == ']' || c == '(' || c == ')' || c == ',' || c == '='
        || c == '"' || c == '#'
}

proof fn lemma_toks_view_push(a: Seq<Tok>, t: Tok)
    ensures
        toks_view(a.push(t)) == toks_view(a) + seq![t@],
{
    assert(toks_view(a.push(t)) =~= toks_view(a) + seq![t@]);
}

proof fn lemma_step(done: Seq<Token<Seq<char>>>, t: Token<Seq<char>>, rest: Seq<Token<Seq<char>>>)
    ensures
        (done + seq![t]) + rest == done + (seq![t] + rest),
{
    assert((done + seq![t]) + rest =~= done + (seq![t] + rest));
}

/// Splits USDA source text into tokens: `#` comments run to the end of the
/// line, `"` strings run to the next quote, numeric lexemes become numbers
/// when they are floating-point literals, and any other run of characters up
/// to white space or punctuation is a word.
pub fn tokenize(src: &str) -> (toks: Vec<Tok>)
    ensures
        toks_view(toks@) == lex_from(src@, 0),
{
    let s = chars_of(src);
    let n = s.len();
    let mut out: Vec<Tok> = Vec::new();
    let mut i: usize = 0;
    assert(toks_view(out@) =~= seq![]);
    assert(toks_view(out@) + lex_from(s@, 0) =~= lex_from(s@, 0));
    while i < n
        invariant
            i <= n,
            n == s@.len(),
            toks_view(out@) + lex_from(s@, i as int) == lex_from(s@, 0),
        decreases n - i,
    {
        let ghost done = toks_view(out@);
        let ghost si = i as int;
        let c = s[i];
        proof {
            lemma_comment_end_bounds(s@, si + 1);
            lemma_quote_end_bounds(s@, si + 1);
            lemma_number_end_bounds(s@, si + 1, false);
            lemma_word_end_bounds(s@, si);
        }
        if c == '#' {
            let mut j = i + 1;
            while j < n && s[j] != '\n'
                invariant
                    i + 1 <= j <= n,
                    n == s@.len(),
                    comment_end(s@, j as int) == comment_end(s@, si + 1),
                decreases n - j,
            {
                j = j + 1;
            }
            if j < n {
                j = j + 1;
            }
            assert(j == comment_end(s@, si + 1));
            assert(lex_from(s@, si) == lex_from(s@, j as int));
            i = j;
        } else if white_space(c) {
            assert(lex_from(s@, si) == lex_from(s@, si + 1));
            i = i + 1;
        } else if let Some(t) = punct_token(c) {
            proof {
                lemma_toks_view_push(out@, t);
                lemma_step(done, t@, lex_from(s@, si + 1));
            }
            out.push(t);
            i = i + 1;
        } else if c == '"' {
            let mut j = i + 1;
            while j < n && s[j] != '"'
                invariant
                    i + 1 <= j <= n,
                    n == s@.len(),
                    quote_end(s@, j as int) == quote_end(s@, si + 1),
                decreases n - j,
            {
                j = j + 1;
            }
            let text = subvec(&s, i + 1, j);
            let t = Token::Str(string_from_chars(&text));
            let next = if j < n {
                j + 1
            } else {
                j
            };
            assert(lex_from(s@, si) == seq![t@] + lex_from(s@, next as int));
            proof {
                lemma_toks_view_push(out@, t);
                lemma_step(done, t@, lex_from(s@, next as int));
            }
            out.push(t);
            i = next;
        } else if ('0' <= c && c <= '9') || c == '-' {
            if c == '-' && !(i + 1 < n && (('0' <= s[i + 1] && s[i + 1] <= '9') || s[i + 1] == '.')) {
                let dash = vec!['-'];
                assert(dash@ =~= seq!['-']);
                let t = Token::Word(string_from_chars(&dash));
                assert(t@ == Token::Word(seq!['-']));
                assert(lex_from(s@, si) == seq![t@] + lex_from(s@, si + 1));
                proof {
                    lemma_toks_view_push(out@, t);
                    lemma_step(done, t@, lex_from(s@, si + 1));
                }
                out.push(t);
                i = i + 1;
            } else {
                let mut j = i + 1;
                let mut seen_e = false;
                while j < n && (('0' <= s[j] && s[j] <= '9') || s[j] == '.' || s[j] == 'e' || s[j]
                    == 'E' || s[j] == '+' || (s[j] == '-' && seen_e))
                    invariant
                        i + 1 <= j <= n,
                        n == s@.len(),
                        number_end(s@, j as int, seen_e) == number_end(s@, si + 1, false),
                    decreases n - j,
                {
                    seen_e = seen_e || s[j] == 'e';
                    j = j + 1;
                }
                let text = subvec(&s, i, j);
                let is_num = float_literal(&text);
                let st = string_from_chars(&text);
                let t = if is_num {
                    Token::Num(st)
                } else {
                    Token::Word(st)
                };
                assert(t@ == numeric_token(s@.subrange(si, j as int)));
                assert(lex_from(s@, si) == seq![t@] + lex_from(s@, j as int));
                proof {
                    lemma_toks_view_push(out@, t);
                    lemma_step(done, t@, lex_from(s@, j as int));
                }
                out.push(t);
                i = j;
            }
        } else {
            let mut j = i;
            while j < n && !white_space(s[j]) && !delimiter(s[j])
                invariant
                    i <= j <= n,
                    n == s@.len(),
                    word_end(s@, j as int) == word_end(s@, si),
                decreases n - j,
            {
                j = j + 1;
            }
            let text = subvec(&s, i, j);
            let t = Token::Word(string_from_chars(&text));
            assert(lex_from(s@, si) == seq![t@] + lex_from(s@, j as int));
            proof {
                lemma_toks_view_push(out@, t);
                lemma_step(done, t@, lex_from(s@, j as int));
            }
            out.push(t);
            i = j;
        }
    }
    out
}

} // verus!
