//! The lexer: turns the characters of a teeny program into tokens.
use vstd::prelude::*;

use crate::error::{Error, ErrorView};
use crate::token::{
    binary_op_text, keyword_of, keyword_or_ident, token_binary_op, token_text, token_unary_op,
    unary_op_text, SpecToken, Token,
};

verus! {

/// Names what `char::is_alphabetic` answers for `c`: whether `c` has the
/// Unicode `Alphabetic` property.
pub uninterp spec fn char_is_alphabetic(c: char) -> bool;

/// Names what `char::is_alphanumeric` answers for `c`: whether `c` has the
/// Unicode `Alphabetic` property or is numeric.
pub uninterp spec fn char_is_alphanumeric(c: char) -> bool;

/// Calls `char::is_alphabetic`; the answer is `char_is_alphabetic(c)`.
#[verifier::external_body]
fn is_alphabetic(c: char) -> (r: bool)
    ensures
        r == char_is_alphabetic(c),
{
    c.is_alphabetic()
}

/// Calls `char::is_alphanumeric`; the answer is `char_is_alphanumeric(c)`.
#[verifier::external_body]
fn is_alphanumeric(c: char) -> (r: bool)
    ensures
        r == char_is_alphanumeric(c),
{
    c.is_alphanumeric()
}

/// An ASCII decimal digit.
pub open spec fn is_digit_char(c: char) -> bool {
    '0' <= c && c <= '9'
}

/// ASCII whitespace: space, tab, line feed, form feed and carriage return.
pub open spec fn is_ascii_whitespace_char(c: char) -> bool {
    c == ' ' || c == '\t' || c == '\n' || c == '\x0C' || c == '\r'
}

/// The blanks that separate tokens on a line.
pub open spec fn is_blank_char(c: char) -> bool {
    c == ' ' || c == '\t' || c == '\r'
}

/// The characters of the arithmetic and comparison operators.
pub open spec fn is_operator_char(c: char) -> bool {
    c == '+' || c == '-' || c == '*' || c == '/' || c == '=' || c == '>' || c == '<'
}

/// The characters that end a keyword or identifier: the operator characters,
/// a closing parenthesis and ASCII whitespace.
pub open spec fn is_word_end_char(c: char) -> bool {
    is_operator_char(c) || c == ')' || is_ascii_whitespace_char(c)
}

fn is_digit(c: char) -> (r: bool)
    ensures
        r == is_digit_char(c),
{
    '0' <= c && c <= '9'
}

fn is_ascii_whitespace(c: char) -> (r: bool)
    ensures
        r == is_ascii_whitespace_char(c),
{
    c == ' ' || c == '\t' || c == '\n' || c == '\x0C' || c == '\r'
}

fn is_operator(c: char) -> (r: bool)
    ensures
        r == is_operator_char(c),
{
    c == '+' || c == '-' || c == '*' || c == '/' || c == '=' || c == '>' || c == '<'
}

/// Why the lexer refused its input; a position is the index, in the input,
/// of the offending character.
#[derive(Debug, PartialEq, Eq, Structural, Copy, Clone)]
pub enum LexError {
    UnknownStart(usize),
    OpenQuote,
    DoublePeriod,
    LetterInNumber(usize),
    InvalidWordChar(usize),
}

/// The message of a lexer error on input `s`.
pub open spec fn lex_error_message(s: Seq<char>, k: LexError) -> Seq<char> {
    match k {
        LexError::UnknownStart(at) => "Unknown start to token: "@ + s.subrange(at as int, at + 1),
        LexError::OpenQuote => "File finished with open quote"@,
        LexError::DoublePeriod => "Already have seen period in numeric"@,
        LexError::LetterInNumber(at) => "Invalid character in numeric token: "@ + s.subrange(
            at as int,
            at + 1,
        ),
        LexError::InvalidWordChar(at) => "Invalid character in keyword or identifier token: "@
            + s.subrange(at as int, at + 1),
    }
}

/// The error value of a lexer error on input `s`.
pub open spec fn lex_error_view(s: Seq<char>, k: LexError) -> ErrorView {
    ErrorView::Lexer(lex_error_message(s, k))
}

/// The position of the first character at or after `p` that is not a blank.
pub open spec fn skip_blanks(s: Seq<char>, p: nat) -> nat
    decreases s.len() - p,
{
    if p < s.len() && is_blank_char(s[p as int]) {
        skip_blanks(s, p + 1)
    } else {
        p
    }
}

/// The end of a number whose characters after the first start at `p`.
pub open spec fn scan_number(s: Seq<char>, p: nat, seen_period: bool) -> Result<nat, LexError>
    decreases s.len() - p,
{
    if p >= s.len() {
        Ok(p)
    } else {
        let c = s[p as int];
        if c == '.' {
            if seen_period {
                Err(LexError::DoublePeriod)
            } else {
                scan_number(s, p + 1, true)
            }
        } else if is_digit_char(c) {
            scan_number(s, p + 1, seen_period)
        } else if is_ascii_whitespace_char(c) || !char_is_alphabetic(c) {
            Ok(p)
        } else {
            Err(LexError::LetterInNumber(p as usize))
        }
    }
}

/// The end of a keyword or identifier whose characters after the first start at `p`.
pub open spec fn scan_word(s: Seq<char>, p: nat) -> Result<nat, LexError>
    decreases s.len() - p,
{
    if p >= s.len() {
        Ok(p)
    } else {
        let c = s[p as int];
        if is_word_end_char(c) {
            Ok(p)
        } else if c == '_' || char_is_alphanumeric(c) {
            scan_word(s, p + 1)
        } else {
            Err(LexError::InvalidWordChar(p as usize))
        }
    }
}

/// The position of the closing quote of a string literal whose contents start at `p`.
pub open spec fn scan_string(s: Seq<char>, p: nat) -> Result<nat, LexError>
    decreases s.len() - p,
{
    if p >= s.len() {
        Err(LexError::OpenQuote)
    } else if s[p as int] == '"' {
        Ok(p)
    } else {
        scan_string(s, p + 1)
    }
}

/// An operator that is one character long, or two when `second` follows it.
pub open spec fn operator_token(
    s: Seq<char>,
    q: nat,
    second: char,
    single: SpecToken,
    double: SpecToken,
) -> (SpecToken, nat) {
    if q + 1 < s.len() && s[q + 1int] == second {
        (double, q + 2)
    } else {
        (single, q + 1)
    }
}

/// The token that starts at or after position `p` of `s`, with the position
/// just past it; or why there is none.
#[verifier::opaque]
pub open spec fn lex_token(s: Seq<char>, p: nat) -> Result<(SpecToken, nat), LexError> {
    let q = skip_blanks(s, p);
    if q >= s.len() {
        Ok((SpecToken::EOF, q))
    } else {
        let c = s[q as int];
        if c == '+' {
            Ok((SpecToken::PLUS, q + 1))
        } else if c == '-' {
            Ok((SpecToken::MINUS, q + 1))
        } else if c == '*' {
            Ok((SpecToken::ASTERISK, q + 1))
        } else if c == '/' {
            Ok((SpecToken::SLASH, q + 1))
        } else if c == '\n' {
            Ok((SpecToken::NEWLINE, q + 1))
        } else if c == '(' {
            Ok((SpecToken::OPENPAREN, q + 1))
        } else if c == ')' {
            Ok((SpecToken::CLOSEPAREN, q + 1))
        } else if c == '=' {
            Ok(operator_token(s, q, '=', SpecToken::EQ, SpecToken::EQEQ))
        } else if c == '>' {
            Ok(operator_token(s, q, '=', SpecToken::GT, SpecToken::GTEQ))
        } else if c == '<' {
            Ok(operator_token(s, q, '=', SpecToken::LT, SpecToken::LTEQ))
        } else if c == '!' {
            Ok(operator_token(s, q, '=', SpecToken::NOT, SpecToken::NOTEQ))
        } else if c == '&' {
            if q + 1 < s.len() && s[q + 1int] == '&' {
                Ok((SpecToken::AND, q + 2))
            } else {
                Err(LexError::UnknownStart(q as usize))
            }
        } else if c == '|' {
            if q + 1 < s.len() && s[q + 1int] == '|' {
                Ok((SpecToken::OR, q + 2))
            } else {
                Err(LexError::UnknownStart(q as usize))
            }
        } else if c == '"' {
            match scan_string(s, q + 1) {
                Ok(e) => Ok((SpecToken::STRING(s.subrange(q + 1int, e as int)), e + 1)),
                Err(k) => Err(k),
            }
        } else if is_digit_char(c) {
            match scan_number(s, q + 1, false) {
                Ok(e) => Ok((SpecToken::NUMBER(s.subrange(q as int, e as int)), e)),
                Err(k) => Err(k),
            }
        } else if char_is_alphabetic(c) {
            match scan_word(s, q + 1) {
                Ok(e) => Ok((keyword_or_ident(s.subrange(q as int, e as int)), e)),
                Err(k) => Err(k),
            }
        } else {
            Err(LexError::UnknownStart(q as usize))
        }
    }
}

/// Skipping blanks goes forward, stays within the input and stops at no blank.
pub proof fn lemma_skip_blanks(s: Seq<char>, p: nat)
    ensures
        p <= skip_blanks(s, p),
        p <= s.len() ==> skip_blanks(s, p) <= s.len(),
        skip_blanks(s, p) < s.len() ==> !is_blank_char(s[skip_blanks(s, p) as int]),
    decreases s.len() - p,
{
    if p < s.len() && is_blank_char(s[p as int]) {
        lemma_skip_blanks(s, p + 1);
    }
}

/// A number ends at or after where it is scanned from, within the input.
pub proof fn lemma_scan_number(s: Seq<char>, p: nat, seen_period: bool)
    ensures
        scan_number(s, p, seen_period) matches Ok(e) ==> p <= e && (p <= s.len() ==> e <= s.len()),
    decreases s.len() - p,
{
    if p < s.len() {
        lemma_scan_number(s, p + 1, true);
        lemma_scan_number(s, p + 1, seen_period);
    }
}

/// A word ends at or after where it is scanned from, within the input.
pub proof fn lemma_scan_word(s: Seq<char>, p: nat)
    ensures
        scan_word(s, p) matches Ok(e) ==> p <= e && (p <= s.len() ==> e <= s.len()),
    decreases s.len() - p,
{
    if p < s.len() {
        lemma_scan_word(s, p + 1);
    }
}

/// A string literal ends at a quote of the input; it fails only for want of one.
pub proof fn lemma_scan_string(s: Seq<char>, p: nat)
    ensures
        scan_string(s, p) matches Ok(e) ==> p <= e < s.len() && s[e as int] == '"',
        scan_string(s, p) matches Err(k) ==> k == LexError::OpenQuote,
    decreases s.len() - p,
{
    if p < s.len() && s[p as int] != '"' {
        lemma_scan_string(s, p + 1);
    }
}

/// A token other than the end of input is at least one character long and
/// lies within the input; the end of input moves at most over blanks.
pub proof fn lemma_lex_token_bounds(s: Seq<char>, p: nat)
    ensures
        lex_token(s, p) matches Ok((t, e)) ==> {
            &&& p <= e
            &&& p <= s.len() ==> e <= s.len()
            &&& !(t is EOF) ==> p < s.len() && p < e
        },
{
    reveal(lex_token);
    let q = skip_blanks(s, p);
    lemma_skip_blanks(s, p);
    if q < s.len() {
        lemma_scan_string(s, q + 1);
        lemma_scan_number(s, q + 1, false);
        lemma_scan_word(s, q + 1);
    }
}

/// A lexer error names the position of a character of the input.
pub open spec fn lex_error_in_bounds(s: Seq<char>, k: LexError) -> bool {
    match k {
        LexError::UnknownStart(at) => at < s.len(),
        LexError::LetterInNumber(at) => at < s.len(),
        LexError::InvalidWordChar(at) => at < s.len(),
        _ => true,
    }
}

proof fn lemma_scan_number_error(s: Seq<char>, p: nat, seen_period: bool)
    requires
        s.len() <= usize::MAX,
    ensures
        scan_number(s, p, seen_period) matches Err(k) ==> lex_error_in_bounds(s, k),
    decreases s.len() - p,
{
    if p < s.len() {
        lemma_scan_number_error(s, p + 1, true);
        lemma_scan_number_error(s, p + 1, seen_period);
    }
}

proof fn lemma_scan_word_error(s: Seq<char>, p: nat)
    requires
        s.len() <= usize::MAX,
    ensures
        scan_word(s, p) matches Err(k) ==> lex_error_in_bounds(s, k),
    decreases s.len() - p,
{
    if p < s.len() {
        lemma_scan_word_error(s, p + 1);
    }
}

/// The positions that lexer errors name lie within the input.
pub proof fn lemma_lex_error_positions(s: Seq<char>, p: nat)
    requires
        s.len() <= usize::MAX,
    ensures
        lex_token(s, p) matches Err(k) ==> lex_error_in_bounds(s, k),
{
    reveal(lex_token);
    let q = skip_blanks(s, p);
    lemma_skip_blanks(s, p);
    lemma_scan_number_error(s, q + 1, false);
    lemma_scan_word_error(s, q + 1);
    lemma_scan_string(s, q + 1);
    if q < s.len() {
        assert((q as usize) as nat == q);
    }
}

/// The tokens from position `p` to the end of input, the end-of-input token
/// included; or the first error met on the way.
pub open spec fn lex_all(s: Seq<char>, p: nat) -> Result<Seq<SpecToken>, LexError>
    decreases s.len() - p,
{
    match lex_token(s, p) {
        Err(k) => Err(k),
        Ok((t, e)) => {
            if t is EOF || p > s.len() {
                Ok(seq![t])
            } else {
                proof {
                    lemma_lex_token_bounds(s, p);
                }
                match lex_all(s, e) {
                    Ok(rest) => Ok(seq![t] + rest),
                    Err(k) => Err(k),
                }
            }
        },
    }
}

/// The values of a sequence of tokens.
pub open spec fn token_views(ts: Seq<Token>) -> Seq<SpecToken> {
    ts.map_values(|t: Token| t@)
}

/// The text of a number token: a digit first, then digits and at most one period.
pub open spec fn is_number_text(n: Seq<char>) -> bool {
    &&& n.len() >= 1
    &&& is_digit_char(n[0])
    &&& forall|i: int| 0 <= i < n.len() ==> is_digit_char(#[trigger] n[i]) || n[i] == '.'
    &&& forall|i: int, j: int| 0 <= i < j < n.len() && #[trigger] n[i] == '.' ==> #[trigger] n[j] != '.'
}

/// The text of an identifier: a letter first, then letters, digits and underscores.
pub open spec fn is_word_text(w: Seq<char>) -> bool {
    &&& w.len() >= 1
    &&& char_is_alphabetic(w[0])
    &&& forall|i: int| 1 <= i < w.len() ==> #[trigger] w[i] == '_' || char_is_alphanumeric(w[i])
}

proof fn lemma_scan_number_shape(s: Seq<char>, p: nat, seen_period: bool)
    ensures
        scan_number(s, p, seen_period) matches Ok(e) ==> {
            &&& forall|i: int| p <= i < e ==> is_digit_char(#[trigger] s[i]) || s[i] == '.'
            &&& seen_period ==> forall|i: int| p <= i < e ==> #[trigger] s[i] != '.'
            &&& forall|i: int, j: int| p <= i < j < e && #[trigger] s[i] == '.' ==> #[trigger] s[j] != '.'
        },
    decreases s.len() - p,
{
    if p < s.len() {
        lemma_scan_number_shape(s, p + 1, true);
        lemma_scan_number_shape(s, p + 1, seen_period);
    }
}

proof fn lemma_scan_word_shape(s: Seq<char>, p: nat)
    ensures
        scan_word(s, p) matches Ok(e) ==> forall|i: int|
            p <= i < e ==> #[trigger] s[i] == '_' || char_is_alphanumeric(s[i]),
    decreases s.len() - p,
{
    if p < s.len() {
        lemma_scan_word_shape(s, p + 1);
    }
}

proof fn lemma_scan_string_shape(s: Seq<char>, p: nat)
    ensures
        scan_string(s, p) matches Ok(e) ==> forall|i: int| p <= i < e ==> #[trigger] s[i] != '"',
    decreases s.len() - p,
{
    if p < s.len() && s[p as int] != '"' {
        lemma_scan_string_shape(s, p + 1);
    }
}

/// What the lexer hands out has the shape the language gives it: a number is
/// a digit followed by digits and at most one period; an identifier is a
/// letter followed by letters, digits and underscores, and is no keyword; a
/// string literal holds no quote.
pub proof fn lemma_token_shapes(s: Seq<char>, p: nat)
    ensures
        lex_token(s, p) matches Ok((SpecToken::NUMBER(n), _e)) ==> is_number_text(n),
        lex_token(s, p) matches Ok((SpecToken::IDENT(w), _e)) ==> is_word_text(w) && keyword_of(w)
            is None,
        lex_token(s, p) matches Ok((SpecToken::STRING(v), _e)) ==> forall|i: int|
            0 <= i < v.len() ==> #[trigger] v[i] != '"',
{
    reveal(lex_token);
    let q = skip_blanks(s, p);
    lemma_skip_blanks(s, p);
    if q < s.len() {
        lemma_scan_number(s, q + 1, false);
        lemma_scan_number_shape(s, q + 1, false);
        lemma_scan_word(s, q + 1);
        lemma_scan_word_shape(s, q + 1);
        lemma_scan_string(s, q + 1);
        lemma_scan_string_shape(s, q + 1);
        if let Ok((SpecToken::NUMBER(n), e)) = lex_token(s, p) {
            assert(n == s.subrange(q as int, e as int));
            assert forall|i: int, j: int| 0 <= i < j < n.len() && #[trigger] n[i] == '.' implies #[trigger] n[j]
                != '.' by {
                assert(n[i] == s[q + i]);
                assert(n[j] == s[q + j]);
            }
        }
        if let Ok((SpecToken::IDENT(w), e)) = lex_token(s, p) {
            assert(w == s.subrange(q as int, e as int));
            assert forall|i: int| 1 <= i < w.len() implies #[trigger] w[i] == '_'
                || char_is_alphanumeric(w[i]) by {
                assert(w[i] == s[q + i]);
            }
        }
    }
}

/// The tokens of a whole input end with the end-of-input token, and only
/// there does it occur.
pub proof fn lemma_tokens_end_with_eof(s: Seq<char>, p: nat)
    ensures
        lex_all(s, p) matches Ok(ts) ==> {
            &&& ts.len() >= 1
            &&& ts.last() is EOF
            &&& forall|i: int| 0 <= i < ts.len() - 1 ==> !(#[trigger] ts[i] is EOF)
        },
    decreases s.len() - p,
{
    lemma_lex_token_bounds(s, p);
    if let Ok((t, e)) = lex_token(s, p) {
        if !(t is EOF || p > s.len()) {
            lemma_tokens_end_with_eof(s, e);
            if let Ok(rest) = lex_all(s, e) {
                let ts = seq![t] + rest;
                assert forall|i: int| 0 <= i < ts.len() - 1 implies !(#[trigger] ts[i] is EOF) by {
                    if i > 0 {
                        assert(ts[i] == rest[i - 1]);
                    }
                }
            }
        } else if p > s.len() {
            reveal(lex_token);
            lemma_skip_blanks(s, p);
        }
    }
}

/// The input ends with a line feed.
pub open spec fn ends_with_newline(s: Seq<char>) -> bool {
    s.len() >= 1 && s.last() == '\n'
}

proof fn lemma_scan_number_stops(s: Seq<char>, p: nat, seen_period: bool)
    requires
        ends_with_newline(s),
        p < s.len(),
    ensures
        scan_number(s, p, seen_period) matches Ok(e) ==> e < s.len(),
    decreases s.len() - p,
{
    if p + 1 < s.len() {
        lemma_scan_number_stops(s, p + 1, true);
        lemma_scan_number_stops(s, p + 1, seen_period);
    }
}

proof fn lemma_scan_word_stops(s: Seq<char>, p: nat)
    requires
        ends_with_newline(s),
        p < s.len(),
    ensures
        scan_word(s, p) matches Ok(e) ==> e < s.len(),
    decreases s.len() - p,
{
    if p + 1 < s.len() {
        lemma_scan_word_stops(s, p + 1);
    }
}

proof fn lemma_skip_blanks_stops(s: Seq<char>, p: nat)
    requires
        ends_with_newline(s),
        p < s.len(),
    ensures
        skip_blanks(s, p) < s.len(),
    decreases s.len() - p,
{
    if p + 1 < s.len() {
        lemma_skip_blanks_stops(s, p + 1);
    }
}

/// On an input that ends with a line feed, a token read before the last
/// character is no end of input, and only a line feed reaches the end.
proof fn lemma_token_before_end(s: Seq<char>, p: nat)
    requires
        ends_with_newline(s),
        p < s.len(),
    ensures
        lex_token(s, p) matches Ok((t, e)) ==> {
            &&& !(t is EOF)
            &&& p < e <= s.len()
            &&& e == s.len() ==> t is NEWLINE
        },
{
    reveal(lex_token);
    let q = skip_blanks(s, p);
    lemma_skip_blanks(s, p);
    lemma_skip_blanks_stops(s, p);
    lemma_lex_token_bounds(s, p);
    if q + 1 < s.len() {
        lemma_scan_string(s, q + 1);
        lemma_scan_number_stops(s, q + 1, false);
        lemma_scan_word_stops(s, q + 1);
    }
}

/// After the end-of-input token the lexer stays at the end of input, so that
/// it hands out that token again and again.
pub proof fn lemma_eof_repeats(s: Seq<char>, p: nat)
    ensures
        lex_token(s, p) matches Ok((SpecToken::EOF, e)) ==> lex_token(s, e) == Ok::<
            (SpecToken, nat),
            LexError,
        >((SpecToken::EOF, e)),
{
    reveal(lex_token);
    lemma_skip_blanks(s, p);
}

proof fn lemma_newline_before_eof_from(s: Seq<char>, p: nat)
    requires
        ends_with_newline(s),
        p < s.len(),
    ensures
        lex_all(s, p) matches Ok(ts) ==> ts.len() >= 2 && ts[ts.len() - 2] is NEWLINE,
    decreases s.len() - p,
{
    lemma_token_before_end(s, p);
    if let Ok((t, e)) = lex_token(s, p) {
        if e < s.len() {
            lemma_newline_before_eof_from(s, e);
        } else {
            reveal(lex_token);
            assert(skip_blanks(s, e) == e);
            assert(lex_all(s, e) == Ok::<Seq<SpecToken>, LexError>(seq![SpecToken::EOF]));
        }
        if let Ok(rest) = lex_all(s, e) {
            let ts = seq![t] + rest;
            assert(ts[ts.len() - 2] == if rest.len() >= 2 {
                rest[rest.len() - 2]
            } else {
                t
            });
        }
    }
}

/// The lexer adds a line feed to its input; so the tokens of a whole input
/// that lexes without error end with a newline token and then the end of
/// input.
pub proof fn lemma_newline_before_eof(text: Seq<char>)
    ensures
        lex_all(text + seq!['\n'], 0) matches Ok(ts) ==> {
            &&& ts.len() >= 2
            &&& ts[ts.len() - 2] is NEWLINE
            &&& ts.last() is EOF
        },
{
    let s = text + seq!['\n'];
    assert(s.last() == '\n');
    lemma_newline_before_eof_from(s, 0);
    lemma_tokens_end_with_eof(s, 0);
}

/// An operator token is spelled in C as it is spelled in the source: the
/// text of an operator token, and the C operator it stands for, are the
/// characters it was read from.
pub proof fn lemma_operator_spelling(s: Seq<char>, p: nat)
    ensures
        lex_token(s, p) matches Ok((t, e)) ==> {
            let read = s.subrange(skip_blanks(s, p) as int, e as int);
            &&& token_binary_op(t) matches Some(op) ==> binary_op_text(op) == read
                && token_text(t) == read
            &&& token_unary_op(t) matches Some(op) ==> unary_op_text(op) == read
                && token_text(t) == read
        },
{
    reveal(lex_token);
    reveal_strlit("+");
    reveal_strlit("-");
    reveal_strlit("*");
    reveal_strlit("/");
    reveal_strlit("!");
    reveal_strlit("<");
    reveal_strlit(">");
    reveal_strlit("==");
    reveal_strlit("!=");
    reveal_strlit("<=");
    reveal_strlit(">=");
    reveal_strlit("&&");
    reveal_strlit("||");
    let q = skip_blanks(s, p);
    lemma_skip_blanks(s, p);
    if q < s.len() {
        let c = s[q as int];
        assert(s.subrange(q as int, q + 1int) =~= seq![c]);
        if q + 1 < s.len() {
            assert(s.subrange(q as int, q + 2int) =~= seq![c, s[q + 1int]]);
        }
    }
}

/// The characters that end a keyword or identifier in teeny: the operator
/// characters `+ - * / = > <`, a closing parenthesis, and ASCII whitespace.
pub open spec fn closes_word(c: char) -> bool {
    c == '+' || c == '-' || c == '*' || c == '/' || c == '=' || c == '>' || c == '<' || c == ')'
        || c == ' ' || c == '\t' || c == '\n' || c == '\x0C' || c == '\r'
}

/// A keyword or identifier whose letters run from `p` up to `k` ends at `k`
/// when the character there is an operator character, a closing parenthesis
/// or whitespace; in particular a word stops right before such a character.
pub proof fn lemma_word_ends_before_operator(s: Seq<char>, p: nat, k: nat)
    requires
        p <= k < s.len(),
        closes_word(s[k as int]),
        forall|i: int|
            p <= i < k ==> !closes_word(#[trigger] s[i]) && (s[i] == '_' || char_is_alphanumeric(
                s[i],
            )),
    ensures
        scan_word(s, p) == Ok::<nat, LexError>(k),
    decreases k - p,
{
    if p < k {
        assert(!closes_word(s[p as int]));
        lemma_word_ends_before_operator(s, p + 1, k);
    }
}

/// A word that starts with a letter is read as one keyword or identifier token
/// up to the first operator character, closing parenthesis or whitespace.
pub proof fn lemma_word_token(s: Seq<char>, p: nat, k: nat)
    requires
        skip_blanks(s, p) < k < s.len(),
        ('a' <= s[skip_blanks(s, p) as int] <= 'z' || 'A' <= s[skip_blanks(s, p) as int] <= 'Z'),
        char_is_alphabetic(s[skip_blanks(s, p) as int]),
        closes_word(s[k as int]),
        forall|i: int|
            skip_blanks(s, p) < i < k ==> !closes_word(#[trigger] s[i]) && (s[i] == '_'
                || char_is_alphanumeric(s[i])),
    ensures
        lex_token(s, p) == Ok::<(SpecToken, nat), LexError>(
            (keyword_or_ident(s.subrange(skip_blanks(s, p) as int, k as int)), k),
        ),
{
    reveal(lex_token);
    lemma_word_ends_before_operator(s, skip_blanks(s, p) + 1, k);
}

/// The first character of an operator that may be followed by `=`.
#[derive(Debug, Copy, Clone, PartialEq, Eq, Structural)]
enum StartOperator {
    EQ,
    GT,
    LT,
    NOT,
}

impl StartOperator {
    spec fn spec_token(self) -> SpecToken {
        match self {
            StartOperator::EQ => SpecToken::EQ,
            StartOperator::GT => SpecToken::GT,
            StartOperator::LT => SpecToken::LT,
            StartOperator::NOT => SpecToken::NOT,
        }
    }

    spec fn spec_token_with_eq(self) -> SpecToken {
        match self {
            StartOperator::EQ => SpecToken::EQEQ,
            StartOperator::GT => SpecToken::GTEQ,
            StartOperator::LT => SpecToken::LTEQ,
            StartOperator::NOT => SpecToken::NOTEQ,
        }
    }

    fn into_token_with_eq(self) -> (r: Token)
        ensures
            r@ == self.spec_token_with_eq(),
    {
        match self {
            StartOperator::EQ => Token::EQEQ,
            StartOperator::GT => Token::GTEQ,
            StartOperator::LT => Token::LTEQ,
            StartOperator::NOT => Token::NOTEQ,
        }
    }

    fn into_token(self) -> (r: Token)
        ensures
            r@ == self.spec_token(),
    {
        match self {
            StartOperator::EQ => Token::EQ,
            StartOperator::GT => Token::GT,
            StartOperator::LT => Token::LT,
            StartOperator::NOT => Token::NOT,
        }
    }
}

/// The characters of a string, in order.
fn chars_of(s: &str) -> (r: Vec<char>)
    ensures
        r@ == s@,
        r@.len() <= usize::MAX,
{
    let mut r: Vec<char> = Vec::new();
    let n = s.unicode_len();
    let mut i: usize = 0;
    while i < n
        invariant
            n == s@.len(),
            i <= n,
            r@ == s@.subrange(0, i as int),
        decreases n - i,
    {
        r.push(s.get_char(i));
        i = i + 1;
    }
    r
}

/// A copy of a token.
fn clone_token(t: &Token) -> (r: Token)
    ensures
        r@ == t@,
{
    match t {
        Token::NUMBER(s) => Token::NUMBER(s.clone()),
        Token::IDENT(s) => Token::IDENT(s.clone()),
        Token::STRING(s) => Token::STRING(s.clone()),
        Token::EOF => Token::EOF,
        Token::NEWLINE => Token::NEWLINE,
        Token::OPENPAREN => Token::OPENPAREN,
        Token::CLOSEPAREN => Token::CLOSEPAREN,
        Token::LABEL => Token::LABEL,
        Token::GOTO => Token::GOTO,
        Token::PRINT => Token::PRINT,
        Token::INPUT => Token::INPUT,
        Token::LET => Token::LET,
        Token::IF => Token::IF,
        Token::THEN => Token::THEN,
        Token::ENDIF => Token::ENDIF,
        Token::WHILE => Token::WHILE,
        Token::REPEAT => Token::REPEAT,
        Token::ENDWHILE => Token::ENDWHILE,
        Token::ELSE => Token::ELSE,
        Token::ELSEIF => Token::ELSEIF,
        Token::EQ => Token::EQ,
        Token::PLUS => Token::PLUS,
        Token::MINUS => Token::MINUS,
        Token::ASTERISK => Token::ASTERISK,
        Token::SLASH => Token::SLASH,
        Token::EQEQ => Token::EQEQ,
        Token::NOTEQ => Token::NOTEQ,
        Token::LT => Token::LT,
        Token::LTEQ => Token::LTEQ,
        Token::GT => Token::GT,
        Token::GTEQ => Token::GTEQ,
        Token::OR => Token::OR,
        Token::AND => Token::AND,
        Token::NOT => Token::NOT,
    }
}

/// A lexer over a teeny program, which hands out its tokens one at a time.
pub struct Lexer {
    source: String,
    chars: Vec<char>,
    pos: usize,
    peeked: Option<Token>,
    peek_start: usize,
}

impl Lexer {
    /// The characters being lexed.
    pub closed spec fn input(&self) -> Seq<char> {
        self.chars@
    }

    /// The position in the input of the next token to hand out.
    pub closed spec fn position(&self) -> nat {
        if self.peeked is Some {
            self.peek_start as nat
        } else {
            self.pos as nat
        }
    }

    /// The lexer's characters are those of its text, its position lies within
    /// them, and a token it has peeked at is the one that starts where it peeked.
    pub closed spec fn wf(&self) -> bool {
        &&& self.source@ == self.chars@
        &&& self.chars@.len() <= usize::MAX
        &&& self.pos <= self.chars@.len()
        &&& match self.peeked {
            Some(t) => self.peek_start <= self.pos && lex_token(self.chars@, self.peek_start as nat)
                == Ok::<_, LexError>((t@, self.pos as nat)),
            None => true,
        }
    }

    /// The position of a lexer lies within its input.
    pub proof fn lemma_wf(&self)
        requires
            self.wf(),
        ensures
            self.position() <= self.input().len(),
    {
    }

    /// A lexer over `s`, to which a final newline is added.
    pub fn new(s: &str) -> (r: Lexer)
        ensures
            r.wf(),
            r.input() == s@ + seq!['\n'],
            r.position() == 0,
    {
        let mut source = String::from_str(s);
        source.append("\n");
        proof {
            reveal_strlit("\n");
        }
        let chars = chars_of(source.as_str());
        Lexer { source, chars, pos: 0, peeked: None, peek_start: 0 }
    }

    fn peek_char(&self) -> (r: Option<char>)
        ensures
            r == (if self.pos < self.chars@.len() {
                Some(self.chars@[self.pos as int])
            } else {
                None::<char>
            }),
    {
        if self.pos < self.chars.len() {
            Some(self.chars[self.pos])
        } else {
            None
        }
    }

    fn next_char(&mut self) -> (r: Option<char>)
        requires
            old(self).pos <= old(self).chars@.len(),
        ensures
            final(self).chars == old(self).chars,
            final(self).source == old(self).source,
            final(self).peeked == old(self).peeked,
            final(self).peek_start == old(self).peek_start,
            r == (if old(self).pos < old(self).chars@.len() {
                Some(old(self).chars@[old(self).pos as int])
            } else {
                None::<char>
            }),
            final(self).pos == (if old(self).pos < old(self).chars@.len() {
                old(self).pos + 1
            } else {
                old(self).pos as int
            }),
    {
        if self.pos < self.chars.len() {
            let c = self.chars[self.pos];
            self.pos = self.pos + 1;
            Some(c)
        } else {
            None
        }
    }

    fn skip_whitespace(&mut self)
        requires
            old(self).pos <= old(self).chars@.len(),
        ensures
            final(self).chars == old(self).chars,
            final(self).source == old(self).source,
            final(self).peeked == old(self).peeked,
            final(self).peek_start == old(self).peek_start,
            final(self).pos == skip_blanks(old(self).chars@, old(self).pos as nat),
    {
        while self.pos < self.chars.len() && (self.chars[self.pos] == ' ' || self.chars[self.pos]
            == '\t' || self.chars[self.pos] == '\r')
            invariant
                self.chars == old(self).chars,
                self.source == old(self).source,
                self.peeked == old(self).peeked,
                self.peek_start == old(self).peek_start,
                old(self).pos <= self.pos <= self.chars@.len(),
                skip_blanks(self.chars@, self.pos as nat) == skip_blanks(
                    old(self).chars@,
                    old(self).pos as nat,
                ),
            decreases self.chars@.len() - self.pos,
        {
            self.pos = self.pos + 1;
        }
    }

    /// The text of the input between two positions.
    fn slice(&self, from: usize, to: usize) -> (r: String)
        requires
            self.source@ == self.chars@,
            from <= to <= self.chars@.len(),
        ensures
            r@ == self.chars@.subrange(from as int, to as int),
    {
        String::from_str(self.source.as_str().substring_char(from, to))
    }

    /// The error value, with its message, of a lexer error.
    fn error(&self, k: LexError) -> (r: Error)
        requires
            self.source@ == self.chars@,
            self.chars@.len() <= usize::MAX,
            match k {
                LexError::UnknownStart(at) => at < self.chars@.len(),
                LexError::LetterInNumber(at) => at < self.chars@.len(),
                LexError::InvalidWordChar(at) => at < self.chars@.len(),
                _ => true,
            },
        ensures
            r@ == lex_error_view(self.chars@, k),
    {
        let mut m = String::new();
        match k {
            LexError::UnknownStart(at) => {
                m.append("Unknown start to token: ");
                m.append(self.source.as_str().substring_char(at, at + 1));
            },
            LexError::OpenQuote => {
                m.append("File finished with open quote");
            },
            LexError::DoublePeriod => {
                m.append("Already have seen period in numeric");
            },
            LexError::LetterInNumber(at) => {
                m.append("Invalid character in numeric token: ");
                m.append(self.source.as_str().substring_char(at, at + 1));
            },
            LexError::InvalidWordChar(at) => {
                m.append("Invalid character in keyword or identifier token: ");
                m.append(self.source.as_str().substring_char(at, at + 1));
            },
        }
        Error::Lexer(m)
    }

    /// Finishes an operator whose first character has been read.
    fn lex_operator(&mut self, start_operator: StartOperator) -> (r: Token)
        requires
            old(self).pos <= old(self).chars@.len(),
        ensures
            final(self).chars == old(self).chars,
            final(self).source == old(self).source,
            final(self).peeked == old(self).peeked,
            final(self).peek_start == old(self).peek_start,
            if old(self).pos < old(self).chars@.len() && old(self).chars@[old(self).pos as int]
                == '=' {
                r@ == start_operator.spec_token_with_eq() && final(self).pos == old(self).pos + 1
            } else {
                r@ == start_operator.spec_token() && final(self).pos == old(self).pos
            },
    {
        match self.peek_char() {
            Some(ch) => {
                if ch == '=' {
                    self.next_char();
                    start_operator.into_token_with_eq()
                } else {
                    start_operator.into_token()
                }
            },
            None => start_operator.into_token(),
        }
    }

    /// Finishes a string literal whose opening quote has been read.
    fn lex_string(&mut self) -> (r: Result<Token, LexError>)
        requires
            old(self).pos <= old(self).chars@.len(),
            old(self).source@ == old(self).chars@,
        ensures
            final(self).chars == old(self).chars,
            final(self).source == old(self).source,
            final(self).peeked == old(self).peeked,
            final(self).peek_start == old(self).peek_start,
            final(self).pos <= final(self).chars@.len(),
            match scan_string(old(self).chars@, old(self).pos as nat) {
                Ok(e) => r matches Ok(t) && t@ == SpecToken::STRING(
                    old(self).chars@.subrange(old(self).pos as int, e as int),
                ) && final(self).pos == e + 1,
                Err(k) => r == Err::<Token, LexError>(k),
            },
    {
        let start = self.pos;
        loop
            invariant
                self.chars == old(self).chars,
                self.source == old(self).source,
                self.source@ == self.chars@,
                self.peeked == old(self).peeked,
                self.peek_start == old(self).peek_start,
                start == old(self).pos,
                start <= self.pos <= self.chars@.len(),
                scan_string(self.chars@, start as nat) == scan_string(
                    self.chars@,
                    self.pos as nat,
                ),
            decreases self.chars@.len() - self.pos,
        {
            match self.next_char() {
                None => {
                    return Err(LexError::OpenQuote);
                },
                Some(ch) => {
                    if ch == '"' {
                        let string = self.slice(start, self.pos - 1);
                        return Ok(Token::STRING(string));
                    }
                },
            }
        }
    }

    /// Finishes a number whose first digit has been read.
    fn lex_number(&mut self, start: usize) -> (r: Result<Token, LexError>)
        requires
            start < old(self).pos <= old(self).chars@.len(),
            old(self).source@ == old(self).chars@,
        ensures
            final(self).chars == old(self).chars,
            final(self).source == old(self).source,
            final(self).peeked == old(self).peeked,
            final(self).peek_start == old(self).peek_start,
            final(self).pos <= final(self).chars@.len(),
            match scan_number(old(self).chars@, old(self).pos as nat, false) {
                Ok(e) => r matches Ok(t) && t@ == SpecToken::NUMBER(
                    old(self).chars@.subrange(start as int, e as int),
                ) && final(self).pos == e,
                Err(k) => r == Err::<Token, LexError>(k),
            },
    {
        let mut seen_period = false;
        loop
            invariant
                self.chars == old(self).chars,
                self.source == old(self).source,
                self.source@ == self.chars@,
                self.peeked == old(self).peeked,
                self.peek_start == old(self).peek_start,
                start < old(self).pos <= self.pos <= self.chars@.len(),
                scan_number(self.chars@, old(self).pos as nat, false) == scan_number(
                    self.chars@,
                    self.pos as nat,
                    seen_period,
                ),
            decreases self.chars@.len() - self.pos,
        {
            match self.peek_char() {
                None => {
                    return Ok(Token::NUMBER(self.slice(start, self.pos)));
                },
                Some(ch) => {
                    if ch == '.' {
                        if seen_period {
                            return Err(LexError::DoublePeriod);
                        }
                        self.next_char();
                        seen_period = true;
                    } else if is_digit(ch) {
                        self.next_char();
                    } else if is_ascii_whitespace(ch) || !is_alphabetic(ch) {
                        return Ok(Token::NUMBER(self.slice(start, self.pos)));
                    } else {
                        return Err(LexError::LetterInNumber(self.pos));
                    }
                },
            }
        }
    }

    /// Finishes a keyword or identifier whose first letter has been read.
    fn lex_word(&mut self, start: usize) -> (r: Result<Token, LexError>)
        requires
            start < old(self).pos <= old(self).chars@.len(),
            old(self).source@ == old(self).chars@,
        ensures
            final(self).chars == old(self).chars,
            final(self).source == old(self).source,
            final(self).peeked == old(self).peeked,
            final(self).peek_start == old(self).peek_start,
            final(self).pos <= final(self).chars@.len(),
            match scan_word(old(self).chars@, old(self).pos as nat) {
                Ok(e) => r matches Ok(t) && t@ == keyword_or_ident(
                    old(self).chars@.subrange(start as int, e as int),
                ) && final(self).pos == e,
                Err(k) => r == Err::<Token, LexError>(k),
            },
    {
        loop
            invariant
                self.chars == old(self).chars,
                self.source == old(self).source,
                self.source@ == self.chars@,
                self.peeked == old(self).peeked,
                self.peek_start == old(self).peek_start,
                start < old(self).pos <= self.pos <= self.chars@.len(),
                scan_word(self.chars@, old(self).pos as nat) == scan_word(
                    self.chars@,
                    self.pos as nat,
                ),
            decreases self.chars@.len() - self.pos,
        {
            match self.peek_char() {
                None => {
                    return Ok(Token::try_keyword_or_ident(self.slice(start, self.pos)));
                },
                Some(ch) => {
                    if is_operator(ch) || ch == ')' || is_ascii_whitespace(ch) {
                        return Ok(Token::try_keyword_or_ident(self.slice(start, self.pos)));
                    } else if ch == '_' || is_alphanumeric(ch) {
                        self.next_char();
                    } else {
                        return Err(LexError::InvalidWordChar(self.pos));
                    }
                },
            }
        }
    }

    /// Reads the token at the current character position.
    fn lex(&mut self) -> (r: Result<Token, LexError>)
        requires
            old(self).wf(),
            old(self).peeked is None,
        ensures
            final(self).chars == old(self).chars,
            final(self).source == old(self).source,
            final(self).peeked == old(self).peeked,
            final(self).peek_start == old(self).peek_start,
            final(self).pos <= final(self).chars@.len(),
            match lex_token(old(self).chars@, old(self).pos as nat) {
                Ok((t, e)) => r matches Ok(tok) && tok@ == t && final(self).pos == e,
                Err(k) => r == Err::<Token, LexError>(k),
            },
    {
        proof {
            reveal(lex_token);
        }
        self.skip_whitespace();
        proof {
            lemma_skip_blanks(self.chars@, old(self).pos as nat);
        }
        let start = self.pos;
        match self.next_char() {
            None => Ok(Token::EOF),
            Some(ch) => {
                if ch == '+' {
                    Ok(Token::PLUS)
                } else if ch == '-' {
                    Ok(Token::MINUS)
                } else if ch == '*' {
                    Ok(Token::ASTERISK)
                } else if ch == '/' {
                    Ok(Token::SLASH)
                } else if ch == '\n' {
                    Ok(Token::NEWLINE)
                } else if ch == '(' {
                    Ok(Token::OPENPAREN)
                } else if ch == ')' {
                    Ok(Token::CLOSEPAREN)
                } else if ch == '=' {
                    Ok(self.lex_operator(StartOperator::EQ))
                } else if ch == '>' {
                    Ok(self.lex_operator(StartOperator::GT))
                } else if ch == '<' {
                    Ok(self.lex_operator(StartOperator::LT))
                } else if ch == '!' {
                    Ok(self.lex_operator(StartOperator::NOT))
                } else if ch == '&' || ch == '|' {
                    match self.peek_char() {
                        Some(next) => {
                            if next == ch {
                                self.next_char();
                                if ch == '&' {
                                    Ok(Token::AND)
                                } else {
                                    Ok(Token::OR)
                                }
                            } else {
                                Err(LexError::UnknownStart(start))
                            }
                        },
                        None => Err(LexError::UnknownStart(start)),
                    }
                } else if ch == '"' {
                    self.lex_string()
                } else if is_digit(ch) {
                    self.lex_number(start)
                } else if is_alphabetic(ch) {
                    self.lex_word(start)
                } else {
                    Err(LexError::UnknownStart(start))
                }
            },
        }
    }

    /// Hands out the next token, or the error that stops the lexer; after an
    /// error the lexer stays where it was.
    pub fn next_token(&mut self) -> (r: Result<Token, Error>)
        requires
            old(self).wf(),
        ensures
            final(self).wf(),
            final(self).input() == old(self).input(),
            match lex_token(old(self).input(), old(self).position()) {
                Ok((t, e)) => r matches Ok(tok) && tok@ == t && final(self).position() == e,
                Err(k) => r matches Err(err) && err@ == lex_error_view(old(self).input(), k)
                    && final(self).position() == old(self).position(),
            },
    {
        if self.peeked.is_some() {
            let t = self.peeked.take();
            match t {
                Some(t) => return Ok(t),
                None => return Ok(Token::EOF),
            }
        }
        let start = self.pos;
        match self.lex() {
            Ok(t) => Ok(t),
            Err(k) => {
                proof {
                    lemma_lex_error_positions(self.chars@, start as nat);
                }
                self.pos = start;
                Err(self.error(k))
            },
        }
    }

    /// The next token, which stays to be handed out, or the error that stops
    /// the lexer.
    pub fn peek_token(&mut self) -> (r: Result<Token, Error>)
        requires
            old(self).wf(),
        ensures
            final(self).wf(),
            final(self).input() == old(self).input(),
            final(self).position() == old(self).position(),
            match lex_token(old(self).input(), old(self).position()) {
                Ok((t, e)) => r matches Ok(tok) && tok@ == t,
                Err(k) => r matches Err(err) && err@ == lex_error_view(old(self).input(), k),
            },
    {
        match &self.peeked {
            Some(t) => {
                return Ok(clone_token(t));
            },
            None => {},
        }
        let start = self.pos;
        match self.lex() {
            Ok(t) => {
                proof {
                    lemma_lex_token_bounds(self.chars@, start as nat);
                }
                let copy = clone_token(&t);
                self.peeked = Some(t);
                self.peek_start = start;
                Ok(copy)
            },
            Err(k) => {
                proof {
                    lemma_lex_error_positions(self.chars@, start as nat);
                }
                self.pos = start;
                Err(self.error(k))
            },
        }
    }

    /// All the tokens of the input, up to and including the end of input.
    pub fn tokens(self) -> (r: Result<Vec<Token>, Error>)
        requires
            self.wf(),
        ensures
            match lex_all(self.input(), self.position()) {
                Ok(ts) => r matches Ok(v) && token_views(v@) == ts,
                Err(k) => r matches Err(err) && err@ == lex_error_view(self.input(), k),
            },
    {
        let mut lexer = self;
        lexer.collect_tokens()
    }

    fn collect_tokens(&mut self) -> (r: Result<Vec<Token>, Error>)
        requires
            old(self).wf(),
        ensures
            match lex_all(old(self).input(), old(self).position()) {
                Ok(ts) => r matches Ok(v) && token_views(v@) == ts,
                Err(k) => r matches Err(err) && err@ == lex_error_view(old(self).input(), k),
            },
    {
        let ghost s = old(self).input();
        let ghost p0 = old(self).position();
        let mut out: Vec<Token> = Vec::new();
        proof {
            match lex_all(s, p0) {
                Ok(rest) => {
                    assert(token_views(out@) + rest =~= rest);
                },
                Err(_) => {},
            }
        }
        loop
            invariant
                self.wf(),
                self.input() == s,
                s == old(self).input(),
                p0 == old(self).position(),
                match lex_all(s, self.position()) {
                    Ok(rest) => lex_all(s, p0) == Ok::<Seq<SpecToken>, LexError>(
                        token_views(out@) + rest,
                    ),
                    Err(k) => lex_all(s, p0) == Err::<Seq<SpecToken>, LexError>(k),
                },
            decreases s.len() - self.position(),
        {
            let ghost p = self.position();
            let ghost prev = token_views(out@);
            proof {
                self.lemma_wf();
                lemma_lex_token_bounds(s, p);
            }
            let t = self.next_token();
            match t {
                Ok(t) => {
                    let is_eof = t.is_eof();
                    let ghost tv = t@;
                    out.push(t);
                    proof {
                        assert(token_views(out@) =~= prev.push(tv));
                        if is_eof {
                            assert(prev + seq![tv] =~= prev.push(tv));
                        } else {
                            self.lemma_wf();
                            match lex_all(s, self.position()) {
                                Ok(rest) => {
                                    assert(prev + (seq![tv] + rest) =~= prev.push(tv) + rest);
                                },
                                Err(k) => {},
                            }
                        }
                    }
                    if is_eof {
                        return Ok(out);
                    }
                },
                Err(e) => {
                    return Err(e);
                },
            }
        }
    }
}

} // verus!
