use vstd::prelude::*;
use vstd::string::StringSliceAdditionalSpecFns;

verus! {

/// The kinds of tokens of the Lox language.
#[derive(Debug, PartialEq, Eq, Copy, Clone, Structural)]
pub enum TokenType {
    EOF,
    Error,
    LeftParen,
    RightParen,
    LeftBrace,
    RightBrace,
    LeftBracket,
    RightBracket,
    Comma,
    Dot,
    Minus,
    Plus,
    Colon,
    Semicolon,
    Slash,
    Star,
    Bang,
    BangEqual,
    Equal,
    EqualEqual,
    Greater,
    GreaterEqual,
    Less,
    LessEqual,
    Identifier,
    String,
    Number,
    And,
    Class,
    Else,
    False,
    For,
    Fun,
    Switch,
    Case,
    Default,
    If,
    Nil,
    Or,
    Print,
    True,
    Var,
    While,
    Return,
    Super,
    This,
    Delete,
    Dummy,
}

/// A token: its kind, the bytes of the source it spans, and the line it ends on.
#[derive(Debug, Clone, Copy)]
pub struct Token<'src> {
    pub lexeme: &'src [u8],
    pub line: usize,
    pub kind: TokenType,
}

impl<'src> Default for Token<'src> {
    /// The placeholder token the compiler starts with.
    fn default() -> (t: Self)
        ensures
            t.kind == TokenType::Dummy,
            t.lexeme@.len() == 0,
            t.line == 0,
    {
        let empty: &[u8] = &[];
        Token { kind: TokenType::Dummy, lexeme: empty, line: 0 }
    }
}

// ---------------------------------------------------------------------------
// The lexical grammar, stated over the source bytes.
// ---------------------------------------------------------------------------

/// The byte at `i`, or 0 past either end of the source.
pub open spec fn peek_at(s: Seq<u8>, i: int) -> u8 {
    if 0 <= i < s.len() {
        s[i]
    } else {
        0
    }
}

pub open spec fn is_digit(c: u8) -> bool {
    48u8 <= c <= 57u8
}

/// Bytes that may start an identifier.
pub open spec fn is_ident_start(c: u8) -> bool {
    (97u8 <= c <= 122u8) || (65u8 <= c <= 90u8) || c == 95u8
}

/// Bytes that may continue an identifier (ASCII letters and digits).
pub open spec fn is_alphanumeric(c: u8) -> bool {
    (97u8 <= c <= 122u8) || (65u8 <= c <= 90u8) || is_digit(c)
}

/// The bytes that continue a multi-byte UTF-8 character.
pub open spec fn is_continuation(c: u8) -> bool {
    128u8 <= c <= 191u8
}

/// The end of the run of continuation bytes starting at `i`: the end of the
/// character whose first byte lies before `i`.
pub open spec fn char_end(s: Seq<u8>, i: int) -> int
    decreases s.len() - i,
{
    if 0 <= i < s.len() && is_continuation(s[i]) {
        char_end(s, i + 1)
    } else {
        i
    }
}

/// The number of line breaks among the first `n` bytes of `s`.
pub open spec fn count_newlines(s: Seq<u8>, n: int) -> nat
    decreases n,
{
    if n <= 0 || n > s.len() {
        0
    } else {
        count_newlines(s, n - 1) + if s[n - 1] == 10u8 {
            1nat
        } else {
            0nat
        }
    }
}

/// Where a `//` comment starting at `i` ends: the next line break, or the end.
pub open spec fn comment_end(s: Seq<u8>, i: int) -> int
    decreases s.len() - i,
{
    if i < 0 || i >= s.len() || s[i] == 10u8 {
        i
    } else {
        comment_end(s, i + 1)
    }
}

/// Skips blanks, line breaks and comments from `i`; gives the new position and line.
pub open spec fn skip_whitespace(s: Seq<u8>, i: int, line: int) -> (int, int)
    decreases s.len() - i,
{
    if i < 0 || i >= s.len() {
        (i, line)
    } else {
        let c = s[i];
        if c == 32u8 || c == 13u8 || c == 9u8 {
            skip_whitespace(s, i + 1, line)
        } else if c == 10u8 {
            skip_whitespace(s, i + 1, line + 1)
        } else if c == 47u8 && peek_at(s, i + 1) == 47u8 {
            proof {
                lemma_comment_end(s, i + 2);
            }
            skip_whitespace(s, comment_end(s, i + 2), line)
        } else {
            (i, line)
        }
    }
}

/// The end of the run of digits starting at `i`.
pub open spec fn digits_end(s: Seq<u8>, i: int) -> int
    decreases s.len() - i,
{
    if 0 <= i < s.len() && is_digit(s[i]) {
        digits_end(s, i + 1)
    } else {
        i
    }
}

/// The end of a number literal whose first digit ends at `i`.
pub open spec fn number_end(s: Seq<u8>, i: int) -> int {
    let j = digits_end(s, i);
    if peek_at(s, j) == 46u8 && is_digit(peek_at(s, j + 1)) {
        digits_end(s, j + 1)
    } else {
        j
    }
}

/// The end of the run of alphanumeric bytes starting at `i`.
pub open spec fn alnum_end(s: Seq<u8>, i: int) -> int
    decreases s.len() - i,
{
    if 0 <= i < s.len() && is_alphanumeric(s[i]) {
        alnum_end(s, i + 1)
    } else {
        i
    }
}

/// A string literal whose opening quote ends at `i`: its kind (`String`, or
/// `Error` when unterminated), its end and the line it ends on.
pub open spec fn string_literal(s: Seq<u8>, i: int, line: int) -> (TokenType, int, int)
    decreases s.len() - i,
{
    if i < 0 || i >= s.len() {
        (TokenType::Error, i, line)
    } else if s[i] == 34u8 {
        (TokenType::String, i + 1, line)
    } else if s[i] == 10u8 {
        string_literal(s, i + 1, line + 1)
    } else {
        string_literal(s, i + 1, line)
    }
}

/// The reserved words and their token kinds; any other word is an identifier.
pub open spec fn keyword_kind(w: Seq<u8>) -> TokenType {
    if w == seq![97u8, 110u8, 100u8] {
        TokenType::And
    } else if w == seq![99u8, 97u8, 115u8, 101u8] {
        TokenType::Case
    } else if w == seq![99u8, 108u8, 97u8, 115u8, 115u8] {
        TokenType::Class
    } else if w == seq![100u8, 101u8, 102u8, 97u8, 117u8, 108u8, 116u8] {
        TokenType::Default
    } else if w == seq![100u8, 101u8, 108u8, 101u8, 116u8, 101u8] {
        TokenType::Delete
    } else if w == seq![101u8, 108u8, 115u8, 101u8] {
        TokenType::Else
    } else if w == seq![102u8, 97u8, 108u8, 115u8, 101u8] {
        TokenType::False
    } else if w == seq![102u8, 111u8, 114u8] {
        TokenType::For
    } else if w == seq![102u8, 117u8, 110u8] {
        TokenType::Fun
    } else if w == seq![105u8, 102u8] {
        TokenType::If
    } else if w == seq![110u8, 105u8, 108u8] {
        TokenType::Nil
    } else if w == seq![111u8, 114u8] {
        TokenType::Or
    } else if w == seq![112u8, 114u8, 105u8, 110u8, 116u8] {
        TokenType::Print
    } else if w == seq![114u8, 101u8, 116u8, 117u8, 114u8, 110u8] {
        TokenType::Return
    } else if w == seq![115u8, 117u8, 112u8, 101u8, 114u8] {
        TokenType::Super
    } else if w == seq![115u8, 119u8, 105u8, 116u8, 99u8, 104u8] {
        TokenType::Switch
    } else if w == seq![116u8, 104u8, 105u8, 115u8] {
        TokenType::This
    } else if w == seq![116u8, 114u8, 117u8, 101u8] {
        TokenType::True
    } else if w == seq![118u8, 97u8, 114u8] {
        TokenType::Var
    } else if w == seq![119u8, 104u8, 105u8, 108u8, 101u8] {
        TokenType::While
    } else {
        TokenType::Identifier
    }
}

/// Tokens made of one byte that nothing can extend.
pub open spec fn single_byte_kind(c: u8) -> Option<TokenType> {
    if c == 40u8 {
        Some(TokenType::LeftParen)
    } else if c == 41u8 {
        Some(TokenType::RightParen)
    } else if c == 91u8 {
        Some(TokenType::LeftBracket)
    } else if c == 93u8 {
        Some(TokenType::RightBracket)
    } else if c == 123u8 {
        Some(TokenType::LeftBrace)
    } else if c == 125u8 {
        Some(TokenType::RightBrace)
    } else if c == 58u8 {
        Some(TokenType::Colon)
    } else if c == 59u8 {
        Some(TokenType::Semicolon)
    } else if c == 44u8 {
        Some(TokenType::Comma)
    } else if c == 46u8 {
        Some(TokenType::Dot)
    } else if c == 45u8 {
        Some(TokenType::Minus)
    } else if c == 43u8 {
        Some(TokenType::Plus)
    } else if c == 47u8 {
        Some(TokenType::Slash)
    } else if c == 42u8 {
        Some(TokenType::Star)
    } else {
        None
    }
}

/// Tokens of one byte that an `=` right behind extends: (alone, with `=`).
pub open spec fn equal_pair_kinds(c: u8) -> Option<(TokenType, TokenType)> {
    if c == 33u8 {
        Some((TokenType::Bang, TokenType::BangEqual))
    } else if c == 61u8 {
        Some((TokenType::Equal, TokenType::EqualEqual))
    } else if c == 60u8 {
        Some((TokenType::Less, TokenType::LessEqual))
    } else if c == 62u8 {
        Some((TokenType::Greater, TokenType::GreaterEqual))
    } else {
        None
    }
}

/// The next token of `s` from position `cur` on line `line`:
/// (kind, start, end, line after the token).
pub open spec fn scan(s: Seq<u8>, cur: int, line: int) -> (TokenType, int, int, int) {
    let (i, l) = skip_whitespace(s, cur, line);
    if i < 0 || i >= s.len() {
        (TokenType::EOF, i, i, l)
    } else {
        let c = s[i];
        if single_byte_kind(c) is Some {
            (single_byte_kind(c).unwrap(), i, i + 1, l)
        } else if equal_pair_kinds(c) is Some {
            if peek_at(s, i + 1) == 61u8 {
                (equal_pair_kinds(c).unwrap().1, i, i + 2, l)
            } else {
                (equal_pair_kinds(c).unwrap().0, i, i + 1, l)
            }
        } else if is_digit(c) {
            (TokenType::Number, i, number_end(s, i + 1), l)
        } else if is_ident_start(c) {
            let e = alnum_end(s, i + 1);
            (keyword_kind(s.subrange(i, e)), i, e, l)
        } else if c == 34u8 {
            let r = string_literal(s, i + 1, l);
            (r.0, i, r.1, r.2)
        } else {
            (TokenType::Error, i, char_end(s, i + 1), l)
        }
    }
}

// ---------------------------------------------------------------------------
// Facts about the grammar.
// ---------------------------------------------------------------------------

/// There are no more line breaks than bytes.
proof fn lemma_count_newlines_bound(s: Seq<u8>, n: int)
    ensures
        count_newlines(s, n) <= if n < 0 { 0 } else { n },
    decreases n,
{
    if n > 0 && n <= s.len() {
        lemma_count_newlines_bound(s, n - 1);
    }
}

proof fn lemma_count_newlines_step(s: Seq<u8>, i: int)
    requires
        0 <= i < s.len(),
    ensures
        count_newlines(s, i + 1) == count_newlines(s, i) + if s[i] == 10u8 {
            1nat
        } else {
            0nat
        },
{
}

pub proof fn lemma_comment_end(s: Seq<u8>, i: int)
    requires
        0 <= i <= s.len(),
    ensures
        i <= comment_end(s, i) <= s.len(),
        forall|k: int| i <= k < comment_end(s, i) ==> s[k] != 10u8,
        comment_end(s, i) < s.len() ==> s[comment_end(s, i)] == 10u8,
    decreases s.len() - i,
{
    if i < s.len() && s[i] != 10u8 {
        lemma_comment_end(s, i + 1);
    }
}

proof fn lemma_digits_end(s: Seq<u8>, i: int)
    requires
        0 <= i <= s.len(),
    ensures
        i <= digits_end(s, i) <= s.len(),
        forall|k: int| i <= k < digits_end(s, i) ==> is_digit(#[trigger] s[k]),
        !is_digit(peek_at(s, digits_end(s, i))),
    decreases s.len() - i,
{
    if i < s.len() && is_digit(s[i]) {
        lemma_digits_end(s, i + 1);
    }
}

proof fn lemma_char_end(s: Seq<u8>, i: int)
    requires
        0 <= i <= s.len(),
    ensures
        i <= char_end(s, i) <= s.len(),
        forall|k: int| i <= k < char_end(s, i) ==> is_continuation(#[trigger] s[k]),
        !is_continuation(peek_at(s, char_end(s, i))),
    decreases s.len() - i,
{
    if i < s.len() && is_continuation(s[i]) {
        lemma_char_end(s, i + 1);
    }
}

proof fn lemma_alnum_end(s: Seq<u8>, i: int)
    requires
        0 <= i <= s.len(),
    ensures
        i <= alnum_end(s, i) <= s.len(),
        forall|k: int| i <= k < alnum_end(s, i) ==> is_alphanumeric(#[trigger] s[k]),
        !is_alphanumeric(peek_at(s, alnum_end(s, i))),
    decreases s.len() - i,
{
    if i < s.len() && is_alphanumeric(s[i]) {
        lemma_alnum_end(s, i + 1);
    }
}

proof fn lemma_string_literal(s: Seq<u8>, i: int, line: int)
    requires
        0 <= i <= s.len(),
        line == 1 + count_newlines(s, i),
    ensures
        i <= string_literal(s, i, line).1 <= s.len(),
        string_literal(s, i, line).2 == 1 + count_newlines(s, string_literal(s, i, line).1),
        string_literal(s, i, line).0 == TokenType::Error ==> string_literal(s, i, line).1 == s.len(),
        string_literal(s, i, line).0 == TokenType::String ==> string_literal(s, i, line).1 > i,
        string_literal(s, i, line).0 == TokenType::String || string_literal(s, i, line).0
            == TokenType::Error,
    decreases s.len() - i,
{
    if i < s.len() && s[i] != 34u8 {
        lemma_count_newlines_step(s, i);
        if s[i] == 10u8 {
            lemma_string_literal(s, i + 1, line + 1);
        } else {
            lemma_string_literal(s, i + 1, line);
        }
    } else if i < s.len() {
        lemma_count_newlines_step(s, i);
    }
}

proof fn lemma_skip_whitespace(s: Seq<u8>, i: int, line: int)
    requires
        0 <= i <= s.len(),
        line == 1 + count_newlines(s, i),
    ensures
        i <= skip_whitespace(s, i, line).0 <= s.len(),
        skip_whitespace(s, i, line).1 == 1 + count_newlines(s, skip_whitespace(s, i, line).0),
        skip_whitespace(s, i, line).0 < s.len() ==> s[skip_whitespace(s, i, line).0] != 10u8,
    decreases s.len() - i,
{
    if i < s.len() {
        let c = s[i];
        lemma_count_newlines_step(s, i);
        if c == 32u8 || c == 13u8 || c == 9u8 {
            lemma_skip_whitespace(s, i + 1, line);
        } else if c == 10u8 {
            lemma_skip_whitespace(s, i + 1, line + 1);
        } else if c == 47u8 && peek_at(s, i + 1) == 47u8 {
            let j = comment_end(s, i + 2);
            lemma_comment_end(s, i + 2);
            lemma_count_newlines_range(s, i, j);
            lemma_skip_whitespace(s, j, line);
        }
    }
}

/// A stretch without line breaks adds nothing to the line count.
proof fn lemma_count_newlines_range(s: Seq<u8>, i: int, j: int)
    requires
        0 <= i <= j <= s.len(),
        forall|k: int| i <= k < j ==> s[k] != 10u8,
    ensures
        count_newlines(s, j) == count_newlines(s, i),
    decreases j - i,
{
    if j > i {
        lemma_count_newlines_range(s, i, j - 1);
        lemma_count_newlines_step(s, j - 1);
    }
}

/// The facts a scan keeps: where it ends, and the line count it leaves.
#[verifier::spinoff_prover]
pub proof fn lemma_scan(s: Seq<u8>, cur: int, line: int)
    requires
        0 <= cur <= s.len(),
        line == 1 + count_newlines(s, cur),
    ensures
        cur <= scan(s, cur, line).1 <= scan(s, cur, line).2 <= s.len(),
        scan(s, cur, line).3 == 1 + count_newlines(s, scan(s, cur, line).2),
        scan(s, cur, line).0 == TokenType::EOF <==> scan(s, cur, line).1 == s.len(),
        scan(s, cur, line).0 == TokenType::EOF ==> scan(s, cur, line).2 == s.len(),
        scan(s, cur, line).0 != TokenType::EOF ==> scan(s, cur, line).1 < scan(s, cur, line).2,
        scan(s, cur, line).0 == TokenType::String ==> scan(s, cur, line).2 - scan(s, cur, line).1
            >= 2,
{
    lemma_skip_whitespace(s, cur, line);
    let (i, l) = skip_whitespace(s, cur, line);
    if i < s.len() {
        let c = s[i];
        lemma_count_newlines_step(s, i);
        if single_byte_kind(c) is Some {
            assert(scan(s, cur, line).2 == i + 1);
            assert(scan(s, cur, line).3 == 1 + count_newlines(s, scan(s, cur, line).2));
        } else if equal_pair_kinds(c) is Some {
            if peek_at(s, i + 1) == 61u8 {
                lemma_count_newlines_step(s, i + 1);
            }
            assert(scan(s, cur, line).3 == 1 + count_newlines(s, scan(s, cur, line).2));
        } else if is_digit(c) {
            lemma_digits_end(s, i + 1);
            let j = digits_end(s, i + 1);
            lemma_count_newlines_range(s, i + 1, j);
            if peek_at(s, j) == 46u8 && is_digit(peek_at(s, j + 1)) {
                lemma_digits_end(s, j + 1);
                lemma_count_newlines_range(s, j, digits_end(s, j + 1));
                assert(count_newlines(s, digits_end(s, j + 1)) == count_newlines(s, i + 1));
            }
            assert(scan(s, cur, line).3 == 1 + count_newlines(s, scan(s, cur, line).2));
        } else if is_ident_start(c) {
            lemma_alnum_end(s, i + 1);
            lemma_count_newlines_range(s, i + 1, alnum_end(s, i + 1));
            assert(scan(s, cur, line).3 == 1 + count_newlines(s, scan(s, cur, line).2));
        } else if c == 34u8 {
            lemma_string_literal(s, i + 1, l);
            assert(scan(s, cur, line).3 == 1 + count_newlines(s, scan(s, cur, line).2));
        } else {
            lemma_char_end(s, i + 1);
            lemma_count_newlines_range(s, i + 1, char_end(s, i + 1));
            assert(scan(s, cur, line).3 == 1 + count_newlines(s, scan(s, cur, line).2));
        }
    }
}

/// The next token of `s` from position `cur` on line `line`: `scan`, kept
/// folded so that reasoning over many tokens does not unfold it.
#[verifier::opaque]
pub open spec fn next_token(s: Seq<u8>, cur: int, line: int) -> (TokenType, int, int, int) {
    scan(s, cur, line)
}

/// What a scan keeps, for the folded form.
pub proof fn lemma_next_token(s: Seq<u8>, cur: int, line: int)
    requires
        0 <= cur <= s.len(),
        line == 1 + count_newlines(s, cur),
    ensures
        next_token(s, cur, line) == scan(s, cur, line),
        cur <= next_token(s, cur, line).1 <= next_token(s, cur, line).2 <= s.len(),
        next_token(s, cur, line).3 == 1 + count_newlines(s, next_token(s, cur, line).2),
        next_token(s, cur, line).0 == TokenType::EOF ==> next_token(s, cur, line).1 == s.len()
            && next_token(s, cur, line).2 == s.len(),
        next_token(s, cur, line).0 != TokenType::EOF ==> next_token(s, cur, line).1 < next_token(
            s,
            cur,
            line,
        ).2,
{
    reveal(next_token);
    lemma_scan(s, cur, line);
}

/// The tokens of `s` from position `cur` on line `line`, each
/// (kind, start, end, line after it), up to and including the first `EOF`.
pub open spec fn tokens(s: Seq<u8>, cur: int, line: int) -> Seq<(TokenType, int, int, int)>
    decreases s.len() - cur,
    when 0 <= cur <= s.len() && line == 1 + count_newlines(s, cur)
{
    let t = next_token(s, cur, line);
    if t.0 == TokenType::EOF {
        seq![t]
    } else {
        proof {
            lemma_next_token(s, cur, line);
        }
        seq![t].add(tokens(s, t.2, t.3))
    }
}

/// The tokens of a source, from any position on: the first is what scanning
/// from there gives, and each next one what scanning from the end of the one
/// before gives; none overlaps the next; only the last is `EOF`, and it sits
/// at the end of the source; and there is at most one token more than bytes
/// left.
#[verifier::spinoff_prover]
pub proof fn lemma_tokens(s: Seq<u8>, cur: int, line: int)
    requires
        0 <= cur <= s.len(),
        line == 1 + count_newlines(s, cur),
    ensures
        ({
            let ts = tokens(s, cur, line);
            &&& 1 <= ts.len() <= s.len() - cur + 1
            &&& ts[0] == scan(s, cur, line)
            &&& forall|i: int|
                0 <= i < ts.len() - 1 ==> #[trigger] ts[i + 1] == next_token(s, ts[i].2, ts[i].3)
            &&& forall|i: int| 0 <= i < ts.len() - 1 ==> #[trigger] ts[i].0 != TokenType::EOF
            &&& forall|i: int|
                0 <= i < ts.len() - 1 ==> cur <= #[trigger] ts[i].1 < ts[i].2 <= ts[i + 1].1
            &&& ts.last().0 == TokenType::EOF
            &&& ts.last().1 == s.len() && ts.last().2 == s.len()
        }),
    decreases s.len() - cur,
{
    lemma_next_token(s, cur, line);
    let t = next_token(s, cur, line);
    let ts = tokens(s, cur, line);
    if t.0 != TokenType::EOF {
        lemma_tokens(s, t.2, t.3);
        let rest = tokens(s, t.2, t.3);
        assert(ts == seq![t].add(rest));
        lemma_next_token(s, t.2, t.3);
        assert forall|i: int| 0 <= i < ts.len() - 1 implies #[trigger] ts[i + 1] == next_token(
            s,
            ts[i].2,
            ts[i].3,
        ) by {
            if i > 0 {
                let k = i - 1;
                assert(ts[i] == rest[k]);
                assert(ts[i + 1] == rest[k + 1]);
                assert(rest[k + 1] == next_token(s, rest[k].2, rest[k].3));
            } else {
                assert(ts[1] == rest[0]);
            }
        }
        assert forall|i: int| 0 <= i < ts.len() - 1 implies #[trigger] ts[i].0 != TokenType::EOF by {
            if i > 0 {
                assert(ts[i] == rest[i - 1]);
            }
        }
        assert forall|i: int| 0 <= i < ts.len() - 1 implies cur <= #[trigger] ts[i].1 < ts[i].2
            <= ts[i + 1].1 by {
            if i > 0 {
                assert(ts[i] == rest[i - 1]);
                assert(ts[i + 1] == rest[i]);
            } else {
                assert(ts[1] == rest[0]);
            }
        }
    } else {
        assert(ts == seq![t]);
    }
}

/// Once the source is used up, every further scan gives `EOF` and moves nothing.
pub proof fn lemma_eof_is_stable(s: Seq<u8>, line: int)
    ensures
        scan(s, s.len() as int, line) == (TokenType::EOF, s.len() as int, s.len() as int, line),
{
}

// ---------------------------------------------------------------------------
// The scanner.
// ---------------------------------------------------------------------------

/// Splits Lox source text into tokens, one at a time.
#[derive(Debug)]
pub struct Scanner<'src> {
    bytes: &'src [u8],
    start: usize,
    current: usize,
    line: usize,
}

impl<'src> Scanner<'src> {
    /// The source bytes.
    pub closed spec fn source(&self) -> Seq<u8> {
        self.bytes@
    }

    /// Where the last token started.
    pub closed spec fn start_pos(&self) -> int {
        self.start as int
    }

    /// How far the scanner has read.
    pub closed spec fn pos(&self) -> int {
        self.current as int
    }

    /// The line the scanner is on.
    pub closed spec fn line_no(&self) -> int {
        self.line as int
    }

    /// The scanner's internal invariant: positions in bounds and the line
    /// number counting the line breaks read so far.
    pub closed spec fn wf(&self) -> bool {
        &&& self.start <= self.current <= self.bytes@.len()
        &&& self.bytes@.len() <= isize::MAX
        &&& self.line == 1 + count_newlines(self.bytes@, self.current as int)
    }

    /// What well-formedness gives a caller.
    pub proof fn lemma_wf(&self)
        requires
            self.wf(),
        ensures
            0 <= self.start_pos() <= self.pos() <= self.source().len() <= isize::MAX,
            self.line_no() == 1 + count_newlines(self.source(), self.pos()),
    {
    }

    /// A scanner at the start of `source`, on line 1.
    pub fn new(source: &'src str) -> (s: Self)
        requires
            source.spec_bytes().len() <= isize::MAX,
        ensures
            s.wf(),
            s.source() == source.spec_bytes(),
            s.pos() == 0,
            s.start_pos() == 0,
            s.line_no() == 1,
    {
        let bytes = source.as_bytes();
        Scanner { bytes, start: 0, current: 0, line: 1 }
    }

    /// A scanner at the start of the given bytes, on line 1.
    pub fn from_bytes(bytes: &'src [u8]) -> (s: Self)
        requires
            bytes@.len() <= isize::MAX,
        ensures
            s.wf(),
            s.source() == bytes@,
            s.pos() == 0,
            s.start_pos() == 0,
            s.line_no() == 1,
    {
        Scanner { bytes, start: 0, current: 0, line: 1 }
    }

    /// Scans the next token. At the end of the source it gives `EOF` (again and
    /// again). The token's lexeme is exactly the source bytes it spans.
    pub fn scan_token(&mut self) -> (tok: Token<'src>)
        requires
            old(self).wf(),
        ensures
            final(self).wf(),
            final(self).source() == old(self).source(),
            ({
                let r = scan(old(self).source(), old(self).pos(), old(self).line_no());
                &&& tok.kind == r.0
                &&& final(self).start_pos() == r.1
                &&& final(self).pos() == r.2
                &&& final(self).line_no() == r.3
                &&& tok.line == r.3
                &&& tok.lexeme@ == old(self).source().subrange(r.1, r.2)
            }),
            tok.kind != TokenType::EOF ==> final(self).pos() > old(self).pos(),
            tok.kind == TokenType::EOF ==> final(self).pos() == old(self).source().len(),
    {
        proof {
            lemma_scan(self.bytes@, self.current as int, self.line as int);
            lemma_skip_whitespace(self.bytes@, self.current as int, self.line as int);
        }
        self.skip_whitespace();
        self.start = self.current;

        if self.is_at_end() {
            return self.make_token(TokenType::EOF);
        }
        let c = self.advance();

        let token_type = if c == 40u8 {
            TokenType::LeftParen
        } else if c == 41u8 {
            TokenType::RightParen
        } else if c == 91u8 {
            TokenType::LeftBracket
        } else if c == 93u8 {
            TokenType::RightBracket
        } else if c == 123u8 {
            TokenType::LeftBrace
        } else if c == 125u8 {
            TokenType::RightBrace
        } else if c == 58u8 {
            TokenType::Colon
        } else if c == 59u8 {
            TokenType::Semicolon
        } else if c == 44u8 {
            TokenType::Comma
        } else if c == 46u8 {
            TokenType::Dot
        } else if c == 45u8 {
            TokenType::Minus
        } else if c == 43u8 {
            TokenType::Plus
        } else if c == 47u8 {
            TokenType::Slash
        } else if c == 42u8 {
            TokenType::Star
        } else if c == 33u8 {
            if self.match_next(61u8) {
                TokenType::BangEqual
            } else {
                TokenType::Bang
            }
        } else if c == 61u8 {
            if self.match_next(61u8) {
                TokenType::EqualEqual
            } else {
                TokenType::Equal
            }
        } else if c == 60u8 {
            if self.match_next(61u8) {
                TokenType::LessEqual
            } else {
                TokenType::Less
            }
        } else if c == 62u8 {
            if self.match_next(61u8) {
                TokenType::GreaterEqual
            } else {
                TokenType::Greater
            }
        } else if 48u8 <= c && c <= 57u8 {
            self.number()
        } else if (97u8 <= c && c <= 122u8) || (65u8 <= c && c <= 90u8) || c == 95u8 {
            self.identifier()
        } else if c == 34u8 {
            self.string()
        } else {
            self.skip_continuation();
            TokenType::Error
        };

        self.make_token(token_type)
    }

    fn is_at_end(&self) -> (b: bool)
        requires
            self.wf(),
        ensures
            b == (self.current >= self.bytes@.len()),
    {
        self.current >= self.bytes.len()
    }

    /// Scans the rest of a string literal whose opening quote was just read.
    #[verifier::spinoff_prover]
    fn string(&mut self) -> (k: TokenType)
        requires
            old(self).wf(),
            old(self).current >= 1,
        ensures
            final(self).wf(),
            final(self).bytes == old(self).bytes,
            final(self).start == old(self).start,
            ({
                let r = string_literal(old(self).bytes@, old(self).current as int, old(self).line as int);
                &&& k == r.0
                &&& final(self).current == r.1
                &&& final(self).line == r.2
            }),
    {
        let ghost s = self.bytes@;
        let ghost target = string_literal(s, self.current as int, self.line as int);
        proof {
            lemma_string_literal(s, self.current as int, self.line as int);
        }
        loop
            invariant
                self.wf(),
                self.bytes == old(self).bytes,
                self.bytes@ == s,
                self.start == old(self).start,
                string_literal(s, self.current as int, self.line as int) == target,
                target == string_literal(old(self).bytes@, old(self).current as int, old(self).line as int),
            decreases s.len() - self.current,
        {
            let c = self.peek();
            proof {
                if self.current < s.len() {
                    lemma_count_newlines_step(s, self.current as int);
                }
            }
            if self.current < self.bytes.len() && c == 34u8 {
                self.advance();
                return TokenType::String;
            } else if self.current < self.bytes.len() && c == 10u8 {
                proof {
                    lemma_count_newlines_bound(s, self.current as int);
                }
                self.line = self.line + 1;
                self.current = self.current + 1;
            } else if self.is_at_end() {
                return TokenType::Error;
            } else {
                self.advance();
            }
        }
    }

    /// Scans the rest of a number literal whose first digit was just read.
    fn number(&mut self) -> (k: TokenType)
        requires
            old(self).wf(),
        ensures
            final(self).wf(),
            final(self).bytes == old(self).bytes,
            final(self).start == old(self).start,
            final(self).line == old(self).line,
            final(self).current == number_end(old(self).bytes@, old(self).current as int),
            k == TokenType::Number,
    {
        let ghost s = self.bytes@;
        proof {
            lemma_digits_end(s, self.current as int);
        }
        self.skip_digits();
        if self.peek() == 46u8 && is_ascii_digit(self.peek_next()) {
            self.advance();
            proof {
                lemma_digits_end(s, self.current as int);
            }
            self.skip_digits();
        }
        TokenType::Number
    }

    /// Moves past the run of digits at the current position.
    /// Skips the rest of a character of more than one byte, so that a token
    /// never splits a character.
    fn skip_continuation(&mut self)
        requires
            old(self).wf(),
        ensures
            final(self).wf(),
            final(self).bytes == old(self).bytes,
            final(self).start == old(self).start,
            final(self).line == old(self).line,
            final(self).current == char_end(old(self).bytes@, old(self).current as int),
    {
        let ghost s = self.bytes@;
        let ghost target = char_end(s, self.current as int);
        proof {
            lemma_char_end(s, self.current as int);
        }
        while 128u8 <= self.peek() && self.peek() <= 191u8
            invariant
                self.wf(),
                self.bytes == old(self).bytes,
                self.bytes@ == s,
                self.start == old(self).start,
                self.line == old(self).line,
                char_end(s, self.current as int) == target,
            decreases s.len() - self.current,
        {
            proof {
                lemma_count_newlines_step(s, self.current as int);
            }
            self.advance();
        }
    }

    fn skip_digits(&mut self)
        requires
            old(self).wf(),
        ensures
            final(self).wf(),
            final(self).bytes == old(self).bytes,
            final(self).start == old(self).start,
            final(self).line == old(self).line,
            final(self).current == digits_end(old(self).bytes@, old(self).current as int),
    {
        let ghost s = self.bytes@;
        let ghost target = digits_end(s, self.current as int);
        proof {
            lemma_digits_end(s, self.current as int);
        }
        while is_ascii_digit(self.peek())
            invariant
                self.wf(),
                self.bytes == old(self).bytes,
                self.bytes@ == s,
                self.start == old(self).start,
                self.line == old(self).line,
                digits_end(s, self.current as int) == target,
            decreases s.len() - self.current,
        {
            proof {
                lemma_count_newlines_step(s, self.current as int);
            }
            self.advance();
        }
    }

    /// Scans the rest of a word whose first byte was just read, and tells a
    /// reserved word from an identifier.
    #[verifier::spinoff_prover]
    fn identifier(&mut self) -> (k: TokenType)
        requires
            old(self).wf(),
            old(self).current == old(self).start + 1,
            old(self).start < old(self).bytes@.len(),
        ensures
            final(self).wf(),
            final(self).bytes == old(self).bytes,
            final(self).start == old(self).start,
            final(self).line == old(self).line,
            final(self).current == alnum_end(old(self).bytes@, old(self).current as int),
            k == keyword_kind(
                old(self).bytes@.subrange(old(self).start as int, final(self).current as int),
            ),
    {
        let ghost s = self.bytes@;
        let ghost target = alnum_end(s, self.current as int);
        proof {
            lemma_alnum_end(s, self.current as int);
        }
        while is_ascii_alphanumeric(self.peek())
            invariant
                self.wf(),
                self.bytes == old(self).bytes,
                self.bytes@ == s,
                self.start == old(self).start,
                self.line == old(self).line,
                alnum_end(s, self.current as int) == target,
            decreases s.len() - self.current,
        {
            proof {
                lemma_count_newlines_step(s, self.current as int);
            }
            self.advance();
        }
        let ghost w = s.subrange(self.start as int, self.current as int);
        let st = self.start;
        let first = self.bytes[st];
        let second = self.byte_at(st + 1);
        let third = self.byte_at(st + 2);
        proof {
            assert(w[0] == first);
            assert(w.len() >= 2 ==> w[1] == second);
            assert(w.len() >= 3 ==> w[2] == third);
            assert(w.len() == 1 ==> !is_alphanumeric(second));
            assert(w.len() == 2 ==> !is_alphanumeric(third));
        }
        let k = if first == 97u8 {
            {
                let r = self.check_keyword(1, &[110u8, 100u8], TokenType::And);
                proof {
                    let kw = seq![97u8, 110u8, 100u8];
                    assert(kw.subrange(1, kw.len() as int) =~= seq![110u8, 100u8]);
                    lemma_keyword_branch(w, kw, 1);
                    assert(r == keyword_kind(w));
                }
                r
            }
        } else if first == 99u8 {
            if second == 97u8 {
                {
                let r = self.check_keyword(2, &[115u8, 101u8], TokenType::Case);
                proof {
                    let kw = seq![99u8, 97u8, 115u8, 101u8];
                    assert(kw.subrange(2, kw.len() as int) =~= seq![115u8, 101u8]);
                    lemma_keyword_branch(w, kw, 2);
                    assert(r == keyword_kind(w));
                }
                r
            }
            } else if second == 108u8 {
                {
                let r = self.check_keyword(2, &[97u8, 115u8, 115u8], TokenType::Class);
                proof {
                    let kw = seq![99u8, 108u8, 97u8, 115u8, 115u8];
                    assert(kw.subrange(2, kw.len() as int) =~= seq![97u8, 115u8, 115u8]);
                    lemma_keyword_branch(w, kw, 2);
                    assert(r == keyword_kind(w));
                }
                r
            }
            } else {
                TokenType::Identifier
            }
        } else if first == 100u8 {
            if second == 101u8 {
                if third == 102u8 {
                    {
                let r = self.check_keyword(3, &[97u8, 117u8, 108u8, 116u8], TokenType::Default);
                proof {
                    let kw = seq![100u8, 101u8, 102u8, 97u8, 117u8, 108u8, 116u8];
                    assert(kw.subrange(3, kw.len() as int) =~= seq![97u8, 117u8, 108u8, 116u8]);
                    lemma_keyword_branch(w, kw, 3);
                    assert(r == keyword_kind(w));
                }
                r
            }
                } else if third == 108u8 {
                    {
                let r = self.check_keyword(3, &[101u8, 116u8, 101u8], TokenType::Delete);
                proof {
                    let kw = seq![100u8, 101u8, 108u8, 101u8, 116u8, 101u8];
                    assert(kw.subrange(3, kw.len() as int) =~= seq![101u8, 116u8, 101u8]);
                    lemma_keyword_branch(w, kw, 3);
                    assert(r == keyword_kind(w));
                }
                r
            }
                } else {
                    TokenType::Identifier
                }
            } else {
                TokenType::Identifier
            }
        } else if first == 101u8 {
            {
                let r = self.check_keyword(1, &[108u8, 115u8, 101u8], TokenType::Else);
                proof {
                    let kw = seq![101u8, 108u8, 115u8, 101u8];
                    assert(kw.subrange(1, kw.len() as int) =~= seq![108u8, 115u8, 101u8]);
                    lemma_keyword_branch(w, kw, 1);
                    assert(r == keyword_kind(w));
                }
                r
            }
        } else if first == 102u8 {
            if second == 97u8 {
                {
                let r = self.check_keyword(2, &[108u8, 115u8, 101u8], TokenType::False);
                proof {
                    let kw = seq![102u8, 97u8, 108u8, 115u8, 101u8];
                    assert(kw.subrange(2, kw.len() as int) =~= seq![108u8, 115u8, 101u8]);
                    lemma_keyword_branch(w, kw, 2);
                    assert(r == keyword_kind(w));
                }
                r
            }
            } else if second == 111u8 {
                {
                let rest: [u8; 1] = [114u8];
                let r = self.check_keyword(2, &rest, TokenType::For);
                proof {
                    let kw = seq![102u8, 111u8, 114u8];
                    assert(rest@ =~= seq![114u8]);
                    assert(kw.subrange(2, kw.len() as int) =~= seq![114u8]);
                    lemma_keyword_branch(w, kw, 2);
                    assert(r == keyword_kind(w));
                }
                r
            }
            } else if second == 117u8 {
                {
                let rest: [u8; 1] = [110u8];
                let r = self.check_keyword(2, &rest, TokenType::Fun);
                proof {
                    let kw = seq![102u8, 117u8, 110u8];
                    assert(rest@ =~= seq![110u8]);
                    assert(kw.subrange(2, kw.len() as int) =~= seq![110u8]);
                    lemma_keyword_branch(w, kw, 2);
                    assert(r == keyword_kind(w));
                }
                r
            }
            } else {
                TokenType::Identifier
            }
        } else if first == 105u8 {
            {
                let rest: [u8; 1] = [102u8];
                let r = self.check_keyword(1, &rest, TokenType::If);
                proof {
                    let kw = seq![105u8, 102u8];
                    assert(rest@ =~= seq![102u8]);
                    assert(kw.subrange(1, kw.len() as int) =~= seq![102u8]);
                    lemma_keyword_branch(w, kw, 1);
                    assert(r == keyword_kind(w));
                }
                r
            }
        } else if first == 110u8 {
            {
                let r = self.check_keyword(1, &[105u8, 108u8], TokenType::Nil);
                proof {
                    let kw = seq![110u8, 105u8, 108u8];
                    assert(kw.subrange(1, kw.len() as int) =~= seq![105u8, 108u8]);
                    lemma_keyword_branch(w, kw, 1);
                    assert(r == keyword_kind(w));
                }
                r
            }
        } else if first == 111u8 {
            {
                let rest: [u8; 1] = [114u8];
                let r = self.check_keyword(1, &rest, TokenType::Or);
                proof {
                    let kw = seq![111u8, 114u8];
                    assert(rest@ =~= seq![114u8]);
                    assert(kw.subrange(1, kw.len() as int) =~= seq![114u8]);
                    lemma_keyword_branch(w, kw, 1);
                    assert(r == keyword_kind(w));
                }
                r
            }
        } else if first == 112u8 {
            {
                let r = self.check_keyword(1, &[114u8, 105u8, 110u8, 116u8], TokenType::Print);
                proof {
                    let kw = seq![112u8, 114u8, 105u8, 110u8, 116u8];
                    assert(kw.subrange(1, kw.len() as int) =~= seq![114u8, 105u8, 110u8, 116u8]);
                    lemma_keyword_branch(w, kw, 1);
                    assert(r == keyword_kind(w));
                }
                r
            }
        } else if first == 114u8 {
            {
                let r = self.check_keyword(1, &[101u8, 116u8, 117u8, 114u8, 110u8], TokenType::Return);
                proof {
                    let kw = seq![114u8, 101u8, 116u8, 117u8, 114u8, 110u8];
                    assert(kw.subrange(1, kw.len() as int) =~= seq![101u8, 116u8, 117u8, 114u8, 110u8]);
                    lemma_keyword_branch(w, kw, 1);
                    assert(r == keyword_kind(w));
                }
                r
            }
        } else if first == 115u8 {
            if second == 117u8 {
                {
                let r = self.check_keyword(2, &[112u8, 101u8, 114u8], TokenType::Super);
                proof {
                    let kw = seq![115u8, 117u8, 112u8, 101u8, 114u8];
                    assert(kw.subrange(2, kw.len() as int) =~= seq![112u8, 101u8, 114u8]);
                    lemma_keyword_branch(w, kw, 2);
                    assert(r == keyword_kind(w));
                }
                r
            }
            } else if second == 119u8 {
                {
                let r = self.check_keyword(2, &[105u8, 116u8, 99u8, 104u8], TokenType::Switch);
                proof {
                    let kw = seq![115u8, 119u8, 105u8, 116u8, 99u8, 104u8];
                    assert(kw.subrange(2, kw.len() as int) =~= seq![105u8, 116u8, 99u8, 104u8]);
                    lemma_keyword_branch(w, kw, 2);
                    assert(r == keyword_kind(w));
                }
                r
            }
            } else {
                TokenType::Identifier
            }
        } else if first == 116u8 {
            if second == 104u8 {
                {
                let r = self.check_keyword(2, &[105u8, 115u8], TokenType::This);
                proof {
                    let kw = seq![116u8, 104u8, 105u8, 115u8];
                    assert(kw.subrange(2, kw.len() as int) =~= seq![105u8, 115u8]);
                    lemma_keyword_branch(w, kw, 2);
                    assert(r == keyword_kind(w));
                }
                r
            }
            } else if second == 114u8 {
                {
                let r = self.check_keyword(2, &[117u8, 101u8], TokenType::True);
                proof {
                    let kw = seq![116u8, 114u8, 117u8, 101u8];
                    assert(kw.subrange(2, kw.len() as int) =~= seq![117u8, 101u8]);
                    lemma_keyword_branch(w, kw, 2);
                    assert(r == keyword_kind(w));
                }
                r
            }
            } else {
                TokenType::Identifier
            }
        } else if first == 118u8 {
            {
                let r = self.check_keyword(1, &[97u8, 114u8], TokenType::Var);
                proof {
                    let kw = seq![118u8, 97u8, 114u8];
                    assert(kw.subrange(1, kw.len() as int) =~= seq![97u8, 114u8]);
                    lemma_keyword_branch(w, kw, 1);
                    assert(r == keyword_kind(w));
                }
                r
            }
        } else if first == 119u8 {
            {
                let r = self.check_keyword(1, &[104u8, 105u8, 108u8, 101u8], TokenType::While);
                proof {
                    let kw = seq![119u8, 104u8, 105u8, 108u8, 101u8];
                    assert(kw.subrange(1, kw.len() as int) =~= seq![104u8, 105u8, 108u8, 101u8]);
                    lemma_keyword_branch(w, kw, 1);
                    assert(r == keyword_kind(w));
                }
                r
            }
        } else {
            TokenType::Identifier
        };
        proof {
            assert(k == keyword_kind(w));
        }
        k
    }

    /// The byte at `i`, or 0 past the end of the source.
    fn byte_at(&self, i: usize) -> (b: u8)
        ensures
            b == peek_at(self.bytes@, i as int),
    {
        if i < self.bytes.len() {
            self.bytes[i]
        } else {
            0
        }
    }

    /// Whether the current word is `start` bytes already matched followed by
    /// exactly `rest`: then `kind`, else an identifier.
    fn check_keyword(&self, start: usize, rest: &[u8], kind: TokenType) -> (k: TokenType)
        requires
            self.wf(),
            start <= 3,
            rest@.len() <= 8,
        ensures
            ({
                let w = self.bytes@.subrange(self.start as int, self.current as int);
                k == if w.len() == start + rest@.len() && w.subrange(start as int, w.len() as int)
                    == rest@ {
                    kind
                } else {
                    TokenType::Identifier
                }
            }),
    {
        let start_of_token = self.start + start;
        if self.current - self.start == start + rest.len() {
            let mut i: usize = 0;
            while i < rest.len()
                invariant
                    self.wf(),
                    start_of_token == self.start + start,
                    self.current - self.start == start + rest@.len(),
                    0 <= i <= rest@.len(),
                    forall|j: int| 0 <= j < i ==> self.bytes@[start_of_token + j] == rest@[j],
                decreases rest@.len() - i,
            {
                if self.bytes[start_of_token + i] != rest[i] {
                    proof {
                        let w = self.bytes@.subrange(self.start as int, self.current as int);
                        assert(w.subrange(start as int, w.len() as int)[i as int] != rest@[i as int]);
                    }
                    return TokenType::Identifier;
                }
                i = i + 1;
            }
            proof {
                let w = self.bytes@.subrange(self.start as int, self.current as int);
                assert(w.subrange(start as int, w.len() as int) =~= rest@);
            }
            kind
        } else {
            TokenType::Identifier
        }
    }

    /// The token spanning from the last start to the current position.
    pub fn make_token(&self, kind: TokenType) -> (t: Token<'src>)
        requires
            self.wf(),
        ensures
            t.kind == kind,
            t.line == self.line_no(),
            t.lexeme@ == self.source().subrange(self.start_pos(), self.pos()),
    {
        Token { kind, lexeme: slice_range(self.bytes, self.start, self.current), line: self.line }
    }

    fn advance(&mut self) -> (c: u8)
        requires
            old(self).wf(),
            old(self).current < old(self).bytes@.len(),
            old(self).bytes@[old(self).current as int] != 10u8,
        ensures
            final(self).wf(),
            final(self).bytes == old(self).bytes,
            final(self).start == old(self).start,
            final(self).line == old(self).line,
            final(self).current == old(self).current + 1,
            c == old(self).bytes@[old(self).current as int],
    {
        let c = self.bytes[self.current];
        proof {
            lemma_count_newlines_step(self.bytes@, self.current as int);
        }
        self.current = self.current + 1;
        c
    }

    fn peek(&self) -> (c: u8)
        ensures
            c == peek_at(self.bytes@, self.current as int),
    {
        if self.current < self.bytes.len() {
            self.bytes[self.current]
        } else {
            0
        }
    }

    fn peek_next(&self) -> (c: u8)
        requires
            self.wf(),
        ensures
            c == peek_at(self.bytes@, self.current + 1),
    {
        if self.current + 1 >= self.bytes.len() {
            0
        } else {
            self.bytes[self.current + 1]
        }
    }

    /// Consumes the current byte when it is `expected`.
    fn match_next(&mut self, expected: u8) -> (b: bool)
        requires
            old(self).wf(),
            expected != 10u8,
        ensures
            final(self).wf(),
            final(self).bytes == old(self).bytes,
            final(self).start == old(self).start,
            final(self).line == old(self).line,
            b == (peek_at(old(self).bytes@, old(self).current as int) == expected && old(self).current
                < old(self).bytes@.len()),
            final(self).current == old(self).current + if b {
                1int
            } else {
                0int
            },
    {
        if self.is_at_end() {
            return false;
        }
        if self.bytes[self.current] != expected {
            return false;
        }
        proof {
            lemma_count_newlines_step(self.bytes@, self.current as int);
        }
        self.current = self.current + 1;
        true
    }

    /// Skips blanks, line breaks and `//` comments.
    #[verifier::spinoff_prover]
    fn skip_whitespace(&mut self)
        requires
            old(self).wf(),
        ensures
            final(self).wf(),
            final(self).bytes == old(self).bytes,
            final(self).start == old(self).start,
            (final(self).current as int, final(self).line as int) == skip_whitespace(
                old(self).bytes@,
                old(self).current as int,
                old(self).line as int,
            ),
    {
        let ghost s = self.bytes@;
        let ghost target = skip_whitespace(s, self.current as int, self.line as int);
        loop
            invariant
                self.wf(),
                self.bytes == old(self).bytes,
                self.bytes@ == s,
                self.start == old(self).start,
                skip_whitespace(s, self.current as int, self.line as int) == target,
                target == skip_whitespace(old(self).bytes@, old(self).current as int, old(self).line as int),
            decreases s.len() - self.current,
        {
            let c = self.peek();
            proof {
                if self.current < s.len() {
                    lemma_count_newlines_step(s, self.current as int);
                }
            }
            if self.current < self.bytes.len() && (c == 32u8 || c == 13u8 || c == 9u8) {
                self.advance();
            } else if self.current < self.bytes.len() && c == 10u8 {
                proof {
                    lemma_count_newlines_bound(s, self.current as int);
                }
                self.line = self.line + 1;
                self.current = self.current + 1;
            } else if self.current < self.bytes.len() && c == 47u8 && self.peek_next() == 47u8 {
                let ghost i = self.current as int;
                proof {
                    lemma_comment_end(s, i + 2);
                    lemma_count_newlines_step(s, i + 1);
                }
                self.current = self.current + 2;
                while self.peek() != 10u8 && !self.is_at_end()
                    invariant
                        self.wf(),
                        self.bytes == old(self).bytes,
                        self.bytes@ == s,
                        i + 2 <= self.current,
                        self.start == old(self).start,
                        comment_end(s, self.current as int) == comment_end(s, i + 2),
                        skip_whitespace(s, i, self.line as int) == target,
                        target == skip_whitespace(old(self).bytes@, old(self).current as int, old(self).line as int),
                    decreases s.len() - self.current,
                {
                    proof {
                        lemma_count_newlines_step(s, self.current as int);
                    }
                    self.advance();
                }
            } else {
                proof {
                    assert(skip_whitespace(s, self.current as int, self.line as int) == (
                        self.current as int,
                        self.line as int,
                    ));
                }
                return;
            }
        }
    }
}

/// Matching the rest of a word against the rest of a reserved word whose first
/// `n` bytes it shares settles whether the word is that reserved word.
proof fn lemma_keyword_branch(w: Seq<u8>, kw: Seq<u8>, n: int)
    requires
        1 <= n <= w.len(),
        n <= kw.len(),
        forall|i: int| 0 <= i < n ==> w[i] == kw[i],
    ensures
        (w.len() == kw.len() && w.subrange(n, w.len() as int) == kw.subrange(n, kw.len() as int))
            <==> w == kw,
{
    if w.len() == kw.len() && w.subrange(n, w.len() as int) == kw.subrange(n, kw.len() as int) {
        assert forall|i: int| 0 <= i < w.len() implies w[i] == kw[i] by {
            if i >= n {
                assert(w[i] == w.subrange(n, w.len() as int)[i - n]);
                assert(kw[i] == kw.subrange(n, kw.len() as int)[i - n]);
            }
        }
        assert(w =~= kw);
    }
    if w == kw {
        assert(w.subrange(n, w.len() as int) =~= kw.subrange(n, kw.len() as int));
    }
}

/// The ASCII digits.
fn is_ascii_digit(c: u8) -> (b: bool)
    ensures
        b == is_digit(c),
{
    48u8 <= c && c <= 57u8
}

/// The ASCII letters and digits.
fn is_ascii_alphanumeric(c: u8) -> (b: bool)
    ensures
        b == is_alphanumeric(c),
{
    (97u8 <= c && c <= 122u8) || (65u8 <= c && c <= 90u8) || (48u8 <= c && c <= 57u8)
}

/// The bytes of `s` from `i` up to `j`.
fn slice_range<'a>(s: &'a [u8], i: usize, j: usize) -> (r: &'a [u8])
    requires
        i <= j <= s@.len(),
    ensures
        r@ == s@.subrange(i as int, j as int),
{
    &s[i..j]
}

} // verus!
