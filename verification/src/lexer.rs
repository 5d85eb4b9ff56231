use vstd::prelude::*;
use crate::span::Span;
use crate::text::{string_append, string_push};
use vstd::string::StringSliceAdditionalSpecFns;

verus! {

#[derive(Debug, PartialEq)]
pub enum TokenKind {
    Ident(String),
    Int(i64),
    String(String),
    // Keywords
    Let,
    Fn,
    If,
    Else,
    Return,
    True,
    False,
    // Operators / punctuation
    Plus,
    Minus,
    Star,
    Slash,
    Percent,
    Bang,
    Equal,
    EqualEqual,
    BangEqual,
    Less,
    LessEqual,
    Greater,
    GreaterEqual,
    AndAnd,
    OrOr,
    Arrow,
    Colon,
    Comma,
    Semicolon,
    Hash,
    LParen,
    RParen,
    LBrace,
    RBrace,
    LBracket,
    RBracket,
    Eof,
}

#[derive(Debug, PartialEq)]
pub struct Token {
    pub kind: TokenKind,
    pub span: Span,
}

/// An error of the lexer, with the span of the offending text.
#[derive(Debug)]
pub struct LexError {
    pub message: String,
    pub span: Span,
}

impl TokenKind {
    /// A copy of the token kind.
    pub fn copy(&self) -> (r: TokenKind)
        ensures
            r == *self,
    {
        match self {
            TokenKind::Ident(s) => TokenKind::Ident(s.clone()),
            TokenKind::Int(i) => TokenKind::Int(*i),
            TokenKind::String(s) => TokenKind::String(s.clone()),
            TokenKind::Let => TokenKind::Let,
            TokenKind::Fn => TokenKind::Fn,
            TokenKind::If => TokenKind::If,
            TokenKind::Else => TokenKind::Else,
            TokenKind::Return => TokenKind::Return,
            TokenKind::True => TokenKind::True,
            TokenKind::False => TokenKind::False,
            TokenKind::Plus => TokenKind::Plus,
            TokenKind::Minus => TokenKind::Minus,
            TokenKind::Star => TokenKind::Star,
            TokenKind::Slash => TokenKind::Slash,
            TokenKind::Percent => TokenKind::Percent,
            TokenKind::Bang => TokenKind::Bang,
            TokenKind::Equal => TokenKind::Equal,
            TokenKind::EqualEqual => TokenKind::EqualEqual,
            TokenKind::BangEqual => TokenKind::BangEqual,
            TokenKind::Less => TokenKind::Less,
            TokenKind::LessEqual => TokenKind::LessEqual,
            TokenKind::Greater => TokenKind::Greater,
            TokenKind::GreaterEqual => TokenKind::GreaterEqual,
            TokenKind::AndAnd => TokenKind::AndAnd,
            TokenKind::OrOr => TokenKind::OrOr,
            TokenKind::Arrow => TokenKind::Arrow,
            TokenKind::Colon => TokenKind::Colon,
            TokenKind::Comma => TokenKind::Comma,
            TokenKind::Semicolon => TokenKind::Semicolon,
            TokenKind::Hash => TokenKind::Hash,
            TokenKind::LParen => TokenKind::LParen,
            TokenKind::RParen => TokenKind::RParen,
            TokenKind::LBrace => TokenKind::LBrace,
            TokenKind::RBrace => TokenKind::RBrace,
            TokenKind::LBracket => TokenKind::LBracket,
            TokenKind::RBracket => TokenKind::RBracket,
            TokenKind::Eof => TokenKind::Eof,
        }
    }
}

impl Token {
    pub fn copy(&self) -> (r: Token)
        ensures
            r == *self,
    {
        Token { kind: self.kind.copy(), span: self.span }
    }
}

// ---------------------------------------------------------------------------
// What a correct tokenization is.
// ---------------------------------------------------------------------------

pub open spec fn is_ws(c: u8) -> bool {
    c == 32 || c == 9 || c == 10 || c == 13
}

pub open spec fn is_digit(c: u8) -> bool {
    48 <= c <= 57
}

pub open spec fn is_alpha(c: u8) -> bool {
    (65 <= c <= 90) || (97 <= c <= 122)
}

pub open spec fn is_ident_start_byte(c: u8) -> bool {
    c == 95 || is_alpha(c)
}

pub open spec fn is_ident_continue_byte(c: u8) -> bool {
    is_ident_start_byte(c) || is_digit(c)
}

/// A line comment `//` starts at `c`.
pub open spec fn comment_start(b: Seq<u8>, c: int) -> bool {
    0 <= c && c + 1 < b.len() && b[c] == 47 && b[c + 1] == 47
}

/// No newline in `b[c..k)`.
pub open spec fn no_newline(b: Seq<u8>, c: int, k: int) -> bool {
    forall|m: int| c <= m < k ==> b[m] != 10
}

/// Position `k` lies in a line comment that starts at or after `p`.
pub open spec fn in_comment(b: Seq<u8>, p: int, k: int) -> bool {
    exists|c: int| p <= c <= k && #[trigger] comment_start(b, c) && no_newline(b, c, k)
}

/// A comment that starts in `[p, q)` is still running at `q`.
pub open spec fn comment_open(b: Seq<u8>, p: int, q: int) -> bool {
    exists|c: int| p <= c < q && #[trigger] comment_start(b, c) && no_newline(b, c, q)
}

/// `b[p..q)` holds only whitespace and line comments.
pub open spec fn gap_ok(b: Seq<u8>, p: int, q: int) -> bool {
    &&& 0 <= p <= q <= b.len()
    &&& forall|k: int| p <= k < q ==> is_ws(#[trigger] b[k]) || in_comment(b, p, k)
}

/// The characters of ASCII bytes.
pub open spec fn ascii_chars(s: Seq<u8>) -> Seq<char> {
    s.map_values(|x: u8| x as char)
}

/// The keyword spelled by `s`, if any.
pub open spec fn keyword(s: Seq<u8>) -> Option<TokenKind> {
    if s == seq![108u8, 101u8, 116u8] {
        Some(TokenKind::Let)
    } else if s == seq![102u8, 110u8] {
        Some(TokenKind::Fn)
    } else if s == seq![105u8, 102u8] {
        Some(TokenKind::If)
    } else if s == seq![101u8, 108u8, 115u8, 101u8] {
        Some(TokenKind::Else)
    } else if s == seq![114u8, 101u8, 116u8, 117u8, 114u8, 110u8] {
        Some(TokenKind::Return)
    } else if s == seq![116u8, 114u8, 117u8, 101u8] {
        Some(TokenKind::True)
    } else if s == seq![102u8, 97u8, 108u8, 115u8, 101u8] {
        Some(TokenKind::False)
    } else {
        None
    }
}

/// `b[st..en)` is an identifier or keyword.
pub open spec fn word_at(b: Seq<u8>, st: int, en: int) -> bool {
    &&& 0 <= st < en <= b.len()
    &&& is_ident_start_byte(b[st])
    &&& forall|k: int| st < k < en ==> is_ident_continue_byte(#[trigger] b[k])
}

/// `b[st..en)` is a run of decimal digits.
pub open spec fn digits_at(b: Seq<u8>, st: int, en: int) -> bool {
    &&& 0 <= st < en <= b.len()
    &&& forall|k: int| st <= k < en ==> is_digit(#[trigger] b[k])
}

/// The number that decimal digits denote.
pub open spec fn digits_value(s: Seq<u8>) -> int
    decreases s.len(),
{
    if s.len() == 0 {
        0
    } else {
        digits_value(s.drop_last()) * 10 + (s.last() - 48)
    }
}

/// The character that `\c` stands for in a string literal.
pub open spec fn escape_of(c: u8) -> Option<char> {
    if c == 110 {
        Some('\n')
    } else if c == 116 {
        Some('\t')
    } else if c == 34 {
        Some('"')
    } else if c == 92 {
        Some('\\')
    } else {
        None
    }
}

pub open spec fn prepend(c: char, r: Option<Seq<char>>) -> Option<Seq<char>> {
    match r {
        Some(s) => Some(seq![c] + s),
        None => None,
    }
}

/// The characters that the body `b[p..q)` of a string literal denotes: ASCII characters and
/// escapes, with no unescaped quote.
pub open spec fn str_body(b: Seq<u8>, p: int, q: int) -> Option<Seq<char>>
    decreases q - p,
{
    if p >= q {
        Some(Seq::empty())
    } else if b[p] == 34 {
        None
    } else if b[p] == 92 {
        if p + 1 < q && escape_of(b[p + 1]) is Some {
            prepend(escape_of(b[p + 1])->0, str_body(b, p + 2, q))
        } else {
            None
        }
    } else if b[p] < 128 {
        prepend(b[p] as char, str_body(b, p + 1, q))
    } else {
        None
    }
}

/// The punctuation token spelled by `b[st..en)`.
pub open spec fn punct_ok(b: Seq<u8>, st: int, en: int, k: TokenKind) -> bool {
    let c = b[st];
    match k {
        TokenKind::Plus => en == st + 1 && c == 43,
        TokenKind::Minus => en == st + 1 && c == 45,
        TokenKind::Star => en == st + 1 && c == 42,
        TokenKind::Slash => en == st + 1 && c == 47,
        TokenKind::Percent => en == st + 1 && c == 37,
        TokenKind::Bang => en == st + 1 && c == 33,
        TokenKind::Equal => en == st + 1 && c == 61,
        TokenKind::Less => en == st + 1 && c == 60,
        TokenKind::Greater => en == st + 1 && c == 62,
        TokenKind::Colon => en == st + 1 && c == 58,
        TokenKind::Comma => en == st + 1 && c == 44,
        TokenKind::Semicolon => en == st + 1 && c == 59,
        TokenKind::Hash => en == st + 1 && c == 35,
        TokenKind::LParen => en == st + 1 && c == 40,
        TokenKind::RParen => en == st + 1 && c == 41,
        TokenKind::LBrace => en == st + 1 && c == 123,
        TokenKind::RBrace => en == st + 1 && c == 125,
        TokenKind::LBracket => en == st + 1 && c == 91,
        TokenKind::RBracket => en == st + 1 && c == 93,
        TokenKind::EqualEqual => en == st + 2 && c == 61 && b[st + 1] == 61,
        TokenKind::BangEqual => en == st + 2 && c == 33 && b[st + 1] == 61,
        TokenKind::LessEqual => en == st + 2 && c == 60 && b[st + 1] == 61,
        TokenKind::GreaterEqual => en == st + 2 && c == 62 && b[st + 1] == 61,
        TokenKind::AndAnd => en == st + 2 && c == 38 && b[st + 1] == 38,
        TokenKind::OrOr => en == st + 2 && c == 124 && b[st + 1] == 124,
        TokenKind::Arrow => en == st + 2 && c == 45 && b[st + 1] == 62,
        _ => false,
    }
}

/// The text `b[st..en)` is spelled as the token kind `k` says.
pub open spec fn kind_ok(b: Seq<u8>, st: int, en: int, k: TokenKind) -> bool {
    &&& 0 <= st < en <= b.len()
    &&& match k {
        TokenKind::Ident(s) => word_at(b, st, en) && keyword(b.subrange(st, en)) is None && s@
            == ascii_chars(b.subrange(st, en)),
        TokenKind::Let | TokenKind::Fn | TokenKind::If | TokenKind::Else | TokenKind::Return
        | TokenKind::True | TokenKind::False => word_at(b, st, en) && keyword(b.subrange(st, en))
            == Some(k),
        TokenKind::Int(v) => digits_at(b, st, en) && v as int == digits_value(b.subrange(st, en)),
        TokenKind::String(s) => en - st >= 2 && b[st] == 34 && b[en - 1] == 34 && str_body(
            b,
            st + 1,
            en - 1,
        ) == Some(s@),
        TokenKind::Eof => false,
        _ => punct_ok(b, st, en, k),
    }
}

/// The byte after a token does not extend it (longest match).
pub open spec fn follow_ok(b: Seq<u8>, en: int, k: TokenKind) -> bool {
    en < b.len() ==> match k {
        TokenKind::Ident(_) | TokenKind::Let | TokenKind::Fn | TokenKind::If | TokenKind::Else
        | TokenKind::Return | TokenKind::True | TokenKind::False => !is_ident_continue_byte(b[en]),
        TokenKind::Int(_) => !is_digit(b[en]),
        TokenKind::Bang | TokenKind::Equal | TokenKind::Less | TokenKind::Greater => b[en] != 61,
        TokenKind::Minus => b[en] != 62,
        TokenKind::Slash => b[en] != 47,
        _ => true,
    }
}

pub open spec fn token_ok(b: Seq<u8>, t: Token) -> bool {
    kind_ok(b, t.span.start as int, t.span.end as int, t.kind) && follow_ok(
        b,
        t.span.end as int,
        t.kind,
    )
}

/// Where the text before token `k` begins: the end of the previous token, or 0.
pub open spec fn prev_end(ts: Seq<Token>, k: int) -> int {
    if k == 0 {
        0
    } else {
        ts[k - 1].span.end as int
    }
}

/// `ts` are the tokens of `b` (without the final `Eof`): each is spelled correctly and as long
/// as it can be, and only whitespace and comments stand between them.
pub open spec fn tokens_of(b: Seq<u8>, ts: Seq<Token>) -> bool {
    forall|k: int|
        0 <= k < ts.len() ==> token_ok(b, #[trigger] ts[k]) && gap_ok(b, prev_end(ts, k), ts[k].span.start as int)
            && !comment_open(b, prev_end(ts, k), ts[k].span.start as int)
}

/// `ts` is the complete token list of `b`, ending with `Eof` at the end of the input.
pub open spec fn lexes_to(b: Seq<u8>, ts: Seq<Token>) -> bool {
    &&& ts.len() >= 1
    &&& ts.last().kind == TokenKind::Eof
    &&& ts.last().span == Span { start: b.len() as usize, end: b.len() as usize }
    &&& tokens_of(b, ts.drop_last())
    &&& gap_ok(b, prev_end(ts, ts.len() - 1), b.len() as int)
}

} // verus!

verus! {

pub open spec fn prepend_all(s: Seq<char>, r: Option<Seq<char>>) -> Option<Seq<char>> {
    match r {
        Some(x) => Some(s + x),
        None => None,
    }
}

fn is_ident_start(c: u8) -> (r: bool)
    ensures
        r == is_ident_start_byte(c),
{
    c == 95 || (65 <= c && c <= 90) || (97 <= c && c <= 122)
}

fn is_ident_continue(c: u8) -> (r: bool)
    ensures
        r == is_ident_continue_byte(c),
{
    is_ident_start(c) || (48 <= c && c <= 57)
}

/// The characters of the ASCII bytes `b[st..en)` as a string.
fn ascii_string(b: &[u8], st: usize, en: usize) -> (s: String)
    requires
        st <= en <= b@.len(),
    ensures
        s@ == ascii_chars(b@.subrange(st as int, en as int)),
{
    let mut s = String::new();
    let mut j = st;
    while j < en
        invariant
            st <= j <= en,
            en <= b@.len(),
            s@ == ascii_chars(b@.subrange(st as int, j as int)),
        decreases en - j,
    {
        let c: char = b[j] as char;
        string_push(&mut s, c);
        assert(b@.subrange(st as int, j + 1) =~= b@.subrange(st as int, j as int).push(b@[j as int]));
        assert(s@ =~= ascii_chars(b@.subrange(st as int, j + 1)));
        j = j + 1;
    }
    s
}

/// The keyword spelled by `b[st..en)`, if any.
fn keyword_kind(b: &[u8], st: usize, en: usize) -> (r: Option<TokenKind>)
    requires
        st < en <= b@.len(),
    ensures
        r == keyword(b@.subrange(st as int, en as int)),
{
    let ghost sub = b@.subrange(st as int, en as int);
    let len = en - st;
    assert(sub.len() == len);
    if len == 3 && b[st] == 108 && b[st + 1] == 101 && b[st + 2] == 116 {
        assert(sub =~= seq![108u8, 101u8, 116u8]);
        return Some(TokenKind::Let);
    }
    if len == 2 && b[st] == 102 && b[st + 1] == 110 {
        assert(sub =~= seq![102u8, 110u8]);
        assert(sub != seq![108u8, 101u8, 116u8]);
        return Some(TokenKind::Fn);
    }
    if len == 2 && b[st] == 105 && b[st + 1] == 102 {
        assert(sub =~= seq![105u8, 102u8]);
        assert(sub != seq![108u8, 101u8, 116u8]);
        assert(sub != seq![102u8, 110u8]);
        return Some(TokenKind::If);
    }
    if len == 4 && b[st] == 101 && b[st + 1] == 108 && b[st + 2] == 115 && b[st + 3] == 101 {
        assert(sub =~= seq![101u8, 108u8, 115u8, 101u8]);
        assert(sub != seq![108u8, 101u8, 116u8]);
        assert(sub != seq![102u8, 110u8]);
        assert(sub != seq![105u8, 102u8]);
        return Some(TokenKind::Else);
    }
    if len == 6 && b[st] == 114 && b[st + 1] == 101 && b[st + 2] == 116 && b[st + 3] == 117 && b[st
        + 4] == 114 && b[st + 5] == 110 {
        assert(sub =~= seq![114u8, 101u8, 116u8, 117u8, 114u8, 110u8]);
        assert(sub != seq![108u8, 101u8, 116u8]);
        assert(sub != seq![102u8, 110u8]);
        assert(sub != seq![105u8, 102u8]);
        assert(sub != seq![101u8, 108u8, 115u8, 101u8]);
        return Some(TokenKind::Return);
    }
    if len == 4 && b[st] == 116 && b[st + 1] == 114 && b[st + 2] == 117 && b[st + 3] == 101 {
        assert(sub =~= seq![116u8, 114u8, 117u8, 101u8]);
        assert(sub != seq![108u8, 101u8, 116u8]);
        assert(sub != seq![102u8, 110u8]);
        assert(sub != seq![105u8, 102u8]);
        assert(sub != seq![101u8, 108u8, 115u8, 101u8]);
        assert(sub != seq![114u8, 101u8, 116u8, 117u8, 114u8, 110u8]);
        return Some(TokenKind::True);
    }
    if len == 5 && b[st] == 102 && b[st + 1] == 97 && b[st + 2] == 108 && b[st + 3] == 115 && b[st
        + 4] == 101 {
        assert(sub =~= seq![102u8, 97u8, 108u8, 115u8, 101u8]);
        assert(sub != seq![108u8, 101u8, 116u8]);
        assert(sub != seq![102u8, 110u8]);
        assert(sub != seq![105u8, 102u8]);
        assert(sub != seq![101u8, 108u8, 115u8, 101u8]);
        assert(sub != seq![114u8, 101u8, 116u8, 117u8, 114u8, 110u8]);
        assert(sub != seq![116u8, 114u8, 117u8, 101u8]);
        return Some(TokenKind::False);
    }
    proof {
        if sub == seq![108u8, 101u8, 116u8] {
            assert(sub[0] == 108u8 && sub[1] == 101u8 && sub[2] == 116u8);
        }
        if sub == seq![102u8, 110u8] {
            assert(sub[0] == 102u8 && sub[1] == 110u8);
        }
        if sub == seq![105u8, 102u8] {
            assert(sub[0] == 105u8 && sub[1] == 102u8);
        }
        if sub == seq![101u8, 108u8, 115u8, 101u8] {
            assert(sub[0] == 101u8 && sub[1] == 108u8 && sub[2] == 115u8 && sub[3] == 101u8);
        }
        if sub == seq![114u8, 101u8, 116u8, 117u8, 114u8, 110u8] {
            assert(sub[0] == 114u8 && sub[1] == 101u8 && sub[2] == 116u8 && sub[3] == 117u8 && sub[4]
                == 114u8 && sub[5] == 110u8);
        }
        if sub == seq![116u8, 114u8, 117u8, 101u8] {
            assert(sub[0] == 116u8 && sub[1] == 114u8 && sub[2] == 117u8 && sub[3] == 101u8);
        }
        if sub == seq![102u8, 97u8, 108u8, 115u8, 101u8] {
            assert(sub[0] == 102u8 && sub[1] == 97u8 && sub[2] == 108u8 && sub[3] == 115u8 && sub[4]
                == 101u8);
        }
    }
    None
}

fn lex_error(message: String, start: usize, end: usize) -> (e: LexError)
    ensures
        e.message == message,
        e.span == (Span { start, end }),
{
    LexError { message, span: Span { start, end } }
}

/// Scans an identifier or keyword starting at `st`.
fn scan_word(b: &[u8], st: usize) -> (r: (TokenKind, usize))
    requires
        st < b@.len(),
        is_ident_start_byte(b@[st as int]),
    ensures
        kind_ok(b@, st as int, r.1 as int, r.0),
        follow_ok(b@, r.1 as int, r.0),
{
    let n = b.len();
    let mut j = st + 1;
    while j < b.len() && is_ident_continue(b[j])
        invariant
            st < j <= b@.len(),
            forall|k: int| st < k < j ==> is_ident_continue_byte(#[trigger] b@[k]),
        decreases b@.len() - j,
    {
        j = j + 1;
    }
    assert(word_at(b@, st as int, j as int));
    match keyword_kind(b, st, j) {
        Some(k) => (k, j),
        None => (TokenKind::Ident(ascii_string(b, st, j)), j),
    }
}

/// Scans an integer literal starting at `st`.
fn scan_number(b: &[u8], st: usize) -> (r: Result<(TokenKind, usize), LexError>)
    requires
        st < b@.len(),
        is_digit(b@[st as int]),
    ensures
        r matches Ok((k, en)) ==> kind_ok(b@, st as int, en as int, k) && follow_ok(b@, en as int, k),
        r matches Err(e) ==> e.span.start == st && st < e.span.end <= b@.len(),
        r is Err ==> no_token_from(b@, st as int),
        r matches Err(e) ==> scan_error(b@, st as int) == Some((e.message@, e.span)),
{
    let mut j = st;
    let mut acc: i64 = 0;
    let mut overflow = false;
    assert(b@.subrange(st as int, st as int) =~= Seq::<u8>::empty());
    while j < b.len() && 48 <= b[j] && b[j] <= 57
        invariant
            st <= j <= b@.len(),
            forall|k: int| st <= k < j ==> is_digit(#[trigger] b@[k]),
            !overflow ==> acc as int == digits_value(b@.subrange(st as int, j as int)),
            overflow ==> digits_value(b@.subrange(st as int, j as int)) > i64::MAX,
            acc >= 0,
            digits_end(b@, j as int) == digits_end(b@, st as int),
        decreases b@.len() - j,
    {
        let d: i64 = (b[j] - 48) as i64;
        let ghost prev = b@.subrange(st as int, j as int);
        let ghost next = b@.subrange(st as int, j + 1);
        assert(next.drop_last() =~= prev);
        assert(next.last() == b@[j as int]);
        assert(digits_value(next) == digits_value(prev) * 10 + d);
        if !overflow {
            if acc > (i64::MAX - d) / 10 {
                overflow = true;
                assert(acc * 10 + d > i64::MAX) by (nonlinear_arith)
                    requires
                        acc > (i64::MAX - d) / 10,
                        0 <= d < 10,
                ;
            } else {
                assert(acc * 10 + d <= i64::MAX) by (nonlinear_arith)
                    requires
                        acc <= (i64::MAX - d) / 10,
                        0 <= d < 10,
                        acc >= 0,
                ;
                acc = acc * 10 + d;
            }
        } else {
            assert(digits_value(prev) * 10 + d > i64::MAX) by (nonlinear_arith)
                requires
                    digits_value(prev) > i64::MAX,
                    0 <= d,
            ;
        }
        j = j + 1;
    }
    if overflow {
        proof {
            assert forall|k: TokenKind, en: int| #[trigger] kind_ok(b@, st as int, en, k) implies !follow_ok(b@, en, k) by {
                lemma_kind_head(b@, st as int, en, k);
                if follow_ok(b@, en, k) {
                    if en < j {
                        assert(is_digit(b@[en]));
                    } else if en > j {
                        assert(is_digit(b@[j as int]));
                    }
                    assert(en == j);
                }
            }
        }
        let mut msg = String::new();
        string_append(&mut msg, "invalid integer literal: ");
        let text = ascii_string(b, st, j);
        string_append(&mut msg, text.as_str());
        proof {
            assert(digits_end(b@, j as int) == j);
            assert(msg@ =~= "invalid integer literal: "@ + ascii_chars(b@.subrange(st as int, j as int)));
        }
        return Err(lex_error(msg, st, j));
    }
    Ok((TokenKind::Int(acc), j))
}

/// Scans a string literal whose opening quote is at `st`.
fn scan_string(b: &[u8], st: usize) -> (r: Result<(TokenKind, usize), LexError>)
    requires
        st < b@.len(),
        b@[st as int] == 34,
    ensures
        r matches Ok((k, en)) ==> kind_ok(b@, st as int, en as int, k) && follow_ok(b@, en as int, k),
        r matches Err(e) ==> e.span.start <= e.span.end <= b@.len(),
        r is Err ==> no_token_from(b@, st as int),
        r matches Err(e) ==> scan_error(b@, st as int) == Some((e.message@, e.span)),
{
    let n = b.len();
    let mut j = st + 1;
    let mut out = String::new();
    proof {
        assert forall|q: int| j <= q implies #[trigger] str_body(b@, st + 1, q) == prepend_all(
            out@,
            str_body(b@, j as int, q),
        ) by {
            match str_body(b@, st + 1, q) {
                Some(x) => {
                    assert(out@ + x =~= x);
                },
                None => {},
            }
        }
    }
    while j < n
        invariant
            n == b@.len(),
            st < j <= n,
            b@[st as int] == 34,
            forall|q: int| j <= q ==> #[trigger] str_body(b@, st + 1, q) == prepend_all(out@, str_body(b@, j as int, q)),
            forall|q: int| st + 1 <= q < j && b@[q] == 34 ==> #[trigger] str_body(b@, st + 1, q) is None,
            string_error(b@, st as int, j as int) == string_error(b@, st as int, st + 1),
        decreases n - j,
    {
        let c = b[j];
        if c == 34 {
            let en = j + 1;
            assert(str_body(b@, j as int, j as int) == Some(Seq::<char>::empty()));
            assert(out@ + Seq::<char>::empty() =~= out@);
            assert(str_body(b@, st + 1, j as int) == Some(out@));
            return Ok((TokenKind::String(out), en));
        }
        if c == 92 {
            if j + 1 >= n {
                proof {
                    assert forall|k: TokenKind, en: int| #[trigger] kind_ok(b@, st as int, en, k) implies !follow_ok(b@, en, k) by {
                        lemma_kind_head(b@, st as int, en, k);
                        assert(str_body(b@, st + 1, en - 1) is None);
                    }
                }
                let mut msg = String::new();
                string_append(&mut msg, "unterminated string literal");
                proof {
                    assert(msg@ =~= "unterminated string literal"@);
                }
                return Err(lex_error(msg, st, j + 1));
            }
            let esc = b[j + 1];
            let ch: char;
            if esc == 110 {
                ch = '\n';
            } else if esc == 116 {
                ch = '\t';
            } else if esc == 34 {
                ch = '"';
            } else if esc == 92 {
                ch = '\\';
            } else {
                proof {
                    assert forall|k: TokenKind, en: int| #[trigger] kind_ok(b@, st as int, en, k) implies !follow_ok(b@, en, k) by {
                        lemma_kind_head(b@, st as int, en, k);
                        if en - 1 >= j + 2 {
                            assert(str_body(b@, j as int, en - 1) is None);
                        }
                        assert(str_body(b@, st + 1, en - 1) is None);
                    }
                }
                let mut msg = String::new();
                string_append(&mut msg, "unknown escape: \\");
                string_push(&mut msg, esc as char);
                proof {
                    assert(msg@ =~= "unknown escape: \\"@ + seq![esc as char]);
                }
                return Err(lex_error(msg, j, j + 2));
            }
            assert(escape_of(esc) == Some(ch));
            let ghost old_out = out@;
            string_push(&mut out, ch);
            proof {
                assert(str_body(b@, j as int, j + 1) is None);
                assert(str_body(b@, st + 1, j + 1) == prepend_all(old_out, str_body(b@, j as int, j + 1)));
                assert forall|q: int| j + 2 <= q implies #[trigger] str_body(b@, st + 1, q) == prepend_all(
                    out@,
                    str_body(b@, j + 2, q),
                ) by {
                    assert(str_body(b@, st + 1, q) == prepend_all(old_out, str_body(b@, j as int, q)));
                    assert(str_body(b@, j as int, q) == prepend(ch, str_body(b@, j + 2, q)));
                    match str_body(b@, j + 2, q) {
                        Some(x) => {
                            assert(old_out + (seq![ch] + x) =~= out@ + x);
                        },
                        None => {},
                    }
                }
            }
            j = j + 2;
            continue;
        }
        if c < 128 {
            let ghost old_out = out@;
            string_push(&mut out, c as char);
            proof {
                assert forall|q: int| j + 1 <= q implies #[trigger] str_body(b@, st + 1, q) == prepend_all(
                    out@,
                    str_body(b@, j + 1, q),
                ) by {
                    assert(str_body(b@, st + 1, q) == prepend_all(old_out, str_body(b@, j as int, q)));
                    assert(str_body(b@, j as int, q) == prepend(c as char, str_body(b@, j + 1, q)));
                    match str_body(b@, j + 1, q) {
                        Some(x) => {
                            assert(old_out + (seq![c as char] + x) =~= out@ + x);
                        },
                        None => {},
                    }
                }
            }
            j = j + 1;
            continue;
        }
        proof {
            assert forall|k: TokenKind, en: int| #[trigger] kind_ok(b@, st as int, en, k) implies !follow_ok(b@, en, k) by {
                lemma_kind_head(b@, st as int, en, k);
                if en - 1 > j {
                    assert(str_body(b@, j as int, en - 1) is None);
                }
                assert(str_body(b@, st + 1, en - 1) is None);
            }
        }
        let mut msg = String::new();
        string_append(&mut msg, "non-ascii characters are not supported in string literals yet");
        proof {
            assert(msg@ =~= "non-ascii characters are not supported in string literals yet"@);
        }
        return Err(lex_error(msg, j, j + 1));
    }
    proof {
        assert forall|k: TokenKind, en: int| #[trigger] kind_ok(b@, st as int, en, k) implies !follow_ok(b@, en, k) by {
            lemma_kind_head(b@, st as int, en, k);
            assert(str_body(b@, st + 1, en - 1) is None);
        }
    }
    let mut msg = String::new();
    string_append(&mut msg, "unterminated string literal");
    proof {
        assert(msg@ =~= "unterminated string literal"@);
    }
    Err(lex_error(msg, st, n))
}

/// Scans an operator or punctuation token starting at `st`.
fn scan_punct(b: &[u8], st: usize) -> (r: Result<(TokenKind, usize), LexError>)
    requires
        st < b@.len(),
        !(st + 1 < b@.len() && b@[st as int] == 47 && b@[st + 1] == 47),
        !is_ident_start_byte(b@[st as int]),
        !is_digit(b@[st as int]),
        b@[st as int] != 34,
    ensures
        r matches Ok((k, en)) ==> kind_ok(b@, st as int, en as int, k) && follow_ok(b@, en as int, k),
        r matches Err(e) ==> e.span.start == st && e.span.end == st + 1,
        r is Err ==> no_token_from(b@, st as int),
        r matches Err(e) ==> scan_error(b@, st as int) == Some((e.message@, e.span)),
{
    let n = b.len();
    let c = b[st];
    let next_is = |x: u8| -> (r: bool)
        ensures
            r == (st + 1 < n && b@[st + 1] == x),
        { st + 1 < n && b[st + 1] == x };
    let (kind, len): (TokenKind, usize) = if c == 43 {
        (TokenKind::Plus, 1)
    } else if c == 45 {
        if next_is(62) {
            (TokenKind::Arrow, 2)
        } else {
            (TokenKind::Minus, 1)
        }
    } else if c == 42 {
        (TokenKind::Star, 1)
    } else if c == 37 {
        (TokenKind::Percent, 1)
    } else if c == 40 {
        (TokenKind::LParen, 1)
    } else if c == 41 {
        (TokenKind::RParen, 1)
    } else if c == 123 {
        (TokenKind::LBrace, 1)
    } else if c == 125 {
        (TokenKind::RBrace, 1)
    } else if c == 91 {
        (TokenKind::LBracket, 1)
    } else if c == 93 {
        (TokenKind::RBracket, 1)
    } else if c == 44 {
        (TokenKind::Comma, 1)
    } else if c == 58 {
        (TokenKind::Colon, 1)
    } else if c == 59 {
        (TokenKind::Semicolon, 1)
    } else if c == 35 {
        (TokenKind::Hash, 1)
    } else if c == 33 {
        if next_is(61) {
            (TokenKind::BangEqual, 2)
        } else {
            (TokenKind::Bang, 1)
        }
    } else if c == 61 {
        if next_is(61) {
            (TokenKind::EqualEqual, 2)
        } else {
            (TokenKind::Equal, 1)
        }
    } else if c == 60 {
        if next_is(61) {
            (TokenKind::LessEqual, 2)
        } else {
            (TokenKind::Less, 1)
        }
    } else if c == 62 {
        if next_is(61) {
            (TokenKind::GreaterEqual, 2)
        } else {
            (TokenKind::Greater, 1)
        }
    } else if c == 38 {
        if next_is(38) {
            (TokenKind::AndAnd, 2)
        } else {
            proof {
                assert forall|k: TokenKind, en: int| #[trigger] kind_ok(b@, st as int, en, k) implies !follow_ok(b@, en, k) by {
                    lemma_kind_head(b@, st as int, en, k);
                }
            }
            let mut msg = String::new();
            string_append(&mut msg, "unexpected '&' (did you mean '&&'?)");
            proof {
                assert(msg@ =~= "unexpected '&' (did you mean '&&'?)"@);
            }
            return Err(lex_error(msg, st, st + 1));
        }
    } else if c == 124 {
        if next_is(124) {
            (TokenKind::OrOr, 2)
        } else {
            proof {
                assert forall|k: TokenKind, en: int| #[trigger] kind_ok(b@, st as int, en, k) implies !follow_ok(b@, en, k) by {
                    lemma_kind_head(b@, st as int, en, k);
                }
            }
            let mut msg = String::new();
            string_append(&mut msg, "unexpected '|' (did you mean '||'?)");
            proof {
                assert(msg@ =~= "unexpected '|' (did you mean '||'?)"@);
            }
            return Err(lex_error(msg, st, st + 1));
        }
    } else if c == 47 {
        (TokenKind::Slash, 1)
    } else {
        proof {
            assert forall|k: TokenKind, en: int| #[trigger] kind_ok(b@, st as int, en, k) implies !follow_ok(b@, en, k) by {
                lemma_kind_head(b@, st as int, en, k);
            }
        }
        let mut msg = String::new();
        string_append(&mut msg, "unexpected character: '");
        string_push(&mut msg, c as char);
        string_append(&mut msg, "'");
        proof {
            assert(msg@ =~= "unexpected character: '"@ + seq![c as char] + "'"@);
        }
        return Err(lex_error(msg, st, st + 1));
    };
    Ok((kind, st + len))
}

/// Turns source text into tokens, ending with `Eof`.
pub fn lex(input: &str) -> (r: Result<Vec<Token>, LexError>)
    ensures
        r matches Ok(ts) ==> lexes_to(input.spec_bytes(), ts@),
        r matches Err(e) ==> e.span.start <= e.span.end <= input.spec_bytes().len(),
        r is Err ==> forall|ts: Seq<Token>| !lexes_to(input.spec_bytes(), ts),
        r matches Err(e) ==> lex_fails_with(input.spec_bytes(), (e.message@, e.span)),
{
    let b = input.as_bytes();
    lex_bytes(b)
}

proof fn lemma_ws_step(b: Seq<u8>, pe: int, i: int)
    requires
        0 <= pe <= i < b.len(),
        gap_ok(b, pe, i),
        !comment_open(b, pe, i),
        is_ws(b[i]),
    ensures
        gap_ok(b, pe, i + 1),
        !comment_open(b, pe, i + 1),
{
    assert forall|k: int| pe <= k < i + 1 implies is_ws(#[trigger] b[k]) || in_comment(b, pe, k) by {
    }
    if comment_open(b, pe, i + 1) {
        let cc = choose|cc: int| pe <= cc < i + 1 && #[trigger] comment_start(b, cc) && no_newline(b, cc, i + 1);
        if cc < i {
            assert(no_newline(b, cc, i));
            assert(comment_open(b, pe, i));
        }
    }
}

/// Skips a line comment that starts at `i`, and the newline that ends it.
fn skip_comment(b: &[u8], i: usize, Ghost(pe): Ghost<int>) -> (j: usize)
    requires
        0 <= pe <= i,
        comment_start(b@, i as int),
        gap_ok(b@, pe, i as int),
        !comment_open(b@, pe, i as int),
    ensures
        i + 2 <= j <= b@.len(),
        gap_ok(b@, pe, j as int),
        j < b@.len() ==> !comment_open(b@, pe, j as int),
{
    let n = b.len();
    let mut j = i + 2;
    while j < n && b[j] != 10
        invariant
            n == b@.len(),
            i + 2 <= j <= n,
            comment_start(b@, i as int),
            no_newline(b@, i as int, j as int),
        decreases n - j,
    {
        j = j + 1;
    }
    proof {
        assert forall|k: int| pe <= k < j implies is_ws(#[trigger] b@[k]) || in_comment(b@, pe, k) by {
            if k >= i {
                assert(no_newline(b@, i as int, k));
                assert(in_comment(b@, pe, k));
            }
        }
    }
    if j < n {
        proof {
            assert forall|k: int| pe <= k < j + 1 implies is_ws(#[trigger] b@[k]) || in_comment(b@, pe, k) by {
                if k < j && k >= i {
                    assert(no_newline(b@, i as int, k));
                    assert(in_comment(b@, pe, k));
                }
            }
            if comment_open(b@, pe, j + 1) {
                let cc = choose|cc: int| pe <= cc < j + 1 && #[trigger] comment_start(b@, cc) && no_newline(b@, cc, j + 1);
                if cc < i {
                    assert(no_newline(b@, cc, i as int));
                    assert(comment_open(b@, pe, i as int));
                } else {
                    assert(b@[j as int] == 10);
                }
            }
        }
        j = j + 1;
    }
    j
}

proof fn lemma_push_token(b: Seq<u8>, ts: Seq<Token>, tok: Token, pe: int)
    requires
        tokens_of(b, ts),
        pe == prev_end(ts, ts.len() as int),
        gap_ok(b, pe, tok.span.start as int),
        !comment_open(b, pe, tok.span.start as int),
        token_ok(b, tok),
    ensures
        tokens_of(b, ts.push(tok)),
        prev_end(ts.push(tok), ts.len() + 1 as int) == tok.span.end as int,
{
    let ns = ts.push(tok);
    assert forall|k: int| 0 <= k < ns.len() implies token_ok(b, #[trigger] ns[k]) && gap_ok(
        b,
        prev_end(ns, k),
        ns[k].span.start as int,
    ) && !comment_open(b, prev_end(ns, k), ns[k].span.start as int) by {
        if k < ts.len() {
            assert(ns[k] == ts[k]);
            if k > 0 {
                assert(ns[k - 1] == ts[k - 1]);
            }
            assert(prev_end(ns, k) == prev_end(ts, k));
        } else {
            if k > 0 {
                assert(ns[k - 1] == ts[k - 1]);
            }
            assert(prev_end(ns, k) == pe);
        }
    }
    assert(ns[ns.len() - 1] == tok);
}

/// Turns UTF-8 bytes into tokens, ending with `Eof`.
pub fn lex_bytes(b: &[u8]) -> (r: Result<Vec<Token>, LexError>)
    ensures
        r matches Ok(ts) ==> lexes_to(b@, ts@),
        r matches Err(e) ==> e.span.start <= e.span.end <= b@.len(),
        r is Err ==> forall|ts: Seq<Token>| !lexes_to(b@, ts),
        r matches Err(e) ==> lex_fails_with(b@, (e.message@, e.span)),
{
    let n = b.len();
    let mut tokens: Vec<Token> = Vec::new();
    let mut i: usize = 0;
    let ghost mut pe: int = 0;
    while i < n
        invariant
            n == b@.len(),
            0 <= pe <= i <= n,
            tokens_of(b@, tokens@),
            pe == prev_end(tokens@, tokens@.len() as int),
            gap_ok(b@, pe, i as int),
            i < n ==> !comment_open(b@, pe, i as int),
            forall|ts2: Seq<Token>| #[trigger] lexes_to(b@, ts2) ==> tokens@.len() < ts2.len() && prev_end(ts2, tokens@.len() as int) == pe,
        decreases n - i,
    {
        let c = b[i];
        if c == 32 || c == 9 || c == 10 || c == 13 {
            proof {
                lemma_ws_step(b@, pe, i as int);
            }
            i = i + 1;
            continue;
        }
        if c == 47 && i + 1 < n && b[i + 1] == 47 {
            i = skip_comment(b, i, Ghost(pe));
            continue;
        }
        let st = i;
        let scanned: Result<(TokenKind, usize), LexError> = if is_ident_start(c) {
            Ok(scan_word(b, st))
        } else if 48 <= c && c <= 57 {
            scan_number(b, st)
        } else if c == 34 {
            scan_string(b, st)
        } else {
            scan_punct(b, st)
        };
        let (kind, en) = match scanned {
            Ok(x) => x,
            Err(e) => {
                proof {
                    assert forall|ts2: Seq<Token>| !lexes_to(b@, ts2) by {
                        if lexes_to(b@, ts2) {
                            let k = tokens@.len() as int;
                            lemma_next_start(b@, ts2, k, pe, st as int);
                            assert(ts2.drop_last()[k] == ts2[k]);
                            assert(token_ok(b@, ts2.drop_last()[k]));
                            assert(kind_ok(b@, st as int, ts2[k].span.end as int, ts2[k].kind));
                        }
                    }
                    assert(tokens_of(b@, tokens@) && scan_error(b@, st as int) == Some((e.message@, e.span)));
                }
                return Err(e);
            },
        };
        let tok = Token { kind, span: Span { start: st, end: en } };
        proof {
            lemma_push_token(b@, tokens@, tok, pe);
            assert forall|ts2: Seq<Token>| #[trigger] lexes_to(b@, ts2) implies tokens@.len() + 1 < ts2.len() && prev_end(
                ts2,
                tokens@.len() + 1int,
            ) == en by {
                let k = tokens@.len() as int;
                lemma_next_start(b@, ts2, k, pe, st as int);
                assert(ts2.drop_last()[k] == ts2[k]);
                assert(token_ok(b@, ts2.drop_last()[k]));
                lemma_end_unique(b@, st as int, ts2[k].span.end as int, ts2[k].kind, en as int, kind);
            }
            pe = en as int;
        }
        tokens.push(tok);
        i = en;
    }
    let ghost body = tokens@;
    tokens.push(Token { kind: TokenKind::Eof, span: Span { start: n, end: n } });
    proof {
        assert(tokens@.drop_last() =~= body);
        if body.len() > 0 {
            assert(tokens@[tokens@.len() - 2] == body[body.len() - 1]);
        }
    }
    Ok(tokens)
}

} // verus!

verus! {

// ---------------------------------------------------------------------------
// Why a text on which the lexer stops has no tokenization at all.
// ---------------------------------------------------------------------------

/// The end of the run of digits that starts at `j`.
pub open spec fn digits_end(b: Seq<u8>, j: int) -> int
    decreases b.len() - j,
{
    if 0 <= j < b.len() && is_digit(b[j]) {
        digits_end(b, j + 1)
    } else {
        j
    }
}

/// The error, if any, of reading the string literal that opens at `st`, with its body read up
/// to `j`: an unfinished literal, an unknown escape, or a byte outside ASCII.
pub open spec fn string_error(b: Seq<u8>, st: int, j: int) -> Option<(Seq<char>, Span)>
    decreases b.len() - j,
{
    if j < 0 || j >= b.len() {
        Some(("unterminated string literal"@, Span { start: st as usize, end: b.len() as usize }))
    } else if b[j] == 34 {
        None
    } else if b[j] == 92 {
        if j + 1 >= b.len() {
            Some(("unterminated string literal"@, Span { start: st as usize, end: (j + 1) as usize }))
        } else if escape_of(b[j + 1]) is None {
            Some(("unknown escape: \\"@ + seq![b[j + 1] as char], Span { start: j as usize, end: (j + 2) as usize }))
        } else {
            string_error(b, st, j + 2)
        }
    } else if b[j] < 128 {
        string_error(b, st, j + 1)
    } else {
        Some(
            (
                "non-ascii characters are not supported in string literals yet"@,
                Span { start: j as usize, end: (j + 1) as usize },
            ),
        )
    }
}

/// The error, if any, of reading a token at `st`, a byte that is neither whitespace nor the
/// start of a comment.
pub open spec fn scan_error(b: Seq<u8>, st: int) -> Option<(Seq<char>, Span)> {
    let c = b[st];
    if is_ident_start_byte(c) {
        None
    } else if is_digit(c) {
        let en = digits_end(b, st);
        if digits_value(b.subrange(st, en)) > i64::MAX {
            Some(
                (
                    "invalid integer literal: "@ + ascii_chars(b.subrange(st, en)),
                    Span { start: st as usize, end: en as usize },
                ),
            )
        } else {
            None
        }
    } else if c == 34 {
        string_error(b, st, st + 1)
    } else if c == 38 && !(st + 1 < b.len() && b[st + 1] == 38) {
        Some(("unexpected '&' (did you mean '&&'?)"@, Span { start: st as usize, end: (st + 1) as usize }))
    } else if c == 124 && !(st + 1 < b.len() && b[st + 1] == 124) {
        Some(("unexpected '|' (did you mean '||'?)"@, Span { start: st as usize, end: (st + 1) as usize }))
    } else if punct_head(c) {
        None
    } else {
        Some(
            (
                "unexpected character: '"@ + seq![c as char] + "'"@,
                Span { start: st as usize, end: (st + 1) as usize },
            ),
        )
    }
}

/// Lexing `b` stops with error `e`: after correct tokens, at the first byte that is neither
/// whitespace nor comment, no token can be read, and reading one there reports `e`.
pub open spec fn lex_fails_with(b: Seq<u8>, e: (Seq<char>, Span)) -> bool {
    exists|ts: Seq<Token>, st: int|
        #![trigger tokens_of(b, ts), scan_error(b, st)]
        tokens_of(b, ts) && 0 <= prev_end(ts, ts.len() as int) <= st < b.len() && gap_ok(b, prev_end(ts, ts.len() as int), st)
            && !comment_open(b, prev_end(ts, ts.len() as int), st) && !is_ws(b[st]) && !comment_start(b, st)
            && scan_error(b, st) == Some(e)
}

/// The kinds spelled as a word: identifiers and keywords.
pub open spec fn word_kind(k: TokenKind) -> bool {
    ||| k is Ident
    ||| k is Let
    ||| k is Fn
    ||| k is If
    ||| k is Else
    ||| k is Return
    ||| k is True
    ||| k is False
}

/// The bytes that begin an operator or a punctuation token.
pub open spec fn punct_head(c: u8) -> bool {
    c == 43 || c == 45 || c == 42 || c == 47 || c == 37 || c == 33 || c == 61 || c == 60 || c == 62
        || c == 58 || c == 44 || c == 59 || c == 35 || c == 40 || c == 41 || c == 123 || c == 125
        || c == 91 || c == 93 || c == 38 || c == 124
}

/// No token, of any kind and length, starts at `st`.
pub open spec fn no_token_from(b: Seq<u8>, st: int) -> bool {
    forall|k: TokenKind, en: int| #[trigger] kind_ok(b, st, en, k) ==> !follow_ok(b, en, k)
}

/// What the first byte of a token tells of its kind.
proof fn lemma_kind_head(b: Seq<u8>, st: int, en: int, k: TokenKind)
    requires
        kind_ok(b, st, en, k),
    ensures
        word_kind(k) <==> is_ident_start_byte(b[st]),
        k is Int <==> is_digit(b[st]),
        k is String <==> b[st] == 34,
        !is_ws(b[st]),
        !word_kind(k) && !(k is Int) && !(k is String) ==> punct_head(b[st]),
        b[st] == 38 ==> en == st + 2 && b[st + 1] == 38,
        b[st] == 124 ==> en == st + 2 && b[st + 1] == 124,
        b[st] == 47 ==> k is Slash && en == st + 1,
{
}


/// A token never starts with whitespace or with `//`.
proof fn lemma_token_head(b: Seq<u8>, st: int, en: int, k: TokenKind)
    requires
        kind_ok(b, st, en, k),
        follow_ok(b, en, k),
    ensures
        !is_ws(b[st]),
        !comment_start(b, st),
{
    lemma_kind_head(b, st, en, k);
}

/// A position inside a comment is where the comment starts, or a comment is running there.
proof fn lemma_in_comment(b: Seq<u8>, pe: int, x: int)
    requires
        in_comment(b, pe, x),
    ensures
        comment_open(b, pe, x) || comment_start(b, x),
{
    let c = choose|c: int| pe <= c <= x && #[trigger] comment_start(b, c) && no_newline(b, c, x);
    if c < x {
        assert(comment_open(b, pe, x));
    }
}

/// In any tokenization of `b` whose token `k` comes after the end `pe` of the one before, that
/// token starts at the first position after `pe` that is neither whitespace nor comment.
proof fn lemma_next_start(b: Seq<u8>, ts: Seq<Token>, k: int, pe: int, st: int)
    requires
        lexes_to(b, ts),
        0 <= k < ts.len(),
        prev_end(ts, k) == pe,
        0 <= pe <= st < b.len(),
        gap_ok(b, pe, st),
        !comment_open(b, pe, st),
        !is_ws(b[st]),
        !comment_start(b, st),
    ensures
        k < ts.len() - 1,
        ts[k].span.start == st,
{
    let body = ts.drop_last();
    if k == ts.len() - 1 {
        assert(is_ws(b[st]) || in_comment(b, pe, st));
        lemma_in_comment(b, pe, st);
    } else {
        assert(body[k] == ts[k]);
        if k > 0 {
            assert(body[k - 1] == ts[k - 1]);
        }
        assert(prev_end(body, k) == pe);
        let t = ts[k];
        let s2 = t.span.start as int;
        assert(token_ok(b, body[k]));
        lemma_token_head(b, s2, t.span.end as int, t.kind);
        if s2 > st {
            assert(gap_ok(b, pe, s2));
            assert(is_ws(b[st]) || in_comment(b, pe, st));
            lemma_in_comment(b, pe, st);
        } else if s2 < st {
            assert(is_ws(b[s2]) || in_comment(b, pe, s2));
            lemma_in_comment(b, pe, s2);
        }
    }
}

/// A string body read from `p` never passes an unescaped quote: where two readings from `p`
/// both succeed, the shorter one does not stop at a quote.
proof fn lemma_str_quote(b: Seq<u8>, p: int, q1: int, q2: int)
    requires
        p <= q1 < q2,
        str_body(b, p, q1) is Some,
        str_body(b, p, q2) is Some,
    ensures
        b[q1] != 34,
    decreases q1 - p,
{
    if p < q1 {
        if b[p] == 92 {
            lemma_str_quote(b, p + 2, q1, q2);
        } else {
            lemma_str_quote(b, p + 1, q1, q2);
        }
    }
}

/// Two tokens that start at the same byte end at the same byte: each is as long as it can be.
proof fn lemma_end_unique(b: Seq<u8>, st: int, e1: int, k1: TokenKind, e2: int, k2: TokenKind)
    requires
        kind_ok(b, st, e1, k1),
        follow_ok(b, e1, k1),
        kind_ok(b, st, e2, k2),
        follow_ok(b, e2, k2),
    ensures
        e1 == e2,
{
    lemma_kind_head(b, st, e1, k1);
    lemma_kind_head(b, st, e2, k2);
    if is_ident_start_byte(b[st]) {
        if e1 < e2 {
            assert(is_ident_continue_byte(b[e1]));
        } else if e2 < e1 {
            assert(is_ident_continue_byte(b[e2]));
        }
    } else if is_digit(b[st]) {
        if e1 < e2 {
            assert(is_digit(b[e1]));
        } else if e2 < e1 {
            assert(is_digit(b[e2]));
        }
    } else if b[st] == 34 {
        if e1 < e2 {
            lemma_str_quote(b, st + 1, e1 - 1, e2 - 1);
        } else if e2 < e1 {
            lemma_str_quote(b, st + 1, e2 - 1, e1 - 1);
        }
    }
}

/// Two token kinds say the same: equal, or an identifier or string literal with the same
/// text.
pub open spec fn same_token_kind(k1: TokenKind, k2: TokenKind) -> bool {
    match (k1, k2) {
        (TokenKind::Ident(a), TokenKind::Ident(c)) => a@ == c@,
        (TokenKind::String(a), TokenKind::String(c)) => a@ == c@,
        _ => k1 == k2,
    }
}

/// The bytes of a token decide its kind.
proof fn lemma_kind_unique(b: Seq<u8>, st: int, en: int, k1: TokenKind, k2: TokenKind)
    requires
        kind_ok(b, st, en, k1),
        kind_ok(b, st, en, k2),
    ensures
        same_token_kind(k1, k2),
{
    lemma_kind_head(b, st, en, k1);
    lemma_kind_head(b, st, en, k2);
}

/// Token `k` of `ts1`, after the same text as in `ts2`, is also a token of `ts2`, with the
/// same span.
proof fn lemma_next_token_agrees(b: Seq<u8>, ts1: Seq<Token>, ts2: Seq<Token>, k: int)
    requires
        lexes_to(b, ts1),
        lexes_to(b, ts2),
        0 <= k < ts1.len() - 1,
        k < ts2.len(),
        prev_end(ts1, k) == prev_end(ts2, k),
    ensures
        k < ts2.len() - 1,
        ts1[k].span == ts2[k].span,
        same_token_kind(ts1[k].kind, ts2[k].kind),
{
    let body1 = ts1.drop_last();
    assert(body1[k] == ts1[k]);
    if k > 0 {
        assert(body1[k - 1] == ts1[k - 1]);
    }
    let t = ts1[k];
    let st = t.span.start as int;
    assert(token_ok(b, body1[k]));
    lemma_token_head(b, st, t.span.end as int, t.kind);
    lemma_next_start(b, ts2, k, prev_end(ts1, k), st);
    let body2 = ts2.drop_last();
    assert(body2[k] == ts2[k]);
    assert(token_ok(b, body2[k]));
    lemma_end_unique(b, st, t.span.end as int, t.kind, ts2[k].span.end as int, ts2[k].kind);
    lemma_kind_unique(b, st, t.span.end as int, t.kind, ts2[k].kind);
}

/// Two tokenizations of `b` agree on the spans of their first `k` tokens.
proof fn lemma_prefix_agrees(b: Seq<u8>, ts1: Seq<Token>, ts2: Seq<Token>, k: int)
    requires
        lexes_to(b, ts1),
        lexes_to(b, ts2),
        0 <= k < ts1.len(),
        k < ts2.len(),
    ensures
        prev_end(ts1, k) == prev_end(ts2, k),
        forall|j: int| 0 <= j < k ==> #[trigger] ts1[j].span == ts2[j].span && same_token_kind(ts1[j].kind, ts2[j].kind),
    decreases k,
{
    if k > 0 {
        lemma_prefix_agrees(b, ts1, ts2, k - 1);
        lemma_next_token_agrees(b, ts1, ts2, k - 1);
    }
}

/// A text has at most one tokenization: any two have as many tokens, with the same spans
/// and kinds (identifiers and string literals with the same text).
pub proof fn lemma_tokens_unique(b: Seq<u8>, ts1: Seq<Token>, ts2: Seq<Token>)
    requires
        lexes_to(b, ts1),
        lexes_to(b, ts2),
    ensures
        ts1.len() == ts2.len(),
        forall|j: int| 0 <= j < ts1.len() ==> #[trigger] ts1[j].span == ts2[j].span && same_token_kind(ts1[j].kind, ts2[j].kind),
{
    let k = if ts1.len() <= ts2.len() { ts1.len() - 1 } else { ts2.len() - 1 };
    lemma_prefix_agrees(b, ts1, ts2, k);
    if k < ts1.len() - 1 {
        lemma_next_token_agrees(b, ts1, ts2, k);
    } else if k < ts2.len() - 1 {
        lemma_next_token_agrees(b, ts2, ts1, k);
    }
    assert(ts1.len() == ts2.len());
    assert forall|j: int| 0 <= j < ts1.len() implies #[trigger] ts1[j].span == ts2[j].span && same_token_kind(
        ts1[j].kind,
        ts2[j].kind,
    ) by {
        if j == ts1.len() - 1 {
            assert(ts1[j] == ts1.last());
            assert(ts2[j] == ts2.last());
        }
    }
}

} // verus!
