use vstd::prelude::*;
use vstd::string::StringSliceAdditionalSpecFns;
use crate::ast::{Program, Stmt};
use crate::grammar::parses_program;
use crate::lexer::{ascii_chars, lex, lex_fails_with, lexes_to};
use crate::lexer::Token;
use crate::namemap::NameMap;
use crate::parser::{parse, program_parsed};
use crate::span::Span;
use crate::text::{string_append, string_push};
use crate::typechecker::{check_program, check_program_with_spans, program_tc, program_trace, trace_of};
use crate::types::{Type, ty_eq, tv_text, tview};

verus! {

/// A position in a text as an editor counts it: a 0-based line, and a 0-based column in
/// UTF-16 code units.
#[derive(Debug, Clone, Copy, PartialEq, Eq, Structural)]
pub struct Position {
    pub line: u32,
    pub character: u32,
}

/// A range between two positions.
#[derive(Debug, Clone, Copy, PartialEq, Eq, Structural)]
pub struct Range {
    pub start: Position,
    pub end: Position,
}

/// The number of bytes of the UTF-8 character whose first byte is `c`.
pub open spec fn char_width(c: u8) -> int {
    if c < 0x80 {
        1
    } else if 0xc0 <= c <= 0xdf {
        2
    } else if 0xe0 <= c <= 0xef {
        3
    } else if 0xf0 <= c <= 0xf7 {
        4
    } else {
        1
    }
}


/// The number of UTF-16 code units of the character at `i`: two for a four-byte character
/// (a surrogate pair), else one.
pub open spec fn utf16_units(b: Seq<u8>, i: int) -> int {
    if step_width(b, i) == 4 {
        2
    } else {
        1
    }
}

/// The width of the character at `i`, cut at the end of the text.
pub open spec fn step_width(b: Seq<u8>, i: int) -> int {
    let w = char_width(b[i]);
    if i + w <= b.len() {
        w
    } else {
        b.len() - i
    }
}

/// Walking the characters of `b` from byte `i` at position `(line, col)`, the position reached
/// at the first character that starts at or after byte `stop` (or at the end).
pub open spec fn position_scan(b: Seq<u8>, i: int, stop: int, line: int, col: int) -> (int, int)
    decreases b.len() - i,
{
    if i >= b.len() || i >= stop || i < 0 {
        (line, col)
    } else if b[i] == 10 {
        position_scan(b, i + 1, stop, line + 1, 0)
    } else {
        position_scan(b, i + step_width(b, i), stop, line, col + utf16_units(b, i))
    }
}

/// Walking the characters of `b` from byte `i` at position `(line, col)`, the byte offset of
/// the first character that starts at or after position `(tl, tc)` (or the end of the text).
pub open spec fn offset_scan(b: Seq<u8>, i: int, tl: int, tc: int, line: int, col: int) -> int
    decreases b.len() - i,
{
    if i >= b.len() || i < 0 {
        b.len() as int
    } else if line > tl || (line == tl && col >= tc) {
        i
    } else if b[i] == 10 {
        offset_scan(b, i + 1, tl, tc, line + 1, 0)
    } else {
        offset_scan(b, i + step_width(b, i), tl, tc, line, col + utf16_units(b, i))
    }
}

/// The walk over the characters of `b` from byte `i` reaches byte `o`: `o` is where a
/// character starts, or the end of the text.
pub open spec fn reaches(b: Seq<u8>, i: int, o: int) -> bool
    decreases b.len() - i,
{
    if i == o {
        0 <= i <= b.len()
    } else if i < 0 || i >= b.len() || i > o {
        false
    } else if b[i] == 10 {
        reaches(b, i + 1, o)
    } else {
        reaches(b, i + step_width(b, i), o)
    }
}

/// The walk never goes back: the position reached is at or after the starting one.
proof fn lemma_scan_forward(b: Seq<u8>, i: int, stop: int, line: int, col: int)
    ensures
        ({
            let (l, c) = position_scan(b, i, stop, line, col);
            l > line || (l == line && c >= col)
        }),
    decreases b.len() - i,
{
    if i >= b.len() || i >= stop || i < 0 {
    } else if b[i] == 10 {
        lemma_scan_forward(b, i + 1, stop, line + 1, 0);
    } else {
        assert(step_width(b, i) >= 1);
        lemma_scan_forward(b, i + step_width(b, i), stop, line, col + utf16_units(b, i));
    }
}

proof fn lemma_roundtrip_from(b: Seq<u8>, i: int, o: int, line: int, col: int)
    requires
        reaches(b, i, o),
    ensures
        offset_scan(b, i, position_scan(b, i, o, line, col).0, position_scan(b, i, o, line, col).1, line, col) == o,
    decreases b.len() - i,
{
    let (l, c) = position_scan(b, i, o, line, col);
    if i == o {
    } else if b[i] == 10 {
        lemma_scan_forward(b, i + 1, o, line + 1, 0);
        lemma_roundtrip_from(b, i + 1, o, line + 1, 0);
    } else {
        assert(step_width(b, i) >= 1);
        lemma_scan_forward(b, i + step_width(b, i), o, line, col + utf16_units(b, i));
        lemma_roundtrip_from(b, i + step_width(b, i), o, line, col + utf16_units(b, i));
    }
}

/// Where a character starts (or at the end of the text), converting a byte offset to an
/// editor position and back gives the offset.
pub proof fn lemma_offset_position_roundtrip(b: Seq<u8>, o: int)
    requires
        reaches(b, 0, o),
    ensures
        offset_scan(b, 0, position_scan(b, 0, o, 0, 0).0, position_scan(b, 0, o, 0, 0).1, 0, 0) == o,
{
    lemma_roundtrip_from(b, 0, o, 0, 0);
}

fn width_of(c: u8) -> (w: usize)
    ensures
        w == char_width(c),
{
    if c < 0x80 {
        1
    } else if 0xc0 <= c && c <= 0xdf {
        2
    } else if 0xe0 <= c && c <= 0xef {
        3
    } else if 0xf0 <= c && c <= 0xf7 {
        4
    } else {
        1
    }
}

/// The editor position of byte offset `offset`; an offset past the end counts as the end,
/// and one inside a character counts as the end of that character.
pub fn position_from_offset_utf16(text: &str, offset: usize) -> (p: Position)
    requires
        text.spec_bytes().len() <= u32::MAX,
    ensures
        p.line == position_scan(text.spec_bytes(), 0, offset as int, 0, 0).0,
        p.character == position_scan(text.spec_bytes(), 0, offset as int, 0, 0).1,
{
    let b = text.as_bytes();
    let n = b.len();
    let mut line: u32 = 0;
    let mut col: u32 = 0;
    let mut i: usize = 0;
    while i < n && i < offset
        invariant
            n == b@.len(),
            n <= u32::MAX,
            0 <= i <= n,
            line <= i,
            col <= i,
            position_scan(b@, 0, offset as int, 0, 0) == position_scan(b@, i as int, offset as int, line as int, col as int),
        decreases n - i,
    {
        if b[i] == 10 {
            line = line + 1;
            col = 0;
            i = i + 1;
        } else {
            let w = width_of(b[i]);
            let w = if w <= n - i { w } else { n - i };
            let units: u32 = if w == 4 { 2 } else { 1 };
            col = col + units;
            i = i + w;
        }
    }
    Position { line, character: col }
}

/// The byte offset of editor position `position`: the first character at or after it, or
/// the end of the text.
pub fn offset_from_position_utf16(text: &str, position: Position) -> (o: usize)
    requires
        text.spec_bytes().len() <= u32::MAX,
    ensures
        o == offset_scan(
            text.spec_bytes(),
            0,
            position.line as int,
            position.character as int,
            0,
            0,
        ),
{
    let b = text.as_bytes();
    let n = b.len();
    let tl = position.line;
    let tc = position.character;
    let mut line: u32 = 0;
    let mut col: u32 = 0;
    let mut i: usize = 0;
    while i < n
        invariant
            n == b@.len(),
            b@ == text.spec_bytes(),
            tl == position.line,
            tc == position.character,
            n <= u32::MAX,
            0 <= i <= n,
            line <= i,
            col <= i,
            offset_scan(b@, 0, tl as int, tc as int, 0, 0) == offset_scan(
                b@,
                i as int,
                tl as int,
                tc as int,
                line as int,
                col as int,
            ),
        decreases n - i,
    {
        if line > tl || (line == tl && col >= tc) {
            assert(offset_scan(b@, i as int, tl as int, tc as int, line as int, col as int) == i as int);
            return i;
        }
        if b[i] == 10 {
            line = line + 1;
            col = 0;
            i = i + 1;
        } else {
            let w = width_of(b[i]);
            let w = if w <= n - i { w } else { n - i };
            let units: u32 = if w == 4 { 2 } else { 1 };
            col = col + units;
            i = i + w;
        }
    }
    n
}

/// The editor range of a span.
pub fn range_from_span_utf16(text: &str, span: Span) -> (r: Range)
    requires
        text.spec_bytes().len() <= u32::MAX,
    ensures
        r.start.line == position_scan(text.spec_bytes(), 0, span.start as int, 0, 0).0,
        r.start.character == position_scan(text.spec_bytes(), 0, span.start as int, 0, 0).1,
        r.end.line == position_scan(text.spec_bytes(), 0, span.end as int, 0, 0).0,
        r.end.character == position_scan(text.spec_bytes(), 0, span.end as int, 0, 0).1,
{
    let start = position_from_offset_utf16(text, span.start);
    let end = position_from_offset_utf16(text, span.end);
    Range { start, end }
}

/// A byte of an identifier: an ASCII letter or digit, or `_`.
pub open spec fn ident_byte(c: u8) -> bool {
    (48 <= c <= 57) || (65 <= c <= 90) || (97 <= c <= 122) || c == 95
}

pub fn is_ident_char(c: u8) -> (r: bool)
    ensures
        r == ident_byte(c),
{
    (48 <= c && c <= 57) || (65 <= c && c <= 90) || (97 <= c && c <= 122) || c == 95
}

/// Where the identifier that `offset` falls on begins: `offset` is first moved inside the
/// text, and, when it is not on an identifier byte, one byte to the left.
pub open spec fn ident_anchor(b: Seq<u8>, offset: int) -> Option<int> {
    if b.len() == 0 {
        None
    } else {
        let i = if offset < b.len() - 1 { offset } else { b.len() - 1 };
        if ident_byte(b[i]) {
            Some(i)
        } else if i > 0 && ident_byte(b[i - 1]) {
            Some(i - 1)
        } else {
            None
        }
    }
}

/// Where the run of identifier bytes that ends at `i` begins.
pub open spec fn run_start(b: Seq<u8>, i: int) -> int
    decreases i,
{
    if i > 0 && i <= b.len() && ident_byte(b[i - 1]) {
        run_start(b, i - 1)
    } else {
        i
    }
}

/// Where the run of identifier bytes that starts at `e` ends.
pub open spec fn run_end(b: Seq<u8>, e: int) -> int
    decreases b.len() - e,
{
    if 0 <= e < b.len() && ident_byte(b[e]) {
        run_end(b, e + 1)
    } else {
        e
    }
}

/// The bounds of the identifier under `offset`, if any.
pub open spec fn ident_bounds(b: Seq<u8>, offset: int) -> Option<(int, int)> {
    match ident_anchor(b, offset) {
        Some(i) => Some((run_start(b, i), run_end(b, i + 1))),
        None => None,
    }
}

/// The identifier under `offset`, if any.
pub fn ident_at_offset(text: &str, offset: usize) -> (r: Option<String>)
    ensures
        match ident_bounds(text.spec_bytes(), offset as int) {
            None => r is None,
            Some((a, e)) => r matches Some(s) && s@ == ascii_chars(text.spec_bytes().subrange(a, e)),
        },
{
    let b = text.as_bytes();
    let n = b.len();
    if n == 0 {
        return None;
    }
    let mut i = if offset < n - 1 { offset } else { n - 1 };
    if !is_ident_char(b[i]) {
        if i == 0 || !is_ident_char(b[i - 1]) {
            return None;
        }
        i = i - 1;
    }
    let mut start = i;
    while start > 0 && is_ident_char(b[start - 1])
        invariant
            start <= i < n,
            n == b@.len(),
            run_start(b@, start as int) == run_start(b@, i as int),
        decreases start,
    {
        start = start - 1;
    }
    let mut end = i + 1;
    while end < n && is_ident_char(b[end])
        invariant
            i < end <= n,
            n == b@.len(),
            run_end(b@, end as int) == run_end(b@, i + 1),
        decreases n - end,
    {
        end = end + 1;
    }
    let mut s = String::new();
    let mut j = start;
    while j < end
        invariant
            start <= j <= end <= n,
            n == b@.len(),
            s@ == ascii_chars(b@.subrange(start as int, j as int)),
        decreases end - j,
    {
        string_push(&mut s, b[j] as char);
        assert(b@.subrange(start as int, j + 1) =~= b@.subrange(start as int, j as int).push(b@[j as int]));
        assert(s@ =~= ascii_chars(b@.subrange(start as int, j + 1)));
        j = j + 1;
    }
    assert(ident_anchor(b@, offset as int) == Some(i as int));
    Some(s)
}

/// The spans of the top-level definitions of `stmts`, by name; a later definition of a name
/// replaces an earlier one.
pub open spec fn defs_spec(stmts: Seq<Stmt>) -> Map<Seq<char>, Span>
    decreases stmts.len(),
{
    if stmts.len() == 0 {
        Map::empty()
    } else {
        let before = defs_spec(stmts.drop_last());
        match stmts.last() {
            Stmt::Fn { name, span, .. } => before.insert(name@, span),
            Stmt::Let { name, span, .. } => before.insert(name@, span),
            _ => before,
        }
    }
}

/// The top-level functions and variables of a program, with the span of their definition.
pub fn collect_top_level_defs(program: &Program) -> (defs: NameMap<Span>)
    ensures
        defs.wf(),
        defs@ == defs_spec(program.stmts@),
{
    let mut defs: NameMap<Span> = NameMap::new();
    let mut i: usize = 0;
    assert(program.stmts@.take(0) =~= Seq::<Stmt>::empty());
    while i < program.stmts.len()
        invariant
            defs.wf(),
            i <= program.stmts@.len(),
            defs@ == defs_spec(program.stmts@.take(i as int)),
        decreases program.stmts@.len() - i,
    {
        proof {
            let t = program.stmts@.take(i + 1);
            assert(t.drop_last() =~= program.stmts@.take(i as int));
            assert(t.last() == program.stmts@[i as int]);
        }
        match &program.stmts[i] {
            Stmt::Fn { name, span, .. } => defs.insert(name.clone(), *span),
            Stmt::Let { name, span, .. } => defs.insert(name.clone(), *span),
            _ => {},
        }
        i = i + 1;
    }
    assert(program.stmts@.take(program.stmts@.len() as int) =~= program.stmts@);
    defs
}

/// What kind of thing a completion names.
#[derive(Debug, Clone, Copy, PartialEq, Eq, Structural)]
pub enum CompletionKind {
    Keyword,
    Class,
    Function,
}

/// A completion the editor may offer: its label, what it names, and the text it inserts.
#[derive(Debug)]
pub struct Completion {
    pub label: String,
    pub kind: CompletionKind,
    pub insert_text: String,
}

/// The completions offered everywhere: the keywords, the type names and the builtin `gc`.
pub open spec fn completion_labels() -> Seq<Seq<char>> {
    seq![
        "let"@, "fn"@, "if"@, "else"@, "true"@, "false"@, "Int"@, "Bool"@, "String"@, "Unit"@,
        "Array"@, "Object"@, "gc"@,
    ]
}

fn completion(label: &str, kind: CompletionKind) -> (c: Completion)
    ensures
        c.label@ == label@,
        c.insert_text@ == label@,
        c.kind == kind,
{
    let mut l = String::new();
    string_append(&mut l, label);
    let mut t = String::new();
    string_append(&mut t, label);
    Completion { label: l, kind, insert_text: t }
}

/// The completions the server offers, in order: keywords, then types, then builtins.
pub fn static_completions() -> (items: Vec<Completion>)
    ensures
        items@.len() == completion_labels().len(),
        forall|i: int| 0 <= i < items@.len() ==> (#[trigger] items@[i]).label@ == completion_labels()[i]
            && items@[i].insert_text@ == completion_labels()[i],
        forall|i: int| 0 <= i < 6 ==> (#[trigger] items@[i]).kind == CompletionKind::Keyword,
        forall|i: int| 6 <= i < 12 ==> (#[trigger] items@[i]).kind == CompletionKind::Class,
        items@[12].kind == CompletionKind::Function,
{
    let mut items: Vec<Completion> = Vec::new();
    items.push(completion("let", CompletionKind::Keyword));
    items.push(completion("fn", CompletionKind::Keyword));
    items.push(completion("if", CompletionKind::Keyword));
    items.push(completion("else", CompletionKind::Keyword));
    items.push(completion("true", CompletionKind::Keyword));
    items.push(completion("false", CompletionKind::Keyword));
    items.push(completion("Int", CompletionKind::Class));
    items.push(completion("Bool", CompletionKind::Class));
    items.push(completion("String", CompletionKind::Class));
    items.push(completion("Unit", CompletionKind::Class));
    items.push(completion("Array", CompletionKind::Class));
    items.push(completion("Object", CompletionKind::Class));
    items.push(completion("gc", CompletionKind::Function));
    items
}

/// The width of a span for choosing the innermost one: its length, at least 1.
pub open spec fn span_width(sp: Span) -> int {
    if sp.end > sp.start {
        sp.end - sp.start
    } else {
        1
    }
}

/// Among the first `k` entries, the index of the narrowest span that contains `p`; the first
/// one when several are equally narrow.
pub open spec fn narrowest<T>(s: Seq<(Span, T)>, p: int, k: int) -> Option<int>
    decreases k,
{
    if k <= 0 {
        None
    } else {
        let prev = narrowest(s, p, k - 1);
        let sp = s[k - 1].0;
        if sp.start <= p < sp.end && (prev is None || span_width(sp) < span_width(s[prev->0].0)) {
            Some(k - 1)
        } else {
            prev
        }
    }
}

/// The entry a hover at `p` shows: the narrowest span that contains `p`, or else one that
/// contains `p - 1`.
pub open spec fn hover_index<T>(s: Seq<(Span, T)>, p: int) -> Option<int> {
    match narrowest(s, p, s.len() as int) {
        Some(i) => Some(i),
        None => if p > 0 {
            narrowest(s, p - 1, s.len() as int)
        } else {
            None
        },
    }
}

proof fn lemma_narrowest_bound<T>(s: Seq<(Span, T)>, p: int, k: int)
    ensures
        narrowest(s, p, k) matches Some(j) ==> 0 <= j < k,
    decreases k,
{
    if k > 0 {
        lemma_narrowest_bound(s, p, k - 1);
    }
}

/// Which entry a hover picks depends on the spans alone.
proof fn lemma_narrowest_spans<A, B>(s: Seq<(Span, A)>, t: Seq<(Span, B)>, p: int, k: int)
    requires
        s.len() == t.len(),
        forall|i: int| 0 <= i < s.len() ==> #[trigger] s[i].0 == t[i].0,
        k <= s.len(),
    ensures
        narrowest(s, p, k) == narrowest(t, p, k),
    decreases k,
{
    if k > 0 {
        lemma_narrowest_spans(s, t, p, k - 1);
        lemma_narrowest_bound(s, p, k - 1);
    }
}

fn narrowest_at(types: &Vec<(Span, Type)>, p: usize) -> (r: Option<usize>)
    ensures
        match r {
            Some(k) => narrowest(types@, p as int, types@.len() as int) == Some(k as int) && k < types@.len(),
            None => narrowest(types@, p as int, types@.len() as int) is None,
        },
{
    let mut best: Option<usize> = None;
    let mut best_len: usize = 0;
    let mut i: usize = 0;
    while i < types.len()
        invariant
            i <= types@.len(),
            match best {
                Some(k) => narrowest(types@, p as int, i as int) == Some(k as int) && k < i && best_len == span_width(types@[k as int].0),
                None => narrowest(types@, p as int, i as int) is None,
            },
        decreases types@.len() - i,
    {
        let sp = types[i].0;
        if sp.start <= p && p < sp.end {
            let len = if sp.end > sp.start { sp.end - sp.start } else { 1 };
            if best.is_none() || len < best_len {
                best = Some(i);
                best_len = len;
            }
        }
        i = i + 1;
    }
    best
}

/// The span and type that a hover at byte offset `offset` shows.
pub fn type_at(types: &Vec<(Span, Type)>, offset: usize) -> (r: Option<(Span, Type)>)
    ensures
        match hover_index(types@, offset as int) {
            Some(i) => r matches Some((sp, t)) && sp == types@[i].0 && ty_eq(t, types@[i].1),
            None => r is None,
        },
{
    proof {
        lemma_narrowest_bound(types@, offset as int, types@.len() as int);
        if offset > 0 {
            lemma_narrowest_bound(types@, offset - 1, types@.len() as int);
        }
    }
    match narrowest_at(types, offset) {
        Some(i) => {
            let sp = types[i].0;
            let t = types[i].1.copy();
            return Some((sp, t));
        },
        None => {},
    }
    if offset == 0 {
        return None;
    }
    match narrowest_at(types, offset - 1) {
        Some(i) => Some((types[i].0, types[i].1.copy())),
        None => None,
    }
}

/// The text `b` lexes to tokens that parse to `prog`.
pub open spec fn reads_as(b: Seq<u8>, prog: Program) -> bool {
    exists|ts: Seq<Token>| #[trigger] lexes_to(b, ts) && parses_program(ts, Ok(prog))
}

/// The text `b` lexes to tokens that fail to parse with the error `e`.
pub open spec fn parse_fails(b: Seq<u8>, e: (Seq<char>, Span)) -> bool {
    exists|ts: Seq<Token>| #[trigger] lexes_to(b, ts) && parses_program(ts, Err(e))
}

/// The text `b` has no tokenization, and lexing it stops with an error whose span is `sp`
/// and whose message, after `lex error: `, is `m`.
pub open spec fn lex_problem(b: Seq<u8>, sp: Span, m: Seq<char>) -> bool {
    &&& forall|ts: Seq<Token>| !lexes_to(b, ts)
    &&& exists|msg: Seq<char>| #[trigger] lex_fails_with(b, (msg, sp)) && m == "lex error: "@ + msg
}

/// The tokens of `b` fail to parse with an error whose span is `sp` and whose message, after
/// `parse error: `, is `m`.
pub open spec fn parse_problem(b: Seq<u8>, sp: Span, m: Seq<char>) -> bool {
    exists|msg: Seq<char>| #[trigger] parse_fails(b, (msg, sp)) && m == "parse error: "@ + msg
}

/// The program `b` reads as has a type error whose span is `sp` and whose message, after
/// `type error: `, is `m`.
pub open spec fn type_problem(b: Seq<u8>, sp: Span, m: Seq<char>) -> bool {
    exists|prog: Program|
        #[trigger] reads_as(b, prog) && (program_tc(prog) matches Err((msg, esp)) && esp == sp && m == "type error: "@
            + msg)
}

/// The message of the first problem in `text`, and its span: a lex error, a parse error or a
/// type error, in this order; `None` when the program checks.
pub fn diagnostic(text: &str) -> (r: Option<(Span, String)>)
    ensures
        match r {
            None => exists|prog: Program| #[trigger] reads_as(text.spec_bytes(), prog) && program_tc(prog) is Ok,
            Some((sp, m)) => lex_problem(text.spec_bytes(), sp, m@) || parse_problem(text.spec_bytes(), sp, m@)
                || type_problem(text.spec_bytes(), sp, m@),
        },
{
    let tokens = match lex(text) {
        Ok(t) => t,
        Err(e) => {
            let mut m = String::new();
            string_append(&mut m, "lex error: ");
            string_append(&mut m, e.message.as_str());
            proof {
                assert(m@ =~= "lex error: "@ + e.message@);
                assert(lex_fails_with(text.spec_bytes(), (e.message@, e.span)));
                assert(lex_problem(text.spec_bytes(), e.span, m@));
            }
            return Some((e.span, m));
        },
    };
    let ghost ts = tokens@;
    let rp = parse(tokens);
    proof {
        assert(lexes_to(text.spec_bytes(), ts));
    }
    let program = match rp {
        Ok(p) => p,
        Err(e) => {
            let mut m = String::new();
            string_append(&mut m, "parse error: ");
            string_append(&mut m, e.message.as_str());
            proof {
                assert(m@ =~= "parse error: "@ + e.message@);
                assert(parse_fails(text.spec_bytes(), (e.message@, e.span)));
                assert(parse_problem(text.spec_bytes(), e.span, m@));
            }
            return Some((e.span, m));
        },
    };
    proof {
        assert(reads_as(text.spec_bytes(), program));
    }
    match check_program(&program) {
        Ok(_) => None,
        Err(e) => {
            let mut m = String::new();
            string_append(&mut m, "type error: ");
            string_append(&mut m, e.message.as_str());
            proof {
                assert(m@ =~= "type error: "@ + e.message@);
                assert(type_problem(text.spec_bytes(), e.span, m@));
            }
            Some((e.span, m))
        },
    }
}

/// The span of the top-level definition of `name` in `program`, if it has one.
pub fn definition_in(program: &Program, name: &str) -> (r: Option<Span>)
    ensures
        r == (if defs_spec(program.stmts@).contains_key(name@) {
            Some(defs_spec(program.stmts@)[name@])
        } else {
            None
        }),
{
    let defs = collect_top_level_defs(program);
    match defs.get(name) {
        Some(sp) => Some(*sp),
        None => None,
    }
}

/// Every way of reading `b` (a tokenization, and what its tokens parse to) gives a parse
/// result that satisfies `ok`. Lexing and parsing are functions, so this says that the one
/// reading of `b` satisfies `ok`.
pub open spec fn every_reading(b: Seq<u8>, ok: spec_fn(Result<Program, (Seq<char>, Span)>) -> bool) -> bool {
    forall|ts: Seq<Token>, r: Result<Program, (Seq<char>, Span)>|
        #![trigger lexes_to(b, ts), parses_program(ts, r)]
        lexes_to(b, ts) && parses_program(ts, r) ==> ok(r)
}

/// The program of a parse result defines `name` at top level.
pub open spec fn defines(r: Result<Program, (Seq<char>, Span)>, name: Seq<char>) -> bool {
    r matches Ok(p) && defs_spec(p.stmts@).contains_key(name)
}

/// The program of a parse result checks, and a hover at `offset` finds an expression type.
pub open spec fn hover_found(r: Result<Program, (Seq<char>, Span)>, offset: int) -> bool {
    r matches Ok(p) && program_tc(p) is Ok && hover_index(program_trace(p), offset) is Some
}

/// Where the top-level definition of the name under `offset` is.
pub fn definition_at(text: &str, offset: usize) -> (r: Option<Span>)
    ensures
        match ident_bounds(text.spec_bytes(), offset as int) {
            None => r is None,
            Some((a, e)) => r matches Some(sp) ==> exists|prog: Program|
                #[trigger] reads_as(text.spec_bytes(), prog) && defs_spec(prog.stmts@).contains_key(
                    ascii_chars(text.spec_bytes().subrange(a, e)),
                ) && defs_spec(prog.stmts@)[ascii_chars(text.spec_bytes().subrange(a, e))] == sp,
        },
        (forall|ts: Seq<Token>| !lexes_to(text.spec_bytes(), ts)) ==> r is None,
        ident_bounds(text.spec_bytes(), offset as int) matches Some((a, e)) && (exists|ts: Seq<Token>|
            lexes_to(text.spec_bytes(), ts)) && every_reading(
            text.spec_bytes(),
            (|x: Result<Program, (Seq<char>, Span)>| defines(x, ascii_chars(text.spec_bytes().subrange(a, e)))),
        ) ==> r is Some,
        ident_bounds(text.spec_bytes(), offset as int) matches Some((a, e)) && every_reading(
            text.spec_bytes(),
            (|x: Result<Program, (Seq<char>, Span)>| !defines(x, ascii_chars(text.spec_bytes().subrange(a, e)))),
        ) ==> r is None,
{
    let name = match ident_at_offset(text, offset) {
        Some(n) => n,
        None => {
            return None;
        },
    };
    let tokens = match lex(text) {
        Ok(t) => t,
        Err(_) => {
            return None;
        },
    };
    let ghost ts = tokens@;
    let rp = parse(tokens);
    proof {
        assert(lexes_to(text.spec_bytes(), ts));
        assert(parses_program(ts, program_parsed(rp)));
    }
    let program = match rp {
        Ok(p) => p,
        Err(_) => {
            return None;
        },
    };
    proof {
        assert(reads_as(text.spec_bytes(), program));
    }
    definition_in(&program, name.as_str())
}

/// The hover at byte offset `offset` among the expression types `types`: the span of the
/// narrowest expression there, and `**Type:** ` with its type in backquotes.
pub fn hover_text(types: &Vec<(Span, Type)>, offset: usize) -> (r: Option<(Span, String)>)
    ensures
        match hover_index(trace_of(types@), offset as int) {
            Some(i) => r matches Some((sp, m)) && sp == trace_of(types@)[i].0 && m@ == "**Type:** `"@ + tv_text(
                trace_of(types@)[i].1,
            ) + "`"@,
            None => r is None,
        },
{
    proof {
        lemma_hover_trace(types@, offset as int);
    }
    match type_at(types, offset) {
        Some((sp, ty)) => {
            proof {
                let i = hover_index(types@, offset as int)->0;
                crate::types::lemma_ty_eq_view(ty, types@[i].1);
                lemma_narrowest_bound(types@, offset as int, types@.len() as int);
                lemma_narrowest_bound(types@, offset - 1, types@.len() as int);
                assert(0 <= i < types@.len());
                assert(trace_of(types@)[i] == (types@[i].0, tview(types@[i].1)));
            }
            let mut m = String::new();
            string_append(&mut m, "**Type:** `");
            let t = ty.to_text();
            string_append(&mut m, t.as_str());
            string_append(&mut m, "`");
            Some((sp, m))
        },
        None => None,
    }
}

/// The hover text at `offset` (`**Type:** `, then the type in backquotes) and the span it
/// covers, for a text that lexes, parses and checks: of the expression types that checking
/// records, the narrowest one there.
pub fn hover_at(text: &str, offset: usize) -> (r: Option<(Span, String)>)
    ensures
        r matches Some((sp, m)) ==> exists|prog: Program|
            #[trigger] reads_as(text.spec_bytes(), prog) && program_tc(prog) is Ok && (hover_index(
                program_trace(prog),
                offset as int,
            ) matches Some(i) && sp == program_trace(prog)[i].0 && m@ == "**Type:** `"@ + tv_text(
                program_trace(prog)[i].1,
            ) + "`"@),
        (forall|ts: Seq<Token>| !lexes_to(text.spec_bytes(), ts)) ==> r is None,
        (exists|ts: Seq<Token>| lexes_to(text.spec_bytes(), ts)) && every_reading(
            text.spec_bytes(),
            (|x: Result<Program, (Seq<char>, Span)>| hover_found(x, offset as int)),
        ) ==> r is Some,
        every_reading(text.spec_bytes(), (|x: Result<Program, (Seq<char>, Span)>| !hover_found(x, offset as int)))
            ==> r is None,
{
    let tokens = match lex(text) {
        Ok(t) => t,
        Err(_) => {
            return None;
        },
    };
    let ghost ts = tokens@;
    let rp = parse(tokens);
    proof {
        assert(lexes_to(text.spec_bytes(), ts));
        assert(parses_program(ts, program_parsed(rp)));
    }
    let program = match rp {
        Ok(p) => p,
        Err(_) => {
            return None;
        },
    };
    proof {
        assert(reads_as(text.spec_bytes(), program));
    }
    let info = match check_program_with_spans(&program) {
        Ok(i) => i,
        Err(_) => {
            return None;
        },
    };
    hover_text(&info.expr_types, offset)
}

/// A hover over recorded types shows what it would show over their values.
proof fn lemma_hover_trace(tys: Seq<(Span, Type)>, p: int)
    ensures
        hover_index(tys, p) == hover_index(trace_of(tys), p),
        forall|i: int| 0 <= i < tys.len() ==> #[trigger] trace_of(tys)[i] == (tys[i].0, tview(tys[i].1)),
{
    let tr = trace_of(tys);
    assert forall|i: int| 0 <= i < tys.len() implies #[trigger] tys[i].0 == tr[i].0 by {}
    lemma_narrowest_spans(tys, tr, p, tys.len() as int);
    lemma_narrowest_spans(tys, tr, p - 1, tys.len() as int);
}

} // verus!
