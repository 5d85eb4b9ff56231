use vstd::prelude::*;
use vstd::string::StringSliceAdditionalSpecFns;
use vstd::utf8::{decode_utf8, encode_utf8, is_char_boundary, valid_utf8};
use crate::span::Span;
use crate::text::{decimal, push_decimal, string_append, string_push};

verus! {

/// A source file: where it comes from, and its text.
#[derive(Debug)]
pub struct Source {
    pub path: String,
    pub text: String,
}

/// The number of newline bytes in `b[0..k)`.
pub open spec fn newlines_before(b: Seq<u8>, k: int) -> nat
    decreases k,
{
    if k <= 0 {
        0
    } else {
        newlines_before(b, k - 1) + if b[k - 1] == 10 { 1nat } else { 0nat }
    }
}

/// Where the line that holds offset `k` starts: just after the last newline before `k`.
pub open spec fn line_start(b: Seq<u8>, k: int) -> int
    decreases k,
{
    if k <= 0 {
        0
    } else if b[k - 1] == 10 {
        k
    } else {
        line_start(b, k - 1)
    }
}

/// Where the line that holds offset `k` ends: at the first newline at or after `k`, else at
/// the end of the text.
pub open spec fn line_end(b: Seq<u8>, k: int) -> int
    decreases b.len() - k,
{
    if k >= b.len() {
        b.len() as int
    } else if b[k] == 10 {
        k
    } else {
        line_end(b, k + 1)
    }
}

/// The smaller of an offset and a length.
pub open spec fn clamp(o: int, n: int) -> int {
    if o < n { o } else { n }
}

/// The 1-based line and column of byte offset `off`; offsets past the end count as the end;
/// columns count bytes.
pub open spec fn line_col_spec(b: Seq<u8>, off: int) -> (int, int) {
    let k = clamp(off, b.len() as int);
    ((1 + newlines_before(b, k)) as int, 1 + k - line_start(b, k))
}

/// `n` copies of `c`.
pub open spec fn repeat(c: char, n: nat) -> Seq<char>
    decreases n,
{
    if n == 0 {
        Seq::empty()
    } else {
        repeat(c, (n - 1) as nat).push(c)
    }
}

proof fn lemma_line_start_bounds(b: Seq<u8>, k: int)
    requires
        0 <= k <= b.len(),
    ensures
        0 <= line_start(b, k) <= k,
        line_start(b, k) > 0 ==> b[line_start(b, k) - 1] == 10,
        forall|j: int| line_start(b, k) <= j < k ==> b[j] != 10,
    decreases k,
{
    if k > 0 && b[k - 1] != 10 {
        lemma_line_start_bounds(b, k - 1);
    }
}

proof fn lemma_line_end_bounds(b: Seq<u8>, k: int)
    requires
        0 <= k <= b.len(),
    ensures
        k <= line_end(b, k) <= b.len(),
        line_end(b, k) < b.len() ==> b[line_end(b, k)] == 10,
    decreases b.len() - k,
{
    if k < b.len() && b[k] != 10 {
        lemma_line_end_bounds(b, k + 1);
    }
}

/// In valid UTF-8, the position of a newline, and the position just after one, are
/// character boundaries.
proof fn lemma_newline_boundary(b: Seq<u8>, i: int)
    requires
        valid_utf8(b),
        0 <= i <= b.len(),
        i == 0 || i == b.len() || b[i] == 10 || b[i - 1] == 10,
    ensures
        is_char_boundary(b, i),
{
    vstd::utf8::is_char_boundary_start_end_of_seq(b);
    if 0 < i < b.len() {
        if b[i] == 10 {
            vstd::utf8::is_char_boundary_iff_not_is_continuation_byte(b, i);
        } else {
            vstd::utf8::is_char_boundary_iff_not_is_continuation_byte(b, i - 1);
            vstd::utf8::is_char_boundary_iff_not_is_continuation_byte(b, i);
            assert(vstd::utf8::is_leading_byte_width_1(b[i - 1]));
            if vstd::utf8::is_continuation_byte(b[i]) {
                // a continuation byte follows a leading byte of width 2 or more, or another
                // continuation byte; never a one-byte character
                vstd::utf8::is_char_boundary_iff_is_leading_byte(b, i - 1);
                lemma_continuation_needs_lead(b, i);
            }
        }
    }
}

/// In valid UTF-8 a continuation byte is never preceded by a one-byte character.
proof fn lemma_continuation_needs_lead(b: Seq<u8>, i: int)
    requires
        valid_utf8(b),
        0 < i < b.len(),
        vstd::utf8::is_continuation_byte(b[i]),
    ensures
        !vstd::utf8::is_leading_byte_width_1(b[i - 1]),
{
    vstd::utf8::is_char_boundary_iff_not_is_continuation_byte(b, i);
    vstd::utf8::is_char_boundary_iff_not_is_continuation_byte(b, i - 1);
    if vstd::utf8::is_leading_byte_width_1(b[i - 1]) {
        lemma_boundary_after_ascii(b, i - 1);
    }
}

/// The byte after a one-byte character starts a character.
proof fn lemma_boundary_after_ascii(b: Seq<u8>, i: int)
    requires
        valid_utf8(b),
        0 <= i < b.len(),
        vstd::utf8::is_leading_byte_width_1(b[i]),
    ensures
        is_char_boundary(b, i + 1),
    decreases b.len(),
{
    let n = vstd::utf8::length_of_first_scalar(b);
    reveal_with_fuel(is_char_boundary, 2);
    if i < n {
        vstd::utf8::is_char_boundary_iff_is_leading_byte(b, i);
        vstd::utf8::is_char_boundary_iff_not_is_continuation_byte(b, i);
        if i > 0 {
            // inside the first scalar only its first byte is a boundary
            assert(is_char_boundary(b, i));
        }
        assert(i == 0);
        assert(n == 1);
        vstd::utf8::is_char_boundary_start_end_of_seq(vstd::utf8::pop_first_scalar(b));
    } else {
        let rest = vstd::utf8::pop_first_scalar(b);
        assert(rest[i - n] == b[i]);
        lemma_boundary_after_ascii(rest, i - n);
    }
}

impl Source {
    /// The UTF-8 bytes of the text.
    pub open spec fn bytes(&self) -> Seq<u8> {
        vstd::utf8::encode_utf8(self.text@)
    }

    pub fn new(path: String, text: String) -> (s: Source)
        ensures
            s.path == path,
            s.text == text,
    {
        Source { path, text }
    }

    /// The 1-based line and column of byte offset `offset`.
    pub fn line_col(&self, offset: usize) -> (r: (usize, usize))
        requires
            self.bytes().len() < usize::MAX,
        ensures
            r.0 == line_col_spec(self.bytes(), offset as int).0,
            r.1 == line_col_spec(self.bytes(), offset as int).1,
    {
        let b = self.text.as_str().as_bytes();
        let mut line: usize = 1;
        let mut col: usize = 1;
        let mut i: usize = 0;
        while i < b.len() && i < offset
            invariant
                b@ == self.bytes(),
                b@.len() < usize::MAX,
                i <= b@.len(),
                i <= offset,
                line == 1 + newlines_before(b@, i as int),
                col == 1 + i - line_start(b@, i as int),
                line <= i + 1,
            decreases b@.len() - i,
        {
            proof {
                lemma_line_start_bounds(b@, i as int);
            }
            if b[i] == 10 {
                line = line + 1;
                col = 1;
            } else {
                col = col + 1;
            }
            i = i + 1;
        }
        (line, col)
    }

    /// A report of `message` at `span`: `path:line:col: message`, the line of the span, and
    /// a line of carets under the span (at least one).
    pub fn render_span(&self, span: Span, message: &str) -> (r: String)
        requires
            self.bytes().len() < usize::MAX,
            is_char_boundary(
                self.bytes(),
                clamp(span.start as int, self.bytes().len() as int),
            ),
        ensures
            ({
                let b = self.bytes();
                let n = b.len() as int;
                let start = clamp(span.start as int, n);
                let end = clamp(span.end as int, n);
                let lc = line_col_spec(b, start);
                let ls = line_start(b, start);
                let le = line_end(b, start);
                let width = if end > start { end - start } else { 1 };
                r@ == self.path@ + ":"@ + decimal(lc.0 as nat) + ":"@ + decimal(lc.1 as nat) + ": "@
                    + message@ + "\n"@ + decode_utf8(b.subrange(ls, le)) + "\n"@ + repeat(
                    ' ',
                    (start - ls) as nat,
                ) + repeat('^', width as nat)
            }),
    {
        let text = self.text.as_str();
        let b = text.as_bytes();
        let n = b.len();
        let start = if span.start < n { span.start } else { n };
        let end = if span.end < n { span.end } else { n };
        let (line, col) = self.line_col(start);
        proof {
            vstd::utf8::encode_utf8_valid_utf8(text@);
        }
        // The line that holds `start`.
        let mut ls = start;
        while ls > 0 && b[ls - 1] != 10
            invariant
                ls <= start <= n,
                n == b@.len(),
                line_start(b@, ls as int) == line_start(b@, start as int),
            decreases ls,
        {
            ls = ls - 1;
        }
        let mut le = start;
        while le < n && b[le] != 10
            invariant
                start <= le <= n,
                n == b@.len(),
                line_end(b@, le as int) == line_end(b@, start as int),
            decreases n - le,
        {
            le = le + 1;
        }
        proof {
            lemma_line_start_bounds(b@, start as int);
            lemma_line_end_bounds(b@, start as int);
            lemma_newline_boundary(b@, le as int);
            lemma_newline_boundary(b@, ls as int);
        }
        let (before, _) = text.split_at(le);
        proof {
            vstd::utf8::valid_utf8_split(b@, le as int);
            assert(before.spec_bytes() =~= b@.subrange(0, le as int));
            if ls < le {
                vstd::utf8::is_char_boundary_iff_not_is_continuation_byte(b@, ls as int);
                vstd::utf8::is_char_boundary_iff_not_is_continuation_byte(before.spec_bytes(), ls as int);
            } else {
                vstd::utf8::is_char_boundary_start_end_of_seq(before.spec_bytes());
            }
        }
        let (_, line_text) = before.split_at(ls);
        proof {
            assert(line_text.spec_bytes() =~= b@.subrange(ls as int, le as int));
            vstd::utf8::encode_utf8_valid_utf8(line_text@);
            vstd::utf8::decode_utf8_encode_utf8(line_text.spec_bytes());
            vstd::utf8::encode_utf8_decode_utf8(line_text@);
        }
        let mut out = String::new();
        string_append(&mut out, self.path.as_str());
        string_append(&mut out, ":");
        push_decimal(&mut out, line as u64);
        string_append(&mut out, ":");
        push_decimal(&mut out, col as u64);
        string_append(&mut out, ": ");
        string_append(&mut out, message);
        string_append(&mut out, "\n");
        string_append(&mut out, line_text);
        string_append(&mut out, "\n");
        let ghost head = out@;
        let mut k: usize = 0;
        while k < start - ls
            invariant
                k <= start - ls,
                out@ == head + repeat(' ', k as nat),
            decreases start - ls - k,
        {
            string_push(&mut out, ' ');
            k = k + 1;
        }
        let width = if end > start { end - start } else { 1 };
        let ghost mid = out@;
        let mut k: usize = 0;
        while k < width
            invariant
                k <= width,
                out@ == mid + repeat('^', k as nat),
            decreases width - k,
        {
            string_push(&mut out, '^');
            k = k + 1;
        }
        proof {
            reveal_strlit(":");
            reveal_strlit(": ");
            reveal_strlit("\n");
        }
        out
    }
}

} // verus!
