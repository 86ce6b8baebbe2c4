//! Inspection of generated TypeScript type syntax: does a declaration use the
//! unbounded value types `any` or `bigint`? Documentation comments, string
//! literals, template-literal text and object member names are not types.
use vstd::prelude::*;
use crate::text::{chars_of, is_whitespace, is_whitespace_spec};

verus! {

/// The Unicode `Alphabetic` or `Numeric` property (`char::is_alphanumeric`).
pub uninterp spec fn unicode_alphanumeric(c: char) -> bool;

/// Calls `char::is_alphanumeric`, whose answer is the Unicode table lookup
/// named `unicode_alphanumeric`; for ASCII it is exactly the letters and
/// digits.
#[verifier::external_body]
fn is_alphanumeric(c: char) -> (r: bool)
    ensures
        r == unicode_alphanumeric(c),
        (c as u32) < 128 ==> (r == (('a' <= c && c <= 'z') || ('A' <= c && c <= 'Z') || ('0' <= c
            && c <= '9'))),
{
    c.is_alphanumeric()
}

/// Characters that continue a TypeScript identifier in this scanner.
pub open spec fn identifier_spec(c: char) -> bool {
    unicode_alphanumeric(c) || c == '_' || c == '$'
}

fn identifier(c: char) -> (r: bool)
    ensures
        r == identifier_spec(c),
{
    is_alphanumeric(c) || c == '_' || c == '$'
}

/// Characters that end a `//` comment.
pub open spec fn line_break_spec(c: char) -> bool {
    c == '\n' || c == '\r' || c == '\u{2028}' || c == '\u{2029}'
}

/// The first position at or after `p` that is not white space.
pub open spec fn ws_end(s: Seq<char>, p: int) -> int
    decreases s.len() - p,
{
    if 0 <= p < s.len() && is_whitespace_spec(s[p]) {
        ws_end(s, p + 1)
    } else {
        p
    }
}

/// The position just after the first `*/` at or after `q`, or the end.
pub open spec fn block_comment_end(s: Seq<char>, q: int) -> int
    decreases s.len() - q,
{
    if 0 <= q && q + 1 < s.len() {
        if s[q] == '*' && s[q + 1] == '/' {
            q + 2
        } else {
            block_comment_end(s, q + 1)
        }
    } else {
        s.len() as int
    }
}

/// The first line break at or after `q`, or the end.
pub open spec fn line_end(s: Seq<char>, q: int) -> int
    decreases s.len() - q,
{
    if 0 <= q < s.len() {
        if line_break_spec(s[q]) {
            q
        } else {
            line_end(s, q + 1)
        }
    } else {
        s.len() as int
    }
}

pub proof fn lemma_ws_end(s: Seq<char>, p: int)
    requires
        0 <= p <= s.len(),
    ensures
        p <= ws_end(s, p) <= s.len(),
    decreases s.len() - p,
{
    if p < s.len() && is_whitespace_spec(s[p]) {
        lemma_ws_end(s, p + 1);
    }
}

pub proof fn lemma_block_comment_end(s: Seq<char>, q: int)
    requires
        0 <= q <= s.len(),
    ensures
        q <= block_comment_end(s, q) <= s.len(),
    decreases s.len() - q,
{
    if q + 1 < s.len() && !(s[q] == '*' && s[q + 1] == '/') {
        lemma_block_comment_end(s, q + 1);
    }
}

pub proof fn lemma_line_end(s: Seq<char>, q: int)
    requires
        0 <= q <= s.len(),
    ensures
        q <= line_end(s, q) <= s.len(),
    decreases s.len() - q,
{
    if q < s.len() && !line_break_spec(s[q]) {
        lemma_line_end(s, q + 1);
    }
}

/// Skips white space and comments from `p`.
pub open spec fn trivia(s: Seq<char>, p: int) -> int
    decreases s.len() - p,
{
    if 0 <= p <= s.len() {
        let a = ws_end(s, p);
        proof {
            lemma_ws_end(s, p);
        }
        if a + 1 < s.len() && s[a] == '/' && s[a + 1] == '*' {
            proof {
                lemma_block_comment_end(s, a + 2);
            }
            trivia(s, block_comment_end(s, a + 2))
        } else if a + 1 < s.len() && s[a] == '/' && s[a + 1] == '/' {
            proof {
                lemma_line_end(s, a + 2);
            }
            trivia(s, line_end(s, a + 2))
        } else {
            a
        }
    } else {
        p
    }
}

pub proof fn lemma_trivia(s: Seq<char>, p: int)
    requires
        0 <= p <= s.len(),
    ensures
        p <= trivia(s, p) <= s.len(),
    decreases s.len() - p,
{
    lemma_ws_end(s, p);
    let a = ws_end(s, p);
    if a + 1 < s.len() && s[a] == '/' && s[a + 1] == '*' {
        lemma_block_comment_end(s, a + 2);
        lemma_trivia(s, block_comment_end(s, a + 2));
    } else if a + 1 < s.len() && s[a] == '/' && s[a + 1] == '/' {
        lemma_line_end(s, a + 2);
        lemma_trivia(s, line_end(s, a + 2));
    }
}

/// The position just after the string literal body starting at `p`, closed
/// by `quote`; a backslash escapes the next character.
pub open spec fn quoted(s: Seq<char>, p: int, quote: char) -> int
    decreases s.len() - p,
{
    if 0 <= p < s.len() {
        if s[p] == '\\' {
            if p + 1 < s.len() {
                quoted(s, p + 2, quote)
            } else {
                s.len() as int
            }
        } else if s[p] == quote {
            p + 1
        } else {
            quoted(s, p + 1, quote)
        }
    } else {
        s.len() as int
    }
}

pub proof fn lemma_quoted(s: Seq<char>, p: int, quote: char)
    requires
        0 <= p <= s.len(),
    ensures
        p <= quoted(s, p, quote) <= s.len(),
    decreases s.len() - p,
{
    if p < s.len() {
        if s[p] == '\\' {
            if p + 1 < s.len() {
                lemma_quoted(s, p + 2, quote);
            }
        } else if s[p] != quote {
            lemma_quoted(s, p + 1, quote);
        }
    }
}

/// The end of the identifier run starting at `p`.
pub open spec fn ident_end(s: Seq<char>, p: int) -> int
    decreases s.len() - p,
{
    if 0 <= p < s.len() && identifier_spec(s[p]) {
        ident_end(s, p + 1)
    } else {
        p
    }
}

pub proof fn lemma_ident_end(s: Seq<char>, p: int)
    requires
        0 <= p <= s.len(),
    ensures
        p <= ident_end(s, p) <= s.len(),
    decreases s.len() - p,
{
    if p < s.len() && identifier_spec(s[p]) {
        lemma_ident_end(s, p + 1);
    }
}

/// After trivia, an optional `?` and more trivia, a `:` or `(` follows: the
/// word before was an object member name.
pub open spec fn property_follows(s: Seq<char>, p: int) -> bool {
    let a = trivia(s, p);
    let b = if 0 <= a < s.len() && s[a] == '?' {
        trivia(s, a + 1)
    } else {
        a
    };
    0 <= b < s.len() && (s[b] == ':' || s[b] == '(')
}

/// The words that name unbounded value types.
pub open spec fn unbounded_word(w: Seq<char>) -> bool {
    w == seq!['a', 'n', 'y'] || w == seq!['b', 'i', 'g', 'i', 'n', 't']
}

/// The modifier that keeps a member name position open.
pub open spec fn readonly_word(w: Seq<char>) -> bool {
    w == seq!['r', 'e', 'a', 'd', 'o', 'n', 'l', 'y']
}

/// Characters after which a member name may start.
pub open spec fn opens_field(c: char) -> bool {
    c == ';' || c == ',' || c == '(' || c == '['
}

/// A position returned by a nested scan, forced forward past `p`.
pub open spec fn progress(r: int, p: int, n: int) -> int {
    if p < r && r <= n {
        r
    } else {
        n
    }
}

/// Scans type code from `p`. `field_start` says a member name may come next;
/// `end_brace` says a `}` closes this scan. The answer is whether an
/// unbounded type was found, and where the scan stopped otherwise.
pub open spec fn code(s: Seq<char>, p: int, field_start: bool, end_brace: bool) -> (bool, int)
    decreases s.len() - p, 1int,
{
    if 0 <= p <= s.len() {
        let a = trivia(s, p);
        proof {
            lemma_trivia(s, p);
        }
        if a >= s.len() {
            (false, s.len() as int)
        } else {
            let c = s[a];
            if c == '\'' || c == '"' {
                proof {
                    lemma_quoted(s, a + 1, c);
                }
                code(s, quoted(s, a + 1, c), false, end_brace)
            } else if c == '`' {
                let t = template(s, a + 1);
                if t.0 {
                    (true, t.1)
                } else {
                    code(s, progress(t.1, a, s.len() as int), false, end_brace)
                }
            } else if c == '{' {
                let t = code(s, a + 1, true, true);
                if t.0 {
                    (true, t.1)
                } else {
                    code(s, progress(t.1, a, s.len() as int), false, end_brace)
                }
            } else if c == '}' && end_brace {
                (false, a + 1)
            } else if identifier_spec(c) {
                let e = ident_end(s, a + 1);
                proof {
                    lemma_ident_end(s, a + 1);
                }
                let w = s.subrange(a, e);
                if unbounded_word(w) && !(field_start && property_follows(s, e)) {
                    (true, e)
                } else {
                    code(s, e, field_start && readonly_word(w), end_brace)
                }
            } else {
                code(s, a + 1, opens_field(c), end_brace)
            }
        }
    } else {
        (false, s.len() as int)
    }
}

/// Scans a template literal body from `p`: text is skipped, and every `${`
/// interpolation is type code up to its closing brace.
pub open spec fn template(s: Seq<char>, p: int) -> (bool, int)
    decreases s.len() - p, 0int,
{
    if 0 <= p < s.len() {
        let c = s[p];
        if c == '\\' {
            if p + 1 < s.len() {
                template(s, p + 2)
            } else {
                (false, s.len() as int)
            }
        } else if c == '`' {
            (false, p + 1)
        } else if c == '$' && p + 1 < s.len() && s[p + 1] == '{' {
            let t = code(s, p + 2, false, true);
            if t.0 {
                (true, t.1)
            } else {
                template(s, progress(t.1, p + 1, s.len() as int))
            }
        } else {
            template(s, p + 1)
        }
    } else {
        (false, s.len() as int)
    }
}

/// Whether a declaration uses `any` or `bigint` as a type.
pub open spec fn unbounded_type_spec(s: Seq<char>) -> bool {
    code(s, 0, false, false).0
}

fn ws_end_exec(s: &Vec<char>, p: usize) -> (r: usize)
    requires
        p <= s@.len(),
    ensures
        r == ws_end(s@, p as int),
{
    let mut i = p;
    while i < s.len() && is_whitespace(s[i])
        invariant
            p <= i <= s@.len(),
            ws_end(s@, i as int) == ws_end(s@, p as int),
        decreases s@.len() - i,
    {
        i = i + 1;
    }
    i
}

fn block_comment_end_exec(s: &Vec<char>, q: usize) -> (r: usize)
    requires
        q <= s@.len(),
    ensures
        r == block_comment_end(s@, q as int),
{
    let mut i = q;
    while i < s.len() && i + 1 < s.len()
        invariant
            q <= i <= s@.len(),
            block_comment_end(s@, i as int) == block_comment_end(s@, q as int),
        decreases s@.len() - i,
    {
        if s[i] == '*' && s[i + 1] == '/' {
            return i + 2;
        }
        i = i + 1;
    }
    s.len()
}

fn line_end_exec(s: &Vec<char>, q: usize) -> (r: usize)
    requires
        q <= s@.len(),
    ensures
        r == line_end(s@, q as int),
{
    let mut i = q;
    while i < s.len()
        invariant
            q <= i <= s@.len(),
            line_end(s@, i as int) == line_end(s@, q as int),
        decreases s@.len() - i,
    {
        let c = s[i];
        if c == '\n' || c == '\r' || c == '\u{2028}' || c == '\u{2029}' {
            return i;
        }
        i = i + 1;
    }
    s.len()
}

fn trivia_exec(s: &Vec<char>, p: usize) -> (r: usize)
    requires
        p <= s@.len(),
    ensures
        r == trivia(s@, p as int),
        p <= r <= s@.len(),
{
    let mut i = p;
    proof {
        lemma_trivia(s@, p as int);
    }
    loop
        invariant
            p <= i <= s@.len(),
            trivia(s@, i as int) == trivia(s@, p as int),
        decreases s@.len() - i,
    {
        let a = ws_end_exec(s, i);
        proof {
            lemma_ws_end(s@, i as int);
        }
        if a < s.len() && a + 1 < s.len() && s[a] == '/' && s[a + 1] == '*' {
            proof {
                lemma_block_comment_end(s@, a + 2);
            }
            i = block_comment_end_exec(s, a + 2);
        } else if a < s.len() && a + 1 < s.len() && s[a] == '/' && s[a + 1] == '/' {
            proof {
                lemma_line_end(s@, a + 2);
            }
            i = line_end_exec(s, a + 2);
        } else {
            return a;
        }
    }
}

fn quoted_exec(s: &Vec<char>, p: usize, quote: char) -> (r: usize)
    requires
        p <= s@.len(),
    ensures
        r == quoted(s@, p as int, quote),
{
    let mut i = p;
    while i < s.len()
        invariant
            p <= i <= s@.len(),
            quoted(s@, i as int, quote) == quoted(s@, p as int, quote),
        decreases s@.len() - i,
    {
        if s[i] == '\\' {
            if i + 1 < s.len() {
                i = i + 2;
            } else {
                return s.len();
            }
        } else if s[i] == quote {
            return i + 1;
        } else {
            i = i + 1;
        }
    }
    s.len()
}

fn ident_end_exec(s: &Vec<char>, p: usize) -> (r: usize)
    requires
        p <= s@.len(),
    ensures
        r == ident_end(s@, p as int),
{
    let mut i = p;
    while i < s.len() && identifier(s[i])
        invariant
            p <= i <= s@.len(),
            ident_end(s@, i as int) == ident_end(s@, p as int),
        decreases s@.len() - i,
    {
        i = i + 1;
    }
    i
}

fn property_follows_exec(s: &Vec<char>, p: usize) -> (r: bool)
    requires
        p <= s@.len(),
    ensures
        r == property_follows(s@, p as int),
{
    let a = trivia_exec(s, p);
    let b = if a < s.len() && s[a] == '?' {
        trivia_exec(s, a + 1)
    } else {
        a
    };
    b < s.len() && (s[b] == ':' || s[b] == '(')
}

fn word_is(s: &Vec<char>, a: usize, e: usize, w: &[char]) -> (r: bool)
    requires
        a <= e <= s@.len(),
    ensures
        r == (s@.subrange(a as int, e as int) == w@),
{
    if e - a != w.len() {
        return false;
    }
    let mut i: usize = 0;
    while i < w.len()
        invariant
            e - a == w@.len(),
            a <= e <= s@.len(),
            i <= w@.len(),
            forall|j: int| 0 <= j < i ==> s@[a + j] == w@[j],
        decreases w@.len() - i,
    {
        if s[a + i] != w[i] {
            assert(s@.subrange(a as int, e as int)[i as int] != w@[i as int]);
            return false;
        }
        i = i + 1;
    }
    assert(s@.subrange(a as int, e as int) =~= w@);
    true
}

fn code_exec(s: &Vec<char>, p: usize, field_start: bool, end_brace: bool) -> (r: (bool, usize))
    requires
        p <= s@.len(),
    ensures
        (r.0, r.1 as int) == code(s@, p as int, field_start, end_brace),
    decreases s@.len() - p, 1int,
{
    let mut pos = p;
    let mut fs = field_start;
    loop
        invariant
            p <= pos <= s@.len(),
            code(s@, pos as int, fs, end_brace) == code(s@, p as int, field_start, end_brace),
        decreases s@.len() - pos,
    {
        let a = trivia_exec(s, pos);
        if a >= s.len() {
            return (false, s.len());
        }
        let c = s[a];
        if c == '\'' || c == '"' {
            proof {
                lemma_quoted(s@, a + 1, c);
            }
            pos = quoted_exec(s, a + 1, c);
            fs = false;
        } else if c == '`' {
            let t = template_exec(s, a + 1);
            if t.0 {
                return t;
            }
            pos = if a < t.1 && t.1 <= s.len() {
                t.1
            } else {
                s.len()
            };
            fs = false;
        } else if c == '{' {
            let t = code_exec(s, a + 1, true, true);
            if t.0 {
                return t;
            }
            pos = if a < t.1 && t.1 <= s.len() {
                t.1
            } else {
                s.len()
            };
            fs = false;
        } else if c == '}' && end_brace {
            return (false, a + 1);
        } else if identifier(c) {
            let e = ident_end_exec(s, a + 1);
            proof {
                lemma_ident_end(s@, a + 1);
            }
            let unbounded = word_is(s, a, e, &['a', 'n', 'y']) || word_is(
                s,
                a,
                e,
                &['b', 'i', 'g', 'i', 'n', 't'],
            );
            proof {
                assert(['a', 'n', 'y']@ =~= seq!['a', 'n', 'y']);
                assert(['b', 'i', 'g', 'i', 'n', 't']@ =~= seq!['b', 'i', 'g', 'i', 'n', 't']);
                assert(['r', 'e', 'a', 'd', 'o', 'n', 'l', 'y']@ =~= seq![
                    'r',
                    'e',
                    'a',
                    'd',
                    'o',
                    'n',
                    'l',
                    'y',
                ]);
            }
            if unbounded && !(fs && property_follows_exec(s, e)) {
                return (true, e);
            }
            fs = fs && word_is(s, a, e, &['r', 'e', 'a', 'd', 'o', 'n', 'l', 'y']);
            pos = e;
        } else {
            fs = c == ';' || c == ',' || c == '(' || c == '[';
            pos = a + 1;
        }
    }
}

fn template_exec(s: &Vec<char>, p: usize) -> (r: (bool, usize))
    requires
        p <= s@.len(),
    ensures
        (r.0, r.1 as int) == template(s@, p as int),
    decreases s@.len() - p, 0int,
{
    let mut pos = p;
    while pos < s.len()
        invariant
            p <= pos <= s@.len(),
            template(s@, pos as int) == template(s@, p as int),
        decreases s@.len() - pos,
    {
        let c = s[pos];
        if c == '\\' {
            if pos + 1 < s.len() {
                pos = pos + 2;
            } else {
                return (false, s.len());
            }
        } else if c == '`' {
            return (false, pos + 1);
        } else if c == '$' && pos + 1 < s.len() && s[pos + 1] == '{' {
            let t = code_exec(s, pos + 2, false, true);
            if t.0 {
                return t;
            }
            pos = if pos + 1 < t.1 && t.1 <= s.len() {
                t.1
            } else {
                s.len()
            };
        } else {
            pos = pos + 1;
        }
    }
    (false, s.len())
}

/// Whether a generated type declaration uses `any` or `bigint` as a value
/// type. Text inside comments, string literals and template-literal text does
/// not count, and neither do object member names such as `{ any: string }`;
/// template interpolations and nested object types are scanned as types.
pub fn has_unbounded_type(declaration: &str) -> (r: bool)
    ensures
        r == unbounded_type_spec(declaration@),
{
    let s = chars_of(declaration);
    code_exec(&s, 0, false, false).0
}

/// The scanner only looks forward: scanning `d` behind a prefix `pre`
/// finds what scanning `d` alone finds, at positions moved by the prefix.
proof fn lemma_ws_end_shift(pre: Seq<char>, d: Seq<char>, p: int)
    requires
        0 <= p <= d.len(),
    ensures
        ws_end(pre + d, pre.len() + p) == ws_end(d, p) + pre.len(),
    decreases d.len() - p,
{
    let s = pre + d;
    if p < d.len() {
        assert(s[pre.len() + p] == d[p]);
        if is_whitespace_spec(d[p]) {
            lemma_ws_end_shift(pre, d, p + 1);
        }
    }
}

proof fn lemma_block_comment_end_shift(pre: Seq<char>, d: Seq<char>, q: int)
    requires
        0 <= q <= d.len(),
    ensures
        block_comment_end(pre + d, pre.len() + q) == block_comment_end(d, q) + pre.len(),
    decreases d.len() - q,
{
    let s = pre + d;
    if q + 1 < d.len() {
        assert(s[pre.len() + q] == d[q]);
        assert(s[pre.len() + q + 1] == d[q + 1]);
        if !(d[q] == '*' && d[q + 1] == '/') {
            lemma_block_comment_end_shift(pre, d, q + 1);
        }
    }
}

proof fn lemma_line_end_shift(pre: Seq<char>, d: Seq<char>, q: int)
    requires
        0 <= q <= d.len(),
    ensures
        line_end(pre + d, pre.len() + q) == line_end(d, q) + pre.len(),
    decreases d.len() - q,
{
    let s = pre + d;
    if q < d.len() {
        assert(s[pre.len() + q] == d[q]);
        if !line_break_spec(d[q]) {
            lemma_line_end_shift(pre, d, q + 1);
        }
    }
}

proof fn lemma_trivia_shift(pre: Seq<char>, d: Seq<char>, p: int)
    requires
        0 <= p <= d.len(),
    ensures
        trivia(pre + d, pre.len() + p) == trivia(d, p) + pre.len(),
    decreases d.len() - p,
{
    let s = pre + d;
    let k = pre.len() as int;
    lemma_ws_end_shift(pre, d, p);
    lemma_ws_end(d, p);
    let a = ws_end(d, p);
    if a + 1 < d.len() {
        assert(s[k + a] == d[a]);
        assert(s[k + a + 1] == d[a + 1]);
        if d[a] == '/' && d[a + 1] == '*' {
            lemma_block_comment_end_shift(pre, d, a + 2);
            lemma_block_comment_end(d, a + 2);
            lemma_trivia_shift(pre, d, block_comment_end(d, a + 2));
        } else if d[a] == '/' && d[a + 1] == '/' {
            lemma_line_end_shift(pre, d, a + 2);
            lemma_line_end(d, a + 2);
            lemma_trivia_shift(pre, d, line_end(d, a + 2));
        }
    }
}

proof fn lemma_quoted_shift(pre: Seq<char>, d: Seq<char>, p: int, quote: char)
    requires
        0 <= p <= d.len(),
    ensures
        quoted(pre + d, pre.len() + p, quote) == quoted(d, p, quote) + pre.len(),
    decreases d.len() - p,
{
    let s = pre + d;
    if p < d.len() {
        assert(s[pre.len() + p] == d[p]);
        if d[p] == '\\' {
            if p + 1 < d.len() {
                lemma_quoted_shift(pre, d, p + 2, quote);
            }
        } else if d[p] != quote {
            lemma_quoted_shift(pre, d, p + 1, quote);
        }
    }
}

proof fn lemma_ident_end_shift(pre: Seq<char>, d: Seq<char>, p: int)
    requires
        0 <= p <= d.len(),
    ensures
        ident_end(pre + d, pre.len() + p) == ident_end(d, p) + pre.len(),
    decreases d.len() - p,
{
    let s = pre + d;
    if p < d.len() {
        assert(s[pre.len() + p] == d[p]);
        if identifier_spec(d[p]) {
            lemma_ident_end_shift(pre, d, p + 1);
        }
    }
}

proof fn lemma_property_follows_shift(pre: Seq<char>, d: Seq<char>, p: int)
    requires
        0 <= p <= d.len(),
    ensures
        property_follows(pre + d, pre.len() + p) == property_follows(d, p),
{
    let s = pre + d;
    let k = pre.len() as int;
    lemma_trivia_shift(pre, d, p);
    lemma_trivia(d, p);
    let a = trivia(d, p);
    if a < d.len() {
        assert(s[k + a] == d[a]);
        if d[a] == '?' {
            lemma_trivia_shift(pre, d, a + 1);
            lemma_trivia(d, a + 1);
            let b = trivia(d, a + 1);
            if b < d.len() {
                assert(s[k + b] == d[b]);
            }
        }
    }
}

proof fn lemma_code_shift(pre: Seq<char>, d: Seq<char>, p: int, field_start: bool, end_brace: bool)
    requires
        0 <= p <= d.len(),
    ensures
        code(pre + d, pre.len() + p, field_start, end_brace).0 == code(d, p, field_start, end_brace).0,
        code(pre + d, pre.len() + p, field_start, end_brace).1 == code(d, p, field_start, end_brace).1
            + pre.len(),
    decreases d.len() - p, 1int,
{
    let s = pre + d;
    let k = pre.len() as int;
    let n = d.len() as int;
    lemma_trivia_shift(pre, d, p);
    lemma_trivia(d, p);
    let a = trivia(d, p);
    if a < n {
        let c = d[a];
        assert(s[k + a] == c);
        if c == '\'' || c == '"' {
            lemma_quoted_shift(pre, d, a + 1, c);
            lemma_quoted(d, a + 1, c);
            lemma_code_shift(pre, d, quoted(d, a + 1, c), false, end_brace);
        } else if c == '`' {
            lemma_template_shift(pre, d, a + 1);
            let t = template(d, a + 1);
            if !t.0 {
                let q = progress(t.1, a, n);
                assert(progress(t.1 + k, a + k, n + k) == q + k);
                lemma_code_shift(pre, d, q, false, end_brace);
            }
        } else if c == '{' {
            lemma_code_shift(pre, d, a + 1, true, true);
            let t = code(d, a + 1, true, true);
            if !t.0 {
                let q = progress(t.1, a, n);
                assert(progress(t.1 + k, a + k, n + k) == q + k);
                lemma_code_shift(pre, d, q, false, end_brace);
            }
        } else if c == '}' && end_brace {
        } else if identifier_spec(c) {
            lemma_ident_end_shift(pre, d, a + 1);
            lemma_ident_end(d, a + 1);
            let e = ident_end(d, a + 1);
            assert(s.subrange(k + a, k + e) =~= d.subrange(a, e));
            lemma_property_follows_shift(pre, d, e);
            let w = d.subrange(a, e);
            lemma_code_shift(pre, d, e, field_start && readonly_word(w), end_brace);
        } else {
            lemma_code_shift(pre, d, a + 1, opens_field(c), end_brace);
        }
    }
}

proof fn lemma_template_shift(pre: Seq<char>, d: Seq<char>, p: int)
    requires
        0 <= p <= d.len(),
    ensures
        template(pre + d, pre.len() + p).0 == template(d, p).0,
        template(pre + d, pre.len() + p).1 == template(d, p).1 + pre.len(),
    decreases d.len() - p, 0int,
{
    let s = pre + d;
    let k = pre.len() as int;
    let n = d.len() as int;
    if p < n {
        let c = d[p];
        assert(s[k + p] == c);
        if c == '\\' {
            if p + 1 < n {
                lemma_template_shift(pre, d, p + 2);
            }
        } else if c == '`' {
        } else if c == '$' && p + 1 < n && d[p + 1] == '{' {
            assert(s[k + p + 1] == d[p + 1]);
            lemma_code_shift(pre, d, p + 2, false, true);
            let t = code(d, p + 2, false, true);
            if !t.0 {
                let q = progress(t.1, p + 1, n);
                assert(progress(t.1 + k, p + 1 + k, n + k) == q + k);
                lemma_template_shift(pre, d, q);
            }
        } else {
            if p + 1 < n {
                assert(s[k + p + 1] == d[p + 1]);
            }
            lemma_template_shift(pre, d, p + 1);
        }
    }
}

/// A block comment ends at the first `*/` from `q`.
proof fn lemma_block_comment_skip(s: Seq<char>, q: int, j: int)
    requires
        2 <= j <= s.len(),
        0 <= q <= j - 2,
        s[j - 2] == '*',
        s[j - 1] == '/',
        forall|r: int| q <= r < j - 2 ==> !(#[trigger] s[r] == '*' && s[r + 1] == '/'),
    ensures
        block_comment_end(s, q) == j,
    decreases j - q,
{
    if q < j - 2 {
        assert(!(s[q] == '*' && s[q + 1] == '/'));
        lemma_block_comment_skip(s, q + 1, j);
    }
}

/// White space and a block comment before a declaration do not change
/// whether it uses `any` or `bigint`: neither a comment whose text `c` has
/// no star directly followed by a slash, then a space, nor a space and a
/// line break.
pub proof fn law_leading_trivia_is_ignored(c: Seq<char>, d: Seq<char>)
    requires
        forall|i: int| 0 <= i < c.len() - 1 ==> !(#[trigger] c[i] == '*' && c[i + 1] == '/'),
    ensures
        unbounded_type_spec(seq!['/', '*'] + c + seq!['*', '/', ' '] + d) == unbounded_type_spec(d),
        unbounded_type_spec(seq![' ', '\n'] + d) == unbounded_type_spec(d),
{
    // A block comment and a space.
    let pre = seq!['/', '*'] + c + seq!['*', '/', ' '];
    let s = pre + d;
    let k = pre.len() as int;
    let j: int = c.len() as int + 4;
    assert(s == seq!['/', '*'] + c + seq!['*', '/', ' '] + d);
    assert(s[0] == '/' && s[1] == '*');
    assert(s[j - 2] == '*' && s[j - 1] == '/' && s[j] == ' ');
    assert forall|r: int| 2 <= r < j - 2 implies !(#[trigger] s[r] == '*' && s[r + 1] == '/') by {
        assert(s[r] == c[r - 2]);
        if r + 1 < j - 2 {
            assert(s[r + 1] == c[r - 1]);
        } else {
            assert(s[r + 1] == '*');
        }
    }
    lemma_block_comment_skip(s, 2, j);
    assert(ws_end(s, 0) == 0);
    assert(ws_end(s, j) == ws_end(s, k));
    assert(trivia(s, 0) == trivia(s, j));
    assert(trivia(s, j) == trivia(s, k));
    assert(code(s, 0, false, false) == code(s, k, false, false));
    lemma_code_shift(pre, d, 0, false, false);
    // A space and a line break.
    let pre2 = seq![' ', '\n'];
    let s2 = pre2 + d;
    assert(s2[0] == ' ' && s2[1] == '\n');
    assert(ws_end(s2, 1) == ws_end(s2, 2));
    assert(ws_end(s2, 0) == ws_end(s2, 2));
    assert(trivia(s2, 0) == trivia(s2, 2));
    assert(code(s2, 0, false, false) == code(s2, 2, false, false));
    lemma_code_shift(pre2, d, 0, false, false);
}

/// A line comment ends at the first line break at or after `q`.
proof fn lemma_line_comment_skip(s: Seq<char>, q: int, j: int)
    requires
        0 <= q <= j < s.len(),
        line_break_spec(s[j]),
        forall|r: int| q <= r < j ==> !line_break_spec(#[trigger] s[r]),
    ensures
        line_end(s, q) == j,
    decreases j - q,
{
    if q < j {
        assert(!line_break_spec(s[q]));
        lemma_line_comment_skip(s, q + 1, j);
    }
}

/// A `//` comment ends at its line feed: a declaration behind a line
/// comment whose text has no line break, and the line feed that ends it,
/// uses `any` or `bigint` exactly when the declaration alone does.
pub proof fn law_line_comment_ends_at_line_feed(c: Seq<char>, d: Seq<char>)
    requires
        forall|i: int|
            0 <= i < c.len() ==> #[trigger] c[i] != '\n' && c[i] != '\r' && c[i] != '\u{2028}' && c[i]
                != '\u{2029}',
    ensures
        unbounded_type_spec(seq!['/', '/'] + c + seq!['\n'] + d) == unbounded_type_spec(d),
{
    let pre = seq!['/', '/'] + c + seq!['\n'];
    let s = pre + d;
    let j: int = c.len() as int + 2;
    let k = pre.len() as int;
    assert(s == seq!['/', '/'] + c + seq!['\n'] + d);
    assert(s[0] == '/' && s[1] == '/');
    assert(s[j] == '\n');
    assert forall|r: int| 2 <= r < j implies !line_break_spec(#[trigger] s[r]) by {
        assert(s[r] == c[r - 2]);
    }
    lemma_line_comment_skip(s, 2, j);
    assert(ws_end(s, 0) == 0);
    assert(trivia(s, 0) == trivia(s, j));
    assert(ws_end(s, j) == ws_end(s, k));
    assert(trivia(s, j) == trivia(s, k));
    assert(code(s, 0, false, false) == code(s, k, false, false));
    lemma_code_shift(pre, d, 0, false, false);
}

} // verus!
