//! The edge-list text format, stated over characters, and the scanners that
//! read it.
//!
//! A line is the text up to the next `'\n'`. From the first `#` on, a line is
//! a comment. What is left is trimmed of Unicode white space at both ends,
//! and its first two tokens separated by ASCII white space are the edge
//! `u -> v`; further tokens are ignored. Lines with fewer than two tokens,
//! and lines whose two tokens are equal (self-loops), give no edge.
use vstd::prelude::*;

verus! {

/// ASCII white space: space, tab, line feed, form feed, carriage return.
pub open spec fn is_ascii_ws(c: char) -> bool {
    c == ' ' || c == '\t' || c == '\n' || c == '\x0C' || c == '\r'
}

/// Unicode `White_Space`.
pub open spec fn is_unicode_ws(c: char) -> bool {
    let x = c as u32;
    ||| 0x09 <= x <= 0x0D
    ||| x == 0x20
    ||| x == 0x85
    ||| x == 0xA0
    ||| x == 0x1680
    ||| 0x2000 <= x <= 0x200A
    ||| x == 0x2028
    ||| x == 0x2029
    ||| x == 0x202F
    ||| x == 0x205F
    ||| x == 0x3000
}

/// The classes of characters the reader scans over.
#[derive(Clone, Copy, PartialEq, Eq, Structural)]
pub enum CharClass {
    /// Anything but `'\n'`.
    NotNewline,
    /// Anything but `'#'`.
    NotHash,
    /// Unicode white space.
    Whitespace,
    /// ASCII white space.
    AsciiWhitespace,
    /// Anything but ASCII white space: the characters of a token.
    TokenChar,
}

/// Whether `c` belongs to class `k`.
pub open spec fn in_class(c: char, k: CharClass) -> bool {
    match k {
        CharClass::NotNewline => c != '\n',
        CharClass::NotHash => c != '#',
        CharClass::Whitespace => is_unicode_ws(c),
        CharClass::AsciiWhitespace => is_ascii_ws(c),
        CharClass::TokenChar => !is_ascii_ws(c),
    }
}

/// The number of leading characters of `s` in class `k`.
pub open spec fn leading(s: Seq<char>, k: CharClass) -> nat
    decreases s.len(),
{
    if s.len() > 0 && in_class(s[0], k) {
        1 + leading(s.drop_first(), k)
    } else {
        0
    }
}

/// The number of trailing characters of `s` in class `k`.
pub open spec fn trailing(s: Seq<char>, k: CharClass) -> nat
    decreases s.len(),
{
    if s.len() > 0 && in_class(s.last(), k) {
        1 + trailing(s.drop_last(), k)
    } else {
        0
    }
}

/// The line that starts `t`, without its `'\n'`.
pub open spec fn first_line(t: Seq<char>) -> Seq<char> {
    t.take(leading(t, CharClass::NotNewline) as int)
}

/// `l` with any comment cut off.
pub open spec fn strip_comment(l: Seq<char>) -> Seq<char> {
    l.take(leading(l, CharClass::NotHash) as int)
}

/// `s` without Unicode white space at either end.
pub open spec fn trim(s: Seq<char>) -> Seq<char> {
    let a = s.skip(leading(s, CharClass::Whitespace) as int);
    a.take(a.len() - trailing(a, CharClass::Whitespace))
}

/// `s` without leading ASCII white space.
pub open spec fn skip_blanks(s: Seq<char>) -> Seq<char> {
    s.skip(leading(s, CharClass::AsciiWhitespace) as int)
}

/// The first ASCII-white-space-separated token of `s` (empty if none).
pub open spec fn first_token(s: Seq<char>) -> Seq<char> {
    let a = skip_blanks(s);
    a.take(leading(a, CharClass::TokenChar) as int)
}

/// What follows the first token of `s`.
pub open spec fn after_first_token(s: Seq<char>) -> Seq<char> {
    let a = skip_blanks(s);
    a.skip(leading(a, CharClass::TokenChar) as int)
}

/// The edge `(u, v)` a line gives, if any.
pub open spec fn line_edge(l: Seq<char>) -> Option<(Seq<char>, Seq<char>)> {
    let t = trim(strip_comment(l));
    let u = first_token(t);
    let v = first_token(after_first_token(t));
    if v.len() > 0 && u != v {
        Some((u, v))
    } else {
        None
    }
}

/// The edges of an edge-list text, line by line, in order.
pub open spec fn edges_of(t: Seq<char>) -> Seq<(Seq<char>, Seq<char>)>
    decreases t.len(),
{
    let e = leading(t, CharClass::NotNewline) as int;
    let rest = if e < t.len() {
        edges_of(t.skip(e + 1))
    } else {
        Seq::empty()
    };
    match line_edge(first_line(t)) {
        Some(p) => seq![p] + rest,
        None => rest,
    }
}

pub proof fn lemma_leading_bound(s: Seq<char>, k: CharClass)
    ensures
        leading(s, k) <= s.len(),
        forall|i: int| 0 <= i < leading(s, k) ==> in_class(#[trigger] s[i], k),
        leading(s, k) < s.len() ==> !in_class(s[leading(s, k) as int], k),
    decreases s.len(),
{
    if s.len() > 0 && in_class(s[0], k) {
        lemma_leading_bound(s.drop_first(), k);
        assert forall|i: int| 0 <= i < leading(s, k) implies in_class(#[trigger] s[i], k) by {
            if i > 0 {
                assert(s[i] == s.drop_first()[i - 1]);
            }
        }
    }
}

/// A run of `m` characters in class `k` followed by the end or by a
/// character outside `k` has `leading` length `m`.
pub proof fn lemma_leading_is(s: Seq<char>, k: CharClass, m: int)
    requires
        0 <= m <= s.len(),
        forall|i: int| 0 <= i < m ==> in_class(#[trigger] s[i], k),
        m < s.len() ==> !in_class(s[m], k),
    ensures
        leading(s, k) == m,
    decreases m,
{
    if m > 0 {
        let t = s.drop_first();
        assert forall|i: int| 0 <= i < m - 1 implies in_class(#[trigger] t[i], k) by {
            assert(t[i] == s[i + 1]);
        }
        if m < s.len() {
            assert(t[m - 1] == s[m]);
        }
        lemma_leading_is(t, k, m - 1);
    }
}

/// A run of `m` trailing characters in class `k` preceded by the start or by
/// a character outside `k` has `trailing` length `m`.
pub proof fn lemma_trailing_is(s: Seq<char>, k: CharClass, m: int)
    requires
        0 <= m <= s.len(),
        forall|i: int| s.len() - m <= i < s.len() ==> in_class(#[trigger] s[i], k),
        m < s.len() ==> !in_class(s[s.len() - m - 1], k),
    ensures
        trailing(s, k) == m,
    decreases m,
{
    if m > 0 {
        let t = s.drop_last();
        assert forall|i: int| t.len() - (m - 1) <= i < t.len() implies in_class(#[trigger] t[i], k) by {
            assert(t[i] == s[i]);
        }
        if m < s.len() {
            assert(t[t.len() - (m - 1) - 1] == s[s.len() - m - 1]);
        }
        assert(s.last() == s[s.len() - 1]);
        lemma_trailing_is(t, k, m - 1);
    }
}

/// Whether `c` is in class `k`.
pub(crate) fn class_has(c: char, k: CharClass) -> (r: bool)
    ensures
        r == in_class(c, k),
{
    let x = c as u32;
    let ascii_ws = x == 0x20 || x == 0x09 || x == 0x0A || x == 0x0C || x == 0x0D;
    match k {
        CharClass::NotNewline => x != 0x0A,
        CharClass::NotHash => x != 0x23,
        CharClass::Whitespace => {
            (0x09 <= x && x <= 0x0D) || x == 0x20 || x == 0x85 || x == 0xA0 || x == 0x1680 || (0x2000 <= x
                && x <= 0x200A) || x == 0x2028 || x == 0x2029 || x == 0x202F || x == 0x205F || x == 0x3000
        },
        CharClass::AsciiWhitespace => ascii_ws,
        CharClass::TokenChar => !ascii_ws,
    }
}

/// The end of the run of class-`k` characters that starts at `from`, not
/// going past `to`.
pub(crate) fn scan_forward(chars: &Vec<char>, from: usize, to: usize, k: CharClass) -> (r: usize)
    requires
        from <= to <= chars@.len(),
    ensures
        from <= r <= to,
        leading(chars@.subrange(from as int, to as int), k) == r - from,
{
    let mut i = from;
    while i < to && class_has(chars[i], k)
        invariant
            from <= i <= to <= chars@.len(),
            forall|j: int| from <= j < i ==> in_class(#[trigger] chars@[j], k),
        decreases to - i,
    {
        i = i + 1;
    }
    proof {
        let s = chars@.subrange(from as int, to as int);
        assert forall|j: int| 0 <= j < i - from implies in_class(#[trigger] s[j], k) by {
            assert(s[j] == chars@[from + j]);
        }
        if i < to {
            assert(s[i - from] == chars@[i as int]);
        }
        lemma_leading_is(s, k, i - from);
    }
    i
}

/// The start of the run of class-`k` characters that ends at `to`, not
/// going before `from`.
pub(crate) fn scan_backward(chars: &Vec<char>, from: usize, to: usize, k: CharClass) -> (r: usize)
    requires
        from <= to <= chars@.len(),
    ensures
        from <= r <= to,
        trailing(chars@.subrange(from as int, to as int), k) == to - r,
{
    let mut i = to;
    while i > from && class_has(chars[i - 1], k)
        invariant
            from <= i <= to <= chars@.len(),
            forall|j: int| i <= j < to ==> in_class(#[trigger] chars@[j], k),
        decreases i - from,
    {
        i = i - 1;
    }
    proof {
        let s = chars@.subrange(from as int, to as int);
        assert forall|j: int| s.len() - (to - i) <= j < s.len() implies in_class(#[trigger] s[j], k) by {
            assert(s[j] == chars@[from + j]);
        }
        if i > from {
            assert(s[s.len() - (to - i) - 1] == chars@[i - 1]);
        }
        lemma_trailing_is(s, k, to - i);
    }
    i
}

/// The characters of `text`.
pub(crate) fn text_chars(text: &str) -> (r: Vec<char>)
    ensures
        r@ == text@,
{
    let mut r: Vec<char> = Vec::new();
    for c in iter: text.chars()
        invariant
            r@ == iter.seq().take(iter.index() as int),
    {
        r.push(c);
    }
    r
}

/// If the run at the start of `s` is non-empty, its first character is in the class.
proof fn lemma_leading_first(s: Seq<char>, k: CharClass)
    requires
        s.len() > 0,
        in_class(s[0], k),
    ensures
        leading(s, k) >= 1,
{
}

/// The positions `(u0, u1, v0, v1)` of the first two tokens of the line
/// `chars[p..e]`, once its comment is cut off and it is trimmed; `None` when
/// the line has fewer than two tokens.
pub(crate) fn line_tokens(chars: &Vec<char>, p: usize, e: usize) -> (r: Option<(usize, usize, usize, usize)>)
    requires
        p <= e <= chars@.len(),
    ensures
        ({
            let t = trim(strip_comment(chars@.subrange(p as int, e as int)));
            match r {
                Some((u0, u1, v0, v1)) => {
                    &&& p <= u0 < u1 < v0 < v1 <= e
                    &&& first_token(t) == chars@.subrange(u0 as int, u1 as int)
                    &&& first_token(after_first_token(t)) == chars@.subrange(v0 as int, v1 as int)
                },
                None => first_token(after_first_token(t)).len() == 0,
            }
        }),
{
    let ghost line = chars@.subrange(p as int, e as int);
    let h = scan_forward(chars, p, e, CharClass::NotHash);
    let a = scan_forward(chars, p, h, CharClass::Whitespace);
    let b = scan_backward(chars, a, h, CharClass::Whitespace);
    let u0 = scan_forward(chars, a, b, CharClass::AsciiWhitespace);
    let u1 = scan_forward(chars, u0, b, CharClass::TokenChar);
    let v0 = scan_forward(chars, u1, b, CharClass::AsciiWhitespace);
    let v1 = scan_forward(chars, v0, b, CharClass::TokenChar);
    proof {
        assert(chars@.subrange(p as int, e as int) == line);
        assert(strip_comment(line) =~= chars@.subrange(p as int, h as int));
        assert(chars@.subrange(p as int, h as int).skip(a - p) =~= chars@.subrange(a as int, h as int));
        assert(trim(strip_comment(line)) =~= chars@.subrange(a as int, b as int));
        assert(skip_blanks(chars@.subrange(a as int, b as int)) =~= chars@.subrange(u0 as int, b as int));
        assert(chars@.subrange(u0 as int, b as int).take(u1 - u0) =~= chars@.subrange(u0 as int, u1 as int));
        assert(chars@.subrange(u0 as int, b as int).skip(u1 - u0) =~= chars@.subrange(u1 as int, b as int));
        assert(skip_blanks(chars@.subrange(u1 as int, b as int)) =~= chars@.subrange(v0 as int, b as int));
        assert(chars@.subrange(v0 as int, b as int).take(v1 - v0) =~= chars@.subrange(v0 as int, v1 as int));
    }
    if v0 < v1 {
        proof {
            let sa = chars@.subrange(a as int, b as int);
            let su = chars@.subrange(u0 as int, b as int);
            let sv = chars@.subrange(u1 as int, b as int);
            lemma_leading_bound(sa, CharClass::AsciiWhitespace);
            lemma_leading_bound(su, CharClass::TokenChar);
            assert(u1 < b);
            assert(su[u1 - u0] == chars@[u1 as int]);
            assert(sv[0] == chars@[u1 as int]);
            lemma_leading_first(sv, CharClass::AsciiWhitespace);
            assert(sa[u0 - a] == chars@[u0 as int]);
            assert(su[0] == chars@[u0 as int]);
            lemma_leading_first(su, CharClass::TokenChar);
        }
        Some((u0, u1, v0, v1))
    } else {
        None
    }
}

/// The character classes are those of the format: tokens are separated by
/// exactly the five ASCII white-space characters, every other character
/// (letters, digits, `_`, `-`, `.`, anything non-ASCII) belongs to a token,
/// comments start at `#`, lines end at `'\n'`, and trimming removes exactly
/// the Unicode `White_Space` characters.
pub proof fn lemma_char_classes(c: char)
    ensures
        in_class(c, CharClass::AsciiWhitespace) <==> (c == ' ' || c == '\t' || c == '\n' || c == '\x0C' || c == '\r'),
        in_class(c, CharClass::TokenChar) <==> !(c == ' ' || c == '\t' || c == '\n' || c == '\x0C' || c == '\r'),
        in_class(c, CharClass::NotHash) <==> c != '#',
        in_class(c, CharClass::NotNewline) <==> c != '\n',
        in_class(c, CharClass::Whitespace) <==> (c == '\t' || c == '\n' || c == '\x0B' || c == '\x0C' || c == '\r'
            || c == ' ' || c == '\u{85}' || c == '\u{A0}' || c == '\u{1680}' || ('\u{2000}' as u32 <= c as u32
            && c as u32 <= '\u{200A}' as u32) || c == '\u{2028}' || c == '\u{2029}' || c == '\u{202F}' || c == '\u{205F}'
            || c == '\u{3000}'),
{
    vstd::utf8::char_u32_cast(c, c as u32);
}

/// A token as it can stand in the text: non-empty, with no white space
/// (ASCII or Unicode) and no `#`.
pub open spec fn plain_token(s: Seq<char>) -> bool {
    &&& s.len() > 0
    &&& forall|i: int| 0 <= i < s.len() ==> s[i] != '#' && !is_unicode_ws(#[trigger] s[i])
}

/// A run of separators between two tokens: space, tab, form feed or carriage return.
pub open spec fn plain_separator(s: Seq<char>) -> bool {
    &&& s.len() > 0
    &&& forall|i: int| 0 <= i < s.len() ==> (#[trigger] s[i] == ' ' || s[i] == '\t' || s[i] == '\x0C' || s[i] == '\r')
}

proof fn lemma_edges_of_empty()
    ensures
        edges_of(Seq::<char>::empty()) == Seq::<(Seq<char>, Seq<char>)>::empty(),
{
    assert(line_edge(Seq::<char>::empty()).is_none());
    assert(edges_of(Seq::<char>::empty()) =~= Seq::empty());
}

/// A line `u sep v` of two plain tokens gives the edge `(u, v)` with both
/// labels verbatim.
pub proof fn lemma_plain_line_edge(u: Seq<char>, sep: Seq<char>, v: Seq<char>)
    requires
        plain_token(u),
        plain_token(v),
        plain_separator(sep),
        u != v,
    ensures
        line_edge(u + sep + v) == Some((u, v)),
{
    let l = u + sep + v;
    let nu = u.len() as int;
    let ns = sep.len() as int;
    let nv = v.len() as int;
    assert forall|i: int| 0 <= i < l.len() implies (#[trigger] l[i]) != '#' by {
        if i < nu {
            assert(l[i] == u[i]);
        } else if i < nu + ns {
            assert(l[i] == sep[i - nu]);
        } else {
            assert(l[i] == v[i - nu - ns]);
        }
    }
    lemma_leading_is(l, CharClass::NotHash, l.len() as int);
    assert(strip_comment(l) =~= l);
    assert(l[0] == u[0]);
    lemma_leading_is(l, CharClass::Whitespace, 0);
    assert(l.skip(0) =~= l);
    assert(l.last() == v[nv - 1]);
    lemma_trailing_is(l, CharClass::Whitespace, 0);
    assert(l.take(l.len() as int) =~= l);
    assert(trim(l) == l);
    lemma_leading_is(l, CharClass::AsciiWhitespace, 0);
    assert(skip_blanks(l) == l);
    assert forall|i: int| 0 <= i < nu implies in_class(#[trigger] l[i], CharClass::TokenChar) by {
        assert(l[i] == u[i]);
    }
    assert(l[nu] == sep[0]);
    lemma_leading_is(l, CharClass::TokenChar, nu);
    assert(l.take(nu) =~= u);
    assert(first_token(l) == u);
    let r = sep + v;
    assert(l.skip(nu) =~= r);
    assert(after_first_token(l) == r);
    assert forall|i: int| 0 <= i < ns implies in_class(#[trigger] r[i], CharClass::AsciiWhitespace) by {
        assert(r[i] == sep[i]);
    }
    assert(r[ns] == v[0]);
    lemma_leading_is(r, CharClass::AsciiWhitespace, ns);
    assert(r.skip(ns) =~= v);
    assert forall|i: int| 0 <= i < nv implies in_class(#[trigger] v[i], CharClass::TokenChar) by {}
    lemma_leading_is(v, CharClass::TokenChar, nv);
    assert(v.take(nv) =~= v);
    assert(first_token(r) == v);
}

/// A text of one line `u sep v`, with or without its final `'\n'`, has
/// exactly the one edge `(u, v)`.
pub proof fn lemma_plain_line_text(u: Seq<char>, sep: Seq<char>, v: Seq<char>)
    requires
        plain_token(u),
        plain_token(v),
        plain_separator(sep),
        u != v,
    ensures
        edges_of(u + sep + v) == seq![(u, v)],
        edges_of(u + sep + v + seq!['\n']) == seq![(u, v)],
{
    let l = u + sep + v;
    let nu = u.len() as int;
    let ns = sep.len() as int;
    lemma_plain_line_edge(u, sep, v);
    lemma_edges_of_empty();
    assert forall|i: int| 0 <= i < l.len() implies in_class(#[trigger] l[i], CharClass::NotNewline) by {
        if i < nu {
            assert(l[i] == u[i]);
        } else if i < nu + ns {
            assert(l[i] == sep[i - nu]);
        } else {
            assert(l[i] == v[i - nu - ns]);
        }
    }
    lemma_leading_is(l, CharClass::NotNewline, l.len() as int);
    assert(first_line(l) =~= l);
    assert(edges_of(l) =~= seq![(u, v)]);
    let t = l + seq!['\n'];
    assert forall|i: int| 0 <= i < l.len() implies in_class(#[trigger] t[i], CharClass::NotNewline) by {
        assert(t[i] == l[i]);
    }
    lemma_leading_is(t, CharClass::NotNewline, l.len() as int);
    assert(first_line(t) =~= l);
    assert(t.skip(l.len() as int + 1) =~= Seq::<char>::empty());
    assert(edges_of(t) =~= seq![(u, v)]);
}

} // verus!
