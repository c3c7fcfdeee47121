//! Character classes and token scanning over the characters of a script.
use vstd::prelude::*;

verus! {

/// The character classes that tokens are made of.
#[derive(Debug, PartialEq, Eq, Clone, Copy)]
pub enum CharClass {
    /// Insignificant whitespace between tokens.
    Space,
    /// Characters that may follow the first one of an identifier.
    Ident,
    /// Characters of a path token.
    Path,
    /// Anything but a double quote: the inside of a quoted literal.
    NotQuote,
}

pub open spec fn is_ws(c: char) -> bool {
    c == ' ' || c == '\t' || c == '\n' || c == '\r'
}

pub open spec fn is_ident_start(c: char) -> bool {
    ('a' <= c && c <= 'z') || ('A' <= c && c <= 'Z') || c == '_'
}

pub open spec fn is_ident_char(c: char) -> bool {
    is_ident_start(c) || ('0' <= c && c <= '9')
}

/// Path separators.
pub open spec fn is_sep(c: char) -> bool {
    c == '/' || c == '\\'
}

pub open spec fn is_path_char(c: char) -> bool {
    is_ident_char(c) || c == '.' || is_sep(c)
}

pub open spec fn in_class(k: CharClass, c: char) -> bool {
    match k {
        CharClass::Space => is_ws(c),
        CharClass::Ident => is_ident_char(c),
        CharClass::Path => is_path_char(c),
        CharClass::NotQuote => c != '"',
    }
}

/// The end of the longest run of characters of class `k` that starts at `i`.
pub open spec fn span(t: Seq<char>, i: int, k: CharClass) -> int
    decreases t.len() - i,
{
    if 0 <= i < t.len() && in_class(k, t[i]) {
        span(t, i + 1, k)
    } else {
        i
    }
}

/// Where the next token starts: after the whitespace at `i`.
pub open spec fn skip_ws(t: Seq<char>, i: int) -> int {
    span(t, i, CharClass::Space)
}

/// The word at `i`: the run of path characters there.
pub open spec fn word_at(t: Seq<char>, i: int) -> Seq<char> {
    t.subrange(i, span(t, i, CharClass::Path))
}

/// The text with its trailing separators removed.
pub open spec fn trim_seps(s: Seq<char>) -> Seq<char>
    decreases s.len(),
{
    if s.len() > 0 && is_sep(s.last()) {
        trim_seps(s.drop_last())
    } else {
        s
    }
}

pub proof fn lemma_span_bounds(t: Seq<char>, i: int, k: CharClass)
    requires
        0 <= i <= t.len(),
    ensures
        i <= span(t, i, k) <= t.len(),
        forall|j: int| i <= j < span(t, i, k) ==> in_class(k, #[trigger] t[j]),
        span(t, i, k) == t.len() || !in_class(k, t[span(t, i, k)]),
    decreases t.len() - i,
{
    if i < t.len() && in_class(k, t[i]) {
        lemma_span_bounds(t, i + 1, k);
    }
}

pub fn char_in_class(k: CharClass, c: char) -> (r: bool)
    ensures
        r == in_class(k, c),
{
    match k {
        CharClass::Space => c == ' ' || c == '\t' || c == '\n' || c == '\r',
        CharClass::Ident => ('a' <= c && c <= 'z') || ('A' <= c && c <= 'Z') || c == '_' || (
        '0' <= c && c <= '9'),
        CharClass::Path => ('a' <= c && c <= 'z') || ('A' <= c && c <= 'Z') || c == '_' || (
        '0' <= c && c <= '9') || c == '.' || c == '/' || c == '\\',
        CharClass::NotQuote => c != '"',
    }
}

pub fn char_is_sep(c: char) -> (r: bool)
    ensures
        r == is_sep(c),
{
    c == '/' || c == '\\'
}

/// The end of the run of class `k` that starts at `i`.
pub fn scan(s: &str, n: usize, i: usize, k: CharClass) -> (j: usize)
    requires
        n == s@.len(),
        i <= n,
    ensures
        j == span(s@, i as int, k),
        i <= j <= n,
{
    let mut j: usize = i;
    while j < n && char_in_class(k, s.get_char(j))
        invariant
            n == s@.len(),
            i <= j <= n,
            span(s@, i as int, k) == span(s@, j as int, k),
        decreases n - j,
    {
        j = j + 1;
    }
    j
}

/// The characters from `a` to `e`, as a new string.
pub fn text(s: &str, a: usize, e: usize) -> (r: String)
    requires
        a <= e <= s@.len(),
    ensures
        r@ == s@.subrange(a as int, e as int),
{
    s.substring_char(a, e).to_owned()
}

/// Whether the word at `a` is exactly `kw`.
pub fn word_is(s: &str, n: usize, a: usize, kw: &str) -> (r: bool)
    requires
        n == s@.len(),
        a <= n,
    ensures
        r == (word_at(s@, a as int) == kw@),
{
    let e = scan(s, n, a, CharClass::Path);
    let m = kw.unicode_len();
    if e - a != m {
        return false;
    }
    let mut k: usize = 0;
    while k < m
        invariant
            n == s@.len(),
            a <= e <= n,
            e == span(s@, a as int, CharClass::Path),
            e - a == m,
            m == kw@.len(),
            k <= m,
            forall|x: int| 0 <= x < k ==> s@[a + x] == kw@[x],
        decreases m - k,
    {
        if s.get_char(a + k) != kw.get_char(k) {
            assert(word_at(s@, a as int)[k as int] != kw@[k as int]);
            return false;
        }
        k = k + 1;
    }
    assert(word_at(s@, a as int) =~= kw@);
    true
}

/// The text with trailing separators removed.
pub fn trim_trailing_seps(s: &str) -> (r: String)
    ensures
        r@ == trim_seps(s@),
{
    let n = s.unicode_len();
    let mut e: usize = n;
    assert(s@.subrange(0, n as int) =~= s@);
    while e > 0 && char_is_sep(s.get_char(e - 1))
        invariant
            n == s@.len(),
            e <= n,
            trim_seps(s@) == trim_seps(s@.subrange(0, e as int)),
        decreases e,
    {
        assert(s@.subrange(0, e as int).drop_last() =~= s@.subrange(0, e - 1));
        e = e - 1;
    }
    text(s, 0, e)
}

} // verus!

verus! {

/// Whether two strings hold the same characters.
pub fn str_eq(a: &str, b: &str) -> (r: bool)
    ensures
        r == (a@ == b@),
{
    let n = a.unicode_len();
    if n != b.unicode_len() {
        return false;
    }
    let mut k: usize = 0;
    while k < n
        invariant
            n == a@.len(),
            n == b@.len(),
            k <= n,
            forall|x: int| 0 <= x < k ==> a@[x] == b@[x],
        decreases n - k,
    {
        if a.get_char(k) != b.get_char(k) {
            return false;
        }
        k = k + 1;
    }
    assert(a@ =~= b@);
    true
}

} // verus!
