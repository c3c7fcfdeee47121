//! A recursive-descent parser for scripts, proved to follow the grammar.
use vstd::prelude::*;
use crate::ast::{
    IdemParamType, IdemPath, IdemPathLocalPartType, IdemRawCommandType, IdemRawCommandWithPaths,
    IdemResourceType, IdemValueType,
};
use crate::errors::{Error, ErrorType};
use crate::grammar::{
    cmd_end, cmd_of, flag_token, ident_token, kv_end, lit_token, param_end, param_of, params_group,
    params_tail, path_list, path_of, path_token, paths_stop, resource_of, stmts_end, stmts_of,
    unbox, value_end, value_of, with_paths_end, with_paths_of,
};
use crate::lexer::{
    char_is_sep, lemma_span_bounds, scan, skip_ws, text, trim_trailing_seps, word_at, word_is,
    CharClass,
};

verus! {

/// The identifier after the whitespace at `i`: its start and end.
fn ident_at(s: &str, n: usize, i: usize) -> (r: Result<(usize, usize), Error>)
    requires
        n == s@.len(),
        i <= n,
    ensures
        match ident_token(s@, i as int) {
            Some(k) => r matches Ok(p) && p.0 == k.0 && p.1 == k.1,
            None => r matches Err(e) && e.repr is Parse,
        },
{
    let a = scan(s, n, i, CharClass::Space);
    if a < n {
        let c = s.get_char(a);
        if ('a' <= c && c <= 'z') || ('A' <= c && c <= 'Z') || c == '_' {
            let e = scan(s, n, a, CharClass::Ident);
            return Ok((a, e));
        }
    }
    Err(Error::parse(a))
}

/// The path token after the whitespace at `i`, and where it ends.
fn path_at(s: &str, n: usize, i: usize) -> (r: Result<(usize, IdemPath), Error>)
    requires
        n == s@.len(),
        i <= n,
    ensures
        match path_token(s@, i as int) {
            Some(p) => r matches Ok(v) && v.0 == p.1 && path_of(v.1, s@.subrange(p.0, p.1)),
            None => r matches Err(e) && e.repr is Parse,
        },
{
    let a = scan(s, n, i, CharClass::Space);
    let e = scan(s, n, a, CharClass::Path);
    if a == e {
        return Err(Error::parse(a));
    }
    let tok = s.substring_char(a, e);
    if char_is_sep(s.get_char(e - 1)) {
        Ok((e, IdemPath(None, IdemPathLocalPartType::Directory(trim_trailing_seps(tok)))))
    } else {
        Ok((e, IdemPath(None, IdemPathLocalPartType::File(tok.to_owned()))))
    }
}

/// The quoted literal after the whitespace at `i`, and where it ends.
fn lit_at(s: &str, n: usize, i: usize) -> (r: Result<(usize, String), Error>)
    requires
        n == s@.len(),
        i <= n,
    ensures
        match lit_token(s@, i as int) {
            Some(l) => r matches Ok(v) && v.0 == l.1 + 1 && v.1@ == s@.subrange(l.0, l.1),
            None => r matches Err(e) && e.repr is Parse,
        },
{
    let a = scan(s, n, i, CharClass::Space);
    if a < n && s.get_char(a) == '"' {
        let c = scan(s, n, a + 1, CharClass::NotQuote);
        if c < n {
            return Ok((c + 1, text(s, a + 1, c)));
        }
        return Err(Error::parse(c));
    }
    Err(Error::parse(a))
}

fn value_at(s: &str, n: usize, i: usize) -> (r: Result<(usize, IdemValueType), Error>)
    requires
        n == s@.len(),
        i <= n,
    ensures
        match value_end(s@, i as int) {
            Some(e) => r matches Ok(v) && v.0 == e && value_of(v.1, s@, i as int),
            None => r matches Err(e) && e.repr is Parse,
        },
{
    let a = scan(s, n, i, CharClass::Space);
    if a < n && s.get_char(a) == '"' {
        match lit_at(s, n, i) {
            Ok((e, v)) => Ok((e, IdemValueType::LitString(v))),
            Err(e) => Err(e),
        }
    } else {
        match path_at(s, n, i) {
            Ok((e, p)) => Ok((e, IdemValueType::PathSpec(p))),
            Err(e) => Err(e),
        }
    }
}

fn kv_at(s: &str, n: usize, i: usize) -> (r: Result<(usize, IdemParamType), Error>)
    requires
        n == s@.len(),
        i <= n,
    ensures
        match kv_end(s@, i as int) {
            Some(e) => r matches Ok(v) && v.0 == e && param_of(v.1, s@, i as int),
            None => r matches Err(e) && e.repr is Parse,
        },
{
    let (ka, ke) = match ident_at(s, n, i) {
        Ok(k) => k,
        Err(e) => return Err(e),
    };
    proof {
        lemma_span_bounds(s@, i as int, CharClass::Space);
        lemma_span_bounds(s@, ka as int, CharClass::Ident);
    }
    let b = scan(s, n, ke, CharClass::Space);
    if !(b < n && s.get_char(b) == '=') {
        return Err(Error::parse(b));
    }
    match value_at(s, n, b + 1) {
        Ok((e, v)) => Ok((e, IdemParamType::KeyValue(text(s, ka, ke), v))),
        Err(e) => Err(e),
    }
}

fn flag_at(s: &str, n: usize, i: usize) -> (r: Result<(usize, IdemParamType), Error>)
    requires
        n == s@.len(),
        i <= n,
    ensures
        match flag_token(s@, i as int) {
            Some(f) => r matches Ok(v) && v.0 == f.1 && (v.1 matches IdemParamType::FlagKeyword(w)
                && w@ == s@.subrange(f.0, f.1)),
            None => r matches Err(e) && e.repr is Parse,
        },
{
    let (a, e) = match ident_at(s, n, i) {
        Ok(k) => k,
        Err(e) => return Err(e),
    };
    proof {
        lemma_span_bounds(s@, i as int, CharClass::Space);
        lemma_span_bounds(s@, a as int, CharClass::Ident);
    }
    let w = s.substring_char(a, e);
    if crate::lexer::str_eq(w, "exists") || crate::lexer::str_eq(w, "copied") {
        Ok((e, IdemParamType::FlagKeyword(w.to_owned())))
    } else {
        Err(Error::parse(a))
    }
}

fn param_at(s: &str, n: usize, i: usize) -> (r: Result<(usize, IdemParamType), Error>)
    requires
        n == s@.len(),
        i <= n,
    ensures
        match param_end(s@, i as int) {
            Some(e) => r matches Ok(v) && v.0 == e && param_of(v.1, s@, i as int),
            None => r matches Err(e) && e.repr is Parse,
        },
{
    match kv_at(s, n, i) {
        Ok(v) => Ok(v),
        Err(_) => flag_at(s, n, i),
    }
}

/// The path tokens that follow one another from `i`, and where they stop.
fn path_list_at(s: &str, n: usize, i: usize) -> (r: (usize, Vec<IdemPath>))
    requires
        n == s@.len(),
        i <= n,
    ensures
        r.0 == paths_stop(s@, i as int),
        r.1@.len() == path_list(s@, i as int).len(),
        forall|k: int|
            0 <= k < r.1@.len() ==> path_of(
                #[trigger] r.1@[k],
                s@.subrange(path_list(s@, i as int)[k].0, path_list(s@, i as int)[k].1),
            ),
    decreases n - i,
{
    match path_at(s, n, i) {
        Ok((e, p)) => {
            if !(i < e && e <= n) {
                return (i, Vec::new());
            }
            let (stop, mut rest) = path_list_at(s, n, e);
            let ghost old_rest = rest@;
            rest.insert(0, p);
            proof {
                let pl = path_list(s@, i as int);
                assert(pl == seq![path_token(s@, i as int)->Some_0] + path_list(s@, e as int));
                assert forall|k: int| 0 <= k < rest@.len() implies path_of(
                    #[trigger] rest@[k],
                    s@.subrange(pl[k].0, pl[k].1),
                ) by {
                    if k > 0 {
                        assert(rest@[k] == old_rest[k - 1]);
                        assert(pl[k] == path_list(s@, e as int)[k - 1]);
                    }
                }
            }
            (stop, rest)
        },
        Err(_) => (i, Vec::new()),
    }
}

/// The parameters from `i` on, after an opening parenthesis or a comma, and
/// the position after the closing parenthesis.
fn params_tail_at(s: &str, n: usize, i: usize) -> (r: Result<(usize, Vec<IdemParamType>), Error>)
    requires
        n == s@.len(),
        i <= n,
    ensures
        match params_tail(s@, i as int) {
            Some(g) => r matches Ok(v) && v.0 == g.1 && v.1@.len() == g.0.len() && forall|k: int|
                0 <= k < g.0.len() ==> param_of(#[trigger] v.1@[k], s@, g.0[k]),
            None => r matches Err(e) && e.repr is Parse,
        },
    decreases n - i,
{
    let (e, p) = match param_at(s, n, i) {
        Ok(v) => v,
        Err(e) => return Err(e),
    };
    if e > n {
        return Err(Error::parse(i));
    }
    let b = scan(s, n, e, CharClass::Space);
    if i < b && b < n && s.get_char(b) == ',' {
        match params_tail_at(s, n, b + 1) {
            Ok((end, mut rest)) => {
                let ghost old_rest = rest@;
                rest.insert(0, p);
                proof {
                    let g = params_tail(s@, i as int)->Some_0;
                    let g2 = params_tail(s@, b + 1)->Some_0;
                    assert(g.0 == seq![i as int] + g2.0);
                    assert forall|k: int| 0 <= k < g.0.len() implies param_of(
                        #[trigger] rest@[k],
                        s@,
                        g.0[k],
                    ) by {
                        if k > 0 {
                            assert(rest@[k] == old_rest[k - 1]);
                            assert(g.0[k] == g2.0[k - 1]);
                        }
                    }
                }
                Ok((end, rest))
            },
            Err(e) => Err(e),
        }
    } else if b < n && s.get_char(b) == ')' {
        let mut v = Vec::new();
        v.push(p);
        Ok((b + 1, v))
    } else {
        Err(Error::parse(b))
    }
}

/// A parenthesised parameter list after the whitespace at `i`.
fn params_group_at(s: &str, n: usize, i: usize) -> (r: Result<(usize, Vec<IdemParamType>), Error>)
    requires
        n == s@.len(),
        i <= n,
    ensures
        match params_group(s@, i as int) {
            Some(g) => r matches Ok(v) && v.0 == g.1 && v.1@.len() == g.0.len() && forall|k: int|
                0 <= k < g.0.len() ==> param_of(#[trigger] v.1@[k], s@, g.0[k]),
            None => r matches Err(e) && e.repr is Parse,
        },
{
    let a = scan(s, n, i, CharClass::Space);
    if !(a < n && s.get_char(a) == '(') {
        return Err(Error::parse(a));
    }
    let b = scan(s, n, a + 1, CharClass::Space);
    if b < n && s.get_char(b) == ')' {
        return Ok((b + 1, Vec::new()));
    }
    params_tail_at(s, n, a + 1)
}

/// The command over paths at `i`, and where it ends.
fn with_paths_at(s: &str, n: usize, i: usize) -> (r: Result<(usize, IdemRawCommandWithPaths), Error>)
    requires
        n == s@.len(),
        i <= n,
    ensures
        match with_paths_end(s@, i as int) {
            Some(e) => r matches Ok(v) && v.0 == e && with_paths_of(v.1, s@, i as int),
            None => r matches Err(e) && e.repr is Parse,
        },
{
    let (stop, paths) = path_list_at(s, n, i);
    if paths.len() == 0 {
        return Err(Error::parse(i));
    }
    proof {
        lemma_paths_stop_bounds(s@, i as int);
    }
    match params_group_at(s, n, stop) {
        Ok((e, params)) => Ok((e, IdemRawCommandWithPaths { paths, params })),
        Err(e) => Err(e),
    }
}

proof fn lemma_paths_stop_bounds(t: Seq<char>, i: int)
    requires
        0 <= i <= t.len(),
    ensures
        i <= paths_stop(t, i) <= t.len(),
    decreases t.len() - i,
{
    match path_token(t, i) {
        Some(p) => if i < p.1 <= t.len() {
            lemma_paths_stop_bounds(t, p.1);
        },
        None => {},
    }
}

/// The same commands, each in a box.
fn boxed(v: Vec<IdemRawCommandType>) -> (r: Vec<Box<IdemRawCommandType>>)
    ensures
        unbox(r@) == v@,
{
    let mut v = v;
    let ghost orig = v@;
    let mut out: Vec<Box<IdemRawCommandType>> = Vec::new();
    while v.len() > 0
        invariant
            unbox(out@) + v@ == orig,
        decreases v@.len(),
    {
        let c = v.remove(0);
        let ghost prev = out@;
        out.push(Box::new(c));
        assert(unbox(out@) =~= unbox(prev).push(c));
        assert(unbox(out@) + v@ =~= orig);
    }
    assert(unbox(out@) =~= unbox(out@) + v@);
    out
}

/// The statements from `i`, and where they stop: at the end of the text or
/// before the keyword `end`.
fn stmts_at(s: &str, n: usize, i: usize) -> (r: Result<(usize, Vec<IdemRawCommandType>), Error>)
    requires
        n == s@.len(),
        i <= n,
    ensures
        match stmts_end(s@, i as int) {
            Some(e) => r matches Ok(v) && v.0 == e && stmts_of(v.1@, s@, i as int),
            None => r matches Err(e) && e.repr is Parse,
        },
    decreases n - i, 1int,
{
    let a = scan(s, n, i, CharClass::Space);
    if a == n || word_is(s, n, a, "end") {
        return Ok((a, Vec::new()));
    }
    let (e, c) = match cmd_at(s, n, a) {
        Ok(v) => v,
        Err(e) => return Err(e),
    };
    if !(a < e && e <= n) {
        return Err(Error::parse(a));
    }
    match stmts_at(s, n, e) {
        Ok((end, mut rest)) => {
            let ghost old_rest = rest@;
            rest.insert(0, c);
            assert(rest@.drop_first() =~= old_rest);
            Ok((end, rest))
        },
        Err(err) => Err(err),
    }
}

/// The command at `a`, and where it ends.
fn cmd_at(s: &str, n: usize, a: usize) -> (r: Result<(usize, IdemRawCommandType), Error>)
    requires
        n == s@.len(),
        a <= n,
    ensures
        match cmd_end(s@, a as int) {
            Some(e) => r matches Ok(v) && v.0 == e && cmd_of(v.1, s@, a as int),
            None => r matches Err(e) && e.repr is Parse,
        },
    decreases n - a, 0int,
{
    let is_each = word_is(s, n, a, "each");
    if !is_each && !word_is(s, n, a, "with") {
        return match with_paths_at(s, n, a) {
            Ok((e, w)) => Ok((e, IdemRawCommandType::WithPaths(w))),
            Err(e) => Err(e),
        };
    }
    let k1 = scan(s, n, a, CharClass::Path);
    if is_each {
        let (x, y) = match ident_at(s, n, k1) {
            Ok(k) => k,
            Err(e) => return Err(e),
        };
        proof {
            lemma_span_bounds(s@, k1 as int, CharClass::Space);
            lemma_span_bounds(s@, x as int, CharClass::Ident);
        }
        let b = scan(s, n, y, CharClass::Space);
        if !word_is(s, n, b, "in") {
            return Err(Error::parse(b));
        }
        let q = scan(s, n, b, CharClass::Path);
        let (vs, coll) = match value_at(s, n, q) {
            Ok(v) => v,
            Err(e) => return Err(e),
        };
        if !(a < vs && vs <= n) {
            return Err(Error::parse(a));
        }
        let (p, body) = match stmts_at(s, n, vs) {
            Ok(v) => v,
            Err(e) => return Err(e),
        };
        if p >= n {
            return Err(Error::parse(p));
        }
        let end = scan(s, n, p, CharClass::Path);
        Ok((end, IdemRawCommandType::Each(text(s, x, y), coll, boxed(body))))
    } else {
        let (re, res) = match path_at(s, n, k1) {
            Ok((e, IdemPath(_, IdemPathLocalPartType::Directory(d)))) => (
                e,
                IdemResourceType::Directory(d),
            ),
            Ok((e, IdemPath(_, IdemPathLocalPartType::File(f)))) => (e, IdemResourceType::File(f)),
            Err(e) => return Err(e),
        };
        proof {
            lemma_span_bounds(s@, k1 as int, CharClass::Space);
            let ra = skip_ws(s@, k1 as int);
            lemma_span_bounds(s@, ra, CharClass::Path);
        }
        let c = scan(s, n, re, CharClass::Space);
        let (alias, bs) = if word_is(s, n, c, "as") {
            let k2 = scan(s, n, c, CharClass::Path);
            match ident_at(s, n, k2) {
                Ok((x, y)) => {
                    proof {
                        lemma_span_bounds(s@, k2 as int, CharClass::Space);
                        lemma_span_bounds(s@, x as int, CharClass::Ident);
                    }
                    (Some(text(s, x, y)), y)
                },
                Err(e) => return Err(e),
            }
        } else {
            (None, re)
        };
        if !(a < bs && bs <= n) {
            return Err(Error::parse(a));
        }
        let (p, body) = match stmts_at(s, n, bs) {
            Ok(v) => v,
            Err(e) => return Err(e),
        };
        if p >= n {
            return Err(Error::parse(p));
        }
        let end = scan(s, n, p, CharClass::Path);
        Ok((end, IdemRawCommandType::WithBlock(res, alias, boxed(body))))
    }
}

/// Parses an identifier after leading whitespace; gives where it ends and its text.
pub fn parse_identifier(input: &str) -> (r: Result<(usize, String), Error>)
    ensures
        match ident_token(input@, 0) {
            Some(k) => r matches Ok(v) && v.0 == k.1 && v.1@ == input@.subrange(k.0, k.1),
            None => r matches Err(e) && e.repr is Parse,
        },
{
    let n = input.unicode_len();
    match ident_at(input, n, 0) {
        Ok((a, e)) => {
            proof {
                lemma_span_bounds(input@, 0, CharClass::Space);
                lemma_span_bounds(input@, a as int, CharClass::Ident);
            }
            Ok((e, text(input, a, e)))
        },
        Err(e) => Err(e),
    }
}

/// Parses a path token after leading whitespace. A token that ends in a
/// separator is a directory, stored without its trailing separators; any
/// other token is a file, stored exactly as written.
pub fn parse_path(input: &str) -> (r: Result<(usize, IdemPath), Error>)
    ensures
        match path_token(input@, 0) {
            Some(p) => r matches Ok(v) && v.0 == p.1 && path_of(v.1, input@.subrange(p.0, p.1)),
            None => r matches Err(e) && e.repr is Parse,
        },
{
    path_at(input, input.unicode_len(), 0)
}

/// Parses the subject of a `with` block: a path token, as a directory or a file.
pub fn parse_resource(input: &str) -> (r: Result<(usize, IdemResourceType), Error>)
    ensures
        match path_token(input@, 0) {
            Some(p) => r matches Ok(v) && v.0 == p.1 && resource_of(v.1, input@.subrange(p.0, p.1)),
            None => r matches Err(e) && e.repr is Parse,
        },
{
    match path_at(input, input.unicode_len(), 0) {
        Ok((e, IdemPath(_, IdemPathLocalPartType::Directory(d)))) => Ok(
            (e, IdemResourceType::Directory(d)),
        ),
        Ok((e, IdemPath(_, IdemPathLocalPartType::File(f)))) => Ok((e, IdemResourceType::File(f))),
        Err(e) => Err(e),
    }
}

/// Parses a quoted literal: everything up to the next double quote, with no
/// escape sequences.
pub fn parse_value_litstring(input: &str) -> (r: Result<(usize, IdemValueType), Error>)
    ensures
        match lit_token(input@, 0) {
            Some(l) => r matches Ok(v) && v.0 == l.1 + 1 && (v.1 matches IdemValueType::LitString(
                x,
            ) && x@ == input@.subrange(l.0, l.1)),
            None => r matches Err(e) && e.repr is Parse,
        },
{
    match lit_at(input, input.unicode_len(), 0) {
        Ok((e, x)) => Ok((e, IdemValueType::LitString(x))),
        Err(e) => Err(e),
    }
}

/// Parses a path token as a value.
pub fn parse_value_path_spec(input: &str) -> (r: Result<(usize, IdemValueType), Error>)
    ensures
        match path_token(input@, 0) {
            Some(p) => r matches Ok(v) && v.0 == p.1 && (v.1 matches IdemValueType::PathSpec(q)
                && path_of(q, input@.subrange(p.0, p.1))),
            None => r matches Err(e) && e.repr is Parse,
        },
{
    match path_at(input, input.unicode_len(), 0) {
        Ok((e, p)) => Ok((e, IdemValueType::PathSpec(p))),
        Err(e) => Err(e),
    }
}

/// Parses a value: a quoted literal if one starts here, else a path.
pub fn parse_value(input: &str) -> (r: Result<(usize, IdemValueType), Error>)
    ensures
        match value_end(input@, 0) {
            Some(e) => r matches Ok(v) && v.0 == e && value_of(v.1, input@, 0),
            None => r matches Err(e) && e.repr is Parse,
        },
{
    value_at(input, input.unicode_len(), 0)
}

/// Parses a `key=value` parameter.
pub fn parse_param_key_value(input: &str) -> (r: Result<(usize, IdemParamType), Error>)
    ensures
        match kv_end(input@, 0) {
            Some(e) => r matches Ok(v) && v.0 == e && param_of(v.1, input@, 0),
            None => r matches Err(e) && e.repr is Parse,
        },
{
    kv_at(input, input.unicode_len(), 0)
}

/// Parses a flag keyword: one of `exists` and `copied`.
pub fn parse_param_flag_keyword(input: &str) -> (r: Result<(usize, IdemParamType), Error>)
    ensures
        match flag_token(input@, 0) {
            Some(f) => r matches Ok(v) && v.0 == f.1 && (v.1 matches IdemParamType::FlagKeyword(w)
                && w@ == input@.subrange(f.0, f.1)),
            None => r matches Err(e) && e.repr is Parse,
        },
{
    flag_at(input, input.unicode_len(), 0)
}

/// Parses a parameter: `key=value` is tried before a flag keyword.
pub fn parse_param(input: &str) -> (r: Result<(usize, IdemParamType), Error>)
    ensures
        match param_end(input@, 0) {
            Some(e) => r matches Ok(v) && v.0 == e && param_of(v.1, input@, 0),
            None => r matches Err(e) && e.repr is Parse,
        },
{
    param_at(input, input.unicode_len(), 0)
}

/// Parses one or more paths followed by a parenthesised, comma-separated
/// parameter list.
pub fn parse_raw_command_with_paths(input: &str) -> (r: Result<(usize, IdemRawCommandWithPaths), Error>)
    ensures
        match with_paths_end(input@, 0) {
            Some(e) => r matches Ok(v) && v.0 == e && with_paths_of(v.1, input@, 0),
            None => r matches Err(e) && e.repr is Parse,
        },
{
    with_paths_at(input, input.unicode_len(), 0)
}

/// Parses statements up to the end of the text or to a closing `end`.
pub fn parse_raw_statements(input: &str) -> (r: Result<(usize, Vec<IdemRawCommandType>), Error>)
    ensures
        match stmts_end(input@, 0) {
            Some(e) => r matches Ok(v) && v.0 == e && stmts_of(v.1@, input@, 0),
            None => r matches Err(e) && e.repr is Parse,
        },
{
    stmts_at(input, input.unicode_len(), 0)
}

/// Parses one command after leading whitespace: an `each` block, a `with`
/// block, or a command over paths.
pub fn parse_raw_command(input: &str) -> (r: Result<(usize, IdemRawCommandType), Error>)
    ensures
        match cmd_end(input@, skip_ws(input@, 0)) {
            Some(e) => r matches Ok(v) && v.0 == e && cmd_of(v.1, input@, skip_ws(input@, 0)),
            None => r matches Err(e) && e.repr is Parse,
        },
{
    let n = input.unicode_len();
    let a = scan(input, n, 0, CharClass::Space);
    cmd_at(input, n, a)
}

/// Parses an `each <name> in <value> ... end` block after leading whitespace.
pub fn parse_raw_command_each(input: &str) -> (r: Result<(usize, IdemRawCommandType), Error>)
    ensures
        word_at(input@, skip_ws(input@, 0)) != "each"@ ==> (r matches Err(e) && e.repr is Parse),
        word_at(input@, skip_ws(input@, 0)) == "each"@ ==> match cmd_end(
            input@,
            skip_ws(input@, 0),
        ) {
            Some(e) => r matches Ok(v) && v.0 == e && cmd_of(v.1, input@, skip_ws(input@, 0)),
            None => r matches Err(e) && e.repr is Parse,
        },
{
    let n = input.unicode_len();
    let a = scan(input, n, 0, CharClass::Space);
    if !word_is(input, n, a, "each") {
        return Err(Error::parse(a));
    }
    cmd_at(input, n, a)
}

/// Parses a `with <resource> [as <name>] ... end` block after leading whitespace.
pub fn parse_raw_command_with_block(input: &str) -> (r: Result<(usize, IdemRawCommandType), Error>)
    ensures
        word_at(input@, skip_ws(input@, 0)) != "with"@ ==> (r matches Err(e) && e.repr is Parse),
        word_at(input@, skip_ws(input@, 0)) == "with"@ ==> match cmd_end(
            input@,
            skip_ws(input@, 0),
        ) {
            Some(e) => r matches Ok(v) && v.0 == e && cmd_of(v.1, input@, skip_ws(input@, 0)),
            None => r matches Err(e) && e.repr is Parse,
        },
{
    let n = input.unicode_len();
    let a = scan(input, n, 0, CharClass::Space);
    if !word_is(input, n, a, "with") {
        return Err(Error::parse(a));
    }
    cmd_at(input, n, a)
}

/// Parses a whole script: statements that reach the end of the text. A stray
/// `end`, an unterminated block or any unrecognised token is a parse error.
pub fn parse_raw_script(input: &str) -> (r: Result<(usize, Vec<IdemRawCommandType>), Error>)
    ensures
        match stmts_end(input@, 0) {
            Some(e) => if e == input@.len() {
                r matches Ok(v) && v.0 == e && stmts_of(v.1@, input@, 0)
            } else {
                r matches Err(x) && x.repr == ErrorType::Parse(e as usize)
            },
            None => r matches Err(x) && x.repr is Parse,
        },
{
    let n = input.unicode_len();
    match stmts_at(input, n, 0) {
        Ok((e, cmds)) => if e == n {
            Ok((e, cmds))
        } else {
            Err(Error::parse(e))
        },
        Err(e) => Err(e),
    }
}

} // verus!
