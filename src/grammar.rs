//! The grammar of scripts, stated over the characters of the source.
//! Positions are character offsets.
use vstd::prelude::*;
use crate::ast::{
    IdemParamType, IdemPath, IdemPathLocalPartType, IdemRawCommandType, IdemRawCommandWithPaths,
    IdemResourceType, IdemValueType,
};
use crate::lexer::{
    is_ident_start, is_sep, lemma_span_bounds, skip_ws, span, trim_seps, word_at, CharClass,
};

verus! {

/// The identifier after the whitespace at `i`: its start and end.
pub open spec fn ident_token(t: Seq<char>, i: int) -> Option<(int, int)> {
    let a = skip_ws(t, i);
    if 0 <= a < t.len() && is_ident_start(t[a]) {
        Some((a, span(t, a, CharClass::Ident)))
    } else {
        None
    }
}

/// The path token after the whitespace at `i`: its start and end.
pub open spec fn path_token(t: Seq<char>, i: int) -> Option<(int, int)> {
    let a = skip_ws(t, i);
    let e = span(t, a, CharClass::Path);
    if a < e {
        Some((a, e))
    } else {
        None
    }
}

/// A path token names a directory when it ends in a separator.
pub open spec fn is_dir_token(tok: Seq<char>) -> bool {
    tok.len() > 0 && is_sep(tok.last())
}

/// `p` is what the path token `tok` denotes: a directory without its
/// trailing separators, or a file with the text kept exactly.
pub open spec fn path_of(p: IdemPath, tok: Seq<char>) -> bool {
    &&& p.0 is None
    &&& match p.1 {
        IdemPathLocalPartType::Directory(d) => is_dir_token(tok) && d@ == trim_seps(tok),
        IdemPathLocalPartType::File(f) => !is_dir_token(tok) && f@ == tok,
    }
}

/// `r` is the resource that the path token `tok` denotes.
pub open spec fn resource_of(r: IdemResourceType, tok: Seq<char>) -> bool {
    match r {
        IdemResourceType::Directory(d) => is_dir_token(tok) && d@ == trim_seps(tok),
        IdemResourceType::File(f) => !is_dir_token(tok) && f@ == tok,
        IdemResourceType::Host(_) => false,
    }
}

pub open spec fn starts_quote(t: Seq<char>, i: int) -> bool {
    let a = skip_ws(t, i);
    0 <= a < t.len() && t[a] == '"'
}

/// The inside of the quoted literal after the whitespace at `i`: from after
/// the opening quote up to the next quote, which must exist.
pub open spec fn lit_token(t: Seq<char>, i: int) -> Option<(int, int)> {
    let a = skip_ws(t, i);
    if 0 <= a < t.len() && t[a] == '"' {
        let c = span(t, a + 1, CharClass::NotQuote);
        if c < t.len() {
            Some((a + 1, c))
        } else {
            None
        }
    } else {
        None
    }
}

/// Where the value at `i` ends: a quoted literal is tried before a path.
pub open spec fn value_end(t: Seq<char>, i: int) -> Option<int> {
    if starts_quote(t, i) {
        match lit_token(t, i) {
            Some(l) => Some(l.1 + 1),
            None => None,
        }
    } else {
        match path_token(t, i) {
            Some(p) => Some(p.1),
            None => None,
        }
    }
}

/// `v` is the value at `i`.
pub open spec fn value_of(v: IdemValueType, t: Seq<char>, i: int) -> bool {
    if starts_quote(t, i) {
        match (lit_token(t, i), v) {
            (Some(l), IdemValueType::LitString(s)) => s@ == t.subrange(l.0, l.1),
            _ => false,
        }
    } else {
        match (path_token(t, i), v) {
            (Some(p), IdemValueType::PathSpec(q)) => path_of(q, t.subrange(p.0, p.1)),
            _ => false,
        }
    }
}

/// Where the value of a `key=value` parameter at `i` starts.
pub open spec fn kv_value_start(t: Seq<char>, i: int) -> Option<int> {
    match ident_token(t, i) {
        Some(k) => {
            let b = skip_ws(t, k.1);
            if 0 <= b < t.len() && t[b] == '=' {
                Some(b + 1)
            } else {
                None
            }
        },
        None => None,
    }
}

pub open spec fn kv_end(t: Seq<char>, i: int) -> Option<int> {
    match kv_value_start(t, i) {
        Some(q) => value_end(t, q),
        None => None,
    }
}

/// The words that may stand alone as a parameter.
pub open spec fn is_flag_word(w: Seq<char>) -> bool {
    w == "exists"@ || w == "copied"@
}

pub open spec fn flag_token(t: Seq<char>, i: int) -> Option<(int, int)> {
    match ident_token(t, i) {
        Some(k) => if is_flag_word(t.subrange(k.0, k.1)) {
            Some(k)
        } else {
            None
        },
        None => None,
    }
}

/// Where the parameter at `i` ends: `key=value` is tried before a flag.
pub open spec fn param_end(t: Seq<char>, i: int) -> Option<int> {
    if kv_end(t, i) is Some {
        kv_end(t, i)
    } else {
        match flag_token(t, i) {
            Some(f) => Some(f.1),
            None => None,
        }
    }
}

/// `p` is the parameter at `i`.
pub open spec fn param_of(p: IdemParamType, t: Seq<char>, i: int) -> bool {
    if kv_end(t, i) is Some {
        match (ident_token(t, i), p) {
            (Some(k), IdemParamType::KeyValue(key, v)) => key@ == t.subrange(k.0, k.1)
                && value_of(v, t, kv_value_start(t, i)->Some_0),
            _ => false,
        }
    } else {
        match (flag_token(t, i), p) {
            (Some(f), IdemParamType::FlagKeyword(w)) => w@ == t.subrange(f.0, f.1),
            _ => false,
        }
    }
}

/// The path tokens that follow one another from `i`.
pub open spec fn path_list(t: Seq<char>, i: int) -> Seq<(int, int)>
    decreases t.len() - i,
{
    match path_token(t, i) {
        Some(p) => if i < p.1 <= t.len() {
            seq![p] + path_list(t, p.1)
        } else {
            seq![]
        },
        None => seq![],
    }
}

/// Where the path tokens that follow one another from `i` end.
pub open spec fn paths_stop(t: Seq<char>, i: int) -> int
    decreases t.len() - i,
{
    match path_token(t, i) {
        Some(p) => if i < p.1 <= t.len() {
            paths_stop(t, p.1)
        } else {
            i
        },
        None => i,
    }
}

/// The parameters from `i` on, after an opening parenthesis or a comma: where
/// each starts, and the position after the closing parenthesis.
pub open spec fn params_tail(t: Seq<char>, i: int) -> Option<(Seq<int>, int)>
    decreases t.len() - i,
{
    match param_end(t, i) {
        Some(e) => {
            let b = skip_ws(t, e);
            if i < b < t.len() && t[b] == ',' {
                match params_tail(t, b + 1) {
                    Some(r) => Some((seq![i] + r.0, r.1)),
                    None => None,
                }
            } else if 0 <= b < t.len() && t[b] == ')' {
                Some((seq![i], b + 1))
            } else {
                None
            }
        },
        None => None,
    }
}

/// A parenthesised, comma-separated parameter list after the whitespace at `i`.
pub open spec fn params_group(t: Seq<char>, i: int) -> Option<(Seq<int>, int)> {
    let a = skip_ws(t, i);
    if 0 <= a < t.len() && t[a] == '(' {
        let b = skip_ws(t, a + 1);
        if 0 <= b < t.len() && t[b] == ')' {
            Some((seq![], b + 1))
        } else {
            params_tail(t, a + 1)
        }
    } else {
        None
    }
}

/// Where the command over paths at `i` ends.
pub open spec fn with_paths_end(t: Seq<char>, i: int) -> Option<int> {
    if path_list(t, i).len() > 0 {
        match params_group(t, paths_stop(t, i)) {
            Some(g) => Some(g.1),
            None => None,
        }
    } else {
        None
    }
}

/// `c` is the command over paths at `i`.
pub open spec fn with_paths_of(c: IdemRawCommandWithPaths, t: Seq<char>, i: int) -> bool {
    let pl = path_list(t, i);
    match params_group(t, paths_stop(t, i)) {
        Some(g) => {
            &&& pl.len() > 0
            &&& c.paths@.len() == pl.len()
            &&& forall|k: int|
                0 <= k < pl.len() ==> path_of(#[trigger] c.paths@[k], t.subrange(pl[k].0, pl[k].1))
            &&& c.params@.len() == g.0.len()
            &&& forall|k: int| 0 <= k < g.0.len() ==> param_of(#[trigger] c.params@[k], t, g.0[k])
        },
        None => false,
    }
}

/// Whether the word at `a` is the keyword `end`, which closes a block.
pub open spec fn at_end_kw(t: Seq<char>, a: int) -> bool {
    word_at(t, a) == "end"@
}

/// The head of an `each` block at `a`: the binding's start and end, and where
/// the collection starts.
pub open spec fn each_head(t: Seq<char>, a: int) -> Option<(int, int, int)> {
    match ident_token(t, span(t, a, CharClass::Path)) {
        Some(k) => {
            let b = skip_ws(t, k.1);
            if word_at(t, b) == "in"@ {
                Some((k.0, k.1, span(t, b, CharClass::Path)))
            } else {
                None
            }
        },
        None => None,
    }
}

/// The head of a `with` block at `a`: the resource token, the alias token if
/// any, and where the body starts.
pub open spec fn with_head(t: Seq<char>, a: int) -> Option<((int, int), Option<(int, int)>, int)> {
    match path_token(t, span(t, a, CharClass::Path)) {
        Some(r) => {
            let c = skip_ws(t, r.1);
            if word_at(t, c) == "as"@ {
                match ident_token(t, span(t, c, CharClass::Path)) {
                    Some(k) => Some((r, Some(k), k.1)),
                    None => None,
                }
            } else {
                Some((r, None, r.1))
            }
        },
        None => None,
    }
}

/// Where the body of a block that starts at `a` starts.
pub open spec fn body_start(t: Seq<char>, a: int) -> Option<int> {
    if word_at(t, a) == "each"@ {
        match each_head(t, a) {
            Some(h) => value_end(t, h.2),
            None => None,
        }
    } else {
        match with_head(t, a) {
            Some(h) => Some(h.2),
            None => None,
        }
    }
}

pub open spec fn is_block_kw(t: Seq<char>, a: int) -> bool {
    word_at(t, a) == "each"@ || word_at(t, a) == "with"@
}

/// Where the statements from `i` stop: at the end of the text or before the
/// keyword `end`.
pub open spec fn stmts_end(t: Seq<char>, i: int) -> Option<int>
    decreases t.len() - i, 1int,
{
    let a = skip_ws(t, i);
    if !(i <= a <= t.len()) {
        None
    } else if a == t.len() || at_end_kw(t, a) {
        Some(a)
    } else {
        match cmd_end(t, a) {
            Some(e) => if a < e <= t.len() {
                stmts_end(t, e)
            } else {
                None
            },
            None => None,
        }
    }
}

/// Where the command at `a` ends. A block ends after its keyword `end`, which
/// closes the innermost open block.
pub open spec fn cmd_end(t: Seq<char>, a: int) -> Option<int>
    decreases t.len() - a, 0int,
{
    if is_block_kw(t, a) {
        match body_start(t, a) {
            Some(b) => if a < b <= t.len() {
                match stmts_end(t, b) {
                    Some(p) => if p < t.len() {
                        Some(span(t, p, CharClass::Path))
                    } else {
                        None
                    },
                    None => None,
                }
            } else {
                None
            },
            None => None,
        }
    } else {
        with_paths_end(t, a)
    }
}

/// The commands of a block body.
pub open spec fn unbox(body: Seq<Box<IdemRawCommandType>>) -> Seq<IdemRawCommandType> {
    body.map_values(|b: Box<IdemRawCommandType>| *b)
}

/// `cmds` are the statements from `i`.
pub open spec fn stmts_of(cmds: Seq<IdemRawCommandType>, t: Seq<char>, i: int) -> bool
    decreases t.len() - i, 1int,
{
    let a = skip_ws(t, i);
    if !(i <= a <= t.len()) {
        false
    } else if a == t.len() || at_end_kw(t, a) {
        cmds.len() == 0
    } else {
        match cmd_end(t, a) {
            Some(e) => if a < e <= t.len() {
                &&& cmds.len() > 0
                &&& cmd_of(cmds[0], t, a)
                &&& stmts_of(cmds.drop_first(), t, e)
            } else {
                false
            },
            None => false,
        }
    }
}

/// `c` is the command at `a`.
pub open spec fn cmd_of(c: IdemRawCommandType, t: Seq<char>, a: int) -> bool
    decreases t.len() - a, 0int,
{
    if is_block_kw(t, a) {
        match body_start(t, a) {
            Some(b) => if a < b <= t.len() {
                if word_at(t, a) == "each"@ {
                    match (each_head(t, a), c) {
                        (Some(h), IdemRawCommandType::Each(name, coll, body)) => {
                            &&& name@ == t.subrange(h.0, h.1)
                            &&& value_of(coll, t, h.2)
                            &&& stmts_of(unbox(body@), t, b)
                        },
                        _ => false,
                    }
                } else {
                    match (with_head(t, a), c) {
                        (Some(h), IdemRawCommandType::WithBlock(res, alias, body)) => {
                            &&& resource_of(res, t.subrange(h.0.0, h.0.1))
                            &&& match (h.1, alias) {
                                (None, None) => true,
                                (Some(k), Some(n)) => n@ == t.subrange(k.0, k.1),
                                _ => false,
                            }
                            &&& stmts_of(unbox(body@), t, b)
                        },
                        _ => false,
                    }
                }
            } else {
                false
            },
            None => false,
        }
    } else {
        match c {
            IdemRawCommandType::WithPaths(w) => with_paths_of(w, t, a),
            _ => false,
        }
    }
}

/// Statements stop only at the end of the text or before the keyword `end`.
pub proof fn lemma_stmts_stop(t: Seq<char>, i: int)
    requires
        0 <= i <= t.len(),
        stmts_end(t, i) is Some,
    ensures
        i <= stmts_end(t, i)->Some_0 <= t.len(),
        stmts_end(t, i)->Some_0 == t.len() || at_end_kw(t, stmts_end(t, i)->Some_0),
    decreases t.len() - i,
{
    lemma_span_bounds(t, i, CharClass::Space);
    let a = skip_ws(t, i);
    if !(a == t.len() || at_end_kw(t, a)) {
        lemma_stmts_stop(t, cmd_end(t, a)->Some_0);
    }
}

/// An `each` or `with` block is closed only by the keyword `end`: where no
/// word `end` follows the block's keyword, the block does not parse, so the
/// parsers report a parse error.
pub proof fn lemma_block_needs_end(t: Seq<char>, a: int)
    requires
        0 <= a <= t.len(),
        is_block_kw(t, a),
        forall|p: int| a < p < t.len() ==> !at_end_kw(t, p),
    ensures
        cmd_end(t, a) is None,
{
    if cmd_end(t, a) is Some {
        let b = body_start(t, a)->Some_0;
        lemma_stmts_stop(t, b);
        let p = stmts_end(t, b)->Some_0;
        assert(a < p < t.len() && at_end_kw(t, p));
    }
}

} // verus!
