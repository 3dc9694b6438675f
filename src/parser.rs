//! Parsing style source text into a style tree.
//!
//! The source is a sequence of items. An item is either a declaration
//! `property: value` ended by `;` (or by the `}` or end of input that closes
//! its block), or a block `selector { items }`. Quoted strings may hold any
//! of `{`, `;`, `}`, and `${name}` may hold `{` and `;`. In values, `${name}` is replaced by the binding of `name`.
//! Each top-level block is a scope of its own, and each run of top-level
//! declarations between blocks is a scope with an empty selector.

use crate::ast::{content_view, contents_view, lemma_contents_view, lemma_contents_view_push, lemma_scopes_view_push, scope_view, scopes_view, Content, Rule, Scope, ScopeContent, Scopes};
use vstd::prelude::*;

verus! {

#[derive(Clone, Copy, Debug, PartialEq, Eq, Structural)]
pub enum ParseErrorKind {
    /// A declaration without the `:` between property and value.
    MissingColon,
    /// A `}` without a block to close, or a block that is never closed.
    UnbalancedBraces,
    /// A quote without its closing quote.
    UnterminatedString,
    /// `${name}` where `name` has no binding.
    UnknownInterpolation,
    /// `${` without its closing `}`.
    UnterminatedInterpolation,
}

/// What went wrong, and at which character of the source.
#[derive(Clone, Copy, Debug, PartialEq, Eq, Structural)]
pub struct ParseError {
    pub kind: ParseErrorKind,
    pub position: usize,
}

pub open spec fn err<T>(kind: ParseErrorKind, pos: int) -> Result<T, ParseError> {
    Err(ParseError { kind, position: pos as usize })
}

pub open spec fn is_ws(c: char) -> bool {
    c == ' ' || c == '\n' || c == '\t' || c == '\r'
}

pub open spec fn is_stop(c: char) -> bool {
    c == '{' || c == ';' || c == '}'
}

pub open spec fn is_quote(c: char) -> bool {
    c == '"' || c == '\''
}

/// How many whitespace characters start at `i`.
pub open spec fn ws_len(s: Seq<char>, i: int) -> nat
    decreases s.len() - i,
{
    if 0 <= i < s.len() && is_ws(s[i]) {
        ws_len(s, i + 1) + 1
    } else {
        0
    }
}

/// Offset from `a` of the first `c` in `s[a..e]`.
pub open spec fn find_from(s: Seq<char>, a: int, e: int, c: char) -> Option<nat>
    decreases e - a,
{
    if a < 0 || a >= e || e > s.len() {
        None
    } else if s[a] == c {
        Some(0)
    } else {
        match find_from(s, a + 1, e, c) {
            Some(d) => Some(d + 1),
            None => None,
        }
    }
}

/// Offset from `i` of the character that ends the item starting at `i`
/// (a `{`, `;` or `}` outside quotes and `${..}`, or the end of input).
pub open spec fn scan_len(s: Seq<char>, i: int) -> Result<nat, ParseError>
    decreases s.len() - i,
{
    if i < 0 || i >= s.len() || is_stop(s[i]) {
        Ok(0)
    } else if is_quote(s[i]) {
        match find_from(s, i + 1, s.len() as int, s[i]) {
            Some(d) if i + 1 + d < s.len() => match scan_len(s, i + d + 2) {
                Ok(x) => Ok(x + d + 2),
                Err(e) => Err(e),
            },
            _ => err(ParseErrorKind::UnterminatedString, i),
        }
    } else if s[i] == '$' && i + 1 < s.len() && s[i + 1] == '{' {
        match find_from(s, i + 2, s.len() as int, '}') {
            Some(d) if i + 2 + d < s.len() => match scan_len(s, i + d + 3) {
                Ok(x) => Ok(x + d + 3),
                Err(e) => Err(e),
            },
            _ => err(ParseErrorKind::UnterminatedInterpolation, i),
        }
    } else {
        match scan_len(s, i + 1) {
            Ok(x) => Ok(x + 1),
            Err(e) => Err(e),
        }
    }
}

/// End of `s[a..b]` with trailing whitespace removed.
pub open spec fn trim_end(s: Seq<char>, a: int, b: int) -> int
    decreases b - a,
{
    if a < b && 0 < b <= s.len() && is_ws(s[b - 1]) {
        trim_end(s, a, b - 1)
    } else {
        b
    }
}

/// The value bound to `name`: the first binding with that name.
pub open spec fn lookup(bs: Seq<(Seq<char>, Seq<char>)>, name: Seq<char>) -> Option<Seq<char>>
    decreases bs.len(),
{
    if bs.len() == 0 {
        None
    } else if bs[0].0 == name {
        Some(bs[0].1)
    } else {
        lookup(bs.drop_first(), name)
    }
}

/// `s[a..e]` with each `${name}` replaced by its binding.
pub open spec fn interpolate(s: Seq<char>, a: int, e: int, bs: Seq<(Seq<char>, Seq<char>)>) -> Result<Seq<char>, ParseError>
    decreases e - a,
{
    if a < 0 || a >= e || e > s.len() {
        Ok(Seq::empty())
    } else if s[a] == '$' && a + 1 < e && s[a + 1] == '{' {
        match find_from(s, a + 2, e, '}') {
            Some(d) if a + 2 + d < e => match lookup(bs, s.subrange(a + 2, a + 2 + d)) {
                None => err(ParseErrorKind::UnknownInterpolation, a),
                Some(v) => match interpolate(s, a + 3 + d, e, bs) {
                    Ok(r) => Ok(v + r),
                    Err(x) => Err(x),
                },
            },
            _ => err(ParseErrorKind::UnterminatedInterpolation, a),
        }
    } else {
        match interpolate(s, a + 1, e, bs) {
            Ok(r) => Ok(seq![s[a]] + r),
            Err(x) => Err(x),
        }
    }
}

/// The declaration held by `s[p..j]`, where `p` starts a non-blank item;
/// none when the item is empty.
pub open spec fn declaration(s: Seq<char>, p: int, j: int, bs: Seq<(Seq<char>, Seq<char>)>) -> Result<Option<Content>, ParseError> {
    let e = trim_end(s, p, j);
    if e <= p {
        Ok(None)
    } else {
        match find_from(s, p, e, ':') {
            None => err(ParseErrorKind::MissingColon, p),
            Some(d) => {
                let c = p + d;
                let vs = c + 1 + ws_len(s, c + 1);
                match interpolate(s, vs, e, bs) {
                    Ok(v) => Ok(Some(Content::Decl { property: s.subrange(p, trim_end(s, p, c)), value: v })),
                    Err(x) => Err(x),
                }
            },
        }
    }
}

pub open spec fn opt_seq(x: Option<Content>) -> Seq<Content> {
    match x {
        Some(c) => seq![c],
        None => Seq::empty(),
    }
}

/// The items from `i` up to the `}` that closes the current block or the end
/// of input, with how many characters they span.
pub open spec fn items(s: Seq<char>, i: int, bs: Seq<(Seq<char>, Seq<char>)>) -> Result<(Seq<Content>, nat), ParseError>
    decreases s.len() - i,
{
    if i < 0 || i > s.len() {
        Ok((Seq::empty(), 0))
    } else {
        let p = i + ws_len(s, i);
        if p >= s.len() || s[p] == '}' {
            Ok((Seq::empty(), (p - i) as nat))
        } else {
            match scan_len(s, p) {
                Err(x) => Err(x),
                Ok(d) => {
                    let j = p + d;
                    if j < s.len() && s[j] == '{' {
                        match items(s, j + 1, bs) {
                            Err(x) => Err(x),
                            Ok((inner, c)) => {
                                let k = j + 1 + c;
                                if k < s.len() && s[k] == '}' {
                                    let r = Content::Rule(Rule { selector: s.subrange(p, trim_end(s, p, j)), contents: inner });
                                    match items(s, k + 1, bs) {
                                        Err(x) => Err(x),
                                        Ok((rest, u)) => Ok((seq![r] + rest, (k + 1 + u - i) as nat)),
                                    }
                                } else {
                                    err(ParseErrorKind::UnbalancedBraces, j)
                                }
                            },
                        }
                    } else {
                        match declaration(s, p, j, bs) {
                            Err(x) => Err(x),
                            Ok(x) => if j < s.len() && s[j] == ';' {
                                match items(s, j + 1, bs) {
                                    Err(x) => Err(x),
                                    Ok((rest, u)) => Ok((opt_seq(x) + rest, (j + 1 + u - i) as nat)),
                                }
                            } else {
                                Ok((opt_seq(x), (j - i) as nat))
                            },
                        }
                    }
                },
            }
        }
    }
}

/// The tree of a whole source text: each top-level block is a scope of its
/// own, and each run of top-level declarations between blocks is a scope with
/// an empty selector, in source order.
pub open spec fn parse_outcome(s: Seq<char>, bs: Seq<(Seq<char>, Seq<char>)>) -> Result<Seq<Rule>, ParseError> {
    match items(s, 0, bs) {
        Err(x) => Err(x),
        Ok((cs, u)) => if u < s.len() {
            err(ParseErrorKind::UnbalancedBraces, u as int)
        } else {
            Ok(group_top(cs, Seq::empty()))
        },
    }
}

/// A scope with an empty selector for a run of top-level declarations; none
/// for an empty run.
pub open spec fn flush(run: Seq<Content>) -> Seq<Rule> {
    if run.len() > 0 {
        seq![Rule { selector: Seq::empty(), contents: run }]
    } else {
        Seq::empty()
    }
}

/// The top-level scopes of the items `rest`, after the pending run of
/// declarations `run`: each block is a scope of its own, and each run of
/// declarations between blocks is one root scope, in source order.
pub open spec fn group_top(rest: Seq<Content>, run: Seq<Content>) -> Seq<Rule>
    decreases rest.len(),
{
    if rest.len() == 0 {
        flush(run)
    } else {
        match rest[0] {
            Content::Decl { .. } => group_top(rest.drop_first(), run.push(rest[0])),
            Content::Rule(r) => flush(run) + seq![r] + group_top(rest.drop_first(), Seq::empty()),
        }
    }
}

pub open spec fn bindings_view(b: Seq<(String, String)>) -> Seq<(Seq<char>, Seq<char>)> {
    b.map_values(|p: (String, String)| (p.0@, p.1@))
}

pub open spec fn shift(acc: Seq<Content>, off: int, r: Result<(Seq<Content>, nat), ParseError>) -> Result<(Seq<Content>, nat), ParseError> {
    match r {
        Ok((cs, u)) => Ok((acc + cs, (u + off) as nat)),
        Err(x) => Err(x),
    }
}

pub open spec fn opt_view(d: Option<ScopeContent>) -> Option<Content> {
    match d {
        Some(c) => Some(content_view(c)),
        None => None,
    }
}

pub open spec fn add_off(r: Result<nat, ParseError>, off: int) -> Result<nat, ParseError> {
    match r {
        Ok(x) => Ok((x + off) as nat),
        Err(e) => Err(e),
    }
}

pub open spec fn prepend(acc: Seq<char>, r: Result<Seq<char>, ParseError>) -> Result<Seq<char>, ParseError> {
    match r {
        Ok(v) => Ok(acc + v),
        Err(e) => Err(e),
    }
}

fn to_chars(src: &str) -> (r: Vec<char>)
    ensures
        r@ == src@,
{
    let n = src.unicode_len();
    let mut v: Vec<char> = Vec::new();
    let mut i: usize = 0;
    while i < n
        invariant
            n == src@.len(),
            i <= n,
            v@ == src@.subrange(0, i as int),
        decreases n - i,
    {
        v.push(src.get_char(i));
        i = i + 1;
        assert(v@ =~= src@.subrange(0, i as int));
    }
    assert(src@.subrange(0, n as int) =~= src@);
    v
}

fn skip_ws(s: &Vec<char>, i: usize) -> (p: usize)
    requires
        i <= s@.len(),
    ensures
        p == i + ws_len(s@, i as int),
        p <= s@.len(),
{
    let mut p = i;
    while p < s.len() && (s[p] == ' ' || s[p] == '\n' || s[p] == '\t' || s[p] == '\r')
        invariant
            i <= p <= s@.len(),
            ws_len(s@, i as int) == ws_len(s@, p as int) + (p - i),
        decreases s@.len() - p,
    {
        p = p + 1;
    }
    p
}

fn find_char(s: &Vec<char>, a: usize, e: usize, c: char) -> (r: Option<usize>)
    requires
        a <= e <= s@.len(),
    ensures
        match r {
            Some(x) => a <= x < e && find_from(s@, a as int, e as int, c) == Some((x - a) as nat),
            None => find_from(s@, a as int, e as int, c) is None,
        },
{
    let mut k = a;
    while k < e
        invariant
            a <= k <= e <= s@.len(),
            find_from(s@, a as int, e as int, c) == (match find_from(s@, k as int, e as int, c) {
                Some(d) => Some((d + (k - a)) as nat),
                None => None,
            }),
        decreases e - k,
    {
        if s[k] == c {
            return Some(k);
        }
        k = k + 1;
    }
    None
}

fn scan(s: &Vec<char>, i: usize) -> (r: Result<usize, ParseError>)
    requires
        i <= s@.len(),
    ensures
        match r {
            Ok(j) => i <= j <= s@.len() && scan_len(s@, i as int) == Ok::<nat, ParseError>((j - i) as nat),
            Err(x) => scan_len(s@, i as int) == Err::<nat, ParseError>(x),
        },
{
    let mut k = i;
    while k < s.len() && !(s[k] == '{' || s[k] == ';' || s[k] == '}')
        invariant
            i <= k <= s@.len(),
            scan_len(s@, i as int) == add_off(scan_len(s@, k as int), k - i),
        decreases s@.len() - k,
    {
        if s[k] == '"' || s[k] == '\'' {
            match find_char(s, k + 1, s.len(), s[k]) {
                Some(q) => {
                    k = q + 1;
                },
                None => {
                    return Err(ParseError { kind: ParseErrorKind::UnterminatedString, position: k });
                },
            }
        } else if s[k] == '$' && k + 1 < s.len() && s[k + 1] == '{' {
            match find_char(s, k + 2, s.len(), '}') {
                Some(q) => {
                    k = q + 1;
                },
                None => {
                    return Err(ParseError { kind: ParseErrorKind::UnterminatedInterpolation, position: k });
                },
            }
        } else {
            k = k + 1;
        }
    }
    Ok(k)
}

fn trim_back(s: &Vec<char>, a: usize, b: usize) -> (r: usize)
    requires
        a <= b <= s@.len(),
    ensures
        r == trim_end(s@, a as int, b as int),
        a <= r <= b,
{
    let mut k = b;
    while k > a && (s[k - 1] == ' ' || s[k - 1] == '\n' || s[k - 1] == '\t' || s[k - 1] == '\r')
        invariant
            a <= k <= b <= s@.len(),
            trim_end(s@, a as int, b as int) == trim_end(s@, a as int, k as int),
        decreases k,
    {
        k = k - 1;
    }
    k
}

fn lookup_binding(bindings: &Vec<(String, String)>, name: &String) -> (r: Option<String>)
    ensures
        match r {
            Some(v) => lookup(bindings_view(bindings@), name@) == Some(v@),
            None => lookup(bindings_view(bindings@), name@) is None,
        },
{
    let ghost bv = bindings_view(bindings@);
    assert(bv.subrange(0, bv.len() as int) =~= bv);
    let mut k: usize = 0;
    while k < bindings.len()
        invariant
            k <= bindings@.len(),
            bv == bindings_view(bindings@),
            bv.len() == bindings@.len(),
            lookup(bv, name@) == lookup(bv.subrange(k as int, bv.len() as int), name@),
        decreases bindings@.len() - k,
    {
        assert(bv.subrange(k as int, bv.len() as int).drop_first() =~= bv.subrange(k + 1, bv.len() as int));
        assert(bv.subrange(k as int, bv.len() as int)[0] == bv[k as int]);
        if bindings[k].0 == *name {
            return Some(bindings[k].1.clone());
        }
        k = k + 1;
    }
    None
}

fn interpolate_exec(src: &str, s: &Vec<char>, a: usize, e: usize, bindings: &Vec<(String, String)>) -> (r: Result<String, ParseError>)
    requires
        s@ == src@,
        a <= e <= s@.len(),
    ensures
        match r {
            Ok(v) => interpolate(s@, a as int, e as int, bindings_view(bindings@)) == Ok::<Seq<char>, ParseError>(v@),
            Err(x) => interpolate(s@, a as int, e as int, bindings_view(bindings@)) == Err::<Seq<char>, ParseError>(x),
        },
{
    let ghost bv = bindings_view(bindings@);
    let mut out = String::new();
    let mut k = a;
    while k < e
        invariant
            s@ == src@,
            a <= k <= e <= s@.len(),
            bv == bindings_view(bindings@),
            interpolate(s@, a as int, e as int, bv) == prepend(out@, interpolate(s@, k as int, e as int, bv)),
        decreases e - k,
    {
        if s[k] == '$' && k + 1 < e && s[k + 1] == '{' {
            match find_char(s, k + 2, e, '}') {
                Some(q) => {
                    let name = src.substring_char(k + 2, q).to_owned();
                    assert(name@ =~= s@.subrange(k + 2, k + 2 + (q - (k + 2))));
                    match lookup_binding(bindings, &name) {
                        Some(v) => {
                            let ghost old_out = out@;
                            out.append(v.as_str());
                            assert(forall|r: Seq<char>| old_out + (v@ + r) == out@ + r) by {
                                assert forall|r: Seq<char>| old_out + (v@ + r) == out@ + r by {
                                    assert(old_out + (v@ + r) =~= out@ + r);
                                }
                            }
                            k = q + 1;
                        },
                        None => {
                            return Err(ParseError { kind: ParseErrorKind::UnknownInterpolation, position: k });
                        },
                    }
                },
                None => {
                    return Err(ParseError { kind: ParseErrorKind::UnterminatedInterpolation, position: k });
                },
            }
        } else {
            let piece = src.substring_char(k, k + 1);
            let ghost old_out = out@;
            out.append(piece);
            assert(piece@ =~= seq![s@[k as int]]);
            assert(forall|r: Seq<char>| old_out + (seq![s@[k as int]] + r) == out@ + r) by {
                assert forall|r: Seq<char>| old_out + (seq![s@[k as int]] + r) == out@ + r by {
                    assert(old_out + (seq![s@[k as int]] + r) =~= out@ + r);
                }
            }
            k = k + 1;
        }
    }
    assert(out@ + Seq::<char>::empty() =~= out@);
    Ok(out)
}

fn declaration_exec(src: &str, s: &Vec<char>, p: usize, j: usize, bindings: &Vec<(String, String)>) -> (r: Result<Option<ScopeContent>, ParseError>)
    requires
        s@ == src@,
        p <= j <= s@.len(),
    ensures
        match r {
            Ok(Some(c)) => declaration(s@, p as int, j as int, bindings_view(bindings@)) == Ok::<Option<Content>, ParseError>(Some(c@)),
            Ok(None) => declaration(s@, p as int, j as int, bindings_view(bindings@)) == Ok::<Option<Content>, ParseError>(None),
            Err(x) => declaration(s@, p as int, j as int, bindings_view(bindings@)) == Err::<Option<Content>, ParseError>(x),
        },
{
    let e = trim_back(s, p, j);
    if e <= p {
        return Ok(None);
    }
    match find_char(s, p, e, ':') {
        None => Err(ParseError { kind: ParseErrorKind::MissingColon, position: p }),
        Some(c) => {
            let pe = trim_back(s, p, c);
            let vs = skip_ws(s, c + 1);
            let vs = if vs <= e { vs } else { e };
            let ghost bv = bindings_view(bindings@);
            proof {
                if c + 1 + ws_len(s@, c + 1) > e {
                    assert(interpolate(s@, c + 1 + ws_len(s@, c + 1), e as int, bv) == interpolate(s@, e as int, e as int, bv));
                }
            }
            match interpolate_exec(src, s, vs, e, bindings) {
                Ok(v) => {
                    let property = src.substring_char(p, pe).to_owned();
                    Ok(Some(ScopeContent::Declaration { property, value: v }))
                },
                Err(x) => Err(x),
            }
        },
    }
}

fn items_exec(src: &str, s: &Vec<char>, i0: usize, bindings: &Vec<(String, String)>) -> (r: Result<(Vec<ScopeContent>, usize), ParseError>)
    requires
        s@ == src@,
        i0 <= s@.len(),
    ensures
        match r {
            Ok((cs, u)) => i0 + u <= s@.len() && items(s@, i0 as int, bindings_view(bindings@)) == Ok::<(Seq<Content>, nat), ParseError>((contents_view(cs@), u as nat)),
            Err(x) => items(s@, i0 as int, bindings_view(bindings@)) == Err::<(Seq<Content>, nat), ParseError>(x),
        },
    decreases s@.len() - i0,
{
    let ghost bv = bindings_view(bindings@);
    let mut acc: Vec<ScopeContent> = Vec::new();
    let mut i = i0;
    assert(contents_view(acc@) =~= Seq::<Content>::empty());
    assert forall|r: Result<(Seq<Content>, nat), ParseError>| shift(Seq::empty(), 0, r) == r by {
        match r {
            Ok((cs, u)) => { assert(Seq::<Content>::empty() + cs =~= cs); },
            Err(_) => {},
        }
    }
    loop
        invariant
            s@ == src@,
            i0 <= i <= s@.len(),
            bv == bindings_view(bindings@),
            items(s@, i0 as int, bv) == shift(contents_view(acc@), i - i0, items(s@, i as int, bv)),
        decreases s@.len() - i,
    {
        let p = skip_ws(s, i);
        if p >= s.len() || s[p] == '}' {
            return Ok((acc, p - i0));
        }
        let j = match scan(s, p) {
            Ok(j) => j,
            Err(x) => {
                return Err(x);
            },
        };
        if j < s.len() && s[j] == '{' {
            let (inner, c) = match items_exec(src, s, j + 1, bindings) {
                Ok(res) => res,
                Err(x) => {
                    return Err(x);
                },
            };
            let k = j + 1 + c;
            if k < s.len() && s[k] == '}' {
                let se = trim_back(s, p, j);
                let selector = src.substring_char(p, se).to_owned();
                let ghost before = contents_view(acc@);
                let item = ScopeContent::Nested(Scope { selector, contents: inner });
                proof { lemma_contents_view_push(acc@, item); }
                acc.push(item);
                proof {
                    let x = content_view(item);
                    assert forall|r: Result<(Seq<Content>, nat), ParseError>| shift(before, i - i0, match r {
                        Ok((rest, u)) => Ok((seq![x] + rest, (k + 1 + u - i) as nat)),
                        Err(e) => Err(e),
                    }) == shift(before.push(x), k + 1 - i0, r) by {
                        match r {
                            Ok((rest, u)) => { assert(before + (seq![x] + rest) =~= before.push(x) + rest); },
                            Err(_) => {},
                        }
                    }
                }
                i = k + 1;
            } else {
                return Err(ParseError { kind: ParseErrorKind::UnbalancedBraces, position: j });
            }
        } else {
            let d = match declaration_exec(src, s, p, j, bindings) {
                Ok(d) => d,
                Err(x) => {
                    return Err(x);
                },
            };
            let ghost before = contents_view(acc@);
            let ghost xs: Seq<Content> = opt_seq(opt_view(d));
            match d {
                Some(c) => {
                    proof { lemma_contents_view_push(acc@, c); }
                    acc.push(c);
                },
                None => {},
            }
            assert(contents_view(acc@) =~= before + xs);
            if j < s.len() && s[j] == ';' {
                proof {
                    assert forall|r: Result<(Seq<Content>, nat), ParseError>| shift(before, i - i0, match r {
                        Ok((rest, u)) => Ok((xs + rest, (j + 1 + u - i) as nat)),
                        Err(e) => Err(e),
                    }) == shift(before + xs, j + 1 - i0, r) by {
                        match r {
                            Ok((rest, u)) => { assert(before + (xs + rest) =~= (before + xs) + rest); },
                            Err(_) => {},
                        }
                    }
                }
                i = j + 1;
            } else {
                return Ok((acc, j - i0));
            }
        }
    }
}

fn flush_run(acc: &mut Vec<Scope>, run: Vec<ScopeContent>)
    ensures
        scopes_view(final(acc)@) == scopes_view(old(acc)@) + flush(contents_view(run@)),
{
    proof { lemma_contents_view(run@); }
    if run.len() > 0 {
        let root = Scope { selector: String::new(), contents: run };
        proof { lemma_scopes_view_push(acc@, root); }
        acc.push(root);
    } else {
        assert(scopes_view(acc@) + flush(contents_view(run@)) =~= scopes_view(acc@));
    }
}

fn group(cs: Vec<ScopeContent>) -> (r: Vec<Scope>)
    ensures
        scopes_view(r@) == group_top(contents_view(cs@), Seq::empty()),
{
    let ghost target = group_top(contents_view(cs@), Seq::empty());
    let mut rest = cs;
    let mut acc: Vec<Scope> = Vec::new();
    let mut run: Vec<ScopeContent> = Vec::new();
    assert(scopes_view(acc@) =~= Seq::<Rule>::empty());
    assert(contents_view(run@) =~= Seq::<Content>::empty());
    assert(target =~= scopes_view(acc@) + group_top(contents_view(rest@), contents_view(run@)));
    while rest.len() > 0
        invariant
            target == scopes_view(acc@) + group_top(contents_view(rest@), contents_view(run@)),
        decreases rest@.len(),
    {
        let ghost old_rest = rest@;
        let item = rest.remove(0);
        proof {
            lemma_contents_view(old_rest);
            lemma_contents_view(rest@);
            assert(contents_view(rest@) =~= contents_view(old_rest).drop_first());
            assert(contents_view(old_rest)[0] == content_view(item));
        }
        match item {
            ScopeContent::Declaration { .. } => {
                proof { lemma_contents_view_push(run@, item); }
                run.push(item);
            },
            ScopeContent::Nested(scope) => {
                let ghost before = scopes_view(acc@);
                let ghost pending = contents_view(run@);
                let done = run;
                run = Vec::new();
                flush_run(&mut acc, done);
                proof { lemma_scopes_view_push(acc@, scope); }
                acc.push(scope);
                assert(contents_view(run@) =~= Seq::<Content>::empty());
                assert(before + (flush(pending) + seq![scope_view(scope)] + group_top(contents_view(rest@), Seq::empty()))
                    =~= scopes_view(acc@) + group_top(contents_view(rest@), contents_view(run@)));
            },
        }
    }
    let ghost before = scopes_view(acc@);
    let ghost pending = contents_view(run@);
    flush_run(&mut acc, run);
    assert(before + flush(pending) =~= scopes_view(acc@));
    acc
}

/// Parses style source text, replacing each `${name}` in a value by the
/// first binding of `name`.
pub fn parse(src: &str, bindings: &Vec<(String, String)>) -> (r: Result<Scopes, ParseError>)
    ensures
        match r {
            Ok(ast) => parse_outcome(src@, bindings_view(bindings@)) == Ok::<Seq<Rule>, ParseError>(ast@),
            Err(x) => parse_outcome(src@, bindings_view(bindings@)) == Err::<Seq<Rule>, ParseError>(x),
        },
{
    let s = to_chars(src);
    match items_exec(src, &s, 0, bindings) {
        Err(x) => Err(x),
        Ok((cs, u)) => {
            if u < s.len() {
                Err(ParseError { kind: ParseErrorKind::UnbalancedBraces, position: u })
            } else {
                Ok(Scopes { scopes: group(cs) })
            }
        },
    }
}

/// Determinism: the same text with the same bindings always parses to
/// structurally equal trees, or to the same error.
pub proof fn lemma_parse_deterministic(
    s1: Seq<char>,
    s2: Seq<char>,
    b1: Seq<(Seq<char>, Seq<char>)>,
    b2: Seq<(Seq<char>, Seq<char>)>,
)
    requires
        s1 == s2,
        b1 == b2,
    ensures
        parse_outcome(s1, b1) == parse_outcome(s2, b2),
{
}

} // verus!
