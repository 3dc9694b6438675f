//! Rendering a style tree under a class name into style sheet text.

use crate::ast::{content_view, contents_view, lemma_contents_view, lemma_scopes_view, scope_view, scopes_view, Content, Rule, Scope, ScopeContent, Scopes};
use vstd::prelude::*;

verus! {

/// The selector of a nested fragment under an already resolved parent
/// selector: `&` stands for the parent, a leading `:` attaches to it, and
/// anything else names a descendant.
pub open spec fn combine(parent: Seq<char>, frag: Seq<char>) -> Seq<char> {
    if frag.len() == 0 {
        parent
    } else if frag.contains('&') {
        replace_self(parent, frag)
    } else if frag[0] == ':' {
        parent + frag
    } else {
        parent + seq![' '] + frag
    }
}

/// `frag` with every `&` replaced by `parent`.
pub open spec fn replace_self(parent: Seq<char>, frag: Seq<char>) -> Seq<char>
    decreases frag.len(),
{
    if frag.len() == 0 {
        Seq::empty()
    } else {
        let init = replace_self(parent, frag.drop_last());
        if frag.last() == '&' {
            init + parent
        } else {
            init.push(frag.last())
        }
    }
}

/// The declarations of a scope, each as ` property: value;`.
pub open spec fn decls_text(cs: Seq<Content>) -> Seq<char>
    decreases cs.len(),
{
    if cs.len() == 0 {
        Seq::empty()
    } else {
        let init = decls_text(cs.drop_last());
        match cs.last() {
            Content::Decl { property, value } => init + seq![' '] + property + seq![':', ' '] + value
                + seq![';'],
            Content::Rule(_) => init,
        }
    }
}

pub open spec fn has_decls(cs: Seq<Content>) -> bool {
    exists|i: int| 0 <= i < cs.len() && cs[i] is Decl
}

/// The rules that one scope produces under the parent selector: its own
/// declarations first (when it has any), then those of its nested scopes, in order.
pub open spec fn rules_of(r: Rule, parent: Seq<char>) -> Seq<Seq<char>>
    decreases r, 1int,
{
    let sel = combine(parent, r.selector);
    let own = if has_decls(r.contents) {
        seq![sel + seq![' ', '{'] + decls_text(r.contents) + seq![' ', '}']]
    } else {
        Seq::empty()
    };
    own + nested_rules(r.contents, sel)
}

pub open spec fn nested_rules(cs: Seq<Content>, sel: Seq<char>) -> Seq<Seq<char>>
    decreases cs, 0int,
{
    if cs.len() == 0 {
        Seq::empty()
    } else {
        let last = cs[cs.len() - 1];
        let init = nested_rules(cs.subrange(0, cs.len() - 1), sel);
        match last {
            Content::Rule(r) => init + rules_of(r, sel),
            Content::Decl { .. } => init,
        }
    }
}

pub open spec fn all_rules(rs: Seq<Rule>, root: Seq<char>) -> Seq<Seq<char>>
    decreases rs.len(),
{
    if rs.len() == 0 {
        Seq::empty()
    } else {
        all_rules(rs.drop_last(), root) + rules_of(rs.last(), root)
    }
}

/// Rules separated by line breaks.
pub open spec fn join_lines(rules: Seq<Seq<char>>) -> Seq<char>
    decreases rules.len(),
{
    if rules.len() == 0 {
        Seq::empty()
    } else if rules.len() == 1 {
        rules[0]
    } else {
        join_lines(rules.drop_last()) + seq!['\n'] + rules.last()
    }
}

/// The style sheet text of a definition under `class_name`: every top-level
/// scope is resolved against the selector `.class_name`.
pub open spec fn css_of(ast: Seq<Rule>, class_name: Seq<char>) -> Seq<char> {
    join_lines(all_rules(ast, seq!['.'] + class_name))
}

pub open spec fn strings_view(v: Seq<String>) -> Seq<Seq<char>> {
    v.map_values(|s: String| s@)
}

fn combine_selector(parent: &String, frag: &String) -> (r: String)
    ensures
        r@ == combine(parent@, frag@),
{
    let n = frag.as_str().unicode_len();
    if n == 0 {
        return parent.clone();
    }
    let mut has_amp = false;
    let mut i: usize = 0;
    while i < n
        invariant
            n == frag@.len(),
            i <= n,
            has_amp == (exists|k: int| 0 <= k < i && #[trigger] frag@[k] == '&'),
        decreases n - i,
    {
        if frag.as_str().get_char(i) == '&' {
            has_amp = true;
        }
        i = i + 1;
    }
    assert(has_amp == frag@.contains('&'));
    if has_amp {
        let mut out = String::new();
        let mut j: usize = 0;
        while j < n
            invariant
                n == frag@.len(),
                j <= n,
                out@ == replace_self(parent@, frag@.subrange(0, j as int)),
            decreases n - j,
        {
            assert(frag@.subrange(0, j + 1).drop_last() =~= frag@.subrange(0, j as int));
            if frag.as_str().get_char(j) == '&' {
                out.append(parent.as_str());
            } else {
                let piece = frag.as_str().substring_char(j, j + 1);
                assert(piece@ =~= seq![frag@[j as int]]);
                out.append(piece);
            }
            j = j + 1;
        }
        assert(frag@.subrange(0, n as int) =~= frag@);
        out
    } else {
        proof { reveal_strlit(":"); }
        if frag.as_str().get_char(0) == ':' {
            let mut out = parent.clone();
            out.append(frag.as_str());
            out
        } else {
            let mut out = parent.clone();
            proof { reveal_strlit(" "); }
            out.append(" ");
            out.append(frag.as_str());
            out
        }
    }
}

fn push_decls(cs: &Vec<ScopeContent>, out: &mut String) -> (found: bool)
    ensures
        final(out)@ == old(out)@ + decls_text(contents_view(cs@)),
        found == has_decls(contents_view(cs@)),
{
    proof { lemma_contents_view(cs@); }
    let mut found = false;
    let mut i: usize = 0;
    while i < cs.len()
        invariant
            i <= cs@.len(),
            contents_view(cs@).len() == cs@.len(),
            forall|j: int| 0 <= j < cs@.len() ==> #[trigger] contents_view(cs@)[j] == content_view(cs@[j]),
            out@ == old(out)@ + decls_text(contents_view(cs@).subrange(0, i as int)),
            found == (exists|k: int| 0 <= k < i && (#[trigger] contents_view(cs@)[k]) is Decl),
        decreases cs@.len() - i,
    {
        let ghost v = contents_view(cs@);
        assert(v.subrange(0, i + 1).drop_last() =~= v.subrange(0, i as int));
        match &cs[i] {
            ScopeContent::Declaration { property, value } => {
                proof { reveal_strlit(" "); reveal_strlit(": "); reveal_strlit(";"); }
                out.append(" ");
                out.append(property.as_str());
                out.append(": ");
                out.append(value.as_str());
                out.append(";");
                found = true;
            },
            ScopeContent::Nested(_) => {},
        }
        i = i + 1;
    }
    assert(contents_view(cs@).subrange(0, cs@.len() as int) =~= contents_view(cs@));
    found
}

fn push_rules(s: &Scope, parent: &String, out: &mut Vec<String>)
    ensures
        strings_view(final(out)@) == strings_view(old(out)@) + rules_of(s@, parent@),
    decreases s,
{
    let sel = combine_selector(parent, &s.selector);
    let mut own = sel.clone();
    proof { reveal_strlit(" {"); reveal_strlit(" }"); }
    own.append(" {");
    let found = push_decls(&s.contents, &mut own);
    own.append(" }");
    let ghost before = out@;
    assert(s@.contents == contents_view(s.contents@));
    assert(s@.selector == s.selector@);
    assert(own@ == sel@ + seq![' ', '{'] + decls_text(s@.contents) + seq![' ', '}']);
    if found {
        out.push(own);
        assert(strings_view(out@) =~= strings_view(before).push(own@));
    }
    proof {
        assert(strings_view(out@) =~= strings_view(before) + (if has_decls(s@.contents) {
            seq![sel@ + seq![' ', '{'] + decls_text(s@.contents) + seq![' ', '}']]
        } else {
            Seq::<Seq<char>>::empty()
        }));
        lemma_contents_view(s.contents@);
    }
    let ghost mid = out@;
    let mut i: usize = 0;
    while i < s.contents.len()
        invariant
            i <= s.contents@.len(),
            contents_view(s.contents@).len() == s.contents@.len(),
            forall|j: int| 0 <= j < s.contents@.len() ==> #[trigger] contents_view(s.contents@)[j] == content_view(s.contents@[j]),
            strings_view(out@) == strings_view(mid) + nested_rules(contents_view(s.contents@).subrange(0, i as int), sel@),
        decreases s.contents@.len() - i,
    {
        let ghost v = contents_view(s.contents@);
        assert(v.subrange(0, i + 1).subrange(0, i as int) =~= v.subrange(0, i as int));
        match &s.contents[i] {
            ScopeContent::Nested(inner) => {
                assert(decreases_to!(s => s.contents));
                push_rules(inner, &sel, out);
                assert(strings_view(out@) =~= strings_view(mid) + nested_rules(v.subrange(0, i + 1), sel@));
            },
            ScopeContent::Declaration { .. } => {},
        }
        i = i + 1;
    }
    assert(contents_view(s.contents@).subrange(0, s.contents@.len() as int) =~= contents_view(s.contents@));
    assert(strings_view(out@) =~= strings_view(before) + rules_of(s@, parent@));
}

/// Renders `ast` under `class_name`. Pure: the tree is only read.
pub fn to_css(ast: &Scopes, class_name: &String) -> (r: String)
    ensures
        r@ == css_of(ast@, class_name@),
{
    let mut root = String::new();
    proof { reveal_strlit("."); }
    root.append(".");
    root.append(class_name.as_str());
    let mut rules: Vec<String> = Vec::new();
    proof { lemma_scopes_view(ast.scopes@); }
    let mut i: usize = 0;
    while i < ast.scopes.len()
        invariant
            i <= ast.scopes@.len(),
            root@ == seq!['.'] + class_name@,
            scopes_view(ast.scopes@).len() == ast.scopes@.len(),
            forall|j: int| 0 <= j < ast.scopes@.len() ==> #[trigger] scopes_view(ast.scopes@)[j] == scope_view(ast.scopes@[j]),
            strings_view(rules@) == all_rules(scopes_view(ast.scopes@).subrange(0, i as int), root@),
        decreases ast.scopes@.len() - i,
    {
        let ghost v = scopes_view(ast.scopes@);
        assert(v.subrange(0, i + 1).drop_last() =~= v.subrange(0, i as int));
        push_rules(&ast.scopes[i], &root, &mut rules);
        i = i + 1;
    }
    assert(scopes_view(ast.scopes@).subrange(0, ast.scopes@.len() as int) =~= scopes_view(ast.scopes@));
    let mut out = String::new();
    let mut k: usize = 0;
    while k < rules.len()
        invariant
            k <= rules@.len(),
            out@ == join_lines(strings_view(rules@).subrange(0, k as int)),
        decreases rules@.len() - k,
    {
        let ghost sv = strings_view(rules@);
        assert(sv.subrange(0, k + 1).drop_last() =~= sv.subrange(0, k as int));
        if k > 0 {
            proof { reveal_strlit("\n"); }
            out.append("\n");
        } else {
            assert(out@ == Seq::<char>::empty());
        }
        out.append(rules[k].as_str());
        k = k + 1;
    }
    assert(strings_view(rules@).subrange(0, rules@.len() as int) =~= strings_view(rules@));
    out
}

} // verus!
