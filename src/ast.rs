//! The style tree: scopes holding declarations and nested scopes.

use vstd::prelude::*;

verus! {

/// One entry of a scope: a `property: value` pair or a nested rule.
pub enum ScopeContent {
    Declaration { property: String, value: String },
    Nested(Scope),
}

/// A style rule: a selector fragment (empty for the root) and its contents.
pub struct Scope {
    pub selector: String,
    pub contents: Vec<ScopeContent>,
}

/// A whole style definition: an ordered sequence of scopes.
pub struct Scopes {
    pub scopes: Vec<Scope>,
}

/// Mathematical model of an entry.
pub enum Content {
    Decl { property: Seq<char>, value: Seq<char> },
    Rule(Rule),
}

/// Mathematical model of a scope.
pub struct Rule {
    pub selector: Seq<char>,
    pub contents: Seq<Content>,
}

pub open spec fn content_view(c: ScopeContent) -> Content
    decreases c,
{
    match c {
        ScopeContent::Declaration { property, value } => Content::Decl {
            property: property@,
            value: value@,
        },
        ScopeContent::Nested(s) => Content::Rule(scope_view(s)),
    }
}

pub open spec fn contents_view(cs: Seq<ScopeContent>) -> Seq<Content>
    decreases cs,
{
    if cs.len() == 0 {
        Seq::empty()
    } else {
        contents_view(cs.subrange(0, cs.len() - 1)).push(content_view(cs[cs.len() - 1]))
    }
}

pub open spec fn scope_view(s: Scope) -> Rule
    decreases s,
{
    Rule { selector: s.selector@, contents: contents_view(s.contents@) }
}

pub open spec fn scopes_view(ss: Seq<Scope>) -> Seq<Rule>
    decreases ss,
{
    if ss.len() == 0 {
        Seq::empty()
    } else {
        scopes_view(ss.subrange(0, ss.len() - 1)).push(scope_view(ss[ss.len() - 1]))
    }
}

impl View for Scope {
    type V = Rule;

    open spec fn view(&self) -> Rule {
        scope_view(*self)
    }
}

impl View for ScopeContent {
    type V = Content;

    open spec fn view(&self) -> Content {
        content_view(*self)
    }
}

impl View for Scopes {
    type V = Seq<Rule>;

    open spec fn view(&self) -> Seq<Rule> {
        scopes_view(self.scopes@)
    }
}

pub proof fn lemma_contents_view(cs: Seq<ScopeContent>)
    ensures
        contents_view(cs).len() == cs.len(),
        forall|i: int| 0 <= i < cs.len() ==> #[trigger] contents_view(cs)[i] == content_view(cs[i]),
    decreases cs.len(),
{
    if cs.len() > 0 {
        lemma_contents_view(cs.subrange(0, cs.len() - 1));
    }
}

pub proof fn lemma_scopes_view(ss: Seq<Scope>)
    ensures
        scopes_view(ss).len() == ss.len(),
        forall|i: int| 0 <= i < ss.len() ==> #[trigger] scopes_view(ss)[i] == scope_view(ss[i]),
    decreases ss.len(),
{
    if ss.len() > 0 {
        lemma_scopes_view(ss.subrange(0, ss.len() - 1));
    }
}

pub proof fn lemma_contents_view_push(cs: Seq<ScopeContent>, c: ScopeContent)
    ensures
        contents_view(cs.push(c)) == contents_view(cs).push(content_view(c)),
{
    assert(cs.push(c).subrange(0, cs.len() as int) == cs);
}

pub proof fn lemma_scopes_view_push(ss: Seq<Scope>, s: Scope)
    ensures
        scopes_view(ss.push(s)) == scopes_view(ss).push(scope_view(s)),
{
    assert(ss.push(s).subrange(0, ss.len() as int) == ss);
}

fn content_eq(a: &ScopeContent, b: &ScopeContent) -> (r: bool)
    ensures
        r == (a@ == b@),
    decreases a,
{
    match (a, b) {
        (
            ScopeContent::Declaration { property: pa, value: va },
            ScopeContent::Declaration { property: pb, value: vb },
        ) => *pa == *pb && *va == *vb,
        (ScopeContent::Nested(s1), ScopeContent::Nested(s2)) => scope_eq(s1, s2),
        _ => false,
    }
}

fn scope_eq(a: &Scope, b: &Scope) -> (r: bool)
    ensures
        r == (a@ == b@),
    decreases a,
{
    proof {
        lemma_contents_view(a.contents@);
        lemma_contents_view(b.contents@);
    }
    if a.selector != b.selector {
        return false;
    }
    if a.contents.len() != b.contents.len() {
        return false;
    }
    let n = a.contents.len();
    let mut i: usize = 0;
    while i < n
        invariant
            n == a.contents@.len() == b.contents@.len(),
            0 <= i <= n,
            contents_view(a.contents@).len() == n,
            contents_view(b.contents@).len() == n,
            forall|j: int| 0 <= j < n ==> #[trigger] contents_view(a.contents@)[j] == content_view(a.contents@[j]),
            forall|j: int| 0 <= j < n ==> #[trigger] contents_view(b.contents@)[j] == content_view(b.contents@[j]),
            forall|j: int| 0 <= j < i ==> contents_view(a.contents@)[j] == contents_view(b.contents@)[j],
        decreases n - i,
    {
        if !content_eq(&a.contents[i], &b.contents[i]) {
            assert(contents_view(a.contents@)[i as int] != contents_view(b.contents@)[i as int]);
            return false;
        }
        i = i + 1;
    }
    assert(contents_view(a.contents@) =~= contents_view(b.contents@));
    true
}

/// Structural equality of two style definitions: the trees are compared by
/// content, never by where they live.
pub fn scopes_eq(a: &Scopes, b: &Scopes) -> (r: bool)
    ensures
        r == (a@ == b@),
{
    proof {
        lemma_scopes_view(a.scopes@);
        lemma_scopes_view(b.scopes@);
    }
    if a.scopes.len() != b.scopes.len() {
        return false;
    }
    let n = a.scopes.len();
    let mut i: usize = 0;
    while i < n
        invariant
            n == a.scopes@.len() == b.scopes@.len(),
            0 <= i <= n,
            scopes_view(a.scopes@).len() == n,
            scopes_view(b.scopes@).len() == n,
            forall|j: int| 0 <= j < n ==> #[trigger] scopes_view(a.scopes@)[j] == scope_view(a.scopes@[j]),
            forall|j: int| 0 <= j < n ==> #[trigger] scopes_view(b.scopes@)[j] == scope_view(b.scopes@[j]),
            forall|j: int| 0 <= j < i ==> scopes_view(a.scopes@)[j] == scopes_view(b.scopes@)[j],
        decreases n - i,
    {
        if !scope_eq(&a.scopes[i], &b.scopes[i]) {
            assert(scopes_view(a.scopes@)[i as int] != scopes_view(b.scopes@)[i as int]);
            return false;
        }
        i = i + 1;
    }
    assert(scopes_view(a.scopes@) =~= scopes_view(b.scopes@));
    true
}

/// Two definitions are equal when their trees are structurally equal.
impl PartialEq for Scopes {
    fn eq(&self, other: &Scopes) -> (r: bool) {
        scopes_eq(self, other)
    }
}

impl vstd::std_specs::cmp::PartialEqSpecImpl for Scopes {
    open spec fn obeys_eq_spec() -> bool {
        true
    }

    open spec fn eq_spec(&self, other: &Scopes) -> bool {
        self@ == other@
    }
}

} // verus!
