//! Compiled styles: shared handles to an artifact (class name, tree, and its
//! text rendered at most once), and the registry that deduplicates them.

use crate::ast::{scopes_eq, Rule, Scopes};
use crate::parser::{bindings_view, parse, parse_outcome, ParseError};
use crate::registry::{
    acquire_step, class_at, class_name_of, class_used, compile_step, key_at, lemma_compile_step_wf, lemma_equal_trees_share_artifact, registry_wf, release_step, unregister_step,
    EntryView, RegistryError, StyleView,
};
use crate::render::{css_of, to_css};
use once_cell::sync::OnceCell;
use std::sync::Arc;
use vstd::prelude::*;

verus! {

#[verifier::external_type_specification]
#[verifier::external_body]
#[verifier::reject_recursive_types(T)]
pub struct ExOnceCell<T>(OnceCell<T>);

/// Relies on `once_cell::sync::OnceCell::new`: a new, empty cell.
#[verifier::external_body]
fn empty_cell() -> OnceCell<String> {
    OnceCell::new()
}

/// Relies on `once_cell::sync::OnceCell::get_or_init`: it returns the value
/// the cell holds, or runs the initialiser once, stores and returns its value.
/// An artifact's cell is private to it and filled here alone, always by
/// rendering the artifact's own tree under its own class name, so whichever
/// call fills it, the value is that rendering.
#[verifier::external_body]
fn cached_css(content: &StyleContent) -> (r: &String)
    ensures
        r@ == css_of(content.ast@, content.class_name@),
{
    content.style_str.get_or_init(|| to_css(&content.ast, &content.class_name))
}

/// Relies on `Arc::clone`: the new pointer points to the same value.
#[verifier::external_body]
fn share(a: &Arc<StyleContent>) -> (r: Arc<StyleContent>)
    ensures
        r == *a,
{
    Arc::clone(a)
}

/// A compiled artifact. Its text cell only ever holds the rendering of its
/// own tree under its own class name.
struct StyleContent {
    class_name: String,
    ast: Scopes,
    style_str: OnceCell<String>,
}

/// A handle to a compiled style. Handles come from a [`StyleRegistry`] and go
/// back to it with [`StyleRegistry::release`].
pub struct Style {
    inner: Arc<StyleContent>,
}

impl View for Style {
    type V = StyleView;

    closed spec fn view(&self) -> StyleView {
        StyleView { class_name: self.inner.class_name@, ast: self.inner.ast@ }
    }
}

#[derive(Clone, Copy, Debug, PartialEq, Eq, Structural)]
pub enum StyleError {
    Parse(ParseError),
    Registry(RegistryError),
}

pub open spec fn outcome_view(r: Result<(Style, bool), StyleError>) -> Result<(StyleView, bool), StyleError> {
    match r {
        Ok((s, fresh)) => Ok((s@, fresh)),
        Err(e) => Err(e),
    }
}

pub open spec fn registry_outcome(r: Result<(StyleView, bool), RegistryError>) -> Result<(StyleView, bool), StyleError> {
    match r {
        Ok(x) => Ok(x),
        Err(e) => Err(StyleError::Registry(e)),
    }
}

/// A request for a source text: parse it, then get or create its artifact.
/// A parse error leaves the registry as it was.
pub open spec fn create_step(
    es: Seq<EntryView>,
    css: Seq<char>,
    bs: Seq<(Seq<char>, Seq<char>)>,
    class_name: Seq<char>,
) -> (Seq<EntryView>, Result<(StyleView, bool), StyleError>) {
    match parse_outcome(css, bs) {
        Err(e) => (es, Err(StyleError::Parse(e))),
        Ok(ast) => {
            let (es1, o) = compile_step(es, ast, class_name);
            (es1, registry_outcome(o))
        },
    }
}

/// What the caller does after a request.
#[derive(Clone, Copy, Debug, PartialEq, Eq, Structural)]
pub enum CreateAction {
    /// A new artifact: mount it, then settle the mount.
    Mount,
    /// An existing artifact: nothing to mount.
    Done,
    /// The class name is taken: ask again with another suffix.
    Retry,
    /// The request failed.
    Fail,
}

/// The action that follows a request's outcome.
pub fn create_action(r: &Result<(Style, bool), StyleError>) -> (a: CreateAction)
    ensures
        a == match r {
            Ok((_, true)) => CreateAction::Mount,
            Ok((_, false)) => CreateAction::Done,
            Err(StyleError::Registry(RegistryError::ClassNameTaken)) => CreateAction::Retry,
            Err(_) => CreateAction::Fail,
        },
{
    match r {
        Ok((_, fresh)) => if *fresh { CreateAction::Mount } else { CreateAction::Done },
        Err(StyleError::Registry(RegistryError::ClassNameTaken)) => CreateAction::Retry,
        Err(_) => CreateAction::Fail,
    }
}

struct Entry {
    content: Arc<StyleContent>,
    handles: u64,
    attached: bool,
}

pub open spec fn default_prefix() -> Seq<char> {
    seq!['s', 't', 'y', 'l', 'i', 's', 't']
}

/// The registry of compiled styles, keyed by the structure of their trees.
pub struct StyleRegistry {
    entries: Vec<Entry>,
}

spec fn entry_view(e: Entry) -> EntryView {
    EntryView {
        key: e.content.ast@,
        class_name: e.content.class_name@,
        handles: e.handles as nat,
        attached: e.attached,
    }
}

impl View for StyleRegistry {
    type V = Seq<EntryView>;

    closed spec fn view(&self) -> Seq<EntryView> {
        self.entries@.map_values(|e: Entry| entry_view(e))
    }
}

impl StyleRegistry {
    pub open spec fn wf(&self) -> bool {
        registry_wf(self@)
    }

    /// An empty registry.
    pub fn new() -> (r: StyleRegistry)
        ensures
            r@ == Seq::<EntryView>::empty(),
            r.wf(),
    {
        let r = StyleRegistry { entries: Vec::new() };
        assert(r@ =~= Seq::<EntryView>::empty());
        r
    }

    /// Number of live artifacts.
    pub fn len(&self) -> (n: usize)
        ensures
            n == self@.len(),
    {
        self.entries.len()
    }

    fn find_key(&self, ast: &Scopes) -> (r: Option<usize>)
        ensures
            match r {
                Some(i) => key_at(self@, ast@, i as int),
                None => forall|i: int| !key_at(self@, ast@, i),
            },
    {
        let mut i: usize = 0;
        while i < self.entries.len()
            invariant
                i <= self.entries@.len(),
                self@.len() == self.entries@.len(),
                forall|j: int| 0 <= j < i ==> !key_at(self@, ast@, j),
            decreases self.entries@.len() - i,
        {
            assert(self@[i as int] == entry_view(self.entries@[i as int]));
            if self.entries[i].attached && scopes_eq(&self.entries[i].content.ast, ast) {
                return Some(i);
            }
            i = i + 1;
        }
        None
    }

    fn find_class(&self, class_name: &String) -> (r: Option<usize>)
        ensures
            match r {
                Some(i) => class_at(self@, class_name@, i as int),
                None => !class_used(self@, class_name@),
            },
    {
        let mut i: usize = 0;
        while i < self.entries.len()
            invariant
                i <= self.entries@.len(),
                self@.len() == self.entries@.len(),
                forall|j: int| 0 <= j < i ==> !class_at(self@, class_name@, j),
            decreases self.entries@.len() - i,
        {
            assert(self@[i as int] == entry_view(self.entries@[i as int]));
            if self.entries[i].content.class_name == *class_name {
                return Some(i);
            }
            i = i + 1;
        }
        None
    }

    /// Get-or-create: returns a handle to the artifact whose tree equals `ast`
    /// (one more handle, nothing to mount), or creates one named
    /// `class_prefix-suffix` with a first handle (`true`: mount it).
    pub fn get_or_create(&mut self, ast: Scopes, class_prefix: &str, suffix: &str) -> (r: Result<(Style, bool), RegistryError>)
        requires
            old(self).wf(),
        ensures
            final(self).wf(),
            (final(self)@, match r {
                Ok((s, fresh)) => Ok((s@, fresh)),
                Err(e) => Err(e),
            }) == compile_step(old(self)@, ast@, class_name_of(class_prefix@, suffix@)),
    {
        let ghost es = self@;
        match self.find_key(&ast) {
            Some(i) => {
                proof {
                    let k = choose|k: int| key_at(es, ast@, k);
                    if k != i {
                        assert(es[k].key != es[i as int].key);
                    }
                }
                let h = self.entries[i].handles;
                if h == u64::MAX {
                    return Err(RegistryError::TooManyHandles);
                }
                let content = share(&self.entries[i].content);
                let style = Style { inner: share(&content) };
                let attached = self.entries[i].attached;
                self.entries.set(i, Entry { content, handles: h + 1, attached });
                assert(self@ =~= es.update(i as int, EntryView { handles: es[i as int].handles + 1, ..es[i as int] }));
                proof { lemma_compile_step_wf(es, ast@, class_name_of(class_prefix@, suffix@)); }
                Ok((style, false))
            },
            None => {
                let mut class_name = String::new();
                class_name.append(class_prefix);
                proof { reveal_strlit("-"); }
                class_name.append("-");
                class_name.append(suffix);
                assert(class_name@ == class_name_of(class_prefix@, suffix@));
                if self.find_class(&class_name).is_some() {
                    return Err(RegistryError::ClassNameTaken);
                }
                let content = StyleContent { class_name, ast, style_str: empty_cell() };
                let inner = Arc::new(content);
                let entry = Entry { content: share(&inner), handles: 1, attached: true };
                self.entries.push(entry);
                assert(self@ =~= es.push(entry_view(entry)));
                proof { lemma_compile_step_wf(es, ast@, class_name_of(class_prefix@, suffix@)); }
                Ok((Style { inner }, true))
            },
        }
    }

    /// A second handle to the artifact of `style`: its handle count goes up by
    /// one. None when this registry does not hold the artifact, or its count
    /// is full.
    pub fn clone_handle(&mut self, style: &Style) -> (r: Option<Style>)
        requires
            old(self).wf(),
        ensures
            final(self).wf(),
            (final(self)@, r is Some) == acquire_step(old(self)@, style@.class_name),
            r is Some ==> r->0@ == style@,
    {
        let ghost es = self@;
        match self.find_class(&style.inner.class_name) {
            None => None,
            Some(i) => {
                proof {
                    let k = choose|k: int| class_at(es, style@.class_name, k);
                    if k != i {
                        assert(es[k].class_name != es[i as int].class_name);
                    }
                }
                let h = self.entries[i].handles;
                if h == u64::MAX {
                    return None;
                }
                let content = share(&self.entries[i].content);
                let attached = self.entries[i].attached;
                self.entries.set(i, Entry { content, handles: h + 1, attached });
                assert(self@ =~= es.update(i as int, EntryView { handles: es[i as int].handles + 1, ..es[i as int] }));
                assert(registry_wf(self@)) by {
                    assert forall|a: int, b: int| key_at(self@, self@[a].key, a) && key_at(self@, self@[b].key, b) && a != b implies #[trigger] self@[a].key != #[trigger] self@[b].key by {
                        assert(key_at(es, es[a].key, a) && key_at(es, es[b].key, b));
                    }
                }
                Some(Style { inner: share(&style.inner) })
            },
        }
    }

    /// Settles the mount of a new artifact: when it mounted, the handle is
    /// handed back; when it did not, the handle is released, which rolls the
    /// new artifact back out of the registry.
    pub fn settle_mount(&mut self, style: Style, mounted: bool) -> (r: Option<Style>)
        requires
            old(self).wf(),
        ensures
            final(self).wf(),
            mounted ==> final(self)@ == old(self)@ && r is Some && r->0@ == style@,
            !mounted ==> final(self)@ == release_step(old(self)@, style@.class_name).0 && r is None,
    {
        if mounted {
            Some(style)
        } else {
            self.release(style);
            None
        }
    }

    /// Gives a handle back. Returns whether it was the artifact's last one:
    /// the artifact is then removed, and is to be unmounted.
    pub fn release(&mut self, style: Style) -> (unmount: bool)
        requires
            old(self).wf(),
        ensures
            final(self).wf(),
            (final(self)@, unmount) == release_step(old(self)@, style@.class_name),
    {
        let ghost es = self@;
        match self.find_class(&style.inner.class_name) {
            None => false,
            Some(i) => {
                proof {
                    let k = choose|k: int| class_at(es, style@.class_name, k);
                    if k != i {
                        assert(es[k].class_name != es[i as int].class_name);
                    }
                }
                let h = self.entries[i].handles;
                if h <= 1 {
                    self.entries.remove(i);
                    assert(self@ =~= es.remove(i as int));
                    assert(registry_wf(self@)) by {
                        assert forall|a: int| 0 <= a < self@.len() implies 1 <= #[trigger] self@[a].handles <= u64::MAX by {
                            if a >= i { assert(self@[a] == es[a + 1]); }
                        }
                        assert forall|a: int, b: int| 0 <= a < self@.len() && 0 <= b < self@.len() && a != b implies #[trigger] self@[a].class_name != #[trigger] self@[b].class_name by {
                            let a2 = if a < i { a } else { a + 1 };
                            let b2 = if b < i { b } else { b + 1 };
                            assert(self@[a] == es[a2] && self@[b] == es[b2]);
                        }
                        assert forall|a: int, b: int| key_at(self@, self@[a].key, a) && key_at(self@, self@[b].key, b) && a != b implies #[trigger] self@[a].key != #[trigger] self@[b].key by {
                            let a2 = if a < i { a } else { a + 1 };
                            let b2 = if b < i { b } else { b + 1 };
                            assert(self@[a] == es[a2] && self@[b] == es[b2]);
                            assert(key_at(es, es[a2].key, a2) && key_at(es, es[b2].key, b2));
                        }
                    }
                    true
                } else {
                    let content = share(&self.entries[i].content);
                    let attached = self.entries[i].attached;
                    self.entries.set(i, Entry { content, handles: h - 1, attached });
                    assert(self@ =~= es.update(i as int, EntryView { handles: (es[i as int].handles - 1) as nat, ..es[i as int] }));
                    assert(registry_wf(self@)) by {
                        assert forall|a: int, b: int| key_at(self@, self@[a].key, a) && key_at(self@, self@[b].key, b) && a != b implies #[trigger] self@[a].key != #[trigger] self@[b].key by {
                            assert(key_at(es, es[a].key, a) && key_at(es, es[b].key, b));
                        }
                    }
                    false
                }
            },
        }
    }

    /// Takes the artifact of `style` out of lookups: a later request for an
    /// equal tree creates a new artifact. The existing handles stay valid.
    pub fn unregister(&mut self, style: &Style)
        requires
            old(self).wf(),
        ensures
            final(self).wf(),
            final(self)@ == unregister_step(old(self)@, style@.class_name),
    {
        let ghost es = self@;
        match self.find_class(&style.inner.class_name) {
            None => {},
            Some(i) => {
                proof {
                    let k = choose|k: int| class_at(es, style@.class_name, k);
                    if k != i {
                        assert(es[k].class_name != es[i as int].class_name);
                    }
                }
                let content = share(&self.entries[i].content);
                let h = self.entries[i].handles;
                self.entries.set(i, Entry { content, handles: h, attached: false });
                assert(self@ =~= es.update(i as int, EntryView { attached: false, ..es[i as int] }));
                assert(registry_wf(self@)) by {
                    assert forall|a: int, b: int| key_at(self@, self@[a].key, a) && key_at(self@, self@[b].key, b) && a != b implies #[trigger] self@[a].key != #[trigger] self@[b].key by {
                        assert(key_at(es, es[a].key, a) && key_at(es, es[b].key, b));
                    }
                }
            },
        }
    }
}

impl Style {
    /// The class name to put on elements that this style applies to.
    pub fn get_class_name(&self) -> (r: &str)
        ensures
            r@ == self@.class_name,
    {
        self.inner.class_name.as_str()
    }

    /// The class name, as an owned string.
    pub fn to_string(&self) -> (r: String)
        ensures
            r@ == self@.class_name,
    {
        self.inner.class_name.clone()
    }

    /// The style sheet text: the tree rendered under the class name. The
    /// rendering runs on the first call for the artifact; later calls, from
    /// any handle, read the stored text.
    pub fn get_style_str(&self) -> (r: &str)
        ensures
            r@ == css_of(self@.ast, self@.class_name),
    {
        let content: &StyleContent = &self.inner;
        cached_css(content).as_str()
    }

    /// Compiles `css` under `class_prefix`: parses it with `bindings`, then
    /// gets or creates its artifact in `registry`. The `bool` says whether the
    /// artifact is new, and so is to be mounted.
    pub fn create(
        registry: &mut StyleRegistry,
        class_prefix: &str,
        css: &str,
        bindings: &Vec<(String, String)>,
        suffix: &str,
    ) -> (r: Result<(Style, bool), StyleError>)
        requires
            old(registry).wf(),
        ensures
            final(registry).wf(),
            (final(registry)@, outcome_view(r)) == create_step(
                old(registry)@,
                css@,
                bindings_view(bindings@),
                class_name_of(class_prefix@, suffix@),
            ),
    {
        match parse(css, bindings) {
            Err(e) => Err(StyleError::Parse(e)),
            Ok(ast) => Self::create_from_scopes(registry, class_prefix, ast, suffix),
        }
    }

    /// [`Style::create`] with the class prefix `stylist`.
    pub fn new(registry: &mut StyleRegistry, css: &str, bindings: &Vec<(String, String)>, suffix: &str) -> (r: Result<(Style, bool), StyleError>)
        requires
            old(registry).wf(),
        ensures
            final(registry).wf(),
            (final(registry)@, outcome_view(r)) == create_step(
                old(registry)@,
                css@,
                bindings_view(bindings@),
                class_name_of(default_prefix(), suffix@),
            ),
    {
        let prefix = "stylist";
        proof { reveal_strlit("stylist"); }
        assert(prefix@ =~= default_prefix());
        Self::create(registry, prefix, css, bindings, suffix)
    }

    /// Gets or creates the artifact of an already built tree under `class_prefix`.
    pub fn create_from_scopes(registry: &mut StyleRegistry, class_prefix: &str, css: Scopes, suffix: &str) -> (r: Result<(Style, bool), StyleError>)
        requires
            old(registry).wf(),
        ensures
            final(registry).wf(),
            (final(registry)@, outcome_view(r)) == ({
                let (es, o) = compile_step(old(registry)@, css@, class_name_of(class_prefix@, suffix@));
                (es, registry_outcome(o))
            }),
    {
        match registry.get_or_create(css, class_prefix, suffix) {
            Ok(x) => Ok(x),
            Err(e) => Err(StyleError::Registry(e)),
        }
    }

    /// [`Style::create_from_scopes`] with the class prefix `stylist`.
    pub fn try_from_scopes(registry: &mut StyleRegistry, css: Scopes, suffix: &str) -> (r: Result<(Style, bool), StyleError>)
        requires
            old(registry).wf(),
        ensures
            final(registry).wf(),
            (final(registry)@, outcome_view(r)) == ({
                let (es, o) = compile_step(old(registry)@, css@, class_name_of(default_prefix(), suffix@));
                (es, registry_outcome(o))
            }),
    {
        let prefix = "stylist";
        proof { reveal_strlit("stylist"); }
        assert(prefix@ =~= default_prefix());
        Self::create_from_scopes(registry, prefix, css, suffix)
    }

    /// Takes this style's artifact out of `registry`'s lookups; see
    /// [`StyleRegistry::unregister`].
    pub fn unregister(&self, registry: &mut StyleRegistry)
        requires
            old(registry).wf(),
        ensures
            final(registry).wf(),
            final(registry)@ == unregister_step(old(registry)@, self@.class_name),
    {
        registry.unregister(self)
    }
}

/// Reading a style's text twice, or through two handles to one artifact,
/// gives the same text: it depends on the artifact's class name and tree only.
pub proof fn lemma_style_text_stable(a: StyleView, b: StyleView)
    requires
        a == b,
    ensures
        css_of(a.ast, a.class_name) == css_of(b.ast, b.class_name),
{
}

/// Determinism of requests: the same source text, bindings and class name
/// on registries in the same state give the same outcome and the same new state.
pub proof fn lemma_create_deterministic(
    es1: Seq<EntryView>,
    es2: Seq<EntryView>,
    css1: Seq<char>,
    css2: Seq<char>,
    bs1: Seq<(Seq<char>, Seq<char>)>,
    bs2: Seq<(Seq<char>, Seq<char>)>,
    class1: Seq<char>,
    class2: Seq<char>,
)
    requires
        es1 == es2,
        css1 == css2,
        bs1 == bs2,
        class1 == class2,
    ensures
        create_step(es1, css1, bs1, class1) == create_step(es2, css2, bs2, class2),
{
}

/// Cache correctness for source texts: two requests whose texts parse to
/// structurally equal trees get one artifact with one class name; the second
/// creates nothing. It fails only when the artifact's handle counter is full,
/// which cannot happen while every counter is at least two below its limit.
pub proof fn lemma_equal_sources_share_artifact(
    es: Seq<EntryView>,
    css1: Seq<char>,
    css2: Seq<char>,
    bs1: Seq<(Seq<char>, Seq<char>)>,
    bs2: Seq<(Seq<char>, Seq<char>)>,
    class1: Seq<char>,
    class2: Seq<char>,
)
    requires
        registry_wf(es),
        parse_outcome(css1, bs1) is Ok,
        parse_outcome(css1, bs1) == parse_outcome(css2, bs2),
        create_step(es, css1, bs1, class1).1 is Ok,
    ensures
        ({
            let (es1, o1) = create_step(es, css1, bs1, class1);
            let (es2, o2) = create_step(es1, css2, bs2, class2);
            &&& match o2 {
                Ok((s2, fresh2)) => s2.class_name == o1->Ok_0.0.class_name && !fresh2 && es2.len() == es1.len(),
                Err(e) => e == StyleError::Registry(RegistryError::TooManyHandles),
            }
            &&& (forall|i: int| 0 <= i < es.len() ==> #[trigger] es[i].handles + 2 <= u64::MAX) ==> o2 is Ok
        }),
{
    let ast = parse_outcome(css1, bs1)->Ok_0;
    lemma_equal_trees_share_artifact(es, ast, ast, class1, class2);
}

} // verus!
