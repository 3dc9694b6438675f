//! The model of the style registry: its entries, the steps that change them,
//! and the laws that the steps obey.

use crate::ast::Rule;
use vstd::prelude::*;

verus! {

/// Errors of creating a style, besides parse errors.
#[derive(Clone, Copy, Debug, PartialEq, Eq, Structural)]
pub enum RegistryError {
    /// The class name made from the prefix and suffix already names another
    /// artifact; ask again with another suffix.
    ClassNameTaken,
    /// The artifact already has as many handles as a counter can hold.
    TooManyHandles,
}

/// Model of one registered artifact.
pub struct EntryView {
    pub key: Seq<Rule>,
    pub class_name: Seq<char>,
    /// Outstanding handles to the artifact.
    pub handles: nat,
    /// Whether a lookup by key still finds it (false once unregistered).
    pub attached: bool,
}

/// Model of a handle: the artifact's class name and tree.
pub struct StyleView {
    pub class_name: Seq<char>,
    pub ast: Seq<Rule>,
}

pub open spec fn key_at(es: Seq<EntryView>, key: Seq<Rule>, i: int) -> bool {
    0 <= i < es.len() && es[i].attached && es[i].key == key
}

pub open spec fn has_key(es: Seq<EntryView>, key: Seq<Rule>) -> bool {
    exists|i: int| key_at(es, key, i)
}

pub open spec fn class_at(es: Seq<EntryView>, class_name: Seq<char>, i: int) -> bool {
    0 <= i < es.len() && es[i].class_name == class_name
}

pub open spec fn class_used(es: Seq<EntryView>, class_name: Seq<char>) -> bool {
    exists|i: int| class_at(es, class_name, i)
}

/// Every artifact has a handle, no two share a class name, and no two that a
/// lookup finds share a tree.
pub open spec fn registry_wf(es: Seq<EntryView>) -> bool {
    &&& forall|i: int| 0 <= i < es.len() ==> 1 <= #[trigger] es[i].handles <= u64::MAX
    &&& forall|i: int, j: int|
        0 <= i < es.len() && 0 <= j < es.len() && i != j ==> #[trigger] es[i].class_name != #[trigger] es[j].class_name
    &&& forall|i: int, j: int|
        key_at(es, es[i].key, i) && key_at(es, es[j].key, j) && i != j ==> #[trigger] es[i].key != #[trigger] es[j].key
}

/// The class name made from a prefix and a suffix: `prefix-suffix`.
pub open spec fn class_name_of(prefix: Seq<char>, suffix: Seq<char>) -> Seq<char> {
    prefix + seq!['-'] + suffix
}

/// Get-or-create: a tree that a lookup finds gets one more handle to the
/// existing artifact; any other gets a new artifact under `class_name`, to be
/// mounted (the `true` of the result), unless that name is taken.
pub open spec fn compile_step(es: Seq<EntryView>, key: Seq<Rule>, class_name: Seq<char>) -> (Seq<EntryView>, Result<(StyleView, bool), RegistryError>) {
    if has_key(es, key) {
        let i = choose|i: int| key_at(es, key, i);
        if es[i].handles >= u64::MAX {
            (es, Err(RegistryError::TooManyHandles))
        } else {
            (
                es.update(i, EntryView { handles: es[i].handles + 1, ..es[i] }),
                Ok((StyleView { class_name: es[i].class_name, ast: key }, false)),
            )
        }
    } else if class_used(es, class_name) {
        (es, Err(RegistryError::ClassNameTaken))
    } else {
        (
            es.push(EntryView { key, class_name, handles: 1, attached: true }),
            Ok((StyleView { class_name, ast: key }, true)),
        )
    }
}

/// Releasing one handle: the last one removes the artifact and asks for it
/// to be unmounted (the `true` of the result).
pub open spec fn release_step(es: Seq<EntryView>, class_name: Seq<char>) -> (Seq<EntryView>, bool) {
    if class_used(es, class_name) {
        let i = choose|i: int| class_at(es, class_name, i);
        if es[i].handles <= 1 {
            (es.remove(i), true)
        } else {
            (es.update(i, EntryView { handles: (es[i].handles - 1) as nat, ..es[i] }), false)
        }
    } else {
        (es, false)
    }
}

/// A second handle to an artifact: its count goes up by one, unless the
/// registry does not hold it or the count is full (the `false` of the result).
pub open spec fn acquire_step(es: Seq<EntryView>, class_name: Seq<char>) -> (Seq<EntryView>, bool) {
    if class_used(es, class_name) {
        let i = choose|i: int| class_at(es, class_name, i);
        if es[i].handles >= u64::MAX {
            (es, false)
        } else {
            (es.update(i, EntryView { handles: es[i].handles + 1, ..es[i] }), true)
        }
    } else {
        (es, false)
    }
}

/// Unregistering: lookups no longer find the artifact; its handles keep it
/// alive until the last is released.
pub open spec fn unregister_step(es: Seq<EntryView>, class_name: Seq<char>) -> Seq<EntryView> {
    if class_used(es, class_name) {
        let i = choose|i: int| class_at(es, class_name, i);
        es.update(i, EntryView { attached: false, ..es[i] })
    } else {
        es
    }
}

/// `k` get-or-create steps in a row for one tree and one class name, with
/// how many of them created an artifact and how many succeeded.
pub open spec fn compile_n(es: Seq<EntryView>, key: Seq<Rule>, class_name: Seq<char>, k: nat) -> (Seq<EntryView>, nat, nat)
    decreases k,
{
    if k == 0 {
        (es, 0, 0)
    } else {
        let (es0, fresh0, ok0) = compile_n(es, key, class_name, (k - 1) as nat);
        let (es1, o) = compile_step(es0, key, class_name);
        let fresh = match o {
            Ok((_, true)) => 1nat,
            _ => 0nat,
        };
        let ok = if o is Ok { 1nat } else { 0nat };
        (es1, fresh0 + fresh, ok0 + ok)
    }
}

/// `k` releases in a row of handles of one artifact, with how many of them
/// asked for an unmount.
pub open spec fn release_n(es: Seq<EntryView>, class_name: Seq<char>, k: nat) -> (Seq<EntryView>, nat)
    decreases k,
{
    if k == 0 {
        (es, 0)
    } else {
        let (es0, n0) = release_n(es, class_name, (k - 1) as nat);
        let (es1, unmount) = release_step(es0, class_name);
        (es1, n0 + if unmount { 1nat } else { 0nat })
    }
}

pub proof fn lemma_compile_step_wf(es: Seq<EntryView>, key: Seq<Rule>, class_name: Seq<char>)
    requires
        registry_wf(es),
    ensures
        registry_wf(compile_step(es, key, class_name).0),
{
    let es1 = compile_step(es, key, class_name).0;
    if has_key(es, key) {
        let i = choose|i: int| key_at(es, key, i);
        assert forall|a: int, b: int| key_at(es1, es1[a].key, a) && key_at(es1, es1[b].key, b) && a != b implies #[trigger] es1[a].key != #[trigger] es1[b].key by {
            assert(key_at(es, es[a].key, a) && key_at(es, es[b].key, b));
        }
    } else if !class_used(es, class_name) {
        assert forall|a: int, b: int| key_at(es1, es1[a].key, a) && key_at(es1, es1[b].key, b) && a != b implies #[trigger] es1[a].key != #[trigger] es1[b].key by {
            if a == es.len() {
                assert(!key_at(es, key, b));
            } else if b == es.len() {
                assert(!key_at(es, key, a));
            } else {
                assert(key_at(es, es[a].key, a) && key_at(es, es[b].key, b));
            }
        }
        assert forall|a: int, b: int| 0 <= a < es1.len() && 0 <= b < es1.len() && a != b implies #[trigger] es1[a].class_name != #[trigger] es1[b].class_name by {
            if a == es.len() {
                assert(!class_at(es, class_name, b));
            } else if b == es.len() {
                assert(!class_at(es, class_name, a));
            }
        }
    }
}

/// After a successful get-or-create of a tree, the registry finds an artifact
/// of that tree, and it is the one that the handle names.
pub proof fn lemma_compile_step_finds(es: Seq<EntryView>, key: Seq<Rule>, class_name: Seq<char>)
    requires
        registry_wf(es),
        compile_step(es, key, class_name).1 is Ok,
    ensures
        ({
            let (es1, o) = compile_step(es, key, class_name);
            exists|i: int| key_at(es1, key, i) && es1[i].class_name == o->Ok_0.0.class_name
        }),
{
    let (es1, o) = compile_step(es, key, class_name);
    if has_key(es, key) {
        let i = choose|i: int| key_at(es, key, i);
        assert(key_at(es1, key, i));
    } else {
        assert(key_at(es1, key, es.len() as int));
    }
}

/// Cache correctness: two requests whose trees are structurally equal get
/// handles to one artifact with one class name; the second creates nothing
/// (it can only fail when the handle counter is full, which cannot happen
/// while every counter is at least two below its limit).
pub proof fn lemma_equal_trees_share_artifact(
    es: Seq<EntryView>,
    key1: Seq<Rule>,
    key2: Seq<Rule>,
    class1: Seq<char>,
    class2: Seq<char>,
)
    requires
        registry_wf(es),
        key1 == key2,
        compile_step(es, key1, class1).1 is Ok,
    ensures
        ({
            let (es1, o1) = compile_step(es, key1, class1);
            let (es2, o2) = compile_step(es1, key2, class2);
            &&& match o2 {
                Ok((s2, fresh2)) => s2.class_name == o1->Ok_0.0.class_name && !fresh2 && es2.len() == es1.len(),
                Err(e) => e == RegistryError::TooManyHandles,
            }
            &&& (forall|i: int| 0 <= i < es.len() ==> #[trigger] es[i].handles + 2 <= u64::MAX) ==> o2 is Ok
        }),
{
    let (es1, o1) = compile_step(es, key1, class1);
    lemma_compile_step_wf(es, key1, class1);
    lemma_compile_step_finds(es, key1, class1);
    let i = choose|i: int| key_at(es1, key1, i) && es1[i].class_name == o1->Ok_0.0.class_name;
    let j = choose|j: int| key_at(es1, key2, j);
    if i != j {
        assert(es1[i].key != es1[j].key);
    }
    if forall|k: int| 0 <= k < es.len() ==> #[trigger] es[k].handles + 2 <= u64::MAX {
        if has_key(es, key1) {
            let k = choose|k: int| key_at(es, key1, k);
            assert(es1[j].handles <= es[j].handles + 1);
        } else {
            if j < es.len() {
                assert(key_at(es, key1, j));
            }
        }
    }
}

/// Non-collision: in a well-formed registry, artifacts of structurally
/// distinct trees have distinct class names.
pub proof fn lemma_distinct_trees_distinct_classes(es: Seq<EntryView>, i: int, j: int)
    requires
        registry_wf(es),
        0 <= i < es.len(),
        0 <= j < es.len(),
        es[i].key != es[j].key,
    ensures
        es[i].class_name != es[j].class_name,
{
}

/// Non-collision across requests: two successful requests for structurally
/// distinct trees get distinct class names.
pub proof fn lemma_distinct_requests_distinct_classes(
    es: Seq<EntryView>,
    key1: Seq<Rule>,
    key2: Seq<Rule>,
    class1: Seq<char>,
    class2: Seq<char>,
)
    requires
        registry_wf(es),
        key1 != key2,
        compile_step(es, key1, class1).1 is Ok,
        compile_step(compile_step(es, key1, class1).0, key2, class2).1 is Ok,
    ensures
        compile_step(compile_step(es, key1, class1).0, key2, class2).1->Ok_0.0.class_name
            != compile_step(es, key1, class1).1->Ok_0.0.class_name,
{
    let (es1, o1) = compile_step(es, key1, class1);
    lemma_compile_step_wf(es, key1, class1);
    lemma_compile_step_finds(es, key1, class1);
    let i = choose|i: int| key_at(es1, key1, i) && es1[i].class_name == o1->Ok_0.0.class_name;
    if has_key(es1, key2) {
        let j = choose|j: int| key_at(es1, key2, j);
        assert(i != j);
    } else {
        assert(class_at(es1, o1->Ok_0.0.class_name, i));
    }
}

proof fn lemma_compile_n_shape(es: Seq<EntryView>, key: Seq<Rule>, class_name: Seq<char>, k: nat)
    requires
        !has_key(es, key),
        !class_used(es, class_name),
        1 <= k <= u64::MAX,
    ensures
        compile_n(es, key, class_name, k) == (
            es.push(EntryView { key, class_name, handles: k, attached: true }),
            1nat,
            k,
        ),
    decreases k,
{
    if k > 1 {
        lemma_compile_n_shape(es, key, class_name, (k - 1) as nat);
        let es0 = es.push(EntryView { key, class_name, handles: (k - 1) as nat, attached: true });
        assert(key_at(es0, key, es.len() as int));
        let i = choose|i: int| key_at(es0, key, i);
        if i != es.len() {
            assert(key_at(es, key, i));
        }
        assert(es0.update(i, EntryView { handles: es0[i].handles + 1, ..es0[i] }) =~= es.push(
            EntryView { key, class_name, handles: k, attached: true },
        ));
    } else {
        assert(compile_n(es, key, class_name, 0) == (es, 0nat, 0nat));
    }
}

/// Serialised concurrent creation: `k` requests in a row for a tree that the
/// registry does not hold yet all succeed, exactly one creates (and mounts)
/// an artifact, and that artifact ends with `k` handles.
pub proof fn lemma_repeated_requests_mount_once(es: Seq<EntryView>, key: Seq<Rule>, class_name: Seq<char>, k: nat)
    requires
        !has_key(es, key),
        !class_used(es, class_name),
        1 <= k <= u64::MAX,
    ensures
        compile_n(es, key, class_name, k).1 == 1,
        compile_n(es, key, class_name, k).2 == k,
        compile_n(es, key, class_name, k).0 == es.push(EntryView { key, class_name, handles: k, attached: true }),
{
    lemma_compile_n_shape(es, key, class_name, k);
}

proof fn lemma_release_n_shape(es: Seq<EntryView>, key: Seq<Rule>, class_name: Seq<char>, n: nat, k: nat)
    requires
        !class_used(es, class_name),
        k < n,
    ensures
        release_n(es.push(EntryView { key, class_name, handles: n, attached: true }), class_name, k) == (
            es.push(EntryView { key, class_name, handles: (n - k) as nat, attached: true }),
            0nat,
        ),
    decreases k,
{
    if k > 0 {
        lemma_release_n_shape(es, key, class_name, n, (k - 1) as nat);
        let es0 = es.push(EntryView { key, class_name, handles: (n - k + 1) as nat, attached: true });
        assert(class_at(es0, class_name, es.len() as int));
        let i = choose|i: int| class_at(es0, class_name, i);
        if i != es.len() {
            assert(class_at(es, class_name, i));
        }
        assert(es0.update(i, EntryView { handles: (es0[i].handles - 1) as nat, ..es0[i] }) =~= es.push(
            EntryView { key, class_name, handles: (n - k) as nat, attached: true },
        ));
    }
}

/// Reference-counted teardown: after `n` requests create handles to one new
/// artifact, releasing `n - 1` of them asks for no unmount, and releasing all
/// `n` asks for exactly one and leaves the registry as it was.
pub proof fn lemma_last_release_unmounts_once(es: Seq<EntryView>, key: Seq<Rule>, class_name: Seq<char>, n: nat)
    requires
        !has_key(es, key),
        !class_used(es, class_name),
        1 <= n <= u64::MAX,
    ensures
        release_n(compile_n(es, key, class_name, n).0, class_name, (n - 1) as nat).1 == 0,
        release_n(compile_n(es, key, class_name, n).0, class_name, n).1 == 1,
        release_n(compile_n(es, key, class_name, n).0, class_name, n).0 == es,
{
    lemma_compile_n_shape(es, key, class_name, n);
    lemma_release_n_shape(es, key, class_name, n, (n - 1) as nat);
    let es0 = es.push(EntryView { key, class_name, handles: 1, attached: true });
    assert(class_at(es0, class_name, es.len() as int));
    let i = choose|i: int| class_at(es0, class_name, i);
    if i != es.len() {
        assert(class_at(es, class_name, i));
    }
    assert(es0.remove(i) =~= es);
}

} // verus!
