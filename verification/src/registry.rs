//! The registry: the indexes of the process, each under its name, and the
//! operations on batches of documents.

use crate::index::{
    add_object, clear, create, remove, update, Index, IndexError, IndexView,
};
use crate::json::Json;
use crate::text::texts;
use vstd::prelude::*;

verus! {

/// An index under its name.
pub struct Named {
    name: String,
    index: Index,
}

/// The indexes, each under its own name.
pub struct Registry {
    entries: Vec<Named>,
}

/// Why an operation on the registry was refused.
#[derive(Clone, Copy, Debug, PartialEq, Eq, Structural)]
pub enum RegistryError {
    /// No index has this name.
    NotFound,
    /// An index has this name already.
    Conflict,
}

/// A document as it comes in: the value and its serialized form.
#[derive(Debug)]
pub struct Incoming {
    pub json: Json,
    pub raw: String,
}

/// How a batch ended: how many of its items were applied, in order, and the
/// error of the item that stopped it, if one did.
#[derive(Clone, Copy, Debug)]
pub struct Batch {
    pub applied: usize,
    pub error: Option<IndexError>,
}

/// The sizes of an index.
#[derive(Clone, Copy, Debug)]
pub struct IndexStats {
    pub items_count: usize,
    pub tokens_count: usize,
}

/// An index under its name, as a value.
pub struct NamedView {
    pub name: Seq<char>,
    pub index: IndexView,
}

impl View for Named {
    type V = NamedView;

    closed spec fn view(&self) -> NamedView {
        NamedView { name: self.name@, index: self.index@ }
    }
}

impl View for Registry {
    type V = Seq<NamedView>;

    closed spec fn view(&self) -> Seq<NamedView> {
        self.entries@.map_values(|e: Named| e@)
    }
}

/// Whether an index is called `name`.
pub open spec fn has_name(entries: Seq<NamedView>, name: Seq<char>) -> bool {
    exists|i: int| 0 <= i < entries.len() && (#[trigger] entries[i]).name == name
}

/// The place of the index called `name`.
pub open spec fn place_of(entries: Seq<NamedView>, name: Seq<char>) -> int {
    choose|i: int| 0 <= i < entries.len() && (#[trigger] entries[i]).name == name
}

/// The index called `name`.
pub open spec fn index_of(entries: Seq<NamedView>, name: Seq<char>) -> IndexView {
    entries[place_of(entries, name)].index
}

/// No name is used twice, and every index is well formed.
pub open spec fn registry_wf(entries: Seq<NamedView>) -> bool {
    &&& forall|i: int, j: int|
        0 <= i < entries.len() && 0 <= j < entries.len() && i != j ==> (#[trigger] entries[i]).name
            != (#[trigger] entries[j]).name
    &&& forall|i: int| 0 <= i < entries.len() ==> (#[trigger] entries[i]).index.wf()
}

/// The entries with `index` in place of the index called `name`.
pub open spec fn with_index(entries: Seq<NamedView>, name: Seq<char>, index: IndexView) -> Seq<
    NamedView,
> {
    entries.update(place_of(entries, name), NamedView { name, index })
}

/// The state after the first `n` items were added, each to the state that
/// the one before left.
pub open spec fn after_adds(v: IndexView, items: Seq<Incoming>, fields: Seq<Seq<char>>, n: nat)
    -> IndexView
    decreases n,
{
    if n == 0 {
        v
    } else {
        after_adds(v, items, fields, (n - 1) as nat).with_object(
            items[n - 1].json@,
            items[n - 1].raw@,
            fields,
        )
    }
}

/// The state after the first `n` items replaced the documents of their ids.
pub open spec fn after_updates(v: IndexView, items: Seq<Incoming>, fields: Seq<Seq<char>>, n: nat)
    -> IndexView
    decreases n,
{
    if n == 0 {
        v
    } else {
        after_updates(v, items, fields, (n - 1) as nat).with_update(
            items[n - 1].json@,
            items[n - 1].raw@,
            fields,
        )
    }
}

/// The state after the documents of the first `n` ids were removed.
pub open spec fn after_removals(v: IndexView, ids: Seq<Seq<char>>, n: nat) -> IndexView
    decreases n,
{
    if n == 0 {
        v
    } else {
        after_removals(v, ids, (n - 1) as nat).without_id(ids[n - 1])
    }
}

/// How many of the first `n` ids had a stored document when their turn came.
pub open spec fn removed_count(v: IndexView, ids: Seq<Seq<char>>, n: nat) -> nat
    decreases n,
{
    if n == 0 {
        0
    } else {
        removed_count(v, ids, (n - 1) as nat) + (if after_removals(
            v,
            ids,
            (n - 1) as nat,
        ).has_id(ids[n - 1]) {
            1nat
        } else {
            0nat
        })
    }
}

impl Registry {
    /// Whether the registry is well formed.
    pub open spec fn wf(&self) -> bool {
        registry_wf(self@)
    }

    /// A registry without indexes.
    pub fn new() -> (out: Registry)
        ensures
            out@.len() == 0,
            out.wf(),
    {
        Registry { entries: Vec::new() }
    }

    /// Where the index called `name` stands, if there is one.
    fn find(&self, name: &String) -> (out: Option<usize>)
        requires
            self.wf(),
        ensures
            out is Some <==> has_name(self@, name@),
            out is Some ==> out->0 == place_of(self@, name@) && out->0 < self.entries@.len(),
    {
        let ghost views = self@;
        let mut i: usize = 0;
        while i < self.entries.len()
            invariant
                i <= self.entries.len(),
                views == self@,
                registry_wf(views),
                forall|k: int| 0 <= k < i ==> (#[trigger] views[k]).name != name@,
            decreases self.entries.len() - i,
        {
            assert(views[i as int] == self.entries@[i as int]@);
            if self.entries[i].name == *name {
                assert(views[i as int].name == name@);
                let ghost chosen = place_of(views, name@);
                assert(views[chosen].name == name@);
                return Some(i);
            }
            i = i + 1;
        }
        None
    }

    /// The index called `name`, if there is one.
    pub fn get(&self, name: &String) -> (out: Option<&Index>)
        requires
            self.wf(),
        ensures
            out is Some <==> has_name(self@, name@),
            out is Some ==> out->0@ == index_of(self@, name@) && out->0@.wf(),
    {
        match self.find(name) {
            Some(at) => {
                assert(self@[at as int] == self.entries@[at as int]@);
                Some(&self.entries[at].index)
            },
            None => None,
        }
    }
}

/// A copy of the texts.
fn copy_texts(v: &Vec<String>) -> (out: Vec<String>)
    ensures
        texts(out@) == texts(v@),
{
    let mut out: Vec<String> = Vec::new();
    let mut i: usize = 0;
    while i < v.len()
        invariant
            i <= v.len(),
            texts(out@) == texts(v@).take(i as int),
        decreases v.len() - i,
    {
        let ghost before = texts(out@);
        out.push(v[i].clone());
        assert(texts(out@) =~= before.push(v@[i as int]@));
        assert(texts(out@) =~= texts(v@).take(i as int + 1));
        i = i + 1;
    }
    assert(texts(v@).take(v.len() as int) =~= texts(v@));
    out
}

/// Creates an empty index called `name`, unless one is.
pub fn create_index(registry: &mut Registry, name: String) -> (out: Result<(), RegistryError>)
    requires
        old(registry).wf(),
    ensures
        final(registry).wf(),
        match out {
            Ok(_) => {
                &&& !has_name(old(registry)@, name@)
                &&& final(registry)@.len() == old(registry)@.len() + 1
                &&& final(registry)@.drop_last() == old(registry)@
                &&& final(registry)@.last().name == name@
                &&& final(registry)@.last().index.documents.len() == 0
                &&& final(registry)@.last().index.entries.len() == 0
                &&& final(registry)@.last().index.id_counter == 0
            },
            Err(e) => {
                &&& e == RegistryError::Conflict
                &&& has_name(old(registry)@, name@)
                &&& final(registry)@ == old(registry)@
            },
        },
{
    let ghost before = registry@;
    match registry.find(&name) {
        Some(_) => Err(RegistryError::Conflict),
        None => {
            let index = create();
            registry.entries.push(Named { name, index });
            proof {
                assert(registry@.drop_last() =~= before);
                assert(registry@.last() == registry.entries@[registry.entries@.len() - 1]@);
                assert forall|i: int, j: int|
                    0 <= i < registry@.len() && 0 <= j < registry@.len() && i != j implies (
                #[trigger] registry@[i]).name != (#[trigger] registry@[j]).name by {
                    if i < before.len() {
                        assert(registry@[i] == before[i]);
                    }
                    if j < before.len() {
                        assert(registry@[j] == before[j]);
                    }
                }
                assert forall|i: int| 0 <= i < registry@.len() implies (
                #[trigger] registry@[i]).index.wf() by {
                    if i < before.len() {
                        assert(registry@[i] == before[i]);
                    }
                }
            }
            Ok(())
        },
    }
}

/// Destroys the index called `name`.
pub fn delete_index(registry: &mut Registry, name: &String) -> (out: Result<(), RegistryError>)
    requires
        old(registry).wf(),
    ensures
        final(registry).wf(),
        match out {
            Ok(_) => {
                &&& has_name(old(registry)@, name@)
                &&& final(registry)@ == old(registry)@.remove(place_of(old(registry)@, name@))
                &&& !has_name(final(registry)@, name@)
            },
            Err(e) => {
                &&& e == RegistryError::NotFound
                &&& !has_name(old(registry)@, name@)
                &&& final(registry)@ == old(registry)@
            },
        },
{
    let ghost before = registry@;
    match registry.find(name) {
        None => Err(RegistryError::NotFound),
        Some(at) => {
            registry.entries.remove(at);
            proof {
                assert(registry@ =~= before.remove(at as int));
                assert forall|i: int| 0 <= i < registry@.len() implies (#[trigger] registry@[i])
                    == before[if i < at {
                    i
                } else {
                    i + 1
                }] by {}
                assert forall|i: int, j: int|
                    0 <= i < registry@.len() && 0 <= j < registry@.len() && i != j implies (
                #[trigger] registry@[i]).name != (#[trigger] registry@[j]).name by {
                    let a = if i < at { i } else { i + 1 };
                    let b = if j < at { j } else { j + 1 };
                    assert(before[a].name != before[b].name);
                }
                assert forall|i: int| 0 <= i < registry@.len() implies (
                #[trigger] registry@[i]).index.wf() by {
                    let a = if i < at { i } else { i + 1 };
                    assert(before[a].index.wf());
                }
                assert forall|i: int| 0 <= i < registry@.len() implies (
                #[trigger] registry@[i]).name != name@ by {
                    let a = if i < at { i } else { i + 1 };
                    assert(before[a].name != before[at as int].name);
                }
            }
            Ok(())
        },
    }
}

/// Destroys every index.
pub fn clear_all(registry: &mut Registry)
    ensures
        final(registry)@.len() == 0,
        final(registry).wf(),
{
    registry.entries = Vec::new();
}

/// The sizes of the index called `name`.
pub fn get_index(registry: &Registry, name: &String) -> (out: Result<IndexStats, RegistryError>)
    requires
        registry.wf(),
    ensures
        match out {
            Ok(stats) => {
                &&& has_name(registry@, name@)
                &&& stats.items_count == index_of(registry@, name@).documents.len()
                &&& stats.tokens_count == index_of(registry@, name@).entries.len()
            },
            Err(e) => e == RegistryError::NotFound && !has_name(registry@, name@),
        },
{
    match registry.get(name) {
        Some(index) => Ok(
            IndexStats { items_count: index.items_count(), tokens_count: index.tokens_count() },
        ),
        None => Err(RegistryError::NotFound),
    }
}

/// A changed index in its place leaves the registry well formed.
proof fn lemma_with_index_wf(entries: Seq<NamedView>, at: int, index: IndexView)
    requires
        registry_wf(entries),
        0 <= at < entries.len(),
        index.wf(),
    ensures
        registry_wf(entries.update(at, NamedView { name: entries[at].name, index })),
        place_of(entries, entries[at].name) == at,
{
    let after = entries.update(at, NamedView { name: entries[at].name, index });
    assert forall|i: int, j: int|
        0 <= i < after.len() && 0 <= j < after.len() && i != j implies (#[trigger] after[i]).name
        != (#[trigger] after[j]).name by {
        assert(after[i].name == entries[i].name);
        assert(after[j].name == entries[j].name);
    }
    assert forall|i: int| 0 <= i < after.len() implies (#[trigger] after[i]).index.wf() by {
        if i != at {
            assert(after[i] == entries[i]);
        }
    }
    let chosen = place_of(entries, entries[at].name);
    assert(entries[chosen].name == entries[at].name);
}

/// Empties the index called `name`; its counter stays.
pub fn clear_index(registry: &mut Registry, name: &String) -> (out: Result<(), RegistryError>)
    requires
        old(registry).wf(),
    ensures
        final(registry).wf(),
        match out {
            Ok(_) => {
                &&& has_name(old(registry)@, name@)
                &&& final(registry)@ == with_index(
                    old(registry)@,
                    name@,
                    index_of(old(registry)@, name@).emptied(),
                )
            },
            Err(e) => {
                &&& e == RegistryError::NotFound
                &&& !has_name(old(registry)@, name@)
                &&& final(registry)@ == old(registry)@
            },
        },
{
    let ghost before = registry@;
    match registry.find(name) {
        None => Err(RegistryError::NotFound),
        Some(at) => {
            assert(before[at as int] == registry.entries@[at as int]@);
            clear(&mut registry.entries[at].index);
            proof {
                lemma_with_index_wf(before, at as int, before[at as int].index.emptied());
                assert(registry@ =~= with_index(before, name@, before[at as int].index.emptied()));
            }
            Ok(())
        },
    }
}

/// Adds the items to the index called `name`, in order, and stops at the
/// first that cannot be added. The items before it stay added.
pub fn post_items(
    registry: &mut Registry,
    name: &String,
    items: &Vec<Incoming>,
    fields: &Vec<String>,
) -> (out: Result<Batch, RegistryError>)
    requires
        old(registry).wf(),
    ensures
        final(registry).wf(),
        match out {
            Ok(batch) => {
                let start = index_of(old(registry)@, name@);
                &&& has_name(old(registry)@, name@)
                &&& batch.applied <= items@.len()
                &&& forall|k: int|
                    0 <= k < batch.applied ==> (#[trigger] after_adds(
                        start,
                        items@,
                        texts(fields@),
                        k as nat,
                    )).add_error(items@[k].json@) is None
                &&& batch.error == (if batch.applied < items@.len() {
                    after_adds(start, items@, texts(fields@), batch.applied as nat).add_error(
                        items@[batch.applied as int].json@,
                    )
                } else {
                    None
                })
                &&& batch.applied < items@.len() ==> batch.error is Some
                &&& final(registry)@ == with_index(
                    old(registry)@,
                    name@,
                    after_adds(start, items@, texts(fields@), batch.applied as nat),
                )
            },
            Err(e) => {
                &&& e == RegistryError::NotFound
                &&& !has_name(old(registry)@, name@)
                &&& final(registry)@ == old(registry)@
            },
        },
{
    let ghost before = registry@;
    let at = match registry.find(name) {
        None => {
            return Err(RegistryError::NotFound);
        },
        Some(at) => at,
    };
    let ghost start = before[at as int].index;
    let ghost names = texts(fields@);
    assert(before[at as int] == registry.entries@[at as int]@);
    proof {
        lemma_with_index_wf(before, at as int, start);
        assert(registry@ =~= with_index(before, name@, start));
    }
    let mut k: usize = 0;
    let mut error: Option<IndexError> = None;
    while k < items.len() && error.is_none()
        invariant
            k <= items.len(),
            at < before.len(),
            registry_wf(before),
            before[at as int].name == name@,
            place_of(before, name@) == at,
            start == before[at as int].index,
            names == texts(fields@),
            registry.wf(),
            registry.entries@.len() == before.len(),
            forall|m: int|
                0 <= m < k ==> (#[trigger] after_adds(start, items@, names, m as nat)).add_error(
                    items@[m].json@,
                ) is None,
            error is Some ==> k < items@.len() && error == after_adds(
                start,
                items@,
                names,
                k as nat,
            ).add_error(items@[k as int].json@),
            registry@ == with_index(before, name@, after_adds(start, items@, names, k as nat)),
        decreases items.len() - k + (if error is None { 1nat } else { 0nat }),
    {
        let ghost now = after_adds(start, items@, names, k as nat);
        assert(registry@[at as int] == registry.entries@[at as int]@);
        let raw = items[k].raw.clone();
        let ghost held = registry.entries@;
        let ghost prior = registry@;
        match add_object(&mut registry.entries[at].index, &items[k].json, raw, copy_texts(fields)) {
            Ok(_) => {
                proof {
                    let after_step = registry.entries@[at as int].index@;
                    assert(registry.entries@.len() == held.len());
                    assert(registry.entries@[at as int].name == held[at as int].name);
                    assert forall|i: int| 0 <= i < held.len() && i != at implies (
                    #[trigger] registry.entries@[i]) == held[i] by {}
                    assert(prior[at as int].index == now);
                    assert(registry.entries@[at as int].index@ == after_step);
                    assert forall|i: int| 0 <= i < held.len() implies (#[trigger] registry@[i])
                        == with_index(before, name@, after_step)[i] by {
                        assert(registry@[i] == registry.entries@[i]@);
                        assert(prior[i] == held[i]@);
                    }
                    let next = after_adds(start, items@, names, (k + 1) as nat);
                    lemma_with_index_wf(before, at as int, next);
                    assert(registry@ =~= with_index(before, name@, next));
                }
                k = k + 1;
            },
            Err(e) => {
                proof {
                    lemma_with_index_wf(before, at as int, now);
                    assert(registry@ =~= with_index(before, name@, now));
                }
                error = Some(e);
            },
        }
    }
    Ok(Batch { applied: k, error })
}

/// Replaces, for each item in order, the stored document of its id, and
/// stops at the first item that cannot replace one. The items before it stay
/// applied.
pub fn update_item(
    registry: &mut Registry,
    name: &String,
    items: &Vec<Incoming>,
    fields: &Vec<String>,
) -> (out: Result<Batch, RegistryError>)
    requires
        old(registry).wf(),
    ensures
        final(registry).wf(),
        match out {
            Ok(batch) => {
                let start = index_of(old(registry)@, name@);
                &&& has_name(old(registry)@, name@)
                &&& batch.applied <= items@.len()
                &&& forall|k: int|
                    0 <= k < batch.applied ==> (#[trigger] after_updates(
                        start,
                        items@,
                        texts(fields@),
                        k as nat,
                    )).update_error(items@[k].json@) is None
                &&& batch.error == (if batch.applied < items@.len() {
                    after_updates(start, items@, texts(fields@), batch.applied as nat).update_error(
                        items@[batch.applied as int].json@,
                    )
                } else {
                    None
                })
                &&& batch.applied < items@.len() ==> batch.error is Some
                &&& final(registry)@ == with_index(
                    old(registry)@,
                    name@,
                    after_updates(start, items@, texts(fields@), batch.applied as nat),
                )
            },
            Err(e) => {
                &&& e == RegistryError::NotFound
                &&& !has_name(old(registry)@, name@)
                &&& final(registry)@ == old(registry)@
            },
        },
{
    let ghost before = registry@;
    let at = match registry.find(name) {
        None => {
            return Err(RegistryError::NotFound);
        },
        Some(at) => at,
    };
    let ghost start = before[at as int].index;
    let ghost names = texts(fields@);
    assert(before[at as int] == registry.entries@[at as int]@);
    proof {
        lemma_with_index_wf(before, at as int, start);
        assert(registry@ =~= with_index(before, name@, start));
    }
    let mut k: usize = 0;
    let mut error: Option<IndexError> = None;
    while k < items.len() && error.is_none()
        invariant
            k <= items.len(),
            at < before.len(),
            registry_wf(before),
            before[at as int].name == name@,
            place_of(before, name@) == at,
            start == before[at as int].index,
            names == texts(fields@),
            registry.wf(),
            registry.entries@.len() == before.len(),
            forall|m: int|
                0 <= m < k ==> (#[trigger] after_updates(
                    start,
                    items@,
                    names,
                    m as nat,
                )).update_error(items@[m].json@) is None,
            error is Some ==> k < items@.len() && error == after_updates(
                start,
                items@,
                names,
                k as nat,
            ).update_error(items@[k as int].json@),
            registry@ == with_index(before, name@, after_updates(start, items@, names, k as nat)),
        decreases items.len() - k + (if error is None { 1nat } else { 0nat }),
    {
        let ghost now = after_updates(start, items@, names, k as nat);
        assert(registry@[at as int] == registry.entries@[at as int]@);
        let raw = items[k].raw.clone();
        let ghost held = registry.entries@;
        let ghost prior = registry@;
        match update(&mut registry.entries[at].index, &items[k].json, raw, copy_texts(fields)) {
            Ok(_) => {
                proof {
                    let after_step = registry.entries@[at as int].index@;
                    assert(registry.entries@.len() == held.len());
                    assert(registry.entries@[at as int].name == held[at as int].name);
                    assert forall|i: int| 0 <= i < held.len() && i != at implies (
                    #[trigger] registry.entries@[i]) == held[i] by {}
                    assert(prior[at as int].index == now);
                    assert(registry.entries@[at as int].index@ == after_step);
                    assert forall|i: int| 0 <= i < held.len() implies (#[trigger] registry@[i])
                        == with_index(before, name@, after_step)[i] by {
                        assert(registry@[i] == registry.entries@[i]@);
                        assert(prior[i] == held[i]@);
                    }
                    let next = after_updates(start, items@, names, (k + 1) as nat);
                    lemma_with_index_wf(before, at as int, next);
                    assert(registry@ =~= with_index(before, name@, next));
                }
                k = k + 1;
            },
            Err(e) => {
                proof {
                    lemma_with_index_wf(before, at as int, now);
                    assert(registry@ =~= with_index(before, name@, now));
                }
                error = Some(e);
            },
        }
    }
    Ok(Batch { applied: k, error })
}

/// Removes the documents with the given ids from the index called `name`,
/// in order; an id that no document has when its turn comes is passed over.
/// Returns how many documents were removed.
pub fn delete_items(registry: &mut Registry, name: &String, ids: &Vec<String>) -> (out: Result<
    usize,
    RegistryError,
>)
    requires
        old(registry).wf(),
    ensures
        final(registry).wf(),
        match out {
            Ok(removed) => {
                &&& has_name(old(registry)@, name@)
                &&& removed == removed_count(
                    index_of(old(registry)@, name@),
                    texts(ids@),
                    ids@.len(),
                )
                &&& final(registry)@ == with_index(
                    old(registry)@,
                    name@,
                    after_removals(index_of(old(registry)@, name@), texts(ids@), ids@.len()),
                )
            },
            Err(e) => {
                &&& e == RegistryError::NotFound
                &&& !has_name(old(registry)@, name@)
                &&& final(registry)@ == old(registry)@
            },
        },
{
    let ghost before = registry@;
    let at = match registry.find(name) {
        None => {
            return Err(RegistryError::NotFound);
        },
        Some(at) => at,
    };
    let ghost start = before[at as int].index;
    let ghost all = texts(ids@);
    assert(before[at as int] == registry.entries@[at as int]@);
    proof {
        lemma_with_index_wf(before, at as int, start);
        assert(registry@ =~= with_index(before, name@, start));
    }
    let mut removed: usize = 0;
    let mut k: usize = 0;
    while k < ids.len()
        invariant
            k <= ids.len(),
            removed <= k,
            removed == removed_count(start, all, k as nat),
            at < before.len(),
            registry_wf(before),
            before[at as int].name == name@,
            place_of(before, name@) == at,
            start == before[at as int].index,
            all == texts(ids@),
            registry.wf(),
            registry.entries@.len() == before.len(),
            registry@ == with_index(before, name@, after_removals(start, all, k as nat)),
        decreases ids.len() - k,
    {
        assert(registry@[at as int] == registry.entries@[at as int]@);
        assert(all[k as int] == ids@[k as int]@);
        let ghost held = registry.entries@;
        let ghost prior = registry@;
        let ghost now = after_removals(start, all, k as nat);
        if remove(&mut registry.entries[at].index, ids[k].clone()) {
            removed = removed + 1;
        }
        proof {
            assert(registry.entries@.len() == held.len());
            assert(registry.entries@[at as int].name == held[at as int].name);
            assert forall|i: int| 0 <= i < held.len() && i != at implies (
            #[trigger] registry.entries@[i]) == held[i] by {}
            let after_step = registry.entries@[at as int].index@;
            assert(prior[at as int].index == now);
            assert(after_step == now.without_id(all[k as int]));
            assert forall|i: int| 0 <= i < held.len() implies (#[trigger] registry@[i])
                == with_index(before, name@, after_step)[i] by {
                assert(registry@[i] == registry.entries@[i]@);
                assert(prior[i] == held[i]@);
            }
            let next = after_removals(start, all, (k + 1) as nat);
            lemma_with_index_wf(before, at as int, next);
            assert(registry@ =~= with_index(before, name@, next));
        }
        k = k + 1;
    }
    Ok(removed)
}

} // verus!
