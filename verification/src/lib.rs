//! Stores of entries, each carrying any number of key-value tags, with fast
//! lookup of the tags of an entry and of the tags under a key.
use vstd::prelude::*;

pub mod entry_data;
pub mod indexed;
pub mod laws;
pub mod model;
pub mod multi_linked;
pub mod node_list;
mod outside;
pub mod perm;
pub mod sparse;

pub use model::{EntryModel, StoreModel};
pub use indexed::IndexedStore;
pub use multi_linked::MultiLinkedStore;
pub use sparse::SparseStore;

verus! {

/// A stable index of an entry in a [`Store`]. As long as the entry is not
/// removed, other insertions and removals neither invalidate the index nor
/// make it point to another entry.
#[derive(Debug, Clone, Copy, PartialEq, Eq, Hash, PartialOrd, Ord, Structural)]
pub struct EntryId(usize);

impl EntryId {
    /// The index as a number.
    pub closed spec fn id(self) -> nat {
        self.0 as nat
    }

    pub(crate) proof fn lemma_id(self)
        ensures
            self.id() == self.0 as nat,
    {
    }

    /// The index as a `usize`.
    pub fn index(&self) -> (r: usize)
        ensures
            r as nat == self.id(),
    {
        self.0
    }
}

/// A store of entries, identified by stable [`EntryId`]s, each associated with
/// any number of tags. A tag is a key of type `K` and a value of type `V`;
/// more than one tag with the same key can belong to one entry. `E` is data
/// kept alongside each entry.
///
/// Every operation is stated over [`StoreModel`], the store as a value.
pub trait Store<K: View, V, E>: Sized {
    /// The store's internal structure is consistent.
    spec fn wf(&self) -> bool;

    /// The store as a value.
    spec fn model(&self) -> StoreModel<K::V, V, E>;

    /// How many more tags the store's tables can take before one of them
    /// would pass its size limit. A store whose tables reuse the slots of
    /// removed tags gets that room back when tags are removed.
    spec fn tag_room(&self) -> nat;

    /// The store as a value is well formed: every law of [`laws`] about a
    /// well-formed [`StoreModel`] holds of every consistent store.
    proof fn lemma_model_wf(&self)
        requires
            self.wf(),
        ensures
            self.model().wf(),
    ;

    /// The number of entries in the store.
    fn len(&self) -> (n: usize)
        requires
            self.wf(),
        ensures
            n == self.model().entries.len(),
    ;

    /// Whether the store holds no entry.
    fn is_empty(&self) -> (b: bool)
        requires
            self.wf(),
        ensures
            b == (self.model().entries.len() == 0),
    {
        self.len() == 0
    }

    /// Adds an entry with `data` and no tags, and returns its index.
    fn insert_entry(&mut self, data: E) -> (id: EntryId)
        requires
            old(self).wf(),
            old(self).model().next_id < model::max_entries(),
        ensures
            final(self).wf(),
            id.id() == old(self).model().next_id,
            final(self).model() == old(self).model().insert_entry(data),
            final(self).tag_room() == old(self).tag_room(),
    ;

    /// Adds an entry with `data` and the tags of `tags`, in order, and returns
    /// its index.
    fn insert_entry_with(&mut self, data: E, tags: Vec<(K, V)>) -> (id: EntryId)
        requires
            old(self).wf(),
            old(self).model().next_id < model::max_entries(),
            tags@.len() <= old(self).tag_room(),
        ensures
            final(self).wf(),
            id.id() == old(self).model().next_id,
            final(self).model() == old(self).model().insert_entry(data).insert_tags(
                id.id(),
                tags@.map_values(|t: (K, V)| (t.0@, t.1)),
            ),
            final(self).tag_room() + tags@.len() >= old(self).tag_room(),
    {
        let ghost room0 = self.tag_room();
        let id = self.insert_entry(data);
        let ghost start = self.model();
        let ghost all = tags@.map_values(|t: (K, V)| (t.0@, t.1));
        let mut rest = tags;
        let ghost mut done: int = 0;
        while rest.len() > 0
            invariant
                self.wf(),
                0 <= done <= all.len(),
                rest@.len() == all.len() - done,
                forall|i: int| 0 <= i < rest@.len() ==> (rest@[i].0@, rest@[i].1) == all[done + i],
                self.model() == start.insert_tags(id.id(), all.take(done)),
                start.entries.contains_key(id.id()),
                all.len() - done <= self.tag_room(),
                self.tag_room() + done >= room0,
                all.len() == tags@.len(),
            decreases rest@.len(),
        {
            let (k, v) = rest.remove(0);
            proof {
                model::lemma_insert_tags_keeps_entry(start, id.id(), all.take(done));
                assert(all.take(done + 1).drop_last() =~= all.take(done));
                assert(all.take(done + 1).last() == (k@, v));
            }
            self.insert_tag(id, k, v);
            proof {
                done = done + 1;
            }
        }
        proof {
            assert(all.take(done) =~= all);
        }
        id
    }

    /// Adds the tag `k`, `v` to the entry `id`. It takes one unit of the
    /// store's [`Store::tag_room`].
    fn insert_tag(&mut self, id: EntryId, k: K, v: V)
        requires
            old(self).wf(),
            old(self).model().entries.contains_key(id.id()),
            old(self).tag_room() > 0,
        ensures
            final(self).wf(),
            final(self).model() == old(self).model().insert_tag(id.id(), k@, v),
            final(self).tag_room() + 1 >= old(self).tag_room(),
    ;

    /// Removes the entry `id` with its tags and returns its data.
    fn remove_entry(&mut self, id: EntryId) -> (data: E)
        requires
            old(self).wf(),
            old(self).model().entries.contains_key(id.id()),
        ensures
            final(self).wf(),
            data == old(self).model().entries[id.id()].data,
            final(self).model() == old(self).model().remove_entry(id.id()),
            final(self).tag_room() >= old(self).tag_room(),
    ;

    /// Removes all tags of the entry `id`. Equivalent to removing and
    /// inserting the entry, but keeps its index.
    fn clear_entry(&mut self, id: EntryId)
        requires
            old(self).wf(),
            old(self).model().entries.contains_key(id.id()),
        ensures
            final(self).wf(),
            final(self).model() == old(self).model().clear_entry(id.id()),
            final(self).tag_room() >= old(self).tag_room(),
    ;

    /// The data of the entry `id`.
    fn entry_data(&self, id: EntryId) -> (data: &E)
        requires
            self.wf(),
            self.model().entries.contains_key(id.id()),
        ensures
            *data == self.model().entries[id.id()].data,
    ;

    /// The data of the entry `id`, to be changed in place.
    fn entry_data_mut(&mut self, id: EntryId) -> (data: &mut E)
        requires
            old(self).wf(),
            old(self).model().entries.contains_key(id.id()),
        ensures
            *data == old(self).model().entries[id.id()].data,
            final(self).wf(),
            final(self).model() == old(self).model().set_data(id.id(), *final(data)),
            final(self).tag_room() == old(self).tag_room(),
    ;

    /// Every entry with its data, in increasing order of index.
    fn entries(&self) -> (r: Vec<(EntryId, &E)>)
        requires
            self.wf(),
        ensures
            r@.len() == self.model().live_ids().len(),
            forall|i: int|
                0 <= i < r@.len() ==> r@[i].0.id() == self.model().live_ids()[i] && *r@[i].1
                    == self.model().entries[self.model().live_ids()[i]].data,
    ;

    /// Every entry with its data, to be changed in place, in increasing order
    /// of index.
    fn entries_mut(&mut self) -> (r: Vec<(EntryId, &mut E)>)
        requires
            old(self).wf(),
        ensures
            r@.len() == old(self).model().live_ids().len(),
            forall|i: int|
                0 <= i < r@.len() ==> r@[i].0.id() == old(self).model().live_ids()[i] && *r@[i].1
                    == old(self).model().entries[old(self).model().live_ids()[i]].data,
            final(self).wf(),
            final(self).model() == old(self).model().set_all_data(
                old(self).model().live_ids(),
                Seq::new(r@.len(), |i: int| *final(r@[i].1)),
            ),
            final(self).tag_room() == old(self).tag_room(),
    ;

    /// The index of every entry, in increasing order.
    fn entry_ids(&self) -> (r: Vec<EntryId>)
        requires
            self.wf(),
        ensures
            r@.len() == self.model().live_ids().len(),
            forall|i: int| 0 <= i < r@.len() ==> r@[i].id() == self.model().live_ids()[i],
    ;

    /// Every key that was ever given to a tag, each once, in the order in which
    /// each first came.
    fn keys(&self) -> (r: Vec<&K>)
        requires
            self.wf(),
        ensures
            r@.len() == self.model().keys.len(),
            forall|i: int| 0 <= i < r@.len() ==> r@[i]@ == self.model().keys[i],
    ;

    /// The tags of the entry `id`, in the order in which they were added.
    fn tags_by_entry(&self, id: EntryId) -> (r: Vec<(&K, &V)>)
        requires
            self.wf(),
            self.model().entries.contains_key(id.id()),
        ensures
            r@.len() == self.model().entries[id.id()].tags.len(),
            forall|i: int|
                0 <= i < r@.len() ==> r@[i].0@ == self.model().keys[self.model().entries[id.id()].tags[i].0 as int]
                    && *r@[i].1 == self.model().entries[id.id()].tags[i].1,
    ;

    /// The tags under the key `k`, each with the index of its entry, in the
    /// order in which they were added; none where no tag ever had the key.
    fn tags_by_key(&self, k: &K) -> (r: Vec<(EntryId, &V)>)
        requires
            self.wf(),
        ensures
            r@.len() == self.model().tags_of_key(k@).len(),
            forall|i: int|
                0 <= i < r@.len() ==> r@[i].0.id() == self.model().tags_of_key(k@)[i].0 && *r@[i].1
                    == self.model().tags_of_key(k@)[i].1,
    ;
}

} // verus!
