//! A two-axis doubly linked store without data on its entries.
use vstd::prelude::*;
use crate::{EntryId, Store};
use crate::model::{StoreModel, max_entries};
use crate::multi_linked::MultiLinkedStore;

verus! {

/// A store whose entries carry no data, only tags, linked along two axes as
/// in [`MultiLinkedStore`]: the tags of an entry and the tags under a key are
/// each a doubly linked list.
pub struct SparseStore<V> {
    lists: MultiLinkedStore<V, ()>,
}

impl<V> SparseStore<V> {
    /// The store's internal structure is consistent.
    pub closed spec fn wf(&self) -> bool {
        self.lists.wf()
    }

    /// The store as a value; every entry's data is `()`.
    pub closed spec fn model(&self) -> StoreModel<Seq<char>, V, ()> {
        self.lists.model()
    }

    /// How many more tags the store's tables can take; removing tags gives
    /// the room back.
    pub closed spec fn tag_room(&self) -> nat {
        self.lists.tag_room()
    }

    /// The store as a value is well formed: every law of [`crate::laws`]
    /// about a well-formed [`StoreModel`] holds of every consistent store.
    pub proof fn lemma_model_wf(&self)
        requires
            self.wf(),
        ensures
            self.model().wf(),
    {
        self.lists.lemma_model_wf();
    }

    /// An empty store.
    pub fn new() -> (s: Self)
        ensures
            s.wf(),
            s.model() == StoreModel::<Seq<char>, V, ()>::empty(),
            s.tag_room() == crate::model::max_tags(),
    {
        SparseStore { lists: MultiLinkedStore::new() }
    }

    /// The number of entries in the store.
    pub fn len(&self) -> (n: usize)
        requires
            self.wf(),
        ensures
            n == self.model().entries.len(),
    {
        self.lists.len()
    }

    /// Whether the store holds no entry.
    pub fn is_empty(&self) -> (b: bool)
        requires
            self.wf(),
        ensures
            b == (self.model().entries.len() == 0),
    {
        self.lists.is_empty()
    }

    /// Adds an entry with no tags and returns its index.
    pub fn insert_entry(&mut self) -> (id: EntryId)
        requires
            old(self).wf(),
            old(self).model().next_id < max_entries(),
        ensures
            final(self).wf(),
            id.id() == old(self).model().next_id,
            final(self).model() == old(self).model().insert_entry(()),
            final(self).tag_room() == old(self).tag_room(),
    {
        self.lists.insert_entry(())
    }

    /// Adds the tag `k`, `v` to the entry `id`.
    pub fn insert_tag(&mut self, id: EntryId, k: String, v: V)
        requires
            old(self).wf(),
            old(self).model().entries.contains_key(id.id()),
            old(self).tag_room() > 0,
        ensures
            final(self).wf(),
            final(self).model() == old(self).model().insert_tag(id.id(), k@, v),
            final(self).tag_room() + 1 >= old(self).tag_room(),
    {
        self.lists.insert_tag(id, k, v)
    }

    /// Removes the entry `id` with its tags.
    pub fn remove_entry(&mut self, id: EntryId)
        requires
            old(self).wf(),
            old(self).model().entries.contains_key(id.id()),
        ensures
            final(self).wf(),
            final(self).model() == old(self).model().remove_entry(id.id()),
            final(self).tag_room() >= old(self).tag_room(),
    {
        self.lists.remove_entry(id);
    }

    /// Removes all tags of the entry `id`, keeping the entry.
    pub fn clear_entry(&mut self, id: EntryId)
        requires
            old(self).wf(),
            old(self).model().entries.contains_key(id.id()),
        ensures
            final(self).wf(),
            final(self).model() == old(self).model().clear_entry(id.id()),
            final(self).tag_room() >= old(self).tag_room(),
    {
        self.lists.clear_entry(id)
    }

    /// The index of every entry, in increasing order.
    pub fn entries(&self) -> (r: Vec<EntryId>)
        requires
            self.wf(),
        ensures
            r@.len() == self.model().live_ids().len(),
            forall|i: int| 0 <= i < r@.len() ==> r@[i].id() == self.model().live_ids()[i],
    {
        self.lists.entry_ids()
    }

    /// Every key that was ever given to a tag, each once, in the order in which
    /// each first came.
    pub fn keys(&self) -> (r: Vec<&String>)
        requires
            self.wf(),
        ensures
            r@.len() == self.model().keys.len(),
            forall|i: int| 0 <= i < r@.len() ==> r@[i]@ == self.model().keys[i],
    {
        self.lists.keys()
    }

    /// The tags of the entry `id`, in the order in which they were added.
    pub fn tags_by_entry(&self, id: EntryId) -> (r: Vec<(&String, &V)>)
        requires
            self.wf(),
            self.model().entries.contains_key(id.id()),
        ensures
            r@.len() == self.model().entries[id.id()].tags.len(),
            forall|i: int|
                0 <= i < r@.len() ==> r@[i].0@ == self.model().keys[self.model().entries[id.id()].tags[i].0 as int]
                    && *r@[i].1 == self.model().entries[id.id()].tags[i].1,
    {
        self.lists.tags_by_entry(id)
    }

    /// The tags under the key `k`, each with the index of its entry, in the
    /// order in which they were added; none where no tag ever had the key.
    pub fn tags_by_key(&self, k: &String) -> (r: Vec<(EntryId, &V)>)
        requires
            self.wf(),
        ensures
            r@.len() == self.model().tags_of_key(k@).len(),
            forall|i: int|
                0 <= i < r@.len() ==> r@[i].0.id() == self.model().tags_of_key(k@)[i].0 && *r@[i].1
                    == self.model().tags_of_key(k@)[i].1,
    {
        self.lists.tags_by_key(k)
    }
}

impl<V> Default for SparseStore<V> {
    /// An empty store.
    fn default() -> (s: Self)
        ensures
            s.wf(),
            s.model() == StoreModel::<Seq<char>, V, ()>::empty(),
            s.tag_room() == crate::model::max_tags(),
    {
        Self::new()
    }
}

} // verus!
