//! The store as a value: what every [`crate::Store`] operation is stated over.
use vstd::prelude::*;

verus! {

/// One entry of a store: its data and its tags, each a key position (into
/// [`StoreModel::keys`]) and a value, in the order in which they were added.
#[verifier::ext_equal]
pub struct EntryModel<V, E> {
    pub data: E,
    pub tags: Seq<(nat, V)>,
}

/// A store as a value.
#[verifier::ext_equal]
pub struct StoreModel<Kv, V, E> {
    /// The index that the next inserted entry gets; indices are never reused.
    pub next_id: nat,
    /// The entries that exist, by index.
    pub entries: Map<nat, EntryModel<V, E>>,
    /// Every key that was ever given to a tag, in the order in which each first
    /// came.
    pub keys: Seq<Kv>,
    /// For each key position, the tags under that key, each an entry index and
    /// a value, in the order in which they were added.
    pub key_tags: Seq<Seq<(nat, V)>>,
    /// The number of tags ever added, removed ones included.
    pub tags_added: nat,
}

/// The most entries a store can ever be given: the entry table's own limit.
pub open spec fn max_entries() -> nat {
    crate::outside::max_slots()
}

/// The limit on the slots of the tables that hold a slot per tag or per key:
/// an empty store has room for this many tags.
pub open spec fn max_tags() -> nat {
    crate::outside::max_slots()
}

/// The tags of `s` that do not belong to the entry `id`.
pub open spec fn without_entry<V>(s: Seq<(nat, V)>, id: nat) -> Seq<(nat, V)> {
    s.filter(|t: (nat, V)| t.0 != id)
}

/// The values of the tags of `s` whose first component is `n`, in order: the
/// values of an entry's tags under one key position, or the values of a key's
/// tags on one entry.
pub open spec fn values_at<V>(s: Seq<(nat, V)>, n: nat) -> Seq<V>
    decreases s.len(),
{
    if s.len() == 0 {
        Seq::empty()
    } else {
        let rest = values_at(s.drop_last(), n);
        if s.last().0 == n {
            rest.push(s.last().1)
        } else {
            rest
        }
    }
}

impl<Kv, V, E> StoreModel<Kv, V, E> {
    /// What holds of every store that the operations can build: indices below
    /// `next_id`, distinct keys, one tag list per key, tags pointing at known
    /// keys and existing entries, and the tags of each entry under each key
    /// being, value for value and in order, the tags of that key on that entry.
    pub open spec fn wf(self) -> bool {
        &&& self.entries.dom().finite()
        &&& forall|id: nat| #[trigger] self.entries.contains_key(id) ==> id < self.next_id
        &&& forall|a: int, b: int| 0 <= a < b < self.keys.len() ==> self.keys[a] != self.keys[b]
        &&& self.key_tags.len() == self.keys.len()
        &&& forall|id: nat, i: int|
            #![trigger self.entries[id].tags[i]]
            self.entries.contains_key(id) && 0 <= i < self.entries[id].tags.len()
                ==> self.entries[id].tags[i].0 < self.keys.len()
        &&& forall|k: int, i: int|
            #![trigger self.key_tags[k][i]]
            0 <= k < self.key_tags.len() && 0 <= i < self.key_tags[k].len()
                ==> self.entries.contains_key(self.key_tags[k][i].0)
        &&& forall|id: nat, k: nat|
            #![trigger values_at(self.entries[id].tags, k)]
            #![trigger values_at(self.key_tags[k as int], id)]
            self.entries.contains_key(id) && k < self.keys.len() ==> values_at(self.entries[id].tags, k)
                == values_at(self.key_tags[k as int], id)
    }

    /// The store with the data of every entry forgotten.
    pub open spec fn erase(self) -> StoreModel<Kv, V, ()> {
        StoreModel {
            next_id: self.next_id,
            entries: self.entries.map_values(|e: EntryModel<V, E>| EntryModel { data: (), tags: e.tags }),
            keys: self.keys,
            key_tags: self.key_tags,
            tags_added: self.tags_added,
        }
    }

    /// The empty store.
    pub open spec fn empty() -> Self {
        StoreModel {
            next_id: 0,
            entries: Map::empty(),
            keys: Seq::empty(),
            key_tags: Seq::empty(),
            tags_added: 0,
        }
    }

    /// The indices of the existing entries below `n`, in increasing order.
    pub open spec fn ids_below(self, n: nat) -> Seq<nat>
        decreases n,
    {
        if n == 0 {
            Seq::empty()
        } else {
            let rest = self.ids_below((n - 1) as nat);
            if self.entries.contains_key((n - 1) as nat) {
                rest.push((n - 1) as nat)
            } else {
                rest
            }
        }
    }

    /// The indices of all existing entries, in increasing order.
    pub open spec fn live_ids(self) -> Seq<nat> {
        self.ids_below(self.next_id)
    }

    /// The position of the key `k`, or the position it gets when it is new.
    pub open spec fn key_position(self, k: Kv) -> nat {
        if self.keys.contains(k) {
            self.keys.index_of(k) as nat
        } else {
            self.keys.len()
        }
    }

    /// The tags under the key `k`; none where the key is unknown.
    pub open spec fn tags_of_key(self, k: Kv) -> Seq<(nat, V)> {
        if self.keys.contains(k) {
            self.key_tags[self.keys.index_of(k)]
        } else {
            Seq::empty()
        }
    }

    /// The tags of the entries `ids`, entry after entry, each as the index of
    /// its entry, its key and its value.
    pub open spec fn tags_of(self, ids: Seq<nat>) -> Seq<(nat, Kv, V)>
        decreases ids.len(),
    {
        if ids.len() == 0 {
            Seq::empty()
        } else {
            let id = ids.last();
            self.tags_of(ids.drop_last()) + self.entries[id].tags.map_values(
                |t: (nat, V)| (id, self.keys[t.0 as int], t.1),
            )
        }
    }

    /// Every tag of the store, each as the index of its entry, its key and its
    /// value: those of the first entry, then those of the next, and so on.
    pub open spec fn all_tags(self) -> Seq<(nat, Kv, V)> {
        self.tags_of(self.live_ids())
    }

    /// The store after adding an entry with `data`: it gets index `next_id`.
    pub open spec fn insert_entry(self, data: E) -> Self {
        StoreModel {
            next_id: self.next_id + 1,
            entries: self.entries.insert(self.next_id, EntryModel { data, tags: Seq::empty() }),
            ..self
        }
    }

    /// The store with the key `k` known: unchanged when it already is, else
    /// with `k` added at the end and no tags under it.
    pub open spec fn with_key(self, k: Kv) -> Self {
        if self.keys.contains(k) {
            self
        } else {
            StoreModel { keys: self.keys.push(k), key_tags: self.key_tags.push(Seq::empty()), ..self }
        }
    }

    /// The store after adding, to the entry `id`, a tag with the key at
    /// position `ki` and the value `v`.
    pub open spec fn push_tag(self, id: nat, ki: nat, v: V) -> Self {
        StoreModel {
            entries: self.entries.insert(
                id,
                EntryModel { data: self.entries[id].data, tags: self.entries[id].tags.push((ki, v)) },
            ),
            key_tags: self.key_tags.update(ki as int, self.key_tags[ki as int].push((id, v))),
            tags_added: self.tags_added + 1,
            ..self
        }
    }

    /// The store after adding the tag `k`, `v` to the entry `id`.
    pub open spec fn insert_tag(self, id: nat, k: Kv, v: V) -> Self {
        self.with_key(k).push_tag(id, self.key_position(k), v)
    }

    /// The store after adding the tags of `tags`, in order, to the entry `id`.
    pub open spec fn insert_tags(self, id: nat, tags: Seq<(Kv, V)>) -> Self
        decreases tags.len(),
    {
        if tags.len() == 0 {
            self
        } else {
            self.insert_tags(id, tags.drop_last()).insert_tag(id, tags.last().0, tags.last().1)
        }
    }

    /// The store after removing every tag of the entry `id`.
    pub open spec fn clear_entry(self, id: nat) -> Self {
        StoreModel {
            entries: self.entries.insert(
                id,
                EntryModel { data: self.entries[id].data, tags: Seq::empty() },
            ),
            key_tags: Seq::new(self.key_tags.len(), |k: int| without_entry(self.key_tags[k], id)),
            ..self
        }
    }

    /// The store after removing the entry `id` with its tags.
    pub open spec fn remove_entry(self, id: nat) -> Self {
        let cleared = self.clear_entry(id);
        StoreModel { entries: cleared.entries.remove(id), ..cleared }
    }

    /// The store with the data of the entry `ids[i]` replaced by `datas[i]`,
    /// for each position `i` of `ids`.
    pub open spec fn set_all_data(self, ids: Seq<nat>, datas: Seq<E>) -> Self {
        StoreModel {
            entries: Map::new(
                |id: nat| self.entries.contains_key(id),
                |id: nat|
                    if ids.contains(id) {
                        EntryModel { data: datas[ids.index_of(id)], tags: self.entries[id].tags }
                    } else {
                        self.entries[id]
                    },
            ),
            ..self
        }
    }

    /// The store with the data of the entry `id` replaced.
    pub open spec fn set_data(self, id: nat, data: E) -> Self {
        StoreModel {
            entries: self.entries.insert(id, EntryModel { data, tags: self.entries[id].tags }),
            ..self
        }
    }
}

/// Adding tags keeps the entries that exist, and counts each tag added.
pub proof fn lemma_insert_tags_keeps_entry<Kv, V, E>(m: StoreModel<Kv, V, E>, id: nat, tags: Seq<(Kv, V)>)
    requires
        m.entries.contains_key(id),
    ensures
        m.insert_tags(id, tags).entries.dom() == m.entries.dom(),
        m.insert_tags(id, tags).tags_added == m.tags_added + tags.len(),
    decreases tags.len(),
{
    if tags.len() > 0 {
        lemma_insert_tags_keeps_entry(m, id, tags.drop_last());
        let m1 = m.insert_tags(id, tags.drop_last());
        assert(m1.insert_tag(id, tags.last().0, tags.last().1).entries.dom() =~= m1.entries.dom());
    }
}

/// Whether a store is well formed does not depend on the data of its entries.
pub proof fn lemma_wf_erase<Kv, V, E>(m: StoreModel<Kv, V, E>)
    ensures
        m.wf() <==> m.erase().wf(),
{
    let e = m.erase();
    assert(e.entries.dom() =~= m.entries.dom());
    assert forall|id: nat| #[trigger] m.entries.contains_key(id) implies e.entries[id].tags == m.entries[id].tags by {
    }
    if m.wf() {
        assert forall|id: nat, k: nat|
            e.entries.contains_key(id) && k < e.keys.len() implies #[trigger] values_at(e.entries[id].tags, k)
            == values_at(e.key_tags[k as int], id) by {
            assert(values_at(m.entries[id].tags, k) == values_at(m.key_tags[k as int], id));
        }
        assert forall|id: nat, i: int|
            e.entries.contains_key(id) && 0 <= i < e.entries[id].tags.len() implies #[trigger] e.entries[id].tags[i].0 < e.keys.len() by {
            assert(m.entries[id].tags[i] == e.entries[id].tags[i]);
        }
    }
    if e.wf() {
        assert forall|id: nat, k: nat|
            m.entries.contains_key(id) && k < m.keys.len() implies #[trigger] values_at(m.entries[id].tags, k)
            == values_at(m.key_tags[k as int], id) by {
            assert(values_at(e.entries[id].tags, k) == values_at(e.key_tags[k as int], id));
        }
        assert forall|id: nat, i: int|
            m.entries.contains_key(id) && 0 <= i < m.entries[id].tags.len() implies #[trigger] m.entries[id].tags[i].0 < m.keys.len() by {
            assert(m.entries[id].tags[i] == e.entries[id].tags[i]);
        }
    }
}

} // verus!
