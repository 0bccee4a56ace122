//! An indexed implementation of a [`Store`]: each entry keeps the list of its
//! tags, and each key keeps, in a stable vector, where its tags sit.
use vstd::prelude::*;
use crate::{EntryId, Store};
use crate::laws;
use crate::entry_data::{filled_mut, lemma_refill, refill};
use crate::model::{EntryModel, StoreModel, max_tags, without_entry};
use crate::multi_linked::{lemma_count_filled, lemma_filled_indices, slots_match};
use crate::outside::{
    IndexSlots, TagListSlots, filled_indices, filled_values, index_lists, index_lists_get_index,
    index_lists_get_index_of, index_lists_get_mut, index_lists_insert_full, index_lists_keys,
    index_lists_new, index_slots, index_slots_new, index_slots_push, index_slots_remove,
    index_slots_values, tag_list_slots, tag_lists_get, tag_lists_get_mut, tag_lists_indices,
    tag_lists_is_empty, tag_lists_new, tag_lists_num_elements, tag_lists_push, tag_lists_remove,
};
use indexmap::IndexMap;

verus! {

/// Where a tag sits: its entry, and its position among the entry's tags.
#[derive(Clone, Copy)]
pub struct Index {
    pub entry: EntryId,
    pub tag: usize,
}

/// Where a tag is found under its key: the key's position, and the tag's slot
/// in the key's list.
#[derive(Clone, Copy)]
pub struct TagRef {
    pub key_index: usize,
    pub index_index: usize,
}

/// The tags of an entry, in the order in which they were added. Tags are never
/// removed one by one, so a plain `Vec` keeps them.
pub struct TagList {
    pub tags: Vec<TagRef>,
}

/// An entry's tags as the model reads them: the key position of each, with the
/// value at the same position of `vals`.
pub open spec fn entry_tags<V>(refs: Seq<TagRef>, vals: Seq<V>) -> Seq<(nat, V)> {
    Seq::new(refs.len(), |t: int| (refs[t].key_index as nat, vals[t]))
}

/// The value of the tag at `ix`.
pub open spec fn value_at<V>(values: Seq<Vec<V>>, ix: Index) -> V {
    values[ix.entry.id() as int]@[ix.tag as int]
}

/// The filled slots of a key's list read as tags under the key: the entry
/// index of each, with its value.
pub open spec fn key_tags_of<V>(s: Seq<Option<Index>>, values: Seq<Vec<V>>) -> Seq<(nat, V)> {
    filled_values(s).map_values(|ix: Index| (ix.entry.id(), value_at(values, ix)))
}

/// The tags of the entry in slot `i`, as the model reads them.
pub open spec fn entry_tags_at<V>(slots: Seq<Option<TagList>>, values: Seq<Vec<V>>, i: int) -> Seq<(nat, V)> {
    entry_tags(slots[i].unwrap().tags@, values[i]@)
}

/// The tags under the key at position `k`, as the model reads them.
pub open spec fn key_tags_at<V>(kl: Seq<(Seq<char>, IndexSlots)>, values: Seq<Vec<V>>, k: int) -> Seq<(nat, V)> {
    key_tags_of(index_slots(kl[k].1), values)
}

/// A store read from its entry slots, key lists, values and count of tags
/// added, with the data of its entries left out.
pub open spec fn tags_view<V>(
    slots: Seq<Option<TagList>>,
    kl: Seq<(Seq<char>, IndexSlots)>,
    values: Seq<Vec<V>>,
    tags_added: nat,
) -> StoreModel<Seq<char>, V, ()> {
    StoreModel {
        next_id: slots.len(),
        entries: Map::new(
            |i: nat| i < slots.len() && slots[i as int] is Some,
            |i: nat| EntryModel { data: (), tags: entry_tags_at(slots, values, i as int) },
        ),
        keys: kl.map_values(|p: (Seq<char>, IndexSlots)| p.0),
        key_tags: Seq::new(kl.len(), |k: int| key_tags_at(kl, values, k)),
        tags_added,
    }
}

/// The slots of a key's list with those of the entry `id` emptied.
pub open spec fn clear_slots(s: Seq<Option<Index>>, id: nat) -> Seq<Option<Index>> {
    s.map_values(
        |o: Option<Index>|
            match o {
                Some(ix) => if ix.entry.id() == id {
                    None
                } else {
                    o
                },
                None => None,
            },
    )
}

proof fn lemma_key_tags_step<V>(s: Seq<Option<Index>>, values: Seq<Vec<V>>)
    requires
        s.len() > 0,
    ensures
        key_tags_of(s, values) == match s.last() {
            Some(ix) => key_tags_of(s.drop_last(), values).push((ix.entry.id(), value_at(values, ix))),
            None => key_tags_of(s.drop_last(), values),
        },
{
    let f = filled_values(s.drop_last());
    match s.last() {
        Some(ix) => {
            assert(filled_values(s) == f.push(ix));
            assert(key_tags_of(s, values) =~= key_tags_of(s.drop_last(), values).push(
                (ix.entry.id(), value_at(values, ix)),
            ));
        },
        None => {
            assert(filled_values(s) == f);
        },
    }
}

proof fn lemma_key_tags_frame<V>(s: Seq<Option<Index>>, v1: Seq<Vec<V>>, v2: Seq<Vec<V>>)
    requires
        forall|j: int|
            0 <= j < s.len() && (#[trigger] s[j]) is Some ==> value_at(v1, s[j].unwrap()) == value_at(
                v2,
                s[j].unwrap(),
            ),
    ensures
        key_tags_of(s, v1) == key_tags_of(s, v2),
    decreases s.len(),
{
    if s.len() == 0 {
        assert(key_tags_of(s, v1) =~= key_tags_of(s, v2));
    } else {
        let s0 = s.drop_last();
        assert forall|j: int| 0 <= j < s0.len() && (#[trigger] s0[j]) is Some implies value_at(v1, s0[j].unwrap())
            == value_at(v2, s0[j].unwrap()) by {
            assert(s0[j] == s[j]);
        }
        lemma_key_tags_frame(s0, v1, v2);
        lemma_key_tags_step(s, v1);
        lemma_key_tags_step(s, v2);
        assert(s.last() == s[s.len() - 1]);
    }
}

proof fn lemma_key_tags_clear<V>(s: Seq<Option<Index>>, values: Seq<Vec<V>>, id: nat)
    ensures
        key_tags_of(clear_slots(s, id), values) == without_entry(key_tags_of(s, values), id),
    decreases s.len(),
{
    reveal(Seq::filter);
    if s.len() == 0 {
        assert(key_tags_of(clear_slots(s, id), values) =~= Seq::empty());
        assert(key_tags_of(s, values) =~= Seq::empty());
    } else {
        let s0 = s.drop_last();
        let c = clear_slots(s, id);
        lemma_key_tags_clear(s0, values, id);
        assert(c.drop_last() =~= clear_slots(s0, id));
        lemma_key_tags_step(s, values);
        lemma_key_tags_step(c, values);
        let k0 = key_tags_of(s0, values);
        match s.last() {
            Some(ix) => {
                let p = (ix.entry.id(), value_at(values, ix));
                assert(k0.push(p).drop_last() =~= k0);
                assert(key_tags_of(s, values) == k0.push(p));
            },
            None => {},
        }
    }
}

proof fn lemma_filled_values_in<T>(s: Seq<Option<T>>)
    ensures
        forall|i: int|
            0 <= i < filled_values(s).len() ==> exists|j: int|
                0 <= j < s.len() && s[j] == Some(#[trigger] filled_values(s)[i]),
    decreases s.len(),
{
    if s.len() > 0 {
        let s0 = s.drop_last();
        lemma_filled_values_in(s0);
        let f0 = filled_values(s0);
        assert forall|i: int| 0 <= i < filled_values(s).len() implies exists|j: int|
            0 <= j < s.len() && s[j] == Some(#[trigger] filled_values(s)[i]) by {
            if i < f0.len() {
                assert(filled_values(s)[i] == f0[i]);
                let j = choose|j: int| 0 <= j < s0.len() && s0[j] == Some(f0[i]);
                assert(s[j] == s0[j]);
            } else {
                assert(s[s.len() - 1] == Some(filled_values(s)[i]));
            }
        }
    }
}

/// A store whose entries each keep the list of their tags, and whose keys each
/// keep the positions of their tags.
///
/// Entries live in a stable vector, so that their indices keep the order of
/// insertion; the positions under each key live in an index map of stable
/// vectors, so that keys keep the order in which each first came and a tag's
/// slot stays where it is when another is removed.
pub struct IndexedStore<V, E = ()> {
    entries: TagListSlots,
    key_indices: IndexMap<String, IndexSlots>,
    /// The data of each entry, by the entry's index.
    data: Vec<Option<E>>,
    /// The values of each entry's tags, by the entry's index, in the order of
    /// its tags.
    values: Vec<Vec<V>>,
    /// The number of tags ever added.
    tags_added: Ghost<nat>,
}

impl<V, E> IndexedStore<V, E> {
    /// The entry slots, by index: the tag list of each existing entry.
    pub closed spec fn slots(&self) -> Seq<Option<TagList>> {
        tag_list_slots(self.entries)
    }

    /// The keys, in order, each with the slots of its tags.
    pub closed spec fn klists(&self) -> Seq<(Seq<char>, IndexSlots)> {
        index_lists(self.key_indices)
    }

    /// The slots of the tags under the key at position `k`.
    #[verifier::inline]
    pub open spec fn key_slots(&self, k: int) -> Seq<Option<Index>> {
        index_slots(self.klists()[k].1)
    }

    /// The tags of the entry in slot `i`, each where it sits under its key.
    #[verifier::inline]
    pub open spec fn refs(&self, i: int) -> Seq<TagRef> {
        self.slots()[i].unwrap().tags@
    }

    /// The entry in slot `i` as the model reads it.
    pub closed spec fn entry_view(&self, i: nat) -> EntryModel<V, E> {
        EntryModel {
            data: self.data@[i as int].unwrap(),
            tags: entry_tags_at(self.slots(), self.values@, i as int),
        }
    }

    /// The store as a value.
    pub closed spec fn view_model(&self) -> StoreModel<Seq<char>, V, E> {
        StoreModel {
            next_id: self.slots().len(),
            entries: Map::new(
                |i: nat| i < self.slots().len() && self.slots()[i as int] is Some,
                |i: nat| self.entry_view(i),
            ),
            keys: self.klists().map_values(|p: (Seq<char>, IndexSlots)| p.0),
            key_tags: Seq::new(self.klists().len(), |k: int| key_tags_at(self.klists(), self.values@, k)),
            tags_added: self.tags_added@,
        }
    }

    /// The store as a value with the data of its entries forgotten.
    pub closed spec fn tag_model(&self) -> StoreModel<Seq<char>, V, ()> {
        tags_view(self.slots(), self.klists(), self.values@, self.tags_added@)
    }

    proof fn lemma_tag_model(self)
        ensures
            self.view_model().erase() == self.tag_model(),
            self.view_model().wf() <==> self.tag_model().wf(),
    {
        let m = self.view_model();
        assert(m.erase().entries =~= self.tag_model().entries);
        assert(m.erase() =~= self.tag_model());
        crate::model::lemma_wf_erase(m);
    }

    /// No key occurs twice.
    pub closed spec fn keys_distinct(&self) -> bool {
        forall|a: int, b: int|
            0 <= a < b < self.klists().len() ==> self.klists()[a].0 != self.klists()[b].0
    }

    /// Every tag of an entry points at a slot of its key that points back at
    /// it.
    pub closed spec fn refs_ok(&self) -> bool {
        forall|i: int, t: int|
            0 <= i < self.slots().len() && self.slots()[i] is Some && 0 <= t < self.refs(i).len() ==> {
                let r = #[trigger] self.refs(i)[t];
                &&& r.key_index < self.klists().len()
                &&& r.index_index < self.key_slots(r.key_index as int).len()
                &&& self.key_slots(r.key_index as int)[r.index_index as int] matches Some(ix)
                    && ix.entry.id() == i && ix.tag == t
            }
    }

    /// Every filled slot of a key points at a tag of an entry that points back
    /// at it.
    pub closed spec fn back_ok(&self) -> bool {
        forall|k: int, j: int|
            0 <= k < self.klists().len() && 0 <= j < self.key_slots(k).len() && (#[trigger] self.key_slots(
                k,
            )[j]) is Some ==> {
                let ix = self.key_slots(k)[j].unwrap();
                &&& ix.entry.id() < self.slots().len()
                &&& self.slots()[ix.entry.id() as int] is Some
                &&& ix.tag < self.refs(ix.entry.id() as int).len()
                &&& self.refs(ix.entry.id() as int)[ix.tag as int].key_index == k
                &&& self.refs(ix.entry.id() as int)[ix.tag as int].index_index == j
            }
    }

    /// The store is consistent: data and values sit where entries exist, each
    /// tag and the slot of its key point at each other, and the store as a
    /// value (read here from the fields themselves) is well formed.
    pub closed spec fn inv(&self) -> bool {
        &&& self.slots().len() <= crate::model::max_entries()
        &&& self.data@.len() == self.slots().len()
        &&& self.values@.len() == self.slots().len()
        &&& forall|i: int|
            0 <= i < self.slots().len() ==> ((#[trigger] self.slots()[i]) is Some <==> self.data@[i] is Some)
        &&& forall|i: int|
            0 <= i < self.slots().len() && (#[trigger] self.slots()[i]) is Some ==> self.values@[i]@.len()
                == self.refs(i).len()
        &&& self.keys_distinct()
        &&& self.refs_ok()
        &&& self.back_ok()
        &&& tags_view(tag_list_slots(self.entries), index_lists(self.key_indices), self.values@, self.tags_added@).wf()
    }

    /// The tables that hold a slot per tag or per key hold no more slots than
    /// tags were added, and those never pass the limit of the tables: a stable
    /// vector never reuses the slot of a removed element.
    pub closed spec fn bounded(&self) -> bool {
        &&& self.tags_added@ <= max_tags()
        &&& self.klists().len() <= self.tags_added@
        &&& forall|k: int| 0 <= k < self.klists().len() ==> #[trigger] self.key_slots(k).len() <= self.tags_added@
    }

    /// How many more tags the tables can take: each tag ever added keeps a slot
    /// under its key.
    pub closed spec fn room(&self) -> nat {
        (max_tags() - self.tags_added@) as nat
    }

    /// The value of every filled slot of a key is the value of the tag it
    /// points at.
    proof fn lemma_slot_values(self, k: int)
        requires
            self.inv(),
            0 <= k < self.klists().len(),
        ensures
            forall|i: int|
                0 <= i < filled_values(self.key_slots(k)).len() ==> {
                    let ix = #[trigger] filled_values(self.key_slots(k))[i];
                    &&& ix.entry.id() < self.values@.len()
                    &&& ix.tag < self.values@[ix.entry.id() as int]@.len()
                },
    {
        lemma_filled_values_in(self.key_slots(k));
        assert forall|i: int| 0 <= i < filled_values(self.key_slots(k)).len() implies {
            let ix = #[trigger] filled_values(self.key_slots(k))[i];
            &&& ix.entry.id() < self.values@.len()
            &&& ix.tag < self.values@[ix.entry.id() as int]@.len()
        } by {
            let ix = filled_values(self.key_slots(k))[i];
            let j = choose|j: int| 0 <= j < self.key_slots(k).len() && self.key_slots(k)[j] == Some(ix);
            assert(self.key_slots(k)[j] is Some);
            assert(self.slots()[ix.entry.id() as int] is Some);
        }
    }

    /// After the key `kv` was looked up, and added where it was new, at
    /// position `ki`.
    proof fn lemma_interned(self, s0: Self, kv: Seq<char>, ki: usize)
        requires
            s0.inv(),
            s0.bounded(),
            self.entries == s0.entries,
            self.data == s0.data,
            self.values == s0.values,
            self.tags_added == s0.tags_added,
            ki < self.klists().len(),
            self.klists()[ki as int].0 == kv,
            (exists|i: int| 0 <= i < s0.klists().len() && s0.klists()[i].0 == kv) ==> self.key_indices
                == s0.key_indices,
            (forall|i: int| 0 <= i < s0.klists().len() ==> s0.klists()[i].0 != kv) ==> {
                &&& self.klists().len() == s0.klists().len() + 1
                &&& forall|x: int| 0 <= x < s0.klists().len() ==> #[trigger] self.klists()[x] == s0.klists()[x]
                &&& self.key_slots(s0.klists().len() as int).len() == 0
            },
        ensures
            self.inv(),
            ki == s0.view_model().key_position(kv),
            self.view_model() == s0.view_model().with_key(kv),
            self.klists().len() <= self.tags_added@ + 1,
            forall|k: int| 0 <= k < self.klists().len() ==> #[trigger] self.key_slots(k).len() <= self.tags_added@,
    {
        let m0 = s0.view_model();
        if exists|i: int| 0 <= i < s0.klists().len() && s0.klists()[i].0 == kv {
            assert(m0.keys[ki as int] == kv);
            assert(m0.keys.contains(kv));
            let j = m0.keys.index_of(kv);
            assert(m0.keys[j] == kv);
            if j < ki {
                assert(s0.klists()[j].0 != s0.klists()[ki as int].0);
            } else if ki < j {
                assert(s0.klists()[ki as int].0 != s0.klists()[j].0);
            }
            assert(self == s0);
        } else {
            assert(!m0.keys.contains(kv));
            let kl = self.klists();
            let n0 = s0.klists().len() as int;
            assert forall|x: int| 0 <= x < n0 implies #[trigger] self.key_slots(x) == s0.key_slots(x) by {
                assert(kl[x] == s0.klists()[x]);
            }
            assert forall|a: int, b: int| 0 <= a < b < kl.len() implies kl[a].0 != kl[b].0 by {
                assert(kl[a] == s0.klists()[a]);
                if b < n0 {
                    assert(kl[b] == s0.klists()[b]);
                }
            }
            assert(self.refs_ok()) by {
                assert forall|i: int, t: int|
                    0 <= i < self.slots().len() && self.slots()[i] is Some && 0 <= t < self.refs(i).len() implies {
                    let r = #[trigger] self.refs(i)[t];
                    &&& r.key_index < self.klists().len()
                    &&& r.index_index < self.key_slots(r.key_index as int).len()
                    &&& self.key_slots(r.key_index as int)[r.index_index as int] matches Some(ix)
                        && ix.entry.id() == i && ix.tag == t
                } by {
                    assert(self.refs(i) == s0.refs(i));
                    let r = self.refs(i)[t];
                    assert(self.key_slots(r.key_index as int) == s0.key_slots(r.key_index as int));
                }
            }
            assert(self.back_ok()) by {
                assert forall|k: int, j: int|
                    0 <= k < self.klists().len() && 0 <= j < self.key_slots(k).len() && (#[trigger] self.key_slots(
                        k,
                    )[j]) is Some implies {
                    let ix = self.key_slots(k)[j].unwrap();
                    &&& ix.entry.id() < self.slots().len()
                    &&& self.slots()[ix.entry.id() as int] is Some
                    &&& ix.tag < self.refs(ix.entry.id() as int).len()
                    &&& self.refs(ix.entry.id() as int)[ix.tag as int].key_index == k
                    &&& self.refs(ix.entry.id() as int)[ix.tag as int].index_index == j
                } by {
                    assert(k < n0);
                    assert(self.key_slots(k) == s0.key_slots(k));
                }
            }
            let m = self.view_model();
            assert(m.keys =~= m0.keys.push(kv));
            assert forall|k: int| 0 <= k < m.key_tags.len() implies #[trigger] m.key_tags[k] == m0.with_key(kv).key_tags[k] by {
                if k < n0 {
                    assert(self.key_slots(k) == s0.key_slots(k));
                } else {
                    assert(filled_values(self.key_slots(k)) =~= Seq::empty());
                    assert(m.key_tags[k] =~= Seq::empty());
                }
            }
            assert(m.key_tags =~= m0.with_key(kv).key_tags);
            assert(m.entries =~= m0.entries);
            assert(m =~= m0.with_key(kv));
            s0.lemma_tag_model();
            laws::lemma_with_key_wf(m0, kv);
            self.lemma_tag_model();
            assert forall|k: int| 0 <= k < self.klists().len() implies #[trigger] self.key_slots(k).len() <= self.tags_added@ by {
                if k < n0 {
                    assert(self.key_slots(k) == s0.key_slots(k));
                }
            }
        }
    }

    /// After a tag of the entry `id`, under the key at position `ki`, was
    /// added at position `ti` of the entry's list and in slot `ii` of the key's.
    proof fn lemma_tag_pushed(self, s1: Self, id: EntryId, ki: usize, ti: usize, ii: usize, v: V)
        requires
            s1.inv(),
            s1.tags_added@ < max_tags(),
            s1.klists().len() <= s1.tags_added@ + 1,
            forall|k: int| 0 <= k < s1.klists().len() ==> #[trigger] s1.key_slots(k).len() <= s1.tags_added@,
            id.id() < s1.slots().len(),
            s1.slots()[id.id() as int] is Some,
            ki < s1.klists().len(),
            ti == s1.refs(id.id() as int).len(),
            ii == s1.key_slots(ki as int).len(),
            self.slots().len() == s1.slots().len(),
            self.slots()[id.id() as int] is Some,
            self.refs(id.id() as int) == s1.refs(id.id() as int).push(TagRef { key_index: ki, index_index: ii }),
            forall|x: int| 0 <= x < s1.slots().len() && x != id.id() ==> #[trigger] self.slots()[x] == s1.slots()[x],
            self.klists().len() == s1.klists().len(),
            forall|k: int| 0 <= k < self.klists().len() ==> (#[trigger] self.klists()[k]).0 == s1.klists()[k].0,
            forall|k: int| 0 <= k < self.klists().len() && k != ki ==> #[trigger] self.key_slots(k) == s1.key_slots(k),
            self.key_slots(ki as int) == s1.key_slots(ki as int).push(Some(Index { entry: id, tag: ti })),
            self.data == s1.data,
            self.values@.len() == s1.values@.len(),
            self.values@[id.id() as int]@ == s1.values@[id.id() as int]@.push(v),
            forall|x: int| 0 <= x < s1.values@.len() && x != id.id() ==> #[trigger] self.values@[x] == s1.values@[x],
            self.tags_added@ == s1.tags_added@ + 1,
        ensures
            self.inv(),
            self.bounded(),
            self.view_model() == s1.view_model().push_tag(id.id(), ki as nat, v),
    {
        let idi = id.id() as int;
        let kii = ki as int;
        let slots = self.slots();
        assert forall|i: int| 0 <= i < slots.len() implies ((#[trigger] slots[i]) is Some <==> self.data@[i] is Some) by {
            if i != idi {
                assert(slots[i] == s1.slots()[i]);
            }
        }
        assert forall|i: int| 0 <= i < slots.len() && (#[trigger] slots[i]) is Some implies self.values@[i]@.len()
            == self.refs(i).len() by {
            if i != idi {
                assert(slots[i] == s1.slots()[i]);
            }
        }
        assert(self.keys_distinct()) by {
            assert forall|a: int, b: int| 0 <= a < b < self.klists().len() implies self.klists()[a].0 != self.klists()[b].0 by {
                assert(self.klists()[a].0 == s1.klists()[a].0);
                assert(self.klists()[b].0 == s1.klists()[b].0);
            }
        }
        assert(self.refs_ok()) by {
            assert forall|i: int, t: int|
                0 <= i < slots.len() && slots[i] is Some && 0 <= t < self.refs(i).len() implies {
                let r = #[trigger] self.refs(i)[t];
                &&& r.key_index < self.klists().len()
                &&& r.index_index < self.key_slots(r.key_index as int).len()
                &&& self.key_slots(r.key_index as int)[r.index_index as int] matches Some(ix)
                    && ix.entry.id() == i && ix.tag == t
            } by {
                if i == idi && t == ti {
                } else {
                    if i != idi {
                        assert(slots[i] == s1.slots()[i]);
                        assert(self.refs(i) == s1.refs(i));
                    }
                    let r = s1.refs(i)[t];
                    assert(self.refs(i)[t] == r);
                    assert(s1.refs(i)[t] == r);
                    let rk = r.key_index as int;
                    if rk == kii {
                        assert(self.key_slots(rk)[r.index_index as int] == s1.key_slots(rk)[r.index_index as int]);
                    } else {
                        assert(self.key_slots(rk) == s1.key_slots(rk));
                    }
                }
            }
        }
        assert(self.back_ok()) by {
            assert forall|k: int, j: int|
                0 <= k < self.klists().len() && 0 <= j < self.key_slots(k).len() && (#[trigger] self.key_slots(
                    k,
                )[j]) is Some implies {
                let ix = self.key_slots(k)[j].unwrap();
                &&& ix.entry.id() < self.slots().len()
                &&& self.slots()[ix.entry.id() as int] is Some
                &&& ix.tag < self.refs(ix.entry.id() as int).len()
                &&& self.refs(ix.entry.id() as int)[ix.tag as int].key_index == k
                &&& self.refs(ix.entry.id() as int)[ix.tag as int].index_index == j
            } by {
                if k == kii && j == ii {
                } else {
                    if k == kii {
                        assert(self.key_slots(k)[j] == s1.key_slots(k)[j]);
                    } else {
                        assert(self.key_slots(k) == s1.key_slots(k));
                    }
                    assert(s1.key_slots(k)[j] is Some);
                    let e = s1.key_slots(k)[j].unwrap().entry.id() as int;
                    let tg = s1.key_slots(k)[j].unwrap().tag as int;
                    if e != idi {
                        assert(slots[e] == s1.slots()[e]);
                    } else {
                        assert(self.refs(e)[tg] == s1.refs(e)[tg]);
                    }
                }
            }
        }
        let m1 = s1.view_model();
        let m = self.view_model();
        let goal = m1.push_tag(id.id(), ki as nat, v);
        assert(m.entries.dom() =~= goal.entries.dom()) by {
            assert forall|i: nat| #[trigger] m.entries.contains_key(i) <==> goal.entries.contains_key(i) by {
                if i < slots.len() && i != idi {
                    assert(slots[i as int] == s1.slots()[i as int]);
                }
            }
        }
        assert forall|i: nat| #[trigger] m.entries.contains_key(i) implies m.entries[i] == goal.entries[i] by {
            if i == idi {
                assert(entry_tags(self.refs(idi), self.values@[idi]@) =~= entry_tags(s1.refs(idi), s1.values@[idi]@).push(
                    (ki as nat, v),
                ));
            } else {
                assert(slots[i as int] == s1.slots()[i as int]);
                assert(self.values@[i as int] == s1.values@[i as int]);
            }
        }
        assert(m.entries =~= goal.entries);
        assert(m.keys =~= goal.keys);
        assert forall|k: int| 0 <= k < m.key_tags.len() implies #[trigger] m.key_tags[k] == goal.key_tags[k] by {
            let ks = s1.key_slots(k);
            assert forall|j: int| 0 <= j < ks.len() && (#[trigger] ks[j]) is Some implies value_at(self.values@, ks[j].unwrap())
                == value_at(s1.values@, ks[j].unwrap()) by {
                let e = ks[j].unwrap().entry.id() as int;
                if e == idi {
                    assert(ks[j].unwrap().tag < s1.refs(idi).len());
                } else {
                    assert(self.values@[e] == s1.values@[e]);
                }
            }
            lemma_key_tags_frame(ks, self.values@, s1.values@);
            if k == kii {
                lemma_key_tags_step(self.key_slots(k), self.values@);
                assert(self.key_slots(k).drop_last() =~= ks);
            } else {
                assert(self.key_slots(k) == ks);
            }
        }
        assert(m.key_tags =~= goal.key_tags);
        assert(m =~= goal);
        s1.lemma_tag_model();
        laws::lemma_push_tag_wf(m1, id.id(), ki as nat, v);
        self.lemma_tag_model();
        assert forall|k: int| 0 <= k < self.klists().len() implies #[trigger] self.key_slots(k).len() <= self.tags_added@ by {
            if k != kii {
                assert(self.key_slots(k) == s1.key_slots(k));
            }
        }
    }

    /// After every tag of the entry `id` was taken off its list and out of its
    /// key's slot, and its values dropped.
    proof fn lemma_cleared(self, s0: Self, id: EntryId, gone: Set<(int, int)>)
        requires
            s0.inv(),
            s0.bounded(),
            id.id() < s0.slots().len(),
            s0.slots()[id.id() as int] is Some,
            self.slots().len() == s0.slots().len(),
            self.slots()[id.id() as int] is Some,
            self.refs(id.id() as int).len() == 0,
            forall|x: int| 0 <= x < s0.slots().len() && x != id.id() ==> #[trigger] self.slots()[x] == s0.slots()[x],
            self.data == s0.data,
            self.values@.len() == s0.values@.len(),
            self.values@[id.id() as int]@.len() == 0,
            forall|x: int| 0 <= x < s0.values@.len() && x != id.id() ==> #[trigger] self.values@[x] == s0.values@[x],
            self.tags_added == s0.tags_added,
            self.klists().len() == s0.klists().len(),
            forall|k: int| 0 <= k < self.klists().len() ==> (#[trigger] self.klists()[k]).0 == s0.klists()[k].0,
            forall|k: int| 0 <= k < self.klists().len() ==> (#[trigger] self.key_slots(k)).len() == s0.key_slots(k).len(),
            forall|k: int, j: int|
                0 <= k < self.klists().len() && 0 <= j < self.key_slots(k).len() ==> #[trigger] self.key_slots(k)[j] == if gone.contains((k, j)) {
                    None
                } else {
                    s0.key_slots(k)[j]
                },
            forall|x: int|
                0 <= x < s0.refs(id.id() as int).len() ==> gone.contains(
                    (#[trigger] s0.refs(id.id() as int)[x].key_index as int, s0.refs(id.id() as int)[x].index_index as int),
                ),
            forall|p: (int, int)| #[trigger] gone.contains(p) ==> {
                &&& 0 <= p.0 < s0.klists().len()
                &&& 0 <= p.1 < s0.key_slots(p.0).len()
                &&& s0.key_slots(p.0)[p.1] matches Some(ix) && ix.entry.id() == id.id()
            },
        ensures
            self.inv(),
            self.bounded(),
            self.view_model() == s0.view_model().clear_entry(id.id()),
    {
        let idi = id.id() as int;
        let slots = self.slots();
        assert forall|k: int| 0 <= k < self.klists().len() implies #[trigger] self.key_slots(k) == clear_slots(s0.key_slots(k), id.id()) by {
            let a = self.key_slots(k);
            let b = clear_slots(s0.key_slots(k), id.id());
            assert forall|j: int| 0 <= j < a.len() implies a[j] == b[j] by {
                let o = s0.key_slots(k)[j];
                if o is Some && o.unwrap().entry.id() == id.id() {
                    let ix = o.unwrap();
                    assert(ix.tag < s0.refs(idi).len());
                    let r = s0.refs(idi)[ix.tag as int];
                    assert(r.key_index == k && r.index_index == j);
                    assert(gone.contains((r.key_index as int, r.index_index as int)));
                } else if gone.contains((k, j)) {
                } else {
                }
            }
            assert(a =~= b);
        }
        assert forall|i: int| 0 <= i < slots.len() implies ((#[trigger] slots[i]) is Some <==> self.data@[i] is Some) by {
            if i != idi {
                assert(slots[i] == s0.slots()[i]);
            }
        }
        assert forall|i: int| 0 <= i < slots.len() && (#[trigger] slots[i]) is Some implies self.values@[i]@.len()
            == self.refs(i).len() by {
            if i != idi {
                assert(slots[i] == s0.slots()[i]);
            }
        }
        assert(self.keys_distinct()) by {
            assert forall|a: int, b: int| 0 <= a < b < self.klists().len() implies self.klists()[a].0 != self.klists()[b].0 by {
                assert(self.klists()[a].0 == s0.klists()[a].0);
                assert(self.klists()[b].0 == s0.klists()[b].0);
            }
        }
        assert(self.refs_ok()) by {
            assert forall|i: int, t: int|
                0 <= i < slots.len() && slots[i] is Some && 0 <= t < self.refs(i).len() implies {
                let r = #[trigger] self.refs(i)[t];
                &&& r.key_index < self.klists().len()
                &&& r.index_index < self.key_slots(r.key_index as int).len()
                &&& self.key_slots(r.key_index as int)[r.index_index as int] matches Some(ix)
                    && ix.entry.id() == i && ix.tag == t
            } by {
                assert(i != idi);
                assert(slots[i] == s0.slots()[i]);
                assert(self.refs(i) == s0.refs(i));
                let r = s0.refs(i)[t];
                assert(s0.refs(i)[t] == r);
                let rk = r.key_index as int;
                let rj = r.index_index as int;
                assert(!gone.contains((rk, rj)));
                assert(self.key_slots(rk)[rj] == s0.key_slots(rk)[rj]);
            }
        }
        assert(self.back_ok()) by {
            assert forall|k: int, j: int|
                0 <= k < self.klists().len() && 0 <= j < self.key_slots(k).len() && (#[trigger] self.key_slots(
                    k,
                )[j]) is Some implies {
                let ix = self.key_slots(k)[j].unwrap();
                &&& ix.entry.id() < self.slots().len()
                &&& self.slots()[ix.entry.id() as int] is Some
                &&& ix.tag < self.refs(ix.entry.id() as int).len()
                &&& self.refs(ix.entry.id() as int)[ix.tag as int].key_index == k
                &&& self.refs(ix.entry.id() as int)[ix.tag as int].index_index == j
            } by {
                assert(self.key_slots(k) == clear_slots(s0.key_slots(k), id.id()));
                assert(s0.key_slots(k)[j] is Some);
                let e = s0.key_slots(k)[j].unwrap().entry.id() as int;
                assert(e != idi);
                assert(slots[e] == s0.slots()[e]);
            }
        }
        let m0 = s0.view_model();
        let m = self.view_model();
        let goal = m0.clear_entry(id.id());
        assert(m.entries.dom() =~= goal.entries.dom()) by {
            assert forall|i: nat| #[trigger] m.entries.contains_key(i) <==> goal.entries.contains_key(i) by {
                if i < slots.len() && i != idi {
                    assert(slots[i as int] == s0.slots()[i as int]);
                }
            }
        }
        assert forall|i: nat| #[trigger] m.entries.contains_key(i) implies m.entries[i] == goal.entries[i] by {
            if i == idi {
                assert(entry_tags(self.refs(idi), self.values@[idi]@) =~= Seq::empty());
            } else {
                assert(slots[i as int] == s0.slots()[i as int]);
                assert(self.values@[i as int] == s0.values@[i as int]);
            }
        }
        assert(m.entries =~= goal.entries);
        assert(m.keys =~= goal.keys);
        assert forall|k: int| 0 <= k < m.key_tags.len() implies #[trigger] m.key_tags[k] == goal.key_tags[k] by {
            let ks = self.key_slots(k);
            assert(ks == clear_slots(s0.key_slots(k), id.id()));
            assert forall|j: int| 0 <= j < ks.len() && (#[trigger] ks[j]) is Some implies value_at(self.values@, ks[j].unwrap())
                == value_at(s0.values@, ks[j].unwrap()) by {
                let e = ks[j].unwrap().entry.id() as int;
                assert(e != idi);
                assert(self.values@[e] == s0.values@[e]);
            }
            lemma_key_tags_frame(ks, self.values@, s0.values@);
            lemma_key_tags_clear(s0.key_slots(k), s0.values@, id.id());
        }
        assert(m.key_tags =~= goal.key_tags);
        assert(m =~= goal);
        s0.lemma_tag_model();
        laws::lemma_clear_entry_wf(m0, id.id());
        self.lemma_tag_model();
    }

    /// After the slot of the entry `id`, which had no tags left, was emptied.
    proof fn lemma_removed(self, s1: Self, id: EntryId, m0: StoreModel<Seq<char>, V, E>)
        requires
            s1.inv(),
            s1.bounded(),
            m0.wf(),
            m0.entries.contains_key(id.id()),
            s1.view_model() == m0.clear_entry(id.id()),
            id.id() < s1.slots().len(),
            s1.slots()[id.id() as int] is Some,
            s1.refs(id.id() as int).len() == 0,
            self.slots() == s1.slots().update(id.id() as int, None),
            self.data@ == s1.data@.update(id.id() as int, None),
            self.values == s1.values,
            self.key_indices == s1.key_indices,
            self.tags_added == s1.tags_added,
        ensures
            self.inv(),
            self.bounded(),
            self.view_model() == m0.remove_entry(id.id()),
    {
        let idi = id.id() as int;
        let slots = self.slots();
        assert(self.klists() == s1.klists());
        assert forall|i: int| 0 <= i < slots.len() implies ((#[trigger] slots[i]) is Some <==> self.data@[i] is Some) by {
            if i != idi {
                assert(slots[i] == s1.slots()[i]);
            }
        }
        assert forall|i: int| 0 <= i < slots.len() && (#[trigger] slots[i]) is Some implies self.values@[i]@.len()
            == self.refs(i).len() by {
            assert(slots[i] == s1.slots()[i]);
        }
        assert(self.refs_ok()) by {
            assert forall|i: int, t: int|
                0 <= i < slots.len() && slots[i] is Some && 0 <= t < self.refs(i).len() implies {
                let r = #[trigger] self.refs(i)[t];
                &&& r.key_index < self.klists().len()
                &&& r.index_index < self.key_slots(r.key_index as int).len()
                &&& self.key_slots(r.key_index as int)[r.index_index as int] matches Some(ix)
                    && ix.entry.id() == i && ix.tag == t
            } by {
                assert(slots[i] == s1.slots()[i]);
                assert(self.refs(i) == s1.refs(i));
                let r = s1.refs(i)[t];
                assert(self.key_slots(r.key_index as int) == s1.key_slots(r.key_index as int));
            }
        }
        assert(self.back_ok()) by {
            assert forall|k: int, j: int|
                0 <= k < self.klists().len() && 0 <= j < self.key_slots(k).len() && (#[trigger] self.key_slots(
                    k,
                )[j]) is Some implies {
                let ix = self.key_slots(k)[j].unwrap();
                &&& ix.entry.id() < self.slots().len()
                &&& self.slots()[ix.entry.id() as int] is Some
                &&& ix.tag < self.refs(ix.entry.id() as int).len()
                &&& self.refs(ix.entry.id() as int)[ix.tag as int].key_index == k
                &&& self.refs(ix.entry.id() as int)[ix.tag as int].index_index == j
            } by {
                assert(self.key_slots(k) == s1.key_slots(k));
                assert(s1.key_slots(k)[j] is Some);
                let e = s1.key_slots(k)[j].unwrap().entry.id() as int;
                assert(e != idi);
                assert(slots[e] == s1.slots()[e]);
            }
        }
        let m1 = s1.view_model();
        let m = self.view_model();
        let goal = m0.remove_entry(id.id());
        assert(m.entries.dom() =~= goal.entries.dom()) by {
            assert forall|i: nat| #[trigger] m.entries.contains_key(i) <==> goal.entries.contains_key(i) by {
                if i < slots.len() && i != idi {
                    assert(slots[i as int] == s1.slots()[i as int]);
                }
            }
        }
        assert forall|i: nat| #[trigger] m.entries.contains_key(i) implies m.entries[i] == goal.entries[i] by {
            assert(slots[i as int] == s1.slots()[i as int]);
            assert(m1.entries.contains_key(i));
        }
        assert(m.entries =~= goal.entries);
        assert(m.keys =~= goal.keys);
        assert(m.key_tags =~= goal.key_tags);
        assert(m =~= goal);
        laws::lemma_remove_entry_wf(m0, id.id());
        self.lemma_tag_model();
        assert forall|k: int| 0 <= k < self.klists().len() implies #[trigger] self.key_slots(k).len() <= self.tags_added@ by {
            assert(self.key_slots(k) == s1.key_slots(k));
        }
    }

    /// After the data of every entry was replaced, in increasing order of
    /// index, by the elements of `finals`.
    proof fn lemma_refilled(self, s0: Self, finals: Seq<E>)
        requires
            s0.inv(),
            s0.bounded(),
            self.entries == s0.entries,
            self.key_indices == s0.key_indices,
            self.values == s0.values,
            self.tags_added == s0.tags_added,
            self.data@ == refill(s0.data@, finals),
            finals.len() == s0.view_model().live_ids().len(),
        ensures
            self.inv(),
            self.bounded(),
            self.view_model() == s0.view_model().set_all_data(s0.view_model().live_ids(), finals),
    {
        let m0 = s0.view_model();
        let live = m0.live_ids();
        let d0 = s0.data@;
        s0.lemma_tag_model();
        laws::law_live_ids(m0);
        assert(slots_match(d0, m0));
        lemma_filled_indices(d0, m0);
        lemma_refill(d0, finals);
        let fi = filled_indices(d0);
        assert forall|i: int| 0 <= i < d0.len() && d0[i] is Some implies self.data@[i] == Some(
            finals[live.index_of(i as nat)],
        ) by {
            assert(m0.entries.contains_key(i as nat));
            assert(live.contains(i as nat));
            let k = live.index_of(i as nat);
            assert(live[k] == i);
            assert(fi[k] as nat == live[k]);
        }
        let slots = self.slots();
        assert forall|i: int| 0 <= i < slots.len() implies ((#[trigger] slots[i]) is Some <==> self.data@[i] is Some) by {
            assert(slots[i] == s0.slots()[i]);
        }
        let m = self.view_model();
        let goal = m0.set_all_data(live, finals);
        assert(m.entries.dom() =~= goal.entries.dom());
        assert forall|i: nat| #[trigger] m.entries.contains_key(i) implies m.entries[i] == goal.entries[i] by {
            assert(m0.entries.contains_key(i));
            assert(live.contains(i));
            assert(self.entry_view(i).tags == s0.entry_view(i).tags);
        }
        assert(m.entries =~= goal.entries);
        assert(m =~= goal);
    }

    /// An empty store.
    pub fn new() -> (s: Self)
        ensures
            s.inv(),
            s.bounded(),
            s.view_model() == StoreModel::<Seq<char>, V, E>::empty(),
            s.room() == crate::model::max_tags(),
    {
        let s = IndexedStore {
            entries: tag_lists_new(),
            key_indices: index_lists_new(),
            data: Vec::new(),
            values: Vec::new(),
            tags_added: Ghost(0),
        };
        assert(s.view_model().entries =~= Map::empty());
        assert(s.view_model().keys =~= Seq::empty());
        assert(s.view_model().key_tags =~= Seq::empty());
        assert(s.view_model() =~= StoreModel::<Seq<char>, V, E>::empty());
        proof {
            laws::lemma_empty_wf::<Seq<char>, V, E>();
            s.lemma_tag_model();
        }
        s
    }
}

impl<V, E> Default for IndexedStore<V, E> {
    /// An empty store.
    fn default() -> (s: Self)
        ensures
            s.inv(),
            s.bounded(),
            s.view_model() == StoreModel::<Seq<char>, V, E>::empty(),
            s.room() == crate::model::max_tags(),
    {
        Self::new()
    }
}

impl<V, E> Store<String, V, E> for IndexedStore<V, E> {
    open spec fn wf(&self) -> bool {
        self.inv() && self.bounded()
    }

    open spec fn model(&self) -> StoreModel<Seq<char>, V, E> {
        self.view_model()
    }

    open spec fn tag_room(&self) -> nat {
        self.room()
    }

    proof fn lemma_model_wf(&self) {
        self.lemma_tag_model();
    }

    fn len(&self) -> (n: usize) {
        proof {
            lemma_count_filled(self.slots());
            assert(self.view_model().entries.dom() =~= Set::new(
                |i: nat| i < self.slots().len() && self.slots()[i as int] is Some,
            ));
        }
        tag_lists_num_elements(&self.entries)
    }

    fn is_empty(&self) -> (b: bool) {
        proof {
            lemma_count_filled(self.slots());
            assert(self.view_model().entries.dom() =~= Set::new(
                |i: nat| i < self.slots().len() && self.slots()[i as int] is Some,
            ));
        }
        tag_lists_is_empty(&self.entries)
    }

    fn insert_entry(&mut self, data: E) -> (id: EntryId) {
        let ghost s0 = *self;
        let index = tag_lists_push(&mut self.entries, TagList { tags: Vec::new() });
        self.data.push(Some(data));
        self.values.push(Vec::new());
        let id = EntryId(index);
        proof {
            id.lemma_id();
            let slots = self.slots();
            let n0 = s0.slots().len() as int;
            assert(self.klists() == s0.klists());
            assert forall|i: int| 0 <= i < slots.len() implies ((#[trigger] slots[i]) is Some <==> self.data@[i] is Some) by {
                if i < n0 {
                    assert(slots[i] == s0.slots()[i]);
                }
            }
            assert forall|i: int| 0 <= i < slots.len() && (#[trigger] slots[i]) is Some implies self.values@[i]@.len()
                == self.refs(i).len() by {
                if i < n0 {
                    assert(slots[i] == s0.slots()[i]);
                }
            }
            assert(self.refs_ok()) by {
                assert forall|i: int, t: int|
                    0 <= i < slots.len() && slots[i] is Some && 0 <= t < self.refs(i).len() implies {
                    let r = #[trigger] self.refs(i)[t];
                    &&& r.key_index < self.klists().len()
                    &&& r.index_index < self.key_slots(r.key_index as int).len()
                    &&& self.key_slots(r.key_index as int)[r.index_index as int] matches Some(ix)
                        && ix.entry.id() == i && ix.tag == t
                } by {
                    assert(i < n0);
                    assert(slots[i] == s0.slots()[i]);
                    assert(self.refs(i) == s0.refs(i));
                }
            }
            assert(self.back_ok()) by {
                assert forall|k: int, j: int|
                    0 <= k < self.klists().len() && 0 <= j < self.key_slots(k).len() && (#[trigger] self.key_slots(
                        k,
                    )[j]) is Some implies {
                    let ix = self.key_slots(k)[j].unwrap();
                    &&& ix.entry.id() < self.slots().len()
                    &&& self.slots()[ix.entry.id() as int] is Some
                    &&& ix.tag < self.refs(ix.entry.id() as int).len()
                    &&& self.refs(ix.entry.id() as int)[ix.tag as int].key_index == k
                    &&& self.refs(ix.entry.id() as int)[ix.tag as int].index_index == j
                } by {
                    assert(self.key_slots(k) == s0.key_slots(k));
                    let e = self.key_slots(k)[j].unwrap().entry.id() as int;
                    assert(slots[e] == s0.slots()[e]);
                }
            }
            let m0 = s0.view_model();
            let m = self.view_model();
            assert forall|i: nat| #[trigger] m.entries.contains_key(i) implies m.entries[i] == m0.insert_entry(data).entries[i] by {
                if i < n0 {
                    assert(slots[i as int] == s0.slots()[i as int]);
                    assert(self.values@[i as int] == s0.values@[i as int]);
                } else {
                    assert(entry_tags(self.refs(i as int), self.values@[i as int]@) =~= Seq::empty());
                }
            }
            assert(m.entries =~= m0.insert_entry(data).entries);
            assert forall|k: int| 0 <= k < m.key_tags.len() implies #[trigger] m.key_tags[k] == m0.key_tags[k] by {
                let ks = self.key_slots(k);
                assert(ks == s0.key_slots(k));
                assert forall|j: int| 0 <= j < ks.len() && (#[trigger] ks[j]) is Some implies value_at(self.values@, ks[j].unwrap())
                    == value_at(s0.values@, ks[j].unwrap()) by {
                    let e = ks[j].unwrap().entry.id() as int;
                    assert(self.values@[e] == s0.values@[e]);
                }
                lemma_key_tags_frame(ks, self.values@, s0.values@);
            }
            assert(m.key_tags =~= m0.key_tags);
            assert(m =~= m0.insert_entry(data));
            s0.lemma_tag_model();
            laws::lemma_insert_entry_wf(m0, data);
            self.lemma_tag_model();
        }
        id
    }

    fn insert_tag(&mut self, id: EntryId, k: String, v: V) {
        let ghost s0 = *self;
        let ghost kv = k@;
        proof {
            id.lemma_id();
        }
        let key_index = match index_lists_get_index_of(&self.key_indices, &k) {
            Some(i) => i,
            None => index_lists_insert_full(&mut self.key_indices, k, index_slots_new()).0,
        };
        let ghost s1 = *self;
        proof {
            self.lemma_interned(s0, kv, key_index);
        }
        let tag_index = tag_lists_get(&self.entries, id.0).tags.len();
        proof {
            assert(self.key_slots(key_index as int).len() <= self.tags_added@);
        }
        let list = index_lists_get_mut(&mut self.key_indices, key_index);
        let index_index = index_slots_push(list, Index { entry: id, tag: tag_index });
        let tags = tag_lists_get_mut(&mut self.entries, id.0);
        tags.tags.push(TagRef { key_index, index_index });
        self.values[id.0].push(v);
        proof {
            self.tags_added@ = self.tags_added@ + 1;
            self.lemma_tag_pushed(s1, id, key_index, tag_index, index_index, v);
        }
    }

    fn remove_entry(&mut self, id: EntryId) -> (data: E) {
        let ghost s0 = *self;
        self.clear_entry(id);
        let ghost s1 = *self;
        proof {
            id.lemma_id();
            assert(s1.view_model().entries.contains_key(id.id()));
            assert(s1.view_model().entries[id.id()].tags.len() == 0);
            assert(s1.view_model().entries[id.id()] == s1.entry_view(id.id()));
        }
        let _ = tag_lists_remove(&mut self.entries, id.0);
        let data = self.data[id.0].take();
        proof {
            s0.lemma_tag_model();
            self.lemma_removed(s1, id, s0.view_model());
            assert(s1.view_model().entries[id.id()].data == s1.data@[id.id() as int].unwrap());
        }
        data.unwrap()
    }

    fn clear_entry(&mut self, id: EntryId) {
        let ghost s0 = *self;
        let ghost idi = id.0 as int;
        proof {
            id.lemma_id();
        }
        let mut refs: Vec<TagRef> = Vec::new();
        let tags = tag_lists_get_mut(&mut self.entries, id.0);
        std::mem::swap(&mut refs, &mut tags.tags);
        self.values.set(id.0, Vec::new());
        let ghost mut gone: Set<(int, int)> = Set::empty();
        let mut i: usize = 0;
        while i < refs.len()
            invariant
                s0.inv(),
                s0.bounded(),
                0 <= idi < s0.slots().len(),
                idi == id.id(),
                s0.slots()[idi] is Some,
                refs@ == s0.refs(idi),
                0 <= i <= refs@.len(),
                self.slots().len() == s0.slots().len(),
                self.slots()[idi] is Some,
                self.refs(idi).len() == 0,
                forall|x: int| 0 <= x < s0.slots().len() && x != idi ==> #[trigger] self.slots()[x] == s0.slots()[x],
                self.data == s0.data,
                self.values@.len() == s0.values@.len(),
                self.values@[idi]@.len() == 0,
                forall|x: int| 0 <= x < s0.values@.len() && x != idi ==> #[trigger] self.values@[x] == s0.values@[x],
                self.tags_added == s0.tags_added,
                self.klists().len() == s0.klists().len(),
                forall|k: int| 0 <= k < self.klists().len() ==> (#[trigger] self.klists()[k]).0 == s0.klists()[k].0,
                forall|k: int| 0 <= k < self.klists().len() ==> (#[trigger] self.key_slots(k)).len() == s0.key_slots(k).len(),
                forall|k: int, j: int|
                    0 <= k < self.klists().len() && 0 <= j < self.key_slots(k).len() ==> #[trigger] self.key_slots(k)[j] == if gone.contains((k, j)) {
                        None
                    } else {
                        s0.key_slots(k)[j]
                    },
                forall|x: int| 0 <= x < i ==> gone.contains((#[trigger] refs@[x].key_index as int, refs@[x].index_index as int)),
                forall|p: (int, int)| #[trigger] gone.contains(p) ==> {
                    &&& 0 <= p.0 < s0.klists().len()
                    &&& 0 <= p.1 < s0.key_slots(p.0).len()
                    &&& s0.key_slots(p.0)[p.1] matches Some(ix) && ix.entry.id() == idi
                },
            decreases refs@.len() - i,
        {
            let r = refs[i];
            proof {
                assert(s0.refs(idi)[i as int] == r);
                assert(self.key_slots(r.key_index as int).len() == s0.key_slots(r.key_index as int).len());
            }
            let ghost before = *self;
            let list = index_lists_get_mut(&mut self.key_indices, r.key_index);
            let _ = index_slots_remove(list, r.index_index);
            proof {
                let ki = r.key_index as int;
                let ii = r.index_index as int;
                assert(self.key_slots(ki) == before.key_slots(ki).update(ii, None));
                assert forall|k: int| 0 <= k < self.klists().len() && k != ki implies #[trigger] self.key_slots(k)
                    == before.key_slots(k) by {
                    assert(self.klists()[k] == before.klists()[k]);
                }
                gone = gone.insert((ki, ii));
            }
            i = i + 1;
        }
        proof {
            self.lemma_cleared(s0, id, gone);
        }
    }

    fn entry_data(&self, id: EntryId) -> (data: &E) {
        proof {
            id.lemma_id();
            assert(self.view_model().entries[id.id()] == self.entry_view(id.id()));
        }
        self.data[id.0].as_ref().unwrap()
    }

    fn entry_data_mut(&mut self, id: EntryId) -> (data: &mut E) {
        proof {
            id.lemma_id();
            assert(self.view_model().entries[id.id()] == self.entry_view(id.id()));
        }
        self.data[id.0].as_mut().unwrap()
    }

    fn entries(&self) -> (r: Vec<(EntryId, &E)>) {
        let ids = tag_lists_indices(&self.entries);
        let ghost live = self.view_model().live_ids();
        proof {
            assert(slots_match(self.slots(), self.view_model()));
            lemma_filled_indices(self.slots(), self.view_model());
        }
        let mut r: Vec<(EntryId, &E)> = Vec::new();
        let mut i: usize = 0;
        while i < ids.len()
            invariant
                self.inv(),
                ids@ == filled_indices(self.slots()),
                ids@.len() == live.len(),
                live == self.view_model().live_ids(),
                forall|x: int| 0 <= x < ids@.len() ==> ids@[x] as nat == live[x],
                forall|x: int| 0 <= x < ids@.len() ==> ids@[x] < self.slots().len() && self.slots()[ids@[x] as int] is Some,
                i <= ids@.len(),
                r@.len() == i,
                forall|x: int| 0 <= x < i ==> r@[x].0.id() == live[x] && *r@[x].1 == self.view_model().entries[live[x]].data,
            decreases ids@.len() - i,
        {
            let index = ids[i];
            let id = EntryId(index);
            proof {
                id.lemma_id();
                assert(self.slots()[index as int] is Some);
            }
            r.push((id, self.data[index].as_ref().unwrap()));
            i = i + 1;
        }
        r
    }

    fn entries_mut(&mut self) -> (r: Vec<(EntryId, &mut E)>) {
        let ghost s0 = *self;
        let ghost live = s0.view_model().live_ids();
        proof {
            assert(slots_match(s0.data@, s0.view_model()));
            lemma_filled_indices(s0.data@, s0.view_model());
            s0.lemma_tag_model();
            laws::law_live_ids(s0.view_model());
        }
        let r = filled_mut(&mut self.data);
        proof {
            let finals = Seq::new(r@.len(), |i: int| *final(r@[i].1));
            let fin = after_borrow(*self);
            fin.lemma_refilled(s0, finals);
            assert forall|i: int| 0 <= i < r@.len() implies r@[i].0.id() == live[i] && *r@[i].1
                == s0.view_model().entries[live[i]].data by {
                let fi = filled_indices(s0.data@);
                assert(r@[i].0.id() == fi[i]);
                assert(fi[i] as nat == live[i]);
                assert(s0.data@[live[i] as int] == Some(*r@[i].1));
                assert(s0.view_model().entries.contains_key(live[i]));
                assert(s0.view_model().entries[live[i]] == s0.entry_view(live[i]));
            }
        }
        r
    }

    fn entry_ids(&self) -> (r: Vec<EntryId>) {
        let ids = tag_lists_indices(&self.entries);
        let ghost live = self.view_model().live_ids();
        proof {
            assert(slots_match(self.slots(), self.view_model()));
            lemma_filled_indices(self.slots(), self.view_model());
        }
        let mut r: Vec<EntryId> = Vec::new();
        let mut i: usize = 0;
        while i < ids.len()
            invariant
                ids@.len() == live.len(),
                forall|x: int| 0 <= x < ids@.len() ==> ids@[x] as nat == live[x],
                i <= ids@.len(),
                r@.len() == i,
                forall|x: int| 0 <= x < i ==> r@[x].id() == live[x],
            decreases ids@.len() - i,
        {
            let id = EntryId(ids[i]);
            proof {
                id.lemma_id();
            }
            r.push(id);
            i = i + 1;
        }
        r
    }

    fn keys(&self) -> (r: Vec<&String>) {
        index_lists_keys(&self.key_indices)
    }

    fn tags_by_entry(&self, id: EntryId) -> (r: Vec<(&String, &V)>) {
        proof {
            id.lemma_id();
        }
        let ghost tags = self.view_model().entries[id.id()].tags;
        let list = tag_lists_get(&self.entries, id.0);
        let vals = &self.values[id.0];
        let mut r: Vec<(&String, &V)> = Vec::new();
        let mut t: usize = 0;
        while t < list.tags.len()
            invariant
                self.inv(),
                0 <= id.id() < self.slots().len(),
                self.slots()[id.id() as int] is Some,
                list.tags@ == self.refs(id.id() as int),
                *vals == self.values@[id.id() as int],
                tags == entry_tags(self.refs(id.id() as int), vals@),
                vals@.len() == list.tags@.len(),
                t <= list.tags@.len(),
                r@.len() == t,
                forall|x: int|
                    0 <= x < t ==> r@[x].0@ == self.view_model().keys[tags[x].0 as int] && *r@[x].1 == tags[x].1,
            decreases list.tags@.len() - t,
        {
            let tr = list.tags[t];
            proof {
                assert(self.refs(id.id() as int)[t as int] == tr);
            }
            let key = index_lists_get_index(&self.key_indices, tr.key_index).unwrap().0;
            r.push((key, &vals[t]));
            t = t + 1;
        }
        r
    }

    fn tags_by_key(&self, k: &String) -> (r: Vec<(EntryId, &V)>) {
        let mut r: Vec<(EntryId, &V)> = Vec::new();
        let found = index_lists_get_index_of(&self.key_indices, k);
        if found.is_none() {
            proof {
                assert(!self.view_model().keys.contains(k@));
            }
            return r;
        }
        let key_index = found.unwrap();
        let ghost ki = key_index as int;
        proof {
            let keys = self.view_model().keys;
            assert(keys[ki] == k@);
            assert(keys.contains(k@));
            let j = keys.index_of(k@);
            if j < ki {
                assert(self.klists()[j].0 != self.klists()[ki].0);
            } else if ki < j {
                assert(self.klists()[ki].0 != self.klists()[j].0);
            }
            self.lemma_slot_values(ki);
        }
        let ghost tags = self.view_model().key_tags[ki];
        let list = index_lists_get_index(&self.key_indices, key_index).unwrap().1;
        let ixs = index_slots_values(list);
        let mut i: usize = 0;
        while i < ixs.len()
            invariant
                self.inv(),
                0 <= ki < self.klists().len(),
                ixs@ == filled_values(self.key_slots(ki)),
                tags == key_tags_of(self.key_slots(ki), self.values@),
                forall|x: int|
                    0 <= x < ixs@.len() ==> {
                        let ix = #[trigger] ixs@[x];
                        &&& ix.entry.id() < self.values@.len()
                        &&& ix.tag < self.values@[ix.entry.id() as int]@.len()
                    },
                i <= ixs@.len(),
                r@.len() == i,
                forall|x: int| 0 <= x < i ==> r@[x].0.id() == tags[x].0 && *r@[x].1 == tags[x].1,
            decreases ixs@.len() - i,
        {
            let ix = ixs[i];
            proof {
                ix.entry.lemma_id();
                assert(ixs@[i as int] == ix);
            }
            let value = &self.values[ix.entry.index()][ix.tag];
            r.push((ix.entry, value));
            i = i + 1;
        }
        r
    }
}

} // verus!
