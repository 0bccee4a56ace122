//! The collections that the stores are built on: `stable_vec::StableVec`,
//! `slab::Slab` and `indexmap::IndexMap`. Every item here is trusted: its
//! contract restates what the collection's code and documentation say of the
//! method that its body calls.
use vstd::prelude::*;
use slab::Slab;
use indexmap::IndexMap;
use stable_vec::StableVec;
use crate::node_list::{Entry, Node, NodeList};
use crate::indexed::{Index, TagList};

verus! {

#[verifier::external_type_specification]
#[verifier::external_body]
#[verifier::reject_recursive_types(T)]
pub struct ExSlab<T>(Slab<T>);

#[verifier::external_type_specification]
#[verifier::external_body]
#[verifier::reject_recursive_types(K)]
#[verifier::reject_recursive_types(V)]
#[verifier::reject_recursive_types(S)]
pub struct ExIndexMap<K, V, S>(IndexMap<K, V, S>);

// ---------------------------------------------------------------------------
// Entry slots: a `StableVec<Entry>`
// ---------------------------------------------------------------------------

/// The entry slots of a store, held in a `StableVec<Entry>`. The stable
/// vector's type carries a bound on a trait of its own crate, which cannot be
/// declared here, so it sits in this opaque struct.
#[verifier::external_body]
pub struct EntrySlots {
    slots: StableVec<Entry>,
}

/// What the stable vector holds: one slot per index below its
/// `next_push_index()`, `Some` where an element exists and `None` where it was
/// removed.
pub uninterp spec fn entry_slots(v: EntrySlots) -> Seq<Option<Entry>>;

/// The number of filled slots of `s`.
pub open spec fn count_filled<T>(s: Seq<Option<T>>) -> nat
    decreases s.len(),
{
    if s.len() == 0 {
        0
    } else {
        count_filled(s.drop_last()) + if s.last() is Some { 1nat } else { 0nat }
    }
}

/// The indices of the filled slots of `s`, in increasing order.
pub open spec fn filled_indices<T>(s: Seq<Option<T>>) -> Seq<usize>
    decreases s.len(),
{
    if s.len() == 0 {
        Seq::empty()
    } else {
        let rest = filled_indices(s.drop_last());
        if s.last() is Some {
            rest.push((s.len() - 1) as usize)
        } else {
            rest
        }
    }
}

/// A bound on the number of slots of a table below which adding one more does
/// not panic. The tables here keep their slots in a `Vec` (an index map also
/// in a hash table of positions), which panics once the bytes of its buffer
/// would pass `isize::MAX`; when a table grows, it takes about twice the
/// capacity that it needs, and no slot of the tables here takes more than 128
/// bytes, so that this bound leaves a margin of two.
pub open spec fn max_slots() -> nat {
    (isize::MAX as nat) / 512
}

/// `StableVec::new`: an empty stable vector, with no slot.
#[verifier::external_body]
pub(crate) fn entry_slots_new() -> (v: EntrySlots)
    ensures
        entry_slots(v).len() == 0,
{
    EntrySlots { slots: StableVec::new() }
}

/// `StableVec::push`: puts the element in a new slot at `next_push_index()`
/// and returns that index.
#[verifier::external_body]
pub(crate) fn entry_slots_push(v: &mut EntrySlots, e: Entry) -> (index: usize)
    requires
        entry_slots(*old(v)).len() < max_slots(),
    ensures
        index == entry_slots(*old(v)).len(),
        entry_slots(*final(v)) == entry_slots(*old(v)).push(Some(e)),
{
    v.slots.push(e)
}

/// `StableVec::remove`: empties the slot at `index` and returns what it held.
/// It panics at an index past the capacity, which is at least the number of
/// slots.
#[verifier::external_body]
pub(crate) fn entry_slots_remove(v: &mut EntrySlots, index: usize) -> (r: Option<Entry>)
    requires
        index < entry_slots(*old(v)).len(),
    ensures
        r == entry_slots(*old(v))[index as int],
        entry_slots(*final(v)) == entry_slots(*old(v)).update(index as int, None),
{
    v.slots.remove(index)
}

/// `StableVec`'s `Index<usize>`: the element at a filled slot. It panics at
/// an empty one.
#[verifier::external_body]
pub(crate) fn entry_slots_get(v: &EntrySlots, index: usize) -> (e: Entry)
    requires
        0 <= index < entry_slots(*v).len(),
        entry_slots(*v)[index as int] is Some,
    ensures
        Some(e) == entry_slots(*v)[index as int],
{
    v.slots[index]
}

/// `StableVec`'s `IndexMut<usize>`: overwrites the element at a filled slot.
/// It panics at an empty one.
#[verifier::external_body]
pub(crate) fn entry_slots_set(v: &mut EntrySlots, index: usize, e: Entry)
    requires
        0 <= index < entry_slots(*old(v)).len(),
        entry_slots(*old(v))[index as int] is Some,
    ensures
        entry_slots(*final(v)) == entry_slots(*old(v)).update(index as int, Some(e)),
{
    v.slots[index] = e;
}

/// `StableVec::num_elements`: the number of filled slots.
#[verifier::external_body]
pub(crate) fn entry_slots_num_elements(v: &EntrySlots) -> (n: usize)
    ensures
        n == count_filled(entry_slots(*v)),
{
    v.slots.num_elements()
}

/// `StableVec::is_empty`: whether no slot is filled.
#[verifier::external_body]
pub(crate) fn entry_slots_is_empty(v: &EntrySlots) -> (b: bool)
    ensures
        b == (count_filled(entry_slots(*v)) == 0),
{
    v.slots.is_empty()
}

/// `StableVec::indices`, collected: the indices of the filled slots in
/// increasing order.
#[verifier::external_body]
pub(crate) fn entry_slots_indices(v: &EntrySlots) -> (r: Vec<usize>)
    ensures
        r@ == filled_indices(entry_slots(*v)),
{
    v.slots.indices().collect()
}

// ---------------------------------------------------------------------------
// Nodes: a `Slab<Node>`
// ---------------------------------------------------------------------------

/// What the slab holds: its keys and the node stored under each.
pub uninterp spec fn node_items(s: Slab<Node>) -> Map<usize, Node>;

/// `Slab::new`: an empty slab.
#[verifier::external_body]
pub(crate) fn nodes_new() -> (s: Slab<Node>)
    ensures
        node_items(s).dom().finite(),
        node_items(s).len() == 0,
{
    Slab::new()
}

/// `Slab::insert`: stores the node under a key that holds nothing and returns
/// that key. Which free key it picks is the slab's own choice: a vacant slot
/// where there is one. Only when every slot is filled, so that the slab has as
/// many slots as nodes, does it add a slot to its inner `Vec`, which panics
/// only when that slot cannot be allocated.
#[verifier::external_body]
pub(crate) fn nodes_insert(s: &mut Slab<Node>, n: Node) -> (key: usize)
    requires
        node_items(*old(s)).dom().finite(),
        node_items(*old(s)).len() < max_slots(),
    ensures
        !node_items(*old(s)).contains_key(key),
        node_items(*final(s)) == node_items(*old(s)).insert(key, n),
{
    s.insert(n)
}

/// `Slab::remove`: takes the node out from under `key`, leaving its slot
/// vacant. It panics at a key that holds nothing.
#[verifier::external_body]
pub(crate) fn nodes_remove(s: &mut Slab<Node>, key: usize) -> (n: Node)
    requires
        node_items(*old(s)).contains_key(key),
    ensures
        n == node_items(*old(s))[key],
        node_items(*final(s)) == node_items(*old(s)).remove(key),
{
    s.remove(key)
}

/// `Slab`'s `Index<usize>`: the node under `key`. It panics at a key that
/// holds nothing.
#[verifier::external_body]
pub(crate) fn nodes_get(s: &Slab<Node>, key: usize) -> (n: Node)
    requires
        node_items(*s).contains_key(key),
    ensures
        n == node_items(*s)[key],
{
    s[key]
}

/// `Slab::iter`, keys only, collected: the keys that hold a node, in
/// increasing order.
#[verifier::external_body]
pub(crate) fn nodes_keys(s: &Slab<Node>) -> (r: Vec<usize>)
    ensures
        forall|i: int, j: int| 0 <= i < j < r@.len() ==> r@[i] < r@[j],
        forall|i: int| 0 <= i < r@.len() ==> node_items(*s).contains_key(#[trigger] r@[i]),
        forall|k: usize| #[trigger] node_items(*s).contains_key(k) ==> r@.contains(k),
{
    s.iter().map(|(k, _)| k).collect()
}

/// `Slab`'s `IndexMut<usize>`: overwrites the node under `key`. It panics at a
/// key that holds nothing.
#[verifier::external_body]
pub(crate) fn nodes_set(s: &mut Slab<Node>, key: usize, n: Node)
    requires
        node_items(*old(s)).contains_key(key),
    ensures
        node_items(*final(s)) == node_items(*old(s)).insert(key, n),
{
    s[key] = n;
}

// ---------------------------------------------------------------------------
// Key lists: an `IndexMap<String, NodeList>`
// ---------------------------------------------------------------------------

/// What the index map holds: its keys, by their characters, each with its
/// value, in the map's order.
pub uninterp spec fn key_entries(m: IndexMap<String, NodeList>) -> Seq<(Seq<char>, NodeList)>;

/// `IndexMap::new`: an empty map.
#[verifier::external_body]
pub(crate) fn key_lists_new() -> (m: IndexMap<String, NodeList>)
    ensures
        key_entries(m).len() == 0,
{
    IndexMap::new()
}

/// `IndexMap::get_index_of`: the position of the key equal to `k`, if the map
/// holds one. Two `String`s are equal when their characters are.
#[verifier::external_body]
pub(crate) fn key_lists_get_index_of(m: &IndexMap<String, NodeList>, k: &String) -> (r: Option<usize>)
    ensures
        r matches Some(i) ==> i < key_entries(*m).len() && key_entries(*m)[i as int].0 == k@,
        r is None ==> forall|i: int| 0 <= i < key_entries(*m).len() ==> key_entries(*m)[i].0 != k@,
{
    m.get_index_of(k)
}

/// `IndexMap::insert_full`: where a key equal to `k` exists, replaces its value
/// in place and returns its position with the old value; otherwise appends the
/// pair at the end and returns its position with `None`. It panics only when
/// the new pair cannot be allocated.
#[verifier::external_body]
pub(crate) fn key_lists_insert_full(m: &mut IndexMap<String, NodeList>, k: String, l: NodeList)
    -> (r: (usize, Option<NodeList>))
    requires
        key_entries(*old(m)).len() < max_slots(),
    ensures
        (exists|i: int| 0 <= i < key_entries(*old(m)).len() && key_entries(*old(m))[i].0 == k@)
            ==> {
            &&& r.0 < key_entries(*old(m)).len()
            &&& key_entries(*old(m))[r.0 as int].0 == k@
            &&& r.1 == Some(key_entries(*old(m))[r.0 as int].1)
            &&& key_entries(*final(m)) == key_entries(*old(m)).update(r.0 as int, (k@, l))
        },
        (forall|i: int| 0 <= i < key_entries(*old(m)).len() ==> key_entries(*old(m))[i].0 != k@)
            ==> {
            &&& r.0 == key_entries(*old(m)).len()
            &&& r.1 is None
            &&& key_entries(*final(m)) == key_entries(*old(m)).push((k@, l))
        },
{
    m.insert_full(k, l)
}

/// `IndexMap::get_index`: the key and value at position `index`, if there is
/// one.
#[verifier::external_body]
pub(crate) fn key_lists_get_index(m: &IndexMap<String, NodeList>, index: usize) -> (r: Option<(&String, &NodeList)>)
    ensures
        index < key_entries(*m).len() ==> r is Some,
        index < key_entries(*m).len() ==> r.unwrap().0@ == key_entries(*m)[index as int].0,
        index < key_entries(*m).len() ==> *r.unwrap().1 == key_entries(*m)[index as int].1,
        index >= key_entries(*m).len() ==> r is None,
{
    m.get_index(index)
}

/// `IndexMap`'s `IndexMut<usize>`: overwrites the value at position `index`. It
/// panics past the end.
#[verifier::external_body]
pub(crate) fn key_lists_set(m: &mut IndexMap<String, NodeList>, index: usize, l: NodeList)
    requires
        index < key_entries(*old(m)).len(),
    ensures
        key_entries(*final(m)) == key_entries(*old(m)).update(
            index as int,
            (key_entries(*old(m))[index as int].0, l),
        ),
{
    m[index] = l;
}

/// `IndexMap::keys`, collected: every key, in the map's order.
#[verifier::external_body]
pub(crate) fn key_lists_keys(m: &IndexMap<String, NodeList>) -> (r: Vec<&String>)
    ensures
        r@.len() == key_entries(*m).len(),
        forall|i: int| 0 <= i < r@.len() ==> r@[i]@ == key_entries(*m)[i].0,
{
    m.keys().collect()
}

// ---------------------------------------------------------------------------
// Tag lists of entries: a `StableVec<TagList>`
// ---------------------------------------------------------------------------

/// The entries of an indexed store, each the list of its tags, held in a
/// `StableVec<TagList>` (opaque for the same reason as [`EntrySlots`]).
#[verifier::external_body]
pub struct TagListSlots {
    slots: StableVec<TagList>,
}

/// What the stable vector holds, slot by slot.
pub uninterp spec fn tag_list_slots(v: TagListSlots) -> Seq<Option<TagList>>;

/// `StableVec::new`: an empty stable vector.
#[verifier::external_body]
pub(crate) fn tag_lists_new() -> (v: TagListSlots)
    ensures
        tag_list_slots(v).len() == 0,
{
    TagListSlots { slots: StableVec::new() }
}

/// `StableVec::push`: puts the element in a new slot at `next_push_index()`
/// and returns that index.
#[verifier::external_body]
pub(crate) fn tag_lists_push(v: &mut TagListSlots, e: TagList) -> (index: usize)
    requires
        tag_list_slots(*old(v)).len() < max_slots(),
    ensures
        index == tag_list_slots(*old(v)).len(),
        tag_list_slots(*final(v)) == tag_list_slots(*old(v)).push(Some(e)),
{
    v.slots.push(e)
}

/// `StableVec::remove`: empties the slot at `index` and returns what it held.
/// It panics at an index past the capacity, which is at least the number of
/// slots.
#[verifier::external_body]
pub(crate) fn tag_lists_remove(v: &mut TagListSlots, index: usize) -> (r: Option<TagList>)
    requires
        index < tag_list_slots(*old(v)).len(),
    ensures
        r == tag_list_slots(*old(v))[index as int],
        tag_list_slots(*final(v)) == tag_list_slots(*old(v)).update(index as int, None),
{
    v.slots.remove(index)
}

/// `StableVec`'s `Index<usize>`: the element at a filled slot. It panics at
/// an empty one.
#[verifier::external_body]
pub(crate) fn tag_lists_get(v: &TagListSlots, index: usize) -> (e: &TagList)
    requires
        index < tag_list_slots(*v).len(),
        tag_list_slots(*v)[index as int] is Some,
    ensures
        Some(*e) == tag_list_slots(*v)[index as int],
{
    &v.slots[index]
}

/// `StableVec`'s `IndexMut<usize>`: the element at a filled slot, to be
/// changed in place. It panics at an empty one.
#[verifier::external_body]
pub(crate) fn tag_lists_get_mut(v: &mut TagListSlots, index: usize) -> (e: &mut TagList)
    requires
        index < tag_list_slots(*old(v)).len(),
        tag_list_slots(*old(v))[index as int] is Some,
    ensures
        Some(*e) == tag_list_slots(*old(v))[index as int],
        tag_list_slots(*final(v)) == tag_list_slots(*old(v)).update(index as int, Some(*final(e))),
{
    &mut v.slots[index]
}

/// `StableVec::num_elements`: the number of filled slots.
#[verifier::external_body]
pub(crate) fn tag_lists_num_elements(v: &TagListSlots) -> (n: usize)
    ensures
        n == count_filled(tag_list_slots(*v)),
{
    v.slots.num_elements()
}

/// `StableVec::is_empty`: whether no slot is filled.
#[verifier::external_body]
pub(crate) fn tag_lists_is_empty(v: &TagListSlots) -> (b: bool)
    ensures
        b == (count_filled(tag_list_slots(*v)) == 0),
{
    v.slots.is_empty()
}

/// `StableVec::indices`, collected: the indices of the filled slots in
/// increasing order.
#[verifier::external_body]
pub(crate) fn tag_lists_indices(v: &TagListSlots) -> (r: Vec<usize>)
    ensures
        r@ == filled_indices(tag_list_slots(*v)),
{
    v.slots.indices().collect()
}

// ---------------------------------------------------------------------------
// Tag positions under a key: a `StableVec<Index>`
// ---------------------------------------------------------------------------

/// The positions of the tags under one key of an indexed store, held in a
/// `StableVec<Index>` (opaque for the same reason as [`EntrySlots`]).
#[verifier::external_body]
pub struct IndexSlots {
    slots: StableVec<Index>,
}

/// What the stable vector holds, slot by slot.
pub uninterp spec fn index_slots(v: IndexSlots) -> Seq<Option<Index>>;

/// The elements of the filled slots of `s`, in increasing order of slot.
pub open spec fn filled_values<T>(s: Seq<Option<T>>) -> Seq<T>
    decreases s.len(),
{
    if s.len() == 0 {
        Seq::empty()
    } else {
        let rest = filled_values(s.drop_last());
        match s.last() {
            Some(x) => rest.push(x),
            None => rest,
        }
    }
}

/// `StableVec::new`: an empty stable vector.
#[verifier::external_body]
pub(crate) fn index_slots_new() -> (v: IndexSlots)
    ensures
        index_slots(v).len() == 0,
{
    IndexSlots { slots: StableVec::new() }
}

/// `StableVec::push`: puts the element in a new slot at `next_push_index()`
/// and returns that index.
#[verifier::external_body]
pub(crate) fn index_slots_push(v: &mut IndexSlots, ix: Index) -> (index: usize)
    requires
        index_slots(*old(v)).len() < max_slots(),
    ensures
        index == index_slots(*old(v)).len(),
        index_slots(*final(v)) == index_slots(*old(v)).push(Some(ix)),
{
    v.slots.push(ix)
}

/// `StableVec::remove`: empties the slot at `index` and returns what it held.
/// It panics at an index past the capacity, which is at least the number of
/// slots.
#[verifier::external_body]
pub(crate) fn index_slots_remove(v: &mut IndexSlots, index: usize) -> (r: Option<Index>)
    requires
        index < index_slots(*old(v)).len(),
    ensures
        r == index_slots(*old(v))[index as int],
        index_slots(*final(v)) == index_slots(*old(v)).update(index as int, None),
{
    v.slots.remove(index)
}

/// `StableVec::values`, copied and collected: the elements of the filled
/// slots, in increasing order of slot.
#[verifier::external_body]
pub(crate) fn index_slots_values(v: &IndexSlots) -> (r: Vec<Index>)
    ensures
        r@ == filled_values(index_slots(*v)),
{
    v.slots.values().copied().collect()
}

// ---------------------------------------------------------------------------
// Key indices: an `IndexMap<String, IndexSlots>`
// ---------------------------------------------------------------------------

/// What the index map holds: its keys, by their characters, each with its
/// tag positions, in the map's order.
pub uninterp spec fn index_lists(m: IndexMap<String, IndexSlots>) -> Seq<(Seq<char>, IndexSlots)>;

/// `IndexMap::new`: an empty map.
#[verifier::external_body]
pub(crate) fn index_lists_new() -> (m: IndexMap<String, IndexSlots>)
    ensures
        index_lists(m).len() == 0,
{
    IndexMap::new()
}

/// `IndexMap::get_index_of`: the position of the key equal to `k`, if the map
/// holds one. Two `String`s are equal when their characters are.
#[verifier::external_body]
pub(crate) fn index_lists_get_index_of(m: &IndexMap<String, IndexSlots>, k: &String) -> (r: Option<usize>)
    ensures
        r matches Some(i) ==> i < index_lists(*m).len() && index_lists(*m)[i as int].0 == k@,
        r is None ==> forall|i: int| 0 <= i < index_lists(*m).len() ==> index_lists(*m)[i].0 != k@,
{
    m.get_index_of(k)
}

/// `IndexMap::insert_full`: where a key equal to `k` exists, replaces its value
/// in place and returns its position with the old value; otherwise appends the
/// pair at the end and returns its position with `None`. It panics only when
/// the new pair cannot be allocated.
#[verifier::external_body]
pub(crate) fn index_lists_insert_full(m: &mut IndexMap<String, IndexSlots>, k: String, l: IndexSlots)
    -> (r: (usize, Option<IndexSlots>))
    requires
        index_lists(*old(m)).len() < max_slots(),
    ensures
        (exists|i: int| 0 <= i < index_lists(*old(m)).len() && index_lists(*old(m))[i].0 == k@)
            ==> {
            &&& r.0 < index_lists(*old(m)).len()
            &&& index_lists(*old(m))[r.0 as int].0 == k@
            &&& r.1 == Some(index_lists(*old(m))[r.0 as int].1)
            &&& index_lists(*final(m)) == index_lists(*old(m)).update(r.0 as int, (k@, l))
        },
        (forall|i: int| 0 <= i < index_lists(*old(m)).len() ==> index_lists(*old(m))[i].0 != k@)
            ==> {
            &&& r.0 == index_lists(*old(m)).len()
            &&& r.1 is None
            &&& index_lists(*final(m)) == index_lists(*old(m)).push((k@, l))
        },
{
    m.insert_full(k, l)
}

/// `IndexMap::get_index`: the key and value at position `index`, if there is
/// one.
#[verifier::external_body]
pub(crate) fn index_lists_get_index(m: &IndexMap<String, IndexSlots>, index: usize) -> (r: Option<(&String, &IndexSlots)>)
    ensures
        index < index_lists(*m).len() ==> r is Some,
        index < index_lists(*m).len() ==> r.unwrap().0@ == index_lists(*m)[index as int].0,
        index < index_lists(*m).len() ==> *r.unwrap().1 == index_lists(*m)[index as int].1,
        index >= index_lists(*m).len() ==> r is None,
{
    m.get_index(index)
}

/// `IndexMap`'s `IndexMut<usize>`: the value at position `index`, to be changed
/// in place. It panics past the end.
#[verifier::external_body]
pub(crate) fn index_lists_get_mut(m: &mut IndexMap<String, IndexSlots>, index: usize) -> (l: &mut IndexSlots)
    requires
        index < index_lists(*old(m)).len(),
    ensures
        *l == index_lists(*old(m))[index as int].1,
        index_lists(*final(m)) == index_lists(*old(m)).update(
            index as int,
            (index_lists(*old(m))[index as int].0, *final(l)),
        ),
{
    &mut m[index]
}

/// `IndexMap::keys`, collected: every key, in the map's order.
#[verifier::external_body]
pub(crate) fn index_lists_keys(m: &IndexMap<String, IndexSlots>) -> (r: Vec<&String>)
    ensures
        r@.len() == index_lists(*m).len(),
        forall|i: int| 0 <= i < r@.len() ==> r@[i]@ == index_lists(*m)[i].0,
{
    m.keys().collect()
}

} // verus!
