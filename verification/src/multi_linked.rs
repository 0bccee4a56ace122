//! A multi-linked list implementation of a [`Store`].
//!
//! The store is a graph of nodes, one per tag, each threaded on two doubly
//! linked lists: the list of its entry and the list of its key.
use vstd::prelude::*;
use slab::Slab;
use indexmap::IndexMap;
use crate::{EntryId, Store};
use crate::model::{EntryModel, StoreModel, max_tags, without_entry};
use crate::laws;
use crate::entry_data::{filled_mut, lemma_refill, refill};
use crate::node_list::{Axis, Entry, Links, Node, NodeList, chain_ok, distinct, lemma_chain_frame, other};
use crate::outside::{
    EntrySlots, count_filled, entry_slots, entry_slots_get, entry_slots_indices,
    entry_slots_is_empty, entry_slots_new, entry_slots_num_elements, entry_slots_push,
    entry_slots_remove, entry_slots_set, filled_indices, key_entries, key_lists_get_index,
    key_lists_get_index_of, key_lists_insert_full, key_lists_keys, key_lists_new, key_lists_set,
    node_items, nodes_get, nodes_insert, nodes_keys, nodes_new,
};

verus! {

/// A store whose tags are nodes of a graph: each node is linked into the list
/// of its entry and into the list of its key, so that the tags of an entry
/// and the tags under a key are both walked without visiting any other node.
///
/// Entries live in a stable vector, so that their indices keep the order of
/// insertion; the list of each key lives in an index map, so that keys keep
/// the order in which each first came; the nodes live in a slab.
pub struct MultiLinkedStore<V, E = ()> {
    entries: EntrySlots,
    key_lists: IndexMap<String, NodeList>,
    nodes: Slab<Node>,
    /// The value of each node, by the node's slab key.
    values: Vec<Option<V>>,
    /// The data of each entry, by the entry's index.
    data: Vec<Option<E>>,
    /// The nodes of each entry's list, in order.
    entry_chains: Ghost<Seq<Seq<usize>>>,
    /// The nodes of each key's list, in order.
    key_chains: Ghost<Seq<Seq<usize>>>,
    /// The number of tags ever added.
    tags_added: Ghost<nat>,
}

/// The nodes of `s` that are not in `gone`, in their order.
pub open spec fn drop_nodes(s: Seq<usize>, gone: Set<usize>) -> Seq<usize>
    decreases s.len(),
{
    if s.len() == 0 {
        s
    } else {
        let rest = drop_nodes(s.drop_last(), gone);
        if gone.contains(s.last()) {
            rest
        } else {
            rest.push(s.last())
        }
    }
}

proof fn lemma_drop_nodes_contains(s: Seq<usize>, gone: Set<usize>, m: usize)
    ensures
        drop_nodes(s, gone).contains(m) <==> s.contains(m) && !gone.contains(m),
    decreases s.len(),
{
    if s.len() > 0 {
        let s0 = s.drop_last();
        let x = s.last();
        lemma_drop_nodes_contains(s0, gone, m);
        let r = drop_nodes(s0, gone);
        assert(s =~= s0.push(x));
        assert(s.contains(m) <==> s0.contains(m) || x == m) by {
            if s.contains(m) {
                let i = choose|i: int| 0 <= i < s.len() && s[i] == m;
                if i < s0.len() {
                    assert(s0[i] == m);
                }
            }
            if s0.contains(m) {
                let i = choose|i: int| 0 <= i < s0.len() && s0[i] == m;
                assert(s[i] == m);
            }
            if x == m {
                assert(s[s.len() - 1] == m);
            }
        }
        if !gone.contains(x) {
            let r2 = r.push(x);
            assert(r2.contains(m) <==> r.contains(m) || x == m) by {
                if r2.contains(m) {
                    let i = choose|i: int| 0 <= i < r2.len() && r2[i] == m;
                    if i < r.len() {
                        assert(r[i] == m);
                    }
                }
                if r.contains(m) {
                    let i = choose|i: int| 0 <= i < r.len() && r[i] == m;
                    assert(r2[i] == m);
                }
                if x == m {
                    assert(r2[r.len() as int] == m);
                }
            }
        }
    }
}

proof fn lemma_drop_nodes_distinct(s: Seq<usize>, gone: Set<usize>)
    requires
        distinct(s),
    ensures
        distinct(drop_nodes(s, gone)),
    decreases s.len(),
{
    if s.len() > 0 {
        let s0 = s.drop_last();
        assert(distinct(s0)) by {
            assert forall|a: int, b: int| 0 <= a < b < s0.len() implies s0[a] != s0[b] by {
                assert(s0[a] == s[a] && s0[b] == s[b]);
            }
        }
        lemma_drop_nodes_distinct(s0, gone);
        let r = drop_nodes(s0, gone);
        if !gone.contains(s.last()) {
            lemma_drop_nodes_contains(s0, gone, s.last());
            assert(!s0.contains(s.last())) by {
                if s0.contains(s.last()) {
                    let i = choose|i: int| 0 <= i < s0.len() && s0[i] == s.last();
                    assert(s[i] == s[s.len() - 1]);
                }
            }
            let r2 = r.push(s.last());
            assert forall|a: int, b: int| 0 <= a < b < r2.len() implies r2[a] != r2[b] by {
                if b == r.len() {
                    assert(r2[a] == r[a]);
                    assert(r.contains(r[a]));
                }
            }
        }
    }
}

proof fn lemma_drop_nodes_absent(s: Seq<usize>, gone: Set<usize>, x: usize)
    requires
        !s.contains(x),
    ensures
        drop_nodes(s, gone.insert(x)) == drop_nodes(s, gone),
    decreases s.len(),
{
    if s.len() > 0 {
        let s0 = s.drop_last();
        assert(!s0.contains(x)) by {
            if s0.contains(x) {
                let i = choose|i: int| 0 <= i < s0.len() && s0[i] == x;
                assert(s[i] == x);
            }
        }
        lemma_drop_nodes_absent(s0, gone, x);
        assert(s[s.len() - 1] != x);
    }
}

proof fn lemma_drop_nodes_remove(s: Seq<usize>, gone: Set<usize>, x: usize, pos: int)
    requires
        distinct(s),
        !gone.contains(x),
        0 <= pos < drop_nodes(s, gone).len(),
        drop_nodes(s, gone)[pos] == x,
    ensures
        drop_nodes(s, gone).remove(pos) == drop_nodes(s, gone.insert(x)),
    decreases s.len(),
{
    let s0 = s.drop_last();
    let r = drop_nodes(s0, gone);
    assert(distinct(s0)) by {
        assert forall|a: int, b: int| 0 <= a < b < s0.len() implies s0[a] != s0[b] by {
            assert(s0[a] == s[a] && s0[b] == s[b]);
        }
    }
    assert(!s0.contains(s.last())) by {
        if s0.contains(s.last()) {
            let i = choose|i: int| 0 <= i < s0.len() && s0[i] == s.last();
            assert(s[i] == s[s.len() - 1]);
        }
    }
    if gone.contains(s.last()) {
        assert(s.last() != x);
        lemma_drop_nodes_remove(s0, gone, x, pos);
    } else if pos == r.len() {
        assert(s.last() == x);
        lemma_drop_nodes_absent(s0, gone, x);
        assert(drop_nodes(s, gone).remove(pos) =~= r);
    } else {
        assert(r[pos] == x);
        lemma_drop_nodes_contains(s0, gone, x);
        assert(r.contains(x));
        assert(s.last() != x);
        lemma_drop_nodes_remove(s0, gone, x, pos);
        assert(drop_nodes(s, gone).remove(pos) =~= r.remove(pos).push(s.last()));
    }
}

proof fn lemma_drop_nodes_none(s: Seq<usize>)
    ensures
        drop_nodes(s, Set::empty()) == s,
    decreases s.len(),
{
    if s.len() > 0 {
        lemma_drop_nodes_none(s.drop_last());
        assert(s.drop_last().push(s.last()) =~= s);
    }
}

/// The entry lists of `ids`, one after the other.
pub open spec fn chains_of(chains: Seq<Seq<usize>>, ids: Seq<nat>) -> Seq<usize>
    decreases ids.len(),
{
    if ids.len() == 0 {
        Seq::empty()
    } else {
        chains_of(chains, ids.drop_last()) + chains[ids.last() as int]
    }
}

/// The nodes of `c` read as tags of their entry: key position and value.
pub open spec fn entry_chain_tags<V>(items: Map<usize, Node>, values: Seq<Option<V>>, c: Seq<usize>) -> Seq<(nat, V)> {
    c.map_values(|n: usize| (items[n].key_index as nat, values[n as int].unwrap()))
}

/// The nodes of `c` read as tags under their key: entry index and value.
pub open spec fn key_chain_tags<V>(items: Map<usize, Node>, values: Seq<Option<V>>, c: Seq<usize>) -> Seq<(nat, V)> {
    c.map_values(|n: usize| (items[n].entry.id(), values[n as int].unwrap()))
}

/// Dropping the nodes of an entry, then reading each node as a tag, is
/// reading the nodes as tags and dropping those of the entry.
proof fn lemma_drop_nodes_tags<V>(s: Seq<usize>, gone: Set<usize>, items: Map<usize, Node>, values: Seq<Option<V>>, id: nat)
    requires
        forall|i: int| 0 <= i < s.len() ==> (gone.contains(s[i]) <==> items[s[i]].entry.id() == id),
    ensures
        key_chain_tags(items, values, drop_nodes(s, gone)) == without_entry(key_chain_tags(items, values, s), id),
    decreases s.len(),
{
    reveal(Seq::filter);
    if s.len() == 0 {
        assert(key_chain_tags(items, values, drop_nodes(s, gone)) =~= Seq::empty());
        assert(key_chain_tags(items, values, s) =~= Seq::empty());
    } else {
        let s0 = s.drop_last();
        lemma_drop_nodes_tags(s0, gone, items, values, id);
        assert(key_chain_tags(items, values, s).drop_last() =~= key_chain_tags(items, values, s0));
        if gone.contains(s.last()) {
        } else {
            assert(key_chain_tags(items, values, drop_nodes(s, gone)) =~= key_chain_tags(items, values, drop_nodes(s0, gone)).push(
                (items[s.last()].entry.id(), values[s.last() as int].unwrap())));
        }
    }
}

/// The filled slots of `s` are exactly the existing entries of `m`, below the
/// length of `s`.
pub open spec fn slots_match<T, Kv, V, E>(s: Seq<Option<T>>, m: StoreModel<Kv, V, E>) -> bool {
    forall|i: nat| i < s.len() ==> (s[i as int] is Some <==> #[trigger] m.entries.contains_key(i))
}

pub(crate) proof fn lemma_filled_indices<T, Kv, V, E>(s: Seq<Option<T>>, m: StoreModel<Kv, V, E>)
    requires
        slots_match(s, m),
        s.len() <= usize::MAX,
    ensures
        filled_indices(s).len() == m.ids_below(s.len()).len(),
        forall|i: int| 0 <= i < filled_indices(s).len() ==> filled_indices(s)[i] as nat == m.ids_below(s.len())[i],
        forall|i: int| 0 <= i < filled_indices(s).len() ==> filled_indices(s)[i] < s.len() && s[filled_indices(s)[i] as int] is Some,
    decreases s.len(),
{
    if s.len() > 0 {
        let s0 = s.drop_last();
        assert(slots_match(s0, m)) by {
            assert forall|i: nat| i < s0.len() implies (s0[i as int] is Some <==> #[trigger] m.entries.contains_key(i)) by {
                assert(s0[i as int] == s[i as int]);
            }
        }
        lemma_filled_indices(s0, m);
        assert(m.entries.contains_key((s.len() - 1) as nat) == s.last() is Some);
        let f0 = filled_indices(s0);
        let g0 = m.ids_below(s0.len());
        assert(m.ids_below(s.len()) == if s.last() is Some { g0.push((s.len() - 1) as nat) } else { g0 });
        assert(filled_indices(s) == if s.last() is Some { f0.push((s.len() - 1) as usize) } else { f0 });
        assert forall|i: int| 0 <= i < f0.len() implies f0[i] < s.len() && s[f0[i] as int] is Some by {
            assert(s0[f0[i] as int] == s[f0[i] as int]);
        }
    }
}

pub(crate) proof fn lemma_count_filled<T>(s: Seq<Option<T>>)
    ensures
        Set::new(|i: nat| i < s.len() && s[i as int] is Some).finite(),
        count_filled(s) == Set::new(|i: nat| i < s.len() && s[i as int] is Some).len(),
    decreases s.len(),
{
    let full = Set::new(|i: nat| i < s.len() && s[i as int] is Some);
    if s.len() == 0 {
        assert(full =~= Set::empty());
    } else {
        let s0 = s.drop_last();
        lemma_count_filled(s0);
        let part = Set::new(|i: nat| i < s0.len() && s0[i as int] is Some);
        let last = (s.len() - 1) as nat;
        if s.last() is Some {
            assert(full =~= part.insert(last));
            assert(!part.contains(last));
        } else {
            assert(full =~= part);
        }
    }
}

/// Puts `v` at position `n` of `vals`, growing it with `None`s as needed.
fn place<T>(vals: &mut Vec<Option<T>>, n: usize, v: T)
    ensures
        final(vals)@.len() >= old(vals)@.len(),
        n < final(vals)@.len(),
        final(vals)@[n as int] == Some(v),
        forall|i: int| 0 <= i < old(vals)@.len() && i != n ==> final(vals)@[i] == old(vals)@[i],
{
    if n < vals.len() {
        vals[n] = Some(v);
    } else {
        while vals.len() < n
            invariant
                vals@.len() <= n,
                vals@.len() >= old(vals)@.len(),
                forall|i: int| 0 <= i < old(vals)@.len() ==> vals@[i] == old(vals)@[i],
            decreases n - vals@.len(),
        {
            vals.push(None);
        }
        vals.push(Some(v));
    }
}

/// A walk along one list of a store, from node to node.
struct Iter<'a, V, E> {
    store: &'a MultiLinkedStore<V, E>,
    index: Option<usize>,
    axis: Axis,
}

impl<'a, V, E> Iter<'a, V, E> {
    /// The node the walk is at, if any; the walk moves on to its successor
    /// along the walk's axis.
    fn next(&mut self) -> (r: Option<usize>)
        requires
            old(self).index matches Some(n) ==> old(self).store.items().contains_key(n),
        ensures
            r == old(self).index,
            final(self).store == old(self).store,
            final(self).axis == old(self).axis,
            final(self).index == match old(self).index {
                Some(n) => old(self).store.items()[n].links_on(old(self).axis).next,
                None => None,
            },
    {
        match self.index {
            None => None,
            Some(index) => {
                let node = nodes_get(&self.store.nodes, index);
                self.index = node.links(self.axis).next;
                Some(index)
            },
        }
    }
}

impl<V, E> MultiLinkedStore<V, E> {
    /// The entry slots, by index: the head and tail of each existing entry's list.
    pub closed spec fn slots(&self) -> Seq<Option<Entry>> {
        entry_slots(self.entries)
    }

    /// The nodes, by slab key.
    pub closed spec fn items(&self) -> Map<usize, Node> {
        node_items(self.nodes)
    }

    /// The keys, in order, each with the head and tail of its list.
    pub closed spec fn klists(&self) -> Seq<(Seq<char>, NodeList)> {
        key_entries(self.key_lists)
    }

    /// The entry in slot `i` as the model reads it.
    pub closed spec fn entry_view(&self, i: nat) -> EntryModel<V, E> {
        EntryModel {
            data: self.data@[i as int].unwrap(),
            tags: entry_chain_tags(self.items(), self.values@, self.entry_chains@[i as int]),
        }
    }

    /// The store as a value.
    pub closed spec fn view_model(&self) -> StoreModel<Seq<char>, V, E> {
        StoreModel {
            next_id: self.slots().len(),
            entries: Map::new(
                |i: nat| i < self.slots().len() && self.slots()[i as int] is Some,
                |i: nat| self.entry_view(i),
            ),
            keys: self.klists().map_values(|p: (Seq<char>, NodeList)| p.0),
            key_tags: Seq::new(
                self.key_chains@.len(),
                |k: int| key_chain_tags(self.items(), self.values@, self.key_chains@[k]),
            ),
            tags_added: self.tags_added@,
        }
    }

    /// The store as a value with the data of its entries forgotten.
    pub closed spec fn tag_model(&self) -> StoreModel<Seq<char>, V, ()> {
        StoreModel {
            next_id: self.slots().len(),
            entries: Map::new(
                |i: nat| i < self.slots().len() && self.slots()[i as int] is Some,
                |i: nat| EntryModel {
                    data: (),
                    tags: entry_chain_tags(self.items(), self.values@, self.entry_chains@[i as int]),
                },
            ),
            keys: self.klists().map_values(|p: (Seq<char>, NodeList)| p.0),
            key_tags: Seq::new(
                self.key_chains@.len(),
                |k: int| key_chain_tags(self.items(), self.values@, self.key_chains@[k]),
            ),
            tags_added: self.tags_added@,
        }
    }

    proof fn lemma_tag_model(self)
        ensures
            self.view_model().erase() == self.tag_model(),
            self.view_model().wf() <==> self.tag_model().wf(),
    {
        let m = self.view_model();
        assert(m.erase().entries =~= self.tag_model().entries);
        assert(m.erase() =~= self.tag_model());
        crate::model::lemma_wf_erase(m);
    }

    /// The node `n` sits in the list of its entry and in the list of its key,
    /// and has a value.
    pub closed spec fn placed(&self, n: usize) -> bool {
        let node = self.items()[n];
        &&& node.entry.id() < self.slots().len()
        &&& self.entry_chains@[node.entry.id() as int].contains(n)
        &&& node.key_index < self.klists().len()
        &&& self.key_chains@[node.key_index as int].contains(n)
        &&& n < self.values@.len()
        &&& self.values@[n as int] is Some
    }

    /// No key occurs twice.
    pub closed spec fn keys_distinct(&self) -> bool {
        forall|a: int, b: int|
            0 <= a < b < self.klists().len() ==> self.klists()[a].0 != self.klists()[b].0
    }

    /// The list of each existing entry runs along its nodes; a removed entry
    /// has none.
    pub closed spec fn entry_lists_ok(&self) -> bool {
        forall|i: int|
            0 <= i < self.slots().len() ==> {
                &&& (#[trigger] self.slots()[i]) is Some ==> chain_ok(
                    self.slots()[i].unwrap().nodes,
                    self.entry_chains@[i],
                    self.items(),
                    Axis::Entry,
                )
                &&& self.slots()[i] is None ==> self.entry_chains@[i].len() == 0
            }
    }

    /// The list of each key runs along its nodes.
    pub closed spec fn key_lists_ok(&self) -> bool {
        forall|k: int|
            0 <= k < self.klists().len() ==> chain_ok(
                (#[trigger] self.klists()[k]).1,
                self.key_chains@[k],
                self.items(),
                Axis::Key,
            )
    }

    /// Each node of a list names that list's entry, or that list's key.
    pub closed spec fn owners_ok(&self) -> bool {
        &&& forall|i: int, j: int|
            0 <= i < self.entry_chains@.len() && 0 <= j < self.entry_chains@[i].len()
                ==> (#[trigger] self.items()[self.entry_chains@[i][j]]).entry.id() == i
        &&& forall|k: int, j: int|
            0 <= k < self.key_chains@.len() && 0 <= j < self.key_chains@[k].len()
                ==> (#[trigger] self.items()[self.key_chains@[k][j]]).key_index == k
    }

    /// The nodes, one per tag, and the keys stay within the limit of their
    /// tables.
    pub closed spec fn bounded(&self) -> bool {
        &&& self.items().dom().finite()
        &&& self.items().len() <= max_tags()
        &&& self.klists().len() <= max_tags()
    }

    /// How many more tags the tables can take: the slab reuses the slot of a
    /// removed node, while the keys are never removed.
    pub closed spec fn room(&self) -> nat {
        let n = self.items().len();
        let k = self.klists().len();
        (max_tags() - if n >= k {
            n
        } else {
            k
        }) as nat
    }

    /// The store is consistent: the lists run along the nodes, every node
    /// sits in the list of its entry and of its key, data sits where entries
    /// exist, and the store as a value is well formed.
    pub closed spec fn inv(&self) -> bool {
        &&& self.slots().len() <= crate::model::max_entries()
        &&& self.entry_chains@.len() == self.slots().len()
        &&& self.data@.len() == self.slots().len()
        &&& self.key_chains@.len() == self.klists().len()
        &&& self.keys_distinct()
        &&& forall|i: int|
            0 <= i < self.slots().len() ==> ((#[trigger] self.slots()[i]) is Some <==> self.data@[i] is Some)
        &&& self.entry_lists_ok()
        &&& self.key_lists_ok()
        &&& self.owners_ok()
        &&& forall|n: usize| #[trigger] self.items().contains_key(n) ==> self.placed(n)
        &&& self.tag_model().wf()
    }

    /// Every node of a list is in the slab.
    proof fn lemma_members(self)
        requires
            self.inv(),
        ensures
            forall|i: int, j: int|
                0 <= i < self.entry_chains@.len() && 0 <= j < self.entry_chains@[i].len()
                    ==> #[trigger] self.items().contains_key(self.entry_chains@[i][j]),
            forall|k: int, j: int|
                0 <= k < self.key_chains@.len() && 0 <= j < self.key_chains@[k].len()
                    ==> #[trigger] self.items().contains_key(self.key_chains@[k][j]),
    {
        assert forall|i: int, j: int|
            0 <= i < self.entry_chains@.len() && 0 <= j < self.entry_chains@[i].len()
                implies #[trigger] self.items().contains_key(self.entry_chains@[i][j]) by {
            assert(self.slots()[i] is Some);
        }
        assert forall|k: int, j: int|
            0 <= k < self.key_chains@.len() && 0 <= j < self.key_chains@[k].len()
                implies #[trigger] self.items().contains_key(self.key_chains@[k][j]) by {
            assert(chain_ok(self.klists()[k].1, self.key_chains@[k], self.items(), Axis::Key));
        }
    }

    /// After the key `kv` was looked up, and added where it was new, at
    /// position `ki`.
    proof fn lemma_interned(self, s0: Self, kv: Seq<char>, ki: usize)
        requires
            s0.inv(),
            self.entries == s0.entries,
            self.nodes == s0.nodes,
            self.values == s0.values,
            self.data == s0.data,
            self.entry_chains == s0.entry_chains,
            self.tags_added == s0.tags_added,
            ki < self.klists().len(),
            self.klists()[ki as int].0 == kv,
            (exists|i: int| 0 <= i < s0.klists().len() && s0.klists()[i].0 == kv) ==> self.klists()
                == s0.klists() && self.key_chains == s0.key_chains,
            (forall|i: int| 0 <= i < s0.klists().len() ==> s0.klists()[i].0 != kv) ==> self.klists()
                == s0.klists().push((kv, NodeList::Empty)) && self.key_chains@ == s0.key_chains@.push(
                Seq::empty(),
            ),
        ensures
            self.inv(),
            ki == s0.view_model().key_position(kv),
            self.view_model() == s0.view_model().with_key(kv),
    {
        let m0 = s0.view_model();
        if exists|i: int| 0 <= i < s0.klists().len() && s0.klists()[i].0 == kv {
            assert(m0.keys[ki as int] == kv);
            assert(m0.keys.contains(kv));
            let j = m0.keys.index_of(kv);
            assert(m0.keys[j] == kv);
            if j < ki {
                assert(s0.klists()[j].0 != s0.klists()[ki as int].0);
            } else if ki < j {
                assert(s0.klists()[ki as int].0 != s0.klists()[j].0);
            }
            let m = self.view_model();
            assert(m.keys =~= m0.keys);
            assert forall|k: int| 0 <= k < m.key_tags.len() implies #[trigger] m.key_tags[k] == m0.key_tags[k] by {
                assert(m.key_tags[k] =~= m0.key_tags[k]);
            }
            assert(m.key_tags =~= m0.key_tags);
            assert forall|i: nat| #[trigger] m.entries.contains_key(i) implies m.entries[i] == m0.entries[i] by {
                assert(self.entry_view(i).tags =~= s0.entry_view(i).tags);
            }
            assert(m.entries =~= m0.entries);
            assert(m =~= m0);
        } else {
            assert(!m0.keys.contains(kv));
            let kl = self.klists();
            assert forall|a: int, b: int| 0 <= a < b < kl.len() implies kl[a].0 != kl[b].0 by {
                if b < s0.klists().len() {
                    assert(kl[a] == s0.klists()[a]);
                    assert(kl[b] == s0.klists()[b]);
                } else {
                    assert(kl[a] == s0.klists()[a]);
                }
            }
            assert(self.key_lists_ok()) by {
                assert forall|k: int| 0 <= k < kl.len() implies chain_ok(
                    (#[trigger] kl[k]).1, self.key_chains@[k], self.items(), Axis::Key) by {
                    if k < s0.klists().len() {
                        assert(kl[k] == s0.klists()[k]);
                        assert(self.key_chains@[k] == s0.key_chains@[k]);
                    } else {
                        assert(self.key_chains@[k] =~= Seq::<usize>::empty());
                    }
                }
            }
            assert(self.owners_ok()) by {
                assert forall|k: int, j: int|
                    0 <= k < self.key_chains@.len() && 0 <= j < self.key_chains@[k].len() implies
                    (#[trigger] self.items()[self.key_chains@[k][j]]).key_index == k by {
                    if k < s0.key_chains@.len() {
                        assert(self.key_chains@[k] == s0.key_chains@[k]);
                    } else {
                        assert(self.key_chains@[k] =~= Seq::<usize>::empty());
                    }
                }
            }
            assert forall|n: usize| #[trigger] self.items().contains_key(n) implies self.placed(n) by {
                assert(s0.placed(n));
                let kk = s0.items()[n].key_index as int;
                assert(self.key_chains@[kk] == s0.key_chains@[kk]);
            }
            let m = self.view_model();
            assert(m.keys =~= m0.keys.push(kv));
            assert forall|k: int| 0 <= k < m.key_tags.len() implies #[trigger] m.key_tags[k] == m0.with_key(kv).key_tags[k] by {
                if k < m0.key_tags.len() {
                    assert(m.key_tags[k] =~= m0.key_tags[k]);
                } else {
                    assert(m.key_tags[k] =~= Seq::empty());
                }
            }
            assert(m.key_tags =~= m0.with_key(kv).key_tags);
            assert forall|i: nat| #[trigger] m.entries.contains_key(i) implies m.entries[i] == m0.entries[i] by {
                assert(self.entry_view(i).tags =~= s0.entry_view(i).tags);
            }
            assert(m.entries =~= m0.entries);
            assert(m =~= m0.with_key(kv));
            s0.lemma_tag_model();
            laws::lemma_with_key_wf(m0, kv);
            self.lemma_tag_model();
        }
    }

    /// After a new node, of the entry `id` under the key at position `ki`,
    /// was appended to both of its lists.
    #[verifier::spinoff_prover]
    proof fn lemma_tag_linked(
        self,
        s1: Self,
        id: EntryId,
        ki: usize,
        node: usize,
        v: V,
        ec: Seq<usize>,
        kc: Seq<usize>,
        entry_list: NodeList,
        key_list: NodeList,
        items3: Map<usize, Node>,
    )
        requires
            s1.inv(),
            id.id() < s1.slots().len(),
            s1.slots()[id.id() as int] is Some,
            ki < s1.klists().len(),
            ec == s1.entry_chains@[id.id() as int],
            kc == s1.key_chains@[ki as int],
            !s1.items().contains_key(node),
            items3.dom() == s1.items().dom().insert(node),
            items3[node].entry == id,
            items3[node].key_index == ki,
            forall|m: usize| #[trigger]
                s1.items().contains_key(m) ==> {
                    &&& items3[m].entry == s1.items()[m].entry
                    &&& items3[m].key_index == s1.items()[m].key_index
                    &&& items3[m].key_links == s1.items()[m].key_links
                    &&& !ec.contains(m) ==> items3[m] == s1.items()[m]
                },
            chain_ok(entry_list, ec.push(node), items3, Axis::Entry),
            self.items().dom() == items3.dom(),
            forall|m: usize| #[trigger]
                items3.contains_key(m) ==> {
                    &&& self.items()[m].entry == items3[m].entry
                    &&& self.items()[m].key_index == items3[m].key_index
                    &&& self.items()[m].entry_links == items3[m].entry_links
                    &&& (m != node && !kc.contains(m)) ==> self.items()[m] == items3[m]
                },
            chain_ok(key_list, kc.push(node), self.items(), Axis::Key),
            self.slots() == s1.slots().update(id.id() as int, Some(Entry { nodes: entry_list })),
            self.klists() == s1.klists().update(ki as int, (s1.klists()[ki as int].0, key_list)),
            self.entry_chains@ == s1.entry_chains@.update(id.id() as int, ec.push(node)),
            self.key_chains@ == s1.key_chains@.update(ki as int, kc.push(node)),
            self.data == s1.data,
            self.tags_added@ == s1.tags_added@ + 1,
            self.values@.len() >= s1.values@.len(),
            node < self.values@.len(),
            self.values@[node as int] == Some(v),
            forall|i: int| 0 <= i < s1.values@.len() && i != node ==> self.values@[i] == s1.values@[i],
        ensures
            self.inv(),
            self.view_model() == s1.view_model().push_tag(id.id(), ki as nat, v),
    {
        let idi = id.id() as int;
        let kii = ki as int;
        let items1 = s1.items();
        let items = self.items();
        let slots = self.slots();
        s1.lemma_members();
        assert forall|m: usize| #[trigger] items1.contains_key(m) implies {
            &&& items[m].entry == items1[m].entry
            &&& items[m].key_index == items1[m].key_index
            &&& self.values@[m as int] == s1.values@[m as int]
            &&& m != node
        } by {
            assert(items3.contains_key(m));
            assert(s1.placed(m));
        }
        assert(items3.contains_key(node));
        // lists along the entry axis
        assert forall|i: int| 0 <= i < slots.len() && i != idi && (#[trigger] slots[i]) is Some implies
            chain_ok(slots[i].unwrap().nodes, self.entry_chains@[i], items, Axis::Entry) by {
            let c = self.entry_chains@[i];
            assert(slots[i] == s1.slots()[i]);
            assert(c == s1.entry_chains@[i]);
            assert forall|x: int| 0 <= x < c.len() implies #[trigger] items.contains_key(c[x])
                && items[c[x]].links_on(Axis::Entry) == items1[c[x]].links_on(Axis::Entry) by {
                assert(items1.contains_key(c[x]));
                assert(items1[c[x]].entry.id() == i);
                assert(!ec.contains(c[x])) by {
                    if ec.contains(c[x]) {
                        let y = choose|y: int| 0 <= y < ec.len() && ec[y] == c[x];
                        assert(items1[ec[y]].entry.id() == idi);
                    }
                }
                assert(items3.contains_key(c[x]));
            }
            lemma_chain_frame(slots[i].unwrap().nodes, c, items1, items, Axis::Entry);
        }
        assert(chain_ok(entry_list, ec.push(node), items, Axis::Entry)) by {
            let c = ec.push(node);
            assert forall|x: int| 0 <= x < c.len() implies #[trigger] items.contains_key(c[x])
                && items[c[x]].links_on(Axis::Entry) == items3[c[x]].links_on(Axis::Entry) by {
                assert(items3.contains_key(c[x]));
            }
            lemma_chain_frame(entry_list, c, items3, items, Axis::Entry);
        }
        assert(self.entry_lists_ok()) by {
            assert forall|i: int| 0 <= i < slots.len() implies {
                &&& (#[trigger] slots[i]) is Some ==> chain_ok(slots[i].unwrap().nodes, self.entry_chains@[i], items, Axis::Entry)
                &&& slots[i] is None ==> self.entry_chains@[i].len() == 0
            } by {
                if i != idi {
                    assert(slots[i] == s1.slots()[i]);
                }
            }
        }
        // lists along the key axis
        assert forall|k: int| 0 <= k < self.klists().len() && k != kii implies
            chain_ok((#[trigger] self.klists()[k]).1, self.key_chains@[k], items, Axis::Key) by {
            let c = self.key_chains@[k];
            assert(self.klists()[k] == s1.klists()[k]);
            assert(c == s1.key_chains@[k]);
            assert forall|x: int| 0 <= x < c.len() implies #[trigger] items.contains_key(c[x])
                && items[c[x]].links_on(Axis::Key) == items1[c[x]].links_on(Axis::Key) by {
                assert(items1.contains_key(c[x]));
                assert(items1[c[x]].key_index == k);
                assert(!kc.contains(c[x])) by {
                    if kc.contains(c[x]) {
                        let y = choose|y: int| 0 <= y < kc.len() && kc[y] == c[x];
                        assert(items1[kc[y]].key_index == kii);
                    }
                }
                assert(items3.contains_key(c[x]));
            }
            lemma_chain_frame(self.klists()[k].1, c, items1, items, Axis::Key);
        }
        assert(self.key_lists_ok());
        // owners
        assert(self.owners_ok()) by {
            assert forall|i: int, j: int|
                0 <= i < self.entry_chains@.len() && 0 <= j < self.entry_chains@[i].len() implies
                (#[trigger] items[self.entry_chains@[i][j]]).entry.id() == i by {
                if i != idi || j < ec.len() {
                    let m = s1.entry_chains@[i][j];
                    assert(self.entry_chains@[i][j] == m);
                    assert(items1.contains_key(m));
                }
            }
            assert forall|k: int, j: int|
                0 <= k < self.key_chains@.len() && 0 <= j < self.key_chains@[k].len() implies
                (#[trigger] items[self.key_chains@[k][j]]).key_index == k by {
                if k != kii || j < kc.len() {
                    let m = s1.key_chains@[k][j];
                    assert(self.key_chains@[k][j] == m);
                    assert(items1.contains_key(m));
                }
            }
        }
        assert forall|m: usize| #[trigger] items.contains_key(m) implies self.placed(m) by {
            if m == node {
                assert(self.entry_chains@[idi][ec.len() as int] == node);
                assert(self.key_chains@[kii][kc.len() as int] == node);
            } else {
                assert(items1.contains_key(m));
                assert(s1.placed(m));
                let e = items1[m].entry.id() as int;
                let kk = items1[m].key_index as int;
                let y = choose|y: int| 0 <= y < s1.entry_chains@[e].len() && s1.entry_chains@[e][y] == m;
                assert(self.entry_chains@[e][y] == m);
                let z = choose|z: int| 0 <= z < s1.key_chains@[kk].len() && s1.key_chains@[kk][z] == m;
                assert(self.key_chains@[kk][z] == m);
            }
        }
        assert forall|i: int| 0 <= i < slots.len() implies ((#[trigger] slots[i]) is Some <==> self.data@[i] is Some) by {
            if i != idi {
                assert(slots[i] == s1.slots()[i]);
            }
        }
        assert(self.keys_distinct()) by {
            assert forall|a: int, b: int| 0 <= a < b < self.klists().len() implies self.klists()[a].0 != self.klists()[b].0 by {
                assert(self.klists()[a].0 == s1.klists()[a].0);
                assert(self.klists()[b].0 == s1.klists()[b].0);
            }
        }
        // the model
        let m1 = s1.view_model();
        let m = self.view_model();
        let goal = m1.push_tag(id.id(), ki as nat, v);
        assert(m.keys =~= m1.keys);
        assert forall|i: nat| #[trigger] m.entries.contains_key(i) implies m.entries[i] == goal.entries[i] by {
            let c = s1.entry_chains@[i as int];
            assert forall|x: int| #![trigger c[x]] 0 <= x < c.len() implies self.items()[c[x]].key_index == s1.items()[c[x]].key_index && self.items()[c[x]].entry == s1.items()[c[x]].entry && self.values@[c[x] as int] == s1.values@[c[x] as int] by {
                assert(items1.contains_key(c[x]));
            }
            if i == id.id() {
                assert(self.entry_view(i).tags =~= s1.entry_view(i).tags.push((ki as nat, v)));
            } else {
                assert(slots[i as int] == s1.slots()[i as int]);
                assert(self.entry_view(i).tags =~= s1.entry_view(i).tags);
            }
        }
        assert(m.entries =~= goal.entries);
        assert forall|k: int| 0 <= k < m.key_tags.len() implies #[trigger] m.key_tags[k] == goal.key_tags[k] by {
            let c = s1.key_chains@[k];
            assert forall|x: int| #![trigger c[x]] 0 <= x < c.len() implies self.items()[c[x]].key_index == s1.items()[c[x]].key_index && self.items()[c[x]].entry == s1.items()[c[x]].entry && self.values@[c[x] as int] == s1.values@[c[x] as int] by {
                assert(items1.contains_key(c[x]));
            }
            if k == kii {
                assert(m.key_tags[k] =~= m1.key_tags[k].push((id.id(), v)));
            } else {
                assert(m.key_tags[k] =~= m1.key_tags[k]);
            }
        }
        assert(m.key_tags =~= goal.key_tags);
        assert(m =~= goal);
        assert(self.items().contains_key(node));
        s1.lemma_tag_model();
        laws::lemma_push_tag_wf(m1, id.id(), ki as nat, v);
        self.lemma_tag_model();
        assert(self.inv());
    }

    /// After every node of the entry `id` was taken out of its key's list and
    /// out of the slab.
    proof fn lemma_cleared(self, s0: Self, id: EntryId, c: Seq<usize>, gone: Set<usize>)
        requires
            s0.inv(),
            id.id() < s0.slots().len(),
            s0.slots()[id.id() as int] is Some,
            c == s0.entry_chains@[id.id() as int],
            forall|x: int| 0 <= x < c.len() ==> gone.contains(#[trigger] c[x]),
            forall|m: usize| #[trigger]
                gone.contains(m) ==> s0.items().contains_key(m) && s0.items()[m].entry.id() == id.id(),
            self.slots() == s0.slots().update(id.id() as int, Some(Entry { nodes: NodeList::Empty })),
            self.entry_chains@ == s0.entry_chains@.update(id.id() as int, Seq::empty()),
            self.data == s0.data,
            self.tags_added == s0.tags_added,
            self.klists().len() == s0.klists().len(),
            forall|k: int| 0 <= k < self.klists().len() ==> (#[trigger] self.klists()[k]).0 == s0.klists()[k].0,
            self.key_chains@.len() == s0.key_chains@.len(),
            forall|k: int|
                0 <= k < self.key_chains@.len() ==> #[trigger] self.key_chains@[k] == drop_nodes(
                    s0.key_chains@[k],
                    gone,
                ),
            forall|k: int|
                0 <= k < self.klists().len() ==> chain_ok(
                    (#[trigger] self.klists()[k]).1,
                    self.key_chains@[k],
                    self.items(),
                    Axis::Key,
                ),
            forall|m: usize| #[trigger]
                self.items().contains_key(m) <==> s0.items().contains_key(m) && !gone.contains(m),
            forall|m: usize| #[trigger]
                self.items().contains_key(m) ==> self.items()[m].entry == s0.items()[m].entry
                    && self.items()[m].key_index == s0.items()[m].key_index && self.items()[m].entry_links
                    == s0.items()[m].entry_links,
            self.values@.len() == s0.values@.len(),
            forall|m: usize| #[trigger]
                self.items().contains_key(m) ==> self.values@[m as int] == s0.values@[m as int],
        ensures
            self.inv(),
            self.view_model() == s0.view_model().clear_entry(id.id()),
    {
        let idi = id.id() as int;
        let items0 = s0.items();
        let items = self.items();
        let slots = self.slots();
        s0.lemma_members();
        // a node of the entry is one of its list
        assert forall|m: usize| #[trigger] items0.contains_key(m) && items0[m].entry.id() == idi implies gone.contains(m) by {
            assert(s0.placed(m));
            let x = choose|x: int| 0 <= x < c.len() && c[x] == m;
        }
        // lists along the entry axis
        assert(self.entry_lists_ok()) by {
            assert forall|i: int| 0 <= i < slots.len() implies {
                &&& (#[trigger] slots[i]) is Some ==> chain_ok(slots[i].unwrap().nodes, self.entry_chains@[i], items, Axis::Entry)
                &&& slots[i] is None ==> self.entry_chains@[i].len() == 0
            } by {
                if i != idi {
                    assert(slots[i] == s0.slots()[i]);
                    let ci = s0.entry_chains@[i];
                    assert(self.entry_chains@[i] == ci);
                    if slots[i] is Some {
                        assert forall|x: int| #![trigger ci[x]] 0 <= x < ci.len() implies items.contains_key(ci[x])
                            && items[ci[x]].links_on(Axis::Entry) == items0[ci[x]].links_on(Axis::Entry) by {
                            assert(items0.contains_key(ci[x]));
                            assert(items0[ci[x]].entry.id() == i);
                            assert(!gone.contains(ci[x]));
                            assert(items.contains_key(ci[x]));
                            assert(items[ci[x]].entry_links == items0[ci[x]].entry_links);
                        }
                        assert(s0.entry_lists_ok());
                        assert(s0.slots()[i] is Some);
                        assert(chain_ok(s0.slots()[i].unwrap().nodes, ci, items0, Axis::Entry));
                        lemma_chain_frame(slots[i].unwrap().nodes, ci, items0, items, Axis::Entry);
                    }
                } else {
                    assert(self.entry_chains@[i] =~= Seq::<usize>::empty());
                }
            }
        }
        assert(self.key_lists_ok());
        assert(self.owners_ok()) by {
            assert forall|i: int, j: int|
                0 <= i < self.entry_chains@.len() && 0 <= j < self.entry_chains@[i].len() implies
                (#[trigger] items[self.entry_chains@[i][j]]).entry.id() == i by {
                if i != idi {
                    let m = s0.entry_chains@[i][j];
                    assert(self.entry_chains@[i][j] == m);
                    assert(items0.contains_key(m));
                    assert(items0[m].entry.id() == i);
                    assert(!gone.contains(m));
                    assert(items.contains_key(m));
                }
            }
            assert forall|k: int, j: int|
                0 <= k < self.key_chains@.len() && 0 <= j < self.key_chains@[k].len() implies
                (#[trigger] items[self.key_chains@[k][j]]).key_index == k by {
                let m = self.key_chains@[k][j];
                assert(self.key_chains@[k].contains(m));
                lemma_drop_nodes_contains(s0.key_chains@[k], gone, m);
                let y = choose|y: int| 0 <= y < s0.key_chains@[k].len() && s0.key_chains@[k][y] == m;
                assert(items0[s0.key_chains@[k][y]].key_index == k);
                assert(!gone.contains(m));
                assert(items.contains_key(m));
            }
        }
        assert forall|m: usize| #[trigger] items.contains_key(m) implies self.placed(m) by {
            assert(s0.placed(m));
            let e = items0[m].entry.id() as int;
            let kk = items0[m].key_index as int;
            assert(e != idi);
            assert(self.entry_chains@[e] == s0.entry_chains@[e]);
            lemma_drop_nodes_contains(s0.key_chains@[kk], gone, m);
        }
        assert forall|i: int| 0 <= i < slots.len() implies ((#[trigger] slots[i]) is Some <==> self.data@[i] is Some) by {
            if i != idi {
                assert(slots[i] == s0.slots()[i]);
            }
        }
        assert(self.keys_distinct()) by {
            assert forall|a: int, b: int| 0 <= a < b < self.klists().len() implies self.klists()[a].0 != self.klists()[b].0 by {
                assert(self.klists()[a].0 == s0.klists()[a].0);
                assert(self.klists()[b].0 == s0.klists()[b].0);
            }
        }
        // the model
        let m0 = s0.view_model();
        let m = self.view_model();
        let goal = m0.clear_entry(id.id());
        assert(m.keys =~= m0.keys);
        assert forall|i: nat| #[trigger] m.entries.contains_key(i) implies m.entries[i] == goal.entries[i] by {
            if i == id.id() {
                assert(self.entry_view(i).tags =~= Seq::empty());
            } else {
                let ci = s0.entry_chains@[i as int];
                assert(slots[i as int] == s0.slots()[i as int]);
                assert forall|x: int| #![trigger ci[x]] 0 <= x < ci.len() implies self.items()[ci[x]].key_index == s0.items()[ci[x]].key_index && self.items()[ci[x]].entry == s0.items()[ci[x]].entry && self.values@[ci[x] as int] == s0.values@[ci[x] as int] by {
                    assert(items0.contains_key(ci[x]));
                    assert(items0[ci[x]].entry.id() == i);
                    assert(!gone.contains(ci[x]));
                    assert(items.contains_key(ci[x]));
                }
                assert(self.entry_view(i).tags =~= s0.entry_view(i).tags);
            }
        }
        assert(m.entries =~= goal.entries);
        assert forall|k: int| 0 <= k < m.key_tags.len() implies #[trigger] m.key_tags[k] == goal.key_tags[k] by {
            let ck = s0.key_chains@[k];
            let dk = self.key_chains@[k];
            assert forall|x: int| #![trigger dk[x]] 0 <= x < dk.len() implies self.items()[dk[x]].key_index == s0.items()[dk[x]].key_index && self.items()[dk[x]].entry == s0.items()[dk[x]].entry && self.values@[dk[x] as int] == s0.values@[dk[x] as int] by {
                assert(chain_ok(self.klists()[k].1, dk, items, Axis::Key));
                assert(items.contains_key(dk[x]));
            }
            assert(m.key_tags[k] =~= key_chain_tags(items0, s0.values@, dk));
            assert forall|x: int| 0 <= x < ck.len() implies (gone.contains(ck[x]) <==> items0[ck[x]].entry.id() == id.id()) by {
                assert(items0.contains_key(ck[x]));
            }
            lemma_drop_nodes_tags(ck, gone, items0, s0.values@, id.id());
        }
        assert(m.key_tags =~= goal.key_tags);
        assert(m =~= goal);
        s0.lemma_tag_model();
        laws::lemma_clear_entry_wf(m0, id.id());
        self.lemma_tag_model();
        assert(self.inv());
    }

    /// After the data of every entry was replaced, in increasing order of
    /// index, by the elements of `finals`.
    proof fn lemma_refilled(self, s0: Self, finals: Seq<E>)
        requires
            s0.inv(),
            s0.bounded(),
            self.entries == s0.entries,
            self.key_lists == s0.key_lists,
            self.nodes == s0.nodes,
            self.values == s0.values,
            self.entry_chains == s0.entry_chains,
            self.key_chains == s0.key_chains,
            self.tags_added == s0.tags_added,
            self.data@ == refill(s0.data@, finals),
            finals.len() == s0.view_model().live_ids().len(),
        ensures
            self.inv(),
            self.bounded(),
            self.view_model() == s0.view_model().set_all_data(s0.view_model().live_ids(), finals),
    {
        let m0 = s0.view_model();
        let live = m0.live_ids();
        let d0 = s0.data@;
        s0.lemma_tag_model();
        laws::law_live_ids(m0);
        assert(slots_match(d0, m0));
        lemma_filled_indices(d0, m0);
        lemma_refill(d0, finals);
        let fi = filled_indices(d0);
        assert forall|i: int| 0 <= i < d0.len() && d0[i] is Some implies self.data@[i] == Some(
            finals[live.index_of(i as nat)],
        ) by {
            assert(m0.entries.contains_key(i as nat));
            assert(live.contains(i as nat));
            let k = live.index_of(i as nat);
            assert(live[k] == i);
            assert(fi[k] as nat == live[k]);
        }
        let slots = self.slots();
        assert forall|i: int| 0 <= i < slots.len() implies ((#[trigger] slots[i]) is Some <==> self.data@[i] is Some) by {
            assert(slots[i] == s0.slots()[i]);
        }
        assert(self.tag_model() == s0.tag_model());
        let m = self.view_model();
        let goal = m0.set_all_data(live, finals);
        assert(m.entries.dom() =~= goal.entries.dom());
        assert forall|i: nat| #[trigger] m.entries.contains_key(i) implies m.entries[i] == goal.entries[i] by {
            assert(m0.entries.contains_key(i));
            assert(live.contains(i));
            assert(self.entry_view(i).tags == s0.entry_view(i).tags);
        }
        assert(m.entries =~= goal.entries);
        assert(m =~= goal);
    }

    /// The tag held by the node `n`: the index of its entry, its key and its
    /// value.
    pub closed spec fn node_tag(&self, n: usize) -> (nat, Seq<char>, V) {
        (
            self.items()[n].entry.id(),
            self.klists()[self.items()[n].key_index as int].0,
            self.values@[n as int].unwrap(),
        )
    }

    /// The lists of the entries `ids`, one after the other, hold each node of
    /// those entries once, and read as the entries' tags.
    proof fn lemma_chains_of(self, ids: Seq<nat>)
        requires
            self.inv(),
            forall|i: int, j: int| 0 <= i < j < ids.len() ==> ids[i] < ids[j],
            forall|i: int| 0 <= i < ids.len() ==> #[trigger] self.view_model().entries.contains_key(ids[i]),
        ensures
            chains_of(self.entry_chains@, ids).no_duplicates(),
            forall|n: usize|
                chains_of(self.entry_chains@, ids).contains(n) <==> self.items().contains_key(n) && ids.contains(
                    self.items()[n].entry.id(),
                ),
            self.view_model().tags_of(ids) == chains_of(self.entry_chains@, ids).map_values(
                |n: usize| self.node_tag(n),
            ),
        decreases ids.len(),
    {
        broadcast use vstd::seq_lib::group_seq_properties;

        let m = self.view_model();
        if ids.len() == 0 {
            assert(chains_of(self.entry_chains@, ids) =~= Seq::<usize>::empty());
            assert(m.tags_of(ids) =~= Seq::empty());
            assert(chains_of(self.entry_chains@, ids).map_values(|n: usize| self.node_tag(n)) =~= Seq::empty());
        } else {
            let ids0 = ids.drop_last();
            let id = ids.last();
            assert(m.entries.contains_key(ids[ids.len() - 1]));
            assert forall|i: int| 0 <= i < ids0.len() implies #[trigger] m.entries.contains_key(ids0[i]) by {
                assert(ids0[i] == ids[i]);
            }
            self.lemma_chains_of(ids0);
            let c0 = chains_of(self.entry_chains@, ids0);
            let c = self.entry_chains@[id as int];
            let all = chains_of(self.entry_chains@, ids);
            assert(all == c0 + c);
            let slots = self.slots();
            assert(slots[id as int] is Some);
            assert(chain_ok(slots[id as int].unwrap().nodes, c, self.items(), Axis::Entry));
            self.lemma_members();
            assert forall|n: usize| c.contains(n) <==> self.items().contains_key(n) && self.items()[n].entry.id() == id by {
                if c.contains(n) {
                    let j = choose|j: int| 0 <= j < c.len() && c[j] == n;
                    assert(self.items().contains_key(c[j]));
                    assert(self.items()[self.entry_chains@[id as int][j]].entry.id() == id);
                }
                if self.items().contains_key(n) && self.items()[n].entry.id() == id {
                    assert(self.placed(n));
                }
            }
            assert forall|e: nat| ids.contains(e) <==> ids0.contains(e) || e == id by {
                if ids.contains(e) {
                    let i = choose|i: int| 0 <= i < ids.len() && ids[i] == e;
                    if i < ids0.len() {
                        assert(ids0[i] == e);
                    }
                }
                if ids0.contains(e) {
                    let i = choose|i: int| 0 <= i < ids0.len() && ids0[i] == e;
                    assert(ids[i] == e);
                }
                if e == id {
                    assert(ids[ids.len() - 1] == e);
                }
            }
            assert forall|e: nat| ids0.contains(e) implies e < id by {
                let i = choose|i: int| 0 <= i < ids0.len() && ids0[i] == e;
                assert(ids[i] == e);
            }
            assert(all.no_duplicates()) by {
                assert forall|i: int, j: int| 0 <= i < all.len() && 0 <= j < all.len() && i != j implies all[i] != all[j] by {
                    if i < c0.len() && j < c0.len() {
                        assert(all[i] == c0[i] && all[j] == c0[j]);
                    } else if i >= c0.len() && j >= c0.len() {
                        assert(all[i] == c[i - c0.len()] && all[j] == c[j - c0.len()]);
                        if i < j {
                            assert(c[i - c0.len()] != c[j - c0.len()]);
                        } else {
                            assert(c[j - c0.len()] != c[i - c0.len()]);
                        }
                    } else {
                        let (p, q) = if i < c0.len() { (i, j) } else { (j, i) };
                        assert(all[p] == c0[p]);
                        assert(all[q] == c[q - c0.len()]);
                        assert(c0.contains(c0[p]));
                        assert(c.contains(c[q - c0.len()]));
                    }
                }
            }
            let nt = |n: usize| self.node_tag(n);
            let tags = m.entries[id].tags;
            assert(m.entries[id] == self.entry_view(id));
            assert(tags.map_values(|t: (nat, V)| (id, m.keys[t.0 as int], t.1)) =~= c.map_values(nt)) by {
                assert forall|j: int| 0 <= j < c.len() implies self.items()[c[j]].entry.id() == id && self.items()[c[j]].key_index
                    < self.klists().len() by {
                    assert(self.items().contains_key(c[j]));
                    assert(self.items()[self.entry_chains@[id as int][j]].entry.id() == id);
                    assert(self.placed(c[j]));
                }
            }
            assert(all.map_values(nt) =~= c0.map_values(nt) + c.map_values(nt));
        }
    }

    /// An empty store.
    pub fn new() -> (s: Self)
        ensures
            s.inv(),
            s.bounded(),
            s.view_model() == StoreModel::<Seq<char>, V, E>::empty(),
            s.room() == crate::model::max_tags(),
    {
        let s = MultiLinkedStore {
            entries: entry_slots_new(),
            key_lists: key_lists_new(),
            nodes: nodes_new(),
            values: Vec::new(),
            data: Vec::new(),
            entry_chains: Ghost(Seq::empty()),
            key_chains: Ghost(Seq::empty()),
            tags_added: Ghost(0),
        };
        assert(s.view_model().entries =~= Map::empty());
        assert(s.view_model().keys =~= Seq::empty());
        assert(s.view_model().key_tags =~= Seq::empty());
        assert(s.view_model() =~= StoreModel::<Seq<char>, V, E>::empty());
        proof {
            laws::lemma_empty_wf::<Seq<char>, V, E>();
            s.lemma_tag_model();
        }
        s
    }

    /// Every tag of the store, each with the index of its entry and its key,
    /// in the order in which the slab holds the nodes.
    pub fn tags(&self) -> (r: Vec<(EntryId, &String, &V)>)
        requires
            self.wf(),
        ensures
            r@.map_values(|t: (EntryId, &String, &V)| (t.0.id(), t.1@, *t.2)).to_multiset()
                == self.model().all_tags().to_multiset(),
    {
        let ks = nodes_keys(&self.nodes);
        let ghost nt = |n: usize| self.node_tag(n);
        let mut r: Vec<(EntryId, &String, &V)> = Vec::new();
        let mut i: usize = 0;
        while i < ks.len()
            invariant
                self.inv(),
                nt == (|n: usize| self.node_tag(n)),
                forall|x: int| 0 <= x < ks@.len() ==> self.items().contains_key(#[trigger] ks@[x]),
                i <= ks@.len(),
                r@.len() == i,
                forall|x: int|
                    0 <= x < i ==> (r@[x].0.id(), r@[x].1@, *r@[x].2) == nt(#[trigger] ks@[x]),
            decreases ks@.len() - i,
        {
            let k = ks[i];
            let n = nodes_get(&self.nodes, k);
            proof {
                assert(self.items().contains_key(ks@[i as int]));
                assert(self.placed(k));
            }
            let key = key_lists_get_index(&self.key_lists, n.key_index).unwrap().0;
            let value = self.values[k].as_ref().unwrap();
            r.push((n.entry, key, value));
            i = i + 1;
        }
        proof {
            let m = self.view_model();
            let live = m.live_ids();
            self.lemma_tag_model();
            laws::law_live_ids(m);
            self.lemma_chains_of(live);
            let c = chains_of(self.entry_chains@, live);
            let g = |t: (EntryId, &String, &V)| (t.0.id(), t.1@, *t.2);
            assert(r@.map_values(g) =~= ks@.map_values(nt));
            assert(ks@.no_duplicates()) by {
                assert forall|x: int, y: int| 0 <= x < ks@.len() && 0 <= y < ks@.len() && x != y implies ks@[x] != ks@[y] by {
                    if x < y {
                        assert(ks@[x] < ks@[y]);
                    } else {
                        assert(ks@[y] < ks@[x]);
                    }
                }
            }
            assert forall|n: usize| ks@.contains(n) <==> c.contains(n) by {
                if ks@.contains(n) {
                    let x = choose|x: int| 0 <= x < ks@.len() && ks@[x] == n;
                    assert(self.items().contains_key(ks@[x]));
                }
                if self.items().contains_key(n) {
                    assert(self.placed(n));
                    let e = self.items()[n].entry.id();
                    assert(self.entry_chains@[e as int].contains(n));
                    assert(self.slots()[e as int] is Some);
                    assert(m.entries.contains_key(e));
                    assert(live.contains(e));
                }
            }
            crate::perm::lemma_perm_map(ks@, c, nt);
        }
        r
    }
}

impl<V, E> Default for MultiLinkedStore<V, E> {
    /// An empty store.
    fn default() -> (s: Self)
        ensures
            s.inv(),
            s.bounded(),
            s.view_model() == StoreModel::<Seq<char>, V, E>::empty(),
            s.room() == crate::model::max_tags(),
    {
        Self::new()
    }
}

impl<V, E> Store<String, V, E> for MultiLinkedStore<V, E> {
    open spec fn wf(&self) -> bool {
        self.inv() && self.bounded()
    }

    open spec fn model(&self) -> StoreModel<Seq<char>, V, E> {
        self.view_model()
    }

    open spec fn tag_room(&self) -> nat {
        self.room()
    }

    proof fn lemma_model_wf(&self) {
        self.lemma_tag_model();
    }

    fn len(&self) -> (n: usize) {
        proof {
            lemma_count_filled(self.slots());
            assert(self.view_model().entries.dom() =~= Set::new(
                |i: nat| i < self.slots().len() && self.slots()[i as int] is Some,
            ));
        }
        entry_slots_num_elements(&self.entries)
    }

    fn is_empty(&self) -> (b: bool) {
        proof {
            lemma_count_filled(self.slots());
            assert(self.view_model().entries.dom() =~= Set::new(
                |i: nat| i < self.slots().len() && self.slots()[i as int] is Some,
            ));
        }
        entry_slots_is_empty(&self.entries)
    }

    fn insert_entry(&mut self, data: E) -> (id: EntryId) {
        let ghost s0 = *self;
        let index = entry_slots_push(&mut self.entries, Entry::new());
        self.data.push(Some(data));
        proof {
            self.entry_chains@ = self.entry_chains@.push(Seq::empty());
        }
        let id = EntryId(index);
        proof {
            id.lemma_id();
            let slots = self.slots();
            assert forall|i: int| 0 <= i < slots.len() implies ((#[trigger] slots[i]) is Some <==> self.data@[i] is Some) by {
                if i < s0.slots().len() {
                    assert(slots[i] == s0.slots()[i]);
                }
            }
            assert(self.entry_lists_ok()) by {
                assert forall|i: int| 0 <= i < slots.len() implies {
                    &&& (#[trigger] slots[i]) is Some ==> chain_ok(slots[i].unwrap().nodes, self.entry_chains@[i], self.items(), Axis::Entry)
                    &&& slots[i] is None ==> self.entry_chains@[i].len() == 0
                } by {
                    if i < s0.slots().len() {
                        assert(slots[i] == s0.slots()[i]);
                        assert(self.entry_chains@[i] == s0.entry_chains@[i]);
                    } else {
                        assert(self.entry_chains@[i] =~= Seq::<usize>::empty());
                    }
                }
            }
            assert(self.owners_ok()) by {
                assert forall|i: int, j: int|
                    0 <= i < self.entry_chains@.len() && 0 <= j < self.entry_chains@[i].len() implies
                    (#[trigger] self.items()[self.entry_chains@[i][j]]).entry.id() == i by {
                    assert(i < s0.entry_chains@.len());
                    assert(self.entry_chains@[i] == s0.entry_chains@[i]);
                }
            }
            assert forall|n: usize| #[trigger] self.items().contains_key(n) implies self.placed(n) by {
                assert(s0.placed(n));
                let e = s0.items()[n].entry.id() as int;
                assert(self.entry_chains@[e] == s0.entry_chains@[e]);
            }
            let m0 = s0.view_model();
            let m = self.view_model();
            assert forall|i: nat| #[trigger] m.entries.contains_key(i) implies m.entries[i] == m0.insert_entry(data).entries[i] by {
                if i < s0.slots().len() {
                    assert(slots[i as int] == s0.slots()[i as int]);
                    assert(self.entry_chains@[i as int] == s0.entry_chains@[i as int]);
                    assert(self.entry_view(i).tags =~= s0.entry_view(i).tags);
                } else {
                    assert(self.entry_view(i).tags =~= Seq::empty());
                }
            }
            assert(m.entries =~= m0.insert_entry(data).entries);
            assert forall|k: int| 0 <= k < m.key_tags.len() implies #[trigger] m.key_tags[k] == m0.key_tags[k] by {
                assert(m.key_tags[k] =~= m0.key_tags[k]);
            }
            assert(m.key_tags =~= m0.key_tags);
            assert(m =~= m0.insert_entry(data));
            s0.lemma_tag_model();
            laws::lemma_insert_entry_wf(m0, data);
            self.lemma_tag_model();
        }
        id
    }

    fn insert_tag(&mut self, id: EntryId, k: String, v: V) {
        let ghost s0 = *self;
        let ghost kv = k@;
        proof {
            id.lemma_id();
        }
        let key_index = match key_lists_get_index_of(&self.key_lists, &k) {
            Some(i) => i,
            None => {
                let r = key_lists_insert_full(&mut self.key_lists, k, NodeList::Empty);
                proof {
                    self.key_chains@ = self.key_chains@.push(Seq::empty());
                }
                r.0
            },
        };
        let ghost s1 = *self;
        proof {
            self.lemma_interned(s0, kv, key_index);
        }
        proof {
            assert(self.items() == s0.items());
        }
        let node = nodes_insert(&mut self.nodes, Node::new(id, key_index));
        proof {
            self.tags_added@ = self.tags_added@ + 1;
            assert(self.items().len() == s0.items().len() + 1);
        }
        place(&mut self.values, node, v);
        let ghost s2 = *self;
        let ghost ec = self.entry_chains@[id.0 as int];
        let mut entry = entry_slots_get(&self.entries, id.0);
        proof {
            let idi = id.0 as int;
            assert(s1.slots()[idi] is Some);
            assert(chain_ok(entry.nodes, ec, s1.items(), Axis::Entry));
            assert forall|x: int| 0 <= x < ec.len() implies #[trigger] self.items().contains_key(ec[x])
                && self.items()[ec[x]].links_on(Axis::Entry) == s1.items()[ec[x]].links_on(Axis::Entry) by {
                assert(s1.items().contains_key(ec[x]));
            }
            lemma_chain_frame(entry.nodes, ec, s1.items(), self.items(), Axis::Entry);
            assert(!ec.contains(node)) by {
                if ec.contains(node) {
                    let j = choose|j: int| 0 <= j < ec.len() && ec[j] == node;
                    assert(s1.items().contains_key(ec[j]));
                }
            }
        }
        entry.nodes.append(&mut self.nodes, node, Axis::Entry, Ghost(ec));
        entry_slots_set(&mut self.entries, id.0, entry);
        proof {
            self.entry_chains@ = self.entry_chains@.update(id.0 as int, ec.push(node));
        }
        let ghost s3 = *self;
        let ghost kc = self.key_chains@[key_index as int];
        let mut list = *key_lists_get_index(&self.key_lists, key_index).unwrap().1;
        proof {
            let ki = key_index as int;
            assert(chain_ok(list, kc, s1.items(), Axis::Key));
            assert forall|x: int| 0 <= x < kc.len() implies #[trigger] self.items().contains_key(kc[x])
                && self.items()[kc[x]].links_on(Axis::Key) == s1.items()[kc[x]].links_on(Axis::Key) by {
                assert(s1.items().contains_key(kc[x]));
                assert(s2.items().contains_key(kc[x]));
            }
            lemma_chain_frame(list, kc, s1.items(), self.items(), Axis::Key);
            assert(s2.items().contains_key(node));
            assert(!kc.contains(node)) by {
                if kc.contains(node) {
                    let j = choose|j: int| 0 <= j < kc.len() && kc[j] == node;
                    assert(s1.items().contains_key(kc[j]));
                }
            }
        }
        list.append(&mut self.nodes, node, Axis::Key, Ghost(kc));
        key_lists_set(&mut self.key_lists, key_index, list);
        proof {
            self.key_chains@ = self.key_chains@.update(key_index as int, kc.push(node));
            let items1 = s1.items();
            assert(s2.items().contains_key(node));
            assert(s3.items().dom() =~= items1.dom().insert(node));
            assert forall|m: usize| #[trigger] items1.contains_key(m) implies {
                &&& s3.items()[m].entry == items1[m].entry
                &&& s3.items()[m].key_index == items1[m].key_index
                &&& s3.items()[m].key_links == items1[m].key_links
                &&& !ec.contains(m) ==> s3.items()[m] == items1[m]
            } by {
                assert(s2.items().contains_key(m));
                assert(m != node);
            }
            self.lemma_tag_linked(s1, id, key_index, node, v, ec, kc, entry.nodes, list, s3.items());
            assert(self.view_model() == s0.view_model().insert_tag(id.id(), kv, v));
        }
    }

    fn remove_entry(&mut self, id: EntryId) -> (data: E) {
        let ghost s0 = *self;
        self.clear_entry(id);
        let ghost s1 = *self;
        proof {
            id.lemma_id();
            assert(s1.view_model().entries.contains_key(id.id()));
        }
        let _ = entry_slots_remove(&mut self.entries, id.0);
        let data = self.data[id.0].take();
        proof {
            let idi = id.0 as int;
            let slots = self.slots();
            assert(s1.data@[idi] is Some);
            assert(self.data@ == s1.data@.update(idi, None));
            assert forall|i: int| 0 <= i < slots.len() implies ((#[trigger] slots[i]) is Some <==> self.data@[i] is Some) by {
                if i != idi {
                    assert(slots[i] == s1.slots()[i]);
                }
            }
            assert(self.entry_lists_ok()) by {
                assert forall|i: int| 0 <= i < slots.len() implies {
                    &&& (#[trigger] slots[i]) is Some ==> chain_ok(slots[i].unwrap().nodes, self.entry_chains@[i], self.items(), Axis::Entry)
                    &&& slots[i] is None ==> self.entry_chains@[i].len() == 0
                } by {
                    if i != idi {
                        assert(slots[i] == s1.slots()[i]);
                    } else {
                        assert(s1.view_model().entries[id.id()] == s1.entry_view(id.id()));
                        assert(s1.view_model().entries[id.id()].tags.len() == 0);
                        assert(s1.entry_chains@[idi].len() == s1.entry_view(id.id()).tags.len());
                    }
                }
            }
            assert forall|n: usize| #[trigger] self.items().contains_key(n) implies self.placed(n) by {
                assert(s1.placed(n));
            }
            let m1 = s1.view_model();
            let m = self.view_model();
            assert forall|i: nat| #[trigger] m.entries.contains_key(i) implies m.entries[i] == m1.entries[i] by {
                assert(slots[i as int] == s1.slots()[i as int]);
                assert(self.entry_view(i).tags =~= s1.entry_view(i).tags);
            }
            assert(m.entries =~= m1.entries.remove(id.id()));
            assert forall|k: int| 0 <= k < m.key_tags.len() implies #[trigger] m.key_tags[k] == m1.key_tags[k] by {
                assert(m.key_tags[k] =~= m1.key_tags[k]);
            }
            assert(m.key_tags =~= m1.key_tags);
            assert(m =~= s0.view_model().remove_entry(id.id()));
            s0.lemma_tag_model();
            laws::lemma_remove_entry_wf(s0.view_model(), id.id());
            self.lemma_tag_model();
            assert(self.inv());
            assert(s1.view_model().entries[id.id()] == s1.entry_view(id.id()));
            assert(data == s1.data@[idi]);
        }
        data.unwrap()
    }

    fn clear_entry(&mut self, id: EntryId) {
        let ghost s0 = *self;
        proof {
            id.lemma_id();
            s0.lemma_members();
        }
        let ghost idi = id.0 as int;
        let ghost c = s0.entry_chains@[idi];
        let mut entry = entry_slots_get(&self.entries, id.0);
        let mut next = entry.nodes.first();
        entry.nodes = NodeList::Empty;
        entry_slots_set(&mut self.entries, id.0, entry);
        let ghost mut j: int = 0;
        let ghost mut gone: Set<usize> = Set::empty();
        proof {
            self.entry_chains@ = self.entry_chains@.update(idi, Seq::empty());
            assert forall|k: int| 0 <= k < self.key_chains@.len() implies #[trigger] self.key_chains@[k]
                == drop_nodes(s0.key_chains@[k], gone) by {
                lemma_drop_nodes_none(s0.key_chains@[k]);
            }
            assert(chain_ok(s0.slots()[idi].unwrap().nodes, c, s0.items(), Axis::Entry));
        }
        while next.is_some()
            invariant
                s0.inv(),
                s0.bounded(),
                self.tags_added == s0.tags_added,
                0 <= idi < s0.slots().len(),
                idi == id.id(),
                s0.slots()[idi] is Some,
                c == s0.entry_chains@[idi],
                chain_ok(s0.slots()[idi].unwrap().nodes, c, s0.items(), Axis::Entry),
                0 <= j <= c.len(),
                next == (if j < c.len() { Some(c[j]) } else { None::<usize> }),
                forall|x: int| 0 <= x < j ==> gone.contains(#[trigger] c[x]),
                forall|x: int| j <= x < c.len() ==> !gone.contains(#[trigger] c[x]),
                forall|m: usize| #[trigger]
                    gone.contains(m) ==> s0.items().contains_key(m) && s0.items()[m].entry.id() == idi,
                self.slots() == s0.slots().update(idi, Some(Entry { nodes: NodeList::Empty })),
                self.entry_chains@ == s0.entry_chains@.update(idi, Seq::empty()),
                self.data == s0.data,
                self.klists().len() == s0.klists().len(),
                forall|k: int| 0 <= k < self.klists().len() ==> (#[trigger] self.klists()[k]).0 == s0.klists()[k].0,
                self.key_chains@.len() == s0.key_chains@.len(),
                forall|k: int|
                    0 <= k < self.key_chains@.len() ==> #[trigger] self.key_chains@[k] == drop_nodes(
                        s0.key_chains@[k],
                        gone,
                    ),
                forall|k: int|
                    0 <= k < self.klists().len() ==> chain_ok(
                        (#[trigger] self.klists()[k]).1,
                        self.key_chains@[k],
                        self.items(),
                        Axis::Key,
                    ),
                forall|m: usize| #[trigger]
                    self.items().contains_key(m) <==> s0.items().contains_key(m) && !gone.contains(m),
                forall|m: usize| #[trigger]
                    self.items().contains_key(m) ==> self.items()[m].entry == s0.items()[m].entry
                        && self.items()[m].key_index == s0.items()[m].key_index && self.items()[m].entry_links
                        == s0.items()[m].entry_links,
                self.values@.len() == s0.values@.len(),
                forall|m: usize| #[trigger]
                    self.items().contains_key(m) ==> self.values@[m as int] == s0.values@[m as int],
            decreases c.len() - j,
        {
            let node = next.unwrap();
            proof {
                assert(c[j] == node);
                assert(s0.items().contains_key(c[j]));
                assert(self.items().contains_key(node));
                assert(s0.placed(node));
            }
            let n = nodes_get(&self.nodes, node);
            next = n.entry_links.next;
            let key_index = n.key_index;
            let ghost ki = key_index as int;
            let ghost kc = self.key_chains@[ki];
            proof {
                assert(s0.items()[c[j]].entry_links == crate::node_list::Links {
                    prev: crate::node_list::prev_in(c, j),
                    next: crate::node_list::next_in(c, j),
                });
                lemma_drop_nodes_contains(s0.key_chains@[ki], gone, node);
                assert(kc.contains(node));
            }
            let ghost pos = kc.index_of(node);
            let mut list = *key_lists_get_index(&self.key_lists, key_index).unwrap().1;
            let ghost items_before = self.items();
            list.remove(&mut self.nodes, node, Axis::Key, Ghost(kc), Ghost(pos));
            key_lists_set(&mut self.key_lists, key_index, list);
            self.values.set(node, None);
            proof {
                assert(chain_ok(s0.klists()[ki].1, s0.key_chains@[ki], s0.items(), Axis::Key));
                lemma_drop_nodes_remove(s0.key_chains@[ki], gone, node, pos);
                assert forall|k: int| 0 <= k < s0.key_chains@.len() && k != ki implies
                    #[trigger] drop_nodes(s0.key_chains@[k], gone.insert(node)) == drop_nodes(s0.key_chains@[k], gone) by {
                    assert(!s0.key_chains@[k].contains(node)) by {
                        if s0.key_chains@[k].contains(node) {
                            let y = choose|y: int| 0 <= y < s0.key_chains@[k].len() && s0.key_chains@[k][y] == node;
                            assert(s0.items()[s0.key_chains@[k][y]].key_index == k);
                        }
                    }
                    lemma_drop_nodes_absent(s0.key_chains@[k], gone, node);
                }
                let old_chains = self.key_chains@;
                self.key_chains@ = self.key_chains@.update(ki, kc.remove(pos));
                // the other key lists keep their links
                assert forall|k: int| 0 <= k < self.klists().len() && k != ki implies chain_ok(
                    (#[trigger] self.klists()[k]).1,
                    self.key_chains@[k],
                    self.items(),
                    Axis::Key,
                ) by {
                    let ck = self.key_chains@[k];
                    assert(ck == old_chains[k]);
                    assert(chain_ok(self.klists()[k].1, ck, items_before, Axis::Key));
                    assert forall|x: int| 0 <= x < ck.len() implies #[trigger] self.items().contains_key(ck[x])
                        && self.items()[ck[x]].links_on(Axis::Key) == items_before[ck[x]].links_on(Axis::Key) by {
                        assert(items_before.contains_key(ck[x]));
                        lemma_drop_nodes_contains(s0.key_chains@[k], gone, ck[x]);
                        let y = choose|y: int| 0 <= y < s0.key_chains@[k].len() && s0.key_chains@[k][y] == ck[x];
                        assert(s0.items()[s0.key_chains@[k][y]].key_index == k);
                        assert(!kc.contains(ck[x])) by {
                            if kc.contains(ck[x]) {
                                lemma_drop_nodes_contains(s0.key_chains@[ki], gone, ck[x]);
                                let z = choose|z: int| 0 <= z < s0.key_chains@[ki].len() && s0.key_chains@[ki][z] == ck[x];
                                assert(s0.items()[s0.key_chains@[ki][z]].key_index == ki);
                            }
                        }
                        assert(ck[x] != node);
                    }
                    lemma_chain_frame(self.klists()[k].1, ck, items_before, self.items(), Axis::Key);
                }
                gone = gone.insert(node);
                j = j + 1;
                assert forall|x: int| 0 <= x < j implies gone.contains(#[trigger] c[x]) by {
                }
                assert forall|x: int| j <= x < c.len() implies !gone.contains(#[trigger] c[x]) by {
                    assert(c[x] != c[j - 1]);
                }
            }
        }
        proof {
            self.lemma_cleared(s0, id, c, gone);
            assert(self.items().dom().subset_of(s0.items().dom()));
            vstd::set_lib::lemma_len_subset(self.items().dom(), s0.items().dom());
            assert(self.klists().len() == s0.klists().len());
        }
    }

    fn entry_data(&self, id: EntryId) -> (data: &E) {
        proof {
            id.lemma_id();
            assert(self.view_model().entries[id.id()] == self.entry_view(id.id()));
        }
        self.data[id.0].as_ref().unwrap()
    }

    fn entry_data_mut(&mut self, id: EntryId) -> (data: &mut E) {
        proof {
            id.lemma_id();
            assert(self.view_model().entries[id.id()] == self.entry_view(id.id()));
        }
        self.data[id.0].as_mut().unwrap()
    }

    fn entries(&self) -> (r: Vec<(EntryId, &E)>) {
        let ids = entry_slots_indices(&self.entries);
        let ghost live = self.view_model().live_ids();
        proof {
            assert(slots_match(self.slots(), self.view_model()));
            lemma_filled_indices(self.slots(), self.view_model());
        }
        let mut r: Vec<(EntryId, &E)> = Vec::new();
        let mut i: usize = 0;
        while i < ids.len()
            invariant
                self.inv(),
                ids@ == filled_indices(self.slots()),
                ids@.len() == live.len(),
                live == self.view_model().live_ids(),
                forall|x: int| 0 <= x < ids@.len() ==> ids@[x] as nat == live[x],
                forall|x: int| 0 <= x < ids@.len() ==> ids@[x] < self.slots().len() && self.slots()[ids@[x] as int] is Some,
                i <= ids@.len(),
                r@.len() == i,
                forall|x: int| 0 <= x < i ==> r@[x].0.id() == live[x] && *r@[x].1 == self.view_model().entries[live[x]].data,
            decreases ids@.len() - i,
        {
            let index = ids[i];
            let id = EntryId(index);
            proof {
                id.lemma_id();
                assert(self.slots()[index as int] is Some);
                assert(self.view_model().entries[live[i as int]] == self.entry_view(live[i as int]));
            }
            r.push((id, self.data[index].as_ref().unwrap()));
            i = i + 1;
        }
        r
    }

    fn entries_mut(&mut self) -> (r: Vec<(EntryId, &mut E)>) {
        let ghost s0 = *self;
        let ghost live = s0.view_model().live_ids();
        proof {
            assert(slots_match(s0.data@, s0.view_model()));
            lemma_filled_indices(s0.data@, s0.view_model());
            s0.lemma_tag_model();
            laws::law_live_ids(s0.view_model());
        }
        let r = filled_mut(&mut self.data);
        proof {
            let finals = Seq::new(r@.len(), |i: int| *final(r@[i].1));
            let fin = after_borrow(*self);
            fin.lemma_refilled(s0, finals);
            assert forall|i: int| 0 <= i < r@.len() implies r@[i].0.id() == live[i] && *r@[i].1
                == s0.view_model().entries[live[i]].data by {
                let fi = filled_indices(s0.data@);
                assert(r@[i].0.id() == fi[i]);
                assert(fi[i] as nat == live[i]);
                assert(s0.data@[live[i] as int] == Some(*r@[i].1));
                assert(s0.view_model().entries.contains_key(live[i]));
                assert(s0.view_model().entries[live[i]] == s0.entry_view(live[i]));
            }
        }
        r
    }

    fn entry_ids(&self) -> (r: Vec<EntryId>) {
        let ids = entry_slots_indices(&self.entries);
        let ghost live = self.view_model().live_ids();
        proof {
            assert(slots_match(self.slots(), self.view_model()));
            lemma_filled_indices(self.slots(), self.view_model());
        }
        let mut r: Vec<EntryId> = Vec::new();
        let mut i: usize = 0;
        while i < ids.len()
            invariant
                ids@.len() == live.len(),
                forall|x: int| 0 <= x < ids@.len() ==> ids@[x] as nat == live[x],
                i <= ids@.len(),
                r@.len() == i,
                forall|x: int| 0 <= x < i ==> r@[x].id() == live[x],
            decreases ids@.len() - i,
        {
            let id = EntryId(ids[i]);
            proof {
                id.lemma_id();
            }
            r.push(id);
            i = i + 1;
        }
        r
    }

    fn keys(&self) -> (r: Vec<&String>) {
        key_lists_keys(&self.key_lists)
    }

    fn tags_by_entry(&self, id: EntryId) -> (r: Vec<(&String, &V)>) {
        proof {
            id.lemma_id();
            self.lemma_members();
            assert(self.view_model().entries[id.id()] == self.entry_view(id.id()));
        }
        let ghost c = self.entry_chains@[id.0 as int];
        let ghost tags = self.view_model().entries[id.id()].tags;
        let entry = entry_slots_get(&self.entries, id.0);
        proof {
            assert(chain_ok(entry.nodes, c, self.items(), Axis::Entry));
        }
        let mut walk = Iter { store: self, index: entry.nodes.first(), axis: Axis::Entry };
        let mut r: Vec<(&String, &V)> = Vec::new();
        let ghost mut j: int = 0;
        while walk.index.is_some()
            invariant
                self.inv(),
                walk.store == self,
                walk.axis == Axis::Entry,
                chain_ok(entry.nodes, c, self.items(), Axis::Entry),
                c == self.entry_chains@[id.0 as int],
                0 <= id.0 < self.entry_chains@.len(),
                tags == entry_chain_tags(self.items(), self.values@, c),
                0 <= j <= c.len(),
                walk.index == (if j < c.len() { Some(c[j]) } else { None::<usize> }),
                r@.len() == j,
                forall|x: int|
                    0 <= x < j ==> r@[x].0@ == self.view_model().keys[tags[x].0 as int] && *r@[x].1 == tags[x].1,
            decreases c.len() - j,
        {
            proof {
                assert(self.items().contains_key(c[j]));
            }
            let node = walk.next().unwrap();
            let n = nodes_get(&self.nodes, node);
            proof {
                assert(self.placed(node));
                assert(self.items()[c[j]].links_on(Axis::Entry) == crate::node_list::Links {
                    prev: crate::node_list::prev_in(c, j),
                    next: crate::node_list::next_in(c, j),
                });
            }
            let key = key_lists_get_index(&self.key_lists, n.key_index).unwrap().0;
            let value = self.values[node].as_ref().unwrap();
            r.push((key, value));
            proof {
                j = j + 1;
            }
        }
        r
    }

    fn tags_by_key(&self, k: &String) -> (r: Vec<(EntryId, &V)>) {
        let mut r: Vec<(EntryId, &V)> = Vec::new();
        let found = key_lists_get_index_of(&self.key_lists, k);
        if found.is_none() {
            proof {
                assert(!self.view_model().keys.contains(k@));
            }
            return r;
        }
        let key_index = found.unwrap();
        let ghost ki = key_index as int;
        proof {
            self.lemma_members();
            let keys = self.view_model().keys;
            assert(keys[ki] == k@);
            assert(keys.contains(k@));
            let j = keys.index_of(k@);
            if j < ki {
                assert(self.klists()[j].0 != self.klists()[ki].0);
            } else if ki < j {
                assert(self.klists()[ki].0 != self.klists()[j].0);
            }
        }
        let ghost c = self.key_chains@[ki];
        let ghost tags = self.view_model().key_tags[ki];
        let list = *key_lists_get_index(&self.key_lists, key_index).unwrap().1;
        proof {
            assert(chain_ok(list, c, self.items(), Axis::Key));
        }
        let mut walk = Iter { store: self, index: list.first(), axis: Axis::Key };
        let ghost mut j: int = 0;
        while walk.index.is_some()
            invariant
                self.inv(),
                walk.store == self,
                walk.axis == Axis::Key,
                chain_ok(list, c, self.items(), Axis::Key),
                0 <= ki < self.key_chains@.len(),
                c == self.key_chains@[ki],
                tags == key_chain_tags(self.items(), self.values@, c),
                0 <= j <= c.len(),
                walk.index == (if j < c.len() { Some(c[j]) } else { None::<usize> }),
                r@.len() == j,
                forall|x: int| 0 <= x < j ==> r@[x].0.id() == tags[x].0 && *r@[x].1 == tags[x].1,
            decreases c.len() - j,
        {
            proof {
                assert(self.items().contains_key(c[j]));
            }
            let node = walk.next().unwrap();
            let n = nodes_get(&self.nodes, node);
            proof {
                assert(self.placed(node));
                assert(self.items()[c[j]].links_on(Axis::Key) == crate::node_list::Links {
                    prev: crate::node_list::prev_in(c, j),
                    next: crate::node_list::next_in(c, j),
                });
            }
            let value = self.values[node].as_ref().unwrap();
            r.push((n.entry, value));
            proof {
                j = j + 1;
            }
        }
        r
    }
}

} // verus!
