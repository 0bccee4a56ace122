//! The nodes of a two-axis linked store and the doubly linked lists that
//! thread them: one list per entry (the entry axis) and one per key (the key
//! axis).
use vstd::prelude::*;
use slab::Slab;
use crate::EntryId;
use crate::outside::{node_items, nodes_get, nodes_remove, nodes_set};

verus! {

/// The two endpoints of a doubly linked list of nodes.
#[derive(Clone, Copy)]
pub enum NodeList {
    Empty,
    NonEmpty { first: usize, last: usize },
}

/// The neighbours of a node along one axis.
#[derive(Clone, Copy)]
pub struct Links {
    pub prev: Option<usize>,
    pub next: Option<usize>,
}

/// An entry of a store: the list of its nodes.
#[derive(Clone, Copy)]
pub struct Entry {
    pub nodes: NodeList,
}

/// One tag of an entry: the entry it belongs to, the position of its key, and
/// its links along the entry axis and along the key axis.
#[derive(Clone, Copy)]
pub struct Node {
    pub entry: EntryId,
    pub key_index: usize,
    pub entry_links: Links,
    pub key_links: Links,
}

/// Which of the two lists through a node is meant.
#[derive(Clone, Copy, PartialEq, Eq, Structural)]
pub enum Axis {
    Entry,
    Key,
}

impl Entry {
    /// An entry with no nodes.
    pub fn new() -> (e: Entry)
        ensures
            e.nodes is Empty,
    {
        Entry { nodes: NodeList::Empty }
    }
}

impl Links {
    pub open spec fn unlinked() -> Links {
        Links { prev: None, next: None }
    }
}

impl Node {
    /// A node of the entry `entry` under the key at `key_index`, linked to
    /// nothing yet.
    pub fn new(entry: EntryId, key_index: usize) -> (n: Node)
        ensures
            n.entry == entry,
            n.key_index == key_index,
            n.entry_links == Links::unlinked(),
            n.key_links == Links::unlinked(),
    {
        Node {
            entry,
            key_index,
            entry_links: Links { prev: None, next: None },
            key_links: Links { prev: None, next: None },
        }
    }

    pub open spec fn links_on(self, axis: Axis) -> Links {
        match axis {
            Axis::Entry => self.entry_links,
            Axis::Key => self.key_links,
        }
    }

    pub open spec fn with_links_on(self, axis: Axis, l: Links) -> Node {
        match axis {
            Axis::Entry => Node { entry_links: l, ..self },
            Axis::Key => Node { key_links: l, ..self },
        }
    }

    /// The node's links along `axis`.
    pub fn links(&self, axis: Axis) -> (l: Links)
        ensures
            l == self.links_on(axis),
    {
        match axis {
            Axis::Entry => self.entry_links,
            Axis::Key => self.key_links,
        }
    }

    /// The node with its links along `axis` replaced.
    pub fn with_links(self, axis: Axis, l: Links) -> (n: Node)
        ensures
            n == self.with_links_on(axis, l),
    {
        match axis {
            Axis::Entry => Node { entry_links: l, ..self },
            Axis::Key => Node { key_links: l, ..self },
        }
    }
}

/// The other axis.
pub open spec fn other(axis: Axis) -> Axis {
    match axis {
        Axis::Entry => Axis::Key,
        Axis::Key => Axis::Entry,
    }
}

/// The node before position `i` of `c`.
pub open spec fn prev_in(c: Seq<usize>, i: int) -> Option<usize> {
    if i == 0 {
        None
    } else {
        Some(c[i - 1])
    }
}

/// The node after position `i` of `c`.
pub open spec fn next_in(c: Seq<usize>, i: int) -> Option<usize> {
    if i + 1 == c.len() {
        None
    } else {
        Some(c[i + 1])
    }
}

/// No node occurs twice in `c`.
pub open spec fn distinct(c: Seq<usize>) -> bool {
    forall|i: int, j: int| 0 <= i < j < c.len() ==> c[i] != c[j]
}

/// `list` is the doubly linked list, along `axis`, of exactly the nodes of
/// `c` in their order.
pub open spec fn chain_ok(list: NodeList, c: Seq<usize>, items: Map<usize, Node>, axis: Axis) -> bool {
    &&& (list is Empty <==> c.len() == 0)
    &&& (list matches NodeList::NonEmpty { first, last } ==> first == c[0] && last == c.last())
    &&& distinct(c)
    &&& forall|i: int| 0 <= i < c.len() ==> #[trigger] items.contains_key(c[i])
    &&& forall|i: int|
        0 <= i < c.len() ==> (#[trigger] items[c[i]]).links_on(axis) == Links {
            prev: prev_in(c, i),
            next: next_in(c, i),
        }
}

/// A list stays well linked when every node of it keeps its links along the
/// list's axis.
pub proof fn lemma_chain_frame(
    list: NodeList,
    c: Seq<usize>,
    items1: Map<usize, Node>,
    items2: Map<usize, Node>,
    axis: Axis,
)
    requires
        chain_ok(list, c, items1, axis),
        forall|i: int|
            0 <= i < c.len() ==> #[trigger] items2.contains_key(c[i]) && items2[c[i]].links_on(axis)
                == items1[c[i]].links_on(axis),
    ensures
        chain_ok(list, c, items2, axis),
{
    assert forall|i: int| 0 <= i < c.len() implies (#[trigger] items2[c[i]]).links_on(axis) == Links {
        prev: prev_in(c, i),
        next: next_in(c, i),
    } by {
        assert(items2.contains_key(c[i]));
        assert(items1[c[i]].links_on(axis) == Links { prev: prev_in(c, i), next: next_in(c, i) });
    }
}

/// Writes the links of `key` along `axis`.
fn set_links(nodes: &mut Slab<Node>, key: usize, axis: Axis, l: Links)
    requires
        node_items(*old(nodes)).contains_key(key),
    ensures
        node_items(*final(nodes)) == node_items(*old(nodes)).insert(
            key,
            node_items(*old(nodes))[key].with_links_on(axis, l),
        ),
{
    let n = nodes_get(nodes, key);
    nodes_set(nodes, key, n.with_links(axis, l));
}

impl NodeList {
    pub open spec fn spec_first(self) -> Option<usize> {
        match self {
            NodeList::Empty => None,
            NodeList::NonEmpty { first, .. } => Some(first),
        }
    }

    /// The first node of the list, if any.
    pub fn first(&self) -> (r: Option<usize>)
        ensures
            r == self.spec_first(),
    {
        match self {
            NodeList::Empty => None,
            NodeList::NonEmpty { first, .. } => Some(*first),
        }
    }

    /// Links `node` in at the end of the list along `axis`.
    pub fn append(&mut self, nodes: &mut Slab<Node>, node: usize, axis: Axis, Ghost(c): Ghost<Seq<usize>>)
        requires
            chain_ok(*old(self), c, node_items(*old(nodes)), axis),
            node_items(*old(nodes)).contains_key(node),
            !c.contains(node),
            node_items(*old(nodes))[node].links_on(axis) == Links::unlinked(),
        ensures
            chain_ok(*final(self), c.push(node), node_items(*final(nodes)), axis),
            node_items(*final(nodes)).dom() == node_items(*old(nodes)).dom(),
                forall|m: usize| #[trigger]
                node_items(*old(nodes)).contains_key(m) ==> {
                    &&& node_items(*final(nodes))[m].entry == node_items(*old(nodes))[m].entry
                    &&& node_items(*final(nodes))[m].key_index == node_items(*old(nodes))[m].key_index
                    &&& node_items(*final(nodes))[m].links_on(other(axis)) == node_items(
                        *old(nodes),
                    )[m].links_on(other(axis))
                    &&& (m != node && !c.contains(m)) ==> node_items(*final(nodes))[m]
                        == node_items(*old(nodes))[m]
                },
    {
        let ghost items0 = node_items(*nodes);
        match *self {
            NodeList::Empty => {
                *self = NodeList::NonEmpty { first: node, last: node };
                assert(c.push(node) =~= seq![node]);
            },
            NodeList::NonEmpty { first, last } => {
                let n = nodes_get(nodes, node);
                set_links(nodes, node, axis, Links { prev: Some(last), next: None });
                let l = nodes_get(nodes, last);
                let ll = l.links(axis);
                set_links(nodes, last, axis, Links { prev: ll.prev, next: Some(node) });
                *self = NodeList::NonEmpty { first, last: node };
                proof {
                    let c2 = c.push(node);
                    let items = node_items(*nodes);
                    assert(c.contains(last));
                    assert forall|i: int| 0 <= i < c2.len() implies #[trigger] items.contains_key(c2[i]) by {
                        if i < c.len() {
                            assert(items0.contains_key(c[i]));
                        }
                    }
                    assert forall|i: int|
                        0 <= i < c2.len() implies (#[trigger] items[c2[i]]).links_on(axis) == Links {
                            prev: prev_in(c2, i),
                            next: next_in(c2, i),
                        } by {
                        if i < c.len() - 1 {
                            assert(c2[i] != node);
                            assert(c2[i] != last);
                            assert(items0[c[i]].links_on(axis) == Links { prev: prev_in(c, i), next: next_in(c, i) });
                        } else if i == c.len() - 1 {
                            assert(items0[c[i]].links_on(axis) == Links { prev: prev_in(c, i), next: next_in(c, i) });
                        }
                    }
                }
            },
        }
    }

    /// Unlinks `node`, the node at position `j` of the list, along `axis`, and
    /// takes it out of the slab.
    pub fn remove(&mut self, nodes: &mut Slab<Node>, node: usize, axis: Axis, Ghost(c): Ghost<Seq<usize>>, Ghost(j): Ghost<int>)
        requires
            chain_ok(*old(self), c, node_items(*old(nodes)), axis),
            0 <= j < c.len(),
            c[j] == node,
        ensures
            chain_ok(*final(self), c.remove(j), node_items(*final(nodes)), axis),
            node_items(*final(nodes)).dom() == node_items(*old(nodes)).dom().remove(node),
                forall|m: usize| #[trigger]
                node_items(*final(nodes)).contains_key(m) ==> {
                    &&& node_items(*final(nodes))[m].entry == node_items(*old(nodes))[m].entry
                    &&& node_items(*final(nodes))[m].key_index == node_items(*old(nodes))[m].key_index
                    &&& node_items(*final(nodes))[m].links_on(other(axis)) == node_items(
                        *old(nodes),
                    )[m].links_on(other(axis))
                    &&& !c.contains(m) ==> node_items(*final(nodes))[m] == node_items(*old(nodes))[m]
                },
    {
        let ghost items0 = node_items(*nodes);
        proof {
            assert(items0.contains_key(c[j]));
            assert(items0[c[j]].links_on(axis) == Links { prev: prev_in(c, j), next: next_in(c, j) });
        }
        match *self {
            NodeList::Empty => {
                proof {
                    assert(false);
                }
            },
            NodeList::NonEmpty { first, last } => {
                let n = nodes_remove(nodes, node);
                let links = n.links(axis);
                if node == first && node == last {
                    proof {
                        if c.len() > 1 {
                            if j == 0 {
                                assert(c[0] == c[c.len() - 1]);
                            } else {
                                assert(c[0] == c[j]);
                            }
                        }
                        assert(c.remove(j) =~= Seq::<usize>::empty());
                    }
                    *self = NodeList::Empty;
                    return;
                }
                proof {
                    assert(c.len() > 1) by {
                        if c.len() == 1 {
                            assert(j == 0);
                        }
                    }
                    assert(node == first <==> j == 0) by {
                        if node == first && j != 0 {
                            assert(c[0] == c[j]);
                        }
                    }
                    assert(node == last <==> j == c.len() - 1) by {
                        if node == last && j != c.len() - 1 {
                            assert(c[c.len() - 1] == c[j]);
                        }
                    }
                }
                let mut new_first = first;
                let mut new_last = last;
                if node == first {
                    new_first = links.next.unwrap();
                } else {
                    let p = links.prev.unwrap();
                    proof {
                        assert(p == c[j - 1]);
                        assert(node_items(*nodes).contains_key(p)) by {
                            assert(items0.contains_key(c[j - 1]));
                        }
                    }
                    let pn = nodes_get(nodes, p);
                    let pl = pn.links(axis);
                    set_links(nodes, p, axis, Links { prev: pl.prev, next: links.next });
                }
                if node == last {
                    new_last = links.prev.unwrap();
                } else {
                    let q = links.next.unwrap();
                    proof {
                        assert(q == c[j + 1]);
                        if j > 0 {
                            assert(c[j - 1] != c[j + 1]);
                        }
                        assert(node_items(*nodes).contains_key(q)) by {
                            assert(items0.contains_key(c[j + 1]));
                        }
                    }
                    let qn = nodes_get(nodes, q);
                    let ql = qn.links(axis);
                    set_links(nodes, q, axis, Links { prev: links.prev, next: ql.next });
                }
                *self = NodeList::NonEmpty { first: new_first, last: new_last };
                proof {
                    let c2 = c.remove(j);
                    let items = node_items(*nodes);
                    c.remove_ensures(j);
                    assert forall|a: int, b: int| 0 <= a < b < c2.len() implies c2[a] != c2[b] by {
                        let a0 = if a < j { a } else { a + 1 };
                        let b0 = if b < j { b } else { b + 1 };
                        assert(c2[a] == c[a0]);
                        assert(c2[b] == c[b0]);
                    }
                    assert forall|i: int| 0 <= i < c2.len() implies #[trigger] items.contains_key(c2[i]) by {
                        let i0 = if i < j { i } else { i + 1 };
                        assert(c2[i] == c[i0]);
                        assert(items0.contains_key(c[i0]));
                        assert(c[i0] != c[j]);
                    }
                    assert forall|i: int|
                        0 <= i < c2.len() implies (#[trigger] items[c2[i]]).links_on(axis) == Links {
                            prev: prev_in(c2, i),
                            next: next_in(c2, i),
                        } by {
                        let i0 = if i < j { i } else { i + 1 };
                        assert(c2[i] == c[i0]);
                        assert(items0[c[i0]].links_on(axis) == Links { prev: prev_in(c, i0), next: next_in(c, i0) });
                        if i0 != j - 1 && i0 != j + 1 {
                            assert(c[i0] != c[j - 1] || j == 0);
                            assert(c[i0] != c[j + 1] || j + 1 == c.len());
                        }
                    }
                    assert forall|m: usize| #[trigger] items.contains_key(m) && !c.contains(m) implies items[m] == items0[m] by {
                        if j > 0 {
                            assert(m != c[j - 1]);
                        }
                        if j + 1 < c.len() {
                            assert(m != c[j + 1]);
                        }
                    }
                }
            },
        }
    }
}

} // verus!
