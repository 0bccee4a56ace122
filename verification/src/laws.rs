//! What holds of every store, across its operations, stated over
//! [`StoreModel`], the value that every [`crate::Store`] operation is
//! specified by.
use vstd::prelude::*;
use crate::model::{EntryModel, StoreModel, values_at, without_entry};

verus! {

proof fn lemma_values_at_push<V>(s: Seq<(nat, V)>, t: (nat, V), n: nat)
    ensures
        values_at(s.push(t), n) == if t.0 == n { values_at(s, n).push(t.1) } else { values_at(s, n) },
{
    assert(s.push(t).drop_last() =~= s);
}

proof fn lemma_values_at_absent<V>(s: Seq<(nat, V)>, n: nat)
    requires
        forall|i: int| 0 <= i < s.len() ==> s[i].0 != n,
    ensures
        values_at(s, n) == Seq::<V>::empty(),
    decreases s.len(),
{
    if s.len() > 0 {
        lemma_values_at_absent(s.drop_last(), n);
    }
}

proof fn lemma_values_at_without<V>(s: Seq<(nat, V)>, id: nat, n: nat)
    ensures
        values_at(without_entry(s, id), n) == if n == id { Seq::<V>::empty() } else { values_at(s, n) },
    decreases s.len(),
{
    reveal(Seq::filter);
    if s.len() > 0 {
        let s0 = s.drop_last();
        lemma_values_at_without(s0, id, n);
        assert(without_entry(s, id) == if s.last().0 != id {
            without_entry(s0, id).push(s.last())
        } else {
            without_entry(s0, id)
        });
        if s.last().0 != id {
            lemma_values_at_push(without_entry(s0, id), s.last(), n);
        }
    } else {
        assert(without_entry(s, id) =~= s);
    }
}

proof fn lemma_without_entry_members<V>(s: Seq<(nat, V)>, id: nat)
    ensures
        forall|i: int| 0 <= i < without_entry(s, id).len() ==> #[trigger] without_entry(s, id)[i].0 != id
            && s.contains(without_entry(s, id)[i]),
    decreases s.len(),
{
    reveal(Seq::filter);
    if s.len() == 0 {
        assert(without_entry(s, id) =~= s);
    } else {
        let s0 = s.drop_last();
        lemma_without_entry_members(s0, id);
        let w0 = without_entry(s0, id);
        let w = without_entry(s, id);
        assert(w == if s.last().0 != id { w0.push(s.last()) } else { w0 });
        assert forall|i: int| 0 <= i < w.len() implies #[trigger] w[i].0 != id && s.contains(w[i]) by {
            if i < w0.len() {
                assert(w[i] == w0[i]);
                assert(s0.contains(w0[i]));
                let j = choose|j: int| 0 <= j < s0.len() && s0[j] == w0[i];
                assert(s[j] == w0[i]);
            } else {
                assert(w[i] == s.last());
                assert(s[s.len() - 1] == s.last());
            }
        }
    }
}

/// Adding an entry keeps a store well formed.
#[verifier::spinoff_prover]
pub proof fn lemma_insert_entry_wf<Kv, V, E>(m: StoreModel<Kv, V, E>, data: E)
    requires
        m.wf(),
    ensures
        m.insert_entry(data).wf(),
{
    let m2 = m.insert_entry(data);
    let id = m.next_id;
    assert(m2.entries.dom() =~= m.entries.dom().insert(id));
    assert forall|x: nat, i: int|
        m2.entries.contains_key(x) && 0 <= i < m2.entries[x].tags.len() implies #[trigger] m2.entries[x].tags[i].0
        < m2.keys.len() by {
        assert(x != id);
        assert(m2.entries[x] == m.entries[x]);
    }
    assert forall|x: nat, k: nat| m2.entries.contains_key(x) && k < m2.keys.len() implies #[trigger] values_at(m2.entries[x].tags, k) == values_at(m2.key_tags[k as int], x) by {
        if x == id {
            assert forall|i: int| 0 <= i < m.key_tags[k as int].len() implies m.key_tags[k as int][i].0 != id by {
                assert(m.entries.contains_key(m.key_tags[k as int][i].0));
            }
            lemma_values_at_absent(m.key_tags[k as int], id);
            assert(values_at(m2.entries[x].tags, k) =~= Seq::<V>::empty());
        } else {
            assert(values_at(m.entries[x].tags, k) == values_at(m.key_tags[k as int], x));
        }
    }
}

/// Making a key known keeps a store well formed.
pub proof fn lemma_with_key_wf<Kv, V, E>(m: StoreModel<Kv, V, E>, k: Kv)
    requires
        m.wf(),
    ensures
        m.with_key(k).wf(),
        m.with_key(k).key_position(k) == m.key_position(k),
        m.key_position(k) < m.with_key(k).keys.len(),
        m.with_key(k).keys[m.key_position(k) as int] == k,
{
    if m.keys.contains(k) {
        let i = m.keys.index_of(k);
        assert(m.keys[i] == k);
    } else {
        let m2 = m.with_key(k);
        let n = m.keys.len();
        assert(m2.keys[n as int] == k);
        assert(m2.keys.contains(k));
        let j = m2.keys.index_of(k);
        if j < n {
            assert(m.keys[j] == k);
        }
        assert forall|x: nat, kk: nat| m2.entries.contains_key(x) && kk < m2.keys.len() implies #[trigger] values_at(m2.entries[x].tags, kk) == values_at(m2.key_tags[kk as int], x) by {
            if kk == n {
                assert forall|i: int| 0 <= i < m.entries[x].tags.len() implies m.entries[x].tags[i].0 != n by {
                }
                lemma_values_at_absent(m.entries[x].tags, n);
                assert(values_at(m2.key_tags[kk as int], x) =~= Seq::<V>::empty());
            } else {
                assert(values_at(m.entries[x].tags, kk) == values_at(m.key_tags[kk as int], x));
            }
        }
    }
}

/// Adding a tag under a known key position keeps a store well formed.
pub proof fn lemma_push_tag_wf<Kv, V, E>(m: StoreModel<Kv, V, E>, id: nat, ki: nat, v: V)
    requires
        m.wf(),
        m.entries.contains_key(id),
        ki < m.keys.len(),
    ensures
        m.push_tag(id, ki, v).wf(),
{
    let m2 = m.push_tag(id, ki, v);
    assert(m2.entries.dom() =~= m.entries.dom());
    assert forall|x: nat, i: int|
        m2.entries.contains_key(x) && 0 <= i < m2.entries[x].tags.len() implies #[trigger] m2.entries[x].tags[i].0 < m2.keys.len() by {
        if x == id && i < m.entries[x].tags.len() {
            assert(m2.entries[x].tags[i] == m.entries[x].tags[i]);
        }
    }
    assert forall|k: int, i: int|
        0 <= k < m2.key_tags.len() && 0 <= i < m2.key_tags[k].len() implies m2.entries.contains_key(#[trigger] m2.key_tags[k][i].0) by {
        if k == ki && i < m.key_tags[k].len() {
            assert(m2.key_tags[k][i] == m.key_tags[k][i]);
        }
    }
    assert forall|x: nat, k: nat| m2.entries.contains_key(x) && k < m2.keys.len() implies #[trigger] values_at(m2.entries[x].tags, k) == values_at(m2.key_tags[k as int], x) by {
        assert(values_at(m.entries[x].tags, k) == values_at(m.key_tags[k as int], x));
        if x == id {
            lemma_values_at_push(m.entries[x].tags, (ki, v), k);
        }
        if k == ki {
            lemma_values_at_push(m.key_tags[k as int], (id, v), x);
        }
    }
}

/// Adding a tag to an existing entry keeps a store well formed.
pub proof fn lemma_insert_tag_wf<Kv, V, E>(m: StoreModel<Kv, V, E>, id: nat, k: Kv, v: V)
    requires
        m.wf(),
        m.entries.contains_key(id),
    ensures
        m.insert_tag(id, k, v).wf(),
{
    lemma_with_key_wf(m, k);
    lemma_push_tag_wf(m.with_key(k), id, m.key_position(k), v);
}

/// Removing the tags of an entry keeps a store well formed.
pub proof fn lemma_clear_entry_wf<Kv, V, E>(m: StoreModel<Kv, V, E>, id: nat)
    requires
        m.wf(),
        m.entries.contains_key(id),
    ensures
        m.clear_entry(id).wf(),
        forall|k: int, i: int|
            0 <= k < m.clear_entry(id).key_tags.len() && 0 <= i < m.clear_entry(id).key_tags[k].len()
                ==> #[trigger] m.clear_entry(id).key_tags[k][i].0 != id,
{
    let m2 = m.clear_entry(id);
    assert(m2.entries.dom() =~= m.entries.dom());
    assert forall|k: int, i: int|
        0 <= k < m2.key_tags.len() && 0 <= i < m2.key_tags[k].len() implies #[trigger] m2.key_tags[k][i].0 != id
            && m2.entries.contains_key(m2.key_tags[k][i].0) by {
        lemma_without_entry_members(m.key_tags[k], id);
        let t = m2.key_tags[k][i];
        assert(m.key_tags[k].contains(t));
        let j = choose|j: int| 0 <= j < m.key_tags[k].len() && m.key_tags[k][j] == t;
        assert(m.entries.contains_key(m.key_tags[k][j].0));
    }
    assert forall|x: nat, i: int|
        m2.entries.contains_key(x) && 0 <= i < m2.entries[x].tags.len() implies #[trigger] m2.entries[x].tags[i].0 < m2.keys.len() by {
        assert(m.entries[x].tags[i] == m2.entries[x].tags[i]);
    }
    assert forall|x: nat, k: nat| m2.entries.contains_key(x) && k < m2.keys.len() implies #[trigger] values_at(m2.entries[x].tags, k) == values_at(m2.key_tags[k as int], x) by {
        lemma_values_at_without(m.key_tags[k as int], id, x);
        if x == id {
            assert(values_at(m2.entries[x].tags, k) =~= Seq::<V>::empty());
        } else {
            assert(values_at(m.entries[x].tags, k) == values_at(m.key_tags[k as int], x));
        }
    }
}

/// Removing an entry keeps a store well formed.
pub proof fn lemma_remove_entry_wf<Kv, V, E>(m: StoreModel<Kv, V, E>, id: nat)
    requires
        m.wf(),
        m.entries.contains_key(id),
    ensures
        m.remove_entry(id).wf(),
{
    lemma_clear_entry_wf(m, id);
    let m1 = m.clear_entry(id);
    let m2 = m.remove_entry(id);
    assert(m2.entries.dom() =~= m1.entries.dom().remove(id));
    assert forall|k: int, i: int|
        0 <= k < m2.key_tags.len() && 0 <= i < m2.key_tags[k].len() implies m2.entries.contains_key(#[trigger] m2.key_tags[k][i].0) by {
        assert(m1.entries.contains_key(m1.key_tags[k][i].0));
    }
    assert forall|x: nat, k: nat| m2.entries.contains_key(x) && k < m2.keys.len() implies #[trigger] values_at(m2.entries[x].tags, k) == values_at(m2.key_tags[k as int], x) by {
        assert(values_at(m1.entries[x].tags, k) == values_at(m1.key_tags[k as int], x));
    }
    assert forall|x: nat, i: int|
        m2.entries.contains_key(x) && 0 <= i < m2.entries[x].tags.len() implies #[trigger] m2.entries[x].tags[i].0 < m2.keys.len() by {
        assert(m1.entries[x].tags[i] == m2.entries[x].tags[i]);
    }
}

/// Replacing the data of an entry keeps a store well formed.
pub proof fn lemma_set_data_wf<Kv, V, E>(m: StoreModel<Kv, V, E>, id: nat, data: E)
    requires
        m.wf(),
        m.entries.contains_key(id),
    ensures
        m.set_data(id, data).wf(),
{
    let m2 = m.set_data(id, data);
    assert(m2.entries.dom() =~= m.entries.dom());
    assert forall|x: nat, k: nat| m2.entries.contains_key(x) && k < m2.keys.len() implies #[trigger] values_at(m2.entries[x].tags, k) == values_at(m2.key_tags[k as int], x) by {
        assert(values_at(m.entries[x].tags, k) == values_at(m.key_tags[k as int], x));
    }
    assert forall|x: nat, i: int|
        m2.entries.contains_key(x) && 0 <= i < m2.entries[x].tags.len() implies #[trigger] m2.entries[x].tags[i].0 < m2.keys.len() by {
        assert(m.entries[x].tags[i] == m2.entries[x].tags[i]);
    }
}

/// The empty store is well formed.
pub proof fn lemma_empty_wf<Kv, V, E>()
    ensures
        StoreModel::<Kv, V, E>::empty().wf(),
{
    assert(StoreModel::<Kv, V, E>::empty().entries.dom() =~= Set::empty());
}

/// A new entry gets an index that no entry has, holds the data it was given
/// and no tags, and adds one to the number of entries; every other entry is
/// untouched.
pub proof fn law_insert_entry<Kv, V, E>(m: StoreModel<Kv, V, E>, data: E)
    requires
        m.wf(),
    ensures
        !m.entries.contains_key(m.next_id),
        m.insert_entry(data).entries[m.next_id] == (EntryModel { data, tags: Seq::<(nat, V)>::empty() }),
        m.insert_entry(data).entries.len() == m.entries.len() + 1,
        forall|id: nat| #[trigger] m.entries.contains_key(id) ==> m.insert_entry(data).entries[id] == m.entries[id],
        m.insert_entry(data).keys == m.keys,
        m.insert_entry(data).key_tags == m.key_tags,
        m.insert_entry(data).live_ids() == m.live_ids().push(m.next_id),
{
    let m2 = m.insert_entry(data);
    lemma_ids_below_agree(m, m2, m.next_id);
    assert(m2.entries.contains_key(m.next_id));
}

proof fn lemma_ids_below_agree<Kv, V, E>(a: StoreModel<Kv, V, E>, b: StoreModel<Kv, V, E>, n: nat)
    requires
        forall|i: nat| i < n ==> (a.entries.contains_key(i) <==> b.entries.contains_key(i)),
    ensures
        a.ids_below(n) == b.ids_below(n),
    decreases n,
{
    if n > 0 {
        lemma_ids_below_agree(a, b, (n - 1) as nat);
    }
}

/// Adding a tag appends it to the tags of its entry and to the tags under its
/// key, makes the key known (at the end of the keys where it is new), and
/// leaves every other entry untouched.
pub proof fn law_insert_tag<Kv, V, E>(m: StoreModel<Kv, V, E>, id: nat, k: Kv, v: V)
    requires
        m.wf(),
        m.entries.contains_key(id),
    ensures
        ({
            let m2 = m.insert_tag(id, k, v);
            let pos = m.key_position(k);
            &&& m2.keys[pos as int] == k
            &&& m2.entries[id].data == m.entries[id].data
            &&& m2.entries[id].tags == m.entries[id].tags.push((pos, v))
            &&& m2.tags_of_key(k) == m.tags_of_key(k).push((id, v))
            &&& m.keys.is_prefix_of(m2.keys)
            &&& m2.keys.len() == if m.keys.contains(k) { m.keys.len() } else { m.keys.len() + 1 }
            &&& m2.entries.dom() == m.entries.dom()
            &&& forall|other: nat| #[trigger] m.entries.contains_key(other) && other != id ==> m2.entries[other] == m.entries[other]
            &&& forall|k2: Kv| k2 != k ==> #[trigger] m2.tags_of_key(k2) == m.tags_of_key(k2)
            &&& m2.next_id == m.next_id
        }),
{
    lemma_with_key_wf(m, k);
    let m1 = m.with_key(k);
    let m2 = m.insert_tag(id, k, v);
    let pos = m.key_position(k);
    assert(m2.keys == m1.keys);
    assert(m2.entries.dom() =~= m.entries.dom());
    assert(m.keys.is_prefix_of(m2.keys)) by {
        if !m.keys.contains(k) {
            assert(m2.keys =~= m.keys.push(k));
        }
    }
    lemma_push_tag_wf(m1, id, pos, v);
    assert(m2.keys.contains(k)) by {
        assert(m2.keys[pos as int] == k);
    }
    let j = m2.keys.index_of(k);
    assert(m2.keys[j] == k);
    if j < pos {
        assert(m2.keys[j] != m2.keys[pos as int]);
    } else if pos < j {
        assert(m2.keys[pos as int] != m2.keys[j]);
    }
    if m.keys.contains(k) {
        let i = m.keys.index_of(k);
        assert(m.keys[i] == k);
        assert(i == pos);
    } else {
        assert(m.tags_of_key(k) =~= Seq::empty());
    }
    assert forall|k2: Kv| k2 != k implies #[trigger] m2.tags_of_key(k2) == m.tags_of_key(k2) by {
        if m.keys.contains(k2) {
            let i = m.keys.index_of(k2);
            assert(m.keys[i] == k2);
            assert(m2.keys[i] == k2);
            assert(m2.keys.contains(k2));
            let i2 = m2.keys.index_of(k2);
            assert(m2.keys[i2] == k2);
            if i2 < i {
                assert(m2.keys[i2] != m2.keys[i]);
            } else if i < i2 {
                assert(m2.keys[i] != m2.keys[i2]);
            }
            assert(i != pos) by {
                assert(m2.keys[pos as int] == k);
            }
        } else {
            if m2.keys.contains(k2) {
                let i2 = m2.keys.index_of(k2);
                assert(m2.keys[i2] == k2);
                if i2 < m.keys.len() {
                    assert(m.keys[i2] == k2);
                } else {
                    assert(m2.keys =~= m.keys.push(k));
                }
            }
        }
    }
}

/// The tags among `tags` under the key `k`, in order, each as the entry `id`
/// with its value.
pub open spec fn tags_under<Kv, V>(tags: Seq<(Kv, V)>, k: Kv, id: nat) -> Seq<(nat, V)>
    decreases tags.len(),
{
    if tags.len() == 0 {
        Seq::empty()
    } else {
        let rest = tags_under(tags.drop_last(), k, id);
        if tags.last().0 == k {
            rest.push((id, tags.last().1))
        } else {
            rest
        }
    }
}

/// Adding a list of tags to an entry appends them, in order, to the tags of
/// the entry, and appends those under each key, in order, to the tags under
/// that key; the keys only grow at their end, and every other entry is
/// untouched.
pub proof fn law_insert_tags<Kv, V, E>(m: StoreModel<Kv, V, E>, id: nat, tags: Seq<(Kv, V)>)
    requires
        m.wf(),
        m.entries.contains_key(id),
    ensures
        ({
            let m2 = m.insert_tags(id, tags);
            let n = m.entries[id].tags.len();
            &&& m2.wf()
            &&& m2.next_id == m.next_id
            &&& m2.entries.dom() == m.entries.dom()
            &&& m2.entries[id].data == m.entries[id].data
            &&& m2.entries[id].tags.len() == n + tags.len()
            &&& forall|i: int| 0 <= i < n ==> #[trigger] m2.entries[id].tags[i] == m.entries[id].tags[i]
            &&& forall|i: int|
                0 <= i < tags.len() ==> m2.keys[m2.entries[id].tags[n + i].0 as int] == tags[i].0
                    && m2.entries[id].tags[n + i].1 == tags[i].1
            &&& forall|k: Kv| #[trigger] m2.tags_of_key(k) == m.tags_of_key(k) + tags_under(tags, k, id)
            &&& m.keys.is_prefix_of(m2.keys)
            &&& forall|other: nat| #[trigger] m.entries.contains_key(other) && other != id ==> m2.entries[other] == m.entries[other]
        }),
    decreases tags.len(),
{
    let n = m.entries[id].tags.len();
    if tags.len() == 0 {
        assert forall|k: Kv| #[trigger] m.tags_of_key(k) == m.tags_of_key(k) + tags_under(tags, k, id) by {
            assert(m.tags_of_key(k) + tags_under(tags, k, id) =~= m.tags_of_key(k));
        }
        assert(m.keys.is_prefix_of(m.keys));
    } else {
        let t0 = tags.drop_last();
        let (k, v) = tags.last();
        law_insert_tags(m, id, t0);
        let m1 = m.insert_tags(id, t0);
        law_insert_tag(m1, id, k, v);
        lemma_insert_tag_wf(m1, id, k, v);
        let m2 = m.insert_tags(id, tags);
        assert(m2 == m1.insert_tag(id, k, v));
        assert forall|i: int| 0 <= i < n implies #[trigger] m2.entries[id].tags[i] == m.entries[id].tags[i] by {
            assert(m2.entries[id].tags[i] == m1.entries[id].tags[i]);
        }
        assert forall|i: int| 0 <= i < tags.len() implies m2.keys[m2.entries[id].tags[n + i].0 as int] == tags[i].0
            && m2.entries[id].tags[n + i].1 == tags[i].1 by {
            if i < t0.len() {
                assert(t0[i] == tags[i]);
                assert(m2.entries[id].tags[n + i] == m1.entries[id].tags[n + i]);
                let p = m1.entries[id].tags[n + i].0 as int;
                assert(p < m1.keys.len());
                assert(m2.keys[p] == m1.keys[p]);
            }
        }
        assert forall|kk: Kv| #[trigger] m2.tags_of_key(kk) == m.tags_of_key(kk) + tags_under(tags, kk, id) by {
            assert(m1.tags_of_key(kk) == m.tags_of_key(kk) + tags_under(t0, kk, id));
            if kk == k {
                assert(m2.tags_of_key(kk) == m1.tags_of_key(kk).push((id, v)));
                assert(tags_under(tags, kk, id) == tags_under(t0, kk, id).push((id, v)));
                assert((m.tags_of_key(kk) + tags_under(t0, kk, id)).push((id, v)) =~= m.tags_of_key(kk) + tags_under(
                    t0,
                    kk,
                    id,
                ).push((id, v)));
            } else {
                assert(m2.tags_of_key(kk) == m1.tags_of_key(kk));
                assert(tags_under(tags, kk, id) == tags_under(t0, kk, id));
            }
        }
        assert(m.keys.is_prefix_of(m2.keys)) by {
            assert forall|i: int| 0 <= i < m.keys.len() implies m.keys[i] == m2.keys[i] by {
                assert(m1.keys[i] == m.keys[i]);
            }
        }
        assert forall|other: nat| #[trigger] m.entries.contains_key(other) && other != id implies m2.entries[other]
            == m.entries[other] by {
            assert(m1.entries.contains_key(other));
        }
    }
}

/// Removing the tags of an entry leaves it with its data and no tags, drops
/// its tags, and only its tags, from under every key, keeping the order of
/// the rest, and leaves every other entry and every key untouched.
pub proof fn law_clear_entry<Kv, V, E>(m: StoreModel<Kv, V, E>, id: nat, k: Kv)
    requires
        m.wf(),
        m.entries.contains_key(id),
    ensures
        ({
            let m2 = m.clear_entry(id);
            &&& m2.entries[id].data == m.entries[id].data
            &&& m2.entries[id].tags.len() == 0
            &&& m2.tags_of_key(k) == without_entry(m.tags_of_key(k), id)
            &&& forall|i: int| 0 <= i < m2.tags_of_key(k).len() ==> #[trigger] m2.tags_of_key(k)[i].0 != id
            &&& m2.keys == m.keys
            &&& m2.entries.dom() == m.entries.dom()
            &&& forall|other: nat| #[trigger] m.entries.contains_key(other) && other != id ==> m2.entries[other] == m.entries[other]
        }),
{
    let m2 = m.clear_entry(id);
    assert(m2.entries.dom() =~= m.entries.dom());
    lemma_without_entry_members(m.tags_of_key(k), id);
    if !m.keys.contains(k) {
        reveal(Seq::filter);
        assert(without_entry(m.tags_of_key(k), id) =~= Seq::empty());
    }
}

/// Removing an entry removes it and its tags, takes one from the number of
/// entries, and leaves every other entry and every key untouched.
pub proof fn law_remove_entry<Kv, V, E>(m: StoreModel<Kv, V, E>, id: nat, k: Kv)
    requires
        m.wf(),
        m.entries.contains_key(id),
    ensures
        ({
            let m2 = m.remove_entry(id);
            &&& !m2.entries.contains_key(id)
            &&& m2.entries.len() + 1 == m.entries.len()
            &&& m2.tags_of_key(k) == without_entry(m.tags_of_key(k), id)
            &&& m2.keys == m.keys
            &&& m2.next_id == m.next_id
            &&& m2.live_ids() == m.live_ids().filter(|x: nat| x != id)
            &&& forall|other: nat| #[trigger] m.entries.contains_key(other) && other != id ==> m2.entries.contains_key(other) && m2.entries[other] == m.entries[other]
        }),
{
    law_clear_entry(m, id, k);
    let m1 = m.clear_entry(id);
    assert(m1.entries.dom() =~= m.entries.dom());
    let m2 = m.remove_entry(id);
    assert(m2.entries.dom() =~= m.entries.dom().remove(id));
    lemma_ids_below_remove(m, m2, id, m.next_id);
}

proof fn lemma_ids_below_remove<Kv, V, E>(a: StoreModel<Kv, V, E>, b: StoreModel<Kv, V, E>, id: nat, n: nat)
    requires
        forall|i: nat| i < n ==> (b.entries.contains_key(i) <==> a.entries.contains_key(i) && i != id),
    ensures
        b.ids_below(n) == a.ids_below(n).filter(|x: nat| x != id),
    decreases n,
{
    reveal(Seq::filter);
    if n == 0 {
        assert(a.ids_below(n).filter(|x: nat| x != id) =~= Seq::empty());
    } else {
        let p = (n - 1) as nat;
        lemma_ids_below_remove(a, b, id, p);
        let ra = a.ids_below(p);
        if a.entries.contains_key(p) {
            assert(ra.push(p).drop_last() =~= ra);
        }
    }
}

/// Removing the tags of an entry is removing the entry and putting it back,
/// with its data and no tags, under the same index.
pub proof fn law_clear_is_remove_then_insert<Kv, V, E>(m: StoreModel<Kv, V, E>, id: nat)
    requires
        m.entries.contains_key(id),
    ensures
        m.clear_entry(id) == (StoreModel {
            entries: m.remove_entry(id).entries.insert(
                id,
                EntryModel { data: m.entries[id].data, tags: Seq::<(nat, V)>::empty() },
            ),
            ..m.remove_entry(id)
        }),
{
    let a = m.clear_entry(id);
    let b = StoreModel {
        entries: m.remove_entry(id).entries.insert(
            id,
            EntryModel { data: m.entries[id].data, tags: Seq::<(nat, V)>::empty() },
        ),
        ..m.remove_entry(id)
    };
    assert(a.entries =~= b.entries);
    assert(a =~= b);
}

/// Changing the data of an entry changes nothing else.
pub proof fn law_set_data<Kv, V, E>(m: StoreModel<Kv, V, E>, id: nat, data: E)
    requires
        m.entries.contains_key(id),
    ensures
        m.set_data(id, data).entries[id].data == data,
        m.set_data(id, data).entries[id].tags == m.entries[id].tags,
        m.set_data(id, data).entries.dom() == m.entries.dom(),
        forall|other: nat| #[trigger] m.entries.contains_key(other) && other != id ==> m.set_data(id, data).entries[other] == m.entries[other],
        m.set_data(id, data).keys == m.keys,
        m.set_data(id, data).key_tags == m.key_tags,
{
    assert(m.set_data(id, data).entries.dom() =~= m.entries.dom());
}

/// The tags of an entry under a key are, value for value and in order, the
/// tags under that key on that entry.
pub proof fn law_tags_agree<Kv, V, E>(m: StoreModel<Kv, V, E>, id: nat, k: Kv)
    requires
        m.wf(),
        m.entries.contains_key(id),
        m.keys.contains(k),
    ensures
        values_at(m.entries[id].tags, m.key_position(k)) == values_at(m.tags_of_key(k), id),
{
}

proof fn lemma_ids_below<Kv, V, E>(m: StoreModel<Kv, V, E>, n: nat)
    ensures
        forall|i: int, j: int| 0 <= i < j < m.ids_below(n).len() ==> m.ids_below(n)[i] < m.ids_below(n)[j],
        forall|i: int| 0 <= i < m.ids_below(n).len() ==> m.ids_below(n)[i] < n && m.entries.contains_key(
            m.ids_below(n)[i],
        ),
        forall|id: nat| id < n && #[trigger] m.entries.contains_key(id) ==> m.ids_below(n).contains(id),
    decreases n,
{
    if n > 0 {
        let r = m.ids_below((n - 1) as nat);
        lemma_ids_below(m, (n - 1) as nat);
        assert forall|id: nat| id < n && #[trigger] m.entries.contains_key(id) implies m.ids_below(n).contains(id) by {
            if id == n - 1 {
                assert(m.ids_below(n)[r.len() as int] == id);
            } else {
                assert(r.contains(id));
                let i = choose|i: int| 0 <= i < r.len() && r[i] == id;
                assert(m.ids_below(n)[i] == id);
            }
        }
    }
}

/// The indices of the entries, as the entries are listed, are the indices of
/// exactly the existing entries, each once, in increasing order, which is the
/// order in which the entries were added.
pub proof fn law_live_ids<Kv, V, E>(m: StoreModel<Kv, V, E>)
    requires
        m.wf(),
    ensures
        forall|i: int, j: int| 0 <= i < j < m.live_ids().len() ==> m.live_ids()[i] < m.live_ids()[j],
        forall|i: int| 0 <= i < m.live_ids().len() ==> #[trigger] m.entries.contains_key(m.live_ids()[i]),
        forall|id: nat| #[trigger] m.entries.contains_key(id) ==> m.live_ids().contains(id),
        m.live_ids().len() == m.entries.len(),
{
    lemma_ids_below(m, m.next_id);
    let l = m.live_ids();
    assert(l.to_set() =~= m.entries.dom()) by {
        assert forall|id: nat| l.to_set().contains(id) <==> m.entries.dom().contains(id) by {
            if l.to_set().contains(id) {
                assert(l.contains(id));
                let i = choose|i: int| 0 <= i < l.len() && l[i] == id;
            }
        }
    }
    assert(l.no_duplicates()) by {
        assert forall|i: int, j: int| 0 <= i < l.len() && 0 <= j < l.len() && i != j implies l[i] != l[j] by {
            if i < j {
                assert(l[i] < l[j]);
            } else {
                assert(l[j] < l[i]);
            }
        }
    }
    l.unique_seq_to_set();
}

/// Changing the data of every entry in place, in increasing order of index,
/// gives each entry the data at its own position and changes nothing else.
pub proof fn law_set_all_data<Kv, V, E>(m: StoreModel<Kv, V, E>, datas: Seq<E>)
    requires
        m.wf(),
        datas.len() == m.live_ids().len(),
    ensures
        m.set_all_data(m.live_ids(), datas).wf(),
        m.set_all_data(m.live_ids(), datas).entries.dom() == m.entries.dom(),
        forall|i: int|
            0 <= i < datas.len() ==> #[trigger] m.set_all_data(m.live_ids(), datas).entries[m.live_ids()[i]]
                == (EntryModel { data: datas[i], tags: m.entries[m.live_ids()[i]].tags }),
        m.set_all_data(m.live_ids(), datas).next_id == m.next_id,
        m.set_all_data(m.live_ids(), datas).keys == m.keys,
        m.set_all_data(m.live_ids(), datas).key_tags == m.key_tags,
{
    let live = m.live_ids();
    let m2 = m.set_all_data(live, datas);
    law_live_ids(m);
    assert(m2.entries.dom() =~= m.entries.dom());
    assert forall|i: int| 0 <= i < datas.len() implies #[trigger] m2.entries[live[i]]
        == (EntryModel { data: datas[i], tags: m.entries[live[i]].tags }) by {
        assert(live.contains(live[i]));
        let j = live.index_of(live[i]);
        assert(live[j] == live[i]);
        if j < i {
            assert(live[j] < live[i]);
        } else if i < j {
            assert(live[i] < live[j]);
        }
    }
    crate::model::lemma_wf_erase(m);
    crate::model::lemma_wf_erase(m2);
    assert(m2.erase().entries =~= m.erase().entries);
    assert(m2.erase() =~= m.erase());
}

/// The triples of `s` that belong to the entry `id`, in order.
pub open spec fn triples_of<Kv, V>(s: Seq<(nat, Kv, V)>, id: nat) -> Seq<(nat, Kv, V)> {
    s.filter(|x: (nat, Kv, V)| x.0 == id)
}

/// The tags of the existing entry `id`, each as `id`, its key and its value.
pub open spec fn entry_triples<Kv, V, E>(m: StoreModel<Kv, V, E>, id: nat) -> Seq<(nat, Kv, V)> {
    m.entries[id].tags.map_values(|t: (nat, V)| (id, m.keys[t.0 as int], t.1))
}

proof fn lemma_filter_all<A>(s: Seq<A>, pred: spec_fn(A) -> bool)
    requires
        forall|i: int| 0 <= i < s.len() ==> pred(#[trigger] s[i]),
    ensures
        s.filter(pred) == s,
    decreases s.len(),
{
    reveal(Seq::filter);
    if s.len() > 0 {
        lemma_filter_all(s.drop_last(), pred);
        assert(pred(s[s.len() - 1]));
        assert(s.drop_last().push(s.last()) =~= s);
    } else {
        assert(s.filter(pred) =~= s);
    }
}

proof fn lemma_filter_none<A>(s: Seq<A>, pred: spec_fn(A) -> bool)
    requires
        forall|i: int| 0 <= i < s.len() ==> !pred(#[trigger] s[i]),
    ensures
        s.filter(pred) == Seq::<A>::empty(),
    decreases s.len(),
{
    reveal(Seq::filter);
    if s.len() > 0 {
        lemma_filter_none(s.drop_last(), pred);
        assert(!pred(s[s.len() - 1]));
    } else {
        assert(s.filter(pred) =~= Seq::<A>::empty());
    }
}

/// The tags of the entries `ids`, in their order, as `tags_of` reads them:
/// only those entries' tags, entry by entry, each entry's in its own order.
proof fn lemma_tags_of<Kv, V, E>(m: StoreModel<Kv, V, E>, ids: Seq<nat>)
    requires
        forall|a: int, b: int| 0 <= a < b < ids.len() ==> ids[a] < ids[b],
    ensures
        forall|i: int| 0 <= i < m.tags_of(ids).len() ==> ids.contains(#[trigger] m.tags_of(ids)[i].0),
        forall|i: int, j: int|
            0 <= i < j < m.tags_of(ids).len() ==> #[trigger] m.tags_of(ids)[i].0 <= #[trigger] m.tags_of(ids)[j].0,
        forall|id: nat|
            ids.contains(id) ==> #[trigger] triples_of(m.tags_of(ids), id) =~= entry_triples(m, id),
    decreases ids.len(),
{
    broadcast use Seq::filter_distributes_over_add;

    if ids.len() == 0 {
        assert(m.tags_of(ids) =~= Seq::empty());
    } else {
        let ids0 = ids.drop_last();
        let last = ids.last();
        assert forall|a: int, b: int| 0 <= a < b < ids0.len() implies ids0[a] < ids0[b] by {
            assert(ids0[a] == ids[a] && ids0[b] == ids[b]);
        }
        lemma_tags_of(m, ids0);
        let p = m.tags_of(ids0);
        let t = m.entries[last].tags.map_values(|t: (nat, V)| (last, m.keys[t.0 as int], t.1));
        let all = m.tags_of(ids);
        assert(all == p + t);
        assert forall|e: nat| ids0.contains(e) implies e < last by {
            let a = choose|a: int| 0 <= a < ids0.len() && ids0[a] == e;
            assert(ids[a] == e);
            assert(ids[ids.len() - 1] == last);
        }
        assert forall|e: nat| ids.contains(e) <==> ids0.contains(e) || e == last by {
            if ids.contains(e) {
                let a = choose|a: int| 0 <= a < ids.len() && ids[a] == e;
                if a < ids0.len() {
                    assert(ids0[a] == e);
                }
            }
            if ids0.contains(e) {
                let a = choose|a: int| 0 <= a < ids0.len() && ids0[a] == e;
                assert(ids[a] == e);
            }
            if e == last {
                assert(ids[ids.len() - 1] == e);
            }
        }
        assert forall|i: int| 0 <= i < all.len() implies ids.contains(#[trigger] all[i].0) by {
            if i < p.len() {
                assert(all[i] == p[i]);
                assert(ids0.contains(p[i].0));
            } else {
                assert(all[i] == t[i - p.len()]);
            }
        }
        assert forall|i: int, j: int| 0 <= i < j < all.len() implies #[trigger] all[i].0 <= #[trigger] all[j].0 by {
            if j < p.len() {
                assert(all[i] == p[i] && all[j] == p[j]);
                assert(p[i].0 <= p[j].0);
            } else if i < p.len() {
                assert(all[i] == p[i]);
                assert(ids0.contains(p[i].0));
                assert(all[j] == t[j - p.len()]);
            } else {
                assert(all[i] == t[i - p.len()] && all[j] == t[j - p.len()]);
            }
        }
        assert forall|id: nat| ids.contains(id) implies #[trigger] triples_of(all, id) =~= entry_triples(m, id) by {
            let pred = |x: (nat, Kv, V)| x.0 == id;
            assert(all.filter(pred) == p.filter(pred) + t.filter(pred));
            if id == last {
                assert forall|i: int| 0 <= i < p.len() implies !pred(#[trigger] p[i]) by {
                    assert(ids0.contains(p[i].0));
                }
                lemma_filter_none(p, pred);
                assert forall|i: int| 0 <= i < t.len() implies pred(#[trigger] t[i]) by {
                }
                lemma_filter_all(t, pred);
                assert(all.filter(pred) =~= t);
            } else {
                assert(ids0.contains(id));
                assert forall|i: int| 0 <= i < t.len() implies !pred(#[trigger] t[i]) by {
                }
                lemma_filter_none(t, pred);
                assert(triples_of(p, id) =~= entry_triples(m, id));
                assert(all.filter(pred) =~= p.filter(pred));
            }
        }
    }
}

/// Every tag of the store, as listed together: each belongs to an existing
/// entry; the tags of every existing entry, whatever its index, are all there,
/// in their own order and with their keys and values, and no other tag of that
/// entry is; and the entries come one after the other, in increasing order of
/// index.
pub proof fn law_all_tags<Kv, V, E>(m: StoreModel<Kv, V, E>)
    requires
        m.wf(),
    ensures
        forall|i: int| 0 <= i < m.all_tags().len() ==> m.entries.contains_key(#[trigger] m.all_tags()[i].0),
        forall|id: nat|
            m.entries.contains_key(id) ==> #[trigger] triples_of(m.all_tags(), id) == entry_triples(m, id),
        forall|i: int, j: int|
            0 <= i < j < m.all_tags().len() ==> #[trigger] m.all_tags()[i].0 <= #[trigger] m.all_tags()[j].0,
{
    law_live_ids(m);
    lemma_tags_of(m, m.live_ids());
    assert forall|i: int| 0 <= i < m.all_tags().len() implies m.entries.contains_key(#[trigger] m.all_tags()[i].0) by {
        let l = m.live_ids();
        assert(l.contains(m.all_tags()[i].0));
        let a = choose|a: int| 0 <= a < l.len() && l[a] == m.all_tags()[i].0;
        assert(m.entries.contains_key(l[a]));
    }
}

} // verus!
