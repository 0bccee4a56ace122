use sparse_tags::{EntryId, IndexedStore, MultiLinkedStore, SparseStore, Store};

fn s(x: &str) -> String {
    x.to_string()
}

fn pairs(v: Vec<(&String, &i32)>) -> Vec<(String, i32)> {
    v.into_iter().map(|(k, x)| (k.clone(), *x)).collect()
}

fn by_key(v: Vec<(EntryId, &i32)>) -> Vec<(usize, i32)> {
    v.into_iter().map(|(e, x)| (e.index(), *x)).collect()
}

fn fresh_store_is_empty(store: impl Store<String, i32, u8>) {
    assert_eq!(store.len(), 0);
    assert!(store.is_empty());
    assert!(store.entries().is_empty());
    assert!(store.entry_ids().is_empty());
    assert!(store.keys().is_empty());
}

#[test]
fn new_stores_are_empty() {
    fresh_store_is_empty(MultiLinkedStore::<i32, u8>::new());
    fresh_store_is_empty(IndexedStore::<i32, u8>::new());
    let sparse: SparseStore<i32> = SparseStore::new();
    assert_eq!(sparse.len(), 0);
    assert!(sparse.is_empty());
    assert!(sparse.entries().is_empty());
}

fn indices_are_never_reused(mut store: impl Store<String, i32, u8>) {
    let a = store.insert_entry(1);
    let b = store.insert_entry(2);
    assert_eq!(a.index(), 0);
    assert_eq!(b.index(), 1);
    assert_eq!(store.remove_entry(b), 2);
    let c = store.insert_entry(3);
    assert_eq!(c.index(), 2);
    assert_eq!(store.entry_ids(), vec![a, c]);
    assert_eq!(store.len(), 2);
    assert!(!store.is_empty());
    assert_eq!(*store.entry_data(c), 3);
}

#[test]
fn indices_are_never_reused_multi_linked() {
    indices_are_never_reused(MultiLinkedStore::new());
}

#[test]
fn indices_are_never_reused_indexed() {
    indices_are_never_reused(IndexedStore::new());
}

fn same_key_twice_on_one_entry(mut store: impl Store<String, i32, u8>) {
    let a = store.insert_entry(0);
    let b = store.insert_entry(0);
    store.insert_tag(a, s("k"), 1);
    store.insert_tag(b, s("k"), 2);
    store.insert_tag(a, s("j"), 3);
    store.insert_tag(a, s("k"), 4);
    assert_eq!(pairs(store.tags_by_entry(a)), vec![(s("k"), 1), (s("j"), 3), (s("k"), 4)]);
    assert_eq!(by_key(store.tags_by_key(&s("k"))), vec![(0, 1), (1, 2), (0, 4)]);
    assert_eq!(by_key(store.tags_by_key(&s("j"))), vec![(0, 3)]);
    let keys: Vec<String> = store.keys().into_iter().cloned().collect();
    assert_eq!(keys, vec![s("k"), s("j")]);
}

#[test]
fn same_key_twice_on_one_entry_multi_linked() {
    same_key_twice_on_one_entry(MultiLinkedStore::new());
}

#[test]
fn same_key_twice_on_one_entry_indexed() {
    same_key_twice_on_one_entry(IndexedStore::new());
}

fn clear_keeps_index_and_data(mut store: impl Store<String, i32, u8>) {
    let a = store.insert_entry_with(7, vec![(s("x"), 1), (s("y"), 2)]);
    let b = store.insert_entry_with(8, vec![(s("x"), 3)]);
    store.clear_entry(a);
    assert!(store.tags_by_entry(a).is_empty());
    assert_eq!(*store.entry_data(a), 7);
    assert_eq!(store.entry_ids(), vec![a, b]);
    assert_eq!(by_key(store.tags_by_key(&s("x"))), vec![(1, 3)]);
    assert!(store.tags_by_key(&s("y")).is_empty());
    // The keys stay known after their last tag is gone.
    let keys: Vec<String> = store.keys().into_iter().cloned().collect();
    assert_eq!(keys, vec![s("x"), s("y")]);
    // The entry takes new tags under its old index.
    store.insert_tag(a, s("z"), 9);
    assert_eq!(pairs(store.tags_by_entry(a)), vec![(s("z"), 9)]);
    assert_eq!(by_key(store.tags_by_key(&s("x"))), vec![(1, 3)]);
}

#[test]
fn clear_keeps_index_and_data_multi_linked() {
    clear_keeps_index_and_data(MultiLinkedStore::new());
}

#[test]
fn clear_keeps_index_and_data_indexed() {
    clear_keeps_index_and_data(IndexedStore::new());
}

fn data_can_be_changed_in_place(mut store: impl Store<String, i32, u8>) {
    let a = store.insert_entry_with(1, vec![(s("x"), 5)]);
    let b = store.insert_entry(2);
    *store.entry_data_mut(a) = 10;
    assert_eq!(*store.entry_data(a), 10);
    assert_eq!(*store.entry_data(b), 2);
    assert_eq!(pairs(store.tags_by_entry(a)), vec![(s("x"), 5)]);
    assert_eq!(store.entries(), vec![(a, &10), (b, &2)]);
    assert_eq!(store.remove_entry(a), 10);
    assert_eq!(store.entries(), vec![(b, &2)]);
}

#[test]
fn data_can_be_changed_in_place_multi_linked() {
    data_can_be_changed_in_place(MultiLinkedStore::new());
}

#[test]
fn data_can_be_changed_in_place_indexed() {
    data_can_be_changed_in_place(IndexedStore::new());
}

#[test]
fn unknown_key_has_no_tags_multi_linked() {
    let mut store: MultiLinkedStore<i32> = MultiLinkedStore::new();
    let a = store.insert_entry(());
    store.insert_tag(a, s("x"), 1);
    assert!(store.tags_by_key(&s("nope")).is_empty());
}

fn tags_agree_both_ways(mut store: impl Store<String, i32, u8>) {
    let a = store.insert_entry_with(0, vec![(s("p"), 1), (s("q"), 2), (s("p"), 3)]);
    let b = store.insert_entry_with(0, vec![(s("q"), 4), (s("p"), 5)]);
    let c = store.insert_entry_with(0, vec![(s("p"), 6)]);
    store.remove_entry(b);
    for id in [a, c] {
        for key in [s("p"), s("q")] {
            let from_entry: Vec<i32> = store
                .tags_by_entry(id)
                .into_iter()
                .filter(|(k, _)| **k == key)
                .map(|(_, v)| *v)
                .collect();
            let from_key: Vec<i32> = store
                .tags_by_key(&key)
                .into_iter()
                .filter(|(e, _)| *e == id)
                .map(|(_, v)| *v)
                .collect();
            assert_eq!(from_entry, from_key);
        }
    }
    assert_eq!(by_key(store.tags_by_key(&s("p"))), vec![(0, 1), (0, 3), (2, 6)]);
    assert_eq!(by_key(store.tags_by_key(&s("q"))), vec![(0, 2)]);
}

#[test]
fn tags_agree_both_ways_multi_linked() {
    tags_agree_both_ways(MultiLinkedStore::new());
}

#[test]
fn tags_agree_both_ways_indexed() {
    tags_agree_both_ways(IndexedStore::new());
}

#[test]
fn sparse_store_scenario() {
    let mut store: SparseStore<i32> = SparseStore::default();
    let e1 = store.insert_entry();
    let e2 = store.insert_entry();
    store.insert_tag(e1, s("foo"), 1);
    store.insert_tag(e1, s("bar"), 2);
    store.insert_tag(e2, s("foo"), 3);
    assert_eq!(store.len(), 2);
    assert_eq!(store.entries(), vec![e1, e2]);
    let keys: Vec<String> = store.keys().into_iter().cloned().collect();
    assert_eq!(keys, vec![s("foo"), s("bar")]);
    assert_eq!(pairs(store.tags_by_entry(e1)), vec![(s("foo"), 1), (s("bar"), 2)]);
    assert_eq!(by_key(store.tags_by_key(&s("foo"))), vec![(0, 1), (1, 3)]);
    store.clear_entry(e1);
    assert!(store.tags_by_entry(e1).is_empty());
    assert_eq!(by_key(store.tags_by_key(&s("foo"))), vec![(1, 3)]);
    store.remove_entry(e2);
    assert_eq!(store.entries(), vec![e1]);
    assert!(store.tags_by_key(&s("foo")).is_empty());
    assert_eq!(store.len(), 1);
    assert!(!store.is_empty());
}

fn data_changed_through_entries_mut(mut store: impl Store<String, i32, u8>) {
    let a = store.insert_entry_with(1, vec![(s("x"), 5)]);
    let b = store.insert_entry(2);
    let c = store.insert_entry(3);
    store.remove_entry(b);
    for (id, data) in store.entries_mut() {
        *data += id.index() as u8 * 10;
    }
    assert_eq!(store.entries(), vec![(a, &1), (c, &23)]);
    assert_eq!(pairs(store.tags_by_entry(a)), vec![(s("x"), 5)]);
}

#[test]
fn data_changed_through_entries_mut_multi_linked() {
    data_changed_through_entries_mut(MultiLinkedStore::new());
}

#[test]
fn data_changed_through_entries_mut_indexed() {
    data_changed_through_entries_mut(IndexedStore::new());
}

#[test]
fn every_tag_of_a_multi_linked_store() {
    let mut store: MultiLinkedStore<i32> = MultiLinkedStore::new();
    let a = store.insert_entry_with((), vec![(s("x"), 1), (s("y"), 2)]);
    let b = store.insert_entry_with((), vec![(s("x"), 3)]);
    let c = store.insert_entry_with((), vec![(s("y"), 4), (s("x"), 5)]);
    store.remove_entry(b);
    let d = store.insert_entry_with((), vec![(s("z"), 6)]);
    let mut all: Vec<(usize, String, i32)> =
        store.tags().into_iter().map(|(e, k, v)| (e.index(), k.clone(), *v)).collect();
    all.sort();
    assert_eq!(
        all,
        vec![
            (a.index(), s("x"), 1),
            (a.index(), s("y"), 2),
            (c.index(), s("x"), 5),
            (c.index(), s("y"), 4),
            (d.index(), s("z"), 6),
        ]
    );
}

#[test]
fn unknown_key_has_no_tags_indexed() {
    let mut store: IndexedStore<i32> = IndexedStore::new();
    assert!(store.tags_by_key(&s("x")).is_empty());
    let a = store.insert_entry(());
    store.insert_tag(a, s("x"), 1);
    assert!(store.tags_by_key(&s("nope")).is_empty());
    assert_eq!(by_key(store.tags_by_key(&s("x"))), vec![(0, 1)]);
}

#[test]
fn unknown_key_has_no_tags_sparse() {
    let mut store: SparseStore<i32> = SparseStore::new();
    assert!(store.tags_by_key(&s("x")).is_empty());
    let a = store.insert_entry();
    store.insert_tag(a, s("x"), 1);
    assert!(store.tags_by_key(&s("nope")).is_empty());
}

fn churn_reuses_room(mut store: impl Store<String, i32, u8>) {
    // Adding and removing tags many times over leaves the store as it was.
    let a = store.insert_entry(0);
    for round in 0..1000 {
        let e = store.insert_entry_with(1, vec![(s("k"), round), (s("j"), round)]);
        store.remove_entry(e);
    }
    store.insert_tag(a, s("k"), 7);
    assert_eq!(by_key(store.tags_by_key(&s("k"))), vec![(0, 7)]);
    assert!(store.tags_by_key(&s("j")).is_empty());
    assert_eq!(store.len(), 1);
}

#[test]
fn churn_reuses_room_multi_linked() {
    churn_reuses_room(MultiLinkedStore::new());
}

#[test]
fn churn_reuses_room_indexed() {
    churn_reuses_room(IndexedStore::new());
}
