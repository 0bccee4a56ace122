use sparse_tags::{IndexedStore, MultiLinkedStore, Store};

fn tags(pairs: &[(&str, i32)]) -> Vec<(String, i32)> {
    pairs.iter().map(|(k, v)| (k.to_string(), *v)).collect()
}

fn test_store(mut store: impl Store<String, i32, &'static str>) {
    let e1 = store.insert_entry_with("e1", tags(&[("foo", 1), ("bar", 2)]));
    let e2 = store.insert_entry_with("e2", tags(&[("foo", 3)]));
    let e3 = store.insert_entry_with("e3", tags(&[("foo", -1), ("bar", -2)]));
    let e4 = store.insert_entry_with("e4", tags(&[("bar", 4)]));

    assert_eq!(store.len(), 4);

    store.remove_entry(e3);
    let e5 = store.insert_entry_with("e5", tags(&[("baz", 5)]));

    assert_eq!(store.len(), 4);

    assert_eq!(*store.entry_data(e1), "e1");
    assert_eq!(*store.entry_data(e2), "e2");
    assert_eq!(*store.entry_data(e4), "e4");
    assert_eq!(*store.entry_data(e5), "e5");

    assert_eq!(
        store.entries(),
        vec![(e1, &"e1"), (e2, &"e2"), (e4, &"e4"), (e5, &"e5")]
    );
    assert_eq!(
        store.keys().into_iter().map(|k| k.as_str()).collect::<Vec<_>>(),
        vec!["foo", "bar", "baz"]
    );

    let foo = "foo".to_string();
    let bar = "bar".to_string();
    let baz = "baz".to_string();

    assert_eq!(store.tags_by_entry(e1), vec![(&foo, &1), (&bar, &2)]);
    assert_eq!(store.tags_by_entry(e2), vec![(&foo, &3)]);
    assert_eq!(store.tags_by_entry(e4), vec![(&bar, &4)]);
    assert_eq!(store.tags_by_entry(e5), vec![(&baz, &5)]);

    assert_eq!(store.tags_by_key(&foo), vec![(e1, &1), (e2, &3)]);
    assert_eq!(store.tags_by_key(&bar), vec![(e1, &2), (e4, &4)]);
    assert_eq!(store.tags_by_key(&baz), vec![(e5, &5)]);

    store.remove_entry(e2);

    assert_eq!(store.entry_ids(), vec![e1, e4, e5]);

    store.clear_entry(e1);

    assert!(store.tags_by_entry(e1).is_empty());
}

#[test]
fn cross_linked() {
    test_store(MultiLinkedStore::default());
}

#[test]
fn cross_linked_remove_cross_axis() {
    let mut store: MultiLinkedStore<i32> = MultiLinkedStore::default();

    let e1 = store.insert_entry_with((), tags(&[("foo", 1), ("bar", 2)]));
    let e2 = store.insert_entry_with((), tags(&[("foo", 3)]));
    let e3 = store.insert_entry_with((), tags(&[("foo", 4), ("bar", 5)]));
    let e4 = store.insert_entry_with((), tags(&[("bar", 6)]));

    store.remove_entry(e1);
    store.remove_entry(e2);
    store.remove_entry(e4);

    let foo = "foo".to_string();
    let bar = "bar".to_string();
    assert_eq!(store.tags_by_entry(e3), vec![(&foo, &4), (&bar, &5)]);
    assert_eq!(store.tags_by_key(&foo), vec![(e3, &4)]);
}

#[test]
fn indexed() {
    test_store(IndexedStore::default());
}

#[test]
fn indexed_remove_cross_axis() {
    let mut store: IndexedStore<i32> = IndexedStore::new();

    let e1 = store.insert_entry_with((), tags(&[("foo", 1), ("bar", 2)]));
    let e2 = store.insert_entry_with((), tags(&[("foo", 3)]));
    let e3 = store.insert_entry_with((), tags(&[("foo", 4), ("bar", 5)]));
    let e4 = store.insert_entry_with((), tags(&[("bar", 6)]));

    store.remove_entry(e1);
    store.remove_entry(e2);
    store.remove_entry(e4);

    let foo = "foo".to_string();
    let bar = "bar".to_string();
    assert_eq!(store.tags_by_entry(e3), vec![(&foo, &4), (&bar, &5)]);
    assert_eq!(store.tags_by_key(&foo), vec![(e3, &4)]);
    assert_eq!(store.tags_by_key(&bar), vec![(e3, &5)]);
    assert_eq!(store.len(), 1);
}
