use nelo::scene::Store;

#[test]
fn create_hands_out_fresh_increasing_ids() {
    let mut store: Store<u32> = Store::new();
    let a = store.create(10);
    let b = store.create(20);
    let c = store.create(30);
    assert!(a < b && b < c);
    assert_eq!(store.get(b).copied(), Some(20));
}

#[test]
fn delete_forgets_an_entity_and_keeps_its_id_used() {
    let mut store: Store<u32> = Store::new();
    let a = store.create(1);
    let b = store.create(2);
    store.delete(a);
    assert!(!store.contains(a));
    assert!(store.contains(b));
    assert_eq!(store.get(a), None);
    let c = store.create(3);
    assert!(c != a && c > b);
}

#[test]
fn get_gives_mutable_access() {
    let mut store: Store<u32> = Store::new();
    let a = store.create(1);
    *store.get(a).unwrap() = 5;
    assert_eq!(store.get(a).copied(), Some(5));
}

#[test]
fn iter_lists_live_entities_in_id_order() {
    let mut store: Store<&str> = Store::new();
    let a = store.create("a");
    let b = store.create("b");
    let c = store.create("c");
    store.delete(b);
    let all: Vec<_> = store.iter().into_iter().map(|(id, d)| (id, *d)).collect();
    assert_eq!(all, vec![(a, "a"), (c, "c")]);
}

#[test]
fn ids_are_issued_in_call_order() {
    let mut store: Store<()> = Store::new();
    let a = store.create(());
    store.delete(a);
    let b = store.create(());
    let c = store.create(());
    assert_eq!(store.count(), 3);
    assert!(a < b && b < c);
    assert!(store.contains(b) && store.contains(c));
}
