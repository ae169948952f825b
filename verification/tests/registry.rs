use nelo::scene::{EntityId, Registry, Store};
use std::any::TypeId;

struct Position;
struct Velocity;
struct Label;
struct Mass;

fn ids(n: usize) -> Vec<EntityId> {
    let mut store: Store<()> = Store::new();
    (0..n).map(|_| store.create(())).collect()
}

fn kind<T: 'static>() -> TypeId {
    TypeId::of::<T>()
}

#[test]
fn attach_then_get() {
    let e = ids(2);
    let mut r: Registry<i32> = Registry::new();
    r.attach(kind::<Position>(), e[0], 7);
    assert_eq!(r.get(kind::<Position>(), e[0]), Some(&7));
    assert_eq!(r.get(kind::<Velocity>(), e[0]), None);
    assert_eq!(r.get(kind::<Position>(), e[1]), None);
    assert!(r.has(kind::<Position>(), e[0]));
    assert!(!r.has(kind::<Position>(), e[1]));
}

#[test]
fn attach_replaces_the_value_of_the_same_kind() {
    let e = ids(1);
    let mut r: Registry<i32> = Registry::new();
    r.attach(kind::<Position>(), e[0], 1);
    r.attach(kind::<Velocity>(), e[0], 2);
    r.attach(kind::<Position>(), e[0], 3);
    assert_eq!(r.get(kind::<Position>(), e[0]), Some(&3));
    assert_eq!(r.get(kind::<Velocity>(), e[0]), Some(&2));
}

#[test]
fn remove_returns_the_value_once() {
    let e = ids(1);
    let mut r: Registry<i32> = Registry::new();
    r.attach(kind::<Position>(), e[0], 4);
    assert_eq!(r.remove(kind::<Position>(), e[0]), Some(4));
    assert!(!r.has(kind::<Position>(), e[0]));
    assert_eq!(r.remove(kind::<Position>(), e[0]), None);
    assert_eq!(r.remove(kind::<Mass>(), e[0]), None);
}

#[test]
fn get_mut_changes_in_place() {
    let e = ids(1);
    let mut r: Registry<i32> = Registry::new();
    assert!(r.get_mut(kind::<Position>(), e[0]).is_none());
    r.attach(kind::<Position>(), e[0], 1);
    *r.get_mut(kind::<Position>(), e[0]).unwrap() += 10;
    assert_eq!(r.get(kind::<Position>(), e[0]), Some(&11));
}

#[test]
fn get_or_default_attaches_only_when_missing() {
    let e = ids(1);
    let mut r: Registry<i32> = Registry::new();
    assert_eq!(*r.get_or_default(kind::<Position>(), e[0], 5), 5);
    *r.get_or_default(kind::<Position>(), e[0], 9) += 1;
    assert_eq!(r.get(kind::<Position>(), e[0]), Some(&6));
}

#[test]
fn delete_clears_every_kind() {
    let e = ids(2);
    let mut r: Registry<i32> = Registry::new();
    r.attach(kind::<Position>(), e[0], 1);
    r.attach(kind::<Velocity>(), e[0], 2);
    r.attach(kind::<Velocity>(), e[1], 3);
    r.delete(e[0]);
    assert!(!r.has(kind::<Position>(), e[0]));
    assert!(!r.has(kind::<Velocity>(), e[0]));
    assert_eq!(r.get(kind::<Velocity>(), e[1]), Some(&3));
}

#[test]
fn clone_copies_every_kind_to_the_target() {
    let e = ids(2);
    let mut r: Registry<String> = Registry::new();
    r.attach(kind::<Label>(), e[0], "a".to_string());
    r.attach(kind::<Mass>(), e[0], "m".to_string());
    r.attach(kind::<Position>(), e[1], "p".to_string());
    r.clone(e[0], e[1]);
    assert_eq!(r.get(kind::<Label>(), e[1]).map(|s| s.as_str()), Some("a"));
    assert_eq!(r.get(kind::<Mass>(), e[1]).map(|s| s.as_str()), Some("m"));
    assert_eq!(r.get(kind::<Position>(), e[1]).map(|s| s.as_str()), Some("p"));
    assert_eq!(r.get(kind::<Label>(), e[0]).map(|s| s.as_str()), Some("a"));
}

#[test]
fn view_is_sorted_by_entity() {
    let e = ids(3);
    let mut r: Registry<i32> = Registry::new();
    r.attach(kind::<Position>(), e[2], 30);
    r.attach(kind::<Position>(), e[0], 10);
    r.attach(kind::<Position>(), e[1], 20);
    let v: Vec<_> = r.view(kind::<Position>()).into_iter().map(|(id, x)| (id, *x)).collect();
    assert_eq!(v, vec![(e[0], 10), (e[1], 20), (e[2], 30)]);
    assert!(r.view(kind::<Velocity>()).is_empty());
}

#[test]
fn view_pair_keeps_entities_with_both() {
    let e = ids(3);
    let mut r: Registry<i32> = Registry::new();
    r.attach(kind::<Position>(), e[0], 1);
    r.attach(kind::<Position>(), e[1], 2);
    r.attach(kind::<Position>(), e[2], 3);
    r.attach(kind::<Velocity>(), e[2], 30);
    r.attach(kind::<Velocity>(), e[0], 10);
    let v: Vec<_> = r
        .view_pair(kind::<Position>(), kind::<Velocity>())
        .into_iter()
        .map(|(id, a, b)| (id, *a, *b))
        .collect();
    assert_eq!(v, vec![(e[0], 1, 10), (e[2], 3, 30)]);
}

#[test]
fn view_triple_keeps_entities_with_all_three() {
    let e = ids(3);
    let mut r: Registry<i32> = Registry::new();
    for (i, id) in e.iter().enumerate() {
        r.attach(kind::<Position>(), *id, i as i32);
        r.attach(kind::<Velocity>(), *id, 10 + i as i32);
    }
    r.attach(kind::<Mass>(), e[1], 100);
    let v: Vec<_> = r
        .view_triple(kind::<Position>(), kind::<Velocity>(), kind::<Mass>())
        .into_iter()
        .map(|(id, a, b, c)| (id, *a, *b, *c))
        .collect();
    assert_eq!(v, vec![(e[1], 1, 11, 100)]);
}

#[test]
fn view_tuple_keeps_components_in_kind_order() {
    let e = ids(3);
    let mut r: Registry<i32> = Registry::new();
    for (i, id) in e.iter().enumerate() {
        r.attach(kind::<Position>(), *id, i as i32);
        r.attach(kind::<Velocity>(), *id, 10 + i as i32);
        r.attach(kind::<Mass>(), *id, 20 + i as i32);
    }
    r.attach(kind::<Label>(), e[0], 30);
    r.attach(kind::<Label>(), e[2], 32);
    let kinds = [kind::<Mass>(), kind::<Label>(), kind::<Position>(), kind::<Velocity>()];
    let v: Vec<_> = r
        .view_tuple(&kinds)
        .into_iter()
        .map(|(id, cs)| (id, cs.into_iter().copied().collect::<Vec<_>>()))
        .collect();
    assert_eq!(v, vec![(e[0], vec![20, 30, 0, 10]), (e[2], vec![22, 32, 2, 12])]);
}

#[test]
fn attached_value_stays_through_unrelated_changes() {
    let e = ids(2);
    let mut r: Registry<i32> = Registry::new();
    r.attach(kind::<Position>(), e[0], 1);
    r.attach(kind::<Position>(), e[0], 2);
    r.attach(kind::<Velocity>(), e[0], 3);
    r.remove(kind::<Velocity>(), e[0]);
    r.delete(e[1]);
    r.attach(kind::<Position>(), e[1], 4);
    assert_eq!(r.get(kind::<Position>(), e[0]), Some(&2));
    assert_eq!(r.get(kind::<Mass>(), e[0]), None);
}
