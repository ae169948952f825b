use nelo::scene::Scene;
use std::any::TypeId;

struct Color;
struct Width;

#[test]
fn entities_lists_created_entities_in_order() {
    let mut scene: Scene<u8> = Scene::new();
    let a = scene.create().id();
    let b = scene.create().id();
    assert_eq!(scene.entities(), vec![a, b]);
    assert!(scene.get(a).is_some());
}

#[test]
fn entity_ref_components() {
    let mut scene: Scene<u8> = Scene::new();
    let color = TypeId::of::<Color>();
    let width = TypeId::of::<Width>();
    let mut e = scene.create().attach(color, 3);
    assert!(e.has(color));
    assert!(!e.has(width));
    *e.get(color).unwrap() += 1;
    assert_eq!(*e.get_or_default(width, 9), 9);
    assert_eq!(*e.get_or_default(color, 0), 4);
    assert_eq!(e.remove(width), Some(9));
    assert_eq!(e.remove(width), None);
    let id = e.id();
    assert_eq!(scene.component(color, id), Some(&4));
    assert_eq!(scene.component(width, id), None);
}

#[test]
fn scene_views() {
    let mut scene: Scene<u8> = Scene::new();
    let color = TypeId::of::<Color>();
    let width = TypeId::of::<Width>();
    let a = scene.create().attach(color, 1).id();
    let b = scene.create().attach(color, 2).attach(width, 20).id();
    let v: Vec<_> = scene.view(color).into_iter().map(|(id, x)| (id, *x)).collect();
    assert_eq!(v, vec![(a, 1), (b, 2)]);
    let p: Vec<_> = scene.view_pair(color, width).into_iter().map(|(id, x, y)| (id, *x, *y)).collect();
    assert_eq!(p, vec![(b, 2, 20)]);
    let t = scene.view_triple(color, width, color);
    assert_eq!(t.len(), 1);
    let u = scene.view_tuple(&[width, color]);
    assert_eq!(u.len(), 1);
    assert_eq!(u[0].0, b);
    assert_eq!(*u[0].1[0], 20);
    assert_eq!(*u[0].1[1], 2);
}

#[test]
fn hierarchy_is_reachable_through_a_mutable_borrow() {
    let mut scene: Scene<u8> = Scene::new();
    let a = scene.create().id();
    let g = scene.group().add(a).id();
    assert_eq!(scene.hierarchy_mut().parent(a), Some(g));
    assert_eq!(scene.hierarchy().children(g), vec![a]);
}

#[test]
fn get_is_none_for_an_entity_the_scene_does_not_have() {
    let mut other: nelo::scene::Store<()> = nelo::scene::Store::new();
    other.create(());
    let far = other.create(());
    let mut scene: Scene<u8> = Scene::new();
    scene.create();
    assert!(scene.get(far).is_none());
    assert_eq!(scene.entities().len(), 1);
}

#[test]
fn issued_tells_the_scene_own_ids() {
    let mut other: nelo::scene::Store<()> = nelo::scene::Store::new();
    other.create(());
    let foreign = other.create(());
    let mut scene: Scene<u8> = Scene::new();
    let a = scene.create().id();
    assert!(scene.issued(a));
    assert!(!scene.issued(foreign));
}
