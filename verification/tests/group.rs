use nelo::scene::fonts::Font;
use nelo::scene::{EntityId, EntityRef, Scene};
use std::any::TypeId;

struct Label;
struct Size;

fn label() -> TypeId {
    TypeId::of::<Label>()
}

/// A scene with a group holding `n` fresh children, returned with their ids.
fn group_of(scene: &mut Scene<char>, n: usize) -> (EntityId, Vec<EntityId>) {
    let children: Vec<EntityId> = (0..n).map(|_| scene.create().id()).collect();
    let mut group = scene.group();
    for &c in &children {
        group.add(c);
    }
    (group.id(), children)
}

#[test]
fn a_new_group_is_empty() {
    let mut scene: Scene<char> = Scene::new();
    let group = scene.group();
    assert_eq!(group.len(), 0);
    assert!(group.children().is_empty());
}

#[test]
fn add_and_contains() {
    let mut scene: Scene<char> = Scene::new();
    let (g, c) = group_of(&mut scene, 3);
    let group = scene.get(g).unwrap().as_group();
    assert_eq!(group.children(), c);
    assert_eq!(group.len(), 3);
    assert!(group.contains(c[1]));
    assert!(!group.contains(g));
    assert_eq!(group.hierarchy().parent(c[2]), Some(g));
}

#[test]
fn add_grafts_from_the_old_group() {
    let mut scene: Scene<char> = Scene::new();
    let (g1, c) = group_of(&mut scene, 2);
    let g2 = scene.group().add(c[0]).id();
    assert_eq!(scene.hierarchy().children(g1), vec![c[1]]);
    assert_eq!(scene.hierarchy().children(g2), vec![c[0]]);
    assert_eq!(scene.hierarchy().parent(c[0]), Some(g2));
}

#[test]
fn add_refuses_an_ancestor_but_grafts_it() {
    let mut scene: Scene<char> = Scene::new();
    let (outer, _) = group_of(&mut scene, 0);
    let inner = scene.group().id();
    scene.get(outer).unwrap().as_group().add(inner);
    let holder = scene.group().id();
    scene.get(holder).unwrap().as_group().add(outer);
    // `outer` is an ancestor of `inner`: adding it to `inner` only grafts it.
    scene.get(inner).unwrap().as_group().add(outer);
    assert_eq!(scene.hierarchy().parent(outer), None);
    assert!(scene.hierarchy().children(inner).is_empty());
    assert!(scene.hierarchy().children(holder).is_empty());
}

#[test]
fn remove_only_touches_members() {
    let mut scene: Scene<char> = Scene::new();
    let (g, c) = group_of(&mut scene, 3);
    let other = scene.create().id();
    let mut group = scene.get(g).unwrap().as_group();
    group.remove(other);
    assert_eq!(group.children(), c);
    group.remove(c[1]);
    assert_eq!(group.children(), vec![c[0], c[2]]);
    assert_eq!(group.hierarchy().parent(c[1]), None);
}

#[test]
fn ungroup_returns_and_frees_the_children() {
    let mut scene: Scene<char> = Scene::new();
    let (g, c) = group_of(&mut scene, 3);
    let taken = scene.get(g).unwrap().as_group().ungroup();
    assert_eq!(taken, c);
    assert!(scene.hierarchy().children(g).is_empty());
    for x in c {
        assert_eq!(scene.hierarchy().parent(x), None);
    }
}

#[test]
fn index_reads_a_child() {
    let mut scene: Scene<char> = Scene::new();
    let (g, c) = group_of(&mut scene, 3);
    let mut group = scene.get(g).unwrap().as_group();
    assert_eq!(group.index(0), c[0]);
    assert_eq!(group.index(2), c[2]);
}

#[test]
fn entity_and_as_group_keep_the_id() {
    let mut scene: Scene<char> = Scene::new();
    let g = scene.group().id();
    let e = scene.get(g).unwrap().as_group().entity();
    assert_eq!(e.id(), g);
}

/// The subgroups that `g` holds, each with its children.
fn layout(scene: &Scene<char>, g: EntityId) -> Vec<Vec<EntityId>> {
    scene
        .hierarchy()
        .children(g)
        .into_iter()
        .map(|s| scene.hierarchy().children(s))
        .collect()
}

#[test]
fn split_before_ids_starts_a_subgroup_at_each_listed_child() {
    let mut scene: Scene<char> = Scene::new();
    let (g, c) = group_of(&mut scene, 5);
    scene.get(g).unwrap().as_group().split_before_ids(&[c[1], c[3]]);
    assert_eq!(layout(&scene, g), vec![vec![c[0]], vec![c[1], c[2]], vec![c[3], c[4]]]);
}

#[test]
fn split_before_ids_at_the_first_child_leaves_an_empty_subgroup() {
    let mut scene: Scene<char> = Scene::new();
    let (g, c) = group_of(&mut scene, 2);
    scene.get(g).unwrap().as_group().split_before_ids(&[c[0]]);
    assert_eq!(layout(&scene, g), vec![vec![], vec![c[0], c[1]]]);
}

#[test]
fn split_after_ids_ends_a_subgroup_at_each_listed_child() {
    let mut scene: Scene<char> = Scene::new();
    let (g, c) = group_of(&mut scene, 5);
    scene.get(g).unwrap().as_group().split_after_ids(&[c[1], c[4]]);
    assert_eq!(layout(&scene, g), vec![vec![c[0], c[1]], vec![c[2], c[3], c[4]], vec![]]);
}

#[test]
fn split_at_ids_keeps_listed_children_between_subgroups() {
    let mut scene: Scene<char> = Scene::new();
    let (g, c) = group_of(&mut scene, 5);
    let before = scene.entities().len();
    scene.get(g).unwrap().as_group().split_at_ids(&[c[2]]);
    let top = scene.hierarchy().children(g);
    assert_eq!(top.len(), 3);
    assert_eq!(top[1], c[2]);
    assert_eq!(scene.hierarchy().children(top[0]), vec![c[0], c[1]]);
    assert_eq!(scene.hierarchy().children(top[2]), vec![c[3], c[4]]);
    assert_eq!(scene.entities().len(), before + 2);
}

#[test]
fn split_of_an_empty_group_makes_one_empty_subgroup() {
    let mut scene: Scene<char> = Scene::new();
    let (g, _) = group_of(&mut scene, 0);
    scene.get(g).unwrap().as_group().split_after_ids(&[]);
    assert_eq!(layout(&scene, g), vec![vec![]]);
}

fn labeled_scene() -> (Scene<char>, EntityId, Vec<EntityId>) {
    let mut scene: Scene<char> = Scene::new();
    let text = ['a', ',', 'b', ',', 'c'];
    let mut children = Vec::new();
    for ch in text {
        children.push(scene.create().attach(label(), ch).id());
    }
    let mut group = scene.group();
    for &c in &children {
        group.add(c);
    }
    let g = group.id();
    (scene, g, children)
}

#[test]
fn labeled_finds_matching_children_in_order() {
    let (mut scene, g, c) = labeled_scene();
    let found = scene.get(g).unwrap().as_group().labeled(label(), |l: &char| *l == ',');
    assert_eq!(found, vec![c[1], c[3]]);
    let none = scene.get(g).unwrap().as_group().labeled(TypeId::of::<Size>(), |_: &char| true);
    assert!(none.is_empty());
}

#[test]
fn split_by_label() {
    let (mut scene, g, c) = labeled_scene();
    scene.get(g).unwrap().as_group().split(label(), |l: &char| *l == ',');
    let top = scene.hierarchy().children(g);
    assert_eq!(top.len(), 5);
    assert_eq!(top[1], c[1]);
    assert_eq!(top[3], c[3]);
    assert_eq!(scene.hierarchy().children(top[0]), vec![c[0]]);
    assert_eq!(scene.hierarchy().children(top[2]), vec![c[2]]);
    assert_eq!(scene.hierarchy().children(top[4]), vec![c[4]]);
}

#[test]
fn split_before_and_after_by_label() {
    let (mut scene, g, c) = labeled_scene();
    scene.get(g).unwrap().as_group().split_before(label(), |l: &char| *l == 'b');
    assert_eq!(layout(&scene, g), vec![vec![c[0], c[1]], vec![c[2], c[3], c[4]]]);

    let (mut scene, g, c) = labeled_scene();
    scene.get(g).unwrap().as_group().split_after(label(), |l: &char| *l == 'b');
    assert_eq!(layout(&scene, g), vec![vec![c[0], c[1], c[2]], vec![c[3], c[4]]]);
}

#[test]
fn create_adds_generated_entities_in_order() {
    let mut scene: Scene<char> = Scene::new();
    let mut group = scene.group();
    group.create(3, |i, s: &mut Scene<char>| {
        let ch = char::from(b'a' + i as u8);
        s.create().attach(label(), ch)
    });
    let g = group.id();
    let children = scene.hierarchy().children(g);
    assert_eq!(children.len(), 3);
    let labels: Vec<char> =
        children.iter().map(|&c| *scene.component(label(), c).unwrap()).collect();
    assert_eq!(labels, vec!['a', 'b', 'c']);
}

#[test]
fn create_once_adds_one_entity() {
    let mut scene: Scene<char> = Scene::new();
    let mut group = scene.group();
    group.create_once(|s: &mut Scene<char>| s.create()).create_once(|s: &mut Scene<char>| s.create());
    assert_eq!(group.len(), 2);
}

#[test]
fn for_each_visits_children_with_their_position() {
    let (mut scene, g, c) = labeled_scene();
    scene.get(g).unwrap().as_group().for_each(|i, e: EntityRef<'_, char>| {
        e.attach(TypeId::of::<Size>(), char::from(b'0' + i as u8))
    });
    for (i, &x) in c.iter().enumerate() {
        assert_eq!(scene.component(TypeId::of::<Size>(), x), Some(&char::from(b'0' + i as u8)));
    }
}

#[test]
fn fonts_are_listed_once_and_parse_by_name() {
    let all = Font::iter();
    assert_eq!(all.len(), 21);
    assert_eq!(all[0], Font::default());
    assert_eq!(Font::try_from("Main-Bold".to_string()), Ok(Font::MainBold));
    assert_eq!(Font::try_from("Typewriter-Regular".to_string()), Ok(Font::TypewriterRegular));
    assert_eq!(
        Font::try_from("Comic-Sans".to_string()),
        Err("Unknown font: Comic-Sans".to_string())
    );
}
