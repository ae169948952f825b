use nelo::scene::{EntityId, Hierarchy, Store};

fn ids(n: usize) -> Vec<EntityId> {
    let mut store: Store<()> = Store::new();
    (0..n).map(|_| store.create(())).collect()
}

#[test]
fn new_hierarchy_is_empty() {
    let e = ids(2);
    let h = Hierarchy::new();
    assert_eq!(h.parent(e[0]), None);
    assert!(!h.has_parent(e[0]));
    assert!(h.children(e[0]).is_empty());
    assert!(!h.has_children(e[1]));
}

#[test]
fn add_child_links_parent_and_children() {
    let e = ids(3);
    let mut h = Hierarchy::new();
    h.add_child(e[0], e[1]);
    h.add_child(e[0], e[2]);
    assert_eq!(h.parent(e[1]), Some(e[0]));
    assert_eq!(h.parent(e[2]), Some(e[0]));
    assert_eq!(h.children(e[0]), vec![e[1], e[2]]);
    assert!(h.is_parent(e[0], e[1]));
    assert!(!h.is_parent(e[1], e[0]));
    assert!(h.has_children(e[0]));
    assert!(h.has_parent(e[2]));
}

#[test]
fn add_child_moves_from_old_parent() {
    let e = ids(3);
    let mut h = Hierarchy::new();
    h.add_child(e[0], e[2]);
    h.add_child(e[1], e[2]);
    assert_eq!(h.parent(e[2]), Some(e[1]));
    assert!(h.children(e[0]).is_empty());
    assert_eq!(h.children(e[1]), vec![e[2]]);
}

#[test]
fn add_child_again_moves_child_to_the_end() {
    let e = ids(3);
    let mut h = Hierarchy::new();
    h.add_child(e[0], e[1]);
    h.add_child(e[0], e[2]);
    h.add_child(e[0], e[1]);
    assert_eq!(h.children(e[0]), vec![e[2], e[1]]);
}

#[test]
fn add_child_refuses_cycles() {
    let e = ids(3);
    let mut h = Hierarchy::new();
    h.add_child(e[0], e[1]);
    h.add_child(e[1], e[2]);
    // e[0] is an ancestor of e[2]: nothing changes.
    h.add_child(e[2], e[0]);
    assert_eq!(h.parent(e[0]), None);
    assert!(h.children(e[2]).is_empty());
    // An entity cannot be its own parent.
    h.add_child(e[1], e[1]);
    assert_eq!(h.parent(e[1]), Some(e[0]));
    assert_eq!(h.children(e[1]), vec![e[2]]);
}

#[test]
fn is_ancestor_walks_up() {
    let e = ids(4);
    let mut h = Hierarchy::new();
    h.add_child(e[0], e[1]);
    h.add_child(e[1], e[2]);
    assert!(h.is_ancestor(e[0], e[2]));
    assert!(h.is_ancestor(e[1], e[2]));
    assert!(h.is_ancestor(e[2], e[2]));
    assert!(!h.is_ancestor(e[2], e[0]));
    assert!(!h.is_ancestor(e[3], e[2]));
    assert!(!h.is_ancestor(e[0], e[3]));
}

#[test]
fn graft_cuts_the_parent_link() {
    let e = ids(3);
    let mut h = Hierarchy::new();
    h.add_child(e[0], e[1]);
    h.add_child(e[0], e[2]);
    h.graft(e[1]);
    assert_eq!(h.parent(e[1]), None);
    assert_eq!(h.children(e[0]), vec![e[2]]);
    // Grafting an entity without a parent does nothing.
    h.graft(e[1]);
    assert_eq!(h.children(e[0]), vec![e[2]]);
}

#[test]
fn clear_orphans_every_child() {
    let e = ids(4);
    let mut h = Hierarchy::new();
    h.add_child(e[0], e[1]);
    h.add_child(e[0], e[2]);
    h.add_child(e[3], e[0]);
    h.clear(e[0]);
    assert!(h.children(e[0]).is_empty());
    assert_eq!(h.parent(e[1]), None);
    assert_eq!(h.parent(e[2]), None);
    assert_eq!(h.parent(e[0]), Some(e[3]));
}

#[test]
fn remove_takes_an_entity_out_entirely() {
    let e = ids(4);
    let mut h = Hierarchy::new();
    h.add_child(e[0], e[1]);
    h.add_child(e[1], e[2]);
    h.add_child(e[0], e[3]);
    h.remove(e[1]);
    assert_eq!(h.parent(e[1]), None);
    assert_eq!(h.parent(e[2]), None);
    assert!(h.children(e[1]).is_empty());
    assert_eq!(h.children(e[0]), vec![e[3]]);
}
