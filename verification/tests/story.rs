use nelo::scene::{EntityId, Hierarchy, Scene};
use nelo::story::{Cue, Schedule, Target};

fn run(ids: &[EntityId], target: Target, hierarchy: &Hierarchy) -> Vec<Cue> {
    let mut schedule = Schedule::new(ids, target);
    let mut cues = Vec::new();
    while let Some(cue) = schedule.next(hierarchy) {
        cues.push(cue);
    }
    // Once over, the walk stays over.
    assert_eq!(schedule.next(hierarchy), None);
    cues
}

/// A group `g` holding `a` and `b`, and a loose entity `c`.
fn scene() -> (Scene<()>, EntityId, EntityId, EntityId, EntityId) {
    let mut scene: Scene<()> = Scene::new();
    let a = scene.create().id();
    let b = scene.create().id();
    let c = scene.create().id();
    let g = scene.group().add(a).add(b).id();
    (scene, g, a, b, c)
}

#[test]
fn default_target_is_roots() {
    assert_eq!(Target::default(), Target::Roots);
}

#[test]
fn roots_apply_each_listed_entity_a_step_apart() {
    let (scene, g, _, _, c) = scene();
    let cues = run(&[g, c], Target::Roots, scene.hierarchy());
    assert_eq!(cues, vec![Cue::Apply(g), Cue::Step, Cue::Apply(c), Cue::Hold]);
}

#[test]
fn leaves_descend_into_groups() {
    let (scene, g, a, b, c) = scene();
    let cues = run(&[g, c], Target::Leaves, scene.hierarchy());
    assert_eq!(
        cues,
        vec![
            Cue::Descend,
            Cue::Apply(a),
            Cue::Step,
            Cue::Apply(b),
            Cue::Hold,
            Cue::Rewind,
            Cue::GroupStep,
            Cue::Apply(c),
            Cue::Hold,
        ]
    );
}

#[test]
fn a_group_last_in_the_list_takes_no_group_step() {
    let (scene, g, a, b, c) = scene();
    let cues = run(&[c, g], Target::Leaves, scene.hierarchy());
    assert_eq!(
        cues,
        vec![
            Cue::Apply(c),
            Cue::Step,
            Cue::Descend,
            Cue::Apply(a),
            Cue::Step,
            Cue::Apply(b),
            Cue::Hold,
            Cue::Rewind,
            Cue::Hold,
        ]
    );
}

#[test]
fn an_empty_list_does_nothing() {
    let (scene, ..) = scene();
    assert!(run(&[], Target::Leaves, scene.hierarchy()).is_empty());
}
