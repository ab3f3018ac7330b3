use amethyst_ui::{
    missing_previous_parent, parent_update, Anchor, Entity, TransformBundle, UiTransform, UiWorld,
};

fn node() -> UiTransform {
    UiTransform::new("".to_string(), Anchor::Middle, Anchor::Middle, 0, 0, 0, 10, 10)
}

fn children_of(world: &UiWorld, e: Entity) -> Option<Vec<Entity>> {
    world.children(e)
}

#[test]
fn previous_parent_added() {
    let mut world = UiWorld::new();
    let e1 = world.create_entity();
    world.add_transform(e1, node());
    let e2 = world.create_entity();
    world.add_transform(e2, node());
    world.set_parent(e2, e1);

    missing_previous_parent(&mut world);

    assert_eq!(world.previous_parent(e1).is_some(), false);
    assert_eq!(world.previous_parent(e2).is_some(), true);
}

#[test]
fn correct_children() {
    let mut world = UiWorld::new();
    let parent = world.create_entity();
    world.add_transform(parent, node());
    let e1 = world.create_entity();
    world.add_transform(e1, node());
    let e2 = world.create_entity();
    world.add_transform(e2, node());

    world.set_parent(e1, parent);
    world.set_parent(e2, parent);
    TransformBundle.run(&mut world);
    assert_eq!(children_of(&world, parent).unwrap(), vec![e1, e2]);

    world.set_parent(e1, e2);
    TransformBundle.run(&mut world);
    assert_eq!(children_of(&world, parent).unwrap(), vec![e2]);
    assert_eq!(children_of(&world, e2).unwrap(), vec![e1]);

    world.destroy_entity(e1);
    TransformBundle.run(&mut world);
    assert_eq!(children_of(&world, parent).unwrap(), vec![e2]);
}

#[test]
fn cleared_parent_leaves_children() {
    let mut world = UiWorld::new();
    let p = world.create_entity();
    world.add_transform(p, node());
    let c = world.create_entity();
    world.add_transform(c, node());
    world.set_parent(c, p);
    parent_update(&mut world);
    assert_eq!(children_of(&world, p).unwrap(), vec![c]);

    world.clear_parent(c);
    parent_update(&mut world);
    assert_eq!(children_of(&world, p).unwrap(), Vec::<Entity>::new());
    assert_eq!(world.previous_parent(c), Some(None));
}

#[test]
fn parent_update_alone_records_first_sight() {
    let mut world = UiWorld::new();
    let p = world.create_entity();
    world.add_transform(p, node());
    let c = world.create_entity();
    world.add_transform(c, node());
    world.set_parent(c, p);
    parent_update(&mut world);
    assert_eq!(world.previous_parent(c), Some(Some(p)));
    assert_eq!(children_of(&world, p).unwrap(), vec![c]);
}

#[test]
fn parent_without_transform_detaches_children() {
    let mut world = UiWorld::new();
    let p = world.create_entity();
    world.add_transform(p, node());
    let a = world.create_entity();
    world.add_transform(a, node());
    let b = world.create_entity();
    world.add_transform(b, node());
    world.set_parent(a, p);
    world.set_parent(b, p);
    parent_update(&mut world);
    assert_eq!(children_of(&world, p).unwrap(), vec![a, b]);

    world.remove_transform(p);
    parent_update(&mut world);
    assert_eq!(children_of(&world, p), None);
    assert_eq!(world.parent(a), None);
    assert_eq!(world.parent(b), None);
    assert_eq!(world.previous_parent(a), None);
}

#[test]
fn new_children_of_a_non_layout_parent_stay() {
    let mut world = UiWorld::new();
    let p = world.create_entity();
    let c = world.create_entity();
    world.add_transform(c, node());
    world.set_parent(c, p);
    parent_update(&mut world);
    assert_eq!(children_of(&world, p).unwrap(), vec![c]);
    assert_eq!(world.parent(c), Some(p));
}

#[test]
fn reparenting_twice_keeps_one_entry() {
    let mut world = UiWorld::new();
    let p = world.create_entity();
    world.add_transform(p, node());
    let q = world.create_entity();
    world.add_transform(q, node());
    let c = world.create_entity();
    world.add_transform(c, node());

    world.set_parent(c, p);
    parent_update(&mut world);
    world.set_parent(c, q);
    world.set_parent(c, p);
    parent_update(&mut world);
    assert_eq!(children_of(&world, p).unwrap(), vec![c]);
    assert_eq!(children_of(&world, q), None);
}

#[test]
fn graph_consistency_after_edits() {
    let mut world = UiWorld::new();
    let mut es = Vec::new();
    for _ in 0..6 {
        let e = world.create_entity();
        world.add_transform(e, node());
        es.push(e);
    }
    let edits: Vec<(usize, Option<usize>)> = vec![
        (1, Some(0)),
        (2, Some(0)),
        (3, Some(1)),
        (4, Some(1)),
        (2, Some(1)),
        (3, None),
        (5, Some(4)),
        (1, Some(5)),
        (4, None),
        (3, Some(0)),
    ];
    for (k, (child, parent)) in edits.iter().enumerate() {
        match parent {
            Some(p) => world.set_parent(es[*child], es[*p]),
            None => world.clear_parent(es[*child]),
        }
        if k % 3 == 2 {
            TransformBundle.run(&mut world);
        }
    }
    TransformBundle.run(&mut world);

    for &e in &es {
        match world.parent(e) {
            Some(p) => {
                let list = children_of(&world, p).unwrap();
                assert_eq!(list.iter().filter(|x| **x == e).count(), 1);
            }
            None => {
                for &q in &es {
                    if let Some(list) = children_of(&world, q) {
                        assert!(!list.contains(&e));
                    }
                }
            }
        }
    }
}

#[test]
fn stale_entity_is_ignored() {
    let mut world = UiWorld::new();
    let e = world.create_entity();
    let ghost = Entity::new(7, 0);
    assert!(!world.is_alive(ghost));
    world.set_parent(ghost, e);
    assert_eq!(world.parent(ghost), None);
    world.destroy_entity(e);
    assert!(!world.is_alive(e));
    assert_eq!(world.slot_count(), 1);
}

#[test]
fn detached_children_include_non_layout_entries() {
    let mut world = UiWorld::new();
    let p = world.create_entity();
    world.add_transform(p, node());
    let a = world.create_entity();
    world.add_transform(a, node());
    world.set_parent(a, p);
    parent_update(&mut world);
    // `a` stops being a layout node but stays listed by `p`.
    world.remove_transform(a);
    world.remove_transform(p);
    parent_update(&mut world);
    assert_eq!(children_of(&world, p), None);
    assert_eq!(world.parent(a), None);
    assert_eq!(world.previous_parent(a), None);
}

#[test]
fn second_pass_changes_nothing() {
    let mut world = UiWorld::new();
    let p = world.create_entity();
    world.add_transform(p, node());
    let mut kids = Vec::new();
    for _ in 0..3 {
        let c = world.create_entity();
        world.add_transform(c, node());
        world.set_parent(c, p);
        kids.push(c);
    }
    parent_update(&mut world);
    let first = children_of(&world, p);
    parent_update(&mut world);
    assert_eq!(children_of(&world, p), first);
    assert_eq!(first.unwrap(), kids);
}

#[test]
fn leaving_child_keeps_order_of_the_rest() {
    let mut world = UiWorld::new();
    let p = world.create_entity();
    world.add_transform(p, node());
    let q = world.create_entity();
    world.add_transform(q, node());
    let mut kids = Vec::new();
    for _ in 0..4 {
        let c = world.create_entity();
        world.add_transform(c, node());
        world.set_parent(c, p);
        kids.push(c);
    }
    parent_update(&mut world);
    world.set_parent(kids[1], q);
    world.clear_parent(kids[2]);
    let late = world.create_entity();
    world.add_transform(late, node());
    world.set_parent(late, p);
    parent_update(&mut world);
    assert_eq!(children_of(&world, p).unwrap(), vec![kids[0], kids[3], late]);
    assert_eq!(children_of(&world, q).unwrap(), vec![kids[1]]);
}
