use amethyst_ui::{
    mouse_world_position, DragWidgetSystem, Point, UiBundle,
    get_targeted, get_targeted_below, build_ui_sorting_system, build_ui_transform_system, Anchor, Entity,
    SortedWidgets, TargetedEvent, UiEvent, UiEventType, UiMouseSystem, UiTransform, UiWorld,
};

fn rect(world: &mut UiWorld, x: i64, y: i64, z: i64, w: i64, h: i64) -> Entity {
    let e = world.create_entity();
    world.add_transform(
        e,
        UiTransform::new("".to_string(), Anchor::Middle, Anchor::Middle, x, y, z, w, h),
    );
    e
}

fn sorted(world: &mut UiWorld) -> SortedWidgets {
    build_ui_transform_system(world, 100, 100);
    let mut s = SortedWidgets::new();
    build_ui_sorting_system(world, &mut s);
    s
}

#[test]
fn draw_order_sorts_by_depth_then_slot() {
    let mut world = UiWorld::new();
    let a = rect(&mut world, 0, 0, 5, 10, 10);
    let b = rect(&mut world, 0, 0, 1, 10, 10);
    let c = rect(&mut world, 0, 0, 5, 10, 10);
    let d = rect(&mut world, 0, 0, -2, 10, 10);
    let hidden = rect(&mut world, 0, 0, 0, 10, 10);
    world.set_hidden(hidden, true);
    let s = sorted(&mut world);
    assert_eq!(s.widgets().to_vec(), vec![(d, -2), (b, 1), (a, 5), (c, 5)]);
}

#[test]
fn opaque_top_occludes_everything_below() {
    for swap in [false, true] {
        let mut world = UiWorld::new();
        let (z1, z2) = if swap { (2, 1) } else { (1, 2) };
        let low = rect(&mut world, 0, 0, z1, 40, 40);
        let mid = rect(&mut world, 0, 0, z2, 30, 30);
        let top = rect(&mut world, 0, 0, 3, 20, 20);
        let _ = (low, mid);
        let s = sorted(&mut world);
        assert_eq!(get_targeted(1, 1, &s, &world), vec![top]);
    }
}

#[test]
fn transparent_targets_are_all_hovered() {
    let mut world = UiWorld::new();
    let low = rect(&mut world, 0, 0, 1, 40, 40);
    let glass = world.create_entity();
    let mut t = UiTransform::new("".to_string(), Anchor::Middle, Anchor::Middle, 0, 0, 2, 30, 30)
        .into_transparent();
    t.transparent_target = true;
    world.add_transform(glass, t);
    let ghost = world.create_entity();
    world.add_transform(
        ghost,
        UiTransform::new("".to_string(), Anchor::Middle, Anchor::Middle, 0, 0, 3, 30, 30)
            .into_transparent(),
    );
    let s = sorted(&mut world);
    assert_eq!(get_targeted(0, 0, &s, &world), vec![glass, low]);
    assert_eq!(get_targeted(18, 0, &s, &world), vec![low]);
    assert_eq!(get_targeted(45, 45, &s, &world), Vec::<Entity>::new());
}

#[test]
fn drop_target_lies_below_the_dragged_depth() {
    let mut world = UiWorld::new();
    let low = rect(&mut world, 0, 0, 1, 40, 40);
    let dragged = rect(&mut world, 0, 0, 4, 10, 10);
    let s = sorted(&mut world);
    let _ = dragged;
    assert_eq!(get_targeted_below(0, 0, 4, &s, &world), Some(low));
    assert_eq!(get_targeted_below(0, 0, 1, &s, &world), None);
    assert_eq!(get_targeted_below(30, 30, 4, &s, &world), None);
}

fn ev(kind: UiEventType, e: Entity) -> UiEvent {
    UiEvent::new(kind, e)
}

#[test]
fn click_scenario() {
    let mut world = UiWorld::new();
    let a = rect(&mut world, 5, 5, 1, 10, 10);
    let s = sorted(&mut world);
    let mut mouse = UiMouseSystem::new();
    let mut all = Vec::new();
    for down in [false, true, false] {
        let targets = get_targeted(5, 5, &s, &world);
        all.extend(mouse.step(Some(targets), down));
    }
    assert_eq!(
        all,
        vec![
            ev(UiEventType::HoverStart, a),
            ev(UiEventType::ClickStart, a),
            ev(UiEventType::Click, a),
            ev(UiEventType::ClickStop, a),
        ]
    );
}

#[test]
fn release_elsewhere_stops_without_click() {
    let mut world = UiWorld::new();
    let a = rect(&mut world, 0, 0, 1, 10, 10);
    let b = rect(&mut world, 30, 0, 1, 10, 10);
    let s = sorted(&mut world);
    let mut mouse = UiMouseSystem::new();
    assert_eq!(
        mouse.step(Some(get_targeted(0, 0, &s, &world)), true),
        vec![ev(UiEventType::HoverStart, a), ev(UiEventType::ClickStart, a)]
    );
    assert_eq!(
        mouse.step(Some(get_targeted(30, 0, &s, &world)), false),
        vec![
            ev(UiEventType::HoverStart, b),
            ev(UiEventType::HoverStop, a),
            ev(UiEventType::ClickStop, a),
        ]
    );
    assert_eq!(mouse.step(None, false), Vec::<UiEvent>::new());
}

#[test]
fn targeted_event_names_its_target() {
    let e = Entity::new(3, 1);
    assert_eq!(ev(UiEventType::Focus, e).target(), e);
}

#[test]
fn drag_moves_and_drops() {
    let mut world = UiWorld::new();
    let low = rect(&mut world, 0, 0, 1, 60, 60);
    let item = rect(&mut world, 0, 0, 5, 10, 10);
    let s = sorted(&mut world);
    let mut drag = DragWidgetSystem::new();
    let draggables = vec![item];

    let start = vec![UiEvent::new(UiEventType::ClickStart, item)];
    let out = drag.step(&mut world, &s, &start, &draggables, Point { x: 2, y: 3 }, 100, 100);
    assert_eq!(
        out,
        vec![UiEvent::new(
            UiEventType::Dragging { offset_from_mouse: Point { x: 0, y: 0 }, new_position: Point { x: 2, y: 3 } },
            item
        )]
    );
    let t = world.transform(item).unwrap();
    assert_eq!((t.local_x, t.local_y), (2, 3));

    let out = drag.step(&mut world, &s, &vec![], &draggables, Point { x: 7, y: 1 }, 100, 100);
    assert_eq!(
        out,
        vec![UiEvent::new(
            UiEventType::Dragging { offset_from_mouse: Point { x: 5, y: -2 }, new_position: Point { x: 7, y: 1 } },
            item
        )]
    );
    let t = world.transform(item).unwrap();
    assert_eq!((t.local_x, t.local_y), (7, 1));

    let stop = vec![UiEvent::new(UiEventType::ClickStop, item)];
    let out = drag.step(&mut world, &s, &stop, &draggables, Point { x: 7, y: 1 }, 100, 100);
    assert_eq!(out.len(), 2);
    assert_eq!(out[1], UiEvent::new(UiEventType::Dropped { dropped_on: Some(low) }, item));

    let out = drag.step(&mut world, &s, &vec![], &draggables, Point { x: 9, y: 9 }, 100, 100);
    assert_eq!(out, Vec::<UiEvent>::new());
}

#[test]
fn percent_drag_moves_by_fraction_of_parent() {
    let mut world = UiWorld::new();
    let item = world.create_entity();
    world.add_transform(
        item,
        UiTransform::new("".to_string(), Anchor::Middle, Anchor::Middle, 0, 0, 1, 1000, 1000).into_percent(),
    );
    let s = sorted(&mut world);
    let mut drag = DragWidgetSystem::new();
    let start = vec![UiEvent::new(UiEventType::ClickStart, item)];
    drag.step(&mut world, &s, &start, &vec![item], Point { x: 0, y: 0 }, 100, 100);
    drag.step(&mut world, &s, &vec![], &vec![item], Point { x: 10, y: -5 }, 100, 100);
    let t = world.transform(item).unwrap();
    assert_eq!((t.local_x, t.local_y), (1000, -500));
}

#[test]
fn window_pixels_to_layout_coordinates() {
    assert_eq!(mouse_world_position(0, 0, 800, 600), (-400, 300));
    assert_eq!(mouse_world_position(800, 600, 800, 600), (400, -300));
    assert_eq!(mouse_world_position(2, 1, 5, 3), (0, 1));
}

#[test]
fn frame_pipeline_click() {
    let mut world = UiWorld::new();
    let root = rect(&mut world, 0, 0, 0, 100, 100);
    let a = rect(&mut world, 5, 5, 1, 10, 10);
    world.set_parent(a, root);
    let mut ui = UiBundle::new();
    let mut all = Vec::new();
    for down in [false, true, false] {
        all.extend(ui.run_frame(&mut world, 100, 100, Some((55, 45)), down));
    }
    assert_eq!(world.children(root).unwrap(), vec![a]);
    assert_eq!(ui.sorted_widgets().widgets().to_vec(), vec![(root, 0), (a, 1)]);
    assert_eq!(
        all,
        vec![
            ev(UiEventType::HoverStart, a),
            ev(UiEventType::ClickStart, a),
            ev(UiEventType::Click, a),
            ev(UiEventType::ClickStop, a),
        ]
    );
    assert_eq!(ui.run_frame(&mut world, 100, 100, None, false), Vec::<UiEvent>::new());
}
