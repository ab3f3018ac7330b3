use amethyst_ui::{
    get_parent_pixel_size, place_in, solve_transforms, build_ui_transform_system, Anchor, Layout, Rect,
    ScaleMode, Stretch, UiTransform, UiWorld,
};

fn layout(anchor: Anchor, pivot: Anchor, x: i64, y: i64, z: i64, w: i64, h: i64) -> Layout {
    Layout {
        anchor,
        pivot,
        stretch: Stretch::NoStretch,
        scale_mode: ScaleMode::Pixel,
        local_x: x,
        local_y: y,
        local_z: z,
        width: w,
        height: h,
    }
}

fn screen(w: i64, h: i64) -> Rect {
    Rect { x: 0, y: 0, z: 0, width: w, height: h }
}

// Positions in these two tests are in hundredths of the unit square.
#[test]
fn inside_local() {
    let transform =
        UiTransform::new("".to_string(), Anchor::TopLeft, Anchor::Middle, 0, 0, 0, 100, 100);
    assert!(transform.position_inside_local(-49, 20));
    assert!(!transform.position_inside_local(-149, 120));
}

#[test]
fn inside_global() {
    let transform =
        UiTransform::new("".to_string(), Anchor::TopLeft, Anchor::Middle, 0, 0, 0, 100, 100);
    assert!(transform.position_inside(-49, 20));
    assert!(!transform.position_inside(-149, 120));
}

#[test]
fn edges_are_outside() {
    let t = UiTransform::new("".to_string(), Anchor::Middle, Anchor::Middle, 0, 0, 0, 10, 10);
    assert!(t.position_inside(4, 4));
    assert!(!t.position_inside(5, 0));
    assert!(!t.position_inside(0, -5));
}

#[test]
fn anchor_and_pivot_place_the_corner() {
    let l = layout(Anchor::TopLeft, Anchor::TopLeft, 10, -20, 1, 100, 50);
    let r = place_in(&l, &screen(1000, 800)).unwrap();
    assert_eq!(r, Rect { x: -440, y: 355, z: 1, width: 100, height: 50 });
}

#[test]
fn bottom_right_anchor() {
    let l = layout(Anchor::BottomRight, Anchor::BottomRight, 0, 0, 0, 20, 10);
    let r = place_in(&l, &screen(200, 100)).unwrap();
    assert_eq!(r, Rect { x: 90, y: -45, z: 0, width: 20, height: 10 });
}

#[test]
fn percent_mode_scales_offset_and_size() {
    let parent = Rect { x: -440, y: 355, z: 1, width: 100, height: 50 };
    let mut l = layout(Anchor::Middle, Anchor::Middle, 5000, 0, 2, 5000, 10000);
    l.scale_mode = ScaleMode::Percent;
    let r = place_in(&l, &parent).unwrap();
    assert_eq!(r, Rect { x: -390, y: 355, z: 3, width: 50, height: 50 });
}

#[test]
fn stretch_rules() {
    let mut l = layout(Anchor::Middle, Anchor::Middle, 0, 0, 0, 30, 40);
    l.stretch = Stretch::X { x_margin: 10 };
    assert_eq!(place_in(&l, &screen(1000, 800)).unwrap().width, 980);
    assert_eq!(place_in(&l, &screen(1000, 800)).unwrap().height, 40);
    l.stretch = Stretch::Y { y_margin: 5 };
    assert_eq!(place_in(&l, &screen(1000, 800)).unwrap().height, 790);
    assert_eq!(place_in(&l, &screen(1000, 800)).unwrap().width, 30);
    l.stretch = Stretch::XY { x_margin: 1, y_margin: 2, keep_aspect_ratio: false };
    let r = place_in(&l, &screen(1000, 800)).unwrap();
    assert_eq!((r.width, r.height), (998, 796));
}

#[test]
fn aspect_locked_stretch_keeps_ratio() {
    let mut l = layout(Anchor::Middle, Anchor::Middle, 0, 0, 0, 200, 100);
    l.stretch = Stretch::XY { x_margin: 0, y_margin: 0, keep_aspect_ratio: true };
    let r = place_in(&l, &screen(1000, 800)).unwrap();
    assert_eq!((r.width, r.height), (1000, 500));

    let mut tall = layout(Anchor::Middle, Anchor::Middle, 0, 0, 0, 100, 300);
    tall.stretch = Stretch::XY { x_margin: 0, y_margin: 0, keep_aspect_ratio: true };
    let r = place_in(&tall, &screen(1000, 800)).unwrap();
    assert_eq!((r.width, r.height), (266, 800));
    assert!(r.width * 300 <= 100 * r.height && 100 * r.height < (r.width + 1) * 300);
}

#[test]
fn out_of_range_values_stay_unresolved() {
    let l = layout(Anchor::Middle, Anchor::Middle, i64::MAX, 0, 0, 10, 10);
    assert_eq!(place_in(&l, &screen(100, 100)), None);
}

fn tree(world: &mut UiWorld) -> Vec<amethyst_ui::Entity> {
    let a = world.create_entity();
    world.add_transform(
        a,
        UiTransform::new("a".to_string(), Anchor::TopLeft, Anchor::TopLeft, 10, -20, 1, 100, 50),
    );
    let b = world.create_entity();
    world.add_transform(
        b,
        UiTransform::new("b".to_string(), Anchor::Middle, Anchor::Middle, 5000, 0, 2, 5000, 10000)
            .into_percent(),
    );
    let c = world.create_entity();
    world.add_transform(
        c,
        UiTransform::new("c".to_string(), Anchor::BottomLeft, Anchor::BottomLeft, 0, 0, 1, 4, 6),
    );
    world.set_parent(b, a);
    world.set_parent(c, b);
    vec![a, b, c]
}

fn rect_of(world: &UiWorld, e: amethyst_ui::Entity) -> (i64, i64, i64, i64, i64) {
    let t = world.transform(e).unwrap();
    (t.pixel_x(), t.pixel_y(), t.global_z(), t.pixel_width(), t.pixel_height())
}

#[test]
fn nested_resolution() {
    let mut world = UiWorld::new();
    let es = tree(&mut world);
    build_ui_transform_system(&mut world, 1000, 800);
    assert_eq!(rect_of(&world, es[0]), (-440, 355, 1, 100, 50));
    assert_eq!(rect_of(&world, es[1]), (-390, 355, 3, 50, 50));
    assert_eq!(rect_of(&world, es[2]), (-413, 333, 4, 4, 6));
    assert_eq!(get_parent_pixel_size(es[2], &world, 1000, 800), (50, 50));
    assert_eq!(get_parent_pixel_size(es[0], &world, 1000, 800), (1000, 800));
}

#[test]
fn resolution_order_does_not_matter() {
    let mut w1 = UiWorld::new();
    let es1 = tree(&mut w1);
    let mut w2 = UiWorld::new();
    let es2 = tree(&mut w2);
    solve_transforms(&mut w1, &vec![0, 1, 2], 1000, 800);
    assert_eq!(solve_transforms(&mut w2, &vec![2, 1, 0, 2], 1000, 800), Vec::<usize>::new());
    for k in 0..3 {
        assert_eq!(rect_of(&w1, es1[k]), rect_of(&w2, es2[k]));
    }
}

#[test]
fn resolving_twice_changes_nothing() {
    let mut world = UiWorld::new();
    let es = tree(&mut world);
    build_ui_transform_system(&mut world, 1000, 800);
    let first: Vec<_> = es.iter().map(|e| rect_of(&world, *e)).collect();
    build_ui_transform_system(&mut world, 1000, 800);
    let second: Vec<_> = es.iter().map(|e| rect_of(&world, *e)).collect();
    assert_eq!(first, second);
}

#[test]
fn parent_cycle_is_left_unresolved() {
    let mut world = UiWorld::new();
    let a = world.create_entity();
    world.add_transform(a, UiTransform::new("".to_string(), Anchor::Middle, Anchor::Middle, 1, 2, 3, 4, 5));
    let b = world.create_entity();
    world.add_transform(b, UiTransform::new("".to_string(), Anchor::Middle, Anchor::Middle, 6, 7, 8, 9, 10));
    world.set_parent(a, b);
    world.set_parent(b, a);
    let c = world.create_entity();
    world.add_transform(c, UiTransform::new("".to_string(), Anchor::Middle, Anchor::Middle, 0, 0, 0, 1, 1));
    world.set_parent(c, a);
    let root = world.create_entity();
    world.add_transform(root, UiTransform::new("".to_string(), Anchor::Middle, Anchor::Middle, 0, 0, 0, 1, 1));
    assert_eq!(build_ui_transform_system(&mut world, 100, 100), vec![0, 1, 2]);
    assert_eq!(rect_of(&world, a), (1, 2, 3, 4, 5));
    assert_eq!(rect_of(&world, b), (6, 7, 8, 9, 10));
}

#[test]
fn parent_without_transform_leaves_child_unresolved() {
    let mut world = UiWorld::new();
    let p = world.create_entity();
    let c = world.create_entity();
    world.add_transform(c, UiTransform::new("".to_string(), Anchor::TopLeft, Anchor::Middle, 1, 2, 3, 4, 5));
    world.set_parent(c, p);
    assert_eq!(build_ui_transform_system(&mut world, 100, 100), vec![1]);
    assert_eq!(rect_of(&world, c), (1, 2, 3, 4, 5));
}

#[test]
fn anchor_offsets() {
    assert_eq!(Anchor::TopLeft.normalized_offset(), (-1, 1));
    assert_eq!(Anchor::Middle.normalized_offset(), (0, 0));
    assert_eq!(Anchor::BottomRight.normalized_offset(), (1, -1));
}
