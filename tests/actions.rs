use amethyst_ui::{
    build_ui_button_action_retrigger_system, build_mouse_selection_system, Selectable, build_event_retrigger_system, should_skip_char,
    ActionChangeStack, Entity, EventReceiver, SelectedEntities, SelectionOrderCache, TtfFormat,
    UiButtonAction, UiButtonActionRetrigger, UiButtonActionType, UiButtonSystem, UiEvent,
    UiEventType, UiPlaySoundAction, UiSoundRetrigger,
};

fn table(hover: Vec<UiButtonAction>) -> UiButtonActionRetrigger {
    UiButtonActionRetrigger {
        on_click_start: vec![],
        on_click_stop: vec![],
        on_hover_start: hover,
        on_hover_stop: vec![],
    }
}

#[test]
fn retrigger_fan_out() {
    let b = Entity::new(1, 0);
    let x = UiButtonAction::new(UiButtonActionType::SetTextColor(0xff0000ff), b);
    let y = UiButtonAction::new(UiButtonActionType::SetImage(7), b);
    let tables = vec![(b, table(vec![x, y]))];
    let events = vec![UiEvent::new(UiEventType::HoverStart, b)];
    let mut out = Vec::new();
    build_ui_button_action_retrigger_system(&events, &tables, &mut out);
    assert_eq!(out, vec![x, y]);
}

#[test]
fn retrigger_skips_untabled_and_other_kinds() {
    let b = Entity::new(1, 0);
    let c = Entity::new(2, 0);
    let x = UiButtonAction::new(UiButtonActionType::UnsetImage(3), b);
    let tables = vec![(b, table(vec![x]))];
    let events = vec![
        UiEvent::new(UiEventType::Click, b),
        UiEvent::new(UiEventType::HoverStart, c),
        UiEvent::new(UiEventType::HoverStart, b),
        UiEvent::new(UiEventType::HoverStart, b),
    ];
    let mut out = vec![UiButtonAction::new(UiButtonActionType::SetImage(1), c)];
    build_event_retrigger_system(&events, &tables, &mut out);
    assert_eq!(out.len(), 3);
    assert_eq!(out[1], x);
    assert_eq!(out[2], x);
}

#[test]
fn sound_retrigger_plays_once() {
    let b = Entity::new(4, 2);
    let sound = UiSoundRetrigger {
        on_click_start: Some(UiPlaySoundAction(9)),
        on_click_stop: None,
        on_hover_start: None,
        on_hover_stop: None,
    };
    let events = vec![
        UiEvent::new(UiEventType::ClickStart, b),
        UiEvent::new(UiEventType::ClickStop, b),
    ];
    let mut out: Vec<UiPlaySoundAction> = Vec::new();
    build_event_retrigger_system(&events, &vec![(b, sound)], &mut out);
    assert_eq!(out, vec![UiPlaySoundAction(9)]);
    out.receive_one(&UiPlaySoundAction(1));
    out.receive(&[UiPlaySoundAction(2), UiPlaySoundAction(3)]);
    assert_eq!(out.len(), 4);
}

#[test]
fn change_stack_restores_values() {
    let mut s = ActionChangeStack::new(1u32);
    assert!(s.is_empty());
    assert_eq!(s.current_value(), 1);
    s.push(2);
    s.push(3);
    s.push(2);
    assert_eq!(s.current_value(), 2);
    s.remove(&2);
    assert_eq!(s.current_value(), 2);
    s.remove(&2);
    assert_eq!(s.current_value(), 3);
    s.remove(&5);
    s.remove(&3);
    assert!(s.is_empty());
    assert_eq!(s.current_value(), 1);
}

#[test]
fn button_colour_set_and_unset() {
    let b = Entity::new(0, 0);
    let mut sys = UiButtonSystem::new();
    let set = UiButtonAction::new(UiButtonActionType::SetTextColor(10), b);
    let unset = UiButtonAction::new(UiButtonActionType::UnsetTextColor(10), b);
    assert_eq!(sys.apply(&set, None), None);
    assert_eq!(sys.apply(&set, Some(5)), Some(10));
    assert_eq!(sys.apply(&unset, Some(10)), Some(5));
    assert_eq!(sys.apply(&unset, Some(5)), None);
    let img = UiButtonAction::new(UiButtonActionType::SetImage(4), b);
    assert_eq!(sys.apply(&img, Some(1)), Some(4));
    let img2 = UiButtonAction::new(UiButtonActionType::SetImage(6), b);
    assert_eq!(sys.apply(&img2, Some(4)), Some(6));
    let unimg = UiButtonAction::new(UiButtonActionType::UnsetImage(6), b);
    assert_eq!(sys.apply(&unimg, Some(6)), Some(4));
}

#[test]
fn selection_tracks_last() {
    let a = Entity::new(0, 0);
    let b = Entity::new(1, 0);
    let mut sel = SelectedEntities::new();
    sel.insert(a);
    sel.insert(b);
    sel.insert(a);
    assert_eq!(sel.entities().len(), 2);
    assert_eq!(sel.last_entity(), Some(a));
    sel.remove(b);
    assert_eq!(sel.last_entity(), Some(a));
    assert!(!sel.contains(b));
    sel.remove(a);
    assert_eq!(sel.last_entity(), None);
    sel.insert(b);
    sel.clear();
    assert!(!sel.contains(b));
    assert_eq!(sel.last_entity(), None);
}

#[test]
fn selection_order_sorted_by_order_then_index() {
    let mut cache = SelectionOrderCache::new();
    let e = |i| Entity::new(i, 0);
    cache.rebuild(&vec![(e(3), 2), (e(1), 2), (e(0), 5), (e(2), 0)]);
    assert_eq!(cache.entitites().to_vec(), vec![(e(2), 0), (e(1), 2), (e(3), 2), (e(0), 5)]);
}

#[test]
fn skipped_characters() {
    assert!(should_skip_char('\u{7}'));
    assert!(should_skip_char('\u{7F}'));
    assert!(should_skip_char('\u{E000}'));
    assert!(should_skip_char('\u{10FFFD}'));
    assert!(!should_skip_char('a'));
    assert!(!should_skip_char(' '));
    assert_eq!(TtfFormat.name(), "TTF");
}

fn selectable(order: u32, group: Option<u32>, auto: bool) -> Selectable<u32> {
    Selectable { order, multi_select_group: group, auto_multi_select: auto, consumes_inputs: false }
}

#[test]
fn click_selection_focus_and_blur() {
    let a = Entity::new(0, 0);
    let b = Entity::new(1, 0);
    let c = Entity::new(2, 0);
    let outside = Entity::new(3, 0);
    let selectables = vec![
        (a, selectable(0, Some(1), false)),
        (b, selectable(1, Some(1), true)),
        (c, selectable(2, Some(2), false)),
    ];
    let mut sel = SelectedEntities::new();
    let click = |e| UiEvent::new(UiEventType::ClickStart, e);

    let out = build_mouse_selection_system(&mut sel, &vec![click(a)], &selectables, false);
    assert_eq!(out, vec![UiEvent::new(UiEventType::Focus, a)]);

    let out = build_mouse_selection_system(&mut sel, &vec![click(b)], &selectables, false);
    assert_eq!(out, vec![UiEvent::new(UiEventType::Focus, b)]);
    assert!(sel.contains(a) && sel.contains(b));

    let out = build_mouse_selection_system(&mut sel, &vec![UiEvent::new(UiEventType::Click, c), click(c)], &selectables, true);
    assert_eq!(
        out,
        vec![
            UiEvent::new(UiEventType::Blur, a),
            UiEvent::new(UiEventType::Blur, b),
            UiEvent::new(UiEventType::Focus, c),
        ]
    );

    let out = build_mouse_selection_system(&mut sel, &vec![click(outside)], &selectables, false);
    assert_eq!(out, vec![UiEvent::new(UiEventType::Blur, c)]);
    assert_eq!(sel.last_entity(), None);
}
