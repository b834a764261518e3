use limn::ui::{EventAddress, InputEvent, MousePosition, Ui, UiEvent};
use limn::widget::{Widget, WidgetId};
use limn::widgets::hover::Hover;

/// root(1) at node 0 with children 2 (node 1) and 3 (node 2); 4 (node 3) below 2.
fn sample_ui() -> Ui {
    let mut ui = Ui::new();
    ui.set_root(Widget::new("root", 1));
    ui.add_widget(Some(0), Widget::new("left", 2));
    ui.add_widget(Some(0), Widget::new("right", 3));
    ui.add_widget(Some(1), Widget::new("leaf", 4));
    ui
}

fn targets(ui: &mut Ui, address: EventAddress, over: &[WidgetId]) -> Vec<usize> {
    let mut router = ui.route_event(address);
    let mut found = Vec::new();
    while let Some(n) = router.next(ui, |w: &Widget, _m: &MousePosition| over.contains(&w.id)) {
        found.push(n);
    }
    found
}

#[test]
fn new_ui_is_empty() {
    let ui = Ui::new();
    assert!(ui.root_index.is_none());
    assert!(ui.widget_map.is_empty());
    assert!(ui.dirty_widgets.is_empty());
    assert!(ui.input_state.last_over.is_empty());
    assert_eq!(ui.graph.node_count(), 0);
}

#[test]
fn added_widgets_are_numbered_in_order_and_dirty() {
    let mut ui = sample_ui();
    assert_eq!(ui.root_index, Some(0));
    assert_eq!(ui.get_root().id, 1);
    assert_eq!(ui.widget_map.get(&4), Some(&3));
    assert_eq!(ui.dirty_widgets.len(), 4);
    let index = ui.add_widget(None, Widget::new("loose", 9));
    assert_eq!(index, 4);
    assert!(ui.dirty_widgets.contains(&4));
}

#[test]
fn children_newest_first_and_parents() {
    let mut ui = sample_ui();
    assert_eq!(ui.children(0), vec![2, 1]);
    assert_eq!(ui.children(1), vec![3]);
    assert_eq!(ui.children(3), Vec::<usize>::new());
    assert_eq!(ui.parents(3), vec![1]);
    assert_eq!(ui.parents(0), Vec::<usize>::new());
    assert_eq!(ui.children(77), Vec::<usize>::new());
}

#[test]
fn get_widget_never_answers() {
    let ui = sample_ui();
    assert!(ui.get_widget(1).is_none());
    assert!(ui.get_widget(4).is_none());
    assert!(ui.get_widget(50).is_none());
}

#[test]
fn window_resized_marks_root_dirty() {
    let mut ui = sample_ui();
    ui.dirty_widgets.clear();
    ui.window_resized();
    assert_eq!(ui.dirty_widgets.len(), 1);
    assert!(ui.dirty_widgets.contains(&0));
}

#[test]
fn finish_widget_event_marks_only_updated_widgets() {
    let mut ui = sample_ui();
    ui.dirty_widgets.clear();
    ui.finish_widget_event(2);
    assert!(ui.dirty_widgets.is_empty());
    ui.graph[petgraph::graph::NodeIndex::new(2)].has_updated = true;
    ui.finish_widget_event(2);
    assert!(ui.dirty_widgets.contains(&2));
    assert!(!ui.graph[petgraph::graph::NodeIndex::new(2)].has_updated);
}

#[test]
fn route_to_widget_child_and_subtree() {
    let mut ui = sample_ui();
    assert_eq!(targets(&mut ui, EventAddress::Widget(3), &[]), vec![2]);
    assert_eq!(targets(&mut ui, EventAddress::Widget(99), &[]), Vec::<usize>::new());
    assert_eq!(targets(&mut ui, EventAddress::Child(1), &[]), vec![2]);
    assert_eq!(targets(&mut ui, EventAddress::Child(2), &[]), vec![3]);
    assert_eq!(targets(&mut ui, EventAddress::Child(4), &[]), Vec::<usize>::new());
    assert_eq!(targets(&mut ui, EventAddress::SubTree(1), &[]), vec![0, 1, 3, 2]);
    assert_eq!(targets(&mut ui, EventAddress::SubTree(2), &[]), vec![1, 3]);
    assert_eq!(targets(&mut ui, EventAddress::SubTree(99), &[]), Vec::<usize>::new());
    assert!(ui.input_state.last_over.is_empty());
}

#[test]
fn route_under_mouse_records_hovered_widgets() {
    let mut ui = sample_ui();
    assert_eq!(targets(&mut ui, EventAddress::UnderMouse, &[1, 2, 4]), vec![0, 1, 3]);
    assert_eq!(ui.input_state.last_over.len(), 3);
    assert!(ui.input_state.last_over.contains(&4));
    assert!(!ui.input_state.last_over.contains(&3));
}

#[test]
fn mouse_moved_sends_out_to_widgets_left() {
    let mut ui = sample_ui();
    targets(&mut ui, EventAddress::UnderMouse, &[1, 2, 4]);
    let events = ui.handle_event(InputEvent::MouseMoved(10, 20), None, |w: &Widget, m: &MousePosition| w.id == 1 && m.x == 10);
    assert_eq!(events.len(), 3);
    assert_eq!(events[2], (EventAddress::UnderMouse, UiEvent::Hover(Hover::Over)));
    let mut left: Vec<EventAddress> = events[..2].iter().map(|e| e.0).collect();
    left.sort_by_key(|a| match a {
        EventAddress::Widget(id) => *id,
        _ => 0,
    });
    assert_eq!(left, vec![EventAddress::Widget(2), EventAddress::Widget(4)]);
    assert!(events[..2].iter().all(|e| e.1 == UiEvent::Hover(Hover::Out)));
    assert_eq!(ui.input_state.last_over.len(), 1);
    assert!(ui.input_state.last_over.contains(&1));
    assert_eq!(ui.input_state.mouse, MousePosition { x: 10, y: 20 });
}

#[test]
fn mouse_moved_keeps_unknown_ids_and_still_hovers() {
    let mut ui = sample_ui();
    ui.input_state.last_over.insert(42);
    let events = ui.handle_event(InputEvent::MouseMoved(3, 4), None, |_w: &Widget, _m: &MousePosition| false);
    assert_eq!(events, vec![(EventAddress::UnderMouse, UiEvent::Hover(Hover::Over))]);
    assert!(ui.input_state.last_over.contains(&42));
}

#[test]
fn other_input_changes_nothing() {
    let mut ui = sample_ui();
    targets(&mut ui, EventAddress::UnderMouse, &[1]);
    let events = ui.handle_event(InputEvent::Other, None, |_w: &Widget, _m: &MousePosition| false);
    assert!(events.is_empty());
    assert!(ui.input_state.last_over.contains(&1));
    assert_eq!(ui.input_state.mouse, MousePosition { x: 0, y: 0 });
}

#[test]
fn hit_test_sees_the_recorded_mouse() {
    let mut ui = sample_ui();
    ui.handle_event(InputEvent::MouseMoved(5, 6), None, |_w: &Widget, _m: &MousePosition| false);
    let mut router = ui.route_event(EventAddress::UnderMouse);
    let hit = router.next(&mut ui, |w: &Widget, m: &MousePosition| w.id == 3 && *m == MousePosition { x: 5, y: 6 });
    assert_eq!(hit, Some(2));
    assert_eq!(router.next(&mut ui, |_w: &Widget, _m: &MousePosition| true), None);
}

#[test]
fn input_with_an_id_goes_to_the_widgets_under_the_mouse() {
    let mut ui = sample_ui();
    let events = ui.handle_event(InputEvent::Other, Some(7), |_w: &Widget, _m: &MousePosition| false);
    assert_eq!(events, vec![(EventAddress::UnderMouse, UiEvent::Input(7, InputEvent::Other))]);
    let events = ui.handle_event(InputEvent::MouseMoved(1, 2), Some(9), |_w: &Widget, _m: &MousePosition| true);
    assert_eq!(
        events,
        vec![
            (EventAddress::UnderMouse, UiEvent::Hover(Hover::Over)),
            (EventAddress::UnderMouse, UiEvent::Input(9, InputEvent::MouseMoved(1, 2))),
        ]
    );
}

#[test]
fn draw_order_is_oldest_child_first() {
    let mut ui = sample_ui();
    assert_eq!(ui.draw_children(0), vec![1, 2]);
    assert_eq!(ui.draw_children(1), vec![3]);
    assert_eq!(ui.draw_children(3), Vec::<usize>::new());
    ui.add_widget(Some(0), Widget::new("third", 5));
    assert_eq!(ui.draw_children(0), vec![1, 2, 4]);
}

#[test]
fn the_end_index_has_no_neighbors() {
    let mut ui = sample_ui();
    let end = u32::MAX as usize;
    assert_eq!(ui.children(end), Vec::<usize>::new());
    assert_eq!(ui.parents(end), Vec::<usize>::new());
}

#[test]
fn a_new_child_comes_first_with_one_parent() {
    let mut ui = sample_ui();
    let index = ui.add_widget(Some(1), Widget::new("second leaf", 6));
    assert_eq!(ui.children(1), vec![index, 3]);
    assert_eq!(ui.parents(index), vec![1]);
    assert!(ui.dirty_widgets.contains(&index));
}

#[test]
fn a_router_survives_finishing_an_event() {
    let mut ui = sample_ui();
    let mut router = ui.route_event(EventAddress::SubTree(1));
    let mut found = Vec::new();
    while let Some(n) = router.next(&mut ui, |_w: &Widget, _m: &MousePosition| false) {
        ui.graph[petgraph::graph::NodeIndex::new(n)].has_updated = true;
        ui.finish_widget_event(n);
        found.push(n);
    }
    assert_eq!(found, vec![0, 1, 3, 2]);
    assert_eq!(ui.dirty_widgets.len(), 4);
}

#[test]
fn a_changed_layout_replays_the_last_mouse_position() {
    let mut ui = sample_ui();
    ui.handle_event(InputEvent::MouseMoved(12, 34), None, |_w: &Widget, _m: &MousePosition| false);
    assert_eq!(ui.mouse_replay(true), Some(InputEvent::MouseMoved(12, 34)));
    assert_eq!(ui.mouse_replay(false), None);
}

#[test]
fn adding_widgets_leaves_the_mouse_where_it_was() {
    let mut ui = sample_ui();
    ui.handle_event(InputEvent::MouseMoved(8, 9), None, |_w: &Widget, _m: &MousePosition| false);
    ui.add_widget(Some(2), Widget::new("more", 11));
    ui.window_resized();
    ui.finish_widget_event(4);
    assert_eq!(ui.input_state.mouse, MousePosition { x: 8, y: 9 });
}
