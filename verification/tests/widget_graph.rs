use limn::ui::graph::WidgetGraph;
use limn::widget::{Widget, WidgetContainer, WidgetId};

fn container(id: WidgetId, name: &str) -> WidgetContainer {
    WidgetContainer { widget: Widget::new(name, id) }
}

/// root(1) with children 2 and 3 (added in that order); 4 below 2.
fn sample_tree() -> WidgetGraph {
    let mut tree = WidgetGraph::new(1);
    tree.add_widget(container(1, "root"), None);
    tree.add_widget(container(2, "left"), Some(1));
    tree.add_widget(container(3, "right"), Some(1));
    tree.add_widget(container(4, "leaf"), Some(2));
    tree
}

#[test]
fn new_tree_knows_no_widget() {
    let mut tree = WidgetGraph::new(7);
    assert_eq!(tree.root_id, 7);
    assert!(tree.get_widget(7).is_none());
    assert_eq!(tree.parent(7), None);
    assert_eq!(tree.children(7).collect(&tree.graph), Vec::<WidgetId>::new());
}

#[test]
fn added_widgets_are_found_by_id() {
    let mut tree = sample_tree();
    assert_eq!(tree.get_widget(3).unwrap().debug_name, "right");
    assert_eq!(tree.get_widget_container(4).unwrap().widget.id, 4);
    assert!(tree.get_widget(99).is_none());
    assert!(tree.get_widget_container(99).is_none());
    assert_eq!(tree.get_root().id, 1);
}

#[test]
fn changes_through_get_widget_stay() {
    let mut tree = sample_tree();
    tree.get_widget(2).unwrap().has_updated = true;
    assert!(tree.get_widget(2).unwrap().has_updated);
    assert!(!tree.get_widget(3).unwrap().has_updated);
    tree.get_root().debug_name = String::from("top");
    assert_eq!(tree.get_widget(1).unwrap().debug_name, "top");
}

#[test]
fn children_come_newest_first() {
    let mut tree = sample_tree();
    assert_eq!(tree.children(1).collect(&tree.graph), vec![3, 2]);
    assert_eq!(tree.children(2).collect(&tree.graph), vec![4]);
    assert_eq!(tree.children(4).collect(&tree.graph), Vec::<WidgetId>::new());
    assert_eq!(tree.children(42).collect(&tree.graph), Vec::<WidgetId>::new());
}

#[test]
fn children_walker_steps_one_at_a_time() {
    let mut tree = sample_tree();
    let mut walker = tree.children(1);
    assert_eq!(walker.next(&tree.graph), Some(3));
    assert_eq!(walker.next(&tree.graph), Some(2));
    assert_eq!(walker.next(&tree.graph), None);
    assert_eq!(walker.next(&tree.graph), None);
}

#[test]
fn parent_is_the_widget_added_under() {
    let mut tree = sample_tree();
    assert_eq!(tree.parent(2), Some(1));
    assert_eq!(tree.parent(3), Some(1));
    assert_eq!(tree.parent(4), Some(2));
    assert_eq!(tree.parent(1), None);
    assert_eq!(tree.parent(99), None);
}

#[test]
fn unknown_parent_adds_no_edge() {
    let mut tree = sample_tree();
    tree.add_widget(container(5, "orphan"), Some(77));
    assert_eq!(tree.parent(5), None);
    assert_eq!(tree.get_widget(5).unwrap().id, 5);
}

#[test]
fn remove_hands_back_the_widget_and_its_edges_go() {
    let mut tree = sample_tree();
    let removed = tree.remove_widget(2).unwrap();
    assert_eq!(removed.widget.id, 2);
    assert_eq!(removed.widget.debug_name, "left");
    assert!(tree.get_widget(2).is_none());
    assert_eq!(tree.children(1).collect(&tree.graph), vec![3]);
    assert_eq!(tree.parent(4), None);
    assert!(tree.remove_widget(2).is_none());
}

#[test]
fn remove_of_unknown_id_changes_nothing() {
    let mut tree = sample_tree();
    assert!(tree.remove_widget(50).is_none());
    assert_eq!(tree.children(1).collect(&tree.graph), vec![3, 2]);
    assert_eq!(tree.parent(4), Some(2));
}

#[test]
fn remove_undoes_add() {
    let mut tree = sample_tree();
    tree.add_widget(container(9, "extra"), Some(1));
    assert_eq!(tree.children(1).collect(&tree.graph), vec![9, 3, 2]);
    let removed = tree.remove_widget(9).unwrap();
    assert_eq!(removed.widget.id, 9);
    assert_eq!(tree.children(1).collect(&tree.graph), vec![3, 2]);
    assert!(tree.get_widget(9).is_none());
    assert_eq!(tree.parent(3), Some(1));
}

#[test]
fn freed_slot_is_reused_without_confusion() {
    let mut tree = sample_tree();
    let freed_slot = tree.add_widget(container(6, "six"), Some(3));
    tree.remove_widget(6);
    let reused = tree.add_widget(container(8, "eight"), Some(4));
    assert_eq!(reused, freed_slot);
    assert_eq!(tree.parent(8), Some(4));
    assert_eq!(tree.children(3).collect(&tree.graph), Vec::<WidgetId>::new());
}

#[test]
fn added_child_is_newest_child() {
    let mut tree = sample_tree();
    tree.add_widget(container(10, "ten"), Some(2));
    assert_eq!(tree.children(2).collect(&tree.graph), vec![10, 4]);
    assert_eq!(tree.parent(10), Some(2));
}

#[test]
fn dfs_visits_subtree_once_in_preorder() {
    let mut tree = sample_tree();
    let mut walker = tree.dfs(1);
    let mut seen = Vec::new();
    while let Some(id) = walker.next(&tree.graph) {
        seen.push(id);
    }
    assert_eq!(seen, vec![1, 2, 4, 3]);
    let mut walker = tree.dfs(2);
    let mut seen = Vec::new();
    while let Some(id) = walker.next(&tree.graph) {
        seen.push(id);
    }
    assert_eq!(seen, vec![2, 4]);
}

#[test]
fn dfs_survives_changes_to_widgets() {
    let mut tree = sample_tree();
    let mut walker = tree.dfs(1);
    assert_eq!(walker.next(&tree.graph), Some(1));
    tree.get_widget(2).unwrap().has_updated = true;
    assert_eq!(walker.next(&tree.graph), Some(2));
    assert_eq!(walker.next(&tree.graph), Some(4));
    assert_eq!(walker.next(&tree.graph), Some(3));
    assert_eq!(walker.next(&tree.graph), None);
}

#[test]
fn widgets_under_cursor_come_in_postorder() {
    let mut tree = sample_tree();
    let over = |w: &Widget, p: &Vec<WidgetId>| p.contains(&w.id);
    let mut walker = tree.widgets_under_cursor(vec![1, 2, 4]);
    let mut seen = Vec::new();
    while let Some(id) = walker.next(&tree.graph, over) {
        seen.push(id);
    }
    assert_eq!(seen, vec![4, 2, 1]);
    let mut walker = tree.widgets_under_cursor(vec![3]);
    assert_eq!(walker.next(&tree.graph, over), Some(3));
    assert_eq!(walker.next(&tree.graph, over), None);
    let mut walker = tree.widgets_under_cursor(Vec::new());
    assert_eq!(walker.next(&tree.graph, over), None);
}

#[test]
fn reused_edge_slot_keeps_children_newest_first() {
    let mut tree = sample_tree();
    tree.add_widget(container(10, "ten"), Some(3));
    tree.remove_widget(4);
    tree.add_widget(container(11, "eleven"), Some(3));
    assert_eq!(tree.children(3).collect(&tree.graph), vec![11, 10]);
    assert_eq!(tree.parent(11), Some(3));
    assert_eq!(tree.parent(10), Some(3));
}

#[test]
fn node_count_follows_adds_and_removes() {
    let mut tree = sample_tree();
    assert_eq!(tree.graph.node_count(), 4);
    assert_eq!(tree.graph.edge_count(), 3);
    tree.add_widget(container(12, "twelve"), Some(4));
    assert_eq!(tree.graph.node_count(), 5);
    assert_eq!(tree.graph.edge_count(), 4);
    tree.remove_widget(2);
    assert_eq!(tree.graph.node_count(), 4);
    assert_eq!(tree.graph.edge_count(), 2);
    assert_eq!(tree.parent(4), None);
    assert_eq!(tree.parent(12), Some(4));
    tree.remove_widget(77);
    assert_eq!(tree.graph.node_count(), 4);
}

#[test]
fn widget_and_container_agree() {
    let mut tree = sample_tree();
    let name = tree.get_widget(3).unwrap().debug_name.clone();
    assert_eq!(tree.get_widget_container(3).unwrap().widget.debug_name, name);
    assert!(tree.get_widget(66).is_none() && tree.get_widget_container(66).is_none());
}

#[test]
fn postorder_puts_each_widget_before_its_parent() {
    let mut tree = sample_tree();
    tree.add_widget(container(5, "five"), Some(3));
    let over = |_w: &Widget, _p: &()| true;
    let mut walker = tree.widgets_under_cursor(());
    let mut seen = Vec::new();
    while let Some(id) = walker.next(&tree.graph, over) {
        seen.push(id);
    }
    assert_eq!(seen, vec![4, 2, 5, 3, 1]);
}

#[test]
fn parent_chains_end_at_the_root_after_adds_and_removes() {
    let mut tree = sample_tree();
    tree.add_widget(container(20, "a"), Some(4));
    tree.add_widget(container(21, "b"), Some(20));
    tree.remove_widget(3);
    tree.add_widget(container(22, "c"), Some(21));
    let mut chain = vec![22];
    while let Some(parent) = tree.parent(*chain.last().unwrap()) {
        assert!(!chain.contains(&parent));
        chain.push(parent);
    }
    assert_eq!(chain, vec![22, 21, 20, 4, 2, 1]);
    assert_eq!(tree.children(1).collect(&tree.graph), vec![2]);
}

#[test]
fn removing_the_parent_of_the_only_edge_leaves_no_edge() {
    let mut tree = WidgetGraph::new(1);
    tree.add_widget(container(1, "a"), None);
    tree.add_widget(container(2, "b"), Some(1));
    let removed = tree.remove_widget(1).unwrap();
    assert_eq!(removed.widget.id, 1);
    assert!(tree.get_widget(1).is_none());
    assert_eq!(tree.get_widget(2).unwrap().id, 2);
    assert_eq!(tree.parent(2), None);
    assert_eq!(tree.graph.node_count(), 1);
    assert_eq!(tree.graph.edge_count(), 0);
}

#[test]
fn a_widget_added_under_itself_counts_its_loop_once() {
    let mut tree = WidgetGraph::new(1);
    tree.add_widget(container(1, "a"), None);
    tree.add_widget(container(3, "loop"), Some(3));
    assert_eq!(tree.graph.edge_count(), 1);
    assert_eq!(tree.parent(3), Some(3));
    tree.remove_widget(3);
    assert_eq!(tree.graph.edge_count(), 0);
}
