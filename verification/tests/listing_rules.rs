use todo_graph::config::Config;
use todo_graph::graph::Graph;
use todo_graph::node::{Node, NodeType};

fn node(id: usize, desc: &str, t: NodeType, deps: Vec<usize>, parents: Vec<usize>) -> Node {
    Node {
        id,
        description: desc.to_string(),
        node_type: t,
        due_date: None,
        deps,
        parents,
    }
}

fn graph(nodes: Vec<Node>) -> Graph {
    Graph::from_parts(None, nodes, Config::default())
}

fn listed_ids(g: &Graph, overwhelm: bool) -> Vec<usize> {
    g.todos(overwhelm).unwrap().iter().map(|l| l.id).collect()
}

#[test]
fn goal_with_dependencies_is_always_printed() {
    let g = graph(vec![
        node(0, "goal", NodeType::Goal, vec![1], vec![]),
        node(1, "t", NodeType::Task, vec![], vec![0]),
    ]);
    assert!(listed_ids(&g, false).contains(&0));
    assert!(listed_ids(&g, true).contains(&0));
}

#[test]
fn blocked_task_is_printed_only_under_overwhelm() {
    let g = graph(vec![
        node(0, "blocked", NodeType::Task, vec![1], vec![]),
        node(1, "leaf", NodeType::Task, vec![], vec![0]),
    ]);
    assert!(!listed_ids(&g, false).contains(&0));
    assert!(listed_ids(&g, true).contains(&0));
}

#[test]
fn blocked_condition_is_printed_only_under_overwhelm() {
    let g = graph(vec![
        node(0, "cond", NodeType::Condition, vec![1], vec![]),
        node(1, "leaf", NodeType::Task, vec![], vec![0]),
    ]);
    assert!(!listed_ids(&g, false).contains(&0));
    assert!(listed_ids(&g, true).contains(&0));
}

#[test]
fn leaf_task_is_always_printed() {
    let g = graph(vec![node(0, "leaf", NodeType::Task, vec![], vec![])]);
    assert_eq!(listed_ids(&g, false), vec![0]);
    assert_eq!(listed_ids(&g, true), vec![0]);
}

#[test]
fn children_of_printed_nodes_indent_one_deeper() {
    let g = graph(vec![
        node(0, "goal", NodeType::Goal, vec![1], vec![]),
        node(1, "leaf", NodeType::Task, vec![], vec![0]),
    ]);
    let lines = g.todos(false).unwrap();
    assert_eq!(lines.len(), 2);
    assert_eq!(lines[0].id, 0);
    assert_eq!(lines[0].level, 0);
    assert_eq!(lines[1].id, 1);
    assert_eq!(lines[1].level, 1);
}

#[test]
fn children_of_skipped_nodes_keep_the_level() {
    // the blocked task at the root is not printed, so its leaf stays at
    // indentation 0
    let g = graph(vec![
        node(0, "blocked", NodeType::Task, vec![1], vec![]),
        node(1, "leaf", NodeType::Task, vec![], vec![0]),
    ]);
    let lines = g.todos(false).unwrap();
    assert_eq!(lines.len(), 1);
    assert_eq!(lines[0].id, 1);
    assert_eq!(lines[0].level, 0);
}

#[test]
fn traversal_descends_through_hidden_nodes() {
    // a goal deep under two hidden tasks still surfaces
    let g = graph(vec![
        node(0, "t0", NodeType::Task, vec![1], vec![]),
        node(1, "t1", NodeType::Task, vec![2], vec![0]),
        node(2, "deep goal", NodeType::Goal, vec![], vec![1]),
    ]);
    let ids = listed_ids(&g, false);
    assert_eq!(ids, vec![2]);
}

#[test]
fn backlog_goal_is_collapsed_in_the_default_listing() {
    let g = graph(vec![
        node(0, "backlog_name", NodeType::Goal, vec![1], vec![]),
        node(1, "someday", NodeType::Task, vec![], vec![0]),
    ]);
    let ids = listed_ids(&g, false);
    assert!(ids.contains(&0));
    assert!(!ids.contains(&1));
}

#[test]
fn backlog_goal_expands_when_anchored_at_it() {
    let g = graph(vec![
        node(0, "backlog_name", NodeType::Goal, vec![1], vec![]),
        node(1, "someday", NodeType::Task, vec![], vec![0]),
    ]);
    let lines = g.show(&0, 0, false, Some(0)).unwrap();
    let ids: Vec<usize> = lines.iter().map(|l| l.id).collect();
    assert_eq!(ids, vec![0, 1]);
}

#[test]
fn backlog_hiding_can_be_switched_off() {
    let config = Config {
        hide_backlog_items: false,
        ..Config::default()
    };
    let g = Graph::from_parts(
        None,
        vec![
            node(0, "backlog_name", NodeType::Goal, vec![1], vec![]),
            node(1, "someday", NodeType::Task, vec![], vec![0]),
        ],
        config,
    );
    let ids = listed_ids(&g, false);
    assert_eq!(ids, vec![0, 1]);
}

#[test]
fn effective_root_anchors_the_default_listing() {
    let mut g = graph(vec![
        node(0, "a", NodeType::Goal, vec![], vec![]),
        node(1, "b", NodeType::Goal, vec![2], vec![]),
        node(2, "leaf", NodeType::Task, vec![], vec![1]),
    ]);
    g.set_effective_root(Some(1)).unwrap();
    let ids = listed_ids(&g, false);
    assert_eq!(ids, vec![1, 2]);
}

#[test]
fn empty_graph_lists_nothing() {
    let g = graph(vec![]);
    assert_eq!(g.todos(false).unwrap().len(), 0);
}

#[test]
fn show_reports_a_missing_anchor() {
    let g = graph(vec![]);
    let err = g.show(&3, 0, false, Some(3)).unwrap_err();
    assert_eq!(err, "Node with id 3 not present in todos.");
}

#[test]
fn show_starts_at_the_requested_level() {
    let g = graph(vec![node(0, "leaf", NodeType::Task, vec![], vec![])]);
    let lines = g.show(&0, 5, false, Some(0)).unwrap();
    assert_eq!(lines[0].level, 5);
}

#[test]
fn print_node_carries_the_configured_color() {
    let g = graph(vec![
        node(0, "g", NodeType::Goal, vec![], vec![]),
        node(1, "c", NodeType::Condition, vec![], vec![]),
        node(2, "t", NodeType::Task, vec![], vec![]),
    ]);
    let goal = g.print_node(0, 1).unwrap();
    assert_eq!(goal.id, 0);
    assert_eq!(goal.level, 1);
    assert_eq!(goal.description, "g");
    assert_eq!(goal.color, "01;94");
    let cond = g.print_node(1, 0).unwrap();
    assert_eq!(cond.color, "01;33");
    let task = g.print_node(2, 0).unwrap();
    assert_eq!(task.color, "0;39");
    let err = g.print_node(9, 0).unwrap_err();
    assert_eq!(err, "Node 9 not found.");
}

#[test]
fn lines_carry_descriptions_and_kinds() {
    let g = graph(vec![node(0, "the label", NodeType::Condition, vec![], vec![])]);
    let lines = g.todos(true).unwrap();
    assert_eq!(lines.len(), 1);
    assert_eq!(lines[0].description, "the label");
    assert!(matches!(lines[0].node_type, NodeType::Condition));
}
