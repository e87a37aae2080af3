use todo_graph::config::Config;
use todo_graph::graph::Graph;
use todo_graph::node::{Node, NodeType};

fn node(id: usize, desc: &str, t: NodeType, deps: Vec<usize>, parents: Vec<usize>) -> Node {
    Node {
        id,
        description: desc.to_string(),
        node_type: t,
        due_date: None,
        deps,
        parents,
    }
}

fn graph(nodes: Vec<Node>) -> Graph {
    Graph::from_parts(None, nodes, Config::default())
}

#[test]
fn a_well_formed_dag_validates() {
    let g = graph(vec![
        node(0, "a", NodeType::Goal, vec![1, 2], vec![]),
        node(1, "b", NodeType::Task, vec![2], vec![0]),
        node(2, "c", NodeType::Task, vec![], vec![0, 1]),
    ]);
    assert!(g.validate().is_ok());
}

#[test]
fn id_position_mismatch_is_detected() {
    let g = graph(vec![node(7, "a", NodeType::Task, vec![], vec![])]);
    let err = g.validate().unwrap_err();
    assert_eq!(err, "Ids do not match the list structure.");
}

#[test]
fn dangling_dependency_is_detected() {
    let g = graph(vec![node(0, "a", NodeType::Task, vec![9], vec![])]);
    let err = g.validate().unwrap_err();
    assert_eq!(err, "Listed dependency 9 for node with id 0 not present in graph.");
}

#[test]
fn dangling_parent_is_detected() {
    let g = graph(vec![node(0, "a", NodeType::Task, vec![], vec![9])]);
    let err = g.validate().unwrap_err();
    assert_eq!(err, "Listed parent 9 for node with id 0 not present in graph.");
}

#[test]
fn one_sided_dependency_is_detected() {
    let g = graph(vec![
        node(0, "a", NodeType::Task, vec![1], vec![]),
        node(1, "b", NodeType::Task, vec![], vec![]),
    ]);
    let err = g.validate().unwrap_err();
    assert!(err.contains("One-sided dependency encountered"));
}

#[test]
fn one_sided_parent_is_detected() {
    let g = graph(vec![
        node(0, "a", NodeType::Task, vec![], vec![1]),
        node(1, "b", NodeType::Task, vec![], vec![]),
    ]);
    let err = g.validate().unwrap_err();
    assert!(err.contains("One-sided dependency encountered"));
}

#[test]
fn duplicated_edge_entry_is_detected() {
    let g = graph(vec![
        node(0, "a", NodeType::Task, vec![1, 1], vec![]),
        node(1, "b", NodeType::Task, vec![], vec![0]),
    ]);
    let err = g.validate().unwrap_err();
    assert!(err.contains("Duplicate edge entry"));
}

#[test]
fn two_node_cycle_is_detected() {
    let g = graph(vec![
        node(0, "a", NodeType::Task, vec![1], vec![1]),
        node(1, "b", NodeType::Task, vec![0], vec![0]),
    ]);
    let err = g.validate().unwrap_err();
    assert_eq!(err, "Idiot. Haven't you heard of a DAG above?");
}

#[test]
fn self_loop_is_detected() {
    let g = graph(vec![node(0, "a", NodeType::Task, vec![0], vec![0])]);
    assert!(g.validate().is_err());
}

#[test]
fn check_topology_accepts_a_diamond() {
    let g = graph(vec![
        node(0, "top", NodeType::Goal, vec![1, 2], vec![]),
        node(1, "l", NodeType::Task, vec![3], vec![0]),
        node(2, "r", NodeType::Task, vec![3], vec![0]),
        node(3, "bottom", NodeType::Task, vec![], vec![1, 2]),
    ]);
    assert!(g.check_topology().is_ok());
    assert!(g.validate().is_ok());
}

#[test]
fn empty_graph_validates() {
    let g = graph(vec![]);
    assert!(g.validate().is_ok());
    assert!(g.check_topology().is_ok());
}

#[test]
fn node_type_parses_the_three_kinds() {
    assert!(matches!(
        NodeType::from_string(&"task".to_string()),
        Some(NodeType::Task)
    ));
    assert!(matches!(
        NodeType::from_string(&"condition".to_string()),
        Some(NodeType::Condition)
    ));
    assert!(matches!(
        NodeType::from_string(&"goal".to_string()),
        Some(NodeType::Goal)
    ));
    assert!(NodeType::from_string(&"Task".to_string()).is_none());
    assert!(NodeType::from_string(&"".to_string()).is_none());
}

#[test]
fn config_defaults_match_the_documented_values() {
    let c = Config::default();
    assert_eq!(c.goal_color, "01;94");
    assert_eq!(c.condition_color, "01;33");
    assert_eq!(c.task_color, "0;39");
    assert!(c.hide_backlog_items);
    assert_eq!(c.backlog_name, "backlog_name");
}

#[test]
fn due_dates_are_carried_through_untouched() {
    let mut n = node(0, "a", NodeType::Task, vec![], vec![]);
    n.due_date = Some("2031-01-02".to_string());
    let mut g = graph(vec![n]);
    assert!(g.validate().is_ok());
    g.relabel(0, "b".to_string()).unwrap();
    assert_eq!(g.nodes()[0].due_date.as_deref(), Some("2031-01-02"));
}
