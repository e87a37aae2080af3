use todo_graph::config::Config;
use todo_graph::graph::Graph;
use todo_graph::node::{Node, NodeType};

fn node(id: usize, desc: &str, t: NodeType, deps: Vec<usize>, parents: Vec<usize>) -> Node {
    Node {
        id,
        description: desc.to_string(),
        node_type: t,
        due_date: None,
        deps,
        parents,
    }
}

fn graph(nodes: Vec<Node>) -> Graph {
    Graph::from_parts(None, nodes, Config::default())
}

#[test]
fn add_assigns_dense_ids() {
    let mut g = graph(vec![]);
    assert_eq!(g.add_node_to("a".to_string(), NodeType::Task, None), Ok(0));
    assert_eq!(g.add_node_to("b".to_string(), NodeType::Goal, None), Ok(1));
    assert_eq!(g.add_node_to("c".to_string(), NodeType::Condition, None), Ok(2));
    assert!(g.validate().is_ok());
    for (i, n) in g.nodes().iter().enumerate() {
        assert_eq!(n.id, i);
    }
}

#[test]
fn add_under_parent_wires_both_sides() {
    let mut g = graph(vec![]);
    g.add_node_to("a".to_string(), NodeType::Task, None).unwrap();
    let b = g.add_node_to("b".to_string(), NodeType::Task, Some(0)).unwrap();
    assert_eq!(b, 1);
    assert_eq!(g.nodes()[0].deps, vec![1]);
    assert_eq!(g.nodes()[1].parents, vec![0]);
    assert!(g.validate().is_ok());
}

#[test]
fn add_under_missing_parent_fails() {
    let mut g = graph(vec![]);
    g.add_node_to("a".to_string(), NodeType::Task, None).unwrap();
    let r = g.add_node_to("b".to_string(), NodeType::Task, Some(7));
    assert!(r.is_err());
    assert_eq!(g.nodes().len(), 1);
    assert!(g.validate().is_ok());
}

#[test]
fn add_uses_effective_root_by_default() {
    let mut g = graph(vec![]);
    g.add_node_to("root".to_string(), NodeType::Goal, None).unwrap();
    g.set_effective_root(Some(0)).unwrap();
    let b = g.add_node_to("b".to_string(), NodeType::Task, None).unwrap();
    assert_eq!(b, 1);
    assert_eq!(g.nodes()[1].parents, vec![0]);
    assert_eq!(g.nodes()[0].deps, vec![1]);
}

#[test]
fn splice_above_rewires_parents() {
    // above (id 2) hangs from p1 (0) and p2 (1)
    let mut g = graph(vec![
        node(0, "p1", NodeType::Task, vec![2], vec![]),
        node(1, "p2", NodeType::Task, vec![2], vec![]),
        node(2, "above", NodeType::Task, vec![], vec![0, 1]),
    ]);
    assert!(g.validate().is_ok());
    let n = g.add_node_above("x".to_string(), NodeType::Task, 2).unwrap();
    assert_eq!(n, 3);
    assert_eq!(g.nodes()[3].parents, vec![0, 1]);
    assert_eq!(g.nodes()[3].deps, vec![2]);
    assert_eq!(g.nodes()[2].parents, vec![3]);
    assert_eq!(g.nodes()[0].deps, vec![3]);
    assert_eq!(g.nodes()[1].deps, vec![3]);
    assert!(g.validate().is_ok());
}

#[test]
fn splice_above_missing_node_fails() {
    let mut g = graph(vec![node(0, "a", NodeType::Task, vec![], vec![])]);
    assert!(g.add_node_above("x".to_string(), NodeType::Task, 4).is_err());
    assert_eq!(g.nodes().len(), 1);
}

#[test]
fn link_rejects_direct_two_cycle() {
    let mut g = graph(vec![
        node(0, "a", NodeType::Task, vec![], vec![]),
        node(1, "b", NodeType::Task, vec![], vec![]),
    ]);
    assert!(g.link(&0, &1).is_ok());
    let r = g.link(&1, &0);
    assert!(r.is_err());
    // the failed link left no half-written edge behind
    assert_eq!(g.nodes()[1].deps, Vec::<usize>::new());
    assert_eq!(g.nodes()[0].parents, Vec::<usize>::new());
    assert!(g.validate().is_ok());
}

#[test]
fn link_rejects_longer_cycle() {
    let mut g = graph(vec![
        node(0, "a", NodeType::Task, vec![], vec![]),
        node(1, "b", NodeType::Task, vec![], vec![]),
        node(2, "c", NodeType::Task, vec![], vec![]),
    ]);
    g.link(&0, &1).unwrap();
    g.link(&1, &2).unwrap();
    assert!(g.link(&2, &0).is_err());
    assert!(g.validate().is_ok());
    assert_eq!(g.nodes()[2].deps, Vec::<usize>::new());
}

#[test]
fn link_is_idempotent() {
    let mut g = graph(vec![
        node(0, "a", NodeType::Task, vec![], vec![]),
        node(1, "b", NodeType::Task, vec![], vec![]),
    ]);
    g.link(&0, &1).unwrap();
    g.link(&0, &1).unwrap();
    assert_eq!(g.nodes()[0].deps, vec![1]);
    assert_eq!(g.nodes()[1].parents, vec![0]);
}

#[test]
fn link_reports_missing_ids() {
    let mut g = graph(vec![node(0, "a", NodeType::Task, vec![], vec![])]);
    let e1 = g.link(&5, &0).unwrap_err();
    assert_eq!(e1, "Parent node 5 doesn't exist.");
    let e2 = g.link(&0, &5).unwrap_err();
    assert_eq!(e2, "Child node 5 doesn't exist.");
}

#[test]
fn unlink_removes_both_sides() {
    let mut g = graph(vec![
        node(0, "a", NodeType::Task, vec![1], vec![]),
        node(1, "b", NodeType::Task, vec![], vec![0]),
    ]);
    g.unlink(&0, &1).unwrap();
    assert_eq!(g.nodes()[0].deps, Vec::<usize>::new());
    assert_eq!(g.nodes()[1].parents, Vec::<usize>::new());
    assert!(g.validate().is_ok());
}

#[test]
fn unlink_reports_missing_ids() {
    let mut g = graph(vec![node(0, "a", NodeType::Task, vec![], vec![])]);
    assert!(g.unlink(&3, &0).is_err());
    assert!(g.unlink(&0, &3).is_err());
}

#[test]
fn delete_renumbers_survivors() {
    // chain 0 -> 1 -> 2 -> 3 -> 4, then delete node 2 without recursing
    let mut g = graph(vec![
        node(0, "n0", NodeType::Task, vec![1], vec![]),
        node(1, "n1", NodeType::Task, vec![2], vec![0]),
        node(2, "n2", NodeType::Task, vec![3], vec![1]),
        node(3, "n3", NodeType::Task, vec![4], vec![2]),
        node(4, "n4", NodeType::Task, vec![], vec![3]),
    ]);
    assert!(g.validate().is_ok());
    g.remove_node(2, false).unwrap();
    assert_eq!(g.nodes().len(), 4);
    for (i, n) in g.nodes().iter().enumerate() {
        assert_eq!(n.id, i);
    }
    // old 3 became 2, old 4 became 3; no reference to the deleted node remains
    assert_eq!(g.nodes()[0].deps, vec![1]);
    assert_eq!(g.nodes()[1].deps, Vec::<usize>::new());
    assert_eq!(g.nodes()[2].description, "n3");
    assert_eq!(g.nodes()[2].deps, vec![3]);
    assert_eq!(g.nodes()[2].parents, Vec::<usize>::new());
    assert_eq!(g.nodes()[3].description, "n4");
    assert_eq!(g.nodes()[3].parents, vec![2]);
    assert!(g.validate().is_ok());
}

#[test]
fn recursive_delete_takes_whole_chain() {
    let mut g = graph(vec![
        node(0, "a", NodeType::Task, vec![1], vec![]),
        node(1, "b", NodeType::Task, vec![2], vec![0]),
        node(2, "c", NodeType::Task, vec![], vec![1]),
    ]);
    g.remove_node(0, true).unwrap();
    assert_eq!(g.nodes().len(), 0);
    assert!(g.validate().is_ok());
}

#[test]
fn recursive_delete_keeps_shared_structure_out() {
    // 0 -> 1, 2 stands alone; deleting 0 recursively spares 2
    let mut g = graph(vec![
        node(0, "a", NodeType::Task, vec![1], vec![]),
        node(1, "b", NodeType::Task, vec![], vec![0]),
        node(2, "c", NodeType::Goal, vec![], vec![]),
    ]);
    g.remove_node(0, true).unwrap();
    assert_eq!(g.nodes().len(), 1);
    assert_eq!(g.nodes()[0].id, 0);
    assert_eq!(g.nodes()[0].description, "c");
    assert!(g.validate().is_ok());
}

#[test]
fn batch_remove_partial_failure() {
    let mut g = graph(vec![
        node(0, "a", NodeType::Task, vec![1], vec![]),
        node(1, "b", NodeType::Task, vec![], vec![0]),
        node(2, "c", NodeType::Goal, vec![], vec![]),
    ]);
    let err = g.batch_remove(vec![0, 9999], true).unwrap_err();
    assert!(err.contains("9999"));
    assert_eq!(err, "Node with id 9999 not present in todos.\n");
    // the valid id was still removed, and the graph is compact again
    assert_eq!(g.nodes().len(), 1);
    assert_eq!(g.nodes()[0].id, 0);
    assert_eq!(g.nodes()[0].description, "c");
    assert!(g.validate().is_ok());
}

#[test]
fn batch_remove_collects_every_bogus_id() {
    let mut g = graph(vec![node(0, "a", NodeType::Task, vec![], vec![])]);
    let err = g.batch_remove(vec![5, 6], false).unwrap_err();
    assert_eq!(
        err,
        "Node with id 5 not present in todos.\nNode with id 6 not present in todos.\n"
    );
    assert_eq!(g.nodes().len(), 1);
}

#[test]
fn batch_remove_tolerates_duplicates() {
    let mut g = graph(vec![
        node(0, "a", NodeType::Task, vec![], vec![]),
        node(1, "b", NodeType::Task, vec![], vec![]),
    ]);
    g.batch_remove(vec![0, 0], true).unwrap();
    assert_eq!(g.nodes().len(), 1);
    assert_eq!(g.nodes()[0].description, "b");
    assert!(g.validate().is_ok());
}

#[test]
fn remove_missing_node_reports_it() {
    let mut g = graph(vec![]);
    let err = g.remove_node(7, false).unwrap_err();
    assert_eq!(err, "Node with id 7 not present in todos.\n");
}

#[test]
fn relabel_replaces_description() {
    let mut g = graph(vec![node(0, "old", NodeType::Task, vec![], vec![])]);
    g.relabel(0, "new".to_string()).unwrap();
    assert_eq!(g.nodes()[0].description, "new");
    let err = g.relabel(3, "x".to_string()).unwrap_err();
    assert_eq!(err, "Node with id 3 not present in todos.");
}

#[test]
fn set_effective_root_checks_the_id() {
    let mut g = graph(vec![node(0, "a", NodeType::Task, vec![], vec![])]);
    assert!(g.set_effective_root(Some(2)).is_err());
    assert_eq!(g.effective_root(), None);
    g.set_effective_root(Some(0)).unwrap();
    assert_eq!(g.effective_root(), Some(0));
    g.set_effective_root(None).unwrap();
    assert_eq!(g.effective_root(), None);
}

#[test]
fn deleting_the_effective_root_leaves_it_dangling() {
    let mut g = graph(vec![
        node(0, "a", NodeType::Task, vec![], vec![]),
        node(1, "b", NodeType::Task, vec![], vec![]),
    ]);
    g.set_effective_root(Some(1)).unwrap();
    g.remove_node(1, false).unwrap();
    // the stored anchor now names no node; the listing reports it
    assert!(g.todos(false).is_err());
}

#[test]
fn link_rejects_a_self_loop() {
    let mut g = graph(vec![node(0, "a", NodeType::Task, vec![], vec![])]);
    assert!(g.link(&0, &0).is_err());
    assert_eq!(g.nodes()[0].deps, Vec::<usize>::new());
    assert!(g.validate().is_ok());
}

#[test]
fn splice_above_a_root_node() {
    let mut g = graph(vec![node(0, "root", NodeType::Task, vec![], vec![])]);
    let n = g.add_node_above("over".to_string(), NodeType::Goal, 0).unwrap();
    assert_eq!(n, 1);
    assert_eq!(g.nodes()[1].parents, Vec::<usize>::new());
    assert_eq!(g.nodes()[1].deps, vec![0]);
    assert_eq!(g.nodes()[0].parents, vec![1]);
    assert!(g.validate().is_ok());
}

#[test]
fn batch_remove_of_nothing_changes_nothing() {
    let mut g = graph(vec![node(0, "a", NodeType::Task, vec![], vec![])]);
    assert!(g.batch_remove(vec![], true).is_ok());
    assert_eq!(g.nodes().len(), 1);
}

#[test]
fn recursive_delete_covers_diamonds() {
    // 0 -> {1, 2}, both -> 3: removing 0 takes all four nodes
    let mut g = graph(vec![
        node(0, "top", NodeType::Goal, vec![1, 2], vec![]),
        node(1, "l", NodeType::Task, vec![3], vec![0]),
        node(2, "r", NodeType::Task, vec![3], vec![0]),
        node(3, "bottom", NodeType::Task, vec![], vec![1, 2]),
    ]);
    g.remove_node(0, true).unwrap();
    assert_eq!(g.nodes().len(), 0);
}

#[test]
fn mutations_keep_the_graph_valid() {
    let mut g = graph(vec![]);
    g.add_node_to("root".to_string(), NodeType::Goal, None).unwrap();
    assert!(g.validate().is_ok());
    g.add_node_to("t1".to_string(), NodeType::Task, Some(0)).unwrap();
    assert!(g.validate().is_ok());
    g.add_node_to("t2".to_string(), NodeType::Task, Some(0)).unwrap();
    assert!(g.validate().is_ok());
    g.link(&1, &2).unwrap();
    assert!(g.validate().is_ok());
    g.add_node_above("mid".to_string(), NodeType::Condition, 2).unwrap();
    assert!(g.validate().is_ok());
    g.unlink(&1, &2).unwrap();
    assert!(g.validate().is_ok());
    g.relabel(3, "between".to_string()).unwrap();
    assert!(g.validate().is_ok());
    g.remove_node(2, true).unwrap();
    assert!(g.validate().is_ok());
}
