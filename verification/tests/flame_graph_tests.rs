use profiler_core::flame_graph::{build_flame_graph_data, CallRecord, TraceError};

fn record(id: &str, class: &str, method: &str, duration: f64, parent: Option<&str>) -> CallRecord {
    let fp = (duration * 1000.0).round() as u64;
    CallRecord {
        call_id: id.to_string(),
        class_name: class.to_string(),
        method_name: method.to_string(),
        duration: fp,
        start_time: 0,
        end_time: fp,
        parent_call_id: parent.map(|p| p.to_string()),
        file_path: None,
        line: None,
    }
}

fn pct(fp: u128) -> f64 {
    fp as f64 / 1000.0
}

#[test]
fn test_empty_call_stack() {
    let result = build_flame_graph_data(&vec![]).unwrap();
    assert_eq!(result.total_duration, 0);
    assert!(result.nodes.is_empty());
}

#[test]
fn test_single_call() {
    let records = vec![record("call_1", "TestClass", "testMethod", 100.0, None)];

    let result = build_flame_graph_data(&records).unwrap();
    assert_eq!(result.total_duration, 100_000);
    assert_eq!(result.nodes.len(), 1);
    assert_eq!(result.nodes[0].name, "TestClass.testMethod");
    assert_eq!(pct(result.nodes[0].percentage), 100.0);
}

#[test]
fn test_parent_child_calls() {
    let records = vec![
        record("call_1", "Parent", "parentMethod", 100.0, None),
        record("call_2", "Child", "childMethod", 60.0, Some("call_1")),
    ];

    let result = build_flame_graph_data(&records).unwrap();
    assert_eq!(result.total_duration, 100_000);
    assert_eq!(result.nodes[0].value, 100_000);
    assert_eq!(result.nodes[0].self_value, 40_000);
    assert_eq!(result.nodes[0].children.len(), 1);
    assert_eq!(result.nodes[0].children[0].value, 60_000);
}

#[test]
fn test_depths_and_percentages() {
    let records = vec![
        record("a", "A", "run", 100.0, None),
        record("b", "B", "step", 50.0, Some("a")),
        record("c", "C", "leaf", 25.0, Some("b")),
    ];

    let result = build_flame_graph_data(&records).unwrap();
    let root = &result.nodes[0];
    assert_eq!(root.depth, 0);
    assert_eq!(root.children[0].depth, 1);
    assert_eq!(root.children[0].children[0].depth, 2);
    assert_eq!(pct(root.percentage), 100.0);
    assert_eq!(pct(root.children[0].percentage), 50.0);
    assert_eq!(pct(root.children[0].children[0].percentage), 25.0);
    assert_eq!(root.children[0].self_value, 25_000);
}

#[test]
fn test_orphan_subtree_is_dropped() {
    let records = vec![
        record("root", "A", "main", 100.0, None),
        record("lost", "B", "stray", 30.0, Some("missing")),
        record("lost_child", "C", "strayer", 10.0, Some("lost")),
    ];

    let result = build_flame_graph_data(&records).unwrap();
    assert_eq!(result.total_duration, 100_000);
    assert_eq!(result.nodes.len(), 1);
    assert_eq!(result.nodes[0].id, "root");
    assert!(result.nodes[0].children.is_empty());
}

#[test]
fn test_duplicate_id_last_write_wins() {
    let records = vec![
        record("dup", "Old", "first", 100.0, None),
        record("dup", "New", "second", 70.0, None),
    ];

    let result = build_flame_graph_data(&records).unwrap();
    assert_eq!(result.total_duration, 70_000);
    assert_eq!(result.nodes.len(), 1);
    assert_eq!(result.nodes[0].name, "New.second");
}

#[test]
fn test_cyclic_parents_rejected() {
    let records = vec![
        record("root", "A", "main", 100.0, None),
        record("x", "B", "ping", 10.0, Some("y")),
        record("y", "C", "pong", 10.0, Some("x")),
    ];

    let result = build_flame_graph_data(&records);
    assert_eq!(result.unwrap_err(), TraceError::MalformedTrace);
}

#[test]
fn test_sibling_order_preserved() {
    let records = vec![
        record("r", "R", "main", 100.0, None),
        record("c1", "S", "first", 10.0, Some("r")),
        record("c2", "S", "second", 20.0, Some("r")),
        record("c3", "S", "third", 30.0, Some("r")),
    ];

    let result = build_flame_graph_data(&records).unwrap();
    let kids = &result.nodes[0].children;
    assert_eq!(kids.len(), 3);
    assert_eq!(kids[0].id, "c1");
    assert_eq!(kids[1].id, "c2");
    assert_eq!(kids[2].id, "c3");
    assert_eq!(result.nodes[0].self_value, 40_000);
}

#[test]
fn test_roots_in_input_order() {
    let records = vec![
        record("r1", "A", "first", 10.0, None),
        record("kid", "K", "child", 1.0, Some("r2")),
        record("r2", "B", "second", 20.0, None),
        record("r3", "C", "third", 30.0, None),
    ];

    let result = build_flame_graph_data(&records).unwrap();
    assert_eq!(result.total_duration, 60_000);
    assert_eq!(result.nodes.len(), 3);
    assert_eq!(result.nodes[0].id, "r1");
    assert_eq!(result.nodes[1].id, "r2");
    assert_eq!(result.nodes[2].id, "r3");
    assert_eq!(result.nodes[1].children.len(), 1);
    assert_eq!(result.nodes[1].children[0].id, "kid");
}

#[test]
fn test_file_path_and_line_carried_over() {
    let mut rec = record("a", "A", "m", 5.0, None);
    rec.file_path = Some("src/a.ts".to_string());
    rec.line = Some(12);

    let result = build_flame_graph_data(&vec![rec]).unwrap();
    assert_eq!(result.nodes[0].file_path.as_deref(), Some("src/a.ts"));
    assert_eq!(result.nodes[0].line, Some(12));
}
