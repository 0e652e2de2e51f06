use namuppuli::graph::KeywordGraph;
use namuppuli::network::{add_links, add_record, link_csv_text, link_order, target_csv_text, RecordError};
use namuppuli::tally::LinkCounter;

fn strings(v: &[&str]) -> Vec<String> {
    v.iter().map(|s| s.to_string()).collect()
}

#[test]
fn graph_keeps_one_node_per_name() {
    let mut g = KeywordGraph::new();
    g.add_link("a", "b", 5).unwrap();
    g.add_link("a", "c", 3).unwrap();
    g.add_link("c", "a", 2).unwrap();
    assert_eq!(g.node_count(), 3);
    assert_eq!(g.edge_count(), 3);
    assert_eq!(g.find("a"), Some(0));
    assert_eq!(g.find("b"), Some(1));
    assert_eq!(g.find("c"), Some(2));
    assert_eq!(g.find("d"), None);
    assert_eq!(g.name(2), "c");
    assert_eq!(g.edge(1), (0, 2, 3));
    assert_eq!(g.edge(2), (2, 0, 2));
}

#[test]
fn edge_lists_run_latest_first() {
    let mut g = KeywordGraph::new();
    g.add_link("a", "b", 5).unwrap();
    g.add_link("a", "c", 3).unwrap();
    g.add_link("c", "a", 2).unwrap();
    g.add_link("a", "b", 1).unwrap();
    assert_eq!(g.edge_list(0, true), vec![3, 1, 0]);
    assert_eq!(g.edge_list(0, false), vec![2]);
    assert_eq!(g.edge_list(1, true), Vec::<usize>::new());
    assert_eq!(g.edge_list(1, false), vec![3, 0]);
    assert_eq!(g.edge_list(9, true), Vec::<usize>::new());
}

#[test]
fn ensure_node_and_add_edge() {
    let mut g = KeywordGraph::new();
    assert_eq!(g.ensure_node("x"), Ok(0));
    assert_eq!(g.ensure_node("y"), Ok(1));
    assert_eq!(g.ensure_node("x"), Ok(0));
    assert_eq!(g.add_edge(1, 0, 9), Ok(0));
    assert_eq!(g.add_edge(0, 0, 4), Ok(1));
    assert_eq!(g.edge(0), (1, 0, 9));
    assert_eq!(g.edge_list(0, false), vec![1, 0]);
}

#[test]
fn dot_output_has_labels_without_edge_labels() {
    let mut g = KeywordGraph::new();
    g.add_link("a", "b", 7).unwrap();
    let expected = "digraph {\n    0 [ label = \"\\\"a\\\"\" ]\n    1 [ label = \"\\\"b\\\"\" ]\n    0 -> 1 [ ]\n}\n";
    assert_eq!(g.to_dot(), expected);
    assert_eq!(KeywordGraph::new().to_dot(), "digraph {\n}\n");
}

#[test]
fn csv_lines() {
    assert_eq!(link_csv_text("가", "나", 3), "\"가\",\"나\",3");
    assert_eq!(target_csv_text("a", 12), "\"a\",12");
    assert_eq!(link_csv_text("", "", 0), "\"\",\"\",0");
    assert_eq!(target_csv_text("x", u32::MAX), "\"x\",4294967295");
}

#[test]
fn counted_links_become_edges_in_order() {
    let mut c = LinkCounter::new();
    c.record("a", "b").unwrap();
    c.record("b", "c").unwrap();
    c.record("b", "c").unwrap();
    let mut g = KeywordGraph::new();
    let order = link_order(&c, true);
    add_links(&mut g, &c, &order).unwrap();
    assert_eq!(g.find("b"), Some(0));
    assert_eq!(g.find("c"), Some(1));
    assert_eq!(g.find("a"), Some(2));
    assert_eq!(g.edge(0), (0, 1, 2));
    assert_eq!(g.edge(1), (2, 0, 1));
    let mut h = KeywordGraph::new();
    add_links(&mut h, &c, &vec![]).unwrap();
    assert_eq!(h.node_count(), 0);
}

#[test]
fn records_of_a_saved_network() {
    let mut g = KeywordGraph::new();
    assert_eq!(add_record(&mut g, &strings(&["a", "b", "3"])), Ok(()));
    assert_eq!(add_record(&mut g, &strings(&["b", "a", "+4", "extra"])), Ok(()));
    assert_eq!(g.node_count(), 2);
    assert_eq!(g.edge(1), (1, 0, 4));
    assert_eq!(add_record(&mut g, &strings(&["a", "b"])), Err(RecordError::MissingField));
    assert_eq!(add_record(&mut g, &strings(&["a", "c", "x"])), Err(RecordError::BadWeight));
    assert_eq!(add_record(&mut g, &strings(&["a", "c", "-1"])), Err(RecordError::BadWeight));
    assert_eq!(add_record(&mut g, &strings(&["a", "c", "4294967296"])), Err(RecordError::BadWeight));
    assert_eq!(add_record(&mut g, &strings(&["a", "c", ""])), Err(RecordError::BadWeight));
    assert_eq!(g.node_count(), 2);
    assert_eq!(g.edge_count(), 2);
}
