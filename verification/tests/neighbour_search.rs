use namuppuli::gephi::{edge_message_text, node_message_text, Gephi};
use namuppuli::graph::KeywordGraph;
use namuppuli::search::{search_neighbors, SearchAction};
use namuppuli::stopword::expand_stopwords;

fn sample() -> KeywordGraph {
    let mut g = KeywordGraph::new();
    g.add_link("a", "b", 5).unwrap();
    g.add_link("a", "c", 3).unwrap();
    g.add_link("c", "a", 2).unwrap();
    g.add_link("b", "b", 1).unwrap();
    g
}

fn describe(a: &SearchAction) -> String {
    match a {
        SearchAction::Print(s) => s.clone(),
        SearchAction::GephiNode { id, label } => format!("node {} {}", id, label),
        SearchAction::GephiEdge { id, source, target, weight } => {
            format!("edge {} {}->{} {}", id, source, target, weight)
        }
        SearchAction::Pause => "pause".to_string(),
    }
}

fn run(
    g: &KeywordGraph,
    from: &str,
    max_depth: u8,
    stop: &[&str],
    dot: bool,
    gephi: bool,
) -> (Vec<String>, KeywordGraph, usize) {
    let stopword: Vec<String> = stop.iter().map(|s| s.to_string()).collect();
    let mut result = KeywordGraph::new();
    let mut id = 0usize;
    let mut actions = Vec::new();
    let a = g.find(from).unwrap();
    let endpoint = Gephi::new(None, if gephi { Some(1) } else { None });
    search_neighbors(g, a, 0, max_depth, &stopword, &mut result, dot, &endpoint, &mut id, &mut actions)
        .unwrap();
    (actions.iter().map(describe).collect(), result, id)
}

const SEP: &str = "--------------------------------------";

#[test]
fn search_prints_one_level() {
    let (lines, result, id) = run(&sample(), "a", 1, &[], false, false);
    assert_eq!(lines, vec!["a -> b (5)", "a -> c (3)", SEP, "a <- c (2)", SEP]);
    assert_eq!(result.node_count(), 0);
    assert_eq!(id, 0);
}

#[test]
fn search_prints_two_levels_and_skips_self_links() {
    let (lines, _, _) = run(&sample(), "a", 2, &[], false, false);
    assert_eq!(
        lines,
        vec![
            "a -> b (5)",
            SEP,
            "b <- a (5)",
            SEP,
            "a -> c (3)",
            "c -> a (2)",
            SEP,
            "c <- a (3)",
            SEP,
            SEP,
            "a <- c (2)",
            "c -> a (2)",
            SEP,
            "c <- a (3)",
            SEP,
            SEP,
        ]
    );
}

#[test]
fn search_does_not_expand_stop_words() {
    let (lines, _, _) = run(&sample(), "a", 2, &["c"], false, false);
    assert_eq!(
        lines,
        vec!["a -> b (5)", SEP, "b <- a (5)", SEP, "a -> c (3)", SEP, "a <- c (2)", SEP]
    );
    let (none, _, _) = run(&sample(), "a", 2, &["a"], false, false);
    assert!(none.is_empty());
}

#[test]
fn search_prints_heaviest_links_first() {
    let mut g = KeywordGraph::new();
    g.add_link("A", "B", 9).unwrap();
    g.add_link("A", "C", 1).unwrap();
    let (lines, _, _) = run(&g, "A", 1, &[], false, false);
    assert_eq!(lines, vec!["A -> B (9)", "A -> C (1)", SEP, SEP]);
}

#[test]
fn search_keeps_walk_order_among_equal_weights() {
    let mut g = KeywordGraph::new();
    g.add_link("a", "x", 2).unwrap();
    g.add_link("a", "y", 2).unwrap();
    g.add_link("a", "z", 7).unwrap();
    g.add_link("w", "a", 1).unwrap();
    g.add_link("v", "a", 4).unwrap();
    let (lines, _, _) = run(&g, "a", 1, &[], false, false);
    assert_eq!(
        lines,
        vec!["a -> z (7)", "a -> y (2)", "a -> x (2)", SEP, "a <- v (4)", "a <- w (1)", SEP]
    );
}

#[test]
fn search_at_depth_limit_does_nothing() {
    let (lines, result, _) = run(&sample(), "a", 0, &[], true, false);
    assert!(lines.is_empty());
    assert_eq!(result.node_count(), 0);
}

#[test]
fn search_collects_the_result_graph_for_dot() {
    let (lines, result, id) = run(&sample(), "a", 1, &[], true, false);
    assert!(lines.is_empty());
    assert_eq!(id, 0);
    assert_eq!(result.node_count(), 3);
    assert_eq!(result.find("a"), Some(0));
    assert_eq!(result.find("b"), Some(1));
    assert_eq!(result.find("c"), Some(2));
    assert_eq!(result.edge_count(), 3);
    assert_eq!(result.edge(0), (0, 1, 5));
    assert_eq!(result.edge(1), (0, 2, 3));
    assert_eq!(result.edge(2), (2, 0, 2));
}

#[test]
fn search_streams_nodes_and_edges_to_gephi() {
    let (lines, result, id) = run(&sample(), "a", 1, &[], false, true);
    assert_eq!(
        lines,
        vec![
            "node 0 a",
            "node 1 b",
            "edge 0 0->1 5",
            "pause",
            "node 2 c",
            "edge 1 0->2 3",
            "pause",
            "edge 2 2->0 2",
            "pause",
        ]
    );
    assert_eq!(id, 3);
    assert_eq!(result.node_count(), 3);
    assert_eq!(result.edge_count(), 0);
}

#[test]
fn search_with_dot_and_gephi_only_walks() {
    let (lines, result, id) = run(&sample(), "a", 3, &[], true, true);
    assert!(lines.is_empty());
    assert_eq!(result.node_count(), 0);
    assert_eq!(id, 0);
}

#[test]
fn gephi_endpoint_defaults_and_messages() {
    let g = Gephi::new(None, None);
    assert_eq!(g.hostname, "localhost:8080");
    assert_eq!(g.workspace, "workspace0");
    assert!(!g.enable);
    assert_eq!(g.update_url(), "http://localhost:8080/workspace0?operation=updateGraph");
    let h = Gephi::new(Some("10.0.0.2:9000".to_string()), Some(12));
    assert!(h.enable);
    assert_eq!(h.workspace, "workspace12");
    assert_eq!(h.update_url(), "http://10.0.0.2:9000/workspace12?operation=updateGraph");
    assert_eq!(Gephi::new(None, Some(255)).workspace, "workspace255");
    assert_eq!(node_message_text(3, "가"), "{\"an\":{3:{\"label\":\"가\"}}}");
    assert_eq!(
        edge_message_text(0, 1, 20, 7),
        "{\"ae\":{0:{\"source\":1,\"target\":20,\"directed\":true,\"weight\":7}}}"
    );
}

#[test]
fn stop_word_presets_expand() {
    let s = |v: &[&str]| v.iter().map(|x| x.to_string()).collect::<Vec<String>>();
    assert_eq!(expand_stopwords(s(&["치킨", "피자"])), s(&["치킨", "피자"]));
    let nations = [
        "대한민국", "미국", "영국", "프랑스", "독일", "이탈리아", "중국", "러시아", "일본", "북한", "소련",
    ];
    let mut expected = s(&["치킨"]);
    expected.extend(s(&nations));
    assert_eq!(expand_stopwords(s(&["[나라]", "치킨"])), expected);
    let both = expand_stopwords(s(&["[해외 정치인]", "[대한민국 대통령]"]));
    assert_eq!(both.len(), 13 + 20);
    assert_eq!(both[0], "이승만");
    assert_eq!(both[13], "조 바이든");
    assert_eq!(both[32], "김정은");
    // only the first occurrence of a preset name is expanded
    let twice = expand_stopwords(s(&["[나라]", "[나라]"]));
    assert_eq!(twice.len(), 1 + 11);
    assert_eq!(twice[0], "[나라]");
}

#[test]
fn search_keeps_what_the_result_graph_had() {
    let g = sample();
    let mut result = KeywordGraph::new();
    result.add_link("c", "q", 8).unwrap();
    let mut id = 5usize;
    let mut actions = vec![SearchAction::Pause];
    let a = g.find("a").unwrap();
    search_neighbors(&g, a, 0, 1, &vec![], &mut result, true, &Gephi::new(None, None), &mut id, &mut actions)
        .unwrap();
    assert_eq!(result.find("c"), Some(0));
    assert_eq!(result.find("q"), Some(1));
    assert_eq!(result.edge(0), (0, 1, 8));
    assert_eq!(result.find("a"), Some(2));
    assert_eq!(result.find("b"), Some(3));
    assert_eq!(result.edge_count(), 4);
    assert_eq!(result.edge(3), (0, 2, 2));
    assert_eq!(id, 5);
    assert_eq!(actions.len(), 1);
}

#[test]
fn search_at_the_depth_limit_accepts_any_start() {
    let g = sample();
    let mut result = KeywordGraph::new();
    let mut id = 3usize;
    let mut actions = Vec::new();
    let r = search_neighbors(&g, 99, 2, 2, &vec![], &mut result, false, &Gephi::new(None, None), &mut id, &mut actions);
    assert!(r.is_ok());
    assert_eq!(result.node_count(), 0);
    assert_eq!(id, 3);
    assert!(actions.is_empty());
}
