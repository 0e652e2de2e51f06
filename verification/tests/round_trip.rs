use namuppuli::graph::KeywordGraph;
use namuppuli::network::{add_links, add_record, link_csv_text, link_order};
use namuppuli::tally::LinkCounter;
use namuppuli::text::{parse_u32, push_decimal};

fn edges(g: &KeywordGraph) -> Vec<(String, String, u32)> {
    (0..g.edge_count())
        .map(|e| {
            let (a, b, w) = g.edge(e);
            (g.name(a).clone(), g.name(b).clone(), w)
        })
        .collect()
}

#[test]
fn written_weights_read_back() {
    for n in [0u32, 7, 10, 99, 100, 65536, 4294967295] {
        let mut s = String::new();
        push_decimal(&mut s, n as u64);
        assert_eq!(s, n.to_string());
        assert_eq!(parse_u32(&s), Some(n));
    }
}

#[test]
fn added_link_reads_back_by_name() {
    let mut g = KeywordGraph::new();
    g.add_link("x", "y", 1).unwrap();
    g.add_link("z", "x", 4).unwrap();
    let a = g.find("z").unwrap();
    let b = g.find("x").unwrap();
    assert_eq!(g.edge(g.edge_count() - 1), (a, b, 4));
    assert_eq!(g.node_count(), 3);
    assert_eq!(g.find("y"), Some(1));
}

#[test]
fn saved_network_reads_back_after_its_first_line() {
    let mut c = LinkCounter::new();
    for (a, b, n) in [("가", "나", 3), ("나", "다", 5), ("다", "가", 4), ("가", "다", 3)] {
        for _ in 0..n {
            c.record(a, b).unwrap();
        }
    }
    let order = link_order(&c, true);
    let mut text = String::new();
    for &i in &order {
        let (a, b, n) = c.entry(i);
        text.push_str(&link_csv_text(a, b, n));
        text.push('\n');
    }
    // the network file has no header, and the reader takes its first line for one
    let mut loaded = KeywordGraph::new();
    let mut rdr = csv::Reader::from_reader(text.as_bytes());
    for record in rdr.records() {
        let fields: Vec<String> = record.unwrap().iter().map(|f| f.to_string()).collect();
        add_record(&mut loaded, &fields).unwrap();
    }
    let mut built = KeywordGraph::new();
    add_links(&mut built, &c, &order[1..].to_vec()).unwrap();
    assert_eq!(edges(&loaded), edges(&built));
    assert_eq!(
        edges(&loaded),
        vec![
            ("다".to_string(), "가".to_string(), 4),
            ("가".to_string(), "나".to_string(), 3),
            ("가".to_string(), "다".to_string(), 3),
        ]
    );
}
