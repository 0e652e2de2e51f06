use namuppuli::filter::{DateFilter, Pattern};
use namuppuli::network::link_order;
use namuppuli::rank::rank_by_count;
use namuppuli::scan::scan_chunk;
use namuppuli::tally::{count_links, count_targets, LinkCounter, NameTable, TargetCounter};

fn link_entries(c: &LinkCounter) -> Vec<(String, String, u32)> {
    (0..c.len())
        .map(|i| {
            let (a, b, n) = c.entry(i);
            (a.clone(), b.clone(), n)
        })
        .collect()
}

fn target_entries(c: &TargetCounter) -> Vec<(String, u32)> {
    (0..c.len())
        .map(|i| {
            let (a, n) = c.entry(i);
            (a.clone(), n)
        })
        .collect()
}

fn e3(a: &str, b: &str, n: u32) -> (String, String, u32) {
    (a.to_string(), b.to_string(), n)
}

#[test]
fn name_table_keeps_first_index() {
    let mut t = NameTable::new();
    assert_eq!(t.intern("a"), 0);
    assert_eq!(t.intern("b"), 1);
    assert_eq!(t.intern("a"), 0);
    assert_eq!(t.len(), 2);
    assert_eq!(t.find("b"), Some(1));
    assert_eq!(t.find("c"), None);
    assert_eq!(t.name(1), "b");
}

#[test]
fn link_counter_counts_pairs_in_first_seen_order() {
    let mut c = LinkCounter::new();
    c.record("A", "B").unwrap();
    c.record("B", "A").unwrap();
    c.record("A", "B").unwrap();
    c.record("A", "C").unwrap();
    c.record("A", "B").unwrap();
    assert_eq!(
        link_entries(&c),
        vec![e3("A", "B", 3), e3("B", "A", 1), e3("A", "C", 1)]
    );
    assert_eq!(c.counts(), &vec![3, 1, 1]);
}

#[test]
fn link_counter_tells_pairs_apart_that_share_names() {
    let mut c = LinkCounter::new();
    c.record("x", "y").unwrap();
    c.record("y", "x").unwrap();
    c.record("x", "x").unwrap();
    assert_eq!(c.len(), 3);
    assert_eq!(link_entries(&c), vec![e3("x", "y", 1), e3("y", "x", 1), e3("x", "x", 1)]);
}

#[test]
fn counting_scanned_events() {
    let doc = "{\"title\":\"A\",\"text\":\"[[B]] [[C]] [[B|b]] [[파일:p]]\"}{\"title\":\"B\",\"text\":\"[[C]]\",\"contributors\":[]}";
    let events = scan_chunk(doc.as_bytes(), 0, doc.len()).unwrap();
    let mut links = LinkCounter::new();
    links.record_events(&events).unwrap();
    assert_eq!(
        link_entries(&links),
        vec![e3("A", "B", 2), e3("A", "C", 1), e3("B", "C", 1)]
    );
    let mut targets = TargetCounter::new();
    targets.record_events(&events).unwrap();
    assert_eq!(
        target_entries(&targets),
        vec![("B".to_string(), 2), ("C".to_string(), 2)]
    );
}

#[test]
fn counting_in_chunks_equals_counting_the_whole() {
    let doc = "{\"title\":\"A\",\"text\":\"[[B]] [[C]] [[B]]\"}{\"title\":\"A\",\"text\":\"[[C]] [[B]]\",\"contributors\":[]}";
    let bytes = doc.as_bytes();
    let whole = scan_chunk(bytes, 0, bytes.len()).unwrap();
    let mut one = LinkCounter::new();
    one.record_events(&whole).unwrap();
    // split between two documents: the second range starts with its own title
    let cut = doc.find("{\"title\":\"A\",\"text\":\"[[C]]").unwrap();
    let first = scan_chunk(bytes, 0, cut + 7).unwrap();
    let second = scan_chunk(bytes, cut, bytes.len()).unwrap();
    let mut two = LinkCounter::new();
    two.record_events(&first).unwrap();
    two.record_events(&second).unwrap();
    assert_eq!(link_entries(&one), link_entries(&two));
    assert_eq!(link_entries(&one), vec![e3("A", "B", 3), e3("A", "C", 2)]);
}

#[test]
fn target_counter_counts_targets() {
    let mut c = TargetCounter::new();
    c.record("x").unwrap();
    c.record("y").unwrap();
    c.record("x").unwrap();
    assert_eq!(target_entries(&c), vec![("x".to_string(), 2), ("y".to_string(), 1)]);
    assert_eq!(c.counts(), &vec![2, 1]);
}

#[test]
fn ranking_is_heaviest_first_and_stable() {
    assert_eq!(rank_by_count(&vec![3, 5, 3, 1, 5]), vec![1, 4, 0, 2, 3]);
    assert_eq!(rank_by_count(&vec![]), Vec::<usize>::new());
    assert_eq!(rank_by_count(&vec![7]), vec![0]);
    assert_eq!(rank_by_count(&vec![1, 2, 3, 4]), vec![3, 2, 1, 0]);
    assert_eq!(rank_by_count(&vec![2, 2, 2]), vec![0, 1, 2]);
}

#[test]
fn ranking_is_a_permutation_sorted_by_count() {
    let counts: Vec<u32> = (0..200u32).map(|i| (i * 7919) % 13).collect();
    let r = rank_by_count(&counts);
    let mut seen = r.clone();
    seen.sort();
    assert_eq!(seen, (0..200usize).collect::<Vec<_>>());
    for w in r.windows(2) {
        assert!(counts[w[0]] > counts[w[1]] || (counts[w[0]] == counts[w[1]] && w[0] < w[1]));
    }
}

#[test]
fn link_order_sorted_or_as_counted() {
    let mut c = LinkCounter::new();
    c.record("a", "b").unwrap();
    c.record("a", "c").unwrap();
    c.record("a", "c").unwrap();
    c.record("b", "c").unwrap();
    assert_eq!(link_order(&c, false), vec![0, 1, 2]);
    assert_eq!(link_order(&c, true), vec![1, 0, 2]);
}

#[test]
fn date_filter_blocks_date_pages() {
    let f = DateFilter::new().unwrap();
    assert!(f.is_blocked("19세기"));
    assert!(f.is_blocked("2020년"));
    assert!(f.is_blocked("3월 1일"));
    assert!(f.is_blocked("2002년 FIFA 월드컵"));
    assert!(!f.is_blocked("세기"));
    assert!(!f.is_blocked("3월1일"));
    assert!(!f.is_blocked("러스트"));
}

#[test]
fn date_filter_keeps_from_the_threshold_up() {
    let f = DateFilter::new().unwrap();
    assert!(f.keeps("a", "b", 3, 3));
    assert!(!f.keeps("a", "b", 2, 3));
    assert!(f.keeps("a", "b", 2, 2));
    assert!(!f.keeps("1999년", "b", 10, 3));
    assert!(!f.keeps("a", "20세기", 10, 3));
}

#[test]
fn date_filter_keeps_in_the_given_order() {
    let f = DateFilter::new().unwrap();
    let mut c = LinkCounter::new();
    for _ in 0..3 {
        c.record("a", "b").unwrap();
        c.record("a", "2020년").unwrap();
    }
    c.record("a", "c").unwrap();
    for _ in 0..4 {
        c.record("b", "c").unwrap();
    }
    let order = link_order(&c, true);
    assert_eq!(order, vec![3, 0, 1, 2]);
    assert_eq!(f.kept(&c, &order, 3), vec![3, 0]);
    assert_eq!(f.kept(&c, &vec![0, 1, 2, 3], 1), vec![0, 2, 3]);
}

#[test]
fn pattern_compile_refuses_bad_regex() {
    assert!(Pattern::compile("(").is_none());
    let p = Pattern::compile("a+b").unwrap();
    assert!(p.is_match("xaab"));
    assert!(!p.is_match("ba"));
}

#[test]
fn counting_all_ranges_at_once() {
    let doc = "{\"title\":\"A\",\"text\":\"[[B]] [[C]] [[B]]\"}{\"title\":\"A\",\"text\":\"[[C]] [[B]]\",\"contributors\":[]}";
    let bytes = doc.as_bytes();
    let cut = doc.find("{\"title\":\"A\",\"text\":\"[[C]]").unwrap();
    let chunks = vec![
        scan_chunk(bytes, 0, cut + 7).unwrap(),
        scan_chunk(bytes, cut, bytes.len()).unwrap(),
    ];
    let links = count_links(&chunks).unwrap();
    assert_eq!(link_entries(&links), vec![e3("A", "B", 3), e3("A", "C", 2)]);
    let targets = count_targets(&chunks).unwrap();
    assert_eq!(target_entries(&targets), vec![("B".to_string(), 3), ("C".to_string(), 2)]);
    let none: Vec<Vec<namuppuli::scan::ScanEvent>> = vec![];
    assert_eq!(count_links(&none).unwrap().len(), 0);
    assert_eq!(count_targets(&none).unwrap().len(), 0);
}
