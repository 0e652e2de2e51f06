use namuppuli::scan::{chunk_bounds, link_text, scan_chunk, title_text, Link, ScanError, ScanEvent};
use namuppuli::text::{find_bytes, parse_u32, remove_suffix, same_text, starts_with_bytes};

/// The events of a scan as plain pairs: `Some((title, target))` for a link, `None` with the
/// title for a malformed record.
fn plain(events: &[ScanEvent]) -> Vec<(String, Option<String>)> {
    events
        .iter()
        .map(|e| match e {
            ScanEvent::Link(l) => (l.href.0.clone(), Some(l.href.1.clone())),
            ScanEvent::Malformed(t) => (t.clone(), None),
        })
        .collect()
}

fn scan_all(doc: &[u8]) -> Result<Vec<(String, Option<String>)>, ScanError> {
    scan_chunk(doc, 0, doc.len()).map(|v| plain(&v))
}

#[test]
fn scan_finds_links_of_a_document() {
    let doc = "{\"title\":\"Rust\",\"text\":\"see [[Python]] and [[C++|cpp]] [[파일:a.png]] [[Go#x]] [[http://a]] [[분류:b]] [[틀:c]]\",\"contributors\":[]}";
    let got = scan_all(doc.as_bytes()).unwrap();
    assert_eq!(
        got,
        vec![
            ("Rust".to_string(), Some("Python".to_string())),
            ("Rust".to_string(), Some("C++".to_string())),
            ("Rust".to_string(), Some("Go".to_string())),
        ]
    );
}

#[test]
fn scan_handles_korean_titles_and_targets() {
    let doc = "{\"title\":\"나무위키\",\"text\":\"[[위키백과|백과]] [[대한민국#역사]]\",\"contributors\":[]}";
    let got = scan_all(doc.as_bytes()).unwrap();
    assert_eq!(
        got,
        vec![
            ("나무위키".to_string(), Some("위키백과".to_string())),
            ("나무위키".to_string(), Some("대한민국".to_string())),
        ]
    );
}

#[test]
fn scan_reports_a_record_left_open_at_the_next_title() {
    let doc = "{\"title\":\"A\",\"text\":\"[[open \"title\":\"B\",\"text\":\"[[C]]\",\"contributors\":[]}";
    let got = scan_all(doc.as_bytes()).unwrap();
    assert_eq!(
        got,
        vec![("A".to_string(), None), ("B".to_string(), Some("C".to_string()))]
    );
}

#[test]
fn scan_without_a_title_uses_the_empty_title() {
    let doc = "xxxxxxxx[[ab]]xxxxxxxxxx";
    let got = scan_all(doc.as_bytes()).unwrap();
    assert_eq!(got, vec![(String::new(), Some("ab".to_string()))]);
}

#[test]
fn scan_of_two_documents() {
    let doc = "{\"title\":\"A\",\"text\":\"[[B]]\"}{\"title\":\"B\",\"text\":\"[[A]] [[A]]\",\"contributors\":[]}";
    let got = scan_all(doc.as_bytes()).unwrap();
    assert_eq!(
        got,
        vec![
            ("A".to_string(), Some("B".to_string())),
            ("B".to_string(), Some("A".to_string())),
            ("B".to_string(), Some("A".to_string())),
        ]
    );
}

#[test]
fn scan_rejects_invalid_utf8_in_a_link() {
    let mut doc: Vec<u8> = b"{\"title\":\"A\",\"text\":\"[[".to_vec();
    doc.extend_from_slice(&[0xff, 0xfe]);
    doc.extend_from_slice(b"]]\",\"contributors\":[]}");
    assert_eq!(scan_all(&doc), Err(ScanError::InvalidUtf8));
}

#[test]
fn scan_rejects_a_title_too_short_to_cut() {
    let doc = "{\"title\":,\"text\":\"[[x]]\",\"contributors\":[]}";
    assert_eq!(scan_all(doc.as_bytes()), Err(ScanError::TitleOutOfRange));
}

#[test]
fn scan_stops_seven_bytes_before_the_range_end() {
    let doc = "xxxxxxxx[[ab]]xxxxxxxxxx";
    // the closing window starts at byte 12; it is scanned only when 12 + 7 < end
    let cut = scan_chunk(doc.as_bytes(), 0, 19).map(|v| plain(&v)).unwrap();
    assert_eq!(cut, vec![]);
    let whole = scan_chunk(doc.as_bytes(), 0, 20).map(|v| plain(&v)).unwrap();
    assert_eq!(whole, vec![(String::new(), Some("ab".to_string()))]);
}

#[test]
fn scan_of_a_later_range_starts_fresh() {
    let doc = "{\"title\":\"A\",\"text\":\"[[B]] [[C]]\",\"contributors\":[]}";
    let start = doc.find("[[C]]").unwrap();
    let got = scan_chunk(doc.as_bytes(), start, doc.len()).map(|v| plain(&v)).unwrap();
    assert_eq!(got, vec![(String::new(), Some("C".to_string()))]);
}

#[test]
fn scan_of_an_empty_or_short_range_finds_nothing() {
    let doc = "[[ab]]";
    assert_eq!(scan_all(doc.as_bytes()).unwrap(), vec![]);
    assert_eq!(scan_chunk(b"", 0, 0).map(|v| plain(&v)).unwrap(), vec![]);
    assert_eq!(scan_chunk(b"xxxxxxxxxxxx", 5, 3).map(|v| plain(&v)).unwrap(), vec![]);
}

#[test]
fn title_text_cuts_key_and_trailer() {
    let record = "title\":\"나무\",".as_bytes().to_vec();
    assert_eq!(title_text(&record), Ok("나무".to_string()));
    let short = "title\":,".as_bytes().to_vec();
    assert_eq!(title_text(&short), Err(ScanError::TitleOutOfRange));
    let bad = vec![0xffu8; 12];
    assert_eq!(title_text(&bad), Err(ScanError::InvalidUtf8));
    // a record whose title would end inside a character
    let mut mid = "title\":\"".as_bytes().to_vec();
    mid.extend_from_slice("가".as_bytes());
    mid.push(b'x');
    assert_eq!(title_text(&mid), Err(ScanError::TitleOutOfRange));
}

#[test]
fn link_text_cuts_brackets_label_and_section() {
    assert_eq!(link_text(&b"[a|b#c]".to_vec()), Ok(Some("a".to_string())));
    assert_eq!(link_text(&b"[a#c|b]".to_vec()), Ok(Some("a".to_string())));
    assert_eq!(link_text(&b"[]".to_vec()), Ok(Some(String::new())));
    assert_eq!(link_text(&"[틀:x]".as_bytes().to_vec()), Ok(None));
    assert_eq!(link_text(&b"[https://x]".to_vec()), Ok(None));
    assert_eq!(link_text(&b"[".to_vec()), Err(ScanError::LinkOutOfRange));
    assert_eq!(link_text(&vec![b'[', 0xc0, b']']), Err(ScanError::InvalidUtf8));
}

#[test]
fn chunk_bounds_split_evenly_and_drop_the_rest() {
    assert_eq!(chunk_bounds(10, 3), vec![(0, 3), (3, 6), (6, 9)]);
    assert_eq!(chunk_bounds(8, 1), vec![(0, 8)]);
    assert_eq!(chunk_bounds(2, 4), vec![(0, 0), (0, 0), (0, 0), (0, 0)]);
}

#[test]
fn link_equality_joins_title_and_target() {
    let l = |a: &str, b: &str| Link { href: (a.to_string(), b.to_string()) };
    assert!(l("a", "b") == l("a", "b"));
    assert!(l("a", "b") == l("b", "c"));
    assert!(l("a", "b") == l("c", "a"));
    assert!(l("a", "b") != l("c", "d"));
    assert!(l("a", "b") != l("a", "c"));
}

#[test]
fn remove_suffix_cuts_at_the_first_occurrence() {
    assert_eq!(remove_suffix("abc|def|g", "|"), "abc");
    assert_eq!(remove_suffix("abc", "|"), "abc");
    assert_eq!(remove_suffix("가나#다", "#"), "가나");
    assert_eq!(remove_suffix("abc", ""), "");
    assert_eq!(remove_suffix("", "x"), "");
}

#[test]
fn byte_helpers_agree_with_str() {
    assert_eq!(find_bytes(b"hello", b"ll"), Some(2));
    assert_eq!(find_bytes(b"hello", b"lo!"), None);
    assert_eq!(find_bytes(b"ab", b""), Some(0));
    assert!(starts_with_bytes("파일:x".as_bytes(), "파일:".as_bytes()));
    assert!(!starts_with_bytes(b"htt", b"http"));
    assert!(same_text("나무", "나무"));
    assert!(!same_text("나무", "나"));
}

#[test]
fn parse_u32_follows_str_parse() {
    assert_eq!(parse_u32("42"), Some(42));
    assert_eq!(parse_u32("+7"), Some(7));
    assert_eq!(parse_u32("007"), Some(7));
    assert_eq!(parse_u32("4294967295"), Some(u32::MAX));
    assert_eq!(parse_u32("4294967296"), None);
    assert_eq!(parse_u32(""), None);
    assert_eq!(parse_u32("+"), None);
    assert_eq!(parse_u32("-1"), None);
    assert_eq!(parse_u32("1 "), None);
    for s in ["0", "12", "+3", "99999999999", "x", "3.5"] {
        assert_eq!(parse_u32(s), s.parse::<u32>().ok());
    }
}

#[test]
fn two_cuts_in_either_order() {
    for h in ["a|b#c", "a#b|c", "abc", "|x", "#", "가#나|다", ""] {
        let one = remove_suffix(remove_suffix(h, "|"), "#");
        let two = remove_suffix(remove_suffix(h, "#"), "|");
        assert_eq!(one, two);
        let j = h.find(|c| c == '|' || c == '#').unwrap_or(h.len());
        assert_eq!(one, &h[..j]);
    }
}

#[test]
fn two_cuts_with_any_single_characters() {
    for (p, q) in [("가", "나"), ("|", "가"), ("é", "#"), ("😀", "a")] {
        for h in ["x가y나z", "나가", "abc", "é😀#a", "😀", "", "a가é#😀나"] {
            let one = remove_suffix(remove_suffix(h, p), q);
            let two = remove_suffix(remove_suffix(h, q), p);
            assert_eq!(one, two);
            let pc = p.chars().next().unwrap();
            let qc = q.chars().next().unwrap();
            let j = h.find(|c| c == pc || c == qc).unwrap_or(h.len());
            assert_eq!(one, &h[..j]);
        }
    }
}
