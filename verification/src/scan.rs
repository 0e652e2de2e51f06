//! The dump scanner: finds document titles and `[[...]]` hyperlinks in a byte range of the
//! JSON database dump by sliding an eight-byte window over it.

use vstd::prelude::*;
use vstd::string::StringSliceAdditionalSpecFns;
use vstd::utf8::*;

use crate::text::{
    bytes_match_at, cut_before, find_from, first_either, has_prefix, lemma_cut_at_char,
    lemma_encode_concat, lemma_find_from, lemma_first_either, occurs_at, remove_suffix,
    starts_with_bytes, utf8_str,
};

verus! {

broadcast use vstd::utf8::group_utf8_lib;

/// A hyperlink: the title of the document it stands in, then its target.
#[derive(Eq, Hash, Debug)]
pub struct Link {
    pub href: (String, String),
}

impl View for Link {
    type V = (Seq<char>, Seq<char>);

    open spec fn view(&self) -> (Seq<char>, Seq<char>) {
        (self.href.0@, self.href.1@)
    }
}

/// Two links are the same when one's target is the other's title, or the other way round,
/// or both ends agree.
impl PartialEq for Link {
    fn eq(&self, other: &Self) -> (r: bool) {
        self.href.0 == other.href.1 || self.href.1 == other.href.0 || (self.href.0
            == other.href.0 && self.href.1 == other.href.1)
    }
}

impl vstd::std_specs::cmp::PartialEqSpecImpl for Link {
    open spec fn obeys_eq_spec() -> bool {
        true
    }

    open spec fn eq_spec(&self, other: &Link) -> bool {
        self.href.0@ == other.href.1@ || self.href.1@ == other.href.0@ || (self.href.0@
            == other.href.0@ && self.href.1@ == other.href.1@)
    }
}

/// Why scanning a range stopped: a finished record that is not UTF-8, or one too short or
/// cut inside a character where its title or link target is taken out of it.
#[derive(Clone, Copy, Debug, PartialEq, Eq, Structural)]
pub enum ScanError {
    InvalidUtf8,
    TitleOutOfRange,
    LinkOutOfRange,
}

/// What the scanner reports.
pub enum ScanEvent {
    /// A link found in the current document.
    Link(Link),
    /// A `"title":` key met while a record was still open; the record is dropped.
    /// Holds the title of the document in which it happened.
    Malformed(String),
}

/// A scanner report over plain values.
pub enum EventView {
    Link(Seq<char>, Seq<char>),
    Malformed(Seq<char>),
}

impl View for ScanEvent {
    type V = EventView;

    open spec fn view(&self) -> EventView {
        match self {
            ScanEvent::Link(l) => EventView::Link(l.href.0@, l.href.1@),
            ScanEvent::Malformed(t) => EventView::Malformed(t@),
        }
    }
}

/// The views of a list of reports.
pub open spec fn event_views(v: Seq<ScanEvent>) -> Seq<EventView> {
    v.map_values(|e: ScanEvent| e@)
}

/// What an eight-byte window tells the scanner.
#[derive(Clone, Copy, Debug, PartialEq, Eq, Structural)]
pub enum Marker {
    /// `[[`: start recording.
    Open,
    /// `]]` or the `,"text":` key: stop recording.
    Close,
    /// The `"title":` key: start recording a title.
    Title,
    /// Anything else.
    Plain,
}

/// The bytes of the key that starts a document title.
pub open spec fn title_key() -> Seq<u8> {
    encode_utf8("\"title\":"@)
}

/// The bytes of the key that follows a document title.
pub open spec fn text_key() -> Seq<u8> {
    encode_utf8(",\"text\":"@)
}

/// The bytes of the key of the contributors' list (nine bytes, so no window ever equals it).
pub open spec fn contrib_key() -> Seq<u8> {
    encode_utf8(",\"contrib"@)
}

/// The eight bytes at `p`.
pub open spec fn window(buf: Seq<u8>, p: int) -> Seq<u8> {
    buf.subrange(p, p + 8)
}

pub open spec fn marker_of(w: Seq<u8>) -> Marker {
    if w[0] == 0x5bu8 && w[1] == 0x5bu8 {
        Marker::Open
    } else if w[0] == 0x5du8 && w[1] == 0x5du8 {
        Marker::Close
    } else if w == title_key() {
        Marker::Title
    } else if w == text_key() || w == contrib_key() {
        Marker::Close
    } else {
        Marker::Plain
    }
}

proof fn lemma_ascii_literal(s: &str)
    requires
        is_ascii_chars(s@),
    ensures
        encode_utf8(s@).len() == s@.len(),
        forall|i: int| 0 <= i < s@.len() ==> #[trigger] encode_utf8(s@)[i] == s@[i] as u8,
{
    is_ascii_chars_encode_utf8(s@);
}

/// What a window means, byte by byte: it opens a record exactly when its first two bytes are
/// both `[`; it is the title key exactly when it is the eight bytes `"title":`; it closes a
/// record exactly when it does not open one and starts with `]]` or is the eight bytes
/// `,"text":`. A window that starts with a single `[` is therefore an ordinary byte.
pub proof fn lemma_markers(w: Seq<u8>)
    requires
        w.len() == 8,
    ensures
        (marker_of(w) == Marker::Open) <==> (w[0] == 0x5bu8 && w[1] == 0x5bu8),
        (marker_of(w) == Marker::Title) <==> w == seq![
            0x22u8,
            0x74u8,
            0x69u8,
            0x74u8,
            0x6cu8,
            0x65u8,
            0x22u8,
            0x3au8,
        ],
        (marker_of(w) == Marker::Close) <==> (!(w[0] == 0x5bu8 && w[1] == 0x5bu8) && ((w[0]
            == 0x5du8 && w[1] == 0x5du8) || w == seq![
            0x2cu8,
            0x22u8,
            0x74u8,
            0x65u8,
            0x78u8,
            0x74u8,
            0x22u8,
            0x3au8,
        ])),
        w[0] == 0x5bu8 && w[1] != 0x5bu8 ==> marker_of(w) == Marker::Plain,
{
    reveal_strlit("\"title\":");
    reveal_strlit(",\"text\":");
    reveal_strlit(",\"contrib");
    lemma_ascii_literal("\"title\":");
    lemma_ascii_literal(",\"text\":");
    lemma_ascii_literal(",\"contrib");
    let tk = seq![0x22u8, 0x74u8, 0x69u8, 0x74u8, 0x6cu8, 0x65u8, 0x22u8, 0x3au8];
    let xk = seq![0x2cu8, 0x22u8, 0x74u8, 0x65u8, 0x78u8, 0x74u8, 0x22u8, 0x3au8];
    assert(title_key() =~= tk);
    assert(text_key() =~= xk);
    assert(contrib_key().len() == 9);
    assert(w != contrib_key());
}

proof fn lemma_boundary_at_join(a: Seq<char>, b: Seq<char>)
    ensures
        is_char_boundary(encode_utf8(a + b), encode_utf8(a).len() as int),
{
    lemma_encode_concat(a, b);
    let r = encode_utf8(a + b);
    let k = encode_utf8(a).len() as int;
    if b.len() == 0 {
        assert(a + b =~= a);
        is_char_boundary_start_end_of_seq(r);
    } else {
        let eb = encode_utf8(b);
        is_char_boundary_start_end_of_seq(eb);
        is_char_boundary_iff_not_is_continuation_byte(eb, 0);
        assert(eb == encode_scalar(b[0] as u32) + encode_utf8(b.drop_first()));
        assert(r[k] == eb[0]);
        is_char_boundary_iff_not_is_continuation_byte(r, k);
    }
}

/// A finished title record holds the key's tail `title":"`, the title and `",`: taking the
/// title out of it gives back exactly that title, whatever its characters.
pub proof fn lemma_title_record(t: Seq<char>)
    ensures
        record_title(encode_utf8(seq!['t', 'i', 't', 'l', 'e', '"', ':', '"'] + t + seq!['"', ',']))
            == Ok::<Seq<char>, ScanError>(t),
{
    let key = seq!['t', 'i', 't', 'l', 'e', '"', ':', '"'];
    let tail = seq!['"', ','];
    let chars = key + t + tail;
    let r = encode_utf8(chars);
    lemma_encode_concat(key + t, tail);
    lemma_encode_concat(key, t);
    assert(is_ascii_chars(key));
    assert(is_ascii_chars(tail));
    is_ascii_chars_encode_utf8(key);
    is_ascii_chars_encode_utf8(tail);
    lemma_boundary_at_join(key, t + tail);
    assert(key + (t + tail) =~= chars);
    lemma_boundary_at_join(key + t, tail);
    let k = encode_utf8(key + t).len() as int;
    assert(r.len() == k + 2);
    assert(r.subrange(8, r.len() - 2) =~= encode_utf8(t));
}

/// A finished link record holds `[`, the link text and the `]` of its closing `]]`: when the
/// text carries no `|` label and no `#` section and is not of a skipped kind, the target is
/// exactly that text.
pub proof fn lemma_link_record(h: Seq<char>)
    requires
        !h.contains('|'),
        !h.contains('#'),
        !skipped_href(encode_utf8(h)),
    ensures
        record_link(encode_utf8(seq!['['] + h + seq![']'])) == Ok::<Option<Seq<char>>, ScanError>(
            Some(h),
        ),
{
    let open = seq!['['];
    let close = seq![']'];
    let chars = open + h + close;
    let r = encode_utf8(chars);
    lemma_encode_concat(open + h, close);
    lemma_encode_concat(open, h);
    assert(is_ascii_chars(open));
    assert(is_ascii_chars(close));
    is_ascii_chars_encode_utf8(open);
    is_ascii_chars_encode_utf8(close);
    lemma_boundary_at_join(open, h + close);
    assert(open + (h + close) =~= chars);
    lemma_boundary_at_join(open + h, close);
    let eh = encode_utf8(h);
    assert(r.subrange(1, r.len() - 1) =~= eh);
    reveal_strlit("|");
    reveal_strlit("#");
    assert("|"@ =~= seq!['|']);
    assert("#"@ =~= seq!['#']);
    lemma_cut_at_char(h, '|');
    lemma_first_either(h, '|', '|');
    if first_either(h, '|', '|') < h.len() {
        assert(h.contains(h[first_either(h, '|', '|')]));
    }
    assert(h.take(h.len() as int) =~= h);
    lemma_cut_at_char(h, '#');
    lemma_first_either(h, '#', '#');
    if first_either(h, '#', '#') < h.len() {
        assert(h.contains(h[first_either(h, '#', '#')]));
    }
    assert(href_target(eh) == eh);
}

/// Links to files (`파일:`), categories (`분류:`), templates (`틀:`) and web addresses (`http`)
/// are not counted: a link record whose text starts with one of these yields no target.
pub proof fn lemma_skipped_link(prefix: Seq<char>, rest: Seq<char>)
    requires
        prefix == seq!['파', '일', ':'] || prefix == seq!['분', '류', ':'] || prefix == seq![
            '틀',
            ':',
        ] || prefix == seq!['h', 't', 't', 'p'],
    ensures
        record_link(encode_utf8(seq!['['] + prefix + rest + seq![']'])) == Ok::<
            Option<Seq<char>>,
            ScanError,
        >(None),
{
    let h = prefix + rest;
    let open = seq!['['];
    let close = seq![']'];
    let chars = open + h + close;
    let r = encode_utf8(chars);
    assert(open + prefix + rest + close =~= chars);
    lemma_encode_concat(open + h, close);
    lemma_encode_concat(open, h);
    lemma_encode_concat(prefix, rest);
    assert(is_ascii_chars(open));
    assert(is_ascii_chars(close));
    is_ascii_chars_encode_utf8(open);
    is_ascii_chars_encode_utf8(close);
    lemma_boundary_at_join(open, h + close);
    assert(open + (h + close) =~= chars);
    lemma_boundary_at_join(open + h, close);
    let eh = encode_utf8(h);
    assert(r.subrange(1, r.len() - 1) =~= eh);
    reveal_strlit("파일:");
    reveal_strlit("분류:");
    reveal_strlit("틀:");
    reveal_strlit("http");
    let ep = encode_utf8(prefix);
    assert(eh.subrange(0, ep.len() as int) =~= ep);
    if prefix == seq!['파', '일', ':'] {
        assert("파일:"@ =~= prefix);
    } else if prefix == seq!['분', '류', ':'] {
        assert("분류:"@ =~= prefix);
    } else if prefix == seq!['틀', ':'] {
        assert("틀:"@ =~= prefix);
    } else {
        assert("http"@ =~= prefix);
    }
    assert(skipped_href(eh));
}

/// The windows scanned in a range are exactly those that start in it and whose eight bytes
/// lie wholly before both the end of the range and the end of the buffer.
pub proof fn lemma_scanned_windows(len: int, start: int, end: int, p: int)
    requires
        0 <= start,
    ensures
        (start <= p < start + window_count(len, start, end)) <==> (start <= p && p + 8 <= len && p
            + 8 <= end),
{
}

/// A single `[` is inert: a window that starts with `[` but not `[[` leaves a scanner that is
/// not recording, and holds no pending record, exactly as it was.
pub proof fn lemma_single_bracket_inert(s: ScanState, w: Seq<u8>)
    requires
        w.len() == 8,
        w[0] == 0x5bu8,
        w[1] != 0x5bu8,
        !s.recording,
        s.record.len() == 0,
    ensures
        step(s, w) == s,
{
    lemma_markers(w);
}

/// The title held in a finished title record: bytes 8 up to two before the end, which must
/// be valid UTF-8 and cut at character boundaries.
pub open spec fn record_title(r: Seq<u8>) -> Result<Seq<char>, ScanError> {
    if !valid_utf8(r) {
        Err(ScanError::InvalidUtf8)
    } else if r.len() < 10 || !is_char_boundary(r, 8) || !is_char_boundary(r, r.len() - 2) {
        Err(ScanError::TitleOutOfRange)
    } else {
        Ok(decode_utf8(r.subrange(8, r.len() - 2)))
    }
}

/// The raw link text held in a finished link record: all but its first and last byte.
pub open spec fn record_href(r: Seq<u8>) -> Result<Seq<u8>, ScanError> {
    if !valid_utf8(r) {
        Err(ScanError::InvalidUtf8)
    } else if r.len() < 2 || !is_char_boundary(r, 1) || !is_char_boundary(r, r.len() - 1) {
        Err(ScanError::LinkOutOfRange)
    } else {
        Ok(r.subrange(1, r.len() - 1))
    }
}

/// Links to files, categories, templates and web addresses are not counted.
pub open spec fn skipped_href(h: Seq<u8>) -> bool {
    ||| has_prefix(h, encode_utf8("파일:"@))
    ||| has_prefix(h, encode_utf8("분류:"@))
    ||| has_prefix(h, encode_utf8("틀:"@))
    ||| has_prefix(h, encode_utf8("http"@))
}

/// The target of a link: the text before any `|` (the shown label), and of that the text
/// before any `#` (the section).
pub open spec fn href_target(h: Seq<u8>) -> Seq<u8> {
    cut_before(cut_before(h, encode_utf8("|"@)), encode_utf8("#"@))
}

proof fn lemma_cut_before_byte(hay: Seq<u8>, b: u8)
    ensures
        cut_before(hay, seq![b]).len() <= hay.len(),
        hay.subrange(0, cut_before(hay, seq![b]).len() as int) == cut_before(hay, seq![b]),
        forall|i: int|
            0 <= i < cut_before(hay, seq![b]).len() ==> #[trigger] cut_before(hay, seq![b])[i] != b,
{
    let needle = seq![b];
    lemma_find_from(hay, needle, 0);
    let c = cut_before(hay, needle);
    assert forall|i: int| 0 <= i < c.len() implies #[trigger] c[i] != b by {
        assert(c[i] == hay[i]);
        if hay[i] == b {
            assert(hay.subrange(i, i + 1) =~= needle);
            assert(occurs_at(hay, needle, i));
        }
    }
    assert(hay.subrange(0, c.len() as int) =~= c);
}

proof fn lemma_cut_exact(h: Seq<u8>, b: u8)
    ensures
        ({
            let c = cut_before(h, seq![b]);
            &&& c.len() <= h.len()
            &&& c == h.take(c.len() as int)
            &&& forall|i: int| 0 <= i < c.len() ==> h[i] != b
            &&& c.len() == h.len() || h[c.len() as int] == b
        }),
{
    let needle = seq![b];
    lemma_find_from(h, needle, 0);
    lemma_cut_before_byte(h, b);
    let c = cut_before(h, needle);
    assert(c =~= h.take(c.len() as int));
    assert forall|i: int| 0 <= i < c.len() implies h[i] != b by {
        assert(c[i] == h[i]);
    }
    match find_from(h, needle, 0) {
        Some(k) => {
            assert(h.subrange(k, k + 1)[0] == h[k]);
        },
        None => {},
    }
}

proof fn lemma_cut_twice(h: Seq<u8>, p: u8, q: u8)
    ensures
        ({
            let c = cut_before(cut_before(h, seq![p]), seq![q]);
            &&& c.len() <= h.len()
            &&& c == h.take(c.len() as int)
            &&& forall|i: int| 0 <= i < c.len() ==> h[i] != p && h[i] != q
            &&& c.len() == h.len() || h[c.len() as int] == p || h[c.len() as int] == q
        }),
{
    let c1 = cut_before(h, seq![p]);
    lemma_cut_exact(h, p);
    lemma_cut_exact(c1, q);
    let c = cut_before(c1, seq![q]);
    assert(c =~= h.take(c.len() as int));
    assert forall|i: int| 0 <= i < c.len() implies h[i] != p && h[i] != q by {
        assert(c1[i] == h[i]);
    }
    if c.len() < c1.len() {
        assert(c1[c.len() as int] == h[c.len() as int]);
    }
}

/// Cutting text before the first byte `p` and before the first byte `q` gives the same text
/// in either order: the text before the first byte that is `p` or `q`.
pub proof fn lemma_two_cuts(h: Seq<u8>, p: u8, q: u8)
    ensures
        cut_before(cut_before(h, seq![p]), seq![q]) == cut_before(cut_before(h, seq![q]), seq![p]),
        ({
            let c = cut_before(cut_before(h, seq![p]), seq![q]);
            &&& c == h.take(c.len() as int)
            &&& forall|i: int| 0 <= i < c.len() ==> h[i] != p && h[i] != q
            &&& c.len() == h.len() || h[c.len() as int] == p || h[c.len() as int] == q
        }),
{
    lemma_cut_twice(h, p, q);
    lemma_cut_twice(h, q, p);
    let x = cut_before(cut_before(h, seq![p]), seq![q]);
    let y = cut_before(cut_before(h, seq![q]), seq![p]);
    if x.len() < y.len() {
        assert(h[x.len() as int] != p && h[x.len() as int] != q);
    } else if y.len() < x.len() {
        assert(h[y.len() as int] != p && h[y.len() as int] != q);
    }
}

/// Taking a link's target does not depend on the order of its two cuts: cutting at `#`
/// first and at `|` second gives the same target.
pub proof fn lemma_href_target_either_order(h: Seq<u8>)
    ensures
        href_target(h) == cut_before(cut_before(h, encode_utf8("#"@)), encode_utf8("|"@)),
{
    reveal_strlit("|");
    reveal_strlit("#");
    lemma_ascii_key('|');
    lemma_ascii_key('#');
    assert("|"@ =~= seq!['|']);
    assert("#"@ =~= seq!['#']);
    lemma_two_cuts(h, 0x7cu8, 0x23u8);
}

proof fn lemma_ascii_key(c: char)
    requires
        '\0' <= c <= '\u{7f}',
    ensures
        encode_utf8(seq![c]) == seq![c as u8],
{
    is_ascii_chars_encode_utf8(seq![c]);
    assert(encode_utf8(seq![c]) =~= seq![c as u8]);
}

/// Link targets carry neither a shown label nor a section: the target taken from a link's
/// text is a prefix of that text with no `|` and no `#` byte in it.
pub proof fn lemma_href_target(h: Seq<u8>)
    ensures
        href_target(h).len() <= h.len(),
        h.subrange(0, href_target(h).len() as int) == href_target(h),
        forall|i: int|
            0 <= i < href_target(h).len() ==> #[trigger] href_target(h)[i] != 0x7cu8
                && href_target(h)[i] != 0x23u8,
{
    reveal_strlit("|");
    reveal_strlit("#");
    lemma_ascii_key('|');
    lemma_ascii_key('#');
    assert("|"@ =~= seq!['|']);
    assert("#"@ =~= seq!['#']);
    let first = cut_before(h, seq![0x7cu8]);
    lemma_cut_before_byte(h, 0x7cu8);
    lemma_cut_before_byte(first, 0x23u8);
    let t = cut_before(first, seq![0x23u8]);
    assert(t == href_target(h));
    assert forall|i: int| 0 <= i < t.len() implies #[trigger] t[i] != 0x7cu8 && t[i] != 0x23u8 by {
        assert(t[i] == first[i]);
    }
    assert(h.subrange(0, t.len() as int) =~= first.subrange(0, t.len() as int));
}

/// The link target a finished link record yields; `None` for a skipped one.
pub open spec fn record_link(r: Seq<u8>) -> Result<Option<Seq<char>>, ScanError> {
    match record_href(r) {
        Err(e) => Err(e),
        Ok(h) => if skipped_href(h) {
            Ok(None)
        } else {
            Ok(Some(decode_utf8(href_target(h))))
        },
    }
}

/// The scanner's state between two windows.
pub struct ScanState {
    pub record: Seq<u8>,
    pub recording: bool,
    pub in_title: bool,
    pub title: Seq<char>,
    pub events: Seq<EventView>,
    pub failure: Option<ScanError>,
}

pub open spec fn initial_state() -> ScanState {
    ScanState {
        record: seq![],
        recording: false,
        in_title: false,
        title: seq![],
        events: seq![],
        failure: None,
    }
}

/// The effect of a window's marker.
pub open spec fn after_marker(s: ScanState, m: Marker) -> ScanState {
    match m {
        Marker::Open => ScanState { recording: true, ..s },
        Marker::Close => ScanState { recording: false, ..s },
        Marker::Title => ScanState {
            record: seq![],
            recording: true,
            in_title: true,
            events: if s.record.len() > 0 {
                s.events.push(EventView::Malformed(s.title))
            } else {
                s.events
            },
            ..s
        },
        Marker::Plain => s,
    }
}

/// Handling of a record once recording has stopped.
pub open spec fn finish_record(s: ScanState) -> ScanState {
    if s.in_title {
        match record_title(s.record) {
            Ok(t) => ScanState { title: t, in_title: false, record: seq![], ..s },
            Err(e) => ScanState { failure: Some(e), ..s },
        }
    } else {
        match record_link(s.record) {
            Ok(Some(target)) => ScanState {
                record: seq![],
                events: s.events.push(EventView::Link(s.title, target)),
                ..s
            },
            Ok(None) => ScanState { record: seq![], ..s },
            Err(e) => ScanState { failure: Some(e), ..s },
        }
    }
}

/// One window: apply its marker, then record its second byte, or finish a pending record.
pub open spec fn step(s: ScanState, w: Seq<u8>) -> ScanState {
    if s.failure is Some {
        s
    } else {
        let s1 = after_marker(s, marker_of(w));
        if s1.recording {
            ScanState { record: s1.record.push(w[1]), ..s1 }
        } else if s1.record.len() > 0 {
            finish_record(s1)
        } else {
            s1
        }
    }
}

/// The number of windows scanned in `[start, end)`: those that lie wholly before both the end
/// of the buffer and `end`.
pub open spec fn window_count(len: int, start: int, end: int) -> int {
    let limit = if len < end {
        len - 7
    } else {
        end - 7
    };
    if limit > start {
        limit - start
    } else {
        0
    }
}

/// The state after the first `k` windows from `start`.
pub open spec fn scan_prefix(buf: Seq<u8>, start: int, k: nat) -> ScanState
    decreases k,
{
    if k == 0 {
        initial_state()
    } else {
        step(scan_prefix(buf, start, (k - 1) as nat), window(buf, start + k - 1))
    }
}

/// What scanning `[start, end)` of `buf` yields.
pub open spec fn scan_result(buf: Seq<u8>, start: int, end: int) -> Result<
    Seq<EventView>,
    ScanError,
> {
    let s = scan_prefix(buf, start, window_count(buf.len() as int, start, end) as nat);
    match s.failure {
        Some(e) => Err(e),
        None => Ok(s.events),
    }
}

/// A failure is final.
pub proof fn lemma_failure_persists(buf: Seq<u8>, start: int, k: nat, n: nat)
    requires
        k <= n,
        scan_prefix(buf, start, k).failure is Some,
    ensures
        scan_prefix(buf, start, n) == scan_prefix(buf, start, k),
    decreases n - k,
{
    if k < n {
        lemma_failure_persists(buf, start, k, (n - 1) as nat);
    }
}

/// Whether the eight bytes at `p` are `key`.
fn window_is(buf: &[u8], p: usize, key: &[u8]) -> (r: bool)
    requires
        p + 8 <= buf@.len(),
    ensures
        r == (window(buf@, p as int) == key@),
{
    if key.len() != 8 {
        false
    } else {
        bytes_match_at(buf, p, key)
    }
}

/// The marker of the window at `p`.
fn window_marker(buf: &[u8], p: usize) -> (m: Marker)
    requires
        p + 8 <= buf@.len(),
    ensures
        m == marker_of(window(buf@, p as int)),
{
    let b0 = buf[p];
    let b1 = buf[p + 1];
    if b0 == 0x5b && b1 == 0x5b {
        Marker::Open
    } else if b0 == 0x5d && b1 == 0x5d {
        Marker::Close
    } else if window_is(buf, p, "\"title\":".as_bytes()) {
        Marker::Title
    } else if window_is(buf, p, ",\"text\":".as_bytes()) || window_is(
        buf,
        p,
        ",\"contrib".as_bytes(),
    ) {
        Marker::Close
    } else {
        Marker::Plain
    }
}

/// The title held in a finished title record.
pub fn title_text(record: &Vec<u8>) -> (r: Result<String, ScanError>)
    ensures
        match r {
            Ok(t) => record_title(record@) == Ok::<Seq<char>, ScanError>(t@),
            Err(e) => record_title(record@) == Err::<Seq<char>, ScanError>(e),
        },
{
    let ghost b = record@;
    let temp = match utf8_str(record.as_slice()) {
        Some(t) => t,
        None => return Err(ScanError::InvalidUtf8),
    };
    assert(temp.spec_bytes() == b);
    let n = record.len();
    assert(n == b.len());
    if n < 10 || !temp.is_char_boundary(8) || !temp.is_char_boundary(n - 2) {
        assert(record_title(b) == Err::<Seq<char>, ScanError>(ScanError::TitleOutOfRange));
        return Err(ScanError::TitleOutOfRange);
    }
    let (_, rest) = temp.split_at(8);
    proof {
        let rb = rest.spec_bytes();
        assert(rb =~= b.subrange(8, b.len() as int));
        assert(rb[n - 10] == b[n - 2]);
        is_char_boundary_iff_not_is_continuation_byte(b, n - 2);
        is_char_boundary_iff_not_is_continuation_byte(rb, n - 10);
    }
    let (t, _) = rest.split_at(n - 10);
    proof {
        assert(rest.spec_bytes() =~= b.subrange(8, b.len() as int));
        assert(t.spec_bytes() =~= rest.spec_bytes().subrange(0, n - 10));
        assert(t.spec_bytes() =~= b.subrange(8, b.len() - 2));
    }
    Ok(t.to_owned())
}

/// The link target a finished link record yields; `None` for a skipped link.
pub fn link_text(record: &Vec<u8>) -> (r: Result<Option<String>, ScanError>)
    ensures
        match r {
            Ok(Some(t)) => record_link(record@) == Ok::<Option<Seq<char>>, ScanError>(Some(t@)),
            Ok(None) => record_link(record@) == Ok::<Option<Seq<char>>, ScanError>(None),
            Err(e) => record_link(record@) == Err::<Option<Seq<char>>, ScanError>(e),
        },
{
    let ghost b = record@;
    let href = match utf8_str(record.as_slice()) {
        Some(t) => t,
        None => return Err(ScanError::InvalidUtf8),
    };
    assert(href.spec_bytes() == b);
    let n = record.len();
    assert(n == b.len());
    if n < 2 || !href.is_char_boundary(1) || !href.is_char_boundary(n - 1) {
        assert(record_href(b) == Err::<Seq<u8>, ScanError>(ScanError::LinkOutOfRange));
        return Err(ScanError::LinkOutOfRange);
    }
    let (_, rest) = href.split_at(1);
    proof {
        let rb = rest.spec_bytes();
        assert(rb =~= b.subrange(1, b.len() as int));
        if n - 2 < rb.len() {
            assert(rb[n - 2] == b[n - 1]);
            is_char_boundary_iff_not_is_continuation_byte(b, n - 1);
            is_char_boundary_iff_not_is_continuation_byte(rb, n - 2);
        }
    }
    let (h, _) = rest.split_at(n - 2);
    let ghost hb = h.spec_bytes();
    proof {
        assert(rest.spec_bytes() =~= b.subrange(1, b.len() as int));
        assert(hb =~= rest.spec_bytes().subrange(0, n - 2));
        assert(hb =~= b.subrange(1, b.len() - 1));
    }
    let bytes = h.as_bytes();
    if starts_with_bytes(bytes, "파일:".as_bytes()) || starts_with_bytes(bytes, "분류:".as_bytes())
        || starts_with_bytes(bytes, "틀:".as_bytes()) || starts_with_bytes(
        bytes,
        "http".as_bytes(),
    ) {
        return Ok(None);
    }
    let target = remove_suffix(remove_suffix(h, "|"), "#");
    Ok(Some(target.to_owned()))
}

/// Scans the windows of `buf` that start at or after `start` and lie wholly before both `end`
/// and the end of `buf`, from a fresh state, and reports what it finds in order.
pub fn scan_chunk(buf: &[u8], start: usize, end: usize) -> (r: Result<Vec<ScanEvent>, ScanError>)
    ensures
        match r {
            Ok(v) => scan_result(buf@, start as int, end as int) == Ok::<
                Seq<EventView>,
                ScanError,
            >(event_views(v@)),
            Err(e) => scan_result(buf@, start as int, end as int) == Err::<
                Seq<EventView>,
                ScanError,
            >(e),
        },
{
    let len = buf.len();
    let ghost count = window_count(len as int, start as int, end as int);
    let mut record: Vec<u8> = Vec::new();
    let mut recording = false;
    let mut in_title = false;
    let mut title = String::new();
    let mut events: Vec<ScanEvent> = Vec::new();
    let mut p = start;
    proof {
        assert(record@ =~= seq![]);
        assert(event_views(events@) =~= seq![]);
    }
    while len > 7 && p < len - 7 && end > 7 && p < end - 7
        invariant
            len == buf@.len(),
            count == window_count(len as int, start as int, end as int),
            start <= p <= start + count,
            scan_prefix(buf@, start as int, (p - start) as nat) == (ScanState {
                record: record@,
                recording,
                in_title,
                title: title@,
                events: event_views(events@),
                failure: None,
            }),
        decreases len - p,
    {
        let ghost before = scan_prefix(buf@, start as int, (p - start) as nat);
        let ghost w = window(buf@, p as int);
        let marker = window_marker(buf, p);
        match marker {
            Marker::Open => {
                recording = true;
            },
            Marker::Close => {
                recording = false;
            },
            Marker::Title => {
                if record.len() > 0 {
                    events.push(ScanEvent::Malformed(title.clone()));
                    record.clear();
                }
                in_title = true;
                recording = true;
            },
            Marker::Plain => {},
        }
        proof {
            assert(event_views(events@) =~= after_marker(before, marker).events);
            assert(record@ =~= after_marker(before, marker).record);
        }
        if recording {
            record.push(buf[p + 1]);
        } else if record.len() > 0 {
            if in_title {
                match title_text(&record) {
                    Ok(t) => {
                        title = t;
                        in_title = false;
                        record.clear();
                    },
                    Err(e) => {
                        proof {
                            lemma_failure_persists(
                                buf@,
                                start as int,
                                (p + 1 - start) as nat,
                                count as nat,
                            );
                        }
                        return Err(e);
                    },
                }
            } else {
                match link_text(&record) {
                    Ok(Some(target)) => {
                        events.push(ScanEvent::Link(Link { href: (title.clone(), target) }));
                        record.clear();
                    },
                    Ok(None) => {
                        record.clear();
                    },
                    Err(e) => {
                        proof {
                            lemma_failure_persists(
                                buf@,
                                start as int,
                                (p + 1 - start) as nat,
                                count as nat,
                            );
                        }
                        return Err(e);
                    },
                }
            }
        }
        proof {
            assert(record@ =~= step(before, w).record);
            assert(event_views(events@) =~= step(before, w).events);
        }
        p = p + 1;
    }
    Ok(events)
}


/// The byte ranges the dump is split into for `threads` workers: worker `i` gets
/// `[i * size, (i + 1) * size)` with `size = len / threads`. Bytes past the last range are
/// not scanned.
pub fn chunk_bounds(len: usize, threads: usize) -> (r: Vec<(usize, usize)>)
    requires
        threads > 0,
    ensures
        r@.len() == threads,
        forall|i: int|
            0 <= i < threads ==> #[trigger] r@[i] == ((i * (len / threads)) as usize, ((i + 1) * (
            len / threads)) as usize),
{
    let size = len / threads;
    let mut r: Vec<(usize, usize)> = Vec::new();
    let mut i: usize = 0;
    while i < threads
        invariant
            size == len / threads,
            threads > 0,
            i <= threads,
            r@.len() == i,
            forall|j: int|
                0 <= j < i ==> #[trigger] r@[j] == ((j * size) as usize, ((j + 1) * size) as usize),
        decreases threads - i,
    {
        proof {
            assert((i + 1) * size <= threads * size) by (nonlinear_arith)
                requires
                    i < threads,
            ;
            assert(threads * size <= len) by (nonlinear_arith)
                requires
                    size == len / threads,
                    threads > 0,
            ;
            assert(i * size <= (i + 1) * size) by (nonlinear_arith);
        }
        r.push((i * size, (i + 1) * size));
        i = i + 1;
    }
    r
}

} // verus!
