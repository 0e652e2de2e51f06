//! Building the keyword network: from counted links, or from a saved network file; and the
//! CSV lines the network and the frequency analysis are written as.

use vstd::prelude::*;
use vstd::utf8::encode_utf8;

use crate::graph::{GraphFull, GraphView, KeywordGraph, failed_link, room_for, with_link};
use crate::rank::{index_range, lemma_ranks_permutation, rank_by_count, ranks};
use crate::tally::LinkCounter;
use crate::text::{decimal, lemma_decimal_reads_back, parse_u32, push_decimal, u32_from_text};
use vstd::string::StringExecFns;

verus! {

/// The CSV line of a counted link: `"<title>","<target>",<count>`.
pub open spec fn link_csv_line(title: Seq<char>, target: Seq<char>, count: nat) -> Seq<char> {
    "\""@ + title + "\",\""@ + target + "\","@ + decimal(count)
}

/// The CSV line of a counted link target: `"<target>",<count>`.
pub open spec fn target_csv_line(target: Seq<char>, count: nat) -> Seq<char> {
    "\""@ + target + "\","@ + decimal(count)
}

/// A link's CSV line is `"`, the title, `","`, the target, `",` and a count field that reads
/// back with `parse_u32` as the whole count; so a network saved this way and read back with
/// `add_record` has the counted weights.
pub proof fn lemma_link_csv_count(title: Seq<char>, target: Seq<char>, count: u32)
    ensures
        ({
            let line = link_csv_line(title, target, count as nat);
            let n = (1 + title.len() + 3 + target.len() + 2) as int;
            &&& n <= line.len()
            &&& line.subrange(0, n) == seq!['"'] + title + seq!['"', ',', '"'] + target + seq![
                '"',
                ',',
            ]
            &&& u32_from_text(encode_utf8(line.subrange(n, line.len() as int))) == Some(count)
        }),
{
    reveal_strlit("\"");
    reveal_strlit("\",\"");
    reveal_strlit("\",");
    assert("\""@ =~= seq!['"']);
    assert("\",\""@ =~= seq!['"', ',', '"']);
    assert("\","@ =~= seq!['"', ',']);
    let head = seq!['"'] + title + seq!['"', ',', '"'] + target + seq!['"', ','];
    let line = link_csv_line(title, target, count as nat);
    assert(line =~= head + decimal(count as nat));
    let n = head.len() as int;
    assert(line.subrange(0, n) =~= head);
    assert(line.subrange(n, line.len() as int) =~= decimal(count as nat));
    lemma_decimal_reads_back(count);
}

/// A target's CSV line in the frequency output is `"`, the target, `",` and a count field
/// that reads back with `parse_u32` as the whole count.
pub proof fn lemma_target_csv_count(target: Seq<char>, count: u32)
    ensures
        ({
            let line = target_csv_line(target, count as nat);
            let n = (1 + target.len() + 2) as int;
            &&& n <= line.len()
            &&& line.subrange(0, n) == seq!['"'] + target + seq!['"', ',']
            &&& u32_from_text(encode_utf8(line.subrange(n, line.len() as int))) == Some(count)
        }),
{
    reveal_strlit("\"");
    reveal_strlit("\",");
    assert("\""@ =~= seq!['"']);
    assert("\","@ =~= seq!['"', ',']);
    let head = seq!['"'] + target + seq!['"', ','];
    let line = target_csv_line(target, count as nat);
    assert(line =~= head + decimal(count as nat));
    let n = head.len() as int;
    assert(line.subrange(0, n) =~= head);
    assert(line.subrange(n, line.len() as int) =~= decimal(count as nat));
    lemma_decimal_reads_back(count);
}

pub fn link_csv_text(title: &str, target: &str, count: u32) -> (r: String)
    ensures
        r@ == link_csv_line(title@, target@, count as nat),
{
    let mut r = "\"".to_owned();
    r.append(title);
    r.append("\",\"");
    r.append(target);
    r.append("\",");
    push_decimal(&mut r, count as u64);
    r
}

pub fn target_csv_text(target: &str, count: u32) -> (r: String)
    ensures
        r@ == target_csv_line(target@, count as nat),
{
    let mut r = "\"".to_owned();
    r.append(target);
    r.append("\",");
    push_decimal(&mut r, count as u64);
    r
}

/// The graph after adding, in the order `order` gives, the counted links at those positions,
/// each as an edge weighted by its count; `None` when petgraph's indices run out on the way.
pub open spec fn links_onto(
    v: GraphView,
    entries: Seq<((Seq<char>, Seq<char>), nat)>,
    order: Seq<usize>,
) -> Option<GraphView>
    decreases order.len(),
{
    if order.len() == 0 {
        Some(v)
    } else {
        match links_onto(v, entries, order.drop_last()) {
            None => None,
            Some(g) => {
                let e = entries[order.last() as int];
                if room_for(g, e.0.0, e.0.1) {
                    Some(with_link(g, e.0.0, e.0.1, e.1 as u32))
                } else {
                    None
                }
            },
        }
    }
}

/// Adding the links of `order` got through its first `k` entries and failed at entry `k`,
/// leaving `fin`: what a failed `add_link` leaves of the graph built so far.
pub open spec fn fails_at(
    v: GraphView,
    entries: Seq<((Seq<char>, Seq<char>), nat)>,
    order: Seq<usize>,
    k: int,
    fin: GraphView,
) -> bool {
    &&& 0 <= k < order.len()
    &&& links_onto(v, entries, order.take(k)) is Some
    &&& {
        let g = links_onto(v, entries, order.take(k))->Some_0;
        let e = entries[order[k] as int];
        !room_for(g, e.0.0, e.0.1) && fin == failed_link(g, e.0.0, e.0.1)
    }
}

/// The order in which counted links are taken: heaviest first when `sort` is set (equal
/// counts keep their order), otherwise the order in which they were first counted.
pub fn link_order(counter: &LinkCounter, sort: bool) -> (r: Vec<usize>)
    requires
        counter.wf(),
    ensures
        sort ==> ranks(counts_of(counter@), r@, 0, counter@.len() as int),
        !sort ==> r@ == index_range(0, counter@.len() as int),
        forall|i: int| 0 <= i < r@.len() ==> #[trigger] r@[i] < counter@.len(),
{
    let counts = counter.counts();
    proof {
        assert(counts@ =~= counts_of(counter@));
    }
    if sort {
        let r = rank_by_count(counts);
        proof {
            assert(counts@.len() == counts.len());
            lemma_ranks_permutation(counts@, r@);
        }
        r
    } else {
        let n = counts.len();
        let mut r: Vec<usize> = Vec::new();
        let mut i: usize = 0;
        while i < n
            invariant
                i <= n,
                n == counter@.len(),
                r@ == index_range(0, i as int),
            decreases n - i,
        {
            r.push(i);
            i = i + 1;
            assert(r@ =~= index_range(0, i as int));
        }
        r
    }
}

/// The counts of counted entries, as `u32`.
pub open spec fn counts_of<K>(entries: Seq<(K, nat)>) -> Seq<u32> {
    entries.map_values(|e: (K, nat)| e.1 as u32)
}

/// Adds the counted links at positions `order` of `counter` to `graph`, in that order.
pub fn add_links(graph: &mut KeywordGraph, counter: &LinkCounter, order: &Vec<usize>) -> (r: Result<
    (),
    GraphFull,
>)
    requires
        old(graph).wf(),
        counter.wf(),
        forall|i: int| 0 <= i < order@.len() ==> #[trigger] order@[i] < counter@.len(),
    ensures
        final(graph).wf(),
        r is Ok <==> links_onto(old(graph)@, counter@, order@) is Some,
        r is Ok ==> links_onto(old(graph)@, counter@, order@) == Some(final(graph)@),
        r is Err ==> exists|k: int| #[trigger]
            fails_at(old(graph)@, counter@, order@, k, final(graph)@),
{
    let n = order.len();
    let mut k: usize = 0;
    proof {
        assert(order@.take(0) =~= Seq::<usize>::empty());
    }
    while k < n
        invariant
            n == order@.len(),
            k <= n,
            counter.wf(),
            forall|i: int| 0 <= i < order@.len() ==> #[trigger] order@[i] < counter@.len(),
            graph.wf(),
            links_onto(old(graph)@, counter@, order@.take(k as int)) == Some(graph@),
        decreases n - k,
    {
        let i = order[k];
        let (title, target, count) = counter.entry(i);
        proof {
            assert(order@.take(k + 1).drop_last() =~= order@.take(k as int));
            assert(order@.take(k + 1).last() == i);
        }
        match graph.add_link(title.as_str(), target.as_str(), count) {
            Ok(()) => {},
            Err(e) => {
                proof {
                    lemma_links_onto_stuck(old(graph)@, counter@, order@, k as int + 1);
                    assert(order@.take(n as int) =~= order@);
                    assert(fails_at(old(graph)@, counter@, order@, k as int, graph@));
                }
                return Err(e);
            },
        }
        k = k + 1;
    }
    proof {
        assert(order@.take(n as int) =~= order@);
    }
    Ok(())
}

/// Once adding links fails, adding more fails too.
proof fn lemma_links_onto_stuck(
    v: GraphView,
    entries: Seq<((Seq<char>, Seq<char>), nat)>,
    order: Seq<usize>,
    k: int,
)
    requires
        0 <= k <= order.len(),
        links_onto(v, entries, order.take(k)) is None,
    ensures
        links_onto(v, entries, order) is None,
    decreases order.len() - k,
{
    if k < order.len() {
        assert(order.take(k + 1).drop_last() =~= order.take(k));
        lemma_links_onto_stuck(v, entries, order, k + 1);
    } else {
        assert(order.take(k) =~= order);
    }
}

/// Why a record of a saved network could not be added.
#[derive(Clone, Copy, Debug, PartialEq, Eq, Structural)]
pub enum RecordError {
    /// Fewer than three fields.
    MissingField,
    /// The third field is not a `u32` weight.
    BadWeight,
    /// Petgraph's indices are used up.
    GraphFull,
}

/// Adds one record `origin, destination, weight` of a saved network to `graph`.
pub fn add_record(graph: &mut KeywordGraph, fields: &Vec<String>) -> (r: Result<(), RecordError>)
    requires
        old(graph).wf(),
    ensures
        final(graph).wf(),
        fields@.len() < 3 ==> r == Err::<(), RecordError>(RecordError::MissingField) && final(graph)@
            == old(graph)@,
        fields@.len() >= 3 && u32_from_text(encode_utf8(fields@[2]@)) is None ==> r == Err::<
            (),
            RecordError,
        >(RecordError::BadWeight) && final(graph)@ == old(graph)@,
        fields@.len() >= 3 ==> match u32_from_text(encode_utf8(fields@[2]@)) {
            Some(w) => (r is Ok <==> room_for(old(graph)@, fields@[0]@, fields@[1]@)) && (r is Ok
                ==> final(graph)@ == with_link(old(graph)@, fields@[0]@, fields@[1]@, w)) && (r is Err
                ==> r == Err::<(), RecordError>(RecordError::GraphFull) && final(graph)@
                == failed_link(old(graph)@, fields@[0]@, fields@[1]@)),
            None => true,
        },
{
    if fields.len() < 3 {
        return Err(RecordError::MissingField);
    }
    let weight = match parse_u32(fields[2].as_str()) {
        Some(w) => w,
        None => return Err(RecordError::BadWeight),
    };
    match graph.add_link(fields[0].as_str(), fields[1].as_str(), weight) {
        Ok(()) => Ok(()),
        Err(_) => Err(RecordError::GraphFull),
    }
}

} // verus!
