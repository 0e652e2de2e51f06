//! Counting: how often each link (title, target) or each link target occurs.

use vstd::prelude::*;
use vstd::hash_map::StringHashMap;
use vstd::multiset::Multiset;
use std::collections::HashMap;

use crate::scan::{EventView, ScanEvent, event_views};

verus! {

broadcast use {
    vstd::std_specs::hash::group_hash_axioms,
    vstd::hash_map::group_hash_map_axioms,
    vstd::seq_lib::group_to_multiset_ensures,
    vstd::multiset::group_multiset_axioms,
};

/// No key is listed twice.
pub open spec fn keys_distinct<K>(e: Seq<(K, nat)>) -> bool {
    forall|i: int, j: int| 0 <= i < j < e.len() ==> e[i].0 != e[j].0
}

/// `k` is listed.
pub open spec fn has_key<K>(e: Seq<(K, nat)>, k: K) -> bool {
    exists|i: int| 0 <= i < e.len() && e[i].0 == k
}

/// The position where `k` is listed.
pub open spec fn key_position<K>(e: Seq<(K, nat)>, k: K) -> int {
    choose|i: int| 0 <= i < e.len() && e[i].0 == k
}

/// One more occurrence of `k`: its count goes up by one, or it is listed last with count one.
pub open spec fn bump<K>(e: Seq<(K, nat)>, k: K) -> Seq<(K, nat)> {
    if has_key(e, k) {
        let i = key_position(e, k);
        e.update(i, (k, e[i].1 + 1))
    } else {
        e.push((k, 1))
    }
}

/// `e` with the occurrences in `items` added, one after another.
pub open spec fn tally_onto<K>(e: Seq<(K, nat)>, items: Seq<K>) -> Seq<(K, nat)>
    decreases items.len(),
{
    if items.len() == 0 {
        e
    } else {
        bump(tally_onto(e, items.drop_last()), items.last())
    }
}

/// The counts of `items`, keys in the order of their first occurrence.
pub open spec fn tally<K>(items: Seq<K>) -> Seq<(K, nat)> {
    tally_onto(Seq::empty(), items)
}

/// The count listed for `k`, zero when it is not listed.
pub open spec fn count_in<K>(e: Seq<(K, nat)>, k: K) -> nat {
    if has_key(e, k) {
        e[key_position(e, k)].1
    } else {
        0
    }
}

proof fn lemma_bump<K>(e: Seq<(K, nat)>, k: K)
    requires
        keys_distinct(e),
    ensures
        keys_distinct(bump(e, k)),
        count_in(bump(e, k), k) == count_in(e, k) + 1,
        forall|x: K| x != k ==> count_in(bump(e, k), x) == count_in(e, x),
        forall|x: K| has_key(bump(e, k), x) <==> (has_key(e, x) || x == k),
        forall|i: int| 0 <= i < e.len() ==> (#[trigger] bump(e, k)[i]).0 == e[i].0,
{
    let b = bump(e, k);
    if has_key(e, k) {
        let i = key_position(e, k);
        assert forall|x: K| has_key(b, x) <==> (has_key(e, x) || x == k) by {
            if has_key(e, x) {
                let j = key_position(e, x);
                assert(b[j].0 == x);
            }
            if has_key(b, x) {
                let j = choose|j: int| 0 <= j < b.len() && b[j].0 == x;
                assert(e[j].0 == x);
            }
        }
        assert(b[i].0 == k);
        assert forall|x: K| x != k implies count_in(b, x) == count_in(e, x) by {
            if has_key(e, x) {
                let j = key_position(e, x);
                let jb = key_position(b, x);
                assert(b[j].0 == x);
                assert(e[jb].0 == x);
            }
        }
        let ib = key_position(b, k);
        assert(ib == i);
    } else {
        assert forall|x: K| has_key(b, x) <==> (has_key(e, x) || x == k) by {
            if has_key(e, x) {
                let j = key_position(e, x);
                assert(b[j].0 == x);
            }
            if has_key(b, x) {
                let j = choose|j: int| 0 <= j < b.len() && b[j].0 == x;
                if j < e.len() {
                    assert(e[j].0 == x);
                }
            }
            if x == k {
                assert(b[e.len() as int].0 == k);
            }
        }
        assert forall|x: K| x != k implies count_in(b, x) == count_in(e, x) by {
            if has_key(e, x) {
                let j = key_position(e, x);
                let jb = key_position(b, x);
                assert(b[j].0 == x);
                if jb < e.len() {
                    assert(e[jb].0 == x);
                }
            }
        }
        let ib = key_position(b, k);
        assert(b[e.len() as int].0 == k);
        assert(ib == e.len());
    }
}

/// Counting, law: the keys of the counts are distinct and are the items that occur, and the
/// count of each item is its number of occurrences, on top of what was already counted.
pub proof fn lemma_tally_onto_counts<K>(e: Seq<(K, nat)>, items: Seq<K>)
    requires
        keys_distinct(e),
    ensures
        keys_distinct(tally_onto(e, items)),
        forall|k: K| #[trigger]
            count_in(tally_onto(e, items), k) == count_in(e, k) + items.to_multiset().count(k),
        forall|k: K| #[trigger]
            has_key(tally_onto(e, items), k) <==> (has_key(e, k) || items.contains(k)),
    decreases items.len(),
{
    if items.len() > 0 {
        let rest = items.drop_last();
        let last = items.last();
        lemma_tally_onto_counts(e, rest);
        lemma_bump(tally_onto(e, rest), last);
        assert(rest.push(last) =~= items);
        assert(tally_onto(e, items) == bump(tally_onto(e, rest), last));
        assert(items.to_multiset() =~= rest.to_multiset().insert(last));
        assert forall|k: K| #[trigger]
            count_in(tally_onto(e, items), k) == count_in(e, k) + items.to_multiset().count(k) by {
            let t = tally_onto(e, rest);
            assert(count_in(t, k) == count_in(e, k) + rest.to_multiset().count(k));
            if k == last {
                assert(count_in(bump(t, last), last) == count_in(t, last) + 1);
                assert(items.to_multiset().count(k) == rest.to_multiset().count(k) + 1);
            } else {
                assert(count_in(bump(t, last), k) == count_in(t, k));
                assert(items.to_multiset().count(k) == rest.to_multiset().count(k));
            }
        }
        assert forall|k: K| #[trigger]
            has_key(tally_onto(e, items), k) <==> (has_key(e, k) || items.contains(k)) by {
            let t = tally_onto(e, rest);
            assert(has_key(t, k) <==> (has_key(e, k) || rest.contains(k)));
            assert(has_key(bump(t, last), k) <==> (has_key(t, k) || k == last));
            if rest.contains(k) {
                let j = choose|j: int| 0 <= j < rest.len() && rest[j] == k;
                assert(items[j] == k);
            }
            if items.contains(k) && k != last {
                let j = choose|j: int| 0 <= j < items.len() && items[j] == k;
                assert(rest[j] == k);
            }
            assert(items[items.len() - 1] == last);
        }
    }
}

/// Counting, law: the counts of a list are its distinct items in order of first occurrence,
/// each with its number of occurrences.
pub proof fn lemma_tally_counts<K>(items: Seq<K>)
    ensures
        keys_distinct(tally(items)),
        forall|k: K| #[trigger] count_in(tally(items), k) == items.to_multiset().count(k),
        forall|k: K| #[trigger] has_key(tally(items), k) <==> items.contains(k),
{
    lemma_tally_onto_counts(Seq::<(K, nat)>::empty(), items);
}

/// Counting, law: counting a list in two parts, one onto the other, counts the whole list.
pub proof fn lemma_tally_split<K>(a: Seq<K>, b: Seq<K>)
    ensures
        tally_onto(tally(a), b) == tally(a + b),
    decreases b.len(),
{
    if b.len() == 0 {
        assert(a + b =~= a);
    } else {
        lemma_tally_split(a, b.drop_last());
        assert((a + b).drop_last() =~= a + b.drop_last());
        assert((a + b).last() == b.last());
    }
}

/// A table of distinct names, each with the index at which it was first added.
pub struct NameTable {
    names: Vec<String>,
    index: StringHashMap<usize>,
}

impl View for NameTable {
    type V = Seq<Seq<char>>;

    closed spec fn view(&self) -> Seq<Seq<char>> {
        self.names@.map_values(|s: String| s@)
    }
}

impl NameTable {
    /// The index finds every name, and every name it finds is at the index it gives.
    pub closed spec fn wf(&self) -> bool {
        &&& forall|i: int|
            0 <= i < self.names@.len() ==> #[trigger] self.index@.contains_key(self.names@[i]@)
                && self.index@[self.names@[i]@] == i
        &&& forall|k: Seq<char>| #[trigger]
            self.index@.contains_key(k) ==> self.index@[k] < self.names@.len()
                && self.names@[self.index@[k] as int]@ == k
    }

    /// The names of a well-formed table are distinct.
    pub proof fn lemma_distinct(&self)
        requires
            self.wf(),
        ensures
            forall|i: int, j: int|
                0 <= i < j < self@.len() ==> #[trigger] self@[i] != #[trigger] self@[j],
    {
        assert forall|i: int, j: int| 0 <= i < j < self@.len() implies #[trigger] self@[i]
            != #[trigger] self@[j] by {
            assert(self@[i] == self.names@[i]@);
            assert(self@[j] == self.names@[j]@);
            assert(self.index@.contains_key(self.names@[i]@));
            assert(self.index@.contains_key(self.names@[j]@));
        }
    }

    pub fn new() -> (t: NameTable)
        ensures
            t.wf(),
            t@ == Seq::<Seq<char>>::empty(),
    {
        let t = NameTable { names: Vec::new(), index: StringHashMap::new() };
        assert(t@ =~= Seq::<Seq<char>>::empty());
        t
    }

    pub fn len(&self) -> (n: usize)
        ensures
            n == self@.len(),
    {
        self.names.len()
    }

    /// The name at index `i`.
    pub fn name(&self, i: usize) -> (s: &String)
        requires
            i < self@.len(),
        ensures
            s@ == self@[i as int],
    {
        &self.names[i]
    }

    /// The index of `name`, if it is in the table.
    pub fn find(&self, name: &str) -> (r: Option<usize>)
        requires
            self.wf(),
        ensures
            match r {
                Some(i) => i < self@.len() && self@[i as int] == name@,
                None => !self@.contains(name@),
            },
    {
        match self.index.get(name) {
            Some(i) => Some(*i),
            None => {
                assert(!self@.contains(name@)) by {
                    if self@.contains(name@) {
                        let j = choose|j: int| 0 <= j < self@.len() && self@[j] == name@;
                        assert(self.index@.contains_key(self.names@[j]@));
                    }
                }
                None
            },
        }
    }

    /// The index of `name`, which is added at the end if it is not yet in the table.
    pub fn intern(&mut self, name: &str) -> (r: usize)
        requires
            old(self).wf(),
        ensures
            final(self).wf(),
            final(self)@ == (if old(self)@.contains(name@) {
                old(self)@
            } else {
                old(self)@.push(name@)
            }),
            r < final(self)@.len(),
            final(self)@[r as int] == name@,
    {
        match self.find(name) {
            Some(i) => i,
            None => {
                let i = self.names.len();
                let owned = name.to_owned();
                let key = name.to_owned();
                self.names.push(owned);
                self.index.insert(key, i);
                assert(self@ =~= old(self)@.push(name@));
                assert forall|j: int| 0 <= j < self.names@.len() implies #[trigger]
                    self.index@.contains_key(self.names@[j]@) && self.index@[self.names@[j]@]
                    == j by {
                    if j < i {
                        assert(old(self).index@.contains_key(old(self).names@[j]@));
                        assert(self.names@[j]@ != name@) by {
                            assert(old(self)@[j] == old(self).names@[j]@);
                        }
                    }
                }
                i
            },
        }
    }
}

/// A count would pass `u32::MAX`.
#[derive(Clone, Copy, Debug, PartialEq, Eq, Structural)]
pub struct CountOverflow;

/// The number of the pair of name indices `(a, b)`.
pub open spec fn pair_number(a: usize, b: usize) -> int {
    (a as int) * 0x1_0000_0000_0000_0000 + (b as int)
}

/// The key of the pair of name indices `(a, b)`.
pub open spec fn pair_key(a: usize, b: usize) -> u128 {
    pair_number(a, b) as u128
}

proof fn lemma_pair_number_range(a: usize, b: usize)
    ensures
        0 <= pair_number(a, b) < 0x1_0000_0000_0000_0000_0000_0000_0000_0000,
{
    assert(0 <= (a as int) * 0x1_0000_0000_0000_0000 + (b as int)
        < 0x1_0000_0000_0000_0000_0000_0000_0000_0000) by (nonlinear_arith)
        requires
            0 <= a < 0x1_0000_0000_0000_0000,
            0 <= b < 0x1_0000_0000_0000_0000,
    ;
}

proof fn lemma_pair_key_injective(a: usize, b: usize, c: usize, d: usize)
    requires
        pair_key(a, b) == pair_key(c, d),
    ensures
        a == c && b == d,
{
    lemma_pair_number_range(a, b);
    lemma_pair_number_range(c, d);
    assert(pair_number(a, b) == pair_number(c, d));
    assert(a == c && b == d) by (nonlinear_arith)
        requires
            (a as int) * 0x1_0000_0000_0000_0000 + (b as int) == (c as int)
                * 0x1_0000_0000_0000_0000 + (d as int),
            0 <= b < 0x1_0000_0000_0000_0000,
            0 <= d < 0x1_0000_0000_0000_0000,
            0 <= a,
            0 <= c,
    ;
}

fn make_pair_key(a: usize, b: usize) -> (k: u128)
    ensures
        k == pair_key(a, b),
{
    proof {
        lemma_pair_number_range(a, b);
    }
    (a as u128) * 0x1_0000_0000_0000_0000u128 + (b as u128)
}

/// The counts of links (document title, link target), in order of first occurrence.
pub struct LinkCounter {
    names: NameTable,
    pairs: Vec<(usize, usize)>,
    counts: Vec<u32>,
    slots: HashMap<u128, usize>,
}

impl View for LinkCounter {
    type V = Seq<((Seq<char>, Seq<char>), nat)>;

    closed spec fn view(&self) -> Seq<((Seq<char>, Seq<char>), nat)> {
        Seq::new(
            self.pairs@.len(),
            |i: int|
                (
                    (self.names@[self.pairs@[i].0 as int], self.names@[self.pairs@[i].1 as int]),
                    self.counts@[i] as nat,
                ),
        )
    }
}

impl LinkCounter {
    pub closed spec fn wf(&self) -> bool {
        &&& self.names.wf()
        &&& self.counts@.len() == self.pairs@.len()
        &&& forall|i: int|
            0 <= i < self.pairs@.len() ==> (#[trigger] self.pairs@[i]).0 < self.names@.len()
                && self.pairs@[i].1 < self.names@.len()
        &&& forall|i: int|
            0 <= i < self.pairs@.len() ==> self.slots@.contains_key(
                pair_key((#[trigger] self.pairs@[i]).0, self.pairs@[i].1),
            ) && self.slots@[pair_key(self.pairs@[i].0, self.pairs@[i].1)] == i
        &&& forall|k: u128| #[trigger]
            self.slots@.contains_key(k) ==> self.slots@[k] < self.pairs@.len() && pair_key(
                self.pairs@[self.slots@[k] as int].0,
                self.pairs@[self.slots@[k] as int].1,
            ) == k
    }

    proof fn lemma_view_distinct(&self)
        requires
            self.wf(),
        ensures
            keys_distinct(self@),
    {
        self.names.lemma_distinct();
        assert forall|i: int, j: int| 0 <= i < j < self@.len() implies self@[i].0
            != self@[j].0 by {
            let (a, b) = self.pairs@[i];
            let (c, d) = self.pairs@[j];
            if self@[i].0 == self@[j].0 {
                assert(a == c && b == d) by {
                    if a != c {
                        assert(self.names@[a as int] != self.names@[c as int]) by {
                            if a < c {
                            } else {
                            }
                        }
                    }
                    if b != d {
                        assert(self.names@[b as int] != self.names@[d as int]) by {
                            if b < d {
                            } else {
                            }
                        }
                    }
                }
                assert(self.slots@[pair_key(a, b)] == i);
                assert(self.slots@[pair_key(c, d)] == j);
            }
        }
    }

    pub fn new() -> (c: LinkCounter)
        ensures
            c.wf(),
            c@ == Seq::<((Seq<char>, Seq<char>), nat)>::empty(),
    {
        let c = LinkCounter {
            names: NameTable::new(),
            pairs: Vec::new(),
            counts: Vec::new(),
            slots: HashMap::new(),
        };
        assert(c@ =~= Seq::<((Seq<char>, Seq<char>), nat)>::empty());
        c
    }

    /// Counts one more occurrence of the link from `title` to `target`.
    pub fn record(&mut self, title: &str, target: &str) -> (r: Result<(), CountOverflow>)
        requires
            old(self).wf(),
        ensures
            final(self).wf(),
            r is Err <==> count_in(old(self)@, (title@, target@)) == u32::MAX,
            r is Ok ==> final(self)@ == bump(old(self)@, (title@, target@)),
            r is Err ==> final(self)@ == old(self)@,
    {
        proof {
            self.lemma_view_distinct();
        }
        let ghost old_names = self.names@;
        let a = self.names.intern(title);
        let b = self.names.intern(target);
        let ghost k = (title@, target@);
        assert forall|i: int| 0 <= i < old_names.len() implies self.names@[i] == old_names[i] by {
        }
        assert(self@ =~= old(self)@);
        let key = make_pair_key(a, b);
        match self.slots.get(&key) {
            Some(slot) => {
                let i = *slot;
                let (pa, pb) = self.pairs[i];
                proof {
                    lemma_pair_key_injective(pa, pb, a, b);
                    assert(self@[i as int].0 == k);
                }
                let c = self.counts[i];
                if c == u32::MAX {
                    proof {
                        assert(has_key(self@, k));
                        let p = key_position(self@, k);
                        assert(p == i);
                    }
                    return Err(CountOverflow);
                }
                self.counts.set(i, c + 1);
                proof {
                    assert(has_key(old(self)@, k));
                    let p = key_position(old(self)@, k);
                    assert(p == i);
                    assert(self@ =~= bump(old(self)@, k));
                }
            },
            None => {
                let i = self.pairs.len();
                proof {
                    assert(!has_key(self@, k)) by {
                        if has_key(self@, k) {
                            let p = choose|p: int| 0 <= p < self@.len() && self@[p].0 == k;
                            let (pa, pb) = self.pairs@[p];
                            self.names.lemma_distinct();
                            assert(pa == a) by {
                                if pa < a {
                                } else if pa > a {
                                }
                            }
                            assert(pb == b) by {
                                if pb < b {
                                } else if pb > b {
                                }
                            }
                        }
                    }
                }
                self.pairs.push((a, b));
                self.counts.push(1);
                self.slots.insert(key, i);
                proof {
                    assert(self@ =~= bump(old(self)@, k));
                    assert forall|j: int| 0 <= j < self.pairs@.len() implies self.slots@.contains_key(
                        pair_key((#[trigger] self.pairs@[j]).0, self.pairs@[j].1),
                    ) && self.slots@[pair_key(self.pairs@[j].0, self.pairs@[j].1)] == j by {
                        if j < i {
                            let (pa, pb) = self.pairs@[j];
                            if pair_key(pa, pb) == key {
                                lemma_pair_key_injective(pa, pb, a, b);
                                assert(old(self).slots@.contains_key(pair_key(pa, pb)));
                            }
                        }
                    }
                }
            },
        }
        Ok(())
    }

    /// The number of distinct links counted.
    pub fn len(&self) -> (n: usize)
        requires
            self.wf(),
        ensures
            n == self@.len(),
    {
        self.pairs.len()
    }

    /// The counts, in the order of the entries.
    pub fn counts(&self) -> (r: &Vec<u32>)
        requires
            self.wf(),
        ensures
            r@.len() == self@.len(),
            forall|i: int| 0 <= i < r@.len() ==> #[trigger] r@[i] as nat == self@[i].1,
    {
        &self.counts
    }

    /// The `i`-th link counted and its count.
    pub fn entry(&self, i: usize) -> (r: (&String, &String, u32))
        requires
            self.wf(),
            i < self@.len(),
        ensures
            ((r.0@, r.1@), r.2 as nat) == self@[i as int],
    {
        let (a, b) = self.pairs[i];
        (self.names.name(a), self.names.name(b), self.counts[i])
    }
}


/// The links among the reports, in order.
pub open spec fn link_pairs(ev: Seq<EventView>) -> Seq<(Seq<char>, Seq<char>)>
    decreases ev.len(),
{
    if ev.len() == 0 {
        Seq::empty()
    } else {
        let rest = link_pairs(ev.drop_last());
        match ev.last() {
            EventView::Link(t, h) => rest.push((t, h)),
            EventView::Malformed(_) => rest,
        }
    }
}

/// The link targets among the reports, in order.
pub open spec fn link_targets(ev: Seq<EventView>) -> Seq<Seq<char>>
    decreases ev.len(),
{
    if ev.len() == 0 {
        Seq::empty()
    } else {
        let rest = link_targets(ev.drop_last());
        match ev.last() {
            EventView::Link(_, h) => rest.push(h),
            EventView::Malformed(_) => rest,
        }
    }
}

proof fn lemma_link_pairs_concat(a: Seq<EventView>, b: Seq<EventView>)
    ensures
        link_pairs(a + b) == link_pairs(a) + link_pairs(b),
    decreases b.len(),
{
    if b.len() == 0 {
        assert(a + b =~= a);
        assert(link_pairs(a) + link_pairs(b) =~= link_pairs(a));
    } else {
        lemma_link_pairs_concat(a, b.drop_last());
        assert((a + b).drop_last() =~= a + b.drop_last());
        assert((a + b).last() == b.last());
        match b.last() {
            EventView::Link(t, h) => {
                assert(link_pairs(a) + link_pairs(b) =~= (link_pairs(a) + link_pairs(
                    b.drop_last(),
                )).push((t, h)));
            },
            EventView::Malformed(_) => {},
        }
    }
}

proof fn lemma_link_targets_concat(a: Seq<EventView>, b: Seq<EventView>)
    ensures
        link_targets(a + b) == link_targets(a) + link_targets(b),
    decreases b.len(),
{
    if b.len() == 0 {
        assert(a + b =~= a);
        assert(link_targets(a) + link_targets(b) =~= link_targets(a));
    } else {
        lemma_link_targets_concat(a, b.drop_last());
        assert((a + b).drop_last() =~= a + b.drop_last());
        assert((a + b).last() == b.last());
        match b.last() {
            EventView::Link(_, h) => {
                assert(link_targets(a) + link_targets(b) =~= (link_targets(a) + link_targets(
                    b.drop_last(),
                )).push(h));
            },
            EventView::Malformed(_) => {},
        }
    }
}

/// Counting the reports of the scanned ranges one range after another gives the counts of
/// all their reports taken together, for links and for link targets alike.
pub proof fn lemma_count_ranges(first: Seq<EventView>, second: Seq<EventView>)
    ensures
        tally_onto(tally(link_pairs(first)), link_pairs(second)) == tally(
            link_pairs(first + second),
        ),
        tally_onto(tally(link_targets(first)), link_targets(second)) == tally(
            link_targets(first + second),
        ),
{
    lemma_link_pairs_concat(first, second);
    lemma_link_targets_concat(first, second);
    lemma_tally_split(link_pairs(first), link_pairs(second));
    lemma_tally_split(link_targets(first), link_targets(second));
}

/// Some key would be counted past `u32::MAX` when `items` are counted onto `e`.
pub open spec fn overflows<K>(e: Seq<(K, nat)>, items: Seq<K>) -> bool {
    exists|k: K| count_in(e, k) + items.to_multiset().count(k) > u32::MAX
}

proof fn lemma_link_pairs_grow(ev: Seq<EventView>, i: int, j: int)
    requires
        0 <= i <= j <= ev.len(),
    ensures
        forall|k: (Seq<char>, Seq<char>)| #[trigger]
            link_pairs(ev.take(i)).to_multiset().count(k) <= link_pairs(
                ev.take(j),
            ).to_multiset().count(k),
    decreases j - i,
{
    if i < j {
        lemma_link_pairs_grow(ev, i, j - 1);
        assert(ev.take(j).drop_last() =~= ev.take(j - 1));
        let a = link_pairs(ev.take(j - 1));
        match ev.take(j).last() {
            EventView::Link(t, h) => {
                assert(link_pairs(ev.take(j)) == a.push((t, h)));
            },
            EventView::Malformed(_) => {},
        }
    }
}

proof fn lemma_link_targets_grow(ev: Seq<EventView>, i: int, j: int)
    requires
        0 <= i <= j <= ev.len(),
    ensures
        forall|k: Seq<char>| #[trigger]
            link_targets(ev.take(i)).to_multiset().count(k) <= link_targets(
                ev.take(j),
            ).to_multiset().count(k),
    decreases j - i,
{
    if i < j {
        lemma_link_targets_grow(ev, i, j - 1);
        assert(ev.take(j).drop_last() =~= ev.take(j - 1));
        let a = link_targets(ev.take(j - 1));
        match ev.take(j).last() {
            EventView::Link(_, h) => {
                assert(link_targets(ev.take(j)) == a.push(h));
            },
            EventView::Malformed(_) => {},
        }
    }
}

impl LinkCounter {
    /// Counts the links among `events`, in order.
    pub fn record_events(&mut self, events: &Vec<ScanEvent>) -> (r: Result<(), CountOverflow>)
        requires
            old(self).wf(),
        ensures
            final(self).wf(),
            r is Ok ==> final(self)@ == tally_onto(old(self)@, link_pairs(event_views(events@))),
            r is Err <==> overflows(old(self)@, link_pairs(event_views(events@))),
    {
        let ghost ev = event_views(events@);
        let ghost start = self@;
        proof {
            self.lemma_view_distinct();
            assert(ev.take(0) =~= Seq::<EventView>::empty());
        }
        let n = events.len();
        let mut i: usize = 0;
        while i < n
            invariant
                n == events@.len(),
                ev == event_views(events@),
                ev.len() == n,
                i <= n,
                self.wf(),
                keys_distinct(start),
                start == old(self)@,
                self@ == tally_onto(start, link_pairs(ev.take(i as int))),
            decreases n - i,
        {
            assert(ev.take(i + 1).drop_last() =~= ev.take(i as int));
            assert(ev.take(i + 1).last() == ev[i as int]);
            match &events[i] {
                ScanEvent::Link(l) => {
                    let ghost k = (l.href.0@, l.href.1@);
                    proof {
                        assert(ev[i as int] == events@[i as int]@);
                        let items = link_pairs(ev.take(i as int));
                        assert(link_pairs(ev.take(i + 1)) == items.push(k));
                        assert(items.push(k).drop_last() =~= items);
                        assert(items.push(k).last() == k);
                    }
                    let r = self.record(l.href.0.as_str(), l.href.1.as_str());
                    if let Err(e) = r {
                        proof {
                            let items = link_pairs(ev.take(i as int));
                            lemma_tally_onto_counts(start, items);
                            lemma_tally_onto_counts(start, link_pairs(ev));
                            lemma_link_pairs_grow(ev, i + 1, n as int);
                            assert(ev.take(n as int) =~= ev);
                            assert(link_pairs(ev.take(i + 1)) == items.push(k));
                            assert(items.push(k).to_multiset().count(k) == items.to_multiset().count(k) + 1);
                            assert(count_in(start, k) + link_pairs(ev).to_multiset().count(k)
                                > u32::MAX);
                            assert(overflows(start, link_pairs(ev)));
                        }
                        return Err(e);
                    }
                },
                ScanEvent::Malformed(_) => {
                    assert(ev[i as int] == events@[i as int]@);
                },
            }
            i = i + 1;
        }
        proof {
            assert(ev.take(n as int) =~= ev);
            lemma_tally_onto_counts(start, link_pairs(ev));
            self.lemma_counts_bounded();
            assert(!overflows(start, link_pairs(ev))) by {
                if overflows(start, link_pairs(ev)) {
                    let k = choose|k: (Seq<char>, Seq<char>)|
                        count_in(start, k) + link_pairs(ev).to_multiset().count(k) > u32::MAX;
                    assert(count_in(self@, k) <= u32::MAX);
                }
            }
        }
        Ok(())
    }

    proof fn lemma_counts_bounded(&self)
        requires
            self.wf(),
        ensures
            forall|k: (Seq<char>, Seq<char>)| #[trigger] count_in(self@, k) <= u32::MAX,
    {
        assert forall|k: (Seq<char>, Seq<char>)| #[trigger] count_in(self@, k) <= u32::MAX by {
            if has_key(self@, k) {
                let p = key_position(self@, k);
                assert(self@[p].1 == self.counts@[p] as nat);
            }
        }
    }
}

/// The counts of link targets, in order of first occurrence.
pub struct TargetCounter {
    names: NameTable,
    counts: Vec<u32>,
}

impl View for TargetCounter {
    type V = Seq<(Seq<char>, nat)>;

    closed spec fn view(&self) -> Seq<(Seq<char>, nat)> {
        Seq::new(self.counts@.len(), |i: int| (self.names@[i], self.counts@[i] as nat))
    }
}

impl TargetCounter {
    pub closed spec fn wf(&self) -> bool {
        &&& self.names.wf()
        &&& self.counts@.len() == self.names@.len()
    }

    proof fn lemma_view_distinct(&self)
        requires
            self.wf(),
        ensures
            keys_distinct(self@),
            forall|k: Seq<char>| #[trigger] count_in(self@, k) <= u32::MAX,
            forall|k: Seq<char>| #[trigger] has_key(self@, k) <==> self.names@.contains(k),
    {
        self.names.lemma_distinct();
        assert forall|k: Seq<char>| #[trigger] count_in(self@, k) <= u32::MAX by {
            if has_key(self@, k) {
                let p = key_position(self@, k);
                assert(self@[p].1 == self.counts@[p] as nat);
            }
        }
        assert forall|k: Seq<char>| #[trigger] has_key(self@, k) <==> self.names@.contains(k) by {
            if self.names@.contains(k) {
                let p = choose|p: int| 0 <= p < self.names@.len() && self.names@[p] == k;
                assert(self@[p].0 == k);
            }
        }
    }

    pub fn new() -> (c: TargetCounter)
        ensures
            c.wf(),
            c@ == Seq::<(Seq<char>, nat)>::empty(),
    {
        let c = TargetCounter { names: NameTable::new(), counts: Vec::new() };
        assert(c@ =~= Seq::<(Seq<char>, nat)>::empty());
        c
    }

    /// Counts one more occurrence of `target`.
    pub fn record(&mut self, target: &str) -> (r: Result<(), CountOverflow>)
        requires
            old(self).wf(),
        ensures
            final(self).wf(),
            r is Err <==> count_in(old(self)@, target@) == u32::MAX,
            r is Ok ==> final(self)@ == bump(old(self)@, target@),
            r is Err ==> final(self)@ == old(self)@,
    {
        proof {
            self.lemma_view_distinct();
        }
        let i = self.names.intern(target);
        if i < self.counts.len() {
            proof {
                assert(self.names@ == old(self).names@);
                assert(self@[i as int].0 == target@);
                assert(has_key(old(self)@, target@));
                let p = key_position(old(self)@, target@);
                assert(p == i);
            }
            let c = self.counts[i];
            if c == u32::MAX {
                return Err(CountOverflow);
            }
            self.counts.set(i, c + 1);
            assert(self@ =~= bump(old(self)@, target@));
        } else {
            proof {
                assert(!old(self).names@.contains(target@));
                assert(!has_key(old(self)@, target@));
            }
            self.counts.push(1);
            assert(self@ =~= bump(old(self)@, target@));
        }
        Ok(())
    }

    /// Counts the link targets among `events`, in order.
    pub fn record_events(&mut self, events: &Vec<ScanEvent>) -> (r: Result<(), CountOverflow>)
        requires
            old(self).wf(),
        ensures
            final(self).wf(),
            r is Ok ==> final(self)@ == tally_onto(old(self)@, link_targets(event_views(events@))),
            r is Err <==> overflows(old(self)@, link_targets(event_views(events@))),
    {
        let ghost ev = event_views(events@);
        let ghost start = self@;
        proof {
            self.lemma_view_distinct();
            assert(ev.take(0) =~= Seq::<EventView>::empty());
        }
        let n = events.len();
        let mut i: usize = 0;
        while i < n
            invariant
                n == events@.len(),
                ev == event_views(events@),
                ev.len() == n,
                i <= n,
                self.wf(),
                keys_distinct(start),
                start == old(self)@,
                self@ == tally_onto(start, link_targets(ev.take(i as int))),
            decreases n - i,
        {
            assert(ev.take(i + 1).drop_last() =~= ev.take(i as int));
            assert(ev.take(i + 1).last() == ev[i as int]);
            match &events[i] {
                ScanEvent::Link(l) => {
                    let ghost k = l.href.1@;
                    proof {
                        assert(ev[i as int] == events@[i as int]@);
                        let items = link_targets(ev.take(i as int));
                        assert(link_targets(ev.take(i + 1)) == items.push(k));
                        assert(items.push(k).drop_last() =~= items);
                        assert(items.push(k).last() == k);
                    }
                    let r = self.record(l.href.1.as_str());
                    if let Err(e) = r {
                        proof {
                            let items = link_targets(ev.take(i as int));
                            lemma_tally_onto_counts(start, items);
                            lemma_tally_onto_counts(start, link_targets(ev));
                            lemma_link_targets_grow(ev, i + 1, n as int);
                            assert(ev.take(n as int) =~= ev);
                            assert(link_targets(ev.take(i + 1)) == items.push(k));
                            assert(items.push(k).to_multiset().count(k) == items.to_multiset().count(k) + 1);
                            assert(count_in(start, k) + link_targets(ev).to_multiset().count(k)
                                > u32::MAX);
                            assert(overflows(start, link_targets(ev)));
                        }
                        return Err(e);
                    }
                },
                ScanEvent::Malformed(_) => {
                    assert(ev[i as int] == events@[i as int]@);
                },
            }
            i = i + 1;
        }
        proof {
            assert(ev.take(n as int) =~= ev);
            lemma_tally_onto_counts(start, link_targets(ev));
            self.lemma_view_distinct();
            assert(!overflows(start, link_targets(ev))) by {
                if overflows(start, link_targets(ev)) {
                    let k = choose|k: Seq<char>|
                        count_in(start, k) + link_targets(ev).to_multiset().count(k) > u32::MAX;
                    assert(count_in(self@, k) <= u32::MAX);
                }
            }
        }
        Ok(())
    }

    /// The number of distinct targets counted.
    pub fn len(&self) -> (n: usize)
        requires
            self.wf(),
        ensures
            n == self@.len(),
    {
        self.counts.len()
    }

    /// The counts, in the order of the entries.
    pub fn counts(&self) -> (r: &Vec<u32>)
        requires
            self.wf(),
        ensures
            r@.len() == self@.len(),
            forall|i: int| 0 <= i < r@.len() ==> #[trigger] r@[i] as nat == self@[i].1,
    {
        &self.counts
    }

    /// The `i`-th target counted and its count.
    pub fn entry(&self, i: usize) -> (r: (&String, u32))
        requires
            self.wf(),
            i < self@.len(),
        ensures
            (r.0@, r.1 as nat) == self@[i as int],
    {
        (self.names.name(i), self.counts[i])
    }
}

/// The reports of several scanned ranges, one range after another.
pub open spec fn all_events(chunks: Seq<Vec<ScanEvent>>) -> Seq<EventView>
    decreases chunks.len(),
{
    if chunks.len() == 0 {
        Seq::empty()
    } else {
        all_events(chunks.drop_last()) + event_views(chunks.last()@)
    }
}

proof fn lemma_all_events_split(chunks: Seq<Vec<ScanEvent>>, k: int)
    requires
        0 <= k <= chunks.len(),
    ensures
        all_events(chunks) == all_events(chunks.take(k)) + all_events(chunks.skip(k)),
    decreases chunks.len(),
{
    if k == chunks.len() {
        assert(chunks.take(k) =~= chunks);
        assert(chunks.skip(k) =~= Seq::<Vec<ScanEvent>>::empty());
        assert(all_events(chunks) + Seq::<EventView>::empty() =~= all_events(chunks));
    } else {
        let init = chunks.drop_last();
        lemma_all_events_split(init, k);
        assert(init.take(k) =~= chunks.take(k));
        assert(chunks.skip(k).drop_last() =~= init.skip(k));
        assert(chunks.skip(k).last() == chunks.last());
        assert(all_events(chunks) =~= all_events(chunks.take(k)) + all_events(chunks.skip(k)));
    }
}

/// Counts the links among the reports of all scanned ranges, range after range.
pub fn count_links(chunks: &Vec<Vec<ScanEvent>>) -> (r: Result<LinkCounter, CountOverflow>)
    ensures
        r is Err <==> overflows(Seq::empty(), link_pairs(all_events(chunks@))),
        r matches Ok(c) ==> c.wf() && c@ == tally(link_pairs(all_events(chunks@))),
{
    let mut c = LinkCounter::new();
    let n = chunks.len();
    let mut k: usize = 0;
    proof {
        assert(chunks@.take(0) =~= Seq::<Vec<ScanEvent>>::empty());
        assert(c@ =~= tally(link_pairs(all_events(chunks@.take(0)))));
    }
    while k < n
        invariant
            c.wf(),
            n == chunks@.len(),
            k <= n,
            c@ == tally(link_pairs(all_events(chunks@.take(k as int)))),
        decreases n - k,
    {
        let ghost f = all_events(chunks@.take(k as int));
        let ghost ev = event_views(chunks@[k as int]@);
        proof {
            assert(chunks@.take(k + 1).drop_last() =~= chunks@.take(k as int));
            assert(chunks@.take(k + 1).last() == chunks@[k as int]);
            assert(all_events(chunks@.take(k + 1)) == f + ev);
            lemma_count_ranges(f, ev);
            lemma_link_pairs_concat(f, ev);
        }
        match c.record_events(&chunks[k]) {
            Ok(()) => {},
            Err(e) => {
                proof {
                    let key = choose|key: (Seq<char>, Seq<char>)|
                        count_in(tally(link_pairs(f)), key) + link_pairs(ev).to_multiset().count(key)
                            > u32::MAX;
                    lemma_tally_counts(link_pairs(f));
                    vstd::seq_lib::lemma_multiset_commutative(link_pairs(f), link_pairs(ev));
                    lemma_all_events_split(chunks@, k + 1);
                    let rest = all_events(chunks@.skip(k + 1));
                    lemma_link_pairs_concat(f + ev, rest);
                    vstd::seq_lib::lemma_multiset_commutative(link_pairs(f + ev), link_pairs(rest));
                    assert(count_in(Seq::<((Seq<char>, Seq<char>), nat)>::empty(), key) == 0);
                    assert(link_pairs(all_events(chunks@)).to_multiset().count(key) > u32::MAX);
                }
                return Err(e);
            },
        }
        k = k + 1;
    }
    proof {
        assert(chunks@.take(n as int) =~= chunks@);
        let items = link_pairs(all_events(chunks@));
        lemma_tally_counts(items);
        c.lemma_counts_bounded();
        if overflows(Seq::<((Seq<char>, Seq<char>), nat)>::empty(), items) {
            let key = choose|key: (Seq<char>, Seq<char>)|
                count_in(Seq::<((Seq<char>, Seq<char>), nat)>::empty(), key)
                    + items.to_multiset().count(key) > u32::MAX;
            assert(count_in(c@, key) <= u32::MAX);
        }
    }
    Ok(c)
}

/// Counts the link targets among the reports of all scanned ranges, range after range.
pub fn count_targets(chunks: &Vec<Vec<ScanEvent>>) -> (r: Result<TargetCounter, CountOverflow>)
    ensures
        r is Err <==> overflows(Seq::empty(), link_targets(all_events(chunks@))),
        r matches Ok(c) ==> c.wf() && c@ == tally(link_targets(all_events(chunks@))),
{
    let mut c = TargetCounter::new();
    let n = chunks.len();
    let mut k: usize = 0;
    proof {
        assert(chunks@.take(0) =~= Seq::<Vec<ScanEvent>>::empty());
        assert(c@ =~= tally(link_targets(all_events(chunks@.take(0)))));
    }
    while k < n
        invariant
            c.wf(),
            n == chunks@.len(),
            k <= n,
            c@ == tally(link_targets(all_events(chunks@.take(k as int)))),
        decreases n - k,
    {
        let ghost f = all_events(chunks@.take(k as int));
        let ghost ev = event_views(chunks@[k as int]@);
        proof {
            assert(chunks@.take(k + 1).drop_last() =~= chunks@.take(k as int));
            assert(chunks@.take(k + 1).last() == chunks@[k as int]);
            assert(all_events(chunks@.take(k + 1)) == f + ev);
            lemma_count_ranges(f, ev);
            lemma_link_targets_concat(f, ev);
        }
        match c.record_events(&chunks[k]) {
            Ok(()) => {},
            Err(e) => {
                proof {
                    let key = choose|key: Seq<char>|
                        count_in(tally(link_targets(f)), key) + link_targets(ev).to_multiset().count(
                            key,
                        ) > u32::MAX;
                    lemma_tally_counts(link_targets(f));
                    vstd::seq_lib::lemma_multiset_commutative(link_targets(f), link_targets(ev));
                    lemma_all_events_split(chunks@, k + 1);
                    let rest = all_events(chunks@.skip(k + 1));
                    lemma_link_targets_concat(f + ev, rest);
                    vstd::seq_lib::lemma_multiset_commutative(link_targets(f + ev), link_targets(rest));
                    assert(count_in(Seq::<(Seq<char>, nat)>::empty(), key) == 0);
                    assert(link_targets(all_events(chunks@)).to_multiset().count(key) > u32::MAX);
                }
                return Err(e);
            },
        }
        k = k + 1;
    }
    proof {
        assert(chunks@.take(n as int) =~= chunks@);
        let items = link_targets(all_events(chunks@));
        lemma_tally_counts(items);
        c.lemma_view_distinct();
        if overflows(Seq::<(Seq<char>, nat)>::empty(), items) {
            let key = choose|key: Seq<char>|
                count_in(Seq::<(Seq<char>, nat)>::empty(), key) + items.to_multiset().count(key)
                    > u32::MAX;
            assert(count_in(c@, key) <= u32::MAX);
        }
    }
    Ok(c)
}

} // verus!
