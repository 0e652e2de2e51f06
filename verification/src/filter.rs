//! Which counted links make it into the keyword network: links whose ends are date pages
//! (centuries, years, days of a month) are noise, and so are links seen fewer times than the
//! minimum weight (3 unless set otherwise).

use vstd::prelude::*;
use regex::Regex;

use crate::tally::LinkCounter;

verus! {

#[verifier::external_type_specification]
#[verifier::external_body]
pub struct ExRegex(Regex);

/// Whether `regex::Regex::new` accepts the pattern (it is valid and within the default size
/// limit).
pub uninterp spec fn regex_compiles(pattern: Seq<char>) -> bool;

/// Whether the regex compiled from `pattern` matches somewhere in `haystack`.
pub uninterp spec fn regex_is_match(pattern: Seq<char>, haystack: Seq<char>) -> bool;

/// A compiled regular expression together with the pattern it was compiled from.
pub struct Pattern {
    regex: Regex,
    source: String,
}

impl View for Pattern {
    type V = Seq<char>;

    closed spec fn view(&self) -> Seq<char> {
        self.source@
    }
}

/// `regex::Regex::new`: `Some` exactly when the pattern compiles. The result is a function of
/// the pattern alone.
#[verifier::external_body]
fn regex_new(pattern: &str) -> (r: Option<Regex>)
    ensures
        r is Some <==> regex_compiles(pattern@),
{
    Regex::new(pattern).ok()
}

/// `regex::Regex::is_match` on the regex held by `p`, which `Pattern::compile` compiled from
/// `p@` (nothing else builds a `Pattern`): whether it matches anywhere in `text`.
#[verifier::external_body]
fn regex_matches(p: &Pattern, text: &str) -> (r: bool)
    ensures
        r == regex_is_match(p@, text@),
{
    p.regex.is_match(text)
}

impl Pattern {
    /// Compiles `pattern`; `None` when the regex crate refuses it.
    pub fn compile(pattern: &str) -> (r: Option<Pattern>)
        ensures
            r is Some <==> regex_compiles(pattern@),
            r matches Some(p) ==> p@ == pattern@,
    {
        match regex_new(pattern) {
            Some(regex) => Some(Pattern { regex, source: pattern.to_owned() }),
            None => None,
        }
    }

    /// Whether the pattern matches somewhere in `text`.
    pub fn is_match(&self, text: &str) -> (r: bool)
        ensures
            r == regex_is_match(self@, text@),
    {
        regex_matches(self, text)
    }
}

/// The date-page patterns: "<n>세기" (century), "<n>년" (year), "<n>월 <n>일" (day of a month).
pub open spec fn date_patterns() -> Seq<Seq<char>> {
    seq!["(\\d+)세기"@, "(\\d+)년"@, "(\\d+)월 (\\d+)일"@]
}

/// The regex group `(\d+)`: one or more decimal digits.
pub open spec fn digits_group() -> Seq<char> {
    seq!['(', '\\', 'd', '+', ')']
}

/// The filter's patterns, character by character: one or more digits followed by `세기`
/// (a century), one or more digits followed by `년` (a year), and one or more digits, `월 `,
/// one or more digits and `일` (a day of a month). Each number is `\d+`, any number of digits.
pub proof fn lemma_date_patterns()
    ensures
        date_patterns().len() == 3,
        date_patterns()[0] == digits_group() + seq!['세', '기'],
        date_patterns()[1] == digits_group() + seq!['년'],
        date_patterns()[2] == digits_group() + seq!['월', ' '] + digits_group() + seq!['일'],
{
    reveal_strlit("(\\d+)세기");
    reveal_strlit("(\\d+)년");
    reveal_strlit("(\\d+)월 (\\d+)일");
    assert(date_patterns()[0] =~= digits_group() + seq!['세', '기']);
    assert(date_patterns()[1] =~= digits_group() + seq!['년']);
    assert(date_patterns()[2] =~= digits_group() + seq!['월', ' '] + digits_group() + seq!['일']);
}

/// A name is a date page exactly when one of the three date regexes matches somewhere in it:
/// the century, the year or the day-of-month pattern.
pub proof fn lemma_date_blocked(name: Seq<char>)
    ensures
        blocked(date_patterns(), name) <==> (regex_is_match(digits_group() + seq!['세', '기'], name)
            || regex_is_match(digits_group() + seq!['년'], name) || regex_is_match(
            digits_group() + seq!['월', ' '] + digits_group() + seq!['일'],
            name,
        )),
{
    lemma_date_patterns();
    if regex_is_match(digits_group() + seq!['세', '기'], name) {
        assert(regex_is_match(date_patterns()[0], name));
    }
    if regex_is_match(digits_group() + seq!['년'], name) {
        assert(regex_is_match(date_patterns()[1], name));
    }
    if regex_is_match(digits_group() + seq!['월', ' '] + digits_group() + seq!['일'], name) {
        assert(regex_is_match(date_patterns()[2], name));
    }
}


/// Some pattern matches somewhere in `name`.
pub open spec fn blocked(patterns: Seq<Seq<char>>, name: Seq<char>) -> bool {
    exists|i: int| 0 <= i < patterns.len() && regex_is_match(patterns[i], name)
}

/// A counted link is kept when neither end is blocked and its count reaches the minimum
/// weight.
pub open spec fn keeps(
    patterns: Seq<Seq<char>>,
    title: Seq<char>,
    target: Seq<char>,
    count: nat,
    threshold: nat,
) -> bool {
    !blocked(patterns, title) && !blocked(patterns, target) && count >= threshold
}

/// A counted link between two pages that are not date pages is kept exactly when it was
/// counted at least the minimum weight times; a link to or from a date page is never kept,
/// however often it was counted.
pub proof fn lemma_keeps_threshold(
    patterns: Seq<Seq<char>>,
    title: Seq<char>,
    target: Seq<char>,
    count: nat,
    threshold: nat,
)
    ensures
        !blocked(patterns, title) && !blocked(patterns, target) ==> (keeps(
            patterns,
            title,
            target,
            count,
            threshold,
        ) <==> threshold <= count),
        blocked(patterns, title) || blocked(patterns, target) ==> !keeps(
            patterns,
            title,
            target,
            count,
            threshold,
        ),
        keeps(patterns, title, target, count, threshold) ==> keeps(
            patterns,
            title,
            target,
            count + 1,
            threshold,
        ),
{
}

/// The date-page filter.
pub struct DateFilter {
    patterns: Vec<Pattern>,
}

impl View for DateFilter {
    type V = Seq<Seq<char>>;

    closed spec fn view(&self) -> Seq<Seq<char>> {
        self.patterns@.map_values(|p: Pattern| p@)
    }
}

impl DateFilter {
    /// Compiles the date-page patterns; `None` when the regex crate refuses one of them.
    pub fn new() -> (r: Option<DateFilter>)
        ensures
            r is Some <==> (forall|i: int|
                0 <= i < date_patterns().len() ==> regex_compiles(#[trigger] date_patterns()[i])),
            r matches Some(f) ==> f@ == date_patterns(),
    {
        let century = match Pattern::compile("(\\d+)세기") {
            Some(p) => p,
            None => {
                assert(!regex_compiles(date_patterns()[0]));
                return None;
            },
        };
        let year = match Pattern::compile("(\\d+)년") {
            Some(p) => p,
            None => {
                assert(!regex_compiles(date_patterns()[1]));
                return None;
            },
        };
        let day = match Pattern::compile("(\\d+)월 (\\d+)일") {
            Some(p) => p,
            None => {
                assert(!regex_compiles(date_patterns()[2]));
                return None;
            },
        };
        let mut patterns = Vec::new();
        patterns.push(century);
        patterns.push(year);
        patterns.push(day);
        let f = DateFilter { patterns };
        proof {
            assert(f@ =~= date_patterns());
            assert forall|i: int| 0 <= i < date_patterns().len() implies regex_compiles(
                #[trigger] date_patterns()[i],
            ) by {
                assert(f@[i] == date_patterns()[i]);
            }
        }
        Some(f)
    }

    /// Whether some date pattern matches somewhere in `name`.
    pub fn is_blocked(&self, name: &str) -> (r: bool)
        ensures
            r == blocked(self@, name@),
    {
        let n = self.patterns.len();
        let mut found = false;
        let mut i: usize = 0;
        while i < n
            invariant
                n == self.patterns@.len(),
                i <= n,
                found == exists|j: int| 0 <= j < i && regex_is_match(self@[j], name@),
            decreases n - i,
        {
            let m = self.patterns[i].is_match(name);
            proof {
                assert(self@[i as int] == self.patterns@[i as int]@);
                if m {
                    assert(regex_is_match(self@[i as int], name@));
                }
            }
            found = found || m;
            i = i + 1;
        }
        found
    }

    /// Whether the link from `title` to `target` counted `count` times is kept under the
    /// minimum weight `threshold`.
    pub fn keeps(&self, title: &str, target: &str, count: u32, threshold: u32) -> (r: bool)
        ensures
            r == keeps(self@, title@, target@, count as nat, threshold as nat),
    {
        !self.is_blocked(title) && !self.is_blocked(target) && count >= threshold
    }

    /// The counted links that are kept under the minimum weight `threshold`, as positions in
    /// `counter`, taken in the order `order` gives.
    pub fn kept(&self, counter: &LinkCounter, order: &Vec<usize>, threshold: u32) -> (r: Vec<usize>)
        requires
            counter.wf(),
            forall|i: int| 0 <= i < order@.len() ==> #[trigger] order@[i] < counter@.len(),
        ensures
            r@ == order@.filter(
                |i: usize|
                    keeps(self@, counter@[i as int].0.0, counter@[i as int].0.1, counter@[i as int].1, threshold as nat),
            ),
    {
        let ghost pred = |i: usize|
            keeps(self@, counter@[i as int].0.0, counter@[i as int].0.1, counter@[i as int].1, threshold as nat);
        let mut out: Vec<usize> = Vec::new();
        let n = order.len();
        let mut k: usize = 0;
        while k < n
            invariant
                n == order@.len(),
                k <= n,
                counter.wf(),
                forall|i: int| 0 <= i < order@.len() ==> #[trigger] order@[i] < counter@.len(),
                pred == (|i: usize|
                    keeps(self@, counter@[i as int].0.0, counter@[i as int].0.1, counter@[i as int].1, threshold as nat)),
                out@ == order@.take(k as int).filter(pred),
            decreases n - k,
        {
            let i = order[k];
            let (title, target, count) = counter.entry(i);
            let keep = self.keeps(title.as_str(), target.as_str(), count, threshold);
            proof {
                assert(order@.take(k + 1) =~= order@.take(k as int).push(i));
                order@.take(k as int).lemma_filter_push(i, pred);
                assert(title@ == counter@[i as int].0.0);
                assert(target@ == counter@[i as int].0.1);
                assert(count as nat == counter@[i as int].1);
                assert(keep == pred(i));
            }
            if keep {
                out.push(i);
            }
            k = k + 1;
        }
        proof {
            assert(order@.take(n as int) =~= order@);
        }
        out
    }
}

} // verus!
