//! Byte-level text helpers shared by the scanner and the graph code.

use vstd::prelude::*;
use vstd::string::StringSliceAdditionalSpecFns;
use vstd::utf8::*;

verus! {

broadcast use vstd::utf8::group_utf8_lib;

/// `needle` occurs in `hay` starting at byte `i`.
pub open spec fn occurs_at(hay: Seq<u8>, needle: Seq<u8>, i: int) -> bool {
    &&& 0 <= i
    &&& i + needle.len() <= hay.len()
    &&& hay.subrange(i, i + needle.len()) == needle
}

/// The first byte index at or after `i` where `needle` occurs in `hay`, if any.
pub open spec fn find_from(hay: Seq<u8>, needle: Seq<u8>, i: int) -> Option<int>
    decreases hay.len() + 1 - i,
{
    if i < 0 || i + needle.len() > hay.len() {
        None
    } else if occurs_at(hay, needle, i) {
        Some(i)
    } else {
        find_from(hay, needle, i + 1)
    }
}

/// `hay` cut just before the first occurrence of `needle`; `hay` itself when there is none.
pub open spec fn cut_before(hay: Seq<u8>, needle: Seq<u8>) -> Seq<u8> {
    match find_from(hay, needle, 0) {
        Some(i) => hay.subrange(0, i),
        None => hay,
    }
}

/// `hay` begins with `prefix`.
pub open spec fn has_prefix(hay: Seq<u8>, prefix: Seq<u8>) -> bool {
    prefix.len() <= hay.len() && hay.subrange(0, prefix.len() as int) == prefix
}

/// `find_from` finds the least occurrence at or after `i`, and finds none only when there is none.
pub proof fn lemma_find_from(hay: Seq<u8>, needle: Seq<u8>, i: int)
    requires
        0 <= i,
    ensures
        match find_from(hay, needle, i) {
            Some(k) => i <= k && occurs_at(hay, needle, k) && forall|j: int|
                i <= j < k ==> !occurs_at(hay, needle, j),
            None => forall|j: int| i <= j ==> !occurs_at(hay, needle, j),
        },
    decreases hay.len() + 1 - i,
{
    if i + needle.len() > hay.len() {
    } else if occurs_at(hay, needle, i) {
    } else {
        lemma_find_from(hay, needle, i + 1);
    }
}

/// Compares the bytes of `a` starting at `i` with all of `b`.
pub fn bytes_match_at(a: &[u8], i: usize, b: &[u8]) -> (r: bool)
    requires
        i + b@.len() <= a@.len(),
    ensures
        r == (a@.subrange(i as int, i + b@.len()) == b@),
{
    let n = b.len();
    let alen = a.len();
    let mut k: usize = 0;
    while k < n
        invariant
            n == b@.len(),
            alen == a@.len(),
            i + n <= a@.len(),
            k <= n,
            forall|j: int| 0 <= j < k ==> a@[i + j] == b@[j],
        decreases n - k,
    {
        if a[i + k] != b[k] {
            assert(a@.subrange(i as int, i + n)[k as int] != b@[k as int]);
            return false;
        }
        k = k + 1;
    }
    assert(a@.subrange(i as int, i + n) =~= b@);
    true
}

/// Whether `hay` begins with `prefix`, compared byte by byte as `str::starts_with` does.
pub fn starts_with_bytes(hay: &[u8], prefix: &[u8]) -> (r: bool)
    ensures
        r == has_prefix(hay@, prefix@),
{
    if prefix.len() > hay.len() {
        false
    } else {
        bytes_match_at(hay, 0, prefix)
    }
}

/// The byte index of the first occurrence of `needle` in `hay`, as `str::find` gives it.
pub fn find_bytes(hay: &[u8], needle: &[u8]) -> (r: Option<usize>)
    ensures
        r matches Some(k) ==> find_from(hay@, needle@, 0) == Some(k as int),
        r is None ==> find_from(hay@, needle@, 0) is None,
{
    let n = hay.len();
    let m = needle.len();
    if m > n {
        return None;
    }
    if m == 0 {
        assert(hay@.subrange(0, 0) =~= needle@);
        return Some(0);
    }
    let mut i: usize = 0;
    while i <= n - m
        invariant
            n == hay@.len(),
            m == needle@.len(),
            1 <= m <= n,
            i <= n - m + 1,
            find_from(hay@, needle@, 0) == find_from(hay@, needle@, i as int),
        decreases n - m + 1 - i,
    {
        if bytes_match_at(hay, i, needle) {
            return Some(i);
        }
        i = i + 1;
    }
    None
}

/// The part of `s` before the first occurrence of `p`, or all of `s` when `p` does not occur.
pub fn remove_suffix<'a>(s: &'a str, p: &str) -> (r: &'a str)
    ensures
        r.spec_bytes() == cut_before(s.spec_bytes(), p.spec_bytes()),
{
    let hay = s.as_bytes();
    let needle = p.as_bytes();
    match find_bytes(hay, needle) {
        Some(index) => {
            proof {
                lemma_find_from(hay@, needle@, 0);
                let sb = s.spec_bytes();
                let pb = p.spec_bytes();
                assert(valid_utf8(sb));
                assert(valid_utf8(pb));
                is_char_boundary_start_end_of_seq(sb);
                if index as int == sb.len() {
                } else if pb.len() == 0 {
                    // the empty pattern is found at 0
                    assert(sb.subrange(0, 0) =~= pb);
                    assert(occurs_at(sb, pb, 0));
                } else {
                    is_char_boundary_start_end_of_seq(pb);
                    is_char_boundary_iff_not_is_continuation_byte(pb, 0);
                    is_char_boundary_iff_not_is_continuation_byte(sb, index as int);
                    assert(pb[0] == sb[index as int]) by {
                        assert(sb.subrange(index as int, index + pb.len())[0] == sb[index as int]);
                    }
                    assert(is_char_boundary(pb, 0));
                    assert(!is_continuation_byte(pb[0]));
                }
            }
            let (head, _) = s.split_at(index);
            head
        },
        None => s,
    }
}

/// The position of the first character of `c` that is `x` or `y`; the length of `c` when
/// there is none.
pub open spec fn first_either(c: Seq<char>, x: char, y: char) -> int
    decreases c.len(),
{
    if c.len() == 0 {
        0
    } else if c[0] == x || c[0] == y {
        0
    } else {
        1 + first_either(c.drop_first(), x, y)
    }
}

pub proof fn lemma_first_either(c: Seq<char>, x: char, y: char)
    ensures
        0 <= first_either(c, x, y) <= c.len(),
        forall|j: int| 0 <= j < first_either(c, x, y) ==> c[j] != x && c[j] != y,
        first_either(c, x, y) < c.len() ==> (c[first_either(c, x, y)] == x || c[first_either(
            c,
            x,
            y,
        )] == y),
    decreases c.len(),
{
    if c.len() > 0 && c[0] != x && c[0] != y {
        lemma_first_either(c.drop_first(), x, y);
        assert forall|j: int| 0 <= j < first_either(c, x, y) implies c[j] != x && c[j] != y by {
            if j > 0 {
                assert(c[j] == c.drop_first()[j - 1]);
            }
        }
    }
}

/// Any position with the properties of `first_either` is `first_either`.
proof fn lemma_first_either_unique(c: Seq<char>, x: char, y: char, r: int)
    requires
        0 <= r <= c.len(),
        forall|j: int| 0 <= j < r ==> c[j] != x && c[j] != y,
        r < c.len() ==> (c[r] == x || c[r] == y),
    ensures
        r == first_either(c, x, y),
{
    lemma_first_either(c, x, y);
    let f = first_either(c, x, y);
    if r < f {
        assert(c[r] != x && c[r] != y);
    } else if f < r {
        assert(c[f] != x && c[f] != y);
    }
}

pub proof fn lemma_encode_concat(a: Seq<char>, b: Seq<char>)
    ensures
        encode_utf8(a + b) == encode_utf8(a) + encode_utf8(b),
    decreases a.len(),
{
    if a.len() == 0 {
        assert(a + b =~= b);
        assert(encode_utf8(a) + encode_utf8(b) =~= encode_utf8(b));
    } else {
        lemma_encode_concat(a.drop_first(), b);
        assert((a + b).drop_first() =~= a.drop_first() + b);
        assert((a + b)[0] == a[0]);
        assert(encode_utf8(a + b) =~= encode_utf8(a) + encode_utf8(b));
    }
}

/// The encoding of a longer prefix is longer.
proof fn lemma_encode_prefix_longer(c: Seq<char>, j: int, i: int)
    requires
        0 <= j < i <= c.len(),
    ensures
        encode_utf8(c.take(j)).len() < encode_utf8(c.take(i)).len(),
{
    let mid = c.subrange(j, i);
    assert(c.take(i) =~= c.take(j) + mid);
    lemma_encode_concat(c.take(j), mid);
    assert(encode_utf8(mid).len() >= 1) by {
        assert(encode_utf8(mid) == encode_scalar(mid[0] as u32) + encode_utf8(mid.drop_first()));
    }
}

/// Where character `c[j]` is `x`, the encoding of `c` holds the encoding of `x` at the byte
/// position where `c[j]` starts.
proof fn lemma_encoded_char_at(c: Seq<char>, j: int, x: char)
    requires
        0 <= j < c.len(),
        c[j] == x,
    ensures
        occurs_at(encode_utf8(c), encode_utf8(seq![x]), encode_utf8(c.take(j)).len() as int),
{
    let rest = c.skip(j);
    assert(c =~= c.take(j) + rest);
    lemma_encode_concat(c.take(j), rest);
    assert(rest =~= seq![x] + rest.drop_first());
    lemma_encode_concat(seq![x], rest.drop_first());
    let hay = encode_utf8(c);
    let n = encode_utf8(seq![x]);
    let k = encode_utf8(c.take(j)).len() as int;
    assert(hay.subrange(k, k + n.len()) =~= n);
}

/// An occurrence of the encoding of character `x` in the encoding of `c` starts where some
/// character of `c` that is `x` starts.
proof fn lemma_occurrence_is_char(c: Seq<char>, x: char, k: int)
    requires
        occurs_at(encode_utf8(c), encode_utf8(seq![x]), k),
    ensures
        exists|i: int|
            0 <= i < c.len() && c[i] == x && k == encode_utf8(c.take(i)).len() && encode_utf8(
                c,
            ).subrange(0, k) == encode_utf8(c.take(i)),
{
    let hay = encode_utf8(c);
    let needle = encode_utf8(seq![x]);
    encode_utf8_first_scalar(seq![x]);
    assert(seq![x].drop_first() =~= Seq::<char>::empty());
    assert(needle == encode_scalar(x as u32) + encode_utf8(Seq::<char>::empty()));
    let n = needle.len() as int;
    assert(n >= 1);
    assert(n == length_of_first_scalar(needle));
    // the occurrence starts at a character boundary
    is_char_boundary_start_end_of_seq(needle);
    is_char_boundary_iff_not_is_continuation_byte(needle, 0);
    assert(hay[k] == needle[0]) by {
        assert(hay.subrange(k, k + n)[0] == hay[k]);
    }
    is_char_boundary_iff_not_is_continuation_byte(hay, k);
    assert(is_char_boundary(hay, k));
    decode_utf8_split(hay, k);
    valid_utf8_split(hay, k);
    let head = hay.subrange(0, k);
    let t = hay.subrange(k, hay.len() as int);
    let i = decode_utf8(head).len() as int;
    assert(c == decode_utf8(head) + decode_utf8(t));
    assert(c.take(i) =~= decode_utf8(head));
    assert(encode_utf8(c.take(i)) == head);
    // the character starting there is `x`
    assert forall|m: int| 0 <= m < n implies t[m] == needle[m] by {
        assert(hay.subrange(k, k + n)[m] == hay[k + m]);
    }
    assert(t.len() > 0);
    assert(decode_first_scalar(t) == decode_first_scalar(needle)) by {
        if n >= 2 {
            assert(t[1] == needle[1]);
        }
        if n >= 3 {
            assert(t[2] == needle[2]);
        }
        if n >= 4 {
            assert(t[3] == needle[3]);
        }
        assert(t[0] == needle[0]);
    }
    char_u32_cast(x, x as u32);
    assert(decode_utf8(t)[0] == decode_first_scalar(t) as char);
    assert(c[i] == decode_utf8(t)[0]);
}

/// Cutting the encoding of `c` before the first occurrence of the encoding of a character
/// `x` leaves the encoding of the characters before the first `x`.
pub proof fn lemma_cut_at_char(c: Seq<char>, x: char)
    ensures
        cut_before(encode_utf8(c), encode_utf8(seq![x])) == encode_utf8(c.take(first_either(c, x, x))),
{
    let hay = encode_utf8(c);
    let needle = encode_utf8(seq![x]);
    lemma_find_from(hay, needle, 0);
    lemma_first_either(c, x, x);
    match find_from(hay, needle, 0) {
        Some(k) => {
            lemma_occurrence_is_char(c, x, k);
            let i = choose|i: int|
                0 <= i < c.len() && c[i] == x && k == encode_utf8(c.take(i)).len() && hay.subrange(
                    0,
                    k,
                ) == encode_utf8(c.take(i));
            assert forall|j: int| 0 <= j < i implies c[j] != x && c[j] != x by {
                if c[j] == x {
                    lemma_encoded_char_at(c, j, x);
                    lemma_encode_prefix_longer(c, j, i);
                }
            }
            lemma_first_either_unique(c, x, x, i);
        },
        None => {
            assert forall|j: int| 0 <= j < c.len() implies c[j] != x && c[j] != x by {
                if c[j] == x {
                    lemma_encoded_char_at(c, j, x);
                }
            }
            lemma_first_either_unique(c, x, x, c.len() as int);
            assert(c.take(c.len() as int) =~= c);
        },
    }
}

/// Cutting text before the first character `p` and then before the first character `q` gives
/// the same text as cutting in the other order: the text before the first character that is
/// `p` or `q`. With `s.spec_bytes() == encode_utf8(s@)`, this is `remove_suffix` applied twice,
/// with one-character patterns, in either order.
pub proof fn lemma_remove_suffix_two_cuts(s: Seq<char>, p: char, q: char)
    ensures
        cut_before(cut_before(encode_utf8(s), encode_utf8(seq![p])), encode_utf8(seq![q]))
            == encode_utf8(s.take(first_either(s, p, q))),
        cut_before(cut_before(encode_utf8(s), encode_utf8(seq![q])), encode_utf8(seq![p]))
            == encode_utf8(s.take(first_either(s, p, q))),
{
    lemma_cuts_in_turn(s, p, q);
    lemma_cuts_in_turn(s, q, p);
    lemma_first_either(s, p, q);
    lemma_first_either(s, q, p);
    lemma_first_either_unique(s, p, q, first_either(s, q, p));
}

proof fn lemma_cuts_in_turn(s: Seq<char>, p: char, q: char)
    ensures
        cut_before(cut_before(encode_utf8(s), encode_utf8(seq![p])), encode_utf8(seq![q]))
            == encode_utf8(s.take(first_either(s, p, q))),
{
    let ip = first_either(s, p, p);
    let a = s.take(ip);
    lemma_first_either(s, p, p);
    lemma_cut_at_char(s, p);
    lemma_cut_at_char(a, q);
    let r = first_either(a, q, q);
    lemma_first_either(a, q, q);
    assert(a.take(r) =~= s.take(r));
    assert forall|j: int| 0 <= j < r implies s[j] != p && s[j] != q by {
        assert(a[j] == s[j]);
    }
    if r < ip {
        assert(a[r] == s[r]);
    }
    lemma_first_either_unique(s, p, q, r);
}

/// `std::str::from_utf8`, which std documents to succeed exactly on valid UTF-8 and then to
/// view the same bytes as a string: `Some` exactly when the bytes are valid UTF-8, holding
/// a string whose bytes are the input.
#[verifier::external_body]
pub(crate) fn utf8_str(bytes: &[u8]) -> (res: Option<&str>)
    ensures
        res is Some <==> valid_utf8(bytes@),
        res matches Some(s) ==> s.spec_bytes() == bytes@,
{
    std::str::from_utf8(bytes).ok()
}

/// `String::push`: appends one character.
#[verifier::external_body]
pub(crate) fn push_char(s: &mut String, c: char)
    ensures
        final(s)@ == old(s)@.push(c),
{
    s.push(c)
}

/// The decimal digit character for `d`.
pub open spec fn digit_char(d: nat) -> char {
    ((48 + d) as u8) as char
}

/// The decimal numeral of `n`, without leading zeros, as `Display` writes integers.
pub open spec fn decimal(n: nat) -> Seq<char>
    decreases n,
{
    if n < 10 {
        seq![digit_char(n)]
    } else {
        decimal(n / 10).push(digit_char(n % 10))
    }
}

/// Appends the decimal numeral of `n` to `s`.
pub fn push_decimal(s: &mut String, n: u64)
    ensures
        final(s)@ == old(s)@ + decimal(n as nat),
    decreases n,
{
    if n >= 10 {
        push_decimal(s, n / 10);
    }
    let d = (n % 10) as u8;
    push_char(s, (48u8 + d) as char);
    assert(s@ =~= old(s)@ + decimal(n as nat)) by {
        if n >= 10 {
            assert(decimal(n as nat) == decimal((n / 10) as nat).push(digit_char((n % 10) as nat)));
        }
    }
}

/// Whether two strings are equal, compared byte by byte.
pub fn same_text(a: &str, b: &str) -> (r: bool)
    ensures
        r == (a@ == b@),
{
    let x = a.as_bytes();
    let y = b.as_bytes();
    let r = x.len() == y.len() && bytes_match_at(x, 0, y);
    proof {
        if r {
            assert(x@ =~= x@.subrange(0, y@.len() as int));
            assert(a.spec_bytes() == b.spec_bytes());
            assert(decode_utf8(encode_utf8(a@)) == a@);
            assert(decode_utf8(encode_utf8(b@)) == b@);
        } else if a@ == b@ {
            assert(x@ == y@);
            assert(x@.subrange(0, y@.len() as int) =~= y@);
        }
    }
    r
}

/// The value of a string of decimal digit bytes.
pub open spec fn digits_value(d: Seq<u8>) -> nat
    decreases d.len(),
{
    if d.len() == 0 {
        0
    } else {
        digits_value(d.drop_last()) * 10 + (d.last() - 48) as nat
    }
}

pub open spec fn is_digit(b: u8) -> bool {
    48 <= b <= 57
}

/// The digits of an unsigned numeral: all but a leading `+`, if there is one.
pub open spec fn unsigned_digits(b: Seq<u8>) -> Seq<u8> {
    if b.len() > 0 && b[0] == 43u8 {
        b.drop_first()
    } else {
        b
    }
}

/// What `str::parse::<u32>` gives for text with bytes `b`: an optional `+`, then one or more
/// decimal digits with a value that fits in a `u32`.
pub open spec fn u32_from_text(b: Seq<u8>) -> Option<u32> {
    let d = unsigned_digits(b);
    if d.len() > 0 && (forall|i: int| 0 <= i < d.len() ==> is_digit(#[trigger] d[i]))
        && digits_value(d) <= u32::MAX {
        Some(digits_value(d) as u32)
    } else {
        None
    }
}

proof fn lemma_digits_grow(d: Seq<u8>, k: int)
    requires
        0 <= k <= d.len(),
    ensures
        digits_value(d.take(k)) <= digits_value(d),
    decreases d.len() - k,
{
    if k < d.len() {
        lemma_digits_grow(d, k + 1);
        assert(d.take(k + 1).drop_last() =~= d.take(k));
    } else {
        assert(d.take(k) =~= d);
    }
}

proof fn lemma_digit_char(d: nat)
    requires
        d < 10,
    ensures
        digit_char(d) as u8 == 48 + d,
        '\0' <= digit_char(d) <= '\u{7f}',
{
    let x: u8 = (48 + d) as u8;
    assert(x == 48 + d);
    assert(digit_char(d) == x as char);
}

/// Each character of a decimal numeral is a digit character.
pub open spec fn all_digit_chars(c: Seq<char>) -> bool {
    forall|i: int| 0 <= i < c.len() ==> exists|d: nat| d < 10 && #[trigger] c[i] == digit_char(d)
}

proof fn lemma_decimal_ascii(n: nat)
    ensures
        decimal(n).len() >= 1,
        all_digit_chars(decimal(n)),
    decreases n,
{
    if n >= 10 {
        lemma_decimal_ascii(n / 10);
        let d = decimal(n / 10);
        assert forall|i: int| 0 <= i < decimal(n).len() implies exists|k: nat|
            k < 10 && #[trigger] decimal(n)[i] == digit_char(k) by {
            if i < d.len() {
                assert(decimal(n)[i] == d[i]);
            } else {
                assert(decimal(n)[i] == digit_char(n % 10));
            }
        }
    } else {
        assert(decimal(n)[0] == digit_char(n));
    }
}

proof fn lemma_decimal_value(n: nat, b: Seq<u8>)
    requires
        b.len() == decimal(n).len(),
        forall|i: int| 0 <= i < b.len() ==> #[trigger] b[i] == decimal(n)[i] as u8,
    ensures
        digits_value(b) == n,
    decreases n,
{
    lemma_decimal_ascii(n);
    if n < 10 {
        assert(decimal(n) == seq![digit_char(n)]);
        assert(b.drop_last() =~= Seq::<u8>::empty());
        lemma_digit_char(n);
        assert(b.last() == decimal(n)[0] as u8);
        assert(b.last() == 48 + n);
        assert(digits_value(b.drop_last()) == 0);
        assert(digits_value(b) == digits_value(b.drop_last()) * 10 + (b.last() - 48) as nat);
    } else {
        let d = decimal(n / 10);
        lemma_decimal_ascii(n / 10);
        assert forall|i: int| 0 <= i < b.drop_last().len() implies #[trigger] b.drop_last()[i]
            == d[i] as u8 by {
            assert(decimal(n)[i] == d[i]);
        }
        lemma_decimal_value(n / 10, b.drop_last());
        lemma_digit_char(n % 10);
        assert(decimal(n)[d.len() as int] == digit_char(n % 10));
        assert(b.last() == decimal(n)[d.len() as int] as u8);
        assert(b.last() == 48 + n % 10);
        assert(digits_value(b) == digits_value(b.drop_last()) * 10 + (b.last() - 48) as nat);
        assert((n / 10) * 10 + n % 10 == n) by (nonlinear_arith);
    }
}

/// `d` is a numeral for `n`: one or more decimal digits whose value is `n`.
pub open spec fn numeral_of(d: Seq<char>, n: nat) -> bool {
    &&& encode_utf8(d).len() >= 1
    &&& forall|i: int| 0 <= i < encode_utf8(d).len() ==> is_digit(#[trigger] encode_utf8(d)[i])
    &&& digits_value(encode_utf8(d)) == n
}

/// The decimal numeral of any number is a numeral for it.
pub proof fn lemma_decimal_numeral(n: nat)
    ensures
        numeral_of(decimal(n), n),
{
    let c = decimal(n);
    lemma_decimal_ascii(n);
    assert forall|i: int| 0 <= i < c.len() implies '\0' <= #[trigger] c[i] <= '\u{7f}' by {
        let k = choose|k: nat| k < 10 && c[i] == digit_char(k);
        lemma_digit_char(k);
    }
    assert(is_ascii_chars(c));
    let b = encode_utf8(c);
    is_ascii_chars_encode_utf8(c);
    assert forall|i: int| 0 <= i < b.len() implies is_digit(#[trigger] b[i]) by {
        assert(b[i] == c[i] as u8);
        let k = choose|k: nat| k < 10 && c[i] == digit_char(k);
        lemma_digit_char(k);
    }
    lemma_decimal_value(n, b);
}

/// A weight written in decimal reads back as the same weight: `parse_u32` of the text that
/// `push_decimal` writes for `n` gives `n`.
pub proof fn lemma_decimal_reads_back(n: u32)
    ensures
        u32_from_text(encode_utf8(decimal(n as nat))) == Some(n),
{
    let c = decimal(n as nat);
    lemma_decimal_ascii(n as nat);
    assert forall|i: int| 0 <= i < c.len() implies '\0' <= #[trigger] c[i] <= '\u{7f}' by {
        let k = choose|k: nat| k < 10 && c[i] == digit_char(k);
        lemma_digit_char(k);
    }
    assert(is_ascii_chars(c));
    let b = encode_utf8(c);
    is_ascii_chars_encode_utf8(c);
    assert forall|i: int| 0 <= i < b.len() implies is_digit(#[trigger] b[i]) by {
        assert(b[i] == c[i] as u8);
        let k = choose|k: nat| k < 10 && c[i] == digit_char(k);
        lemma_digit_char(k);
    }
    assert(unsigned_digits(b) == b) by {
        assert(is_digit(b[0]));
    }
    lemma_decimal_value(n as nat, b);
}

/// Parses a decimal `u32` as `str::parse::<u32>` does.
pub fn parse_u32(s: &str) -> (r: Option<u32>)
    ensures
        r == u32_from_text(s.spec_bytes()),
{
    let b = s.as_bytes();
    let n = b.len();
    let start: usize = if n > 0 && b[0] == 43 {
        1
    } else {
        0
    };
    let ghost d = unsigned_digits(b@);
    assert(d =~= b@.skip(start as int));
    if start == n {
        assert(d.len() == 0);
        return None;
    }
    let mut acc: u64 = 0;
    let mut i: usize = start;
    while i < n
        invariant
            n == b@.len(),
            start <= i <= n,
            d == b@.skip(start as int),
            d == unsigned_digits(b@),
            b@ == s.spec_bytes(),
            acc == digits_value(d.take(i - start)),
            acc <= u32::MAX,
            forall|j: int| 0 <= j < i - start ==> is_digit(#[trigger] d[j]),
        decreases n - i,
    {
        let c = b[i];
        assert(d[i - start] == c);
        if c < 48 || c > 57 {
            assert(!is_digit(d[i - start]));
            return None;
        }
        assert(d.take(i - start + 1).drop_last() =~= d.take(i - start));
        acc = acc * 10 + (c - 48) as u64;
        if acc > 0xffff_ffff {
            proof {
                lemma_digits_grow(d, i - start + 1);
            }
            return None;
        }
        i = i + 1;
    }
    assert(d.take(n - start) =~= d);
    Some(acc as u32)
}

} // verus!
