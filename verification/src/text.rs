//! Character-level helpers shared by the parsers: whitespace trimming,
//! searching, prefixes and unsigned decimal numbers.
use vstd::prelude::*;

verus! {

/// Whether `c` carries the Unicode `White_Space` property.
pub uninterp spec fn is_white(c: char) -> bool;

/// Calls `char::is_whitespace`. Its documentation says that the answer is the
/// Unicode `White_Space` property of the character (named `is_white` here) and
/// shows that the space character is whitespace; nothing else is claimed.
#[verifier::external_body]
pub(crate) fn char_is_whitespace(c: char) -> (b: bool)
    ensures
        b == is_white(c),
        c == ' ' ==> b,
{
    c.is_whitespace()
}

/// Calls `String::from_iter` on the characters; as its documentation says,
/// the string holds exactly those characters, in order.
#[verifier::external_body]
pub(crate) fn string_from_chars(cs: &[char]) -> (s: String)
    ensures
        s@ == cs@,
{
    String::from_iter(cs)
}

/// Collects the characters of a string slice.
pub fn chars_of(s: &str) -> (v: Vec<char>)
    ensures
        v@ == s@,
{
    let mut v: Vec<char> = Vec::new();
    for c in it: s.chars()
        invariant
            it.seq() == s@,
            v@ == it.seq().take(it.index() as int),
    {
        v.push(c);
    }
    v
}

// ---------------------------------------------------------------- trimming

/// `s` without its leading whitespace.
pub open spec fn trim_start(s: Seq<char>) -> Seq<char>
    decreases s.len(),
{
    if s.len() > 0 && is_white(s[0]) {
        trim_start(s.drop_first())
    } else {
        s
    }
}

/// `s` without its trailing whitespace.
pub open spec fn trim_end(s: Seq<char>) -> Seq<char>
    decreases s.len(),
{
    if s.len() > 0 && is_white(s.last()) {
        trim_end(s.drop_last())
    } else {
        s
    }
}

/// `s` without leading and trailing whitespace, as `str::trim` gives it.
pub open spec fn trim(s: Seq<char>) -> Seq<char> {
    trim_end(trim_start(s))
}

/// Trims whitespace from both ends of a character slice.
pub fn trim_chars(s: &[char]) -> (r: &[char])
    ensures
        r@ == trim(s@),
{
    let mut lo: usize = 0;
    assert(s@.skip(0) =~= s@);
    while lo < s.len() && char_is_whitespace(s[lo])
        invariant
            lo <= s@.len(),
            trim_start(s@) == trim_start(s@.skip(lo as int)),
        decreases s@.len() - lo,
    {
        assert(s@.skip(lo as int).drop_first() =~= s@.skip(lo + 1));
        lo = lo + 1;
    }
    let mut hi: usize = s.len();
    assert(trim_start(s@) == s@.subrange(lo as int, hi as int)) by {
        assert(s@.skip(lo as int) =~= s@.subrange(lo as int, hi as int));
    }
    while hi > lo && char_is_whitespace(s[hi - 1])
        invariant
            lo <= hi <= s@.len(),
            trim(s@) == trim_end(s@.subrange(lo as int, hi as int)),
        decreases hi,
    {
        assert(s@.subrange(lo as int, hi as int).drop_last() =~= s@.subrange(lo as int, hi - 1));
        hi = hi - 1;
    }
    &s[lo..hi]
}

// --------------------------------------------------------------- searching

/// Index of the first occurrence of `c` in `s`.
pub open spec fn find(s: Seq<char>, c: char) -> Option<int>
    decreases s.len(),
{
    if s.len() == 0 {
        None
    } else if s[0] == c {
        Some(0)
    } else {
        match find(s.drop_first(), c) {
            Some(i) => Some(i + 1),
            None => None,
        }
    }
}

/// What `find` answers, in terms of indices.
pub proof fn lemma_find(s: Seq<char>, c: char)
    ensures
        match find(s, c) {
            Some(i) => 0 <= i < s.len() && s[i] == c && forall|j: int| 0 <= j < i ==> s[j] != c,
            None => forall|j: int| 0 <= j < s.len() ==> s[j] != c,
        },
    decreases s.len(),
{
    if s.len() > 0 && s[0] != c {
        lemma_find(s.drop_first(), c);
        assert forall|j: int| 0 < j < s.len() implies s[j] == s.drop_first()[j - 1] by {}
    }
}

/// `find` is determined by the first index that holds `c`.
pub proof fn lemma_find_at(s: Seq<char>, c: char, i: int)
    requires
        0 <= i <= s.len(),
        forall|j: int| 0 <= j < i ==> s[j] != c,
    ensures
        i < s.len() && s[i] == c ==> find(s, c) == Some(i),
        i == s.len() ==> find(s, c) is None,
{
    lemma_find(s, c);
}

/// Position of the first `c` in `s`.
pub fn find_char(s: &[char], c: char) -> (r: Option<usize>)
    ensures
        match r {
            Some(i) => find(s@, c) == Some(i as int),
            None => find(s@, c) is None,
        },
{
    let mut i: usize = 0;
    while i < s.len()
        invariant
            i <= s@.len(),
            forall|j: int| 0 <= j < i ==> s@[j] != c,
        decreases s@.len() - i,
    {
        if s[i] == c {
            proof { lemma_find_at(s@, c, i as int); }
            return Some(i);
        }
        i = i + 1;
    }
    proof { lemma_find_at(s@, c, i as int); }
    None
}

/// Whether `s` begins with `prefix`.
pub open spec fn starts_with(s: Seq<char>, prefix: Seq<char>) -> bool {
    prefix.len() <= s.len() && s.take(prefix.len() as int) == prefix
}

/// Tests whether `s` begins with `prefix`.
pub fn has_prefix(s: &[char], prefix: &[char]) -> (b: bool)
    ensures
        b == starts_with(s@, prefix@),
{
    if prefix.len() > s.len() {
        return false;
    }
    let mut i: usize = 0;
    while i < prefix.len()
        invariant
            prefix@.len() <= s@.len(),
            i <= prefix@.len(),
            forall|j: int| 0 <= j < i ==> s@[j] == prefix@[j],
        decreases prefix@.len() - i,
    {
        if s[i] != prefix[i] {
            assert(s@.take(prefix@.len() as int)[i as int] != prefix@[i as int]);
            return false;
        }
        i = i + 1;
    }
    assert(s@.take(prefix@.len() as int) =~= prefix@);
    true
}

// ---------------------------------------------------------- decimal numbers

/// An ASCII decimal digit.
pub open spec fn is_digit(c: char) -> bool {
    '0' <= c && c <= '9'
}

/// The value of an ASCII decimal digit.
pub open spec fn digit_value(c: char) -> int {
    (c as int) - ('0' as int)
}

/// Every character of `s` is an ASCII decimal digit.
pub open spec fn all_digits(s: Seq<char>) -> bool {
    forall|i: int| 0 <= i < s.len() ==> is_digit(#[trigger] s[i])
}

/// The number that a string of decimal digits denotes.
pub open spec fn digits_value(s: Seq<char>) -> int
    decreases s.len(),
{
    if s.len() == 0 {
        0
    } else {
        digits_value(s.drop_last()) * 10 + digit_value(s.last())
    }
}

/// The digits of an unsigned number: a leading `+` is allowed and dropped.
pub open spec fn unsigned_digits(s: Seq<char>) -> Seq<char> {
    if s.len() > 0 && s[0] == '+' {
        s.drop_first()
    } else {
        s
    }
}

/// What `<u64 as FromStr>::from_str` accepts: an optional `+`, then at least
/// one ASCII digit, denoting a value that fits in `u64`.
pub open spec fn parse_u64(s: Seq<char>) -> Option<int> {
    let d = unsigned_digits(s);
    if d.len() > 0 && all_digits(d) && digits_value(d) <= u64::MAX {
        Some(digits_value(d))
    } else {
        None
    }
}

proof fn lemma_digits_value_nonneg(s: Seq<char>)
    requires
        all_digits(s),
    ensures
        digits_value(s) >= 0,
    decreases s.len(),
{
    if s.len() > 0 {
        assert(all_digits(s.drop_last())) by {
            assert forall|i: int| 0 <= i < s.drop_last().len() implies is_digit(
                #[trigger] s.drop_last()[i],
            ) by {
                assert(s.drop_last()[i] == s[i]);
            }
        }
        lemma_digits_value_nonneg(s.drop_last());
        assert(is_digit(s[s.len() - 1]));
    }
}

/// A longer digit string never denotes less than its prefixes.
proof fn lemma_digits_value_grows(s: Seq<char>, k: int)
    requires
        all_digits(s),
        0 <= k <= s.len(),
    ensures
        digits_value(s.take(k)) <= digits_value(s),
    decreases s.len() - k,
{
    if k < s.len() {
        let t = s.take(k + 1);
        assert(t.drop_last() =~= s.take(k));
        assert(all_digits(t)) by {
            assert forall|i: int| 0 <= i < t.len() implies is_digit(#[trigger] t[i]) by {
                assert(t[i] == s[i]);
            }
        }
        assert(all_digits(s.take(k))) by {
            assert forall|i: int| 0 <= i < k implies is_digit(#[trigger] s.take(k)[i]) by {
                assert(s.take(k)[i] == s[i]);
            }
        }
        lemma_digits_value_nonneg(s.take(k));
        assert(is_digit(s[k]));
        assert(digits_value(t) == digits_value(s.take(k)) * 10 + digit_value(s[k]));
        lemma_digits_value_grows(s, k + 1);
    } else {
        assert(s.take(k) =~= s);
    }
}

/// Parses an unsigned decimal number as `u64::from_str` does.
pub fn parse_u64_chars(s: &[char]) -> (r: Option<u64>)
    ensures
        match r {
            Some(v) => parse_u64(s@) == Some(v as int),
            None => parse_u64(s@) is None,
        },
{
    let start: usize = if s.len() > 0 && s[0] == '+' { 1 } else { 0 };
    let d = &s[start..s.len()];
    assert(d@ =~= unsigned_digits(s@));
    if d.len() == 0 {
        return None;
    }
    let mut acc: u64 = 0;
    let mut i: usize = 0;
    while i < d.len()
        invariant
            d@ == unsigned_digits(s@),
            d@.len() > 0,
            i <= d@.len(),
            all_digits(d@.take(i as int)),
            acc as int == digits_value(d@.take(i as int)),
        decreases d@.len() - i,
    {
        let c = d[i];
        if !('0' <= c && c <= '9') {
            assert(!is_digit(d@[i as int]));
            assert(!all_digits(d@));
            return None;
        }
        let dv: u64 = (c as u32 - '0' as u32) as u64;
        assert(d@.take(i + 1).drop_last() =~= d@.take(i as int));
        assert(all_digits(d@.take(i + 1))) by {
            assert forall|j: int| 0 <= j < i + 1 implies is_digit(#[trigger] d@.take(i + 1)[j]) by {
                if j < i {
                    assert(d@.take(i + 1)[j] == d@.take(i as int)[j]);
                }
            }
        }
        if acc > (u64::MAX - dv) / 10 {
            proof {
                assert(digits_value(d@.take(i + 1)) > u64::MAX) by (nonlinear_arith)
                    requires
                        digits_value(d@.take(i + 1)) == acc * 10 + dv,
                        acc > (u64::MAX - dv) / 10,
                        dv <= 9,
                ;
                if all_digits(d@) {
                    lemma_digits_value_grows(d@, i + 1);
                }
            }
            return None;
        }
        acc = acc * 10 + dv;
        i = i + 1;
    }
    assert(d@.take(i as int) =~= d@);
    Some(acc)
}

} // verus!

verus! {

/// A one-character number is a single digit.
pub proof fn lemma_single_digit(s: Seq<char>)
    requires
        s.len() == 1,
        parse_u64(s) is Some,
    ensures
        parse_u64(s)->0 <= 9,
{
    let d = unsigned_digits(s);
    assert(d =~= s);
    assert(is_digit(d[0]));
    assert(d.drop_last() =~= Seq::<char>::empty());
    assert(digits_value(d.drop_last()) == 0);
    assert(digits_value(d) == digit_value(d[0]));
    assert(('9' as int) - ('0' as int) == 9);
}

/// A two-character number has at most two digits.
pub proof fn lemma_two_digits(s: Seq<char>)
    requires
        s.len() == 2,
        parse_u64(s) is Some,
    ensures
        parse_u64(s)->0 <= 99,
{
    let d = unsigned_digits(s);
    assert(('9' as int) - ('0' as int) == 9);
    assert(is_digit(d[d.len() - 1]));
    if d.len() == 2 {
        assert(is_digit(d[0]));
        let d1 = d.drop_last();
        assert(d1.drop_last() =~= Seq::<char>::empty());
        assert(digits_value(d1.drop_last()) == 0);
        assert(d1.last() == d[0]);
        assert(digits_value(d1) == digit_value(d[0]));
        assert(digits_value(d) == digits_value(d1) * 10 + digit_value(d[1]));
    } else {
        assert(d.drop_last() =~= Seq::<char>::empty());
        assert(digits_value(d.drop_last()) == 0);
        assert(digits_value(d) == digit_value(d[0]));
    }
}

} // verus!

verus! {

/// The lines of `s`: the pieces between `'\n'` characters. Each piece keeps
/// a trailing `'\r'`, which trimming removes.
pub open spec fn split_lines(s: Seq<char>) -> Seq<Seq<char>>
    decreases s.len(),
{
    match find(s, '\n') {
        Some(i) => {
            proof {
                lemma_find(s, '\n');
            }
            seq![s.take(i)] + split_lines(s.skip(i + 1))
        },
        None => seq![s],
    }
}

} // verus!

verus! {

/// Appends the characters of `s` to `v`.
pub fn append_chars(v: &mut Vec<char>, s: &[char])
    ensures
        final(v)@ == old(v)@ + s@,
{
    let mut i: usize = 0;
    while i < s.len()
        invariant
            i <= s@.len(),
            v@ == old(v)@ + s@.take(i as int),
        decreases s@.len() - i,
    {
        v.push(s[i]);
        i = i + 1;
        assert(v@ =~= old(v)@ + s@.take(i as int));
    }
    assert(s@.take(i as int) =~= s@);
}

} // verus!

verus! {

proof fn lemma_trim_end_idempotent(s: Seq<char>)
    ensures
        trim_end(trim_end(s)) == trim_end(s),
    decreases s.len(),
{
    if s.len() > 0 && is_white(s.last()) {
        lemma_trim_end_idempotent(s.drop_last());
    }
}

proof fn lemma_trim_end_keeps_head(s: Seq<char>)
    requires
        s.len() == 0 || !is_white(s[0]),
    ensures
        trim_end(s).len() == 0 || trim_end(s)[0] == s[0],
    decreases s.len(),
{
    if s.len() > 0 && is_white(s.last()) {
        let d = s.drop_last();
        if d.len() > 0 {
            assert(d[0] == s[0]);
        }
        lemma_trim_end_keeps_head(d);
    }
}

/// Trimming twice trims no more than once.
pub proof fn lemma_trim_idempotent(s: Seq<char>)
    ensures
        trim(trim(s)) == trim(s),
{
    let a = trim_start(s);
    lemma_trim_start_head(s);
    lemma_trim_end_keeps_head(a);
    let b = trim_end(a);
    if b.len() > 0 {
        assert(!is_white(b[0]));
    }
    assert(trim_start(b) == b);
    lemma_trim_end_idempotent(a);
}

proof fn lemma_trim_start_head(s: Seq<char>)
    ensures
        trim_start(s).len() == 0 || !is_white(trim_start(s)[0]),
    decreases s.len(),
{
    if s.len() > 0 && is_white(s[0]) {
        lemma_trim_start_head(s.drop_first());
    }
}

} // verus!
