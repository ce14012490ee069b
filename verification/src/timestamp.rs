//! LRC time tags: `mm:ss`, `mm:ss.f`, `mm:ss.ff`, `mm:ss.fff…`.
use vstd::prelude::*;
use crate::text::{find, find_char, parse_u64, parse_u64_chars, chars_of, lemma_find};

verus! {

/// The part of `s` before the first `c`, or all of `s` when there is none
/// (the first item of `str::split`).
pub open spec fn first_piece(s: Seq<char>, c: char) -> Seq<char> {
    match find(s, c) {
        Some(i) => s.take(i),
        None => s,
    }
}

/// Milliseconds denoted by the fraction after the seconds: one digit counts
/// tenths, two count hundredths, and from three on the first three digits
/// count thousandths; an empty fraction is zero.
pub open spec fn millis_value(f: Seq<char>) -> Option<int> {
    if f.len() == 0 {
        Some(0)
    } else if f.len() == 1 {
        match parse_u64(f) {
            Some(v) => Some(v * 100),
            None => None,
        }
    } else if f.len() == 2 {
        match parse_u64(f) {
            Some(v) => Some(v * 10),
            None => None,
        }
    } else {
        parse_u64(f.take(3))
    }
}

/// The fraction text of a seconds field: what follows its first `.` up to a
/// second `.`; a field without `.` counts as fraction `0`.
pub open spec fn fraction_text(seconds_part: Seq<char>) -> Seq<char> {
    match find(seconds_part, '.') {
        Some(d) => first_piece(seconds_part.skip(d + 1), '.'),
        None => seq!['0'],
    }
}

/// The time that a tag denotes in milliseconds, computed without bound:
/// `minutes:seconds[.fraction]` with exactly one `:`.
pub open spec fn timestamp_value(tag: Seq<char>) -> Option<int> {
    match find(tag, ':') {
        None => None,
        Some(c) => {
            let minutes_text = tag.take(c);
            let seconds_part = tag.skip(c + 1);
            if find(seconds_part, ':') is Some {
                None
            } else {
                match (
                    parse_u64(minutes_text),
                    parse_u64(first_piece(seconds_part, '.')),
                    millis_value(fraction_text(seconds_part)),
                ) {
                    (Some(m), Some(s), Some(f)) => Some(m * 60_000 + s * 1_000 + f),
                    _ => None,
                }
            }
        },
    }
}

/// A tag whose time, if it has one, fits in `u64` milliseconds.
pub open spec fn timestamp_fits(tag: Seq<char>) -> bool {
    timestamp_value(tag) matches Some(v) ==> v <= u64::MAX
}

fn first_piece_chars(s: &[char], c: char) -> (r: &[char])
    ensures
        r@ == first_piece(s@, c),
{
    match find_char(s, c) {
        Some(i) => {
            proof { lemma_find(s@, c); }
            &s[0..i]
        },
        None => s,
    }
}

fn millis_of(f: &[char]) -> (r: Option<u64>)
    ensures
        match r {
            Some(v) => millis_value(f@) == Some(v as int),
            None => millis_value(f@) is None,
        },
{
    if f.len() == 0 {
        Some(0)
    } else if f.len() == 1 {
        match parse_u64_chars(f) {
            Some(v) => {
                assert(v <= 9) by {
                    assert(f@.len() == 1);
                    crate::text::lemma_single_digit(f@);
                }
                Some(v * 100)
            },
            None => None,
        }
    } else if f.len() == 2 {
        match parse_u64_chars(f) {
            Some(v) => {
                assert(v <= 99) by {
                    crate::text::lemma_two_digits(f@);
                }
                Some(v * 10)
            },
            None => None,
        }
    } else {
        let head = &f[0..3];
        assert(head@ =~= f@.take(3));
        parse_u64_chars(head)
    }
}

/// The milliseconds of a tag, in a width where the arithmetic cannot wrap.
pub(crate) fn timestamp_ms(tag: &[char]) -> (r: Option<u128>)
    ensures
        match r {
            Some(v) => timestamp_value(tag@) == Some(v as int),
            None => timestamp_value(tag@) is None,
        },
{
    let n = tag.len();
    let c = match find_char(tag, ':') {
        Some(c) => c,
        None => return None,
    };
    proof { lemma_find(tag@, ':'); }
    assert(c < tag@.len());
    let minutes_text = &tag[0..c];
    let seconds_part = &tag[c + 1..n];
    assert(minutes_text@ =~= tag@.take(c as int));
    assert(seconds_part@ =~= tag@.skip(c + 1));
    if find_char(seconds_part, ':').is_some() {
        return None;
    }
    let minutes = match parse_u64_chars(minutes_text) {
        Some(m) => m,
        None => return None,
    };
    let seconds = match parse_u64_chars(first_piece_chars(seconds_part, '.')) {
        Some(s) => s,
        None => return None,
    };
    let zero = ['0'];
    let fraction: &[char] = match find_char(seconds_part, '.') {
        Some(d) => {
            proof { lemma_find(seconds_part@, '.'); }
            let after = &seconds_part[d + 1..seconds_part.len()];
            assert(after@ =~= seconds_part@.skip(d + 1));
            first_piece_chars(after, '.')
        },
        None => {
            assert(zero@ =~= seq!['0']);
            &zero
        },
    };
    let millis = match millis_of(fraction) {
        Some(f) => f,
        None => return None,
    };
    Some((minutes as u128) * 60_000 + (seconds as u128) * 1_000 + (millis as u128))
}

/// Reads an LRC time tag such as `01:02.50` as milliseconds (here 62_500).
/// A tag with no `:`, more than one `:`, or a field that is not an unsigned
/// decimal number gives `None`.
pub fn parse_timestamp(tag: &str) -> (r: Option<u64>)
    requires
        timestamp_fits(tag@),
    ensures
        match r {
            Some(v) => timestamp_value(tag@) == Some(v as int),
            None => timestamp_value(tag@) is None,
        },
{
    let cs = chars_of(tag);
    match timestamp_ms(cs.as_slice()) {
        Some(v) => Some(v as u64),
        None => None,
    }
}

} // verus!
