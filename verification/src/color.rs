//! Colours written as `#rrggbb` or `#rrggbbaa` in the settings.
use vstd::prelude::*;
use crate::text::{chars_of, trim, trim_chars, unsigned_digits};

verus! {

/// `s` without its leading `#` characters.
pub open spec fn strip_hashes(s: Seq<char>) -> Seq<char>
    decreases s.len(),
{
    if s.len() > 0 && s[0] == '#' {
        strip_hashes(s.drop_first())
    } else {
        s
    }
}

/// An ASCII hexadecimal digit, either case.
pub open spec fn is_hex_digit(c: char) -> bool {
    ('0' <= c && c <= '9') || ('a' <= c && c <= 'f') || ('A' <= c && c <= 'F')
}

/// The value of an ASCII hexadecimal digit.
pub open spec fn hex_digit_value(c: char) -> int {
    if '0' <= c && c <= '9' {
        (c as int) - ('0' as int)
    } else if 'a' <= c && c <= 'f' {
        (c as int) - ('a' as int) + 10
    } else {
        (c as int) - ('A' as int) + 10
    }
}

/// Every character of `s` is a hexadecimal digit.
pub open spec fn all_hex(s: Seq<char>) -> bool {
    forall|i: int| 0 <= i < s.len() ==> is_hex_digit(#[trigger] s[i])
}

/// The number that a string of hexadecimal digits denotes.
pub open spec fn hex_value(s: Seq<char>) -> int
    decreases s.len(),
{
    if s.len() == 0 {
        0
    } else {
        hex_value(s.drop_last()) * 16 + hex_digit_value(s.last())
    }
}

/// What `u32::from_str_radix(s, 16)` accepts: an optional `+`, then at least
/// one hexadecimal digit, with a value that fits in `u32`.
pub open spec fn parse_hex_u32(s: Seq<char>) -> Option<int> {
    let d = unsigned_digits(s);
    if d.len() > 0 && all_hex(d) && hex_value(d) <= u32::MAX {
        Some(hex_value(d))
    } else {
        None
    }
}

/// An `0xRRGGBBAA` number moved round to `0xAARRGGBB`.
pub open spec fn rgba_to_argb(v: int) -> u32 {
    ((v % 0x100) * 0x100_0000 + v / 0x100) as u32
}

/// The colour, as an `0xAARRGGBB` number, that a setting denotes: after
/// trimming and dropping leading `#`, six hexadecimal digits are an opaque
/// `rrggbb` colour and eight are `rrggbbaa`, red, green, blue and then
/// alpha (`#00000095` is black and half transparent); anything else is
/// opaque white.
pub open spec fn color_argb(input: Seq<char>) -> u32 {
    let t = strip_hashes(trim(input));
    if t.len() == 6 && parse_hex_u32(t) is Some {
        (0xff00_0000 + parse_hex_u32(t)->0) as u32
    } else if t.len() == 8 && parse_hex_u32(t) is Some {
        rgba_to_argb(parse_hex_u32(t)->0)
    } else {
        0xffff_ffffu32
    }
}

/// The alpha, red, green and blue bytes of an `0xAARRGGBB` number.
pub open spec fn channels(v: u32) -> (u8, u8, u8, u8) {
    (
        (v / 0x100_0000) as u8,
        ((v / 0x1_0000) % 0x100) as u8,
        ((v / 0x100) % 0x100) as u8,
        (v % 0x100) as u8,
    )
}

/// `16^n`.
pub open spec fn pow16(n: nat) -> int
    decreases n,
{
    if n == 0 {
        1
    } else {
        16 * pow16((n - 1) as nat)
    }
}

proof fn lemma_pow16_grows(m: nat, n: nat)
    requires
        m <= n,
    ensures
        1 <= pow16(m) <= pow16(n),
    decreases n,
{
    if n > m {
        lemma_pow16_grows(m, (n - 1) as nat);
    } else if n > 0 {
        lemma_pow16_grows(0, (n - 1) as nat);
    }
}

proof fn lemma_hex_value_bound(s: Seq<char>)
    requires
        forall|i: int| 0 <= i < s.len() ==> is_hex_digit(#[trigger] s[i]),
    ensures
        0 <= hex_value(s) < pow16(s.len()),
    decreases s.len(),
{
    if s.len() > 0 {
        let d = s.drop_last();
        assert forall|i: int| 0 <= i < d.len() implies is_hex_digit(#[trigger] d[i]) by {
            assert(d[i] == s[i]);
        }
        lemma_hex_value_bound(d);
        assert(is_hex_digit(s[s.len() - 1]));
        let p = pow16(d.len());
        let x = hex_value(d);
        let y = hex_digit_value(s.last());
        assert(0 <= y < 16);
        assert(x * 16 + y < p * 16) by (nonlinear_arith)
            requires
                0 <= x < p,
                0 <= y < 16,
        ;
        assert(0 <= x * 16 + y) by (nonlinear_arith)
            requires
                0 <= x,
                0 <= y,
        ;
    }
}

fn parse_hex_short(s: &[char]) -> (r: Option<u32>)
    requires
        s@.len() <= 8,
    ensures
        match r {
            Some(v) => parse_hex_u32(s@) == Some(v as int),
            None => parse_hex_u32(s@) is None,
        },
{
    let start: usize = if s.len() > 0 && s[0] == '+' { 1 } else { 0 };
    let d = &s[start..s.len()];
    assert(d@ =~= unsigned_digits(s@));
    if d.len() == 0 {
        return None;
    }
    let mut acc: u32 = 0;
    let mut i: usize = 0;
    while i < d.len()
        invariant
            d@ == unsigned_digits(s@),
            d@.len() > 0,
            d@.len() <= 8,
            i <= d@.len(),
            forall|j: int| 0 <= j < i ==> is_hex_digit(#[trigger] d@[j]),
            acc as int == hex_value(d@.take(i as int)),
        decreases d@.len() - i,
    {
        let c = d[i];
        let v: u32 = if '0' <= c && c <= '9' {
            c as u32 - '0' as u32
        } else if 'a' <= c && c <= 'f' {
            c as u32 - 'a' as u32 + 10
        } else if 'A' <= c && c <= 'F' {
            c as u32 - 'A' as u32 + 10
        } else {
            assert(!is_hex_digit(d@[i as int]));
            assert(!all_hex(d@));
            return None;
        };
        proof {
            let t = d@.take(i + 1);
            assert(t.drop_last() =~= d@.take(i as int));
            assert forall|j: int| 0 <= j < i implies is_hex_digit(#[trigger] d@.take(i as int)[j]) by {
                assert(d@.take(i as int)[j] == d@[j]);
            }
            lemma_hex_value_bound(d@.take(i as int));
            lemma_pow16_grows(i as nat, 7);
            reveal_with_fuel(pow16, 8);
        }
        acc = acc * 16 + v;
        i = i + 1;
    }
    assert(d@.take(i as int) =~= d@);
    assert(all_hex(d@));
    Some(acc)
}

/// The colour a setting such as `#00e676` or `#00000095` (`rrggbbaa`)
/// denotes, as alpha, red, green and blue bytes (see `color_argb`;
/// unreadable text gives opaque white).
pub fn parse_hex_color(input: &str) -> (r: (u8, u8, u8, u8))
    ensures
        r == channels(color_argb(input@)),
{
    let cs = chars_of(input);
    let trimmed = trim_chars(cs.as_slice());
    let mut k: usize = 0;
    assert(trimmed@.skip(0) =~= trimmed@);
    while k < trimmed.len() && trimmed[k] == '#'
        invariant
            k <= trimmed@.len(),
            strip_hashes(trimmed@) == strip_hashes(trimmed@.skip(k as int)),
        decreases trimmed@.len() - k,
    {
        assert(trimmed@.skip(k as int).drop_first() =~= trimmed@.skip(k + 1));
        k = k + 1;
    }
    let text = &trimmed[k..trimmed.len()];
    assert(text@ =~= trimmed@.skip(k as int));
    let argb: u32 = if text.len() == 6 {
        match parse_hex_short(text) {
            Some(v) => {
                proof {
                    let d = unsigned_digits(text@);
                    assert(parse_hex_u32(text@) == Some(v as int));
                    assert(all_hex(d));
                    lemma_hex_value_bound(d);
                    lemma_pow16_grows(d.len(), 6);
                    reveal_with_fuel(pow16, 7);
                }
                0xff00_0000u32 + v
            },
            None => 0xffff_ffffu32,
        }
    } else if text.len() == 8 {
        match parse_hex_short(text) {
            Some(v) => (v % 0x100) * 0x100_0000 + v / 0x100,
            None => 0xffff_ffffu32,
        }
    } else {
        0xffff_ffffu32
    };
    assert(argb == color_argb(input@));
    ((argb / 0x100_0000) as u8, ((argb / 0x1_0000) % 0x100) as u8, ((argb / 0x100) % 0x100) as u8, (
    argb % 0x100) as u8)
}

} // verus!
