//! Line-synchronised lyrics (`[mm:ss.xx]text`).
use vstd::prelude::*;
use crate::text::{
    chars_of, find, find_char, has_prefix, lemma_find, split_lines, starts_with, string_from_chars,
    trim, trim_chars,
};
use crate::timestamp::{timestamp_value, timestamp_ms};
use crate::lyrics::{
    LineModel, LyricLine, SegmentModel, insert_all, insert_line, is_timeline, lemma_settle_ends_timeline,
    lemma_settle_keeps, lemma_sort_append, lemma_sort_by_time_sorted, lemma_sort_keeps, lines_model,
    settle_end_times, settle_ends, sort_by_time,
};

verus! {

// ------------------------------------------------------------ credit lines

/// Text that credits the lyricist, composer, arranger, producer or
/// supervisor rather than being sung.
pub open spec fn is_credit(text: Seq<char>) -> bool {
    ||| starts_with(text, seq!['作', '词'])
    ||| starts_with(text, seq!['作', '曲'])
    ||| starts_with(text, seq!['编', '曲'])
    ||| starts_with(text, seq!['制', '作', '人'])
    ||| starts_with(text, seq!['监', '制'])
}

pub(crate) fn is_credit_chars(text: &[char]) -> (b: bool)
    ensures
        b == is_credit(text@),
{
    let p1 = ['作', '词'];
    let p2 = ['作', '曲'];
    let p3 = ['编', '曲'];
    let p4 = ['制', '作', '人'];
    let p5 = ['监', '制'];
    assert(p1@ =~= seq!['作', '词']);
    assert(p2@ =~= seq!['作', '曲']);
    assert(p3@ =~= seq!['编', '曲']);
    assert(p4@ =~= seq!['制', '作', '人']);
    assert(p5@ =~= seq!['监', '制']);
    has_prefix(text, &p1) || has_prefix(text, &p2) || has_prefix(text, &p3) || has_prefix(
        text,
        &p4,
    ) || has_prefix(text, &p5)
}

/// Whether a line of text is a credit (作词, 作曲, 编曲, 制作人, 监制) that the
/// parsers leave out.
pub fn is_credit_line(text: &str) -> (b: bool)
    ensures
        b == is_credit(text@),
{
    let cs = chars_of(text);
    is_credit_chars(cs.as_slice())
}

// ---------------------------------------------------------------- time tags

/// The leading run of time tags of a line: their times, and what follows
/// them. The run ends at the first `[` without a `]` or whose contents are
/// not a time.
pub open spec fn scan_tags(t: Seq<char>) -> (Seq<int>, Seq<char>)
    decreases t.len(),
{
    if t.len() > 0 && t[0] == '[' {
        let inner = t.drop_first();
        match find(inner, ']') {
            None => (Seq::empty(), t),
            Some(e) => {
                proof {
                    lemma_find(inner, ']');
                }
                match timestamp_value(inner.take(e)) {
                    None => (Seq::empty(), t),
                    Some(ms) => {
                        let r = scan_tags(inner.skip(e + 1));
                        (seq![ms] + r.0, r.1)
                    },
                }
            },
        }
    } else {
        (Seq::empty(), t)
    }
}

/// Every time tag that a line of the file leads with fits in `u64`.
pub open spec fn line_times_fit(raw: Seq<char>) -> bool {
    let times = scan_tags(trim(raw)).0;
    forall|k: int| 0 <= k < times.len() ==> #[trigger] times[k] <= u64::MAX
}

/// Every time tag of the file fits in `u64` milliseconds (beyond that the
/// time arithmetic would overflow).
pub open spec fn lrc_times_fit(content: Seq<char>) -> bool {
    let lines = split_lines(content);
    forall|k: int| 0 <= k < lines.len() ==> line_times_fit(#[trigger] lines[k])
}

/// The lines that the times of one file line give, all with the same text.
pub open spec fn tagged_lines(times: Seq<int>, text: Seq<char>) -> Seq<LineModel> {
    times.map_values(
        |tm: int|
            LineModel {
                time_ms: tm as u64,
                end_time_ms: tm as u64,
                text: text,
                segments: Seq::empty(),
            },
    )
}

/// What one line of the file contributes: a line per leading time tag, with
/// the trimmed text after the tags; nothing for a line without time tags,
/// without text, or with a credit.
pub open spec fn lrc_line_entries(raw: Seq<char>) -> Seq<LineModel> {
    let scanned = scan_tags(trim(raw));
    let text = trim(scanned.1);
    if scanned.0.len() == 0 || text.len() == 0 || is_credit(text) {
        Seq::empty()
    } else {
        tagged_lines(scanned.0, text)
    }
}

/// The entries of the file lines, in file order.
pub open spec fn lrc_entries(lines: Seq<Seq<char>>) -> Seq<LineModel>
    decreases lines.len(),
{
    if lines.len() == 0 {
        Seq::empty()
    } else {
        lrc_entries(lines.drop_last()) + lrc_line_entries(lines.last())
    }
}

/// The parsed lyrics of an LRC file: its entries in stable time order, each
/// ending where the next starts (four seconds after its start for the last),
/// and never sooner than half a second after its start.
pub open spec fn lrc_lines(content: Seq<char>) -> Seq<LineModel> {
    settle_ends(sort_by_time(lrc_entries(split_lines(content))), false)
}

fn scan_tags_chars(t: &[char]) -> (r: (Vec<u128>, usize))
    ensures
        r.1 <= t@.len(),
        t@.skip(r.1 as int) == scan_tags(t@).1,
        r.0@.map_values(|x: u128| x as int) == scan_tags(t@).0,
{
    let n = t.len();
    let mut pos: usize = 0;
    let mut times: Vec<u128> = Vec::new();
    assert(t@.skip(0) =~= t@);
    loop
        invariant
            n == t@.len(),
            pos <= n,
            scan_tags(t@).0 == times@.map_values(|x: u128| x as int) + scan_tags(t@.skip(pos as int)).0,
            scan_tags(t@).1 == scan_tags(t@.skip(pos as int)).1,
        decreases n - pos,
    {
        let rest = &t[pos..n];
        assert(rest@ =~= t@.skip(pos as int));
        let ghost stop = (times@.map_values(|x: u128| x as int), rest@);
        if rest.len() > 0 && rest[0] == '[' {
            let inner = &rest[1..rest.len()];
            assert(inner@ =~= rest@.drop_first());
            match find_char(inner, ']') {
                None => {
                    assert(times@.map_values(|x: u128| x as int) =~= times@.map_values(|x: u128| x as int) + Seq::<int>::empty());
                    return (times, pos);
                },
                Some(e) => {
                    proof { lemma_find(inner@, ']'); }
                    let tag = &inner[0..e];
                    assert(tag@ =~= inner@.take(e as int));
                    match timestamp_ms(tag) {
                        None => {
                            assert(times@.map_values(|x: u128| x as int) =~= times@.map_values(|x: u128| x as int) + Seq::<int>::empty());
                            return (times, pos);
                        },
                        Some(ms) => {
                            let ghost old_times = times@.map_values(|x: u128| x as int);
                            times.push(ms);
                            assert(inner@.skip(e + 1) =~= t@.skip(pos + e + 2));
                            assert(times@.map_values(|x: u128| x as int) =~= old_times.push(ms as int));
                            assert(old_times + (seq![ms as int] + scan_tags(t@.skip(pos + e + 2)).0)
                                =~= old_times.push(ms as int) + scan_tags(t@.skip(pos + e + 2)).0);
                            pos = pos + e + 2;
                        },
                    }
                },
            }
        } else {
            assert(times@.map_values(|x: u128| x as int) =~= times@.map_values(|x: u128| x as int) + Seq::<int>::empty());
            return (times, pos);
        }
    }
}

/// Adds the entries of one file line to `sorted`; `false` when one of its
/// time tags does not fit in `u64`.
fn lrc_line_into(raw: &[char], sorted: &mut Vec<LyricLine>) -> (ok: bool)
    ensures
        ok == line_times_fit(raw@),
        ok ==> lines_model(final(sorted)@) == insert_all(lines_model(old(sorted)@), lrc_line_entries(raw@)),
{
    let t = trim_chars(raw);
    let (times, rest_start) = scan_tags_chars(t);
    let ghost times_int = times@.map_values(|x: u128| x as int);
    let mut k: usize = 0;
    while k < times.len()
        invariant
            k <= times@.len(),
            times_int == times@.map_values(|x: u128| x as int),
            times_int == scan_tags(trim(raw@)).0,
            forall|j: int| 0 <= j < k ==> times_int[j] <= u64::MAX,
        decreases times@.len() - k,
    {
        if times[k] > u64::MAX as u128 {
            assert(scan_tags(trim(raw@)).0[k as int] > u64::MAX);
            return false;
        }
        k = k + 1;
    }
    let rest = &t[rest_start..t.len()];
    assert(rest@ =~= t@.skip(rest_start as int));
    let text = trim_chars(rest);
    if times.len() == 0 || text.len() == 0 || is_credit_chars(text) {
        assert(lrc_line_entries(raw@) =~= Seq::<LineModel>::empty());
        return true;
    }
    let ghost entries = lrc_line_entries(raw@);
    assert(entries =~= tagged_lines(times_int, text@));
    let mut i: usize = 0;
    assert(entries.take(0) =~= Seq::<LineModel>::empty());
    while i < times.len()
        invariant
            i <= times@.len(),
            times_int == times@.map_values(|x: u128| x as int),
            forall|j: int| 0 <= j < times@.len() ==> times_int[j] <= u64::MAX,
            entries == tagged_lines(times_int, text@),
            lines_model(sorted@) == insert_all(lines_model(old(sorted)@), entries.take(i as int)),
        decreases times@.len() - i,
    {
        assert(times_int[i as int] <= u64::MAX);
        let tm = times[i] as u64;
        let line = LyricLine {
            time_ms: tm,
            end_time_ms: tm,
            text: string_from_chars(text),
            segments: Vec::new(),
        };
        assert(line@.segments =~= Seq::<SegmentModel>::empty());
        assert(line@ == entries[i as int]);
        insert_line(sorted, line);
        assert(entries.take(i + 1).drop_last() =~= entries.take(i as int));
        i = i + 1;
    }
    assert(entries.take(i as int) =~= entries);
    true
}

/// Parses LRC lyrics, or gives `None` when a time tag does not fit in `u64`
/// milliseconds.
pub fn try_parse_lrc(content: &str) -> (r: Option<Vec<LyricLine>>)
    ensures
        r is Some <==> lrc_times_fit(content@),
        r matches Some(v) ==> lines_model(v@) == lrc_lines(content@),
{
    let cs = chars_of(content);
    let s = cs.as_slice();
    let n = s.len();
    let mut sorted: Vec<LyricLine> = Vec::new();
    let mut pos: usize = 0;
    let ghost mut done: Seq<Seq<char>> = Seq::empty();
    assert(s@.skip(0) =~= s@);
    assert(split_lines(s@) =~= done + split_lines(s@.skip(0)));
    loop
        invariant
            n == s@.len(),
            s@ == content@,
            pos <= n,
            split_lines(s@) == done + split_lines(s@.skip(pos as int)),
            lines_model(sorted@) == sort_by_time(lrc_entries(done)),
            forall|k: int| 0 <= k < done.len() ==> line_times_fit(#[trigger] done[k]),
        decreases n - pos,
    {
        let rest = &s[pos..n];
        assert(rest@ =~= s@.skip(pos as int));
        match find_char(rest, '\n') {
            Some(i) => {
                proof { lemma_find(rest@, '\n'); }
                let line = &rest[0..i];
                assert(line@ =~= rest@.take(i as int));
                if !lrc_line_into(line, &mut sorted) {
                    proof {
                        let lines = split_lines(s@);
                        assert(lines[done.len() as int] == line@);
                    }
                    return None;
                }
                proof {
                    lemma_sort_append(lrc_entries(done), lrc_line_entries(line@));
                    assert(done.push(line@).drop_last() =~= done);
                    assert(rest@.skip(i + 1) =~= s@.skip(pos + i + 1));
                    assert(done + split_lines(rest@) =~= done.push(line@) + split_lines(s@.skip(pos + i + 1)));
                    done = done.push(line@);
                }
                pos = pos + i + 1;
            },
            None => {
                if !lrc_line_into(rest, &mut sorted) {
                    proof {
                        let lines = split_lines(s@);
                        assert(lines[done.len() as int] == rest@);
                    }
                    return None;
                }
                proof {
                    lemma_sort_append(lrc_entries(done), lrc_line_entries(rest@));
                    assert(done.push(rest@).drop_last() =~= done);
                    assert(split_lines(s@) =~= done.push(rest@));
                    let all = done.push(rest@);
                    assert forall|k: int| 0 <= k < all.len() implies line_times_fit(#[trigger] all[k]) by {
                        if k < done.len() {
                            assert(all[k] == done[k]);
                        }
                    }
                }
                return Some(settle_end_times(sorted, false));
            },
        }
    }
}

/// Parses LRC lyrics: each `[mm:ss.xx]` tag of a line gives a line with the
/// trimmed text after the tags. Lines are sorted by start time (stable) and
/// each ends where the next starts, but at least half a second after its own
/// start; the last one ends four seconds after its start.
pub fn parse_lrc(content: &str) -> (v: Vec<LyricLine>)
    requires
        lrc_times_fit(content@),
    ensures
        lines_model(v@) == lrc_lines(content@),
{
    match try_parse_lrc(content) {
        Some(v) => v,
        None => Vec::new(),
    }
}

} // verus!

verus! {

/// A line as plain lyrics give it: its text is trimmed, not empty and not a
/// credit, and it has no segments.
pub open spec fn plain_line_ok(l: LineModel) -> bool {
    &&& l.text.len() > 0
    &&& !is_credit(l.text)
    &&& trim(l.text) == l.text
    &&& l.segments.len() == 0
}

proof fn lemma_lrc_entries_ok(lines: Seq<Seq<char>>)
    ensures
        forall|i: int| 0 <= i < lrc_entries(lines).len() ==> plain_line_ok(#[trigger] lrc_entries(lines)[i]),
    decreases lines.len(),
{
    if lines.len() > 0 {
        lemma_lrc_entries_ok(lines.drop_last());
        let a = lrc_entries(lines.drop_last());
        let b = lrc_line_entries(lines.last());
        let scanned = scan_tags(trim(lines.last()));
        let text = trim(scanned.1);
        crate::text::lemma_trim_idempotent(scanned.1);
        assert forall|i: int| 0 <= i < b.len() implies plain_line_ok(#[trigger] b[i]) by {}
        assert forall|i: int| 0 <= i < (a + b).len() implies plain_line_ok(#[trigger] (a + b)[i]) by {
            if i < a.len() {
                assert((a + b)[i] == a[i]);
            } else {
                assert((a + b)[i] == b[i - a.len()]);
            }
        }
    }
}

/// The lyrics that `parse_lrc` gives form a timeline (start order, each
/// line lasting at least half a second and until the next starts), and
/// every line has trimmed, non-empty text that is not a credit.
pub proof fn lemma_lrc_lines_wellformed(content: Seq<char>)
    ensures
        is_timeline(lrc_lines(content)),
        forall|i: int| 0 <= i < lrc_lines(content).len() ==> plain_line_ok(#[trigger] lrc_lines(content)[i]),
{
    let entries = lrc_entries(split_lines(content));
    lemma_lrc_entries_ok(split_lines(content));
    let p = |l: LineModel| plain_line_ok(l);
    assert forall|i: int| 0 <= i < entries.len() implies p(#[trigger] entries[i]) by {}
    lemma_sort_keeps(entries, p);
    lemma_sort_by_time_sorted(entries);
    let sorted = sort_by_time(entries);
    lemma_settle_ends_timeline(sorted, false);
    lemma_settle_keeps(sorted, false, p);
}

} // verus!

verus! {

/// `t` begins with one of the credit words 作词 (lyricist), 作曲 (composer),
/// 编曲 (arranger), 制作人 (producer) or 监制 (supervisor).
pub open spec fn begins_with_credit_word(t: Seq<char>) -> bool {
    ||| t.len() >= 2 && t[0] == '作' && t[1] == '词'
    ||| t.len() >= 2 && t[0] == '作' && t[1] == '曲'
    ||| t.len() >= 2 && t[0] == '编' && t[1] == '曲'
    ||| t.len() >= 3 && t[0] == '制' && t[1] == '作' && t[2] == '人'
    ||| t.len() >= 2 && t[0] == '监' && t[1] == '制'
}

/// A text is a credit exactly when it begins with one of the five credit
/// words.
pub proof fn lemma_credit_words(t: Seq<char>)
    ensures
        is_credit(t) <==> begins_with_credit_word(t),
{
    if t.len() >= 2 {
        assert(t.take(2) =~= seq![t[0], t[1]]);
    }
    if t.len() >= 3 {
        assert(t.take(3) =~= seq![t[0], t[1], t[2]]);
    }
    if is_credit(t) {
        if starts_with(t, seq!['作', '词']) {
            assert(t.take(2)[0] == '作' && t.take(2)[1] == '词');
        }
        if starts_with(t, seq!['作', '曲']) {
            assert(t.take(2)[0] == '作' && t.take(2)[1] == '曲');
        }
        if starts_with(t, seq!['编', '曲']) {
            assert(t.take(2)[0] == '编' && t.take(2)[1] == '曲');
        }
        if starts_with(t, seq!['制', '作', '人']) {
            assert(t.take(3)[0] == '制' && t.take(3)[1] == '作' && t.take(3)[2] == '人');
        }
        if starts_with(t, seq!['监', '制']) {
            assert(t.take(2)[0] == '监' && t.take(2)[1] == '制');
        }
    }
}

/// No line that `parse_lrc` gives is a credit: none of their texts begins
/// with 作词, 作曲, 编曲, 制作人 or 监制.
pub proof fn lemma_lrc_drops_credit_lines(content: Seq<char>)
    ensures
        forall|i: int| 0 <= i < lrc_lines(content).len() ==> !begins_with_credit_word(
            #[trigger] lrc_lines(content)[i].text,
        ),
{
    lemma_lrc_lines_wellformed(content);
    assert forall|i: int| 0 <= i < lrc_lines(content).len() implies !begins_with_credit_word(
        #[trigger] lrc_lines(content)[i].text,
    ) by {
        assert(plain_line_ok(lrc_lines(content)[i]));
        lemma_credit_words(lrc_lines(content)[i].text);
    }
}

} // verus!
