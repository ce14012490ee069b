//! Word-timed karaoke lyrics (`[start,duration](start,duration,0)word…`).
use vstd::prelude::*;
use crate::text::{
    append_chars, chars_of, find, find_char, lemma_find, parse_u64, parse_u64_chars, split_lines,
    string_from_chars, trim, trim_chars,
};
use crate::timestamp::first_piece;
use crate::lrc::{is_credit, is_credit_chars};
use crate::lyrics::{
    LineModel, LyricLine, LyricSegment, SegmentModel, insert_all, insert_line, is_timeline,
    lemma_settle_ends_timeline, lemma_settle_keeps, lemma_sort_append, lemma_sort_by_time_sorted,
    lemma_sort_keeps, lines_model, segments_model, settle_end_times, settle_ends, sort_by_time,
};

verus! {

/// The first two comma-separated fields of `s`, when it has a comma.
pub open spec fn two_fields(s: Seq<char>) -> Option<(Seq<char>, Seq<char>)> {
    match find(s, ',') {
        Some(c) => Some((s.take(c), first_piece(s.skip(c + 1), ','))),
        None => None,
    }
}

/// The first two comma-separated fields of `s` read as unsigned numbers.
pub open spec fn two_numbers(s: Seq<char>) -> Option<(int, int)> {
    match two_fields(s) {
        Some(f) => match (parse_u64(f.0), parse_u64(f.1)) {
            (Some(a), Some(b)) => Some((a, b)),
            _ => None,
        },
        None => None,
    }
}

/// `start + max(duration, 1)`, saturating at `u64::MAX`.
pub open spec fn end_after(start: int, duration: int) -> u64 {
    (start as u64).saturating_add(if duration >= 1 { duration as u64 } else { 1u64 })
}

/// The timed segments that follow the header of a karaoke line: each
/// `(start,duration,…)` group gives a segment with the text up to the next
/// `(`, unless that text is blank. The scan stops at a `(` without `)` or
/// whose first two fields are not numbers.
pub open spec fn scan_segments(rest: Seq<char>) -> Seq<SegmentModel>
    decreases rest.len(),
{
    match find(rest, '(') {
        None => Seq::empty(),
        Some(si) => {
            proof {
                lemma_find(rest, '(');
            }
            let r = rest.skip(si);
            match find(r, ')') {
                None => Seq::empty(),
                Some(ei) => {
                    proof {
                        lemma_find(r, ')');
                    }
                    match two_numbers(r.subrange(1, ei)) {
                        None => Seq::empty(),
                        Some(nums) => {
                            let after = r.skip(ei + 1);
                            proof {
                                lemma_find(after, '(');
                            }
                            let ni = match find(after, '(') {
                                Some(k) => k,
                                None => after.len() as int,
                            };
                            let text = after.take(ni);
                            let tail = scan_segments(after.skip(ni));
                            if trim(text).len() > 0 {
                                seq![
                                    SegmentModel {
                                        start_time_ms: nums.0 as u64,
                                        end_time_ms: end_after(nums.0, nums.1),
                                        text: text,
                                    },
                                ] + tail
                            } else {
                                tail
                            }
                        },
                    }
                },
            }
        },
    }
}

/// The segment texts joined in order.
pub open spec fn concat_texts(segs: Seq<SegmentModel>) -> Seq<char>
    decreases segs.len(),
{
    if segs.len() == 0 {
        Seq::empty()
    } else {
        concat_texts(segs.drop_last()) + segs.last().text
    }
}

/// The line that one line of a karaoke file gives: it starts with
/// `[start,duration]`, has at least one segment, and its text (the trimmed
/// join of the segment texts) is neither empty nor a credit. Other lines
/// (metadata in `{…}` among them) give nothing.
pub open spec fn yrc_line_entry(raw: Seq<char>) -> Option<LineModel> {
    let t = trim(raw);
    if t.len() == 0 || t[0] != '[' {
        None
    } else {
        match find(t, ']') {
            None => None,
            Some(he) => match two_numbers(t.subrange(1, he)) {
                None => None,
                Some(nums) => {
                    let segs = scan_segments(t.skip(he + 1));
                    let text = trim(concat_texts(segs));
                    if segs.len() == 0 || text.len() == 0 || is_credit(text) {
                        None
                    } else {
                        Some(
                            LineModel {
                                time_ms: nums.0 as u64,
                                end_time_ms: end_after(nums.0, nums.1),
                                text: text,
                                segments: segs,
                            },
                        )
                    }
                },
            },
        }
    }
}

/// The lines of the file that give karaoke lines, in file order.
pub open spec fn yrc_entries(lines: Seq<Seq<char>>) -> Seq<LineModel>
    decreases lines.len(),
{
    if lines.len() == 0 {
        Seq::empty()
    } else {
        yrc_entries(lines.drop_last()) + match yrc_line_entry(lines.last()) {
            Some(l) => seq![l],
            None => Seq::empty(),
        }
    }
}

/// The parsed karaoke lyrics: the entries in stable time order, each ending
/// where the next starts (at its own end for the last), and never sooner
/// than half a second after its start.
pub open spec fn yrc_lines(content: Seq<char>) -> Seq<LineModel> {
    settle_ends(sort_by_time(yrc_entries(split_lines(content))), true)
}

fn two_numbers_chars(s: &[char]) -> (r: Option<(u64, u64)>)
    ensures
        match r {
            Some(p) => two_numbers(s@) == Some((p.0 as int, p.1 as int)),
            None => two_numbers(s@) is None,
        },
{
    let c = match find_char(s, ',') {
        Some(c) => c,
        None => return None,
    };
    proof { lemma_find(s@, ','); }
    let n = s.len();
    let a = &s[0..c];
    let after = &s[c + 1..n];
    assert(a@ =~= s@.take(c as int));
    assert(after@ =~= s@.skip(c + 1));
    let b = match find_char(after, ',') {
        Some(d) => {
            proof { lemma_find(after@, ','); }
            &after[0..d]
        },
        None => after,
    };
    assert(b@ =~= first_piece(after@, ','));
    match (parse_u64_chars(a), parse_u64_chars(b)) {
        (Some(x), Some(y)) => Some((x, y)),
        _ => None,
    }
}

/// Scans the segments of a karaoke line into `segs`, appending their texts
/// to `text`.
fn scan_segments_chars(rest0: &[char], segs: &mut Vec<LyricSegment>, text: &mut Vec<char>)
    ensures
        segments_model(final(segs)@) == segments_model(old(segs)@) + scan_segments(rest0@),
        final(text)@ == old(text)@ + concat_texts(scan_segments(rest0@)),
{
    let n = rest0.len();
    let mut pos: usize = 0;
    let ghost mut got: Seq<SegmentModel> = Seq::empty();
    assert(rest0@.skip(0) =~= rest0@);
    assert(segments_model(segs@) =~= segments_model(old(segs)@) + got);
    loop
        invariant
            n == rest0@.len(),
            pos <= n,
            scan_segments(rest0@) == got + scan_segments(rest0@.skip(pos as int)),
            segments_model(segs@) == segments_model(old(segs)@) + got,
            text@ == old(text)@ + concat_texts(got),
        decreases n - pos,
    {
        let rest = &rest0[pos..n];
        assert(rest@ =~= rest0@.skip(pos as int));
        let si = match find_char(rest, '(') {
            Some(si) => si,
            None => {
                assert(got + Seq::<SegmentModel>::empty() =~= got);
                return;
            },
        };
        proof { lemma_find(rest@, '('); }
        let r = &rest[si..rest.len()];
        assert(r@ =~= rest@.skip(si as int));
        let ei = match find_char(r, ')') {
            Some(ei) => ei,
            None => {
                assert(got + Seq::<SegmentModel>::empty() =~= got);
                return;
            },
        };
        proof { lemma_find(r@, ')'); }
        assert(ei >= 1);
        let meta = &r[1..ei];
        assert(meta@ =~= r@.subrange(1, ei as int));
        let (start, duration) = match two_numbers_chars(meta) {
            Some(p) => p,
            None => {
                assert(got + Seq::<SegmentModel>::empty() =~= got);
                return;
            },
        };
        let after = &r[ei + 1..r.len()];
        assert(after@ =~= r@.skip(ei + 1));
        let ni = match find_char(after, '(') {
            Some(k) => {
                proof { lemma_find(after@, '('); }
                k
            },
            None => after.len(),
        };
        let seg_text = &after[0..ni];
        assert(seg_text@ =~= after@.take(ni as int));
        let ghost tail_start = rest0@.skip(pos as int).skip(si as int).skip(ei + 1).skip(ni as int);
        assert(after@.skip(ni as int) =~= tail_start);
        let new_pos = pos + si + ei + 1 + ni;
        assert(tail_start =~= rest0@.skip(new_pos as int));
        if trim_chars(seg_text).len() > 0 {
            let seg = LyricSegment {
                start_time_ms: start,
                end_time_ms: start.saturating_add(if duration >= 1 { duration } else { 1 }),
                text: string_from_chars(seg_text),
            };
            let ghost sm = seg@;
            let ghost segs_before = segs@;
            segs.push(seg);
            assert(segments_model(segs@) =~= segments_model(segs_before).push(sm));
            append_chars(text, seg_text);
            proof {
                assert(segments_model(segs@) =~= segments_model(old(segs)@) + got.push(sm));
                assert(got.push(sm).drop_last() =~= got);
                assert(seq![sm] + scan_segments(tail_start) =~= Seq::empty().push(sm) + scan_segments(tail_start));
                assert(got + (seq![sm] + scan_segments(tail_start)) =~= got.push(sm) + scan_segments(tail_start));
                got = got.push(sm);
            }
        }
        pos = new_pos;
    }
}

/// The karaoke line of one file line, when it gives one.
fn yrc_line(raw: &[char]) -> (r: Option<LyricLine>)
    ensures
        match r {
            Some(l) => yrc_line_entry(raw@) == Some(l@),
            None => yrc_line_entry(raw@) is None,
        },
{
    let t = trim_chars(raw);
    if t.len() == 0 || t[0] != '[' {
        return None;
    }
    let he = match find_char(t, ']') {
        Some(he) => he,
        None => return None,
    };
    proof { lemma_find(t@, ']'); }
    assert(he >= 1);
    let header = &t[1..he];
    assert(header@ =~= t@.subrange(1, he as int));
    let (start, duration) = match two_numbers_chars(header) {
        Some(p) => p,
        None => return None,
    };
    let body = &t[he + 1..t.len()];
    assert(body@ =~= t@.skip(he + 1));
    let mut segs: Vec<LyricSegment> = Vec::new();
    let mut all_text: Vec<char> = Vec::new();
    scan_segments_chars(body, &mut segs, &mut all_text);
    assert(segments_model(segs@) =~= scan_segments(body@));
    assert(all_text@ =~= concat_texts(scan_segments(body@)));
    if segs.len() == 0 {
        return None;
    }
    let text = trim_chars(all_text.as_slice());
    if text.len() == 0 || is_credit_chars(text) {
        return None;
    }
    Some(LyricLine {
        time_ms: start,
        end_time_ms: start.saturating_add(if duration >= 1 { duration } else { 1 }),
        text: string_from_chars(text),
        segments: segs,
    })
}

/// Parses karaoke (`.yrc`) lyrics. A line `[start,duration]` followed by
/// `(start,duration,…)text` groups gives a line whose segments are the
/// groups with non-blank text and whose text is their trimmed join; it ends
/// `duration` (at least 1) ms after its start. Metadata lines (`{…}`),
/// lines without segments, without text or with a credit are left out.
/// Lines are sorted by start time (stable), and each then ends where the
/// next starts, but at least half a second after its own start; the last
/// keeps its own end (also at least half a second).
pub fn parse_yrc(content: &str) -> (v: Vec<LyricLine>)
    ensures
        lines_model(v@) == yrc_lines(content@),
{
    let cs = chars_of(content);
    let s = cs.as_slice();
    let n = s.len();
    let mut sorted: Vec<LyricLine> = Vec::new();
    let mut pos: usize = 0;
    let ghost mut done: Seq<Seq<char>> = Seq::empty();
    assert(s@.skip(0) =~= s@);
    assert(split_lines(s@) =~= done + split_lines(s@.skip(0)));
    loop
        invariant
            n == s@.len(),
            s@ == content@,
            pos <= n,
            split_lines(s@) == done + split_lines(s@.skip(pos as int)),
            lines_model(sorted@) == sort_by_time(yrc_entries(done)),
        decreases n - pos,
    {
        let rest = &s[pos..n];
        assert(rest@ =~= s@.skip(pos as int));
        let (line, last) = match find_char(rest, '\n') {
            Some(i) => {
                proof { lemma_find(rest@, '\n'); }
                (&rest[0..i], false)
            },
            None => (rest, true),
        };
        let ghost entry = match yrc_line_entry(line@) {
            Some(l) => seq![l],
            None => Seq::<LineModel>::empty(),
        };
        let ghost before = lines_model(sorted@);
        match yrc_line(line) {
            Some(l) => {
                let ghost lm = l@;
                insert_line(&mut sorted, l);
                assert(entry == seq![lm]);
                assert(seq![lm].drop_last() =~= Seq::<LineModel>::empty());
                assert(insert_all(before, seq![lm].drop_last()) == before);
                assert(seq![lm].last() == lm);
                assert(lines_model(sorted@) == insert_all(before, entry));
            },
            None => {
                assert(entry == Seq::<LineModel>::empty());
                assert(lines_model(sorted@) == insert_all(before, entry));
            },
        }
        proof {
            lemma_sort_append(yrc_entries(done), entry);
            assert(done.push(line@).drop_last() =~= done);
        }
        if last {
            proof {
                assert(split_lines(s@) =~= done.push(line@));
            }
            return settle_end_times(sorted, true);
        }
        proof {
            let i = line@.len() as int;
            assert(line@ =~= rest@.take(i));
            assert(rest@.skip(i + 1) =~= s@.skip(pos + i + 1));
            assert(done + split_lines(rest@) =~= done.push(line@) + split_lines(s@.skip(pos + i + 1)));
            done = done.push(line@);
        }
        pos = pos + line.len() + 1;
    }
}

} // verus!

verus! {

/// A segment as karaoke lyrics give it: text that is not blank, and an end
/// no earlier than its start.
pub open spec fn segment_ok(s: SegmentModel) -> bool {
    trim(s.text).len() > 0 && s.end_time_ms >= s.start_time_ms
}

/// A line as karaoke lyrics give it: at least one segment, all of them
/// well-formed, and a text that is the trimmed join of the segment texts,
/// not empty and not a credit.
pub open spec fn karaoke_line_ok(l: LineModel) -> bool {
    &&& l.segments.len() > 0
    &&& forall|k: int| 0 <= k < l.segments.len() ==> segment_ok(#[trigger] l.segments[k])
    &&& l.text == trim(concat_texts(l.segments))
    &&& l.text.len() > 0
    &&& !is_credit(l.text)
}

proof fn lemma_scan_segments_ok(rest: Seq<char>)
    ensures
        forall|k: int| 0 <= k < scan_segments(rest).len() ==> segment_ok(#[trigger] scan_segments(rest)[k]),
    decreases rest.len(),
{
    match find(rest, '(') {
        None => {},
        Some(si) => {
            lemma_find(rest, '(');
            let r = rest.skip(si);
            match find(r, ')') {
                None => {},
                Some(ei) => {
                    lemma_find(r, ')');
                    match two_numbers(r.subrange(1, ei)) {
                        None => {},
                        Some(nums) => {
                            let after = r.skip(ei + 1);
                            lemma_find(after, '(');
                            let ni = match find(after, '(') {
                                Some(k) => k,
                                None => after.len() as int,
                            };
                            let tail = scan_segments(after.skip(ni));
                            lemma_scan_segments_ok(after.skip(ni));
                            let text = after.take(ni);
                            if trim(text).len() > 0 {
                                let head = seq![
                                    SegmentModel {
                                        start_time_ms: nums.0 as u64,
                                        end_time_ms: end_after(nums.0, nums.1),
                                        text: text,
                                    },
                                ];
                                assert forall|k: int| 0 <= k < (head + tail).len() implies segment_ok(
                                    #[trigger] (head + tail)[k],
                                ) by {
                                    if k > 0 {
                                        assert((head + tail)[k] == tail[k - 1]);
                                    }
                                }
                            }
                        },
                    }
                },
            }
        },
    }
}

proof fn lemma_yrc_entries_ok(lines: Seq<Seq<char>>)
    ensures
        forall|i: int| 0 <= i < yrc_entries(lines).len() ==> karaoke_line_ok(#[trigger] yrc_entries(lines)[i]),
    decreases lines.len(),
{
    if lines.len() > 0 {
        lemma_yrc_entries_ok(lines.drop_last());
        let a = yrc_entries(lines.drop_last());
        let b = match yrc_line_entry(lines.last()) {
            Some(l) => seq![l],
            None => Seq::<LineModel>::empty(),
        };
        let t = trim(lines.last());
        if let Some(l) = yrc_line_entry(lines.last()) {
            let he = find(t, ']')->0;
            lemma_scan_segments_ok(t.skip(he + 1));
            assert(karaoke_line_ok(l));
        }
        assert forall|i: int| 0 <= i < (a + b).len() implies karaoke_line_ok(#[trigger] (a + b)[i]) by {
            if i < a.len() {
                assert((a + b)[i] == a[i]);
            } else {
                assert((a + b)[i] == b[i - a.len()]);
            }
        }
    }
}

/// The lyrics that `parse_yrc` gives form a timeline (start order, each
/// line lasting at least half a second and until the next starts), and
/// every line is a well-formed karaoke line: non-blank segments that end
/// no earlier than they start, and a text that is their trimmed join, not
/// empty and not a credit.
pub proof fn lemma_yrc_lines_wellformed(content: Seq<char>)
    ensures
        is_timeline(yrc_lines(content)),
        forall|i: int| 0 <= i < yrc_lines(content).len() ==> karaoke_line_ok(#[trigger] yrc_lines(content)[i]),
{
    let entries = yrc_entries(split_lines(content));
    lemma_yrc_entries_ok(split_lines(content));
    let p = |l: LineModel| karaoke_line_ok(l);
    assert forall|i: int| 0 <= i < entries.len() implies p(#[trigger] entries[i]) by {}
    lemma_sort_keeps(entries, p);
    lemma_sort_by_time_sorted(entries);
    let sorted = sort_by_time(entries);
    lemma_settle_ends_timeline(sorted, true);
    lemma_settle_keeps(sorted, true, p);
}

} // verus!

verus! {

/// No line that `parse_yrc` gives is a credit: none of their texts begins
/// with 作词, 作曲, 编曲, 制作人 or 监制.
pub proof fn lemma_yrc_drops_credit_lines(content: Seq<char>)
    ensures
        forall|i: int| 0 <= i < yrc_lines(content).len() ==> !crate::lrc::begins_with_credit_word(
            #[trigger] yrc_lines(content)[i].text,
        ),
{
    lemma_yrc_lines_wellformed(content);
    assert forall|i: int| 0 <= i < yrc_lines(content).len() implies !crate::lrc::begins_with_credit_word(
        #[trigger] yrc_lines(content)[i].text,
    ) by {
        assert(karaoke_line_ok(yrc_lines(content)[i]));
        crate::lrc::lemma_credit_words(yrc_lines(content)[i].text);
    }
}

} // verus!

verus! {

/// Every karaoke line comes from one line of the file.
proof fn lemma_yrc_entry_source(lines: Seq<Seq<char>>, x: LineModel)
    requires
        yrc_entries(lines).contains(x),
    ensures
        exists|k: int| 0 <= k < lines.len() && yrc_line_entry(#[trigger] lines[k]) == Some(x),
    decreases lines.len(),
{
    let d = lines.drop_last();
    let a = yrc_entries(d);
    let b = match yrc_line_entry(lines.last()) {
        Some(l) => seq![l],
        None => Seq::<LineModel>::empty(),
    };
    assert(yrc_entries(lines) == a + b);
    let j = choose|j: int| 0 <= j < (a + b).len() && (a + b)[j] == x;
    if j < a.len() {
        assert(a[j] == x);
        lemma_yrc_entry_source(d, x);
        let k = choose|k: int| 0 <= k < d.len() && yrc_line_entry(#[trigger] d[k]) == Some(x);
        assert(lines[k] == d[k]);
    } else {
        assert(b[j - a.len()] == x);
        assert(yrc_line_entry(lines[lines.len() - 1]) == Some(x));
    }
}

/// Line `l` is the karaoke line `e` that one line of the file gives, with
/// an end no earlier than the one `e` has from its header, nor sooner than
/// half a second after its start, and equal to one of the two.
pub open spec fn keeps_header_end(e: LineModel, l: LineModel) -> bool {
    &&& e.time_ms == l.time_ms
    &&& e.text == l.text
    &&& e.segments == l.segments
    &&& l.end_time_ms >= e.end_time_ms
    &&& l.end_time_ms >= e.time_ms.saturating_add(500)
    &&& (l.end_time_ms == e.end_time_ms || l.end_time_ms == e.time_ms.saturating_add(500))
}

/// The last line that `parse_yrc` gives ends no earlier than the end its
/// own `[start,duration]` header gives (`start + max(duration, 1)`), and
/// not sooner than half a second after its start; it ends at one of the
/// two.
pub proof fn lemma_yrc_last_line_keeps_its_end(content: Seq<char>)
    ensures
        yrc_lines(content).len() > 0 ==> exists|k: int|
            0 <= k < split_lines(content).len() && (#[trigger] yrc_line_entry(split_lines(content)[k])) is Some
                && keeps_header_end(yrc_line_entry(split_lines(content)[k])->0, yrc_lines(content).last()),
{
    let lines = split_lines(content);
    let entries = yrc_entries(lines);
    let sorted = sort_by_time(entries);
    crate::lyrics::lemma_sort_by_time_permutes(entries);
    lemma_sort_by_time_sorted(entries);
    crate::lyrics::lemma_settled_end_of_each_line(sorted, true);
    if yrc_lines(content).len() > 0 {
        let x = sorted.last();
        assert(sorted.contains(x)) by {
            assert(sorted[sorted.len() - 1] == x);
        }
        vstd::seq_lib::to_multiset_contains(sorted, x);
        vstd::seq_lib::to_multiset_contains(entries, x);
        assert(entries.contains(x));
        lemma_yrc_entry_source(lines, x);
        let k = choose|k: int| 0 <= k < lines.len() && yrc_line_entry(#[trigger] lines[k]) == Some(x);
        assert(yrc_line_entry(lines[k]) == Some(x));
    }
}

} // verus!
