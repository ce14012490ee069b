//! How far a lyric line has been sung at a playback position.
use vstd::prelude::*;
use crate::lyrics::{LineModel, LyricLine, SegmentModel};

verus! {

/// The displayed width in columns of a string, as
/// `unicode_width::UnicodeWidthStr::width` reports it.
pub uninterp spec fn display_width(s: Seq<char>) -> usize;

/// Calls `unicode_width::UnicodeWidthStr::width`. The contract only names the
/// result (`display_width`): the crate's width rules (East Asian width,
/// emoji sequences, control characters) are not restated here.
#[verifier::external_body]
fn text_width(s: &str) -> (w: usize)
    ensures
        w == display_width(s@),
{
    unicode_width::UnicodeWidthStr::width(s)
}

/// A fraction of a line that has been sung, kept exact:
/// `(sung_columns + partial_columns * elapsed_ms / span_ms) / total_columns`.
/// Whole columns are those of segments already finished; `partial_columns`
/// belongs to the segment being sung, of which `elapsed_ms` of `span_ms`
/// have passed.
#[derive(Debug, Clone, Copy, PartialEq, Eq)]
pub struct Progress {
    pub sung_columns: u128,
    pub partial_columns: u128,
    pub elapsed_ms: u64,
    pub span_ms: u64,
    pub total_columns: u128,
}

impl Progress {
    /// The numerator of the fraction over `denominator`.
    pub open spec fn numerator(self) -> int {
        self.sung_columns * self.span_ms + self.partial_columns * self.elapsed_ms
    }

    /// The denominator of the fraction.
    pub open spec fn denominator(self) -> int {
        self.total_columns * self.span_ms
    }

    /// Nothing sung yet.
    pub open spec fn spec_none() -> Progress {
        Progress { sung_columns: 0, partial_columns: 0, elapsed_ms: 0, span_ms: 1, total_columns: 1 }
    }

    /// All of it sung.
    pub open spec fn spec_full() -> Progress {
        Progress { sung_columns: 1, partial_columns: 0, elapsed_ms: 0, span_ms: 1, total_columns: 1 }
    }

    /// Nothing sung yet.
    pub fn none() -> (p: Progress)
        ensures
            p == Progress::spec_none(),
    {
        Progress { sung_columns: 0, partial_columns: 0, elapsed_ms: 0, span_ms: 1, total_columns: 1 }
    }

    /// All of it sung.
    pub fn full() -> (p: Progress)
        ensures
            p == Progress::spec_full(),
    {
        Progress { sung_columns: 1, partial_columns: 0, elapsed_ms: 0, span_ms: 1, total_columns: 1 }
    }
}

/// The columns a segment counts for: its width, but at least one.
pub open spec fn columns(w: usize) -> int {
    if w >= 1 {
        w as int
    } else {
        1
    }
}

/// The columns of all segments together.
pub open spec fn total_columns(ws: Seq<usize>) -> int
    decreases ws.len(),
{
    if ws.len() == 0 {
        0
    } else {
        total_columns(ws.drop_last()) + columns(ws.last())
    }
}

/// Walks the segments in order: every segment that has ended counts whole;
/// the first that has not ended counts in part if it has begun, and the walk
/// stops there. Gives (whole columns, partial columns, elapsed, span).
pub open spec fn sung_state(segs: Seq<SegmentModel>, ws: Seq<usize>, pos: u64) -> (
    int,
    int,
    u64,
    u64,
)
    decreases segs.len(),
{
    if segs.len() == 0 || ws.len() == 0 {
        (0, 0, 0, 1)
    } else if pos >= segs[0].end_time_ms {
        let r = sung_state(segs.drop_first(), ws.drop_first(), pos);
        (columns(ws[0]) + r.0, r.1, r.2, r.3)
    } else if pos > segs[0].start_time_ms {
        let d = segs[0].end_time_ms - segs[0].start_time_ms;
        (0, columns(ws[0]), (pos - segs[0].start_time_ms) as u64, if d >= 1 { d as u64 } else { 1 })
    } else {
        (0, 0, 0, 1)
    }
}

/// The progress of `line` at `pos`, given the widths of its segments. A
/// karaoke line goes by segments, weighted by their widths; another line
/// goes linearly from its start to its end.
pub open spec fn line_progress_spec(line: LineModel, ws: Seq<usize>, pos: u64) -> Progress {
    if line.segments.len() > 0 {
        let st = sung_state(line.segments, ws, pos);
        Progress {
            sung_columns: st.0 as u128,
            partial_columns: st.1 as u128,
            elapsed_ms: st.2,
            span_ms: st.3,
            total_columns: total_columns(ws) as u128,
        }
    } else if pos <= line.time_ms {
        Progress::spec_none()
    } else if pos >= line.end_time_ms {
        Progress::spec_full()
    } else {
        Progress {
            sung_columns: 0,
            partial_columns: 1,
            elapsed_ms: (pos - line.time_ms) as u64,
            span_ms: (line.end_time_ms - line.time_ms) as u64,
            total_columns: 1,
        }
    }
}

/// The widths of the segment texts.
pub open spec fn segment_widths(segs: Seq<SegmentModel>) -> Seq<usize> {
    segs.map_values(|s: SegmentModel| display_width(s.text))
}

proof fn lemma_total_columns_bound(ws: Seq<usize>)
    ensures
        ws.len() <= total_columns(ws) <= ws.len() * (usize::MAX as int),
    decreases ws.len(),
{
    if ws.len() > 0 {
        lemma_total_columns_bound(ws.drop_last());
        assert((ws.len() - 1) * (usize::MAX as int) + (usize::MAX as int) == ws.len()
            * (usize::MAX as int)) by (nonlinear_arith);
    }
}

proof fn lemma_sung_state_bound(segs: Seq<SegmentModel>, ws: Seq<usize>, pos: u64)
    requires
        segs.len() == ws.len(),
    ensures
        0 <= sung_state(segs, ws, pos).0,
        0 <= sung_state(segs, ws, pos).1,
        sung_state(segs, ws, pos).0 + sung_state(segs, ws, pos).1 <= total_columns(ws),
        sung_state(segs, ws, pos).2 <= sung_state(segs, ws, pos).3,
        sung_state(segs, ws, pos).3 >= 1,
    decreases segs.len(),
{
    if segs.len() > 0 {
        lemma_total_front(ws);
        if pos >= segs[0].end_time_ms {
            lemma_sung_state_bound(segs.drop_first(), ws.drop_first(), pos);
        } else {
            lemma_total_columns_bound(ws.drop_first());
        }
    }
}

/// The columns of all segments split as the first and the rest.
proof fn lemma_total_front(ws: Seq<usize>)
    requires
        ws.len() > 0,
    ensures
        total_columns(ws) == columns(ws[0]) + total_columns(ws.drop_first()),
    decreases ws.len(),
{
    if ws.len() > 1 {
        lemma_total_front(ws.drop_last());
        assert(ws.drop_last().drop_first() =~= ws.drop_first().drop_last());
        assert(ws.drop_first().last() == ws.last());
    } else {
        assert(ws.drop_first() =~= Seq::<usize>::empty());
        assert(ws.drop_last() =~= Seq::<usize>::empty());
    }
}

/// The progress of a line, from the widths of its segments (one width per
/// segment). Computed exactly; see `line_progress` for the meaning.
pub fn progress_from_widths(line: &LyricLine, widths: &[usize], position_ms: u64) -> (p: Progress)
    requires
        widths@.len() == line.segments@.len(),
    ensures
        p == line_progress_spec(line@, widths@, position_ms),
{
    let n = line.segments.len();
    if n > 0 {
        let ghost segs = line@.segments;
        let ghost ws = widths@;
        let mut total: u128 = 0;
        let mut i: usize = 0;
        while i < n
            invariant
                n == ws.len(),
                ws == widths@,
                i <= n,
                total as int == total_columns(ws.take(i as int)),
            decreases n - i,
        {
            proof {
                lemma_total_columns_bound(ws.take(i as int));
                assert(ws.take(i + 1).drop_last() =~= ws.take(i as int));
                assert(i * (usize::MAX as int) + (usize::MAX as int) <= u128::MAX) by (nonlinear_arith)
                    requires i < usize::MAX;
            }
            let w = widths[i];
            total = total + if w >= 1 { w as u128 } else { 1 };
            i = i + 1;
        }
        assert(ws.take(n as int) =~= ws);
        let mut sung: u128 = 0;
        let mut k: usize = 0;
        assert(segs.skip(0) =~= segs);
        assert(ws.skip(0) =~= ws);
        assert(ws.take(0) =~= Seq::<usize>::empty());
        while k < n
            invariant
                n == ws.len(),
                n == line.segments@.len(),
                ws == widths@,
                segs == crate::lyrics::segments_model(line.segments@),
                k <= n,
                total as int == total_columns(ws),
                sung as int == total_columns(ws.take(k as int)),
                forall|j: int| 0 <= j < k ==> position_ms >= #[trigger] segs[j].end_time_ms,
                sung_state(segs, ws, position_ms) == (
                    sung as int + sung_state(segs.skip(k as int), ws.skip(k as int), position_ms).0,
                    sung_state(segs.skip(k as int), ws.skip(k as int), position_ms).1,
                    sung_state(segs.skip(k as int), ws.skip(k as int), position_ms).2,
                    sung_state(segs.skip(k as int), ws.skip(k as int), position_ms).3,
                ),
            decreases n - k,
        {
            let seg = &line.segments[k];
            assert(segs.skip(k as int)[0] == seg@);
            assert(ws.skip(k as int)[0] == widths[k as int]);
            if position_ms >= seg.end_time_ms {
                proof {
                    lemma_total_columns_bound(ws.take(k as int));
                    assert(ws.take(k + 1).drop_last() =~= ws.take(k as int));
                    assert(k * (usize::MAX as int) + (usize::MAX as int) <= u128::MAX) by (nonlinear_arith)
                        requires k < usize::MAX;
                    assert(segs.skip(k as int).drop_first() =~= segs.skip(k + 1));
                    assert(ws.skip(k as int).drop_first() =~= ws.skip(k + 1));
                }
                let w = widths[k];
                sung = sung + if w >= 1 { w as u128 } else { 1 };
                k = k + 1;
            } else if position_ms > seg.start_time_ms {
                let w = widths[k];
                let d = seg.end_time_ms.saturating_sub(seg.start_time_ms);
                let span = if d >= 1 { d } else { 1 };
                proof {
                    lemma_total_columns_bound(ws);
                    lemma_total_columns_bound(ws.take(k as int));
                }
                return Progress {
                    sung_columns: sung,
                    partial_columns: if w >= 1 { w as u128 } else { 1 },
                    elapsed_ms: position_ms - seg.start_time_ms,
                    span_ms: span,
                    total_columns: total,
                };
            } else {
                proof {
                    lemma_total_columns_bound(ws.take(k as int));
                }
                return Progress {
                    sung_columns: sung,
                    partial_columns: 0,
                    elapsed_ms: 0,
                    span_ms: 1,
                    total_columns: total,
                };
            }
        }
        assert(segs.skip(k as int) =~= Seq::<SegmentModel>::empty());
        assert(ws.take(k as int) =~= ws);
        return Progress { sung_columns: sung, partial_columns: 0, elapsed_ms: 0, span_ms: 1, total_columns: total };
    }
    if position_ms <= line.time_ms {
        return Progress::none();
    }
    if position_ms >= line.end_time_ms {
        return Progress::full();
    }
    let duration = line.end_time_ms.saturating_sub(line.time_ms);
    Progress {
        sung_columns: 0,
        partial_columns: 1,
        elapsed_ms: position_ms - line.time_ms,
        span_ms: duration,
        total_columns: 1,
    }
}

/// How far `line` has been sung at `position_ms`. For a karaoke line each
/// finished segment counts with its display width (at least one column),
/// the segment being sung counts in proportion to the time that has passed
/// in it, and the sum is divided by the width of the whole line. Another
/// line goes linearly from nothing at its start to all of it at its end.
pub fn line_progress(line: &LyricLine, position_ms: u64) -> (p: Progress)
    ensures
        p == line_progress_spec(line@, segment_widths(line@.segments), position_ms),
{
    let n = line.segments.len();
    let mut widths: Vec<usize> = Vec::new();
    let mut i: usize = 0;
    while i < n
        invariant
            n == line.segments@.len(),
            i <= n,
            widths@ == segment_widths(line@.segments).take(i as int),
        decreases n - i,
    {
        let w = text_width(line.segments[i].text.as_str());
        widths.push(w);
        i = i + 1;
        assert(widths@ =~= segment_widths(line@.segments).take(i as int));
    }
    assert(widths@ =~= segment_widths(line@.segments));
    progress_from_widths(line, widths.as_slice(), position_ms)
}

/// A line's progress is a fraction between nothing and all of it.
pub proof fn lemma_progress_in_range(line: LineModel, ws: Seq<usize>, pos: u64)
    requires
        ws.len() == line.segments.len(),
        ws.len() <= usize::MAX,
    ensures
        0 <= line_progress_spec(line, ws, pos).numerator(),
        line_progress_spec(line, ws, pos).numerator() <= line_progress_spec(line, ws, pos).denominator(),
        line_progress_spec(line, ws, pos).denominator() > 0,
{
    let p = line_progress_spec(line, ws, pos);
    if line.segments.len() > 0 {
        lemma_sung_state_bound(line.segments, ws, pos);
        lemma_total_columns_bound(ws);
        let st = sung_state(line.segments, ws, pos);
        let t = total_columns(ws);
        assert(ws.len() * (usize::MAX as int) <= u128::MAX) by (nonlinear_arith)
            requires ws.len() <= usize::MAX;
        assert(p.sung_columns == st.0 && p.partial_columns == st.1 && p.total_columns == t);
        assert(p.span_ms == st.3 && p.elapsed_ms == st.2);
        assert(st.0 * st.3 + st.1 * st.2 <= t * st.3) by (nonlinear_arith)
            requires
                0 <= st.0,
                0 <= st.1,
                st.0 + st.1 <= t,
                st.2 <= st.3,
                st.3 >= 1,
        ;
        assert(0 <= st.0 * st.3 + st.1 * st.2) by (nonlinear_arith)
            requires
                0 <= st.0,
                0 <= st.1,
                0 <= st.2,
                st.3 >= 1,
        ;
        assert(t * st.3 > 0) by (nonlinear_arith)
            requires
                t >= 1,
                st.3 >= 1,
        ;
        assert(p.numerator() == st.0 * st.3 + st.1 * st.2);
        assert(p.denominator() == t * st.3);
    } else if pos <= line.time_ms {
        assert(p == Progress::spec_none());
        assert(p.numerator() == 0);
        assert(p.denominator() == 1);
    } else if pos >= line.end_time_ms {
        assert(p == Progress::spec_full());
        assert(p.numerator() == 1);
        assert(p.denominator() == 1);
    } else {
        assert(p.numerator() == pos - line.time_ms);
        assert(p.denominator() == line.end_time_ms - line.time_ms);
    }
}

} // verus!

verus! {

/// On a line without segments, at a later position at least as much of the
/// line counts as sung.
proof fn lemma_plain_progress_monotone(line: LineModel, pos1: u64, pos2: u64)
    requires
        line.segments.len() == 0,
        pos1 <= pos2,
    ensures
        ({
            let a = line_progress_spec(line, Seq::empty(), pos1);
            let b = line_progress_spec(line, Seq::empty(), pos2);
            a.numerator() * b.denominator() <= b.numerator() * a.denominator()
        }),
{
    let a = line_progress_spec(line, Seq::empty(), pos1);
    let b = line_progress_spec(line, Seq::empty(), pos2);
    lemma_progress_in_range(line, Seq::empty(), pos1);
    lemma_progress_in_range(line, Seq::empty(), pos2);
    let an = a.numerator();
    let ad = a.denominator();
    let bn = b.numerator();
    let bd = b.denominator();
    if pos1 <= line.time_ms {
        assert(a == Progress::spec_none());
        assert(an * bd <= bn * ad) by (nonlinear_arith)
            requires
                an == a.sung_columns * a.span_ms + a.partial_columns * a.elapsed_ms,
                a.sung_columns == 0,
                a.partial_columns == 0,
                bn >= 0,
                ad > 0,
        ;
    } else if pos2 >= line.end_time_ms {
        assert(b == Progress::spec_full());
        assert(an * bd <= bn * ad) by (nonlinear_arith)
            requires
                bn == b.sung_columns * b.span_ms + b.partial_columns * b.elapsed_ms,
                bd == b.total_columns * b.span_ms,
                b.sung_columns == 1 && b.partial_columns == 0 && b.total_columns == 1 && b.span_ms == 1,
                an <= ad,
        ;
    } else {
        let d = line.end_time_ms - line.time_ms;
        assert(a.sung_columns == 0 && a.partial_columns == 1 && a.total_columns == 1);
        assert(a.elapsed_ms == pos1 - line.time_ms && a.span_ms == d);
        assert(b.sung_columns == 0 && b.partial_columns == 1 && b.total_columns == 1);
        assert(b.elapsed_ms == pos2 - line.time_ms && b.span_ms == d);
        assert(an * bd <= bn * ad) by (nonlinear_arith)
            requires
                an == a.sung_columns * a.span_ms + a.partial_columns * a.elapsed_ms,
                ad == a.total_columns * a.span_ms,
                bn == b.sung_columns * b.span_ms + b.partial_columns * b.elapsed_ms,
                bd == b.total_columns * b.span_ms,
                a.sung_columns == 0 && a.partial_columns == 1 && a.total_columns == 1,
                b.sung_columns == 0 && b.partial_columns == 1 && b.total_columns == 1,
                a.span_ms == d && b.span_ms == d,
                a.elapsed_ms <= b.elapsed_ms,
                d > 0,
        ;
    }
}

/// Whether the walk result `a` counts no more as sung than `b`, comparing
/// `whole + partial * elapsed / span` of both.
spec fn state_le(a: (int, int, u64, u64), b: (int, int, u64, u64)) -> bool {
    (a.0 * a.3 + a.1 * a.2) * b.3 <= (b.0 * b.3 + b.1 * b.2) * a.3
}

/// Walking the segments at a later position counts at least as much.
proof fn lemma_sung_state_monotone(segs: Seq<SegmentModel>, ws: Seq<usize>, p1: u64, p2: u64)
    requires
        segs.len() == ws.len(),
        p1 <= p2,
    ensures
        state_le(sung_state(segs, ws, p1), sung_state(segs, ws, p2)),
    decreases segs.len(),
{
    let a = sung_state(segs, ws, p1);
    let b = sung_state(segs, ws, p2);
    lemma_sung_state_bound(segs, ws, p1);
    lemma_sung_state_bound(segs, ws, p2);
    if segs.len() == 0 {
        return;
    }
    let c = columns(ws[0]);
    let ds = segs.drop_first();
    let dw = ws.drop_first();
    if p1 >= segs[0].end_time_ms {
        lemma_sung_state_monotone(ds, dw, p1, p2);
        let ra = sung_state(ds, dw, p1);
        let rb = sung_state(ds, dw, p2);
        assert(a == (c + ra.0, ra.1, ra.2, ra.3));
        assert(b == (c + rb.0, rb.1, rb.2, rb.3));
        assert(state_le(a, b)) by (nonlinear_arith)
            requires
                a == (c + ra.0, ra.1, ra.2, ra.3),
                b == (c + rb.0, rb.1, rb.2, rb.3),
                (ra.0 * ra.3 + ra.1 * ra.2) * rb.3 <= (rb.0 * rb.3 + rb.1 * rb.2) * ra.3,
        ;
    } else if p2 >= segs[0].end_time_ms {
        lemma_sung_state_bound(ds, dw, p2);
        let rb = sung_state(ds, dw, p2);
        assert(b == (c + rb.0, rb.1, rb.2, rb.3));
        assert(a.0 == 0 && a.1 <= c);
        assert(state_le(a, b)) by (nonlinear_arith)
            requires
                a.0 == 0,
                0 <= a.1 <= c,
                a.2 <= a.3,
                a.3 >= 1,
                b == (c + rb.0, rb.1, rb.2, rb.3),
                rb.0 >= 0,
                rb.1 >= 0,
                rb.3 >= 1,
        ;
    } else if p1 > segs[0].start_time_ms {
        assert(a.0 == 0 && b.0 == 0 && a.1 == c && b.1 == c && a.3 == b.3 && a.2 <= b.2);
        assert(state_le(a, b)) by (nonlinear_arith)
            requires
                a.0 == 0 && b.0 == 0 && a.1 == b.1 && a.1 >= 0,
                a.3 == b.3 && a.3 >= 1,
                a.2 <= b.2,
        ;
    } else {
        assert(a == (0int, 0int, 0u64, 1u64));
        assert(state_le(a, b)) by (nonlinear_arith)
            requires
                a == (0int, 0int, 0u64, 1u64),
                b.0 >= 0,
                b.1 >= 0,
                b.3 >= 1,
        ;
    }
}

/// The highlight only moves forward: at a later position at least as much
/// of a line counts as sung, for karaoke lines as for plain ones.
pub proof fn lemma_progress_monotone(line: LineModel, ws: Seq<usize>, pos1: u64, pos2: u64)
    requires
        ws.len() == line.segments.len(),
        ws.len() <= usize::MAX,
        pos1 <= pos2,
    ensures
        ({
            let a = line_progress_spec(line, ws, pos1);
            let b = line_progress_spec(line, ws, pos2);
            a.numerator() * b.denominator() <= b.numerator() * a.denominator()
        }),
{
    if line.segments.len() == 0 {
        assert(ws =~= Seq::<usize>::empty());
        lemma_plain_progress_monotone(line, pos1, pos2);
    } else {
        let a = line_progress_spec(line, ws, pos1);
        let b = line_progress_spec(line, ws, pos2);
        let sa = sung_state(line.segments, ws, pos1);
        let sb = sung_state(line.segments, ws, pos2);
        let t = total_columns(ws);
        lemma_sung_state_bound(line.segments, ws, pos1);
        lemma_sung_state_bound(line.segments, ws, pos2);
        lemma_total_columns_bound(ws);
        lemma_sung_state_monotone(line.segments, ws, pos1, pos2);
        assert(ws.len() * (usize::MAX as int) <= u128::MAX) by (nonlinear_arith)
            requires ws.len() <= usize::MAX;
        assert(a.numerator() == sa.0 * sa.3 + sa.1 * sa.2);
        assert(a.denominator() == t * sa.3);
        assert(b.numerator() == sb.0 * sb.3 + sb.1 * sb.2);
        assert(b.denominator() == t * sb.3);
        assert(a.numerator() * b.denominator() <= b.numerator() * a.denominator()) by (nonlinear_arith)
            requires
                a.numerator() == sa.0 * sa.3 + sa.1 * sa.2,
                a.denominator() == t * sa.3,
                b.numerator() == sb.0 * sb.3 + sb.1 * sb.2,
                b.denominator() == t * sb.3,
                (sa.0 * sa.3 + sa.1 * sa.2) * sb.3 <= (sb.0 * sb.3 + sb.1 * sb.2) * sa.3,
                t >= 0,
        ;
    }
}

} // verus!
