//! The lyric line and segment types, and the time order that parsed lyrics
//! are put in.
use vstd::prelude::*;

verus! {

/// One timed piece of a karaoke line.
#[derive(Debug, Clone, PartialEq)]
pub struct LyricSegment {
    pub start_time_ms: u64,
    pub end_time_ms: u64,
    pub text: String,
}

/// One displayed line of lyrics, with the time span in which it is sung
/// and, for karaoke lyrics, its timed segments.
#[derive(Debug, Clone, PartialEq)]
pub struct LyricLine {
    pub time_ms: u64,
    pub end_time_ms: u64,
    pub text: String,
    pub segments: Vec<LyricSegment>,
}

/// The mathematical value of a `LyricSegment`.
pub struct SegmentModel {
    pub start_time_ms: u64,
    pub end_time_ms: u64,
    pub text: Seq<char>,
}

/// The mathematical value of a `LyricLine`.
pub struct LineModel {
    pub time_ms: u64,
    pub end_time_ms: u64,
    pub text: Seq<char>,
    pub segments: Seq<SegmentModel>,
}

impl View for LyricSegment {
    type V = SegmentModel;

    open spec fn view(&self) -> SegmentModel {
        SegmentModel {
            start_time_ms: self.start_time_ms,
            end_time_ms: self.end_time_ms,
            text: self.text@,
        }
    }
}

/// The values of a sequence of segments.
pub open spec fn segments_model(v: Seq<LyricSegment>) -> Seq<SegmentModel> {
    v.map_values(|s: LyricSegment| s@)
}

impl View for LyricLine {
    type V = LineModel;

    open spec fn view(&self) -> LineModel {
        LineModel {
            time_ms: self.time_ms,
            end_time_ms: self.end_time_ms,
            text: self.text@,
            segments: segments_model(self.segments@),
        }
    }
}

/// The values of a sequence of lines.
pub open spec fn lines_model(v: Seq<LyricLine>) -> Seq<LineModel> {
    v.map_values(|l: LyricLine| l@)
}

// ------------------------------------------------------------ time order

/// Where a line starting at `t` goes in `s` so that it follows every line of
/// `s` that starts no later than `t` (counted from the back).
pub open spec fn insert_index(s: Seq<LineModel>, t: u64) -> int
    decreases s.len(),
{
    if s.len() > 0 && s.last().time_ms > t {
        insert_index(s.drop_last(), t)
    } else {
        s.len() as int
    }
}

/// Inserts `l` into time-ordered `s` after the lines that start no later.
pub open spec fn insert_by_time(s: Seq<LineModel>, l: LineModel) -> Seq<LineModel> {
    s.insert(insert_index(s, l.time_ms), l)
}

/// Inserts the lines of `ls` one after the other.
pub open spec fn insert_all(s: Seq<LineModel>, ls: Seq<LineModel>) -> Seq<LineModel>
    decreases ls.len(),
{
    if ls.len() == 0 {
        s
    } else {
        insert_by_time(insert_all(s, ls.drop_last()), ls.last())
    }
}

/// The stable sort of `s` by start time: lines that start at the same time
/// keep their order (what `sort_by_key` on the start time gives).
pub open spec fn sort_by_time(s: Seq<LineModel>) -> Seq<LineModel>
    decreases s.len(),
{
    if s.len() == 0 {
        s
    } else {
        insert_by_time(sort_by_time(s.drop_last()), s.last())
    }
}

/// Start times never decrease along `s`.
pub open spec fn is_time_sorted(s: Seq<LineModel>) -> bool {
    forall|i: int, j: int| 0 <= i <= j < s.len() ==> s[i].time_ms <= s[j].time_ms
}

/// In time-ordered lines, a line starting at `t` goes after exactly the
/// lines that start no later than `t`.
pub proof fn lemma_insert_index(s: Seq<LineModel>, t: u64)
    ensures
        0 <= insert_index(s, t) <= s.len(),
        is_time_sorted(s) ==> forall|i: int|
            0 <= i < s.len() ==> (#[trigger] s[i].time_ms <= t <==> i < insert_index(s, t)),
    decreases s.len(),
{
    if s.len() > 0 && s.last().time_ms > t {
        let d = s.drop_last();
        lemma_insert_index(d, t);
        if is_time_sorted(s) {
            assert(is_time_sorted(d));
            assert forall|i: int| 0 <= i < s.len() implies (#[trigger] s[i].time_ms <= t <==> i
                < insert_index(s, t)) by {
                if i < d.len() {
                    assert(s[i] == d[i]);
                }
            }
        }
    }
}

/// Inserting by time keeps a time-ordered sequence time-ordered.
pub proof fn lemma_insert_by_time_sorted(s: Seq<LineModel>, l: LineModel)
    requires
        is_time_sorted(s),
    ensures
        is_time_sorted(insert_by_time(s, l)),
        insert_by_time(s, l).len() == s.len() + 1,
{
    lemma_insert_index(s, l.time_ms);
    let k = insert_index(s, l.time_ms);
    let r = insert_by_time(s, l);
    assert forall|i: int, j: int| 0 <= i <= j < r.len() implies r[i].time_ms <= r[j].time_ms by {
        if i < k && j > k {
            assert(r[i] == s[i]);
            assert(r[j] == s[j - 1]);
        } else if i < k && j == k {
            assert(r[i] == s[i]);
        } else if i == k && j > k {
            assert(r[j] == s[j - 1]);
        } else if i > k {
            assert(r[i] == s[i - 1]);
            assert(r[j] == s[j - 1]);
        } else if j < k {
            assert(r[i] == s[i]);
            assert(r[j] == s[j]);
        }
    }
}

/// The stable sort by time is time-ordered and keeps the number of lines.
pub proof fn lemma_sort_by_time_sorted(s: Seq<LineModel>)
    ensures
        is_time_sorted(sort_by_time(s)),
        sort_by_time(s).len() == s.len(),
    decreases s.len(),
{
    if s.len() > 0 {
        lemma_sort_by_time_sorted(s.drop_last());
        lemma_insert_by_time_sorted(sort_by_time(s.drop_last()), s.last());
    }
}

/// Sorting by time only reorders the lines: each line is kept, as often as
/// it occurs.
pub proof fn lemma_sort_by_time_permutes(s: Seq<LineModel>)
    ensures
        sort_by_time(s).to_multiset() == s.to_multiset(),
    decreases s.len(),
{
    if s.len() > 0 {
        let d = s.drop_last();
        lemma_sort_by_time_permutes(d);
        let sd = sort_by_time(d);
        lemma_insert_index(sd, s.last().time_ms);
        vstd::seq_lib::to_multiset_insert(sd, insert_index(sd, s.last().time_ms), s.last());
        vstd::seq_lib::to_multiset_build(d, s.last());
        assert(d.push(s.last()) =~= s);
    }
}

/// Sorting a sequence that grew at its end inserts the new lines into the
/// sorted sequence.
pub proof fn lemma_sort_append(a: Seq<LineModel>, b: Seq<LineModel>)
    ensures
        sort_by_time(a + b) == insert_all(sort_by_time(a), b),
    decreases b.len(),
{
    if b.len() == 0 {
        assert(a + b =~= a);
    } else {
        assert((a + b).drop_last() =~= a + b.drop_last());
        assert((a + b).last() == b.last());
        lemma_sort_append(a, b.drop_last());
    }
}

/// Inserts `l` into `v` at its stable place by start time.
pub(crate) fn insert_line(v: &mut Vec<LyricLine>, l: LyricLine)
    ensures
        lines_model(final(v)@) == insert_by_time(lines_model(old(v)@), l@),
{
    let t = l.time_ms;
    let mut j: usize = v.len();
    assert(lines_model(v@).take(j as int) =~= lines_model(v@));
    while j > 0 && v[j - 1].time_ms > t
        invariant
            j <= v@.len(),
            v@ == old(v)@,
            insert_index(lines_model(v@), t) == insert_index(lines_model(v@).take(j as int), t),
        decreases j,
    {
        assert(lines_model(v@).take(j as int).drop_last() =~= lines_model(v@).take(j - 1));
        j = j - 1;
    }
    proof {
        let m = lines_model(v@).take(j as int);
        if j > 0 {
            assert(m.last() == lines_model(v@)[j - 1]);
        }
        assert(insert_index(m, t) == j);
    }
    v.insert(j, l);
    assert(lines_model(v@) =~= lines_model(old(v)@).insert(j as int, l@));
}

// ------------------------------------------------------------- end times

/// A line ends at the next start it is given, but never sooner than half a
/// second after its own start.
pub open spec fn settled_end(l: LineModel, next_start: u64) -> u64 {
    let floor = l.time_ms.saturating_add(500);
    if next_start >= floor {
        next_start
    } else {
        floor
    }
}

/// The end a last line is given: four seconds after its start for plain
/// lyrics; its own end (at least half a second after its start) for karaoke.
pub open spec fn fallback_end(l: LineModel, karaoke: bool) -> u64 {
    if karaoke {
        let floor = l.time_ms.saturating_add(500);
        if l.end_time_ms >= floor {
            l.end_time_ms
        } else {
            floor
        }
    } else {
        l.time_ms.saturating_add(4_000)
    }
}

/// `l` with its end time replaced.
pub open spec fn with_end(l: LineModel, end: u64) -> LineModel {
    LineModel { time_ms: l.time_ms, end_time_ms: end, text: l.text, segments: l.segments }
}

/// Every line of time-ordered `s` given its end: the start of the line after
/// it, or the fallback for the last line, raised to half a second after its
/// start.
pub open spec fn settle_ends(s: Seq<LineModel>, karaoke: bool) -> Seq<LineModel> {
    Seq::new(
        s.len(),
        |i: int|
            with_end(
                s[i],
                settled_end(
                    s[i],
                    if i + 1 < s.len() {
                        s[i + 1].time_ms
                    } else {
                        fallback_end(s[i], karaoke)
                    },
                ),
            ),
    )
}

/// Gives every line its end time (see `settle_ends`).
pub(crate) fn settle_end_times(v: Vec<LyricLine>, karaoke: bool) -> (r: Vec<LyricLine>)
    ensures
        lines_model(r@) == settle_ends(lines_model(v@), karaoke),
{
    let ghost all = lines_model(v@);
    let mut rest = v;
    let mut out: Vec<LyricLine> = Vec::new();
    assert(lines_model(rest@) =~= all.skip(0));
    while rest.len() > 0
        invariant
            out@.len() + rest@.len() == all.len(),
            lines_model(rest@) == all.skip(out@.len() as int),
            lines_model(out@) == settle_ends(all, karaoke).take(out@.len() as int),
        decreases rest@.len(),
    {
        let ghost k = out@.len() as int;
        let ghost before = rest@;
        let mut l = rest.remove(0);
        assert(l@ == all[k]) by {
            assert(lines_model(before)[0] == before[0]@);
        }
        assert(lines_model(rest@) =~= lines_model(before).drop_first());
        let floor = l.time_ms.saturating_add(500);
        let next = if rest.len() > 0 {
            rest[0].time_ms
        } else if karaoke {
            if l.end_time_ms >= floor {
                l.end_time_ms
            } else {
                floor
            }
        } else {
            l.time_ms.saturating_add(4_000)
        };
        l.end_time_ms = if next >= floor {
            next
        } else {
            floor
        };
        out.push(l);
        proof {
            if rest@.len() > 0 {
                assert(lines_model(rest@)[0] == all[k + 1]);
            }
            assert(lines_model(rest@) =~= all.skip(k + 1));
            assert(lines_model(out@) =~= settle_ends(all, karaoke).take(k + 1));
        }
    }
    assert(settle_ends(all, karaoke).take(out@.len() as int) =~= settle_ends(all, karaoke));
    out
}

} // verus!

verus! {

/// Lines in start order, each lasting at least half a second (up to the
/// largest time), each lasting at least until the next one starts.
pub open spec fn is_timeline(s: Seq<LineModel>) -> bool {
    &&& is_time_sorted(s)
    &&& forall|i: int| 0 <= i < s.len() ==> #[trigger] s[i].end_time_ms >= s[i].time_ms.saturating_add(500)
    &&& forall|i: int| 0 <= i < s.len() - 1 ==> #[trigger] s[i].end_time_ms >= s[i + 1].time_ms
}

/// Giving time-ordered lines their ends makes a timeline: the order and
/// every start, text and segment stay, every line lasts at least half a
/// second and reaches the start of the next.
pub proof fn lemma_settle_ends_timeline(s: Seq<LineModel>, karaoke: bool)
    requires
        is_time_sorted(s),
    ensures
        is_timeline(settle_ends(s, karaoke)),
        settle_ends(s, karaoke).len() == s.len(),
        forall|i: int| 0 <= i < s.len() ==> {
            &&& (#[trigger] settle_ends(s, karaoke)[i]).time_ms == s[i].time_ms
            &&& settle_ends(s, karaoke)[i].text == s[i].text
            &&& settle_ends(s, karaoke)[i].segments == s[i].segments
        },
{
    let r = settle_ends(s, karaoke);
    assert forall|i: int, j: int| 0 <= i <= j < r.len() implies r[i].time_ms <= r[j].time_ms by {
        assert(r[i].time_ms == s[i].time_ms);
        assert(r[j].time_ms == s[j].time_ms);
    }
}

/// Stable sorting keeps every property that all the lines have.
pub proof fn lemma_sort_keeps(s: Seq<LineModel>, p: spec_fn(LineModel) -> bool)
    requires
        forall|i: int| 0 <= i < s.len() ==> p(#[trigger] s[i]),
    ensures
        forall|i: int| 0 <= i < sort_by_time(s).len() ==> p(#[trigger] sort_by_time(s)[i]),
    decreases s.len(),
{
    if s.len() > 0 {
        let d = s.drop_last();
        assert forall|i: int| 0 <= i < d.len() implies p(#[trigger] d[i]) by {
            assert(d[i] == s[i]);
        }
        lemma_sort_keeps(d, p);
        let sd = sort_by_time(d);
        lemma_insert_index(sd, s.last().time_ms);
        let k = insert_index(sd, s.last().time_ms);
        let r = sort_by_time(s);
        assert(r == sd.insert(k, s.last()));
        assert forall|i: int| 0 <= i < r.len() implies p(#[trigger] r[i]) by {
            if i < k {
                assert(r[i] == sd[i]);
            } else if i > k {
                assert(r[i] == sd[i - 1]);
            } else {
                assert(p(s[s.len() - 1]));
            }
        }
    }
}

/// Giving lines their ends keeps every property of their start, text and
/// segments.
pub proof fn lemma_settle_keeps(s: Seq<LineModel>, karaoke: bool, p: spec_fn(LineModel) -> bool)
    requires
        forall|i: int| 0 <= i < s.len() ==> p(#[trigger] s[i]),
        forall|l: LineModel, e: u64| p(l) ==> #[trigger] p(with_end(l, e)),
    ensures
        forall|i: int| 0 <= i < settle_ends(s, karaoke).len() ==> p(#[trigger] settle_ends(s, karaoke)[i]),
{
    let r = settle_ends(s, karaoke);
    assert forall|i: int| 0 <= i < r.len() implies p(#[trigger] r[i]) by {
        assert(p(s[i]));
    }
}

} // verus!

verus! {

/// The end every line is given, line by line: a line that another follows
/// ends where that one starts, but not sooner than half a second after its
/// own start. The last line ends, in karaoke lyrics, at its own end (the one
/// its header gives), and otherwise four seconds after its start, again not
/// sooner than half a second after its start. Starts saturate at `u64::MAX`.
pub proof fn lemma_settled_end_of_each_line(s: Seq<LineModel>, karaoke: bool)
    ensures
        settle_ends(s, karaoke).len() == s.len(),
        forall|i: int| 0 <= i < s.len() - 1 ==> {
            let end = (#[trigger] settle_ends(s, karaoke)[i]).end_time_ms;
            let floor = s[i].time_ms.saturating_add(500);
            &&& end >= floor
            &&& end >= s[i + 1].time_ms
            &&& (end == floor || end == s[i + 1].time_ms)
        },
        s.len() > 0 && karaoke ==> {
            let end = settle_ends(s, karaoke).last().end_time_ms;
            let floor = s.last().time_ms.saturating_add(500);
            &&& end >= floor
            &&& end >= s.last().end_time_ms
            &&& (end == floor || end == s.last().end_time_ms)
        },
        s.len() > 0 && !karaoke ==> settle_ends(s, karaoke).last().end_time_ms == s.last().time_ms.saturating_add(
            4000,
        ),
        forall|i: int| 0 <= i < s.len() ==> {
            &&& (#[trigger] settle_ends(s, karaoke)[i]).time_ms == s[i].time_ms
            &&& settle_ends(s, karaoke)[i].text == s[i].text
            &&& settle_ends(s, karaoke)[i].segments == s[i].segments
        },
{
    let r = settle_ends(s, karaoke);
    if s.len() > 0 {
        let l = s.last();
        assert(r.last() == r[s.len() - 1]);
        assert(l.time_ms.saturating_add(4000) >= l.time_ms.saturating_add(500));
    }
}

} // verus!
