//! Which lyric lines the two-row overlay shows at a playback position.
use vstd::prelude::*;
use crate::lyrics::{LineModel, LyricLine, is_time_sorted, lines_model};
use crate::progress::{Progress, line_progress, line_progress_spec, segment_widths};

verus! {

/// How many lines have started by `pos`.
pub open spec fn started_count(ls: Seq<LineModel>, pos: u64) -> int
    decreases ls.len(),
{
    if ls.len() == 0 {
        0
    } else {
        started_count(ls.drop_last(), pos) + if ls.last().time_ms <= pos {
            1int
        } else {
            0int
        }
    }
}

/// The line being sung at `pos` in time-ordered lyrics: the last that has
/// started, or the first when none has.
pub open spec fn current_index(ls: Seq<LineModel>, pos: u64) -> int {
    if started_count(ls, pos) > 0 {
        started_count(ls, pos) - 1
    } else {
        0
    }
}

/// Where the binary search for `pos` between `lo` and `hi` ends: it halves
/// the range at its middle line, going right of it when that line has
/// started and left of it otherwise.
pub open spec fn search_end(ls: Seq<LineModel>, pos: u64, lo: int, hi: int) -> int
    decreases hi - lo,
{
    if 0 <= lo < hi <= ls.len() {
        let mid = lo + (hi - lo) / 2;
        if ls[mid].time_ms <= pos {
            search_end(ls, pos, mid + 1, hi)
        } else {
            search_end(ls, pos, lo, mid)
        }
    } else {
        lo
    }
}

/// The line that the binary search takes as being sung at `pos`: the one
/// before where the search ends, or the first.
pub open spec fn search_index(ls: Seq<LineModel>, pos: u64) -> int {
    let end = search_end(ls, pos, 0, ls.len() as int);
    if end > 0 {
        end - 1
    } else {
        0
    }
}

proof fn lemma_started_count(ls: Seq<LineModel>, pos: u64, lo: int)
    requires
        0 <= lo <= ls.len(),
        forall|i: int| 0 <= i < lo ==> ls[i].time_ms <= pos,
        forall|i: int| lo <= i < ls.len() ==> ls[i].time_ms > pos,
    ensures
        started_count(ls, pos) == lo,
    decreases ls.len(),
{
    if ls.len() > 0 {
        let d = ls.drop_last();
        if lo == ls.len() {
            lemma_started_count(d, pos, lo - 1);
        } else {
            lemma_started_count(d, pos, lo);
        }
    }
}

proof fn lemma_search_end_sorted(ls: Seq<LineModel>, pos: u64, lo: int, hi: int)
    requires
        is_time_sorted(ls),
        0 <= lo <= hi <= ls.len(),
        forall|i: int| 0 <= i < lo ==> ls[i].time_ms <= pos,
        forall|i: int| hi <= i < ls.len() ==> ls[i].time_ms > pos,
    ensures
        search_end(ls, pos, lo, hi) == started_count(ls, pos),
    decreases hi - lo,
{
    if lo < hi {
        let mid = lo + (hi - lo) / 2;
        if ls[mid].time_ms <= pos {
            lemma_search_end_sorted(ls, pos, mid + 1, hi);
        } else {
            lemma_search_end_sorted(ls, pos, lo, mid);
        }
    } else {
        lemma_started_count(ls, pos, lo);
    }
}

/// In lyrics in time order the binary search takes the line being sung:
/// the last that has started, or the first when none has.
pub proof fn lemma_search_finds_current(ls: Seq<LineModel>, pos: u64)
    requires
        is_time_sorted(ls),
    ensures
        search_index(ls, pos) == current_index(ls, pos),
        pair_shown(ls, pos, true) == pair_at(ls, pos, true),
        pair_shown(ls, pos, false) == pair_at(ls, pos, false),
{
    lemma_search_end_sorted(ls, pos, 0, ls.len() as int);
}

/// Finds, by binary search, the line being sung at `position_ms`: the last
/// line whose start is at or before it (the first line when none is). In
/// time-ordered lyrics that is `current_index`; in any case the line found
/// has started (unless it is the first) and the line after it has not.
pub fn find_current_line_index(lines: &[LyricLine], position_ms: u64) -> (r: usize)
    ensures
        lines@.len() == 0 ==> r == 0,
        lines@.len() > 0 ==> r < lines@.len(),
        lines@.len() > 0 ==> (r == 0 && lines@[0].time_ms > position_ms) || (
        lines@[r as int].time_ms <= position_ms && (r + 1 == lines@.len() || lines@[r + 1].time_ms
            > position_ms)),
        r == search_index(lines_model(lines@), position_ms),
        is_time_sorted(lines_model(lines@)) ==> r == current_index(lines_model(lines@), position_ms),
{
    if lines.len() == 0 {
        return 0;
    }
    let ghost ls = lines_model(lines@);
    let mut lo: usize = 0;
    let mut hi: usize = lines.len();
    while lo < hi
        invariant
            ls == lines_model(lines@),
            lo <= hi <= lines@.len(),
            search_end(ls, position_ms, lo as int, hi as int) == search_end(ls, position_ms, 0, ls.len() as int),
            lo > 0 ==> lines@[lo - 1].time_ms <= position_ms,
            hi < lines@.len() ==> lines@[hi as int].time_ms > position_ms,
            is_time_sorted(ls) ==> forall|i: int| 0 <= i < lo ==> ls[i].time_ms <= position_ms,
            is_time_sorted(ls) ==> forall|i: int|
                hi <= i < lines@.len() ==> ls[i].time_ms > position_ms,
        decreases hi - lo,
    {
        let mid = lo + (hi - lo) / 2;
        if lines[mid].time_ms <= position_ms {
            assert(ls[mid as int].time_ms <= position_ms);
            lo = mid + 1;
        } else {
            assert(ls[mid as int].time_ms > position_ms);
            hi = mid;
        }
    }
    proof {
        if is_time_sorted(ls) {
            lemma_started_count(ls, position_ms, lo as int);
        }
    }
    if lo > 0 {
        lo - 1
    } else {
        0
    }
}

/// The two rows of the overlay: their texts, how far each has been sung,
/// and which of them holds the line being sung.
#[derive(Debug, Clone)]
pub struct LyricRenderPair {
    pub line_1: String,
    pub line_2: String,
    pub progress_1: Progress,
    pub progress_2: Progress,
    pub line_1_active: bool,
    pub line_2_active: bool,
}

/// The mathematical value of a `LyricRenderPair`.
pub struct PairModel {
    pub line_1: Seq<char>,
    pub line_2: Seq<char>,
    pub progress_1: Progress,
    pub progress_2: Progress,
    pub line_1_active: bool,
    pub line_2_active: bool,
}

impl View for LyricRenderPair {
    type V = PairModel;

    open spec fn view(&self) -> PairModel {
        PairModel {
            line_1: self.line_1@,
            line_2: self.line_2@,
            progress_1: self.progress_1,
            progress_2: self.progress_2,
            line_1_active: self.line_1_active,
            line_2_active: self.line_2_active,
        }
    }
}

/// The text shown when there are no lyric lines.
pub open spec fn no_lyrics_text() -> Seq<char> {
    seq!['未', '找', '到', '歌', '词']
}

/// The text of line `i`, or nothing past the end.
pub open spec fn text_at(ls: Seq<LineModel>, i: int) -> Seq<char> {
    if 0 <= i < ls.len() {
        ls[i].text
    } else {
        Seq::empty()
    }
}

/// The progress of line `i` at `pos`.
pub open spec fn progress_at(ls: Seq<LineModel>, i: int, pos: u64) -> Progress {
    line_progress_spec(ls[i], segment_widths(ls[i].segments), pos)
}

/// What the overlay shows at `pos`. Without lyrics: a notice. With one row:
/// the current line. With two rows the lines alternate between the rows: an
/// even current line sits in row 1 with the next line below it; an odd one
/// sits in row 2 with the next line already in row 1.
pub open spec fn pair_at(ls: Seq<LineModel>, pos: u64, show_secondary_line: bool) -> PairModel {
    pair_for_index(ls, current_index(ls, pos), pos, show_secondary_line)
}

/// A line that may be taken as the one being sung at `pos`: it has started
/// (unless it is the first line) and the line after it has not.
pub open spec fn brackets(ls: Seq<LineModel>, pos: u64, i: int) -> bool {
    0 <= i < ls.len() && ((i == 0 && ls[0].time_ms > pos) || (ls[i].time_ms <= pos && (i + 1
        == ls.len() || ls[i + 1].time_ms > pos)))
}

/// What the overlay shows at `pos` when line `i` is the one being sung.
pub open spec fn pair_for_index(ls: Seq<LineModel>, i: int, pos: u64, show_secondary_line: bool) -> PairModel {
    if ls.len() == 0 {
        PairModel {
            line_1: no_lyrics_text(),
            line_2: Seq::empty(),
            progress_1: Progress::spec_full(),
            progress_2: Progress::spec_none(),
            line_1_active: true,
            line_2_active: false,
        }
    } else {
        if !show_secondary_line {
            PairModel {
                line_1: ls[i].text,
                line_2: Seq::empty(),
                progress_1: progress_at(ls, i, pos),
                progress_2: Progress::spec_none(),
                line_1_active: true,
                line_2_active: false,
            }
        } else if i % 2 == 0 {
            PairModel {
                line_1: ls[i].text,
                line_2: text_at(ls, i + 1),
                progress_1: progress_at(ls, i, pos),
                progress_2: Progress::spec_none(),
                line_1_active: true,
                line_2_active: false,
            }
        } else {
            PairModel {
                line_1: text_at(ls, i + 1),
                line_2: ls[i].text,
                progress_1: Progress::spec_none(),
                progress_2: progress_at(ls, i, pos),
                line_1_active: false,
                line_2_active: true,
            }
        }
    }
}

/// What the overlay shows at `pos`: the rows for the line that the binary
/// search takes as being sung (for lyrics in time order that is `pair_at`).
pub open spec fn pair_shown(ls: Seq<LineModel>, pos: u64, show_secondary_line: bool) -> PairModel {
    pair_for_index(ls, search_index(ls, pos), pos, show_secondary_line)
}

fn text_or_empty(lines: &[LyricLine], i: usize) -> (s: String)
    ensures
        s@ == text_at(lines_model(lines@), i as int),
{
    if i < lines.len() {
        lines[i].text.clone()
    } else {
        String::new()
    }
}

/// Chooses the rows of the overlay at `position_ms` (see `pair_shown`). The
/// line taken as current is the one `find_current_line_index` finds; for
/// lyrics in time order that is exactly `pair_at`.
pub fn lyric_pair_for_position(lines: &[LyricLine], position_ms: u64, show_secondary_line: bool) -> (r:
    LyricRenderPair)
    ensures
        r@ == pair_shown(lines_model(lines@), position_ms, show_secondary_line),
        is_time_sorted(lines_model(lines@)) ==> r@ == pair_at(lines_model(lines@), position_ms, show_secondary_line),
        lines@.len() == 0 ==> r@ == pair_for_index(lines_model(lines@), 0, position_ms, show_secondary_line),
        lines@.len() > 0 ==> exists|i: int|
            brackets(lines_model(lines@), position_ms, i) && r@ == pair_for_index(
                lines_model(lines@),
                i,
                position_ms,
                show_secondary_line,
            ),
{
    let ghost ls = lines_model(lines@);
    if lines.len() == 0 {
        let notice = String::from_str("未找到歌词");
        proof {
            reveal_strlit("未找到歌词");
        }
        assert(notice@ =~= no_lyrics_text());
        return LyricRenderPair {
            line_1: notice,
            line_2: String::new(),
            progress_1: Progress::full(),
            progress_2: Progress::none(),
            line_1_active: true,
            line_2_active: false,
        };
    }
    let i = find_current_line_index(lines, position_ms);
    let current = &lines[i];
    assert(ls[i as int] == current@);
    assert(brackets(ls, position_ms, i as int));
    if !show_secondary_line {
        return LyricRenderPair {
            line_1: current.text.clone(),
            line_2: String::new(),
            progress_1: line_progress(current, position_ms),
            progress_2: Progress::none(),
            line_1_active: true,
            line_2_active: false,
        };
    }
    if i % 2 == 0 {
        return LyricRenderPair {
            line_1: current.text.clone(),
            line_2: text_or_empty(lines, i + 1),
            progress_1: line_progress(current, position_ms),
            progress_2: Progress::none(),
            line_1_active: true,
            line_2_active: false,
        };
    }
    LyricRenderPair {
        line_1: text_or_empty(lines, i + 1),
        line_2: current.text.clone(),
        progress_1: Progress::none(),
        progress_2: line_progress(current, position_ms),
        line_1_active: false,
        line_2_active: true,
    }
}

} // verus!

verus! {

/// With two rows the lines relay: exactly one row is active and holds the
/// line being sung, the other already shows the next line, and the active
/// row alternates from line to line (row 1 for even lines, row 2 for odd).
pub proof fn lemma_two_rows_relay(ls: Seq<LineModel>, pos: u64)
    requires
        ls.len() > 0,
    ensures
        ({
            let p = pair_at(ls, pos, true);
            let i = current_index(ls, pos);
            &&& p.line_1_active != p.line_2_active
            &&& p.line_1_active <==> i % 2 == 0
            &&& p.line_1_active ==> p.line_1 == ls[i].text && p.line_2 == text_at(ls, i + 1)
            &&& p.line_2_active ==> p.line_2 == ls[i].text && p.line_1 == text_at(ls, i + 1)
            &&& p.line_1_active ==> p.progress_1 == line_progress_spec(ls[i], segment_widths(ls[i].segments), pos)
                && p.progress_2 == Progress::spec_none()
            &&& p.line_2_active ==> p.progress_2 == line_progress_spec(ls[i], segment_widths(ls[i].segments), pos)
                && p.progress_1 == Progress::spec_none()
        }),
{
}

/// With one row, the row holds the line being sung and nothing else is
/// shown.
pub proof fn lemma_one_row(ls: Seq<LineModel>, pos: u64)
    requires
        ls.len() > 0,
    ensures
        pair_at(ls, pos, false).line_1 == ls[current_index(ls, pos)].text,
        pair_at(ls, pos, false).line_2 == Seq::<char>::empty(),
        pair_at(ls, pos, false).line_1_active && !pair_at(ls, pos, false).line_2_active,
        pair_at(ls, pos, false).progress_1 == line_progress_spec(
            ls[current_index(ls, pos)],
            segment_widths(ls[current_index(ls, pos)].segments),
            pos,
        ),
        pair_at(ls, pos, false).progress_2 == Progress::spec_none(),
{
}

} // verus!

verus! {

/// The row that holds the line being sung shows how far that line has been
/// sung (its `line_progress` at `pos`); the other row shows nothing sung.
/// This holds for any line taken as current, so for `pair_at` and
/// `pair_shown` alike.
pub proof fn lemma_active_row_progress(ls: Seq<LineModel>, i: int, pos: u64, show_secondary_line: bool)
    requires
        0 <= i < ls.len(),
    ensures
        ({
            let p = pair_for_index(ls, i, pos, show_secondary_line);
            let sung = line_progress_spec(ls[i], segment_widths(ls[i].segments), pos);
            &&& p.line_1_active != p.line_2_active
            &&& p.line_1_active ==> p.progress_1 == sung && p.progress_2 == Progress::spec_none()
            &&& p.line_2_active ==> p.progress_2 == sung && p.progress_1 == Progress::spec_none()
            &&& p.line_1_active ==> p.line_1 == ls[i].text
            &&& p.line_2_active ==> p.line_2 == ls[i].text
        }),
{
}

/// At every position the overlay's active row carries the progress of the
/// line the binary search takes as being sung.
pub proof fn lemma_shown_row_progress(ls: Seq<LineModel>, pos: u64, show_secondary_line: bool)
    requires
        ls.len() > 0,
    ensures
        ({
            let p = pair_shown(ls, pos, show_secondary_line);
            let i = search_index(ls, pos);
            let sung = line_progress_spec(ls[i], segment_widths(ls[i].segments), pos);
            &&& 0 <= i < ls.len()
            &&& p.line_1_active ==> p.progress_1 == sung
            &&& p.line_2_active ==> p.progress_2 == sung
        }),
{
    lemma_search_index_in_range(ls, pos);
    lemma_active_row_progress(ls, search_index(ls, pos), pos, show_secondary_line);
}

proof fn lemma_search_end_bounds(ls: Seq<LineModel>, pos: u64, lo: int, hi: int)
    requires
        0 <= lo <= hi <= ls.len(),
    ensures
        lo <= search_end(ls, pos, lo, hi) <= hi,
    decreases hi - lo,
{
    if lo < hi {
        let mid = lo + (hi - lo) / 2;
        if ls[mid].time_ms <= pos {
            lemma_search_end_bounds(ls, pos, mid + 1, hi);
        } else {
            lemma_search_end_bounds(ls, pos, lo, mid);
        }
    }
}

/// The binary search takes one of the lines.
proof fn lemma_search_index_in_range(ls: Seq<LineModel>, pos: u64)
    requires
        ls.len() > 0,
    ensures
        0 <= search_index(ls, pos) < ls.len(),
{
    lemma_search_end_bounds(ls, pos, 0, ls.len() as int);
}

} // verus!
