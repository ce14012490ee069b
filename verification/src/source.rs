//! Choosing and keeping the lyrics of the playing track.
use vstd::prelude::*;
use crate::lyrics::{LineModel, LyricLine, lines_model};
use crate::lrc::{lrc_lines, lrc_times_fit, parse_lrc, try_parse_lrc};
use crate::yrc::{parse_yrc, yrc_lines};
use crate::display::{LyricRenderPair, PairModel, lyric_pair_for_position};
use crate::progress::Progress;
use crate::track::TrackInfo;
use crate::matching::{cache_key, track_cache_key};
use crate::text::{append_chars, chars_of, string_from_chars};

verus! {

/// Whether the karaoke file gives the lyrics: karaoke is on and the
/// karaoke file was read and has lines.
pub open spec fn karaoke_chosen(yrc: Option<&str>, enable_karaoke: bool) -> bool {
    enable_karaoke && yrc is Some && yrc_lines(yrc->0@).len() > 0
}

/// The lyrics of a track from its files' contents: the karaoke lines when
/// they are chosen, else the plain lines when that file was read and has
/// lines, else none.
pub open spec fn lyric_file_lines(yrc: Option<&str>, lrc: Option<&str>, enable_karaoke: bool) -> Option<Seq<LineModel>> {
    if karaoke_chosen(yrc, enable_karaoke) {
        Some(yrc_lines(yrc->0@))
    } else {
        match lrc {
            Some(c) => if lrc_lines(c@).len() > 0 {
                Some(lrc_lines(c@))
            } else {
                None
            },
            None => None,
        }
    }
}

/// Reads the lyrics of a track from the contents of its files (`None` for a
/// file that does not exist or could not be read): with karaoke on, a
/// karaoke file with lines is preferred; otherwise the plain file is used.
/// Lyrics without a line count as none.
pub fn read_lyric_file(yrc_content: Option<&str>, lrc_content: Option<&str>, enable_karaoke: bool) -> (r: Option<
    Vec<LyricLine>,
>)
    requires
        !karaoke_chosen(yrc_content, enable_karaoke) && lrc_content is Some ==> lrc_times_fit(
            lrc_content->0@,
        ),
    ensures
        match r {
            Some(v) => lyric_file_lines(yrc_content, lrc_content, enable_karaoke) == Some(lines_model(v@)),
            None => lyric_file_lines(yrc_content, lrc_content, enable_karaoke) is None,
        },
{
    if enable_karaoke {
        if let Some(content) = yrc_content {
            let lines = parse_yrc(content);
            if lines.len() > 0 {
                return Some(lines);
            }
        }
    }
    let content = match lrc_content {
        Some(c) => c,
        None => return None,
    };
    let lines = parse_lrc(content);
    if lines.len() > 0 {
        Some(lines)
    } else {
        None
    }
}

/// Reads the lyrics of a track from the contents of its files as
/// `read_lyric_file` does, after testing that the plain file can be read:
/// `None` when the plain file would be used and one of its time tags does
/// not fit in `u64` milliseconds (where `read_lyric_file` may not be
/// called), else what `read_lyric_file` gives.
pub fn read_lyric_file_checked(yrc_content: Option<&str>, lrc_content: Option<&str>, enable_karaoke: bool) -> (r:
    Option<Option<Vec<LyricLine>>>)
    ensures
        r is None <==> (!karaoke_chosen(yrc_content, enable_karaoke) && lrc_content is Some && !lrc_times_fit(
            lrc_content->0@,
        )),
        r matches Some(found) ==> match found {
            Some(v) => lyric_file_lines(yrc_content, lrc_content, enable_karaoke) == Some(lines_model(v@)),
            None => lyric_file_lines(yrc_content, lrc_content, enable_karaoke) is None,
        },
{
    let lrc_fits = match lrc_content {
        Some(c) => try_parse_lrc(c).is_some(),
        None => true,
    };
    if lrc_fits {
        return Some(read_lyric_file(yrc_content, lrc_content, enable_karaoke));
    }
    let karaoke = match yrc_content {
        Some(c) => enable_karaoke && parse_yrc(c).len() > 0,
        None => false,
    };
    if karaoke {
        Some(read_lyric_file(yrc_content, lrc_content, enable_karaoke))
    } else {
        None
    }
}

/// Where the lyrics of a track are taken from.
#[derive(Debug, Clone, Copy, PartialEq, Eq)]
pub enum LyricPlace {
    /// The folder of lyrics the user put in.
    Imported,
    /// The folder of fetched lyrics.
    Cached,
    /// The former folder of fetched lyrics.
    Legacy,
    /// None of them has the track.
    Missing,
}

/// Picks where to read the lyrics of a track from, given which folders
/// have a file for it: imported lyrics first, then fetched ones, then the
/// former folder of fetched ones. When none has it the fetcher may run
/// (see `should_fetch_lyrics`), after which the lookup is made again.
pub fn lyric_place(in_imported: bool, in_cache: bool, in_legacy: bool) -> (r: LyricPlace)
    ensures
        r == (if in_imported {
            LyricPlace::Imported
        } else if in_cache {
            LyricPlace::Cached
        } else if in_legacy {
            LyricPlace::Legacy
        } else {
            LyricPlace::Missing
        }),
{
    if in_imported {
        LyricPlace::Imported
    } else if in_cache {
        LyricPlace::Cached
    } else if in_legacy {
        LyricPlace::Legacy
    } else {
        LyricPlace::Missing
    }
}

/// What to do with the loaded lyrics when the playing track is known.
#[derive(Debug, Clone, PartialEq, Eq)]
pub enum LyricsAction {
    /// No track: forget the loaded lyrics.
    Clear,
    /// Another track: load the lyrics kept under this key.
    Reload(String),
    /// The same track: keep them.
    Keep,
}

/// Decides whether the loaded lyrics (kept under `active_key`) still fit
/// the playing track.
pub fn lyrics_action(playback: Option<&TrackInfo>, active_key: Option<&String>) -> (r: LyricsAction)
    ensures
        playback is None ==> r == LyricsAction::Clear,
        playback matches Some(t) ==> {
            let key = cache_key(t.title@, t.artists@);
            match active_key {
                Some(k) if k@ == key => r == LyricsAction::Keep,
                _ => r matches LyricsAction::Reload(rk) && rk@ == key,
            }
        },
{
    let track = match playback {
        Some(t) => t,
        None => return LyricsAction::Clear,
    };
    let key = track_cache_key(track);
    match active_key {
        Some(k) => {
            if *k == key {
                LyricsAction::Keep
            } else {
                LyricsAction::Reload(key)
            }
        },
        None => LyricsAction::Reload(key),
    }
}

/// Whether to run the lyrics fetcher for the track with key `key`: unless
/// the last attempt was for the same key less than eight seconds ago
/// (`since_last_attempt_ns` nanoseconds).
pub fn should_fetch_lyrics(last_attempt_key: Option<&String>, since_last_attempt_ns: u128, key: &String) -> (b: bool)
    ensures
        b == (match last_attempt_key {
            Some(k) => k@ != key@ || since_last_attempt_ns > 8_000_000_000,
            None => true,
        }),
{
    match last_attempt_key {
        Some(k) => !(*k == *key) || since_last_attempt_ns > 8_000_000_000,
        None => true,
    }
}

/// The text shown while no track is playing.
pub open spec fn waiting_text() -> Seq<char> {
    "正在等待 Spotify..."@
}

/// `artist - title`, shown when a track has no lyrics.
pub open spec fn track_label(t: TrackInfo) -> Seq<char> {
    (if t.artists@.len() > 0 {
        t.artists@[0]@
    } else {
        Seq::empty()
    }) + " - "@ + t.title@
}

/// A single row of text, fully highlighted.
pub open spec fn notice_pair(text: Seq<char>) -> PairModel {
    PairModel {
        line_1: text,
        line_2: Seq::empty(),
        progress_1: Progress::spec_full(),
        progress_2: Progress::spec_none(),
        line_1_active: true,
        line_2_active: false,
    }
}

fn notice(text: String) -> (r: LyricRenderPair)
    ensures
        r@ == notice_pair(text@),
{
    LyricRenderPair {
        line_1: text,
        line_2: String::new(),
        progress_1: Progress::full(),
        progress_2: Progress::none(),
        line_1_active: true,
        line_2_active: false,
    }
}

/// The rows for the playing track: a waiting notice without a track; the
/// lyrics at the track's position when they are loaded; `artist - title`
/// otherwise.
pub fn current_lines_for_track(playback: Option<&TrackInfo>, active_lines: Option<&Vec<LyricLine>>, show_secondary_line: bool) -> (r: LyricRenderPair)
    ensures
        playback is None ==> r@ == notice_pair(waiting_text()),
        active_lines is None ==> (playback matches Some(t) ==> r@ == notice_pair(track_label(*t))),
        playback matches Some(t) ==> active_lines matches Some(lines) ==> {
            &&& r@ == crate::display::pair_shown(lines_model(lines@), t.position_ms, show_secondary_line)
            &&& crate::lyrics::is_time_sorted(lines_model(lines@)) ==> r@ == crate::display::pair_at(
                lines_model(lines@),
                t.position_ms,
                show_secondary_line,
            )
            &&& lines@.len() > 0 ==> exists|i: int|
                crate::display::brackets(lines_model(lines@), t.position_ms, i) && r@
                    == crate::display::pair_for_index(lines_model(lines@), i, t.position_ms, show_secondary_line)
        },
{
    let track = match playback {
        Some(t) => t,
        None => return notice(String::from_str("正在等待 Spotify...")),
    };
    if let Some(lines) = active_lines {
        return lyric_pair_for_position(lines.as_slice(), track.position_ms, show_secondary_line);
    }
    let mut label: Vec<char> = if track.artists.len() > 0 {
        chars_of(track.artists[0].as_str())
    } else {
        Vec::new()
    };
    let sep = chars_of(" - ");
    append_chars(&mut label, sep.as_slice());
    let title = chars_of(track.title.as_str());
    append_chars(&mut label, title.as_slice());
    notice(string_from_chars(label.as_slice()))
}

} // verus!

verus! {

/// The karaoke file wins when karaoke is on and it has lines; otherwise the
/// plain file gives the lyrics when it has lines, and there are none when
/// it has none or was not read. With karaoke off the karaoke file is never
/// looked at.
pub proof fn lemma_karaoke_file_wins(yrc_content: Option<&str>, lrc_content: Option<&str>, enable_karaoke: bool)
    ensures
        enable_karaoke && yrc_content is Some && yrc_lines(yrc_content->0@).len() > 0 ==> lyric_file_lines(
            yrc_content,
            lrc_content,
            enable_karaoke,
        ) == Some(yrc_lines(yrc_content->0@)),
        !(enable_karaoke && yrc_content is Some && yrc_lines(yrc_content->0@).len() > 0) ==> {
            &&& lrc_content is Some && lrc_lines(lrc_content->0@).len() > 0 ==> lyric_file_lines(
                yrc_content,
                lrc_content,
                enable_karaoke,
            ) == Some(lrc_lines(lrc_content->0@))
            &&& !(lrc_content is Some && lrc_lines(lrc_content->0@).len() > 0) ==> lyric_file_lines(
                yrc_content,
                lrc_content,
                enable_karaoke,
            ) is None
        },
        lyric_file_lines(yrc_content, lrc_content, false) == lyric_file_lines(None, lrc_content, false),
{
}

} // verus!
