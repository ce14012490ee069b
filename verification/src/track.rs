//! The track that the media player is playing, as the overlay sees it, and
//! how often it is polled.
use vstd::prelude::*;
use crate::settings::{eq_ignore_ascii_case, equal_ignoring_ascii_case};

verus! {

/// The playing track: what the lyrics are looked up by and timed against.
#[derive(Debug, Clone, PartialEq, Eq)]
pub struct TrackInfo {
    pub title: String,
    pub album: String,
    pub artists: Vec<String>,
    pub duration_ms: u64,
    pub position_ms: u64,
    pub playback_status: String,
}

/// Builds the track from what the player reports (its metadata, position
/// and status, each `None` when missing or of the wrong kind). A track
/// needs a title and at least one artist; the album defaults to empty, the
/// length to 0, the position (clamped at 0) to 0 and the status to
/// `Stopped`; times go from microseconds to milliseconds.
pub fn track_from_metadata(
    title: Option<String>,
    album: Option<String>,
    artists: Option<Vec<String>>,
    duration_us: Option<u64>,
    position_us: Option<i64>,
    playback_status: Option<String>,
) -> (r: Option<TrackInfo>)
    ensures
        r is Some <==> (title is Some && artists is Some && artists->0@.len() > 0),
        r matches Some(t) ==> {
            &&& t.title == title->0
            &&& t.artists == artists->0
            &&& t.album@ == (match album {
                Some(a) => a@,
                None => Seq::<char>::empty(),
            })
            &&& t.duration_ms == (match duration_us {
                Some(d) => d,
                None => 0u64,
            }) / 1000
            &&& t.position_ms == (match position_us {
                Some(p) => if p > 0 { p as u64 } else { 0u64 },
                None => 0u64,
            }) / 1000
            &&& t.playback_status@ == (match playback_status {
                Some(s) => s@,
                None => "Stopped"@,
            })
        },
{
    let title = match title {
        Some(t) => t,
        None => return None,
    };
    let artists = match artists {
        Some(a) => a,
        None => return None,
    };
    if artists.len() == 0 {
        return None;
    }
    let album = match album {
        Some(a) => a,
        None => String::new(),
    };
    let duration: u64 = match duration_us {
        Some(d) => d,
        None => 0,
    };
    let position: i64 = match position_us {
        Some(p) => p,
        None => 0,
    };
    let position_us: u64 = if position > 0 { position as u64 } else { 0 };
    let playback_status = match playback_status {
        Some(s) => s,
        None => String::from_str("Stopped"),
    };
    Some(TrackInfo {
        title,
        album,
        artists,
        duration_ms: duration / 1000,
        position_ms: position_us / 1000,
        playback_status,
    })
}

/// A status that means the track is playing (`playing`, any ASCII case).
pub open spec fn status_is_playing(status: Seq<char>) -> bool {
    eq_ignore_ascii_case(status, "playing"@)
}

/// Whether the player says it is playing.
pub fn is_playing(status: &str) -> (b: bool)
    ensures
        b == status_is_playing(status@),
{
    equal_ignoring_ascii_case(status, "playing")
}

/// The position a playing track has reached `since_poll_ms` after it was
/// read: advanced by that time (saturating) but not past the track's
/// length. A track that is not playing, or with no time since a poll,
/// stays where it was.
pub fn predict_playback(track: TrackInfo, since_poll_ms: Option<u64>) -> (r: TrackInfo)
    ensures
        r.title == track.title,
        r.album == track.album,
        r.artists == track.artists,
        r.duration_ms == track.duration_ms,
        r.playback_status == track.playback_status,
        r.position_ms == (match since_poll_ms {
            Some(e) => if status_is_playing(track.playback_status@) {
                let advanced = track.position_ms.saturating_add(e);
                if advanced <= track.duration_ms {
                    advanced
                } else {
                    track.duration_ms
                }
            } else {
                track.position_ms
            },
            None => track.position_ms,
        }),
{
    let mut t = track;
    if is_playing(t.playback_status.as_str()) {
        if let Some(e) = since_poll_ms {
            let advanced = t.position_ms.saturating_add(e);
            t.position_ms = if advanced <= t.duration_ms {
                advanced
            } else {
                t.duration_ms
            };
        }
    }
    t
}

/// Whether to ask the player again: on the first frame, and once 200 ms
/// have passed since the last time (given in nanoseconds).
pub fn should_poll_track(since_last_poll_ns: Option<u128>) -> (b: bool)
    ensures
        b == (match since_last_poll_ns {
            Some(ns) => ns >= 200_000_000,
            None => true,
        }),
{
    match since_last_poll_ns {
        Some(ns) => ns >= 200_000_000,
        None => true,
    }
}

/// The delay before the next frame: 16 ms while the panel is dragged,
/// resized or redrawn, or while a track plays; 200 ms otherwise.
pub fn next_frame_delay_ms(dragging: bool, resizing: bool, dirty: bool, playing: bool) -> (ms: u64)
    ensures
        ms == if dragging || resizing || dirty || playing { 16u64 } else { 200u64 },
{
    if dragging || resizing || dirty || playing {
        16
    } else {
        200
    }
}

} // verus!
