use lyricdock::display::{find_current_line_index, lyric_pair_for_position};
use lyricdock::icon::{icon_from_rgba, tray_icon};
use lyricdock::lrc::parse_lrc;
use lyricdock::lyrics::LyricLine;
use lyricdock::progress::Progress;
use lyricdock::settings::{ensure_preview_file, PanelLayout, PreviewData};
use lyricdock::source::{
    current_lines_for_track, lyric_place, lyrics_action, read_lyric_file, read_lyric_file_checked, should_fetch_lyrics,
    LyricPlace, LyricsAction,
};
use lyricdock::track::{is_playing, next_frame_delay_ms, predict_playback, should_poll_track, track_from_metadata, TrackInfo};

fn lines() -> Vec<LyricLine> {
    parse_lrc("[00:01.00]one\n[00:02.00]two\n[00:03.00]three\n")
}

fn track(title: &str, artist: &str, position_ms: u64) -> TrackInfo {
    TrackInfo {
        title: title.to_string(),
        album: String::new(),
        artists: vec![artist.to_string()],
        duration_ms: 10_000,
        position_ms,
        playback_status: "Playing".to_string(),
    }
}

#[test]
fn current_index_by_binary_search() {
    let ls = lines();
    assert_eq!(find_current_line_index(&ls, 0), 0);
    assert_eq!(find_current_line_index(&ls, 1000), 0);
    assert_eq!(find_current_line_index(&ls, 1999), 0);
    assert_eq!(find_current_line_index(&ls, 2000), 1);
    assert_eq!(find_current_line_index(&ls, 99_999), 2);
    assert_eq!(find_current_line_index(&[], 5), 0);
}

#[test]
fn pair_relays_between_rows() {
    let ls = lines();
    let even = lyric_pair_for_position(&ls, 1500, true);
    assert_eq!(even.line_1, "one");
    assert_eq!(even.line_2, "two");
    assert!(even.line_1_active && !even.line_2_active);
    assert_eq!(even.progress_2, Progress::none());
    let odd = lyric_pair_for_position(&ls, 2500, true);
    assert_eq!(odd.line_1, "three");
    assert_eq!(odd.line_2, "two");
    assert!(!odd.line_1_active && odd.line_2_active);
    assert_eq!(odd.progress_1, Progress::none());
    assert_eq!(odd.progress_2.elapsed_ms, 500);
    assert_eq!(odd.progress_2.span_ms, 1000);
    let last = lyric_pair_for_position(&ls, 3500, true);
    assert_eq!(last.line_1, "three");
    assert_eq!(last.line_2, "");
}

#[test]
fn pair_single_row_and_no_lyrics() {
    let ls = lines();
    let single = lyric_pair_for_position(&ls, 2500, false);
    assert_eq!(single.line_1, "two");
    assert_eq!(single.line_2, "");
    assert!(single.line_1_active && !single.line_2_active);
    let none = lyric_pair_for_position(&[], 0, true);
    assert_eq!(none.line_1, "未找到歌词");
    assert_eq!(none.progress_1, Progress::full());
}

#[test]
fn lines_for_track_states() {
    let waiting = current_lines_for_track(None, None, true);
    assert_eq!(waiting.line_1, "正在等待 Spotify...");
    let t = track("晴天", "周杰伦", 1500);
    let label = current_lines_for_track(Some(&t), None, true);
    assert_eq!(label.line_1, "周杰伦 - 晴天");
    assert_eq!(label.line_2, "");
    let ls = lines();
    let shown = current_lines_for_track(Some(&t), Some(&ls), true);
    assert_eq!(shown.line_1, "one");
}

#[test]
fn lyrics_action_follows_track_key() {
    let t = track("Song  Title", "Artist", 0);
    assert_eq!(lyrics_action(None, None), LyricsAction::Clear);
    assert_eq!(lyrics_action(Some(&t), None), LyricsAction::Reload("song title::artist".to_string()));
    let key = "song title::artist".to_string();
    assert_eq!(lyrics_action(Some(&t), Some(&key)), LyricsAction::Keep);
    let other = "x::y".to_string();
    assert_eq!(lyrics_action(Some(&t), Some(&other)), LyricsAction::Reload(key.clone()));
}

#[test]
fn fetch_is_throttled_per_track() {
    let key = "a::b".to_string();
    let other = "c::d".to_string();
    assert!(should_fetch_lyrics(None, 0, &key));
    assert!(!should_fetch_lyrics(Some(&key), 1_000_000_000, &key));
    assert!(!should_fetch_lyrics(Some(&key), 8_000_000_000, &key));
    assert!(should_fetch_lyrics(Some(&key), 8_000_000_001, &key));
    assert!(should_fetch_lyrics(Some(&other), 0, &key));
}

#[test]
fn lyric_file_prefers_karaoke() {
    let yrc = "[1000,500](1000,500,0)唱";
    let lrc = "[00:01.00]念";
    let k = read_lyric_file(Some(yrc), Some(lrc), true).unwrap();
    assert_eq!(k[0].text, "唱");
    let p = read_lyric_file(Some(yrc), Some(lrc), false).unwrap();
    assert_eq!(p[0].text, "念");
    let fallback = read_lyric_file(Some("{}"), Some(lrc), true).unwrap();
    assert_eq!(fallback[0].text, "念");
    assert!(read_lyric_file(None, Some("no tags"), true).is_none());
    assert!(read_lyric_file(None, None, true).is_none());
}

#[test]
fn track_from_player_metadata() {
    let t = track_from_metadata(
        Some("T".to_string()),
        None,
        Some(vec!["A".to_string()]),
        Some(215_000_000),
        Some(-5),
        None,
    )
    .unwrap();
    assert_eq!(t.album, "");
    assert_eq!(t.duration_ms, 215_000);
    assert_eq!(t.position_ms, 0);
    assert_eq!(t.playback_status, "Stopped");
    let p = track_from_metadata(Some("T".to_string()), None, Some(vec!["A".to_string()]), None, Some(1_999_999), Some("Playing".to_string())).unwrap();
    assert_eq!(p.position_ms, 1_999);
    assert_eq!(p.duration_ms, 0);
    assert!(track_from_metadata(None, None, Some(vec!["A".to_string()]), None, None, None).is_none());
    assert!(track_from_metadata(Some("T".to_string()), None, Some(vec![]), None, None, None).is_none());
    assert!(track_from_metadata(Some("T".to_string()), None, None, None, None, None).is_none());
}

#[test]
fn playback_prediction_and_polling() {
    let t = track("t", "a", 9_000);
    assert_eq!(predict_playback(t.clone(), Some(500)).position_ms, 9_500);
    assert_eq!(predict_playback(t.clone(), Some(5_000)).position_ms, 10_000);
    assert_eq!(predict_playback(t.clone(), None).position_ms, 9_000);
    let mut paused = t.clone();
    paused.playback_status = "Paused".to_string();
    assert_eq!(predict_playback(paused, Some(500)).position_ms, 9_000);
    assert!(is_playing("PLAYING"));
    assert!(!is_playing("Paused"));
    assert!(should_poll_track(None));
    assert!(!should_poll_track(Some(199_999_999)));
    assert!(should_poll_track(Some(200_000_000)));
    assert_eq!(next_frame_delay_ms(false, false, false, true), 16);
    assert_eq!(next_frame_delay_ms(false, false, false, false), 200);
    assert_eq!(next_frame_delay_ms(true, false, false, false), 16);
}

#[test]
fn preview_defaults_and_edits() {
    let d = PreviewData::default();
    assert_eq!(d.panel_width, Some(640));
    assert_eq!(d.panel_height, Some(112));
    assert_eq!(d.panel_x, Some(36));
    assert_eq!(d.panel_y, Some(24));
    assert_eq!(d.font_scale, Some(0));
    assert_eq!(d.locked, Some(false));
    assert_eq!(ensure_preview_file(false), Some(d));
    assert_eq!(ensure_preview_file(true), None);
    let mut p = PreviewData { locked: None, panel_width: None, panel_height: None, panel_x: None, panel_y: None, font_scale: None };
    p.toggle_locked();
    assert_eq!(p.locked, Some(true));
    p.toggle_locked();
    assert_eq!(p.locked, Some(false));
    p.step_font_scale(20);
    assert_eq!(p.font_scale, Some(18));
    p.step_font_scale(-100);
    assert_eq!(p.font_scale, Some(-8));
    assert_eq!(p.move_origin(), (36, 24));
    p.move_panel((36, 24), -50, 10);
    assert_eq!((p.panel_x, p.panel_y), (Some(0), Some(34)));
    assert_eq!(p.resize_origin(), (640, 112));
    p.resize_panel((640, 112), -400, 8);
    assert_eq!((p.panel_width, p.panel_height), (Some(320), Some(120)));
}

// A 2x1 RGBA PNG: one opaque red pixel, one half-transparent blue pixel.
const TWO_PIXELS_PNG: [u8; 71] = [
    137, 80, 78, 71, 13, 10, 26, 10, 0, 0, 0, 13, 73, 72, 68, 82, 0, 0, 0, 2, 0, 0, 0, 1, 8, 6, 0, 0,
    0, 244, 34, 127, 138, 0, 0, 0, 14, 73, 68, 65, 84, 120, 156, 99, 248, 207, 192, 0, 66, 13, 0,
    15, 122, 3, 126, 119, 233, 127, 151, 0, 0, 0, 0, 73, 69, 78, 68, 174, 66, 96, 130,
];

#[test]
fn tray_icon_decodes_png_into_rgba_pixels() {
    let icon = tray_icon(&TWO_PIXELS_PNG).expect("the icon decodes");
    assert_eq!(icon.width, 2);
    assert_eq!(icon.height, 1);
    assert_eq!(icon.data, vec![255, 0, 0, 255, 0, 0, 255, 128]);
}

#[test]
fn tray_icon_refuses_bytes_that_are_no_png() {
    assert_eq!(tray_icon(b"not a png"), None);
    assert_eq!(tray_icon(&TWO_PIXELS_PNG[..40]), None);
}

#[test]
fn panel_layout_fills_defaults_and_stays_on_screen() {
    let empty = PreviewData {
        locked: None,
        panel_width: None,
        panel_height: None,
        panel_x: None,
        panel_y: None,
        font_scale: None,
    };
    assert_eq!(
        empty.panel_layout(),
        PanelLayout { locked: false, width: 640, height: 112, x: 36, y: 24, font_scale: 0 }
    );
    let off_screen = PreviewData {
        locked: Some(true),
        panel_width: Some(800),
        panel_height: Some(120),
        panel_x: Some(-15),
        panel_y: Some(40),
        font_scale: Some(-3),
    };
    assert_eq!(
        off_screen.panel_layout(),
        PanelLayout { locked: true, width: 800, height: 120, x: 0, y: 40, font_scale: -3 }
    );
}

#[test]
fn icon_sizes_are_taken_over_as_signed() {
    let icon = icon_from_rgba(3, 1, vec![1, 2, 3, 4, 5, 6, 7, 8, 9, 10, 11, 12]);
    assert_eq!((icon.width, icon.height), (3, 1));
    assert_eq!(icon.data.len(), 12);
    let huge = icon_from_rgba(3_000_000_000, 2, Vec::new());
    assert_eq!(huge.width, -1_294_967_296);
    assert_eq!(huge.height, 2);
}

fn timed(time_ms: u64, text: &str) -> LyricLine {
    LyricLine { time_ms, end_time_ms: time_ms + 500, text: text.to_string(), segments: Vec::new() }
}

#[test]
fn binary_search_on_lines_out_of_order() {
    let ls = vec![timed(5000, "a"), timed(1000, "b"), timed(3000, "c")];
    // The search halves at "b" (started), then at "c" (not started).
    assert_eq!(find_current_line_index(&ls, 2000), 1);
    assert_eq!(find_current_line_index(&ls, 500), 0);
    let pair = lyric_pair_for_position(&ls, 2000, true);
    assert_eq!(pair.line_2, "b");
    assert_eq!(pair.line_1, "c");
    let t = track("Song", "Singer", 2000);
    let shown = current_lines_for_track(Some(&t), Some(&ls), true);
    assert_eq!(shown.line_1, pair.line_1);
    assert_eq!(shown.line_2, pair.line_2);
    assert_eq!(shown.line_2_active, pair.line_2_active);
}

#[test]
fn checked_lyric_read_reports_overflowing_tags() {
    let huge = "[400000000000000:00.00]太长";
    assert_eq!(read_lyric_file_checked(None, Some(huge), true), None);
    let karaoke = read_lyric_file_checked(Some("[1000,500](1000,500,0)唱"), Some(huge), true).unwrap().unwrap();
    assert_eq!(karaoke[0].text, "唱");
    assert_eq!(read_lyric_file_checked(Some("[1000,500](1000,500,0)唱"), Some(huge), false), None);
    let plain = read_lyric_file_checked(None, Some("[00:01.00]念"), true).unwrap().unwrap();
    assert_eq!(plain[0].time_ms, 1000);
    assert_eq!(read_lyric_file_checked(None, None, true), Some(None));
}

#[test]
fn lyric_places_in_order() {
    assert_eq!(lyric_place(true, true, true), LyricPlace::Imported);
    assert_eq!(lyric_place(false, true, true), LyricPlace::Cached);
    assert_eq!(lyric_place(false, false, true), LyricPlace::Legacy);
    assert_eq!(lyric_place(false, false, false), LyricPlace::Missing);
}
