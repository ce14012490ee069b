use lyricdock::cache::{cache_file_groups, groups_to_evict, CacheFile};
use lyricdock::color::parse_hex_color;
use lyricdock::matching::{
    cached_lyric_matches, imported_lyric_matches, normalize_filename_for_match, normalize_for_match,
    squeeze_whitespace, track_cache_key,
};
use lyricdock::settings::{resolve_config_path, AppSettings, AppSettingsFile};
use lyricdock::track::TrackInfo;

fn track(title: &str, artists: &[&str]) -> TrackInfo {
    TrackInfo {
        title: title.to_string(),
        album: String::new(),
        artists: artists.iter().map(|a| a.to_string()).collect(),
        duration_ms: 0,
        position_ms: 0,
        playback_status: "Stopped".to_string(),
    }
}

#[test]
fn normalization_folds_case_variants_and_spaces() {
    assert_eq!(normalize_for_match("  Hello   World  "), "hello world");
    assert_eq!(normalize_for_match("連（Live）"), "连(live)");
    assert_eq!(normalize_for_match("舊夢　沒有"), "旧夢 没有");
    assert_eq!(normalize_for_match("\tA\nb "), "a b");
    assert_eq!(normalize_for_match(""), "");
    assert_eq!(normalize_filename_for_match("周杰伦-晴天_Live"), "周杰伦 晴天 live");
}

#[test]
fn cache_key_joins_title_and_first_artist() {
    assert_eq!(track_cache_key(&track("晴天 ", &["周杰伦", "Other"])), "晴天::周杰伦");
    assert_eq!(track_cache_key(&track("Song", &[])), "song::");
}

#[test]
fn imported_file_matching() {
    let t = track("晴天", &["周杰伦"]);
    assert!(imported_lyric_matches("lrc", "周杰伦 - 晴天", &t));
    assert!(imported_lyric_matches("yrc", "晴天_周杰伦", &t));
    assert!(!imported_lyric_matches("txt", "周杰伦 - 晴天", &t));
    assert!(!imported_lyric_matches("lrc", "晴天", &t));
    assert!(!imported_lyric_matches("LRC", "周杰伦 - 晴天", &t));
    assert!(imported_lyric_matches("lrc", "Anything 晴天", &track("晴天", &[])));
}

#[test]
fn cached_track_matching() {
    let t = track("Song", &["Artist"]);
    assert!(cached_lyric_matches("SONG", &vec!["artist".to_string()], &t));
    assert!(!cached_lyric_matches("Song", &vec![], &t));
    assert!(!cached_lyric_matches("Other", &vec!["Artist".to_string()], &t));
    assert!(cached_lyric_matches("Song", &vec![], &track("song", &[])));
}

#[test]
fn hex_colors() {
    assert_eq!(parse_hex_color("#00e676"), (0xff, 0x00, 0xe6, 0x76));
    assert_eq!(parse_hex_color(" #081019e0 "), (0xe0, 0x08, 0x10, 0x19));
    assert_eq!(parse_hex_color("#00000095"), (0x95, 0x00, 0x00, 0x00));
    assert_eq!(parse_hex_color("#ffffff28"), (0x28, 0xff, 0xff, 0xff));
    assert_eq!(parse_hex_color("##FFFFFF"), (0xff, 0xff, 0xff, 0xff));
    assert_eq!(parse_hex_color("+abcde"), (0xff, 0x0a, 0xbc, 0xde));
    assert_eq!(parse_hex_color("#12345"), (0xff, 0xff, 0xff, 0xff));
    assert_eq!(parse_hex_color("#12345g"), (0xff, 0xff, 0xff, 0xff));
    assert_eq!(parse_hex_color("红色"), (0xff, 0xff, 0xff, 0xff));
}

#[test]
fn config_paths() {
    assert_eq!(resolve_config_path("/home/u", "/abs/dir"), "/abs/dir");
    assert_eq!(resolve_config_path("/home/u", "rel"), "/home/u/rel");
    assert_eq!(resolve_config_path("", "./歌词数据"), "./歌词数据");
}

#[test]
fn settings_defaults() {
    let s = AppSettings::from_file("配置.toml", None);
    assert_eq!(s.lyrics_root, "./歌词数据");
    assert_eq!(s.imported_dir, "./歌词数据/导入歌词");
    assert_eq!(s.cache_dir, "./歌词数据/缓存歌词");
    assert_eq!(s.cache_limit_bytes, 256 * 1024 * 1024);
    assert!(s.show_secondary_line);
    assert!(!s.use_gradient);
    assert_eq!(s.lyric_effect, "flat");
    assert_eq!(s.highlight_color, "#00e676");
    assert_eq!(s.stroke_color, "#081019e0");
    assert_eq!(s.config_path, "配置.toml");
}

#[test]
fn settings_from_file_values() {
    let file = AppSettingsFile {
        lyrics_dir: Some("/data/lyrics".to_string()),
        cache_limit_mb: Some(u64::MAX),
        show_secondary_line: Some(false),
        use_gradient: Some(true),
        lyric_effect: Some("FLOATING".to_string()),
        font_family: Some("Sans".to_string()),
        highlight_color: None,
        base_color: Some("#000000".to_string()),
        preview_color: None,
        stroke_color: None,
        shadow_color: None,
        panel_background_color: None,
        panel_border_color: None,
        resize_handle_color: None,
    };
    let s = AppSettings::from_file("/etc/lyricdock/配置.toml", Some(file));
    assert_eq!(s.lyrics_root, "/data/lyrics");
    assert_eq!(s.cache_dir, "/data/lyrics/缓存歌词");
    assert_eq!(s.cache_limit_bytes, u64::MAX);
    assert!(!s.show_secondary_line);
    assert!(s.use_gradient);
    assert_eq!(s.lyric_effect, "floating");
    assert_eq!(s.font_family, "Sans");
    assert_eq!(s.base_color, "#000000");
    let mut other = AppSettingsFile {
        lyrics_dir: Some("lyrics".to_string()),
        cache_limit_mb: Some(1),
        show_secondary_line: None,
        use_gradient: None,
        lyric_effect: Some("glow".to_string()),
        font_family: None,
        highlight_color: None,
        base_color: None,
        preview_color: None,
        stroke_color: None,
        shadow_color: None,
        panel_background_color: None,
        panel_border_color: None,
        resize_handle_color: None,
    };
    other.use_gradient = None;
    let t = AppSettings::from_file("/etc/lyricdock/配置.toml", Some(other));
    assert_eq!(t.lyrics_root, "/etc/lyricdock/lyrics");
    assert_eq!(t.cache_limit_bytes, 1024 * 1024);
    assert_eq!(t.lyric_effect, "flat");
}

fn file(stem: &str, modified: u64, size: u64) -> CacheFile {
    CacheFile { stem: stem.to_string(), modified_unix_secs: modified, size }
}

#[test]
fn cache_groups_by_name() {
    let files = vec![file("a", 30, 10), file("b", 10, 5), file("a", 20, 7), file("c", 40, u64::MAX)];
    let groups = cache_file_groups(&files);
    assert_eq!(groups.len(), 3);
    assert_eq!(groups[0].stem, "a");
    assert_eq!(groups[0].modified_unix_secs, 20);
    assert_eq!(groups[0].total_size, 17);
    assert_eq!(groups[0].files, vec![0, 2]);
    assert_eq!(groups[1].files, vec![1]);
    assert_eq!(groups[2].total_size, u64::MAX);
}

#[test]
fn cache_evicts_oldest_until_within_limit() {
    let files = vec![file("new", 300, 50), file("old", 100, 30), file("mid", 200, 40)];
    let groups = cache_file_groups(&files);
    assert_eq!(groups_to_evict(&groups, 0), Vec::<usize>::new());
    assert_eq!(groups_to_evict(&groups, 120), Vec::<usize>::new());
    assert_eq!(groups_to_evict(&groups, 100), vec![1]);
    assert_eq!(groups_to_evict(&groups, 50), vec![1, 2]);
    assert_eq!(groups_to_evict(&groups, 10), vec![1, 2, 0]);
    let ties = cache_file_groups(&vec![file("x", 5, 10), file("y", 5, 10)]);
    assert_eq!(groups_to_evict(&ties, 15), vec![0]);
}

#[test]
fn whitespace_runs_squeeze_to_single_spaces() {
    assert_eq!(squeeze_whitespace("  Hello \t\n World  "), "Hello World");
    assert_eq!(squeeze_whitespace("一\u{3000}二"), "一 二");
    assert_eq!(squeeze_whitespace(" \t "), "");
    assert_eq!(squeeze_whitespace(""), "");
}

#[test]
fn squeezing_twice_changes_nothing() {
    let once = squeeze_whitespace("\t a  b \n\u{3000}c ");
    assert_eq!(once, "a b c");
    assert_eq!(squeeze_whitespace(&once), once);
    let normal = normalize_for_match("  Hello\u{3000}World（Live） ");
    assert_eq!(normal, "hello world(live)");
    assert_eq!(normalize_for_match(&normal), normal);
}
