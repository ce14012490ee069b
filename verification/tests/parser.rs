use lyricdock::lrc::{is_credit_line, parse_lrc, try_parse_lrc};
use lyricdock::lyrics::LyricLine;
use lyricdock::progress::{line_progress, Progress};
use lyricdock::timestamp::parse_timestamp;
use lyricdock::yrc::parse_yrc;

fn ratio(p: Progress) -> f32 {
    let partial = p.partial_columns as f32 * (p.elapsed_ms as f32 / p.span_ms as f32);
    ((p.sung_columns as f32 + partial) / p.total_columns as f32).clamp(0.0, 1.0)
}

#[test]
fn parse_lrc_builds_timed_lines() {
    let lines = parse_lrc("[00:01.00]第一句\n[00:03.50]第二句\n");
    assert_eq!(lines.len(), 2);
    assert_eq!(lines[0].text, "第一句");
    assert_eq!(lines[0].time_ms, 1000);
    assert_eq!(lines[0].end_time_ms, 3500);
}

#[test]
fn parse_yrc_builds_segments_and_skips_metadata() {
    let content = "{\"t\":0,\"c\":[{\"tx\":\"作词: \"}]}\n[1000,2000](1000,50,0)你(1500,50,0)好";
    let lines = parse_yrc(content);
    assert_eq!(lines.len(), 1);
    assert_eq!(lines[0].text, "你好");
    assert_eq!(lines[0].segments.len(), 2);
    assert_eq!(lines[0].segments[0].start_time_ms, 1000);
    assert_eq!(lines[0].segments[0].end_time_ms, 1050);
    assert_eq!(lines[0].segments[1].text, "好");
}

#[test]
fn line_progress_prefers_segment_timeline() {
    let lines = parse_yrc("[1000,2000](1000,50,0)你(1500,50,0)好");
    let line = &lines[0];
    assert_eq!(ratio(line_progress(line, 900)), 0.0);
    assert!(ratio(line_progress(line, 1250)) > 0.0);
    assert!(ratio(line_progress(line, 1600)) > 0.5);
    assert_eq!(ratio(line_progress(line, 2100)), 1.0);
}

#[test]
fn timestamp_fractions() {
    assert_eq!(parse_timestamp("01:02.50"), Some(62_500));
    assert_eq!(parse_timestamp("00:01.5"), Some(1_500));
    assert_eq!(parse_timestamp("00:01.123456"), Some(1_123));
    assert_eq!(parse_timestamp("1:02"), Some(62_000));
    assert_eq!(parse_timestamp("1:02."), Some(62_000));
    assert_eq!(parse_timestamp("+1:02"), Some(62_000));
    assert_eq!(parse_timestamp("00:01.25.9"), Some(1_250));
}

#[test]
fn timestamp_rejects_malformed_tags() {
    assert_eq!(parse_timestamp("1:02:03"), None);
    assert_eq!(parse_timestamp("ti:Song"), None);
    assert_eq!(parse_timestamp("0102"), None);
    assert_eq!(parse_timestamp(":02"), None);
    assert_eq!(parse_timestamp("01:"), None);
    assert_eq!(parse_timestamp("01:02.x"), None);
    assert_eq!(parse_timestamp("-1:02"), None);
}

#[test]
fn credit_lines_are_recognised() {
    assert!(is_credit_line("作词：某人"));
    assert!(is_credit_line("制作人 : 某人"));
    assert!(is_credit_line("监制"));
    assert!(!is_credit_line("词作"));
    assert!(!is_credit_line(""));
}

#[test]
fn lrc_repeated_tags_and_sorting() {
    let lines = parse_lrc("[00:05.00][00:01.00]副歌\n[00:03.00]主歌\n");
    let times: Vec<u64> = lines.iter().map(|l| l.time_ms).collect();
    assert_eq!(times, vec![1000, 3000, 5000]);
    assert_eq!(lines[0].text, "副歌");
    assert_eq!(lines[1].text, "主歌");
    assert_eq!(lines[2].text, "副歌");
    assert_eq!(lines[0].end_time_ms, 3000);
    assert_eq!(lines[1].end_time_ms, 5000);
    assert_eq!(lines[2].end_time_ms, 9000);
}

#[test]
fn lrc_stable_for_equal_times() {
    let lines = parse_lrc("[00:02.00]b\n[00:01.00]a\n[00:02.00]c\n");
    let texts: Vec<&str> = lines.iter().map(|l| l.text.as_str()).collect();
    assert_eq!(texts, vec!["a", "b", "c"]);
    assert_eq!(lines[1].end_time_ms, 2500);
}

#[test]
fn lrc_skips_untimed_empty_and_credit_lines() {
    let content = "[ti:Song]\n[ar:Singer]\n\n[00:00.50]作词：某人\n[00:01.00]   \n  [00:02.00]  正文  \r\nplain text\n[bad]text";
    let lines = parse_lrc(content);
    assert_eq!(lines.len(), 1);
    assert_eq!(lines[0].text, "正文");
    assert_eq!(lines[0].time_ms, 2000);
    assert_eq!(lines[0].end_time_ms, 6000);
    assert!(lines[0].segments.is_empty());
}

#[test]
fn lrc_tags_stop_at_first_non_time() {
    let lines = parse_lrc("[00:01.00][xx]text");
    assert_eq!(lines.len(), 1);
    assert_eq!(lines[0].text, "[xx]text");
}

#[test]
fn lrc_last_line_end_saturates() {
    let lines = parse_lrc("[307445734561825:51.615]end");
    assert_eq!(lines.len(), 1);
    assert_eq!(lines[0].time_ms, u64::MAX);
    assert_eq!(lines[0].end_time_ms, u64::MAX);
}

#[test]
fn lrc_overflowing_tag_is_reported() {
    assert!(try_parse_lrc("[307445734561826:00.00]too late").is_none());
    assert!(try_parse_lrc("[00:01.00]ok").is_some());
    assert!(try_parse_lrc("").unwrap().is_empty());
}

#[test]
fn yrc_line_end_and_floor() {
    let lines = parse_yrc("[5000,0](5000,0,0)啊\n[1000,200](1000,100,0)一(1100,100,0)二");
    assert_eq!(lines.len(), 2);
    assert_eq!(lines[0].time_ms, 1000);
    assert_eq!(lines[0].end_time_ms, 5000);
    assert_eq!(lines[1].time_ms, 5000);
    assert_eq!(lines[1].end_time_ms, 5500);
    assert_eq!(lines[1].segments[0].end_time_ms, 5001);
    assert_eq!(lines[0].text, "一二");
}

#[test]
fn yrc_drops_blank_segments_and_bad_headers() {
    let content = "[1000,500](1000,100,0) (1100,100,0)词\n[abc,1](1,1,0)x\n[2000](2000,1,0)y\nnot a line\n[3000,100](3000,x,0)z";
    let lines = parse_yrc(content);
    assert_eq!(lines.len(), 1);
    assert_eq!(lines[0].segments.len(), 1);
    assert_eq!(lines[0].segments[0].text, "词");
    assert_eq!(lines[0].text, "词");
}

#[test]
fn yrc_skips_credit_lines() {
    let lines = parse_yrc("[0,1000](0,500,0)作曲(500,500,0)：某人\n[1000,1000](1000,500,0)歌");
    assert_eq!(lines.len(), 1);
    assert_eq!(lines[0].text, "歌");
}

#[test]
fn plain_line_progress_is_linear() {
    let line = LyricLine { time_ms: 1000, end_time_ms: 3000, text: "abc".to_string(), segments: Vec::new() };
    assert_eq!(ratio(line_progress(&line, 500)), 0.0);
    assert_eq!(ratio(line_progress(&line, 1000)), 0.0);
    assert_eq!(ratio(line_progress(&line, 2000)), 0.5);
    assert_eq!(ratio(line_progress(&line, 3000)), 1.0);
    assert_eq!(ratio(line_progress(&line, 9000)), 1.0);
}

#[test]
fn segment_progress_uses_display_width() {
    let lines = parse_yrc("[0,200](0,100,0)ab(100,100,0)你");
    let line = &lines[0];
    let p = line_progress(line, 100);
    assert_eq!(p.sung_columns, 2);
    assert_eq!(p.total_columns, 4);
    assert_eq!(ratio(p), 0.5);
    let q = line_progress(line, 150);
    assert_eq!(q.partial_columns, 2);
    assert_eq!(q.elapsed_ms, 50);
    assert_eq!(q.span_ms, 100);
    assert_eq!(ratio(q), 0.75);
}

#[test]
fn karaoke_progress_never_goes_back() {
    // Overlapping, out-of-order and gapped segments alike.
    let lines = parse_yrc("[0,3000](0,1000,0)一(500,100,0)二(2000,500,0)three(1800,50,0)四");
    let line = &lines[0];
    assert_eq!(line.segments.len(), 4);
    let mut last = (0u128, 1u128);
    let mut pos = 0u64;
    while pos <= 3000 {
        let p = line_progress(line, pos);
        let num = p.sung_columns * p.span_ms as u128 + p.partial_columns * p.elapsed_ms as u128;
        let den = p.total_columns * p.span_ms as u128;
        assert!(num <= den);
        assert!(last.0 * den <= num * last.1, "progress went back at {pos}");
        last = (num, den);
        pos += 25;
    }
    assert_eq!(last.0, last.1);
}
