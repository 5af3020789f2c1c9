use mp4_audio_extractor::text::{
    ascii_whitespace, chars_of, last_key_value, probe_duration_text, same_text, transcript_chars,
    trim_str, unicode_whitespace,
};

#[test]
fn trims_unicode_whitespace() {
    assert_eq!(trim_str("  12.5\r"), "12.5");
    assert_eq!(trim_str("\u{3000}值\u{a0}"), "值");
    assert_eq!(trim_str(" \t\n"), "");
    assert_eq!(trim_str("a b"), "a b");
}

#[test]
fn whitespace_classes() {
    assert!(unicode_whitespace('\u{2003}'));
    assert!(!unicode_whitespace('x'));
    assert!(ascii_whitespace('\u{c}'));
    assert!(!ascii_whitespace('\u{b}'));
    assert!(unicode_whitespace('\u{b}'));
}

#[test]
fn duration_from_probe_output() {
    let out = "sample_rate=44100\nchannels=2\nduration=12.345000\n";
    assert_eq!(probe_duration_text(out), Some("12.345000".to_string()));
}

#[test]
fn duration_with_crlf_lines() {
    let out = "sample_rate=44100\r\nduration=3.5\r\n";
    assert_eq!(probe_duration_text(out), Some("3.5".to_string()));
}

#[test]
fn last_duration_line_wins() {
    let out = "duration=1.0\nduration=N/A\n";
    assert_eq!(probe_duration_text(out), Some("N/A".to_string()));
}

#[test]
fn no_duration_line() {
    assert_eq!(probe_duration_text("channels=1\nx duration=3\n"), None);
    assert_eq!(probe_duration_text(""), None);
}

#[test]
fn key_value_on_last_line_without_newline() {
    assert_eq!(last_key_value("a=1\nb= 2 ", "b="), Some("2".to_string()));
}

#[test]
fn transcript_characters_skip_ascii_whitespace() {
    assert_eq!(
        transcript_chars("你好 wo\trld\n!"),
        vec!['你', '好', 'w', 'o', 'r', 'l', 'd', '!']
    );
}

#[test]
fn transcript_keeps_other_whitespace() {
    assert_eq!(transcript_chars("a\u{3000}b\u{b}"), vec!['a', '\u{3000}', 'b', '\u{b}']);
}

#[test]
fn chars_and_equality() {
    assert_eq!(chars_of("ab值"), vec!['a', 'b', '值']);
    assert!(same_text("mp4", "mp4"));
    assert!(!same_text("mp4", "mp3"));
    assert!(!same_text("mp4", "mp"));
}
