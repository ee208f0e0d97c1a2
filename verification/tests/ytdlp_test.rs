use std::path::PathBuf;
use trovers::ytdlp::{
    blocked_by_youtube_hint, extract_domain, first_url_line, is_partial_artifact,
    parse_destination_line, parse_progress_line,
};

/// The percentage a progress line reports, read as the number it spells.
fn progress(line: &str) -> Option<f32> {
    parse_progress_line(line).and_then(|t| t.parse::<f32>().ok())
}

/// The destination a line names, as a path.
fn destination(line: &str) -> Option<PathBuf> {
    parse_destination_line(line).map(PathBuf::from)
}

// ── first_url_line ──────────────────────────────────────────────────────

#[test]
fn first_url_line_takes_the_first_non_blank_line() {
    assert_eq!(
        first_url_line("https://a.example/audio\nhttps://a.example/video\n"),
        Some("https://a.example/audio".to_string())
    );
}

#[test]
fn first_url_line_skips_leading_blank_lines() {
    assert_eq!(
        first_url_line("\n\n  \nhttps://a.example/audio"),
        Some("https://a.example/audio".to_string())
    );
}

#[test]
fn first_url_line_trims_whitespace() {
    assert_eq!(
        first_url_line("  https://a.example/audio  \n"),
        Some("https://a.example/audio".to_string())
    );
}

#[test]
fn first_url_line_is_none_for_empty_output() {
    assert_eq!(first_url_line(""), None);
    assert_eq!(first_url_line("\n\n  \n"), None);
}

// ── parse_progress_line ─────────────────────────────────────────────────

#[test]
fn ytdlp_test_parse_progress_line_reads_the_percentage() {
    assert_eq!(progress("[download]  42.5% of 3.20MiB at 1.00MiB/s"), Some(42.5));
}

#[test]
fn parse_progress_line_reads_a_whole_number_percentage() {
    assert_eq!(progress("[download] 100% of 3.20MiB"), Some(100.0));
}

#[test]
fn parse_progress_line_ignores_unrelated_lines() {
    assert_eq!(progress("[ExtractAudio] Destination: foo.opus"), None);
    assert_eq!(progress("some random log line"), None);
}

// ── parse_destination_line ──────────────────────────────────────────────

#[test]
fn parse_destination_line_reads_a_download_destination() {
    assert_eq!(
        destination("[download] Destination: /tmp/audio/abc123.webm"),
        Some(PathBuf::from("/tmp/audio/abc123.webm"))
    );
}

#[test]
fn parse_destination_line_reads_an_extract_audio_destination() {
    assert_eq!(
        destination("[ExtractAudio] Destination: /tmp/audio/abc123.opus"),
        Some(PathBuf::from("/tmp/audio/abc123.opus"))
    );
}

#[test]
fn parse_destination_line_trims_trailing_whitespace() {
    assert_eq!(
        destination("[download] Destination: /tmp/audio/abc123.webm  "),
        Some(PathBuf::from("/tmp/audio/abc123.webm"))
    );
}

#[test]
fn parse_destination_line_ignores_unrelated_lines() {
    assert_eq!(destination("[download]  42.5% of 3.20MiB"), None);
}

// ── is_partial_artifact ─────────────────────────────────────────────────

#[test]
fn is_partial_artifact_matches_part_files() {
    assert!(is_partial_artifact("abc123.opus.part", "abc123"));
}

#[test]
fn is_partial_artifact_matches_fragment_part_files() {
    assert!(is_partial_artifact("abc123.opus.part-Frag3", "abc123"));
}

#[test]
fn is_partial_artifact_matches_ytdl_resume_state() {
    assert!(is_partial_artifact("abc123.webm.ytdl", "abc123"));
}

#[test]
fn is_partial_artifact_matches_temp_intermediates() {
    assert!(is_partial_artifact("abc123.webm.temp", "abc123"));
}

#[test]
fn is_partial_artifact_does_not_match_a_finished_file() {
    assert!(!is_partial_artifact("abc123.opus", "abc123"));
}

#[test]
fn is_partial_artifact_does_not_match_an_unrelated_id_with_the_same_prefix() {
    // "abc1234" merely starts with "abc123" — must not be treated as ours.
    assert!(!is_partial_artifact("abc1234.opus.part", "abc123"));
}

#[test]
fn is_partial_artifact_does_not_match_a_different_id() {
    assert!(!is_partial_artifact("xyz789.opus.part", "abc123"));
}

// ── blocked_by_youtube_hint ──────────────────────────────────────────────

#[test]
fn blocked_by_youtube_hint_recognizes_a_403() {
    assert!(blocked_by_youtube_hint("ERROR: HTTP Error 403: Forbidden").is_some());
}

#[test]
fn blocked_by_youtube_hint_recognizes_a_bot_check() {
    assert!(blocked_by_youtube_hint("Sign in to confirm you're not a bot").is_some());
}

#[test]
fn blocked_by_youtube_hint_is_none_for_an_unrelated_error() {
    assert_eq!(blocked_by_youtube_hint("network is unreachable"), None);
}

// ── extract_domain ───────────────────────────────────────────────────────

#[test]
fn extract_domain_strips_scheme_and_www() {
    assert_eq!(
        extract_domain("https://www.youtube.com/watch?v=abc"),
        "youtube.com"
    );
}

#[test]
fn extract_domain_handles_plain_http() {
    assert_eq!(extract_domain("http://example.com/path"), "example.com");
}

#[test]
fn extract_domain_handles_a_bare_host_with_no_path() {
    assert_eq!(extract_domain("https://youtube.com"), "youtube.com");
}

#[test]
fn extract_domain_handles_a_url_with_no_scheme() {
    assert_eq!(extract_domain("youtube.com/watch?v=abc"), "youtube.com");
}
