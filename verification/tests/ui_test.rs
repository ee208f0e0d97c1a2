use std::path::PathBuf;
use std::path::Path;
use trovers::player::socket_owner_pid;
use trovers::playlist::shuffled_indices;
use trovers::tui::input::validate_playlist_name;
use trovers::ytdlp::blocked_by_youtube_hint;
use trovers::ytdlp::first_url_line;
use trovers::ytdlp::is_partial_artifact;
use trovers::ytdlp::parse_destination_line;
use trovers::ytdlp::parse_progress_line;
use trovers::playlist::PlaylistEntry;
use trovers::tui::ui::{
    album_header_cells, build_separated_line, calculate_distributed_widths, format_duration,
    format_playback_state, track_panel_title, truncate,
};

/// Top-level playlist entries from `(name, path)` pairs.
fn entries<S: Into<String>>(pairs: Vec<(S, PathBuf)>) -> Vec<PlaylistEntry> {
    pairs
        .into_iter()
        .map(|(name, path)| PlaylistEntry::normal(name.into(), path.to_string_lossy().into_owned()))
        .collect()
}

// ── format_duration tests ─────────────────────────────────────────────

#[test]
fn format_duration_zero() {
    assert_eq!(format_duration(0), "00:00");
}

#[test]
fn format_duration_seconds_only() {
    assert_eq!(format_duration(45), "00:45");
}

#[test]
fn format_duration_one_minute() {
    assert_eq!(format_duration(60), "01:00");
}

#[test]
fn format_duration_minutes_and_seconds() {
    assert_eq!(format_duration(125), "02:05");
}

#[test]
fn format_duration_fifty_nine_minutes() {
    assert_eq!(format_duration(3599), "59:59");
}

#[test]
fn format_duration_one_hour() {
    assert_eq!(format_duration(3600), "01:00:00");
}

#[test]
fn format_duration_hours_minutes_seconds() {
    assert_eq!(format_duration(3661), "01:01:01");
}

#[test]
fn format_duration_long() {
    // 2h 30m 45s = 9045s
    assert_eq!(format_duration(9045), "02:30:45");
}

#[test]
fn format_duration_large() {
    // 10h = 36000s
    assert_eq!(format_duration(36000), "10:00:00");
}

// ── truncate tests ────────────────────────────────────────────────────

#[test]
fn truncate_empty_string() {
    assert_eq!(truncate("", 10), "");
}

#[test]
fn truncate_max_zero() {
    assert_eq!(truncate("hello", 0), "");
}

#[test]
fn truncate_exact_length() {
    assert_eq!(truncate("hello", 5), "hello");
}

#[test]
fn truncate_shorter_than_max() {
    assert_eq!(truncate("hi", 10), "hi");
}

#[test]
fn truncate_overflow_appends_ellipsis() {
    let result = truncate("hello world", 8);
    assert_eq!(result, "hello w…");
    assert_eq!(result.chars().count(), 8);
}

#[test]
fn truncate_max_one() {
    // max=1: end = max.saturating_sub(1) = 0, so empty string + ellipsis
    let result = truncate("hello", 1);
    assert_eq!(result, "…");
    assert_eq!(result.chars().count(), 1);
}

#[test]
fn truncate_max_two() {
    let result = truncate("hello", 2);
    assert_eq!(result, "h…");
    assert_eq!(result.chars().count(), 2);
}

#[test]
fn truncate_unicode() {
    let result = truncate("héllo wörld", 7);
    assert_eq!(result.chars().count(), 7);
    assert!(result.ends_with('…'));
}

#[test]
fn truncate_unicode_exact() {
    assert_eq!(truncate("héllo", 5), "héllo");
}

// ── calculate_distributed_widths tests ────────────────────────────────

#[test]
fn distributed_widths_empty_sections() {
    let result = calculate_distributed_widths(80, 0, &[]);
    assert!(result.is_empty());
}

#[test]
fn distributed_widths_single_flexible_section() {
    // No fixed widths: single section gets all the width
    let result = calculate_distributed_widths(80, 1, &[]);
    assert_eq!(result, vec![80]);
}

#[test]
fn distributed_widths_all_flexible_first_gets_remainder() {
    // 3 sections, no fixed: first gets all, others get 0
    let result = calculate_distributed_widths(80, 3, &[]);
    assert_eq!(result[0], 80);
    assert_eq!(result[1], 0);
    assert_eq!(result[2], 0);
}

#[test]
fn distributed_widths_with_fixed_sections() {
    // 3 sections: section 1 fixed=10, section 2 fixed=8 → section 0 gets 80-18=62
    let result = calculate_distributed_widths(80, 3, &[(1, 10), (2, 8)]);
    assert_eq!(result[0], 62); // flexible
    assert_eq!(result[1], 10); // fixed
    assert_eq!(result[2], 8); // fixed
}

#[test]
fn distributed_widths_first_section_fixed_flex_goes_to_second() {
    // section 0 fixed=20, section 1 is flexible → gets 80-20=60
    let result = calculate_distributed_widths(80, 2, &[(0, 20)]);
    assert_eq!(result[0], 20); // fixed
    assert_eq!(result[1], 60); // flexible
}

#[test]
fn distributed_widths_overflow_saturates_at_zero() {
    // Fixed widths exceed total → flexible section gets 0
    let result = calculate_distributed_widths(10, 3, &[(1, 8), (2, 6)]);
    assert_eq!(result[0], 0); // flexible, saturated
    assert_eq!(result[1], 8);
    assert_eq!(result[2], 6);
}

#[test]
fn distributed_widths_exact_fit() {
    // Fixed widths exactly equal total → flexible gets 0
    let result = calculate_distributed_widths(20, 3, &[(1, 10), (2, 10)]);
    assert_eq!(result[0], 0);
    assert_eq!(result[1], 10);
    assert_eq!(result[2], 10);
}

#[test]
fn distributed_widths_narrow_terminal() {
    // Typical narrow terminal width scenario
    let result = calculate_distributed_widths(40, 3, &[(1, 10), (2, 6)]);
    assert_eq!(result[0], 24); // 40 - 10 - 6
    assert_eq!(result[1], 10);
    assert_eq!(result[2], 6);
}

// ── build_separated_line tests ────────────────────────────────────────

#[test]
fn separated_line_empty_segments() {
    let result = build_separated_line(&[], 80);
    assert!(result.is_empty());
}

#[test]
fn separated_line_zero_width() {
    let result = build_separated_line(&[("hello", true)], 0);
    assert!(result.is_empty());
}

#[test]
fn separated_line_single_segment_fits() {
    let result = build_separated_line(&[("hello", true)], 80);
    assert_eq!(result.len(), 1);
    assert_eq!(result[0].0, "hello");
    assert!(result[0].1);
}

#[test]
fn separated_line_two_segments_fit() {
    // "hello • world" = 13 chars
    let result = build_separated_line(&[("hello", true), ("world", false)], 80);
    assert_eq!(result.len(), 3); // hello + sep + world
    assert_eq!(result[0].0, "hello");
    assert_eq!(result[1].0, " • ");
    assert!(!result[1].1); // separator is not bold
    assert_eq!(result[2].0, "world");
    assert!(!result[2].1);
}

#[test]
fn separated_line_three_segments_fit() {
    // "Track • Artist • source.com" all fit in 80
    let result = build_separated_line(
        &[("Track", true), ("Artist", false), ("source.com", false)],
        80,
    );
    assert_eq!(result.len(), 5); // track + sep + artist + sep + source
    assert_eq!(result[0].0, "Track");
    assert_eq!(result[2].0, "Artist");
    assert_eq!(result[4].0, "source.com");
}

#[test]
fn separated_line_primary_has_priority_on_truncation() {
    // Very narrow: primary segment should be truncated less than secondary
    // "Hello World" (11) + " • " (3) + "Artist Name" (11) = 25
    // Force truncation with max_width=15: text_budget=15-3=12
    // primary gets min(11,12)=11, secondary gets 12-11=1
    let result = build_separated_line(&[("Hello World", true), ("Artist Name", false)], 15);
    // Result: "Hello World" + sep + 1-char truncated artist
    let texts: Vec<&str> = result.iter().map(|r| r.0.as_str()).collect();
    assert!(
        texts.contains(&"Hello World"),
        "primary should be preserved: {:?}",
        texts
    );
}

#[test]
fn separated_line_truncation_applied() {
    // Single segment that needs truncation
    let result = build_separated_line(&[("Hello World", true)], 8);
    assert_eq!(result.len(), 1);
    let text = &result[0].0;
    assert_eq!(text.chars().count(), 8);
    assert!(text.ends_with('…'));
}

#[test]
fn separated_line_bold_flags_preserved() {
    let result =
        build_separated_line(&[("Track", true), ("Artist", false), ("Source", false)], 80);
    // indices: 0=Track(bold), 1=sep, 2=Artist(not bold), 3=sep, 4=Source(not bold)
    assert!(result[0].1, "first segment should be bold");
    assert!(!result[1].1, "separator should not be bold");
    assert!(!result[2].1, "second segment should not be bold");
}

// ── format_playback_state tests ───────────────────────────────────────

#[test]
fn playback_state_no_track() {
    let (icon, text) = format_playback_state(false, false, false);
    assert_eq!(icon, "");
    assert_eq!(text, "No track");
}

#[test]
fn playback_state_no_player_but_has_track() {
    // Track selected but player not ready yet (loading)
    let (icon, text) = format_playback_state(false, false, true);
    assert_eq!(icon, "⏳");
    assert_eq!(text, "Loading…");
}

#[test]
fn playback_state_playing() {
    let (icon, text) = format_playback_state(true, false, true);
    assert_eq!(icon, "▶");
    assert_eq!(text, "Playing");
}

#[test]
fn playback_state_paused() {
    let (icon, text) = format_playback_state(true, true, true);
    assert_eq!(icon, "⏸");
    assert_eq!(text, "Paused");
}

#[test]
fn playback_state_no_track_takes_priority() {
    // Even if has_player=true and is_paused=true, no track means "No track"
    let (icon, text) = format_playback_state(true, true, false);
    assert_eq!(icon, "");
    assert_eq!(text, "No track");
}

#[test]
fn playback_state_icons_are_nonempty_when_active() {
    let (playing_icon, _) = format_playback_state(true, false, true);
    let (paused_icon, _) = format_playback_state(true, true, true);
    assert!(!playing_icon.is_empty());
    assert!(!paused_icon.is_empty());
}

#[test]
fn header_layout_calculations_use_full_width() {
    // In three-section mode, the total widths should sum to ~= the available width
    let width = 100;
    let label = "🎵 Now Playing"; // 14 chars
    let label_section = 1 + label.chars().count(); // 15
    let speed_str = "1.4×";
    let speed_section = speed_str.chars().count() + 1; // 5

    let fixed = [(0, label_section), (2, speed_section)];
    let widths = calculate_distributed_widths(width, 3, &fixed);

    assert_eq!(widths[0], label_section);
    assert_eq!(widths[2], speed_section);
    // Center gets the remaining space
    let expected_center = width.saturating_sub(label_section + speed_section);
    assert_eq!(widths[1], expected_center);
    // Total should equal width
    assert_eq!(widths[0] + widths[1] + widths[2], width);
}

#[test]
fn edge_case_minimum_terminal_width_layout_calculations() {
    // Verify layout calculations don't underflow or panic at narrow widths.
    // fixed_widths: section 0 = 15, section 2 = 5 (sum = 20). Section 1 is flexible.
    // The correct invariant: fixed sections retain their widths; the flexible section
    // gets max(0, total_width - sum_of_fixed). Sum == total_width only when no overflow.
    for w in [20, 30, 40, 60, 80] {
        let widths = calculate_distributed_widths(w, 3, &[(0, 15), (2, 5)]);
        assert_eq!(widths.len(), 3, "should have 3 sections for w={w}");
        assert_eq!(widths[0], 15, "fixed section 0 should be 15 for w={w}");
        assert_eq!(widths[2], 5, "fixed section 2 should be 5 for w={w}");
        // flexible section gets the remaining space (non-negative)
        let expected_flex = w.saturating_sub(20);
        assert_eq!(
            widths[1], expected_flex,
            "flexible section should be max(0, w-20) for w={w}: {widths:?}"
        );
    }
    // Overflow case: when fixed widths exceed total_width, flexible section is 0
    // and sum > total_width (fixed sections retain their sizes)
    let overflow = calculate_distributed_widths(10, 3, &[(0, 15), (2, 5)]);
    assert_eq!(overflow[0], 15, "fixed section 0 unchanged in overflow");
    assert_eq!(overflow[2], 5, "fixed section 2 unchanged in overflow");
    assert_eq!(overflow[1], 0, "flexible section is 0 in overflow");
    assert!(
        overflow.iter().sum::<usize>() > 10,
        "sum exceeds total_width in overflow case"
    );
}

#[test]
fn playback_state_loading_display() {
    // Loading state (track selected but player not ready)
    let (icon, text) = format_playback_state(false, false, true);
    assert_eq!(icon, "⏳", "loading has hourglass icon");
    assert_eq!(text, "Loading…", "loading shows Loading text");
}

#[test]
fn layout_distributed_widths_minimum_width() {
    // At minimum terminal width, widths should not panic and should not overflow
    let w = 10usize;
    // Three sections with fixed sizes that together might exceed w
    let widths = calculate_distributed_widths(w, 3, &[(1, 5), (2, 3)]);
    assert_eq!(widths[1], 5, "fixed section 1");
    assert_eq!(widths[2], 3, "fixed section 2");
    assert_eq!(
        widths[0],
        w.saturating_sub(5 + 3),
        "flexible section saturates"
    );
}

#[test]
fn layout_format_duration_edge_cases() {
    // Test boundary values for duration formatting
    assert_eq!(format_duration(0), "00:00", "zero duration");
    assert_eq!(format_duration(59), "00:59", "59 seconds");
    assert_eq!(format_duration(3599), "59:59", "59m59s");
    assert_eq!(format_duration(3600), "01:00:00", "exactly 1 hour");
    assert_eq!(
        format_duration(u64::MAX / 3600 * 3600), // large hours value
        format!("{:02}:00:00", u64::MAX / 3600),
        "large duration"
    );
}

#[test]
fn layout_truncate_respects_unicode_char_boundaries() {
    // Unicode characters should count as one char each
    let emoji = "🎵🎶🎼🎹🎸"; // 5 emoji
    let result = truncate(emoji, 3);
    assert_eq!(result.chars().count(), 3, "truncated emoji count");
    assert!(result.ends_with('…'), "truncated with ellipsis");
}

// ── validate_playlist_name tests ──────────────────────────────────────

#[test]
fn validate_playlist_name_accepts_valid_name() {
    let existing: Vec<PlaylistEntry> = vec![];
    let result = validate_playlist_name("My Playlist", &existing, None);
    assert!(result.is_ok(), "valid name should be accepted: {result:?}");
}

#[test]
fn validate_playlist_name_rejects_empty() {
    let existing: Vec<PlaylistEntry> = vec![];
    let result = validate_playlist_name("", &existing, None);
    assert!(result.is_err(), "empty name should be rejected");
}

#[test]
fn validate_playlist_name_rejects_slash() {
    let existing: Vec<PlaylistEntry> = vec![];
    let result = validate_playlist_name("bad/name", &existing, None);
    assert!(result.is_err(), "name with slash should be rejected");
}

#[test]
fn validate_playlist_name_rejects_backslash() {
    let existing: Vec<PlaylistEntry> = vec![];
    let result = validate_playlist_name("bad\\name", &existing, None);
    assert!(result.is_err(), "name with backslash should be rejected");
}

#[test]
fn validate_playlist_name_rejects_colon() {
    let existing: Vec<PlaylistEntry> = vec![];
    let result = validate_playlist_name("bad:name", &existing, None);
    assert!(result.is_err(), "name with colon should be rejected");
}

#[test]
fn validate_playlist_name_rejects_whitespace_only() {
    let existing: Vec<PlaylistEntry> = vec![];
    let result = validate_playlist_name("   ", &existing, None);
    assert!(result.is_err(), "whitespace-only name should be rejected");
}

#[test]
fn validate_playlist_name_rejects_dot() {
    let existing: Vec<PlaylistEntry> = vec![];
    assert!(
        validate_playlist_name(".", &existing, None).is_err(),
        ". is invalid"
    );
    assert!(
        validate_playlist_name("..", &existing, None).is_err(),
        ".. is invalid"
    );
}

#[test]
fn validate_playlist_name_rejects_duplicate() {
    let existing = entries(vec![(
        "Rock".to_string(),
        std::path::PathBuf::from("/fake/Rock.toml"),
    )]);
    let result = validate_playlist_name("Rock", &existing, None);
    assert!(
        result.is_err(),
        "duplicate name should be rejected: {result:?}"
    );
}

#[test]
fn validate_playlist_name_allows_current_name_during_rename() {
    // During rename, the current name is excluded from duplicate check
    let existing = entries(vec![(
        "Rock".to_string(),
        std::path::PathBuf::from("/fake/Rock.toml"),
    )]);
    let result = validate_playlist_name("Rock", &existing, Some("Rock"));
    assert!(
        result.is_ok(),
        "current name should be allowed during rename: {result:?}"
    );
}

#[test]
fn validate_playlist_name_rejects_other_duplicate_during_rename() {
    let existing = entries(vec![
        (
            "Rock".to_string(),
            std::path::PathBuf::from("/fake/Rock.toml"),
        ),
        (
            "Jazz".to_string(),
            std::path::PathBuf::from("/fake/Jazz.toml"),
        ),
    ]);
    // Renaming "Rock" to "Jazz" (which already exists) should be rejected
    let result = validate_playlist_name("Jazz", &existing, Some("Rock"));
    assert!(
        result.is_err(),
        "renaming to existing name should be rejected"
    );
}

// ── player sockets ────────────────────────────────────────────────────

#[test]
fn socket_owner_pid_parses_our_socket_names() {

    assert_eq!(
        socket_owner_pid(Path::new("/tmp/trovers-1234-0.sock").to_str().unwrap()),
        Some(1234)
    );
    assert_eq!(
        socket_owner_pid(Path::new("/tmp/trovers-99-7.sock").to_str().unwrap()),
        Some(99)
    );
}

#[test]
fn socket_owner_pid_rejects_foreign_files() {

    assert_eq!(socket_owner_pid(Path::new("/tmp/mpv-1234-0.sock").to_str().unwrap()), None);
    assert_eq!(socket_owner_pid(Path::new("/tmp/trovers-1234-0.log").to_str().unwrap()), None);
    assert_eq!(socket_owner_pid(Path::new("/tmp/trovers-abc-0.sock").to_str().unwrap()), None);
    assert_eq!(socket_owner_pid(Path::new("/tmp/trovers.sock").to_str().unwrap()), None);
}

// ── yt-dlp output ─────────────────────────────────────────────────────

#[test]
fn ui_test_parse_progress_line_reads_the_percentage() {
    let parse = |l: &str| parse_progress_line(l).and_then(|t| t.parse::<f32>().ok());

    assert_eq!(
        parse("[download]  45.3% of    4.23MiB at    1.23MiB/s ETA 00:02"),
        Some(45.3)
    );
    assert_eq!(
        parse("[download] 100% of    3.27MiB in 00:00:00 at 14.05MiB/s"),
        Some(100.0)
    );
    assert_eq!(parse("[youtube] A: Downloading webpage"), None);
}

#[test]
fn parse_destination_line_reads_both_download_and_extractaudio() {
    let parse = |l: &str| parse_destination_line(l).map(std::path::PathBuf::from);

    assert_eq!(
        parse("[download] Destination: /tmp/audio/A.webm"),
        Some(std::path::PathBuf::from("/tmp/audio/A.webm"))
    );
    // With `-x --audio-format opus` this is often the only Destination line
    // yt-dlp prints, and it names the file that survives conversion.
    assert_eq!(
        parse("[ExtractAudio] Destination: /tmp/audio/A.opus"),
        Some(std::path::PathBuf::from("/tmp/audio/A.opus"))
    );
    assert_eq!(parse("[download] 100% of 3.27MiB"), None);
}

#[test]
fn shuffled_indices_is_a_permutation() {

    for seed in [1u64, 42, 9_999, u64::MAX] {
        let order = shuffled_indices(7, seed);
        let mut sorted = order.clone();
        sorted.sort_unstable();
        assert_eq!(
            sorted,
            (0..7).collect::<Vec<_>>(),
            "every track must appear exactly once (seed {seed}), else a shuffled \
             walk drops or repeats tracks"
        );
    }
    assert_eq!(shuffled_indices(0, 1), Vec::<usize>::new());
    assert_eq!(shuffled_indices(1, 1), vec![0]);
}

#[test]
fn shuffled_indices_actually_reorders() {

    let identity: Vec<usize> = (0..12).collect();
    let shuffled_any = [1u64, 2, 3, 4, 5]
        .iter()
        .any(|&seed| shuffled_indices(12, seed) != identity);
    assert!(
        shuffled_any,
        "a shuffle that returns the input order for every seed is not a shuffle"
    );
}

#[test]
fn the_stream_url_is_the_first_line_of_yt_dlps_output() {

    // A format selector resolving to separate audio and video streams makes
    // yt-dlp print one URL per line. mpv cannot open a URL with a newline in
    // the middle of it.
    assert_eq!(
        first_url_line("https://example.com/audio\nhttps://example.com/video\n").as_deref(),
        Some("https://example.com/audio")
    );
    assert_eq!(
        first_url_line("\n  https://example.com/audio  \n").as_deref(),
        Some("https://example.com/audio")
    );
    assert_eq!(first_url_line("   \n\n"), None);
    assert_eq!(first_url_line(""), None);
}

#[test]
fn partial_download_files_are_recognised_but_finished_ones_are_not() {

    assert!(is_partial_artifact("A.webm.part", "A"));
    assert!(is_partial_artifact("A.webm.ytdl", "A"));
    assert!(is_partial_artifact("A.opus.temp", "A"));
    assert!(is_partial_artifact("A.webm.part-Frag3", "A"));

    assert!(
        !is_partial_artifact("A.opus", "A"),
        "the cached file must survive"
    );
    assert!(!is_partial_artifact("A.webm", "A"));
    // A different id that merely starts with ours.
    assert!(!is_partial_artifact("AB.webm.part", "A"));
    assert!(!is_partial_artifact("B.webm.part", "A"));
}

#[test]
fn known_youtube_blocking_errors_get_an_update_hint() {

    let blocking_errors = [
        "yt-dlp download exited with status exit status: 1: ERROR: unable to download video data: HTTP Error 403: Forbidden",
        "ERROR: [youtube] d04frRhBx8A: Sign in to confirm you're not a bot",
        "mweb client https formats require a GVS PO Token which was not provided. They will be skipped as they may yield HTTP Error 403.",
        "WARNING: Only images are available for download. use --list-formats to see them",
        "ERROR: [youtube] d04frRhBx8A: Requested format is not available. Use --list-formats for a list of available formats",
    ];
    for err in blocking_errors {
        assert!(
            blocked_by_youtube_hint(err).is_some(),
            "expected a hint for: {err}"
        );
    }
}

#[test]
fn unrelated_errors_get_no_youtube_hint() {

    let unrelated_errors = [
        "yt-dlp failed: ERROR: [generic] 'Last login: Tue Jul  7 22:00:27 on ttys000' is not a valid URL",
        "network unreachable",
        "boom",
    ];
    for err in unrelated_errors {
        assert!(
            blocked_by_youtube_hint(err).is_none(),
            "expected no hint for: {err}"
        );
    }
}

// ── track panel and album rows ────────────────────────────────────────

#[test]
fn the_panel_title_shows_the_count_and_the_total_duration() {
    assert_eq!(
        track_panel_title("Live Sets", 42, 12, 20, 42, 6 * 3600 + 12 * 60),
        " Live Sets · 42 tracks · 6h 12m  [ 12–20 / 42 ] "
    );
}

#[test]
fn the_panel_title_counts_one_track_in_the_singular() {
    assert_eq!(
        track_panel_title("Live Sets", 1, 1, 1, 1, 90),
        " Live Sets · 1 track · 1m  [ 1–1 / 1 ] "
    );
}

#[test]
fn the_panel_title_omits_a_duration_nothing_knows() {
    assert_eq!(
        track_panel_title("Live Sets", 3, 1, 3, 3, 0),
        " Live Sets · 3 tracks  [ 1–3 / 3 ] "
    );
}

#[test]
fn the_panel_title_says_under_a_minute_rather_than_zero() {
    assert_eq!(
        track_panel_title("Live Sets", 1, 1, 1, 1, 30),
        " Live Sets · 1 track · <1m  [ 1–1 / 1 ] "
    );
}

#[test]
fn the_panel_title_of_an_empty_playlist_is_just_its_name() {
    assert_eq!(track_panel_title("Live Sets", 0, 1, 0, 0, 0), " Live Sets ");
}

#[test]
fn a_folded_album_header_points_right_and_an_open_one_points_down() {
    let (title, _, _) = album_header_cells("Kino", 10, 2760, false, 40);
    assert_eq!(title, "▸ Kino");
    let (title, _, _) = album_header_cells("Kino", 10, 2760, true, 40);
    assert_eq!(title, "▾ Kino");
}

#[test]
fn an_album_header_reports_its_size_where_the_artist_and_duration_go() {
    let (_, count, duration) = album_header_cells("Kino", 10, 2760, false, 40);
    assert_eq!(count, "10 tracks");
    assert_eq!(duration, "46m");

    let (_, count, _) = album_header_cells("Solo", 1, 60, false, 40);
    assert_eq!(count, "1 track");
}

#[test]
fn an_album_header_of_unknown_length_says_nothing_about_it() {
    let (_, count, duration) = album_header_cells("Kino", 3, 0, false, 40);
    assert_eq!(count, "3 tracks");
    assert_eq!(duration, "");
}

#[test]
fn a_long_album_name_is_truncated_to_the_title_column() {
    let (title, _, _) = album_header_cells("Суржиков Роман – Полари 06", 20, 0, true, 12);
    assert_eq!(title.chars().count(), 12);
    assert!(title.starts_with("▾ "), "the glyph survives truncation");
}

#[test]
fn the_panel_title_counts_tracks_in_its_summary_and_rows_in_its_window() {
    assert_eq!(
        track_panel_title("aBooks", 23, 1, 12, 14, 32 * 3600 + 41 * 60),
        " aBooks · 23 tracks · 32h 41m  [ 1–12 / 14 ] "
    );
}

#[test]
fn a_playlist_whose_only_row_is_a_header_still_gets_a_counter() {
    assert_eq!(
        track_panel_title("aBooks", 10, 1, 1, 1, 600),
        " aBooks · 10 tracks · 10m  [ 1–1 / 1 ] "
    );
}
