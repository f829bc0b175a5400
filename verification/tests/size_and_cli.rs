use diskhog::{listing_plan, warning_plan, ListingNote, MAX_WARNINGS_TO_PRINT, human_size, parse_args, parse_non_negative_usize, parse_positive_usize, Cli, ParseOutcome, DEFAULT_LIMIT};

fn parse(args: &[&str]) -> Result<Cli, ParseOutcome> {
    parse_args(args.iter().map(|value| (*value).to_string()).collect())
}

fn error_text(result: Result<Cli, ParseOutcome>) -> String {
    match result {
        Err(ParseOutcome::Error(message)) => message,
        other => panic!("expected an error, got {other:?}"),
    }
}

/// The same formatting done with a 64-bit float, as the sizes are defined.
fn float_size(bytes: u64) -> String {
    const UNITS: [&str; 5] = ["B", "KiB", "MiB", "GiB", "TiB"];
    if bytes < 1024 {
        return format!("{bytes} B");
    }
    let mut value = bytes as f64;
    let mut unit_index = 0_usize;
    while value >= 1024.0 && unit_index < UNITS.len() - 1 {
        value /= 1024.0;
        unit_index += 1;
    }
    format!("{value:.1} {}", UNITS[unit_index])
}

#[test]
fn human_size_uses_binary_units() {
    assert_eq!(human_size(0), "0 B");
    assert_eq!(human_size(1024), "1.0 KiB");
    assert_eq!(human_size(1024 * 1024), "1.0 MiB");
    assert_eq!(human_size(1024 * 1024 * 1024), "1.0 GiB");
}

#[test]
fn human_size_small_counts_are_plain_bytes() {
    assert_eq!(human_size(1), "1 B");
    assert_eq!(human_size(512), "512 B");
    assert_eq!(human_size(1023), "1023 B");
}

#[test]
fn human_size_rounds_to_tenths() {
    assert_eq!(human_size(1536), "1.5 KiB");
    assert_eq!(human_size(8192), "8.0 KiB");
    assert_eq!(human_size(1024 * 1024 - 1), "1024.0 KiB");
    assert_eq!(human_size(1024_u64.pow(4)), "1.0 TiB");
    assert_eq!(human_size(1024_u64.pow(5)), "1024.0 TiB");
    assert_eq!(human_size(u64::MAX), "16777216.0 TiB");
}

#[test]
fn human_size_ties_round_to_even_tenth() {
    // 1280 / 1024 = 1.25, 2304 / 1024 = 2.25 and 2816 / 1024 = 2.75 exactly.
    assert_eq!(human_size(1280), "1.2 KiB");
    assert_eq!(human_size(2304), "2.2 KiB");
    assert_eq!(human_size(2816), "2.8 KiB");
    // 1383 / 1024 = 1.3505..., above the tie.
    assert_eq!(human_size(1383), "1.4 KiB");
}

#[test]
fn human_size_matches_float_formatting() {
    let mut samples: Vec<u64> = Vec::new();
    for k in 0..64 {
        let p = 1_u64 << k;
        samples.push(p);
        samples.push(p - 1);
        samples.push(p.saturating_add(1));
        samples.push(p / 2 + p / 4);
        samples.push(p / 8 * 5);
        samples.push(p / 16 * 13);
    }
    for n in 0..5000_u64 {
        samples.push(n * 37);
        samples.push(1024 + n * 256);
        samples.push(1024 * 1024 + n * 262_144);
    }
    let mut x: u64 = 0x9E37_79B9_7F4A_7C15;
    for _ in 0..20000 {
        x ^= x << 13;
        x ^= x >> 7;
        x ^= x << 17;
        samples.push(x);
        samples.push(x >> (x % 64));
    }
    samples.push(u64::MAX);
    samples.push(u64::MAX - 1024);
    samples.push((1_u64 << 53) + 1);
    samples.push((1_u64 << 53) + 3);
    samples.push((1_u64 << 54) + 2);
    samples.push((1_u64 << 54) + 6);
    for bytes in samples {
        assert_eq!(human_size(bytes), float_size(bytes), "bytes = {bytes}");
    }
}

#[test]
fn defaults_match_v0_1_0_contract() {
    let cli = parse(&["."]).unwrap();
    assert_eq!(cli.limit, 20);
    assert!(cli.include_files);
    assert!(cli.include_dirs);
    assert_eq!(cli.max_depth, None);
}

#[test]
fn files_filter_is_exclusive_when_used_alone() {
    let cli = parse(&["--files", "."]).unwrap();
    assert!(cli.include_files);
    assert!(!cli.include_dirs);
}

#[test]
fn dirs_filter_is_exclusive_when_used_alone() {
    let cli = parse(&["--dirs", "."]).unwrap();
    assert!(!cli.include_files);
    assert!(cli.include_dirs);
}

#[test]
fn both_filters_restore_combined_view() {
    let cli = parse(&["--files", "--dirs", "."]).unwrap();
    assert!(cli.include_files);
    assert!(cli.include_dirs);
}

#[test]
fn limit_and_depth_are_parsed() {
    let cli = parse(&["--limit", "50", "--depth", "3", "."]).unwrap();
    assert_eq!(cli.limit, 50);
    assert_eq!(cli.max_depth, Some(3));
}

#[test]
fn zero_limit_is_rejected() {
    assert!(matches!(
        parse(&["--limit", "0", "."]),
        Err(ParseOutcome::Error(_))
    ));
}

#[test]
fn no_arguments_scan_the_current_directory() {
    let cli = parse(&[]).unwrap();
    assert_eq!(
        cli,
        Cli {
            path: ".".to_string(),
            limit: DEFAULT_LIMIT,
            include_files: true,
            include_dirs: true,
            max_depth: None,
        }
    );
}

#[test]
fn help_is_recognised_anywhere() {
    assert_eq!(parse(&["-h"]), Err(ParseOutcome::Help));
    assert_eq!(parse(&["--files", "--help"]), Err(ParseOutcome::Help));
    assert_eq!(parse(&[".", "-h", "--bogus"]), Err(ParseOutcome::Help));
}

#[test]
fn command_line_errors_have_their_messages() {
    assert_eq!(error_text(parse(&["--limit"])), "--limit requires a positive integer");
    assert_eq!(error_text(parse(&["--depth"])), "--depth requires a non-negative integer");
    assert_eq!(error_text(parse(&["--limit", "0"])), "--limit must be greater than zero");
    assert_eq!(
        error_text(parse(&["--limit", "x1"])),
        "--limit expects a non-negative integer, got 'x1'"
    );
    assert_eq!(
        error_text(parse(&["--depth", "-1"])),
        "--depth expects a non-negative integer, got '-1'"
    );
    assert_eq!(error_text(parse(&["-x"])), "unknown option '-x'");
    assert_eq!(error_text(parse(&["-"])), "unknown option '-'");
    assert_eq!(error_text(parse(&["a", "b"])), "only one path may be scanned at a time");
}

#[test]
fn depth_zero_and_later_values_win() {
    let cli = parse(&["--depth", "0", "--limit", "5", "--limit", "7", "dir"]).unwrap();
    assert_eq!(cli.max_depth, Some(0));
    assert_eq!(cli.limit, 7);
    assert_eq!(cli.path, "dir");
}

#[test]
fn numbers_read_like_the_standard_parser() {
    for text in ["0", "7", "+7", "007", "18446744073709551615", "", "+", "-0", "++1", " 1", "1 ", "1_0", "18446744073709551616", "99999999999999999999999", "٣"] {
        let expected = text.parse::<usize>().ok();
        let got = parse_non_negative_usize("--depth", text).ok();
        assert_eq!(got, expected, "text = {text:?}");
    }
}

#[test]
fn positive_numbers_refuse_zero_and_garbage() {
    assert_eq!(parse_positive_usize("--limit", "3"), Ok(3));
    assert_eq!(
        parse_positive_usize("--limit", "+0"),
        Err(ParseOutcome::Error("--limit must be greater than zero".to_string()))
    );
    assert_eq!(
        parse_positive_usize("--limit", "ten"),
        Err(ParseOutcome::Error("--limit expects a non-negative integer, got 'ten'".to_string()))
    );
}

#[test]
fn parsed_settings_always_show_something() {
    for args in [&["--files"][..], &["--dirs"][..], &["--files", "--dirs"][..], &[][..], &["--limit", "1"][..]] {
        let cli = parse(args).unwrap();
        assert!(cli.limit >= 1);
        assert!(cli.include_files || cli.include_dirs);
    }
}

#[test]
fn version_is_its_own_outcome() {
    assert_eq!(parse(&["--version"]), Err(ParseOutcome::Version));
    assert_eq!(parse(&[".", "--version"]), Err(ParseOutcome::Version));
    assert_eq!(parse(&["--help", "--version"]), Err(ParseOutcome::Help));
}

#[test]
fn listing_plan_limits_what_is_shown() {
    assert_eq!(listing_plan(0, 20), (0, ListingNote::NoMatches));
    assert_eq!(listing_plan(5, 20), (5, ListingNote::Nothing));
    assert_eq!(listing_plan(20, 20), (20, ListingNote::Nothing));
    assert_eq!(listing_plan(25, 20), (20, ListingNote::ShowingOf { shown: 20, total: 25 }));
    assert_eq!(listing_plan(3, 1), (1, ListingNote::ShowingOf { shown: 1, total: 3 }));
}

#[test]
fn warning_plan_caps_printed_warnings() {
    assert_eq!(MAX_WARNINGS_TO_PRINT, 10);
    assert_eq!(warning_plan(0), (0, 0));
    assert_eq!(warning_plan(7), (7, 0));
    assert_eq!(warning_plan(10), (10, 0));
    assert_eq!(warning_plan(13), (10, 3));
}
