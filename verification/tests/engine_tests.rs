use monthly_file_diff::{
    build_period_pattern, collect_records, datetime_str_to_iso8601_jst, discover_periods,
    discovery_plan, format_minute, group_records, normalize_filename, normalize_rel_path,
    parse_iso_date, period_from_captures, resolve_template, round_up_minute, sort_periods,
    CivilTime, FileInfo, Period, RawEntry,
};

fn period(y: i32, m: u32, d: u32) -> Period {
    Period::from_ymd(y, m, d).unwrap()
}

fn entry(rel_path: &str, size: u64) -> RawEntry {
    RawEntry {
        rel_path: rel_path.to_string(),
        size,
        created: None,
        modified: None,
    }
}

fn record(name: &str, size: u64, date_str: &str, rel: &str, norm: &str) -> FileInfo {
    FileInfo {
        actual_name: name.to_string(),
        size,
        created: "N/A".to_string(),
        modified: "N/A".to_string(),
        date_str: date_str.to_string(),
        rel_path: rel.to_string(),
        normalized_rel_path: norm.to_string(),
    }
}

#[test]
fn test_discovery_plan_picks_placeholder_segment() {
    let (dir, seg) = discovery_plan("/base/ref{yyyy}_{mm}data/Main");
    assert_eq!(dir, "/base");
    assert_eq!(seg, "ref{yyyy}_{mm}data");
}

#[test]
fn test_discovery_plan_leaf_segment() {
    let (dir, seg) = discovery_plan("logs/{yyyy}-{mm}-{dd}");
    assert_eq!(dir, "logs");
    assert_eq!(seg, "{yyyy}-{mm}-{dd}");
}

#[test]
fn test_discovery_plan_windows_separators() {
    let (dir, seg) = discovery_plan("D:\\data\\ref{yyyy}_{mm}\\Main");
    assert_eq!(dir, "D:\\data");
    assert_eq!(seg, "ref{yyyy}_{mm}");
}

#[test]
fn test_discovery_plan_fallback_without_placeholders() {
    let (dir, seg) = discovery_plan("a/b/c");
    assert_eq!(dir, "a");
    assert_eq!(seg, "b");
}

#[test]
fn test_build_period_pattern_exact() {
    let pat = build_period_pattern("ref{yyyy}_{mm}data");
    assert_eq!(pat, "^ref(?P<yyyy>\\d{4})_(?P<mm>\\d{1,2})data$");
}

#[test]
fn test_build_period_pattern_escapes_meta_characters() {
    let pat = build_period_pattern("a.b{dd}");
    assert_eq!(pat, "^a\\.b(?P<dd>\\d{1,2})$");
}

#[test]
fn test_discover_periods_valid_and_invalid_names() {
    // one badly formatted sibling among three good ones: exactly the
    // three valid periods come back, ascending
    let entries = vec![
        "ref2024_12data".to_string(),
        "ref2024_99data".to_string(),
        "ref2025_01data".to_string(),
        "ref2024_08data".to_string(),
    ];
    let periods = discover_periods("ref{yyyy}_{mm}data", &entries).unwrap();
    assert_eq!(periods.len(), 3);
    assert_eq!(periods[0], period(2024, 8, 1));
    assert_eq!(periods[1], period(2024, 12, 1));
    assert_eq!(periods[2], period(2025, 1, 1));
}

#[test]
fn test_discover_periods_requires_full_match() {
    let entries = vec![
        "xref2024_08datay".to_string(),
        "ref2024_08data".to_string(),
        "invalid_format".to_string(),
    ];
    let periods = discover_periods("ref{yyyy}_{mm}data", &entries).unwrap();
    assert_eq!(periods.len(), 1);
    assert_eq!(periods[0], period(2024, 8, 1));
}

#[test]
fn test_discover_periods_empty_listing() {
    let entries: Vec<String> = vec![];
    let periods = discover_periods("ref{yyyy}_{mm}data", &entries).unwrap();
    assert_eq!(periods.len(), 0);
}

#[test]
fn test_period_from_captures_rejects_bad_dates() {
    assert_eq!(
        period_from_captures("2024", "8", None),
        Some(period(2024, 8, 1))
    );
    assert_eq!(
        period_from_captures("2024", "12", Some("31")),
        Some(period(2024, 12, 31))
    );
    assert_eq!(period_from_captures("2024", "99", None), None);
    assert_eq!(period_from_captures("2024", "2", Some("30")), None);
    assert_eq!(period_from_captures("20x4", "8", None), None);
}

#[test]
fn test_sort_periods_ascending() {
    let unsorted = vec![period(2025, 1, 1), period(2024, 8, 1), period(2024, 12, 1)];
    let sorted = sort_periods(&unsorted);
    assert_eq!(
        sorted,
        vec![period(2024, 8, 1), period(2024, 12, 1), period(2025, 1, 1)]
    );
}

#[test]
fn test_parse_iso_date() {
    assert_eq!(parse_iso_date("2024-12-01"), Some(period(2024, 12, 1)));
    assert_eq!(parse_iso_date("2024-02-29"), Some(period(2024, 2, 29)));
    assert_eq!(parse_iso_date("2023-02-29"), None);
    assert_eq!(parse_iso_date("2024-13-01"), None);
    assert_eq!(parse_iso_date("not-a-date"), None);
    assert_eq!(parse_iso_date(""), None);
}

#[test]
fn test_normalize_round_trip() {
    // substituting the placeholders back restores the original name
    let normalized = normalize_filename("InTheBox08-2024.xlsx", 2024, 8);
    assert_eq!(normalized, "InTheBox{mm}-{yyyy}.xlsx");
    let restored = resolve_template(&normalized, &period(2024, 8, 1));
    assert_eq!(restored, "InTheBox08-2024.xlsx");
}

#[test]
fn test_normalize_idempotent_on_clean_names() {
    let once = normalize_filename("document.txt", 2024, 8);
    let twice = normalize_filename(&once, 2024, 8);
    assert_eq!(once, "document.txt");
    assert_eq!(twice, once);
}

#[test]
fn test_normalize_rel_path_subdirectory() {
    let result = normalize_rel_path("Sub/Report12-2025.pdf", 2025, 12);
    assert_eq!(result, "Sub/Report{mm}-{yyyy}.pdf");
}

#[test]
fn test_same_identity_across_periods() {
    // paths that differ only by the embedded date share one identity key
    let k1 = normalize_rel_path("Sub/InTheBox08-2024.xlsx", 2024, 8);
    let k2 = normalize_rel_path("Sub/InTheBox12-2024.xlsx", 2024, 12);
    let k3 = normalize_rel_path("Sub/InTheBox01-2025.xlsx", 2025, 1);
    assert_eq!(k1, "Sub/InTheBox{mm}-{yyyy}.xlsx");
    assert_eq!(k1, k2);
    assert_eq!(k2, k3);
}

#[test]
fn test_collect_records_depth_bound() {
    // files at depths 1, 2 and 3 below the scan root
    let make = || {
        vec![
            entry("root.txt", 1),
            entry("a/level1.txt", 2),
            entry("a/b/level2.txt", 3),
        ]
    };
    let p = period(2024, 1, 1);

    let depth1 = collect_records(make(), &p, 1);
    assert_eq!(depth1.len(), 1);
    assert_eq!(depth1[0].actual_name, "root.txt");

    let depth2 = collect_records(make(), &p, 2);
    assert_eq!(depth2.len(), 2);
    assert_eq!(depth2[0].rel_path, "root.txt");
    assert_eq!(depth2[1].rel_path, "a/level1.txt");

    let depth3 = collect_records(make(), &p, 3);
    assert_eq!(depth3.len(), 3);
    assert_eq!(depth3[2].rel_path, "a/b/level2.txt");
}

#[test]
fn test_collect_records_builds_record_fields() {
    let entries = vec![entry("Sub\\Report12-2025.pdf", 42)];
    let p = period(2025, 12, 1);
    let records = collect_records(entries, &p, 2);
    assert_eq!(records.len(), 1);
    assert_eq!(records[0].actual_name, "Report12-2025.pdf");
    assert_eq!(records[0].size, 42);
    assert_eq!(records[0].date_str, "2025-12");
    assert_eq!(records[0].rel_path, "Sub/Report12-2025.pdf");
    assert_eq!(records[0].normalized_rel_path, "Sub/Report{mm}-{yyyy}.pdf");
    assert_eq!(records[0].created, "N/A");
    assert_eq!(records[0].modified, "N/A");
}

#[test]
fn test_collect_records_empty_input() {
    // a period whose root yielded nothing produces no records
    let records = collect_records(Vec::new(), &period(2024, 1, 1), 2);
    assert_eq!(records.len(), 0);
}

#[test]
fn test_grouping_merges_periods() {
    // records from two periods whose names differ only by the embedded
    // date share one identity, one record per period, in period order
    let r1 = record(
        "InTheBox08-2024.xlsx",
        100,
        "2024-08",
        "InTheBox08-2024.xlsx",
        "InTheBox{mm}-{yyyy}.xlsx",
    );
    let r2 = record(
        "InTheBox12-2024.xlsx",
        200,
        "2024-12",
        "InTheBox12-2024.xlsx",
        "InTheBox{mm}-{yyyy}.xlsx",
    );
    let groups = group_records(vec![r1, r2]);
    assert_eq!(groups.len(), 1);
    assert_eq!(groups[0].identity, "InTheBox{mm}-{yyyy}.xlsx");
    assert_eq!(groups[0].records.len(), 2);
    assert_eq!(groups[0].records[0].date_str, "2024-08");
    assert_eq!(groups[0].records[1].date_str, "2024-12");
}

#[test]
fn test_grouping_sorts_keys() {
    let r1 = record("b.txt", 1, "2024-08", "b.txt", "b.txt");
    let r2 = record("a.txt", 2, "2024-08", "a.txt", "a.txt");
    let r3 = record("b.txt", 3, "2024-12", "b.txt", "b.txt");
    let groups = group_records(vec![r1, r2, r3]);
    assert_eq!(groups.len(), 2);
    assert_eq!(groups[0].identity, "a.txt");
    assert_eq!(groups[1].identity, "b.txt");
    assert_eq!(groups[1].records.len(), 2);
    assert_eq!(groups[1].records[0].size, 1);
    assert_eq!(groups[1].records[1].size, 3);
}

#[test]
fn test_round_up_minute_plain() {
    let t = CivilTime { year: 2024, month: 8, day: 15, hour: 10, minute: 30, second: 45 };
    let rounded = round_up_minute(&t);
    assert_eq!(format_minute(&rounded), "2024/08/15 10:31");

    let early = CivilTime { year: 2024, month: 8, day: 15, hour: 10, minute: 30, second: 29 };
    assert_eq!(format_minute(&round_up_minute(&early)), "2024/08/15 10:30");
}

#[test]
fn test_round_up_minute_rolls_over_year() {
    let t = CivilTime { year: 2024, month: 12, day: 31, hour: 23, minute: 59, second: 30 };
    let rounded = round_up_minute(&t);
    assert_eq!(format_minute(&rounded), "2025/01/01 00:00");
}

#[test]
fn test_round_up_minute_rolls_over_leap_day() {
    let t = CivilTime { year: 2024, month: 2, day: 28, hour: 23, minute: 59, second: 59 };
    assert_eq!(format_minute(&round_up_minute(&t)), "2024/02/29 00:00");

    let t2 = CivilTime { year: 2023, month: 2, day: 28, hour: 23, minute: 59, second: 59 };
    assert_eq!(format_minute(&round_up_minute(&t2)), "2023/03/01 00:00");
}

#[test]
fn test_iso8601_rejects_malformed_stamps() {
    assert_eq!(datetime_str_to_iso8601_jst("2024/13/01 10:00"), "null");
    assert_eq!(datetime_str_to_iso8601_jst("2024/02/30 10:00"), "null");
    assert_eq!(datetime_str_to_iso8601_jst("2024/08/15 24:00"), "null");
    assert_eq!(datetime_str_to_iso8601_jst("2024/08/15  1:00"), "null");
    assert_eq!(datetime_str_to_iso8601_jst("2024/12/31 23:59"), "2024-12-31T23:59:00");
}

#[test]
fn test_timestamp_display_from_system_time() {
    // a real timestamp renders as a YYYY/MM/DD HH:MM local-time string
    let mut e = entry("file.txt", 1);
    e.created = Some(std::time::SystemTime::now());
    e.modified = Some(std::time::SystemTime::now());
    let records = collect_records(vec![e], &period(2024, 6, 1), 2);
    assert_eq!(records.len(), 1);
    let c = &records[0].created;
    assert_eq!(c.len(), 16);
    assert!(c.contains("/"));
    assert!(datetime_str_to_iso8601_jst(c).contains("T"));
}

#[test]
fn test_discover_periods_with_day_placeholder() {
    let entries = vec![
        "2024-08-15".to_string(),
        "2024-08-16".to_string(),
        "2024-02-30".to_string(),
    ];
    let periods = discover_periods("{yyyy}-{mm}-{dd}", &entries).unwrap();
    assert_eq!(periods.len(), 2);
    assert_eq!(periods[0], period(2024, 8, 15));
    assert_eq!(periods[1], period(2024, 8, 16));
}

#[test]
fn test_resolve_template_without_placeholders() {
    let result = resolve_template("plain/path/Main", &period(2024, 8, 1));
    assert_eq!(result, "plain/path/Main");
}
