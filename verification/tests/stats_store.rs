use speak_bridge::date::{encode_date, parse_date, today_date, Date};
use speak_bridge::stats::{
    accumulate_chars_and_corrections, accumulate_saved_time, default_usage_stats,
    rollover_today_if_needed, snapshot_of, UsageStats, UsageToday, UsageTotals,
};
use speak_bridge::stats_file::{encode_usage_stats, load_usage_stats, parse_usage_stats_bytes};

fn today() -> Date {
    Date { year: 2026, month: 10, day: 12 }
}

fn yesterday() -> Date {
    Date { year: 2026, month: 10, day: 11 }
}

fn sample_stats() -> UsageStats {
    UsageStats {
        totals: UsageTotals { time_saved_ms: 987_654_321, total_chars: 123_456, corrections: 789 },
        today: UsageToday {
            date: today(),
            time_saved_ms: 54_321,
            total_chars: 42,
            corrections: 7,
        },
    }
}

#[test]
fn absent_file_reads_as_zero_counters_dated_today() {
    let (stats, changed) = load_usage_stats(None, today());
    assert!(changed);
    assert_eq!(stats.today.date, today());
    let snap = snapshot_of(&stats);
    assert_eq!(snap.today_ms, 0);
    assert_eq!(snap.total_ms, 0);
    assert_eq!(snap.today_chars, 0);
    assert_eq!(snap.total_chars, 0);
    assert_eq!(snap.today_corrections, 0);
    assert_eq!(snap.total_corrections, 0);
}

#[test]
fn corrupt_file_reads_as_default() {
    let junk = b"{\"totals\": oops".to_vec();
    let (stats, changed) = load_usage_stats(Some(&junk), today());
    assert!(changed);
    assert_eq!(stats, default_usage_stats(today()));
}

#[test]
fn stats_round_trip_is_field_exact() {
    let st = sample_stats();
    let bytes = encode_usage_stats(&st);
    let back = parse_usage_stats_bytes(&bytes).unwrap();
    assert_eq!(back, st);
}

#[test]
fn stats_document_is_plain_json() {
    let st = sample_stats();
    let bytes = encode_usage_stats(&st);
    let v: serde_json::Value = serde_json::from_slice(&bytes).unwrap();
    assert_eq!(v["totals"]["time_saved_ms"].as_u64(), Some(987_654_321));
    assert_eq!(v["totals"]["total_chars"].as_u64(), Some(123_456));
    assert_eq!(v["totals"]["corrections"].as_u64(), Some(789));
    assert_eq!(v["today"]["date"].as_str(), Some("2026-10-12"));
    assert_eq!(v["today"]["time_saved_ms"].as_u64(), Some(54_321));
}

#[test]
fn pretty_printed_document_reads_back() {
    // The same document with JSON whitespace between the tokens, as a
    // pretty printer would lay it out.
    let pretty = "{\n  \"totals\": {\n    \"time_saved_ms\": 987654321,\n    \"total_chars\": 123456,\n    \"corrections\": 789\n  },\n  \"today\": {\n    \"date\": \"2026-10-12\",\n    \"time_saved_ms\": 54321,\n    \"total_chars\": 42,\n    \"corrections\": 7\n  }\n}\n";
    let back = parse_usage_stats_bytes(pretty.as_bytes()).unwrap();
    assert_eq!(back, sample_stats());
}

#[test]
fn rollover_zeroes_today_and_keeps_totals() {
    let mut st = sample_stats();
    st.today.date = yesterday();
    let changed = rollover_today_if_needed(&mut st, today());
    assert!(changed);
    assert_eq!(st.today.date, today());
    assert_eq!(st.today.time_saved_ms, 0);
    assert_eq!(st.today.total_chars, 0);
    assert_eq!(st.today.corrections, 0);
    assert_eq!(st.totals, sample_stats().totals);
}

#[test]
fn rollover_on_the_same_date_changes_nothing() {
    let mut st = sample_stats();
    let changed = rollover_today_if_needed(&mut st, today());
    assert!(!changed);
    assert_eq!(st, sample_stats());
}

#[test]
fn load_applies_the_rollover() {
    let mut st = sample_stats();
    st.today.date = yesterday();
    let bytes = encode_usage_stats(&st);
    let (loaded, changed) = load_usage_stats(Some(&bytes), today());
    assert!(changed);
    assert_eq!(loaded.today.date, today());
    assert_eq!(loaded.today.time_saved_ms, 0);
    assert_eq!(loaded.totals, st.totals);
}

#[test]
fn accumulations_never_shrink_totals() {
    let mut st = default_usage_stats(today());
    accumulate_saved_time(&mut st, today(), 2_200);
    let after_time = st.totals;
    accumulate_chars_and_corrections(&mut st, today(), 11, 3);
    assert_eq!(st.totals.time_saved_ms, 2_200);
    assert_eq!(st.totals.total_chars, 11);
    assert_eq!(st.totals.corrections, 3);
    assert!(st.totals.time_saved_ms >= after_time.time_saved_ms);
    assert!(st.totals.total_chars >= after_time.total_chars);
    assert!(st.totals.corrections >= after_time.corrections);
    accumulate_saved_time(&mut st, today(), 1_000);
    assert_eq!(st.totals.time_saved_ms, 3_200);
    assert_eq!(st.today.time_saved_ms, 3_200);
}

#[test]
fn accumulation_saturates_at_the_top() {
    let mut st = default_usage_stats(today());
    accumulate_saved_time(&mut st, today(), u64::MAX);
    accumulate_saved_time(&mut st, today(), 5);
    assert_eq!(st.totals.time_saved_ms, u64::MAX);
    assert_eq!(st.today.time_saved_ms, u64::MAX);
}

#[test]
fn accumulation_rolls_over_first() {
    let mut st = sample_stats();
    st.today.date = yesterday();
    accumulate_saved_time(&mut st, today(), 100);
    assert_eq!(st.today.date, today());
    assert_eq!(st.today.time_saved_ms, 100);
    assert_eq!(st.totals.time_saved_ms, sample_stats().totals.time_saved_ms + 100);
}

#[test]
fn date_renders_and_reads_back() {
    let d = today();
    let bytes = encode_date(d);
    assert_eq!(bytes, b"2026-10-12".to_vec());
    let (back, end) = parse_date(&bytes, 0).unwrap();
    assert_eq!(back, d);
    assert_eq!(end, 10);
}

#[test]
fn impossible_dates_are_refused() {
    assert!(parse_date(b"2026-13-01", 0).is_none());
    assert!(parse_date(b"2026-00-10", 0).is_none());
    assert!(parse_date(b"2026-10-32", 0).is_none());
    assert!(parse_date(b"2026/10/12", 0).is_none());
}

#[test]
fn the_current_date_string_is_a_stored_date() {
    let s = speak_bridge::date::current_date_string();
    assert_eq!(s.len(), 10);
    let (d, end) = parse_date(&s, 0).unwrap();
    assert_eq!(end, 10);
    assert!((1..=12).contains(&d.month));
}

#[test]
fn the_clock_reports_a_plausible_date() {
    let d = today_date();
    assert!((1..=12).contains(&d.month));
    assert!((1..=31).contains(&d.day));
    assert!(d.year >= 2020);
}
