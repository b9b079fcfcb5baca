use speak_bridge::controller::RecordingState;
use speak_bridge::date::Date;
use speak_bridge::dispatcher::dispatch_event;
use speak_bridge::events::{parse_event_line, EventFields, LineOutcome};
use speak_bridge::stats::{default_usage_stats, snapshot_of};
use speak_bridge::wire::{encode_bridge_shutdown, encode_command, prepare_send, Command, SendError};

fn today() -> Date {
    Date { year: 2026, month: 10, day: 12 }
}

fn fresh_rec() -> RecordingState {
    RecordingState { is_recording: false, hotkey_down: false, last_toggle_ms: None }
}

fn parsed(line: &[u8]) -> EventFields {
    match parse_event_line(line) {
        LineOutcome::Parsed(f) => f,
        other => panic!("line did not parse: {:?}", other),
    }
}

#[test]
fn command_lines_are_exact() {
    assert_eq!(encode_command(&Command::Start), "{\"cmd\":\"start\"}\n");
    assert_eq!(encode_command(&Command::Stop), "{\"cmd\":\"stop\"}\n");
    assert_eq!(encode_command(&Command::Shutdown), "{\"cmd\":\"shutdown\"}\n");
}

#[test]
fn command_lines_are_json() {
    for cmd in [Command::Start, Command::Stop, Command::Shutdown] {
        let line = encode_command(&cmd);
        let v: serde_json::Value = serde_json::from_str(line.trim()).unwrap();
        assert!(v.get("cmd").and_then(|c| c.as_str()).is_some());
    }
}

#[test]
fn send_with_worker_yields_the_line() {
    let r = prepare_send(true, &Command::Start);
    assert_eq!(r.unwrap(), "{\"cmd\":\"start\"}\n");
}

#[test]
fn send_without_worker_is_channel_unavailable() {
    let r = prepare_send(false, &Command::Start);
    assert_eq!(r.unwrap_err(), SendError::ChannelUnavailable);
}

#[test]
fn bridge_shutdown_announcement_is_exact() {
    let line = encode_bridge_shutdown();
    assert_eq!(line, "{\"event\":\"bridge_shutdown\",\"reason\":\"process_exit\"}");
    let v: serde_json::Value = serde_json::from_str(&line).unwrap();
    assert_eq!(v["event"], "bridge_shutdown");
    assert_eq!(v["reason"], "process_exit");
}

#[test]
fn recording_state_event_sets_the_flag() {
    let f = parsed(b"{\"event\":\"recording_state\",\"is_recording\":true}");
    let mut rec = fresh_rec();
    let mut stats = default_usage_stats(today());
    let r = dispatch_event(&f, &mut rec, &mut stats, today());
    assert!(rec.is_recording);
    assert!(r.snapshots.is_empty());
    assert!(!r.stats_written);
}

#[test]
fn recording_state_event_clears_the_flag() {
    let f = parsed(b"{\"event\":\"recording_state\",\"is_recording\":false}");
    let mut rec = fresh_rec();
    rec.is_recording = true;
    let mut stats = default_usage_stats(today());
    dispatch_event(&f, &mut rec, &mut stats, today());
    assert!(!rec.is_recording);
}

#[test]
fn transcription_event_accumulates_exactly() {
    let f = parsed(
        b"{\"event\":\"transcription_result\",\"duration\":10.0,\"text\":\"hello world\",\"corrections\":2}",
    );
    let mut rec = fresh_rec();
    let mut stats = default_usage_stats(today());
    let r = dispatch_event(&f, &mut rec, &mut stats, today());
    assert_eq!(stats.today.time_saved_ms, 22_000);
    assert_eq!(stats.totals.time_saved_ms, 22_000);
    assert_eq!(stats.today.total_chars, 10);
    assert_eq!(stats.totals.total_chars, 10);
    assert_eq!(stats.today.corrections, 2);
    assert_eq!(stats.totals.corrections, 2);
    assert_eq!(r.snapshots.len(), 2);
    assert!(r.stats_written);
    let last = snapshot_of(&stats);
    assert_eq!(r.snapshots[1], last);
}

#[test]
fn transcription_fractional_duration() {
    let f = parsed(b"{\"event\":\"transcription_result\",\"duration\":3.25}");
    let mut rec = fresh_rec();
    let mut stats = default_usage_stats(today());
    let r = dispatch_event(&f, &mut rec, &mut stats, today());
    // 3.25 s is 3250 ms; times 2.2 that is 7150 ms saved.
    assert_eq!(stats.today.time_saved_ms, 7_150);
    assert_eq!(r.snapshots.len(), 1);
}

#[test]
fn transcription_exponent_duration() {
    let f = parsed(b"{\"event\":\"transcription_result\",\"duration\":1e3}");
    let mut rec = fresh_rec();
    let mut stats = default_usage_stats(today());
    dispatch_event(&f, &mut rec, &mut stats, today());
    // 1000 s is 1_000_000 ms; times 2.2 that is 2_200_000 ms saved.
    assert_eq!(stats.today.time_saved_ms, 2_200_000);
}

#[test]
fn negative_duration_counts_nothing_but_broadcasts() {
    let f = parsed(b"{\"event\":\"transcription_result\",\"duration\":-5.0}");
    let mut rec = fresh_rec();
    let mut stats = default_usage_stats(today());
    let r = dispatch_event(&f, &mut rec, &mut stats, today());
    assert_eq!(stats.today.time_saved_ms, 0);
    assert_eq!(r.snapshots.len(), 1);
}

#[test]
fn transcription_without_changes_still_broadcasts_once() {
    let f = parsed(b"{\"event\":\"transcription_result\",\"text\":\"   \"}");
    let mut rec = fresh_rec();
    let mut stats = default_usage_stats(today());
    let r = dispatch_event(&f, &mut rec, &mut stats, today());
    assert_eq!(r.snapshots.len(), 1);
    assert!(!r.stats_written);
    assert_eq!(stats.today.total_chars, 0);
}

#[test]
fn negative_corrections_count_as_zero() {
    let f = parsed(b"{\"event\":\"transcription_result\",\"text\":\"ab\",\"corrections\":-3}");
    let mut rec = fresh_rec();
    let mut stats = default_usage_stats(today());
    dispatch_event(&f, &mut rec, &mut stats, today());
    assert_eq!(stats.today.corrections, 0);
    assert_eq!(stats.today.total_chars, 2);
}

#[test]
fn fractional_corrections_count_as_zero() {
    let f = parsed(b"{\"event\":\"transcription_result\",\"corrections\":2.5}");
    assert_eq!(f.corrections, None);
}

#[test]
fn oversized_corrections_count_as_zero() {
    let f = parsed(b"{\"event\":\"transcription_result\",\"corrections\":99999999999999999999}");
    assert_eq!(f.corrections, None);
}

#[test]
fn multibyte_text_counts_characters_not_bytes() {
    let line = "{\"event\":\"transcription_result\",\"text\":\"\u{4f60}\u{597d} \u{4e16}\u{754c}\"}";
    let f = parsed(line.as_bytes());
    let mut rec = fresh_rec();
    let mut stats = default_usage_stats(today());
    dispatch_event(&f, &mut rec, &mut stats, today());
    assert_eq!(stats.today.total_chars, 4);
}

#[test]
fn escaped_whitespace_in_text_is_not_counted() {
    let f = parsed(b"{\"event\":\"transcription_result\",\"text\":\"a\\nb\\tc\"}");
    let mut rec = fresh_rec();
    let mut stats = default_usage_stats(today());
    dispatch_event(&f, &mut rec, &mut stats, today());
    assert_eq!(stats.today.total_chars, 3);
}

#[test]
fn unicode_escape_decodes() {
    let f = parsed(b"{\"event\":\"transcription_result\",\"text\":\"\\u0041\\u00e9\"}");
    assert_eq!(f.text.as_deref(), Some("A\u{e9}".as_bytes()));
}

#[test]
fn surrogate_pair_escape_decodes() {
    let f = parsed(b"{\"text\":\"\\ud83d\\ude00\"}");
    assert_eq!(f.text.as_deref(), Some("\u{1f600}".as_bytes()));
}

#[test]
fn lone_surrogate_is_invalid() {
    assert!(matches!(parse_event_line(b"{\"text\":\"\\ud83d\"}"), LineOutcome::Invalid));
}

#[test]
fn blank_lines_are_skipped() {
    assert!(matches!(parse_event_line(b""), LineOutcome::Blank));
    assert!(matches!(parse_event_line(b"   \t \r"), LineOutcome::Blank));
}

#[test]
fn malformed_lines_are_invalid() {
    assert!(matches!(parse_event_line(b"{not json"), LineOutcome::Invalid));
    assert!(matches!(parse_event_line(b"{\"a\":}"), LineOutcome::Invalid));
    assert!(matches!(parse_event_line(b"123abc"), LineOutcome::Invalid));
    assert!(matches!(parse_event_line(b"{\"a\":1} trailing"), LineOutcome::Invalid));
    assert!(matches!(parse_event_line(b"{\"a\":01}"), LineOutcome::Invalid));
}

#[test]
fn non_object_values_pass_through() {
    let f = parsed(b"5");
    assert!(f.name.is_none());
    let f = parsed(b"[1, 2, {\"x\": null}]");
    assert!(f.name.is_none());
    let f = parsed(b"\"hello\"");
    assert!(f.name.is_none());
}

#[test]
fn unrecognized_events_keep_their_name() {
    let f = parsed(b"{\"event\":\"bridge_error\",\"message\":\"boom\"}");
    assert_eq!(f.name.as_deref(), Some(b"bridge_error".as_slice()));
    let mut rec = fresh_rec();
    let mut stats = default_usage_stats(today());
    let r = dispatch_event(&f, &mut rec, &mut stats, today());
    assert!(r.snapshots.is_empty());
    assert!(!rec.is_recording);
}

#[test]
fn later_duplicate_field_wins() {
    let f = parsed(b"{\"event\":\"recording_state\",\"is_recording\":true,\"is_recording\":false}");
    assert_eq!(f.is_recording, Some(false));
    let f = parsed(b"{\"event\":\"recording_state\",\"event\":5}");
    assert_eq!(f.name, None);
}

#[test]
fn nested_values_are_skipped_whole() {
    let f = parsed(b"{\"extra\":{\"deep\":[1,{\"x\":\"y\"},null]},\"event\":\"recording_state\",\"is_recording\":true}");
    assert_eq!(f.is_recording, Some(true));
}

#[test]
fn serde_written_line_parses() {
    let mut m = serde_json::Map::new();
    m.insert("event".to_string(), serde_json::Value::String("recording_state".to_string()));
    m.insert("is_recording".to_string(), serde_json::Value::Bool(true));
    let line = serde_json::to_string(&serde_json::Value::Object(m)).unwrap();
    let f = parsed(line.as_bytes());
    assert_eq!(f.is_recording, Some(true));
    assert_eq!(f.name.as_deref(), Some(b"recording_state".as_slice()));
}
