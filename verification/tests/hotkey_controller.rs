use speak_bridge::controller::{
    apply_recording_state, confirm_toggle_sent, get_recording_state, handle_hotkey_press,
    handle_hotkey_release, initial_recording_state, toggle_recording, PressOutcome,
};
use speak_bridge::date::Date;
use speak_bridge::dispatcher::dispatch_event;
use speak_bridge::events::{parse_event_line, LineOutcome};
use speak_bridge::stats::default_usage_stats;
use speak_bridge::wire::{Command, SendError};

fn today() -> Date {
    Date { year: 2026, month: 10, day: 12 }
}

#[test]
fn rapid_presses_yield_at_most_one_command() {
    let mut st = initial_recording_state();
    let r1 = handle_hotkey_press(&mut st, 1_000, true);
    assert!(matches!(r1, PressOutcome::Sent { cmd: Command::Start }));
    handle_hotkey_release(&mut st);
    let r2 = handle_hotkey_press(&mut st, 1_100, true);
    assert!(matches!(r2, PressOutcome::Debounced));
    handle_hotkey_release(&mut st);
    let r3 = handle_hotkey_press(&mut st, 1_300, true);
    assert!(matches!(r3, PressOutcome::Sent { cmd: Command::Start }));
}

#[test]
fn debounce_counts_from_the_last_attempt_not_the_last_send() {
    let mut st = initial_recording_state();
    assert!(matches!(handle_hotkey_press(&mut st, 0, true), PressOutcome::Sent { .. }));
    handle_hotkey_release(&mut st);
    // Each attempt lands inside the window of the one before, so every one
    // of them is suppressed even though the last is 450 ms after the send.
    for t in [150u64, 300, 450] {
        assert!(matches!(handle_hotkey_press(&mut st, t, true), PressOutcome::Debounced));
        handle_hotkey_release(&mut st);
    }
}

#[test]
fn a_held_key_does_not_retrigger() {
    let mut st = initial_recording_state();
    assert!(matches!(handle_hotkey_press(&mut st, 0, true), PressOutcome::Sent { .. }));
    assert!(st.hotkey_down);
    assert!(matches!(handle_hotkey_press(&mut st, 500, true), PressOutcome::IgnoredHeld));
    handle_hotkey_release(&mut st);
    assert!(!st.hotkey_down);
    assert!(matches!(handle_hotkey_press(&mut st, 1_000, true), PressOutcome::Sent { .. }));
}

#[test]
fn a_press_with_no_worker_clears_the_latch() {
    let mut st = initial_recording_state();
    let r = handle_hotkey_press(&mut st, 1_000, false);
    assert!(matches!(r, PressOutcome::Unavailable));
    assert!(!st.hotkey_down);
    let r = handle_hotkey_press(&mut st, 2_000, true);
    assert!(matches!(r, PressOutcome::Sent { .. }));
}

#[test]
fn the_press_asks_for_the_opposite_of_the_flag() {
    let mut st = initial_recording_state();
    apply_recording_state(&mut st, true);
    let r = handle_hotkey_press(&mut st, 1_000, true);
    assert!(matches!(r, PressOutcome::Sent { cmd: Command::Stop }));
    assert!(st.is_recording, "the hotkey path never guesses the flag");
}

#[test]
fn toggle_flips_optimistically_after_a_successful_send() {
    let mut st = initial_recording_state();
    let cmd = toggle_recording(&mut st, true).unwrap();
    assert_eq!(cmd, Command::Start);
    // The flag moves only once the write succeeded.
    assert!(!get_recording_state(&st));
    confirm_toggle_sent(&mut st, cmd);
    assert!(get_recording_state(&st));
    let cmd = toggle_recording(&mut st, true).unwrap();
    assert_eq!(cmd, Command::Stop);
    confirm_toggle_sent(&mut st, cmd);
    assert!(!get_recording_state(&st));
}

#[test]
fn a_failed_toggle_write_leaves_the_flag_alone() {
    let mut st = initial_recording_state();
    let cmd = toggle_recording(&mut st, true).unwrap();
    assert_eq!(cmd, Command::Start);
    // The write failed: no confirmation, no flip.
    assert!(!get_recording_state(&st));
}

#[test]
fn toggle_without_a_worker_fails_and_changes_nothing() {
    let mut st = initial_recording_state();
    assert_eq!(toggle_recording(&mut st, false), Err(SendError::ChannelUnavailable));
    assert!(!st.is_recording);
}

#[test]
fn the_last_recording_state_event_overrides_optimism() {
    let mut rec = initial_recording_state();
    let mut stats = default_usage_stats(today());
    // An optimistic toggle guesses "recording" once its send went through.
    let cmd = toggle_recording(&mut rec, true).unwrap();
    confirm_toggle_sent(&mut rec, cmd);
    assert!(rec.is_recording);
    // The worker's corrective events decide, the last one exactly.
    for (line, expect) in [
        (&b"{\"event\":\"recording_state\",\"is_recording\":false}"[..], false),
        (&b"{\"event\":\"transcription_result\",\"duration\":1.0}"[..], false),
        (&b"{\"event\":\"recording_state\",\"is_recording\":true}"[..], true),
    ] {
        match parse_event_line(line) {
            LineOutcome::Parsed(f) => {
                dispatch_event(&f, &mut rec, &mut stats, today());
            },
            other => panic!("unexpected outcome {:?}", other),
        }
        assert_eq!(rec.is_recording, expect);
    }
}
