//! The recording-state controller: the recording flag, the hotkey edge
//! detector with its debounce, and the explicit toggle path.
//!
//! A hotkey press is actionable only on the transition from released to
//! pressed; a press within the debounce window of the previous press attempt
//! is suppressed but still restarts the window. The worker's answering
//! `recording_state` event is the single source of truth for the flag: the
//! hotkey path never guesses, while the explicit toggle path flips the flag
//! optimistically ahead of the corrective event.

use vstd::prelude::*;
use crate::wire::{Command, SendError};

verus! {

/// Presses closer together than this many milliseconds are debounced.
pub const DEBOUNCE_MS: u64 = 200;

/// The shared recording state.
#[derive(Clone, Copy, Debug, PartialEq, Eq, Structural)]
pub struct RecordingState {
    /// Whether the worker is recording, as last corrected by a worker event
    /// (or optimistically flipped by the explicit toggle path).
    pub is_recording: bool,
    /// Whether the hotkey is currently held down.
    pub hotkey_down: bool,
    /// When the most recent press attempt happened, successful or debounced.
    pub last_toggle_ms: Option<u64>,
}

/// What a press of the hotkey led to.
#[derive(Clone, Copy, Debug, PartialEq, Eq, Structural)]
pub enum PressOutcome {
    /// The key was already down: not an edge, nothing happens.
    IgnoredHeld,
    /// Within the debounce window of the previous attempt: suppressed.
    Debounced,
    /// A command was handed to the channel.
    Sent { cmd: Command },
    /// No worker is alive; the key is released logically so the next press
    /// is not blocked.
    Unavailable,
}

/// The state a fresh controller starts in: not recording, key up, no press
/// seen yet.
pub fn initial_recording_state() -> (r: RecordingState)
    ensures
        r == (RecordingState { is_recording: false, hotkey_down: false, last_toggle_ms: None }),
{
    RecordingState { is_recording: false, hotkey_down: false, last_toggle_ms: None }
}

/// Whether a press at `now_ms` falls inside the debounce window of the
/// previous attempt.
pub open spec fn spec_debounced(st: RecordingState, now_ms: u64) -> bool {
    match st.last_toggle_ms {
        Some(prev) => now_ms - prev < DEBOUNCE_MS,
        None => false,
    }
}

/// What a press does to the state, and what it yields.
pub open spec fn spec_press(st: RecordingState, now_ms: u64, channel_alive: bool) -> (
    RecordingState,
    PressOutcome,
) {
    if st.hotkey_down {
        (st, PressOutcome::IgnoredHeld)
    } else if spec_debounced(st, now_ms) {
        (
            RecordingState { hotkey_down: false, last_toggle_ms: Some(now_ms), ..st },
            PressOutcome::Debounced,
        )
    } else if channel_alive {
        (
            RecordingState { hotkey_down: true, last_toggle_ms: Some(now_ms), ..st },
            PressOutcome::Sent {
                cmd: if st.is_recording {
                    Command::Stop
                } else {
                    Command::Start
                },
            },
        )
    } else {
        (
            RecordingState { hotkey_down: false, last_toggle_ms: Some(now_ms), ..st },
            PressOutcome::Unavailable,
        )
    }
}

/// Handle a physical press of the recording hotkey at `now_ms`.
///
/// Only a released-to-pressed edge is actionable; an actionable press inside
/// the debounce window is suppressed but still restarts the window; an
/// actionable, non-suppressed press asks the worker to stop if the flag says
/// recording and to start otherwise. The flag itself is never touched here:
/// the worker's event corrects it.
pub fn handle_hotkey_press(st: &mut RecordingState, now_ms: u64, channel_alive: bool) -> (r:
    PressOutcome)
    requires
        match old(st).last_toggle_ms {
            Some(prev) => prev <= now_ms,
            None => true,
        },
    ensures
        *final(st) == spec_press(*old(st), now_ms, channel_alive).0,
        r == spec_press(*old(st), now_ms, channel_alive).1,
        final(st).is_recording == old(st).is_recording,
{
    if st.hotkey_down {
        return PressOutcome::IgnoredHeld;
    }
    let debounced = match st.last_toggle_ms {
        Some(prev) => now_ms - prev < DEBOUNCE_MS,
        None => false,
    };
    st.last_toggle_ms = Some(now_ms);
    if debounced {
        st.hotkey_down = false;
        return PressOutcome::Debounced;
    }
    if channel_alive {
        st.hotkey_down = true;
        let cmd = if st.is_recording {
            Command::Stop
        } else {
            Command::Start
        };
        PressOutcome::Sent { cmd }
    } else {
        st.hotkey_down = false;
        PressOutcome::Unavailable
    }
}

/// Handle the release of the recording hotkey: the key is up again, whatever
/// else happened.
pub fn handle_hotkey_release(st: &mut RecordingState)
    ensures
        *final(st) == (RecordingState { hotkey_down: false, ..*old(st) }),
{
    st.hotkey_down = false;
}

/// The explicit toggle path: read the authoritative flag and pick the
/// command asking the worker for the opposite. The flag itself does not move
/// here: the caller writes the command out and, only when the write and
/// flush succeeded, applies the optimistic flip with `confirm_toggle_sent` —
/// the worker's `recording_state` event remains the final word. With no
/// worker alive the caller gets the error.
pub fn toggle_recording(st: &mut RecordingState, channel_alive: bool) -> (r: Result<
    Command,
    SendError,
>)
    ensures
        *final(st) == *old(st),
        channel_alive ==> r == Ok::<Command, SendError>(
            if old(st).is_recording {
                Command::Stop
            } else {
                Command::Start
            },
        ),
        !channel_alive ==> r == Err::<Command, SendError>(SendError::ChannelUnavailable),
{
    if channel_alive {
        if st.is_recording {
            Ok(Command::Stop)
        } else {
            Ok(Command::Start)
        }
    } else {
        Err(SendError::ChannelUnavailable)
    }
}

/// The optimistic flip after a toggle command was written and flushed
/// successfully: the flag takes the state the command asked for, ahead of
/// the corrective event. A failed write never reaches this point, so the
/// flag keeps its prior value there.
pub fn confirm_toggle_sent(st: &mut RecordingState, cmd: Command)
    ensures
        *final(st) == (RecordingState { is_recording: cmd is Start, ..*old(st) }),
{
    st.is_recording = matches!(cmd, Command::Start);
}

/// Overwrite the recording flag with what the worker reported: the single
/// source of truth, discarding any optimistic value.
pub fn apply_recording_state(st: &mut RecordingState, flag: bool)
    ensures
        *final(st) == (RecordingState { is_recording: flag, ..*old(st) }),
{
    st.is_recording = flag;
}

/// The recording flag as the command paths read it.
pub fn get_recording_state(st: &RecordingState) -> (r: bool)
    ensures
        r == st.is_recording,
{
    st.is_recording
}

/// Two presses less than the debounce window apart yield at most one
/// command, and a third press at least the window after the second yields
/// exactly one more — whatever came before the first press.
pub proof fn lemma_debounce_presses(s0: RecordingState, t1: u64, t2: u64, t3: u64)
    requires
        !s0.hotkey_down,
        match s0.last_toggle_ms {
            Some(prev) => prev <= t1,
            None => true,
        },
        t1 <= t2,
        t2 - t1 < DEBOUNCE_MS,
        t3 >= t2 + DEBOUNCE_MS,
    ensures
        ({
            let (s1, r1) = spec_press(s0, t1, true);
            let s1r = RecordingState { hotkey_down: false, ..s1 };
            let (s2, r2) = spec_press(s1r, t2, true);
            let s2r = RecordingState { hotkey_down: false, ..s2 };
            let (s3, r3) = spec_press(s2r, t3, true);
            &&& !((r1 is Sent) && (r2 is Sent))
            &&& r2 is Debounced
            &&& r3 is Sent
        }),
{
}

} // verus!
