//! The event dispatcher: what one parsed worker event does to the recording
//! flag and the usage statistics, and what is broadcast afterwards.
//!
//! A `recording_state` event overwrites the flag unconditionally — it is the
//! single source of truth, discarding any optimistic value. A
//! `transcription_result` event accumulates saved time (2.2 times the
//! duration), the non-whitespace characters of the text, and the corrections;
//! a stats snapshot goes out after each accumulation, and once even when
//! nothing changed, to keep the observers' cadence steady. Every parsed
//! event, whatever its name, is additionally forwarded whole to subscribers
//! by the caller.

use vstd::prelude::*;
use crate::controller::RecordingState;
use crate::date::Date;
use crate::events::{EventFields, ev_recording_state, ev_transcription_result};
use crate::json::JsonNum;
use crate::stats::{UsageStats, UsageStatsSnapshot, spec_accumulate_saved_time, spec_accumulate_chars_and_corrections, spec_rollover, spec_snapshot_of, accumulate_saved_time, accumulate_chars_and_corrections, rollover_today_if_needed, snapshot_of};
use crate::text_metrics::{nonws_char_count, count_nonws_chars};

verus! {

/// The flag value a parsed event dictates: a `recording_state` event with a
/// boolean `is_recording` field, and nothing else, sets the flag.
pub open spec fn spec_rec_update(f: EventFields) -> Option<bool> {
    match f.name {
        Some(n) => if n@ == ev_recording_state() {
            f.is_recording
        } else {
            None
        },
        None => None,
    }
}

/// Whether the event is a transcription result.
pub open spec fn spec_is_transcription(f: EventFields) -> bool {
    match f.name {
        Some(n) => n@ == ev_transcription_result(),
        None => false,
    }
}

/// The saved time a duration is worth, in milliseconds: 2.2 times the
/// non-negative duration, rounded down, saturated.
pub open spec fn spec_saved_ms(num: JsonNum) -> u64 {
    if num.neg {
        0
    } else if num.millis * 22 / 10 > u64::MAX {
        u64::MAX
    } else {
        (num.millis * 22 / 10) as u64
    }
}

/// The characters a transcription adds: the non-whitespace character count
/// of its text, none without a text field.
pub open spec fn spec_chars_of(f: EventFields) -> nat {
    match f.text {
        Some(t) => nonws_char_count(t@),
        None => 0,
    }
}

/// The corrections a transcription adds: the field's value with negatives
/// read as zero, none without an integer field.
pub open spec fn spec_corr_of(f: EventFields) -> u64 {
    match f.corrections {
        Some(v) => if v < 0 {
            0
        } else {
            v as u64
        },
        None => 0,
    }
}

/// What dispatching one event leaves for the caller to do.
pub struct DispatchResult {
    /// The stats snapshots to broadcast, in order.
    pub snapshots: Vec<UsageStatsSnapshot>,
    /// Whether the statistics moved and must be persisted.
    pub stats_written: bool,
}

/// 2.2 times `m` milliseconds, rounded down, saturated.
fn saved_ms(m: u64, neg: bool) -> (r: u64)
    ensures
        r == spec_saved_ms(JsonNum { neg, as_i64: None, millis: m }),
{
    if neg {
        return 0;
    }
    let q = m / 10;
    let rem = m % 10;
    let extra = rem * 22 / 10;
    if q <= (u64::MAX - extra) / 22 {
        proof {
            assert(q * 22 + extra == m * 22 / 10) by (nonlinear_arith)
                requires
                    q == m / 10,
                    rem == m % 10,
                    extra == rem * 22 / 10,
                    m == q * 10 + rem,
                    rem < 10,
            ;
            assert(q * 22 + extra <= u64::MAX);
        }
        q * 22 + extra
    } else {
        proof {
            assert(m * 22 / 10 > u64::MAX) by (nonlinear_arith)
                requires
                    q == m / 10,
                    rem == m % 10,
                    extra == rem * 22 / 10,
                    m == q * 10 + rem,
                    rem < 10,
                    q > (u64::MAX - extra) / 22,
            ;
        }
        u64::MAX
    }
}

/// Apply one parsed event to the recording flag and the statistics.
///
/// The returned snapshots are broadcast in order; the caller forwards the
/// event itself to subscribers afterwards, whatever its name, and persists
/// the statistics when they moved. The statistics' read-modify-write runs
/// under the caller's stats lock, so each call is one atomic accumulation.
pub fn dispatch_event(f: &EventFields, rec: &mut RecordingState, stats: &mut UsageStats, today: Date) -> (r: DispatchResult)
    requires
        today.valid(),
        old(stats).valid(),
    ensures
        ({
            let upd = spec_rec_update(*f);
            let is_tr = spec_is_transcription(*f);
            let has_time = is_tr && f.duration is Some;
            let inc = match f.duration {
                Some(num) => spec_saved_ms(num),
                None => 0,
            };
            let chars = spec_chars_of(*f);
            let corr = spec_corr_of(*f);
            let has_cc = is_tr && (chars > 0 || corr > 0);
            let s1 = if has_time {
                spec_accumulate_saved_time(*old(stats), today, inc)
            } else {
                *old(stats)
            };
            let s2 = if has_cc {
                spec_accumulate_chars_and_corrections(s1, today, chars as u64, corr)
            } else {
                s1
            };
            let s3 = if is_tr && !has_time && !has_cc {
                spec_rollover(s2, today)
            } else {
                s2
            };
            &&& final(rec).is_recording == (match upd {
                Some(b) => b,
                None => old(rec).is_recording,
            })
            &&& final(rec).hotkey_down == old(rec).hotkey_down
            &&& final(rec).last_toggle_ms == old(rec).last_toggle_ms
            &&& *final(stats) == s3
            &&& final(stats).valid()
            &&& r.snapshots@ == (if has_time && has_cc {
                seq![spec_snapshot_of(s1), spec_snapshot_of(s2)]
            } else if has_time || has_cc {
                seq![spec_snapshot_of(s2)]
            } else if is_tr {
                seq![spec_snapshot_of(s3)]
            } else {
                Seq::<UsageStatsSnapshot>::empty()
            })
            &&& r.stats_written == (has_time || has_cc || (is_tr && old(stats).today.date
                != today))
        }),
{
    let mut snapshots: Vec<UsageStatsSnapshot> = Vec::new();
    let mut stats_written = false;
    let rec_state_name: [u8; 15] = [0x72, 0x65, 0x63, 0x6f, 0x72, 0x64, 0x69, 0x6e, 0x67, 0x5f,
        0x73, 0x74, 0x61, 0x74, 0x65];
    let transcription_name: [u8; 20] = [0x74, 0x72, 0x61, 0x6e, 0x73, 0x63, 0x72, 0x69, 0x70,
        0x74, 0x69, 0x6f, 0x6e, 0x5f, 0x72, 0x65, 0x73, 0x75, 0x6c, 0x74];
    proof {
        assert(rec_state_name@ =~= ev_recording_state());
        assert(transcription_name@ =~= ev_transcription_result());
    }
    let is_rec_state: bool;
    let is_tr: bool;
    match &f.name {
        Some(n) => {
            is_rec_state = crate::events::bytes_eq(n.as_slice(), rec_state_name.as_slice());
            is_tr = crate::events::bytes_eq(n.as_slice(), transcription_name.as_slice());
        },
        None => {
            is_rec_state = false;
            is_tr = false;
        },
    }
    if is_rec_state {
        match f.is_recording {
            Some(b) => {
                rec.is_recording = b;
            },
            None => {},
        }
    }
    if is_tr {
        let mut changed = false;
        match f.duration {
            Some(num) => {
                let inc = saved_ms(num.millis, num.neg);
                proof {
                    assert(JsonNum { neg: num.neg, as_i64: None, millis: num.millis }.neg
                        == num.neg);
                }
                accumulate_saved_time(stats, today, inc);
                snapshots.push(snapshot_of(stats));
                changed = true;
                stats_written = true;
            },
            None => {},
        }
        let chars: u64 = match &f.text {
            Some(t) => count_nonws_chars(t.as_slice()),
            None => 0,
        };
        let corr: u64 = match f.corrections {
            Some(v) => if v < 0 {
                0
            } else {
                v as u64
            },
            None => 0,
        };
        if chars > 0 || corr > 0 {
            accumulate_chars_and_corrections(stats, today, chars, corr);
            snapshots.push(snapshot_of(stats));
            changed = true;
            stats_written = true;
        }
        if !changed {
            let rolled = rollover_today_if_needed(stats, today);
            if rolled {
                stats_written = true;
            }
            snapshots.push(snapshot_of(stats));
        }
    }
    DispatchResult { snapshots, stats_written }
}

/// The recording flag after a stream of parsed events, starting from `r0`.
pub open spec fn spec_rec_after(r0: bool, evs: Seq<EventFields>) -> bool
    decreases evs.len(),
{
    if evs.len() == 0 {
        r0
    } else {
        spec_rec_after(
            match spec_rec_update(evs[0]) {
                Some(b) => b,
                None => r0,
            },
            evs.subrange(1, evs.len() as int),
        )
    }
}

/// For any stream of worker events, the last `recording_state` event
/// received determines the recording flag exactly, whatever the flag held
/// before — a prior optimistic update included.
pub proof fn lemma_last_recording_state_wins(r0: bool, evs: Seq<EventFields>, k: int, b: bool)
    requires
        0 <= k < evs.len(),
        spec_rec_update(evs[k]) == Some(b),
        forall|j: int| k < j < evs.len() ==> spec_rec_update(#[trigger] evs[j]) is None,
    ensures
        spec_rec_after(r0, evs) == b,
    decreases evs.len(),
{
    let rest = evs.subrange(1, evs.len() as int);
    if k == 0 {
        assert forall|j: int| 0 <= j < rest.len() implies spec_rec_update(
            #[trigger] rest[j],
        ) is None by {
            assert(rest[j] == evs[j + 1]);
        }
        lemma_rec_after_all_none(b, rest);
    } else {
        assert(rest[k - 1] == evs[k]);
        assert forall|j: int| k - 1 < j < rest.len() implies spec_rec_update(
            #[trigger] rest[j],
        ) is None by {
            assert(rest[j] == evs[j + 1]);
        }
        lemma_last_recording_state_wins(
            match spec_rec_update(evs[0]) {
                Some(v) => v,
                None => r0,
            },
            rest,
            k - 1,
            b,
        );
    }
}

/// A stream without a `recording_state` event leaves the flag alone.
pub proof fn lemma_rec_after_all_none(r0: bool, evs: Seq<EventFields>)
    requires
        forall|j: int| 0 <= j < evs.len() ==> spec_rec_update(#[trigger] evs[j]) is None,
    ensures
        spec_rec_after(r0, evs) == r0,
    decreases evs.len(),
{
    if evs.len() > 0 {
        let rest = evs.subrange(1, evs.len() as int);
        assert forall|j: int| 0 <= j < rest.len() implies spec_rec_update(
            #[trigger] rest[j],
        ) is None by {
            assert(rest[j] == evs[j + 1]);
        }
        lemma_rec_after_all_none(r0, rest);
    }
}

} // verus!
