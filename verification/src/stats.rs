//! Durable usage counters with daily rollover.
//!
//! Time saved is counted in milliseconds, characters and corrections as plain
//! counts. The lifetime totals only ever grow; the `today` block is zeroed
//! whenever the stored date is no longer the current one. The read-modify-
//! write cycle around the stats file runs under one lock outside the library,
//! so the functions here see each accumulation as one atomic step.

use vstd::prelude::*;
use crate::date::Date;

verus! {

/// Lifetime counters.
#[derive(Clone, Copy, Debug, PartialEq, Eq, Structural)]
pub struct UsageTotals {
    pub time_saved_ms: u64,
    pub total_chars: u64,
    pub corrections: u64,
}

/// Counters for the current calendar date.
#[derive(Clone, Copy, Debug, PartialEq, Eq, Structural)]
pub struct UsageToday {
    pub date: Date,
    pub time_saved_ms: u64,
    pub total_chars: u64,
    pub corrections: u64,
}

/// The persisted usage-statistics structure.
#[derive(Clone, Copy, Debug, PartialEq, Eq, Structural)]
pub struct UsageStats {
    pub totals: UsageTotals,
    pub today: UsageToday,
}

/// The six aggregate counters handed to subscribers after an accumulation.
#[derive(Clone, Copy, Debug, PartialEq, Eq, Structural)]
pub struct UsageStatsSnapshot {
    pub today_ms: u64,
    pub total_ms: u64,
    pub today_chars: u64,
    pub total_chars: u64,
    pub today_corrections: u64,
    pub total_corrections: u64,
}

impl UsageStats {
    /// The stored date is a plausible calendar date.
    pub open spec fn valid(self) -> bool {
        self.today.date.valid()
    }
}

/// `a + b`, stopping at the largest representable count instead of wrapping.
pub fn saturating_add_u64(a: u64, b: u64) -> (r: u64)
    ensures
        r == spec_sat_add(a, b),
{
    if a > u64::MAX - b {
        u64::MAX
    } else {
        a + b
    }
}

/// What a saturating addition of counters yields.
pub open spec fn spec_sat_add(a: u64, b: u64) -> u64 {
    if a + b > u64::MAX {
        u64::MAX
    } else {
        (a + b) as u64
    }
}

/// The all-zero statistics dated `today`: what a missing or unreadable stats
/// file stands for.
pub fn default_usage_stats(today: Date) -> (r: UsageStats)
    requires
        today.valid(),
    ensures
        r == spec_default_usage_stats(today),
        r.valid(),
{
    UsageStats {
        totals: UsageTotals { time_saved_ms: 0, total_chars: 0, corrections: 0 },
        today: UsageToday { date: today, time_saved_ms: 0, total_chars: 0, corrections: 0 },
    }
}

/// The all-zero statistics dated `today`.
pub open spec fn spec_default_usage_stats(today: Date) -> UsageStats {
    UsageStats {
        totals: UsageTotals { time_saved_ms: 0, total_chars: 0, corrections: 0 },
        today: UsageToday { date: today, time_saved_ms: 0, total_chars: 0, corrections: 0 },
    }
}

/// If the stored date is no longer `today`, zero the `today` counters and
/// restamp them with `today`; the lifetime totals are untouched either way.
/// Returns whether anything changed.
pub fn rollover_today_if_needed(stats: &mut UsageStats, today: Date) -> (changed: bool)
    requires
        today.valid(),
    ensures
        changed == (old(stats).today.date != today),
        final(stats).totals == old(stats).totals,
        final(stats).today.date == today,
        changed ==> final(stats).today == (UsageToday {
            date: today,
            time_saved_ms: 0,
            total_chars: 0,
            corrections: 0,
        }),
        !changed ==> *final(stats) == *old(stats),
        final(stats).valid(),
{
    if stats.today.date != today {
        stats.today.date = today;
        stats.today.time_saved_ms = 0;
        stats.today.total_chars = 0;
        stats.today.corrections = 0;
        true
    } else {
        false
    }
}

/// Add saved time to the rolled-over statistics: both the `today` and the
/// lifetime counter grow by `inc_ms`, saturating; nothing else moves.
pub fn accumulate_saved_time(stats: &mut UsageStats, today: Date, inc_ms: u64)
    requires
        today.valid(),
    ensures
        *final(stats) == spec_accumulate_saved_time(*old(stats), today, inc_ms),
        final(stats).totals.time_saved_ms >= old(stats).totals.time_saved_ms,
        final(stats).totals.total_chars == old(stats).totals.total_chars,
        final(stats).totals.corrections == old(stats).totals.corrections,
        final(stats).valid(),
{
    let _changed = rollover_today_if_needed(stats, today);
    stats.today.time_saved_ms = saturating_add_u64(stats.today.time_saved_ms, inc_ms);
    stats.totals.time_saved_ms = saturating_add_u64(stats.totals.time_saved_ms, inc_ms);
}

/// What `accumulate_saved_time` turns the stored statistics into.
pub open spec fn spec_accumulate_saved_time(s: UsageStats, today: Date, inc_ms: u64) -> UsageStats {
    let rolled = spec_rollover(s, today);
    UsageStats {
        totals: UsageTotals {
            time_saved_ms: spec_sat_add(rolled.totals.time_saved_ms, inc_ms),
            ..rolled.totals
        },
        today: UsageToday {
            time_saved_ms: spec_sat_add(rolled.today.time_saved_ms, inc_ms),
            ..rolled.today
        },
    }
}

/// The statistics after the daily rollover against `today`.
pub open spec fn spec_rollover(s: UsageStats, today: Date) -> UsageStats {
    if s.today.date != today {
        UsageStats {
            totals: s.totals,
            today: UsageToday { date: today, time_saved_ms: 0, total_chars: 0, corrections: 0 },
        }
    } else {
        s
    }
}

/// Add transcribed characters and automatic corrections to the rolled-over
/// statistics, saturating, in both the `today` and the lifetime counters.
pub fn accumulate_chars_and_corrections(stats: &mut UsageStats, today: Date, add_chars: u64, add_corrections: u64)
    requires
        today.valid(),
    ensures
        *final(stats) == spec_accumulate_chars_and_corrections(
            *old(stats),
            today,
            add_chars,
            add_corrections,
        ),
        final(stats).totals.total_chars >= old(stats).totals.total_chars,
        final(stats).totals.corrections >= old(stats).totals.corrections,
        final(stats).totals.time_saved_ms == old(stats).totals.time_saved_ms,
        final(stats).valid(),
{
    let _changed = rollover_today_if_needed(stats, today);
    if add_chars > 0 {
        stats.today.total_chars = saturating_add_u64(stats.today.total_chars, add_chars);
        stats.totals.total_chars = saturating_add_u64(stats.totals.total_chars, add_chars);
    }
    if add_corrections > 0 {
        stats.today.corrections = saturating_add_u64(stats.today.corrections, add_corrections);
        stats.totals.corrections = saturating_add_u64(stats.totals.corrections, add_corrections);
    }
}

/// What `accumulate_chars_and_corrections` turns the stored statistics into.
pub open spec fn spec_accumulate_chars_and_corrections(
    s: UsageStats,
    today: Date,
    add_chars: u64,
    add_corrections: u64,
) -> UsageStats {
    let rolled = spec_rollover(s, today);
    UsageStats {
        totals: UsageTotals {
            total_chars: spec_sat_add(rolled.totals.total_chars, add_chars),
            corrections: spec_sat_add(rolled.totals.corrections, add_corrections),
            ..rolled.totals
        },
        today: UsageToday {
            total_chars: spec_sat_add(rolled.today.total_chars, add_chars),
            corrections: spec_sat_add(rolled.today.corrections, add_corrections),
            ..rolled.today
        },
    }
}

/// The six aggregate counters of the given statistics, as broadcast to
/// subscribers.
pub fn snapshot_of(stats: &UsageStats) -> (r: UsageStatsSnapshot)
    ensures
        r == spec_snapshot_of(*stats),
{
    UsageStatsSnapshot {
        today_ms: stats.today.time_saved_ms,
        total_ms: stats.totals.time_saved_ms,
        today_chars: stats.today.total_chars,
        total_chars: stats.totals.total_chars,
        today_corrections: stats.today.corrections,
        total_corrections: stats.totals.corrections,
    }
}

/// The six aggregate counters of the given statistics.
pub open spec fn spec_snapshot_of(s: UsageStats) -> UsageStatsSnapshot {
    UsageStatsSnapshot {
        today_ms: s.today.time_saved_ms,
        total_ms: s.totals.time_saved_ms,
        today_chars: s.today.total_chars,
        total_chars: s.totals.total_chars,
        today_corrections: s.today.corrections,
        total_corrections: s.totals.corrections,
    }
}

/// One accumulation, as the serialized critical section sees it.
#[derive(Clone, Copy, Debug)]
pub enum StatsOp {
    SavedTime { inc_ms: u64 },
    CharsAndCorrections { add_chars: u64, add_corrections: u64 },
}

/// The statistics after one accumulation step.
pub open spec fn spec_apply_op(s: UsageStats, today: Date, op: StatsOp) -> UsageStats {
    match op {
        StatsOp::SavedTime { inc_ms } => spec_accumulate_saved_time(s, today, inc_ms),
        StatsOp::CharsAndCorrections { add_chars, add_corrections } =>
            spec_accumulate_chars_and_corrections(s, today, add_chars, add_corrections),
    }
}

/// The statistics after a whole sequence of accumulation steps, applied in
/// the order the lock admitted them.
pub open spec fn spec_apply_ops(s: UsageStats, today: Date, ops: Seq<StatsOp>) -> UsageStats
    decreases ops.len(),
{
    if ops.len() == 0 {
        s
    } else {
        spec_apply_ops(spec_apply_op(s, today, ops[0]), today, ops.subrange(1, ops.len() as int))
    }
}

/// Whether every lifetime counter of `b` is at least that of `a`.
pub open spec fn totals_le(a: UsageTotals, b: UsageTotals) -> bool {
    a.time_saved_ms <= b.time_saved_ms && a.total_chars <= b.total_chars && a.corrections
        <= b.corrections
}

/// One accumulation step never shrinks a lifetime counter.
pub proof fn lemma_op_totals_monotone(s: UsageStats, today: Date, op: StatsOp)
    ensures
        totals_le(s.totals, spec_apply_op(s, today, op).totals),
{
}

/// No interleaving of accumulations loses an update: across any sequence of
/// steps that the stats lock serialized, every lifetime counter is
/// non-decreasing.
pub proof fn lemma_ops_totals_monotone(s: UsageStats, today: Date, ops: Seq<StatsOp>)
    ensures
        totals_le(s.totals, spec_apply_ops(s, today, ops).totals),
    decreases ops.len(),
{
    if ops.len() > 0 {
        lemma_op_totals_monotone(s, today, ops[0]);
        lemma_ops_totals_monotone(spec_apply_op(s, today, ops[0]), today, ops.subrange(1, ops.len() as int));
    }
}

} // verus!
