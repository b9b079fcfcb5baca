//! The worker lifecycle state machine.
//!
//! The supervisor keeps exactly one worker alive: it spawns, watches for
//! exit, backs off after a failure, and stops for good only on an external
//! stop request. The decisions live here as one step function from state and
//! event to the next state and the actions to perform; the loop around it —
//! spawning, blocking on exit, sleeping — stays outside the library.

use vstd::prelude::*;

verus! {

/// The fixed upper bound on the backoff delay, in seconds.
pub const MAX_BACKOFF_SECS: u64 = 30;

/// Where the supervisor stands in the worker's lifecycle.
#[derive(Clone, Copy, Debug, PartialEq, Eq, Structural)]
pub enum SupervisorPhase {
    /// A spawn attempt is in flight.
    Starting,
    /// The worker is alive and its streams are being drained.
    Running,
    /// The worker just exited; its aftermath has been announced.
    Exited,
    /// Waiting out the delay before the next spawn attempt.
    BackingOff,
    /// The loop has ended; no further respawn.
    Stopped,
}

/// The supervisor's whole state.
#[derive(Clone, Copy, Debug, PartialEq, Eq, Structural)]
pub struct SupervisorState {
    pub phase: SupervisorPhase,
    /// How many times `Starting` has been entered; never reset while the
    /// loop runs.
    pub attempts: u64,
    /// The external "keep restarting" flag; cleared once by a stop request.
    pub keep_running: bool,
    /// Whether the worker's command stream is currently bound.
    pub channel_alive: bool,
}

/// What the loop outside observed.
#[derive(Clone, Copy, Debug, PartialEq, Eq, Structural)]
pub enum SupervisorEvent {
    /// The spawn attempt produced a live worker.
    SpawnOk,
    /// The spawn attempt failed (executable missing, OS refusal).
    SpawnFailed,
    /// The worker's event stream ended and the process was reaped.
    WorkerExited,
    /// The exit aftermath has been delivered; decide what comes next.
    ExitHandled,
    /// The backoff delay has elapsed.
    BackoffElapsed,
    /// An external stop was requested.
    StopRequested,
}

/// What the loop outside must do after a step, in order.
#[derive(Clone, Copy, Debug, PartialEq, Eq, Structural)]
pub enum SupervisorAction {
    /// Hand the new worker's command stream to the channel.
    BindChannel,
    /// Drop the dead worker's command stream from the channel.
    ClearChannel,
    /// Force the recording flag to `false`.
    ForceRecordingOff,
    /// Announce `bridge_shutdown` with reason `process_exit` to subscribers.
    EmitBridgeShutdown,
    /// Announce `bridge_error` with the spawn failure to subscribers.
    EmitBridgeError,
    /// Attempt to spawn the worker.
    SpawnWorker,
    /// Sleep for this many seconds.
    Delay { secs: u64 },
    /// Write a `shutdown` command and allow the worker a short grace period.
    SendShutdown,
}

/// The state the supervisor starts in: about to make its first attempt.
pub open spec fn spec_initial_state() -> SupervisorState {
    SupervisorState {
        phase: SupervisorPhase::Starting,
        attempts: 1,
        keep_running: true,
        channel_alive: false,
    }
}

/// The state the supervisor starts in.
pub fn initial_state() -> (r: SupervisorState)
    ensures
        r == spec_initial_state(),
        r.wf(),
{
    SupervisorState {
        phase: SupervisorPhase::Starting,
        attempts: 1,
        keep_running: true,
        channel_alive: false,
    }
}

impl SupervisorState {
    /// The channel invariant: the command stream is bound exactly while the
    /// worker is alive.
    pub open spec fn wf(self) -> bool {
        self.channel_alive <==> self.phase is Running
    }
}

/// The backoff delay after `attempts` entries into `Starting`: twice the
/// attempt count, capped at thirty seconds.
pub open spec fn spec_backoff_delay_secs(attempts: u64) -> u64 {
    if 2 * attempts < 30 {
        (2 * attempts) as u64
    } else {
        30u64
    }
}

/// Seconds to wait before the next spawn attempt.
pub fn backoff_delay_secs(attempts: u64) -> (r: u64)
    ensures
        r == spec_backoff_delay_secs(attempts),
{
    if attempts < 15 {
        2 * attempts
    } else {
        30
    }
}

/// What one step of the supervisor does: the next state and the actions the
/// loop must perform, in order.
pub open spec fn spec_step(st: SupervisorState, ev: SupervisorEvent) -> (SupervisorState, Seq<
    SupervisorAction,
>) {
    match ev {
        SupervisorEvent::SpawnOk => if st.phase is Starting {
            (
                SupervisorState { phase: SupervisorPhase::Running, channel_alive: true, ..st },
                seq![SupervisorAction::BindChannel],
            )
        } else {
            (st, Seq::empty())
        },
        SupervisorEvent::SpawnFailed => if st.phase is Starting {
            (
                SupervisorState { phase: SupervisorPhase::BackingOff, ..st },
                seq![
                    SupervisorAction::EmitBridgeError,
                    SupervisorAction::Delay { secs: spec_backoff_delay_secs(st.attempts) },
                ],
            )
        } else {
            (st, Seq::empty())
        },
        SupervisorEvent::WorkerExited => if st.phase is Running {
            (
                SupervisorState { phase: SupervisorPhase::Exited, channel_alive: false, ..st },
                seq![
                    SupervisorAction::ClearChannel,
                    SupervisorAction::ForceRecordingOff,
                    SupervisorAction::EmitBridgeShutdown,
                ],
            )
        } else {
            (st, Seq::empty())
        },
        SupervisorEvent::ExitHandled => if st.phase is Exited {
            if st.keep_running {
                (
                    SupervisorState { phase: SupervisorPhase::BackingOff, ..st },
                    seq![SupervisorAction::Delay { secs: spec_backoff_delay_secs(st.attempts) }],
                )
            } else {
                (SupervisorState { phase: SupervisorPhase::Stopped, ..st }, Seq::empty())
            }
        } else {
            (st, Seq::empty())
        },
        SupervisorEvent::BackoffElapsed => if st.phase is BackingOff {
            if st.keep_running {
                (
                    SupervisorState {
                        phase: SupervisorPhase::Starting,
                        attempts: if st.attempts < u64::MAX {
                            (st.attempts + 1) as u64
                        } else {
                            u64::MAX
                        },
                        ..st
                    },
                    seq![SupervisorAction::SpawnWorker],
                )
            } else {
                (SupervisorState { phase: SupervisorPhase::Stopped, ..st }, Seq::empty())
            }
        } else {
            (st, Seq::empty())
        },
        SupervisorEvent::StopRequested => (
            SupervisorState { keep_running: false, ..st },
            if st.channel_alive {
                seq![SupervisorAction::SendShutdown]
            } else {
                Seq::empty()
            },
        ),
    }
}

/// Drive the supervisor one step. The returned actions are to be performed
/// in order before the next event is delivered.
pub fn supervisor_step(st: &mut SupervisorState, ev: SupervisorEvent) -> (actions: Vec<
    SupervisorAction,
>)
    requires
        old(st).wf(),
    ensures
        *final(st) == spec_step(*old(st), ev).0,
        actions@ == spec_step(*old(st), ev).1,
        final(st).wf(),
        final(st).keep_running ==> old(st).keep_running,
{
    let mut actions: Vec<SupervisorAction> = Vec::new();
    match ev {
        SupervisorEvent::SpawnOk => {
            if matches!(st.phase, SupervisorPhase::Starting) {
                st.phase = SupervisorPhase::Running;
                st.channel_alive = true;
                actions.push(SupervisorAction::BindChannel);
            }
        },
        SupervisorEvent::SpawnFailed => {
            if matches!(st.phase, SupervisorPhase::Starting) {
                st.phase = SupervisorPhase::BackingOff;
                actions.push(SupervisorAction::EmitBridgeError);
                actions.push(
                    SupervisorAction::Delay { secs: backoff_delay_secs(st.attempts) },
                );
            }
        },
        SupervisorEvent::WorkerExited => {
            if matches!(st.phase, SupervisorPhase::Running) {
                st.phase = SupervisorPhase::Exited;
                st.channel_alive = false;
                actions.push(SupervisorAction::ClearChannel);
                actions.push(SupervisorAction::ForceRecordingOff);
                actions.push(SupervisorAction::EmitBridgeShutdown);
            }
        },
        SupervisorEvent::ExitHandled => {
            if matches!(st.phase, SupervisorPhase::Exited) {
                if st.keep_running {
                    st.phase = SupervisorPhase::BackingOff;
                    actions.push(
                        SupervisorAction::Delay { secs: backoff_delay_secs(st.attempts) },
                    );
                } else {
                    st.phase = SupervisorPhase::Stopped;
                }
            }
        },
        SupervisorEvent::BackoffElapsed => {
            if matches!(st.phase, SupervisorPhase::BackingOff) {
                if st.keep_running {
                    st.phase = SupervisorPhase::Starting;
                    if st.attempts < u64::MAX {
                        st.attempts = st.attempts + 1;
                    }
                    actions.push(SupervisorAction::SpawnWorker);
                } else {
                    st.phase = SupervisorPhase::Stopped;
                }
            }
        },
        SupervisorEvent::StopRequested => {
            let was_alive = st.channel_alive;
            st.keep_running = false;
            if was_alive {
                actions.push(SupervisorAction::SendShutdown);
            }
        },
    }
    proof {
        assert(actions@ =~= spec_step(*old(st), ev).1);
    }
    actions
}

/// The state after `n` whole failure cycles (a failed spawn followed by the
/// elapsed backoff), starting from the initial state.
pub open spec fn spec_after_failure_cycles(n: nat) -> SupervisorState
    decreases n,
{
    if n == 0 {
        spec_initial_state()
    } else {
        spec_step(
            spec_step(spec_after_failure_cycles((n - 1) as nat), SupervisorEvent::SpawnFailed).0,
            SupervisorEvent::BackoffElapsed,
        ).0
    }
}

/// After `n` whole failure cycles the attempt counter stands at `n + 1`, and
/// the machine is about to try again.
pub proof fn lemma_attempts_after_failures(n: nat)
    requires
        n + 1 <= u64::MAX,
    ensures
        spec_after_failure_cycles(n).attempts == n + 1,
        spec_after_failure_cycles(n).phase is Starting,
        spec_after_failure_cycles(n).keep_running,
    decreases n,
{
    if n > 0 {
        lemma_attempts_after_failures((n - 1) as nat);
    }
}

/// The `N`th consecutive spawn failure is answered with a backoff delay of
/// exactly `min(30, 2 * N)` seconds.
pub proof fn lemma_nth_backoff_delay(n: nat)
    requires
        1 <= n <= u64::MAX,
    ensures
        spec_step(spec_after_failure_cycles((n - 1) as nat), SupervisorEvent::SpawnFailed).1
            == seq![
            SupervisorAction::EmitBridgeError,
            SupervisorAction::Delay {
                secs: if 2 * n < 30 {
                    (2 * n) as u64
                } else {
                    30u64
                },
            },
        ],
{
    lemma_attempts_after_failures((n - 1) as nat);
}

/// An unexpected worker exit clears the channel, forces the recording flag
/// off and announces `bridge_shutdown` — and spawns nothing: the next spawn
/// can only come from a later backoff step.
pub proof fn lemma_exit_aftermath(st: SupervisorState)
    requires
        st.wf(),
        st.phase is Running,
    ensures
        spec_step(st, SupervisorEvent::WorkerExited).0.phase is Exited,
        !spec_step(st, SupervisorEvent::WorkerExited).0.channel_alive,
        spec_step(st, SupervisorEvent::WorkerExited).1 == seq![
            SupervisorAction::ClearChannel,
            SupervisorAction::ForceRecordingOff,
            SupervisorAction::EmitBridgeShutdown,
        ],
        forall|k: int|
            0 <= k < spec_step(st, SupervisorEvent::WorkerExited).1.len() ==> spec_step(
                st,
                SupervisorEvent::WorkerExited,
            ).1[k] != SupervisorAction::SpawnWorker,
{
    let acts = spec_step(st, SupervisorEvent::WorkerExited).1;
    assert(acts == seq![
        SupervisorAction::ClearChannel,
        SupervisorAction::ForceRecordingOff,
        SupervisorAction::EmitBridgeShutdown,
    ]);
    assert forall|k: int| 0 <= k < acts.len() implies acts[k]
        != SupervisorAction::SpawnWorker by {
        assert(acts.len() == 3);
    }
}

} // verus!
