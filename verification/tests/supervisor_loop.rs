use speak_bridge::supervisor::{
    backoff_delay_secs, initial_state, supervisor_step, SupervisorAction, SupervisorEvent,
    SupervisorPhase,
};

#[test]
fn backoff_is_twice_the_attempts_capped_at_thirty() {
    assert_eq!(backoff_delay_secs(1), 2);
    assert_eq!(backoff_delay_secs(2), 4);
    assert_eq!(backoff_delay_secs(14), 28);
    assert_eq!(backoff_delay_secs(15), 30);
    assert_eq!(backoff_delay_secs(1_000), 30);
    assert_eq!(backoff_delay_secs(u64::MAX), 30);
}

#[test]
fn nth_consecutive_failure_backs_off_min_thirty_two_n() {
    let mut st = initial_state();
    for n in 1u64..=40 {
        assert!(matches!(st.phase, SupervisorPhase::Starting));
        let actions = supervisor_step(&mut st, SupervisorEvent::SpawnFailed);
        let expected = if 2 * n < 30 { 2 * n } else { 30 };
        assert_eq!(
            actions,
            vec![
                SupervisorAction::EmitBridgeError,
                SupervisorAction::Delay { secs: expected },
            ],
        );
        let actions = supervisor_step(&mut st, SupervisorEvent::BackoffElapsed);
        assert_eq!(actions, vec![SupervisorAction::SpawnWorker]);
    }
}

#[test]
fn a_worker_exit_is_announced_before_any_respawn() {
    let mut st = initial_state();
    let actions = supervisor_step(&mut st, SupervisorEvent::SpawnOk);
    assert_eq!(actions, vec![SupervisorAction::BindChannel]);
    assert!(st.channel_alive);
    let actions = supervisor_step(&mut st, SupervisorEvent::WorkerExited);
    assert_eq!(
        actions,
        vec![
            SupervisorAction::ClearChannel,
            SupervisorAction::ForceRecordingOff,
            SupervisorAction::EmitBridgeShutdown,
        ],
    );
    assert!(!st.channel_alive);
    assert!(matches!(st.phase, SupervisorPhase::Exited));
    assert!(!actions.contains(&SupervisorAction::SpawnWorker));
    let actions = supervisor_step(&mut st, SupervisorEvent::ExitHandled);
    assert!(matches!(st.phase, SupervisorPhase::BackingOff));
    assert_eq!(actions, vec![SupervisorAction::Delay { secs: 2 }]);
    let actions = supervisor_step(&mut st, SupervisorEvent::BackoffElapsed);
    assert_eq!(actions, vec![SupervisorAction::SpawnWorker]);
    assert_eq!(st.attempts, 2);
}

#[test]
fn a_stop_request_ends_the_loop_gracefully() {
    let mut st = initial_state();
    supervisor_step(&mut st, SupervisorEvent::SpawnOk);
    let actions = supervisor_step(&mut st, SupervisorEvent::StopRequested);
    assert_eq!(actions, vec![SupervisorAction::SendShutdown]);
    assert!(!st.keep_running);
    supervisor_step(&mut st, SupervisorEvent::WorkerExited);
    supervisor_step(&mut st, SupervisorEvent::ExitHandled);
    assert!(matches!(st.phase, SupervisorPhase::Stopped));
}

#[test]
fn a_stop_request_with_no_worker_sends_nothing() {
    let mut st = initial_state();
    let actions = supervisor_step(&mut st, SupervisorEvent::StopRequested);
    assert!(actions.is_empty());
    assert!(!st.keep_running);
    supervisor_step(&mut st, SupervisorEvent::SpawnFailed);
    let actions = supervisor_step(&mut st, SupervisorEvent::BackoffElapsed);
    assert!(actions.is_empty());
    assert!(matches!(st.phase, SupervisorPhase::Stopped));
}
