use pi_natives::coordinator::{
    conclude_oneshot, conclude_run, drain_start, drain_step, drain_wakeup, exit_code,
    reap_targets, session_keepalive, AbortReason, CancelSource, ControlFlow, DrainEvent,
    DrainStep, ExecutionResult, ExitStatus, JobIdentity, RunEnd, SessionSlot, ShellRunResult,
    Timings,
};

fn result(code: ExitStatus, flow: ControlFlow) -> ExecutionResult {
    ExecutionResult { next_control_flow: flow, exit_code: code }
}

#[test]
fn exit_codes_map_each_status() {
    let cases = [
        (ExitStatus::Success, 0),
        (ExitStatus::GeneralError, 1),
        (ExitStatus::InvalidUsage, 2),
        (ExitStatus::Unimplemented, 99),
        (ExitStatus::CannotExecute, 126),
        (ExitStatus::NotFound, 127),
        (ExitStatus::Interrupted, 130),
        (ExitStatus::BrokenPipe, 141),
        (ExitStatus::Custom(124), 124),
        (ExitStatus::Custom(255), 255),
    ];
    for (status, code) in cases {
        assert_eq!(exit_code(&result(status, ControlFlow::Normal)), code);
    }
}

#[test]
fn keepalive_only_on_normal_flow() {
    assert!(session_keepalive(&result(ExitStatus::Success, ControlFlow::Normal)));
    assert!(!session_keepalive(&result(ExitStatus::Success, ControlFlow::BreakLoop(0))));
    assert!(!session_keepalive(&result(ExitStatus::Success, ControlFlow::ContinueLoop(1))));
    assert!(!session_keepalive(&result(
        ExitStatus::Success,
        ControlFlow::ReturnFromFunctionOrScript
    )));
    assert!(!session_keepalive(&result(ExitStatus::Success, ControlFlow::ExitShell)));
}

#[test]
fn echo_completion_reports_exit_zero() {
    let c = conclude_run(RunEnd::Completed(Ok(result(ExitStatus::Success, ControlFlow::Normal))));
    assert!(c.keep_session);
    assert_eq!(
        c.result,
        Ok(ShellRunResult { exit_code: Some(0), cancelled: false, timed_out: false })
    );
}

#[test]
fn abort_reports_cancelled_only() {
    let c = conclude_run(RunEnd::Cancelled(AbortReason::Signal));
    assert!(!c.keep_session);
    assert_eq!(
        c.result,
        Ok(ShellRunResult { exit_code: None, cancelled: true, timed_out: false })
    );
}

#[test]
fn timeout_reports_timed_out_only() {
    let c = conclude_run(RunEnd::Cancelled(AbortReason::Timeout));
    assert!(!c.keep_session);
    assert_eq!(
        c.result,
        Ok(ShellRunResult { exit_code: None, cancelled: false, timed_out: true })
    );
    let one = conclude_oneshot(RunEnd::Cancelled(AbortReason::Timeout)).unwrap();
    assert_eq!((one.exit_code, one.cancelled, one.timed_out), (None, false, true));
}

#[test]
fn engine_error_is_returned_and_session_dropped() {
    let c = conclude_run(RunEnd::Completed(Err("boom".to_string())));
    assert!(!c.keep_session);
    assert_eq!(c.result, Err("boom".to_string()));
}

#[test]
fn exit_shell_flow_gives_up_session() {
    let mut slot: SessionSlot<u32> = SessionSlot::new();
    assert!(slot.take().is_none());
    let engine = 7u32;
    let c = conclude_run(RunEnd::Completed(Ok(result(
        ExitStatus::Custom(3),
        ControlFlow::ExitShell,
    ))));
    assert_eq!(
        c.result,
        Ok(ShellRunResult { exit_code: Some(3), cancelled: false, timed_out: false })
    );
    slot.finish_run(engine, c.keep_session);
    assert!(slot.is_empty());
    assert_eq!(slot.take(), None);
}

#[test]
fn normal_flow_keeps_session_for_next_run() {
    let mut slot: SessionSlot<u32> = SessionSlot::new();
    let c = conclude_run(RunEnd::Completed(Ok(result(ExitStatus::Success, ControlFlow::Normal))));
    slot.finish_run(42, c.keep_session);
    assert_eq!(slot.take(), Some(42));
    assert!(slot.is_empty());
    slot.finish_run(43, true);
    slot.evict();
    assert_eq!(slot.take(), None);
}

#[test]
fn first_cancel_cause_wins() {
    let mut c = CancelSource::new();
    assert!(!c.is_cancelled());
    assert!(c.fire(AbortReason::Timeout));
    assert!(!c.fire(AbortReason::Signal));
    assert_eq!(c.fired(), Some(AbortReason::Timeout));
    assert!(c.is_cancelled());
}

#[test]
fn reaper_signals_group_or_representative() {
    let jobs = vec![
        JobIdentity { process_group: Some(100), representative_pid: Some(101) },
        JobIdentity { process_group: None, representative_pid: Some(200) },
        JobIdentity { process_group: None, representative_pid: None },
        JobIdentity { process_group: Some(300), representative_pid: None },
    ];
    assert_eq!(reap_targets(true, &jobs), vec![100, 200, 300]);
    assert!(reap_targets(false, &jobs).is_empty());
}

#[test]
fn drain_ends_on_reader_idle_or_cap() {
    let t = Timings::default();
    assert_eq!((t.grace_ms, t.idle_ms, t.max_drain_ms, t.kill_delay_ms), (1500, 250, 2000, 500));
    let d = drain_start(1000, &t);
    assert_eq!((d.idle_deadline, d.max_deadline), (1250, 3000));
    assert_eq!(drain_wakeup(&d), 1250);
    assert_eq!(
        drain_step(d, DrainEvent::ReaderFinished),
        DrainStep::Stop { reader_finished: true }
    );
    assert_eq!(
        drain_step(d, DrainEvent::ActivityClosed),
        DrainStep::Stop { reader_finished: false }
    );
    let DrainStep::Continue(d2) = drain_step(d, DrainEvent::Activity(1200)) else {
        panic!("activity must extend the drain")
    };
    assert_eq!((d2.idle_deadline, d2.max_deadline), (1450, 3000));
    assert_eq!(drain_step(d2, DrainEvent::Tick(1300)), DrainStep::Continue(d2));
    assert_eq!(
        drain_step(d2, DrainEvent::Tick(1450)),
        DrainStep::Stop { reader_finished: false }
    );
    let mut cur = d;
    let mut now = 1000;
    loop {
        now += 200;
        match drain_step(cur, DrainEvent::Activity(now)) {
            DrainStep::Continue(n) => cur = n,
            DrainStep::Stop { reader_finished } => {
                assert!(!reader_finished);
                break;
            }
        }
    }
    assert_eq!(now, 3000);
}

#[test]
fn delay_cancelled_by_timeout_reports_no_exit_code() {
    let plan = pi_natives::builtins::plan_delay(false, &vec!["5".to_string()]);
    assert!(matches!(plan, pi_natives::builtins::DelayPlan::Sleep { millis: 5000 }));
    let mut src = CancelSource::new();
    src.fire(AbortReason::Timeout);
    let c = conclude_run(RunEnd::Cancelled(src.fired().unwrap()));
    assert_eq!(
        c.result,
        Ok(ShellRunResult { exit_code: None, cancelled: false, timed_out: true })
    );
}

#[test]
fn execute_options_split_into_session_and_run() {
    let opts = pi_natives::coordinator::ShellExecuteOptions {
        command: "echo hi".to_string(),
        cwd: Some("/tmp".to_string()),
        env: Some(vec![("A".to_string(), "1".to_string())]),
        session_env: Some(vec![("B".to_string(), "2".to_string())]),
        timeout_ms: Some(100),
        snapshot_path: Some("/s".to_string()),
        timings: Timings::with_overrides(Some(3000), None, None, Some(10)),
    };
    let (session, run) = opts.into_parts();
    assert_eq!(session.session_env, Some(vec![("B".to_string(), "2".to_string())]));
    assert_eq!(session.snapshot_path.as_deref(), Some("/s"));
    assert_eq!(
        (session.timings.grace_ms, session.timings.idle_ms, session.timings.kill_delay_ms),
        (3000, 250, 10)
    );
    assert_eq!(run.command, "echo hi");
    assert_eq!(run.cwd.as_deref(), Some("/tmp"));
    assert_eq!(run.env, Some(vec![("A".to_string(), "1".to_string())]));
    assert_eq!(run.timeout_ms, Some(100));
}

#[test]
fn timing_windows_take_host_overrides() {
    let t = Timings::with_overrides(None, Some(100), Some(900), None);
    assert_eq!((t.grace_ms, t.idle_ms, t.max_drain_ms, t.kill_delay_ms), (1500, 100, 900, 500));
    assert_eq!(Timings::with_overrides(None, None, None, None), Timings::default());
}
