use deqp_runner::{
    DeqpError, DeqpEvent, ExitInfo, LineEvent, RunnerState, TestResultType,
};

fn line(s: &str) -> LineEvent {
    LineEvent::Line(s.to_string())
}

#[test]
fn runner_simulated_session() {
    // the simulated stdin of the runner: two tests, then DONE!, exit 0
    let mut st = RunnerState::new();
    let mut events = Vec::new();
    events.push(st.launch_event(4711));

    assert!(st.handle_stdout_event(line("TEST: x.y"), 100).is_none());
    if let Some(e) = st.handle_stdout_event(line("  Pass (ok)"), 160) {
        events.push(e);
    }
    assert!(st.handle_stdout_event(line("TEST: x.z"), 200).is_none());
    if let Some(e) = st.handle_stdout_event(line("  Fail"), 260) {
        events.push(e);
    }
    assert!(st.handle_stdout_event(line("DONE!"), 300).is_none());
    st.handle_stdout_event(LineEvent::Eof, 310);
    st.handle_stderr_event(LineEvent::Eof);
    st.on_child_exit(ExitInfo::Exited { success: true, code: Some(0) });
    assert!(st.is_done());
    assert!(st.flush_current(320).is_none());
    events.push(st.finished_event());

    assert_eq!(events.len(), 4);
    match &events[0] {
        DeqpEvent::Launch { pid } => assert_eq!(*pid, 4711),
        _ => panic!("first event must be the launch"),
    }
    match &events[1] {
        DeqpEvent::Test { name, start, duration, result } => {
            assert_eq!(name, "x.y");
            assert_eq!(*start, 100);
            assert_eq!(*duration, 60);
            assert_eq!(result.variant, TestResultType::Pass);
            assert_eq!(result.stdout, "ok");
        }
        _ => panic!("second event must be a test"),
    }
    match &events[2] {
        DeqpEvent::Test { name, result, .. } => {
            assert_eq!(name, "x.z");
            assert_eq!(result.variant, TestResultType::Fail);
            assert_eq!(result.stdout, "");
        }
        _ => panic!("third event must be a test"),
    }
    match &events[3] {
        DeqpEvent::Finished { error, .. } => assert!(error.is_none()),
        _ => panic!("last event must be the finish"),
    }
}

#[test]
fn runner_crash_incomplete() {
    // a test starts, stdout closes, the child exits 137: the open test is
    // synthesized as a crash and the run reports Incomplete
    let mut st = RunnerState::new();
    let _ = st.launch_event(1);
    assert!(st.handle_stdout_event(line("TEST: a"), 50).is_none());
    st.handle_stdout_event(LineEvent::Eof, 60);
    st.handle_stderr_event(LineEvent::Eof);
    st.on_child_exit(ExitInfo::Exited { success: false, code: Some(137) });
    assert!(st.is_done());
    let flushed = st.flush_current(90).unwrap();
    match flushed {
        DeqpEvent::Test { name, duration, result, .. } => {
            assert_eq!(name, "a");
            assert!(duration >= 0);
            assert_eq!(result.variant, TestResultType::Crash);
        }
        _ => panic!("the open test must be flushed"),
    }
    match st.finished_event() {
        DeqpEvent::Finished { error, .. } => assert_eq!(error, Some(DeqpError::Incomplete)),
        _ => panic!("last event must be the finish"),
    }
}

#[test]
fn runner_timeout_beats_crash() {
    // the child is crashing and the timeout fires: Timeout wins
    let mut st = RunnerState::new();
    let _ = st.launch_event(1);
    assert!(st.handle_stdout_event(line("TEST: slow"), 10).is_none());
    st.on_child_exit(ExitInfo::Exited { success: false, code: Some(11) });
    st.on_timeout();
    assert!(st.is_done());
    let flushed = st.flush_current(99).unwrap();
    match flushed {
        DeqpEvent::Test { result, .. } => {
            assert_eq!(result.variant, TestResultType::Timeout);
        }
        _ => panic!("the open test must be flushed"),
    }
    match st.finished_event() {
        DeqpEvent::Finished { error, .. } => assert_eq!(error, Some(DeqpError::Timeout)),
        _ => panic!("last event must be the finish"),
    }
}

#[test]
fn runner_double_test_start() {
    // a new TEST: line while a test is open synthesizes an internal error
    let mut st = RunnerState::new();
    let _ = st.launch_event(1);
    assert!(st.handle_stdout_event(line("TEST: one"), 10).is_none());
    assert!(st.handle_stdout_event(line("some output"), 11).is_none());
    let ev = st.handle_stdout_event(line("TEST: two"), 20).unwrap();
    match ev {
        DeqpEvent::Test { name, result, .. } => {
            assert_eq!(name, "one");
            assert_eq!(result.variant, TestResultType::InternalError);
            assert_eq!(result.full_stdout, "TEST: one\nsome output\n");
        }
        _ => panic!("the open test must be closed"),
    }
}

#[test]
fn runner_test_case_quoted_form() {
    let mut st = RunnerState::new();
    let _ = st.launch_event(1);
    assert!(st.handle_stdout_event(line("Test case 'dEQP-VK.api.smoke'.."), 5).is_none());
    let ev = st.handle_stdout_event(line("  Pass"), 9).unwrap();
    match ev {
        DeqpEvent::Test { name, .. } => assert_eq!(name, "dEQP-VK.api.smoke"),
        _ => panic!("a test event is due"),
    }
}

#[test]
fn runner_stderr_fatal_error() {
    let mut st = RunnerState::new();
    let _ = st.launch_event(1);
    assert!(st.handle_stdout_event(line("TEST: t"), 1).is_none());
    let ev = st.handle_stdout_event(line("  Pass"), 2).unwrap();
    match ev {
        DeqpEvent::Test { .. } => {}
        _ => panic!("a test event is due"),
    }
    assert!(st.handle_stdout_event(line("DONE!"), 3).is_none());
    st.handle_stderr_event(line("early note"));
    st.handle_stderr_event(line("something FATAL ERROR: boom"));
    st.handle_stdout_event(LineEvent::Eof, 4);
    st.handle_stderr_event(LineEvent::Eof);
    st.on_child_exit(ExitInfo::Exited { success: true, code: Some(0) });
    assert!(st.flush_current(5).is_none());
    match st.finished_event() {
        DeqpEvent::Finished { error, stderr, .. } => {
            assert_eq!(error, Some(DeqpError::DeqpFatalError));
            assert_eq!(stderr, "early note\nsomething FATAL ERROR: boom\n");
        }
        _ => panic!("last event must be the finish"),
    }
}

#[test]
fn runner_no_tests_run() {
    let mut st = RunnerState::new();
    let _ = st.launch_event(1);
    st.handle_stdout_event(LineEvent::Eof, 1);
    st.handle_stderr_event(LineEvent::Eof);
    st.on_child_exit(ExitInfo::Exited { success: true, code: Some(0) });
    assert!(st.flush_current(2).is_none());
    match st.finished_event() {
        DeqpEvent::Finished { error, .. } => assert_eq!(error, Some(DeqpError::NoTestsRun)),
        _ => panic!("last event must be the finish"),
    }
}

#[test]
fn runner_lines_after_done_accumulate() {
    let mut st = RunnerState::new();
    let _ = st.launch_event(1);
    assert!(st.handle_stdout_event(line("TEST: t"), 1).is_none());
    assert!(st.handle_stdout_event(line("  Pass"), 2).is_some());
    assert!(st.handle_stdout_event(line("DONE!"), 3).is_none());
    // this would otherwise look like a new test, but the run is done
    assert!(st.handle_stdout_event(line("TEST: ghost"), 4).is_none());
    st.handle_stdout_event(LineEvent::Eof, 5);
    st.handle_stderr_event(LineEvent::Eof);
    st.on_child_exit(ExitInfo::Exited { success: true, code: Some(0) });
    assert!(st.flush_current(6).is_none());
    match st.finished_event() {
        DeqpEvent::Finished { error, stdout, .. } => {
            assert!(error.is_none());
            assert_eq!(stdout, "DONE!\nTEST: ghost\n");
        }
        _ => panic!("last event must be the finish"),
    }
}
