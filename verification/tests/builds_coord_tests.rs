use deqp_runner::{
    serialize_entry, BuildCoordinator, BuildLogContents, BuildLogEntry, BuildMgrState, BuildPoll,
    ModuleRevision, Revision, Timestamp,
};

fn t0() -> Timestamp {
    Timestamp { year: 2024, month: 1, day: 2, hour: 3, minute: 4, second: 5 }
}

fn rev() -> Revision {
    let top = ModuleRevision::from_git_ascii(b"0123456789abcdef0123456789abcdef01234567").unwrap();
    Revision { top, submodule_overrides: Vec::new() }
}

#[test]
fn build_cycle_two_concurrent_callers() {
    // a simulated interleaving of two get-or-make callers for one revision:
    // exactly one Create and one Complete entry are written, both callers
    // end at the same build id
    let mut written: Vec<String> = Vec::new();
    let mut coord = BuildCoordinator::new(BuildMgrState::new());
    let r = rev();

    // caller 1: no record yet, allocate and commit Create
    assert!(coord.state.find_by_rev(&r).is_none());
    let id1 = coord.state.allocate_id().unwrap();
    let create = BuildLogEntry {
        id: id1,
        time: t0(),
        contents: BuildLogContents::Create { rev: r.clone() },
    };
    written.push(serialize_entry(&create));
    coord.state.apply_log_entry(&create).unwrap();

    // caller 2 arrives: the record exists now
    let id2 = coord.state.find_by_rev(&r).unwrap();
    assert_eq!(id1, id2);

    // caller 1 claims the build
    assert_eq!(coord.poll_build(id1), BuildPoll::Start);
    assert!(coord.try_take_builder());

    // caller 2 polls: the build is in flight, and the builder is taken
    assert_eq!(coord.poll_build(id2), BuildPoll::Wait);
    assert!(!coord.try_take_builder());

    // caller 1 finishes the build and commits Complete
    let complete = BuildLogEntry {
        id: id1,
        time: t0(),
        contents: BuildLogContents::Complete { success: true },
    };
    written.push(serialize_entry(&complete));
    coord.state.apply_log_entry(&complete).unwrap();
    coord.release_builder();

    // both callers see the same ready build
    assert_eq!(coord.poll_build(id1), BuildPoll::Ready);
    assert_eq!(coord.poll_build(id2), BuildPoll::Ready);

    // the log holds exactly one Create and one Complete
    assert_eq!(written.len(), 2);
    assert!(written[0].contains("\"type\":\"Create\""));
    assert!(written[1].contains("\"type\":\"Complete\""));

    // and replaying that log recovers the committed state
    let replayed = BuildMgrState::replay(&written).unwrap();
    assert_eq!(replayed.find_by_rev(&r).unwrap(), id1);
}

#[test]
fn builder_flag_is_exclusive() {
    let mut coord = BuildCoordinator::new(BuildMgrState::new());
    assert!(coord.try_take_builder());
    assert!(!coord.try_take_builder());
    assert!(!coord.try_take_builder());
    coord.release_builder();
    assert!(coord.try_take_builder());
}

#[test]
fn failed_build_reports_failed() {
    let mut coord = BuildCoordinator::new(BuildMgrState::new());
    let r = rev();
    let id = coord.state.allocate_id().unwrap();
    coord.state
        .apply_log_entry(&BuildLogEntry {
            id,
            time: t0(),
            contents: BuildLogContents::Create { rev: r.clone() },
        })
        .unwrap();
    assert_eq!(coord.poll_build(id), BuildPoll::Start);
    // the build ran and failed; the commit of Complete{false} applies
    coord.state
        .apply_log_entry(&BuildLogEntry {
            id,
            time: t0(),
            contents: BuildLogContents::Complete { success: false },
        })
        .unwrap();
    assert_eq!(coord.poll_build(id), BuildPoll::Failed);
}

#[test]
fn force_fail_after_commit_error() {
    let mut coord = BuildCoordinator::new(BuildMgrState::new());
    let r = rev();
    let id = coord.state.allocate_id().unwrap();
    coord.state
        .apply_log_entry(&BuildLogEntry {
            id,
            time: t0(),
            contents: BuildLogContents::Create { rev: r.clone() },
        })
        .unwrap();
    assert_eq!(coord.poll_build(id), BuildPoll::Start);
    // the log write failed: the build is forced to Fail
    coord.force_fail(id);
    assert_eq!(coord.poll_build(id), BuildPoll::Failed);
}

#[test]
fn allocate_skips_taken_ids() {
    let mut st = BuildMgrState::new();
    let id = st.allocate_id().unwrap();
    assert_eq!(id, 1);
    st.apply_log_entry(&BuildLogEntry {
        id: 1,
        time: t0(),
        contents: BuildLogContents::Create { rev: rev() },
    })
    .unwrap();
    let id2 = st.allocate_id().unwrap();
    assert_eq!(id2, 2);
}
