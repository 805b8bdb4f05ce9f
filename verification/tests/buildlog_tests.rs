use deqp_runner::{
    parse_entry, serialize_entry, BuildLogContents, BuildLogEntry, BuildMgrState, BuildStatus,
    ModuleRevision, Revision, Timestamp,
};

fn sample_time() -> Timestamp {
    Timestamp { year: 2023, month: 5, day: 6, hour: 7, minute: 8, second: 9 }
}

fn sample_rev() -> Revision {
    let top = ModuleRevision::from_git_ascii(b"6309e9c7eeddc731815eea5fee696ac4fb098e09").unwrap();
    Revision { top, submodule_overrides: Vec::new() }
}

#[test]
fn log_line_use_exact() {
    let e = BuildLogEntry { id: 7, time: sample_time(), contents: BuildLogContents::Use };
    let line = serialize_entry(&e);
    assert_eq!(line, r#"{"id":7,"time":"2023-05-06T07:08:09Z","type":"Use"}"#);
}

#[test]
fn log_line_create_exact() {
    let e = BuildLogEntry {
        id: 12,
        time: sample_time(),
        contents: BuildLogContents::Create { rev: sample_rev() },
    };
    let line = serialize_entry(&e);
    assert_eq!(
        line,
        r#"{"id":12,"time":"2023-05-06T07:08:09Z","type":"Create","rev":{"top":"git-6309e9c7eeddc731815eea5fee696ac4fb098e09"}}"#
    );
}

#[test]
fn log_round_trip_all_kinds() {
    let kinds = vec![
        BuildLogContents::Create { rev: sample_rev() },
        BuildLogContents::Complete { success: true },
        BuildLogContents::Complete { success: false },
        BuildLogContents::Use,
        BuildLogContents::ClearFail,
    ];
    let mut id = 1u64;
    for contents in kinds {
        let e = BuildLogEntry { id, time: sample_time(), contents };
        let line = serialize_entry(&e);
        let back = parse_entry(&line).unwrap();
        assert_eq!(back.id, e.id);
        assert_eq!(back.time, e.time);
        match (&e.contents, &back.contents) {
            (BuildLogContents::Create { rev: a }, BuildLogContents::Create { rev: b }) => {
                assert_eq!(a.top.to_git_string(), b.top.to_git_string());
            }
            (
                BuildLogContents::Complete { success: a },
                BuildLogContents::Complete { success: b },
            ) => {
                assert_eq!(a, b);
            }
            (BuildLogContents::Use, BuildLogContents::Use) => {}
            (BuildLogContents::ClearFail, BuildLogContents::ClearFail) => {}
            _ => panic!("variant changed in round trip"),
        }
        id += 3;
    }
}

#[test]
fn log_parse_rejects_corruption() {
    let e = BuildLogEntry { id: 7, time: sample_time(), contents: BuildLogContents::Use };
    let line = serialize_entry(&e);
    assert!(parse_entry(&line).is_ok());
    let corrupt = line.replace("id", "iD");
    assert!(parse_entry(&corrupt).is_err());
    assert!(parse_entry("").is_err());
    assert!(parse_entry("not json at all").is_err());
    // a foreign but json-looking line is refused too
    assert!(parse_entry(r#"{"id":7,"time":"2023-05-06T07:08:09Z","type":"Unknown"}"#).is_err());
}

#[test]
fn build_log_replay_recovers_state() {
    let rev = sample_rev();
    let lines = vec![
        serialize_entry(&BuildLogEntry {
            id: 1,
            time: sample_time(),
            contents: BuildLogContents::Create { rev: rev.clone() },
        }),
        serialize_entry(&BuildLogEntry {
            id: 1,
            time: sample_time(),
            contents: BuildLogContents::Complete { success: true },
        }),
        serialize_entry(&BuildLogEntry {
            id: 1,
            time: sample_time(),
            contents: BuildLogContents::Use,
        }),
    ];
    let state = BuildMgrState::replay(&lines).unwrap();
    let got = state.get_build(&rev).unwrap();
    assert_eq!(got.0, 1);
    assert_eq!(got.1, BuildStatus::Succeeded);

    // corrupting any line truncates: the replay refuses the log
    for k in 0..lines.len() {
        let mut bad = lines.clone();
        bad[k] = bad[k].replace(":", ";");
        assert!(BuildMgrState::replay(&bad).is_err());
    }
}

#[test]
fn apply_rules() {
    let rev = sample_rev();
    let mut st = BuildMgrState::new();
    // a non-Create entry for an unknown id is corruption
    let complete =
        BuildLogEntry { id: 1, time: sample_time(), contents: BuildLogContents::Complete { success: true } };
    assert!(st.apply_log_entry(&complete).is_err());
    let create = BuildLogEntry {
        id: 1,
        time: sample_time(),
        contents: BuildLogContents::Create { rev: rev.clone() },
    };
    assert!(st.apply_log_entry(&create).is_ok());
    // a second Create for a known id is corruption
    assert!(st.apply_log_entry(&create).is_err());
    assert_eq!(st.get_build(&rev).unwrap().1, BuildStatus::Pending);
}

#[test]
fn clear_fail_resets_failed_builds() {
    let rev = sample_rev();
    let mut st = BuildMgrState::new();
    st.apply_log_entry(&BuildLogEntry {
        id: 1,
        time: sample_time(),
        contents: BuildLogContents::Create { rev: rev.clone() },
    })
    .unwrap();
    st.apply_log_entry(&BuildLogEntry {
        id: 1,
        time: sample_time(),
        contents: BuildLogContents::Complete { success: false },
    })
    .unwrap();
    assert_eq!(st.get_build(&rev).unwrap().1, BuildStatus::Fail);
    st.apply_log_entry(&BuildLogEntry {
        id: 1,
        time: sample_time(),
        contents: BuildLogContents::ClearFail,
    })
    .unwrap();
    assert_eq!(st.get_build(&rev).unwrap().1, BuildStatus::Pending);
}
