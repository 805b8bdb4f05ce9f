use deqp_runner::{
    add_caselist_lines, error, intersperse, try_forward, ByteSliceExt, SoftwareUnderTest, Suite,
    Timestamp,
};

#[test]
fn intersperse_values() {
    let items: Vec<u32> = vec![1, 2, 3];
    assert_eq!(intersperse(&items, 0), vec![1, 0, 2, 0, 3]);
    let one: Vec<u32> = vec![7];
    assert_eq!(intersperse(&one, 0), vec![7]);
    let none: Vec<u32> = vec![];
    assert_eq!(intersperse(&none, 0), Vec::<u32>::new());
}

#[test]
fn try_forward_prefixes_errors() {
    let ok: Result<u32, deqp_runner::Error> = Ok(5);
    assert_eq!(try_forward(ok, "doing a thing").unwrap(), 5);
    let err: Result<u32, deqp_runner::Error> = Err(error("boom"));
    let forwarded = try_forward(err, "doing a thing").unwrap_err();
    assert_eq!(forwarded.message().as_str(), "doing a thing: boom");
}

#[test]
fn trim_whitespace() {
    let b: &[u8] = b"  \t hi there \n";
    assert_eq!(b.trim_whitespace_start(), b"hi there \n");
    assert_eq!(b.trim_whitespace_end(), b"  \t hi there");
    assert_eq!(b.trim_whitespace_start().trim_whitespace_end(), b"hi there");
    let all: &[u8] = b" \t\n";
    assert_eq!(all.trim_whitespace_start(), b"");
    assert_eq!(all.trim_whitespace_end(), b"");
}

#[test]
fn caselist_lines_fill_suite() {
    let mut suite = Suite::new(".".to_string());
    let lines: Vec<String> = vec![
        "Writing test log into /tmp/x.qpa".to_string(),
        "TEST: a.b.c".to_string(),
        "TEST: a.b.d".to_string(),
        "ignored noise".to_string(),
        "TEST: a.e".to_string(),
    ];
    add_caselist_lines(&mut suite, &lines).unwrap();
    assert_eq!(suite.num_tests(), 3);
    let all = suite.tests();
    assert_eq!(suite.get_name(all[0]), "a.b.c");
    assert_eq!(suite.get_name(all[1]), "a.b.d");
    assert_eq!(suite.get_name(all[2]), "a.e");
}

#[test]
fn caselist_conflict_is_error() {
    let mut suite = Suite::new(".".to_string());
    let lines: Vec<String> = vec!["TEST: a.b".to_string(), "TEST: a".to_string()];
    assert!(add_caselist_lines(&mut suite, &lines).is_err());
}

#[test]
fn rfc3339_format() {
    let t = Timestamp { year: 2023, month: 5, day: 6, hour: 7, minute: 8, second: 9 };
    assert_eq!(deqp_runner::format_rfc3339(t), "2023-05-06T07:08:09Z");
    let t2 = Timestamp { year: 99, month: 12, day: 31, hour: 23, minute: 59, second: 0 };
    assert_eq!(deqp_runner::format_rfc3339(t2), "0099-12-31T23:59:00Z");
}

#[test]
fn timestamp_date() {
    let t = Timestamp { year: 2023, month: 5, day: 6, hour: 7, minute: 8, second: 9 };
    let d = t.date();
    assert_eq!((d.year, d.month, d.day), (2023, 5, 6));
}

#[test]
fn revision_output_parsing() {
    let ok = SoftwareUnderTest::parse_revision_output(
        b"  6309e9c7eeddc731815eea5fee696ac4fb098e09\n",
    )
    .unwrap();
    assert!(ok.submodule_overrides.is_empty());
    assert_eq!(ok.top.to_git_string(), "6309e9c7eeddc731815eea5fee696ac4fb098e09");
    // too short, junk, or empty output is refused
    assert!(SoftwareUnderTest::parse_revision_output(b"6309\n").is_err());
    assert!(SoftwareUnderTest::parse_revision_output(b"fatal: bad revision\n").is_err());
    assert!(SoftwareUnderTest::parse_revision_output(b"").is_err());
}
