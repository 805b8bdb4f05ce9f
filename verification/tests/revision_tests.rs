use deqp_runner::{rev_from_json, rev_to_json, ModuleRevision, Revision};

#[test]
fn check_module_revision() {
    let sample = r#"{"top":"git-6309e9c7eeddc731815eea5fee696ac4fb098e09"}"#;
    let rev: Revision = rev_from_json(sample).unwrap();
    assert!(rev.submodule_overrides.is_empty());
    let ModuleRevision::Git(ref hash) = rev.top;
    assert_eq!(hash[0], 99);

    assert_eq!(&rev_to_json(&rev), sample);
}

#[test]
fn revision_hex_round_trip() {
    let rev = ModuleRevision::from_git_ascii(b"6309e9c7eeddc731815eea5fee696ac4fb098e09").unwrap();
    assert_eq!(rev.to_git_string(), "6309e9c7eeddc731815eea5fee696ac4fb098e09");
    // uppercase digits are accepted and normalized to lowercase
    let rev2 = ModuleRevision::from_git_ascii(b"6309E9C7EEDDC731815EEA5FEE696AC4FB098E09").unwrap();
    assert_eq!(rev2.to_git_string(), "6309e9c7eeddc731815eea5fee696ac4fb098e09");
}

#[test]
fn revision_hex_errors() {
    assert!(ModuleRevision::from_git_ascii(b"6309").is_err());
    assert!(ModuleRevision::from_git_ascii(b"zz09e9c7eeddc731815eea5fee696ac4fb098e09").is_err());
    assert!(ModuleRevision::from_git_ascii(b"").is_err());
}

#[test]
fn revision_json_errors() {
    assert!(rev_from_json("").is_err());
    assert!(rev_from_json(r#"{"top":"git-short"}"#).is_err());
    assert!(rev_from_json(r#"{"top":"hg-6309e9c7eeddc731815eea5fee696ac4fb098e09"}"#).is_err());
    // trailing garbage is refused
    assert!(rev_from_json(r#"{"top":"git-6309e9c7eeddc731815eea5fee696ac4fb098e09"} "#).is_err());
}
