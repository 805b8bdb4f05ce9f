use deqp_runner::{Sampler, Suite};

#[test]
fn simple() {
    let mut suite = Suite::new(".".to_string());

    let test1 = suite.put("group1.test1").unwrap();
    let test2 = suite.put("group1.test2").unwrap();
    let test3 = suite.put("group2.test1").unwrap();
    let test4 = suite.put("test1").unwrap();
    assert_eq!(suite.put("group1.test1").unwrap(), test1);
    assert_eq!(suite.get_name(test1), "group1.test1");
    assert_eq!(suite.get_name(test2), "group1.test2");
    assert_eq!(suite.get_name(test3), "group2.test1");
    assert_eq!(suite.get_name(test4), "test1");

    assert!(suite.put("group1.test1.sub").is_err());
    assert!(suite.put("group2").is_err());
    assert!(suite.put("test1.test2").is_err());
}

#[test]
fn suite_idempotent() {
    let mut suite = Suite::new(".".to_string());
    let a = suite.put("a.b.c").unwrap();
    let b = suite.put("a.b.c").unwrap();
    assert_eq!(a, b);
    assert_eq!(suite.num_tests(), 1);
}

#[test]
fn suite_conflicts() {
    let mut suite = Suite::new(".".to_string());
    suite.put("x").unwrap();
    assert!(suite.put("x.y").is_err());

    let mut suite2 = Suite::new(".".to_string());
    suite2.put("x.y").unwrap();
    assert!(suite2.put("x").is_err());

    let mut suite3 = Suite::new(".".to_string());
    assert!(suite3.put("a..b").is_err());
}

#[test]
fn suite_empty_segments_rejected() {
    let mut suite = Suite::new(".".to_string());
    assert!(suite.put("").is_err());
    assert!(suite.put("a.").is_err());
    assert!(suite.put(".a").is_err());
}

#[test]
fn suite_three_tests() {
    let mut suite = Suite::new(".".to_string());
    let t1 = suite.put("a.b.c").unwrap();
    let t2 = suite.put("a.b.d").unwrap();
    let t3 = suite.put("a.e").unwrap();
    assert_eq!(suite.get_name(t1), "a.b.c");
    assert_eq!(suite.get_name(t2), "a.b.d");
    assert_eq!(suite.get_name(t3), "a.e");
    let all = suite.tests();
    assert_eq!(all.len(), 3);
    assert_ne!(all[0], all[1]);
    assert_ne!(all[1], all[2]);
    assert_ne!(all[0], all[2]);
}

#[test]
fn suite_multibyte_separator() {
    let mut suite = Suite::new("::".to_string());
    let t = suite.put("outer::inner").unwrap();
    assert_eq!(suite.get_name(t), "outer::inner");
    assert!(suite.put("outer").is_err());
}

#[test]
fn sampler_ok_on_small_suite() {
    let mut suite = Suite::new(".".to_string());
    suite.put("a.b.c").unwrap();
    suite.put("a.b.d").unwrap();
    suite.put("a.e").unwrap();
    assert!(Sampler::new(&suite).is_ok());
}
