use deqp_runner::{Idx, Pool, Ref};

#[test]
fn pool_empty_string() {
    let mut pool = Pool::new();
    let (r, i) = pool.put("").unwrap();
    assert_eq!(r, Ref::default());
    assert_eq!(i, Idx::default());
    assert!(r.is_empty());
    assert!(i.is_empty());
    // the empty string always comes back the same way
    let (r2, i2) = pool.put("").unwrap();
    assert_eq!(r2, Ref::default());
    assert_eq!(i2, Idx::default());
    assert_eq!(pool.string_count(), 0);
}

#[test]
fn pool_put_sequence() {
    let mut pool = Pool::new();
    let (r1, i1) = pool.put("hello").unwrap();
    let (r2, i2) = pool.put("world").unwrap();
    let (r3, i3) = pool.put("hello").unwrap();
    assert_ne!(i1, i2);
    assert_eq!(i3, i1);
    assert_eq!(r3, r1);
    assert_ne!(r1, r2);
    assert_eq!(pool.string_count(), 2);
}

#[test]
fn pool_idempotent_handles() {
    let mut pool = Pool::new();
    let first = pool.put("some.test.name").unwrap();
    let second = pool.put("some.test.name").unwrap();
    assert_eq!(first, second);
}

#[test]
fn pool_get_round_trip() {
    let mut pool = Pool::new();
    let (r, i) = pool.put("hello").unwrap();
    assert_eq!(pool.get(r), "hello");
    assert_eq!(r.num_bytes(), 5);
    assert!(!r.is_empty());
    assert_eq!(i.index(), 0);
    let r_again = pool.ref_by_idx(i);
    assert_eq!(r_again, r);
    let (r2, _) = pool.put("wide ✓ chars").unwrap();
    assert_eq!(pool.get(r2), "wide ✓ chars");
    assert_eq!(r2.num_bytes(), "wide ✓ chars".len());
}

#[test]
fn pool_many_strings_rehash() {
    let mut pool = Pool::new();
    let mut handles = Vec::new();
    for k in 0..700 {
        let name = format!("name{}", k);
        handles.push((name.clone(), pool.put(&name).unwrap()));
    }
    // the table has grown past its initial occupancy limit; every handle is
    // still stable and readable
    for (name, (r, i)) in &handles {
        assert_eq!(pool.get(*r), name.as_str());
        let again = pool.put(name).unwrap();
        assert_eq!(again, (*r, *i));
    }
    assert_eq!(pool.string_count(), 700);
}
