use vstd::prelude::*;
use crate::errors::Error;
use crate::runner::chars_start_with;

use crate::suite::{Suite, TestRef, split_path, suite_put_spec};

verus! {

/// The suite view after feeding the first `i` case-list lines: each
/// `TEST: `-prefixed line appends its split path unless an equal path is
/// already registered; every other line changes nothing.
pub open spec fn caselist_view(
    pre: Seq<Seq<Seq<char>>>,
    lines: Seq<String>,
    sep: Seq<char>,
    i: int,
) -> Seq<Seq<Seq<char>>>
    decreases i,
{
    if i <= 0 {
        pre
    } else {
        let v = caselist_view(pre, lines, sep, i - 1);
        if chars_start_with(lines[i - 1]@, "TEST: "@) {
            let segs = split_path(lines[i - 1]@.skip(6), sep);
            if v.contains(segs) {
                v
            } else {
                v.push(segs)
            }
        } else {
            v
        }
    }
}

/// Register every `TEST: `-prefixed line of a case list in the suite; other
/// lines are ignored. On success the registered tests are exactly the old
/// ones followed by the new paths in first-occurrence order
/// ([`caselist_view`]); the first path that [`Suite::put`] refuses stops
/// the walk with that error.
pub fn add_caselist_lines(suite: &mut Suite, lines: &Vec<String>) -> (r: Result<(), Error>)
    requires
        old(suite).wf(),
    ensures
        final(suite).wf(),
        final(suite).spec_separator() == old(suite).spec_separator(),
        r is Ok ==> final(suite)@ == caselist_view(
            old(suite)@,
            lines@,
            old(suite).spec_separator(),
            lines@.len() as int,
        ),
        r is Ok ==> forall|i: int|
            0 <= i < lines@.len() && chars_start_with((#[trigger] lines@[i])@, "TEST: "@)
                ==> final(suite).has_test_path(
                split_path(lines@[i]@.skip(6), final(suite).spec_separator()),
            ),
        r is Err ==> exists|i: int, mid: Suite, pr: Result<TestRef, Error>|
            {
                &&& 0 <= i < lines@.len()
                &&& chars_start_with(lines@[i]@, "TEST: "@)
                &&& mid.wf()
                &&& mid@ == caselist_view(old(suite)@, lines@, old(suite).spec_separator(), i)
                &&& mid.spec_separator() == old(suite).spec_separator()
                &&& pr is Err
                &&& #[trigger] suite_put_spec(mid, *final(suite), lines@[i]@.skip(6), pr)
            },
{
    let ghost sep = old(suite).spec_separator();
    let n = lines.len();
    let mut i: usize = 0;
    proof {
        reveal_strlit("TEST: ");
    }
    while i < n
        invariant
            sep == old(suite).spec_separator(),
            n == lines@.len(),
            0 <= i <= n,
            suite.wf(),
            suite.spec_separator() == sep,
            "TEST: "@.len() == 6,
            suite@ == caselist_view(old(suite)@, lines@, sep, i as int),
            forall|j: int|
                0 <= j < i && chars_start_with((#[trigger] lines@[j])@, "TEST: "@)
                    ==> suite.has_test_path(split_path(lines@[j]@.skip(6), sep)),
        decreases n - i,
    {
        let line = &lines[i];
        if crate::runner::str_starts_with(line.as_str(), "TEST: ") {
            let ln = line.as_str().unicode_len();
            let path = line.as_str().substring_char(6, ln);
            let ghost pre = *suite;
            let res = suite.put(path);
            match res {
                Ok(t) => {
                    proof {
                        let segs = split_path(path@, sep);
                        assert(suite_put_spec(pre, *suite, path@, res));
                        assert(path@ == lines@[i as int]@.skip(6));
                        if pre.has_test_path(segs) {
                            assert(suite@[t.spec_id() as int] == segs);
                            assert(pre@.contains(segs)) by {
                                let w = choose|w: int| 0 <= w < pre@.len() && pre@[w] == segs;
                                assert(pre@[w] == segs);
                            }
                            assert(suite@ == caselist_view(old(suite)@, lines@, sep, i + 1));
                        } else {
                            assert(!pre@.contains(segs)) by {
                                if pre@.contains(segs) {
                                    let w = choose|w: int| 0 <= w < pre@.len() && pre@[w] == segs;
                                    assert(pre.has_test_path(segs));
                                }
                            }
                            assert(suite@[pre@.len() as int] == segs);
                            assert(suite@ == caselist_view(old(suite)@, lines@, sep, i + 1));
                        }
                        assert(suite.has_test_path(segs));
                        assert forall|j: int|
                            0 <= j < i + 1 && chars_start_with(
                                (#[trigger] lines@[j])@,
                                "TEST: "@,
                            ) implies suite.has_test_path(
                            split_path(lines@[j]@.skip(6), sep),
                        ) by {
                            if j < i {
                                assert(pre.has_test_path(split_path(lines@[j]@.skip(6), sep)));
                                let w = choose|w: int|
                                    0 <= w < pre@.len() && pre@[w] == split_path(
                                        lines@[j]@.skip(6),
                                        sep,
                                    );
                                assert(suite@[w] == split_path(lines@[j]@.skip(6), sep));
                            }
                        }
                    }
                },
                Err(e) => {
                    proof {
                        assert(suite_put_spec(pre, *suite, lines@[i as int]@.skip(6), res));
                        assert(chars_start_with(lines@[i as int]@, "TEST: "@));
                        assert(pre@ == caselist_view(old(suite)@, lines@, sep, i as int));
                    }
                    return Err(e);
                },
            }
        } else {
            proof {
                assert(suite@ == caselist_view(old(suite)@, lines@, sep, i + 1));
            }
        }
        i = i + 1;
    }
    Ok(())
}

} // verus!
