use vstd::prelude::*;
use crate::errors::Error;
use crate::string_pool::{Idx, Pool, put_spec};

verus! {

/// A handle to a test registered in a [`Suite`].
#[derive(Debug, Clone, Copy, PartialEq, Eq, Structural)]
pub struct TestRef {
    id: u32,
}

impl TestRef {
    pub closed spec fn spec_id(self) -> u32 {
        self.id
    }

    /// Two handles with the same id are the same handle.
    pub proof fn lemma_id_injective(a: TestRef, b: TestRef)
        requires
            a.spec_id() == b.spec_id(),
        ensures
            a == b,
    {
    }
}

/// A reference from a group to one of its children.
#[derive(Debug, Clone, Copy, PartialEq, Eq, Structural)]
enum ChildRef {
    TestChild(u32),
    GroupChild(u32),
}

struct TestNode {
    /// Index of the parent group.
    parent: u32,
    name: Idx,
}

struct GroupNode {
    children: Vec<ChildRef>,
    /// Index of the parent group; 0 for the root itself.
    parent: u32,
    name: Idx,
}

/// A hierarchical, de-duplicated registry of test names.
///
/// Tests and groups form a rooted tree over a separator string (typically
/// `"."`); names are interned in a [`Pool`]. Nodes are held in flat vectors
/// and refer to each other by index: children through their parent's child
/// list, parents through a single back index.
pub struct Suite {
    /// The "path separator" used for nesting tests within groups.
    separator: String,
    tests: Vec<TestNode>,
    groups: Vec<GroupNode>,
    name_pool: Pool,
}

/// Splitting and joining of paths on a separator, at the level of character
/// sequences.
///
/// The first index at or after `i` where `sep` occurs in `p`, or -1.
pub open spec fn find_from(p: Seq<char>, sep: Seq<char>, i: int) -> int
    recommends
        sep.len() > 0,
        0 <= i <= p.len(),
    decreases p.len() - i,
    when sep.len() > 0
{
    if i + sep.len() > p.len() {
        -1
    } else if p.subrange(i, i + sep.len()) == sep {
        i
    } else {
        find_from(p, sep, i + 1)
    }
}

/// Split `p` greedily on `sep`: the list of separator-delimited segments.
pub open spec fn split_path(p: Seq<char>, sep: Seq<char>) -> Seq<Seq<char>>
    recommends
        sep.len() > 0,
    decreases p.len(),
    when sep.len() > 0
{
    let f = find_from(p, sep, 0);
    if f < 0 || f + sep.len() > p.len() {
        seq![p]
    } else {
        seq![p.subrange(0, f)] + split_path(p.subrange(f + sep.len(), p.len() as int), sep)
    }
}

/// Join segments with `sep` in between.
pub open spec fn join_path(segs: Seq<Seq<char>>, sep: Seq<char>) -> Seq<char>
    decreases segs.len(),
{
    if segs.len() == 0 {
        Seq::empty()
    } else if segs.len() == 1 {
        segs[0]
    } else {
        segs[0] + sep + join_path(segs.drop_first(), sep)
    }
}

proof fn lemma_find_from_props(p: Seq<char>, sep: Seq<char>, i: int)
    requires
        sep.len() > 0,
        0 <= i <= p.len(),
    ensures
        find_from(p, sep, i) >= 0 ==> i <= find_from(p, sep, i) && find_from(p, sep, i) + sep.len()
            <= p.len() && p.subrange(find_from(p, sep, i), find_from(p, sep, i) + sep.len() as int)
            == sep,
    decreases p.len() - i,
{
    if i + sep.len() > p.len() {
    } else if p.subrange(i, i + sep.len()) == sep {
    } else {
        lemma_find_from_props(p, sep, i + 1);
    }
}

/// Law: splitting a path and joining the segments again yields the path
/// unchanged.
pub proof fn lemma_split_join(p: Seq<char>, sep: Seq<char>)
    requires
        sep.len() > 0,
    ensures
        split_path(p, sep).len() >= 1,
        join_path(split_path(p, sep), sep) == p,
    decreases p.len(),
{
    let f = find_from(p, sep, 0);
    lemma_find_from_props(p, sep, 0);
    if f < 0 {
        assert(join_path(seq![p], sep) == p);
    } else {
        let rest = p.subrange(f + sep.len(), p.len() as int);
        lemma_split_join(rest, sep);
        let segs = split_path(p, sep);
        assert(segs == seq![p.subrange(0, f)] + split_path(rest, sep));
        assert(segs.len() >= 2);
        assert(segs.drop_first() =~= split_path(rest, sep));
        assert(segs[0] == p.subrange(0, f));
        assert(join_path(segs, sep) == p.subrange(0, f) + sep + join_path(split_path(rest, sep), sep));
        assert(p =~= p.subrange(0, f) + sep + rest);
    }
}

impl Suite {
    /// The name (as characters) behind a name index.
    pub closed spec fn name_at(self, idx: Idx) -> Seq<char> {
        self.name_pool@[idx.spec_val() as int]
    }

    pub closed spec fn spec_separator(self) -> Seq<char> {
        self.separator@
    }

    pub closed spec fn spec_num_tests(self) -> int {
        self.tests@.len() as int
    }

    pub closed spec fn spec_num_groups(self) -> int {
        self.groups@.len() as int
    }

    spec fn group_parents_ok(self) -> bool {
        &&& self.groups@.len() >= 1
        &&& forall|gi: int|
            1 <= gi < self.groups@.len() ==> (#[trigger] self.groups@[gi]).parent < gi
    }

    /// Group index `gi` is in range and the parent indices are decreasing,
    /// so that walking them terminates.
    pub closed spec fn group_path_dom(self, gi: int) -> bool {
        0 <= gi < self.groups@.len() && self.group_parents_ok()
    }

    /// The path of group `gi`: its ancestors' names from the root down,
    /// ending in its own name. The root's path is empty.
    pub closed spec fn group_path(self, gi: int) -> Seq<Seq<char>>
        decreases gi,
        when self.group_path_dom(gi)
    {
        if gi == 0 {
            Seq::empty()
        } else {
            self.group_path(self.groups@[gi].parent as int).push(
                self.name_at(self.groups@[gi].name),
            )
        }
    }

    /// The path of test `ti`: its group's path extended with its own name.
    pub closed spec fn test_path(self, ti: int) -> Seq<Seq<char>> {
        self.group_path(self.tests@[ti].parent as int).push(self.name_at(self.tests@[ti].name))
    }

    /// Some registered test has exactly this path.
    pub open spec fn has_test_path(self, q: Seq<Seq<char>>) -> bool {
        exists|ti: int| 0 <= ti < self@.len() && self@[ti] == q
    }

    /// Some group has exactly this path.
    pub closed spec fn has_group_path(self, q: Seq<Seq<char>>) -> bool {
        exists|gi: int| 0 <= gi < self.groups@.len() && self.group_path(gi) == q
    }

    spec fn child_name(self, c: ChildRef) -> Idx {
        match c {
            ChildRef::TestChild(t) => self.tests@[t as int].name,
            ChildRef::GroupChild(g) => self.groups@[g as int].name,
        }
    }

    spec fn child_ok(self, gi: int, c: ChildRef) -> bool {
        match c {
            ChildRef::TestChild(t) => {
                &&& (t as int) < self.tests@.len()
                &&& self.tests@[t as int].parent == gi
            },
            ChildRef::GroupChild(g) => {
                &&& (g as int) < self.groups@.len()
                &&& g != 0
                &&& self.groups@[g as int].parent == gi
            },
        }
    }

    /// The suite's internal invariant.
    pub closed spec fn wf(self) -> bool {
        &&& self.name_pool.wf()
        &&& self.separator@.len() > 0
        &&& self.group_parents_ok()
        &&& self.groups@.len() < 0x7fffffff
        &&& self.tests@.len() < 0x80000000
        &&& self.groups@[0].name.spec_val() == 0
        &&& self.groups@[0].parent == 0
        &&& forall|gi: int|
            1 <= gi < self.groups@.len() ==> 1 <= (#[trigger] self.groups@[gi]).name.spec_val()
                < self.name_pool@.len()
        &&& forall|ti: int|
            0 <= ti < self.tests@.len() ==> ((#[trigger] self.tests@[ti]).parent as int)
                < self.groups@.len() && 1 <= self.tests@[ti].name.spec_val()
                < self.name_pool@.len()
        &&& forall|gi: int, ci: int|
            0 <= gi < self.groups@.len() && 0 <= ci < self.groups@[gi].children@.len()
                ==> self.child_ok(gi, #[trigger] self.groups@[gi].children@[ci])
        &&& forall|ti: int|
            0 <= ti < self.tests@.len() ==> self.groups@[(#[trigger] self.tests@[ti]).parent as int].children@.contains(
                ChildRef::TestChild(ti as u32),
            )
        &&& forall|gi: int|
            1 <= gi < self.groups@.len() ==> self.groups@[(#[trigger] self.groups@[gi]).parent as int].children@.contains(
                ChildRef::GroupChild(gi as u32),
            )
        &&& forall|gi: int, c1: int, c2: int|
            0 <= gi < self.groups@.len() && 0 <= c1 < self.groups@[gi].children@.len() && 0 <= c2
                < self.groups@[gi].children@.len() && c1 != c2 ==> self.child_name(
                #[trigger] self.groups@[gi].children@[c1],
            ) != self.child_name(#[trigger] self.groups@[gi].children@[c2])
    }

    /// Create an empty suite over the given separator.
    pub fn new(separator: String) -> (r: Suite)
        requires
            separator@.len() > 0,
        ensures
            r.wf(),
            r@ == Seq::<Seq<Seq<char>>>::empty(),
            r.spec_separator() == separator@,
            r.spec_num_groups() == 1,
            r.spec_num_tests() == 0,
            r.spec_pool_bytes() == 0,
            r.spec_pool_count() == 1,
    {
        let mut groups: Vec<GroupNode> = Vec::new();
        groups.push(GroupNode { children: Vec::new(), parent: 0, name: Idx::default() });
        let r = Suite { separator, tests: Vec::new(), groups, name_pool: Pool::new() };
        proof {
            assert(r@ =~= Seq::<Seq<Seq<char>>>::empty());
        }
        r
    }

    /// The number of registered tests.
    pub fn num_tests(&self) -> (r: usize)
        ensures
            r == self@.len(),
    {
        self.tests.len()
    }

    /// Handles of all registered tests, in registration order.
    pub fn tests(&self) -> (r: Vec<TestRef>)
        requires
            self.wf(),
        ensures
            r@.len() == self@.len(),
            forall|i: int| 0 <= i < r@.len() ==> (#[trigger] r@[i]).spec_id() == i,
    {
        let mut v: Vec<TestRef> = Vec::new();
        let n = self.tests.len();
        let mut i: usize = 0;
        while i < n
            invariant
                0 <= i <= n,
                n < 0x80000000,
                v@.len() == i,
                forall|j: int| 0 <= j < i ==> (#[trigger] v@[j]).spec_id() == j,
            decreases n - i,
        {
            v.push(TestRef { id: i as u32 });
            i = i + 1;
        }
        v
    }
}

/// Joining after appending one more segment.
proof fn lemma_join_push(q: Seq<Seq<char>>, x: Seq<char>, sep: Seq<char>)
    ensures
        join_path(q.push(x), sep) == if q.len() == 0 {
            x
        } else {
            join_path(q, sep) + sep + x
        },
    decreases q.len(),
{
    if q.len() == 0 {
        assert(q.push(x)[0] == x);
        assert(join_path(q.push(x), sep) == x);
    } else if q.len() == 1 {
        assert(q.push(x).len() == 2);
        assert(join_path(q.push(x), sep) == q.push(x)[0] + sep + join_path(
            q.push(x).drop_first(),
            sep,
        ));
        assert(q.push(x)[0] == q[0]);
        assert(q.push(x).drop_first() =~= seq![x]);
        assert(join_path(seq![x], sep) == x);
    } else {
        assert(q.push(x).drop_first() =~= q.drop_first().push(x));
        lemma_join_push(q.drop_first(), x, sep);
        assert(join_path(q, sep) == q[0] + sep + join_path(q.drop_first(), sep));
        assert((q[0] + sep + join_path(q.drop_first(), sep)) + sep + x =~= q[0] + sep + (join_path(
            q.drop_first(),
            sep,
        ) + sep + x));
    }
}

impl Suite {
    /// In a well-formed suite, equal group paths mean equal groups.
    proof fn lemma_group_path_unique(self, g1: int, g2: int)
        requires
            self.wf(),
            0 <= g1 < self.groups@.len(),
            0 <= g2 < self.groups@.len(),
            self.group_path(g1) == self.group_path(g2),
        ensures
            g1 == g2,
        decreases g1 + g2,
    {
        if g1 == 0 && g2 == 0 {
        } else if g1 == 0 || g2 == 0 {
            let gn = if g1 == 0 {
                g2
            } else {
                g1
            };
            assert(self.group_path_dom(gn));
            assert(self.group_path(gn) == self.group_path(self.groups@[gn].parent as int).push(
                self.name_at(self.groups@[gn].name),
            ));
            assert(self.group_path(gn).len() >= 1);
            assert(self.group_path(0).len() == 0);
            assert(false);
        } else {
            let p1 = self.groups@[g1].parent as int;
            let p2 = self.groups@[g2].parent as int;
            let q1 = self.group_path(p1);
            let q2 = self.group_path(p2);
            let n1 = self.groups@[g1].name;
            let n2 = self.groups@[g2].name;
            assert(q1.push(self.name_at(n1)) == q2.push(self.name_at(n2)));
            assert(q1.len() == q2.len());
            assert(q1 =~= q2) by {
                assert forall|i: int| 0 <= i < q1.len() implies q1[i] == q2[i] by {
                    assert(q1.push(self.name_at(n1))[i] == q2.push(self.name_at(n2))[i]);
                }
            }
            assert(self.name_at(n1) == self.name_at(n2)) by {
                assert(q1.push(self.name_at(n1)).last() == q2.push(self.name_at(n2)).last());
            }
            self.lemma_group_path_unique(p1, p2);
            // same parent; names are the same pool entry
            self.name_pool.lemma_view_props();
            assert(n1.spec_val() == n2.spec_val()) by {
                assert(self.name_pool@[n1.spec_val() as int] == self.name_pool@[n2.spec_val() as int]);
                if n1.spec_val() != n2.spec_val() {
                    assert(false);
                }
            }
            Idx::lemma_val_injective(n1, n2);
            if g1 != g2 {
                let ch = self.groups@[p1].children@;
                let c1 = choose|c1: int| 0 <= c1 < ch.len() && ch[c1] == ChildRef::GroupChild(g1 as u32);
                let c2 = choose|c2: int| 0 <= c2 < ch.len() && ch[c2] == ChildRef::GroupChild(g2 as u32);
                assert(ch.contains(ChildRef::GroupChild(g1 as u32)));
                assert(ch.contains(ChildRef::GroupChild(g2 as u32)));
                assert(c1 != c2);
                assert(self.child_name(ch[c1]) != self.child_name(ch[c2]));
                assert(false);
            }
        }
    }

    /// In a well-formed suite, equal test paths mean equal tests.
    proof fn lemma_test_path_unique(self, t1: int, t2: int)
        requires
            self.wf(),
            0 <= t1 < self.tests@.len(),
            0 <= t2 < self.tests@.len(),
            self.test_path(t1) == self.test_path(t2),
        ensures
            t1 == t2,
    {
        let p1 = self.tests@[t1].parent as int;
        let p2 = self.tests@[t2].parent as int;
        let q1 = self.group_path(p1);
        let q2 = self.group_path(p2);
        let n1 = self.tests@[t1].name;
        let n2 = self.tests@[t2].name;
        assert(q1.push(self.name_at(n1)) == q2.push(self.name_at(n2)));
        assert(q1.len() == q2.len());
        assert(q1 =~= q2) by {
            assert forall|i: int| 0 <= i < q1.len() implies q1[i] == q2[i] by {
                assert(q1.push(self.name_at(n1))[i] == q2.push(self.name_at(n2))[i]);
            }
        }
        assert(self.name_at(n1) == self.name_at(n2)) by {
            assert(q1.push(self.name_at(n1)).last() == q2.push(self.name_at(n2)).last());
        }
        self.lemma_group_path_unique(p1, p2);
        self.name_pool.lemma_view_props();
        assert(n1.spec_val() == n2.spec_val()) by {
            assert(self.name_pool@[n1.spec_val() as int] == self.name_pool@[n2.spec_val() as int]);
            if n1.spec_val() != n2.spec_val() {
                assert(false);
            }
        }
        Idx::lemma_val_injective(n1, n2);
        if t1 != t2 {
            let ch = self.groups@[p1].children@;
            assert(ch.contains(ChildRef::TestChild(t1 as u32)));
            assert(ch.contains(ChildRef::TestChild(t2 as u32)));
            let c1 = choose|c1: int| 0 <= c1 < ch.len() && ch[c1] == ChildRef::TestChild(t1 as u32);
            let c2 = choose|c2: int| 0 <= c2 < ch.len() && ch[c2] == ChildRef::TestChild(t2 as u32);
            assert(c1 != c2);
            assert(self.child_name(ch[c1]) != self.child_name(ch[c2]));
            assert(false);
        }
    }

    /// The names along the path, leaf-most first, as collected by walking
    /// parent pointers.
    spec fn rev_names(self, names: Seq<Idx>) -> Seq<Seq<char>> {
        Seq::new(names.len(), |j: int| self.name_at(names[names.len() - 1 - j]))
    }

    /// Reconstruct the dotted path of a registered test.
    pub fn get_name(&self, test_ref: TestRef) -> (r: String)
        requires
            self.wf(),
            test_ref.spec_id() < self@.len(),
        ensures
            r@ == join_path(self@[test_ref.spec_id() as int], self.spec_separator()),
    {
        let ti = test_ref.id as usize;
        let ghost path = self.test_path(ti as int);
        let mut names: Vec<Idx> = Vec::new();
        names.push(self.tests[ti].name);
        let mut gi: usize = self.tests[ti].parent as usize;
        proof {
            assert(self.rev_names(names@) =~= path.skip(path.len() - 1));
            assert(self.group_path(gi as int) + path.skip(path.len() - 1) =~= path);
        }
        while gi != 0
            invariant
                self.wf(),
                0 <= gi < self.groups@.len(),
                names@.len() >= 1,
                path == self.group_path(gi as int) + self.rev_names(names@),
                forall|j: int|
                    0 <= j < names@.len() ==> 1 <= (#[trigger] names@[j]).spec_val()
                        < self.name_pool@.len(),
            decreases gi,
        {
            let ghost old_names = names@;
            names.push(self.groups[gi].name);
            proof {
                assert(self.rev_names(names@) =~= seq![
                    self.name_at(self.groups@[gi as int].name),
                ] + self.rev_names(old_names));
                let pgi = self.groups@[gi as int].parent as int;
                assert(self.group_path(gi as int) == self.group_path(pgi).push(
                    self.name_at(self.groups@[gi as int].name),
                ));
                assert(self.group_path(pgi) + self.rev_names(names@) =~= self.group_path(gi as int)
                    + self.rev_names(old_names));
            }
            gi = self.groups[gi].parent as usize;
        }
        proof {
            assert(self.group_path(0) =~= Seq::<Seq<char>>::empty());
            assert(path =~= self.rev_names(names@));
        }
        let n = names.len();
        let mut out = String::new();
        let mut j: usize = n;
        while j > 0
            invariant
                self.wf(),
                n == names@.len(),
                0 <= j <= n,
                path == self.rev_names(names@),
                path.len() == n,
                forall|jj: int|
                    0 <= jj < names@.len() ==> 1 <= (#[trigger] names@[jj]).spec_val()
                        < self.name_pool@.len(),
                out@ == if j == n {
                    Seq::<char>::empty()
                } else if j > 0 {
                    join_path(path.take(n - j), self.separator@) + self.separator@
                } else {
                    join_path(path.take(n - j), self.separator@)
                },
            decreases j,
        {
            j = j - 1;
            let r = self.name_pool.ref_by_idx(names[j]);
            let s = self.name_pool.get(r);
            proof {
                assert(self.name_pool.spec_ref_at(names@[j as int].spec_val() as int) == r);
                assert(s@ == self.name_pool@[names@[j as int].spec_val() as int]);
                assert(path[n - 1 - j] == self.name_at(names@[j as int]));
                lemma_join_push(path.take(n - j - 1), path[n - 1 - j], self.separator@);
                assert(path.take(n - j - 1).push(path[n - j - 1]) =~= path.take(n - j));
            }
            out.append(s);
            if j > 0 {
                out.append(self.separator.as_str());
            }
        }
        proof {
            assert(path.take(n as int) =~= path);
        }
        out
    }
}

/// The total encoded size of a list of segments.
pub open spec fn sum_enc(segs: Seq<Seq<char>>) -> int
    decreases segs.len(),
{
    if segs.len() == 0 {
        0
    } else {
        vstd::utf8::encode_utf8(segs[0]).len() + sum_enc(segs.drop_first())
    }
}

/// UTF-8 encoding distributes over concatenation.
proof fn lemma_encode_concat(a: Seq<char>, b: Seq<char>)
    ensures
        vstd::utf8::encode_utf8(a + b) == vstd::utf8::encode_utf8(a) + vstd::utf8::encode_utf8(b),
    decreases a.len(),
{
    if a.len() == 0 {
        assert(a + b =~= b);
        assert(vstd::utf8::encode_utf8(a) =~= Seq::<u8>::empty());
        assert(vstd::utf8::encode_utf8(a) + vstd::utf8::encode_utf8(b) =~= vstd::utf8::encode_utf8(
            b,
        ));
    } else {
        assert((a + b)[0] == a[0]);
        assert((a + b).drop_first() =~= a.drop_first() + b);
        lemma_encode_concat(a.drop_first(), b);
        assert(vstd::utf8::encode_utf8(a + b) == vstd::utf8::encode_scalar((a + b)[0] as u32)
            + vstd::utf8::encode_utf8((a + b).drop_first()));
        assert(vstd::utf8::encode_scalar(a[0] as u32) + (vstd::utf8::encode_utf8(a.drop_first())
            + vstd::utf8::encode_utf8(b)) =~= (vstd::utf8::encode_scalar(a[0] as u32)
            + vstd::utf8::encode_utf8(a.drop_first())) + vstd::utf8::encode_utf8(b));
    }
}

/// The segments of a joined path take no more bytes than the whole.
proof fn lemma_sum_enc_join(segs: Seq<Seq<char>>, sep: Seq<char>)
    ensures
        sum_enc(segs) <= vstd::utf8::encode_utf8(join_path(segs, sep)).len(),
    decreases segs.len(),
{
    if segs.len() == 0 {
    } else if segs.len() == 1 {
        assert(sum_enc(segs.drop_first()) == 0);
    } else {
        lemma_sum_enc_join(segs.drop_first(), sep);
        lemma_encode_concat(segs[0] + sep, join_path(segs.drop_first(), sep));
        lemma_encode_concat(segs[0], sep);
        assert(join_path(segs, sep) =~= (segs[0] + sep) + join_path(segs.drop_first(), sep));
    }
}

/// Splitting yields at most one segment per character plus one.
proof fn lemma_split_count(p: Seq<char>, sep: Seq<char>)
    requires
        sep.len() > 0,
    ensures
        split_path(p, sep).len() <= p.len() + 1,
    decreases p.len(),
{
    let f = find_from(p, sep, 0);
    lemma_find_from_props(p, sep, 0);
    if f < 0 || f + sep.len() > p.len() {
    } else {
        lemma_split_count(p.subrange(f + sep.len(), p.len() as int), sep);
    }
}

impl Suite {
    pub closed spec fn spec_pool_bytes(self) -> int {
        self.name_pool.spec_pool_len()
    }

    pub closed spec fn spec_pool_count(self) -> int {
        self.name_pool@.len() as int
    }

    /// `other` extends `self`: same tests, same separator, every group of
    /// `self` still present with the same parent and name (children may have
    /// been appended), new groups only at the end, and the pool extended.
    spec fn extended_by(self, other: Suite) -> bool {
        &&& other.separator == self.separator
        &&& other.tests@ == self.tests@
        &&& other.groups@.len() >= self.groups@.len()
        &&& forall|g: int|
            0 <= g < self.groups@.len() ==> (#[trigger] other.groups@[g]).parent
                == self.groups@[g].parent && other.groups@[g].name == self.groups@[g].name
        &&& other.name_pool@.len() >= self.name_pool@.len()
        &&& forall|i: int|
            0 <= i < self.name_pool@.len() ==> other.name_pool@[i] == self.name_pool@[i]
    }

    /// Group paths are unchanged under extension.
    proof fn lemma_group_path_stable(self, other: Suite, gi: int)
        requires
            self.wf(),
            other.wf(),
            self.extended_by(other),
            0 <= gi < self.groups@.len(),
        ensures
            other.group_path(gi) == self.group_path(gi),
        decreases gi,
    {
        if gi == 0 {
        } else {
            self.lemma_group_path_stable(other, self.groups@[gi].parent as int);
            assert(other.name_at(other.groups@[gi].name) == self.name_at(self.groups@[gi].name));
        }
    }

    /// Test paths, and hence the view, are unchanged under extension.
    proof fn lemma_view_stable(self, other: Suite)
        requires
            self.wf(),
            other.wf(),
            self.extended_by(other),
        ensures
            other@ == self@,
    {
        assert forall|ti: int| 0 <= ti < self.tests@.len() implies other.test_path(ti)
            == self.test_path(ti) by {
            self.lemma_group_path_stable(other, self.tests@[ti].parent as int);
            assert(other.name_at(other.tests@[ti].name) == self.name_at(self.tests@[ti].name));
        }
        assert(other@ =~= self@);
    }

    /// Every prefix of a group's path is itself some group's path.
    proof fn lemma_group_prefix(self, gi: int, j: int)
        requires
            self.wf(),
            0 <= gi < self.groups@.len(),
            0 <= j <= self.group_path(gi).len(),
        ensures
            exists|g2: int|
                0 <= g2 < self.groups@.len() && #[trigger] self.group_path(g2) == self.group_path(
                    gi,
                ).take(j),
        decreases gi,
    {
        if j == self.group_path(gi).len() {
            assert(self.group_path(gi).take(j) =~= self.group_path(gi));
        } else {
            assert(gi != 0);
            let p = self.groups@[gi].parent as int;
            assert(self.group_path(gi) == self.group_path(p).push(
                self.name_at(self.groups@[gi].name),
            ));
            assert(self.group_path(gi).take(j) =~= self.group_path(p).take(j));
            self.lemma_group_prefix(p, j);
        }
    }

    /// A group's (non-root) name, and a test's name, is an interned string.
    proof fn lemma_group_name_interned(self, gi: int)
        requires
            self.wf(),
            1 <= gi < self.groups@.len(),
        ensures
            self.name_pool.contains_str(self.group_path(gi).last()),
    {
        assert(self.group_path(gi).last() == self.name_at(self.groups@[gi].name));
        let v = self.groups@[gi].name.spec_val() as int;
        assert(self.name_pool@[v] == self.name_at(self.groups@[gi].name));
    }

    /// Law: no path names both a test and a group.
    pub proof fn lemma_no_test_and_group(self, q: Seq<Seq<char>>)
        requires
            self.wf(),
            self.has_test_path(q),
        ensures
            !self.has_group_path(q),
    {
        if self.has_group_path(q) {
            let ti = choose|ti: int| 0 <= ti < self@.len() && self@[ti] == q;
            let gi = choose|gi: int| 0 <= gi < self.groups@.len() && self.group_path(gi) == q;
            assert(self.test_path(ti) == q);
            assert(q.len() >= 1);
            assert(gi != 0);
            let tp = self.tests@[ti].parent as int;
            let gp = self.groups@[gi].parent as int;
            assert(self.group_path(gi) == self.group_path(gp).push(
                self.name_at(self.groups@[gi].name),
            ));
            let q1 = self.group_path(tp);
            let q2 = self.group_path(gp);
            assert(q1.push(self.name_at(self.tests@[ti].name)) == q2.push(
                self.name_at(self.groups@[gi].name),
            ));
            assert(q1.len() == q2.len());
            assert(q1 =~= q2) by {
                assert forall|i: int| 0 <= i < q1.len() implies q1[i] == q2[i] by {
                    assert(q1.push(self.name_at(self.tests@[ti].name))[i] == q2.push(
                        self.name_at(self.groups@[gi].name),
                    )[i]);
                }
            }
            assert(self.name_at(self.tests@[ti].name) == self.name_at(self.groups@[gi].name)) by {
                assert(q1.push(self.name_at(self.tests@[ti].name)).last() == q2.push(
                    self.name_at(self.groups@[gi].name),
                ).last());
            }
            self.lemma_group_path_unique(tp, gp);
            self.name_pool.lemma_view_props();
            let n1 = self.tests@[ti].name;
            let n2 = self.groups@[gi].name;
            assert(n1.spec_val() == n2.spec_val()) by {
                assert(self.name_pool@[n1.spec_val() as int] == self.name_pool@[n2.spec_val() as int]);
                if n1.spec_val() != n2.spec_val() {
                    assert(false);
                }
            }
            Idx::lemma_val_injective(n1, n2);
            let ch = self.groups@[tp].children@;
            assert(ch.contains(ChildRef::TestChild(ti as u32)));
            assert(ch.contains(ChildRef::GroupChild(gi as u32)));
            let c1 = choose|c1: int| 0 <= c1 < ch.len() && ch[c1] == ChildRef::TestChild(ti as u32);
            let c2 = choose|c2: int| 0 <= c2 < ch.len() && ch[c2] == ChildRef::GroupChild(gi as u32);
            assert(c1 != c2);
            assert(self.child_name(ch[c1]) != self.child_name(ch[c2]));
            assert(false);
        }
    }
}

/// Find the first (character) index where `sep` occurs in `s`.
pub(crate) fn find_first(s: &str, sep: &str) -> (r: Option<usize>)
    requires
        sep@.len() > 0,
    ensures
        r matches Some(i) ==> find_from(s@, sep@, 0) == i && i + sep@.len() <= s@.len(),
        r is None ==> find_from(s@, sep@, 0) == -1,
{
    let n = s.unicode_len();
    let m = sep.unicode_len();
    if m > n {
        return None;
    }
    let mut i: usize = 0;
    while i <= n - m
        invariant
            n == s@.len(),
            m == sep@.len(),
            m > 0,
            m <= n,
            0 <= i <= n - m + 1,
            find_from(s@, sep@, 0) == find_from(s@, sep@, i as int),
        decreases n - i,
    {
        proof {
            assert(i + m <= n);
        }
        let mut x: usize = 0;
        let mut matched = true;
        while x < m && matched
            invariant
                n == s@.len(),
                m == sep@.len(),
                i + m <= n,
                0 <= x <= m,
                matched ==> forall|x2: int| 0 <= x2 < x ==> s@[i + x2] == sep@[x2],
                !matched ==> exists|x2: int| 0 <= x2 < m && s@[i + x2] != sep@[x2],
            decreases m - x, (if matched {
                1int
            } else {
                0int
            }),
        {
            if s.get_char(i + x) != sep.get_char(x) {
                matched = false;
            } else {
                x = x + 1;
            }
        }
        if matched {
            proof {
                assert(s@.subrange(i as int, i + m) =~= sep@);
            }
            return Some(i);
        }
        proof {
            let x2 = choose|x2: int| 0 <= x2 < m && s@[i + x2] != sep@[x2];
            assert(s@.subrange(i as int, i + m)[x2] == s@[i + x2]);
            assert(s@.subrange(i as int, i + m) != sep@);
        }
        i = i + 1;
    }
    proof {
        assert(find_from(s@, sep@, i as int) == -1);
    }
    None
}

/// Split `s` greedily on `sep` into owned segments.
fn split_all(s: &str, sep: &str) -> (r: Vec<String>)
    requires
        sep@.len() > 0,
    ensures
        r@.len() == split_path(s@, sep@).len(),
        forall|i: int| 0 <= i < r@.len() ==> (#[trigger] r@[i])@ == split_path(s@, sep@)[i],
{
    let mut out: Vec<String> = Vec::new();
    let mut rest: String = String::from_str(s);
    loop
        invariant
            sep@.len() > 0,
            split_path(s@, sep@) == Seq::new(out@.len(), |i: int| out@[i]@) + split_path(
                rest@,
                sep@,
            ),
        decreases rest@.len(),
    {
        let ghost out0 = out@;
        match find_first(rest.as_str(), sep) {
            Some(f) => {
                let m = sep.unicode_len();
                let len = rest.unicode_len();
                let head = rest.as_str().substring_char(0, f);
                out.push(String::from_str(head));
                let tail = String::from_str(rest.as_str().substring_char(f + m, len));
                proof {
                    assert(split_path(rest@, sep@) == seq![rest@.subrange(0, f as int)]
                        + split_path(rest@.subrange(f + m, rest@.len() as int), sep@));
                    assert(Seq::new(out@.len(), |i: int| out@[i]@) =~= Seq::new(
                        out0.len(),
                        |i: int| out0[i]@,
                    ).push(head@));
                    assert(Seq::new(out0.len(), |i: int| out0[i]@).push(rest@.subrange(0, f as int))
                        + split_path(rest@.subrange(f + m, rest@.len() as int), sep@) =~= Seq::new(
                        out0.len(),
                        |i: int| out0[i]@,
                    ) + (seq![rest@.subrange(0, f as int)] + split_path(
                        rest@.subrange(f + m, rest@.len() as int),
                        sep@,
                    )));
                }
                rest = tail;
            },
            None => {
                proof {
                    assert(split_path(rest@, sep@) == seq![rest@]);
                    assert(Seq::new(out@.len() + 1, |i: int| out@.push(rest).index(i)@) =~= Seq::new(
                        out0.len(),
                        |i: int| out0[i]@,
                    ).push(rest@));
                    assert(Seq::new(out0.len(), |i: int| out0[i]@).push(rest@) + split_path(
                        Seq::<char>::empty(),
                        sep@,
                    ) =~= Seq::new(out0.len(), |i: int| out0[i]@).push(rest@) + seq![
                        Seq::<char>::empty(),
                    ]);
                }
                out.push(rest);
                proof {
                    assert(Seq::new(out@.len(), |i: int| out@[i]@) =~= Seq::new(
                        out0.len(),
                        |i: int| out0[i]@,
                    ).push(out@.last()@));
                    assert(split_path(s@, sep@) =~= Seq::new(out@.len(), |i: int| out@[i]@));
                }
                return out;
            },
        }
    }
}

/// Some segment is empty: the path is malformed.
pub open spec fn seg_empty_err(segs: Seq<Seq<char>>) -> bool {
    exists|i: int| 0 <= i < segs.len() && segs[i].len() == 0
}

/// A registered test's path is a proper prefix of the new path: a test
/// stands where a group is needed.
pub open spec fn prefix_test_conflict(pre: Suite, segs: Seq<Seq<char>>) -> bool {
    exists|j: int| 1 <= j < segs.len() && pre.has_test_path(#[trigger] segs.take(j))
}

/// A coarse sufficient condition for `Suite::put` not to run into any size
/// limit: generous room for the path's bytes in the name pool and for one
/// group per segment.
pub open spec fn put_room(pre: Suite, p: Seq<char>) -> bool {
    &&& pre.spec_pool_bytes() + vstd::utf8::encode_utf8(p).len() + 2 < u32::MAX as int
    &&& pre.spec_pool_count() + p.len() + 2 < u32::MAX as int - 1
    &&& pre.spec_num_tests() + 1 < 0x80000000
    &&& pre.spec_num_groups() + p.len() + 2 < 0x7fffffff
    &&& pre.spec_pool_count() + p.len() + 2 < usize::MAX as int / 32
}

/// The full behaviour of [`Suite::put`], as a relation between the suite
/// before the call, the suite after it, the path and the result.
///
/// The path is split on the separator. A path naming an existing test is
/// returned idempotently; a path colliding with an existing test or group,
/// or containing an empty segment, is refused; otherwise the test is
/// appended (creating groups as needed). Refusals never change the set of
/// registered tests.
pub open spec fn suite_put_spec(
    pre: Suite,
    post: Suite,
    p: Seq<char>,
    r: Result<TestRef, Error>,
) -> bool {
    let segs = split_path(p, pre.spec_separator());
    match r {
        Ok(t) => {
            if pre.has_test_path(segs) {
                &&& post == pre
                &&& t.spec_id() < pre@.len()
                &&& pre@[t.spec_id() as int] == segs
            } else {
                &&& !seg_empty_err(segs)
                &&& !prefix_test_conflict(pre, segs)
                &&& !pre.has_group_path(segs)
                &&& t.spec_id() == pre@.len()
                &&& post@ == pre@.push(segs)
            }
        },
        Err(e) => {
            &&& post@ == pre@
            &&& !pre.has_test_path(segs)
            &&& (seg_empty_err(segs) || prefix_test_conflict(pre, segs) || pre.has_group_path(segs)
                || !put_room(pre, p))
        },
    }
}

proof fn lemma_sum_enc_take(segs: Seq<Seq<char>>, j: int)
    requires
        0 <= j < segs.len(),
    ensures
        sum_enc(segs.take(j + 1)) == sum_enc(segs.take(j)) + vstd::utf8::encode_utf8(
            segs[j],
        ).len(),
        sum_enc(segs.take(j)) >= 0,
    decreases j,
{
    if j == 0 {
        assert(segs.take(0) =~= Seq::<Seq<char>>::empty());
        assert(segs.take(1) =~= seq![segs[0]]);
        assert(seq![segs[0]].drop_first() =~= Seq::<Seq<char>>::empty());
    } else {
        lemma_sum_enc_take(segs.drop_first(), j - 1);
        assert(segs.take(j + 1).drop_first() =~= segs.drop_first().take(j));
        assert(segs.take(j).drop_first() =~= segs.drop_first().take(j - 1));
        assert(segs.take(j + 1)[0] == segs[0]);
        assert(segs.take(j)[0] == segs[0]);
        assert(segs.drop_first()[j - 1] == segs[j]);
    }
}

proof fn lemma_sum_enc_nonneg(segs: Seq<Seq<char>>)
    ensures
        sum_enc(segs) >= 0,
    decreases segs.len(),
{
    if segs.len() > 0 {
        lemma_sum_enc_nonneg(segs.drop_first());
    }
}

proof fn lemma_sum_enc_prefix(segs: Seq<Seq<char>>, j: int)
    requires
        0 <= j <= segs.len(),
    ensures
        sum_enc(segs.take(j)) <= sum_enc(segs),
        sum_enc(segs.take(j)) >= 0,
    decreases segs.len() - j,
{
    lemma_sum_enc_nonneg(segs.take(j));
    if j == segs.len() {
        assert(segs.take(j) =~= segs);
    } else {
        lemma_sum_enc_take(segs, j);
        lemma_sum_enc_prefix(segs, j + 1);
    }
}

impl Suite {
    /// Elements of group paths are non-empty names.
    proof fn lemma_group_path_elems_nonempty(self, gi: int)
        requires
            self.wf(),
            0 <= gi < self.groups@.len(),
        ensures
            forall|j: int|
                0 <= j < self.group_path(gi).len() ==> (#[trigger] self.group_path(gi)[j]).len()
                    > 0,
        decreases gi,
    {
        self.name_pool.lemma_view_props();
        if gi == 0 {
        } else {
            let p = self.groups@[gi].parent as int;
            self.lemma_group_path_elems_nonempty(p);
            assert(self.name_at(self.groups@[gi].name).len() > 0);
            assert forall|j: int| 0 <= j < self.group_path(gi).len() implies (
            #[trigger] self.group_path(gi)[j]).len() > 0 by {
                if j < self.group_path(p).len() {
                    assert(self.group_path(gi)[j] == self.group_path(p)[j]);
                }
            }
        }
    }

    /// Elements of a registered test's path are non-empty names.
    proof fn lemma_test_path_elems_nonempty(self, ti: int)
        requires
            self.wf(),
            0 <= ti < self.tests@.len(),
        ensures
            forall|j: int|
                0 <= j < self.test_path(ti).len() ==> (#[trigger] self.test_path(ti)[j]).len() > 0,
    {
        self.name_pool.lemma_view_props();
        let p = self.tests@[ti].parent as int;
        self.lemma_group_path_elems_nonempty(p);
        assert(self.name_at(self.tests@[ti].name).len() > 0);
        assert forall|j: int| 0 <= j < self.test_path(ti).len() implies (
        #[trigger] self.test_path(ti)[j]).len() > 0 by {
            if j < self.group_path(p).len() {
                assert(self.test_path(ti)[j] == self.group_path(p)[j]);
            }
        }
    }

    /// Law: a registered test's proper prefixes are groups. If a test with
    /// path `segs` exists, every proper non-empty prefix of `segs` is some
    /// group's path. Together with
    /// [`lemma_no_test_and_group`](Suite::lemma_no_test_and_group) and the
    /// refusal cases of [`suite_put_spec`], registering a strict prefix of
    /// an existing test is therefore always refused.
    pub proof fn lemma_test_prefixes_are_groups(self, segs: Seq<Seq<char>>)
        requires
            self.wf(),
            self.has_test_path(segs),
        ensures
            forall|m: int| 1 <= m < segs.len() ==> self.has_group_path(#[trigger] segs.take(m)),
    {
        self.lemma_present_structure(segs);
    }

    /// If a test with path `segs` exists, every proper non-empty prefix of
    /// `segs` is a group's path, and every segment is an interned name.
    proof fn lemma_present_structure(self, segs: Seq<Seq<char>>)
        requires
            self.wf(),
            self.has_test_path(segs),
        ensures
            forall|m: int| 1 <= m < segs.len() ==> self.has_group_path(#[trigger] segs.take(m)),
            forall|j: int|
                0 <= j < segs.len() ==> self.name_pool.contains_str(#[trigger] segs[j]),
    {
        let ti = choose|ti: int| 0 <= ti < self@.len() && self@[ti] == segs;
        assert(self.test_path(ti) == segs);
        let tp = self.tests@[ti].parent as int;
        let q = self.group_path(tp);
        assert(q =~= segs.take(segs.len() - 1));
        assert forall|m: int| 1 <= m < segs.len() implies self.has_group_path(
            #[trigger] segs.take(m),
        ) by {
            self.lemma_group_prefix(tp, m);
            let g2 = choose|g2: int|
                0 <= g2 < self.groups@.len() && #[trigger] self.group_path(g2) == self.group_path(
                    tp,
                ).take(m);
            assert(self.group_path(tp).take(m) =~= segs.take(m));
        }
        assert forall|j: int| 0 <= j < segs.len() implies self.name_pool.contains_str(
            #[trigger] segs[j],
        ) by {
            if j == segs.len() - 1 {
                let v = self.tests@[ti].name.spec_val() as int;
                assert(self.name_pool@[v] == segs[j]);
            } else {
                self.lemma_group_prefix(tp, j + 1);
                let g2 = choose|g2: int|
                    0 <= g2 < self.groups@.len() && #[trigger] self.group_path(g2)
                        == self.group_path(tp).take(j + 1);
                assert(self.group_path(g2).len() == j + 1);
                assert(g2 != 0);
                self.lemma_group_name_interned(g2);
                assert(self.group_path(g2).last() == self.group_path(tp).take(j + 1)[j]);
                assert(self.group_path(tp)[j] == segs[j]);
            }
        }
    }

    /// If scanning the children of the group at `gi` found no child named
    /// `name_idx`, then no test and no group extends `gi`'s path by that
    /// name.
    proof fn lemma_scan_complete(self, gi: int, name_idx: Idx)
        requires
            self.wf(),
            0 <= gi < self.groups@.len(),
            1 <= name_idx.spec_val() < self.name_pool@.len(),
            forall|ci: int|
                0 <= ci < self.groups@[gi].children@.len() ==> self.child_name(
                    #[trigger] self.groups@[gi].children@[ci],
                ) != name_idx,
        ensures
            !self.has_test_path(self.group_path(gi).push(self.name_at(name_idx))),
            !self.has_group_path(self.group_path(gi).push(self.name_at(name_idx))),
    {
        let q = self.group_path(gi).push(self.name_at(name_idx));
        self.name_pool.lemma_view_props();
        if self.has_test_path(q) {
            let ti = choose|ti: int| 0 <= ti < self@.len() && self@[ti] == q;
            assert(self.test_path(ti) == q);
            let tp = self.tests@[ti].parent as int;
            let q1 = self.group_path(tp);
            let q2 = self.group_path(gi);
            assert(q1.push(self.name_at(self.tests@[ti].name)) == q2.push(self.name_at(name_idx)));
            assert(q1 =~= q2) by {
                assert forall|i: int| 0 <= i < q1.len() implies q1[i] == q2[i] by {
                    assert(q1.push(self.name_at(self.tests@[ti].name))[i] == q2.push(
                        self.name_at(name_idx),
                    )[i]);
                }
            }
            self.lemma_group_path_unique(tp, gi);
            assert(self.name_at(self.tests@[ti].name) == self.name_at(name_idx)) by {
                assert(q1.push(self.name_at(self.tests@[ti].name)).last() == q2.push(
                    self.name_at(name_idx),
                ).last());
            }
            assert(self.tests@[ti].name.spec_val() == name_idx.spec_val()) by {
                if self.tests@[ti].name.spec_val() != name_idx.spec_val() {
                    assert(false);
                }
            }
            Idx::lemma_val_injective(self.tests@[ti].name, name_idx);
            let ch = self.groups@[gi].children@;
            assert(ch.contains(ChildRef::TestChild(ti as u32)));
            let ci = choose|ci: int| 0 <= ci < ch.len() && ch[ci] == ChildRef::TestChild(ti as u32);
            assert(self.child_name(ch[ci]) == name_idx);
            assert(false);
        }
        if self.has_group_path(q) {
            let g = choose|g: int| 0 <= g < self.groups@.len() && self.group_path(g) == q;
            assert(q.len() >= 1);
            assert(self.group_path(0).len() == 0);
            assert(g != 0);
            let gp = self.groups@[g].parent as int;
            let q1 = self.group_path(gp);
            let q2 = self.group_path(gi);
            assert(q1.push(self.name_at(self.groups@[g].name)) == q2.push(self.name_at(name_idx)));
            assert(q1 =~= q2) by {
                assert forall|i: int| 0 <= i < q1.len() implies q1[i] == q2[i] by {
                    assert(q1.push(self.name_at(self.groups@[g].name))[i] == q2.push(
                        self.name_at(name_idx),
                    )[i]);
                }
            }
            self.lemma_group_path_unique(gp, gi);
            assert(self.name_at(self.groups@[g].name) == self.name_at(name_idx)) by {
                assert(q1.push(self.name_at(self.groups@[g].name)).last() == q2.push(
                    self.name_at(name_idx),
                ).last());
            }
            assert(self.groups@[g].name.spec_val() == name_idx.spec_val()) by {
                if self.groups@[g].name.spec_val() != name_idx.spec_val() {
                    assert(false);
                }
            }
            Idx::lemma_val_injective(self.groups@[g].name, name_idx);
            let ch = self.groups@[gi].children@;
            assert(ch.contains(ChildRef::GroupChild(g as u32)));
            let ci = choose|ci: int| 0 <= ci < ch.len() && ch[ci] == ChildRef::GroupChild(g as u32);
            assert(self.child_name(ch[ci]) == name_idx);
            assert(false);
        }
    }
}

/// What a scan of one group's children found for a given name.
enum ScanResult {
    FoundTest(u32),
    FoundGroup(u32),
    NotFound,
}

impl Suite {
    /// Transitivity of extension.
    proof fn lemma_extended_trans(a: Suite, b: Suite, c: Suite)
        requires
            a.extended_by(b),
            b.extended_by(c),
        ensures
            a.extended_by(c),
    {
    }

    /// Look for a child of group `gi` whose name is `name_idx`.
    fn scan_children(&self, gi: usize, name_idx: Idx) -> (r: ScanResult)
        requires
            self.wf(),
            (gi as int) < self.groups@.len(),
        ensures
            match r {
                ScanResult::FoundTest(t) => {
                    &&& (t as int) < self.tests@.len()
                    &&& self.tests@[t as int].parent == gi
                    &&& self.tests@[t as int].name == name_idx
                },
                ScanResult::FoundGroup(g) => {
                    &&& (g as int) < self.groups@.len()
                    &&& g != 0
                    &&& self.groups@[g as int].parent == gi
                    &&& self.groups@[g as int].name == name_idx
                },
                ScanResult::NotFound => forall|ci: int|
                    0 <= ci < self.groups@[gi as int].children@.len() ==> self.child_name(
                        #[trigger] self.groups@[gi as int].children@[ci],
                    ) != name_idx,
            },
    {
        let nch = self.groups[gi].children.len();
        let mut ci: usize = 0;
        while ci < nch
            invariant
                self.wf(),
                (gi as int) < self.groups@.len(),
                nch == self.groups@[gi as int].children@.len(),
                0 <= ci <= nch,
                forall|c2: int|
                    0 <= c2 < ci ==> self.child_name(
                        #[trigger] self.groups@[gi as int].children@[c2],
                    ) != name_idx,
            decreases nch - ci,
        {
            let c = self.groups[gi].children[ci];
            proof {
                assert(self.child_ok(gi as int, c));
            }
            match c {
                ChildRef::TestChild(t) => {
                    if self.tests[t as usize].name == name_idx {
                        return ScanResult::FoundTest(t);
                    }
                },
                ChildRef::GroupChild(g) => {
                    if self.groups[g as usize].name == name_idx {
                        return ScanResult::FoundGroup(g);
                    }
                },
            }
            ci = ci + 1;
        }
        ScanResult::NotFound
    }

    /// Append a fresh empty group named `name_idx` under `gi`.
    #[verifier::rlimit(100)]
    fn create_group(&mut self, gi: usize, name_idx: Idx) -> (g: usize)
        requires
            old(self).wf(),
            (gi as int) < old(self).groups@.len(),
            1 <= name_idx.spec_val() < old(self).name_pool@.len(),
            forall|ci: int|
                0 <= ci < old(self).groups@[gi as int].children@.len() ==> old(self).child_name(
                    #[trigger] old(self).groups@[gi as int].children@[ci],
                ) != name_idx,
            old(self).groups@.len() + 1 < 0x7fffffff,
        ensures
            final(self).wf(),
            g == old(self).groups@.len(),
            final(self).groups@.len() == old(self).groups@.len() + 1,
            final(self).tests@ == old(self).tests@,
            final(self).name_pool == old(self).name_pool,
            final(self).separator == old(self).separator,
            old(self).extended_by(*final(self)),
            final(self)@ == old(self)@,
            final(self).group_path(g as int) == old(self).group_path(gi as int).push(
                old(self).name_at(name_idx),
            ),
            forall|g2: int|
                0 <= g2 < old(self).groups@.len() ==> final(self).group_path(g2) == old(
                    self,
                ).group_path(g2),
            final(self).groups@[g as int].children@.len() == 0,
    {
        let ghost before = *old(self);
        let child_idx = self.groups.len();
        self.groups[gi].children.push(ChildRef::GroupChild(child_idx as u32));
        self.groups.push(GroupNode { children: Vec::new(), parent: gi as u32, name: name_idx });
        proof {
            assert(self.groups@[gi as int].children@ == before.groups@[gi as int].children@.push(
                ChildRef::GroupChild(child_idx as u32),
            ));
            assert(before.extended_by(*self));
            assert forall|g2: int, c2: int|
                0 <= g2 < self.groups@.len() && 0 <= c2
                    < self.groups@[g2].children@.len() implies self.child_ok(
                g2,
                #[trigger] self.groups@[g2].children@[c2],
            ) by {
                if g2 == gi as int && c2 == self.groups@[g2].children@.len() - 1 {
                    assert(self.groups@[child_idx as int].parent == gi);
                } else if g2 == child_idx as int {
                    assert(self.groups@[g2].children@.len() == 0);
                } else {
                    assert(self.groups@[g2].children@[c2] == before.groups@[g2].children@[c2]);
                    assert(before.child_ok(g2, before.groups@[g2].children@[c2]));
                }
            }
            assert forall|ti: int| 0 <= ti < self.tests@.len() implies self.groups@[(
            #[trigger] self.tests@[ti]).parent as int].children@.contains(
                ChildRef::TestChild(ti as u32),
            ) by {
                let pa = self.tests@[ti].parent as int;
                assert(before.groups@[pa].children@.contains(ChildRef::TestChild(ti as u32)));
                let cc = choose|cc: int|
                    0 <= cc < before.groups@[pa].children@.len() && before.groups@[pa].children@[cc]
                        == ChildRef::TestChild(ti as u32);
                assert(self.groups@[pa].children@[cc] == ChildRef::TestChild(ti as u32));
            }
            assert forall|g2: int| 1 <= g2 < self.groups@.len() implies self.groups@[(
            #[trigger] self.groups@[g2]).parent as int].children@.contains(
                ChildRef::GroupChild(g2 as u32),
            ) by {
                if g2 == child_idx as int {
                    assert(self.groups@[gi as int].children@.last() == ChildRef::GroupChild(
                        child_idx as u32,
                    ));
                } else {
                    let pa = self.groups@[g2].parent as int;
                    assert(before.groups@[pa].children@.contains(ChildRef::GroupChild(g2 as u32)));
                    let cc = choose|cc: int|
                        0 <= cc < before.groups@[pa].children@.len()
                            && before.groups@[pa].children@[cc] == ChildRef::GroupChild(g2 as u32);
                    assert(self.groups@[pa].children@[cc] == ChildRef::GroupChild(g2 as u32));
                }
            }
            assert forall|g2: int, c1: int, c2: int|
                0 <= g2 < self.groups@.len() && 0 <= c1 < self.groups@[g2].children@.len() && 0
                    <= c2 < self.groups@[g2].children@.len() && c1 != c2 implies self.child_name(
                #[trigger] self.groups@[g2].children@[c1],
            ) != self.child_name(#[trigger] self.groups@[g2].children@[c2]) by {
                let old_len = before.groups@[gi as int].children@.len() as int;
                if g2 == gi as int && (c1 == old_len || c2 == old_len) {
                    let co = if c1 == old_len {
                        c2
                    } else {
                        c1
                    };
                    assert(self.groups@[g2].children@[co] == before.groups@[g2].children@[co]);
                    assert(before.child_name(before.groups@[g2].children@[co]) != name_idx);
                    assert(self.child_name(self.groups@[g2].children@[co]) == before.child_name(
                        before.groups@[g2].children@[co],
                    ));
                    assert(self.child_name(ChildRef::GroupChild(child_idx as u32)) == name_idx);
                } else {
                    assert(self.groups@[g2].children@[c1] == before.groups@[g2].children@[c1]);
                    assert(self.groups@[g2].children@[c2] == before.groups@[g2].children@[c2]);
                    assert(before.child_name(before.groups@[g2].children@[c1])
                        != before.child_name(before.groups@[g2].children@[c2]));
                }
            }
            assert(self.wf());
            before.lemma_view_stable(*self);
            assert forall|g2: int| 0 <= g2 < before.groups@.len() implies self.group_path(g2)
                == before.group_path(g2) by {
                before.lemma_group_path_stable(*self, g2);
            }
            assert(self.group_path(child_idx as int) == self.group_path(gi as int).push(
                self.name_at(name_idx),
            ));
        }
        child_idx
    }

    /// Append a fresh test named `name_idx` under `gi`.
    #[verifier::rlimit(100)]
    fn create_test(&mut self, gi: usize, name_idx: Idx) -> (t: usize)
        requires
            old(self).wf(),
            (gi as int) < old(self).groups@.len(),
            1 <= name_idx.spec_val() < old(self).name_pool@.len(),
            forall|ci: int|
                0 <= ci < old(self).groups@[gi as int].children@.len() ==> old(self).child_name(
                    #[trigger] old(self).groups@[gi as int].children@[ci],
                ) != name_idx,
            old(self).tests@.len() + 1 < 0x80000000,
        ensures
            final(self).wf(),
            t == old(self).tests@.len(),
            final(self).separator == old(self).separator,
            final(self).name_pool == old(self).name_pool,
            final(self).groups@.len() == old(self).groups@.len(),
            final(self)@ == old(self)@.push(
                old(self).group_path(gi as int).push(old(self).name_at(name_idx)),
            ),
    {
        let ghost before = *old(self);
        let test_idx = self.tests.len();
        self.groups[gi].children.push(ChildRef::TestChild(test_idx as u32));
        self.tests.push(TestNode { parent: gi as u32, name: name_idx });
        proof {
            assert(self.groups@[gi as int].children@ == before.groups@[gi as int].children@.push(
                ChildRef::TestChild(test_idx as u32),
            ));
            assert forall|g2: int, c2: int|
                0 <= g2 < self.groups@.len() && 0 <= c2
                    < self.groups@[g2].children@.len() implies self.child_ok(
                g2,
                #[trigger] self.groups@[g2].children@[c2],
            ) by {
                if g2 == gi as int && c2 == self.groups@[g2].children@.len() - 1 {
                    assert(self.tests@[test_idx as int].parent == gi);
                } else {
                    assert(self.groups@[g2].children@[c2] == before.groups@[g2].children@[c2]);
                    assert(before.child_ok(g2, before.groups@[g2].children@[c2]));
                }
            }
            assert forall|ti: int| 0 <= ti < self.tests@.len() implies self.groups@[(
            #[trigger] self.tests@[ti]).parent as int].children@.contains(
                ChildRef::TestChild(ti as u32),
            ) by {
                if ti == test_idx as int {
                    assert(self.groups@[gi as int].children@.last() == ChildRef::TestChild(
                        test_idx as u32,
                    ));
                } else {
                    let pa = self.tests@[ti].parent as int;
                    assert(before.groups@[pa].children@.contains(ChildRef::TestChild(ti as u32)));
                    let cc = choose|cc: int|
                        0 <= cc < before.groups@[pa].children@.len()
                            && before.groups@[pa].children@[cc] == ChildRef::TestChild(ti as u32);
                    assert(self.groups@[pa].children@[cc] == ChildRef::TestChild(ti as u32));
                }
            }
            assert forall|g2: int| 1 <= g2 < self.groups@.len() implies self.groups@[(
            #[trigger] self.groups@[g2]).parent as int].children@.contains(
                ChildRef::GroupChild(g2 as u32),
            ) by {
                let pa = self.groups@[g2].parent as int;
                assert(before.groups@[pa].children@.contains(ChildRef::GroupChild(g2 as u32)));
                let cc = choose|cc: int|
                    0 <= cc < before.groups@[pa].children@.len() && before.groups@[pa].children@[cc]
                        == ChildRef::GroupChild(g2 as u32);
                assert(self.groups@[pa].children@[cc] == ChildRef::GroupChild(g2 as u32));
            }
            assert forall|g2: int, c1: int, c2: int|
                0 <= g2 < self.groups@.len() && 0 <= c1 < self.groups@[g2].children@.len() && 0
                    <= c2 < self.groups@[g2].children@.len() && c1 != c2 implies self.child_name(
                #[trigger] self.groups@[g2].children@[c1],
            ) != self.child_name(#[trigger] self.groups@[g2].children@[c2]) by {
                let old_len = before.groups@[gi as int].children@.len() as int;
                if g2 == gi as int && (c1 == old_len || c2 == old_len) {
                    let co = if c1 == old_len {
                        c2
                    } else {
                        c1
                    };
                    assert(self.groups@[g2].children@[co] == before.groups@[g2].children@[co]);
                    assert(before.child_name(before.groups@[g2].children@[co]) != name_idx);
                    assert(self.child_name(self.groups@[g2].children@[co]) == before.child_name(
                        before.groups@[g2].children@[co],
                    ));
                    assert(self.child_name(ChildRef::TestChild(test_idx as u32)) == name_idx);
                } else {
                    assert(self.groups@[g2].children@[c1] == before.groups@[g2].children@[c1]);
                    assert(self.groups@[g2].children@[c2] == before.groups@[g2].children@[c2]);
                    assert(before.child_name(before.groups@[g2].children@[c1])
                        != before.child_name(before.groups@[g2].children@[c2]));
                }
            }
            assert(self.wf());
            assert forall|ti: int| 0 <= ti < before.tests@.len() implies self.test_path(ti)
                == before.test_path(ti) by {
                assert(self.tests@[ti] == before.tests@[ti]);
                self.lemma_gp_same(before, before.tests@[ti].parent as int);
            }
            self.lemma_gp_same(before, gi as int);
            assert(self.test_path(test_idx as int) == self.group_path(gi as int).push(
                self.name_at(name_idx),
            ));
            assert(self@ =~= before@.push(before.group_path(gi as int).push(
                before.name_at(name_idx),
            )));
        }
        test_idx
    }

    /// Group paths agree between two suites with identical group parent and
    /// name data and identical pools.
    proof fn lemma_gp_same(self, other: Suite, gi: int)
        requires
            self.groups@.len() == other.groups@.len(),
            forall|g: int|
                0 <= g < self.groups@.len() ==> (#[trigger] self.groups@[g]).parent
                    == other.groups@[g].parent && self.groups@[g].name == other.groups@[g].name,
            self.name_pool == other.name_pool,
            self.group_parents_ok(),
            other.group_parents_ok(),
            0 <= gi < self.groups@.len(),
        ensures
            self.group_path(gi) == other.group_path(gi),
        decreases gi,
    {
        if gi != 0 {
            self.lemma_gp_same(other, self.groups@[gi].parent as int);
        }
    }

    /// If interning a segment overflowed the pool, the room condition for
    /// the whole path cannot have held.
    proof fn lemma_pool_err_no_room(pre: Suite, cur: Suite, p: Seq<char>, segs: Seq<Seq<char>>, level: int)
        requires
            pre.wf(),
            cur.wf(),
            segs == split_path(p, pre.spec_separator()),
            join_path(segs, pre.spec_separator()) == p,
            pre.spec_separator().len() > 0,
            0 <= level < segs.len(),
            cur.spec_pool_count() <= pre.spec_pool_count() + level,
            cur.spec_pool_bytes() <= pre.spec_pool_bytes() + sum_enc(segs.take(level)),
            cur.name_pool.put_overflows(segs[level]),
        ensures
            !put_room(pre, p),
    {
        if put_room(pre, p) {
            pre.name_pool.lemma_cap_bound();
            cur.name_pool.lemma_cap_bound();
            lemma_sum_enc_prefix(segs, level);
            lemma_sum_enc_take(segs, level);
            lemma_sum_enc_prefix(segs, level + 1);
            lemma_sum_enc_join(segs, pre.spec_separator());
            lemma_split_count(p, pre.spec_separator());
            let e = vstd::utf8::encode_utf8(segs[level]).len() as int;
            assert(sum_enc(segs.take(level)) + e == sum_enc(segs.take(level + 1)));
            assert(sum_enc(segs.take(level + 1)) <= sum_enc(segs));
            assert(sum_enc(segs) <= vstd::utf8::encode_utf8(p).len());
            assert(cur.spec_pool_bytes() + e <= pre.spec_pool_bytes() + vstd::utf8::encode_utf8(
                p,
            ).len());
            assert(segs.len() <= p.len() + 1);
            assert(cur.spec_pool_count() <= pre.spec_pool_count() + p.len());
            assert(cur.name_pool.spec_cap() <= usize::MAX as int / 4) by {
                cur.name_pool.lemma_cap_bound();
                assert(8 * (pre.spec_pool_count() + p.len()) < usize::MAX as int / 4);
                assert(1024 <= usize::MAX as int / 4);
            }
            assert(false);
        }
    }

    /// Register the test named by `test`, splitting it on the separator.
    ///
    /// A path naming an existing test is returned idempotently; an empty
    /// segment, or a collision with an existing test or group, is an error;
    /// otherwise missing groups are created along the way and the test is
    /// appended. An error never changes the set of registered tests.
    #[verifier::rlimit(100)]
    pub fn put(&mut self, test: &str) -> (r: Result<TestRef, Error>)
        requires
            old(self).wf(),
        ensures
            final(self).wf(),
            final(self).spec_separator() == old(self).spec_separator(),
            suite_put_spec(*old(self), *final(self), test@, r),
            final(self).spec_pool_bytes() <= old(self).spec_pool_bytes()
                + vstd::utf8::encode_utf8(test@).len(),
            final(self).spec_pool_count() <= old(self).spec_pool_count() + test@.len() + 1,
            final(self).spec_num_groups() <= old(self).spec_num_groups() + test@.len() + 1,
            final(self).spec_num_tests() <= old(self).spec_num_tests() + 1,
    {
        let ghost pre = *old(self);
        let ghost sepv = pre.spec_separator();
        let ghost segs = split_path(test@, sepv);
        proof {
            lemma_split_join(test@, sepv);
            lemma_split_count(test@, sepv);
            pre.name_pool.lemma_view_props();
        }
        let seg_vec = split_all(test, self.separator.as_str());
        let n = seg_vec.len();
        let mut gi: usize = 0;
        let mut level: usize = 0;
        proof {
            assert(self.group_path(0) =~= segs.take(0));
            lemma_sum_enc_prefix(segs, 0);
            lemma_sum_enc_join(segs, sepv);
        }
        while level + 1 < n
            invariant
                pre == *old(self),
                pre.wf(),
                self.wf(),
                sepv == pre.spec_separator(),
                segs == split_path(test@, sepv),
                join_path(segs, sepv) == test@,
                n == segs.len(),
                n == seg_vec@.len(),
                n >= 1,
                forall|i: int| 0 <= i < n ==> (#[trigger] seg_vec@[i])@ == segs[i],
                self.separator == pre.separator,
                pre.extended_by(*self),
                self@ == pre@,
                0 <= level < n,
                gi < self.groups@.len(),
                self.group_path(gi as int) == segs.take(level as int),
                forall|g2: int|
                    pre.groups@.len() <= g2 < self.groups@.len() ==> (#[trigger] self.group_path(
                        g2,
                    )).len() <= level,
                *self == pre || !pre.has_test_path(segs),
                forall|j: int| 1 <= j <= level ==> !pre.has_test_path(#[trigger] segs.take(j)),
                forall|j: int| 0 <= j < level ==> (#[trigger] segs[j]).len() > 0,
                self.spec_pool_count() <= pre.spec_pool_count() + level,
                self.spec_pool_bytes() <= pre.spec_pool_bytes() + sum_enc(segs.take(level as int)),
                self.groups@.len() <= pre.groups@.len() + level,
                n <= test@.len() + 1,
                sum_enc(segs.take(level as int)) >= 0,
                sum_enc(segs.take(level as int)) <= vstd::utf8::encode_utf8(test@).len(),
            decreases n - level,
        {
            let ghost cur = *self;
            if seg_vec[level].as_str().is_empty() {
                proof {
                    assert(segs[level as int].len() == 0);
                    assert(seg_empty_err(segs));
                    if pre.has_test_path(segs) {
                        let ti = choose|ti: int| 0 <= ti < pre@.len() && pre@[ti] == segs;
                        pre.lemma_test_path_elems_nonempty(ti);
                        assert(pre.test_path(ti)[level as int].len() > 0);
                        assert(false);
                    }
                }
                return Err(Error::new(String::from_str("empty group name")));
            }
            let put_res = self.name_pool.put(seg_vec[level].as_str());
            let name_idx = match put_res {
                Ok(h) => h.1,
                Err(e) => {
                    proof {
                        assert(put_spec(cur.name_pool, self.name_pool, segs[level as int], put_res));
                        assert(*self == cur);
                        if pre.has_test_path(segs) {
                            pre.lemma_present_structure(segs);
                            let i = choose|i: int|
                                0 <= i < pre.name_pool@.len() && pre.name_pool@[i] == segs[level as int];
                            assert(cur.name_pool@[i] == segs[level as int]);
                            assert(cur.name_pool.contains_str(segs[level as int]));
                            assert(false);
                        }
                        assert(cur.name_pool.put_overflows(segs[level as int]));
                        Self::lemma_pool_err_no_room(pre, cur, test@, segs, level as int);
                    }
                    return Err(e);
                },
            };
            proof {
                assert(put_spec(cur.name_pool, self.name_pool, segs[level as int], put_res));
                assert(cur.extended_by(*self));
                cur.lemma_view_stable(*self);
                Self::lemma_extended_trans(pre, cur, *self);
                assert(self@ == pre@);
                cur.name_pool.lemma_view_props();
                self.name_pool.lemma_view_props();
                assert(1 <= name_idx.spec_val() < self.name_pool@.len());
                assert(self.name_at(name_idx) == segs[level as int]);
                if cur.name_pool != self.name_pool {
                    if pre.has_test_path(segs) {
                        pre.lemma_present_structure(segs);
                        let i = choose|i: int|
                            0 <= i < pre.name_pool@.len() && pre.name_pool@[i] == segs[level as int];
                        assert(cur.name_pool@[i] == segs[level as int]);
                        assert(cur.name_pool.contains_str(segs[level as int]));
                        assert(false);
                    }
                }
                assert(self.group_path(gi as int) == segs.take(level as int)) by {
                    cur.lemma_group_path_stable(*self, gi as int);
                }
                assert forall|g2: int|
                    pre.groups@.len() <= g2 < self.groups@.len() implies (#[trigger] self.group_path(
                    g2,
                )).len() <= level by {
                    cur.lemma_group_path_stable(*self, g2);
                }
                lemma_sum_enc_take(segs, level as int);
                lemma_sum_enc_prefix(segs, level + 1);
                lemma_sum_enc_join(segs, sepv);
                assert(self.spec_pool_bytes() <= pre.spec_pool_bytes()
                    + vstd::utf8::encode_utf8(test@).len());
                assert(self.spec_pool_count() <= pre.spec_pool_count() + test@.len() + 1);
            }
            let scan = self.scan_children(gi, name_idx);
            match scan {
                ScanResult::FoundTest(t) => {
                    proof {
                        assert(self.test_path(t as int) == self.group_path(gi as int).push(
                            self.name_at(name_idx),
                        ));
                        assert(self.test_path(t as int) =~= segs.take(level + 1));
                        assert(self@[t as int] == segs.take(level + 1));
                        assert(pre@[t as int] == segs.take(level + 1));
                        assert(1 <= level + 1 < segs.len());
                        assert(prefix_test_conflict(pre, segs));
                        if pre.has_test_path(segs) {
                            pre.lemma_present_structure(segs);
                            assert(pre.has_group_path(segs.take(level + 1)));
                            pre.lemma_no_test_and_group(segs.take(level + 1));
                            assert(false);
                        }
                    }
                    return Err(Error::new(String::from_str("conflict with an existing test")));
                },
                ScanResult::FoundGroup(g) => {
                    proof {
                        assert(self.group_path(g as int) == self.group_path(gi as int).push(
                            self.name_at(name_idx),
                        ));
                        assert(self.group_path(g as int) =~= segs.take(level + 1));
                        assert(self.group_path(g as int).len() == level + 1);
                        assert((g as int) < pre.groups@.len());
                        if pre.has_test_path(segs.take(level + 1)) {
                            assert(pre.group_path(g as int) == self.group_path(g as int)) by {
                                pre.lemma_group_path_stable(*self, g as int);
                            }
                            assert(pre.has_group_path(segs.take(level + 1)));
                            pre.lemma_no_test_and_group(segs.take(level + 1));
                            assert(false);
                        }
                    }
                    gi = g as usize;
                },
                ScanResult::NotFound => {
                    proof {
                        self.lemma_scan_complete(gi as int, name_idx);
                        assert(self.group_path(gi as int).push(self.name_at(name_idx)) =~= segs.take(
                            level + 1,
                        ));
                        assert(!self.has_test_path(segs.take(level + 1)));
                        assert(!self.has_group_path(segs.take(level + 1)));
                        assert(!pre.has_test_path(segs.take(level + 1)));
                        if pre.has_test_path(segs) {
                            pre.lemma_present_structure(segs);
                            let g2 = choose|g2: int|
                                0 <= g2 < pre.groups@.len() && pre.group_path(g2) == segs.take(
                                    level + 1,
                                );
                            assert(self.group_path(g2) == segs.take(level + 1)) by {
                                pre.lemma_group_path_stable(*self, g2);
                            }
                            assert(self.has_group_path(segs.take(level + 1)));
                            assert(false);
                        }
                    }
                    if self.groups.len() >= 0x7FFFFFFE {
                        proof {
                            assert(!put_room(pre, test@)) by {
                                if put_room(pre, test@) {
                                    lemma_split_count(test@, sepv);
                                    assert(false);
                                }
                            }
                        }
                        return Err(Error::new(String::from_str("Suite: too many groups")));
                    }
                    let ghost before = *self;
                    let g = self.create_group(gi, name_idx);
                    proof {
                        Self::lemma_extended_trans(pre, before, *self);
                        assert(self@ == pre@);
                        assert(self.group_path(g as int) =~= segs.take(level + 1));
                        assert forall|g2: int|
                            pre.groups@.len() <= g2 < self.groups@.len() implies (
                        #[trigger] self.group_path(g2)).len() <= level + 1 by {
                            if g2 == g as int {
                            } else {
                                assert(self.group_path(g2) == before.group_path(g2));
                            }
                        }
                    }
                    gi = g;
                },
            }
            level = level + 1;
            proof {
                lemma_sum_enc_take(segs, level - 1);
                lemma_sum_enc_prefix(segs, level - 1);
                lemma_sum_enc_prefix(segs, level as int);
                lemma_sum_enc_join(segs, sepv);
            }
        }
        // terminal segment
        let ghost cur = *self;
        if seg_vec[level].as_str().is_empty() {
            proof {
                assert(segs[level as int].len() == 0);
                assert(seg_empty_err(segs));
                if pre.has_test_path(segs) {
                    let ti = choose|ti: int| 0 <= ti < pre@.len() && pre@[ti] == segs;
                    pre.lemma_test_path_elems_nonempty(ti);
                    assert(pre.test_path(ti)[level as int].len() > 0);
                    assert(false);
                }
            }
            return Err(Error::new(String::from_str("empty test name")));
        }
        let put_res = self.name_pool.put(seg_vec[level].as_str());
        let name_idx = match put_res {
            Ok(h) => h.1,
            Err(e) => {
                proof {
                    assert(put_spec(cur.name_pool, self.name_pool, segs[level as int], put_res));
                    assert(*self == cur);
                    if pre.has_test_path(segs) {
                        pre.lemma_present_structure(segs);
                        let i = choose|i: int|
                            0 <= i < pre.name_pool@.len() && pre.name_pool@[i] == segs[level as int];
                        assert(cur.name_pool@[i] == segs[level as int]);
                        assert(cur.name_pool.contains_str(segs[level as int]));
                        assert(false);
                    }
                    assert(cur.name_pool.put_overflows(segs[level as int]));
                    Self::lemma_pool_err_no_room(pre, cur, test@, segs, level as int);
                }
                return Err(e);
            },
        };
        proof {
            assert(put_spec(cur.name_pool, self.name_pool, segs[level as int], put_res));
            assert(cur.extended_by(*self));
            cur.lemma_view_stable(*self);
            Self::lemma_extended_trans(pre, cur, *self);
            assert(self@ == pre@);
            cur.name_pool.lemma_view_props();
            self.name_pool.lemma_view_props();
            assert(1 <= name_idx.spec_val() < self.name_pool@.len());
            assert(self.name_at(name_idx) == segs[level as int]);
            if cur.name_pool != self.name_pool {
                if pre.has_test_path(segs) {
                    pre.lemma_present_structure(segs);
                    let i = choose|i: int|
                        0 <= i < pre.name_pool@.len() && pre.name_pool@[i] == segs[level as int];
                    assert(cur.name_pool@[i] == segs[level as int]);
                    assert(cur.name_pool.contains_str(segs[level as int]));
                    assert(false);
                }
            }
            assert(self.group_path(gi as int) == segs.take(level as int)) by {
                cur.lemma_group_path_stable(*self, gi as int);
            }
            // the terminal segment's bytes keep the pool within the whole
            // path's encoding
            lemma_sum_enc_take(segs, level as int);
            lemma_sum_enc_prefix(segs, level + 1);
            lemma_sum_enc_join(segs, sepv);
            assert(self.spec_pool_bytes() <= pre.spec_pool_bytes() + vstd::utf8::encode_utf8(
                test@,
            ).len());
            assert(self.spec_pool_count() <= pre.spec_pool_count() + test@.len() + 1);
        }
        let scan = self.scan_children(gi, name_idx);
        match scan {
            ScanResult::FoundTest(t) => {
                proof {
                    assert(self.test_path(t as int) == self.group_path(gi as int).push(
                        self.name_at(name_idx),
                    ));
                    assert(self.test_path(t as int) =~= segs);
                    assert(self@[t as int] == segs);
                    assert(pre@[t as int] == segs);
                    assert(pre.has_test_path(segs));
                    assert(*self == pre);
                }
                Ok(TestRef { id: t })
            },
            ScanResult::FoundGroup(g) => {
                proof {
                    assert(self.group_path(g as int) == self.group_path(gi as int).push(
                        self.name_at(name_idx),
                    ));
                    assert(self.group_path(g as int) =~= segs);
                    assert((g as int) < pre.groups@.len()) by {
                        if (g as int) >= pre.groups@.len() {
                            assert(self.group_path(g as int).len() <= level);
                            assert(false);
                        }
                    }
                    assert(pre.group_path(g as int) == self.group_path(g as int)) by {
                        pre.lemma_group_path_stable(*self, g as int);
                    }
                    assert(pre.has_group_path(segs));
                    if pre.has_test_path(segs) {
                        pre.lemma_no_test_and_group(segs);
                        assert(false);
                    }
                }
                Err(Error::new(String::from_str("conflict with an existing test")))
            },
            ScanResult::NotFound => {
                proof {
                    self.lemma_scan_complete(gi as int, name_idx);
                    assert(self.group_path(gi as int).push(self.name_at(name_idx)) =~= segs);
                    assert(!self.has_test_path(segs));
                    assert(!pre.has_test_path(segs));
                    assert(!self.has_group_path(segs));
                    if pre.has_group_path(segs) {
                        let g2 = choose|g2: int|
                            0 <= g2 < pre.groups@.len() && pre.group_path(g2) == segs;
                        assert(self.group_path(g2) == segs) by {
                            pre.lemma_group_path_stable(*self, g2);
                        }
                        assert(false);
                    }
                }
                if self.tests.len() >= 0x7FFFFFFF {
                    proof {
                        assert(!put_room(pre, test@)) by {
                            if put_room(pre, test@) {
                                assert(self.tests@ == pre.tests@);
                                assert(false);
                            }
                        }
                    }
                    return Err(Error::new(String::from_str("Suite: too many tests")));
                }
                let ghost before = *self;
                let t = self.create_test(gi, name_idx);
                proof {
                    assert(before.group_path(gi as int).push(before.name_at(name_idx)) =~= segs);
                    assert(self@ =~= pre@.push(segs));
                }
                Ok(TestRef { id: t as u32 })
            },
        }
    }
}


impl Suite {
    /// Distinct registered tests have distinct paths.
    pub proof fn lemma_paths_unique(self)
        requires
            self.wf(),
        ensures
            forall|i: int, j: int|
                0 <= i < self@.len() && 0 <= j < self@.len() && self@[i] == self@[j] ==> i == j,
    {
        assert forall|i: int, j: int|
            0 <= i < self@.len() && 0 <= j < self@.len() && self@[i] == self@[j] implies i == j by {
            self.lemma_test_path_unique(i, j);
        }
    }
}

/// Law: registering the same path twice in a row returns the same handle
/// both times, and the second call changes nothing.
pub proof fn lemma_suite_put_idempotent(
    pre: Suite,
    s1: Suite,
    s2: Suite,
    p: Seq<char>,
    r1: Result<TestRef, Error>,
    r2: Result<TestRef, Error>,
)
    requires
        pre.wf(),
        s1.wf(),
        s1.spec_separator() == pre.spec_separator(),
        suite_put_spec(pre, s1, p, r1),
        suite_put_spec(s1, s2, p, r2),
        r1 is Ok,
    ensures
        s2 == s1,
        r2 is Ok,
        r1 matches Ok(t1) && r2 matches Ok(t2) && t1 == t2,
{
    let segs = split_path(p, pre.spec_separator());
    let t1 = r1->Ok_0;
    s1.lemma_paths_unique();
    if pre.has_test_path(segs) {
        assert(s1 == pre);
        assert(s1@[t1.spec_id() as int] == segs);
        assert(s1.has_test_path(segs));
        let t2 = r2->Ok_0;
        assert(s1@[t2.spec_id() as int] == segs);
        assert(t1.spec_id() == t2.spec_id());
        TestRef::lemma_id_injective(t1, t2);
    } else {
        assert(s1@ == pre@.push(segs));
        assert(s1@[pre@.len() as int] == segs);
        assert(s1.has_test_path(segs));
        let t2 = r2->Ok_0;
        assert(s1@[t2.spec_id() as int] == segs);
        assert(t2.spec_id() == pre@.len());
        assert(t1.spec_id() == pre@.len());
        TestRef::lemma_id_injective(t1, t2);
    }
}

/// Law: a strict prefix of a registered test is always refused. If some
/// test's path extends `segs` (a non-empty strict prefix of it), then
/// registering the path that splits into `segs` fails: the prefix names a
/// group, and a group's path can neither be a test nor be registered as
/// one.
pub proof fn lemma_put_prefix_refused(
    pre: Suite,
    post: Suite,
    p: Seq<char>,
    long: Seq<Seq<char>>,
    m: int,
    r: Result<TestRef, Error>,
)
    requires
        pre.wf(),
        pre.has_test_path(long),
        1 <= m < long.len(),
        split_path(p, pre.spec_separator()) == long.take(m),
        suite_put_spec(pre, post, p, r),
    ensures
        r is Err,
{
    let segs = split_path(p, pre.spec_separator());
    pre.lemma_test_prefixes_are_groups(long);
    assert(pre.has_group_path(segs));
    if r is Ok {
        if pre.has_test_path(segs) {
            pre.lemma_no_test_and_group(segs);
            assert(false);
        } else {
            assert(!pre.has_group_path(segs));
            assert(false);
        }
    }
}

/// Law: the path handed to a successful `put` is exactly what `get_name`
/// reconstructs for the returned handle.
pub proof fn lemma_put_get_name_roundtrip(pre: Suite, post: Suite, p: Seq<char>, t: TestRef)
    requires
        pre.wf(),
        post.wf(),
        post.spec_separator() == pre.spec_separator(),
        suite_put_spec(pre, post, p, Ok(t)),
    ensures
        t.spec_id() < post@.len(),
        join_path(post@[t.spec_id() as int], post.spec_separator()) == p,
{
    let segs = split_path(p, pre.spec_separator());
    lemma_split_join(p, pre.spec_separator());
    if pre.has_test_path(segs) {
        assert(post == pre);
        assert(post@[t.spec_id() as int] == segs);
    } else {
        assert(post@ == pre@.push(segs));
        assert(post@[t.spec_id() as int] == segs);
    }
}

impl View for Suite {
    /// The paths of the registered tests, in registration order; each path
    /// is the list of its segments, root-most first.
    type V = Seq<Seq<Seq<char>>>;

    closed spec fn view(&self) -> Seq<Seq<Seq<char>>> {
        Seq::new(self.tests@.len(), |ti: int| self.test_path(ti))
    }
}


/// How often `v` occurs in `q`.
pub open spec fn count_in(q: Seq<u32>, v: u32) -> int
    decreases q.len(),
{
    if q.len() == 0 {
        0
    } else {
        (if q[0] == v {
            1int
        } else {
            0int
        }) + count_in(q.drop_first(), v)
    }
}

proof fn lemma_count_in_take(q: Seq<u32>, v: u32, j: int)
    requires
        0 <= j < q.len(),
    ensures
        count_in(q.take(j + 1), v) == count_in(q.take(j), v) + (if q[j] == v {
            1int
        } else {
            0int
        }),
    decreases j,
{
    if j == 0 {
        assert(q.take(0) =~= Seq::<u32>::empty());
        assert(q.take(1) =~= seq![q[0]]);
        assert(seq![q[0]].drop_first() =~= Seq::<u32>::empty());
    } else {
        lemma_count_in_take(q.drop_first(), v, j - 1);
        assert(q.take(j + 1).drop_first() =~= q.drop_first().take(j));
        assert(q.take(j).drop_first() =~= q.drop_first().take(j - 1));
        assert(q.take(j + 1)[0] == q[0]);
        assert(q.take(j)[0] == q[0]);
        assert(q.drop_first()[j - 1] == q[j]);
    }
}

proof fn lemma_count_in_bounds(q: Seq<u32>, v: u32)
    ensures
        0 <= count_in(q, v) <= q.len(),
    decreases q.len(),
{
    if q.len() > 0 {
        lemma_count_in_bounds(q.drop_first(), v);
    }
}

impl Suite {
    /// The name indices along a group's path, leaf-most first.
    pub closed spec fn group_name_indices(self, gi: int) -> Seq<u32>
        decreases gi,
        when self.group_path_dom(gi)
    {
        if gi == 0 {
            Seq::empty()
        } else {
            seq![self.groups@[gi].name.spec_val()] + self.group_name_indices(
                self.groups@[gi].parent as int,
            )
        }
    }

    /// The name indices along a test's path, leaf-most first.
    pub closed spec fn test_name_indices(self, ti: int) -> Seq<u32> {
        seq![self.tests@[ti].name.spec_val()] + self.group_name_indices(
            self.tests@[ti].parent as int,
        )
    }

    proof fn lemma_gni_len(self, gi: int)
        requires
            self.wf(),
            0 <= gi < self.groups@.len(),
        ensures
            self.group_name_indices(gi).len() <= gi,
            forall|j: int|
                0 <= j < self.group_name_indices(gi).len() ==> 1 <= (
                #[trigger] self.group_name_indices(gi)[j]) < self.name_pool@.len(),
        decreases gi,
    {
        if gi != 0 {
            self.lemma_gni_len(self.groups@[gi].parent as int);
        }
    }

    /// Bounds on a test's name indices.
    proof fn lemma_tni_bounds(self, ti: int)
        requires
            self.wf(),
            0 <= ti < self@.len(),
        ensures
            1 <= self.test_name_indices(ti).len() <= self.spec_num_groups(),
            forall|j: int|
                0 <= j < self.test_name_indices(ti).len() ==> 1 <= (
                #[trigger] self.test_name_indices(ti)[j]) < self.name_pool@.len(),
    {
        self.lemma_gni_len(self.tests@[ti].parent as int);
    }

    /// Collect a test's name indices, leaf-most first.
    fn name_indices_of_test(&self, ti: usize) -> (r: Vec<Idx>)
        requires
            self.wf(),
            (ti as int) < self@.len(),
        ensures
            r@.len() == self.test_name_indices(ti as int).len(),
            forall|j: int|
                0 <= j < r@.len() ==> (#[trigger] r@[j]).spec_val() == self.test_name_indices(
                    ti as int,
                )[j],
            forall|j: int|
                0 <= j < r@.len() ==> 1 <= (#[trigger] r@[j]).spec_val() < self.name_pool@.len(),
    {
        proof {
            self.lemma_tni_bounds(ti as int);
        }
        let ghost q = self.test_name_indices(ti as int);
        let mut r: Vec<Idx> = Vec::new();
        r.push(self.tests[ti].name);
        let mut gi: usize = self.tests[ti].parent as usize;
        proof {
            assert(Seq::new(r@.len(), |j: int| r@[j].spec_val()) =~= q.take(1));
            assert(q =~= q.take(1) + self.group_name_indices(gi as int));
        }
        while gi != 0
            invariant
                self.wf(),
                0 <= gi < self.groups@.len(),
                q == self.test_name_indices(ti as int),
                1 <= r@.len() <= q.len(),
                Seq::new(r@.len(), |j: int| r@[j].spec_val()) == q.take(r@.len() as int),
                q == q.take(r@.len() as int) + self.group_name_indices(gi as int),
            decreases gi,
        {
            let ghost r0 = r@;
            r.push(self.groups[gi].name);
            proof {
                assert(self.group_name_indices(gi as int) == seq![
                    self.groups@[gi as int].name.spec_val(),
                ] + self.group_name_indices(self.groups@[gi as int].parent as int));
                assert(q[r0.len() as int] == self.groups@[gi as int].name.spec_val());
                assert(Seq::new(r@.len(), |j: int| r@[j].spec_val()) =~= q.take(r@.len() as int));
                assert(q =~= q.take(r@.len() as int) + self.group_name_indices(
                    self.groups@[gi as int].parent as int,
                ));
            }
            gi = self.groups[gi].parent as usize;
        }
        proof {
            assert(self.group_name_indices(0).len() == 0);
            assert(q =~= q.take(r@.len() as int));
            assert(r@.len() == q.len());
            assert forall|j: int| 0 <= j < r@.len() implies (#[trigger] r@[j]).spec_val() == q[j] by {
                assert(Seq::new(r@.len(), |jj: int| r@[jj].spec_val())[j] == q.take(r@.len() as int)[j]);
            }
            self.lemma_tni_bounds(ti as int);
        }
        r
    }
}

/// The number of tests, among the first `t`, weighted by how often each
/// contains name `v`.
pub open spec fn freq_through(s: Suite, v: u32, t: int) -> int
    decreases t,
{
    if t <= 0 {
        0
    } else {
        freq_through(s, v, t - 1) + count_in(s.test_name_indices(t - 1), v)
    }
}

/// How often name `v` appears across all registered tests' paths.
pub open spec fn spec_freq(s: Suite, v: u32) -> int {
    freq_through(s, v, s.spec_num_tests())
}

/// One fixed-point reciprocal term: `2^32 / f`.
pub open spec fn recip_term(f: int) -> int {
    if f > 0 {
        0x100000000int / f
    } else {
        0
    }
}

/// The sum of reciprocal name frequencies over the first `j` names.
pub open spec fn recip_sum_through(s: Suite, q: Seq<u32>, j: int) -> int
    decreases j,
{
    if j <= 0 {
        0
    } else {
        recip_sum_through(s, q, j - 1) + recip_term(spec_freq(s, q[j - 1]))
    }
}

/// Clamp a fixed-point weight to `2^32` (the weight of `1.0`).
pub open spec fn clamp_w(x: int) -> int {
    if x > 0x100000000 {
        0x100000000int
    } else {
        x
    }
}

/// A test's sampling weight: the clamped sum of its names' reciprocal
/// frequencies, in 32-bit fixed point.
pub open spec fn spec_test_weight(s: Suite, ti: int) -> int {
    clamp_w(
        recip_sum_through(s, s.test_name_indices(ti), s.test_name_indices(ti).len() as int),
    )
}

/// The sum of the first `i` tests' weights.
pub open spec fn weights_through(s: Suite, i: int) -> int
    decreases i,
{
    if i <= 0 {
        0
    } else {
        weights_through(s, i - 1) + spec_test_weight(s, i - 1)
    }
}

/// The weight attached to name `v`: the weight of each test, counted once
/// per occurrence of the name in its path, over the first `t` tests.
pub open spec fn name_weight_through(s: Suite, v: u32, t: int) -> int
    decreases t,
{
    if t <= 0 {
        0
    } else {
        name_weight_through(s, v, t - 1) + count_in(s.test_name_indices(t - 1), v)
            * spec_test_weight(s, t - 1)
    }
}

pub open spec fn spec_name_weight(s: Suite, v: u32) -> int {
    name_weight_through(s, v, s.spec_num_tests())
}

/// The sampler's construction overflows a 64-bit weight accumulator.
pub open spec fn sampler_overflow(s: Suite) -> bool {
    ||| weights_through(s, s.spec_num_tests()) > u64::MAX as int
    ||| exists|v: u32| 1 <= v < s.spec_pool_count() && spec_name_weight(s, v) > u64::MAX as int
}

proof fn lemma_recip_term_bounds(f: int)
    ensures
        0 <= recip_term(f) <= 0x100000000,
{
    if f > 0 {
        vstd::arithmetic::div_mod::lemma_div_is_ordered_by_denominator(0x100000000, 1, f);
        vstd::arithmetic::div_mod::lemma_div_pos_is_pos(0x100000000, f);
    }
}

proof fn lemma_recip_sum_nonneg(s: Suite, q: Seq<u32>, j: int)
    ensures
        recip_sum_through(s, q, j) >= 0,
    decreases j,
{
    if j > 0 {
        lemma_recip_sum_nonneg(s, q, j - 1);
        lemma_recip_term_bounds(spec_freq(s, q[j - 1]));
    }
}

proof fn lemma_test_weight_bounds(s: Suite, ti: int)
    ensures
        0 <= spec_test_weight(s, ti) <= 0x100000000,
{
    lemma_recip_sum_nonneg(s, s.test_name_indices(ti), s.test_name_indices(ti).len() as int);
}

proof fn lemma_weights_through_mono(s: Suite, t1: int, t2: int)
    requires
        0 <= t1 <= t2,
    ensures
        weights_through(s, t1) <= weights_through(s, t2),
        weights_through(s, t1) >= 0,
    decreases t2,
{
    if t1 == t2 {
        if t1 > 0 {
            lemma_weights_through_mono(s, t1 - 1, t1 - 1);
            lemma_test_weight_bounds(s, t1 - 1);
        }
    } else {
        lemma_weights_through_mono(s, t1, t2 - 1);
        lemma_test_weight_bounds(s, t2 - 1);
    }
}

proof fn lemma_name_weight_mono(s: Suite, v: u32, t1: int, t2: int)
    requires
        0 <= t1 <= t2,
    ensures
        name_weight_through(s, v, t1) <= name_weight_through(s, v, t2),
        name_weight_through(s, v, t1) >= 0,
    decreases t2,
{
    if t1 == t2 {
        if t1 > 0 {
            lemma_name_weight_mono(s, v, t1 - 1, t1 - 1);
            lemma_test_weight_bounds(s, t1 - 1);
            lemma_count_in_bounds(s.test_name_indices(t1 - 1), v);
            assert(count_in(s.test_name_indices(t1 - 1), v) * spec_test_weight(s, t1 - 1) >= 0)
                by (nonlinear_arith)
                requires
                    count_in(s.test_name_indices(t1 - 1), v) >= 0,
                    spec_test_weight(s, t1 - 1) >= 0,
            ;
        }
    } else {
        lemma_name_weight_mono(s, v, t1, t2 - 1);
        lemma_test_weight_bounds(s, t2 - 1);
        lemma_count_in_bounds(s.test_name_indices(t2 - 1), v);
        assert(count_in(s.test_name_indices(t2 - 1), v) * spec_test_weight(s, t2 - 1) >= 0)
            by (nonlinear_arith)
            requires
                count_in(s.test_name_indices(t2 - 1), v) >= 0,
                spec_test_weight(s, t2 - 1) >= 0,
        ;
    }
}

/// A name's weight and how often it has been drawn.
#[derive(Debug, Clone, Copy)]
struct WeightAndCount {
    weight: u64,
    sampled_count: u64,
}

/// A weighted, history-aware sampler over a [`Suite`].
///
/// Tests are drawn by the power of two choices: two candidates are sampled
/// from the weight distribution, and the one drawn less often so far is
/// kept, with a name-coverage tie-break. Weights penalize tests whose path
/// components are shared by many tests.
#[derive(Debug)]
pub struct Sampler {
    test_weights_cumulative: Vec<u64>,
    test_counts: Vec<u32>,
    names: Vec<WeightAndCount>,
}

impl Sampler {
    pub closed spec fn spec_cum(self) -> Seq<u64> {
        self.test_weights_cumulative@
    }

    pub closed spec fn spec_counts(self) -> Seq<u32> {
        self.test_counts@
    }

    pub closed spec fn spec_name_weight_at(self, v: int) -> u64 {
        self.names@[v - 1].weight
    }

    pub closed spec fn spec_name_count_at(self, v: int) -> u64 {
        self.names@[v - 1].sampled_count
    }

    pub closed spec fn spec_num_names(self) -> int {
        self.names@.len() as int
    }

    /// The sampler matches the suite it was built from: the cumulative
    /// array holds the prefix sums of the per-test weights, and each name
    /// carries its aggregated weight.
    pub open spec fn wf_for(self, s: Suite) -> bool {
        &&& self.spec_cum().len() == s.spec_num_tests()
        &&& self.spec_counts().len() == s.spec_num_tests()
        &&& self.spec_num_names() == s.spec_pool_count() - 1
        &&& forall|i: int|
            0 <= i < self.spec_cum().len() ==> (#[trigger] self.spec_cum()[i]) as int
                == weights_through(s, i + 1)
        &&& forall|v: int|
            1 <= v < s.spec_pool_count() ==> (#[trigger] self.spec_name_weight_at(v)) as int
                == spec_name_weight(s, v as u32)
    }

    /// Build a sampler for the given suite; fails exactly when a 64-bit
    /// weight accumulator would overflow.
    #[verifier::rlimit(100)]
    pub fn new(suite: &Suite) -> (r: Result<Sampler, Error>)
        requires
            suite.wf(),
        ensures
            r matches Ok(s) ==> {
                &&& s.wf_for(*suite)
                &&& forall|i: int| 0 <= i < s.spec_counts().len() ==> (#[trigger] s.spec_counts()[i]) == 0
                &&& forall|v: int|
                    1 <= v <= s.spec_num_names() ==> (#[trigger] s.spec_name_count_at(v)) == 0
            },
            r is Err <==> sampler_overflow(*suite),
    {
        let sv = suite;
        let n = suite.num_tests();
        proof {
            assert(n < 0x80000000);
        }
        let pool_count = suite.name_pool.string_count();
        let ghost g_count = suite.spec_pool_count();
        proof {
            suite.name_pool.lemma_cap_bound();
            assert(pool_count == g_count - 1);
        }
        // name frequencies
        let mut freq: Vec<u64> = Vec::new();
        let mut i: usize = 0;
        while i < pool_count
            invariant
                0 <= i <= pool_count,
                freq@.len() == i,
                forall|v: int| 0 <= v < i ==> (#[trigger] freq@[v]) == 0,
            decreases pool_count - i,
        {
            freq.push(0);
            i = i + 1;
        }
        let mut ti: usize = 0;
        proof {
            assert forall|v: u32| 1 <= v < g_count implies freq@[v - 1] as int == freq_through(
                *suite,
                v,
                0,
            ) by {}
        }
        while ti < n
            invariant
                suite.wf(),
                n == suite.spec_num_tests(),
                n < 0x80000000,
                pool_count == g_count - 1,
                g_count == suite.spec_pool_count(),
                g_count >= 1,
                suite.spec_num_groups() < 0x7fffffff,
                freq@.len() == pool_count,
                0 <= ti <= n,
                forall|v: u32|
                    1 <= v < g_count ==> (#[trigger] freq@[v - 1]) as int == freq_through(
                        *suite,
                        v,
                        ti as int,
                    ),
                forall|v: u32| 1 <= v < g_count ==> (#[trigger] freq@[v - 1]) as int <= (ti as int)
                    * suite.spec_num_groups(),
            decreases n - ti,
        {
            let names = suite.name_indices_of_test(ti);
            let ghost q = suite.test_name_indices(ti as int);
            proof {
                suite.lemma_tni_bounds(ti as int);
            }
            let m = names.len();
            let mut pos: usize = 0;
            proof {
                assert forall|v: u32| 1 <= v < g_count implies count_in(q.take(0), v) == 0 by {
                    assert(q.take(0) =~= Seq::<u32>::empty());
                }
            }
            while pos < m
                invariant
                    suite.wf(),
                    n == suite.spec_num_tests(),
                    n < 0x80000000,
                    ti < n,
                    pool_count == g_count - 1,
                    g_count == suite.spec_pool_count(),
                    suite.spec_num_groups() < 0x7fffffff,
                    q == suite.test_name_indices(ti as int),
                    m == q.len(),
                    m <= suite.spec_num_groups(),
                    names@.len() == m,
                    forall|j: int| 0 <= j < m ==> (#[trigger] names@[j]).spec_val() == q[j],
                    forall|j: int|
                        0 <= j < m ==> 1 <= (#[trigger] names@[j]).spec_val() < g_count,
                    freq@.len() == pool_count,
                    0 <= pos <= m,
                    forall|v: u32|
                        1 <= v < g_count ==> (#[trigger] freq@[v - 1]) as int == freq_through(
                            *suite,
                            v,
                            ti as int,
                        ) + count_in(q.take(pos as int), v),
                    forall|v: u32|
                        1 <= v < g_count ==> (#[trigger] freq@[v - 1]) as int <= (ti as int)
                            * suite.spec_num_groups() + pos,
                decreases m - pos,
            {
                let idx = names[pos];
                let slot = idx.index();
                proof {
                    assert((ti as int) * suite.spec_num_groups() + pos < 0x80000000 * 0x7fffffff
                        + 0x7fffffff) by (nonlinear_arith)
                        requires
                            0 <= (ti as int) && (ti as int) < 0x80000000,
                            0 < suite.spec_num_groups() && suite.spec_num_groups() < 0x7fffffff,
                            0 <= (pos as int) && (pos as int) < suite.spec_num_groups(),
                    ;
                }
                let ghost f0 = freq@;
                freq[slot] = freq[slot] + 1;
                proof {
                    let vv = idx.spec_val();
                    assert forall|v: u32|
                        1 <= v < g_count implies (#[trigger] freq@[v - 1]) as int == freq_through(
                        *suite,
                        v,
                        ti as int,
                    ) + count_in(q.take(pos + 1), v) by {
                        lemma_count_in_take(q, v, pos as int);
                        if v == vv {
                            assert(freq@[v - 1] == f0[v - 1] + 1);
                        } else {
                            assert(freq@[v - 1] == f0[v - 1]);
                        }
                    }
                    assert forall|v: u32|
                        1 <= v < g_count implies (#[trigger] freq@[v - 1]) as int <= (ti as int)
                        * suite.spec_num_groups() + pos + 1 by {
                        if v == vv {
                        } else {
                            assert(freq@[v - 1] == f0[v - 1]);
                        }
                    }
                }
                pos = pos + 1;
            }
            proof {
                assert(q.take(m as int) =~= q);
                assert forall|v: u32| 1 <= v < g_count implies freq_through(*suite, v, ti as int)
                    + count_in(q, v) == freq_through(*suite, v, ti + 1) by {}
                assert((ti as int) * suite.spec_num_groups() + suite.spec_num_groups() == (ti
                    + 1) * suite.spec_num_groups()) by (nonlinear_arith);
                assert((ti as int) * suite.spec_num_groups() + m <= (ti + 1)
                    * suite.spec_num_groups());
            }
            ti = ti + 1;
        }
        // per-test weights
        let mut weights: Vec<u64> = Vec::new();
        let mut ti2: usize = 0;
        while ti2 < n
            invariant
                suite.wf(),
                n == suite.spec_num_tests(),
                n < 0x80000000,
                pool_count == g_count - 1,
                g_count == suite.spec_pool_count(),
                freq@.len() == pool_count,
                forall|v: u32|
                    1 <= v < g_count ==> (#[trigger] freq@[v - 1]) as int == spec_freq(*suite, v),
                weights@.len() == ti2,
                0 <= ti2 <= n,
                forall|t: int|
                    0 <= t < ti2 ==> (#[trigger] weights@[t]) as int == spec_test_weight(*suite, t),
            decreases n - ti2,
        {
            let names = suite.name_indices_of_test(ti2);
            let ghost q = suite.test_name_indices(ti2 as int);
            let m = names.len();
            let mut acc: u64 = 0;
            let mut pos: usize = 0;
            while pos < m
                invariant
                    suite.wf(),
                    pool_count == g_count - 1,
                    g_count == suite.spec_pool_count(),
                    freq@.len() == pool_count,
                    forall|v: u32|
                        1 <= v < g_count ==> (#[trigger] freq@[v - 1]) as int == spec_freq(
                            *suite,
                            v,
                        ),
                    q == suite.test_name_indices(ti2 as int),
                    m == q.len(),
                    names@.len() == m,
                    forall|j: int| 0 <= j < m ==> (#[trigger] names@[j]).spec_val() == q[j],
                    forall|j: int|
                        0 <= j < m ==> 1 <= (#[trigger] names@[j]).spec_val() < g_count,
                    0 <= pos <= m,
                    acc as int == clamp_w(recip_sum_through(*suite, q, pos as int)),
                    acc <= 0x100000000,
                decreases m - pos,
            {
                let idx = names[pos];
                let f = freq[idx.index()];
                let term: u64 = if f > 0 {
                    0x100000000u64 / f
                } else {
                    0u64
                };
                proof {
                    lemma_recip_term_bounds(spec_freq(*suite, idx.spec_val()));
                    assert(term as int == recip_term(spec_freq(*suite, idx.spec_val())));
                    lemma_recip_sum_nonneg(*suite, q, pos as int);
                }
                acc = acc + term;
                if acc > 0x100000000u64 {
                    acc = 0x100000000u64;
                }
                pos = pos + 1;
            }
            weights.push(acc);
            ti2 = ti2 + 1;
        }
        // name weights and cumulative test weights
        let mut names_vec: Vec<WeightAndCount> = Vec::new();
        let mut i2: usize = 0;
        while i2 < pool_count
            invariant
                0 <= i2 <= pool_count,
                names_vec@.len() == i2,
                forall|v: int|
                    0 <= v < i2 ==> (#[trigger] names_vec@[v]).weight == 0
                        && names_vec@[v].sampled_count == 0,
            decreases pool_count - i2,
        {
            names_vec.push(WeightAndCount { weight: 0, sampled_count: 0 });
            i2 = i2 + 1;
        }
        let mut cum: Vec<u64> = Vec::new();
        let mut counts: Vec<u32> = Vec::new();
        let mut total: u64 = 0;
        let mut ti3: usize = 0;
        proof {
            assert forall|v: u32| 1 <= v < g_count implies names_vec@[v - 1].weight as int
                == name_weight_through(*suite, v, 0) by {}
        }
        while ti3 < n
            invariant
                suite.wf(),
                n == suite.spec_num_tests(),
                pool_count == g_count - 1,
                g_count == suite.spec_pool_count(),
                weights@.len() == n,
                forall|t: int|
                    0 <= t < n ==> (#[trigger] weights@[t]) as int == spec_test_weight(*suite, t),
                names_vec@.len() == pool_count,
                cum@.len() == ti3,
                counts@.len() == ti3,
                0 <= ti3 <= n,
                total as int == weights_through(*suite, ti3 as int),
                forall|t: int|
                    0 <= t < ti3 ==> (#[trigger] cum@[t]) as int == weights_through(*suite, t + 1),
                forall|t: int| 0 <= t < ti3 ==> (#[trigger] counts@[t]) == 0,
                forall|v: u32|
                    1 <= v < g_count ==> (#[trigger] names_vec@[v - 1]).weight as int
                        == name_weight_through(*suite, v, ti3 as int),
                forall|v: u32|
                    1 <= v < g_count ==> (#[trigger] names_vec@[v - 1]).sampled_count == 0,
            decreases n - ti3,
        {
            let names = suite.name_indices_of_test(ti3);
            let ghost q = suite.test_name_indices(ti3 as int);
            let w = weights[ti3];
            let m = names.len();
            let mut pos: usize = 0;
            proof {
                assert forall|v: u32| 1 <= v < g_count implies count_in(q.take(0), v) == 0 by {
                    assert(q.take(0) =~= Seq::<u32>::empty());
                }
            }
            while pos < m
                invariant
                    suite.wf(),
                    n == suite.spec_num_tests(),
                    ti3 < n,
                    pool_count == g_count - 1,
                    g_count == suite.spec_pool_count(),
                    q == suite.test_name_indices(ti3 as int),
                    m == q.len(),
                    names@.len() == m,
                    forall|j: int| 0 <= j < m ==> (#[trigger] names@[j]).spec_val() == q[j],
                    forall|j: int|
                        0 <= j < m ==> 1 <= (#[trigger] names@[j]).spec_val() < g_count,
                    names_vec@.len() == pool_count,
                    0 <= pos <= m,
                    w as int == spec_test_weight(*suite, ti3 as int),
                    forall|v: u32|
                        1 <= v < g_count ==> (#[trigger] names_vec@[v - 1]).weight as int
                            == name_weight_through(*suite, v, ti3 as int) + count_in(
                            q.take(pos as int),
                            v,
                        ) * (w as int),
                    forall|v: u32|
                        1 <= v < g_count ==> (#[trigger] names_vec@[v - 1]).sampled_count == 0,
                decreases m - pos,
            {
                let idx = names[pos];
                let slot = idx.index();
                let ghost nv0 = names_vec@;
                let cur_w = names_vec[slot].weight;
                match cur_w.checked_add(w) {
                    Some(nw) => {
                        names_vec[slot] = WeightAndCount {
                            weight: nw,
                            sampled_count: names_vec[slot].sampled_count,
                        };
                    },
                    None => {
                        proof {
                            let vv = idx.spec_val();
                            lemma_count_in_take(q, vv, pos as int);
                            lemma_count_in_bounds(q.take(pos as int), vv);
                            lemma_count_in_bounds(q, vv);
                            assert(count_in(q, vv) >= count_in(q.take(pos + 1), vv)) by {
                                lemma_count_take_le(q, vv, pos + 1);
                            }
                            lemma_test_weight_bounds(*suite, ti3 as int);
                            assert(count_in(q.take(pos + 1), vv) * (w as int) >= count_in(
                                q.take(pos as int),
                                vv,
                            ) * (w as int) + w as int) by (nonlinear_arith)
                                requires
                                    count_in(q.take(pos + 1), vv) == count_in(q.take(pos as int), vv)
                                        + 1,
                                    w as int >= 0,
                            ;
                            assert(count_in(q, vv) * (w as int) >= count_in(q.take(pos + 1), vv) * (
                            w as int)) by (nonlinear_arith)
                                requires
                                    count_in(q, vv) >= count_in(q.take(pos + 1), vv),
                                    w as int >= 0,
                            ;
                            assert(name_weight_through(*suite, vv, ti3 + 1) > u64::MAX as int);
                            lemma_name_weight_mono(*suite, vv, ti3 + 1, n as int);
                            assert(spec_name_weight(*suite, vv) > u64::MAX as int);
                            assert(sampler_overflow(*suite));
                        }
                        return Err(Error::new(
                            String::from_str("test suite sampling weights overflow"),
                        ));
                    },
                }
                proof {
                    let vv = idx.spec_val();
                    assert forall|v: u32|
                        1 <= v < g_count implies (#[trigger] names_vec@[v - 1]).weight as int
                        == name_weight_through(*suite, v, ti3 as int) + count_in(
                        q.take(pos + 1),
                        v,
                    ) * (w as int) by {
                        lemma_count_in_take(q, v, pos as int);
                        if v == vv {
                            assert(names_vec@[v - 1].weight as int == nv0[v - 1].weight as int
                                + w as int);
                            assert((count_in(q.take(pos as int), v) + 1) * (w as int) == count_in(
                                q.take(pos as int),
                                v,
                            ) * (w as int) + w as int) by (nonlinear_arith);
                        } else {
                            assert(names_vec@[v - 1] == nv0[v - 1]);
                        }
                    }
                }
                pos = pos + 1;
            }
            proof {
                assert(q.take(m as int) =~= q);
                assert forall|v: u32| 1 <= v < g_count implies name_weight_through(
                    *suite,
                    v,
                    ti3 as int,
                ) + count_in(q, v) * (w as int) == name_weight_through(*suite, v, ti3 + 1) by {}
            }
            match total.checked_add(w) {
                Some(nt) => {
                    total = nt;
                },
                None => {
                    proof {
                        assert(weights_through(*suite, ti3 + 1) > u64::MAX as int);
                        lemma_weights_through_mono(*suite, ti3 + 1, n as int);
                        assert(sampler_overflow(*suite));
                    }
                    return Err(Error::new(
                        String::from_str("test suite sampling weights overflow"),
                    ));
                },
            }
            cum.push(total);
            counts.push(0);
            ti3 = ti3 + 1;
        }
        let s = Sampler { test_weights_cumulative: cum, test_counts: counts, names: names_vec };
        proof {
            suite.name_pool.lemma_cap_bound();
            assert(g_count < u32::MAX);
            assert forall|v: int|
                1 <= v < suite.spec_pool_count() implies (#[trigger] s.spec_name_weight_at(
                v,
            )) as int == spec_name_weight(*suite, v as u32) by {
                let vu = v as u32;
                assert(1 <= vu < g_count);
                assert(s.names@[vu - 1].weight as int == name_weight_through(
                    *suite,
                    vu,
                    n as int,
                ));
                assert(s.names@[v - 1] == s.names@[vu - 1]);
            }
            assert forall|v: int| 1 <= v <= s.spec_num_names() implies (
            #[trigger] s.spec_name_count_at(v)) == 0 by {
                let vu = v as u32;
                assert(1 <= vu < g_count);
                assert(s.names@[vu - 1].sampled_count == 0);
                assert(s.names@[v - 1] == s.names@[vu - 1]);
            }
            assert(!sampler_overflow(*suite)) by {
                if weights_through(*suite, suite.spec_num_tests()) > u64::MAX as int {
                    assert(total as int == weights_through(*suite, n as int));
                    assert(false);
                }
                if exists|v: u32|
                    1 <= v < suite.spec_pool_count() && spec_name_weight(*suite, v) > u64::MAX as int {
                    let v = choose|v: u32|
                        1 <= v < suite.spec_pool_count() && spec_name_weight(*suite, v)
                            > u64::MAX as int;
                    assert(s.names@[v - 1].weight as int == name_weight_through(
                        *suite,
                        v,
                        n as int,
                    ));
                    assert(false);
                }
            }
        }
        Ok(s)
    }
}

proof fn lemma_count_take_le(q: Seq<u32>, v: u32, j: int)
    requires
        0 <= j <= q.len(),
    ensures
        count_in(q.take(j), v) <= count_in(q, v),
    decreases q.len() - j,
{
    if j == q.len() {
        assert(q.take(j) =~= q);
    } else {
        lemma_count_in_take(q, v, j);
        lemma_count_take_le(q, v, j + 1);
    }
}


/// The name-coverage order: `a` is less frequent than `b` when
/// `a.count / a.weight < b.count / b.weight`, compared by cross
/// multiplication. A zero weight acts as infinitely frequent.
pub open spec fn wc_lt(ac: int, aw: int, bc: int, bw: int) -> bool {
    ac * bw < bc * aw
}

/// Saturating increment of a draw counter.
pub open spec fn sat_inc32(c: u32) -> u32 {
    if c == u32::MAX {
        c
    } else {
        (c + 1) as u32
    }
}

/// Saturating addition of `k` draws to a name counter.
pub open spec fn sat_add64(c: u64, k: int) -> u64 {
    if c + k > u64::MAX {
        u64::MAX
    } else {
        (c + k) as u64
    }
}

/// The first index whose cumulative weight exceeds `r`, scanning from `i`.
pub open spec fn spec_pp_from(cum: Seq<u64>, r: u64, i: int) -> int
    decreases cum.len() - i,
    when 0 <= i <= cum.len()
{
    if i >= cum.len() {
        i
    } else if cum[i] > r {
        i
    } else {
        spec_pp_from(cum, r, i + 1)
    }
}

/// The index drawn by `r` from the cumulative weight array: the first
/// entry strictly above `r`.
pub open spec fn spec_pp(cum: Seq<u64>, r: u64) -> int {
    spec_pp_from(cum, r, 0)
}

proof fn lemma_pp_char(cum: Seq<u64>, r: u64, id: int, i: int)
    requires
        0 <= i <= id <= cum.len(),
        forall|j: int| 0 <= j < id ==> (#[trigger] cum[j]) <= r,
        id == cum.len() || cum[id] > r,
    ensures
        spec_pp_from(cum, r, i) == id,
    decreases cum.len() - i,
{
    if i < id {
        lemma_pp_char(cum, r, id, i + 1);
    }
}

impl Sampler {
    /// The least-sampled name among the first `j` of `q`, folded left;
    /// result is `(weight, sampled_count)`, starting from the infinitely
    /// frequent sentinel.
    pub open spec fn min_name_wc(self, q: Seq<u32>, j: int) -> (u64, u64)
        decreases j,
    {
        if j <= 0 {
            (0u64, u64::MAX)
        } else {
            let prev = self.min_name_wc(q, j - 1);
            let w = self.spec_name_weight_at(q[j - 1] as int);
            let c = self.spec_name_count_at(q[j - 1] as int);
            if wc_lt(c as int, w as int, prev.1 as int, prev.0 as int) {
                (w, c)
            } else {
                prev
            }
        }
    }

    /// Some name of `q` strictly beats `least` in the coverage order.
    pub open spec fn any_name_beats(self, q: Seq<u32>, least: (u64, u64)) -> bool {
        exists|j: int|
            0 <= j < q.len() && wc_lt(
                self.spec_name_count_at((#[trigger] q[j]) as int) as int,
                self.spec_name_weight_at(q[j] as int) as int,
                least.1 as int,
                least.0 as int,
            )
    }

    /// The test chosen by one sampling step with draws `r1` and `r2`: the
    /// two candidates' draw counts decide; ties go to candidate 2 exactly
    /// when one of its names beats the least-covered name of candidate 1.
    pub open spec fn spec_choice(self, s: Suite, r1: u64, r2: u64) -> int {
        let i1 = spec_pp(self.spec_cum(), r1);
        let i2 = spec_pp(self.spec_cum(), r2);
        let c1 = self.spec_counts()[i1];
        let c2 = self.spec_counts()[i2];
        if c1 < c2 {
            i1
        } else if c2 < c1 {
            i2
        } else {
            let q1 = s.test_name_indices(i1);
            let least = self.min_name_wc(q1, q1.len() as int);
            if self.any_name_beats(s.test_name_indices(i2), least) {
                i2
            } else {
                i1
            }
        }
    }
}

/// What one sampling step does: the chosen test's draw count and each of
/// its names' draw counts go up by one per occurrence (saturating); the
/// weights stay fixed.
pub open spec fn sample_step_spec(
    pre: Sampler,
    post: Sampler,
    s: Suite,
    r1: u64,
    r2: u64,
    t: TestRef,
) -> bool {
    let ch = pre.spec_choice(s, r1, r2);
    &&& t.spec_id() == ch
    &&& post.spec_cum() == pre.spec_cum()
    &&& post.spec_num_names() == pre.spec_num_names()
    &&& forall|v: int|
        1 <= v <= pre.spec_num_names() ==> (#[trigger] post.spec_name_weight_at(v))
            == pre.spec_name_weight_at(v)
    &&& post.spec_counts() == pre.spec_counts().update(ch, sat_inc32(pre.spec_counts()[ch]))
    &&& forall|v: int|
        1 <= v <= pre.spec_num_names() ==> (#[trigger] post.spec_name_count_at(v)) == sat_add64(
            pre.spec_name_count_at(v),
            count_in(s.test_name_indices(ch), v as u32),
        )
}

fn wc_less_than(a: WeightAndCount, b: WeightAndCount) -> (r: bool)
    ensures
        r == wc_lt(a.sampled_count as int, a.weight as int, b.sampled_count as int, b.weight as int),
{
    proof {
        assert((a.sampled_count as int) * (b.weight as int) < 0x100000000000000000000000000000000)
            by (nonlinear_arith)
            requires
                0 <= a.sampled_count as int <= 0xffffffffffffffff,
                0 <= b.weight as int <= 0xffffffffffffffff,
        ;
        assert((b.sampled_count as int) * (a.weight as int) < 0x100000000000000000000000000000000)
            by (nonlinear_arith)
            requires
                0 <= b.sampled_count as int <= 0xffffffffffffffff,
                0 <= a.weight as int <= 0xffffffffffffffff,
        ;
    }
    let lhs: u128 = (a.sampled_count as u128) * (b.weight as u128);
    let rhs: u128 = (b.sampled_count as u128) * (a.weight as u128);
    lhs < rhs
}

impl Sampler {
    proof fn lemma_cum_sorted(self, s: Suite)
        requires
            self.wf_for(s),
        ensures
            forall|i: int, j: int|
                0 <= i <= j < self.spec_cum().len() ==> (#[trigger] self.spec_cum()[i])
                    <= (#[trigger] self.spec_cum()[j]),
    {
        assert forall|i: int, j: int|
            0 <= i <= j < self.spec_cum().len() implies (#[trigger] self.spec_cum()[i]) <= (
        #[trigger] self.spec_cum()[j]) by {
            lemma_weights_through_mono(s, i + 1, j + 1);
        }
    }

    /// Binary search for the first cumulative weight above `r`.
    fn partition_point(&self, ghost_s: Ghost<Suite>, r: u64) -> (id: usize)
        requires
            self.wf_for(ghost_s@),
            self.spec_cum().len() > 0,
            r < self.spec_cum().last(),
        ensures
            id == spec_pp(self.spec_cum(), r),
            id < self.spec_cum().len(),
    {
        proof {
            self.lemma_cum_sorted(ghost_s@);
        }
        let n = self.test_weights_cumulative.len();
        let mut lo: usize = 0;
        let mut hi: usize = n;
        while lo < hi
            invariant
                n == self.spec_cum().len(),
                0 <= lo <= hi <= n,
                forall|j: int| 0 <= j < lo ==> (#[trigger] self.spec_cum()[j]) <= r,
                forall|j: int| hi <= j < n ==> (#[trigger] self.spec_cum()[j]) > r,
                forall|i: int, j: int|
                    0 <= i <= j < n ==> (#[trigger] self.spec_cum()[i]) <= (
                    #[trigger] self.spec_cum()[j]),
            decreases hi - lo,
        {
            let mid = lo + (hi - lo) / 2;
            if self.test_weights_cumulative[mid] <= r {
                lo = mid + 1;
            } else {
                hi = mid;
            }
        }
        proof {
            assert(lo < n) by {
                if lo == n {
                    assert(self.spec_cum()[n - 1] <= r);
                }
            }
            lemma_pp_char(self.spec_cum(), r, lo as int, 0);
        }
        lo
    }

    /// One sampling step from two given draws: power of two choices with a
    /// name-coverage tie-break, then the bookkeeping.
    #[verifier::rlimit(100)]
    pub fn sample_given(&mut self, suite: &Suite, r1: u64, r2: u64) -> (t: TestRef)
        requires
            suite.wf(),
            old(self).wf_for(*suite),
            old(self).spec_cum().len() > 0,
            r1 < old(self).spec_cum().last(),
            r2 < old(self).spec_cum().last(),
        ensures
            final(self).wf_for(*suite),
            sample_step_spec(*old(self), *final(self), *suite, r1, r2, t),
    {
        let ghost pre = *old(self);
        let i1 = self.partition_point(Ghost(*suite), r1);
        let i2 = self.partition_point(Ghost(*suite), r2);
        let c1 = self.test_counts[i1];
        let c2 = self.test_counts[i2];
        let chosen: usize;
        if c1 < c2 {
            chosen = i1;
        } else if c2 < c1 {
            chosen = i2;
        } else {
            let names1 = suite.name_indices_of_test(i1);
            let ghost q1 = suite.test_name_indices(i1 as int);
            let m1 = names1.len();
            let mut least = WeightAndCount { weight: 0, sampled_count: u64::MAX };
            let mut j: usize = 0;
            while j < m1
                invariant
                    *self == pre,
                    pre.wf_for(*suite),
                    suite.wf(),
                    q1 == suite.test_name_indices(i1 as int),
                    m1 == q1.len(),
                    names1@.len() == m1,
                    forall|jj: int| 0 <= jj < m1 ==> (#[trigger] names1@[jj]).spec_val() == q1[jj],
                    forall|jj: int|
                        0 <= jj < m1 ==> 1 <= (#[trigger] names1@[jj]).spec_val()
                            < suite.spec_pool_count(),
                    0 <= j <= m1,
                    (least.weight, least.sampled_count) == pre.min_name_wc(q1, j as int),
                decreases m1 - j,
            {
                let wc = self.names[names1[j].index()];
                proof {
                    assert(wc.weight == pre.spec_name_weight_at(q1[j as int] as int));
                    assert(wc.sampled_count == pre.spec_name_count_at(q1[j as int] as int));
                }
                if wc_less_than(wc, least) {
                    least = wc;
                }
                j = j + 1;
            }
            let names2 = suite.name_indices_of_test(i2);
            let ghost q2 = suite.test_name_indices(i2 as int);
            let m2 = names2.len();
            let mut take2 = false;
            let mut j2: usize = 0;
            while j2 < m2 && !take2
                invariant
                    *self == pre,
                    pre.wf_for(*suite),
                    suite.wf(),
                    q2 == suite.test_name_indices(i2 as int),
                    m2 == q2.len(),
                    names2@.len() == m2,
                    forall|jj: int| 0 <= jj < m2 ==> (#[trigger] names2@[jj]).spec_val() == q2[jj],
                    forall|jj: int|
                        0 <= jj < m2 ==> 1 <= (#[trigger] names2@[jj]).spec_val()
                            < suite.spec_pool_count(),
                    0 <= j2 <= m2,
                    take2 ==> pre.any_name_beats(q2, (least.weight, least.sampled_count)),
                    !take2 ==> forall|jj: int|
                        0 <= jj < j2 ==> !wc_lt(
                            pre.spec_name_count_at((#[trigger] q2[jj]) as int) as int,
                            pre.spec_name_weight_at(q2[jj] as int) as int,
                            least.sampled_count as int,
                            least.weight as int,
                        ),
                decreases m2 - j2, (if take2 {
                    0int
                } else {
                    1int
                }),
            {
                let wc = self.names[names2[j2].index()];
                proof {
                    assert(wc.weight == pre.spec_name_weight_at(q2[j2 as int] as int));
                    assert(wc.sampled_count == pre.spec_name_count_at(q2[j2 as int] as int));
                }
                if wc_less_than(wc, least) {
                    take2 = true;
                } else {
                    j2 = j2 + 1;
                }
            }
            proof {
                if !take2 {
                    assert(!pre.any_name_beats(q2, (least.weight, least.sampled_count)));
                }
            }
            chosen = if take2 {
                i2
            } else {
                i1
            };
        }
        proof {
            assert(chosen as int == pre.spec_choice(*suite, r1, r2));
        }
        // bookkeeping: the chosen test and each of its names gain a draw
        let oc = self.test_counts[chosen];
        let nc = if oc == u32::MAX {
            oc
        } else {
            oc + 1
        };
        self.test_counts[chosen] = nc;
        let names = suite.name_indices_of_test(chosen);
        let ghost qc = suite.test_name_indices(chosen as int);
        let m = names.len();
        let mut pos: usize = 0;
        proof {
            suite.name_pool.lemma_cap_bound();
            assert(qc.take(0) =~= Seq::<u32>::empty());
            assert forall|v: int| 1 <= v <= pre.spec_num_names() implies #[trigger] count_in(
                qc.take(0),
                v as u32,
            ) == 0 by {}
        }
        while pos < m
            invariant
                suite.wf(),
                pre.wf_for(*suite),
                suite.spec_pool_count() < u32::MAX,
                (chosen as int) == pre.spec_choice(*suite, r1, r2),
                (chosen as int) < pre.spec_counts().len(),
                qc == suite.test_name_indices(chosen as int),
                m == qc.len(),
                names@.len() == m,
                forall|jj: int| 0 <= jj < m ==> (#[trigger] names@[jj]).spec_val() == qc[jj],
                forall|jj: int|
                    0 <= jj < m ==> 1 <= (#[trigger] names@[jj]).spec_val()
                        < suite.spec_pool_count(),
                0 <= pos <= m,
                self.test_weights_cumulative == pre.test_weights_cumulative,
                self.test_counts@ == pre.test_counts@.update(
                    chosen as int,
                    sat_inc32(pre.spec_counts()[chosen as int]),
                ),
                self.names@.len() == pre.names@.len(),
                forall|v: int|
                    1 <= v <= pre.spec_num_names() ==> (#[trigger] self.names@[v - 1]).weight
                        == pre.names@[v - 1].weight,
                forall|v: int|
                    1 <= v <= pre.spec_num_names() ==> (#[trigger] self.names@[v - 1]).sampled_count
                        == sat_add64(
                        pre.names@[v - 1].sampled_count,
                        count_in(qc.take(pos as int), v as u32),
                    ),
            decreases m - pos,
        {
            let slot = names[pos].index();
            let ghost ns0 = self.names@;
            let cur = self.names[slot];
            let newc = if cur.sampled_count == u64::MAX {
                cur.sampled_count
            } else {
                cur.sampled_count + 1
            };
            self.names[slot] = WeightAndCount { weight: cur.weight, sampled_count: newc };
            proof {
                let vv = names@[pos as int].spec_val();
                assert forall|v: int|
                    1 <= v <= pre.spec_num_names() implies (#[trigger] self.names@[v - 1]).sampled_count
                    == sat_add64(
                    pre.names@[v - 1].sampled_count,
                    count_in(qc.take(pos + 1), v as u32),
                ) by {
                    lemma_count_in_take(qc, v as u32, pos as int);
                    lemma_count_in_bounds(qc.take(pos as int), v as u32);
                    if v == vv as int {
                        assert(self.names@[v - 1].sampled_count == newc);
                    } else {
                        assert(self.names@[v - 1] == ns0[v - 1]);
                    }
                }
                assert forall|v: int|
                    1 <= v <= pre.spec_num_names() implies (#[trigger] self.names@[v - 1]).weight
                    == pre.names@[v - 1].weight by {
                    if v == vv as int {
                    } else {
                        assert(self.names@[v - 1] == ns0[v - 1]);
                    }
                }
            }
            pos = pos + 1;
        }
        proof {
            suite.name_pool.lemma_cap_bound();
            assert(qc.take(m as int) =~= qc);
            assert forall|v: int|
                1 <= v < suite.spec_pool_count() implies (#[trigger] self.spec_name_weight_at(
                v,
            )) as int == spec_name_weight(*suite, v as u32) by {
                assert(1 <= v <= pre.spec_num_names());
                assert(self.names@[v - 1].weight == pre.names@[v - 1].weight);
                assert(pre.spec_name_weight_at(v) == pre.names@[v - 1].weight);
                assert(pre.spec_name_weight_at(v) as int == spec_name_weight(*suite, v as u32));
            }
        }
        TestRef { id: chosen as u32 }
    }
}

#[verifier::external_type_specification]
#[verifier::external_body]
pub struct ExStdRng(rand::rngs::StdRng);

/// Relies on rand's `random_range` over `0..hi`: a value below `hi`. Which
/// value comes back depends on the generator's state; nothing more is
/// assumed.
#[verifier::external_body]
fn draw_below(rng: &mut rand::rngs::StdRng, hi: u64) -> (r: u64)
    requires
        hi > 0,
    ensures
        r < hi,
{
    rand::RngExt::random_range(rng, 0..hi)
}

impl Sampler {
    /// Whether a weighted draw is possible: at least one test, with a
    /// positive total weight.
    pub fn can_sample(&self) -> (r: bool)
        ensures
            r == (self.spec_cum().len() > 0 && self.spec_cum().last() > 0),
    {
        let n = self.test_weights_cumulative.len();
        n > 0 && self.test_weights_cumulative[n - 1] > 0
    }

    /// Draw one test: two weighted draws, then the power-of-two-choices
    /// step. The contract promises a step for some pair of in-range draws;
    /// which pair depends on the generator.
    pub fn sample(&mut self, suite: &Suite, rng: &mut rand::rngs::StdRng) -> (t: TestRef)
        requires
            suite.wf(),
            old(self).wf_for(*suite),
            old(self).spec_cum().len() > 0,
            old(self).spec_cum().last() > 0,
        ensures
            final(self).wf_for(*suite),
            exists|r1: u64, r2: u64|
                r1 < old(self).spec_cum().last() && r2 < old(self).spec_cum().last()
                    && #[trigger] sample_step_spec(*old(self), *final(self), *suite, r1, r2, t),
    {
        let n = self.test_weights_cumulative.len();
        let total = self.test_weights_cumulative[n - 1];
        let r1 = draw_below(rng, total);
        let r2 = draw_below(rng, total);
        let t = self.sample_given(suite, r1, r2);
        t
    }
}

} // verus!
