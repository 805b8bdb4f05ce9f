use vstd::prelude::*;
use crate::buildlog::{BuildLogContents, BuildLogEntry, parse_entry};
use crate::errors::Error;
use crate::sut::{Revision, rev_matches, rev_eq};
use crate::timefmt::Date;

verus! {

/// The lifecycle of one build. `Succeeded` marks a build whose artefact
/// is good to use; a failed build stays `Fail` until it is explicitly
/// cleared back to `Pending`.
#[derive(Debug, Clone, Copy, PartialEq, Eq, Structural)]
pub enum BuildStatus {
    Pending,
    Building,
    Succeeded,
    Fail,
}

/// Configuration of the build manager: where artefacts are kept, where
/// builds run, and the script that performs them.
#[derive(Debug, Clone)]
pub struct BuildMgrConfig {
    pub artefact_path: String,
    pub max_artefacts: u64,
    pub build_path: String,
    pub build_script: String,
}

impl BuildMgrConfig {
    /// How many build artefacts are kept when nothing else is configured.
    pub fn default_max_artefacts() -> (r: u64)
        ensures
            r == 100,
    {
        100
    }
}

/// One known build: its id, the revision it builds, when it was last used,
/// and where it stands.
#[derive(Debug, Clone)]
pub struct BuildRecord {
    pub id: u64,
    pub rev: Revision,
    pub last_used: Date,
    pub status: BuildStatus,
}

/// The in-memory projection of the build log: the known builds, the
/// revision-to-id mapping, and the next id to try.
#[derive(Debug)]
pub struct BuildMgrState {
    builds: Vec<BuildRecord>,
    by_rev: Vec<(Revision, u64)>,
    next_build: u64,
}

impl BuildMgrState {
    pub closed spec fn spec_builds(self) -> Seq<BuildRecord> {
        self.builds@
    }

    pub closed spec fn spec_by_rev(self) -> Seq<(Revision, u64)> {
        self.by_rev@
    }

    pub closed spec fn spec_next_build(self) -> u64 {
        self.next_build
    }

    /// Some build has this id.
    pub open spec fn has_id(self, id: u64) -> bool {
        exists|i: int| 0 <= i < self.spec_builds().len() && (#[trigger] self.spec_builds()[i]).id
            == id
    }

    /// The position of the build with this id.
    pub open spec fn id_index(self, id: u64) -> int {
        choose|i: int| 0 <= i < self.spec_builds().len() && (#[trigger] self.spec_builds()[i]).id
            == id
    }

    /// Some mapping matches this revision.
    pub open spec fn has_rev(self, rev: Revision) -> bool {
        exists|i: int| 0 <= i < self.spec_by_rev().len() && rev_matches(
            (#[trigger] self.spec_by_rev()[i]).0,
            rev,
        )
    }

    pub open spec fn rev_index(self, rev: Revision) -> int {
        choose|i: int| 0 <= i < self.spec_by_rev().len() && rev_matches(
            (#[trigger] self.spec_by_rev()[i]).0,
            rev,
        )
    }

    /// Ids are unique; mapped revisions are pairwise distinct and point at
    /// known builds.
    pub closed spec fn wf(self) -> bool {
        &&& forall|i: int, j: int|
            0 <= i < self.builds@.len() && 0 <= j < self.builds@.len() && i != j
                ==> (#[trigger] self.builds@[i]).id != (#[trigger] self.builds@[j]).id
        &&& forall|i: int, j: int|
            0 <= i < self.by_rev@.len() && 0 <= j < self.by_rev@.len() && i != j ==> !rev_matches(
                (#[trigger] self.by_rev@[i]).0,
                (#[trigger] self.by_rev@[j]).0,
            )
        &&& forall|i: int|
            0 <= i < self.by_rev@.len() ==> self.has_id((#[trigger] self.by_rev@[i]).1)
    }

    /// A fresh state: no builds, next id 1.
    pub fn new() -> (r: BuildMgrState)
        ensures
            r.wf(),
            r.spec_builds().len() == 0,
            r.spec_by_rev().len() == 0,
            r.spec_next_build() == 1,
    {
        BuildMgrState { builds: Vec::new(), by_rev: Vec::new(), next_build: 1 }
    }

    /// Find the build record with this id.
    fn find_id(&self, id: u64) -> (r: Option<usize>)
        requires
            self.wf(),
        ensures
            match r {
                Some(i) => (i as int) < self.spec_builds().len() && self.spec_builds()[i as int].id
                    == id && self.has_id(id) && self.id_index(id) == i as int,
                None => !self.has_id(id),
            },
    {
        let n = self.builds.len();
        let mut i: usize = 0;
        while i < n
            invariant
                self.wf(),
                n == self.spec_builds().len(),
                0 <= i <= n,
                forall|j: int| 0 <= j < i ==> (#[trigger] self.spec_builds()[j]).id != id,
            decreases n - i,
        {
            if self.builds[i].id == id {
                proof {
                    assert(self.spec_builds()[i as int].id == id);
                    let w = self.id_index(id);
                    assert(self.spec_builds()[w].id == id);
                }
                return Some(i);
            }
            i = i + 1;
        }
        None
    }

    /// Look up the build id mapped to a revision.
    pub fn find_by_rev(&self, rev: &Revision) -> (r: Option<u64>)
        requires
            self.wf(),
        ensures
            match r {
                Some(id) => self.has_rev(*rev) && self.spec_by_rev()[self.rev_index(*rev)].1 == id
                    && self.has_id(id),
                None => !self.has_rev(*rev),
            },
    {
        let n = self.by_rev.len();
        let mut i: usize = 0;
        while i < n
            invariant
                self.wf(),
                n == self.spec_by_rev().len(),
                0 <= i <= n,
                forall|j: int| 0 <= j < i ==> !rev_matches((#[trigger] self.spec_by_rev()[j]).0, *rev),
            decreases n - i,
        {
            let (ref r0, id) = self.by_rev[i];
            if rev_eq(r0, rev) {
                proof {
                    let w = self.rev_index(*rev);
                    assert(rev_matches(self.spec_by_rev()[w].0, *rev));
                    assert(w == i as int) by {
                        if w != i as int {
                            assert(!rev_matches(self.spec_by_rev()[w].0, self.spec_by_rev()[i as int].0));
                            lemma_rev_matches_trans(self.spec_by_rev()[w].0, *rev, self.spec_by_rev()[i as int].0);
                        }
                    }
                }
                return Some(id);
            }
            i = i + 1;
        }
        None
    }

    /// The status of the build for a revision, if one is known. This never
    /// builds anything.
    pub fn get_build(&self, rev: &Revision) -> (r: Option<(u64, BuildStatus)>)
        requires
            self.wf(),
        ensures
            match r {
                Some(p) => self.has_rev(*rev) && p.0 == self.spec_by_rev()[self.rev_index(*rev)].1
                    && self.has_id(p.0) && self.spec_builds()[self.id_index(p.0)].status == p.1,
                None => !self.has_rev(*rev),
            },
    {
        let id = match self.find_by_rev(rev) {
            Some(id) => id,
            None => {
                return None;
            },
        };
        let i = match self.find_id(id) {
            Some(i) => i,
            None => {
                proof {
                    assert(false);
                }
                return None;
            },
        };
        Some((id, self.builds[i].status))
    }

    /// The revision recorded for a build id, as a fresh matching value.
    pub fn rev_lookup_by_id(&self, id: u64) -> (r: Option<Revision>)
        requires
            self.wf(),
        ensures
            match r {
                Some(rev) => self.has_id(id) && rev_matches(
                    rev,
                    self.spec_builds()[self.id_index(id)].rev,
                ),
                None => !self.has_id(id),
            },
    {
        let i = match self.find_id(id) {
            Some(i) => i,
            None => {
                return None;
            },
        };
        let rev = clone_revision(&self.builds[i].rev);
        proof {
            lemma_rev_matches_sym(self.builds@[i as int].rev, rev);
        }
        Some(rev)
    }

    /// The smallest free id at or above `next_build`, found by scanning
    /// upward; `None` only if every id up to the end of the id space is
    /// taken.
    pub fn allocate_id(&self) -> (r: Option<u64>)
        requires
            self.wf(),
        ensures
            match r {
                Some(id) => {
                    &&& !self.has_id(id)
                    &&& id >= self.spec_next_build()
                    &&& forall|j: u64| self.spec_next_build() <= j < id ==> self.has_id(j)
                },
                None => forall|j: u64| j >= self.spec_next_build() ==> self.has_id(j),
            },
    {
        let mut id = self.next_build;
        loop
            invariant
                self.wf(),
                id >= self.spec_next_build(),
                forall|j: u64| self.spec_next_build() <= j < id ==> self.has_id(j),
            decreases u64::MAX - id,
        {
            match self.find_id(id) {
                Some(_) => {
                    if id == u64::MAX {
                        proof {
                            assert forall|j: u64| j >= self.spec_next_build() implies self.has_id(
                                j,
                            ) by {
                                if j < u64::MAX {
                                } else {
                                    assert(j == u64::MAX);
                                }
                            }
                        }
                        return None;
                    }
                    id = id + 1;
                },
                None => {
                    return Some(id);
                },
            }
        }
    }

    /// Apply one log entry, following the log rules: `Create` is valid only
    /// for an unknown id and installs a `Pending` record and the revision
    /// mapping; the other entries are valid only for known ids. A rejected
    /// entry is log corruption and leaves the state unchanged.
    #[verifier::rlimit(100)]
    pub fn apply_log_entry(&mut self, e: &BuildLogEntry) -> (r: Result<(), Error>)
        requires
            old(self).wf(),
        ensures
            final(self).wf(),
            apply_rejects(*old(self), *e) ==> r is Err && *final(self) == *old(self),
            !apply_rejects(*old(self), *e) ==> r is Ok && apply_rel(*old(self), *final(self), *e),
    {
        let idx = self.find_id(e.id);
        match &e.contents {
            BuildLogContents::Create { rev } => {
                if idx.is_some() {
                    return Err(Error::new(String::from_str("unexpected log entry id")));
                }
                let ghost pre = *self;
                let rec = BuildRecord {
                    id: e.id,
                    rev: clone_revision(rev),
                    last_used: e.time.date(),
                    status: BuildStatus::Pending,
                };
                self.builds.push(rec);
                // install or update the revision mapping
                let n = self.by_rev.len();
                let mut i: usize = 0;
                let mut placed = false;
                while i < n && !placed
                    invariant
                        n == self.by_rev@.len(),
                        0 <= i <= n,
                        self.builds@.len() == pre.builds@.len() + 1,
                        forall|j: int|
                            0 <= j < pre.builds@.len() ==> #[trigger] self.builds@[j]
                                == pre.builds@[j],
                        self.builds@.last().id == e.id,
                        rev_matches(self.builds@.last().rev, *rev),
                        self.builds@.last().last_used == e.time.date_spec(),
                        self.builds@.last().status == BuildStatus::Pending,
                        self.next_build == pre.next_build,
                        pre.wf(),
                        !pre.has_id(e.id),
                        !placed ==> self.by_rev@ == pre.by_rev@ && forall|j: int|
                            0 <= j < i ==> !rev_matches((#[trigger] self.by_rev@[j]).0, *rev),
                        placed ==> {
                            &&& self.by_rev@.len() == pre.by_rev@.len()
                            &&& exists|j: int|
                                0 <= j < self.by_rev@.len() && rev_matches(
                                    (#[trigger] self.by_rev@[j]).0,
                                    *rev,
                                ) && self.by_rev@[j].1 == e.id
                            &&& forall|j: int, k: int|
                                0 <= j < self.by_rev@.len() && 0 <= k < self.by_rev@.len() && j != k
                                    ==> !rev_matches(
                                    (#[trigger] self.by_rev@[j]).0,
                                    (#[trigger] self.by_rev@[k]).0,
                                )
                            &&& forall|j: int|
                                0 <= j < self.by_rev@.len() ==> (#[trigger] self.by_rev@[j]).1
                                    == e.id || pre.has_id(self.by_rev@[j].1)
                        },
                    decreases n - i, (if placed {
                        0int
                    } else {
                        1int
                    }),
                {
                    let matches_here = rev_eq(&self.by_rev[i].0, rev);
                    if matches_here {
                        let ghost before = self.by_rev@;
                        self.by_rev[i].1 = e.id;
                        proof {
                            assert(self.by_rev@[i as int].0 == before[i as int].0);
                            assert forall|j: int, k: int|
                                0 <= j < self.by_rev@.len() && 0 <= k < self.by_rev@.len() && j
                                    != k implies !rev_matches(
                                (#[trigger] self.by_rev@[j]).0,
                                (#[trigger] self.by_rev@[k]).0,
                            ) by {
                                assert(rev_matches(self.by_rev@[i as int].0, before[i as int].0));
                                if j == i as int {
                                    if rev_matches(self.by_rev@[j].0, self.by_rev@[k].0) {
                                        lemma_rev_matches_trans2(
                                            before[i as int].0,
                                            self.by_rev@[j].0,
                                            self.by_rev@[k].0,
                                        );
                                    }
                                } else if k == i as int {
                                    if rev_matches(self.by_rev@[j].0, self.by_rev@[k].0) {
                                        lemma_rev_matches_trans(
                                            self.by_rev@[j].0,
                                            self.by_rev@[k].0,
                                            before[i as int].0,
                                        );
                                    }
                                } else {
                                    assert(self.by_rev@[j] == before[j]);
                                    assert(self.by_rev@[k] == before[k]);
                                }
                            }
                            assert(rev_matches(self.by_rev@[i as int].0, *rev)) by {
                                lemma_rev_matches_trans(before[i as int].0, *rev, *rev);
                                lemma_rev_matches_sym(before[i as int].0, *rev);
                            }
                        }
                        placed = true;
                    } else {
                        i = i + 1;
                    }
                }
                if !placed {
                    self.by_rev.push((clone_revision(rev), e.id));
                    proof {
                        assert(self.by_rev@.last().1 == e.id);
                        assert(rev_matches(self.by_rev@.last().0, *rev));
                        assert forall|j: int, k: int|
                            0 <= j < self.by_rev@.len() && 0 <= k < self.by_rev@.len() && j
                                != k implies !rev_matches(
                            (#[trigger] self.by_rev@[j]).0,
                            (#[trigger] self.by_rev@[k]).0,
                        ) by {
                            let last = self.by_rev@.len() - 1;
                            if j == last {
                                assert(self.by_rev@[k] == pre.by_rev@[k]);
                                if rev_matches(self.by_rev@[j].0, self.by_rev@[k].0) {
                                    lemma_rev_matches_trans2(
                                        self.by_rev@[j].0,
                                        self.by_rev@[k].0,
                                        *rev,
                                    );
                                    lemma_rev_matches_sym(self.by_rev@[k].0, *rev);
                                }
                            } else if k == last {
                                assert(self.by_rev@[j] == pre.by_rev@[j]);
                                if rev_matches(self.by_rev@[j].0, self.by_rev@[k].0) {
                                    lemma_rev_matches_sym(self.by_rev@[k].0, *rev);
                                    lemma_rev_matches_trans(
                                        self.by_rev@[j].0,
                                        self.by_rev@[k].0,
                                        *rev,
                                    );
                                }
                            } else {
                                assert(self.by_rev@[j] == pre.by_rev@[j]);
                                assert(self.by_rev@[k] == pre.by_rev@[k]);
                            }
                        }
                    }
                }
                self.next_build = max_u64(self.next_build, e.id.wrapping_add(1));
                proof {
                    assert(self.wf()) by {
                        assert forall|j: int|
                            0 <= j < self.by_rev@.len() implies self.has_id(
                            (#[trigger] self.by_rev@[j]).1,
                        ) by {
                            if self.by_rev@[j].1 == e.id {
                                assert(self.builds@.last().id == e.id);
                            } else {
                                assert(pre.has_id(self.by_rev@[j].1));
                                let w = choose|w: int|
                                    0 <= w < pre.builds@.len() && (#[trigger] pre.builds@[w]).id
                                        == self.by_rev@[j].1;
                                assert(self.builds@[w].id == self.by_rev@[j].1);
                            }
                        }
                    }
                    assert(exists|j: int|
                        0 <= j < self.by_rev@.len() && rev_matches(
                            (#[trigger] self.by_rev@[j]).0,
                            *rev,
                        ) && self.by_rev@[j].1 == e.id) by {
                        if !placed {
                            let last = self.by_rev@.len() - 1;
                            assert(rev_matches(self.by_rev@[last].0, *rev) && self.by_rev@[last].1
                                == e.id);
                        }
                    }
                    assert(self.has_rev(*rev)) by {
                        let j = choose|j: int|
                            0 <= j < self.by_rev@.len() && rev_matches(
                                (#[trigger] self.by_rev@[j]).0,
                                *rev,
                            ) && self.by_rev@[j].1 == e.id;
                        assert(self.spec_by_rev() == self.by_rev@);
                        assert(rev_matches((self.spec_by_rev()[j]).0, *rev));
                    }
                    assert(self.spec_by_rev()[self.rev_index(*rev)].1 == e.id) by {
                        let w = self.rev_index(*rev);
                        let j = choose|j: int|
                            0 <= j < self.by_rev@.len() && rev_matches(
                                (#[trigger] self.by_rev@[j]).0,
                                *rev,
                            ) && self.by_rev@[j].1 == e.id;
                        if w != j {
                            lemma_rev_matches_sym(self.by_rev@[j].0, *rev);
                            lemma_rev_matches_trans2(*rev, self.by_rev@[w].0, self.by_rev@[j].0);
                        }
                    }
                }
                Ok(())
            },
            _ => {
                let i = match idx {
                    Some(i) => i,
                    None => {
                        return Err(Error::new(String::from_str("unexpected log entry id")));
                    },
                };
                let ghost pre = *self;
                match &e.contents {
                    BuildLogContents::Complete { success } => {
                        self.builds[i].status = if *success {
                            BuildStatus::Succeeded
                        } else {
                            BuildStatus::Fail
                        };
                        self.builds[i].last_used = e.time.date();
                    },
                    BuildLogContents::Use => {
                        self.builds[i].last_used = e.time.date();
                    },
                    BuildLogContents::ClearFail => {
                        if self.builds[i].status == BuildStatus::Fail {
                            self.builds[i].status = BuildStatus::Pending;
                        }
                    },
                    BuildLogContents::Create { .. } => {
                    },
                }
                proof {
                    assert(self.builds@[i as int].id == pre.builds@[i as int].id);
                    assert(self.wf()) by {
                        assert forall|j: int|
                            0 <= j < self.by_rev@.len() implies self.has_id(
                            (#[trigger] self.by_rev@[j]).1,
                        ) by {
                            assert(pre.has_id(self.by_rev@[j].1));
                            let w = choose|w: int|
                                0 <= w < pre.builds@.len() && (#[trigger] pre.builds@[w]).id
                                    == self.by_rev@[j].1;
                            assert(self.builds@[w].id == self.by_rev@[j].1);
                        }
                    }
                    assert(pre.id_index(e.id) == i as int) by {
                        let w = pre.id_index(e.id);
                        assert(pre.builds@[w].id == e.id);
                    }
                }
                Ok(())
            },
        }
    }
}

/// An entry the log rules reject: `Create` for a known id, anything else
/// for an unknown one.
pub open spec fn apply_rejects(pre: BuildMgrState, e: BuildLogEntry) -> bool {
    match e.contents {
        BuildLogContents::Create { .. } => pre.has_id(e.id),
        _ => !pre.has_id(e.id),
    }
}

/// What applying an accepted entry does to the state.
pub open spec fn apply_rel(pre: BuildMgrState, post: BuildMgrState, e: BuildLogEntry) -> bool {
    match e.contents {
        BuildLogContents::Create { rev } => {
            &&& post.spec_builds().len() == pre.spec_builds().len() + 1
            &&& post.spec_builds().last().id == e.id
            &&& rev_matches(post.spec_builds().last().rev, rev)
            &&& post.spec_builds().last().last_used == e.time.date_spec()
            &&& post.spec_builds().last().status == BuildStatus::Pending
            &&& forall|i: int|
                0 <= i < pre.spec_builds().len() ==> post.spec_builds()[i]
                    == pre.spec_builds()[i]
            &&& post.has_rev(rev)
            &&& post.spec_by_rev()[post.rev_index(rev)].1 == e.id
            &&& post.spec_next_build() == spec_max_u64(
                pre.spec_next_build(),
                vstd::wrapping::u64_specs::wrapping_add(e.id, 1),
            )
        },
        _ => {
            &&& post.spec_builds().len() == pre.spec_builds().len()
            &&& post.spec_by_rev() == pre.spec_by_rev()
            &&& post.spec_next_build() == pre.spec_next_build()
            &&& forall|i: int|
                0 <= i < pre.spec_builds().len() && i != pre.id_index(e.id)
                    ==> post.spec_builds()[i] == pre.spec_builds()[i]
            &&& post.spec_builds()[pre.id_index(e.id)] == apply_record(
                pre.spec_builds()[pre.id_index(e.id)],
                e,
            )
        },
    }
}

/// What a non-`Create` entry does to its record.
pub open spec fn apply_record(rec: BuildRecord, e: BuildLogEntry) -> BuildRecord {
    match e.contents {
        BuildLogContents::Complete { success } => BuildRecord {
            id: rec.id,
            rev: rec.rev,
            last_used: e.time.date_spec(),
            status: if success {
                BuildStatus::Succeeded
            } else {
                BuildStatus::Fail
            },
        },
        BuildLogContents::Use => BuildRecord {
            id: rec.id,
            rev: rec.rev,
            last_used: e.time.date_spec(),
            status: rec.status,
        },
        BuildLogContents::ClearFail => BuildRecord {
            id: rec.id,
            rev: rec.rev,
            last_used: rec.last_used,
            status: if rec.status == BuildStatus::Fail {
                BuildStatus::Pending
            } else {
                rec.status
            },
        },
        BuildLogContents::Create { .. } => rec,
    }
}

/// Copy a byte vector.
fn copy_bytes(v: &Vec<u8>) -> (r: Vec<u8>)
    ensures
        r@ == v@,
{
    let mut r: Vec<u8> = Vec::new();
    let n = v.len();
    let mut i: usize = 0;
    while i < n
        invariant
            n == v@.len(),
            0 <= i <= n,
            r@ == v@.take(i as int),
        decreases n - i,
    {
        r.push(v[i]);
        proof {
            assert(r@ =~= v@.take(i + 1));
        }
        i = i + 1;
    }
    proof {
        assert(v@.take(n as int) =~= v@);
    }
    r
}

/// Deep-copy a revision; the copy matches its source.
fn clone_revision(r: &Revision) -> (c: Revision)
    ensures
        rev_matches(*r, c),
        rev_matches(c, *r),
        r.wf() ==> c.wf(),
{
    let top = match &r.top {
        crate::sut::ModuleRevision::Git(h) => crate::sut::ModuleRevision::Git(copy_bytes(h)),
    };
    let n = r.submodule_overrides.len();
    let mut overrides: Vec<(String, crate::sut::ModuleRevision)> = Vec::new();
    let mut i: usize = 0;
    while i < n
        invariant
            n == r.submodule_overrides@.len(),
            0 <= i <= n,
            overrides@.len() == i,
            forall|j: int|
                0 <= j < i ==> (#[trigger] overrides@[j]).0@ == r.submodule_overrides@[j].0@
                    && overrides@[j].1.spec_hash() == r.submodule_overrides@[j].1.spec_hash(),
        decreases n - i,
    {
        let (ref p, ref m) = r.submodule_overrides[i];
        let pm = String::from_str(p.as_str());
        let mm = match m {
            crate::sut::ModuleRevision::Git(h) => crate::sut::ModuleRevision::Git(copy_bytes(h)),
        };
        overrides.push((pm, mm));
        i = i + 1;
    }
    Revision { top, submodule_overrides: overrides }
}

pub open spec fn spec_max_u64(a: u64, b: u64) -> u64 {
    if a >= b {
        a
    } else {
        b
    }
}

fn max_u64(a: u64, b: u64) -> (r: u64)
    ensures
        r == spec_max_u64(a, b),
{
    if a >= b {
        a
    } else {
        b
    }
}

/// Matching revisions match transitively (first and last against a common
/// middle).
proof fn lemma_rev_matches_trans(a: Revision, b: Revision, c: Revision)
    requires
        rev_matches(a, b),
        rev_matches(c, b),
    ensures
        rev_matches(a, c),
{
    assert forall|i: int| 0 <= i < a.submodule_overrides@.len() implies (
    #[trigger] a.submodule_overrides@[i]).0@ == c.submodule_overrides@[i].0@
        && a.submodule_overrides@[i].1.spec_hash() == c.submodule_overrides@[i].1.spec_hash() by {
        assert(a.submodule_overrides@[i].0@ == b.submodule_overrides@[i].0@);
        assert(c.submodule_overrides@[i].0@ == b.submodule_overrides@[i].0@);
    }
}

proof fn lemma_rev_matches_trans2(a: Revision, b: Revision, c: Revision)
    requires
        rev_matches(a, b),
        rev_matches(a, c),
    ensures
        rev_matches(b, c),
{
    assert forall|i: int| 0 <= i < b.submodule_overrides@.len() implies (
    #[trigger] b.submodule_overrides@[i]).0@ == c.submodule_overrides@[i].0@
        && b.submodule_overrides@[i].1.spec_hash() == c.submodule_overrides@[i].1.spec_hash() by {
        assert(a.submodule_overrides@[i].0@ == b.submodule_overrides@[i].0@);
        assert(a.submodule_overrides@[i].0@ == c.submodule_overrides@[i].0@);
    }
}

proof fn lemma_rev_matches_sym(a: Revision, b: Revision)
    requires
        rev_matches(a, b),
    ensures
        rev_matches(b, a),
{
    assert forall|i: int| 0 <= i < b.submodule_overrides@.len() implies (
    #[trigger] b.submodule_overrides@[i]).0@ == a.submodule_overrides@[i].0@
        && b.submodule_overrides@[i].1.spec_hash() == a.submodule_overrides@[i].1.spec_hash() by {
        assert(a.submodule_overrides@[i].0@ == b.submodule_overrides@[i].0@);
    }
}


/// A state holding nothing, as a fresh replay starts from.
pub open spec fn is_fresh_state(st: BuildMgrState) -> bool {
    &&& st.spec_builds().len() == 0
    &&& st.spec_by_rev().len() == 0
    &&& st.spec_next_build() == 1
}

/// The first `k` lines replay through the entries and intermediate states:
/// each line is the spelling of its entry, each entry is accepted, and
/// each application steps the state as [`apply_rel`] says.
pub open spec fn replay_chain(
    lines: Seq<String>,
    entries: Seq<BuildLogEntry>,
    sts: Seq<BuildMgrState>,
    k: int,
) -> bool {
    &&& 0 <= k <= lines.len()
    &&& entries.len() == k
    &&& sts.len() == k + 1
    &&& is_fresh_state(sts[0])
    &&& forall|j: int|
        0 <= j < k ==> {
            &&& (#[trigger] entries[j]).wf()
            &&& vstd::utf8::encode_utf8(lines[j]@) == crate::buildlog::entry_json_bytes(entries[j])
            &&& !apply_rejects(sts[j], entries[j])
            &&& apply_rel(sts[j], sts[j + 1], entries[j])
        }
}

impl BuildMgrState {
    /// Rebuild the state by replaying log lines in order, applying each in
    /// turn to a fresh state. On success the result is the fold of
    /// [`apply_rel`] over exactly the entries whose spellings the lines
    /// are, so a log written by [`crate::buildlog::serialize_entry`]
    /// replays to the state whose commits wrote it. The first unparsable
    /// or inapplicable line is an error — the log is corrupt and the
    /// caller discards it.
    pub fn replay(lines: &Vec<String>) -> (r: Result<BuildMgrState, Error>)
        ensures
            match r {
                Ok(st) => st.wf() && exists|entries: Seq<BuildLogEntry>, sts: Seq<BuildMgrState>|
                    #[trigger] replay_chain(lines@, entries, sts, lines@.len() as int)
                        && sts.last() == st,
                Err(_) => exists|k: int, entries: Seq<BuildLogEntry>, sts: Seq<BuildMgrState>|
                    {
                        &&& 0 <= k < lines@.len()
                        &&& #[trigger] replay_chain(lines@, entries, sts, k)
                        &&& ((!exists|e: BuildLogEntry|
                            e.wf() && vstd::utf8::encode_utf8(lines@[k]@)
                                == crate::buildlog::entry_json_bytes(e)) || (exists|
                            e: BuildLogEntry,
                        |
                            e.wf() && vstd::utf8::encode_utf8(lines@[k]@)
                                == crate::buildlog::entry_json_bytes(e) && apply_rejects(
                                sts.last(),
                                e,
                            )))
                    },
            },
    {
        let mut st = BuildMgrState::new();
        let ghost mut entries: Seq<BuildLogEntry> = Seq::empty();
        let ghost mut sts: Seq<BuildMgrState> = seq![st];
        let n = lines.len();
        let mut i: usize = 0;
        while i < n
            invariant
                n == lines@.len(),
                0 <= i <= n,
                st.wf(),
                replay_chain(lines@, entries, sts, i as int),
                sts.last() == st,
            decreases n - i,
        {
            let e = match parse_entry(lines[i].as_str()) {
                Ok(e) => e,
                Err(er) => {
                    proof {
                        if exists|e2: BuildLogEntry|
                            e2.wf() && vstd::utf8::encode_utf8(lines@[i as int]@)
                                == crate::buildlog::entry_json_bytes(e2) {
                            assert(false);
                        }
                    }
                    return Err(er);
                },
            };
            let ghost pre_st = st;
            match st.apply_log_entry(&e) {
                Ok(()) => {
                },
                Err(er) => {
                    proof {
                        assert(apply_rejects(pre_st, e));
                    }
                    return Err(er);
                },
            }
            proof {
                let old_entries = entries;
                let old_sts = sts;
                entries = entries.push(e);
                sts = sts.push(st);
                assert forall|j: int|
                    0 <= j < i + 1 implies {
                    &&& (#[trigger] entries[j]).wf()
                    &&& vstd::utf8::encode_utf8(lines@[j]@) == crate::buildlog::entry_json_bytes(
                        entries[j],
                    )
                    &&& !apply_rejects(sts[j], entries[j])
                    &&& apply_rel(sts[j], sts[j + 1], entries[j])
                } by {
                    if j < i {
                        assert(entries[j] == old_entries[j]);
                        assert(sts[j] == old_sts[j]);
                        assert(sts[j + 1] == old_sts[j + 1]);
                        assert(old_entries[j].wf());
                    } else {
                        assert(entries[j] == e);
                        assert(sts[j] == pre_st);
                        assert(sts[j + 1] == st);
                    }
                }
            }
            i = i + 1;
        }
        Ok(st)
    }
}

/// What a caller of the build loop must do next for a given build.
#[derive(Debug, Clone, Copy, PartialEq, Eq, Structural)]
pub enum BuildPoll {
    /// The build was `Pending` and is now `Building`: the caller holds the
    /// duty to acquire the builder, run the build, and commit `Complete`.
    Start,
    /// Someone else is building it: wait for its status to change.
    Wait,
    /// The build succeeded; its artefact can be used.
    Ready,
    /// The build failed; no artefact is available.
    Failed,
}

/// The serialization point for builds: the log-backed state plus the
/// builder-busy flag. At most one caller can hold the builder at a time;
/// everything the flag guards (running the build script) is done by the
/// holder alone.
#[derive(Debug)]
pub struct BuildCoordinator {
    pub state: BuildMgrState,
    building: bool,
}

impl BuildCoordinator {
    pub closed spec fn spec_state(self) -> BuildMgrState {
        self.state
    }

    pub closed spec fn spec_building(self) -> bool {
        self.building
    }

    pub fn new(state: BuildMgrState) -> (r: BuildCoordinator)
        ensures
            r.spec_state() == state,
            !r.spec_building(),
    {
        BuildCoordinator { state, building: false }
    }

    /// Try to become the builder. Succeeds exactly when nobody holds the
    /// builder; the caller then holds it until `release_builder`.
    pub fn try_take_builder(&mut self) -> (r: bool)
        ensures
            final(self).spec_state() == old(self).spec_state(),
            r == !old(self).spec_building(),
            final(self).spec_building(),
    {
        let r = !self.building;
        self.building = true;
        r
    }

    /// Give the builder up, waking one waiter (the wake-up itself is the
    /// caller's I/O).
    pub fn release_builder(&mut self)
        requires
            old(self).spec_building(),
        ensures
            final(self).spec_state() == old(self).spec_state(),
            !final(self).spec_building(),
    {
        self.building = false;
    }

    /// One step of the build loop for build `id`: a `Pending` build is
    /// claimed (status moves to `Building`) and the caller must build it; a
    /// `Building` build asks the caller to wait; a finished build reports
    /// its outcome.
    pub fn poll_build(&mut self, id: u64) -> (r: BuildPoll)
        requires
            old(self).spec_state().wf(),
            old(self).spec_state().has_id(id),
        ensures
            final(self).spec_state().wf(),
            final(self).spec_building() == old(self).spec_building(),
            final(self).spec_state().spec_by_rev() == old(self).spec_state().spec_by_rev(),
            final(self).spec_state().spec_next_build() == old(self).spec_state().spec_next_build(),
            final(self).spec_state().spec_builds().len() == old(
                self,
            ).spec_state().spec_builds().len(),
            forall|i: int|
                0 <= i < old(self).spec_state().spec_builds().len() && i != old(
                    self,
                ).spec_state().id_index(id) ==> final(self).spec_state().spec_builds()[i] == old(
                    self,
                ).spec_state().spec_builds()[i],
            ({
                let idx = old(self).spec_state().id_index(id);
                let pre_rec = old(self).spec_state().spec_builds()[idx];
                let post_rec = final(self).spec_state().spec_builds()[idx];
                match r {
                    BuildPoll::Start => pre_rec.status == BuildStatus::Pending && post_rec
                        == BuildRecord {
                        id: pre_rec.id,
                        rev: pre_rec.rev,
                        last_used: pre_rec.last_used,
                        status: BuildStatus::Building,
                    },
                    BuildPoll::Wait => pre_rec.status == BuildStatus::Building && post_rec
                        == pre_rec,
                    BuildPoll::Ready => pre_rec.status == BuildStatus::Succeeded && post_rec
                        == pre_rec,
                    BuildPoll::Failed => pre_rec.status == BuildStatus::Fail && post_rec == pre_rec,
                }
            }),
    {
        let i = match self.state.find_id(id) {
            Some(i) => i,
            None => {
                proof {
                    assert(false);
                }
                return BuildPoll::Failed;
            },
        };
        let st = self.state.builds[i].status;
        match st {
            BuildStatus::Pending => {
                self.state.builds[i].status = BuildStatus::Building;
                proof {
                    assert(self.state.wf()) by {
                        assert forall|j: int|
                            0 <= j < self.state.by_rev@.len() implies self.state.has_id(
                            (#[trigger] self.state.by_rev@[j]).1,
                        ) by {
                            assert(old(self).spec_state().has_id(self.state.by_rev@[j].1));
                            let w = choose|w: int|
                                0 <= w < old(self).spec_state().spec_builds().len() && (
                                #[trigger] old(self).spec_state().spec_builds()[w]).id
                                    == self.state.by_rev@[j].1;
                            assert(self.state.builds@[w].id == self.state.by_rev@[j].1);
                        }
                    }
                }
                BuildPoll::Start
            },
            BuildStatus::Building => BuildPoll::Wait,
            BuildStatus::Succeeded => BuildPoll::Ready,
            BuildStatus::Fail => BuildPoll::Failed,
        }
    }

    /// Mark a build failed directly, used when committing its `Complete`
    /// entry to the log failed.
    pub fn force_fail(&mut self, id: u64)
        requires
            old(self).spec_state().wf(),
            old(self).spec_state().has_id(id),
        ensures
            final(self).spec_state().wf(),
            final(self).spec_building() == old(self).spec_building(),
            final(self).spec_state().spec_builds().len() == old(
                self,
            ).spec_state().spec_builds().len(),
            final(self).spec_state().spec_builds()[old(self).spec_state().id_index(id)].status
                == BuildStatus::Fail,
    {
        let i = match self.state.find_id(id) {
            Some(i) => i,
            None => {
                proof {
                    assert(false);
                }
                return ;
            },
        };
        self.state.builds[i].status = BuildStatus::Fail;
        proof {
            assert(self.state.wf()) by {
                assert forall|j: int|
                    0 <= j < self.state.by_rev@.len() implies self.state.has_id(
                    (#[trigger] self.state.by_rev@[j]).1,
                ) by {
                    assert(old(self).spec_state().has_id(self.state.by_rev@[j].1));
                    let w = choose|w: int|
                        0 <= w < old(self).spec_state().spec_builds().len() && (#[trigger] old(
                            self,
                        ).spec_state().spec_builds()[w]).id == self.state.by_rev@[j].1;
                    assert(self.state.builds@[w].id == self.state.by_rev@[j].1);
                }
            }
        }
    }
}

/// Law: the builder is exclusive. If one caller takes the builder, a second
/// attempt before a release is refused, so at most one build runs at a
/// time.
pub proof fn lemma_single_builder(
    c0: BuildCoordinator,
    c1: BuildCoordinator,
    c2: BuildCoordinator,
    r1: bool,
    r2: bool,
)
    requires
        // the first take
        c1.spec_building(),
        r1 == !c0.spec_building(),
        // a second take before any release
        c2.spec_building(),
        r2 == !c1.spec_building(),
    ensures
        r1 ==> !r2,
{
}

} // verus!
