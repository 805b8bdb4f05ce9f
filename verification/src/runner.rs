use vstd::prelude::*;

verus! {

/// The outcome class of one test, as the conformance binary reports it.
#[derive(Debug, Clone, Copy, PartialEq, Eq, Structural)]
pub enum TestResultType {
    Pass,
    CompatibilityWarning,
    QualityWarning,
    NotSupported,
    Fail,
    ResourceError,
    InternalError,
    Crash,
    Timeout,
    Waiver,
}

/// One test's outcome with its captured output.
#[derive(Debug, Clone)]
pub struct TestResult {
    /// The short report from the result line, parentheses unwrapped.
    pub stdout: String,
    /// Everything the test printed on stdout.
    pub full_stdout: String,
    /// Captured stderr, only filled for synthesized final results.
    pub stderr: String,
    pub variant: TestResultType,
}

/// Why a run went wrong; `Timeout` dominates every other cause.
#[derive(Debug, Clone, PartialEq, Eq)]
pub enum DeqpError {
    SpawnFailed,
    ReadFailed,
    WaitFailed,
    Crash { exit_status: Option<i32> },
    Timeout,
    DeqpFatalError,
    NoTestsRun,
    Incomplete,
    ParseError,
}

/// An event of the runner's stream.
#[derive(Debug, Clone)]
pub enum DeqpEvent {
    /// The process spawned; always the first event.
    Launch { pid: u32 },
    /// One test outcome, including synthesized crashes and timeouts.
    Test { name: String, start: u64, duration: u64, result: TestResult },
    /// The run is over; always the last event. `error` is set whenever some
    /// requested test may not have run.
    Finished { error: Option<DeqpError>, stdout: String, stderr: String },
}

/// What a reader delivered: a line (newline stripped), end of stream, or a
/// read failure.
#[derive(Debug)]
pub enum LineEvent {
    Line(String),
    Eof,
    ReadError,
}

/// What the child's exit delivered.
#[derive(Debug, Clone, Copy)]
pub enum ExitInfo {
    /// The process exited; `success` per its status, with the exit code if
    /// any.
    Exited { success: bool, code: Option<i32> },
    /// Waiting for the process failed.
    WaitFailed,
}

/// Where the runner stands in its one-way lifecycle.
#[derive(Debug, Clone, Copy, PartialEq, Eq, Structural)]
pub enum RunnerPhase {
    Created,
    Launched,
    Done,
}

/// `s` begins with `p`.
pub open spec fn chars_start_with(s: Seq<char>, p: Seq<char>) -> bool {
    p.len() <= s.len() && s.subrange(0, p.len() as int) == p
}

/// `s` ends with `p`.
pub open spec fn chars_end_with(s: Seq<char>, p: Seq<char>) -> bool {
    p.len() <= s.len() && s.subrange(s.len() - p.len(), s.len() as int) == p
}

pub open spec fn char_is_ws(c: char) -> bool {
    c == ' ' || c == '\t' || c == '\n' || c == '\r'
}

pub open spec fn lead_ws_chars(s: Seq<char>) -> int
    decreases s.len(),
{
    if s.len() == 0 || !char_is_ws(s[0]) {
        0
    } else {
        1 + lead_ws_chars(s.drop_first())
    }
}

pub open spec fn trail_ws_chars(s: Seq<char>) -> int
    decreases s.len(),
{
    if s.len() == 0 || !char_is_ws(s.last()) {
        0
    } else {
        1 + trail_ws_chars(s.drop_last())
    }
}

/// `s` with ASCII whitespace removed from both ends.
pub open spec fn trim_chars(s: Seq<char>) -> Seq<char> {
    if lead_ws_chars(s) == s.len() {
        Seq::empty()
    } else {
        s.subrange(lead_ws_chars(s), s.len() - trail_ws_chars(s))
    }
}

/// `s` with one matching pair of outer parentheses removed.
pub open spec fn unwrap_parens(s: Seq<char>) -> Seq<char> {
    if s.len() >= 1 && s[0] == '(' && s.last() == ')' {
        s.subrange(1, s.len() - 1)
    } else {
        s
    }
}

/// The variant named by `tok` at the start of `rest`, in the fixed probe
/// order; no token is a prefix of another, so at most one matches.
pub open spec fn match_variant(rest: Seq<char>) -> Option<TestResultType> {
    if chars_start_with(rest, "Pass"@) {
        Some(TestResultType::Pass)
    } else if chars_start_with(rest, "CompatibilityWarning"@) {
        Some(TestResultType::CompatibilityWarning)
    } else if chars_start_with(rest, "QualityWarning"@) {
        Some(TestResultType::QualityWarning)
    } else if chars_start_with(rest, "NotSupported"@) {
        Some(TestResultType::NotSupported)
    } else if chars_start_with(rest, "Fail"@) {
        Some(TestResultType::Fail)
    } else if chars_start_with(rest, "ResourceError"@) {
        Some(TestResultType::ResourceError)
    } else if chars_start_with(rest, "InternalError"@) {
        Some(TestResultType::InternalError)
    } else if chars_start_with(rest, "Crash"@) {
        Some(TestResultType::Crash)
    } else if chars_start_with(rest, "Timeout"@) {
        Some(TestResultType::Timeout)
    } else if chars_start_with(rest, "Waiver"@) {
        Some(TestResultType::Waiver)
    } else {
        None
    }
}

pub open spec fn variant_token(v: TestResultType) -> Seq<char> {
    match v {
        TestResultType::Pass => "Pass"@,
        TestResultType::CompatibilityWarning => "CompatibilityWarning"@,
        TestResultType::QualityWarning => "QualityWarning"@,
        TestResultType::NotSupported => "NotSupported"@,
        TestResultType::Fail => "Fail"@,
        TestResultType::ResourceError => "ResourceError"@,
        TestResultType::InternalError => "InternalError"@,
        TestResultType::Crash => "Crash"@,
        TestResultType::Timeout => "Timeout"@,
        TestResultType::Waiver => "Waiver"@,
    }
}

/// A result line: two spaces, a variant token, then the short report.
pub open spec fn parse_result_line(l: Seq<char>) -> Option<(TestResultType, Seq<char>)> {
    if !chars_start_with(l, "  "@) {
        None
    } else {
        let rest = l.skip(2);
        match match_variant(rest) {
            Some(v) => Some(
                (v, unwrap_parens(trim_chars(rest.skip(variant_token(v).len() as int)))),
            ),
            None => None,
        }
    }
}

/// A test-start line: `TEST: <name>` or `Test case '<name>'..`.
pub open spec fn parse_test_start(l: Seq<char>) -> Option<Seq<char>> {
    if chars_start_with(l, "TEST: "@) {
        Some(l.skip("TEST: "@.len() as int))
    } else if chars_start_with(l, "Test case '"@) && chars_end_with(
        l.skip("Test case '"@.len() as int),
        "'.."@,
    ) {
        let mid = l.skip("Test case '"@.len() as int);
        Some(mid.take(mid.len() - "'.."@.len()))
    } else {
        None
    }
}

pub open spec fn sat_sub_u64(a: u64, b: u64) -> u64 {
    if a >= b {
        (a - b) as u64
    } else {
        0
    }
}

/// The kind of an emitted event, for the ghost record of the run.
#[derive(Debug, Clone, Copy, PartialEq, Eq, Structural)]
pub enum EvKind {
    KLaunch,
    KTest,
    KFinished,
}

/// The state of one conformance run: reader and child liveness, output
/// accumulators, the latched cause, the open test, and progress flags. The
/// caller performs all I/O and feeds what it read into this machine; the
/// machine decides everything else. The ghost `history` records the kinds
/// of the events emitted so far.
pub struct RunnerState {
    pub phase: RunnerPhase,
    pub stdout_open: bool,
    pub stderr_open: bool,
    pub child_running: bool,
    pub stdout: String,
    pub stderr: String,
    pub crash: Option<DeqpError>,
    pub current_test: Option<(String, u64)>,
    pub tests_done: bool,
    pub tests_run: bool,
    pub history: Ghost<Seq<EvKind>>,
}

impl RunnerState {
    /// The select loop is over: readers dropped and child gone.
    pub open spec fn spec_done(self) -> bool {
        !self.stdout_open && !self.stderr_open && !self.child_running
    }

    /// The shape of the event record in each phase: nothing before the
    /// launch; `Launch` first and only tests after it while running; and,
    /// once done, `Finished` last and exactly once.
    pub open spec fn wf_history(self) -> bool {
        match self.phase {
            RunnerPhase::Created => self.history@.len() == 0,
            RunnerPhase::Launched => {
                &&& self.history@.len() >= 1
                &&& self.history@[0] == EvKind::KLaunch
                &&& forall|i: int|
                    1 <= i < self.history@.len() ==> self.history@[i] == EvKind::KTest
            },
            RunnerPhase::Done => {
                &&& self.history@.len() >= 2
                &&& self.history@[0] == EvKind::KLaunch
                &&& self.history@.last() == EvKind::KFinished
                &&& forall|i: int|
                    1 <= i < self.history@.len() - 1 ==> self.history@[i] == EvKind::KTest
            },
        }
    }

    /// A fresh runner around a spawned child: both readers open, the child
    /// running, everything else empty.
    pub fn new() -> (r: RunnerState)
        ensures
            r.phase == RunnerPhase::Created,
            r.stdout_open && r.stderr_open && r.child_running,
            r.stdout@ == Seq::<char>::empty() && r.stderr@ == Seq::<char>::empty(),
            r.crash is None,
            r.current_test is None,
            !r.tests_done && !r.tests_run,
            r.wf_history(),
    {
        RunnerState {
            phase: RunnerPhase::Created,
            stdout_open: true,
            stderr_open: true,
            child_running: true,
            stdout: String::new(),
            stderr: String::new(),
            crash: None,
            current_test: None,
            tests_done: false,
            tests_run: false,
            history: Ghost(Seq::empty()),
        }
    }

    /// The first event of every run: the process id, exactly once.
    pub fn launch_event(&mut self, pid: u32) -> (r: DeqpEvent)
        requires
            old(self).phase == RunnerPhase::Created,
            old(self).wf_history(),
        ensures
            *final(self) == (RunnerState {
                phase: RunnerPhase::Launched,
                history: final(self).history,
                ..*old(self)
            }),
            final(self).history@ == old(self).history@.push(EvKind::KLaunch),
            final(self).wf_history(),
            r matches DeqpEvent::Launch { pid: p } && p == pid,
    {
        self.phase = RunnerPhase::Launched;
        proof {
            self.history@ = self.history@.push(EvKind::KLaunch);
        }
        DeqpEvent::Launch { pid }
    }

    /// Whether the select loop should stop.
    pub fn is_done(&self) -> (r: bool)
        ensures
            r == self.spec_done(),
    {
        !self.stdout_open && !self.stderr_open && !self.child_running
    }

    /// The child exited. A reported failure latches `Crash` over anything
    /// earlier but `Timeout` can still supersede it; a wait failure is
    /// latched only if nothing else is.
    pub fn on_child_exit(&mut self, info: ExitInfo)
        requires
            old(self).phase == RunnerPhase::Launched,
        ensures
            final(self).phase == old(self).phase,
            !final(self).child_running,
            final(self).stdout_open == old(self).stdout_open,
            final(self).stderr_open == old(self).stderr_open,
            final(self).stdout == old(self).stdout,
            final(self).stderr == old(self).stderr,
            final(self).current_test == old(self).current_test,
            final(self).tests_done == old(self).tests_done,
            final(self).tests_run == old(self).tests_run,
            final(self).history == old(self).history,
            final(self).crash == match info {
                ExitInfo::Exited { success, code } => if success {
                    old(self).crash
                } else {
                    Some(DeqpError::Crash { exit_status: code })
                },
                ExitInfo::WaitFailed => if old(self).crash is None {
                    Some(DeqpError::WaitFailed)
                } else {
                    old(self).crash
                },
            },
    {
        self.child_running = false;
        match info {
            ExitInfo::Exited { success, code } => {
                if !success {
                    self.crash = Some(DeqpError::Crash { exit_status: code });
                }
            },
            ExitInfo::WaitFailed => {
                if self.crash.is_none() {
                    self.crash = Some(DeqpError::WaitFailed);
                }
            },
        }
    }

    /// The per-test timer fired. The timeout latches unconditionally —
    /// hangs are the most important failures to surface — and the caller
    /// must kill the child and drop both readers.
    pub fn on_timeout(&mut self)
        requires
            old(self).phase == RunnerPhase::Launched,
        ensures
            final(self).phase == old(self).phase,
            !final(self).stdout_open && !final(self).stderr_open && !final(self).child_running,
            final(self).crash == Some(DeqpError::Timeout),
            final(self).stdout == old(self).stdout,
            final(self).stderr == old(self).stderr,
            final(self).current_test == old(self).current_test,
            final(self).tests_done == old(self).tests_done,
            final(self).tests_run == old(self).tests_run,
            final(self).history == old(self).history,
    {
        self.stdout_open = false;
        self.stderr_open = false;
        self.child_running = false;
        self.crash = Some(DeqpError::Timeout);
    }

    /// A stderr delivery: lines accumulate; a fatal-error marker latches
    /// `DeqpFatalError` if nothing is latched yet; errors close the reader.
    pub fn handle_stderr_event(&mut self, ev: LineEvent)
        requires
            old(self).phase == RunnerPhase::Launched,
            old(self).stderr_open,
        ensures
            final(self).phase == old(self).phase,
            final(self).stdout_open == old(self).stdout_open,
            final(self).child_running == old(self).child_running,
            final(self).stdout == old(self).stdout,
            final(self).current_test == old(self).current_test,
            final(self).tests_done == old(self).tests_done,
            final(self).tests_run == old(self).tests_run,
            final(self).history == old(self).history,
            match ev {
                LineEvent::Line(l) => {
                    &&& final(self).stderr_open
                    &&& final(self).stderr@ == old(self).stderr@ + l@ + seq!['\n']
                    &&& final(self).crash == (if crate::suite::find_from(l@, "FATAL ERROR: "@, 0)
                        >= 0 && old(self).crash is None {
                        Some(DeqpError::DeqpFatalError)
                    } else {
                        old(self).crash
                    })
                },
                LineEvent::Eof => {
                    &&& !final(self).stderr_open
                    &&& final(self).stderr == old(self).stderr
                    &&& final(self).crash == old(self).crash
                },
                LineEvent::ReadError => {
                    &&& !final(self).stderr_open
                    &&& final(self).stderr == old(self).stderr
                    &&& final(self).crash == (if old(self).crash is None {
                        Some(DeqpError::ReadFailed)
                    } else {
                        old(self).crash
                    })
                },
            },
    {
        match ev {
            LineEvent::Line(l) => {
                proof {
                    reveal_strlit("FATAL ERROR: ");
                }
                let fatal = crate::suite::find_first(l.as_str(), "FATAL ERROR: ");
                if fatal.is_some() && self.crash.is_none() {
                    self.crash = Some(DeqpError::DeqpFatalError);
                }
                proof {
                    reveal_strlit("\n");
                }
                self.stderr.append(l.as_str());
                self.stderr.append("\n");
                proof {
                    assert("\n"@ =~= seq!['\n']);
                    assert(self.stderr@ =~= old(self).stderr@ + l@ + seq!['\n']);
                }
            },
            LineEvent::Eof => {
                self.stderr_open = false;
            },
            LineEvent::ReadError => {
                self.stderr_open = false;
                if self.crash.is_none() {
                    self.crash = Some(DeqpError::ReadFailed);
                }
            },
        }
    }
}


/// What one stdout line does to the runner.
///
/// In order: after `DONE!` every line only accumulates; a result line
/// closes the open test with the parsed variant and short report; a result
/// line without an open test is a parse error that closes the reader; a
/// test-start line opens a new test (closing a still-open one as an
/// internal error); anything else accumulates, and `DONE!` marks the run
/// complete.
pub open spec fn stdout_line_post(
    pre: RunnerState,
    post: RunnerState,
    l: Seq<char>,
    now: u64,
    r: Option<DeqpEvent>,
) -> bool {
    if pre.tests_done {
        &&& post == (RunnerState { stdout: post.stdout, ..pre })
        &&& post.stdout@ == pre.stdout@ + l + seq!['\n']
        &&& r is None
    } else if parse_result_line(l) is Some {
        let (v, report) = parse_result_line(l)->Some_0;
        match pre.current_test {
            Some((name, start)) => {
                &&& post == (RunnerState {
                    stdout: post.stdout,
                    current_test: None,
                    history: post.history,
                    ..pre
                })
                &&& post.history@ == pre.history@.push(EvKind::KTest)
                &&& post.stdout@ == Seq::<char>::empty()
                &&& r matches Some(DeqpEvent::Test { name: n2, start: st2, duration, result })
                    && n2@ == name@ && st2 == start && duration == sat_sub_u64(now, start)
                    && result.variant == v && result.stdout@ == report && result.full_stdout@
                    == pre.stdout@ + l + seq!['\n'] && result.stderr@ == Seq::<char>::empty()
            },
            None => {
                &&& post == (RunnerState {
                    stdout: post.stdout,
                    stdout_open: false,
                    crash: post.crash,
                    ..pre
                })
                &&& post.stdout@ == pre.stdout@ + l + seq!['\n']
                &&& post.crash == (if pre.crash is None {
                    Some(DeqpError::ParseError)
                } else {
                    pre.crash
                })
                &&& r is None
            },
        }
    } else if parse_test_start(l) is Some {
        let name = parse_test_start(l)->Some_0;
        &&& post == (RunnerState {
            stdout: post.stdout,
            current_test: post.current_test,
            tests_run: true,
            history: post.history,
            ..pre
        })
        &&& post.history@ == (if pre.current_test is Some {
            pre.history@.push(EvKind::KTest)
        } else {
            pre.history@
        })
        &&& post.stdout@ == l + seq!['\n']
        &&& post.current_test matches Some((n2, s2)) && n2@ == name && s2 == now
        &&& match pre.current_test {
            Some((pn, ps)) => r matches Some(
                DeqpEvent::Test { name: n3, start: st3, duration, result },
            ) && n3@ == pn@ && st3 == ps && duration == sat_sub_u64(now, ps) && result.variant
                == TestResultType::InternalError && result.stdout@ == Seq::<char>::empty()
                && result.full_stdout@ == pre.stdout@ && result.stderr@ == Seq::<char>::empty(),
            None => r is None,
        }
    } else {
        &&& post == (RunnerState { stdout: post.stdout, tests_done: post.tests_done, ..pre })
        &&& post.stdout@ == pre.stdout@ + l + seq!['\n']
        &&& post.tests_done == (l == "DONE!"@)
        &&& r is None
    }
}

/// Does `s` start with `pat`?
pub(crate) fn str_starts_with(s: &str, pat: &str) -> (r: bool)
    ensures
        r == chars_start_with(s@, pat@),
{
    let n = s.unicode_len();
    let m = pat.unicode_len();
    if m > n {
        return false;
    }
    let mut i: usize = 0;
    while i < m
        invariant
            n == s@.len(),
            m == pat@.len(),
            m <= n,
            0 <= i <= m,
            forall|j: int| 0 <= j < i ==> s@[j] == pat@[j],
        decreases m - i,
    {
        if s.get_char(i) != pat.get_char(i) {
            proof {
                assert(s@.subrange(0, m as int)[i as int] != pat@[i as int]);
            }
            return false;
        }
        i = i + 1;
    }
    proof {
        assert(s@.subrange(0, m as int) =~= pat@);
    }
    true
}

/// Does `s` end with `pat`?
fn str_ends_with(s: &str, pat: &str) -> (r: bool)
    ensures
        r == chars_end_with(s@, pat@),
{
    let n = s.unicode_len();
    let m = pat.unicode_len();
    if m > n {
        return false;
    }
    let off = n - m;
    let mut i: usize = 0;
    while i < m
        invariant
            n == s@.len(),
            m == pat@.len(),
            m <= n,
            off == n - m,
            0 <= i <= m,
            forall|j: int| 0 <= j < i ==> s@[off + j] == pat@[j],
        decreases m - i,
    {
        if s.get_char(off + i) != pat.get_char(i) {
            proof {
                assert(s@.subrange(off as int, n as int)[i as int] != pat@[i as int]);
            }
            return false;
        }
        i = i + 1;
    }
    proof {
        assert(s@.subrange(off as int, n as int) =~= pat@);
    }
    true
}

/// Is the character at `i` ASCII whitespace?
fn is_ws_at(s: &str, i: usize) -> (r: bool)
    requires
        i < s@.len(),
    ensures
        r == char_is_ws(s@[i as int]),
{
    let c = s.get_char(i);
    c == ' ' || c == '\t' || c == '\n' || c == '\r'
}

proof fn lemma_lead_ws_chars(s: Seq<char>)
    ensures
        0 <= lead_ws_chars(s) <= s.len(),
        forall|j: int| 0 <= j < lead_ws_chars(s) ==> char_is_ws(#[trigger] s[j]),
        lead_ws_chars(s) < s.len() ==> !char_is_ws(s[lead_ws_chars(s)]),
    decreases s.len(),
{
    if s.len() > 0 && char_is_ws(s[0]) {
        lemma_lead_ws_chars(s.drop_first());
        assert forall|j: int| 0 <= j < lead_ws_chars(s) implies char_is_ws(#[trigger] s[j]) by {
            if j > 0 {
                assert(s.drop_first()[j - 1] == s[j]);
            }
        }
        if lead_ws_chars(s) < s.len() {
            assert(s.drop_first()[lead_ws_chars(s) - 1] == s[lead_ws_chars(s)]);
        }
    }
}

proof fn lemma_trail_ws_chars(s: Seq<char>)
    ensures
        0 <= trail_ws_chars(s) <= s.len(),
        forall|j: int| s.len() - trail_ws_chars(s) <= j < s.len() ==> char_is_ws(#[trigger] s[j]),
        trail_ws_chars(s) < s.len() ==> !char_is_ws(s[s.len() - trail_ws_chars(s) - 1]),
    decreases s.len(),
{
    if s.len() > 0 && char_is_ws(s.last()) {
        lemma_trail_ws_chars(s.drop_last());
        assert forall|j: int| s.len() - trail_ws_chars(s) <= j < s.len() implies char_is_ws(
            #[trigger] s[j],
        ) by {
            if j < s.len() - 1 {
                assert(s.drop_last()[j] == s[j]);
            }
        }
        if trail_ws_chars(s) < s.len() {
            assert(s.drop_last()[s.len() - trail_ws_chars(s) - 1] == s[s.len() - trail_ws_chars(s)
                - 1]);
        }
    }
}

/// Trim ASCII whitespace from both ends, then unwrap one pair of outer
/// parentheses: the short report of a result line.
fn trim_unwrap(s: &str) -> (r: String)
    ensures
        r@ == unwrap_parens(trim_chars(s@)),
{
    proof {
        lemma_lead_ws_chars(s@);
        lemma_trail_ws_chars(s@);
    }
    let n = s.unicode_len();
    let mut a: usize = 0;
    while a < n && is_ws_at(s, a)
        invariant
            n == s@.len(),
            0 <= a <= n,
            forall|j: int| 0 <= j < a ==> char_is_ws(#[trigger] s@[j]),
            a <= lead_ws_chars(s@),
        decreases n - a,
    {
        proof {
            lemma_lead_ws_chars(s@);
            if lead_ws_chars(s@) == a {
                assert(!char_is_ws(s@[a as int]));
            }
        }
        a = a + 1;
    }
    proof {
        lemma_lead_ws_chars(s@);
        if a < n {
            assert(!char_is_ws(s@[a as int]));
            if a < lead_ws_chars(s@) {
                assert(char_is_ws(s@[a as int]));
            }
        }
        assert(a == lead_ws_chars(s@));
    }
    if a == n {
        proof {
            assert(trim_chars(s@) =~= Seq::<char>::empty());
            assert(unwrap_parens(trim_chars(s@)) =~= Seq::<char>::empty());
        }
        return String::new();
    }
    let mut b: usize = n;
    while b > 0 && is_ws_at(s, b - 1)
        invariant
            n == s@.len(),
            0 <= b <= n,
            forall|j: int| b <= j < n ==> char_is_ws(#[trigger] s@[j]),
            n - b <= trail_ws_chars(s@),
        decreases b,
    {
        proof {
            lemma_trail_ws_chars(s@);
            if trail_ws_chars(s@) == n - b {
                assert(!char_is_ws(s@[n - trail_ws_chars(s@) - 1]));
            }
        }
        b = b - 1;
    }
    proof {
        lemma_trail_ws_chars(s@);
        if b > 0 {
            assert(!char_is_ws(s@[b - 1]));
            if n - b < trail_ws_chars(s@) {
                assert(char_is_ws(s@[b - 1]));
            }
        }
        assert(n - b == trail_ws_chars(s@));
        assert(a < b);
    }
    let t = s.substring_char(a, b);
    proof {
        assert(t@ == trim_chars(s@));
    }
    let tl = t.unicode_len();
    if tl >= 1 && t.get_char(0) == '(' && t.get_char(tl - 1) == ')' {
        proof {
            assert(t@.last() == ')');
        }
        let u = t.substring_char(1, tl - 1);
        return String::from_str(u);
    }
    String::from_str(t)
}

/// Rebuild an equal error value (the fields are plain).
fn copy_deqp_error(e: &DeqpError) -> (r: DeqpError)
    ensures
        r == *e,
{
    match e {
        DeqpError::SpawnFailed => DeqpError::SpawnFailed,
        DeqpError::ReadFailed => DeqpError::ReadFailed,
        DeqpError::WaitFailed => DeqpError::WaitFailed,
        DeqpError::Crash { exit_status } => DeqpError::Crash { exit_status: *exit_status },
        DeqpError::Timeout => DeqpError::Timeout,
        DeqpError::DeqpFatalError => DeqpError::DeqpFatalError,
        DeqpError::NoTestsRun => DeqpError::NoTestsRun,
        DeqpError::Incomplete => DeqpError::Incomplete,
        DeqpError::ParseError => DeqpError::ParseError,
    }
}

impl RunnerState {
    /// Feed one stdout delivery into the machine, at wall-clock instant
    /// `now` (nanoseconds). A returned event is one test's outcome; the
    /// caller should also reset its per-test timer whenever an event with a
    /// parsed result comes back.
    #[verifier::rlimit(100)]
    pub fn handle_stdout_event(&mut self, ev: LineEvent, now: u64) -> (r: Option<DeqpEvent>)
        requires
            old(self).phase == RunnerPhase::Launched,
            old(self).stdout_open,
            old(self).wf_history(),
        ensures
            final(self).phase == old(self).phase,
            final(self).wf_history(),
            final(self).stderr == old(self).stderr,
            final(self).stderr_open == old(self).stderr_open,
            final(self).child_running == old(self).child_running,
            match ev {
                LineEvent::Line(l) => stdout_line_post(*old(self), *final(self), l@, now, r),
                LineEvent::Eof => *final(self) == (RunnerState {
                    stdout_open: false,
                    ..*old(self)
                }) && r is None,
                LineEvent::ReadError => {
                    &&& *final(self) == (RunnerState {
                        stdout_open: false,
                        crash: final(self).crash,
                        ..*old(self)
                    })
                    &&& final(self).crash == (if old(self).crash is None {
                        Some(DeqpError::ReadFailed)
                    } else {
                        old(self).crash
                    })
                    &&& r is None
                },
            },
    {
        let l = match ev {
            LineEvent::Eof => {
                self.stdout_open = false;
                return None;
            },
            LineEvent::ReadError => {
                self.stdout_open = false;
                if self.crash.is_none() {
                    self.crash = Some(DeqpError::ReadFailed);
                }
                return None;
            },
            LineEvent::Line(l) => l,
        };
        proof {
            reveal_strlit("\n");
        }
        if self.tests_done {
            self.stdout.append(l.as_str());
            self.stdout.append("\n");
            proof {
                assert(self.stdout@ =~= old(self).stdout@ + l@ + seq!['\n']);
            }
            return None;
        }
        // a result line?
        if str_starts_with(l.as_str(), "  ") {
            let ln = l.as_str().unicode_len();
            proof {
                reveal_strlit("  ");
            }
            let rest = l.as_str().substring_char(2, ln);
            proof {
                assert(rest@ == l@.skip(2));
            }
            let found: Option<(TestResultType, usize)> = if str_starts_with(rest, "Pass") {
                proof {
                    reveal_strlit("Pass");
                }
                Some((TestResultType::Pass, 4))
            } else if str_starts_with(rest, "CompatibilityWarning") {
                proof {
                    reveal_strlit("CompatibilityWarning");
                }
                Some((TestResultType::CompatibilityWarning, 20))
            } else if str_starts_with(rest, "QualityWarning") {
                proof {
                    reveal_strlit("QualityWarning");
                }
                Some((TestResultType::QualityWarning, 14))
            } else if str_starts_with(rest, "NotSupported") {
                proof {
                    reveal_strlit("NotSupported");
                }
                Some((TestResultType::NotSupported, 12))
            } else if str_starts_with(rest, "Fail") {
                proof {
                    reveal_strlit("Fail");
                }
                Some((TestResultType::Fail, 4))
            } else if str_starts_with(rest, "ResourceError") {
                proof {
                    reveal_strlit("ResourceError");
                }
                Some((TestResultType::ResourceError, 13))
            } else if str_starts_with(rest, "InternalError") {
                proof {
                    reveal_strlit("InternalError");
                }
                Some((TestResultType::InternalError, 13))
            } else if str_starts_with(rest, "Crash") {
                proof {
                    reveal_strlit("Crash");
                }
                Some((TestResultType::Crash, 5))
            } else if str_starts_with(rest, "Timeout") {
                proof {
                    reveal_strlit("Timeout");
                }
                Some((TestResultType::Timeout, 7))
            } else if str_starts_with(rest, "Waiver") {
                proof {
                    reveal_strlit("Waiver");
                }
                Some((TestResultType::Waiver, 6))
            } else {
                None
            };
            if let Some((variant, toklen)) = found {
                proof {
                    assert(match_variant(l@.skip(2)) == Some(variant));
                    assert(variant_token(variant).len() == toklen);
                }
                let restn = rest.unicode_len();
                let after = rest.substring_char(toklen, restn);
                let report = trim_unwrap(after);
                proof {
                    assert(after@ == l@.skip(2).skip(toklen as int));
                    assert(report@ == parse_result_line(l@)->Some_0.1);
                }
                self.stdout.append(l.as_str());
                self.stdout.append("\n");
                let (name, start) = match &self.current_test {
                    Some((n, s)) => {
                        let nm = n.clone();
                        let st = *s;
                        (nm, st)
                    },
                    None => {
                        self.stdout_open = false;
                        if self.crash.is_none() {
                            self.crash = Some(DeqpError::ParseError);
                        }
                        proof {
                            assert(self.stdout@ =~= old(self).stdout@ + l@ + seq!['\n']);
                        }
                        return None;
                    },
                };
                self.current_test = None;
                let full = self.stdout.clone();
                self.stdout = String::new();
                proof {
                    self.history@ = self.history@.push(EvKind::KTest);
                }
                let duration = if now >= start {
                    now - start
                } else {
                    0
                };
                proof {
                    assert(full@ =~= old(self).stdout@ + l@ + seq!['\n']);
                }
                return Some(
                    DeqpEvent::Test {
                        name,
                        start,
                        duration,
                        result: TestResult {
                            stdout: report,
                            full_stdout: full,
                            stderr: String::new(),
                            variant,
                        },
                    },
                );
            }
        }
        // a test-start line?
        proof {
            reveal_strlit("TEST: ");
            reveal_strlit("Test case '");
            reveal_strlit("'..");
        }
        let ln = l.as_str().unicode_len();
        let started: Option<String> = if str_starts_with(l.as_str(), "TEST: ") {
            Some(String::from_str(l.as_str().substring_char(6, ln)))
        } else if str_starts_with(l.as_str(), "Test case '") && {
            let mid = l.as_str().substring_char(11, ln);
            str_ends_with(mid, "'..")
        } {
            let mid = l.as_str().substring_char(11, ln);
            let midn = mid.unicode_len();
            Some(String::from_str(mid.substring_char(0, midn - 3)))
        } else {
            None
        };
        if let Some(name) = started {
            proof {
                assert(parse_test_start(l@) is Some);
                assert(name@ == parse_test_start(l@)->Some_0);
            }
            let ev2 = match &self.current_test {
                Some((pn, ps)) => {
                    let nm = pn.clone();
                    let st = *ps;
                    let duration = if now >= st {
                        now - st
                    } else {
                        0
                    };
                    let full = self.stdout.clone();
                    Some(
                        DeqpEvent::Test {
                            name: nm,
                            start: st,
                            duration,
                            result: TestResult {
                                stdout: String::new(),
                                full_stdout: full,
                                stderr: String::new(),
                                variant: TestResultType::InternalError,
                            },
                        },
                    )
                },
                None => None,
            };
            self.stdout = String::new();
            self.stdout.append(l.as_str());
            self.stdout.append("\n");
            self.current_test = Some((name, now));
            self.tests_run = true;
            proof {
                if ev2 is Some {
                    self.history@ = self.history@.push(EvKind::KTest);
                }
            }
            proof {
                assert(self.stdout@ =~= l@ + seq!['\n']);
            }
            return ev2;
        }
        // plain accumulation; DONE! flips the flag
        proof {
            reveal_strlit("DONE!");
        }
        self.stdout.append(l.as_str());
        self.stdout.append("\n");
        if ln == 5 && str_starts_with(l.as_str(), "DONE!") {
            self.tests_done = true;
            proof {
                assert(l@ =~= "DONE!"@);
            }
        } else {
            proof {
                if l@ == "DONE!"@ {
                    assert(chars_start_with(l@, "DONE!"@)) by {
                        assert(l@.subrange(0, 5) =~= "DONE!"@);
                    }
                    assert(false);
                }
            }
        }
        proof {
            assert(self.stdout@ =~= old(self).stdout@ + l@ + seq!['\n']);
        }
        None
    }

    /// After the loop: if a test is still open, close it with a synthesized
    /// outcome — `Timeout` if the timeout latched (preserving the hang),
    /// `Crash` otherwise — carrying all accumulated output.
    pub fn flush_current(&mut self, now: u64) -> (r: Option<DeqpEvent>)
        requires
            old(self).phase == RunnerPhase::Launched,
            old(self).spec_done(),
            old(self).wf_history(),
        ensures
            final(self).phase == old(self).phase,
            final(self).spec_done(),
            final(self).wf_history(),
            final(self).history@ == (if old(self).current_test is Some {
                old(self).history@.push(EvKind::KTest)
            } else {
                old(self).history@
            }),
            match old(self).current_test {
                Some((pn, ps)) => {
                    &&& r matches Some(DeqpEvent::Test { name, start, duration, result })
                        && name@ == pn@ && start == ps && duration == sat_sub_u64(now, ps)
                        && result.variant == (if old(self).crash == Some(DeqpError::Timeout) {
                        TestResultType::Timeout
                    } else {
                        TestResultType::Crash
                    }) && result.stdout@ == Seq::<char>::empty() && result.full_stdout@ == old(
                        self,
                    ).stdout@ && result.stderr@ == old(self).stderr@
                    &&& final(self).current_test is None
                    &&& final(self).stdout@ == Seq::<char>::empty()
                    &&& final(self).stderr@ == Seq::<char>::empty()
                    &&& final(self).crash == Some(
                        if old(self).crash == Some(DeqpError::Timeout) {
                            DeqpError::Timeout
                        } else {
                            DeqpError::Incomplete
                        },
                    )
                    &&& final(self).tests_done == old(self).tests_done
                    &&& final(self).tests_run == old(self).tests_run
                },
                None => r is None && *final(self) == *old(self),
            },
    {
        let (name, start) = match &self.current_test {
            Some((n, s)) => (n.clone(), *s),
            None => {
                return None;
            },
        };
        self.current_test = None;
        proof {
            self.history@ = self.history@.push(EvKind::KTest);
        }
        let was_timeout = matches!(self.crash, Some(DeqpError::Timeout));
        self.crash = if was_timeout {
            Some(DeqpError::Timeout)
        } else {
            Some(DeqpError::Incomplete)
        };
        let full = self.stdout.clone();
        let errs = self.stderr.clone();
        self.stdout = String::new();
        self.stderr = String::new();
        let duration = if now >= start {
            now - start
        } else {
            0
        };
        Some(
            DeqpEvent::Test {
                name,
                start,
                duration,
                result: TestResult {
                    stdout: String::new(),
                    full_stdout: full,
                    stderr: errs,
                    variant: if was_timeout {
                        TestResultType::Timeout
                    } else {
                        TestResultType::Crash
                    },
                },
            },
        )
    }

    /// The last event of every run, exactly once: the most informative
    /// latched cause — `Timeout` over `Crash` over `Incomplete` over
    /// `NoTestsRun` — or nothing when every requested test ran.
    pub fn finished_event(&mut self) -> (r: DeqpEvent)
        requires
            old(self).phase == RunnerPhase::Launched,
            old(self).spec_done(),
            old(self).current_test is None,
            old(self).wf_history(),
        ensures
            final(self).phase == RunnerPhase::Done,
            final(self).history@ == old(self).history@.push(EvKind::KFinished),
            final(self).wf_history(),
            r matches DeqpEvent::Finished { error, stdout, stderr } && stdout@ == old(self).stdout@
                && stderr@ == old(self).stderr@ && error == (match old(self).crash {
                Some(e) => Some(e),
                None => if !old(self).tests_run {
                    Some(DeqpError::NoTestsRun)
                } else if !old(self).tests_done {
                    Some(DeqpError::Incomplete)
                } else {
                    None
                },
            }),
    {
        self.phase = RunnerPhase::Done;
        proof {
            self.history@ = self.history@.push(EvKind::KFinished);
        }
        let error = match &self.crash {
            Some(e) => Some(copy_deqp_error(e)),
            None => {
                if !self.tests_run {
                    Some(DeqpError::NoTestsRun)
                } else if !self.tests_done {
                    Some(DeqpError::Incomplete)
                } else {
                    None
                }
            },
        };
        let stdout = self.stdout.clone();
        let stderr = self.stderr.clone();
        self.stdout = String::new();
        self.stderr = String::new();
        DeqpEvent::Finished { error, stdout, stderr }
    }
}


/// Law: a finished run's events are well ordered. `Launch` comes first and
/// exactly once, `Finished` comes last and exactly once, and everything in
/// between is a test outcome. The machine enforces this by construction:
/// `launch_event` is the only emitter accepted before the run, and
/// `finished_event` moves the machine to its final phase, where nothing
/// more is accepted.
pub proof fn lemma_runner_event_order(st: RunnerState)
    requires
        st.phase == RunnerPhase::Done,
        st.wf_history(),
    ensures
        st.history@.len() >= 2,
        st.history@[0] == EvKind::KLaunch,
        st.history@.last() == EvKind::KFinished,
        forall|i: int|
            0 < i < st.history@.len() ==> (#[trigger] st.history@[i]) != EvKind::KLaunch,
        forall|i: int|
            0 <= i < st.history@.len() - 1 ==> (#[trigger] st.history@[i]) != EvKind::KFinished,
{
}

} // verus!
