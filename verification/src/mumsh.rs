use vstd::prelude::*;

use crate::strutil::{chars_append, chars_to_string, dec_int, i32_to_chars, i32_to_string};
use crate::types::{str_views, Job, JobStatus};
use std::io::Write;

verus! {

/// What one non-blocking wait probe of a child reported.
#[derive(Clone, Copy, PartialEq, Eq, Structural, Debug)]
pub enum WaitOutcome {
    /// The child exited with this status code; it leaves the job's membership.
    Exited(i32),
    /// The child was killed by a signal.
    Signaled,
    /// The child was stopped; the flag says whether by terminal input
    /// (`SIGTTIN`). It stays a member of its job.
    Stopped(bool),
    /// No state change to report.
    StillAlive,
    /// Any other report (trace events, continuation).
    OtherStatus,
    /// The wait call itself failed.
    WaitErr,
}

/// Relies on nix's `waitpid` with `WNOHANG | WUNTRACED | WCONTINUED`: a
/// non-blocking status probe of one child process. Nothing is promised of the
/// outcome: it depends on process state outside this program.
#[verifier::external_body]
fn waitpid_nohang(pid: i32) -> WaitOutcome {
    let options = nix::sys::wait::WaitPidFlag::WUNTRACED | nix::sys::wait::WaitPidFlag::WCONTINUED
        | nix::sys::wait::WaitPidFlag::WNOHANG;
    match nix::sys::wait::waitpid(nix::unistd::Pid::from_raw(pid), Some(options)) {
        Ok(nix::sys::wait::WaitStatus::Exited(_, code)) => WaitOutcome::Exited(code),
        Ok(nix::sys::wait::WaitStatus::Signaled(..)) => WaitOutcome::Signaled,
        Ok(nix::sys::wait::WaitStatus::Stopped(_, sig)) => WaitOutcome::Stopped(
            sig == nix::sys::signal::Signal::SIGTTIN,
        ),
        Ok(nix::sys::wait::WaitStatus::StillAlive) => WaitOutcome::StillAlive,
        Ok(_) => WaitOutcome::OtherStatus,
        Err(_) => WaitOutcome::WaitErr,
    }
}

/// Relies on std's `writeln` to standard output.
#[verifier::external_body]
fn write_line(s: &str) {
    let mut out = std::io::stdout();
    let _ = writeln!(out, "{}", s);
}

/// Relies on std's `writeln` to standard error.
#[verifier::external_body]
fn write_err_line(s: &str) {
    let mut err = std::io::stderr();
    let _ = writeln!(err, "{}", s);
}

/// Relies on nix's `tcsetpgrp` on the shell's terminal (descriptor 1): makes
/// `pgid` the terminal's foreground process group. Returns whether the call
/// succeeded; a failure is reported to standard error.
#[verifier::external_body]
fn tcsetpgrp_terminal(pgid: i32) -> bool {
    match nix::unistd::tcsetpgrp(1, nix::unistd::Pid::from_raw(pgid)) {
        Ok(()) => true,
        Err(e) => {
            let mut err = std::io::stderr();
            let _ = writeln!(err, "tcsetpgrp {}", e);
            false
        },
    }
}

/// The first index at or after `i` whose entry is for `pid`; `-1` if none.
pub open spec fn find_pid(st: Seq<(i32, JobStatus)>, pid: i32, i: int) -> int
    decreases st.len() - i,
{
    if i < 0 || i >= st.len() {
        -1
    } else if st[i].0 == pid {
        i
    } else {
        find_pid(st, pid, i + 1)
    }
}

/// The status list after recording `s` for `pid`: updated in place if present,
/// appended otherwise.
pub open spec fn set_status_spec(st: Seq<(i32, JobStatus)>, pid: i32, s: JobStatus) -> Seq<
    (i32, JobStatus),
> {
    let k = find_pid(st, pid, 0);
    if k >= 0 {
        st.update(k, (pid, s))
    } else {
        st.push((pid, s))
    }
}

/// Record status `s` for `pid` in a job's status list.
fn set_status(st: &mut Vec<(i32, JobStatus)>, pid: i32, s: JobStatus)
    ensures
        final(st)@ == set_status_spec(old(st)@, pid, s),
{
    let ghost st0 = st@;
    let n = st.len();
    let mut i: usize = 0;
    while i < n
        invariant
            0 <= i <= n,
            n == st@.len(),
            st@ == st0,
            st0 == old(st)@,
            find_pid(st0, pid, 0) == find_pid(st0, pid, i as int),
        decreases n - i,
    {
        if st[i].0 == pid {
            let _ = st.remove(i);
            st.insert(i, (pid, s));
            proof {
                assert(find_pid(st0, pid, i as int) == i);
                assert(st@ =~= st0.update(i as int, (pid, s)));
            }
            return ;
        }
        i = i + 1;
    }
    st.push((pid, s));
}

/// A job's status list names each pid at most once.
pub open spec fn status_unique(st: Seq<(i32, JobStatus)>) -> bool {
    forall|a: int, b: int| 0 <= a < b < st.len() ==> (#[trigger] st[a]).0 != (#[trigger] st[b]).0
}

pub open spec fn job_wf(j: Job) -> bool {
    status_unique(j.status@)
}

proof fn lemma_find_pid_found(st: Seq<(i32, JobStatus)>, pid: i32, i: int)
    requires
        0 <= i <= st.len(),
    ensures
        find_pid(st, pid, i) >= 0 ==> i <= find_pid(st, pid, i) < st.len() && st[find_pid(
            st,
            pid,
            i,
        )].0 == pid,
    decreases st.len() - i,
{
    if i < st.len() && st[i].0 != pid {
        lemma_find_pid_found(st, pid, i + 1);
    }
}

/// Recording a status keeps the status list's pids unique.
proof fn lemma_set_status_unique(st: Seq<(i32, JobStatus)>, pid: i32, s: JobStatus)
    requires
        status_unique(st),
    ensures
        status_unique(set_status_spec(st, pid, s)),
{
    let k = find_pid(st, pid, 0);
    lemma_find_pid_found(st, pid, 0);
    if k >= 0 {
    } else {
        lemma_find_pid_missing(st, pid, 0);
        let st2 = st.push((pid, s));
        assert forall|a: int, b: int| 0 <= a < b < st2.len() implies (#[trigger] st2[a]).0 != (
        #[trigger] st2[b]).0 by {
            if b == st.len() {
                assert(st2[a] == st[a]);
                assert(st[a].0 != pid);
            } else {
                assert(st2[a] == st[a]);
                assert(st2[b] == st[b]);
            }
        }
    }
}

proof fn lemma_find_pid_missing(st: Seq<(i32, JobStatus)>, pid: i32, i: int)
    requires
        0 <= i <= st.len(),
    ensures
        find_pid(st, pid, i) < 0 ==> forall|a: int|
            i <= a < st.len() ==> (#[trigger] st[a]).0 != pid,
    decreases st.len() - i,
{
    if i < st.len() {
        lemma_find_pid_missing(st, pid, i + 1);
    }
}

/// Apply one wait outcome for member `pi` of a job: an exit records the code
/// and removes the pid from membership; a stop records `Stopped` and keeps it;
/// anything else changes nothing. Returns whether the caller should advance
/// to the next member (false exactly when the pid was removed).
pub fn apply_outcome(job: &mut Job, pi: usize, outcome: WaitOutcome) -> (advance: bool)
    requires
        pi < old(job).pids@.len(),
        job_wf(*old(job)),
    ensures
        job_wf(*final(job)),
        final(job).id == old(job).id,
        final(job).pgid == old(job).pgid,
        match outcome {
            WaitOutcome::Exited(code) => final(job).pids@ == old(job).pids@.subrange(0, pi as int)
                + old(job).pids@.subrange(pi + 1, old(job).pids@.len() as int) && final(job).status@
                == set_status_spec(old(job).status@, old(job).pids@[pi as int], JobStatus::Exited(code))
                && !advance,
            WaitOutcome::Stopped(_) => final(job).pids@ == old(job).pids@ && final(job).status@
                == set_status_spec(old(job).status@, old(job).pids@[pi as int], JobStatus::Stopped)
                && advance,
            _ => *final(job) == *old(job) && advance,
        },
{
    match outcome {
        WaitOutcome::Exited(code) => {
            let pid = job.pids[pi];
            set_status(&mut job.status, pid, JobStatus::Exited(code));
            job.pids.remove(pi);
            proof {
                lemma_set_status_unique(old(job).status@, pid, JobStatus::Exited(code));
            }
            false
        },
        WaitOutcome::Stopped(_) => {
            let pid = job.pids[pi];
            set_status(&mut job.status, pid, JobStatus::Stopped);
            proof {
                lemma_set_status_unique(old(job).status@, pid, JobStatus::Stopped);
            }
            true
        },
        _ => true,
    }
}

pub open spec fn spaces(n: int) -> Seq<char>
    decreases n,
{
    if n <= 0 {
        Seq::<char>::empty()
    } else {
        spaces(n - 1).push(' ')
    }
}

/// `s` padded with spaces on the right to at least width `w`.
pub open spec fn pad_to(s: Seq<char>, w: int) -> Seq<char> {
    if s.len() >= w {
        s
    } else {
        s + spaces(w - s.len())
    }
}

/// The text a status report shows for one member status.
pub open spec fn status_text(s: JobStatus) -> Seq<char> {
    match s {
        JobStatus::Running => seq!['r', 'u', 'n', 'n', 'i', 'n', 'g'],
        JobStatus::Exited(x) => if x == 0 {
            seq!['d', 'o', 'n', 'e']
        } else {
            seq!['e', 'x', 'i', 't', ' '] + dec_int(x as int)
        },
        JobStatus::Stopped => seq!['s', 'u', 's', 'p', 'e', 'n', 'd', 'e', 'd'],
    }
}

/// The state of the status-report builder: finished lines, the line being
/// built, and the status of the group it describes.
pub ghost struct ReportSt {
    pub lines: Seq<Seq<char>>,
    pub cur: Seq<char>,
    pub prev: Option<JobStatus>,
}

/// One step of the report builder: a pid whose status matches the current
/// group joins its line; otherwise the line is flushed and a new group line
/// starts, headed by the job id (first group) or padding, then the status
/// text padded to a column, then the pid.
pub open spec fn report_step(st: ReportSt, id: int, idx: int, pid: int, s: JobStatus) -> ReportSt {
    if st.prev == Some(s) {
        ReportSt { lines: st.lines, cur: st.cur + seq![' ', ' '] + dec_int(pid), prev: st.prev }
    } else {
        let lines2 = if st.cur.len() > 0 {
            st.lines.push(st.cur)
        } else {
            st.lines
        };
        let head = if idx == 0 {
            pad_to(seq!['['] + dec_int(id) + seq![']'], 6)
        } else {
            spaces(6)
        };
        ReportSt {
            lines: lines2,
            cur: head + pad_to(status_text(s), 15) + seq![' ', ' '] + dec_int(pid),
            prev: Some(s),
        }
    }
}

pub open spec fn report_scan(status: Seq<(i32, JobStatus)>, id: int, n: int) -> ReportSt
    decreases n,
{
    if n <= 0 {
        ReportSt { lines: seq![], cur: seq![], prev: None }
    } else {
        report_step(
            report_scan(status, id, n - 1),
            id,
            n - 1,
            status[n - 1].0 as int,
            status[n - 1].1,
        )
    }
}

/// The lines a job's status report prints: member pids grouped by consecutive
/// equal statuses, one line per group.
pub open spec fn job_report(j: Job) -> Seq<Seq<char>> {
    let st = report_scan(j.status@, j.id as int, j.status@.len() as int);
    if st.cur.len() > 0 {
        st.lines.push(st.cur)
    } else {
        st.lines
    }
}

/// Pad `v` with spaces on the right to at least width `w`.
fn pad_chars(v: &mut Vec<char>, w: usize)
    ensures
        final(v)@ == pad_to(old(v)@, w as int),
{
    proof {
        assert(v@ =~= old(v)@ + spaces(0));
    }
    while v.len() < w
        invariant
            exists|k: int| 0 <= k && v@ == old(v)@ + spaces(k),
            old(v)@.len() >= w ==> v@ == old(v)@,
            old(v)@.len() < w ==> v@.len() <= w,
        decreases w - v@.len(),
    {
        let ghost k0: int = choose|k: int| 0 <= k && v@ == old(v)@ + spaces(k);
        v.push(' ');
        proof {
            assert(v@ =~= old(v)@ + spaces(k0 + 1));
        }
    }
    proof {
        if old(v)@.len() >= w {
            assert(v@ == pad_to(old(v)@, w as int));
        } else {
            let k0: int = choose|k: int| 0 <= k && v@ == old(v)@ + spaces(k);
            lemma_spaces_len(k0);
            assert(v@.len() == old(v)@.len() + k0);
            assert(k0 == w - old(v)@.len());
            assert(v@ == pad_to(old(v)@, w as int));
        }
    }
}

proof fn lemma_spaces_len(n: int)
    ensures
        n >= 0 ==> spaces(n).len() == n,
    decreases n,
{
    if n > 0 {
        lemma_spaces_len(n - 1);
    }
}

fn status_text_exec(s: JobStatus) -> (r: Vec<char>)
    ensures
        r@ == status_text(s),
{
    match s {
        JobStatus::Running => {
            let mut v: Vec<char> = Vec::new();
            v.push('r');
            v.push('u');
            v.push('n');
            v.push('n');
            v.push('i');
            v.push('n');
            v.push('g');
            proof {
                assert(v@ =~= status_text(s));
            }
            v
        },
        JobStatus::Exited(x) => {
            if x == 0 {
                let mut v: Vec<char> = Vec::new();
                v.push('d');
                v.push('o');
                v.push('n');
                v.push('e');
                proof {
                    assert(v@ =~= status_text(s));
                }
                v
            } else {
                let mut v: Vec<char> = Vec::new();
                v.push('e');
                v.push('x');
                v.push('i');
                v.push('t');
                v.push(' ');
                let d = i32_to_chars(x);
                chars_append(&mut v, &d);
                proof {
                    assert(v@ =~= status_text(s));
                }
                v
            }
        },
        JobStatus::Stopped => {
            let mut v: Vec<char> = Vec::new();
            v.push('s');
            v.push('u');
            v.push('s');
            v.push('p');
            v.push('e');
            v.push('n');
            v.push('d');
            v.push('e');
            v.push('d');
            proof {
                assert(v@ =~= status_text(s));
            }
            v
        },
    }
}

impl Job {
    /// The lines of this job's status report, grouping consecutive pids that
    /// share a status.
    pub fn status_lines(&self) -> (r: Vec<String>)
        ensures
            str_views(r@) == job_report(*self),
    {
        let n = self.status.len();
        let mut lines: Vec<String> = Vec::new();
        let mut cur: Vec<char> = Vec::new();
        let mut prev: Option<JobStatus> = None;
        let mut i: usize = 0;
        while i < n
            invariant
                0 <= i <= n,
                n == self.status@.len(),
                str_views(lines@) == report_scan(self.status@, self.id as int, i as int).lines,
                cur@ == report_scan(self.status@, self.id as int, i as int).cur,
                prev == report_scan(self.status@, self.id as int, i as int).prev,
            decreases n - i,
        {
            let ghost st = report_scan(self.status@, self.id as int, i as int);
            proof {
                assert(report_scan(self.status@, self.id as int, i + 1) == report_step(
                    st,
                    self.id as int,
                    i as int,
                    self.status@[i as int].0 as int,
                    self.status@[i as int].1,
                ));
            }
            let (pid, s) = self.status[i];
            let same = match prev {
                Some(p) => p == s,
                None => false,
            };
            if same {
                cur.push(' ');
                cur.push(' ');
                let d = i32_to_chars(pid);
                chars_append(&mut cur, &d);
                proof {
                    assert(cur@ =~= st.cur + seq![' ', ' '] + dec_int(pid as int));
                }
            } else {
                if cur.len() > 0 {
                    let line = chars_to_string(&cur);
                    lines.push(line);
                }
                let mut head: Vec<char> = Vec::new();
                if i == 0 {
                    head.push('[');
                    let d = i32_to_chars(self.id);
                    chars_append(&mut head, &d);
                    head.push(']');
                    proof {
                        assert(head@ =~= seq!['['] + dec_int(self.id as int) + seq![']']);
                    }
                    pad_chars(&mut head, 6);
                } else {
                    pad_chars(&mut head, 6);
                    proof {
                        assert(head@ =~= spaces(6)) by {
                            lemma_spaces_len(6);
                            assert(Seq::<char>::empty() + spaces(6) =~= spaces(6));
                        }
                    }
                }
                let mut stx = status_text_exec(s);
                pad_chars(&mut stx, 15);
                chars_append(&mut head, &stx);
                head.push(' ');
                head.push(' ');
                let d = i32_to_chars(pid);
                chars_append(&mut head, &d);
                cur = head;
                prev = Some(s);
                proof {
                    let lines2 = if st.cur.len() > 0 {
                        st.lines.push(st.cur)
                    } else {
                        st.lines
                    };
                    let headg = if i as int == 0 {
                        pad_to(seq!['['] + dec_int(self.id as int) + seq![']'], 6)
                    } else {
                        spaces(6)
                    };
                    assert(str_views(lines@) =~~= lines2);
                    assert(cur@ =~= headg + pad_to(status_text(s), 15) + seq![' ', ' '] + dec_int(
                        pid as int,
                    ));
                }
            }
            i = i + 1;
        }
        if cur.len() > 0 {
            let line = chars_to_string(&cur);
            lines.push(line);
            proof {
                assert(str_views(lines@) =~~= job_report(*self));
            }
        }
        lines
    }

    /// Print this job's status report, one line per status group.
    pub fn print_status(&self) {
        let lines = self.status_lines();
        let mut i: usize = 0;
        while i < lines.len()
            decreases lines@.len() - i,
        {
            write_line(lines[i].as_str());
            i = i + 1;
        }
    }
}

/// The shell's long-lived state: terminal foreground group, current and
/// previous working directory, and the background job table keyed by process
/// group id.
#[derive(Debug)]
pub struct Mumsh {
    pub fg_pgid: i32,
    pub current_dir: String,
    pub prev_dir: String,
    pub jobs: Vec<Job>,
}

/// The job table's invariant: process groups and job ids are unique, ids are
/// positive, and each job's status list is well formed.
pub open spec fn mumsh_wf(m: Mumsh) -> bool {
    &&& forall|a: int, b: int|
        0 <= a < b < m.jobs@.len() ==> (#[trigger] m.jobs@[a]).pgid != (#[trigger] m.jobs@[b]).pgid
            && m.jobs@[a].id != m.jobs@[b].id
    &&& forall|a: int| 0 <= a < m.jobs@.len() ==> (#[trigger] m.jobs@[a]).id >= 1
    &&& forall|a: int| 0 <= a < m.jobs@.len() ==> job_wf(#[trigger] m.jobs@[a])
}

/// The first index at or after `i` of the job for `pgid`; `-1` if none.
pub open spec fn find_pgid(jobs: Seq<Job>, pgid: i32, i: int) -> int
    decreases jobs.len() - i,
{
    if i < 0 || i >= jobs.len() {
        -1
    } else if jobs[i].pgid == pgid {
        i
    } else {
        find_pgid(jobs, pgid, i + 1)
    }
}

/// The text the shell prints when announcing a job: the bracketed id, then
/// each member pid.
pub open spec fn pids_line(pids: Seq<i32>, i: int) -> Seq<char>
    decreases pids.len() - i,
{
    if i < 0 || i >= pids.len() {
        Seq::<char>::empty()
    } else {
        seq![' '] + dec_int(pids[i] as int) + pids_line(pids, i + 1)
    }
}

pub open spec fn job_announce(j: Job) -> Seq<char> {
    seq!['['] + dec_int(j.id as int) + seq![']'] + pids_line(j.pids@, 0)
}

impl Mumsh {
    /// A fresh shell state: no foreground group, empty directories, no jobs.
    /// The caller records the working directory it starts in.
    pub fn new() -> (r: Mumsh)
        ensures
            r.fg_pgid == 0,
            r.current_dir@ == Seq::<char>::empty(),
            r.prev_dir@ == Seq::<char>::empty(),
            r.jobs@.len() == 0,
            mumsh_wf(r),
    {
        Mumsh { fg_pgid: 0, current_dir: String::new(), prev_dir: String::new(), jobs: Vec::new() }
    }

    /// Donate the terminal's foreground to `pgid`; on success record it as the
    /// current foreground group. Whether the terminal call succeeds depends on
    /// the outside world; the rest of the state is untouched either way.
    pub fn set_foreground_pg(&mut self, pgid: i32) -> (r: bool)
        ensures
            r ==> *final(self) == (Mumsh { fg_pgid: pgid, ..*old(self) }),
            !r ==> *final(self) == *old(self),
    {
        if tcsetpgrp_terminal(pgid) {
            self.fg_pgid = pgid;
            true
        } else {
            false
        }
    }

    /// The announcement line for the job of `pgid`, if that job exists.
    pub fn job_line(&self, pgid: i32) -> (r: Option<String>)
        ensures
            ({
                let k = find_pgid(self.jobs@, pgid, 0);
                if k >= 0 {
                    r matches Some(s) && s@ == job_announce(self.jobs@[k])
                } else {
                    r is None
                }
            }),
    {
        let n = self.jobs.len();
        let mut i: usize = 0;
        while i < n
            invariant
                0 <= i <= n,
                n == self.jobs@.len(),
                find_pgid(self.jobs@, pgid, 0) == find_pgid(self.jobs@, pgid, i as int),
            decreases n - i,
        {
            if self.jobs[i].pgid == pgid {
                let j = &self.jobs[i];
                let mut line: Vec<char> = Vec::new();
                line.push('[');
                let d = i32_to_chars(j.id);
                chars_append(&mut line, &d);
                line.push(']');
                proof {
                    assert(line@ =~= seq!['['] + dec_int(j.id as int) + seq![']']);
                }
                let m = j.pids.len();
                let mut p: usize = 0;
                while p < m
                    invariant
                        0 <= p <= m,
                        m == j.pids@.len(),
                        line@ + pids_line(j.pids@, p as int) == job_announce(*j),
                    decreases m - p,
                {
                    let ghost before = line@;
                    line.push(' ');
                    let d2 = i32_to_chars(j.pids[p]);
                    chars_append(&mut line, &d2);
                    proof {
                        assert(line@ =~= before + (seq![' '] + dec_int(j.pids@[p as int] as int)));
                        assert(line@ + pids_line(j.pids@, p + 1) =~= before + pids_line(
                            j.pids@,
                            p as int,
                        ));
                    }
                    p = p + 1;
                }
                proof {
                    assert(pids_line(j.pids@, m as int) =~= Seq::<char>::empty());
                    assert(line@ =~= line@ + pids_line(j.pids@, m as int));
                }
                return Some(chars_to_string(&line));
            }
            i = i + 1;
        }
        None
    }

    /// Print the announcement for the job of `pgid`, if it exists.
    pub fn print_job(&self, pgid: i32) {
        match self.job_line(pgid) {
            Some(line) => write_line(line.as_str()),
            None => (),
        }
    }
}

/// Whether some job in the table already uses id `v`.
pub open spec fn id_used_spec(jobs: Seq<Job>, v: int) -> bool {
    exists|a: int| 0 <= a < jobs.len() && (#[trigger] jobs[a]).id == v
}

fn id_used(jobs: &Vec<Job>, v: i32) -> (r: bool)
    ensures
        r == id_used_spec(jobs@, v as int),
{
    let n = jobs.len();
    let mut i: usize = 0;
    while i < n
        invariant
            0 <= i <= n,
            n == jobs@.len(),
            forall|a: int| 0 <= a < i ==> (#[trigger] jobs@[a]).id != v,
        decreases n - i,
    {
        if jobs[i].id == v {
            return true;
        }
        i = i + 1;
    }
    false
}

impl Mumsh {
    /// Register `pid` under process group `pgid`: an existing job gains the
    /// pid as a running member; otherwise a new job is created whose id is
    /// the smallest positive integer no current job uses.
    pub fn insert_job(&mut self, pgid: i32, pid: i32)
        requires
            mumsh_wf(*old(self)),
            old(self).jobs@.len() < 0x7fffffff,
        ensures
            mumsh_wf(*final(self)),
            final(self).fg_pgid == old(self).fg_pgid,
            final(self).current_dir == old(self).current_dir,
            final(self).prev_dir == old(self).prev_dir,
            ({
                let jobs0 = old(self).jobs@;
                let k = find_pgid(jobs0, pgid, 0);
                if k >= 0 {
                    final(self).jobs@.len() == jobs0.len() && (forall|a: int|
                        0 <= a < jobs0.len() && a != k ==> final(self).jobs@[a] == jobs0[a])
                        && final(self).jobs@[k].id == jobs0[k].id && final(self).jobs@[k].pgid
                        == jobs0[k].pgid && final(self).jobs@[k].pids@ == jobs0[k].pids@.push(pid)
                        && final(self).jobs@[k].status@ == set_status_spec(
                        jobs0[k].status@,
                        pid,
                        JobStatus::Running,
                    )
                } else {
                    final(self).jobs@.len() == jobs0.len() + 1 && (forall|a: int|
                        0 <= a < jobs0.len() ==> final(self).jobs@[a] == jobs0[a]) && ({
                        let nj = final(self).jobs@.last();
                        nj.pgid == pgid && nj.pids@ == seq![pid] && nj.status@ == seq![
                            (pid, JobStatus::Running),
                        ] && nj.id >= 1 && !id_used_spec(jobs0, nj.id as int) && (forall|v: int|
                            1 <= v < nj.id ==> #[trigger] id_used_spec(jobs0, v))
                    })
                }
            }),
    {
        let ghost jobs0 = self.jobs@;
        let n = self.jobs.len();
        let mut i: usize = 0;
        while i < n
            invariant
                0 <= i <= n,
                n == self.jobs@.len(),
                self.jobs@ == jobs0,
                jobs0 == old(self).jobs@,
                *self == (Mumsh { jobs: self.jobs, ..*old(self) }),
                mumsh_wf(*self),
                find_pgid(jobs0, pgid, 0) == find_pgid(jobs0, pgid, i as int),
            decreases n - i,
        {
            if self.jobs[i].pgid == pgid {
                proof {
                    assert(find_pgid(jobs0, pgid, i as int) == i);
                }
                let mut job = self.jobs.remove(i);
                job.pids.push(pid);
                set_status(&mut job.status, pid, JobStatus::Running);
                proof {
                    lemma_set_status_unique(jobs0[i as int].status@, pid, JobStatus::Running);
                }
                self.jobs.insert(i, job);
                proof {
                    assert(forall|a: int|
                        0 <= a < jobs0.len() && a != i as int ==> self.jobs@[a] == jobs0[a]);
                }
                return ;
            }
            i = i + 1;
        }
        let mut cand: i32 = 1;
        let ghost idset = Set::new(
            |v: int| exists|a: int| 0 <= a < jobs0.len() && (#[trigger] jobs0[a]).id as int == v,
        );
        loop
            invariant
                1 <= cand,
                cand as int <= self.jobs@.len() + 1,
                n == self.jobs@.len(),
                self.jobs@ == jobs0,
                jobs0 == old(self).jobs@,
                *self == (Mumsh { jobs: self.jobs, ..*old(self) }),
                mumsh_wf(*self),
                old(self).jobs@.len() < 0x7fffffff,
                find_pgid(jobs0, pgid, 0) < 0,
                forall|v: int| 1 <= v < cand as int ==> #[trigger] id_used_spec(jobs0, v),
            ensures
                1 <= cand,
                self.jobs@ == jobs0,
                jobs0 == old(self).jobs@,
                *self == (Mumsh { jobs: self.jobs, ..*old(self) }),
                mumsh_wf(*self),
                find_pgid(jobs0, pgid, 0) < 0,
                forall|v: int| 1 <= v < cand as int ==> #[trigger] id_used_spec(jobs0, v),
                !id_used_spec(jobs0, cand as int),
            decreases self.jobs@.len() + 1 - cand,
        {
            if !id_used(&self.jobs, cand) {
                break ;
            }
            proof {
                let idseq = jobs0.map(|a: int, j: Job| j.id as int);
                assert forall|v: int| 1 <= v < cand as int + 1 implies idseq.to_set().contains(
                    v,
                ) by {
                    assert(id_used_spec(jobs0, v));
                    let a = choose|a: int| 0 <= a < jobs0.len() && (#[trigger] jobs0[a]).id == v;
                    assert(idseq[a] == v);
                    assert(idseq.contains(v));
                }
                vstd::set_lib::lemma_int_range(1, cand as int + 1);
                assert(vstd::set_lib::set_int_range(1, cand as int + 1) <= idseq.to_set());
                broadcast use vstd::seq_lib::seq_to_set_is_finite;

                idseq.lemma_cardinality_of_set();
                vstd::set_lib::lemma_len_subset(
                    vstd::set_lib::set_int_range(1, cand as int + 1),
                    idseq.to_set(),
                );
                assert(cand as int <= jobs0.len());
            }
            cand = cand + 1;
        }
        let mut pids: Vec<i32> = Vec::new();
        pids.push(pid);
        let mut status: Vec<(i32, JobStatus)> = Vec::new();
        status.push((pid, JobStatus::Running));
        let nj = Job { id: cand, pgid, pids, status };
        proof {
            assert(nj.pids@ =~= seq![pid]);
            assert(nj.status@ =~= seq![(pid, JobStatus::Running)]);
            assert(status_unique(nj.status@));
            lemma_find_pgid_missing(jobs0, pgid, 0);
        }
        self.jobs.push(nj);
        proof {
            assert forall|a: int, b: int| 0 <= a < b < self.jobs@.len() implies (
            #[trigger] self.jobs@[a]).pgid != (#[trigger] self.jobs@[b]).pgid && self.jobs@[a].id
                != self.jobs@[b].id by {
                if b < jobs0.len() {
                    assert(self.jobs@[a] == jobs0[a]);
                    assert(self.jobs@[b] == jobs0[b]);
                } else {
                    assert(self.jobs@[a] == jobs0[a]);
                    assert(self.jobs@[b] == nj);
                }
            }
        }
    }
}

/// Whether `a` is a subsequence of `b`: all of `a`'s elements appear in `b`,
/// in order.
pub open spec fn subseq_of(a: Seq<i32>, b: Seq<i32>) -> bool
    decreases a.len() + b.len(),
{
    if a.len() == 0 {
        true
    } else if b.len() == 0 {
        false
    } else if a[0] == b[0] {
        subseq_of(a.skip(1), b.skip(1))
    } else {
        subseq_of(a, b.skip(1))
    }
}

proof fn lemma_subseq_single_last(b: Seq<i32>, x: i32)
    ensures
        subseq_of(seq![x], b.push(x)),
    decreases b.len(),
{
    let a = seq![x];
    let bp = b.push(x);
    assert(a.len() == 1 && a[0] == x);
    assert(a.skip(1) =~= Seq::<i32>::empty());
    if b.len() == 0 {
        assert(bp[0] == x);
        assert(subseq_of(a.skip(1), bp.skip(1))) by {
            assert(a.skip(1).len() == 0);
        }
    } else {
        assert(bp[0] == b[0]);
        if x == b[0] {
            assert(subseq_of(a.skip(1), bp.skip(1))) by {
                assert(a.skip(1).len() == 0);
            }
        } else {
            lemma_subseq_single_last(b.skip(1), x);
            assert(bp.skip(1) =~= b.skip(1).push(x));
        }
    }
}

/// Appending the same element to both sides preserves the subsequence order.
proof fn lemma_subseq_push_both(a: Seq<i32>, b: Seq<i32>, x: i32)
    requires
        subseq_of(a, b),
    ensures
        subseq_of(a.push(x), b.push(x)),
    decreases a.len() + b.len(),
{
    if a.len() == 0 {
        assert(a.push(x) =~= seq![x]);
        lemma_subseq_single_last(b, x);
    } else {
        assert(a.push(x)[0] == a[0]);
        assert(b.push(x)[0] == b[0]);
        if a[0] == b[0] {
            lemma_subseq_push_both(a.skip(1), b.skip(1), x);
            assert(a.push(x).skip(1) =~= a.skip(1).push(x));
            assert(b.push(x).skip(1) =~= b.skip(1).push(x));
        } else {
            lemma_subseq_push_both(a, b.skip(1), x);
            assert(b.push(x).skip(1) =~= b.skip(1).push(x));
        }
    }
}

/// Appending to the right side alone preserves the subsequence order.
proof fn lemma_subseq_push_right(a: Seq<i32>, b: Seq<i32>, x: i32)
    requires
        subseq_of(a, b),
    ensures
        subseq_of(a, b.push(x)),
    decreases a.len() + b.len(),
{
    if a.len() > 0 {
        assert(b.push(x)[0] == b[0]);
        if a[0] == b[0] {
            lemma_subseq_push_right(a.skip(1), b.skip(1), x);
            assert(b.push(x).skip(1) =~= b.skip(1).push(x));
        } else {
            lemma_subseq_push_right(a, b.skip(1), x);
            assert(b.push(x).skip(1) =~= b.skip(1).push(x));
        }
    }
}

/// Statuses only settle: an entry that reads `Running` in the new list was
/// already recorded, unchanged, in the old list. A poll never rewrites a
/// stopped or exited member back to `Running`.
pub open spec fn status_evolves(
    old_st: Seq<(i32, JobStatus)>,
    new_st: Seq<(i32, JobStatus)>,
) -> bool {
    forall|k: int|
        0 <= k < new_st.len() && (#[trigger] new_st[k]).1 == JobStatus::Running ==> exists|k0: int|
            0 <= k0 < old_st.len() && old_st[k0] == new_st[k]
}

proof fn lemma_status_evolves_refl(st: Seq<(i32, JobStatus)>)
    ensures
        status_evolves(st, st),
{
    assert forall|k: int|
        0 <= k < st.len() && (#[trigger] st[k]).1 == JobStatus::Running implies exists|k0: int|
        0 <= k0 < st.len() && st[k0] == st[k] by {
        assert(st[k] == st[k]);
    }
}

proof fn lemma_status_evolves_set(
    st0: Seq<(i32, JobStatus)>,
    st: Seq<(i32, JobStatus)>,
    pid: i32,
    x: JobStatus,
)
    requires
        status_evolves(st0, st),
        x != JobStatus::Running,
    ensures
        status_evolves(st0, set_status_spec(st, pid, x)),
{
    let st2 = set_status_spec(st, pid, x);
    let idx = find_pid(st, pid, 0);
    lemma_find_pid_found(st, pid, 0);
    assert forall|k: int|
        0 <= k < st2.len() && (#[trigger] st2[k]).1 == JobStatus::Running implies exists|k0: int|
        0 <= k0 < st0.len() && st0[k0] == st2[k] by {
        if idx >= 0 {
            if k != idx {
                assert(st2[k] == st[k]);
            }
        } else {
            if k < st.len() {
                assert(st2[k] == st[k]);
            }
        }
    }
}

/// The poll fold: the members kept and the status list after applying the
/// first `k` outcomes, one per original member in order. An exit records the
/// code and drops the member; a stop records `Stopped` and keeps it; any
/// other outcome keeps the member and changes nothing.
pub ghost struct PollSt {
    pub kept: Seq<i32>,
    pub st: Seq<(i32, JobStatus)>,
}

pub open spec fn poll_apply(
    pids: Seq<i32>,
    st0: Seq<(i32, JobStatus)>,
    oc: Seq<WaitOutcome>,
    k: int,
) -> PollSt
    decreases k,
{
    if k <= 0 {
        PollSt { kept: seq![], st: st0 }
    } else {
        let prev = poll_apply(pids, st0, oc, k - 1);
        let pid = pids[k - 1];
        match oc[k - 1] {
            WaitOutcome::Exited(code) => PollSt {
                kept: prev.kept,
                st: set_status_spec(prev.st, pid, JobStatus::Exited(code)),
            },
            WaitOutcome::Stopped(_) => PollSt {
                kept: prev.kept.push(pid),
                st: set_status_spec(prev.st, pid, JobStatus::Stopped),
            },
            _ => PollSt { kept: prev.kept.push(pid), st: prev.st },
        }
    }
}

proof fn lemma_poll_kept_subseq(
    pids: Seq<i32>,
    st0: Seq<(i32, JobStatus)>,
    oc: Seq<WaitOutcome>,
    k: int,
)
    requires
        0 <= k <= pids.len(),
        k <= oc.len(),
    ensures
        subseq_of(poll_apply(pids, st0, oc, k).kept, pids.take(k)),
    decreases k,
{
    if k == 0 {
        assert(pids.take(0) =~= Seq::<i32>::empty());
    } else {
        lemma_poll_kept_subseq(pids, st0, oc, k - 1);
        let prev = poll_apply(pids, st0, oc, k - 1);
        assert(pids.take(k) =~= pids.take(k - 1).push(pids[k - 1]));
        match oc[k - 1] {
            WaitOutcome::Exited(_) => {
                lemma_subseq_push_right(prev.kept, pids.take(k - 1), pids[k - 1]);
            },
            _ => {
                lemma_subseq_push_both(prev.kept, pids.take(k - 1), pids[k - 1]);
            },
        }
    }
}

proof fn lemma_poll_st_evolves(
    pids: Seq<i32>,
    st0: Seq<(i32, JobStatus)>,
    oc: Seq<WaitOutcome>,
    k: int,
)
    requires
        0 <= k <= pids.len(),
        k <= oc.len(),
    ensures
        status_evolves(st0, poll_apply(pids, st0, oc, k).st),
    decreases k,
{
    if k == 0 {
        lemma_status_evolves_refl(st0);
    } else {
        lemma_poll_st_evolves(pids, st0, oc, k - 1);
        let prev = poll_apply(pids, st0, oc, k - 1);
        match oc[k - 1] {
            WaitOutcome::Exited(code) => {
                lemma_status_evolves_set(st0, prev.st, pids[k - 1], JobStatus::Exited(code));
            },
            WaitOutcome::Stopped(_) => {
                lemma_status_evolves_set(st0, prev.st, pids[k - 1], JobStatus::Stopped);
            },
            _ => {},
        }
    }
}

proof fn lemma_poll_st_unique(
    pids: Seq<i32>,
    st0: Seq<(i32, JobStatus)>,
    oc: Seq<WaitOutcome>,
    k: int,
)
    requires
        0 <= k <= pids.len(),
        k <= oc.len(),
        status_unique(st0),
    ensures
        status_unique(poll_apply(pids, st0, oc, k).st),
    decreases k,
{
    if k > 0 {
        lemma_poll_st_unique(pids, st0, oc, k - 1);
        let prev = poll_apply(pids, st0, oc, k - 1);
        match oc[k - 1] {
            WaitOutcome::Exited(code) => {
                lemma_set_status_unique(prev.st, pids[k - 1], JobStatus::Exited(code));
            },
            WaitOutcome::Stopped(_) => {
                lemma_set_status_unique(prev.st, pids[k - 1], JobStatus::Stopped);
            },
            _ => {},
        }
    }
}

proof fn lemma_poll_still_alive(
    pids: Seq<i32>,
    st0: Seq<(i32, JobStatus)>,
    oc: Seq<WaitOutcome>,
    k: int,
)
    requires
        0 <= k <= pids.len(),
        k <= oc.len(),
        forall|j: int| 0 <= j < k ==> oc[j] == WaitOutcome::StillAlive,
    ensures
        poll_apply(pids, st0, oc, k).kept == pids.take(k),
        poll_apply(pids, st0, oc, k).st == st0,
    decreases k,
{
    if k == 0 {
        assert(pids.take(0) =~= Seq::<i32>::empty());
    } else {
        lemma_poll_still_alive(pids, st0, oc, k - 1);
        assert(pids.take(k) =~= pids.take(k - 1).push(pids[k - 1]));
    }
}

/// Apply one probe outcome per member, in member order: exits record the code
/// and leave the membership, stops record `Stopped` and stay, anything else
/// changes nothing. Membership only shrinks, statuses never return to
/// `Running`, and a poll in which nothing changed is a no-op.
pub fn apply_poll_outcomes(job: &mut Job, outcomes: &Vec<WaitOutcome>)
    requires
        job_wf(*old(job)),
        outcomes@.len() == old(job).pids@.len(),
    ensures
        job_wf(*final(job)),
        final(job).id == old(job).id,
        final(job).pgid == old(job).pgid,
        final(job).pids@ == poll_apply(
            old(job).pids@,
            old(job).status@,
            outcomes@,
            outcomes@.len() as int,
        ).kept,
        final(job).status@ == poll_apply(
            old(job).pids@,
            old(job).status@,
            outcomes@,
            outcomes@.len() as int,
        ).st,
        subseq_of(final(job).pids@, old(job).pids@),
        status_evolves(old(job).status@, final(job).status@),
        (forall|j: int| 0 <= j < outcomes@.len() ==> outcomes@[j] == WaitOutcome::StillAlive)
            ==> final(job).pids@ == old(job).pids@ && final(job).status@ == old(job).status@,
{
    let ghost p0 = job.pids@;
    let ghost s0 = job.status@;
    let n = outcomes.len();
    let mut cur: usize = 0;
    let mut k: usize = 0;
    proof {
        assert(job.pids@ =~= poll_apply(p0, s0, outcomes@, 0).kept + p0.skip(0));
    }
    while k < n
        invariant
            0 <= k <= n,
            n == outcomes@.len(),
            n == p0.len(),
            p0 == old(job).pids@,
            s0 == old(job).status@,
            job.id == old(job).id,
            job.pgid == old(job).pgid,
            cur <= k,
            cur as int == poll_apply(p0, s0, outcomes@, k as int).kept.len(),
            job.pids@ == poll_apply(p0, s0, outcomes@, k as int).kept + p0.skip(k as int),
            job.status@ == poll_apply(p0, s0, outcomes@, k as int).st,
        decreases n - k,
    {
        let ghost prev = poll_apply(p0, s0, outcomes@, k as int);
        proof {
            assert(poll_apply(p0, s0, outcomes@, k + 1) == ({
                let pid = p0[k as int];
                match outcomes@[k as int] {
                    WaitOutcome::Exited(code) => PollSt {
                        kept: prev.kept,
                        st: set_status_spec(prev.st, pid, JobStatus::Exited(code)),
                    },
                    WaitOutcome::Stopped(_) => PollSt {
                        kept: prev.kept.push(pid),
                        st: set_status_spec(prev.st, pid, JobStatus::Stopped),
                    },
                    _ => PollSt { kept: prev.kept.push(pid), st: prev.st },
                }
            }));
            assert(job.pids@[cur as int] == p0.skip(k as int)[0]);
            assert(p0.skip(k as int)[0] == p0[k as int]);
        }
        let pid = job.pids[cur];
        match outcomes[k] {
            WaitOutcome::Exited(code) => {
                set_status(&mut job.status, pid, JobStatus::Exited(code));
                job.pids.remove(cur);
                proof {
                    assert(job.pids@ =~= prev.kept + p0.skip(k + 1));
                }
            },
            WaitOutcome::Stopped(_) => {
                set_status(&mut job.status, pid, JobStatus::Stopped);
                cur = cur + 1;
                proof {
                    assert(job.pids@ =~= prev.kept.push(p0[k as int]) + p0.skip(k + 1));
                }
            },
            _ => {
                cur = cur + 1;
                proof {
                    assert(job.pids@ =~= prev.kept.push(p0[k as int]) + p0.skip(k + 1));
                }
            },
        }
        k = k + 1;
    }
    proof {
        let fin = poll_apply(p0, s0, outcomes@, n as int);
        assert(job.pids@ =~= fin.kept + p0.skip(n as int));
        assert(p0.skip(n as int) =~= Seq::<i32>::empty());
        assert(job.pids@ =~= fin.kept);
        lemma_poll_kept_subseq(p0, s0, outcomes@, n as int);
        assert(p0.take(n as int) =~= p0);
        lemma_poll_st_evolves(p0, s0, outcomes@, n as int);
        lemma_poll_st_unique(p0, s0, outcomes@, n as int);
        if forall|j: int| 0 <= j < outcomes@.len() ==> outcomes@[j] == WaitOutcome::StillAlive {
            lemma_poll_still_alive(p0, s0, outcomes@, n as int);
            assert(job.pids@ =~= p0);
        }
    }
}

/// The jobs of `jobs[i..]` that still have running members, in order.
pub open spec fn surviving(jobs: Seq<Job>, i: int) -> Seq<Job>
    decreases jobs.len() - i,
{
    if i < 0 || i >= jobs.len() {
        Seq::<Job>::empty()
    } else if jobs[i].pids@.len() > 0 {
        seq![jobs[i]] + surviving(jobs, i + 1)
    } else {
        surviving(jobs, i + 1)
    }
}

/// The status-report lines of the jobs of `jobs[i..]` with no members left.
pub open spec fn finished_reports(jobs: Seq<Job>, i: int) -> Seq<Seq<char>>
    decreases jobs.len() - i,
{
    if i < 0 || i >= jobs.len() {
        Seq::<Seq<char>>::empty()
    } else if jobs[i].pids@.len() == 0 {
        job_report(jobs[i]) + finished_reports(jobs, i + 1)
    } else {
        finished_reports(jobs, i + 1)
    }
}

/// Probe every member of one job once, in order, report the observable
/// transitions, and apply the outcomes. What the probes return depends on
/// the outside world; whatever it is, membership only shrinks and no
/// member's status returns to `Running`.
fn poll_job(job: &mut Job)
    requires
        job_wf(*old(job)),
    ensures
        job_wf(*final(job)),
        final(job).id == old(job).id,
        final(job).pgid == old(job).pgid,
        subseq_of(final(job).pids@, old(job).pids@),
        status_evolves(old(job).status@, final(job).status@),
{
    let n = job.pids.len();
    let mut outcomes: Vec<WaitOutcome> = Vec::new();
    let mut k: usize = 0;
    while k < n
        invariant
            0 <= k <= n,
            n == job.pids@.len(),
            *job == *old(job),
            outcomes@.len() == k,
        decreases n - k,
    {
        let pid = job.pids[k];
        let outcome = waitpid_nohang(pid);
        match outcome {
            WaitOutcome::Stopped(tty_input) => {
                if tty_input {
                    write_line("suspended (tty input)");
                }
            },
            WaitOutcome::Signaled => {
                let mut msg = String::new();
                msg.append("signaled: ");
                let d = i32_to_string(pid);
                msg.append(d.as_str());
                write_line(msg.as_str());
            },
            WaitOutcome::OtherStatus => {
                let mut msg = String::new();
                msg.append("unexpected wait status: ");
                let d = i32_to_string(pid);
                msg.append(d.as_str());
                write_line(msg.as_str());
            },
            WaitOutcome::WaitErr => {
                write_err_line("ERROR WAITPID!");
            },
            _ => (),
        }
        outcomes.push(outcome);
        k = k + 1;
    }
    apply_poll_outcomes(job, &outcomes);
}

impl Mumsh {
    /// Drop every job whose membership is empty, returning the report lines
    /// of the dropped jobs, in table order. A job leaves the table exactly
    /// when it has no running member left.
    pub fn remove_finished_jobs(&mut self) -> (lines: Vec<String>)
        requires
            mumsh_wf(*old(self)),
        ensures
            mumsh_wf(*final(self)),
            final(self).fg_pgid == old(self).fg_pgid,
            final(self).current_dir == old(self).current_dir,
            final(self).prev_dir == old(self).prev_dir,
            final(self).jobs@ == surviving(old(self).jobs@, 0),
            str_views(lines@) == finished_reports(old(self).jobs@, 0),
            forall|a: int|
                0 <= a < final(self).jobs@.len() ==> (#[trigger] final(self).jobs@[a]).pids@.len()
                    > 0,
    {
        let ghost full = self.jobs@;
        let mut kept: Vec<Job> = Vec::new();
        let mut lines: Vec<String> = Vec::new();
        proof {
            assert(kept@ + surviving(full, 0) =~= surviving(full, 0));
            assert(str_views(lines@) + finished_reports(full, 0) =~= finished_reports(full, 0));
        }
        while self.jobs.len() > 0
            invariant
                full == old(self).jobs@,
                *self == (Mumsh { jobs: self.jobs, ..*old(self) }),
                mumsh_wf(*old(self)),
                self.jobs@.len() <= full.len(),
                self.jobs@ == full.skip(full.len() - self.jobs@.len()),
                kept@ + surviving(full, full.len() - self.jobs@.len()) == surviving(full, 0),
                str_views(lines@) + finished_reports(full, full.len() - self.jobs@.len())
                    == finished_reports(full, 0),
                forall|a: int| 0 <= a < kept@.len() ==> (#[trigger] kept@[a]).pids@.len() > 0,
            decreases self.jobs@.len(),
        {
            let ghost k = full.len() - self.jobs@.len();
            proof {
                assert(self.jobs@[0] == full.skip(k as int)[0]);
                assert(full.skip(k as int)[0] == full[k as int]);
            }
            let j = self.jobs.remove(0);
            proof {
                assert(self.jobs@ =~= full.skip(k + 1));
            }
            if j.pids.len() > 0 {
                kept.push(j);
                proof {
                    assert(kept@ + surviving(full, k + 1) =~= surviving(full, 0));
                }
            } else {
                let report = j.status_lines();
                let mut r: usize = 0;
                let ghost lines0 = lines@;
                while r < report.len()
                    invariant
                        0 <= r <= report@.len(),
                        str_views(report@) == job_report(j),
                        lines@ == lines0 + report@.take(r as int),
                    decreases report@.len() - r,
                {
                    let line = report[r].clone();
                    lines.push(line);
                    proof {
                        assert(lines@ =~= lines0 + report@.take(r + 1));
                    }
                    r = r + 1;
                }
                proof {
                    assert(lines@ =~= lines0 + report@);
                    assert(str_views(lines@) =~~= str_views(lines0) + job_report(full[k as int]));
                    assert(str_views(lines@) + finished_reports(full, k + 1) =~~= finished_reports(
                        full,
                        0,
                    ));
                }
            }
        }
        proof {
            assert(surviving(full, full.len() as int) =~= Seq::<Job>::empty());
            assert(finished_reports(full, full.len() as int) =~= Seq::<Seq<char>>::empty());
            assert(kept@ =~= surviving(full, 0));
            assert(str_views(lines@) =~~= finished_reports(full, 0));
            lemma_surviving_wf(full, 0);
        }
        self.jobs = kept;
        lines
    }

    /// Poll every member of every background job without blocking, record
    /// the observed transitions, and drop jobs with no members left, printing
    /// their reports. Whatever the probes return: every remaining job keeps
    /// its id and group, its membership only shrinks, and no member's status
    /// returns to `Running`. A poll in which nothing changed is a no-op
    /// (`apply_poll_outcomes` states that law over the outcomes).
    pub fn try_wait_bg_jobs(&mut self)
        requires
            mumsh_wf(*old(self)),
        ensures
            mumsh_wf(*final(self)),
            final(self).fg_pgid == old(self).fg_pgid,
            final(self).current_dir == old(self).current_dir,
            final(self).prev_dir == old(self).prev_dir,
            forall|a: int|
                0 <= a < final(self).jobs@.len() ==> (#[trigger] final(self).jobs@[a]).pids@.len()
                    > 0,
            forall|a: int|
                0 <= a < final(self).jobs@.len() ==> exists|b: int|
                    0 <= b < old(self).jobs@.len() && old(self).jobs@[b].id == (
                    #[trigger] final(self).jobs@[a]).id && old(self).jobs@[b].pgid
                        == final(self).jobs@[a].pgid && subseq_of(
                        final(self).jobs@[a].pids@,
                        old(self).jobs@[b].pids@,
                    ) && status_evolves(old(self).jobs@[b].status@, final(self).jobs@[a].status@),
    {
        let n = self.jobs.len();
        let ghost jobs0 = self.jobs@;
        let mut gi: usize = 0;
        while gi < n
            invariant
                0 <= gi <= n,
                n == self.jobs@.len(),
                jobs0 == old(self).jobs@,
                jobs0.len() == n,
                *self == (Mumsh { jobs: self.jobs, ..*old(self) }),
                mumsh_wf(*old(self)),
                mumsh_wf(*self),
                forall|a: int| gi <= a < n ==> #[trigger] self.jobs@[a] == jobs0[a],
                forall|a: int|
                    0 <= a < n ==> (#[trigger] self.jobs@[a]).id == jobs0[a].id
                        && self.jobs@[a].pgid == jobs0[a].pgid,
                forall|a: int|
                    0 <= a < gi ==> subseq_of((#[trigger] self.jobs@[a]).pids@, jobs0[a].pids@)
                        && status_evolves(jobs0[a].status@, self.jobs@[a].status@),
            decreases n - gi,
        {
            let ghost pre = self.jobs@;
            let mut job = self.jobs.remove(gi);
            proof {
                assert(pre[gi as int] == jobs0[gi as int]);
            }
            poll_job(&mut job);
            self.jobs.insert(gi, job);
            proof {
                assert forall|a: int| 0 <= a < n implies (#[trigger] self.jobs@[a]).id
                    == jobs0[a].id && self.jobs@[a].pgid == jobs0[a].pgid && job_wf(
                    self.jobs@[a],
                ) by {
                    if a != gi as int {
                        assert(self.jobs@[a] == pre[a]);
                    }
                }
                assert forall|a: int| 0 <= a < gi + 1 implies subseq_of(
                    (#[trigger] self.jobs@[a]).pids@,
                    jobs0[a].pids@,
                ) && status_evolves(jobs0[a].status@, self.jobs@[a].status@) by {
                    if a != gi as int {
                        assert(self.jobs@[a] == pre[a]);
                    }
                }
                assert forall|a: int| gi + 1 <= a < n implies #[trigger] self.jobs@[a]
                    == jobs0[a] by {
                    assert(self.jobs@[a] == pre[a]);
                }
                assert forall|a: int, b: int| 0 <= a < b < self.jobs@.len() implies (
                #[trigger] self.jobs@[a]).pgid != (#[trigger] self.jobs@[b]).pgid && self.jobs@[a].id
                    != self.jobs@[b].id by {
                    assert(jobs0[a].pgid != jobs0[b].pgid && jobs0[a].id != jobs0[b].id);
                }
                assert(forall|a: int| 0 <= a < n ==> (#[trigger] self.jobs@[a]).id >= 1);
            }
            gi = gi + 1;
        }
        let ghost mid = self.jobs@;
        let lines = self.remove_finished_jobs();
        let mut i: usize = 0;
        while i < lines.len()
            decreases lines@.len() - i,
        {
            write_line(lines[i].as_str());
            i = i + 1;
        }
        proof {
            lemma_surviving_origin(mid, 0);
            assert forall|a: int| 0 <= a < self.jobs@.len() implies exists|b: int|
                0 <= b < jobs0.len() && jobs0[b].id == (#[trigger] self.jobs@[a]).id
                    && jobs0[b].pgid == self.jobs@[a].pgid && subseq_of(
                    self.jobs@[a].pids@,
                    jobs0[b].pids@,
                ) && status_evolves(jobs0[b].status@, self.jobs@[a].status@) by {
                let b = choose|b: int|
                    0 <= b < mid.len() && mid[b] == #[trigger] self.jobs@[a]
                        && surviving(mid, 0).contains(mid[b]);
                assert(jobs0[b].id == mid[b].id && jobs0[b].pgid == mid[b].pgid);
                assert(subseq_of(mid[b].pids@, jobs0[b].pids@));
                assert(status_evolves(jobs0[b].status@, mid[b].status@));
            }
        }
    }
}

/// Every surviving job is one of the original jobs.
proof fn lemma_surviving_origin(jobs: Seq<Job>, i: int)
    requires
        0 <= i <= jobs.len(),
    ensures
        forall|a: int|
            0 <= a < surviving(jobs, i).len() ==> exists|b: int|
                i <= b < jobs.len() && jobs[b] == (#[trigger] surviving(jobs, i)[a]) && surviving(
                    jobs,
                    i,
                ).contains(jobs[b]),
    decreases jobs.len() - i,
{
    if i < jobs.len() {
        lemma_surviving_origin(jobs, i + 1);
        let s = surviving(jobs, i);
        let rest = surviving(jobs, i + 1);
        assert forall|a: int| 0 <= a < s.len() implies exists|b: int|
            i <= b < jobs.len() && jobs[b] == (#[trigger] s[a]) && s.contains(jobs[b]) by {
            if jobs[i].pids@.len() > 0 {
                if a == 0 {
                    assert(s[0] == jobs[i]);
                    assert(s.contains(jobs[i]));
                } else {
                    assert(s[a] == rest[a - 1]);
                    let b = choose|b: int|
                        i + 1 <= b < jobs.len() && jobs[b] == rest[a - 1] && rest.contains(jobs[b]);
                    assert(s[a] == jobs[b]);
                    assert(s.contains(jobs[b]));
                }
            } else {
                assert(s[a] == rest[a]);
                let b = choose|b: int|
                    i + 1 <= b < jobs.len() && jobs[b] == rest[a] && rest.contains(jobs[b]);
                assert(s[a] == jobs[b]);
                assert(s.contains(jobs[b]));
            }
        }
    }
}

/// Surviving jobs keep the table invariant.
proof fn lemma_surviving_wf(jobs: Seq<Job>, i: int)
    requires
        0 <= i <= jobs.len(),
        forall|a: int, b: int|
            0 <= a < b < jobs.len() ==> (#[trigger] jobs[a]).pgid != (#[trigger] jobs[b]).pgid
                && jobs[a].id != jobs[b].id,
        forall|a: int| 0 <= a < jobs.len() ==> (#[trigger] jobs[a]).id >= 1,
        forall|a: int| 0 <= a < jobs.len() ==> job_wf(#[trigger] jobs[a]),
    ensures
        forall|a: int, b: int|
            0 <= a < b < surviving(jobs, i).len() ==> (#[trigger] surviving(jobs, i)[a]).pgid != (
            #[trigger] surviving(jobs, i)[b]).pgid && surviving(jobs, i)[a].id != surviving(
                jobs,
                i,
            )[b].id,
        forall|a: int| 0 <= a < surviving(jobs, i).len() ==> (#[trigger] surviving(jobs, i)[a]).id
            >= 1,
        forall|a: int|
            0 <= a < surviving(jobs, i).len() ==> job_wf(#[trigger] surviving(jobs, i)[a]),
    decreases jobs.len() - i,
{
    if i < jobs.len() {
        lemma_surviving_wf(jobs, i + 1);
        let s = surviving(jobs, i);
        let rest = surviving(jobs, i + 1);
        lemma_surviving_origin(jobs, i + 1);
        if jobs[i].pids@.len() > 0 {
            assert forall|a: int, b: int| 0 <= a < b < s.len() implies (#[trigger] s[a]).pgid != (
            #[trigger] s[b]).pgid && s[a].id != s[b].id by {
                if a == 0 {
                    assert(s[0] == jobs[i]);
                    assert(s[b] == rest[b - 1]);
                    let c = choose|c: int|
                        i + 1 <= c < jobs.len() && jobs[c] == rest[b - 1] && rest.contains(jobs[c]);
                    assert(jobs[i].pgid != jobs[c].pgid && jobs[i].id != jobs[c].id);
                } else {
                    assert(s[a] == rest[a - 1] && s[b] == rest[b - 1]);
                }
            }
            assert forall|a: int| 0 <= a < s.len() implies (#[trigger] s[a]).id >= 1 && job_wf(
                s[a],
            ) by {
                if a == 0 {
                    assert(s[0] == jobs[i]);
                } else {
                    assert(s[a] == rest[a - 1]);
                }
            }
        }
    } else {
        assert(surviving(jobs, i) =~= Seq::<Job>::empty());
    }
}

proof fn lemma_find_pgid_missing(jobs: Seq<Job>, pgid: i32, i: int)
    requires
        0 <= i <= jobs.len(),
    ensures
        find_pgid(jobs, pgid, i) < 0 ==> forall|a: int|
            i <= a < jobs.len() ==> (#[trigger] jobs[a]).pgid != pgid,
    decreases jobs.len() - i,
{
    if i < jobs.len() {
        lemma_find_pgid_missing(jobs, pgid, i + 1);
    }
}

} // verus!
