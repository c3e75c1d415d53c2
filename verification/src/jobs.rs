//! The job table: job specifiers, signals, and the builtins `jobs`, `fg`,
//! `bg`, `wait`, `disown` and `kill`.

use crate::arithlaws;
use crate::jobctl::FgOutcome;
use crate::outside;
use crate::outside::{ask, end, JobsStyle, Next, Request, Signal, Step};
use crate::report;
use crate::report::{complain, concat, concat3, no_lines, say, Line};
use crate::state;
use crate::state::{JobRecord, ShellState};
use crate::text;
use crate::text::{
    first_is, parse_i32, parse_usize, same, slice_text, strip_char, to_chars, trim, u64_text,
    i64_text,
};
use vstd::prelude::*;

verus! {

// ---------------------------------------------------------------------------
// Job specifiers.
// ---------------------------------------------------------------------------

/// The position of the first entry with the given process id at or after `i`.
pub open spec fn pid_from(jobs: Seq<state::RecordModel>, i: int, pid: i32) -> Option<int>
    decreases jobs.len() - i,
{
    if i < 0 || i >= jobs.len() {
        None
    } else if jobs[i].pid == pid {
        Some(i)
    } else {
        pid_from(jobs, i + 1, pid)
    }
}

/// The `n`th job from the end.
pub open spec fn latest(jobs: Seq<state::RecordModel>, n: int) -> Option<int> {
    if jobs.len() >= n {
        Some(jobs.len() - n)
    } else {
        None
    }
}

/// The job with the given number: as a job id, else as a process id, where it
/// can be one.
pub open spec fn numbered(jobs: Seq<state::RecordModel>, n: usize) -> Option<int> {
    match state::id_from(jobs, 0, n as int) {
        Some(i) => Some(i),
        None => if n <= i32::MAX {
            pid_from(jobs, 0, n as i32)
        } else {
            None
        },
    }
}

/// The job that a specifier names: `%+`, `%%` and `%` the most recent, `%-`
/// the one before, `%N` and `N` by job id or process id, and a negative number
/// by process id. Without a specifier it is the most recent job.
pub open spec fn specified(jobs: Seq<state::RecordModel>, arg: Option<Seq<char>>) -> Option<int> {
    match arg {
        None => latest(jobs, 1),
        Some(a) => {
            let s = text::trimmed(a);
            if s.len() > 0 && s[0] == '%' {
                let end = s.skip(1);
                if end == "+"@ || end == "%"@ || end.len() == 0 {
                    latest(jobs, 1)
                } else if end == "-"@ {
                    latest(jobs, 2)
                } else {
                    match text::parse_int(end, 0, usize::MAX as int) {
                        Some(n) => numbered(jobs, n as usize),
                        None => None,
                    }
                }
            } else {
                match text::parse_int(s, 0, usize::MAX as int) {
                    Some(n) => numbered(jobs, n as usize),
                    None => match text::parse_int(s, i32::MIN as int, i32::MAX as int) {
                        Some(pid) => pid_from(jobs, 0, pid as i32),
                        None => None,
                    },
                }
            }
        },
    }
}

/// The process id that a specifier names: that of a job for `%...`, else the
/// number itself.
pub open spec fn specified_pid(jobs: Seq<state::RecordModel>, arg: Seq<char>) -> Option<i32> {
    if arg.len() > 0 && arg[0] == '%' {
        match specified(jobs, Some(arg)) {
            Some(i) => Some(jobs[i].pid),
            None => None,
        }
    } else {
        match text::parse_int(arg, i32::MIN as int, i32::MAX as int) {
            Some(pid) => Some(pid as i32),
            None => None,
        }
    }
}

pub proof fn lemma_pid_from(jobs: Seq<state::RecordModel>, i: int, pid: i32)
    requires
        0 <= i,
    ensures
        pid_from(jobs, i, pid) matches Some(k) ==> i <= k < jobs.len() && jobs[k].pid == pid,
    decreases jobs.len() - i,
{
    if i < jobs.len() && jobs[i].pid != pid {
        lemma_pid_from(jobs, i + 1, pid);
    }
}

pub proof fn lemma_id_from(jobs: Seq<state::RecordModel>, i: int, id: int)
    requires
        0 <= i,
    ensures
        state::id_from(jobs, i, id) matches Some(k) ==> i <= k < jobs.len() && jobs[k].id == id,
    decreases jobs.len() - i,
{
    if i < jobs.len() && jobs[i].id != id {
        lemma_id_from(jobs, i + 1, id);
    }
}

fn find_pid(state: &ShellState, pid: i32) -> (r: Option<usize>)
    ensures
        match r {
            Some(i) => i < state.jobs@.len() && pid_from(state.model().jobs, 0, pid) == Some(
                i as int,
            ),
            None => pid_from(state.model().jobs, 0, pid) is None,
        },
{
    let mut i: usize = 0;
    while i < state.jobs.len()
        invariant
            i <= state.jobs@.len(),
            pid_from(state.model().jobs, 0, pid) == pid_from(state.model().jobs, i as int, pid),
        decreases state.jobs@.len() - i,
    {
        if state.jobs[i].pid == pid {
            return Some(i);
        }
        i += 1;
    }
    None
}

fn find_number(state: &ShellState, n: usize) -> (r: Option<usize>)
    ensures
        match r {
            Some(i) => i < state.jobs@.len() && numbered(state.model().jobs, n) == Some(i as int),
            None => numbered(state.model().jobs, n) is None,
        },
{
    match state.find_id(n) {
        Some(i) => Some(i),
        None => if n <= 2147483647 {
            find_pid(state, n as i32)
        } else {
            None
        },
    }
}

fn find_latest(state: &ShellState, n: usize) -> (r: Option<usize>)
    requires
        n > 0,
    ensures
        match r {
            Some(i) => i < state.jobs@.len() && latest(state.model().jobs, n as int) == Some(
                i as int,
            ),
            None => latest(state.model().jobs, n as int) is None,
        },
{
    if state.jobs.len() >= n {
        Some(state.jobs.len() - n)
    } else {
        None
    }
}

/// The text held by an optional string slice.
pub open spec fn optional_view(o: Option<&str>) -> Option<Seq<char>> {
    match o {
        Some(s) => Some(s@),
        None => None,
    }
}

/// Resolves a job specifier to a position in the job table.
pub fn resolve_job(state: &ShellState, arg: Option<&str>) -> (r: Option<usize>)
    ensures
        match r {
            Some(i) => i < state.jobs@.len() && specified(state.model().jobs, optional_view(arg))
                == Some(i as int),
            None => specified(state.model().jobs, optional_view(arg)) is None,
        },
{
    let a = match arg {
        None => {
            return find_latest(state, 1);
        },
        Some(a) => a,
    };
    let s = trim(a);
    match strip_char(s.as_str(), '%') {
        Some(end) => {
            if same(end.as_str(), "+") || same(end.as_str(), "%") || end.as_str().is_empty() {
                return find_latest(state, 1);
            }
            if same(end.as_str(), "-") {
                return find_latest(state, 2);
            }
            match parse_usize(end.as_str()) {
                Some(n) => find_number(state, n),
                None => None,
            }
        },
        None => match parse_usize(s.as_str()) {
            Some(n) => find_number(state, n),
            None => match parse_i32(s.as_str()) {
                Some(pid) => find_pid(state, pid),
                None => None,
            },
        },
    }
}

/// Resolves a specifier to a process id.
pub fn resolve_pid(state: &ShellState, arg: &str) -> (r: Option<i32>)
    ensures
        r == specified_pid(state.model().jobs, arg@),
{
    if first_is(arg, '%') {
        match resolve_job(state, Some(arg)) {
            Some(i) => Some(state.jobs[i].pid),
            None => None,
        }
    } else {
        parse_i32(arg)
    }
}

/// The most recent job answers to `%+`, `%%` and to no specifier at all, the
/// one before it to `%-`.
pub proof fn law_recent_jobs(jobs: Seq<state::RecordModel>)
    ensures
        specified(jobs, None) == latest(jobs, 1),
        specified(jobs, Some("%+"@)) == latest(jobs, 1),
        specified(jobs, Some("%%"@)) == latest(jobs, 1),
        specified(jobs, Some("%-"@)) == latest(jobs, 2),
        jobs.len() >= 1 ==> specified(jobs, None) == Some(jobs.len() - 1),
        jobs.len() >= 2 ==> specified(jobs, Some("%-"@)) == Some(jobs.len() - 2),
{
    reveal_strlit("%+");
    reveal_strlit("%%");
    reveal_strlit("%-");
    reveal_strlit("+");
    reveal_strlit("%");
    reveal_strlit("-");
    text::lemma_untrimmed("%+"@);
    text::lemma_untrimmed("%%"@);
    text::lemma_untrimmed("%-"@);
    assert("%+"@.skip(1) =~= "+"@);
    assert("%%"@.skip(1) =~= "%"@);
    assert("%-"@.skip(1) =~= "-"@);
    assert("-"@[0] != "+"@[0] && "-"@[0] != "%"@[0]);
}

proof fn lemma_found_id(jobs: Seq<state::RecordModel>, from: int, i: int)
    requires
        0 <= from <= i < jobs.len(),
        forall|k: int| 0 <= k < i ==> (#[trigger] jobs[k]).id != jobs[i].id,
    ensures
        state::id_from(jobs, from, jobs[i].id as int) == Some(i),
    decreases i - from,
{
    if from < i {
        assert(jobs[from].id != jobs[i].id);
        lemma_found_id(jobs, from + 1, i);
    }
}

/// Every job answers to its id, with `%` before it or without.
pub proof fn law_job_numbers(st: state::StateModel, i: int)
    requires
        st.ids_fresh(),
        0 <= i < st.jobs.len(),
    ensures
        specified(st.jobs, Some("%"@ + text::decimal(st.jobs[i].id as nat))) == Some(i),
        specified(st.jobs, Some(text::decimal(st.jobs[i].id as nat))) == Some(i),
{
    let id = st.jobs[i].id;
    let d = text::decimal(id as nat);
    let s = "%"@ + d;
    arithlaws::law_decimal(id as nat);
    arithlaws::law_decimal_reads_back(id as int, 0, usize::MAX as int);
    lemma_found_id(st.jobs, 0, i);
    reveal_strlit("%");
    reveal_strlit("+");
    reveal_strlit("-");
    assert(text::ascii_digit(d[0]) && text::ascii_digit(d.last()));
    assert(s[0] == '%' && s.last() == d.last());
    text::lemma_untrimmed(s);
    text::lemma_untrimmed(d);
    assert(s.skip(1) =~= d);
    assert(d[0] != "+"@[0] && d[0] != "%"@[0] && d[0] != "-"@[0]);
}

// ---------------------------------------------------------------------------
// Listing and reaping.
// ---------------------------------------------------------------------------

/// The process ids of the jobs.
pub open spec fn pids_of(jobs: Seq<state::RecordModel>) -> Seq<i32> {
    jobs.map_values(|j: state::RecordModel| j.pid)
}

/// The style that the flags of `jobs` from the `i`th argument on ask for.
pub open spec fn style_from(args: Seq<Seq<char>>, i: int, style: JobsStyle) -> JobsStyle
    decreases args.len() - i,
{
    if i < 0 || i >= args.len() {
        style
    } else if args[i] == "-l"@ {
        style_from(args, i + 1, JobsStyle::Long)
    } else if args[i] == "-p"@ {
        style_from(args, i + 1, JobsStyle::Pids)
    } else {
        style_from(args, i + 1, style)
    }
}

/// A number in at least two columns.
pub open spec fn two_columns(n: nat) -> Seq<char> {
    if n < 10 {
        " "@ + text::decimal(n)
    } else {
        text::decimal(n)
    }
}

/// The state of a job in eight columns.
pub open spec fn job_marker(done: bool, stopped: bool) -> Seq<char> {
    if done {
        "Done    "@
    } else if stopped {
        "Stopped "@
    } else {
        "Running "@
    }
}

/// The beginning of a line of `jobs`.
pub open spec fn job_prefix(j: state::RecordModel, style: JobsStyle) -> Seq<char> {
    match style {
        JobsStyle::Plain => "["@ + two_columns(j.id as nat) + "]"@,
        JobsStyle::Long => "["@ + two_columns(j.id as nat) + "] "@ + text::decimal_int(
            j.pid as int,
        ),
        JobsStyle::Pids => text::decimal_int(j.pid as int),
    }
}

/// A line of `jobs`.
pub open spec fn job_line(j: state::RecordModel, done: bool, style: JobsStyle) -> Seq<char> {
    job_prefix(j, style) + " "@ + job_marker(done, j.stopped) + " "@ + j.command
}

/// The status that was collected for the `i`th process.
pub open spec fn collected(statuses: Seq<Option<i32>>, i: int) -> Option<i32> {
    if 0 <= i < statuses.len() {
        statuses[i]
    } else {
        None
    }
}

/// The lines of `jobs` for the first `n` jobs.
pub open spec fn listing(
    jobs: Seq<state::RecordModel>,
    n: int,
    statuses: Seq<Option<i32>>,
    style: JobsStyle,
) -> Seq<report::LineModel>
    decreases n,
{
    if n <= 0 {
        Seq::empty()
    } else {
        listing(jobs, n - 1, statuses, style).push(
            report::said(job_line(jobs[n - 1], collected(statuses, n - 1) is Some, style)),
        )
    }
}

/// Those of the first `n` jobs that have not finished.
pub open spec fn unfinished(
    jobs: Seq<state::RecordModel>,
    n: int,
    statuses: Seq<Option<i32>>,
) -> Seq<state::RecordModel>
    decreases n,
{
    if n <= 0 {
        Seq::empty()
    } else if collected(statuses, n - 1) is Some {
        unfinished(jobs, n - 1, statuses)
    } else {
        unfinished(jobs, n - 1, statuses).push(jobs[n - 1])
    }
}

fn job_pids(state: &ShellState) -> (r: Vec<i32>)
    ensures
        r@ == pids_of(state.model().jobs),
{
    let mut out: Vec<i32> = Vec::new();
    let mut i: usize = 0;
    while i < state.jobs.len()
        invariant
            i <= state.jobs@.len(),
            out@ =~= pids_of(state.model().jobs).take(i as int),
        decreases state.jobs@.len() - i,
    {
        out.push(state.jobs[i].pid);
        i += 1;
    }
    assert(pids_of(state.model().jobs).take(i as int) =~= pids_of(state.model().jobs));
    out
}

fn jobs_style(args: &[String]) -> (r: JobsStyle)
    ensures
        r == style_from(text::texts(args@), 1, JobsStyle::Plain),
{
    let mut style = JobsStyle::Plain;
    let mut i: usize = 1;
    while i < args.len()
        invariant
            1 <= i,
            i <= args@.len() || i == 1,
            style_from(text::texts(args@), 1, JobsStyle::Plain) == style_from(
                text::texts(args@),
                i as int,
                style,
            ),
        decreases args@.len() - i,
    {
        if same(args[i].as_str(), "-l") {
            style = JobsStyle::Long;
        } else if same(args[i].as_str(), "-p") {
            style = JobsStyle::Pids;
        }
        i += 1;
    }
    style
}

/// Implements `jobs`: asks which of the processes have finished.
pub fn builtin_jobs(args: &[String], state: &ShellState) -> (r: Step)
    ensures
        r.model() == outside::asking(
            Seq::empty(),
            outside::RequestModel::Reap {
                pids: pids_of(state.model().jobs),
                style: style_from(text::texts(args@), 1, JobsStyle::Plain),
            },
        ),
{
    ask(Request::Reap { pids: job_pids(state), style: jobs_style(args) })
}

fn two_column_text(n: usize) -> (r: String)
    ensures
        r@ == two_columns(n as nat),
{
    if n < 10 {
        concat(" ", u64_text(n as u64).as_str())
    } else {
        u64_text(n as u64)
    }
}

fn job_line_text(j: &JobRecord, done: bool, style: JobsStyle) -> (r: String)
    ensures
        r@ == job_line(j.model(), done, style),
{
    let prefix = match style {
        JobsStyle::Plain => concat3("[", two_column_text(j.id).as_str(), "]"),
        JobsStyle::Long => {
            let id = concat3("[", two_column_text(j.id).as_str(), "] ");
            concat(id.as_str(), i64_text(j.pid as i64).as_str())
        },
        JobsStyle::Pids => i64_text(j.pid as i64),
    };
    let marker = if done {
        "Done    "
    } else if j.stopped {
        "Stopped "
    } else {
        "Running "
    };
    let begin = concat3(prefix.as_str(), " ", marker);
    concat3(begin.as_str(), " ", j.command.as_str())
}

/// Finishes `jobs`: lists the table and drops the jobs that have finished.
pub fn finish_jobs(state: &mut ShellState, style: JobsStyle, statuses: &[Option<i32>]) -> (r: Step)
    ensures
        ({
            let before = old(state).model();
            let n = before.jobs.len() as int;
            &&& r.model() == outside::ended(listing(before.jobs, n, statuses@, style), 0)
            &&& final(state).model() == (state::StateModel {
                jobs: unfinished(before.jobs, n, statuses@),
                ..before
            })
        }),
{
    let ghost before = state.model();
    let mut lines = no_lines();
    let mut kept: Vec<JobRecord> = Vec::new();
    let mut i: usize = 0;
    assert(state::record_models(kept@) =~= Seq::empty());
    while i < state.jobs.len()
        invariant
            i <= state.jobs@.len(),
            state.model() == before,
            report::line_models(lines@) == listing(before.jobs, i as int, statuses@, style),
            state::record_models(kept@) == unfinished(before.jobs, i as int, statuses@),
        decreases state.jobs@.len() - i,
    {
        let done = i < statuses.len() && statuses[i].is_some();
        say(&mut lines, job_line_text(&state.jobs[i], done, style));
        if !done {
            let ghost so_far = state::record_models(kept@);
            kept.push(state.jobs[i].copy());
            assert(state::record_models(kept@) =~= so_far.push(before.jobs[i as int]));
        }
        i += 1;
    }
    state.jobs = kept;
    end(lines, 0)
}

/// The announcement of a finished job.
pub open spec fn announcement(j: state::RecordModel, status: i32) -> Seq<char> {
    if status == 0 {
        "["@ + text::decimal(j.id as nat) + "]  Done  "@ + j.command
    } else {
        "["@ + text::decimal(j.id as nat) + "]  Exit "@ + text::decimal_int(status as int) + "  "@
            + j.command
    }
}

/// The number of running jobs among the first `n`.
pub open spec fn running(jobs: Seq<state::RecordModel>, n: int) -> int
    decreases n,
{
    if n <= 0 {
        0
    } else {
        running(jobs, n - 1) + if jobs[n - 1].stopped {
            0int
        } else {
            1int
        }
    }
}

/// The status of the `i`th job: that collected for it, if it is not stopped.
pub open spec fn reaped(
    jobs: Seq<state::RecordModel>,
    i: int,
    statuses: Seq<Option<i32>>,
) -> Option<i32> {
    if jobs[i].stopped {
        None
    } else {
        collected(statuses, running(jobs, i))
    }
}

/// Those of the first `n` jobs that were not reaped.
pub open spec fn unreaped(
    jobs: Seq<state::RecordModel>,
    n: int,
    statuses: Seq<Option<i32>>,
) -> Seq<state::RecordModel>
    decreases n,
{
    if n <= 0 {
        Seq::empty()
    } else if reaped(jobs, n - 1, statuses) is Some {
        unreaped(jobs, n - 1, statuses)
    } else {
        unreaped(jobs, n - 1, statuses).push(jobs[n - 1])
    }
}

/// The announcements for the first `n` jobs.
pub open spec fn announcements(
    jobs: Seq<state::RecordModel>,
    n: int,
    statuses: Seq<Option<i32>>,
) -> Seq<report::LineModel>
    decreases n,
{
    if n <= 0 {
        Seq::empty()
    } else {
        match reaped(jobs, n - 1, statuses) {
            Some(status) => announcements(jobs, n - 1, statuses).push(
                report::complained(announcement(jobs[n - 1], status)),
            ),
            None => announcements(jobs, n - 1, statuses),
        }
    }
}

/// The process ids of the running jobs among the first `n`.
pub open spec fn running_pids(jobs: Seq<state::RecordModel>, n: int) -> Seq<i32>
    decreases n,
{
    if n <= 0 {
        Seq::empty()
    } else if jobs[n - 1].stopped {
        running_pids(jobs, n - 1)
    } else {
        running_pids(jobs, n - 1).push(jobs[n - 1].pid)
    }
}

/// The processes to look after before a prompt: those of the running jobs.
pub fn reapable_pids(state: &ShellState) -> (r: Vec<i32>)
    ensures
        r@ == running_pids(state.model().jobs, state.model().jobs.len() as int),
{
    let mut out: Vec<i32> = Vec::new();
    let mut i: usize = 0;
    while i < state.jobs.len()
        invariant
            i <= state.jobs@.len(),
            out@ == running_pids(state.model().jobs, i as int),
        decreases state.jobs@.len() - i,
    {
        if !state.jobs[i].stopped {
            out.push(state.jobs[i].pid);
        }
        i += 1;
    }
    out
}

fn announcement_text(j: &JobRecord, status: i32) -> (r: String)
    ensures
        r@ == announcement(j.model(), status),
{
    let id = concat("[", u64_text(j.id as u64).as_str());
    if status == 0 {
        concat3(id.as_str(), "]  Done  ", j.command.as_str())
    } else {
        let exit = concat3(id.as_str(), "]  Exit ", i64_text(status as i64).as_str());
        concat3(exit.as_str(), "  ", j.command.as_str())
    }
}

/// Drops the finished background jobs from the table, `statuses` being what
/// was collected for the running jobs in order. An interactive shell announces
/// each of them.
pub fn reap_finished_jobs(
    state: &mut ShellState,
    statuses: &[Option<i32>],
    interactive: bool,
) -> (lines: Vec<Line>)
    ensures
        ({
            let before = old(state).model();
            let n = before.jobs.len() as int;
            &&& final(state).model() == (state::StateModel {
                jobs: unreaped(before.jobs, n, statuses@),
                ..before
            })
            &&& report::line_models(lines@) == if interactive {
                announcements(before.jobs, n, statuses@)
            } else {
                Seq::empty()
            }
        }),
{
    let ghost before = state.model();
    let mut lines = no_lines();
    let mut kept: Vec<JobRecord> = Vec::new();
    let mut i: usize = 0;
    let mut k: usize = 0;
    assert(state::record_models(kept@) =~= Seq::empty());
    while i < state.jobs.len()
        invariant
            i <= state.jobs@.len(),
            state.model() == before,
            k <= i,
            k == running(before.jobs, i as int),
            report::line_models(lines@) == if interactive {
                announcements(before.jobs, i as int, statuses@)
            } else {
                Seq::empty()
            },
            state::record_models(kept@) == unreaped(before.jobs, i as int, statuses@),
        decreases state.jobs@.len() - i,
    {
        let job = &state.jobs[i];
        let status: Option<i32> = if job.stopped {
            None
        } else if k < statuses.len() {
            statuses[k]
        } else {
            None
        };
        if !job.stopped {
            k += 1;
        }
        match status {
            Some(code) => {
                if interactive {
                    complain(&mut lines, announcement_text(job, code));
                }
            },
            None => {
                let ghost so_far = state::record_models(kept@);
                kept.push(job.copy());
                assert(state::record_models(kept@) =~= so_far.push(before.jobs[i as int]));
            },
        }
        i += 1;
    }
    state.jobs = kept;
    lines
}

// ---------------------------------------------------------------------------
// Foreground and background.
// ---------------------------------------------------------------------------

/// The first operand of a command.
pub open spec fn operand_of(args: Seq<Seq<char>>) -> Option<Seq<char>> {
    if args.len() > 1 {
        Some(args[1])
    } else {
        None
    }
}

fn first_operand(args: &[String]) -> (r: Option<&str>)
    ensures
        optional_view(r) == operand_of(text::texts(args@)),
{
    if args.len() > 1 {
        Some(args[1].as_str())
    } else {
        None
    }
}

/// What `fg` begins with: the command of the job, and the request to resume it
/// in the foreground.
pub open spec fn fg_step(args: Seq<Seq<char>>, jobs: Seq<state::RecordModel>) -> outside::StepModel {
    match specified(jobs, operand_of(args)) {
        None => outside::ended(seq![report::complained("fg: no such job"@)], 1),
        Some(i) => outside::asking(
            seq![report::said(jobs[i].command)],
            outside::RequestModel::Foreground { index: i, pid: jobs[i].pid },
        ),
    }
}

/// Implements `fg`: brings a job to the foreground.
pub fn builtin_fg(args: &[String], state: &ShellState) -> (r: Step)
    ensures
        r.model() == fg_step(text::texts(args@), state.model().jobs),
{
    let mut lines = no_lines();
    match resolve_job(state, first_operand(args)) {
        None => {
            complain(&mut lines, "fg: no such job".to_owned());
            let r = end(lines, 1);
            assert(r.model().lines =~= seq![report::complained("fg: no such job"@)]);
            r
        },
        Some(i) => {
            let job = &state.jobs[i];
            say(&mut lines, job.command.clone());
            assert(report::line_models(lines@) =~= seq![report::said(job.command@)]);
            Step { lines, next: Next::Ask(Request::Foreground { index: i, pid: job.pid }) }
        },
    }
}

/// What `fg` comes to: the status of a job that exited, which leaves the
/// table, or 0 for one that stopped again.
pub open spec fn fg_end(st: state::StateModel, index: int, outcome: FgOutcome) -> (
    i32,
    state::StateModel,
) {
    let known = 0 <= index < st.jobs.len();
    match outcome {
        FgOutcome::Exited(code) => (
            code,
            state::StateModel {
                jobs: if known {
                    st.jobs.remove(index)
                } else {
                    st.jobs
                },
                ..st
            },
        ),
        FgOutcome::Stopped => (
            0,
            state::StateModel {
                jobs: if known {
                    state::set_stopped(st.jobs, index, true)
                } else {
                    st.jobs
                },
                ..st
            },
        ),
    }
}

/// Finishes `fg`.
pub fn finish_fg(state: &mut ShellState, index: usize, outcome: FgOutcome) -> (r: Step)
    ensures
        ({
            let (status, after) = fg_end(old(state).model(), index as int, outcome);
            r.model() == outside::ended(Seq::empty(), status) && final(state).model() == after
        }),
{
    let ghost before = state.model();
    match outcome {
        FgOutcome::Exited(code) => {
            if index < state.jobs.len() {
                state.jobs.remove(index);
                assert(state.model().jobs =~= before.jobs.remove(index as int));
            }
            end(no_lines(), code)
        },
        FgOutcome::Stopped => {
            if index < state.jobs.len() {
                state.mark_job(index, true);
            }
            end(no_lines(), 0)
        },
    }
}

/// What `bg` begins with: the job is marked as running and announced, and is
/// to be resumed.
pub open spec fn bg_step(args: Seq<Seq<char>>, st: state::StateModel) -> (
    outside::StepModel,
    state::StateModel,
) {
    match specified(st.jobs, operand_of(args)) {
        None => (outside::ended(seq![report::complained("bg: no such job"@)], 1), st),
        Some(i) => (
            outside::asking(
                seq![
                    report::said(
                        "["@ + text::decimal(st.jobs[i].id as nat) + "] "@ + st.jobs[i].command
                            + " &"@,
                    ),
                ],
                outside::RequestModel::Continue { pid: st.jobs[i].pid },
            ),
            state::StateModel { jobs: state::set_stopped(st.jobs, i, false), ..st },
        ),
    }
}

/// Implements `bg`: lets a stopped job go on in the background.
pub fn builtin_bg(args: &[String], state: &mut ShellState) -> (r: Step)
    ensures
        (r.model(), final(state).model()) == bg_step(text::texts(args@), old(state).model()),
{
    let ghost before = state.model();
    let mut lines = no_lines();
    match resolve_job(state, first_operand(args)) {
        None => {
            complain(&mut lines, "bg: no such job".to_owned());
            let r = end(lines, 1);
            assert(r.model().lines =~= seq![report::complained("bg: no such job"@)]);
            r
        },
        Some(i) => {
            state.mark_job(i, false);
            assert(state.model().jobs.len() == state.jobs@.len());
            let job = &state.jobs[i];
            assert(job.model() == state.model().jobs[i as int]);
            let id = concat3("[", u64_text(job.id as u64).as_str(), "] ");
            let mut line = concat(id.as_str(), job.command.as_str());
            line.append(" &");
            let pid = job.pid;
            say(&mut lines, line);
            assert(report::line_models(lines@) =~= bg_step(text::texts(args@), before).0.lines);
            Step { lines, next: Next::Ask(Request::Continue { pid }) }
        },
    }
}

// ---------------------------------------------------------------------------
// Waiting and disowning.
// ---------------------------------------------------------------------------

/// The process ids that the specifiers from the `i`th on name, behind those of
/// `acc`; the first that names none is the error.
pub open spec fn wait_pids(
    args: Seq<Seq<char>>,
    i: int,
    jobs: Seq<state::RecordModel>,
    acc: Seq<i32>,
) -> Result<Seq<i32>, Seq<char>>
    decreases args.len() - i,
{
    if i < 0 || i >= args.len() {
        Ok(acc)
    } else {
        match specified_pid(jobs, args[i]) {
            Some(pid) => wait_pids(args, i + 1, jobs, acc.push(pid)),
            None => Err(args[i]),
        }
    }
}

/// What `wait` begins with: all jobs without operands, else those named.
pub open spec fn wait_step(args: Seq<Seq<char>>, jobs: Seq<state::RecordModel>) -> outside::StepModel {
    if args.len() < 2 {
        outside::asking(Seq::empty(), outside::RequestModel::Wait { pids: pids_of(jobs) })
    } else {
        match wait_pids(args, 1, jobs, Seq::empty()) {
            Ok(pids) => outside::asking(Seq::empty(), outside::RequestModel::Wait { pids }),
            Err(spec_text) => outside::ended(
                seq![report::complained("wait: "@ + spec_text + ": no such job"@)],
                127,
            ),
        }
    }
}

/// Implements `wait`: blocks until jobs finish.
pub fn builtin_wait(args: &[String], state: &ShellState) -> (r: Step)
    ensures
        r.model() == wait_step(text::texts(args@), state.model().jobs),
{
    if args.len() < 2 {
        return ask(Request::Wait { pids: job_pids(state) });
    }
    let mut pids: Vec<i32> = Vec::new();
    let mut i: usize = 1;
    while i < args.len()
        invariant
            1 <= i <= args@.len(),
            args@.len() >= 2,
            wait_pids(text::texts(args@), 1, state.model().jobs, Seq::empty()) == wait_pids(
                text::texts(args@),
                i as int,
                state.model().jobs,
                pids@,
            ),
        decreases args@.len() - i,
    {
        match resolve_pid(state, args[i].as_str()) {
            Some(pid) => {
                pids.push(pid);
            },
            None => {
                let mut lines = no_lines();
                complain(&mut lines, concat3("wait: ", args[i].as_str(), ": no such job"));
                let r = end(lines, 127);
                assert(r.model().lines =~= wait_step(
                    text::texts(args@),
                    state.model().jobs,
                ).lines);
                return r;
            },
        }
        i += 1;
    }
    ask(Request::Wait { pids })
}

/// The last status that was collected, else `status`.
pub open spec fn last_collected(statuses: Seq<Option<i32>>, n: int, status: i32) -> i32
    decreases n,
{
    if n <= 0 {
        status
    } else {
        match collected(statuses, n - 1) {
            Some(code) => code,
            None => last_collected(statuses, n - 1, status),
        }
    }
}

/// The jobs whose process is not among `pids`.
pub open spec fn without_pids(jobs: Seq<state::RecordModel>, pids: Seq<i32>) -> Seq<
    state::RecordModel,
> {
    jobs.filter(|j: state::RecordModel| !pids.contains(j.pid))
}

fn holds_pid(pids: &[i32], pid: i32) -> (r: bool)
    ensures
        r == pids@.contains(pid),
{
    let mut i: usize = 0;
    while i < pids.len()
        invariant
            i <= pids@.len(),
            forall|k: int| 0 <= k < i ==> pids@[k] != pid,
        decreases pids@.len() - i,
    {
        if pids[i] == pid {
            return true;
        }
        i += 1;
    }
    false
}

fn drop_pids(state: &mut ShellState, pids: &[i32])
    ensures
        final(state).model() == (state::StateModel {
            jobs: without_pids(old(state).model().jobs, pids@),
            ..old(state).model()
        }),
{
    let ghost before = state.model();
    let ghost p = |j: state::RecordModel| !pids@.contains(j.pid);
    let mut kept: Vec<JobRecord> = Vec::new();
    let mut i: usize = 0;
    proof {
        reveal(Seq::filter);
        assert(before.jobs.take(0) =~= Seq::empty());
        assert(state::record_models(kept@) =~= before.jobs.take(0).filter(p));
    }
    while i < state.jobs.len()
        invariant
            i <= state.jobs@.len(),
            state.model() == before,
            p == (|j: state::RecordModel| !pids@.contains(j.pid)),
            state::record_models(kept@) == before.jobs.take(i as int).filter(p),
        decreases state.jobs@.len() - i,
    {
        proof {
            reveal(Seq::filter);
            assert(before.jobs.take(i + 1).drop_last() =~= before.jobs.take(i as int));
            assert(before.jobs.take(i + 1).last() == before.jobs[i as int]);
        }
        if !holds_pid(pids, state.jobs[i].pid) {
            let ghost so_far = state::record_models(kept@);
            kept.push(state.jobs[i].copy());
            assert(state::record_models(kept@) =~= so_far.push(before.jobs[i as int]));
        }
        i += 1;
    }
    assert(before.jobs.take(i as int) =~= before.jobs);
    state.jobs = kept;
}

/// Finishes `wait`: the status is the last one collected, or that of the last
/// command if none was, and the jobs waited for leave the table.
pub fn finish_wait(state: &mut ShellState, pids: &[i32], statuses: &[Option<i32>]) -> (r: Step)
    ensures
        r.model() == outside::ended(
            Seq::empty(),
            last_collected(statuses@, statuses@.len() as int, old(state).last_status),
        ),
        final(state).model() == (state::StateModel {
            jobs: without_pids(old(state).model().jobs, pids@),
            ..old(state).model()
        }),
{
    let mut status: i32 = state.last_status;
    let mut i: usize = 0;
    while i < statuses.len()
        invariant
            i <= statuses@.len(),
            status == last_collected(statuses@, i as int, old(state).last_status),
        decreases statuses@.len() - i,
    {
        match statuses[i] {
            Some(code) => {
                status = code;
            },
            None => {},
        }
        i += 1;
    }
    drop_pids(state, pids);
    end(no_lines(), status)
}

/// The process ids that `disown` names from the `i`th operand on, behind those
/// of `acc`. Flags, and specifiers that name nothing, are passed over.
pub open spec fn disown_pids(
    args: Seq<Seq<char>>,
    i: int,
    jobs: Seq<state::RecordModel>,
    acc: Seq<i32>,
) -> Seq<i32>
    decreases args.len() - i,
{
    if i < 0 || i >= args.len() {
        acc
    } else if args[i].len() > 0 && args[i][0] == '-' {
        disown_pids(args, i + 1, jobs, acc)
    } else {
        match specified_pid(jobs, args[i]) {
            Some(pid) => disown_pids(args, i + 1, jobs, acc.push(pid)),
            None => disown_pids(args, i + 1, jobs, acc),
        }
    }
}

/// The processes that `disown` is about: that of the most recent job without
/// operands.
pub open spec fn disowned(args: Seq<Seq<char>>, jobs: Seq<state::RecordModel>) -> Seq<i32> {
    if args.len() < 2 {
        if jobs.len() == 0 {
            Seq::empty()
        } else {
            seq![jobs.last().pid]
        }
    } else {
        disown_pids(args, 1, jobs, Seq::empty())
    }
}

/// Implements `disown`: takes jobs out of the table, so that the shell no
/// longer looks after them.
pub fn builtin_disown(args: &[String], state: &mut ShellState) -> (r: Step)
    ensures
        r.model() == outside::ended(Seq::empty(), 0),
        final(state).model() == (state::StateModel {
            jobs: without_pids(
                old(state).model().jobs,
                disowned(text::texts(args@), old(state).model().jobs),
            ),
            ..old(state).model()
        }),
{
    let mut pids: Vec<i32> = Vec::new();
    let ghost jobs = state.model().jobs;
    if args.len() < 2 {
        if state.jobs.len() > 0 {
            let last: usize = state.jobs.len() - 1;
            pids.push(state.jobs[last].pid);
        }
        assert(pids@ =~= disowned(text::texts(args@), jobs));
    } else {
        let mut i: usize = 1;
        while i < args.len()
            invariant
                1 <= i <= args@.len(),
                jobs == state.model().jobs,
                disown_pids(text::texts(args@), 1, jobs, Seq::empty()) == disown_pids(
                    text::texts(args@),
                    i as int,
                    jobs,
                    pids@,
                ),
            decreases args@.len() - i,
        {
            if !first_is(args[i].as_str(), '-') {
                match resolve_pid(state, args[i].as_str()) {
                    Some(pid) => {
                        pids.push(pid);
                    },
                    None => {},
                }
            }
            i += 1;
        }
    }
    drop_pids(state, &pids);
    end(no_lines(), 0)
}

// ---------------------------------------------------------------------------
// Signals.
// ---------------------------------------------------------------------------

/// What `str::to_uppercase` makes of a text.
pub uninterp spec fn unicode_uppercase(s: Seq<char>) -> Seq<char>;

/// An ASCII character in upper case.
pub open spec fn ascii_upper(c: char) -> char {
    if 'a' <= c && c <= 'z' {
        (c as u32 - 32) as char
    } else {
        c
    }
}

/// `str::to_uppercase`. Claimed: the result depends on the text alone, and a
/// text in ASCII has its small letters replaced one by one.
#[verifier::external_body]
fn uppercase(s: &str) -> (r: String)
    ensures
        r@ == unicode_uppercase(s@),
        text::all_ascii(s@) ==> r@ == s@.map_values(|c: char| ascii_upper(c)),
{
    s.to_uppercase()
}

/// The text without any `SIG` in front.
pub open spec fn without_sig(s: Seq<char>) -> Seq<char>
    decreases s.len(),
{
    if s.len() >= 3 && s[0] == 'S' && s[1] == 'I' && s[2] == 'G' {
        without_sig(s.skip(3))
    } else {
        s
    }
}

/// The signal that a name in upper case, without `SIG`, stands for.
pub open spec fn signal_called(name: Seq<char>) -> Option<Signal> {
    if name == "HUP"@ {
        Some(Signal::Hup)
    } else if name == "INT"@ {
        Some(Signal::Int)
    } else if name == "QUIT"@ {
        Some(Signal::Quit)
    } else if name == "KILL"@ {
        Some(Signal::Kill)
    } else if name == "TERM"@ {
        Some(Signal::Term)
    } else if name == "USR1"@ {
        Some(Signal::Usr1)
    } else if name == "USR2"@ {
        Some(Signal::Usr2)
    } else if name == "CONT"@ {
        Some(Signal::Cont)
    } else if name == "STOP"@ {
        Some(Signal::Stop)
    } else if name == "TSTP"@ {
        Some(Signal::Tstp)
    } else if name == "TTIN"@ {
        Some(Signal::Ttin)
    } else if name == "TTOU"@ {
        Some(Signal::Ttou)
    } else if name == "CHLD"@ {
        Some(Signal::Chld)
    } else if name == "PIPE"@ {
        Some(Signal::Pipe)
    } else {
        None
    }
}

/// The signal that a text stands for, `upper` being its name in upper case: a
/// known name, else a number.
pub open spec fn signal_of(s: Seq<char>, upper: Seq<char>) -> Option<Signal> {
    match signal_called(upper) {
        Some(sig) => Some(sig),
        None => match text::parse_int(s, i32::MIN as int, i32::MAX as int) {
            Some(n) => Some(Signal::Number(n as i32)),
            None => None,
        },
    }
}

/// The signal that a text stands for.
pub open spec fn signal_named(s: Seq<char>) -> Option<Signal> {
    signal_of(s, unicode_uppercase(without_sig(s)))
}

/// The number of a signal, as Linux has it.
pub open spec fn number_of_signal(sig: Signal) -> int {
    match sig {
        Signal::Hup => 1,
        Signal::Int => 2,
        Signal::Quit => 3,
        Signal::Kill => 9,
        Signal::Usr1 => 10,
        Signal::Usr2 => 12,
        Signal::Pipe => 13,
        Signal::Term => 15,
        Signal::Chld => 17,
        Signal::Cont => 18,
        Signal::Stop => 19,
        Signal::Tstp => 20,
        Signal::Ttin => 21,
        Signal::Ttou => 22,
        Signal::Number(n) => n as int,
    }
}

/// The number of a signal.
pub fn signal_number(sig: Signal) -> (r: i32)
    ensures
        r == number_of_signal(sig),
{
    match sig {
        Signal::Hup => 1,
        Signal::Int => 2,
        Signal::Quit => 3,
        Signal::Kill => 9,
        Signal::Usr1 => 10,
        Signal::Usr2 => 12,
        Signal::Pipe => 13,
        Signal::Term => 15,
        Signal::Chld => 17,
        Signal::Cont => 18,
        Signal::Stop => 19,
        Signal::Tstp => 20,
        Signal::Ttin => 21,
        Signal::Ttou => 22,
        Signal::Number(n) => n,
    }
}

fn strip_sig(s: &str) -> (r: String)
    ensures
        r@ == without_sig(s@),
{
    let chars = to_chars(s);
    let n: usize = chars.len();
    let mut i: usize = 0;
    assert(s@.skip(0) =~= s@);
    while i < n && n - i >= 3 && chars[i] == 'S' && chars[i + 1] == 'I' && chars[i + 2] == 'G'
        invariant
            n == chars@.len(),
            i <= n,
            chars@ == s@,
            without_sig(s@) == without_sig(s@.skip(i as int)),
        decreases n - i,
    {
        assert(s@.skip(i as int).skip(3) =~= s@.skip(i + 3));
        i += 3;
    }
    assert(s@.skip(i as int) =~= s@.subrange(i as int, n as int));
    slice_text(&chars, i, n)
}

/// The signal that a text stands for, `upper` being its name in upper case.
pub fn known_signal(s: &str, upper: &str) -> (r: Option<Signal>)
    ensures
        r == signal_of(s@, upper@),
{
    if same(upper, "HUP") {
        Some(Signal::Hup)
    } else if same(upper, "INT") {
        Some(Signal::Int)
    } else if same(upper, "QUIT") {
        Some(Signal::Quit)
    } else if same(upper, "KILL") {
        Some(Signal::Kill)
    } else if same(upper, "TERM") {
        Some(Signal::Term)
    } else if same(upper, "USR1") {
        Some(Signal::Usr1)
    } else if same(upper, "USR2") {
        Some(Signal::Usr2)
    } else if same(upper, "CONT") {
        Some(Signal::Cont)
    } else if same(upper, "STOP") {
        Some(Signal::Stop)
    } else if same(upper, "TSTP") {
        Some(Signal::Tstp)
    } else if same(upper, "TTIN") {
        Some(Signal::Ttin)
    } else if same(upper, "TTOU") {
        Some(Signal::Ttou)
    } else if same(upper, "CHLD") {
        Some(Signal::Chld)
    } else if same(upper, "PIPE") {
        Some(Signal::Pipe)
    } else {
        match parse_i32(s) {
            Some(n) => Some(Signal::Number(n)),
            None => None,
        }
    }
}

/// Maps a signal name or a number to a signal. A name may have `SIG` in front
/// of it, and the rest of it may be in lower case.
pub fn signal_from_name(s: &str) -> (r: Option<Signal>)
    ensures
        r == signal_named(s@),
        text::all_ascii(s@) ==> r == signal_of(
            s@,
            without_sig(s@).map_values(|c: char| ascii_upper(c)),
        ),
{
    let name = strip_sig(s);
    proof {
        lemma_sig_suffix(s@);
    }
    let upper = uppercase(name.as_str());
    known_signal(s, upper.as_str())
}

proof fn lemma_sig_suffix(s: Seq<char>)
    ensures
        text::all_ascii(s) ==> text::all_ascii(without_sig(s)),
    decreases s.len(),
{
    if s.len() >= 3 && s[0] == 'S' && s[1] == 'I' && s[2] == 'G' {
        lemma_sig_suffix(s.skip(3));
        if text::all_ascii(s) {
            assert forall|i: int| 0 <= i < s.skip(3).len() implies text::ascii(
                #[trigger] s.skip(3)[i],
            ) by {
                assert(text::ascii(s[i + 3]));
            }
        }
    }
}

/// The signal, else the one that asks to terminate.
pub open spec fn or_term(s: Option<Signal>) -> Signal {
    match s {
        Some(sig) => sig,
        None => Signal::Term,
    }
}

/// The signal that the arguments of `kill` ask for, and the place of the first
/// target: `-s NAME`, `-NAME`, `-N`, or none of these.
pub open spec fn kill_signal(args: Seq<Seq<char>>) -> (Signal, int) {
    if args.len() > 1 && args[1] == "-s"@ {
        (
            if args.len() > 2 {
                or_term(signal_named(args[2]))
            } else {
                Signal::Term
            },
            3,
        )
    } else if args.len() > 1 && args[1].len() > 0 && args[1][0] == '-' {
        (
            if args[1].len() == 1 {
                Signal::Term
            } else {
                or_term(signal_named(args[1].skip(1)))
            },
            2,
        )
    } else {
        (Signal::Term, 1)
    }
}

/// The targets of `kill` from the `i`th argument on, behind those of `acc`.
pub open spec fn kill_targets(
    args: Seq<Seq<char>>,
    i: int,
    jobs: Seq<state::RecordModel>,
    acc: Seq<(Seq<char>, Option<i32>)>,
) -> Seq<(Seq<char>, Option<i32>)>
    decreases args.len() - i,
{
    if i < 0 || i >= args.len() {
        acc
    } else {
        kill_targets(args, i + 1, jobs, acc.push((args[i], specified_pid(jobs, args[i]))))
    }
}

/// What `kill` begins with.
pub open spec fn kill_step(args: Seq<Seq<char>>, jobs: Seq<state::RecordModel>) -> outside::StepModel {
    if args.len() < 2 {
        outside::ended(
            seq![report::complained("kill: usage: kill [-s sig | -sig] pid ..."@)],
            2,
        )
    } else {
        let (signal, first) = kill_signal(args);
        outside::asking(
            Seq::empty(),
            outside::RequestModel::Kill {
                signal,
                targets: kill_targets(args, first, jobs, Seq::empty()),
            },
        )
    }
}

fn signal_or_term(name: &str) -> (r: Signal)
    ensures
        r == or_term(signal_named(name@)),
{
    match signal_from_name(name) {
        Some(sig) => sig,
        None => Signal::Term,
    }
}

fn choose_signal(args: &[String]) -> (r: (Signal, usize))
    ensures
        (r.0, r.1 as int) == kill_signal(text::texts(args@)),
{
    if args.len() > 1 && same(args[1].as_str(), "-s") {
        if args.len() > 2 {
            (signal_or_term(args[2].as_str()), 3)
        } else {
            (Signal::Term, 3)
        }
    } else if args.len() > 1 {
        match strip_char(args[1].as_str(), '-') {
            Some(name) => if name.as_str().is_empty() {
                (Signal::Term, 2)
            } else {
                (signal_or_term(name.as_str()), 2)
            },
            None => (Signal::Term, 1),
        }
    } else {
        (Signal::Term, 1)
    }
}

/// Implements `kill`: a signal for processes and jobs.
pub fn builtin_kill(args: &[String], state: &ShellState) -> (r: Step)
    ensures
        r.model() == kill_step(text::texts(args@), state.model().jobs),
{
    if args.len() < 2 {
        let mut lines = no_lines();
        complain(&mut lines, "kill: usage: kill [-s sig | -sig] pid ...".to_owned());
        let r = end(lines, 2);
        assert(r.model().lines =~= kill_step(text::texts(args@), state.model().jobs).lines);
        return r;
    }
    let (signal, first) = choose_signal(args);
    let mut targets: Vec<(String, Option<i32>)> = Vec::new();
    let mut i: usize = first;
    assert(outside::target_models(targets@) =~= Seq::empty());
    while i < args.len()
        invariant
            first <= i,
            i <= args@.len() || i == first,
            kill_targets(text::texts(args@), first as int, state.model().jobs, Seq::empty())
                == kill_targets(
                text::texts(args@),
                i as int,
                state.model().jobs,
                outside::target_models(targets@),
            ),
        decreases args@.len() - i,
    {
        let ghost before = outside::target_models(targets@);
        let pid = resolve_pid(state, args[i].as_str());
        targets.push((args[i].clone(), pid));
        assert(outside::target_models(targets@) =~= before.push((args@[i as int]@, pid)));
        i += 1;
    }
    ask(Request::Kill { signal, targets })
}

/// The signal reached the `i`th target.
pub open spec fn reached(
    targets: Seq<(Seq<char>, Option<i32>)>,
    i: int,
    delivered: Seq<bool>,
) -> bool {
    targets[i].1 is Some && i < delivered.len() && delivered[i]
}

/// The diagnostics for those of the first `n` targets that were not reached.
pub open spec fn kill_failures(
    targets: Seq<(Seq<char>, Option<i32>)>,
    n: int,
    delivered: Seq<bool>,
) -> Seq<report::LineModel>
    decreases n,
{
    if n <= 0 {
        Seq::empty()
    } else if reached(targets, n - 1, delivered) {
        kill_failures(targets, n - 1, delivered)
    } else {
        kill_failures(targets, n - 1, delivered).push(
            report::complained("kill: "@ + targets[n - 1].0 + ": no such process or job"@),
        )
    }
}

/// What `kill` comes to: a diagnostic for every target that was not reached,
/// and status 1 if there is one.
pub open spec fn kill_end(
    targets: Seq<(Seq<char>, Option<i32>)>,
    delivered: Seq<bool>,
) -> outside::StepModel {
    let lines = kill_failures(targets, targets.len() as int, delivered);
    outside::ended(
        lines,
        if lines.len() == 0 {
            0
        } else {
            1
        },
    )
}

/// Finishes `kill`.
pub fn finish_kill(targets: &[(String, Option<i32>)], delivered: &[bool]) -> (r: Step)
    ensures
        r.model() == kill_end(outside::target_models(targets@), delivered@),
{
    let ghost all = outside::target_models(targets@);
    let mut lines = no_lines();
    let mut i: usize = 0;
    while i < targets.len()
        invariant
            i <= targets@.len(),
            all == outside::target_models(targets@),
            report::line_models(lines@) == kill_failures(all, i as int, delivered@),
        decreases targets@.len() - i,
    {
        assert(all[i as int] == (targets@[i as int].0@, targets@[i as int].1));
        if !(targets[i].1.is_some() && i < delivered.len() && delivered[i]) {
            complain(
                &mut lines,
                concat3("kill: ", targets[i].0.as_str(), ": no such process or job"),
            );
        }
        i += 1;
    }
    let status: i32 = if lines.len() == 0 {
        0
    } else {
        1
    };
    assert(lines@.len() == report::line_models(lines@).len());
    end(lines, status)
}

} // verus!
