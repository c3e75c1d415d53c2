//! The state of a shell: variables, aliases, functions, positional parameters
//! and the job table.

use crate::syntax;
use crate::syntax::{copy_jobs, Job};
use crate::table;
use crate::table::{copy_table, Table};
use crate::text;
use crate::text::clone_texts;
use crate::vars;
use crate::vars::Vars;
use vstd::prelude::*;

verus! {

/// Everything that a shell remembers between commands.
#[derive(Debug)]
pub struct ShellState {
    pub vars: Vars,
    pub aliases: Table<String>,
    pub functions: Table<Vec<Job>>,
    pub positional: Vec<String>,
    pub last_status: i32,
    pub prev_dir: Option<String>,
    /// Running or stopped background jobs, for `jobs`, `fg` and `bg`.
    pub jobs: Vec<JobRecord>,
    pub next_job_id: usize,
}

/// One entry of the job table.
#[derive(Debug, Clone)]
pub struct JobRecord {
    pub id: usize,
    pub pid: i32,
    pub command: String,
    pub stopped: bool,
}

/// Model of a job table entry.
pub struct RecordModel {
    pub id: usize,
    pub pid: i32,
    pub command: Seq<char>,
    pub stopped: bool,
}

/// Model of the state.
#[verifier::ext_equal]
pub struct StateModel {
    pub vars: vars::VarsModel,
    pub aliases: table::Entries<Seq<char>>,
    pub functions: table::Entries<Seq<syntax::JobModel>>,
    pub positional: Seq<Seq<char>>,
    pub last_status: i32,
    pub prev_dir: Option<Seq<char>>,
    pub jobs: Seq<RecordModel>,
    pub next_job_id: usize,
}

impl JobRecord {
    pub open spec fn model(self) -> RecordModel {
        RecordModel {
            id: self.id,
            pid: self.pid,
            command: self.command@,
            stopped: self.stopped,
        }
    }
}

/// The models of a sequence of job table entries.
pub open spec fn record_models(v: Seq<JobRecord>) -> Seq<RecordModel> {
    v.map_values(|r: JobRecord| r.model())
}

/// The text held by an optional string.
pub open spec fn optional_text(o: Option<String>) -> Option<Seq<char>> {
    match o {
        Some(s) => Some(s@),
        None => None,
    }
}

/// The position of the first entry with the given id at or after `i`.
pub open spec fn id_from(jobs: Seq<RecordModel>, i: int, id: int) -> Option<int>
    decreases jobs.len() - i,
{
    if i < 0 || i >= jobs.len() {
        None
    } else if jobs[i].id == id {
        Some(i)
    } else {
        id_from(jobs, i + 1, id)
    }
}

/// The job table with the `i`th entry stopped or running.
pub open spec fn set_stopped(jobs: Seq<RecordModel>, i: int, stopped: bool) -> Seq<RecordModel> {
    jobs.update(i, RecordModel { stopped, ..jobs[i] })
}

impl StateModel {
    /// The state of a new shell.
    pub open spec fn fresh() -> StateModel {
        StateModel {
            vars: vars::VarsModel {
                shell: Seq::empty(),
                env: Seq::empty(),
                notices: Seq::empty(),
            },
            aliases: Seq::empty(),
            functions: Seq::empty(),
            positional: Seq::empty(),
            last_status: 0,
            prev_dir: None,
            jobs: Seq::empty(),
            next_job_id: 1,
        }
    }

    /// A running job added to the table, under the next id.
    pub open spec fn with_job(self, command: Seq<char>, pid: i32) -> StateModel {
        StateModel {
            jobs: self.jobs.push(
                RecordModel { id: self.next_job_id, pid, command, stopped: false },
            ),
            next_job_id: (self.next_job_id + 1) as usize,
            ..self
        }
    }

    /// The same with the first entry of that id stopped.
    pub open spec fn with_stopped_job(self, command: Seq<char>, pid: i32) -> StateModel {
        let added = self.with_job(command, pid);
        match id_from(added.jobs, 0, self.next_job_id as int) {
            Some(i) => StateModel { jobs: set_stopped(added.jobs, i, true), ..added },
            None => added,
        }
    }

    /// Every job id was given out by this shell and is in use once.
    pub open spec fn ids_fresh(self) -> bool {
        &&& forall|i: int|
            0 <= i < self.jobs.len() ==> (#[trigger] self.jobs[i]).id < self.next_job_id
        &&& forall|i: int, j: int|
            0 <= i < j < self.jobs.len() ==> (#[trigger] self.jobs[i]).id != (
            #[trigger] self.jobs[j]).id
    }
}

impl JobRecord {
    /// A copy of the entry.
    pub fn copy(&self) -> (r: JobRecord)
        ensures
            r.model() == self.model(),
    {
        JobRecord {
            id: self.id,
            pid: self.pid,
            command: self.command.clone(),
            stopped: self.stopped,
        }
    }
}

fn copy_records(v: &Vec<JobRecord>) -> (r: Vec<JobRecord>)
    ensures
        record_models(r@) == record_models(v@),
{
    let mut out: Vec<JobRecord> = Vec::new();
    let mut i: usize = 0;
    while i < v.len()
        invariant
            i <= v@.len(),
            out@.len() == i,
            forall|k: int| 0 <= k < i ==> (#[trigger] out@[k]).model() == v@[k].model(),
        decreases v@.len() - i,
    {
        out.push(v[i].copy());
        i += 1;
    }
    assert(record_models(out@) =~= record_models(v@));
    out
}

fn copy_functions(t: &Table<Vec<Job>>) -> (r: Table<Vec<Job>>)
    ensures
        r.model() == t.model(),
{
    let mut out: Vec<(String, Vec<Job>)> = Vec::new();
    let mut i: usize = 0;
    while i < t.entries.len()
        invariant
            i <= t.entries@.len(),
            out@.len() == i,
            forall|k: int|
                0 <= k < i ==> (#[trigger] out@[k]).0@ == t.entries@[k].0@ && out@[k].1.deep_view()
                    == t.entries@[k].1.deep_view(),
        decreases t.entries@.len() - i,
    {
        let body = copy_jobs(&t.entries[i].1);
        proof {
            syntax::lemma_jobs_view(body);
            syntax::lemma_jobs_view(t.entries@[i as int].1);
        }
        out.push((t.entries[i].0.clone(), body));
        i += 1;
    }
    let r = Table { entries: out };
    assert(r.model() =~= t.model());
    r
}

impl ShellState {
    pub open spec fn model(self) -> StateModel {
        StateModel {
            vars: self.vars.model(),
            aliases: self.aliases.model(),
            functions: self.functions.model(),
            positional: text::texts(self.positional@),
            last_status: self.last_status,
            prev_dir: optional_text(self.prev_dir),
            jobs: record_models(self.jobs@),
            next_job_id: self.next_job_id,
        }
    }

    /// The state of a new shell.
    pub fn new() -> (r: Self)
        ensures
            r.model() == StateModel::fresh(),
            r.model().ids_fresh(),
    {
        let r = ShellState {
            vars: Vars::new(),
            aliases: Table::new(),
            functions: Table::new(),
            positional: Vec::new(),
            last_status: 0,
            prev_dir: None,
            jobs: Vec::new(),
            next_job_id: 1,
        };
        assert(r.model() =~= StateModel::fresh());
        r
    }

    /// A copy of the state.
    pub fn copy(&self) -> (r: ShellState)
        ensures
            r.model() == self.model(),
    {
        ShellState {
            vars: self.vars.copy(),
            aliases: copy_table(&self.aliases),
            functions: copy_functions(&self.functions),
            positional: clone_texts(&self.positional),
            last_status: self.last_status,
            prev_dir: match &self.prev_dir {
                Some(p) => Some(p.clone()),
                None => None,
            },
            jobs: copy_records(&self.jobs),
            next_job_id: self.next_job_id,
        }
    }

    /// The position of the first job with the given id.
    pub fn find_id(&self, id: usize) -> (r: Option<usize>)
        ensures
            match r {
                Some(i) => i < self.jobs@.len() && id_from(self.model().jobs, 0, id as int)
                    == Some(i as int),
                None => id_from(self.model().jobs, 0, id as int) is None,
            },
    {
        let mut i: usize = 0;
        while i < self.jobs.len()
            invariant
                i <= self.jobs@.len(),
                id_from(self.model().jobs, 0, id as int) == id_from(
                    self.model().jobs,
                    i as int,
                    id as int,
                ),
            decreases self.jobs@.len() - i,
        {
            if self.jobs[i].id == id {
                return Some(i);
            }
            i += 1;
        }
        None
    }

    /// Marks the `i`th job as stopped or running.
    pub fn mark_job(&mut self, i: usize, stopped: bool)
        requires
            i < old(self).jobs@.len(),
        ensures
            final(self).model() == (StateModel {
                jobs: set_stopped(old(self).model().jobs, i as int, stopped),
                ..old(self).model()
            }),
    {
        let ghost before = self.model();
        let old_record = &self.jobs[i];
        let record = JobRecord {
            id: old_record.id,
            pid: old_record.pid,
            command: old_record.command.clone(),
            stopped,
        };
        self.jobs.set(i, record);
        assert(self.model().jobs =~= set_stopped(before.jobs, i as int, stopped));
    }

    /// Adds a running job to the table and returns its new id.
    pub fn add_job(&mut self, command: String, pid: i32) -> (id: usize)
        requires
            old(self).next_job_id < usize::MAX,
        ensures
            id == old(self).next_job_id,
            final(self).model() == old(self).model().with_job(command@, pid),
    {
        let ghost before = self.model();
        let ghost added = RecordModel { id: self.next_job_id, pid, command: command@, stopped: false };
        let id: usize = self.next_job_id;
        self.next_job_id = id + 1;
        self.jobs.push(JobRecord { id, pid, command, stopped: false });
        assert(self.model().jobs =~= before.jobs.push(added));
        id
    }

    /// Adds a foreground job that stopped, so that it can be resumed later.
    pub fn add_stopped_job(&mut self, command: String, pid: i32) -> (id: usize)
        requires
            old(self).next_job_id < usize::MAX,
        ensures
            id == old(self).next_job_id,
            final(self).model() == old(self).model().with_stopped_job(command@, pid),
    {
        let id = self.add_job(command, pid);
        match self.find_id(id) {
            Some(i) => {
                self.mark_job(i, true);
            },
            None => {},
        }
        id
    }
}

/// A job added to a table whose ids are fresh keeps them fresh, stands last,
/// and is the one that its id finds.
pub proof fn law_job_ids(st: StateModel, command: Seq<char>, pid: i32)
    requires
        st.ids_fresh(),
        st.next_job_id < usize::MAX,
    ensures
        st.with_job(command, pid).ids_fresh(),
        id_from(st.with_job(command, pid).jobs, 0, st.next_job_id as int) == Some(
            st.jobs.len() as int,
        ),
        st.with_stopped_job(command, pid).ids_fresh(),
        st.with_stopped_job(command, pid).jobs == st.jobs.push(
            RecordModel { id: st.next_job_id, pid, command, stopped: true },
        ),
{
    let added = st.with_job(command, pid);
    lemma_only_id(added.jobs, 0, st.next_job_id as int);
    assert(st.with_stopped_job(command, pid).jobs =~= st.jobs.push(
        RecordModel { id: st.next_job_id, pid, command, stopped: true },
    ));
}

proof fn lemma_only_id(jobs: Seq<RecordModel>, i: int, id: int)
    requires
        0 <= i < jobs.len(),
        jobs.last().id == id,
        forall|k: int| 0 <= k < jobs.len() - 1 ==> (#[trigger] jobs[k]).id != id,
    ensures
        id_from(jobs, i, id) == Some(jobs.len() - 1),
    decreases jobs.len() - i,
{
    if i < jobs.len() - 1 {
        assert(jobs[i].id != id);
        lemma_only_id(jobs, i + 1, id);
    }
}

} // verus!
