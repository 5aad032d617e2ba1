//! Job records and the rules that a new or edited job has to meet.

use crate::chars::{blank, contains, has_infix, is_blank, same_chars, to_chars};
use crate::error::Error;
use vstd::prelude::*;
use vstd::string::StringExecFns;

verus! {

/// A periodic job: what to run, and when.
#[derive(Debug, Clone, PartialEq, Eq)]
pub struct CronJob {
    /// The identity of the job, fixed for its lifetime.
    pub id: String,
    /// The name shown to the user.
    pub name: Option<String>,
    /// The recurrence expression, as the user wrote it.
    pub schedule: String,
    /// The command to run.
    pub command: String,
    /// Whether the external schedule holds the job.
    pub is_active: bool,
}

/// A job record as plain values.
pub struct JobView {
    pub id: Seq<char>,
    pub name: Option<Seq<char>>,
    pub schedule: Seq<char>,
    pub command: Seq<char>,
    pub is_active: bool,
}

impl View for CronJob {
    type V = JobView;

    open spec fn view(&self) -> JobView {
        JobView {
            id: self.id@,
            name: match self.name {
                Some(n) => Some(n@),
                None => None,
            },
            schedule: self.schedule@,
            command: self.command@,
            is_active: self.is_active,
        }
    }
}

/// The views of a row of jobs.
pub open spec fn job_views(jobs: Seq<CronJob>) -> Seq<JobView> {
    jobs.map_values(|j: CronJob| j@)
}

/// Copies an optional text.
pub fn clone_text(name: &Option<String>) -> (r: Option<String>)
    ensures
        r.deep_view() == name.deep_view(),
{
    match name {
        Some(n) => Some(n.clone()),
        None => None,
    }
}

/// Copies a job.
pub fn clone_job(job: &CronJob) -> (r: CronJob)
    ensures
        r@ == job@,
{
    CronJob {
        id: job.id.clone(),
        name: clone_text(&job.name),
        schedule: job.schedule.clone(),
        command: job.command.clone(),
        is_active: job.is_active,
    }
}

/// Accepts a recurrence expression that is not blank.
pub fn validate_cron_expression(expression: &str) -> (r: Result<(), Error>)
    ensures
        !is_blank(expression@) ==> r is Ok,
        is_blank(expression@) ==> (r matches Err(Error::InvalidExpression(m)) && m@
            == "Cron expression cannot be empty"@),
{
    let expr = to_chars(expression);
    if blank(expr.as_slice()) {
        return Err(Error::InvalidExpression(String::from_str("Cron expression cannot be empty")));
    }
    Ok(())
}

/// Whether a command holds one of the patterns that mark it as destructive.
pub open spec fn looks_dangerous(command: Seq<char>) -> bool {
    ||| has_infix(command, "rm -rf"@)
    ||| has_infix(command, "mkfs"@)
    ||| has_infix(command, "> /"@)
    ||| has_infix(command, "dd"@)
}

/// Accepts a command that is not blank and does not look destructive.
pub fn validate_command(command: &str) -> (r: Result<(), Error>)
    ensures
        !is_blank(command@) && !looks_dangerous(command@) ==> r is Ok,
        is_blank(command@) ==> (r matches Err(Error::InvalidCommand(m)) && m@
            == "Command cannot be empty"@),
        !is_blank(command@) && looks_dangerous(command@) ==> (r matches Err(
            Error::InvalidCommand(m),
        ) && m@ == "Potentially dangerous command detected"@),
{
    let text = to_chars(command);
    if blank(text.as_slice()) {
        return Err(Error::InvalidCommand(String::from_str("Command cannot be empty")));
    }
    let dangerous = contains(text.as_slice(), to_chars("rm -rf").as_slice()) || contains(
        text.as_slice(),
        to_chars("mkfs").as_slice(),
    ) || contains(text.as_slice(), to_chars("> /").as_slice()) || contains(
        text.as_slice(),
        to_chars("dd").as_slice(),
    );
    if dangerous {
        return Err(
            Error::InvalidCommand(String::from_str("Potentially dangerous command detected")),
        );
    }
    Ok(())
}


/// The position of the first of `jobs` that has the id `id`.
pub open spec fn position_of(jobs: Seq<JobView>, id: Seq<char>) -> Option<int>
    decreases jobs.len(),
{
    if jobs.len() == 0 {
        None
    } else {
        match position_of(jobs.drop_last(), id) {
            Some(i) => Some(i),
            None => if jobs.last().id == id {
                Some(jobs.len() - 1)
            } else {
                None
            },
        }
    }
}

/// `position_of` finds the first job with the id, and finds one if there is one.
pub proof fn lemma_position_of(jobs: Seq<JobView>, id: Seq<char>)
    ensures
        match position_of(jobs, id) {
            Some(i) => 0 <= i < jobs.len() && jobs[i].id == id && forall|j: int|
                0 <= j < i ==> (#[trigger] jobs[j]).id != id,
            None => forall|j: int| 0 <= j < jobs.len() ==> (#[trigger] jobs[j]).id != id,
        },
    decreases jobs.len(),
{
    if jobs.len() > 0 {
        lemma_position_of(jobs.drop_last(), id);
        assert forall|j: int| 0 <= j < jobs.len() - 1 implies jobs.drop_last()[j] == jobs[j] by {}
        match position_of(jobs.drop_last(), id) {
            Some(i) => {
                assert(jobs.drop_last()[i] == jobs[i]);
                assert forall|j: int| 0 <= j < i implies (#[trigger] jobs[j]).id != id by {
                    assert(jobs.drop_last()[j] == jobs[j]);
                }
            },
            None => {
                assert forall|j: int| 0 <= j < jobs.len() - 1 implies (#[trigger] jobs[j]).id
                    != id by {
                    assert(jobs.drop_last()[j] == jobs[j]);
                }
            },
        }
    }
}

/// Finds the first of `jobs` that has the id `id`.
pub fn find_job(jobs: &Vec<CronJob>, id: &str) -> (r: Option<usize>)
    ensures
        match r {
            Some(i) => position_of(job_views(jobs@), id@) == Some(i as int) && i < jobs.len(),
            None => position_of(job_views(jobs@), id@) is None,
        },
{
    let ghost all = job_views(jobs@);
    let wanted = to_chars(id);
    let mut k: usize = 0;
    assert(all.take(0) =~= Seq::<JobView>::empty());
    while k < jobs.len()
        invariant
            k <= jobs.len(),
            all == job_views(jobs@),
            wanted@ == id@,
            position_of(all.take(k as int), id@) is None,
        decreases jobs.len() - k,
    {
        assert(all.take(k + 1).drop_last() == all.take(k as int));
        assert(all.take(k + 1).last() == jobs@[k as int]@);
        let here = to_chars(jobs[k].id.as_str());
        if same_chars(here.as_slice(), wanted.as_slice()) {
            proof {
                lemma_position_found(all, id@, k as int);
            }
            return Some(k);
        }
        k += 1;
    }
    assert(all.take(jobs.len() as int) == all);
    None
}

/// Finds the first of `jobs` that has the id `id`, or reports that there is
/// none.
pub fn locate_job(jobs: &Vec<CronJob>, id: &str) -> (r: Result<usize, Error>)
    ensures
        match r {
            Ok(i) => position_of(job_views(jobs@), id@) == Some(i as int) && i < jobs.len(),
            Err(e) => position_of(job_views(jobs@), id@) is None && e == Error::JobNotFound,
        },
{
    match find_job(jobs, id) {
        Some(i) => Ok(i),
        None => Err(Error::JobNotFound),
    }
}

/// A job that is the first with its id in a beginning of a row is the first
/// with that id in the whole row.
pub proof fn lemma_position_found(jobs: Seq<JobView>, id: Seq<char>, k: int)
    requires
        0 <= k < jobs.len(),
        position_of(jobs.take(k + 1), id) == Some(k),
    ensures
        position_of(jobs, id) == Some(k),
    decreases jobs.len() - k,
{
    lemma_position_grows(jobs, id, k, jobs.len() as int);
    assert(jobs.take(jobs.len() as int) == jobs);
}

/// A job that is the first with its id in a beginning of a row is the first
/// with that id in every longer beginning.
proof fn lemma_position_grows(jobs: Seq<JobView>, id: Seq<char>, k: int, n: int)
    requires
        0 <= k < n <= jobs.len(),
        position_of(jobs.take(k + 1), id) == Some(k),
    ensures
        position_of(jobs.take(n), id) == Some(k),
    decreases n,
{
    if n > k + 1 {
        lemma_position_grows(jobs, id, k, n - 1);
        assert(jobs.take(n).drop_last() == jobs.take(n - 1));
    }
}


/// Why a job's fields are refused.
pub enum Refusal {
    /// The recurrence expression is refused, with this message.
    Expression(Seq<char>),
    /// The command is refused, with this message.
    Command(Seq<char>),
}

/// Why the fields of a job are refused, if they are: the expression is
/// judged first, then the command.
pub open spec fn refusal_of(schedule: Seq<char>, command: Seq<char>) -> Option<Refusal> {
    if is_blank(schedule) {
        Some(Refusal::Expression("Cron expression cannot be empty"@))
    } else if is_blank(command) {
        Some(Refusal::Command("Command cannot be empty"@))
    } else if looks_dangerous(command) {
        Some(Refusal::Command("Potentially dangerous command detected"@))
    } else {
        None
    }
}

/// Whether the error `e` tells the refusal `refusal`.
pub open spec fn tells(e: Error, refusal: Refusal) -> bool {
    match refusal {
        Refusal::Expression(m) => e matches Error::InvalidExpression(text) && text@ == m,
        Refusal::Command(m) => e matches Error::InvalidCommand(text) && text@ == m,
    }
}

/// Judges the fields of a job: the expression first, then the command.
pub fn validate_job(schedule: &str, command: &str) -> (r: Result<(), Error>)
    ensures
        match refusal_of(schedule@, command@) {
            None => r is Ok,
            Some(refusal) => r matches Err(e) && tells(e, refusal),
        },
{
    match validate_cron_expression(schedule) {
        Ok(()) => {},
        Err(e) => {
            return Err(e);
        },
    }
    validate_command(command)
}

/// A new job: not active, with the fields given, once its expression and its
/// command are accepted.
pub fn new_job(id: String, name: Option<String>, schedule: String, command: String) -> (r: Result<
    CronJob,
    Error,
>)
    ensures
        match refusal_of(schedule@, command@) {
            None => r matches Ok(job) && job == (CronJob {
                id,
                name,
                schedule,
                command,
                is_active: false,
            }),
            Some(refusal) => r matches Err(e) && tells(e, refusal),
        },
{
    match validate_job(schedule.as_str(), command.as_str()) {
        Ok(()) => Ok(CronJob { id, name, schedule, command, is_active: false }),
        Err(e) => Err(e),
    }
}

/// `job` with a new name, expression and command, once the expression and
/// the command are accepted. Its id stays, and so does whether it is active.
pub fn edited_job(job: &CronJob, name: Option<String>, schedule: String, command: String) -> (r:
    Result<CronJob, Error>)
    ensures
        match refusal_of(schedule@, command@) {
            None => r matches Ok(next) && next.id@ == job.id@ && next.name == name
                && next.schedule == schedule && next.command == command && next.is_active
                == job.is_active,
            Some(refusal) => r matches Err(e) && tells(e, refusal),
        },
{
    match validate_job(schedule.as_str(), command.as_str()) {
        Ok(()) => Ok(
            CronJob { id: job.id.clone(), name, schedule, command, is_active: job.is_active },
        ),
        Err(e) => Err(e),
    }
}

/// `job`, active or not as `is_active` says.
pub fn toggled_job(job: &CronJob, is_active: bool) -> (r: CronJob)
    ensures
        r@ == (JobView { is_active, ..job@ }),
{
    let mut next = clone_job(job);
    next.is_active = is_active;
    next
}

/// How a run of a job ended.
#[derive(Debug, Clone, Copy, PartialEq, Eq)]
pub enum JobStatus {
    Success,
    Failed,
}

impl JobStatus {
    /// The word under which the status is stored.
    pub open spec fn word(self) -> Seq<char> {
        match self {
            JobStatus::Success => "Success"@,
            JobStatus::Failed => "Failed"@,
        }
    }

    /// The word under which the status is stored.
    pub fn as_word(&self) -> (r: String)
        ensures
            r@ == self.word(),
    {
        match self {
            JobStatus::Success => String::from_str("Success"),
            JobStatus::Failed => String::from_str("Failed"),
        }
    }

    /// The status that a stored word stands for: whatever is not `Success`
    /// counts as a failure.
    pub fn from_word(word: &str) -> (r: JobStatus)
        ensures
            r == if word@ == "Success"@ {
                JobStatus::Success
            } else {
                JobStatus::Failed
            },
    {
        if same_chars(to_chars(word).as_slice(), to_chars("Success").as_slice()) {
            JobStatus::Success
        } else {
            JobStatus::Failed
        }
    }
}

/// The permissions that are missing, by name: `crontab` where the external
/// schedule cannot be read and written, `data_directory` where the data
/// directory cannot be written.
pub open spec fn missing_names(crontab: bool, data_directory: bool) -> Seq<Seq<char>> {
    (if crontab {
        Seq::<Seq<char>>::empty()
    } else {
        seq!["crontab"@]
    }) + (if data_directory {
        Seq::<Seq<char>>::empty()
    } else {
        seq!["data_directory"@]
    })
}

/// Names the permissions that are missing.
pub fn missing_permissions(crontab: bool, data_directory: bool) -> (r: Vec<String>)
    ensures
        r.deep_view() == missing_names(crontab, data_directory),
{
    let mut r: Vec<String> = Vec::new();
    if !crontab {
        r.push(String::from_str("crontab"));
    }
    if !data_directory {
        r.push(String::from_str("data_directory"));
    }
    assert(r.deep_view() =~= missing_names(crontab, data_directory));
    r
}

} // verus!
