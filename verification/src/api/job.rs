//! The status of a job, and the decision taken at each poll while waiting
//! for it.

use vstd::prelude::*;
use crate::text::push_str;

verus! {

/// The status of a job, read from the `state.status` of the service's
/// answer.
#[derive(Debug, PartialEq)]
pub enum JobStatus {
    /// Waiting in the queue.
    Queued,
    /// Running on the backend.
    Running,
    /// Finished successfully.
    Completed,
    /// Finished with an error.
    Failed,
    /// Cancelled.
    Cancelled,
    /// A status not recognised, as it was received.
    Unknown(String),
}

/// The model of a job status.
pub enum JobStatusModel {
    Queued,
    Running,
    Completed,
    Failed,
    Cancelled,
    Unknown(Seq<char>),
}

impl View for JobStatus {
    type V = JobStatusModel;

    open spec fn view(&self) -> JobStatusModel {
        match self {
            JobStatus::Queued => JobStatusModel::Queued,
            JobStatus::Running => JobStatusModel::Running,
            JobStatus::Completed => JobStatusModel::Completed,
            JobStatus::Failed => JobStatusModel::Failed,
            JobStatus::Cancelled => JobStatusModel::Cancelled,
            JobStatus::Unknown(s) => JobStatusModel::Unknown(s@),
        }
    }
}

/// The lowercase form of a text, as `str::to_lowercase` gives it (Unicode
/// lowercase mapping).
pub uninterp spec fn lowercase(s: Seq<char>) -> Seq<char>;

/// Lowercases a text (std's `str::to_lowercase`).
///
/// Trusted: the result is the lowercase form of `s`, a function of `s` alone;
/// what that form is, character by character, is not stated.
#[verifier::external_body]
fn to_lowercase(s: &str) -> (r: String)
    ensures
        r@ == lowercase(s@),
{
    s.to_lowercase()
}

/// The status whose lowercase name is `t`: `queued`, `running`,
/// `completed`, `failed`, `cancelled` or `canceled`; any other status is
/// unknown and keeps the text `raw` as received.
pub open spec fn status_named(t: Seq<char>, raw: Seq<char>) -> JobStatusModel {
    if t == "queued"@ {
        JobStatusModel::Queued
    } else if t == "running"@ {
        JobStatusModel::Running
    } else if t == "completed"@ {
        JobStatusModel::Completed
    } else if t == "failed"@ {
        JobStatusModel::Failed
    } else if t == "cancelled"@ || t == "canceled"@ {
        JobStatusModel::Cancelled
    } else {
        JobStatusModel::Unknown(raw)
    }
}

/// The status is terminal: completed, failed or cancelled.
pub open spec fn terminal(s: JobStatusModel) -> bool {
    s is Completed || s is Failed || s is Cancelled
}

/// What to do after a poll.
#[derive(Debug)]
pub enum WaitStep {
    /// The job is not finished: wait and poll again.
    Poll,
    /// The job completed.
    Done,
    /// The job ended without success; the text says so.
    Stop(String),
}

impl JobStatus {
    /// The status named by `s`, whatever its case; an unknown status keeps
    /// `s` as given.
    pub fn from_str(s: &str) -> (r: JobStatus)
        ensures
            r@ == status_named(lowercase(s@), s@),
    {
        let lower = to_lowercase(s);
        JobStatus::from_lowercase(lower.as_str(), s)
    }

    /// The status whose lowercase name is `lower`, for the text `raw` as
    /// received.
    pub fn from_lowercase(lower: &str, raw: &str) -> (r: JobStatus)
        ensures
            r@ == status_named(lower@, raw@),
    {
        let t = lower.to_owned();
        if t == "queued".to_owned() {
            JobStatus::Queued
        } else if t == "running".to_owned() {
            JobStatus::Running
        } else if t == "completed".to_owned() {
            JobStatus::Completed
        } else if t == "failed".to_owned() {
            JobStatus::Failed
        } else if t == "cancelled".to_owned() || t == "canceled".to_owned() {
            JobStatus::Cancelled
        } else {
            JobStatus::Unknown(raw.to_owned())
        }
    }

    /// Whether the job has ended: completed, failed or cancelled.
    pub fn is_terminal(&self) -> (r: bool)
        ensures
            r == terminal(self@),
    {
        match self {
            JobStatus::Completed | JobStatus::Failed | JobStatus::Cancelled => true,
            _ => false,
        }
    }

    /// Whether the job completed successfully.
    pub fn is_success(&self) -> (r: bool)
        ensures
            r == (self@ is Completed),
    {
        match self {
            JobStatus::Completed => true,
            _ => false,
        }
    }
}

/// The text of the end of a waited job that did not succeed.
pub open spec fn failed_job_text(job_id: Seq<char>, s: JobStatusModel) -> Seq<char> {
    "Job "@ + job_id + " terminé avec statut "@ + (if s is Failed {
        "Failed"@
    } else {
        "Cancelled"@
    })
}

/// The decision after a poll of job `job_id` that gave `status`: poll again
/// while the status is not terminal, stop with success when it completed,
/// stop with a failure otherwise.
pub fn wait_step(job_id: &str, status: &JobStatus) -> (r: WaitStep)
    ensures
        !terminal(status@) ==> r is Poll,
        status@ is Completed ==> r is Done,
        terminal(status@) && !(status@ is Completed) ==> (r matches WaitStep::Stop(m) && m@ == failed_job_text(
            job_id@,
            status@,
        )),
{
    if !status.is_terminal() {
        WaitStep::Poll
    } else if status.is_success() {
        WaitStep::Done
    } else {
        let mut m = String::new();
        push_str(&mut m, "Job ");
        push_str(&mut m, job_id);
        push_str(&mut m, " terminé avec statut ");
        match status {
            JobStatus::Failed => push_str(&mut m, "Failed"),
            _ => push_str(&mut m, "Cancelled"),
        }
        assert(m@ =~= failed_job_text(job_id@, status@));
        WaitStep::Stop(m)
    }
}

/// A completed job has ended.
pub proof fn lemma_success_is_terminal(s: JobStatusModel)
    ensures
        s is Completed ==> terminal(s),
{
}

} // verus!
