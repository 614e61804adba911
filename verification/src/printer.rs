//! The decisions of a printer session: what a property message changes, and
//! when the job-status property answers a job that was sent.

use vstd::prelude::*;
use vstd::string::*;
use crate::text::{has_prefix, starts_with, str_eq};

verus! {

/// What the printer answered to a job.
#[derive(Debug)]
pub struct JobResult {
    pub job_id: String,
    pub ok: bool,
    pub status: String,
    pub bytes: usize,
    pub fragments: usize,
}

/// The job-status text that answers job `job_id`: it begins with the id and a colon.
pub open spec fn answers(status: Seq<char>, job_id: Seq<char>) -> bool {
    has_prefix(status, job_id + ":"@)
}

/// Reads the printer's verdict on job `job_id` (of `bytes` bytes sent in
/// `fragments` fragments) from the job-status property: none until the status
/// names the job, then the job succeeded exactly when the rest reads
/// `Successful`.
pub fn job_result(job_id: &str, status: &str, bytes: usize, fragments: usize) -> (r: Option<JobResult>)
    ensures
        match r {
            None => !answers(status@, job_id@),
            Some(res) => {
                &&& answers(status@, job_id@)
                &&& res.job_id@ == job_id@
                &&& res.ok == (status@.skip(job_id@.len() + 1int) == "Successful"@)
                &&& res.status@ == status@
                &&& res.bytes == bytes
                &&& res.fragments == fragments
            },
        },
{
    let mut prefix = String::from_str(job_id);
    prefix.append(":");
    if !starts_with(status, prefix.as_str()) {
        return None;
    }
    let n = status.unicode_len();
    let m = prefix.as_str().unicode_len();
    let rest = status.substring_char(m, n);
    proof {
        reveal_strlit(":");
    }
    let ok = str_eq(rest, "Successful");
    Some(JobResult { job_id: String::from_str(job_id), ok, status: String::from_str(status), bytes, fragments })
}

/// What a session does after reading the job-status property while it waits
/// for the verdict on a job it sent.
#[derive(Debug)]
pub enum PrintStep {
    /// The status names the job: the verdict.
    Answered(JobResult),
    /// Wait for the next property message.
    Wait,
    /// The time for a verdict (60 s) is up.
    TimedOut,
}

/// Waiting for a job's verdict, after each read of the job-status property:
/// the verdict once the status names the job; otherwise the session waits
/// while time is left, and stops waiting when none is.
pub fn print_step(job_id: &str, status: &str, bytes: usize, fragments: usize, time_left: bool) -> (s: PrintStep)
    ensures
        answers(status@, job_id@) ==> (s matches PrintStep::Answered(res) && {
            &&& res.job_id@ == job_id@
            &&& res.ok == (status@.skip(job_id@.len() + 1int) == "Successful"@)
            &&& res.status@ == status@
            &&& res.bytes == bytes
            &&& res.fragments == fragments
        }),
        !answers(status@, job_id@) && time_left ==> s is Wait,
        !answers(status@, job_id@) && !time_left ==> s is TimedOut,
{
    match job_result(job_id, status, bytes, fragments) {
        Some(r) => PrintStep::Answered(r),
        None => if time_left { PrintStep::Wait } else { PrintStep::TimedOut },
    }
}

} // verus!
