//! The decisions behind the sidecar-compatible HTTP API: the battery reading,
//! the one-operation-at-a-time rule, and what a print request answers.

use vstd::prelude::*;
use vstd::string::*;
use crate::text::str_eq;
use crate::printer::JobResult;

verus! {

/// The SDK placed images 36 rows down; the studio passes -0.12 in to cancel that.
pub const SDK_DEFAULT_ROW: i32 = 36;

/// The head window (1.44 in) at 300 dpi, in rows.
pub const HEAD_ROWS: u32 = 432;

/// Property 0001 is a class, not a number. "High" is the only value observed; the SDK showed 100 % for it.
/// Other classes have not been seen, so they stay unmapped rather than guessed.
pub fn battery_percent(class: Option<&str>) -> (pct: Option<u32>)
    ensures
        pct == match class {
            Some(c) => if c@ == "High"@ { Some(100u32) } else { None },
            None => None,
        },
{
    match class {
        Some(c) => if str_eq(c, "High") { Some(100) } else { None },
        None => None,
    }
}

/// The refusal of a request that arrives while `current` is under way.
pub open spec fn busy_text(current: Seq<char>) -> Seq<char> {
    "printer is busy ("@ + current + ")"@
}

/// Whether a request may start: when another operation is under way it is
/// refused with a message naming that operation.
pub fn busy_error(current: Option<&str>) -> (e: Option<String>)
    ensures
        match current {
            Some(c) => e is Some && e.unwrap()@ == busy_text(c@),
            None => e is None,
        },
{
    match current {
        Some(c) => {
            let mut m = String::from_str("printer is busy (");
            m.append(c);
            m.append(")");
            Some(m)
        },
        None => None,
    }
}

/// Whether ink reaches past the head window (its last inked row at or below
/// row 432).
pub fn clipped(ink: Option<(u32, u32)>) -> (c: bool)
    ensures
        c == match ink {
            Some((_, last)) => last >= HEAD_ROWS,
            None => false,
        },
{
    match ink {
        Some((_, last)) => last >= HEAD_ROWS,
        None => false,
    }
}

/// The severity the studio shows for the last job: "Error" after a failed job.
pub fn error_severity(last_job_failed: bool) -> (s: &'static str)
    ensures
        s@ == if last_job_failed { "Error"@ } else { ""@ },
{
    if last_job_failed { "Error" } else { "" }
}

/// The default number of copies of a print request.
pub fn one() -> (n: u32)
    ensures
        n == 1,
{
    1
}

/// What a print request answers: whether it printed, the error, and the
/// printer's status text.
#[derive(Debug)]
pub struct Outcome {
    pub ok: bool,
    pub error: Option<String>,
    pub message: Option<String>,
}

/// The refusal of a blank raster.
pub open spec fn blank_text() -> Seq<char> {
    "nothing to print: the raster is blank (the printer rejects blank jobs)"@
}

/// What a print request answers before anything is sent: a dry run succeeds,
/// a raster without ink is refused (the printer rejects blank jobs); `None`
/// means the job is to be sent.
pub fn outcome_before_sending(dry: bool, ink: Option<(u32, u32)>) -> (o: Option<Outcome>)
    ensures
        dry ==> o == Some(Outcome { ok: true, error: None, message: None }),
        !dry && ink is None ==> o is Some && !o.unwrap().ok && o.unwrap().message is None
            && o.unwrap().error is Some && o.unwrap().error.unwrap()@ == blank_text(),
        !dry && ink is Some ==> o is None,
{
    if dry {
        Some(Outcome { ok: true, error: None, message: None })
    } else if ink.is_none() {
        Some(Outcome { ok: false, error: Some(String::from_str("nothing to print: the raster is blank (the printer rejects blank jobs)")), message: None })
    } else {
        None
    }
}

/// What a print request answers once the job was sent: the printer's verdict
/// and status text, with the status as the error when it failed; or, when the
/// session failed, that failure.
pub fn outcome_after_sending(reply: Result<JobResult, String>) -> (o: Outcome)
    ensures
        match reply {
            Ok(r) => {
                &&& o.ok == r.ok
                &&& o.message == Some(r.status)
                &&& (if r.ok { o.error is None } else { o.error == Some(r.status) })
            },
            Err(e) => !o.ok && o.error == Some(e) && o.message is None,
        },
{
    match reply {
        Ok(r) => {
            let error = if r.ok { None } else { Some(r.status.clone()) };
            Outcome { ok: r.ok, error, message: Some(r.status) }
        },
        Err(e) => Outcome { ok: false, error: Some(e), message: None },
    }
}

} // verus!
