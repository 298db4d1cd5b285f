use vstd::prelude::*;

verus! {

/// Where a job stands in its life: it waits, is being worked on, or has ended
/// in one of two ways.
#[derive(Debug, Clone, Copy, PartialEq, Eq, Structural)]
pub enum JobStatus {
    Enqueued,
    Processing,
    Succeeded,
    Failed,
}

impl JobStatus {
    /// A job that succeeded or failed is at its end.
    pub open spec fn terminal(self) -> bool {
        self == JobStatus::Succeeded || self == JobStatus::Failed
    }

    /// How far along its life a status is: waiting, in work, ended.
    pub open spec fn stage(self) -> int {
        match self {
            JobStatus::Enqueued => 0,
            JobStatus::Processing => 1,
            JobStatus::Succeeded => 2,
            JobStatus::Failed => 2,
        }
    }

    /// The word under which a status is stored and exchanged.
    pub open spec fn name(self) -> Seq<char> {
        match self {
            JobStatus::Enqueued => "enqueued"@,
            JobStatus::Processing => "processing"@,
            JobStatus::Succeeded => "succeeded"@,
            JobStatus::Failed => "failed"@,
        }
    }

    /// The status that a word names, if it names one.
    pub open spec fn named(word: Seq<char>) -> Option<JobStatus> {
        if word == "enqueued"@ {
            Some(JobStatus::Enqueued)
        } else if word == "processing"@ {
            Some(JobStatus::Processing)
        } else if word == "succeeded"@ {
            Some(JobStatus::Succeeded)
        } else if word == "failed"@ {
            Some(JobStatus::Failed)
        } else {
            None
        }
    }

    /// The end state that a word names: `succeeded` or `failed`, nothing else.
    pub open spec fn named_outcome(word: Seq<char>) -> Option<JobStatus> {
        if word == "succeeded"@ {
            Some(JobStatus::Succeeded)
        } else if word == "failed"@ {
            Some(JobStatus::Failed)
        } else {
            None
        }
    }

    pub fn is_terminal(&self) -> (r: bool)
        ensures
            r == self.terminal(),
    {
        match self {
            JobStatus::Succeeded => true,
            JobStatus::Failed => true,
            _ => false,
        }
    }

    pub fn as_str(&self) -> (word: &'static str)
        ensures
            word@ == self.name(),
    {
        match self {
            JobStatus::Enqueued => "enqueued",
            JobStatus::Processing => "processing",
            JobStatus::Succeeded => "succeeded",
            JobStatus::Failed => "failed",
        }
    }

    pub fn parse(word: &str) -> (r: Option<JobStatus>)
        ensures
            r == JobStatus::named(word@),
    {
        let owned = word.to_owned();
        if owned == "enqueued".to_owned() {
            Some(JobStatus::Enqueued)
        } else if owned == "processing".to_owned() {
            Some(JobStatus::Processing)
        } else if owned == "succeeded".to_owned() {
            Some(JobStatus::Succeeded)
        } else if owned == "failed".to_owned() {
            Some(JobStatus::Failed)
        } else {
            None
        }
    }

    /// Reads the outcome that a worker reports.
    pub fn parse_outcome(word: &str) -> (r: Option<JobStatus>)
        ensures
            r == JobStatus::named_outcome(word@),
            r matches Some(s) ==> s.terminal(),
    {
        let owned = word.to_owned();
        if owned == "succeeded".to_owned() {
            Some(JobStatus::Succeeded)
        } else if owned == "failed".to_owned() {
            Some(JobStatus::Failed)
        } else {
            None
        }
    }
}

/// The four words differ, so a status is found again from its word.
pub proof fn lemma_name_roundtrip(s: JobStatus)
    ensures
        JobStatus::named(s.name()) == Some(s),
        JobStatus::named_outcome(s.name()) == (if s.terminal() { Some(s) } else { None }),
{
    reveal_strlit("enqueued");
    reveal_strlit("processing");
    reveal_strlit("succeeded");
    reveal_strlit("failed");
    assert("enqueued"@.len() == 8);
    assert("processing"@.len() == 10);
    assert("succeeded"@.len() == 9);
    assert("failed"@.len() == 6);
}

} // verus!
