use vstd::prelude::*;

verus! {

/// A point of a plotted series: a UNIX timestamp and a count.
#[derive(Clone, Copy, Debug, PartialEq, Eq, Structural)]
pub struct Point {
    pub x: i64,
    pub y: i64,
}

/// Whether an issue was opened or closed.
#[derive(Clone, Copy, Debug, PartialEq, Eq, Structural)]
pub enum StateChangeKind {
    Open,
    Close,
}

/// Why an issue was closed, as GitHub reports it.
#[derive(Clone, Copy, Debug, PartialEq, Eq, Structural)]
pub enum ClosedReason {
    Completed,
    NotPlanned,
    Reopened,
    Duplicate,
}

/// The pull-request part of an issue.
#[derive(Clone, Copy, Debug, PartialEq, Eq, Structural)]
pub struct PullRequest {
    pub draft: bool,
    pub merged: bool,
}

/// Identifies an issue: the repository ("owner/name") and its number there.
#[derive(Clone, Debug)]
pub struct IssueKey {
    pub repo: String,
    pub number: u64,
}

/// An issue or a pull request of a repository. Times are UNIX timestamps in seconds.
#[derive(Clone, Debug)]
pub struct Issue {
    pub repo: String,
    pub author: String,
    pub number: u64,
    pub title: String,
    pub created_at: i64,
    pub closed_at: Option<i64>,
    pub closed_reason: Option<ClosedReason>,
    pub pr: Option<PullRequest>,
}

/// The part of an issue that the statistics read: its number and when it opened and closed.
#[derive(Clone, Copy, Debug, PartialEq, Eq, Structural)]
pub struct IssueTimes {
    pub number: u64,
    pub created_at: i64,
    pub closed_at: Option<i64>,
}

pub open spec fn spec_has_event_timestamp(closed_at: Option<i64>, kind: StateChangeKind) -> bool {
    match kind {
        StateChangeKind::Open => true,
        StateChangeKind::Close => closed_at is Some,
    }
}

pub open spec fn spec_event_timestamp(created_at: i64, closed_at: Option<i64>, kind: StateChangeKind) -> i64 {
    match kind {
        StateChangeKind::Open => created_at,
        StateChangeKind::Close => closed_at->0,
    }
}

impl IssueTimes {
    pub open spec fn has_event(self, kind: StateChangeKind) -> bool {
        spec_has_event_timestamp(self.closed_at, kind)
    }

    pub open spec fn event_time(self, kind: StateChangeKind) -> i64 {
        spec_event_timestamp(self.created_at, self.closed_at, kind)
    }
}

impl Issue {
    /// Whether the issue has a timestamp for the given kind of change: every issue was
    /// opened, only some were closed.
    pub fn has_event_timestamp(&self, kind: StateChangeKind) -> (r: bool)
        ensures
            r == spec_has_event_timestamp(self.closed_at, kind),
    {
        match kind {
            StateChangeKind::Open => true,
            StateChangeKind::Close => self.closed_at.is_some(),
        }
    }

    /// When the issue was opened or closed.
    pub fn event_timestamp(&self, kind: StateChangeKind) -> (r: i64)
        requires
            spec_has_event_timestamp(self.closed_at, kind),
        ensures
            r == spec_event_timestamp(self.created_at, self.closed_at, kind),
    {
        match kind {
            StateChangeKind::Open => self.created_at,
            StateChangeKind::Close => self.closed_at.unwrap(),
        }
    }

    /// The key under which the issue is stored.
    pub fn key(&self) -> (r: IssueKey)
        ensures
            r.repo@ == self.repo@,
            r.number == self.number,
    {
        IssueKey { repo: self.repo.clone(), number: self.number }
    }

    /// A plain issue, not a pull request.
    pub fn is_issue(&self) -> (r: bool)
        ensures
            r == (self.pr is None),
    {
        self.pr.is_none()
    }

    /// A pull request that is not a draft.
    pub fn is_non_draft_pr(&self) -> (r: bool)
        ensures
            r == (self.pr matches Some(p) && !p.draft),
    {
        match &self.pr {
            Some(pr) => !pr.draft,
            None => false,
        }
    }

    /// The times the statistics read.
    pub fn times(&self) -> (r: IssueTimes)
        ensures
            r.number == self.number,
            r.created_at == self.created_at,
            r.closed_at == self.closed_at,
    {
        IssueTimes { number: self.number, created_at: self.created_at, closed_at: self.closed_at }
    }
}

/// The times of the issues that are pull requests (`pull_requests`) or plain issues, in order.
pub open spec fn times_of(issues: Seq<Issue>, pull_requests: bool) -> Seq<IssueTimes>
    decreases issues.len(),
{
    if issues.len() == 0 {
        Seq::empty()
    } else {
        let i = issues.last();
        times_of(issues.drop_last(), pull_requests) + (if (i.pr is Some) == pull_requests {
            seq![IssueTimes { number: i.number, created_at: i.created_at, closed_at: i.closed_at }]
        } else {
            Seq::empty()
        })
    }
}

/// The times of the pull requests, or of the plain issues, in order.
pub fn issue_times_of(issues: &[Issue], pull_requests: bool) -> (times: Vec<IssueTimes>)
    ensures
        times@ == times_of(issues@, pull_requests),
{
    let mut times: Vec<IssueTimes> = Vec::new();
    let mut i: usize = 0;
    while i < issues.len()
        invariant
            i <= issues@.len(),
            times@ == times_of(issues@.take(i as int), pull_requests),
        decreases issues@.len() - i,
    {
        assert(issues@.take(i + 1).drop_last() == issues@.take(i as int));
        if issues[i].is_issue() != pull_requests {
            times.push(issues[i].times());
        }
        i = i + 1;
    }
    assert(issues@.take(issues@.len() as int) == issues@);
    times
}

} // verus!
