use vstd::prelude::*;
use crate::database::{with_pull_request, IssueDatabase};
use crate::model::{ClosedReason, Issue, IssueKey, PullRequest};

verus! {

/// How many fetched items go by between two progress reports.
pub const PROGRESS_EVERY: usize = 100;

/// A repository's full name, "owner/name".
pub fn repo_full_name(owner: &str, repo: &str) -> (full: String)
    ensures
        full@ == owner@ + seq!['/'] + repo@,
{
    let mut full = String::from_str(owner);
    proof {
        reveal_strlit("/");
    }
    full.append("/");
    full.append(repo);
    full
}

/// Whether progress is reported before the item counted so far: at the first and every
/// hundredth.
pub fn progress_due(pulled: usize) -> (due: bool)
    ensures
        due == (pulled % 100 == 0),
{
    pulled % PROGRESS_EVERY == 0
}

impl IssueDatabase {
    /// Stores a fetched issue of the repository, not (yet) known as a pull request, under
    /// its key, replacing what was stored there.
    pub fn record_issue(
        &mut self,
        repo_full: &str,
        number: u64,
        author: String,
        title: String,
        created_at: i64,
        closed_at: Option<i64>,
        closed_reason: Option<ClosedReason>,
    )
        ensures
            final(self)@ == old(self)@.insert((repo_full@, number), final(self)@[(repo_full@, number)]),
            ({
                let issue = final(self)@[(repo_full@, number)];
                &&& issue.repo@ == repo_full@
                &&& issue.author == author
                &&& issue.number == number
                &&& issue.title == title
                &&& issue.created_at == created_at
                &&& issue.closed_at == closed_at
                &&& issue.closed_reason == closed_reason
                &&& issue.pr is None
            }),
    {
        let key = IssueKey { repo: String::from_str(repo_full), number };
        let issue = Issue {
            repo: String::from_str(repo_full),
            author,
            number,
            title,
            created_at,
            closed_at,
            closed_reason,
            pr: None,
        };
        self.insert(key, issue);
    }

    /// Marks a stored issue of the repository as a pull request, with its draft and merged
    /// flags; a flag GitHub leaves out counts as false.
    pub fn record_pull_request(&mut self, repo_full: &str, number: u64, draft: Option<bool>, merged: Option<bool>)
        requires
            old(self)@.contains_key((repo_full@, number)),
        ensures
            final(self)@ == old(self)@.insert(
                (repo_full@, number),
                with_pull_request(
                    old(self)@[(repo_full@, number)],
                    (PullRequest { draft: draft.unwrap_or(false), merged: merged.unwrap_or(false) }),
                ),
            ),
    {
        let key = IssueKey { repo: String::from_str(repo_full), number };
        let pr = PullRequest { draft: draft.unwrap_or(false), merged: merged.unwrap_or(false) };
        self.attach_pull_request(&key, pr);
    }
}

} // verus!
