//! The ancestry document: commits, branches and merges as they were loaded.

use vstd::prelude::*;

verus! {

/// First and last day covered by the document, as written in it.
#[derive(Debug, Clone)]
pub struct DateRange {
    pub start: String,
    pub end: String,
}

#[derive(Debug, Clone)]
pub struct Metadata {
    pub repo: String,
    pub date_range: DateRange,
}

/// A declared branch. At most one branch is meant to be the default one;
/// only a non-default branch may name a parent.
#[derive(Debug, Clone)]
pub struct Branch {
    pub name: String,
    pub is_default: bool,
    pub parent_branch: Option<String>,
}

/// One commit. The position of a commit in `CollectedData::commits` is its
/// place in time: nothing in this crate sorts commits again.
#[derive(Debug, Clone)]
pub struct Commit {
    pub sha: String,
    /// Seconds since 1970-01-01T00:00:00Z.
    pub timestamp: i64,
    pub branch: String,
    pub tags: Vec<String>,
    pub insertions: u32,
    pub deletions: u32,
    pub files_changed: u32,
    pub category: String,
    pub parents: Vec<String>,
}

/// A merge of `from_branch` into `to_branch`, made by the commit `sha`.
#[derive(Debug, Clone)]
pub struct Merge {
    pub sha: String,
    pub from_branch: String,
    pub to_branch: String,
    /// Seconds since 1970-01-01T00:00:00Z.
    pub timestamp: i64,
}

#[derive(Debug, Clone)]
pub struct CollectedData {
    pub metadata: Metadata,
    pub branches: Vec<Branch>,
    pub commits: Vec<Commit>,
    pub merges: Vec<Merge>,
}

/// The category of a commit that states none.
pub fn default_category() -> (category: String)
    ensures
        category@ == "other"@,
{
    "other".to_owned()
}

impl Commit {
    /// Lines touched by the commit: inserted plus deleted.
    pub open spec fn spec_lines(&self) -> nat {
        (self.insertions + self.deletions) as nat
    }

    pub fn lines(&self) -> (lines: u64)
        ensures
            lines == self.spec_lines(),
    {
        let inserted: u64 = self.insertions as u64;
        let deleted: u64 = self.deletions as u64;
        inserted + deleted
    }
}

/// How many of the first `upto` commits are on the branch `name`.
pub open spec fn commits_on(commits: Seq<Commit>, name: Seq<char>, upto: nat) -> nat
    decreases upto,
{
    if upto == 0 {
        0
    } else {
        commits_on(commits, name, (upto - 1) as nat) + if commits[upto - 1].branch@ == name {
            1nat
        } else {
            0nat
        }
    }
}

/// The lines that the first `upto` commits touch on the branch `name`.
pub open spec fn lines_on(commits: Seq<Commit>, name: Seq<char>, upto: nat) -> nat
    decreases upto,
{
    if upto == 0 {
        0
    } else {
        lines_on(commits, name, (upto - 1) as nat) + if commits[upto - 1].branch@ == name {
            commits[upto - 1].spec_lines()
        } else {
            0nat
        }
    }
}

/// The files that the first `upto` commits change on the branch `name`,
/// each commit counted for itself.
pub open spec fn files_on(commits: Seq<Commit>, name: Seq<char>, upto: nat) -> nat
    decreases upto,
{
    if upto == 0 {
        0
    } else {
        files_on(commits, name, (upto - 1) as nat) + if commits[upto - 1].branch@ == name {
            commits[upto - 1].files_changed as nat
        } else {
            0nat
        }
    }
}

/// What a branch has gathered never shrinks as more commits are revealed.
pub proof fn lemma_totals_grow(commits: Seq<Commit>, name: Seq<char>, fewer: nat, more: nat)
    requires
        fewer <= more,
    ensures
        commits_on(commits, name, fewer) <= commits_on(commits, name, more),
        lines_on(commits, name, fewer) <= lines_on(commits, name, more),
        files_on(commits, name, fewer) <= files_on(commits, name, more),
    decreases more,
{
    if fewer < more {
        lemma_totals_grow(commits, name, fewer, (more - 1) as nat);
    }
}

} // verus!
