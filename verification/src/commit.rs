//! The records that the parsers produce, and their mathematical views.

use vstd::prelude::*;

verus! {

/// One entry of the history.
#[derive(Clone, Debug, PartialEq, Eq)]
pub struct Commit {
    /// The hash that identifies the commit.
    pub hash: String,
    /// Display name of the author.
    pub author: String,
    /// Author date, in seconds since the epoch.
    pub timestamp: u64,
    /// The subject line.
    pub message: String,
    /// The body of the message. Only the detail reader fills it in.
    pub description: Option<String>,
}

/// What a [`Commit`] holds, as plain mathematical values.
pub struct CommitView {
    pub hash: Seq<char>,
    pub author: Seq<char>,
    pub timestamp: u64,
    pub message: Seq<char>,
    pub description: Option<Seq<char>>,
}

impl View for Commit {
    type V = CommitView;

    open spec fn view(&self) -> CommitView {
        CommitView {
            hash: self.hash@,
            author: self.author@,
            timestamp: self.timestamp,
            message: self.message@,
            description: match self.description {
                Some(d) => Some(d@),
                None => None,
            },
        }
    }
}

impl Commit {
    /// Puts the five fields together, unchanged.
    pub fn new(
        hash: String,
        author: String,
        timestamp: u64,
        message: String,
        description: Option<String>,
    ) -> (commit: Self)
        ensures
            commit.hash == hash,
            commit.author == author,
            commit.timestamp == timestamp,
            commit.message == message,
            commit.description == description,
    {
        Self { hash, author, timestamp, message, description }
    }
}

/// The change that a commit makes to one file.
#[derive(Clone, Debug, PartialEq, Eq)]
pub struct FileDiff {
    /// Path of the file, relative to the root of the repository.
    pub file_name: String,
    /// Number of lines added.
    pub additions: u64,
    /// Number of lines removed.
    pub deletions: u64,
}

/// What a [`FileDiff`] holds, as plain mathematical values.
pub struct FileDiffView {
    pub file_name: Seq<char>,
    pub additions: u64,
    pub deletions: u64,
}

impl View for FileDiff {
    type V = FileDiffView;

    open spec fn view(&self) -> FileDiffView {
        FileDiffView {
            file_name: self.file_name@,
            additions: self.additions,
            deletions: self.deletions,
        }
    }
}

impl FileDiff {
    /// Puts the three fields together, unchanged.
    pub fn new(file_name: String, additions: u64, deletions: u64) -> (diff: Self)
        ensures
            diff.file_name == file_name,
            diff.additions == additions,
            diff.deletions == deletions,
    {
        Self { file_name, additions, deletions }
    }
}

/// A commit together with the files it changes, in the order of the
/// statistics table.
#[derive(Clone, Debug, PartialEq, Eq)]
pub struct CommitWithDiff {
    pub commit: Commit,
    pub diff: Vec<FileDiff>,
}

/// What a [`CommitWithDiff`] holds, as plain mathematical values.
pub struct CommitWithDiffView {
    pub commit: CommitView,
    pub diff: Seq<FileDiffView>,
}

impl View for CommitWithDiff {
    type V = CommitWithDiffView;

    open spec fn view(&self) -> CommitWithDiffView {
        CommitWithDiffView {
            commit: self.commit@,
            diff: self.diff@.map_values(|d: FileDiff| d@),
        }
    }
}

impl CommitWithDiff {
    /// Pairs a commit with its per-file statistics, unchanged.
    pub fn new(commit: Commit, diff: Vec<FileDiff>) -> (detail: Self)
        ensures
            detail.commit == commit,
            detail.diff == diff,
    {
        Self { commit, diff }
    }
}

} // verus!
