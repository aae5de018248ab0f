use vstd::prelude::*;

verus! {

/// A single change record.
#[derive(Debug, PartialEq, Eq)]
pub struct Commit {
    /// Identifier of the change.
    pub id: String,
    /// Message of the change.
    pub message: String,
    /// Classification of the change (for example a conventional commit type).
    pub group: Option<String>,
}

impl Commit {
    /// Builds a commit without a classification.
    pub fn new(id: String, message: String) -> (r: Commit)
        ensures
            r.id == id,
            r.message == message,
            r.group is None,
    {
        Commit { id, message, group: None }
    }

    /// Builds a commit that belongs to the given group.
    pub fn with_group(id: String, message: String, group: String) -> (r: Commit)
        ensures
            r.id == id,
            r.message == message,
            r.group == Some(group),
    {
        Commit { id, message, group: Some(group) }
    }
}

impl Clone for Commit {
    fn clone(&self) -> (r: Self)
        ensures
            r == *self,
    {
        let group = match &self.group {
            Some(g) => Some(g.clone()),
            None => None,
        };
        Commit { id: self.id.clone(), message: self.message.clone(), group }
    }
}

/// A release: a version with its commits, possibly linked to the release
/// before it.
#[derive(Debug)]
pub struct Release {
    /// Version name, if the release has one.
    pub version: Option<String>,
    /// Identifier of the commit the release points at.
    pub commit_id: Option<String>,
    /// Seconds since the epoch.
    pub timestamp: i64,
    /// The release before this one, for lookup only.
    pub previous: Option<Box<Release>>,
    /// The commits of the release, in order.
    pub commits: Vec<Commit>,
}

/// One section of grouped output: a group name and its commits, in their
/// original order.
#[derive(Debug, PartialEq, Eq)]
pub struct CommitGroup {
    /// The group name.
    pub group: String,
    /// The commits of that group.
    pub commits: Vec<Commit>,
}

} // verus!
