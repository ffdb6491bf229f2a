//! The records that the rules work on, and their mathematical models.

use vstd::prelude::*;

verus! {

/// An entry of the tracker's issue list. Pull requests are listed among the
/// issues; `is_pull_request` tells them apart.
#[derive(Debug, Clone, PartialEq, Eq)]
pub struct Issue {
    pub number: usize,
    pub title: String,
    pub is_pull_request: bool,
}

/// One reaction left on an issue. `content` is the reaction's kind, such as
/// `+1`, `-1`, `laugh` or `heart`.
#[derive(Debug, Clone, PartialEq, Eq)]
pub struct Reaction {
    pub content: String,
}

/// The reactions that were fetched for one issue.
#[derive(Debug, Clone, PartialEq, Eq)]
pub struct IssueReactions {
    pub number: usize,
    pub reactions: Vec<Reaction>,
}

/// An issue's place in the tally: its number and its net score.
#[derive(Debug, Clone, Copy, PartialEq, Eq, Structural)]
pub struct ScoreEntry {
    pub issue_number: usize,
    pub score: i32,
}

/// The model of an [`IssueReactions`]: the issue's number and the kinds of
/// its reactions, in the order in which they were fetched.
pub ghost struct Batch {
    pub number: usize,
    pub kinds: Seq<Seq<char>>,
}

impl View for Reaction {
    type V = Seq<char>;

    /// A reaction is modelled by its kind.
    open spec fn view(&self) -> Seq<char> {
        self.content@
    }
}

/// The kinds of a list of reactions.
pub open spec fn kinds_of(reactions: Seq<Reaction>) -> Seq<Seq<char>> {
    Seq::new(reactions.len(), |i: int| reactions[i]@)
}

impl View for IssueReactions {
    type V = Batch;

    open spec fn view(&self) -> Batch {
        Batch { number: self.number, kinds: kinds_of(self.reactions@) }
    }
}

/// The models of a list of fetched reactions, issue by issue.
pub open spec fn batches_of(fetched: Seq<IssueReactions>) -> Seq<Batch> {
    Seq::new(fetched.len(), |i: int| fetched[i]@)
}

} // verus!
