//! Which records of the issue list are issues.

use vstd::prelude::*;
use crate::model::Issue;

verus! {

/// What tells an issue from a pull request.
pub open spec fn is_issue() -> spec_fn(Issue) -> bool {
    |record: Issue| !record.is_pull_request
}

/// The records that are issues: those that are not pull requests, in the
/// order in which they were listed.
pub open spec fn issues_among(records: Seq<Issue>) -> Seq<Issue> {
    records.filter(is_issue())
}

/// What one more record adds to the issues among the records before it.
pub proof fn lemma_issues_among_push(records: Seq<Issue>, record: Issue)
    ensures
        issues_among(records.push(record)) == if record.is_pull_request {
            issues_among(records)
        } else {
            issues_among(records).push(record)
        },
{
    reveal(Seq::filter);
    assert(records.push(record).drop_last() =~= records);
}

/// Drops the pull requests from a list of records; what stays keeps its order.
pub fn open_issues(records: Vec<Issue>) -> (issues: Vec<Issue>)
    ensures
        issues@ == issues_among(records@),
        forall|i: int| 0 <= i < issues.len() ==> !(#[trigger] issues[i]).is_pull_request,
        forall|i: int|
            0 <= i < records.len() && !(#[trigger] records[i]).is_pull_request
                ==> issues@.contains(records[i]),
{
    let ghost all = records@;
    let mut issues: Vec<Issue> = Vec::new();
    proof {
        reveal(Seq::filter);
        assert(all.take(0) =~= Seq::<Issue>::empty());
    }
    for record in listed: records
        invariant
            listed.seq() == all,
            issues@ == issues_among(all.take(listed.index() as int)),
    {
        proof {
            let done = listed.index() as int;
            assert(all.take(done + 1) =~= all.take(done).push(record));
            lemma_issues_among_push(all.take(done), record);
        }
        if !record.is_pull_request {
            issues.push(record);
        }
    }
    proof {
        broadcast use vstd::seq_lib::group_filter_ensures;

        assert(all.take(all.len() as int) =~= all);
        assert(forall|i: int|
            0 <= i < issues.len() ==> (is_issue())(#[trigger] all.filter(is_issue())[i]));
        assert(forall|i: int|
            0 <= i < all.len() && (is_issue())(all[i]) ==> #[trigger] all.filter(
                is_issue(),
            ).contains(all[i]));
    }
    issues
}

} // verus!
