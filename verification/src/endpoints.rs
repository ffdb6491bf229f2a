//! The addresses of the two requests.

use vstd::prelude::*;
use vstd::string::*;
use crate::model::Issue;
use crate::text::{decimal, decimal_text};

verus! {

/// The address of the first hundred open issues of a repository.
pub open spec fn issues_url(owner: Seq<char>, repo: Seq<char>) -> Seq<char> {
    "https://api.github.com/repos/"@ + owner + "/"@ + repo + "/issues?state=open&per_page=100"@
}

/// The address of the reactions to the issue `number` of a repository.
pub open spec fn reactions_url(owner: Seq<char>, repo: Seq<char>, number: nat) -> Seq<char> {
    "https://api.github.com/repos/"@ + owner + "/"@ + repo + "/issues/"@ + decimal(number)
        + "/reactions"@
}

/// Writes the address from which the open issues of a repository are listed.
pub fn get_api_url(owner: &str, repo: &str) -> (url: String)
    ensures
        url@ == issues_url(owner@, repo@),
{
    let mut url = String::from_str("https://api.github.com/repos/");
    url.append(owner);
    url.append("/");
    url.append(repo);
    url.append("/issues?state=open&per_page=100");
    url
}

/// Writes the address from which the reactions to an issue are fetched.
pub fn get_reactions_url(issue: &Issue, owner: &str, repo: &str) -> (url: String)
    ensures
        url@ == reactions_url(owner@, repo@, issue.number as nat),
{
    let mut url = String::from_str("https://api.github.com/repos/");
    url.append(owner);
    url.append("/");
    url.append(repo);
    url.append("/issues/");
    let number = decimal_text(issue.number as u64);
    url.append(number.as_str());
    url.append("/reactions");
    url
}

} // verus!
