//! The order of the ranking, and the lines of the report.

use vstd::prelude::*;
use vstd::string::*;
use crate::model::{Batch, IssueReactions, ScoreEntry, batches_of};
use crate::score::{
    ScoreOverflow, distinct_numbers, entry_index, has_entry, has_reactions, lemma_entry_index,
    lemma_tally_entries, reaction_count, score_of, tallied, tally,
    total_score,
};
use crate::text::{decimal, decimal_text, signed_decimal, signed_decimal_text};

verus! {

/// A ranked list with one more entry: it stands behind every entry whose
/// score is at least its own, and before the others.
pub open spec fn placed(ranking: Seq<ScoreEntry>, entry: ScoreEntry) -> Seq<ScoreEntry>
    decreases ranking.len(),
{
    if ranking.len() == 0 || ranking.last().score >= entry.score {
        ranking.push(entry)
    } else {
        placed(ranking.drop_last(), entry).push(ranking.last())
    }
}

/// The entries by falling score; entries of equal score keep their order.
pub open spec fn ranked(entries: Seq<ScoreEntry>) -> Seq<ScoreEntry>
    decreases entries.len(),
{
    if entries.len() == 0 {
        entries
    } else {
        placed(ranked(entries.drop_last()), entries.last())
    }
}

/// No entry stands before one of a higher score.
pub open spec fn falling(ranking: Seq<ScoreEntry>) -> bool {
    forall|i: int, j: int|
        0 <= i < j < ranking.len() ==> (#[trigger] ranking[i]).score >= (#[trigger] ranking[j]).score
}

/// Where in a ranked list a new entry goes: behind the last entry whose score
/// is at least its own.
pub open spec fn place_of(ranking: Seq<ScoreEntry>, entry: ScoreEntry) -> int
    decreases ranking.len(),
{
    if ranking.len() == 0 || ranking.last().score >= entry.score {
        ranking.len() as int
    } else {
        place_of(ranking.drop_last(), entry)
    }
}

/// Placing an entry is inserting it at its place.
pub proof fn lemma_placed_is_insert(ranking: Seq<ScoreEntry>, entry: ScoreEntry)
    ensures
        0 <= place_of(ranking, entry) <= ranking.len(),
        placed(ranking, entry) == ranking.insert(place_of(ranking, entry), entry),
        forall|k: int|
            place_of(ranking, entry) <= k < ranking.len() ==> (#[trigger] ranking[k]).score
                < entry.score,
        place_of(ranking, entry) > 0 ==> ranking[place_of(ranking, entry) - 1].score
            >= entry.score,
    decreases ranking.len(),
{
    if ranking.len() == 0 || ranking.last().score >= entry.score {
        assert(ranking.push(entry) =~= ranking.insert(ranking.len() as int, entry));
    } else {
        let front = ranking.drop_last();
        lemma_placed_is_insert(front, entry);
        let at = place_of(front, entry);
        assert(front.insert(at, entry).push(ranking.last()) =~= ranking.insert(at, entry));
        assert forall|k: int| at <= k < ranking.len() implies (#[trigger] ranking[k]).score
            < entry.score by {
            if k < front.len() {
                assert(front[k] == ranking[k]);
            }
        }
    }
}

/// An entry placed into a falling list leaves it falling.
pub proof fn lemma_placed_falling(ranking: Seq<ScoreEntry>, entry: ScoreEntry)
    requires
        falling(ranking),
    ensures
        falling(placed(ranking, entry)),
{
    lemma_placed_is_insert(ranking, entry);
    let at = place_of(ranking, entry);
    let next = placed(ranking, entry);
    assert forall|i: int, j: int| 0 <= i < j < next.len() implies (#[trigger] next[i]).score >= (
    #[trigger] next[j]).score by {
        if j < at {
            assert(next[i] == ranking[i] && next[j] == ranking[j]);
        } else if j == at {
            assert(next[i] == ranking[i]);
            assert(ranking[i].score >= ranking[at - 1].score);
        } else if i < at {
            assert(next[i] == ranking[i] && next[j] == ranking[j - 1]);
        } else if i == at {
            assert(next[j] == ranking[j - 1]);
        } else {
            assert(next[i] == ranking[i - 1] && next[j] == ranking[j - 1]);
        }
    }
}

/// A ranking is in falling order: of two of its entries, the earlier one
/// never has the lower score.
pub proof fn lemma_ranked_falling(entries: Seq<ScoreEntry>)
    ensures
        falling(ranked(entries)),
    decreases entries.len(),
{
    if entries.len() > 0 {
        lemma_ranked_falling(entries.drop_last());
        lemma_placed_falling(ranked(entries.drop_last()), entries.last());
    }
}

/// A ranking holds the entries it was made from, each as often as it was there.
pub proof fn lemma_ranked_same_entries(entries: Seq<ScoreEntry>)
    ensures
        ranked(entries).to_multiset() == entries.to_multiset(),
        ranked(entries).len() == entries.len(),
    decreases entries.len(),
{
    broadcast use vstd::seq_lib::group_to_multiset_ensures;

    if entries.len() > 0 {
        let front = entries.drop_last();
        lemma_ranked_same_entries(front);
        lemma_placed_is_insert(ranked(front), entries.last());
        assert(front.push(entries.last()) =~= entries);
        assert(ranked(entries).to_multiset() =~= entries.to_multiset());
    }
}

/// The place of a new entry is the one place with no lower score before it
/// and only lower scores from it on.
pub proof fn lemma_place_found(ranking: Seq<ScoreEntry>, entry: ScoreEntry, at: int)
    requires
        0 <= at <= ranking.len(),
        forall|k: int| at <= k < ranking.len() ==> (#[trigger] ranking[k]).score < entry.score,
        at > 0 ==> ranking[at - 1].score >= entry.score,
    ensures
        place_of(ranking, entry) == at,
    decreases ranking.len(),
{
    if ranking.len() == 0 {
    } else if ranking.last().score >= entry.score {
        if at < ranking.len() {
            assert(ranking[ranking.len() - 1].score < entry.score);
        }
    } else {
        let front = ranking.drop_last();
        assert forall|k: int| at <= k < front.len() implies (#[trigger] front[k]).score
            < entry.score by {
            assert(front[k] == ranking[k]);
        }
        lemma_place_found(front, entry, at);
    }
}

/// Orders the entries by falling score. Entries of equal score stay in the
/// order in which they came.
pub fn rank(entries: &Vec<ScoreEntry>) -> (ranking: Vec<ScoreEntry>)
    ensures
        ranking@ == ranked(entries@),
        falling(ranking@),
        ranking@.to_multiset() == entries@.to_multiset(),
{
    let mut ranking: Vec<ScoreEntry> = Vec::new();
    let mut i: usize = 0;
    while i < entries.len()
        invariant
            0 <= i <= entries.len(),
            ranking@ == ranked(entries@.take(i as int)),
        decreases entries.len() - i,
    {
        let entry = entries[i];
        let mut at: usize = ranking.len();
        while at > 0 && ranking[at - 1].score < entry.score
            invariant
                0 <= at <= ranking.len(),
                forall|k: int| at <= k < ranking.len() ==> (#[trigger] ranking[k]).score < entry.score,
            decreases at,
        {
            at = at - 1;
        }
        proof {
            lemma_place_found(ranking@, entry, at as int);
            lemma_placed_is_insert(ranking@, entry);
            assert(entries@.take(i + 1).drop_last() =~= entries@.take(i as int));
        }
        ranking.insert(at, entry);
        i = i + 1;
    }
    proof {
        assert(entries@.take(i as int) =~= entries@);
        lemma_ranked_falling(entries@);
        lemma_ranked_same_entries(entries@);
    }
    ranking
}

/// A ranking has an entry for exactly the issues that the entries it was
/// made from had one for.
pub proof fn lemma_ranked_has_entry(entries: Seq<ScoreEntry>, number: usize)
    ensures
        has_entry(ranked(entries), number) <==> has_entry(entries, number),
{
    broadcast use vstd::seq_lib::group_to_multiset_ensures;

    lemma_ranked_same_entries(entries);
    let ranking = ranked(entries);
    if has_entry(ranking, number) {
        let i = choose|i: int| 0 <= i < ranking.len() && (#[trigger] ranking[i]).issue_number == number;
        assert(ranking.contains(ranking[i]));
        assert(entries.to_multiset().count(ranking[i]) > 0);
        assert(entries.contains(ranking[i]));
        let j = choose|j: int| 0 <= j < entries.len() && entries[j] == ranking[i];
        assert(entries[j].issue_number == number);
    }
    if has_entry(entries, number) {
        let i = choose|i: int| 0 <= i < entries.len() && (#[trigger] entries[i]).issue_number == number;
        assert(entries.contains(entries[i]));
        assert(ranking.to_multiset().count(entries[i]) > 0);
        assert(ranking.contains(entries[i]));
        let j = choose|j: int| 0 <= j < ranking.len() && ranking[j] == entries[i];
        assert(ranking[j].issue_number == number);
    }
}

/// Ranking entries with distinct numbers leaves the numbers distinct.
pub proof fn lemma_ranked_distinct(entries: Seq<ScoreEntry>)
    requires
        distinct_numbers(entries),
    ensures
        distinct_numbers(ranked(entries)),
    decreases entries.len(),
{
    if entries.len() > 0 {
        let front = entries.drop_last();
        let last = entries.last();
        assert forall|i: int, j: int| 0 <= i < j < front.len() implies (#[trigger] front[i]).issue_number
            != (#[trigger] front[j]).issue_number by {
            assert(front[i] == entries[i] && front[j] == entries[j]);
        }
        lemma_ranked_distinct(front);
        lemma_ranked_has_entry(front, last.issue_number);
        if has_entry(front, last.issue_number) {
            let i = entry_index(front, last.issue_number);
            assert(entries[i] == front[i]);
            assert(entries[i].issue_number != entries[entries.len() - 1].issue_number);
        }
        let before = ranked(front);
        lemma_placed_is_insert(before, last);
        let at = place_of(before, last);
        let next = ranked(entries);
        assert forall|i: int, j: int| 0 <= i < j < next.len() implies (#[trigger] next[i]).issue_number
            != (#[trigger] next[j]).issue_number by {
            let a = if i < at { i } else { i - 1 };
            let b = if j < at { j } else { j - 1 };
            if i == at {
                assert(next[j] == before[b]);
            } else if j == at {
                assert(next[i] == before[a]);
            } else {
                assert(next[i] == before[a] && next[j] == before[b]);
            }
        }
    }
}

/// Ranking changes no issue's score.
pub proof fn lemma_ranked_score(entries: Seq<ScoreEntry>, number: usize)
    requires
        distinct_numbers(entries),
    ensures
        score_of(ranked(entries), number) == score_of(entries, number),
{
    broadcast use vstd::seq_lib::group_to_multiset_ensures;

    lemma_ranked_same_entries(entries);
    lemma_ranked_distinct(entries);
    lemma_ranked_has_entry(entries, number);
    let ranking = ranked(entries);
    if has_entry(entries, number) {
        let i = entry_index(entries, number);
        assert(entries.contains(entries[i]));
        assert(ranking.to_multiset().count(entries[i]) > 0);
        assert(ranking.contains(entries[i]));
        let j = choose|j: int| 0 <= j < ranking.len() && ranking[j] == entries[i];
        lemma_entry_index(ranking, number, j);
    }
}

/// Of two entries with the same score, the one that came first is ranked first.
pub proof fn lemma_ranked_keeps_ties(entries: Seq<ScoreEntry>, i: int, j: int)
    requires
        distinct_numbers(entries),
        0 <= i < j < entries.len(),
        entries[i].score == entries[j].score,
    ensures
        has_entry(ranked(entries), entries[i].issue_number),
        has_entry(ranked(entries), entries[j].issue_number),
        entry_index(ranked(entries), entries[i].issue_number) < entry_index(
            ranked(entries),
            entries[j].issue_number,
        ),
    decreases entries.len(),
{
    let front = entries.drop_last();
    let last = entries.last();
    let before = ranked(front);
    let next = ranked(entries);
    assert forall|a: int, b: int| 0 <= a < b < front.len() implies (#[trigger] front[a]).issue_number
        != (#[trigger] front[b]).issue_number by {
        assert(front[a] == entries[a] && front[b] == entries[b]);
    }
    lemma_ranked_distinct(front);
    lemma_ranked_distinct(entries);
    lemma_placed_is_insert(before, last);
    let at = place_of(before, last);
    assert(front[i] == entries[i]);
    lemma_entry_index(front, entries[i].issue_number, i);
    lemma_ranked_has_entry(front, entries[i].issue_number);
    lemma_ranked_score(front, entries[i].issue_number);
    let p = entry_index(before, entries[i].issue_number);
    assert(before[p].score == entries[i].score);
    if j < front.len() {
        assert(front[j] == entries[j]);
        lemma_ranked_keeps_ties(front, i, j);
        let q = entry_index(before, entries[j].issue_number);
        let p_next = if p < at { p } else { p + 1 };
        let q_next = if q < at { q } else { q + 1 };
        assert(next[p_next] == before[p] && next[q_next] == before[q]);
        lemma_entry_index(next, entries[i].issue_number, p_next);
        lemma_entry_index(next, entries[j].issue_number, q_next);
    } else {
        assert(p < at);
        assert(next[p] == before[p] && next[at] == last);
        lemma_entry_index(next, entries[i].issue_number, p);
        lemma_entry_index(next, entries[j].issue_number, at);
    }
}

/// The ranking of a run: the tally, by falling score.
pub open spec fn leaderboard_of(batches: Seq<Batch>) -> Result<Seq<ScoreEntry>, ScoreOverflow> {
    match tallied(batches) {
        Ok(entries) => Ok(ranked(entries)),
        Err(e) => Err(e),
    }
}

/// Ranks the issues of a run by the net score of the reactions that were
/// fetched for them. Issues without any reaction are left out.
pub fn leaderboard(fetched: &Vec<IssueReactions>) -> (outcome: Result<
    Vec<ScoreEntry>,
    ScoreOverflow,
>)
    ensures
        match leaderboard_of(batches_of(fetched@)) {
            Ok(ranking) => outcome is Ok && outcome->Ok_0@ == ranking,
            Err(e) => outcome == Err::<Vec<ScoreEntry>, ScoreOverflow>(e),
        },
        outcome is Ok ==> falling(outcome->Ok_0@),
        outcome is Ok ==> distinct_numbers(outcome->Ok_0@),
        outcome is Ok ==> forall|number: usize|
            #[trigger] has_entry(outcome->Ok_0@, number) <==> has_reactions(
                batches_of(fetched@),
                number,
            ),
        outcome is Ok ==> forall|number: usize|
            #[trigger] score_of(outcome->Ok_0@, number) == total_score(
                batches_of(fetched@),
                number,
            ),
        reaction_count(batches_of(fetched@)) <= i32::MAX ==> outcome is Ok,
{
    match tally(fetched) {
        Ok(entries) => {
            let ranking = rank(&entries);
            proof {
                let batches = batches_of(fetched@);
                assert forall|number: usize| #[trigger]
                    has_entry(ranking@, number) <==> has_reactions(batches, number) by {
                    lemma_ranked_issues(batches, number);
                }
                assert forall|number: usize| #[trigger]
                    score_of(ranking@, number) == total_score(batches, number) by {
                    lemma_ranked_scores(batches, number);
                }
                lemma_ranked_distinct(entries@);
            }
            Ok(ranking)
        },
        Err(e) => Err(e),
    }
}

/// An issue is ranked if and only if at least one reaction was fetched for
/// it. So an issue whose every fetch came back empty is absent from the
/// ranking, and every ranked number is that of an issue that was handed in.
pub proof fn lemma_ranked_issues(batches: Seq<Batch>, number: usize)
    requires
        leaderboard_of(batches) is Ok,
    ensures
        has_entry(leaderboard_of(batches)->Ok_0, number) <==> has_reactions(batches, number),
{
    lemma_tally_entries(batches, number);
    lemma_ranked_has_entry(tallied(batches)->Ok_0, number);
}

/// In the ranking of a run no issue stands twice, and each ranked issue has
/// as its score the sum of the weights of all reactions fetched for it.
pub proof fn lemma_ranked_scores(batches: Seq<Batch>, number: usize)
    requires
        leaderboard_of(batches) is Ok,
    ensures
        distinct_numbers(leaderboard_of(batches)->Ok_0),
        score_of(leaderboard_of(batches)->Ok_0, number) == total_score(batches, number),
{
    lemma_tally_entries(batches, number);
    lemma_ranked_distinct(tallied(batches)->Ok_0);
    lemma_ranked_score(tallied(batches)->Ok_0, number);
}

/// The ranking of a run is in falling order of score.
pub proof fn lemma_leaderboard_falling(batches: Seq<Batch>)
    requires
        leaderboard_of(batches) is Ok,
    ensures
        falling(leaderboard_of(batches)->Ok_0),
{
    lemma_ranked_falling(tallied(batches)->Ok_0);
}

/// An issue for which no reaction at all was fetched is absent from the ranking.
pub proof fn lemma_unreacted_issue_unranked(batches: Seq<Batch>, number: usize)
    requires
        leaderboard_of(batches) is Ok,
        forall|i: int|
            0 <= i < batches.len() && (#[trigger] batches[i]).number == number
                ==> batches[i].kinds.len() == 0,
    ensures
        !has_entry(leaderboard_of(batches)->Ok_0, number),
{
    lemma_ranked_issues(batches, number);
}

/// Two runs over the same fetched data rank alike: the ranking depends on
/// nothing but the issue numbers and the kinds of their reactions.
pub proof fn lemma_same_data_same_ranking(first: Seq<IssueReactions>, second: Seq<IssueReactions>)
    requires
        first.len() == second.len(),
        forall|i: int| 0 <= i < first.len() ==> (#[trigger] first[i])@ == (#[trigger] second[i])@,
    ensures
        leaderboard_of(batches_of(first)) == leaderboard_of(batches_of(second)),
{
    assert(batches_of(first) =~= batches_of(second)) by {
        assert forall|i: int| 0 <= i < first.len() implies batches_of(first)[i] == batches_of(
            second,
        )[i] by {
            assert(first[i]@ == second[i]@);
        }
    }
}

/// The line of the report for the entry at `position`, counted from 1.
pub open spec fn report_line(position: nat, entry: ScoreEntry) -> Seq<char> {
    "#"@ + decimal(position) + " \u{2013} "@ + decimal(entry.issue_number as nat) + " with "@
        + signed_decimal(entry.score as int) + " upvotes!"@
}

/// Writes the line of the report for the entry at `position`, counted from 1.
pub fn format_line(position: usize, entry: &ScoreEntry) -> (line: String)
    ensures
        line@ == report_line(position as nat, *entry),
{
    let mut line = String::from_str("#");
    let place = decimal_text(position as u64);
    line.append(place.as_str());
    line.append(" \u{2013} ");
    let number = decimal_text(entry.issue_number as u64);
    line.append(number.as_str());
    line.append(" with ");
    let score = signed_decimal_text(entry.score as i64);
    line.append(score.as_str());
    line.append(" upvotes!");
    line
}

/// Writes the report: one line for each entry of the ranking, in its order,
/// with positions counted from 1.
pub fn report(ranking: &Vec<ScoreEntry>) -> (lines: Vec<String>)
    ensures
        lines.len() == ranking.len(),
        forall|i: int|
            0 <= i < ranking.len() ==> (#[trigger] lines[i])@ == report_line(
                (i + 1) as nat,
                ranking[i],
            ),
{
    let mut lines: Vec<String> = Vec::new();
    let mut i: usize = 0;
    while i < ranking.len()
        invariant
            0 <= i <= ranking.len(),
            lines.len() == i,
            forall|k: int|
                0 <= k < i ==> (#[trigger] lines[k])@ == report_line((k + 1) as nat, ranking[k]),
        decreases ranking.len() - i,
    {
        let line = format_line(i + 1, &ranking[i]);
        lines.push(line);
        i = i + 1;
    }
    lines
}

} // verus!
