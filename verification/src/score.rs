//! What a reaction is worth, and the tally of the scores.

use vstd::prelude::*;
use crate::model::{Batch, IssueReactions, Reaction, ScoreEntry, batches_of, kinds_of};

verus! {

/// The kind of a thumbs-up.
pub open spec fn upvote() -> Seq<char> {
    seq!['+', '1']
}

/// The kind of a thumbs-down.
pub open spec fn downvote() -> Seq<char> {
    seq!['-', '1']
}

/// The weight of one reaction: a thumbs-up counts 1, a thumbs-down -1, and
/// every other kind nothing.
pub open spec fn weight(kind: Seq<char>) -> int {
    if kind == upvote() {
        1
    } else if kind == downvote() {
        -1
    } else {
        0
    }
}

/// The sum of the weights of a list of reaction kinds.
pub open spec fn net_score(kinds: Seq<Seq<char>>) -> int
    decreases kinds.len(),
{
    if kinds.len() == 0 {
        0
    } else {
        net_score(kinds.drop_last()) + weight(kinds.last())
    }
}

/// The weight of a reaction of the given kind.
pub fn reaction_weight(content: &str) -> (w: i32)
    ensures
        w == weight(content@),
        content@ != upvote() && content@ != downvote() ==> w == 0,
{
    if content.unicode_len() != 2 || content.get_char(1) != '1' {
        return 0;
    }
    let sign = content.get_char(0);
    if sign == '+' {
        assert(content@ =~= upvote());
        1
    } else if sign == '-' {
        assert(content@ =~= downvote());
        -1
    } else {
        0
    }
}

/// A net score never exceeds the number of reactions, in either direction.
pub proof fn lemma_net_score_bounds(kinds: Seq<Seq<char>>)
    ensures
        -kinds.len() <= net_score(kinds) <= kinds.len(),
    decreases kinds.len(),
{
    if kinds.len() > 0 {
        lemma_net_score_bounds(kinds.drop_last());
    }
}

/// A reaction that is neither a thumbs-up nor a thumbs-down adds nothing to
/// a net score.
pub proof fn lemma_other_kinds_add_nothing(kinds: Seq<Seq<char>>, kind: Seq<char>)
    requires
        kind != upvote(),
        kind != downvote(),
    ensures
        weight(kind) == 0,
        net_score(kinds.push(kind)) == net_score(kinds),
{
    assert(kinds.push(kind).drop_last() =~= kinds);
}

/// The net score of the reactions fetched for one issue.
pub fn net_reaction_score(reactions: &Vec<Reaction>) -> (net: i128)
    ensures
        net == net_score(kinds_of(reactions@)),
{
    let ghost kinds = kinds_of(reactions@);
    let mut net: i128 = 0;
    let mut i: usize = 0;
    while i < reactions.len()
        invariant
            0 <= i <= reactions.len(),
            kinds == kinds_of(reactions@),
            net == net_score(kinds.take(i as int)),
            -(i as int) <= net <= i as int,
        decreases reactions.len() - i,
    {
        let w = reaction_weight(reactions[i].content.as_str());
        proof {
            assert(kinds.take(i + 1).drop_last() =~= kinds.take(i as int));
            assert(kinds.take(i + 1).last() == reactions@[i as int].content@);
        }
        net = net + w as i128;
        i = i + 1;
    }
    proof {
        assert(kinds.take(i as int) =~= kinds);
    }
    net
}

/// A score that no longer fits the score type, and the issue it belongs to.
#[derive(Debug, Clone, Copy, PartialEq, Eq, Structural)]
pub struct ScoreOverflow {
    pub issue_number: usize,
}

/// No issue number occurs in two entries.
pub open spec fn distinct_numbers(entries: Seq<ScoreEntry>) -> bool {
    forall|i: int, j: int|
        0 <= i < j < entries.len() ==> (#[trigger] entries[i]).issue_number != (
        #[trigger] entries[j]).issue_number
}

/// Some entry belongs to the issue `number`.
pub open spec fn has_entry(entries: Seq<ScoreEntry>, number: usize) -> bool {
    exists|i: int| 0 <= i < entries.len() && (#[trigger] entries[i]).issue_number == number
}

/// The place of the entry of the issue `number`, where there is one.
pub open spec fn entry_index(entries: Seq<ScoreEntry>, number: usize) -> int {
    choose|i: int| 0 <= i < entries.len() && (#[trigger] entries[i]).issue_number == number
}

/// The score that the entries hold for the issue `number`; 0 where they hold none.
pub open spec fn score_of(entries: Seq<ScoreEntry>, number: usize) -> int {
    if has_entry(entries, number) {
        entries[entry_index(entries, number)].score as int
    } else {
        0
    }
}

/// The entries with the score of the issue `number` set to `score`: in place
/// where the issue has an entry, in a new last entry where it has none.
pub open spec fn with_score(entries: Seq<ScoreEntry>, number: usize, score: i32) -> Seq<
    ScoreEntry,
> {
    let entry = ScoreEntry { issue_number: number, score };
    if has_entry(entries, number) {
        entries.update(entry_index(entries, number), entry)
    } else {
        entries.push(entry)
    }
}

/// The entries after the reactions of one issue were counted. An issue
/// without reactions changes nothing, and gets no entry.
pub open spec fn credited(entries: Seq<ScoreEntry>, batch: Batch) -> Result<
    Seq<ScoreEntry>,
    ScoreOverflow,
> {
    let total = score_of(entries, batch.number) + net_score(batch.kinds);
    if batch.kinds.len() == 0 {
        Ok(entries)
    } else if i32::MIN <= total <= i32::MAX {
        Ok(with_score(entries, batch.number, total as i32))
    } else {
        Err(ScoreOverflow { issue_number: batch.number })
    }
}

/// The tally of a run: the batches counted one after the other, from no
/// entries at all. The first score that does not fit ends it.
pub open spec fn tallied(batches: Seq<Batch>) -> Result<Seq<ScoreEntry>, ScoreOverflow>
    decreases batches.len(),
{
    if batches.len() == 0 {
        Ok(Seq::empty())
    } else {
        match tallied(batches.drop_last()) {
            Ok(entries) => credited(entries, batches.last()),
            Err(e) => Err(e),
        }
    }
}

/// Among entries with distinct numbers, an issue's entry is where one finds it.
pub proof fn lemma_entry_index(entries: Seq<ScoreEntry>, number: usize, at: int)
    requires
        distinct_numbers(entries),
        0 <= at < entries.len(),
        entries[at].issue_number == number,
    ensures
        has_entry(entries, number),
        entry_index(entries, number) == at,
{
    let found = entry_index(entries, number);
    assert(0 <= found < entries.len() && entries[found].issue_number == number);
    if found < at {
        assert(entries[found].issue_number != entries[at].issue_number);
    } else if at < found {
        assert(entries[at].issue_number != entries[found].issue_number);
    }
}

/// Setting a score keeps the numbers distinct.
pub proof fn lemma_with_score_distinct(entries: Seq<ScoreEntry>, number: usize, score: i32)
    requires
        distinct_numbers(entries),
    ensures
        distinct_numbers(with_score(entries, number, score)),
{
    let next = with_score(entries, number, score);
    if has_entry(entries, number) {
        let at = entry_index(entries, number);
        assert forall|i: int, j: int| 0 <= i < j < next.len() implies (#[trigger] next[i]).issue_number
            != (#[trigger] next[j]).issue_number by {
            assert(next[i].issue_number == entries[i].issue_number);
            assert(next[j].issue_number == entries[j].issue_number);
        }
    } else {
        assert forall|i: int, j: int| 0 <= i < j < next.len() implies (#[trigger] next[i]).issue_number
            != (#[trigger] next[j]).issue_number by {
            assert(next[i] == entries[i]);
            if j < entries.len() {
                assert(next[j] == entries[j]);
            }
        }
    }
}

/// Counts the reactions of the issue `number` into the entries.
///
/// An empty list changes nothing. Otherwise the issue's score, 0 if it has
/// no entry yet, grows by the net score of the reactions; where the sum does
/// not fit, the entries stay as they were and the error names the issue.
pub fn record(entries: &mut Vec<ScoreEntry>, number: usize, reactions: &Vec<Reaction>) -> (outcome:
    Result<(), ScoreOverflow>)
    requires
        distinct_numbers(old(entries)@),
    ensures
        distinct_numbers(final(entries)@),
        match credited(old(entries)@, (Batch { number, kinds: kinds_of(reactions@) })) {
            Ok(next) => outcome is Ok && final(entries)@ == next,
            Err(e) => outcome == Err::<(), ScoreOverflow>(e) && final(entries)@ == old(entries)@,
        },
{
    let ghost before = entries@;
    if reactions.len() == 0 {
        return Ok(());
    }
    let net = net_reaction_score(reactions);
    proof {
        lemma_net_score_bounds(kinds_of(reactions@));
    }
    let mut at: usize = 0;
    while at < entries.len() && entries[at].issue_number != number
        invariant
            0 <= at <= entries.len(),
            entries@ == before,
            forall|k: int| 0 <= k < at ==> (#[trigger] before[k]).issue_number != number,
        decreases entries.len() - at,
    {
        at = at + 1;
    }
    let current: i128 = if at < entries.len() {
        entries[at].score as i128
    } else {
        0
    };
    proof {
        if at < before.len() {
            lemma_entry_index(before, number, at as int);
        } else {
            assert(!has_entry(before, number));
        }
    }
    let total = current + net;
    if total < i32::MIN as i128 || total > i32::MAX as i128 {
        return Err(ScoreOverflow { issue_number: number });
    }
    let entry = ScoreEntry { issue_number: number, score: total as i32 };
    if at < entries.len() {
        entries.set(at, entry);
    } else {
        entries.push(entry);
    }
    proof {
        lemma_with_score_distinct(before, number, total as i32);
    }
    Ok(())
}

/// Once a score has failed to fit, the batches that follow change nothing.
pub proof fn lemma_overflow_ends_tally(batches: Seq<Batch>, counted: int)
    requires
        0 <= counted <= batches.len(),
        tallied(batches.take(counted)) is Err,
    ensures
        tallied(batches) == tallied(batches.take(counted)),
    decreases batches.len(),
{
    if counted == batches.len() {
        assert(batches.take(counted) =~= batches);
    } else {
        assert(batches.drop_last().take(counted) =~= batches.take(counted));
        lemma_overflow_ends_tally(batches.drop_last(), counted);
    }
}

/// Some batch of the issue `number` holds at least one reaction.
pub open spec fn has_reactions(batches: Seq<Batch>, number: usize) -> bool {
    exists|i: int|
        0 <= i < batches.len() && (#[trigger] batches[i]).number == number && batches[i].kinds.len()
            > 0
}

/// The sum of the weights of all reactions that the batches hold for the
/// issue `number`.
pub open spec fn total_score(batches: Seq<Batch>, number: usize) -> int
    decreases batches.len(),
{
    if batches.len() == 0 {
        0
    } else if batches.last().number == number {
        total_score(batches.drop_last(), number) + net_score(batches.last().kinds)
    } else {
        total_score(batches.drop_last(), number)
    }
}

/// After a score is set, the issue has an entry with that score, and every
/// other issue has what it had.
pub proof fn lemma_with_score_lookup(
    entries: Seq<ScoreEntry>,
    number: usize,
    score: i32,
    other: usize,
)
    requires
        distinct_numbers(entries),
    ensures
        has_entry(with_score(entries, number, score), number),
        score_of(with_score(entries, number, score), number) == score,
        other != number ==> (has_entry(with_score(entries, number, score), other) <==> has_entry(
            entries,
            other,
        )),
        other != number ==> score_of(with_score(entries, number, score), other) == score_of(
            entries,
            other,
        ),
{
    let next = with_score(entries, number, score);
    lemma_with_score_distinct(entries, number, score);
    let at = if has_entry(entries, number) {
        entry_index(entries, number)
    } else {
        entries.len() as int
    };
    assert(next[at].issue_number == number && next[at].score == score);
    lemma_entry_index(next, number, at);
    if other != number {
        if has_entry(entries, other) {
            let o = entry_index(entries, other);
            assert(next[o] == entries[o]);
            lemma_entry_index(next, other, o);
        }
        if has_entry(next, other) {
            let o = entry_index(next, other);
            assert(o != at);
            assert(next[o] == entries[o]);
            lemma_entry_index(entries, other, o);
        }
    }
}

/// What one more batch adds to the issues that have reactions.
pub proof fn lemma_has_reactions_step(batches: Seq<Batch>, number: usize)
    requires
        batches.len() > 0,
    ensures
        has_reactions(batches, number) <==> (has_reactions(batches.drop_last(), number) || (
        batches.last().number == number && batches.last().kinds.len() > 0)),
{
    let front = batches.drop_last();
    if has_reactions(batches, number) {
        let i = choose|i: int|
            0 <= i < batches.len() && (#[trigger] batches[i]).number == number
                && batches[i].kinds.len() > 0;
        if i < front.len() {
            assert(front[i] == batches[i]);
        }
    }
    if has_reactions(front, number) {
        let i = choose|i: int|
            0 <= i < front.len() && (#[trigger] front[i]).number == number && front[i].kinds.len()
                > 0;
        assert(batches[i] == front[i]);
    }
    if batches.last().number == number && batches.last().kinds.len() > 0 {
        assert(batches[batches.len() - 1] == batches.last());
    }
}

/// What a finished tally holds: no issue twice; an entry for an issue if and
/// only if at least one reaction was fetched for it; and as its score the sum
/// of the weights of all its reactions.
pub proof fn lemma_tally_entries(batches: Seq<Batch>, number: usize)
    requires
        tallied(batches) is Ok,
    ensures
        distinct_numbers(tallied(batches)->Ok_0),
        has_entry(tallied(batches)->Ok_0, number) <==> has_reactions(batches, number),
        score_of(tallied(batches)->Ok_0, number) == total_score(batches, number),
    decreases batches.len(),
{
    if batches.len() == 0 {
        assert(!has_entry(Seq::<ScoreEntry>::empty(), number));
    } else {
        let front = batches.drop_last();
        let last = batches.last();
        let before = tallied(front)->Ok_0;
        lemma_tally_entries(front, number);
        lemma_tally_entries(front, last.number);
        lemma_has_reactions_step(batches, number);
        if last.kinds.len() == 0 {
            assert(net_score(last.kinds) == 0);
        } else {
            let total = (score_of(before, last.number) + net_score(last.kinds)) as i32;
            lemma_with_score_distinct(before, last.number, total);
            lemma_with_score_lookup(before, last.number, total, number);
        }
    }
}

/// The number of reactions in all the batches.
pub open spec fn reaction_count(batches: Seq<Batch>) -> nat
    decreases batches.len(),
{
    if batches.len() == 0 {
        0
    } else {
        reaction_count(batches.drop_last()) + batches.last().kinds.len()
    }
}

/// No issue's sum of weights exceeds the number of all reactions, in either
/// direction.
pub proof fn lemma_total_score_bounds(batches: Seq<Batch>, number: usize)
    ensures
        -reaction_count(batches) <= total_score(batches, number) <= reaction_count(batches),
    decreases batches.len(),
{
    if batches.len() > 0 {
        lemma_total_score_bounds(batches.drop_last(), number);
        lemma_net_score_bounds(batches.last().kinds);
    }
}

/// A run whose reactions, all counted, fit the score type is tallied without
/// an error.
pub proof fn lemma_small_runs_fit(batches: Seq<Batch>)
    requires
        reaction_count(batches) <= i32::MAX,
    ensures
        tallied(batches) is Ok,
    decreases batches.len(),
{
    if batches.len() > 0 {
        let front = batches.drop_last();
        let last = batches.last();
        lemma_small_runs_fit(front);
        lemma_tally_entries(front, last.number);
        lemma_total_score_bounds(front, last.number);
        lemma_net_score_bounds(last.kinds);
    }
}

/// Tallies the scores of a run: for each issue with at least one reaction,
/// in the order in which such issues were first met, the sum of the weights
/// of its reactions.
pub fn tally(fetched: &Vec<IssueReactions>) -> (outcome: Result<Vec<ScoreEntry>, ScoreOverflow>)
    ensures
        match tallied(batches_of(fetched@)) {
            Ok(entries) => outcome is Ok && outcome->Ok_0@ == entries,
            Err(e) => outcome == Err::<Vec<ScoreEntry>, ScoreOverflow>(e),
        },
        outcome is Ok ==> distinct_numbers(outcome->Ok_0@),
        outcome is Ok ==> forall|number: usize|
            #[trigger] has_entry(outcome->Ok_0@, number) <==> has_reactions(
                batches_of(fetched@),
                number,
            ),
        outcome is Ok ==> forall|number: usize|
            #[trigger] score_of(outcome->Ok_0@, number) == total_score(
                batches_of(fetched@),
                number,
            ),
        reaction_count(batches_of(fetched@)) <= i32::MAX ==> outcome is Ok,
{
    let ghost batches = batches_of(fetched@);
    proof {
        if reaction_count(batches) <= i32::MAX {
            lemma_small_runs_fit(batches);
        }
    }
    let mut entries: Vec<ScoreEntry> = Vec::new();
    let mut i: usize = 0;
    while i < fetched.len()
        invariant
            0 <= i <= fetched.len(),
            batches == batches_of(fetched@),
            reaction_count(batches) <= i32::MAX ==> tallied(batches) is Ok,
            distinct_numbers(entries@),
            tallied(batches.take(i as int)) == Ok::<Seq<ScoreEntry>, ScoreOverflow>(entries@),
        decreases fetched.len() - i,
    {
        proof {
            assert(batches.take(i + 1).drop_last() =~= batches.take(i as int));
            assert(batches.take(i + 1).last() == fetched@[i as int]@);
        }
        match record(&mut entries, fetched[i].number, &fetched[i].reactions) {
            Ok(()) => {},
            Err(e) => {
                proof {
                    lemma_overflow_ends_tally(batches, i + 1);
                }
                return Err(e);
            },
        }
        i = i + 1;
    }
    proof {
        assert(batches.take(i as int) =~= batches);
        assert forall|number: usize| #[trigger]
            has_entry(entries@, number) <==> has_reactions(batches, number) by {
            lemma_tally_entries(batches, number);
        }
        assert forall|number: usize| #[trigger]
            score_of(entries@, number) == total_score(batches, number) by {
            lemma_tally_entries(batches, number);
        }
    }
    Ok(entries)
}

} // verus!
