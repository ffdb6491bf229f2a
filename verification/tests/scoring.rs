use issue_ranker::lister::open_issues;
use issue_ranker::model::{Issue, IssueReactions, Reaction, ScoreEntry};
use issue_ranker::ranking::{format_line, leaderboard, rank, report};
use issue_ranker::score::{net_reaction_score, reaction_weight, record, tally, ScoreOverflow};

fn reactions(kinds: &[&str]) -> Vec<Reaction> {
    kinds.iter().map(|kind| Reaction { content: kind.to_string() }).collect()
}

fn fetched(number: usize, kinds: &[&str]) -> IssueReactions {
    IssueReactions { number, reactions: reactions(kinds) }
}

fn entry(issue_number: usize, score: i32) -> ScoreEntry {
    ScoreEntry { issue_number, score }
}

fn issue(number: usize, title: &str, is_pull_request: bool) -> Issue {
    Issue { number, title: title.to_string(), is_pull_request }
}

#[test]
fn pull_requests_are_dropped_and_order_is_kept() {
    let records = vec![
        issue(7, "crash on start", false),
        issue(8, "fix crash", true),
        issue(3, "docs typo", false),
        issue(9, "bump deps", true),
        issue(1, "feature wish", false),
    ];
    let issues = open_issues(records);
    assert_eq!(
        issues,
        vec![
            issue(7, "crash on start", false),
            issue(3, "docs typo", false),
            issue(1, "feature wish", false),
        ]
    );
    assert!(issues.iter().all(|kept| !kept.is_pull_request));
}

#[test]
fn no_records_give_no_issues() {
    assert_eq!(open_issues(Vec::new()), Vec::<Issue>::new());
    assert_eq!(open_issues(vec![issue(4, "only a pull request", true)]), Vec::<Issue>::new());
}

#[test]
fn only_thumbs_carry_weight() {
    assert_eq!(reaction_weight("+1"), 1);
    assert_eq!(reaction_weight("-1"), -1);
    for kind in ["laugh", "confused", "heart", "hooray", "rocket", "eyes", "", "+", "1", "+1 ", " +1", "+2", "-2", "++", "1+", "+11", "\u{ff0b}1"] {
        assert_eq!(reaction_weight(kind), 0, "weight of {:?}", kind);
    }
}

#[test]
fn net_score_sums_the_weights() {
    assert_eq!(net_reaction_score(&reactions(&[])), 0);
    assert_eq!(net_reaction_score(&reactions(&["+1", "+1", "-1"])), 1);
    assert_eq!(net_reaction_score(&reactions(&["-1", "heart", "-1", "+1", "-1"])), -2);
    assert_eq!(net_reaction_score(&reactions(&["laugh", "confused"])), 0);
}

#[test]
fn two_issues_are_ranked_by_score() {
    let data = vec![fetched(1, &["+1", "+1", "-1"]), fetched(2, &["+1", "+1"])];
    assert_eq!(tally(&data), Ok(vec![entry(1, 1), entry(2, 2)]));
    let ranking = leaderboard(&data).unwrap();
    assert_eq!(ranking, vec![entry(2, 2), entry(1, 1)]);
    assert_eq!(
        report(&ranking),
        vec![
            "#1 \u{2013} 2 with 2 upvotes!".to_string(),
            "#2 \u{2013} 1 with 1 upvotes!".to_string(),
        ]
    );
}

#[test]
fn weightless_reactions_still_rank_the_issue() {
    let data = vec![fetched(5, &["laugh", "confused"])];
    let ranking = leaderboard(&data).unwrap();
    assert_eq!(ranking, vec![entry(5, 0)]);
    assert_eq!(report(&ranking), vec!["#1 \u{2013} 5 with 0 upvotes!".to_string()]);
}

#[test]
fn reactions_that_cancel_out_still_rank_the_issue() {
    let data = vec![fetched(5, &["+1", "-1"])];
    assert_eq!(leaderboard(&data), Ok(vec![entry(5, 0)]));
}

#[test]
fn issue_without_reactions_is_not_ranked() {
    let data = vec![fetched(5, &[])];
    assert_eq!(tally(&data), Ok(Vec::new()));
    assert_eq!(leaderboard(&data), Ok(Vec::new()));
    assert_eq!(report(&Vec::new()), Vec::<String>::new());
}

#[test]
fn failed_fetch_leaves_the_other_issues_alone() {
    let with_failure = vec![fetched(1, &["+1", "+1"]), fetched(2, &[]), fetched(3, &["-1"])];
    let without = vec![fetched(1, &["+1", "+1"]), fetched(3, &["-1"])];
    let ranking = leaderboard(&with_failure).unwrap();
    assert_eq!(ranking, vec![entry(1, 2), entry(3, -1)]);
    assert_eq!(leaderboard(&without).unwrap(), ranking);
    assert!(ranking.iter().all(|ranked| ranked.issue_number != 2));
}

#[test]
fn ranking_never_rises() {
    let data = vec![
        fetched(10, &["-1", "-1"]),
        fetched(11, &["+1"]),
        fetched(12, &["heart"]),
        fetched(13, &["+1", "+1", "+1"]),
        fetched(14, &["+1", "laugh"]),
        fetched(15, &["-1"]),
    ];
    let ranking = leaderboard(&data).unwrap();
    for pair in ranking.windows(2) {
        assert!(pair[0].score >= pair[1].score);
    }
    assert_eq!(
        ranking,
        vec![entry(13, 3), entry(11, 1), entry(14, 1), entry(12, 0), entry(15, -1), entry(10, -2)]
    );
}

#[test]
fn equal_scores_keep_their_order() {
    let entries = vec![entry(4, 1), entry(9, 3), entry(2, 1), entry(7, 3), entry(1, 1)];
    assert_eq!(
        rank(&entries),
        vec![entry(9, 3), entry(7, 3), entry(4, 1), entry(2, 1), entry(1, 1)]
    );
    assert_eq!(rank(&Vec::new()), Vec::<ScoreEntry>::new());
}

#[test]
fn same_data_gives_the_same_ranking() {
    let data = vec![
        fetched(3, &["+1", "-1", "+1"]),
        fetched(8, &["eyes"]),
        fetched(2, &[]),
        fetched(6, &["+1"]),
    ];
    let copy = data.clone();
    let first = leaderboard(&data);
    let second = leaderboard(&data);
    assert_eq!(first, second);
    assert_eq!(first, leaderboard(&copy));
    assert_eq!(first, Ok(vec![entry(3, 1), entry(6, 1), entry(8, 0)]));
}

#[test]
fn repeated_issue_number_adds_up_in_its_first_place() {
    let data = vec![fetched(1, &["+1"]), fetched(2, &["-1"]), fetched(1, &["+1", "+1"])];
    assert_eq!(tally(&data), Ok(vec![entry(1, 3), entry(2, -1)]));
}

#[test]
fn record_updates_or_appends() {
    let mut entries = vec![entry(1, 4)];
    assert_eq!(record(&mut entries, 1, &reactions(&["-1", "-1"])), Ok(()));
    assert_eq!(entries, vec![entry(1, 2)]);
    assert_eq!(record(&mut entries, 6, &reactions(&["rocket"])), Ok(()));
    assert_eq!(entries, vec![entry(1, 2), entry(6, 0)]);
    assert_eq!(record(&mut entries, 9, &reactions(&[])), Ok(()));
    assert_eq!(entries, vec![entry(1, 2), entry(6, 0)]);
}

#[test]
fn score_beyond_the_range_is_an_error() {
    let mut entries = vec![entry(3, 0), entry(1, i32::MAX)];
    assert_eq!(
        record(&mut entries, 1, &reactions(&["+1"])),
        Err(ScoreOverflow { issue_number: 1 })
    );
    assert_eq!(entries, vec![entry(3, 0), entry(1, i32::MAX)]);
    assert_eq!(record(&mut entries, 1, &reactions(&["+1", "-1"])), Ok(()));
    assert_eq!(entries, vec![entry(3, 0), entry(1, i32::MAX)]);

    let mut low = vec![entry(2, i32::MIN)];
    assert_eq!(
        record(&mut low, 2, &reactions(&["-1"])),
        Err(ScoreOverflow { issue_number: 2 })
    );
    assert_eq!(record(&mut low, 2, &reactions(&["+1"])), Ok(()));
    assert_eq!(low, vec![entry(2, i32::MIN + 1)]);
}

#[test]
fn report_line_wording() {
    assert_eq!(format_line(1, &entry(42, -7)), "#1 \u{2013} 42 with -7 upvotes!");
    assert_eq!(format_line(120, &entry(0, 0)), "#120 \u{2013} 0 with 0 upvotes!");
    assert_eq!(
        format_line(3, &entry(56789, i32::MIN)),
        "#3 \u{2013} 56789 with -2147483648 upvotes!"
    );
}
