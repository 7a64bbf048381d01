use poll::{count_choices, ranked_counts, Ballot, Contest, ContestResult, PollError};

const DEFINITION: &str = r#"{"id": 7, "description": "Lunch", "choices": [{"id": 1, "text": "Soup"}, {"id": 2, "text": "Salad"}]}"#;

fn lines(text: &[&str]) -> Vec<String> {
    text.iter().map(|l| l.to_string()).collect()
}

fn sorted(mut v: Vec<(u64, u64)>) -> Vec<(u64, u64)> {
    v.sort();
    v
}

#[test]
fn registry_size_counts_distinct_ids() {
    let doc = r#"{"id": 3, "description": "x", "choices": [{"id": 5, "text": "A"}, {"id": 6, "text": "B"}, {"id": 5, "text": "C"}]}"#;
    let contest = Contest::new(doc).unwrap();
    assert_eq!(contest.get_contest_id(), 3);
    assert_eq!(contest.choice_count(), 2);
    assert_eq!(contest.choice_text(5), Some("C"));
    assert_eq!(contest.choice_text(6), Some("B"));
    assert_eq!(contest.choice_text(7), None);
}

#[test]
fn registry_with_no_choices() {
    let contest = Contest::new(r#"{"id": 0, "description": "none", "choices": []}"#).unwrap();
    assert_eq!(contest.get_contest_id(), 0);
    assert_eq!(contest.choice_count(), 0);
}

#[test]
fn description_keeps_json_rendering() {
    let contest = Contest::new(r#"{"id": 2, "description": 42, "choices": []}"#).unwrap();
    assert_eq!(contest.get_description(), "42");
    let contest = Contest::new(r#"{"id": 2, "choices": []}"#).unwrap();
    assert_eq!(contest.get_description(), "null");
}

#[test]
fn definition_without_id_is_refused() {
    let doc = r#"{"description": "x", "choices": [{"id": 1, "text": "A"}]}"#;
    assert_eq!(Contest::new(doc).unwrap_err(), PollError::Parse);
    let doc = r#"{"id": -1, "description": "x", "choices": []}"#;
    assert_eq!(Contest::new(doc).unwrap_err(), PollError::Parse);
}

#[test]
fn definition_with_bad_choices_is_refused() {
    let doc = r#"{"id": 1, "description": "x", "choices": [{"id": 1}]}"#;
    assert_eq!(Contest::new(doc).unwrap_err(), PollError::Deserialize);
    let doc = r#"{"id": 1, "description": "x", "choices": {"id": 1, "text": "A"}}"#;
    assert_eq!(Contest::new(doc).unwrap_err(), PollError::Deserialize);
    let doc = r#"{"id": 1, "description": "x"}"#;
    assert_eq!(Contest::new(doc).unwrap_err(), PollError::Deserialize);
}

#[test]
fn no_ballots_give_empty_result() {
    let contest = Contest::new(DEFINITION).unwrap();
    let r = ContestResult::new(contest, &lines(&["", "   "])).unwrap();
    assert_eq!(r.contest_id, 7);
    assert_eq!(r.total_votes, 0);
    assert!(r.results.is_empty());
    assert_eq!(r.winner.id, 0);
    assert_eq!(r.winner.text, "");
}

#[test]
fn counts_ignore_ballot_order() {
    let a = sorted(count_choices(&vec![1, 2, 2, 3, 2, 1]));
    let b = sorted(count_choices(&vec![2, 1, 3, 2, 1, 2]));
    assert_eq!(a, vec![(1, 2), (2, 3), (3, 1)]);
    assert_eq!(a, b);
}

#[test]
fn ranking_is_by_count_descending() {
    let r = ranked_counts(&vec![4, 9, 9, 4, 9, 1]);
    assert_eq!(r, vec![(9, 3), (4, 2), (1, 1)]);
    assert!(ranked_counts(&vec![]).is_empty());
}

#[test]
fn winner_is_most_voted() {
    let contest = Contest::new(DEFINITION).unwrap();
    let ballots = lines(&[
        r#"{"contest_id": 7, "choice_id": 2}"#,
        r#"{"contest_id": 7, "choice_id": 1}"#,
        r#"{"contest_id": 7, "choice_id": 2}"#,
    ]);
    let r = ContestResult::new(contest, &ballots).unwrap();
    assert_eq!(r.total_votes, 3);
    assert_eq!(r.winner.id, 2);
    assert_eq!(r.winner.text, "Salad");
    assert_eq!(r.results[0].choice_id, 2);
    assert_eq!(r.results[0].total_count, 2);
    assert_eq!(r.results[1].choice_id, 1);
    assert_eq!(r.results[1].total_count, 1);
}

#[test]
fn unknown_choice_is_counted_without_label() {
    let contest = Contest::new(DEFINITION).unwrap();
    let ballots = lines(&[
        r#"{"contest_id": 7, "choice_id": 99}"#,
        r#"{"contest_id": 7, "choice_id": 99}"#,
        r#"{"contest_id": 7, "choice_id": 1}"#,
    ]);
    let r = ContestResult::new(contest, &ballots).unwrap();
    assert_eq!(r.total_votes, 3);
    assert_eq!(r.results.len(), 2);
    assert_eq!(r.winner.id, 99);
    assert_eq!(r.winner.text, "");
}

#[test]
fn malformed_ballot_aborts() {
    let contest = Contest::new(DEFINITION).unwrap();
    let ballots = lines(&[r#"{"contest_id": 7, "choice_id": 1}"#, "not json"]);
    assert_eq!(ContestResult::new(contest, &ballots).unwrap_err(), PollError::Parse);
    let contest = Contest::new(DEFINITION).unwrap();
    let ballots = lines(&[r#"{"contest_id": 7}"#]);
    assert_eq!(ContestResult::new(contest, &ballots).unwrap_err(), PollError::Parse);
}

#[test]
fn first_fatal_line_decides_the_error() {
    let contest = Contest::new(DEFINITION).unwrap();
    let ballots = lines(&[r#"{"contest_id": 8, "choice_id": 1}"#, "{"]);
    assert_eq!(ContestResult::new(contest, &ballots).unwrap_err(), PollError::InvalidContest);
    let contest = Contest::new(DEFINITION).unwrap();
    let ballots = lines(&["{", r#"{"contest_id": 8, "choice_id": 1}"#]);
    assert_eq!(ContestResult::new(contest, &ballots).unwrap_err(), PollError::Parse);
}

#[test]
fn ballot_line_is_trimmed() {
    assert_eq!(Ballot::from_line("  \t\n"), Ok(None));
    assert_eq!(
        Ballot::from_line("  {\"contest_id\": 3, \"choice_id\": 4}\r\n"),
        Ok(Some(Ballot { contest_id: 3, choice_id: 4 }))
    );
    assert_eq!(Ballot::from_line("\u{a0}\u{a0}"), Ok(None));
}

#[test]
fn largest_ids_are_kept() {
    let doc = format!(
        r#"{{"id": {m}, "description": "d", "choices": [{{"id": {m}, "text": "Max"}}]}}"#,
        m = u64::MAX
    );
    let contest = Contest::new(&doc).unwrap();
    assert_eq!(contest.get_contest_id(), u64::MAX);
    let line = format!(r#"{{"contest_id": {m}, "choice_id": {m}}}"#, m = u64::MAX);
    let r = ContestResult::new(contest, &vec![line]).unwrap();
    assert_eq!(r.winner.id, u64::MAX);
    assert_eq!(r.winner.text, "Max");
}
