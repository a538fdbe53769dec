use pr_timeline::BuildError;
use pr_timeline::pull_request::EventDetail;
use pr_timeline::pull_request::RawEventRecord;
use pr_timeline::pull_request::RawPullRequest;
use pr_timeline::pull_request::ReviewStatus;
use pr_timeline::pull_request::build;
use pr_timeline::pull_request::normalize;
use pr_timeline::teams::Team;
use pr_timeline::teams::TeamIndex;

fn team(name: &str, members: &[&str]) -> Team {
    Team { name: name.to_owned(), members: members.iter().map(|m| (*m).to_owned()).collect() }
}

fn strings(items: &[&str]) -> Vec<String> {
    items.iter().map(|s| (*s).to_owned()).collect()
}

fn blank_record(kind: &str) -> RawEventRecord {
    RawEventRecord {
        kind: kind.to_owned(),
        commit_id: None,
        committed_date: None,
        commit_author: None,
        published_at: None,
        author: None,
        state: None,
        comment_count: None,
        created_at: None,
        actor: None,
    }
}

fn commit_record(sha: &str, when: &str, author: Option<&str>) -> RawEventRecord {
    let mut r = blank_record("PullRequestCommit");
    r.commit_id = Some(sha.to_owned());
    r.committed_date = Some(when.to_owned());
    r.commit_author = author.map(|a| a.to_owned());
    r
}

fn review_record(who: &str, when: &str, state: &str, comments: i64) -> RawEventRecord {
    let mut r = blank_record("PullRequestReview");
    r.published_at = Some(when.to_owned());
    r.author = Some(who.to_owned());
    r.state = Some(state.to_owned());
    r.comment_count = Some(comments);
    r
}

fn merged_record(who: &str, when: &str) -> RawEventRecord {
    let mut r = blank_record("MergedEvent");
    r.created_at = Some(when.to_owned());
    r.actor = Some(who.to_owned());
    r
}

fn raw_pr(author: &str, created: &str, timeline: Vec<RawEventRecord>) -> RawPullRequest {
    RawPullRequest {
        number: Some(7),
        title: Some("Add feature".to_owned()),
        additions: Some(30),
        deletions: Some(12),
        created_at: Some(created.to_owned()),
        author: Some(author.to_owned()),
        timeline,
    }
}

fn two_team_index() -> TeamIndex {
    TeamIndex::build(&vec![team("teamA", &["alice"]), team("teamB", &["bob"])])
}

#[test]
fn review_state_strings_parse_to_their_variants() {
    assert!(matches!(ReviewStatus::from_str("PENDING"), Ok(ReviewStatus::Pending)));
    assert!(matches!(ReviewStatus::from_str("COMMENTED"), Ok(ReviewStatus::Commented)));
    assert!(matches!(ReviewStatus::from_str("APPROVED"), Ok(ReviewStatus::Approved)));
    assert!(matches!(
        ReviewStatus::from_str("CHANGES_REQUESTED"),
        Ok(ReviewStatus::ChangesRequested)
    ));
    assert!(matches!(ReviewStatus::from_str("DISMISSED"), Ok(ReviewStatus::Dismissed)));
}

#[test]
fn unknown_review_state_is_fatal() {
    let err = ReviewStatus::from_str("SHRUGGED").expect_err("error expected");
    assert!(matches!(err, BuildError::UnrecognizedReviewState(s) if s == "SHRUGGED"));
}

#[test]
fn commit_with_null_author_yields_absent_actor_and_no_teams() {
    let index = two_team_index();
    let raw = commit_record("abc123", "2020-01-01T10:00:00Z", None);
    let event = normalize(&raw, &index).expect("normalizes");
    assert_eq!(event.actor, None);
    assert_eq!(event.teams, Vec::<String>::new());
    assert!(matches!(event.details, EventDetail::Commit(ref c) if c.sha == "abc123"));
    assert_eq!(event.delay_minutes, 0);
}

#[test]
fn normalizing_the_same_record_twice_yields_identical_events() {
    let index = two_team_index();
    let raw = review_record("bob", "2020-03-04T05:06:07Z", "APPROVED", 2);
    let first = normalize(&raw, &index).expect("normalizes");
    let second = normalize(&raw, &index).expect("normalizes");
    assert_eq!(first, second);
}

#[test]
fn closed_event_normalizes_with_its_actor() {
    let index = two_team_index();
    let mut raw = blank_record("ClosedEvent");
    raw.created_at = Some("2020-06-01T12:00:00Z".to_owned());
    raw.actor = Some("bob".to_owned());
    let event = normalize(&raw, &index).expect("normalizes");
    assert!(matches!(event.details, EventDetail::Closed));
    assert_eq!(event.actor, Some("bob".to_owned()));
    assert_eq!(event.teams, strings(&["teamB"]));
}

#[test]
fn review_with_unknown_state_fails_through_normalize() {
    let index = two_team_index();
    let raw = review_record("bob", "2020-03-04T05:06:07Z", "RUBBER_STAMPED", 0);
    let err = normalize(&raw, &index).expect_err("error expected");
    assert!(matches!(err, BuildError::UnrecognizedReviewState(s) if s == "RUBBER_STAMPED"));
}

#[test]
fn unparseable_creation_timestamp_is_fatal() {
    let index = two_team_index();
    let raw = raw_pr("alice", "01/02/2020", Vec::new());
    let err = build(&raw, &index).expect_err("error expected");
    assert!(matches!(err, BuildError::InvalidTimestamp(t) if t == "01/02/2020"));
}

#[test]
fn unknown_event_kind_is_fatal() {
    let index = two_team_index();
    let raw = blank_record("LabeledEvent");
    let err = normalize(&raw, &index).expect_err("error expected");
    assert!(matches!(err, BuildError::UnrecognizedEventKind(k) if k == "LabeledEvent"));
}

#[test]
fn review_without_published_timestamp_is_missing_field() {
    let index = two_team_index();
    let mut raw = review_record("bob", "2020-03-04T05:06:07Z", "APPROVED", 2);
    raw.published_at = None;
    let err = normalize(&raw, &index).expect_err("error expected");
    assert!(matches!(err, BuildError::MissingField(f) if f == "publishedAt"));
}

#[test]
fn unparseable_timestamp_is_fatal() {
    let index = two_team_index();
    let raw = merged_record("alice", "yesterday around noon");
    let err = normalize(&raw, &index).expect_err("error expected");
    assert!(matches!(err, BuildError::InvalidTimestamp(t) if t == "yesterday around noon"));
}

#[test]
fn review_resolves_author_team_and_carries_state_and_comments() {
    let index = two_team_index();
    let raw = review_record("bob", "2020-03-04T05:06:07Z", "CHANGES_REQUESTED", 5);
    let event = normalize(&raw, &index).expect("normalizes");
    assert_eq!(event.actor, Some("bob".to_owned()));
    assert_eq!(event.teams, strings(&["teamB"]));
    match event.details {
        EventDetail::Review(review) => {
            assert_eq!(review.state, ReviewStatus::ChangesRequested);
            assert_eq!(review.comment_count, 5);
        },
        other => panic!("review payload expected, got {:?}", other),
    }
}

#[test]
fn reviewed_and_merged_pull_request_reconstructs_fully() {
    let index = two_team_index();
    let raw = raw_pr(
        "alice",
        "2020-01-01T00:00:00Z",
        vec![
            review_record("bob", "2020-01-01T02:00:00Z", "APPROVED", 3),
            merged_record("alice", "2020-01-01T05:00:00Z"),
        ],
    );
    let pr = build(&raw, &index).expect("builds");

    assert_eq!(pr.number, 7);
    assert_eq!(pr.title, "Add feature");
    assert_eq!(pr.diff_size, 42);
    assert_eq!(pr.author, "alice");
    assert_eq!(pr.reviewers, strings(&["bob"]));
    assert_eq!(pr.authoring_teams, strings(&["teamA"]));
    assert_eq!(pr.reviewing_teams, strings(&["teamB"]));

    assert_eq!(pr.events.len(), 3);

    assert!(matches!(pr.events[0].details, EventDetail::Open));
    assert_eq!(pr.events[0].actor, Some("alice".to_owned()));
    assert_eq!(pr.events[0].teams, strings(&["teamA"]));
    assert_eq!(pr.events[0].delay_minutes, 0);

    assert!(matches!(pr.events[1].details, EventDetail::Review(_)));
    assert_eq!(pr.events[1].actor, Some("bob".to_owned()));
    assert_eq!(pr.events[1].teams, strings(&["teamB"]));
    assert_eq!(pr.events[1].delay_minutes, 120);
    assert_eq!(format!("{:.3}", pr.events[1].delay_minutes as f64 / 60.0), "2.000");

    assert!(matches!(pr.events[2].details, EventDetail::Merged));
    assert_eq!(pr.events[2].actor, Some("alice".to_owned()));
    assert_eq!(pr.events[2].teams, strings(&["teamA"]));
    assert_eq!(pr.events[2].delay_minutes, 180);
    assert_eq!(format!("{:.3}", pr.events[2].delay_minutes as f64 / 60.0), "3.000");
}

#[test]
fn events_are_sorted_by_timestamp_even_when_delivered_out_of_order() {
    let index = two_team_index();
    let raw = raw_pr(
        "alice",
        "2020-01-01T00:00:00Z",
        vec![
            merged_record("alice", "2020-01-01T03:00:00Z"),
            commit_record("abc", "2020-01-01T00:30:00Z", Some("alice")),
        ],
    );
    let pr = build(&raw, &index).expect("builds");
    assert!(matches!(pr.events[0].details, EventDetail::Open));
    assert!(matches!(pr.events[1].details, EventDetail::Commit(_)));
    assert!(matches!(pr.events[2].details, EventDetail::Merged));
    assert_eq!(pr.events[1].delay_minutes, 30);
    assert_eq!(pr.events[2].delay_minutes, 150);
}

#[test]
fn equal_timestamps_keep_delivery_order() {
    let index = two_team_index();
    let raw = raw_pr(
        "alice",
        "2020-01-01T00:00:00Z",
        vec![
            commit_record("abc", "2020-01-01T01:00:00Z", Some("alice")),
            review_record("bob", "2020-01-01T01:00:00Z", "COMMENTED", 1),
        ],
    );
    let pr = build(&raw, &index).expect("builds");
    assert!(matches!(pr.events[1].details, EventDetail::Commit(_)));
    assert!(matches!(pr.events[2].details, EventDetail::Review(_)));
    assert_eq!(pr.events[1].delay_minutes, 60);
    assert_eq!(pr.events[2].delay_minutes, 0);
}

#[test]
fn timestamp_offsets_count_toward_delays() {
    let index = two_team_index();
    let raw = raw_pr(
        "alice",
        "2020-01-01T00:00:00Z",
        vec![merged_record("alice", "2020-01-01T03:30:00+02:00")],
    );
    let pr = build(&raw, &index).expect("builds");
    assert_eq!(pr.events[1].delay_minutes, 90);
    assert_eq!(format!("{:.3}", pr.events[1].delay_minutes as f64 / 60.0), "1.500");
}

#[test]
fn missing_scalar_field_is_fatal() {
    let index = two_team_index();
    let mut raw = raw_pr("alice", "2020-01-01T00:00:00Z", Vec::new());
    raw.number = None;
    let err = build(&raw, &index).expect_err("error expected");
    assert!(matches!(err, BuildError::MissingField(f) if f == "number"));
}

#[test]
fn missing_author_is_fatal() {
    let index = two_team_index();
    let mut raw = raw_pr("alice", "2020-01-01T00:00:00Z", Vec::new());
    raw.author = None;
    let err = build(&raw, &index).expect_err("error expected");
    assert!(matches!(err, BuildError::MissingField(f) if f == "author.login"));
}

#[test]
fn bad_item_aborts_the_whole_record() {
    let index = two_team_index();
    let raw = raw_pr(
        "alice",
        "2020-01-01T00:00:00Z",
        vec![
            review_record("bob", "2020-01-01T02:00:00Z", "APPROVED", 3),
            blank_record("SubscribedEvent"),
        ],
    );
    let err = build(&raw, &index).expect_err("error expected");
    assert!(matches!(err, BuildError::UnrecognizedEventKind(k) if k == "SubscribedEvent"));
}

#[test]
fn duplicate_reviewers_are_collapsed_and_sorted() {
    let index = TeamIndex::build(&vec![
        team("teamA", &["alice"]),
        team("teamB", &["bob"]),
        team("teamC", &["carol"]),
    ]);
    let raw = raw_pr(
        "alice",
        "2020-01-01T00:00:00Z",
        vec![
            review_record("carol", "2020-01-01T01:00:00Z", "COMMENTED", 1),
            review_record("bob", "2020-01-01T02:00:00Z", "APPROVED", 0),
            review_record("carol", "2020-01-01T03:00:00Z", "APPROVED", 0),
        ],
    );
    let pr = build(&raw, &index).expect("builds");
    assert_eq!(pr.reviewers, strings(&["bob", "carol"]));
    assert_eq!(pr.reviewing_teams, strings(&["teamB", "teamC"]));
}

#[test]
fn review_with_null_author_is_not_a_reviewer() {
    let index = two_team_index();
    let mut anonymous = review_record("bob", "2020-01-01T02:00:00Z", "APPROVED", 0);
    anonymous.author = None;
    let raw = raw_pr("alice", "2020-01-01T00:00:00Z", vec![anonymous]);
    let pr = build(&raw, &index).expect("builds");
    assert_eq!(pr.reviewers, Vec::<String>::new());
    assert_eq!(pr.reviewing_teams, Vec::<String>::new());
    assert_eq!(pr.events[1].actor, None);
}
