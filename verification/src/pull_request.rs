//! Normalization of raw pull-request timeline records into typed events, and
//! assembly of a pull request's chronological event sequence with derived
//! inter-event delays.
use vstd::prelude::*;

use crate::BuildError;
use crate::cursor::opt_str_view;
use crate::order::seq_views;
use crate::order::strictly_sorted;
use crate::order::insert_sorted;
use crate::order::lemma_strictly_sorted_unique;
use crate::teams::TeamIndex;
use crate::teams::users_teams;
use crate::time::parse_rfc3339_secs;
use crate::time::rfc3339_secs;

verus! {

/// Outcome of a review, as the data source reports it.
#[derive(Debug, Clone, Copy, PartialEq, Eq, Structural)]
pub enum ReviewStatus {
    Pending,
    Commented,
    Approved,
    ChangesRequested,
    Dismissed,
}

/// Payload of a commit event.
#[derive(Debug, PartialEq)]
pub struct PullRequestCommit {
    pub sha: String,
}

/// Payload of a review event.
#[derive(Debug, PartialEq)]
pub struct PullRequestReview {
    pub state: ReviewStatus,
    pub comment_count: i64,
}

/// The kind-specific payload of a normalized event. The `Open` variant is
/// synthesized for the pull request's creation; the others mirror the raw
/// record kinds.
#[derive(Debug, PartialEq)]
pub enum EventDetail {
    Open,
    Commit(PullRequestCommit),
    Review(PullRequestReview),
    Merged,
    Closed,
}

/// One raw timeline record as the data source delivers it: a kind tag and
/// the union of the kind-specific fields, each optional because a response
/// may omit any of them.
#[derive(Debug, PartialEq)]
pub struct RawEventRecord {
    pub kind: String,
    pub commit_id: Option<String>,
    pub committed_date: Option<String>,
    pub commit_author: Option<String>,
    pub published_at: Option<String>,
    pub author: Option<String>,
    pub state: Option<String>,
    pub comment_count: Option<i64>,
    pub created_at: Option<String>,
    pub actor: Option<String>,
}

/// One normalized event: resolved actor, its teams, the event's timestamp
/// (verbatim and as parsed epoch seconds), the delay in whole minutes since
/// the preceding event of the same pull request, and the typed payload.
#[derive(Debug, PartialEq)]
pub struct PullRequestEvent {
    pub actor: Option<String>,
    pub teams: Vec<String>,
    pub timestamp: String,
    pub time_secs: i64,
    pub delay_minutes: i64,
    pub details: EventDetail,
}

/// The view of a `BuildError`, with text payloads as character sequences.
pub enum BuildErrorModel {
    FetchFailed,
    UnrecognizedEventKind(Seq<char>),
    UnrecognizedReviewState(Seq<char>),
    MissingField(Seq<char>),
    InvalidTimestamp(Seq<char>),
}

impl View for BuildError {
    type V = BuildErrorModel;

    open spec fn view(&self) -> BuildErrorModel {
        match self {
            BuildError::FetchFailed => BuildErrorModel::FetchFailed,
            BuildError::UnrecognizedEventKind(s) => BuildErrorModel::UnrecognizedEventKind(s@),
            BuildError::UnrecognizedReviewState(s) => BuildErrorModel::UnrecognizedReviewState(
                s@,
            ),
            BuildError::MissingField(s) => BuildErrorModel::MissingField(s@),
            BuildError::InvalidTimestamp(s) => BuildErrorModel::InvalidTimestamp(s@),
        }
    }
}

/// The review state a state string denotes, or `None` for one outside the
/// schema.
pub open spec fn spec_review_state(s: Seq<char>) -> Option<ReviewStatus> {
    if s == "PENDING"@ {
        Some(ReviewStatus::Pending)
    } else if s == "COMMENTED"@ {
        Some(ReviewStatus::Commented)
    } else if s == "APPROVED"@ {
        Some(ReviewStatus::Approved)
    } else if s == "CHANGES_REQUESTED"@ {
        Some(ReviewStatus::ChangesRequested)
    } else if s == "DISMISSED"@ {
        Some(ReviewStatus::Dismissed)
    } else {
        None
    }
}

impl ReviewStatus {
    /// Parses a review state string; an unrecognized state is a fatal error,
    /// never silently defaulted.
    pub fn from_str(state: &str) -> (r: Result<ReviewStatus, BuildError>)
        ensures
            match r {
                Ok(st) => spec_review_state(state@) == Some(st),
                Err(e) => spec_review_state(state@) is None && e@
                    == BuildErrorModel::UnrecognizedReviewState(state@),
            },
    {
        if crate::order::str_eq(state, "PENDING") {
            Ok(ReviewStatus::Pending)
        } else if crate::order::str_eq(state, "COMMENTED") {
            Ok(ReviewStatus::Commented)
        } else if crate::order::str_eq(state, "APPROVED") {
            Ok(ReviewStatus::Approved)
        } else if crate::order::str_eq(state, "CHANGES_REQUESTED") {
            Ok(ReviewStatus::ChangesRequested)
        } else if crate::order::str_eq(state, "DISMISSED") {
            Ok(ReviewStatus::Dismissed)
        } else {
            Err(BuildError::UnrecognizedReviewState(state.to_owned()))
        }
    }
}

/// The four kind tags the schema knows.
pub open spec fn is_commit_kind(k: Seq<char>) -> bool {
    k == "PullRequestCommit"@
}

pub open spec fn is_review_kind(k: Seq<char>) -> bool {
    k == "PullRequestReview"@
}

pub open spec fn is_merged_kind(k: Seq<char>) -> bool {
    k == "MergedEvent"@
}

pub open spec fn is_closed_kind(k: Seq<char>) -> bool {
    k == "ClosedEvent"@
}

/// Why normalizing `raw` fails, or `None` where it succeeds. Fields are
/// checked in a fixed order, so the failing check is determined.
pub open spec fn spec_event_err(raw: RawEventRecord) -> Option<BuildErrorModel> {
    if is_commit_kind(raw.kind@) {
        if raw.committed_date is None {
            Some(BuildErrorModel::MissingField("committedDate"@))
        } else if raw.commit_id is None {
            Some(BuildErrorModel::MissingField("oid"@))
        } else if rfc3339_secs(raw.committed_date.unwrap()@) is None {
            Some(BuildErrorModel::InvalidTimestamp(raw.committed_date.unwrap()@))
        } else {
            None
        }
    } else if is_review_kind(raw.kind@) {
        if raw.published_at is None {
            Some(BuildErrorModel::MissingField("publishedAt"@))
        } else if raw.state is None {
            Some(BuildErrorModel::MissingField("state"@))
        } else if raw.comment_count is None {
            Some(BuildErrorModel::MissingField("comments.totalCount"@))
        } else if spec_review_state(raw.state.unwrap()@) is None {
            Some(BuildErrorModel::UnrecognizedReviewState(raw.state.unwrap()@))
        } else if rfc3339_secs(raw.published_at.unwrap()@) is None {
            Some(BuildErrorModel::InvalidTimestamp(raw.published_at.unwrap()@))
        } else {
            None
        }
    } else if is_merged_kind(raw.kind@) || is_closed_kind(raw.kind@) {
        if raw.created_at is None {
            Some(BuildErrorModel::MissingField("createdAt"@))
        } else if rfc3339_secs(raw.created_at.unwrap()@) is None {
            Some(BuildErrorModel::InvalidTimestamp(raw.created_at.unwrap()@))
        } else {
            None
        }
    } else {
        Some(BuildErrorModel::UnrecognizedEventKind(raw.kind@))
    }
}

/// The timestamp a raw record's kind draws from, for records that normalize.
pub open spec fn spec_raw_timestamp(raw: RawEventRecord) -> Seq<char> {
    if is_commit_kind(raw.kind@) {
        raw.committed_date.unwrap()@
    } else if is_review_kind(raw.kind@) {
        raw.published_at.unwrap()@
    } else {
        raw.created_at.unwrap()@
    }
}

/// The actor a raw record's kind draws from; `None` stands for a null actor
/// field (a bot or deleted account), not an error.
pub open spec fn spec_raw_actor(raw: RawEventRecord) -> Option<Seq<char>> {
    if is_commit_kind(raw.kind@) {
        opt_str_view(raw.commit_author)
    } else if is_review_kind(raw.kind@) {
        opt_str_view(raw.author)
    } else {
        opt_str_view(raw.actor)
    }
}

/// The identity of an event, apart from its teams and derived delay: actor,
/// timestamp and typed payload.
pub struct EventSig {
    pub actor: Option<Seq<char>>,
    pub timestamp: Seq<char>,
    pub detail: DetailSig,
}

/// The payload part of an event's identity.
pub enum DetailSig {
    Open,
    Commit(Seq<char>),
    Review(ReviewStatus, int),
    Merged,
    Closed,
}

/// The identity of a normalized event.
pub open spec fn sig_of_event(e: PullRequestEvent) -> EventSig {
    EventSig {
        actor: opt_str_view(e.actor),
        timestamp: e.timestamp@,
        detail: match e.details {
            EventDetail::Open => DetailSig::Open,
            EventDetail::Commit(c) => DetailSig::Commit(c.sha@),
            EventDetail::Review(rv) => DetailSig::Review(rv.state, rv.comment_count as int),
            EventDetail::Merged => DetailSig::Merged,
            EventDetail::Closed => DetailSig::Closed,
        },
    }
}

/// The identity the normalization of `raw` must produce, for records that
/// normalize.
pub open spec fn sig_of_item(raw: RawEventRecord) -> EventSig {
    EventSig {
        actor: spec_raw_actor(raw),
        timestamp: spec_raw_timestamp(raw),
        detail: if is_commit_kind(raw.kind@) {
            DetailSig::Commit(raw.commit_id.unwrap()@)
        } else if is_review_kind(raw.kind@) {
            DetailSig::Review(
                spec_review_state(raw.state.unwrap()@).unwrap(),
                raw.comment_count.unwrap() as int,
            )
        } else if is_merged_kind(raw.kind@) {
            DetailSig::Merged
        } else {
            DetailSig::Closed
        },
    }
}

/// The team set owed to an event's actor: the actor's teams, or no teams at
/// all for an absent actor.
pub open spec fn spec_actor_teams(actor: Option<Seq<char>>, idx: TeamIndex) -> Set<Seq<char>> {
    match actor {
        Some(a) => idx.teams_of(a),
        None => Set::empty(),
    }
}

/// The parsed timestamp is within chrono's representable range.
pub open spec fn time_in_range(e: PullRequestEvent) -> bool {
    -10_000_000_000_000 < e.time_secs < 10_000_000_000_000
}

/// Everything `normalize` promises of a produced event, except its delay.
pub open spec fn event_well_formed(e: PullRequestEvent, idx: TeamIndex) -> bool {
    &&& rfc3339_secs(e.timestamp@) == Some(e.time_secs as int)
    &&& time_in_range(e)
    &&& strictly_sorted(seq_views(e.teams@))
    &&& seq_views(e.teams@).to_set() == spec_actor_teams(opt_str_view(e.actor), idx)
}

/// Converts one raw timeline record into a typed event: the kind decides
/// where the timestamp and the actor come from, the actor is resolved to its
/// teams, and the delay starts at zero. An unrecognized kind or review
/// state, a missing required field, and an unparseable timestamp are each
/// fatal.
pub fn normalize(raw: &RawEventRecord, teams: &TeamIndex) -> (r: Result<
    PullRequestEvent,
    BuildError,
>)
    requires
        teams.wf(),
    ensures
        match r {
            Ok(e) => spec_event_err(*raw) is None && sig_of_event(e) == sig_of_item(*raw)
                && e.delay_minutes == 0 && event_well_formed(e, *teams),
            Err(e) => Some(e@) == spec_event_err(*raw),
        },
{
    let kind_commit = crate::order::str_eq(raw.kind.as_str(), "PullRequestCommit");
    let kind_review = crate::order::str_eq(raw.kind.as_str(), "PullRequestReview");
    let kind_merged = crate::order::str_eq(raw.kind.as_str(), "MergedEvent");
    let kind_closed = crate::order::str_eq(raw.kind.as_str(), "ClosedEvent");
    if !kind_commit && !kind_review && !kind_merged && !kind_closed {
        return Err(BuildError::UnrecognizedEventKind(raw.kind.as_str().to_owned()));
    }
    let timestamp: &String = if kind_commit {
        match &raw.committed_date {
            Some(s) => s,
            None => {
                return Err(BuildError::MissingField("committedDate".to_owned()));
            },
        }
    } else if kind_review {
        match &raw.published_at {
            Some(s) => s,
            None => {
                return Err(BuildError::MissingField("publishedAt".to_owned()));
            },
        }
    } else {
        match &raw.created_at {
            Some(s) => s,
            None => {
                return Err(BuildError::MissingField("createdAt".to_owned()));
            },
        }
    };
    let details: EventDetail = if kind_commit {
        let sha = match &raw.commit_id {
            Some(s) => s.clone(),
            None => {
                return Err(BuildError::MissingField("oid".to_owned()));
            },
        };
        EventDetail::Commit(PullRequestCommit { sha })
    } else if kind_review {
        let state_str = match &raw.state {
            Some(s) => s,
            None => {
                return Err(BuildError::MissingField("state".to_owned()));
            },
        };
        let comment_count: i64 = match raw.comment_count {
            Some(n) => n,
            None => {
                return Err(BuildError::MissingField("comments.totalCount".to_owned()));
            },
        };
        let state = match ReviewStatus::from_str(state_str.as_str()) {
            Ok(st) => st,
            Err(e) => {
                return Err(e);
            },
        };
        EventDetail::Review(PullRequestReview { state, comment_count })
    } else if kind_merged {
        EventDetail::Merged
    } else {
        EventDetail::Closed
    };
    let time_secs: i64 = match parse_rfc3339_secs(timestamp.as_str()) {
        Some(t) => t,
        None => {
            return Err(BuildError::InvalidTimestamp(timestamp.clone()));
        },
    };
    let actor_field: &Option<String> = if kind_commit {
        &raw.commit_author
    } else if kind_review {
        &raw.author
    } else {
        &raw.actor
    };
    let actor: Option<String> = match actor_field {
        Some(a) => Some(a.clone()),
        None => None,
    };
    let team_names: Vec<String> = match &actor {
        Some(a) => teams.lookup(a.as_str()),
        None => Vec::new(),
    };
    proof {
        if actor is None {
            assert(seq_views(team_names@).to_set() =~= Set::<Seq<char>>::empty());
        }
    }
    Ok(
        PullRequestEvent {
            actor,
            teams: team_names,
            timestamp: timestamp.clone(),
            time_secs,
            delay_minutes: 0,
            details,
        },
    )
}

/// Chronological order by parsed timestamp.
pub open spec fn sorted_by_time(s: Seq<PullRequestEvent>) -> bool {
    forall|i: int, j: int| 0 <= i < j < s.len() ==> s[i].time_secs <= s[j].time_secs
}

/// The identities of a sequence of events.
pub open spec fn sigs_of(s: Seq<PullRequestEvent>) -> Seq<EventSig> {
    s.map_values(|e: PullRequestEvent| sig_of_event(e))
}

/// Sorts the events chronologically by parsed timestamp. The result holds
/// exactly the events that went in.
pub fn sort_events(events: &mut Vec<PullRequestEvent>)
    ensures
        sorted_by_time(final(events)@),
        final(events)@.to_multiset() == old(events)@.to_multiset(),
        sigs_of(final(events)@).to_multiset() == sigs_of(old(events)@).to_multiset(),
        forall|x: PullRequestEvent| final(events)@.contains(x) == old(events)@.contains(x),
{
    let mut out: Vec<PullRequestEvent> = Vec::new();
    proof {
        broadcast use vstd::multiset::group_multiset_axioms;

        vstd::seq_lib::to_multiset_len(out@);
        vstd::multiset::lemma_multiset_empty_len(out@.to_multiset());
        assert(sigs_of(out@) =~= Seq::<EventSig>::empty());
        vstd::seq_lib::to_multiset_len(sigs_of(out@));
        vstd::multiset::lemma_multiset_empty_len(sigs_of(out@).to_multiset());
        assert(out@.to_multiset().add(events@.to_multiset()) =~= old(events)@.to_multiset());
        assert(sigs_of(out@).to_multiset().add(sigs_of(events@).to_multiset()) =~= sigs_of(
            old(events)@,
        ).to_multiset());
    }
    while events.len() > 0
        invariant
            sorted_by_time(out@),
            out@.to_multiset().add(events@.to_multiset()) == old(events)@.to_multiset(),
            sigs_of(out@).to_multiset().add(sigs_of(events@).to_multiset()) == sigs_of(
                old(events)@,
            ).to_multiset(),
        decreases events@.len(),
    {
        let ghost pre_events = events@;
        let e = events.remove(0);
        proof {
            broadcast use vstd::multiset::group_multiset_axioms;

            pre_events.to_multiset_ensures();
            assert(events@ =~= pre_events.remove(0));
            assert(pre_events.to_multiset().contains(e)) by {
                assert(pre_events.contains(e));
            }
            assert(pre_events.to_multiset() =~= events@.to_multiset().insert(e));
            sigs_of(pre_events).to_multiset_ensures();
            assert(sigs_of(events@) =~= sigs_of(pre_events).remove(0));
            assert(sigs_of(pre_events).to_multiset().contains(sig_of_event(e))) by {
                assert(sigs_of(pre_events)[0] == sig_of_event(e));
                assert(sigs_of(pre_events).contains(sig_of_event(e)));
            }
            assert(sigs_of(pre_events).to_multiset() =~= sigs_of(events@).to_multiset().insert(
                sig_of_event(e),
            ));
        }
        let mut i: usize = 0;
        while i < out.len()
            invariant
                i <= out@.len(),
                forall|k: int| 0 <= k < i ==> #[trigger] out@[k].time_secs <= e.time_secs,
            ensures
                i <= out@.len(),
                forall|k: int| 0 <= k < i ==> #[trigger] out@[k].time_secs <= e.time_secs,
                i < out@.len() ==> out@[i as int].time_secs > e.time_secs,
            decreases out@.len() - i,
        {
            if out[i].time_secs > e.time_secs {
                break ;
            }
            i += 1;
        }
        let ghost pre_out = out@;
        let ghost sig = sig_of_event(e);
        out.insert(i, e);
        proof {
            pre_out.insert_ensures(i as int, e);
            assert(sorted_by_time(out@)) by {
                assert forall|p: int, q: int| 0 <= p < q < out@.len() implies out@[p].time_secs
                    <= out@[q].time_secs by {
                    if q < i {
                    } else if q == i {
                        assert(out@[p] == pre_out[p]);
                    } else if p < i {
                        assert(out@[p] == pre_out[p] && out@[q] == pre_out[q - 1]);
                    } else if p == i {
                        assert(out@[q] == pre_out[q - 1]);
                    } else {
                        assert(out@[p] == pre_out[p - 1] && out@[q] == pre_out[q - 1]);
                    }
                }
            }
            vstd::seq_lib::to_multiset_insert(pre_out, i as int, e);
            assert(sigs_of(out@) =~= sigs_of(pre_out).insert(i as int, sig));
            vstd::seq_lib::to_multiset_insert(sigs_of(pre_out), i as int, sig);
            assert(out@.to_multiset().add(events@.to_multiset()) =~= old(
                events,
            )@.to_multiset()) by {
                broadcast use vstd::multiset::group_multiset_axioms;

            }
            assert(sigs_of(out@).to_multiset().add(sigs_of(events@).to_multiset()) =~= sigs_of(
                old(events)@,
            ).to_multiset()) by {
                broadcast use vstd::multiset::group_multiset_axioms;

            }
        }
    }
    proof {
        broadcast use vstd::multiset::group_multiset_axioms;

        vstd::seq_lib::to_multiset_len(events@);
        vstd::multiset::lemma_multiset_empty_len(events@.to_multiset());
        assert(sigs_of(events@) =~= Seq::<EventSig>::empty());
        vstd::seq_lib::to_multiset_len(sigs_of(events@));
        vstd::multiset::lemma_multiset_empty_len(sigs_of(events@).to_multiset());
        assert(out@.to_multiset() =~= old(events)@.to_multiset());
        assert(sigs_of(out@).to_multiset() =~= sigs_of(old(events)@).to_multiset());
    }
    *events = out;
    proof {
        assert forall|x: PullRequestEvent| final(events)@.contains(x) == old(
            events,
        )@.contains(x) by {
            vstd::seq_lib::to_multiset_contains(final(events)@, x);
            vstd::seq_lib::to_multiset_contains(old(events)@, x);
        }
    }
}

/// An event equal to another in everything but its derived delay.
pub open spec fn eq_except_delay(a: PullRequestEvent, b: PullRequestEvent) -> bool {
    &&& sig_of_event(a) == sig_of_event(b)
    &&& a.time_secs == b.time_secs
    &&& seq_views(a.teams@) == seq_views(b.teams@)
}

/// Delays derived from a chronological sequence: the first event has no
/// predecessor and keeps delay zero; every later event's delay is the
/// elapsed whole minutes since the event before it.
pub open spec fn delays_correct(s: Seq<PullRequestEvent>) -> bool {
    &&& (s.len() > 0 ==> s[0].delay_minutes == 0)
    &&& forall|i: int|
        1 <= i < s.len() ==> #[trigger] s[i].delay_minutes == (s[i].time_secs - s[i
            - 1].time_secs) / 60
}

/// Walks a chronological event sequence and derives each event's delay from
/// its predecessor's timestamp; the first event's delay is zero.
pub fn compute_delays(events: &mut Vec<PullRequestEvent>)
    requires
        sorted_by_time(old(events)@),
        forall|i: int| 0 <= i < old(events)@.len() ==> time_in_range(#[trigger] old(events)@[i]),
    ensures
        final(events)@.len() == old(events)@.len(),
        forall|i: int|
            0 <= i < final(events)@.len() ==> eq_except_delay(
                #[trigger] final(events)@[i],
                old(events)@[i],
            ),
        delays_correct(final(events)@),
        sorted_by_time(final(events)@),
{
    let n: usize = events.len();
    if n == 0 {
        return ;
    }
    events[0].delay_minutes = 0;
    let mut i: usize = 1;
    while i < n
        invariant
            1 <= i <= n,
            n == events@.len(),
            events@.len() == old(events)@.len(),
            forall|k: int|
                0 <= k < events@.len() ==> eq_except_delay(
                    #[trigger] events@[k],
                    old(events)@[k],
                ),
            sorted_by_time(old(events)@),
            forall|k: int|
                0 <= k < old(events)@.len() ==> time_in_range(#[trigger] old(events)@[k]),
            events@[0].delay_minutes == 0,
            forall|k: int|
                1 <= k < i ==> #[trigger] events@[k].delay_minutes == (events@[k].time_secs
                    - events@[k - 1].time_secs) / 60,
        decreases n - i,
    {
        let prev_t: i64 = events[i - 1].time_secs;
        let cur_t: i64 = events[i].time_secs;
        proof {
            assert(eq_except_delay(events@[i as int], old(events)@[i as int]));
            assert(eq_except_delay(events@[i - 1], old(events)@[i - 1]));
            assert(old(events)@[i - 1].time_secs <= old(events)@[i as int].time_secs);
        }
        let diff: i64 = cur_t - prev_t;
        events[i].delay_minutes = diff / 60;
        i += 1;
    }
}

/// One raw pull-request record as the data source delivers it: scalars are
/// optional because a response may omit any of them, followed by the raw
/// timeline in delivery order.
#[derive(Debug, PartialEq)]
pub struct RawPullRequest {
    pub number: Option<i64>,
    pub title: Option<String>,
    pub additions: Option<u32>,
    pub deletions: Option<u32>,
    pub created_at: Option<String>,
    pub author: Option<String>,
    pub timeline: Vec<RawEventRecord>,
}

/// A fully reconstructed pull request: scalars, the derived participant
/// sets, and the chronological event sequence with derived delays.
#[derive(Debug, PartialEq)]
pub struct PullRequest {
    pub number: i64,
    pub title: String,
    pub diff_size: i64,
    pub author: String,
    pub reviewers: Vec<String>,
    pub authoring_teams: Vec<String>,
    pub reviewing_teams: Vec<String>,
    pub events: Vec<PullRequestEvent>,
}

/// The first failing timeline item's error, in delivery order.
pub open spec fn first_item_err(items: Seq<RawEventRecord>) -> Option<BuildErrorModel>
    decreases items.len(),
{
    if items.len() == 0 {
        None
    } else if spec_event_err(items[0]) is Some {
        spec_event_err(items[0])
    } else {
        first_item_err(items.drop_first())
    }
}

/// Why building from `raw` fails, or `None` where it succeeds. Checks run in
/// a fixed order, so the failing check is determined.
pub open spec fn spec_build_err(raw: RawPullRequest) -> Option<BuildErrorModel> {
    if raw.author is None {
        Some(BuildErrorModel::MissingField("author.login"@))
    } else if raw.created_at is None {
        Some(BuildErrorModel::MissingField("createdAt"@))
    } else if raw.number is None {
        Some(BuildErrorModel::MissingField("number"@))
    } else if raw.title is None {
        Some(BuildErrorModel::MissingField("title"@))
    } else if raw.additions is None {
        Some(BuildErrorModel::MissingField("additions"@))
    } else if raw.deletions is None {
        Some(BuildErrorModel::MissingField("deletions"@))
    } else if rfc3339_secs(raw.created_at.unwrap()@) is None {
        Some(BuildErrorModel::InvalidTimestamp(raw.created_at.unwrap()@))
    } else {
        first_item_err(raw.timeline@)
    }
}

/// Whether timeline item `k` is a review by the login `l`.
pub open spec fn reviewer_at(items: Seq<RawEventRecord>, k: int, l: Seq<char>) -> bool {
    0 <= k < items.len() && sig_of_item(items[k]).detail is Review && spec_raw_actor(items[k])
        == Some(l)
}

/// The logins that reviewed: the authors of review items, where present.
pub open spec fn spec_reviewers(items: Seq<RawEventRecord>) -> Set<Seq<char>> {
    Set::new(|l: Seq<char>| exists|k: int| reviewer_at(items, k, l))
}

/// The identity of the synthetic open event: the pull request's creation
/// time and its author.
pub open spec fn open_sig(raw: RawPullRequest) -> EventSig {
    EventSig {
        actor: Some(raw.author.unwrap()@),
        timestamp: raw.created_at.unwrap()@,
        detail: DetailSig::Open,
    }
}

/// The identities of a sequence of raw items' normalizations.
pub open spec fn item_sigs(items: Seq<RawEventRecord>) -> Seq<EventSig> {
    items.map_values(|it: RawEventRecord| sig_of_item(it))
}

/// The event identities a built pull request owes: the open event plus one
/// normalized event per timeline item.
pub open spec fn expected_sigs(raw: RawPullRequest) -> Seq<EventSig> {
    seq![open_sig(raw)] + item_sigs(raw.timeline@)
}

/// Everything `build` promises of a produced pull request.
pub open spec fn pr_matches(pr: PullRequest, raw: RawPullRequest, idx: TeamIndex) -> bool {
    &&& pr.number == raw.number.unwrap()
    &&& pr.title@ == raw.title.unwrap()@
    &&& pr.diff_size == raw.additions.unwrap() + raw.deletions.unwrap()
    &&& pr.author@ == raw.author.unwrap()@
    &&& strictly_sorted(seq_views(pr.authoring_teams@))
    &&& seq_views(pr.authoring_teams@).to_set() == idx.teams_of(raw.author.unwrap()@)
    &&& strictly_sorted(seq_views(pr.reviewers@))
    &&& seq_views(pr.reviewers@).to_set() == spec_reviewers(raw.timeline@)
    &&& strictly_sorted(seq_views(pr.reviewing_teams@))
    &&& seq_views(pr.reviewing_teams@).to_set() == idx.teams_of_all(seq_views(pr.reviewers@))
    &&& pr.events@.len() == raw.timeline@.len() + 1
    &&& sorted_by_time(pr.events@)
    &&& delays_correct(pr.events@)
    &&& sigs_of(pr.events@).to_multiset() == expected_sigs(raw).to_multiset()
    &&& forall|i: int|
        0 <= i < pr.events@.len() ==> event_well_formed(#[trigger] pr.events@[i], idx)
}

/// Items before `k` that all normalize contribute no error: the first error
/// of the whole timeline is the first error from `k` onward.
proof fn lemma_first_item_err_skip(items: Seq<RawEventRecord>, k: int)
    requires
        0 <= k <= items.len(),
        forall|i: int| 0 <= i < k ==> spec_event_err(#[trigger] items[i]) is None,
    ensures
        first_item_err(items) == first_item_err(items.skip(k)),
    decreases k,
{
    if k == 0 {
        assert(items.skip(0) =~= items);
    } else {
        assert(forall|i: int|
            0 <= i < items.drop_first().len() ==> #[trigger] items.drop_first()[i] == items[i
                + 1]);
        lemma_first_item_err_skip(items.drop_first(), k - 1);
        assert(items.drop_first().skip(k - 1) =~= items.skip(k));
    }
}

/// Assembles a pull request: extracts the scalars, synthesizes the open
/// event, normalizes every timeline item in delivery order, collects the
/// distinct logins that reviewed, sorts the full event sequence
/// chronologically, and derives each event's delay. A missing scalar, an
/// unparseable timestamp, and any item that does not normalize are each
/// fatal.
pub fn build(raw: &RawPullRequest, teams: &TeamIndex) -> (r: Result<PullRequest, BuildError>)
    requires
        teams.wf(),
    ensures
        match r {
            Ok(pr) => spec_build_err(*raw) is None && pr_matches(pr, *raw, *teams),
            Err(e) => Some(e@) == spec_build_err(*raw),
        },
{
    let author: &String = match &raw.author {
        Some(a) => a,
        None => {
            return Err(BuildError::MissingField("author.login".to_owned()));
        },
    };
    let created_at: &String = match &raw.created_at {
        Some(s) => s,
        None => {
            return Err(BuildError::MissingField("createdAt".to_owned()));
        },
    };
    let number: i64 = match raw.number {
        Some(n) => n,
        None => {
            return Err(BuildError::MissingField("number".to_owned()));
        },
    };
    let title: String = match &raw.title {
        Some(t) => t.clone(),
        None => {
            return Err(BuildError::MissingField("title".to_owned()));
        },
    };
    let additions: u32 = match raw.additions {
        Some(n) => n,
        None => {
            return Err(BuildError::MissingField("additions".to_owned()));
        },
    };
    let deletions: u32 = match raw.deletions {
        Some(n) => n,
        None => {
            return Err(BuildError::MissingField("deletions".to_owned()));
        },
    };
    let open_time: i64 = match parse_rfc3339_secs(created_at.as_str()) {
        Some(t) => t,
        None => {
            return Err(BuildError::InvalidTimestamp(created_at.clone()));
        },
    };
    let authoring_teams = teams.lookup(author.as_str());
    let mut events: Vec<PullRequestEvent> = Vec::new();
    events.push(
        PullRequestEvent {
            actor: Some(author.clone()),
            teams: teams.lookup(author.as_str()),
            timestamp: created_at.clone(),
            time_secs: open_time,
            delay_minutes: 0,
            details: EventDetail::Open,
        },
    );
    let mut reviewers: Vec<String> = Vec::new();
    proof {
        assert(sigs_of(events@) =~= seq![open_sig(*raw)] + item_sigs(raw.timeline@.take(0)));
        assert(seq_views(reviewers@).to_set() =~= spec_reviewers(raw.timeline@.take(0))) by {
            assert forall|l: Seq<char>| !spec_reviewers(raw.timeline@.take(0)).contains(l) by {
                if exists|k: int| reviewer_at(raw.timeline@.take(0), k, l) {
                    let k = choose|k: int| reviewer_at(raw.timeline@.take(0), k, l);
                }
            }
        }
    }
    let mut k: usize = 0;
    while k < raw.timeline.len()
        invariant
            teams.wf(),
            k <= raw.timeline@.len(),
            spec_build_err(*raw) == first_item_err(raw.timeline@),
            forall|i: int| 0 <= i < k ==> spec_event_err(#[trigger] raw.timeline@[i]) is None,
            events@.len() == k + 1,
            sigs_of(events@) == seq![open_sig(*raw)] + item_sigs(raw.timeline@.take(k as int)),
            forall|i: int|
                0 <= i < events@.len() ==> event_well_formed(#[trigger] events@[i], *teams),
            strictly_sorted(seq_views(reviewers@)),
            seq_views(reviewers@).to_set() == spec_reviewers(raw.timeline@.take(k as int)),
        decreases raw.timeline@.len() - k,
    {
        let item = &raw.timeline[k];
        let ev = match normalize(item, teams) {
            Ok(ev) => ev,
            Err(e) => {
                proof {
                    let items = raw.timeline@;
                    lemma_first_item_err_skip(items, k as int);
                    assert(items.skip(k as int).len() > 0);
                    assert(items.skip(k as int)[0] == items[k as int]);
                    assert(spec_event_err(items[k as int]) == Some(e@));
                    assert(first_item_err(items.skip(k as int)) == Some(e@));
                    assert(spec_build_err(*raw) == Some(e@));
                }
                return Err(e);
            },
        };
        let ghost pre_reviewers = reviewers@;
        if let EventDetail::Review(_) = &ev.details {
            if let Some(a) = &ev.actor {
                insert_sorted(&mut reviewers, a.clone());
            }
        }
        proof {
            let items = raw.timeline@;
            let prev = items.take(k as int);
            let next = items.take(k + 1);
            assert(next =~= prev.push(items[k as int]));
            assert(next[k as int] == items[k as int]);
            assert forall|l: Seq<char>|
                spec_reviewers(next).contains(l) implies seq_views(
                reviewers@,
            ).to_set().contains(l) by {
                let j = choose|j: int| reviewer_at(next, j, l);
                if j < k {
                    assert(reviewer_at(prev, j, l));
                    assert(spec_reviewers(prev).contains(l));
                    assert(seq_views(pre_reviewers).to_set().contains(l));
                } else {
                    assert(sig_of_item(items[k as int]).detail is Review);
                    assert(spec_raw_actor(items[k as int]) == Some(l));
                    assert(sig_of_event(ev) == sig_of_item(items[k as int]));
                    assert(ev.details matches EventDetail::Review(_));
                    assert(opt_str_view(ev.actor) == Some(l));
                }
            }
            assert forall|l: Seq<char>|
                seq_views(reviewers@).to_set().contains(l) implies spec_reviewers(
                next,
            ).contains(l) by {
                if seq_views(pre_reviewers).to_set().contains(l) {
                    let j = choose|j: int| reviewer_at(prev, j, l);
                    assert(reviewer_at(next, j, l));
                } else {
                    assert(ev.details matches EventDetail::Review(_));
                    assert(opt_str_view(ev.actor) == Some(l));
                    assert(reviewer_at(next, k as int, l));
                }
            }
            assert(seq_views(reviewers@).to_set() =~= spec_reviewers(next));
        }
        let ghost pre_events = events@;
        events.push(ev);
        proof {
            let items = raw.timeline@;
            assert(sigs_of(events@) =~= sigs_of(pre_events).push(sig_of_event(ev)));
            assert(items.take(k + 1) =~= items.take(k as int).push(items[k as int]));
            assert(item_sigs(items.take(k + 1)) =~= item_sigs(items.take(k as int)).push(
                sig_of_item(items[k as int]),
            ));
            assert(sigs_of(events@) =~= seq![open_sig(*raw)] + item_sigs(items.take(k + 1)));
        }
        k += 1;
    }
    proof {
        lemma_first_item_err_skip(raw.timeline@, raw.timeline@.len() as int);
        assert(raw.timeline@.skip(raw.timeline@.len() as int).len() == 0);
        assert(raw.timeline@.take(raw.timeline@.len() as int) =~= raw.timeline@);
    }
    let reviewing_teams = users_teams(&reviewers, teams);
    let ghost mid = events@;
    sort_events(&mut events);
    proof {
        assert forall|i: int|
            0 <= i < events@.len() implies event_well_formed(#[trigger] events@[i], *teams) by {
            assert(events@.contains(events@[i]));
            assert(mid.contains(events@[i]));
            let j = choose|j: int| 0 <= j < mid.len() && mid[j] == events@[i];
        }
        vstd::seq_lib::to_multiset_len(sigs_of(events@));
        vstd::seq_lib::to_multiset_len(sigs_of(mid));
        assert(events@.len() == mid.len()) by {
            vstd::seq_lib::to_multiset_len(events@);
            vstd::seq_lib::to_multiset_len(mid);
        }
    }
    let ghost sorted_events = events@;
    proof {
        assert forall|i: int| 0 <= i < events@.len() implies time_in_range(
            #[trigger] events@[i],
        ) by {
            assert(event_well_formed(events@[i], *teams));
        }
    }
    compute_delays(&mut events);
    proof {
        assert(sigs_of(events@) =~= sigs_of(sorted_events));
        assert forall|i: int|
            0 <= i < events@.len() implies event_well_formed(#[trigger] events@[i], *teams) by {
            assert(eq_except_delay(events@[i], sorted_events[i]));
            assert(event_well_formed(sorted_events[i], *teams));
        }
    }
    Ok(
        PullRequest {
            number,
            title,
            diff_size: additions as i64 + deletions as i64,
            author: author.clone(),
            reviewers,
            authoring_teams,
            reviewing_teams,
            events,
        },
    )
}

/// Normalizing the same raw record twice yields identical events: any two
/// results that meet `normalize`'s contract for the same record and index
/// agree in every observable field.
pub proof fn lemma_normalize_deterministic(
    raw: RawEventRecord,
    idx: TeamIndex,
    e1: PullRequestEvent,
    e2: PullRequestEvent,
)
    requires
        sig_of_event(e1) == sig_of_item(raw),
        e1.delay_minutes == 0,
        event_well_formed(e1, idx),
        sig_of_event(e2) == sig_of_item(raw),
        e2.delay_minutes == 0,
        event_well_formed(e2, idx),
    ensures
        sig_of_event(e1) == sig_of_event(e2),
        opt_str_view(e1.actor) == opt_str_view(e2.actor),
        e1.timestamp@ == e2.timestamp@,
        e1.time_secs == e2.time_secs,
        e1.delay_minutes == e2.delay_minutes,
        seq_views(e1.teams@) == seq_views(e2.teams@),
{
    lemma_strictly_sorted_unique(seq_views(e1.teams@), seq_views(e2.teams@));
}

} // verus!
