use gh_triage::github::{
    dedupe_pull_requests, eq_ignore_ascii_case, filter_archived_pull_requests,
    handle_graphql_errors, map_ci_status, parse_repo_from_url, parse_subject_type,
    transform_notification, transform_pull_request, GraphQlCommit, GraphQlFailure,
    GraphQlNotification, GraphQlPullRequest, GraphQlPullRequestCommit,
    GraphQlPullRequestCommits, GraphQlRepository, GraphQlStatusCheckRollup, GraphQlSubject,
};
use gh_triage::ignore::parse_ignore_list;
use gh_triage::types::{
    CiStatus, GraphQlError, MyPullRequest, Notification, Repository, ReviewStatus, Subject,
    SubjectStatus,
};

fn repository(is_archived: bool) -> GraphQlRepository {
    GraphQlRepository {
        name: "widgets".to_string(),
        name_with_owner: "acme/widgets".to_string(),
        is_archived,
        merge_commit_allowed: None,
        squash_merge_allowed: None,
        rebase_merge_allowed: None,
        auto_merge_allowed: None,
        viewer_default_merge_method: None,
    }
}

fn sample_graphql_pr(id: &str, is_archived: bool) -> GraphQlPullRequest {
    GraphQlPullRequest {
        id: id.to_string(),
        title: format!("{id}-title"),
        url: format!("https://github.com/acme/widgets/pull/{id}"),
        updated_at: "2024-01-06T00:00:00Z".to_string(),
        is_draft: false,
        review_decision: None,
        repository: repository(is_archived),
        commits: None,
    }
}

fn success_commits() -> Option<GraphQlPullRequestCommits> {
    Some(GraphQlPullRequestCommits {
        nodes: vec![GraphQlPullRequestCommit {
            commit: Some(GraphQlCommit {
                status_check_rollup: Some(GraphQlStatusCheckRollup {
                    state: Some("SUCCESS".to_string()),
                }),
            }),
        }],
    })
}

fn subject(
    id: Option<&str>,
    state: Option<&str>,
    is_draft: Option<bool>,
    review: Option<&str>,
) -> GraphQlSubject {
    GraphQlSubject {
        id: id.map(|s| s.to_string()),
        state: state.map(|s| s.to_string()),
        is_draft,
        review_decision: review.map(|s| s.to_string()),
        commits: None,
        repository: None,
    }
}

fn thread(n: &str, title: &str, url: &str, unread: bool, subject: GraphQlSubject) -> GraphQlNotification {
    GraphQlNotification {
        id: format!("node-{n}"),
        thread_id: format!("thread-{n}"),
        title: title.to_string(),
        url: url.to_string(),
        is_unread: unread,
        last_updated_at: "2024-01-03T00:00:00Z".to_string(),
        reason: None,
        optional_subject: Some(subject),
    }
}

#[test]
fn parse_repo_from_url_handles_standard() {
    let url = "https://github.com/acme/widgets/pull/42";
    assert_eq!(parse_repo_from_url(url), "acme/widgets");
}

#[test]
fn parse_repo_from_url_handles_unknown() {
    let url = "https://example.com/other";
    assert_eq!(parse_repo_from_url(url), "unknown/unknown");
}

#[test]
fn parse_repo_from_url_needs_two_pieces() {
    assert_eq!(parse_repo_from_url("https://github.com/acme"), "unknown/unknown");
    assert_eq!(parse_repo_from_url("github.com/a/b"), "a/b");
}

#[test]
fn parse_subject_type_variants() {
    assert_eq!(
        parse_subject_type("https://github.com/acme/widgets/pull/1"),
        "PullRequest"
    );
    assert_eq!(
        parse_subject_type("https://github.com/acme/widgets/issues/2"),
        "Issue"
    );
    assert_eq!(
        parse_subject_type("https://github.com/acme/widgets/commit/abc"),
        "Commit"
    );
    assert_eq!(
        parse_subject_type("https://github.com/acme/widgets/releases/tag/v1"),
        "Release"
    );
    assert_eq!(
        parse_subject_type("https://github.com/acme/widgets/discussions/9"),
        "Discussion"
    );
    assert_eq!(
        parse_subject_type("https://github.com/acme/widgets/branches"),
        "Unknown"
    );
}

#[test]
fn transform_notification_maps_fields() {
    let mut s = subject(Some("subject-1"), Some("MERGED"), Some(false), Some("APPROVED"));
    s.commits = success_commits();
    let gql = GraphQlNotification {
        id: "node-1".to_string(),
        thread_id: "thread-1".to_string(),
        title: "Fix bug".to_string(),
        url: "https://github.com/acme/widgets/pull/42".to_string(),
        is_unread: true,
        last_updated_at: "2024-01-01T00:00:00Z".to_string(),
        reason: Some("mention".to_string()),
        optional_subject: Some(s),
    };

    let notification = transform_notification(gql);
    assert_eq!(notification.id, "thread-1");
    assert_eq!(notification.node_id, "node-1");
    assert_eq!(notification.subject_id.as_deref(), Some("subject-1"));
    assert!(notification.unread);
    assert_eq!(notification.reason, "mention");
    assert_eq!(notification.subject.title, "Fix bug");
    assert_eq!(notification.subject.kind, "PullRequest");
    assert_eq!(notification.subject.status, vec![SubjectStatus::Merged]);
    assert_eq!(notification.subject.ci_status, Some(CiStatus::Success));
    assert_eq!(
        notification.subject.review_status,
        Some(ReviewStatus::Approved)
    );
    assert_eq!(notification.repository.full_name, "acme/widgets");
    assert_eq!(notification.repository.name, "widgets");
    assert_eq!(notification.url, "https://github.com/acme/widgets/pull/42");
}

#[test]
fn transform_notification_handles_missing_subject_id() {
    let gql = GraphQlNotification {
        id: "node-2".to_string(),
        thread_id: "thread-2".to_string(),
        title: "Release v1.0.0".to_string(),
        url: "https://github.com/acme/widgets/releases/tag/v1.0.0".to_string(),
        is_unread: false,
        last_updated_at: "2024-01-02T00:00:00Z".to_string(),
        reason: None,
        optional_subject: Some(subject(None, None, None, None)),
    };

    let notification = transform_notification(gql);
    assert_eq!(notification.subject_id, None);
    assert_eq!(notification.reason, "subscribed");
}

#[test]
fn transform_notification_maps_draft_status() {
    let gql = thread(
        "3",
        "WIP",
        "https://github.com/acme/widgets/pull/13",
        true,
        subject(Some("subject-3"), Some("OPEN"), Some(true), Some("REVIEW_REQUIRED")),
    );

    let notification = transform_notification(gql);
    assert_eq!(notification.subject.status, vec![SubjectStatus::Draft]);
}

#[test]
fn transform_notification_maps_draft_and_closed_statuses() {
    let gql = thread(
        "3b",
        "Draft closed",
        "https://github.com/acme/widgets/pull/14",
        true,
        subject(Some("subject-3b"), Some("CLOSED"), Some(true), None),
    );

    let notification = transform_notification(gql);
    assert_eq!(
        notification.subject.status,
        vec![SubjectStatus::Draft, SubjectStatus::Closed]
    );
}

#[test]
fn transform_notification_maps_closed_issue_status() {
    let gql = thread(
        "4",
        "Fix docs",
        "https://github.com/acme/widgets/issues/9",
        false,
        subject(Some("subject-4"), Some("CLOSED"), None, None),
    );

    let notification = transform_notification(gql);
    assert_eq!(notification.subject.status, vec![SubjectStatus::Closed]);
}

#[test]
fn transform_notification_maps_review_status() {
    let gql = thread(
        "5",
        "Needs changes",
        "https://github.com/acme/widgets/pull/9",
        true,
        subject(Some("subject-5"), Some("OPEN"), Some(false), Some("CHANGES_REQUESTED")),
    );

    let notification = transform_notification(gql);
    assert_eq!(
        notification.subject.review_status,
        Some(ReviewStatus::ChangesRequested)
    );
}

#[test]
fn transform_notification_prefers_subject_repository() {
    let mut s = subject(Some("s"), Some("open"), None, None);
    let mut repo = repository(false);
    repo.name = "gadgets".to_string();
    repo.name_with_owner = "other/gadgets".to_string();
    repo.squash_merge_allowed = Some(true);
    s.repository = Some(repo);
    let notification = transform_notification(thread(
        "6",
        "Moved",
        "https://github.com/acme/widgets/pull/6",
        true,
        s,
    ));
    assert_eq!(notification.repository.full_name, "other/gadgets");
    assert_eq!(notification.repository.name, "gadgets");
    let settings = notification.repository.merge_settings.expect("settings");
    assert!(settings.squash_merge_allowed);
    assert!(!settings.merge_commit_allowed);
}

#[test]
fn transform_pull_request_maps_fields() {
    let mut gql = sample_graphql_pr("pr-1", false);
    gql.title = "My PR".to_string();
    gql.url = "https://github.com/acme/widgets/pull/1".to_string();
    gql.review_decision = Some("APPROVED".to_string());
    gql.commits = success_commits();

    let pr = transform_pull_request(gql);
    assert_eq!(pr.id, "pr-1");
    assert_eq!(pr.subject.title, "My PR");
    assert_eq!(pr.subject.kind, "PullRequest");
    assert_eq!(pr.subject.ci_status, Some(CiStatus::Success));
    assert_eq!(pr.subject.review_status, Some(ReviewStatus::Approved));
    assert_eq!(pr.repository.full_name, "acme/widgets");
    assert_eq!(pr.repository.name, "widgets");
}

fn plain_subject(title: &str, url: &str) -> Subject {
    Subject {
        title: title.to_string(),
        url: url.to_string(),
        kind: "PullRequest".to_string(),
        author: None,
        status: Vec::new(),
        ci_status: None,
        review_status: None,
        head_ref: None,
    }
}

fn plain_repository() -> Repository {
    Repository {
        name: "widgets".to_string(),
        full_name: "acme/widgets".to_string(),
        merge_settings: None,
    }
}

#[test]
fn dedupe_pull_requests_removes_notification_dupes() {
    let notifications = vec![Notification {
        id: "thread-1".to_string(),
        node_id: "node-1".to_string(),
        subject_id: Some("pr-1".to_string()),
        unread: false,
        reason: "mention".to_string(),
        updated_at: "2024-01-01T00:00:00Z".to_string(),
        subject: plain_subject("My PR", "https://github.com/acme/widgets/pull/1"),
        repository: plain_repository(),
        url: "https://github.com/acme/widgets/pull/1".to_string(),
    }];

    let pull_requests = vec![
        MyPullRequest {
            id: "pr-1".to_string(),
            updated_at: "2024-01-02T00:00:00Z".to_string(),
            subject: plain_subject("My PR", "https://github.com/acme/widgets/pull/1"),
            repository: plain_repository(),
            url: "https://github.com/acme/widgets/pull/1".to_string(),
        },
        MyPullRequest {
            id: "pr-2".to_string(),
            updated_at: "2024-01-03T00:00:00Z".to_string(),
            subject: plain_subject("Another PR", "https://github.com/acme/widgets/pull/2"),
            repository: plain_repository(),
            url: "https://github.com/acme/widgets/pull/2".to_string(),
        },
    ];

    let deduped = dedupe_pull_requests(pull_requests, &notifications);
    assert_eq!(deduped.len(), 1);
    assert_eq!(deduped[0].id, "pr-2");
}

#[test]
fn filter_archived_pull_requests_drops_archived() {
    let active = sample_graphql_pr("pr-1", false);
    let archived = sample_graphql_pr("pr-2", true);

    let filtered = filter_archived_pull_requests(vec![active, archived]);
    assert_eq!(filtered.len(), 1);
    assert_eq!(filtered[0].id, "pr-1");
}

#[test]
fn ci_and_case_mapping() {
    assert_eq!(map_ci_status(Some("timed_out")), Some(CiStatus::Failure));
    assert_eq!(map_ci_status(Some("Expected")), Some(CiStatus::Pending));
    assert_eq!(map_ci_status(Some("neutral")), Some(CiStatus::Success));
    assert_eq!(map_ci_status(Some("weird")), None);
    assert_eq!(map_ci_status(None), None);
    assert!(eq_ignore_ascii_case("PullRequest", "pullrequest"));
    assert!(!eq_ignore_ascii_case("Pull[equest", "pull{equest"));
}

#[test]
fn graphql_errors_are_classified() {
    assert!(handle_graphql_errors(&[]).is_ok());
    let errors = vec![
        GraphQlError {
            kind: None,
            message: "first".to_string(),
        },
        GraphQlError {
            kind: Some("INSUFFICIENT_SCOPES".to_string()),
            message: "scope".to_string(),
        },
    ];
    assert!(matches!(
        handle_graphql_errors(&errors),
        Err(GraphQlFailure::MissingScope)
    ));
    match handle_graphql_errors(&errors[..1]) {
        Err(GraphQlFailure::Message(m)) => assert_eq!(m, "first"),
        _ => panic!("expected a message"),
    }
}

#[test]
fn ignore_list_skips_comments_and_blanks() {
    let contents = [
        "# comment",
        "",
        "   ",
        "https://github.com/acme/widgets/pull/1",
        "   https://github.com/acme/widgets/pull/2   ",
    ]
    .join("\n");
    let ignores = parse_ignore_list(&contents);
    assert!(ignores.contains("https://github.com/acme/widgets/pull/1"));
    assert!(ignores.contains("https://github.com/acme/widgets/pull/2"));
    assert!(!ignores.contains("# comment"));
    assert!(!ignores.contains(""));
}
