use gh_triage::types::{
    Action, MyPullRequest, Notification, Repository, ReviewStatus, Subject, SubjectStatus,
};
use gh_triage::ui::{build_pending_map, build_target_map, effective_review_status, ordered_statuses};

fn subject(title: &str, url: &str, kind: &str) -> Subject {
    Subject {
        title: title.to_string(),
        url: url.to_string(),
        kind: kind.to_string(),
        author: None,
        status: Vec::new(),
        ci_status: None,
        review_status: None,
        head_ref: None,
    }
}

fn repository() -> Repository {
    Repository {
        name: "widgets".to_string(),
        full_name: "acme/widgets".to_string(),
        merge_settings: None,
    }
}

fn notification(n: usize, unread: bool, reason: &str, subject: Subject) -> Notification {
    Notification {
        id: format!("thread-{n}"),
        node_id: format!("node-{n}"),
        subject_id: None,
        unread,
        reason: reason.to_string(),
        updated_at: "2024-01-01T00:00:00Z".to_string(),
        url: subject.url.clone(),
        subject,
        repository: repository(),
    }
}

fn my_pr(id: &str, title: &str, url: &str) -> MyPullRequest {
    MyPullRequest {
        id: id.to_string(),
        updated_at: "2024-01-01T00:00:00Z".to_string(),
        subject: subject(title, url, "PullRequest"),
        repository: repository(),
        url: url.to_string(),
    }
}

#[test]
fn build_pending_map_matches_parser() {
    let my_prs = Vec::new();
    let mut second = subject(
        "Fix docs",
        "https://github.com/acme/widgets/issues/2",
        "Issue",
    );
    second.status = vec![SubjectStatus::Closed];
    let notifications = vec![
        notification(
            1,
            true,
            "mention",
            subject(
                "Fix bug",
                "https://github.com/acme/widgets/pull/1",
                "PullRequest",
            ),
        ),
        notification(2, true, "mention", second),
    ];

    let map = build_pending_map("1o2r", &notifications, &my_prs);
    assert_eq!(map.get(&1), Some(&vec![Action::Open]));
    assert_eq!(map.get(&2), Some(&vec![Action::Read]));
}

#[test]
fn build_pending_map_allows_review_for_my_prs() {
    let notifications = Vec::new();
    let my_prs = vec![my_pr(
        "pr-1",
        "My PR",
        "https://github.com/acme/widgets/pull/99",
    )];

    let map = build_pending_map("1p", &notifications, &my_prs);
    assert_eq!(map.get(&1), Some(&vec![Action::Review]));
}

#[test]
fn build_pending_map_targets_review_status() {
    let my_prs = Vec::new();
    let mut pending = subject(
        "Pending review",
        "https://github.com/acme/widgets/pull/1",
        "PullRequest",
    );
    pending.review_status = Some(ReviewStatus::ReviewRequired);
    let mut merged = subject(
        "Merged PR",
        "https://github.com/acme/widgets/pull/2",
        "PullRequest",
    );
    merged.status = vec![SubjectStatus::Merged];
    merged.review_status = Some(ReviewStatus::ReviewRequired);
    let mut draft = subject(
        "Draft PR",
        "https://github.com/acme/widgets/pull/3",
        "PullRequest",
    );
    draft.status = vec![SubjectStatus::Draft];
    draft.review_status = Some(ReviewStatus::ReviewRequired);
    let mut approved = subject(
        "Approved",
        "https://github.com/acme/widgets/pull/4",
        "PullRequest",
    );
    approved.review_status = Some(ReviewStatus::Approved);
    let mut changes = subject(
        "Changes requested",
        "https://github.com/acme/widgets/pull/5",
        "PullRequest",
    );
    changes.review_status = Some(ReviewStatus::ChangesRequested);
    let notifications = vec![
        notification(1, true, "review_requested", pending),
        notification(2, true, "review_requested", merged),
        notification(3, true, "review_requested", draft),
        notification(4, true, "review_requested", approved),
        notification(5, true, "review_requested", changes),
    ];

    let pending = build_pending_map("?o", &notifications, &my_prs);
    assert_eq!(pending.get(&1), Some(&vec![Action::Open]));
    assert!(!pending.contains_key(&2));
    assert!(!pending.contains_key(&3));

    let pending = build_pending_map("ad", &notifications, &my_prs);
    assert_eq!(pending.get(&4), Some(&vec![Action::Done]));

    let pending = build_pending_map("xr", &notifications, &my_prs);
    assert_eq!(pending.get(&5), Some(&vec![Action::Read]));
}

#[test]
fn build_pending_map_filters_branch_for_non_pr() {
    let my_prs = Vec::new();
    let notifications = vec![notification(
        1,
        false,
        "mention",
        subject("Issue", "https://github.com/acme/widgets/issues/1", "Issue"),
    )];

    let pending = build_pending_map("1b", &notifications, &my_prs);
    assert!(pending.is_empty());
}

#[test]
fn build_pending_map_allows_branch_for_pr() {
    let my_prs = Vec::new();
    let mut pr_subject = subject(
        "Branch me",
        "https://github.com/acme/widgets/pull/1",
        "PullRequest",
    );
    pr_subject.head_ref = Some("feature/branch".to_string());
    let notifications = vec![notification(1, false, "mention", pr_subject)];

    let pending = build_pending_map("1b", &notifications, &my_prs);
    assert_eq!(pending.get(&1), Some(&vec![Action::Branch]));
}

#[test]
fn build_pending_map_targets_multiple_statuses() {
    let my_prs = Vec::new();
    let mut both = subject(
        "Draft closed",
        "https://github.com/acme/widgets/pull/1",
        "PullRequest",
    );
    both.status = vec![SubjectStatus::Draft, SubjectStatus::Closed];
    let notifications = vec![notification(1, false, "mention", both)];

    let pending = build_pending_map("fd", &notifications, &my_prs);
    assert_eq!(pending.get(&1), Some(&vec![Action::Done]));
    let pending = build_pending_map("cd", &notifications, &my_prs);
    assert_eq!(pending.get(&1), Some(&vec![Action::Done]));
}

#[test]
fn build_pending_map_targets_unread() {
    let my_prs = Vec::new();
    let notifications = vec![
        notification(
            1,
            true,
            "mention",
            subject("Unread", "https://github.com/acme/widgets/pull/1", "PullRequest"),
        ),
        notification(
            2,
            false,
            "mention",
            subject("Read", "https://github.com/acme/widgets/pull/2", "PullRequest"),
        ),
    ];

    let pending = build_pending_map("ur", &notifications, &my_prs);
    assert_eq!(pending.get(&1), Some(&vec![Action::Read]));
    assert!(!pending.contains_key(&2));
}

#[test]
fn build_pending_map_filters_actions_for_my_prs() {
    let mut pr_notification = notification(
        1,
        false,
        "mention",
        subject(
            "PR notification",
            "https://github.com/acme/widgets/pull/1",
            "PullRequest",
        ),
    );
    pr_notification.subject_id = Some("pr-1".to_string());
    let notifications = vec![pr_notification];
    let my_prs = vec![my_pr(
        "pr-2",
        "My PR",
        "https://github.com/acme/widgets/pull/2",
    )];

    let pending = build_pending_map("2dq", &notifications, &my_prs);
    assert_eq!(pending.get(&2), Some(&vec![Action::Unsubscribe]));

    let pending = build_pending_map("2o", &notifications, &my_prs);
    assert_eq!(pending.get(&2), Some(&vec![Action::Open]));
}

#[test]
fn build_pending_map_ignores_unknown_action_on_notification() {
    let my_prs = Vec::new();
    let notifications = vec![notification(
        1,
        false,
        "mention",
        subject("Issue", "https://github.com/acme/widgets/issues/1", "Issue"),
    )];

    let pending = build_pending_map("1s", &notifications, &my_prs);
    assert!(pending.is_empty());
}

#[test]
fn review_indicator_shows_status() {
    let mut s = subject("Review me", "https://github.com/acme/widgets/pull/3", "PullRequest");
    s.review_status = Some(ReviewStatus::ReviewRequired);
    assert_eq!(effective_review_status(&s), Some(ReviewStatus::ReviewRequired));
}

#[test]
fn review_indicator_suppresses_pending_when_closed() {
    let mut s = subject("Closed PR", "https://github.com/acme/widgets/pull/4", "PullRequest");
    s.status = vec![SubjectStatus::Closed];
    s.review_status = Some(ReviewStatus::ReviewRequired);
    assert_eq!(effective_review_status(&s), None);
}

#[test]
fn review_indicator_suppresses_pending_when_draft() {
    let mut s = subject("Draft PR", "https://github.com/acme/widgets/pull/5", "PullRequest");
    s.status = vec![SubjectStatus::Draft];
    s.review_status = Some(ReviewStatus::ReviewRequired);
    assert_eq!(effective_review_status(&s), None);
    s.review_status = Some(ReviewStatus::Approved);
    assert_eq!(effective_review_status(&s), Some(ReviewStatus::Approved));
}

#[test]
fn status_order_keeps_draft_first() {
    let mut s = subject("Draft closed PR", "https://github.com/acme/widgets/pull/2", "PullRequest");
    s.status = vec![SubjectStatus::Closed, SubjectStatus::Draft];
    assert_eq!(
        ordered_statuses(&s),
        vec![SubjectStatus::Draft, SubjectStatus::Closed]
    );
}

#[test]
fn target_map_numbers_pull_requests_after_notifications() {
    let notifications = vec![notification(
        1,
        true,
        "mention",
        subject("A", "https://github.com/acme/widgets/pull/1", "pullrequest"),
    )];
    let mut pr = my_pr("pr-1", "Mine", "https://github.com/acme/widgets/pull/7");
    pr.subject.status = vec![SubjectStatus::Draft];
    let targets = build_target_map(&notifications, &[pr]);
    assert_eq!(targets.get('u'), Some(&vec![1]));
    assert_eq!(targets.get('f'), Some(&vec![2]));
    assert!(targets.get('m').is_none());
    let pending = build_pending_map("1b", &notifications, &[]);
    assert_eq!(pending.get(&1), Some(&vec![Action::Branch]));
}
