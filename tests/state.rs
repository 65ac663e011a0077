use std::collections::HashMap;

use gh_triage::state::{
    apply_optimistic_update, record_override_state, sort_by_updated_at, AppState, IgnoreSet,
    NotificationOverride, NotificationOverrideState, OverrideLedger,
};
use gh_triage::types::{Action, MyPullRequest, Notification, Repository, Subject};
use gh_triage::ui::build_pending_map;

fn timestamp(value: &str) -> i64 {
    chrono::DateTime::parse_from_rfc3339(value)
        .unwrap()
        .timestamp()
}

fn sample_notification(unread: bool) -> Notification {
    Notification {
        id: "thread-1".to_string(),
        node_id: "node-1".to_string(),
        subject_id: Some("subject-1".to_string()),
        unread,
        reason: "mention".to_string(),
        updated_at: "2024-01-01T00:00:00Z".to_string(),
        subject: Subject {
            title: "Fix bug".to_string(),
            url: "https://github.com/acme/widgets/pull/42".to_string(),
            kind: "PullRequest".to_string(),
            author: None,
            status: Vec::new(),
            ci_status: None,
            review_status: None,
            head_ref: None,
        },
        repository: Repository {
            name: "widgets".to_string(),
            full_name: "acme/widgets".to_string(),
            merge_settings: None,
        },
        url: "https://github.com/acme/widgets/pull/42".to_string(),
    }
}

fn numbered_notification(n: usize, unread: bool) -> Notification {
    let mut notification = sample_notification(unread);
    notification.id = format!("thread-{n}");
    notification.node_id = format!("node-{n}");
    notification
}

fn sample_my_pr() -> MyPullRequest {
    sample_my_pr_with_url(
        "https://github.com/acme/widgets/pull/100",
        "2024-01-01T00:00:00Z",
    )
}

fn sample_my_pr_with_url(url: &str, updated_at: &str) -> MyPullRequest {
    MyPullRequest {
        id: "pr-1".to_string(),
        updated_at: updated_at.to_string(),
        subject: Subject {
            title: "My PR".to_string(),
            url: url.to_string(),
            kind: "PullRequest".to_string(),
            author: None,
            status: Vec::new(),
            ci_status: None,
            review_status: None,
            head_ref: None,
        },
        repository: Repository {
            name: "widgets".to_string(),
            full_name: "acme/widgets".to_string(),
            merge_settings: None,
        },
        url: url.to_string(),
    }
}

#[test]
fn open_marks_read_in_optimistic_update() {
    let mut app = AppState::new(true, IgnoreSet::new());
    app.notifications = vec![sample_notification(true)];

    let mut commands = HashMap::new();
    commands.insert(1, vec![Action::Open]);

    apply_optimistic_update(&mut app, &commands);
    assert!(!app.notifications[0].unread);
}

#[test]
fn open_removes_in_unread_only_view() {
    let mut app = AppState::new(false, IgnoreSet::new());
    app.notifications = vec![sample_notification(true)];

    let mut commands = HashMap::new();
    commands.insert(1, vec![Action::Open]);

    apply_optimistic_update(&mut app, &commands);
    assert!(app.notifications.is_empty());
}

#[test]
fn open_records_read_override() {
    let mut app = AppState::new(true, IgnoreSet::new());
    app.notifications = vec![sample_notification(true)];
    let id = app.notifications[0].id.clone();

    let mut commands = HashMap::new();
    commands.insert(1, vec![Action::Open]);

    apply_optimistic_update(&mut app, &commands);
    let override_entry = app.notification_overrides.get(&id).expect("override");
    assert_eq!(override_entry.state, NotificationOverrideState::Read);
}

#[test]
fn done_records_suppress_override() {
    let mut app = AppState::new(true, IgnoreSet::new());
    app.notifications = vec![sample_notification(true)];
    let id = app.notifications[0].id.clone();

    let mut commands = HashMap::new();
    commands.insert(1, vec![Action::Done]);

    apply_optimistic_update(&mut app, &commands);
    let override_entry = app.notification_overrides.get(&id).expect("override");
    assert_eq!(override_entry.state, NotificationOverrideState::Suppress);
}

#[test]
fn unsubscribe_ignores_my_pr_optimistically() {
    let mut app = AppState::new(true, IgnoreSet::new());
    app.my_prs = vec![sample_my_pr()];

    let mut commands = HashMap::new();
    commands.insert(1, vec![Action::Unsubscribe]);

    apply_optimistic_update(&mut app, &commands);
    assert!(app.my_prs.is_empty());
    assert!(app
        .ignored_prs
        .contains("https://github.com/acme/widgets/pull/100"));
}

#[test]
fn unsubscribe_removes_notification_optimistically() {
    let mut app = AppState::new(true, IgnoreSet::new());
    app.notifications = vec![sample_notification(true)];

    let mut commands = HashMap::new();
    commands.insert(1, vec![Action::Unsubscribe]);

    apply_optimistic_update(&mut app, &commands);
    assert!(app.notifications.is_empty());
}

#[test]
fn set_data_filters_ignored_prs() {
    let mut ignored = IgnoreSet::new();
    ignored.insert("https://github.com/acme/widgets/pull/100".to_string());

    let mut app = AppState::new(true, ignored);
    let pr_ignored = sample_my_pr_with_url(
        "https://github.com/acme/widgets/pull/100",
        "2024-01-02T00:00:00Z",
    );
    let pr_kept = sample_my_pr_with_url(
        "https://github.com/acme/widgets/pull/101",
        "2024-01-01T00:00:00Z",
    );

    app.set_data(Vec::new(), vec![pr_ignored, pr_kept]);
    assert_eq!(app.my_prs.len(), 1);
    assert_eq!(
        app.my_prs[0].url,
        "https://github.com/acme/widgets/pull/101"
    );
}

#[test]
fn set_data_preserves_read_override_on_stale_fetch() {
    let mut app = AppState::new(true, IgnoreSet::new());
    let notification = sample_notification(true);
    let marked_at = timestamp(&notification.updated_at) + 60;
    let id = notification.id.clone();
    app.notification_overrides.insert(
        id.clone(),
        NotificationOverride {
            state: NotificationOverrideState::Read,
            marked_at,
        },
    );

    app.set_data(vec![notification], Vec::new());
    assert_eq!(app.notifications.len(), 1);
    assert!(!app.notifications[0].unread);
    assert!(app.notification_overrides.contains_key(&id));
}

#[test]
fn set_data_clears_read_override_on_new_activity() {
    let mut app = AppState::new(true, IgnoreSet::new());
    let mut notification = sample_notification(true);
    let marked_at = timestamp(&notification.updated_at);
    notification.updated_at = "2024-01-02T00:00:00Z".to_string();
    let id = notification.id.clone();
    app.notification_overrides.insert(
        id.clone(),
        NotificationOverride {
            state: NotificationOverrideState::Read,
            marked_at,
        },
    );

    app.set_data(vec![notification], Vec::new());
    assert_eq!(app.notifications.len(), 1);
    assert!(app.notifications[0].unread);
    assert!(!app.notification_overrides.contains_key(&id));
}

#[test]
fn set_data_suppresses_done_until_new_activity() {
    let mut app = AppState::new(true, IgnoreSet::new());
    let notification = sample_notification(true);
    let marked_at = timestamp(&notification.updated_at) + 60;
    let id = notification.id.clone();
    app.notification_overrides.insert(
        id.clone(),
        NotificationOverride {
            state: NotificationOverrideState::Suppress,
            marked_at,
        },
    );

    app.set_data(vec![notification], Vec::new());
    assert!(app.notifications.is_empty());
    assert!(app.notification_overrides.contains_key(&id));

    let mut updated = sample_notification(true);
    updated.updated_at = "2024-01-03T00:00:00Z".to_string();
    app.set_data(vec![updated.clone()], Vec::new());
    assert_eq!(app.notifications.len(), 1);
    assert!(app.notifications[0].unread);
    assert!(!app.notification_overrides.contains_key(&updated.id));
}

#[test]
fn sort_by_updated_at_sorts_descending() {
    let mut prs = vec![
        sample_my_pr_with_url(
            "https://github.com/acme/widgets/pull/1",
            "2024-01-01T00:00:00Z",
        ),
        sample_my_pr_with_url(
            "https://github.com/acme/widgets/pull/2",
            "2024-01-03T00:00:00Z",
        ),
    ];

    sort_by_updated_at(&mut prs);
    assert_eq!(prs[0].url, "https://github.com/acme/widgets/pull/2");
    assert_eq!(prs[1].url, "https://github.com/acme/widgets/pull/1");
}

#[test]
fn sort_keeps_order_of_equal_times() {
    let mut prs = vec![
        sample_my_pr_with_url("https://github.com/acme/widgets/pull/1", "not-a-date"),
        sample_my_pr_with_url(
            "https://github.com/acme/widgets/pull/2",
            "2024-01-02T00:00:00Z",
        ),
        sample_my_pr_with_url("https://github.com/acme/widgets/pull/3", "also-not-a-date"),
    ];
    sort_by_updated_at(&mut prs);
    assert_eq!(prs[0].url, "https://github.com/acme/widgets/pull/2");
    assert_eq!(prs[1].url, "https://github.com/acme/widgets/pull/1");
    assert_eq!(prs[2].url, "https://github.com/acme/widgets/pull/3");
}

#[test]
fn suppress_after_read_stays_suppress() {
    let mut state = None;
    record_override_state(&mut state, NotificationOverrideState::Read);
    assert_eq!(state, Some(NotificationOverrideState::Read));
    record_override_state(&mut state, NotificationOverrideState::Suppress);
    assert_eq!(state, Some(NotificationOverrideState::Suppress));
    record_override_state(&mut state, NotificationOverrideState::Read);
    assert_eq!(state, Some(NotificationOverrideState::Suppress));

    let mut app = AppState::new(true, IgnoreSet::new());
    app.notifications = vec![sample_notification(true)];
    let mut commands = HashMap::new();
    commands.insert(1, vec![Action::Read, Action::Done, Action::Open]);
    apply_optimistic_update(&mut app, &commands);
    let entry = app.notification_overrides.get("thread-1").expect("override");
    assert_eq!(entry.state, NotificationOverrideState::Suppress);
    assert!(app.notifications.is_empty());
}

#[test]
fn done_then_refresh_keeps_hidden_until_newer() {
    let mut app = AppState::new(true, IgnoreSet::new());
    app.notifications = vec![sample_notification(true)];
    let mut commands = HashMap::new();
    commands.insert(1, vec![Action::Done]);
    apply_optimistic_update(&mut app, &commands);
    assert!(app.notifications.is_empty());

    app.set_data(vec![sample_notification(true)], Vec::new());
    assert!(app.notifications.is_empty());
    assert!(app.notification_overrides.contains_key("thread-1"));

    let mut newer = sample_notification(true);
    newer.updated_at = "2999-01-01T00:00:00Z".to_string();
    app.set_data(vec![newer], Vec::new());
    assert_eq!(app.notifications.len(), 1);
    assert!(app.notifications[0].unread);
    assert!(!app.notification_overrides.contains_key("thread-1"));
}

#[test]
fn unread_done_end_to_end() {
    let notifications: Vec<Notification> = (1..=5)
        .map(|n| numbered_notification(n, n % 2 == 1))
        .collect();
    let pending = build_pending_map("u d", &notifications, &[]);
    let mut keys: Vec<usize> = pending.keys().copied().collect();
    keys.sort();
    assert_eq!(keys, vec![1, 3, 5]);
    for key in &keys {
        assert_eq!(pending.get(key), Some(&vec![Action::Done]));
    }

    let mut app = AppState::new(false, IgnoreSet::new());
    app.notifications = notifications;
    apply_optimistic_update(&mut app, &pending);
    assert_eq!(app.notifications.len(), 2);
    assert_eq!(app.notifications[0].id, "thread-2");
    assert_eq!(app.notifications[1].id, "thread-4");
}

#[test]
fn ignore_pull_request_end_to_end() {
    let my_prs = vec![sample_my_pr()];
    let pending = build_pending_map("1q", &[], &my_prs);
    assert_eq!(pending.get(&1), Some(&vec![Action::Unsubscribe]));

    let mut app = AppState::new(true, IgnoreSet::new());
    app.my_prs = my_prs;
    apply_optimistic_update(&mut app, &pending);
    assert!(app.my_prs.is_empty());
    assert!(app
        .ignored_prs
        .contains("https://github.com/acme/widgets/pull/100"));
}

#[test]
fn ledger_insert_get_remove() {
    let mut ledger = OverrideLedger::new();
    assert!(ledger.is_empty());
    let entry = NotificationOverride {
        state: NotificationOverrideState::Read,
        marked_at: 5,
    };
    ledger.insert("a".to_string(), entry);
    ledger.insert(
        "a".to_string(),
        NotificationOverride {
            state: NotificationOverrideState::Suppress,
            marked_at: 9,
        },
    );
    assert_eq!(ledger.get("a").map(|e| e.marked_at), Some(9));
    assert!(!ledger.contains_key("b"));
    ledger.remove("a");
    assert!(!ledger.contains_key("a"));
    let mut ignored = IgnoreSet::new();
    assert!(ignored.insert("u".to_string()));
    assert!(!ignored.insert("u".to_string()));
}
