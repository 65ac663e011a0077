use std::collections::HashMap;
use std::path::PathBuf;

use gh_triage::exec::{
    aggregate_outcomes, clean_error_message, command_status, entry_for_index, is_api_action,
    plan_action, repo_dir_for_full_name, split_review_action, split_repo_name,
    summarize_error, EffectKind, EntrySnapshot, ExecSummary, PlanError, ReviewError,
    TaskOutcome,
};
use gh_triage::types::{Action, MyPullRequest, Notification, Repository, Subject};

fn sample_subject(url: &str) -> Subject {
    Subject {
        title: "Fix bug".to_string(),
        url: url.to_string(),
        kind: "PullRequest".to_string(),
        author: None,
        status: Vec::new(),
        ci_status: None,
        review_status: None,
        head_ref: None,
    }
}

fn sample_repository() -> Repository {
    Repository {
        name: "widgets".to_string(),
        full_name: "acme/widgets".to_string(),
        merge_settings: None,
    }
}

fn sample_notification(unread: bool) -> Notification {
    Notification {
        id: "thread-1".to_string(),
        node_id: "node-1".to_string(),
        subject_id: Some("subject-1".to_string()),
        unread,
        reason: "mention".to_string(),
        updated_at: "2024-01-01T00:00:00Z".to_string(),
        subject: sample_subject("https://github.com/acme/widgets/pull/42"),
        repository: sample_repository(),
        url: "https://github.com/acme/widgets/pull/42".to_string(),
    }
}

fn sample_my_pr() -> MyPullRequest {
    MyPullRequest {
        id: "pr-1".to_string(),
        updated_at: "2024-01-01T00:00:00Z".to_string(),
        subject: sample_subject("https://github.com/acme/widgets/pull/100"),
        repository: sample_repository(),
        url: "https://github.com/acme/widgets/pull/100".to_string(),
    }
}

fn effects(plan: Result<Vec<gh_triage::exec::Effect>, PlanError>) -> Vec<(EffectKind, String)> {
    plan.unwrap()
        .into_iter()
        .map(|e| (e.kind, e.target))
        .collect()
}

#[test]
fn command_status_success_message() {
    let result = ExecSummary {
        succeeded: 3,
        failed: 0,
        errors: Vec::new(),
        api_failed: false,
        refresh: false,
    };

    let (message, refresh, sticky) = command_status(&result);
    assert_eq!(message, "Executed 3 actions");
    assert!(!refresh);
    assert!(!sticky);
}

#[test]
fn command_status_refresh_on_success() {
    let result = ExecSummary {
        succeeded: 1,
        failed: 0,
        errors: Vec::new(),
        api_failed: false,
        refresh: true,
    };

    let (message, refresh, sticky) = command_status(&result);
    assert_eq!(message, "Executed 1 actions");
    assert!(refresh);
    assert!(!sticky);
}

#[test]
fn command_status_failure_includes_refresh() {
    let result = ExecSummary {
        succeeded: 1,
        failed: 2,
        errors: vec!["boom".to_string()],
        api_failed: true,
        refresh: false,
    };

    let (message, refresh, sticky) = command_status(&result);
    assert_eq!(message, "boom");
    assert!(refresh);
    assert!(sticky);
}

#[test]
fn command_status_counts_large_numbers() {
    let result = ExecSummary {
        succeeded: 1204,
        failed: 0,
        errors: Vec::new(),
        api_failed: false,
        refresh: false,
    };
    assert_eq!(command_status(&result).0, "Executed 1204 actions");
    let failed = ExecSummary {
        succeeded: 0,
        failed: 1,
        errors: Vec::new(),
        api_failed: false,
        refresh: false,
    };
    assert_eq!(command_status(&failed), ("unknown".to_string(), false, true));
}

#[test]
fn open_is_api_action() {
    assert!(is_api_action(Action::Open));
}

#[test]
fn yank_is_not_api_action() {
    assert!(!is_api_action(Action::Yank));
}

#[test]
fn review_is_not_api_action() {
    assert!(!is_api_action(Action::Review));
}

#[test]
fn repo_dir_for_full_name_builds_path() {
    let base = PathBuf::from("/tmp/base");
    let path = repo_dir_for_full_name(&base, "acme/widgets").unwrap();
    assert_eq!(path, base.join("acme").join("widgets"));
}

#[test]
fn repo_dir_for_full_name_rejects_invalid() {
    let base = PathBuf::from("/tmp/base");
    assert!(repo_dir_for_full_name(&base, "acme").is_err());
    assert!(repo_dir_for_full_name(&base, "acme/widgets/extra").is_err());
}

#[test]
fn split_repo_name_trims_parts() {
    assert_eq!(
        split_repo_name(" acme / widgets "),
        Some(("acme".to_string(), "widgets".to_string()))
    );
    assert_eq!(split_repo_name("acme/ "), None);
    assert_eq!(split_repo_name("/widgets"), None);
}

#[test]
fn clean_error_message_strips_prefixes() {
    let message = "failed to fetch notifications: GraphQL error: GitHub API error: boom";
    assert_eq!(clean_error_message(message), "boom");
}

#[test]
fn clean_error_message_keeps_other_text() {
    assert_eq!(clean_error_message("  plain failure \n"), "plain failure");
    assert_eq!(
        clean_error_message("GitHub API error:   GraphQL error: x"),
        "x"
    );
    assert_eq!(clean_error_message("error: GraphQL error: x"), "error: GraphQL error: x");
    assert_eq!(summarize_error("GraphQL error: ", "whole"), "GraphQL error:");
    assert_eq!(summarize_error(" \t ", "whole"), "whole");
    assert_eq!(summarize_error("GitHub API error: GraphQL error:  ", "whole"), "GraphQL error:");
    assert_eq!(summarize_error("GraphQL error: why", "whole"), "why");
}

#[test]
fn entry_for_index_maps_notifications_and_prs() {
    let notifications = vec![sample_notification(true), sample_notification(false)];
    let my_prs = vec![sample_my_pr()];

    assert!(matches!(
        entry_for_index(1, &notifications, &my_prs),
        Some(EntrySnapshot::Notification(_))
    ));
    assert!(matches!(
        entry_for_index(3, &notifications, &my_prs),
        Some(EntrySnapshot::MyPullRequest(_))
    ));
    assert!(entry_for_index(0, &notifications, &my_prs).is_none());
    assert!(entry_for_index(4, &notifications, &my_prs).is_none());
}

#[test]
fn unsubscribe_on_pull_request_only_ignores_it() {
    let pr = sample_my_pr();
    let entry = EntrySnapshot::MyPullRequest(&pr);
    assert_eq!(
        effects(plan_action(Action::Unsubscribe, &entry)),
        vec![(
            EffectKind::IgnorePullRequest,
            "https://github.com/acme/widgets/pull/100".to_string()
        )]
    );
    assert!(effects(plan_action(Action::Read, &entry)).is_empty());
    assert!(effects(plan_action(Action::Done, &entry)).is_empty());
}

#[test]
fn plans_remote_work_for_notifications() {
    let unread = sample_notification(true);
    let entry = EntrySnapshot::Notification(&unread);
    assert_eq!(
        effects(plan_action(Action::Open, &entry)),
        vec![
            (
                EffectKind::OpenUrl,
                "https://github.com/acme/widgets/pull/42".to_string()
            ),
            (EffectKind::MarkRead, "node-1".to_string()),
        ]
    );
    assert_eq!(
        effects(plan_action(Action::Unsubscribe, &entry)),
        vec![
            (EffectKind::Unsubscribe, "subject-1".to_string()),
            (EffectKind::MarkDone, "node-1".to_string()),
        ]
    );
    assert!(matches!(
        plan_action(Action::Review, &entry),
        Err(PlanError::ReviewOutsideUi)
    ));
    let read = sample_notification(false);
    let entry = EntrySnapshot::Notification(&read);
    assert_eq!(effects(plan_action(Action::Open, &entry)).len(), 1);
}

#[test]
fn aggregate_counts_and_dedupes_errors() {
    let outcomes = vec![
        TaskOutcome::Succeeded { refresh: false },
        TaskOutcome::Failed {
            action: Action::Yank,
            message: "clipboard".to_string(),
        },
        TaskOutcome::Failed {
            action: Action::Yank,
            message: "clipboard".to_string(),
        },
        TaskOutcome::Succeeded { refresh: true },
    ];
    let summary = aggregate_outcomes(&outcomes);
    assert_eq!(summary.succeeded, 2);
    assert_eq!(summary.failed, 2);
    assert_eq!(summary.errors, vec!["clipboard".to_string()]);
    assert!(!summary.api_failed);
    assert!(summary.refresh);

    let outcomes = vec![
        TaskOutcome::Failed {
            action: Action::Done,
            message: "boom".to_string(),
        },
        TaskOutcome::Aborted {
            message: "panicked".to_string(),
        },
    ];
    let summary = aggregate_outcomes(&outcomes);
    assert_eq!(summary.failed, 2);
    assert!(summary.api_failed);
    assert_eq!(summary.errors, vec!["boom".to_string(), "panicked".to_string()]);
}

#[test]
fn split_review_action_separates_review() {
    let notifications = vec![sample_notification(true)];
    let my_prs = vec![sample_my_pr()];
    let mut commands = HashMap::new();
    commands.insert(1, vec![Action::Review, Action::Open]);
    commands.insert(2, vec![Action::Yank]);
    let (review, rest) = split_review_action(&commands, &notifications, &my_prs).unwrap();
    let review = review.expect("review");
    assert_eq!(review.pr_url, "https://github.com/acme/widgets/pull/42");
    assert_eq!(review.repo_full_name, "acme/widgets");
    assert_eq!(rest.get(&1), Some(&vec![Action::Open]));
    assert_eq!(rest.get(&2), Some(&vec![Action::Yank]));

    commands.insert(2, vec![Action::Review]);
    assert!(matches!(
        split_review_action(&commands, &notifications, &my_prs),
        Err(ReviewError::MultipleTargets)
    ));

    let mut outside = HashMap::new();
    outside.insert(7, vec![Action::Review]);
    outside.insert(9, vec![Action::Open]);
    assert!(matches!(
        split_review_action(&outside, &notifications, &my_prs),
        Err(ReviewError::OutOfRange)
    ));
    let mut kept = HashMap::new();
    kept.insert(9, vec![Action::Open]);
    let (review, rest) = split_review_action(&kept, &notifications, &my_prs)
        .unwrap_or_else(|_| panic!("split"));
    assert!(review.is_none());
    assert_eq!(rest.get(&9), Some(&vec![Action::Open]));

    let mut issue = sample_notification(true);
    issue.subject.url = "https://github.com/acme/widgets/issues/9".to_string();
    let mut only = HashMap::new();
    only.insert(1, vec![Action::Review]);
    assert!(matches!(
        split_review_action(&only, &[issue], &[]),
        Err(ReviewError::NotPullRequest)
    ));
}
