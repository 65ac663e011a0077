use gh_triage::types::{Action, MergeMethod, MergeSettings, SubjectStatus};

#[test]
fn action_char_roundtrip() {
    let pairs = [
        ('o', Action::Open),
        ('y', Action::Yank),
        ('r', Action::Read),
        ('d', Action::Done),
        ('q', Action::Unsubscribe),
        ('p', Action::Review),
        ('b', Action::Branch),
    ];

    for (ch, action) in pairs {
        assert_eq!(Action::from_char(ch), Some(action));
        assert_eq!(action.as_char(), ch);
    }
    assert_eq!(Action::from_char('x'), None);
    assert_eq!(Action::from_char('s'), None);
    assert_eq!(Action::from_char('u'), None);
}

#[test]
fn merge_settings_prefers_default_when_allowed() {
    let settings = MergeSettings {
        default_method: Some(MergeMethod::Squash),
        merge_commit_allowed: true,
        squash_merge_allowed: true,
        rebase_merge_allowed: true,
        auto_merge_allowed: true,
    };

    assert_eq!(settings.default_or_fallback(), Some(MergeMethod::Squash));
}

#[test]
fn merge_settings_falls_back_when_default_disallowed() {
    let settings = MergeSettings {
        default_method: Some(MergeMethod::Rebase),
        merge_commit_allowed: false,
        squash_merge_allowed: true,
        rebase_merge_allowed: false,
        auto_merge_allowed: false,
    };

    assert_eq!(settings.default_or_fallback(), Some(MergeMethod::Squash));
}

#[test]
fn merge_settings_none_when_nothing_allowed() {
    let settings = MergeSettings {
        default_method: None,
        merge_commit_allowed: false,
        squash_merge_allowed: false,
        rebase_merge_allowed: false,
        auto_merge_allowed: true,
    };
    assert_eq!(settings.default_or_fallback(), None);
    assert!(!settings.is_allowed(MergeMethod::Merge));
}

#[test]
fn labels_and_graphql_names() {
    assert_eq!(SubjectStatus::Draft.label(), "Draft");
    assert_eq!(SubjectStatus::Merged.label(), "Merged");
    assert_eq!(SubjectStatus::Closed.label(), "Closed");
    assert_eq!(MergeMethod::Merge.as_graphql(), "MERGE");
    assert_eq!(MergeMethod::Squash.as_graphql(), "SQUASH");
    assert_eq!(MergeMethod::Rebase.as_graphql(), "REBASE");
}
