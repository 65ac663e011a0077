use gh_triage::layout::{
    build_status_lines, layout_widths, pad_left, pad_right, render_repo_and_author,
    repo_label_width, select_legend_lines, status_prefix_len, truncate_with_suffix,
    COMMANDS_FULL, TARGETS_FULL,
};
use gh_triage::types::{Subject, SubjectStatus};

#[test]
fn truncate_with_suffix_respects_max() {
    assert_eq!(truncate_with_suffix("short", 10), "short");
    assert_eq!(truncate_with_suffix("1234567890", 2), "12");
    assert_eq!(
        truncate_with_suffix("this is a long title", 10),
        "this is.."
    );
}

#[test]
fn truncate_without_space_cuts_hard() {
    assert_eq!(truncate_with_suffix("abcdefghij", 6), "abcd..");
    assert_eq!(truncate_with_suffix("ab cdefghij", 8), "ab cde..");
    assert_eq!(truncate_with_suffix("anything", 0), "");
}

#[test]
fn render_repo_and_author_shows_author_when_space_allows() {
    let (repo, author, used) = render_repo_and_author("acme/widgets", Some("octocat"), 32);

    assert_eq!(repo, "acme/widgets");
    assert_eq!(author.as_deref(), Some("octocat"));
    assert_eq!(used, "acme/widgets · octocat".chars().count());
}

#[test]
fn render_repo_and_author_hides_author_when_too_narrow() {
    let (repo, author, used) = render_repo_and_author("acme/widgets", Some("octocat"), 6);

    assert_eq!(repo, "acme..");
    assert_eq!(author, None);
    assert_eq!(used, 6);
}

#[test]
fn repo_label_width_counts_author() {
    assert_eq!(repo_label_width("acme/widgets", Some(" octocat ")), 22);
    assert_eq!(repo_label_width("acme/widgets", Some("   ")), 12);
    assert_eq!(repo_label_width("acme/widgets", None), 12);
}

#[test]
fn layout_widths_fit_in_area() {
    let widths = layout_widths(40, 12, 26, 11, 3, 1, 1);
    let used = widths.prefix + widths.title;
    assert!(used <= 40);
    assert!(widths.title <= 40);
    assert!(widths.index >= 2);
    assert!(widths.kind >= 1);
    assert!(widths.time >= 1);
}

#[test]
fn layout_widths_exact_columns() {
    let widths = layout_widths(40, 12, 26, 11, 3, 1, 1);
    assert_eq!(widths.index, 2);
    assert_eq!(widths.prefix, 7);
    assert_eq!(widths.title, 26);
    assert_eq!(widths.kind, 11);
    assert_eq!(widths.time, 3);
    assert_eq!(widths.repo, 26 - (11 + 1 + 3 + 1 + 1 + 1 + 1) - 2);
    let wide = layout_widths(200, 1234, 10, 20, 9, 0, 0);
    assert_eq!(wide.index, 4);
    assert_eq!(wide.title, 10);
    assert_eq!(wide.repo_meta_gap, 1);
    assert_eq!(wide.kind, 2);
    assert_eq!(wide.time, 6);
    assert_eq!(wide.repo, 1);
}

#[test]
fn status_lines_fit_widths() {
    for width in [20u16, 40, 80, 120] {
        let lines = build_status_lines(width, None);
        assert!(!lines.is_empty());
        for line in lines {
            assert!(line.chars().count() <= width as usize);
        }
    }
}

#[test]
fn status_lines_append_status_when_space_allows() {
    let status = "Executed 3 actions";
    let lines = build_status_lines(400, Some(status));
    assert!(lines.len() >= 2);
    assert_eq!(lines[0], status);
}

#[test]
fn status_lines_truncate_status_when_too_long() {
    let status = "Executed 123 actions with a very long error summary";
    let width = 20u16;
    let lines = build_status_lines(width, Some(status));
    let first = lines.first().expect("status line");
    assert!(first.chars().count() <= width as usize);
    assert!(first.starts_with("Executed"));
}

#[test]
fn legend_includes_ignore_label() {
    let lines = build_status_lines(200, None);
    let joined = lines.join(" ");
    assert!(joined.contains("unsub/ignore"));
}

#[test]
fn select_legend_lines_prefers_full_when_width_allows() {
    let combined = format!("{}  |  {}", COMMANDS_FULL, TARGETS_FULL);
    let width = combined.chars().count();
    let lines = select_legend_lines(width);
    assert_eq!(lines, vec![combined]);
}

#[test]
fn legend_splits_then_truncates() {
    let width = COMMANDS_FULL.chars().count().max(TARGETS_FULL.chars().count());
    let lines = select_legend_lines(width);
    assert_eq!(lines, vec![COMMANDS_FULL.to_string(), TARGETS_FULL.to_string()]);
    let lines = select_legend_lines(5);
    assert_eq!(lines.len(), 2);
    assert!(lines.iter().all(|l| l.chars().count() <= 5));
}

#[test]
fn padding_and_prefix_width() {
    assert_eq!(pad_left("7", 3), "  7");
    assert_eq!(pad_right("ab", 4), "ab  ");
    assert_eq!(pad_right("abcdef", 4), "abcdef");
    let subject = Subject {
        title: "Draft closed PR".to_string(),
        url: "https://github.com/acme/widgets/pull/2".to_string(),
        kind: "PullRequest".to_string(),
        author: None,
        status: vec![SubjectStatus::Closed, SubjectStatus::Draft],
        ci_status: None,
        review_status: None,
        head_ref: None,
    };
    assert_eq!(status_prefix_len(&subject), "[Draft] [Closed] ".chars().count());
}
