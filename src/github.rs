use vstd::prelude::*;

use crate::text::{chars_of, contains_seq, contains_text, push_str, string_from_chars};
use crate::types::{
    CiStatus, GraphQlError, MergeMethod, MergeSettings, MyPullRequest, Notification, Repository,
    ReviewStatus, Subject, SubjectStatus,
};

verus! {

/// `s` cut at every `c`: the pieces between the separators, in order (one
/// empty piece for the empty text).
pub open spec fn split_on(s: Seq<char>, c: char) -> Seq<Seq<char>>
    decreases s.len(),
{
    if s.len() == 0 {
        seq![seq![]]
    } else {
        let prev = split_on(s.drop_last(), c);
        if s.last() == c {
            prev.push(seq![])
        } else {
            prev.update(prev.len() - 1, prev.last().push(s.last()))
        }
    }
}

proof fn lemma_split_on_nonempty(s: Seq<char>, c: char)
    ensures
        split_on(s, c).len() >= 1,
    decreases s.len(),
{
    if s.len() > 0 {
        lemma_split_on_nonempty(s.drop_last(), c);
    }
}

pub open spec fn pieces_view(v: Seq<Vec<char>>) -> Seq<Seq<char>> {
    v.map_values(|p: Vec<char>| p@)
}

fn split_slashes(s: &Vec<char>) -> (r: Vec<Vec<char>>)
    ensures
        pieces_view(r@) == split_on(s@, '/'),
{
    let mut parts: Vec<Vec<char>> = Vec::new();
    let mut current: Vec<char> = Vec::new();
    let mut i: usize = 0;
    assert(s@.take(0) =~= Seq::<char>::empty());
    assert(pieces_view(parts@).push(current@) =~= split_on(s@.take(0), '/'));
    while i < s.len()
        invariant
            i <= s.len(),
            pieces_view(parts@).push(current@) == split_on(s@.take(i as int), '/'),
        decreases s.len() - i,
    {
        proof {
            assert(s@.take(i + 1).drop_last() =~= s@.take(i as int));
            assert(s@.take(i + 1).last() == s@[i as int]);
        }
        let ghost before = pieces_view(parts@);
        let ghost cur = current@;
        if s[i] == '/' {
            let mut finished: Vec<char> = Vec::new();
            std::mem::swap(&mut finished, &mut current);
            parts.push(finished);
            proof {
                assert(pieces_view(parts@) =~= before.push(cur));
                assert(pieces_view(parts@).push(current@) =~= before.push(cur).push(seq![]));
            }
        } else {
            current.push(s[i]);
            proof {
                assert(pieces_view(parts@).push(current@) =~= before.push(cur).update(
                    before.len() as int,
                    cur.push(s@[i as int]),
                ));
            }
        }
        i = i + 1;
    }
    let ghost before = pieces_view(parts@);
    let ghost cur = current@;
    parts.push(current);
    assert(pieces_view(parts@) =~= before.push(cur));
    assert(s@.take(i as int) =~= s@);
    parts
}

/// Position of the first piece equal to `p`; -1 when there is none.
pub open spec fn first_piece(parts: Seq<Seq<char>>, p: Seq<char>) -> int
    decreases parts.len(),
{
    if parts.len() == 0 {
        -1
    } else {
        let prev = first_piece(parts.drop_last(), p);
        if prev >= 0 {
            prev
        } else if parts.last() == p {
            parts.len() - 1
        } else {
            -1
        }
    }
}

/// The `owner/repo` that a github.com URL names: the two path pieces after
/// the host, or `unknown/unknown`.
pub open spec fn repo_from_url(url: Seq<char>) -> Seq<char> {
    let parts = split_on(url, '/');
    let i = first_piece(parts, "github.com"@);
    if i >= 0 && i + 2 < parts.len() {
        parts[i + 1] + "/"@ + parts[i + 2]
    } else {
        "unknown/unknown"@
    }
}

fn same_chars(a: &Vec<char>, b: &str) -> (r: bool)
    ensures
        r == (a@ == b@),
{
    let bc = chars_of(b);
    if a.len() != bc.len() {
        return false;
    }
    let mut i: usize = 0;
    while i < a.len()
        invariant
            i <= a.len(),
            a.len() == bc.len(),
            bc@ == b@,
            forall|j: int| 0 <= j < i ==> a@[j] == bc@[j],
        decreases a.len() - i,
    {
        if a[i] != bc[i] {
            return false;
        }
        i = i + 1;
    }
    assert(a@ =~= bc@);
    true
}

pub fn parse_repo_from_url(url: &str) -> (r: String)
    ensures
        r@ == repo_from_url(url@),
{
    let parts = split_slashes(&chars_of(url));
    let ghost pv = pieces_view(parts@);
    let mut idx: Option<usize> = None;
    let mut i: usize = 0;
    assert(pv.take(0) =~= Seq::<Seq<char>>::empty());
    while i < parts.len()
        invariant_except_break
            idx is None,
        invariant
            i <= parts.len(),
            pv == pieces_view(parts@),
            idx is None ==> first_piece(pv.take(i as int), "github.com"@) == -1,
        ensures
            idx is None ==> i == parts.len() && first_piece(pv.take(i as int), "github.com"@) == -1,
            idx is Some ==> first_piece(pv, "github.com"@) == idx->0 as int && idx->0 < parts.len(),
        decreases parts.len() - i,
    {
        proof {
            assert(pv.take(i + 1).drop_last() =~= pv.take(i as int));
            assert(pv.take(i + 1).last() == parts@[i as int]@);
        }
        if same_chars(&parts[i], "github.com") {
            proof {
                assert(first_piece(pv.take(i + 1), "github.com"@) == i);
                lemma_first_piece_prefix(pv, i + 1, "github.com"@);
            }
            idx = Some(i);
            break;
        }
        i = i + 1;
    }
    proof {
        if idx is None {
            assert(pv.take(i as int) =~= pv);
        }
    }
    if let Some(i) = idx {
        if parts.len() >= 2 && i < parts.len() - 2 {
            let mut out: Vec<char> = Vec::new();
            let mut k: usize = 0;
            while k < parts[i + 1].len()
                invariant
                    i + 2 < parts.len(),
                    k <= parts@[i + 1]@.len(),
                    out@ == parts@[i + 1]@.take(k as int),
                decreases parts@[i + 1]@.len() - k,
            {
                out.push(parts[i + 1][k]);
                proof {
                    assert(parts@[i + 1]@.take(k + 1) =~= parts@[i + 1]@.take(k as int).push(
                        parts@[i + 1]@[k as int],
                    ));
                }
                k = k + 1;
            }
            assert(parts@[i + 1]@.take(k as int) =~= parts@[i + 1]@);
            push_str(&mut out, "/");
            let ghost with_slash = out@;
            let mut k: usize = 0;
            while k < parts[i + 2].len()
                invariant
                    i + 2 < parts.len(),
                    k <= parts@[i + 2]@.len(),
                    out@ == with_slash + parts@[i + 2]@.take(k as int),
                decreases parts@[i + 2]@.len() - k,
            {
                out.push(parts[i + 2][k]);
                proof {
                    assert(with_slash + parts@[i + 2]@.take(k + 1) =~= (with_slash + parts@[i
                        + 2]@.take(k as int)).push(parts@[i + 2]@[k as int]));
                }
                k = k + 1;
            }
            assert(parts@[i + 2]@.take(k as int) =~= parts@[i + 2]@);
            assert(out@ =~= pv[i + 1] + "/"@ + pv[i + 2]);
            return string_from_chars(&out);
        }
    }
    "unknown/unknown".to_owned()
}

proof fn lemma_first_piece_prefix(parts: Seq<Seq<char>>, k: int, p: Seq<char>)
    requires
        0 <= k <= parts.len(),
        first_piece(parts.take(k), p) >= 0,
    ensures
        first_piece(parts, p) == first_piece(parts.take(k), p),
    decreases parts.len() - k,
{
    if k < parts.len() {
        assert(parts.take(k + 1).drop_last() =~= parts.take(k));
        lemma_first_piece_prefix(parts, k + 1, p);
    } else {
        assert(parts.take(k) =~= parts);
    }
}

/// The subject kind that a notification URL implies.
pub open spec fn subject_type_of(url: Seq<char>) -> Seq<char> {
    if contains_seq(url, "/pull/"@) {
        "PullRequest"@
    } else if contains_seq(url, "/issues/"@) {
        "Issue"@
    } else if contains_seq(url, "/commit/"@) {
        "Commit"@
    } else if contains_seq(url, "/releases/"@) {
        "Release"@
    } else if contains_seq(url, "/discussions/"@) {
        "Discussion"@
    } else {
        "Unknown"@
    }
}

pub fn parse_subject_type(url: &str) -> (r: String)
    ensures
        r@ == subject_type_of(url@),
{
    if contains_text(url, "/pull/") {
        "PullRequest".to_owned()
    } else if contains_text(url, "/issues/") {
        "Issue".to_owned()
    } else if contains_text(url, "/commit/") {
        "Commit".to_owned()
    } else if contains_text(url, "/releases/") {
        "Release".to_owned()
    } else if contains_text(url, "/discussions/") {
        "Discussion".to_owned()
    } else {
        "Unknown".to_owned()
    }
}


pub open spec fn is_ascii_upper(c: char) -> bool {
    'A' <= c <= 'Z'
}

/// Two characters equal up to ASCII case.
pub open spec fn ascii_char_eq(a: char, b: char) -> bool {
    a == b || (is_ascii_upper(a) && b as int == a as int + 32) || (is_ascii_upper(b) && a as int
        == b as int + 32)
}

/// `str::eq_ignore_ascii_case`.
pub open spec fn ascii_case_eq(a: Seq<char>, b: Seq<char>) -> bool {
    a.len() == b.len() && forall|i: int| 0 <= i < a.len() ==> ascii_char_eq(#[trigger] a[i], b[i])
}

pub fn eq_ignore_ascii_case(a: &str, b: &str) -> (r: bool)
    ensures
        r == ascii_case_eq(a@, b@),
{
    let ac = chars_of(a);
    let bc = chars_of(b);
    if ac.len() != bc.len() {
        return false;
    }
    let mut i: usize = 0;
    while i < ac.len()
        invariant
            i <= ac.len(),
            ac.len() == bc.len(),
            ac@ == a@,
            bc@ == b@,
            forall|j: int| 0 <= j < i ==> ascii_char_eq(#[trigger] a@[j], b@[j]),
        decreases ac.len() - i,
    {
        let x = ac[i];
        let y = bc[i];
        assert(x == a@[i as int] && y == b@[i as int]);
        let same = x == y || ('A' <= x && x <= 'Z' && 'a' <= y && y <= 'z' && (y as u32) == (x
            as u32) + 32) || ('A' <= y && y <= 'Z' && 'a' <= x && x <= 'z' && (x as u32) == (y
            as u32) + 32);
        if !same {
            return false;
        }
        i = i + 1;
    }
    true
}

pub open spec fn opt_view(o: Option<String>) -> Option<Seq<char>> {
    match o {
        Some(s) => Some(s@),
        None => None,
    }
}

pub struct GraphQlStatusCheckRollup {
    pub state: Option<String>,
}

pub struct GraphQlCommit {
    pub status_check_rollup: Option<GraphQlStatusCheckRollup>,
}

pub struct GraphQlPullRequestCommit {
    pub commit: Option<GraphQlCommit>,
}

pub struct GraphQlPullRequestCommits {
    pub nodes: Vec<GraphQlPullRequestCommit>,
}

pub struct GraphQlRepository {
    pub name: String,
    pub name_with_owner: String,
    pub is_archived: bool,
    pub merge_commit_allowed: Option<bool>,
    pub squash_merge_allowed: Option<bool>,
    pub rebase_merge_allowed: Option<bool>,
    pub auto_merge_allowed: Option<bool>,
    pub viewer_default_merge_method: Option<MergeMethod>,
}

pub struct GraphQlSubject {
    pub id: Option<String>,
    pub state: Option<String>,
    pub is_draft: Option<bool>,
    pub review_decision: Option<String>,
    pub commits: Option<GraphQlPullRequestCommits>,
    pub repository: Option<GraphQlRepository>,
}

pub struct GraphQlNotification {
    pub id: String,
    pub thread_id: String,
    pub title: String,
    pub url: String,
    pub is_unread: bool,
    pub last_updated_at: String,
    pub reason: Option<String>,
    pub optional_subject: Option<GraphQlSubject>,
}

pub struct GraphQlPullRequest {
    pub id: String,
    pub title: String,
    pub url: String,
    pub updated_at: String,
    pub is_draft: bool,
    pub review_decision: Option<String>,
    pub repository: GraphQlRepository,
    pub commits: Option<GraphQlPullRequestCommits>,
}

/// The notifications of one refresh, with the login of the viewer they
/// belong to.
pub struct NotificationsPayload {
    pub notifications: Vec<Notification>,
    pub viewer_login: String,
}

/// The CI rollup state of the last commit, if reported.
pub open spec fn rollup_state(commits: Option<GraphQlPullRequestCommits>) -> Option<Seq<char>> {
    match commits {
        Some(c) => if c.nodes@.len() > 0 {
            match c.nodes@.last().commit {
                Some(commit) => match commit.status_check_rollup {
                    Some(rollup) => opt_view(rollup.state),
                    None => None,
                },
                None => None,
            }
        } else {
            None
        },
        None => None,
    }
}

fn last_commit_state(commits: &Option<GraphQlPullRequestCommits>) -> (r: Option<&str>)
    ensures
        match r {
            Some(s) => rollup_state(*commits) == Some(s@),
            None => rollup_state(*commits) is None,
        },
{
    match commits {
        Some(c) => {
            if c.nodes.len() == 0 {
                return None;
            }
            match &c.nodes[c.nodes.len() - 1].commit {
                Some(commit) => match &commit.status_check_rollup {
                    Some(rollup) => match &rollup.state {
                        Some(state) => Some(state.as_str()),
                        None => None,
                    },
                    None => None,
                },
                None => None,
            }
        },
        None => None,
    }
}

/// The CI status that a rollup state names.
pub open spec fn ci_status_of(state: Option<Seq<char>>) -> Option<CiStatus> {
    match state {
        Some(v) => if ascii_case_eq(v, "SUCCESS"@) || ascii_case_eq(v, "NEUTRAL"@) || ascii_case_eq(
            v,
            "SKIPPED"@,
        ) {
            Some(CiStatus::Success)
        } else if ascii_case_eq(v, "PENDING"@) || ascii_case_eq(v, "EXPECTED"@) {
            Some(CiStatus::Pending)
        } else if ascii_case_eq(v, "FAILURE"@) || ascii_case_eq(v, "ERROR"@) || ascii_case_eq(
            v,
            "CANCELLED"@,
        ) || ascii_case_eq(v, "TIMED_OUT"@) {
            Some(CiStatus::Failure)
        } else {
            None
        },
        None => None,
    }
}

pub fn map_ci_status(state: Option<&str>) -> (r: Option<CiStatus>)
    ensures
        r == ci_status_of(
            match state {
                Some(v) => Some(v@),
                None => None,
            },
        ),
{
    match state {
        Some(v) => {
            if eq_ignore_ascii_case(v, "SUCCESS") || eq_ignore_ascii_case(v, "NEUTRAL")
                || eq_ignore_ascii_case(v, "SKIPPED") {
                Some(CiStatus::Success)
            } else if eq_ignore_ascii_case(v, "PENDING") || eq_ignore_ascii_case(v, "EXPECTED") {
                Some(CiStatus::Pending)
            } else if eq_ignore_ascii_case(v, "FAILURE") || eq_ignore_ascii_case(v, "ERROR")
                || eq_ignore_ascii_case(v, "CANCELLED") || eq_ignore_ascii_case(v, "TIMED_OUT") {
                Some(CiStatus::Failure)
            } else {
                None
            }
        },
        None => None,
    }
}

/// The review status that a review decision names.
pub open spec fn review_status_of(decision: Option<Seq<char>>) -> Option<ReviewStatus> {
    match decision {
        Some(v) => if ascii_case_eq(v, "APPROVED"@) {
            Some(ReviewStatus::Approved)
        } else if ascii_case_eq(v, "CHANGES_REQUESTED"@) {
            Some(ReviewStatus::ChangesRequested)
        } else if ascii_case_eq(v, "REVIEW_REQUIRED"@) {
            Some(ReviewStatus::ReviewRequired)
        } else {
            None
        },
        None => None,
    }
}

pub fn map_review_status(review_decision: Option<&str>) -> (r: Option<ReviewStatus>)
    ensures
        r == review_status_of(
            match review_decision {
                Some(v) => Some(v@),
                None => None,
            },
        ),
{
    match review_decision {
        Some(v) => {
            if eq_ignore_ascii_case(v, "APPROVED") {
                Some(ReviewStatus::Approved)
            } else if eq_ignore_ascii_case(v, "CHANGES_REQUESTED") {
                Some(ReviewStatus::ChangesRequested)
            } else if eq_ignore_ascii_case(v, "REVIEW_REQUIRED") {
                Some(ReviewStatus::ReviewRequired)
            } else {
                None
            }
        },
        None => None,
    }
}

fn as_opt_str(o: &Option<String>) -> (r: Option<&str>)
    ensures
        match r {
            Some(s) => opt_view(*o) == Some(s@),
            None => o is None,
        },
{
    match o {
        Some(s) => Some(s.as_str()),
        None => None,
    }
}

pub open spec fn state_is(subject: GraphQlSubject, name: Seq<char>) -> bool {
    match subject.state {
        Some(s) => ascii_case_eq(s@, name),
        None => false,
    }
}

/// Draft, merged and closed flags of a subject: pull requests report draft
/// and a merged or closed state, issues only a closed state.
pub open spec fn statuses_of(kind: Seq<char>, subject: Option<GraphQlSubject>) -> Seq<SubjectStatus> {
    match subject {
        None => seq![],
        Some(s) => if ascii_case_eq(kind, "pullrequest"@) {
            let draft: Seq<SubjectStatus> = if s.is_draft == Some(true) {
                seq![SubjectStatus::Draft]
            } else {
                seq![]
            };
            if state_is(s, "MERGED"@) {
                draft.push(SubjectStatus::Merged)
            } else if state_is(s, "CLOSED"@) {
                draft.push(SubjectStatus::Closed)
            } else {
                draft
            }
        } else if ascii_case_eq(kind, "issue"@) && state_is(s, "CLOSED"@) {
            seq![SubjectStatus::Closed]
        } else {
            seq![]
        },
    }
}

fn state_matches(subject: &GraphQlSubject, name: &str) -> (r: bool)
    ensures
        r == state_is(*subject, name@),
{
    match &subject.state {
        Some(s) => eq_ignore_ascii_case(s.as_str(), name),
        None => false,
    }
}

pub fn subject_statuses(kind: &str, subject: Option<&GraphQlSubject>) -> (r: Vec<SubjectStatus>)
    ensures
        r@ == statuses_of(
            kind@,
            match subject {
                Some(s) => Some(*s),
                None => None,
            },
        ),
{
    let mut statuses: Vec<SubjectStatus> = Vec::new();
    let subject = match subject {
        Some(s) => s,
        None => {
            return statuses;
        },
    };
    if eq_ignore_ascii_case(kind, "pullrequest") {
        if subject.is_draft == Some(true) {
            statuses.push(SubjectStatus::Draft);
        }
        if state_matches(subject, "MERGED") {
            statuses.push(SubjectStatus::Merged);
        } else if state_matches(subject, "CLOSED") {
            statuses.push(SubjectStatus::Closed);
        }
        assert(statuses@ =~= statuses_of(kind@, Some(*subject)));
    } else if eq_ignore_ascii_case(kind, "issue") {
        if state_matches(subject, "CLOSED") {
            statuses.push(SubjectStatus::Closed);
        }
        assert(statuses@ =~= statuses_of(kind@, Some(*subject)));
    }
    statuses
}

pub fn subject_ci_status(kind: &str, subject: Option<&GraphQlSubject>) -> (r: Option<CiStatus>)
    ensures
        r == match subject {
            Some(s) => if ascii_case_eq(kind@, "pullrequest"@) {
                ci_status_of(rollup_state(s.commits))
            } else {
                None
            },
            None => None,
        },
{
    let subject = match subject {
        Some(s) => s,
        None => {
            return None;
        },
    };
    if !eq_ignore_ascii_case(kind, "pullrequest") {
        return None;
    }
    map_ci_status(last_commit_state(&subject.commits))
}

pub fn subject_review_status(kind: &str, subject: Option<&GraphQlSubject>) -> (r: Option<
    ReviewStatus,
>)
    ensures
        r == match subject {
            Some(s) => if ascii_case_eq(kind@, "pullrequest"@) {
                review_status_of(opt_view(s.review_decision))
            } else {
                None
            },
            None => None,
        },
{
    let subject = match subject {
        Some(s) => s,
        None => {
            return None;
        },
    };
    if !eq_ignore_ascii_case(kind, "pullrequest") {
        return None;
    }
    map_review_status(as_opt_str(&subject.review_decision))
}

pub open spec fn settings_of(repo: GraphQlRepository) -> MergeSettings {
    MergeSettings {
        default_method: repo.viewer_default_merge_method,
        merge_commit_allowed: repo.merge_commit_allowed == Some(true),
        squash_merge_allowed: repo.squash_merge_allowed == Some(true),
        rebase_merge_allowed: repo.rebase_merge_allowed == Some(true),
        auto_merge_allowed: repo.auto_merge_allowed == Some(true),
    }
}

pub fn merge_settings_from_repo(repo: &GraphQlRepository) -> (r: MergeSettings)
    ensures
        r == settings_of(*repo),
{
    MergeSettings {
        default_method: repo.viewer_default_merge_method,
        merge_commit_allowed: repo.merge_commit_allowed == Some(true),
        squash_merge_allowed: repo.squash_merge_allowed == Some(true),
        rebase_merge_allowed: repo.rebase_merge_allowed == Some(true),
        auto_merge_allowed: repo.auto_merge_allowed == Some(true),
    }
}


/// The repository name of an `owner/repo` text: the piece after the first
/// slash, or nothing.
pub open spec fn name_after_owner(full: Seq<char>) -> Seq<char> {
    if split_on(full, '/').len() > 1 {
        split_on(full, '/')[1]
    } else {
        seq![]
    }
}

fn second_piece(full: &str) -> (r: String)
    ensures
        r@ == name_after_owner(full@),
{
    let parts = split_slashes(&chars_of(full));
    if parts.len() > 1 {
        string_from_chars(&parts[1])
    } else {
        String::new()
    }
}

fn clone_opt(o: &Option<String>) -> (r: Option<String>)
    ensures
        opt_view(r) == opt_view(*o),
{
    match o {
        Some(s) => Some(s.clone()),
        None => None,
    }
}

/// The notification that a wire-format notification thread describes.
pub fn transform_notification(gql: GraphQlNotification) -> (r: Notification)
    ensures
        r.id@ == gql.thread_id@,
        r.node_id@ == gql.id@,
        opt_view(r.subject_id) == match gql.optional_subject {
            Some(s) => opt_view(s.id),
            None => None,
        },
        r.unread == gql.is_unread,
        r.reason@ == match gql.reason {
            Some(x) => x@,
            None => "subscribed"@,
        },
        r.updated_at@ == gql.last_updated_at@,
        r.url@ == gql.url@,
        r.subject.title@ == gql.title@,
        r.subject.url@ == gql.url@,
        r.subject.kind@ == subject_type_of(gql.url@),
        r.subject.author is None,
        r.subject.head_ref is None,
        r.subject.status@ == statuses_of(subject_type_of(gql.url@), gql.optional_subject),
        r.subject.ci_status == match gql.optional_subject {
            Some(s) => if ascii_case_eq(subject_type_of(gql.url@), "pullrequest"@) {
                ci_status_of(rollup_state(s.commits))
            } else {
                None
            },
            None => None,
        },
        r.subject.review_status == match gql.optional_subject {
            Some(s) => if ascii_case_eq(subject_type_of(gql.url@), "pullrequest"@) {
                review_status_of(opt_view(s.review_decision))
            } else {
                None
            },
            None => None,
        },
        match gql.optional_subject {
            Some(GraphQlSubject { repository: Some(repo), .. }) => {
                &&& r.repository.full_name@ == repo.name_with_owner@
                &&& r.repository.name@ == repo.name@
                &&& r.repository.merge_settings == Some(settings_of(repo))
            },
            _ => {
                &&& r.repository.full_name@ == repo_from_url(gql.url@)
                &&& r.repository.name@ == name_after_owner(repo_from_url(gql.url@))
                &&& r.repository.merge_settings is None
            },
        },
{
    let GraphQlNotification {
        id,
        thread_id,
        title,
        url,
        is_unread,
        last_updated_at,
        reason,
        optional_subject,
    } = gql;
    let kind = parse_subject_type(url.as_str());
    let subject_ref = match &optional_subject {
        Some(s) => Some(s),
        None => None,
    };
    let status = subject_statuses(kind.as_str(), subject_ref);
    let ci_status = subject_ci_status(kind.as_str(), subject_ref);
    let review_status = subject_review_status(kind.as_str(), subject_ref);
    let subject_id = match &optional_subject {
        Some(s) => clone_opt(&s.id),
        None => None,
    };
    let repository = match optional_subject {
        Some(GraphQlSubject { repository: Some(repo), .. }) => {
            let merge_settings = merge_settings_from_repo(&repo);
            Repository {
                name: repo.name,
                full_name: repo.name_with_owner,
                merge_settings: Some(merge_settings),
            }
        },
        _ => {
            let full_name = parse_repo_from_url(url.as_str());
            let name = second_piece(full_name.as_str());
            Repository { name, full_name, merge_settings: None }
        },
    };
    let reason = match reason {
        Some(x) => x,
        None => "subscribed".to_owned(),
    };
    let subject = Subject {
        title,
        url: url.clone(),
        kind,
        author: None,
        status,
        ci_status,
        review_status,
        head_ref: None,
    };
    Notification {
        id: thread_id,
        node_id: id,
        subject_id,
        unread: is_unread,
        reason,
        updated_at: last_updated_at,
        subject,
        repository,
        url,
    }
}

pub fn pull_request_ci_status(pr: &GraphQlPullRequest) -> (r: Option<CiStatus>)
    ensures
        r == ci_status_of(rollup_state(pr.commits)),
{
    map_ci_status(last_commit_state(&pr.commits))
}

pub fn pull_request_review_status(pr: &GraphQlPullRequest) -> (r: Option<ReviewStatus>)
    ensures
        r == review_status_of(opt_view(pr.review_decision)),
{
    map_review_status(as_opt_str(&pr.review_decision))
}

/// The authored pull request that a wire-format pull request describes.
pub fn transform_pull_request(pr: GraphQlPullRequest) -> (r: MyPullRequest)
    ensures
        r.id@ == pr.id@,
        r.updated_at@ == pr.updated_at@,
        r.url@ == pr.url@,
        r.subject.title@ == pr.title@,
        r.subject.url@ == pr.url@,
        r.subject.kind@ == "PullRequest"@,
        r.subject.author is None,
        r.subject.head_ref is None,
        r.subject.status@ == if pr.is_draft {
            seq![SubjectStatus::Draft]
        } else {
            Seq::<SubjectStatus>::empty()
        },
        r.subject.ci_status == ci_status_of(rollup_state(pr.commits)),
        r.subject.review_status == review_status_of(opt_view(pr.review_decision)),
        r.repository.name@ == pr.repository.name@,
        r.repository.full_name@ == pr.repository.name_with_owner@,
        r.repository.merge_settings == Some(settings_of(pr.repository)),
{
    let mut status: Vec<SubjectStatus> = Vec::new();
    if pr.is_draft {
        status.push(SubjectStatus::Draft);
    }
    assert(status@ =~= if pr.is_draft {
        seq![SubjectStatus::Draft]
    } else {
        Seq::<SubjectStatus>::empty()
    });
    let ci_status = pull_request_ci_status(&pr);
    let review_status = pull_request_review_status(&pr);
    let merge_settings = Some(merge_settings_from_repo(&pr.repository));
    let GraphQlPullRequest { id, title, url, updated_at, repository, .. } = pr;
    let subject = Subject {
        title,
        url: url.clone(),
        kind: "PullRequest".to_owned(),
        author: None,
        status,
        ci_status,
        review_status,
        head_ref: None,
    };
    MyPullRequest {
        id,
        updated_at,
        subject,
        repository: Repository {
            name: repository.name,
            full_name: repository.name_with_owner,
            merge_settings,
        },
        url,
    }
}

/// The pull requests of repositories that are not archived, in order.
pub fn filter_archived_pull_requests(pull_requests: Vec<GraphQlPullRequest>) -> (r: Vec<
    GraphQlPullRequest,
>)
    ensures
        r@ == pull_requests@.filter(|p: GraphQlPullRequest| !p.repository.is_archived),
{
    let ghost ps = pull_requests@;
    let ghost f = |p: GraphQlPullRequest| !p.repository.is_archived;
    let mut rest = pull_requests;
    let mut kept: Vec<GraphQlPullRequest> = Vec::new();
    let mut k: usize = 0;
    let total = rest.len();
    assert(ps.take(0) =~= Seq::<GraphQlPullRequest>::empty());
    assert(ps.skip(0) =~= ps);
    while rest.len() > 0
        invariant
            total == ps.len(),
            k + rest.len() == total,
            rest@ == ps.skip(k as int),
            f == (|p: GraphQlPullRequest| !p.repository.is_archived),
            kept@ == ps.take(k as int).filter(f),
        decreases rest.len(),
    {
        let pr = rest.remove(0);
        proof {
            assert(ps.skip(k + 1) =~= ps.skip(k as int).remove(0));
            assert(ps.take(k + 1) =~= ps.take(k as int).push(pr));
            ps.take(k as int).lemma_filter_push(pr, f);
        }
        if !pr.repository.is_archived {
            kept.push(pr);
        }
        k = k + 1;
    }
    assert(ps.take(k as int) =~= ps);
    kept
}

/// Why a GraphQL answer was refused.
pub enum GraphQlFailure {
    /// The token lacks the notifications scope.
    MissingScope,
    /// The first error the service reported.
    Message(String),
}

pub open spec fn is_scope_error(e: GraphQlError) -> bool {
    opt_view(e.kind) == Some("INSUFFICIENT_SCOPES"@)
}

/// Classifies the errors of a GraphQL answer: none is success; a missing
/// scope takes precedence over the first message.
pub fn handle_graphql_errors(errors: &[GraphQlError]) -> (r: Result<(), GraphQlFailure>)
    ensures
        errors@.len() == 0 <==> r is Ok,
        (exists|i: int| 0 <= i < errors@.len() && is_scope_error(#[trigger] errors@[i])) <==> r
            matches Err(GraphQlFailure::MissingScope),
        r matches Err(GraphQlFailure::Message(m)) ==> m@ == errors@[0].message@,
{
    if errors.len() == 0 {
        return Ok(());
    }
    let mut i: usize = 0;
    while i < errors.len()
        invariant
            i <= errors.len(),
            forall|j: int| 0 <= j < i ==> !is_scope_error(#[trigger] errors@[j]),
        decreases errors.len() - i,
    {
        let is_scope = match &errors[i].kind {
            Some(k) => {
                let ck = chars_of(k.as_str());
                same_chars(&ck, "INSUFFICIENT_SCOPES")
            },
            None => false,
        };
        if is_scope {
            return Err(GraphQlFailure::MissingScope);
        }
        i = i + 1;
    }
    Err(GraphQlFailure::Message(errors[0].message.clone()))
}

/// Whether a notification is about a pull request (in any ASCII case).
pub open spec fn is_pr_notification(n: Notification) -> bool {
    ascii_case_eq(n.subject.kind@, "pullrequest"@)
}

/// Whether some pull-request notification already shows this pull request,
/// by subject id or by URL.
pub open spec fn shown_by_notifications(pr: MyPullRequest, ns: Seq<Notification>) -> bool {
    exists|i: int|
        0 <= i < ns.len() && is_pr_notification(#[trigger] ns[i]) && (opt_view(ns[i].subject_id)
            == Some(pr.id@) || ns[i].subject.url@ == pr.url@)
}

fn shown_in(pr: &MyPullRequest, notifications: &[Notification]) -> (r: bool)
    ensures
        r == shown_by_notifications(*pr, notifications@),
{
    let mut i: usize = 0;
    while i < notifications.len()
        invariant
            i <= notifications.len(),
            forall|j: int|
                0 <= j < i ==> !(is_pr_notification(#[trigger] notifications@[j]) && (opt_view(
                    notifications@[j].subject_id,
                ) == Some(pr.id@) || notifications@[j].subject.url@ == pr.url@)),
        decreases notifications.len() - i,
    {
        let n = &notifications[i];
        if eq_ignore_ascii_case(n.subject.kind.as_str(), "pullrequest") {
            let same_id = match &n.subject_id {
                Some(sid) => *sid == pr.id,
                None => false,
            };
            if same_id || n.subject.url == pr.url {
                return true;
            }
        }
        i = i + 1;
    }
    false
}

/// The authored pull requests that no pull-request notification shows yet,
/// in order.
pub fn dedupe_pull_requests(pull_requests: Vec<MyPullRequest>, notifications: &[Notification]) -> (r:
    Vec<MyPullRequest>)
    ensures
        r@ == pull_requests@.filter(
            |p: MyPullRequest| !shown_by_notifications(p, notifications@),
        ),
{
    let ghost ps = pull_requests@;
    let ghost f = |p: MyPullRequest| !shown_by_notifications(p, notifications@);
    let mut rest = pull_requests;
    let mut kept: Vec<MyPullRequest> = Vec::new();
    let mut k: usize = 0;
    let total = rest.len();
    assert(ps.take(0) =~= Seq::<MyPullRequest>::empty());
    assert(ps.skip(0) =~= ps);
    while rest.len() > 0
        invariant
            total == ps.len(),
            k + rest.len() == total,
            rest@ == ps.skip(k as int),
            f == (|p: MyPullRequest| !shown_by_notifications(p, notifications@)),
            kept@ == ps.take(k as int).filter(f),
        decreases rest.len(),
    {
        let pr = rest.remove(0);
        proof {
            assert(ps.skip(k + 1) =~= ps.skip(k as int).remove(0));
            assert(ps.take(k + 1) =~= ps.take(k as int).push(pr));
            ps.take(k as int).lemma_filter_push(pr, f);
        }
        if !shown_in(&pr, notifications) {
            kept.push(pr);
        }
        k = k + 1;
    }
    assert(ps.take(k as int) =~= ps);
    kept
}

} // verus!
