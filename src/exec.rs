use vstd::prelude::*;

use crate::text::{
    chars_of, contains_seq, contains_text, has_prefix, lemma_trimmed_len, push_decimal, push_str, skip_chars,
    starts_with_chars, string_from_chars, trim_chars, trimmed, decimal,
};
use std::collections::HashMap;
use std::path::PathBuf;

use vstd::std_specs::iter::IteratorSpec;

use crate::commands::actions_view;
use crate::state::contains_action;
use crate::types::{Action, MyPullRequest, Notification};

verus! {

broadcast use vstd::std_specs::hash::group_hash_axioms;

/// Actions whose failure leaves the remote state unlike what the optimistic
/// update assumed.
pub open spec fn is_api_action_spec(a: Action) -> bool {
    a == Action::Open || a == Action::Read || a == Action::Done || a == Action::Unsubscribe
}

pub fn is_api_action(action: Action) -> (r: bool)
    ensures
        r == is_api_action_spec(action),
{
    match action {
        Action::Open | Action::Read | Action::Done | Action::Unsubscribe => true,
        _ => false,
    }
}

/// How one dispatched unit of work ended.
pub enum TaskOutcome {
    /// The action succeeded; `refresh` asks for a follow-up refresh.
    Succeeded { refresh: bool },
    /// The action failed with this message.
    Failed { action: Action, message: String },
    /// The unit of work itself aborted.
    Aborted { message: String },
}

/// The aggregate of one command submission.
pub struct ExecSummary {
    pub succeeded: usize,
    pub failed: usize,
    pub errors: Vec<String>,
    pub api_failed: bool,
    pub refresh: bool,
}

pub open spec fn succeeded_count(outs: Seq<TaskOutcome>) -> nat
    decreases outs.len(),
{
    if outs.len() == 0 {
        0
    } else {
        succeeded_count(outs.drop_last()) + if outs.last() is Succeeded {
            1nat
        } else {
            0nat
        }
    }
}

pub open spec fn failure_message(o: TaskOutcome) -> Seq<char> {
    match o {
        TaskOutcome::Failed { message, .. } => message@,
        TaskOutcome::Aborted { message } => message@,
        TaskOutcome::Succeeded { .. } => seq![],
    }
}

/// The failure messages, each kept once, in the order first seen.
pub open spec fn distinct_errors(outs: Seq<TaskOutcome>) -> Seq<Seq<char>>
    decreases outs.len(),
{
    if outs.len() == 0 {
        seq![]
    } else {
        let prev = distinct_errors(outs.drop_last());
        let o = outs.last();
        if o is Succeeded || prev.contains(failure_message(o)) {
            prev
        } else {
            prev.push(failure_message(o))
        }
    }
}

/// A failure of a remote-state-changing action, or an aborted unit.
pub open spec fn api_failure(o: TaskOutcome) -> bool {
    match o {
        TaskOutcome::Failed { action, .. } => is_api_action_spec(action),
        TaskOutcome::Aborted { .. } => true,
        TaskOutcome::Succeeded { .. } => false,
    }
}

pub open spec fn wants_refresh(o: TaskOutcome) -> bool {
    match o {
        TaskOutcome::Succeeded { refresh } => refresh,
        _ => false,
    }
}

/// Folds the outcomes of one submission into its summary: the counts, the
/// distinct error messages, whether a remote-state-changing action failed,
/// and whether a success asks for a refresh.
pub fn aggregate_outcomes(outcomes: &Vec<TaskOutcome>) -> (r: ExecSummary)
    ensures
        r.succeeded == succeeded_count(outcomes@),
        r.succeeded + r.failed == outcomes@.len(),
        r.errors@.map_values(|e: String| e@) == distinct_errors(outcomes@),
        r.api_failed == exists|i: int| 0 <= i < outcomes@.len() && api_failure(#[trigger] outcomes@[i]),
        r.refresh == exists|i: int| 0 <= i < outcomes@.len() && wants_refresh(#[trigger] outcomes@[i]),
{
    let mut succeeded: usize = 0;
    let mut failed: usize = 0;
    let mut errors: Vec<String> = Vec::new();
    let mut api_failed = false;
    let mut refresh = false;
    let mut k: usize = 0;
    let ghost outs = outcomes@;
    assert(outs.take(0) =~= Seq::<TaskOutcome>::empty());
    while k < outcomes.len()
        invariant
            k <= outcomes.len(),
            outs == outcomes@,
            succeeded == succeeded_count(outs.take(k as int)),
            succeeded + failed == k,
            errors@.map_values(|e: String| e@) == distinct_errors(outs.take(k as int)),
            api_failed == exists|i: int| 0 <= i < k && api_failure(#[trigger] outs[i]),
            refresh == exists|i: int| 0 <= i < k && wants_refresh(#[trigger] outs[i]),
        decreases outcomes.len() - k,
    {
        proof {
            assert(outs.take(k + 1).drop_last() =~= outs.take(k as int));
            assert(outs.take(k + 1).last() == outs[k as int]);
        }
        let ghost before = errors@.map_values(|e: String| e@);
        match &outcomes[k] {
            TaskOutcome::Succeeded { refresh: wants } => {
                succeeded = succeeded + 1;
                if *wants {
                    refresh = true;
                }
            },
            TaskOutcome::Failed { action, message } => {
                failed = failed + 1;
                if is_api_action(*action) {
                    api_failed = true;
                }
                if !contains_string(&errors, message) {
                    errors.push(message.clone());
                    assert(errors@.map_values(|e: String| e@) =~= before.push(message@));
                }
            },
            TaskOutcome::Aborted { message } => {
                failed = failed + 1;
                api_failed = true;
                if !contains_string(&errors, message) {
                    errors.push(message.clone());
                    assert(errors@.map_values(|e: String| e@) =~= before.push(message@));
                }
            },
        }
        k = k + 1;
    }
    assert(outs.take(k as int) =~= outs);
    ExecSummary { succeeded, failed, errors, api_failed, refresh }
}

fn contains_string(v: &Vec<String>, s: &String) -> (r: bool)
    ensures
        r == v@.map_values(|e: String| e@).contains(s@),
{
    let ghost m = v@.map_values(|e: String| e@);
    let mut i: usize = 0;
    while i < v.len()
        invariant
            i <= v.len(),
            m == v@.map_values(|e: String| e@),
            forall|j: int| 0 <= j < i ==> m[j] != s@,
        decreases v.len() - i,
    {
        if v[i] == *s {
            assert(m[i as int] == s@);
            return true;
        }
        i = i + 1;
    }
    false
}

pub open spec fn success_message(n: nat) -> Seq<char> {
    "Executed "@ + decimal(n) + " actions"@
}

/// The status line of a finished submission, whether to refresh, and
/// whether the line stays until the next one.
pub open spec fn command_status_spec(
    succeeded: nat,
    failed: nat,
    errors: Seq<Seq<char>>,
    api_failed: bool,
    refresh: bool,
) -> (Seq<char>, bool, bool) {
    if failed > 0 {
        (
            if errors.len() > 0 {
                errors[0]
            } else {
                "unknown"@
            },
            api_failed || refresh,
            true,
        )
    } else {
        (success_message(succeeded), refresh, false)
    }
}

pub fn command_status(result: &ExecSummary) -> (r: (String, bool, bool))
    ensures
        (r.0@, r.1, r.2) == command_status_spec(
            result.succeeded as nat,
            result.failed as nat,
            result.errors@.map_values(|e: String| e@),
            result.api_failed,
            result.refresh,
        ),
{
    if result.failed > 0 {
        let sample = if result.errors.len() > 0 {
            result.errors[0].clone()
        } else {
            "unknown".to_owned()
        };
        return (sample, result.api_failed || result.refresh, true);
    }
    let mut out: Vec<char> = Vec::new();
    push_str(&mut out, "Executed ");
    push_decimal(&mut out, result.succeeded as u64);
    push_str(&mut out, " actions");
    assert(Seq::<char>::empty() + "Executed "@ + decimal(result.succeeded as nat) + " actions"@
        =~= success_message(result.succeeded as nat));
    (string_from_chars(&out), result.refresh, false)
}

/// Prefixes that error messages pick up on their way up, and that carry no
/// information for the user.
pub open spec fn error_prefix(k: int) -> Seq<char> {
    if k == 0 {
        "GraphQL error: "@
    } else if k == 1 {
        "GitHub API error: "@
    } else if k == 2 {
        "failed to fetch notifications: "@
    } else if k == 3 {
        "failed to fetch pull requests: "@
    } else {
        "failed to send mutation: "@
    }
}

/// One pass over the prefixes in order, each stripped (and the rest
/// trimmed) when the text starts with it.
pub open spec fn strip_pass(t: Seq<char>, k: nat) -> Seq<char>
    decreases 5 - k,
{
    if k >= 5 {
        t
    } else {
        let p = error_prefix(k as int);
        strip_pass(
            if has_prefix(t, p) {
                trimmed(t.skip(p.len() as int))
            } else {
                t
            },
            k + 1,
        )
    }
}

/// Passes repeated until one strips nothing.
pub open spec fn strip_prefixes(t: Seq<char>) -> Seq<char>
    decreases t.len(),
{
    let u = strip_pass(t, 0);
    if u.len() < t.len() {
        strip_prefixes(u)
    } else {
        t
    }
}

proof fn lemma_strip_pass(t: Seq<char>, k: nat)
    ensures
        strip_pass(t, k) == t || strip_pass(t, k).len() < t.len(),
    decreases 5 - k,
{
    if k < 5 {
        let p = error_prefix(k as int);
        reveal_strlit("GraphQL error: ");
        reveal_strlit("GitHub API error: ");
        reveal_strlit("failed to fetch notifications: ");
        reveal_strlit("failed to fetch pull requests: ");
        reveal_strlit("failed to send mutation: ");
        let next = if has_prefix(t, p) {
            trimmed(t.skip(p.len() as int))
        } else {
            t
        };
        if has_prefix(t, p) {
            lemma_trimmed_len(t.skip(p.len() as int));
        }
        lemma_strip_pass(next, k + 1);
    }
}

fn prefix_text(k: usize) -> (r: &'static str)
    requires
        k < 5,
    ensures
        r@ == error_prefix(k as int),
{
    if k == 0 {
        "GraphQL error: "
    } else if k == 1 {
        "GitHub API error: "
    } else if k == 2 {
        "failed to fetch notifications: "
    } else if k == 3 {
        "failed to fetch pull requests: "
    } else {
        "failed to send mutation: "
    }
}

/// The message trimmed, with the transport and wrapper prefixes removed.
pub fn clean_error_message(message: &str) -> (r: String)
    ensures
        r@ == strip_prefixes(trimmed(message@)),
{
    let raw = chars_of(message);
    let mut text = trim_chars(&raw);
    let mut changed = true;
    while changed
        invariant
            changed ==> strip_prefixes(text@) == strip_prefixes(trimmed(message@)),
            !changed ==> text@ == strip_prefixes(trimmed(message@)),
        decreases text@.len() + if changed {
            1int
        } else {
            0int
        },
    {
        let ghost start = text@;
        proof {
            lemma_strip_pass(start, 0);
        }
        changed = false;
        let mut k: usize = 0;
        while k < 5
            invariant
                k <= 5,
                strip_pass(text@, k as nat) == strip_pass(start, 0),
                changed <==> text@.len() < start.len(),
                text@.len() <= start.len(),
                !changed ==> text@ == start,
            decreases 5 - k,
        {
            let prefix = prefix_text(k);
            proof {
                lemma_strip_pass(text@, k as nat);
            }
            if starts_with_chars(&text, prefix) {
                let rest = skip_chars(&text, prefix.unicode_len());
                text = trim_chars(&rest);
                proof {
                    reveal_strlit("GraphQL error: ");
                    reveal_strlit("GitHub API error: ");
                    reveal_strlit("failed to fetch notifications: ");
                    reveal_strlit("failed to fetch pull requests: ");
                    reveal_strlit("failed to send mutation: ");
                    lemma_trimmed_len(rest@);
                }
                changed = true;
            }
            k = k + 1;
        }
    }
    string_from_chars(&text)
}

/// The text a failure is summarised by: the cleaned root cause, or the
/// whole error when nothing of the root cause is left.
pub fn summarize_error(root_cause: &str, whole: &str) -> (r: String)
    ensures
        r@ == if strip_prefixes(trimmed(root_cause@)).len() == 0 {
            whole@
        } else {
            strip_prefixes(trimmed(root_cause@))
        },
{
    let cleaned = clean_error_message(root_cause);
    if cleaned.as_str().unicode_len() == 0 {
        whole.to_owned()
    } else {
        cleaned
    }
}


/// The entity an index designates in the lists of one frame.
pub enum EntrySnapshot<'a> {
    Notification(&'a Notification),
    MyPullRequest(&'a MyPullRequest),
}

impl<'a> EntrySnapshot<'a> {
    pub open spec fn url_view(&self) -> Seq<char> {
        match self {
            EntrySnapshot::Notification(n) => n.subject.url@,
            EntrySnapshot::MyPullRequest(p) => p.subject.url@,
        }
    }

    pub open spec fn repo_view(&self) -> Seq<char> {
        match self {
            EntrySnapshot::Notification(n) => n.repository.full_name@,
            EntrySnapshot::MyPullRequest(p) => p.repository.full_name@,
        }
    }

    pub fn url(&self) -> (r: &str)
        ensures
            r@ == self.url_view(),
    {
        match self {
            EntrySnapshot::Notification(n) => n.subject.url.as_str(),
            EntrySnapshot::MyPullRequest(p) => p.subject.url.as_str(),
        }
    }

    pub fn repo_full_name(&self) -> (r: &str)
        ensures
            r@ == self.repo_view(),
    {
        match self {
            EntrySnapshot::Notification(n) => n.repository.full_name.as_str(),
            EntrySnapshot::MyPullRequest(p) => p.repository.full_name.as_str(),
        }
    }
}

/// Resolves a 1-based index: the notifications first, then the pull
/// requests.
pub fn entry_for_index<'a>(
    index: usize,
    notifications: &'a [Notification],
    my_prs: &'a [MyPullRequest],
) -> (r: Option<EntrySnapshot<'a>>)
    ensures
        match r {
            None => !(1 <= index <= notifications@.len() + my_prs@.len()),
            Some(EntrySnapshot::Notification(n)) => 1 <= index <= notifications@.len() && *n
                == notifications@[index - 1],
            Some(EntrySnapshot::MyPullRequest(p)) => notifications@.len() < index
                <= notifications@.len() + my_prs@.len() && *p == my_prs@[index
                - notifications@.len() - 1],
        },
{
    if index == 0 {
        return None;
    }
    if index <= notifications.len() {
        Some(EntrySnapshot::Notification(&notifications[index - 1]))
    } else {
        let idx = index - notifications.len() - 1;
        if idx < my_prs.len() {
            Some(EntrySnapshot::MyPullRequest(&my_prs[idx]))
        } else {
            None
        }
    }
}

/// One piece of outside work that an action asks for.
#[derive(Debug, Clone, Copy, PartialEq, Eq, Structural)]
pub enum EffectKind {
    /// Open the URL in a browser.
    OpenUrl,
    /// Copy the URL to the clipboard.
    CopyUrl,
    /// Mark the thread with this node id read.
    MarkRead,
    /// Mark the thread with this node id done.
    MarkDone,
    /// Unsubscribe from the subject with this id.
    Unsubscribe,
    /// Append the pull-request URL to the ignore list.
    IgnorePullRequest,
}

pub struct Effect {
    pub kind: EffectKind,
    pub target: String,
}

/// Why an action cannot be executed as a unit of work.
#[derive(Debug, Clone, Copy, PartialEq, Eq, Structural)]
pub enum PlanError {
    /// Reviews run in the foreground, from the user interface.
    ReviewOutsideUi,
    /// Branch checkout is not a remote action.
    BranchOutsideUi,
}

pub open spec fn effects_view(v: Seq<Effect>) -> Seq<(EffectKind, Seq<char>)> {
    v.map_values(|e: Effect| (e.kind, e.target@))
}

/// The outside work, in order, that `action` asks for on the entity.
pub open spec fn plan_spec(action: Action, entry: EntrySnapshot) -> Result<
    Seq<(EffectKind, Seq<char>)>,
    PlanError,
> {
    let url = entry.url_view();
    match action {
        Action::Open => match entry {
            EntrySnapshot::Notification(n) => if n.unread {
                Ok(seq![(EffectKind::OpenUrl, url), (EffectKind::MarkRead, n.node_id@)])
            } else {
                Ok(seq![(EffectKind::OpenUrl, url)])
            },
            EntrySnapshot::MyPullRequest(_) => Ok(seq![(EffectKind::OpenUrl, url)]),
        },
        Action::Yank => Ok(seq![(EffectKind::CopyUrl, url)]),
        Action::Read => match entry {
            EntrySnapshot::Notification(n) => Ok(seq![(EffectKind::MarkRead, n.node_id@)]),
            EntrySnapshot::MyPullRequest(_) => Ok(seq![]),
        },
        Action::Done => match entry {
            EntrySnapshot::Notification(n) => Ok(seq![(EffectKind::MarkDone, n.node_id@)]),
            EntrySnapshot::MyPullRequest(_) => Ok(seq![]),
        },
        Action::Unsubscribe => match entry {
            EntrySnapshot::Notification(n) => match n.subject_id {
                Some(sid) => Ok(
                    seq![(EffectKind::Unsubscribe, sid@), (EffectKind::MarkDone, n.node_id@)],
                ),
                None => Ok(seq![(EffectKind::MarkDone, n.node_id@)]),
            },
            EntrySnapshot::MyPullRequest(_) => Ok(seq![(EffectKind::IgnorePullRequest, url)]),
        },
        Action::Review => Err(PlanError::ReviewOutsideUi),
        Action::Branch => Err(PlanError::BranchOutsideUi),
    }
}

fn effect(kind: EffectKind, target: &str) -> (r: Effect)
    ensures
        r.kind == kind,
        r.target@ == target@,
{
    Effect { kind, target: target.to_owned() }
}

/// Decides the outside work of one (entity, action) pair.
pub fn plan_action(action: Action, entry: &EntrySnapshot) -> (r: Result<Vec<Effect>, PlanError>)
    ensures
        match r {
            Ok(v) => plan_spec(action, *entry) == Ok::<Seq<(EffectKind, Seq<char>)>, PlanError>(
                effects_view(v@),
            ),
            Err(e) => plan_spec(action, *entry) == Err::<Seq<(EffectKind, Seq<char>)>, PlanError>(
                e,
            ),
        },
{
    let url = entry.url();
    let mut out: Vec<Effect> = Vec::new();
    match action {
        Action::Open => {
            out.push(effect(EffectKind::OpenUrl, url));
            if let EntrySnapshot::Notification(n) = entry {
                if n.unread {
                    out.push(effect(EffectKind::MarkRead, n.node_id.as_str()));
                }
            }
        },
        Action::Yank => {
            out.push(effect(EffectKind::CopyUrl, url));
        },
        Action::Read => {
            if let EntrySnapshot::Notification(n) = entry {
                out.push(effect(EffectKind::MarkRead, n.node_id.as_str()));
            }
        },
        Action::Done => {
            if let EntrySnapshot::Notification(n) = entry {
                out.push(effect(EffectKind::MarkDone, n.node_id.as_str()));
            }
        },
        Action::Unsubscribe => match entry {
            EntrySnapshot::Notification(n) => {
                if let Some(subject_id) = &n.subject_id {
                    out.push(effect(EffectKind::Unsubscribe, subject_id.as_str()));
                }
                out.push(effect(EffectKind::MarkDone, n.node_id.as_str()));
            },
            EntrySnapshot::MyPullRequest(_) => {
                out.push(effect(EffectKind::IgnorePullRequest, url));
            },
        },
        Action::Review => {
            return Err(PlanError::ReviewOutsideUi);
        },
        Action::Branch => {
            return Err(PlanError::BranchOutsideUi);
        },
    }
    assert(plan_spec(action, *entry) == Ok::<Seq<(EffectKind, Seq<char>)>, PlanError>(
        effects_view(out@),
    )) by {
        assert(plan_spec(action, *entry)->Ok_0 =~= effects_view(out@));
    }
    Ok(out)
}

/// An authored pull request is never unsubscribed through the remote
/// service, and never marked read or done: unsubscribing it only appends its
/// URL to the ignore list.
pub proof fn lemma_pull_request_unsubscribe_is_local(action: Action, pr: &MyPullRequest)
    ensures
        action == Action::Unsubscribe ==> plan_spec(action, EntrySnapshot::MyPullRequest(pr))
            == Ok::<Seq<(EffectKind, Seq<char>)>, PlanError>(
            seq![(EffectKind::IgnorePullRequest, pr.subject.url@)],
        ),
        plan_spec(action, EntrySnapshot::MyPullRequest(pr)) is Ok ==> forall|i: int|
            0 <= i < plan_spec(action, EntrySnapshot::MyPullRequest(pr))->Ok_0.len() ==> {
                let k = (#[trigger] plan_spec(action, EntrySnapshot::MyPullRequest(pr))->Ok_0[i]).0;
                k != EffectKind::Unsubscribe && k != EffectKind::MarkRead && k
                    != EffectKind::MarkDone
            },
{
}


/// The keys of a pending map, each once.
fn pending_keys(commands: &HashMap<usize, Vec<Action>>) -> (r: Vec<usize>)
    ensures
        r@.to_set() == commands@.dom(),
        r@.no_duplicates(),
{
    let ghost all = vstd::std_specs::hash::spec_keys_iter(commands).remaining().unref();
    let mut keys: Vec<usize> = Vec::new();
    for k in it: commands.keys()
        invariant
            all == vstd::std_specs::hash::spec_keys_iter(commands).remaining().unref(),
            it.seq().unref() == all,
            keys@ == all.take(it.index() as int),
    {
        keys.push(*k);
        proof {
            assert(all.take(it.index() + 1) =~= keys@);
        }
    }
    proof {
        assert(keys@ =~= all);
    }
    keys
}

/// A review to run in the foreground.
pub struct ReviewRequest {
    pub repo_full_name: String,
    pub pr_url: String,
}

#[derive(Debug, Clone, Copy, PartialEq, Eq, Structural)]
pub enum ReviewError {
    /// More than one index asks for a review.
    MultipleTargets,
    /// The review target is not an index of the lists.
    OutOfRange,
    /// The review target is not a pull request.
    NotPullRequest,
}

pub open spec fn is_review_key(cmds: Map<usize, Seq<Action>>, k: usize) -> bool {
    cmds.contains_key(k) && cmds[k].contains(Action::Review)
}

/// The actions of `acts` other than review, in order.
pub open spec fn drop_review(acts: Seq<Action>) -> Seq<Action>
    decreases acts.len(),
{
    if acts.len() == 0 {
        seq![]
    } else {
        let prev = drop_review(acts.drop_last());
        if acts.last() == Action::Review {
            prev
        } else {
            prev.push(acts.last())
        }
    }
}

/// The pending map with the review actions taken out, and indices left
/// without actions dropped.
pub open spec fn without_review(cmds: Map<usize, Seq<Action>>) -> Map<usize, Seq<Action>> {
    Map::new(
        |k: usize| cmds.contains_key(k) && drop_review(cmds[k]).len() > 0,
        |k: usize| drop_review(cmds[k]),
    )
}

/// Takes the review action out of a submission: a review must have a single
/// target, in range, that is a pull request, and is run apart from the other
/// actions.
pub fn split_review_action(
    commands: &HashMap<usize, Vec<Action>>,
    notifications: &[Notification],
    my_prs: &[MyPullRequest],
) -> (r: Result<(Option<ReviewRequest>, HashMap<usize, Vec<Action>>), ReviewError>)
    requires
        notifications.len() + my_prs.len() <= usize::MAX,
    ensures
        ({
            let cmds = actions_view(commands@);
            let total = notifications@.len() + my_prs@.len();
            let multiple = exists|i: usize, j: usize|
                i != j && #[trigger] is_review_key(cmds, i) && #[trigger] is_review_key(cmds, j);
            match r {
                Err(ReviewError::MultipleTargets) => multiple,
                Err(ReviewError::OutOfRange) => !multiple && exists|k: usize|
                    #[trigger] is_review_key(cmds, k) && !(1 <= k <= total),
                Err(ReviewError::NotPullRequest) => !multiple && exists|k: usize|
                    #[trigger] is_review_key(cmds, k) && 1 <= k <= total && !contains_seq(
                        entry_url(k as int, notifications@, my_prs@),
                        "/pull/"@,
                    ),
                Ok((None, filtered)) => !multiple && (forall|k: usize|
                    !#[trigger] is_review_key(cmds, k)) && actions_view(filtered@)
                    == without_review(cmds),
                Ok((Some(req), filtered)) => !multiple && exists|k: usize|
                    #[trigger] is_review_key(cmds, k) && 1 <= k <= total && contains_seq(
                        entry_url(k as int, notifications@, my_prs@),
                        "/pull/"@,
                    ) && req.pr_url@ == entry_url(k as int, notifications@, my_prs@)
                        && req.repo_full_name@ == entry_repo(k as int, notifications@, my_prs@)
                        && actions_view(filtered@) == without_review(cmds),
            }
        }),
{
    let ghost cmds = actions_view(commands@);
    let keys = pending_keys(commands);
    let ghost ks = keys@;
    assert forall|i: usize| #[trigger] is_review_key(cmds, i) implies ks.contains(i) by {
        assert(commands@.dom().contains(i));
        assert(ks.to_set().contains(i));
    }
    let mut review_index: Option<usize> = None;
    let mut j: usize = 0;
    while j < keys.len()
        invariant
            j <= keys.len(),
            ks == keys@,
            ks.no_duplicates(),
            cmds == actions_view(commands@),
            match review_index {
                None => forall|m: int| 0 <= m < j ==> !is_review_key(cmds, #[trigger] ks[m]),
                Some(x) => is_review_key(cmds, x) && exists|m: int| 0 <= m < j && ks[m] == x
                    && forall|m2: int|
                    0 <= m2 < j && m2 != m ==> !is_review_key(cmds, #[trigger] ks[m2]),
            },
        decreases keys.len() - j,
    {
        let index = keys[j];
        if let Some(actions) = commands.get(&index) {
            if contains_action(actions, Action::Review) {
                if let Some(x) = review_index {
                    proof {
                        let m = choose|m: int| 0 <= m < j && ks[m] == x && forall|m2: int|
                            0 <= m2 < j && m2 != m ==> !is_review_key(cmds, #[trigger] ks[m2]);
                        assert(ks[m] != ks[j as int]);
                        assert(cmds[index] == actions@);
                        assert(is_review_key(cmds, index));
                        assert(is_review_key(cmds, x) && x != index);
                    }
                    return Err(ReviewError::MultipleTargets);
                }
                review_index = Some(index);
            }
        }
        j = j + 1;
    }
    proof {
        match review_index {
            None => {
                assert forall|i: usize| !#[trigger] is_review_key(cmds, i) by {
                    if is_review_key(cmds, i) {
                        let m = choose|m: int| 0 <= m < ks.len() && ks[m] == i;
                        assert(!is_review_key(cmds, ks[m]));
                    }
                }
            },
            Some(x) => {
                assert forall|i: usize, i2: usize|
                    !(i != i2 && #[trigger] is_review_key(cmds, i) && #[trigger] is_review_key(
                        cmds,
                        i2,
                    )) by {
                    if i != i2 && is_review_key(cmds, i) && is_review_key(cmds, i2) {
                        let m = choose|m: int| 0 <= m < j && ks[m] == x && forall|m2: int|
                            0 <= m2 < j && m2 != m ==> !is_review_key(cmds, #[trigger] ks[m2]);
                        let a = choose|a: int| 0 <= a < ks.len() && ks[a] == i;
                        let b = choose|b: int| 0 <= b < ks.len() && ks[b] == i2;
                        assert(a == m || !is_review_key(cmds, ks[a]));
                        assert(b == m || !is_review_key(cmds, ks[b]));
                    }
                }
            },
        }
    }
    let review_request = match review_index {
        Some(index) => {
            match entry_for_index(index, notifications, my_prs) {
                Some(entry) => {
                    let url = entry.url();
                    if !contains_text(url, "/pull/") {
                        return Err(ReviewError::NotPullRequest);
                    }
                    Some(
                        ReviewRequest {
                            repo_full_name: entry.repo_full_name().to_owned(),
                            pr_url: url.to_owned(),
                        },
                    )
                },
                None => {
                    return Err(ReviewError::OutOfRange);
                },
            }
        },
        None => None,
    };
    let mut filtered: HashMap<usize, Vec<Action>> = HashMap::new();
    let mut j: usize = 0;
    assert(actions_view(filtered@) =~= Map::<usize, Seq<Action>>::empty());
    while j < keys.len()
        invariant
            j <= keys.len(),
            ks == keys@,
            cmds == actions_view(commands@),
            forall|i: usize| #[trigger]
                actions_view(filtered@).contains_key(i) <==> (ks.take(j as int).contains(i)
                    && without_review(cmds).contains_key(i)),
            forall|i: usize| #[trigger]
                actions_view(filtered@).contains_key(i) ==> actions_view(filtered@)[i]
                    == drop_review(cmds[i]),
        decreases keys.len() - j,
    {
        let index = keys[j];
        let ghost before = actions_view(filtered@);
        proof {
            assert forall|i: usize| #[trigger] ks.take(j + 1).contains(i) <==> (ks.take(
                j as int,
            ).contains(i) || i == index) by {
                if ks.take(j + 1).contains(i) {
                    let m = choose|m: int| 0 <= m < j + 1 && #[trigger] ks.take(j + 1)[m] == i;
                    if m < j {
                        assert(ks.take(j as int)[m] == i);
                    }
                }
                if ks.take(j as int).contains(i) {
                    let m = choose|m: int| 0 <= m < j && #[trigger] ks.take(j as int)[m] == i;
                    assert(ks.take(j + 1)[m] == i);
                }
                if i == index {
                    assert(ks.take(j + 1)[j as int] == i);
                }
            }
        }
        if let Some(actions) = commands.get(&index) {
            let mut remaining: Vec<Action> = Vec::new();
            let mut t: usize = 0;
            while t < actions.len()
                invariant
                    t <= actions.len(),
                    remaining@ == drop_review(actions@.take(t as int)),
                decreases actions.len() - t,
            {
                proof {
                    assert(actions@.take(t + 1).drop_last() =~= actions@.take(t as int));
                }
                if actions[t] != Action::Review {
                    remaining.push(actions[t]);
                }
                t = t + 1;
            }
            assert(actions@.take(t as int) =~= actions@);
            let ghost kept = remaining@;
            if remaining.len() > 0 {
                filtered.insert(index, remaining);
                assert(actions_view(filtered@) =~= before.insert(index, kept));
            }
        }
        assert forall|i: usize| #[trigger]
            actions_view(filtered@).contains_key(i) <==> (ks.take(j + 1).contains(i)
                && without_review(cmds).contains_key(i)) by {
            if i != index {
                assert(actions_view(filtered@).contains_key(i) == before.contains_key(i));
            }
        }
        assert forall|i: usize| #[trigger]
            actions_view(filtered@).contains_key(i) implies actions_view(filtered@)[i]
                == drop_review(cmds[i]) by {
            if i != index {
                assert(before.contains_key(i));
            }
        }
        j = j + 1;
    }
    assert(ks.take(j as int) =~= ks);
    assert forall|i: usize| #[trigger] without_review(cmds).contains_key(i) implies ks.contains(
        i,
    ) by {
        assert(commands@.dom().contains(i));
        assert(ks.to_set().contains(i));
    }
    assert(actions_view(filtered@) =~= without_review(cmds));
    Ok((review_request, filtered))
}

/// The URL of the entity that index `k` designates.
pub open spec fn entry_url(k: int, ns: Seq<Notification>, ps: Seq<MyPullRequest>) -> Seq<char> {
    if 1 <= k <= ns.len() {
        ns[k - 1].subject.url@
    } else {
        ps[k - ns.len() - 1].subject.url@
    }
}

pub open spec fn entry_repo(k: int, ns: Seq<Notification>, ps: Seq<MyPullRequest>) -> Seq<char> {
    if 1 <= k <= ns.len() {
        ns[k - 1].repository.full_name@
    } else {
        ps[k - ns.len() - 1].repository.full_name@
    }
}

#[verifier::external_type_specification]
#[verifier::external_body]
pub struct ExPathBuf(PathBuf);

/// Relies on std's `PathBuf::join`: the base directory with the owner and
/// repository directories appended.
#[verifier::external_body]
fn join_repo_dir(base: &PathBuf, owner: &str, repo: &str) -> (r: PathBuf) {
    base.join(owner).join(repo)
}

/// How many times `c` occurs in `s`.
pub open spec fn count_char(s: Seq<char>, c: char) -> nat
    decreases s.len(),
{
    if s.len() == 0 {
        0
    } else {
        count_char(s.drop_last(), c) + if s.last() == c {
            1nat
        } else {
            0nat
        }
    }
}

/// Position of the first `c` in `s`; -1 when there is none.
pub open spec fn index_of_char(s: Seq<char>, c: char) -> int
    decreases s.len(),
{
    if s.len() == 0 {
        -1
    } else {
        let p = index_of_char(s.drop_last(), c);
        if p >= 0 {
            p
        } else if s.last() == c {
            s.len() - 1
        } else {
            -1
        }
    }
}

/// The owner and repository of an `owner/repo` name: exactly one slash, and
/// both sides non-empty once trimmed.
pub open spec fn repo_name_parts(s: Seq<char>) -> Option<(Seq<char>, Seq<char>)> {
    let i = index_of_char(s, '/');
    let owner = trimmed(s.take(i));
    let repo = trimmed(s.skip(i + 1));
    if count_char(s, '/') == 1 && owner.len() > 0 && repo.len() > 0 {
        Some((owner, repo))
    } else {
        None
    }
}

#[derive(Debug, Clone, Copy, PartialEq, Eq, Structural)]
pub enum RepoNameError {
    /// The name is not of the form `owner/repo`.
    Invalid,
}

/// Splits an `owner/repo` name into its trimmed parts.
pub fn split_repo_name(full_name: &str) -> (r: Option<(String, String)>)
    ensures
        match r {
            Some((owner, repo)) => repo_name_parts(full_name@) == Some((owner@, repo@)),
            None => repo_name_parts(full_name@) is None,
        },
{
    let chars = chars_of(full_name);
    let ghost s = full_name@;
    let mut slashes: usize = 0;
    let mut first: usize = 0;
    let mut i: usize = 0;
    while i < chars.len()
        invariant
            i <= chars.len(),
            chars@ == s,
            slashes <= 2,
            slashes < 2 ==> slashes == count_char(s.take(i as int), '/'),
            slashes == 2 ==> count_char(s.take(i as int), '/') >= 2,
            slashes >= 1 ==> first as int == index_of_char(s.take(i as int), '/') && first < i,
            slashes == 0 ==> index_of_char(s.take(i as int), '/') == -1,
        decreases chars.len() - i,
    {
        proof {
            assert(s.take(i + 1).drop_last() =~= s.take(i as int));
            assert(s.take(i + 1).last() == chars@[i as int]);
            assert(count_char(s.take(i + 1), '/') == count_char(s.take(i as int), '/') + if chars@[i as int] == '/' {
                1nat
            } else {
                0nat
            });
        }
        if chars[i] == '/' {
            if slashes == 0 {
                first = i;
            }
            if slashes < 2 {
                slashes = slashes + 1;
            }
        }
        i = i + 1;
    }
    assert(s.take(i as int) =~= s);
    if slashes != 1 {
        return None;
    }
    let mut head: Vec<char> = Vec::new();
    let mut j: usize = 0;
    while j < first
        invariant
            j <= first < chars.len(),
            chars@ == s,
            head@ == s.take(j as int),
        decreases first - j,
    {
        head.push(chars[j]);
        proof {
            assert(s.take(j + 1) =~= s.take(j as int).push(s[j as int]));
        }
        j = j + 1;
    }
    let tail = skip_chars(&chars, first + 1);
    let owner = trim_chars(&head);
    let repo = trim_chars(&tail);
    if owner.len() == 0 || repo.len() == 0 {
        return None;
    }
    Some((string_from_chars(&owner), string_from_chars(&repo)))
}

/// The local checkout directory of a repository: `base/owner/repo`.
pub fn repo_dir_for_full_name(base: &PathBuf, full_name: &str) -> (r: Result<PathBuf, RepoNameError>)
    ensures
        r is Ok <==> repo_name_parts(full_name@) is Some,
{
    match split_repo_name(full_name) {
        Some((owner, repo)) => Ok(join_repo_dir(base, owner.as_str(), repo.as_str())),
        None => Err(RepoNameError::Invalid),
    }
}

} // verus!
