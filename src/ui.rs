use std::collections::HashMap;
use vstd::prelude::*;

use crate::commands::{actions_view, parse_commands, parse_spec, TargetMap};
use crate::github::{ascii_case_eq, eq_ignore_ascii_case};
use crate::state::lemma_take_last;
use crate::types::{Action, MyPullRequest, Notification, ReviewStatus, Subject, SubjectStatus};

verus! {

broadcast use vstd::std_specs::hash::group_hash_axioms;

pub open spec fn draft_merged_closed() -> Seq<SubjectStatus> {
    seq![SubjectStatus::Draft, SubjectStatus::Merged, SubjectStatus::Closed]
}

/// The statuses of a subject, Draft first, then Merged, then Closed.
pub open spec fn ordered_statuses_spec(statuses: Seq<SubjectStatus>) -> Seq<SubjectStatus> {
    draft_merged_closed().filter(|s: SubjectStatus| statuses.contains(s))
}

/// The review status worth showing: a pending review is hidden on a subject
/// that is a draft, merged or closed.
pub open spec fn effective_review(s: Subject) -> Option<ReviewStatus> {
    if s.review_status == Some(ReviewStatus::ReviewRequired) && s.status@.len() > 0 {
        None
    } else {
        s.review_status
    }
}

/// Whether alias `c` designates an entity with this subject (the unread
/// alias aside).
pub open spec fn subject_has_alias(c: char, s: Subject) -> bool {
    ||| c == 'm' && s.status@.contains(SubjectStatus::Merged)
    ||| c == 'c' && s.status@.contains(SubjectStatus::Closed)
    ||| c == 'f' && s.status@.contains(SubjectStatus::Draft)
    ||| c == '?' && effective_review(s) == Some(ReviewStatus::ReviewRequired)
    ||| c == 'a' && effective_review(s) == Some(ReviewStatus::Approved)
    ||| c == 'x' && effective_review(s) == Some(ReviewStatus::ChangesRequested)
}

pub open spec fn notification_has_alias(c: char, n: Notification) -> bool {
    (c == 'u' && n.unread) || subject_has_alias(c, n.subject)
}

/// Indices `1..` of the notifications that alias `c` designates, ascending.
pub open spec fn notification_alias_indices(c: char, ns: Seq<Notification>) -> Seq<usize>
    decreases ns.len(),
{
    if ns.len() == 0 {
        seq![]
    } else {
        let prev = notification_alias_indices(c, ns.drop_last());
        if notification_has_alias(c, ns.last()) {
            prev.push(ns.len() as usize)
        } else {
            prev
        }
    }
}

/// Indices, after the `offset` notifications, of the pull requests that
/// alias `c` designates, ascending.
pub open spec fn pull_request_alias_indices(c: char, offset: int, ps: Seq<MyPullRequest>) -> Seq<
    usize,
>
    decreases ps.len(),
{
    if ps.len() == 0 {
        seq![]
    } else {
        let prev = pull_request_alias_indices(c, offset, ps.drop_last());
        if subject_has_alias(c, ps.last().subject) {
            prev.push((offset + ps.len()) as usize)
        } else {
            prev
        }
    }
}

/// All indices that alias `c` designates, in list order.
pub open spec fn alias_indices(c: char, ns: Seq<Notification>, ps: Seq<MyPullRequest>) -> Seq<
    usize,
> {
    notification_alias_indices(c, ns) + pull_request_alias_indices(c, ns.len() as int, ps)
}

/// The alias table of the current lists: each alias that designates at
/// least one entity, with its indices.
pub open spec fn target_table(ns: Seq<Notification>, ps: Seq<MyPullRequest>) -> Map<char, Seq<usize>> {
    Map::new(|c: char| alias_indices(c, ns, ps).len() > 0, |c: char| alias_indices(c, ns, ps))
}

pub open spec fn group_of(m: Map<char, Seq<usize>>, c: char) -> Seq<usize> {
    if m.contains_key(c) {
        m[c]
    } else {
        seq![]
    }
}

/// `m` with `i` appended to the group of every alias that `has` holds for.
pub open spec fn extend_groups(m: Map<char, Seq<usize>>, has: spec_fn(char) -> bool, i: usize) -> Map<
    char,
    Seq<usize>,
> {
    Map::new(
        |c: char| m.contains_key(c) || has(c),
        |c: char|
            if has(c) {
                group_of(m, c).push(i)
            } else {
                m[c]
            },
    )
}

fn has_status(statuses: &Vec<SubjectStatus>, s: SubjectStatus) -> (r: bool)
    ensures
        r == statuses@.contains(s),
{
    let mut k: usize = 0;
    while k < statuses.len()
        invariant
            k <= statuses.len(),
            forall|j: int| 0 <= j < k ==> statuses@[j] != s,
        decreases statuses.len() - k,
    {
        if statuses[k] == s {
            return true;
        }
        k = k + 1;
    }
    false
}

pub fn ordered_statuses(subject: &Subject) -> (r: Vec<SubjectStatus>)
    ensures
        r@ == ordered_statuses_spec(subject.status@),
{
    let mut out: Vec<SubjectStatus> = Vec::new();
    let order = [SubjectStatus::Draft, SubjectStatus::Merged, SubjectStatus::Closed];
    let ghost all = draft_merged_closed();
    let ghost f = |s: SubjectStatus| subject.status@.contains(s);
    assert(order@ =~= all);
    let mut k: usize = 0;
    assert(all.take(0) =~= Seq::<SubjectStatus>::empty());
    while k < 3
        invariant
            k <= 3,
            order@ == all,
            f == (|s: SubjectStatus| subject.status@.contains(s)),
            out@ == all.take(k as int).filter(f),
        decreases 3 - k,
    {
        let s = order[k];
        proof {
            assert(all.take(k + 1).drop_last() =~= all.take(k as int));
            all.take(k as int).lemma_filter_push(s, f);
            assert(all.take(k as int).push(s) =~= all.take(k + 1));
        }
        if has_status(&subject.status, s) {
            out.push(s);
        }
        k = k + 1;
    }
    assert(all.take(3) =~= all);
    out
}

pub fn effective_review_status(subject: &Subject) -> (r: Option<ReviewStatus>)
    ensures
        r == effective_review(*subject),
{
    match subject.review_status {
        Some(status) => {
            if status == ReviewStatus::ReviewRequired && subject.status.len() > 0 {
                None
            } else {
                Some(status)
            }
        },
        None => None,
    }
}


/// Files `index` under every alias that the subject falls under.
fn push_status_targets(targets: &mut TargetMap, index: usize, subject: &Subject)
    ensures
        final(targets)@ == extend_groups(
            old(targets)@,
            |c: char| subject_has_alias(c, *subject),
            index,
        ),
{
    let ghost m0 = targets@;
    if has_status(&subject.status, SubjectStatus::Draft) {
        targets.append('f', index);
    }
    if has_status(&subject.status, SubjectStatus::Merged) {
        targets.append('m', index);
    }
    if has_status(&subject.status, SubjectStatus::Closed) {
        targets.append('c', index);
    }
    if let Some(review_status) = effective_review_status(subject) {
        let key = match review_status {
            ReviewStatus::ReviewRequired => '?',
            ReviewStatus::Approved => 'a',
            ReviewStatus::ChangesRequested => 'x',
        };
        targets.append(key, index);
    }
    assert(targets@ =~= extend_groups(m0, |c: char| subject_has_alias(c, *subject), index));
}

/// Builds the alias table of the current lists.
pub fn build_target_map(notifications: &[Notification], my_prs: &[MyPullRequest]) -> (r: TargetMap)
    requires
        notifications.len() + my_prs.len() <= usize::MAX,
    ensures
        r@ == target_table(notifications@, my_prs@),
{
    let ghost ns = notifications@;
    let ghost ps = my_prs@;
    let mut targets = TargetMap::new();
    let mut k: usize = 0;
    while k < notifications.len()
        invariant
            k <= notifications.len(),
            ns == notifications@,
            forall|c: char| #[trigger]
                group_of(targets@, c) == notification_alias_indices(c, ns.take(k as int)),
            forall|c: char| #[trigger]
                targets@.contains_key(c) <==> notification_alias_indices(c, ns.take(k as int)).len()
                    > 0,
        decreases notifications.len() - k,
    {
        let ghost m0 = targets@;
        let index = k + 1;
        let notification = &notifications[k];
        if notification.unread {
            targets.append('u', index);
        }
        let ghost m1 = targets@;
        push_status_targets(&mut targets, index, &notification.subject);
        proof {
            lemma_take_last(ns, k as int);
            assert forall|c: char| #[trigger]
                group_of(targets@, c) == notification_alias_indices(c, ns.take(k + 1)) by {
                assert(group_of(m1, c) == if c == 'u' && ns[k as int].unread {
                    group_of(m0, c).push(index)
                } else {
                    group_of(m0, c)
                });
            }
            assert forall|c: char| #[trigger]
                targets@.contains_key(c) <==> notification_alias_indices(c, ns.take(k + 1)).len()
                    > 0 by {
                assert(group_of(m1, c) == if c == 'u' && ns[k as int].unread {
                    group_of(m0, c).push(index)
                } else {
                    group_of(m0, c)
                });
            }
        }
        k = k + 1;
    }
    assert(ns.take(k as int) =~= ns);
    let count = notifications.len();
    let mut j: usize = 0;
    while j < my_prs.len()
        invariant
            j <= my_prs.len(),
            count == ns.len(),
            count + my_prs.len() <= usize::MAX,
            ns == notifications@,
            ps == my_prs@,
            forall|c: char| #[trigger]
                group_of(targets@, c) == notification_alias_indices(c, ns)
                    + pull_request_alias_indices(c, count as int, ps.take(j as int)),
            forall|c: char| #[trigger]
                targets@.contains_key(c) <==> (notification_alias_indices(c, ns)
                    + pull_request_alias_indices(c, count as int, ps.take(j as int))).len() > 0,
        decreases my_prs.len() - j,
    {
        let ghost m0 = targets@;
        let index = count + j + 1;
        push_status_targets(&mut targets, index, &my_prs[j].subject);
        proof {
            lemma_take_last(ps, j as int);
            assert forall|c: char| #[trigger]
                group_of(targets@, c) == notification_alias_indices(c, ns)
                    + pull_request_alias_indices(c, count as int, ps.take(j + 1)) by {
                let a = notification_alias_indices(c, ns);
                let b = pull_request_alias_indices(c, count as int, ps.take(j as int));
                assert((a + b).push(index) =~= a + b.push(index));
                assert(group_of(targets@, c) == if subject_has_alias(c, ps[j as int].subject) {
                    group_of(m0, c).push(index)
                } else {
                    group_of(m0, c)
                });
                assert(index == (count + ps.take(j + 1).len()) as usize);
            }
        }
        j = j + 1;
    }
    assert(ps.take(j as int) =~= ps);
    assert forall|c: char| #[trigger] targets@.contains_key(c) implies targets@[c] == alias_indices(
        c,
        ns,
        ps,
    ) by {
        assert(group_of(targets@, c) == targets@[c]);
    }
    assert(targets@ =~= target_table(ns, ps));
    targets
}


/// What an index designates, as far as the action filter cares.
#[derive(Clone, Copy, PartialEq, Eq, Structural)]
pub enum PendingEntry {
    Notification { is_pull_request: bool },
    MyPullRequest,
}

pub open spec fn action_allowed_spec(a: Action, e: PendingEntry) -> bool {
    match e {
        PendingEntry::Notification { is_pull_request } => a == Action::Branch ==> is_pull_request,
        PendingEntry::MyPullRequest => a == Action::Open || a == Action::Yank || a
            == Action::Unsubscribe || a == Action::Review || a == Action::Branch,
    }
}

/// Whether `action` makes sense for the entity: branch checkout needs a pull
/// request, and an authored pull request has no read or done.
pub fn action_allowed(action: &Action, entry: &PendingEntry) -> (r: bool)
    ensures
        r == action_allowed_spec(*action, *entry),
{
    match entry {
        PendingEntry::Notification { is_pull_request } => {
            if *action == Action::Branch {
                *is_pull_request
            } else {
                true
            }
        },
        PendingEntry::MyPullRequest => match action {
            Action::Open | Action::Yank | Action::Unsubscribe | Action::Review | Action::Branch => true,
            _ => false,
        },
    }
}

/// The entity that index `k` designates, notifications first.
pub open spec fn entry_kind(k: int, ns: Seq<Notification>, ps: Seq<MyPullRequest>) -> Option<
    PendingEntry,
> {
    if 1 <= k <= ns.len() {
        Some(
            PendingEntry::Notification {
                is_pull_request: ascii_case_eq(ns[k - 1].subject.kind@, "pullrequest"@),
            },
        )
    } else if ns.len() < k <= ns.len() + ps.len() {
        Some(PendingEntry::MyPullRequest)
    } else {
        None
    }
}

/// The actions of `acts` that `e` allows, in order.
pub open spec fn keep_allowed(acts: Seq<Action>, e: PendingEntry) -> Seq<Action>
    decreases acts.len(),
{
    if acts.len() == 0 {
        seq![]
    } else {
        let prev = keep_allowed(acts.drop_last(), e);
        if action_allowed_spec(acts.last(), e) {
            prev.push(acts.last())
        } else {
            prev
        }
    }
}

pub open spec fn keeps_entry(
    parsed: Map<usize, Seq<Action>>,
    k: usize,
    ns: Seq<Notification>,
    ps: Seq<MyPullRequest>,
) -> bool {
    &&& parsed.contains_key(k)
    &&& entry_kind(k as int, ns, ps) is Some
    &&& keep_allowed(parsed[k], entry_kind(k as int, ns, ps)->0).len() > 0
}

/// The pending map with every action that its entity does not allow
/// removed, and every index left without actions (or without entity) dropped.
pub open spec fn filter_spec(
    parsed: Map<usize, Seq<Action>>,
    ns: Seq<Notification>,
    ps: Seq<MyPullRequest>,
) -> Map<usize, Seq<Action>> {
    Map::new(
        |k: usize| keeps_entry(parsed, k, ns, ps),
        |k: usize| keep_allowed(parsed[k], entry_kind(k as int, ns, ps)->0),
    )
}

pub fn filter_pending_actions(
    parsed: HashMap<usize, Vec<Action>>,
    notifications: &[Notification],
    my_prs: &[MyPullRequest],
) -> (r: HashMap<usize, Vec<Action>>)
    requires
        notifications.len() + my_prs.len() <= usize::MAX,
    ensures
        actions_view(r@) == filter_spec(actions_view(parsed@), notifications@, my_prs@),
{
    let ghost ns = notifications@;
    let ghost ps = my_prs@;
    let ghost pv = actions_view(parsed@);
    let total = notifications.len() + my_prs.len();
    let mut filtered: HashMap<usize, Vec<Action>> = HashMap::new();
    let mut k: usize = 0;
    assert(actions_view(filtered@) =~= Map::<usize, Seq<Action>>::empty());
    while k < total
        invariant
            k <= total,
            total == ns.len() + ps.len(),
            ns == notifications@,
            ps == my_prs@,
            pv == actions_view(parsed@),
            forall|i: usize| #[trigger]
                actions_view(filtered@).contains_key(i) <==> (1 <= i <= k && keeps_entry(
                    pv,
                    i,
                    ns,
                    ps,
                )),
            forall|i: usize| #[trigger]
                actions_view(filtered@).contains_key(i) ==> actions_view(filtered@)[i]
                    == keep_allowed(pv[i], entry_kind(i as int, ns, ps)->0),
        decreases total - k,
    {
        let index = k + 1;
        let ghost before = actions_view(filtered@);
        if let Some(actions) = parsed.get(&index) {
            let entry = if index <= notifications.len() {
                PendingEntry::Notification {
                    is_pull_request: eq_ignore_ascii_case(
                        notifications[index - 1].subject.kind.as_str(),
                        "pullrequest",
                    ),
                }
            } else {
                PendingEntry::MyPullRequest
            };
            assert(entry_kind(index as int, ns, ps) == Some(entry));
            let mut allowed: Vec<Action> = Vec::new();
            let mut j: usize = 0;
            while j < actions.len()
                invariant
                    j <= actions.len(),
                    allowed@ == keep_allowed(actions@.take(j as int), entry),
                decreases actions.len() - j,
            {
                proof {
                    lemma_take_last(actions@, j as int);
                }
                if action_allowed(&actions[j], &entry) {
                    allowed.push(actions[j]);
                }
                j = j + 1;
            }
            assert(actions@.take(j as int) =~= actions@);
            assert(pv[index] == actions@);
            let ghost kept = allowed@;
            if allowed.len() > 0 {
                filtered.insert(index, allowed);
                assert(actions_view(filtered@) =~= before.insert(index, kept));
            } else {
                assert(actions_view(filtered@) =~= before);
            }
            assert(keeps_entry(pv, index, ns, ps) == (kept.len() > 0));
        } else {
            assert(!pv.contains_key(index));
        }
        assert forall|i: usize| #[trigger]
            actions_view(filtered@).contains_key(i) <==> (1 <= i <= k + 1 && keeps_entry(
                pv,
                i,
                ns,
                ps,
            )) by {
            if i != index {
                assert(actions_view(filtered@).contains_key(i) == before.contains_key(i));
            }
        }
        assert forall|i: usize| #[trigger]
            actions_view(filtered@).contains_key(i) implies actions_view(filtered@)[i]
                == keep_allowed(pv[i], entry_kind(i as int, ns, ps)->0) by {
            if i != index {
                assert(before.contains_key(i));
            }
        }
        k = k + 1;
    }
    assert forall|i: usize| keeps_entry(pv, i, ns, ps) implies 1 <= i <= total by {}
    assert(actions_view(filtered@) =~= filter_spec(pv, ns, ps));
    filtered
}

/// The pending map of a command line against the current lists: the parse
/// with the alias table of the lists, passed through the action filter.
pub fn build_pending_map(
    input: &str,
    notifications: &[Notification],
    my_prs: &[MyPullRequest],
) -> (r: HashMap<usize, Vec<Action>>)
    requires
        notifications.len() + my_prs.len() <= usize::MAX,
    ensures
        actions_view(r@) == filter_spec(
            parse_spec(
                input@,
                (notifications@.len() + my_prs@.len()) as int,
                target_table(notifications@, my_prs@),
            ),
            notifications@,
            my_prs@,
        ),
{
    let targets = build_target_map(notifications, my_prs);
    let parsed = parse_commands(input, notifications.len() + my_prs.len(), &targets);
    filter_pending_actions(parsed, notifications, my_prs)
}

} // verus!
