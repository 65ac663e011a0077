use std::collections::HashMap;
use vstd::multiset::Multiset;
use vstd::prelude::*;

use crate::commands::{
    actions_view, digits_value, parse_spec, record_action, scan, split_indices, valid_prefix_len,
};
use crate::commands::{add_missing, finalize_pending_spec, initial_scan, lemma_record_action_distinct, Scan};
use crate::ui::{
    alias_indices, entry_kind, filter_spec, keep_allowed, notification_alias_indices,
    pull_request_alias_indices, target_table, PendingEntry,
};
use crate::types::{Action, MyPullRequest, Notification};

verus! {

broadcast use vstd::std_specs::hash::group_hash_axioms;

/// A locally applied decision about a notification.
#[derive(Debug, Clone, Copy, PartialEq, Eq, Structural)]
pub enum NotificationOverrideState {
    Read,
    Suppress,
}

/// A ledger entry: the decision and when it was taken (seconds since the
/// epoch).
#[derive(Debug, Clone, Copy, PartialEq, Eq, Structural)]
pub struct NotificationOverride {
    pub state: NotificationOverrideState,
    pub marked_at: i64,
}

/// Two decisions merged: suppressing wins over reading.
pub open spec fn merge_state(
    current: Option<NotificationOverrideState>,
    next: NotificationOverrideState,
) -> NotificationOverrideState {
    if current == Some(NotificationOverrideState::Suppress) || next
        == NotificationOverrideState::Suppress {
        NotificationOverrideState::Suppress
    } else {
        NotificationOverrideState::Read
    }
}

pub fn record_override_state(
    current: &mut Option<NotificationOverrideState>,
    next: NotificationOverrideState,
)
    ensures
        *final(current) == Some(merge_state(*old(current), next)),
{
    let merged = match (*current, next) {
        (Some(NotificationOverrideState::Suppress), _) => NotificationOverrideState::Suppress,
        (_, NotificationOverrideState::Suppress) => NotificationOverrideState::Suppress,
        _ => NotificationOverrideState::Read,
    };
    *current = Some(merged);
}

/// The value filed under the first entry with key `k`, front to back.
pub open spec fn first_match<K, V>(e: Seq<(K, V)>, k: K) -> Option<V>
    decreases e.len(),
{
    if e.len() == 0 {
        None
    } else if e[0].0 == k {
        Some(e[0].1)
    } else {
        first_match(e.skip(1), k)
    }
}

proof fn lemma_first_match_push<K, V>(e: Seq<(K, V)>, x: (K, V), k: K)
    ensures
        first_match(e.push(x), k) == match first_match(e, k) {
            Some(v) => Some(v),
            None => if x.0 == k {
                Some(x.1)
            } else {
                None
            },
        },
    decreases e.len(),
{
    if e.len() > 0 {
        assert(e.push(x).skip(1) =~= e.skip(1).push(x));
        lemma_first_match_push(e.skip(1), x, k);
    } else {
        assert(e.push(x).skip(1) =~= e);
    }
}

proof fn lemma_first_match_update<K, V>(e: Seq<(K, V)>, i: int, v: V, k: K)
    requires
        0 <= i < e.len(),
        forall|j: int| 0 <= j < i ==> (#[trigger] e[j]).0 != e[i].0,
    ensures
        first_match(e.update(i, (e[i].0, v)), k) == if k == e[i].0 {
            Some(v)
        } else {
            first_match(e, k)
        },
    decreases i,
{
    let u = e.update(i, (e[i].0, v));
    if i > 0 {
        assert(u.skip(1) =~= e.skip(1).update(i - 1, (e[i].0, v)));
        assert forall|j: int| 0 <= j < i - 1 implies (#[trigger] e.skip(1)[j]).0 != e.skip(1)[i
            - 1].0 by {
            assert(e.skip(1)[j] == e[j + 1]);
        }
        lemma_first_match_update(e.skip(1), i - 1, v, k);
    } else {
        assert(u.skip(1) =~= e.skip(1));
    }
}

proof fn lemma_first_match_found<K, V>(e: Seq<(K, V)>, i: int)
    requires
        0 <= i < e.len(),
        forall|j: int| 0 <= j < i ==> (#[trigger] e[j]).0 != e[i].0,
    ensures
        first_match(e, e[i].0) == Some(e[i].1),
    decreases i,
{
    if i > 0 {
        assert forall|j: int| 0 <= j < i - 1 implies (#[trigger] e.skip(1)[j]).0 != e.skip(1)[i
            - 1].0 by {
            assert(e.skip(1)[j] == e[j + 1]);
        }
        lemma_first_match_found(e.skip(1), i - 1);
    }
}

proof fn lemma_first_match_absent<K, V>(e: Seq<(K, V)>, k: K)
    requires
        forall|j: int| 0 <= j < e.len() ==> (#[trigger] e[j]).0 != k,
    ensures
        first_match(e, k) is None,
    decreases e.len(),
{
    if e.len() > 0 {
        assert forall|j: int| 0 <= j < e.skip(1).len() implies (#[trigger] e.skip(1)[j]).0 != k by {
            assert(e.skip(1)[j] == e[j + 1]);
        }
        lemma_first_match_absent(e.skip(1), k);
    }
}

/// The entries of the ledger with their keys as character sequences.
pub open spec fn keyed(e: Seq<(String, NotificationOverride)>) -> Seq<
    (Seq<char>, NotificationOverride),
> {
    e.map_values(|p: (String, NotificationOverride)| (p.0@, p.1))
}

/// The override ledger, keyed by the stable thread id of a notification.
pub struct OverrideLedger {
    entries: Vec<(String, NotificationOverride)>,
}

impl View for OverrideLedger {
    type V = Map<Seq<char>, NotificationOverride>;

    closed spec fn view(&self) -> Map<Seq<char>, NotificationOverride> {
        Map::new(
            |k: Seq<char>| first_match(keyed(self.entries@), k) is Some,
            |k: Seq<char>| first_match(keyed(self.entries@), k)->0,
        )
    }
}

impl OverrideLedger {
    pub fn new() -> (r: OverrideLedger)
        ensures
            r@ == Map::<Seq<char>, NotificationOverride>::empty(),
    {
        let r = OverrideLedger { entries: Vec::new() };
        assert(r@ =~= Map::<Seq<char>, NotificationOverride>::empty());
        r
    }

    fn position(&self, id: &str) -> (r: Option<usize>)
        ensures
            match r {
                Some(i) => {
                    &&& i < self.entries.len()
                    &&& keyed(self.entries@)[i as int].0 == id@
                    &&& forall|j: int|
                        0 <= j < i ==> (#[trigger] keyed(self.entries@)[j]).0 != id@
                },
                None => forall|j: int|
                    0 <= j < self.entries.len() ==> (#[trigger] keyed(self.entries@)[j]).0 != id@,
            },
    {
        let key = id.to_owned();
        let mut i: usize = 0;
        while i < self.entries.len()
            invariant
                i <= self.entries.len(),
                key@ == id@,
                forall|j: int| 0 <= j < i ==> (#[trigger] keyed(self.entries@)[j]).0 != id@,
            decreases self.entries.len() - i,
        {
            if self.entries[i].0 == key {
                return Some(i);
            }
            i = i + 1;
        }
        None
    }

    pub fn get(&self, id: &str) -> (r: Option<NotificationOverride>)
        ensures
            r == (if self@.contains_key(id@) {
                Some(self@[id@])
            } else {
                None::<NotificationOverride>
            }),
    {
        match self.position(id) {
            Some(i) => {
                proof {
                    lemma_first_match_found(keyed(self.entries@), i as int);
                }
                Some(self.entries[i].1)
            },
            None => {
                proof {
                    lemma_first_match_absent(keyed(self.entries@), id@);
                }
                None
            },
        }
    }

    pub fn contains_key(&self, id: &str) -> (r: bool)
        ensures
            r == self@.contains_key(id@),
    {
        self.get(id).is_some()
    }

    pub fn is_empty(&self) -> (r: bool)
        ensures
            r == (self@ == Map::<Seq<char>, NotificationOverride>::empty()),
    {
        if self.entries.len() == 0 {
            assert(self@ =~= Map::<Seq<char>, NotificationOverride>::empty());
            true
        } else {
            let ghost k = keyed(self.entries@)[0].0;
            assert(first_match(keyed(self.entries@), k) is Some);
            assert(self@.contains_key(k));
            false
        }
    }

    /// Files `entry` under `id`, replacing what was there.
    pub fn insert(&mut self, id: String, entry: NotificationOverride)
        ensures
            final(self)@ == old(self)@.insert(id@, entry),
    {
        let ghost e = keyed(self.entries@);
        let ghost key = id@;
        match self.position(id.as_str()) {
            Some(i) => {
                self.entries.set(i, (id, entry));
                proof {
                    assert(keyed(self.entries@) =~= e.update(i as int, (e[i as int].0, entry)));
                    assert forall|k: Seq<char>| #[trigger]
                        first_match(keyed(self.entries@), k) == if k == key {
                            Some(entry)
                        } else {
                            first_match(e, k)
                        } by {
                        lemma_first_match_update(e, i as int, entry, k);
                    }
                }
            },
            None => {
                self.entries.push((id, entry));
                proof {
                    assert(keyed(self.entries@) =~= e.push((key, entry)));
                    assert forall|k: Seq<char>| #[trigger]
                        first_match(keyed(self.entries@), k) == if k == key {
                            Some(entry)
                        } else {
                            first_match(e, k)
                        } by {
                        lemma_first_match_push(e, (key, entry), k);
                        if k == key {
                            lemma_first_match_absent(e, k);
                        }
                    }
                }
            },
        }
        assert(self@ =~= old(self)@.insert(key, entry));
    }

    /// Drops every entry filed under `id`.
    pub fn remove(&mut self, id: &str)
        ensures
            final(self)@ == old(self)@.remove(id@),
    {
        let key = id.to_owned();
        let ghost e = keyed(self.entries@);
        let mut kept: Vec<(String, NotificationOverride)> = Vec::new();
        let mut i: usize = 0;
        while i < self.entries.len()
            invariant
                i <= self.entries.len(),
                key@ == id@,
                e == keyed(self.entries@),
                forall|k: Seq<char>| #[trigger]
                    first_match(keyed(kept@), k) == if k == id@ {
                        None
                    } else {
                        first_match(e.take(i as int), k)
                    },
            decreases self.entries.len() - i,
        {
            proof {
                assert(e.take(i + 1) =~= e.take(i as int).push(e[i as int]));
            }
            if self.entries[i].0 != key {
                let ghost before = keyed(kept@);
                kept.push((self.entries[i].0.clone(), self.entries[i].1));
                proof {
                    assert(keyed(kept@) =~= before.push(e[i as int]));
                    assert forall|k: Seq<char>| #[trigger]
                        first_match(keyed(kept@), k) == if k == id@ {
                            None
                        } else {
                            first_match(e.take(i + 1), k)
                        } by {
                        lemma_first_match_push(before, e[i as int], k);
                        lemma_first_match_push(e.take(i as int), e[i as int], k);
                    }
                }
            } else {
                proof {
                    assert forall|k: Seq<char>| #[trigger]
                        first_match(keyed(kept@), k) == if k == id@ {
                            None
                        } else {
                            first_match(e.take(i + 1), k)
                        } by {
                        lemma_first_match_push(e.take(i as int), e[i as int], k);
                    }
                }
            }
            i = i + 1;
        }
        proof {
            assert(e.take(i as int) =~= e);
        }
        self.entries = kept;
        assert(self@ =~= old(self)@.remove(id@));
    }
}

/// The set of pull-request URLs the user chose to ignore.
pub struct IgnoreSet {
    urls: Vec<String>,
}

impl View for IgnoreSet {
    type V = Set<Seq<char>>;

    closed spec fn view(&self) -> Set<Seq<char>> {
        self.urls@.map_values(|u: String| u@).to_set()
    }
}

impl IgnoreSet {
    pub fn new() -> (r: IgnoreSet)
        ensures
            r@ == Set::<Seq<char>>::empty(),
    {
        let r = IgnoreSet { urls: Vec::new() };
        assert(r@ =~= Set::<Seq<char>>::empty());
        r
    }

    pub fn contains(&self, url: &str) -> (r: bool)
        ensures
            r == self@.contains(url@),
    {
        let key = url.to_owned();
        let ghost v = self.urls@.map_values(|u: String| u@);
        let mut i: usize = 0;
        while i < self.urls.len()
            invariant
                i <= self.urls.len(),
                key@ == url@,
                v == self.urls@.map_values(|u: String| u@),
                forall|j: int| 0 <= j < i ==> v[j] != url@,
            decreases self.urls.len() - i,
        {
            if self.urls[i] == key {
                assert(v[i as int] == url@);
                return true;
            }
            i = i + 1;
        }
        proof {
            if v.contains(url@) {
                let j = choose|j: int| 0 <= j < v.len() && v[j] == url@;
            }
        }
        false
    }

    /// Adds `url`; true when it was not there yet.
    pub fn insert(&mut self, url: String) -> (r: bool)
        ensures
            final(self)@ == old(self)@.insert(url@),
            r == !old(self)@.contains(url@),
    {
        if self.contains(url.as_str()) {
            assert(self@.insert(url@) =~= self@);
            return false;
        }
        let ghost v = self.urls@.map_values(|u: String| u@);
        let ghost key = url@;
        self.urls.push(url);
        assert(self.urls@.map_values(|u: String| u@) =~= v.push(key));
        proof {
            v.lemma_push_to_set_commute(key);
        }
        true
    }
}


/// The instant of an RFC 3339 date-time, in seconds since the epoch; none for
/// text that is no such date-time.
pub uninterp spec fn rfc3339_instant(s: Seq<char>) -> Option<i64>;

/// Seconds since the epoch of an RFC 3339 date-time; zero for text that is
/// no such date-time.
pub open spec fn rfc3339_seconds(s: Seq<char>) -> i64 {
    match rfc3339_instant(s) {
        Some(t) => t,
        None => 0,
    }
}

/// Relies on chrono's `DateTime::parse_from_rfc3339` and `DateTime::timestamp`:
/// the seconds of the parsed instant, read from the text alone.
#[verifier::external_body]
pub(crate) fn parse_rfc3339(value: &str) -> (r: Option<i64>)
    ensures
        r == rfc3339_instant(value@),
{
    match chrono::DateTime::parse_from_rfc3339(value) {
        Ok(date_time) => Some(date_time.timestamp()),
        Err(_) => None,
    }
}

pub fn parse_updated_at(value: &str) -> (r: i64)
    ensures
        r == rfc3339_seconds(value@),
{
    match parse_rfc3339(value) {
        Some(t) => t,
        None => 0,
    }
}

/// Relies on chrono's `Utc::now`: the current time in seconds since the
/// epoch, of which nothing is known.
#[verifier::external_body]
pub(crate) fn now_timestamp() -> (r: i64) {
    chrono::Utc::now().timestamp()
}

/// What a refresh does with one notification that the server reported.
#[derive(Debug, Clone, Copy, PartialEq, Eq, Structural)]
pub struct MergeOutcome {
    /// Whether the notification stays in the merged list.
    pub keep: bool,
    /// Its unread flag there.
    pub unread: bool,
    /// Whether the ledger entry of its thread is discarded.
    pub clear: bool,
}

pub open spec fn merge_outcome_spec(
    unread: bool,
    entry: Option<NotificationOverride>,
    updated_at: i64,
    include_read: bool,
) -> MergeOutcome {
    match entry {
        None => MergeOutcome { keep: true, unread, clear: false },
        Some(o) => if updated_at > o.marked_at {
            MergeOutcome { keep: true, unread, clear: true }
        } else {
            match o.state {
                NotificationOverrideState::Read => if include_read {
                    MergeOutcome { keep: true, unread: false, clear: !unread }
                } else {
                    MergeOutcome { keep: false, unread: false, clear: false }
                },
                NotificationOverrideState::Suppress => MergeOutcome {
                    keep: false,
                    unread,
                    clear: false,
                },
            }
        },
    }
}

/// The ledger rule for one notification: newer server activity discards the
/// entry and the server state wins; otherwise a read entry clears the unread
/// flag (and hides the notification when read ones are not shown), and a
/// suppress entry hides it.
pub fn override_outcome(
    unread: bool,
    entry: Option<NotificationOverride>,
    updated_at: i64,
    include_read: bool,
) -> (r: MergeOutcome)
    ensures
        r == merge_outcome_spec(unread, entry, updated_at, include_read),
{
    match entry {
        None => MergeOutcome { keep: true, unread, clear: false },
        Some(o) => {
            if updated_at > o.marked_at {
                return MergeOutcome { keep: true, unread, clear: true };
            }
            match o.state {
                NotificationOverrideState::Read => {
                    if include_read {
                        MergeOutcome { keep: true, unread: false, clear: !unread }
                    } else {
                        MergeOutcome { keep: false, unread: false, clear: false }
                    }
                },
                NotificationOverrideState::Suppress => MergeOutcome {
                    keep: false,
                    unread,
                    clear: false,
                },
            }
        },
    }
}

pub open spec fn entry_of(
    ledger: Map<Seq<char>, NotificationOverride>,
    id: Seq<char>,
) -> Option<NotificationOverride> {
    if ledger.contains_key(id) {
        Some(ledger[id])
    } else {
        None
    }
}

pub open spec fn outcome_for(
    ledger: Map<Seq<char>, NotificationOverride>,
    n: Notification,
    include_read: bool,
) -> MergeOutcome {
    merge_outcome_spec(
        n.unread,
        entry_of(ledger, n.id@),
        rfc3339_seconds(n.updated_at@),
        include_read,
    )
}

/// The refreshed list after the ledger has been applied to it, in order.
pub open spec fn merged_notifications(
    ledger: Map<Seq<char>, NotificationOverride>,
    ns: Seq<Notification>,
    include_read: bool,
) -> Seq<Notification>
    decreases ns.len(),
{
    if ns.len() == 0 {
        seq![]
    } else {
        let prev = merged_notifications(ledger, ns.drop_last(), include_read);
        let n = ns.last();
        let o = outcome_for(ledger, n, include_read);
        if o.keep {
            prev.push(Notification { unread: o.unread, ..n })
        } else {
            prev
        }
    }
}

/// The threads whose ledger entries the refresh discards, in list order.
pub open spec fn cleared_ids(
    ledger: Map<Seq<char>, NotificationOverride>,
    ns: Seq<Notification>,
    include_read: bool,
) -> Seq<Seq<char>>
    decreases ns.len(),
{
    if ns.len() == 0 {
        seq![]
    } else {
        let prev = cleared_ids(ledger, ns.drop_last(), include_read);
        if outcome_for(ledger, ns.last(), include_read).clear {
            prev.push(ns.last().id@)
        } else {
            prev
        }
    }
}

pub open spec fn remove_all(
    ledger: Map<Seq<char>, NotificationOverride>,
    ids: Seq<Seq<char>>,
) -> Map<Seq<char>, NotificationOverride>
    decreases ids.len(),
{
    if ids.len() == 0 {
        ledger
    } else {
        remove_all(ledger, ids.drop_last()).remove(ids.last())
    }
}

/// The core state of the dashboard, owned by the single event loop.
pub struct AppState {
    pub notifications: Vec<Notification>,
    pub my_prs: Vec<MyPullRequest>,
    pub pending: HashMap<usize, Vec<Action>>,
    pub status: Option<String>,
    pub status_sticky: bool,
    pub loading: bool,
    pub include_read: bool,
    pub ignored_prs: IgnoreSet,
    pub notification_overrides: OverrideLedger,
}

pub(crate) proof fn lemma_take_last<T>(s: Seq<T>, k: int)
    requires
        0 <= k < s.len(),
    ensures
        s.take(k + 1).drop_last() == s.take(k),
        s.take(k + 1).last() == s[k],
{
    assert(s.take(k + 1).drop_last() =~= s.take(k));
}

impl AppState {
    pub fn new(include_read: bool, ignored_prs: IgnoreSet) -> (r: AppState)
        ensures
            r.notifications@.len() == 0,
            r.my_prs@.len() == 0,
            r.pending@ == Map::<usize, Vec<Action>>::empty(),
            r.status is None,
            !r.status_sticky,
            r.loading,
            r.include_read == include_read,
            r.ignored_prs@ == ignored_prs@,
            r.notification_overrides@ == Map::<Seq<char>, NotificationOverride>::empty(),
    {
        AppState {
            notifications: Vec::new(),
            my_prs: Vec::new(),
            pending: HashMap::new(),
            status: None,
            status_sticky: false,
            loading: true,
            include_read,
            ignored_prs,
            notification_overrides: OverrideLedger::new(),
        }
    }

    /// Passes a refreshed notification list through the override ledger.
    pub fn apply_notification_overrides(&mut self, notifications: Vec<Notification>) -> (r: Vec<
        Notification,
    >)
        ensures
            r@ == merged_notifications(
                old(self).notification_overrides@,
                notifications@,
                old(self).include_read,
            ),
            final(self).notification_overrides@ == remove_all(
                old(self).notification_overrides@,
                cleared_ids(old(self).notification_overrides@, notifications@, old(self).include_read),
            ),
            final(self).notifications == old(self).notifications,
            final(self).my_prs == old(self).my_prs,
            final(self).pending == old(self).pending,
            final(self).include_read == old(self).include_read,
            final(self).ignored_prs == old(self).ignored_prs,
            final(self).status == old(self).status,
            final(self).status_sticky == old(self).status_sticky,
            final(self).loading == old(self).loading,
    {
        let ghost ledger = self.notification_overrides@;
        let ghost ns = notifications@;
        let ghost ir = self.include_read;
        let mut merged: Vec<Notification> = Vec::new();
        let mut clear_ids: Vec<String> = Vec::new();
        let mut rest = notifications;
        let mut k: usize = 0;
        let total = rest.len();
        assert(ns.take(0) =~= Seq::<Notification>::empty());
        assert(ns.skip(0) =~= ns);
        while rest.len() > 0
            invariant
                total == ns.len(),
                k + rest.len() == total,
                rest@ == ns.skip(k as int),
                self.notification_overrides@ == ledger,
                self.include_read == ir,
                self.notifications == old(self).notifications,
                self.my_prs == old(self).my_prs,
                self.pending == old(self).pending,
                self.ignored_prs == old(self).ignored_prs,
                self.status == old(self).status,
                self.status_sticky == old(self).status_sticky,
                self.loading == old(self).loading,
                self.include_read == old(self).include_read,
                merged@ == merged_notifications(ledger, ns.take(k as int), ir),
                clear_ids@.map_values(|s: String| s@) == cleared_ids(ledger, ns.take(k as int), ir),
            decreases rest.len(),
        {
            let mut notification = rest.remove(0);
            proof {
                assert(ns.skip(k + 1) =~= ns.skip(k as int).remove(0));
                lemma_take_last(ns, k as int);
            }
            let entry = self.notification_overrides.get(notification.id.as_str());
            let updated_at = parse_updated_at(notification.updated_at.as_str());
            let outcome = override_outcome(notification.unread, entry, updated_at, self.include_read);
            let ghost cleared_before = clear_ids@.map_values(|s: String| s@);
            if outcome.clear {
                clear_ids.push(notification.id.clone());
                assert(clear_ids@.map_values(|s: String| s@) =~= cleared_before.push(ns[k as int].id@));
            }
            if outcome.keep {
                notification.unread = outcome.unread;
                merged.push(notification);
            }
            k = k + 1;
        }
        assert(ns.take(k as int) =~= ns);
        let ghost ids = clear_ids@.map_values(|s: String| s@);
        let mut j: usize = 0;
        assert(ids.take(0) =~= Seq::<Seq<char>>::empty());
        while j < clear_ids.len()
            invariant
                j <= clear_ids.len(),
                ids == clear_ids@.map_values(|s: String| s@),
                self.notification_overrides@ == remove_all(ledger, ids.take(j as int)),
                self.notifications == old(self).notifications,
                self.my_prs == old(self).my_prs,
                self.pending == old(self).pending,
                self.ignored_prs == old(self).ignored_prs,
                self.status == old(self).status,
                self.status_sticky == old(self).status_sticky,
                self.loading == old(self).loading,
                self.include_read == old(self).include_read,
            decreases clear_ids.len() - j,
        {
            proof {
                lemma_take_last(ids, j as int);
            }
            self.notification_overrides.remove(clear_ids[j].as_str());
            j = j + 1;
        }
        assert(ids.take(j as int) =~= ids);
        merged
    }
}


pub open spec fn state_of(e: Option<NotificationOverride>) -> Option<NotificationOverrideState> {
    match e {
        Some(o) => Some(o.state),
        None => None,
    }
}

/// `ledger` after recording `state` for thread `id` at time `now`, merged
/// with what was there.
pub open spec fn ledger_record(
    ledger: Map<Seq<char>, NotificationOverride>,
    id: Seq<char>,
    state: NotificationOverrideState,
    now: i64,
) -> Map<Seq<char>, NotificationOverride> {
    ledger.insert(
        id,
        NotificationOverride {
            state: merge_state(state_of(entry_of(ledger, id)), state),
            marked_at: now,
        },
    )
}

pub fn record_notification_override(
    overrides: &mut OverrideLedger,
    notification_id: &str,
    state: NotificationOverrideState,
    now: i64,
)
    ensures
        final(overrides)@ == ledger_record(old(overrides)@, notification_id@, state, now),
{
    let mut merged: Option<NotificationOverrideState> = match overrides.get(notification_id) {
        Some(existing) => Some(existing.state),
        None => None,
    };
    record_override_state(&mut merged, state);
    let entry = NotificationOverride { state: merged.unwrap(), marked_at: now };
    overrides.insert(notification_id.to_owned(), entry);
}

/// The actions that the pending map holds for index `i`.
pub open spec fn actions_at(cmds: Map<usize, Seq<Action>>, i: int) -> Seq<Action> {
    if 0 <= i <= usize::MAX && cmds.contains_key(i as usize) {
        cmds[i as usize]
    } else {
        seq![]
    }
}

pub open spec fn marks_read(acts: Seq<Action>) -> bool {
    acts.contains(Action::Open) || acts.contains(Action::Read)
}

pub open spec fn marks_done(acts: Seq<Action>) -> bool {
    acts.contains(Action::Done) || acts.contains(Action::Unsubscribe)
}

/// The ledger state that a list of actions records: suppress when any of
/// them is done or unsubscribe, read when any opens or reads, else none.
pub open spec fn override_from(acts: Seq<Action>) -> Option<NotificationOverrideState> {
    if marks_done(acts) {
        Some(NotificationOverrideState::Suppress)
    } else if marks_read(acts) {
        Some(NotificationOverrideState::Read)
    } else {
        None
    }
}

pub open spec fn removes_notification(acts: Seq<Action>, include_read: bool) -> bool {
    marks_done(acts) || (!include_read && marks_read(acts))
}

/// The notification list after the optimistic update, in order.
pub open spec fn notifications_after(
    ns: Seq<Notification>,
    cmds: Map<usize, Seq<Action>>,
    include_read: bool,
) -> Seq<Notification>
    decreases ns.len(),
{
    if ns.len() == 0 {
        seq![]
    } else {
        let prev = notifications_after(ns.drop_last(), cmds, include_read);
        let acts = actions_at(cmds, ns.len() as int);
        let n = ns.last();
        if removes_notification(acts, include_read) {
            prev
        } else {
            prev.push(Notification { unread: n.unread && override_from(acts) is None, ..n })
        }
    }
}

/// The ledger after the optimistic update recorded, in index order, one
/// entry per notification that the update touched.
pub open spec fn ledger_after(
    ledger: Map<Seq<char>, NotificationOverride>,
    ns: Seq<Notification>,
    cmds: Map<usize, Seq<Action>>,
    now: i64,
) -> Map<Seq<char>, NotificationOverride>
    decreases ns.len(),
{
    if ns.len() == 0 {
        ledger
    } else {
        let prev = ledger_after(ledger, ns.drop_last(), cmds, now);
        match override_from(actions_at(cmds, ns.len() as int)) {
            Some(s) => ledger_record(prev, ns.last().id@, s, now),
            None => prev,
        }
    }
}

/// The pull requests, numbered after `offset` notifications, that an
/// unsubscribe in the pending map ignores.
pub open spec fn ignores_pull_request(offset: int, q: int, cmds: Map<usize, Seq<Action>>) -> bool {
    actions_at(cmds, offset + q + 1).contains(Action::Unsubscribe)
}

pub open spec fn prs_after(ps: Seq<MyPullRequest>, offset: int, cmds: Map<usize, Seq<Action>>) -> Seq<
    MyPullRequest,
>
    decreases ps.len(),
{
    if ps.len() == 0 {
        seq![]
    } else {
        let prev = prs_after(ps.drop_last(), offset, cmds);
        if ignores_pull_request(offset, ps.len() - 1, cmds) {
            prev
        } else {
            prev.push(ps.last())
        }
    }
}

pub open spec fn ignored_after(
    ignored: Set<Seq<char>>,
    ps: Seq<MyPullRequest>,
    offset: int,
    cmds: Map<usize, Seq<Action>>,
) -> Set<Seq<char>>
    decreases ps.len(),
{
    if ps.len() == 0 {
        ignored
    } else {
        let prev = ignored_after(ignored, ps.drop_last(), offset, cmds);
        if ignores_pull_request(offset, ps.len() - 1, cmds) {
            prev.insert(ps.last().url@)
        } else {
            prev
        }
    }
}

/// The effect of one notification's actions, read left to right.
fn notification_effect(actions: &Vec<Action>, include_read: bool) -> (r: (
    Option<NotificationOverrideState>,
    bool,
))
    ensures
        r.0 == override_from(actions@),
        r.1 == removes_notification(actions@, include_read),
{
    let mut state: Option<NotificationOverrideState> = None;
    let mut remove = false;
    let mut j: usize = 0;
    assert(actions@.take(0) =~= Seq::<Action>::empty());
    while j < actions.len()
        invariant
            j <= actions.len(),
            state == override_from(actions@.take(j as int)),
            remove == removes_notification(actions@.take(j as int), include_read),
        decreases actions.len() - j,
    {
        let ghost t = actions@.take(j as int);
        let ghost t1 = actions@.take(j + 1);
        proof {
            assert(t1 =~= t.push(actions@[j as int]));
            assert forall|a: Action| t1.contains(a) <==> (t.contains(a) || actions@[j as int] == a) by {
                if t1.contains(a) {
                    let i = choose|i: int| 0 <= i < t1.len() && t1[i] == a;
                    if i < j {
                        assert(t[i] == a);
                    }
                }
                if t.contains(a) {
                    let i = choose|i: int| 0 <= i < t.len() && t[i] == a;
                    assert(t1[i] == a);
                }
                if actions@[j as int] == a {
                    assert(t1[j as int] == a);
                }
            }
        }
        match actions[j] {
            Action::Open | Action::Read => {
                if !include_read {
                    remove = true;
                }
                record_override_state(&mut state, NotificationOverrideState::Read);
            },
            Action::Done | Action::Unsubscribe => {
                remove = true;
                record_override_state(&mut state, NotificationOverrideState::Suppress);
            },
            Action::Yank | Action::Review | Action::Branch => {},
        }
        j = j + 1;
    }
    assert(actions@.take(j as int) =~= actions@);
    (state, remove)
}

pub(crate) fn contains_action(actions: &Vec<Action>, action: Action) -> (r: bool)
    ensures
        r == actions@.contains(action),
{
    let mut j: usize = 0;
    while j < actions.len()
        invariant
            j <= actions.len(),
            forall|i: int| 0 <= i < j ==> actions@[i] != action,
        decreases actions.len() - j,
    {
        if actions[j] == action {
            return true;
        }
        j = j + 1;
    }
    false
}

/// Applies a filtered pending map to the lists at once, as if every action
/// had already succeeded, and records the ledger entries at time `now`.
pub fn apply_optimistic_update_at(
    app: &mut AppState,
    commands: &HashMap<usize, Vec<Action>>,
    now: i64,
)
    requires
        old(app).notifications.len() + old(app).my_prs.len() <= usize::MAX,
    ensures
        final(app).notifications@ == notifications_after(
            old(app).notifications@,
            actions_view(commands@),
            old(app).include_read,
        ),
        final(app).notification_overrides@ == ledger_after(
            old(app).notification_overrides@,
            old(app).notifications@,
            actions_view(commands@),
            now,
        ),
        final(app).my_prs@ == prs_after(
            old(app).my_prs@,
            old(app).notifications@.len() as int,
            actions_view(commands@),
        ),
        final(app).ignored_prs@ == ignored_after(
            old(app).ignored_prs@,
            old(app).my_prs@,
            old(app).notifications@.len() as int,
            actions_view(commands@),
        ),
        final(app).include_read == old(app).include_read,
        final(app).pending == old(app).pending,
        final(app).status == old(app).status,
        final(app).status_sticky == old(app).status_sticky,
        final(app).loading == old(app).loading,
{
    let ghost cmds = actions_view(commands@);
    let ghost ns = app.notifications@;
    let ghost ps = app.my_prs@;
    let ghost ledger0 = app.notification_overrides@;
    let ghost ignored0 = app.ignored_prs@;
    let include_read = app.include_read;
    let count = app.notifications.len();
    let mut rest: Vec<Notification> = Vec::new();
    std::mem::swap(&mut rest, &mut app.notifications);
    let mut kept: Vec<Notification> = Vec::new();
    let mut k: usize = 0;
    assert(ns.take(0) =~= Seq::<Notification>::empty());
    assert(ns.skip(0) =~= ns);
    while rest.len() > 0
        invariant
            count == ns.len(),
            count + ps.len() <= usize::MAX,
            k + rest.len() == count,
            rest@ == ns.skip(k as int),
            cmds == actions_view(commands@),
            include_read == app.include_read,
            include_read == old(app).include_read,
            kept@ == notifications_after(ns.take(k as int), cmds, include_read),
            app.notification_overrides@ == ledger_after(ledger0, ns.take(k as int), cmds, now),
            app.my_prs == old(app).my_prs,
            app.ignored_prs == old(app).ignored_prs,
            app.pending == old(app).pending,
            app.status == old(app).status,
            app.status_sticky == old(app).status_sticky,
            app.loading == old(app).loading,
        decreases rest.len(),
    {
        let mut notification = rest.remove(0);
        let index = k + 1;
        proof {
            assert(ns.skip(k + 1) =~= ns.skip(k as int).remove(0));
            lemma_take_last(ns, k as int);
        }
        match commands.get(&index) {
            Some(actions) => {
                assert(actions_at(cmds, index as int) == actions@);
                let (state, remove) = notification_effect(actions, include_read);
                if let Some(s) = state {
                    notification.unread = false;
                    record_notification_override(
                        &mut app.notification_overrides,
                        notification.id.as_str(),
                        s,
                        now,
                    );
                }
                if !remove {
                    kept.push(notification);
                }
            },
            None => {
                assert(actions_at(cmds, index as int) =~= Seq::<Action>::empty());
                assert(!Seq::<Action>::empty().contains(Action::Open));
                assert(!Seq::<Action>::empty().contains(Action::Read));
                assert(!Seq::<Action>::empty().contains(Action::Done));
                assert(!Seq::<Action>::empty().contains(Action::Unsubscribe));
                kept.push(notification);
            },
        }
        k = k + 1;
    }
    assert(ns.take(k as int) =~= ns);
    app.notifications = kept;
    let mut prs: Vec<MyPullRequest> = Vec::new();
    std::mem::swap(&mut prs, &mut app.my_prs);
    let mut kept_prs: Vec<MyPullRequest> = Vec::new();
    let mut q: usize = 0;
    let total = prs.len();
    assert(ps.take(0) =~= Seq::<MyPullRequest>::empty());
    assert(ps.skip(0) =~= ps);
    while prs.len() > 0
        invariant
            count == ns.len(),
            count + ps.len() <= usize::MAX,
            total == ps.len(),
            q + prs.len() == total,
            prs@ == ps.skip(q as int),
            cmds == actions_view(commands@),
            kept_prs@ == prs_after(ps.take(q as int), count as int, cmds),
            app.ignored_prs@ == ignored_after(ignored0, ps.take(q as int), count as int, cmds),
            app.notifications@ == notifications_after(ns, cmds, include_read),
            app.notification_overrides@ == ledger_after(ledger0, ns, cmds, now),
            app.include_read == old(app).include_read,
            app.pending == old(app).pending,
            app.status == old(app).status,
            app.status_sticky == old(app).status_sticky,
            app.loading == old(app).loading,
        decreases prs.len(),
    {
        let pr = prs.remove(0);
        let index = count + q + 1;
        proof {
            assert(ps.skip(q + 1) =~= ps.skip(q as int).remove(0));
            lemma_take_last(ps, q as int);
        }
        let ignore = match commands.get(&index) {
            Some(actions) => contains_action(actions, Action::Unsubscribe),
            None => false,
        };
        assert(ignore == ignores_pull_request(count as int, q as int, cmds));
        if ignore {
            app.ignored_prs.insert(pr.url.clone());
        } else {
            kept_prs.push(pr);
        }
        q = q + 1;
    }
    assert(ps.take(q as int) =~= ps);
    app.my_prs = kept_prs;
}

/// As [`apply_optimistic_update_at`], with the ledger entries stamped with the
/// current time.
pub fn apply_optimistic_update(app: &mut AppState, commands: &HashMap<usize, Vec<Action>>)
    requires
        old(app).notifications.len() + old(app).my_prs.len() <= usize::MAX,
    ensures
        final(app).notifications@ == notifications_after(
            old(app).notifications@,
            actions_view(commands@),
            old(app).include_read,
        ),
        exists|now: i64|
            final(app).notification_overrides@ == ledger_after(
                old(app).notification_overrides@,
                old(app).notifications@,
                actions_view(commands@),
                now,
            ),
        final(app).my_prs@ == prs_after(
            old(app).my_prs@,
            old(app).notifications@.len() as int,
            actions_view(commands@),
        ),
        final(app).ignored_prs@ == ignored_after(
            old(app).ignored_prs@,
            old(app).my_prs@,
            old(app).notifications@.len() as int,
            actions_view(commands@),
        ),
        final(app).include_read == old(app).include_read,
        final(app).pending == old(app).pending,
        final(app).status == old(app).status,
        final(app).status_sticky == old(app).status_sticky,
        final(app).loading == old(app).loading,
{
    let now = now_timestamp();
    apply_optimistic_update_at(app, commands, now);
}


/// Suppressing dominates reading, whichever comes first: two decisions on
/// one thread never downgrade to read once one of them suppresses.
pub proof fn lemma_suppress_dominates(
    ledger: Map<Seq<char>, NotificationOverride>,
    id: Seq<char>,
    t1: i64,
    t2: i64,
)
    ensures
        merge_state(Some(NotificationOverrideState::Read), NotificationOverrideState::Suppress)
            == NotificationOverrideState::Suppress,
        merge_state(Some(NotificationOverrideState::Suppress), NotificationOverrideState::Read)
            == NotificationOverrideState::Suppress,
        ledger_record(
            ledger_record(ledger, id, NotificationOverrideState::Read, t1),
            id,
            NotificationOverrideState::Suppress,
            t2,
        )[id].state == NotificationOverrideState::Suppress,
        ledger_record(
            ledger_record(ledger, id, NotificationOverrideState::Suppress, t1),
            id,
            NotificationOverrideState::Read,
            t2,
        )[id].state == NotificationOverrideState::Suppress,
        forall|acts: Seq<Action>|
            #![trigger override_from(acts)]
            acts.contains(Action::Done) || acts.contains(Action::Unsubscribe) ==> override_from(acts)
                == Some(NotificationOverrideState::Suppress),
{
}

/// After the optimistic update, a thread that was marked done holds a
/// suppress entry stamped with the update's time.
proof fn lemma_done_recorded(
    ledger: Map<Seq<char>, NotificationOverride>,
    ns: Seq<Notification>,
    cmds: Map<usize, Seq<Action>>,
    now: i64,
    i: int,
)
    requires
        0 <= i < ns.len(),
        marks_done(actions_at(cmds, i + 1)),
    ensures
        ledger_after(ledger, ns, cmds, now).contains_key(ns[i].id@),
        ledger_after(ledger, ns, cmds, now)[ns[i].id@] == (NotificationOverride {
            state: NotificationOverrideState::Suppress,
            marked_at: now,
        }),
    decreases ns.len(),
{
    let id = ns[i].id@;
    let p = ns.drop_last();
    let prev = ledger_after(ledger, p, cmds, now);
    if i < ns.len() - 1 {
        assert(p[i] == ns[i]);
        lemma_done_recorded(ledger, p, cmds, now, i);
    }
}

/// Marking a notification done keeps it hidden across refreshes that report
/// no newer activity than the mark, and a refresh with newer activity brings
/// it back as the server reports it and discards the entry.
pub proof fn lemma_done_suppressed_until_newer_activity(
    ledger: Map<Seq<char>, NotificationOverride>,
    ns: Seq<Notification>,
    cmds: Map<usize, Seq<Action>>,
    now: i64,
    i: int,
    refreshed: Notification,
    include_read: bool,
)
    requires
        0 <= i < ns.len(),
        actions_at(cmds, i + 1).contains(Action::Done),
        refreshed.id@ == ns[i].id@,
    ensures
        rfc3339_seconds(refreshed.updated_at@) <= now ==> merged_notifications(
            ledger_after(ledger, ns, cmds, now),
            seq![refreshed],
            include_read,
        ).len() == 0,
        rfc3339_seconds(refreshed.updated_at@) > now ==> merged_notifications(
            ledger_after(ledger, ns, cmds, now),
            seq![refreshed],
            include_read,
        ) == seq![refreshed],
        rfc3339_seconds(refreshed.updated_at@) > now ==> remove_all(
            ledger_after(ledger, ns, cmds, now),
            cleared_ids(ledger_after(ledger, ns, cmds, now), seq![refreshed], include_read),
        ) == ledger_after(ledger, ns, cmds, now).remove(refreshed.id@),
{
    lemma_done_recorded(ledger, ns, cmds, now, i);
    let l = ledger_after(ledger, ns, cmds, now);
    let one = seq![refreshed];
    assert(one.drop_last() =~= Seq::<Notification>::empty());
    assert(one.last() == refreshed);
    assert(entry_of(l, refreshed.id@) == Some(
        NotificationOverride { state: NotificationOverrideState::Suppress, marked_at: now },
    ));
    assert(merged_notifications(l, one.drop_last(), include_read).len() == 0);
    assert(cleared_ids(l, one.drop_last(), include_read).len() == 0);
    if rfc3339_seconds(refreshed.updated_at@) > now {
        assert(Notification { unread: refreshed.unread, ..refreshed } == refreshed);
        assert(Seq::<Notification>::empty().push(refreshed) =~= one);
        let ids = cleared_ids(l, one, include_read);
        assert(ids =~= seq![refreshed.id@]);
        assert(ids.drop_last() =~= Seq::<Seq<char>>::empty());
        assert(remove_all(l, ids.drop_last()) == l);
        assert(remove_all(l, ids) == remove_all(l, ids.drop_last()).remove(ids.last()));
    }
}


/// Entities that carry the time of their last update.
pub trait Dated {
    spec fn updated_at_view(&self) -> Seq<char>;

    fn updated_at_text(&self) -> (r: &str)
        ensures
            r@ == self.updated_at_view(),
    ;
}

impl Dated for Notification {
    open spec fn updated_at_view(&self) -> Seq<char> {
        self.updated_at@
    }

    fn updated_at_text(&self) -> (r: &str) {
        self.updated_at.as_str()
    }
}

impl Dated for MyPullRequest {
    open spec fn updated_at_view(&self) -> Seq<char> {
        self.updated_at@
    }

    fn updated_at_text(&self) -> (r: &str) {
        self.updated_at.as_str()
    }
}

pub open spec fn updated_seconds<T: Dated>(x: T) -> i64 {
    rfc3339_seconds(x.updated_at_view())
}

/// Most recently updated first.
pub open spec fn sorted_by_recency<T: Dated>(s: Seq<T>) -> bool {
    forall|i: int, j: int|
        0 <= i < j < s.len() ==> updated_seconds(#[trigger] s[i]) >= updated_seconds(#[trigger] s[j])
}

/// The items of `s` updated at time `t`, in their order in `s`.
pub open spec fn with_time<T: Dated>(s: Seq<T>, t: i64) -> Seq<T> {
    s.filter(|x: T| updated_seconds(x) == t)
}

proof fn lemma_none_with_time<T: Dated>(s: Seq<T>, t: i64)
    requires
        forall|i: int| 0 <= i < s.len() ==> updated_seconds(#[trigger] s[i]) != t,
    ensures
        with_time(s, t).len() == 0,
{
    let f = |x: T| updated_seconds(x) == t;
    let w = s.filter(f);
    if w.len() > 0 {
        s.lemma_filter_pred(f, 0);
        assert(w.contains(w[0]));
        s.lemma_filter_contains_rev(f, w[0]);
        let i = choose|i: int| 0 <= i < s.len() && s[i] == w[0];
        assert(updated_seconds(s[i]) != t);
    }
}

/// Orders the items by update time, most recent first; items with equal
/// times keep their order.
pub fn sort_by_updated_at<T: Dated>(items: &mut Vec<T>)
    ensures
        final(items)@.to_multiset() == old(items)@.to_multiset(),
        sorted_by_recency(final(items)@),
        forall|t: i64| #[trigger] with_time(final(items)@, t) == with_time(old(items)@, t),
{
    broadcast use vstd::seq_lib::group_to_multiset_ensures;

    let ghost before = items@;
    let mut rest: Vec<T> = Vec::new();
    std::mem::swap(&mut rest, items);
    let mut sorted: Vec<T> = Vec::new();
    assert(sorted@.to_multiset().add(rest@.to_multiset()) =~= before.to_multiset());
    while rest.len() > 0
        invariant
            sorted@.to_multiset().add(rest@.to_multiset()) == before.to_multiset(),
            sorted_by_recency(sorted@),
            forall|t: i64| #[trigger]
                with_time(sorted@, t) + with_time(rest@, t) == with_time(before, t),
        decreases rest.len(),
    {
        let ghost r0 = rest@;
        let ghost s0 = sorted@;
        let item = rest.remove(0);
        let key = parse_updated_at(item.updated_at_text());
        let mut p: usize = 0;
        while p < sorted.len() && parse_updated_at(sorted[p].updated_at_text()) >= key
            invariant
                p <= sorted.len(),
                sorted@ == s0,
                key == updated_seconds(item),
                forall|j: int| 0 <= j < p ==> updated_seconds(#[trigger] s0[j]) >= key,
            decreases sorted.len() - p,
        {
            p = p + 1;
        }
        proof {
            if p < s0.len() {
                assert(updated_seconds(s0[p as int]) < key);
            }
        }
        sorted.insert(p, item);
        proof {
            assert(r0 =~= seq![item] + rest@);
            assert(sorted@ =~= s0.take(p as int) + seq![item] + s0.skip(p as int));
            assert(s0 =~= s0.take(p as int) + s0.skip(p as int));
            assert forall|t: i64| #[trigger]
                with_time(sorted@, t) + with_time(rest@, t) == with_time(before, t) by {
                let f = |x: T| updated_seconds(x) == t;
                Seq::filter_distributes_over_add(seq![item], rest@, f);
                Seq::filter_distributes_over_add(s0.take(p as int), seq![item], f);
                Seq::filter_distributes_over_add(s0.take(p as int) + seq![item], s0.skip(p as int), f);
                Seq::filter_distributes_over_add(s0.take(p as int), s0.skip(p as int), f);
                assert(seq![item].filter(f) =~= if updated_seconds(item) == t {
                    seq![item]
                } else {
                    Seq::<T>::empty()
                }) by {
                    Seq::<T>::empty().lemma_filter_push(item, f);
                    assert(Seq::<T>::empty().filter(f) =~= Seq::<T>::empty()) by {
                        reveal(Seq::filter);
                    }
                    assert(Seq::<T>::empty().push(item) =~= seq![item]);
                }
                if updated_seconds(item) == t {
                    assert forall|i: int| 0 <= i < s0.skip(p as int).len() implies updated_seconds(
                        #[trigger] s0.skip(p as int)[i],
                    ) != t by {
                        assert(s0.skip(p as int)[i] == s0[p + i]);
                        if i > 0 {
                            assert(updated_seconds(s0[p as int]) >= updated_seconds(s0[p + i]));
                        }
                    }
                    lemma_none_with_time(s0.skip(p as int), t);
                    assert(with_time(s0.skip(p as int), t) =~= Seq::<T>::empty());
                    assert(with_time(sorted@, t) + with_time(rest@, t) =~= with_time(s0, t)
                        + with_time(r0, t));
                } else {
                    assert(with_time(sorted@, t) + with_time(rest@, t) =~= with_time(s0, t)
                        + with_time(r0, t));
                }
            }
            vstd::seq_lib::to_multiset_remove(r0, 0);
            vstd::seq_lib::to_multiset_insert(s0, p as int, item);
            vstd::seq_lib::to_multiset_contains(r0, item);
            assert(r0[0] == item);
            assert(sorted@.to_multiset().add(rest@.to_multiset()) =~= s0.to_multiset().add(
                r0.to_multiset(),
            ));
            let s1 = sorted@;
            assert forall|i: int, j: int| 0 <= i < j < s1.len() implies updated_seconds(
                #[trigger] s1[i],
            ) >= updated_seconds(#[trigger] s1[j]) by {
                if j < p {
                } else if j == p {
                    assert(s1[i] == s0[i]);
                } else if i < p {
                    assert(s1[j] == s0[j - 1]);
                    assert(updated_seconds(s0[i]) >= key);
                    assert(updated_seconds(s0[p as int]) < key);
                    if j - 1 > p {
                        assert(updated_seconds(s0[p as int]) >= updated_seconds(s0[j - 1]));
                    }
                } else if i == p {
                    assert(s1[j] == s0[j - 1]);
                    assert(updated_seconds(s0[p as int]) < key);
                    if j - 1 > p {
                        assert(updated_seconds(s0[p as int]) >= updated_seconds(s0[j - 1]));
                    }
                } else {
                    assert(s1[i] == s0[i - 1]);
                    assert(s1[j] == s0[j - 1]);
                }
            }
        }
    }
    assert(rest@.to_multiset() =~= Multiset::<T>::empty());
    assert forall|t: i64| #[trigger] with_time(sorted@, t) == with_time(before, t) by {
        assert(with_time(rest@, t) =~= Seq::<T>::empty()) by {
            lemma_none_with_time(rest@, t);
        }
        assert(with_time(sorted@, t) + with_time(rest@, t) =~= with_time(sorted@, t));
    }
    *items = sorted;
}


/// The pull requests whose URL is not in the ignore set, in order.
pub open spec fn unignored(ps: Seq<MyPullRequest>, ignored: Set<Seq<char>>) -> Seq<MyPullRequest> {
    ps.filter(|p: MyPullRequest| !ignored.contains(p.url@))
}

impl AppState {
    /// Drops the pull requests that the user ignored.
    fn retain_unignored(&self, my_prs: Vec<MyPullRequest>) -> (r: Vec<MyPullRequest>)
        ensures
            r@ == unignored(my_prs@, self.ignored_prs@),
    {
        let ghost ps = my_prs@;
        let ghost f = |p: MyPullRequest| !self.ignored_prs@.contains(p.url@);
        let mut rest = my_prs;
        let mut kept: Vec<MyPullRequest> = Vec::new();
        let mut k: usize = 0;
        let total = rest.len();
        assert(ps.take(0) =~= Seq::<MyPullRequest>::empty());
        assert(ps.skip(0) =~= ps);
        while rest.len() > 0
            invariant
                total == ps.len(),
                k + rest.len() == total,
                rest@ == ps.skip(k as int),
                f == (|p: MyPullRequest| !self.ignored_prs@.contains(p.url@)),
                kept@ == ps.take(k as int).filter(f),
            decreases rest.len(),
        {
            let pr = rest.remove(0);
            proof {
                assert(ps.skip(k + 1) =~= ps.skip(k as int).remove(0));
                assert(ps.take(k + 1) =~= ps.take(k as int).push(pr));
                ps.take(k as int).lemma_filter_push(pr, f);
            }
            if !self.ignored_prs.contains(pr.url.as_str()) {
                kept.push(pr);
            }
            k = k + 1;
        }
        assert(ps.take(k as int) =~= ps);
        kept
    }

    /// Takes a refresh: both lists ordered by recency, ignored pull requests
    /// dropped, and the notifications passed through the override ledger.
    pub fn set_data(&mut self, notifications: Vec<Notification>, my_prs: Vec<MyPullRequest>)
        ensures
            exists|ordered: Seq<Notification>|
                {
                    &&& ordered.to_multiset() == notifications@.to_multiset()
                    &&& sorted_by_recency(ordered)
                    &&& forall|t: i64| #[trigger]
                        with_time(ordered, t) == with_time(notifications@, t)
                    &&& final(self).notifications@ == merged_notifications(
                        old(self).notification_overrides@,
                        ordered,
                        old(self).include_read,
                    )
                    &&& final(self).notification_overrides@ == remove_all(
                        old(self).notification_overrides@,
                        cleared_ids(old(self).notification_overrides@, ordered, old(self).include_read),
                    )
                },
            final(self).my_prs@.to_multiset() == unignored(
                my_prs@,
                old(self).ignored_prs@,
            ).to_multiset(),
            sorted_by_recency(final(self).my_prs@),
            forall|t: i64| #[trigger]
                with_time(final(self).my_prs@, t) == with_time(
                    unignored(my_prs@, old(self).ignored_prs@),
                    t,
                ),
            !final(self).loading,
            final(self).include_read == old(self).include_read,
            final(self).ignored_prs == old(self).ignored_prs,
    {
        let mut notifications = notifications;
        sort_by_updated_at(&mut notifications);
        let ghost ordered = notifications@;
        let mut my_prs = self.retain_unignored(my_prs);
        sort_by_updated_at(&mut my_prs);
        let merged = self.apply_notification_overrides(notifications);
        self.notifications = merged;
        self.my_prs = my_prs;
        self.loading = false;
    }
}


proof fn lemma_remove_all_keeps(
    ledger: Map<Seq<char>, NotificationOverride>,
    ids: Seq<Seq<char>>,
    id: Seq<char>,
)
    requires
        !ids.contains(id),
    ensures
        remove_all(ledger, ids).contains_key(id) == ledger.contains_key(id),
        ledger.contains_key(id) ==> remove_all(ledger, ids)[id] == ledger[id],
    decreases ids.len(),
{
    if ids.len() > 0 {
        assert(!ids.drop_last().contains(id)) by {
            if ids.drop_last().contains(id) {
                let k = choose|k: int| 0 <= k < ids.drop_last().len() && ids.drop_last()[k] == id;
                assert(ids[k] == id);
            }
        }
        assert(ids.last() != id) by {
            assert(ids[ids.len() - 1] == ids.last());
        }
        lemma_remove_all_keeps(ledger, ids.drop_last(), id);
    }
}

proof fn lemma_remove_all_drops(
    ledger: Map<Seq<char>, NotificationOverride>,
    ids: Seq<Seq<char>>,
    id: Seq<char>,
)
    requires
        ids.contains(id),
    ensures
        !remove_all(ledger, ids).contains_key(id),
    decreases ids.len(),
{
    if ids.last() != id {
        assert(ids.drop_last().contains(id)) by {
            let k = choose|k: int| 0 <= k < ids.len() && ids[k] == id;
            assert(k != ids.len() - 1);
            assert(ids.drop_last()[k] == id);
        }
        lemma_remove_all_drops(ledger, ids.drop_last(), id);
    }
}

/// A refresh in which no notification of a suppressed thread shows activity
/// newer than the suppression keeps the thread hidden and its entry kept.
pub proof fn lemma_refresh_keeps_suppressed(
    ledger: Map<Seq<char>, NotificationOverride>,
    ns: Seq<Notification>,
    id: Seq<char>,
    include_read: bool,
)
    requires
        ledger.contains_key(id),
        ledger[id].state == NotificationOverrideState::Suppress,
        forall|i: int|
            0 <= i < ns.len() && (#[trigger] ns[i]).id@ == id ==> rfc3339_seconds(ns[i].updated_at@)
                <= ledger[id].marked_at,
    ensures
        forall|j: int|
            0 <= j < merged_notifications(ledger, ns, include_read).len() ==> (
            #[trigger] merged_notifications(ledger, ns, include_read)[j]).id@ != id,
        !cleared_ids(ledger, ns, include_read).contains(id),
        remove_all(ledger, cleared_ids(ledger, ns, include_read)).contains_key(id),
        remove_all(ledger, cleared_ids(ledger, ns, include_read))[id] == ledger[id],
    decreases ns.len(),
{
    if ns.len() > 0 {
        let p = ns.drop_last();
        assert forall|i: int| 0 <= i < p.len() && (#[trigger] p[i]).id@ == id implies rfc3339_seconds(
            p[i].updated_at@,
        ) <= ledger[id].marked_at by {
            assert(p[i] == ns[i]);
        }
        lemma_refresh_keeps_suppressed(ledger, p, id, include_read);
        let last = ns.last();
        assert(last == ns[ns.len() - 1]);
        let prev = merged_notifications(ledger, p, include_read);
        let m = merged_notifications(ledger, ns, include_read);
        assert forall|j: int| 0 <= j < m.len() implies (#[trigger] m[j]).id@ != id by {
            if j < prev.len() {
                assert(m[j] == prev[j]);
            }
        }
        let pc = cleared_ids(ledger, p, include_read);
        let c = cleared_ids(ledger, ns, include_read);
        assert(!c.contains(id)) by {
            if c.contains(id) {
                let k = choose|k: int| 0 <= k < c.len() && c[k] == id;
                if k < pc.len() {
                    assert(pc[k] == id);
                }
            }
        }
    }
    lemma_remove_all_keeps(ledger, cleared_ids(ledger, ns, include_read), id);
}

/// A refreshed notification whose thread has a ledger entry older than its
/// activity comes back exactly as the server reported it, and the entry is
/// discarded.
pub proof fn lemma_refresh_surfaces_newer_activity(
    ledger: Map<Seq<char>, NotificationOverride>,
    ns: Seq<Notification>,
    i: int,
    include_read: bool,
)
    requires
        0 <= i < ns.len(),
        ledger.contains_key(ns[i].id@),
        rfc3339_seconds(ns[i].updated_at@) > ledger[ns[i].id@].marked_at,
    ensures
        merged_notifications(ledger, ns, include_read).contains(ns[i]),
        !remove_all(ledger, cleared_ids(ledger, ns, include_read)).contains_key(ns[i].id@),
    decreases ns.len(),
{
    let n = ns[i];
    let m = merged_notifications(ledger, ns, include_read);
    let c = cleared_ids(ledger, ns, include_read);
    if i < ns.len() - 1 {
        let p = ns.drop_last();
        assert(p[i] == n);
        lemma_refresh_surfaces_newer_activity(ledger, p, i, include_read);
        let prev = merged_notifications(ledger, p, include_read);
        let k = choose|k: int| 0 <= k < prev.len() && prev[k] == n;
        assert(m[k] == n);
        let pc = cleared_ids(ledger, p, include_read);
        assert(pc.contains(n.id@)) by {
            if !pc.contains(n.id@) {
                lemma_remove_all_keeps(ledger, pc, n.id@);
            }
        }
        let kc = choose|kc: int| 0 <= kc < pc.len() && pc[kc] == n.id@;
        assert(c[kc] == n.id@);
    } else {
        assert(ns.last() == n);
        assert(Notification { unread: n.unread, ..n } == n);
        assert(m[m.len() - 1] == n);
        assert(c[c.len() - 1] == n.id@);
    }
    lemma_remove_all_drops(ledger, c, n.id@);
}


/// Typing `1q` with one authored pull request and no notifications marks
/// that pull request for unsubscribing; the optimistic update then removes it
/// and adds its URL to the ignore set.
pub proof fn lemma_ignore_only_pull_request(pr: MyPullRequest, ignored: Set<Seq<char>>)
    ensures
        filter_spec(
            parse_spec("1q"@, 1, target_table(seq![], seq![pr])),
            seq![],
            seq![pr],
        ) == map![1usize => seq![Action::Unsubscribe]],
        prs_after(seq![pr], 0, map![1usize => seq![Action::Unsubscribe]]).len() == 0,
        ignored_after(ignored, seq![pr], 0, map![1usize => seq![Action::Unsubscribe]])
            == ignored.insert(pr.url@),
{
    reveal_strlit("1q");
    let input = "1q"@;
    let t = target_table(seq![], seq![pr]);
    let one = seq!['1'];
    assert(input.drop_last() =~= one);
    assert(one.drop_last() =~= Seq::<char>::empty());
    assert(digits_value(one) == 1) by {
        assert(digits_value(one.drop_last()) == 0);
    }
    assert(valid_prefix_len(one, 1) == 1);
    assert(one.take(1) =~= one);
    assert(one.skip(1) =~= Seq::<char>::empty());
    assert(split_indices(Seq::<char>::empty(), 1) =~= Seq::<usize>::empty());
    assert(digits_value(one.take(1)) == 1);
    assert(split_indices(one, 1) =~= seq![1usize]);
    let st = scan(input, 1, t);
    let ix = seq![1usize];
    assert(ix.drop_last() =~= Seq::<usize>::empty());
    assert(Seq::<usize>::empty() + split_indices(one, 1) =~= ix);
    let res = record_action(Map::empty(), ix, Action::Unsubscribe);
    assert(res =~= map![1usize => seq![Action::Unsubscribe]]) by {
        assert(record_action(Map::empty(), ix.drop_last(), Action::Unsubscribe) == Map::<
            usize,
            Seq<Action>,
        >::empty());
        assert(seq![Action::Unsubscribe] =~= Seq::<Action>::empty().push(Action::Unsubscribe));
    }
    let s0 = scan(Seq::<char>::empty(), 1, t);
    assert(s0 == crate::commands::initial_scan());
    assert(Seq::<char>::empty().push('1') =~= one);
    assert(one.last() == '1' && input.last() == 'q');
    let s1 = scan(one, 1, t);
    assert(s1 == (crate::commands::Scan { digits: one, ..crate::commands::initial_scan() }));
    assert(crate::commands::finalize_pending_spec(s1, 1).indices == ix);
    assert(st.result == res);
    let f = filter_spec(res, seq![], seq![pr]);
    let kind = PendingEntry::MyPullRequest;
    let acts = seq![Action::Unsubscribe];
    assert(acts.drop_last() =~= Seq::<Action>::empty());
    assert(keep_allowed(Seq::<Action>::empty(), kind) == Seq::<Action>::empty());
    assert(Seq::<Action>::empty().push(Action::Unsubscribe) =~= acts);
    assert(keep_allowed(acts, kind) =~= acts);
    assert(f =~= map![1usize => seq![Action::Unsubscribe]]);
    let cmds = map![1usize => seq![Action::Unsubscribe]];
    let ps = seq![pr];
    assert(ps.drop_last() =~= Seq::<MyPullRequest>::empty());
    assert(actions_at(cmds, 1) == acts);
    assert(acts.contains(Action::Unsubscribe)) by {
        assert(acts[0] == Action::Unsubscribe);
    }
    assert(ignores_pull_request(0, 0, cmds));
    assert(ps.last() == pr);
    assert(prs_after(Seq::<MyPullRequest>::empty(), 0, cmds).len() == 0);
    assert(ignored_after(ignored, Seq::<MyPullRequest>::empty(), 0, cmds) == ignored);
    assert(prs_after(ps, 0, cmds) == prs_after(ps.drop_last(), 0, cmds));
    assert(ignored_after(ignored, ps, 0, cmds) == ignored_after(ignored, ps.drop_last(), 0, cmds).insert(
        pr.url@,
    ));
}


/// The unread alias lists the unread notifications, ascending.
proof fn lemma_unread_alias(ns: Seq<Notification>)
    requires
        ns.len() <= usize::MAX,
    ensures
        forall|j: int|
            0 <= j < notification_alias_indices('u', ns).len() ==> {
                let k = #[trigger] notification_alias_indices('u', ns)[j];
                1 <= k <= ns.len() && ns[k - 1].unread
            },
        forall|a: int, b: int|
            0 <= a < b < notification_alias_indices('u', ns).len() ==> #[trigger] notification_alias_indices(
                'u',
                ns,
            )[a] < #[trigger] notification_alias_indices('u', ns)[b],
        forall|k: int|
            1 <= k <= ns.len() && ns[k - 1].unread ==> #[trigger] notification_alias_indices(
                'u',
                ns,
            ).contains(k as usize),
    decreases ns.len(),
{
    if ns.len() > 0 {
        let p = ns.drop_last();
        lemma_unread_alias(p);
        let g0 = notification_alias_indices('u', p);
        let g = notification_alias_indices('u', ns);
        assert forall|j: int| 0 <= j < g.len() implies {
            let k = #[trigger] g[j];
            1 <= k <= ns.len() && ns[k - 1].unread
        } by {
            if j < g0.len() {
                assert(g[j] == g0[j]);
                assert(p[g0[j] - 1] == ns[g0[j] - 1]);
            }
        }
        assert forall|k: int| 1 <= k <= ns.len() && ns[k - 1].unread implies #[trigger] g.contains(
            k as usize,
        ) by {
            if k < ns.len() {
                assert(p[k - 1] == ns[k - 1]);
                assert(g0.contains(k as usize));
                let j = choose|j: int| 0 <= j < g0.len() && g0[j] == k as usize;
                assert(g[j] == k as usize);
            } else {
                assert(g[g.len() - 1] == k as usize);
            }
        }
    }
}

proof fn lemma_add_missing_distinct(g: Seq<usize>)
    requires
        g.no_duplicates(),
    ensures
        add_missing(seq![], g) == g,
    decreases g.len(),
{
    if g.len() > 0 {
        let p = g.drop_last();
        assert(p.no_duplicates());
        lemma_add_missing_distinct(p);
        assert(!p.contains(g.last())) by {
            if p.contains(g.last()) {
                let k = choose|k: int| 0 <= k < p.len() && p[k] == g.last();
                assert(g[k] == g[g.len() - 1]);
            }
        }
        assert(p.push(g.last()) =~= g);
    } else {
        assert(g =~= Seq::<usize>::empty());
    }
}

/// Typing `u d` marks exactly the unread notifications done; in the view of
/// unread notifications only, the optimistic update then leaves exactly the
/// read ones, in order.
pub proof fn lemma_done_on_unread(ns: Seq<Notification>)
    requires
        ns.len() <= usize::MAX,
    ensures
        ({
            let cmds = filter_spec(
                parse_spec("u d"@, ns.len() as int, target_table(ns, seq![])),
                ns,
                seq![],
            );
            &&& forall|k: usize|
                #[trigger] cmds.contains_key(k) <==> (1 <= k <= ns.len() && ns[k - 1].unread)
            &&& forall|k: usize| #[trigger] cmds.contains_key(k) ==> cmds[k] == seq![Action::Done]
            &&& notifications_after(ns, cmds, false) == ns.filter(|n: Notification| !n.unread)
        }),
{
    reveal_strlit("u d");
    let input = "u d"@;
    let n = ns.len() as int;
    let t = target_table(ns, seq![]);
    lemma_unread_alias(ns);
    let g = notification_alias_indices('u', ns);
    assert(pull_request_alias_indices('u', n, seq![]) == Seq::<usize>::empty());
    assert(alias_indices('u', ns, seq![]) =~= g);
    assert(g.no_duplicates()) by {
        assert forall|a: int, b: int| 0 <= a < g.len() && 0 <= b < g.len() && a != b implies g[a]
            != g[b] by {
            if a < b {
                assert(g[a] < g[b]);
            } else {
                assert(g[b] < g[a]);
            }
        }
    }
    lemma_add_missing_distinct(g);
    // The scanner after `u`, after `u `, and after `u d`.
    let p1 = input.take(1);
    let p2 = input.take(2);
    assert(p1.drop_last() =~= Seq::<char>::empty());
    assert(p2.drop_last() =~= p1);
    assert(input.drop_last() =~= p2);
    assert(p1.last() == 'u' && p2.last() == ' ' && input.last() == 'd');
    let init = initial_scan();
    assert(scan(Seq::<char>::empty(), n, t) == init);
    assert(finalize_pending_spec(init, n) == init);
    let s1 = scan(p1, n, t);
    let ix = if g.len() > 0 {
        g
    } else {
        seq![]
    };
    assert(t.contains_key('u') == (g.len() > 0));
    if g.len() > 0 {
        assert(t['u'] == g);
    }
    assert(s1 == (Scan { indices: ix, ..init }));
    let s2 = scan(p2, n, t);
    assert(s2 == s1);
    let res = record_action(Map::empty(), ix, Action::Done);
    assert(scan(input, n, t).result == res);
    assert(ix =~= g) by {
        if g.len() == 0 {
            assert(g =~= Seq::<usize>::empty());
        }
    }
    lemma_record_action_distinct(Map::empty(), g, Action::Done);
    assert(Seq::<Action>::empty().push(Action::Done) =~= seq![Action::Done]);
    let done = seq![Action::Done];
    assert(done.drop_last() =~= Seq::<Action>::empty());
    assert(keep_allowed(Seq::<Action>::empty(), PendingEntry::Notification { is_pull_request: true })
        == Seq::<Action>::empty());
    assert(keep_allowed(Seq::<Action>::empty(), PendingEntry::Notification { is_pull_request: false })
        == Seq::<Action>::empty());
    let cmds = filter_spec(res, ns, seq![]);
    assert forall|k: usize| #[trigger] cmds.contains_key(k) <==> (1 <= k <= ns.len() && ns[k
        - 1].unread) by {
        if res.contains_key(k) {
            assert(g.contains(k));
            let j = choose|j: int| 0 <= j < g.len() && g[j] == k;
            assert(1 <= g[j] <= ns.len());
            let e = entry_kind(k as int, ns, seq![]);
            assert(keep_allowed(done, e->0) =~= done);
        }
        if 1 <= k <= ns.len() && ns[k - 1].unread {
            assert(g.contains(k as usize));
        }
    }
    assert forall|k: usize| #[trigger] cmds.contains_key(k) implies cmds[k] == seq![Action::Done] by {
        assert(g.contains(k));
        let e = entry_kind(k as int, ns, seq![]);
        assert(keep_allowed(done, e->0) =~= done);
    }
    let f = |x: Notification| !x.unread;
    assert forall|m: int| 0 <= m <= ns.len() implies #[trigger] notifications_after(
        ns.take(m),
        cmds,
        false,
    ) == ns.take(m).filter(f) by {
        lemma_prefix_after_done(ns, cmds, m);
    }
    assert(ns.take(ns.len() as int) =~= ns);
}

proof fn lemma_prefix_after_done(ns: Seq<Notification>, cmds: Map<usize, Seq<Action>>, m: int)
    requires
        0 <= m <= ns.len() <= usize::MAX,
        forall|k: usize| #[trigger] cmds.contains_key(k) <==> (1 <= k <= ns.len() && ns[k - 1].unread),
        forall|k: usize| #[trigger] cmds.contains_key(k) ==> cmds[k] == seq![Action::Done],
    ensures
        notifications_after(ns.take(m), cmds, false) == ns.take(m).filter(
            |x: Notification| !x.unread,
        ),
    decreases m,
{
    let f = |x: Notification| !x.unread;
    if m == 0 {
        assert(ns.take(0) =~= Seq::<Notification>::empty());
        assert(Seq::<Notification>::empty().filter(f) =~= Seq::<Notification>::empty()) by {
            reveal(Seq::filter);
        }
    } else {
        lemma_prefix_after_done(ns, cmds, m - 1);
        let q = ns.take(m);
        assert(q.drop_last() =~= ns.take(m - 1));
        assert(q.last() == ns[m - 1]);
        ns.take(m - 1).lemma_filter_push(ns[m - 1], f);
        assert(ns.take(m - 1).push(ns[m - 1]) =~= q);
        let acts = actions_at(cmds, m);
        let x = ns[m - 1];
        if x.unread {
            assert(cmds.contains_key(m as usize));
            assert(acts == seq![Action::Done]);
            assert(acts.contains(Action::Done)) by {
                assert(acts[0] == Action::Done);
            }
        } else {
            assert(!cmds.contains_key(m as usize));
            assert(acts == Seq::<Action>::empty());
            assert(Notification { unread: x.unread && override_from(acts) is None, ..x } == x);
        }
    }
}

} // verus!
