use vstd::prelude::*;

verus! {

/// A notification thread as the remote service reports it.
#[derive(Debug, Clone)]
pub struct Notification {
    pub id: String,
    pub node_id: String,
    pub subject_id: Option<String>,
    pub unread: bool,
    pub reason: String,
    pub updated_at: String,
    pub subject: Subject,
    pub repository: Repository,
    pub url: String,
}

/// An open pull request authored by the viewer.
#[derive(Debug, Clone)]
pub struct MyPullRequest {
    pub id: String,
    pub updated_at: String,
    pub subject: Subject,
    pub repository: Repository,
    pub url: String,
}

#[derive(Debug, Clone)]
pub struct Subject {
    pub title: String,
    pub url: String,
    pub kind: String,
    pub author: Option<String>,
    pub status: Vec<SubjectStatus>,
    pub ci_status: Option<CiStatus>,
    pub review_status: Option<ReviewStatus>,
    pub head_ref: Option<String>,
}

#[derive(Debug, Clone, Copy, PartialEq, Eq, Structural)]
pub enum MergeMethod {
    Merge,
    Squash,
    Rebase,
}

impl MergeMethod {
    pub open spec fn graphql_name(self) -> Seq<char> {
        match self {
            MergeMethod::Merge => "MERGE"@,
            MergeMethod::Squash => "SQUASH"@,
            MergeMethod::Rebase => "REBASE"@,
        }
    }

    pub fn as_graphql(self) -> (r: &'static str)
        ensures
            r@ == self.graphql_name(),
    {
        match self {
            MergeMethod::Merge => "MERGE",
            MergeMethod::Squash => "SQUASH",
            MergeMethod::Rebase => "REBASE",
        }
    }
}

#[derive(Debug, Clone, Copy, PartialEq, Eq, Structural)]
pub struct MergeSettings {
    pub default_method: Option<MergeMethod>,
    pub merge_commit_allowed: bool,
    pub squash_merge_allowed: bool,
    pub rebase_merge_allowed: bool,
    pub auto_merge_allowed: bool,
}

impl MergeSettings {
    pub open spec fn allows(self, method: MergeMethod) -> bool {
        match method {
            MergeMethod::Merge => self.merge_commit_allowed,
            MergeMethod::Squash => self.squash_merge_allowed,
            MergeMethod::Rebase => self.rebase_merge_allowed,
        }
    }

    /// The default method when the repository allows it, else the first
    /// allowed one in the order merge, squash, rebase.
    pub open spec fn chosen_method(self) -> Option<MergeMethod> {
        if self.default_method.is_some() && self.allows(self.default_method->0) {
            self.default_method
        } else if self.merge_commit_allowed {
            Some(MergeMethod::Merge)
        } else if self.squash_merge_allowed {
            Some(MergeMethod::Squash)
        } else if self.rebase_merge_allowed {
            Some(MergeMethod::Rebase)
        } else {
            None
        }
    }

    pub fn default_or_fallback(&self) -> (r: Option<MergeMethod>)
        ensures
            r == self.chosen_method(),
    {
        if let Some(method) = self.default_method {
            if self.is_allowed(method) {
                return Some(method);
            }
        }
        if self.merge_commit_allowed {
            return Some(MergeMethod::Merge);
        }
        if self.squash_merge_allowed {
            return Some(MergeMethod::Squash);
        }
        if self.rebase_merge_allowed {
            return Some(MergeMethod::Rebase);
        }
        None
    }

    pub fn is_allowed(&self, method: MergeMethod) -> (r: bool)
        ensures
            r == self.allows(method),
    {
        match method {
            MergeMethod::Merge => self.merge_commit_allowed,
            MergeMethod::Squash => self.squash_merge_allowed,
            MergeMethod::Rebase => self.rebase_merge_allowed,
        }
    }
}

#[derive(Debug, Clone)]
pub struct Repository {
    pub name: String,
    pub full_name: String,
    /// Only pull requests carry merge settings.
    pub merge_settings: Option<MergeSettings>,
}

#[derive(Debug, Clone, Copy, PartialEq, Eq, Structural)]
pub enum SubjectStatus {
    Draft,
    Merged,
    Closed,
}

impl SubjectStatus {
    pub open spec fn label_text(self) -> Seq<char> {
        match self {
            SubjectStatus::Draft => "Draft"@,
            SubjectStatus::Merged => "Merged"@,
            SubjectStatus::Closed => "Closed"@,
        }
    }

    pub fn label(self) -> (r: &'static str)
        ensures
            r@ == self.label_text(),
    {
        match self {
            SubjectStatus::Draft => "Draft",
            SubjectStatus::Merged => "Merged",
            SubjectStatus::Closed => "Closed",
        }
    }
}

#[derive(Debug, Clone, Copy, PartialEq, Eq, Structural)]
pub enum CiStatus {
    Success,
    Pending,
    Failure,
}

#[derive(Debug, Clone, Copy, PartialEq, Eq, Structural)]
pub enum ReviewStatus {
    Approved,
    ChangesRequested,
    ReviewRequired,
}

#[derive(Debug, Clone, Copy, PartialEq, Eq, Hash, Structural)]
pub enum Action {
    Open,
    Yank,
    Read,
    Done,
    Unsubscribe,
    Review,
    Branch,
}

/// The mnemonic of each action.
pub open spec fn action_char(a: Action) -> char {
    match a {
        Action::Open => 'o',
        Action::Yank => 'y',
        Action::Read => 'r',
        Action::Done => 'd',
        Action::Unsubscribe => 'q',
        Action::Review => 'p',
        Action::Branch => 'b',
    }
}

/// The action whose mnemonic is `c`, if any.
pub open spec fn action_of(c: char) -> Option<Action> {
    if c == 'o' {
        Some(Action::Open)
    } else if c == 'y' {
        Some(Action::Yank)
    } else if c == 'r' {
        Some(Action::Read)
    } else if c == 'd' {
        Some(Action::Done)
    } else if c == 'q' {
        Some(Action::Unsubscribe)
    } else if c == 'p' {
        Some(Action::Review)
    } else if c == 'b' {
        Some(Action::Branch)
    } else {
        None
    }
}

impl Action {
    pub fn from_char(ch: char) -> (r: Option<Action>)
        ensures
            r == action_of(ch),
    {
        match ch {
            'o' => Some(Action::Open),
            'y' => Some(Action::Yank),
            'r' => Some(Action::Read),
            'd' => Some(Action::Done),
            'q' => Some(Action::Unsubscribe),
            'p' => Some(Action::Review),
            'b' => Some(Action::Branch),
            _ => None,
        }
    }

    pub fn as_char(self) -> (r: char)
        ensures
            r == action_char(self),
    {
        match self {
            Action::Open => 'o',
            Action::Yank => 'y',
            Action::Read => 'r',
            Action::Done => 'd',
            Action::Unsubscribe => 'q',
            Action::Review => 'p',
            Action::Branch => 'b',
        }
    }
}

/// Mnemonics and actions are in one-to-one correspondence.
pub proof fn lemma_action_char_round_trip(a: Action, c: char)
    ensures
        action_of(action_char(a)) == Some(a),
        action_of(c) is Some ==> action_char(action_of(c)->0) == c,
{
}

/// The envelope of a GraphQL answer: its data, or the errors it reports.
pub struct GraphQlResponse<T> {
    pub data: Option<T>,
    pub errors: Option<Vec<GraphQlError>>,
}

pub struct GraphQlError {
    pub kind: Option<String>,
    pub message: String,
}

} // verus!
