use vstd::prelude::*;

use crate::text::{
    chars_of, push_decimal, decimal, lemma_trimmed_len, push_str, string_from_chars, trim_chars, trimmed,
};
use crate::types::{Subject, SubjectStatus};
use crate::state::{parse_rfc3339, rfc3339_instant};
use crate::ui::{ordered_statuses, ordered_statuses_spec};

verus! {

pub const COMMANDS_FULL: &'static str =
    "Commands: o open/read  y yank  r read  d done  q unsub/ignore  p review  b branch";

pub const COMMANDS_COMPACT: &'static str = "Cmds: o open/read  y yank  r read  d done  q unsub/ign  p review  b branch";

pub const COMMANDS_SHORT: &'static str = "Cmds o/y/r/d/q/p/b";

pub const COMMANDS_TINY: &'static str = "o y r d q p b";

pub const TARGETS_FULL: &'static str =
    "Targets: 1-3, 1 2 3, u unread, ? pending review, a approved, x changes requested, m merged, c closed, f draft";

pub const TARGETS_COMPACT: &'static str =
    "Targets: 1-3/1 2 3, u unread, ? review, a appr, x chg, m merged, c closed, f draft";

pub const TARGETS_SHORT: &'static str = "Tgt 1-3/1 2 3 u ? a x m c f";

pub const TARGETS_TINY: &'static str = "1-3 u ? a x m c f";

pub const LEGEND_SEPARATOR: &'static str = "  |  ";

pub const REPO_AUTHOR_SEPARATOR: &'static str = " · ";

pub const MAX_KIND_WIDTH: usize = 14;

pub const MAX_TIME_WIDTH: usize = 6;

pub const MIN_KIND_WIDTH: usize = 3;

pub const MIN_TIME_WIDTH: usize = 2;

pub const NUMBER_MARKER_GAP: usize = 2;

pub const MARKER_REPO_GAP: usize = 2;

pub const MAX_CI_WIDTH: usize = 1;

pub const MAX_REVIEW_WIDTH: usize = 1;

pub const REPO_META_GAP: usize = 2;

pub const MIN_AUTHOR_WIDTH: usize = 4;

pub const MAX_AUTHOR_WIDTH: usize = 18;

pub const CI_REVIEW_GAP: usize = 1;

pub const INDICATOR_KIND_GAP: usize = 1;

/// Position of the last space among the first `k` characters of `t`; -1
/// when there is none.
pub open spec fn last_space_before(t: Seq<char>, k: int) -> int
    decreases k,
{
    if k <= 0 {
        -1
    } else if t[k - 1] == ' ' {
        k - 1
    } else {
        last_space_before(t, k - 1)
    }
}

/// `value` shortened to at most `max` characters: kept whole when it fits,
/// cut hard when `max` is two or less, and otherwise cut to `max - 2`
/// characters (back to the last space when that leaves at least four) with
/// `..` appended.
pub open spec fn truncated(value: Seq<char>, max: nat) -> Seq<char> {
    if max == 0 {
        seq![]
    } else if value.len() <= max {
        value
    } else if max <= 2 {
        value.take(max as int)
    } else {
        let head = value.take(max - 2);
        let space = last_space_before(head, head.len() as int);
        let kept = if space >= 4 {
            head.take(space)
        } else {
            head
        };
        kept + ".."@
    }
}

pub proof fn lemma_truncated_len(value: Seq<char>, max: nat)
    ensures
        truncated(value, max).len() <= max,
        truncated(value, max).len() <= value.len() || (max > 2 && value.len() > max),
{
    reveal_strlit("..");
    if max > 2 && value.len() > max {
        let head = value.take(max - 2);
        lemma_last_space_bound(head, head.len() as int);
    }
}

proof fn lemma_last_space_bound(t: Seq<char>, k: int)
    requires
        0 <= k <= t.len(),
    ensures
        last_space_before(t, k) < k,
        last_space_before(t, k) >= 0 ==> t[last_space_before(t, k)] == ' ',
    decreases k,
{
    if k > 0 && t[k - 1] != ' ' {
        lemma_last_space_bound(t, k - 1);
    }
}

pub fn truncate_with_suffix(value: &str, max: usize) -> (r: String)
    ensures
        r@ == truncated(value@, max as nat),
{
    if max == 0 {
        return String::new();
    }
    let chars = chars_of(value);
    if chars.len() <= max {
        return value.to_owned();
    }
    let mut out: Vec<char> = Vec::new();
    if max <= 2 {
        let mut i: usize = 0;
        while i < max
            invariant
                i <= max < chars.len(),
                out@ == chars@.take(i as int),
            decreases max - i,
        {
            out.push(chars[i]);
            proof {
                assert(chars@.take(i + 1) =~= chars@.take(i as int).push(chars@[i as int]));
            }
            i = i + 1;
        }
        return string_from_chars(&out);
    }
    let cut = max - 2;
    let ghost head = chars@.take(cut as int);
    let mut space: usize = cut;
    let mut found = false;
    while space > 0 && !found
        invariant
            space <= cut < chars.len(),
            head == chars@.take(cut as int),
            found ==> space < cut && chars@[space as int] == ' ' && last_space_before(
                head,
                cut as int,
            ) == space,
            !found ==> last_space_before(head, cut as int) == last_space_before(head, space as int),
        decreases space + if found {
            0int
        } else {
            1int
        },
    {
        if chars[space - 1] == ' ' {
            space = space - 1;
            found = true;
        } else {
            space = space - 1;
        }
    }
    let keep = if found && space >= 4 {
        space
    } else {
        cut
    };
    proof {
        if !found {
            assert(last_space_before(head, 0) == -1);
        }
    }
    let mut i: usize = 0;
    while i < keep
        invariant
            i <= keep <= cut < chars.len(),
            out@ == chars@.take(i as int),
        decreases keep - i,
    {
        out.push(chars[i]);
        proof {
            assert(chars@.take(i + 1) =~= chars@.take(i as int).push(chars@[i as int]));
        }
        i = i + 1;
    }
    push_str(&mut out, "..");
    proof {
        assert(head.take(keep as int) =~= chars@.take(keep as int));
        assert(head =~= chars@.take(cut as int));
    }
    string_from_chars(&out)
}


/// The author to show: trimmed, and only when something is left.
pub open spec fn shown_author(author: Option<Seq<char>>) -> Option<Seq<char>> {
    match author {
        Some(a) => if trimmed(a).len() > 0 {
            Some(trimmed(a))
        } else {
            None
        },
        None => None,
    }
}

pub open spec fn sat_sub(a: int, b: int) -> int {
    if a >= b {
        a - b
    } else {
        0
    }
}

/// The repository label, the author label if it fits, and the width used:
/// the author is shown, truncated to at most eighteen characters, only when
/// at least four of its characters fit beside the repository.
pub open spec fn repo_and_author_spec(repo: Seq<char>, author: Option<Seq<char>>, max: nat) -> (
    Seq<char>,
    Option<Seq<char>>,
    nat,
) {
    let sep = REPO_AUTHOR_SEPARATOR@.len() as int;
    let fallback = (truncated(repo, max), None::<Seq<char>>, truncated(repo, max).len());
    if max == 0 {
        (seq![], None, 0)
    } else {
        match shown_author(author) {
            Some(a) => {
                let max_author = if sat_sub(max as int, sep + 1) < MAX_AUTHOR_WIDTH {
                    sat_sub(max as int, sep + 1)
                } else {
                    MAX_AUTHOR_WIDTH as int
                };
                let author_text = truncated(a, max_author as nat);
                let repo_max = if sat_sub(max as int, sep + author_text.len()) > 1 {
                    sat_sub(max as int, sep + author_text.len())
                } else {
                    1
                };
                let repo_text = truncated(repo, repo_max as nat);
                if max_author >= MIN_AUTHOR_WIDTH && author_text.len() >= MIN_AUTHOR_WIDTH {
                    (repo_text, Some(author_text), (repo_text.len() + sep + author_text.len()) as nat)
                } else {
                    fallback
                }
            },
            None => fallback,
        }
    }
}

fn trimmed_author(author: Option<&str>) -> (r: Option<String>)
    ensures
        match r {
            Some(s) => shown_author(
                match author {
                    Some(a) => Some(a@),
                    None => None,
                },
            ) == Some(s@),
            None => shown_author(
                match author {
                    Some(a) => Some(a@),
                    None => None,
                },
            ) is None,
        },
{
    match author {
        Some(a) => {
            let t = trim_chars(&chars_of(a));
            if t.len() > 0 {
                Some(string_from_chars(&t))
            } else {
                None
            }
        },
        None => None,
    }
}

pub fn render_repo_and_author(repo: &str, author: Option<&str>, max: usize) -> (r: (
    String,
    Option<String>,
    usize,
))
    ensures
        ({
            let expected = repo_and_author_spec(
                repo@,
                match author {
                    Some(a) => Some(a@),
                    None => None,
                },
                max as nat,
            );
            &&& r.0@ == expected.0
            &&& match r.1 {
                Some(a) => expected.1 == Some(a@),
                None => expected.1 is None,
            }
            &&& r.2 == expected.2
        }),
{
    proof {
        reveal_strlit(" · ");
    }
    if max == 0 {
        return (String::new(), None, 0);
    }
    let separator_width: usize = REPO_AUTHOR_SEPARATOR.unicode_len();
    if let Some(author) = trimmed_author(author) {
        let room = if max >= separator_width + 1 {
            max - (separator_width + 1)
        } else {
            0
        };
        let max_author = if room < MAX_AUTHOR_WIDTH {
            room
        } else {
            MAX_AUTHOR_WIDTH
        };
        if max_author >= MIN_AUTHOR_WIDTH {
            let author_text = truncate_with_suffix(author.as_str(), max_author);
            let author_width = author_text.as_str().unicode_len();
            proof {
                lemma_truncated_len(author@, max_author as nat);
            }
            if author_width >= MIN_AUTHOR_WIDTH {
                let left = if max >= separator_width + author_width {
                    max - (separator_width + author_width)
                } else {
                    0
                };
                let repo_max = if left > 1 {
                    left
                } else {
                    1
                };
                let repo_text = truncate_with_suffix(repo, repo_max);
                proof {
                    lemma_truncated_len(repo@, repo_max as nat);
                }
                let used = repo_text.as_str().unicode_len() + separator_width + author_width;
                return (repo_text, Some(author_text), used);
            }
        }
    }
    let repo_text = truncate_with_suffix(repo, max);
    let used = repo_text.as_str().unicode_len();
    (repo_text, None, used)
}

/// Width of the repository label with the author beside it.
pub open spec fn repo_label_width_spec(repo: Seq<char>, author: Option<Seq<char>>) -> nat {
    repo.len() + match shown_author(author) {
        Some(a) => REPO_AUTHOR_SEPARATOR@.len() + a.len(),
        None => 0,
    }
}

pub fn repo_label_width(repo: &str, author: Option<&str>) -> (r: usize)
    requires
        repo@.len() + 3 + match author {
            Some(a) => a@.len(),
            None => 0,
        } <= usize::MAX,
    ensures
        r == repo_label_width_spec(
            repo@,
            match author {
                Some(a) => Some(a@),
                None => None,
            },
        ),
{
    proof {
        reveal_strlit(" · ");
    }
    let repo_width = repo.unicode_len();
    let author_width = match trimmed_author(author) {
        Some(a) => {
            proof {
                if let Some(x) = author {
                    lemma_trimmed_len(x@);
                }
            }
            REPO_AUTHOR_SEPARATOR.unicode_len() + a.as_str().unicode_len()
        },
        None => 0,
    };
    repo_width + author_width
}

pub open spec fn legend_commands(v: int) -> Seq<char> {
    if v == 0 {
        COMMANDS_FULL@
    } else if v == 1 {
        COMMANDS_COMPACT@
    } else if v == 2 {
        COMMANDS_SHORT@
    } else {
        COMMANDS_TINY@
    }
}

pub open spec fn legend_targets(v: int) -> Seq<char> {
    if v == 0 {
        TARGETS_FULL@
    } else if v == 1 {
        TARGETS_COMPACT@
    } else if v == 2 {
        TARGETS_SHORT@
    } else {
        TARGETS_TINY@
    }
}

/// The most descriptive legend, from variant `v` on, that fits `width`: on
/// one line if it can, else on two; the tiniest one truncated if none fits.
pub open spec fn legend_from(v: int, width: nat) -> Seq<Seq<char>>
    decreases 4 - v,
{
    if v >= 4 {
        seq![truncated(COMMANDS_TINY@, width), truncated(TARGETS_TINY@, width)]
    } else {
        let single = legend_commands(v) + LEGEND_SEPARATOR@ + legend_targets(v);
        if single.len() <= width {
            seq![single]
        } else if legend_commands(v).len() <= width && legend_targets(v).len() <= width {
            seq![legend_commands(v), legend_targets(v)]
        } else {
            legend_from(v + 1, width)
        }
    }
}

fn legend_variant(v: usize) -> (r: (&'static str, &'static str))
    requires
        v < 4,
    ensures
        r.0@ == legend_commands(v as int),
        r.1@ == legend_targets(v as int),
{
    if v == 0 {
        (COMMANDS_FULL, TARGETS_FULL)
    } else if v == 1 {
        (COMMANDS_COMPACT, TARGETS_COMPACT)
    } else if v == 2 {
        (COMMANDS_SHORT, TARGETS_SHORT)
    } else {
        (COMMANDS_TINY, TARGETS_TINY)
    }
}

pub open spec fn strings_view(v: Seq<String>) -> Seq<Seq<char>> {
    v.map_values(|s: String| s@)
}

pub fn select_legend_lines(width: usize) -> (r: Vec<String>)
    ensures
        strings_view(r@) == legend_from(0, width as nat),
{
    let mut v: usize = 0;
    while v < 4
        invariant
            v <= 4,
            legend_from(v as int, width as nat) == legend_from(0, width as nat),
        decreases 4 - v,
    {
        let (commands, targets) = legend_variant(v);
        let mut single: Vec<char> = Vec::new();
        push_str(&mut single, commands);
        push_str(&mut single, LEGEND_SEPARATOR);
        push_str(&mut single, targets);
        assert(single@ =~= legend_commands(v as int) + LEGEND_SEPARATOR@ + legend_targets(v as int));
        if single.len() <= width {
            let mut out: Vec<String> = Vec::new();
            out.push(string_from_chars(&single));
            assert(strings_view(out@) =~= seq![single@]);
            return out;
        }
        if commands.unicode_len() <= width && targets.unicode_len() <= width {
            let mut out: Vec<String> = Vec::new();
            out.push(commands.to_owned());
            out.push(targets.to_owned());
            assert(strings_view(out@) =~= seq![commands@, targets@]);
            return out;
        }
        v = v + 1;
    }
    let mut out: Vec<String> = Vec::new();
    out.push(truncate_with_suffix(COMMANDS_TINY, width));
    out.push(truncate_with_suffix(TARGETS_TINY, width));
    assert(strings_view(out@) =~= legend_from(4, width as nat));
    out
}

/// The status line (trimmed, truncated to the width; empty when there is
/// no status) followed by the legend, for a width of at least one.
pub open spec fn status_lines_spec(width: nat, status: Option<Seq<char>>) -> Seq<Seq<char>> {
    let w = if width == 0 {
        1
    } else {
        width
    };
    let first = match status {
        Some(s) => if trimmed(s).len() > 0 {
            truncated(trimmed(s), w)
        } else {
            seq![]
        },
        None => seq![],
    };
    seq![first] + legend_from(0, w)
}

pub fn build_status_lines(width: u16, status: Option<&str>) -> (r: Vec<String>)
    ensures
        strings_view(r@) == status_lines_spec(
            width as nat,
            match status {
                Some(s) => Some(s@),
                None => None,
            },
        ),
{
    let w: usize = if width == 0 {
        1
    } else {
        width as usize
    };
    let mut lines: Vec<String> = Vec::new();
    let first = match status {
        Some(s) => {
            let t = trim_chars(&chars_of(s));
            if t.len() > 0 {
                let text = string_from_chars(&t);
                truncate_with_suffix(text.as_str(), w)
            } else {
                String::new()
            }
        },
        None => String::new(),
    };
    lines.push(first);
    let legend = select_legend_lines(w);
    let mut k: usize = 0;
    let ghost first_view = lines@[0]@;
    while k < legend.len()
        invariant
            k <= legend.len(),
            strings_view(lines@) == seq![first_view] + strings_view(legend@).take(k as int),
        decreases legend.len() - k,
    {
        let ghost before = lines@;
        lines.push(legend[k].clone());
        proof {
            assert(lines@ == before.push(legend@[k as int]));
            assert(strings_view(lines@) =~= strings_view(before).push(legend@[k as int]@));
            assert(strings_view(legend@).take(k + 1) =~= strings_view(legend@).take(k as int).push(
                legend@[k as int]@,
            ));
            assert(strings_view(lines@) =~= seq![first_view] + strings_view(legend@).take(k + 1));
        }
        k = k + 1;
    }
    assert(strings_view(legend@).take(k as int) =~= strings_view(legend@));
    lines
}


/// Column widths of one list row.
#[derive(Debug, Clone, Copy)]
pub struct LayoutWidths {
    pub index: usize,
    pub prefix: usize,
    pub repo: usize,
    pub ci: usize,
    pub review: usize,
    pub ci_review_gap: usize,
    pub indicator_kind_gap: usize,
    pub kind: usize,
    pub time: usize,
    pub title: usize,
    pub repo_meta_gap: usize,
}

/// Width of the metadata columns (kind, time, indicators and their gaps).
pub open spec fn meta_width(w: LayoutWidths) -> int {
    w.kind + 1 + w.time + w.ci + w.review + w.ci_review_gap + w.indicator_kind_gap
}

pub open spec fn max_nat(a: int, b: int) -> int {
    if a >= b {
        a
    } else {
        b
    }
}

pub open spec fn min_nat(a: int, b: int) -> int {
    if a <= b {
        a
    } else {
        b
    }
}

pub open spec fn pow10(k: nat) -> int
    decreases k,
{
    if k == 0 {
        1
    } else {
        10 * pow10((k - 1) as nat)
    }
}

proof fn lemma_decimal_len_bound(n: nat, k: nat)
    requires
        k >= 1,
        n < pow10(k),
    ensures
        decimal(n).len() <= k,
    decreases n,
{
    if n >= 10 {
        if k == 1 {
            assert(pow10(1) == 10 * pow10(0));
        }
        let p = pow10((k - 1) as nat);
        assert(pow10(k) == 10 * p);
        assert(n / 10 < p) by (nonlinear_arith)
            requires
                n < 10 * p,
                n >= 10,
        ;
        lemma_decimal_len_bound(n / 10, (k - 1) as nat);
    }
}

fn decimal_len(n: usize) -> (r: usize)
    ensures
        r == decimal(n as nat).len(),
        r <= 20,
{
    proof {
        reveal_with_fuel(pow10, 21);
        assert(pow10(20) == 100000000000000000000);
        lemma_decimal_len_bound(n as nat, 20);
    }
    let mut digits: Vec<char> = Vec::new();
    push_decimal(&mut digits, n as u64);
    assert(digits@ =~= decimal(n as nat));
    digits.len()
}

/// Width of the index column: the digits of the largest index, at least two.
fn index_width(total_count: usize) -> (r: usize)
    ensures
        r == max_nat(2, decimal(max_nat(total_count as int, 1) as nat).len() as int),
        2 <= r <= 20,
{
    let digits = decimal_len(if total_count > 1 {
        total_count
    } else {
        1
    });
    if digits > 2 {
        digits
    } else {
        2
    }
}

/// Splits the width of a list row into columns. The index column is wide
/// enough for the largest index (at least two), the title column takes what
/// the prefix leaves, and within it the metadata columns shrink (kind, then
/// time, then the indicators) until they fit beside a repository label of
/// at least one character.
pub fn layout_widths(
    area_width: u16,
    total_count: usize,
    max_title: usize,
    max_kind: usize,
    max_time: usize,
    max_ci: usize,
    max_review: usize,
) -> (r: LayoutWidths)
    ensures
        r.index == max_nat(2, decimal(max_nat(total_count as int, 1) as nat).len() as int),
        r.prefix == r.index + NUMBER_MARKER_GAP + 1 + MARKER_REPO_GAP,
        r.title == min_nat(
            max_nat(max_title as int, 1),
            max_nat(sat_sub(area_width as int, r.prefix as int), 1),
        ),
        1 <= r.kind <= MAX_KIND_WIDTH,
        1 <= r.time <= MAX_TIME_WIDTH,
        r.ci <= MAX_CI_WIDTH && (r.ci > 0 ==> max_ci > 0),
        r.review <= MAX_REVIEW_WIDTH && (r.review > 0 ==> max_review > 0),
        r.repo_meta_gap <= REPO_META_GAP,
        r.repo >= 1,
        meta_width(r) + r.repo_meta_gap + r.repo == r.title || (r.repo == 1 && meta_width(r)
            + r.repo_meta_gap >= r.title),
{
    let total = area_width as usize;
    let index = index_width(total_count);
    let prefix = index + NUMBER_MARKER_GAP + 1 + MARKER_REPO_GAP;
    let available = if total > prefix {
        total - prefix
    } else {
        1
    };
    let title = if max_title < 1 {
        1
    } else if max_title < available {
        max_title
    } else {
        available
    };
    fit_columns(index, prefix, title, max_kind, max_time, max_ci, max_review)
}

/// `value` lowered, if need be, to what is left of `title` once `others`
/// are taken, but never below one.
fn shrink_to(value: usize, title: usize, others: usize) -> (r: usize)
    requires
        value >= 1,
    ensures
        1 <= r <= value,
{
    let allowed = if title > others {
        title - others
    } else {
        1
    };
    if allowed < value {
        allowed
    } else {
        value
    }
}

/// `value` clamped to `[low, high]`.
fn clamp_width(value: usize, low: usize, high: usize) -> (r: usize)
    requires
        low <= high,
    ensures
        low <= r <= high,
        low <= value <= high ==> r == value,
{
    if value < low {
        low
    } else if value > high {
        high
    } else {
        value
    }
}

/// The metadata columns and the repository column within a title column of
/// width `title`.
#[verifier::spinoff_prover]
#[verifier::rlimit(100)]
fn fit_columns(
    index: usize,
    prefix: usize,
    title: usize,
    max_kind: usize,
    max_time: usize,
    max_ci: usize,
    max_review: usize,
) -> (r: LayoutWidths)
    requires
        title >= 1,
    ensures
        r.index == index,
        r.prefix == prefix,
        r.title == title,
        1 <= r.kind <= 14,
        1 <= r.time <= 6,
        r.ci <= 1 && (r.ci > 0 ==> max_ci > 0),
        r.review <= 1 && (r.review > 0 ==> max_review > 0),
        r.ci_review_gap <= 1 && r.indicator_kind_gap <= 1,
        r.repo_meta_gap <= 2,
        r.repo >= 1,
        meta_width(r) + r.repo_meta_gap + r.repo == title || (r.repo == 1 && meta_width(r)
            + r.repo_meta_gap >= title),
{
    let gap0: usize = if title - 1 < 2 {
        title - 1
    } else {
        2
    };
    let time0 = clamp_width(max_time, 2, 6);
    let kind0 = clamp_width(max_kind, 3, 14);
    let ci0: usize = if max_ci > 0 {
        1
    } else {
        0
    };
    let review0: usize = if max_review > 0 {
        1
    } else {
        0
    };
    let pair0: usize = if ci0 > 0 && review0 > 0 {
        1
    } else {
        0
    };
    let lead0: usize = if ci0 > 0 || review0 > 0 {
        1
    } else {
        0
    };
    let ind0: usize = ci0 + review0 + pair0 + lead0;
    let gap: usize = if kind0 + 1 + time0 + ind0 + gap0 > title && gap0 > 1 {
        1
    } else {
        gap0
    };
    let kind: usize = if kind0 + 1 + time0 + ind0 + gap > title {
        shrink_to(kind0, title, time0 + 1 + gap + ind0)
    } else {
        kind0
    };
    let time: usize = if kind + 1 + time0 + ind0 + gap > title {
        shrink_to(time0, title, kind + 1 + gap + ind0)
    } else {
        time0
    };
    let drop_ci = kind + 1 + time + ind0 + gap > title && ci0 > 0;
    let ci: usize = if drop_ci {
        0
    } else {
        ci0
    };
    let pair1: usize = if drop_ci {
        0
    } else {
        pair0
    };
    let lead1: usize = if drop_ci {
        if review0 > 0 {
            1
        } else {
            0
        }
    } else {
        lead0
    };
    let drop_review = kind + 1 + time + ci + review0 + pair1 + lead1 + gap > title && review0 > 0;
    let review: usize = if drop_review {
        0
    } else {
        review0
    };
    let lead: usize = if drop_review {
        0
    } else {
        lead1
    };
    let meta: usize = kind + 1 + time + ci + review + pair1 + lead;
    let repo: usize = if title > meta + gap {
        title - (meta + gap)
    } else {
        1
    };
    LayoutWidths {
        index,
        prefix,
        repo,
        ci,
        review,
        ci_review_gap: pair1,
        indicator_kind_gap: lead,
        kind,
        time,
        title,
        repo_meta_gap: gap,
    }
}

/// Characters that the status labels of a subject take: `[Label] ` each.
pub open spec fn status_prefix_len_spec(statuses: Seq<SubjectStatus>) -> nat
    decreases statuses.len(),
{
    if statuses.len() == 0 {
        0
    } else {
        status_prefix_len_spec(statuses.drop_last()) + statuses.last().label_text().len() + 3
    }
}

pub fn status_prefix_len(subject: &Subject) -> (r: usize)
    ensures
        r == status_prefix_len_spec(ordered_statuses_spec(subject.status@)),
{
    let statuses = ordered_statuses(subject);
    proof {
        reveal_strlit("Draft");
        reveal_strlit("Merged");
        reveal_strlit("Closed");
        let f = |s: SubjectStatus| subject.status@.contains(s);
        seq![SubjectStatus::Draft, SubjectStatus::Merged, SubjectStatus::Closed].filter_lemma(f);
    }
    let mut total: usize = 0;
    let mut k: usize = 0;
    while k < statuses.len()
        invariant
            k <= statuses.len() <= 3,
            total == status_prefix_len_spec(statuses@.take(k as int)),
            total <= 9 * k,
        decreases statuses.len() - k,
    {
        proof {
            assert(statuses@.take(k + 1).drop_last() =~= statuses@.take(k as int));
            reveal_strlit("Draft");
            reveal_strlit("Merged");
            reveal_strlit("Closed");
            assert(statuses@[k as int].label_text().len() <= 6);
        }
        total = total + statuses[k].label().unicode_len() + 3;
        k = k + 1;
    }
    assert(statuses@.take(k as int) =~= statuses@);
    total
}

pub open spec fn spaces(n: nat) -> Seq<char> {
    Seq::new(n, |i: int| ' ')
}

/// `value` right-aligned in a column of `width` characters.
pub open spec fn padded_left(value: Seq<char>, width: nat) -> Seq<char> {
    if value.len() >= width {
        value
    } else {
        spaces((width - value.len()) as nat) + value
    }
}

/// `value` left-aligned in a column of `width` characters.
pub open spec fn padded_right(value: Seq<char>, width: nat) -> Seq<char> {
    if value.len() >= width {
        value
    } else {
        value + spaces((width - value.len()) as nat)
    }
}

fn push_spaces(out: &mut Vec<char>, n: usize)
    ensures
        final(out)@ == old(out)@ + spaces(n as nat),
{
    let ghost before = out@;
    let mut i: usize = 0;
    while i < n
        invariant
            i <= n,
            out@ == before + spaces(i as nat),
        decreases n - i,
    {
        out.push(' ');
        assert(before + spaces((i + 1) as nat) =~= (before + spaces(i as nat)).push(' '));
        i = i + 1;
    }
}

pub fn pad_left(value: &str, width: usize) -> (r: String)
    ensures
        r@ == padded_left(value@, width as nat),
{
    let len = value.unicode_len();
    let mut out: Vec<char> = Vec::new();
    if len < width {
        push_spaces(&mut out, width - len);
    }
    push_str(&mut out, value);
    assert(out@ =~= padded_left(value@, width as nat));
    string_from_chars(&out)
}

pub fn pad_right(value: &str, width: usize) -> (r: String)
    ensures
        r@ == padded_right(value@, width as nat),
{
    let len = value.unicode_len();
    let mut out: Vec<char> = Vec::new();
    push_str(&mut out, value);
    if len < width {
        push_spaces(&mut out, width - len);
    }
    assert(out@ =~= padded_right(value@, width as nat));
    string_from_chars(&out)
}


/// How long ago an instant was, in the largest whole unit below the next:
/// seconds, minutes, hours or days; `0s` for an instant in the future and
/// `?` when there is no instant.
pub open spec fn relative_time_spec(instant: Option<i64>, now: i64) -> Seq<char> {
    match instant {
        None => "?"@,
        Some(t) => if t > now {
            "0s"@
        } else {
            let d = (now - t) as nat;
            if d < 60 {
                decimal(d) + "s"@
            } else if d / 60 < 60 {
                decimal(d / 60) + "m"@
            } else if d / 3600 < 24 {
                decimal(d / 3600) + "h"@
            } else {
                decimal(d / 86400) + "d"@
            }
        },
    }
}

/// The age label of an instant, given the current time (both in seconds
/// since the epoch).
pub fn relative_time_from(instant: Option<i64>, now: i64) -> (r: String)
    ensures
        r@ == relative_time_spec(instant, now),
{
    let t = match instant {
        None => {
            return "?".to_owned();
        },
        Some(t) => t,
    };
    if t > now {
        return "0s".to_owned();
    }
    let d: u64 = ((now as i128) - (t as i128)) as u64;
    let mut out: Vec<char> = Vec::new();
    if d < 60 {
        push_decimal(&mut out, d);
        push_str(&mut out, "s");
        assert(out@ =~= decimal(d as nat) + "s"@);
    } else if d / 60 < 60 {
        push_decimal(&mut out, d / 60);
        push_str(&mut out, "m");
        assert(out@ =~= decimal((d / 60) as nat) + "m"@);
    } else if d / 3600 < 24 {
        push_decimal(&mut out, d / 3600);
        push_str(&mut out, "h");
        assert(out@ =~= decimal((d / 3600) as nat) + "h"@);
    } else {
        push_decimal(&mut out, d / 86400);
        push_str(&mut out, "d");
        assert(out@ =~= decimal((d / 86400) as nat) + "d"@);
    }
    string_from_chars(&out)
}

/// The age label of an RFC 3339 date-time at time `now`.
pub fn format_relative_time(iso_timestamp: &str, now: i64) -> (r: String)
    ensures
        r@ == relative_time_spec(rfc3339_instant(iso_timestamp@), now),
{
    relative_time_from(parse_rfc3339(iso_timestamp), now)
}

} // verus!
