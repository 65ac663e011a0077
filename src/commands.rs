use std::collections::HashMap;
use vstd::prelude::*;

use crate::types::{action_of, Action};

verus! {

broadcast use vstd::std_specs::hash::group_hash_axioms;

/// Characters that name an alias of the target table.
pub open spec fn is_target(c: char) -> bool {
    c == 'm' || c == 'c' || c == 'f' || c == '?' || c == 'a' || c == 'x' || c == 'u'
}

pub fn is_target_char(ch: char) -> (r: bool)
    ensures
        r == is_target(ch),
{
    ch == 'm' || ch == 'c' || ch == 'f' || ch == '?' || ch == 'a' || ch == 'x' || ch == 'u'
}

pub open spec fn is_digit(c: char) -> bool {
    '0' <= c <= '9'
}

pub open spec fn all_digits(d: Seq<char>) -> bool {
    forall|i: int| 0 <= i < d.len() ==> is_digit(#[trigger] d[i])
}

pub open spec fn digit_of(c: char) -> int {
    c as int - '0' as int
}

/// The decimal value of a run of digits, read left to right.
pub open spec fn digits_value(d: Seq<char>) -> int
    decreases d.len(),
{
    if d.len() == 0 {
        0
    } else {
        10 * digits_value(d.drop_last()) + digit_of(d.last())
    }
}

/// Length of the longest non-empty prefix of `d` whose value is an index in
/// `[1, n]`; zero when there is none.
pub open spec fn valid_prefix_len(d: Seq<char>, n: int) -> nat
    decreases d.len(),
{
    if d.len() == 0 {
        0
    } else if 1 <= digits_value(d) <= n {
        d.len()
    } else {
        valid_prefix_len(d.drop_last(), n)
    }
}

/// A run of digits cut, left to right, into the longest prefixes that are
/// valid indices; where no prefix of the rest is valid, its first digit is
/// dropped and the cutting goes on after it.
pub open spec fn split_indices(d: Seq<char>, n: int) -> Seq<usize>
    decreases d.len(),
{
    let k = valid_prefix_len(d, n);
    if d.len() == 0 {
        seq![]
    } else if k == 0 || k > d.len() {
        split_indices(d.skip(1), n)
    } else {
        seq![digits_value(d.take(k as int)) as usize] + split_indices(d.skip(k as int), n)
    }
}

proof fn lemma_digits_value_nonneg(d: Seq<char>)
    requires
        all_digits(d),
    ensures
        digits_value(d) >= 0,
    decreases d.len(),
{
    if d.len() > 0 {
        lemma_digits_value_nonneg(d.drop_last());
    }
}

/// Reading one more digit never lowers the value.
proof fn lemma_digits_value_monotone(d: Seq<char>, j: int, k: int)
    requires
        all_digits(d),
        0 <= j <= k <= d.len(),
    ensures
        digits_value(d.take(j)) <= digits_value(d.take(k)),
    decreases k - j,
{
    if j < k {
        lemma_digits_value_monotone(d, j, k - 1);
        assert(d.take(k).drop_last() =~= d.take(k - 1));
        lemma_digits_value_nonneg(d.take(k - 1));
    }
}

proof fn lemma_valid_prefix_len_bounds(d: Seq<char>, n: int)
    ensures
        valid_prefix_len(d, n) <= d.len(),
        valid_prefix_len(d, n) > 0 ==> 1 <= digits_value(d.take(valid_prefix_len(d, n) as int))
            <= n,
    decreases d.len(),
{
    if d.len() > 0 {
        if 1 <= digits_value(d) <= n {
            assert(d.take(d.len() as int) =~= d);
        } else {
            lemma_valid_prefix_len_bounds(d.drop_last(), n);
            let k = valid_prefix_len(d.drop_last(), n);
            assert(d.drop_last().take(k as int) =~= d.take(k as int));
        }
    }
}

/// Once a prefix exceeds `n`, no longer prefix can be a valid index.
proof fn lemma_valid_prefix_len_cut(d: Seq<char>, n: int, m: int)
    requires
        all_digits(d),
        1 <= m <= d.len(),
        digits_value(d.take(m)) > n,
    ensures
        valid_prefix_len(d, n) == valid_prefix_len(d.take(m - 1), n),
    decreases d.len(),
{
    if d.len() == m {
        assert(d.take(m) =~= d);
        assert(d.drop_last() =~= d.take(m - 1));
    } else {
        lemma_digits_value_monotone(d, m, d.len() as int);
        assert(d.take(d.len() as int) =~= d);
        assert(d.drop_last().take(m) =~= d.take(m));
        assert(d.drop_last().take(m - 1) =~= d.take(m - 1));
        lemma_valid_prefix_len_cut(d.drop_last(), n, m);
    }
}

/// Every index that the digit splitting yields lies in `[1, n]`.
proof fn lemma_split_indices_valid(d: Seq<char>, n: int)
    requires
        n <= usize::MAX,
    ensures
        forall|i: int|
            0 <= i < split_indices(d, n).len() ==> 1 <= #[trigger] split_indices(d, n)[i] <= n,
    decreases d.len(),
{
    let k = valid_prefix_len(d, n);
    lemma_valid_prefix_len_bounds(d, n);
    if d.len() > 0 && k == 0 {
        lemma_split_indices_valid(d.skip(1), n);
        assert(split_indices(d, n) == split_indices(d.skip(1), n));
    } else if k > 0 && k <= d.len() {
        lemma_split_indices_valid(d.skip(k as int), n);
        let rest = split_indices(d.skip(k as int), n);
        let whole = split_indices(d, n);
        assert forall|i: int| 0 <= i < whole.len() implies 1 <= #[trigger] whole[i] <= n by {
            if i > 0 {
                assert(whole[i] == rest[i - 1]);
            }
        }
    }
}

fn longest_valid_prefix(digits: &Vec<char>, start: usize, notification_count: usize) -> (r: Option<
    (usize, usize),
>)
    requires
        all_digits(digits@),
        start <= digits.len(),
    ensures
        ({
            let d = digits@.skip(start as int);
            let k = valid_prefix_len(d, notification_count as int);
            if k == 0 {
                r is None
            } else {
                r == Some((digits_value(d.take(k as int)) as usize, k as usize))
            }
        }),
{
    let ghost d = digits@.skip(start as int);
    let ghost n = notification_count as int;
    let mut best: Option<(usize, usize)> = None;
    let mut value: usize = 0;
    let mut i: usize = start;
    assert(d.take(0) =~= Seq::<char>::empty());
    while i < digits.len()
        invariant
            all_digits(digits@),
            start <= i <= digits.len(),
            d == digits@.skip(start as int),
            n == notification_count as int,
            value as int == digits_value(d.take(i - start)),
            value <= notification_count,
            ({
                let k = valid_prefix_len(d.take(i - start), n);
                if k == 0 {
                    best is None
                } else {
                    best == Some((digits_value(d.take(k as int)) as usize, k as usize))
                }
            }),
        decreases digits.len() - i,
    {
        let ghost j = i - start;
        assert(all_digits(d));
        assert(d.take(j + 1).drop_last() =~= d.take(j));
        assert(d.take(j + 1).last() == digits@[i as int]);
        let ch = digits[i];
        let digit = (ch as u32 - '0' as u32) as usize;
        let next = match value.checked_mul(10) {
            Some(tens) => tens.checked_add(digit),
            None => None,
        };
        match next {
            Some(v) => {
                value = v;
            },
            None => {
                proof {
                    lemma_valid_prefix_len_cut(d, n, j + 1);
                    assert(d.take(j + 1).take(j) =~= d.take(j));
                }
                return best;
            },
        }
        proof {
            let k = valid_prefix_len(d.take(j + 1), n);
            lemma_valid_prefix_len_bounds(d.take(j + 1), n);
            if !(1 <= value && value <= notification_count) {
                assert(d.take(j + 1).drop_last() =~= d.take(j));
            }
            assert(d.take(j + 1).take(k as int) =~= d.take(k as int));
        }
        if 1 <= value && value <= notification_count {
            best = Some((value, i - start + 1));
            proof {
                assert(d.take(j + 1).take(j + 1) =~= d.take(j + 1));
            }
        }
        if value > notification_count {
            proof {
                lemma_valid_prefix_len_cut(d, n, j + 1);
                assert(d.take(j + 1).drop_last() =~= d.take(j));
                assert(d.take(j).take(j) =~= d.take(j));
            }
            return best;
        }
        i = i + 1;
    }
    proof {
        assert(d.take(i - start) =~= d);
    }
    best
}


fn split_digits(digits: &Vec<char>, notification_count: usize) -> (r: Vec<usize>)
    requires
        all_digits(digits@),
    ensures
        r@ == split_indices(digits@, notification_count as int),
{
    let ghost n = notification_count as int;
    let mut indices: Vec<usize> = Vec::new();
    let mut start: usize = 0;
    assert(digits@.skip(0) =~= digits@);
    while start < digits.len()
        invariant
            all_digits(digits@),
            start <= digits.len(),
            n == notification_count as int,
            indices@ + split_indices(digits@.skip(start as int), n) == split_indices(digits@, n),
        decreases digits.len() - start,
    {
        let ghost d = digits@.skip(start as int);
        proof {
            lemma_valid_prefix_len_bounds(d, n);
        }
        match longest_valid_prefix(digits, start, notification_count) {
            Some((value, len)) => {
                proof {
                    assert(d.skip(len as int) =~= digits@.skip(start + len));
                    assert(indices@.push(value) + split_indices(digits@.skip(start + len), n)
                        =~= indices@ + split_indices(d, n));
                }
                indices.push(value);
                start = start + len;
            },
            None => {
                proof {
                    assert(d.skip(1) =~= digits@.skip(start + 1));
                }
                start = start + 1;
            },
        }
    }
    proof {
        assert(digits@.skip(start as int).len() == 0);
        assert(indices@ + split_indices(digits@.skip(start as int), n) =~= indices@);
    }
    indices
}


/// `ix` with `i` appended when `i` is an index in `[1, n]`.
pub open spec fn push_valid(ix: Seq<usize>, i: int, n: int) -> Seq<usize> {
    if 1 <= i <= n {
        ix.push(i as usize)
    } else {
        ix
    }
}

/// The valid indices from `lo` to `hi` inclusive, ascending.
pub open spec fn range_indices(lo: int, hi: int, n: int) -> Seq<usize>
    decreases hi - lo + 1,
{
    if hi < lo {
        seq![]
    } else {
        push_valid(range_indices(lo, hi - 1, n), hi, n)
    }
}

pub open spec fn min_int(a: int, b: int) -> int {
    if a <= b {
        a
    } else {
        b
    }
}

pub open spec fn max_int(a: int, b: int) -> int {
    if a <= b {
        b
    } else {
        a
    }
}

fn push_index(indices: &mut Vec<usize>, index: usize, notification_count: usize)
    ensures
        final(indices)@ == push_valid(old(indices)@, index as int, notification_count as int),
{
    if index >= 1 && index <= notification_count {
        indices.push(index);
    }
}

fn push_range(indices: &mut Vec<usize>, start: usize, end: usize, notification_count: usize)
    ensures
        final(indices)@ == old(indices)@ + range_indices(
            min_int(start as int, end as int),
            max_int(start as int, end as int),
            notification_count as int,
        ),
{
    let (low, high) = if start <= end {
        (start, end)
    } else {
        (end, start)
    };
    let ghost n = notification_count as int;
    let ghost before = indices@;
    let mut index: usize = low;
    assert(before + range_indices(low as int, low - 1, n) =~= before);
    loop
        invariant_except_break
            indices@ == before + range_indices(low as int, index - 1, n),
        invariant
            low <= index <= high,
            n == notification_count as int,
        ensures
            indices@ == before + range_indices(low as int, high as int, n),
        decreases high - index,
    {
        proof {
            assert(before + push_valid(range_indices(low as int, index - 1, n), index as int, n)
                =~= push_valid(before + range_indices(low as int, index - 1, n), index as int, n));
        }
        push_index(indices, index, notification_count);
        if index == high {
            break;
        }
        index = index + 1;
    }
}

/// What the scanner has accumulated after a prefix of the input.
pub struct Scan {
    pub digits: Seq<char>,
    pub range_start: Option<usize>,
    pub indices: Seq<usize>,
    pub after_action: bool,
    pub result: Map<usize, Seq<Action>>,
}

pub open spec fn initial_scan() -> Scan {
    Scan {
        digits: seq![],
        range_start: None,
        indices: seq![],
        after_action: false,
        result: Map::empty(),
    }
}

/// Everything but the actions recorded so far is dropped.
pub open spec fn cleared(st: Scan) -> Scan {
    Scan { digits: seq![], range_start: None, indices: seq![], after_action: false, ..st }
}

/// Closes the pending digits (and an open range) into the index set.
pub open spec fn finalize_pending_spec(st: Scan, n: int) -> Scan {
    if st.digits.len() == 0 {
        match st.range_start {
            Some(s) => Scan {
                range_start: None,
                indices: push_valid(st.indices, s as int, n),
                ..st
            },
            None => st,
        }
    } else {
        let parsed = split_indices(st.digits, n);
        let ix = match st.range_start {
            Some(s) => if parsed.len() > 0 {
                st.indices + range_indices(
                    min_int(s as int, parsed[0] as int),
                    max_int(s as int, parsed[0] as int),
                    n,
                ) + parsed.skip(1)
            } else {
                push_valid(st.indices, s as int, n)
            },
            None => st.indices + parsed,
        };
        Scan { digits: seq![], range_start: None, indices: ix, ..st }
    }
}

/// Closes the pending digits as the start of a range: all split indices but
/// the last join the set, the last one opens the range.
pub open spec fn finalize_range_start_spec(st: Scan, n: int) -> Scan {
    if st.digits.len() == 0 {
        st
    } else {
        let parsed = split_indices(st.digits, n);
        if parsed.len() == 0 {
            Scan { digits: seq![], range_start: None, ..st }
        } else {
            Scan {
                digits: seq![],
                range_start: Some(parsed.last()),
                indices: st.indices + parsed.drop_last(),
                ..st
            }
        }
    }
}

/// `ix` extended by the members of `g` that it does not hold yet, in order.
pub open spec fn add_missing(ix: Seq<usize>, g: Seq<usize>) -> Seq<usize>
    decreases g.len(),
{
    if g.len() == 0 {
        ix
    } else {
        let prev = add_missing(ix, g.drop_last());
        if prev.contains(g.last()) {
            prev
        } else {
            prev.push(g.last())
        }
    }
}

/// `a` appended to the action list of every index in `ix`, in order.
pub open spec fn record_action(res: Map<usize, Seq<Action>>, ix: Seq<usize>, a: Action) -> Map<
    usize,
    Seq<Action>,
>
    decreases ix.len(),
{
    if ix.len() == 0 {
        res
    } else {
        let prev = record_action(res, ix.drop_last(), a);
        let i = ix.last();
        let old_list = if prev.contains_key(i) {
            prev[i]
        } else {
            seq![]
        };
        prev.insert(i, old_list.push(a))
    }
}

/// One character of input applied to the scanner.
pub open spec fn scan_step(st: Scan, c: char, n: int, targets: Map<char, Seq<usize>>) -> Scan {
    if is_digit(c) {
        let s = if st.after_action {
            cleared(st)
        } else {
            st
        };
        Scan { digits: s.digits.push(c), ..s }
    } else if c == '-' {
        if st.after_action {
            st
        } else {
            finalize_range_start_spec(st, n)
        }
    } else if c == ' ' || c == ',' {
        finalize_pending_spec(st, n)
    } else if is_target(c) {
        let s = finalize_pending_spec(
            if st.after_action {
                cleared(st)
            } else {
                st
            },
            n,
        );
        if targets.contains_key(c) {
            Scan { indices: add_missing(s.indices, targets[c]), ..s }
        } else {
            s
        }
    } else if action_of(c) is Some {
        let s = finalize_pending_spec(st, n);
        Scan { result: record_action(s.result, s.indices, action_of(c)->0), after_action: true, ..s }
    } else {
        cleared(st)
    }
}

/// The scanner after reading all of `input`.
pub open spec fn scan(input: Seq<char>, n: int, targets: Map<char, Seq<usize>>) -> Scan
    decreases input.len(),
{
    if input.len() == 0 {
        initial_scan()
    } else {
        scan_step(scan(input.drop_last(), n, targets), input.last(), n, targets)
    }
}

/// The pending map that a command line denotes.
pub open spec fn parse_spec(input: Seq<char>, n: int, targets: Map<char, Seq<usize>>) -> Map<
    usize,
    Seq<Action>,
> {
    scan(input, n, targets).result
}

/// The action lists of a pending map, as sequences.
pub open spec fn actions_view(m: Map<usize, Vec<Action>>) -> Map<usize, Seq<Action>> {
    m.map_values(|v: Vec<Action>| v@)
}


/// The scanner state that the closing helpers work on, with no actions yet.
pub open spec fn pending_scan(d: Seq<char>, r: Option<usize>, ix: Seq<usize>) -> Scan {
    Scan { digits: d, range_start: r, indices: ix, after_action: false, result: Map::empty() }
}

fn push_indices(indices: &mut Vec<usize>, parsed: &Vec<usize>, from: usize, to: usize, n: usize)
    requires
        from <= to <= parsed.len(),
        forall|i: int| 0 <= i < parsed.len() ==> 1 <= #[trigger] parsed@[i] <= n,
    ensures
        final(indices)@ == old(indices)@ + parsed@.subrange(from as int, to as int),
{
    let ghost before = indices@;
    let mut k: usize = from;
    while k < to
        invariant
            from <= k <= to <= parsed.len(),
            forall|i: int| 0 <= i < parsed.len() ==> 1 <= #[trigger] parsed@[i] <= n,
            indices@ == before + parsed@.subrange(from as int, k as int),
        decreases to - k,
    {
        push_index(indices, parsed[k], n);
        proof {
            assert(before + parsed@.subrange(from as int, k + 1) =~= (before + parsed@.subrange(
                from as int,
                k as int,
            )).push(parsed@[k as int]));
        }
        k = k + 1;
    }
}

fn finalize_pending(
    current_digits: &mut Vec<char>,
    range_start: &mut Option<usize>,
    indices: &mut Vec<usize>,
    notification_count: usize,
)
    requires
        all_digits(old(current_digits)@),
    ensures
        ({
            let out = finalize_pending_spec(
                pending_scan(old(current_digits)@, *old(range_start), old(indices)@),
                notification_count as int,
            );
            &&& final(current_digits)@ == out.digits
            &&& *final(range_start) == out.range_start
            &&& final(indices)@ == out.indices
        }),
{
    let ghost n = notification_count as int;
    if current_digits.len() == 0 {
        if let Some(start) = *range_start {
            *range_start = None;
            push_index(indices, start, notification_count);
        }
        return;
    }
    let parsed = split_digits(current_digits, notification_count);
    proof {
        lemma_split_indices_valid(current_digits@, n);
    }
    current_digits.clear();
    match *range_start {
        Some(start) => {
            *range_start = None;
            if parsed.len() > 0 {
                push_range(indices, start, parsed[0], notification_count);
                push_indices(indices, &parsed, 1, parsed.len(), notification_count);
                proof {
                    assert(parsed@.subrange(1, parsed@.len() as int) =~= parsed@.skip(1));
                }
            } else {
                push_index(indices, start, notification_count);
            }
        },
        None => {
            push_indices(indices, &parsed, 0, parsed.len(), notification_count);
            proof {
                assert(parsed@.subrange(0, parsed@.len() as int) =~= parsed@);
            }
        },
    }
}

fn finalize_range_start(
    current_digits: &mut Vec<char>,
    range_start: &mut Option<usize>,
    indices: &mut Vec<usize>,
    notification_count: usize,
)
    requires
        all_digits(old(current_digits)@),
    ensures
        ({
            let out = finalize_range_start_spec(
                pending_scan(old(current_digits)@, *old(range_start), old(indices)@),
                notification_count as int,
            );
            &&& final(current_digits)@ == out.digits
            &&& *final(range_start) == out.range_start
            &&& final(indices)@ == out.indices
        }),
{
    if current_digits.len() == 0 {
        return;
    }
    let parsed = split_digits(current_digits, notification_count);
    proof {
        lemma_split_indices_valid(current_digits@, notification_count as int);
    }
    current_digits.clear();
    if parsed.len() == 0 {
        *range_start = None;
        return;
    }
    let last = parsed.len() - 1;
    push_indices(indices, &parsed, 0, last, notification_count);
    proof {
        assert(parsed@.subrange(0, last as int) =~= parsed@.drop_last());
    }
    *range_start = Some(parsed[last]);
}


/// The first group filed under `c`, front to back.
pub open spec fn lookup_group(e: Seq<(char, Vec<usize>)>, c: char) -> Option<Seq<usize>>
    decreases e.len(),
{
    if e.len() == 0 {
        None
    } else if e[0].0 == c {
        Some(e[0].1@)
    } else {
        lookup_group(e.skip(1), c)
    }
}

proof fn lemma_lookup_absent(e: Seq<(char, Vec<usize>)>, c: char)
    requires
        forall|j: int| 0 <= j < e.len() ==> (#[trigger] e[j]).0 != c,
    ensures
        lookup_group(e, c) is None,
    decreases e.len(),
{
    if e.len() > 0 {
        assert forall|j: int| 0 <= j < e.skip(1).len() implies (#[trigger] e.skip(1)[j]).0 != c by {
            assert(e.skip(1)[j] == e[j + 1]);
        }
        lemma_lookup_absent(e.skip(1), c);
    }
}

proof fn lemma_lookup_first(e: Seq<(char, Vec<usize>)>, c: char, i: int)
    requires
        0 <= i < e.len(),
        e[i].0 == c,
        forall|j: int| 0 <= j < i ==> (#[trigger] e[j]).0 != c,
    ensures
        lookup_group(e, c) == Some(e[i].1@),
    decreases i,
{
    if i > 0 {
        assert forall|j: int| 0 <= j < i - 1 implies (#[trigger] e.skip(1)[j]).0 != c by {
            assert(e.skip(1)[j] == e[j + 1]);
        }
        lemma_lookup_first(e.skip(1), c, i - 1);
    }
}

proof fn lemma_lookup_update(e: Seq<(char, Vec<usize>)>, c: char, i: int, g: Vec<usize>, c2: char)
    requires
        0 <= i < e.len(),
        e[i].0 == c,
        forall|j: int| 0 <= j < i ==> (#[trigger] e[j]).0 != c,
    ensures
        lookup_group(e.update(i, (c, g)), c2) == if c2 == c {
            Some(g@)
        } else {
            lookup_group(e, c2)
        },
    decreases i,
{
    let u = e.update(i, (c, g));
    if i > 0 {
        assert(u.skip(1) =~= e.skip(1).update(i - 1, (c, g)));
        assert forall|j: int| 0 <= j < i - 1 implies (#[trigger] e.skip(1)[j]).0 != c by {
            assert(e.skip(1)[j] == e[j + 1]);
        }
        lemma_lookup_update(e.skip(1), c, i - 1, g, c2);
    } else {
        assert(u.skip(1) =~= e.skip(1));
    }
}

proof fn lemma_lookup_push(e: Seq<(char, Vec<usize>)>, c: char, g: Vec<usize>, c2: char)
    requires
        forall|j: int| 0 <= j < e.len() ==> (#[trigger] e[j]).0 != c,
    ensures
        lookup_group(e.push((c, g)), c2) == if c2 == c {
            Some(g@)
        } else {
            lookup_group(e, c2)
        },
    decreases e.len(),
{
    if e.len() > 0 {
        assert(e.push((c, g)).skip(1) =~= e.skip(1).push((c, g)));
        assert forall|j: int| 0 <= j < e.skip(1).len() implies (#[trigger] e.skip(1)[j]).0 != c by {
            assert(e.skip(1)[j] == e[j + 1]);
        }
        lemma_lookup_push(e.skip(1), c, g, c2);
    } else {
        assert(e.push((c, g)).skip(1) =~= e);
    }
}

/// The alias table: for each alias character, the indices it stands for.
pub struct TargetMap {
    entries: Vec<(char, Vec<usize>)>,
}

impl View for TargetMap {
    type V = Map<char, Seq<usize>>;

    closed spec fn view(&self) -> Map<char, Seq<usize>> {
        Map::new(
            |c: char| lookup_group(self.entries@, c) is Some,
            |c: char| lookup_group(self.entries@, c)->0,
        )
    }
}

impl TargetMap {
    pub fn new() -> (r: TargetMap)
        ensures
            r@ == Map::<char, Seq<usize>>::empty(),
    {
        let r = TargetMap { entries: Vec::new() };
        assert(r@ =~= Map::<char, Seq<usize>>::empty());
        r
    }

    /// Position of the first entry filed under `c`.
    fn position(&self, c: char) -> (r: Option<usize>)
        ensures
            match r {
                Some(i) => {
                    &&& i < self.entries.len()
                    &&& self.entries@[i as int].0 == c
                    &&& forall|j: int| 0 <= j < i ==> (#[trigger] self.entries@[j]).0 != c
                },
                None => forall|j: int|
                    0 <= j < self.entries.len() ==> (#[trigger] self.entries@[j]).0 != c,
            },
    {
        let mut i: usize = 0;
        while i < self.entries.len()
            invariant
                i <= self.entries.len(),
                forall|j: int| 0 <= j < i ==> (#[trigger] self.entries@[j]).0 != c,
            decreases self.entries.len() - i,
        {
            if self.entries[i].0 == c {
                return Some(i);
            }
            i = i + 1;
        }
        None
    }

    pub fn get(&self, c: char) -> (r: Option<&Vec<usize>>)
        ensures
            match r {
                Some(g) => self@.contains_key(c) && self@[c] == g@,
                None => !self@.contains_key(c),
            },
    {
        match self.position(c) {
            Some(i) => {
                proof {
                    lemma_lookup_first(self.entries@, c, i as int);
                }
                Some(&self.entries[i].1)
            },
            None => {
                proof {
                    lemma_lookup_absent(self.entries@, c);
                }
                None
            },
        }
    }

    /// Files `group` under `c`, replacing what was there.
    pub fn insert(&mut self, c: char, group: Vec<usize>)
        ensures
            final(self)@ == old(self)@.insert(c, group@),
    {
        let ghost e = self.entries@;
        let ghost g = group@;
        match self.position(c) {
            Some(i) => {
                self.entries.set(i, (c, group));
                proof {
                    assert forall|c2: char| #[trigger]
                        lookup_group(self.entries@, c2) == if c2 == c {
                            Some(g)
                        } else {
                            lookup_group(e, c2)
                        } by {
                        lemma_lookup_update(e, c, i as int, self.entries@[i as int].1, c2);
                    }
                }
            },
            None => {
                self.entries.push((c, group));
                proof {
                    assert forall|c2: char| #[trigger]
                        lookup_group(self.entries@, c2) == if c2 == c {
                            Some(g)
                        } else {
                            lookup_group(e, c2)
                        } by {
                        lemma_lookup_push(e, c, self.entries@.last().1, c2);
                    }
                }
            },
        }
        assert(self@ =~= old(self)@.insert(c, g));
    }

    /// Appends `index` to the group filed under `c`, opening the group when
    /// there is none.
    pub fn append(&mut self, c: char, index: usize)
        ensures
            final(self)@ == old(self)@.insert(
                c,
                if old(self)@.contains_key(c) {
                    old(self)@[c]
                } else {
                    seq![]
                }.push(index),
            ),
    {
        let mut group: Vec<usize> = Vec::new();
        match self.position(c) {
            Some(i) => {
                proof {
                    lemma_lookup_first(self.entries@, c, i as int);
                }
                let mut k: usize = 0;
                while k < self.entries[i].1.len()
                    invariant
                        i < self.entries.len(),
                        k <= self.entries@[i as int].1.len(),
                        group@ == self.entries@[i as int].1@.take(k as int),
                    decreases self.entries@[i as int].1.len() - k,
                {
                    group.push(self.entries[i].1[k]);
                    proof {
                        assert(self.entries@[i as int].1@.take(k + 1) =~= self.entries@[i as int].1@.take(k as int).push(self.entries@[i as int].1@[k as int]));
                    }
                    k = k + 1;
                }
                assert(group@ =~= self.entries@[i as int].1@);
            },
            None => {
                proof {
                    lemma_lookup_absent(self.entries@, c);
                }
            },
        }
        group.push(index);
        self.insert(c, group);
    }
}


fn contains_index(v: &Vec<usize>, x: usize) -> (r: bool)
    ensures
        r == v@.contains(x),
{
    let mut k: usize = 0;
    while k < v.len()
        invariant
            k <= v.len(),
            forall|j: int| 0 <= j < k ==> v@[j] != x,
        decreases v.len() - k,
    {
        if v[k] == x {
            return true;
        }
        k = k + 1;
    }
    false
}

/// Reads one command line into the pending map: each index of `[1, n]` that
/// the line designates, with the actions the line applies to it, in order.
pub fn parse_commands(input: &str, notification_count: usize, targets: &TargetMap) -> (r: HashMap<
    usize,
    Vec<Action>,
>)
    ensures
        actions_view(r@) == parse_spec(input@, notification_count as int, targets@),
{
    let ghost n = notification_count as int;
    let mut result: HashMap<usize, Vec<Action>> = HashMap::new();
    let mut current_digits: Vec<char> = Vec::new();
    let mut range_start: Option<usize> = None;
    let mut indices: Vec<usize> = Vec::new();
    let mut after_action = false;
    let len = input.unicode_len();
    let mut pos: usize = 0;
    assert(input@.take(0) =~= Seq::<char>::empty());
    assert(actions_view(result@) =~= Map::<usize, Seq<Action>>::empty());
    while pos < len
        invariant
            len == input@.len(),
            pos <= len,
            n == notification_count as int,
            all_digits(current_digits@),
            scan(input@.take(pos as int), n, targets@) == (Scan {
                digits: current_digits@,
                range_start: range_start,
                indices: indices@,
                after_action: after_action,
                result: actions_view(result@),
            }),
        decreases len - pos,
    {
        let ch = input.get_char(pos);
        proof {
            assert(input@.take(pos + 1).drop_last() =~= input@.take(pos as int));
        }
        let ghost st = scan(input@.take(pos as int), n, targets@);
        if '0' <= ch && ch <= '9' {
            if after_action {
                indices.clear();
                range_start = None;
                current_digits.clear();
                after_action = false;
            }
            current_digits.push(ch);
            assert(all_digits(current_digits@));
        } else if ch == '-' {
            if !after_action {
                finalize_range_start(
                    &mut current_digits,
                    &mut range_start,
                    &mut indices,
                    notification_count,
                );
            }
        } else if ch == ' ' || ch == ',' {
            finalize_pending(&mut current_digits, &mut range_start, &mut indices, notification_count);
        } else if is_target_char(ch) {
            if after_action {
                indices.clear();
                range_start = None;
                current_digits.clear();
                after_action = false;
            }
            finalize_pending(&mut current_digits, &mut range_start, &mut indices, notification_count);
            if let Some(group) = targets.get(ch) {
                let ghost base = indices@;
                let mut k: usize = 0;
                assert(group@.take(0) =~= Seq::<usize>::empty());
                while k < group.len()
                    invariant
                        k <= group.len(),
                        indices@ == add_missing(base, group@.take(k as int)),
                    decreases group.len() - k,
                {
                    let index = group[k];
                    proof {
                        assert(group@.take(k + 1).drop_last() =~= group@.take(k as int));
                    }
                    if !contains_index(&indices, index) {
                        indices.push(index);
                    }
                    k = k + 1;
                }
                assert(group@.take(k as int) =~= group@);
            }
        } else {
            match Action::from_char(ch) {
                Some(action) => {
                    finalize_pending(
                        &mut current_digits,
                        &mut range_start,
                        &mut indices,
                        notification_count,
                    );
                    let ghost base = actions_view(result@);
                    let mut k: usize = 0;
                    assert(indices@.take(0) =~= Seq::<usize>::empty());
                    while k < indices.len()
                        invariant
                            k <= indices.len(),
                            actions_view(result@) == record_action(
                                base,
                                indices@.take(k as int),
                                action,
                            ),
                        decreases indices.len() - k,
                    {
                        let index = indices[k];
                        let ghost prev = actions_view(result@);
                        let mut list = match result.remove(&index) {
                            Some(l) => l,
                            None => Vec::new(),
                        };
                        list.push(action);
                        result.insert(index, list);
                        proof {
                            assert(indices@.take(k + 1).drop_last() =~= indices@.take(k as int));
                            assert(actions_view(result@) =~= prev.insert(
                                index,
                                if prev.contains_key(index) {
                                    prev[index]
                                } else {
                                    seq![]
                                }.push(action),
                            ));
                        }
                        k = k + 1;
                    }
                    assert(indices@.take(k as int) =~= indices@);
                    after_action = true;
                },
                None => {
                    indices.clear();
                    range_start = None;
                    current_digits.clear();
                    after_action = false;
                },
            }
        }
        pos = pos + 1;
    }
    assert(input@.take(len as int) =~= input@);
    result
}


/// The scanner after reading `input`, starting from `st`.
pub open spec fn scan_from(st: Scan, input: Seq<char>, n: int, targets: Map<char, Seq<usize>>) -> Scan
    decreases input.len(),
{
    if input.len() == 0 {
        st
    } else {
        scan_step(scan_from(st, input.drop_last(), n, targets), input.last(), n, targets)
    }
}

proof fn lemma_scan_append(x: Seq<char>, y: Seq<char>, n: int, targets: Map<char, Seq<usize>>)
    ensures
        scan(x + y, n, targets) == scan_from(scan(x, n, targets), y, n, targets),
    decreases y.len(),
{
    if y.len() == 0 {
        assert(x + y =~= x);
    } else {
        lemma_scan_append(x, y.drop_last(), n, targets);
        assert((x + y).drop_last() =~= x + y.drop_last());
        assert((x + y).last() == y.last());
    }
}

/// Digits read outside of an action run only accumulate.
proof fn lemma_scan_digits(st: Scan, d: Seq<char>, n: int, targets: Map<char, Seq<usize>>)
    requires
        !st.after_action,
        all_digits(d),
    ensures
        scan_from(st, d, n, targets) == (Scan { digits: st.digits + d, ..st }),
    decreases d.len(),
{
    if d.len() == 0 {
        assert(st.digits + d =~= st.digits);
    } else {
        assert(all_digits(d.drop_last()));
        lemma_scan_digits(st, d.drop_last(), n, targets);
        assert((st.digits + d.drop_last()).push(d.last()) =~= st.digits + d);
        assert(is_digit(d[d.len() - 1]));
        let prev = scan_from(st, d.drop_last(), n, targets);
        assert(scan_from(st, d, n, targets) == scan_step(prev, d.last(), n, targets));
    }
}

/// A run of digits alone, read from the start, is only pending digits.
proof fn lemma_scan_digit_run(d: Seq<char>, n: int, targets: Map<char, Seq<usize>>)
    requires
        all_digits(d),
    ensures
        scan(d, n, targets) == (Scan { digits: d, ..initial_scan() }),
{
    lemma_scan_append(seq![], d, n, targets);
    assert(seq![] + d =~= d);
    lemma_scan_digits(initial_scan(), d, n, targets);
    assert(initial_scan().digits + d =~= d);
}

/// A run of digits followed by an action applies the action to the indices
/// that the greedy split of the run yields: the longest valid prefix first,
/// then the same on the rest, a digit that starts no valid index being
/// dropped on its own.
pub proof fn lemma_digits_then_action(
    d: Seq<char>,
    c: char,
    n: int,
    targets: Map<char, Seq<usize>>,
)
    requires
        all_digits(d),
        d.len() > 0,
        action_of(c) is Some,
        0 <= n <= usize::MAX,
    ensures
        parse_spec(d.push(c), n, targets) == record_action(
            Map::empty(),
            split_indices(d, n),
            action_of(c)->0,
        ),
        valid_prefix_len(d, n) > 0 ==> split_indices(d, n)[0] == digits_value(
            d.take(valid_prefix_len(d, n) as int),
        ),
{
    lemma_scan_digit_run(d, n, targets);
    assert(d.push(c).drop_last() =~= d);
    assert(!is_digit(c));
    assert(seq![] + split_indices(d, n) =~= split_indices(d, n));
    lemma_valid_prefix_len_bounds(d, n);
}

/// A character that is no digit, range dash, separator, alias or action
/// drops everything accumulated but the actions already recorded.
pub proof fn lemma_unknown_char_resets(
    x: Seq<char>,
    c: char,
    n: int,
    targets: Map<char, Seq<usize>>,
)
    requires
        !is_digit(c),
        c != '-',
        c != ' ',
        c != ',',
        !is_target(c),
        action_of(c) is None,
    ensures
        scan(x.push(c), n, targets) == cleared(scan(x, n, targets)),
        scan(x.push(c), n, targets).digits.len() == 0,
        scan(x.push(c), n, targets).range_start is None,
        scan(x.push(c), n, targets).indices.len() == 0,
        !scan(x.push(c), n, targets).after_action,
        parse_spec(x.push(c), n, targets) == parse_spec(x, n, targets),
{
    assert(x.push(c).drop_last() =~= x);
}


/// Two states that agree after the first character agree after all of them.
proof fn lemma_scan_from_first_step(
    s1: Scan,
    s2: Scan,
    input: Seq<char>,
    n: int,
    targets: Map<char, Seq<usize>>,
)
    requires
        input.len() > 0,
        scan_step(s1, input[0], n, targets) == scan_step(s2, input[0], n, targets),
    ensures
        scan_from(s1, input, n, targets) == scan_from(s2, input, n, targets),
    decreases input.len(),
{
    if input.len() > 1 {
        assert(input.drop_last()[0] == input[0]);
        lemma_scan_from_first_step(s1, s2, input.drop_last(), n, targets);
    } else {
        assert(input.drop_last().len() == 0);
        assert(input.last() == input[0]);
        assert(scan_from(s1, input.drop_last(), n, targets) == s1);
        assert(scan_from(s2, input.drop_last(), n, targets) == s2);
    }
}

/// The valid indices of a range, ascending and each once.
pub proof fn lemma_range_indices_contents(lo: int, hi: int, n: int)
    requires
        n <= usize::MAX,
    ensures
        forall|k: int|
            0 <= k < range_indices(lo, hi, n).len() ==> lo <= #[trigger] range_indices(lo, hi, n)[k]
                <= hi && 1 <= range_indices(lo, hi, n)[k] <= n,
        forall|j: int, k: int|
            0 <= j < k < range_indices(lo, hi, n).len() ==> #[trigger] range_indices(lo, hi, n)[j]
                < #[trigger] range_indices(lo, hi, n)[k],
        forall|x: int|
            lo <= x <= hi && 1 <= x <= n ==> #[trigger] range_indices(lo, hi, n).contains(
                x as usize,
            ),
    decreases hi - lo + 1,
{
    if hi >= lo {
        lemma_range_indices_contents(lo, hi - 1, n);
        let prev = range_indices(lo, hi - 1, n);
        let r = range_indices(lo, hi, n);
        assert forall|x: int| lo <= x <= hi && 1 <= x <= n implies #[trigger] r.contains(
            x as usize,
        ) by {
            if x < hi {
                assert(prev.contains(x as usize));
                let k = choose|k: int| 0 <= k < prev.len() && prev[k] == x as usize;
                assert(r[k] == x as usize);
            } else {
                assert(r[r.len() - 1] == x as usize);
            }
        }
    }
}

/// A range typed either way round designates the same indices: those of
/// `[min(a, b), max(a, b)]` that lie in `[1, n]`, each once.
pub proof fn lemma_range_command(
    a: Seq<char>,
    b: Seq<char>,
    c: char,
    n: int,
    targets: Map<char, Seq<usize>>,
)
    requires
        all_digits(a),
        all_digits(b),
        split_indices(a, n).len() == 1,
        split_indices(b, n).len() == 1,
        action_of(c) is Some,
        0 <= n <= usize::MAX,
    ensures
        ({
            let x = split_indices(a, n)[0] as int;
            let y = split_indices(b, n)[0] as int;
            parse_spec(a + seq!['-'] + b + seq![c], n, targets) == record_action(
                Map::empty(),
                range_indices(min_int(x, y), max_int(x, y), n),
                action_of(c)->0,
            )
        }),
        parse_spec(a + seq!['-'] + b + seq![c], n, targets) == parse_spec(
            b + seq!['-'] + a + seq![c],
            n,
            targets,
        ),
{
    lemma_range_parse(a, b, c, n, targets);
    lemma_range_parse(b, a, c, n, targets);
}

proof fn lemma_range_parse(
    a: Seq<char>,
    b: Seq<char>,
    c: char,
    n: int,
    targets: Map<char, Seq<usize>>,
)
    requires
        all_digits(a),
        all_digits(b),
        split_indices(a, n).len() == 1,
        split_indices(b, n).len() == 1,
        action_of(c) is Some,
        0 <= n <= usize::MAX,
    ensures
        ({
            let x = split_indices(a, n)[0] as int;
            let y = split_indices(b, n)[0] as int;
            parse_spec(a + seq!['-'] + b + seq![c], n, targets) == record_action(
                Map::empty(),
                range_indices(min_int(x, y), max_int(x, y), n),
                action_of(c)->0,
            )
        }),
{
    let x = split_indices(a, n)[0];
    let y = split_indices(b, n)[0];
    assert(a.len() > 0);
    assert(b.len() > 0);
    lemma_scan_digit_run(a, n, targets);
    let p1 = a.push('-');
    assert(p1.drop_last() =~= a);
    let s1 = scan(p1, n, targets);
    assert(split_indices(a, n).drop_last() =~= Seq::<usize>::empty());
    assert(s1 == (Scan {
        digits: seq![],
        range_start: Some(x),
        indices: seq![],
        after_action: false,
        result: Map::empty(),
    })) by {
        assert(Seq::<usize>::empty() + split_indices(a, n).drop_last() =~= Seq::<usize>::empty());
    }
    lemma_scan_append(p1, b, n, targets);
    lemma_scan_digits(s1, b, n, targets);
    let p2 = p1 + b;
    assert(seq![] + b =~= b);
    let p3 = p2.push(c);
    assert(p3.drop_last() =~= p2);
    assert(a + seq!['-'] + b + seq![c] =~= p3);
    assert(!is_digit(c));
    let rng = range_indices(min_int(x as int, y as int), max_int(x as int, y as int), n);
    assert(Seq::<usize>::empty() + rng + split_indices(b, n).skip(1) =~= rng);
}

/// The actions of a run of action characters, in order.
pub open spec fn actions_of(acts: Seq<char>) -> Seq<Action> {
    acts.map_values(|c: char| action_of(c)->0)
}

pub open spec fn all_actions(acts: Seq<char>) -> bool {
    forall|i: int| 0 <= i < acts.len() ==> (action_of(#[trigger] acts[i]) is Some)
}

/// Every action of `acts`, in order, recorded for every index of `ix`.
pub open spec fn record_actions(res: Map<usize, Seq<Action>>, ix: Seq<usize>, acts: Seq<char>) -> Map<
    usize,
    Seq<Action>,
>
    decreases acts.len(),
{
    if acts.len() == 0 {
        res
    } else {
        record_action(record_actions(res, ix, acts.drop_last()), ix, action_of(acts.last())->0)
    }
}

proof fn lemma_scan_actions(st: Scan, acts: Seq<char>, n: int, targets: Map<char, Seq<usize>>)
    requires
        st.digits.len() == 0,
        st.range_start is None,
        acts.len() > 0,
        all_actions(acts),
    ensures
        scan_from(st, acts, n, targets) == (Scan {
            result: record_actions(st.result, st.indices, acts),
            after_action: true,
            ..st
        }),
    decreases acts.len(),
{
    let c = acts.last();
    assert(action_of(acts[acts.len() - 1]) is Some);
    assert(!is_digit(c) && c != '-' && c != ' ' && c != ',' && !is_target(c));
    if acts.len() > 1 {
        assert(all_actions(acts.drop_last()));
        lemma_scan_actions(st, acts.drop_last(), n, targets);
    } else {
        assert(acts.drop_last().len() == 0);
    }
}

/// Recording one action for indices held once each appends it to exactly
/// their lists.
pub(crate) proof fn lemma_record_action_distinct(res: Map<usize, Seq<Action>>, ix: Seq<usize>, a: Action)
    requires
        ix.no_duplicates(),
    ensures
        forall|i: usize|
            ix.contains(i) ==> #[trigger] record_action(res, ix, a).contains_key(i) && record_action(
                res,
                ix,
                a,
            )[i] == if res.contains_key(i) {
                res[i]
            } else {
                seq![]
            }.push(a),
        forall|i: usize|
            !ix.contains(i) ==> (#[trigger] record_action(res, ix, a).contains_key(i)
                == res.contains_key(i)),
        forall|i: usize|
            !ix.contains(i) && res.contains_key(i) ==> #[trigger] record_action(res, ix, a)[i]
                == res[i],
    decreases ix.len(),
{
    if ix.len() > 0 {
        let p = ix.drop_last();
        let l = ix.last();
        assert(p.no_duplicates());
        lemma_record_action_distinct(res, p, a);
        let prev = record_action(res, p, a);
        assert(!p.contains(l)) by {
            if p.contains(l) {
                let k = choose|k: int| 0 <= k < p.len() && p[k] == l;
                assert(ix[k] == ix[ix.len() - 1]);
            }
        }
        assert forall|i: usize| #[trigger] ix.contains(i) && i != l implies p.contains(i) by {
            let k = choose|k: int| 0 <= k < ix.len() && ix[k] == i;
            assert(p[k] == i);
        }
        assert forall|i: usize| #[trigger] p.contains(i) implies ix.contains(i) by {
            let k = choose|k: int| 0 <= k < p.len() && p[k] == i;
            assert(ix[k] == i);
        }
        assert(ix.contains(l)) by {
            assert(ix[ix.len() - 1] == l);
        }
        assert forall|i: usize| ix.contains(i) implies #[trigger] record_action(
            res,
            ix,
            a,
        ).contains_key(i) && record_action(res, ix, a)[i] == if res.contains_key(i) {
            res[i]
        } else {
            seq![]
        }.push(a) by {
            if i != l {
                assert(p.contains(i));
                assert(prev.contains_key(i));
            } else {
                assert(prev.contains_key(l) == res.contains_key(l));
            }
        }
        assert forall|i: usize| !ix.contains(i) implies (#[trigger] record_action(
            res,
            ix,
            a,
        ).contains_key(i) == res.contains_key(i)) by {
            assert(!p.contains(i));
        }
        assert forall|i: usize| !ix.contains(i) && res.contains_key(i) implies #[trigger] record_action(
            res,
            ix,
            a,
        )[i] == res[i] by {
            assert(!p.contains(i));
            assert(prev.contains_key(i));
        }
    }
}

proof fn lemma_record_actions_distinct(ix: Seq<usize>, acts: Seq<char>)
    requires
        ix.no_duplicates(),
    ensures
        forall|i: usize|
            ix.contains(i) && acts.len() > 0 ==> #[trigger] record_actions(
                Map::empty(),
                ix,
                acts,
            ).contains_key(i) && record_actions(Map::empty(), ix, acts)[i] == actions_of(acts),
        forall|i: usize|
            !ix.contains(i) ==> !#[trigger] record_actions(Map::empty(), ix, acts).contains_key(i),
    decreases acts.len(),
{
    if acts.len() > 0 {
        let p = acts.drop_last();
        lemma_record_actions_distinct(ix, p);
        let prev = record_actions(Map::empty(), ix, p);
        let a = action_of(acts.last())->0;
        lemma_record_action_distinct(prev, ix, a);
        assert(actions_of(p).push(a) =~= actions_of(acts));
        assert forall|i: usize| ix.contains(i) implies #[trigger] record_actions(
            Map::empty(),
            ix,
            acts,
        ).contains_key(i) && record_actions(Map::empty(), ix, acts)[i] == actions_of(acts) by {
            assert(record_actions(Map::empty(), ix, acts) == record_action(prev, ix, a));
            assert(record_action(prev, ix, a).contains_key(i));
            if p.len() == 0 {
                assert(prev == Map::<usize, Seq<Action>>::empty());
                assert(!prev.contains_key(i));
                assert(actions_of(p) =~= Seq::<Action>::empty());
                assert(record_action(prev, ix, a)[i] == Seq::<Action>::empty().push(a));
            } else {
                assert(prev.contains_key(i));
                assert(prev[i] == actions_of(p));
                assert(record_action(prev, ix, a)[i] == actions_of(p).push(a));
            }
        }
        assert forall|i: usize| !ix.contains(i) implies !#[trigger] record_actions(
            Map::empty(),
            ix,
            acts,
        ).contains_key(i) by {
            assert(!prev.contains_key(i));
        }
    }
}

/// Action characters after one run of digits all apply to the indices of
/// that run, in the order typed and with repeats kept.
pub proof fn lemma_repeated_actions(
    d: Seq<char>,
    acts: Seq<char>,
    n: int,
    targets: Map<char, Seq<usize>>,
)
    requires
        all_digits(d),
        acts.len() > 0,
        all_actions(acts),
    ensures
        parse_spec(d + acts, n, targets) == record_actions(Map::empty(), split_indices(d, n), acts),
        split_indices(d, n).no_duplicates() ==> forall|i: usize|
            #[trigger] parse_spec(d + acts, n, targets).contains_key(i) <==> split_indices(
                d,
                n,
            ).contains(i),
        split_indices(d, n).no_duplicates() ==> forall|i: usize|
            #[trigger] split_indices(d, n).contains(i) ==> parse_spec(d + acts, n, targets)[i]
                == actions_of(acts),
{
    lemma_scan_digit_run(d, n, targets);
    lemma_scan_append(d, acts, n, targets);
    let s0 = scan(d, n, targets);
    let s1 = Scan {
        digits: seq![],
        range_start: None,
        indices: split_indices(d, n),
        after_action: false,
        result: Map::empty(),
    };
    let c = acts[0];
    assert(action_of(acts[0]) is Some);
    assert(!is_digit(c) && c != '-' && c != ' ' && c != ',' && !is_target(c));
    assert(Seq::<usize>::empty() + split_indices(d, n) =~= split_indices(d, n));
    if d.len() == 0 {
        assert(split_indices(d, n) =~= Seq::<usize>::empty());
    }
    assert(finalize_pending_spec(s0, n) == s1);
    lemma_scan_from_first_step(s0, s1, acts, n, targets);
    lemma_scan_actions(s1, acts, n, targets);
    if split_indices(d, n).no_duplicates() {
        let ix = split_indices(d, n);
        lemma_record_actions_distinct(ix, acts);
        assert forall|i: usize| #[trigger] ix.contains(i) implies parse_spec(d + acts, n, targets)[i]
            == actions_of(acts) by {
            assert(record_actions(Map::empty(), ix, acts).contains_key(i));
        }
    }
}


/// The action list of index `k`, empty when the map has none.
pub open spec fn list_of(m: Map<usize, Seq<Action>>, k: usize) -> Seq<Action> {
    if m.contains_key(k) {
        m[k]
    } else {
        seq![]
    }
}

/// Two pending maps joined: each index gets the actions of `a`, then those
/// of `b`.
pub open spec fn concat_results(a: Map<usize, Seq<Action>>, b: Map<usize, Seq<Action>>) -> Map<
    usize,
    Seq<Action>,
> {
    Map::new(
        |k: usize| a.contains_key(k) || b.contains_key(k),
        |k: usize| list_of(a, k) + list_of(b, k),
    )
}

proof fn lemma_record_action_concat(
    a: Map<usize, Seq<Action>>,
    q: Map<usize, Seq<Action>>,
    ix: Seq<usize>,
    act: Action,
)
    ensures
        record_action(concat_results(a, q), ix, act) == concat_results(a, record_action(q, ix, act)),
    decreases ix.len(),
{
    if ix.len() > 0 {
        lemma_record_action_concat(a, q, ix.drop_last(), act);
        let q2 = record_action(q, ix.drop_last(), act);
        let i = ix.last();
        let lhs = record_action(concat_results(a, q), ix, act);
        let rhs = concat_results(a, record_action(q, ix, act));
        assert(list_of(concat_results(a, q2), i) == list_of(a, i) + list_of(q2, i));
        assert((list_of(a, i) + list_of(q2, i)).push(act) =~= list_of(a, i) + list_of(q2, i).push(
            act,
        ));
        assert(lhs =~= rhs);
    } else {
        assert(record_action(concat_results(a, q), ix, act) == concat_results(a, q));
    }
}

proof fn lemma_scan_step_concat(
    r: Map<usize, Seq<Action>>,
    st: Scan,
    c: char,
    n: int,
    targets: Map<char, Seq<usize>>,
)
    ensures
        scan_step(Scan { result: concat_results(r, st.result), ..st }, c, n, targets) == (Scan {
            result: concat_results(r, scan_step(st, c, n, targets).result),
            ..scan_step(st, c, n, targets)
        }),
{
    if !is_digit(c) && c != '-' && c != ' ' && c != ',' && !is_target(c) && action_of(c) is Some {
        let s = finalize_pending_spec(st, n);
        lemma_record_action_concat(r, s.result, s.indices, action_of(c)->0);
    }
}

proof fn lemma_scan_from_concat(
    r: Map<usize, Seq<Action>>,
    st: Scan,
    input: Seq<char>,
    n: int,
    targets: Map<char, Seq<usize>>,
)
    ensures
        scan_from(Scan { result: concat_results(r, st.result), ..st }, input, n, targets) == (Scan {
            result: concat_results(r, scan_from(st, input, n, targets).result),
            ..scan_from(st, input, n, targets)
        }),
    decreases input.len(),
{
    if input.len() > 0 {
        lemma_scan_from_concat(r, st, input.drop_last(), n, targets);
        lemma_scan_step_concat(r, scan_from(st, input.drop_last(), n, targets), input.last(), n, targets);
    }
}

/// A character that is no digit, range dash, separator, alias or action
/// splits the line in two: the part after it is read as if on its own, and
/// its actions follow those of the part before it.
pub proof fn lemma_unknown_char_splits_line(
    x: Seq<char>,
    c: char,
    y: Seq<char>,
    n: int,
    targets: Map<char, Seq<usize>>,
)
    requires
        !is_digit(c),
        c != '-',
        c != ' ',
        c != ',',
        !is_target(c),
        action_of(c) is None,
    ensures
        parse_spec(x.push(c) + y, n, targets) == concat_results(
            parse_spec(x, n, targets),
            parse_spec(y, n, targets),
        ),
{
    let r = parse_spec(x, n, targets);
    assert(x.push(c).drop_last() =~= x);
    lemma_scan_append(x.push(c), y, n, targets);
    let init = initial_scan();
    assert(concat_results(r, init.result) =~= r);
    assert(scan(x.push(c), n, targets) == (Scan { result: concat_results(r, init.result), ..init }));
    lemma_scan_from_concat(r, init, y, n, targets);
    lemma_scan_append(seq![], y, n, targets);
    assert(Seq::<char>::empty() + y =~= y);
    assert(scan(Seq::<char>::empty(), n, targets) == init);
}

} // verus!
