use vstd::prelude::*;

use crate::github::{split_on, pieces_view};
use crate::state::IgnoreSet;
use crate::text::{chars_of, string_from_chars, trim_chars, trimmed};

verus! {

/// A line of the ignore list that names a URL: not blank, not a comment.
pub open spec fn is_entry_line(t: Seq<char>) -> bool {
    t.len() > 0 && t[0] != '#'
}

/// The URLs that an ignore list names: its lines trimmed, blank lines and
/// `#` comments left out.
pub open spec fn ignore_entries(text: Seq<char>) -> Set<Seq<char>> {
    split_on(text, '\n').map_values(|l: Seq<char>| trimmed(l)).filter(
        |t: Seq<char>| is_entry_line(t),
    ).to_set()
}

fn split_lines(s: &Vec<char>) -> (r: Vec<Vec<char>>)
    ensures
        pieces_view(r@) == split_on(s@, '\n'),
{
    let mut parts: Vec<Vec<char>> = Vec::new();
    let mut current: Vec<char> = Vec::new();
    let mut i: usize = 0;
    assert(s@.take(0) =~= Seq::<char>::empty());
    assert(pieces_view(parts@).push(current@) =~= split_on(s@.take(0), '\n'));
    while i < s.len()
        invariant
            i <= s.len(),
            pieces_view(parts@).push(current@) == split_on(s@.take(i as int), '\n'),
        decreases s.len() - i,
    {
        proof {
            assert(s@.take(i + 1).drop_last() =~= s@.take(i as int));
            assert(s@.take(i + 1).last() == s@[i as int]);
        }
        let ghost before = pieces_view(parts@);
        let ghost cur = current@;
        if s[i] == '\n' {
            let mut finished: Vec<char> = Vec::new();
            std::mem::swap(&mut finished, &mut current);
            parts.push(finished);
            proof {
                assert(pieces_view(parts@) =~= before.push(cur));
                assert(pieces_view(parts@).push(current@) =~= before.push(cur).push(seq![]));
            }
        } else {
            current.push(s[i]);
            proof {
                assert(pieces_view(parts@).push(current@) =~= before.push(cur).update(
                    before.len() as int,
                    cur.push(s@[i as int]),
                ));
            }
        }
        i = i + 1;
    }
    let ghost before = pieces_view(parts@);
    let ghost cur = current@;
    parts.push(current);
    assert(pieces_view(parts@) =~= before.push(cur));
    assert(s@.take(i as int) =~= s@);
    parts
}

/// Reads the text of an ignore list.
pub fn parse_ignore_list(text: &str) -> (r: IgnoreSet)
    ensures
        r@ == ignore_entries(text@),
{
    let lines = split_lines(&chars_of(text));
    let ghost pv = pieces_view(lines@);
    let ghost f = |t: Seq<char>| is_entry_line(t);
    let ghost tr = pv.map_values(|l: Seq<char>| trimmed(l));
    let mut ignores = IgnoreSet::new();
    let mut k: usize = 0;
    assert(tr.take(0).filter(f).to_set() =~= Set::<Seq<char>>::empty());
    while k < lines.len()
        invariant
            k <= lines.len(),
            pv == pieces_view(lines@),
            tr == pv.map_values(|l: Seq<char>| trimmed(l)),
            f == (|t: Seq<char>| is_entry_line(t)),
            ignores@ == tr.take(k as int).filter(f).to_set(),
        decreases lines.len() - k,
    {
        let line = trim_chars(&lines[k]);
        proof {
            assert(tr.take(k + 1) =~= tr.take(k as int).push(tr[k as int]));
            tr.take(k as int).lemma_filter_push(tr[k as int], f);
            assert(line@ == tr[k as int]);
        }
        if line.len() > 0 && line[0] != '#' {
            let ghost before = tr.take(k as int).filter(f);
            ignores.insert(string_from_chars(&line));
            proof {
                before.lemma_push_to_set_commute(line@);
            }
        }
        k = k + 1;
    }
    assert(tr.take(k as int) =~= tr);
    ignores
}

} // verus!
