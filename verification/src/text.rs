//! Character-level splitting of text into lines and separated fields.
//!
//! The spec functions give the exact meaning of splitting a character
//! sequence at a separator and of the line discipline (a line ends at a
//! newline, and a carriage return standing right before that newline is
//! dropped with it; a final line ending is optional). The executable
//! functions are proved to return exactly those pieces.

use vstd::prelude::*;

use crate::seqs::{find_first, lemma_find_first, lemma_find_first_is};

verus! {

/// The pieces of `s` between occurrences of `sep`: an empty sequence gives
/// one empty piece, and a separator at the very end a trailing empty piece.
pub open spec fn spec_split(s: Seq<char>, sep: char) -> Seq<Seq<char>>
    decreases s.len(),
{
    let i = find_first(s, sep);
    if 0 <= i < s.len() {
        seq![s.take(i)] + spec_split(s.skip(i + 1), sep)
    } else {
        seq![s]
    }
}

pub proof fn lemma_split_nonempty(s: Seq<char>, sep: char)
    ensures
        spec_split(s, sep).len() >= 1,
{
}

/// A carriage return at the very end is dropped.
pub open spec fn strip_cr(l: Seq<char>) -> Seq<char> {
    if l.len() > 0 && l.last() == '\r' {
        l.drop_last()
    } else {
        l
    }
}

/// The lines of `s`: the pieces between newlines, a carriage return dropped
/// from the end of every piece that a newline terminated, and no final empty
/// piece (so a final line ending is optional and an empty text has no lines).
pub open spec fn spec_lines(s: Seq<char>) -> Seq<Seq<char>> {
    let parts = spec_split(s, '\n');
    if parts.last().len() == 0 {
        parts.drop_last().map_values(|l: Seq<char>| strip_cr(l))
    } else {
        parts.drop_last().map_values(|l: Seq<char>| strip_cr(l)).push(parts.last())
    }
}

/// Split `s` at every occurrence of `sep`.
pub fn split_str(s: &str, sep: char) -> (r: Vec<String>)
    ensures
        r.deep_view() == spec_split(s@, sep),
{
    let n = s.unicode_len();
    let mut r: Vec<String> = Vec::new();
    let mut start: usize = 0;
    let mut pos: usize = 0;
    proof {
        assert(s@.skip(0) =~= s@);
        assert(r.deep_view() =~= Seq::<Seq<char>>::empty());
        assert(r.deep_view() + spec_split(s@.skip(0), sep) =~= spec_split(s@, sep));
    }
    while pos < n
        invariant
            start <= pos <= n,
            n == s@.len(),
            spec_split(s@, sep) == r.deep_view() + spec_split(s@.skip(start as int), sep),
            forall|i: int| start <= i < pos ==> s@[i] != sep,
        decreases n - pos,
    {
        if s.get_char(pos) == sep {
            let piece = s.substring_char(start, pos);
            let ghost old_deep = r.deep_view();
            r.push(piece.to_owned());
            proof {
                let rem = s@.skip(start as int);
                assert forall|j: int| 0 <= j < pos - start implies rem[j] != sep by {
                    assert(rem[j] == s@[start + j]);
                }
                assert(rem[pos - start] == sep);
                lemma_find_first_is(rem, sep, pos - start);
                assert(rem.take(pos - start) =~= s@.subrange(start as int, pos as int));
                assert(rem.skip(pos - start + 1) =~= s@.skip(pos + 1));
                assert(spec_split(rem, sep) == seq![piece@] + spec_split(s@.skip(pos + 1), sep));
                assert(r.deep_view() =~= old_deep.push(piece@));
                assert(old_deep.push(piece@) + spec_split(s@.skip(pos + 1), sep) =~= old_deep + (
                seq![piece@] + spec_split(s@.skip(pos + 1), sep)));
            }
            start = pos + 1;
        }
        pos += 1;
    }
    let piece = s.substring_char(start, n);
    let ghost old_deep = r.deep_view();
    r.push(piece.to_owned());
    proof {
        let rem = s@.skip(start as int);
        lemma_find_first(rem, sep);
        if find_first(rem, sep) != -1 {
            let f = find_first(rem, sep);
            assert(rem[f] == s@[start + f]);
        }
        assert(rem =~= s@.subrange(start as int, n as int));
        assert(spec_split(rem, sep) == seq![rem]);
        assert(r.deep_view() =~= old_deep.push(piece@));
        assert(old_deep.push(piece@) =~= old_deep + seq![rem]);
    }
    r
}

/// The lines of `s`, as `spec_lines` reads them.
pub fn lines_of(s: &str) -> (r: Vec<String>)
    ensures
        r.deep_view() == spec_lines(s@),
{
    let parts = split_str(s, '\n');
    let ghost target = spec_lines(s@);
    let ghost pdeep = parts.deep_view();
    let np = parts.len();
    proof {
        lemma_split_nonempty(s@, '\n');
        assert(np >= 1);
    }
    let last_empty = parts[np - 1].as_str().is_empty();
    let limit = if last_empty {
        np - 1
    } else {
        np
    };
    proof {
        assert(pdeep.last().len() == 0 <==> last_empty);
        assert(target.len() == limit);
        assert forall|i: int| 0 <= i < np - 1 implies target[i] == strip_cr(pdeep[i]) by {
            assert(pdeep.drop_last()[i] == pdeep[i]);
        }
        if !last_empty {
            assert(target[np - 1] == pdeep[np - 1]);
        }
    }
    let mut r: Vec<String> = Vec::new();
    let mut i: usize = 0;
    while i < limit
        invariant
            i <= limit,
            limit <= np,
            np == parts@.len(),
            pdeep == parts.deep_view(),
            target.len() == limit,
            forall|j: int| 0 <= j < np - 1 ==> target[j] == strip_cr(pdeep[j]),
            limit == np ==> target[np - 1] == pdeep[np - 1],
            r.deep_view() =~= target.take(i as int),
        decreases limit - i,
    {
        let ghost old_deep = r.deep_view();
        if i < np - 1 {
            let li = &parts[i];
            let ln = li.as_str().unicode_len();
            if ln > 0 && li.as_str().get_char(ln - 1) == '\r' {
                let stripped = li.as_str().substring_char(0, ln - 1);
                r.push(stripped.to_owned());
                proof {
                    assert(stripped@ =~= pdeep[i as int].drop_last());
                    assert(strip_cr(pdeep[i as int]) == stripped@);
                }
            } else {
                r.push(li.clone());
                proof {
                    assert(strip_cr(pdeep[i as int]) == pdeep[i as int]);
                }
            }
        } else {
            let li = &parts[i];
            r.push(li.clone());
        }
        proof {
            assert(r.deep_view() =~= old_deep.push(target[i as int]));
            assert(r.deep_view() =~= target.take(i as int + 1));
        }
        i += 1;
    }
    proof {
        assert(target.take(limit as int) =~= target);
    }
    r
}

} // verus!
