//! Small general-purpose facts about sequences.

use vstd::prelude::*;

verus! {

/// Index of the first occurrence of `x` in `s`, or -1 if `s` has none.
pub open spec fn find_first<A>(s: Seq<A>, x: A) -> int
    decreases s.len(),
{
    if s.len() == 0 {
        -1
    } else if s[0] == x {
        0
    } else {
        let r = find_first(s.drop_first(), x);
        if r == -1 {
            -1
        } else {
            r + 1
        }
    }
}

pub proof fn lemma_find_first<A>(s: Seq<A>, x: A)
    ensures
        find_first(s, x) == -1 ==> forall|i: int| 0 <= i < s.len() ==> s[i] != x,
        find_first(s, x) != -1 ==> {
            &&& 0 <= find_first(s, x) < s.len()
            &&& s[find_first(s, x)] == x
            &&& forall|i: int| 0 <= i < find_first(s, x) ==> s[i] != x
        },
    decreases s.len(),
{
    if s.len() == 0 {
    } else if s[0] == x {
    } else {
        lemma_find_first(s.drop_first(), x);
        let r = find_first(s.drop_first(), x);
        if r == -1 {
            assert forall|i: int| 0 <= i < s.len() implies s[i] != x by {
                if i > 0 {
                    assert(s.drop_first()[i - 1] == s[i]);
                }
            }
        } else {
            assert(s.drop_first()[r] == s[r + 1]);
            assert forall|i: int| 0 <= i < find_first(s, x) implies s[i] != x by {
                if i > 0 {
                    assert(s.drop_first()[i - 1] == s[i]);
                }
            }
        }
    }
}

pub proof fn lemma_push_contains<A>(s: Seq<A>, x: A, y: A)
    ensures
        s.push(x).contains(y) <==> s.contains(y) || y == x,
{
    if s.contains(y) {
        let i = choose|i: int| 0 <= i < s.len() && s[i] == y;
        assert(s.push(x)[i] == y);
    }
    if y == x {
        assert(s.push(x)[s.len() as int] == y);
    }
    if s.push(x).contains(y) {
        let i = choose|i: int| 0 <= i < s.push(x).len() && s.push(x)[i] == y;
        if i < s.len() {
            assert(s[i] == y);
        }
    }
}

/// An index before which `x` does not occur, and at which it does, is the
/// first occurrence.
pub proof fn lemma_find_first_is<A>(s: Seq<A>, x: A, i: int)
    requires
        0 <= i < s.len(),
        s[i] == x,
        forall|j: int| 0 <= j < i ==> s[j] != x,
    ensures
        find_first(s, x) == i,
{
    lemma_find_first(s, x);
    if find_first(s, x) == -1 {
        assert(s[i] == x);
    }
}

/// Extending a sequence does not move the first occurrence of a value the
/// prefix already holds.
pub proof fn lemma_find_first_extend<A>(p: Seq<A>, q: Seq<A>, x: A)
    requires
        p.is_prefix_of(q),
        p.contains(x),
    ensures
        q.contains(x),
        find_first(q, x) == find_first(p, x),
{
    lemma_find_first(p, x);
    let i = choose|i: int| 0 <= i < p.len() && p[i] == x;
    assert(find_first(p, x) != -1) by {
        if find_first(p, x) == -1 {
            assert(p[i] != x);
        }
    }
    let f = find_first(p, x);
    assert(q[f] == p[f]) by {
        assert(p =~= q.subrange(0, p.len() as int));
        assert(q.subrange(0, p.len() as int)[f] == q[f]);
    }
    assert(q.contains(x)) by {
        assert(q[f] == x);
    }
    assert forall|j: int| 0 <= j < f implies q[j] != x by {
        assert(p =~= q.subrange(0, p.len() as int));
        assert(q.subrange(0, p.len() as int)[j] == q[j]);
        assert(p[j] != x);
    }
    lemma_find_first_is(q, x, f);
}

pub proof fn lemma_strictly_increasing_push(s: Seq<usize>, x: usize)
    requires
        strictly_increasing(s),
        forall|t: usize| s.contains(t) ==> t < x,
    ensures
        strictly_increasing(s.push(x)),
{
    assert forall|i: int, j: int| 0 <= i < j < s.push(x).len() implies s.push(x)[i] < s.push(
        x,
    )[j] by {
        if j < s.len() {
        } else {
            assert(s.push(x)[i] == s[i]);
            assert(s.contains(s[i]));
        }
    }
}

pub proof fn lemma_push_no_duplicates<A>(s: Seq<A>, x: A)
    requires
        s.no_duplicates(),
        !s.contains(x),
    ensures
        s.push(x).no_duplicates(),
{
    assert forall|i: int, j: int|
        0 <= i < s.push(x).len() && 0 <= j < s.push(x).len() && i != j implies s.push(x)[i]
        != s.push(x)[j] by {
        if i < s.len() && j < s.len() {
        } else if i < s.len() {
            assert(s.push(x)[i] == s[i]);
            assert(s.contains(s[i]));
        } else if j < s.len() {
            assert(s.push(x)[j] == s[j]);
            assert(s.contains(s[j]));
        }
    }
}

pub proof fn lemma_remove_insert_is_update<A>(s: Seq<A>, i: int, x: A)
    requires
        0 <= i < s.len(),
    ensures
        s.remove(i).insert(i, x) =~= s.update(i, x),
{
}

/// Every entry of a sequence of distinct, strictly growing values is pinned
/// by membership alone: two such sequences with the same members are equal.
pub open spec fn strictly_increasing(s: Seq<usize>) -> bool {
    forall|i: int, j: int| 0 <= i < j < s.len() ==> s[i] < s[j]
}

pub proof fn lemma_strictly_increasing_unique(a: Seq<usize>, b: Seq<usize>)
    requires
        strictly_increasing(a),
        strictly_increasing(b),
        forall|t: usize| a.contains(t) <==> b.contains(t),
    ensures
        a =~= b,
    decreases a.len(),
{
    if a.len() == 0 {
        if b.len() > 0 {
            assert(b.contains(b[0]));
        }
    } else {
        let x = a.last();
        assert(a.contains(x));
        assert(b.contains(x));
        assert(b.len() > 0);
        let y = b.last();
        assert(b.contains(y));
        assert(a.contains(y));
        assert(x <= y) by {
            let i = choose|i: int| 0 <= i < b.len() && b[i] == x;
            if i < b.len() - 1 {
                assert(b[i] < b[b.len() - 1]);
            }
        }
        assert(y <= x) by {
            let i = choose|i: int| 0 <= i < a.len() && a[i] == y;
            if i < a.len() - 1 {
                assert(a[i] < a[a.len() - 1]);
            }
        }
        let a1 = a.drop_last();
        let b1 = b.drop_last();
        assert forall|t: usize| a1.contains(t) <==> b1.contains(t) by {
            lemma_drop_last_member(a, t);
            lemma_drop_last_member(b, t);
        }
        lemma_strictly_increasing_unique(a1, b1);
        assert(a =~= a1.push(x));
        assert(b =~= b1.push(y));
    }
}

/// In a strictly increasing sequence, the members of `drop_last` are exactly
/// the members smaller than the last value.
pub proof fn lemma_drop_last_member(s: Seq<usize>, t: usize)
    requires
        strictly_increasing(s),
        s.len() > 0,
    ensures
        s.drop_last().contains(t) <==> s.contains(t) && t < s.last(),
{
    if s.drop_last().contains(t) {
        let i = choose|i: int| 0 <= i < s.drop_last().len() && s.drop_last()[i] == t;
        assert(s[i] == t);
        assert(s[i] < s[s.len() - 1]);
    }
    if s.contains(t) && t < s.last() {
        let i = choose|i: int| 0 <= i < s.len() && s[i] == t;
        assert(i < s.len() - 1);
        assert(s.drop_last()[i] == t);
    }
}

} // verus!
