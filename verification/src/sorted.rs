//! Canonical strictly increasing index sets.

use vstd::prelude::*;

verus! {

/// `s` lists its elements in strictly increasing order.
pub open spec fn strictly_increasing(s: Seq<usize>) -> bool {
    forall|i: int, j: int| 0 <= i < j < s.len() ==> s[i] < s[j]
}

/// Whether `x` occurs in `s`.
pub fn contains_index(s: &Vec<usize>, x: usize) -> (found: bool)
    ensures
        found == s@.contains(x),
{
    let mut i: usize = 0;
    while i < s.len()
        invariant
            i <= s@.len(),
            forall|k: int| 0 <= k < i ==> s@[k] != x,
        decreases s@.len() - i,
    {
        if s[i] == x {
            assert(s@[i as int] == x);
            return true;
        }
        i = i + 1;
    }
    false
}

/// Add `x` to the strictly increasing set `v`; report whether it was absent.
pub fn insert_sorted_unique(v: &mut Vec<usize>, x: usize) -> (inserted: bool)
    requires
        strictly_increasing(old(v)@),
    ensures
        strictly_increasing(final(v)@),
        inserted == !old(v)@.contains(x),
        forall|y: usize| #[trigger] final(v)@.contains(y) <==> (old(v)@.contains(y) || y == x),
{
    let ghost before = v@;
    let mut p: usize = 0;
    while p < v.len() && v[p] < x
        invariant
            v@ == before,
            strictly_increasing(before),
            p <= before.len(),
            forall|k: int| 0 <= k < p ==> before[k] < x,
        decreases before.len() - p,
    {
        p = p + 1;
    }
    if p < v.len() && v[p] == x {
        assert(before[p as int] == x);
        assert forall|y: usize| #[trigger] v@.contains(y) <==> (before.contains(y) || y == x) by {
            if y == x {
                assert(before[p as int] == y);
            }
        }
        return false;
    }
    assert(!before.contains(x)) by {
        if before.contains(x) {
            let k = choose|k: int| 0 <= k < before.len() && before[k] == x;
            if k < p {
            } else {
                assert(before[p as int] > x);
                assert(before[k] >= before[p as int]);
            }
        }
    }
    v.insert(p, x);
    proof {
        before.insert_ensures(p as int, x);
        let after = v@;
        assert forall|i: int, j: int| 0 <= i < j < after.len() implies after[i] < after[j] by {
            if j < p {
            } else if j == p {
            } else if i < p {
                assert(after[j] == before[j - 1]);
                assert(before[p as int] > x);
                assert(before[j - 1] >= before[p as int]);
            } else if i == p {
                assert(after[j] == before[j - 1]);
                assert(before[p as int] > x);
                assert(before[j - 1] >= before[p as int]);
            } else {
                assert(after[i] == before[i - 1]);
                assert(after[j] == before[j - 1]);
            }
        }
        assert forall|y: usize| #[trigger] after.contains(y) <==> (before.contains(y) || y == x) by {
            if after.contains(y) {
                let k = choose|k: int| 0 <= k < after.len() && after[k] == y;
                if k < p {
                    assert(before[k] == y);
                } else if k > p {
                    assert(before[k - 1] == y);
                }
            }
            if before.contains(y) {
                let k = choose|k: int| 0 <= k < before.len() && before[k] == y;
                if k < p {
                    assert(after[k] == y);
                } else {
                    assert(after[k + 1] == y);
                }
            }
            if y == x {
                assert(after[p as int] == y);
            }
        }
    }
    true
}

/// Position of `x` in the strictly increasing set `s`, found by bisection.
pub fn sorted_position(s: &Vec<usize>, x: usize) -> (position: Option<usize>)
    requires
        strictly_increasing(s@),
    ensures
        position matches Some(k) ==> k < s@.len() && s@[k as int] == x,
        position is None <==> !s@.contains(x),
{
    let mut lo: usize = 0;
    let mut hi: usize = s.len();
    while lo < hi
        invariant
            lo <= hi <= s@.len(),
            strictly_increasing(s@),
            forall|k: int| 0 <= k < lo ==> s@[k] < x,
            forall|k: int| hi <= k < s@.len() ==> s@[k] > x,
        decreases hi - lo,
    {
        let mid = lo + (hi - lo) / 2;
        if s[mid] == x {
            return Some(mid);
        } else if s[mid] < x {
            lo = mid + 1;
        } else {
            hi = mid;
        }
    }
    proof {
        if s@.contains(x) {
            let k = choose|k: int| 0 <= k < s@.len() && s@[k] == x;
        }
    }
    None
}

/// Index of the first element of `s` that is not below `x`.
pub open spec fn insert_position(s: Seq<usize>, x: usize) -> int
    decreases s.len(),
{
    if s.len() == 0 || !(s[0] < x) {
        0
    } else {
        1 + insert_position(s.drop_first(), x)
    }
}

/// The strictly increasing set `s` with `x` added.
pub open spec fn sorted_insert(s: Seq<usize>, x: usize) -> Seq<usize> {
    let p = insert_position(s, x);
    if p < s.len() && s[p] == x {
        s
    } else {
        s.insert(p, x)
    }
}

/// The elements of `c` as a strictly increasing set.
pub open spec fn sorted_set(c: Seq<usize>) -> Seq<usize>
    decreases c.len(),
{
    if c.len() == 0 {
        Seq::empty()
    } else {
        sorted_insert(sorted_set(c.drop_last()), c.last())
    }
}

proof fn lemma_insert_position(s: Seq<usize>, x: usize)
    requires
        strictly_increasing(s),
    ensures
        0 <= insert_position(s, x) <= s.len(),
        forall|k: int| 0 <= k < insert_position(s, x) ==> s[k] < x,
        insert_position(s, x) < s.len() ==> s[insert_position(s, x)] >= x,
    decreases s.len(),
{
    if s.len() > 0 && s[0] < x {
        let t = s.drop_first();
        assert forall|i: int, j: int| 0 <= i < j < t.len() implies t[i] < t[j] by {
            assert(t[i] == s[i + 1] && t[j] == s[j + 1]);
        }
        lemma_insert_position(t, x);
        assert forall|k: int| 0 <= k < insert_position(s, x) implies s[k] < x by {
            if k > 0 {
                assert(s[k] == t[k - 1]);
            }
        }
        if insert_position(s, x) < s.len() {
            assert(s[insert_position(s, x)] == t[insert_position(t, x)]);
        }
    }
}

/// Adding an element keeps a strictly increasing set strictly increasing.
pub proof fn lemma_sorted_insert(s: Seq<usize>, x: usize)
    requires
        strictly_increasing(s),
    ensures
        strictly_increasing(sorted_insert(s, x)),
        forall|y: usize| #[trigger] sorted_insert(s, x).contains(y) <==> (s.contains(y) || y == x),
{
    lemma_insert_position(s, x);
    let p = insert_position(s, x);
    if p < s.len() && s[p] == x {
        assert forall|y: usize| #[trigger] sorted_insert(s, x).contains(y) <==> (s.contains(y) || y == x) by {
            if y == x {
                assert(s[p] == y);
            }
        }
    } else {
        let after = s.insert(p, x);
        s.insert_ensures(p, x);
        assert forall|i: int, j: int| 0 <= i < j < after.len() implies after[i] < after[j] by {
            if j < p {
            } else if j == p {
            } else if i < p {
                assert(after[j] == s[j - 1]);
                assert(s[j - 1] >= s[p]);
            } else if i == p {
                assert(after[j] == s[j - 1]);
                assert(s[j - 1] >= s[p]);
            } else {
                assert(after[i] == s[i - 1]);
                assert(after[j] == s[j - 1]);
            }
        }
        assert forall|y: usize| #[trigger] after.contains(y) <==> (s.contains(y) || y == x) by {
            if after.contains(y) {
                let k = choose|k: int| 0 <= k < after.len() && after[k] == y;
                if k < p {
                    assert(s[k] == y);
                } else if k > p {
                    assert(s[k - 1] == y);
                }
            }
            if s.contains(y) {
                let k = choose|k: int| 0 <= k < s.len() && s[k] == y;
                if k < p {
                    assert(after[k] == y);
                } else {
                    assert(after[k + 1] == y);
                }
            }
            if y == x {
                assert(after[p] == y);
            }
        }
    }
}

/// `sorted_set(c)` is strictly increasing and holds exactly the elements of `c`.
pub proof fn lemma_sorted_set(c: Seq<usize>)
    ensures
        strictly_increasing(sorted_set(c)),
        forall|y: usize| #[trigger] sorted_set(c).contains(y) <==> c.contains(y),
    decreases c.len(),
{
    if c.len() > 0 {
        let prev = c.drop_last();
        lemma_sorted_set(prev);
        lemma_sorted_insert(sorted_set(prev), c.last());
        assert forall|y: usize| #[trigger] sorted_set(c).contains(y) <==> c.contains(y) by {
            if prev.contains(y) {
                let k = choose|k: int| 0 <= k < prev.len() && prev[k] == y;
                assert(c[k] == y);
            }
            if c.contains(y) {
                let k = choose|k: int| 0 <= k < c.len() && c[k] == y;
                if k < c.len() - 1 {
                    assert(prev[k] == y);
                }
            }
            if y == c.last() {
                assert(c[c.len() - 1] == y);
            }
        }
    }
}

} // verus!
