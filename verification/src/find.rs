//! First-occurrence substring search over byte sequences, with a verified
//! executable search and the lemmas the scanner's proofs lean on.

use vstd::prelude::*;

verus! {

/// The needle `n` occurs in `h` starting at position `i`.
pub open spec fn matches_at(h: Seq<u8>, n: Seq<u8>, i: int) -> bool {
    0 <= i && i + n.len() <= h.len() && h.subrange(i, i + n.len()) == n
}

/// The position of the first occurrence of `n` in `h` at or after `from`,
/// if there is one.
pub open spec fn spec_find(h: Seq<u8>, n: Seq<u8>, from: int) -> Option<int>
    decreases h.len() + 1 - from when 0 <= from
{
    if from + n.len() > h.len() {
        None
    } else if h.subrange(from, from + n.len()) == n {
        Some(from)
    } else {
        spec_find(h, n, from + 1)
    }
}

/// A found occurrence is a match, lies at or after `from`, and is the first:
/// no position between `from` and it matches.
pub proof fn lemma_find_some(h: Seq<u8>, n: Seq<u8>, from: int, i: int)
    requires
        0 <= from,
        spec_find(h, n, from) == Some(i),
    ensures
        from <= i,
        matches_at(h, n, i),
        forall|j: int| from <= j < i ==> !matches_at(h, n, j),
    decreases h.len() + 1 - from,
{
    if from + n.len() > h.len() {
    } else if h.subrange(from, from + n.len()) == n {
    } else {
        lemma_find_some(h, n, from + 1, i);
    }
}

/// The search fails exactly when no position at or after `from` matches.
pub proof fn lemma_find_none(h: Seq<u8>, n: Seq<u8>, from: int)
    requires
        0 <= from,
    ensures
        spec_find(h, n, from) is None <==> forall|j: int| from <= j ==> !matches_at(h, n, j),
    decreases h.len() + 1 - from,
{
    if from + n.len() > h.len() {
        assert forall|j: int| from <= j implies !matches_at(h, n, j) by {
            assert(j + n.len() > h.len());
        }
    } else if h.subrange(from, from + n.len()) == n {
        assert(matches_at(h, n, from));
    } else {
        lemma_find_none(h, n, from + 1);
        if spec_find(h, n, from) is None {
            assert forall|j: int| from <= j implies !matches_at(h, n, j) by {
                if j == from {
                    assert(!matches_at(h, n, from));
                }
            }
        }
    }
}

/// Compares `h[i .. i + nd.len()]` with `nd`.
pub fn eq_at(h: &Vec<u8>, nd: &Vec<u8>, i: usize) -> (r: bool)
    requires
        i + nd@.len() <= h@.len(),
    ensures
        r == matches_at(h@, nd@, i as int),
{
    let hn = h.len();
    let m = nd.len();
    let mut j: usize = 0;
    while j < m
        invariant
            j <= m,
            m == nd@.len(),
            hn == h@.len(),
            i + m <= hn,
            forall|k: int| 0 <= k < j ==> h@[i + k] == nd@[k],
        decreases m - j,
    {
        if h[i + j] != nd[j] {
            proof {
                assert(h@.subrange(i as int, i + m)[j as int] != nd@[j as int]);
            }
            return false;
        }
        j = j + 1;
    }
    proof {
        assert(h@.subrange(i as int, i + m) =~= nd@);
    }
    true
}

/// Finds the first occurrence of `nd` in `h` at or after `from`.
pub fn find_sub(h: &Vec<u8>, nd: &Vec<u8>, from: usize) -> (r: Option<usize>)
    requires
        from <= h@.len(),
    ensures
        match r {
            Some(i) => spec_find(h@, nd@, from as int) == Some(i as int),
            None => spec_find(h@, nd@, from as int) is None,
        },
{
    let n = h.len();
    let m = nd.len();
    if m == 0 {
        proof {
            assert(h@.subrange(from as int, from as int) =~= nd@);
        }
        return Some(from);
    }
    let mut i: usize = from;
    while i <= n && n - i >= m
        invariant
            from <= i,
            i <= n,
            1 <= m,
            n == h@.len(),
            m == nd@.len(),
            spec_find(h@, nd@, from as int) == spec_find(h@, nd@, i as int),
        decreases n + 1 - i,
    {
        if eq_at(h, nd, i) {
            return Some(i);
        }
        i = i + 1;
    }
    proof {
        assert(i + m > n);
    }
    None
}

} // verus!
