//! Byte-wise lexicographic order on byte strings, and sorted deduplication:
//! the specification of the result order, a verified sorting pass, and the
//! lemma that a strictly sorted sequence is determined by its elements.

use vstd::prelude::*;

verus! {

/// `a` comes strictly before `b` in byte-wise lexicographic order.
pub open spec fn lex_lt(a: Seq<u8>, b: Seq<u8>) -> bool
    decreases a.len(),
{
    if b.len() == 0 {
        false
    } else if a.len() == 0 {
        true
    } else if a[0] < b[0] {
        true
    } else if a[0] > b[0] {
        false
    } else {
        lex_lt(a.drop_first(), b.drop_first())
    }
}

/// The order is irreflexive.
pub proof fn lemma_lex_irrefl(a: Seq<u8>)
    ensures
        !lex_lt(a, a),
    decreases a.len(),
{
    if a.len() > 0 {
        lemma_lex_irrefl(a.drop_first());
    }
}

/// Any two byte strings are ordered or equal.
pub proof fn lemma_lex_connex(a: Seq<u8>, b: Seq<u8>)
    ensures
        lex_lt(a, b) || lex_lt(b, a) || a == b,
    decreases a.len(),
{
    if b.len() == 0 {
        if a.len() == 0 {
            assert(a =~= b);
        }
    } else if a.len() == 0 {
    } else if a[0] < b[0] {
    } else if a[0] > b[0] {
    } else {
        lemma_lex_connex(a.drop_first(), b.drop_first());
        if a.drop_first() == b.drop_first() {
            assert forall|i: int| 0 <= i < a.len() implies a[i] == b[i] by {
                if i > 0 {
                    assert(a[i] == a.drop_first()[i - 1]);
                    assert(b[i] == b.drop_first()[i - 1]);
                }
            }
            assert(a.len() == b.len()) by {
                assert(a.drop_first().len() == b.drop_first().len());
            }
            assert(a =~= b);
        }
    }
}

/// The order is asymmetric.
pub proof fn lemma_lex_asym(a: Seq<u8>, b: Seq<u8>)
    requires
        lex_lt(a, b),
    ensures
        !lex_lt(b, a),
    decreases a.len(),
{
    if b.len() == 0 {
    } else if a.len() == 0 {
    } else if a[0] < b[0] {
    } else if a[0] > b[0] {
    } else {
        lemma_lex_asym(a.drop_first(), b.drop_first());
    }
}

/// The order is transitive.
pub proof fn lemma_lex_trans(a: Seq<u8>, b: Seq<u8>, c: Seq<u8>)
    requires
        lex_lt(a, b),
        lex_lt(b, c),
    ensures
        lex_lt(a, c),
    decreases a.len(),
{
    if a.len() == 0 {
    } else if b.len() == 0 {
    } else if c.len() == 0 {
    } else if a[0] == b[0] && b[0] == c[0] {
        lemma_lex_trans(a.drop_first(), b.drop_first(), c.drop_first());
    }
}

/// Every earlier element is strictly below every later one; in particular no
/// element occurs twice.
pub open spec fn strictly_sorted(s: Seq<Seq<u8>>) -> bool {
    forall|i: int, j: int| #![trigger s[i], s[j]] 0 <= i < j < s.len() ==> lex_lt(s[i], s[j])
}

/// Two strictly sorted sequences with the same elements are equal.
pub proof fn lemma_sorted_unique(a: Seq<Seq<u8>>, b: Seq<Seq<u8>>)
    requires
        strictly_sorted(a),
        strictly_sorted(b),
        forall|y: Seq<u8>| #![auto] a.contains(y) <==> b.contains(y),
    ensures
        a == b,
    decreases a.len() + b.len(),
{
    if a.len() == 0 {
        if b.len() > 0 {
            assert(b.contains(b[0]));
        }
        assert(a =~= b);
    } else if b.len() == 0 {
        assert(a.contains(a[0]));
        assert(a =~= b);
    } else {
        // The heads are equal: each is the least element of the same element set.
        assert(a.contains(a[0]));
        assert(b.contains(b[0]));
        let ia = choose|k: int| 0 <= k < b.len() && b[k] == a[0];
        let ib = choose|k: int| 0 <= k < a.len() && a[k] == b[0];
        if a[0] != b[0] {
            assert(ia > 0 && ib > 0);
            assert(lex_lt(b[0], b[ia]));
            assert(lex_lt(a[0], a[ib]));
            lemma_lex_asym(b[0], a[0]);
            assert(false);
        }
        let ta = a.drop_first();
        let tb = b.drop_first();
        assert forall|y: Seq<u8>| #![auto] ta.contains(y) implies tb.contains(y) by {
            let k = choose|k: int| 0 <= k < ta.len() && ta[k] == y;
            assert(a[k + 1] == y);
            assert(a.contains(y));
            let m = choose|m: int| 0 <= m < b.len() && b[m] == y;
            if m == 0 {
                assert(lex_lt(a[0], a[k + 1]));
                lemma_lex_irrefl(a[0]);
            } else {
                assert(tb[m - 1] == y);
            }
        }
        assert forall|y: Seq<u8>| #![auto] tb.contains(y) implies ta.contains(y) by {
            let k = choose|k: int| 0 <= k < tb.len() && tb[k] == y;
            assert(b[k + 1] == y);
            assert(b.contains(y));
            let m = choose|m: int| 0 <= m < a.len() && a[m] == y;
            if m == 0 {
                assert(lex_lt(b[0], b[k + 1]));
                lemma_lex_irrefl(b[0]);
            } else {
                assert(ta[m - 1] == y);
            }
        }
        assert(strictly_sorted(ta)) by {
            assert forall|i: int, j: int| #![trigger ta[i], ta[j]] 0 <= i < j < ta.len() implies
                lex_lt(ta[i], ta[j]) by {
                assert(ta[i] == a[i + 1]);
                assert(ta[j] == a[j + 1]);
                assert(lex_lt(a[i + 1], a[j + 1]));
            }
        }
        assert(strictly_sorted(tb)) by {
            assert forall|i: int, j: int| #![trigger tb[i], tb[j]] 0 <= i < j < tb.len() implies
                lex_lt(tb[i], tb[j]) by {
                assert(tb[i] == b[i + 1]);
                assert(tb[j] == b[j + 1]);
                assert(lex_lt(b[i + 1], b[j + 1]));
            }
        }
        lemma_sorted_unique(ta, tb);
        assert forall|i: int| 0 <= i < a.len() implies a[i] == b[i] by {
            if i > 0 {
                assert(a[i] == ta[i - 1]);
                assert(b[i] == tb[i - 1]);
            }
        }
        assert(a =~= b);
    }
}

/// `x` placed at its position in an already strictly sorted sequence;
/// a sequence that already holds `x` is returned unchanged.
pub open spec fn insert_sorted(x: Seq<u8>, s: Seq<Seq<u8>>) -> Seq<Seq<u8>>
    decreases s.len(),
{
    if s.len() == 0 {
        seq![x]
    } else if lex_lt(x, s[0]) {
        seq![x] + s
    } else if x == s[0] {
        s
    } else {
        seq![s[0]] + insert_sorted(x, s.drop_first())
    }
}

/// Inserting into a strictly sorted sequence keeps it strictly sorted, and
/// the elements afterwards are exactly the old ones plus `x`.
pub proof fn lemma_insert_sorted_props(x: Seq<u8>, s: Seq<Seq<u8>>)
    requires
        strictly_sorted(s),
    ensures
        strictly_sorted(insert_sorted(x, s)),
        forall|y: Seq<u8>| #![trigger insert_sorted(x, s).contains(y)]
            insert_sorted(x, s).contains(y) <==> (y == x || s.contains(y)),
        insert_sorted(x, s).len() >= 1,
    decreases s.len(),
{
    let r = insert_sorted(x, s);
    if s.len() == 0 {
        assert(r =~= seq![x]);
        assert(r[0] == x);
        assert forall|y: Seq<u8>| #![auto] r.contains(y) <==> (y == x || s.contains(y)) by {
            if y == x {
                assert(r[0] == y);
            }
            if r.contains(y) {
                let k = choose|k: int| 0 <= k < r.len() && r[k] == y;
                assert(k == 0);
            }
        }
    } else if lex_lt(x, s[0]) {
        assert(r =~= seq![x] + s);
        assert(strictly_sorted(r)) by {
            assert forall|i: int, j: int| #![trigger r[i], r[j]] 0 <= i < j < r.len() implies
                lex_lt(r[i], r[j]) by {
                if i == 0 {
                    assert(r[j] == s[j - 1]);
                    if j > 1 {
                        assert(lex_lt(s[0], s[j - 1]));
                        lemma_lex_trans(x, s[0], s[j - 1]);
                    }
                } else {
                    assert(r[i] == s[i - 1]);
                    assert(r[j] == s[j - 1]);
                    assert(lex_lt(s[i - 1], s[j - 1]));
                }
            }
        }
        assert forall|y: Seq<u8>| #![auto] r.contains(y) <==> (y == x || s.contains(y)) by {
            if y == x {
                assert(r[0] == y);
            }
            if s.contains(y) {
                let k = choose|k: int| 0 <= k < s.len() && s[k] == y;
                assert(r[k + 1] == y);
            }
            if r.contains(y) {
                let k = choose|k: int| 0 <= k < r.len() && r[k] == y;
                if k > 0 {
                    assert(s[k - 1] == y);
                }
            }
        }
    } else if x == s[0] {
        assert(r == s);
        assert(s[0] == x);
    } else {
        lemma_lex_connex(x, s[0]);
        assert(lex_lt(s[0], x));
        let t = s.drop_first();
        assert(strictly_sorted(t)) by {
            assert forall|i: int, j: int| #![trigger t[i], t[j]] 0 <= i < j < t.len() implies
                lex_lt(t[i], t[j]) by {
                assert(t[i] == s[i + 1]);
                assert(t[j] == s[j + 1]);
                assert(lex_lt(s[i + 1], s[j + 1]));
            }
        }
        lemma_insert_sorted_props(x, t);
        let rt = insert_sorted(x, t);
        assert(r =~= seq![s[0]] + rt);
        assert(lex_lt(s[0], rt[0])) by {
            assert(rt.contains(rt[0]));
            if rt[0] == x {
            } else {
                assert(t.contains(rt[0]));
                let k = choose|k: int| 0 <= k < t.len() && t[k] == rt[0];
                assert(s[k + 1] == rt[0]);
                assert(lex_lt(s[0], s[k + 1]));
            }
        }
        assert(strictly_sorted(r)) by {
            assert forall|i: int, j: int| #![trigger r[i], r[j]] 0 <= i < j < r.len() implies
                lex_lt(r[i], r[j]) by {
                if i == 0 {
                    assert(r[j] == rt[j - 1]);
                    if j > 1 {
                        assert(lex_lt(rt[0], rt[j - 1]));
                        lemma_lex_trans(s[0], rt[0], rt[j - 1]);
                    }
                } else {
                    assert(r[i] == rt[i - 1]);
                    assert(r[j] == rt[j - 1]);
                    assert(lex_lt(rt[i - 1], rt[j - 1]));
                }
            }
        }
        assert forall|y: Seq<u8>| #![auto] r.contains(y) <==> (y == x || s.contains(y)) by {
            assert(insert_sorted(x, t).contains(y) <==> (y == x || t.contains(y)));
            if r.contains(y) {
                let k = choose|k: int| 0 <= k < r.len() && r[k] == y;
                if k == 0 {
                    assert(s[0] == y);
                } else {
                    assert(rt[k - 1] == y);
                    assert(rt.contains(y));
                    if t.contains(y) {
                        let m = choose|m: int| 0 <= m < t.len() && t[m] == y;
                        assert(s[m + 1] == y);
                    }
                }
            }
            if y == x || s.contains(y) {
                if y == x {
                    assert(rt.contains(y));
                } else {
                    let k = choose|k: int| 0 <= k < s.len() && s[k] == y;
                    if k == 0 {
                        assert(r[0] == y);
                    } else {
                        assert(t[k - 1] == y);
                        assert(t.contains(y));
                        assert(rt.contains(y));
                    }
                }
                if rt.contains(y) {
                    let m = choose|m: int| 0 <= m < rt.len() && rt[m] == y;
                    assert(r[m + 1] == y);
                }
            }
        }
    }
}

/// The elements of `v`, in strictly increasing lexicographic order, each
/// exactly once.
pub open spec fn sorted_dedup(v: Seq<Seq<u8>>) -> Seq<Seq<u8>>
    decreases v.len(),
{
    if v.len() == 0 {
        Seq::empty()
    } else {
        insert_sorted(v.last(), sorted_dedup(v.drop_last()))
    }
}

/// The sorted deduplication is strictly sorted and holds exactly the
/// elements of its input.
pub proof fn lemma_sorted_dedup_props(v: Seq<Seq<u8>>)
    ensures
        strictly_sorted(sorted_dedup(v)),
        forall|y: Seq<u8>| #![trigger sorted_dedup(v).contains(y)]
            sorted_dedup(v).contains(y) <==> v.contains(y),
    decreases v.len(),
{
    let r = sorted_dedup(v);
    if v.len() == 0 {
    } else {
        let w = v.drop_last();
        lemma_sorted_dedup_props(w);
        lemma_insert_sorted_props(v.last(), sorted_dedup(w));
        assert forall|y: Seq<u8>| #![auto] r.contains(y) <==> v.contains(y) by {
            assert(insert_sorted(v.last(), sorted_dedup(w)).contains(y) <==> (y == v.last()
                || sorted_dedup(w).contains(y)));
            assert(r == insert_sorted(v.last(), sorted_dedup(w)));
            assert(sorted_dedup(w).contains(y) <==> w.contains(y));
            if r.contains(y) {
                if y == v.last() {
                    assert(v[v.len() - 1] == y);
                } else {
                    assert(w.contains(y));
                    let k = choose|k: int| 0 <= k < w.len() && w[k] == y;
                    assert(v[k] == y);
                }
            }
            if v.contains(y) {
                let k = choose|k: int| 0 <= k < v.len() && v[k] == y;
                if k == v.len() - 1 {
                    assert(y == v.last());
                } else {
                    assert(w[k] == y);
                    assert(w.contains(y));
                }
            }
        }
    }
}

/// Sorted deduplication depends only on which elements occur, not on their
/// order or multiplicity.
pub proof fn lemma_sorted_dedup_same_elements(a: Seq<Seq<u8>>, b: Seq<Seq<u8>>)
    requires
        forall|y: Seq<u8>| #![auto] a.contains(y) <==> b.contains(y),
    ensures
        sorted_dedup(a) == sorted_dedup(b),
{
    lemma_sorted_dedup_props(a);
    lemma_sorted_dedup_props(b);
    assert forall|y: Seq<u8>| #![auto] sorted_dedup(a).contains(y) <==> sorted_dedup(
        b,
    ).contains(y) by {
        assert(sorted_dedup(a).contains(y) <==> a.contains(y));
        assert(sorted_dedup(b).contains(y) <==> b.contains(y));
        assert(a.contains(y) <==> b.contains(y));
    }
    lemma_sorted_unique(sorted_dedup(a), sorted_dedup(b));
}

/// The views of the byte vectors of `s`, as a sequence of byte sequences.
pub open spec fn views(s: Seq<Vec<u8>>) -> Seq<Seq<u8>> {
    Seq::new(s.len(), |i: int| s[i]@)
}

/// Decides `lex_lt(a@, b@)`.
pub fn lex_less(a: &Vec<u8>, b: &Vec<u8>) -> (r: bool)
    ensures
        r == lex_lt(a@, b@),
{
    let an = a.len();
    let bn = b.len();
    proof {
        assert(a@.skip(0) =~= a@);
        assert(b@.skip(0) =~= b@);
    }
    let mut i: usize = 0;
    while i < an && i < bn
        invariant
            i <= an,
            i <= bn,
            an == a@.len(),
            bn == b@.len(),
            lex_lt(a@, b@) == lex_lt(a@.skip(i as int), b@.skip(i as int)),
        decreases an - i,
    {
        let x = a[i];
        let y = b[i];
        proof {
            assert(a@.skip(i as int)[0] == a@[i as int]);
            assert(b@.skip(i as int)[0] == b@[i as int]);
        }
        if x < y {
            return true;
        }
        if x > y {
            return false;
        }
        proof {
            assert(a@.skip(i as int).drop_first() =~= a@.skip(i + 1));
            assert(b@.skip(i as int).drop_first() =~= b@.skip(i + 1));
        }
        i = i + 1;
    }
    proof {
        if i == bn {
            assert(b@.skip(i as int).len() == 0);
        } else {
            assert(a@.skip(i as int).len() == 0);
            assert(b@.skip(i as int).len() > 0);
        }
    }
    i == an && i < bn
}

/// Decides `a@ == b@`.
pub fn bytes_eq(a: &Vec<u8>, b: &Vec<u8>) -> (r: bool)
    ensures
        r == (a@ == b@),
{
    let an = a.len();
    if an != b.len() {
        return false;
    }
    let mut i: usize = 0;
    while i < an
        invariant
            i <= an,
            an == a@.len(),
            an == b@.len(),
            forall|k: int| 0 <= k < i ==> a@[k] == b@[k],
        decreases an - i,
    {
        if a[i] != b[i] {
            return false;
        }
        i = i + 1;
    }
    proof {
        assert(a@ =~= b@);
    }
    true
}

/// The least position whose element is not below `x`; `acc.len()` if all are.
fn lower_bound(acc: &Vec<Vec<u8>>, x: &Vec<u8>) -> (p: usize)
    ensures
        p <= acc@.len(),
        forall|i: int| 0 <= i < p ==> lex_lt(views(acc@)[i], x@),
        p < acc@.len() ==> !lex_lt(views(acc@)[p as int], x@),
{
    let n = acc.len();
    let mut p: usize = 0;
    while p < n
        invariant
            p <= n,
            n == acc@.len(),
            forall|i: int| 0 <= i < p ==> lex_lt(views(acc@)[i], x@),
        decreases n - p,
    {
        if !lex_less(&acc[p], x) {
            return p;
        }
        p = p + 1;
    }
    p
}

/// Where `insert_sorted` places `x` relative to a position `p` that splits
/// `s` into elements below `x` and elements not below it.
proof fn lemma_insert_sorted_at(x: Seq<u8>, s: Seq<Seq<u8>>, p: int)
    requires
        strictly_sorted(s),
        0 <= p <= s.len(),
        forall|i: int| 0 <= i < p ==> lex_lt(s[i], x),
        p < s.len() ==> !lex_lt(s[p], x),
    ensures
        insert_sorted(x, s) == if p < s.len() && s[p] == x {
            s
        } else {
            s.insert(p, x)
        },
    decreases p,
{
    if p == 0 {
        if s.len() == 0 {
            assert(insert_sorted(x, s) =~= s.insert(0, x));
        } else {
            lemma_lex_connex(x, s[0]);
            if lex_lt(x, s[0]) {
                assert(seq![x] + s =~= s.insert(0, x));
            } else {
                assert(x == s[0]);
            }
        }
    } else {
        assert(lex_lt(s[0], x));
        lemma_lex_asym(s[0], x);
        lemma_lex_irrefl(x);
        assert(x != s[0]);
        let t = s.drop_first();
        assert(strictly_sorted(t)) by {
            assert forall|i: int, j: int| #![trigger t[i], t[j]] 0 <= i < j < t.len() implies
                lex_lt(t[i], t[j]) by {
                assert(t[i] == s[i + 1]);
                assert(t[j] == s[j + 1]);
                assert(lex_lt(s[i + 1], s[j + 1]));
            }
        }
        assert forall|i: int| 0 <= i < p - 1 implies lex_lt(t[i], x) by {
            assert(lex_lt(s[i + 1], x));
        }
        assert(p - 1 < t.len() ==> !lex_lt(t[p - 1], x));
        lemma_insert_sorted_at(x, t, p - 1);
        if p < s.len() && s[p] == x {
            assert(t[p - 1] == x);
            assert(seq![s[0]] + t =~= s);
        } else {
            assert(seq![s[0]] + t.insert(p - 1, x) =~= s.insert(p, x));
        }
    }
}

/// Places `x` into the strictly sorted `acc`, dropping it if already there.
pub fn insert_unique(acc: &mut Vec<Vec<u8>>, x: Vec<u8>)
    requires
        strictly_sorted(views(old(acc)@)),
    ensures
        views(final(acc)@) == insert_sorted(x@, views(old(acc)@)),
{
    let p = lower_bound(acc, &x);
    let ghost s = views(acc@);
    if p < acc.len() && bytes_eq(&acc[p], &x) {
        proof {
            lemma_insert_sorted_at(x@, s, p as int);
        }
    } else {
        proof {
            lemma_insert_sorted_at(x@, s, p as int);
        }
        acc.insert(p, x);
        proof {
            assert(views(acc@) =~= s.insert(p as int, x@));
        }
    }
}

/// Sorts the byte strings of `v` into strictly increasing lexicographic
/// order, dropping duplicates.
pub fn sort_dedup_vec(v: Vec<Vec<u8>>) -> (r: Vec<Vec<u8>>)
    ensures
        views(r@) == sorted_dedup(views(v@)),
{
    let mut r: Vec<Vec<u8>> = Vec::new();
    let n = v.len();
    let ghost all = views(v@);
    let mut i: usize = 0;
    proof {
        assert(views(r@) =~= sorted_dedup(views(v@).take(0)));
    }
    while i < n
        invariant
            i <= n,
            n == v@.len(),
            all == views(v@),
            views(r@) == sorted_dedup(all.take(i as int)),
            strictly_sorted(views(r@)),
        decreases n - i,
    {
        let ghost prefix = all.take(i as int);
        let x = v[i].clone();
        proof {
            assert(x@ =~= v@[i as int]@);
            assert(x@ == all[i as int]);
            assert(all.take(i + 1).drop_last() =~= prefix);
            assert(all.take(i + 1).last() == all[i as int]);
        }
        insert_unique(&mut r, x);
        proof {
            lemma_insert_sorted_props(all[i as int], sorted_dedup(prefix));
        }
        i = i + 1;
    }
    proof {
        assert(all.take(n as int) =~= all);
    }
    r
}

} // verus!
