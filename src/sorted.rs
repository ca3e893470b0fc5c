//! Strictly increasing sequences of `u32`: the canonical storage of a bitmap.
use vstd::prelude::*;

verus! {

broadcast use vstd::seq_lib::group_seq_properties, vstd::seq_lib::group_filter_ensures;

/// Every element is smaller than the next: sorted, without duplicates.
pub open spec fn strictly_sorted(s: Seq<u32>) -> bool {
    forall|i: int, j: int| 0 <= i < j < s.len() ==> s[i] < s[j]
}

/// Converting a filtered sequence to a set filters the set.
pub proof fn lemma_filter_to_set(s: Seq<u32>, p: spec_fn(u32) -> bool)
    ensures
        s.filter(p).to_set() =~= s.to_set().filter(p),
{
    assert forall|x: u32| s.to_set().filter(p).contains(x) implies s.filter(p).contains(x) by {
        s.lemma_filter_contains_rev(p, x);
    }
    assert forall|x: u32| s.filter(p).contains(x) implies s.to_set().filter(p).contains(x) by {
        let k = choose|k: int| 0 <= k < s.filter(p).len() && s.filter(p)[k] == x;
        s.lemma_filter_pred(p, k);
        lemma_filter_within(s, p, k);
    }
}

/// Each element of a filtered sequence occurs in the original one.
proof fn lemma_filter_within(s: Seq<u32>, p: spec_fn(u32) -> bool, k: int)
    requires
        0 <= k < s.filter(p).len(),
    ensures
        s.contains(s.filter(p)[k]),
    decreases s.len(),
{
    reveal(Seq::filter);
    let t = s.drop_last();
    if k < t.filter(p).len() {
        lemma_filter_within(t, p, k);
        let m = choose|m: int| 0 <= m < t.len() && t[m] == t.filter(p)[k];
        assert(s[m] == t[m]);
    } else {
        assert(s[s.len() - 1] == s.filter(p)[k]);
    }
}

/// The set of a concatenation is the union of the sets.
pub proof fn lemma_concat_to_set(a: Seq<u32>, b: Seq<u32>)
    ensures
        (a + b).to_set() =~= a.to_set().union(b.to_set()),
{
    assert forall|x: u32| (a + b).contains(x) implies a.contains(x) || b.contains(x) by {
        let k = choose|k: int| 0 <= k < (a + b).len() && (a + b)[k] == x;
        if k >= a.len() {
            assert(b[k - a.len()] == x);
        }
    }
    assert forall|x: u32| a.contains(x) || b.contains(x) implies (a + b).contains(x) by {
        if a.contains(x) {
            let k = choose|k: int| 0 <= k < a.len() && a[k] == x;
            assert((a + b)[k] == x);
        } else {
            let k = choose|k: int| 0 <= k < b.len() && b[k] == x;
            assert((a + b)[k + a.len()] == x);
        }
    }
}

/// A strictly increasing sequence has as many elements as its set.
pub proof fn lemma_sorted_len(s: Seq<u32>)
    requires
        strictly_sorted(s),
    ensures
        s.to_set().len() == s.len(),
{
    assert forall|i: int, j: int| 0 <= i < s.len() && 0 <= j < s.len() && i != j implies s[i]
        != s[j] by {
        if i < j {
        } else {
        }
    }
    s.unique_seq_to_set();
}

/// Two strictly increasing sequences with the same elements are equal: the sorted form of a
/// set is unique.
pub proof fn lemma_sorted_unique(a: Seq<u32>, b: Seq<u32>)
    requires
        strictly_sorted(a),
        strictly_sorted(b),
        a.to_set() == b.to_set(),
    ensures
        a == b,
    decreases a.len(),
{
    if a.len() == 0 {
        if b.len() > 0 {
            assert(b.to_set().contains(b[0]));
        }
    } else if b.len() == 0 {
        assert(a.to_set().contains(a[0]));
    } else {
        // the smallest elements agree
        assert(b.to_set().contains(a[0]));
        assert(a.to_set().contains(b[0]));
        let ka = choose|k: int| 0 <= k < a.len() && a[k] == b[0];
        let kb = choose|k: int| 0 <= k < b.len() && b[k] == a[0];
        assert(a[0] == b[0]) by {
            if a[0] < b[0] {
                assert(b[kb] >= b[0]);
            } else if a[0] > b[0] {
                assert(a[ka] >= a[0]);
            }
        }
        let ta = a.drop_first();
        let tb = b.drop_first();
        assert forall|x: u32| ta.to_set().contains(x) implies tb.to_set().contains(x) by {
            let k = choose|k: int| 0 <= k < ta.len() && ta[k] == x;
            assert(a[k + 1] == x);
            assert(b.to_set().contains(x));
            let m = choose|m: int| 0 <= m < b.len() && b[m] == x;
            assert(m != 0);
            assert(tb[m - 1] == x);
        }
        assert forall|x: u32| tb.to_set().contains(x) implies ta.to_set().contains(x) by {
            let k = choose|k: int| 0 <= k < tb.len() && tb[k] == x;
            assert(b[k + 1] == x);
            assert(a.to_set().contains(x));
            let m = choose|m: int| 0 <= m < a.len() && a[m] == x;
            assert(m != 0);
            assert(ta[m - 1] == x);
        }
        assert(ta.to_set() =~= tb.to_set());
        lemma_sorted_unique(ta, tb);
        assert(a =~= seq![a[0]] + ta);
        assert(b =~= seq![b[0]] + tb);
    }
}

/// The first position whose element is not below `x`.
pub fn lower_bound(s: &[u32], x: u32) -> (r: usize)
    requires
        strictly_sorted(s@),
    ensures
        r <= s@.len(),
        forall|i: int| 0 <= i < r ==> s@[i] < x,
        forall|i: int| r <= i < s@.len() ==> s@[i] >= x,
{
    let mut lo: usize = 0;
    let mut hi: usize = s.len();
    while lo < hi
        invariant
            0 <= lo <= hi <= s@.len(),
            strictly_sorted(s@),
            forall|i: int| 0 <= i < lo ==> s@[i] < x,
            forall|i: int| hi <= i < s@.len() ==> s@[i] >= x,
        decreases hi - lo,
    {
        let mid: usize = lo + (hi - lo) / 2;
        if s[mid] < x {
            lo = mid + 1;
        } else {
            hi = mid;
        }
    }
    lo
}

/// Membership in a strictly increasing slice, by binary search.
pub fn sorted_contains(s: &[u32], x: u32) -> (r: bool)
    requires
        strictly_sorted(s@),
    ensures
        r == s@.contains(x),
{
    let k = lower_bound(s, x);
    if k < s.len() && s[k] == x {
        true
    } else {
        assert(!s@.contains(x)) by {
            if s@.contains(x) {
                let m = choose|m: int| 0 <= m < s@.len() && s@[m] == x;
                if m < k {
                } else if m > k as int {
                    assert(s@[k as int] < s@[m]);
                }
            }
        }
        false
    }
}

/// Inserts `x` at its place in a strictly increasing vector, unless it is there already.
pub fn sorted_insert(v: &mut Vec<u32>, x: u32)
    requires
        strictly_sorted(old(v)@),
    ensures
        strictly_sorted(final(v)@),
        final(v)@.to_set() == old(v)@.to_set().insert(x),
        old(v)@.contains(x) ==> final(v)@ == old(v)@,
{
    let k = lower_bound(v.as_slice(), x);
    if k < v.len() && v[k] == x {
        assert(v@.to_set() =~= v@.to_set().insert(x));
    } else {
        let ghost before = v@;
        v.insert(k, x);
        assert(v@ =~= before.subrange(0, k as int) + seq![x] + before.subrange(k as int, before.len() as int));
        assert(strictly_sorted(v@)) by {
            assert forall|i: int, j: int| 0 <= i < j < v@.len() implies v@[i] < v@[j] by {
                if j < k {
                } else if j == k {
                } else if i < k {
                    assert(v@[j] == before[j - 1]);
                } else if i == k {
                    assert(v@[j] == before[j - 1]);
                    assert(before[k as int] >= x);
                    assert(before[k as int] != x);
                } else {
                    assert(v@[j] == before[j - 1]);
                    assert(v@[i] == before[i - 1]);
                }
            }
        }
        assert forall|y: u32| v@.contains(y) <==> before.to_set().insert(x).contains(y) by {
            if v@.contains(y) {
                let m = choose|m: int| 0 <= m < v@.len() && v@[m] == y;
                if m < k {
                    assert(before[m] == y);
                } else if m > k {
                    assert(before[m - 1] == y);
                }
            }
            if before.contains(y) {
                let m = choose|m: int| 0 <= m < before.len() && before[m] == y;
                if m < k {
                    assert(v@[m] == y);
                } else {
                    assert(v@[m + 1] == y);
                }
            }
            if y == x {
                assert(v@[k as int] == x);
            }
        }
        assert(v@.to_set() =~= before.to_set().insert(x));
    }
}

/// The sorted form of any sequence: strictly increasing, with the same elements.
pub fn normalize(s: &[u32]) -> (r: Vec<u32>)
    ensures
        strictly_sorted(r@),
        r@.to_set() == s@.to_set(),
        strictly_sorted(s@) ==> r@ == s@,
{
    let mut r: Vec<u32> = Vec::new();
    let mut i: usize = 0;
    while i < s.len()
        invariant
            i <= s@.len(),
            strictly_sorted(r@),
            r@.to_set() == s@.subrange(0, i as int).to_set(),
        decreases s@.len() - i,
    {
        sorted_insert(&mut r, s[i]);
        assert(s@.subrange(0, i + 1) =~= s@.subrange(0, i as int).push(s@[i as int]));
        i = i + 1;
    }
    assert(s@.subrange(0, s@.len() as int) =~= s@);
    proof {
        if strictly_sorted(s@) {
            lemma_sorted_unique(r@, s@);
        }
    }
    r
}

} // verus!
