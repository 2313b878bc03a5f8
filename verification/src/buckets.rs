use vstd::prelude::*;
use vstd::seq_lib::group_to_multiset_ensures;

verus! {

/// Number of positions `j` in `[lo, hi)` whose key equals `v`.
pub open spec fn cnt_range(key: spec_fn(int) -> int, v: int, lo: int, hi: int) -> int
    decreases hi - lo,
{
    if hi <= lo {
        0
    } else {
        cnt_range(key, v, lo, hi - 1) + if key(hi - 1) == v {
            1int
        } else {
            0int
        }
    }
}

pub proof fn lemma_cnt_bounds(key: spec_fn(int) -> int, v: int, lo: int, hi: int)
    ensures
        0 <= cnt_range(key, v, lo, hi),
        hi >= lo ==> cnt_range(key, v, lo, hi) <= hi - lo,
    decreases hi - lo,
{
    if hi > lo {
        lemma_cnt_bounds(key, v, lo, hi - 1);
    }
}

pub proof fn lemma_cnt_split(key: spec_fn(int) -> int, v: int, lo: int, mid: int, hi: int)
    requires
        lo <= mid <= hi,
    ensures
        cnt_range(key, v, lo, hi) == cnt_range(key, v, lo, mid) + cnt_range(key, v, mid, hi),
    decreases hi - mid,
{
    if mid < hi {
        lemma_cnt_split(key, v, lo, mid, hi - 1);
    }
}

/// Start of bucket `v`: how many positions in `[0, n)` have a key below `v`.
pub open spec fn bstart(key: spec_fn(int) -> int, n: int, v: int) -> int
    decreases v,
{
    if v <= 0 {
        0
    } else {
        bstart(key, n, v - 1) + cnt_range(key, v - 1, 0, n)
    }
}

pub proof fn lemma_bstart_mono(key: spec_fn(int) -> int, n: int, v1: int, v2: int)
    requires
        v1 <= v2,
    ensures
        bstart(key, n, v1) <= bstart(key, n, v2),
    decreases v2 - v1,
{
    if v1 < v2 {
        lemma_bstart_mono(key, n, v1, v2 - 1);
        lemma_cnt_bounds(key, v2 - 1, 0, n);
    }
}

/// Shrinking the corpus range by one position lowers every bucket start past
/// that position's key by exactly one.
proof fn lemma_bstart_corpus_step(key: spec_fn(int) -> int, n: int, vmax: int)
    requires
        n >= 1,
    ensures
        bstart(key, n, vmax) == bstart(key, n - 1, vmax) + if 0 <= key(n - 1) < vmax {
            1int
        } else {
            0int
        },
    decreases vmax,
{
    if vmax > 0 {
        lemma_bstart_corpus_step(key, n, vmax - 1);
    }
}

pub proof fn lemma_bstart_empty(key: spec_fn(int) -> int, n: int, v: int)
    requires
        n <= 0,
    ensures
        bstart(key, n, v) == 0,
    decreases v,
{
    if v > 0 {
        lemma_bstart_empty(key, n, v - 1);
    }
}

/// Every position lands in some bucket, so the bucket starts exhaust `[0, n)`.
pub proof fn lemma_bstart_total(key: spec_fn(int) -> int, n: int, nb: int)
    requires
        n >= 0,
        forall|j: int| 0 <= j < n ==> 0 <= #[trigger] key(j) < nb,
    ensures
        bstart(key, n, nb) == n,
    decreases n,
{
    if n > 0 {
        lemma_bstart_total(key, (n - 1) as int, nb);
        lemma_bstart_corpus_step(key, n, nb);
        assert(bstart(key, n - 1, nb) == n - 1);
    } else {
        lemma_bstart_empty(key, n, nb);
    }
}

/// The slot the scatter phase assigns to position `j`: its bucket start plus
/// its rank among earlier positions with the same key.
pub open spec fn slot(key: spec_fn(int) -> int, n: int, j: int) -> int {
    bstart(key, n, key(j)) + cnt_range(key, key(j), 0, j)
}

pub proof fn lemma_slot_in_bucket(key: spec_fn(int) -> int, n: int, j: int)
    requires
        0 <= j < n,
        0 <= key(j),
    ensures
        bstart(key, n, key(j)) <= slot(key, n, j),
        slot(key, n, j) < bstart(key, n, key(j) + 1),
{
    let v = key(j);
    lemma_cnt_bounds(key, v, 0, j);
    lemma_cnt_split(key, v, 0, j, n);
    lemma_cnt_split(key, v, j, j + 1, n);
    assert(cnt_range(key, v, j, j) == 0);
    assert(cnt_range(key, v, j, j + 1) == 1);
    lemma_cnt_bounds(key, v, j + 1, n);
    assert(cnt_range(key, v, 0, j) < cnt_range(key, v, 0, n));
    assert(bstart(key, n, v + 1) == bstart(key, n, v) + cnt_range(key, v, 0, n));
}

pub proof fn lemma_slot_inj(key: spec_fn(int) -> int, n: int, j1: int, j2: int)
    requires
        0 <= j1 < j2 < n,
        0 <= key(j1),
        0 <= key(j2),
    ensures
        slot(key, n, j1) != slot(key, n, j2),
{
    let v1 = key(j1);
    let v2 = key(j2);
    if v1 == v2 {
        lemma_cnt_split(key, v1, 0, j1, j2);
        lemma_cnt_split(key, v1, j1, j1 + 1, j2);
        assert(cnt_range(key, v1, j1, j1) == 0);
        assert(cnt_range(key, v1, j1, j1 + 1) == 1);
        lemma_cnt_bounds(key, v1, j1 + 1, j2);
        assert(cnt_range(key, v1, 0, j1) < cnt_range(key, v1, 0, j2));
    } else if v1 < v2 {
        lemma_slot_in_bucket(key, n, j1);
        lemma_slot_in_bucket(key, n, j2);
        lemma_bstart_mono(key, n, v1 + 1, v2);
    } else {
        lemma_slot_in_bucket(key, n, j1);
        lemma_slot_in_bucket(key, n, j2);
        lemma_bstart_mono(key, n, v2 + 1, v1);
    }
}

/// For `p` below a bucket-start bound there is a bucket whose half-open start
/// interval contains `p`.
proof fn lemma_find_bucket(key: spec_fn(int) -> int, n: int, p: int, vhi: int) -> (v: int)
    requires
        0 <= p < bstart(key, n, vhi),
    ensures
        0 <= v < vhi,
        bstart(key, n, v) <= p < bstart(key, n, v + 1),
    decreases vhi,
{
    if p >= bstart(key, n, vhi - 1) {
        vhi - 1
    } else {
        lemma_find_bucket(key, n, p, vhi - 1)
    }
}

/// Every rank below a bucket's total count is taken by some position.
proof fn lemma_find_rank(key: spec_fn(int) -> int, v: int, c: int, hi: int) -> (j: int)
    requires
        0 <= c < cnt_range(key, v, 0, hi),
        hi >= 0,
    ensures
        0 <= j < hi,
        key(j) == v,
        cnt_range(key, v, 0, j) == c,
    decreases hi,
{
    lemma_cnt_bounds(key, v, 0, hi);
    if c < cnt_range(key, v, 0, hi - 1) {
        lemma_find_rank(key, v, c, hi - 1)
    } else {
        lemma_cnt_bounds(key, v, 0, (hi - 1) as int);
        hi - 1
    }
}

/// The identity permutation of `[0, n)`.
pub open spec fn ident_seq(n: nat) -> Seq<usize> {
    Seq::new(n, |i: int| i as usize)
}

/// What the scatter phase achieves: an array holding every position at its
/// slot is a permutation of `[0, n)`, and each entry lies in its own bucket.
pub proof fn lemma_scatter_perm(key: spec_fn(int) -> int, n: int, arr: Seq<usize>, nb: int)
    requires
        arr.len() == n,
        0 <= n,
        n <= usize::MAX,
        forall|j: int| 0 <= j < n ==> 0 <= #[trigger] key(j) < nb,
        forall|j: int|
            0 <= j < n ==> 0 <= #[trigger] slot(key, n, j) < n && arr[slot(key, n, j)] == j,
        forall|p: int| 0 <= p < n ==> #[trigger] arr[p] < n,
    ensures
        arr.to_multiset() == ident_seq(n as nat).to_multiset(),
        forall|p: int|
            0 <= p < n ==> bstart(key, n, key(#[trigger] arr[p] as int)) <= p < bstart(
                key,
                n,
                key(arr[p] as int) + 1,
            ),
{
    broadcast use group_to_multiset_ensures;

    lemma_bstart_total(key, n, nb);
    assert forall|p: int|
        0 <= p < n implies bstart(key, n, key(#[trigger] arr[p] as int)) <= p < bstart(
        key,
        n,
        key(arr[p] as int) + 1,
    ) by {
        let v = lemma_find_bucket(key, n, p, nb);
        let c = p - bstart(key, n, v);
        assert(bstart(key, n, v + 1) == bstart(key, n, v) + cnt_range(key, v, 0, n));
        let j = lemma_find_rank(key, v, c, n);
        assert(slot(key, n, j) == p);
        assert(arr[p] == j);
    }
    // Every value of [0, n) occurs, and entries are pairwise distinct.
    assert forall|x: usize| x < n implies arr.contains(x) by {
        assert(arr[slot(key, n, x as int)] == x);
    }
    assert(arr.no_duplicates()) by {
        assert forall|p1: int, p2: int|
            0 <= p1 < n && 0 <= p2 < n && p1 != p2 implies arr[p1] != arr[p2] by {
            let v1 = lemma_find_bucket(key, n, p1, nb);
            let c1 = p1 - bstart(key, n, v1);
            assert(bstart(key, n, v1 + 1) == bstart(key, n, v1) + cnt_range(key, v1, 0, n));
            let j1 = lemma_find_rank(key, v1, c1, n);
            assert(slot(key, n, j1) == p1);
            let v2 = lemma_find_bucket(key, n, p2, nb);
            let c2 = p2 - bstart(key, n, v2);
            assert(bstart(key, n, v2 + 1) == bstart(key, n, v2) + cnt_range(key, v2, 0, n));
            let j2 = lemma_find_rank(key, v2, c2, n);
            assert(slot(key, n, j2) == p2);
        }
    }
    let ident = ident_seq(n as nat);
    assert(ident.no_duplicates());
    assert forall|x: usize| ident.contains(x) implies x < n by {}
    assert forall|x: usize| x < n implies ident.contains(x) by {
        assert(ident[x as int] == x);
    }
    arr.lemma_multiset_has_no_duplicates();
    ident.lemma_multiset_has_no_duplicates();
    assert forall|x: usize| #[trigger] arr.to_multiset().count(x) == ident.to_multiset().count(x)
        by {
        if x < n {
            assert(arr.contains(x));
            assert(ident.contains(x));
        } else {
            assert(!arr.contains(x)) by {
                if arr.contains(x) {
                    let p = choose|p: int| 0 <= p < arr.len() && arr[p] == x;
                    assert(arr[p] < n);
                }
            }
            assert(!ident.contains(x));
            assert(arr.to_multiset().count(x) == 0);
            assert(ident.to_multiset().count(x) == 0);
        }
    }
    assert(arr.to_multiset() =~= ident.to_multiset());
}

/// A sequence with the same multiset as the identity permutation of `[0, n)`
/// has length `n` and entries below `n`.
pub proof fn lemma_perm_range(arr: Seq<usize>, n: nat)
    requires
        arr.to_multiset() == ident_seq(n).to_multiset(),
    ensures
        arr.len() == n,
        forall|q: int| 0 <= q < arr.len() ==> #[trigger] arr[q] < n,
{
    broadcast use group_to_multiset_ensures;

    assert(ident_seq(n).to_multiset().len() == n);
    assert forall|q: int| 0 <= q < arr.len() implies #[trigger] arr[q] < n by {
        assert(arr.contains(arr[q]));
        assert(arr.to_multiset().count(arr[q]) > 0);
        assert(ident_seq(n).contains(arr[q]));
        let p = choose|p: int| 0 <= p < n && ident_seq(n)[p] == arr[q];
        assert(ident_seq(n)[p] == p as usize);
    }
}

/// Replacing a segment of a sequence by a rearrangement of the same values
/// leaves the whole sequence's multiset unchanged.
pub proof fn lemma_replace_segment_multiset(s1: Seq<usize>, s2: Seq<usize>, lo: int, hi: int)
    requires
        s1.len() == s2.len(),
        0 <= lo <= hi <= s1.len(),
        s1.subrange(0, lo) == s2.subrange(0, lo),
        s1.subrange(hi, s1.len() as int) == s2.subrange(hi, s2.len() as int),
        s1.subrange(lo, hi).to_multiset() == s2.subrange(lo, hi).to_multiset(),
    ensures
        s1.to_multiset() == s2.to_multiset(),
{
    broadcast use group_to_multiset_ensures;
    broadcast use vstd::seq_lib::lemma_multiset_commutative;

    let n = s1.len() as int;
    assert(s1 =~= s1.subrange(0, lo) + s1.subrange(lo, hi) + s1.subrange(hi, n));
    assert(s2 =~= s2.subrange(0, lo) + s2.subrange(lo, hi) + s2.subrange(hi, n));
    assert((s1.subrange(0, lo) + s1.subrange(lo, hi) + s1.subrange(hi, n)).to_multiset()
        =~= s1.subrange(0, lo).to_multiset().add(s1.subrange(lo, hi).to_multiset()).add(
        s1.subrange(hi, n).to_multiset(),
    ));
    assert((s2.subrange(0, lo) + s2.subrange(lo, hi) + s2.subrange(hi, n)).to_multiset()
        =~= s2.subrange(0, lo).to_multiset().add(s2.subrange(lo, hi).to_multiset()).add(
        s2.subrange(hi, n).to_multiset(),
    ));
}

} // verus!
