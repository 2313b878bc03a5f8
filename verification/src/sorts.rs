use vstd::prelude::*;
use vstd::relations::sorted_by;
use vstd::seq_lib::group_to_multiset_ensures;
use vstd::seq_lib::lemma_multiset_commutative;
use crate::buckets::lemma_replace_segment_multiset;
use crate::cmp::{cmp_pack, cmp_packed, cmp_bytes, cmp_seeds, suffix_cmp};
use crate::codes::codes_of;
use crate::order::{
    wcmp, wcmp16, suffix_leq, lemma_suffix_leq_total, lemma_wcmp_range, lemma_wcmp_antisym,
    lemma_wcmp_trans, lemma_wcmp16_range, lemma_wcmp16_antisym, lemma_wcmp16_trans,
};
use crate::rev_packed::RevPacked;

verus! {

/// The order the raw-byte construction sorts by: bounded window comparison
/// of encoded symbols, ties permitted.
pub open spec fn bytes_leq(s: Seq<u8>, m: nat) -> spec_fn(usize, usize) -> bool {
    |a: usize, b: usize| wcmp(s, a as int, b as int, m) <= 0
}

/// The order the seeded construction sorts by inside one bucket: bounded
/// window comparison starting one symbol past the bucket key, ties permitted.
pub open spec fn seeds_leq(s: Seq<u16>, m: nat) -> spec_fn(usize, usize) -> bool {
    |a: usize, b: usize| wcmp16(s, a as int + 1, b as int + 1, m) <= 0
}

/// Swapping two adjacent entries leaves the multiset unchanged.
proof fn lemma_swap_adjacent_multiset(s: Seq<usize>, j: int)
    requires
        1 <= j < s.len(),
    ensures
        s.update(j - 1, s[j]).update(j, s[j - 1]).to_multiset() == s.to_multiset(),
{
    broadcast use group_to_multiset_ensures;
    broadcast use vstd::multiset::group_multiset_axioms;

    let s2 = s.update(j - 1, s[j]).update(j, s[j - 1]);
    let o = s.subrange(j - 1, j + 1);
    let w = s2.subrange(j - 1, j + 1);
    assert(o =~= Seq::<usize>::empty().push(s[j - 1]).push(s[j]));
    assert(w =~= Seq::<usize>::empty().push(s[j]).push(s[j - 1]));
    let e = Seq::<usize>::empty().to_multiset();
    assert(o.to_multiset() =~= e.insert(s[j - 1]).insert(s[j]));
    assert(w.to_multiset() =~= e.insert(s[j]).insert(s[j - 1]));
    assert(e.insert(s[j - 1]).insert(s[j]) =~= e.insert(s[j]).insert(s[j - 1]));
    assert(s.subrange(0, j - 1) =~= s2.subrange(0, j - 1));
    assert(s.subrange(j + 1, s.len() as int) =~= s2.subrange(j + 1, s2.len() as int));
    lemma_replace_segment_multiset(s, s2, j - 1, j + 1);
}

/// Sort suffix positions by the packed window order with index tie-break
/// (insertion sort; the comparator is a strict total order, so the result
/// is the unique sorted permutation of the input).
pub fn sort_positions_packed(p: &RevPacked, arr: &mut Vec<usize>, ctx: usize)
    requires
        p.wf(),
        1 <= ctx,
        forall|q: int|
            0 <= q < old(arr)@.len() ==> #[trigger] old(arr)@[q] + 124 * ctx <= p@.len(),
    ensures
        final(arr)@.len() == old(arr)@.len(),
        final(arr)@.to_multiset() == old(arr)@.to_multiset(),
        sorted_by(final(arr)@, suffix_leq(p@, (124 * ctx) as nat)),
        forall|q: int|
            0 <= q < final(arr)@.len() ==> #[trigger] final(arr)@[q] + 124 * ctx <= p@.len(),
{
    let ghost s = p@;
    let ghost m = (124 * ctx) as nat;
    let ghost leq = suffix_leq(s, m);
    proof {
        lemma_suffix_leq_total(s, m);
    }
    let n: usize = arr.len();
    if n == 0 {
        return ;
    }
    let mut i: usize = 1;
    while i < n
        invariant
            arr@.len() == n,
            1 <= i <= n,
            arr@.to_multiset() == old(arr)@.to_multiset(),
            forall|q: int| 0 <= q < n ==> #[trigger] arr@[q] + 124 * ctx <= p@.len(),
            sorted_by(arr@.subrange(0, i as int), leq),
        decreases n - i,
    {
        let mut j: usize = i;
        while j > 0 && cmp_packed(p, arr[j], arr[j - 1], ctx) < 0
            invariant
                0 <= j <= i < n,
                arr@.len() == n,
                arr@.to_multiset() == old(arr)@.to_multiset(),
                forall|q: int| 0 <= q < n ==> #[trigger] arr@[q] + 124 * ctx <= p@.len(),
                sorted_by(arr@.subrange(0, j as int), leq),
                sorted_by(arr@.subrange(j as int, i + 1), leq),
                forall|x: int, y: int|
                    0 <= x < j && j < y <= i ==> #[trigger] leq(arr@[x], arr@[y]),
            decreases j,
        {
            let vj: usize = arr[j];
            let vjm: usize = arr[j - 1];
            proof {
                lemma_wcmp_range(s, vj as int, vjm as int, m);
                lemma_wcmp_antisym(s, vj as int, vjm as int, m);
                assert(leq(vj, vjm));
            }
            let ghost pre = arr@;
            arr.set(j - 1, vj);
            arr.set(j, vjm);
            proof {
                assert(arr@ =~= pre.update(j - 1, pre[j as int]).update(j as int, pre[j - 1]));
                lemma_swap_adjacent_multiset(pre, j as int);
                assert(sorted_by(arr@.subrange(0, j - 1), leq)) by {
                    let ns = arr@.subrange(0, j - 1);
                    let os = pre.subrange(0, j as int);
                    assert forall|x: int, y: int| 0 <= x < y < ns.len() implies leq(
                        ns[x],
                        ns[y],
                    ) by {
                        assert(ns[x] == os[x] && ns[y] == os[y]);
                        assert(leq(os[x], os[y]));
                    }
                }
                assert(sorted_by(arr@.subrange(j - 1, i + 1), leq)) by {
                    let seg = arr@.subrange(j - 1, i + 1);
                    assert forall|x: int, y: int| 0 <= x < y < seg.len() implies leq(
                        seg[x],
                        seg[y],
                    ) by {
                        let ax = x + j - 1;
                        let ay = y + j - 1;
                        assert(seg[x] == arr@[ax] && seg[y] == arr@[ay]);
                        if ax == j - 1 && ay == j as int {
                            assert(leq(vj, vjm));
                        } else if ax == j - 1 {
                            assert(pre.subrange(j as int, i + 1)[0] == vj);
                            assert(pre.subrange(j as int, i + 1)[ay - j] == pre[ay]);
                            assert(leq(vj, pre[ay]));
                        } else if ax == j as int {
                            assert(leq(pre[j - 1], pre[ay]));
                        } else {
                            assert(pre.subrange(j as int, i + 1)[ax - j] == pre[ax]);
                            assert(pre.subrange(j as int, i + 1)[ay - j] == pre[ay]);
                        }
                    }
                }
                assert forall|x: int, y: int|
                    0 <= x < j - 1 && j - 1 < y <= i implies #[trigger] leq(arr@[x], arr@[y]) by {
                    if y == j as int {
                        assert(pre.subrange(0, j as int)[x] == pre[x]);
                        assert(pre.subrange(0, j as int)[j - 1] == pre[j - 1]);
                        assert(leq(pre[x], pre[j - 1]));
                    } else {
                        assert(leq(pre[x], pre[y]));
                    }
                }
            }
            j = j - 1;
        }
        proof {
            assert forall|x: int, y: int| 0 <= x < y <= i implies leq(arr@[x], arr@[y]) by {
                let sub0 = arr@.subrange(0, j as int);
                let sub1 = arr@.subrange(j as int, i + 1);
                if j > 0 {
                    lemma_wcmp_range(s, arr@[j as int] as int, arr@[j - 1] as int, m);
                    lemma_wcmp_antisym(s, arr@[j as int] as int, arr@[j - 1] as int, m);
                    assert(leq(arr@[j - 1], arr@[j as int]));
                }
                if y < j {
                    assert(sub0[x] == arr@[x] && sub0[y] == arr@[y]);
                } else if x >= j {
                    assert(sub1[x - j] == arr@[x] && sub1[y - j] == arr@[y]);
                } else if y == j {
                    if x == j - 1 {
                    } else {
                        assert(sub0[x] == arr@[x] && sub0[j - 1] == arr@[j - 1]);
                        assert(leq(arr@[x], arr@[j - 1]));
                    }
                } else {
                    assert(leq(arr@[x], arr@[y]));
                }
            }
            assert(sorted_by(arr@.subrange(0, i + 1), leq)) by {
                assert(forall|x: int|
                    0 <= x < i + 1 ==> arr@.subrange(0, i + 1)[x] == arr@[x]);
            }
        }
        i = i + 1;
    }
    proof {
        assert(arr@.subrange(0, n as int) =~= arr@);
    }
}

/// Materialize the comparison key of one suffix: its `ctx` windows of 124
/// symbols, concatenated.
pub fn key_packed(p: &RevPacked, a_idx: usize, ctx: usize) -> (w: Vec<u8>)
    requires
        p.wf(),
        1 <= ctx,
        a_idx + 124 * ctx <= p@.len(),
    ensures
        w@ == p@.subrange(a_idx as int, a_idx + 124 * ctx),
{
    proof {
        p.lemma_wf_len();
    }
    let mut w: Vec<u8> = Vec::new();
    let mut t: usize = 0;
    while t < ctx
        invariant
            t <= ctx,
            w@ == p@.subrange(a_idx as int, a_idx + 124 * t),
        decreases ctx - t,
    {
        let mut win = p.load_124(a_idx + 124 * t);
        w.append(&mut win);
        t = t + 1;
        assert(w@ =~= p@.subrange(a_idx as int, a_idx + 124 * t));
    }
    w
}

/// Strict comparison of two suffixes through their cached keys; the keys
/// carry the windows, the positions break full-window ties.
fn keyed_less(p: &RevPacked, x: &Vec<u8>, xi: usize, y: &Vec<u8>, yi: usize, ctx: usize) -> (r:
    bool)
    requires
        p.wf(),
        1 <= ctx,
        xi + 124 * ctx <= p@.len(),
        yi + 124 * ctx <= p@.len(),
        x@ == p@.subrange(xi as int, xi + 124 * ctx),
        y@ == p@.subrange(yi as int, yi + 124 * ctx),
    ensures
        r == (suffix_cmp(p@, (124 * ctx) as nat, xi as int, yi as int) < 0),
{
    proof {
        p.lemma_wf_len();
        crate::order::lemma_seq_cmp_windows(p@, xi as int, yi as int, (124 * ctx) as nat);
    }
    let c: i8 = cmp_pack(x, y);
    c < 0 || (c == 0 && xi < yi)
}

/// Cached-key bucket sort for small windows: the key of each position is
/// materialized once, and comparisons read the keys instead of re-loading
/// the corpus. Keys omit the position, so the comparison is extended with
/// the ascending-index tie-break to sort exactly as the direct comparator
/// does.
pub fn sort_bucket_keyed(p: &RevPacked, arr: &mut Vec<usize>, ctx: usize)
    requires
        p.wf(),
        1 <= ctx,
        forall|q: int|
            0 <= q < old(arr)@.len() ==> #[trigger] old(arr)@[q] + 124 * ctx <= p@.len(),
    ensures
        final(arr)@.len() == old(arr)@.len(),
        final(arr)@.to_multiset() == old(arr)@.to_multiset(),
        sorted_by(final(arr)@, suffix_leq(p@, (124 * ctx) as nat)),
        forall|q: int|
            0 <= q < final(arr)@.len() ==> #[trigger] final(arr)@[q] + 124 * ctx <= p@.len(),
{
    let ghost s = p@;
    let ghost m = (124 * ctx) as nat;
    let ghost leq = suffix_leq(s, m);
    proof {
        lemma_suffix_leq_total(s, m);
    }
    let n: usize = arr.len();
    if n == 0 {
        return ;
    }
    let mut keys: Vec<Vec<u8>> = Vec::new();
    let mut q: usize = 0;
    while q < n
        invariant
            q <= n,
            arr@ == old(arr)@,
            arr@.len() == n,
            keys@.len() == q,
            forall|q2: int|
                0 <= q2 < q ==> #[trigger] keys@[q2]@ == s.subrange(
                    arr@[q2] as int,
                    arr@[q2] + 124 * ctx,
                ),
        decreases n - q,
    {
        keys.push(key_packed(p, arr[q], ctx));
        q = q + 1;
    }
    let mut i: usize = 1;
    while i < n
        invariant
            arr@.len() == n,
            keys@.len() == n,
            1 <= i <= n,
            arr@.to_multiset() == old(arr)@.to_multiset(),
            forall|q2: int| 0 <= q2 < n ==> #[trigger] arr@[q2] + 124 * ctx <= p@.len(),
            forall|q2: int|
                0 <= q2 < n ==> #[trigger] keys@[q2]@ == s.subrange(
                    arr@[q2] as int,
                    arr@[q2] + 124 * ctx,
                ),
            sorted_by(arr@.subrange(0, i as int), leq),
        decreases n - i,
    {
        let mut j: usize = i;
        while j > 0 && keyed_less(p, &keys[j], arr[j], &keys[j - 1], arr[j - 1], ctx)
            invariant
                0 <= j <= i < n,
                arr@.len() == n,
                keys@.len() == n,
                arr@.to_multiset() == old(arr)@.to_multiset(),
                forall|q2: int| 0 <= q2 < n ==> #[trigger] arr@[q2] + 124 * ctx <= p@.len(),
                forall|q2: int|
                    0 <= q2 < n ==> #[trigger] keys@[q2]@ == s.subrange(
                        arr@[q2] as int,
                        arr@[q2] + 124 * ctx,
                    ),
                sorted_by(arr@.subrange(0, j as int), leq),
                sorted_by(arr@.subrange(j as int, i + 1), leq),
                forall|x: int, y: int|
                    0 <= x < j && j < y <= i ==> #[trigger] leq(arr@[x], arr@[y]),
            decreases j,
        {
            let vj: usize = arr[j];
            let vjm: usize = arr[j - 1];
            proof {
                lemma_wcmp_range(s, vj as int, vjm as int, m);
                lemma_wcmp_antisym(s, vj as int, vjm as int, m);
                assert(leq(vj, vjm));
            }
            let kj: Vec<u8> = keys[j].clone();
            let kjm: Vec<u8> = keys[j - 1].clone();
            let ghost pre = arr@;
            arr.set(j - 1, vj);
            arr.set(j, vjm);
            keys.set(j - 1, kj);
            keys.set(j, kjm);
            proof {
                assert(arr@ =~= pre.update(j - 1, pre[j as int]).update(j as int, pre[j - 1]));
                lemma_swap_adjacent_multiset(pre, j as int);
                assert(sorted_by(arr@.subrange(0, j - 1), leq)) by {
                    let ns = arr@.subrange(0, j - 1);
                    let os = pre.subrange(0, j as int);
                    assert forall|x: int, y: int| 0 <= x < y < ns.len() implies leq(
                        ns[x],
                        ns[y],
                    ) by {
                        assert(ns[x] == os[x] && ns[y] == os[y]);
                        assert(leq(os[x], os[y]));
                    }
                }
                assert(sorted_by(arr@.subrange(j - 1, i + 1), leq)) by {
                    let seg = arr@.subrange(j - 1, i + 1);
                    assert forall|x: int, y: int| 0 <= x < y < seg.len() implies leq(
                        seg[x],
                        seg[y],
                    ) by {
                        let ax = x + j - 1;
                        let ay = y + j - 1;
                        assert(seg[x] == arr@[ax] && seg[y] == arr@[ay]);
                        if ax == j - 1 && ay == j as int {
                            assert(leq(vj, vjm));
                        } else if ax == j - 1 {
                            assert(pre.subrange(j as int, i + 1)[0] == vj);
                            assert(pre.subrange(j as int, i + 1)[ay - j] == pre[ay]);
                            assert(leq(vj, pre[ay]));
                        } else if ax == j as int {
                            assert(leq(pre[j - 1], pre[ay]));
                        } else {
                            assert(pre.subrange(j as int, i + 1)[ax - j] == pre[ax]);
                            assert(pre.subrange(j as int, i + 1)[ay - j] == pre[ay]);
                        }
                    }
                }
                assert forall|x: int, y: int|
                    0 <= x < j - 1 && j - 1 < y <= i implies #[trigger] leq(arr@[x], arr@[y]) by {
                    if y == j as int {
                        assert(pre.subrange(0, j as int)[x] == pre[x]);
                        assert(pre.subrange(0, j as int)[j - 1] == pre[j - 1]);
                        assert(leq(pre[x], pre[j - 1]));
                    } else {
                        assert(leq(pre[x], pre[y]));
                    }
                }
            }
            j = j - 1;
        }
        proof {
            assert forall|x: int, y: int| 0 <= x < y <= i implies leq(arr@[x], arr@[y]) by {
                let sub0 = arr@.subrange(0, j as int);
                let sub1 = arr@.subrange(j as int, i + 1);
                if j > 0 {
                    lemma_wcmp_range(s, arr@[j as int] as int, arr@[j - 1] as int, m);
                    lemma_wcmp_antisym(s, arr@[j as int] as int, arr@[j - 1] as int, m);
                    assert(leq(arr@[j - 1], arr@[j as int]));
                }
                if y < j {
                    assert(sub0[x] == arr@[x] && sub0[y] == arr@[y]);
                } else if x >= j {
                    assert(sub1[x - j] == arr@[x] && sub1[y - j] == arr@[y]);
                } else if y == j {
                    if x == j - 1 {
                    } else {
                        assert(sub0[x] == arr@[x] && sub0[j - 1] == arr@[j - 1]);
                        assert(leq(arr@[x], arr@[j - 1]));
                    }
                } else {
                    assert(leq(arr@[x], arr@[y]));
                }
            }
            assert(sorted_by(arr@.subrange(0, i + 1), leq)) by {
                assert(forall|x: int|
                    0 <= x < i + 1 ==> arr@.subrange(0, i + 1)[x] == arr@[x]);
            }
        }
        i = i + 1;
    }
    proof {
        assert(arr@.subrange(0, n as int) =~= arr@);
    }
}

/// Sort suffix positions by the bounded byte-window order (insertion sort,
/// stable, so positions with fully equal windows keep ascending order).
pub fn sort_positions_bytes(bytes: &Vec<u8>, arr: &mut Vec<usize>, ctx: usize)
    requires
        1 <= ctx,
        forall|q: int|
            0 <= q < old(arr)@.len() ==> #[trigger] old(arr)@[q] + 32 * ctx <= bytes@.len(),
    ensures
        final(arr)@.len() == old(arr)@.len(),
        final(arr)@.to_multiset() == old(arr)@.to_multiset(),
        sorted_by(final(arr)@, bytes_leq(codes_of(bytes@), (32 * ctx) as nat)),
        forall|q: int|
            0 <= q < final(arr)@.len() ==> #[trigger] final(arr)@[q] + 32 * ctx <= bytes@.len(),
{
    let ghost s = codes_of(bytes@);
    let ghost m = (32 * ctx) as nat;
    let ghost leq = bytes_leq(s, m);
    let n: usize = arr.len();
    if n == 0 {
        return ;
    }
    let mut i: usize = 1;
    while i < n
        invariant
            arr@.len() == n,
            1 <= i <= n,
            arr@.to_multiset() == old(arr)@.to_multiset(),
            forall|q: int| 0 <= q < n ==> #[trigger] arr@[q] + 32 * ctx <= bytes@.len(),
            sorted_by(arr@.subrange(0, i as int), leq),
        decreases n - i,
    {
        let mut j: usize = i;
        while j > 0 && cmp_bytes(bytes, arr[j], arr[j - 1], ctx) < 0
            invariant
                0 <= j <= i < n,
                arr@.len() == n,
                arr@.to_multiset() == old(arr)@.to_multiset(),
                forall|q: int| 0 <= q < n ==> #[trigger] arr@[q] + 32 * ctx <= bytes@.len(),
                sorted_by(arr@.subrange(0, j as int), leq),
                sorted_by(arr@.subrange(j as int, i + 1), leq),
                forall|x: int, y: int|
                    0 <= x < j && j < y <= i ==> #[trigger] leq(arr@[x], arr@[y]),
            decreases j,
        {
            let vj: usize = arr[j];
            let vjm: usize = arr[j - 1];
            proof {
                assert(leq(vj, vjm));
            }
            let ghost pre = arr@;
            arr.set(j - 1, vj);
            arr.set(j, vjm);
            proof {
                assert(arr@ =~= pre.update(j - 1, pre[j as int]).update(j as int, pre[j - 1]));
                lemma_swap_adjacent_multiset(pre, j as int);
                assert(sorted_by(arr@.subrange(0, j - 1), leq)) by {
                    let ns = arr@.subrange(0, j - 1);
                    let os = pre.subrange(0, j as int);
                    assert forall|x: int, y: int| 0 <= x < y < ns.len() implies leq(
                        ns[x],
                        ns[y],
                    ) by {
                        assert(ns[x] == os[x] && ns[y] == os[y]);
                        assert(leq(os[x], os[y]));
                    }
                }
                assert(sorted_by(arr@.subrange(j - 1, i + 1), leq)) by {
                    let seg = arr@.subrange(j - 1, i + 1);
                    assert forall|x: int, y: int| 0 <= x < y < seg.len() implies leq(
                        seg[x],
                        seg[y],
                    ) by {
                        let ax = x + j - 1;
                        let ay = y + j - 1;
                        assert(seg[x] == arr@[ax] && seg[y] == arr@[ay]);
                        if ax == j - 1 && ay == j as int {
                            assert(leq(vj, vjm));
                        } else if ax == j - 1 {
                            assert(pre.subrange(j as int, i + 1)[0] == vj);
                            assert(pre.subrange(j as int, i + 1)[ay - j] == pre[ay]);
                            assert(leq(vj, pre[ay]));
                        } else if ax == j as int {
                            assert(leq(pre[j - 1], pre[ay]));
                        } else {
                            assert(pre.subrange(j as int, i + 1)[ax - j] == pre[ax]);
                            assert(pre.subrange(j as int, i + 1)[ay - j] == pre[ay]);
                        }
                    }
                }
                assert forall|x: int, y: int|
                    0 <= x < j - 1 && j - 1 < y <= i implies #[trigger] leq(arr@[x], arr@[y]) by {
                    if y == j as int {
                        assert(pre.subrange(0, j as int)[x] == pre[x]);
                        assert(pre.subrange(0, j as int)[j - 1] == pre[j - 1]);
                        assert(leq(pre[x], pre[j - 1]));
                    } else {
                        assert(leq(pre[x], pre[y]));
                    }
                }
            }
            j = j - 1;
        }
        proof {
            assert forall|x: int, y: int| 0 <= x < y <= i implies leq(arr@[x], arr@[y]) by {
                let sub0 = arr@.subrange(0, j as int);
                let sub1 = arr@.subrange(j as int, i + 1);
                if j > 0 {
                    lemma_wcmp_antisym(s, arr@[j as int] as int, arr@[j - 1] as int, m);
                    lemma_wcmp_range(s, arr@[j as int] as int, arr@[j - 1] as int, m);
                    assert(leq(arr@[j - 1], arr@[j as int]));
                }
                if y < j {
                    assert(sub0[x] == arr@[x] && sub0[y] == arr@[y]);
                } else if x >= j {
                    assert(sub1[x - j] == arr@[x] && sub1[y - j] == arr@[y]);
                } else if y == j {
                    if x == j - 1 {
                    } else {
                        assert(sub0[x] == arr@[x] && sub0[j - 1] == arr@[j - 1]);
                        assert(leq(arr@[x], arr@[j - 1]));
                        lemma_wcmp_trans(
                            s,
                            arr@[x] as int,
                            arr@[j - 1] as int,
                            arr@[j as int] as int,
                            m,
                        );
                    }
                } else {
                    assert(leq(arr@[x], arr@[y]));
                }
            }
            assert(sorted_by(arr@.subrange(0, i + 1), leq)) by {
                assert(forall|x: int|
                    0 <= x < i + 1 ==> arr@.subrange(0, i + 1)[x] == arr@[x]);
            }
        }
        i = i + 1;
    }
    proof {
        assert(arr@.subrange(0, n as int) =~= arr@);
    }
}

/// Sort suffix positions of the seeded corpus inside one bucket: bounded
/// window comparison starting one symbol past the shared bucket key
/// (insertion sort, stable).
pub fn sort_positions_seeds(seeds: &Vec<u16>, arr: &mut Vec<usize>, ctx: usize)
    requires
        1 <= ctx,
        forall|q: int|
            0 <= q < old(arr)@.len() ==> #[trigger] old(arr)@[q] + 1 + 16 * ctx <= seeds@.len(),
    ensures
        final(arr)@.len() == old(arr)@.len(),
        final(arr)@.to_multiset() == old(arr)@.to_multiset(),
        sorted_by(final(arr)@, seeds_leq(seeds@, (16 * ctx) as nat)),
        forall|q: int|
            0 <= q < final(arr)@.len() ==> #[trigger] final(arr)@[q] + 1 + 16 * ctx
                <= seeds@.len(),
{
    let ghost s = seeds@;
    let ghost m = (16 * ctx) as nat;
    let ghost leq = seeds_leq(s, m);
    let slen: usize = seeds.len();
    assert(seeds@.len() <= usize::MAX);
    let n: usize = arr.len();
    if n == 0 {
        return ;
    }
    let mut i: usize = 1;
    while i < n
        invariant
            arr@.len() == n,
            1 <= i <= n,
            arr@.to_multiset() == old(arr)@.to_multiset(),
            forall|q: int| 0 <= q < n ==> #[trigger] arr@[q] + 1 + 16 * ctx <= seeds@.len(),
            sorted_by(arr@.subrange(0, i as int), leq),
        decreases n - i,
    {
        let mut j: usize = i;
        while j > 0 && cmp_seeds(seeds, arr[j] + 1, arr[j - 1] + 1, ctx) < 0
            invariant
                0 <= j <= i < n,
                arr@.len() == n,
                arr@.to_multiset() == old(arr)@.to_multiset(),
                forall|q: int| 0 <= q < n ==> #[trigger] arr@[q] + 1 + 16 * ctx <= seeds@.len(),
                sorted_by(arr@.subrange(0, j as int), leq),
                sorted_by(arr@.subrange(j as int, i + 1), leq),
                forall|x: int, y: int|
                    0 <= x < j && j < y <= i ==> #[trigger] leq(arr@[x], arr@[y]),
            decreases j,
        {
            let vj: usize = arr[j];
            let vjm: usize = arr[j - 1];
            proof {
                assert(leq(vj, vjm));
            }
            let ghost pre = arr@;
            arr.set(j - 1, vj);
            arr.set(j, vjm);
            proof {
                assert(arr@ =~= pre.update(j - 1, pre[j as int]).update(j as int, pre[j - 1]));
                lemma_swap_adjacent_multiset(pre, j as int);
                assert(sorted_by(arr@.subrange(0, j - 1), leq)) by {
                    let ns = arr@.subrange(0, j - 1);
                    let os = pre.subrange(0, j as int);
                    assert forall|x: int, y: int| 0 <= x < y < ns.len() implies leq(
                        ns[x],
                        ns[y],
                    ) by {
                        assert(ns[x] == os[x] && ns[y] == os[y]);
                        assert(leq(os[x], os[y]));
                    }
                }
                assert(sorted_by(arr@.subrange(j - 1, i + 1), leq)) by {
                    let seg = arr@.subrange(j - 1, i + 1);
                    assert forall|x: int, y: int| 0 <= x < y < seg.len() implies leq(
                        seg[x],
                        seg[y],
                    ) by {
                        let ax = x + j - 1;
                        let ay = y + j - 1;
                        assert(seg[x] == arr@[ax] && seg[y] == arr@[ay]);
                        if ax == j - 1 && ay == j as int {
                            assert(leq(vj, vjm));
                        } else if ax == j - 1 {
                            assert(pre.subrange(j as int, i + 1)[0] == vj);
                            assert(pre.subrange(j as int, i + 1)[ay - j] == pre[ay]);
                            assert(leq(vj, pre[ay]));
                        } else if ax == j as int {
                            assert(leq(pre[j - 1], pre[ay]));
                        } else {
                            assert(pre.subrange(j as int, i + 1)[ax - j] == pre[ax]);
                            assert(pre.subrange(j as int, i + 1)[ay - j] == pre[ay]);
                        }
                    }
                }
                assert forall|x: int, y: int|
                    0 <= x < j - 1 && j - 1 < y <= i implies #[trigger] leq(arr@[x], arr@[y]) by {
                    if y == j as int {
                        assert(pre.subrange(0, j as int)[x] == pre[x]);
                        assert(pre.subrange(0, j as int)[j - 1] == pre[j - 1]);
                        assert(leq(pre[x], pre[j - 1]));
                    } else {
                        assert(leq(pre[x], pre[y]));
                    }
                }
            }
            j = j - 1;
        }
        proof {
            assert forall|x: int, y: int| 0 <= x < y <= i implies leq(arr@[x], arr@[y]) by {
                let sub0 = arr@.subrange(0, j as int);
                let sub1 = arr@.subrange(j as int, i + 1);
                if j > 0 {
                    lemma_wcmp16_antisym(
                        s,
                        arr@[j as int] as int + 1,
                        arr@[j - 1] as int + 1,
                        m,
                    );
                    lemma_wcmp16_range(s, arr@[j as int] as int + 1, arr@[j - 1] as int + 1, m);
                    assert(leq(arr@[j - 1], arr@[j as int]));
                }
                if y < j {
                    assert(sub0[x] == arr@[x] && sub0[y] == arr@[y]);
                } else if x >= j {
                    assert(sub1[x - j] == arr@[x] && sub1[y - j] == arr@[y]);
                } else if y == j {
                    if x == j - 1 {
                    } else {
                        assert(sub0[x] == arr@[x] && sub0[j - 1] == arr@[j - 1]);
                        assert(leq(arr@[x], arr@[j - 1]));
                        lemma_wcmp16_trans(
                            s,
                            arr@[x] as int + 1,
                            arr@[j - 1] as int + 1,
                            arr@[j as int] as int + 1,
                            m,
                        );
                    }
                } else {
                    assert(leq(arr@[x], arr@[y]));
                }
            }
            assert(sorted_by(arr@.subrange(0, i + 1), leq)) by {
                assert(forall|x: int|
                    0 <= x < i + 1 ==> arr@.subrange(0, i + 1)[x] == arr@[x]);
            }
        }
        i = i + 1;
    }
    proof {
        assert(arr@.subrange(0, n as int) =~= arr@);
    }
}

} // verus!
