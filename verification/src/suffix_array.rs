use vstd::prelude::*;
use vstd::relations::sorted_by;
use crate::buckets::{
    bstart, cnt_range, ident_seq, lemma_bstart_empty, lemma_bstart_mono, lemma_bstart_total,
    lemma_cnt_bounds, lemma_cnt_split, lemma_perm_range,
    lemma_replace_segment_multiset, lemma_scatter_perm, lemma_slot_in_bucket, lemma_slot_inj,
    slot,
};
use crate::codes::{code_of, codes_of};
use crate::compact_vec::{slot_bound, CompactVec};
use crate::kmer::{
    kmer_spec, lemma_kmer_orders_windows, lemma_pow2_mono, lemma_pow2_pos, lemma_pow4_mono,
    lemma_pow4_pos, pow2, pow4,
};
use crate::order::{suffix_leq, wcmp, wcmp16, lemma_suffix_leq_total};
use crate::rev_packed::RevPacked;
use crate::sorts::{
    bytes_leq, seeds_leq, sort_bucket_keyed, sort_positions_bytes, sort_positions_packed,
    sort_positions_seeds,
};

verus! {

/// The result of the packed construction: a permutation of the valid suffix
/// starts, sorted by the bounded window order with ascending-index tie-break.
pub open spec fn is_suffix_array(codes: Seq<u8>, m: nat, arr: Seq<usize>) -> bool {
    &&& arr.len() + m == codes.len()
    &&& arr.to_multiset() == ident_seq((codes.len() - m) as nat).to_multiset()
    &&& sorted_by(arr, suffix_leq(codes, m))
}

/// The result of the raw-byte construction: equal windows may stand in any
/// order the stable sort leaves them in.
pub open spec fn is_byte_suffix_array(codes: Seq<u8>, m: nat, arr: Seq<usize>) -> bool {
    &&& arr.len() + m == codes.len()
    &&& arr.to_multiset() == ident_seq((codes.len() - m) as nat).to_multiset()
    &&& sorted_by(arr, bytes_leq(codes, m))
}

/// The order the seeded construction realizes: seed value first, then the
/// bounded window starting one symbol past the key; ties permitted.
pub open spec fn seed_order(seeds: Seq<u16>, m: nat) -> spec_fn(usize, usize) -> bool {
    |a: usize, b: usize|
        seeds[a as int] < seeds[b as int] || (seeds[a as int] == seeds[b as int] && wcmp16(
            seeds,
            a as int + 1,
            b as int + 1,
            m,
        ) <= 0)
}

/// The result of the pre-seeded 16-bit construction: buckets ordered by seed
/// value, each bucket sorted by the window past the shared key.
pub open spec fn is_seed_suffix_array(seeds: Seq<u16>, m: nat, arr: Seq<usize>) -> bool {
    &&& arr.len() + m == seeds.len()
    &&& arr.to_multiset() == ident_seq((seeds.len() - m) as nat).to_multiset()
    &&& sorted_by(arr, seed_order(seeds, m))
}

/// Length of the common prefix of the suffixes at `i` and `j`, capped at `m`.
pub open spec fn lcp_spec(s: Seq<u8>, i: int, j: int, m: nat) -> int
    decreases m,
{
    if m == 0 {
        0
    } else if s[i] != s[j] {
        0
    } else {
        1 + lcp_spec(s, i + 1, j + 1, (m - 1) as nat)
    }
}

proof fn lemma_lcp_bounds(s: Seq<u8>, i: int, j: int, m: nat)
    ensures
        0 <= lcp_spec(s, i, j, m) <= m,
    decreases m,
{
    if m > 0 && s[i] == s[j] {
        lemma_lcp_bounds(s, i + 1, j + 1, (m - 1) as nat);
    }
}

proof fn lemma_lcp_from_prefix(s: Seq<u8>, i: int, j: int, m: nat, l: int)
    requires
        0 <= l <= m,
        forall|t: int| 0 <= t < l ==> #[trigger] s[i + t] == s[j + t],
        l < m ==> s[i + l] != s[j + l],
    ensures
        lcp_spec(s, i, j, m) == l,
    decreases m,
{
    if l == 0 {
    } else {
        assert(s[i] == s[j]) by {
            assert(s[i + 0] == s[j + 0]);
        }
        assert forall|t: int| 0 <= t < l - 1 implies #[trigger] s[i + 1 + t] == s[j + 1 + t] by {
            assert(s[i + (t + 1)] == s[j + (t + 1)]);
        }
        if l < m {
            assert(s[i + l] != s[j + l]);
        }
        lemma_lcp_from_prefix(s, i + 1, j + 1, (m - 1) as nat, l - 1);
    }
}

/// The adjacent-pair common-prefix length, as a key over pair indices.
pub open spec fn adjacent_lcp_key(s: Seq<u8>, sa: Seq<usize>, m: nat) -> spec_fn(int) -> int {
    |x: int| lcp_spec(s, sa[x] as int, sa[x + 1] as int, m)
}

/// Sum of the entries of a histogram.
pub open spec fn seq_sum(s: Seq<usize>) -> int
    decreases s.len(),
{
    if s.len() == 0 {
        0
    } else {
        seq_sum(s.drop_last()) + s.last()
    }
}

/// A histogram whose entry `l` counts the positions with key `l` sums to the
/// number of positions, provided every key falls inside the histogram.
proof fn lemma_sum_counts(cnt: Seq<usize>, key: spec_fn(int) -> int, np: int)
    requires
        forall|l: int| 0 <= l < cnt.len() ==> #[trigger] cnt[l] == cnt_range(key, l, 0, np),
    ensures
        seq_sum(cnt) == bstart(key, np, cnt.len() as int),
    decreases cnt.len(),
{
    if cnt.len() > 0 {
        lemma_sum_counts(cnt.drop_last(), key, np);
    }
}

/// The packed suffix array is unique: any two arrays satisfying the packed
/// contract over the same corpus and window coincide. In particular the
/// output of the packed construction does not depend on the radix width `k`
/// or on the chunk count `bucket_threads`.
pub proof fn lemma_packed_result_unique(codes: Seq<u8>, m: nat, sa1: Seq<usize>, sa2: Seq<usize>)
    requires
        is_suffix_array(codes, m, sa1),
        is_suffix_array(codes, m, sa2),
    ensures
        sa1 == sa2,
{
    lemma_suffix_leq_total(codes, m);
    vstd::seq_lib::lemma_sorted_unique(sa1, sa2, suffix_leq(codes, m));
    assert(sa1 =~= sa2);
}

/// When no two suffixes share a full comparison window, the byte-path result
/// coincides with the packed result over the same window length: the
/// tie-break never fires, so both are the one sorted permutation.
pub proof fn lemma_bytes_equivalence(codes: Seq<u8>, m: nat, sa_p: Seq<usize>, sa_b: Seq<usize>)
    requires
        codes.len() <= usize::MAX,
        is_suffix_array(codes, m, sa_p),
        is_byte_suffix_array(codes, m, sa_b),
        forall|a: int, b: int|
            0 <= a < b < codes.len() - m ==> wcmp(codes, a, b, m) != 0,
    ensures
        sa_p == sa_b,
{
    let n = (codes.len() - m) as nat;
    let leq = suffix_leq(codes, m);
    lemma_suffix_leq_total(codes, m);
    lemma_perm_range(sa_b, n);
    assert(sa_b.no_duplicates()) by {
        broadcast use vstd::seq_lib::group_to_multiset_ensures;

        assert(ident_seq(n).no_duplicates()) by {
            assert forall|i: int, j: int|
                0 <= i < ident_seq(n).len() && 0 <= j < ident_seq(n).len() && i != j implies
                ident_seq(n)[i] != ident_seq(n)[j] by {
                assert(ident_seq(n)[i] == i as usize && ident_seq(n)[j] == j as usize);
            }
        }
        ident_seq(n).lemma_multiset_has_no_duplicates();
        sa_b.lemma_multiset_has_no_duplicates_conv();
    }
    assert(sorted_by(sa_b, leq)) by {
        assert forall|i: int, j: int| 0 <= i < j < sa_b.len() implies #[trigger] leq(
            sa_b[i],
            sa_b[j],
        ) by {
            let a = sa_b[i];
            let b = sa_b[j];
            assert(bytes_leq(codes, m)(a, b));
            assert(a != b);
            if a < b {
                assert(wcmp(codes, a as int, b as int, m) != 0);
            } else {
                assert(wcmp(codes, b as int, a as int, m) != 0);
                crate::order::lemma_wcmp_antisym(codes, a as int, b as int, m);
            }
        }
    }
    vstd::seq_lib::lemma_sorted_unique(sa_p, sa_b, leq);
    assert(sa_p =~= sa_b);
}

/// A suffix array over a four-letter corpus, built by bounded-window
/// comparison sort.
pub struct SuffixArray<const BYTES: usize> {
    idxs: CompactVec<BYTES>,
    k: usize,
    ctx: usize,
}

impl<const BYTES: usize> SuffixArray<BYTES> {
    /// The constructed permutation.
    pub closed spec fn sa(&self) -> Seq<usize> {
        self.idxs@
    }

    pub closed spec fn k_spec(&self) -> usize {
        self.k
    }

    pub closed spec fn ctx_spec(&self) -> usize {
        self.ctx
    }

    pub fn idxs(&self) -> (r: &CompactVec<BYTES>)
        ensures
            r@ == self.sa(),
    {
        &self.idxs
    }

    pub fn k(&self) -> (r: usize)
        ensures
            r == self.k_spec(),
    {
        self.k
    }

    pub fn ctx(&self) -> (r: usize)
        ensures
            r == self.ctx_spec(),
    {
        self.ctx
    }

    /// Primary path: radix-partition the suffix starts by their k-mer, then
    /// sort each bucket by the packed window comparator. The result is the
    /// unique permutation of `[0, N - 124*CTX)` sorted by the window order
    /// with ascending-index tie-break; it does not depend on `k` or on the
    /// chunk count `bucket_threads`.
    pub fn new_packed<const CTX: usize>(bytes: &Vec<u8>, k: usize, bucket_threads: usize) -> (r:
        Self)
        requires
            1 <= CTX,
            k <= 16,
            1 <= bucket_threads,
            124 * CTX <= bytes@.len(),
            bytes@.len() + 8 <= usize::MAX,
            bytes@.len() < slot_bound(BYTES as nat),
            bucket_threads * pow4(k as nat) <= usize::MAX,
        ensures
            r.k_spec() == k,
            r.ctx_spec() == CTX,
            is_suffix_array(codes_of(bytes@), (124 * CTX) as nat, r.sa()),
    {
        let idxs = Self::sort_packed::<CTX>(bytes, k, bucket_threads);
        SuffixArray { idxs, k, ctx: CTX }
    }

    fn sort_packed<const CTX: usize>(bytes: &Vec<u8>, k: usize, bucket_threads: usize) -> (r:
        CompactVec<BYTES>)
        requires
            1 <= CTX,
            k <= 16,
            1 <= bucket_threads,
            124 * CTX <= bytes@.len(),
            bytes@.len() + 8 <= usize::MAX,
            bytes@.len() < slot_bound(BYTES as nat),
            bucket_threads * pow4(k as nat) <= usize::MAX,
        ensures
            is_suffix_array(codes_of(bytes@), (124 * CTX) as nat, r@),
    {
        let blen: usize = bytes.len();
        let n: usize = blen - 124 * CTX;
        let packed = RevPacked::new(bytes);
        let ghost s = packed@;
        let ghost key = kmer_key(s, k as nat);
        proof {
            assert(s.len() == bytes@.len());
            assert forall|i: int| 0 <= i < s.len() implies s[i] < 4 by {
                assert(s[i] == code_of(bytes@[i]));
            }
        }
        // nb = 4^k
        let mut nb: usize = 1;
        let mut t: usize = 0;
        while t < k
            invariant
                t <= k <= 16,
                nb == pow4(t as nat),
            decreases k - t,
        {
            proof {
                lemma_pow4_pos(k as nat);
                lemma_pow4_mono(t as nat + 1, k as nat);
                assert(pow4(k as nat) <= (bucket_threads as int) * pow4(k as nat))
                    by (nonlinear_arith)
                    requires
                        bucket_threads >= 1,
                        pow4(k as nat) >= 1,
                ;
            }
            nb = nb * 4;
            t = t + 1;
        }
        proof {
            assert((bucket_threads as int) * (nb as int) <= usize::MAX);
        }
        let cs: usize = n / bucket_threads;
        proof {
            assert(radix_ctx(
                s,
                k as nat,
                n as int,
                bucket_threads as int,
                cs as int,
                nb as int,
            ));
            lemma_key_bounds(s, k as nat, n as int);
            lemma_pow4_pos(k as nat);
        }
        let mut counts = histogram::<BYTES>(&packed, k, n, bucket_threads, cs, nb);
        prefix_sums::<BYTES>(&mut counts, Ghost(key), n, bucket_threads, cs, nb);
        let mut sorted = scatter::<BYTES>(&packed, &mut counts, k, n, bucket_threads, cs, nb);
        proof {
            lemma_key_bounds(s, k as nat, n as int);
            lemma_scatter_perm(key, n as int, sorted@, nb as int);
        }
        bucket_sorts::<BYTES>(&packed, &mut sorted, &counts, k, n, bucket_threads, nb, CTX);
        proof {
            assert(sorted@.len() + (124 * CTX) as nat == codes_of(bytes@).len());
        }
        sorted
    }

    /// Pre-seeded 16-bit path: counting-sort by seed value, then sort each
    /// bucket by the window starting one symbol past the shared key.
    pub fn new<const CTX: usize>(seeds: &Vec<u16>, k: usize) -> (r: Self)
        requires
            1 <= CTX,
            k <= 16,
            16 * CTX <= seeds@.len(),
            seeds@.len() < slot_bound(BYTES as nat),
            forall|i: int|
                0 <= i < seeds@.len() - 16 * CTX ==> (#[trigger] seeds@[i] as int) < pow2(
                    k as nat,
                ),
        ensures
            r.k_spec() == k,
            r.ctx_spec() == CTX,
            is_seed_suffix_array(seeds@, (16 * CTX) as nat, r.sa()),
    {
        let idxs = Self::sort_seeds::<CTX>(seeds, k);
        SuffixArray { idxs, k, ctx: CTX }
    }

    fn sort_seeds<const CTX: usize>(seeds: &Vec<u16>, k: usize) -> (r: CompactVec<BYTES>)
        requires
            1 <= CTX,
            k <= 16,
            16 * CTX <= seeds@.len(),
            seeds@.len() < slot_bound(BYTES as nat),
            forall|i: int|
                0 <= i < seeds@.len() - 16 * CTX ==> (#[trigger] seeds@[i] as int) < pow2(
                    k as nat,
                ),
        ensures
            is_seed_suffix_array(seeds@, (16 * CTX) as nat, r@),
    {
        let slen: usize = seeds.len();
        let n: usize = slen - 16 * CTX;
        let ghost key = |j: int| seeds@[j] as int;
        let ghost ni = n as int;
        // nb = 2^k
        let mut nb: usize = 1;
        let mut t: usize = 0;
        while t < k
            invariant
                t <= k <= 16,
                nb == pow2(t as nat),
            decreases k - t,
        {
            proof {
                lemma_pow2_mono(t as nat + 1, 16);
                reveal_with_fuel(pow2, 17);
                assert(pow2(16) == 0x1_0000);
            }
            nb = nb * 2;
            t = t + 1;
        }
        let ghost nbi = nb as int;
        proof {
            lemma_pow2_pos(k as nat);
            assert(forall|j: int| 0 <= j < ni ==> 0 <= #[trigger] key(j) < nbi);
            lemma_bstart_total(key, ni, nbi);
        }
        // histogram
        let mut counts = CompactVec::<BYTES>::new(nb);
        let mut i: usize = 0;
        while i < n
            invariant
                i <= n,
                counts@.len() == nb,
                forall|v: int|
                    0 <= v < nb ==> #[trigger] counts@[v] == cnt_range(key, v, 0, i as int),
            decreases n - i,
        {
            let sv: usize = seeds[i] as usize;
            proof {
                assert(sv as int == key(i as int));
                lemma_cnt_bounds(key, sv as int, 0, i as int);
            }
            let cur: usize = counts.get_usize(sv);
            counts.set_usize(sv, cur + 1);
            proof {
                assert forall|v: int|
                    0 <= v < nb implies #[trigger] counts@[v] == cnt_range(
                    key,
                    v,
                    0,
                    i as int + 1,
                ) by {
                    assert(cnt_range(key, v, 0, i as int + 1) == cnt_range(key, v, 0, i as int)
                        + if key(i as int) == v {
                        1int
                    } else {
                        0int
                    });
                }
            }
            i = i + 1;
        }
        // inclusive prefix table: seed_to_idx[v] holds bucket start v
        let mut seed_to_idx = CompactVec::<BYTES>::new(nb + 1);
        seed_to_idx.set_usize(0, 0);
        let mut sum: usize = 0;
        let mut v: usize = 0;
        while v < nb
            invariant
                v <= nb,
                counts@.len() == nb,
                seed_to_idx@.len() == nb + 1,
                sum as int == bstart(key, ni, v as int),
                sum <= n,
                forall|v2: int|
                    0 <= v2 <= v ==> #[trigger] seed_to_idx@[v2] == bstart(key, ni, v2),
                forall|v2: int|
                    0 <= v2 < nb ==> #[trigger] counts@[v2] == cnt_range(key, v2, 0, ni),
            decreases nb - v,
        {
            let c: usize = counts.get_usize(v);
            proof {
                lemma_bstart_mono(key, ni, v as int + 1, nbi);
                assert(bstart(key, ni, v as int + 1) == bstart(key, ni, v as int) + cnt_range(
                    key,
                    v as int,
                    0,
                    ni,
                ));
                lemma_cnt_bounds(key, v as int, 0, ni);
            }
            sum = sum + c;
            seed_to_idx.set_usize(v + 1, sum);
            v = v + 1;
        }
        // scatter: each bucket fills in ascending position order because the
        // decremented count is subtracted from the bucket's exclusive end
        let mut sorted = CompactVec::<BYTES>::new(n);
        let mut i: usize = 0;
        while i < n
            invariant
                i <= n,
                sorted@.len() == n,
                counts@.len() == nb,
                seed_to_idx@.len() == nb + 1,
                forall|v2: int|
                    0 <= v2 <= nb ==> #[trigger] seed_to_idx@[v2] == bstart(key, ni, v2),
                forall|v2: int|
                    0 <= v2 < nb ==> #[trigger] counts@[v2] == cnt_range(key, v2, i as int, ni),
                forall|j: int|
                    0 <= j < i ==> 0 <= #[trigger] slot(key, ni, j) < n && sorted@[slot(
                        key,
                        ni,
                        j,
                    )] == j,
                forall|p: int| 0 <= p < n ==> #[trigger] sorted@[p] < n,
            decreases n - i,
        {
            let sv: usize = seeds[i] as usize;
            let endv: usize = seed_to_idx.get_usize(sv + 1);
            let cnt: usize = counts.get_usize(sv);
            proof {
                assert(sv as int == key(i as int));
                lemma_cnt_split(key, sv as int, i as int, i as int + 1, ni);
                assert(cnt_range(key, sv as int, i as int, i as int) == 0);
                assert(cnt_range(key, sv as int, i as int, i as int + 1) == 1);
                lemma_cnt_bounds(key, sv as int, i as int + 1, ni);
                assert(cnt >= 1);
                lemma_cnt_split(key, sv as int, 0, i as int, ni);
                assert(bstart(key, ni, sv as int + 1) == bstart(key, ni, sv as int) + cnt_range(
                    key,
                    sv as int,
                    0,
                    ni,
                ));
                assert(endv as int - cnt as int == slot(key, ni, i as int));
                lemma_slot_in_bucket(key, ni, i as int);
                lemma_bstart_mono(key, ni, 0, sv as int);
                lemma_bstart_mono(key, ni, sv as int + 1, nbi);
                assert(0 <= (endv as int) - (cnt as int) && (endv as int) - (cnt as int) < n);
            }
            let idx: usize = endv - cnt;
            sorted.set_usize(idx, i);
            counts.set_usize(sv, cnt - 1);
            proof {
                assert forall|j: int|
                    0 <= j < i + 1 implies 0 <= #[trigger] slot(key, ni, j) < n && sorted@[slot(
                    key,
                    ni,
                    j,
                )] == j by {
                    if j < i {
                        lemma_slot_inj(key, ni, j, i as int);
                    }
                }
                assert forall|v2: int|
                    0 <= v2 < nb implies #[trigger] counts@[v2] == cnt_range(
                    key,
                    v2,
                    i as int + 1,
                    ni,
                ) by {
                    lemma_cnt_split(key, v2, i as int, i as int + 1, ni);
                    assert(cnt_range(key, v2, i as int, i as int) == 0);
                    assert(cnt_range(key, v2, i as int, i as int + 1) == if key(i as int) == v2 {
                        1int
                    } else {
                        0int
                    });
                }
            }
            i = i + 1;
        }
        proof {
            lemma_scatter_perm(key, ni, sorted@, nbi);
        }
        // per-bucket sort
        let ghost m16 = (16 * CTX) as nat;
        let ghost sleq = seed_order(seeds@, m16);
        let mut v: usize = 0;
        while v < nb
            invariant
                v <= nb,
                sorted@.len() == n,
                seed_to_idx@.len() == nb + 1,
                forall|v2: int|
                    0 <= v2 <= nb ==> #[trigger] seed_to_idx@[v2] == bstart(key, ni, v2),
                sorted@.to_multiset() == ident_seq(n as nat).to_multiset(),
                forall|p: int| 0 <= p < n ==> #[trigger] sorted@[p] < n,
                forall|p: int|
                    0 <= p < n ==> bstart(key, ni, key(#[trigger] sorted@[p] as int)) <= p
                        < bstart(key, ni, key(sorted@[p] as int) + 1),
                forall|p1: int, p2: int|
                    0 <= p1 < p2 < bstart(key, ni, v as int) && key(sorted@[p1] as int) == key(
                        sorted@[p2] as int,
                    ) ==> #[trigger] sleq(sorted@[p1], sorted@[p2]),
            decreases nb - v,
        {
            let lo: usize = seed_to_idx.get_usize(v);
            let hi: usize = seed_to_idx.get_usize(v + 1);
            proof {
                lemma_bstart_mono(key, ni, v as int, v as int + 1);
                lemma_bstart_mono(key, ni, v as int + 1, nbi);
                assert(lo <= hi <= n);
            }
            let ghost s_pre = sorted@;
            let ghost seg0 = s_pre.subrange(lo as int, hi as int);
            proof {
                assert forall|x: usize| seg0.contains(x) implies x < n && key(x as int)
                    == v as int by {
                    let q = choose|q: int| 0 <= q < seg0.len() && seg0[q] == x;
                    assert(s_pre[lo + q] == x);
                    let w = key(x as int);
                    if w < v {
                        lemma_bstart_mono(key, ni, w + 1, v as int);
                    } else if w > v {
                        lemma_bstart_mono(key, ni, v as int + 1, w);
                    }
                }
            }
            let mut bucket: Vec<usize> = read_range(&sorted, lo, hi);
            proof {
                assert forall|q: int|
                    0 <= q < bucket@.len() implies #[trigger] bucket@[q] + 1 + 16 * CTX
                    <= seeds@.len() by {
                    assert(seg0.contains(bucket@[q]));
                }
            }
            sort_positions_seeds(seeds, &mut bucket, CTX);
            proof {
                broadcast use vstd::seq_lib::group_to_multiset_ensures;

                assert forall|q: int|
                    0 <= q < bucket@.len() implies #[trigger] bucket@[q] < n && key(
                    bucket@[q] as int,
                ) == v as int && bucket@[q] < slot_bound(BYTES as nat) by {
                    assert(bucket@.to_multiset().count(bucket@[q]) > 0);
                    assert(seg0.to_multiset().count(bucket@[q]) > 0);
                    assert(seg0.contains(bucket@[q]));
                }
            }
            write_range(&mut sorted, lo, &bucket);
            proof {
                assert(sorted@.subrange(lo as int, hi as int) =~= bucket@);
                assert(sorted@.subrange(0, lo as int) =~= s_pre.subrange(0, lo as int));
                assert(sorted@.subrange(hi as int, ni) =~= s_pre.subrange(hi as int, ni));
                lemma_replace_segment_multiset(s_pre, sorted@, lo as int, hi as int);
                assert forall|p: int| 0 <= p < n implies #[trigger] sorted@[p] < n by {
                    if lo <= p < hi {
                        assert(sorted@[p] == bucket@[p - lo]);
                    }
                }
                assert forall|p: int|
                    0 <= p < n implies bstart(key, ni, key(#[trigger] sorted@[p] as int)) <= p
                    < bstart(key, ni, key(sorted@[p] as int) + 1) by {
                    if lo <= p < hi {
                        assert(sorted@[p] == bucket@[p - lo]);
                        assert(key(sorted@[p] as int) == v as int);
                    } else {
                        assert(sorted@[p] == s_pre[p]);
                    }
                }
                assert forall|p1: int, p2: int|
                    0 <= p1 < p2 < bstart(key, ni, v as int + 1) && key(sorted@[p1] as int)
                        == key(sorted@[p2] as int) implies #[trigger] sleq(
                    sorted@[p1],
                    sorted@[p2],
                ) by {
                    if p2 < lo {
                        assert(sorted@[p1] == s_pre[p1] && sorted@[p2] == s_pre[p2]);
                    } else if p1 >= lo {
                        assert(sorted@[p1] == bucket@[p1 - lo] && sorted@[p2] == bucket@[p2
                            - lo]);
                        assert(seeds_leq(seeds@, m16)(bucket@[p1 - lo], bucket@[p2 - lo]));
                        assert(seeds@[sorted@[p1] as int] == seeds@[sorted@[p2] as int]);
                    } else {
                        assert(sorted@[p2] == bucket@[p2 - lo]);
                        assert(key(sorted@[p2] as int) == v as int);
                        assert(sorted@[p1] == s_pre[p1]);
                        assert(bstart(key, ni, key(sorted@[p1] as int)) <= p1);
                        assert(false);
                    }
                }
            }
            v = v + 1;
        }
        proof {
            assert forall|p1: int, p2: int| 0 <= p1 < p2 < n implies #[trigger] sleq(
                sorted@[p1],
                sorted@[p2],
            ) by {
                let x1 = sorted@[p1];
                let x2 = sorted@[p2];
                let v1 = key(x1 as int);
                let v2 = key(x2 as int);
                assert(bstart(key, ni, nbi) == ni);
                if v1 == v2 {
                    assert(p2 < bstart(key, ni, nbi));
                } else if v1 < v2 {
                    assert(seeds@[x1 as int] < seeds@[x2 as int]);
                } else {
                    lemma_bstart_mono(key, ni, v2 + 1, v1);
                    assert(false);
                }
            }
            assert(sorted_by(sorted@, sleq));
        }
        sorted
    }

    /// Diagnostic: histogram of the common-prefix lengths of adjacent pairs
    /// in the array, capped at `124 * CTX` symbols. It reads the array
    /// without changing it; the entries sum to one less than the array
    /// length.
    pub fn stats<const CTX: usize>(&self, bytes: &Vec<u8>) -> (cnt: Vec<usize>)
        requires
            1 <= CTX,
            124 * CTX < usize::MAX,
            forall|q: int|
                0 <= q < self.sa().len() ==> #[trigger] self.sa()[q] + 124 * CTX
                    <= bytes@.len(),
        ensures
            cnt@.len() == 124 * CTX + 1,
            forall|l: int|
                0 <= l < cnt@.len() ==> #[trigger] cnt@[l] == cnt_range(
                    adjacent_lcp_key(codes_of(bytes@), self.sa(), (124 * CTX) as nat),
                    l,
                    0,
                    self.sa().len() - 1,
                ),
            seq_sum(cnt@) == if self.sa().len() == 0 {
                0int
            } else {
                self.sa().len() - 1
            },
    {
        let ghost s = codes_of(bytes@);
        let ghost m_ghost = (124 * CTX) as nat;
        let ghost key = adjacent_lcp_key(s, self.sa(), m_ghost);
        let m: usize = 124 * CTX;
        let mut cnt: Vec<usize> = vec![0usize; m + 1];
        let len: usize = self.idxs.len();
        let ghost np = len as int - 1;
        if len == 0 {
            proof {
                assert forall|l: int|
                    0 <= l < cnt@.len() implies #[trigger] cnt@[l] == cnt_range(key, l, 0, np)
                    by {
                    lemma_cnt_bounds(key, l, 0, np);
                }
                lemma_sum_counts(cnt@, key, np);
                lemma_bstart_empty(key, np, cnt@.len() as int);
            }
            return cnt;
        }
        let mut x: usize = 0;
        while x < len - 1
            invariant
                x <= len - 1,
                len >= 1,
                len == self.sa().len(),
                cnt@.len() == m + 1,
                forall|l: int|
                    0 <= l < cnt@.len() ==> #[trigger] cnt@[l] == cnt_range(key, l, 0, x as int),
            decreases len - 1 - x,
        {
            let i: usize = self.idxs.get_usize(x);
            let j: usize = self.idxs.get_usize(x + 1);
            let l: usize = lcp_pair(bytes, i, j, m);
            proof {
                assert(l as int == key(x as int));
                lemma_cnt_bounds(key, l as int, 0, x as int);
            }
            let cur: usize = cnt[l];
            cnt.set(l, cur + 1);
            proof {
                assert forall|l2: int|
                    0 <= l2 < cnt@.len() implies #[trigger] cnt@[l2] == cnt_range(
                    key,
                    l2,
                    0,
                    x as int + 1,
                ) by {
                    assert(cnt_range(key, l2, 0, x as int + 1) == cnt_range(key, l2, 0, x as int)
                        + if key(x as int) == l2 {
                        1int
                    } else {
                        0int
                    });
                }
            }
            x = x + 1;
        }
        proof {
            lemma_sum_counts(cnt@, key, np);
            assert forall|p: int| 0 <= p < np implies 0 <= #[trigger] key(p) < cnt@.len() by {
                lemma_lcp_bounds(s, self.sa()[p] as int, self.sa()[p + 1] as int, m_ghost);
            }
            lemma_bstart_total(key, np, cnt@.len() as int);
        }
        cnt
    }

    /// Radix-free path: every valid start, sorted by the byte-window order.
    /// Bytes are compared through the four-letter encoding, as in the packed
    /// path, so a byte outside the alphabet collides with `A` here too; ties
    /// past the window carry no index tie-break, and equal-window positions
    /// keep ascending order only because the sort is stable.
    pub fn new_bytes<const CTX: usize>(bytes: &Vec<u8>) -> (r: Self)
        requires
            1 <= CTX,
            32 * CTX <= bytes@.len(),
            bytes@.len() < slot_bound(BYTES as nat),
        ensures
            r.k_spec() == 0,
            r.ctx_spec() == CTX,
            is_byte_suffix_array(codes_of(bytes@), (32 * CTX) as nat, r.sa()),
    {
        let idxs = Self::sort_bytes::<CTX>(bytes);
        SuffixArray { idxs, k: 0, ctx: CTX }
    }

    fn sort_bytes<const CTX: usize>(bytes: &Vec<u8>) -> (r: CompactVec<BYTES>)
        requires
            1 <= CTX,
            32 * CTX <= bytes@.len(),
            bytes@.len() < slot_bound(BYTES as nat),
        ensures
            is_byte_suffix_array(codes_of(bytes@), (32 * CTX) as nat, r@),
    {
        let blen: usize = bytes.len();
        let n: usize = blen - 32 * CTX;
        let mut arr: Vec<usize> = Vec::new();
        let mut i: usize = 0;
        while i < n
            invariant
                i <= n,
                arr@.len() == i,
                forall|q: int| 0 <= q < i ==> #[trigger] arr@[q] == q,
            decreases n - i,
        {
            arr.push(i);
            i = i + 1;
        }
        proof {
            assert(arr@ =~= ident_seq(n as nat));
        }
        sort_positions_bytes(bytes, &mut arr, CTX);
        proof {
            lemma_perm_range(arr@, n as nat);
        }
        vec_to_compact(&arr, Ghost(n as nat))
    }
}

/// The radix key of the packed construction: the k-mer at each position.
pub open spec fn kmer_key(s: Seq<u8>, k: nat) -> spec_fn(int) -> int {
    |j: int| kmer_spec(s, j, k)
}

/// End of the histogram chunk owned by worker `t`; the last chunk absorbs
/// the remainder.
pub open spec fn chunk_hi(cs: int, n: int, tt: int, t: int) -> int {
    if t == tt - 1 {
        n
    } else {
        (t + 1) * cs
    }
}

/// How much of the corpus the first `t` chunks cover.
pub open spec fn scan_upto(cs: int, n: int, tt: int, t: int) -> int {
    if t <= 0 {
        0
    } else {
        chunk_hi(cs, n, tt, t - 1)
    }
}

/// The chunk partition is a split of `[0, n)` into `tt` contiguous ranges.
proof fn lemma_chunks(cs: int, n: int, tt: int)
    requires
        tt >= 1,
        cs == n / tt,
        n >= 0,
    ensures
        scan_upto(cs, n, tt, 0) == 0,
        scan_upto(cs, n, tt, tt) == n,
        forall|t: int| 0 <= t < tt ==> #[trigger] scan_upto(cs, n, tt, t) == t * cs,
        forall|t: int|
            0 <= t < tt ==> #[trigger] scan_upto(cs, n, tt, t) <= scan_upto(cs, n, tt, t + 1)
                <= n,
{
    vstd::arithmetic::div_mod::lemma_fundamental_div_mod(n, tt);
    vstd::arithmetic::div_mod::lemma_mod_bound(n, tt);
    assert(tt * cs <= n);
    assert(cs >= 0) by (nonlinear_arith)
        requires
            tt >= 1,
            tt * cs <= n,
            n >= 0,
            cs == n / tt,
        ;
    assert forall|t: int| 0 <= t < tt implies #[trigger] scan_upto(cs, n, tt, t) == t * cs by {
        if t > 0 {
            assert(t - 1 != tt - 1);
        }
    }
    assert forall|t: int|
        0 <= t < tt implies #[trigger] scan_upto(cs, n, tt, t) <= scan_upto(cs, n, tt, t + 1)
        <= n by {
        assert(t * cs <= (t + 1) * cs && (t + 1) * cs <= tt * cs) by (nonlinear_arith)
            requires
                cs >= 0,
                0 <= t < tt,
        ;
    }
}

/// A flat table cell `t * nb + v` decomposes uniquely.
proof fn lemma_flat_decomp(t: int, v: int, nb: int)
    requires
        0 <= v < nb,
        0 <= t,
    ensures
        (t * nb + v) / nb == t,
        (t * nb + v) % nb == v,
{
    vstd::arithmetic::div_mod::lemma_fundamental_div_mod_converse(t * nb + v, nb, t, v);
}

/// A flat cell index lies in the row range of the table.
proof fn lemma_div_in_range(c: int, nbi: int, tti: int)
    requires
        nbi >= 1,
        0 <= c < tti * nbi,
    ensures
        0 <= c / nbi < tti,
        0 <= c % nbi < nbi,
{
    vstd::arithmetic::div_mod::lemma_fundamental_div_mod(c, nbi);
    vstd::arithmetic::div_mod::lemma_mod_bound(c, nbi);
    assert(0 <= c / nbi < tti) by (nonlinear_arith)
        requires
            nbi >= 1,
            c == nbi * (c / nbi) + c % nbi,
            0 <= c % nbi < nbi,
            0 <= c < tti * nbi,
    ;
}

/// Context shared by the radix phases of the packed construction.
pub open spec fn radix_ctx(s: Seq<u8>, k: nat, n: int, tt: int, cs: int, nb: int) -> bool {
    &&& k <= 16
    &&& 0 <= n
    &&& n + 16 <= s.len()
    &&& 1 <= tt
    &&& cs == n / tt
    &&& nb == pow4(k)
    &&& forall|i: int| 0 <= i < s.len() ==> s[i] < 4
}

/// Every position's k-mer is a valid bucket.
proof fn lemma_key_bounds(s: Seq<u8>, k: nat, n: int)
    requires
        k <= 16,
        n + 16 <= s.len(),
        forall|i: int| 0 <= i < s.len() ==> s[i] < 4,
    ensures
        forall|j: int| 0 <= j < n ==> 0 <= #[trigger] kmer_key(s, k)(j) < pow4(k),
{
    assert forall|j: int| 0 <= j < n implies 0 <= #[trigger] kmer_key(s, k)(j) < pow4(k) by {
        crate::kmer::lemma_kmer_bound(s, j, k);
    }
}

/// Histogram phase: count each chunk's k-mers into that worker's row of a
/// flat table.
fn histogram<const BYTES: usize>(
    packed: &RevPacked,
    k: usize,
    n: usize,
    tt: usize,
    cs: usize,
    nb: usize,
) -> (counts: CompactVec<BYTES>)
    requires
        packed.wf(),
        radix_ctx(packed@, k as nat, n as int, tt as int, cs as int, nb as int),
        tt * nb <= usize::MAX,
        n < slot_bound(BYTES as nat),
    ensures
        counts@.len() == tt * nb,
        forall|c: int|
            0 <= c < tt * nb ==> #[trigger] counts@[c] == cnt_range(
                kmer_key(packed@, k as nat),
                c % (nb as int),
                scan_upto(cs as int, n as int, tt as int, c / (nb as int)),
                scan_upto(cs as int, n as int, tt as int, c / (nb as int) + 1),
            ),
{
    let ghost s = packed@;
    let ghost key = kmer_key(s, k as nat);
    let ghost csi = cs as int;
    let ghost ni = n as int;
    let ghost tti = tt as int;
    let ghost nbi = nb as int;
    proof {
        lemma_chunks(csi, ni, tti);
        lemma_key_bounds(s, k as nat, ni);
        packed.lemma_wf_len();
        lemma_pow4_pos(k as nat);
    }
    let tbl: usize = tt * nb;
    let mut counts = CompactVec::<BYTES>::new(tbl);
    let mut t: usize = 0;
    while t < tt
        invariant
            t <= tt,
            counts@.len() == tbl,
            forall|c: int|
                0 <= c < t * nbi ==> #[trigger] counts@[c] == cnt_range(
                    key,
                    c % nbi,
                    scan_upto(csi, ni, tti, c / nbi),
                    scan_upto(csi, ni, tti, c / nbi + 1),
                ),
            forall|c: int| t * nbi <= c < tbl ==> #[trigger] counts@[c] == 0,
        decreases tt - t,
    {
        proof {
            assert((t as int) * nbi <= (t as int + 1) * nbi <= tti * nbi && (t as int + 1) * nbi
                == t as int * nbi + nbi) by (nonlinear_arith)
                requires
                    0 <= t < tti,
                    nbi >= 1,
            ;
        }
        proof {
            assert(scan_upto(csi, ni, tti, t as int) == (t as int) * csi);
            assert(scan_upto(csi, ni, tti, t as int) <= scan_upto(csi, ni, tti, t as int + 1)
                <= ni);
            if t as int + 1 < tti {
                assert(scan_upto(csi, ni, tti, t as int + 1) == (t as int + 1) * csi);
            }
        }
        let lo: usize = t * cs;
        let hi: usize = if t == tt - 1 {
            n
        } else {
            (t + 1) * cs
        };
        proof {
            assert(lo as int == scan_upto(csi, ni, tti, t as int));
            assert(hi as int == scan_upto(csi, ni, tti, t as int + 1));
        }
        proof {
            assert forall|c: int|
                t * nbi <= c < t * nbi + nbi implies #[trigger] counts@[c] == cnt_range(
                key,
                c - t * nbi,
                lo as int,
                lo as int,
            ) by {
                assert(cnt_range(key, c - t * nbi, lo as int, lo as int) == 0);
                assert(counts@[c] == 0);
            }
        }
        let mut i: usize = lo;
        while i < hi
            invariant
                lo <= i <= hi,
                counts@.len() == tbl,
                forall|c: int|
                    0 <= c < t * nbi ==> #[trigger] counts@[c] == cnt_range(
                        key,
                        c % nbi,
                        scan_upto(csi, ni, tti, c / nbi),
                        scan_upto(csi, ni, tti, c / nbi + 1),
                    ),
                forall|c: int|
                    t * nbi <= c < t * nbi + nbi ==> #[trigger] counts@[c] == cnt_range(
                        key,
                        c - t * nbi,
                        lo as int,
                        i as int,
                    ),
                forall|c: int| t * nbi + nbi <= c < tbl ==> #[trigger] counts@[c] == 0,
            decreases hi - i,
        {
            let km: usize = packed.load_k(i, k) as usize;
            proof {
                assert(km as int == key(i as int));
            }
            let idx: usize = t * nb + km;
            let cur: usize = counts.get_usize(idx);
            proof {
                lemma_cnt_bounds(key, km as int, lo as int, i as int);
            }
            counts.set_usize(idx, cur + 1);
            proof {
                assert forall|c: int|
                    t * nbi <= c < t * nbi + nbi implies #[trigger] counts@[c] == cnt_range(
                    key,
                    c - t * nbi,
                    lo as int,
                    i as int + 1,
                ) by {
                    assert(cnt_range(key, c - t * nbi, lo as int, i as int + 1) == cnt_range(
                        key,
                        c - t * nbi,
                        lo as int,
                        i as int,
                    ) + if key(i as int) == c - t * nbi {
                        1int
                    } else {
                        0int
                    });
                }
            }
            i = i + 1;
        }
        t = t + 1;
        proof {
            assert forall|c: int|
                0 <= c < t * nbi implies #[trigger] counts@[c] == cnt_range(
                key,
                c % nbi,
                scan_upto(csi, ni, tti, c / nbi),
                scan_upto(csi, ni, tti, c / nbi + 1),
            ) by {
                assert((t as int - 1) * nbi == t as int * nbi - nbi) by (nonlinear_arith);
                if c >= (t - 1) * nbi {
                    lemma_flat_decomp(t - 1, c - (t - 1) * nbi, nbi);
                    assert(c / nbi == t - 1 && c % nbi == c - (t - 1) * nbi);
                }
            }
        }
    }
    proof {
        assert((tt as int) * nbi == tbl);
    }
    counts
}

/// Prefix-sum phase (serial): walk bucket-major, thread-minor, replacing
/// each per-chunk count by the running exclusive offset.
fn prefix_sums<const BYTES: usize>(
    counts: &mut CompactVec<BYTES>,
    Ghost(key): Ghost<spec_fn(int) -> int>,
    n: usize,
    tt: usize,
    cs: usize,
    nb: usize,
)
    requires
        old(counts)@.len() == tt * nb,
        1 <= tt,
        1 <= nb,
        cs as int == n as int / tt as int,
        tt * nb <= usize::MAX,
        n < slot_bound(BYTES as nat),
        forall|j: int| 0 <= j < n ==> 0 <= #[trigger] key(j) < nb,
        forall|c: int|
            0 <= c < tt * nb ==> #[trigger] old(counts)@[c] == cnt_range(
                key,
                c % (nb as int),
                scan_upto(cs as int, n as int, tt as int, c / (nb as int)),
                scan_upto(cs as int, n as int, tt as int, c / (nb as int) + 1),
            ),
    ensures
        final(counts)@.len() == tt * nb,
        forall|c: int|
            0 <= c < tt * nb ==> #[trigger] final(counts)@[c] == bstart(
                key,
                n as int,
                c % (nb as int),
            ) + cnt_range(
                key,
                c % (nb as int),
                0,
                scan_upto(cs as int, n as int, tt as int, c / (nb as int)),
            ),
{
    let ghost csi = cs as int;
    let ghost ni = n as int;
    let ghost tti = tt as int;
    let ghost nbi = nb as int;
    let ghost tbl = tti * nbi;
    proof {
        lemma_chunks(csi, ni, tti);
        lemma_bstart_total(key, ni, nbi);
    }
    let mut sum: usize = 0;
    let mut v: usize = 0;
    while v < nb
        invariant
            v <= nb,
            counts@.len() == tbl,
            sum as int == bstart(key, ni, v as int),
            sum <= n,
            forall|c: int|
                0 <= c < tbl && c % nbi < v ==> #[trigger] counts@[c] == bstart(key, ni, c % nbi)
                    + cnt_range(key, c % nbi, 0, scan_upto(csi, ni, tti, c / nbi)),
            forall|c: int|
                0 <= c < tbl && c % nbi >= v ==> #[trigger] counts@[c] == cnt_range(
                    key,
                    c % nbi,
                    scan_upto(csi, ni, tti, c / nbi),
                    scan_upto(csi, ni, tti, c / nbi + 1),
                ),
        decreases nb - v,
    {
        let mut t: usize = 0;
        while t < tt
            invariant
                t <= tt,
                v < nb,
                counts@.len() == tbl,
                sum as int == bstart(key, ni, v as int) + cnt_range(
                    key,
                    v as int,
                    0,
                    scan_upto(csi, ni, tti, t as int),
                ),
                sum <= n,
                forall|c: int|
                    0 <= c < tbl && c % nbi < v ==> #[trigger] counts@[c] == bstart(
                        key,
                        ni,
                        c % nbi,
                    ) + cnt_range(key, c % nbi, 0, scan_upto(csi, ni, tti, c / nbi)),
                forall|c: int|
                    0 <= c < tbl && c % nbi == v && c / nbi < t ==> #[trigger] counts@[c]
                        == bstart(key, ni, c % nbi) + cnt_range(
                        key,
                        c % nbi,
                        0,
                        scan_upto(csi, ni, tti, c / nbi),
                    ),
                forall|c: int|
                    0 <= c < tbl && c % nbi == v && c / nbi >= t ==> #[trigger] counts@[c]
                        == cnt_range(
                        key,
                        c % nbi,
                        scan_upto(csi, ni, tti, c / nbi),
                        scan_upto(csi, ni, tti, c / nbi + 1),
                    ),
                forall|c: int|
                    0 <= c < tbl && c % nbi > v ==> #[trigger] counts@[c] == cnt_range(
                        key,
                        c % nbi,
                        scan_upto(csi, ni, tti, c / nbi),
                        scan_upto(csi, ni, tti, c / nbi + 1),
                    ),
            decreases tt - t,
        {
            proof {
                assert((t as int) * nbi + nbi <= tti * nbi && (t as int + 1) * nbi == t as int
                    * nbi + nbi) by (nonlinear_arith)
                    requires
                        0 <= t < tti,
                        nbi >= 1,
                ;
                lemma_flat_decomp(t as int, v as int, nbi);
            }
            let idx: usize = t * nb + v;
            let cur: usize = counts.get_usize(idx);
            let ghost c0 = idx as int;
            proof {
                assert(counts@[c0] == cnt_range(
                    key,
                    v as int,
                    scan_upto(csi, ni, tti, t as int),
                    scan_upto(csi, ni, tti, t as int + 1),
                ));
                lemma_cnt_split(
                    key,
                    v as int,
                    0,
                    scan_upto(csi, ni, tti, t as int),
                    scan_upto(csi, ni, tti, t as int + 1),
                );
                // the running total never leaves [0, n]
                lemma_cnt_split(key, v as int, 0, scan_upto(csi, ni, tti, t as int + 1), ni);
                lemma_cnt_bounds(
                    key,
                    v as int,
                    scan_upto(csi, ni, tti, t as int + 1),
                    ni,
                );
                lemma_cnt_bounds(key, v as int, 0, scan_upto(csi, ni, tti, t as int + 1));
                lemma_bstart_mono(key, ni, v as int + 1, nbi);
                assert(bstart(key, ni, v as int + 1) == bstart(key, ni, v as int) + cnt_range(
                    key,
                    v as int,
                    0,
                    ni,
                ));
            }
            let ghost sum0 = sum as int;
            counts.set_usize(idx, sum);
            sum = sum + cur;
            proof {
                assert(c0 / nbi == t as int && c0 % nbi == v as int);
                assert forall|c: int|
                    0 <= c < tbl && c % nbi < v implies #[trigger] counts@[c] == bstart(
                    key,
                    ni,
                    c % nbi,
                ) + cnt_range(key, c % nbi, 0, scan_upto(csi, ni, tti, c / nbi)) by {
                    if c == c0 {
                        assert(c % nbi == v as int);
                    }
                }
                assert forall|c: int|
                    0 <= c < tbl && c % nbi == v && c / nbi < t as int + 1 implies #[trigger]
                counts@[c] == bstart(key, ni, c % nbi) + cnt_range(
                    key,
                    c % nbi,
                    0,
                    scan_upto(csi, ni, tti, c / nbi),
                ) by {
                    vstd::arithmetic::div_mod::lemma_fundamental_div_mod(c, nbi);
                    if c / nbi == t as int {
                        assert(c == nbi * (c / nbi) + c % nbi);
                        assert(c == nbi * (t as int) + v as int);
                        assert(nbi * (t as int) == (t as int) * nbi) by (nonlinear_arith);
                        assert(c0 == t as int * nbi + v as int);
                        assert(c == c0);
                        assert(counts@[c0] == sum0);
                    } else {
                        assert(c != c0);
                    }
                }
                assert forall|c: int|
                    0 <= c < tbl && c % nbi == v && c / nbi >= t as int + 1 implies #[trigger]
                counts@[c] == cnt_range(
                    key,
                    c % nbi,
                    scan_upto(csi, ni, tti, c / nbi),
                    scan_upto(csi, ni, tti, c / nbi + 1),
                ) by {
                    if c == c0 {
                        assert(c / nbi == t as int);
                    }
                }
                assert forall|c: int|
                    0 <= c < tbl && c % nbi > v implies #[trigger] counts@[c] == cnt_range(
                    key,
                    c % nbi,
                    scan_upto(csi, ni, tti, c / nbi),
                    scan_upto(csi, ni, tti, c / nbi + 1),
                ) by {
                    if c == c0 {
                        assert(c % nbi == v as int);
                    }
                }
            }
            t = t + 1;
        }
        proof {
            assert(scan_upto(csi, ni, tti, tti) == ni);
            assert(bstart(key, ni, v as int + 1) == bstart(key, ni, v as int) + cnt_range(
                key,
                v as int,
                0,
                ni,
            ));
            assert forall|c: int|
                0 <= c < tbl && c % nbi == v implies #[trigger] counts@[c] == bstart(
                key,
                ni,
                c % nbi,
            ) + cnt_range(key, c % nbi, 0, scan_upto(csi, ni, tti, c / nbi)) by {
                lemma_div_in_range(c, nbi, tti);
            }
        }
        v = v + 1;
    }
}

/// Scatter phase: re-scan the chunks in order, writing each position into
/// its bucket slot and bumping the offset; afterwards the last worker's row
/// holds each bucket's exclusive end.
#[verifier::rlimit(60)]
fn scatter<const BYTES: usize>(
    packed: &RevPacked,
    counts: &mut CompactVec<BYTES>,
    k: usize,
    n: usize,
    tt: usize,
    cs: usize,
    nb: usize,
) -> (sorted: CompactVec<BYTES>)
    requires
        packed.wf(),
        radix_ctx(packed@, k as nat, n as int, tt as int, cs as int, nb as int),
        tt * nb <= usize::MAX,
        n < slot_bound(BYTES as nat),
        old(counts)@.len() == tt * nb,
        forall|c: int|
            0 <= c < tt * nb ==> #[trigger] old(counts)@[c] == bstart(
                kmer_key(packed@, k as nat),
                n as int,
                c % (nb as int),
            ) + cnt_range(
                kmer_key(packed@, k as nat),
                c % (nb as int),
                0,
                scan_upto(cs as int, n as int, tt as int, c / (nb as int)),
            ),
    ensures
        sorted@.len() == n,
        forall|j: int|
            0 <= j < n ==> 0 <= #[trigger] slot(kmer_key(packed@, k as nat), n as int, j) < n
                && sorted@[slot(kmer_key(packed@, k as nat), n as int, j)] == j,
        forall|p: int| 0 <= p < n ==> #[trigger] sorted@[p] < n,
        final(counts)@.len() == tt * nb,
        forall|c: int|
            (tt as int - 1) * (nb as int) <= c < tt * nb ==> #[trigger] final(counts)@[c]
                == bstart(
                kmer_key(packed@, k as nat),
                n as int,
                c - (tt as int - 1) * (nb as int) + 1,
            ),
{
    let ghost s = packed@;
    let ghost key = kmer_key(s, k as nat);
    let ghost csi = cs as int;
    let ghost ni = n as int;
    let ghost tti = tt as int;
    let ghost nbi = nb as int;
    let ghost tbl = tti * nbi;
    proof {
        lemma_chunks(csi, ni, tti);
        lemma_key_bounds(s, k as nat, ni);
        lemma_bstart_total(key, ni, nbi);
        packed.lemma_wf_len();
        lemma_pow4_pos(k as nat);
    }
    let mut sorted = CompactVec::<BYTES>::new(n);
    let mut t: usize = 0;
    while t < tt
        invariant
            t <= tt,
            counts@.len() == tbl,
            sorted@.len() == n,
            forall|c: int|
                0 <= c < tbl && c / nbi >= t ==> #[trigger] counts@[c] == bstart(key, ni, c % nbi)
                    + cnt_range(key, c % nbi, 0, scan_upto(csi, ni, tti, c / nbi)),
            forall|c: int|
                0 <= c < tbl && c / nbi < t ==> #[trigger] counts@[c] == bstart(key, ni, c % nbi)
                    + cnt_range(key, c % nbi, 0, scan_upto(csi, ni, tti, c / nbi + 1)),
            forall|j: int|
                0 <= j < scan_upto(csi, ni, tti, t as int) ==> 0 <= #[trigger] slot(key, ni, j)
                    < ni && sorted@[slot(key, ni, j)] == j,
            forall|p: int| 0 <= p < n ==> #[trigger] sorted@[p] < n,
        decreases tt - t,
    {
        proof {
            assert((t as int) * nbi <= (t as int + 1) * nbi <= tti * nbi && (t as int + 1) * nbi
                == t as int * nbi + nbi) by (nonlinear_arith)
                requires
                    0 <= t < tti,
                    nbi >= 1,
            ;
            assert(scan_upto(csi, ni, tti, t as int) == (t as int) * csi);
            assert(scan_upto(csi, ni, tti, t as int) <= scan_upto(csi, ni, tti, t as int + 1)
                <= ni);
            if t as int + 1 < tti {
                assert(scan_upto(csi, ni, tti, t as int + 1) == (t as int + 1) * csi);
            }
        }
        let lo: usize = t * cs;
        let hi: usize = if t == tt - 1 {
            n
        } else {
            (t + 1) * cs
        };
        proof {
            assert(lo as int == scan_upto(csi, ni, tti, t as int));
            assert(hi as int == scan_upto(csi, ni, tti, t as int + 1));
            assert forall|c: int|
                0 <= c < t * nbi implies #[trigger] counts@[c] == bstart(key, ni, c % nbi)
                + cnt_range(key, c % nbi, 0, scan_upto(csi, ni, tti, c / nbi + 1)) by {
                vstd::arithmetic::div_mod::lemma_fundamental_div_mod(c, nbi);
                vstd::arithmetic::div_mod::lemma_mod_bound(c, nbi);
                assert(c / nbi < t as int) by (nonlinear_arith)
                    requires
                        nbi >= 1,
                        c == nbi * (c / nbi) + c % nbi,
                        0 <= c % nbi < nbi,
                        c < t as int * nbi,
                ;
            }
            assert forall|c: int|
                t * nbi <= c < t * nbi + nbi implies #[trigger] counts@[c] == bstart(
                key,
                ni,
                c - t * nbi,
            ) + cnt_range(key, c - t * nbi, 0, lo as int) by {
                lemma_flat_decomp(t as int, c - t as int * nbi, nbi);
            }
            assert forall|c: int|
                t * nbi + nbi <= c < tbl implies #[trigger] counts@[c] == bstart(key, ni, c % nbi)
                + cnt_range(key, c % nbi, 0, scan_upto(csi, ni, tti, c / nbi)) by {
                vstd::arithmetic::div_mod::lemma_fundamental_div_mod(c, nbi);
                vstd::arithmetic::div_mod::lemma_mod_bound(c, nbi);
                assert(c / nbi >= t as int) by (nonlinear_arith)
                    requires
                        nbi >= 1,
                        c == nbi * (c / nbi) + c % nbi,
                        0 <= c % nbi < nbi,
                        c >= t as int * nbi + nbi,
                ;
            }
        }
        let mut i: usize = lo;
        while i < hi
            invariant
                lo <= i <= hi,
                counts@.len() == tbl,
                sorted@.len() == n,
                forall|c: int|
                    0 <= c < t * nbi ==> #[trigger] counts@[c] == bstart(key, ni, c % nbi)
                        + cnt_range(key, c % nbi, 0, scan_upto(csi, ni, tti, c / nbi + 1)),
                forall|c: int|
                    t * nbi <= c < t * nbi + nbi ==> #[trigger] counts@[c] == bstart(
                        key,
                        ni,
                        c - t * nbi,
                    ) + cnt_range(key, c - t * nbi, 0, i as int),
                forall|c: int|
                    t * nbi + nbi <= c < tbl ==> #[trigger] counts@[c] == bstart(key, ni, c % nbi)
                        + cnt_range(key, c % nbi, 0, scan_upto(csi, ni, tti, c / nbi)),
                forall|j: int|
                    0 <= j < i ==> 0 <= #[trigger] slot(key, ni, j) < ni && sorted@[slot(
                        key,
                        ni,
                        j,
                    )] == j,
                forall|p: int| 0 <= p < n ==> #[trigger] sorted@[p] < n,
            decreases hi - i,
        {
            let km: usize = packed.load_k(i, k) as usize;
            proof {
                assert(km as int == key(i as int));
            }
            let cell: usize = t * nb + km;
            let idx: usize = counts.get_usize(cell);
            proof {
                lemma_slot_in_bucket(key, ni, i as int);
                lemma_bstart_mono(key, ni, km as int + 1, nbi);
                assert(idx as int == slot(key, ni, i as int));
                assert(idx < n);
            }
            sorted.set_usize(idx, i);
            counts.set_usize(cell, idx + 1);
            proof {
                assert forall|j: int|
                    0 <= j < i + 1 implies 0 <= #[trigger] slot(key, ni, j) < ni && sorted@[slot(
                    key,
                    ni,
                    j,
                )] == j by {
                    if j < i {
                        lemma_slot_inj(key, ni, j, i as int);
                    }
                }
                assert forall|c: int|
                    t * nbi <= c < t * nbi + nbi implies #[trigger] counts@[c] == bstart(
                    key,
                    ni,
                    c - t * nbi,
                ) + cnt_range(key, c - t * nbi, 0, i as int + 1) by {
                    assert(cnt_range(key, c - t * nbi, 0, i as int + 1) == cnt_range(
                        key,
                        c - t * nbi,
                        0,
                        i as int,
                    ) + if key(i as int) == c - t * nbi {
                        1int
                    } else {
                        0int
                    });
                }
            }
            i = i + 1;
        }
        t = t + 1;
        proof {
            assert forall|c: int|
                0 <= c < tbl && c / nbi < t implies #[trigger] counts@[c] == bstart(
                key,
                ni,
                c % nbi,
            ) + cnt_range(key, c % nbi, 0, scan_upto(csi, ni, tti, c / nbi + 1)) by {
                vstd::arithmetic::div_mod::lemma_fundamental_div_mod(c, nbi);
                vstd::arithmetic::div_mod::lemma_mod_bound(c, nbi);
                assert(c < t as int * nbi) by (nonlinear_arith)
                    requires
                        nbi >= 1,
                        c == nbi * (c / nbi) + c % nbi,
                        0 <= c % nbi < nbi,
                        c / nbi < t as int,
                ;
                if c >= (t - 1) * nbi {
                    assert((t as int - 1) * nbi == t as int * nbi - nbi) by (nonlinear_arith);
                    lemma_flat_decomp(t - 1, c - (t - 1) * nbi, nbi);
                }
            }
            assert forall|c: int|
                0 <= c < tbl && c / nbi >= t implies #[trigger] counts@[c] == bstart(
                key,
                ni,
                c % nbi,
            ) + cnt_range(key, c % nbi, 0, scan_upto(csi, ni, tti, c / nbi)) by {
                vstd::arithmetic::div_mod::lemma_fundamental_div_mod(c, nbi);
                vstd::arithmetic::div_mod::lemma_mod_bound(c, nbi);
                assert(c >= (t as int - 1) * nbi + nbi) by (nonlinear_arith)
                    requires
                        nbi >= 1,
                        c == nbi * (c / nbi) + c % nbi,
                        0 <= c % nbi < nbi,
                        c / nbi >= t as int,
                ;
            }
        }
    }
    proof {
        assert(scan_upto(csi, ni, tti, tti) == ni);
        assert forall|c: int|
            (tt as int - 1) * nbi <= c < tbl implies #[trigger] counts@[c] == bstart(
            key,
            ni,
            c - (tt as int - 1) * nbi + 1,
        ) by {
            assert((tt as int - 1) * nbi == tt as int * nbi - nbi) by (nonlinear_arith);
            let v = c - (tt as int - 1) * nbi;
            lemma_flat_decomp(tt as int - 1, v, nbi);
            assert(counts@[c] == bstart(key, ni, v) + cnt_range(key, v, 0, ni));
        }
    }
    sorted
}

/// Per-bucket sort phase: each k-mer bucket is a contiguous range of the
/// scattered array; sorting every bucket by the window comparator yields the
/// globally sorted permutation, because distinct k-mers already order whole
/// buckets.
fn bucket_sorts<const BYTES: usize>(
    packed: &RevPacked,
    sorted: &mut CompactVec<BYTES>,
    counts: &CompactVec<BYTES>,
    k: usize,
    n: usize,
    tt: usize,
    nb: usize,
    ctx: usize,
)
    requires
        packed.wf(),
        1 <= ctx,
        k <= 16,
        n as int + 124 * ctx == packed@.len(),
        forall|i: int| 0 <= i < packed@.len() ==> packed@[i] < 4,
        nb == pow4(k as nat),
        1 <= tt,
        tt * nb <= usize::MAX,
        counts@.len() == tt * nb,
        n < slot_bound(BYTES as nat),
        old(sorted)@.len() == n,
        old(sorted)@.to_multiset() == ident_seq(n as nat).to_multiset(),
        forall|p: int| 0 <= p < n ==> #[trigger] old(sorted)@[p] < n,
        forall|p: int|
            0 <= p < n ==> bstart(
                kmer_key(packed@, k as nat),
                n as int,
                kmer_key(packed@, k as nat)(#[trigger] old(sorted)@[p] as int),
            ) <= p < bstart(
                kmer_key(packed@, k as nat),
                n as int,
                kmer_key(packed@, k as nat)(old(sorted)@[p] as int) + 1,
            ),
        forall|c: int|
            (tt as int - 1) * (nb as int) <= c < tt * nb ==> #[trigger] counts@[c] == bstart(
                kmer_key(packed@, k as nat),
                n as int,
                c - (tt as int - 1) * (nb as int) + 1,
            ),
    ensures
        final(sorted)@.len() == n,
        final(sorted)@.to_multiset() == ident_seq(n as nat).to_multiset(),
        sorted_by(final(sorted)@, suffix_leq(packed@, (124 * ctx) as nat)),
{
    let ghost s = packed@;
    let ghost key = kmer_key(s, k as nat);
    let ghost ni = n as int;
    let ghost nbi = nb as int;
    let ghost m = (124 * ctx) as nat;
    let ghost leq = suffix_leq(s, m);
    proof {
        broadcast use vstd::seq_lib::group_to_multiset_ensures;

        lemma_pow4_pos(k as nat);
        lemma_key_bounds(s, k as nat, ni);
        lemma_bstart_total(key, ni, nbi);
        packed.lemma_wf_len();
        assert((tt as int - 1) * nbi <= tt as int * nbi && (tt as int - 1) * nbi == tt as int
            * nbi - nbi) by (nonlinear_arith)
            requires
                1 <= tt,
                nbi >= 1,
        ;
    }
    let base: usize = (tt - 1) * nb;
    let mut v: usize = 0;
    while v < nb
        invariant
            v <= nb,
            sorted@.len() == n,
            sorted@.to_multiset() == ident_seq(n as nat).to_multiset(),
            forall|p: int| 0 <= p < n ==> #[trigger] sorted@[p] < n,
            forall|p: int|
                0 <= p < n ==> bstart(key, ni, key(#[trigger] sorted@[p] as int)) <= p < bstart(
                    key,
                    ni,
                    key(sorted@[p] as int) + 1,
                ),
            forall|p1: int, p2: int|
                0 <= p1 < p2 < bstart(key, ni, v as int) && key(sorted@[p1] as int) == key(
                    sorted@[p2] as int,
                ) ==> #[trigger] leq(sorted@[p1], sorted@[p2]),
        decreases nb - v,
    {
        let lo: usize = if v == 0 {
            0
        } else {
            counts.get_usize(base + v - 1)
        };
        let hi: usize = counts.get_usize(base + v);
        proof {
            assert(counts@[base + v] == bstart(key, ni, v as int + 1));
            if v > 0 {
                assert(counts@[base + v - 1] == bstart(key, ni, v as int));
            }
            assert(lo as int == bstart(key, ni, v as int));
            assert(hi as int == bstart(key, ni, v as int + 1));
            lemma_bstart_mono(key, ni, v as int, v as int + 1);
            lemma_bstart_mono(key, ni, v as int + 1, nbi);
            assert(lo <= hi <= n);
        }
        let ghost s_pre = sorted@;
        let ghost seg0 = s_pre.subrange(lo as int, hi as int);
        proof {
            assert forall|x: usize| seg0.contains(x) implies x < n && key(x as int) == v as int by {
                let q = choose|q: int| 0 <= q < seg0.len() && seg0[q] == x;
                assert(s_pre[lo + q] == x);
                let w = key(x as int);
                if w < v {
                    lemma_bstart_mono(key, ni, w + 1, v as int);
                } else if w > v {
                    lemma_bstart_mono(key, ni, v as int + 1, w);
                }
            }
        }
        let mut bucket: Vec<usize> = read_range(sorted, lo, hi);
        proof {
            assert forall|q: int|
                0 <= q < bucket@.len() implies #[trigger] bucket@[q] + 124 * ctx <= s.len() by {
                assert(seg0.contains(bucket@[q]));
            }
        }
        // For small windows the cached-key strategy is used, as materializing
        // the keys is cheaper than re-loading the corpus per comparison; both
        // strategies realize the same strict order, so the result is the same.
        if ctx <= 4 {
            sort_bucket_keyed(packed, &mut bucket, ctx);
        } else {
            sort_positions_packed(packed, &mut bucket, ctx);
        }
        proof {
            assert forall|q: int|
                0 <= q < bucket@.len() implies #[trigger] bucket@[q] < n && key(
                bucket@[q] as int,
            ) == v as int && bucket@[q] < slot_bound(BYTES as nat) by {
                assert(bucket@.to_multiset().count(bucket@[q]) > 0);
                assert(seg0.to_multiset().count(bucket@[q]) > 0);
                assert(seg0.contains(bucket@[q]));
            }
        }
        write_range(sorted, lo, &bucket);
        proof {
            assert(sorted@.subrange(lo as int, hi as int) =~= bucket@);
            assert(sorted@.subrange(0, lo as int) =~= s_pre.subrange(0, lo as int));
            assert(sorted@.subrange(hi as int, ni) =~= s_pre.subrange(hi as int, ni));
            lemma_replace_segment_multiset(s_pre, sorted@, lo as int, hi as int);
            assert forall|p: int| 0 <= p < n implies #[trigger] sorted@[p] < n by {
                if lo <= p < hi {
                    assert(sorted@[p] == bucket@[p - lo]);
                }
            }
            assert forall|p: int|
                0 <= p < n implies bstart(key, ni, key(#[trigger] sorted@[p] as int)) <= p
                < bstart(key, ni, key(sorted@[p] as int) + 1) by {
                if lo <= p < hi {
                    assert(sorted@[p] == bucket@[p - lo]);
                    assert(key(sorted@[p] as int) == v as int);
                } else {
                    assert(sorted@[p] == s_pre[p]);
                }
            }
            assert forall|p1: int, p2: int|
                0 <= p1 < p2 < bstart(key, ni, v as int + 1) && key(sorted@[p1] as int) == key(
                    sorted@[p2] as int,
                ) implies #[trigger] leq(sorted@[p1], sorted@[p2]) by {
                if p2 < lo {
                    assert(sorted@[p1] == s_pre[p1] && sorted@[p2] == s_pre[p2]);
                } else if p1 >= lo {
                    assert(sorted@[p1] == bucket@[p1 - lo] && sorted@[p2] == bucket@[p2 - lo]);
                    assert(leq(bucket@[p1 - lo], bucket@[p2 - lo]));
                } else {
                    assert(sorted@[p2] == bucket@[p2 - lo]);
                    assert(key(sorted@[p2] as int) == v as int);
                    assert(sorted@[p1] == s_pre[p1]);
                    assert(bstart(key, ni, key(sorted@[p1] as int)) <= p1);
                    assert(false);
                }
            }
        }
        v = v + 1;
    }
    proof {
        assert forall|p1: int, p2: int| 0 <= p1 < p2 < n implies #[trigger] leq(
            sorted@[p1],
            sorted@[p2],
        ) by {
            let x1 = sorted@[p1];
            let x2 = sorted@[p2];
            let v1 = key(x1 as int);
            let v2 = key(x2 as int);
            assert(bstart(key, ni, nbi) == ni);
            if v1 == v2 {
                assert(p2 < bstart(key, ni, nb as int));
            } else {
                assert(k >= 1) by {
                    if k == 0 {
                        assert(v1 == 0 && v2 == 0);
                    }
                }
                if v1 < v2 {
                    lemma_kmer_orders_windows(s, x1 as int, x2 as int, k as nat, m);
                } else {
                    lemma_bstart_mono(key, ni, v2 + 1, v1);
                    assert(false);
                }
            }
        }
        assert(sorted_by(sorted@, leq));
    }
}

/// Length of the common prefix of two suffixes, capped at `m` symbols,
/// comparing encoded values.
fn lcp_pair(bytes: &Vec<u8>, i: usize, j: usize, m: usize) -> (l: usize)
    requires
        i + m <= bytes@.len(),
        j + m <= bytes@.len(),
    ensures
        l as int == lcp_spec(codes_of(bytes@), i as int, j as int, m as nat),
        l <= m,
{
    let ghost s = codes_of(bytes@);
    let blen: usize = bytes.len();
    assert(i + m <= blen);
    let mut l: usize = 0;
    while l < m && crate::codes::encode_base(bytes[i + l]) == crate::codes::encode_base(
        bytes[j + l],
    )
        invariant
            l <= m,
            forall|t: int| 0 <= t < l ==> #[trigger] s[i + t] == s[j + t],
        decreases m - l,
    {
        proof {
            assert(s[i + l] == code_of(bytes@[i + l]));
            assert(s[j + l] == code_of(bytes@[j + l]));
        }
        l = l + 1;
    }
    proof {
        if l < m {
            assert(s[i + l] == code_of(bytes@[i + l]));
            assert(s[j + l] == code_of(bytes@[j + l]));
        }
        lemma_lcp_from_prefix(s, i as int, j as int, m as nat, l as int);
    }
    l
}

/// Read a slot range out into an ordinary vector.
fn read_range<const BYTES: usize>(cv: &CompactVec<BYTES>, lo: usize, hi: usize) -> (r: Vec<usize>)
    requires
        lo <= hi <= cv@.len(),
    ensures
        r@ == cv@.subrange(lo as int, hi as int),
{
    let mut r: Vec<usize> = Vec::new();
    let mut p: usize = lo;
    while p < hi
        invariant
            lo <= p <= hi,
            r@ == cv@.subrange(lo as int, p as int),
        decreases hi - p,
    {
        r.push(cv.get_usize(p));
        p = p + 1;
        assert(r@ =~= cv@.subrange(lo as int, p as int));
    }
    r
}

/// Write a vector back over a slot range, leaving the rest untouched.
fn write_range<const BYTES: usize>(cv: &mut CompactVec<BYTES>, lo: usize, vals: &Vec<usize>)
    requires
        lo + vals@.len() <= old(cv)@.len(),
        forall|q: int| 0 <= q < vals@.len() ==> #[trigger] vals@[q] < slot_bound(BYTES as nat),
    ensures
        final(cv)@.len() == old(cv)@.len(),
        forall|p: int| 0 <= p < lo ==> #[trigger] final(cv)@[p] == old(cv)@[p],
        forall|p: int|
            lo + vals@.len() <= p < old(cv)@.len() ==> #[trigger] final(cv)@[p] == old(cv)@[p],
        forall|p: int|
            lo <= p < lo + vals@.len() ==> #[trigger] final(cv)@[p] == vals@[p - lo],
{
    let len: usize = vals.len();
    let total: usize = cv.len();
    let mut q: usize = 0;
    while q < len
        invariant
            q <= len,
            cv@.len() == total,
            forall|p: int| 0 <= p < lo ==> #[trigger] cv@[p] == old(cv)@[p],
            forall|p: int| lo + q <= p < total ==> #[trigger] cv@[p] == old(cv)@[p],
            forall|p: int| lo <= p < lo + q ==> #[trigger] cv@[p] == vals@[p - lo],
        decreases len - q,
    {
        cv.set_usize(lo + q, vals[q]);
        q = q + 1;
    }
}

/// Store a position vector whose entries lie below `n` into fixed-width
/// slots.
fn vec_to_compact<const BYTES: usize>(arr: &Vec<usize>, n: Ghost<nat>) -> (r: CompactVec<BYTES>)
    requires
        arr@.len() == n@,
        n@ < slot_bound(BYTES as nat),
        forall|q: int| 0 <= q < arr@.len() ==> #[trigger] arr@[q] < n@,
    ensures
        r@ == arr@,
{
    let len: usize = arr.len();
    let mut cv = CompactVec::<BYTES>::new(len);
    let mut p: usize = 0;
    while p < len
        invariant
            p <= len,
            cv@.len() == len,
            forall|q: int| 0 <= q < p ==> #[trigger] cv@[q] == arr@[q],
        decreases len - p,
    {
        cv.set_usize(p, arr[p]);
        p = p + 1;
    }
    proof {
        assert(cv@ =~= arr@);
    }
    cv
}

} // verus!
