use vstd::prelude::*;
use crate::order::wcmp;

verus! {

/// `4^k`.
pub open spec fn pow4(k: nat) -> int
    decreases k,
{
    if k == 0 {
        1
    } else {
        4 * pow4((k - 1) as nat)
    }
}

pub proof fn lemma_pow4_pos(k: nat)
    ensures
        pow4(k) >= 1,
    decreases k,
{
    if k > 0 {
        lemma_pow4_pos((k - 1) as nat);
    }
}

pub proof fn lemma_pow4_mono(k1: nat, k2: nat)
    requires
        k1 <= k2,
    ensures
        pow4(k1) <= pow4(k2),
    decreases k2,
{
    lemma_pow4_pos(k1);
    if k1 < k2 {
        lemma_pow4_mono(k1, (k2 - 1) as nat);
    }
}

/// `2^k`.
pub open spec fn pow2(k: nat) -> int
    decreases k,
{
    if k == 0 {
        1
    } else {
        2 * pow2((k - 1) as nat)
    }
}

pub proof fn lemma_pow2_pos(k: nat)
    ensures
        pow2(k) >= 1,
    decreases k,
{
    if k > 0 {
        lemma_pow2_pos((k - 1) as nat);
    }
}

pub proof fn lemma_pow2_mono(k1: nat, k2: nat)
    requires
        k1 <= k2,
    ensures
        pow2(k1) <= pow2(k2),
    decreases k2,
{
    lemma_pow2_pos(k1);
    if k1 < k2 {
        lemma_pow2_mono(k1, (k2 - 1) as nat);
    }
}

/// The `k`-symbol prefix of the suffix at `i`, read as a base-4 integer with
/// the symbol at `i` most significant.
pub open spec fn kmer_spec(s: Seq<u8>, i: int, k: nat) -> int
    decreases k,
{
    if k == 0 {
        0
    } else {
        s[i] * pow4((k - 1) as nat) + kmer_spec(s, i + 1, (k - 1) as nat)
    }
}

/// Extending a k-mer by one symbol multiplies its value by 4.
pub proof fn lemma_kmer_step(s: Seq<u8>, i: int, k: nat)
    ensures
        kmer_spec(s, i, k + 1) == kmer_spec(s, i, k) * 4 + s[i + k],
    decreases k,
{
    if k > 0 {
        let kp = (k - 1) as nat;
        lemma_kmer_step(s, i + 1, kp);
        assert(kmer_spec(s, i + 1, k) == kmer_spec(s, i + 1, kp) * 4 + s[i + k]);
        assert(kmer_spec(s, i, k + 1) == s[i] * pow4(k) + kmer_spec(s, i + 1, k));
        assert(s[i] * pow4(k) == (s[i] * pow4(kp)) * 4) by (nonlinear_arith)
            requires
                pow4(k) == 4 * pow4(kp),
        ;
        assert(kmer_spec(s, i, k + 1) == (s[i] * pow4(kp)) * 4 + kmer_spec(s, i + 1, kp) * 4 + s[i
            + k]);
        assert(kmer_spec(s, i, k) * 4 == (s[i] * pow4(kp)) * 4 + kmer_spec(s, i + 1, kp) * 4);
        assert(kmer_spec(s, i, k + 1) == kmer_spec(s, i, k) * 4 + s[i + k]);
    } else {
        assert(kmer_spec(s, i, 1) == s[i] * pow4(0) + kmer_spec(s, i + 1, 0));
        assert(pow4(0) == 1);
        assert(kmer_spec(s, i, 0) == 0);
        assert(kmer_spec(s, i, 1) == s[i] * 1 + 0);
        assert(kmer_spec(s, i, k + 1) == kmer_spec(s, i, k) * 4 + s[i + k]);
    }
}

pub proof fn lemma_kmer_bound(s: Seq<u8>, i: int, k: nat)
    requires
        forall|t: int| i <= t < i + k ==> s[t] < 4,
    ensures
        0 <= kmer_spec(s, i, k) < pow4(k),
    decreases k,
{
    if k > 0 {
        lemma_kmer_bound(s, i + 1, (k - 1) as nat);
        lemma_pow4_pos((k - 1) as nat);
        assert(s[i] * pow4((k - 1) as nat) + pow4((k - 1) as nat) <= pow4(k)
            && s[i] * pow4((k - 1) as nat) >= 0) by (nonlinear_arith)
            requires
                s[i] < 4,
                s[i] >= 0,
                pow4((k - 1) as nat) >= 1,
                pow4(k) == 4 * pow4((k - 1) as nat),
        ;
    }
}

/// Distinct k-mers decide the bounded window comparison: the window order of
/// two suffixes with different k-mer prefixes is the numeric k-mer order.
pub proof fn lemma_kmer_orders_windows(s: Seq<u8>, a: int, b: int, k: nat, m: nat)
    requires
        1 <= k <= m,
        forall|t: int| a <= t < a + k ==> s[t] < 4,
        forall|t: int| b <= t < b + k ==> s[t] < 4,
        kmer_spec(s, a, k) != kmer_spec(s, b, k),
    ensures
        wcmp(s, a, b, m) == if kmer_spec(s, a, k) < kmer_spec(s, b, k) {
            -1
        } else {
            1
        },
    decreases k,
{
    let kp = (k - 1) as nat;
    if s[a] < s[b] {
        lemma_kmer_bound(s, a + 1, kp);
        lemma_kmer_bound(s, b + 1, kp);
        lemma_pow4_pos(kp);
        assert(s[a] * pow4(kp) + pow4(kp) <= s[b] * pow4(kp)) by (nonlinear_arith)
            requires
                s[a] < s[b],
                pow4(kp) >= 1,
        ;
        assert(kmer_spec(s, a, k) < kmer_spec(s, b, k));
    } else if s[a] > s[b] {
        lemma_kmer_bound(s, a + 1, kp);
        lemma_kmer_bound(s, b + 1, kp);
        lemma_pow4_pos(kp);
        assert(s[b] * pow4(kp) + pow4(kp) <= s[a] * pow4(kp)) by (nonlinear_arith)
            requires
                s[b] < s[a],
                pow4(kp) >= 1,
        ;
        assert(kmer_spec(s, b, k) < kmer_spec(s, a, k));
    } else {
        assert(k >= 2) by {
            if k == 1 {
                assert(pow4(0) == 1);
                assert(kmer_spec(s, a + 1, 0) == 0);
                assert(kmer_spec(s, b + 1, 0) == 0);
                assert(kmer_spec(s, a, 1) == s[a] * pow4(0) + kmer_spec(s, a + 1, 0));
                assert(kmer_spec(s, b, 1) == s[b] * pow4(0) + kmer_spec(s, b + 1, 0));
            }
        }
        assert(kmer_spec(s, a, k) == s[a] * pow4(kp) + kmer_spec(s, a + 1, kp));
        assert(kmer_spec(s, b, k) == s[b] * pow4(kp) + kmer_spec(s, b + 1, kp));
        lemma_kmer_orders_windows(s, a + 1, b + 1, kp, (m - 1) as nat);
    }
}

} // verus!
