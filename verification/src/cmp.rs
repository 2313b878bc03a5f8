use vstd::prelude::*;
use crate::codes::{code_of, codes_of, encode_base};
use crate::order::{
    wcmp, wcmp16, seq_cmp, lemma_seq_cmp_windows, lemma_wcmp_split, lemma_wcmp16_split,
    lemma_seq_cmp_first_diff, lemma_seq_cmp_eq,
};
use crate::rev_packed::RevPacked;

verus! {

/// Comparison result of the packed suffix order: the bounded window
/// comparison, with equal windows resolved by ascending start position.
pub open spec fn suffix_cmp(s: Seq<u8>, m: nat, a: int, b: int) -> int {
    if wcmp(s, a, b, m) != 0 {
        wcmp(s, a, b, m)
    } else if a < b {
        -1
    } else if a > b {
        1
    } else {
        0
    }
}

/// Compare two equal-length symbol windows; -1, 0 or 1.
pub fn cmp_pack(a: &Vec<u8>, b: &Vec<u8>) -> (r: i8)
    requires
        a@.len() == b@.len(),
    ensures
        r as int == seq_cmp(a@, b@),
{
    let n: usize = a.len();
    let mut t: usize = 0;
    while t < n
        invariant
            t <= n,
            forall|t2: int| 0 <= t2 < t ==> a@[t2] == b@[t2],
        decreases n - t,
    {
        let ca: u8 = a[t];
        let cb: u8 = b[t];
        if ca < cb {
            proof {
                lemma_seq_cmp_first_diff(a@, b@, t as int);
            }
            return -1;
        }
        if ca > cb {
            proof {
                lemma_seq_cmp_first_diff(a@, b@, t as int);
            }
            return 1;
        }
        t = t + 1;
    }
    proof {
        lemma_seq_cmp_eq(a@, b@);
    }
    0
}

/// Compare two suffixes of the packed corpus over `ctx` windows of 124
/// symbols; equal windows fall back to the ascending index tie-break.
pub fn cmp_packed(p: &RevPacked, a_idx: usize, b_idx: usize, ctx: usize) -> (r: i8)
    requires
        p.wf(),
        1 <= ctx,
        a_idx + 124 * ctx <= p@.len(),
        b_idx + 124 * ctx <= p@.len(),
    ensures
        r as int == suffix_cmp(p@, (124 * ctx) as nat, a_idx as int, b_idx as int),
{
    let ghost s = p@;
    let ghost m = (124 * ctx) as nat;
    proof {
        p.lemma_wf_len();
    }
    let mut w: usize = 0;
    while w < ctx
        invariant
            w <= ctx,
            wcmp(s, a_idx as int, b_idx as int, (124 * w) as nat) == 0,
        decreases ctx - w,
    {
        let wa = p.load_124(a_idx + 124 * w);
        let wb = p.load_124(b_idx + 124 * w);
        let c: i8 = cmp_pack(&wa, &wb);
        proof {
            lemma_seq_cmp_windows(s, a_idx + 124 * w, b_idx + 124 * w, 124);
            lemma_wcmp_split(s, a_idx as int, b_idx as int, (124 * w) as nat, 124);
            assert(124 * w + 124 == 124 * (w + 1));
            lemma_wcmp_split(
                s,
                a_idx as int,
                b_idx as int,
                (124 * (w + 1)) as nat,
                (124 * ctx - 124 * (w + 1)) as nat,
            );
        }
        if c != 0 {
            return c;
        }
        w = w + 1;
    }
    if a_idx < b_idx {
        -1
    } else if a_idx > b_idx {
        1
    } else {
        0
    }
}

/// Compare two suffixes symbol by symbol over `32 * ctx` encoded symbols;
/// no index tie-break.
pub fn cmp_bytes(bytes: &Vec<u8>, a_idx: usize, b_idx: usize, ctx: usize) -> (r: i8)
    requires
        a_idx + 32 * ctx <= bytes@.len(),
        b_idx + 32 * ctx <= bytes@.len(),
    ensures
        r as int == wcmp(codes_of(bytes@), a_idx as int, b_idx as int, (32 * ctx) as nat),
{
    let ghost s = codes_of(bytes@);
    let blen: usize = bytes.len();
    assert(32 * ctx <= blen);
    let m: usize = 32 * ctx;
    let mut t: usize = 0;
    while t < m
        invariant
            t <= m,
            wcmp(s, a_idx as int, b_idx as int, t as nat) == 0,
        decreases m - t,
    {
        let ca: u8 = encode_base(bytes[a_idx + t]);
        let cb: u8 = encode_base(bytes[b_idx + t]);
        proof {
            assert(s[a_idx + t] == code_of(bytes@[a_idx + t]));
            assert(s[b_idx + t] == code_of(bytes@[b_idx + t]));
            lemma_wcmp_split(s, a_idx as int, b_idx as int, t as nat, (m - t) as nat);
            lemma_wcmp_split(s, a_idx as int, b_idx as int, (t + 1) as nat, (m - t - 1) as nat);
            lemma_wcmp_split(s, a_idx as int, b_idx as int, t as nat, 1);
        }
        if ca < cb {
            return -1;
        }
        if ca > cb {
            return 1;
        }
        proof {
            assert(s[a_idx + t] == s[b_idx + t]);
            assert(wcmp(s, a_idx + t + 1, b_idx + t + 1, 0) == 0);
            assert(wcmp(s, a_idx + t, b_idx + t, 1) == 0);
            assert(wcmp(s, a_idx as int, b_idx as int, (t + 1) as nat) == 0);
        }
        t = t + 1;
    }
    0
}

/// Compare two runs of 16-bit seed symbols over `16 * ctx` positions; no
/// index tie-break.
pub fn cmp_seeds(seeds: &Vec<u16>, a_idx: usize, b_idx: usize, ctx: usize) -> (r: i8)
    requires
        a_idx + 16 * ctx <= seeds@.len(),
        b_idx + 16 * ctx <= seeds@.len(),
    ensures
        r as int == wcmp16(seeds@, a_idx as int, b_idx as int, (16 * ctx) as nat),
{
    let ghost s = seeds@;
    let slen: usize = seeds.len();
    assert(16 * ctx <= slen);
    let m: usize = 16 * ctx;
    let mut t: usize = 0;
    while t < m
        invariant
            t <= m,
            wcmp16(s, a_idx as int, b_idx as int, t as nat) == 0,
        decreases m - t,
    {
        let ca: u16 = seeds[a_idx + t];
        let cb: u16 = seeds[b_idx + t];
        proof {
            lemma_wcmp16_split(s, a_idx as int, b_idx as int, t as nat, (m - t) as nat);
            lemma_wcmp16_split(s, a_idx as int, b_idx as int, (t + 1) as nat, (m - t - 1) as nat);
            lemma_wcmp16_split(s, a_idx as int, b_idx as int, t as nat, 1);
        }
        if ca < cb {
            return -1;
        }
        if ca > cb {
            return 1;
        }
        proof {
            assert(s[a_idx + t] == s[b_idx + t]);
            assert(wcmp16(s, a_idx + t + 1, b_idx + t + 1, 0) == 0);
            assert(wcmp16(s, a_idx + t, b_idx + t, 1) == 0);
            assert(wcmp16(s, a_idx as int, b_idx as int, (t + 1) as nat) == 0);
        }
        t = t + 1;
    }
    0
}

} // verus!
