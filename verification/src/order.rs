use vstd::prelude::*;
use vstd::relations::total_ordering;

verus! {

/// Bounded lexicographic comparison: compare the `m` symbols of `s` starting
/// at `a` against the `m` symbols starting at `b`; -1, 0 or 1.
pub open spec fn wcmp(s: Seq<u8>, a: int, b: int, m: nat) -> int
    decreases m,
{
    if m == 0 {
        0
    } else if s[a] < s[b] {
        -1
    } else if s[a] > s[b] {
        1
    } else {
        wcmp(s, a + 1, b + 1, (m - 1) as nat)
    }
}

pub proof fn lemma_wcmp_range(s: Seq<u8>, a: int, b: int, m: nat)
    ensures
        wcmp(s, a, b, m) == -1 || wcmp(s, a, b, m) == 0 || wcmp(s, a, b, m) == 1,
    decreases m,
{
    if m > 0 && s[a] == s[b] {
        lemma_wcmp_range(s, a + 1, b + 1, (m - 1) as nat);
    }
}

pub proof fn lemma_wcmp_self(s: Seq<u8>, a: int, m: nat)
    ensures
        wcmp(s, a, a, m) == 0,
    decreases m,
{
    if m > 0 {
        lemma_wcmp_self(s, a + 1, (m - 1) as nat);
    }
}

pub proof fn lemma_wcmp_antisym(s: Seq<u8>, a: int, b: int, m: nat)
    ensures
        wcmp(s, a, b, m) == -wcmp(s, b, a, m),
    decreases m,
{
    if m > 0 && s[a] == s[b] {
        lemma_wcmp_antisym(s, a + 1, b + 1, (m - 1) as nat);
    }
}

pub proof fn lemma_wcmp_trans(s: Seq<u8>, a: int, b: int, c: int, m: nat)
    requires
        wcmp(s, a, b, m) <= 0,
        wcmp(s, b, c, m) <= 0,
    ensures
        wcmp(s, a, c, m) <= 0,
        wcmp(s, a, b, m) < 0 || wcmp(s, b, c, m) < 0 ==> wcmp(s, a, c, m) < 0,
    decreases m,
{
    if m > 0 {
        if s[a] == s[b] && s[b] == s[c] {
            lemma_wcmp_trans(s, a + 1, b + 1, c + 1, (m - 1) as nat);
        }
    }
}

/// Splitting a bounded comparison at an intermediate window boundary.
pub proof fn lemma_wcmp_split(s: Seq<u8>, a: int, b: int, m1: nat, m2: nat)
    ensures
        wcmp(s, a, b, m1 + m2) == if wcmp(s, a, b, m1) != 0 {
            wcmp(s, a, b, m1)
        } else {
            wcmp(s, a + m1, b + m1, m2)
        },
    decreases m1,
{
    if m1 > 0 && s[a] == s[b] {
        lemma_wcmp_split(s, a + 1, b + 1, (m1 - 1) as nat, m2);
    }
}

/// Lexicographic comparison of two equal-length symbol sequences.
pub open spec fn seq_cmp(x: Seq<u8>, y: Seq<u8>) -> int
    decreases x.len(),
{
    if x.len() == 0 {
        0
    } else if x[0] < y[0] {
        -1
    } else if x[0] > y[0] {
        1
    } else {
        seq_cmp(x.drop_first(), y.drop_first())
    }
}

/// Comparing two windows copied out of the corpus agrees with comparing them
/// in place.
pub proof fn lemma_seq_cmp_windows(s: Seq<u8>, a: int, b: int, m: nat)
    requires
        0 <= a,
        a + m <= s.len(),
        0 <= b,
        b + m <= s.len(),
    ensures
        seq_cmp(s.subrange(a, a + m), s.subrange(b, b + m)) == wcmp(s, a, b, m),
    decreases m,
{
    if m > 0 {
        let x = s.subrange(a, a + m);
        let y = s.subrange(b, b + m);
        assert(x[0] == s[a]);
        assert(y[0] == s[b]);
        if s[a] == s[b] {
            assert(x.drop_first() =~= s.subrange(a + 1, a + m));
            assert(y.drop_first() =~= s.subrange(b + 1, b + m));
            lemma_seq_cmp_windows(s, a + 1, b + 1, (m - 1) as nat);
        }
    }
}

/// `seq_cmp` is decided by the first differing index.
pub proof fn lemma_seq_cmp_first_diff(x: Seq<u8>, y: Seq<u8>, t: int)
    requires
        x.len() == y.len(),
        0 <= t < x.len(),
        forall|t2: int| 0 <= t2 < t ==> x[t2] == y[t2],
        x[t] != y[t],
    ensures
        seq_cmp(x, y) == if x[t] < y[t] {
            -1int
        } else {
            1int
        },
    decreases t,
{
    if t > 0 {
        lemma_seq_cmp_first_diff(x.drop_first(), y.drop_first(), t - 1);
    }
}

/// Two equal sequences compare as equal.
pub proof fn lemma_seq_cmp_eq(x: Seq<u8>, y: Seq<u8>)
    requires
        x.len() == y.len(),
        forall|t: int| 0 <= t < x.len() ==> x[t] == y[t],
    ensures
        seq_cmp(x, y) == 0,
    decreases x.len(),
{
    if x.len() > 0 {
        lemma_seq_cmp_eq(x.drop_first(), y.drop_first());
    }
}

/// The order the packed construction sorts by: bounded lexicographic
/// comparison over `m` symbols, with equal windows resolved by ascending
/// start position.
pub open spec fn suffix_leq(s: Seq<u8>, m: nat) -> spec_fn(usize, usize) -> bool {
    |a: usize, b: usize|
        wcmp(s, a as int, b as int, m) < 0 || (wcmp(s, a as int, b as int, m) == 0 && a <= b)
}

/// The suffix order with index tie-break is a total ordering, so a sorted
/// permutation under it is unique.
pub proof fn lemma_suffix_leq_total(s: Seq<u8>, m: nat)
    ensures
        total_ordering(suffix_leq(s, m)),
{
    let leq = suffix_leq(s, m);
    assert forall|a: usize| #[trigger] leq(a, a) by {
        lemma_wcmp_self(s, a as int, m);
    }
    assert forall|a: usize, b: usize| #[trigger] leq(a, b) && #[trigger] leq(b, a) implies a == b by {
        lemma_wcmp_antisym(s, a as int, b as int, m);
        lemma_wcmp_range(s, a as int, b as int, m);
    }
    assert forall|a: usize, b: usize, c: usize|
        #[trigger] leq(a, b) && #[trigger] leq(b, c) implies leq(a, c) by {
        lemma_wcmp_trans(s, a as int, b as int, c as int, m);
    }
    assert forall|a: usize, b: usize| !(#[trigger] leq(a, b)) implies leq(b, a) by {
        lemma_wcmp_antisym(s, a as int, b as int, m);
        lemma_wcmp_range(s, a as int, b as int, m);
    }
}

/// Bounded lexicographic comparison over 16-bit symbols.
pub open spec fn wcmp16(s: Seq<u16>, a: int, b: int, m: nat) -> int
    decreases m,
{
    if m == 0 {
        0
    } else if s[a] < s[b] {
        -1
    } else if s[a] > s[b] {
        1
    } else {
        wcmp16(s, a + 1, b + 1, (m - 1) as nat)
    }
}

pub proof fn lemma_wcmp16_range(s: Seq<u16>, a: int, b: int, m: nat)
    ensures
        wcmp16(s, a, b, m) == -1 || wcmp16(s, a, b, m) == 0 || wcmp16(s, a, b, m) == 1,
    decreases m,
{
    if m > 0 && s[a] == s[b] {
        lemma_wcmp16_range(s, a + 1, b + 1, (m - 1) as nat);
    }
}

pub proof fn lemma_wcmp16_antisym(s: Seq<u16>, a: int, b: int, m: nat)
    ensures
        wcmp16(s, a, b, m) == -wcmp16(s, b, a, m),
    decreases m,
{
    if m > 0 && s[a] == s[b] {
        lemma_wcmp16_antisym(s, a + 1, b + 1, (m - 1) as nat);
    }
}

pub proof fn lemma_wcmp16_split(s: Seq<u16>, a: int, b: int, m1: nat, m2: nat)
    ensures
        wcmp16(s, a, b, m1 + m2) == if wcmp16(s, a, b, m1) != 0 {
            wcmp16(s, a, b, m1)
        } else {
            wcmp16(s, a + m1, b + m1, m2)
        },
    decreases m1,
{
    if m1 > 0 && s[a] == s[b] {
        lemma_wcmp16_split(s, a + 1, b + 1, (m1 - 1) as nat, m2);
    }
}

pub proof fn lemma_wcmp16_trans(s: Seq<u16>, a: int, b: int, c: int, m: nat)
    requires
        wcmp16(s, a, b, m) <= 0,
        wcmp16(s, b, c, m) <= 0,
    ensures
        wcmp16(s, a, c, m) <= 0,
    decreases m,
{
    if m > 0 {
        if s[a] == s[b] && s[b] == s[c] {
            lemma_wcmp16_trans(s, a + 1, b + 1, c + 1, (m - 1) as nat);
        }
    }
}

} // verus!
