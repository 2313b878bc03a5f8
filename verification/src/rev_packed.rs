use vstd::prelude::*;
use crate::codes::{code_of, codes_of, encode_base};
use crate::kmer::{kmer_spec, pow4, lemma_pow4_pos, lemma_pow4_mono, lemma_kmer_step};

verus! {

/// The two-bit pair at index `j` (0..4) of byte `x`.
pub open spec fn pair_of(x: u8, j: int) -> u8 {
    if j == 0 {
        x & 3
    } else if j == 1 {
        (x >> 2) & 3
    } else if j == 2 {
        (x >> 4) & 3
    } else {
        (x >> 6) & 3
    }
}

/// The two-bit pair at global pair index `p` of the buffer `d`.
pub open spec fn pair_at(d: Seq<u8>, p: int) -> u8 {
    pair_of(d[p / 4], p % 4)
}

/// Or-ing a two-bit value into a cleared pair sets that pair and leaves the
/// other three pairs of the byte unchanged.
proof fn lemma_or_pair(x: u8, c: u8, j: int, shifted: u8)
    requires
        c < 4,
        0 <= j < 4,
        shifted == if j == 0 { c } else if j == 1 { (c << 2) as u8 } else if j == 2 { (c << 4) as u8 } else { (c << 6) as u8 },
        pair_of(x, j) == 0,
    ensures
        pair_of(x | shifted, j) == c,
        forall|j2: int| 0 <= j2 < 4 && j2 != j ==> pair_of(x | shifted, j2) == pair_of(x, j2),
{
    if j == 0 {
        assert(c < 4 && x & 3 == 0 ==> ((x | c) & 3 == c) && ((x | c) >> 2) & 3 == (x >> 2) & 3
            && ((x | c) >> 4) & 3 == (x >> 4) & 3 && ((x | c) >> 6) & 3 == (x >> 6) & 3)
            by (bit_vector);
    } else if j == 1 {
        let s = (c << 2) as u8;
        assert(c < 4 && (x >> 2) & 3 == 0 ==> ((x | (c << 2)) >> 2) & 3 == c
            && (x | (c << 2)) & 3 == x & 3 && ((x | (c << 2)) >> 4) & 3 == (x >> 4) & 3
            && ((x | (c << 2)) >> 6) & 3 == (x >> 6) & 3) by (bit_vector);
    } else if j == 2 {
        assert(c < 4 && (x >> 4) & 3 == 0 ==> ((x | (c << 4)) >> 4) & 3 == c
            && (x | (c << 4)) & 3 == x & 3 && ((x | (c << 4)) >> 2) & 3 == (x >> 2) & 3
            && ((x | (c << 4)) >> 6) & 3 == (x >> 6) & 3) by (bit_vector);
    } else {
        assert(c < 4 && (x >> 6) & 3 == 0 ==> ((x | (c << 6)) >> 6) & 3 == c
            && (x | (c << 6)) & 3 == x & 3 && ((x | (c << 6)) >> 2) & 3 == (x >> 2) & 3
            && ((x | (c << 6)) >> 4) & 3 == (x >> 4) & 3) by (bit_vector);
    }
}

/// Read-only two-bit packing of the encoded corpus, stored in reverse logical
/// order with a four-symbol zero guard at the low end of the buffer.
pub struct RevPacked {
    data: Vec<u8>,
    len: usize,
    codes: Ghost<Seq<u8>>,
}

impl View for RevPacked {
    type V = Seq<u8>;

    /// The encoded corpus this packing represents.
    closed spec fn view(&self) -> Seq<u8> {
        self.codes@
    }
}

impl RevPacked {
    /// Logical position `i` of the corpus lives at pair index `len - 1 - i`,
    /// so the sequence sits reversed in the buffer; pairs 0..4 are the guard.
    pub closed spec fn wf(&self) -> bool {
        &&& self.len == self.codes@.len() + 4
        &&& self.data@.len() == (self.len + 3) / 4
        &&& forall|i: int|
            0 <= i < self.codes@.len() ==> pair_at(self.data@, self.len - 1 - i)
                == self.codes@[i]
        &&& forall|i: int| 0 <= i < self.codes@.len() ==> self.codes@[i] < 4
    }

    /// The corpus length is bounded by the machine word that holds the
    /// padded length.
    pub proof fn lemma_wf_len(&self)
        requires
            self.wf(),
        ensures
            self@.len() + 4 <= usize::MAX,
    {
    }

    /// Pack the corpus: each byte is encoded to two bits and or-ed into the
    /// buffer at the reversed pair position.
    pub fn new(bytes: &Vec<u8>) -> (r: Self)
        requires
            bytes@.len() + 8 <= usize::MAX,
        ensures
            r.wf(),
            r@ == codes_of(bytes@),
    {
        let plen: usize = bytes.len() + 4;
        let dlen: usize = (plen + 3) / 4;
        let mut data: Vec<u8> = vec![0u8; dlen];
        assert(forall|q: int| 0 <= q < plen ==> pair_at(data@, q) == 0) by {
            assert(forall|x: u8| x == 0 ==> x & 3 == 0 && (x >> 2) & 3 == 0 && (x >> 4) & 3 == 0
                && (x >> 6) & 3 == 0) by (bit_vector);
        }
        let mut i: usize = 0;
        while i < bytes.len()
            invariant
                data@.len() == dlen,
                i <= bytes@.len(),
                forall|q: int| 0 <= q < plen - i ==> pair_at(data@, q) == 0,
                forall|i2: int|
                    0 <= i2 < i ==> pair_at(data@, plen - 1 - i2) == code_of(bytes@[i2]),
            decreases bytes@.len() - i,
        {
            let p: usize = plen - 1 - i;
            let c: u8 = encode_base(bytes[i]);
            let bi: usize = p / 4;
            let j: usize = p % 4;
            assert(bi < dlen);
            let x: u8 = data[bi];
            let shifted: u8 = if j == 0 {
                c
            } else if j == 1 {
                c << 2
            } else if j == 2 {
                c << 4
            } else {
                c << 6
            };
            proof {
                assert(pair_at(data@, p as int) == 0);
                lemma_or_pair(x, c, j as int, shifted);
            }
            let ghost d0 = data@;
            data.set(bi, x | shifted);
            proof {
                assert forall|q: int| 0 <= q < plen && q != p implies pair_at(data@, q) == pair_at(
                    d0,
                    q,
                ) by {
                    let qb = q / 4;
                    let qj = q % 4;
                    assert(q == 4 * qb + qj);
                    assert(p as int == 4 * (p as int / 4) + (p as int % 4));
                    if qb == bi {
                        assert(qj != p as int % 4);
                        assert(pair_of(x | shifted, qj) == pair_of(x, qj));
                    }
                }
                assert(pair_at(data@, p as int) == c);
                assert forall|q: int| 0 <= q < plen - (i + 1) implies pair_at(data@, q) == 0 by {
                    assert(pair_at(data@, q) == pair_at(d0, q));
                    assert(pair_at(d0, q) == 0);
                }
                assert forall|i2: int| 0 <= i2 < i + 1 implies pair_at(data@, plen - 1 - i2)
                    == code_of(bytes@[i2]) by {
                    if i2 < i {
                        assert(pair_at(data@, plen - 1 - i2) == pair_at(d0, plen - 1 - i2));
                    }
                }
            }
            i = i + 1;
        }
        let r = RevPacked { data, len: plen, codes: Ghost(codes_of(bytes@)) };
        assert(r.wf());
        r
    }

    /// The encoded symbol at logical position `i`.
    pub fn sym(&self, i: usize) -> (c: u8)
        requires
            self.wf(),
            i < self@.len(),
        ensures
            c == self@[i as int],
            c < 4,
    {
        let p: usize = self.len - 1 - i;
        let bi: usize = p / 4;
        let j: usize = p % 4;
        assert(bi < self.data@.len());
        let x: u8 = self.data[bi];
        proof {
            assert(pair_at(self.data@, p as int) == self@[i as int]);
            assert(forall|y: u8| (y & 3) < 4 && ((y >> 2) & 3) < 4 && ((y >> 4) & 3) < 4
                && ((y >> 6) & 3) < 4) by (bit_vector);
        }
        if j == 0 {
            x & 3
        } else if j == 1 {
            (x >> 2) & 3
        } else if j == 2 {
            (x >> 4) & 3
        } else {
            (x >> 6) & 3
        }
    }

    /// The k-mer starting at `idx`, as a 32-bit integer with the symbol at
    /// `idx` most significant.
    pub fn load_k(&self, idx: usize, k: usize) -> (r: u32)
        requires
            self.wf(),
            k <= 16,
            idx + k <= self@.len(),
        ensures
            r == kmer_spec(self@, idx as int, k as nat),
            r < pow4(k as nat),
    {
        let mut acc: u32 = 0;
        let mut t: usize = 0;
        proof {
            lemma_pow4_pos(k as nat);
        }
        while t < k
            invariant
                t <= k,
                acc == kmer_spec(self@, idx as int, t as nat),
                0 <= acc < pow4(t as nat),
            decreases k - t,
        {
            let c: u8 = self.sym(idx + t);
            proof {
                lemma_kmer_step(self@, idx as int, t as nat);
                lemma_pow4_mono((t + 1) as nat, 16);
                assert(pow4(16) == 0x1_0000_0000) by {
                    reveal_with_fuel(pow4, 17);
                }
            }
            acc = acc * 4 + (c as u32);
            t = t + 1;
        }
        proof {
            lemma_pow4_mono(k as nat, 16);
        }
        acc
    }

    /// A 124-symbol window of the corpus starting at `idx`.
    pub fn load_124(&self, idx: usize) -> (w: Vec<u8>)
        requires
            self.wf(),
            idx + 124 <= self@.len(),
        ensures
            w@ == self@.subrange(idx as int, idx + 124),
            w@.len() == 124,
    {
        let mut w: Vec<u8> = Vec::new();
        let mut t: usize = 0;
        while t < 124
            invariant
                t <= 124,
                w@ == self@.subrange(idx as int, idx + t),
            decreases 124 - t,
        {
            w.push(self.sym(idx + t));
            t = t + 1;
            assert(w@ =~= self@.subrange(idx as int, idx + t));
        }
        w
    }
}

} // verus!
