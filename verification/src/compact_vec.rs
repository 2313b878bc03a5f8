use vstd::prelude::*;

verus! {

/// Number of distinct values a slot of `bytes` bytes can hold: `256^bytes`.
pub open spec fn slot_bound(bytes: nat) -> int
    decreases bytes,
{
    if bytes == 0 {
        1
    } else {
        256 * slot_bound((bytes - 1) as nat)
    }
}

/// Fixed-width integer container. A `CompactVec<BYTES>` holds slots whose
/// values are unsigned integers of at most `8 * BYTES` bits; a write of a
/// wider value is rejected by precondition. Allocation is zero-initialized.
pub struct CompactVec<const BYTES: usize> {
    data: Vec<usize>,
}

impl<const BYTES: usize> View for CompactVec<BYTES> {
    type V = Seq<usize>;

    closed spec fn view(&self) -> Seq<usize> {
        self.data@
    }
}

impl<const BYTES: usize> CompactVec<BYTES> {
    /// `n` zero-initialized slots.
    pub fn new(n: usize) -> (r: Self)
        ensures
            r@.len() == n,
            forall|i: int| 0 <= i < n ==> r@[i] == 0usize,
    {
        CompactVec { data: vec![0usize; n] }
    }

    pub fn len(&self) -> (r: usize)
        ensures
            r == self@.len(),
    {
        self.data.len()
    }

    pub fn get_usize(&self, i: usize) -> (r: usize)
        requires
            i < self@.len(),
        ensures
            r == self@[i as int],
    {
        self.data[i]
    }

    pub fn set_usize(&mut self, i: usize, v: usize)
        requires
            i < old(self)@.len(),
            v < slot_bound(BYTES as nat),
        ensures
            final(self)@ == old(self)@.update(i as int, v),
    {
        self.data.set(i, v);
    }

    /// The slot values, widened out into an ordinary vector.
    pub fn to_usize_vec(&self) -> (r: Vec<usize>)
        ensures
            r@ == self@,
    {
        let mut out: Vec<usize> = Vec::new();
        let mut i: usize = 0;
        while i < self.data.len()
            invariant
                i <= self.data.len(),
                out@ == self.data@.subrange(0, i as int),
            decreases self.data.len() - i,
        {
            out.push(self.data[i]);
            i = i + 1;
            assert(out@ =~= self.data@.subrange(0, i as int));
        }
        assert(out@ =~= self@);
        out
    }
}

} // verus!
