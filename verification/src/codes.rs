use vstd::prelude::*;

verus! {

/// The two-bit code of one input byte: `A`/`a` -> 0, `C`/`c` -> 1,
/// `G`/`g` -> 2, `T`/`t` -> 3, and every other byte -> 0.
pub open spec fn code_of(b: u8) -> u8 {
    if b == 65 || b == 97 {
        0
    } else if b == 67 || b == 99 {
        1
    } else if b == 71 || b == 103 {
        2
    } else if b == 84 || b == 116 {
        3
    } else {
        0
    }
}

/// The whole corpus, encoded symbol by symbol.
pub open spec fn codes_of(s: Seq<u8>) -> Seq<u8> {
    Seq::new(s.len(), |i: int| code_of(s[i]))
}

/// Table lookup from a base byte to its two-bit code.
pub fn encode_base(b: u8) -> (c: u8)
    ensures
        c == code_of(b),
        c < 4,
{
    if b == 65 || b == 97 {
        0
    } else if b == 67 || b == 99 {
        1
    } else if b == 71 || b == 103 {
        2
    } else if b == 84 || b == 116 {
        3
    } else {
        0
    }
}

} // verus!
