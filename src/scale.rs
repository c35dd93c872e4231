//! Where the scale-alignment ratio of two planes is read.
use vstd::prelude::*;

verus! {

/// Position of the largest magnitude: no magnitude exceeds the one there, and every
/// earlier one is strictly smaller (the first maximum wins ties).
pub open spec fn is_first_max(m: Seq<u64>, p: int) -> bool {
    &&& 0 <= p < m.len()
    &&& forall|j: int| 0 <= j < m.len() ==> #[trigger] m[j] <= m[p]
    &&& forall|j: int| 0 <= j < p ==> #[trigger] m[j] < m[p]
}

/// Position of the coefficient of greatest absolute value. `magnitudes[i]` is a key
/// whose order is the order of the absolute values of the coefficients (for finite
/// floats, the bit pattern of the absolute value). A left-to-right fold that moves
/// only on a strictly greater key keeps the first maximum.
pub fn position_max_absolute(magnitudes: &Vec<u64>) -> (r: usize)
    requires
        magnitudes@.len() > 0,
    ensures
        is_first_max(magnitudes@, r as int),
{
    let mut best: usize = 0;
    let mut i: usize = 1;
    while i < magnitudes.len()
        invariant
            1 <= i <= magnitudes@.len(),
            best < i,
            forall|j: int| 0 <= j < i ==> #[trigger] magnitudes@[j] <= magnitudes@[best as int],
            forall|j: int| 0 <= j < best ==> #[trigger] magnitudes@[j] < magnitudes@[best as int],
        decreases magnitudes@.len() - i,
    {
        if magnitudes[i] > magnitudes[best] {
            best = i;
        }
        i = i + 1;
    }
    best
}

} // verus!
