//! The index topology of the falling cherry petals: one triangle per petal.
use vstd::prelude::*;

verus! {

/// The triangle indices of `count` petals, whose vertices come three per
/// petal in petal order: petal `i` is the triangle `3 i, 3 i + 1, 3 i + 2`,
/// so the indices count up from 0.
pub fn petal_indices(count: usize) -> (res: Vec<u32>)
    requires
        3 * count <= u32::MAX + 1,
    ensures
        res@.len() == 3 * count,
        forall|j: int| 0 <= j < res@.len() ==> #[trigger] res@[j] == j,
{
    let mut indices: Vec<u32> = Vec::new();
    for i in 0..count
        invariant
            3 * count <= u32::MAX + 1,
            indices@.len() == 3 * i,
            forall|j: int| 0 <= j < indices@.len() ==> #[trigger] indices@[j] == j,
    {
        let base_idx = (i * 3) as u32;
        indices.push(base_idx);
        indices.push(base_idx + 1);
        indices.push(base_idx + 2);
    }
    indices
}

} // verus!
