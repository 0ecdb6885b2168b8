//! Joining triangle meshes: the joined mesh lists the added mesh's vertices
//! after its own, so the added triangles' indices shift past the existing
//! vertices. Meshes whose joined vertex count does not fit a `u32` index
//! are not joined.
use vstd::prelude::*;

verus! {

/// The indices of a mesh of `existing` vertices once a mesh whose triangles
/// use `added` is appended to it.
pub open spec fn joined_indices(indices: Seq<u32>, existing: int, added: Seq<u32>) -> Seq<u32> {
    indices + added.map_values(|index: u32| (existing + index) as u32)
}

/// Appends the triangle indices of a mesh of `added_vertices` vertices to
/// those of a mesh of `existing_vertices` vertices. Nothing is appended
/// where the joined vertex count does not fit a `u32`.
pub fn append_indices(
    indices: &mut Vec<u32>,
    existing_vertices: usize,
    added_vertices: usize,
    added: &Vec<u32>,
) -> (r: Option<()>)
    requires
        existing_vertices + added_vertices <= u32::MAX ==> forall|i: int|
            0 <= i < added@.len() ==> existing_vertices + #[trigger] added@[i] <= u32::MAX,
    ensures
        r is Some <==> existing_vertices + added_vertices <= u32::MAX,
        r is Some ==> final(indices)@ == joined_indices(
            old(indices)@,
            existing_vertices as int,
            added@,
        ),
        r is None ==> final(indices)@ == old(indices)@,
{
    if existing_vertices > u32::MAX as usize {
        return None;
    }
    let offset = existing_vertices as u32;
    if added_vertices > (u32::MAX - offset) as usize {
        return None;
    }
    let ghost before = indices@;
    let mut i: usize = 0;
    while i < added.len()
        invariant
            i <= added@.len(),
            offset == existing_vertices,
            forall|j: int| 0 <= j < added@.len() ==> existing_vertices + #[trigger] added@[j] <= u32::MAX,
            indices@ == before + added@.take(i as int).map_values(
                |index: u32| (existing_vertices + index) as u32,
            ),
        decreases added@.len() - i,
    {
        indices.push(offset + added[i]);
        proof {
            assert(added@.take(i + 1) =~= added@.take(i as int).push(added@[i as int]));
            assert(indices@ =~= before + added@.take(i + 1).map_values(
                |index: u32| (existing_vertices + index) as u32,
            ));
        }
        i = i + 1;
    }
    proof {
        assert(added@.take(added@.len() as int) =~= added@);
    }
    Some(())
}

} // verus!
