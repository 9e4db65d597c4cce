//! The mesh of an asteroid: a closed, irregular rim between an outer ring of
//! vertices and an inset copy of it. This module decides how many vertices a
//! ring has and how they are joined into triangles; where the vertices lie is
//! up to the caller.

use vstd::prelude::*;
use crate::spawner::{draw_usize, SpawnGenerator};

verus! {

/// The vertex after `i` on a closed ring of `n` vertices.
pub open spec fn ring_next(i: int, n: int) -> int {
    (i + 1) % n
}

/// The vertex before `i` on a closed ring of `n` vertices.
pub open spec fn ring_prev(i: int, n: int) -> int {
    (i + n - 1) % n
}

/// Entry `k` of the triangle list of a beveled ring with `n` outer vertices.
///
/// Outer vertex `i` has number `i`, the inset vertex that belongs to it has
/// number `i + n`. Edge `i` runs from vertex `i` to `ring_next(i, n)` and
/// owns entries `6 * i .. 6 * i + 6`: the triangle (outer, inset, next
/// outer) followed by (inset, next inset, next outer).
pub open spec fn ring_index(n: int, k: int) -> int {
    let i = k / 6;
    let next = ring_next(i, n);
    let corner = k % 6;
    if corner == 0 {
        i
    } else if corner == 1 {
        i + n
    } else if corner == 2 {
        next
    } else if corner == 3 {
        i + n
    } else if corner == 4 {
        next + n
    } else {
        next
    }
}

/// The whole triangle list of a beveled ring with `n` outer vertices. An
/// entry is stored in 32 bits; a ring of more than `2^31` outer vertices has
/// vertex numbers beyond that, of which an entry keeps the low 32 bits.
pub open spec fn ring_indices(n: int) -> Seq<u32> {
    Seq::new((6 * n) as nat, |k: int| ring_index(n, k) as u32)
}

/// The two vertices adjacent to vertex `i` on a closed ring of `n`, the one
/// before it first. These are the ends of the two edges that meet at `i`,
/// from which its outward normal is taken.
pub fn neighbours(i: usize, n: usize) -> (adjacent: (usize, usize))
    requires
        i < n,
    ensures
        adjacent.0 == ring_prev(i as int, n as int),
        adjacent.1 == ring_next(i as int, n as int),
{
    let prev: usize = if i == 0 { n - 1 } else { i - 1 };
    let next: usize = if i == n - 1 { 0 } else { i + 1 };
    proof {
        let (a, b) = (i as int, n as int);
        if i == 0 {
            assert((a + b - 1) % b == b - 1) by (nonlinear_arith)
                requires a == 0, b > 0;
        } else {
            assert((a + b - 1) % b == a - 1) by (nonlinear_arith)
                requires 0 < a < b;
        }
        if i == n - 1 {
            assert((a + 1) % b == 0) by (nonlinear_arith)
                requires a + 1 == b, b > 0;
        } else {
            assert((a + 1) % b == a + 1) by (nonlinear_arith)
                requires 0 <= a, a + 1 < b;
        }
    }
    (prev, next)
}

/// Every entry of the triangle list names one of the `2 * n` vertices.
pub proof fn lemma_ring_index_in_range(n: int, k: int)
    requires
        1 <= n,
        0 <= k < 6 * n,
    ensures
        0 <= ring_index(n, k) < 2 * n,
{
    let i = k / 6;
    assert(0 <= i < n) by (nonlinear_arith)
        requires 0 <= k < 6 * n, i == k / 6;
    assert(0 <= (i + 1) % n < n) by (nonlinear_arith)
        requires 0 <= i, 1 <= n;
}

/// Triangulates the rim between an outer ring of `num_verts` vertices and
/// its inset copy as a closed strip, two triangles for each edge. Whatever
/// the size of the ring, the list has six entries for each outer vertex, and
/// every entry is below the number of vertices.
pub fn ring_triangles(num_verts: usize) -> (indices: Vec<u32>)
    requires
        3 <= num_verts,
    ensures
        indices@ == ring_indices(num_verts as int),
        indices@.len() == 6 * num_verts,
        forall|k: int| 0 <= k < indices@.len() ==> indices@[k] < 2 * num_verts,
{
    let mut indices: Vec<u32> = Vec::new();
    let mut i: usize = 0;
    while i < num_verts
        invariant
            3 <= num_verts,
            i <= num_verts,
            indices@.len() == 6 * i,
            forall|k: int| 0 <= k < 6 * i ==> indices@[k] == ring_index(num_verts as int, k) as u32,
        decreases num_verts - i,
    {
        let (_, next) = neighbours(i, num_verts);
        let outer: u32 = #[verifier::truncate] (i as u32);
        let inset: u32 = #[verifier::truncate] ((i as u128 + num_verts as u128) as u32);
        let next_outer: u32 = #[verifier::truncate] (next as u32);
        let next_inset: u32 = #[verifier::truncate] ((next as u128 + num_verts as u128) as u32);
        let ghost before = indices@;
        indices.push(outer);
        indices.push(inset);
        indices.push(next_outer);
        indices.push(inset);
        indices.push(next_inset);
        indices.push(next_outer);
        proof {
            let n = num_verts as int;
            assert forall|k: int| 0 <= k < 6 * (i + 1) implies indices@[k] == ring_index(n, k) as u32 by {
                if k < 6 * i {
                    assert(indices@[k] == before[k]);
                } else {
                    assert(k / 6 == i as int && k % 6 == k - 6 * i) by (nonlinear_arith)
                        requires 6 * i <= k < 6 * (i + 1);
                }
            }
        }
        i += 1;
    }
    proof {
        let n = num_verts as int;
        assert(indices@ =~= ring_indices(n));
        assert forall|k: int| 0 <= k < indices@.len() implies indices@[k] < 2 * num_verts by {
            lemma_ring_index_in_range(n, k);
            if 2 * n <= u32::MAX + 1 {
                assert(ring_index(n, k) as u32 == ring_index(n, k));
            }
        }
    }
    indices
}

/// The triangulated rim of one asteroid variant. The caller places the
/// `2 * num_verts` vertices; the outer ring comes first, the inset ring
/// second, vertex for vertex.
pub struct RingMesh {
    pub num_verts: usize,
    pub indices: Vec<u32>,
}

impl RingMesh {
    /// The triangle list is that of a closed ring of `num_verts` edges.
    pub open spec fn wf(&self) -> bool {
        &&& 3 <= self.num_verts
        &&& self.indices@ == ring_indices(self.num_verts as int)
    }

    /// How many vertices the mesh has, outer and inset ring together.
    pub fn vertex_count(&self) -> (count: usize)
        requires
            self.wf(),
        ensures
            count == 2 * self.num_verts,
            count >= 6,
    {
        let entries = self.indices.len();
        assert(entries == 6 * self.num_verts);
        2 * self.num_verts
    }
}

/// Lays out one asteroid variant: draws the number of outer vertices from
/// `min_verts..max_verts` and triangulates the rim for it. The draw is the
/// first that the variant takes from the stream; the jitter of its vertices
/// follows in the caller.
///
/// Whatever number the generator hands back, the mesh is closed: six entries
/// for each outer vertex, every one of them a vertex of the mesh.
pub fn create_astroid_mesh(spawner: &mut SpawnGenerator, min_verts: usize, max_verts: usize) -> (mesh: RingMesh)
    requires
        3 <= min_verts < max_verts,
    ensures
        mesh.wf(),
        min_verts <= mesh.num_verts < max_verts,
        mesh.indices@.len() == 6 * mesh.num_verts,
        forall|k: int| 0 <= k < mesh.indices@.len() ==> mesh.indices@[k] < 2 * mesh.num_verts,
{
    let num_verts = draw_usize(&mut spawner.rng, min_verts, max_verts);
    let indices = ring_triangles(num_verts);
    RingMesh { num_verts, indices }
}

} // verus!
