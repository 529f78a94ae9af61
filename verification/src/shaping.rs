use vstd::prelude::*;

use crate::chunk::{
    self, ChunkFacesOcclusion, ChunkKind, ChunkNeighborhood, BUFFER_SIZE, in_bounds, index_of, voxel_at,
};
use crate::faces_merger;
use crate::math::{IVec3, vadd};
use crate::voxel::{FacesOcclusion, Kind, Side, SIDE_COUNT, VoxelFace, side_at};
use crate::voxworld::{Chunk, VoxWorld, has_neighbors, kind_neighborhood_of};

verus! {

/// The offset, inside a face, of the `j`-th index: two triangles `0 1 2` and `2 3 0`.
pub open spec fn face_index_offset(j: int) -> int {
    if j == 0 {
        0
    } else if j == 1 {
        1
    } else if j == 2 {
        2
    } else if j == 3 {
        2
    } else if j == 4 {
        3
    } else {
        0
    }
}

/// The triangle list indices of `face_count` faces of 4 vertices each.
pub open spec fn face_indices(face_count: int) -> Seq<u32> {
    Seq::new((6 * face_count) as nat, |i: int| (4 * (i / 6) + face_index_offset(i % 6)) as u32)
}

proof fn lemma_face_slot(f: int, j: int)
    requires
        0 <= f,
        0 <= j < 6,
    ensures
        (6 * f + j) / 6 == f,
        (6 * f + j) % 6 == j,
{
    assert((6 * f + j) / 6 == f && (6 * f + j) % 6 == j) by (nonlinear_arith)
        requires
            0 <= f,
            0 <= j < 6,
    ;
}

/**
 Computes indices of a triangle list mesh.

 This function assumes 4 vertices per face, 3 indices per triangles and all vertices are placed in CCW order.

 It generates indices in the following order: _*0 1 2 2 3 0*_ where 0 is the first vertice and 3 is the last one

 **Returns** a list of indices in the CCW order
*/
pub fn compute_indices(vertex_count: usize) -> (r: Vec<u32>)
    requires
        vertex_count <= u32::MAX - 3,
    ensures
        r@ == face_indices((vertex_count as int + 3) / 4),
{
    let mut res: Vec<u32> = Vec::new();
    let mut i: u32 = 0;
    let ghost mut f: int = 0;
    let n = vertex_count as u32;
    while i < n
        invariant
            n == vertex_count,
            vertex_count <= u32::MAX - 3,
            i == 4 * f,
            0 <= f,
            i < n + 4,
            res@ == face_indices(f),
        decreases n + 4 - i,
    {
        res.push(i);
        res.push(i + 1);
        res.push(i + 2);

        res.push(i + 2);
        res.push(i + 3);
        res.push(i);

        proof {
            assert forall|k: int| 0 <= k < 6 * (f + 1) implies res@[k] == face_indices(f + 1)[k] by {
                if k >= 6 * f {
                    lemma_face_slot(f, k - 6 * f);
                } else {
                    assert(res@[k] == face_indices(f)[k]);
                }
            }
            assert(res@ =~= face_indices(f + 1));
            f = f + 1;
        }
        i = i + 4;
    }
    proof {
        assert(f == (vertex_count as int + 3) / 4);
    }
    res
}

/// Whether the face of `v` on `side` is hidden: every face of an empty voxel is, and the
/// face of a non-empty voxel is when the voxel it faces is known and not empty.
pub open spec fn occluded_face(chunk: ChunkKind, v: IVec3, side: Side) -> bool {
    if chunk.at(v).empty() {
        true
    } else {
        match chunk.absolute(vadd(v, side.direction())) {
            Some(k) => !k.empty(),
            None => false,
        }
    }
}

/// The occlusion computed for every voxel of `chunk`.
pub open spec fn occlusion_of(chunk: ChunkKind, occlusion: ChunkFacesOcclusion) -> bool {
    &&& occlusion.wf()
    &&& forall|v: IVec3, i: int|
        in_bounds(v) && 0 <= i < SIDE_COUNT ==> #[trigger] occlusion.at(v).occluded(i)
            == occluded_face(chunk, v, side_at(i))
}

/// The faces of a chunk's voxels: every face of an empty voxel (kind 0) is occluded. A voxel
/// of any other kind, light emitters and see-through kinds included, has its face on a side
/// drawn when the voxel on that side is empty or unknown, and occluded when that voxel is of
/// a kind other than 0, whether it lies in the chunk or in the known layer of a neighbor.
pub proof fn lemma_occlusion_by_kind(chunk: ChunkKind, occlusion: ChunkFacesOcclusion, v: IVec3, i: int)
    requires
        occlusion_of(chunk, occlusion),
        in_bounds(v),
        0 <= i < SIDE_COUNT,
    ensures
        chunk.at(v).0 == 0 ==> occlusion.at(v).occluded(i),
        chunk.at(v).0 != 0 ==> (occlusion.at(v).occluded(i) <==> (chunk.absolute(
            vadd(v, side_at(i).direction()),
        ) matches Some(k) && k.0 != 0)),
        chunk.at(v).0 != 0 && in_bounds(vadd(v, side_at(i).direction())) ==> (occlusion.at(v).occluded(i)
            <==> chunk.at(vadd(v, side_at(i).direction())).0 != 0),
{
    assert(occlusion.at(v).occluded(i) == occluded_face(chunk, v, side_at(i)));
}

fn voxel_faces(chunk: &ChunkKind, voxel: IVec3) -> (r: FacesOcclusion)
    requires
        chunk.wf(),
        in_bounds(voxel),
    ensures
        forall|i: int| 0 <= i < SIDE_COUNT ==> #[trigger] r.occluded(i) == occluded_face(*chunk, voxel, side_at(i)),
{
    let mut voxel_faces = FacesOcclusion(0);
    proof {
        assert(voxel_faces.0 == 0u8);
        crate::voxel::lemma_full_mask(0);
        assert forall|i: int| 0 <= i < SIDE_COUNT implies !#[trigger] voxel_faces.occluded(i) by {
            if i == 0 {
            } else if i == 1 {
            } else if i == 2 {
            } else if i == 3 {
            } else if i == 4 {
            } else {
            }
        }
    }
    if chunk.get(voxel).is_empty() {
        voxel_faces.set_all(true);
    } else {
        let mut k: usize = 0;
        while k < SIDE_COUNT
            invariant
                chunk.wf(),
                in_bounds(voxel),
                !chunk.at(voxel).empty(),
                k <= SIDE_COUNT,
                forall|i: int| 0 <= i < k ==> #[trigger] voxel_faces.occluded(i) == occluded_face(*chunk, voxel, side_at(i)),
                forall|i: int| k <= i < SIDE_COUNT ==> !#[trigger] voxel_faces.occluded(i),
            decreases SIDE_COUNT - k,
        {
            let side = Side::from_index(k);
            let neighbor_pos = voxel.plus(side.dir());
            match chunk.get_absolute(neighbor_pos) {
                Some(neighbor_kind) => {
                    voxel_faces.set(side, !neighbor_kind.is_empty());
                },
                None => {},
            }
            k = k + 1;
        }
    }
    voxel_faces
}

/**
Computes the faces occlusion data of the given [`ChunkKind`]

**Returns** computed [`ChunkFacesOcclusion`]
*/
pub fn faces_occlusion(chunk: &ChunkKind) -> (r: ChunkFacesOcclusion)
    requires
        chunk.wf(),
    ensures
        occlusion_of(*chunk, r),
{
    let mut occlusion: ChunkFacesOcclusion = chunk::ChunkStorage::new();
    let mut i: usize = 0;
    while i < BUFFER_SIZE
        invariant
            chunk.wf(),
            occlusion.wf(),
            i <= BUFFER_SIZE,
            forall|k: int, s: int|
                0 <= k < i && 0 <= s < SIDE_COUNT ==> #[trigger] occlusion@[k].occluded(s)
                    == occluded_face(*chunk, voxel_at(k), side_at(s)),
        decreases BUFFER_SIZE - i,
    {
        let voxel = chunk::from_index(i);
        let faces = voxel_faces(chunk, voxel);
        proof {
            chunk::lemma_voxel_at(i as int);
        }
        occlusion.set(voxel, faces);
        i = i + 1;
    }
    proof {
        assert forall|v: IVec3, s: int| in_bounds(v) && 0 <= s < SIDE_COUNT implies #[trigger] occlusion.at(
            v,
        ).occluded(s) == occluded_face(*chunk, v, side_at(s)) by {
            chunk::lemma_index_of(v);
            assert(occlusion@[index_of(v)].occluded(s) == occluded_face(
                *chunk,
                voxel_at(index_of(v)),
                side_at(s),
            ));
        }
    }
    occlusion
}

/**
  Recompute the faces of a chunk and its kind neighborhood.

  This function should be called whenever the chunk has changed and needs to update its
  internal state: the faces are computed from the kinds and the neighborhood the chunk holds,
  then the neighborhood is refreshed from the loaded neighbors.

  **Returns** the merged faces (none when every face is occluded), or `None` when the chunk
  isn't loaded.
 */
pub fn recompute_chunk(world: &mut VoxWorld, local: IVec3) -> (r: Option<Vec<VoxelFace>>)
    requires
        old(world).wf(),
        old(world).chunks_wf(),
        has_neighbors(local),
    ensures
        final(world).wf(),
        final(world).chunks_wf(),
        final(world)@.dom() == old(world)@.dom(),
        r is Some <==> old(world)@.dom().contains(local),
        !old(world)@.dom().contains(local) ==> final(world)@ == old(world)@,
        old(world)@.dom().contains(local) ==> {
            let old_chunk = old(world)@[local];
            &&& final(world)@ == old(world)@.insert(
                local,
                Chunk { kinds: final(world)@[local].kinds, lights: old_chunk.lights },
            )
            &&& final(world)@[local].kinds@ == old_chunk.kinds@
            &&& kind_neighborhood_of(old(world)@, local, final(world)@[local].kinds.neighbors())
            &&& exists|occlusion: ChunkFacesOcclusion|
                #![trigger occlusion_of(old_chunk.kinds, occlusion)]
                {
                    &&& occlusion_of(old_chunk.kinds, occlusion)
                    &&& forall|f: int|
                        0 <= f < r->0@.len() ==> faces_merger::face_ok(
                            old_chunk,
                            occlusion,
                            #[trigger] r->0@[f],
                        )
                    &&& forall|s: Side| #[trigger]
                        faces_merger::partitions_side(old_chunk, occlusion, s, r->0@)
                }
        },
{
    let neighborhood = crate::voxworld::gather_kind_neighborhood(world, local);
    match world.get_mut(local) {
        Some(chunk) => {
            let ghost old_chunk = *chunk;
            let occlusion = faces_occlusion(&chunk.kinds);
            let ghost occ = occlusion;
            let faces = faces_merger::merge(occlusion, chunk);
            chunk.kinds.set_neighborhood(neighborhood);
            proof {
                assert(occlusion_of(old_chunk.kinds, occ));
            }
            Some(faces)
        },
        None => None,
    }
}

/// Layers read from chunks holding the same values are the same.
proof fn lemma_same_layers(before: Map<IVec3, Chunk>, after: Map<IVec3, Chunk>, local: IVec3, n: ChunkNeighborhood<Kind>)
    requires
        after.dom() == before.dom(),
        forall|k: IVec3| #[trigger] after.dom().contains(k) ==> after[k].kinds@ == before[k].kinds@,
        kind_neighborhood_of(before, local, n),
    ensures
        kind_neighborhood_of(after, local, n),
{
    assert forall|i: int| 0 <= i < SIDE_COUNT implies #[trigger] n@[i] == (if after.dom().contains(
        vadd(local, side_at(i).direction()),
    ) {
        Some(crate::voxworld::layer_of(after[vadd(local, side_at(i).direction())].kinds, side_at(i)))
    } else {
        None
    }) by {
        let w = vadd(local, side_at(i).direction());
        if after.dom().contains(w) {
            assert(crate::voxworld::layer_of(after[w].kinds, side_at(i)) =~= crate::voxworld::layer_of(
                before[w].kinds,
                side_at(i),
            ));
        }
    }
}

/// Refreshes, in each loaded chunk of `locals`, the copy of its neighbors' kind layers.
pub fn update_kind_neighborhoods(world: &mut VoxWorld, locals: &[IVec3])
    requires
        old(world).wf(),
        old(world).chunks_wf(),
        crate::light_propagator::world_in_range(old(world)@),
    ensures
        final(world).wf(),
        final(world).chunks_wf(),
        final(world)@.dom() == old(world)@.dom(),
        forall|k: IVec3|
            #[trigger] final(world)@.dom().contains(k) ==> final(world)@[k].kinds@ == old(world)@[k].kinds@
                && final(world)@[k].lights == old(world)@[k].lights,
        forall|i: int|
            0 <= i < locals@.len() && old(world)@.dom().contains(#[trigger] locals@[i]) ==> kind_neighborhood_of(
                final(world)@,
                locals@[i],
                final(world)@[locals@[i]].kinds.neighbors(),
            ),
{
    let mut i: usize = 0;
    while i < locals.len()
        invariant
            i <= locals@.len(),
            world.wf(),
            world.chunks_wf(),
            crate::light_propagator::world_in_range(world@),
            world@.dom() == old(world)@.dom(),
            forall|k: IVec3|
                #[trigger] world@.dom().contains(k) ==> world@[k].kinds@ == old(world)@[k].kinds@
                    && world@[k].lights == old(world)@[k].lights,
            forall|a: int|
                0 <= a < i && old(world)@.dom().contains(#[trigger] locals@[a]) ==> kind_neighborhood_of(
                    world@,
                    locals@[a],
                    world@[locals@[a]].kinds.neighbors(),
                ),
        decreases locals@.len() - i,
    {
        let local = locals[i];
        if world.contains(local) {
            let ghost w0 = world@;
            world.update_neighborhood(local);
            proof {
                assert forall|k: IVec3| #[trigger] world@.dom().contains(k) implies world@[k].kinds@ == old(
                    world,
                )@[k].kinds@ && world@[k].lights == old(world)@[k].lights && has_neighbors(k) by {
                    assert(w0.dom().contains(k));
                }
                lemma_same_layers(w0, world@, local, world@[local].kinds.neighbors());
                assert forall|a: int|
                    0 <= a < i + 1 && old(world)@.dom().contains(#[trigger] locals@[a]) implies kind_neighborhood_of(
                        world@,
                        locals@[a],
                        world@[locals@[a]].kinds.neighbors(),
                    ) by {
                    if locals@[a] != local {
                        assert(world@[locals@[a]] == w0[locals@[a]]);
                        lemma_same_layers(w0, world@, locals@[a], w0[locals@[a]].kinds.neighbors());
                    }
                }
            }
        }
        i = i + 1;
    }
}

} // verus!
