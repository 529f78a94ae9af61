use vstd::prelude::*;

use crate::chunk::{
    ChunkFacesOcclusion, BUFFER_SIZE, from_index, in_bounds, is_within_bounds, overlap_dir,
    overlap_voxel, voxel_at,
};
use crate::math::{IVec3, vadd, vrem};
use crate::voxel::{Side, SIDE_COUNT};
use crate::voxworld::{Chunk, VoxWorld, has_neighbors};

verus! {

/// The voxels around a voxel: the 3 x 3 x 3 block but its center.
pub const NEIGHBOR_COUNT: usize = 26;

pub const VERTEX_COUNT: usize = 4;

pub const VERTEX_NEIGHBOR_COUNT: usize = 4;

/// For each side and each vertex of the face on that side, the neighbors whose light reaches
/// that vertex: the neighbor the face looks at, the two neighbors beside it that touch the
/// vertex, and the one in the corner. Neighbors are numbered by growing `x`, then `z`, then
/// `y`, from `(-1, -1, -1)` to `(1, 1, 1)`, skipping the center.
pub const NEIGHBOR_VERTEX_LOOKUP: [[[usize; VERTEX_COUNT]; VERTEX_NEIGHBOR_COUNT]; SIDE_COUNT] = [
    [[13, 5, 16, 8], [13, 5, 11, 2], [13, 22, 11, 19], [13, 22, 16, 25]],
    [[12, 3, 9, 0], [12, 3, 14, 6], [12, 20, 14, 23], [12, 20, 9, 17]],
    [[21, 24, 20, 23], [21, 24, 22, 25], [21, 18, 22, 19], [21, 18, 20, 17]],
    [[4, 1, 3, 0], [4, 1, 5, 2], [4, 7, 5, 8], [4, 7, 3, 6]],
    [[15, 7, 14, 6], [15, 7, 16, 8], [15, 24, 16, 25], [15, 24, 14, 23]],
    [[10, 1, 11, 2], [10, 1, 9, 0], [10, 18, 9, 17], [10, 18, 11, 19]],
];

proof fn lemma_lookup_bounds(a: int, b: int)
    requires
        0 <= a < SIDE_COUNT,
        0 <= b < VERTEX_NEIGHBOR_COUNT,
    ensures
        forall|c: int| 0 <= c < VERTEX_COUNT ==> #[trigger] NEIGHBOR_VERTEX_LOOKUP[a][b][c] < NEIGHBOR_COUNT,
{
    let t = NEIGHBOR_VERTEX_LOOKUP;
    assert(t[0][0][0] == 13);
}

/// The light of a neighbor voxel: none through an unlit opaque voxel, else its intensity.
#[derive(Debug, Copy, Clone, PartialEq, Eq, Structural)]
pub enum NeighborLight {
    Opaque,
    Transparent(u8),
}

impl NeighborLight {
    pub fn is_opaque(&self) -> (r: bool)
        ensures
            r == (*self is Opaque),
    {
        match self {
            NeighborLight::Opaque => true,
            NeighborLight::Transparent(_) => false,
        }
    }

    pub open spec fn spec_intensity(self) -> u8 {
        match self {
            NeighborLight::Opaque => 0,
            NeighborLight::Transparent(i) => i,
        }
    }

    pub fn intensity(self) -> (r: u8)
        ensures
            r == self.spec_intensity(),
    {
        match self {
            NeighborLight::Opaque => 0,
            NeighborLight::Transparent(i) => i,
        }
    }
}

/// The direction of the neighbor numbered `i`.
pub open spec fn neighbor_dir(i: int) -> IVec3 {
    let j = if i < 13 {
        i
    } else {
        i + 1
    };
    IVec3 { x: (j % 3 - 1) as i32, y: (j / 9 - 1) as i32, z: ((j / 3) % 3 - 1) as i32 }
}

/// The light seen in the voxel `v` of `chunk`.
pub open spec fn light_in(chunk: Chunk, v: IVec3) -> NeighborLight {
    let intensity = chunk.lights.at(v).greater();
    if intensity == 0 && chunk.kinds.at(v).opaque() {
        NeighborLight::Opaque
    } else {
        NeighborLight::Transparent(intensity)
    }
}

/// The light seen from `voxel` of the chunk at `local` in its neighbor `dir` away: read in the
/// chunk holding it, and `Transparent(0)` when that chunk isn't loaded.
pub open spec fn neighbor_light(world: Map<IVec3, Chunk>, local: IVec3, voxel: IVec3, dir: IVec3) -> NeighborLight {
    let w = vadd(voxel, dir);
    if in_bounds(w) {
        light_in(world[local], w)
    } else {
        let neighbor_local = vadd(local, overlap_dir(w));
        if world.dom().contains(neighbor_local) {
            light_in(world[neighbor_local], vrem(w, 16))
        } else {
            NeighborLight::Transparent(0)
        }
    }
}

fn read_light(chunk: &Chunk, v: IVec3) -> (r: NeighborLight)
    requires
        chunk.wf(),
        in_bounds(v),
    ensures
        r == light_in(*chunk, v),
{
    let intensity = chunk.lights.get(v).get_greater_intensity();
    if intensity == 0 && chunk.kinds.get(v).is_opaque() {
        NeighborLight::Opaque
    } else {
        NeighborLight::Transparent(intensity)
    }
}

/// **Returns** the light of the 26 neighbors of `voxel` in the chunk at `local`, numbered by
/// growing `x`, then `z`, then `y`.
pub fn gather_neighborhood_light(world: &VoxWorld, local: IVec3, voxel: IVec3) -> (r: [NeighborLight; NEIGHBOR_COUNT])
    requires
        world.wf(),
        world.chunks_wf(),
        world@.dom().contains(local),
        has_neighbors(local),
        in_bounds(voxel),
    ensures
        forall|i: int| 0 <= i < NEIGHBOR_COUNT ==> #[trigger] r[i] == neighbor_light(world@, local, voxel, neighbor_dir(i)),
{
    let mut neighbors = [NeighborLight::Opaque; NEIGHBOR_COUNT];
    let chunk = match world.get(local) {
        Some(c) => c,
        None => {
            return neighbors;
        },
    };
    let mut i: usize = 0;
    let mut y: i32 = -1;
    while y <= 1
        invariant
            -1 <= y <= 2,
            i == (if y <= 0 { (y + 1) * 9 } else { (y + 1) * 9 - 1 }),
            world.wf(),
            world.chunks_wf(),
            has_neighbors(local),
            in_bounds(voxel),
            *chunk == world@[local],
            world@.dom().contains(local),
            forall|k: int| 0 <= k < i ==> #[trigger] neighbors[k] == neighbor_light(world@, local, voxel, neighbor_dir(k)),
        decreases 2 - y,
    {
        let mut z: i32 = -1;
        while z <= 1
            invariant
                -1 <= y <= 1,
                -1 <= z <= 2,
                i == (if y < 0 || (y == 0 && z <= 0) { (y + 1) * 9 + (z + 1) * 3 } else { (y + 1) * 9 + (z + 1) * 3 - 1 }),
                world.wf(),
                world.chunks_wf(),
                has_neighbors(local),
                in_bounds(voxel),
                *chunk == world@[local],
                world@.dom().contains(local),
                forall|k: int| 0 <= k < i ==> #[trigger] neighbors[k] == neighbor_light(world@, local, voxel, neighbor_dir(k)),
            decreases 2 - z,
        {
            let mut x: i32 = -1;
            while x <= 1
                invariant
                    -1 <= y <= 1,
                    -1 <= z <= 1,
                    -1 <= x <= 2,
                    i == (if y < 0 || (y == 0 && z < 0) || (y == 0 && z == 0 && x <= 0) {
                        (y + 1) * 9 + (z + 1) * 3 + (x + 1)
                    } else {
                        (y + 1) * 9 + (z + 1) * 3 + (x + 1) - 1
                    }),
                    world.wf(),
                    world.chunks_wf(),
                    has_neighbors(local),
                    in_bounds(voxel),
                    *chunk == world@[local],
                    world@.dom().contains(local),
                    forall|k: int| 0 <= k < i ==> #[trigger] neighbors[k] == neighbor_light(world@, local, voxel, neighbor_dir(k)),
                decreases 2 - x,
            {
                if !(x == 0 && y == 0 && z == 0) {
                    let dir = IVec3 { x, y, z };
                    let side_voxel = voxel.plus(dir);
                    let light = if is_within_bounds(side_voxel) {
                        read_light(chunk, side_voxel)
                    } else {
                        let (d, neighbor_voxel) = overlap_voxel(side_voxel);
                        let neighbor_local = local.plus(d);
                        match world.get(neighbor_local) {
                            Some(neighbor_chunk) => read_light(neighbor_chunk, neighbor_voxel),
                            None => NeighborLight::Transparent(0),
                        }
                    };
                    proof {
                        let j = (y + 1) * 9 + (z + 1) * 3 + (x + 1);
                        assert(j % 3 - 1 == x && j / 9 - 1 == y && (j / 3) % 3 - 1 == z) by (nonlinear_arith)
                            requires
                                j == (y + 1) * 9 + (z + 1) * 3 + (x + 1),
                                -1 <= x <= 1,
                                -1 <= y <= 1,
                                -1 <= z <= 1,
                        ;
                        assert(neighbor_dir(i as int) == dir);
                    }
                    neighbors[i] = light;
                    i = i + 1;
                }
                x = x + 1;
            }
            z = z + 1;
        }
        y = y + 1;
    }
    neighbors
}

/// The sum of the light reaching the vertex `vertex` of the face on `side`, and what it is to
/// be divided by, with `neighbors` giving the light of each numbered neighbor: a light emitter
/// takes the light of the neighbor it faces, undivided; else the four neighbors around the
/// vertex are averaged, the corner counting as opaque when both neighbors beside it are.
pub open spec fn vertex_light_of(neighbors: spec_fn(int) -> NeighborLight, side: int, vertex: int, emitter: bool) -> (u16, u16) {
    let lookup = NEIGHBOR_VERTEX_LOOKUP[side][vertex];
    let s = neighbors(lookup[0] as int);
    if emitter {
        (s.spec_intensity() as u16, 1)
    } else {
        let s1 = neighbors(lookup[1] as int);
        let s2 = neighbors(lookup[2] as int);
        let corner = if s1 is Opaque && s2 is Opaque {
            NeighborLight::Opaque
        } else {
            neighbors(lookup[3] as int)
        };
        ((s.spec_intensity() + s1.spec_intensity() + s2.spec_intensity() + corner.spec_intensity()) as u16, 4)
    }
}

/// [`vertex_light_of`] for the gathered neighbors.
pub open spec fn vertex_light(neighbors: [NeighborLight; NEIGHBOR_COUNT], side: int, vertex: int, emitter: bool) -> (u16, u16) {
    vertex_light_of(|i: int| neighbors[i], side, vertex, emitter)
}

/// The four neighbors a vertex reads are the ones around it: the first is the voxel the face
/// looks at, the second and the third lie one step from it along two different axes across
/// the face, and the fourth is the corner, one step along both.
pub proof fn lemma_vertex_neighbors_around(side: Side, vertex: int)
    requires
        0 <= vertex < VERTEX_COUNT,
    ensures
        ({
            let lookup = NEIGHBOR_VERTEX_LOOKUP[side.idx()][vertex];
            let d = side.direction();
            let d1 = neighbor_dir(lookup[1] as int);
            let d2 = neighbor_dir(lookup[2] as int);
            let d3 = neighbor_dir(lookup[3] as int);
            let a = IVec3 { x: (d1.x - d.x) as i32, y: (d1.y - d.y) as i32, z: (d1.z - d.z) as i32 };
            let b = IVec3 { x: (d2.x - d.x) as i32, y: (d2.y - d.y) as i32, z: (d2.z - d.z) as i32 };
            &&& neighbor_dir(lookup[0] as int) == d
            &&& crate::faces_merger::unit_axis(a)
            &&& crate::faces_merger::unit_axis(b)
            &&& a.x * d.x + a.y * d.y + a.z * d.z == 0
            &&& b.x * d.x + b.y * d.y + b.z * d.z == 0
            &&& a.x * b.x + a.y * b.y + a.z * b.z == 0
            &&& d3.x == d.x + a.x + b.x && d3.y == d.y + a.y + b.y && d3.z == d.z + a.z + b.z
        }),
{
    let t = NEIGHBOR_VERTEX_LOOKUP;
    assert(t[0][0][0] == 13);
    let i = side.idx();
    assert(0 <= i < 6);
    let l = t[i][vertex];
    assert(l[0] < 26 && l[1] < 26 && l[2] < 26 && l[3] < 26) by {
        lemma_lookup_bounds(i, vertex);
    }
}

/// The light of a vertex, in terms of the four neighbors around it (`a` faced, `b` and `c`
/// beside it, `d` in the corner): a light emitter takes the light of `a` alone, undivided;
/// any other face sums the intensities of the four, opaque ones counting 0, and divides by
/// 4, except that the corner is shut out, and so counts 0 too, exactly when both neighbors
/// beside the vertex are opaque.
pub proof fn lemma_vertex_light_sum(neighbors: [NeighborLight; NEIGHBOR_COUNT], side: Side, vertex: int, emitter: bool)
    requires
        0 <= vertex < VERTEX_COUNT,
    ensures
        ({
            let lookup = NEIGHBOR_VERTEX_LOOKUP[side.idx()][vertex];
            let light = |n: NeighborLight| -> int {
                match n {
                    NeighborLight::Opaque => 0,
                    NeighborLight::Transparent(i) => i as int,
                }
            };
            let a = neighbors[lookup[0] as int];
            let b = neighbors[lookup[1] as int];
            let c = neighbors[lookup[2] as int];
            let d = neighbors[lookup[3] as int];
            let r = vertex_light(neighbors, side.idx(), vertex, emitter);
            &&& emitter ==> r.0 == light(a) && r.1 == 1
            &&& !emitter ==> r.1 == 4
            &&& !emitter && (b is Opaque && c is Opaque) ==> r.0 == light(a)
            &&& !emitter && !(b is Opaque && c is Opaque) ==> r.0 == light(a) + light(b) + light(c) + light(d)
        }),
{
    lemma_lookup_bounds(side.idx(), vertex);
}

/// **Returns** the light of the vertex `vertex` of the face on `side`, as a sum and the number
/// it is to be divided by.
pub fn smooth_ambient_occlusion(neighbors: &[NeighborLight; NEIGHBOR_COUNT], side: Side, vertex: usize, emitter: bool) -> (r: (u16, u16))
    requires
        vertex < VERTEX_COUNT,
    ensures
        r == vertex_light(*neighbors, side.idx(), vertex as int, emitter),
{
    let idx = side.index();
    let lookup = NEIGHBOR_VERTEX_LOOKUP[idx][vertex];
    proof {
        lemma_lookup_bounds(idx as int, vertex as int);
    }
    let s = neighbors[lookup[0]];
    if emitter {
        return (s.intensity() as u16, 1);
    }
    let s1 = neighbors[lookup[1]];
    let s2 = neighbors[lookup[2]];
    let corner = if s1.is_opaque() && s2.is_opaque() {
        NeighborLight::Opaque
    } else {
        neighbors[lookup[3]]
    };
    ((s.intensity() as u16) + (s1.intensity() as u16) + (s2.intensity() as u16) + (corner.intensity() as u16), 4)
}

/// The smoothed light of the faces of a voxel: for each side, the light of the four vertices
/// of its face, each as a sum of intensities and the number it is to be divided by.
#[derive(Clone, Copy, Debug, PartialEq, Eq)]
pub struct SmoothLight(pub [[(u16, u16); VERTEX_COUNT]; SIDE_COUNT]);

impl Default for SmoothLight {
    /// No light: every vertex is `0 / 1`.
    fn default() -> (r: Self)
        ensures
            forall|s: int, k: int| 0 <= s < SIDE_COUNT && 0 <= k < VERTEX_COUNT ==> #[trigger] r.0[s][k] == (0u16, 1u16),
    {
        SmoothLight([[(0, 1); VERTEX_COUNT]; SIDE_COUNT])
    }
}

impl SmoothLight {
    fn set(&mut self, side: Side, light: [(u16, u16); VERTEX_COUNT])
        ensures
            final(self).0[side.idx()] == light,
            forall|s: int| 0 <= s < SIDE_COUNT && s != side.idx() ==> #[trigger] final(self).0[s] == old(self).0[s],
    {
        self.0[side.index()] = light;
    }

    /// The light of the four vertices of the face on `side`.
    pub fn get(&self, side: Side) -> (r: [(u16, u16); VERTEX_COUNT])
        ensures
            r == self.0[side.idx()],
    {
        self.0[side.index()]
    }
}

/// The smoothed light of vertex `vertex` of the face of `v` on side `side`, in the chunk at
/// `local`: no light when the chunk isn't loaded or the face is occluded.
pub open spec fn face_vertex_light(
    world: Map<IVec3, Chunk>,
    local: IVec3,
    occlusion: ChunkFacesOcclusion,
    v: IVec3,
    side: int,
    vertex: int,
) -> (u16, u16) {
    if !world.dom().contains(local) || occlusion.at(v).fully_occluded() || occlusion.at(v).occluded(
        side,
    ) {
        (0, 1)
    } else {
        vertex_light_of(
            |i: int| neighbor_light(world, local, v, neighbor_dir(i)),
            side,
            vertex,
            world[local].kinds.at(v).emitter(),
        )
    }
}

proof fn lemma_vertex_light_gathered(
    neighbors: [NeighborLight; NEIGHBOR_COUNT],
    world: Map<IVec3, Chunk>,
    local: IVec3,
    v: IVec3,
    side: int,
    vertex: int,
    emitter: bool,
)
    requires
        0 <= side < SIDE_COUNT,
        0 <= vertex < VERTEX_COUNT,
        forall|i: int| 0 <= i < NEIGHBOR_COUNT ==> #[trigger] neighbors[i] == neighbor_light(world, local, v, neighbor_dir(i)),
    ensures
        vertex_light(neighbors, side, vertex, emitter) == vertex_light_of(
            |i: int| neighbor_light(world, local, v, neighbor_dir(i)),
            side,
            vertex,
            emitter,
        ),
{
    lemma_lookup_bounds(side, vertex);
    let lookup = NEIGHBOR_VERTEX_LOOKUP[side][vertex];
    assert(neighbors[lookup[0] as int] == neighbor_light(world, local, v, neighbor_dir(lookup[0] as int)));
    assert(neighbors[lookup[1] as int] == neighbor_light(world, local, v, neighbor_dir(lookup[1] as int)));
    assert(neighbors[lookup[2] as int] == neighbor_light(world, local, v, neighbor_dir(lookup[2] as int)));
    assert(neighbors[lookup[3] as int] == neighbor_light(world, local, v, neighbor_dir(lookup[3] as int)));
}

/**
 Smooths the light of every drawn face of the chunk at `local`: each vertex gets the light of
 the neighbors around it, with ambient occlusion.

 **Returns** the smoothed light of each voxel, in buffer order; voxels whose faces are all
 occluded, occluded faces, and every voxel when the chunk isn't loaded get no light.
*/
pub fn smooth_lighting(world: &VoxWorld, local: IVec3, occlusion: &ChunkFacesOcclusion) -> (r: Vec<SmoothLight>)
    requires
        world.wf(),
        world.chunks_wf(),
        has_neighbors(local),
        occlusion.wf(),
    ensures
        r@.len() == BUFFER_SIZE,
        forall|i: int, s: int, k: int|
            0 <= i < BUFFER_SIZE && 0 <= s < SIDE_COUNT && 0 <= k < VERTEX_COUNT ==> #[trigger] r@[i].0[s][k]
                == face_vertex_light(world@, local, *occlusion, voxel_at(i), s, k),
{
    let mut chunk_smooth_light: Vec<SmoothLight> = Vec::new();
    let chunk = match world.get(local) {
        Some(c) => c,
        None => {
            let mut i: usize = 0;
            while i < BUFFER_SIZE
                invariant
                    i <= BUFFER_SIZE,
                    chunk_smooth_light@.len() == i,
                    !world@.dom().contains(local),
                    forall|j: int, s: int, k: int|
                        0 <= j < i && 0 <= s < SIDE_COUNT && 0 <= k < VERTEX_COUNT ==> #[trigger] chunk_smooth_light@[j].0[s][k]
                            == (0u16, 1u16),
                decreases BUFFER_SIZE - i,
            {
                chunk_smooth_light.push(SmoothLight::default());
                i = i + 1;
            }
            return chunk_smooth_light;
        },
    };

    let mut i: usize = 0;
    while i < BUFFER_SIZE
        invariant
            i <= BUFFER_SIZE,
            world.wf(),
            world.chunks_wf(),
            has_neighbors(local),
            occlusion.wf(),
            world@.dom().contains(local),
            *chunk == world@[local],
            chunk_smooth_light@.len() == i,
            forall|j: int, s: int, k: int|
                0 <= j < i && 0 <= s < SIDE_COUNT && 0 <= k < VERTEX_COUNT ==> #[trigger] chunk_smooth_light@[j].0[s][k]
                    == face_vertex_light(world@, local, *occlusion, voxel_at(j), s, k),
        decreases BUFFER_SIZE - i,
    {
        let voxel = from_index(i);
        let voxel_occlusion = occlusion.get(voxel);

        if voxel_occlusion.is_fully_occluded() {
            chunk_smooth_light.push(SmoothLight::default());
            i = i + 1;
            continue;
        }

        let emitter = chunk.kinds.get(voxel).is_light_emitter();
        let neighbors = gather_neighborhood_light(world, local, voxel);
        let mut smooth_light = SmoothLight::default();

        let mut n: usize = 0;
        while n < SIDE_COUNT
            invariant
                n <= SIDE_COUNT,
                in_bounds(voxel),
                voxel == voxel_at(i as int),
                world@.dom().contains(local),
                *chunk == world@[local],
                voxel_occlusion == occlusion.at(voxel),
                !voxel_occlusion.fully_occluded(),
                emitter == chunk.kinds.at(voxel).emitter(),
                forall|j: int| 0 <= j < NEIGHBOR_COUNT ==> #[trigger] neighbors[j] == neighbor_light(world@, local, voxel, neighbor_dir(j)),
                forall|s: int, k: int|
                    0 <= s < n && 0 <= k < VERTEX_COUNT ==> #[trigger] smooth_light.0[s][k]
                        == face_vertex_light(world@, local, *occlusion, voxel, s, k),
                forall|s: int, k: int|
                    n <= s < SIDE_COUNT && 0 <= k < VERTEX_COUNT ==> #[trigger] smooth_light.0[s][k] == (0u16, 1u16),
            decreases SIDE_COUNT - n,
        {
            let side = Side::from_index(n);
            if voxel_occlusion.is_occluded(side) {
                n = n + 1;
                continue;
            }
            let light = [
                smooth_ambient_occlusion(&neighbors, side, 0, emitter),
                smooth_ambient_occlusion(&neighbors, side, 1, emitter),
                smooth_ambient_occlusion(&neighbors, side, 2, emitter),
                smooth_ambient_occlusion(&neighbors, side, 3, emitter),
            ];
            proof {
                assert forall|k: int| 0 <= k < VERTEX_COUNT implies #[trigger] light[k]
                    == face_vertex_light(world@, local, *occlusion, voxel, n as int, k) by {
                    lemma_vertex_light_gathered(neighbors, world@, local, voxel, n as int, k, emitter);
                }
            }
            smooth_light.set(side, light);
            n = n + 1;
        }
        chunk_smooth_light.push(smooth_light);
        i = i + 1;
    }
    chunk_smooth_light
}

} // verus!
