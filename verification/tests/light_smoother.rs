use projekto::chunk::ChunkFacesOcclusion;
use projekto::light_smoother::{self, NeighborLight, SmoothLight, NEIGHBOR_COUNT, NEIGHBOR_VERTEX_LOOKUP};
use projekto::math::IVec3;
use projekto::voxel::{FacesOcclusion, Light, Side};
use projekto::voxworld::{Chunk, VoxWorld};

#[test]
fn gather_neighborhood_light() {
    let mut chunk = Chunk::new();

    let voxel = IVec3::new(10, 10, 10);

    let mut i = 0;
    for y in -1..=1 {
        for z in -1..=1 {
            for x in -1..=1 {
                chunk.lights.set(voxel.plus(IVec3::new(x, y, z)), Light::natural(i));
                i += 1
            }
        }
    }

    let mut world = VoxWorld::new();
    world.add((0, 0, 0).into(), chunk);

    let neighbors = light_smoother::gather_neighborhood_light(&world, (0, 0, 0).into(), voxel);
    let chunk = world.get((0, 0, 0).into()).unwrap();

    let mut i = 0;
    for y in -1..=1 {
        for z in -1..=1 {
            for x in -1..=1 {
                let neighbor = voxel.plus(IVec3::new(x, y, z));

                if neighbor == voxel {
                    continue;
                }

                assert_eq!(
                    chunk.lights.get(neighbor).get_greater_intensity(),
                    neighbors[i].intensity(),
                    "Failed at {neighbor:?} [{i}]"
                );
                i += 1
            }
        }
    }
}

#[test]
fn lookup_table() {
    let mut count = vec![0; NEIGHBOR_COUNT];

    let corners = vec![0usize, 2, 19, 17, 6, 8, 25, 23];

    for s in NEIGHBOR_VERTEX_LOOKUP {
        for v in s {
            for i in v {
                count[i] += 1;
            }
        }
    }

    for (i, cnt) in count.into_iter().enumerate() {
        let expected = if corners.contains(&i) { 3 } else { 4 };

        assert_eq!(cnt, expected, "In Lookup each neighbor should appears 4 times, except corners, which should appears 3 times.");
    }
}

#[test]
fn gather_reads_neighbor_chunks() {
    let mut world = VoxWorld::new();
    let mut center = Chunk::new();
    center.kinds.set((14, 0, 0).into(), 1.into());
    world.add((0, 0, 0).into(), center);
    let mut right = Chunk::new();
    right.lights.set_natural((0, 1, 0).into(), 9);
    world.add((1, 0, 0).into(), right);

    let n = light_smoother::gather_neighborhood_light(&world, (0, 0, 0).into(), (15, 0, 0).into());
    // (-1, -1, -1) and the others below y = 0 lie in an unloaded chunk.
    assert_eq!(n[0], NeighborLight::Transparent(0));
    // (-1, 0, 0) is the opaque, unlit voxel (14, 0, 0).
    assert_eq!(n[12], NeighborLight::Opaque);
    // (1, 1, 0) is the voxel (0, 1, 0) of the chunk on the right.
    assert_eq!(n[22], NeighborLight::Transparent(9));
}

#[test]
fn smooth_ambient_occlusion_values() {
    let mut n = [NeighborLight::Transparent(4); NEIGHBOR_COUNT];
    assert_eq!(light_smoother::smooth_ambient_occlusion(&n, Side::Up, 0, false), (16, 4));
    assert_eq!(light_smoother::smooth_ambient_occlusion(&n, Side::Up, 0, true), (4, 1));
    // Up, vertex 0: [21, 24, 20, 23]; both sides beside the vertex opaque hide the corner.
    n[24] = NeighborLight::Opaque;
    n[20] = NeighborLight::Opaque;
    n[23] = NeighborLight::Transparent(15);
    assert_eq!(light_smoother::smooth_ambient_occlusion(&n, Side::Up, 0, false), (4, 4));
}

fn lit_world(kind_at: (i32, i32, i32), kind: u16) -> VoxWorld {
    let mut chunk = Chunk::new();
    chunk.lights.set_all(Light::natural(15));
    chunk.kinds.set(kind_at.into(), kind.into());
    let mut world = VoxWorld::new();
    world.add((0, 0, 0).into(), chunk);
    world
}

fn index(x: usize, y: usize, z: usize) -> usize {
    x * 256 + z * 16 + y
}

#[test]
fn smooth_lighting_averages_neighbors() {
    let world = lit_world((5, 5, 5), 1);
    let occlusion = ChunkFacesOcclusion::new();
    let smooth = light_smoother::smooth_lighting(&world, (0, 0, 0).into(), &occlusion);
    assert_eq!(smooth.len(), 4096);
    assert_eq!(smooth[index(5, 5, 5)].get(Side::Up), [(60, 4); 4]);
    // Beyond the chunk border there is no loaded chunk: no light comes from there.
    assert_eq!(smooth[index(0, 5, 5)].get(Side::Left), [(0, 4); 4]);
}

#[test]
fn smooth_lighting_of_emitter() {
    let world = lit_world((5, 5, 5), 4);
    let occlusion = ChunkFacesOcclusion::new();
    let smooth = light_smoother::smooth_lighting(&world, (0, 0, 0).into(), &occlusion);
    assert_eq!(smooth[index(5, 5, 5)].get(Side::Front), [(15, 1); 4]);
}

#[test]
fn smooth_lighting_skips_occluded_faces() {
    let world = lit_world((5, 5, 5), 1);
    let mut occlusion = ChunkFacesOcclusion::new();
    let mut faces = FacesOcclusion::default();
    faces.set(Side::Down, true);
    occlusion.set((5, 5, 5).into(), faces);
    let mut full = FacesOcclusion::default();
    full.set_all(true);
    occlusion.set((6, 6, 6).into(), full);

    let smooth = light_smoother::smooth_lighting(&world, (0, 0, 0).into(), &occlusion);
    assert_eq!(smooth[index(5, 5, 5)].get(Side::Down), [(0, 1); 4]);
    assert_eq!(smooth[index(5, 5, 5)].get(Side::Up), [(60, 4); 4]);
    assert_eq!(smooth[index(6, 6, 6)], SmoothLight::default());
}

#[test]
fn smooth_lighting_of_missing_chunk() {
    let world = lit_world((5, 5, 5), 1);
    let occlusion = ChunkFacesOcclusion::new();
    let smooth = light_smoother::smooth_lighting(&world, (1, 0, 0).into(), &occlusion);
    assert!(smooth.iter().all(|s| *s == SmoothLight::default()));
}
