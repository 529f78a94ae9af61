use projekto::chunk::ChunkFacesOcclusion;
use projekto::math::IVec3;
use projekto::mesh;
use projekto::voxel::{FacesOcclusion, Side, VoxelFace};
use projekto::voxworld::Chunk;

fn face(vertices: [(i32, i32, i32); 4], side: Side, kind: u16) -> VoxelFace {
    VoxelFace {
        vertices: [
            vertices[0].into(),
            vertices[1].into(),
            vertices[2].into(),
            vertices[3].into(),
        ],
        side,
        kind: kind.into(),
        light_intensity: 0,
    }
}

fn single(v: (i32, i32, i32), side: Side) -> VoxelFace {
    face([v, v, v, v], side, 1)
}

#[test]
fn merge_faces_two_voxels() {
    let mut chunk = Chunk::new();
    chunk.kinds.set((0, 0, 0).into(), 1.into());
    chunk.kinds.set((1, 0, 0).into(), 1.into());

    let merged = mesh::merge_faces(&ChunkFacesOcclusion::new(), &chunk);

    let line = [(0, 0, 0), (1, 0, 0), (1, 0, 0), (0, 0, 0)];
    let expected = vec![
        single((0, 0, 0), Side::Right),
        single((1, 0, 0), Side::Right),
        single((0, 0, 0), Side::Left),
        single((1, 0, 0), Side::Left),
        face(line, Side::Up, 1),
        face(line, Side::Down, 1),
        face(line, Side::Front, 1),
        single((0, 0, 0), Side::Back),
        single((1, 0, 0), Side::Back),
    ];
    assert_eq!(merged, expected);
}

#[test]
fn merge_faces_square() {
    let mut chunk = Chunk::new();
    for (x, y) in [(0, 0), (1, 0), (0, 1), (1, 1)] {
        chunk.kinds.set(IVec3::new(x, y, 0), 3.into());
    }

    let front = mesh::merge_faces(&ChunkFacesOcclusion::new(), &chunk)
        .into_iter()
        .filter(|f| f.side == Side::Front)
        .collect::<Vec<_>>();

    assert_eq!(front, vec![face([(0, 0, 0), (1, 0, 0), (1, 1, 0), (0, 1, 0)], Side::Front, 3)]);
}

#[test]
fn merge_faces_rows_of_another_kind() {
    // A row of another kind is not added to a face: it starts a face of its own.
    let mut chunk = Chunk::new();
    chunk.kinds.set((0, 0, 0).into(), 1.into());
    chunk.kinds.set((1, 0, 0).into(), 1.into());
    chunk.kinds.set((0, 1, 0).into(), 2.into());
    chunk.kinds.set((1, 1, 0).into(), 2.into());

    let front = mesh::merge_faces(&ChunkFacesOcclusion::new(), &chunk)
        .into_iter()
        .filter(|f| f.side == Side::Front)
        .collect::<Vec<_>>();

    assert_eq!(
        front,
        vec![
            face([(0, 0, 0), (1, 0, 0), (1, 0, 0), (0, 0, 0)], Side::Front, 1),
            face([(0, 1, 0), (1, 1, 0), (1, 1, 0), (0, 1, 0)], Side::Front, 2),
        ]
    );
}

#[test]
fn merge_faces_keeps_kinds_apart() {
    let mut chunk = Chunk::new();
    chunk.kinds.set((0, 0, 0).into(), 1.into());
    chunk.kinds.set((0, 1, 0).into(), 2.into());

    let merged = mesh::merge_faces(&ChunkFacesOcclusion::new(), &chunk);

    let sides = [Side::Right, Side::Left, Side::Up, Side::Down, Side::Front, Side::Back];
    let mut expected = Vec::new();
    for side in sides {
        expected.push(face([(0, 0, 0); 4], side, 1));
        expected.push(face([(0, 1, 0); 4], side, 2));
    }
    assert_eq!(merged, expected);
}

#[test]
fn merge_faces_of_empty_chunk() {
    let chunk = Chunk::new();
    assert!(mesh::merge_faces(&ChunkFacesOcclusion::new(), &chunk).is_empty());
}

#[test]
fn merge_faces_skips_occluded_faces() {
    let mut chunk = Chunk::new();
    chunk.kinds.set((2, 2, 2).into(), 1.into());
    let mut occlusion = ChunkFacesOcclusion::new();
    let mut faces = FacesOcclusion::default();
    faces.set_all(true);
    faces.set(Side::Up, false);
    occlusion.set((2, 2, 2).into(), faces);

    let merged = mesh::merge_faces(&occlusion, &chunk);
    assert_eq!(merged, vec![single((2, 2, 2), Side::Up)]);
}

#[test]
fn merge_faces_covers_each_face_once() {
    // An L of three voxels on the ground, a pillar of two on top of its corner.
    let mut chunk = Chunk::new();
    for v in [(3, 0, 3), (4, 0, 3), (3, 0, 4), (3, 1, 3), (3, 2, 3)] {
        chunk.kinds.set(v.into(), 1.into());
    }
    let merged = mesh::merge_faces(&ChunkFacesOcclusion::new(), &chunk);

    let covers = |f: &VoxelFace, v: IVec3| {
        let (p, q) = (f.vertices[0], f.vertices[2]);
        let within = |a: i32, b: i32, x: i32| a.min(b) <= x && x <= a.max(b);
        within(p.x, q.x, v.x) && within(p.y, q.y, v.y) && within(p.z, q.z, v.z)
    };
    for side in [Side::Right, Side::Left, Side::Up, Side::Down, Side::Front, Side::Back] {
        for x in 0..16 {
            for y in 0..16 {
                for z in 0..16 {
                    let v = IVec3::new(x, y, z);
                    let count = merged.iter().filter(|f| f.side == side && covers(f, v)).count();
                    let drawn = !chunk.kinds.get(v).is_empty();
                    assert_eq!(count, if drawn { 1 } else { 0 }, "{:?} {:?}", side, v);
                }
            }
        }
    }
}

#[test]
fn compute_wireframe_indices_of_one_face() {
    let mut expected = vec![0; 8];
    expected.extend([0, 1, 1, 2, 2, 3, 3, 0]);
    assert_eq!(mesh::compute_wireframe_indices(4), expected);
    assert!(mesh::compute_wireframe_indices(0).is_empty());
}

#[test]
fn compute_wireframe_indices_of_two_faces() {
    let r = mesh::compute_wireframe_indices(8);
    assert_eq!(r.len(), 16 + 16);
    assert_eq!(&r[16..], &[0, 1, 1, 2, 2, 3, 3, 0, 4, 5, 5, 6, 6, 7, 7, 4]);
}
