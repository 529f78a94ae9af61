use projekto::chunk::{self, ChunkKind};
use projekto::shaping;
use projekto::voxel::{self, FacesOcclusion, Side};
use projekto::voxworld::{gather_kind_neighborhood, Chunk, VoxWorld};

#[test]
fn faces_occlusion_occlude_empty_chunk() {
    // Arrange
    let chunk = ChunkKind::new();

    // Act
    let occlusions = shaping::faces_occlusion(&chunk);

    // Assert
    assert!(
        chunk::voxels()
            .into_iter()
            .all(|v| occlusions.get(v).is_fully_occluded()),
        "A chunk full of empty-kind voxels should be fully occluded"
    );
}

#[test]
fn shaping_faces_occlusion() {
    // Arrange
    let mut chunk = ChunkKind::new();

    // Top-Bottom occlusion
    chunk.set((1, 1, 1).into(), 1.into());
    chunk.set((1, 2, 1).into(), 1.into());

    // Full occluded voxel at (10, 10, 10)
    chunk.set((10, 10, 10).into(), 1.into());
    chunk.set((9, 10, 10).into(), 1.into());
    chunk.set((11, 10, 10).into(), 1.into());
    chunk.set((10, 9, 10).into(), 1.into());
    chunk.set((10, 11, 10).into(), 1.into());
    chunk.set((10, 10, 9).into(), 1.into());
    chunk.set((10, 10, 11).into(), 1.into());

    // Act
    let faces_occlusion = shaping::faces_occlusion(&chunk);

    // Assert
    let faces = faces_occlusion.get((1, 2, 1).into());

    assert_eq!(
        faces,
        FacesOcclusion::from_sides([false, false, false, true, false, false]),
        "Only down face should be occluded by the bottom voxel"
    );

    let faces = faces_occlusion.get((1, 1, 1).into());

    assert_eq!(
        faces,
        FacesOcclusion::from_sides([false, false, true, false, false, false]),
        "Only down face should be occluded by the bottom voxel"
    );

    let faces = faces_occlusion.get((10, 10, 10).into());

    assert_eq!(
        faces,
        FacesOcclusion::from_sides([true; voxel::SIDE_COUNT]),
        "Voxel fully surrounded by another non-empty voxels should be fully occluded"
    );
}

#[test]
fn shaping_update_neighborhood() {
    let mut world = VoxWorld::new();

    let center = (1, 1, 1).into();
    let mut chunk = Chunk::new();
    chunk.kinds.set_all(10.into());
    world.add(center, chunk);

    for side in voxel::SIDES {
        let dir = side.dir();
        let pos = center.plus(dir);
        let mut chunk = Chunk::new();
        chunk.kinds.set_all((side as u16).into());
        world.add(pos, chunk);
    }

    let neighborhood = gather_kind_neighborhood(&world, center);
    let chunk = world.get_mut(center).unwrap();
    chunk.kinds.set_neighborhood(neighborhood);

    for side in voxel::SIDES {
        let expected = Some((side as u16).into());
        let n = chunk.kinds.neighborhood();
        match side {
            Side::Right => {
                for a in 0..chunk::Y_AXIS_SIZE {
                    for b in 0..chunk::Z_AXIS_SIZE {
                        assert_eq!(n.get(side, (0, a as i32, b as i32).into()), expected);
                    }
                }
            }
            Side::Left => {
                for a in 0..chunk::Y_AXIS_SIZE {
                    for b in 0..chunk::Z_AXIS_SIZE {
                        assert_eq!(
                            n.get(side, (chunk::X_END, a as i32, b as i32).into()),
                            expected
                        );
                    }
                }
            }
            Side::Up => {
                for a in 0..chunk::X_AXIS_SIZE {
                    for b in 0..chunk::Z_AXIS_SIZE {
                        assert_eq!(n.get(side, (a as i32, 0, b as i32).into()), expected);
                    }
                }
            }
            Side::Down => {
                for a in 0..chunk::X_AXIS_SIZE {
                    for b in 0..chunk::Z_AXIS_SIZE {
                        assert_eq!(
                            n.get(side, (a as i32, chunk::Y_END, b as i32).into()),
                            expected
                        );
                    }
                }
            }
            Side::Front => {
                for a in 0..chunk::X_AXIS_SIZE {
                    for b in 0..chunk::Y_AXIS_SIZE {
                        assert_eq!(n.get(side, (a as i32, b as i32, 0).into()), expected);
                    }
                }
            }
            Side::Back => {
                for a in 0..chunk::X_AXIS_SIZE {
                    for b in 0..chunk::Y_AXIS_SIZE {
                        assert_eq!(
                            n.get(side, (a as i32, b as i32, chunk::Z_END).into()),
                            expected
                        );
                    }
                }
            }
        }
    }
}

#[test]
fn faces_occlusion_neighborhood() {
    let mut world = VoxWorld::new();

    let mut top = Chunk::new();
    top.kinds.set_all(2.into());

    let mut down = Chunk::new();
    down.kinds.set_all(3.into());

    let mut center = Chunk::new();
    center.kinds.set((0, chunk::Y_END, 0).into(), 1.into());
    center.kinds.set((1, 0, 1).into(), 1.into());

    world.add((0, 1, 0).into(), top);
    world.add((0, 0, 0).into(), center);
    world.add((0, -1, 0).into(), down);

    let neighborhood = gather_kind_neighborhood(&world, (0, 0, 0).into());
    let center = world.get_mut((0, 0, 0).into()).unwrap();
    center.kinds.set_neighborhood(neighborhood);

    let faces_occlusion = shaping::faces_occlusion(&center.kinds);

    let faces = faces_occlusion.get((0, chunk::Y_END, 0).into());
    assert_eq!(faces, FacesOcclusion::from_sides([false, false, true, false, false, false]));

    let faces = faces_occlusion.get((1, 0, 1).into());
    assert_eq!(faces, FacesOcclusion::from_sides([false, false, false, true, false, false]));
}

#[test]
fn compute_indices_of_two_faces() {
    assert_eq!(shaping::compute_indices(8), vec![0, 1, 2, 2, 3, 0, 4, 5, 6, 6, 7, 4]);
    assert_eq!(shaping::compute_indices(0), Vec::<u32>::new());
    assert_eq!(projekto::mesh::compute_indices(4), vec![0, 1, 2, 2, 3, 0]);
}

#[test]
fn recompute_chunk_faces() {
    let mut world = VoxWorld::new();
    let mut chunk = Chunk::new();
    chunk.kinds.set((3, 3, 3).into(), 1.into());
    world.add((0, 0, 0).into(), chunk);
    let faces = shaping::recompute_chunk(&mut world, (0, 0, 0).into()).unwrap();
    assert_eq!(faces.len(), 6);
    assert!(shaping::recompute_chunk(&mut world, (5, 0, 0).into()).is_none());
}
