use projekto::chunk::{self};
use projekto::light_propagator::{self, ChunkVoxelMap};
use projekto::shaping;
use projekto::math::IVec3;
use projekto::voxel::{self, Light, LightTy, Side};
use projekto::voxworld::{Chunk, VoxWorld};

fn top_voxels() -> Vec<IVec3> {
    (0..=chunk::X_END)
        .flat_map(|x| (0..=chunk::Z_END).map(move |z| (x, chunk::Y_END, z).into()))
        .collect()
}

fn set_natural_light_on_top_voxels(chunk: &mut Chunk) {
    let light = Light::natural(voxel::MAX_NATURAL_INTENSITY);

    for local in top_voxels() {
        chunk.lights.set(local, light);
    }
}

fn fill_z_axis(z: i32, chunk: &mut Chunk) {
    for x in 0..=chunk::X_END {
        for y in 0..=chunk::Y_END {
            chunk.kinds.set((x, y, z).into(), 1.into());
        }
    }
}

#[test]
fn propagate_chunk_natural_light_empty() {
    let mut chunk = Chunk::new();

    set_natural_light_on_top_voxels(&mut chunk);
    light_propagator::propagate_chunk_natural_light(&mut chunk, &top_voxels(), false);

    // Test the test function
    assert_eq!(
        top_voxels().len(),
        chunk::X_AXIS_SIZE * chunk::Z_AXIS_SIZE
    );

    for local in chunk::voxels() {
        assert_eq!(
            chunk.lights.get(local).get(LightTy::Natural),
            voxel::MAX_NATURAL_INTENSITY
        );
    }
}

#[test]
fn propagate_chunk_natural_light_simple_blocked() {
    /*
                    +------------------------+
                 4  | 15 | 15 | 15 | 15 | 15 |
                    +------------------------+
                 3  | 15 | 15 | -- | 15 | 15 |
                    +------------------------+
    Y            2  | 15 | 15 | 14 | 15 | 15 |
    |               +------------------------+
    |            1  | 15 | 15 | 14 | 15 | 15 |
    + ---- X        +------------------------+
                 0  | 15 | 15 | 14 | 15 | 15 |
                    +------------------------+

                 +    0    1    2    3    4
    */

    let mut chunk = Chunk::new();

    set_natural_light_on_top_voxels(&mut chunk);

    chunk.kinds.set((2, 3, 0).into(), 1.into());

    light_propagator::propagate_chunk_natural_light(&mut chunk, &top_voxels(), false);

    assert_eq!(
        chunk.lights.get((2, 3, 0).into()).get_greater_intensity(),
        0,
        "There should be no light on solid blocks"
    );

    assert_eq!(
        chunk.lights.get((2, 2, 0).into()).get_greater_intensity(),
        voxel::MAX_NATURAL_INTENSITY - 1,
    );

    assert_eq!(
        chunk.lights.get((2, 1, 0).into()).get_greater_intensity(),
        voxel::MAX_NATURAL_INTENSITY - 1,
    );

    assert_eq!(
        chunk.lights.get((2, 0, 0).into()).get_greater_intensity(),
        voxel::MAX_NATURAL_INTENSITY - 1,
    );
}

#[test]
fn propagate_chunk_natural_light_complex_blocked() {
    /*
                    +-----------------------------+----+----+
                 7  | 15 | 15 | 15 | 15 | 15 | 15 | 15 | 15 |
                    +-----------------------------+----+----+
                 6  | 15 | 15 | -- | -- | -- | -- | -- | 15 |
                    +-----------------------------+----+----+
                 5  | 15 | -- | 10 | 9  | 8  | 7  | 6  | -- |
                    +-----------------------------+----+----+
                 4  | 15 | -- | 11 | -- | 7  | -- | 5  | -- |
                    +-----------------------------+----+----+
                 3  | 15 | -- | 12 | -- | 6  | -- | 4  | -- |
                    +-----------------------------+----+----+
    Y            2  | 15 | 14 | 13 | -- | 5  | -- | 3  | -- |
    |               +-----------------------------+----+----+
    |            1  | -- | -- | -- | -- | 4  | 3  | 2  | -- |
    + ---- X        +-----------------------------+----+----+
                 0  | -- | 0  | 1  | 2  | 3  | 2  | 1  | -- |
                    +-----------------------------+----+----+

                 +    0    1    2    3    4    5    6    7
    */

    let mut chunk = Chunk::new();

    // Fill all blocks on Z = 1 so we can ignore the third dimension when propagating the light
    fill_z_axis(1, &mut chunk);

    set_natural_light_on_top_voxels(&mut chunk);

    chunk.kinds.set((0, 0, 0).into(), 1.into());
    chunk.kinds.set((0, 1, 0).into(), 1.into());
    chunk.kinds.set((1, 1, 0).into(), 1.into());
    chunk.kinds.set((1, 3, 0).into(), 1.into());
    chunk.kinds.set((1, 4, 0).into(), 1.into());
    chunk.kinds.set((1, 5, 0).into(), 1.into());
    chunk.kinds.set((2, 1, 0).into(), 1.into());
    chunk.kinds.set((2, 6, 0).into(), 1.into());
    chunk.kinds.set((3, 1, 0).into(), 1.into());
    chunk.kinds.set((3, 2, 0).into(), 1.into());
    chunk.kinds.set((3, 3, 0).into(), 1.into());
    chunk.kinds.set((3, 4, 0).into(), 1.into());
    chunk.kinds.set((3, 6, 0).into(), 1.into());
    chunk.kinds.set((4, 6, 0).into(), 1.into());
    chunk.kinds.set((5, 2, 0).into(), 1.into());
    chunk.kinds.set((5, 3, 0).into(), 1.into());
    chunk.kinds.set((5, 4, 0).into(), 1.into());
    chunk.kinds.set((5, 6, 0).into(), 1.into());
    chunk.kinds.set((6, 6, 0).into(), 1.into());
    chunk.kinds.set((7, 0, 0).into(), 1.into());
    chunk.kinds.set((7, 1, 0).into(), 1.into());
    chunk.kinds.set((7, 2, 0).into(), 1.into());
    chunk.kinds.set((7, 3, 0).into(), 1.into());
    chunk.kinds.set((7, 4, 0).into(), 1.into());
    chunk.kinds.set((7, 5, 0).into(), 1.into());

    light_propagator::propagate_chunk_natural_light(&mut chunk, &top_voxels(), false);

    let expected = [
        ((0, 0, 0).into(), 0),
        ((0, 1, 0).into(), 0),
        ((0, 2, 0).into(), 15),
        ((0, 3, 0).into(), 15),
        ((0, 4, 0).into(), 15),
        ((0, 5, 0).into(), 15),
        ((0, 6, 0).into(), 15),
        ((0, 7, 0).into(), 15),
        ((1, 0, 0).into(), 0),
        ((1, 1, 0).into(), 0),
        ((1, 2, 0).into(), 14),
        ((1, 3, 0).into(), 0),
        ((1, 4, 0).into(), 0),
        ((1, 5, 0).into(), 0),
        ((1, 6, 0).into(), 15),
        ((1, 7, 0).into(), 15),
        ((2, 0, 0).into(), 1),
        ((2, 1, 0).into(), 0),
        ((2, 2, 0).into(), 13),
        ((2, 3, 0).into(), 12),
        ((2, 4, 0).into(), 11),
        ((2, 5, 0).into(), 10),
        ((2, 6, 0).into(), 0),
        ((2, 7, 0).into(), 15),
        ((3, 0, 0).into(), 2),
        ((3, 1, 0).into(), 0),
        ((3, 2, 0).into(), 0),
        ((3, 3, 0).into(), 0),
        ((3, 4, 0).into(), 0),
        ((3, 5, 0).into(), 9),
        ((3, 6, 0).into(), 0),
        ((3, 7, 0).into(), 15),
        ((4, 0, 0).into(), 3),
        ((4, 1, 0).into(), 4),
        ((4, 2, 0).into(), 5),
        ((4, 3, 0).into(), 6),
        ((4, 4, 0).into(), 7),
        ((4, 5, 0).into(), 8),
        ((4, 6, 0).into(), 0),
        ((4, 7, 0).into(), 15),
        ((5, 0, 0).into(), 2),
        ((5, 1, 0).into(), 3),
        ((5, 2, 0).into(), 0),
        ((5, 3, 0).into(), 0),
        ((5, 4, 0).into(), 0),
        ((5, 5, 0).into(), 7),
        ((5, 6, 0).into(), 0),
        ((5, 7, 0).into(), 15),
        ((6, 0, 0).into(), 1),
        ((6, 1, 0).into(), 2),
        ((6, 2, 0).into(), 3),
        ((6, 3, 0).into(), 4),
        ((6, 4, 0).into(), 5),
        ((6, 5, 0).into(), 6),
        ((6, 6, 0).into(), 0),
        ((6, 7, 0).into(), 15),
        ((7, 0, 0).into(), 0),
        ((7, 1, 0).into(), 0),
        ((7, 2, 0).into(), 0),
        ((7, 3, 0).into(), 0),
        ((7, 4, 0).into(), 0),
        ((7, 5, 0).into(), 0),
        ((7, 6, 0).into(), 15),
        ((7, 7, 0).into(), 15),
    ];

    for (local, intensity) in expected {
        assert_eq!(
            chunk.lights.get(local).get_greater_intensity(),
            intensity,
            "Failed at local {:?}",
            local
        );
    }

    /*
                    +-----------------------------+----+----+
                 7  | 15 | 15 | 15 | 15 | 15 | 15 | 15 | 15 |
                    +-----------------------------+----+----+
                 6  | 15 | 15 | -- | -- | -- | -- | -- | 15 |
                    +-----------------------------+----+----+
                 5  | 15 | -- | 10 | 11 | 12 | 13 | 14 | 15 |
                    +-----------------------------+----+----+
                 4  | 15 | -- | 11 | -- | 11 | -- | 13 | -- |
                    +-----------------------------+----+----+
                 3  | 15 | -- | 12 | -- | 10 | -- | 12 | -- |
                    +-----------------------------+----+----+
    Y            2  | 15 | 14 | 13 | -- | 9  | -- | 11 | -- |
    |               +-----------------------------+----+----+
    |            1  | -- | -- | -- | -- | 8  | 9  | 10 | -- |
    + ---- X        +-----------------------------+----+----+
                 0  | -- | 4  | 5  | 6  | 7  | 8  | 9  | -- |
                    +-----------------------------+----+----+

                 +    0    1    2    3    4    5    6    7
    */

    // Allow light to enter on (7, 5)
    chunk.kinds.set((7, 5, 0).into(), 0.into());
    chunk.lights.set(
        (7, 5, 0).into(),
        Light::natural(voxel::MAX_NATURAL_INTENSITY),
    );

    light_propagator::propagate_chunk_natural_light(&mut chunk, &[(7, 5, 0).into()], false);

    let expected = [
        ((0, 0, 0).into(), 0),
        ((0, 1, 0).into(), 0),
        ((0, 2, 0).into(), 15),
        ((0, 3, 0).into(), 15),
        ((0, 4, 0).into(), 15),
        ((0, 5, 0).into(), 15),
        ((0, 6, 0).into(), 15),
        ((0, 7, 0).into(), 15),
        ((1, 0, 0).into(), 4),
        ((1, 1, 0).into(), 0),
        ((1, 2, 0).into(), 14),
        ((1, 3, 0).into(), 0),
        ((1, 4, 0).into(), 0),
        ((1, 5, 0).into(), 0),
        ((1, 6, 0).into(), 15),
        ((1, 7, 0).into(), 15),
        ((2, 0, 0).into(), 5),
        ((2, 1, 0).into(), 0),
        ((2, 2, 0).into(), 13),
        ((2, 3, 0).into(), 12),
        ((2, 4, 0).into(), 11),
        ((2, 5, 0).into(), 10),
        ((2, 6, 0).into(), 0),
        ((2, 7, 0).into(), 15),
        ((3, 0, 0).into(), 6),
        ((3, 1, 0).into(), 0),
        ((3, 2, 0).into(), 0),
        ((3, 3, 0).into(), 0),
        ((3, 4, 0).into(), 0),
        ((3, 5, 0).into(), 11),
        ((3, 6, 0).into(), 0),
        ((3, 7, 0).into(), 15),
        ((4, 0, 0).into(), 7),
        ((4, 1, 0).into(), 8),
        ((4, 2, 0).into(), 9),
        ((4, 3, 0).into(), 10),
        ((4, 4, 0).into(), 11),
        ((4, 5, 0).into(), 12),
        ((4, 6, 0).into(), 0),
        ((4, 7, 0).into(), 15),
        ((5, 0, 0).into(), 8),
        ((5, 1, 0).into(), 9),
        ((5, 2, 0).into(), 0),
        ((5, 3, 0).into(), 0),
        ((5, 4, 0).into(), 0),
        ((5, 5, 0).into(), 13),
        ((5, 6, 0).into(), 0),
        ((5, 7, 0).into(), 15),
        ((6, 0, 0).into(), 9),
        ((6, 1, 0).into(), 10),
        ((6, 2, 0).into(), 11),
        ((6, 3, 0).into(), 12),
        ((6, 4, 0).into(), 13),
        ((6, 5, 0).into(), 14),
        ((6, 6, 0).into(), 0),
        ((6, 7, 0).into(), 15),
        ((7, 0, 0).into(), 0),
        ((7, 1, 0).into(), 0),
        ((7, 2, 0).into(), 0),
        ((7, 3, 0).into(), 0),
        ((7, 4, 0).into(), 0),
        ((7, 5, 0).into(), 15),
        ((7, 6, 0).into(), 15),
        ((7, 7, 0).into(), 15),
    ];

    for (local, intensity) in expected {
        assert_eq!(
            chunk.lights.get(local).get_greater_intensity(),
            intensity,
            "Failed at local {:?}",
            local
        );
    }
}

#[test]
fn propagated_intensity() {
    assert_eq!(light_propagator::calc_propagated_intensity(Side::Down, 15), 15);
    assert_eq!(light_propagator::calc_propagated_intensity(Side::Up, 15), 14);
    assert_eq!(light_propagator::calc_propagated_intensity(Side::Down, 7), 6);
    assert_eq!(light_propagator::calc_propagated_intensity(Side::Left, 0), 0);
}

#[test]
fn propagate_chunk_natural_light_to_neighbors() {
    let mut chunk = Chunk::new();
    let mut world = VoxWorld::new();
    let right = Chunk::new();
    let mut c = Chunk::new();
    c.lights.set_natural((15, 15, 3).into(), 15);
    world.add((0, 0, 0).into(), c);
    world.add((1, 0, 0).into(), right);
    let _ = &mut chunk;
    let mut n = chunk::ChunkNeighborhood::new();
    n.set(Side::Right, &world.get((1, 0, 0).into()).unwrap().lights);
    let mut k = chunk::ChunkNeighborhood::new();
    k.set(Side::Right, &world.get((1, 0, 0).into()).unwrap().kinds);
    let c = world.get_mut((0, 0, 0).into()).unwrap();
    c.lights.set_neighborhood(n);
    c.kinds.set_neighborhood(k);
    let out = light_propagator::propagate_chunk_natural_light(c, &[(15, 15, 3).into()], true);
    let right_items: Vec<(IVec3, u8)> = out
        .iter()
        .filter(|(dir, _)| *dir == IVec3::new(1, 0, 0))
        .flat_map(|(_, items)| items.clone())
        .collect();
    assert!(right_items.contains(&((0, 15, 3).into(), 14)));
    assert_eq!(c.lights.get_natural((15, 0, 3).into()), 15);
    assert_eq!(c.lights.get_natural((14, 15, 3).into()), 14);
}

#[test]
fn update_light_simple() {
    let mut chunk = Chunk::new();
    set_natural_light_on_top_voxels(&mut chunk);
    fill_z_axis(1, &mut chunk);

    chunk.kinds.set((1, 0, 0).into(), 1.into());
    chunk.kinds.set((1, 1, 0).into(), 1.into());
    chunk.kinds.set((1, 2, 0).into(), 1.into());

    let mut world = VoxWorld::new();
    world.add((0, 0, 0).into(), chunk);

    light_propagator::propagate_natural_light_on_new_chunks(&mut world, &[(0, 0, 0).into()]);

    let chunk = world.get_mut((0, 0, 0).into()).unwrap();
    assert_eq!(chunk.lights.get_natural((1, 3, 0).into()), 15);

    chunk.kinds.set((1, 2, 0).into(), 0.into());
    drop(chunk);

    light_propagator::update_light(
        &mut world,
        &[((0, 0, 0).into(), vec![((1, 2, 0).into(), 0.into())])],
    );

    let chunk = world.get_mut((0, 0, 0).into()).unwrap();
    assert_eq!(chunk.lights.get_natural((1, 2, 0).into()), 15);
}

#[test]
fn propagate_chunk_natural_light_neighborhood() {
    /*
                       Chunk               Neighbor                    Chunk               Neighbor
                    +----+----+        +----+----+----+             +----+----+        +----+----+----+
                 11 | -- | 15 |        | -- | -- | 15 |          11 | -- | 15 |        | -- | -- | 15 |
                    +----+----+        +----+----+----+             +----+----+        +----+----+----+
                 10 | -- | 15 |        | -- | -- | 15 |          10 | -- | 15 |        | 14*| -- | 15 |
                    +----+----+        +----+----+----+             +----+----+        +----+----+----+
                 9  | -- | -- |        | 0  | -- | 15 |          9  | -- | -- |        | 13 | -- | 15 |
                    +----+----+        +----+----+----+             +----+----+        +----+----+----+
                 8  | -- | 2  |        | 1  | -- | 15 |          8  | -- | 11 |        | 12 | -- | 15 |
                    +----+----+        +----+----+----+             +----+----+        +----+----+----+
                 7  | -- | 3  |        | -- | -- | 15 |          7  | -- | 10 |        | -- | -- | 15 |
                    +----+----+        +----+----+----+             +----+----+        +----+----+----+
                 6  | -- | 4  |        | 5  | -- | 15 |    ->    6  | -- | 9  |        | 8  | -- | 15 |
                    +----+----+        +----+----+----+             +----+----+        +----+----+----+
                 5  | -- | -- |        | 6  | -- | 15 |          5  | -- | -- |        | 7  | -- | 15 |
                    +----+----+        +----+----+----+             +----+----+        +----+----+----+
                 4  | -- | 8  |        | 7  | -- | 15 |          4  | -- | 8  |        | 7  | -- | 15 |
                    +----+----+        +----+----+----+             +----+----+        +----+----+----+
                 3  | -- | 9  |        | -- | -- | 15 |          3  | -- | 9  |        | -- | -- | 15 |
                    +----+----+        +----+----+----+             +----+----+        +----+----+----+
    Y            2  | -- | 10 |        | 11 | -- | 15 |          2  | -- | 10 |        | 11 | -- | 15 |
    |               +----+----+        +----+----+----+             +----+----+        +----+----+----+
    |            1  | -- | -- |        | 12 | -- | 15 |          1  | -- | -- |        | 12 | -- | 15 |
    + ---- X        +----+----+        +----+----+----+             +----+----+        +----+----+----+
                 0  | -- | 12 |        | 13 | 14 | 15 |          0  | -- | 12 |        | 13 | 14 | 15 |
                    +----+----+        +----+----+----+             +----+----+        +----+----+----+

                 +    14   15            0    1    2             +    14   15            0    1    2
    */

    let mut world = VoxWorld::new();

    let mut chunk = Chunk::new();
    chunk.kinds.set_all(1.into()); // Make solid

    // Make holes to light propagate through
    for y in (11..=chunk::Y_END).rev() {
        chunk.kinds.set((15, y, 0).into(), 0.into());
    }

    let mut neighbor = Chunk::new();
    neighbor.kinds.set_all(1.into()); // Make solid

    // Make holes to light propagate through
    for y in (0..=chunk::Y_END).rev() {
        neighbor.kinds.set((2, y, 0).into(), 0.into());
    }

    chunk.kinds.set((15, 11, 0).into(), 0.into());
    chunk.kinds.set((15, 10, 0).into(), 0.into());
    chunk.kinds.set((15, 8, 0).into(), 0.into());
    chunk.kinds.set((15, 7, 0).into(), 0.into());
    chunk.kinds.set((15, 6, 0).into(), 0.into());
    chunk.kinds.set((15, 4, 0).into(), 0.into());
    chunk.kinds.set((15, 3, 0).into(), 0.into());
    chunk.kinds.set((15, 2, 0).into(), 0.into());
    chunk.kinds.set((15, 0, 0).into(), 0.into());

    neighbor.kinds.set((0, 8, 0).into(), 0.into());
    neighbor.kinds.set((0, 9, 0).into(), 0.into());
    neighbor.kinds.set((0, 6, 0).into(), 0.into());
    neighbor.kinds.set((0, 5, 0).into(), 0.into());
    neighbor.kinds.set((0, 4, 0).into(), 0.into());
    neighbor.kinds.set((0, 2, 0).into(), 0.into());
    neighbor.kinds.set((0, 1, 0).into(), 0.into());
    neighbor.kinds.set((0, 0, 0).into(), 0.into());
    neighbor.kinds.set((1, 0, 0).into(), 0.into());
    neighbor.kinds.set((2, 0, 0).into(), 0.into());

    set_natural_light_on_top_voxels(&mut neighbor);
    set_natural_light_on_top_voxels(&mut chunk);

    world.add((0, 0, 0).into(), chunk);
    world.add((1, 0, 0).into(), neighbor);

    shaping::update_kind_neighborhoods(&mut world, &vec![(0, 0, 0).into(), (1, 0, 0).into()]);
    light_propagator::propagate_natural_light_on_new_chunks(
        &mut world,
        &vec![(0, 0, 0).into(), (1, 0, 0).into()],
    );

    assert_eq!(
        world
            .get((1, 0, 0).into())
            .unwrap()
            .lights
            .get_natural((0, 0, 0).into()),
        13,
        "Light propagation failed. This is handled in another test"
    );

    assert_eq!(
        world
            .get((0, 0, 0).into())
            .unwrap()
            .lights
            .get_natural((15, 0, 0).into()),
        12,
        "Light propagation failed. This is handled in another test"
    );

    let neighbor = world.get_mut((1, 0, 0).into()).unwrap();
    neighbor.kinds.set((0, 10, 0).into(), 0.into());
    drop(neighbor);

    shaping::update_kind_neighborhoods(&mut world, &vec![(0, 0, 0).into(), (1, 0, 0).into()]);

    let updated = [((1, 0, 0).into(), vec![((0, 10, 0).into(), 0.into())])];

    //Act
    light_propagator::update_light(&mut world, &updated);

    // Check neighbor
    let neighbor = world.get((1, 0, 0).into()).unwrap();
    let expected_neighbor = [
        ((0, 0, 0).into(), 13),
        ((0, 1, 0).into(), 12),
        ((0, 2, 0).into(), 11),
        ((0, 4, 0).into(), 7),
        ((0, 5, 0).into(), 7),
        ((0, 6, 0).into(), 8),
        ((0, 8, 0).into(), 12),
        ((0, 9, 0).into(), 13),
        ((0, 10, 0).into(), 14),
    ];

    for (voxel, intensity) in expected_neighbor {
        assert_eq!(
            neighbor.lights.get_natural(voxel),
            intensity,
            "Failed at {voxel:?}"
        );
    }

    // Check chunk
    let chunk = world.get((0, 0, 0).into()).unwrap();
    let expected_chunk = [
        ((15, 0, 0).into(), 12),
        ((15, 2, 0).into(), 10),
        ((15, 3, 0).into(), 9),
        ((15, 4, 0).into(), 8),
        ((15, 6, 0).into(), 9),
        ((15, 7, 0).into(), 10),
        ((15, 8, 0).into(), 11),
    ];

    for (voxel, intensity) in expected_chunk {
        assert_eq!(
            chunk.lights.get_natural(voxel),
            intensity,
            "Failed at {voxel:?}"
        );
    }
}

#[test]
fn remove_chunk_natural_light_neighborhood() {
    /*
                       Chunk               Neighbor                    Chunk               Neighbor
                    +----+----+        +----+----+----+             +----+----+        +----+----+----+
                 11 | -- | 15 |        | -- | -- | 15 |          11 | -- | 15 |        | -- | -- | 15 |
                    +----+----+        +----+----+----+             +----+----+        +----+----+----+
                 10 | -- | 15 |        | 14 | -- | 15 |          10 | -- | 15 |        | 14 | -- | 15 |
                    +----+----+        +----+----+----+             +----+----+        +----+----+----+
                 9  | -- | -- |        | 13 | -- | 15 |          9  | -- | -- |        | --*| -- | 15 |
                    +----+----+        +----+----+----+             +----+----+        +----+----+----+
                 8  | -- | 11 |        | 12 | -- | 15 |          8  | -- | 0  |        | 0  | -- | 15 |
                    +----+----+        +----+----+----+             +----+----+        +----+----+----+
                 7  | -- | 10 |        | -- | -- | 15 |          7  | -- | 0  |        | -- | -- | 15 |
                    +----+----+        +----+----+----+             +----+----+        +----+----+----+
                 6  | -- | 9  |        | 8  | -- | 15 |    ->    6  | -- | 0  |        | 0  | -- | 15 |
                    +----+----+        +----+----+----+             +----+----+        +----+----+----+
                 5  | -- | -- |        | 7  | -- | 15 |          5  | -- | -- |        | 0  | -- | 15 |
                    +----+----+        +----+----+----+             +----+----+        +----+----+----+
                 4  | -- | 8  |        | 7  | -- | 15 |          4  | -- | 0  |        | 0  | -- | 15 |
                    +----+----+        +----+----+----+             +----+----+        +----+----+----+
                 3  | -- | 9  |        | -- | -- | 15 |          3  | -- | 0  |        | -- | -- | 15 |
                    +----+----+        +----+----+----+             +----+----+        +----+----+----+
    Y            2  | -- | 10 |        | 11 | -- | 15 |          2  | -- | 0  |        | --*| -- | 15 |
    |               +----+----+        +----+----+----+             +----+----+        +----+----+----+
    |            1  | -- | -- |        | 12 | -- | 15 |          1  | -- | -- |        | 12 | -- | 15 |
    + ---- X        +----+----+        +----+----+----+             +----+----+        +----+----+----+
                 0  | -- | 12 |        | 13 | 14 | 15 |          0  | -- | 12 |        | 13 | 14 | 15 |
                    +----+----+        +----+----+----+             +----+----+        +----+----+----+

                 +    14   15            0    1    2             +    14   15            0    1    2
    */

    let mut world = VoxWorld::new();

    let mut chunk = Chunk::new();
    chunk.kinds.set_all(1.into()); // Make solid

    // Make holes to light propagate through
    for y in (11..=chunk::Y_END).rev() {
        chunk.kinds.set((15, y, 0).into(), 0.into());
    }

    let mut neighbor = Chunk::new();
    neighbor.kinds.set_all(1.into()); // Make solid

    // Make holes to light propagate through
    for y in (0..=chunk::Y_END).rev() {
        neighbor.kinds.set((2, y, 0).into(), 0.into());
    }

    chunk.kinds.set((15, 11, 0).into(), 0.into());
    chunk.kinds.set((15, 10, 0).into(), 0.into());
    chunk.kinds.set((15, 8, 0).into(), 0.into());
    chunk.kinds.set((15, 7, 0).into(), 0.into());
    chunk.kinds.set((15, 6, 0).into(), 0.into());
    chunk.kinds.set((15, 4, 0).into(), 0.into());
    chunk.kinds.set((15, 3, 0).into(), 0.into());
    chunk.kinds.set((15, 2, 0).into(), 0.into());
    chunk.kinds.set((15, 0, 0).into(), 0.into());

    neighbor.kinds.set((0, 10, 0).into(), 0.into());
    neighbor.kinds.set((0, 9, 0).into(), 0.into());
    neighbor.kinds.set((0, 8, 0).into(), 0.into());
    neighbor.kinds.set((0, 6, 0).into(), 0.into());
    neighbor.kinds.set((0, 5, 0).into(), 0.into());
    neighbor.kinds.set((0, 4, 0).into(), 0.into());
    neighbor.kinds.set((0, 2, 0).into(), 0.into());
    neighbor.kinds.set((0, 1, 0).into(), 0.into());
    neighbor.kinds.set((0, 0, 0).into(), 0.into());
    neighbor.kinds.set((1, 0, 0).into(), 0.into());

    set_natural_light_on_top_voxels(&mut neighbor);
    set_natural_light_on_top_voxels(&mut chunk);

    world.add((0, 0, 0).into(), chunk);
    world.add((1, 0, 0).into(), neighbor);

    shaping::update_kind_neighborhoods(&mut world, &vec![(0, 0, 0).into(), (1, 0, 0).into()]);
    light_propagator::propagate_natural_light_on_new_chunks(
        &mut world,
        &vec![(0, 0, 0).into(), (1, 0, 0).into()],
    );

    assert_eq!(
        world
            .get((1, 0, 0).into())
            .unwrap()
            .lights
            .get_natural((0, 0, 0).into()),
        13,
        "Light propagation failed. This is handled in another test"
    );

    assert_eq!(
        world
            .get((0, 0, 0).into())
            .unwrap()
            .lights
            .get_natural((15, 0, 0).into()),
        12,
        "Light propagation failed. This is handled in another test"
    );

    let neighbor = world.get_mut((1, 0, 0).into()).unwrap();

    neighbor.kinds.set((0, 9, 0).into(), 1.into());
    neighbor.kinds.set((0, 2, 0).into(), 1.into());

    let mut voxels: ChunkVoxelMap = Vec::new();
    voxels.push(((1, 0, 0).into(), vec![(0, 9, 0).into(), (0, 2, 0).into()]));

    drop(neighbor);

    //Act
    light_propagator::remove_natural_light(&mut world, voxels);

    // Check neighbor
    let neighbor = world.get((1, 0, 0).into()).unwrap();
    let expected_neighbor = [
        ((0, 0, 0).into(), 13),
        ((0, 1, 0).into(), 12),
        ((0, 4, 0).into(), 0),
        ((0, 5, 0).into(), 0),
        ((0, 6, 0).into(), 0),
        ((0, 8, 0).into(), 0),
    ];

    for (voxel, intensity) in expected_neighbor {
        assert_eq!(
            neighbor.lights.get_natural(voxel),
            intensity,
            "Failed at {voxel:?}"
        );
    }

    // Check chunk
    let chunk = world.get((0, 0, 0).into()).unwrap();
    let expected_chunk = [
        ((15, 0, 0).into(), 12),
        ((15, 2, 0).into(), 0),
        ((15, 3, 0).into(), 0),
        ((15, 4, 0).into(), 0),
        ((15, 6, 0).into(), 0),
        ((15, 7, 0).into(), 0),
        ((15, 8, 0).into(), 0),
    ];

    for (voxel, intensity) in expected_chunk {
        assert_eq!(
            chunk.lights.get_natural(voxel),
            intensity,
            "Failed at {voxel:?}"
        );
    }
}

#[test]
fn remove_chunk_natural_light_simple() {
    /*
                    +------------------------+      +-----------------------------+
                 4  | 15 | 15 | 15 | 15 | 15 |      | 15 | 15 | 15 | 15 | 15 | 15 |
                    +------------------------+      +-----------------------------+
                 3  | 15 | 15 | 15 | 15 | 15 |      | -- | -- | -- | -- | 15 | 15 |
                    +------------------------+      +-----------------------------+
    Y            2  | 15 | 15 | 15 | 15 | 15 |  ->  | -- | 12 | 13 | 14 | 15 | 15 |
    |               +------------------------+      +-----------------------------+
    |            1  | 15 | 15 | 15 | 15 | 15 |      | -- | 11 | -- | -- | -- | 15 |
    + ---- X        +------------------------+      +-----------------------------+
                 0  | 15 | 15 | 15 | 15 | 15 |      | -- | 10 | 9  | 8  | 7  | -- |
                    +------------------------+      +-----------------------------+

                 +    0    1    2    3    4      +    0    1    2    3    4    5
    */

    let mut chunk = Chunk::new();

    // Fill all blocks on Z = 1 so we can ignore the third dimension when propagating the light
    fill_z_axis(1, &mut chunk);
    set_natural_light_on_top_voxels(&mut chunk);
    light_propagator::propagate_chunk_natural_light(&mut chunk, &top_voxels(), false);

    for x in 0..=chunk::X_END {
        for y in 0..=chunk::Y_END {
            assert_eq!(
                chunk.lights.get_natural((x, y, 0).into()),
                voxel::MAX_NATURAL_INTENSITY
            );
        }
    }

    chunk.kinds.set((0, 0, 0).into(), 1.into());
    chunk.kinds.set((0, 1, 0).into(), 1.into());
    chunk.kinds.set((0, 2, 0).into(), 1.into());
    chunk.kinds.set((0, 3, 0).into(), 1.into());
    chunk.kinds.set((1, 3, 0).into(), 1.into());
    chunk.kinds.set((2, 1, 0).into(), 1.into());
    chunk.kinds.set((2, 3, 0).into(), 1.into());
    chunk.kinds.set((3, 1, 0).into(), 1.into());
    chunk.kinds.set((3, 3, 0).into(), 1.into());
    chunk.kinds.set((4, 1, 0).into(), 1.into());
    chunk.kinds.set((5, 0, 0).into(), 1.into());

    chunk.lights.set_natural((0, 0, 0).into(), 0);
    chunk.lights.set_natural((0, 1, 0).into(), 0);
    chunk.lights.set_natural((0, 2, 0).into(), 0);
    chunk.lights.set_natural((0, 3, 0).into(), 0);
    chunk.lights.set_natural((1, 3, 0).into(), 0);
    chunk.lights.set_natural((2, 1, 0).into(), 0);
    chunk.lights.set_natural((2, 3, 0).into(), 0);
    chunk.lights.set_natural((3, 1, 0).into(), 0);
    chunk.lights.set_natural((3, 3, 0).into(), 0);
    chunk.lights.set_natural((4, 1, 0).into(), 0);

    let mut world = VoxWorld::new();
    world.add((0, 0, 0).into(), chunk);

    let mut chunk_map: ChunkVoxelMap = Vec::new();
    chunk_map.push((
        (0, 0, 0).into(),
        vec![
            (0, 0, 0).into(),
            (0, 1, 0).into(),
            (0, 2, 0).into(),
            (0, 3, 0).into(),
            (1, 3, 0).into(),
            (2, 1, 0).into(),
            (2, 3, 0).into(),
            (3, 1, 0).into(),
            (3, 3, 0).into(),
            (4, 1, 0).into(),
        ],
    ));

    light_propagator::remove_natural_light(&mut world, chunk_map);

    let expected = vec![
        ((0, 0, 0).into(), 0),
        ((0, 1, 0).into(), 0),
        ((0, 2, 0).into(), 0),
        ((0, 3, 0).into(), 0),
        ((0, 4, 0).into(), 15),
        ((1, 0, 0).into(), 10),
        ((1, 1, 0).into(), 11),
        ((1, 2, 0).into(), 12),
        ((1, 3, 0).into(), 0),
        ((1, 4, 0).into(), 15),
        ((2, 0, 0).into(), 9),
        ((2, 1, 0).into(), 0),
        ((2, 2, 0).into(), 13),
        ((2, 3, 0).into(), 0),
        ((2, 4, 0).into(), 15),
        ((3, 0, 0).into(), 8),
        ((3, 1, 0).into(), 0),
        ((3, 2, 0).into(), 14),
        ((3, 3, 0).into(), 0),
        ((3, 4, 0).into(), 15),
        ((4, 0, 0).into(), 7),
        ((4, 1, 0).into(), 0),
        ((4, 2, 0).into(), 15),
        ((4, 3, 0).into(), 15),
        ((4, 4, 0).into(), 15),
    ];

    let chunk = world.get((0, 0, 0).into()).unwrap();
    for (voxel, intensity) in expected {
        assert_eq!(
            chunk.lights.get_natural(voxel),
            intensity,
            "Failed at {voxel:?}"
        );
    }
}

#[test]
fn propagate_natural_light_new_chunk_neighborhood() {
    /*
                       Chunk             Neighbor
                    +----+----+        +----+----+
                 11 | -- | 15 |        | -- | -- |
                    +----+----+        +----+----+
                 10 | -- | 15 |        | 14 | -- |
                    +----+----+        +----+----+
                 9  | -- | -- |        | 13 | -- |
                    +----+----+        +----+----+
                 8  | -- | 11 |        | 12 | -- |
                    +----+----+        +----+----+
                 7  | -- | 10 |        | -- | -- |
                    +----+----+        +----+----+
                 6  | -- | 9  |        | 8  | -- |
                    +----+----+        +----+----+
                 5  | -- | -- |        | 7  | -- |
                    +----+----+        +----+----+
                 4  | -- | 5  |        | 6  | -- |
                    +----+----+        +----+----+
                 3  | -- | 4  |        | -- | -- |
                    +----+----+        +----+----+
    Y            2  | -- | 3  |        | 2  | -- |
    |               +----+----+        +----+----+
    |            1  | -- | -- |        | 1  | -- |
    + ---- X        +----+----+        +----+----+
                 0  | -- | 0  |        | 0  | -- |
                    +----+----+        +----+----+

                 +    14   15            0    1
    */

    let mut world = VoxWorld::new();

    let mut chunk = Chunk::new();
    chunk.kinds.set_all(1.into()); // Make solid

    let mut neighbor = Chunk::new();
    neighbor.kinds.set_all(1.into()); // Make solid

    // Make holes to light propagate through
    for y in (11..=chunk::Y_END).rev() {
        chunk.kinds.set((15, y, 0).into(), 0.into());
    }

    chunk.kinds.set((15, 11, 0).into(), 0.into());
    chunk.kinds.set((15, 10, 0).into(), 0.into());
    chunk.kinds.set((15, 8, 0).into(), 0.into());
    chunk.kinds.set((15, 7, 0).into(), 0.into());
    chunk.kinds.set((15, 6, 0).into(), 0.into());
    chunk.kinds.set((15, 4, 0).into(), 0.into());
    chunk.kinds.set((15, 3, 0).into(), 0.into());
    chunk.kinds.set((15, 2, 0).into(), 0.into());
    chunk.kinds.set((15, 0, 0).into(), 0.into());

    neighbor.kinds.set((0, 10, 0).into(), 0.into());
    neighbor.kinds.set((0, 9, 0).into(), 0.into());
    neighbor.kinds.set((0, 8, 0).into(), 0.into());
    neighbor.kinds.set((0, 6, 0).into(), 0.into());
    neighbor.kinds.set((0, 5, 0).into(), 0.into());
    neighbor.kinds.set((0, 4, 0).into(), 0.into());
    neighbor.kinds.set((0, 2, 0).into(), 0.into());
    neighbor.kinds.set((0, 1, 0).into(), 0.into());
    neighbor.kinds.set((0, 0, 0).into(), 0.into());

    // Set light only on chunk, so it can propagate all the way down.
    chunk.lights.set(
        (15, chunk::Y_END, 0).into(),
        Light::natural(voxel::MAX_NATURAL_INTENSITY),
    );

    world.add((0, 0, 0).into(), chunk);
    world.add((1, 0, 0).into(), neighbor);

    shaping::update_kind_neighborhoods(&mut world, &vec![(0, 0, 0).into(), (1, 0, 0).into()]);
    light_propagator::propagate_natural_light_on_new_chunks(
        &mut world,
        &vec![(0, 0, 0).into(), (1, 0, 0).into()],
    );

    let chunk_expected = [
        ((15, 11, 0).into(), 15),
        ((15, 10, 0).into(), 15),
        ((15, 8, 0).into(), 11),
        ((15, 7, 0).into(), 10),
        ((15, 6, 0).into(), 9),
        ((15, 4, 0).into(), 5),
        ((15, 3, 0).into(), 4),
        ((15, 2, 0).into(), 3),
        ((15, 0, 0).into(), 0),
    ];

    let chunk = world.get((0, 0, 0).into()).unwrap();

    for (local, intensity) in chunk_expected {
        assert_eq!(
            chunk.lights.get(local).get(LightTy::Natural),
            intensity,
            "Failed at {:?}",
            local
        );
    }

    let neighbor_expected = [
        ((0, 10, 0).into(), 14),
        ((0, 9, 0).into(), 13),
        ((0, 8, 0).into(), 12),
        ((0, 6, 0).into(), 8),
        ((0, 5, 0).into(), 7),
        ((0, 4, 0).into(), 6),
        ((0, 2, 0).into(), 2),
        ((0, 1, 0).into(), 1),
        ((0, 0, 0).into(), 0),
    ];

    let neighbor = world.get((1, 0, 0).into()).unwrap();

    for (local, intensity) in neighbor_expected {
        assert_eq!(
            neighbor.lights.get(local).get(LightTy::Natural),
            intensity,
            "Failed at {:?}",
            local
        );
    }
}

#[test]
fn propagated_light_settles_inside_each_chunk() {
    let mut world = VoxWorld::new();
    let locals: Vec<IVec3> = vec![(0, 0, 0).into(), (1, 0, 0).into()];
    for (n, &local) in locals.iter().enumerate() {
        let mut chunk = Chunk::new();
        for x in 0..=chunk::X_END {
            for z in 0..=chunk::Z_END {
                // Pillars of different heights, with a roof here and there.
                let h = (x * 3 + z * 5 + n as i32 * 7) % 12;
                for y in 0..h {
                    chunk.kinds.set((x, y, z).into(), 1.into());
                }
                if (x + z) % 5 == 0 {
                    chunk.kinds.set((x, 13, z).into(), 2.into());
                }
            }
        }
        set_natural_light_on_top_voxels(&mut chunk);
        world.add(local, chunk);
    }
    shaping::update_kind_neighborhoods(&mut world, &locals);
    light_propagator::propagate_natural_light_on_new_chunks(&mut world, &locals);

    for &local in &locals {
        let chunk = world.get(local).unwrap();
        for u in chunk::voxels() {
            if chunk.kinds.get(u).is_opaque() {
                continue;
            }
            let intensity = chunk.lights.get_natural(u);
            for side in voxel::SIDES {
                let w = u.plus(side.dir());
                if !chunk::is_within_bounds(w) || chunk.kinds.get(w).is_opaque() {
                    continue;
                }
                assert!(
                    chunk.lights.get_natural(w) >= light_propagator::calc_propagated_intensity(side, intensity),
                    "light of {u:?} did not reach {w:?} in chunk {local:?}"
                );
            }
        }
    }
}

#[test]
fn propagated_light_crosses_into_neighbor_chunks() {
    let mut world = VoxWorld::new();
    let locals: Vec<IVec3> = vec![(0, 0, 0).into(), (1, 0, 0).into(), (0, -1, 0).into()];
    for (n, &local) in locals.iter().enumerate() {
        let mut chunk = Chunk::new();
        for x in 0..=chunk::X_END {
            for z in 0..=chunk::Z_END {
                let h = (x * 5 + z * 3 + n as i32 * 4) % 14;
                for y in 0..h {
                    chunk.kinds.set((x, y, z).into(), 1.into());
                }
            }
        }
        set_natural_light_on_top_voxels(&mut chunk);
        world.add(local, chunk);
    }
    shaping::update_kind_neighborhoods(&mut world, &locals);
    light_propagator::propagate_natural_light_on_new_chunks(&mut world, &locals);

    let mut crossings = 0;
    for &local in &locals {
        let chunk = world.get(local).unwrap();
        for u in chunk::voxels() {
            if chunk.kinds.get(u).is_opaque() {
                continue;
            }
            let intensity = chunk.lights.get_natural(u);
            for side in voxel::SIDES {
                let w = u.plus(side.dir());
                let Some(neighbor) = world.get(local.plus(side.dir())) else {
                    continue;
                };
                if chunk::is_within_bounds(w) {
                    continue;
                }
                let inside = IVec3::new(w.x.rem_euclid(16), w.y.rem_euclid(16), w.z.rem_euclid(16));
                if neighbor.kinds.get(inside).is_opaque() {
                    continue;
                }
                crossings += 1;
                assert!(
                    neighbor.lights.get_natural(inside)
                        >= light_propagator::calc_propagated_intensity(side, intensity),
                    "light of {u:?} in chunk {local:?} did not cross to {inside:?}"
                );
            }
        }
    }
    assert!(crossings > 0);
}

#[test]
fn remove_natural_light_darkens_the_given_voxels() {
    let mut chunk = Chunk::new();
    set_natural_light_on_top_voxels(&mut chunk);
    let mut world = VoxWorld::new();
    world.add((0, 0, 0).into(), chunk);
    light_propagator::propagate_natural_light_on_new_chunks(&mut world, &[(0, 0, 0).into()]);
    assert_eq!(world.get((0, 0, 0).into()).unwrap().lights.get_natural((5, 5, 5).into()), 15);

    // The voxel turns solid: its light goes out, and the sun light straight below it goes
    // with it; the voxels around it are lit again from their neighbors.
    world.get_mut((0, 0, 0).into()).unwrap().kinds.set((5, 5, 5).into(), 1.into());
    let map: ChunkVoxelMap = vec![((0, 0, 0).into(), vec![(5, 5, 5).into()])];
    let touched = light_propagator::remove_natural_light(&mut world, map);

    let chunk = world.get((0, 0, 0).into()).unwrap();
    assert_eq!(chunk.lights.get_natural((5, 5, 5).into()), 0);
    assert_eq!(chunk.lights.get_natural((5, 4, 5).into()), 14);
    assert_eq!(chunk.lights.get_natural((5, 6, 5).into()), 15);
    assert!(touched.contains(&(0, 0, 0).into()));
}

#[test]
fn covered_cave_stays_dark() {
    // A chunk whose layer at Y 8 is solid: the sun light stops on it, nothing below is lit.
    let mut chunk = Chunk::new();
    for x in 0..=chunk::X_END {
        for z in 0..=chunk::Z_END {
            chunk.kinds.set((x, 8, z).into(), 1.into());
        }
    }
    set_natural_light_on_top_voxels(&mut chunk);
    let mut world = VoxWorld::new();
    world.add((0, 0, 0).into(), chunk);
    light_propagator::propagate_natural_light_on_new_chunks(&mut world, &[(0, 0, 0).into()]);

    let chunk = world.get((0, 0, 0).into()).unwrap();
    for u in chunk::voxels() {
        let expected = if u.y > 8 { 15 } else { 0 };
        assert_eq!(chunk.lights.get_natural(u), expected, "at {u:?}");
    }
}
