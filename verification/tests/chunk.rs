use projekto::chunk::{self, ChunkKind, ChunkNeighborhood, ChunkStorage, AXIS_ENDING, AXIS_SIZE};
use projekto::math::IVec3;
use projekto::voxel::{self, Kind, Side};

#[test]
fn to_xyz() {
    assert_eq!(IVec3::new(0, 0, 0), chunk::from_index(0));
    assert_eq!(IVec3::new(0, 1, 0), chunk::from_index(1));
    assert_eq!(IVec3::new(0, 2, 0), chunk::from_index(2));

    assert_eq!(IVec3::new(0, 0, 1), chunk::from_index(AXIS_SIZE));
    assert_eq!(IVec3::new(0, 1, 1), chunk::from_index(AXIS_SIZE + 1));
    assert_eq!(IVec3::new(0, 2, 1), chunk::from_index(AXIS_SIZE + 2));

    assert_eq!(IVec3::new(1, 0, 0), chunk::from_index(AXIS_SIZE * AXIS_SIZE));
    assert_eq!(IVec3::new(1, 1, 0), chunk::from_index(AXIS_SIZE * AXIS_SIZE + 1));
    assert_eq!(IVec3::new(1, 2, 0), chunk::from_index(AXIS_SIZE * AXIS_SIZE + 2));

    assert_eq!(
        IVec3::new(1, 0, 1),
        chunk::from_index(AXIS_SIZE * AXIS_SIZE + AXIS_SIZE)
    );
    assert_eq!(
        IVec3::new(1, 1, 1),
        chunk::from_index(AXIS_SIZE * AXIS_SIZE + AXIS_SIZE + 1)
    );
    assert_eq!(
        IVec3::new(1, 2, 1),
        chunk::from_index(AXIS_SIZE * AXIS_SIZE + AXIS_SIZE + 2)
    );
}

#[test]
fn chunk_to_index() {
    assert_eq!(chunk::to_index((0, 0, 0).into()), 0);
    assert_eq!(chunk::to_index((0, 1, 0).into()), 1);
    assert_eq!(chunk::to_index((0, 2, 0).into()), 2);

    assert_eq!(chunk::to_index((0, 0, 1).into()), AXIS_SIZE);
    assert_eq!(chunk::to_index((0, 1, 1).into()), AXIS_SIZE + 1);
    assert_eq!(chunk::to_index((0, 2, 1).into()), AXIS_SIZE + 2);

    assert_eq!(chunk::to_index((1, 0, 0).into()), AXIS_SIZE * AXIS_SIZE);
    assert_eq!(chunk::to_index((1, 1, 0).into()), AXIS_SIZE * AXIS_SIZE + 1);
    assert_eq!(chunk::to_index((1, 2, 0).into()), AXIS_SIZE * AXIS_SIZE + 2);

    assert_eq!(
        chunk::to_index((1, 0, 1).into()),
        AXIS_SIZE * AXIS_SIZE + AXIS_SIZE
    );
    assert_eq!(
        chunk::to_index((1, 1, 1).into()),
        AXIS_SIZE * AXIS_SIZE + AXIS_SIZE + 1
    );
    assert_eq!(
        chunk::to_index((1, 2, 1).into()),
        AXIS_SIZE * AXIS_SIZE + AXIS_SIZE + 2
    );
}

#[test]
fn into_iter() {
    let mut first = None;
    let mut last = IVec3::zero();

    for pos in chunk::voxels() {
        assert!(pos.x >= 0 && pos.x < AXIS_SIZE as i32);
        assert!(pos.y >= 0 && pos.y < AXIS_SIZE as i32);
        assert!(pos.z >= 0 && pos.z < AXIS_SIZE as i32);

        if first == None {
            first = Some(pos);
        }
        last = pos;
    }

    assert_eq!(first, Some(IVec3::zero()));
    assert_eq!(
        last,
        (AXIS_SIZE as i32 - 1, AXIS_SIZE as i32 - 1, AXIS_SIZE as i32 - 1).into()
    );
}

#[test]
fn set_get() {
    let mut chunk = ChunkStorage::<u8>::new();

    let mut seed: u32 = 12345;
    for v in chunk::voxels() {
        seed = seed.wrapping_mul(1103515245).wrapping_add(12345);
        let k = (seed >> 16) as u8;
        chunk.set(v, k);
        assert_eq!(k, chunk.get(v));
    }
}

#[test]
fn overlap_voxel() {
    assert_eq!(
        chunk::overlap_voxel((-1, 10, 5).into()),
        ((-1, 0, 0).into(), (15, 10, 5).into())
    );
    assert_eq!(
        chunk::overlap_voxel((-1, 10, 16).into()),
        ((-1, 0, 1).into(), (15, 10, 0).into())
    );
    assert_eq!(
        chunk::overlap_voxel((0, 0, 0).into()),
        ((0, 0, 0).into(), (0, 0, 0).into())
    );
    assert_eq!(
        chunk::overlap_voxel((17, 10, 5).into()),
        ((1, 0, 0).into(), (1, 10, 5).into())
    );
}

#[test]
fn is_default() {
    let mut chunk = ChunkStorage::<Kind>::new();
    assert!(chunk.is_default());

    chunk.set((1, 1, 1).into(), 1.into());

    assert!(!chunk.is_default());
}

#[test]
fn neighborhood() {
    let mut neighborhood = ChunkNeighborhood::<Kind>::new();

    for side in voxel::SIDES {
        assert!(neighborhood.get(side, (0, 0, 0).into()).is_none());
    }

    let mut top = ChunkKind::new();
    top.set_all(1.into());

    neighborhood.set(Side::Up, &top);

    assert_eq!(neighborhood.get(Side::Up, (1, 0, 3).into()), Some(1.into()));

    let mut kinds_set = vec![];
    let mut chunks = vec![ChunkKind::new(); voxel::SIDE_COUNT];

    let mut seed: u32 = 777;
    let mut next = |bound: u32| {
        seed = seed.wrapping_mul(1103515245).wrapping_add(12345);
        (seed >> 16) % bound
    };

    for side in voxel::SIDES {
        for _ in 0..1000 {
            let kind: Kind = ((1 + next(9)) as u16).into();
            let mut pos: IVec3 = (
                next(AXIS_SIZE as u32) as i32,
                next(AXIS_SIZE as u32) as i32,
                next(AXIS_SIZE as u32) as i32,
            )
                .into();

            match side {
                Side::Right => pos.x = 0,
                Side::Left => pos.x = AXIS_ENDING as i32,
                Side::Up => pos.y = 0,
                Side::Down => pos.y = AXIS_ENDING as i32,
                Side::Front => pos.z = 0,
                Side::Back => pos.z = AXIS_ENDING as i32,
            }

            let idx = side.index();
            // Avoid setting different values on same voxel
            if chunks[idx].get(pos) == Kind::none() {
                kinds_set.push((side, pos, kind));
                chunks[idx].set(pos, kind);
            }
        }
    }

    for side in voxel::SIDES {
        let idx = side.index();
        if !chunks[idx].is_default() {
            neighborhood.set(side, &chunks[idx]);
        }
    }

    for (side, pos, kind) in kinds_set {
        assert_eq!(
            neighborhood.get(side, pos),
            Some(kind),
            "neighborhood get {:?} {:?} != {:?}",
            side,
            pos,
            Some(kind)
        );
    }
}

#[test]
fn is_at_bounds() {
    let local = (1, 1, 1).into();
    assert_eq!(chunk::is_at_bounds(local), false);

    let local = (1, 0, 1).into();
    assert_eq!(chunk::is_at_bounds(local), true);

    let local = (1, AXIS_ENDING as i32, 1).into();
    assert_eq!(chunk::is_at_bounds(local), true);

    let local = (0, 0, 0).into();
    assert_eq!(chunk::is_at_bounds(local), true);

    let local = (2, 1, 14).into();
    assert_eq!(chunk::is_at_bounds(local), false);
}

#[test]
fn get_boundary_dir() {
    let local = (0, 0, 0).into();
    assert_eq!(chunk::get_boundary_dir(local), (-1, -1, -1).into());

    let local = (1, 2, 3).into();
    assert_eq!(chunk::get_boundary_dir(local), (0, 0, 0).into());

    let local = (AXIS_ENDING as i32, 2, 3).into();
    assert_eq!(chunk::get_boundary_dir(local), (1, 0, 0).into());

    let local = (AXIS_ENDING as i32, AXIS_ENDING as i32, AXIS_ENDING as i32).into();
    assert_eq!(chunk::get_boundary_dir(local), (1, 1, 1).into());
}

#[test]
fn neighboring_voxels() {
    let around = chunk::neighboring((3, 4, 5).into(), (0, 7, 15).into());
    assert_eq!(around, vec![(2, 4, 5).into(), (3, 4, 6).into()]);
    let inside = chunk::neighboring((3, 4, 5).into(), (7, 7, 7).into());
    assert!(inside.is_empty());
}

#[test]
fn absolute_reads_neighbor_layer() {
    let mut lights = chunk::ChunkLight::new();
    let mut right = chunk::ChunkLight::new();
    right.set_natural((0, 3, 4).into(), 9);
    let mut n = ChunkNeighborhood::new();
    n.set(Side::Right, &right);
    lights.set_neighborhood(n);
    assert_eq!(lights.get_absolute((16, 3, 4).into()).map(|l| l.natural), Some(9));
    assert_eq!(lights.get_absolute((-1, 3, 4).into()), None);
    assert_eq!(lights.get_absolute((16, 16, 4).into()), None);
    assert_eq!(lights.get_face_reflected_intensity((15, 3, 4).into(), Side::Right), 9);
    assert_eq!(lights.get_face_reflected_intensity((15, 3, 4).into(), Side::Left), 0);
}
