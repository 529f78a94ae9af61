use projekto::chunk::{self};
use projekto::math::IVec3;
use projekto::voxel::{self, Side};
use projekto::voxworld::{Chunk, VoxWorld};

fn one() -> IVec3 {
    IVec3::new(1, 1, 1)
}

#[test]
fn voxworld_add() {
    let mut world = VoxWorld::new();
    assert!(world.get(one()).is_none());
    world.add(one(), Chunk::new());
    assert!(world.get(one()).is_some());
}

#[test]
fn voxworld_remove() {
    let mut world = VoxWorld::new();
    world.add(one(), Chunk::new());
    assert!(world.remove(one()).is_some());
    assert!(world.get(one()).is_none());
}

#[test]
fn voxworld_remove_none() {
    let mut world = VoxWorld::new();
    assert!(world.remove(one()).is_none());
    assert!(world.get(one()).is_none());
}

#[test]
fn world_add() {
    let mut world = VoxWorld::new();
    assert!(world.get(one()).is_none());
    world.add(one(), Chunk::new());
    assert!(world.get(one()).is_some());
}

#[test]
fn world_remove() {
    let mut world = VoxWorld::new();
    world.add(one(), Chunk::new());
    assert!(world.remove(one()).is_some());
    assert!(world.get(one()).is_none());
}

#[test]
fn world_remove_none() {
    let mut world = VoxWorld::new();
    assert!(world.remove(one()).is_none());
    assert!(world.get(one()).is_none());
}

#[test]
fn contains_and_list() {
    let mut world = VoxWorld::new();
    world.add((0, 0, 0).into(), Chunk::new());
    world.add((1, 0, 0).into(), Chunk::new());
    assert!(world.contains((1, 0, 0).into()));
    assert!(!world.contains((2, 0, 0).into()));
    assert_eq!(world.list_chunks(), vec![(0, 0, 0).into(), (1, 0, 0).into()]);
    world.get_mut((1, 0, 0).into()).unwrap().kinds.set((1, 2, 3).into(), 5.into());
    assert_eq!(world.get((1, 0, 0).into()).unwrap().kinds.get((1, 2, 3).into()), 5.into());
}

#[test]
fn voxworld_update_neighborhood() {
    let mut world = VoxWorld::new();

    let center = (1, 1, 1).into();
    let mut chunk = Chunk::new();
    chunk.kinds.set_all(10.into());
    world.add(center, chunk);

    for side in voxel::SIDES {
        let dir = side.dir();
        let pos = center.plus(dir);
        let mut chunk = Chunk::new();
        chunk.kinds.set_all((side as u16).into());
        world.add(pos, chunk);
    }

    world.update_neighborhood(center);
    let chunk = world.get(center).unwrap();

    for side in voxel::SIDES {
        let expected = Some((side as u16).into());
        match side {
            Side::Right => {
                for a in 0..chunk::Y_AXIS_SIZE {
                    for b in 0..chunk::Z_AXIS_SIZE {
                        assert_eq!(
                            chunk.kinds.neighborhood().get(side, (0, a as i32, b as i32).into()),
                            expected
                        );
                    }
                }
            }
            Side::Left => {
                for a in 0..chunk::Y_AXIS_SIZE {
                    for b in 0..chunk::Z_AXIS_SIZE {
                        assert_eq!(
                            chunk
                                .kinds
                                .neighborhood()
                                .get(side, (chunk::X_END, a as i32, b as i32).into()),
                            expected
                        );
                    }
                }
            }
            Side::Up => {
                for a in 0..chunk::X_AXIS_SIZE {
                    for b in 0..chunk::Z_AXIS_SIZE {
                        assert_eq!(
                            chunk.kinds.neighborhood().get(side, (a as i32, 0, b as i32).into()),
                            expected
                        );
                    }
                }
            }
            Side::Down => {
                for a in 0..chunk::X_AXIS_SIZE {
                    for b in 0..chunk::Z_AXIS_SIZE {
                        assert_eq!(
                            chunk
                                .kinds
                                .neighborhood()
                                .get(side, (a as i32, chunk::Y_END, b as i32).into()),
                            expected
                        );
                    }
                }
            }
            Side::Front => {
                for a in 0..chunk::X_AXIS_SIZE {
                    for b in 0..chunk::Y_AXIS_SIZE {
                        assert_eq!(
                            chunk.kinds.neighborhood().get(side, (a as i32, b as i32, 0).into()),
                            expected
                        );
                    }
                }
            }
            Side::Back => {
                for a in 0..chunk::X_AXIS_SIZE {
                    for b in 0..chunk::Y_AXIS_SIZE {
                        assert_eq!(
                            chunk
                                .kinds
                                .neighborhood()
                                .get(side, (a as i32, b as i32, chunk::Z_END).into()),
                            expected
                        );
                    }
                }
            }
        }
    }
}
