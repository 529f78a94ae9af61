use projekto::math::IVec3;
use projekto::view::{view_frustum, ViewFrustumChain};
use projekto::voxel::Kind;
use projekto::voxworld::{Chunk, VoxWorld};

fn world_with(chunk: Chunk) -> VoxWorld {
    let mut world = VoxWorld::new();
    world.add((0, 0, 0).into(), chunk);
    world
}

#[test]
fn view_frustum_does_nothing_when_unchanged() {
    let world = world_with(Chunk::new());
    let r = view_frustum(&world, (4, 5, 5).into(), (1, 0, 0).into(), false);
    assert!(matches!(r, ViewFrustumChain::DoNothing));
}

#[test]
fn view_frustum_does_nothing_outside_loaded_chunks() {
    let world = world_with(Chunk::new());
    let r = view_frustum(&world, (15, 5, 5).into(), (1, 0, 0).into(), true);
    assert!(matches!(r, ViewFrustumChain::DoNothing));
}

#[test]
fn view_frustum_reverts_facing_a_wall() {
    let mut chunk = Chunk::new();
    chunk.kinds.set((5, 5, 5).into(), Kind::from(1));
    let world = world_with(chunk);
    let r = view_frustum(&world, (4, 5, 5).into(), (1, 0, 0).into(), true);
    assert!(matches!(r, ViewFrustumChain::RevertMaterial));
}

#[test]
fn view_frustum_reverts_under_full_sun() {
    let mut chunk = Chunk::new();
    chunk.lights.set_natural((4, 6, 5).into(), 15);
    let world = world_with(chunk);
    let r = view_frustum(&world, (4, 5, 5).into(), (1, 0, 0).into(), true);
    assert!(matches!(r, ViewFrustumChain::RevertMaterial));
}

#[test]
fn view_frustum_floods_an_enclosed_pocket() {
    let mut chunk = Chunk::new();
    for x in 0..16 {
        for y in 0..16 {
            for z in 0..16 {
                chunk.kinds.set((x, y, z).into(), Kind::from(1));
            }
        }
    }
    let open: [IVec3; 4] = [(5, 5, 5).into(), (6, 5, 5).into(), (5, 4, 5).into(), (5, 6, 5).into()];
    for v in open {
        chunk.kinds.set(v, Kind::from(0));
    }
    let world = world_with(chunk);
    let r = view_frustum(&world, (4, 5, 5).into(), (1, 0, 0).into(), true);
    match r {
        ViewFrustumChain::ClipMaterial(position, flooded) => {
            assert_eq!(position, IVec3::from((4, 5, 5)));
            // The voxel above the front is never entered: the flood doesn't step up.
            let expected: Vec<IVec3> = vec![(6, 5, 5).into(), (5, 4, 5).into(), (5, 5, 5).into()];
            assert_eq!(flooded, expected);
        }
        _ => panic!("expected the material to be clipped"),
    }
}

#[test]
fn view_frustum_floods_across_chunks() {
    let mut left = Chunk::new();
    let mut right = Chunk::new();
    for x in 0..16 {
        for y in 0..16 {
            for z in 0..16 {
                left.kinds.set((x, y, z).into(), Kind::from(1));
                right.kinds.set((x, y, z).into(), Kind::from(1));
            }
        }
    }
    left.kinds.set((15, 5, 5).into(), Kind::from(0));
    right.kinds.set((0, 5, 5).into(), Kind::from(0));
    let mut world = VoxWorld::new();
    world.add((0, 0, 0).into(), left);
    world.add((1, 0, 0).into(), right);
    let r = view_frustum(&world, (14, 5, 5).into(), (1, 0, 0).into(), true);
    match r {
        ViewFrustumChain::ClipMaterial(_, flooded) => {
            let expected: Vec<IVec3> = vec![(16, 5, 5).into(), (15, 5, 5).into()];
            assert_eq!(flooded, expected);
        }
        _ => panic!("expected the material to be clipped"),
    }
}
