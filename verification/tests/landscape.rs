use projekto::genesis::{BatchChunkCmdRes, ChunkCmd};
use projekto::landscape::{self, IVec2, UpdateLandscapeMeta, X_AXIS};
use projekto::voxworld::{Chunk, VoxWorld};
use projekto::math::IVec3;

#[test]
fn pack_landscape_coords() {
    assert_eq!(landscape::pack_landscape_coords(IVec2::new(0, 0)), 0);
    assert_eq!(landscape::pack_landscape_coords(IVec2::new(0, 1)), 1);
    assert_eq!(landscape::pack_landscape_coords(IVec2::new(0, 2)), 2);
    assert_eq!(landscape::pack_landscape_coords(IVec2::new(0, 3)), 3);

    assert_eq!(landscape::pack_landscape_coords(IVec2::new(1, 0)), X_AXIS);
    assert_eq!(landscape::pack_landscape_coords(IVec2::new(2, 0)), 2 * X_AXIS);
    assert_eq!(landscape::pack_landscape_coords(IVec2::new(3, 0)), 3 * X_AXIS);

    assert_eq!(landscape::pack_landscape_coords(IVec2::new(1, 1)), X_AXIS + 1);
    assert_eq!(landscape::pack_landscape_coords(IVec2::new(2, 2)), 2 * X_AXIS + 2);
    assert_eq!(landscape::pack_landscape_coords(IVec2::new(3, 3)), 3 * X_AXIS + 3);
}

#[test]
fn landscape_bounds() {
    assert!(landscape::is_on_landscape_bounds(IVec2::new(0, 127)));
    assert!(!landscape::is_on_landscape_bounds(IVec2::new(128, 0)));
    assert!(!landscape::is_on_landscape_bounds(IVec2::new(3, -1)));
    assert_eq!(X_AXIS, landscape::HORIZONTAL_SIZE * 16);
    assert_eq!(landscape::HORIZONTAL_BEGIN, -(landscape::HORIZONTAL_SIZE as i32) / 2);
    assert_eq!(landscape::VERTICAL_BEGIN, -(landscape::VERTICAL_SIZE as i32) / 2);
}

#[test]
fn disjoint() {
    let a: Vec<IVec3> = vec![
        (0, 0, 0).into(),
        (1, 1, 1).into(),
        (2, 2, 2).into(),
        (3, 3, 3).into(),
    ];
    let b: Vec<IVec3> = vec![
        (0, 0, 0).into(),
        (1, 1, 1).into(),
        (2, 2, 3).into(),
        (3, 3, 4).into(),
    ];

    let (disjoint_a, disjoint_b) = landscape::disjoin(&a, &b);

    assert_eq!(disjoint_a, vec![(2, 2, 2).into(), (3, 3, 3).into()]);
    assert_eq!(disjoint_b, vec![(2, 2, 3).into(), (3, 3, 4).into()]);
}

fn v(x: i32, y: i32, z: i32) -> IVec3 {
    IVec3::new(x, y, z)
}

fn world_with(locals: &[IVec3]) -> VoxWorld {
    let mut world = VoxWorld::new();
    for &l in locals {
        world.add(l, Chunk::new());
    }
    world
}

#[test]
fn update_landscape_loads_missing_and_unloads_far_chunks() {
    let world = world_with(&[v(0, 0, 0), v(10, 0, 0)]);
    let mut cmd_buffer = BatchChunkCmdRes::default();

    landscape::update_landscape(v(0, 0, 0), 1, &world, &mut cmd_buffer);

    let cmds = cmd_buffer.swap_and_clone();
    let mut expected = vec![];
    for (x, z) in [(-1, -1), (-1, 0), (-1, 1), (0, -1), (0, 1), (1, -1), (1, 0), (1, 1)] {
        expected.push(ChunkCmd::Load(v(x, 0, z)));
    }
    expected.push(ChunkCmd::Unload(v(10, 0, 0)));
    assert_eq!(cmds, expected);
}

#[test]
fn update_landscape_nothing_to_do() {
    let world = world_with(&[v(4, 2, 4)]);
    let mut cmd_buffer = BatchChunkCmdRes::default();
    landscape::update_landscape(v(4, 2, 4), 0, &world, &mut cmd_buffer);
    assert!(!cmd_buffer.has_pending_commands());
}

#[test]
fn landscape_spawns_loaded_chunks_only() {
    let world = world_with(&[v(0, 0, 0), v(1, 0, 0), v(7, 0, 7)]);
    let shown = vec![v(0, 0, 0), v(5, 0, 5)];

    let (spawn, despawn) = landscape::landscape_spawns(v(0, 0, 0), 1, &shown, &world);

    assert_eq!(spawn, vec![v(1, 0, 0)]);
    assert_eq!(despawn, vec![v(5, 0, 5)]);
}

#[test]
fn update_landscape_meta_queues() {
    let mut meta = UpdateLandscapeMeta::default();
    let existing = vec![v(0, 0, 0), v(3, 3, 3)];

    // Same center as the last one and no sync due: nothing moves.
    let r = meta.update(&[], &[], false, Some(v(0, 0, 0)), false, -1, 1, &existing);
    assert_eq!(r, Some((false, vec![], vec![])));

    let area = vec![
        v(-1, -1, -1),
        v(-1, 0, -1),
        v(-1, -1, 0),
        v(-1, 0, 0),
        v(0, -1, -1),
        v(0, 0, -1),
        v(0, -1, 0),
    ];
    let r = meta.update(&[], &[], false, Some(v(0, 0, 0)), true, -1, 1, &existing);
    assert_eq!(r, Some((true, area.clone(), vec![v(3, 3, 3)])));
    assert_eq!(meta.pending_load, area);
    assert_eq!(meta.pending_unload, vec![v(3, 3, 3)]);
    assert!(meta.load_queue.is_empty());

    // Only the chunk whose answer came back is asked for again.
    let r = meta.update(&[v(-1, -1, -1)], &[], false, Some(v(0, 0, 0)), true, -1, 1, &existing);
    assert_eq!(r, Some((true, vec![v(-1, -1, -1)], vec![])));
}

#[test]
fn update_landscape_meta_paused() {
    let mut meta = UpdateLandscapeMeta::default();
    meta.pending_load = vec![v(1, 1, 1), v(2, 2, 2)];
    meta.pending_unload = vec![v(5, 5, 5)];
    assert_eq!(meta.update(&[v(1, 1, 1)], &[v(5, 5, 5)], true, Some(v(9, 9, 9)), true, 0, 1, &[]), None);
    assert_eq!(meta.pending_load, vec![v(2, 2, 2)]);
    assert!(meta.pending_unload.is_empty());
    assert_eq!(meta.update(&[], &[], false, None, true, 0, 1, &[]), None);
    assert_eq!(meta.last_pos, v(0, 0, 0));
}

#[test]
fn sync_moves_chunks_between_queues() {
    let mut meta = UpdateLandscapeMeta::default();
    meta.unload_queue = vec![v(0, 0, 0), v(9, 9, 9)];
    meta.load_queue = vec![v(8, 8, 8)];
    meta.sync(v(0, 0, 0), 0, 1, &[v(8, 8, 8)]);
    assert_eq!(meta.last_pos, v(0, 0, 0));
    assert_eq!(meta.load_queue, vec![v(0, 0, 0)]);
    assert_eq!(meta.unload_queue, vec![v(9, 9, 9), v(8, 8, 8)]);
    let (loads, unloads) = meta.drain();
    assert_eq!(loads, vec![v(0, 0, 0)]);
    assert_eq!(unloads, vec![v(9, 9, 9), v(8, 8, 8)]);
    assert_eq!(meta.pending_load, vec![v(0, 0, 0)]);
}

#[test]
fn update_landscape_meta_keeps_queues_sound() {
    let mut meta = UpdateLandscapeMeta::default();
    let mut existing: Vec<IVec3> = vec![];
    for step in 0..6 {
        let center = v(step % 3, 0, step / 2);
        // Pretend half of what was asked for last time has come back.
        let loaded: Vec<IVec3> = meta.pending_load.iter().step_by(2).copied().collect();
        existing.extend(loaded.iter().copied());
        let unloaded: Vec<IVec3> = meta.pending_unload.iter().step_by(2).copied().collect();
        existing.retain(|e| !unloaded.contains(e));

        meta.update(&loaded, &unloaded, false, Some(center), step % 2 == 0, -1, 2, &existing);

        for list in [&meta.load_queue, &meta.unload_queue, &meta.pending_load, &meta.pending_unload] {
            for (i, a) in list.iter().enumerate() {
                assert!(!list[i + 1..].contains(a), "{a:?} is listed twice");
            }
        }
        for a in &meta.load_queue {
            assert!(!meta.unload_queue.contains(a) && !meta.pending_load.contains(a));
        }
        for a in &meta.unload_queue {
            assert!(!meta.pending_unload.contains(a));
        }
    }
}
