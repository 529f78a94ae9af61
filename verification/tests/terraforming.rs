use std::collections::HashSet;

use projekto::chunk::ChunkKind;
use projekto::genesis::WorldRes;
use projekto::math::IVec3;
use projekto::terraforming::{ChunkQuery, ChunkSystemQuery};
use projekto::voxworld::{Chunk, VoxWorld};

#[test]
fn chunk_query() {
    let mut query = ChunkQuery::default();
    let req_id = query.request(vec![(0, 0, 0).into()]);

    assert!(req_id > 0, "A non-zero valid unique ID should be returned");

    assert!(query.fetch(req_id).is_none(), "A query fetch without result should return None");

    assert!(query.fetch(12345).is_none(), "A non-existing request id should return None");

    query.results.push((req_id, vec![((0, 0, 0).into(), ChunkKind::new())]));

    let fetch = query.fetch(req_id);

    assert!(fetch.is_some());

    let res = fetch.unwrap();

    assert!(res.iter().any(|(local, _)| *local == IVec3::new(0, 0, 0)));

    assert!(query.fetch(req_id).is_none(), "A second fetch on same request id should return None");

    let mut ids = HashSet::new();
    for _ in 0..1000 {
        let id = query.request(vec![(0, 1, 2).into()]);

        assert!(!ids.contains(&id), "Request id should always be unique");
        ids.insert(id);
    }
}

#[test]
fn handle_queries_answers_loaded_chunks() {
    let mut world = VoxWorld::new();
    let mut chunk = Chunk::new();
    chunk.kinds.set((1, 2, 3).into(), 7.into());
    world.add((0, 0, 0).into(), chunk);
    world.add((5, 0, 0).into(), Chunk::new());

    let mut query = ChunkQuery::default();
    let first = query.request(vec![(0, 0, 0).into(), (1, 0, 0).into(), (0, 0, 0).into()]);
    let second = query.request(vec![(5, 0, 0).into()]);

    // The world is lent out: nothing is answered.
    query.handle_queries(&WorldRes::new(None));
    assert_eq!(query.requests.len(), 2);
    assert!(query.results.is_empty());

    query.handle_queries(&WorldRes::new(Some(world)));
    assert!(query.requests.is_empty());

    let answer = query.fetch(first).unwrap();
    assert_eq!(answer.len(), 1);
    assert_eq!(answer[0].0, IVec3::new(0, 0, 0));
    assert_eq!(answer[0].1.get((1, 2, 3).into()), 7.into());

    let answer = query.fetch(second).unwrap();
    assert_eq!(answer.len(), 1);
    assert_eq!(answer[0].0, IVec3::new(5, 0, 0));
}

#[test]
fn chunk_system_query_waits_for_its_answer() {
    let mut queries = ChunkQuery::default();
    let mut system = ChunkSystemQuery::default();
    assert!(!system.is_waiting());

    system.query(&mut queries, vec![(0, 0, 0).into()]);
    assert!(system.is_waiting());
    assert!(system.fetch(&mut queries).is_none());
    assert!(system.is_waiting());

    let mut world = VoxWorld::new();
    world.add((0, 0, 0).into(), Chunk::new());
    queries.handle_queries(&WorldRes::new(Some(world)));

    let answer = system.fetch(&mut queries).unwrap();
    assert_eq!(answer.len(), 1);
    assert!(!system.is_waiting());
    assert!(system.fetch(&mut queries).is_none());
}
