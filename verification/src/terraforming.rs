use vstd::prelude::*;

use crate::chunk::ChunkKind;
use crate::genesis::WorldRes;
use crate::math::IVec3;
use crate::voxworld::{Chunk, VoxWorld};

verus! {

/// The kinds of the chunks found for a request, each with its position.
pub type ChunkKinds = Vec<(IVec3, ChunkKind)>;

/// Two entries of `s` never share an id.
pub open spec fn ids_unique<T>(s: Seq<(usize, T)>) -> bool {
    forall|i: int, j: int| 0 <= i < s.len() && 0 <= j < s.len() && i != j ==> s[i].0 != s[j].0
}

/// An entry of `s` has the id `id`.
pub open spec fn has_id<T>(s: Seq<(usize, T)>, id: usize) -> bool {
    exists|i: int| 0 <= i < s.len() && #[trigger] s[i].0 == id
}

/// Requests for the kinds of some chunks, answered later: each request gets an id, and its
/// answer is fetched once with that id.
pub struct ChunkQuery {
    pub requests: Vec<(usize, Vec<IVec3>)>,
    pub results: Vec<(usize, ChunkKinds)>,
    pub next_id: usize,
}

impl Default for ChunkQuery {
    fn default() -> (r: Self)
        ensures
            r.wf(),
            r.requests@.len() == 0,
            r.results@.len() == 0,
            r.next_id == 0,
    {
        ChunkQuery { requests: Vec::new(), results: Vec::new(), next_id: 0 }
    }
}

impl ChunkQuery {
    /// Ids are unique, and every request has an id given out already.
    pub open spec fn wf(&self) -> bool {
        &&& ids_unique(self.requests@)
        &&& ids_unique(self.results@)
        &&& forall|i: int| 0 <= i < self.requests@.len() ==> 0 < #[trigger] self.requests@[i].0 <= self.next_id
    }

    /// Asks for the kinds of `chunks`, which can't be empty.
    /// **Returns** the id of the request: the next one, never zero.
    pub fn request(&mut self, chunks: Vec<IVec3>) -> (r: usize)
        requires
            old(self).wf(),
            chunks@.len() > 0,
            old(self).next_id < usize::MAX,
        ensures
            final(self).wf(),
            r == old(self).next_id + 1,
            final(self).next_id == r,
            final(self).requests@ == old(self).requests@.push((r, chunks)),
            final(self).results == old(self).results,
    {
        self.next_id = self.next_id + 1;
        let id = self.next_id;
        let ghost before = self.requests@;
        self.requests.push((id, chunks));
        proof {
            assert forall|i: int, j: int|
                0 <= i < self.requests@.len() && 0 <= j < self.requests@.len() && i != j implies self.requests@[i].0
                != self.requests@[j].0 by {
                if i < before.len() {
                    assert(self.requests@[i] == before[i]);
                }
                if j < before.len() {
                    assert(self.requests@[j] == before[j]);
                }
            }
            assert forall|i: int| 0 <= i < self.requests@.len() implies 0 < #[trigger] self.requests@[i].0
                <= self.next_id by {
                if i < before.len() {
                    assert(self.requests@[i] == before[i]);
                }
            }
        }
        id
    }

    /// Takes the answer of the request `id` out, if it is there.
    pub fn fetch(&mut self, id: usize) -> (r: Option<ChunkKinds>)
        requires
            old(self).wf(),
        ensures
            final(self).wf(),
            final(self).requests == old(self).requests,
            final(self).next_id == old(self).next_id,
            match r {
                Some(v) => exists|i: int|
                    0 <= i < old(self).results@.len() && old(self).results@[i] == (id, v)
                        && final(self).results@ == old(self).results@.remove(i),
                None => !has_id(old(self).results@, id) && final(self).results == old(self).results,
            },
    {
        let mut i: usize = 0;
        while i < self.results.len()
            invariant
                i <= self.results@.len(),
                old(self).wf(),
                self.results == old(self).results,
                self.requests == old(self).requests,
                self.next_id == old(self).next_id,
                forall|k: int| 0 <= k < i ==> (#[trigger] self.results@[k]).0 != id,
            decreases self.results@.len() - i,
        {
            if self.results[i].0 == id {
                let ghost before = self.results@;
                let entry = self.results.remove(i);
                proof {
                    assert forall|a: int, b: int|
                        0 <= a < self.results@.len() && 0 <= b < self.results@.len() && a != b implies self.results@[a].0
                        != self.results@[b].0 by {
                        let a0 = if a < i { a } else { a + 1 };
                        let b0 = if b < i { b } else { b + 1 };
                        assert(self.results@[a] == before[a0]);
                        assert(self.results@[b] == before[b0]);
                    }
                }
                return Some(entry.1);
            }
            i = i + 1;
        }
        proof {
            if has_id(self.results@, id) {
                let k = choose|k: int| 0 <= k < self.results@.len() && #[trigger] self.results@[k].0 == id;
                assert(self.results@[k].0 != id);
            }
        }
        None
    }
}

/// The positions of `chunks` loaded in `world`, each once, in the order of their first
/// occurrence.
pub open spec fn loaded_once(world: Map<IVec3, Chunk>, chunks: Seq<IVec3>) -> Seq<IVec3>
    decreases chunks.len(),
{
    if chunks.len() == 0 {
        Seq::empty()
    } else {
        let r = loaded_once(world, chunks.drop_last());
        let v = chunks.last();
        if world.dom().contains(v) && !r.contains(v) {
            r.push(v)
        } else {
            r
        }
    }
}

/// `found` answers a request for `chunks`: the chunks of it loaded in `world`, each once, with
/// a copy of their kinds.
pub open spec fn answers(world: Map<IVec3, Chunk>, chunks: Seq<IVec3>, found: Seq<(IVec3, ChunkKind)>) -> bool {
    &&& found.len() == loaded_once(world, chunks).len()
    &&& forall|t: int|
        0 <= t < found.len() ==> {
            &&& #[trigger] found[t].0 == loaded_once(world, chunks)[t]
            &&& found[t].1@ == world[found[t].0].kinds@
            &&& found[t].1.neighbors()@ == world[found[t].0].kinds.neighbors()@
        }
}

fn find_position(found: &ChunkKinds, local: IVec3) -> (r: bool)
    ensures
        r == exists|t: int| 0 <= t < found@.len() && #[trigger] found@[t].0 == local,
{
    let mut t: usize = 0;
    while t < found.len()
        invariant
            t <= found@.len(),
            forall|k: int| 0 <= k < t ==> (#[trigger] found@[k]).0 != local,
        decreases found@.len() - t,
    {
        if found[t].0 == local {
            return true;
        }
        t = t + 1;
    }
    false
}

/// **Returns** the answer to a request for `chunks`: each chunk of it loaded in the world, once,
/// with a copy of its kinds.
fn answer(world: &VoxWorld, chunks: &Vec<IVec3>) -> (r: ChunkKinds)
    requires
        world.wf(),
    ensures
        answers(world@, chunks@, r@),
{
    let mut found: ChunkKinds = Vec::new();
    let mut i: usize = 0;
    while i < chunks.len()
        invariant
            world.wf(),
            i <= chunks@.len(),
            answers(world@, chunks@.take(i as int), found@),
        decreases chunks@.len() - i,
    {
        let local = chunks[i];
        let ghost lo = loaded_once(world@, chunks@.take(i as int));
        proof {
            assert(chunks@.take(i + 1).drop_last() =~= chunks@.take(i as int));
            assert(chunks@.take(i + 1).last() == local);
            assert((exists|t: int| 0 <= t < found@.len() && #[trigger] found@[t].0 == local) == lo.contains(
                local,
            )) by {
                if lo.contains(local) {
                    let t = choose|t: int| 0 <= t < lo.len() && lo[t] == local;
                    assert(found@[t].0 == local);
                }
            }
        }
        match world.get(local) {
            Some(chunk) => {
                if !find_position(&found, local) {
                    let kinds = chunk.kinds.duplicate();
                    let ghost before = found@;
                    found.push((local, kinds));
                    proof {
                        assert forall|t: int| 0 <= t < found@.len() implies {
                            &&& #[trigger] found@[t].0 == loaded_once(world@, chunks@.take(i + 1))[t]
                            &&& found@[t].1@ == world@[found@[t].0].kinds@
                            &&& found@[t].1.neighbors()@ == world@[found@[t].0].kinds.neighbors()@
                        } by {
                            if t < before.len() {
                                assert(found@[t] == before[t]);
                            }
                        }
                    }
                }
            },
            None => {},
        }
        i = i + 1;
    }
    proof {
        assert(chunks@.take(i as int) =~= chunks@);
    }
    found
}

/// Sets the answer of the request `id`, replacing the one it had.
fn insert_result(results: &mut Vec<(usize, ChunkKinds)>, id: usize, found: ChunkKinds)
    requires
        ids_unique(old(results)@),
    ensures
        ids_unique(final(results)@),
        has_id(old(results)@, id) ==> exists|p: int|
            0 <= p < old(results)@.len() && old(results)@[p].0 == id && final(results)@ == old(
                results,
            )@.update(p, (id, found)),
        !has_id(old(results)@, id) ==> final(results)@ == old(results)@.push((id, found)),
{
    let mut p: usize = 0;
    while p < results.len()
        invariant
            p <= results@.len(),
            results == old(results),
            ids_unique(old(results)@),
            forall|k: int| 0 <= k < p ==> (#[trigger] results@[k]).0 != id,
        decreases results@.len() - p,
    {
        if results[p].0 == id {
            let ghost before = results@;
            results.set(p, (id, found));
            proof {
                assert(results@ == before.update(p as int, (id, found)));
                assert forall|a: int, b: int|
                    0 <= a < results@.len() && 0 <= b < results@.len() && a != b implies results@[a].0
                    != results@[b].0 by {
                    assert(before[a].0 == results@[a].0);
                    assert(before[b].0 == results@[b].0);
                }
            }
            return;
        }
        p = p + 1;
    }
    let ghost before = results@;
    proof {
        if has_id(before, id) {
            let k = choose|k: int| 0 <= k < before.len() && #[trigger] before[k].0 == id;
            assert(before[k].0 != id);
        }
    }
    results.push((id, found));
    proof {
        assert forall|a: int, b: int|
            0 <= a < results@.len() && 0 <= b < results@.len() && a != b implies results@[a].0 != results@[b].0 by {
            if a < before.len() {
                assert(results@[a] == before[a]);
            }
            if b < before.len() {
                assert(results@[b] == before[b]);
            }
        }
    }
}

impl ChunkQuery {
    /**
     Answers every request with the chunks of it loaded in the world, unless the world is lent
     out. The answer of a request takes the place of any answer with its id.
    */
    pub fn handle_queries(&mut self, world: &WorldRes)
        requires
            old(self).wf(),
            world.world() matches Some(w) ==> w.wf(),
        ensures
            world.world() is None ==> *final(self) == *old(self),
            world.world() matches Some(w) ==> {
                &&& final(self).wf()
                &&& final(self).requests@.len() == 0
                &&& final(self).next_id == old(self).next_id
                &&& forall|id: usize|
                    #[trigger] has_id(final(self).results@, id) <==> (has_id(old(self).results@, id) || has_id(
                        old(self).requests@,
                        id,
                    ))
                &&& forall|i: int, j: int|
                    0 <= i < final(self).results@.len() && 0 <= j < old(self).requests@.len()
                        && #[trigger] final(self).results@[i].0 == #[trigger] old(self).requests@[j].0
                        ==> answers(w@, old(self).requests@[j].1@, final(self).results@[i].1@)
                &&& forall|i: int|
                    0 <= i < final(self).results@.len() && !has_id(
                        old(self).requests@,
                        #[trigger] final(self).results@[i].0,
                    ) ==> old(self).results@.contains(final(self).results@[i])
            },
    {
        if !world.is_ready() {
            return;
        }
        let w = world.get();
        let mut requests: Vec<(usize, Vec<IVec3>)> = Vec::new();
        std::mem::swap(&mut requests, &mut self.requests);
        let ghost reqs = requests@;
        let ghost old_results = self.results@;
        let mut j: usize = 0;
        while j < requests.len()
            invariant
                j <= reqs.len(),
                requests@ == reqs,
                reqs == old(self).requests@,
                old_results == old(self).results@,
                old(self).wf(),
                w.wf(),
                self.requests@.len() == 0,
                self.next_id == old(self).next_id,
                ids_unique(self.results@),
                forall|id: usize|
                    #[trigger] has_id(self.results@, id) <==> (has_id(old_results, id) || has_id(
                        reqs.take(j as int),
                        id,
                    )),
                forall|i: int, m: int|
                    0 <= i < self.results@.len() && 0 <= m < j && #[trigger] self.results@[i].0
                        == #[trigger] reqs[m].0 ==> answers(w@, reqs[m].1@, self.results@[i].1@),
                forall|i: int|
                    0 <= i < self.results@.len() && !has_id(reqs.take(j as int), #[trigger] self.results@[i].0)
                        ==> old_results.contains(self.results@[i]),
            decreases reqs.len() - j,
        {
            let id = requests[j].0;
            let found = answer(w, &requests[j].1);
            let ghost before = self.results@;
            let ghost t0 = reqs.take(j as int);
            let ghost t1 = reqs.take(j + 1);
            proof {
                assert(t1 =~= t0.push(reqs[j as int]));
                assert(!has_id(t0, id)) by {
                    if has_id(t0, id) {
                        let k = choose|k: int| 0 <= k < t0.len() && #[trigger] t0[k].0 == id;
                        assert(reqs[k].0 == reqs[j as int].0);
                    }
                }
            }
            insert_result(&mut self.results, id, found);
            proof {
                assert forall|x: usize| #[trigger] has_id(t1, x) <==> (has_id(t0, x) || x == id) by {
                    if has_id(t1, x) {
                        let k = choose|k: int| 0 <= k < t1.len() && #[trigger] t1[k].0 == x;
                        if k < j {
                            assert(t0[k] == t1[k]);
                        }
                    }
                    if has_id(t0, x) {
                        let k = choose|k: int| 0 <= k < t0.len() && #[trigger] t0[k].0 == x;
                        assert(t1[k] == t0[k]);
                    }
                    if x == id {
                        assert(t1[j as int].0 == id);
                    }
                }
                assert forall|x: usize| #[trigger] has_id(self.results@, x) <==> (has_id(before, x) || x == id) by {
                    if has_id(before, id) {
                        let p = choose|p: int|
                            0 <= p < before.len() && before[p].0 == id && self.results@ == before.update(p, (id, found));
                        if has_id(self.results@, x) {
                            let k = choose|k: int| 0 <= k < self.results@.len() && #[trigger] self.results@[k].0 == x;
                            if k != p {
                                assert(before[k] == self.results@[k]);
                            }
                        }
                        if has_id(before, x) {
                            let k = choose|k: int| 0 <= k < before.len() && #[trigger] before[k].0 == x;
                            if k != p {
                                assert(self.results@[k] == before[k]);
                            } else {
                                assert(self.results@[p].0 == id);
                            }
                        }
                        if x == id {
                            assert(self.results@[p].0 == id);
                        }
                    } else {
                        if has_id(self.results@, x) {
                            let k = choose|k: int| 0 <= k < self.results@.len() && #[trigger] self.results@[k].0 == x;
                            if k < before.len() {
                                assert(before[k] == self.results@[k]);
                            }
                        }
                        if has_id(before, x) {
                            let k = choose|k: int| 0 <= k < before.len() && #[trigger] before[k].0 == x;
                            assert(self.results@[k] == before[k]);
                        }
                        if x == id {
                            assert(self.results@[before.len() as int].0 == id);
                        }
                    }
                }
                assert forall|i: int, m: int|
                    0 <= i < self.results@.len() && 0 <= m < j + 1 && #[trigger] self.results@[i].0
                        == #[trigger] reqs[m].0 implies answers(w@, reqs[m].1@, self.results@[i].1@) by {
                    if m == j {
                        if has_id(before, id) {
                            let p = choose|p: int|
                                0 <= p < before.len() && before[p].0 == id && self.results@ == before.update(p, (id, found));
                            if i != p {
                                assert(before[i] == self.results@[i]);
                                assert(before[i].0 == id);
                                assert(before[p].0 == id);
                            }
                        } else {
                            if i < before.len() {
                                assert(before[i] == self.results@[i]);
                                assert(has_id(before, id));
                            }
                        }
                    } else {
                        assert(reqs[m].0 != id);
                        if has_id(before, id) {
                            let p = choose|p: int|
                                0 <= p < before.len() && before[p].0 == id && self.results@ == before.update(p, (id, found));
                            assert(i != p);
                            assert(before[i] == self.results@[i]);
                        } else {
                            assert(i < before.len());
                            assert(before[i] == self.results@[i]);
                        }
                    }
                }
                assert forall|i: int|
                    0 <= i < self.results@.len() && !has_id(t1, #[trigger] self.results@[i].0) implies old_results.contains(
                    self.results@[i],
                ) by {
                    assert(self.results@[i].0 != id);
                    if has_id(before, id) {
                        let p = choose|p: int|
                            0 <= p < before.len() && before[p].0 == id && self.results@ == before.update(p, (id, found));
                        assert(i != p);
                        assert(before[i] == self.results@[i]);
                    } else {
                        assert(i < before.len());
                        assert(before[i] == self.results@[i]);
                    }
                    assert(!has_id(t0, before[i].0));
                }
            }
            j = j + 1;
        }
        proof {
            assert(reqs.take(j as int) =~= reqs);
        }
    }
}

/// The single query a system can wait for at a time: the id of its request.
pub struct ChunkSystemQuery {
    pub request: Option<usize>,
}

impl Default for ChunkSystemQuery {
    fn default() -> (r: Self)
        ensures
            r.request is None,
    {
        ChunkSystemQuery { request: None }
    }
}

impl ChunkSystemQuery {
    /// Checks whether a query waits for its answer.
    pub fn is_waiting(&self) -> (r: bool)
        ensures
            r == self.request is Some,
    {
        self.request.is_some()
    }

    /// Asks `queries` for the kinds of `chunks`, which can't be empty; only one query at a time
    /// is allowed.
    pub fn query(&mut self, queries: &mut ChunkQuery, chunks: Vec<IVec3>)
        requires
            old(self).request is None,
            old(queries).wf(),
            chunks@.len() > 0,
            old(queries).next_id < usize::MAX,
        ensures
            final(queries).wf(),
            final(queries).next_id == old(queries).next_id + 1,
            final(queries).requests@ == old(queries).requests@.push((final(queries).next_id, chunks)),
            final(queries).results == old(queries).results,
            final(self).request == Some(final(queries).next_id),
    {
        let req_id = queries.request(chunks);
        self.request = Some(req_id);
    }

    /// Takes the answer to the query it waits for, once it came; the system can then query
    /// again.
    pub fn fetch(&mut self, queries: &mut ChunkQuery) -> (r: Option<ChunkKinds>)
        requires
            old(queries).wf(),
        ensures
            final(queries).wf(),
            final(queries).requests == old(queries).requests,
            final(queries).next_id == old(queries).next_id,
            match old(self).request {
                Some(id) if has_id(old(queries).results@, id) => {
                    &&& final(self).request is None
                    &&& r matches Some(v) && exists|i: int|
                        0 <= i < old(queries).results@.len() && old(queries).results@[i] == (id, v)
                            && final(queries).results@ == old(queries).results@.remove(i)
                },
                _ => {
                    &&& r is None
                    &&& final(self).request == old(self).request
                    &&& final(queries).results == old(queries).results
                },
            },
    {
        let ghost before = queries.results@;
        match self.request {
            Some(req_id) => {
                match queries.fetch(req_id) {
                    Some(res) => {
                        proof {
                            let i = choose|i: int|
                                0 <= i < before.len() && before[i] == (req_id, res)
                                    && queries.results@ == before.remove(i);
                            assert(before[i].0 == req_id);
                            assert(has_id(before, req_id));
                        }
                        self.request = None;
                        Some(res)
                    },
                    None => None,
                }
            },
            None => None,
        }
    }
}

} // verus!
