use vstd::prelude::*;
use vstd::seq_lib::{to_multiset_build, to_multiset_insert};

use std::time::{Duration, Instant};

verus! {

/// The clock's instants, carried through as they are.
#[verifier::external_type_specification]
#[verifier::external_body]
pub struct ExInstant(Instant);

/// `std::time::Instant::now`: the current instant. Nothing is stated of it.
#[verifier::external_body]
fn now() -> (r: Instant) {
    Instant::now()
}

/// `std::time::Instant::elapsed`: the time passed since `start`. Nothing is stated of it.
#[verifier::external_body]
fn elapsed_since(start: &Instant) -> (r: Duration) {
    start.elapsed()
}

/// `std::time::Duration::as_micros`: the whole microseconds of a duration. Nothing is stated of
/// it, the duration being opaque here.
#[verifier::external_body]
fn micros_of(duration: &Duration) -> (r: u128) {
    duration.as_micros()
}

/// Microseconds passed since `start`, cut to 64 bits.
fn micros_since(start: &Instant) -> (r: u64) {
    let d = elapsed_since(start);
    micros_of(&d) as u64
}

/// The accumulated samples of one measured scope.
#[derive(Debug)]
pub struct PerfCounter {
    pub name: String,
    pub elapsed: u64,
    pub counter: u64,
    pub min: u64,
    pub max: u64,
    pub meta: u64,
}

impl Default for PerfCounter {
    fn default() -> (r: Self)
        ensures
            r.name@ == Seq::<char>::empty(),
            r.elapsed == 0,
            r.counter == 0,
            r.min == u64::MAX,
            r.max == 0,
            r.meta == 0,
    {
        PerfCounter { name: String::new(), elapsed: 0, counter: 0, min: u64::MAX, max: 0, meta: 0 }
    }
}

/// The smaller of two values.
pub open spec fn min_of(a: u64, b: u64) -> u64 {
    if a <= b {
        a
    } else {
        b
    }
}

/// The greater of two values.
pub open spec fn max_of(a: u64, b: u64) -> u64 {
    if a >= b {
        a
    } else {
        b
    }
}

impl PerfCounter {
    /// A copy of this counter, name included.
    pub fn duplicate(&self) -> (r: PerfCounter)
        ensures
            r == *self,
    {
        PerfCounter {
            name: self.name.clone(),
            elapsed: self.elapsed,
            counter: self.counter,
            min: self.min,
            max: self.max,
            meta: self.meta,
        }
    }
}

/// A measured scope: its name, the samples taken so far and when it started.
pub struct PerfCounterGuard {
    pub start: Instant,
    pub name: String,
    pub elapsed: u64,
    pub counter: u64,
    pub min: u64,
    pub max: u64,
    pub meta: u64,
}

impl Default for PerfCounterGuard {
    fn default() -> (r: Self)
        ensures
            r.name@ == Seq::<char>::empty(),
            r.elapsed == 0,
            r.counter == 0,
            r.min == u64::MAX,
            r.max == 0,
            r.meta == 0,
    {
        PerfCounterGuard {
            start: now(),
            name: String::new(),
            elapsed: 0,
            counter: 0,
            min: u64::MAX,
            max: 0,
            meta: 0,
        }
    }
}

/// What a counter becomes once `guard`'s samples are added to it.
pub open spec fn merged(entry: PerfCounter, guard: PerfCounterGuard) -> PerfCounter {
    PerfCounter {
        name: entry.name,
        elapsed: (entry.elapsed + guard.elapsed) as u64,
        counter: (entry.counter + guard.counter) as u64,
        min: min_of(entry.min, guard.min),
        max: max_of(entry.max, guard.max),
        meta: (entry.meta + guard.meta) as u64,
    }
}

/// The adding of `guard` to `entry` fits in 64 bits.
pub open spec fn can_merge(entry: PerfCounter, guard: PerfCounterGuard) -> bool {
    &&& entry.elapsed + guard.elapsed <= u64::MAX
    &&& entry.counter + guard.counter <= u64::MAX
    &&& entry.meta + guard.meta <= u64::MAX
}

/// A sample of `duration` microseconds, where zero is no sample.
pub open spec fn sampled(g: PerfCounterGuard, duration: u64) -> PerfCounterGuard {
    if duration == 0 {
        g
    } else {
        PerfCounterGuard {
            counter: (g.counter + 1) as u64,
            elapsed: (g.elapsed + duration) as u64,
            min: if duration < g.min {
                duration
            } else {
                g.min
            },
            max: if duration > g.max {
                duration
            } else {
                g.max
            },
            ..g
        }
    }
}

/// The time spent outside the samples when `total` microseconds passed in all, `elapsed` of
/// them in samples; zero when the samples took longer.
pub open spec fn time_outside(elapsed: u64, total: u64) -> u64 {
    if total >= elapsed {
        (total - elapsed) as u64
    } else {
        0
    }
}

/// The sample fits in the guard's totals.
pub open spec fn can_sample(g: PerfCounterGuard, duration: u64) -> bool {
    duration == 0 || (g.counter < u64::MAX && g.elapsed + duration <= u64::MAX)
}

impl PerfCounterGuard {
    /// Starts measuring one run of the scope; the run ends with
    /// [`PerfMeasureGuard::finish`].
    pub fn measure(&self) -> (r: PerfMeasureGuard) {
        PerfMeasureGuard::new()
    }

    /// A scope named `name`, with no sample yet.
    pub fn new(name: &str) -> (r: Self)
        ensures
            r.name@ == name@,
            r.elapsed == 0,
            r.counter == 0,
            r.min == u64::MAX,
            r.max == 0,
            r.meta == 0,
    {
        PerfCounterGuard {
            start: now(),
            name: name.to_owned(),
            elapsed: 0,
            counter: 0,
            min: u64::MAX,
            max: 0,
            meta: 0,
        }
    }

    /// Records a sample of `duration` microseconds; a zero duration records nothing.
    pub fn add_sample(&mut self, duration: u64)
        requires
            can_sample(*old(self), duration),
        ensures
            *final(self) == sampled(*old(self), duration),
    {
        if duration == 0 {
            return;
        }
        self.counter = self.counter + 1;
        self.elapsed = self.elapsed + duration;
        if duration < self.min {
            self.min = duration;
        }
        if duration > self.max {
            self.max = duration;
        }
    }

    /// Sets the time spent outside the samples, given the `total` microseconds since the
    /// scope started. A total below the sampled time gives zero.
    pub fn set_meta(&mut self, total: u64)
        ensures
            final(self).meta == (if total >= old(self).elapsed {
                total - old(self).elapsed
            } else {
                0
            }),
            *final(self) == (PerfCounterGuard { meta: final(self).meta, ..*old(self) }),
    {
        self.meta = if total >= self.elapsed {
            total - self.elapsed
        } else {
            0
        };
    }

    /// Computes the time spent in the scope outside the samples, from the clock: the total
    /// microseconds since the scope started, less the sampled time, or zero.
    pub fn calc_meta(&mut self)
        ensures
            *final(self) == (PerfCounterGuard { meta: final(self).meta, ..*old(self) }),
            exists|total: u64| final(self).meta == #[trigger] time_outside(old(self).elapsed, total),
    {
        let total = micros_since(&self.start);
        self.set_meta(total);
        proof {
            assert(self.meta == time_outside(old(self).elapsed, total));
        }
    }

    /// Ends the scope: computes its meta time and, when it has samples, adds them to `map`.
    /// **Returns** whether they were added; they are not when the totals would not fit.
    pub fn finish(self, map: &mut PerfCounterMap) -> (r: bool)
        requires
            old(map).wf(),
        ensures
            final(map).wf(),
            exists|m: u64|
                {
                    let g = #[trigger] with_meta(self, m);
                    &&& (r <==> (self.counter > 0 && old(map).insertable(g)))
                    &&& final(map)@ == (if r {
                        inserted(old(map)@, g)
                    } else {
                        old(map)@
                    })
                },
    {
        let ghost start = self;
        let mut guard = self;
        guard.calc_meta();
        proof {
            assert(guard == with_meta(start, guard.meta));
        }
        if guard.counter > 0 && map.can_insert(&guard) {
            map.insert(&guard);
            true
        } else {
            false
        }
    }
}

/// One run of a measured scope, from its start.
pub struct PerfMeasureGuard {
    start: Instant,
}

impl PerfMeasureGuard {
    /// Starts a run now.
    pub fn new() -> (r: Self) {
        PerfMeasureGuard { start: now() }
    }

    /// Ends the run and records its duration in `perf_counter`, when it fits in its totals.
    /// **Returns** the duration recorded, in microseconds (zero when none was).
    pub fn finish(self, perf_counter: &mut PerfCounterGuard) -> (r: u64)
        ensures
            *final(perf_counter) == sampled(*old(perf_counter), r),
            exists|duration: u64|
                r == (if #[trigger] can_sample(*old(perf_counter), duration) {
                    duration
                } else {
                    0
                }),
    {
        let duration = micros_since(&self.start);
        if can_add_sample(perf_counter, duration) {
            perf_counter.add_sample(duration);
            duration
        } else {
            proof {
                assert(!can_sample(*old(perf_counter), duration));
            }
            0
        }
    }
}

/// Checks that a sample of `duration` fits in the guard's totals.
pub fn can_add_sample(g: &PerfCounterGuard, duration: u64) -> (r: bool)
    ensures
        r == can_sample(*g, duration),
{
    duration == 0 || (g.counter < u64::MAX && duration <= u64::MAX - g.elapsed)
}

/// The counters of all measured scopes, one per name.
pub struct PerfCounterMap(Vec<PerfCounter>);

impl View for PerfCounterMap {
    type V = Seq<PerfCounter>;

    closed spec fn view(&self) -> Seq<PerfCounter> {
        self.0@
    }
}

/// The index of the counter named `name`, if any.
pub open spec fn find_counter(s: Seq<PerfCounter>, name: Seq<char>) -> Option<int> {
    if exists|i: int| 0 <= i < s.len() && (#[trigger] s[i]).name@ == name {
        Some(choose|i: int| 0 <= i < s.len() && (#[trigger] s[i]).name@ == name)
    } else {
        None
    }
}

/// `guard` with its meta time set to `meta`.
pub open spec fn with_meta(guard: PerfCounterGuard, meta: u64) -> PerfCounterGuard {
    PerfCounterGuard { meta, ..guard }
}

/// The counters once the samples of `guard` are added to the counter of its name, created
/// when missing.
pub open spec fn inserted(counters: Seq<PerfCounter>, guard: PerfCounterGuard) -> Seq<PerfCounter> {
    match find_counter(counters, guard.name@) {
        Some(i) => counters.update(i, merged(counters[i], guard)),
        None => counters.push(
            merged(
                PerfCounter { name: guard.name, elapsed: 0, counter: 0, min: u64::MAX, max: 0, meta: 0 },
                guard,
            ),
        ),
    }
}

impl PerfCounterMap {
    /// No two counters share a name.
    pub open spec fn wf(&self) -> bool {
        forall|i: int, j: int|
            0 <= i < self@.len() && 0 <= j < self@.len() && i != j ==> (#[trigger] self@[i]).name@
                != (#[trigger] self@[j]).name@
    }

    pub fn new() -> (r: Self)
        ensures
            r.wf(),
            r@ == Seq::<PerfCounter>::empty(),
    {
        PerfCounterMap(Vec::new())
    }

    /// The counter that `guard`'s samples go to, and whether adding them fits.
    pub open spec fn insertable(&self, guard: PerfCounterGuard) -> bool {
        Self::insertable_in(self@, guard)
    }

    /// Whether adding the samples of `guard` to `counters` fits.
    pub open spec fn insertable_in(counters: Seq<PerfCounter>, guard: PerfCounterGuard) -> bool {
        match find_counter(counters, guard.name@) {
            Some(i) => can_merge(counters[i], guard),
            None => true,
        }
    }

    /// Checks that [`Self::insert`] can take `guard`.
    pub fn can_insert(&self, guard: &PerfCounterGuard) -> (r: bool)
        requires
            self.wf(),
        ensures
            r == self.insertable(*guard),
    {
        let mut i: usize = 0;
        while i < self.0.len()
            invariant
                i <= self@.len(),
                self.wf(),
                forall|j: int| 0 <= j < i ==> (#[trigger] self@[j]).name@ != guard.name@,
            decreases self@.len() - i,
        {
            if self.0[i].name == guard.name {
                let e = &self.0[i];
                proof {
                    assert(find_counter(self@, guard.name@) == Some(i as int));
                }
                return e.elapsed <= u64::MAX - guard.elapsed && e.counter <= u64::MAX
                    - guard.counter && e.meta <= u64::MAX - guard.meta;
            }
            i = i + 1;
        }
        true
    }

    /// Adds the samples of `guard` to the counter of the same name, created when missing.
    pub fn insert(&mut self, guard: &PerfCounterGuard)
        requires
            old(self).wf(),
            old(self).insertable(*guard),
        ensures
            final(self).wf(),
            final(self)@ == inserted(old(self)@, *guard),
    {
        let mut i: usize = 0;
        while i < self.0.len()
            invariant
                i <= self@.len(),
                self.wf(),
                *self == *old(self),
                self.insertable(*guard),
                forall|j: int| 0 <= j < i ==> (#[trigger] self@[j]).name@ != guard.name@,
            decreases self@.len() - i,
        {
            if self.0[i].name == guard.name {
                proof {
                    assert(find_counter(self@, guard.name@) == Some(i as int));
                }
                let e = &self.0[i];
                let updated = PerfCounter {
                    name: e.name.clone(),
                    elapsed: e.elapsed + guard.elapsed,
                    counter: e.counter + guard.counter,
                    min: if e.min <= guard.min {
                        e.min
                    } else {
                        guard.min
                    },
                    max: if e.max >= guard.max {
                        e.max
                    } else {
                        guard.max
                    },
                    meta: e.meta + guard.meta,
                };
                self.0.set(i, updated);
                return;
            }
            i = i + 1;
        }
        let entry = PerfCounter {
            name: guard.name.clone(),
            elapsed: guard.elapsed,
            counter: guard.counter,
            min: if u64::MAX <= guard.min {
                u64::MAX
            } else {
                guard.min
            },
            max: if 0 >= guard.max {
                0
            } else {
                guard.max
            },
            meta: guard.meta,
        };
        self.0.push(entry);
    }

    /// Removes every counter.
    pub fn clear(&mut self)
        ensures
            final(self).wf(),
            final(self)@ == Seq::<PerfCounter>::empty(),
    {
        self.0.clear();
    }
}

/// Counters ordered from the greatest elapsed time down.
pub open spec fn by_elapsed_desc(s: Seq<PerfCounter>) -> bool {
    forall|i: int, j: int| 0 <= i < j < s.len() ==> (#[trigger] s[i]).elapsed >= (#[trigger] s[j]).elapsed
}

impl PerfCounterMap {
    /// **Returns** a copy of every counter, from the greatest elapsed time down.
    pub fn sorted_by_elapsed(&self) -> (r: Vec<PerfCounter>)
        ensures
            r@.to_multiset() == self@.to_multiset(),
            by_elapsed_desc(r@),
    {
        let mut out: Vec<PerfCounter> = Vec::new();
        let mut i: usize = 0;
        proof {
            assert(out@ =~= self@.subrange(0, 0));
        }
        while i < self.0.len()
            invariant
                i <= self@.len(),
                out@.to_multiset() == self@.subrange(0, i as int).to_multiset(),
                by_elapsed_desc(out@),
            decreases self@.len() - i,
        {
            let x = self.0[i].duplicate();
            let mut p: usize = 0;
            while p < out.len() && out[p].elapsed >= x.elapsed
                invariant
                    p <= out@.len(),
                    forall|q: int| 0 <= q < p ==> (#[trigger] out@[q]).elapsed >= x.elapsed,
                decreases out@.len() - p,
            {
                p = p + 1;
            }
            let ghost before = out@;
            out.insert(p, x);
            proof {
                to_multiset_insert(before, p as int, x);
                assert(self@.subrange(0, i + 1) =~= self@.subrange(0, i as int).push(self@[i as int]));
                to_multiset_build(self@.subrange(0, i as int), self@[i as int]);
                assert forall|a: int, b: int| 0 <= a < b < out@.len() implies (#[trigger] out@[a]).elapsed
                    >= (#[trigger] out@[b]).elapsed by {
                    if b < p {
                    } else if b == p {
                        assert(out@[a] == before[a]);
                    } else if a < p {
                        assert(out@[a] == before[a]);
                        assert(out@[b] == before[b - 1]);
                    } else if a == p {
                        assert(out@[b] == before[b - 1]);
                        assert(before[p as int].elapsed < x.elapsed);
                    } else {
                        assert(out@[a] == before[a - 1]);
                        assert(out@[b] == before[b - 1]);
                    }
                }
            }
            i = i + 1;
        }
        proof {
            assert(self@.subrange(0, i as int) =~= self@);
        }
        out
    }
}

/// What the performance report shows.
pub enum PerfReport {
    /// Nothing was asked.
    Nothing,
    /// The counters were cleared.
    Cleared,
    /// The counters, from the greatest elapsed time down.
    Counters(Vec<PerfCounter>),
}

/// Decides the performance report on a key press: with the control key held the counters are
/// cleared, without it they are listed from the greatest elapsed time down.
pub fn print_perf_counter(map: &mut PerfCounterMap, ctrl_pressed: bool, report_pressed: bool) -> (r:
    PerfReport)
    requires
        old(map).wf(),
    ensures
        final(map).wf(),
        !report_pressed ==> r is Nothing && final(map)@ == old(map)@,
        report_pressed && ctrl_pressed ==> r is Cleared && final(map)@ == Seq::<PerfCounter>::empty(),
        report_pressed && !ctrl_pressed ==> final(map)@ == old(map)@ && match r {
            PerfReport::Counters(v) => v@.to_multiset() == old(map)@.to_multiset() && by_elapsed_desc(
                v@,
            ),
            _ => false,
        },
{
    if !report_pressed {
        PerfReport::Nothing
    } else if ctrl_pressed {
        map.clear();
        PerfReport::Cleared
    } else {
        PerfReport::Counters(map.sorted_by_elapsed())
    }
}

/// The sums kept by a counter: elapsed time, samples, shortest and longest sample, meta time.
pub open spec fn totals(c: PerfCounter) -> (u64, u64, u64, u64, u64) {
    (c.elapsed, c.counter, c.min, c.max, c.meta)
}

/// The sums of the counter named `name`, if there is one.
pub open spec fn totals_named(counters: Seq<PerfCounter>, name: Seq<char>) -> Option<(u64, u64, u64, u64, u64)> {
    match find_counter(counters, name) {
        Some(i) => Some(totals(counters[i])),
        None => None,
    }
}

/// No two counters share a name.
pub open spec fn names_unique(counters: Seq<PerfCounter>) -> bool {
    forall|i: int, j: int|
        0 <= i < counters.len() && 0 <= j < counters.len() && i != j ==> (#[trigger] counters[i]).name@
            != (#[trigger] counters[j]).name@
}

proof fn lemma_find_unique(counters: Seq<PerfCounter>, name: Seq<char>, i: int)
    requires
        names_unique(counters),
        0 <= i < counters.len(),
        counters[i].name@ == name,
    ensures
        find_counter(counters, name) == Some(i),
{
    let k = choose|k: int| 0 <= k < counters.len() && (#[trigger] counters[k]).name@ == name;
}

/// Adding a guard's samples changes the sums of its own name only, and keeps names unique.
proof fn lemma_inserted_named(counters: Seq<PerfCounter>, guard: PerfCounterGuard, name: Seq<char>)
    requires
        names_unique(counters),
    ensures
        names_unique(inserted(counters, guard)),
        totals_named(inserted(counters, guard), name) == if name == guard.name@ {
            Some(
                totals(
                    merged(
                        match find_counter(counters, name) {
                            Some(i) => counters[i],
                            None => PerfCounter {
                                name: guard.name,
                                elapsed: 0,
                                counter: 0,
                                min: u64::MAX,
                                max: 0,
                                meta: 0,
                            },
                        },
                        guard,
                    ),
                ),
            )
        } else {
            totals_named(counters, name)
        },
{
    let r = inserted(counters, guard);
    match find_counter(counters, guard.name@) {
        Some(i) => {
            assert(counters[i].name@ == guard.name@);
            assert forall|a: int, b: int|
                0 <= a < r.len() && 0 <= b < r.len() && a != b implies (#[trigger] r[a]).name@
                != (#[trigger] r[b]).name@ by {
                assert(r[a].name@ == counters[a].name@);
                assert(r[b].name@ == counters[b].name@);
            }
            if name == guard.name@ {
                lemma_find_unique(r, name, i);
            } else if find_counter(counters, name) is Some {
                let k = find_counter(counters, name)->0;
                assert(counters[k].name@ == name);
                lemma_find_unique(r, name, k);
            } else {
                if find_counter(r, name) is Some {
                    let k = choose|k: int| 0 <= k < r.len() && (#[trigger] r[k]).name@ == name;
                    assert(r[k].name@ == counters[k].name@);
                }
            }
        },
        None => {
            let n = counters.len() as int;
            assert forall|a: int, b: int|
                0 <= a < r.len() && 0 <= b < r.len() && a != b implies (#[trigger] r[a]).name@
                != (#[trigger] r[b]).name@ by {
                if a < n && b < n {
                    assert(r[a] == counters[a] && r[b] == counters[b]);
                } else if a < n {
                    assert(r[a] == counters[a]);
                    assert(counters[a].name@ != guard.name@);
                } else {
                    assert(r[b] == counters[b]);
                    assert(counters[b].name@ != guard.name@);
                }
            }
            if name == guard.name@ {
                lemma_find_unique(r, name, n);
            } else if find_counter(counters, name) is Some {
                let k = find_counter(counters, name)->0;
                assert(r[k] == counters[k]);
                lemma_find_unique(r, name, k);
            } else {
                if find_counter(r, name) is Some {
                    let k = choose|k: int| 0 <= k < r.len() && (#[trigger] r[k]).name@ == name;
                    if k < n {
                        assert(r[k] == counters[k]);
                    }
                }
            }
        },
    }
}

/// The counters kept per name do not depend on the order in which two guards are added, when
/// both orders fit in 64 bits.
pub proof fn lemma_insert_order(counters: Seq<PerfCounter>, g1: PerfCounterGuard, g2: PerfCounterGuard, name: Seq<char>)
    requires
        names_unique(counters),
        PerfCounterMap::insertable_in(counters, g1),
        PerfCounterMap::insertable_in(inserted(counters, g1), g2),
        PerfCounterMap::insertable_in(counters, g2),
        PerfCounterMap::insertable_in(inserted(counters, g2), g1),
    ensures
        totals_named(inserted(inserted(counters, g1), g2), name) == totals_named(
            inserted(inserted(counters, g2), g1),
            name,
        ),
{
    lemma_inserted_named(counters, g1, name);
    lemma_inserted_named(counters, g2, name);
    lemma_inserted_named(inserted(counters, g1), g2, name);
    lemma_inserted_named(inserted(counters, g2), g1, name);
    lemma_inserted_named(counters, g1, g2.name@);
    lemma_inserted_named(counters, g2, g1.name@);
    lemma_inserted_named(counters, g1, g1.name@);
    lemma_inserted_named(counters, g2, g2.name@);
    let a = inserted(counters, g1);
    let b = inserted(counters, g2);
    if find_counter(a, g2.name@) is Some {
        let i = find_counter(a, g2.name@)->0;
        assert(a[i].name@ == g2.name@);
    }
    if find_counter(b, g1.name@) is Some {
        let i = find_counter(b, g1.name@)->0;
        assert(b[i].name@ == g1.name@);
    }
}

} // verus!
