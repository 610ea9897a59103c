//! Levels: chunks by their coordinates, a clock, and tasks that run by it.
use std::collections::HashMap;
use vstd::prelude::*;

use crate::nonzero::NonZeroU64;
use crate::num;
use crate::random;
use crate::world::chunk;
use crate::world::chunk::LevelChunk;

verus! {

/// When a task runs.
#[derive(Debug, Clone, Copy)]
pub enum TaskSchedule {
    /// On every tick.
    EveryTick,
    /// On every tick whose time is a multiple of the number.
    EveryN(NonZeroU64),
    /// On the tick at the given time.
    Once(u64),
}

/// What a task does.
pub trait TaskClosure: Sized {
    /// Whether a run may take the task and the level from the one state to the other. A task that
    /// says nothing of it may do anything.
    open spec fn effect(
        before: Self,
        level: LevelView<Self>,
        after: Self,
        level_after: LevelView<Self>,
    ) -> bool {
        true
    }

    fn run(&mut self, level: &mut Level<Self>)
        requires
            old(level).wf(),
        ensures
            final(level).wf(),
            Self::effect(*old(self), old(level)@, *final(self), final(level)@),
    ;
}

/// A task with its schedule.
pub type Task<T> = (T, TaskSchedule);

/// A world: its chunks, the tasks that run on its ticks, and the number of ticks so far.
pub struct Level<T> {
    tasks: Vec<Option<Task<T>>>,
    time: u64,
    chunks: HashMap<u64, LevelChunk>,
    seed: i64,
}

/// The contents of a level. A task that is running has no place in the list.
#[verifier::ext_equal]
pub struct LevelView<T> {
    pub tasks: Seq<Option<Task<T>>>,
    pub time: u64,
    pub chunks: Map<(i32, i32), chunk::ChunkView>,
    pub seed: i64,
}

/// The key under which the chunk at the given coordinates is kept.
spec fn chunk_key(x: i32, z: i32) -> u64 {
    (num::twos32(x as int) * 0x1_0000_0000 + num::twos32(z as int)) as u64
}

/// The chunks by their coordinates.
spec fn chunk_map(chunks: Map<u64, LevelChunk>) -> Map<(i32, i32), chunk::ChunkView> {
    Map::new(
        |k: (i32, i32)| chunks.contains_key(chunk_key(k.0, k.1)),
        |k: (i32, i32)| chunks[chunk_key(k.0, k.1)]@,
    )
}

#[verifier::spinoff_prover]
#[verifier::rlimit(30)]
proof fn lemma_chunk_map_insert(chunks: Map<u64, LevelChunk>, x: i32, z: i32, c: LevelChunk)
    ensures
        chunk_map(chunks.insert(chunk_key(x, z), c)) == chunk_map(chunks).insert((x, z), c@),
{
    assert(chunk_map(chunks.insert(chunk_key(x, z), c)) =~= chunk_map(chunks).insert((x, z), c@));
}

fn key_of(x: i32, z: i32) -> (r: u64)
    ensures
        r == chunk_key(x, z),
{
    num::i32_bits(x) as u64 * 0x1_0000_0000 + num::i32_bits(z) as u64
}

/// Whether a task runs on the tick at the given time.
pub open spec fn runs_now<T>(task: Option<Task<T>>, time: u64) -> bool {
    match task {
        Some((_, TaskSchedule::EveryTick)) => true,
        Some((_, TaskSchedule::EveryN(n))) => time as nat % n@ == 0,
        Some((_, TaskSchedule::Once(when))) => time == when,
        None => false,
    }
}

/// Whether the tick at the given time is the last that a task has a place in the list for: its
/// only time has come or is past.
pub open spec fn expires<T>(task: Option<Task<T>>, time: u64) -> bool {
    match task {
        Some((_, TaskSchedule::Once(when))) => time >= when,
        _ => false,
    }
}

/// The places of the tasks that run on the tick at the given time, in order.
pub open spec fn due<T>(tasks: Seq<Option<Task<T>>>, time: u64) -> Seq<int>
    decreases tasks.len(),
{
    if tasks.len() == 0 {
        Seq::empty()
    } else {
        let before = due(tasks.drop_last(), time);
        if runs_now(tasks.last(), time) {
            before.push(tasks.len() - 1)
        } else {
            before
        }
    }
}

/// The places of the tasks that expire with the tick at the given time, in order.
pub open spec fn expired<T>(tasks: Seq<Option<Task<T>>>, time: u64) -> Seq<int>
    decreases tasks.len(),
{
    if tasks.len() == 0 {
        Seq::empty()
    } else {
        let before = expired(tasks.drop_last(), time);
        if expires(tasks.last(), time) {
            before.push(tasks.len() - 1)
        } else {
            before
        }
    }
}

/// The tasks without those at the given places, which are in order.
pub open spec fn without<T>(tasks: Seq<Option<Task<T>>>, places: Seq<int>) -> Seq<Option<Task<T>>>
    decreases places.len(),
{
    if places.len() == 0 {
        tasks
    } else {
        without(tasks.remove(places.last()), places.drop_last())
    }
}

impl<T> LevelView<T> {
    /// The level with the place `i` of its list taken by `task`.
    pub open spec fn with_task(self, i: int, task: Option<Task<T>>) -> LevelView<T> {
        LevelView { tasks: self.tasks.update(i, task), ..self }
    }
}

impl<T: TaskClosure> LevelView<T> {
    /// Whether running the task at place `i` may lead to `out`. The task has no place in the list
    /// while it runs; afterwards it has its place again.
    pub open spec fn may_run(self, i: int, out: LevelView<T>) -> bool {
        &&& 0 <= i < self.tasks.len()
        &&& match self.tasks[i] {
            Some((task, schedule)) => exists|after: T, level: LevelView<T>|
                {
                    &&& #[trigger] T::effect(task, self.with_task(i, None), after, level)
                    &&& i < level.tasks.len()
                    &&& out == level.with_task(i, Some((after, schedule)))
                },
            None => out == self,
        }
    }

    /// Whether running the tasks at the given places, from the last to the first, may lead to
    /// `out`.
    pub open spec fn may_run_all(self, places: Seq<int>, out: LevelView<T>) -> bool
        decreases places.len(),
    {
        if places.len() == 0 {
            out == self
        } else {
            exists|next: LevelView<T>|
                #![trigger self.may_run(places.last(), next)]
                self.may_run(places.last(), next) && next.may_run_all(places.drop_last(), out)
        }
    }

    /// Whether the tasks at the given places, from the last to the first, find their places
    /// before and after they run, whatever they do.
    pub open spec fn keeps_places(self, places: Seq<int>) -> bool
        decreases places.len(),
    {
        if places.len() == 0 {
            true
        } else {
            let i = places.last();
            &&& 0 <= i < self.tasks.len()
            &&& match self.tasks[i] {
                Some((task, schedule)) => forall|after: T, level: LevelView<T>| #[trigger]
                    T::effect(task, self.with_task(i, None), after, level) ==> {
                        &&& i < level.tasks.len()
                        &&& level.with_task(i, Some((after, schedule))).keeps_places(
                            places.drop_last(),
                        )
                    },
                None => self.keeps_places(places.drop_last()),
            }
        }
    }

    /// Whether the tasks that expire are still there to be removed, and the clock can go on.
    pub open spec fn can_finish(self, places: Seq<int>) -> bool {
        &&& places.len() > 0 ==> places.last() < self.tasks.len()
        &&& self.time < u64::MAX
    }

    /// Whether a tick comes to its end, whatever the tasks do. It does unless a task takes away
    /// places in the list, as a tick within a tick can, or the clock is at its end.
    pub open spec fn can_tick(self) -> bool {
        &&& self.keeps_places(due(self.tasks, self.time))
        &&& forall|out: LevelView<T>| #[trigger]
            self.may_run_all(due(self.tasks, self.time), out) ==> out.can_finish(
                expired(self.tasks, self.time),
            )
    }

    /// Whether a tick may lead to `out`: the tasks that are due run, from the last to the first,
    /// those that expire are removed, and the clock advances.
    pub open spec fn may_tick(self, out: LevelView<T>) -> bool {
        exists|ran: LevelView<T>|
            {
                &&& #[trigger] self.may_run_all(due(self.tasks, self.time), ran)
                &&& out == (LevelView {
                    tasks: without(ran.tasks, expired(self.tasks, self.time)),
                    time: (ran.time + 1) as u64,
                    ..ran
                })
            }
    }
}

/// The places that are due or expire are on the list, in order.
pub proof fn lemma_places<T>(tasks: Seq<Option<Task<T>>>, time: u64)
    ensures
        forall|k: int|
            0 <= k < due(tasks, time).len() ==> 0 <= #[trigger] due(tasks, time)[k] < tasks.len(),
        forall|j: int, k: int|
            0 <= j < k < due(tasks, time).len() ==> #[trigger] due(tasks, time)[j]
                < #[trigger] due(tasks, time)[k],
        forall|k: int|
            0 <= k < expired(tasks, time).len() ==> 0 <= #[trigger] expired(tasks, time)[k]
                < tasks.len(),
        forall|j: int, k: int|
            0 <= j < k < expired(tasks, time).len() ==> #[trigger] expired(tasks, time)[j]
                < #[trigger] expired(tasks, time)[k],
    decreases tasks.len(),
{
    if tasks.len() > 0 {
        lemma_places(tasks.drop_last(), time);
        let (d, e) = (due(tasks, time), expired(tasks, time));
        let (b, c) = (due(tasks.drop_last(), time), expired(tasks.drop_last(), time));
        assert(d == b || d == b.push(tasks.len() - 1));
        assert(forall|k: int| 0 <= k < b.len() ==> d[k] == b[k]);
        assert(e == c || e == c.push(tasks.len() - 1));
        assert(forall|k: int| 0 <= k < c.len() ==> e[k] == c[k]);
    }
}

/// How many of the places are before `j`.
pub open spec fn places_before(places: Seq<int>, j: int) -> nat
    decreases places.len(),
{
    if places.len() == 0 {
        0
    } else {
        places_before(places.drop_last(), j) + if places.last() < j {
            1nat
        } else {
            0
        }
    }
}

/// Removing tasks keeps all others, in their order.
pub proof fn others_stay<T>(tasks: Seq<Option<Task<T>>>, places: Seq<int>, j: int)
    requires
        forall|k: int| 0 <= k < places.len() ==> 0 <= #[trigger] places[k] < tasks.len(),
        forall|k: int, l: int|
            0 <= k < l < places.len() ==> #[trigger] places[k] < #[trigger] places[l],
        0 <= j < tasks.len(),
        !places.contains(j),
    ensures
        without(tasks, places).len() == tasks.len() - places.len(),
        without(tasks, places)[j - places_before(places, j)] == tasks[j],
    decreases places.len(),
{
    if places.len() > 0 {
        let rest = places.drop_last();
        let p = places[places.len() - 1];
        assert forall|k: int| 0 <= k < rest.len() implies 0 <= #[trigger] rest[k] < p by {
            assert(rest[k] == places[k]);
        }
        if j < p {
            assert(!rest.contains(j)) by {
                if rest.contains(j) {
                    let k = rest.index_of(j);
                    assert(places[k] == j);
                }
            }
            others_stay(tasks.remove(p), rest, j);
        } else {
            assert(j != p) by {
                if j == p {
                    assert(places.contains(j));
                }
            }
            others_stay(tasks.remove(p), rest, j - 1);
            lemma_all_before(rest, j);
            lemma_all_before(rest, j - 1);
        }
    }
}

proof fn lemma_all_before(places: Seq<int>, j: int)
    requires
        forall|k: int| 0 <= k < places.len() ==> #[trigger] places[k] < j,
    ensures
        places_before(places, j) == places.len(),
    decreases places.len(),
{
    if places.len() > 0 {
        assert(places[places.len() - 1] < j);
        assert forall|k: int| 0 <= k < places.len() - 1 implies #[trigger] places.drop_last()[k]
            < j by {
            assert(places[k] < j);
        }
        lemma_all_before(places.drop_last(), j);
    }
}

/// A tick comes to its end as long as no task takes away places in the list or sets the clock, and
/// the clock is not at its end.
pub proof fn tick_ends<T: TaskClosure>(level: LevelView<T>)
    requires
        level.time < u64::MAX,
        forall|task: T, before: LevelView<T>, after: T, out: LevelView<T>| #[trigger]
            T::effect(task, before, after, out) ==> out.tasks.len() >= before.tasks.len()
                && out.time == before.time,
    ensures
        level.can_tick(),
{
    lemma_places(level.tasks, level.time);
    let places = due(level.tasks, level.time);
    lemma_keeps_places(level, places);
    assert forall|out: LevelView<T>| #[trigger] level.may_run_all(
        places,
        out,
    ) implies out.can_finish(expired(level.tasks, level.time)) by {
        lemma_run_all_keeps(level, places, out);
    }
}

proof fn lemma_keeps_places<T: TaskClosure>(level: LevelView<T>, places: Seq<int>)
    requires
        forall|task: T, before: LevelView<T>, after: T, out: LevelView<T>| #[trigger]
            T::effect(task, before, after, out) ==> out.tasks.len() >= before.tasks.len()
                && out.time == before.time,
        forall|k: int| 0 <= k < places.len() ==> 0 <= #[trigger] places[k] < level.tasks.len(),
    ensures
        level.keeps_places(places),
    decreases places.len(),
{
    if places.len() > 0 {
        let i = places.last();
        let rest = places.drop_last();
        assert(0 <= places[places.len() - 1] < level.tasks.len());
        match level.tasks[i] {
            Some((task, schedule)) => {
                assert forall|after: T, out: LevelView<T>| #[trigger]
                    T::effect(task, level.with_task(i, None), after, out) implies out.with_task(
                    i,
                    Some((after, schedule)),
                ).keeps_places(rest) by {
                    lemma_keeps_places(out.with_task(i, Some((after, schedule))), rest);
                }
            },
            None => {
                lemma_keeps_places(level, rest);
            },
        }
    }
}

proof fn lemma_run_all_keeps<T: TaskClosure>(
    level: LevelView<T>,
    places: Seq<int>,
    out: LevelView<T>,
)
    requires
        forall|task: T, before: LevelView<T>, after: T, out: LevelView<T>| #[trigger]
            T::effect(task, before, after, out) ==> out.tasks.len() >= before.tasks.len()
                && out.time == before.time,
        level.may_run_all(places, out),
    ensures
        out.tasks.len() >= level.tasks.len(),
        out.time == level.time,
    decreases places.len(),
{
    if places.len() > 0 {
        let next = choose|next: LevelView<T>|
            #![trigger level.may_run(places.last(), next)]
            level.may_run(places.last(), next) && next.may_run_all(places.drop_last(), out);
        lemma_run_all_keeps(next, places.drop_last(), out);
    }
}

/// A tick advances the clock by one, as long as no task sets it.
pub proof fn clock_advances<T: TaskClosure>(level: LevelView<T>, out: LevelView<T>)
    requires
        level.time < u64::MAX,
        forall|task: T, before: LevelView<T>, after: T, out: LevelView<T>| #[trigger]
            T::effect(task, before, after, out) ==> out.tasks.len() >= before.tasks.len()
                && out.time == before.time,
        level.may_tick(out),
    ensures
        out.time == level.time + 1,
{
    let places = due(level.tasks, level.time);
    let ran = choose|ran: LevelView<T>|
        {
            &&& #[trigger] level.may_run_all(places, ran)
            &&& out == (LevelView {
                tasks: without(ran.tasks, expired(level.tasks, level.time)),
                time: (ran.time + 1) as u64,
                ..ran
            })
        };
    lemma_run_all_keeps(level, places, ran);
}

/// On a tick on which no task is due and none expires, only the clock advances.
pub proof fn idle_tick<T: TaskClosure>(level: LevelView<T>, out: LevelView<T>)
    requires
        forall|i: int|
            0 <= i < level.tasks.len() ==> !runs_now(#[trigger] level.tasks[i], level.time)
                && !expires(level.tasks[i], level.time),
        level.may_tick(out),
    ensures
        out == (LevelView { time: (level.time + 1) as u64, ..level }),
{
    lemma_idle(level.tasks, level.time);
}

proof fn lemma_idle<T>(tasks: Seq<Option<Task<T>>>, time: u64)
    requires
        forall|i: int|
            0 <= i < tasks.len() ==> !runs_now(#[trigger] tasks[i], time) && !expires(
                tasks[i],
                time,
            ),
    ensures
        due(tasks, time).len() == 0,
        expired(tasks, time).len() == 0,
    decreases tasks.len(),
{
    if tasks.len() > 0 {
        lemma_idle(tasks.drop_last(), time);
    }
}

/// The places that are due are those of the tasks that run now, and the places that expire those
/// of the tasks that expire now.
pub proof fn due_and_expired<T>(tasks: Seq<Option<Task<T>>>, time: u64, i: int)
    requires
        0 <= i < tasks.len(),
    ensures
        due(tasks, time).contains(i) <==> runs_now(tasks[i], time),
        expired(tasks, time).contains(i) <==> expires(tasks[i], time),
    decreases tasks.len(),
{
    let rest = tasks.drop_last();
    let n = tasks.len() - 1;
    lemma_places(rest, time);
    let (d, e) = (due(rest, time), expired(rest, time));
    if runs_now(tasks.last(), time) {
        assert(d.push(n)[d.len() as int] == n);
    }
    if expires(tasks.last(), time) {
        assert(e.push(n)[e.len() as int] == n);
    }
    if i < n {
        due_and_expired(rest, time, i);
        if d.contains(i) {
            let k = d.index_of(i);
            assert(due(tasks, time)[k] == i);
        }
        if e.contains(i) {
            let k = e.index_of(i);
            assert(expired(tasks, time)[k] == i);
        }
    }
}

impl<T> View for Level<T> {
    type V = LevelView<T>;

    closed spec fn view(&self) -> LevelView<T> {
        LevelView {
            tasks: self.tasks@,
            time: self.time,
            chunks: chunk_map(self.chunks@),
            seed: self.seed,
        }
    }
}

impl<T> Level<T> {
    /// Every chunk of the level is sound.
    pub closed spec fn wf(&self) -> bool {
        forall|k: u64| self.chunks@.contains_key(k) ==> (#[trigger] self.chunks@[k]).wf()
    }

    /// Every chunk of a sound level is well formed.
    pub proof fn chunks_are_well_formed(&self, cell: (i32, i32))
        requires
            self.wf(),
            self@.chunks.contains_key(cell),
        ensures
            self@.chunks[cell].well_formed(),
    {
        self.chunks@[chunk_key(cell.0, cell.1)].lemma_well_formed();
    }

    /// A level without chunks and tasks, at time 0.
    pub fn with_seed(seed: i64) -> (r: Self)
        ensures
            r.wf(),
            r@ == (LevelView::<T> { tasks: Seq::empty(), time: 0, chunks: Map::empty(), seed }),
    {
        broadcast use vstd::std_specs::hash::group_hash_axioms;

        let r = Level { tasks: Vec::new(), time: 0, chunks: HashMap::new(), seed };
        assert(r@ =~= (LevelView::<T> {
            tasks: Seq::empty(),
            time: 0,
            chunks: Map::empty(),
            seed,
        }));
        r
    }

    /// A level without chunks and tasks, at time 0, with the given seed or else a random one.
    pub fn new(seed: Option<i64>) -> (r: Self)
        ensures
            r.wf(),
            r@.tasks == Seq::<Option<Task<T>>>::empty(),
            r@.time == 0,
            r@.chunks == Map::<(i32, i32), chunk::ChunkView>::empty(),
            seed matches Some(s) ==> r@.seed == s,
    {
        let seed: i64 = match seed {
            Some(seed) => seed,
            None => random::random_i64(),
        };
        Self::with_seed(seed)
    }

    /// Adds a task at the end of the list.
    pub fn register_task(&mut self, task: Task<T>)
        ensures
            old(self).wf() ==> final(self).wf(),
            final(self)@ == (LevelView { tasks: old(self)@.tasks.push(Some(task)), ..old(self)@ }),
    {
        self.tasks.push(Some(task));
    }

    /// Adds a task that runs on every tick.
    pub fn every_tick(&mut self, closure: T)
        ensures
            old(self).wf() ==> final(self).wf(),
            final(self)@ == (LevelView {
                tasks: old(self)@.tasks.push(Some((closure, TaskSchedule::EveryTick))),
                ..old(self)@
            }),
    {
        self.register_task((closure, TaskSchedule::EveryTick));
    }

    /// Adds a task that runs on every tick whose time is a multiple of `every`.
    pub fn every_n(&mut self, closure: T, every: NonZeroU64)
        ensures
            old(self).wf() ==> final(self).wf(),
            final(self)@ == (LevelView {
                tasks: old(self)@.tasks.push(Some((closure, TaskSchedule::EveryN(every)))),
                ..old(self)@
            }),
    {
        self.register_task((closure, TaskSchedule::EveryN(every)));
    }

    /// Adds a task that runs on the tick at time `when`.
    pub fn once(&mut self, closure: T, when: u64)
        ensures
            old(self).wf() ==> final(self).wf(),
            final(self)@ == (LevelView {
                tasks: old(self)@.tasks.push(Some((closure, TaskSchedule::Once(when)))),
                ..old(self)@
            }),
    {
        self.register_task((closure, TaskSchedule::Once(when)));
    }

    /// The chunk at the given chunk coordinates, if there is one.
    pub fn get_chunk(&self, x: i32, z: i32) -> (r: Option<&LevelChunk>)
        ensures
            match r {
                Some(c) => self@.chunks.contains_key((x, z)) && c@ == self@.chunks[(x, z)],
                None => !self@.chunks.contains_key((x, z)),
            },
            self.wf() && r is Some ==> r->0.wf(),
    {
        broadcast use vstd::std_specs::hash::group_hash_axioms;

        let r = self.chunks.get(&key_of(x, z));
        proof {
            if self.chunks@.contains_key(chunk_key(x, z)) {
                assert(self.chunks@[chunk_key(x, z)] == *r->0);
            }
        }
        r
    }

    /// The wire form of the chunk at the given chunk coordinates, if there is one.
    pub fn serialize(&self, x: i32, z: i32) -> (r: Option<Vec<u8>>)
        requires
            self.wf(),
        ensures
            match r {
                Some(out) => self@.chunks.contains_key((x, z)) && out@ == chunk::chunk_wire(
                    self@.chunks[(x, z)],
                    x,
                    z,
                ),
                None => !self@.chunks.contains_key((x, z)),
            },
    {
        match self.get_chunk(x, z) {
            Some(chunk) => Some(chunk.serialize(x, z)),
            None => None,
        }
    }

    /// The chunk at the given chunk coordinates, if there is one, to be changed in place.
    pub fn get_chunk_mut(&mut self, x: i32, z: i32) -> (r: Option<&mut LevelChunk>)
        ensures
            match r {
                Some(c) => {
                    &&& old(self)@.chunks.contains_key((x, z))
                    &&& c@ == old(self)@.chunks[(x, z)]
                    &&& old(self).wf() ==> c.wf()
                    &&& old(self).wf() && final(c).wf() ==> final(self).wf()
                    &&& final(self)@ == (LevelView {
                        chunks: old(self)@.chunks.insert((x, z), final(c)@),
                        ..old(self)@
                    })
                },
                None => {
                    &&& !old(self)@.chunks.contains_key((x, z))
                    &&& final(self)@ == old(self)@
                    &&& old(self).wf() ==> final(self).wf()
                },
            },
    {
        broadcast use vstd::std_specs::hash::group_hash_axioms;

        let ghost chunks = self.chunks@;
        proof {
            assert forall|c: LevelChunk|
                chunk_map(#[trigger] chunks.insert(chunk_key(x, z), c)) == chunk_map(chunks).insert(
                    (x, z),
                    c@,
                ) by {
                lemma_chunk_map_insert(chunks, x, z, c);
            }
        }
        match self.chunks.entry(key_of(x, z)) {
            std::collections::hash_map::Entry::Occupied(entry) => Some(entry.into_mut()),
            std::collections::hash_map::Entry::Vacant(_) => None,
        }
    }

    /// The chunk at the given chunk coordinates. If there is none yet, `generator` makes it from
    /// the coordinates and the seed.
    pub fn get_or_create_chunk<G: FnOnce(i32, i32, i64) -> LevelChunk>(
        &mut self,
        at: (i32, i32),
        generator: G,
    ) -> (r: &LevelChunk)
        requires
            old(self).wf(),
            !old(self)@.chunks.contains_key(at) ==> generator.requires(
                (at.0, at.1, old(self)@.seed),
            ),
            forall|c: LevelChunk| #[trigger]
                generator.ensures((at.0, at.1, old(self)@.seed), c) ==> c.wf(),
        ensures
            final(self).wf(),
            r.wf(),
            final(self)@.chunks.contains_key(at),
            r@ == final(self)@.chunks[at],
            if old(self)@.chunks.contains_key(at) {
                final(self)@ == old(self)@
            } else {
                exists|c: LevelChunk| #[trigger]
                    generator.ensures((at.0, at.1, old(self)@.seed), c) && final(self)@ == (
                    LevelView { chunks: old(self)@.chunks.insert(at, c@), ..old(self)@ })
            },
    {
        broadcast use vstd::std_specs::hash::group_hash_axioms;

        let (x, z) = at;
        let key: u64 = key_of(x, z);
        if !self.chunks.contains_key(&key) {
            let made = generator(x, z, self.seed);
            proof {
                lemma_chunk_map_insert(self.chunks@, x, z, made);
            }
            self.chunks.insert(key, made);
        }
        self.chunks.get(&key).unwrap()
    }
}

impl<T: TaskClosure> Level<T> {
    /// Runs the tasks that are due, from the last to the first, removes those whose only time has
    /// come or is past, and advances the clock.
    pub fn tick(&mut self)
        requires
            old(self).wf(),
            old(self)@.can_tick(),
        ensures
            final(self).wf(),
            old(self)@.may_tick(final(self)@),
    {
        let ghost start = self@;
        let mut for_deletion: Vec<usize> = Vec::new();
        let mut for_execution: Vec<usize> = Vec::new();
        for i in 0..self.tasks.len()
            invariant
                self@ == start,
                for_execution@.map_values(|p: usize| p as int) == due(
                    self.tasks@.take(i as int),
                    self.time,
                ),
                for_deletion@.map_values(|p: usize| p as int) == expired(
                    self.tasks@.take(i as int),
                    self.time,
                ),
        {
            let ghost executes = for_execution@;
            let ghost deletes = for_deletion@;
            assert(self.tasks@.take(i + 1).drop_last() == self.tasks@.take(i as int));
            if let Some(task) = &self.tasks[i] {
                match task.1 {
                    TaskSchedule::EveryTick => for_execution.push(i),
                    TaskSchedule::EveryN(n) => {
                        if self.time % n.get() == 0 {
                            for_execution.push(i);
                        }
                    },
                    TaskSchedule::Once(n) => {
                        if self.time == n {
                            for_execution.push(i);
                            for_deletion.push(i);
                        } else if self.time > n {
                            for_deletion.push(i);
                        }
                    },
                }
            }
            assert(executes.push(i).map_values(|p: usize| p as int) =~= executes.map_values(
                |p: usize| p as int,
            ).push(i as int));
            assert(deletes.push(i).map_values(|p: usize| p as int) =~= deletes.map_values(
                |p: usize| p as int,
            ).push(i as int));
        }
        assert(self.tasks@.take(self.tasks@.len() as int) == self.tasks@);
        let ghost places = due(start.tasks, start.time);
        let mut k: usize = for_execution.len();
        assert(places.take(k as int) == places);
        while k > 0
            invariant
                k <= places.len(),
                places.len() == for_execution@.len(),
                places == for_execution@.map_values(|p: usize| p as int),
                self.wf(),
                self@.keeps_places(places.take(k as int)),
                forall|out: LevelView<T>| #[trigger]
                    self@.may_run_all(places.take(k as int), out) ==> start.may_run_all(places, out),
            decreases k,
        {
            k -= 1;
            let i: usize = for_execution[k];
            let ghost before = self@;
            proof {
                assert(places.take(k + 1).last() == i as int);
                assert(places.take(k + 1).drop_last() == places.take(k as int));
            }
            let mut task: Option<Task<T>> = self.tasks[i].take();
            assert(self@ =~= before.with_task(i as int, None));
            assert(task == before.tasks[i as int]);
            if let Some(t) = &mut task {
                t.0.run(self);
            }
            let ghost level = self@;
            let ghost result = task;
            self.tasks[i] = task;
            proof {
                assert(self@ =~= level.with_task(i as int, result));
                match before.tasks[i as int] {
                    Some((task, schedule)) => {
                        let (after, _) = result->0;
                        assert(T::effect(task, before.with_task(i as int, None), after, level));
                        assert(result == Some((after, schedule)));
                    },
                    None => {
                        assert(self@ =~= before);
                    },
                }
            }
            proof {
                assert(before.may_run(i as int, self@));
                assert forall|out: LevelView<T>| #[trigger]
                    self@.may_run_all(places.take(k as int), out) implies start.may_run_all(
                    places,
                    out,
                ) by {
                    assert(before.may_run_all(places.take(k + 1), out));
                }
            }
        }
        proof {
            assert(places.take(0) == Seq::<int>::empty());
            assert(self@.may_run_all(places.take(0), self@));
        }
        let ghost ran = self@;
        let ghost gone = expired(start.tasks, start.time);
        let mut k: usize = for_deletion.len();
        proof {
            lemma_places(start.tasks, start.time);
            assert(gone.take(k as int) == gone);
        }
        while k > 0
            invariant
                k <= gone.len(),
                gone == for_deletion@.map_values(|p: usize| p as int),
                forall|j: int| 0 <= j < gone.len() ==> 0 <= #[trigger] gone[j],
                forall|j: int, l: int|
                    0 <= j < l < gone.len() ==> #[trigger] gone[j] < #[trigger] gone[l],
                k > 0 ==> gone[k - 1] < self.tasks@.len(),
                self.wf(),
                self@ == (LevelView { tasks: self.tasks@, ..ran }),
                without(self.tasks@, gone.take(k as int)) == without(ran.tasks, gone),
            decreases k,
        {
            k -= 1;
            proof {
                assert(gone.take(k + 1).last() == gone[k as int]);
                assert(gone.take(k + 1).drop_last() == gone.take(k as int));
                if k > 0 {
                    assert(gone[k - 1] < gone[k as int]);
                }
            }
            self.tasks.remove(for_deletion[k]);
        }
        self.time = self.time + 1;
    }
}

} // verus!

