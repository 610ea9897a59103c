//! Tasks: on which ticks they run, in which order, and how long they stay.
use vstd::prelude::*;

use crate::world::level;
use crate::world::level::{Task, TaskClosure, TaskSchedule};

verus! {

/// Whether `n` divides `t`.
pub open spec fn divides(n: nat, t: nat) -> bool {
    exists|k: nat| t == #[trigger] (k * n)
}

proof fn lemma_divides(n: nat, t: nat)
    requires
        n > 0,
    ensures
        divides(n, t) <==> t % n == 0,
{
    if t % n == 0 {
        vstd::arithmetic::div_mod::lemma_fundamental_div_mod(t as int, n as int);
        let k = t / n;
        assert(t == k * n) by (nonlinear_arith)
            requires
                t == n * k + 0,
        ;
    }
    if divides(n, t) {
        let k = choose|k: nat| t == #[trigger] (k * n);
        vstd::arithmetic::div_mod::lemma_mod_multiples_basic(k as int, n as int);
    }
}

/// A tick runs exactly these tasks: those of every tick, those of every `n` ticks if `n` divides
/// the time, and those of one time if it has come. It runs each of them once.
pub proof fn tasks_run_by_their_schedules<T>(tasks: Seq<Option<Task<T>>>, time: u64, i: int)
    requires
        0 <= i < tasks.len(),
        tasks[i] matches Some((_, TaskSchedule::EveryN(n))) ==> n@ > 0,
    ensures
        level::due(tasks, time).contains(i) <==> match tasks[i] {
            Some((_, TaskSchedule::EveryTick)) => true,
            Some((_, TaskSchedule::EveryN(n))) => divides(n@, time as nat),
            Some((_, TaskSchedule::Once(when))) => time == when,
            None => false,
        },
        level::due(tasks, time).no_duplicates(),
{
    level::due_and_expired(tasks, time, i);
    level::lemma_places(tasks, time);
    if let Some((_, TaskSchedule::EveryN(n))) = tasks[i] {
        lemma_divides(n@, time as nat);
    }
}

/// A task of every `n` ticks runs at every multiple of `n` and at no time between two of them.
pub proof fn periodic_tasks_keep_their_period<T>(
    tasks: Seq<Option<Task<T>>>,
    i: int,
    k: nat,
    between: nat,
    time: u64,
)
    requires
        0 <= i < tasks.len(),
        tasks[i] matches Some((_, TaskSchedule::EveryN(n))) && between < n@ && time == k * n@
            + between,
    ensures
        level::due(tasks, time).contains(i) <==> between == 0,
{
    if let Some((_, TaskSchedule::EveryN(n))) = tasks[i] {
        tasks_run_by_their_schedules(tasks, time, i);
        lemma_divides(n@, time as nat);
        vstd::arithmetic::div_mod::lemma_fundamental_div_mod_converse(
            time as int,
            n@ as int,
            k as int,
            between as int,
        );
    }
}

/// A tick takes exactly those tasks off the list whose one time has come or is past, each once.
pub proof fn tasks_of_one_time_expire<T>(tasks: Seq<Option<Task<T>>>, time: u64, i: int)
    requires
        0 <= i < tasks.len(),
    ensures
        level::expired(tasks, time).contains(i) <==> (tasks[i] matches Some(
            (_, TaskSchedule::Once(when)),
        ) && when <= time),
        level::expired(tasks, time).no_duplicates(),
{
    level::due_and_expired(tasks, time, i);
    level::lemma_places(tasks, time);
}

/// No place is run or freed that is not on the list, and the places are in the order of the list.
pub proof fn places_are_on_the_list<T>(tasks: Seq<Option<Task<T>>>, time: u64, p: int)
    ensures
        level::due(tasks, time).contains(p) ==> 0 <= p < tasks.len(),
        level::expired(tasks, time).contains(p) ==> 0 <= p < tasks.len(),
        forall|j: int, k: int|
            0 <= j < k < level::due(tasks, time).len() ==> #[trigger] level::due(tasks, time)[j]
                < #[trigger] level::due(tasks, time)[k],
        forall|j: int, k: int|
            0 <= j < k < level::expired(tasks, time).len() ==> #[trigger] level::expired(
                tasks,
                time,
            )[j] < #[trigger] level::expired(tasks, time)[k],
{
    level::lemma_places(tasks, time);
}

/// The places of a list that are not among those given, in order.
pub open spec fn places_left(n: nat, gone: Seq<int>) -> Seq<int> {
    Seq::new(n, |p: int| p).filter(|p: int| !gone.contains(p))
}

/// Freeing places leaves exactly the tasks at the others, in their order.
pub proof fn freed_places_leave_the_others<T>(tasks: Seq<Option<Task<T>>>, gone: Seq<int>)
    requires
        forall|k: int| 0 <= k < gone.len() ==> 0 <= #[trigger] gone[k] < tasks.len(),
        forall|j: int, k: int|
            0 <= j < k < gone.len() ==> #[trigger] gone[j] < #[trigger] gone[k],
    ensures
        level::without(tasks, gone) == places_left(tasks.len(), gone).map_values(
            |p: int| tasks[p],
        ),
    decreases tasks.len(),
{
    reveal(Seq::filter);
    let n = tasks.len();
    let all = Seq::new(n, |p: int| p);
    let kept = |p: int| !gone.contains(p);
    if n == 0 {
        if gone.len() > 0 {
            assert(0 <= gone[0] < n);
        }
        assert(level::without(tasks, gone) =~= places_left(n, gone).map_values(
            |p: int| tasks[p],
        ));
    } else {
        let fewer = tasks.drop_last();
        let m = (n - 1) as nat;
        let below = Seq::new(m, |p: int| p);
        assert(all.drop_last() =~= below);
        if gone.len() > 0 && gone.last() == n - 1 {
            let rest = gone.drop_last();
            assert forall|k: int| 0 <= k < rest.len() implies 0 <= #[trigger] rest[k] < m by {
                assert(gone[k] < gone[gone.len() - 1]);
            }
            freed_places_leave_the_others(fewer, rest);
            assert(tasks.remove(n - 1) =~= fewer);
            assert(gone =~= rest.push(n - 1));
            lemma_same_choice(below, gone, rest, n - 1);
            assert(gone.contains(n - 1)) by {
                assert(gone[gone.len() - 1] == n - 1);
            }
            assert(places_left(n, gone) =~= places_left(m, rest));
            lemma_choices_are_below(m, rest);
            assert(level::without(tasks, gone) =~= places_left(n, gone).map_values(
                |p: int| tasks[p],
            ));
        } else {
            assert forall|k: int| 0 <= k < gone.len() implies 0 <= #[trigger] gone[k] < m by {
                assert(gone[k] <= gone[gone.len() - 1]);
            }
            freed_places_leave_the_others(fewer, gone);
            lemma_without_last(fewer, gone, tasks.last());
            assert(fewer.push(tasks.last()) =~= tasks);
            assert(!gone.contains(n - 1));
            assert(places_left(n, gone) =~= places_left(m, gone).push(n - 1));
            lemma_choices_are_below(m, gone);
            assert(level::without(tasks, gone) =~= places_left(n, gone).map_values(
                |p: int| tasks[p],
            ));
        }
    }
}

proof fn lemma_choices_are_below(n: nat, gone: Seq<int>)
    ensures
        forall|k: int|
            0 <= k < places_left(n, gone).len() ==> 0 <= #[trigger] places_left(n, gone)[k] < n,
    decreases n,
{
    reveal(Seq::filter);
    if n > 0 {
        let m = (n - 1) as nat;
        assert(Seq::new(n, |p: int| p).drop_last() =~= Seq::new(m, |p: int| p));
        lemma_choices_are_below(m, gone);
        let before = places_left(m, gone);
        let after = places_left(n, gone);
        assert(after == before || after == before.push(n - 1));
        assert(forall|k: int| 0 <= k < before.len() ==> after[k] == before[k]);
    }
}

proof fn lemma_same_choice(places: Seq<int>, gone: Seq<int>, rest: Seq<int>, last: int)
    requires
        gone == rest.push(last),
        forall|k: int| 0 <= k < places.len() ==> #[trigger] places[k] != last,
    ensures
        places.filter(|p: int| !gone.contains(p)) == places.filter(|p: int| !rest.contains(p)),
    decreases places.len(),
{
    reveal(Seq::filter);
    if places.len() > 0 {
        lemma_same_choice(places.drop_last(), gone, rest, last);
        let p = places.last();
        if rest.contains(p) {
            assert(gone[rest.index_of(p)] == p);
        }
        if gone.contains(p) {
            let k = gone.index_of(p);
            assert(rest[k] == p);
        }
    }
}

proof fn lemma_without_last<T>(
    fewer: Seq<Option<Task<T>>>,
    gone: Seq<int>,
    last: Option<Task<T>>,
)
    requires
        forall|k: int| 0 <= k < gone.len() ==> 0 <= #[trigger] gone[k] < fewer.len(),
        forall|j: int, k: int|
            0 <= j < k < gone.len() ==> #[trigger] gone[j] < #[trigger] gone[k],
    ensures
        level::without(fewer.push(last), gone) == level::without(fewer, gone).push(last),
    decreases gone.len(),
{
    if gone.len() > 0 {
        let p = gone.last();
        let rest = gone.drop_last();
        assert(0 <= gone[gone.len() - 1] < fewer.len());
        assert forall|k: int| 0 <= k < rest.len() implies 0 <= #[trigger] rest[k]
            < fewer.remove(p).len() by {
            assert(gone[k] < gone[gone.len() - 1]);
        }
        assert(fewer.push(last).remove(p) =~= fewer.remove(p).push(last));
        lemma_without_last(fewer.remove(p), rest, last);
    }
}

/// Of the tasks that a tick runs the last on the list goes first.
pub proof fn later_tasks_run_first<T: TaskClosure>(
    level: level::LevelView<T>,
    earlier: Seq<int>,
    last: int,
    out: level::LevelView<T>,
)
    ensures
        level.may_run_all(earlier.push(last), out) <==> exists|next: level::LevelView<T>|
            #![trigger level.may_run(last, next)]
            level.may_run(last, next) && next.may_run_all(earlier, out),
        level.may_run_all(Seq::empty(), out) <==> out == level,
{
    let places = earlier.push(last);
    assert(places.drop_last() == earlier);
    assert(places.last() == last);
    if level.may_run_all(places, out) {
        let next = choose|next: level::LevelView<T>|
            #![trigger level.may_run(places.last(), next)]
            level.may_run(places.last(), next) && next.may_run_all(places.drop_last(), out);
        assert(level.may_run(last, next) && next.may_run_all(earlier, out));
    }
    if exists|next: level::LevelView<T>|
        #![trigger level.may_run(last, next)]
        level.may_run(last, next) && next.may_run_all(earlier, out) {
        let next = choose|next: level::LevelView<T>|
            #![trigger level.may_run(last, next)]
            level.may_run(last, next) && next.may_run_all(earlier, out);
        assert(level.may_run(places.last(), next) && next.may_run_all(places.drop_last(), out));
    }
}

/// A task that runs sees a level in which its place is empty. Afterwards it is in its place, as
/// the run left it, with the schedule that it had; all else is as the run left it.
pub proof fn running_tasks_keep_place_and_schedule<T: TaskClosure>(
    level: level::LevelView<T>,
    i: int,
    out: level::LevelView<T>,
)
    requires
        level.may_run(i, out),
    ensures
        0 <= i < level.tasks.len(),
        match level.tasks[i] {
            Some((task, schedule)) => exists|after: T, left: level::LevelView<T>|
                #![trigger T::effect(task, level.with_task(i, None), after, left)]
                {
                    let seen = level::LevelView { tasks: level.tasks.update(i, None), ..level };
                    &&& T::effect(task, seen, after, left)
                    &&& out.tasks == left.tasks.update(i, Some((after, schedule)))
                    &&& out.time == left.time
                    &&& out.chunks == left.chunks
                    &&& out.seed == left.seed
                },
            None => out == level,
        },
{
    if let Some((task, schedule)) = level.tasks[i] {
        let (after, left) = choose|after: T, left: level::LevelView<T>|
            {
                &&& #[trigger] T::effect(task, level.with_task(i, None), after, left)
                &&& i < left.tasks.len()
                &&& out == left.with_task(i, Some((after, schedule)))
            };
        let seen = level::LevelView { tasks: level.tasks.update(i, None), ..level };
        assert(seen == level.with_task(i, None));
    }
}

/// A tick is this: the tasks that are due run, the expired ones leave the list, and the clock goes
/// on by one. Chunks and seed are as the tasks left them.
pub proof fn ticks_run_then_remove<T: TaskClosure>(
    level: level::LevelView<T>,
    out: level::LevelView<T>,
)
    requires
        level.may_tick(out),
    ensures
        exists|ran: level::LevelView<T>|
            {
                &&& #[trigger] level.may_run_all(level::due(level.tasks, level.time), ran)
                &&& out.tasks == level::without(
                    ran.tasks,
                    level::expired(level.tasks, level.time),
                )
                &&& out.time == (ran.time + 1) as u64
                &&& out.chunks == ran.chunks
                &&& out.seed == ran.seed
            },
{
}

} // verus!
