//! What holds of the store and of synchronisation whatever is done with
//! them, stated over the values of stores and engines and proved.

use vstd::prelude::*;
use crate::codec::records::{decoding, encoding, lemma_round_trip, storable};
use crate::category::{
    lemma_ids_named_distinct, lemma_replaced, lemma_with_name, lemma_with_names, Category,
    CategoryView,
};
use crate::entity::{has_key, lemma_position, position};
use crate::error::Error;
use crate::merge::{
    lemma_merge_views_valid, lemma_merged_both_add, lemma_merged_both_change,
    lemma_merged_untouched, merge_views, merged,
};
use crate::store::{
    current_position, lemma_current_position, lemma_push_keeps_tasks,
    lemma_remove_keeps_keys_distinct, lemma_remove_keeps_tasks, lemma_update_keeps_keys_distinct,
    lemma_update_keeps_tasks, lemma_update_makes_current, single_current, StoreView,
};
use crate::sync::{Action, EngineView, Event, Outcome, Phase, SyncMode};
use crate::task::{Task, TaskView};
use crate::time::Timestamp;

verus! {

/// Something that can be done to a store, with everything that it would read
/// from the clock or draw at random.
pub enum Command {
    Start {
        project_name: Seq<char>,
        title: Seq<char>,
        tag_names: Seq<Seq<char>>,
        start: Timestamp,
        task_id: u128,
        project_fresh: u128,
        tag_fresh: Seq<u128>,
    },
    Stop { now: Timestamp },
    Pause { now: Timestamp },
    Resume { now: Timestamp },
    Continue { task_id: u128, now: Timestamp, new_id: u128 },
    Add {
        project_name: Seq<char>,
        title: Seq<char>,
        tag_names: Seq<Seq<char>>,
        start: Timestamp,
        finish: Timestamp,
        task_id: u128,
        project_fresh: u128,
        tag_fresh: Seq<u128>,
    },
    Remove { task_id: u128 },
    ReplaceTask { task: TaskView },
    ReplaceProject { project: CategoryView },
    ReplaceTag { tag: CategoryView },
    ReplaceTasks { tasks: Seq<TaskView> },
    ReplaceTags { tags: Seq<CategoryView> },
}

/// What the command is to do to the store.
pub open spec fn apply(s: StoreView, c: Command) -> Result<StoreView, Error> {
    match c {
        Command::Start {
            project_name,
            title,
            tag_names,
            start,
            task_id,
            project_fresh,
            tag_fresh,
        } => s.start(project_name, title, tag_names, start, task_id, project_fresh, tag_fresh),
        Command::Stop { now } => s.stop(now),
        Command::Pause { now } => s.pause(now),
        Command::Resume { now } => s.resume(now),
        Command::Continue { task_id, now, new_id } => s.continue_task(task_id, now, new_id),
        Command::Add {
            project_name,
            title,
            tag_names,
            start,
            finish,
            task_id,
            project_fresh,
            tag_fresh,
        } => s.add(project_name, title, tag_names, start, finish, task_id, project_fresh, tag_fresh),
        Command::Remove { task_id } => s.remove_task(task_id),
        Command::ReplaceTask { task } => s.replace_task(task),
        Command::ReplaceProject { project } => s.replace_project(project),
        Command::ReplaceTag { tag } => s.replace_tag(tag),
        Command::ReplaceTasks { tasks } => s.replace_tasks(tasks),
        Command::ReplaceTags { tags } => s.replace_tags(tags),
    }
}

/// The store after the command: changed as the command says, or as it was
/// where the command fails.
pub open spec fn after(s: StoreView, c: Command) -> StoreView {
    match apply(s, c) {
        Ok(next) => next,
        Err(_) => s,
    }
}

/// The store after the commands, one after the other.
pub open spec fn run(s: StoreView, commands: Seq<Command>) -> StoreView
    decreases commands.len(),
{
    if commands.len() == 0 {
        s
    } else {
        after(run(s, commands.drop_last()), commands.last())
    }
}

/// Entering a task that fits together, and that is not a second task being
/// tracked, keeps the rules of a store.
proof fn lemma_entered_keeps_rules(
    s: StoreView,
    task: TaskView,
    project_name: Seq<char>,
    tag_names: Seq<Seq<char>>,
    project_fresh: u128,
    tag_fresh: Seq<u128>,
)
    requires
        s.valid(),
        (TaskView { project_id: 0, tag_ids: Seq::empty(), ..task }).valid(),
        task.is_current() ==> !s.has_current(),
    ensures
        s.entered(task, project_name, tag_names, project_fresh, tag_fresh) matches Ok(next)
            ==> next.valid(),
{
    if let Ok(next) = s.entered(task, project_name, tag_names, project_fresh, tag_fresh) {
        lemma_with_name(s.projects, project_name, project_fresh);
        lemma_with_names(s.tags, tag_names, tag_fresh);
        lemma_ids_named_distinct(next.tags, tag_names);
        lemma_position::<Task>(s.tasks, task.id);
        lemma_current_position(s.tasks);
        lemma_push_keeps_tasks(s.tasks, next.tasks.last());
        assert(next.tasks =~= s.tasks.push(next.tasks.last()));
    }
}

/// Every command leaves a store that obeys the rules of a store in one that
/// obeys them: in particular, with at most one task being tracked.
pub proof fn lemma_command_keeps_rules(s: StoreView, c: Command)
    requires
        s.valid(),
    ensures
        after(s, c).valid(),
{
    lemma_current_position(s.tasks);
    let i = current_position(s.tasks);
    match c {
        Command::Start {
            project_name,
            title,
            tag_names,
            start,
            task_id,
            project_fresh,
            tag_fresh,
        } => {
            if !s.has_current() {
                lemma_entered_keeps_rules(
                    s,
                    crate::task::started_view(task_id, 0, title, Seq::empty(), start),
                    project_name,
                    tag_names,
                    project_fresh,
                    tag_fresh,
                );
            }
        },
        Command::Add {
            project_name,
            title,
            tag_names,
            start,
            finish,
            task_id,
            project_fresh,
            tag_fresh,
        } => {
            if finish.instant() >= start.instant() {
                lemma_entered_keeps_rules(
                    s,
                    crate::task::finished_view(task_id, 0, title, Seq::empty(), start, finish),
                    project_name,
                    tag_names,
                    project_fresh,
                    tag_fresh,
                );
            }
        },
        Command::Stop { now } => {
            if let Ok(next) = s.stop(now) {
                assert(s.tasks[i].valid());
                lemma_update_keeps_keys_distinct::<Task>(s.tasks, i, s.tasks[i].stopped(now));
                lemma_update_keeps_tasks(s.tasks, i, s.tasks[i].stopped(now));
            }
        },
        Command::Pause { now } => {
            if let Ok(next) = s.pause(now) {
                assert(s.tasks[i].valid());
                lemma_update_keeps_keys_distinct::<Task>(s.tasks, i, s.tasks[i].paused(now));
                lemma_update_keeps_tasks(s.tasks, i, s.tasks[i].paused(now));
            }
        },
        Command::Resume { now } => {
            if let Ok(next) = s.resume(now) {
                assert(s.tasks[i].valid());
                lemma_update_keeps_keys_distinct::<Task>(s.tasks, i, s.tasks[i].resumed(now));
                lemma_update_keeps_tasks(s.tasks, i, s.tasks[i].resumed(now));
            }
        },
        Command::Continue { task_id, now, new_id } => {
            if let Ok(next) = s.continue_task(task_id, now, new_id) {
                let p = position::<Task>(s.tasks, task_id);
                lemma_position::<Task>(s.tasks, task_id);
                lemma_position::<Task>(s.tasks, new_id);
                assert(s.tasks[p].valid());
                lemma_push_keeps_tasks(s.tasks, next.tasks.last());
            }
        },
        Command::Remove { task_id } => {
            if let Ok(next) = s.remove_task(task_id) {
                let p = position::<Task>(s.tasks, task_id);
                lemma_position::<Task>(s.tasks, task_id);
                lemma_remove_keeps_keys_distinct::<Task>(s.tasks, p);
                lemma_remove_keeps_tasks(s.tasks, p);
            }
        },
        Command::ReplaceTask { task } => {
            if let Ok(next) = s.replace_task(task) {
                let p = position::<Task>(s.tasks, task.id);
                lemma_position::<Task>(s.tasks, task.id);
                lemma_update_keeps_keys_distinct::<Task>(s.tasks, p, task);
                if task.is_current() && !s.tasks[p].is_current() {
                    lemma_update_makes_current(s.tasks, p, task);
                } else {
                    lemma_update_keeps_tasks(s.tasks, p, task);
                }
            }
        },
        Command::ReplaceProject { project } => {
            lemma_replaced(s.projects, project);
        },
        Command::ReplaceTag { tag } => {
            lemma_replaced(s.tags, tag);
        },
        Command::ReplaceTasks { tasks } => {},
        Command::ReplaceTags { tags } => {},
    }
}

/// Whatever is done to a store, one command after the other, at most one task
/// is being tracked at any time, and the other rules of a store hold too.
pub proof fn lemma_one_task_at_a_time(s: StoreView, commands: Seq<Command>)
    requires
        s.valid(),
    ensures
        run(s, commands).valid(),
        single_current(run(s, commands).tasks),
    decreases commands.len(),
{
    if commands.len() > 0 {
        lemma_one_task_at_a_time(s, commands.drop_last());
        lemma_command_keeps_rules(run(s, commands.drop_last()), commands.last());
    }
}

/// While a task is being tracked, none can be started: the attempt is a
/// conflict, whatever is to be started.
pub proof fn lemma_start_while_tracking(
    s: StoreView,
    project_name: Seq<char>,
    title: Seq<char>,
    tag_names: Seq<Seq<char>>,
    start: Timestamp,
    task_id: u128,
    project_fresh: u128,
    tag_fresh: Seq<u128>,
)
    requires
        s.has_current(),
    ensures
        s.start(project_name, title, tag_names, start, task_id, project_fresh, tag_fresh) == Err::<
            StoreView,
            Error,
        >(Error::Conflict),
{
}

/// Once a task has been started it is being tracked, so that a second start
/// is a conflict until it is stopped; once it has been stopped, none is
/// being tracked.
pub proof fn lemma_start_then_stop(s: StoreView, c: Command, now: Timestamp)
    requires
        s.valid(),
        c is Start,
        apply(s, c) is Ok,
    ensures
        after(s, c).has_current(),
        after(s, c).stop(now) matches Ok(end) ==> !end.has_current(),
{
    let next = after(s, c);
    lemma_command_keeps_rules(s, c);
    lemma_current_position(s.tasks);
    lemma_current_position(next.tasks);
    let n = s.tasks.len() as int;
    assert(next.tasks[n].is_current());
    assert(next.has_current()) by {
        if current_position(next.tasks) >= next.tasks.len() {
            assert(!next.tasks[n].is_current());
        }
    }
    if let Ok(end) = next.stop(now) {
        let i = current_position(next.tasks);
        lemma_current_position(end.tasks);
        if end.has_current() {
            let j = current_position(end.tasks);
            assert(end.tasks[j].is_current());
            if j != i {
                assert(end.tasks[j] == next.tasks[j]);
                assert(next.tasks[i].is_current() && next.tasks[j].is_current());
            }
        }
    }
}

/// A stop with no task being tracked finds nothing to stop.
pub proof fn lemma_stop_without_task(s: StoreView, now: Timestamp)
    requires
        !s.has_current(),
    ensures
        s.stop(now) == Err::<StoreView, Error>(Error::NotFound),
        after(s, Command::Stop { now }) == s,
{
}

/// A pause from `from` to `to` adds exactly the time between the two to the
/// task's accumulated pause, and so takes exactly that much off the time
/// worked, as measured at any moment; nothing else about the task or the
/// store changes.
pub proof fn lemma_pause_then_resume(s: StoreView, from: Timestamp, to: Timestamp, at: Timestamp)
    requires
        s.valid(),
        s.pause(from) is Ok,
        s.pause(from)->Ok_0.resume(to) is Ok,
    ensures
        ({
            let t = s.current_task();
            let end = s.pause(from)->Ok_0.resume(to)->Ok_0;
            let pause = to.instant() - from.instant();
            &&& end.current_task() == TaskView { paused_duration: t.paused_duration + pause, ..t }
            &&& end == s.with_task(current_position(s.tasks), end.current_task())
            &&& end.current_task().worked(at) == t.worked(at) - pause
        }),
{
    let i = current_position(s.tasks);
    let mid = s.pause(from)->Ok_0;
    let end = mid.resume(to)->Ok_0;
    lemma_current_position(s.tasks);
    assert(s.tasks[i].valid());
    lemma_current_stays(s.tasks, i, s.tasks[i].paused(from));
    assert(current_position(mid.tasks) == i);
    lemma_current_stays(mid.tasks, i, mid.tasks[i].resumed(to));
    assert(current_position(end.tasks) == i);
    assert(end.tasks =~= s.tasks.update(i, end.tasks[i]));
}

/// Replacing the task being tracked by one that is being tracked leaves it
/// the one being tracked.
proof fn lemma_current_stays(tasks: Seq<TaskView>, i: int, task: TaskView)
    requires
        0 <= i < tasks.len(),
        current_position(tasks) == i,
        task.is_current(),
    ensures
        current_position(tasks.update(i, task)) == i,
{
    lemma_current_position(tasks);
    let t = tasks.update(i, task);
    assert forall|j: int| 0 <= j < i implies !(#[trigger] t[j]).is_current() by {
        assert(t[j] == tasks[j]);
    }
    crate::store::lemma_current_position_at(t, i);
}

/// The accumulated pause of a task after the pauses, each from its first to
/// its second instant, one after the other.
pub open spec fn paused_after(paused: int, pauses: Seq<(Timestamp, Timestamp)>) -> int
    decreases pauses.len(),
{
    if pauses.len() == 0 {
        paused
    } else {
        paused_after(paused, pauses.drop_last()) + (pauses.last().1.instant()
            - pauses.last().0.instant())
    }
}

/// The store after the task being tracked has been paused and resumed once
/// for each of the pauses; none where one of the steps fails.
pub open spec fn after_pauses(s: StoreView, pauses: Seq<(Timestamp, Timestamp)>) -> Option<
    StoreView,
>
    decreases pauses.len(),
{
    if pauses.len() == 0 {
        Some(s)
    } else {
        match after_pauses(s, pauses.drop_last()) {
            Some(mid) => match mid.pause(pauses.last().0) {
                Ok(paused) => match paused.resume(pauses.last().1) {
                    Ok(end) => Some(end),
                    Err(_) => None,
                },
                Err(_) => None,
            },
            None => None,
        }
    }
}

/// Over any number of pauses the accumulated pause grows by exactly the sum
/// of their lengths, and nothing else about the task changes.
pub proof fn lemma_pauses_add_up(s: StoreView, pauses: Seq<(Timestamp, Timestamp)>)
    requires
        s.valid(),
        s.has_current(),
        after_pauses(s, pauses) is Some,
    ensures
        ({
            let t = s.current_task();
            let end = after_pauses(s, pauses)->0;
            &&& end.valid()
            &&& end.has_current()
            &&& current_position(end.tasks) == current_position(s.tasks)
            &&& end.current_task() == TaskView {
                paused_duration: paused_after(t.paused_duration, pauses),
                ..t
            }
        }),
    decreases pauses.len(),
{
    if pauses.len() > 0 {
        let init = pauses.drop_last();
        lemma_pauses_add_up(s, init);
        let mid = after_pauses(s, init)->0;
        let from = pauses.last().0;
        let to = pauses.last().1;
        lemma_pause_then_resume(mid, from, to, from);
        lemma_command_keeps_rules(mid, Command::Pause { now: from });
        lemma_command_keeps_rules(mid.pause(from)->Ok_0, Command::Resume { now: to });
        let end = after_pauses(s, pauses)->0;
        let i = current_position(mid.tasks);
        lemma_current_position(mid.tasks);
        lemma_current_stays(mid.tasks, i, end.tasks[i]);
    }
}

/// A store saved as text and restored from it is the store it was: the text
/// of a store that obeys the rules and that can be stored is read back as
/// exactly its records, whatever store they are restored into.
pub proof fn lemma_save_then_restore(s: StoreView, other: StoreView)
    requires
        s.valid(),
        storable(s),
    ensures
        decoding(encoding(s)) == Some(s),
        other.restore(encoding(s)) == Ok::<StoreView, Error>(s),
{
    lemma_round_trip(s);
}

/// Both sides add a task. The ancestor is a store on which both sides agree;
/// the local store is the ancestor with one more task, the remote snapshot
/// the ancestor with another one, and the two tasks do not both claim to be
/// the one being tracked. Then a merge runs through without a conflict: the
/// engine asks for the remote snapshot, merges, has the merge written to disk
/// and pushed, and in the end the store holds the ancestor's tasks and both
/// new ones, and that is what both sides agree on from then on.
pub proof fn lemma_sync_both_add(engine: EngineView, x: TaskView, y: TaskView)
    requires
        engine.configured,
        engine.phase is Idle,
        engine.ancestor.valid(),
        !has_key::<Task>(engine.ancestor.tasks, x.id),
        !has_key::<Task>(engine.ancestor.tasks, y.id),
        x.id != y.id,
        (StoreView { tasks: engine.ancestor.tasks.push(x), ..engine.ancestor }).valid(),
        (StoreView { tasks: engine.ancestor.tasks.push(y), ..engine.ancestor }).valid(),
        storable(StoreView { tasks: engine.ancestor.tasks.push(y), ..engine.ancestor }),
        single_current(engine.ancestor.tasks.push(x).push(y)),
        storable(StoreView { tasks: engine.ancestor.tasks.push(x).push(y), ..engine.ancestor }),
    ensures
        ({
            let local = StoreView { tasks: engine.ancestor.tasks.push(x), ..engine.ancestor };
            let remote = StoreView { tasks: engine.ancestor.tasks.push(y), ..engine.ancestor };
            let both = StoreView {
                tasks: engine.ancestor.tasks.push(x).push(y),
                ..engine.ancestor
            };
            let asked = engine.step(local, Event::Start(SyncMode::Merge, false));
            let merged = asked.engine.step(asked.store, Event::Fetched(encoding(remote)));
            let written = merged.engine.step(merged.store, Event::Persisted);
            let pushed = written.engine.step(written.store, Event::Pushed);
            &&& asked.action == Action::Fetch
            &&& merged.action == Action::Persist(encoding(both))
            &&& merged.store == local
            &&& written.action == Action::Push(encoding(both))
            &&& written.store == both
            &&& pushed == Outcome { engine: engine.agreed(both), store: both, action: Action::Done }
        }),
{
    let a = engine.ancestor;
    lemma_merged_both_add::<Task>(a.tasks, x, y);
    lemma_merged_untouched::<Category>(a.projects);
    lemma_merged_untouched::<Category>(a.tags);
    lemma_round_trip(StoreView { tasks: a.tasks.push(y), ..a });
}

/// Both sides rename a tag, and differently. The ancestor holds a tag; the
/// local store holds it under one new name, the remote snapshot under
/// another; everything else is as in the ancestor. Then the merge fails with
/// a conflict over that tag, and nothing has changed: not the store, not the
/// ancestor.
pub proof fn lemma_sync_both_rename(
    engine: EngineView,
    i: int,
    local_name: Seq<char>,
    remote_name: Seq<char>,
)
    requires
        engine.configured,
        engine.phase is Idle,
        engine.ancestor.valid(),
        0 <= i < engine.ancestor.tags.len(),
        local_name != remote_name,
        local_name != engine.ancestor.tags[i].name,
        remote_name != engine.ancestor.tags[i].name,
        (StoreView {
            tags: engine.ancestor.tags.update(
                i,
                CategoryView { id: engine.ancestor.tags[i].id, name: local_name },
            ),
            ..engine.ancestor
        }).valid(),
        (StoreView {
            tags: engine.ancestor.tags.update(
                i,
                CategoryView { id: engine.ancestor.tags[i].id, name: remote_name },
            ),
            ..engine.ancestor
        }).valid(),
        storable(
            StoreView {
                tags: engine.ancestor.tags.update(
                    i,
                    CategoryView { id: engine.ancestor.tags[i].id, name: remote_name },
                ),
                ..engine.ancestor
            },
        ),
    ensures
        ({
            let id = engine.ancestor.tags[i].id;
            let local = StoreView {
                tags: engine.ancestor.tags.update(i, CategoryView { id, name: local_name }),
                ..engine.ancestor
            };
            let remote = StoreView {
                tags: engine.ancestor.tags.update(i, CategoryView { id, name: remote_name }),
                ..engine.ancestor
            };
            let asked = engine.step(local, Event::Start(SyncMode::Merge, false));
            let merged = asked.engine.step(asked.store, Event::Fetched(encoding(remote)));
            &&& asked.action == Action::Fetch
            &&& merged == Outcome {
                engine,
                store: local,
                action: Action::Fail(Error::MergeConflict(id)),
            }
        }),
{
    let a = engine.ancestor;
    let id = a.tags[i].id;
    lemma_merged_untouched::<Task>(a.tasks);
    lemma_merged_untouched::<Category>(a.projects);
    lemma_merged_both_change::<Category>(
        a.tags,
        i,
        CategoryView { id, name: local_name },
        CategoryView { id, name: remote_name },
    );
    lemma_round_trip(
        StoreView { tags: a.tags.update(i, CategoryView { id, name: remote_name }), ..a },
    );
    assert(engine.idle() == engine);
}

/// A forced push hands over exactly the text of the local snapshot, and once
/// it has arrived both sides agree on that snapshot. A remote copy that
/// gives back on the next fetch exactly what was pushed to it then makes a
/// forced pull change nothing: the store and the ancestor stay what was
/// pushed.
pub proof fn lemma_push_force_then_fetch(engine: EngineView, store: StoreView, force: bool)
    requires
        engine.configured,
        engine.phase is Idle,
        engine.valid(),
        store.valid(),
        storable(store),
    ensures
        ({
            let asked = engine.step(store, Event::Start(SyncMode::PushForce, force));
            let pushed = asked.engine.step(asked.store, Event::Pushed);
            let again = pushed.engine.step(pushed.store, Event::Start(SyncMode::PullForce, true));
            let fetched = again.engine.step(again.store, Event::Fetched(encoding(store)));
            let written = fetched.engine.step(fetched.store, Event::Persisted);
            &&& asked.action == Action::Push(encoding(store))
            &&& pushed == Outcome { engine: engine.agreed(store), store, action: Action::Done }
            &&& again.action == Action::Fetch
            &&& fetched.action == Action::Persist(encoding(store))
            &&& written == pushed
        }),
{
    lemma_round_trip(store);
}

/// Every step of the engine leaves an engine and a store that obey the rules
/// in an engine and a store that obey them.
pub proof fn lemma_step_keeps_rules(engine: EngineView, store: StoreView, event: Event)
    requires
        engine.valid(),
        store.valid(),
    ensures
        engine.step(store, event).engine.valid(),
        engine.step(store, event).store.valid(),
{
    match (engine.phase, event) {
        (Phase::Fetching(mode), Event::Fetched(text)) => {
            match decoding(text) {
                Some(remote) => {
                    if remote.valid() {
                        lemma_merge_views_valid(engine.ancestor, store, remote);
                    }
                },
                None => {},
            }
        },
        _ => {},
    }
}

/// A merge that fails leaves everything as it was: the store, the ancestor,
/// and an idle engine.
pub proof fn lemma_failed_merge_changes_nothing(
    engine: EngineView,
    store: StoreView,
    remote: StoreView,
)
    requires
        engine.phase == Phase::Fetching(SyncMode::Merge),
        remote.valid(),
        storable(remote),
        merge_views(engine.ancestor, store, remote) is Err,
    ensures
        engine.step(store, Event::Fetched(encoding(remote))) == (Outcome {
            engine: engine.idle(),
            store,
            action: Action::Fail(merge_views(engine.ancestor, store, remote)->Err_0),
        }),
{
    lemma_round_trip(remote);
}

} // verus!
