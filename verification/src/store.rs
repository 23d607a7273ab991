//! The store: every task, project and tag, the rules that hold among them,
//! and the lifecycle of the task being tracked.

use vstd::prelude::*;
use crate::category::{
    collect_ids, ensure_all_named, ensure_named, find_named, id_named, ids_named,
    lemma_ids_named_distinct, lemma_with_name, lemma_with_names, lemma_replaced, lookup_named,
    named_among, names_are_distinct, names_distinct, replace_in, replaced, select_named, texts,
    with_name, with_names, Category, CategoryView,
};
use crate::entity::{
    copy_all, has_key, keys, keys_are_distinct, keys_distinct, lemma_position,
    lemma_push_keeps_keys_distinct, lookup, position, views, Entity,
};
use crate::error::Error;
use crate::ident::{find_candidates, fitting, random_id, resolution, resolve, resolved_as};
use crate::index::{find_by_index, index_of, lemma_index_push, lemma_index_update, Index};
use crate::task::{finished_view, started_view, Task, TaskState, TaskView};
use crate::time::{current_time, Timestamp};

verus! {

/// The classes of records that a store holds.
#[derive(Debug, Clone, Copy, PartialEq, Eq)]
pub enum EntityClass {
    Task,
    Project,
    Tag,
}

/// Every task fits together.
pub open spec fn all_valid(tasks: Seq<TaskView>) -> bool {
    forall|i: int| 0 <= i < tasks.len() ==> (#[trigger] tasks[i]).valid()
}

/// At most one task is being tracked.
pub open spec fn single_current(tasks: Seq<TaskView>) -> bool {
    forall|i: int, j: int|
        0 <= i < j < tasks.len() ==> !((#[trigger] tasks[i]).is_current() && (
        #[trigger] tasks[j]).is_current())
}

/// The first position of a task that is being tracked; the length of the
/// sequence if none is.
pub open spec fn current_position(tasks: Seq<TaskView>) -> int
    decreases tasks.len(),
{
    if tasks.len() == 0 {
        0
    } else if tasks[0].is_current() {
        0
    } else {
        1 + current_position(tasks.drop_first())
    }
}

/// Where `current_position` points: at the first task being tracked, or past
/// the end exactly when none is.
pub proof fn lemma_current_position(tasks: Seq<TaskView>)
    ensures
        0 <= current_position(tasks) <= tasks.len(),
        current_position(tasks) < tasks.len() ==> tasks[current_position(tasks)].is_current(),
        forall|j: int| 0 <= j < current_position(tasks) ==> !(#[trigger] tasks[j]).is_current(),
    decreases tasks.len(),
{
    if tasks.len() == 0 {
    } else if tasks[0].is_current() {
    } else {
        let t = tasks.drop_first();
        lemma_current_position(t);
        let p = current_position(t);
        assert forall|j: int| 0 <= j < 1 + p implies !(#[trigger] tasks[j]).is_current() by {
            if j > 0 {
                assert(tasks[j] == t[j - 1]);
            }
        }
        if p < t.len() {
            assert(tasks[1 + p] == t[p]);
        }
    }
}

/// The first position of a task being tracked is the one that
/// `current_position` names.
pub proof fn lemma_current_position_at(tasks: Seq<TaskView>, i: int)
    requires
        0 <= i <= tasks.len(),
        i < tasks.len() ==> tasks[i].is_current(),
        forall|j: int| 0 <= j < i ==> !(#[trigger] tasks[j]).is_current(),
    ensures
        current_position(tasks) == i,
{
    lemma_current_position(tasks);
    let p = current_position(tasks);
    if p < i {
        assert(!tasks[p].is_current());
    }
}

/// The value of a store, or of a snapshot of one: its tasks, projects and
/// tags, each in order.
pub struct StoreView {
    pub tasks: Seq<TaskView>,
    pub projects: Seq<CategoryView>,
    pub tags: Seq<CategoryView>,
}

impl StoreView {
    /// The rules of a store: within each class no identifier occurs twice;
    /// no two projects and no two tags share a name; every task fits
    /// together; and at most one task is being tracked.
    pub open spec fn valid(self) -> bool {
        &&& keys_distinct::<Task>(self.tasks)
        &&& keys_distinct::<Category>(self.projects)
        &&& keys_distinct::<Category>(self.tags)
        &&& names_distinct(self.projects)
        &&& names_distinct(self.tags)
        &&& all_valid(self.tasks)
        &&& single_current(self.tasks)
    }

    /// The store with nothing in it.
    pub open spec fn empty() -> StoreView {
        StoreView { tasks: Seq::empty(), projects: Seq::empty(), tags: Seq::empty() }
    }

    /// Whether a task is being tracked.
    pub open spec fn has_current(self) -> bool {
        current_position(self.tasks) < self.tasks.len()
    }

    /// The task being tracked, where there is one.
    pub open spec fn current_task(self) -> TaskView
        recommends
            self.has_current(),
    {
        self.tasks[current_position(self.tasks)]
    }

    /// The task being tracked, if any.
    pub open spec fn current(self) -> Option<TaskView> {
        if self.has_current() {
            Some(self.tasks[current_position(self.tasks)])
        } else {
            None
        }
    }

    /// The identifiers of one class of records, in order.
    pub open spec fn ids(self, class: EntityClass) -> Seq<u128> {
        match class {
            EntityClass::Task => keys::<Task>(self.tasks),
            EntityClass::Project => keys::<Category>(self.projects),
            EntityClass::Tag => keys::<Category>(self.tags),
        }
    }
}

/// How the result of an operation and the store after it follow from what
/// the operation is to do: where that is a new value of the store, the
/// operation succeeds and leaves the store at it; where it is an error, the
/// operation fails with that error and leaves the store as it was.
pub open spec fn follows<T>(
    r: Result<T, Error>,
    before: StoreView,
    after: StoreView,
    step: Result<StoreView, Error>,
) -> bool {
    match step {
        Ok(next) => r is Ok && after == next,
        Err(e) => r == Err::<T, Error>(e) && after == before,
    }
}

impl StoreView {
    /// The store with the task at position `i` replaced.
    pub open spec fn with_task(self, i: int, task: TaskView) -> StoreView {
        StoreView { tasks: self.tasks.update(i, task), ..self }
    }

    /// Stop: the task being tracked is finished at `now`. Without such a
    /// task there is nothing to stop; a task cannot stop before it started.
    pub open spec fn stop(self, now: Timestamp) -> Result<StoreView, Error> {
        let i = current_position(self.tasks);
        if !self.has_current() {
            Err(Error::NotFound)
        } else if now.instant() < self.tasks[i].interval.start_time.instant() {
            Err(Error::Validation)
        } else {
            Ok(self.with_task(i, self.tasks[i].stopped(now)))
        }
    }

    /// Pause: the task being tracked, which must be active, is set aside at
    /// `now`.
    pub open spec fn pause(self, now: Timestamp) -> Result<StoreView, Error> {
        let i = current_position(self.tasks);
        if !self.has_current() || self.tasks[i].state != TaskState::Active {
            Err(Error::InvalidState)
        } else {
            Ok(self.with_task(i, self.tasks[i].paused(now)))
        }
    }

    /// Resume: the task being tracked, which must be paused, is taken up
    /// again at `now`, and the time since the pause began is added to its
    /// accumulated pause. The sum must stay within bounds.
    pub open spec fn resume(self, now: Timestamp) -> Result<StoreView, Error> {
        let i = current_position(self.tasks);
        if !self.has_current() || self.tasks[i].state != TaskState::Paused {
            Err(Error::InvalidState)
        } else if !(-crate::task::MAX_PAUSED <= self.tasks[i].resumed(now).paused_duration
            <= crate::task::MAX_PAUSED) {
            Err(Error::Validation)
        } else {
            Ok(self.with_task(i, self.tasks[i].resumed(now)))
        }
    }

    /// The projects and tags once a project goes by `project_name` and a tag
    /// by each of `tag_names`, for a task to be filed under `task_id`. New
    /// projects and tags are filed under the identifiers offered for them.
    /// No identifier offered may be taken, and one must be offered per tag
    /// name.
    pub open spec fn filed(
        self,
        project_name: Seq<char>,
        tag_names: Seq<Seq<char>>,
        task_id: u128,
        project_fresh: u128,
        tag_fresh: Seq<u128>,
    ) -> Result<(Seq<CategoryView>, Seq<CategoryView>), Error> {
        if tag_fresh.len() != tag_names.len() || has_key::<Task>(self.tasks, task_id) {
            Err(Error::Validation)
        } else {
            match (
                with_name(self.projects, project_name, project_fresh),
                with_names(self.tags, tag_names, tag_fresh),
            ) {
                (Ok(projects), Ok(tags)) => Ok((projects, tags)),
                _ => Err(Error::Validation),
            }
        }
    }

    /// The store with one more task, for the project and under the tags of
    /// the given names, which are made where they are missing.
    pub open spec fn entered(
        self,
        task: TaskView,
        project_name: Seq<char>,
        tag_names: Seq<Seq<char>>,
        project_fresh: u128,
        tag_fresh: Seq<u128>,
    ) -> Result<StoreView, Error> {
        match self.filed(project_name, tag_names, task.id, project_fresh, tag_fresh) {
            Ok((projects, tags)) => Ok(
                StoreView {
                    tasks: self.tasks.push(
                        TaskView {
                            project_id: id_named(projects, project_name),
                            tag_ids: ids_named(tags, tag_names),
                            ..task
                        },
                    ),
                    projects,
                    tags,
                },
            ),
            Err(e) => Err(e),
        }
    }

    /// Start: a new task, active from `start`, unless a task is already
    /// being tracked.
    pub open spec fn start(
        self,
        project_name: Seq<char>,
        title: Seq<char>,
        tag_names: Seq<Seq<char>>,
        start: Timestamp,
        task_id: u128,
        project_fresh: u128,
        tag_fresh: Seq<u128>,
    ) -> Result<StoreView, Error> {
        if self.has_current() {
            Err(Error::Conflict)
        } else {
            self.entered(
                started_view(task_id, 0, title, Seq::empty(), start),
                project_name,
                tag_names,
                project_fresh,
                tag_fresh,
            )
        }
    }

    /// Add: a task that ran from `start` to `finish`, recorded after the
    /// fact, whether or not a task is being tracked. It cannot finish before
    /// it starts.
    pub open spec fn add(
        self,
        project_name: Seq<char>,
        title: Seq<char>,
        tag_names: Seq<Seq<char>>,
        start: Timestamp,
        finish: Timestamp,
        task_id: u128,
        project_fresh: u128,
        tag_fresh: Seq<u128>,
    ) -> Result<StoreView, Error> {
        if finish.instant() < start.instant() {
            Err(Error::Validation)
        } else {
            self.entered(
                finished_view(task_id, 0, title, Seq::empty(), start, finish),
                project_name,
                tag_names,
                project_fresh,
                tag_fresh,
            )
        }
    }

    /// Continue: a new task, active from `now`, with the project, title and
    /// tags of the task `task_id`, filed under `new_id`. No task may be
    /// tracked meanwhile, the task must exist and `new_id` must not be taken.
    pub open spec fn continue_task(self, task_id: u128, now: Timestamp, new_id: u128) -> Result<
        StoreView,
        Error,
    > {
        let i = position::<Task>(self.tasks, task_id);
        if self.has_current() {
            Err(Error::Conflict)
        } else if !(i < self.tasks.len()) {
            Err(Error::NotFound)
        } else if has_key::<Task>(self.tasks, new_id) {
            Err(Error::Validation)
        } else {
            Ok(
                StoreView {
                    tasks: self.tasks.push(
                        started_view(
                            new_id,
                            self.tasks[i].project_id,
                            self.tasks[i].title,
                            self.tasks[i].tag_ids,
                            now,
                        ),
                    ),
                    ..self
                },
            )
        }
    }

    /// Replace a task: the task filed under the identifier of `task` gives
    /// way to `task`, which must fit together and must not be a second task
    /// being tracked.
    pub open spec fn replace_task(self, task: TaskView) -> Result<StoreView, Error> {
        let i = position::<Task>(self.tasks, task.id);
        if !(i < self.tasks.len()) {
            Err(Error::NotFound)
        } else if !task.valid() {
            Err(Error::Validation)
        } else if task.is_current() && self.has_current() && current_position(self.tasks) != i {
            Err(Error::Conflict)
        } else {
            Ok(self.with_task(i, task))
        }
    }

    /// Replace a project: see `replaced`.
    pub open spec fn replace_project(self, project: CategoryView) -> Result<StoreView, Error> {
        match replaced(self.projects, project) {
            Ok(projects) => Ok(StoreView { projects, ..self }),
            Err(e) => Err(e),
        }
    }

    /// Replace a tag: see `replaced`. Tasks refer to a tag by its identifier,
    /// so every task under the tag sees its new name.
    pub open spec fn replace_tag(self, tag: CategoryView) -> Result<StoreView, Error> {
        match replaced(self.tags, tag) {
            Ok(tags) => Ok(StoreView { tags, ..self }),
            Err(e) => Err(e),
        }
    }

    /// Replace all tasks by the given ones, which must obey the rules of the
    /// tasks.
    pub open spec fn replace_tasks(self, tasks: Seq<TaskView>) -> Result<StoreView, Error> {
        if keys_distinct::<Task>(tasks) && all_valid(tasks) && single_current(tasks) {
            Ok(StoreView { tasks, ..self })
        } else {
            Err(Error::Validation)
        }
    }

    /// Replace all tags by the given ones, among which no identifier and no
    /// name may occur twice.
    pub open spec fn replace_tags(self, tags: Seq<CategoryView>) -> Result<StoreView, Error> {
        if keys_distinct::<Category>(tags) && names_distinct(tags) {
            Ok(StoreView { tags, ..self })
        } else {
            Err(Error::Validation)
        }
    }

    /// The identifier of the record of the class that goes by the name: of
    /// the project or the tag of that name, or of the first task of that
    /// title.
    pub open spec fn named(self, name: Seq<char>, class: EntityClass) -> Option<u128> {
        match class {
            EntityClass::Task => {
                let p = titled_position(self.tasks, name);
                if p < self.tasks.len() {
                    Some(self.tasks[p].id)
                } else {
                    None
                }
            },
            EntityClass::Project => match lookup_named(self.projects, name) {
                Some(c) => Some(c.id),
                None => None,
            },
            EntityClass::Tag => match lookup_named(self.tags, name) {
                Some(c) => Some(c.id),
                None => None,
            },
        }
    }

    /// The identifiers of all records: of the tasks, then of the projects,
    /// then of the tags.
    pub open spec fn all_ids(self) -> Seq<u128> {
        keys::<Task>(self.tasks) + keys::<Category>(self.projects) + keys::<Category>(self.tags)
    }

    /// Replace a task and name its tags: a tag is made for each name that
    /// none goes by yet, filed under the identifier offered for it; then the
    /// task, with the tags of the names, replaces the one filed under its
    /// identifier.
    pub open spec fn replace_task_named(
        self,
        task: TaskView,
        tag_names: Seq<Seq<char>>,
        tag_fresh: Seq<u128>,
    ) -> Result<StoreView, Error> {
        if tag_fresh.len() != tag_names.len() {
            Err(Error::Validation)
        } else {
            match with_names(self.tags, tag_names, tag_fresh) {
                Err(e) => Err(e),
                Ok(tags) => (StoreView { tags, ..self }).replace_task(
                    TaskView { tag_ids: ids_named(tags, tag_names), ..task },
                ),
            }
        }
    }

    /// Remove: the task with the identifier leaves the store.
    pub open spec fn remove_task(self, id: u128) -> Result<StoreView, Error> {
        let i = position::<Task>(self.tasks, id);
        if i < self.tasks.len() {
            Ok(StoreView { tasks: self.tasks.remove(i), ..self })
        } else {
            Err(Error::NotFound)
        }
    }
}

/// Replacing a task by one with the same identifier keeps identifiers
/// distinct.
pub proof fn lemma_update_keeps_keys_distinct<E: Entity>(s: Seq<E::V>, i: int, v: E::V)
    requires
        keys_distinct::<E>(s),
        0 <= i < s.len(),
        E::key(v) == E::key(s[i]),
    ensures
        keys_distinct::<E>(s.update(i, v)),
{
    let t = s.update(i, v);
    assert forall|a: int, b: int| 0 <= a < b < t.len() implies E::key(#[trigger] t[a]) != E::key(
        #[trigger] t[b],
    ) by {
        assert(E::key(t[a]) == E::key(s[a]));
        assert(E::key(t[b]) == E::key(s[b]));
    }
}

/// Taking a record out keeps identifiers distinct.
pub proof fn lemma_remove_keeps_keys_distinct<E: Entity>(s: Seq<E::V>, i: int)
    requires
        keys_distinct::<E>(s),
        0 <= i < s.len(),
    ensures
        keys_distinct::<E>(s.remove(i)),
{
    let t = s.remove(i);
    assert forall|a: int, b: int| 0 <= a < b < t.len() implies E::key(#[trigger] t[a]) != E::key(
        #[trigger] t[b],
    ) by {
        let a0 = if a < i { a } else { a + 1 };
        let b0 = if b < i { b } else { b + 1 };
        assert(t[a] == s[a0] && t[b] == s[b0]);
    }
}

/// Replacing the one task that is being tracked, or a task by one that is
/// not tracked, keeps the rules of the tasks.
pub proof fn lemma_update_keeps_tasks(tasks: Seq<TaskView>, i: int, task: TaskView)
    requires
        all_valid(tasks),
        single_current(tasks),
        0 <= i < tasks.len(),
        task.valid(),
        tasks[i].is_current() || !task.is_current(),
    ensures
        all_valid(tasks.update(i, task)),
        single_current(tasks.update(i, task)),
{
    let t = tasks.update(i, task);
    assert forall|a: int| 0 <= a < t.len() implies (#[trigger] t[a]).valid() by {
        if a != i {
            assert(t[a] == tasks[a]);
        }
    }
    assert forall|a: int, b: int| 0 <= a < b < t.len() implies !((#[trigger] t[a]).is_current() && (
    #[trigger] t[b]).is_current()) by {
        if a != i && b != i {
            assert(t[a] == tasks[a] && t[b] == tasks[b]);
        } else if a == i {
            assert(t[b] == tasks[b]);
            if task.is_current() {
                assert(tasks[a].is_current());
            }
        } else {
            assert(t[a] == tasks[a]);
            if task.is_current() {
                assert(tasks[b].is_current());
            }
        }
    }
}

/// Where no task is being tracked but possibly the one at `i`, replacing that
/// one by a task that is being tracked keeps the rules of the tasks.
pub proof fn lemma_update_makes_current(tasks: Seq<TaskView>, i: int, task: TaskView)
    requires
        all_valid(tasks),
        single_current(tasks),
        0 <= i < tasks.len(),
        task.valid(),
        current_position(tasks) == tasks.len() || current_position(tasks) == i,
    ensures
        all_valid(tasks.update(i, task)),
        single_current(tasks.update(i, task)),
{
    let t = tasks.update(i, task);
    lemma_current_position(tasks);
    assert forall|a: int| 0 <= a < t.len() implies (#[trigger] t[a]).valid() by {
        if a != i {
            assert(t[a] == tasks[a]);
        }
    }
    assert forall|a: int| 0 <= a < tasks.len() && a != i implies !(#[trigger] tasks[a]).is_current() by {
        if tasks[a].is_current() {
            let p = current_position(tasks);
            if p == i {
                assert(tasks[p].is_current());
                if a < p {
                } else {
                    assert(!(tasks[p].is_current() && tasks[a].is_current()));
                }
            }
        }
    }
    assert forall|a: int, b: int| 0 <= a < b < t.len() implies !((#[trigger] t[a]).is_current() && (
    #[trigger] t[b]).is_current()) by {
        if a != i {
            assert(t[a] == tasks[a]);
        }
        if b != i {
            assert(t[b] == tasks[b]);
        }
    }
}

/// Taking a task out keeps the rules of the tasks.
pub proof fn lemma_remove_keeps_tasks(tasks: Seq<TaskView>, i: int)
    requires
        all_valid(tasks),
        single_current(tasks),
        0 <= i < tasks.len(),
    ensures
        all_valid(tasks.remove(i)),
        single_current(tasks.remove(i)),
{
    let t = tasks.remove(i);
    assert forall|a: int| 0 <= a < t.len() implies (#[trigger] t[a]).valid() by {
        let a0 = if a < i { a } else { a + 1 };
        assert(t[a] == tasks[a0]);
    }
    assert forall|a: int, b: int| 0 <= a < b < t.len() implies !((#[trigger] t[a]).is_current() && (
    #[trigger] t[b]).is_current()) by {
        let a0 = if a < i { a } else { a + 1 };
        let b0 = if b < i { b } else { b + 1 };
        assert(t[a] == tasks[a0] && t[b] == tasks[b0]);
    }
}

/// Putting a task at the end keeps the rules of the tasks, provided that it
/// fits together, its identifier is not taken, and it is not a second task
/// being tracked.
pub proof fn lemma_push_keeps_tasks(tasks: Seq<TaskView>, task: TaskView)
    requires
        keys_distinct::<Task>(tasks),
        all_valid(tasks),
        single_current(tasks),
        task.valid(),
        !has_key::<Task>(tasks, task.id),
        task.is_current() ==> current_position(tasks) == tasks.len(),
    ensures
        keys_distinct::<Task>(tasks.push(task)),
        all_valid(tasks.push(task)),
        single_current(tasks.push(task)),
{
    let t = tasks.push(task);
    lemma_push_keeps_keys_distinct::<Task>(tasks, task);
    lemma_current_position(tasks);
    assert forall|a: int| 0 <= a < t.len() implies (#[trigger] t[a]).valid() by {
        if a < tasks.len() {
            assert(t[a] == tasks[a]);
        }
    }
    assert forall|a: int, b: int| 0 <= a < b < t.len() implies !((#[trigger] t[a]).is_current() && (
    #[trigger] t[b]).is_current()) by {
        assert(t[a] == tasks[a]);
        if b < tasks.len() {
            assert(t[b] == tasks[b]);
        } else if task.is_current() {
            assert(!tasks[a].is_current());
        }
    }
}

/// The first position of a task with the title; the length of the sequence
/// if there is none.
pub open spec fn titled_position(tasks: Seq<TaskView>, title: Seq<char>) -> int
    decreases tasks.len(),
{
    if tasks.len() == 0 {
        0
    } else if tasks[0].title == title {
        0
    } else {
        1 + titled_position(tasks.drop_first(), title)
    }
}

/// Where `titled_position` points: at the first task with the title, or past
/// the end exactly when there is none.
pub proof fn lemma_titled_position(tasks: Seq<TaskView>, title: Seq<char>)
    ensures
        0 <= titled_position(tasks, title) <= tasks.len(),
        titled_position(tasks, title) < tasks.len() ==> tasks[titled_position(tasks, title)].title
            == title,
        forall|j: int| 0 <= j < titled_position(tasks, title) ==> (#[trigger] tasks[j]).title != title,
    decreases tasks.len(),
{
    if tasks.len() == 0 {
    } else if tasks[0].title == title {
    } else {
        let t = tasks.drop_first();
        lemma_titled_position(t, title);
        let p = titled_position(t, title);
        assert forall|j: int| 0 <= j < 1 + p implies (#[trigger] tasks[j]).title != title by {
            if j > 0 {
                assert(tasks[j] == t[j - 1]);
            }
        }
        if p < t.len() {
            assert(tasks[1 + p] == t[p]);
        }
    }
}

/// The first position of a task with the title is the one that
/// `titled_position` names.
pub proof fn lemma_titled_position_at(tasks: Seq<TaskView>, title: Seq<char>, i: int)
    requires
        0 <= i <= tasks.len(),
        i < tasks.len() ==> tasks[i].title == title,
        forall|j: int| 0 <= j < i ==> (#[trigger] tasks[j]).title != title,
    ensures
        titled_position(tasks, title) == i,
{
    lemma_titled_position(tasks, title);
    let p = titled_position(tasks, title);
    if p < i {
        assert(tasks[p].title != title);
    }
}

/// Finds the first task that is being tracked.
pub fn find_current(tasks: &Vec<Task>) -> (r: Option<usize>)
    ensures
        match r {
            Some(i) => i == current_position(views(tasks@)) && i < tasks.len(),
            None => current_position(views(tasks@)) == tasks.len(),
        },
{
    let mut i: usize = 0;
    while i < tasks.len()
        invariant
            0 <= i <= tasks.len(),
            forall|j: int| 0 <= j < i ==> !(#[trigger] views(tasks@)[j]).is_current(),
        decreases tasks.len() - i,
    {
        if tasks[i].is_current() {
            proof {
                lemma_current_position_at(views(tasks@), i as int);
            }
            return Some(i);
        }
        i += 1;
    }
    proof {
        lemma_current_position_at(views(tasks@), tasks.len() as int);
    }
    None
}

/// Whether every task fits together.
pub fn tasks_all_valid(tasks: &Vec<Task>) -> (r: bool)
    ensures
        r == all_valid(views(tasks@)),
{
    let mut i: usize = 0;
    while i < tasks.len()
        invariant
            0 <= i <= tasks.len(),
            forall|j: int| 0 <= j < i ==> (#[trigger] views(tasks@)[j]).valid(),
        decreases tasks.len() - i,
    {
        if !tasks[i].is_valid() {
            assert(!views(tasks@)[i as int].valid());
            return false;
        }
        i += 1;
    }
    true
}

/// Whether at most one task is being tracked.
pub fn tasks_single_current(tasks: &Vec<Task>) -> (r: bool)
    ensures
        r == single_current(views(tasks@)),
{
    let ghost s = views(tasks@);
    let mut seen: bool = false;
    let mut i: usize = 0;
    while i < tasks.len()
        invariant
            0 <= i <= tasks.len(),
            s == views(tasks@),
            seen == (exists|j: int| 0 <= j < i && (#[trigger] s[j]).is_current()),
            forall|a: int, b: int|
                0 <= a < b < i ==> !((#[trigger] s[a]).is_current() && (#[trigger] s[b]).is_current()),
        decreases tasks.len() - i,
    {
        let ghost before = seen;
        if tasks[i].is_current() {
            if seen {
                let ghost j = choose|j: int| 0 <= j < i && (#[trigger] s[j]).is_current();
                assert(s[j].is_current() && s[i as int].is_current());
                return false;
            }
            seen = true;
        }
        proof {
            if seen {
                if before {
                    let j = choose|j: int| 0 <= j < i && (#[trigger] s[j]).is_current();
                    assert(0 <= j < i + 1 && s[j].is_current());
                } else {
                    assert(0 <= i < i + 1 && s[i as int].is_current());
                }
            } else {
                assert forall|j: int| 0 <= j < i + 1 implies !(#[trigger] s[j]).is_current() by {
                    if j < i {
                        assert(!before);
                    }
                }
            }
        }
        i += 1;
    }
    true
}

/// A copy of a store's records at one moment, or records that claim to be
/// one: whether they obey the rules of a store is for `is_valid` to say.
#[derive(Debug, Clone, PartialEq, Eq)]
pub struct Snapshot {
    pub tasks: Vec<Task>,
    pub projects: Vec<Category>,
    pub tags: Vec<Category>,
}

impl View for Snapshot {
    type V = StoreView;

    open spec fn view(&self) -> StoreView {
        StoreView {
            tasks: views(self.tasks@),
            projects: views(self.projects@),
            tags: views(self.tags@),
        }
    }
}

impl Snapshot {
    /// The snapshot of a store with nothing in it.
    pub fn new() -> (r: Snapshot)
        ensures
            r@ == StoreView::empty(),
    {
        let r = Snapshot { tasks: Vec::new(), projects: Vec::new(), tags: Vec::new() };
        assert(r@.tasks =~= Seq::empty() && r@.projects =~= Seq::empty() && r@.tags
            =~= Seq::empty());
        r
    }

    /// Whether the records obey the rules of a store.
    pub fn is_valid(&self) -> (r: bool)
        ensures
            r == self@.valid(),
    {
        keys_are_distinct(&self.tasks) && keys_are_distinct(&self.projects) && keys_are_distinct(
            &self.tags,
        ) && names_are_distinct(&self.projects) && names_are_distinct(&self.tags)
            && tasks_all_valid(&self.tasks) && tasks_single_current(&self.tasks)
    }

    /// A copy with the same value.
    pub fn duplicate(&self) -> (r: Snapshot)
        ensures
            r@ == self@,
    {
        Snapshot {
            tasks: copy_all(&self.tasks),
            projects: copy_all(&self.projects),
            tags: copy_all(&self.tags),
        }
    }

    /// Whether the two snapshots hold the same records in the same order.
    pub fn same(&self, other: &Snapshot) -> (r: bool)
        ensures
            r == (self@ == other@),
    {
        crate::entity::same_all(&self.tasks, &other.tasks) && crate::entity::same_all(
            &self.projects,
            &other.projects,
        ) && crate::entity::same_all(&self.tags, &other.tags)
    }
}

/// The store. It owns every record and keeps the rules of `StoreView::valid`,
/// and for each class of records an index, which it keeps in step with the
/// records whatever is done to them.
#[derive(Debug, Clone, PartialEq, Eq)]
pub struct Store {
    tasks: Vec<Task>,
    projects: Vec<Category>,
    tags: Vec<Category>,
    task_index: Index,
    project_index: Index,
    tag_index: Index,
}

impl View for Store {
    type V = StoreView;

    closed spec fn view(&self) -> StoreView {
        StoreView {
            tasks: views(self.tasks@),
            projects: views(self.projects@),
            tags: views(self.tags@),
        }
    }
}

impl Store {
    /// Each index is the index of its records: it holds every record that is
    /// there, at its position, and none that is not.
    pub closed spec fn indexed(&self) -> bool {
        &&& self.task_index@ == index_of::<Task>(views(self.tasks@))
        &&& self.project_index@ == index_of::<Category>(views(self.projects@))
        &&& self.tag_index@ == index_of::<Category>(views(self.tags@))
    }

    /// The store obeys its rules, and its indexes are in step with its
    /// records. Every store that this library hands out is so.
    pub open spec fn wf(&self) -> bool {
        self@.valid() && self.indexed()
    }

    /// The store of the records, with their indexes.
    fn of(tasks: Vec<Task>, projects: Vec<Category>, tags: Vec<Category>) -> (r: Store)
        ensures
            r.indexed(),
            r@ == (StoreView {
                tasks: views(tasks@),
                projects: views(projects@),
                tags: views(tags@),
            }),
    {
        let task_index = Index::build(&tasks);
        let project_index = Index::build(&projects);
        let tag_index = Index::build(&tags);
        Store { tasks, projects, tags, task_index, project_index, tag_index }
    }

    /// A store with nothing in it.
    pub fn new() -> (r: Store)
        ensures
            r.wf(),
            r@ == StoreView::empty(),
    {
        let r = Store::of(Vec::new(), Vec::new(), Vec::new());
        assert(r@.tasks =~= Seq::empty() && r@.projects =~= Seq::empty() && r@.tags
            =~= Seq::empty());
        r
    }

    /// The position of the task filed under the identifier, found through
    /// the index.
    fn task_position(&self, id: u128) -> (r: Option<usize>)
        requires
            self.indexed(),
        ensures
            match r {
                Some(i) => i == position::<Task>(self@.tasks, id) && i < self@.tasks.len()
                    && self@.tasks[i as int].id == id,
                None => position::<Task>(self@.tasks, id) == self@.tasks.len() && !has_key::<Task>(
                    self@.tasks,
                    id,
                ),
            },
    {
        find_by_index(&self.task_index, &self.tasks, id)
    }

    /// The position of the project filed under the identifier, found through
    /// the index.
    fn project_position(&self, id: u128) -> (r: Option<usize>)
        requires
            self.indexed(),
        ensures
            match r {
                Some(i) => i == position::<Category>(self@.projects, id) && i
                    < self@.projects.len() && self@.projects[i as int].id == id,
                None => position::<Category>(self@.projects, id) == self@.projects.len()
                    && !has_key::<Category>(self@.projects, id),
            },
    {
        find_by_index(&self.project_index, &self.projects, id)
    }

    /// The position of the tag filed under the identifier, found through the
    /// index.
    fn tag_position(&self, id: u128) -> (r: Option<usize>)
        requires
            self.indexed(),
        ensures
            match r {
                Some(i) => i == position::<Category>(self@.tags, id) && i < self@.tags.len()
                    && self@.tags[i as int].id == id,
                None => position::<Category>(self@.tags, id) == self@.tags.len() && !has_key::<
                    Category,
                >(self@.tags, id),
            },
    {
        find_by_index(&self.tag_index, &self.tags, id)
    }

    /// A copy of the store's records as they are now.
    pub fn snapshot(&self) -> (r: Snapshot)
        ensures
            r@ == self@,
    {
        Snapshot {
            tasks: copy_all(&self.tasks),
            projects: copy_all(&self.projects),
            tags: copy_all(&self.tags),
        }
    }

    /// Replaces the store's records by those of the snapshot, all at once,
    /// provided that they obey the rules of a store. If they do not, the
    /// snapshot is corrupted and the store stays as it was.
    pub fn load(&mut self, snapshot: Snapshot) -> (r: Result<(), Error>)
        requires
            old(self).wf(),
        ensures
            final(self).wf(),
            snapshot@.valid() ==> r is Ok && final(self)@ == snapshot@,
            !snapshot@.valid() ==> r == Err::<(), Error>(Error::Corruption) && final(self)@ == old(
                self,
            )@,
    {
        if snapshot.is_valid() {
            *self = Store::of(snapshot.tasks, snapshot.projects, snapshot.tags);
            Ok(())
        } else {
            Err(Error::Corruption)
        }
    }

    /// The store that holds the snapshot's records, if they obey the rules.
    pub fn from_snapshot(snapshot: Snapshot) -> (r: Result<Store, Error>)
        ensures
            match r {
                Ok(store) => snapshot@.valid() && store.wf() && store@ == snapshot@,
                Err(e) => !snapshot@.valid() && e == Error::Corruption,
            },
    {
        if snapshot.is_valid() {
            Ok(Store::of(snapshot.tasks, snapshot.projects, snapshot.tags))
        } else {
            Err(Error::Corruption)
        }
    }

    /// Puts `task` at position `i` of the tasks, in place of a task filed
    /// under the same identifier.
    fn put_task(&mut self, i: usize, task: Task)
        requires
            old(self).indexed(),
            i < old(self)@.tasks.len(),
            task@.id == old(self)@.tasks[i as int].id,
        ensures
            final(self).indexed(),
            final(self)@ == old(self)@.with_task(i as int, task@),
    {
        proof {
            lemma_index_update::<Task>(self@.tasks, i as int, task@);
        }
        self.tasks[i] = task;
        assert(views(self.tasks@) =~= views(old(self).tasks@).update(i as int, task@));
    }

    /// Puts `task` at the end of the tasks, under an identifier that is not
    /// taken.
    fn push_task(&mut self, task: Task)
        requires
            old(self).indexed(),
            !has_key::<Task>(old(self)@.tasks, task@.id),
        ensures
            final(self).indexed(),
            final(self)@ == (StoreView { tasks: old(self)@.tasks.push(task@), ..old(self)@ }),
    {
        let ghost v = task@;
        let id = task.id();
        let at = self.tasks.len();
        self.tasks.push(task);
        assert(views(self.tasks@) =~= views(old(self).tasks@).push(v));
        assert(self.tasks.len() == at + 1);
        proof {
            lemma_index_push::<Task>(old(self)@.tasks, v);
        }
        self.task_index.note(id, at);
    }

    /// The task being tracked, if any.
    pub fn active_task(&self) -> (r: Option<Task>)
        ensures
            match r {
                Some(task) => self@.current() == Some(task@),
                None => self@.current() is None,
            },
    {
        match find_current(&self.tasks) {
            Some(i) => Some(self.tasks[i].duplicate()),
            None => None,
        }
    }

    /// Stop at the given instant: see `StoreView::stop`. Returns the
    /// finished task.
    pub fn stop_at(&mut self, now: Timestamp) -> (r: Result<Task, Error>)
        requires
            old(self).wf(),
        ensures
            final(self).wf(),
            follows(r, old(self)@, final(self)@, old(self)@.stop(now)),
            r matches Ok(task) ==> task@ == old(self)@.current_task().stopped(now),
    {
        match find_current(&self.tasks) {
            None => Err(Error::NotFound),
            Some(i) => {
                let start = self.tasks[i].interval().start_time;
                if now.timestamp_millis() < start.timestamp_millis() {
                    return Err(Error::Validation);
                }
                let task = self.tasks[i].stopped_at(now);
                let done = task.duplicate();
                proof {
                    let before = old(self)@;
                    assert(before.tasks[i as int].valid());
                    lemma_update_keeps_keys_distinct::<Task>(before.tasks, i as int, task@);
                    lemma_update_keeps_tasks(before.tasks, i as int, task@);
                }
                self.put_task(i, task);
                Ok(done)
            },
        }
    }

    /// Pause at the given instant: see `StoreView::pause`. Returns the
    /// paused task.
    pub fn pause_at(&mut self, now: Timestamp) -> (r: Result<Task, Error>)
        requires
            old(self).wf(),
        ensures
            final(self).wf(),
            follows(r, old(self)@, final(self)@, old(self)@.pause(now)),
            r matches Ok(task) ==> task@ == old(self)@.current_task().paused(now),
    {
        match find_current(&self.tasks) {
            None => Err(Error::InvalidState),
            Some(i) => {
                if self.tasks[i].state() != TaskState::Active {
                    return Err(Error::InvalidState);
                }
                let task = self.tasks[i].paused_at(now);
                let done = task.duplicate();
                proof {
                    let before = old(self)@;
                    assert(before.tasks[i as int].valid());
                    lemma_update_keeps_keys_distinct::<Task>(before.tasks, i as int, task@);
                    lemma_update_keeps_tasks(before.tasks, i as int, task@);
                }
                self.put_task(i, task);
                Ok(done)
            },
        }
    }

    /// Resume at the given instant: see `StoreView::resume`. Returns the
    /// resumed task.
    pub fn resume_at(&mut self, now: Timestamp) -> (r: Result<Task, Error>)
        requires
            old(self).wf(),
        ensures
            final(self).wf(),
            follows(r, old(self)@, final(self)@, old(self)@.resume(now)),
            r matches Ok(task) ==> task@ == old(self)@.current_task().resumed(now),
    {
        match find_current(&self.tasks) {
            None => Err(Error::InvalidState),
            Some(i) => {
                if self.tasks[i].state() != TaskState::Paused {
                    return Err(Error::InvalidState);
                }
                assert(old(self)@.tasks[i as int].valid());
                match self.tasks[i].resumed_at(now) {
                    None => Err(Error::Validation),
                    Some(task) => {
                        let done = task.duplicate();
                        proof {
                            let before = old(self)@;
                            lemma_update_keeps_keys_distinct::<Task>(before.tasks, i as int, task@);
                            lemma_update_keeps_tasks(before.tasks, i as int, task@);
                        }
                        self.put_task(i, task);
                        Ok(done)
                    },
                }
            },
        }
    }

    /// Stops the task being tracked, now.
    pub fn stop(&mut self) -> (r: Result<Task, Error>)
        requires
            old(self).wf(),
        ensures
            final(self).wf(),
            exists|now: Timestamp|
                follows(r, old(self)@, final(self)@, #[trigger] old(self)@.stop(now)) && (r matches Ok(
                    task,
                ) ==> task@ == old(self)@.current_task().stopped(now)),
    {
        let now = crate::time::current_time();
        self.stop_at(now)
    }

    /// Pauses the task being tracked, now.
    pub fn pause(&mut self) -> (r: Result<Task, Error>)
        requires
            old(self).wf(),
        ensures
            final(self).wf(),
            exists|now: Timestamp|
                follows(r, old(self)@, final(self)@, #[trigger] old(self)@.pause(now)) && (r matches Ok(
                    task,
                ) ==> task@ == old(self)@.current_task().paused(now)),
    {
        let now = crate::time::current_time();
        self.pause_at(now)
    }

    /// Resumes the task being tracked, now.
    pub fn resume(&mut self) -> (r: Result<Task, Error>)
        requires
            old(self).wf(),
        ensures
            final(self).wf(),
            exists|now: Timestamp|
                follows(r, old(self)@, final(self)@, #[trigger] old(self)@.resume(now)) && (r matches Ok(
                    task,
                ) ==> task@ == old(self)@.current_task().resumed(now)),
    {
        let now = crate::time::current_time();
        self.resume_at(now)
    }

    /// Remove: see `StoreView::remove_task`. Returns the task that left.
    pub fn remove_task(&mut self, task_id: u128) -> (r: Result<Task, Error>)
        requires
            old(self).wf(),
        ensures
            final(self).wf(),
            follows(r, old(self)@, final(self)@, old(self)@.remove_task(task_id)),
            r matches Ok(task) ==> Some(task@) == lookup::<Task>(old(self)@.tasks, task_id),
    {
        match self.task_position(task_id) {
            None => Err(Error::NotFound),
            Some(i) => {
                proof {
                    let before = old(self)@;
                    lemma_remove_keeps_keys_distinct::<Task>(before.tasks, i as int);
                    lemma_remove_keeps_tasks(before.tasks, i as int);
                }
                let task = self.tasks.remove(i);
                assert(views(self.tasks@) =~= views(old(self).tasks@).remove(i as int));
                self.task_index = Index::build(&self.tasks);
                Ok(task)
            },
        }
    }

    /// Makes sure of the project and the tags for a new task: see
    /// `StoreView::filed`. Returns the projects and tags as they are to be,
    /// with the identifier of the project and those of the tags.
    fn file(
        &self,
        project_name: &str,
        tag_names: &Vec<String>,
        task_id: u128,
        project_fresh: u128,
        tag_fresh: &Vec<u128>,
    ) -> (r: Result<(Vec<Category>, Vec<Category>, u128, Vec<u128>), Error>)
        requires
            self.wf(),
        ensures
            match self@.filed(project_name@, texts(tag_names@), task_id, project_fresh, tag_fresh@) {
                Ok((projects, tags)) => r matches Ok((p, t, project_id, tag_ids)) && {
                    &&& views(p@) == projects
                    &&& views(t@) == tags
                    &&& project_id == id_named(projects, project_name@)
                    &&& tag_ids@ == ids_named(tags, texts(tag_names@))
                    &&& keys_distinct::<Category>(projects)
                    &&& keys_distinct::<Category>(tags)
                    &&& names_distinct(projects)
                    &&& names_distinct(tags)
                },
                Err(e) => r == Err::<(Vec<Category>, Vec<Category>, u128, Vec<u128>), Error>(e),
            },
    {
        proof {
            lemma_position::<Task>(self@.tasks, task_id);
            lemma_with_name(self@.projects, project_name@, project_fresh);
            lemma_with_names(self@.tags, texts(tag_names@), tag_fresh@);
        }
        if tag_fresh.len() != tag_names.len() {
            return Err(Error::Validation);
        }
        if self.task_position(task_id).is_some() {
            return Err(Error::Validation);
        }
        let mut projects = copy_all(&self.projects);
        let mut tags = copy_all(&self.tags);
        let project_id = match ensure_named(&mut projects, project_name, project_fresh) {
            Ok(id) => id,
            Err(_) => {
                return Err(Error::Validation);
            },
        };
        match ensure_all_named(&mut tags, tag_names, tag_fresh) {
            Ok(()) => {},
            Err(_) => {
                return Err(Error::Validation);
            },
        }
        match collect_ids(&tags, tag_names) {
            Some(tag_ids) => Ok((projects, tags, project_id, tag_ids)),
            None => Err(Error::Validation),
        }
    }

    /// Start with everything given that `start` would read from the clock or
    /// draw at random: see `StoreView::start`. Returns the new task.
    pub fn start_with(
        &mut self,
        project_name: &str,
        title: &str,
        tag_names: &Vec<String>,
        start: Timestamp,
        task_id: u128,
        project_fresh: u128,
        tag_fresh: &Vec<u128>,
    ) -> (r: Result<Task, Error>)
        requires
            old(self).wf(),
        ensures
            final(self).wf(),
            follows(
                r,
                old(self)@,
                final(self)@,
                old(self)@.start(
                    project_name@,
                    title@,
                    texts(tag_names@),
                    start,
                    task_id,
                    project_fresh,
                    tag_fresh@,
                ),
            ),
            r matches Ok(task) ==> task@ == final(self)@.tasks.last(),
    {
        if find_current(&self.tasks).is_some() {
            return Err(Error::Conflict);
        }
        match self.file(project_name, tag_names, task_id, project_fresh, tag_fresh) {
            Err(e) => Err(e),
            Ok((projects, tags, project_id, tag_ids)) => {
                proof {
                    lemma_ids_named_distinct(views(tags@), texts(tag_names@));
                    lemma_position::<Task>(self@.tasks, task_id);
                }
                let task = Task::started(task_id, project_id, title, tag_ids, start);
                let done = task.duplicate();
                proof {
                    lemma_push_keeps_tasks(self@.tasks, task@);
                }
                self.project_index = Index::build(&projects);
                self.tag_index = Index::build(&tags);
                self.projects = projects;
                self.tags = tags;
                self.push_task(task);
                Ok(done)
            },
        }
    }

    /// Add with everything given that `add` would draw at random: see
    /// `StoreView::add`. Returns the new task.
    pub fn add_with(
        &mut self,
        project_name: &str,
        title: &str,
        tag_names: &Vec<String>,
        start: Timestamp,
        finish: Timestamp,
        task_id: u128,
        project_fresh: u128,
        tag_fresh: &Vec<u128>,
    ) -> (r: Result<Task, Error>)
        requires
            old(self).wf(),
        ensures
            final(self).wf(),
            follows(
                r,
                old(self)@,
                final(self)@,
                old(self)@.add(
                    project_name@,
                    title@,
                    texts(tag_names@),
                    start,
                    finish,
                    task_id,
                    project_fresh,
                    tag_fresh@,
                ),
            ),
            r matches Ok(task) ==> task@ == final(self)@.tasks.last(),
    {
        if finish.timestamp_millis() < start.timestamp_millis() {
            return Err(Error::Validation);
        }
        match self.file(project_name, tag_names, task_id, project_fresh, tag_fresh) {
            Err(e) => Err(e),
            Ok((projects, tags, project_id, tag_ids)) => {
                proof {
                    lemma_ids_named_distinct(views(tags@), texts(tag_names@));
                    lemma_position::<Task>(self@.tasks, task_id);
                }
                let task = Task::finished(task_id, project_id, title, tag_ids, start, finish);
                let done = task.duplicate();
                proof {
                    lemma_push_keeps_tasks(self@.tasks, task@);
                }
                self.project_index = Index::build(&projects);
                self.tag_index = Index::build(&tags);
                self.projects = projects;
                self.tags = tags;
                self.push_task(task);
                Ok(done)
            },
        }
    }

    /// Continue with everything given that `continue_task` would read from
    /// the clock or draw at random: see `StoreView::continue_task`. Returns
    /// the new task.
    pub fn continue_task_with(&mut self, task_id: u128, now: Timestamp, new_id: u128) -> (r: Result<
        Task,
        Error,
    >)
        requires
            old(self).wf(),
        ensures
            final(self).wf(),
            follows(r, old(self)@, final(self)@, old(self)@.continue_task(task_id, now, new_id)),
            r matches Ok(task) ==> task@ == final(self)@.tasks.last(),
    {
        proof {
            lemma_position::<Task>(self@.tasks, new_id);
        }
        if find_current(&self.tasks).is_some() {
            return Err(Error::Conflict);
        }
        match self.task_position(task_id) {
            None => Err(Error::NotFound),
            Some(i) => {
                if self.task_position(new_id).is_some() {
                    return Err(Error::Validation);
                }
                assert(self@.tasks[i as int].valid());
                let task = Task::started(
                    new_id,
                    self.tasks[i].project_id(),
                    self.tasks[i].title(),
                    crate::task::copy_ids(self.tasks[i].tag_ids()),
                    now,
                );
                let done = task.duplicate();
                proof {
                    lemma_push_keeps_tasks(self@.tasks, task@);
                }
                self.push_task(task);
                Ok(done)
            },
        }
    }

    /// Starts a task now, or at `start_time` where one is given, for the
    /// project and under the tags of the given names. Identifiers for what
    /// is new are drawn at random.
    pub fn start(
        &mut self,
        project_name: &str,
        title: &str,
        tags: Vec<String>,
        start_time: Option<Timestamp>,
    ) -> (r: Result<Task, Error>)
        requires
            old(self).wf(),
        ensures
            final(self).wf(),
            exists|at: Timestamp, task_id: u128, project_fresh: u128, tag_fresh: Seq<u128>|
                (start_time matches Some(t) ==> at == t) && tag_fresh.len() == tags.len() && follows(
                    r,
                    old(self)@,
                    final(self)@,
                    #[trigger] old(self)@.start(
                        project_name@,
                        title@,
                        texts(tags@),
                        at,
                        task_id,
                        project_fresh,
                        tag_fresh,
                    ),
                ),
            r matches Ok(task) ==> task@ == final(self)@.tasks.last(),
    {
        let at = match start_time {
            Some(t) => t,
            None => current_time(),
        };
        let task_id = random_id();
        let project_fresh = random_id();
        let tag_fresh = draw_ids(tags.len());
        self.start_with(project_name, title, &tags, at, task_id, project_fresh, &tag_fresh)
    }

    /// Records a task that ran from `start_time` to `finish_time`, for the
    /// project and under the tags of the given names. Identifiers for what
    /// is new are drawn at random.
    pub fn add(
        &mut self,
        project_name: &str,
        title: &str,
        tags: Vec<String>,
        start_time: Timestamp,
        finish_time: Timestamp,
    ) -> (r: Result<Task, Error>)
        requires
            old(self).wf(),
        ensures
            final(self).wf(),
            exists|task_id: u128, project_fresh: u128, tag_fresh: Seq<u128>|
                tag_fresh.len() == tags.len() && follows(
                    r,
                    old(self)@,
                    final(self)@,
                    #[trigger] old(self)@.add(
                        project_name@,
                        title@,
                        texts(tags@),
                        start_time,
                        finish_time,
                        task_id,
                        project_fresh,
                        tag_fresh,
                    ),
                ),
            r matches Ok(task) ==> task@ == final(self)@.tasks.last(),
    {
        let task_id = random_id();
        let project_fresh = random_id();
        let tag_fresh = draw_ids(tags.len());
        self.add_with(
            project_name,
            title,
            &tags,
            start_time,
            finish_time,
            task_id,
            project_fresh,
            &tag_fresh,
        )
    }

    /// Starts, now, a new task like the one with the identifier.
    pub fn continue_task(&mut self, task_id: u128) -> (r: Result<Task, Error>)
        requires
            old(self).wf(),
        ensures
            final(self).wf(),
            exists|now: Timestamp, new_id: u128|
                follows(
                    r,
                    old(self)@,
                    final(self)@,
                    #[trigger] old(self)@.continue_task(task_id, now, new_id),
                ),
            r matches Ok(task) ==> task@ == final(self)@.tasks.last(),
    {
        let now = current_time();
        let new_id = random_id();
        self.continue_task_with(task_id, now, new_id)
    }

    /// Replace a task: see `StoreView::replace_task`. Returns the task that
    /// was there.
    pub fn replace_task(&mut self, task: &Task) -> (r: Result<Task, Error>)
        requires
            old(self).wf(),
        ensures
            final(self).wf(),
            follows(r, old(self)@, final(self)@, old(self)@.replace_task(task@)),
            r matches Ok(was) ==> Some(was@) == lookup::<Task>(old(self)@.tasks, task@.id),
    {
        match self.task_position(task.id()) {
            None => Err(Error::NotFound),
            Some(i) => {
                if !task.is_valid() {
                    return Err(Error::Validation);
                }
                if task.is_current() {
                    match find_current(&self.tasks) {
                        Some(j) => {
                            if j != i {
                                return Err(Error::Conflict);
                            }
                        },
                        None => {},
                    }
                }
                proof {
                    let before = old(self)@;
                    lemma_current_position(before.tasks);
                    lemma_update_keeps_keys_distinct::<Task>(before.tasks, i as int, task@);
                    if task@.is_current() && !before.tasks[i as int].is_current() {
                        lemma_update_makes_current(before.tasks, i as int, task@);
                    } else {
                        lemma_update_keeps_tasks(before.tasks, i as int, task@);
                    }
                }
                let was = self.tasks[i].duplicate();
                self.put_task(i, task.duplicate());
                Ok(was)
            },
        }
    }

    /// Replace a project: see `StoreView::replace_project`. Returns the
    /// project that was there.
    pub fn replace_project(&mut self, project: &Category) -> (r: Result<Category, Error>)
        requires
            old(self).wf(),
        ensures
            final(self).wf(),
            follows(r, old(self)@, final(self)@, old(self)@.replace_project(project@)),
            r matches Ok(was) ==> Some(was@) == lookup::<Category>(
                old(self)@.projects,
                project@.id,
            ),
    {
        proof {
            lemma_replaced(self@.projects, project@);
            lemma_position::<Category>(self@.projects, project@.id);
            if replaced(self@.projects, project@) is Ok {
                lemma_index_update::<Category>(
                    self@.projects,
                    position::<Category>(self@.projects, project@.id),
                    project@,
                );
            }
        }
        replace_in(&mut self.projects, project)
    }

    /// Replace a tag: see `StoreView::replace_tag`. Returns the tag that was
    /// there.
    pub fn replace_tag(&mut self, tag: &Category) -> (r: Result<Category, Error>)
        requires
            old(self).wf(),
        ensures
            final(self).wf(),
            follows(r, old(self)@, final(self)@, old(self)@.replace_tag(tag@)),
            r matches Ok(was) ==> Some(was@) == lookup::<Category>(old(self)@.tags, tag@.id),
    {
        proof {
            lemma_replaced(self@.tags, tag@);
            lemma_position::<Category>(self@.tags, tag@.id);
            if replaced(self@.tags, tag@) is Ok {
                lemma_index_update::<Category>(
                    self@.tags,
                    position::<Category>(self@.tags, tag@.id),
                    tag@,
                );
            }
        }
        replace_in(&mut self.tags, tag)
    }

    /// Replace all tasks: see `StoreView::replace_tasks`.
    pub fn replace_tasks(&mut self, tasks: Vec<Task>) -> (r: Result<(), Error>)
        requires
            old(self).wf(),
        ensures
            final(self).wf(),
            follows(r, old(self)@, final(self)@, old(self)@.replace_tasks(views(tasks@))),
    {
        if keys_are_distinct(&tasks) && tasks_all_valid(&tasks) && tasks_single_current(&tasks) {
            self.task_index = Index::build(&tasks);
            self.tasks = tasks;
            Ok(())
        } else {
            Err(Error::Validation)
        }
    }

    /// Replace all tags: see `StoreView::replace_tags`.
    pub fn replace_tags(&mut self, tags: Vec<Category>) -> (r: Result<(), Error>)
        requires
            old(self).wf(),
        ensures
            final(self).wf(),
            follows(r, old(self)@, final(self)@, old(self)@.replace_tags(views(tags@))),
    {
        if keys_are_distinct(&tags) && names_are_distinct(&tags) {
            self.tag_index = Index::build(&tags);
            self.tags = tags;
            Ok(())
        } else {
            Err(Error::Validation)
        }
    }

    /// The task filed under the identifier, if any.
    pub fn task_by_id(&self, id: u128) -> (r: Option<Task>)
        requires
            self.wf(),
        ensures
            match r {
                Some(task) => lookup::<Task>(self@.tasks, id) == Some(task@),
                None => lookup::<Task>(self@.tasks, id) is None,
            },
    {
        match self.task_position(id) {
            Some(i) => Some(self.tasks[i].duplicate()),
            None => None,
        }
    }

    /// The project filed under the identifier, if any.
    pub fn project_by_id(&self, id: u128) -> (r: Option<Category>)
        requires
            self.wf(),
        ensures
            match r {
                Some(c) => lookup::<Category>(self@.projects, id) == Some(c@),
                None => lookup::<Category>(self@.projects, id) is None,
            },
    {
        match self.project_position(id) {
            Some(i) => Some(self.projects[i].duplicate()),
            None => None,
        }
    }

    /// The tag filed under the identifier, if any.
    pub fn tag_by_id(&self, id: u128) -> (r: Option<Category>)
        requires
            self.wf(),
        ensures
            match r {
                Some(c) => lookup::<Category>(self@.tags, id) == Some(c@),
                None => lookup::<Category>(self@.tags, id) is None,
            },
    {
        match self.tag_position(id) {
            Some(i) => Some(self.tags[i].duplicate()),
            None => None,
        }
    }

    /// The project that goes by the name, if any.
    pub fn project_by_name(&self, name: &str) -> (r: Option<Category>)
        ensures
            match r {
                Some(c) => lookup_named(self@.projects, name@) == Some(c@),
                None => lookup_named(self@.projects, name@) is None,
            },
    {
        match find_named(&self.projects, name) {
            Some(i) => Some(self.projects[i].duplicate()),
            None => None,
        }
    }

    /// The tag that goes by the name, if any.
    pub fn tag_by_name(&self, name: &str) -> (r: Option<Category>)
        ensures
            match r {
                Some(c) => lookup_named(self@.tags, name@) == Some(c@),
                None => lookup_named(self@.tags, name@) is None,
            },
    {
        match find_named(&self.tags, name) {
            Some(i) => Some(self.tags[i].duplicate()),
            None => None,
        }
    }

    /// The tags that go by one of the names, in the order of the store.
    pub fn find_tag_by_names(&self, names: &Vec<String>) -> (r: Vec<Category>)
        ensures
            views(r@) == named_among(self@.tags, texts(names@)),
    {
        select_named(&self.tags, names)
    }

    /// All tasks, in order.
    pub fn all_tasks(&self) -> (r: Vec<Task>)
        ensures
            views(r@) == self@.tasks,
    {
        copy_all(&self.tasks)
    }

    /// All projects, in order.
    pub fn projects(&self) -> (r: Vec<Category>)
        ensures
            views(r@) == self@.projects,
    {
        copy_all(&self.projects)
    }

    /// All tags, in order.
    pub fn tags(&self) -> (r: Vec<Category>)
        ensures
            views(r@) == self@.tags,
    {
        copy_all(&self.tags)
    }

    /// All tags, in order.
    pub fn all_tags(&self) -> (r: Vec<Category>)
        ensures
            views(r@) == self@.tags,
    {
        copy_all(&self.tags)
    }

    /// Resolves a short identifier within one class of records: to the
    /// identifier of the one record of the class that it fits.
    pub fn resolve(&self, short_id: &str, class: EntityClass) -> (r: Result<u128, Error>)
        ensures
            resolved_as(r, resolution(self@.ids(class), short_id@)),
    {
        match class {
            EntityClass::Task => resolve(&self.tasks, short_id),
            EntityClass::Project => resolve(&self.projects, short_id),
            EntityClass::Tag => resolve(&self.tags, short_id),
        }
    }

    /// Resolves a short identifier among all records of the store, whatever
    /// their class.
    pub fn resolve_id(&self, short_id: &str) -> (r: Result<u128, Error>)
        ensures
            resolved_as(r, resolution(self@.all_ids(), short_id@)),
    {
        let mut found = find_candidates(&self.tasks, short_id);
        let mut among_projects = find_candidates(&self.projects, short_id);
        let mut among_tags = find_candidates(&self.tags, short_id);
        found.append(&mut among_projects);
        found.append(&mut among_tags);
        proof {
            let a = keys::<Task>(self@.tasks);
            let b = keys::<Category>(self@.projects);
            let c = keys::<Category>(self@.tags);
            let pred = fitting(short_id@);
            Seq::filter_distributes_over_add(a, b, pred);
            Seq::filter_distributes_over_add(a + b, c, pred);
        }
        if found.len() == 1 {
            Ok(found[0])
        } else if found.len() == 0 {
            Err(Error::NotFound)
        } else {
            Err(Error::Ambiguous(found))
        }
    }

    /// Replace a task and name its tags: see
    /// `StoreView::replace_task_named`. Returns the task that was there.
    pub fn replace_task_named(
        &mut self,
        task: &Task,
        tag_names: &Vec<String>,
        tag_fresh: &Vec<u128>,
    ) -> (r: Result<Task, Error>)
        requires
            old(self).wf(),
        ensures
            final(self).wf(),
            follows(
                r,
                old(self)@,
                final(self)@,
                old(self)@.replace_task_named(task@, texts(tag_names@), tag_fresh@),
            ),
            r matches Ok(was) ==> Some(was@) == lookup::<Task>(old(self)@.tasks, task@.id),
    {
        if tag_fresh.len() != tag_names.len() {
            return Err(Error::Validation);
        }
        let mut tags = copy_all(&self.tags);
        proof {
            lemma_with_names(self@.tags, texts(tag_names@), tag_fresh@);
        }
        match ensure_all_named(&mut tags, tag_names, tag_fresh) {
            Ok(()) => {},
            Err(e) => {
                return Err(e);
            },
        }
        let ids = match collect_ids(&tags, tag_names) {
            Some(ids) => ids,
            None => {
                return Err(Error::Validation);
            },
        };
        let renamed = task.with_tag_ids(ids);
        core::mem::swap(&mut self.tags, &mut tags);
        self.tag_index = Index::build(&self.tags);
        match self.replace_task(&renamed) {
            Ok(was) => Ok(was),
            Err(e) => {
                self.tag_index = Index::build(&tags);
                self.tags = tags;
                Err(e)
            },
        }
    }

    /// The short identifier of a record within its class: see `short_id`.
    pub fn short_id(&self, id: u128, class: EntityClass) -> (r: Option<String>)
        requires
            self.wf(),
        ensures
            match r {
                Some(short) => crate::ident::is_short_id(self@.ids(class), id, short@),
                None => crate::ident::has_no_short_id(self@.ids(class), id),
            },
            r is Some <==> self@.ids(class).contains(id),
    {
        proof {
            crate::entity::lemma_keys::<Task>(self@.tasks);
            crate::entity::lemma_keys::<Category>(self@.projects);
            crate::entity::lemma_keys::<Category>(self@.tags);
            if !self@.ids(class).contains(id) {
                crate::ident::lemma_unlisted_never_resolves(self@.ids(class), id);
            }
        }
        match class {
            EntityClass::Task => crate::ident::short_id(&self.tasks, id),
            EntityClass::Project => crate::ident::short_id(&self.projects, id),
            EntityClass::Tag => crate::ident::short_id(&self.tags, id),
        }
    }

    /// The identifier of the record of the class that goes by the name, if
    /// any: see `StoreView::named`.
    pub fn lookup_by_name(&self, name: &str, class: EntityClass) -> (r: Option<u128>)
        ensures
            r == self@.named(name@, class),
    {
        match class {
            EntityClass::Task => {
                let wanted = name.to_owned();
                let mut i: usize = 0;
                while i < self.tasks.len()
                    invariant
                        0 <= i <= self.tasks.len(),
                        class is Task,
                        wanted@ == name@,
                        forall|j: int| 0 <= j < i ==> (#[trigger] self@.tasks[j]).title != name@,
                    decreases self.tasks.len() - i,
                {
                    assert(self@.tasks[i as int] == self.tasks@[i as int]@);
                    if self.tasks[i].title().to_owned() == wanted {
                        proof {
                            lemma_titled_position_at(self@.tasks, name@, i as int);
                        }
                        return Some(self.tasks[i].id());
                    }
                    assert(self@.tasks[i as int].title != name@);
                    i += 1;
                }
                proof {
                    lemma_titled_position_at(self@.tasks, name@, self.tasks.len() as int);
                }
                None
            },
            EntityClass::Project => match find_named(&self.projects, name) {
                Some(i) => Some(self.projects[i].id()),
                None => None,
            },
            EntityClass::Tag => match find_named(&self.tags, name) {
                Some(i) => Some(self.tags[i].id()),
                None => None,
            },
        }
    }
}

/// Draws `n` identifiers at random.
pub fn draw_ids(n: usize) -> (r: Vec<u128>)
    ensures
        r.len() == n,
{
    let mut out: Vec<u128> = Vec::new();
    let mut i: usize = 0;
    while i < n
        invariant
            0 <= i <= n,
            out.len() == i,
        decreases n - i,
    {
        out.push(random_id());
        i += 1;
    }
    out
}

} // verus!
