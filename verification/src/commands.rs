//! The commands of the program, as what the command line hands over, and what
//! each of them asks of the store.

use std::collections::HashSet;
use vstd::prelude::*;
use vstd::string::StringExecFns;
use crate::category::{has_name, id_named, named_among, texts, Category, CategoryView};
use crate::entity::{views, Entity};
use crate::error::Error;
use crate::ident::{resolution, resolved_as, unresolved_as};
use crate::store::{Store, StoreView};
use crate::sync::SyncMode;
use crate::task::{holds_id, Task, TaskView};
use crate::time::{get_period, parse_datetime, Period, Timestamp};

verus! {

broadcast use vstd::std_specs::hash::group_hash_axioms;

/// Record a task after the fact.
#[derive(Debug, Clone)]
pub struct Add {
    /// Project name
    pub project_name: String,
    /// Task title
    pub task_title: String,
    /// Tags
    pub tags: Vec<String>,
    /// Start time, as `HH:MM` or `YYYY-mm-dd HH:MM`
    pub start_time: String,
    /// Finish time, as `HH:MM` or `YYYY-mm-dd HH:MM`
    pub finish_time: String,
}

/// Remove a task.
#[derive(Debug, Clone)]
pub struct Remove {
    /// Short identifier of the task
    pub short_task_id: String,
}

/// Edit records: all tags, all tasks, or those with the given short
/// identifiers.
#[derive(Debug, Clone)]
pub struct Edit {
    pub all: bool,
    pub all_tags: bool,
    pub task_id: Option<Vec<String>>,
    pub project_id: Option<Vec<String>>,
    pub tag_id: Option<Vec<String>>,
}

/// Start a task.
#[derive(Debug, Clone)]
pub struct Start {
    /// Project name
    pub project_name: String,
    /// Task title
    pub task_title: String,
    /// Tags
    pub tags: Vec<String>,
    /// Start time in place of the present moment, as `HH:MM` or
    /// `YYYY-mm-dd HH:MM`
    pub start_time: Option<String>,
}

/// Start a task like an earlier one.
#[derive(Debug, Clone)]
pub struct Continue {
    pub short_task_id: String,
}

/// List today's tasks.
#[derive(Debug, Clone)]
pub struct Today {
    pub log_params: LogCommonParams,
}

/// List the tasks of a period.
#[derive(Debug, Clone)]
pub struct Log {
    pub days: Option<i64>,
    pub today: bool,
    pub log_params: LogCommonParams,
}

/// What every listing can be told.
#[derive(Debug, Clone)]
pub struct LogCommonParams {
    pub dont_clear: bool,
    pub project: Vec<String>,
    pub tag: Vec<String>,
    pub full: bool,
}

/// Show the statistics of a period.
#[derive(Debug, Clone)]
pub struct Stat {
    pub days: Option<i64>,
    pub today: bool,
    pub with_tags: bool,
    pub log_params: LogCommonParams,
}

/// Synchronise with the remote copy.
#[derive(Debug, Clone)]
pub struct Sync {
    pub push_force: bool,
    pub pull_force: bool,
}

impl Sync {
    /// The way to synchronise that the flags ask for: a forced push where it
    /// is asked for, else a forced pull where that is, else a merge.
    pub fn mode(&self) -> (r: SyncMode)
        ensures
            r == if self.push_force {
                SyncMode::PushForce
            } else if self.pull_force {
                SyncMode::PullForce
            } else {
                SyncMode::Merge
            },
    {
        if self.push_force {
            SyncMode::PushForce
        } else if self.pull_force {
            SyncMode::PullForce
        } else {
            SyncMode::Merge
        }
    }
}

/// Whether the period is what `period_at` says for some reading of the
/// clock.
pub open spec fn period_now(days: Option<i64>, today: bool, r: Option<Period>) -> bool {
    exists|now: Timestamp, seconds_from_midnight: u32, days_from_monday: u32|
        seconds_from_midnight < crate::time::SECONDS_PER_DAY && days_from_monday < 7 && r
            == #[trigger] crate::time::period_at(
            days,
            today,
            now,
            seconds_from_midnight,
            days_from_monday,
        )
}

impl Log {
    /// The period to list: see `get_period`.
    pub fn period(&self) -> (r: Option<Period>)
        ensures
            period_now(self.days, self.today, r),
    {
        get_period(self.days, self.today)
    }
}

impl Stat {
    /// The period to sum up: see `get_period`.
    pub fn period(&self) -> (r: Option<Period>)
        ensures
            period_now(self.days, self.today, r),
    {
        get_period(self.days, self.today)
    }
}

impl Today {
    /// The period to list: today, from midnight.
    pub fn period(&self) -> (r: Option<Period>)
        ensures
            period_now(None, true, r),
    {
        get_period(None, true)
    }
}

/// A tag as typed, without the plus sign that may stand before it.
pub open spec fn bare_tag(tag: Seq<char>) -> Seq<char> {
    if tag.len() > 0 && tag[0] == '+' {
        tag.subrange(1, tag.len() as int)
    } else {
        tag
    }
}

/// Takes the plus sign off a tag that is typed with one.
pub fn strip_plus(tag: &str) -> (r: String)
    ensures
        r@ == bare_tag(tag@),
{
    let n = tag.unicode_len();
    if n > 0 && tag.get_char(0) == '+' {
        String::from_str(tag.substring_char(1, n))
    } else {
        String::from_str(tag)
    }
}

/// The tags as typed, each without the plus sign that may stand before it.
pub fn extract_tags(values: &Vec<String>) -> (r: Vec<String>)
    ensures
        r.len() == values.len(),
        forall|i: int| 0 <= i < values.len() ==> (#[trigger] r@[i])@ == bare_tag(values@[i]@),
{
    let mut out: Vec<String> = Vec::new();
    let mut i: usize = 0;
    while i < values.len()
        invariant
            0 <= i <= values.len(),
            out.len() == i,
            forall|j: int| 0 <= j < i ==> (#[trigger] out@[j])@ == bare_tag(values@[j]@),
        decreases values.len() - i,
    {
        out.push(strip_plus(values[i].as_str()));
        i += 1;
    }
    out
}

/// The identifiers of the projects that go by one of the names.
pub open spec fn project_ids_named(projects: Seq<CategoryView>, names: Seq<Seq<char>>) -> Set<u128> {
    Set::new(
        |id: u128|
            exists|i: int|
                0 <= i < names.len() && has_name(projects, #[trigger] names[i]) && id_named(
                    projects,
                    names[i],
                ) == id,
    )
}

/// The identifiers of the projects that go by one of the names, to narrow a
/// listing to them; none where no project goes by any of them, and the
/// listing is not to be narrowed.
pub fn projects_to_ids_set(store: &Store, project_names: &Vec<String>) -> (r: Option<HashSet<u128>>)
    ensures
        match r {
            Some(ids) => ids@ == project_ids_named(store@.projects, texts(project_names@))
                && ids@ != Set::<u128>::empty(),
            None => project_ids_named(store@.projects, texts(project_names@)) == Set::<
                u128,
            >::empty(),
        },
{
    let ghost names = texts(project_names@);
    let ghost projects = store@.projects;
    let mut project_ids: HashSet<u128> = HashSet::new();
    let mut i: usize = 0;
    assert(project_ids@ =~= project_ids_named(projects, names.take(0)));
    while i < project_names.len()
        invariant
            0 <= i <= project_names.len(),
            names == texts(project_names@),
            projects == store@.projects,
            project_ids@ == project_ids_named(projects, names.take(i as int)),
        decreases project_names.len() - i,
    {
        let ghost before = project_ids@;
        let project = store.project_by_name(project_names[i].as_str());
        proof {
            crate::category::lemma_named_position(projects, names[i as int]);
        }
        match project {
            Some(p) => {
                project_ids.insert(p.id());
            },
            None => {},
        }
        proof {
            let next = names.take(i + 1);
            let prev = names.take(i as int);
            assert(next[i as int] == names[i as int]);
            assert forall|id: u128|
                project_ids@.contains(id) <==> project_ids_named(projects, next).contains(
                    id,
                ) by {
                if project_ids_named(projects, next).contains(id) {
                    let k = choose|k: int|
                        0 <= k < next.len() && has_name(projects, #[trigger] next[k]) && id_named(
                            projects,
                            next[k],
                        ) == id;
                    if k < i {
                        assert(prev[k] == next[k]);
                        assert(project_ids_named(projects, prev).contains(id));
                    }
                }
                if before.contains(id) {
                    let k = choose|k: int|
                        0 <= k < prev.len() && has_name(projects, #[trigger] prev[k]) && id_named(
                            projects,
                            prev[k],
                        ) == id;
                    assert(next[k] == prev[k]);
                }
            }
            assert(project_ids@ =~= project_ids_named(projects, next));
        }
        i += 1;
    }
    assert(names.take(project_names.len() as int) =~= names);
    if project_ids.is_empty() {
        assert(project_ids@ =~= Set::<u128>::empty());
        return None;
    }
    Some(project_ids)
}

/// Resolves a short identifier among all records of the store.
pub fn restore_id_by_short_id(store: &Store, short_id: &str) -> (r: Result<u128, Error>)
    ensures
        resolved_as(r, resolution(store@.all_ids(), short_id@)),
{
    store.resolve_id(short_id)
}

/// What a listing is to show.
#[derive(Debug, Clone)]
pub struct TaskListing {
    /// Whether the screen is to be cleared first.
    pub clear_screen: bool,
    /// Whether each task is to be shown in full.
    pub full: bool,
    /// The tasks to show, in the order of the store.
    pub tasks: Vec<Task>,
}

/// The identifiers of the tags that go by one of the names.
pub open spec fn tag_ids_named(tags: Seq<CategoryView>, names: Seq<Seq<char>>) -> Seq<u128> {
    crate::entity::keys::<Category>(named_among(tags, names))
}

/// Whether the task is under one of the tags.
pub open spec fn under_one_of(task: TaskView, tag_ids: Seq<u128>) -> bool {
    exists|i: int| 0 <= i < tag_ids.len() && task.tag_ids.contains(#[trigger] tag_ids[i])
}

/// Whether a listing shows the task: it must have started within the period;
/// where projects go by the names given for them, it must be for one of
/// those; and where tags go by the names given for them, it must be under
/// one of those.
pub open spec fn listed(
    store: StoreView,
    project_names: Seq<Seq<char>>,
    tag_names: Seq<Seq<char>>,
    period: Period,
) -> spec_fn(TaskView) -> bool {
    |task: TaskView|
        {
            let projects = project_ids_named(store.projects, project_names);
            let tags = tag_ids_named(store.tags, tag_names);
            &&& period.covers(task.interval.start_time)
            &&& (projects != Set::<u128>::empty() ==> projects.contains(task.project_id))
            &&& (tags.len() > 0 ==> under_one_of(task, tags))
        }
}

/// Whether the task is under one of the tags.
pub fn is_under_one_of(task: &Task, tags: &Vec<Category>) -> (r: bool)
    ensures
        r == under_one_of(task@, crate::entity::keys::<Category>(views(tags@))),
{
    let ghost ids = crate::entity::keys::<Category>(views(tags@));
    let mut i: usize = 0;
    while i < tags.len()
        invariant
            0 <= i <= tags.len(),
            ids == crate::entity::keys::<Category>(views(tags@)),
            forall|j: int| 0 <= j < i ==> !task@.tag_ids.contains(#[trigger] ids[j]),
        decreases tags.len() - i,
    {
        if holds_id(task.tag_ids(), tags[i].id()) {
            assert(task@.tag_ids.contains(ids[i as int]));
            return true;
        }
        i += 1;
    }
    false
}

/// What a listing of the period is to show: see `listed`.
pub fn show_tasks(params: &LogCommonParams, store: &Store, period: &Period) -> (r: TaskListing)
    ensures
        r.clear_screen == !params.dont_clear,
        r.full == params.full,
        views(r.tasks@) == store@.tasks.filter(
            listed(store@, texts(params.project@), texts(params.tag@), *period),
        ),
{
    let project_ids = projects_to_ids_set(store, &params.project);
    let found_tags = store.find_tag_by_names(&params.tag);
    let all = store.all_tasks();
    let ghost pred = listed(store@, texts(params.project@), texts(params.tag@), *period);
    let ghost tasks = store@.tasks;
    let mut shown: Vec<Task> = Vec::new();
    let mut i: usize = 0;
    assert(tasks.take(0) =~= Seq::<TaskView>::empty());
    assert(views(shown@) =~= Seq::<TaskView>::empty());
    while i < all.len()
        invariant
            0 <= i <= all.len(),
            tasks == store@.tasks,
            views(all@) == tasks,
            pred == listed(store@, texts(params.project@), texts(params.tag@), *period),
            views(found_tags@) == named_among(store@.tags, texts(params.tag@)),
            match project_ids {
                Some(ids) => ids@ == project_ids_named(store@.projects, texts(params.project@))
                    && ids@ != Set::<u128>::empty(),
                None => project_ids_named(store@.projects, texts(params.project@)) == Set::<
                    u128,
                >::empty(),
            },
            views(shown@) == tasks.take(i as int).filter(pred),
        decreases all.len() - i,
    {
        let task = &all[i];
        proof {
            assert(tasks[i as int] == task@);
            assert(tasks.take(i + 1) =~= tasks.take(i as int).push(tasks[i as int]));
            tasks.take(i as int).lemma_filter_push(tasks[i as int], pred);
        }
        let start = task.interval().start_time;
        let for_project = match &project_ids {
            Some(ids) => ids.contains(&task.project_id()),
            None => true,
        };
        let under_tag = found_tags.len() == 0 || is_under_one_of(task, &found_tags);
        if period.contains(&start) && for_project && under_tag {
            let ghost before = views(shown@);
            shown.push(task.duplicate());
            assert(views(shown@) =~= before.push(task@));
        }
        i += 1;
    }
    assert(tasks.take(all.len() as int) =~= tasks);
    TaskListing { clear_screen: !params.dont_clear, full: params.full, tasks: shown }
}

/// A copy of the strings.
pub fn copy_texts(values: &Vec<String>) -> (r: Vec<String>)
    ensures
        texts(r@) == texts(values@),
{
    let mut out: Vec<String> = Vec::new();
    let mut i: usize = 0;
    while i < values.len()
        invariant
            0 <= i <= values.len(),
            out.len() == i,
            forall|j: int| 0 <= j < i ==> (#[trigger] out@[j])@ == values@[j]@,
        decreases values.len() - i,
    {
        out.push(values[i].clone());
        i += 1;
    }
    assert(texts(out@) =~= texts(values@));
    out
}

/// The start command: starts a task as the command says, at the time it
/// names or else now. A time that cannot be read is invalid input.
pub fn start_task(store: &mut Store, params: &Start) -> (r: Result<Task, Error>)
    requires
        old(store).wf(),
    ensures
        final(store).wf(),
        r matches Ok(task) ==> task@ == final(store)@.tasks.last(),
        (params.start_time is Some && r == Err::<Task, Error>(Error::Validation) && final(store)@
            == old(store)@) || (exists|
            at: Timestamp,
            task_id: u128,
            project_fresh: u128,
            tag_fresh: Seq<u128>,
        |
            tag_fresh.len() == params.tags.len() && crate::store::follows(
                r,
                old(store)@,
                final(store)@,
                #[trigger] old(store)@.start(
                    params.project_name@,
                    params.task_title@,
                    texts(params.tags@),
                    at,
                    task_id,
                    project_fresh,
                    tag_fresh,
                ),
            )),
{
    let start_time = match &params.start_time {
        Some(text) => match parse_datetime(text.as_str()) {
            Ok(t) => Some(t),
            Err(_) => {
                return Err(Error::Validation);
            },
        },
        None => None,
    };
    store.start(
        params.project_name.as_str(),
        params.task_title.as_str(),
        copy_texts(&params.tags),
        start_time,
    )
}

/// The add command: records a task that ran between the two times that the
/// command names. A time that cannot be read is invalid input.
pub fn add_task(store: &mut Store, params: &Add) -> (r: Result<Task, Error>)
    requires
        old(store).wf(),
    ensures
        final(store).wf(),
        r matches Ok(task) ==> task@ == final(store)@.tasks.last(),
        (r == Err::<Task, Error>(Error::Validation) && final(store)@ == old(store)@) || (exists|
            start: Timestamp,
            finish: Timestamp,
            task_id: u128,
            project_fresh: u128,
            tag_fresh: Seq<u128>,
        |
            tag_fresh.len() == params.tags.len() && crate::store::follows(
                r,
                old(store)@,
                final(store)@,
                #[trigger] old(store)@.add(
                    params.project_name@,
                    params.task_title@,
                    texts(params.tags@),
                    start,
                    finish,
                    task_id,
                    project_fresh,
                    tag_fresh,
                ),
            )),
{
    let start = parse_datetime(params.start_time.as_str());
    let finish = parse_datetime(params.finish_time.as_str());
    match (start, finish) {
        (Ok(from), Ok(to)) => store.add(
            params.project_name.as_str(),
            params.task_title.as_str(),
            copy_texts(&params.tags),
            from,
            to,
        ),
        _ => Err(Error::Validation),
    }
}

/// The continue command: starts, now, a new task like the one that the short
/// identifier resolves to.
pub fn continue_task(store: &mut Store, params: &Continue) -> (r: Result<Task, Error>)
    requires
        old(store).wf(),
    ensures
        final(store).wf(),
        r matches Ok(task) ==> task@ == final(store)@.tasks.last(),
        match resolution(old(store)@.all_ids(), params.short_task_id@) {
            Ok(id) => exists|now: Timestamp, new_id: u128|
                crate::store::follows(
                    r,
                    old(store)@,
                    final(store)@,
                    #[trigger] old(store)@.continue_task(id, now, new_id),
                ),
            Err(c) => unresolved_as(r, c) && final(store)@ == old(store)@,
        },
{
    match restore_id_by_short_id(store, params.short_task_id.as_str()) {
        Ok(id) => store.continue_task(id),
        Err(e) => Err(e),
    }
}

/// The remove command: removes the task that the short identifier resolves
/// to, and returns it.
pub fn remove_task(store: &mut Store, params: &Remove) -> (r: Result<Task, Error>)
    requires
        old(store).wf(),
    ensures
        final(store).wf(),
        r matches Ok(task) ==> (resolution(old(store)@.all_ids(), params.short_task_id@) matches Ok(
            id,
        ) && Some(task@) == crate::entity::lookup::<Task>(old(store)@.tasks, id)),
        match resolution(old(store)@.all_ids(), params.short_task_id@) {
            Ok(id) => crate::store::follows(
                r,
                old(store)@,
                final(store)@,
                old(store)@.remove_task(id),
            ),
            Err(c) => unresolved_as(r, c) && final(store)@ == old(store)@,
        },
{
    match restore_id_by_short_id(store, params.short_task_id.as_str()) {
        Ok(id) => store.remove_task(id),
        Err(e) => Err(e),
    }
}

/// The milliseconds of work on the first `n` of the tasks up to `now`, added
/// up.
pub open spec fn worked_sum(tasks: Seq<TaskView>, now: Timestamp, n: int) -> int
    decreases n,
{
    if n <= 0 {
        0
    } else {
        worked_sum(tasks, now, n - 1) + tasks[n - 1].worked(now)
    }
}

/// Whether the work on each task, and each sum of the work on the first
/// tasks, can be held in 64 bits.
pub open spec fn sums_fit(tasks: Seq<TaskView>, now: Timestamp) -> bool {
    &&& forall|k: int|
        0 <= k < tasks.len() ==> i64::MIN <= (#[trigger] tasks[k]).worked(now) <= i64::MAX
    &&& forall|n: int|
        0 <= n <= tasks.len() ==> i64::MIN <= #[trigger] worked_sum(tasks, now, n) <= i64::MAX
}

/// The milliseconds of work on the tasks up to `now`, added up; none where
/// the work on a task or a sum on the way cannot be held.
pub fn total_worked(tasks: &Vec<Task>, now: &Timestamp) -> (r: Option<i64>)
    ensures
        r is Some <==> sums_fit(views(tasks@), *now),
        r matches Some(total) ==> total == worked_sum(views(tasks@), *now, tasks.len() as int),
{
    let ghost all = views(tasks@);
    let mut total: i64 = 0;
    let mut i: usize = 0;
    while i < tasks.len()
        invariant
            0 <= i <= tasks.len(),
            all == views(tasks@),
            total == worked_sum(all, *now, i as int),
            forall|k: int| 0 <= k < i ==> i64::MIN <= (#[trigger] all[k]).worked(*now) <= i64::MAX,
            forall|n: int| 0 <= n <= i ==> i64::MIN <= #[trigger] worked_sum(all, *now, n) <= i64::MAX,
        decreases tasks.len() - i,
    {
        assert(all[i as int] == tasks@[i as int]@);
        let worked: i64 = match tasks[i].worked_at(now) {
            Some(w) => w,
            None => {
                return None;
            },
        };
        let sum: i128 = (total as i128) + (worked as i128);
        assert(worked_sum(all, *now, i + 1) == sum);
        if sum < i64::MIN as i128 || sum > i64::MAX as i128 {
            return None;
        }
        total = sum as i64;
        i += 1;
    }
    Some(total)
}

} // verus!
