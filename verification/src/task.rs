//! Tasks: what is being worked on, for which project, under which tags, from
//! when to when, and how long the work was paused.

use vstd::prelude::*;
use crate::entity::Entity;
use crate::time::{DateTimeInterval, Timestamp};

verus! {

/// The largest accumulated pause, in milliseconds, in either direction (2^62).
pub const MAX_PAUSED: i64 = 4_611_686_018_427_387_904;

/// Where a task stands in its lifecycle.
#[derive(Debug, Clone, Copy, PartialEq, Eq, Structural)]
pub enum TaskState {
    /// Being worked on.
    Active,
    /// Begun and set aside for a while.
    Paused,
    /// Finished.
    Stopped,
}

/// The value of a task.
pub struct TaskView {
    pub id: u128,
    pub project_id: u128,
    pub title: Seq<char>,
    pub tag_ids: Seq<u128>,
    pub interval: DateTimeInterval,
    pub paused_duration: int,
    pub state: TaskState,
    pub pause_started: Option<Timestamp>,
}

impl TaskView {
    /// Whether the task is the one being tracked: active or paused.
    pub open spec fn is_current(self) -> bool {
        self.state != TaskState::Stopped
    }

    /// What holds of every task in a store: it has a stop time exactly when
    /// it is stopped, and then does not stop before it starts; it remembers
    /// when its pause began exactly while it is paused; its accumulated pause
    /// is within bounds; and no tag is attached to it twice.
    pub open spec fn valid(self) -> bool {
        &&& (self.state == TaskState::Stopped) == (self.interval.stop_time is Some)
        &&& (self.state == TaskState::Paused) == (self.pause_started is Some)
        &&& self.interval.ordered()
        &&& -MAX_PAUSED <= self.paused_duration <= MAX_PAUSED
        &&& self.tag_ids.no_duplicates()
    }

    /// The milliseconds of work on the task up to `now`: from its start to its
    /// stop, or to `now` while it has not stopped, less the accumulated pause.
    pub open spec fn worked(self, now: Timestamp) -> int {
        self.interval.span(now) - self.paused_duration
    }

    /// The task set aside at `now`.
    pub open spec fn paused(self, now: Timestamp) -> TaskView {
        TaskView { state: TaskState::Paused, pause_started: Some(now), ..self }
    }

    /// The task taken up again at `now`, the pause that ends there added to
    /// the accumulated pause: exactly the time from the beginning of the
    /// pause to `now`, whichever of the two comes first.
    pub open spec fn resumed(self, now: Timestamp) -> TaskView {
        TaskView {
            state: TaskState::Active,
            pause_started: None,
            paused_duration: self.paused_duration + (now.instant()
                - self.pause_started->0.instant()),
            ..self
        }
    }

    /// The task finished at `now`. A pause that is still open then is closed
    /// without being added to the accumulated pause.
    pub open spec fn stopped(self, now: Timestamp) -> TaskView {
        TaskView {
            state: TaskState::Stopped,
            pause_started: None,
            interval: DateTimeInterval {
                start_time: self.interval.start_time,
                stop_time: Some(now),
            },
            ..self
        }
    }
}

/// The value of a task that has just been started.
pub open spec fn started_view(
    id: u128,
    project_id: u128,
    title: Seq<char>,
    tag_ids: Seq<u128>,
    start: Timestamp,
) -> TaskView {
    TaskView {
        id,
        project_id,
        title,
        tag_ids,
        interval: DateTimeInterval { start_time: start, stop_time: None },
        paused_duration: 0,
        state: TaskState::Active,
        pause_started: None,
    }
}

/// The value of a task recorded after the fact.
pub open spec fn finished_view(
    id: u128,
    project_id: u128,
    title: Seq<char>,
    tag_ids: Seq<u128>,
    start: Timestamp,
    stop: Timestamp,
) -> TaskView {
    TaskView {
        id,
        project_id,
        title,
        tag_ids,
        interval: DateTimeInterval { start_time: start, stop_time: Some(stop) },
        paused_duration: 0,
        state: TaskState::Stopped,
        pause_started: None,
    }
}

/// Whether the two lists hold the same identifiers in the same order.
pub fn same_ids(a: &Vec<u128>, b: &Vec<u128>) -> (r: bool)
    ensures
        r == (a@ == b@),
{
    if a.len() != b.len() {
        return false;
    }
    let mut i: usize = 0;
    while i < a.len()
        invariant
            a.len() == b.len(),
            0 <= i <= a.len(),
            forall|j: int| 0 <= j < i ==> a@[j] == b@[j],
        decreases a.len() - i,
    {
        if a[i] != b[i] {
            return false;
        }
        i += 1;
    }
    assert(a@ =~= b@);
    true
}

/// Whether the identifier occurs in the list.
pub fn holds_id(ids: &Vec<u128>, id: u128) -> (r: bool)
    ensures
        r == ids@.contains(id),
{
    let mut i: usize = 0;
    while i < ids.len()
        invariant
            0 <= i <= ids.len(),
            forall|j: int| 0 <= j < i ==> ids@[j] != id,
        decreases ids.len() - i,
    {
        if ids[i] == id {
            return true;
        }
        i += 1;
    }
    false
}

/// Whether no identifier occurs twice in the list.
pub fn distinct_ids(ids: &Vec<u128>) -> (r: bool)
    ensures
        r == ids@.no_duplicates(),
{
    let mut i: usize = 0;
    while i < ids.len()
        invariant
            0 <= i <= ids.len(),
            forall|a: int, b: int| 0 <= a < i && 0 <= b < ids.len() && a != b ==> ids@[a] != ids@[b],
        decreases ids.len() - i,
    {
        let mut j: usize = 0;
        while j < ids.len()
            invariant
                0 <= i < ids.len(),
                0 <= j <= ids.len(),
                forall|b: int| 0 <= b < j && b != i ==> ids@[i as int] != ids@[b],
            decreases ids.len() - j,
        {
            if j != i && ids[i] == ids[j] {
                return false;
            }
            j += 1;
        }
        i += 1;
    }
    true
}

/// A copy of the list.
pub fn copy_ids(ids: &Vec<u128>) -> (r: Vec<u128>)
    ensures
        r@ == ids@,
{
    let mut out: Vec<u128> = Vec::new();
    let mut i: usize = 0;
    while i < ids.len()
        invariant
            0 <= i <= ids.len(),
            out@ == ids@.take(i as int),
        decreases ids.len() - i,
    {
        out.push(ids[i]);
        assert(ids@.take(i + 1) =~= ids@.take(i as int).push(ids@[i as int]));
        i += 1;
    }
    assert(ids@.take(ids.len() as int) =~= ids@);
    out
}

/// A task.
#[derive(Debug, Clone, PartialEq, Eq)]
pub struct Task {
    id_: u128,
    project_id_: u128,
    title_: String,
    tag_ids_: Vec<u128>,
    interval_: DateTimeInterval,
    paused_duration_: i64,
    state_: TaskState,
    pause_started_: Option<Timestamp>,
}

impl View for Task {
    type V = TaskView;

    closed spec fn view(&self) -> TaskView {
        TaskView {
            id: self.id_,
            project_id: self.project_id_,
            title: self.title_@,
            tag_ids: self.tag_ids_@,
            interval: self.interval_,
            paused_duration: self.paused_duration_ as int,
            state: self.state_,
            pause_started: self.pause_started_,
        }
    }
}

impl Task {
    /// A task with exactly the given fields, whether or not they fit together:
    /// a store accepts it only if they do.
    pub fn new(
        id: u128,
        project_id: u128,
        title: &str,
        tag_ids: Vec<u128>,
        interval: DateTimeInterval,
        paused_duration: i64,
        state: TaskState,
        pause_started: Option<Timestamp>,
    ) -> (r: Task)
        ensures
            r@ == (TaskView {
                id,
                project_id,
                title: title@,
                tag_ids: tag_ids@,
                interval,
                paused_duration: paused_duration as int,
                state,
                pause_started,
            }),
    {
        Task {
            id_: id,
            project_id_: project_id,
            title_: title.to_owned(),
            tag_ids_: tag_ids,
            interval_: interval,
            paused_duration_: paused_duration,
            state_: state,
            pause_started_: pause_started,
        }
    }

    /// A task that starts at `start` and is being worked on.
    pub fn started(id: u128, project_id: u128, title: &str, tag_ids: Vec<u128>, start: Timestamp) -> (r:
        Task)
        ensures
            r@ == started_view(id, project_id, title@, tag_ids@, start),
    {
        Task::new(
            id,
            project_id,
            title,
            tag_ids,
            DateTimeInterval { start_time: start, stop_time: None },
            0,
            TaskState::Active,
            None,
        )
    }

    /// A task that ran from `start` to `stop`.
    pub fn finished(
        id: u128,
        project_id: u128,
        title: &str,
        tag_ids: Vec<u128>,
        start: Timestamp,
        stop: Timestamp,
    ) -> (r: Task)
        ensures
            r@ == finished_view(id, project_id, title@, tag_ids@, start, stop),
    {
        Task::new(
            id,
            project_id,
            title,
            tag_ids,
            DateTimeInterval { start_time: start, stop_time: Some(stop) },
            0,
            TaskState::Stopped,
            None,
        )
    }

    /// The identifier.
    pub fn id(&self) -> (r: u128)
        ensures
            r == self@.id,
    {
        self.id_
    }

    /// The identifier of the project.
    pub fn project_id(&self) -> (r: u128)
        ensures
            r == self@.project_id,
    {
        self.project_id_
    }

    /// The title.
    pub fn title(&self) -> (r: &str)
        ensures
            r@ == self@.title,
    {
        self.title_.as_str()
    }

    /// The identifiers of the tags.
    pub fn tag_ids(&self) -> (r: &Vec<u128>)
        ensures
            r@ == self@.tag_ids,
    {
        &self.tag_ids_
    }

    /// From when to when the task runs.
    pub fn interval(&self) -> (r: DateTimeInterval)
        ensures
            r == self@.interval,
    {
        self.interval_
    }

    /// The accumulated pause, in milliseconds.
    pub fn paused_duration(&self) -> (r: i64)
        ensures
            r == self@.paused_duration,
    {
        self.paused_duration_
    }

    /// Where the task stands in its lifecycle.
    pub fn state(&self) -> (r: TaskState)
        ensures
            r == self@.state,
    {
        self.state_
    }

    /// When the pause began, while the task is paused.
    pub fn pause_started(&self) -> (r: Option<Timestamp>)
        ensures
            r == self@.pause_started,
    {
        self.pause_started_
    }

    /// Whether the task is the one being tracked.
    pub fn is_current(&self) -> (r: bool)
        ensures
            r == self@.is_current(),
    {
        self.state_ != TaskState::Stopped
    }

    /// Whether the task's fields fit together.
    pub fn is_valid(&self) -> (r: bool)
        ensures
            r == self@.valid(),
    {
        let stop_fits = match &self.interval_.stop_time {
            Some(stop) => self.state_ == TaskState::Stopped && self.interval_.start_time.timestamp_millis()
                <= stop.timestamp_millis(),
            None => self.state_ != TaskState::Stopped,
        };
        let pause_fits = match &self.pause_started_ {
            Some(_) => self.state_ == TaskState::Paused,
            None => self.state_ != TaskState::Paused,
        };
        stop_fits && pause_fits && -MAX_PAUSED <= self.paused_duration_ && self.paused_duration_
            <= MAX_PAUSED && distinct_ids(&self.tag_ids_)
    }

    /// The milliseconds of work on the task up to `now`, if that number can
    /// be held.
    pub fn worked_at(&self, now: &Timestamp) -> (r: Option<i64>)
        ensures
            match r {
                Some(d) => d == self@.worked(*now),
                None => !(i64::MIN <= self@.worked(*now) <= i64::MAX),
            },
    {
        let span = self.interval_.duration_at(now);
        span.checked_sub(self.paused_duration_)
    }

    /// The task set aside at `now`.
    pub fn paused_at(&self, now: Timestamp) -> (r: Task)
        ensures
            r@ == self@.paused(now),
    {
        Task {
            id_: self.id_,
            project_id_: self.project_id_,
            title_: self.title_.clone(),
            tag_ids_: copy_ids(&self.tag_ids_),
            interval_: self.interval_,
            paused_duration_: self.paused_duration_,
            state_: TaskState::Paused,
            pause_started_: Some(now),
        }
    }

    /// The task taken up again at `now`; none where the accumulated pause
    /// would leave its bounds.
    pub fn resumed_at(&self, now: Timestamp) -> (r: Option<Task>)
        requires
            self@.pause_started is Some,
            -MAX_PAUSED <= self@.paused_duration <= MAX_PAUSED,
        ensures
            r is Some <==> -MAX_PAUSED <= self@.resumed(now).paused_duration <= MAX_PAUSED,
            r matches Some(t) ==> t@ == self@.resumed(now),
    {
        let began = match &self.pause_started_ {
            Some(t) => *t,
            None => now,
        };
        let total: i64 = self.paused_duration_ + now.millis_since(&began);
        if -MAX_PAUSED <= total && total <= MAX_PAUSED {
            Some(
                Task {
                    id_: self.id_,
                    project_id_: self.project_id_,
                    title_: self.title_.clone(),
                    tag_ids_: copy_ids(&self.tag_ids_),
                    interval_: self.interval_,
                    paused_duration_: total,
                    state_: TaskState::Active,
                    pause_started_: None,
                },
            )
        } else {
            None
        }
    }

    /// The task under other tags.
    pub fn with_tag_ids(&self, tag_ids: Vec<u128>) -> (r: Task)
        ensures
            r@ == (TaskView { tag_ids: tag_ids@, ..self@ }),
    {
        Task {
            id_: self.id_,
            project_id_: self.project_id_,
            title_: self.title_.clone(),
            tag_ids_: tag_ids,
            interval_: self.interval_,
            paused_duration_: self.paused_duration_,
            state_: self.state_,
            pause_started_: self.pause_started_,
        }
    }

    /// The task finished at `now`.
    pub fn stopped_at(&self, now: Timestamp) -> (r: Task)
        ensures
            r@ == self@.stopped(now),
    {
        Task {
            id_: self.id_,
            project_id_: self.project_id_,
            title_: self.title_.clone(),
            tag_ids_: copy_ids(&self.tag_ids_),
            interval_: DateTimeInterval {
                start_time: self.interval_.start_time,
                stop_time: Some(now),
            },
            paused_duration_: self.paused_duration_,
            state_: TaskState::Stopped,
            pause_started_: None,
        }
    }
}

impl Entity for Task {
    open spec fn key(v: TaskView) -> u128 {
        v.id
    }

    fn entity_id(&self) -> (r: u128) {
        self.id_
    }

    fn same_as(&self, other: &Self) -> (r: bool) {
        let pause_same = match (&self.pause_started_, &other.pause_started_) {
            (Some(a), Some(b)) => a.same(b),
            (None, None) => true,
            _ => false,
        };
        self.id_ == other.id_ && self.project_id_ == other.project_id_ && self.title_
            == other.title_ && same_ids(&self.tag_ids_, &other.tag_ids_) && self.interval_.same(
            &other.interval_,
        ) && self.paused_duration_ == other.paused_duration_ && self.state_ == other.state_
            && pause_same
    }

    fn duplicate(&self) -> (r: Self) {
        Task {
            id_: self.id_,
            project_id_: self.project_id_,
            title_: self.title_.clone(),
            tag_ids_: copy_ids(&self.tag_ids_),
            interval_: self.interval_,
            paused_duration_: self.paused_duration_,
            state_: self.state_,
            pause_started_: self.pause_started_,
        }
    }
}

} // verus!
