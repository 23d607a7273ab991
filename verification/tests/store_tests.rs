use busy::category::Category;
use busy::entity::Entity;
use busy::error::Error;
use busy::store::{Snapshot, Store};
use busy::task::{Task, TaskState, MAX_PAUSED};
use busy::time::{DateTimeInterval, Timestamp};

fn at(millis: i64) -> Timestamp {
    Timestamp::new(millis, 0).unwrap()
}

fn names(list: &[&str]) -> Vec<String> {
    list.iter().map(|s| s.to_string()).collect()
}

fn started(store: &mut Store, id: u128, start: i64) -> Task {
    store
        .start_with("project", "title", &names(&["one", "two"]), at(start), id, 100, &vec![200, 201])
        .unwrap()
}

#[test]
fn category_keeps_what_it_is_given() {
    let c = Category::new(7, "work");
    assert_eq!(c.id(), 7);
    assert_eq!(c.name(), "work");
    assert_eq!(c.entity_id(), 7);
    assert!(c.same_as(&c.duplicate()));
    assert!(!c.same_as(&Category::new(7, "play")));
    assert!(!c.same_as(&Category::new(8, "work")));
}

#[test]
fn start_creates_project_tags_and_an_active_task() {
    let mut store = Store::new();
    let task = started(&mut store, 1, 1_000);
    assert_eq!(task.id(), 1);
    assert_eq!(task.project_id(), 100);
    assert_eq!(task.title(), "title");
    assert_eq!(task.tag_ids(), &vec![200, 201]);
    assert_eq!(task.state(), TaskState::Active);
    assert_eq!(task.paused_duration(), 0);
    assert_eq!(task.pause_started(), None);
    assert_eq!(task.interval(), DateTimeInterval { start_time: at(1_000), stop_time: None });
    assert_eq!(store.projects(), vec![Category::new(100, "project")]);
    assert_eq!(store.tags(), vec![Category::new(200, "one"), Category::new(201, "two")]);
    assert_eq!(store.all_tasks(), vec![task.clone()]);
    assert_eq!(store.active_task(), Some(task));
}

#[test]
fn start_reuses_projects_and_tags_by_name() {
    let mut store = Store::new();
    started(&mut store, 1, 1_000);
    store.stop_at(at(2_000)).unwrap();
    let task = store
        .start_with("project", "next", &names(&["two", "three", "two"]), at(3_000), 2, 101, &vec![
            300, 301, 302,
        ])
        .unwrap();
    assert_eq!(task.project_id(), 100);
    assert_eq!(task.tag_ids(), &vec![201, 301]);
    assert_eq!(store.projects().len(), 1);
    assert_eq!(
        store.tags(),
        vec![Category::new(200, "one"), Category::new(201, "two"), Category::new(301, "three")]
    );
}

#[test]
fn start_while_a_task_is_tracked_is_a_conflict() {
    let mut store = Store::new();
    started(&mut store, 1, 1_000);
    let before = store.snapshot();
    let again = store.start_with("other", "again", &names(&["x"]), at(2_000), 2, 101, &vec![300]);
    assert_eq!(again, Err(Error::Conflict));
    assert_eq!(store.snapshot(), before);
    store.pause_at(at(3_000)).unwrap();
    let paused = store.start_with("other", "again", &names(&[]), at(4_000), 2, 101, &vec![]);
    assert_eq!(paused, Err(Error::Conflict));
    assert_eq!(store.start("other", "again", Vec::new(), None), Err(Error::Conflict));
}

#[test]
fn start_refuses_identifiers_that_are_taken() {
    let mut store = Store::new();
    started(&mut store, 1, 1_000);
    store.stop_at(at(2_000)).unwrap();
    let before = store.snapshot();
    let same_task = store.start_with("project", "t", &names(&[]), at(3_000), 1, 101, &vec![]);
    assert_eq!(same_task, Err(Error::Validation));
    let same_project = store.start_with("new", "t", &names(&[]), at(3_000), 2, 100, &vec![]);
    assert_eq!(same_project, Err(Error::Validation));
    let same_tag = store.start_with("project", "t", &names(&["new"]), at(3_000), 2, 101, &vec![200]);
    assert_eq!(same_tag, Err(Error::Validation));
    let twice = store.start_with("project", "t", &names(&["a", "b"]), at(3_000), 2, 101, &vec![
        300, 300,
    ]);
    assert_eq!(twice, Err(Error::Validation));
    let short = store.start_with("project", "t", &names(&["a", "b"]), at(3_000), 2, 101, &vec![300]);
    assert_eq!(short, Err(Error::Validation));
    assert_eq!(store.snapshot(), before);
}

#[test]
fn stop_finishes_the_current_task() {
    let mut store = Store::new();
    started(&mut store, 1, 1_000);
    let task = store.stop_at(at(5_000)).unwrap();
    assert_eq!(task.state(), TaskState::Stopped);
    assert_eq!(task.interval(), DateTimeInterval { start_time: at(1_000), stop_time: Some(at(5_000)) });
    assert_eq!(store.active_task(), None);
    assert_eq!(store.task_by_id(1), Some(task));
}

#[test]
fn stop_without_a_current_task_is_not_found_and_changes_nothing() {
    let mut store = Store::new();
    assert_eq!(store.stop_at(at(1)), Err(Error::NotFound));
    assert_eq!(store.stop(), Err(Error::NotFound));
    started(&mut store, 1, 1_000);
    store.stop_at(at(2_000)).unwrap();
    let before = store.snapshot();
    assert_eq!(store.stop_at(at(3_000)), Err(Error::NotFound));
    assert_eq!(store.stop(), Err(Error::NotFound));
    assert_eq!(store.snapshot(), before);
}

#[test]
fn stop_before_the_start_is_invalid() {
    let mut store = Store::new();
    started(&mut store, 1, 1_000);
    let before = store.snapshot();
    assert_eq!(store.stop_at(at(999)), Err(Error::Validation));
    assert_eq!(store.snapshot(), before);
    assert!(store.stop_at(at(1_000)).is_ok());
}

#[test]
fn pause_needs_an_active_task() {
    let mut store = Store::new();
    assert_eq!(store.pause_at(at(1)), Err(Error::InvalidState));
    assert_eq!(store.pause(), Err(Error::InvalidState));
    started(&mut store, 1, 1_000);
    let paused = store.pause_at(at(2_000)).unwrap();
    assert_eq!(paused.state(), TaskState::Paused);
    assert_eq!(paused.pause_started(), Some(at(2_000)));
    assert_eq!(paused.interval().stop_time, None);
    let before = store.snapshot();
    assert_eq!(store.pause_at(at(3_000)), Err(Error::InvalidState));
    assert_eq!(store.snapshot(), before);
}

#[test]
fn resume_needs_a_paused_task() {
    let mut store = Store::new();
    assert_eq!(store.resume_at(at(1)), Err(Error::InvalidState));
    assert_eq!(store.resume(), Err(Error::InvalidState));
    started(&mut store, 1, 1_000);
    let before = store.snapshot();
    assert_eq!(store.resume_at(at(2_000)), Err(Error::InvalidState));
    assert_eq!(store.snapshot(), before);
}

#[test]
fn pauses_add_up_exactly() {
    let mut store = Store::new();
    started(&mut store, 1, 1_000);
    assert_eq!(store.active_task().unwrap().worked_at(&at(10_000)), Some(9_000));
    store.pause_at(at(2_000)).unwrap();
    let once = store.resume_at(at(2_500)).unwrap();
    assert_eq!(once.state(), TaskState::Active);
    assert_eq!(once.pause_started(), None);
    assert_eq!(once.paused_duration(), 500);
    assert_eq!(once.worked_at(&at(10_000)), Some(8_500));
    store.pause_at(at(3_000)).unwrap();
    let twice = store.resume_at(at(4_250)).unwrap();
    assert_eq!(twice.paused_duration(), 1_750);
    assert_eq!(twice.worked_at(&at(10_000)), Some(7_250));
    let done = store.stop_at(at(10_000)).unwrap();
    assert_eq!(done.paused_duration(), 1_750);
    assert_eq!(done.worked_at(&at(99_999)), Some(7_250));
}

#[test]
fn resume_keeps_the_accumulated_pause_within_bounds() {
    let mut store = Store::new();
    let nearly = Task::new(
        1,
        2,
        "t",
        Vec::new(),
        DateTimeInterval { start_time: at(0), stop_time: None },
        MAX_PAUSED - 10,
        TaskState::Paused,
        Some(at(100)),
    );
    store.replace_tasks(vec![nearly]).unwrap();
    let before = store.snapshot();
    assert_eq!(store.resume_at(at(111)), Err(Error::Validation));
    assert_eq!(store.snapshot(), before);
    assert_eq!(store.resume_at(at(110)).unwrap().paused_duration(), MAX_PAUSED);
}

#[test]
fn stopping_a_paused_task_forgets_when_the_pause_began() {
    let mut store = Store::new();
    started(&mut store, 1, 1_000);
    store.pause_at(at(2_000)).unwrap();
    let done = store.stop_at(at(3_000)).unwrap();
    assert_eq!(done.state(), TaskState::Stopped);
    assert_eq!(done.pause_started(), None);
    assert_eq!(done.paused_duration(), 0);
    assert!(done.is_valid());
}

#[test]
fn continue_starts_a_sibling_of_a_stopped_task() {
    let mut store = Store::new();
    started(&mut store, 1, 1_000);
    assert_eq!(store.continue_task_with(1, at(1_500), 2), Err(Error::Conflict));
    store.stop_at(at(2_000)).unwrap();
    let again = store.continue_task_with(1, at(3_000), 2).unwrap();
    assert_eq!(again.id(), 2);
    assert_eq!(again.project_id(), 100);
    assert_eq!(again.title(), "title");
    assert_eq!(again.tag_ids(), &vec![200, 201]);
    assert_eq!(again.state(), TaskState::Active);
    assert_eq!(again.interval(), DateTimeInterval { start_time: at(3_000), stop_time: None });
    assert_eq!(store.task_by_id(1).unwrap().state(), TaskState::Stopped);
    assert_eq!(store.all_tasks().len(), 2);
}

#[test]
fn continue_fails_without_the_task_or_with_a_taken_identifier() {
    let mut store = Store::new();
    assert_eq!(store.continue_task_with(1, at(0), 2), Err(Error::NotFound));
    assert_eq!(store.continue_task(1), Err(Error::NotFound));
    started(&mut store, 1, 1_000);
    store.stop_at(at(2_000)).unwrap();
    let before = store.snapshot();
    assert_eq!(store.continue_task_with(9, at(3_000), 2), Err(Error::NotFound));
    assert_eq!(store.continue_task_with(1, at(3_000), 1), Err(Error::Validation));
    assert_eq!(store.snapshot(), before);
    let again = store.continue_task(1).unwrap();
    assert_ne!(again.id(), 1);
    assert_eq!(again.title(), "title");
}

#[test]
fn add_records_a_finished_task_beside_the_current_one() {
    let mut store = Store::new();
    started(&mut store, 1, 10_000);
    let added = store
        .add_with("past", "earlier", &names(&["one"]), at(1_000), at(2_000), 2, 101, &vec![300])
        .unwrap();
    assert_eq!(added.state(), TaskState::Stopped);
    assert_eq!(added.project_id(), 101);
    assert_eq!(added.tag_ids(), &vec![200]);
    assert_eq!(added.interval(), DateTimeInterval { start_time: at(1_000), stop_time: Some(at(2_000)) });
    assert_eq!(store.active_task().unwrap().id(), 1);
    assert_eq!(store.all_tasks().len(), 2);
}

#[test]
fn add_refuses_a_finish_before_the_start() {
    let mut store = Store::new();
    let before = store.snapshot();
    let r = store.add_with("p", "t", &names(&[]), at(2_000), at(1_999), 1, 100, &vec![]);
    assert_eq!(r, Err(Error::Validation));
    assert_eq!(store.add("p", "t", Vec::new(), at(2_000), at(1_999)), Err(Error::Validation));
    assert_eq!(store.snapshot(), before);
    assert!(store.add_with("p", "t", &names(&[]), at(2_000), at(2_000), 1, 100, &vec![]).is_ok());
    assert!(store.add("p", "u", names(&["x"]), at(2_000), at(3_000)).is_ok());
    assert_eq!(store.projects().len(), 1);
    assert_eq!(store.tags().len(), 1);
}

#[test]
fn start_with_the_clock_and_random_identifiers() {
    let mut store = Store::new();
    let task = store.start("p", "t", names(&["a", "b"]), None).unwrap();
    assert_eq!(task.state(), TaskState::Active);
    assert_eq!(task.tag_ids().len(), 2);
    assert!(task.interval().start_time.timestamp_millis() > 1_600_000_000_000);
    let done = store.stop().unwrap();
    assert!(done.interval().stop_time.unwrap().timestamp_millis() >= task.interval().start_time.timestamp_millis());
    let given = store.start("p", "u", names(&["a"]), Some(at(5))).unwrap();
    assert_eq!(given.interval().start_time, at(5));
    assert_eq!(given.project_id(), task.project_id());
    assert_ne!(given.id(), task.id());
    let paused = store.pause().unwrap();
    assert_eq!(paused.state(), TaskState::Paused);
    let resumed = store.resume().unwrap();
    assert_eq!(resumed.state(), TaskState::Active);
    assert!(resumed.paused_duration() >= 0);
}

#[test]
fn remove_takes_the_task_out() {
    let mut store = Store::new();
    started(&mut store, 1, 1_000);
    assert_eq!(store.remove_task(2), Err(Error::NotFound));
    let removed = store.remove_task(1).unwrap();
    assert_eq!(removed.id(), 1);
    assert_eq!(store.all_tasks(), Vec::<Task>::new());
    assert_eq!(store.active_task(), None);
    assert_eq!(store.task_by_id(1), None);
    assert_eq!(store.remove_task(1), Err(Error::NotFound));
    assert_eq!(store.tags().len(), 2);
}

#[test]
fn replace_task_keeps_the_rules() {
    let mut store = Store::new();
    started(&mut store, 1, 1_000);
    store.stop_at(at(2_000)).unwrap();
    started(&mut store, 2, 3_000);
    let before = store.snapshot();
    let unknown = Task::finished(9, 100, "x", Vec::new(), at(0), at(1));
    assert_eq!(store.replace_task(&unknown), Err(Error::NotFound));
    let second_current = Task::started(1, 100, "x", Vec::new(), at(0));
    assert_eq!(store.replace_task(&second_current), Err(Error::Conflict));
    let backwards = Task::finished(1, 100, "x", Vec::new(), at(5), at(4));
    assert_eq!(store.replace_task(&backwards), Err(Error::Validation));
    let twice_tagged = Task::finished(1, 100, "x", vec![200, 200], at(4), at(5));
    assert_eq!(store.replace_task(&twice_tagged), Err(Error::Validation));
    assert_eq!(store.snapshot(), before);
    let retitled = Task::finished(1, 100, "new title", vec![201], at(500), at(900));
    let was = store.replace_task(&retitled).unwrap();
    assert_eq!(was.title(), "title");
    assert_eq!(store.task_by_id(1), Some(retitled));
    let still_current = Task::started(2, 100, "edited", Vec::new(), at(2_500));
    assert!(store.replace_task(&still_current).is_ok());
    assert_eq!(store.active_task(), Some(still_current));
}

#[test]
fn replace_task_may_reopen_a_task_when_none_is_tracked() {
    let mut store = Store::new();
    started(&mut store, 1, 1_000);
    store.stop_at(at(2_000)).unwrap();
    let reopened = Task::started(1, 100, "title", Vec::new(), at(1_000));
    assert!(store.replace_task(&reopened).is_ok());
    assert_eq!(store.active_task(), Some(reopened));
}

#[test]
fn renaming_a_tag_is_seen_through_every_task() {
    let mut store = Store::new();
    let task = started(&mut store, 1, 1_000);
    let was = store.replace_tag(&Category::new(200, "uno")).unwrap();
    assert_eq!(was, Category::new(200, "one"));
    assert_eq!(store.tag_by_id(200), Some(Category::new(200, "uno")));
    assert_eq!(store.tag_by_name("one"), None);
    assert_eq!(store.tag_by_name("uno"), Some(Category::new(200, "uno")));
    assert_eq!(store.task_by_id(1), Some(task));
}

#[test]
fn replace_tag_and_project_keep_names_unique() {
    let mut store = Store::new();
    started(&mut store, 1, 1_000);
    let before = store.snapshot();
    assert_eq!(store.replace_tag(&Category::new(200, "two")), Err(Error::Validation));
    assert_eq!(store.replace_tag(&Category::new(999, "new")), Err(Error::NotFound));
    assert_eq!(store.replace_project(&Category::new(999, "new")), Err(Error::NotFound));
    assert_eq!(store.snapshot(), before);
    assert!(store.replace_tag(&Category::new(200, "one")).is_ok());
    assert!(store.replace_project(&Category::new(100, "renamed")).is_ok());
    assert_eq!(store.project_by_name("renamed"), Some(Category::new(100, "renamed")));
    assert_eq!(store.project_by_id(100), Some(Category::new(100, "renamed")));
    assert_eq!(store.project_by_name("project"), None);
    assert_eq!(store.project_by_name("Renamed"), None);
}

#[test]
fn replace_all_tags_or_tasks_checks_them_first() {
    let mut store = Store::new();
    started(&mut store, 1, 1_000);
    let before = store.snapshot();
    let same_id = vec![Category::new(1, "a"), Category::new(1, "b")];
    assert_eq!(store.replace_tags(same_id), Err(Error::Validation));
    let same_name = vec![Category::new(1, "a"), Category::new(2, "a")];
    assert_eq!(store.replace_tags(same_name), Err(Error::Validation));
    let two_current =
        vec![Task::started(1, 1, "a", Vec::new(), at(0)), Task::started(2, 1, "b", Vec::new(), at(0))];
    assert_eq!(store.replace_tasks(two_current), Err(Error::Validation));
    let same_task = vec![
        Task::finished(1, 1, "a", Vec::new(), at(0), at(1)),
        Task::finished(1, 1, "b", Vec::new(), at(0), at(1)),
    ];
    assert_eq!(store.replace_tasks(same_task), Err(Error::Validation));
    assert_eq!(store.snapshot(), before);
    assert!(store.replace_tags(vec![Category::new(1, "a"), Category::new(2, "b")]).is_ok());
    assert_eq!(store.all_tags(), vec![Category::new(1, "a"), Category::new(2, "b")]);
    assert!(store.replace_tasks(Vec::new()).is_ok());
    assert_eq!(store.all_tasks().len(), 0);
}

#[test]
fn tags_are_found_by_names_in_the_order_of_the_store() {
    let mut store = Store::new();
    started(&mut store, 1, 1_000);
    assert_eq!(
        store.find_tag_by_names(&names(&["two", "missing", "one", "two"])),
        vec![Category::new(200, "one"), Category::new(201, "two")]
    );
    assert_eq!(store.find_tag_by_names(&names(&["missing"])), Vec::<Category>::new());
}

#[test]
fn snapshot_loaded_again_is_the_same_store() {
    let mut store = Store::new();
    started(&mut store, 1, 1_000);
    store.pause_at(at(2_000)).unwrap();
    let snapshot = store.snapshot();
    assert!(snapshot.is_valid());
    let mut other = Store::new();
    assert_eq!(other.load(snapshot.duplicate()), Ok(()));
    assert_eq!(other, store);
    assert_eq!(other.snapshot(), snapshot);
    assert!(other.snapshot().same(&snapshot));
    assert_eq!(Store::from_snapshot(snapshot), Ok(store));
}

#[test]
fn corrupted_snapshot_leaves_the_store_untouched() {
    let mut store = Store::new();
    started(&mut store, 1, 1_000);
    let before = store.snapshot();
    let two_current = Snapshot {
        tasks: vec![Task::started(1, 1, "a", Vec::new(), at(0)), Task::started(2, 1, "b", Vec::new(), at(0))],
        projects: Vec::new(),
        tags: Vec::new(),
    };
    assert!(!two_current.is_valid());
    assert_eq!(store.load(two_current.duplicate()), Err(Error::Corruption));
    assert_eq!(Store::from_snapshot(two_current), Err(Error::Corruption));
    let same_name = Snapshot {
        tasks: Vec::new(),
        projects: vec![Category::new(1, "a"), Category::new(2, "a")],
        tags: Vec::new(),
    };
    assert_eq!(store.load(same_name), Err(Error::Corruption));
    let stopped_without_stop = Snapshot {
        tasks: vec![Task::new(
            1,
            1,
            "a",
            Vec::new(),
            DateTimeInterval { start_time: at(0), stop_time: None },
            0,
            TaskState::Stopped,
            None,
        )],
        projects: Vec::new(),
        tags: Vec::new(),
    };
    assert_eq!(store.load(stopped_without_stop), Err(Error::Corruption));
    assert_eq!(store.snapshot(), before);
}

#[test]
fn every_error_has_a_message() {
    let all = vec![
        Error::Conflict,
        Error::InvalidState,
        Error::NotFound,
        Error::Ambiguous(vec![1, 2]),
        Error::Validation,
        Error::Corruption,
        Error::MergeConflict(1),
        Error::PushFailed,
        Error::Transport,
        Error::NotConfigured,
        Error::NotPersisted,
    ];
    for e in all.iter() {
        assert!(!e.message().is_empty());
    }
    assert_ne!(Error::PushFailed.message(), Error::Transport.message());
}
