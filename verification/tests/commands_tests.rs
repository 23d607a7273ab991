use busy::category::Category;
use busy::commands::{
    add_task, continue_task, extract_tags, projects_to_ids_set, remove_task,
    restore_id_by_short_id, show_tasks, start_task, strip_plus, Add, Continue, Edit, Log,
    LogCommonParams, Remove, Start, Stat, Sync, Today,
};
use busy::edit::{plan_edits, tag_names, EditTarget, Editable, TaskDraft};
use busy::error::Error;
use busy::store::{Snapshot, Store};
use busy::sync::SyncMode;
use busy::task::{Task, TaskState};
use busy::time::{Period, Timestamp};

const A: u128 = 0xa1b2_0000_0000_0000_0000_0000_0000_0000;
const B: u128 = 0xa1c3_0000_0000_0000_0000_0000_0000_0000;
const P: u128 = 0x1000_0000_0000_0000_0000_0000_0000_0000;
const Q: u128 = 0x2000_0000_0000_0000_0000_0000_0000_0000;
const T: u128 = 0x3000_0000_0000_0000_0000_0000_0000_0000;
const U: u128 = 0x4000_0000_0000_0000_0000_0000_0000_0000;

fn at(millis: i64) -> Timestamp {
    Timestamp::new(millis, 0).unwrap()
}

fn names(list: &[&str]) -> Vec<String> {
    list.iter().map(|s| s.to_string()).collect()
}

fn store() -> Store {
    Store::from_snapshot(Snapshot {
        tasks: vec![
            Task::finished(A, P, "first", vec![T], at(1_000), at(2_000)),
            Task::finished(B, Q, "second", vec![T, U], at(5_000), at(6_000)),
        ],
        projects: vec![Category::new(P, "home"), Category::new(Q, "work")],
        tags: vec![Category::new(T, "deep"), Category::new(U, "call")],
    })
    .unwrap()
}

fn params(project: &[&str], tag: &[&str]) -> LogCommonParams {
    LogCommonParams { dont_clear: false, project: names(project), tag: names(tag), full: true }
}

#[test]
fn sync_flags_choose_the_mode() {
    assert_eq!(Sync { push_force: false, pull_force: false }.mode(), SyncMode::Merge);
    assert_eq!(Sync { push_force: true, pull_force: false }.mode(), SyncMode::PushForce);
    assert_eq!(Sync { push_force: false, pull_force: true }.mode(), SyncMode::PullForce);
    assert_eq!(Sync { push_force: true, pull_force: true }.mode(), SyncMode::PushForce);
}

#[test]
fn tags_lose_their_plus_sign() {
    assert_eq!(strip_plus("+deep"), "deep");
    assert_eq!(strip_plus("deep"), "deep");
    assert_eq!(strip_plus("++deep"), "+deep");
    assert_eq!(strip_plus("+"), "");
    assert_eq!(strip_plus(""), "");
    assert_eq!(strip_plus("de+ep"), "de+ep");
    assert_eq!(extract_tags(&names(&["+a", "b", "+"])), names(&["a", "b", ""]));
    assert_eq!(extract_tags(&Vec::new()), Vec::<String>::new());
}

#[test]
fn project_names_become_a_set_of_identifiers() {
    let store = store();
    let both = projects_to_ids_set(&store, &names(&["work", "missing", "home", "work"])).unwrap();
    assert_eq!(both.len(), 2);
    assert!(both.contains(&P) && both.contains(&Q));
    let one = projects_to_ids_set(&store, &names(&["work"])).unwrap();
    assert_eq!(one.len(), 1);
    assert!(one.contains(&Q));
    assert_eq!(projects_to_ids_set(&store, &names(&["missing"])), None);
    assert_eq!(projects_to_ids_set(&store, &Vec::new()), None);
}

#[test]
fn listing_is_narrowed_by_period_project_and_tag() {
    let store = store();
    let all = Period { from: at(0), to: at(10_000) };
    let shown = show_tasks(&params(&[], &[]), &store, &all);
    assert!(shown.clear_screen);
    assert!(shown.full);
    assert_eq!(shown.tasks.len(), 2);
    let late = Period { from: at(5_000), to: at(10_000) };
    assert_eq!(show_tasks(&params(&[], &[]), &store, &late).tasks, vec![store.task_by_id(B).unwrap()]);
    let early = Period { from: at(0), to: at(1_000) };
    assert_eq!(show_tasks(&params(&[], &[]), &store, &early).tasks, vec![store.task_by_id(A).unwrap()]);
    assert_eq!(show_tasks(&params(&["home"], &[]), &store, &all).tasks, vec![store.task_by_id(A).unwrap()]);
    assert_eq!(show_tasks(&params(&["missing"], &[]), &store, &all).tasks.len(), 2);
    assert_eq!(show_tasks(&params(&[], &["call"]), &store, &all).tasks, vec![store.task_by_id(B).unwrap()]);
    assert_eq!(show_tasks(&params(&[], &["deep"]), &store, &all).tasks.len(), 2);
    assert_eq!(show_tasks(&params(&["home"], &["call"]), &store, &all).tasks.len(), 0);
    let quiet = LogCommonParams { dont_clear: true, project: Vec::new(), tag: Vec::new(), full: false };
    let listing = show_tasks(&quiet, &store, &all);
    assert!(!listing.clear_screen);
    assert!(!listing.full);
}

#[test]
fn listing_commands_name_their_period() {
    let common = params(&[], &[]);
    let today = Today { log_params: common.clone() }.period().unwrap();
    assert!(today.to.millis_since(&today.from) < 86_400_000);
    let log = Log { days: Some(1), today: false, log_params: common.clone() }.period().unwrap();
    assert!(log.to.millis_since(&log.from) >= 86_400_000);
    let stat = Stat { days: Some(1), today: true, with_tags: false, log_params: common }.period().unwrap();
    assert!(stat.to.millis_since(&stat.from) < 86_400_000);
}

#[test]
fn short_ids_are_restored_among_all_records() {
    let store = store();
    assert_eq!(restore_id_by_short_id(&store, "a1b"), Ok(A));
    assert_eq!(restore_id_by_short_id(&store, "a1"), Err(Error::Ambiguous(vec![A, B])));
    assert_eq!(restore_id_by_short_id(&store, "3"), Ok(T));
    assert_eq!(restore_id_by_short_id(&store, "f"), Err(Error::NotFound));
}

#[test]
fn start_command_reads_its_time() {
    let mut store = store();
    let bad = Start {
        project_name: "home".to_string(),
        task_title: "t".to_string(),
        tags: names(&["deep"]),
        start_time: Some("soon".to_string()),
    };
    let before = store.snapshot();
    assert_eq!(start_task(&mut store, &bad), Err(Error::Validation));
    assert_eq!(store.snapshot(), before);
    let good = Start { start_time: Some("2020-01-01 00:00".to_string()), ..bad.clone() };
    let task = start_task(&mut store, &good).unwrap();
    assert_eq!(task.state(), TaskState::Active);
    assert_eq!(task.project_id(), P);
    assert_eq!(task.tag_ids(), &vec![T]);
    let now = Start { start_time: None, ..bad };
    assert_eq!(start_task(&mut store, &now), Err(Error::Conflict));
}

#[test]
fn add_command_reads_both_times() {
    let mut store = store();
    let add = Add {
        project_name: "new".to_string(),
        task_title: "t".to_string(),
        tags: Vec::new(),
        start_time: "2020-01-01 10:00".to_string(),
        finish_time: "2020-01-01 11:30".to_string(),
    };
    let task = add_task(&mut store, &add).unwrap();
    assert_eq!(task.state(), TaskState::Stopped);
    assert_eq!(task.interval().duration_at(&at(0)), 90 * 60 * 1_000);
    assert_eq!(store.projects().len(), 3);
    let backwards = Add { finish_time: "2020-01-01 09:00".to_string(), ..add.clone() };
    assert_eq!(add_task(&mut store, &backwards), Err(Error::Validation));
    let unreadable = Add { start_time: "x".to_string(), ..add };
    assert_eq!(add_task(&mut store, &unreadable), Err(Error::Validation));
    assert_eq!(store.all_tasks().len(), 3);
}

#[test]
fn continue_and_remove_commands_resolve_their_short_id() {
    let mut store = store();
    let ambiguous = Continue { short_task_id: "a1".to_string() };
    assert_eq!(continue_task(&mut store, &ambiguous), Err(Error::Ambiguous(vec![A, B])));
    let task = continue_task(&mut store, &Continue { short_task_id: "a1c".to_string() }).unwrap();
    assert_eq!(task.title(), "second");
    assert_eq!(task.state(), TaskState::Active);
    assert_eq!(remove_task(&mut store, &Remove { short_task_id: "zz".to_string() }), Err(Error::NotFound));
    let a_tag = Remove { short_task_id: "30000000-0000-0".to_string() };
    assert_eq!(remove_task(&mut store, &a_tag), Err(Error::NotFound));
    let removed = remove_task(&mut store, &Remove { short_task_id: "a1b20000-0000-0".to_string() }).unwrap();
    assert_eq!(removed.id(), A);
    assert_eq!(store.task_by_id(A), None);
    assert_eq!(store.all_tasks().len(), 2);
}

#[test]
fn edit_command_is_planned_in_order() {
    let store = store();
    let nothing = Edit { all: false, all_tags: false, task_id: None, project_id: None, tag_id: None };
    assert_eq!(plan_edits(&nothing, &store), Ok(Vec::new()));
    let all_tags = Edit { all: true, all_tags: true, task_id: Some(names(&["zz"])), ..nothing.clone() };
    assert_eq!(plan_edits(&all_tags, &store), Ok(vec![EditTarget::AllTags]));
    let all = Edit { all: true, ..nothing.clone() };
    assert_eq!(plan_edits(&all, &store), Ok(vec![EditTarget::AllTasks]));
    let some = Edit {
        task_id: Some(names(&["a1c", "a1b"])),
        project_id: Some(names(&["1"])),
        tag_id: Some(names(&["4", "3"])),
        ..nothing.clone()
    };
    assert_eq!(
        plan_edits(&some, &store),
        Ok(vec![
            EditTarget::Task(B),
            EditTarget::Task(A),
            EditTarget::Project(P),
            EditTarget::Tag(U),
            EditTarget::Tag(T)
        ])
    );
    let unknown = Edit { tag_id: Some(names(&["9"])), ..nothing.clone() };
    assert_eq!(plan_edits(&unknown, &store), Err(Error::NotFound));
    let ambiguous = Edit { task_id: Some(names(&["a1"])), ..nothing };
    assert_eq!(plan_edits(&ambiguous, &store), Err(Error::Ambiguous(vec![A, B])));
}

#[test]
fn task_is_edited_with_the_names_of_its_tags() {
    let mut store = store();
    assert_eq!(tag_names(&store.tags(), &vec![U, 99, T]), names(&["call", "deep"]));
    let subject = store.edit_subject(EditTarget::Task(B)).unwrap();
    let expected = TaskDraft { task: store.task_by_id(B).unwrap(), tags: names(&["deep", "call"]) };
    assert_eq!(subject, Editable::Task(expected));
    assert_eq!(store.edit_subject(EditTarget::Task(99)), Err(Error::NotFound));
    let edited = Editable::Task(TaskDraft {
        task: Task::finished(B, Q, "second, edited", Vec::new(), at(5_000), at(7_000)),
        tags: names(&["call", "fresh"]),
    });
    assert_eq!(store.apply_edit_with(edited, &vec![500, 501]), Ok(()));
    assert_eq!(
        store.task_by_id(B),
        Some(Task::finished(B, Q, "second, edited", vec![U, 501], at(5_000), at(7_000)))
    );
    assert_eq!(store.tag_by_name("fresh"), Some(Category::new(501, "fresh")));
}

#[test]
fn edit_that_fails_changes_nothing() {
    let mut store = store();
    let before = store.snapshot();
    let backwards = Editable::Task(TaskDraft {
        task: Task::finished(B, Q, "x", Vec::new(), at(5_000), at(4_000)),
        tags: names(&["brand new"]),
    });
    assert_eq!(store.apply_edit_with(backwards, &vec![500]), Err(Error::Validation));
    let unknown = Editable::Task(TaskDraft {
        task: Task::finished(99, Q, "x", Vec::new(), at(5_000), at(6_000)),
        tags: names(&["brand new"]),
    });
    assert_eq!(store.apply_edit_with(unknown, &vec![500]), Err(Error::NotFound));
    let taken = Editable::Task(TaskDraft {
        task: Task::finished(B, Q, "x", Vec::new(), at(5_000), at(6_000)),
        tags: names(&["brand new"]),
    });
    assert_eq!(store.apply_edit_with(taken, &vec![T]), Err(Error::Validation));
    assert_eq!(store.snapshot(), before);
}

#[test]
fn projects_tags_and_whole_lists_are_edited() {
    let mut store = store();
    assert_eq!(store.edit_subject(EditTarget::Project(P)), Ok(Editable::Project(Category::new(P, "home"))));
    assert_eq!(store.edit_subject(EditTarget::Tag(U)), Ok(Editable::Tag(Category::new(U, "call"))));
    assert_eq!(store.edit_subject(EditTarget::Tag(P)), Err(Error::NotFound));
    assert_eq!(store.edit_subject(EditTarget::AllTags), Ok(Editable::AllTags(store.all_tags())));
    assert_eq!(store.edit_subject(EditTarget::AllTasks), Ok(Editable::AllTasks(store.all_tasks())));
    assert_eq!(store.apply_edit(Editable::Project(Category::new(P, "house"))), Ok(()));
    assert_eq!(store.apply_edit(Editable::Tag(Category::new(U, "deep"))), Err(Error::Validation));
    assert_eq!(store.apply_edit(Editable::Tag(Category::new(U, "meeting"))), Ok(()));
    assert_eq!(store.apply_edit(Editable::AllTags(vec![Category::new(T, "only")])), Ok(()));
    assert_eq!(store.apply_edit(Editable::AllTasks(Vec::new())), Ok(()));
    assert_eq!(store.project_by_name("house"), Some(Category::new(P, "house")));
    assert_eq!(store.all_tags(), vec![Category::new(T, "only")]);
    assert_eq!(store.all_tasks().len(), 0);
    let named = Editable::Task(TaskDraft {
        task: Task::finished(B, Q, "x", Vec::new(), at(5_000), at(6_000)),
        tags: names(&["made"]),
    });
    assert_eq!(store.apply_edit(named), Err(Error::NotFound));
    assert_eq!(store.all_tags().len(), 1);
}
