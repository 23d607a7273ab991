use busy::category::Category;
use busy::error::Error;
use busy::ident::{find_candidates, resolve, short_id, starts_with};
use busy::store::{EntityClass, Snapshot, Store};
use busy::task::Task;
use busy::time::Timestamp;

const FIRST: u128 = 0xa1b2_c3d4_e5f6_0718_293a_4b5c_6d7e_8f90;
const SECOND: u128 = 0xa1c3_0000_0000_0000_0000_0000_0000_0001;

fn at(millis: i64) -> Timestamp {
    Timestamp::new(millis, 0).unwrap()
}

fn task(id: u128) -> Task {
    Task::finished(id, 1, "title", Vec::new(), at(0), at(1))
}

#[test]
fn short_id_that_fits_two_tasks_is_ambiguous() {
    let tasks = vec![task(FIRST), task(SECOND)];
    assert_eq!(resolve(&tasks, "a1"), Err(Error::Ambiguous(vec![FIRST, SECOND])));
}

#[test]
fn short_id_that_fits_one_task_resolves_to_it() {
    let tasks = vec![task(FIRST), task(SECOND)];
    assert_eq!(resolve(&tasks, "a1b"), Ok(FIRST));
    assert_eq!(resolve(&tasks, "a1c"), Ok(SECOND));
}

#[test]
fn short_id_that_fits_no_task_is_not_found() {
    let tasks = vec![task(FIRST), task(SECOND)];
    assert_eq!(resolve(&tasks, "b"), Err(Error::NotFound));
    assert_eq!(resolve(&tasks, "A1B"), Err(Error::NotFound));
    let none: Vec<Task> = Vec::new();
    assert_eq!(resolve(&none, ""), Err(Error::NotFound));
}

#[test]
fn full_text_resolves_with_its_hyphens() {
    let tasks = vec![task(FIRST), task(SECOND)];
    assert_eq!(resolve(&tasks, "a1b2c3d4-e5f6-0718-293a-4b5c6d7e8f90"), Ok(FIRST));
    assert_eq!(resolve(&tasks, "a1b2c3d4-e5f6-0718-293a-4b5c6d7e8f901"), Err(Error::NotFound));
    assert_eq!(resolve(&tasks, "a1b2c3d4e"), Err(Error::NotFound));
    assert_eq!(resolve(&tasks, "a1b2c3d4-e"), Ok(FIRST));
}

#[test]
fn empty_short_id_fits_everything() {
    let one = vec![task(FIRST)];
    assert_eq!(resolve(&one, ""), Ok(FIRST));
    let two = vec![task(FIRST), task(SECOND)];
    assert_eq!(resolve(&two, ""), Err(Error::Ambiguous(vec![FIRST, SECOND])));
}

#[test]
fn candidates_come_in_the_order_of_the_records() {
    let tasks = vec![task(SECOND), task(3), task(FIRST)];
    assert_eq!(find_candidates(&tasks, "a1"), vec![SECOND, FIRST]);
    assert_eq!(find_candidates(&tasks, "0000"), vec![3]);
}

#[test]
fn shortest_prefix_that_resolves_is_the_short_id() {
    let tasks = vec![task(FIRST), task(SECOND)];
    assert_eq!(short_id(&tasks, FIRST), Some("a1b".to_string()));
    assert_eq!(short_id(&tasks, SECOND), Some("a1c".to_string()));
    let alone = vec![task(FIRST)];
    assert_eq!(short_id(&alone, FIRST), Some("".to_string()));
    assert_eq!(short_id(&alone, SECOND), None);
}

#[test]
fn short_id_can_need_the_whole_text() {
    let near = FIRST ^ 1;
    let tasks = vec![task(FIRST), task(near)];
    assert_eq!(short_id(&tasks, FIRST), Some("a1b2c3d4-e5f6-0718-293a-4b5c6d7e8f90".to_string()));
    assert_eq!(short_id(&tasks, near), Some("a1b2c3d4-e5f6-0718-293a-4b5c6d7e8f91".to_string()));
}

#[test]
fn starts_with_compares_characters() {
    assert!(starts_with("héllo", "hé"));
    assert!(starts_with("abc", ""));
    assert!(starts_with("abc", "abc"));
    assert!(!starts_with("abc", "abcd"));
    assert!(!starts_with("abc", "b"));
}

#[test]
fn store_resolves_within_a_class_and_among_all() {
    let store = Store::from_snapshot(Snapshot {
        tasks: vec![task(FIRST)],
        projects: vec![Category::new(SECOND, "project")],
        tags: vec![Category::new(0xb000_0000_0000_0000_0000_0000_0000_0000, "tag")],
    })
    .unwrap();
    assert_eq!(store.resolve("a1", EntityClass::Task), Ok(FIRST));
    assert_eq!(store.resolve("a1", EntityClass::Project), Ok(SECOND));
    assert_eq!(store.resolve("a1", EntityClass::Tag), Err(Error::NotFound));
    assert_eq!(store.resolve("b", EntityClass::Tag), Ok(0xb000_0000_0000_0000_0000_0000_0000_0000));
    assert_eq!(store.resolve_id("a1"), Err(Error::Ambiguous(vec![FIRST, SECOND])));
    assert_eq!(store.resolve_id("a1c"), Ok(SECOND));
    assert_eq!(store.resolve_id("b0"), Ok(0xb000_0000_0000_0000_0000_0000_0000_0000));
    assert_eq!(store.resolve_id("c"), Err(Error::NotFound));
}
