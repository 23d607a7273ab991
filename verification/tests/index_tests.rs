use busy::category::{find_named, names_are_distinct, Category};
use busy::entity::{copy_all, find, keys_are_distinct, same_all};
use busy::error::Error;
use busy::index::{find_by_index, Index};
use busy::merge::{get, get_indexed};
use busy::store::{EntityClass, Snapshot, Store};
use busy::task::{copy_ids, distinct_ids, holds_id, same_ids, Task};
use busy::time::Timestamp;

fn at(millis: i64) -> Timestamp {
    Timestamp::new(millis, 0).unwrap()
}

fn list() -> Vec<Category> {
    vec![Category::new(5, "five"), Category::new(3, "three"), Category::new(5, "again"), Category::new(9, "nine")]
}

#[test]
fn index_holds_the_first_position_of_each_identifier() {
    let index = Index::build(&list());
    assert_eq!(index.find(5), Some(0));
    assert_eq!(index.find(3), Some(1));
    assert_eq!(index.find(9), Some(3));
    assert_eq!(index.find(4), None);
    assert_eq!(Index::new().find(5), None);
    assert_eq!(Index::build(&Vec::<Category>::new()), Index::new());
}

#[test]
fn index_notes_a_new_position() {
    let mut index = Index::build(&list());
    index.note(7, 4);
    assert_eq!(index.find(7), Some(4));
    assert_eq!(index.find(3), Some(1));
}

#[test]
fn lookup_through_the_index_agrees_with_the_search() {
    let records = list();
    let index = Index::build(&records);
    for id in 0..12u128 {
        assert_eq!(find_by_index(&index, &records, id), find(&records, id));
        assert_eq!(get_indexed(&index, &records, id), get(&records, id));
    }
    assert_eq!(get(&records, 5), Some(&Category::new(5, "five")));
    assert_eq!(find_named(&records, "again"), Some(2));
    assert_eq!(find_named(&records, "Again"), None);
}

#[test]
fn lists_are_compared_and_copied_by_value() {
    let records = list();
    assert!(same_all(&records, &copy_all(&records)));
    assert_eq!(copy_all(&records), records);
    assert!(!same_all(&records, &records[..3].to_vec()));
    assert!(!keys_are_distinct(&records));
    assert!(keys_are_distinct(&records[1..].to_vec()));
    assert!(names_are_distinct(&records));
    assert!(!names_are_distinct(&vec![Category::new(1, "a"), Category::new(2, "a")]));
    assert!(same_ids(&vec![1, 2], &copy_ids(&vec![1, 2])));
    assert!(!same_ids(&vec![1, 2], &vec![2, 1]));
    assert!(!same_ids(&vec![1, 2], &vec![1]));
    assert!(holds_id(&vec![1, 2], 2));
    assert!(!holds_id(&vec![1, 2], 3));
    assert!(distinct_ids(&vec![1, 2, 3]));
    assert!(!distinct_ids(&vec![1, 2, 1]));
    assert!(distinct_ids(&Vec::new()));
}

#[test]
fn store_keeps_its_indexes_in_step() {
    let mut store = Store::new();
    let names: Vec<String> = vec!["a".to_string()];
    store.start_with("p", "one", &names, at(0), 1, 10, &vec![20]).unwrap();
    store.stop_at(at(10)).unwrap();
    store.start_with("q", "two", &names, at(20), 2, 11, &vec![21]).unwrap();
    store.stop_at(at(30)).unwrap();
    store.continue_task_with(1, at(40), 3).unwrap();
    assert_eq!(store.task_by_id(3).unwrap().title(), "one");
    assert_eq!(store.project_by_id(11).unwrap().name(), "q");
    assert_eq!(store.tag_by_id(20).unwrap().name(), "a");
    assert_eq!(store.tag_by_id(21), None);
    store.remove_task(1).unwrap();
    assert_eq!(store.task_by_id(1), None);
    assert_eq!(store.task_by_id(2).unwrap().title(), "two");
    assert_eq!(store.task_by_id(3).unwrap().title(), "one");
    assert_eq!(store.remove_task(1), Err(Error::NotFound));
    store.replace_tags(vec![Category::new(30, "z"), Category::new(20, "a")]).unwrap();
    assert_eq!(store.tag_by_id(20).unwrap().name(), "a");
    assert_eq!(store.tag_by_id(30).unwrap().name(), "z");
    store.replace_tag(&Category::new(20, "b")).unwrap();
    assert_eq!(store.tag_by_id(20).unwrap().name(), "b");
    let renamed = Task::finished(2, 11, "two", Vec::new(), at(20), at(30));
    store.replace_task_named(&renamed, &vec!["c".to_string()], &vec![40]).unwrap();
    assert_eq!(store.tag_by_id(40).unwrap().name(), "c");
    assert_eq!(store.task_by_id(2).unwrap().tag_ids(), &vec![40]);
    let failed = store.replace_task_named(&Task::finished(9, 11, "x", Vec::new(), at(0), at(1)), &vec![
        "d".to_string(),
    ], &vec![41]);
    assert_eq!(failed, Err(Error::NotFound));
    assert_eq!(store.tag_by_id(41), None);
    assert_eq!(store.tag_by_id(40).unwrap().name(), "c");
    let copy = Store::from_snapshot(store.snapshot()).unwrap();
    assert_eq!(copy, store);
    store.load(Snapshot::new()).unwrap();
    assert_eq!(store.task_by_id(2), None);
    assert_eq!(store, Store::new());
}

#[test]
fn records_are_looked_up_by_name() {
    let mut store = Store::new();
    store.start_with("p", "one", &vec!["a".to_string()], at(0), 1, 10, &vec![20]).unwrap();
    store.stop_at(at(10)).unwrap();
    store.add_with("p", "one", &Vec::new(), at(0), at(5), 2, 11, &Vec::new()).unwrap();
    assert_eq!(store.lookup_by_name("one", EntityClass::Task), Some(1));
    assert_eq!(store.lookup_by_name("two", EntityClass::Task), None);
    assert_eq!(store.lookup_by_name("p", EntityClass::Project), Some(10));
    assert_eq!(store.lookup_by_name("a", EntityClass::Project), None);
    assert_eq!(store.lookup_by_name("a", EntityClass::Tag), Some(20));
    assert_eq!(store.lookup_by_name("A", EntityClass::Tag), None);
    assert_eq!(store.short_id(1, EntityClass::Task), Some("00000000-0000-0000-0000-000000000001".to_string()));
    assert_eq!(store.short_id(10, EntityClass::Project), Some("".to_string()));
    assert_eq!(store.short_id(99, EntityClass::Tag), None);
}
