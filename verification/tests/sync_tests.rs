use busy::category::Category;
use busy::codec::snapshot::{decode, encode};
use busy::error::Error;
use busy::merge::{merge, merge_records, settle_record};
use busy::store::{Snapshot, Store};
use busy::sync::{SyncAction, SyncEngine, SyncEvent, SyncMode};
use busy::task::Task;
use busy::time::Timestamp;

fn at(millis: i64) -> Timestamp {
    Timestamp::new(millis, 0).unwrap()
}

fn task(id: u128, title: &str) -> Task {
    Task::finished(id, 10, title, Vec::new(), at(0), at(1))
}

fn snapshot(tasks: Vec<Task>, tags: Vec<Category>) -> Snapshot {
    Snapshot { tasks, projects: vec![Category::new(10, "project")], tags }
}

fn text(snapshot: &Snapshot) -> String {
    encode(snapshot).unwrap()
}

/// A remote copy held in memory: it gives back what was last pushed to it.
struct Remote {
    held: Option<String>,
    reachable: bool,
}

impl Remote {
    fn holding(snapshot: &Snapshot) -> Remote {
        Remote { held: Some(text(snapshot)), reachable: true }
    }

    fn fetch(&self) -> Option<String> {
        if self.reachable {
            self.held.clone()
        } else {
            None
        }
    }

    fn push(&mut self, snapshot: String) -> bool {
        if self.reachable {
            self.held = Some(snapshot);
        }
        self.reachable
    }

    fn snapshot(&self) -> Snapshot {
        decode(self.held.as_ref().unwrap()).unwrap()
    }
}

/// Does what the engine asks for until it is done, against a remote copy and
/// a disk that may fail.
fn run(
    engine: &mut SyncEngine,
    store: &mut Store,
    remote: &mut Remote,
    disk_works: bool,
    first: SyncEvent,
) -> Result<(), Error> {
    let mut action = engine.step(store, first);
    loop {
        let event = match action {
            SyncAction::Done => return Ok(()),
            SyncAction::Fail(e) => return Err(e),
            SyncAction::Fetch => match remote.fetch() {
                Some(s) => SyncEvent::Fetched(s),
                None => SyncEvent::Failed,
            },
            SyncAction::Persist(_) => {
                if disk_works {
                    SyncEvent::Persisted
                } else {
                    SyncEvent::Failed
                }
            }
            SyncAction::Push(s) => {
                if remote.push(s) {
                    SyncEvent::Pushed
                } else {
                    SyncEvent::Failed
                }
            }
        };
        action = engine.step(store, event);
    }
}

#[test]
fn settle_follows_the_policy() {
    let a = Category::new(1, "a");
    let b = Category::new(1, "b");
    let c = Category::new(1, "c");
    assert_eq!(settle_record(None, Some(&a), None), Ok(Some(a.clone())));
    assert_eq!(settle_record(None, None, Some(&a)), Ok(Some(a.clone())));
    assert_eq!(settle_record(Some(&a), Some(&b), Some(&a)), Ok(Some(b.clone())));
    assert_eq!(settle_record(Some(&a), Some(&a), Some(&b)), Ok(Some(b.clone())));
    assert_eq!(settle_record(Some(&a), None, Some(&a)), Ok(None));
    assert_eq!(settle_record(Some(&a), Some(&a), None), Ok(None));
    assert_eq!(settle_record(Some(&a), None, None), Ok(None));
    assert_eq!(settle_record(Some(&a), Some(&b), Some(&b)), Ok(Some(b.clone())));
    assert_eq!(settle_record(None, Some(&b), Some(&b)), Ok(Some(b.clone())));
    assert_eq!(settle_record(Some(&a), Some(&b), Some(&c)), Err(()));
    assert_eq!(settle_record(None, Some(&b), Some(&c)), Err(()));
    assert_eq!(settle_record(Some(&a), None, Some(&b)), Err(()));
    assert_eq!(settle_record(Some(&a), Some(&b), None), Err(()));
    assert_eq!(settle_record::<Category>(None, None, None), Ok(None));
}

#[test]
fn merge_keeps_local_order_and_appends_what_is_new_remotely() {
    let ancestor = vec![task(1, "one"), task(2, "two"), task(3, "three")];
    let local = vec![task(3, "three"), task(1, "one local"), task(4, "four"), task(2, "two")];
    let remote = vec![task(5, "five"), task(1, "one"), task(3, "three remote"), task(6, "six")];
    assert_eq!(
        merge_records(&ancestor, &local, &remote),
        Ok(vec![
            task(3, "three remote"),
            task(1, "one local"),
            task(4, "four"),
            task(5, "five"),
            task(6, "six")
        ])
    );
}

#[test]
fn merge_names_the_first_record_in_conflict() {
    let ancestor = vec![task(1, "one"), task(2, "two")];
    let local = vec![task(1, "one"), task(2, "two local"), task(3, "three local")];
    let remote = vec![task(3, "three remote"), task(2, "two remote"), task(1, "one")];
    assert_eq!(merge_records(&ancestor, &local, &remote), Err(2));
    let deleted_here = vec![task(1, "one")];
    assert_eq!(merge_records(&ancestor, &deleted_here, &remote), Err(2));
}

#[test]
fn merge_of_snapshots_checks_names_and_the_current_task() {
    let ancestor = snapshot(Vec::new(), Vec::new());
    let local = snapshot(Vec::new(), vec![Category::new(1, "tag")]);
    let remote = snapshot(Vec::new(), vec![Category::new(2, "tag")]);
    assert_eq!(merge(&ancestor, &local, &remote), Err(Error::Validation));
    let tracking_here = snapshot(vec![Task::started(1, 10, "here", Vec::new(), at(0))], Vec::new());
    let tracking_there = snapshot(vec![Task::started(2, 10, "there", Vec::new(), at(0))], Vec::new());
    assert_eq!(merge(&ancestor, &tracking_here, &tracking_there), Err(Error::Conflict));
    let done_there = snapshot(vec![task(2, "there")], Vec::new());
    assert_eq!(
        merge(&ancestor, &tracking_here, &done_there),
        Ok(snapshot(vec![Task::started(1, 10, "here", Vec::new(), at(0)), task(2, "there")], Vec::new()))
    );
}

#[test]
fn both_sides_add_a_task() {
    let ancestor = snapshot(vec![task(1, "old")], Vec::new());
    let mut engine = SyncEngine::new(true, ancestor.clone()).unwrap();
    let mut store = Store::from_snapshot(snapshot(vec![task(1, "old"), task(2, "x")], Vec::new())).unwrap();
    let mut remote = Remote::holding(&snapshot(vec![task(1, "old"), task(3, "y")], Vec::new()));
    let start = SyncEvent::Start(SyncMode::Merge, false);
    assert_eq!(run(&mut engine, &mut store, &mut remote, true, start), Ok(()));
    let union = snapshot(vec![task(1, "old"), task(2, "x"), task(3, "y")], Vec::new());
    assert_eq!(store.snapshot(), union);
    assert_eq!(engine.ancestor(), union);
    assert_eq!(remote.snapshot(), union);
    assert!(engine.is_idle());
}

#[test]
fn both_sides_rename_a_tag() {
    let ancestor = snapshot(Vec::new(), vec![Category::new(7, "foo")]);
    let local = snapshot(Vec::new(), vec![Category::new(7, "bar")]);
    let there = snapshot(Vec::new(), vec![Category::new(7, "baz")]);
    let mut engine = SyncEngine::new(true, ancestor.clone()).unwrap();
    let mut store = Store::from_snapshot(local.clone()).unwrap();
    let mut remote = Remote::holding(&there);
    let start = SyncEvent::Start(SyncMode::Merge, false);
    assert_eq!(run(&mut engine, &mut store, &mut remote, true, start), Err(Error::MergeConflict(7)));
    assert_eq!(store.snapshot(), local);
    assert_eq!(engine.ancestor(), ancestor);
    assert_eq!(remote.snapshot(), there);
    assert!(engine.is_idle());
}

#[test]
fn forced_push_then_fetch_gives_what_was_pushed() {
    let local = snapshot(vec![task(1, "mine")], vec![Category::new(7, "bar")]);
    let mut engine = SyncEngine::new(true, Snapshot::new()).unwrap();
    let mut store = Store::from_snapshot(local.clone()).unwrap();
    let mut remote = Remote::holding(&snapshot(vec![task(9, "theirs")], Vec::new()));
    assert_eq!(engine.push_force(&mut store), SyncAction::Push(text(&local)));
    assert!(remote.push(text(&local)));
    assert_eq!(engine.step(&mut store, SyncEvent::Pushed), SyncAction::Done);
    assert_eq!(remote.fetch(), Some(store.save().unwrap()));
    assert_eq!(remote.snapshot(), local);
    assert_eq!(engine.ancestor(), local);
    assert_eq!(store.snapshot(), local);
    let again = SyncEvent::Start(SyncMode::PullForce, false);
    assert_eq!(run(&mut engine, &mut store, &mut remote, true, again), Ok(()));
    assert_eq!(store.snapshot(), local);
    assert_eq!(engine.ancestor(), local);
}

#[test]
fn forced_pull_discards_local_changes() {
    let there = snapshot(vec![task(9, "theirs")], Vec::new());
    let mut engine = SyncEngine::new(true, Snapshot::new()).unwrap();
    let mut store = Store::from_snapshot(snapshot(vec![task(1, "mine")], Vec::new())).unwrap();
    let mut remote = Remote::holding(&there);
    assert_eq!(engine.pull_force(&mut store, false), SyncAction::Fetch);
    assert_eq!(engine.step(&mut store, SyncEvent::Fetched(text(&there))), SyncAction::Persist(text(&there)));
    assert_eq!(store.snapshot(), snapshot(vec![task(1, "mine")], Vec::new()));
    assert_eq!(engine.step(&mut store, SyncEvent::Persisted), SyncAction::Done);
    assert_eq!(store.snapshot(), there);
    assert_eq!(engine.ancestor(), there);
    assert_eq!(remote.fetch(), Some(text(&there)));
    remote.reachable = false;
    assert_eq!(remote.fetch(), None);
}

#[test]
fn forced_pull_is_refused_while_a_task_is_tracked() {
    let tracking = snapshot(vec![Task::started(1, 10, "now", Vec::new(), at(0))], Vec::new());
    let there = snapshot(vec![task(9, "theirs")], Vec::new());
    let mut engine = SyncEngine::new(true, Snapshot::new()).unwrap();
    let mut store = Store::from_snapshot(tracking.clone()).unwrap();
    let mut remote = Remote::holding(&there);
    assert_eq!(engine.pull_force(&mut store, false), SyncAction::Fail(Error::Conflict));
    assert!(engine.is_idle());
    assert_eq!(store.snapshot(), tracking);
    let forced = SyncEvent::Start(SyncMode::PullForce, true);
    assert_eq!(run(&mut engine, &mut store, &mut remote, true, forced), Ok(()));
    assert_eq!(store.snapshot(), there);
}

#[test]
fn without_a_remote_nothing_is_synchronised() {
    let mut engine = SyncEngine::new(false, Snapshot::new()).unwrap();
    assert!(!engine.is_configured());
    let mut store = Store::new();
    assert_eq!(engine.sync(&mut store), SyncAction::Fail(Error::NotConfigured));
    assert_eq!(engine.push_force(&mut store), SyncAction::Fail(Error::NotConfigured));
    assert_eq!(engine.pull_force(&mut store, true), SyncAction::Fail(Error::NotConfigured));
    assert!(engine.is_idle());
}

#[test]
fn failed_fetch_means_nothing_happened() {
    let local = snapshot(vec![task(1, "mine")], Vec::new());
    let mut engine = SyncEngine::new(true, Snapshot::new()).unwrap();
    let mut store = Store::from_snapshot(local.clone()).unwrap();
    let mut remote = Remote { held: None, reachable: false };
    let start = SyncEvent::Start(SyncMode::Merge, false);
    assert_eq!(run(&mut engine, &mut store, &mut remote, true, start), Err(Error::Transport));
    assert_eq!(store.snapshot(), local);
    assert_eq!(engine.ancestor(), Snapshot::new());
    let push = SyncEvent::Start(SyncMode::PushForce, false);
    assert_eq!(run(&mut engine, &mut store, &mut remote, true, push), Err(Error::Transport));
    assert_eq!(engine.ancestor(), Snapshot::new());
}

#[test]
fn failed_push_keeps_the_merge_locally() {
    let ancestor = snapshot(Vec::new(), Vec::new());
    let local = snapshot(vec![task(1, "mine")], Vec::new());
    let there = snapshot(vec![task(2, "theirs")], Vec::new());
    let union = snapshot(vec![task(1, "mine"), task(2, "theirs")], Vec::new());
    let mut engine = SyncEngine::new(true, ancestor.clone()).unwrap();
    let mut store = Store::from_snapshot(local).unwrap();
    assert_eq!(engine.sync(&mut store), SyncAction::Fetch);
    assert_eq!(engine.step(&mut store, SyncEvent::Fetched(text(&there))), SyncAction::Persist(text(&union)));
    assert_eq!(engine.step(&mut store, SyncEvent::Persisted), SyncAction::Push(text(&union)));
    assert_eq!(engine.step(&mut store, SyncEvent::Failed), SyncAction::Fail(Error::PushFailed));
    assert_eq!(store.snapshot(), union);
    assert_eq!(engine.ancestor(), ancestor);
    let mut remote = Remote::holding(&there);
    let retry = SyncEvent::Start(SyncMode::Merge, false);
    assert_eq!(run(&mut engine, &mut store, &mut remote, true, retry), Ok(()));
    assert_eq!(remote.snapshot(), union);
    assert_eq!(engine.ancestor(), union);
}

#[test]
fn failed_write_commits_nothing() {
    let local = snapshot(vec![task(1, "mine")], Vec::new());
    let there = snapshot(vec![task(2, "theirs")], Vec::new());
    let mut engine = SyncEngine::new(true, Snapshot::new()).unwrap();
    let mut store = Store::from_snapshot(local.clone()).unwrap();
    let mut remote = Remote::holding(&there);
    let start = SyncEvent::Start(SyncMode::Merge, false);
    assert_eq!(run(&mut engine, &mut store, &mut remote, false, start), Err(Error::NotPersisted));
    assert_eq!(store.snapshot(), local);
    assert_eq!(remote.snapshot(), there);
    assert_eq!(engine.ancestor(), Snapshot::new());
}

#[test]
fn corrupted_remote_snapshot_is_refused() {
    let local = snapshot(vec![task(1, "mine")], Vec::new());
    let broken = snapshot(vec![task(2, "a"), task(2, "b")], Vec::new());
    let mut engine = SyncEngine::new(true, Snapshot::new()).unwrap();
    let mut store = Store::from_snapshot(local.clone()).unwrap();
    assert_eq!(engine.sync(&mut store), SyncAction::Fetch);
    assert_eq!(engine.step(&mut store, SyncEvent::Fetched(text(&broken))), SyncAction::Fail(Error::Corruption));
    assert_eq!(store.snapshot(), local);
    assert!(engine.is_idle());
    assert_eq!(engine.sync(&mut store), SyncAction::Fetch);
    let garbled = SyncEvent::Fetched("4:busy,1:0,".to_string());
    assert_eq!(engine.step(&mut store, garbled), SyncAction::Fail(Error::Corruption));
    assert_eq!(store.snapshot(), local);
    assert_eq!(SyncEngine::new(true, broken).err(), Some(Error::Corruption));
}

#[test]
fn snapshot_that_cannot_be_stored_is_not_pushed() {
    let odd = Timestamp::new(0, 30).unwrap();
    let local = snapshot(vec![Task::finished(1, 10, "odd", Vec::new(), odd, odd)], Vec::new());
    let mut engine = SyncEngine::new(true, Snapshot::new()).unwrap();
    let mut store = Store::from_snapshot(local.clone()).unwrap();
    assert_eq!(engine.push_force(&mut store), SyncAction::Fail(Error::Validation));
    assert!(engine.is_idle());
    assert_eq!(engine.sync(&mut store), SyncAction::Fetch);
    let empty = SyncEvent::Fetched(text(&Snapshot::new()));
    assert_eq!(engine.step(&mut store, empty), SyncAction::Fail(Error::Validation));
    assert_eq!(store.snapshot(), local);
    assert!(engine.is_idle());
}

#[test]
fn event_out_of_turn_ends_the_synchronisation() {
    let mut engine = SyncEngine::new(true, Snapshot::new()).unwrap();
    let mut store = Store::new();
    assert_eq!(engine.step(&mut store, SyncEvent::Pushed), SyncAction::Fail(Error::InvalidState));
    assert_eq!(engine.sync(&mut store), SyncAction::Fetch);
    assert!(!engine.is_idle());
    assert_eq!(engine.step(&mut store, SyncEvent::Persisted), SyncAction::Fail(Error::InvalidState));
    assert!(engine.is_idle());
}

#[test]
fn deletion_wins_over_an_unchanged_record() {
    let ancestor = snapshot(vec![task(1, "one"), task(2, "two")], Vec::new());
    let local = snapshot(vec![task(1, "one")], Vec::new());
    let there = snapshot(vec![task(2, "two")], Vec::new());
    assert_eq!(merge(&ancestor, &local, &there), Ok(snapshot(Vec::new(), Vec::new())));
}
