//! Synchronisation with a remote copy, as decisions: the engine says what is
//! to be done next (fetch, write to disk, push), the caller does it and
//! reports back, and the engine decides again. The engine itself never waits
//! for anything.

use vstd::prelude::*;
use crate::codec::records::{decoding, encoding, storable};
use crate::codec::snapshot::{decode, encode};
use crate::error::Error;
use crate::merge::{lemma_merge_views_valid, merge, merge_views};
use crate::store::{Snapshot, Store, StoreView};

verus! {

/// The three ways to synchronise.
#[derive(Debug, Clone, Copy, PartialEq, Eq)]
pub enum SyncMode {
    /// Merge what both sides have changed since they last agreed.
    Merge,
    /// Overwrite the remote copy with the local one.
    PushForce,
    /// Overwrite the local copy with the remote one.
    PullForce,
}

/// What the engine asks its caller to do next.
#[derive(Debug, Clone, PartialEq, Eq)]
pub enum SyncAction {
    /// Fetch the remote snapshot and report `Fetched`, or `Failed`.
    Fetch,
    /// Write the text of the snapshot to the local file, replacing it in one
    /// step, and report `Persisted`, or `Failed`.
    Persist(String),
    /// Push the text of the snapshot to the remote copy and report `Pushed`,
    /// or `Failed`.
    Push(String),
    /// Nothing more: the synchronisation is complete.
    Done,
    /// Nothing more: the synchronisation has ended with this error.
    Fail(Error),
}

/// What the caller reports to the engine.
#[derive(Debug, Clone, PartialEq, Eq)]
pub enum SyncEvent {
    /// A synchronisation is asked for. The flag allows a forced pull to
    /// discard a task that is being tracked.
    Start(SyncMode, bool),
    /// The text of the remote snapshot has arrived.
    Fetched(String),
    /// The snapshot is on disk.
    Persisted,
    /// The snapshot is at the remote copy.
    Pushed,
    /// What was asked for could not be done.
    Failed,
}

/// The value of a `SyncAction`.
pub enum Action {
    Fetch,
    Persist(Seq<char>),
    Push(Seq<char>),
    Done,
    Fail(Error),
}

/// The value of a `SyncEvent`.
pub enum Event {
    Start(SyncMode, bool),
    Fetched(Seq<char>),
    Persisted,
    Pushed,
    Failed,
}

/// How far a synchronisation has come.
pub enum Phase {
    /// None is under way.
    Idle,
    /// The remote snapshot has been asked for.
    Fetching(SyncMode),
    /// The snapshot that is to become the local state is being written to
    /// disk; the flag says whether it is to be pushed afterwards.
    Persisting(StoreView, bool),
    /// The snapshot is being pushed; the flag says whether it came out of a
    /// merge.
    Pushing(StoreView, bool),
}

impl View for SyncAction {
    type V = Action;

    open spec fn view(&self) -> Action {
        match self {
            SyncAction::Fetch => Action::Fetch,
            SyncAction::Persist(text) => Action::Persist(text@),
            SyncAction::Push(text) => Action::Push(text@),
            SyncAction::Done => Action::Done,
            SyncAction::Fail(e) => Action::Fail(*e),
        }
    }
}

impl View for SyncEvent {
    type V = Event;

    open spec fn view(&self) -> Event {
        match self {
            SyncEvent::Start(mode, force) => Event::Start(*mode, *force),
            SyncEvent::Fetched(text) => Event::Fetched(text@),
            SyncEvent::Persisted => Event::Persisted,
            SyncEvent::Pushed => Event::Pushed,
            SyncEvent::Failed => Event::Failed,
        }
    }
}

/// The value of an engine: whether a remote copy is configured, the snapshot
/// on which both sides last agreed, and how far a synchronisation has come.
pub struct EngineView {
    pub configured: bool,
    pub ancestor: StoreView,
    pub phase: Phase,
}

/// An engine, a store and what is to be done next.
pub struct Outcome {
    pub engine: EngineView,
    pub store: StoreView,
    pub action: Action,
}

impl EngineView {
    /// The engine's snapshots obey the rules of a store, and those on
    /// their way to the disk or to the remote copy can be stored.
    pub open spec fn valid(self) -> bool {
        &&& self.ancestor.valid()
        &&& match self.phase {
            Phase::Persisting(s, _) => s.valid() && storable(s),
            Phase::Pushing(s, _) => s.valid() && storable(s),
            _ => true,
        }
    }

    /// The snapshot is to be written to disk next, provided that it can be
    /// stored.
    pub open spec fn persist(self, store: StoreView, next: StoreView, push: bool) -> Outcome {
        if storable(next) {
            Outcome {
                engine: self.in_phase(Phase::Persisting(next, push)),
                store,
                action: Action::Persist(encoding(next)),
            }
        } else {
            self.fail(store, Error::Validation)
        }
    }

    /// The engine with no synchronisation under way.
    pub open spec fn idle(self) -> EngineView {
        EngineView { phase: Phase::Idle, ..self }
    }

    /// The engine in the given phase.
    pub open spec fn in_phase(self, phase: Phase) -> EngineView {
        EngineView { phase, ..self }
    }

    /// The engine, idle, after both sides have agreed on the snapshot.
    pub open spec fn agreed(self, snapshot: StoreView) -> EngineView {
        EngineView { phase: Phase::Idle, ancestor: snapshot, ..self }
    }

    /// The synchronisation ends with the error; the store stays as it is.
    pub open spec fn fail(self, store: StoreView, e: Error) -> Outcome {
        Outcome { engine: self.idle(), store, action: Action::Fail(e) }
    }

    /// A synchronisation is asked for. Without a remote copy there is none.
    /// A merge and a forced pull begin by fetching; a forced pull is refused
    /// while a task is being tracked, unless it is allowed to discard it. A
    /// forced push hands the text of the local snapshot over as it is.
    pub open spec fn begin(self, store: StoreView, mode: SyncMode, force: bool) -> Outcome {
        if !self.configured {
            self.fail(store, Error::NotConfigured)
        } else {
            match mode {
                SyncMode::Merge => Outcome {
                    engine: self.in_phase(Phase::Fetching(mode)),
                    store,
                    action: Action::Fetch,
                },
                SyncMode::PullForce => if store.has_current() && !force {
                    self.fail(store, Error::Conflict)
                } else {
                    Outcome {
                        engine: self.in_phase(Phase::Fetching(mode)),
                        store,
                        action: Action::Fetch,
                    }
                },
                SyncMode::PushForce => if storable(store) {
                    Outcome {
                        engine: self.in_phase(Phase::Pushing(store, false)),
                        store,
                        action: Action::Push(encoding(store)),
                    }
                } else {
                    self.fail(store, Error::Validation)
                },
            }
        }
    }

    /// The text of the remote snapshot has arrived. It must be the text of a
    /// snapshot that obeys the rules of a store: anything else is corrupted.
    /// In a merge it is merged with the local state against the ancestor,
    /// and the result is to be written to disk; where the merge fails,
    /// nothing changes. In a forced pull the remote snapshot itself is to be
    /// written to disk.
    pub open spec fn fetched(self, store: StoreView, mode: SyncMode, text: Seq<char>) -> Outcome {
        match decoding(text) {
            None => self.fail(store, Error::Corruption),
            Some(remote) => if !remote.valid() {
                self.fail(store, Error::Corruption)
            } else if mode == SyncMode::Merge {
                match merge_views(self.ancestor, store, remote) {
                    Ok(m) => self.persist(store, m, true),
                    Err(e) => self.fail(store, e),
                }
            } else {
                self.persist(store, remote, false)
            },
        }
    }

    /// The snapshot is on disk: it becomes the local state. After a merge it
    /// is pushed next; after a forced pull both sides agree on it.
    pub open spec fn persisted(self, next: StoreView, push: bool) -> Outcome {
        if push {
            Outcome {
                engine: self.in_phase(Phase::Pushing(next, true)),
                store: next,
                action: Action::Push(encoding(next)),
            }
        } else {
            Outcome { engine: self.agreed(next), store: next, action: Action::Done }
        }
    }

    /// What the engine does on an event: see `begin`, `fetched` and
    /// `persisted`. Once a snapshot has been pushed, both sides agree on it.
    /// Where the caller reports a failure, the synchronisation ends: a fetch
    /// or a forced push that failed has changed nothing; neither has a write
    /// to disk that failed; a push that failed after a merge leaves the
    /// merge in the local state, and the ancestor as it was. An event that
    /// does not answer what the engine asked for ends the synchronisation
    /// too.
    pub open spec fn step(self, store: StoreView, event: Event) -> Outcome {
        match (self.phase, event) {
            (Phase::Idle, Event::Start(mode, force)) => self.begin(store, mode, force),
            (Phase::Fetching(mode), Event::Fetched(text)) => self.fetched(store, mode, text),
            (Phase::Fetching(_), Event::Failed) => self.fail(store, Error::Transport),
            (Phase::Persisting(next, push), Event::Persisted) => self.persisted(next, push),
            (Phase::Persisting(_, _), Event::Failed) => self.fail(store, Error::NotPersisted),
            (Phase::Pushing(s, _), Event::Pushed) => Outcome {
                engine: self.agreed(s),
                store,
                action: Action::Done,
            },
            (Phase::Pushing(_, merged), Event::Failed) => self.fail(
                store,
                if merged {
                    Error::PushFailed
                } else {
                    Error::Transport
                },
            ),
            _ => self.fail(store, Error::InvalidState),
        }
    }
}

/// How far a synchronisation has come, with the snapshots that it carries.
enum Progress {
    Idle,
    Fetching(SyncMode),
    Persisting(Snapshot, String, bool),
    Pushing(Snapshot, bool),
}

impl View for Progress {
    type V = Phase;

    closed spec fn view(&self) -> Phase {
        match self {
            Progress::Idle => Phase::Idle,
            Progress::Fetching(mode) => Phase::Fetching(*mode),
            Progress::Persisting(s, _, push) => Phase::Persisting(s@, *push),
            Progress::Pushing(s, merged) => Phase::Pushing(s@, *merged),
        }
    }
}

impl Progress {
    /// The text kept with a snapshot on its way to the disk is the text of
    /// that snapshot.
    closed spec fn wf(&self) -> bool {
        self matches Progress::Persisting(s, text, _) ==> text@ == encoding(s@)
    }
}

/// The synchronisation engine.
pub struct SyncEngine {
    configured: bool,
    ancestor: Snapshot,
    progress: Progress,
}

impl View for SyncEngine {
    type V = EngineView;

    closed spec fn view(&self) -> EngineView {
        EngineView {
            configured: self.configured,
            ancestor: self.ancestor@,
            phase: self.progress@,
        }
    }
}

impl SyncEngine {
    /// The engine's snapshots obey the rules of a store. Every engine that
    /// this library hands out does.
    pub closed spec fn wf(&self) -> bool {
        self@.valid() && self.progress.wf()
    }

    /// An idle engine. `configured` says whether there is a remote copy;
    /// `ancestor` is the snapshot on which both sides last agreed, the empty
    /// one if they never did. It must obey the rules of a store.
    pub fn new(configured: bool, ancestor: Snapshot) -> (r: Result<SyncEngine, Error>)
        ensures
            match r {
                Ok(engine) => ancestor@.valid() && engine.wf() && engine@ == (EngineView {
                    configured,
                    ancestor: ancestor@,
                    phase: Phase::Idle,
                }),
                Err(e) => !ancestor@.valid() && e == Error::Corruption,
            },
    {
        if ancestor.is_valid() {
            Ok(SyncEngine { configured, ancestor, progress: Progress::Idle })
        } else {
            Err(Error::Corruption)
        }
    }

    /// The snapshot on which both sides last agreed.
    pub fn ancestor(&self) -> (r: Snapshot)
        ensures
            r@ == self@.ancestor,
    {
        self.ancestor.duplicate()
    }

    /// Whether a remote copy is configured.
    pub fn is_configured(&self) -> (r: bool)
        ensures
            r == self@.configured,
    {
        self.configured
    }

    /// Whether no synchronisation is under way.
    pub fn is_idle(&self) -> (r: bool)
        ensures
            r == (self@.phase is Idle),
    {
        match &self.progress {
            Progress::Idle => true,
            _ => false,
        }
    }

    /// Takes the event and says what is to be done next: see
    /// `EngineView::step`.
    pub fn step(&mut self, store: &mut Store, event: SyncEvent) -> (action: SyncAction)
        requires
            old(self).wf(),
            old(store).wf(),
        ensures
            final(self).wf(),
            final(store).wf(),
            (Outcome { engine: final(self)@, store: final(store)@, action: action@ }) == old(
                self,
            )@.step(old(store)@, event@),
    {
        let mut progress = Progress::Idle;
        core::mem::swap(&mut self.progress, &mut progress);
        match (progress, event) {
            (Progress::Idle, SyncEvent::Start(mode, force)) => {
                if !self.configured {
                    return SyncAction::Fail(Error::NotConfigured);
                }
                match mode {
                    SyncMode::Merge => {
                        self.progress = Progress::Fetching(mode);
                        SyncAction::Fetch
                    },
                    SyncMode::PullForce => {
                        if store.active_task().is_some() && !force {
                            return SyncAction::Fail(Error::Conflict);
                        }
                        self.progress = Progress::Fetching(mode);
                        SyncAction::Fetch
                    },
                    SyncMode::PushForce => {
                        let snapshot = store.snapshot();
                        match encode(&snapshot) {
                            Ok(text) => {
                                self.progress = Progress::Pushing(snapshot, false);
                                SyncAction::Push(text)
                            },
                            Err(e) => SyncAction::Fail(e),
                        }
                    },
                }
            },
            (Progress::Fetching(mode), SyncEvent::Fetched(text)) => {
                let remote = match decode(text.as_str()) {
                    Ok(remote) => remote,
                    Err(e) => {
                        return SyncAction::Fail(e);
                    },
                };
                if !remote.is_valid() {
                    return SyncAction::Fail(Error::Corruption);
                }
                let next = match mode {
                    SyncMode::Merge => {
                        let local = store.snapshot();
                        proof {
                            lemma_merge_views_valid(self.ancestor@, local@, remote@);
                        }
                        match merge(&self.ancestor, &local, &remote) {
                            Ok(m) => m,
                            Err(e) => {
                                return SyncAction::Fail(e);
                            },
                        }
                    },
                    _ => remote,
                };
                match encode(&next) {
                    Ok(written) => {
                        let push = match mode {
                            SyncMode::Merge => true,
                            _ => false,
                        };
                        self.progress = Progress::Persisting(next, written.clone(), push);
                        SyncAction::Persist(written)
                    },
                    Err(e) => SyncAction::Fail(e),
                }
            },
            (Progress::Fetching(_), SyncEvent::Failed) => SyncAction::Fail(Error::Transport),
            (Progress::Persisting(next, written, push), SyncEvent::Persisted) => {
                let loaded = store.load(next.duplicate());
                if push {
                    self.progress = Progress::Pushing(next, true);
                    SyncAction::Push(written)
                } else {
                    self.ancestor = next;
                    SyncAction::Done
                }
            },
            (Progress::Persisting(_, _, _), SyncEvent::Failed) => SyncAction::Fail(
                Error::NotPersisted,
            ),
            (Progress::Pushing(s, _), SyncEvent::Pushed) => {
                self.ancestor = s;
                SyncAction::Done
            },
            (Progress::Pushing(_, merged), SyncEvent::Failed) => {
                if merged {
                    SyncAction::Fail(Error::PushFailed)
                } else {
                    SyncAction::Fail(Error::Transport)
                }
            },
            _ => SyncAction::Fail(Error::InvalidState),
        }
    }

    /// Asks for a merge with the remote copy.
    pub fn sync(&mut self, store: &mut Store) -> (action: SyncAction)
        requires
            old(self).wf(),
            old(store).wf(),
        ensures
            final(self).wf(),
            final(store).wf(),
            (Outcome { engine: final(self)@, store: final(store)@, action: action@ }) == old(
                self,
            )@.step(old(store)@, Event::Start(SyncMode::Merge, false)),
    {
        self.step(store, SyncEvent::Start(SyncMode::Merge, false))
    }

    /// Asks for the remote copy to be overwritten with the local one.
    pub fn push_force(&mut self, store: &mut Store) -> (action: SyncAction)
        requires
            old(self).wf(),
            old(store).wf(),
        ensures
            final(self).wf(),
            final(store).wf(),
            (Outcome { engine: final(self)@, store: final(store)@, action: action@ }) == old(
                self,
            )@.step(old(store)@, Event::Start(SyncMode::PushForce, false)),
    {
        self.step(store, SyncEvent::Start(SyncMode::PushForce, false))
    }

    /// Asks for the local copy to be overwritten with the remote one.
    /// `discard_current` allows that while a task is being tracked.
    pub fn pull_force(&mut self, store: &mut Store, discard_current: bool) -> (action: SyncAction)
        requires
            old(self).wf(),
            old(store).wf(),
        ensures
            final(self).wf(),
            final(store).wf(),
            (Outcome { engine: final(self)@, store: final(store)@, action: action@ }) == old(
                self,
            )@.step(old(store)@, Event::Start(SyncMode::PullForce, discard_current)),
    {
        self.step(store, SyncEvent::Start(SyncMode::PullForce, discard_current))
    }
}

} // verus!
