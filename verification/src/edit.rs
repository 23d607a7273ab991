//! Editing records by hand: what is put before the person who edits, and what
//! becomes of what comes back.

use vstd::prelude::*;
use crate::category::{texts, Category, CategoryView};
use crate::commands::Edit;
use crate::entity::{lookup, views};
use crate::error::Error;
use crate::ident::{resolution, unresolved_as};
use crate::store::{follows, EntityClass, Store, StoreView};
use crate::task::{Task, TaskView};

verus! {

/// What can be edited.
#[derive(Debug, Clone, Copy, PartialEq, Eq)]
pub enum EditTarget {
    /// The task with the identifier.
    Task(u128),
    /// The project with the identifier.
    Project(u128),
    /// The tag with the identifier.
    Tag(u128),
    /// All tags at once.
    AllTags,
    /// All tasks at once.
    AllTasks,
}

/// A task as it is put before the person who edits it: with the names of its
/// tags in place of their identifiers.
#[derive(Debug, Clone, PartialEq, Eq)]
pub struct TaskDraft {
    /// The task. Its tags are those named in `tags`, whatever identifiers
    /// it lists itself.
    pub task: Task,
    /// The names of the task's tags.
    pub tags: Vec<String>,
}

/// What is put before the person who edits, and what comes back.
#[derive(Debug, Clone, PartialEq, Eq)]
pub enum Editable {
    Task(TaskDraft),
    Project(Category),
    Tag(Category),
    AllTags(Vec<Category>),
    AllTasks(Vec<Task>),
}

/// The names of the tags filed under the first `n` of the identifiers, in
/// order; identifiers under which no tag is filed are passed over.
pub open spec fn names_of(tags: Seq<CategoryView>, ids: Seq<u128>, n: int) -> Seq<Seq<char>>
    decreases n,
{
    if n <= 0 {
        Seq::empty()
    } else {
        let rest = names_of(tags, ids, n - 1);
        match lookup::<Category>(tags, ids[n - 1]) {
            Some(tag) => rest.push(tag.name),
            None => rest,
        }
    }
}

/// The value of what is put before the person who edits.
pub enum Subject {
    Task(TaskView, Seq<Seq<char>>),
    Project(CategoryView),
    Tag(CategoryView),
    AllTags(Seq<CategoryView>),
    AllTasks(Seq<TaskView>),
}

impl View for Editable {
    type V = Subject;

    open spec fn view(&self) -> Subject {
        match self {
            Editable::Task(draft) => Subject::Task(draft.task@, texts(draft.tags@)),
            Editable::Project(c) => Subject::Project(c@),
            Editable::Tag(c) => Subject::Tag(c@),
            Editable::AllTags(tags) => Subject::AllTags(views(tags@)),
            Editable::AllTasks(tasks) => Subject::AllTasks(views(tasks@)),
        }
    }
}

impl StoreView {
    /// What is put before the person who edits the target; none where the
    /// target names a record that is not there.
    pub open spec fn subject(self, target: EditTarget) -> Option<Subject> {
        match target {
            EditTarget::Task(id) => match lookup::<Task>(self.tasks, id) {
                Some(task) => Some(
                    Subject::Task(task, names_of(self.tags, task.tag_ids, task.tag_ids.len() as int)),
                ),
                None => None,
            },
            EditTarget::Project(id) => match lookup::<Category>(self.projects, id) {
                Some(c) => Some(Subject::Project(c)),
                None => None,
            },
            EditTarget::Tag(id) => match lookup::<Category>(self.tags, id) {
                Some(c) => Some(Subject::Tag(c)),
                None => None,
            },
            EditTarget::AllTags => Some(Subject::AllTags(self.tags)),
            EditTarget::AllTasks => Some(Subject::AllTasks(self.tasks)),
        }
    }

    /// What comes back from the person who edited takes the place of what
    /// was there: a task, a project or a tag that of the record under its
    /// identifier, all tags or all tasks that of all there were.
    pub open spec fn edited(self, subject: Subject, tag_fresh: Seq<u128>) -> Result<
        StoreView,
        Error,
    > {
        match subject {
            Subject::Task(task, tag_names) => self.replace_task_named(task, tag_names, tag_fresh),
            Subject::Project(c) => self.replace_project(c),
            Subject::Tag(c) => self.replace_tag(c),
            Subject::AllTags(tags) => self.replace_tags(tags),
            Subject::AllTasks(tasks) => self.replace_tasks(tasks),
        }
    }
}

/// The names of the tags filed under the identifiers: see `names_of`.
pub fn tag_names(tags: &Vec<Category>, ids: &Vec<u128>) -> (r: Vec<String>)
    ensures
        texts(r@) == names_of(views(tags@), ids@, ids.len() as int),
{
    let mut out: Vec<String> = Vec::new();
    let mut i: usize = 0;
    assert(texts(out@) =~= Seq::<Seq<char>>::empty());
    while i < ids.len()
        invariant
            0 <= i <= ids.len(),
            texts(out@) == names_of(views(tags@), ids@, i as int),
        decreases ids.len() - i,
    {
        match crate::merge::get(tags, ids[i]) {
            Some(tag) => {
                let ghost before = texts(out@);
                assert(tag@ == lookup::<Category>(views(tags@), ids@[i as int])->0);
                out.push(tag.name().to_owned());
                assert(texts(out@) =~= before.push(tag@.name));
            },
            None => {},
        }
        i += 1;
    }
    out
}

impl Store {
    /// What is put before the person who edits the target: see
    /// `StoreView::subject`.
    pub fn edit_subject(&self, target: EditTarget) -> (r: Result<Editable, Error>)
        requires
            self.wf(),
        ensures
            match self@.subject(target) {
                Some(subject) => r matches Ok(e) && e@ == subject,
                None => r == Err::<Editable, Error>(Error::NotFound),
            },
    {
        match target {
            EditTarget::Task(id) => match self.task_by_id(id) {
                Some(task) => {
                    let all = self.tags();
                    let tags = tag_names(&all, task.tag_ids());
                    Ok(Editable::Task(TaskDraft { task, tags }))
                },
                None => Err(Error::NotFound),
            },
            EditTarget::Project(id) => match self.project_by_id(id) {
                Some(c) => Ok(Editable::Project(c)),
                None => Err(Error::NotFound),
            },
            EditTarget::Tag(id) => match self.tag_by_id(id) {
                Some(c) => Ok(Editable::Tag(c)),
                None => Err(Error::NotFound),
            },
            EditTarget::AllTags => Ok(Editable::AllTags(self.all_tags())),
            EditTarget::AllTasks => Ok(Editable::AllTasks(self.all_tasks())),
        }
    }

    /// Takes back what was edited, with the identifiers to file new tags
    /// under: see `StoreView::edited`.
    pub fn apply_edit_with(&mut self, edited: Editable, tag_fresh: &Vec<u128>) -> (r: Result<
        (),
        Error,
    >)
        requires
            old(self).wf(),
        ensures
            final(self).wf(),
            follows(r, old(self)@, final(self)@, old(self)@.edited(edited@, tag_fresh@)),
    {
        match edited {
            Editable::Task(draft) => match self.replace_task_named(
                &draft.task,
                &draft.tags,
                tag_fresh,
            ) {
                Ok(_) => Ok(()),
                Err(e) => Err(e),
            },
            Editable::Project(c) => match self.replace_project(&c) {
                Ok(_) => Ok(()),
                Err(e) => Err(e),
            },
            Editable::Tag(c) => match self.replace_tag(&c) {
                Ok(_) => Ok(()),
                Err(e) => Err(e),
            },
            Editable::AllTags(tags) => self.replace_tags(tags),
            Editable::AllTasks(tasks) => self.replace_tasks(tasks),
        }
    }

    /// Takes back what was edited. Identifiers for new tags are drawn at
    /// random.
    pub fn apply_edit(&mut self, edited: Editable) -> (r: Result<(), Error>)
        requires
            old(self).wf(),
        ensures
            final(self).wf(),
            exists|tag_fresh: Seq<u128>|
                (edited@ matches Subject::Task(_, names) ==> tag_fresh.len() == names.len())
                    && follows(
                    r,
                    old(self)@,
                    final(self)@,
                    #[trigger] old(self)@.edited(edited@, tag_fresh),
                ),
    {
        let n = match &edited {
            Editable::Task(draft) => draft.tags.len(),
            _ => 0,
        };
        let tag_fresh = crate::store::draw_ids(n);
        self.apply_edit_with(edited, &tag_fresh)
    }
}

/// What the short identifiers resolve to, each among all records of the
/// store; the error of the first that does not resolve.
pub fn resolve_each(store: &Store, short_ids: &Vec<String>) -> (r: Result<Vec<u128>, Error>)
    ensures
        match r {
            Ok(ids) => ids.len() == short_ids.len() && forall|i: int|
                0 <= i < short_ids.len() ==> resolution(store@.all_ids(), #[trigger] short_ids@[i]@)
                    == Ok::<u128, Seq<u128>>(ids@[i]),
            Err(e) => exists|i: int|
                {
                    &&& 0 <= i < short_ids.len()
                    &&& #[trigger] resolution(store@.all_ids(), short_ids@[i]@) matches Err(c)
                    &&& unresolved_as(Err::<u128, Error>(e), c)
                    &&& forall|j: int|
                        0 <= j < i ==> resolution(store@.all_ids(), #[trigger] short_ids@[j]@) is Ok
                },
        },
{
    let mut out: Vec<u128> = Vec::new();
    let mut i: usize = 0;
    while i < short_ids.len()
        invariant
            0 <= i <= short_ids.len(),
            out.len() == i,
            forall|j: int|
                0 <= j < i ==> resolution(store@.all_ids(), #[trigger] short_ids@[j]@) == Ok::<
                    u128,
                    Seq<u128>,
                >(out@[j]),
        decreases short_ids.len() - i,
    {
        match store.resolve_id(short_ids[i].as_str()) {
            Ok(id) => {
                out.push(id);
            },
            Err(e) => {
                assert(resolution(store@.all_ids(), short_ids@[i as int]@) is Err);
                return Err(e);
            },
        }
        i += 1;
    }
    Ok(out)
}

/// What stands for a record of the class in a plan of edits.
pub open spec fn target_of(class: EntityClass, id: u128) -> EditTarget {
    match class {
        EntityClass::Task => EditTarget::Task(id),
        EntityClass::Project => EditTarget::Project(id),
        EntityClass::Tag => EditTarget::Tag(id),
    }
}

/// Whether the targets are the records of the class that the short
/// identifiers resolve to, one for one; none where no short identifiers are
/// given.
pub open spec fn resolved_targets(
    store: StoreView,
    short_ids: Option<Vec<String>>,
    class: EntityClass,
    targets: Seq<EditTarget>,
) -> bool {
    match short_ids {
        None => targets.len() == 0,
        Some(given) => targets.len() == given.len() && forall|i: int|
            0 <= i < given.len() ==> (#[trigger] resolution(store.all_ids(), given@[i]@) matches Ok(
                id,
            ) && targets[i] == target_of(class, id)),
    }
}

/// Whether each of the short identifiers resolves.
pub open spec fn all_resolve(store: StoreView, short_ids: Option<Vec<String>>) -> bool {
    short_ids matches Some(given) ==> forall|i: int|
        0 <= i < given.len() ==> #[trigger] resolution(store.all_ids(), given@[i]@) is Ok
}

/// The records of the class that the short identifiers resolve to, as
/// targets of an edit.
pub fn resolve_targets(store: &Store, short_ids: &Option<Vec<String>>, class: EntityClass) -> (r:
    Result<Vec<EditTarget>, Error>)
    ensures
        match r {
            Ok(targets) => resolved_targets(store@, *short_ids, class, targets@),
            Err(_) => !all_resolve(store@, *short_ids),
        },
{
    let mut targets: Vec<EditTarget> = Vec::new();
    match short_ids {
        None => {},
        Some(given) => {
            let ids = match resolve_each(store, given) {
                Ok(ids) => ids,
                Err(e) => {
                    return Err(e);
                },
            };
            let mut i: usize = 0;
            while i < ids.len()
                invariant
                    0 <= i <= ids.len(),
                    targets.len() == i,
                    forall|j: int| 0 <= j < i ==> #[trigger] targets@[j] == target_of(class, ids@[j]),
                decreases ids.len() - i,
            {
                let target = match class {
                    EntityClass::Task => EditTarget::Task(ids[i]),
                    EntityClass::Project => EditTarget::Project(ids[i]),
                    EntityClass::Tag => EditTarget::Tag(ids[i]),
                };
                targets.push(target);
                i += 1;
            }
        },
    }
    Ok(targets)
}

/// What an edit command asks to be edited, in order: all tags where it says
/// so; else all tasks where it says so; else the tasks, then the projects,
/// then the tags that its short identifiers resolve to. A short identifier
/// that does not resolve fails the whole command.
pub fn plan_edits(params: &Edit, store: &Store) -> (r: Result<Vec<EditTarget>, Error>)
    ensures
        params.all_tags ==> (r matches Ok(plan) && plan@ == seq![EditTarget::AllTags]),
        !params.all_tags && params.all ==> (r matches Ok(plan) && plan@ == seq![
            EditTarget::AllTasks,
        ]),
        !params.all_tags && !params.all ==> match r {
            Ok(plan) => exists|tasks: Seq<EditTarget>, projects: Seq<EditTarget>, tags: Seq<EditTarget>|
                {
                    &&& resolved_targets(store@, params.task_id, EntityClass::Task, tasks)
                    &&& resolved_targets(store@, params.project_id, EntityClass::Project, projects)
                    &&& resolved_targets(store@, params.tag_id, EntityClass::Tag, tags)
                    &&& plan@ == tasks + projects + tags
                },
            Err(_) => !(all_resolve(store@, params.task_id) && all_resolve(
                store@,
                params.project_id,
            ) && all_resolve(store@, params.tag_id)),
        },
{
    let mut plan: Vec<EditTarget> = Vec::new();
    if params.all_tags {
        plan.push(EditTarget::AllTags);
        assert(plan@ =~= seq![EditTarget::AllTags]);
        return Ok(plan);
    }
    if params.all {
        plan.push(EditTarget::AllTasks);
        assert(plan@ =~= seq![EditTarget::AllTasks]);
        return Ok(plan);
    }
    let mut tasks = match resolve_targets(store, &params.task_id, EntityClass::Task) {
        Ok(t) => t,
        Err(e) => {
            return Err(e);
        },
    };
    let mut projects = match resolve_targets(store, &params.project_id, EntityClass::Project) {
        Ok(t) => t,
        Err(e) => {
            return Err(e);
        },
    };
    let mut tags = match resolve_targets(store, &params.tag_id, EntityClass::Tag) {
        Ok(t) => t,
        Err(e) => {
            return Err(e);
        },
    };
    let ghost a = tasks@;
    let ghost b = projects@;
    let ghost c = tags@;
    plan.append(&mut tasks);
    plan.append(&mut projects);
    plan.append(&mut tags);
    assert(plan@ =~= a + b + c);
    Ok(plan)
}

} // verus!
