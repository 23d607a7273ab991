//! The tokens of a snapshot: which tokens stand for a category, a task and a
//! whole store, and what a run of tokens is read as.

use vstd::prelude::*;
use crate::category::CategoryView;
use crate::codec::decimal::{
    decimal, lemma_decimal_len, lemma_number_round_trip, lemma_pow10_20, lemma_signed_round_trip,
    number_u64, signed, signed_i64,
};
use crate::codec::frame::{all_fit, frames, lemma_unframes, unframes};
use crate::ident::{id_text, id_value, lemma_id_round_trip};
use crate::store::StoreView;
use crate::task::{TaskState, TaskView};
use crate::time::{DateTimeInterval, Timestamp};

verus! {

/// Whether the tokens `part` stand in `tokens` from position `i` on.
pub open spec fn holds_at(tokens: Seq<Seq<char>>, i: int, part: Seq<Seq<char>>) -> bool {
    0 <= i && i + part.len() <= tokens.len() && tokens.subrange(i, i + part.len()) == part
}

/// Where two runs of tokens stand one after the other, each stands where it
/// does.
pub proof fn lemma_holds_at_add(
    tokens: Seq<Seq<char>>,
    i: int,
    a: Seq<Seq<char>>,
    b: Seq<Seq<char>>,
)
    requires
        holds_at(tokens, i, a + b),
    ensures
        holds_at(tokens, i, a),
        holds_at(tokens, i + a.len(), b),
{
    let whole = tokens.subrange(i, i + (a + b).len());
    assert(tokens.subrange(i, i + a.len()) =~= a) by {
        assert forall|k: int| 0 <= k < a.len() implies tokens.subrange(i, i + a.len())[k] == a[k] by {
            assert(whole[k] == (a + b)[k]);
        }
    }
    assert(tokens.subrange(i + a.len(), i + a.len() + b.len()) =~= b) by {
        assert forall|k: int| 0 <= k < b.len() implies tokens.subrange(
            i + a.len(),
            i + a.len() + b.len(),
        )[k] == b[k] by {
            assert(whole[a.len() + k] == (a + b)[a.len() + k]);
        }
    }
}

/// The token of a state.
pub open spec fn state_token(state: TaskState) -> Seq<char> {
    match state {
        TaskState::Active => seq!['a', 'c', 't', 'i', 'v', 'e'],
        TaskState::Paused => seq!['p', 'a', 'u', 's', 'e', 'd'],
        TaskState::Stopped => seq!['s', 't', 'o', 'p', 'p', 'e', 'd'],
    }
}

/// The state that a token stands for.
pub open spec fn state_value(token: Seq<char>) -> Option<TaskState> {
    if token == state_token(TaskState::Active) {
        Some(TaskState::Active)
    } else if token == state_token(TaskState::Paused) {
        Some(TaskState::Paused)
    } else if token == state_token(TaskState::Stopped) {
        Some(TaskState::Stopped)
    } else {
        None
    }
}

/// The token of a state is read back as that state.
pub proof fn lemma_state_round_trip(state: TaskState)
    ensures
        state_value(state_token(state)) == Some(state),
{
    let a = state_token(TaskState::Active);
    let p = state_token(TaskState::Paused);
    let s = state_token(TaskState::Stopped);
    assert(a[0] == 'a' && p[0] == 'p' && s[0] == 's');
}

/// The token of a timestamp: its text.
pub open spec fn stamp_token(t: Timestamp) -> Seq<char> {
    match t.text() {
        Some(text) => text,
        None => Seq::empty(),
    }
}

/// The token of a timestamp that may be missing: empty where it is.
pub open spec fn optional_stamp_token(t: Option<Timestamp>) -> Seq<char> {
    match t {
        Some(t) => stamp_token(t),
        None => Seq::empty(),
    }
}

/// The timestamp, or none, that a token stands for.
pub open spec fn optional_stamp_value(token: Seq<char>) -> Option<Option<Timestamp>> {
    if token.len() == 0 {
        Some(None)
    } else {
        match Timestamp::of_text(token) {
            Some(t) => Some(Some(t)),
            None => None,
        }
    }
}

/// Whether a timestamp that may be missing can be written and read back.
pub open spec fn optional_printable(t: Option<Timestamp>) -> bool {
    t matches Some(t) ==> t.printable()
}

/// The tokens of a category: its identifier and its name.
pub open spec fn category_tokens(c: CategoryView) -> Seq<Seq<char>> {
    seq![id_text(c.id), c.name]
}

/// The tokens of categories, one after the other.
pub open spec fn categories_tokens(cs: Seq<CategoryView>) -> Seq<Seq<char>>
    decreases cs.len(),
{
    if cs.len() == 0 {
        Seq::empty()
    } else {
        categories_tokens(cs.drop_last()) + category_tokens(cs.last())
    }
}

/// The category that the two tokens from position `i` on stand for.
pub open spec fn read_category(tokens: Seq<Seq<char>>, i: int) -> Option<CategoryView> {
    if 0 <= i && i + 2 <= tokens.len() {
        match id_value(tokens[i]) {
            Some(id) => Some(CategoryView { id, name: tokens[i + 1] }),
            None => None,
        }
    } else {
        None
    }
}

/// The `n` categories that the tokens from position `i` on stand for.
pub open spec fn read_categories(tokens: Seq<Seq<char>>, i: int, n: nat) -> Option<
    Seq<CategoryView>,
>
    decreases n,
{
    if n == 0 {
        Some(Seq::empty())
    } else {
        match read_categories(tokens, i, (n - 1) as nat) {
            Some(done) => match read_category(tokens, i + 2 * (n - 1)) {
                Some(c) => Some(done.push(c)),
                None => None,
            },
            None => None,
        }
    }
}

/// The tokens of identifiers: their texts.
pub open spec fn ids_tokens(ids: Seq<u128>) -> Seq<Seq<char>> {
    Seq::new(ids.len(), |k: int| id_text(ids[k]))
}

/// The `n` identifiers that the tokens from position `i` on stand for.
pub open spec fn read_ids(tokens: Seq<Seq<char>>, i: int, n: nat) -> Option<Seq<u128>>
    decreases n,
{
    if n == 0 {
        Some(Seq::empty())
    } else {
        match read_ids(tokens, i, (n - 1) as nat) {
            Some(done) => if 0 <= i + n - 1 < tokens.len() {
                match id_value(tokens[i + n - 1]) {
                    Some(id) => Some(done.push(id)),
                    None => None,
                }
            } else {
                None
            },
            None => None,
        }
    }
}

/// How many tokens a task has before those of its tags.
pub const TASK_FIELDS: usize = 9;

/// The tokens of a task: its identifier, that of its project, its title, its
/// state, its start, its stop, its accumulated pause, the beginning of its
/// pause, the number of its tags, and the identifiers of its tags.
pub open spec fn task_tokens(t: TaskView) -> Seq<Seq<char>> {
    seq![
        id_text(t.id),
        id_text(t.project_id),
        t.title,
        state_token(t.state),
        stamp_token(t.interval.start_time),
        optional_stamp_token(t.interval.stop_time),
        signed(t.paused_duration),
        optional_stamp_token(t.pause_started),
        decimal(t.tag_ids.len()),
    ] + ids_tokens(t.tag_ids)
}

/// The task that the tokens from position `i` on stand for, and the position
/// after them.
pub open spec fn read_task(tokens: Seq<Seq<char>>, i: int) -> Option<(TaskView, int)> {
    if 0 <= i && i + TASK_FIELDS <= tokens.len() {
        match (
            id_value(tokens[i]),
            id_value(tokens[i + 1]),
            state_value(tokens[i + 3]),
            Timestamp::of_text(tokens[i + 4]),
            optional_stamp_value(tokens[i + 5]),
            signed_i64(tokens[i + 6]),
            optional_stamp_value(tokens[i + 7]),
            number_u64(tokens[i + 8]),
        ) {
            (
                Some(id),
                Some(project_id),
                Some(state),
                Some(start_time),
                Some(stop_time),
                Some(paused),
                Some(pause_started),
                Some(n),
            ) => match read_ids(tokens, i + TASK_FIELDS, n as nat) {
                Some(tag_ids) => Some(
                    (
                        TaskView {
                            id,
                            project_id,
                            title: tokens[i + 2],
                            tag_ids,
                            interval: DateTimeInterval { start_time, stop_time },
                            paused_duration: paused as int,
                            state,
                            pause_started,
                        },
                        i + TASK_FIELDS + n,
                    ),
                ),
                None => None,
            },
            _ => None,
        }
    } else {
        None
    }
}

/// The tokens of tasks, one after the other.
pub open spec fn tasks_tokens(tasks: Seq<TaskView>) -> Seq<Seq<char>>
    decreases tasks.len(),
{
    if tasks.len() == 0 {
        Seq::empty()
    } else {
        tasks_tokens(tasks.drop_last()) + task_tokens(tasks.last())
    }
}

/// The `n` tasks that the tokens from position `i` on stand for, and the
/// position after them.
pub open spec fn read_tasks(tokens: Seq<Seq<char>>, i: int, n: nat) -> Option<(Seq<TaskView>, int)>
    decreases n,
{
    if n == 0 {
        Some((Seq::empty(), i))
    } else {
        match read_tasks(tokens, i, (n - 1) as nat) {
            Some((done, at)) => match read_task(tokens, at) {
                Some((task, next)) => Some((done.push(task), next)),
                None => None,
            },
            None => None,
        }
    }
}

/// The token that a snapshot begins with.
pub open spec fn magic() -> Seq<char> {
    seq!['b', 'u', 's', 'y']
}

/// The tokens of a store: the word that begins every snapshot; the number
/// of projects and the projects; the number of tags and the tags; the number
/// of tasks and the tasks.
pub open spec fn store_tokens(s: StoreView) -> Seq<Seq<char>> {
    seq![magic(), decimal(s.projects.len())] + (categories_tokens(s.projects) + (seq![
        decimal(s.tags.len()),
    ] + (categories_tokens(s.tags) + (seq![decimal(s.tasks.len())] + tasks_tokens(s.tasks)))))
}

/// The store that the tokens stand for; none where they stand for none.
pub open spec fn read_store(tokens: Seq<Seq<char>>) -> Option<StoreView> {
    if tokens.len() >= 2 && tokens[0] == magic() {
        match number_u64(tokens[1]) {
            Some(np) => match read_categories(tokens, 2, np as nat) {
                Some(projects) => {
                    let i = 2 + 2 * np;
                    if i < tokens.len() {
                        match number_u64(tokens[i]) {
                            Some(nt) => match read_categories(tokens, i + 1, nt as nat) {
                                Some(tags) => {
                                    let j = i + 1 + 2 * nt;
                                    if j < tokens.len() {
                                        match number_u64(tokens[j]) {
                                            Some(nk) => match read_tasks(tokens, j + 1, nk as nat) {
                                                Some((tasks, end)) => if end == tokens.len() {
                                                    Some(StoreView { tasks, projects, tags })
                                                } else {
                                                    None
                                                },
                                                None => None,
                                            },
                                            None => None,
                                        }
                                    } else {
                                        None
                                    }
                                },
                                None => None,
                            },
                            None => None,
                        }
                    } else {
                        None
                    }
                },
                None => None,
            },
            None => None,
        }
    } else {
        None
    }
}

/// The text of a snapshot: the tokens of the store, each written with its
/// length before it.
pub open spec fn encoding(s: StoreView) -> Seq<char> {
    frames(store_tokens(s))
}

/// The store that a text stands for; none where the text is not the text of
/// a snapshot.
pub open spec fn decoding(text: Seq<char>) -> Option<StoreView> {
    match unframes(text) {
        Some(tokens) => read_store(tokens),
        None => None,
    }
}

/// Whether a category can be written: whether the length of its name can.
pub open spec fn category_storable(c: CategoryView) -> bool {
    c.name.len() <= u64::MAX
}

/// Whether a task can be written and read back: its timestamps must be ones
/// that can, and its numbers and lengths must fit in 64 bits.
pub open spec fn task_storable(t: TaskView) -> bool {
    &&& t.interval.start_time.printable()
    &&& optional_printable(t.interval.stop_time)
    &&& optional_printable(t.pause_started)
    &&& i64::MIN <= t.paused_duration <= i64::MAX
    &&& t.title.len() <= u64::MAX
    &&& t.tag_ids.len() <= u64::MAX
}

/// Whether a store can be written and read back: whether all its records
/// can, and their numbers fit in 64 bits.
pub open spec fn storable(s: StoreView) -> bool {
    &&& s.tasks.len() <= u64::MAX
    &&& s.projects.len() <= u64::MAX
    &&& s.tags.len() <= u64::MAX
    &&& forall|i: int| 0 <= i < s.tasks.len() ==> task_storable(#[trigger] s.tasks[i])
    &&& forall|i: int| 0 <= i < s.projects.len() ==> category_storable(#[trigger] s.projects[i])
    &&& forall|i: int| 0 <= i < s.tags.len() ==> category_storable(#[trigger] s.tags[i])
}

/// The tokens of a category are read back as the category.
pub proof fn lemma_read_category(tokens: Seq<Seq<char>>, i: int, c: CategoryView)
    requires
        holds_at(tokens, i, category_tokens(c)),
    ensures
        read_category(tokens, i) == Some(c),
{
    let part = tokens.subrange(i, i + 2);
    assert(part[0] == tokens[i] && part[1] == tokens[i + 1]);
    lemma_id_round_trip(c.id);
}

/// Categories have two tokens each.
pub proof fn lemma_categories_tokens_len(cs: Seq<CategoryView>)
    ensures
        categories_tokens(cs).len() == 2 * cs.len(),
    decreases cs.len(),
{
    if cs.len() > 0 {
        lemma_categories_tokens_len(cs.drop_last());
    }
}

/// The tokens of categories are read back as the categories.
pub proof fn lemma_read_categories(tokens: Seq<Seq<char>>, i: int, cs: Seq<CategoryView>)
    requires
        holds_at(tokens, i, categories_tokens(cs)),
    ensures
        read_categories(tokens, i, cs.len()) == Some(cs),
    decreases cs.len(),
{
    if cs.len() > 0 {
        let init = cs.drop_last();
        lemma_categories_tokens_len(init);
        lemma_holds_at_add(tokens, i, categories_tokens(init), category_tokens(cs.last()));
        lemma_read_categories(tokens, i, init);
        lemma_read_category(tokens, i + 2 * (cs.len() - 1), cs.last());
        assert(init.push(cs.last()) =~= cs);
    } else {
        assert(cs =~= Seq::<CategoryView>::empty());
    }
}

/// The tokens of identifiers are read back as the identifiers.
pub proof fn lemma_read_ids(tokens: Seq<Seq<char>>, i: int, ids: Seq<u128>, n: nat)
    requires
        holds_at(tokens, i, ids_tokens(ids)),
        n <= ids.len(),
    ensures
        read_ids(tokens, i, n) == Some(ids.take(n as int)),
    decreases n,
{
    if n == 0 {
        assert(ids.take(0) =~= Seq::<u128>::empty());
    } else {
        lemma_read_ids(tokens, i, ids, (n - 1) as nat);
        let part = tokens.subrange(i, i + ids.len());
        assert(part[n - 1] == tokens[i + n - 1]);
        assert(ids_tokens(ids)[n - 1] == id_text(ids[n - 1]));
        lemma_id_round_trip(ids[n - 1]);
        assert(ids.take(n - 1).push(ids[n - 1]) =~= ids.take(n as int));
    }
}

/// The token of a timestamp that can be written and that may be missing is
/// read back as what it was.
pub proof fn lemma_optional_stamp_round_trip(t: Option<Timestamp>)
    requires
        optional_printable(t),
    ensures
        optional_stamp_value(optional_stamp_token(t)) == Some(t),
{
}

/// The tokens of a task that can be stored are read back as the task.
pub proof fn lemma_read_task(tokens: Seq<Seq<char>>, i: int, t: TaskView)
    requires
        holds_at(tokens, i, task_tokens(t)),
        task_storable(t),
    ensures
        read_task(tokens, i) == Some((t, i + task_tokens(t).len())),
{
    let fields = seq![
        id_text(t.id),
        id_text(t.project_id),
        t.title,
        state_token(t.state),
        stamp_token(t.interval.start_time),
        optional_stamp_token(t.interval.stop_time),
        signed(t.paused_duration),
        optional_stamp_token(t.pause_started),
        decimal(t.tag_ids.len()),
    ];
    assert(fields.len() == TASK_FIELDS);
    lemma_holds_at_add(tokens, i, fields, ids_tokens(t.tag_ids));
    let part = tokens.subrange(i, i + TASK_FIELDS);
    assert(part == fields);
    assert(tokens[i] == part[0] && tokens[i + 1] == part[1] && tokens[i + 2] == part[2] && tokens[i
        + 3] == part[3] && tokens[i + 4] == part[4] && tokens[i + 5] == part[5] && tokens[i + 6]
        == part[6] && tokens[i + 7] == part[7] && tokens[i + 8] == part[8]);
    lemma_id_round_trip(t.id);
    lemma_id_round_trip(t.project_id);
    lemma_state_round_trip(t.state);
    lemma_optional_stamp_round_trip(t.interval.stop_time);
    lemma_optional_stamp_round_trip(t.pause_started);
    lemma_signed_round_trip(t.paused_duration as i64);
    lemma_number_round_trip(t.tag_ids.len());
    lemma_read_ids(tokens, i + TASK_FIELDS, t.tag_ids, t.tag_ids.len());
    assert(t.tag_ids.take(t.tag_ids.len() as int) =~= t.tag_ids);
    let (got, _) = read_task(tokens, i).unwrap();
    assert(got.interval == t.interval);
    assert(got == t);
}

/// The tokens of tasks that can be stored are read back as the tasks.
pub proof fn lemma_read_tasks(tokens: Seq<Seq<char>>, i: int, tasks: Seq<TaskView>)
    requires
        holds_at(tokens, i, tasks_tokens(tasks)),
        forall|k: int| 0 <= k < tasks.len() ==> task_storable(#[trigger] tasks[k]),
    ensures
        read_tasks(tokens, i, tasks.len()) == Some((tasks, i + tasks_tokens(tasks).len())),
    decreases tasks.len(),
{
    if tasks.len() > 0 {
        let init = tasks.drop_last();
        lemma_holds_at_add(tokens, i, tasks_tokens(init), task_tokens(tasks.last()));
        assert forall|k: int| 0 <= k < init.len() implies task_storable(#[trigger] init[k]) by {
            assert(init[k] == tasks[k]);
        }
        lemma_read_tasks(tokens, i, init);
        lemma_read_task(tokens, i + tasks_tokens(init).len(), tasks.last());
        assert(init.push(tasks.last()) =~= tasks);
    } else {
        assert(tasks =~= Seq::<TaskView>::empty());
    }
}

/// Every token of a number that fits in 64 bits fits.
proof fn lemma_decimal_fits(n: nat)
    requires
        n <= u64::MAX,
    ensures
        decimal(n).len() <= 20,
{
    lemma_pow10_20();
    lemma_decimal_len(n, 20);
}

/// Every token of categories that can be stored fits.
proof fn lemma_categories_fit(cs: Seq<CategoryView>)
    requires
        forall|i: int| 0 <= i < cs.len() ==> category_storable(#[trigger] cs[i]),
    ensures
        all_fit(categories_tokens(cs)),
    decreases cs.len(),
{
    if cs.len() > 0 {
        let init = cs.drop_last();
        assert forall|i: int| 0 <= i < init.len() implies category_storable(#[trigger] init[i]) by {
            assert(init[i] == cs[i]);
        }
        lemma_categories_fit(init);
        let a = categories_tokens(init);
        let b = category_tokens(cs.last());
        assert forall|k: int| 0 <= k < (a + b).len() implies (#[trigger] (a + b)[k]).len()
            <= u64::MAX by {
            if k < a.len() {
                assert((a + b)[k] == a[k]);
            } else {
                assert((a + b)[k] == b[k - a.len()]);
                assert(category_storable(cs[cs.len() - 1]));
            }
        }
    }
}

/// Every token of a task that can be stored fits.
proof fn lemma_task_fits(t: TaskView)
    requires
        task_storable(t),
    ensures
        all_fit(task_tokens(t)),
{
    let ts = task_tokens(t);
    lemma_decimal_fits(t.tag_ids.len());
    if t.paused_duration < 0 {
        lemma_decimal_fits((-t.paused_duration) as nat);
    } else {
        lemma_decimal_fits(t.paused_duration as nat);
    }
    assert forall|k: int| 0 <= k < ts.len() implies (#[trigger] ts[k]).len() <= u64::MAX by {
        if k >= TASK_FIELDS {
            assert(ts[k] == ids_tokens(t.tag_ids)[k - TASK_FIELDS]);
        }
    }
}

/// Every token of tasks that can be stored fits.
proof fn lemma_tasks_fit(tasks: Seq<TaskView>)
    requires
        forall|i: int| 0 <= i < tasks.len() ==> task_storable(#[trigger] tasks[i]),
    ensures
        all_fit(tasks_tokens(tasks)),
    decreases tasks.len(),
{
    if tasks.len() > 0 {
        let init = tasks.drop_last();
        assert forall|i: int| 0 <= i < init.len() implies task_storable(#[trigger] init[i]) by {
            assert(init[i] == tasks[i]);
        }
        lemma_tasks_fit(init);
        lemma_task_fits(tasks.last());
        let a = tasks_tokens(init);
        let b = task_tokens(tasks.last());
        assert forall|k: int| 0 <= k < (a + b).len() implies (#[trigger] (a + b)[k]).len()
            <= u64::MAX by {
            if k < a.len() {
                assert((a + b)[k] == a[k]);
            } else {
                assert((a + b)[k] == b[k - a.len()]);
            }
        }
    }
}

/// Two runs of tokens that fit, one after the other, fit.
proof fn lemma_all_fit_add(a: Seq<Seq<char>>, b: Seq<Seq<char>>)
    requires
        all_fit(a),
        all_fit(b),
    ensures
        all_fit(a + b),
{
    assert forall|k: int| 0 <= k < (a + b).len() implies (#[trigger] (a + b)[k]).len()
        <= u64::MAX by {
        if k < a.len() {
            assert((a + b)[k] == a[k]);
        } else {
            assert((a + b)[k] == b[k - a.len()]);
        }
    }
}

/// A token that fits, alone.
proof fn lemma_one_fits(token: Seq<char>)
    requires
        token.len() <= u64::MAX,
    ensures
        all_fit(seq![token]),
{
}

/// Each token of a store that can be stored fits.
pub proof fn lemma_store_fits(s: StoreView)
    requires
        storable(s),
    ensures
        all_fit(store_tokens(s)),
{
    let head = seq![magic(), decimal(s.projects.len())];
    let projects = categories_tokens(s.projects);
    let tag_count = seq![decimal(s.tags.len())];
    let tags = categories_tokens(s.tags);
    let task_count = seq![decimal(s.tasks.len())];
    let tasks = tasks_tokens(s.tasks);
    lemma_categories_fit(s.projects);
    lemma_categories_fit(s.tags);
    lemma_tasks_fit(s.tasks);
    lemma_decimal_fits(s.projects.len());
    lemma_decimal_fits(s.tags.len());
    lemma_decimal_fits(s.tasks.len());
    lemma_one_fits(decimal(s.tags.len()));
    lemma_one_fits(decimal(s.tasks.len()));
    assert(all_fit(head));
    lemma_all_fit_add(task_count, tasks);
    lemma_all_fit_add(tags, task_count + tasks);
    lemma_all_fit_add(tag_count, tags + (task_count + tasks));
    lemma_all_fit_add(projects, tag_count + (tags + (task_count + tasks)));
    lemma_all_fit_add(head, projects + (tag_count + (tags + (task_count + tasks))));
}

/// The tokens of a store that can be stored are read back as the store.
pub proof fn lemma_read_store(s: StoreView)
    requires
        storable(s),
    ensures
        read_store(store_tokens(s)) == Some(s),
{
    let head = seq![magic(), decimal(s.projects.len())];
    let projects = categories_tokens(s.projects);
    let tag_count = seq![decimal(s.tags.len())];
    let tags = categories_tokens(s.tags);
    let task_count = seq![decimal(s.tasks.len())];
    let tasks = tasks_tokens(s.tasks);
    let tokens = store_tokens(s);
    let rest1 = projects + (tag_count + (tags + (task_count + tasks)));
    let rest2 = tag_count + (tags + (task_count + tasks));
    let rest3 = tags + (task_count + tasks);
    let rest4 = task_count + tasks;
    lemma_categories_tokens_len(s.projects);
    lemma_categories_tokens_len(s.tags);
    let i: int = 2 + 2 * (s.projects.len() as int);
    let j: int = i + 1 + 2 * (s.tags.len() as int);
    assert(holds_at(tokens, 0, head + rest1)) by {
        assert(tokens.subrange(0, tokens.len() as int) =~= tokens);
    }
    lemma_holds_at_add(tokens, 0, head, rest1);
    lemma_holds_at_add(tokens, 2, projects, rest2);
    lemma_holds_at_add(tokens, i, tag_count, rest3);
    lemma_holds_at_add(tokens, i + 1, tags, rest4);
    lemma_holds_at_add(tokens, j, task_count, tasks);
    lemma_store_head(tokens, s, i, j);
    lemma_read_categories(tokens, 2, s.projects);
    lemma_read_categories(tokens, i + 1, s.tags);
    lemma_read_tasks(tokens, j + 1, s.tasks);
}

/// Where the counts of a store stand among its tokens.
proof fn lemma_store_head(tokens: Seq<Seq<char>>, s: StoreView, i: int, j: int)
    requires
        storable(s),
        holds_at(tokens, 0, seq![magic(), decimal(s.projects.len())]),
        holds_at(tokens, i, seq![decimal(s.tags.len())]),
        holds_at(tokens, j, seq![decimal(s.tasks.len())]),
    ensures
        tokens.len() >= 2,
        tokens[0] == magic(),
        number_u64(tokens[1]) == Some(s.projects.len() as u64),
        i < tokens.len(),
        number_u64(tokens[i]) == Some(s.tags.len() as u64),
        j < tokens.len(),
        number_u64(tokens[j]) == Some(s.tasks.len() as u64),
{
    lemma_number_round_trip(s.projects.len());
    lemma_number_round_trip(s.tags.len());
    lemma_number_round_trip(s.tasks.len());
    let head = tokens.subrange(0, 2);
    assert(head[0] == tokens[0] && head[1] == tokens[1]);
    assert(tokens.subrange(i, i + 1)[0] == tokens[i]);
    assert(tokens.subrange(j, j + 1)[0] == tokens[j]);
}

/// A store that can be stored is read back from its text as it was.
pub proof fn lemma_round_trip(s: StoreView)
    requires
        storable(s),
    ensures
        decoding(encoding(s)) == Some(s),
{
    lemma_read_store(s);
    lemma_store_fits(s);
    lemma_unframes(store_tokens(s));
}

} // verus!
