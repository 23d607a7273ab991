//! Writing a snapshot as text and reading it back.

use vstd::prelude::*;
use crate::category::{Category, CategoryView};
use crate::codec::chars::{chars_of, string_of};
use crate::codec::decimal::{
    decimal, number_u64, read_number, read_signed, signed, write_number, write_signed,
};
use crate::codec::frame::{frames, put_token, split_tokens, token_texts};
use crate::codec::records::{
    categories_tokens, category_storable, category_tokens, decoding, encoding, ids_tokens,
    lemma_round_trip, magic, optional_printable, optional_stamp_token, optional_stamp_value,
    read_categories, read_category, read_ids, read_store, read_task, read_tasks, stamp_token,
    state_token, state_value, storable, task_storable, task_tokens, tasks_tokens, TASK_FIELDS,
};
use crate::entity::views;
use crate::error::Error;
use crate::ident::{hyphenated, id_text, parse_id};
use crate::store::{Snapshot, Store, StoreView};
use crate::task::{Task, TaskState, TaskView};
use crate::time::{DateTimeInterval, Timestamp};

verus! {

/// The text of an identifier, as characters.
pub fn id_chars(id: u128) -> (r: Vec<char>)
    ensures
        r@ == id_text(id),
{
    let text = hyphenated(id);
    chars_of(text.as_str())
}

/// A number in decimal, as characters.
pub fn number_chars(n: usize) -> (r: Vec<char>)
    ensures
        r@ == decimal(n as nat),
{
    let mut out: Vec<char> = Vec::new();
    write_number(&mut out, n as u64);
    out
}

/// The token of a state.
pub fn state_chars(state: TaskState) -> (r: Vec<char>)
    ensures
        r@ == state_token(state),
{
    let r = match state {
        TaskState::Active => vec!['a', 'c', 't', 'i', 'v', 'e'],
        TaskState::Paused => vec!['p', 'a', 'u', 's', 'e', 'd'],
        TaskState::Stopped => vec!['s', 't', 'o', 'p', 'p', 'e', 'd'],
    };
    assert(r@ =~= state_token(state));
    r
}

/// Whether the two lists hold the same characters.
pub fn same_chars(a: &Vec<char>, b: &Vec<char>) -> (r: bool)
    ensures
        r == (a@ == b@),
{
    if a.len() != b.len() {
        return false;
    }
    let mut i: usize = 0;
    while i < a.len()
        invariant
            a.len() == b.len(),
            0 <= i <= a.len(),
            forall|j: int| 0 <= j < i ==> a@[j] == b@[j],
        decreases a.len() - i,
    {
        if a[i] != b[i] {
            return false;
        }
        i += 1;
    }
    assert(a@ =~= b@);
    true
}

/// The state that a token stands for.
pub fn parse_state(token: &Vec<char>) -> (r: Option<TaskState>)
    ensures
        r == state_value(token@),
{
    if same_chars(token, &state_chars(TaskState::Active)) {
        Some(TaskState::Active)
    } else if same_chars(token, &state_chars(TaskState::Paused)) {
        Some(TaskState::Paused)
    } else if same_chars(token, &state_chars(TaskState::Stopped)) {
        Some(TaskState::Stopped)
    } else {
        None
    }
}

/// The token of a timestamp, provided that the timestamp can be written and
/// read back.
pub fn stamp_chars(t: &Timestamp) -> (r: Option<Vec<char>>)
    ensures
        match r {
            Some(token) => t.printable() && token@ == stamp_token(*t),
            None => !t.printable(),
        },
{
    match t.printed() {
        Some(text) => Some(chars_of(text.as_str())),
        None => None,
    }
}

/// The token of a timestamp that may be missing, provided that the
/// timestamp can be written and read back.
pub fn optional_stamp_chars(t: &Option<Timestamp>) -> (r: Option<Vec<char>>)
    ensures
        match r {
            Some(token) => optional_printable(*t) && token@ == optional_stamp_token(*t),
            None => !optional_printable(*t),
        },
{
    match t {
        Some(t) => stamp_chars(t),
        None => Some(Vec::new()),
    }
}

/// The timestamp that a token stands for.
pub fn parse_stamp(token: &Vec<char>) -> (r: Option<Timestamp>)
    ensures
        r == Timestamp::of_text(token@),
{
    let text = string_of(token, 0, token.len());
    assert(token@.subrange(0, token.len() as int) =~= token@);
    Timestamp::parse_text(text.as_str())
}

/// The timestamp, or none, that a token stands for.
pub fn parse_optional_stamp(token: &Vec<char>) -> (r: Option<Option<Timestamp>>)
    ensures
        r == optional_stamp_value(token@),
{
    if token.len() == 0 {
        Some(None)
    } else {
        match parse_stamp(token) {
            Some(t) => Some(Some(t)),
            None => None,
        }
    }
}

/// Puts the tokens of a category at the end.
pub fn put_category(tokens: &mut Vec<Vec<char>>, c: &Category)
    ensures
        token_texts(final(tokens)@) == token_texts(old(tokens)@) + category_tokens(c@),
        category_storable(c@),
{
    let name = chars_of(c.name());
    assert(name.len() <= u64::MAX);
    tokens.push(id_chars(c.id()));
    tokens.push(name);
    assert(token_texts(tokens@) =~= token_texts(old(tokens)@) + category_tokens(c@));
}

/// Puts the tokens of the categories at the end.
pub fn put_categories(tokens: &mut Vec<Vec<char>>, list: &Vec<Category>)
    ensures
        token_texts(final(tokens)@) == token_texts(old(tokens)@) + categories_tokens(views(list@)),
        forall|k: int| 0 <= k < list.len() ==> category_storable(#[trigger] views(list@)[k]),
{
    let ghost all = views(list@);
    let mut i: usize = 0;
    assert(all.take(0) =~= Seq::<CategoryView>::empty());
    assert(token_texts(tokens@) =~= token_texts(old(tokens)@) + categories_tokens(all.take(0)));
    while i < list.len()
        invariant
            0 <= i <= list.len(),
            all == views(list@),
            forall|k: int| 0 <= k < i ==> category_storable(#[trigger] all[k]),
            token_texts(tokens@) == token_texts(old(tokens)@) + categories_tokens(
                all.take(i as int),
            ),
        decreases list.len() - i,
    {
        put_category(tokens, &list[i]);
        proof {
            let next = all.take(i + 1);
            assert(next.drop_last() =~= all.take(i as int));
            assert(next.last() == list@[i as int]@);
            assert(token_texts(tokens@) =~= token_texts(old(tokens)@) + categories_tokens(next));
        }
        i += 1;
    }
    assert(all.take(list.len() as int) =~= all);
}

/// Puts the tokens of a task at the end, provided that the task can be
/// stored; says whether it can.
pub fn put_task(tokens: &mut Vec<Vec<char>>, task: &Task) -> (r: bool)
    ensures
        r == task_storable(task@),
        r ==> token_texts(final(tokens)@) == token_texts(old(tokens)@) + task_tokens(task@),
{
    let interval = task.interval();
    let start = match stamp_chars(&interval.start_time) {
        Some(token) => token,
        None => {
            return false;
        },
    };
    let stop = match optional_stamp_chars(&interval.stop_time) {
        Some(token) => token,
        None => {
            return false;
        },
    };
    let pause = match optional_stamp_chars(&task.pause_started()) {
        Some(token) => token,
        None => {
            return false;
        },
    };
    let mut paused: Vec<char> = Vec::new();
    write_signed(&mut paused, task.paused_duration());
    let title = chars_of(task.title());
    let ids = task.tag_ids();
    assert(title.len() <= u64::MAX && ids.len() <= u64::MAX);
    assert(task_storable(task@));
    tokens.push(id_chars(task.id()));
    tokens.push(id_chars(task.project_id()));
    tokens.push(title);
    tokens.push(state_chars(task.state()));
    tokens.push(start);
    tokens.push(stop);
    tokens.push(paused);
    tokens.push(pause);
    tokens.push(number_chars(ids.len()));
    let ghost fields = token_texts(tokens@);
    let mut i: usize = 0;
    assert(ids_tokens(ids@.take(0)) =~= Seq::<Seq<char>>::empty());
    assert(token_texts(tokens@) =~= fields + ids_tokens(ids@.take(0)));
    while i < ids.len()
        invariant
            0 <= i <= ids.len(),
            ids@ == task@.tag_ids,
            token_texts(tokens@) == fields + ids_tokens(ids@.take(i as int)),
        decreases ids.len() - i,
    {
        let ghost before = token_texts(tokens@);
        tokens.push(id_chars(ids[i]));
        proof {
            assert(token_texts(tokens@) =~= before.push(id_text(ids@[i as int])));
            assert(ids_tokens(ids@.take(i + 1)) =~= ids_tokens(ids@.take(i as int)).push(
                id_text(ids@[i as int]),
            ));
            assert(before.push(id_text(ids@[i as int])) =~= fields + ids_tokens(
                ids@.take(i as int),
            ).push(id_text(ids@[i as int])));
        }
        i += 1;
    }
    proof {
        assert(ids@.take(ids.len() as int) =~= ids@);
        let first = seq![
            id_text(task@.id),
            id_text(task@.project_id),
            task@.title,
            state_token(task@.state),
            stamp_token(task@.interval.start_time),
            optional_stamp_token(task@.interval.stop_time),
            signed(task@.paused_duration),
            optional_stamp_token(task@.pause_started),
            decimal(task@.tag_ids.len()),
        ];
        assert(fields =~= token_texts(old(tokens)@) + first);
        assert(fields + ids_tokens(ids@) =~= token_texts(old(tokens)@) + (first + ids_tokens(ids@)));
    }
    true
}

/// Puts the tokens of the tasks at the end, provided that each can be
/// stored; says whether they can.
pub fn put_tasks(tokens: &mut Vec<Vec<char>>, list: &Vec<Task>) -> (r: bool)
    ensures
        r == (forall|k: int| 0 <= k < list.len() ==> task_storable(#[trigger] views(list@)[k])),
        r ==> token_texts(final(tokens)@) == token_texts(old(tokens)@) + tasks_tokens(views(list@)),
{
    let ghost all = views(list@);
    let mut i: usize = 0;
    assert(all.take(0) =~= Seq::<TaskView>::empty());
    assert(token_texts(tokens@) =~= token_texts(old(tokens)@) + tasks_tokens(all.take(0)));
    while i < list.len()
        invariant
            0 <= i <= list.len(),
            all == views(list@),
            forall|k: int| 0 <= k < i ==> task_storable(#[trigger] all[k]),
            token_texts(tokens@) == token_texts(old(tokens)@) + tasks_tokens(all.take(i as int)),
        decreases list.len() - i,
    {
        if !put_task(tokens, &list[i]) {
            assert(!task_storable(all[i as int]));
            return false;
        }
        proof {
            let next = all.take(i + 1);
            assert(next.drop_last() =~= all.take(i as int));
            assert(next.last() == list@[i as int]@);
            assert(token_texts(tokens@) =~= token_texts(old(tokens)@) + tasks_tokens(next));
        }
        i += 1;
    }
    assert(all.take(list.len() as int) =~= all);
    true
}

/// Writes the tokens, each with its length before it.
pub fn join_tokens(tokens: &Vec<Vec<char>>) -> (r: Vec<char>)
    ensures
        r@ == frames(token_texts(tokens@)),
{
    let ghost all = token_texts(tokens@);
    let mut out: Vec<char> = Vec::new();
    let mut i: usize = 0;
    assert(all.take(0) =~= Seq::<Seq<char>>::empty());
    while i < tokens.len()
        invariant
            0 <= i <= tokens.len(),
            all == token_texts(tokens@),
            out@ == frames(all.take(i as int)),
        decreases tokens.len() - i,
    {
        put_token(&mut out, &tokens[i]);
        proof {
            let next = all.take(i + 1);
            assert(next.drop_last() =~= all.take(i as int));
            assert(next.last() == tokens@[i as int]@);
        }
        i += 1;
    }
    assert(all.take(tokens.len() as int) =~= all);
    out
}

/// Writes a snapshot as text: see `encoding`. The text is read back as the
/// snapshot. A snapshot with a timestamp that cannot be written and read
/// back is refused.
pub fn encode(snapshot: &Snapshot) -> (r: Result<String, Error>)
    ensures
        match r {
            Ok(text) => storable(snapshot@) && text@ == encoding(snapshot@) && decoding(text@)
                == Some(snapshot@),
            Err(e) => !storable(snapshot@) && e == Error::Validation,
        },
{
    let ghost s = snapshot@;
    let mut tokens: Vec<Vec<char>> = Vec::new();
    let word = vec!['b', 'u', 's', 'y'];
    assert(word@ =~= magic());
    tokens.push(word);
    tokens.push(number_chars(snapshot.projects.len()));
    let ghost head = token_texts(tokens@);
    assert(head =~= seq![magic(), decimal(s.projects.len())]);
    put_categories(&mut tokens, &snapshot.projects);
    let ghost with_projects = token_texts(tokens@);
    tokens.push(number_chars(snapshot.tags.len()));
    let ghost with_tag_count = token_texts(tokens@);
    assert(with_tag_count =~= with_projects + seq![decimal(s.tags.len())]);
    put_categories(&mut tokens, &snapshot.tags);
    let ghost with_tags = token_texts(tokens@);
    tokens.push(number_chars(snapshot.tasks.len()));
    let ghost before_tasks = token_texts(tokens@);
    assert(before_tasks =~= with_tags + seq![decimal(s.tasks.len())]);
    if !put_tasks(&mut tokens, &snapshot.tasks) {
        return Err(Error::Validation);
    }
    proof {
        let projects = categories_tokens(s.projects);
        let tag_count = seq![decimal(s.tags.len())];
        let tags = categories_tokens(s.tags);
        let task_count = seq![decimal(s.tasks.len())];
        let tasks = tasks_tokens(s.tasks);
        assert(token_texts(tokens@) == head + projects + tag_count + tags + task_count + tasks);
        assert(head + projects + tag_count + tags + task_count + tasks =~= head + (projects + (
        tag_count + (tags + (task_count + tasks)))));
        assert(storable(s));
    }
    let chars = join_tokens(&tokens);
    let text = string_of(&chars, 0, chars.len());
    proof {
        assert(chars@.subrange(0, chars.len() as int) =~= chars@);
        lemma_round_trip(snapshot@);
    }
    Ok(text)
}

/// Categories that cannot be read cannot be read as the first of more.
proof fn lemma_categories_stay_unread(tokens: Seq<Seq<char>>, i: int, m: nat, n: nat)
    requires
        m <= n,
        read_categories(tokens, i, m) is None,
    ensures
        read_categories(tokens, i, n) is None,
    decreases n,
{
    if m < n {
        lemma_categories_stay_unread(tokens, i, m, (n - 1) as nat);
    }
}

/// Identifiers that cannot be read cannot be read as the first of more.
proof fn lemma_ids_stay_unread(tokens: Seq<Seq<char>>, i: int, m: nat, n: nat)
    requires
        m <= n,
        read_ids(tokens, i, m) is None,
    ensures
        read_ids(tokens, i, n) is None,
    decreases n,
{
    if m < n {
        lemma_ids_stay_unread(tokens, i, m, (n - 1) as nat);
    }
}

/// Tasks that cannot be read cannot be read as the first of more.
proof fn lemma_tasks_stay_unread(tokens: Seq<Seq<char>>, i: int, m: nat, n: nat)
    requires
        m <= n,
        read_tasks(tokens, i, m) is None,
    ensures
        read_tasks(tokens, i, n) is None,
    decreases n,
{
    if m < n {
        lemma_tasks_stay_unread(tokens, i, m, (n - 1) as nat);
    }
}

/// Reads the category that stands at position `i`: see `read_category`.
pub fn parse_category(tokens: &Vec<Vec<char>>, i: usize) -> (r: Option<Category>)
    requires
        i <= tokens.len(),
    ensures
        match read_category(token_texts(tokens@), i as int) {
            Some(c) => r matches Some(found) && found@ == c,
            None => r is None,
        },
{
    if tokens.len() - i < 2 {
        return None;
    }
    match parse_id(&tokens[i]) {
        Some(id) => {
            let token = &tokens[i + 1];
            let name = string_of(token, 0, token.len());
            assert(token@.subrange(0, token.len() as int) =~= token@);
            Some(Category::new(id, name.as_str()))
        },
        None => None,
    }
}

/// Reads the `n` categories that stand from position `i` on: see
/// `read_categories`.
pub fn parse_categories(tokens: &Vec<Vec<char>>, i: usize, n: u64) -> (r: Option<Vec<Category>>)
    requires
        i <= tokens.len(),
    ensures
        match read_categories(token_texts(tokens@), i as int, n as nat) {
            Some(cs) => r matches Some(found) && views(found@) == cs && i + 2 * n <= tokens.len(),
            None => r is None,
        },
{
    let ghost ts = token_texts(tokens@);
    let mut out: Vec<Category> = Vec::new();
    let mut k: u64 = 0;
    let mut at: usize = i;
    assert(views(out@) =~= Seq::<CategoryView>::empty());
    while k < n
        invariant
            0 <= k <= n,
            at == i + 2 * k,
            at <= tokens.len(),
            ts == token_texts(tokens@),
            read_categories(ts, i as int, k as nat) == Some(views(out@)),
        decreases n - k,
    {
        match parse_category(tokens, at) {
            Some(c) => {
                let ghost before = views(out@);
                let ghost v = c@;
                out.push(c);
                assert(views(out@) =~= before.push(v));
                at = at + 2;
            },
            None => {
                proof {
                    assert(read_categories(ts, i as int, (k + 1) as nat) is None);
                    lemma_categories_stay_unread(ts, i as int, (k + 1) as nat, n as nat);
                }
                return None;
            },
        }
        k += 1;
    }
    Some(out)
}

/// Reads the `n` identifiers that stand from position `i` on: see
/// `read_ids`.
pub fn parse_ids(tokens: &Vec<Vec<char>>, i: usize, n: u64) -> (r: Option<Vec<u128>>)
    requires
        i <= tokens.len(),
    ensures
        match read_ids(token_texts(tokens@), i as int, n as nat) {
            Some(ids) => r matches Some(found) && found@ == ids && i + n <= tokens.len(),
            None => r is None,
        },
{
    let ghost ts = token_texts(tokens@);
    let mut out: Vec<u128> = Vec::new();
    let mut k: u64 = 0;
    let mut at: usize = i;
    while k < n
        invariant
            0 <= k <= n,
            at == i + k,
            at <= tokens.len(),
            ts == token_texts(tokens@),
            read_ids(ts, i as int, k as nat) == Some(out@),
        decreases n - k,
    {
        if at >= tokens.len() {
            proof {
                assert(read_ids(ts, i as int, (k + 1) as nat) is None);
                lemma_ids_stay_unread(ts, i as int, (k + 1) as nat, n as nat);
            }
            return None;
        }
        match parse_id(&tokens[at]) {
            Some(id) => {
                out.push(id);
                at = at + 1;
            },
            None => {
                proof {
                    assert(read_ids(ts, i as int, (k + 1) as nat) is None);
                    lemma_ids_stay_unread(ts, i as int, (k + 1) as nat, n as nat);
                }
                return None;
            },
        }
        k += 1;
    }
    Some(out)
}

/// Reads the task that stands at position `i`, and says where the tokens go
/// on after it: see `read_task`.
pub fn parse_task(tokens: &Vec<Vec<char>>, i: usize) -> (r: Option<(Task, usize)>)
    requires
        i <= tokens.len(),
    ensures
        match read_task(token_texts(tokens@), i as int) {
            Some((task, next)) => r matches Some((found, at)) && found@ == task && at == next && i
                < at <= tokens.len(),
            None => r is None,
        },
{
    if tokens.len() - i < TASK_FIELDS {
        return None;
    }
    let id = match parse_id(&tokens[i]) {
        Some(id) => id,
        None => {
            return None;
        },
    };
    let project_id = match parse_id(&tokens[i + 1]) {
        Some(id) => id,
        None => {
            return None;
        },
    };
    let state = match parse_state(&tokens[i + 3]) {
        Some(state) => state,
        None => {
            return None;
        },
    };
    let start_time = match parse_stamp(&tokens[i + 4]) {
        Some(t) => t,
        None => {
            return None;
        },
    };
    let stop_time = match parse_optional_stamp(&tokens[i + 5]) {
        Some(t) => t,
        None => {
            return None;
        },
    };
    let paused_token = &tokens[i + 6];
    assert(paused_token@.subrange(0, paused_token.len() as int) =~= paused_token@);
    let paused = match read_signed(paused_token, 0, paused_token.len()) {
        Some(n) => n,
        None => {
            return None;
        },
    };
    let pause_started = match parse_optional_stamp(&tokens[i + 7]) {
        Some(t) => t,
        None => {
            return None;
        },
    };
    let count_token = &tokens[i + 8];
    assert(count_token@.subrange(0, count_token.len() as int) =~= count_token@);
    let n = match read_number(count_token, 0, count_token.len()) {
        Some(n) => n,
        None => {
            return None;
        },
    };
    let tag_ids = match parse_ids(tokens, i + TASK_FIELDS, n) {
        Some(ids) => ids,
        None => {
            return None;
        },
    };
    let title_token = &tokens[i + 2];
    let title = string_of(title_token, 0, title_token.len());
    assert(title_token@.subrange(0, title_token.len() as int) =~= title_token@);
    let task = Task::new(
        id,
        project_id,
        title.as_str(),
        tag_ids,
        DateTimeInterval { start_time, stop_time },
        paused,
        state,
        pause_started,
    );
    Some((task, i + TASK_FIELDS + n as usize))
}

/// Reads the `n` tasks that stand from position `i` on, and says where the
/// tokens go on after them: see `read_tasks`.
pub fn parse_tasks(tokens: &Vec<Vec<char>>, i: usize, n: u64) -> (r: Option<(Vec<Task>, usize)>)
    requires
        i <= tokens.len(),
    ensures
        match read_tasks(token_texts(tokens@), i as int, n as nat) {
            Some((tasks, next)) => r matches Some((found, at)) && views(found@) == tasks && at
                == next && at <= tokens.len(),
            None => r is None,
        },
{
    let ghost ts = token_texts(tokens@);
    let mut out: Vec<Task> = Vec::new();
    let mut k: u64 = 0;
    let mut at: usize = i;
    assert(views(out@) =~= Seq::<TaskView>::empty());
    while k < n
        invariant
            0 <= k <= n,
            at <= tokens.len(),
            ts == token_texts(tokens@),
            read_tasks(ts, i as int, k as nat) == Some((views(out@), at as int)),
        decreases n - k,
    {
        match parse_task(tokens, at) {
            Some((task, next)) => {
                let ghost before = views(out@);
                let ghost v = task@;
                out.push(task);
                assert(views(out@) =~= before.push(v));
                at = next;
            },
            None => {
                proof {
                    assert(read_tasks(ts, i as int, (k + 1) as nat) is None);
                    lemma_tasks_stay_unread(ts, i as int, (k + 1) as nat, n as nat);
                }
                return None;
            },
        }
        k += 1;
    }
    Some((out, at))
}

/// Reads the count that stands at position `i`.
fn parse_count(tokens: &Vec<Vec<char>>, i: usize) -> (r: Option<u64>)
    requires
        i < tokens.len(),
    ensures
        r == number_u64(token_texts(tokens@)[i as int]),
{
    let token = &tokens[i];
    assert(token@.subrange(0, token.len() as int) =~= token@);
    read_number(token, 0, token.len())
}

/// Reads the tokens of a store: see `read_store`.
pub fn parse_store(tokens: &Vec<Vec<char>>) -> (r: Option<Snapshot>)
    ensures
        match read_store(token_texts(tokens@)) {
            Some(s) => r matches Some(found) && found@ == s,
            None => r is None,
        },
{
    if tokens.len() < 2 {
        return None;
    }
    let word = vec!['b', 'u', 's', 'y'];
    assert(word@ =~= magic());
    if !same_chars(&tokens[0], &word) {
        return None;
    }
    let np = match parse_count(tokens, 1) {
        Some(n) => n,
        None => {
            return None;
        },
    };
    let projects = match parse_categories(tokens, 2, np) {
        Some(found) => found,
        None => {
            return None;
        },
    };
    let i: usize = 2 + 2 * (np as usize);
    if i >= tokens.len() {
        return None;
    }
    let nt = match parse_count(tokens, i) {
        Some(n) => n,
        None => {
            return None;
        },
    };
    let tags = match parse_categories(tokens, i + 1, nt) {
        Some(found) => found,
        None => {
            return None;
        },
    };
    let j: usize = i + 1 + 2 * (nt as usize);
    if j >= tokens.len() {
        return None;
    }
    let nk = match parse_count(tokens, j) {
        Some(n) => n,
        None => {
            return None;
        },
    };
    match parse_tasks(tokens, j + 1, nk) {
        Some((tasks, end)) => {
            if end == tokens.len() {
                Some(Snapshot { tasks, projects, tags })
            } else {
                None
            }
        },
        None => None,
    }
}

/// Reads a snapshot from its text: see `decoding`. A text that is not the
/// text of a snapshot is refused as corrupted.
pub fn decode(text: &str) -> (r: Result<Snapshot, Error>)
    ensures
        match decoding(text@) {
            Some(s) => r matches Ok(found) && found@ == s,
            None => r == Err::<Snapshot, Error>(Error::Corruption),
        },
{
    let chars = chars_of(text);
    match split_tokens(&chars) {
        Some(tokens) => match parse_store(&tokens) {
            Some(snapshot) => Ok(snapshot),
            None => Err(Error::Corruption),
        },
        None => Err(Error::Corruption),
    }
}

impl StoreView {
    /// What restoring from a text does to a store: where the text is the
    /// text of a snapshot that obeys the rules of a store, the store becomes
    /// what the snapshot holds; any other text is refused as corrupted, and
    /// the store stays as it was.
    pub open spec fn restore(self, text: Seq<char>) -> Result<StoreView, Error> {
        match decoding(text) {
            Some(s) => if s.valid() {
                Ok(s)
            } else {
                Err(Error::Corruption)
            },
            None => Err(Error::Corruption),
        }
    }
}

impl Store {
    /// The store as text: see `encoding`. The text depends on the records
    /// alone: a store that has not changed is written as the same text again.
    /// A store with a timestamp that cannot be written and read back is
    /// refused.
    pub fn save(&self) -> (r: Result<String, Error>)
        requires
            self.wf(),
        ensures
            match r {
                Ok(text) => storable(self@) && text@ == encoding(self@) && self@.restore(text@)
                    == Ok::<StoreView, Error>(self@),
                Err(e) => !storable(self@) && e == Error::Validation,
            },
    {
        encode(&self.snapshot())
    }

    /// Replaces the store's records by those that the text holds, all at
    /// once: see `StoreView::restore`.
    pub fn restore(&mut self, text: &str) -> (r: Result<(), Error>)
        requires
            old(self).wf(),
        ensures
            final(self).wf(),
            crate::store::follows(r, old(self)@, final(self)@, old(self)@.restore(text@)),
    {
        match decode(text) {
            Ok(snapshot) => self.load(snapshot),
            Err(e) => Err(e),
        }
    }
}

} // verus!
