//! Projects and tags: a name filed under an identifier.

use vstd::prelude::*;
use crate::entity::{
    find, has_key, keys_distinct, lemma_position, lemma_push_keeps_keys_distinct, lookup,
    position, views, Entity,
};
use crate::error::Error;

verus! {

/// The value of a project or a tag.
pub struct CategoryView {
    pub id: u128,
    pub name: Seq<char>,
}

/// A project or a tag.
#[derive(Debug, Clone, PartialEq, Eq)]
pub struct Category {
    id_: u128,
    name_: String,
}

impl View for Category {
    type V = CategoryView;

    closed spec fn view(&self) -> CategoryView {
        CategoryView { id: self.id_, name: self.name_@ }
    }
}

impl Category {
    /// A category of the given name, filed under the identifier.
    pub fn new(id: u128, name: &str) -> (r: Self)
        ensures
            r@ == (CategoryView { id, name: name@ }),
    {
        Self { id_: id, name_: name.to_owned() }
    }

    /// The identifier.
    pub fn id(&self) -> (r: u128)
        ensures
            r == self@.id,
    {
        self.id_
    }

    /// The name.
    pub fn name(&self) -> (r: &str)
        ensures
            r@ == self@.name,
    {
        self.name_.as_str()
    }
}

impl Entity for Category {
    open spec fn key(v: CategoryView) -> u128 {
        v.id
    }

    fn entity_id(&self) -> (r: u128) {
        self.id_
    }

    fn same_as(&self, other: &Self) -> (r: bool) {
        self.id_ == other.id_ && self.name_ == other.name_
    }

    fn duplicate(&self) -> (r: Self) {
        Category { id_: self.id_, name_: self.name_.clone() }
    }
}

/// No name occurs twice among the categories.
pub open spec fn names_distinct(s: Seq<CategoryView>) -> bool {
    forall|i: int, j: int| 0 <= i < j < s.len() ==> (#[trigger] s[i]).name != (#[trigger] s[j]).name
}

/// Some category in the sequence goes by the name.
pub open spec fn has_name(s: Seq<CategoryView>, name: Seq<char>) -> bool {
    exists|i: int| 0 <= i < s.len() && (#[trigger] s[i]).name == name
}

/// The first position at which a category goes by the name; the length of the
/// sequence if none does.
pub open spec fn named_position(s: Seq<CategoryView>, name: Seq<char>) -> int
    decreases s.len(),
{
    if s.len() == 0 {
        0
    } else if s[0].name == name {
        0
    } else {
        1 + named_position(s.drop_first(), name)
    }
}

/// The category that goes by the name, if any.
pub open spec fn lookup_named(s: Seq<CategoryView>, name: Seq<char>) -> Option<CategoryView> {
    let p = named_position(s, name);
    if p < s.len() {
        Some(s[p])
    } else {
        None
    }
}

/// Where `named_position` points: at the first category of that name, or past
/// the end exactly when there is none.
pub proof fn lemma_named_position(s: Seq<CategoryView>, name: Seq<char>)
    ensures
        0 <= named_position(s, name) <= s.len(),
        named_position(s, name) < s.len() ==> s[named_position(s, name)].name == name,
        forall|j: int| 0 <= j < named_position(s, name) ==> (#[trigger] s[j]).name != name,
        named_position(s, name) < s.len() <==> has_name(s, name),
    decreases s.len(),
{
    if s.len() == 0 {
    } else if s[0].name == name {
    } else {
        let t = s.drop_first();
        lemma_named_position(t, name);
        let p = named_position(t, name);
        assert forall|j: int| 0 <= j < 1 + p implies (#[trigger] s[j]).name != name by {
            if j > 0 {
                assert(s[j] == t[j - 1]);
            }
        }
        if p < t.len() {
            assert(s[1 + p] == t[p]);
        }
        if has_name(s, name) {
            let i = choose|i: int| 0 <= i < s.len() && (#[trigger] s[i]).name == name;
            assert(t[i - 1] == s[i]);
            assert(has_name(t, name));
        }
    }
}

/// The first position with the name is the one `named_position` names.
pub proof fn lemma_named_position_at(s: Seq<CategoryView>, name: Seq<char>, i: int)
    requires
        0 <= i <= s.len(),
        i < s.len() ==> s[i].name == name,
        forall|j: int| 0 <= j < i ==> (#[trigger] s[j]).name != name,
    ensures
        named_position(s, name) == i,
{
    lemma_named_position(s, name);
    let p = named_position(s, name);
    if p < i {
        assert(s[p].name != name);
    }
}

/// Finds the first category that goes by the name.
pub fn find_named(list: &Vec<Category>, name: &str) -> (r: Option<usize>)
    ensures
        match r {
            Some(i) => i == named_position(views(list@), name@) && i < list.len() && list@[i as int]@.name
                == name@,
            None => named_position(views(list@), name@) == list.len() && !has_name(
                views(list@),
                name@,
            ),
        },
{
    let wanted = name.to_owned();
    let mut i: usize = 0;
    while i < list.len()
        invariant
            0 <= i <= list.len(),
            wanted@ == name@,
            forall|j: int| 0 <= j < i ==> (#[trigger] views(list@)[j]).name != name@,
        decreases list.len() - i,
    {
        if list[i].name_ == wanted {
            proof {
                lemma_named_position_at(views(list@), name@, i as int);
            }
            return Some(i);
        }
        i += 1;
    }
    proof {
        lemma_named_position_at(views(list@), name@, list.len() as int);
        lemma_named_position(views(list@), name@);
    }
    None
}

/// Whether no name occurs twice among the categories.
pub fn names_are_distinct(list: &Vec<Category>) -> (r: bool)
    ensures
        r == names_distinct(views(list@)),
{
    let ghost s = views(list@);
    let mut j: usize = 0;
    while j < list.len()
        invariant
            0 <= j <= list.len(),
            s == views(list@),
            forall|a: int, b: int| 0 <= a < b < j ==> (#[trigger] s[a]).name != (#[trigger] s[b]).name,
        decreases list.len() - j,
    {
        let mut i: usize = 0;
        while i < j
            invariant
                0 <= i <= j < list.len(),
                s == views(list@),
                forall|a: int| 0 <= a < i ==> (#[trigger] s[a]).name != s[j as int].name,
            decreases j - i,
        {
            if list[i].name_ == list[j].name_ {
                assert(s[i as int].name == s[j as int].name);
                return false;
            }
            i += 1;
        }
        j += 1;
    }
    true
}

/// A sequence with distinct names keeps them distinct when a category of a
/// name it does not hold is put at its end.
pub proof fn lemma_push_keeps_names_distinct(s: Seq<CategoryView>, v: CategoryView)
    requires
        names_distinct(s),
        !has_name(s, v.name),
    ensures
        names_distinct(s.push(v)),
{
    let t = s.push(v);
    assert forall|i: int, j: int| 0 <= i < j < t.len() implies (#[trigger] t[i]).name != (
    #[trigger] t[j]).name by {
        if j == s.len() {
            assert(t[i] == s[i]);
        } else {
            assert(t[i] == s[i] && t[j] == s[j]);
        }
    }
}


/// The texts of a list of strings, in order.
pub open spec fn texts(names: Seq<String>) -> Seq<Seq<char>> {
    Seq::new(names.len(), |i: int| names[i]@)
}

/// The categories with one of the given name among them: as they are where
/// one goes by the name already, and else with a new one at the end, filed
/// under `fresh`, which must not be taken.
pub open spec fn with_name(list: Seq<CategoryView>, name: Seq<char>, fresh: u128) -> Result<
    Seq<CategoryView>,
    Error,
> {
    if has_name(list, name) {
        Ok(list)
    } else if has_key::<Category>(list, fresh) {
        Err(Error::Validation)
    } else {
        Ok(list.push(CategoryView { id: fresh, name }))
    }
}

/// The categories with one of each given name among them, the names taken in
/// order; the `i`-th name, where it is new, is filed under the `i`-th of
/// `fresh`.
pub open spec fn with_names(
    list: Seq<CategoryView>,
    names: Seq<Seq<char>>,
    fresh: Seq<u128>,
) -> Result<Seq<CategoryView>, Error>
    decreases names.len(),
{
    if names.len() == 0 {
        Ok(list)
    } else {
        match with_names(list, names.drop_last(), fresh) {
            Ok(l) => with_name(l, names.last(), fresh[names.len() - 1]),
            Err(e) => Err(e),
        }
    }
}

/// The identifier of the category that goes by the name.
pub open spec fn id_named(list: Seq<CategoryView>, name: Seq<char>) -> u128
    recommends
        has_name(list, name),
{
    list[named_position(list, name)].id
}

/// The identifiers of the categories that go by the names, in the order in
/// which the names first occur, each once.
pub open spec fn ids_named(list: Seq<CategoryView>, names: Seq<Seq<char>>) -> Seq<u128>
    decreases names.len(),
{
    if names.len() == 0 {
        Seq::empty()
    } else {
        let rest = ids_named(list, names.drop_last());
        let id = id_named(list, names.last());
        if rest.contains(id) {
            rest
        } else {
            rest.push(id)
        }
    }
}

/// No identifier is listed twice for a list of names.
pub proof fn lemma_ids_named_distinct(list: Seq<CategoryView>, names: Seq<Seq<char>>)
    ensures
        ids_named(list, names).no_duplicates(),
    decreases names.len(),
{
    if names.len() > 0 {
        lemma_ids_named_distinct(list, names.drop_last());
    }
}

/// A name that is among the categories stays among them when one is put at
/// the end.
pub proof fn lemma_push_keeps_name(list: Seq<CategoryView>, v: CategoryView, name: Seq<char>)
    requires
        has_name(list, name),
    ensures
        has_name(list.push(v), name),
{
    let i = choose|i: int| 0 <= i < list.len() && (#[trigger] list[i]).name == name;
    assert(list.push(v)[i] == list[i]);
}

/// Making sure of one name keeps identifiers and names distinct and the
/// names that were there, and the name is there afterwards.
pub proof fn lemma_with_name(list: Seq<CategoryView>, name: Seq<char>, fresh: u128)
    requires
        keys_distinct::<Category>(list),
        names_distinct(list),
    ensures
        with_name(list, name, fresh) matches Ok(l) ==> {
            &&& keys_distinct::<Category>(l)
            &&& names_distinct(l)
            &&& has_name(l, name)
            &&& forall|other: Seq<char>| has_name(list, other) ==> has_name(l, other)
        },
{
    if has_name(list, name) {
    } else if has_key::<Category>(list, fresh) {
    } else {
        let v = CategoryView { id: fresh, name };
        let l = list.push(v);
        lemma_push_keeps_keys_distinct::<Category>(list, v);
        lemma_push_keeps_names_distinct(list, v);
        assert(l[list.len() as int].name == name);
        assert forall|other: Seq<char>| has_name(list, other) implies has_name(l, other) by {
            lemma_push_keeps_name(list, v, other);
        }
    }
}

/// Making sure of several names keeps identifiers and names distinct, and
/// each of the names is there afterwards.
pub proof fn lemma_with_names(list: Seq<CategoryView>, names: Seq<Seq<char>>, fresh: Seq<u128>)
    requires
        keys_distinct::<Category>(list),
        names_distinct(list),
    ensures
        with_names(list, names, fresh) matches Ok(l) ==> {
            &&& keys_distinct::<Category>(l)
            &&& names_distinct(l)
            &&& forall|i: int| 0 <= i < names.len() ==> has_name(l, #[trigger] names[i])
            &&& forall|other: Seq<char>| has_name(list, other) ==> has_name(l, other)
        },
    decreases names.len(),
{
    if names.len() > 0 {
        let init = names.drop_last();
        lemma_with_names(list, init, fresh);
        match with_names(list, init, fresh) {
            Ok(mid) => {
                lemma_with_name(mid, names.last(), fresh[names.len() - 1]);
                match with_name(mid, names.last(), fresh[names.len() - 1]) {
                    Ok(l) => {
                        assert forall|i: int| 0 <= i < names.len() implies has_name(
                            l,
                            #[trigger] names[i],
                        ) by {
                            if i < names.len() - 1 {
                                assert(names[i] == init[i]);
                                assert(has_name(mid, init[i]));
                            }
                        }
                    },
                    Err(_) => {},
                }
            },
            Err(_) => {},
        }
    }
}

/// Makes sure that a category goes by the name, and returns its identifier:
/// see `with_name`.
pub fn ensure_named(list: &mut Vec<Category>, name: &str, fresh: u128) -> (r: Result<u128, Error>)
    ensures
        match with_name(views(old(list)@), name@, fresh) {
            Ok(l) => views(final(list)@) == l && r == Ok::<u128, Error>(id_named(l, name@)),
            Err(e) => views(final(list)@) == views(old(list)@) && r == Err::<u128, Error>(e),
        },
{
    proof {
        lemma_named_position(views(list@), name@);
        lemma_position::<Category>(views(list@), fresh);
    }
    match find_named(list, name) {
        Some(i) => Ok(list[i].id_),
        None => match find(list, fresh) {
            Some(_) => Err(Error::Validation),
            None => {
                list.push(Category::new(fresh, name));
                proof {
                    let l = views(old(list)@).push(CategoryView { id: fresh, name: name@ });
                    assert(views(list@) =~= l);
                    lemma_named_position_at(l, name@, old(list)@.len() as int);
                }
                Ok(fresh)
            },
        },
    }
}

/// Makes sure that a category goes by each of the names: see `with_names`.
/// Where that fails, the list is left with the categories made so far.
pub fn ensure_all_named(list: &mut Vec<Category>, names: &Vec<String>, fresh: &Vec<u128>) -> (r:
    Result<(), Error>)
    requires
        fresh.len() == names.len(),
    ensures
        match with_names(views(old(list)@), texts(names@), fresh@) {
            Ok(l) => r is Ok && views(final(list)@) == l,
            Err(e) => r == Err::<(), Error>(e),
        },
{
    let ghost all = texts(names@);
    let mut i: usize = 0;
    assert(all.take(0) =~= Seq::<Seq<char>>::empty());
    while i < names.len()
        invariant
            0 <= i <= names.len(),
            fresh.len() == names.len(),
            all == texts(names@),
            with_names(views(old(list)@), all.take(i as int), fresh@) == Ok::<
                Seq<CategoryView>,
                Error,
            >(views(list@)),
        decreases names.len() - i,
    {
        let ghost mid = views(list@);
        let outcome = ensure_named(list, names[i].as_str(), fresh[i]);
        proof {
            let next = all.take(i + 1);
            assert(next.drop_last() =~= all.take(i as int));
            assert(next.last() == names@[i as int]@);
            assert(with_names(views(old(list)@), next, fresh@) == with_name(
                mid,
                names@[i as int]@,
                fresh@[i as int],
            ));
        }
        match outcome {
            Ok(_) => {},
            Err(e) => {
                proof {
                    lemma_with_names_fails_on(views(old(list)@), all, fresh@, i + 1);
                }
                return Err(e);
            },
        }
        i += 1;
    }
    assert(all.take(names.len() as int) =~= all);
    Ok(())
}

/// Where making sure of the first names fails, making sure of all of them
/// fails in the same way.
pub proof fn lemma_with_names_fails_on(
    list: Seq<CategoryView>,
    names: Seq<Seq<char>>,
    fresh: Seq<u128>,
    n: int,
)
    requires
        0 <= n <= names.len(),
        with_names(list, names.take(n), fresh) is Err,
    ensures
        with_names(list, names, fresh) == with_names(list, names.take(n), fresh),
    decreases names.len() - n,
{
    if n < names.len() {
        let next = names.take(n + 1);
        assert(next.drop_last() =~= names.take(n));
        lemma_with_names_fails_on(list, names, fresh, n + 1);
    } else {
        assert(names.take(n) =~= names);
    }
}

/// The identifiers of the categories that go by the names: see `ids_named`.
/// None where a name is missing.
pub fn collect_ids(list: &Vec<Category>, names: &Vec<String>) -> (r: Option<Vec<u128>>)
    ensures
        match r {
            Some(ids) => ids@ == ids_named(views(list@), texts(names@)) && forall|i: int|
                0 <= i < names.len() ==> has_name(views(list@), #[trigger] texts(names@)[i]),
            None => exists|i: int|
                0 <= i < names.len() && !has_name(views(list@), #[trigger] texts(names@)[i]),
        },
{
    let ghost all = texts(names@);
    let mut out: Vec<u128> = Vec::new();
    let mut i: usize = 0;
    assert(all.take(0) =~= Seq::<Seq<char>>::empty());
    while i < names.len()
        invariant
            0 <= i <= names.len(),
            all == texts(names@),
            out@ == ids_named(views(list@), all.take(i as int)),
            forall|j: int| 0 <= j < i ==> has_name(views(list@), #[trigger] all[j]),
        decreases names.len() - i,
    {
        proof {
            lemma_named_position(views(list@), all[i as int]);
            let next = all.take(i + 1);
            assert(next.drop_last() =~= all.take(i as int));
            assert(next.last() == all[i as int]);
        }
        match find_named(list, names[i].as_str()) {
            None => {
                return None;
            },
            Some(p) => {
                let id = list[p].id_;
                if !crate::task::holds_id(&out, id) {
                    out.push(id);
                }
            },
        }
        i += 1;
    }
    assert(all.take(names.len() as int) =~= all);
    Some(out)
}


/// The categories with the one filed under the identifier of `c` replaced by
/// `c`. There must be one, and no other category may go by the name of `c`.
pub open spec fn replaced(list: Seq<CategoryView>, c: CategoryView) -> Result<
    Seq<CategoryView>,
    Error,
> {
    let i = position::<Category>(list, c.id);
    let j = named_position(list, c.name);
    if !(i < list.len()) {
        Err(Error::NotFound)
    } else if j < list.len() && j != i {
        Err(Error::Validation)
    } else {
        Ok(list.update(i, c))
    }
}

/// Replacing a category keeps identifiers and names distinct.
pub proof fn lemma_replaced(list: Seq<CategoryView>, c: CategoryView)
    requires
        keys_distinct::<Category>(list),
        names_distinct(list),
    ensures
        replaced(list, c) matches Ok(l) ==> keys_distinct::<Category>(l) && names_distinct(l),
{
    lemma_position::<Category>(list, c.id);
    lemma_named_position(list, c.name);
    let i = position::<Category>(list, c.id);
    if let Ok(l) = replaced(list, c) {
        assert forall|a: int, b: int| 0 <= a < b < l.len() implies (#[trigger] l[a]).id != (
        #[trigger] l[b]).id by {
            assert(l[a].id == list[a].id && l[b].id == list[b].id);
        }
        assert forall|a: int, b: int| 0 <= a < b < l.len() implies (#[trigger] l[a]).name != (
        #[trigger] l[b]).name by {
            if a != i && b != i {
                assert(l[a] == list[a] && l[b] == list[b]);
            } else if a == i {
                assert(l[b] == list[b]);
                if list[b].name == c.name {
                    lemma_named_position_at(list, c.name, named_position(list, c.name));
                    assert(has_name(list, c.name));
                    let j = named_position(list, c.name);
                    assert(j == i);
                    assert(list[i].name == c.name);
                }
            } else {
                assert(l[a] == list[a]);
                if list[a].name == c.name {
                    assert(has_name(list, c.name));
                    let j = named_position(list, c.name);
                    assert(j == i);
                    assert(list[i].name == c.name);
                }
            }
        }
    }
}

/// Replaces the category filed under the identifier of `c` by a copy of `c`:
/// see `replaced`. Returns the category that was there.
pub fn replace_in(list: &mut Vec<Category>, c: &Category) -> (r: Result<Category, Error>)
    ensures
        match replaced(views(old(list)@), c@) {
            Ok(l) => {
                &&& views(final(list)@) == l
                &&& r matches Ok(was)
                &&& Some(was@) == lookup::<Category>(views(old(list)@), c@.id)
            },
            Err(e) => views(final(list)@) == views(old(list)@) && r == Err::<Category, Error>(e),
        },
{
    match find(list, c.id_) {
        None => Err(Error::NotFound),
        Some(i) => {
            match find_named(list, c.name_.as_str()) {
                Some(j) => {
                    if j != i {
                        return Err(Error::Validation);
                    }
                },
                None => {},
            }
            let was = list[i].duplicate();
            list[i] = c.duplicate();
            assert(views(list@) =~= views(old(list)@).update(i as int, c@));
            Ok(was)
        },
    }
}

/// The categories, in order, that go by one of the names.
pub open spec fn named_among(list: Seq<CategoryView>, names: Seq<Seq<char>>) -> Seq<CategoryView> {
    list.filter(|c: CategoryView| names.contains(c.name))
}

/// Whether one of the names is the given text.
pub fn holds_name(names: &Vec<String>, name: &String) -> (r: bool)
    ensures
        r == texts(names@).contains(name@),
{
    let mut i: usize = 0;
    while i < names.len()
        invariant
            0 <= i <= names.len(),
            forall|j: int| 0 <= j < i ==> texts(names@)[j] != name@,
        decreases names.len() - i,
    {
        if names[i] == *name {
            assert(texts(names@)[i as int] == name@);
            return true;
        }
        i += 1;
    }
    false
}

/// Copies of the categories that go by one of the names, in the order of the
/// list.
pub fn select_named(list: &Vec<Category>, names: &Vec<String>) -> (r: Vec<Category>)
    ensures
        views(r@) == named_among(views(list@), texts(names@)),
{
    let ghost all = views(list@);
    let ghost pred = |c: CategoryView| texts(names@).contains(c.name);
    let mut out: Vec<Category> = Vec::new();
    let mut i: usize = 0;
    assert(all.take(0) =~= Seq::<CategoryView>::empty());
    assert(views(out@) =~= Seq::<CategoryView>::empty());
    while i < list.len()
        invariant
            0 <= i <= list.len(),
            all == views(list@),
            pred == (|c: CategoryView| texts(names@).contains(c.name)),
            views(out@) == all.take(i as int).filter(pred),
        decreases list.len() - i,
    {
        proof {
            assert(all.take(i + 1) =~= all.take(i as int).push(all[i as int]));
            all.take(i as int).lemma_filter_push(all[i as int], pred);
        }
        if holds_name(names, &list[i].name_) {
            let ghost before = views(out@);
            out.push(list[i].duplicate());
            assert(views(out@) =~= before.push(all[i as int]));
        }
        i += 1;
    }
    assert(all.take(list.len() as int) =~= all);
    out
}


} // verus!
