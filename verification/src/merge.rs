//! Three-way merge: what becomes of the records of one class when a local and
//! a remote copy have both moved on from a common ancestor.

use vstd::prelude::*;
use crate::category::{names_are_distinct, names_distinct, Category};
use crate::entity::{
    find, has_key, keys_distinct, lemma_lookup_add, lemma_lookup_key, lemma_lookup_push,
    lemma_position, lemma_push_keeps_keys_distinct, lookup, position, views, Entity,
};
use crate::error::Error;
use crate::index::{find_by_index, index_of, Index};
use crate::store::{single_current, tasks_single_current, Snapshot, StoreView};
use crate::task::Task;

verus! {

/// What becomes of one record, given what the ancestor, the local copy and the
/// remote copy hold under its identifier (nothing, where they hold none):
/// where both copies agree, what they hold; where only one of them differs
/// from the ancestor, what that one holds, be it a new record, a changed one
/// or none; where both differ from the ancestor and from each other, nothing
/// can be decided.
pub open spec fn settle<V>(a: Option<V>, l: Option<V>, r: Option<V>) -> Result<Option<V>, ()> {
    if l == r {
        Ok(l)
    } else if l == a {
        Ok(r)
    } else if r == a {
        Ok(l)
    } else {
        Err(())
    }
}

/// What becomes of the record filed under `id`.
pub open spec fn settled<E: Entity>(a: Seq<E::V>, l: Seq<E::V>, r: Seq<E::V>, id: u128) -> Result<
    Option<E::V>,
    (),
> {
    settle(lookup::<E>(a, id), lookup::<E>(l, id), lookup::<E>(r, id))
}

/// What the first `n` local records come to, in their order: each gives way
/// to what becomes of it. The identifier of the first record of which nothing
/// can be decided, if there is one.
pub open spec fn local_part<E: Entity>(a: Seq<E::V>, l: Seq<E::V>, r: Seq<E::V>, n: int) -> Result<
    Seq<E::V>,
    u128,
>
    decreases n,
{
    if n <= 0 {
        Ok(Seq::empty())
    } else {
        match local_part::<E>(a, l, r, n - 1) {
            Err(id) => Err(id),
            Ok(done) => match settled::<E>(a, l, r, E::key(l[n - 1])) {
                Ok(Some(v)) => Ok(done.push(v)),
                Ok(None) => Ok(done),
                Err(_) => Err(E::key(l[n - 1])),
            },
        }
    }
}

/// What the first `n` remote records add, in their order: those that the
/// local copy does not hold and that are not to be dropped.
pub open spec fn remote_part<E: Entity>(a: Seq<E::V>, l: Seq<E::V>, r: Seq<E::V>, n: int) -> Result<
    Seq<E::V>,
    u128,
>
    decreases n,
{
    if n <= 0 {
        Ok(Seq::empty())
    } else {
        match remote_part::<E>(a, l, r, n - 1) {
            Err(id) => Err(id),
            Ok(done) => if has_key::<E>(l, E::key(r[n - 1])) {
                Ok(done)
            } else {
                match settled::<E>(a, l, r, E::key(r[n - 1])) {
                    Ok(Some(v)) => Ok(done.push(v)),
                    Ok(None) => Ok(done),
                    Err(_) => Err(E::key(r[n - 1])),
                }
            },
        }
    }
}

/// The records of one class after the merge: what the local records come to,
/// then what the remote copy adds. Where nothing can be decided of some
/// record, the identifier of the first such record, the local ones before the
/// remote ones.
pub open spec fn merged<E: Entity>(a: Seq<E::V>, l: Seq<E::V>, r: Seq<E::V>) -> Result<
    Seq<E::V>,
    u128,
> {
    match local_part::<E>(a, l, r, l.len() as int) {
        Err(id) => Err(id),
        Ok(kept) => match remote_part::<E>(a, l, r, r.len() as int) {
            Err(id) => Err(id),
            Ok(added) => Ok(kept + added),
        },
    }
}

/// The value of a record that may be missing.
pub open spec fn value_of<E: Entity>(e: Option<&E>) -> Option<E::V> {
    match e {
        Some(x) => Some(x@),
        None => None,
    }
}

/// The value of a record of one's own that may be missing.
pub open spec fn value<E: Entity>(e: Option<E>) -> Option<E::V> {
    match e {
        Some(x) => Some(x@),
        None => None,
    }
}

/// Whether both hold the same value, or both none.
pub fn same_or_none<E: Entity>(x: Option<&E>, y: Option<&E>) -> (r: bool)
    ensures
        r == (value_of(x) == value_of(y)),
{
    match (x, y) {
        (Some(p), Some(q)) => p.same_as(q),
        (None, None) => true,
        _ => false,
    }
}

/// A copy of the record, if there is one.
pub fn copy_of<E: Entity>(x: Option<&E>) -> (r: Option<E>)
    ensures
        value(r) == value_of(x),
{
    match x {
        Some(p) => Some(p.duplicate()),
        None => None,
    }
}

/// Decides what becomes of one record: see `settle`.
pub fn settle_record<E: Entity>(a: Option<&E>, l: Option<&E>, r: Option<&E>) -> (out: Result<
    Option<E>,
    (),
>)
    ensures
        match settle(value_of(a), value_of(l), value_of(r)) {
            Ok(v) => out matches Ok(e) && value(e) == v,
            Err(_) => out is Err,
        },
{
    if same_or_none(l, r) {
        Ok(copy_of(l))
    } else if same_or_none(l, a) {
        Ok(copy_of(r))
    } else if same_or_none(r, a) {
        Ok(copy_of(l))
    } else {
        Err(())
    }
}

/// The record filed under `id`, if any.
pub fn get<E: Entity>(records: &Vec<E>, id: u128) -> (r: Option<&E>)
    ensures
        value_of(r) == lookup::<E>(views(records@), id),
        r is Some == has_key::<E>(views(records@), id),
{
    proof {
        crate::entity::lemma_position::<E>(views(records@), id);
    }
    match find(records, id) {
        Some(i) => Some(&records[i]),
        None => None,
    }
}

/// The record filed under `id`, if any, found through the index of the
/// records.
pub fn get_indexed<'a, E: Entity>(index: &Index, records: &'a Vec<E>, id: u128) -> (r: Option<&'a E>)
    requires
        index@ == index_of::<E>(views(records@)),
    ensures
        value_of(r) == lookup::<E>(views(records@), id),
        r is Some == has_key::<E>(views(records@), id),
{
    match find_by_index(index, records, id) {
        Some(i) => Some(&records[i]),
        None => None,
    }
}

/// Merges the records of one class: see `merged`.
pub fn merge_records<E: Entity>(ancestor: &Vec<E>, local: &Vec<E>, remote: &Vec<E>) -> (out: Result<
    Vec<E>,
    u128,
>)
    ensures
        match merged::<E>(views(ancestor@), views(local@), views(remote@)) {
            Ok(m) => out matches Ok(v) && views(v@) == m,
            Err(id) => out == Err::<Vec<E>, u128>(id),
        },
{
    let ghost a = views(ancestor@);
    let ghost l = views(local@);
    let ghost r = views(remote@);
    let in_ancestor = Index::build(ancestor);
    let in_local = Index::build(local);
    let in_remote = Index::build(remote);
    let mut result: Vec<E> = Vec::new();
    let mut i: usize = 0;
    assert(views(result@) =~= Seq::<E::V>::empty());
    while i < local.len()
        invariant
            0 <= i <= local.len(),
            a == views(ancestor@),
            l == views(local@),
            r == views(remote@),
            in_ancestor@ == index_of::<E>(a),
            in_local@ == index_of::<E>(l),
            in_remote@ == index_of::<E>(r),
            local_part::<E>(a, l, r, i as int) == Ok::<Seq<E::V>, u128>(views(result@)),
        decreases local.len() - i,
    {
        let id = local[i].entity_id();
        assert(l[i as int] == local@[i as int]@);
        match settle_record(
            get_indexed(&in_ancestor, ancestor, id),
            get_indexed(&in_local, local, id),
            get_indexed(&in_remote, remote, id),
        ) {
            Ok(Some(e)) => {
                let ghost before = views(result@);
                let ghost v = e@;
                result.push(e);
                assert(views(result@) =~= before.push(v));
            },
            Ok(None) => {},
            Err(_) => {
                proof {
                    lemma_local_part_fails_on::<E>(a, l, r, i + 1, l.len() as int);
                }
                return Err(id);
            },
        }
        i += 1;
    }
    let ghost kept = views(result@);
    let mut j: usize = 0;
    while j < remote.len()
        invariant
            0 <= j <= remote.len(),
            a == views(ancestor@),
            l == views(local@),
            r == views(remote@),
            in_ancestor@ == index_of::<E>(a),
            in_local@ == index_of::<E>(l),
            in_remote@ == index_of::<E>(r),
            local_part::<E>(a, l, r, l.len() as int) == Ok::<Seq<E::V>, u128>(kept),
            remote_part::<E>(a, l, r, j as int) matches Ok(added) && views(result@) == kept + added,
        decreases remote.len() - j,
    {
        let id = remote[j].entity_id();
        let ghost added = remote_part::<E>(a, l, r, j as int)->Ok_0;
        assert(r[j as int] == remote@[j as int]@);
        let here = get_indexed(&in_local, local, id);
        if here.is_none() {
            match settle_record(
                get_indexed(&in_ancestor, ancestor, id),
                here,
                get_indexed(&in_remote, remote, id),
            ) {
                Ok(Some(e)) => {
                    let ghost v = e@;
                    let ghost before = views(result@);
                    result.push(e);
                    assert(views(result@) =~= before.push(v));
                    assert(before.push(v) =~= kept + added.push(v));
                },
                Ok(None) => {},
                Err(_) => {
                    proof {
                        lemma_remote_part_fails_on::<E>(a, l, r, j + 1, r.len() as int);
                    }
                    return Err(id);
                },
            }
        }
        j += 1;
    }
    Ok(result)
}

/// Once nothing can be decided of one of the first local records, the same
/// holds when more of them are looked at.
pub proof fn lemma_local_part_fails_on<E: Entity>(
    a: Seq<E::V>,
    l: Seq<E::V>,
    r: Seq<E::V>,
    n: int,
    m: int,
)
    requires
        n <= m,
        local_part::<E>(a, l, r, n) is Err,
    ensures
        local_part::<E>(a, l, r, m) == local_part::<E>(a, l, r, n),
    decreases m - n,
{
    if n < m {
        lemma_local_part_fails_on::<E>(a, l, r, n, m - 1);
    }
}

/// Once nothing can be decided of one of the first remote records, the same
/// holds when more of them are looked at.
pub proof fn lemma_remote_part_fails_on<E: Entity>(
    a: Seq<E::V>,
    l: Seq<E::V>,
    r: Seq<E::V>,
    n: int,
    m: int,
)
    requires
        n <= m,
        remote_part::<E>(a, l, r, n) is Err,
    ensures
        remote_part::<E>(a, l, r, m) == remote_part::<E>(a, l, r, n),
    decreases m - n,
{
    if n < m {
        lemma_remote_part_fails_on::<E>(a, l, r, n, m - 1);
    }
}

/// What holds of the local part of a merge that succeeds so far: it holds
/// only identifiers of the local records looked at, none twice; under the
/// identifier of each of those records it holds exactly what becomes of the
/// record; and each of its values is held by the local or the remote copy.
pub proof fn lemma_local_part<E: Entity>(a: Seq<E::V>, l: Seq<E::V>, r: Seq<E::V>, n: int)
    requires
        0 <= n <= l.len(),
        keys_distinct::<E>(l),
        local_part::<E>(a, l, r, n) is Ok,
    ensures
        ({
            let s = local_part::<E>(a, l, r, n)->Ok_0;
            &&& keys_distinct::<E>(s)
            &&& forall|id: u128| has_key::<E>(s, id) ==> has_key::<E>(l.take(n), id)
            &&& forall|i: int|
                0 <= i < n ==> #[trigger] settled::<E>(a, l, r, E::key(l[i])) == Ok::<
                    Option<E::V>,
                    (),
                >(lookup::<E>(s, E::key(l[i])))
            &&& forall|k: int| 0 <= k < s.len() ==> l.contains(#[trigger] s[k]) || r.contains(s[k])
        }),
    decreases n,
{
    let s = local_part::<E>(a, l, r, n)->Ok_0;
    if n <= 0 {
        assert forall|id: u128| has_key::<E>(s, id) implies has_key::<E>(l.take(n), id) by {}
    } else {
        lemma_local_part::<E>(a, l, r, n - 1);
        let prev = local_part::<E>(a, l, r, n - 1)->Ok_0;
        let x = l[n - 1];
        let id = E::key(x);
        let outcome = settled::<E>(a, l, r, id);
        lemma_lookup_key::<E>(l, id);
        lemma_lookup_key::<E>(r, id);
        // the identifier of the record looked at is not among the earlier ones
        assert(!has_key::<E>(l.take(n - 1), id)) by {
            if has_key::<E>(l.take(n - 1), id) {
                let i = choose|i: int|
                    0 <= i < l.take(n - 1).len() && E::key(#[trigger] l.take(n - 1)[i]) == id;
                assert(l.take(n - 1)[i] == l[i]);
                assert(E::key(l[i]) != E::key(l[n - 1]));
            }
        }
        assert(!has_key::<E>(prev, id));
        assert forall|other: u128| has_key::<E>(l.take(n - 1), other) implies has_key::<E>(
            l.take(n),
            other,
        ) by {
            let i = choose|i: int|
                0 <= i < l.take(n - 1).len() && E::key(#[trigger] l.take(n - 1)[i]) == other;
            assert(l.take(n)[i] == l.take(n - 1)[i]);
        }
        assert(l.take(n)[n - 1] == x);
        assert(has_key::<E>(l.take(n), id));
        match outcome {
            Ok(Some(v)) => {
                assert(s == prev.push(v));
                assert(E::key(v) == id);
                lemma_push_keeps_keys_distinct::<E>(prev, v);
                assert forall|other: u128| has_key::<E>(s, other) implies has_key::<E>(
                    l.take(n),
                    other,
                ) by {
                    lemma_lookup_push::<E>(prev, v, other);
                }
                assert forall|i: int| 0 <= i < n implies #[trigger] settled::<E>(
                    a,
                    l,
                    r,
                    E::key(l[i]),
                ) == Ok::<Option<E::V>, ()>(lookup::<E>(s, E::key(l[i]))) by {
                    lemma_lookup_push::<E>(prev, v, E::key(l[i]));
                    lemma_lookup_key::<E>(prev, E::key(l[i]));
                    if i < n - 1 {
                        assert(E::key(l[i]) != E::key(l[n - 1]));
                    }
                }
                assert forall|k: int| 0 <= k < s.len() implies l.contains(#[trigger] s[k])
                    || r.contains(s[k]) by {
                    if k < prev.len() {
                        assert(s[k] == prev[k]);
                    }
                }
            },
            Ok(None) => {
                assert(s == prev);
                assert forall|i: int| 0 <= i < n implies #[trigger] settled::<E>(
                    a,
                    l,
                    r,
                    E::key(l[i]),
                ) == Ok::<Option<E::V>, ()>(lookup::<E>(s, E::key(l[i]))) by {
                    if i == n - 1 {
                        lemma_lookup_key::<E>(prev, id);
                    }
                }
            },
            Err(_) => {},
        }
    }
}

/// What holds of the remote part of a merge that succeeds so far: it holds
/// only identifiers of the remote records looked at that the local copy does
/// not hold, none twice; under the identifier of each such record it holds
/// exactly what becomes of the record; and each of its values is held by the
/// remote copy.
pub proof fn lemma_remote_part<E: Entity>(a: Seq<E::V>, l: Seq<E::V>, r: Seq<E::V>, n: int)
    requires
        0 <= n <= r.len(),
        keys_distinct::<E>(r),
        remote_part::<E>(a, l, r, n) is Ok,
    ensures
        ({
            let s = remote_part::<E>(a, l, r, n)->Ok_0;
            &&& keys_distinct::<E>(s)
            &&& forall|id: u128|
                has_key::<E>(s, id) ==> has_key::<E>(r.take(n), id) && !has_key::<E>(l, id)
            &&& forall|i: int|
                0 <= i < n && !has_key::<E>(l, E::key(r[i])) ==> #[trigger] settled::<E>(
                    a,
                    l,
                    r,
                    E::key(r[i]),
                ) == Ok::<Option<E::V>, ()>(lookup::<E>(s, E::key(r[i])))
            &&& forall|k: int| 0 <= k < s.len() ==> r.contains(#[trigger] s[k])
        }),
    decreases n,
{
    let s = remote_part::<E>(a, l, r, n)->Ok_0;
    if n <= 0 {
        assert forall|id: u128| has_key::<E>(s, id) implies has_key::<E>(r.take(n), id)
            && !has_key::<E>(l, id) by {}
    } else {
        lemma_remote_part::<E>(a, l, r, n - 1);
        let prev = remote_part::<E>(a, l, r, n - 1)->Ok_0;
        let x = r[n - 1];
        let id = E::key(x);
        lemma_lookup_key::<E>(l, id);
        lemma_lookup_key::<E>(r, id);
        assert(!has_key::<E>(r.take(n - 1), id)) by {
            if has_key::<E>(r.take(n - 1), id) {
                let i = choose|i: int|
                    0 <= i < r.take(n - 1).len() && E::key(#[trigger] r.take(n - 1)[i]) == id;
                assert(r.take(n - 1)[i] == r[i]);
                assert(E::key(r[i]) != E::key(r[n - 1]));
            }
        }
        assert(!has_key::<E>(prev, id));
        assert forall|other: u128| has_key::<E>(r.take(n - 1), other) implies has_key::<E>(
            r.take(n),
            other,
        ) by {
            let i = choose|i: int|
                0 <= i < r.take(n - 1).len() && E::key(#[trigger] r.take(n - 1)[i]) == other;
            assert(r.take(n)[i] == r.take(n - 1)[i]);
        }
        assert(r.take(n)[n - 1] == x);
        assert(has_key::<E>(r.take(n), id));
        if has_key::<E>(l, id) {
            assert(s == prev);
        } else {
            match settled::<E>(a, l, r, id) {
                Ok(Some(v)) => {
                    assert(s == prev.push(v));
                    assert(lookup::<E>(l, id) is None);
                    assert(E::key(v) == id && r.contains(v));
                    lemma_push_keeps_keys_distinct::<E>(prev, v);
                    assert forall|other: u128| has_key::<E>(s, other) implies has_key::<E>(
                        r.take(n),
                        other,
                    ) && !has_key::<E>(l, other) by {
                        lemma_lookup_push::<E>(prev, v, other);
                    }
                    assert forall|i: int|
                        0 <= i < n && !has_key::<E>(l, E::key(r[i])) implies #[trigger] settled::<E>(
                        a,
                        l,
                        r,
                        E::key(r[i]),
                    ) == Ok::<Option<E::V>, ()>(lookup::<E>(s, E::key(r[i]))) by {
                        lemma_lookup_push::<E>(prev, v, E::key(r[i]));
                        lemma_lookup_key::<E>(prev, E::key(r[i]));
                        if i < n - 1 {
                            assert(E::key(r[i]) != E::key(r[n - 1]));
                        }
                    }
                    assert forall|k: int| 0 <= k < s.len() implies r.contains(#[trigger] s[k]) by {
                        if k < prev.len() {
                            assert(s[k] == prev[k]);
                        }
                    }
                },
                Ok(None) => {
                    assert(s == prev);
                    assert forall|i: int|
                        0 <= i < n && !has_key::<E>(l, E::key(r[i])) implies #[trigger] settled::<E>(
                        a,
                        l,
                        r,
                        E::key(r[i]),
                    ) == Ok::<Option<E::V>, ()>(lookup::<E>(s, E::key(r[i]))) by {
                        if i == n - 1 {
                            lemma_lookup_key::<E>(prev, id);
                        }
                    }
                },
                Err(_) => {},
            }
        }
    }
}

/// The merge policy, record by record. Where the merge of copies with
/// distinct identifiers succeeds, the result has distinct identifiers, and
/// under every identifier it holds exactly what becomes of the record filed
/// under it: what both copies agree on, or what the one copy holds that
/// differs from the ancestor. Every value of the result is held by the local
/// or the remote copy.
pub proof fn lemma_merged_record_by_record<E: Entity>(a: Seq<E::V>, l: Seq<E::V>, r: Seq<E::V>)
    requires
        keys_distinct::<E>(l),
        keys_distinct::<E>(r),
        merged::<E>(a, l, r) is Ok,
    ensures
        keys_distinct::<E>(merged::<E>(a, l, r)->Ok_0),
        forall|id: u128| #[trigger]
            settled::<E>(a, l, r, id) == Ok::<Option<E::V>, ()>(
                lookup::<E>(merged::<E>(a, l, r)->Ok_0, id),
            ),
        forall|k: int|
            0 <= k < merged::<E>(a, l, r)->Ok_0.len() ==> l.contains(
                #[trigger] merged::<E>(a, l, r)->Ok_0[k],
            ) || r.contains(merged::<E>(a, l, r)->Ok_0[k]),
{
    let m = merged::<E>(a, l, r)->Ok_0;
    let kept = local_part::<E>(a, l, r, l.len() as int)->Ok_0;
    let added = remote_part::<E>(a, l, r, r.len() as int)->Ok_0;
    lemma_local_part::<E>(a, l, r, l.len() as int);
    lemma_remote_part::<E>(a, l, r, r.len() as int);
    assert(l.take(l.len() as int) =~= l);
    assert(r.take(r.len() as int) =~= r);
    assert(m == kept + added);
    assert forall|i: int, j: int| 0 <= i < j < m.len() implies E::key(#[trigger] m[i]) != E::key(
        #[trigger] m[j],
    ) by {
        if j < kept.len() {
            assert(m[i] == kept[i] && m[j] == kept[j]);
        } else if i >= kept.len() {
            assert(m[i] == added[i - kept.len()] && m[j] == added[j - kept.len()]);
        } else {
            assert(m[i] == kept[i] && m[j] == added[j - kept.len()]);
            assert(has_key::<E>(kept, E::key(kept[i])));
            assert(has_key::<E>(added, E::key(added[j - kept.len()])));
        }
    }
    assert forall|id: u128| #[trigger]
        settled::<E>(a, l, r, id) == Ok::<Option<E::V>, ()>(lookup::<E>(m, id)) by {
        lemma_lookup_add::<E>(kept, added, id);
        lemma_lookup_key::<E>(l, id);
        lemma_lookup_key::<E>(r, id);
        lemma_lookup_key::<E>(kept, id);
        lemma_lookup_key::<E>(added, id);
        lemma_position::<E>(l, id);
        lemma_position::<E>(r, id);
        if has_key::<E>(l, id) {
            let i = position::<E>(l, id);
            assert(E::key(l[i]) == id);
            assert(settled::<E>(a, l, r, E::key(l[i])) == Ok::<Option<E::V>, ()>(
                lookup::<E>(kept, E::key(l[i])),
            ));
            assert(!has_key::<E>(added, id));
        } else if has_key::<E>(r, id) {
            let j = position::<E>(r, id);
            assert(E::key(r[j]) == id);
            assert(settled::<E>(a, l, r, E::key(r[j])) == Ok::<Option<E::V>, ()>(
                lookup::<E>(added, E::key(r[j])),
            ));
            assert(!has_key::<E>(kept, id));
        } else {
            assert(!has_key::<E>(kept, id));
            assert(!has_key::<E>(added, id));
        }
    }
    assert forall|k: int| 0 <= k < m.len() implies l.contains(#[trigger] m[k]) || r.contains(
        m[k],
    ) by {
        if k < kept.len() {
            assert(m[k] == kept[k]);
        } else {
            assert(m[k] == added[k - kept.len()]);
        }
    }
}


/// A merge fails exactly where nothing can be decided of some record: it
/// names a record of which nothing can be decided, and it succeeds where
/// every record can be settled.
pub proof fn lemma_merged_fails<E: Entity>(a: Seq<E::V>, l: Seq<E::V>, r: Seq<E::V>)
    ensures
        merged::<E>(a, l, r) matches Err(id) ==> settled::<E>(a, l, r, id) is Err,
        (forall|id: u128| #[trigger] settled::<E>(a, l, r, id) is Ok) ==> merged::<E>(a, l, r) is Ok,
{
    lemma_local_part_fails::<E>(a, l, r, l.len() as int);
    lemma_remote_part_fails::<E>(a, l, r, r.len() as int);
}

/// The local part fails only over a record of which nothing can be decided,
/// and not at all where every record can be settled.
proof fn lemma_local_part_fails<E: Entity>(a: Seq<E::V>, l: Seq<E::V>, r: Seq<E::V>, n: int)
    ensures
        local_part::<E>(a, l, r, n) matches Err(id) ==> settled::<E>(a, l, r, id) is Err,
        (forall|id: u128| #[trigger] settled::<E>(a, l, r, id) is Ok) ==> local_part::<E>(a, l, r, n) is Ok,
    decreases n,
{
    if n > 0 {
        lemma_local_part_fails::<E>(a, l, r, n - 1);
        if forall|id: u128| #[trigger] settled::<E>(a, l, r, id) is Ok {
            assert(settled::<E>(a, l, r, E::key(l[n - 1])) is Ok);
        }
    }
}

/// The remote part fails only over a record of which nothing can be
/// decided, and not at all where every record can be settled.
proof fn lemma_remote_part_fails<E: Entity>(a: Seq<E::V>, l: Seq<E::V>, r: Seq<E::V>, n: int)
    ensures
        remote_part::<E>(a, l, r, n) matches Err(id) ==> settled::<E>(a, l, r, id) is Err,
        (forall|id: u128| #[trigger] settled::<E>(a, l, r, id) is Ok) ==> remote_part::<E>(a, l, r, n) is Ok,
    decreases n,
{
    if n > 0 {
        lemma_remote_part_fails::<E>(a, l, r, n - 1);
        if forall|id: u128| #[trigger] settled::<E>(a, l, r, id) is Ok {
            assert(settled::<E>(a, l, r, E::key(r[n - 1])) is Ok);
        }
    }
}

/// The snapshots merged: the tasks, the projects and the tags each by
/// themselves. Where nothing can be decided of some record, the merge fails
/// and names the first such record, tasks before projects before tags. A
/// merge that would leave two projects or two tags of one name is refused as
/// invalid, and one that would leave two tasks being tracked as a conflict.
pub open spec fn merge_views(a: StoreView, l: StoreView, r: StoreView) -> Result<StoreView, Error> {
    match merged::<Task>(a.tasks, l.tasks, r.tasks) {
        Err(id) => Err(Error::MergeConflict(id)),
        Ok(tasks) => match merged::<Category>(a.projects, l.projects, r.projects) {
            Err(id) => Err(Error::MergeConflict(id)),
            Ok(projects) => match merged::<Category>(a.tags, l.tags, r.tags) {
                Err(id) => Err(Error::MergeConflict(id)),
                Ok(tags) => if !(names_distinct(projects) && names_distinct(tags)) {
                    Err(Error::Validation)
                } else if !single_current(tasks) {
                    Err(Error::Conflict)
                } else {
                    Ok(StoreView { tasks, projects, tags })
                },
            },
        },
    }
}

/// A merge of snapshots that obey the rules of a store obeys them too.
pub proof fn lemma_merge_views_valid(a: StoreView, l: StoreView, r: StoreView)
    requires
        l.valid(),
        r.valid(),
    ensures
        merge_views(a, l, r) matches Ok(m) ==> m.valid(),
{
    if let Ok(m) = merge_views(a, l, r) {
        lemma_merged_record_by_record::<Task>(a.tasks, l.tasks, r.tasks);
        lemma_merged_record_by_record::<Category>(a.projects, l.projects, r.projects);
        lemma_merged_record_by_record::<Category>(a.tags, l.tags, r.tags);
        assert forall|k: int| 0 <= k < m.tasks.len() implies (#[trigger] m.tasks[k]).valid() by {
            let v = m.tasks[k];
            if l.tasks.contains(v) {
                let i = choose|i: int| 0 <= i < l.tasks.len() && l.tasks[i] == v;
                assert(l.tasks[i].valid());
            } else {
                let i = choose|i: int| 0 <= i < r.tasks.len() && r.tasks[i] == v;
                assert(r.tasks[i].valid());
            }
        }
    }
}

/// Merges a local and a remote snapshot that have both moved on from an
/// ancestor: see `merge_views`.
pub fn merge(ancestor: &Snapshot, local: &Snapshot, remote: &Snapshot) -> (out: Result<
    Snapshot,
    Error,
>)
    ensures
        match merge_views(ancestor@, local@, remote@) {
            Ok(m) => out matches Ok(s) && s@ == m,
            Err(e) => out == Err::<Snapshot, Error>(e),
        },
{
    let tasks = match merge_records(&ancestor.tasks, &local.tasks, &remote.tasks) {
        Ok(v) => v,
        Err(id) => {
            return Err(Error::MergeConflict(id));
        },
    };
    let projects = match merge_records(&ancestor.projects, &local.projects, &remote.projects) {
        Ok(v) => v,
        Err(id) => {
            return Err(Error::MergeConflict(id));
        },
    };
    let tags = match merge_records(&ancestor.tags, &local.tags, &remote.tags) {
        Ok(v) => v,
        Err(id) => {
            return Err(Error::MergeConflict(id));
        },
    };
    if !(names_are_distinct(&projects) && names_are_distinct(&tags)) {
        return Err(Error::Validation);
    }
    if !tasks_single_current(&tasks) {
        return Err(Error::Conflict);
    }
    Ok(Snapshot { tasks, projects, tags })
}

/// Where the remote copy has not moved on from the ancestor, nothing that
/// the local copy holds is touched by the merge.
pub proof fn lemma_local_part_unchanged_remote<E: Entity>(a: Seq<E::V>, l: Seq<E::V>, n: int)
    requires
        0 <= n <= l.len(),
        keys_distinct::<E>(l),
    ensures
        local_part::<E>(a, l, a, n) == Ok::<Seq<E::V>, u128>(l.take(n)),
    decreases n,
{
    if n <= 0 {
        assert(l.take(n) =~= Seq::<E::V>::empty());
    } else {
        lemma_local_part_unchanged_remote::<E>(a, l, n - 1);
        crate::entity::lemma_position_of_member::<E>(l, n - 1);
        assert(l.take(n) =~= l.take(n - 1).push(l[n - 1]));
    }
}

/// Where a remote copy adds one record to the ancestor, the local part of
/// the merge leaves the local records as they are, provided that the local
/// copy holds the ancestor's records unchanged, and possibly more under
/// other identifiers.
proof fn lemma_local_part_both_add<E: Entity>(a: Seq<E::V>, x: E::V, y: E::V, n: int)
    requires
        keys_distinct::<E>(a),
        !has_key::<E>(a, E::key(x)),
        !has_key::<E>(a, E::key(y)),
        E::key(x) != E::key(y),
        0 <= n <= a.len() + 1,
    ensures
        local_part::<E>(a, a.push(x), a.push(y), n) == Ok::<Seq<E::V>, u128>(a.push(x).take(n)),
    decreases n,
{
    let l = a.push(x);
    let r = a.push(y);
    if n <= 0 {
        assert(l.take(n) =~= Seq::<E::V>::empty());
    } else {
        lemma_local_part_both_add::<E>(a, x, y, n - 1);
        let id = E::key(l[n - 1]);
        lemma_lookup_push::<E>(a, x, id);
        lemma_lookup_push::<E>(a, y, id);
        lemma_lookup_key::<E>(a, id);
        if n - 1 < a.len() {
            assert(l[n - 1] == a[n - 1]);
            crate::entity::lemma_position_of_member::<E>(a, n - 1);
            assert(has_key::<E>(a, id));
        } else {
            assert(l[n - 1] == x);
        }
        assert(l.take(n) =~= l.take(n - 1).push(l[n - 1]));
    }
}

/// Where both sides add a record to the ancestor, the remote part of the
/// merge is the record that the remote copy adds.
proof fn lemma_remote_part_both_add<E: Entity>(a: Seq<E::V>, x: E::V, y: E::V, n: int)
    requires
        keys_distinct::<E>(a),
        !has_key::<E>(a, E::key(x)),
        !has_key::<E>(a, E::key(y)),
        E::key(x) != E::key(y),
        0 <= n <= a.len() + 1,
    ensures
        remote_part::<E>(a, a.push(x), a.push(y), n) == Ok::<Seq<E::V>, u128>(
            if n <= a.len() {
                Seq::<E::V>::empty()
            } else {
                seq![y]
            },
        ),
    decreases n,
{
    let l = a.push(x);
    let r = a.push(y);
    if n > 0 {
        lemma_remote_part_both_add::<E>(a, x, y, n - 1);
        let id = E::key(r[n - 1]);
        lemma_lookup_push::<E>(a, x, id);
        lemma_lookup_push::<E>(a, y, id);
        lemma_lookup_key::<E>(a, id);
        if n - 1 < a.len() {
            assert(r[n - 1] == a[n - 1]);
            crate::entity::lemma_position_of_member::<E>(a, n - 1);
            assert(has_key::<E>(a, id));
            assert(has_key::<E>(l, id));
        } else {
            assert(r[n - 1] == y);
            assert(!has_key::<E>(l, id));
            assert(Seq::<E::V>::empty().push(y) =~= seq![y]);
        }
    }
}

/// Both sides add a record. Where the local copy is the ancestor with one
/// more record and the remote copy is the ancestor with another one, under
/// another identifier, the merge holds the ancestor's records and both new
/// ones: the local one first.
pub proof fn lemma_merged_both_add<E: Entity>(a: Seq<E::V>, x: E::V, y: E::V)
    requires
        keys_distinct::<E>(a),
        !has_key::<E>(a, E::key(x)),
        !has_key::<E>(a, E::key(y)),
        E::key(x) != E::key(y),
    ensures
        merged::<E>(a, a.push(x), a.push(y)) == Ok::<Seq<E::V>, u128>(a.push(x).push(y)),
{
    let l = a.push(x);
    lemma_local_part_both_add::<E>(a, x, y, l.len() as int);
    lemma_remote_part_both_add::<E>(a, x, y, l.len() as int);
    assert(l.take(l.len() as int) =~= l);
    assert(l + seq![y] =~= l.push(y));
}

/// Remote records that are those of the ancestor add nothing to the merge.
proof fn lemma_remote_part_unchanged_remote<E: Entity>(a: Seq<E::V>, l: Seq<E::V>, n: int)
    requires
        0 <= n <= a.len(),
        keys_distinct::<E>(a),
    ensures
        remote_part::<E>(a, l, a, n) == Ok::<Seq<E::V>, u128>(Seq::empty()),
    decreases n,
{
    if n > 0 {
        lemma_remote_part_unchanged_remote::<E>(a, l, n - 1);
        crate::entity::lemma_position_of_member::<E>(a, n - 1);
        lemma_lookup_key::<E>(l, E::key(a[n - 1]));
    }
}

/// Where the remote copy has not moved on from the ancestor, the merge is
/// the local copy as it is.
pub proof fn lemma_merged_remote_unchanged<E: Entity>(a: Seq<E::V>, l: Seq<E::V>)
    requires
        keys_distinct::<E>(a),
        keys_distinct::<E>(l),
    ensures
        merged::<E>(a, l, a) == Ok::<Seq<E::V>, u128>(l),
{
    lemma_local_part_unchanged_remote::<E>(a, l, l.len() as int);
    lemma_remote_part_unchanged_remote::<E>(a, l, a.len() as int);
    assert(l.take(l.len() as int) =~= l);
    assert(l + Seq::<E::V>::empty() =~= l);
}

/// A class of records that neither side has touched comes out of the merge
/// as it was.
pub proof fn lemma_merged_untouched<E: Entity>(a: Seq<E::V>)
    requires
        keys_distinct::<E>(a),
    ensures
        merged::<E>(a, a, a) == Ok::<Seq<E::V>, u128>(a),
{
    lemma_merged_remote_unchanged::<E>(a, a);
}

/// Both sides change a record, and differently. Where both copies hold the
/// ancestor's records but for the one at position `i`, which each has
/// replaced by a value of its own under the same identifier, the merge fails
/// and names that record.
pub proof fn lemma_merged_both_change<E: Entity>(a: Seq<E::V>, i: int, x: E::V, y: E::V)
    requires
        keys_distinct::<E>(a),
        0 <= i < a.len(),
        E::key(x) == E::key(a[i]),
        E::key(y) == E::key(a[i]),
        x != y,
        x != a[i],
        y != a[i],
    ensures
        merged::<E>(a, a.update(i, x), a.update(i, y)) == Err::<Seq<E::V>, u128>(E::key(a[i])),
{
    let l = a.update(i, x);
    let r = a.update(i, y);
    crate::store::lemma_update_keeps_keys_distinct::<E>(a, i, x);
    crate::store::lemma_update_keeps_keys_distinct::<E>(a, i, y);
    assert forall|n: int| 0 <= n <= i implies local_part::<E>(a, l, r, n) == Ok::<
        Seq<E::V>,
        u128,
    >(l.take(n)) by {
        lemma_local_part_before_change::<E>(a, i, x, y, n);
    }
    crate::entity::lemma_position_of_member::<E>(a, i);
    crate::entity::lemma_position_of_member::<E>(l, i);
    crate::entity::lemma_position_of_member::<E>(r, i);
    assert(local_part::<E>(a, l, r, i) is Ok);
    assert(settled::<E>(a, l, r, E::key(l[i])) is Err);
    assert(local_part::<E>(a, l, r, i + 1) == Err::<Seq<E::V>, u128>(E::key(a[i])));
    lemma_local_part_fails_on::<E>(a, l, r, i + 1, l.len() as int);
}

/// Before the record that both sides change, the local part of the merge
/// leaves the local records as they are.
proof fn lemma_local_part_before_change<E: Entity>(a: Seq<E::V>, i: int, x: E::V, y: E::V, n: int)
    requires
        keys_distinct::<E>(a),
        0 <= i < a.len(),
        E::key(x) == E::key(a[i]),
        E::key(y) == E::key(a[i]),
        0 <= n <= i,
    ensures
        local_part::<E>(a, a.update(i, x), a.update(i, y), n) == Ok::<Seq<E::V>, u128>(
            a.update(i, x).take(n),
        ),
    decreases n,
{
    let l = a.update(i, x);
    let r = a.update(i, y);
    if n <= 0 {
        assert(l.take(n) =~= Seq::<E::V>::empty());
    } else {
        lemma_local_part_before_change::<E>(a, i, x, y, n - 1);
        crate::store::lemma_update_keeps_keys_distinct::<E>(a, i, x);
        crate::store::lemma_update_keeps_keys_distinct::<E>(a, i, y);
        crate::entity::lemma_position_of_member::<E>(l, n - 1);
        crate::entity::lemma_position_of_member::<E>(r, n - 1);
        assert(l[n - 1] == a[n - 1] && r[n - 1] == a[n - 1]);
        assert(l.take(n) =~= l.take(n - 1).push(l[n - 1]));
    }
}


} // verus!
