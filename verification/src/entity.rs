//! What the store's three classes of records have in common: each record is
//! keyed by an identifier, can be compared by value and can be copied.

use vstd::prelude::*;

verus! {

/// A record of the store, as far as lookup and reconciliation need to know it.
pub trait Entity: View + Sized {
    /// The identifier under which a record with this value is filed.
    spec fn key(v: Self::V) -> u128;

    /// The record's identifier.
    fn entity_id(&self) -> (r: u128)
        ensures
            r == Self::key(self@),
    ;

    /// Whether two records hold the same value.
    fn same_as(&self, other: &Self) -> (r: bool)
        ensures
            r == (self@ == other@),
    ;

    /// A copy of the record with the same value.
    fn duplicate(&self) -> (r: Self)
        ensures
            r@ == self@,
    ;
}

/// The values of a sequence of records, in order.
pub open spec fn views<E: Entity>(s: Seq<E>) -> Seq<E::V> {
    Seq::new(s.len(), |i: int| s[i]@)
}

/// The identifiers of the values, in order.
pub open spec fn keys<E: Entity>(s: Seq<E::V>) -> Seq<u128> {
    Seq::new(s.len(), |i: int| E::key(s[i]))
}

/// No identifier occurs twice among the values.
pub open spec fn keys_distinct<E: Entity>(s: Seq<E::V>) -> bool {
    forall|i: int, j: int| 0 <= i < j < s.len() ==> E::key(#[trigger] s[i]) != E::key(#[trigger] s[j])
}

/// Some value in the sequence is filed under `id`.
pub open spec fn has_key<E: Entity>(s: Seq<E::V>, id: u128) -> bool {
    exists|i: int| 0 <= i < s.len() && E::key(#[trigger] s[i]) == id
}

/// The first position at which a value is filed under `id`; the length of the
/// sequence if there is none.
pub open spec fn position<E: Entity>(s: Seq<E::V>, id: u128) -> int
    decreases s.len(),
{
    if s.len() == 0 {
        0
    } else if E::key(s[0]) == id {
        0
    } else {
        1 + position::<E>(s.drop_first(), id)
    }
}

/// The value filed under `id`, if any.
pub open spec fn lookup<E: Entity>(s: Seq<E::V>, id: u128) -> Option<E::V> {
    let p = position::<E>(s, id);
    if p < s.len() {
        Some(s[p])
    } else {
        None
    }
}

/// Where `position` points: at the first value filed under `id`, or past the
/// end exactly when no value is.
pub proof fn lemma_position<E: Entity>(s: Seq<E::V>, id: u128)
    ensures
        0 <= position::<E>(s, id) <= s.len(),
        position::<E>(s, id) < s.len() ==> E::key(s[position::<E>(s, id)]) == id,
        forall|j: int| 0 <= j < position::<E>(s, id) ==> E::key(#[trigger] s[j]) != id,
        position::<E>(s, id) < s.len() <==> has_key::<E>(s, id),
    decreases s.len(),
{
    if s.len() == 0 {
    } else if E::key(s[0]) == id {
    } else {
        let t = s.drop_first();
        lemma_position::<E>(t, id);
        let p = position::<E>(t, id);
        assert forall|j: int| 0 <= j < 1 + p implies E::key(#[trigger] s[j]) != id by {
            if j > 0 {
                assert(s[j] == t[j - 1]);
            }
        }
        if p < t.len() {
            assert(s[1 + p] == t[p]);
        }
        if has_key::<E>(s, id) {
            let i = choose|i: int| 0 <= i < s.len() && E::key(#[trigger] s[i]) == id;
            assert(t[i - 1] == s[i]);
            assert(has_key::<E>(t, id));
        }
    }
}

/// The first position with the key is the one `position` names.
pub proof fn lemma_position_at<E: Entity>(s: Seq<E::V>, id: u128, i: int)
    requires
        0 <= i <= s.len(),
        i < s.len() ==> E::key(s[i]) == id,
        forall|j: int| 0 <= j < i ==> E::key(#[trigger] s[j]) != id,
    ensures
        position::<E>(s, id) == i,
{
    lemma_position::<E>(s, id);
    let p = position::<E>(s, id);
    if p < i {
        assert(E::key(s[p]) != id);
    }
}

/// Finds the first record filed under `id`.
pub fn find<E: Entity>(v: &Vec<E>, id: u128) -> (r: Option<usize>)
    ensures
        match r {
            Some(i) => i == position::<E>(views(v@), id) && i < v.len() && E::key(v@[i as int]@)
                == id,
            None => position::<E>(views(v@), id) == v.len() && !has_key::<E>(views(v@), id),
        },
{
    let mut i: usize = 0;
    while i < v.len()
        invariant
            0 <= i <= v.len(),
            forall|j: int| 0 <= j < i ==> E::key(#[trigger] views(v@)[j]) != id,
        decreases v.len() - i,
    {
        if v[i].entity_id() == id {
            proof {
                lemma_position_at::<E>(views(v@), id, i as int);
            }
            return Some(i);
        }
        i += 1;
    }
    proof {
        lemma_position_at::<E>(views(v@), id, v.len() as int);
        lemma_position::<E>(views(v@), id);
    }
    None
}

/// A sequence with distinct identifiers keeps them distinct when a value
/// under an identifier it does not hold is put at its end.
pub proof fn lemma_push_keeps_keys_distinct<E: Entity>(s: Seq<E::V>, v: E::V)
    requires
        keys_distinct::<E>(s),
        !has_key::<E>(s, E::key(v)),
    ensures
        keys_distinct::<E>(s.push(v)),
{
    let t = s.push(v);
    assert forall|i: int, j: int| 0 <= i < j < t.len() implies E::key(#[trigger] t[i]) != E::key(
        #[trigger] t[j],
    ) by {
        if j == s.len() {
            assert(t[i] == s[i]);
        } else {
            assert(t[i] == s[i] && t[j] == s[j]);
        }
    }
}

/// Where identifiers are distinct, each value is found under its own.
pub proof fn lemma_position_of_member<E: Entity>(s: Seq<E::V>, i: int)
    requires
        keys_distinct::<E>(s),
        0 <= i < s.len(),
    ensures
        position::<E>(s, E::key(s[i])) == i,
        lookup::<E>(s, E::key(s[i])) == Some(s[i]),
{
    lemma_position_at::<E>(s, E::key(s[i]), i);
}

/// Whether no identifier occurs twice among the records.
pub fn keys_are_distinct<E: Entity>(records: &Vec<E>) -> (r: bool)
    ensures
        r == keys_distinct::<E>(views(records@)),
{
    let ghost s = views(records@);
    let mut j: usize = 0;
    while j < records.len()
        invariant
            0 <= j <= records.len(),
            s == views(records@),
            forall|a: int, b: int| 0 <= a < b < j ==> E::key(#[trigger] s[a]) != E::key(#[trigger] s[b]),
        decreases records.len() - j,
    {
        let id = records[j].entity_id();
        let mut i: usize = 0;
        while i < j
            invariant
                0 <= i <= j < records.len(),
                s == views(records@),
                id == E::key(s[j as int]),
                forall|a: int| 0 <= a < i ==> E::key(#[trigger] s[a]) != id,
            decreases j - i,
        {
            if records[i].entity_id() == id {
                assert(E::key(s[i as int]) == E::key(s[j as int]));
                return false;
            }
            i += 1;
        }
        j += 1;
    }
    true
}

/// A copy of the records, each with the same value.
pub fn copy_all<E: Entity>(records: &Vec<E>) -> (r: Vec<E>)
    ensures
        views(r@) == views(records@),
{
    let mut out: Vec<E> = Vec::new();
    let mut i: usize = 0;
    while i < records.len()
        invariant
            0 <= i <= records.len(),
            out.len() == i,
            forall|j: int| 0 <= j < i ==> out@[j]@ == records@[j]@,
        decreases records.len() - i,
    {
        out.push(records[i].duplicate());
        i += 1;
    }
    assert(views(out@) =~= views(records@));
    out
}

/// Whether the two lists hold records of the same values in the same order.
pub fn same_all<E: Entity>(a: &Vec<E>, b: &Vec<E>) -> (r: bool)
    ensures
        r == (views(a@) == views(b@)),
{
    if a.len() != b.len() {
        return false;
    }
    let mut i: usize = 0;
    while i < a.len()
        invariant
            a.len() == b.len(),
            0 <= i <= a.len(),
            forall|j: int| 0 <= j < i ==> a@[j]@ == b@[j]@,
        decreases a.len() - i,
    {
        if !a[i].same_as(&b[i]) {
            assert(views(a@)[i as int] != views(b@)[i as int]);
            return false;
        }
        i += 1;
    }
    assert(views(a@) =~= views(b@));
    true
}


/// What is found under an identifier is filed under it.
pub proof fn lemma_lookup_key<E: Entity>(s: Seq<E::V>, id: u128)
    ensures
        lookup::<E>(s, id) matches Some(v) ==> E::key(v) == id && s.contains(v),
        lookup::<E>(s, id) is Some <==> has_key::<E>(s, id),
{
    lemma_position::<E>(s, id);
}

/// Lookup after a value has been put at the end: what was found before is
/// still found; under the new value's identifier, if it was free, the new
/// value.
pub proof fn lemma_lookup_push<E: Entity>(s: Seq<E::V>, v: E::V, id: u128)
    ensures
        lookup::<E>(s.push(v), id) == if has_key::<E>(s, id) {
            lookup::<E>(s, id)
        } else if E::key(v) == id {
            Some(v)
        } else {
            None
        },
        has_key::<E>(s.push(v), id) <==> has_key::<E>(s, id) || E::key(v) == id,
{
    let t = s.push(v);
    lemma_position::<E>(s, id);
    let p = position::<E>(s, id);
    if p < s.len() {
        assert(t[p] == s[p]);
        assert forall|j: int| 0 <= j < p implies E::key(#[trigger] t[j]) != id by {
            assert(t[j] == s[j]);
        }
        lemma_position_at::<E>(t, id, p);
    } else if E::key(v) == id {
        assert forall|j: int| 0 <= j < s.len() implies E::key(#[trigger] t[j]) != id by {
            assert(t[j] == s[j]);
        }
        lemma_position_at::<E>(t, id, s.len() as int);
    } else {
        assert forall|j: int| 0 <= j < t.len() implies E::key(#[trigger] t[j]) != id by {
            if j < s.len() {
                assert(t[j] == s[j]);
            }
        }
        lemma_position_at::<E>(t, id, t.len() as int);
    }
    lemma_position::<E>(t, id);
}

/// Lookup in one sequence followed by another: in the first, and where it
/// holds nothing under the identifier, in the second.
pub proof fn lemma_lookup_add<E: Entity>(s: Seq<E::V>, t: Seq<E::V>, id: u128)
    ensures
        lookup::<E>(s + t, id) == if has_key::<E>(s, id) {
            lookup::<E>(s, id)
        } else {
            lookup::<E>(t, id)
        },
        has_key::<E>(s + t, id) <==> has_key::<E>(s, id) || has_key::<E>(t, id),
    decreases t.len(),
{
    if t.len() == 0 {
        assert(s + t =~= s);
        lemma_position::<E>(t, id);
        lemma_position::<E>(s, id);
    } else {
        let init = t.drop_last();
        let v = t.last();
        lemma_lookup_add::<E>(s, init, id);
        assert(s + t =~= (s + init).push(v));
        assert(t =~= init.push(v));
        lemma_lookup_push::<E>(s + init, v, id);
        lemma_lookup_push::<E>(init, v, id);
    }
}


/// The identifiers of records with distinct identifiers hold none twice, and
/// are those under which a record is filed.
pub proof fn lemma_keys<E: Entity>(s: Seq<E::V>)
    ensures
        keys_distinct::<E>(s) ==> keys::<E>(s).no_duplicates(),
        forall|id: u128| has_key::<E>(s, id) <==> keys::<E>(s).contains(id),
{
    let ids = keys::<E>(s);
    if keys_distinct::<E>(s) {
        assert forall|i: int, j: int| 0 <= i < ids.len() && 0 <= j < ids.len() && i != j implies ids[i]
            != ids[j] by {
            if i < j {
                assert(E::key(s[i]) != E::key(s[j]));
            } else {
                assert(E::key(s[j]) != E::key(s[i]));
            }
        }
    }
    assert forall|id: u128| has_key::<E>(s, id) <==> ids.contains(id) by {
        if has_key::<E>(s, id) {
            let i = choose|i: int| 0 <= i < s.len() && E::key(#[trigger] s[i]) == id;
            assert(ids[i] == id);
        }
        if ids.contains(id) {
            let i = choose|i: int| 0 <= i < ids.len() && ids[i] == id;
            assert(E::key(s[i]) == id);
        }
    }
}


} // verus!
