//! The index: for the records of one class, under which position each
//! identifier is filed. It owns no record; it is only as good as it is kept
//! in step with the records, which is for the store to see to.

use std::collections::HashMap;
use vstd::prelude::*;
use crate::entity::{
    has_key, lemma_position, lemma_position_at, position, views, Entity,
};

verus! {

broadcast use vstd::std_specs::hash::group_hash_axioms;

/// What the index of the records holds: for every identifier under which a
/// record is filed, the first position at which one is.
pub open spec fn index_of<E: Entity>(records: Seq<E::V>) -> Map<u128, usize> {
    Map::new(|id: u128| has_key::<E>(records, id), |id: u128| position::<E>(records, id) as usize)
}

/// The index of records with one more at the end, filed under an identifier
/// that was free, is the index of the records with that identifier at the
/// new position.
pub proof fn lemma_index_push<E: Entity>(records: Seq<E::V>, v: E::V)
    requires
        !has_key::<E>(records, E::key(v)),
        records.len() < usize::MAX,
    ensures
        index_of::<E>(records.push(v)) == index_of::<E>(records).insert(
            E::key(v),
            records.len() as usize,
        ),
{
    let after = records.push(v);
    assert forall|id: u128|
        has_key::<E>(after, id) == (has_key::<E>(records, id) || id == E::key(v)) && (has_key::<E>(
            after,
            id,
        ) ==> position::<E>(after, id) == if id == E::key(v) {
            records.len() as int
        } else {
            position::<E>(records, id)
        }) by {
        crate::entity::lemma_lookup_push::<E>(records, v, id);
        lemma_position::<E>(records, id);
        lemma_position::<E>(after, id);
        if has_key::<E>(records, id) {
            let p = position::<E>(records, id);
            assert(after[p] == records[p]);
            assert forall|j: int| 0 <= j < p implies E::key(#[trigger] after[j]) != id by {
                assert(after[j] == records[j]);
            }
            lemma_position_at::<E>(after, id, p);
        } else if id == E::key(v) {
            assert forall|j: int| 0 <= j < records.len() implies E::key(#[trigger] after[j])
                != id by {
                assert(after[j] == records[j]);
            }
            lemma_position_at::<E>(after, id, records.len() as int);
        }
    }
    assert(index_of::<E>(after) =~= index_of::<E>(records).insert(
        E::key(v),
        records.len() as usize,
    ));
}

/// Replacing a record by one filed under the same identifier leaves the
/// index as it is.
pub proof fn lemma_index_update<E: Entity>(records: Seq<E::V>, i: int, v: E::V)
    requires
        0 <= i < records.len(),
        E::key(v) == E::key(records[i]),
    ensures
        index_of::<E>(records.update(i, v)) == index_of::<E>(records),
{
    let after = records.update(i, v);
    assert forall|id: u128|
        has_key::<E>(after, id) == has_key::<E>(records, id) && position::<E>(after, id)
            == position::<E>(records, id) by {
        lemma_position::<E>(records, id);
        let p = position::<E>(records, id);
        assert forall|j: int| 0 <= j < p implies E::key(#[trigger] after[j]) != id by {
            assert(E::key(after[j]) == E::key(records[j]));
        }
        if p < records.len() {
            assert(E::key(after[p]) == E::key(records[p]));
        }
        lemma_position_at::<E>(after, id, p);
        lemma_position::<E>(after, id);
    }
    assert(index_of::<E>(after) =~= index_of::<E>(records));
}

/// An index.
#[derive(Debug, Clone, PartialEq, Eq)]
pub struct Index {
    positions: HashMap<u128, usize>,
}

impl View for Index {
    type V = Map<u128, usize>;

    closed spec fn view(&self) -> Map<u128, usize> {
        self.positions@
    }
}

impl Index {
    /// An index that holds nothing.
    pub fn new() -> (r: Index)
        ensures
            r@ == Map::<u128, usize>::empty(),
    {
        Index { positions: HashMap::new() }
    }

    /// The index of the records.
    pub fn build<E: Entity>(records: &Vec<E>) -> (r: Index)
        ensures
            r@ == index_of::<E>(views(records@)),
    {
        let ghost all = views(records@);
        let mut positions: HashMap<u128, usize> = HashMap::new();
        let mut i: usize = 0;
        assert(positions@ =~= index_of::<E>(all.take(0)));
        while i < records.len()
            invariant
                0 <= i <= records.len(),
                all == views(records@),
                positions@ == index_of::<E>(all.take(i as int)),
            decreases records.len() - i,
        {
            let id = records[i].entity_id();
            let ghost seen = all.take(i as int);
            proof {
                assert(all.take(i + 1) =~= seen.push(all[i as int]));
                lemma_position::<E>(seen, id);
            }
            if !positions.contains_key(&id) {
                proof {
                    lemma_index_push::<E>(seen, all[i as int]);
                }
                positions.insert(id, i);
            } else {
                proof {
                    lemma_index_again::<E>(seen, all[i as int]);
                }
            }
            i += 1;
        }
        assert(all.take(records.len() as int) =~= all);
        Index { positions }
    }

    /// Notes that the record filed under `id` stands at position `at`.
    pub fn note(&mut self, id: u128, at: usize)
        ensures
            final(self)@ == old(self)@.insert(id, at),
    {
        self.positions.insert(id, at);
    }

    /// The position noted for the identifier, if any.
    pub fn find(&self, id: u128) -> (r: Option<usize>)
        ensures
            r == if self@.contains_key(id) {
                Some(self@[id])
            } else {
                None::<usize>
            },
    {
        match self.positions.get(&id) {
            Some(at) => Some(*at),
            None => None,
        }
    }
}

/// The index of records with one more at the end, filed under an identifier
/// that was taken, is the index of the records.
pub proof fn lemma_index_again<E: Entity>(records: Seq<E::V>, v: E::V)
    requires
        has_key::<E>(records, E::key(v)),
    ensures
        index_of::<E>(records.push(v)) == index_of::<E>(records),
{
    let after = records.push(v);
    assert forall|id: u128|
        has_key::<E>(after, id) == has_key::<E>(records, id) && (has_key::<E>(records, id)
            ==> position::<E>(after, id) == position::<E>(records, id)) by {
        crate::entity::lemma_lookup_push::<E>(records, v, id);
        lemma_position::<E>(records, id);
        if has_key::<E>(records, id) {
            let p = position::<E>(records, id);
            assert(after[p] == records[p]);
            assert forall|j: int| 0 <= j < p implies E::key(#[trigger] after[j]) != id by {
                assert(after[j] == records[j]);
            }
            lemma_position_at::<E>(after, id, p);
        }
    }
    assert(index_of::<E>(after) =~= index_of::<E>(records));
}

/// Looks a record up through the index of the records.
pub fn find_by_index<E: Entity>(index: &Index, records: &Vec<E>, id: u128) -> (r: Option<usize>)
    requires
        index@ == index_of::<E>(views(records@)),
    ensures
        match r {
            Some(i) => i == position::<E>(views(records@), id) && i < records.len() && E::key(
                records@[i as int]@,
            ) == id,
            None => position::<E>(views(records@), id) == records.len() && !has_key::<E>(
                views(records@),
                id,
            ),
        },
{
    let n = records.len();
    proof {
        let all = views(records@);
        assert(all.len() == n);
        lemma_position::<E>(all, id);
        let p = position::<E>(all, id);
        assert(index@.contains_key(id) == has_key::<E>(all, id));
        if has_key::<E>(all, id) {
            assert(index@[id] == p as usize);
            assert(all[p] == records@[p]@);
        }
    }
    index.find(id)
}

} // verus!
