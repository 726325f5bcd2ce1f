//! The state store: per-conversation dialogue state, keyed by conversation
//! identity, with a `Map` view over its records.

use vstd::prelude::*;

use crate::state::DialogueState;
use crate::state::StateView;

verus! {

/// Failure surfaced by the store: the only one its records themselves can
/// produce is a record that does not decode.
#[derive(Debug)]
pub enum StoreError {
    Corrupt,
}

/// The map denoted by a sequence of records; a later record for the same key
/// overrides an earlier one.
pub open spec fn as_map(rs: Seq<(i64, StateView)>) -> Map<i64, StateView>
    decreases rs.len(),
{
    if rs.len() == 0 {
        Map::empty()
    } else {
        as_map(rs.drop_last()).insert(rs.last().0, rs.last().1)
    }
}

/// What `get` returns on a given map: the stored state, or `Start` for an
/// identity with no record.
pub open spec fn spec_get(m: Map<i64, StateView>, id: i64) -> StateView {
    if m.contains_key(id) {
        m[id]
    } else {
        StateView::Start
    }
}

/// An identity with no record is in the default state: `get` returns `Start`.
pub proof fn lemma_unrecorded_get_is_start(m: Map<i64, StateView>, id: i64)
    requires
        !m.contains_key(id),
    ensures
        spec_get(m, id) == StateView::Start,
{
}

/// Round trip: after `set(id, s)` the very next `get(id)` returns `s`, for
/// every state including a payload-bearing one.
pub proof fn lemma_set_then_get(m: Map<i64, StateView>, id: i64, s: StateView)
    ensures
        spec_get(m.insert(id, s), id) == s,
{
}

/// A store of dialogue states, one record per conversation identity.
pub struct StateStore {
    records: Vec<(i64, DialogueState)>,
}

impl View for StateStore {
    type V = Map<i64, StateView>;

    open spec fn view(&self) -> Map<i64, StateView> {
        as_map(self.records_view())
    }
}

proof fn lemma_as_map_contains(rs: Seq<(i64, StateView)>, id: i64)
    ensures
        as_map(rs).contains_key(id) <==> exists|i: int| 0 <= i < rs.len() && rs[i].0 == id,
    decreases rs.len(),
{
    if rs.len() > 0 {
        lemma_as_map_contains(rs.drop_last(), id);
        if as_map(rs).contains_key(id) {
            if rs.last().0 == id {
                assert(rs[rs.len() - 1].0 == id);
            } else {
                let i = choose|i: int| 0 <= i < rs.drop_last().len() && rs.drop_last()[i].0 == id;
                assert(rs[i].0 == id);
            }
        }
        if exists|i: int| 0 <= i < rs.len() && rs[i].0 == id {
            let i = choose|i: int| 0 <= i < rs.len() && rs[i].0 == id;
            if i < rs.len() - 1 {
                assert(rs.drop_last()[i].0 == id);
            }
        }
    }
}

proof fn lemma_as_map_at_index(rs: Seq<(i64, StateView)>, i: int)
    requires
        unique_keys(rs),
        0 <= i < rs.len(),
    ensures
        as_map(rs).contains_key(rs[i].0),
        as_map(rs)[rs[i].0] == rs[i].1,
    decreases rs.len(),
{
    if i == rs.len() - 1 {
    } else {
        assert(forall|j: int, k: int|
            0 <= j < k < rs.drop_last().len() ==> rs.drop_last()[j].0 != rs.drop_last()[k].0);
        lemma_as_map_at_index(rs.drop_last(), i);
        assert(rs[i].0 != rs.last().0);
    }
}

proof fn lemma_as_map_update(rs: Seq<(i64, StateView)>, i: int, s: StateView)
    requires
        unique_keys(rs),
        0 <= i < rs.len(),
    ensures
        as_map(rs.update(i, (rs[i].0, s))) == as_map(rs).insert(rs[i].0, s),
    decreases rs.len(),
{
    let id = rs[i].0;
    let rs2 = rs.update(i, (id, s));
    if i == rs.len() - 1 {
        assert(rs2.drop_last() =~= rs.drop_last());
        assert(as_map(rs2) =~= as_map(rs).insert(id, s));
    } else {
        assert(forall|j: int, k: int|
            0 <= j < k < rs.drop_last().len() ==> rs.drop_last()[j].0 != rs.drop_last()[k].0);
        lemma_as_map_update(rs.drop_last(), i, s);
        assert(rs2.drop_last() =~= rs.drop_last().update(i, (id, s)));
        assert(rs2.last() == rs.last());
        assert(as_map(rs2) == as_map(rs.drop_last()).insert(id, s).insert(rs.last().0, rs.last().1));
        assert(rs[i].0 != rs.last().0);
        assert(as_map(rs2) =~= as_map(rs).insert(id, s));
    }
}

proof fn lemma_as_map_remove_at(rs: Seq<(i64, StateView)>, i: int)
    requires
        unique_keys(rs),
        0 <= i < rs.len(),
    ensures
        as_map(rs.remove(i)) == as_map(rs).remove(rs[i].0),
    decreases rs.len(),
{
    let id = rs[i].0;
    if i == rs.len() - 1 {
        lemma_as_map_contains(rs.drop_last(), id);
        assert(rs.remove(i) =~= rs.drop_last());
        assert(forall|j: int| 0 <= j < rs.drop_last().len() ==> rs.drop_last()[j].0 != id);
        assert(!as_map(rs.drop_last()).contains_key(id));
        assert(as_map(rs.remove(i)) =~= as_map(rs).remove(id));
    } else {
        assert(forall|j: int, k: int|
            0 <= j < k < rs.drop_last().len() ==> rs.drop_last()[j].0 != rs.drop_last()[k].0);
        lemma_as_map_remove_at(rs.drop_last(), i);
        assert(rs.remove(i).drop_last() =~= rs.drop_last().remove(i));
        assert(rs.remove(i).last() == rs.last());
        assert(rs[i].0 != rs.last().0);
        assert(as_map(rs.remove(i)) =~= as_map(rs).remove(id));
    }
}

/// No two records share a conversation identity.
pub open spec fn unique_keys(rs: Seq<(i64, StateView)>) -> bool {
    forall|i: int, j: int| 0 <= i < j < rs.len() ==> rs[i].0 != rs[j].0
}

impl StateStore {
    /// The store's records, in storage order.
    pub closed spec fn records_view(&self) -> Seq<(i64, StateView)> {
        self.records@.map_values(|p: (i64, DialogueState)| (p.0, p.1@))
    }

    /// Well-formed: one identity maps to at most one record.
    pub open spec fn wf(&self) -> bool {
        unique_keys(self.records_view())
    }

    /// An empty store: no conversation has a record yet.
    pub fn new() -> (s: Self)
        ensures
            s.wf(),
            s@ == Map::<i64, StateView>::empty(),
            s.records_view() == Seq::<(i64, StateView)>::empty(),
    {
        let s = StateStore { records: Vec::new() };
        proof {
            assert(s.records_view() =~= Seq::<(i64, StateView)>::empty());
        }
        s
    }

    /// Returns the persisted state for this identity, or `Start` if none
    /// exists. Never fails on a missing key, and leaves the store untouched,
    /// so repeated calls without an intervening `set` return the same value.
    pub fn get(&self, id: i64) -> (r: DialogueState)
        requires
            self.wf(),
        ensures
            r@ == spec_get(self@, id),
    {
        let n = self.records.len();
        let mut i: usize = 0;
        while i < n
            invariant
                self.wf(),
                n == self.records.len(),
                i <= n,
                forall|j: int| 0 <= j < i ==> self.records_view()[j].0 != id,
            decreases n - i,
        {
            if self.records[i].0 == id {
                proof {
                    lemma_as_map_at_index(self.records_view(), i as int);
                }
                return self.records[i].1.clone();
            }
            i += 1;
        }
        proof {
            lemma_as_map_contains(self.records_view(), id);
        }
        DialogueState::Start
    }

    /// How many identities have a record.
    pub(crate) fn record_count(&self) -> (n: usize)
        ensures
            n == self.records_view().len(),
    {
        self.records.len()
    }

    /// The record at one storage position.
    pub(crate) fn record_at(&self, i: usize) -> (p: (i64, DialogueState))
        requires
            i < self.records_view().len(),
        ensures
            p.0 == self.records_view()[i as int].0,
            p.1@ == self.records_view()[i as int].1,
    {
        let r = &self.records[i];
        (r.0, r.1.clone())
    }

    /// Overwrites the record for this identity, leaving records of other
    /// identities untouched. The record set itself cannot fail, so the call
    /// always succeeds; durability across restarts comes from writing the
    /// store's encoded image to a stable medium, which is the caller's side
    /// of the contract.
    pub fn set(&mut self, id: i64, state: DialogueState) -> (r: Result<(), StoreError>)
        requires
            old(self).wf(),
        ensures
            final(self).wf(),
            final(self)@ == old(self)@.insert(id, state@),
            r is Ok,
    {
        let n = self.records.len();
        let mut i: usize = 0;
        while i < n
            invariant
                self.wf(),
                self == old(self),
                n == self.records.len(),
                i <= n,
                forall|j: int| 0 <= j < i ==> self.records_view()[j].0 != id,
            decreases n - i,
        {
            if self.records[i].0 == id {
                proof {
                    lemma_as_map_update(self.records_view(), i as int, state@);
                }
                self.records.set(i, (id, state));
                proof {
                    assert(self.records_view() =~= old(self).records_view().update(
                        i as int,
                        (id, state@),
                    ));
                }
                return Ok(());
            }
            i += 1;
        }
        proof {
            lemma_as_map_contains(self.records_view(), id);
        }
        self.records.push((id, state));
        proof {
            assert(self.records_view() =~= old(self).records_view().push((id, state@)));
            assert(self.records_view().drop_last() =~= old(self).records_view());
        }
        Ok(())
    }

    /// Deletes the record for this identity, so that the next `get` returns
    /// the default state again. Deleting an absent record is a no-op.
    pub fn remove(&mut self, id: i64) -> (r: Result<(), StoreError>)
        requires
            old(self).wf(),
        ensures
            final(self).wf(),
            final(self)@ == old(self)@.remove(id),
            r is Ok,
    {
        let n = self.records.len();
        let mut i: usize = 0;
        while i < n
            invariant
                self.wf(),
                self == old(self),
                n == self.records.len(),
                i <= n,
                forall|j: int| 0 <= j < i ==> self.records_view()[j].0 != id,
            decreases n - i,
        {
            if self.records[i].0 == id {
                proof {
                    lemma_as_map_remove_at(self.records_view(), i as int);
                }
                self.records.remove(i);
                proof {
                    assert(self.records_view() =~= old(self).records_view().remove(i as int));
                }
                return Ok(());
            }
            i += 1;
        }
        proof {
            lemma_as_map_contains(self.records_view(), id);
            assert(!self@.contains_key(id));
            assert(self@ =~= self@.remove(id));
        }
        Ok(())
    }
}

} // verus!
