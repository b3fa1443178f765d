//! Tables keyed by object identity.
//!
//! A table holds its entries in ascending order of identity, so that walking
//! it is reproducible: the order depends on the identities alone, never on
//! the order in which they were inserted.

use crate::object::ObjectId;
use vstd::prelude::*;

verus! {

/// The order of identities: by object number, then by generation.
pub open spec fn id_less(a: ObjectId, b: ObjectId) -> bool {
    a.0 < b.0 || (a.0 == b.0 && a.1 < b.1)
}

/// Whether `a` comes before `b` in the order of identities.
pub fn id_before(a: ObjectId, b: ObjectId) -> (before: bool)
    ensures
        before == id_less(a, b),
{
    a.0 < b.0 || (a.0 == b.0 && a.1 < b.1)
}

/// Whether `a` and `b` are the same identity.
pub fn same_id(a: ObjectId, b: ObjectId) -> (same: bool)
    ensures
        same == (a == b),
{
    a.0 == b.0 && a.1 == b.1
}

/// Each identity comes before all that follow it.
pub open spec fn ascending(ids: Seq<ObjectId>) -> bool {
    forall|i: int, j: int| 0 <= i < j < ids.len() ==> id_less(#[trigger] ids[i], #[trigger] ids[j])
}

/// How many members of `ids` come before `id`.
pub open spec fn rank(ids: Set<ObjectId>, id: ObjectId) -> nat {
    ids.filter(|other: ObjectId| id_less(other, id)).len()
}

/// In an ascending sequence nothing occurs twice, and each identity is found
/// at its own position.
pub proof fn lemma_ascending_positions(ids: Seq<ObjectId>)
    requires
        ascending(ids),
    ensures
        ids.no_duplicates(),
        ids.to_set().finite(),
        ids.to_set().len() == ids.len(),
        forall|i: int| 0 <= i < ids.len() ==> ids.index_of(#[trigger] ids[i]) == i,
{
    assert forall|i: int, j: int| 0 <= i < ids.len() && 0 <= j < ids.len() && i != j implies ids[i]
        != ids[j] by {
        if i < j {
            assert(id_less(ids[i], ids[j]));
        } else {
            assert(id_less(ids[j], ids[i]));
        }
    }
    ids.unique_seq_to_set();
    vstd::seq_lib::seq_to_set_is_finite(ids);
    assert forall|i: int| 0 <= i < ids.len() implies ids.index_of(#[trigger] ids[i]) == i by {
        let k = ids.index_of(ids[i]);
        assert(0 <= k < ids.len() && ids[k] == ids[i]);
    }
}

/// In an ascending sequence, the rank of an identity among all of them is
/// its position.
pub proof fn lemma_rank_is_position(ids: Seq<ObjectId>, i: int)
    requires
        ascending(ids),
        0 <= i < ids.len(),
    ensures
        rank(ids.to_set(), ids[i]) == i,
{
    let before = ids.to_set().filter(|other: ObjectId| id_less(other, ids[i]));
    let head = ids.subrange(0, i);
    assert(ascending(head));
    lemma_ascending_positions(head);
    assert(before =~= head.to_set()) by {
        assert forall|x: ObjectId| before.contains(x) implies head.to_set().contains(x) by {
            let k = choose|k: int| 0 <= k < ids.len() && ids[k] == x;
            if k >= i {
                if k > i {
                    assert(id_less(ids[i], ids[k]));
                }
                assert(false);
            }
            assert(head[k] == x);
        }
        assert forall|x: ObjectId| head.to_set().contains(x) implies before.contains(x) by {
            let k = choose|k: int| 0 <= k < head.len() && head[k] == x;
            assert(ids[k] == x);
            assert(id_less(ids[k], ids[i]));
        }
    }
}

/// A table from identities to values of type `V`.
#[derive(Debug, PartialEq, Eq)]
pub struct IdTable<V> {
    entries: Vec<(ObjectId, V)>,
}

impl<V> IdTable<V> {
    #[verifier::type_invariant]
    spec fn well_formed(&self) -> bool {
        forall|i: int, j: int|
            0 <= i < j < self.entries@.len() ==> id_less(
                (#[trigger] self.entries@[i]).0,
                (#[trigger] self.entries@[j]).0,
            )
    }

    /// The identities of the table, in ascending order.
    pub closed spec fn keys(&self) -> Seq<ObjectId> {
        Seq::new(self.entries@.len(), |i: int| self.entries@[i].0)
    }

    /// The position at which `id` stands or would have to stand: that of the
    /// first identity that does not come before `id`.
    fn position(&self, id: ObjectId) -> (at: usize)
        ensures
            at <= self.keys().len(),
            forall|j: int| 0 <= j < at ==> id_less(#[trigger] self.keys()[j], id),
            forall|j: int| at <= j < self.keys().len() ==> !id_less(#[trigger] self.keys()[j], id),
    {
        proof {
            use_type_invariant(self);
        }
        let mut lo: usize = 0;
        let mut hi: usize = self.entries.len();
        while lo < hi
            invariant
                lo <= hi <= self.entries@.len(),
                self.keys().len() == self.entries@.len(),
                ascending(self.keys()),
                forall|j: int| 0 <= j < lo ==> id_less(#[trigger] self.keys()[j], id),
                forall|j: int| hi <= j < self.keys().len() ==> !id_less(#[trigger] self.keys()[j], id),
            decreases hi - lo,
        {
            let mid = lo + (hi - lo) / 2;
            if id_before(self.entries[mid].0, id) {
                assert forall|j: int| 0 <= j < mid + 1 implies id_less(
                    #[trigger] self.keys()[j],
                    id,
                ) by {
                    if j < mid {
                        assert(id_less(self.keys()[j], self.keys()[mid as int]));
                    }
                }
                lo = mid + 1;
            } else {
                assert forall|j: int| mid <= j < self.keys().len() implies !id_less(
                    #[trigger] self.keys()[j],
                    id,
                ) by {
                    if mid < j {
                        assert(id_less(self.keys()[mid as int], self.keys()[j]));
                    }
                }
                hi = mid;
            }
        }
        lo
    }
}

impl<V: View> IdTable<V> {
    /// The values of the table, each at the position of its identity.
    pub closed spec fn values(&self) -> Seq<V::V> {
        Seq::new(self.entries@.len(), |i: int| self.entries@[i].1@)
    }

    /// What holds of every table: one value for each identity, and the
    /// identities in ascending order.
    pub open spec fn ordered(&self) -> bool {
        &&& self.values().len() == self.keys().len()
        &&& ascending(self.keys())
    }

    /// An empty table.
    pub fn new() -> (table: Self)
        ensures
            table.keys() == Seq::<ObjectId>::empty(),
            table@ == Map::<ObjectId, V::V>::empty(),
    {
        let table = IdTable { entries: Vec::new() };
        assert(table.keys() =~= Seq::<ObjectId>::empty());
        assert(table@ =~= Map::<ObjectId, V::V>::empty());
        table
    }

    /// The number of entries.
    pub fn len(&self) -> (n: usize)
        ensures
            n == self.keys().len(),
            n == self@.dom().len(),
            self@.dom().finite(),
            self@.dom() == self.keys().to_set(),
            self.ordered(),
    {
        proof {
            use_type_invariant(self);
            lemma_ascending_positions(self.keys());
            assert(self@.dom() =~= self.keys().to_set());
        }
        self.entries.len()
    }

    /// The identity at position `i`.
    pub fn key_at(&self, i: usize) -> (id: ObjectId)
        requires
            i < self.keys().len(),
        ensures
            id == self.keys()[i as int],
            self@.dom().contains(id),
    {
        self.entries[i].0
    }

    /// The value at position `i`.
    pub fn value_at(&self, i: usize) -> (value: &V)
        requires
            i < self.keys().len(),
        ensures
            value@ == self.values()[i as int],
            value@ == self@[self.keys()[i as int]],
    {
        proof {
            use_type_invariant(self);
            lemma_ascending_positions(self.keys());
        }
        &self.entries[i].1
    }

    /// The value stored for `id`, if any.
    pub fn get(&self, id: ObjectId) -> (found: Option<&V>)
        ensures
            match found {
                Some(value) => self@.dom().contains(id) && self@[id] == value@,
                None => !self@.dom().contains(id),
            },
    {
        proof {
            use_type_invariant(self);
            lemma_ascending_positions(self.keys());
        }
        let at = self.position(id);
        if at < self.entries.len() && same_id(self.entries[at].0, id) {
            assert(self.keys()[at as int] == id);
            Some(&self.entries[at].1)
        } else {
            proof {
                if self.keys().contains(id) {
                    let k = choose|k: int| 0 <= k < self.keys().len() && self.keys()[k] == id;
                    if k > at {
                        assert(id_less(self.keys()[at as int], self.keys()[k]));
                    }
                    assert(false);
                }
            }
            None
        }
    }

    /// Whether a value is stored for `id`.
    pub fn contains(&self, id: ObjectId) -> (present: bool)
        ensures
            present == self@.dom().contains(id),
    {
        self.get(id).is_some()
    }

    /// Stores `value` for `id`, in place of what was stored for it.
    pub fn insert(&mut self, id: ObjectId, value: V)
        ensures
            final(self)@ == old(self)@.insert(id, value@),
    {
        proof {
            use_type_invariant(&*self);
            lemma_ascending_positions(self.keys());
        }
        let at = self.position(id);
        let ghost before = *self;
        let mut entries: Vec<(ObjectId, V)> = Vec::new();
        std::mem::swap(&mut entries, &mut self.entries);
        let ghost raw = entries@;
        if at < entries.len() && same_id(entries[at].0, id) {
            entries.set(at, (id, value));
            assert forall|i: int, j: int| 0 <= i < j < entries@.len() implies id_less(
                (#[trigger] entries@[i]).0,
                (#[trigger] entries@[j]).0,
            ) by {
                assert(id_less(raw[i].0, raw[j].0));
            }
        } else {
            entries.insert(at, (id, value));
            assert forall|i: int, j: int| 0 <= i < j < entries@.len() implies id_less(
                (#[trigger] entries@[i]).0,
                (#[trigger] entries@[j]).0,
            ) by {
                if j < at {
                    assert(id_less(raw[i].0, raw[j].0));
                } else if j == at {
                    assert(id_less(before.keys()[i], id));
                } else if i == at {
                    assert(!id_less(before.keys()[j - 1], id));
                    assert(before.keys()[j - 1] != id) by {
                        if j - 1 > at {
                            assert(!id_less(before.keys()[at as int], id));
                            assert(id_less(raw[at as int].0, raw[j - 1].0));
                        } else {
                            assert(before.keys()[at as int] == raw[at as int].0);
                        }
                    }
                } else if i < at {
                    assert(id_less(raw[i].0, raw[j - 1].0));
                } else {
                    assert(id_less(raw[i - 1].0, raw[j - 1].0));
                }
            }
        }
        self.entries = entries;
        proof {
            lemma_ascending_positions(self.keys());
            let after = self@;
            let wanted = before@.insert(id, value@);
            assert forall|x: ObjectId| after.dom().contains(x) <==> wanted.dom().contains(x) by {
                if after.dom().contains(x) {
                    let k = choose|k: int| 0 <= k < self.keys().len() && self.keys()[k] == x;
                    if x != id {
                        if at < raw.len() && raw[at as int].0 == id {
                            assert(before.keys()[k] == x);
                        } else if k < at {
                            assert(before.keys()[k] == x);
                        } else {
                            assert(before.keys()[k - 1] == x);
                        }
                    }
                }
                if wanted.dom().contains(x) {
                    if x == id {
                        assert(self.keys()[at as int] == x);
                    } else {
                        let k = choose|k: int| 0 <= k < before.keys().len() && before.keys()[k] == x;
                        if at < raw.len() && raw[at as int].0 == id {
                            assert(self.keys()[k] == x);
                        } else if k < at {
                            assert(self.keys()[k] == x);
                        } else {
                            assert(self.keys()[k + 1] == x);
                        }
                    }
                }
            }
            assert forall|x: ObjectId| after.dom().contains(x) implies after[x] == wanted[x] by {
                let k = self.keys().index_of(x);
                assert(0 <= k < self.keys().len() && self.keys()[k] == x);
                if x == id {
                    assert(self.keys()[at as int] == x);
                } else {
                    if at < raw.len() && raw[at as int].0 == id {
                        assert(before.keys()[k] == x);
                    } else if k < at {
                        assert(before.keys()[k] == x);
                    } else {
                        assert(before.keys()[k - 1] == x);
                    }
                }
            }
            assert(after =~= wanted);
        }
    }
}

impl<V: View> View for IdTable<V> {
    type V = Map<ObjectId, V::V>;

    open spec fn view(&self) -> Map<ObjectId, V::V> {
        Map::new(
            |id: ObjectId| self.keys().contains(id),
            |id: ObjectId| self.values()[self.keys().index_of(id)],
        )
    }
}

} // verus!
