//! Maps and sets keyed by 24-byte identifiers.

use crate::data::Id;
use std::collections::HashMap;
use vstd::prelude::*;

verus! {

/// A finite map from identifiers to values.
///
/// Entries are kept in hash maps of the standard library, keyed first by the
/// leading sixteen bytes of the identifier and then by the last eight.
pub struct IdMap<V> {
    slots: HashMap<u128, HashMap<u64, V>>,
}

impl<V> View for IdMap<V> {
    type V = Map<Id, V>;

    closed spec fn view(&self) -> Map<Id, V> {
        Map::new(
            |id: Id|
                self.slots@.contains_key(id.head) && self.slots@[id.head]@.contains_key(id.tail),
            |id: Id| self.slots@[id.head]@[id.tail],
        )
    }
}

impl<V> IdMap<V> {
    /// The empty map.
    pub fn new() -> (map: Self)
        ensures
            map@ == Map::<Id, V>::empty(),
    {
        let map = IdMap { slots: HashMap::new() };
        proof {
            assert(map@ =~= Map::<Id, V>::empty());
        }
        map
    }

    /// Whether `id` has an entry.
    pub fn contains_key(&self, id: &Id) -> (found: bool)
        ensures
            found == self@.contains_key(*id),
    {
        match self.slots.get(&id.head) {
            Some(inner) => inner.contains_key(&id.tail),
            None => false,
        }
    }

    /// The value stored for `id`, if any.
    pub fn get(&self, id: &Id) -> (value: Option<&V>)
        ensures
            match value {
                Some(v) => self@.contains_key(*id) && *v == self@[*id],
                None => !self@.contains_key(*id),
            },
    {
        match self.slots.get(&id.head) {
            Some(inner) => inner.get(&id.tail),
            None => None,
        }
    }

    /// Stores `value` for `id`, replacing what was stored before.
    pub fn insert(&mut self, id: Id, value: V)
        ensures
            final(self)@ == old(self)@.insert(id, value),
    {
        let mut inner = match self.slots.remove(&id.head) {
            Some(inner) => inner,
            None => HashMap::new(),
        };
        inner.insert(id.tail, value);
        self.slots.insert(id.head, inner);
        proof {
            assert(final(self)@ =~= old(self)@.insert(id, value));
        }
    }

    /// Removes the entry of `id` and returns its value, if it had one.
    pub fn remove(&mut self, id: &Id) -> (value: Option<V>)
        ensures
            final(self)@ == old(self)@.remove(*id),
            match value {
                Some(v) => old(self)@.contains_key(*id) && v == old(self)@[*id],
                None => !old(self)@.contains_key(*id),
            },
    {
        match self.slots.remove(&id.head) {
            Some(inner) => {
                let mut inner = inner;
                let value = inner.remove(&id.tail);
                self.slots.insert(id.head, inner);
                proof {
                    assert(final(self)@ =~= old(self)@.remove(*id));
                }
                value
            },
            None => {
                proof {
                    assert(final(self)@ =~= old(self)@.remove(*id));
                }
                None
            },
        }
    }
}

/// A finite set of identifiers.
pub struct IdSet {
    members: IdMap<()>,
}

impl View for IdSet {
    type V = Set<Id>;

    closed spec fn view(&self) -> Set<Id> {
        self.members@.dom()
    }
}

impl IdSet {
    /// The empty set.
    pub fn new() -> (set: Self)
        ensures
            set@ == Set::<Id>::empty(),
    {
        let set = IdSet { members: IdMap::new() };
        proof {
            assert(set@ =~= Set::<Id>::empty());
        }
        set
    }

    /// Whether `id` is a member.
    pub fn contains(&self, id: &Id) -> (found: bool)
        ensures
            found == self@.contains(*id),
    {
        self.members.contains_key(id)
    }

    /// Adds `id`; returns whether it was new.
    pub fn insert(&mut self, id: Id) -> (added: bool)
        ensures
            final(self)@ == old(self)@.insert(id),
            added == !old(self)@.contains(id),
    {
        let added = !self.members.contains_key(&id);
        self.members.insert(id, ());
        proof {
            assert(final(self)@ =~= old(self)@.insert(id));
        }
        added
    }
}

/// A finite set of identifiers that remembers the order in which its
/// members came, so that they can be counted and gone through.
pub struct IdList {
    seen: IdSet,
    order: Vec<Id>,
}

impl View for IdList {
    type V = Set<Id>;

    closed spec fn view(&self) -> Set<Id> {
        self.seen@
    }
}

impl IdList {
    /// Whether the members are listed each once.
    pub closed spec fn wf(&self) -> bool {
        &&& self.order@.no_duplicates()
        &&& self.order@.to_set() == self.seen@
    }

    /// The members, in the order in which they came.
    pub closed spec fn order(&self) -> Seq<Id> {
        self.order@
    }

    /// The members are what is listed.
    pub proof fn lemma_order(&self)
        requires
            self.wf(),
        ensures
            self.order().no_duplicates(),
            self.order().to_set() == self@,
            self@.finite(),
            self@.len() == self.order().len(),
    {
        self.order@.unique_seq_to_set();
    }

    /// The empty set.
    pub fn new() -> (list: Self)
        ensures
            list.wf(),
            list@ == Set::<Id>::empty(),
            list.order() == Seq::<Id>::empty(),
    {
        let list = IdList { seen: IdSet::new(), order: Vec::new() };
        proof {
            assert(list.order@.to_set() =~= Set::<Id>::empty());
        }
        list
    }

    /// Whether `id` is a member.
    pub fn contains(&self, id: &Id) -> (found: bool)
        ensures
            found == self@.contains(*id),
    {
        self.seen.contains(id)
    }

    /// Adds `id`; returns whether it was new.
    pub fn insert(&mut self, id: Id) -> (added: bool)
        requires
            old(self).wf(),
        ensures
            final(self).wf(),
            final(self)@ == old(self)@.insert(id),
            added == !old(self)@.contains(id),
            final(self).order() == if added {
                old(self).order().push(id)
            } else {
                old(self).order()
            },
    {
        let ghost before = self.order@;
        let added = self.seen.insert(id);
        if added {
            self.order.push(id);
            proof {
                assert forall|other: Id| self.order@.to_set().contains(other)
                    <==> self.seen@.contains(other) by {
                    if before.contains(other) {
                        let k = choose|k: int| 0 <= k < before.len() && before[k] == other;
                        assert(self.order@[k] == other);
                    }
                    if self.order@.contains(other) {
                        let k = choose|k: int| 0 <= k < self.order@.len() && self.order@[k] == other;
                        if k < before.len() {
                            assert(before[k] == other);
                            assert(before.to_set().contains(other));
                        }
                    }
                    assert(self.order@[before.len() as int] == id);
                }
                assert(self.order@.to_set() =~= self.seen@);
                assert forall|i: int, j: int|
                    0 <= i < self.order@.len() && 0 <= j < self.order@.len() && i
                        != j implies self.order@[i] != self.order@[j] by {
                    if i < before.len() && j < before.len() {
                        assert(before[i] != before[j]);
                    } else if i < before.len() {
                        assert(before.contains(before[i]));
                        assert(before.to_set().contains(before[i]));
                    } else {
                        assert(before.contains(before[j]));
                        assert(before.to_set().contains(before[j]));
                    }
                }
            }
        } else {
            proof {
                assert(self.seen@ =~= old(self).seen@);
            }
        }
        added
    }

    /// The members, each once, in the order in which they came.
    pub fn ids(&self) -> (ids: &Vec<Id>)
        ensures
            ids@ == self.order(),
    {
        &self.order
    }

    /// The members as a set.
    pub fn as_set(&self) -> (set: &IdSet)
        ensures
            set@ == self@,
    {
        &self.seen
    }

    /// The number of members.
    pub fn len(&self) -> (count: usize)
        ensures
            count == self.order().len(),
    {
        self.order.len()
    }
}

/// A finite set of pairs of identifiers.
pub struct PairSet {
    rows: IdMap<IdSet>,
}

impl View for PairSet {
    type V = Set<(Id, Id)>;

    closed spec fn view(&self) -> Set<(Id, Id)> {
        Set::new(
            |pair: (Id, Id)|
                self.rows@.contains_key(pair.0) && self.rows@[pair.0]@.contains(pair.1),
        )
    }
}

impl PairSet {
    /// The empty set.
    pub fn new() -> (set: Self)
        ensures
            set@ == Set::<(Id, Id)>::empty(),
    {
        let set = PairSet { rows: IdMap::new() };
        proof {
            assert(set@ =~= Set::<(Id, Id)>::empty());
        }
        set
    }

    /// Whether the pair of `first` and `second` is a member.
    pub fn contains(&self, first: &Id, second: &Id) -> (found: bool)
        ensures
            found == self@.contains((*first, *second)),
    {
        match self.rows.get(first) {
            Some(row) => row.contains(second),
            None => false,
        }
    }

    /// Adds the pair of `first` and `second`.
    pub fn insert(&mut self, first: Id, second: Id)
        ensures
            final(self)@ == old(self)@.insert((first, second)),
    {
        let mut row = match self.rows.remove(&first) {
            Some(row) => row,
            None => IdSet::new(),
        };
        row.insert(second);
        self.rows.insert(first, row);
        proof {
            assert(final(self)@ =~= old(self)@.insert((first, second)));
        }
    }
}

} // verus!
