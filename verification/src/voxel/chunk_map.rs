use vstd::prelude::*;

use crate::math::IVec2;

verus! {

/// No key occurs twice.
pub open spec fn keys_unique<V>(entries: Seq<(IVec2, V)>) -> bool {
    forall|i: int, j: int|
        0 <= i < j < entries.len() ==> (#[trigger] entries[i]).0 != (#[trigger] entries[j]).0
}

/// The map that an association list denotes (later entries win).
pub open spec fn entries_map<V>(entries: Seq<(IVec2, V)>) -> Map<IVec2, V>
    decreases entries.len(),
{
    if entries.len() == 0 {
        Map::empty()
    } else {
        entries_map(entries.drop_last()).insert(entries.last().0, entries.last().1)
    }
}

/// The keys of an association list, in order.
pub open spec fn entry_keys<V>(entries: Seq<(IVec2, V)>) -> Seq<IVec2> {
    entries.map_values(|e: (IVec2, V)| e.0)
}

proof fn lemma_entries_map<V>(entries: Seq<(IVec2, V)>)
    requires
        keys_unique(entries),
    ensures
        entries_map(entries).dom().finite(),
        entries_map(entries).dom().len() == entries.len(),
        forall|k: IVec2|
            #[trigger] entries_map(entries).dom().contains(k) <==> exists|i: int|
                0 <= i < entries.len() && (#[trigger] entries[i]).0 == k,
        forall|i: int|
            0 <= i < entries.len() ==> #[trigger] entries_map(entries)[entries[i].0]
                == entries[i].1,
    decreases entries.len(),
{
    if entries.len() > 0 {
        let rest = entries.drop_last();
        assert forall|i: int, j: int| 0 <= i < j < rest.len() implies (#[trigger] rest[i]).0 != (
        #[trigger] rest[j]).0 by {
            assert(rest[i] == entries[i]);
            assert(rest[j] == entries[j]);
        }
        lemma_entries_map(rest);
        let last = entries.last();
        assert(!entries_map(rest).dom().contains(last.0)) by {
            if entries_map(rest).dom().contains(last.0) {
                let i = choose|i: int| 0 <= i < rest.len() && (#[trigger] rest[i]).0 == last.0;
                assert(entries[i] == rest[i]);
                assert(entries[entries.len() - 1] == last);
            }
        }
        assert forall|k: IVec2| #[trigger] entries_map(entries).dom().contains(k) <==> exists|i: int|
            0 <= i < entries.len() && (#[trigger] entries[i]).0 == k by {
            if entries_map(entries).dom().contains(k) {
                if k == last.0 {
                    assert(entries[entries.len() - 1].0 == k);
                } else {
                    let i = choose|i: int| 0 <= i < rest.len() && (#[trigger] rest[i]).0 == k;
                    assert(entries[i] == rest[i]);
                }
            }
            if exists|i: int| 0 <= i < entries.len() && (#[trigger] entries[i]).0 == k {
                let i = choose|i: int| 0 <= i < entries.len() && (#[trigger] entries[i]).0 == k;
                if i < entries.len() - 1 {
                    assert(rest[i] == entries[i]);
                }
            }
        }
        assert forall|i: int| 0 <= i < entries.len() implies #[trigger] entries_map(entries)[entries[i].0]
            == entries[i].1 by {
            if i < entries.len() - 1 {
                assert(rest[i] == entries[i]);
                assert(entries[i].0 != last.0);
            }
        }
    }
}

proof fn lemma_unique_update<V>(entries: Seq<(IVec2, V)>, i: int, value: V)
    requires
        keys_unique(entries),
        0 <= i < entries.len(),
    ensures
        keys_unique(entries.update(i, (entries[i].0, value))),
        entries_map(entries.update(i, (entries[i].0, value))) == entries_map(entries).insert(
            entries[i].0,
            value,
        ),
        entry_keys(entries.update(i, (entries[i].0, value))) == entry_keys(entries),
{
    let updated = entries.update(i, (entries[i].0, value));
    assert forall|a: int, b: int| 0 <= a < b < updated.len() implies (#[trigger] updated[a]).0 != (
    #[trigger] updated[b]).0 by {
        assert(updated[a].0 == entries[a].0);
        assert(updated[b].0 == entries[b].0);
    }
    lemma_entries_map(entries);
    lemma_entries_map(updated);
    let m = entries_map(entries).insert(entries[i].0, value);
    assert forall|k: IVec2| #[trigger] entries_map(updated).dom().contains(k) <==> m.dom().contains(
        k,
    ) by {
        if m.dom().contains(k) && k != entries[i].0 {
            let j = choose|j: int| 0 <= j < entries.len() && (#[trigger] entries[j]).0 == k;
            assert(updated[j].0 == k);
        }
        if entries_map(updated).dom().contains(k) {
            let j = choose|j: int| 0 <= j < updated.len() && (#[trigger] updated[j]).0 == k;
            assert(entries[j].0 == k);
        }
        if k == entries[i].0 {
            assert(updated[i].0 == k);
        }
    }
    assert forall|k: IVec2| #[trigger] entries_map(updated).dom().contains(k) implies entries_map(
        updated,
    )[k] == m[k] by {
        let j = choose|j: int| 0 <= j < updated.len() && (#[trigger] updated[j]).0 == k;
        assert(entries_map(updated)[updated[j].0] == updated[j].1);
        if j != i {
            assert(updated[j] == entries[j]);
        }
    }
    assert(entries_map(updated) =~= m);
    assert(entry_keys(updated) =~= entry_keys(entries));
}

proof fn lemma_unique_remove<V>(entries: Seq<(IVec2, V)>, i: int)
    requires
        keys_unique(entries),
        0 <= i < entries.len(),
    ensures
        keys_unique(entries.remove(i)),
        entries_map(entries.remove(i)) == entries_map(entries).remove(entries[i].0),
        entry_keys(entries.remove(i)) == entry_keys(entries).remove(i),
{
    let removed = entries.remove(i);
    assert forall|a: int, b: int| 0 <= a < b < removed.len() implies (#[trigger] removed[a]).0
        != (#[trigger] removed[b]).0 by {
        let a0 = if a < i {
            a
        } else {
            a + 1
        };
        let b0 = if b < i {
            b
        } else {
            b + 1
        };
        assert(removed[a] == entries[a0]);
        assert(removed[b] == entries[b0]);
    }
    lemma_entries_map(entries);
    lemma_entries_map(removed);
    let m = entries_map(entries).remove(entries[i].0);
    assert forall|k: IVec2| #[trigger] entries_map(removed).dom().contains(k) <==> m.dom().contains(
        k,
    ) by {
        if m.dom().contains(k) {
            let j = choose|j: int| 0 <= j < entries.len() && (#[trigger] entries[j]).0 == k;
            assert(j != i);
            if j < i {
                assert(removed[j] == entries[j]);
            } else {
                assert(removed[j - 1] == entries[j]);
            }
        }
        if entries_map(removed).dom().contains(k) {
            let j = choose|j: int| 0 <= j < removed.len() && (#[trigger] removed[j]).0 == k;
            if j < i {
                assert(removed[j] == entries[j]);
            } else {
                assert(removed[j] == entries[j + 1]);
            }
        }
    }
    assert forall|k: IVec2| #[trigger] entries_map(removed).dom().contains(k) implies entries_map(
        removed,
    )[k] == m[k] by {
        let j = choose|j: int| 0 <= j < removed.len() && (#[trigger] removed[j]).0 == k;
        assert(entries_map(removed)[removed[j].0] == removed[j].1);
        if j < i {
            assert(removed[j] == entries[j]);
        } else {
            assert(removed[j] == entries[j + 1]);
        }
    }
    assert(entries_map(removed) =~= m);
    assert(entry_keys(removed) =~= entry_keys(entries).remove(i));
}

proof fn lemma_unique_push<V>(entries: Seq<(IVec2, V)>, key: IVec2, value: V)
    requires
        keys_unique(entries),
        !entries_map(entries).dom().contains(key),
    ensures
        keys_unique(entries.push((key, value))),
        entries_map(entries.push((key, value))) == entries_map(entries).insert(key, value),
        entry_keys(entries.push((key, value))) == entry_keys(entries).push(key),
{
    lemma_entries_map(entries);
    let pushed = entries.push((key, value));
    assert forall|a: int, b: int| 0 <= a < b < pushed.len() implies (#[trigger] pushed[a]).0 != (
    #[trigger] pushed[b]).0 by {
        assert(pushed[a] == entries[a]);
        if b < entries.len() {
            assert(pushed[b] == entries[b]);
        } else {
            assert(entries_map(entries).dom().contains(entries[a].0));
        }
    }
    assert(pushed.drop_last() =~= entries);
    assert(entry_keys(pushed) =~= entry_keys(entries).push(key));
}

/// A map keyed by chunk (or region) coordinates, kept as a list of entries in
/// insertion order, each key once.
pub struct ChunkMap<V> {
    entries: Vec<(IVec2, V)>,
}

impl<V> ChunkMap<V> {
    #[verifier::type_invariant]
    spec fn unique(self) -> bool {
        keys_unique(self.entries@)
    }

    /// The map's contents.
    pub closed spec fn view(&self) -> Map<IVec2, V> {
        entries_map(self.entries@)
    }

    /// The keys in iteration order.
    pub closed spec fn key_order(&self) -> Seq<IVec2> {
        entry_keys(self.entries@)
    }

    pub fn new() -> (map: Self)
        ensures
            map@ == Map::<IVec2, V>::empty(),
            map.key_order() == Seq::<IVec2>::empty(),
    {
        let map = ChunkMap { entries: Vec::new() };
        assert(map@ =~= Map::<IVec2, V>::empty());
        assert(map.key_order() =~= Seq::<IVec2>::empty());
        map
    }

    fn find(&self, key: IVec2) -> (index: Option<usize>)
        ensures
            match index {
                Some(i) => i < self.entries@.len() && self.entries@[i as int].0 == key,
                None => !self@.dom().contains(key),
            },
    {
        proof {
            use_type_invariant(self);
            lemma_entries_map(self.entries@);
        }
        let mut i: usize = 0;
        while i < self.entries.len()
            invariant
                0 <= i <= self.entries@.len(),
                forall|j: int| 0 <= j < i ==> (#[trigger] self.entries@[j]).0 != key,
            decreases self.entries@.len() - i,
        {
            if self.entries[i].0 == key {
                return Some(i);
            }
            i = i + 1;
        }
        None
    }

    /// Number of keys.
    pub fn len(&self) -> (n: usize)
        ensures
            n == self@.dom().len(),
            n == self.key_order().len(),
    {
        proof {
            use_type_invariant(self);
            lemma_entries_map(self.entries@);
        }
        self.entries.len()
    }

    pub fn is_empty(&self) -> (empty: bool)
        ensures
            empty == (self@.dom().len() == 0),
            empty == (self@ == Map::<IVec2, V>::empty()),
    {
        proof {
            use_type_invariant(self);
            lemma_entries_map(self.entries@);
            if self.entries@.len() == 0 {
                assert(self@ =~= Map::<IVec2, V>::empty());
            } else {
                assert(self@.dom().contains(self.entries@[0].0));
            }
        }
        self.entries.len() == 0
    }

    pub fn contains_key(&self, key: IVec2) -> (found: bool)
        ensures
            found == self@.dom().contains(key),
    {
        proof {
            use_type_invariant(self);
            lemma_entries_map(self.entries@);
        }
        self.find(key).is_some()
    }

    /// The value stored under a key.
    pub fn get(&self, key: IVec2) -> (value: Option<&V>)
        ensures
            match value {
                Some(v) => self@.dom().contains(key) && *v == self@[key],
                None => !self@.dom().contains(key),
            },
    {
        proof {
            use_type_invariant(self);
            lemma_entries_map(self.entries@);
        }
        match self.find(key) {
            Some(i) => Some(&self.entries[i].1),
            None => None,
        }
    }

    /// Stores a value; returns the value it replaces. A new key goes last in
    /// iteration order, a replaced key keeps its place.
    pub fn insert(&mut self, key: IVec2, value: V) -> (previous: Option<V>)
        ensures
            final(self)@ == old(self)@.insert(key, value),
            previous == if old(self)@.dom().contains(key) {
                Some(old(self)@[key])
            } else {
                None
            },
            final(self).key_order() == if old(self)@.dom().contains(key) {
                old(self).key_order()
            } else {
                old(self).key_order().push(key)
            },
    {
        proof {
            use_type_invariant(&*self);
            lemma_entries_map(self.entries@);
        }
        match self.find(key) {
            Some(i) => {
                proof {
                    lemma_unique_update(self.entries@, i as int, value);
                    assert(self.entries@.remove(i as int).insert(i as int, (key, value))
                        =~= self.entries@.update(i as int, (key, value)));
                }
                let mut entries: Vec<(IVec2, V)> = Vec::new();
                std::mem::swap(&mut entries, &mut self.entries);
                let (_, old_value) = entries.remove(i);
                entries.insert(i, (key, value));
                self.entries = entries;
                Some(old_value)
            },
            None => {
                proof {
                    lemma_unique_push(self.entries@, key, value);
                }
                let mut entries: Vec<(IVec2, V)> = Vec::new();
                std::mem::swap(&mut entries, &mut self.entries);
                entries.push((key, value));
                self.entries = entries;
                None
            },
        }
    }

    /// Removes a key; returns its value. Other keys keep their order.
    pub fn remove(&mut self, key: IVec2) -> (removed: Option<V>)
        ensures
            final(self)@ == old(self)@.remove(key),
            removed == if old(self)@.dom().contains(key) {
                Some(old(self)@[key])
            } else {
                None
            },
            !old(self)@.dom().contains(key) ==> final(self).key_order() == old(self).key_order(),
    {
        proof {
            use_type_invariant(&*self);
            lemma_entries_map(self.entries@);
        }
        match self.find(key) {
            Some(i) => {
                proof {
                    lemma_unique_remove(self.entries@, i as int);
                }
                let mut entries: Vec<(IVec2, V)> = Vec::new();
                std::mem::swap(&mut entries, &mut self.entries);
                let (_, value) = entries.remove(i);
                self.entries = entries;
                Some(value)
            },
            None => {
                proof {
                    assert(self@ =~= self@.remove(key));
                }
                None
            },
        }
    }

    /// The keys in iteration order.
    pub fn keys(&self) -> (keys: Vec<IVec2>)
        ensures
            keys@ == self.key_order(),
            keys@.no_duplicates(),
            self@.dom().finite(),
            self@.dom().len() == keys@.len(),
            forall|k: IVec2| self@.dom().contains(k) <==> keys@.contains(k),
    {
        proof {
            use_type_invariant(self);
            lemma_entries_map(self.entries@);
        }
        let mut keys: Vec<IVec2> = Vec::new();
        let mut i: usize = 0;
        while i < self.entries.len()
            invariant
                0 <= i <= self.entries@.len(),
                keys@ == entry_keys(self.entries@).take(i as int),
            decreases self.entries@.len() - i,
        {
            keys.push(self.entries[i].0);
            i = i + 1;
            assert(keys@ =~= entry_keys(self.entries@).take(i as int));
        }
        assert(keys@ =~= entry_keys(self.entries@));
        proof {
            assert forall|a: int, b: int| 0 <= a < keys@.len() && 0 <= b < keys@.len() && a != b implies keys@[a] != keys@[b] by {
                if a < b {
                    assert(self.entries@[a].0 != self.entries@[b].0);
                } else {
                    assert(self.entries@[b].0 != self.entries@[a].0);
                }
            }
            assert forall|k: IVec2| self@.dom().contains(k) <==> keys@.contains(k) by {
                if self@.dom().contains(k) {
                    let i = choose|i: int| 0 <= i < self.entries@.len() && (#[trigger] self.entries@[i]).0 == k;
                    assert(keys@[i] == k);
                }
                if keys@.contains(k) {
                    let i = choose|i: int| 0 <= i < keys@.len() && keys@[i] == k;
                    assert(self.entries@[i].0 == k);
                }
            }
        }
        keys
    }

    /// Removes every key.
    pub fn clear(&mut self)
        ensures
            final(self)@ == Map::<IVec2, V>::empty(),
            final(self).key_order() == Seq::<IVec2>::empty(),
    {
        self.entries = Vec::new();
        assert(self@ =~= Map::<IVec2, V>::empty());
        assert(self.key_order() =~= Seq::<IVec2>::empty());
    }
}

} // verus!
