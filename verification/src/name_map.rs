use vstd::prelude::*;

verus! {

/// A map from names to values that keeps its entries in insertion order.
///
/// Keys are kept distinct: inserting a key that is already present replaces
/// its value in place.
#[derive(Debug, Clone)]
pub struct NameMap<V> {
    keys: Vec<String>,
    vals: Vec<V>,
}

impl<V> NameMap<V> {
    /// The keys, in the order in which they were first inserted.
    pub closed spec fn key_seq(&self) -> Seq<Seq<char>> {
        self.keys@.map_values(|k: String| k@)
    }

    /// The values, aligned with `key_seq`.
    pub closed spec fn val_seq(&self) -> Seq<V> {
        self.vals@
    }

    pub closed spec fn wf(&self) -> bool {
        &&& self.keys@.len() == self.vals@.len()
        &&& self.key_seq().no_duplicates()
    }

    /// The map that the entries describe.
    pub open spec fn view(&self) -> Map<Seq<char>, V> {
        Map::new(
            |k: Seq<char>| self.key_seq().contains(k),
            |k: Seq<char>| self.val_seq()[self.key_seq().index_of(k)],
        )
    }

    pub fn new() -> (m: Self)
        ensures
            m.wf(),
            m.key_seq() == Seq::<Seq<char>>::empty(),
            m@ == Map::<Seq<char>, V>::empty(),
    {
        let m = NameMap { keys: Vec::new(), vals: Vec::new() };
        assert(m@ =~= Map::<Seq<char>, V>::empty());
        m
    }

    /// The position of `key` among the entries, if it is present.
    pub fn position(&self, key: &String) -> (r: Option<usize>)
        requires
            self.wf(),
        ensures
            match r {
                Some(i) => i < self.key_seq().len() && self.key_seq()[i as int] == key@,
                None => !self.key_seq().contains(key@),
            },
    {
        let mut i: usize = 0;
        while i < self.keys.len()
            invariant
                self.wf(),
                i <= self.keys@.len(),
                forall|j: int| 0 <= j < i ==> self.key_seq()[j] != key@,
            decreases self.keys@.len() - i,
        {
            if self.keys[i] == *key {
                return Some(i);
            }
            i += 1;
        }
        None
    }

    /// The number of entries.
    pub fn len(&self) -> (n: usize)
        requires
            self.wf(),
        ensures
            n == self.key_seq().len(),
    {
        self.keys.len()
    }

    /// The key of the entry at position `i`.
    pub fn key_at(&self, i: usize) -> (k: &String)
        requires
            self.wf(),
            i < self.key_seq().len(),
        ensures
            k@ == self.key_seq()[i as int],
    {
        &self.keys[i]
    }

    /// The value of the entry at position `i`.
    pub fn value_at(&self, i: usize) -> (v: &V)
        requires
            self.wf(),
            i < self.key_seq().len(),
        ensures
            *v == self.val_seq()[i as int],
            *v == self@[self.key_seq()[i as int]],
    {
        proof {
            lemma_index_of_distinct(self.key_seq(), i as int);
        }
        &self.vals[i]
    }

    /// A mutable reference to the value of the entry at position `i`.
    pub fn value_at_mut(&mut self, i: usize) -> (v: &mut V)
        requires
            old(self).wf(),
            i < old(self).key_seq().len(),
        ensures
            *v == old(self).val_seq()[i as int],
            *v == old(self)@[old(self).key_seq()[i as int]],
            final(self).key_seq() == old(self).key_seq(),
            final(self).val_seq() == old(self).val_seq().update(i as int, *final(v)),
            final(self).wf(),
    {
        proof {
            lemma_index_of_distinct(self.key_seq(), i as int);
        }
        &mut self.vals[i]
    }

    /// The value stored under `key`, if any.
    pub fn get(&self, key: &String) -> (r: Option<&V>)
        requires
            self.wf(),
        ensures
            match r {
                Some(v) => self@.contains_key(key@) && *v == self@[key@],
                None => !self@.contains_key(key@),
            },
    {
        match self.position(key) {
            Some(i) => Some(self.value_at(i)),
            None => None,
        }
    }

    /// Stores `value` under `key`, replacing the value that was there.
    pub fn insert(&mut self, key: String, value: V)
        requires
            old(self).wf(),
        ensures
            final(self).wf(),
            final(self)@ == old(self)@.insert(key@, value),
            old(self).key_seq().contains(key@) ==> final(self).key_seq() == old(self).key_seq(),
            !old(self).key_seq().contains(key@) ==> final(self).key_seq() == old(self).key_seq().push(key@),
    {
        match self.position(&key) {
            Some(i) => {
                self.vals.set(i, value);
                proof {
                    assert(self.key_seq() == old(self).key_seq());
                    assert forall|k: Seq<char>| #[trigger] self.key_seq().contains(k) implies
                        self.val_seq()[self.key_seq().index_of(k)] == old(self)@.insert(key@, value)[k] by {
                        let j = choose|j: int| 0 <= j < self.key_seq().len() && self.key_seq()[j] == k;
                        lemma_index_of_distinct(self.key_seq(), j);
                        lemma_index_of_distinct(old(self).key_seq(), j);
                    }
                    assert(self@ =~= old(self)@.insert(key@, value));
                }
            },
            None => {
                let ghost old_keys = self.key_seq();
                self.keys.push(key);
                self.vals.push(value);
                proof {
                    assert(self.key_seq() =~= old_keys.push(key@));
                    assert forall|k: Seq<char>| #[trigger] self.key_seq().contains(k) implies
                        self.val_seq()[self.key_seq().index_of(k)] == old(self)@.insert(key@, value)[k] by {
                        let j = choose|j: int| 0 <= j < self.key_seq().len() && self.key_seq()[j] == k;
                        lemma_index_of_distinct(self.key_seq(), j);
                        if j < old_keys.len() {
                            lemma_index_of_distinct(old_keys, j);
                        }
                    }
                    assert forall|k: Seq<char>| #[trigger] self.key_seq().contains(k) <==>
                        old(self)@.insert(key@, value).contains_key(k) by {
                        if k != key@ && self.key_seq().contains(k) {
                            let j = choose|j: int| 0 <= j < self.key_seq().len() && self.key_seq()[j] == k;
                            assert(old_keys[j] == k);
                        }
                        if old_keys.contains(k) {
                            let j = choose|j: int| 0 <= j < old_keys.len() && old_keys[j] == k;
                            assert(self.key_seq()[j] == k);
                        }
                        if k == key@ {
                            assert(self.key_seq()[old_keys.len() as int] == k);
                        }
                    }
                    assert(self@ =~= old(self)@.insert(key@, value));
                }
            },
        }
    }
}

/// A well-formed map holds each key once.
pub proof fn lemma_keys_distinct<V>(m: NameMap<V>)
    requires
        m.wf(),
    ensures
        m.key_seq().no_duplicates(),
        m.key_seq().len() == m.val_seq().len(),
{
}

/// Replacing the value at one position changes the map only at that
/// position's key.
pub proof fn lemma_view_update<V>(before: NameMap<V>, after: NameMap<V>, i: int)
    requires
        before.wf(),
        0 <= i < before.key_seq().len(),
        after.key_seq() == before.key_seq(),
        after.val_seq() == before.val_seq().update(i, after.val_seq()[i]),
    ensures
        after.wf(),
        after@ == before@.insert(before.key_seq()[i], after.val_seq()[i]),
{
    let ks = before.key_seq();
    lemma_index_of_distinct(ks, i);
    assert forall|k: Seq<char>| #[trigger] ks.contains(k) implies after.val_seq()[ks.index_of(k)]
        == before@.insert(ks[i], after.val_seq()[i])[k] by {
        let j = choose|j: int| 0 <= j < ks.len() && ks[j] == k;
        lemma_index_of_distinct(ks, j);
    }
    assert(after@ =~= before@.insert(ks[i], after.val_seq()[i]));
}

/// In a sequence without duplicates, the position of an element is the one
/// at which it stands.
pub proof fn lemma_index_of_distinct<A>(s: Seq<A>, i: int)
    requires
        s.no_duplicates(),
        0 <= i < s.len(),
    ensures
        s.contains(s[i]),
        s.index_of(s[i]) == i,
{
    assert(s.contains(s[i]));
}

} // verus!
