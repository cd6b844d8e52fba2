//! A table keyed by strings, kept in insertion order.
//!
//! It stands where a hash map would: every key occurs once, and its view is
//! the map from keys to values. Unlike a hash map it hands its entries out in
//! an order that depends only on the calls that filled it.

use vstd::prelude::*;

verus! {

/// A map from strings to values, stored as two parallel lists.
#[derive(Debug)]
pub struct Table<V> {
    keys: Vec<String>,
    values: Vec<V>,
}

impl<V> View for Table<V> {
    type V = Map<Seq<char>, V>;

    /// The map that the table stands for.
    open spec fn view(&self) -> Map<Seq<char>, V> {
        Map::new(
            |k: Seq<char>| self.keys().contains(k),
            |k: Seq<char>| self.values()[self.keys().index_of(k)],
        )
    }
}

impl<V> Table<V> {
    /// The keys, in the order in which they were first inserted.
    pub closed spec fn keys(&self) -> Seq<Seq<char>> {
        self.keys@.map_values(|k: String| k@)
    }

    /// The values, each at the position of its key.
    pub closed spec fn values(&self) -> Seq<V> {
        self.values@
    }

    /// Every key has one value and occurs once.
    pub open spec fn wf(&self) -> bool {
        &&& self.keys().len() == self.values().len()
        &&& self.keys().no_duplicates()
    }

    /// The entry at a position is the entry of the map under that key.
    pub proof fn lemma_entry(&self, i: int)
        requires
            self.wf(),
            0 <= i < self.keys().len(),
        ensures
            self@.dom().contains(self.keys()[i]),
            self@[self.keys()[i]] == self.values()[i],
    {
        let k = self.keys()[i];
        assert(self.keys().contains(k));
        assert(self.keys().index_of(k) == i);
    }

    /// A key of the map is the key at some position.
    pub proof fn lemma_position(&self, k: Seq<char>) -> (i: int)
        requires
            self.wf(),
            self@.dom().contains(k),
        ensures
            0 <= i < self.keys().len(),
            self.keys()[i] == k,
            self@[k] == self.values()[i],
    {
        self.keys().index_of(k)
    }

    /// The map is finite, with as many keys as the table has entries.
    pub proof fn lemma_dom_len(&self)
        requires
            self.wf(),
        ensures
            self@.dom().finite(),
            self@.dom().len() == self.keys().len(),
    {
        assert(self@.dom() =~= self.keys().to_set());
        self.keys().unique_seq_to_set();
    }

    /// A table has no more entries than a list can hold.
    pub proof fn lemma_len_bound(&self)
        ensures
            self.keys().len() <= usize::MAX,
    {
        assert(self.keys@.len() == self.keys.len());
    }

    /// The empty table.
    pub fn new() -> (table: Self)
        ensures
            table.wf(),
            table.keys() == Seq::<Seq<char>>::empty(),
            table.values() == Seq::<V>::empty(),
            table@ == Map::<Seq<char>, V>::empty(),
    {
        let table = Table { keys: Vec::new(), values: Vec::new() };
        assert(table.keys() =~= Seq::<Seq<char>>::empty());
        assert(table@ =~= Map::<Seq<char>, V>::empty());
        table
    }

    /// The number of entries.
    pub fn len(&self) -> (n: usize)
        requires
            self.wf(),
        ensures
            n == self.keys().len(),
            n == self.values().len(),
    {
        self.values.len()
    }

    /// The key at position `i`.
    pub fn key_at(&self, i: usize) -> (key: &String)
        requires
            self.wf(),
            i < self.keys().len(),
        ensures
            key@ == self.keys()[i as int],
    {
        &self.keys[i]
    }

    /// The value at position `i`.
    pub fn value_at(&self, i: usize) -> (value: &V)
        requires
            self.wf(),
            i < self.keys().len(),
        ensures
            *value == self.values()[i as int],
    {
        &self.values[i]
    }

    /// The position of `key`, if the table holds it.
    pub fn find(&self, key: &str) -> (found: Option<usize>)
        requires
            self.wf(),
        ensures
            match found {
                Some(i) => i < self.keys().len() && self.keys()[i as int] == key@,
                None => !self.keys().contains(key@),
            },
            found is Some == self@.dom().contains(key@),
    {
        let mut i: usize = 0;
        while i < self.keys.len()
            invariant
                i <= self.keys@.len(),
                forall|j: int| 0 <= j < i ==> self.keys()[j] != key@,
            decreases self.keys@.len() - i,
        {
            if str_eq(self.keys[i].as_str(), key) {
                assert(self.keys()[i as int] == key@);
                assert(self.keys().contains(key@));
                return Some(i);
            }
            i += 1;
        }
        None
    }

    /// The value under `key`, if the table holds it.
    pub fn get(&self, key: &str) -> (value: Option<&V>)
        requires
            self.wf(),
        ensures
            value is Some == self@.dom().contains(key@),
            value is Some ==> *value->0 == self@[key@],
    {
        match self.find(key) {
            Some(i) => {
                proof {
                    self.lemma_entry(i as int);
                }
                Some(&self.values[i])
            },
            None => None,
        }
    }

    /// Puts `value` under `key`: in place of the value that was there, or
    /// as a new last entry.
    pub fn insert(&mut self, key: String, value: V)
        requires
            old(self).wf(),
        ensures
            final(self).wf(),
            final(self)@ == old(self)@.insert(key@, value),
            old(self)@.dom().contains(key@) ==> final(self).keys() == old(self).keys()
                && final(self).values() == old(self).values().update(
                old(self).keys().index_of(key@),
                value,
            ),
            !old(self)@.dom().contains(key@) ==> final(self).keys() == old(self).keys().push(key@)
                && final(self).values() == old(self).values().push(value),
    {
        let found = self.find(key.as_str());
        match found {
            Some(i) => {
                proof {
                    assert(old(self).keys().contains(key@));
                    assert(old(self).keys().index_of(key@) == i);
                }
                self.values[i] = value;
                proof {
                    assert(self.keys() == old(self).keys());
                    assert forall|k: Seq<char>| self@.dom().contains(k) implies #[trigger] self@[k]
                        == old(self)@.insert(key@, value)[k] by {
                        let j = self.keys().index_of(k);
                        assert(self.keys()[j] == k);
                    }
                    assert(self@ =~= old(self)@.insert(key@, value));
                }
            },
            None => {
                let ghost n = self.keys().len() as int;
                self.keys.push(key);
                self.values.push(value);
                proof {
                    assert(self.keys() =~= old(self).keys().push(key@));
                    assert(self.keys().no_duplicates());
                    assert(self.keys()[n] == key@);
                    assert forall|k: Seq<char>|
                        self@.dom().contains(k) == old(self)@.insert(key@, value).dom().contains(
                            k,
                        ) by {
                        if old(self).keys().contains(k) {
                            let j = old(self).keys().index_of(k);
                            assert(self.keys()[j] == k);
                        }
                        if self.keys().contains(k) && k != key@ {
                            let j = self.keys().index_of(k);
                            assert(old(self).keys()[j] == k);
                        }
                    }
                    assert forall|k: Seq<char>| self@.dom().contains(k) implies #[trigger] self@[k]
                        == old(self)@.insert(key@, value)[k] by {
                        let j = self.keys().index_of(k);
                        assert(self.keys()[j] == k);
                        if k != key@ {
                            assert(old(self).keys()[j] == k);
                            assert(old(self).keys().contains(k));
                            assert(old(self).keys().index_of(k) == j);
                        }
                    }
                    assert(self@ =~= old(self)@.insert(key@, value));
                }
            },
        }
    }
}

/// Whether two strings hold the same characters.
pub fn str_eq(a: &str, b: &str) -> (same: bool)
    ensures
        same == (a@ == b@),
{
    let a_chars = crate::chars::chars_of(a);
    let b_chars = crate::chars::chars_of(b);
    let n = a_chars.len();
    if n != b_chars.len() {
        return false;
    }
    let mut i: usize = 0;
    while i < n
        invariant
            n == a_chars@.len(),
            n == b_chars@.len(),
            a_chars@ == a@,
            b_chars@ == b@,
            i <= n,
            a_chars@.take(i as int) == b_chars@.take(i as int),
        decreases n - i,
    {
        if a_chars[i] != b_chars[i] {
            assert(a@[i as int] != b@[i as int]);
            return false;
        }
        proof {
            assert(a_chars@.take(i + 1) == a_chars@.take(i as int).push(a_chars@[i as int]));
            assert(b_chars@.take(i + 1) == b_chars@.take(i as int).push(b_chars@[i as int]));
        }
        i += 1;
    }
    proof {
        assert(a_chars@.take(n as int) == a_chars@);
        assert(b_chars@.take(n as int) == b_chars@);
    }
    true
}

} // verus!
