use std::collections::HashMap;
use vstd::prelude::*;
use crate::lang::text::{strs, to_chars};

verus! {

broadcast use vstd::std_specs::hash::group_hash_axioms;

/// A map from strings to values that remembers the order in which its keys
/// came: two parallel vectors, with no key twice, and for each hash value
/// the places of the keys that hash to it.
#[derive(Debug, Clone)]
pub struct Table<V> {
    pub keys: Vec<String>,
    pub vals: Vec<V>,
    pub slots: HashMap<u64, Vec<usize>>,
}

/// The place that a table entry gives.
pub open spec fn place(f: Option<usize>) -> Option<int> {
    match f {
        Some(i) => Some(i as int),
        None => None,
    }
}

/// One step of the hash: the hash so far times 31, plus the character,
/// in 64 bits.
pub open spec fn mix(h: u64, c: char) -> u64 {
    ((h as int * 31 + c as u32 as int) % 0x1_0000_0000_0000_0000) as u64
}

/// The hash of a string.
pub open spec fn hash_of(s: Seq<char>) -> u64
    decreases s.len(),
{
    if s.len() == 0 {
        0
    } else {
        mix(hash_of(s.drop_last()), s.last())
    }
}

/// Computes the hash of a string.
pub fn hash_str(k: &String) -> (h: u64)
    ensures
        h == hash_of(k@),
{
    let v = to_chars(k.as_str());
    let mut h: u64 = 0;
    let mut i: usize = 0;
    assert(v@.take(0) =~= Seq::<char>::empty());
    while i < v.len()
        invariant
            i <= v.len(),
            h == hash_of(v@.take(i as int)),
        decreases v.len() - i,
    {
        assert(v@.take(i + 1).drop_last() =~= v@.take(i as int));
        let wide: u128 = (h as u128) * 31 + (v[i] as u32 as u128);
        h = (wide % 0x1_0000_0000_0000_0000u128) as u64;
        i += 1;
    }
    assert(v@.take(v.len() as int) =~= v@);
    h
}

impl<V> Table<V> {
    /// The keys, in the order in which they were first inserted.
    pub open spec fn key_seq(&self) -> Seq<Seq<char>> {
        strs(self.keys@)
    }

    /// The places recorded for a hash value.
    pub open spec fn bucket(&self, h: u64) -> Seq<usize> {
        if self.slots@.contains_key(h) {
            self.slots@[h]@
        } else {
            Seq::empty()
        }
    }

    pub open spec fn wf(&self) -> bool {
        &&& self.keys.len() == self.vals.len()
        &&& self.key_seq().no_duplicates()
        &&& forall|i: int|
            0 <= i < self.keys.len() ==> self.bucket(hash_of(#[trigger] self.key_seq()[i])).contains(
                i as usize,
            )
        &&& forall|h: u64, j: int|
            0 <= j < self.bucket(h).len() ==> (#[trigger] self.bucket(h)[j]) < self.keys.len()
    }

    pub open spec fn has(&self, k: Seq<char>) -> bool {
        self.key_seq().contains(k)
    }

    pub open spec fn slot(&self, k: Seq<char>) -> int {
        self.key_seq().index_of(k)
    }

    /// The value stored under a key that the table has.
    pub open spec fn value(&self, k: Seq<char>) -> V {
        self.vals@[self.slot(k)]
    }

    /// The value stored under a key, if the table has the key.
    pub open spec fn find(&self, k: Seq<char>) -> Option<V> {
        if self.has(k) {
            Some(self.value(k))
        } else {
            None
        }
    }

    pub fn new() -> (t: Self)
        ensures
            t.wf(),
            t.keys@.len() == 0,
            t.vals@.len() == 0,
            forall|k: Seq<char>| !t.has(k),
    {
        Table { keys: Vec::new(), vals: Vec::new(), slots: HashMap::new() }
    }

    pub fn len(&self) -> (n: usize)
        ensures
            n == self.keys@.len(),
    {
        self.keys.len()
    }

    /// The place of a key among the keys, if the table has it.
    pub fn position(&self, k: &String) -> (r: Option<usize>)
        requires
            self.wf(),
        ensures
            match r {
                Some(i) => self.has(k@) && i == self.slot(k@) && i < self.keys@.len()
                    && self.keys@[i as int]@ == k@,
                None => !self.has(k@),
            },
    {
        let h = hash_str(k);
        match self.slots.get(&h) {
            None => {
                proof {
                    if self.has(k@) {
                        let i = self.key_seq().index_of(k@);
                        assert(self.key_seq()[i] == k@);
                        assert(self.bucket(hash_of(self.key_seq()[i])).contains(i as usize));
                    }
                }
                None
            },
            Some(b) => {
                assert(b@ == self.bucket(h));
                let mut t: usize = 0;
                while t < b.len()
                    invariant
                        self.wf(),
                        t <= b.len(),
                        b@ == self.bucket(h),
                        h == hash_of(k@),
                        forall|u: int| 0 <= u < t ==> self.key_seq()[b@[u] as int] != k@,
                    decreases b.len() - t,
                {
                    let j = b[t];
                    assert(self.bucket(h)[t as int] < self.keys.len());
                    if self.keys[j] == *k {
                        proof {
                            assert(self.key_seq()[j as int] == k@);
                            let i = self.key_seq().index_of(k@);
                            assert(0 <= i < self.key_seq().len() && self.key_seq()[i] == k@);
                        }
                        return Some(j);
                    }
                    t += 1;
                }
                proof {
                    if self.has(k@) {
                        let i = self.key_seq().index_of(k@);
                        assert(self.key_seq()[i] == k@);
                        assert(self.bucket(hash_of(self.key_seq()[i])).contains(i as usize));
                        let u = choose|u: int| 0 <= u < b@.len() && b@[u] == i as usize;
                        assert(self.key_seq()[b@[u] as int] == k@);
                    }
                }
                None
            },
        }
    }

    /// The value stored under a key.
    pub fn get(&self, k: &String) -> (r: Option<&V>)
        requires
            self.wf(),
        ensures
            match r {
                Some(v) => self.has(k@) && *v == self.value(k@),
                None => !self.has(k@),
            },
    {
        match self.position(k) {
            Some(i) => Some(&self.vals[i]),
            None => None,
        }
    }

    /// Adds a key that the table does not have yet, at the end.
    pub fn push_entry(&mut self, k: String, v: V)
        requires
            old(self).wf(),
            !old(self).has(k@),
        ensures
            final(self).wf(),
            final(self).keys@ == old(self).keys@.push(k),
            final(self).vals@ == old(self).vals@.push(v),
            final(self).key_seq() == old(self).key_seq().push(k@),
    {
        let h = hash_str(&k);
        let i = self.keys.len();
        self.keys.push(k);
        self.vals.push(v);
        let mut b = match self.slots.remove(&h) {
            Some(b) => b,
            None => Vec::new(),
        };
        let ghost before = b@;
        assert(before == old(self).bucket(h));
        b.push(i);
        self.slots.insert(h, b);
        proof {
            assert(self.key_seq() =~= old(self).key_seq().push(k@));
            assert(self.bucket(h) == before.push(i));
            assert forall|g: u64| g != h implies self.bucket(g) == old(self).bucket(g) by {}
            assert forall|n: int| 0 <= n < self.keys.len() implies self.bucket(
                hash_of(#[trigger] self.key_seq()[n]),
            ).contains(n as usize) by {
                let g = hash_of(self.key_seq()[n]);
                if n < i {
                    assert(self.key_seq()[n] == old(self).key_seq()[n]);
                    assert(old(self).bucket(g).contains(n as usize));
                    if g == h {
                        let u = choose|u: int| 0 <= u < before.len() && before[u] == n as usize;
                        assert(before.push(i)[u] == n as usize);
                    }
                } else {
                    assert(before.push(i)[before.len() as int] == i);
                }
            }
            assert forall|g: u64, j: int| 0 <= j < self.bucket(g).len() implies (
            #[trigger] self.bucket(g)[j]) < self.keys.len() by {
                if g == h {
                    if j < before.len() {
                        assert(old(self).bucket(h)[j] < old(self).keys.len());
                    }
                } else {
                    assert(old(self).bucket(g)[j] < old(self).keys.len());
                }
            }
        }
    }

    /// Stores a value under a key, in place of the one that was there.
    pub fn put(&mut self, k: String, v: V)
        requires
            old(self).wf(),
        ensures
            final(self).wf(),
            final(self).find(k@) == Some(v),
            forall|o: Seq<char>| o != k@ ==> final(self).find(o) == old(self).find(o),
            final(self).key_seq() == if old(self).has(k@) {
                old(self).key_seq()
            } else {
                old(self).key_seq().push(k@)
            },
    {
        match self.position(&k) {
            Some(i) => {
                self.vals[i] = v;
                assert(self.keys == old(self).keys);
                assert(self.slots == old(self).slots);
                assert(self.key_seq() == old(self).key_seq());
                assert forall|n: int| 0 <= n < self.keys.len() implies self.bucket(
                    hash_of(#[trigger] self.key_seq()[n]),
                ).contains(n as usize) by {
                    assert(old(self).bucket(hash_of(old(self).key_seq()[n])).contains(n as usize));
                }
                assert forall|g: u64, j: int| 0 <= j < self.bucket(g).len() implies (
                #[trigger] self.bucket(g)[j]) < self.keys.len() by {
                    assert(old(self).bucket(g)[j] < old(self).keys.len());
                }
                assert forall|o: Seq<char>| o != k@ implies self.find(o) == old(self).find(o) by {
                    if old(self).has(o) {
                        assert(self.slot(o) != i);
                    }
                }
            },
            None => {
                self.push_entry(k, v);
                let ghost n = old(self).keys@.len() as int;
                assert(self.key_seq()[n] == k@);
                assert(self.slot(k@) == n);
                assert forall|o: Seq<char>| o != k@ implies self.find(o) == old(self).find(o) by {
                    if old(self).has(o) {
                        let j = old(self).slot(o);
                        assert(self.key_seq()[j] == o);
                        assert(self.slot(o) == j);
                    } else {
                        if self.has(o) {
                            let j = self.slot(o);
                            assert(j < n);
                            assert(old(self).key_seq()[j] == o);
                        }
                    }
                }
            },
        }
    }
}

impl<T> Table<Vec<T>> {
    /// The list stored under a key; empty where the table lacks the key.
    pub open spec fn list(&self, k: Seq<char>) -> Seq<T> {
        if self.has(k) {
            self.value(k)@
        } else {
            Seq::empty()
        }
    }

    /// Appends an item to the list under a key, which is created if missing.
    pub fn append(&mut self, k: String, item: T)
        requires
            old(self).wf(),
        ensures
            final(self).wf(),
            final(self).list(k@) == old(self).list(k@).push(item),
            forall|o: Seq<char>| o != k@ ==> final(self).list(o) == old(self).list(o),
            forall|o: Seq<char>| final(self).has(o) <==> (old(self).has(o) || o == k@),
            final(self).key_seq() == if old(self).has(k@) {
                old(self).key_seq()
            } else {
                old(self).key_seq().push(k@)
            },
    {
        match self.position(&k) {
            Some(i) => {
                self.vals[i].push(item);
                assert(self.keys == old(self).keys);
                assert(self.slots == old(self).slots);
                assert(self.key_seq() == old(self).key_seq());
                assert forall|n: int| 0 <= n < self.keys.len() implies self.bucket(
                    hash_of(#[trigger] self.key_seq()[n]),
                ).contains(n as usize) by {
                    assert(old(self).bucket(hash_of(old(self).key_seq()[n])).contains(n as usize));
                }
                assert forall|g: u64, j: int| 0 <= j < self.bucket(g).len() implies (
                #[trigger] self.bucket(g)[j]) < self.keys.len() by {
                    assert(old(self).bucket(g)[j] < old(self).keys.len());
                }
                assert forall|o: Seq<char>| o != k@ implies self.list(o) == old(self).list(o) by {
                    if old(self).has(o) {
                        assert(self.slot(o) != i);
                    }
                }
            },
            None => {
                let mut l: Vec<T> = Vec::new();
                l.push(item);
                self.push_entry(k, l);
                let ghost n = old(self).keys@.len() as int;
                assert(self.key_seq()[n] == k@);
                assert(self.slot(k@) == n);
                assert(self.list(k@) =~= old(self).list(k@).push(item));
                assert forall|o: Seq<char>| o != k@ implies self.list(o) == old(self).list(o) by {
                    if old(self).has(o) {
                        let j = old(self).slot(o);
                        assert(self.key_seq()[j] == o);
                        assert(self.slot(o) == j);
                    } else {
                        if self.has(o) {
                            let j = self.slot(o);
                            assert(j < n);
                            assert(old(self).key_seq()[j] == o);
                        }
                    }
                }
                assert forall|o: Seq<char>| self.has(o) <==> (old(self).has(o) || o == k@) by {
                    if self.has(o) && o != k@ {
                        let j = self.slot(o);
                        assert(old(self).key_seq()[j] == o);
                    }
                    if old(self).has(o) {
                        let j = old(self).slot(o);
                        assert(self.key_seq()[j] == o);
                    }
                }
            },
        }
    }
}

/// A set of strings: the keys of a table.
#[derive(Debug, Clone)]
pub struct WordSet {
    pub table: Table<()>,
}

impl View for WordSet {
    type V = Set<Seq<char>>;

    open spec fn view(&self) -> Set<Seq<char>> {
        self.table.key_seq().to_set()
    }
}

impl WordSet {
    pub open spec fn wf(&self) -> bool {
        self.table.wf()
    }

    /// The empty set.
    pub fn new() -> (s: Self)
        ensures
            s.wf(),
            s@ == Set::<Seq<char>>::empty(),
    {
        let s = WordSet { table: Table::new() };
        assert(s@ =~= Set::<Seq<char>>::empty());
        s
    }

    /// Whether the set holds the word.
    pub fn contains(&self, w: &String) -> (b: bool)
        requires
            self.wf(),
        ensures
            b == self@.contains(w@),
    {
        self.table.position(w).is_some()
    }

    /// Puts the word into the set.
    pub fn insert(&mut self, w: &String)
        requires
            old(self).wf(),
        ensures
            final(self).wf(),
            final(self)@ == old(self)@.insert(w@),
    {
        if self.table.position(w).is_none() {
            let ghost before = self.table.key_seq();
            self.table.push_entry(w.clone(), ());
            proof {
                before.lemma_push_to_set_commute(w@);
            }
        } else {
            assert(self@.insert(w@) =~= self@);
        }
    }
}

} // verus!
