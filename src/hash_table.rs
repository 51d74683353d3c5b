//! A separate-chaining hash table whose bucket count is fixed when it is built.
//!
//! Inserting never overwrites: an entry is appended to the end of its chain,
//! and a lookup returns the value of the first entry whose key is equal to the
//! one asked for, so the earliest insertion of a key is the one that is seen.
use vstd::prelude::*;

verus! {

/// A value that maps to an unsigned number, used to place it in a bucket.
pub trait Identifiable {
    spec fn spec_id(&self) -> u32;

    fn id(&self) -> (r: u32)
        ensures
            r == self.spec_id(),
    ;
}

/// A key of a `HashMap`: it has a number and an exact equality.
pub trait Key: Identifiable + Sized {
    fn same_key(&self, other: &Self) -> (r: bool)
        ensures
            r == (*self == *other),
    ;
}

impl Identifiable for u32 {
    open spec fn spec_id(&self) -> u32 {
        *self
    }

    fn id(&self) -> (r: u32) {
        *self
    }
}

impl Key for u32 {
    fn same_key(&self, other: &u32) -> (r: bool) {
        *self == *other
    }
}

impl Identifiable for i32 {
    open spec fn spec_id(&self) -> u32 {
        *self as u32
    }

    fn id(&self) -> (r: u32) {
        *self as u32
    }
}

impl Key for i32 {
    fn same_key(&self, other: &i32) -> (r: bool) {
        *self == *other
    }
}

impl Identifiable for char {
    open spec fn spec_id(&self) -> u32 {
        *self as u32
    }

    fn id(&self) -> (r: u32) {
        *self as u32
    }
}

impl Key for char {
    fn same_key(&self, other: &char) -> (r: bool) {
        *self == *other
    }
}

/// Position of the first entry of `chain` whose key is `key`, or -1.
pub open spec fn first_index<K, V>(chain: Seq<(K, V)>, key: K) -> int
    decreases chain.len(),
{
    if chain.len() == 0 {
        -1
    } else {
        let i = first_index(chain.drop_last(), key);
        if i >= 0 {
            i
        } else if chain.last().0 == key {
            chain.len() - 1
        } else {
            -1
        }
    }
}

/// Number of chains that hold at least one entry.
pub open spec fn count_occupied<K, V>(chains: Seq<Seq<(K, V)>>) -> nat
    decreases chains.len(),
{
    if chains.len() == 0 {
        0
    } else {
        count_occupied(chains.drop_last()) + if chains.last().len() > 0 {
            1nat
        } else {
            0nat
        }
    }
}

pub struct HashMap<K, V> {
    buckets: Vec<Vec<(K, V)>>,
    modulo: usize,
}

impl<K: Key, V> HashMap<K, V> {
    /// The bucket count.
    pub closed spec fn spec_modulo(&self) -> nat {
        self.modulo as nat
    }

    /// The chains, bucket by bucket, each in insertion order.
    pub closed spec fn chains(&self) -> Seq<Seq<(K, V)>> {
        self.buckets@.map_values(|b: Vec<(K, V)>| b@)
    }

    pub open spec fn bucket_of(&self, key: K) -> int {
        (key.spec_id() as nat % self.spec_modulo()) as int
    }

    /// There is one chain per bucket, and each entry sits in its key's bucket.
    pub open spec fn wf(&self) -> bool {
        &&& self.spec_modulo() > 0
        &&& self.chains().len() == self.spec_modulo()
        &&& forall|b: int, j: int|
            0 <= b < self.chains().len() && 0 <= j < self.chains()[b].len() ==> self.bucket_of(
                #[trigger] self.chains()[b][j].0,
            ) == b
    }

    /// Position of the entry that a lookup of `key` finds in its chain, or -1.
    pub open spec fn found_at(&self, key: K) -> int {
        first_index(self.chains()[self.bucket_of(key)], key)
    }

    /// What a lookup of `key` returns: the value of its earliest entry.
    pub open spec fn lookup(&self, key: K) -> Option<V> {
        let i = self.found_at(key);
        if i >= 0 {
            Some(self.chains()[self.bucket_of(key)][i].1)
        } else {
            None
        }
    }

    /// The chains after `(key, value)` is appended to the chain of its bucket.
    pub open spec fn pushed(&self, key: K, value: V) -> Seq<Seq<(K, V)>> {
        let b = self.bucket_of(key);
        self.chains().update(b, self.chains()[b].push((key, value)))
    }

    pub fn new(modulo: usize) -> (r: Self)
        requires
            modulo > 0,
        ensures
            r.wf(),
            r.spec_modulo() == modulo,
            forall|b: int| 0 <= b < modulo ==> (#[trigger] r.chains()[b]).len() == 0,
    {
        let mut buckets: Vec<Vec<(K, V)>> = Vec::with_capacity(modulo);
        let mut i: usize = 0;
        while i < modulo
            invariant
                i <= modulo,
                buckets@.len() == i,
                forall|b: int| 0 <= b < i ==> (#[trigger] buckets@[b])@.len() == 0,
            decreases modulo - i,
        {
            buckets.push(Vec::new());
            i = i + 1;
        }
        let r = HashMap { buckets, modulo };
        assert(forall|b: int| 0 <= b < modulo ==> (#[trigger] r.chains()[b]).len() == 0);
        r
    }

    pub fn bucket_count(&self) -> (r: usize)
        ensures
            r == self.spec_modulo(),
    {
        self.modulo
    }

    /// The chain of bucket `i`.
    pub fn bucket(&self, i: usize) -> (r: &Vec<(K, V)>)
        requires
            self.wf(),
            i < self.spec_modulo(),
        ensures
            r@ == self.chains()[i as int],
    {
        &self.buckets[i]
    }

    /// Number of buckets whose chain is not empty.
    pub fn occupancy(&self) -> (r: usize)
        requires
            self.wf(),
        ensures
            r == count_occupied(self.chains()),
    {
        let mut count: usize = 0;
        let mut i: usize = 0;
        while i < self.buckets.len()
            invariant
                self.wf(),
                i <= self.buckets@.len(),
                count == count_occupied(self.chains().take(i as int)),
                count <= i,
            decreases self.buckets@.len() - i,
        {
            assert(self.chains().take(i + 1).drop_last() == self.chains().take(i as int));
            if self.buckets[i].len() > 0 {
                count = count + 1;
            }
            i = i + 1;
        }
        assert(self.chains().take(i as int) == self.chains());
        count
    }

    pub fn hash(&self, key: &K) -> (r: usize)
        requires
            self.wf(),
        ensures
            r == self.bucket_of(*key),
            r < self.spec_modulo(),
    {
        (key.id() as usize) % self.modulo
    }

    /// Appends `(key, value)` to its bucket's chain, whether or not the key is there.
    pub fn insert(&mut self, key: K, value: V)
        requires
            old(self).wf(),
        ensures
            final(self).wf(),
            final(self).spec_modulo() == old(self).spec_modulo(),
            final(self).chains() == old(self).pushed(key, value),
    {
        let b = self.hash(&key);
        let ghost old_chains = self.chains();
        self.buckets[b].push((key, value));
        assert(self.chains() =~= old_chains.update(b as int, old_chains[b as int].push((key, value))));
    }

    /// Index in the chain of `key`'s bucket of the first entry with that key.
    fn find_index(&self, key: &K) -> (r: Option<usize>)
        requires
            self.wf(),
        ensures
            match r {
                Some(j) => {
                    &&& j == self.found_at(*key)
                    &&& j < self.chains()[self.bucket_of(*key)].len()
                    &&& self.chains()[self.bucket_of(*key)][j as int].0 == *key
                },
                None => self.found_at(*key) < 0,
            },
    {
        let b = self.hash(key);
        let chain = &self.buckets[b];
        let ghost s = chain@;
        let mut j: usize = 0;
        while j < chain.len()
            invariant
                self.wf(),
                b == self.bucket_of(*key),
                s == chain@,
                s == self.chains()[b as int],
                j <= s.len(),
                first_index(s.take(j as int), *key) < 0,
            decreases s.len() - j,
        {
            assert(s.take(j + 1).drop_last() == s.take(j as int));
            assert(s.take(j + 1).last() == s[j as int]);
            if chain[j].0.same_key(key) {
                proof {
                    lemma_first_index_prefix(s, j as int + 1, *key);
                    lemma_first_index(s, *key);
                }
                return Some(j);
            }
            j = j + 1;
        }
        assert(s.take(j as int) == s);
        None
    }

    /// The value of the first entry with `key`, to be changed in place.
    pub fn search(&mut self, key: &K) -> (r: Option<&mut V>)
        requires
            old(self).wf(),
        ensures
            match r {
                Some(v) => {
                    let b = old(self).bucket_of(*key);
                    let j = old(self).found_at(*key);
                    &&& old(self).lookup(*key) == Some(*v)
                    &&& final(self).spec_modulo() == old(self).spec_modulo()
                    &&& final(self).chains() == old(self).chains().update(
                        b,
                        old(self).chains()[b].update(j, (*key, *final(v))),
                    )
                },
                None => old(self).lookup(*key) is None && *final(self) == *old(self),
            },
    {
        match self.find_index(key) {
            Some(j) => {
                let b = self.hash(key);
                Some(&mut self.buckets[b][j].1)
            },
            None => None,
        }
    }

    /// Same as `search`.
    pub fn get(&mut self, key: &K) -> (r: Option<&mut V>)
        requires
            old(self).wf(),
        ensures
            match r {
                Some(v) => {
                    let b = old(self).bucket_of(*key);
                    let j = old(self).found_at(*key);
                    &&& old(self).lookup(*key) == Some(*v)
                    &&& final(self).spec_modulo() == old(self).spec_modulo()
                    &&& final(self).chains() == old(self).chains().update(
                        b,
                        old(self).chains()[b].update(j, (*key, *final(v))),
                    )
                },
                None => old(self).lookup(*key) is None && *final(self) == *old(self),
            },
    {
        self.search(key)
    }

    /// The value of the first entry with `key`.
    pub fn search_non_mut(&self, key: &K) -> (r: Option<&V>)
        requires
            self.wf(),
        ensures
            match r {
                Some(v) => self.lookup(*key) == Some(*v),
                None => self.lookup(*key) is None,
            },
    {
        match self.find_index(key) {
            Some(j) => {
                let b = self.hash(key);
                Some(&self.buckets[b][j].1)
            },
            None => None,
        }
    }
}

/// Once `(key, value)` has been inserted, a lookup of `key` returns the value
/// of the earliest insertion of that key: `value` itself if the key was absent
/// before. Lookups of every other key are unchanged.
pub proof fn lemma_lookup_after_insert<K: Key, V>(
    before: HashMap<K, V>,
    after: HashMap<K, V>,
    key: K,
    value: V,
    other: K,
)
    requires
        before.wf(),
        after.spec_modulo() == before.spec_modulo(),
        after.chains() == before.pushed(key, value),
    ensures
        after.lookup(key) == (if before.lookup(key) is Some {
            before.lookup(key)
        } else {
            Some(value)
        }),
        other != key ==> after.lookup(other) == before.lookup(other),
{
    let b = before.bucket_of(key);
    let chain = before.chains()[b];
    assert(after.chains()[b].drop_last() == chain);
    lemma_first_index(chain, key);
    if other != key {
        let c = before.bucket_of(other);
        lemma_first_index(before.chains()[c], other);
        if c == b {
            assert(after.chains()[c].drop_last() == chain);
        } else {
            assert(after.chains()[c] == before.chains()[c]);
        }
    }
}

/// Changing the value found for `key` in place changes what a lookup of
/// `key` returns, and nothing else.
pub proof fn lemma_lookup_after_update<K: Key, V>(
    before: HashMap<K, V>,
    after: HashMap<K, V>,
    key: K,
    value: V,
    other: K,
)
    requires
        before.wf(),
        before.found_at(key) >= 0,
        after.spec_modulo() == before.spec_modulo(),
        after.chains() == before.chains().update(
            before.bucket_of(key),
            before.chains()[before.bucket_of(key)].update(before.found_at(key), (key, value)),
        ),
    ensures
        after.wf(),
        after.lookup(key) == Some(value),
        other != key ==> after.lookup(other) == before.lookup(other),
{
    let b = before.bucket_of(key);
    let j = before.found_at(key);
    let s = before.chains()[b];
    lemma_first_index(s, key);
    let t = s.update(j, (key, value));
    assert forall|q: int| 0 <= q < t.len() implies (#[trigger] t[q]).0 == s[q].0 by {}
    lemma_first_index_same_keys(s, t, key);
    lemma_first_index_same_keys(s, t, other);
    assert(after.wf()) by {
        assert forall|c: int, i: int|
            0 <= c < after.chains().len() && 0 <= i < after.chains()[c].len() implies after.bucket_of(
            #[trigger] after.chains()[c][i].0) == c by {
            if c == b {
                assert(after.chains()[c][i].0 == s[i].0);
            } else {
                assert(after.chains()[c] == before.chains()[c]);
            }
        }
    }
    let c = before.bucket_of(other);
    if c != b {
        assert(after.chains()[c] == before.chains()[c]);
    } else {
        lemma_first_index(s, other);
    }
}

/// The first match depends on the keys alone.
proof fn lemma_first_index_same_keys<K, V>(s: Seq<(K, V)>, t: Seq<(K, V)>, key: K)
    requires
        s.len() == t.len(),
        forall|q: int| 0 <= q < t.len() ==> (#[trigger] t[q]).0 == s[q].0,
    ensures
        first_index(s, key) == first_index(t, key),
    decreases s.len(),
{
    if s.len() > 0 {
        assert forall|q: int| 0 <= q < t.len() - 1 implies (#[trigger] t.drop_last()[q]).0
            == s.drop_last()[q].0 by {
            assert(t.drop_last()[q] == t[q]);
            assert(s.drop_last()[q] == s[q]);
        }
        lemma_first_index_same_keys(s.drop_last(), t.drop_last(), key);
    }
}

/// A key that no entry holds is not found.
pub proof fn lemma_lookup_absent<K: Key, V>(m: HashMap<K, V>, key: K)
    requires
        m.wf(),
        forall|b: int, j: int|
            0 <= b < m.chains().len() && 0 <= j < m.chains()[b].len() ==> (#[trigger] m.chains()[b][j]).0
                != key,
    ensures
        m.lookup(key) is None,
{
    let b = m.bucket_of(key);
    lemma_first_index(m.chains()[b], key);
    if m.found_at(key) >= 0 {
        assert(m.chains()[b][m.found_at(key)].0 == key);
    }
}

/// The first match lies in the chain, holds the key, and no earlier entry does.
pub proof fn lemma_first_index<K, V>(s: Seq<(K, V)>, key: K)
    ensures
        -1 <= first_index(s, key) < s.len(),
        first_index(s, key) >= 0 ==> s[first_index(s, key)].0 == key,
        forall|j: int|
            0 <= j < s.len() && (first_index(s, key) < 0 || j < first_index(s, key)) ==> s[j].0
                != key,
    decreases s.len(),
{
    if s.len() > 0 {
        lemma_first_index(s.drop_last(), key);
        assert(forall|j: int| 0 <= j < s.len() - 1 ==> s.drop_last()[j] == #[trigger] s[j]);
    }
}

/// A match found in a prefix of a chain is the first match of the whole chain.
proof fn lemma_first_index_prefix<K, V>(s: Seq<(K, V)>, n: int, key: K)
    requires
        0 <= n <= s.len(),
        first_index(s.take(n), key) >= 0,
    ensures
        first_index(s, key) == first_index(s.take(n), key),
    decreases s.len() - n,
{
    if n < s.len() {
        assert(s.take(n + 1).drop_last() == s.take(n));
        lemma_first_index_prefix(s, n + 1, key);
    } else {
        assert(s.take(n) == s);
    }
}

} // verus!
