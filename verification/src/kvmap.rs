//! The in-memory index: an association list from string keys to byte values
//! with pairwise-distinct keys, viewed as a `Map<Seq<char>, Seq<u8>>`.

use vstd::prelude::*;

verus! {

/// The mathematical mapping an entry sequence denotes: later entries override
/// earlier ones (with distinct keys the order is immaterial).
pub open spec fn entry_map(s: Seq<(String, Vec<u8>)>) -> Map<Seq<char>, Seq<u8>>
    decreases s.len(),
{
    if s.len() == 0 {
        Map::empty()
    } else {
        entry_map(s.drop_last()).insert(s.last().0@, s.last().1@)
    }
}

/// No key occurs twice in the entry sequence.
pub open spec fn distinct_keys(s: Seq<(String, Vec<u8>)>) -> bool {
    forall|i: int, j: int| 0 <= i < j < s.len() ==> s[i].0@ != s[j].0@
}

/// A key occurs in the denoted map exactly when some entry holds it.
pub proof fn lemma_entry_map_contains(s: Seq<(String, Vec<u8>)>, k: Seq<char>)
    ensures
        entry_map(s).contains_key(k) <==> (exists|i: int| 0 <= i < s.len() && s[i].0@ == k),
    decreases s.len(),
{
    if s.len() > 0 {
        lemma_entry_map_contains(s.drop_last(), k);
        if s.last().0@ == k {
            assert(s[s.len() - 1].0@ == k);
        } else {
            if entry_map(s).contains_key(k) {
                let i = choose|i: int| 0 <= i < s.drop_last().len() && s.drop_last()[i].0@ == k;
                assert(s[i].0@ == k);
            }
            if exists|i: int| 0 <= i < s.len() && s[i].0@ == k {
                let i = choose|i: int| 0 <= i < s.len() && s[i].0@ == k;
                assert(s.drop_last()[i].0@ == k);
            }
        }
    }
}

/// With distinct keys, the entry at any index gives the map's value there.
pub proof fn lemma_entry_map_index(s: Seq<(String, Vec<u8>)>, i: int)
    requires
        distinct_keys(s),
        0 <= i < s.len(),
    ensures
        entry_map(s).contains_key(s[i].0@),
        entry_map(s)[s[i].0@] == s[i].1@,
    decreases s.len(),
{
    if i < s.len() - 1 {
        assert(distinct_keys(s.drop_last())) by {
            assert(forall|m: int, n: int|
                0 <= m < n < s.drop_last().len() ==> s.drop_last()[m].0@ != s.drop_last()[n].0@);
        }
        lemma_entry_map_index(s.drop_last(), i);
        assert(s.drop_last()[i] == s[i]);
        assert(s[i].0@ != s.last().0@);
    }
}

/// Dropping the last entry keeps the keys distinct.
pub proof fn lemma_distinct_drop_last(s: Seq<(String, Vec<u8>)>)
    requires
        distinct_keys(s),
        s.len() > 0,
    ensures
        distinct_keys(s.drop_last()),
{
    assert(forall|m: int, n: int|
        0 <= m < n < s.drop_last().len() ==> s.drop_last()[m].0@ != s.drop_last()[n].0@);
}

/// Removing the entry holding key `k` removes exactly `k` from the map.
pub proof fn lemma_entry_map_remove(s: Seq<(String, Vec<u8>)>, i: int)
    requires
        distinct_keys(s),
        0 <= i < s.len(),
    ensures
        distinct_keys(s.remove(i)),
        entry_map(s.remove(i)) =~= entry_map(s).remove(s[i].0@),
    decreases s.len(),
{
    let k = s[i].0@;
    lemma_distinct_drop_last(s);
    if i == s.len() - 1 {
        assert(s.remove(i) =~= s.drop_last());
        lemma_entry_map_contains(s.drop_last(), k);
        assert(!entry_map(s.drop_last()).contains_key(k));
        assert(entry_map(s.drop_last()) =~= entry_map(s.drop_last()).insert(k, s.last().1@).remove(
            k,
        ));
    } else {
        lemma_entry_map_remove(s.drop_last(), i);
        assert(s.remove(i).drop_last() =~= s.drop_last().remove(i));
        assert(s.remove(i).last() == s.last());
        assert(entry_map(s.remove(i)) == entry_map(s.drop_last().remove(i)).insert(
            s.last().0@,
            s.last().1@,
        ));
        assert(s.drop_last()[i] == s[i]);
        assert(s.last().0@ != k);
        assert(entry_map(s.drop_last()).remove(k).insert(s.last().0@, s.last().1@) =~= entry_map(
            s.drop_last(),
        ).insert(s.last().0@, s.last().1@).remove(k));
        assert(forall|m: int, n: int|
            0 <= m < n < s.remove(i).len() ==> s.remove(i)[m].0@ != s.remove(i)[n].0@);
    }
}

/// The in-memory key-value index.
pub struct KvMap {
    entries: Vec<(String, Vec<u8>)>,
}

impl View for KvMap {
    type V = Map<Seq<char>, Seq<u8>>;

    closed spec fn view(&self) -> Map<Seq<char>, Seq<u8>> {
        entry_map(self.entries@)
    }
}

impl KvMap {
    /// The internal entry sequence, for callers that enumerate the contents.
    pub closed spec fn entries_seq(&self) -> Seq<(String, Vec<u8>)> {
        self.entries@
    }

    /// The index is well formed when no key is stored twice.
    pub open spec fn wf(&self) -> bool {
        distinct_keys(self.entries_seq())
    }

    /// The view is the map the entry sequence denotes.
    pub proof fn lemma_view_is_entry_map(&self)
        ensures
            self@ == entry_map(self.entries_seq()),
    {
    }

    /// An empty index.
    pub fn new() -> (r: KvMap)
        ensures
            r.wf(),
            r@ == Map::<Seq<char>, Seq<u8>>::empty(),
            r.entries_seq().len() == 0,
    {
        KvMap { entries: Vec::new() }
    }

    /// How many keys are stored.
    pub fn num_entries(&self) -> (n: usize)
        ensures
            n == self.entries_seq().len(),
    {
        self.entries.len()
    }

    /// The key of the entry at position `i`.
    pub fn entry_key(&self, i: usize) -> (k: &String)
        requires
            i < self.entries_seq().len(),
        ensures
            k@ == self.entries_seq()[i as int].0@,
    {
        &self.entries[i].0
    }

    /// The value of the entry at position `i`.
    pub fn entry_value(&self, i: usize) -> (v: &Vec<u8>)
        requires
            i < self.entries_seq().len(),
        ensures
            v@ == self.entries_seq()[i as int].1@,
    {
        &self.entries[i].1
    }

    /// The position of `key`'s entry, if the key is stored.
    fn find(&self, key: &String) -> (r: Option<usize>)
        ensures
            match r {
                Some(i) => i < self.entries_seq().len() && self.entries_seq()[i as int].0@ == key@,
                None => forall|i: int|
                    0 <= i < self.entries_seq().len() ==> self.entries_seq()[i].0@ != key@,
            },
    {
        let n = self.entries.len();
        let mut i: usize = 0;
        while i < n
            invariant
                n == self.entries@.len(),
                i <= n,
                forall|j: int| 0 <= j < i ==> self.entries@[j].0@ != key@,
            decreases n - i,
        {
            if self.entries[i].0 == *key {
                return Some(i);
            }
            i = i + 1;
        }
        None
    }

    /// Whether `key` is stored.
    pub fn contains(&self, key: &String) -> (r: bool)
        requires
            self.wf(),
        ensures
            r == self@.contains_key(key@),
    {
        proof {
            lemma_entry_map_contains(self.entries@, key@);
        }
        self.find(key).is_some()
    }

    /// The value stored under `key`, if any.
    pub fn get(&self, key: &String) -> (r: Option<&Vec<u8>>)
        requires
            self.wf(),
        ensures
            match r {
                Some(v) => self@.contains_key(key@) && v@ == self@[key@],
                None => !self@.contains_key(key@),
            },
    {
        proof {
            lemma_entry_map_contains(self.entries@, key@);
        }
        match self.find(key) {
            Some(i) => {
                proof {
                    lemma_entry_map_index(self.entries@, i as int);
                }
                Some(&self.entries[i].1)
            },
            None => None,
        }
    }

    /// Binds `key` to `value`, replacing any earlier binding.
    pub fn insert(&mut self, key: String, value: Vec<u8>)
        requires
            old(self).wf(),
        ensures
            final(self).wf(),
            final(self)@ == old(self)@.insert(key@, value@),
    {
        let ghost s0 = self.entries@;
        match self.find(&key) {
            Some(i) => {
                proof {
                    lemma_entry_map_remove(s0, i as int);
                }
                let _ = self.entries.remove(i);
                let ghost s1 = self.entries@;
                self.entries.push((key, value));
                proof {
                    assert(self.entries@.drop_last() =~= s1);
                    assert(entry_map(self.entries@) =~= entry_map(s0).insert(key@, value@));
                    assert(forall|m: int, n: int|
                        0 <= m < n < s1.len() + 1 && n < s1.len() ==> self.entries@[m].0@
                            != self.entries@[n].0@);
                    lemma_entry_map_contains(s1, key@);
                    assert(forall|m: int| 0 <= m < s1.len() ==> s1[m].0@ != key@) by {
                        assert(!entry_map(s1).contains_key(key@));
                    }
                    assert(distinct_keys(self.entries@));
                }
            },
            None => {
                self.entries.push((key, value));
                proof {
                    assert(self.entries@.drop_last() =~= s0);
                    assert(entry_map(self.entries@) =~= entry_map(s0).insert(key@, value@));
                    assert(distinct_keys(self.entries@));
                }
            },
        }
    }

    /// Unbinds `key`; reports whether a binding existed.
    pub fn remove(&mut self, key: &String) -> (existed: bool)
        requires
            old(self).wf(),
        ensures
            final(self).wf(),
            existed == old(self)@.contains_key(key@),
            final(self)@ == old(self)@.remove(key@),
    {
        let ghost s0 = self.entries@;
        proof {
            lemma_entry_map_contains(s0, key@);
        }
        match self.find(key) {
            Some(i) => {
                proof {
                    lemma_entry_map_remove(s0, i as int);
                }
                let _ = self.entries.remove(i);
                true
            },
            None => {
                proof {
                    assert(entry_map(s0) =~= entry_map(s0).remove(key@));
                }
                false
            },
        }
    }

    /// Every stored key, each exactly once, in no promised order.
    pub fn key_list(&self) -> (r: Vec<String>)
        requires
            self.wf(),
        ensures
            forall|i: int| 0 <= i < r@.len() ==> self@.contains_key(#[trigger] r@[i]@),
            forall|k: Seq<char>|
                self@.contains_key(k) ==> exists|i: int| 0 <= i < r@.len() && #[trigger] r@[i]@
                    == k,
            forall|i: int, j: int| 0 <= i < j < r@.len() ==> r@[i]@ != r@[j]@,
            r@.len() == self.entries_seq().len(),
    {
        let n = self.entries.len();
        let mut r: Vec<String> = Vec::new();
        let mut i: usize = 0;
        while i < n
            invariant
                self.wf(),
                n == self.entries@.len(),
                i <= n,
                r@.len() == i,
                forall|j: int| 0 <= j < i ==> r@[j]@ == self.entries@[j].0@,
            decreases n - i,
        {
            r.push(self.entries[i].0.clone());
            i = i + 1;
        }
        proof {
            assert forall|i2: int| 0 <= i2 < r@.len() implies self@.contains_key(
                #[trigger] r@[i2]@,
            ) by {
                lemma_entry_map_index(self.entries@, i2);
            }
            assert forall|k: Seq<char>| self@.contains_key(k) implies exists|i2: int|
                0 <= i2 < r@.len() && #[trigger] r@[i2]@ == k by {
                lemma_entry_map_contains(self.entries@, k);
                let i2 = choose|i2: int| 0 <= i2 < self.entries@.len() && self.entries@[i2].0@
                    == k;
                assert(r@[i2]@ == k);
            }
        }
        r
    }
}

} // verus!
