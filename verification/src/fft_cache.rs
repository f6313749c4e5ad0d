//! A cache of transform tables keyed by transform length and Fermat shift.

use vstd::prelude::*;

verus! {

/// Key of a cached transform table: transform length and Fermat shift.
#[derive(Debug, Clone, Copy, PartialEq, Eq, Hash)]
pub struct CacheKey {
    /// Transform length.
    pub size: usize,
    /// Fermat shift.
    pub shift: usize,
}

/// No key occurs twice among the entries.
pub open spec fn keys_distinct(s: Seq<(CacheKey, Vec<Vec<u64>>)>) -> bool {
    forall|i: int, j: int| 0 <= i < j < s.len() ==> (#[trigger] s[i]).0 != (#[trigger] s[j]).0
}

/// Entry `i` is the one cached under `key`.
pub open spec fn has_key_at(s: Seq<(CacheKey, Vec<Vec<u64>>)>, key: CacheKey, i: int) -> bool {
    0 <= i < s.len() && s[i].0 == key
}

/// A cache of transform tables. When a new table arrives while the cache
/// holds `max_entries` or more, the cache is emptied first. The cache has
/// one owner at a time (`&mut self`); sharing it between threads is left to
/// the caller.
pub struct FFTCache {
    entries: Vec<(CacheKey, Vec<Vec<u64>>)>,
    max_entries: usize,
}

impl FFTCache {
    /// The cached entries, in the order they were first stored.
    pub closed spec fn entries(&self) -> Seq<(CacheKey, Vec<Vec<u64>>)> {
        self.entries@
    }

    /// The number of entries at which the next new table empties the cache.
    pub closed spec fn capacity(&self) -> nat {
        self.max_entries as nat
    }

    /// No key is cached twice.
    pub open spec fn wf(&self) -> bool {
        keys_distinct(self.entries())
    }

    /// An empty cache with the given bound.
    pub fn new(max_entries: usize) -> (r: Self)
        ensures
            r.entries() == Seq::<(CacheKey, Vec<Vec<u64>>)>::empty(),
            r.capacity() == max_entries,
            r.wf(),
    {
        FFTCache { entries: Vec::new(), max_entries }
    }

    /// Where `key` is cached, if it is.
    fn position(&self, key: &CacheKey) -> (r: Option<usize>)
        ensures
            r matches Some(i) ==> has_key_at(self.entries(), *key, i as int),
            r is None ==> forall|i: int| 0 <= i < self.entries().len() ==> (#[trigger] self.entries()[i]).0 != *key,
    {
        let mut i: usize = 0;
        while i < self.entries.len()
            invariant
                i <= self.entries@.len(),
                forall|j: int| 0 <= j < i ==> (#[trigger] self.entries@[j]).0 != *key,
            decreases self.entries@.len() - i,
        {
            if self.entries[i].0.size == key.size && self.entries[i].0.shift == key.shift {
                return Some(i);
            }
            i += 1;
        }
        None
    }

    /// A copy of the table cached under `key`, if there is one.
    pub fn get(&self, key: &CacheKey) -> (r: Option<Vec<Vec<u64>>>)
        requires
            self.wf(),
        ensures
            r is Some <==> exists|i: int| has_key_at(self.entries(), *key, i),
            forall|i: int| has_key_at(self.entries(), *key, i) ==> (r matches Some(v)
                && v.deep_view() == self.entries()[i].1.deep_view()),
    {
        match self.position(key) {
            Some(i) => {
                let v = self.entries[i].1.clone();
                proof {
                    let w = self.entries@[i as int].1;
                    assert forall|j: int| 0 <= j < w.len() implies #[trigger] v.deep_view()[j] == w.deep_view()[j] by {
                        assert(cloned::<Vec<u64>>(w[j], v[j]));
                        if w[j] != v[j] {
                            assert(w[j]@ =~= v[j]@);
                        }
                    }
                    assert(v.deep_view() =~= w.deep_view());
                }
                Some(v)
            },
            None => None,
        }
    }

    /// Store `value` under `key`. If the cache already holds its capacity or
    /// more, it is emptied first; otherwise a table already cached under
    /// `key` is replaced in place, and a new key is added at the end.
    pub fn put(&mut self, key: CacheKey, value: Vec<Vec<u64>>)
        requires
            old(self).wf(),
        ensures
            final(self).wf(),
            final(self).capacity() == old(self).capacity(),
            final(self).entries().len() <= old(self).capacity() || final(self).entries().len() == 1,
            old(self).entries().len() >= old(self).capacity() ==> final(self).entries() == seq![(key, value)],
            old(self).entries().len() < old(self).capacity() ==> forall|i: int| #[trigger] has_key_at(old(self).entries(), key, i)
                ==> final(self).entries() == old(self).entries().update(i, (key, value)),
            old(self).entries().len() < old(self).capacity() && (forall|i: int| !#[trigger] has_key_at(old(self).entries(), key, i))
                ==> final(self).entries() == old(self).entries().push((key, value)),
    {
        if self.entries.len() >= self.max_entries {
            self.entries.clear();
            self.entries.push((key, value));
            return;
        }
        match self.position(&key) {
            Some(i) => {
                let ghost before = self.entries@;
                self.entries.set(i, (key, value));
                proof {
                    assert forall|j: int| #[trigger] has_key_at(before, key, j) implies j == i as int by {
                        if j != i as int {
                            if j < i {
                                assert(before[j].0 != before[i as int].0);
                            } else {
                                assert(before[i as int].0 != before[j].0);
                            }
                        }
                    }
                }
            },
            None => {
                self.entries.push((key, value));
                proof {
                    assert forall|a: int, b: int| 0 <= a < b < self.entries@.len() implies
                        (#[trigger] self.entries@[a]).0 != (#[trigger] self.entries@[b]).0 by {
                        if b == self.entries@.len() - 1 {
                            assert(!has_key_at(old(self).entries(), key, a));
                        }
                    }
                }
            },
        }
    }

    /// The number of cached entries.
    pub fn len(&self) -> (r: usize)
        ensures
            r == self.entries().len(),
    {
        self.entries.len()
    }

    /// Whether nothing is cached.
    pub fn is_empty(&self) -> (r: bool)
        ensures
            r == (self.entries().len() == 0),
    {
        self.entries.len() == 0
    }

    /// Drop every entry.
    pub fn clear(&mut self)
        ensures
            final(self).entries() == Seq::<(CacheKey, Vec<Vec<u64>>)>::empty(),
            final(self).capacity() == old(self).capacity(),
            final(self).wf(),
    {
        self.entries.clear();
    }
}

impl Default for FFTCache {
    fn default() -> (r: Self)
        ensures
            r.entries() == Seq::<(CacheKey, Vec<Vec<u64>>)>::empty(),
            r.capacity() == 64,
    {
        Self::new(64)
    }
}

} // verus!
