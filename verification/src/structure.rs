//! The key-value container that the payload encodes.
//!
//! `Store` maps string keys to values of a generic type.  Its view is the
//! mathematical map from key characters to values; insertion and removal are
//! proved to act on that map exactly as `Map::insert` and `Map::remove` do.
//! The container itself never meets the codec: a caller enumerates the
//! entries to encode them and rebuilds the container by insertion after
//! decoding.

use vstd::prelude::*;

verus! {

/// No two entries share a key.
pub open spec fn entry_keys_unique<T>(s: Seq<(String, T)>) -> bool {
    forall|i: int, j: int| 0 <= i < j < s.len() ==> s[i].0@ != s[j].0@
}

/// The map that a sequence of entries denotes; later entries win.
pub open spec fn map_of<T>(s: Seq<(String, T)>) -> Map<Seq<char>, T>
    decreases s.len(),
{
    if s.len() == 0 {
        Map::empty()
    } else {
        map_of(s.drop_last()).insert(s.last().0@, s.last().1)
    }
}

/// A key is in the map exactly when some entry carries it.
pub proof fn lemma_map_of_contains<T>(s: Seq<(String, T)>, k: Seq<char>)
    ensures
        map_of(s).contains_key(k) <==> exists|i: int| 0 <= i < s.len() && s[i].0@ == k,
    decreases s.len(),
{
    if s.len() > 0 {
        let t = s.drop_last();
        lemma_map_of_contains(t, k);
        if map_of(s).contains_key(k) {
            if k == s.last().0@ {
                assert(s[s.len() - 1].0@ == k);
            } else {
                let i = choose|i: int| 0 <= i < t.len() && t[i].0@ == k;
                assert(s[i].0@ == k);
            }
        }
        if exists|i: int| 0 <= i < s.len() && s[i].0@ == k {
            let i = choose|i: int| 0 <= i < s.len() && s[i].0@ == k;
            if i < s.len() - 1 {
                assert(t[i].0@ == k);
            }
        }
    }
}

/// With unique keys, the map sends each entry's key to that entry's value.
pub proof fn lemma_map_of_index<T>(s: Seq<(String, T)>, i: int)
    requires
        entry_keys_unique(s),
        0 <= i < s.len(),
    ensures
        map_of(s).contains_key(s[i].0@),
        map_of(s)[s[i].0@] == s[i].1,
    decreases s.len(),
{
    let t = s.drop_last();
    if i < s.len() - 1 {
        assert(entry_keys_unique(t));
        lemma_map_of_index(t, i);
        assert(s[i].0@ != s[s.len() - 1].0@);
    }
}

/// Appending an entry inserts its key.
pub proof fn lemma_map_of_push<T>(s: Seq<(String, T)>, key: String, value: T)
    ensures
        map_of(s.push((key, value))) == map_of(s).insert(key@, value),
{
    let p = s.push((key, value));
    assert(p.drop_last() =~= s);
    assert(p.last() == (key, value));
}

/// With unique keys, dropping the entry at `i` removes its key.
pub proof fn lemma_map_of_remove<T>(s: Seq<(String, T)>, i: int)
    requires
        entry_keys_unique(s),
        0 <= i < s.len(),
    ensures
        map_of(s.remove(i)) == map_of(s).remove(s[i].0@),
    decreases s.len(),
{
    let t = s.drop_last();
    let k = s[i].0@;
    if i == s.len() - 1 {
        assert(s.remove(i) =~= t);
        lemma_map_of_contains(t, k);
        assert(forall|j: int| 0 <= j < t.len() ==> s[j].0@ != k);
        assert(!map_of(t).contains_key(k));
        assert(map_of(t) =~= map_of(s).remove(k));
    } else {
        assert(entry_keys_unique(t));
        lemma_map_of_remove(t, i);
        let r = s.remove(i);
        assert(r.drop_last() =~= t.remove(i));
        assert(r.last() == s.last());
        assert(k != s.last().0@);
        assert(map_of(t).remove(k).insert(s.last().0@, s.last().1) =~= map_of(t).insert(
            s.last().0@,
            s.last().1,
        ).remove(k));
    }
}

/// A mapping from string keys to values of type `T`.
pub struct Store<T> {
    entries: Vec<(String, T)>,
}

impl<T> View for Store<T> {
    type V = Map<Seq<char>, T>;

    closed spec fn view(&self) -> Map<Seq<char>, T> {
        map_of(self.entries@)
    }
}

impl<T> Store<T> {
    /// The container's invariant: no key occurs twice among the entries.
    pub closed spec fn wf(&self) -> bool {
        entry_keys_unique(self.entries@)
    }

    /// An empty container.
    pub fn new() -> (r: Store<T>)
        ensures
            r@ == Map::<Seq<char>, T>::empty(),
            r.wf(),
    {
        Store { entries: Vec::new() }
    }

    /// The index of the entry carrying `key`, when one exists.
    fn find(&self, key: &String) -> (r: Option<usize>)
        ensures
            match r {
                Some(i) => i < self.entries@.len() && self.entries@[i as int].0@ == key@,
                None => forall|i: int|
                    0 <= i < self.entries@.len() ==> self.entries@[i].0@ != key@,
            },
    {
        let n = self.entries.len();
        let mut i: usize = 0;
        while i < n
            invariant
                i <= n,
                n == self.entries@.len(),
                forall|j: int| 0 <= j < i ==> self.entries@[j].0@ != key@,
            decreases n - i,
        {
            let pair = &self.entries[i];
            if pair.0 == *key {
                return Some(i);
            }
            i = i + 1;
        }
        None
    }

    /// Bind `key` to `value`, replacing any earlier binding of the same key.
    pub fn insert(&mut self, key: String, value: T)
        requires
            old(self).wf(),
        ensures
            final(self).wf(),
            final(self)@ == old(self)@.insert(key@, value),
    {
        let ghost s0 = self.entries@;
        match self.find(&key) {
            Some(i) => {
                proof {
                    lemma_map_of_remove(s0, i as int);
                }
                self.entries.remove(i);
                let ghost s1 = self.entries@;
                proof {
                    assert forall|p: int, q: int| 0 <= p < q < s1.len() implies s1[p].0@
                        != s1[q].0@ by {
                        // each index of the shortened sequence comes from an
                        // index of the original other than `i`
                        assert(s1[p] == if p < i as int {
                            s0[p]
                        } else {
                            s0[p + 1]
                        });
                        assert(s1[q] == if q < i as int {
                            s0[q]
                        } else {
                            s0[q + 1]
                        });
                    }
                    assert forall|j: int| 0 <= j < s1.len() implies s1[j].0@ != key@ by {
                        assert(s1[j] == if j < i as int {
                            s0[j]
                        } else {
                            s0[j + 1]
                        });
                    }
                    lemma_map_of_push(s1, key, value);
                }
                self.entries.push((key, value));
                proof {
                    assert(map_of(s0).remove(key@).insert(key@, value) =~= map_of(s0).insert(
                        key@,
                        value,
                    ));
                }
            },
            None => {
                proof {
                    lemma_map_of_push(s0, key, value);
                }
                self.entries.push((key, value));
            },
        }
    }

    /// Unbind `key`, returning the value it was bound to, when any.
    pub fn remove(&mut self, key: &str) -> (r: Option<T>)
        requires
            old(self).wf(),
        ensures
            final(self).wf(),
            final(self)@ == old(self)@.remove(key@),
            match r {
                Some(v) => old(self)@.contains_key(key@) && v == old(self)@[key@],
                None => !old(self)@.contains_key(key@),
            },
    {
        let ghost s0 = self.entries@;
        let owned = key.to_owned();
        match self.find(&owned) {
            Some(i) => {
                proof {
                    lemma_map_of_index(s0, i as int);
                    lemma_map_of_remove(s0, i as int);
                }
                let pair = self.entries.remove(i);
                let ghost s1 = self.entries@;
                proof {
                    assert forall|p: int, q: int| 0 <= p < q < s1.len() implies s1[p].0@
                        != s1[q].0@ by {
                        assert(s1[p] == if p < i as int {
                            s0[p]
                        } else {
                            s0[p + 1]
                        });
                        assert(s1[q] == if q < i as int {
                            s0[q]
                        } else {
                            s0[q + 1]
                        });
                    }
                }
                Some(pair.1)
            },
            None => {
                proof {
                    lemma_map_of_contains(s0, key@);
                    assert(map_of(s0).remove(key@) =~= map_of(s0));
                }
                None
            },
        }
    }

    /// The entries as key-value pairs, for enumeration and encoding.
    pub fn entries(&self) -> (r: &Vec<(String, T)>)
        requires
            self.wf(),
        ensures
            entry_keys_unique(r@),
            map_of(r@) == self@,
    {
        &self.entries
    }
}

impl<T> Default for Store<T> {
    /// An empty container.
    fn default() -> (r: Store<T>)
        ensures
            r@ == Map::<Seq<char>, T>::empty(),
            r.wf(),
    {
        Store { entries: Vec::new() }
    }
}

} // verus!
