//! A bounded cache that evicts its least recently used entries.
use vstd::prelude::*;
use vstd::laws_eq::obeys_concrete_eq;

verus! {

/// The index of the first entry of `s` whose key is `k`, or -1.
pub open spec fn key_index<K, V>(s: Seq<(K, V)>, k: K) -> int
    decreases s.len(),
{
    if s.len() == 0 {
        -1
    } else if s[0].0 == k {
        0
    } else {
        let r = key_index(s.drop_first(), k);
        if r < 0 {
            -1
        } else {
            r + 1
        }
    }
}

/// `s` without the entry at `i`, or `s` itself when `i` is -1.
pub open spec fn without_index<K, V>(s: Seq<(K, V)>, i: int) -> Seq<(K, V)> {
    if i < 0 {
        s
    } else {
        s.remove(i)
    }
}

/// `s` with the entry at `i` moved to the front.
pub open spec fn to_front<K, V>(s: Seq<(K, V)>, i: int) -> Seq<(K, V)> {
    seq![s[i]] + s.remove(i)
}

/// The first `n` entries of `s`, or all of them when there are fewer.
pub open spec fn truncated<K, V>(s: Seq<(K, V)>, n: int) -> Seq<(K, V)> {
    if s.len() <= n {
        s
    } else {
        s.take(n)
    }
}

/// Whether no two entries of `s` share a key.
pub open spec fn keys_unique<K, V>(s: Seq<(K, V)>) -> bool {
    forall|i: int, j: int| 0 <= i < s.len() && 0 <= j < s.len() && i != j ==> s[i].0 != s[j].0
}

pub proof fn lemma_key_index<K, V>(s: Seq<(K, V)>, k: K)
    ensures
        -1 <= key_index(s, k) < s.len(),
        key_index(s, k) >= 0 ==> s[key_index(s, k)].0 == k,
        key_index(s, k) >= 0 ==> forall|j: int| 0 <= j < key_index(s, k) ==> s[j].0 != k,
        key_index(s, k) < 0 ==> forall|j: int| 0 <= j < s.len() ==> s[j].0 != k,
    decreases s.len(),
{
    if s.len() > 0 && s[0].0 != k {
        lemma_key_index(s.drop_first(), k);
        assert forall|j: int| 1 <= j < s.len() implies s[j] == s.drop_first()[j - 1] by {}
    }
}

/// A cache of at most `max_size` entries, ordered from the most to the
/// least recently used; entries pushed out are handed to `on_delete`.
pub struct Cache<K, V, F> {
    entries: Vec<(K, V)>,
    max_size: usize,
    on_delete: Option<F>,
}

impl<K, V, F: Fn(&K, &V)> View for Cache<K, V, F> {
    type V = Seq<(K, V)>;

    closed spec fn view(&self) -> Seq<(K, V)> {
        self.entries@
    }
}

impl<K: PartialEq, V, F: Fn(&K, &V)> Cache<K, V, F> {
    /// The largest number of entries kept.
    pub closed spec fn max(&self) -> usize {
        self.max_size
    }

    /// Keys are unique, the bound holds and the deletion callback accepts
    /// every entry.
    pub closed spec fn wf(&self) -> bool {
        &&& keys_unique(self.entries@)
        &&& self.entries@.len() <= self.max_size
        &&& self.on_delete matches Some(f) ==> forall|k: &K, v: &V| f.requires((k, v))
    }

    /// An empty cache of at most `max_size` entries.
    pub fn new(max_size: usize, on_delete: Option<F>) -> (r: Self)
        requires
            on_delete matches Some(f) ==> forall|k: &K, v: &V| f.requires((k, v)),
        ensures
            r.wf(),
            r@ == Seq::<(K, V)>::empty(),
            r.max() == max_size,
    {
        Cache { entries: Vec::new(), max_size, on_delete }
    }

    /// The number of entries.
    pub fn len(&self) -> (r: usize)
        ensures
            r == self@.len(),
    {
        self.entries.len()
    }

    /// Whether the cache holds no entry.
    pub fn is_empty(&self) -> (r: bool)
        ensures
            r == (self@.len() == 0),
    {
        self.entries.len() == 0
    }

    fn find(&self, key: &K) -> (r: Option<usize>)
        requires
            obeys_concrete_eq::<K>(),
        ensures
            match r {
                Some(i) => key_index(self@, *key) == i,
                None => key_index(self@, *key) == -1,
            },
    {
        proof {
            lemma_key_index(self@, *key);
            reveal(obeys_concrete_eq);
        }
        let mut i: usize = 0;
        while i < self.entries.len()
            invariant
                i <= self.entries@.len(),
                forall|j: int| 0 <= j < i ==> self.entries@[j].0 != *key,
                obeys_concrete_eq::<K>(),
            decreases self.entries@.len() - i,
        {
            proof {
                reveal(obeys_concrete_eq);
            }
            if self.entries[i].0.eq(key) {
                proof {
                    assert(self.entries@[i as int].0 == *key);
                    lemma_key_index(self@, *key);
                }
                return Some(i);
            }
            i = i + 1;
        }
        None
    }

    /// Hands an entry that leaves the cache to the deletion callback.
    fn notify(&self, key: &K, value: &V)
        requires
            self.on_delete matches Some(f) ==> forall|k: &K, v: &V| f.requires((k, v)),
    {
        match &self.on_delete {
            Some(f) => {
                f(key, value);
            },
            None => {},
        }
    }

    /// Stores `value` under `key` as the most recently used entry, replacing
    /// an entry with the same key, then drops the least recently used
    /// entries beyond the bound, handing each to the callback.
    pub fn set(&mut self, key: K, value: V)
        requires
            old(self).wf(),
            obeys_concrete_eq::<K>(),
        ensures
            final(self).wf(),
            final(self).max() == old(self).max(),
            final(self)@ == truncated(seq![(key, value)] + without_index(
                old(self)@,
                key_index(old(self)@, key),
            ), old(self).max() as int),
    {
        let ghost k = key;
        let ghost v = value;
        proof {
            lemma_key_index(old(self)@, key);
        }
        match self.find(&key) {
            Some(i) => {
                let _old = self.entries.remove(i);
            },
            None => {},
        }
        self.entries.insert(0, (key, value));
        let ghost full = self.entries@;
        proof {
            assert(full =~= seq![(k, v)] + without_index(old(self)@, key_index(old(self)@, k)));
            assert(keys_unique(full)) by {
                assert forall|a: int, b: int|
                    0 <= a < full.len() && 0 <= b < full.len() && a != b implies full[a].0
                    != full[b].0 by {
                    let i = key_index(old(self)@, k);
                    let s = old(self)@;
                    if a > 0 && b > 0 {
                        if i >= 0 {
                            let a1 = if a - 1 < i { a - 1 } else { a };
                            let b1 = if b - 1 < i { b - 1 } else { b };
                            assert(full[a] == s[a1]);
                            assert(full[b] == s[b1]);
                        } else {
                            assert(full[a] == s[a - 1]);
                        }
                    } else {
                        let c = if a == 0 { b } else { a };
                        if i >= 0 {
                            let c1 = if c - 1 < i { c - 1 } else { c };
                            assert(full[c] == s[c1]);
                        } else {
                            assert(full[c] == s[c - 1]);
                        }
                    }
                }
            }
        }
        while self.entries.len() > self.max_size
            invariant
                keys_unique(self.entries@),
                self.max_size == old(self).max_size,
                self.on_delete == old(self).on_delete,
                old(self).wf(),
                self.entries@.len() <= full.len(),
                self.entries@.len() == full.len() || self.entries@.len() >= self.max_size,
                self.entries@ == full.take(self.entries@.len() as int),
            decreases self.entries@.len(),
        {
            let (ok, ov) = self.entries.pop().unwrap();
            proof {
                assert(self.entries@ =~= full.take(self.entries@.len() as int));
            }
            self.notify(&ok, &ov);
        }
        proof {
            assert(self.entries@ =~= truncated(full, self.max_size as int));
        }
    }

    /// The value stored under `key`, which becomes the most recently used
    /// entry.
    pub fn get(&mut self, key: &K) -> (r: Option<&V>)
        requires
            old(self).wf(),
            obeys_concrete_eq::<K>(),
        ensures
            final(self).wf(),
            final(self).max() == old(self).max(),
            ({
                let i = key_index(old(self)@, *key);
                if i >= 0 {
                    &&& final(self)@ == to_front(old(self)@, i)
                    &&& r matches Some(v) && *v == old(self)@[i].1
                } else {
                    &&& final(self)@ == old(self)@
                    &&& r is None
                }
            }),
    {
        proof {
            lemma_key_index(old(self)@, *key);
        }
        match self.find(key) {
            Some(i) => {
                let e = self.entries.remove(i);
                self.entries.insert(0, e);
                proof {
                    let s = old(self)@;
                    assert(self.entries@ =~= to_front(s, i as int));
                    lemma_to_front_unique(s, i as int);
                }
                Some(&self.entries[0].1)
            },
            None => None,
        }
    }

    /// A mutable reference to the value stored under `key`, which becomes
    /// the most recently used entry.
    pub fn get_mut(&mut self, key: &K) -> (r: Option<&mut V>)
        requires
            old(self).wf(),
            obeys_concrete_eq::<K>(),
        ensures
            final(self).max() == old(self).max(),
            ({
                let i = key_index(old(self)@, *key);
                if i >= 0 {
                    &&& r matches Some(v) && *v == old(self)@[i].1
                    &&& final(self)@ == to_front(old(self)@, i).update(
                        0,
                        (old(self)@[i].0, *final(r->Some_0)),
                    )
                } else {
                    &&& final(self)@ == old(self)@
                    &&& r is None
                }
            }),
    {
        proof {
            lemma_key_index(old(self)@, *key);
        }
        match self.find(key) {
            Some(i) => {
                let e = self.entries.remove(i);
                self.entries.insert(0, e);
                match self.entries.as_mut_slice().first_mut() {
                    Some(first) => Some(&mut first.1),
                    None => None,
                }
            },
            None => None,
        }
    }

    /// Removes the entry stored under `key`, handing it to the callback;
    /// whether there was one.
    pub fn delete(&mut self, key: &K) -> (r: bool)
        requires
            old(self).wf(),
            obeys_concrete_eq::<K>(),
        ensures
            final(self).wf(),
            final(self).max() == old(self).max(),
            r == (key_index(old(self)@, *key) >= 0),
            final(self)@ == without_index(old(self)@, key_index(old(self)@, *key)),
    {
        proof {
            lemma_key_index(old(self)@, *key);
        }
        match self.find(key) {
            Some(i) => {
                let (ok, ov) = self.entries.remove(i);
                proof {
                    let s = old(self)@;
                    assert forall|a: int, b: int|
                        0 <= a < self.entries@.len() && 0 <= b < self.entries@.len() && a
                            != b implies self.entries@[a].0 != self.entries@[b].0 by {
                        let a1 = if a < i { a } else { a + 1 };
                        let b1 = if b < i { b } else { b + 1 };
                        assert(self.entries@[a] == s[a1]);
                        assert(self.entries@[b] == s[b1]);
                    }
                }
                self.notify(&ok, &ov);
                true
            },
            None => false,
        }
    }
}

/// Moving an entry to the front keeps keys unique.
pub proof fn lemma_to_front_unique<K, V>(s: Seq<(K, V)>, i: int)
    requires
        keys_unique(s),
        0 <= i < s.len(),
    ensures
        keys_unique(to_front(s, i)),
        to_front(s, i).len() == s.len(),
{
    let t = to_front(s, i);
    assert forall|a: int, b: int|
        0 <= a < t.len() && 0 <= b < t.len() && a != b implies t[a].0 != t[b].0 by {
        let a1 = if a == 0 { i } else if a - 1 < i { a - 1 } else { a };
        let b1 = if b == 0 { i } else if b - 1 < i { b - 1 } else { b };
        assert(t[a] == s[a1]);
        assert(t[b] == s[b1]);
    }
}

} // verus!
