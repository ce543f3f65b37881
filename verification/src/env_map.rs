//! An ordered key-value mapping with first-class iteration order.
//!
//! Flattening an env file and merging values back into one both work over
//! such a mapping. Keys are unique; iteration follows insertion order, which
//! makes the rows appended by a merge deterministic.

use vstd::prelude::*;

verus! {

/// One key-value pair of an [`EnvMap`].
#[derive(Debug, Eq, PartialEq, Clone)]
pub struct EnvEntry {
    pub key: String,
    pub value: String,
}

/// An ordered mapping from names to values.
#[derive(Debug, Eq, PartialEq)]
pub struct EnvMap {
    entries: Vec<EnvEntry>,
}

impl View for EnvMap {
    type V = Seq<(Seq<char>, Seq<char>)>;

    closed spec fn view(&self) -> Seq<(Seq<char>, Seq<char>)> {
        self.entries@.map_values(|e: EnvEntry| (e.key@, e.value@))
    }
}

/// Whether some pair of `m` has key `k`.
pub open spec fn has_key(m: Seq<(Seq<char>, Seq<char>)>, k: Seq<char>) -> bool {
    exists|i: int| 0 <= i < m.len() && (#[trigger] m[i]).0 == k
}

/// The index of the first pair of `m` whose key is `k`, or `m.len()`.
pub open spec fn key_index(m: Seq<(Seq<char>, Seq<char>)>, k: Seq<char>) -> int
    decreases m.len(),
{
    if m.len() == 0 {
        0
    } else if m[0].0 == k {
        0
    } else {
        1 + key_index(m.skip(1), k)
    }
}

/// The value bound to `k` in `m`, going by the first pair with that key.
pub open spec fn map_get(m: Seq<(Seq<char>, Seq<char>)>, k: Seq<char>) -> Option<Seq<char>> {
    if has_key(m, k) {
        Some(m[key_index(m, k)].1)
    } else {
        None
    }
}

/// `m` with `k` bound to `v`: the first pair with key `k` is updated in
/// place, or a new pair is appended at the end.
pub open spec fn map_insert(
    m: Seq<(Seq<char>, Seq<char>)>,
    k: Seq<char>,
    v: Seq<char>,
) -> Seq<(Seq<char>, Seq<char>)> {
    if has_key(m, k) {
        m.update(key_index(m, k), (k, v))
    } else {
        m.push((k, v))
    }
}

/// `m` without its first pair keyed `k`; `m` itself when no pair has key `k`.
pub open spec fn map_remove(
    m: Seq<(Seq<char>, Seq<char>)>,
    k: Seq<char>,
) -> Seq<(Seq<char>, Seq<char>)> {
    if has_key(m, k) {
        m.remove(key_index(m, k))
    } else {
        m
    }
}

/// No two pairs of `m` share a key.
pub open spec fn unique_keys(m: Seq<(Seq<char>, Seq<char>)>) -> bool {
    forall|i: int, j: int| 0 <= i < j < m.len() ==> (#[trigger] m[i]).0 != (#[trigger] m[j]).0
}

/// `key_index` names the first index holding `k`, and lies in range exactly
/// when `k` occurs.
pub proof fn lemma_key_index(m: Seq<(Seq<char>, Seq<char>)>, k: Seq<char>)
    ensures
        0 <= key_index(m, k) <= m.len(),
        has_key(m, k) <==> key_index(m, k) < m.len(),
        key_index(m, k) < m.len() ==> m[key_index(m, k)].0 == k,
        forall|j: int| 0 <= j < key_index(m, k) ==> (#[trigger] m[j]).0 != k,
    decreases m.len(),
{
    if m.len() == 0 {
    } else if m[0].0 == k {
    } else {
        let s = m.skip(1);
        lemma_key_index(s, k);
        assert(forall|i: int| 0 <= i < s.len() ==> #[trigger] s[i] == m[i + 1]);
        if has_key(m, k) {
            let w = choose|i: int| 0 <= i < m.len() && (#[trigger] m[i]).0 == k;
            assert(s[w - 1] == m[w]);
            assert(has_key(s, k));
        }
        if has_key(s, k) {
            let w = choose|i: int| 0 <= i < s.len() && (#[trigger] s[i]).0 == k;
            assert(m[w + 1].0 == k);
            assert(has_key(m, k));
        }
        assert forall|j: int| 0 <= j < key_index(m, k) implies (#[trigger] m[j]).0 != k by {
            if j >= 1 {
                assert(m[j] == s[j - 1]);
            }
        }
    }
}

/// Inserting keeps keys unique, and reads back as expected.
pub proof fn lemma_map_insert(m: Seq<(Seq<char>, Seq<char>)>, k: Seq<char>, v: Seq<char>)
    requires
        unique_keys(m),
    ensures
        unique_keys(map_insert(m, k, v)),
        map_get(map_insert(m, k, v), k) == Some(v),
        forall|k2: Seq<char>| k2 != k ==> map_get(map_insert(m, k, v), k2) == map_get(m, k2),
{
    lemma_key_index(m, k);
    let m2 = map_insert(m, k, v);
    assert forall|k2: Seq<char>| true implies
        (k2 == k ==> map_get(m2, k2) == Some(v))
        && (k2 != k ==> map_get(m2, k2) == map_get(m, k2)) by {
        lemma_key_index(m2, k2);
        lemma_key_index(m, k2);
        if has_key(m, k) {
            // update in place: other indices unchanged
            let i = key_index(m, k);
            if k2 == k {
                assert(m2[i].0 == k);
                assert(key_index(m2, k2) == i) by {
                    if key_index(m2, k2) < i {
                        assert(m2[key_index(m2, k2)] == m[key_index(m2, k2)]);
                    }
                    if key_index(m2, k2) > i {
                        assert(forall|j: int| 0 <= j < key_index(m2, k2) ==>
                            (#[trigger] m2[j]).0 != k2);
                    }
                }
            } else {
                if has_key(m2, k2) {
                    let j2 = key_index(m2, k2);
                    assert(m2[j2].0 == k2);
                    assert(j2 != i);
                    assert(m[j2] == m2[j2]);
                    assert(has_key(m, k2));
                    assert(key_index(m, k2) == j2) by {
                        if key_index(m, k2) < j2 {
                            let j1 = key_index(m, k2);
                            if j1 == i {
                                assert(m[i].0 == k);
                            } else {
                                assert(m2[j1] == m[j1]);
                            }
                        }
                    }
                }
                if has_key(m, k2) {
                    let j2 = key_index(m, k2);
                    assert(m[j2].0 == k2);
                    assert(j2 != i);
                    assert(m2[j2] == m[j2]);
                    assert(has_key(m2, k2));
                }
            }
        } else {
            // appended at the end
            if k2 == k {
                assert(m2[m.len() as int].0 == k);
                assert(key_index(m2, k2) == m.len()) by {
                    if key_index(m2, k2) < m.len() {
                        assert(m2[key_index(m2, k2)] == m[key_index(m2, k2)]);
                        assert(has_key(m, k));
                    }
                }
            } else {
                if has_key(m2, k2) {
                    let j2 = key_index(m2, k2);
                    assert(m2[j2].0 == k2);
                    assert(j2 < m.len());
                    assert(m[j2] == m2[j2]);
                    assert(has_key(m, k2));
                    assert(key_index(m, k2) == j2) by {
                        if key_index(m, k2) < j2 {
                            assert(m2[key_index(m, k2)] == m[key_index(m, k2)]);
                        }
                    }
                }
                if has_key(m, k2) {
                    let j2 = key_index(m, k2);
                    assert(m2[j2] == m[j2]);
                    assert(has_key(m2, k2));
                }
            }
        }
    }
    assert forall|i: int, j: int| 0 <= i < j < m2.len() implies
        (#[trigger] m2[i]).0 != (#[trigger] m2[j]).0 by {
        if has_key(m, k) {
            let t = key_index(m, k);
            assert(m[t].0 == k);
            if i != t && j != t {
                assert(m2[i] == m[i] && m2[j] == m[j]);
            } else if i == t {
                assert(m2[j] == m[j]);
                assert(m[t].0 == m2[i].0);
            } else {
                assert(m2[i] == m[i]);
                assert(m[t].0 == m2[j].0);
            }
        } else {
            if j == m.len() {
                assert(m2[i] == m[i]);
                assert(!(m[i].0 == k));
            } else {
                assert(m2[i] == m[i] && m2[j] == m[j]);
            }
        }
    }
}

/// Removing one key leaves every other key bound as before.
pub proof fn lemma_map_remove_other(m: Seq<(Seq<char>, Seq<char>)>, k: Seq<char>, n: Seq<char>)
    requires
        k != n,
    ensures
        has_key(map_remove(m, k), n) == has_key(m, n),
        map_get(map_remove(m, k), n) == map_get(m, n),
{
    if has_key(m, k) {
        lemma_key_index(m, k);
        let t = key_index(m, k);
        let m2 = m.remove(t);
        assert(forall|j: int| 0 <= j < t ==> #[trigger] m2[j] == m[j]);
        assert(forall|j: int| t <= j < m2.len() ==> #[trigger] m2[j] == m[j + 1]);
        lemma_key_index(m, n);
        lemma_key_index(m2, n);
        if has_key(m, n) {
            let i = key_index(m, n);
            assert(m[i].0 == n);
            assert(i != t);
            if i < t {
                assert(m2[i] == m[i]);
                assert(has_key(m2, n));
                assert(key_index(m2, n) == i) by {
                    if key_index(m2, n) < i {
                        let w = key_index(m2, n);
                        if w < t {
                            assert(m2[w] == m[w]);
                        } else {
                            assert(m2[w] == m[w + 1]);
                        }
                    }
                }
            } else {
                assert(m2[i - 1] == m[i]);
                assert(has_key(m2, n));
                assert(key_index(m2, n) == i - 1) by {
                    if key_index(m2, n) < i - 1 {
                        let w = key_index(m2, n);
                        if w < t {
                            assert(m2[w] == m[w]);
                        } else {
                            assert(m2[w] == m[w + 1]);
                        }
                    }
                }
            }
        } else {
            if has_key(m2, n) {
                let w = key_index(m2, n);
                assert(m2[w].0 == n);
                if w < t {
                    assert(m2[w] == m[w]);
                } else {
                    assert(m2[w] == m[w + 1]);
                }
                assert(has_key(m, n));
            }
        }
    }
}

/// Removing a key from a duplicate-free mapping unbinds it and keeps the
/// rest duplicate-free.
pub proof fn lemma_map_remove_unique(m: Seq<(Seq<char>, Seq<char>)>, k: Seq<char>)
    requires
        unique_keys(m),
    ensures
        unique_keys(map_remove(m, k)),
        !has_key(map_remove(m, k), k),
        has_key(m, k) ==> map_remove(m, k).len() == m.len() - 1,
        !has_key(m, k) ==> map_remove(m, k) == m,
{
    if has_key(m, k) {
        lemma_key_index(m, k);
        let t = key_index(m, k);
        let m2 = m.remove(t);
        assert(forall|j: int| 0 <= j < t ==> #[trigger] m2[j] == m[j]);
        assert(forall|j: int| t <= j < m2.len() ==> #[trigger] m2[j] == m[j + 1]);
        assert forall|i: int, j: int| 0 <= i < j < m2.len() implies (#[trigger] m2[i]).0
            != (#[trigger] m2[j]).0 by {
            if i < t && j < t {
            } else if i < t {
                assert(m2[j] == m[j + 1]);
            } else {
                assert(m2[i] == m[i + 1]);
                assert(m2[j] == m[j + 1]);
            }
        }
        assert forall|j: int| 0 <= j < m2.len() implies (#[trigger] m2[j]).0 != k by {
            if j < t {
                assert(m2[j] == m[j]);
            } else {
                assert(m2[j] == m[j + 1]);
                assert(m[t].0 == k);
            }
        }
    }
}

impl EnvMap {
    /// The empty mapping.
    pub fn new() -> (r: EnvMap)
        ensures
            r@ == Seq::<(Seq<char>, Seq<char>)>::empty(),
            unique_keys(r@),
    {
        let r = EnvMap { entries: Vec::new() };
        proof {
            assert(r@ =~= Seq::<(Seq<char>, Seq<char>)>::empty());
        }
        r
    }

    /// How many pairs the mapping holds.
    pub fn len(&self) -> (r: usize)
        ensures
            r == self@.len(),
    {
        self.entries.len()
    }

    /// Whether the mapping holds no pair.
    pub fn is_empty(&self) -> (r: bool)
        ensures
            r == (self@.len() == 0),
    {
        self.entries.len() == 0
    }

    /// The pair at position `i`, in iteration order.
    pub fn entry_at(&self, i: usize) -> (r: (&String, &String))
        requires
            i < self@.len(),
        ensures
            (r.0@, r.1@) == self@[i as int],
    {
        let e = &self.entries[i];
        (&e.key, &e.value)
    }

    /// The position of the first pair keyed `k`, if any.
    fn find(&self, k: &str) -> (r: usize)
        ensures
            r == key_index(self@, k@),
    {
        let n = self.entries.len();
        let mut i: usize = 0;
        proof {
            lemma_key_index(self@, k@);
        }
        while i < n
            invariant
                n == self@.len(),
                i <= n,
                forall|j: int| 0 <= j < i ==> (#[trigger] self@[j]).0 != k@,
                key_index(self@, k@) >= i,
            decreases n - i,
        {
            if crate::chars::str_eq(self.entries[i].key.as_str(), k) {
                proof {
                    lemma_key_index(self@, k@);
                    assert(self@[i as int].0 == k@);
                    assert(has_key(self@, k@));
                }
                return i;
            }
            i = i + 1;
            proof {
                lemma_key_index(self@, k@);
                if has_key(self@, k@) && key_index(self@, k@) < i {
                    assert(self@[key_index(self@, k@)].0 == k@);
                }
            }
        }
        proof {
            lemma_key_index(self@, k@);
        }
        i
    }

    /// Whether `k` is bound.
    pub fn contains_key(&self, k: &str) -> (r: bool)
        ensures
            r == has_key(self@, k@),
    {
        proof {
            lemma_key_index(self@, k@);
        }
        self.find(k) < self.entries.len()
    }

    /// The value bound to `k`, if any.
    pub fn get(&self, k: &str) -> (r: Option<&String>)
        ensures
            match r {
                Some(v) => map_get(self@, k@) == Some(v@),
                None => map_get(self@, k@) is None,
            },
    {
        proof {
            lemma_key_index(self@, k@);
        }
        let i = self.find(k);
        if i < self.entries.len() {
            Some(&self.entries[i].value)
        } else {
            None
        }
    }

    /// Binds `k` to `v`: updates the first pair keyed `k`, or appends one.
    pub fn insert(&mut self, k: String, v: String)
        ensures
            final(self)@ == map_insert(old(self)@, k@, v@),
    {
        proof {
            lemma_key_index(self@, k@);
        }
        let i = self.find(&k);
        if i < self.entries.len() {
            self.entries.remove(i);
            self.entries.insert(i, EnvEntry { key: k, value: v });
            proof {
                assert(self@ =~= map_insert(old(self)@, k@, v@));
            }
        } else {
            self.entries.push(EnvEntry { key: k, value: v });
            proof {
                assert(self@ =~= map_insert(old(self)@, k@, v@));
            }
        }
    }

    /// Unbinds `k`: removes the first pair keyed `k`, if any.
    pub fn remove(&mut self, k: &str)
        ensures
            final(self)@ == map_remove(old(self)@, k@),
    {
        proof {
            lemma_key_index(self@, k@);
        }
        let i = self.find(k);
        if i < self.entries.len() {
            self.entries.remove(i);
            proof {
                assert(self@ =~= map_remove(old(self)@, k@));
            }
        } else {
            proof {
                assert(self@ =~= map_remove(old(self)@, k@));
            }
        }
    }

    /// A copy with the same pairs in the same order.
    pub fn duplicate(&self) -> (r: EnvMap)
        ensures
            r@ == self@,
    {
        let n = self.entries.len();
        let mut entries: Vec<EnvEntry> = Vec::new();
        let mut i: usize = 0;
        while i < n
            invariant
                n == self.entries@.len(),
                i <= n,
                entries@.len() == i as int,
                forall|j: int| 0 <= j < i ==> (#[trigger] entries@[j]).key@ == self.entries@[j].key@
                    && entries@[j].value@ == self.entries@[j].value@,
            decreases n - i,
        {
            let e = &self.entries[i];
            entries.push(EnvEntry { key: e.key.clone(), value: e.value.clone() });
            i = i + 1;
        }
        let r = EnvMap { entries };
        proof {
            assert(r@ =~= self@);
        }
        r
    }
}

} // verus!
