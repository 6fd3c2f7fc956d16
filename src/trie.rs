//! A map from path prefixes to values that answers exact lookups and
//! nearest-enclosing-ancestor lookups.
//!
//! Every key is a path's canonical string with a separator forced at its
//! end, so that a stored key is a prefix of a probe exactly when the
//! stored path encloses the probed one (`/ab/` is no prefix of `/abc/`).
//! A radix trie indexes the key strings; each holds the slot of its entry.

use vstd::prelude::*;
use vstd::string::StrSliceExecFns;
use vstd::string::StringExecFns;

use crate::lexical::ends_with_sep;
use crate::path::Path;

verus! {

#[verifier::external_type_specification]
#[verifier::external_body]
#[verifier::reject_recursive_types(K)]
#[verifier::reject_recursive_types(V)]
pub struct ExRadixTrie<K, V>(radix_trie::Trie<K, V>);

/// The slot that a radix trie holds under each key string.
pub uninterp spec fn slots(t: radix_trie::Trie<String, usize>) -> Map<Seq<char>, usize>;

/// Relies on `radix_trie::Trie::new`: a trie with no keys.
#[verifier::external_body]
fn radix_new() -> (r: radix_trie::Trie<String, usize>)
    ensures
        forall|k: Seq<char>| !#[trigger] slots(r).dom().contains(k),
{
    radix_trie::Trie::new()
}

/// Relies on `radix_trie::Trie::get`: the value stored under exactly `k`.
#[verifier::external_body]
fn radix_get(t: &radix_trie::Trie<String, usize>, k: &String) -> (r: Option<usize>)
    ensures
        r == if slots(*t).dom().contains(k@) {
            Some(slots(*t)[k@])
        } else {
            None
        },
{
    t.get(k).copied()
}

/// Relies on `radix_trie::Trie::insert`: stores `v` under `k` and hands back
/// the value that it displaced.
#[verifier::external_body]
fn radix_insert(t: &mut radix_trie::Trie<String, usize>, k: String, v: usize) -> (r: Option<usize>)
    ensures
        slots(*final(t)) == slots(*old(t)).insert(k@, v),
        r == if slots(*old(t)).dom().contains(k@) {
            Some(slots(*old(t))[k@])
        } else {
            None
        },
{
    t.insert(k, v)
}

/// Relies on `radix_trie::Trie::remove`: drops the key `k` and hands back its
/// value.
#[verifier::external_body]
fn radix_remove(t: &mut radix_trie::Trie<String, usize>, k: &String) -> (r: Option<usize>)
    ensures
        slots(*final(t)) == slots(*old(t)).remove(k@),
        r == if slots(*old(t)).dom().contains(k@) {
            Some(slots(*old(t))[k@])
        } else {
            None
        },
{
    t.remove(k)
}

/// Relies on `radix_trie::Trie::get_ancestor_value`: the value of the longest
/// stored key whose bytes start the bytes of `k`. For strings, a byte prefix
/// is a character prefix, as UTF-8 is prefix-free.
#[verifier::external_body]
fn radix_ancestor(t: &radix_trie::Trie<String, usize>, k: &String) -> (r: Option<usize>)
    ensures
        match r {
            Some(v) => exists|q: Seq<char>|
                #[trigger] is_longest_ancestor(slots(*t).dom(), k@, q) && slots(*t)[q] == v,
            None => !has_ancestor(slots(*t).dom(), k@),
        },
{
    t.get_ancestor_value(k).copied()
}

/// Whether some key in `keys` is a prefix of `probe`.
pub open spec fn has_ancestor(keys: Set<Seq<char>>, probe: Seq<char>) -> bool {
    exists|q: Seq<char>| keys.contains(q) && q.is_prefix_of(probe)
}

/// Whether `q` is a key in `keys` that is a prefix of `probe`, and no
/// other such key is longer.
pub open spec fn is_longest_ancestor(keys: Set<Seq<char>>, probe: Seq<char>, q: Seq<char>) -> bool {
    &&& keys.contains(q)
    &&& q.is_prefix_of(probe)
    &&& forall|q2: Seq<char>| keys.contains(q2) && q2.is_prefix_of(probe) ==> q2.len() <= q.len()
}

/// The longest key in `keys` that is a prefix of `probe`.
pub open spec fn ancestor_of(keys: Set<Seq<char>>, probe: Seq<char>) -> Seq<char> {
    choose|q: Seq<char>| is_longest_ancestor(keys, probe, q)
}

/// Two prefixes of one sequence with the same length are equal.
pub proof fn lemma_prefixes_eq(p: Seq<char>, q1: Seq<char>, q2: Seq<char>)
    requires
        q1.is_prefix_of(p),
        q2.is_prefix_of(p),
        q1.len() == q2.len(),
    ensures
        q1 == q2,
{
    assert forall|i: int| 0 <= i < q1.len() implies q1[i] == q2[i] by {
        assert(q1[i] == p[i]);
        assert(q2[i] == p[i]);
    }
    assert(q1 =~= q2);
}

/// There is at most one longest ancestor, and where one exists it is
/// `ancestor_of`.
pub proof fn lemma_longest_unique(keys: Set<Seq<char>>, probe: Seq<char>, q: Seq<char>)
    requires
        is_longest_ancestor(keys, probe, q),
    ensures
        ancestor_of(keys, probe) == q,
        forall|q2: Seq<char>| #[trigger] is_longest_ancestor(keys, probe, q2) ==> q2 == q,
{
    assert forall|q2: Seq<char>| #[trigger] is_longest_ancestor(keys, probe, q2) implies q2 == q by {
        lemma_prefixes_eq(probe, q, q2);
    }
    let c = ancestor_of(keys, probe);
    assert(is_longest_ancestor(keys, probe, c));
}

/// The key under which a path is stored: its string with a separator at
/// the end.
pub open spec fn key_of(p: Seq<char>) -> Seq<char> {
    if ends_with_sep(p) {
        p
    } else {
        p.push('/')
    }
}

/// A map from paths to values, keyed by enclosing directory.
pub struct PrefixTrie<T> {
    index: radix_trie::Trie<String, usize>,
    entries: Vec<(String, Path, T)>,
}

impl<T> PrefixTrie<T> {
    pub closed spec fn wf(&self) -> bool {
        let m = slots(self.index);
        &&& forall|k: Seq<char>| #[trigger]
            m.dom().contains(k) ==> m[k] < self.entries@.len() && self.entries@[m[k] as int].0@
                == k
        &&& forall|i: int|
            0 <= i < self.entries@.len() ==> m.dom().contains(#[trigger] self.entries@[i].0@)
                && m[self.entries@[i].0@] == i
        &&& forall|i: int|
            0 <= i < self.entries@.len() ==> key_of(#[trigger] self.entries@[i].1@)
                == self.entries@[i].0@
    }

    /// What the trie holds: for each key, the path stored with it and the
    /// value.
    pub closed spec fn view(&self) -> Map<Seq<char>, (Seq<char>, T)> {
        let m = slots(self.index);
        Map::new(
            |k: Seq<char>| m.dom().contains(k),
            |k: Seq<char>| (self.entries@[m[k] as int].1@, self.entries@[m[k] as int].2),
        )
    }

    /// An empty trie.
    pub fn new() -> (r: PrefixTrie<T>)
        ensures
            r.wf(),
            r@ == Map::<Seq<char>, (Seq<char>, T)>::empty(),
    {
        let r = PrefixTrie { index: radix_new(), entries: Vec::new() };
        assert(r@ =~= Map::<Seq<char>, (Seq<char>, T)>::empty());
        assert(r.wf());
        r
    }

    fn key(&self, key: &Path) -> (r: String)
        ensures
            r@ == key_of(key@),
    {
        let s = key.as_str();
        let n = s.unicode_len();
        let mut p = String::from_str(s);
        if n == 0 || s.get_char(n - 1) != '/' {
            proof {
                reveal_strlit("/");
            }
            p.append("/");
            assert(p@ =~= key@.push('/'));
        }
        p
    }
    /// The value stored under exactly `key`'s directory-style key.
    pub fn get(&self, key: &Path) -> (r: Option<&T>)
        requires
            self.wf(),
        ensures
            match r {
                Some(v) => self@.dom().contains(key_of(key@)) && *v == self@[key_of(key@)].1,
                None => !self@.dom().contains(key_of(key@)),
            },
    {
        let k = self.key(key);
        match radix_get(&self.index, &k) {
            Some(i) => Some(&self.entries[i].2),
            None => None,
        }
    }

    /// The value stored under exactly `key`'s directory-style key, to be
    /// changed in place.
    pub fn get_mut(&mut self, key: &Path) -> (r: Option<&mut T>)
        requires
            old(self).wf(),
        ensures
            final(self).wf(),
            match r {
                Some(v) => {
                    &&& old(self)@.dom().contains(key_of(key@))
                    &&& *v == old(self)@[key_of(key@)].1
                    &&& final(self)@ == old(self)@.insert(
                        key_of(key@),
                        (old(self)@[key_of(key@)].0, *final(v)),
                    )
                },
                None => !old(self)@.dom().contains(key_of(key@)) && final(self)@ == old(self)@,
            },
    {
        let k = self.key(key);
        match radix_get(&self.index, &k) {
            Some(i) => {
                let e = &mut self.entries[i];
                Some(&mut e.2)
            },
            None => None,
        }
    }

    /// The slot of the longest stored key that encloses `key`.
    fn ancestor_slot(&self, key: &Path) -> (r: Option<usize>)
        requires
            self.wf(),
        ensures
            match r {
                Some(i) => {
                    &&& has_ancestor(self@.dom(), key_of(key@))
                    &&& i < self.entries@.len()
                    &&& self.entries@[i as int].0@ == ancestor_of(self@.dom(), key_of(key@))
                },
                None => !has_ancestor(self@.dom(), key_of(key@)),
            },
    {
        let k = self.key(key);
        let r = radix_ancestor(&self.index, &k);
        proof {
            let m = slots(self.index);
            assert(self@.dom() =~= m.dom());
            if let Some(i) = r {
                let q = choose|q: Seq<char>| #[trigger]
                    is_longest_ancestor(m.dom(), k@, q) && m[q] == i;
                lemma_longest_unique(m.dom(), k@, q);
                assert(m.dom().contains(q));
            }
        }
        r
    }

    /// The nearest enclosing entry of `key`: its key, the path stored with
    /// it, and its value.
    pub fn get_ancestor_record(&self, key: &Path) -> (r: Option<(&String, &Path, &T)>)
        requires
            self.wf(),
        ensures
            match r {
                Some((k, p, v)) => {
                    &&& is_longest_ancestor(self@.dom(), key_of(key@), k@)
                    &&& p@ == self@[k@].0
                    &&& *v == self@[k@].1
                },
                None => !has_ancestor(self@.dom(), key_of(key@)),
            },
    {
        match self.ancestor_slot(key) {
            Some(i) => {
                let e = &self.entries[i];
                proof {
                    self.lemma_ancestor(key@);
                }
                Some((&e.0, &e.1, &e.2))
            },
            None => None,
        }
    }

    /// The key of the nearest enclosing entry of `key`.
    pub fn get_ancestor_key(&self, key: &Path) -> (r: Option<&String>)
        requires
            self.wf(),
        ensures
            match r {
                Some(k) => is_longest_ancestor(self@.dom(), key_of(key@), k@),
                None => !has_ancestor(self@.dom(), key_of(key@)),
            },
    {
        match self.ancestor_slot(key) {
            Some(i) => {
                proof {
                    self.lemma_ancestor(key@);
                }
                Some(&self.entries[i].0)
            },
            None => None,
        }
    }

    /// The path stored with the nearest enclosing entry of `key`.
    pub fn get_ancestor_path(&self, key: &Path) -> (r: Option<&Path>)
        requires
            self.wf(),
        ensures
            match r {
                Some(p) => has_ancestor(self@.dom(), key_of(key@)) && p@ == self@[ancestor_of(
                    self@.dom(),
                    key_of(key@),
                )].0,
                None => !has_ancestor(self@.dom(), key_of(key@)),
            },
    {
        match self.ancestor_slot(key) {
            Some(i) => {
                proof {
                    self.lemma_ancestor(key@);
                }
                Some(&self.entries[i].1)
            },
            None => None,
        }
    }

    /// The value of the nearest enclosing entry of `key`.
    pub fn get_ancestor_value(&self, key: &Path) -> (r: Option<&T>)
        requires
            self.wf(),
        ensures
            match r {
                Some(v) => has_ancestor(self@.dom(), key_of(key@)) && *v == self@[ancestor_of(
                    self@.dom(),
                    key_of(key@),
                )].1,
                None => !has_ancestor(self@.dom(), key_of(key@)),
            },
    {
        match self.ancestor_slot(key) {
            Some(i) => {
                proof {
                    self.lemma_ancestor(key@);
                }
                Some(&self.entries[i].2)
            },
            None => None,
        }
    }

    proof fn lemma_ancestor(&self, probe: Seq<char>)
        requires
            self.wf(),
            has_ancestor(self@.dom(), key_of(probe)),
        ensures
            is_longest_ancestor(self@.dom(), key_of(probe), ancestor_of(self@.dom(), key_of(probe))),
            self@.dom().contains(ancestor_of(self@.dom(), key_of(probe))),
            self.entries@[slots(self.index)[ancestor_of(self@.dom(), key_of(probe))] as int].0@
                == ancestor_of(self@.dom(), key_of(probe)),
    {
        let keys = self@.dom();
        let p = key_of(probe);
        let q0 = choose|q: Seq<char>| keys.contains(q) && q.is_prefix_of(p);
        // Among the keys that are prefixes of `p`, one is longest: walk up
        // from `q0` by length.
        self.lemma_longest_exists(p, q0);
    }

    /// Where some stored key is a prefix of `key_of(probe)`, a longest one
    /// exists and is `ancestor_of`.
    pub proof fn lemma_ancestor_exists(&self, probe: Seq<char>)
        requires
            self.wf(),
            has_ancestor(self@.dom(), key_of(probe)),
        ensures
            is_longest_ancestor(self@.dom(), key_of(probe), ancestor_of(self@.dom(), key_of(probe))),
    {
        self.lemma_ancestor(probe);
    }

    proof fn lemma_longest_exists(&self, p: Seq<char>, q0: Seq<char>)
        requires
            self@.dom().contains(q0),
            q0.is_prefix_of(p),
        ensures
            is_longest_ancestor(self@.dom(), p, ancestor_of(self@.dom(), p)),
        decreases p.len() - q0.len(),
    {
        let keys = self@.dom();
        if exists|q: Seq<char>| keys.contains(q) && q.is_prefix_of(p) && q.len() > q0.len() {
            let q = choose|q: Seq<char>| keys.contains(q) && q.is_prefix_of(p) && q.len() > q0.len();
            self.lemma_longest_exists(p, q);
        } else {
            assert(is_longest_ancestor(keys, p, q0));
        }
    }

    /// Stores `value` under `key`'s directory-style key, together with
    /// `key` itself, and hands back the value that it displaced.
    pub fn insert(&mut self, key: Path, value: T) -> (r: Option<T>)
        requires
            old(self).wf(),
        ensures
            final(self).wf(),
            final(self)@ == old(self)@.insert(key_of(key@), (key@, value)),
            r == if old(self)@.dom().contains(key_of(key@)) {
                Some(old(self)@[key_of(key@)].1)
            } else {
                None
            },
    {
        let k = self.key(&key);
        let ghost kp = key@;
        let p = key;
        let ghost m = slots(self.index);
        let ghost kv = k@;
        match radix_get(&self.index, &k) {
            Some(i) => {
                let mut e = (k, p, value);
                std::mem::swap(&mut self.entries[i], &mut e);
                proof {
                    assert(self@ =~= old(self)@.insert(kv, (kp, value)));
                }
                Some(e.2)
            },
            None => {
                let i = self.entries.len();
                radix_insert(&mut self.index, k.clone(), i);
                self.entries.push((k, p, value));
                proof {
                    let m2 = slots(self.index);
                    assert forall|q: Seq<char>| #[trigger] m2.dom().contains(q) implies m2[q]
                        < self.entries@.len() && self.entries@[m2[q] as int].0@ == q by {
                        if q != kv {
                            assert(m.dom().contains(q));
                        }
                    }
                    assert forall|j: int| 0 <= j < self.entries@.len() implies m2.dom().contains(
                        #[trigger] self.entries@[j].0@,
                    ) && m2[self.entries@[j].0@] == j by {
                        if j < i {
                            assert(old(self).entries@[j] == self.entries@[j]);
                            assert(m[self.entries@[j].0@] == j);
                        }
                    }
                    assert(self.wf());
                    assert(self@ =~= old(self)@.insert(kv, (kp, value)));
                }
                None
            },
        }
    }

    /// Drops the entry stored under exactly `key`'s directory-style key and
    /// hands back its value.
    pub fn remove(&mut self, key: &Path) -> (r: Option<T>)
        requires
            old(self).wf(),
        ensures
            final(self).wf(),
            final(self)@ == old(self)@.remove(key_of(key@)),
            r == if old(self)@.dom().contains(key_of(key@)) {
                Some(old(self)@[key_of(key@)].1)
            } else {
                None
            },
    {
        let k = self.key(key);
        let ghost m = slots(self.index);
        let ghost kv = k@;
        match radix_remove(&mut self.index, &k) {
            Some(i) => {
                let last = self.entries.len() - 1;
                let e = self.entries.swap_remove(i);
                if i < last {
                    let moved = self.entries[i].0.clone();
                    let ghost mv = moved@;
                    radix_insert(&mut self.index, moved, i);
                    proof {
                        let m2 = slots(self.index);
                        assert(old(self).entries@[last as int].0@ == mv);
                        assert(m[mv] == last);
                        assert forall|q: Seq<char>| #[trigger] m2.dom().contains(q) implies m2[q]
                            < self.entries@.len() && self.entries@[m2[q] as int].0@ == q by {
                            if q != mv {
                                assert(m.dom().contains(q) && q != kv);
                                assert(m[q] != i);
                                assert(m[q] != last);
                            }
                        }
                        assert forall|j: int| 0 <= j < self.entries@.len() implies m2.dom().contains(
                            #[trigger] self.entries@[j].0@,
                        ) && m2[self.entries@[j].0@] == j by {
                            if j != i {
                                assert(self.entries@[j] == old(self).entries@[j]);
                                assert(m[self.entries@[j].0@] == j);
                            }
                        }
                        assert(self.wf());
                        assert(self@ =~= old(self)@.remove(kv));
                    }
                } else {
                    proof {
                        let m2 = slots(self.index);
                        assert forall|q: Seq<char>| #[trigger] m2.dom().contains(q) implies m2[q]
                            < self.entries@.len() && self.entries@[m2[q] as int].0@ == q by {
                            assert(m.dom().contains(q) && q != kv);
                            assert(m[q] != i);
                        }
                        assert forall|j: int| 0 <= j < self.entries@.len() implies m2.dom().contains(
                            #[trigger] self.entries@[j].0@,
                        ) && m2[self.entries@[j].0@] == j by {
                            assert(self.entries@[j] == old(self).entries@[j]);
                            assert(m[self.entries@[j].0@] == j);
                        }
                        assert(self.wf());
                        assert(self@ =~= old(self)@.remove(kv));
                    }
                }
                Some(e.2)
            },
            None => {
                proof {
                    assert(self@ =~= old(self)@.remove(kv));
                }
                None
            },
        }
    }
}

impl<T> Default for PrefixTrie<T> {
    fn default() -> (r: PrefixTrie<T>)
        ensures
            r.wf(),
            r@ == Map::<Seq<char>, (Seq<char>, T)>::empty(),
    {
        PrefixTrie::new()
    }
}

} // verus!
