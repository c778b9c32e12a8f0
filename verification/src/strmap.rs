//! A string-keyed map kept as a vector of entries in insertion order.
//!
//! It stands where one would otherwise reach for a hash map: the
//! attribute map of an element and the resolved property map of a styled
//! node.  `insert` overwrites the first entry with the given key, or
//! appends a new one, so keys stay unique by construction.

use vstd::prelude::*;

verus! {

/// First-match lookup among keyed entries.
pub open spec fn assoc_lookup<T>(s: Seq<(Seq<char>, T)>, k: Seq<char>) -> Option<T>
    decreases s.len(),
{
    if s.len() == 0 {
        Option::None
    } else if s[0].0 == k {
        Option::Some(s[0].1)
    } else {
        assoc_lookup(s.drop_first(), k)
    }
}

/// The entries after setting key `k` to `v`: the first entry keyed `k` is
/// replaced in place, or a new entry is appended.
pub open spec fn assoc_set<T>(s: Seq<(Seq<char>, T)>, k: Seq<char>, v: T) -> Seq<(Seq<char>, T)>
    decreases s.len(),
{
    if s.len() == 0 {
        seq![(k, v)]
    } else if s[0].0 == k {
        seq![(k, v)] + s.drop_first()
    } else {
        seq![s[0]] + assoc_set(s.drop_first(), k, v)
    }
}

/// Setting a key changes exactly that key's lookup.
pub proof fn lemma_assoc_set_lookup<T>(s: Seq<(Seq<char>, T)>, k: Seq<char>, v: T, q: Seq<char>)
    ensures
        assoc_lookup(assoc_set(s, k, v), q) == if q == k {
            Option::Some(v)
        } else {
            assoc_lookup(s, q)
        },
    decreases s.len(),
{
    let t = assoc_set(s, k, v);
    if s.len() == 0 {
        assert(t == seq![(k, v)]);
        assert(t.drop_first() =~= Seq::<(Seq<char>, T)>::empty());
        if q != k {
            assert(assoc_lookup(t, q) == assoc_lookup(t.drop_first(), q));
        }
    } else if s[0].0 == k {
        assert(t == seq![(k, v)] + s.drop_first());
        assert(t.len() > 0 && t[0] == (k, v));
        assert(t.drop_first() =~= s.drop_first());
        if q != k {
            assert(assoc_lookup(t, q) == assoc_lookup(s.drop_first(), q));
            assert(assoc_lookup(s, q) == assoc_lookup(s.drop_first(), q));
        }
    } else {
        assert(t == seq![s[0]] + assoc_set(s.drop_first(), k, v));
        assert(t.len() > 0 && t[0] == s[0]);
        assert(t.drop_first() =~= assoc_set(s.drop_first(), k, v));
        lemma_assoc_set_lookup(s.drop_first(), k, v, q);
        if s[0].0 == q {
            assert(assoc_lookup(t, q) == Option::Some(s[0].1));
            assert(assoc_lookup(s, q) == Option::Some(s[0].1));
        } else {
            assert(assoc_lookup(t, q) == assoc_lookup(t.drop_first(), q));
            assert(assoc_lookup(s, q) == assoc_lookup(s.drop_first(), q));
        }
    }
}

/// Where the scan for a key stopped, the set either replaces there or
/// appends at the end.
proof fn lemma_assoc_set_at<T>(s: Seq<(Seq<char>, T)>, k: Seq<char>, v: T, i: int)
    requires
        0 <= i <= s.len(),
        forall|m: int| 0 <= m < i ==> s[m].0 != k,
        i < s.len() ==> s[i].0 == k,
    ensures
        assoc_set(s, k, v) == if i < s.len() {
            s.update(i, (k, v))
        } else {
            s.push((k, v))
        },
    decreases i,
{
    if i == 0 {
        if s.len() == 0 {
            assert(assoc_set(s, k, v) =~= s.push((k, v)));
        } else {
            assert(assoc_set(s, k, v) =~= s.update(0, (k, v)));
        }
    } else {
        lemma_assoc_set_at(s.drop_first(), k, v, i - 1);
        if i < s.len() {
            assert(assoc_set(s, k, v) =~= s.update(i, (k, v)));
        } else {
            assert(assoc_set(s, k, v) =~= s.push((k, v)));
        }
    }
}

/// The views of keyed entries.
pub open spec fn entry_views<V: View>(v: Seq<(String, V)>) -> Seq<(Seq<char>, V::V)> {
    v.map_values(|e: (String, V)| (e.0@, e.1@))
}

/// A map from strings to values, backed by a vector of entries in
/// insertion order with unique keys.
pub struct StrMap<V> {
    entries: Vec<(String, V)>,
}

impl<V: View> View for StrMap<V> {
    type V = Seq<(Seq<char>, V::V)>;

    closed spec fn view(&self) -> Seq<(Seq<char>, V::V)> {
        entry_views(self.entries@)
    }
}

impl<V: View> StrMap<V> {
    /// The empty map.
    pub fn new() -> (r: Self)
        ensures
            r@ == Seq::<(Seq<char>, V::V)>::empty(),
    {
        let r = StrMap { entries: Vec::new() };
        proof {
            assert(r@ =~= Seq::<(Seq<char>, V::V)>::empty());
        }
        r
    }

    /// How many entries the map holds.
    pub fn len(&self) -> (r: usize)
        ensures
            r == self@.len(),
    {
        self.entries.len()
    }

    /// The entries, in insertion order.
    pub fn entries(&self) -> (r: &Vec<(String, V)>)
        ensures
            entry_views(r@) == self@,
    {
        &self.entries
    }

    /// The value under `k`, if any.
    pub fn get(&self, k: &str) -> (r: Option<&V>)
        ensures
            match r {
                Option::Some(v) => assoc_lookup(self@, k@) == Option::Some(v@),
                Option::None => assoc_lookup(self@, k@) is None,
            },
    {
        let key = String::from_str(k);
        let n = self.entries.len();
        let mut i: usize = 0;
        proof {
            assert(self@.skip(0) =~= self@);
        }
        loop
            invariant
                0 <= i <= n,
                n == self.entries@.len(),
                key@ == k@,
                assoc_lookup(self@, k@) == assoc_lookup(self@.skip(i as int), k@),
                forall|m: int| 0 <= m < i ==> self@[m].0 != k@,
            ensures
                0 <= i <= n,
                i < n ==> self@[i as int].0 == k@ && assoc_lookup(self@, k@) == Option::Some(
                    self@[i as int].1,
                ),
                i == n ==> assoc_lookup(self@, k@) is None,
            decreases n - i,
        {
            if i >= n {
                proof {
                    assert(self@.skip(i as int) =~= Seq::<(Seq<char>, V::V)>::empty());
                }
                break;
            }
            proof {
                assert(self@.skip(i as int)[0] == self@[i as int]);
                assert(self@.skip(i as int).drop_first() =~= self@.skip(i as int + 1));
            }
            if self.entries[i].0.eq(&key) {
                break;
            }
            i = i + 1;
        }
        if i < n {
            Some(&self.entries[i].1)
        } else {
            None
        }
    }

    /// Sets key `k` to `v`: the first entry keyed `k` is replaced in
    /// place, or a new entry is appended.  Exactly the lookup of `k`
    /// changes.
    pub fn insert(&mut self, k: String, v: V)
        ensures
            final(self)@ == assoc_set(old(self)@, k@, v@),
            forall|q: Seq<char>|
                assoc_lookup(final(self)@, q) == if q == k@ {
                    Option::Some(v@)
                } else {
                    assoc_lookup(old(self)@, q)
                },
    {
        proof {
            assert forall|q: Seq<char>|
                assoc_lookup(assoc_set(self@, k@, v@), q) == if q == k@ {
                    Option::Some(v@)
                } else {
                    assoc_lookup(self@, q)
                } by {
                lemma_assoc_set_lookup(self@, k@, v@, q);
            }
        }
        let ghost s = self@;
        let n = self.entries.len();
        let mut i: usize = 0;
        loop
            invariant
                0 <= i <= n,
                n == self.entries@.len(),
                s == self@,
                forall|m: int| 0 <= m < i ==> self@[m].0 != k@,
            ensures
                0 <= i <= n,
                s == self@,
                forall|m: int| 0 <= m < i ==> self@[m].0 != k@,
                i < n ==> self@[i as int].0 == k@,
            decreases n - i,
        {
            if i >= n {
                break;
            }
            if self.entries[i].0.eq(&k) {
                break;
            }
            i = i + 1;
        }
        proof {
            lemma_assoc_set_at(s, k@, v@, i as int);
        }
        if i < n {
            self.entries.remove(i);
            self.entries.insert(i, (k, v));
            proof {
                assert(self@ =~= s.update(i as int, (k@, v@)));
            }
        } else {
            self.entries.push((k, v));
            proof {
                assert(self@ =~= s.push((k@, v@)));
            }
        }
    }
}

} // verus!
