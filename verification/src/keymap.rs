//! A map from connection keys, kept as a sorted list.
use vstd::prelude::*;

use crate::tracker::{key_is_lt, key_lt, lemma_key_order, ConnKey};

verus! {

/// A map from connection keys to values.
#[derive(Debug)]
pub struct KeyMap<V> {
    keys: Vec<ConnKey>,
    vals: Vec<V>,
}

/// Whether the keys ascend, none twice.
pub open spec fn keys_ascend(keys: Seq<ConnKey>) -> bool {
    forall|i: int, j: int|
        0 <= i < j < keys.len() ==> key_lt(#[trigger] keys[i], #[trigger] keys[j])
}

impl<V> View for KeyMap<V> {
    type V = Map<ConnKey, V>;

    closed spec fn view(&self) -> Map<ConnKey, V> {
        Map::new(|k: ConnKey| self.keys@.contains(k), |k: ConnKey| self.vals@[self.keys@.index_of(k)])
    }
}

proof fn lemma_index(keys: Seq<ConnKey>, i: int)
    requires
        keys_ascend(keys),
        0 <= i < keys.len(),
    ensures
        keys.contains(keys[i]),
        keys.index_of(keys[i]) == i,
{
    let j = keys.index_of(keys[i]);
    lemma_key_order(keys[i], keys[i], keys[i]);
    if j < i {
        assert(key_lt(keys[j], keys[i]));
    } else if i < j {
        assert(key_lt(keys[i], keys[j]));
    }
}

impl<V> KeyMap<V> {
    /// The keys ascend and each has its value.
    pub closed spec fn wf(&self) -> bool {
        self.keys@.len() == self.vals@.len() && keys_ascend(self.keys@)
    }

    /// A map without entries.
    pub fn new() -> (r: Self)
        ensures
            r.wf(),
            r@ == Map::<ConnKey, V>::empty(),
    {
        let r = KeyMap { keys: Vec::new(), vals: Vec::new() };
        assert(r@ =~= Map::<ConnKey, V>::empty());
        r
    }

    /// Where `k` is, or belongs.
    fn find(&self, k: &ConnKey) -> (r: (usize, bool))
        requires
            self.wf(),
        ensures
            r.0 <= self.keys@.len(),
            forall|i: int| 0 <= i < r.0 ==> key_lt(#[trigger] self.keys@[i], *k),
            r.1 ==> r.0 < self.keys@.len() && self.keys@[r.0 as int] == *k,
            !r.1 ==> forall|i: int|
                r.0 <= i < self.keys@.len() ==> key_lt(*k, #[trigger] self.keys@[i]),
            r.1 == self@.contains_key(*k),
    {
        let ghost s = self.keys@;
        let mut lo: usize = 0;
        let mut hi: usize = self.keys.len();
        while lo < hi
            invariant
                lo <= hi <= s.len(),
                s == self.keys@,
                keys_ascend(s),
                forall|i: int| 0 <= i < lo ==> key_lt(#[trigger] s[i], *k),
                forall|i: int| hi <= i < s.len() ==> !key_lt(#[trigger] s[i], *k),
            decreases hi - lo,
        {
            let mid: usize = lo + (hi - lo) / 2;
            let m: ConnKey = self.keys[mid];
            if key_is_lt(&m, k) {
                assert forall|i: int| 0 <= i < mid + 1 implies key_lt(#[trigger] s[i], *k) by {
                    if i < mid {
                        lemma_key_order(s[i], m, *k);
                    }
                }
                lo = mid + 1;
            } else {
                assert forall|i: int| mid <= i < s.len() implies !key_lt(#[trigger] s[i], *k) by {
                    if i > mid {
                        lemma_key_order(m, s[i], *k);
                    }
                }
                hi = mid;
            }
        }
        if lo < self.keys.len() && self.keys[lo] == *k {
            assert(s.contains(*k));
            (lo, true)
        } else {
            assert forall|i: int| lo <= i < s.len() implies key_lt(*k, #[trigger] s[i]) by {
                lemma_key_order(*k, s[lo as int], s[i]);
                if i > lo {
                    assert(key_lt(s[lo as int], s[i]));
                }
            }
            assert(!s.contains(*k)) by {
                if s.contains(*k) {
                    let i = s.index_of(*k);
                    lemma_key_order(*k, *k, *k);
                    if i < lo {
                        assert(key_lt(s[i], *k));
                    } else {
                        assert(key_lt(*k, s[i]));
                    }
                }
            }
            (lo, false)
        }
    }

    /// Whether there is an entry for `k`.
    pub fn contains(&self, k: &ConnKey) -> (r: bool)
        requires
            self.wf(),
        ensures
            r == self@.contains_key(*k),
    {
        self.find(k).1
    }

    /// The entry for `k`.
    pub fn get(&self, k: &ConnKey) -> (r: &V)
        requires
            self.wf(),
            self@.contains_key(*k),
        ensures
            *r == self@[*k],
    {
        let (i, _found) = self.find(k);
        proof {
            lemma_index(self.keys@, i as int);
        }
        &self.vals[i]
    }

    /// Sets the entry for `k`.
    pub fn insert(&mut self, k: ConnKey, v: V)
        requires
            old(self).wf(),
        ensures
            final(self).wf(),
            final(self)@ == old(self)@.insert(k, v),
    {
        let ghost keys = self.keys@;
        let ghost vals = self.vals@;
        let ghost before = self@;
        let (i, found) = self.find(&k);
        if found {
            self.vals.set(i, v);
            proof {
                lemma_index(keys, i as int);
                assert forall|j: ConnKey| #[trigger] keys.contains(j) && j != k implies self.vals@[
                    keys.index_of(j)
                ] == vals[keys.index_of(j)] by {}
                assert(self@ =~= before.insert(k, v));
            }
        } else {
            self.keys.insert(i, k);
            self.vals.insert(i, v);
            proof {
                let new = self.keys@;
                assert(new == keys.insert(i as int, k));
                assert forall|a: int, b: int| 0 <= a < b < new.len() implies key_lt(
                    #[trigger] new[a],
                    #[trigger] new[b],
                ) by {
                    let x = if a < i {
                        a
                    } else {
                        a - 1
                    };
                    let y = if b < i {
                        b
                    } else {
                        b - 1
                    };
                    if a != i {
                        assert(new[a] == keys[x]);
                    }
                    if b != i {
                        assert(new[b] == keys[y]);
                    }
                }
                assert(self@.dom() =~= before.dom().insert(k)) by {
                    assert forall|j: ConnKey| self@.dom().contains(j) <==> before.dom().insert(
                        k,
                    ).contains(j) by {
                        if new.contains(j) {
                            let a = new.index_of(j);
                            if a < i {
                                assert(keys[a] == j);
                            } else if a > i {
                                assert(keys[a - 1] == j);
                            }
                        }
                        if keys.contains(j) {
                            let a = keys.index_of(j);
                            assert(new[if a < i {
                                a
                            } else {
                                a + 1
                            }] == j);
                        }
                        if j == k {
                            assert(new[i as int] == j);
                        }
                    }
                }
                assert forall|j: ConnKey| #[trigger] self@.dom().contains(j) implies self@[j]
                    == before.insert(k, v)[j] by {
                    if j == k {
                        assert(new[i as int] == j);
                        lemma_index(new, i as int);
                    } else {
                        let a = keys.index_of(j);
                        let n = if a < i {
                            a
                        } else {
                            a + 1
                        };
                        assert(keys.contains(j));
                        assert(new[n] == j);
                        lemma_index(new, n);
                        lemma_index(keys, a);
                    }
                }
                assert(self@ =~= before.insert(k, v));
            }
        }
    }
}

} // verus!
