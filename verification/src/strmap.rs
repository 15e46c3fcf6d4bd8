//! A map keyed by strings and kept in the order of its keys, as a
//! `BTreeMap<String, V>` is walked.

use vstd::prelude::*;
use crate::strings::{lemma_seq_lt_irreflexive, lemma_seq_lt_total, lemma_seq_lt_transitive, seq_lt, str_lt};

verus! {

/// Keys that strictly increase in `seq_lt`: sorted, and none twice.
pub open spec fn keys_increasing(s: Seq<Seq<char>>) -> bool {
    forall|i: int, j: int| 0 <= i < j < s.len() ==> seq_lt(s[i], s[j])
}

/// String-keyed map whose entries are held in increasing key order.
#[derive(Clone, Debug)]
pub struct StrMap<V> {
    entries: Vec<(String, V)>,
}

impl<V> StrMap<V> {
    /// The keys, in the order the map walks them.
    pub closed spec fn key_seq(&self) -> Seq<Seq<char>> {
        Seq::new(self.entries@.len(), |i: int| self.entries@[i].0@)
    }

    /// The values, position by position with `key_seq`.
    pub closed spec fn value_seq(&self) -> Seq<V> {
        Seq::new(self.entries@.len(), |i: int| self.entries@[i].1)
    }

    /// Well-formedness: the keys strictly increase.
    pub open spec fn wf(&self) -> bool {
        keys_increasing(self.key_seq())
    }

    /// Both sequences have one entry per element of the map.
    pub proof fn lemma_lengths(&self)
        ensures
            self.key_seq().len() == self.value_seq().len(),
    {
    }

    /// In a well-formed map each key is found at its own position.
    pub proof fn lemma_index_of(&self, i: int)
        requires
            self.wf(),
            0 <= i < self.key_seq().len(),
        ensures
            self.key_seq().index_of(self.key_seq()[i]) == i,
    {
        let ks = self.key_seq();
        assert(ks.contains(ks[i]));
        let j = ks.index_of(ks[i]);
        if j < i {
            lemma_seq_lt_irreflexive(ks[i]);
        } else if i < j {
            lemma_seq_lt_irreflexive(ks[i]);
        }
    }

    /// The view of a well-formed map: the key at each position maps to the
    /// value at that position, and nothing else is in its domain.
    pub proof fn lemma_view(&self)
        requires
            self.wf(),
        ensures
            forall|i: int|
                0 <= i < self.key_seq().len() ==> #[trigger] self@.dom().contains(self.key_seq()[i])
                    && self@[self.key_seq()[i]] == self.value_seq()[i],
            forall|k: Seq<char>| #[trigger] self@.dom().contains(k) <==> self.key_seq().contains(k),
    {
        assert forall|i: int|
            0 <= i < self.key_seq().len() implies #[trigger] self@.dom().contains(self.key_seq()[i])
                && self@[self.key_seq()[i]] == self.value_seq()[i] by {
            self.lemma_index_of(i);
            assert(self.key_seq().contains(self.key_seq()[i]));
        }
    }

    /// An empty map.
    pub fn new() -> (m: Self)
        ensures
            m.wf(),
            m@ == Map::<Seq<char>, V>::empty(),
            m.key_seq() == Seq::<Seq<char>>::empty(),
    {
        let m = StrMap { entries: Vec::new() };
        assert(m@ =~= Map::<Seq<char>, V>::empty());
        assert(m.key_seq() =~= Seq::<Seq<char>>::empty());
        m
    }

    /// Number of entries.
    pub fn len(&self) -> (n: usize)
        ensures
            n == self.key_seq().len(),
    {
        self.entries.len()
    }

    /// The key at position `i` of the walk.
    pub fn key_at(&self, i: usize) -> (k: &String)
        requires
            i < self.key_seq().len(),
        ensures
            k@ == self.key_seq()[i as int],
    {
        &self.entries[i].0
    }

    /// The value at position `i` of the walk.
    pub fn value_at(&self, i: usize) -> (v: &V)
        requires
            i < self.key_seq().len(),
        ensures
            *v == self.value_seq()[i as int],
    {
        &self.entries[i].1
    }

    /// Position of `key`, if the map holds it.
    pub fn find(&self, key: &str) -> (r: Option<usize>)
        requires
            self.wf(),
        ensures
            r matches Some(i) ==> i < self.key_seq().len() && self.key_seq()[i as int] == key@,
            r is None ==> !self.key_seq().contains(key@),
            r is None <==> !self@.dom().contains(key@),
    {
        let n = self.entries.len();
        let mut i: usize = 0;
        while i < n
            invariant
                n == self.key_seq().len(),
                i <= n,
                forall|j: int| 0 <= j < i ==> self.key_seq()[j] != key@,
            decreases n - i,
        {
            let k = self.entries[i].0.as_str();
            if !str_lt(k, key) && !str_lt(key, k) {
                proof {
                    lemma_seq_lt_total(k@, key@);
                    assert(self.key_seq()[i as int] == key@);
                    assert(self.key_seq().contains(key@));
                }
                return Some(i);
            }
            proof {
                if k@ == key@ {
                    lemma_seq_lt_irreflexive(key@);
                }
            }
            i = i + 1;
        }
        None
    }

    /// The value the map holds for `key`.
    pub fn get(&self, key: &str) -> (r: Option<&V>)
        requires
            self.wf(),
        ensures
            r is Some <==> self@.dom().contains(key@),
            r matches Some(v) ==> *v == self@[key@],
    {
        proof {
            self.lemma_view();
        }
        match self.find(key) {
            Some(i) => Some(&self.entries[i].1),
            None => None,
        }
    }

    /// Inserts `value` under `key`, replacing the value held there before.
    pub fn insert(&mut self, key: String, value: V)
        requires
            old(self).wf(),
        ensures
            final(self).wf(),
            final(self)@ == old(self)@.insert(key@, value),
            forall|t: int|
                0 <= t < final(self).value_seq().len() ==> #[trigger] final(self).value_seq()[t]
                    == value || old(self).value_seq().contains(final(self).value_seq()[t]),
    {
        let n = self.entries.len();
        let mut i: usize = 0;
        while i < n && str_lt(self.entries[i].0.as_str(), key.as_str())
            invariant
                n == self.key_seq().len(),
                i <= n,
                forall|j: int| 0 <= j < i ==> seq_lt(#[trigger] self.key_seq()[j], key@),
            decreases n - i,
        {
            i = i + 1;
        }
        let ghost ks0 = self.key_seq();
        assert(forall|j: int| 0 <= j < i ==> seq_lt(#[trigger] ks0[j], key@));
        let ghost vs0 = self.value_seq();
        let ghost m0 = self@;
        proof {
            self.lemma_view();
        }
        if i < n && !str_lt(key.as_str(), self.entries[i].0.as_str()) {
            proof {
                lemma_seq_lt_total(ks0[i as int], key@);
            }
            self.entries.set(i, (key, value));
            assert(self.key_seq() =~= ks0);
            assert(self.value_seq() =~= vs0.update(i as int, value));
            proof {
                assert forall|t: int| 0 <= t < self.value_seq().len() && #[trigger] self.value_seq()[t] != value
                    implies vs0.contains(self.value_seq()[t]) by {
                    assert(vs0[t] == self.value_seq()[t]);
                }
                self.lemma_view();
                assert forall|k: Seq<char>| #[trigger] self@.dom().contains(k) == m0.insert(key@, value).dom().contains(k) by {
                    if self.key_seq().contains(k) {
                        let j = choose|j: int| 0 <= j < self.key_seq().len() && self.key_seq()[j] == k;
                        assert(ks0[j] == k);
                    }
                    if ks0.contains(k) {
                        let j = choose|j: int| 0 <= j < ks0.len() && ks0[j] == k;
                        assert(self.key_seq()[j] == k);
                    }
                }
                assert forall|k: Seq<char>| #[trigger] self@.dom().contains(k) implies self@[k] == m0.insert(key@, value)[k] by {
                    let j = choose|j: int| 0 <= j < self.key_seq().len() && self.key_seq()[j] == k;
                    assert(self@[self.key_seq()[j]] == self.value_seq()[j]);
                    if j != i {
                        assert(m0[ks0[j]] == vs0[j]);
                    }
                }
                assert(self@ =~= m0.insert(key@, value));
            }
        } else {
            let ghost kv = key@;
            self.entries.insert(i, (key, value));
            assert(self.key_seq() =~= ks0.insert(i as int, kv));
            assert(self.value_seq() =~= vs0.insert(i as int, value));
            proof {
                assert forall|t: int| 0 <= t < self.value_seq().len() && #[trigger] self.value_seq()[t] != value
                    implies vs0.contains(self.value_seq()[t]) by {
                    if t < i {
                        assert(vs0[t] == self.value_seq()[t]);
                    } else {
                        assert(vs0[t - 1] == self.value_seq()[t]);
                    }
                }
                assert forall|j: int| i <= j < n implies seq_lt(kv, #[trigger] ks0[j]) by {
                    assert(seq_lt(kv, ks0[i as int]));
                    if j > i {
                        lemma_seq_lt_transitive(kv, ks0[i as int], ks0[j]);
                    }
                }
                assert(self.key_seq()[i as int] == kv);
                assert forall|a: int, b: int| 0 <= a < b < self.key_seq().len() implies seq_lt(
                    self.key_seq()[a],
                    self.key_seq()[b],
                ) by {
                    if b == i as int {
                    } else if a == i as int {
                        if i < n {
                            assert(seq_lt(kv, ks0[i as int]));
                            if b > i + 1 {
                                lemma_seq_lt_transitive(kv, ks0[i as int], ks0[b - 1]);
                            }
                        }
                    } else if a < i && b > i {
                        assert(seq_lt(kv, ks0[b - 1]));
                        lemma_seq_lt_transitive(ks0[a], kv, ks0[b - 1]);
                    }
                }
                self.lemma_view();
                assert forall|k: Seq<char>| #[trigger] self@.dom().contains(k) == m0.insert(kv, value).dom().contains(k) by {
                    if self.key_seq().contains(k) {
                        let j = choose|j: int| 0 <= j < self.key_seq().len() && self.key_seq()[j] == k;
                        if j < i {
                            assert(ks0[j] == k);
                        } else if j > i {
                            assert(ks0[j - 1] == k);
                        }
                    }
                    if ks0.contains(k) {
                        let j = choose|j: int| 0 <= j < ks0.len() && ks0[j] == k;
                        if j < i {
                            assert(self.key_seq()[j] == k);
                        } else {
                            assert(self.key_seq()[j + 1] == k);
                        }
                    }
                }
                assert forall|k: Seq<char>| #[trigger] self@.dom().contains(k) implies self@[k] == m0.insert(kv, value)[k] by {
                    let j = choose|j: int| 0 <= j < self.key_seq().len() && self.key_seq()[j] == k;
                    assert(self@[self.key_seq()[j]] == self.value_seq()[j]);
                    if j < i {
                        assert(m0[ks0[j]] == vs0[j]);
                        assert(seq_lt(ks0[j], kv));
                        if k == kv {
                            lemma_seq_lt_irreflexive(kv);
                        }
                    } else if j > i {
                        assert(m0[ks0[j - 1]] == vs0[j - 1]);
                        if k == kv {
                            lemma_seq_lt_irreflexive(kv);
                        }
                    }
                }
                assert(self@ =~= m0.insert(kv, value));
            }
        }
    }

    /// The entries, in key order.
    pub fn into_entries(self) -> (v: Vec<(String, V)>)
        ensures
            v@.len() == self.key_seq().len(),
            forall|i: int|
                0 <= i < v@.len() ==> (#[trigger] v@[i]).0@ == self.key_seq()[i] && v@[i].1
                    == self.value_seq()[i],
    {
        self.entries
    }

    /// Replaces the value at position `i`, keeping every key where it is,
    /// and hands back the value that stood there.
    pub fn replace_value_at(&mut self, i: usize, value: V) -> (prev: V)
        requires
            i < old(self).key_seq().len(),
        ensures
            final(self).key_seq() == old(self).key_seq(),
            final(self).value_seq() == old(self).value_seq().update(i as int, value),
            prev == old(self).value_seq()[i as int],
            old(self).wf() ==> final(self)@ == old(self)@.insert(old(self).key_seq()[i as int], value),
    {
        let (k, prev) = self.entries.remove(i);
        self.entries.insert(i, (k, value));
        assert(self.key_seq() =~= old(self).key_seq());
        assert(self.value_seq() =~= old(self).value_seq().update(i as int, value));
        proof {
            if old(self).wf() {
                let ks = old(self).key_seq();
                let m0 = old(self)@;
                old(self).lemma_view();
                self.lemma_view();
                assert forall|x: Seq<char>| #[trigger] self@.dom().contains(x) implies self@[x] == m0.insert(ks[i as int], value)[x] by {
                    let j = choose|j: int| 0 <= j < ks.len() && ks[j] == x;
                    assert(self@[self.key_seq()[j]] == self.value_seq()[j]);
                    if j != i {
                        assert(m0[ks[j]] == old(self).value_seq()[j]);
                        if x == ks[i as int] {
                            self.lemma_index_of(j);
                            self.lemma_index_of(i as int);
                        }
                    }
                }
                assert forall|x: Seq<char>| #[trigger] m0.insert(ks[i as int], value).dom().contains(x) implies self@.dom().contains(x) by {
                    assert(ks[i as int] == self.key_seq()[i as int]);
                }
                assert(self@ =~= m0.insert(ks[i as int], value));
            }
        }
        prev
    }
}

impl<V> View for StrMap<V> {
    type V = Map<Seq<char>, V>;

    /// Each key maps to the value at its position.
    open spec fn view(&self) -> Map<Seq<char>, V> {
        Map::new(
            |k: Seq<char>| self.key_seq().contains(k),
            |k: Seq<char>| self.value_seq()[self.key_seq().index_of(k)],
        )
    }
}

} // verus!
