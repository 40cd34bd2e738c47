//! A map kept as a list of pairs, for keys that are byte strings or text.
use vstd::prelude::*;
use vstd::string::*;

use crate::bytes;

verus! {

/// What can be a key: something that can be told apart by its view.
pub trait MapKey: View + Sized {
    /// Whether two keys are the same.
    fn same(&self, other: &Self) -> (r: bool)
        ensures
            r == (self@ == other@),
    ;
}

impl MapKey for [u8; 16] {
    fn same(&self, other: &Self) -> (r: bool) {
        bytes::same_bytes(self.as_slice(), other.as_slice())
    }
}

impl MapKey for String {
    fn same(&self, other: &Self) -> (r: bool) {
        *self == *other
    }
}

/// The place of `k` among the pairs.
pub open spec fn at_key<K: MapKey, V>(s: Seq<(K, V)>, k: K::V, i: int) -> bool {
    0 <= i < s.len() && s[i].0@ == k
}

/// No key has two pairs.
pub open spec fn distinct<K: MapKey, V>(s: Seq<(K, V)>) -> bool {
    forall|i: int, j: int| #![trigger s[i], s[j]] 0 <= i < j < s.len() ==> s[i].0@ != s[j].0@
}

/// The map that the pairs are.
pub open spec fn pairs_map<K: MapKey, V>(s: Seq<(K, V)>) -> Map<K::V, V> {
    Map::new(|k: K::V| exists|i: int| at_key(s, k, i), |k: K::V| s[choose|i: int| at_key(s, k, i)].1)
}

/// A pair is in the map.
pub proof fn lemma_pair<K: MapKey, V>(s: Seq<(K, V)>, i: int)
    requires
        distinct(s),
        0 <= i < s.len(),
    ensures
        pairs_map(s).contains_key(s[i].0@),
        pairs_map(s)[s[i].0@] == s[i].1,
{
    let k = s[i].0@;
    assert(at_key(s, k, i));
    let j = choose|j: int| at_key(s, k, j);
    assert(at_key(s, k, j));
    if i < j {
        assert(s[i].0@ != s[j].0@);
    } else if j < i {
        assert(s[j].0@ != s[i].0@);
    }
}

/// The map has as many keys as there are pairs.
pub proof fn lemma_len<K: MapKey, V>(s: Seq<(K, V)>)
    requires
        distinct(s),
    ensures
        pairs_map(s).dom().finite(),
        pairs_map(s).dom().len() == s.len(),
    decreases s.len(),
{
    if s.len() == 0 {
        assert(pairs_map(s).dom() =~= Set::<K::V>::empty());
    } else {
        let rest = s.drop_last();
        let k = s.last().0@;
        assert(distinct(rest)) by {
            assert forall|i: int, j: int| #![trigger rest[i], rest[j]] 0 <= i < j < rest.len() implies rest[i].0@
                != rest[j].0@ by {
                assert(rest[i] == s[i] && rest[j] == s[j]);
            }
        }
        lemma_len(rest);
        assert(!pairs_map(rest).dom().contains(k)) by {
            if exists|i: int| at_key(rest, k, i) {
                let i = choose|i: int| at_key(rest, k, i);
                assert(s[i] == rest[i]);
                assert(s[s.len() - 1] == s.last());
            }
        }
        assert(pairs_map(s).dom() =~= pairs_map(rest).dom().insert(k)) by {
            assert forall|x: K::V| pairs_map(s).dom().contains(x) <==> pairs_map(rest).dom().insert(k).contains(
                x,
            ) by {
                if exists|i: int| at_key(s, x, i) {
                    let i = choose|i: int| at_key(s, x, i);
                    if i < rest.len() {
                        assert(at_key(rest, x, i));
                    }
                }
                if exists|i: int| at_key(rest, x, i) {
                    let i = choose|i: int| at_key(rest, x, i);
                    assert(at_key(s, x, i));
                }
                if x == k {
                    assert(at_key(s, k, s.len() - 1));
                }
            }
        }
    }
}

/// A map from keys to values.
pub struct Assoc<K: MapKey, V> {
    pairs: Vec<(K, V)>,
}

impl<K: MapKey, V> View for Assoc<K, V> {
    type V = Map<K::V, V>;

    closed spec fn view(&self) -> Map<K::V, V> {
        pairs_map(self.pairs@)
    }
}

impl<K: MapKey, V> Assoc<K, V> {
    #[verifier::type_invariant]
    spec fn pairs_distinct(self) -> bool {
        distinct(self.pairs@)
    }

    /// The pairs, in the order in which their keys came in.
    pub closed spec fn order(&self) -> Seq<(K, V)> {
        self.pairs@
    }

    /// An empty map.
    pub fn new() -> (r: Self)
        ensures
            r@ == Map::<K::V, V>::empty(),
            r.order() == Seq::<(K, V)>::empty(),
    {
        let r = Assoc { pairs: Vec::new() };
        assert(r@ =~= Map::<K::V, V>::empty());
        r
    }

    /// The map is what its pairs make up.
    pub fn len(&self) -> (r: usize)
        ensures
            r == self@.dom().len(),
            r == self.order().len(),
            self@.dom().finite(),
            distinct(self.order()),
            self@ == pairs_map(self.order()),
    {
        proof {
            use_type_invariant(self);
            lemma_len(self.pairs@);
        }
        self.pairs.len()
    }

    /// Where a key stands.
    fn position(&self, key: &K) -> (r: Option<usize>)
        ensures
            match r {
                Some(i) => {
                    &&& i < self.pairs@.len()
                    &&& self.pairs@[i as int].0@ == key@
                    &&& self@.contains_key(key@)
                    &&& self@[key@] == self.pairs@[i as int].1
                },
                None => {
                    &&& !self@.contains_key(key@)
                    &&& forall|j: int| 0 <= j < self.pairs@.len() ==> (#[trigger] self.pairs@[j]).0@ != key@
                },
            },
    {
        proof {
            use_type_invariant(self);
        }
        let mut i: usize = 0;
        while i < self.pairs.len()
            invariant
                i <= self.pairs@.len(),
                distinct(self.pairs@),
                forall|j: int| 0 <= j < i ==> (#[trigger] self.pairs@[j]).0@ != key@,
            decreases self.pairs.len() - i,
        {
            if self.pairs[i].0.same(key) {
                proof {
                    lemma_pair(self.pairs@, i as int);
                }
                return Some(i);
            }
            i += 1;
        }
        assert(!exists|j: int| at_key(self.pairs@, key@, j));
        None
    }

    /// Whether a key is in the map.
    pub fn contains(&self, key: &K) -> (r: bool)
        ensures
            r == self@.contains_key(key@),
    {
        self.position(key).is_some()
    }

    /// The value of a key.
    pub fn get(&self, key: &K) -> (r: Option<&V>)
        ensures
            match r {
                Some(v) => self@.contains_key(key@) && *v == self@[key@],
                None => !self@.contains_key(key@),
            },
    {
        match self.position(key) {
            Some(i) => Some(&self.pairs[i].1),
            None => None,
        }
    }

    /// The key of the pair at `i`.
    pub fn key_at(&self, i: usize) -> (r: &K)
        requires
            i < self.order().len(),
        ensures
            *r == self.order()[i as int].0,
            self@.contains_key(r@),
    {
        proof {
            use_type_invariant(self);
            lemma_pair(self.pairs@, i as int);
        }
        &self.pairs[i].0
    }

    /// The value of the pair at `i`.
    pub fn value_at(&self, i: usize) -> (r: &V)
        requires
            i < self.order().len(),
        ensures
            *r == self.order()[i as int].1,
            self@[self.order()[i as int].0@] == *r,
    {
        proof {
            use_type_invariant(self);
            lemma_pair(self.pairs@, i as int);
        }
        &self.pairs[i].1
    }

    /// Gives a key its value. A value that it had is handed back.
    pub fn insert(&mut self, key: K, value: V) -> (r: Option<V>)
        ensures
            final(self)@ == old(self)@.insert(key@, value),
            match r {
                Some(v) => {
                    &&& old(self)@.contains_key(key@)
                    &&& v == old(self)@[key@]
                },
                None => {
                    &&& !old(self)@.contains_key(key@)
                    &&& final(self).order() == old(self).order().push((key, value))
                },
            },
    {
        proof {
            use_type_invariant(&*self);
        }
        let found = self.position(&key);
        let mut pairs: Vec<(K, V)> = Vec::new();
        std::mem::swap(&mut pairs, &mut self.pairs);
        let ghost before = pairs@;
        let ghost m = pairs_map(before);
        match found {
            Some(i) => {
                let old_pair = pairs.remove(i);
                pairs.insert(i, (key, value));
                proof {
                    let now = pairs@;
                    assert(now =~= before.update(i as int, (key, value)));
                    assert(distinct(now)) by {
                        assert forall|a: int, b: int| #![trigger now[a], now[b]] 0 <= a < b < now.len() implies now[a].0@
                            != now[b].0@ by {
                            assert(before[a].0@ != before[b].0@);
                        }
                    }
                    assert(pairs_map(now) =~= m.insert(key@, value)) by {
                        assert forall|x: K::V| pairs_map(now).contains_key(x) <==> m.insert(key@, value).contains_key(
                            x,
                        ) by {
                            if exists|j: int| at_key(now, x, j) {
                                let j = choose|j: int| at_key(now, x, j);
                                assert(at_key(before, x, j));
                            }
                            if exists|j: int| at_key(before, x, j) {
                                let j = choose|j: int| at_key(before, x, j);
                                assert(at_key(now, x, j));
                            }
                            if x == key@ {
                                assert(at_key(now, x, i as int));
                            }
                        }
                        assert forall|x: K::V| pairs_map(now).contains_key(x) implies #[trigger] pairs_map(now)[x]
                            == m.insert(key@, value)[x] by {
                            let j = choose|j: int| at_key(now, x, j);
                            assert(at_key(now, x, j));
                            lemma_pair(now, j);
                            lemma_pair(before, j);
                        }
                    }
                }
                self.pairs = pairs;
                Some(old_pair.1)
            },
            None => {
                pairs.push((key, value));
                proof {
                    let now = pairs@;
                    assert(distinct(now)) by {
                        assert forall|a: int, b: int| #![trigger now[a], now[b]] 0 <= a < b < now.len() implies now[a].0@
                            != now[b].0@ by {
                            assert(now[a] == before[a]);
                            if b < before.len() {
                                assert(now[b] == before[b]);
                            }
                        }
                    }
                    assert(pairs_map(now) =~= m.insert(key@, value)) by {
                        assert forall|x: K::V| pairs_map(now).contains_key(x) <==> m.insert(key@, value).contains_key(
                            x,
                        ) by {
                            if exists|j: int| at_key(now, x, j) {
                                let j = choose|j: int| at_key(now, x, j);
                                if j < before.len() {
                                    assert(at_key(before, x, j));
                                }
                            }
                            if exists|j: int| at_key(before, x, j) {
                                let j = choose|j: int| at_key(before, x, j);
                                assert(at_key(now, x, j));
                            }
                            if x == key@ {
                                assert(at_key(now, x, before.len() as int));
                            }
                        }
                        assert forall|x: K::V| pairs_map(now).contains_key(x) implies #[trigger] pairs_map(now)[x]
                            == m.insert(key@, value)[x] by {
                            let j = choose|j: int| at_key(now, x, j);
                            assert(at_key(now, x, j));
                            lemma_pair(now, j);
                            if j < before.len() {
                                lemma_pair(before, j);
                            }
                        }
                    }
                }
                self.pairs = pairs;
                None
            },
        }
    }

    /// Takes a key out, and hands its value back.
    pub fn remove(&mut self, key: &K) -> (r: Option<V>)
        ensures
            final(self)@ == old(self)@.remove(key@),
            match r {
                Some(v) => old(self)@.contains_key(key@) && v == old(self)@[key@],
                None => !old(self)@.contains_key(key@) && final(self).order() == old(self).order(),
            },
    {
        proof {
            use_type_invariant(&*self);
        }
        let found = self.position(key);
        match found {
            Some(i) => {
                let mut pairs: Vec<(K, V)> = Vec::new();
                std::mem::swap(&mut pairs, &mut self.pairs);
                let ghost before = pairs@;
                let ghost m = pairs_map(before);
                let pair = pairs.remove(i);
                proof {
                    let now = pairs@;
                    assert(now =~= before.remove(i as int));
                    assert(distinct(now)) by {
                        assert forall|a: int, b: int| #![trigger now[a], now[b]] 0 <= a < b < now.len() implies now[a].0@
                            != now[b].0@ by {
                            let ka = if a < i {
                                a
                            } else {
                                a + 1
                            };
                            let kb = if b < i {
                                b
                            } else {
                                b + 1
                            };
                            assert(now[a] == before[ka] && now[b] == before[kb]);
                        }
                    }
                    assert(pairs_map(now) =~= m.remove(key@)) by {
                        assert forall|x: K::V| pairs_map(now).contains_key(x) <==> m.remove(key@).contains_key(x) by {
                            if exists|j: int| at_key(now, x, j) {
                                let j = choose|j: int| at_key(now, x, j);
                                let k = if j < i {
                                    j
                                } else {
                                    j + 1
                                };
                                assert(now[j] == before[k]);
                                assert(at_key(before, x, k));
                                assert(before[i as int].0@ == key@);
                                if k < i {
                                    assert(before[k].0@ != before[i as int].0@);
                                } else {
                                    assert(before[i as int].0@ != before[k].0@);
                                }
                            }
                            if m.remove(key@).contains_key(x) {
                                let j = choose|j: int| at_key(before, x, j);
                                assert(at_key(before, x, j));
                                let k = if j < i {
                                    j
                                } else {
                                    j - 1
                                };
                                assert(now[k] == before[j]);
                                assert(at_key(now, x, k));
                            }
                        }
                        assert forall|x: K::V| pairs_map(now).contains_key(x) implies #[trigger] pairs_map(now)[x]
                            == m.remove(key@)[x] by {
                            let j = choose|j: int| at_key(now, x, j);
                            assert(at_key(now, x, j));
                            lemma_pair(now, j);
                            let k = if j < i {
                                j
                            } else {
                                j + 1
                            };
                            assert(now[j] == before[k]);
                            lemma_pair(before, k);
                        }
                    }
                }
                self.pairs = pairs;
                Some(pair.1)
            },
            None => {
                assert(self@.remove(key@) =~= self@);
                None
            },
        }
    }
}

} // verus!
