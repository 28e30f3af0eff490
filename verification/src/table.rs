//! A small table keyed by text, in which no key occurs twice.

use vstd::prelude::*;
use crate::paths::texts;

verus! {

/// Index of the first occurrence of `key`, if there is one.
pub open spec fn position(keys: Seq<Seq<char>>, key: Seq<char>) -> Option<int>
    decreases keys.len(),
{
    if keys.len() == 0 {
        None
    } else {
        match position(keys.drop_last(), key) {
            Some(i) => Some(i),
            None => if keys.last() == key {
                Some(keys.len() - 1)
            } else {
                None
            },
        }
    }
}

/// No key occurs twice.
pub open spec fn distinct(keys: Seq<Seq<char>>) -> bool {
    forall|i: int, j: int| 0 <= i < j < keys.len() ==> keys[i] != keys[j]
}

/// What `position` finds: an index that holds the key, and none if no index does.
pub proof fn lemma_position(keys: Seq<Seq<char>>, key: Seq<char>)
    ensures
        match position(keys, key) {
            Some(i) => 0 <= i < keys.len() && keys[i] == key && forall|j: int|
                0 <= j < i ==> keys[j] != key,
            None => forall|j: int| 0 <= j < keys.len() ==> keys[j] != key,
        },
    decreases keys.len(),
{
    if keys.len() > 0 {
        lemma_position(keys.drop_last(), key);
        assert forall|j: int| 0 <= j < keys.len() - 1 implies keys.drop_last()[j] == keys[j] by {}
    }
}

/// In distinct keys, the position of a key that stands at `i` is `i`.
pub proof fn lemma_position_of_member(keys: Seq<Seq<char>>, i: int)
    requires
        distinct(keys),
        0 <= i < keys.len(),
    ensures
        position(keys, keys[i]) == Some(i),
{
    lemma_position(keys, keys[i]);
}

/// A table from text to values.
pub struct Table<V> {
    keys: Vec<String>,
    values: Vec<V>,
}

impl<V> Table<V> {
    /// The keys.
    pub closed spec fn spec_keys(&self) -> Seq<Seq<char>> {
        texts(self.keys@)
    }

    /// The values, each at the index of its key.
    pub closed spec fn spec_values(&self) -> Seq<V> {
        self.values@
    }

    /// Every key has its value and no key occurs twice.
    pub closed spec fn wf(&self) -> bool {
        &&& self.keys@.len() == self.values@.len()
        &&& distinct(texts(self.keys@))
    }

    /// The value under `key`, if there is one.
    pub open spec fn get(&self, key: Seq<char>) -> Option<V> {
        match position(self.spec_keys(), key) {
            Some(i) => Some(self.spec_values()[i]),
            None => None,
        }
    }

    /// What a consistent table knows of itself.
    pub proof fn lemma_wf(&self)
        requires
            self.wf(),
        ensures
            self.spec_keys().len() == self.spec_values().len(),
            distinct(self.spec_keys()),
    {
    }

    /// An empty table.
    pub fn new() -> (table: Table<V>)
        ensures
            table.wf(),
            table.spec_keys().len() == 0,
            forall|key: Seq<char>| table.get(key) is None,
    {
        Table { keys: Vec::new(), values: Vec::new() }
    }

    /// Number of keys.
    pub fn len(&self) -> (n: usize)
        requires
            self.wf(),
        ensures
            n == self.spec_keys().len(),
    {
        self.keys.len()
    }

    /// Index of `key`, if the table holds it.
    pub fn find(&self, key: &str) -> (at: Option<usize>)
        requires
            self.wf(),
        ensures
            match at {
                Some(i) => position(self.spec_keys(), key@) == Some(i as int) && i
                    < self.spec_values().len(),
                None => position(self.spec_keys(), key@) is None,
            },
    {
        let ghost all = texts(self.keys@);
        let wanted: String = key.to_owned();
        let mut i: usize = 0;
        assert(all.take(0) =~= Seq::empty());
        while i < self.keys.len()
            invariant
                i <= self.keys.len(),
                all == texts(self.keys@),
                wanted@ == key@,
                self.keys@.len() == self.values@.len(),
                position(all.take(i as int), key@) is None,
            decreases self.keys.len() - i,
        {
            proof {
                assert(all.take(i + 1).drop_last() =~= all.take(i as int));
                assert(all.take(i + 1).last() == self.keys@[i as int]@);
                assert(all[i as int] == self.keys@[i as int]@);
            }
            if self.keys[i] == wanted {
                proof {
                    lemma_position(all, key@);
                    lemma_position(all.take(i as int), key@);
                    assert(all[i as int] == key@);
                    assert forall|j: int| 0 <= j < i implies all[j] != key@ by {
                        assert(all.take(i as int)[j] == all[j]);
                    }
                }
                return Some(i);
            }
            i += 1;
        }
        assert(all.take(self.keys.len() as int) =~= all);
        None
    }

    /// Copies of the keys.
    pub fn keys(&self) -> (keys: Vec<String>)
        requires
            self.wf(),
        ensures
            texts(keys@) == self.spec_keys(),
            forall|i: int| 0 <= i < keys.len() ==> self.get(#[trigger] keys@[i]@) is Some,
    {
        let mut keys: Vec<String> = Vec::new();
        let mut i: usize = 0;
        while i < self.keys.len()
            invariant
                i <= self.keys.len(),
                keys.len() == i,
                forall|k: int| 0 <= k < i ==> keys@[k]@ == self.keys@[k]@,
            decreases self.keys.len() - i,
        {
            keys.push(self.keys[i].clone());
            i += 1;
        }
        proof {
            assert(texts(keys@) =~= texts(self.keys@));
            assert forall|i: int| 0 <= i < keys.len() implies self.get(#[trigger] keys@[i]@) is Some by {
                lemma_position_of_member(texts(self.keys@), i);
                assert(texts(self.keys@)[i] == keys@[i]@);
            }
        }
        keys
    }

    /// The value at an index that `find` returned.
    pub fn value_at(&self, i: usize) -> (value: &V)
        requires
            self.wf(),
            i < self.spec_values().len(),
        ensures
            *value == self.spec_values()[i as int],
    {
        &self.values[i]
    }

    /// Puts `value` under `key`, in place of what was there.
    pub fn put(&mut self, key: String, value: V)
        requires
            old(self).wf(),
        ensures
            final(self).wf(),
            forall|k: Seq<char>|
                #[trigger] final(self).get(k) == if k == key@ {
                    Some(value)
                } else {
                    old(self).get(k)
                },
            old(self).get(key@) is Some ==> final(self).spec_keys() == old(self).spec_keys(),
            old(self).get(key@) is None ==> final(self).spec_keys() == old(self).spec_keys().push(
                key@,
            ),
    {
        let ghost keys0 = texts(self.keys@);
        let ghost values0 = self.values@;
        match self.find(key.as_str()) {
            Some(i) => {
                self.values.set(i, value);
                proof {
                    assert(texts(self.keys@) == keys0);
                    lemma_position(keys0, key@);
                    assert forall|k: Seq<char>|
                        #[trigger] self.get(k) == if k == key@ {
                            Some(value)
                        } else {
                            old(self).get(k)
                        } by {
                        lemma_position(keys0, k);
                    }
                }
            },
            None => {
                self.keys.push(key);
                self.values.push(value);
                proof {
                    let keys1 = texts(self.keys@);
                    assert(keys1 =~= keys0.push(key@));
                    assert(keys1.drop_last() =~= keys0);
                    lemma_position(keys0, key@);
                    assert forall|i: int, j: int| 0 <= i < j < keys1.len() implies keys1[i]
                        != keys1[j] by {
                        if j < keys0.len() {
                            assert(keys0[i] != keys0[j]);
                        }
                    }
                    assert forall|k: Seq<char>|
                        #[trigger] self.get(k) == if k == key@ {
                            Some(value)
                        } else {
                            old(self).get(k)
                        } by {
                        lemma_position(keys0, k);
                    }
                }
            },
        }
    }
}

impl<V> Table<V> {
    /// Keeps the entries whose flag is set and drops the others.
    pub fn keep_marked(&mut self, keep: &Vec<bool>)
        requires
            old(self).wf(),
            keep.len() == old(self).spec_keys().len(),
        ensures
            final(self).wf(),
            forall|k: Seq<char>|
                #[trigger] final(self).get(k) == match position(old(self).spec_keys(), k) {
                    Some(i) => if keep[i] {
                        Some(old(self).spec_values()[i])
                    } else {
                        None
                    },
                    None => None,
                },
    {
        let ghost keys0 = texts(self.keys@);
        let ghost values0 = self.values@;
        let mut old_keys: Vec<String> = Vec::new();
        let mut old_values: Vec<V> = Vec::new();
        core::mem::swap(&mut old_keys, &mut self.keys);
        core::mem::swap(&mut old_values, &mut self.values);
        assert(texts(old_keys@) == keys0);
        let n = old_keys.len();
        // Where each kept entry came from, and where each old entry went.
        let ghost mut origin: Seq<int> = Seq::empty();
        let ghost mut place: Seq<int> = Seq::new(n as nat, |j: int| -1);
        let mut left: usize = n;
        assert(keys0.take(n as int) =~= keys0);
        assert(values0.take(n as int) =~= values0);
        assert(texts(self.keys@) =~= Seq::empty());
        while left > 0
            invariant
                left <= n,
                n == keys0.len(),
                n == values0.len(),
                keep.len() == n,
                place.len() == n,
                distinct(keys0),
                old_keys.len() == left,
                old_values.len() == left,
                texts(old_keys@) == keys0.take(left as int),
                old_values@ == values0.take(left as int),
                self.keys.len() == self.values.len(),
                origin.len() == self.keys.len(),
                forall|m: int|
                    0 <= m < origin.len() ==> {
                        let j = #[trigger] origin[m];
                        &&& left <= j < n
                        &&& keep[j]
                        &&& texts(self.keys@)[m] == keys0[j]
                        &&& self.values@[m] == values0[j]
                        &&& place[j] == m
                    },
                forall|j: int|
                    left <= j < n && keep[j] ==> 0 <= #[trigger] place[j] < origin.len()
                        && origin[place[j]] == j,
            decreases left,
        {
            let ghost nk = texts(self.keys@);
            let ghost nv = self.values@;
            let key = old_keys.pop().unwrap();
            let value = old_values.pop().unwrap();
            left -= 1;
            proof {
                assert(texts(old_keys@) =~= keys0.take(left as int));
                assert(old_values@ =~= values0.take(left as int));
                assert(keys0.take(left + 1)[left as int] == keys0[left as int]);
                assert(values0.take(left + 1)[left as int] == values0[left as int]);
                assert(key@ == keys0[left as int]);
                assert(value == values0[left as int]);
            }
            if keep[left] {
                self.keys.push(key);
                self.values.push(value);
                proof {
                    assert(texts(self.keys@) =~= nk.push(keys0[left as int]));
                    place = place.update(left as int, origin.len() as int);
                    origin = origin.push(left as int);
                }
            }
        }
        proof {
            let nk = texts(self.keys@);
            let nv = self.values@;
            assert forall|a: int, b: int| 0 <= a < b < nk.len() implies nk[a] != nk[b] by {
                let ja = origin[a];
                let jb = origin[b];
                if nk[a] == nk[b] {
                    assert(keys0[ja] == keys0[jb]);
                    assert(ja == jb);
                    assert(place[ja] == a && place[jb] == b);
                }
            }
            assert forall|k: Seq<char>|
                #[trigger] self.get(k) == match position(keys0, k) {
                    Some(i) => if keep[i] {
                        Some(values0[i])
                    } else {
                        None
                    },
                    None => None,
                } by {
                lemma_position(nk, k);
                lemma_position(keys0, k);
                match position(nk, k) {
                    Some(m) => {
                        let j = origin[m];
                        lemma_position_of_member(keys0, j);
                    },
                    None => {
                        match position(keys0, k) {
                            Some(i) => {
                                if keep[i] {
                                    let m = place[i];
                                    assert(origin[m] == i);
                                    assert(nk[m] == k);
                                }
                            },
                            None => {},
                        }
                    },
                }
            }
        }
    }
}

} // verus!
