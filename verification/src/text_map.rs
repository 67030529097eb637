//! A small map from text to text, kept in insertion order.
//!
//! The alias relation and the player directory are both such maps. Keys are
//! compared by their characters, and the contents are modelled as a
//! mathematical `Map` from key text to value text.

use crate::text::{position_of, same_text, texts};
use vstd::prelude::*;

verus! {

/// A map from text to text. No key occurs twice.
pub struct TextMap {
    pub keys: Vec<String>,
    pub vals: Vec<String>,
}

impl View for TextMap {
    type V = Map<Seq<char>, Seq<char>>;

    open spec fn view(&self) -> Map<Seq<char>, Seq<char>> {
        Map::new(|k: Seq<char>| self.has_key(k), |k: Seq<char>| self.vals[self.slot(k)]@)
    }
}

impl TextMap {
    /// Every key has a value and no key occurs twice.
    pub open spec fn wf(&self) -> bool {
        &&& self.keys.len() == self.vals.len()
        &&& forall|i: int, j: int|
            0 <= i < j < self.keys.len() ==> self.keys[i]@ != self.keys[j]@
    }

    /// Whether some entry has the key `k`.
    pub open spec fn has_key(&self, k: Seq<char>) -> bool {
        exists|i: int| 0 <= i < self.keys.len() && self.keys[i]@ == k
    }

    /// The position of the entry with key `k`.
    pub open spec fn slot(&self, k: Seq<char>) -> int {
        choose|i: int| 0 <= i < self.keys.len() && self.keys[i]@ == k
    }

    /// The entry at position `i` is what the map holds for its key.
    pub proof fn lemma_entry(&self, i: int)
        requires
            self.wf(),
            0 <= i < self.keys.len(),
        ensures
            self@.contains_key(self.keys[i]@),
            self.slot(self.keys[i]@) == i,
            self@[self.keys[i]@] == self.vals[i]@,
    {
        assert(self.has_key(self.keys[i]@));
    }

    /// Every key of the map is the key of an entry.
    pub proof fn lemma_key_has_slot(&self, k: Seq<char>)
        requires
            self.wf(),
            self@.contains_key(k),
        ensures
            0 <= self.slot(k) < self.keys.len(),
            self.keys[self.slot(k)]@ == k,
            self.vals[self.slot(k)]@ == self@[k],
    {
    }

    /// The empty map.
    pub fn new() -> (out: TextMap)
        ensures
            out.wf(),
            out@ == Map::<Seq<char>, Seq<char>>::empty(),
    {
        let out = TextMap { keys: Vec::new(), vals: Vec::new() };
        assert(out@ =~= Map::<Seq<char>, Seq<char>>::empty());
        out
    }

    /// The number of entries.
    pub fn len(&self) -> (n: usize)
        requires
            self.wf(),
        ensures
            n == self.keys.len(),
    {
        self.keys.len()
    }

    /// The value held for `key`, if any.
    pub fn get(&self, key: &str) -> (found: Option<&String>)
        requires
            self.wf(),
        ensures
            match found {
                Some(v) => self@.contains_key(key@) && v@ == self@[key@],
                None => !self@.contains_key(key@),
            },
    {
        match position_of(&self.keys, key) {
            Some(i) => {
                proof {
                    self.lemma_entry(i as int);
                }
                Some(&self.vals[i])
            },
            None => None,
        }
    }

    /// Whether `key` has a value.
    pub fn contains_key(&self, key: &str) -> (present: bool)
        requires
            self.wf(),
        ensures
            present == self@.contains_key(key@),
    {
        self.get(key).is_some()
    }

    /// Sets the value of `key`, replacing the one it had.
    pub fn insert(&mut self, key: String, val: String)
        requires
            old(self).wf(),
        ensures
            final(self).wf(),
            final(self)@ == old(self)@.insert(key@, val@),
            old(self)@.contains_key(key@) ==> final(self).keys@ == old(self).keys@,
            !old(self)@.contains_key(key@) ==> final(self).keys@ == old(self).keys@.push(key),
    {
        let ghost before = *self;
        match position_of(&self.keys, key.as_str()) {
            Some(i) => {
                self.vals.set(i, val);
                proof {
                    before.lemma_entry(i as int);
                    assert forall|k: Seq<char>| self.has_key(k) == before.has_key(k) by {}
                    assert forall|k: Seq<char>| self.slot(k) == before.slot(k) by {}
                    assert(self@ =~= before@.insert(key@, val@));
                }
            },
            None => {
                self.keys.push(key);
                self.vals.push(val);
                proof {
                    let n = before.keys.len() as int;
                    assert(self.keys[n]@ == key@);
                    assert forall|k: Seq<char>| self.has_key(k) == (before.has_key(k) || k == key@) by {
                        if before.has_key(k) {
                            let i = before.slot(k);
                            assert(self.keys[i]@ == k);
                        }
                        if k == key@ {
                            assert(self.keys[n]@ == k);
                        }
                        if self.has_key(k) {
                            let i = self.slot(k);
                            if i < n {
                                assert(before.keys[i]@ == k);
                            }
                        }
                    }
                    assert forall|k: Seq<char>| self.has_key(k) implies self.vals[self.slot(k)]@ == (
                    if k == key@ {
                        val@
                    } else {
                        before.vals[before.slot(k)]@
                    }) by {
                        let i = self.slot(k);
                        if i < n {
                            assert(before.keys[i]@ == k);
                            before.lemma_entry(i);
                        }
                    }
                    assert(self@ =~= before@.insert(key@, val@));
                }
            },
        }
    }

    /// Removes `key` and its value. Says whether the key was there.
    pub fn remove(&mut self, key: &str) -> (existed: bool)
        requires
            old(self).wf(),
        ensures
            final(self).wf(),
            final(self)@ == old(self)@.remove(key@),
            existed == old(self)@.contains_key(key@),
    {
        let ghost before = *self;
        match position_of(&self.keys, key) {
            Some(i) => {
                self.keys.remove(i);
                self.vals.remove(i);
                proof {
                    let at = i as int;
                    before.lemma_entry(at);
                    assert forall|j: int| 0 <= j < self.keys.len() implies self.keys[j]
                        == before.keys[if j < at {
                        j
                    } else {
                        j + 1
                    }] && self.vals[j] == before.vals[if j < at {
                        j
                    } else {
                        j + 1
                    }] by {}
                    assert forall|k: Seq<char>| self.has_key(k) == (before.has_key(k) && k != key@) by {
                        if before.has_key(k) && k != key@ {
                            let b = before.slot(k);
                            let j = if b < at {
                                b
                            } else {
                                b - 1
                            };
                            assert(self.keys[j]@ == k);
                        }
                        if self.has_key(k) {
                            let j = self.slot(k);
                            let b = if j < at {
                                j
                            } else {
                                j + 1
                            };
                            assert(before.keys[b]@ == k);
                        }
                    }
                    assert forall|k: Seq<char>| self.has_key(k) implies self.vals[self.slot(k)]@
                        == before.vals[before.slot(k)]@ by {
                        let j = self.slot(k);
                        let b = if j < at {
                            j
                        } else {
                            j + 1
                        };
                        assert(before.keys[b]@ == k);
                        before.lemma_entry(b);
                    }
                    assert(self@ =~= before@.remove(key@));
                }
                true
            },
            None => {
                assert(self@ =~= before@.remove(key@));
                false
            },
        }
    }

    /// Whether some key has the value `val`.
    pub fn has_value(&self, val: &str) -> (present: bool)
        requires
            self.wf(),
        ensures
            present == (exists|k: Seq<char>| self@.contains_key(k) && #[trigger] self@[k] == val@),
    {
        let mut i: usize = 0;
        while i < self.vals.len()
            invariant
                self.wf(),
                i <= self.vals.len(),
                forall|j: int| 0 <= j < i ==> self.vals[j]@ != val@,
            decreases self.vals.len() - i,
        {
            if same_text(self.vals[i].as_str(), val) {
                proof {
                    self.lemma_entry(i as int);
                }
                return true;
            }
            i += 1;
        }
        proof {
            assert forall|k: Seq<char>| self@.contains_key(k) implies #[trigger] self@[k] != val@ by {
                self.lemma_key_has_slot(k);
            }
        }
        false
    }

    /// The keys whose value is `val`, in insertion order.
    pub fn keys_with_value(&self, val: &str) -> (out: Vec<String>)
        requires
            self.wf(),
        ensures
            texts(out@) == keys_matching(self.keys@, self.vals@, val@),
            texts(out@).no_duplicates(),
            forall|k: Seq<char>|
                #[trigger] texts(out@).contains(k) <==> (self@.contains_key(k) && self@[k] == val@),
    {
        let mut out: Vec<String> = Vec::new();
        let mut i: usize = 0;
        assert(self.keys@.take(0) =~= Seq::<String>::empty());
        while i < self.keys.len()
            invariant
                self.wf(),
                i <= self.keys.len(),
                texts(out@) == keys_matching(
                    self.keys@.take(i as int),
                    self.vals@.take(i as int),
                    val@,
                ),
            decreases self.keys.len() - i,
        {
            proof {
                assert(self.keys@.take(i + 1).drop_last() =~= self.keys@.take(i as int));
                assert(self.vals@.take(i + 1).drop_last() =~= self.vals@.take(i as int));
            }
            if same_text(self.vals[i].as_str(), val) {
                let key = self.keys[i].clone();
                assert(texts(out@.push(key)) =~= texts(out@).push(key@));
                out.push(key);
            }
            i += 1;
        }
        proof {
            assert(self.keys@.take(i as int) =~= self.keys@);
            assert(self.vals@.take(i as int) =~= self.vals@);
            lemma_keys_matching_distinct(self.keys@, self.vals@, val@);
            assert forall|k: Seq<char>| #[trigger]
                texts(out@).contains(k) <==> (self@.contains_key(k) && self@[k] == val@) by {
                lemma_keys_matching(self.keys@, self.vals@, val@, k);
                if texts(out@).contains(k) {
                    let j = choose|j: int|
                        0 <= j < self.keys.len() && self.keys[j]@ == k && self.vals[j]@ == val@;
                    self.lemma_entry(j);
                }
                if self@.contains_key(k) && self@[k] == val@ {
                    self.lemma_key_has_slot(k);
                    let j = self.slot(k);
                    assert(0 <= j < self.keys.len() && self.keys[j]@ == k && self.vals[j]@ == val@);
                }
            }
        }
        out
    }
}

/// The keys, in order, of the entries whose value is `val`.
pub open spec fn keys_matching(keys: Seq<String>, vals: Seq<String>, val: Seq<char>) -> Seq<
    Seq<char>,
>
    decreases keys.len(),
{
    if keys.len() == 0 || vals.len() != keys.len() {
        Seq::empty()
    } else {
        let rest = keys_matching(keys.drop_last(), vals.drop_last(), val);
        if vals.last()@ == val {
            rest.push(keys.last()@)
        } else {
            rest
        }
    }
}

/// A text is among `keys_matching` exactly if it is the key of an entry
/// with that value.
pub proof fn lemma_keys_matching(
    keys: Seq<String>,
    vals: Seq<String>,
    val: Seq<char>,
    k: Seq<char>,
)
    requires
        keys.len() == vals.len(),
    ensures
        keys_matching(keys, vals, val).contains(k) <==> exists|j: int|
            0 <= j < keys.len() && keys[j]@ == k && vals[j]@ == val,
    decreases keys.len(),
{
    if keys.len() > 0 {
        let n = keys.len() - 1;
        let rest = keys_matching(keys.drop_last(), vals.drop_last(), val);
        lemma_keys_matching(keys.drop_last(), vals.drop_last(), val, k);
        let all = keys_matching(keys, vals, val);
        if all.contains(k) {
            let a = choose|a: int| 0 <= a < all.len() && all[a] == k;
            if vals.last()@ == val && a == rest.len() {
                assert(keys[n]@ == k && vals[n]@ == val);
            } else {
                assert(rest[a] == k);
                assert(rest.contains(k));
                let j = choose|j: int|
                    0 <= j < n && keys.drop_last()[j]@ == k && vals.drop_last()[j]@ == val;
                assert(keys[j]@ == k && vals[j]@ == val);
            }
        }
        if exists|j: int| 0 <= j < keys.len() && keys[j]@ == k && vals[j]@ == val {
            let j = choose|j: int| 0 <= j < keys.len() && keys[j]@ == k && vals[j]@ == val;
            if j == n {
                assert(all[rest.len() as int] == k);
            } else {
                assert(keys.drop_last()[j]@ == k && vals.drop_last()[j]@ == val);
                let a = choose|a: int| 0 <= a < rest.len() && rest[a] == k;
                assert(all[a] == k);
            }
        }
    }
}

/// Where no key occurs twice, `keys_matching` holds no text twice.
pub proof fn lemma_keys_matching_distinct(keys: Seq<String>, vals: Seq<String>, val: Seq<char>)
    requires
        keys.len() == vals.len(),
        forall|i: int, j: int| 0 <= i < j < keys.len() ==> keys[i]@ != keys[j]@,
    ensures
        keys_matching(keys, vals, val).no_duplicates(),
    decreases keys.len(),
{
    if keys.len() > 0 {
        let n = keys.len() - 1;
        let rest = keys_matching(keys.drop_last(), vals.drop_last(), val);
        assert forall|i: int, j: int| 0 <= i < j < n implies keys.drop_last()[i]@
            != keys.drop_last()[j]@ by {
            assert(keys[i]@ != keys[j]@);
        }
        lemma_keys_matching_distinct(keys.drop_last(), vals.drop_last(), val);
        if vals.last()@ == val {
            lemma_keys_matching(keys.drop_last(), vals.drop_last(), val, keys.last()@);
            if rest.contains(keys.last()@) {
                let j = choose|j: int|
                    0 <= j < n && keys.drop_last()[j]@ == keys.last()@ && vals.drop_last()[j]@
                        == val;
                assert(keys[j]@ != keys[n]@);
            }
            let all = rest.push(keys.last()@);
            assert forall|a: int, b: int| 0 <= a < all.len() && 0 <= b < all.len() && a != b implies all[a]
                != all[b] by {
                if a < rest.len() && b < rest.len() {
                } else if a < rest.len() {
                    assert(rest.contains(rest[a]));
                } else {
                    assert(rest.contains(rest[b]));
                }
            }
        }
    }
}

} // verus!
