//! Small maps held as lists of entries with distinct keys.

use vstd::prelude::*;

use crate::text::{chars_equal, chars_of};

verus! {

/// The mapping a list of distinct keys stands for.
pub open spec fn assoc_model<V>(s: Seq<(String, V)>) -> Map<Seq<char>, V>
    decreases s.len(),
{
    if s.len() == 0 {
        Map::empty()
    } else {
        assoc_model(s.drop_last()).insert(s.last().0@, s.last().1)
    }
}

/// No key occurs twice.
pub open spec fn distinct_keys<V>(s: Seq<(String, V)>) -> bool {
    forall|i: int, j: int| 0 <= i < j < s.len() ==> #[trigger] s[i].0@ != #[trigger] s[j].0@
}

pub proof fn lemma_assoc_model<V>(s: Seq<(String, V)>)
    requires
        distinct_keys(s),
    ensures
        assoc_model(s).dom().finite(),
        assoc_model(s).len() == s.len(),
        forall|k: Seq<char>|
            assoc_model(s).contains_key(k) <==> exists|i: int| 0 <= i < s.len() && #[trigger] s[i].0@ == k,
        forall|i: int| 0 <= i < s.len() ==> #[trigger] assoc_model(s)[s[i].0@] == s[i].1,
    decreases s.len(),
{
    if s.len() > 0 {
        let t = s.drop_last();
        lemma_assoc_model(t);
        let last = s.last();
        assert forall|i: int| 0 <= i < t.len() implies #[trigger] t[i].0@ != last.0@ by {
            assert(s[i] == t[i]);
        }
        assert forall|k: Seq<char>|
            assoc_model(s).contains_key(k) implies exists|i: int|
                0 <= i < s.len() && #[trigger] s[i].0@ == k by {
            if k != last.0@ {
                let i = choose|i: int| 0 <= i < t.len() && #[trigger] t[i].0@ == k;
                assert(s[i] == t[i]);
            } else {
                assert(s[s.len() - 1].0@ == k);
            }
        }
        assert forall|k: Seq<char>|
            (exists|i: int| 0 <= i < s.len() && #[trigger] s[i].0@ == k) implies assoc_model(
            s,
        ).contains_key(k) by {
            let i = choose|i: int| 0 <= i < s.len() && #[trigger] s[i].0@ == k;
            if i < s.len() - 1 {
                assert(t[i] == s[i]);
            }
        }
        assert forall|i: int| 0 <= i < s.len() implies #[trigger] assoc_model(s)[s[i].0@]
            == s[i].1 by {
            if i < s.len() - 1 {
                assert(t[i] == s[i]);
            }
        }
    }
}

/// Where `key` sits among the keys of `entries`, if anywhere.
pub fn position_of<V>(entries: &Vec<(String, V)>, key: &Vec<char>) -> (r: Option<usize>)
    ensures
        match r {
            Some(i) => i < entries@.len() && entries@[i as int].0@ == key@,
            None => forall|i: int| 0 <= i < entries@.len() ==> #[trigger] entries@[i].0@ != key@,
        },
{
    let mut i: usize = 0;
    while i < entries.len()
        invariant
            i <= entries@.len(),
            forall|j: int| 0 <= j < i ==> #[trigger] entries@[j].0@ != key@,
        decreases entries@.len() - i,
    {
        let k = chars_of(entries[i].0.as_str());
        if chars_equal(&k, key) {
            return Some(i);
        }
        i = i + 1;
    }
    None
}

/// A map from strings, compared exactly, kept in insertion order.
#[derive(Debug)]
pub struct TextMap<V> {
    entries: Vec<(String, V)>,
}

impl<V> View for TextMap<V> {
    type V = Map<Seq<char>, V>;

    closed spec fn view(&self) -> Map<Seq<char>, V> {
        assoc_model(self.entries@)
    }
}

impl<V> TextMap<V> {
    #[verifier::type_invariant]
    spec fn wf(self) -> bool {
        distinct_keys(self.entries@)
    }

    /// An empty map.
    pub fn new() -> (r: Self)
        ensures
            r@ == Map::<Seq<char>, V>::empty(),
    {
        let r = TextMap { entries: Vec::new() };
        assert(r@ =~= Map::<Seq<char>, V>::empty());
        r
    }
    /// Insert, returning any value the key held before.
    pub fn insert(&mut self, key: String, value: V) -> (r: Option<V>)
        ensures
            final(self)@ == old(self)@.insert(key@, value),
            match r {
                Some(v) => old(self)@.contains_key(key@) && v == old(self)@[key@],
                None => !old(self)@.contains_key(key@),
            },
    {
        proof {
            use_type_invariant(&*self);
            lemma_assoc_model(self.entries@);
        }
        let ghost before = self.entries@;
        let k = key;
        let kc = chars_of(k.as_str());
        let mut entries: Vec<(String, V)> = Vec::new();
        std::mem::swap(&mut entries, &mut self.entries);
        match position_of(&entries, &kc) {
            Some(i) => {
                let old_entry = entries.remove(i);
                entries.insert(i, (k, value));
                let ghost after = entries@;
                proof {
                    assert(after =~= before.update(i as int, after[i as int]));
                    lemma_assoc_model(after);
                    assert(assoc_model(after) =~= assoc_model(before).insert(k@, value)) by {
                        assert forall|k2: Seq<char>| #[trigger] assoc_model(after).contains_key(k2)
                            == assoc_model(before).insert(k@, value).contains_key(k2) by {
                            if assoc_model(after).contains_key(k2) {
                                let j = choose|j: int| 0 <= j < after.len() && #[trigger] after[j].0@ == k2;
                                if j != i {
                                    assert(before[j] == after[j]);
                                }
                            }
                            if assoc_model(before).contains_key(k2) {
                                let j = choose|j: int| 0 <= j < before.len() && #[trigger] before[j].0@ == k2;
                                if j != i {
                                    assert(before[j] == after[j]);
                                }
                            }
                            if k2 == k@ {
                                assert(after[i as int].0@ == k2);
                            }
                        }
                        assert forall|k2: Seq<char>| #[trigger] assoc_model(after).contains_key(k2)
                            implies assoc_model(after)[k2] == assoc_model(before).insert(k@, value)[k2] by {
                            let j = choose|j: int| 0 <= j < after.len() && #[trigger] after[j].0@ == k2;
                            if j != i {
                                assert(before[j] == after[j]);
                            }
                        }
                    }
                }
                self.entries = entries;
                Some(old_entry.1)
            },
            None => {
                entries.push((k, value));
                let ghost after = entries@;
                proof {
                    assert(after.drop_last() =~= before);
                    assert forall|a: int, b: int| 0 <= a < b < after.len() implies #[trigger] after[a].0@
                        != #[trigger] after[b].0@ by {
                        if b < after.len() - 1 {
                            assert(after[a] == before[a] && after[b] == before[b]);
                        } else {
                            assert(after[a] == before[a]);
                        }
                    }
                }
                self.entries = entries;
                None
            },
        }
    }

    /// Look up a key.
    pub fn get(&self, key: &str) -> (r: Option<&V>)
        ensures
            match r {
                Some(v) => self@.contains_key(key@) && *v == self@[key@],
                None => !self@.contains_key(key@),
            },
    {
        proof {
            use_type_invariant(self);
            lemma_assoc_model(self.entries@);
        }
        let kc = chars_of(key);
        match position_of(&self.entries, &kc) {
            Some(i) => Some(&self.entries[i].1),
            None => None,
        }
    }

    /// Remove a key, returning its value.
    pub fn remove(&mut self, key: &str) -> (r: Option<V>)
        ensures
            final(self)@ == old(self)@.remove(key@),
            match r {
                Some(v) => old(self)@.contains_key(key@) && v == old(self)@[key@],
                None => !old(self)@.contains_key(key@),
            },
    {
        proof {
            use_type_invariant(&*self);
            lemma_assoc_model(self.entries@);
        }
        let ghost before = self.entries@;
        let kc = chars_of(key);
        let i = match position_of(&self.entries, &kc) {
            Some(i) => i,
            None => {
                assert(assoc_model(before).remove(key@) =~= assoc_model(before));
                return None;
            },
        };
        let mut entries: Vec<(String, V)> = Vec::new();
        std::mem::swap(&mut entries, &mut self.entries);
        let removed = entries.remove(i);
        let ghost after = entries@;
        proof {
            assert forall|a: int, b: int| 0 <= a < b < after.len() implies #[trigger] after[a].0@
                != #[trigger] after[b].0@ by {
                let a0 = if a < i { a } else { a + 1 };
                let b0 = if b < i { b } else { b + 1 };
                assert(after[a] == before[a0] && after[b] == before[b0]);
            }
            lemma_assoc_model(after);
            assert forall|k: Seq<char>| #[trigger] assoc_model(after).contains_key(k) == assoc_model(
                before,
            ).remove(key@).contains_key(k) by {
                if assoc_model(after).contains_key(k) {
                    let j = choose|j: int| 0 <= j < after.len() && #[trigger] after[j].0@ == k;
                    let j0 = if j < i { j } else { j + 1 };
                    assert(after[j] == before[j0]);
                }
                if assoc_model(before).contains_key(k) && k != key@ {
                    let j = choose|j: int| 0 <= j < before.len() && #[trigger] before[j].0@ == k;
                    if j < i {
                        assert(before[j] == after[j]);
                    } else {
                        assert(before[j] == after[j - 1]);
                    }
                }
            }
            assert forall|k: Seq<char>| #[trigger] assoc_model(after).contains_key(k) implies assoc_model(
                after,
            )[k] == assoc_model(before).remove(key@)[k] by {
                let j = choose|j: int| 0 <= j < after.len() && #[trigger] after[j].0@ == k;
                let j0 = if j < i { j } else { j + 1 };
                assert(after[j] == before[j0]);
                assert(assoc_model(before)[before[j0].0@] == before[j0].1);
            }
            assert(assoc_model(after) =~= assoc_model(before).remove(key@));
        }
        self.entries = entries;
        Some(removed.1)
    }

    /// Remove everything.
    pub fn clear(&mut self)
        ensures
            final(self)@ == Map::<Seq<char>, V>::empty(),
    {
        self.entries = Vec::new();
        assert(self@ =~= Map::<Seq<char>, V>::empty());
    }

    /// The entries, in insertion order.
    pub fn iter(&self) -> (r: &[(String, V)])
        ensures
            self@.dom().finite(),
            r@.len() == self@.len(),
            forall|i: int, j: int| 0 <= i < j < r@.len() ==> #[trigger] r@[i].0@ != #[trigger] r@[j].0@,
            forall|i: int| 0 <= i < r@.len() ==> self@.contains_key(#[trigger] r@[i].0@) && self@[r@[i].0@]
                == r@[i].1,
    {
        proof {
            use_type_invariant(self);
            lemma_assoc_model(self.entries@);
        }
        self.entries.as_slice()
    }

    /// How many keys are present.
    pub fn len(&self) -> (r: usize)
        ensures
            self@.dom().finite(),
            r == self@.len(),
    {
        proof {
            use_type_invariant(self);
            lemma_assoc_model(self.entries@);
        }
        self.entries.len()
    }
}

} // verus!
