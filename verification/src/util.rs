//! A small association map keyed by strings, with a `Map<Seq<char>, V>` view.
//!
//! The registry, the file metadata, the peer tables and the model embeddings
//! all need a map from identifiers (user ids, usernames, peer ids, file ids)
//! to records. The entries are kept in a vector with pairwise-distinct keys.

use vstd::prelude::*;

verus! {

/// Relies on `<str as PartialEq>::eq`: two string slices are equal exactly
/// when their character sequences are equal (UTF-8 encoding is injective).
#[verifier::external_body]
pub fn str_eq(a: &str, b: &str) -> (r: bool)
    ensures
        r == (a@ == b@),
{
    a == b
}

/// Whether some string in the sequence has the given characters.
pub open spec fn seq_has_string(s: Seq<String>, x: Seq<char>) -> bool {
    exists|i: int| 0 <= i < s.len() && s[i]@ == x
}

/// Whether the vector holds a string with the same characters as `x`.
pub fn vec_contains_string(v: &Vec<String>, x: &str) -> (r: bool)
    ensures
        r == seq_has_string(v@, x@),
{
    let n = v.len();
    for i in 0..n
        invariant
            n == v@.len(),
            forall|j: int| 0 <= j < i ==> v@[j]@ != x@,
    {
        if str_eq(v[i].as_str(), x) {
            return true;
        }
    }
    false
}

/// The map described by an association list, later entries winning.
pub open spec fn assoc_map<V>(s: Seq<(String, V)>) -> Map<Seq<char>, V>
    decreases s.len(),
{
    if s.len() == 0 {
        Map::empty()
    } else {
        assoc_map(s.drop_last()).insert(s.last().0@, s.last().1)
    }
}

/// No two entries share a key.
pub open spec fn distinct_keys<V>(s: Seq<(String, V)>) -> bool {
    forall|i: int, j: int| 0 <= i < j < s.len() ==> s[i].0@ != s[j].0@
}

pub proof fn lemma_assoc_contains<V>(s: Seq<(String, V)>, k: Seq<char>)
    ensures
        assoc_map(s).contains_key(k) <==> (exists|i: int| 0 <= i < s.len() && s[i].0@ == k),
    decreases s.len(),
{
    if s.len() > 0 {
        lemma_assoc_contains(s.drop_last(), k);
        if s.last().0@ == k {
            assert(s[s.len() - 1].0@ == k);
        } else if assoc_map(s).contains_key(k) {
            let i = choose|i: int| 0 <= i < s.drop_last().len() && s.drop_last()[i].0@ == k;
            assert(s[i].0@ == k);
        } else if exists|i: int| 0 <= i < s.len() && s[i].0@ == k {
            let i = choose|i: int| 0 <= i < s.len() && s[i].0@ == k;
            assert(s.drop_last()[i].0@ == k);
        }
    }
}

pub proof fn lemma_assoc_index<V>(s: Seq<(String, V)>, i: int)
    requires
        distinct_keys(s),
        0 <= i < s.len(),
    ensures
        assoc_map(s).contains_key(s[i].0@),
        assoc_map(s)[s[i].0@] == s[i].1,
    decreases s.len(),
{
    if i == s.len() - 1 {
    } else {
        lemma_assoc_index(s.drop_last(), i);
        assert(s.drop_last()[i] == s[i]);
        assert(s[i].0@ != s.last().0@);
    }
}

pub proof fn lemma_assoc_dom_len<V>(s: Seq<(String, V)>)
    requires
        distinct_keys(s),
    ensures
        assoc_map(s).dom().finite(),
        assoc_map(s).dom().len() == s.len(),
    decreases s.len(),
{
    if s.len() > 0 {
        lemma_assoc_dom_len(s.drop_last());
        lemma_assoc_contains(s.drop_last(), s.last().0@);
        assert(forall|i: int| 0 <= i < s.drop_last().len() ==> s[i].0@ != s.last().0@);
        assert(!assoc_map(s.drop_last()).contains_key(s.last().0@));
    }
}

/// An association map with string keys and pairwise-distinct entries.
pub struct StringMap<V> {
    pub entries: Vec<(String, V)>,
}

impl<V> StringMap<V> {
    pub open spec fn view(&self) -> Map<Seq<char>, V> {
        assoc_map(self.entries@)
    }

    pub open spec fn wf(&self) -> bool {
        distinct_keys(self.entries@)
    }

    pub fn new() -> (r: StringMap<V>)
        ensures
            r@ == Map::<Seq<char>, V>::empty(),
            r.wf(),
            r.entries@.len() == 0,
    {
        StringMap { entries: Vec::new() }
    }

    /// Index of the first entry with the given key, if any.
    fn find(&self, key: &str) -> (r: Option<usize>)
        ensures
            match r {
                Some(i) => i < self.entries@.len() && self.entries@[i as int].0@ == key@
                    && (forall|j: int| 0 <= j < i ==> self.entries@[j].0@ != key@),
                None => forall|i: int|
                    0 <= i < self.entries@.len() ==> self.entries@[i].0@ != key@,
            },
    {
        let n = self.entries.len();
        for i in 0..n
            invariant
                n == self.entries@.len(),
                forall|j: int| 0 <= j < i ==> self.entries@[j].0@ != key@,
        {
            if str_eq(self.entries[i].0.as_str(), key) {
                return Some(i);
            }
        }
        None
    }

    pub fn contains_key(&self, key: &str) -> (r: bool)
        requires
            self.wf(),
        ensures
            r == self@.contains_key(key@),
    {
        proof {
            lemma_assoc_contains(self.entries@, key@);
        }
        self.find(key).is_some()
    }

    pub fn get(&self, key: &str) -> (r: Option<&V>)
        requires
            self.wf(),
        ensures
            match r {
                Some(v) => self@.contains_key(key@) && *v == self@[key@],
                None => !self@.contains_key(key@),
            },
    {
        proof {
            lemma_assoc_contains(self.entries@, key@);
        }
        match self.find(key) {
            Some(i) => {
                proof {
                    lemma_assoc_index(self.entries@, i as int);
                }
                Some(&self.entries[i].1)
            },
            None => None,
        }
    }

    pub fn insert(&mut self, key: String, value: V)
        requires
            old(self).wf(),
        ensures
            final(self)@ == old(self)@.insert(key@, value),
            final(self).wf(),
            !old(self)@.contains_key(key@) ==> final(self).entries@ == old(self).entries@.push(
                (key, value),
            ),
            old(self)@.contains_key(key@) ==> (exists|i: int|
                {
                    &&& 0 <= i < old(self).entries@.len()
                    &&& (#[trigger] old(self).entries@[i]).0@ == key@
                    &&& (forall|j: int| 0 <= j < i ==> old(self).entries@[j].0@ != key@)
                    &&& final(self).entries@ == old(self).entries@.update(i, (key, value))
                }),
    {
        proof {
            lemma_assoc_contains(self.entries@, key@);
        }
        match self.find(key.as_str()) {
            Some(i) => {
                let ghost pre = self.entries@;
                self.entries.remove(i);
                self.entries.insert(i, (key, value));
                proof {
                    assert(self.entries@ =~= pre.update(i as int, (key, value)));
                    lemma_assoc_update(pre, i as int, (key, value));
                    assert(final(self).entries@ == pre.update(i as int, (key, value)));
                }
            },
            None => {
                let ghost pre = self.entries@;
                self.entries.push((key, value));
                proof {
                    assert(self.entries@.drop_last() =~= pre);
                    assert(final(self).entries@ =~= pre.push((key, value)));
                }
            },
        }
    }

    pub fn remove(&mut self, key: &str) -> (r: Option<V>)
        requires
            old(self).wf(),
        ensures
            final(self)@ == old(self)@.remove(key@),
            final(self).wf(),
            match r {
                Some(v) => old(self)@.contains_key(key@) && v == old(self)@[key@],
                None => !old(self)@.contains_key(key@),
            },
    {
        proof {
            lemma_assoc_contains(self.entries@, key@);
        }
        match self.find(key) {
            Some(i) => {
                let ghost pre = self.entries@;
                proof {
                    lemma_assoc_index(self.entries@, i as int);
                }
                let (_k, v) = self.entries.remove(i);
                proof {
                    lemma_assoc_remove(pre, i as int);
                    assert(self.entries@ =~= pre.remove(i as int));
                }
                Some(v)
            },
            None => {
                proof {
                    assert(self@ =~= self@.remove(key@));
                }
                None
            },
        }
    }

    pub fn len(&self) -> (r: usize)
        requires
            self.wf(),
        ensures
            r == self@.dom().len(),
            r == self.entries@.len(),
    {
        proof {
            lemma_assoc_dom_len(self.entries@);
        }
        self.entries.len()
    }
}

/// Updating the value at position `i` updates the map at that entry's key.
pub proof fn lemma_assoc_update<V>(s: Seq<(String, V)>, i: int, e: (String, V))
    requires
        distinct_keys(s),
        0 <= i < s.len(),
        e.0@ == s[i].0@,
    ensures
        assoc_map(s.update(i, e)) == assoc_map(s).insert(e.0@, e.1),
        distinct_keys(s.update(i, e)),
    decreases s.len(),
{
    let t = s.update(i, e);
    assert(forall|j: int, l: int|
        0 <= j < l < t.len() ==> #[trigger] t[j].0@ != #[trigger] t[l].0@) by {
        assert(forall|j: int| 0 <= j < t.len() ==> t[j].0@ == s[j].0@);
    }
    if i == s.len() - 1 {
        assert(t.drop_last() =~= s.drop_last());
    } else {
        lemma_assoc_update(s.drop_last(), i, e);
        assert(t.drop_last() =~= s.drop_last().update(i, e));
        assert(t.last() == s.last());
        assert(e.0@ != s.last().0@);
        assert(assoc_map(t) == assoc_map(s.drop_last()).insert(e.0@, e.1).insert(
            s.last().0@,
            s.last().1,
        ));
        assert(assoc_map(s.drop_last()).insert(e.0@, e.1).insert(s.last().0@, s.last().1)
            =~= assoc_map(s.drop_last()).insert(s.last().0@, s.last().1).insert(e.0@, e.1));
    }
}

/// Removing the entry at position `i` removes that entry's key from the map.
pub proof fn lemma_assoc_remove<V>(s: Seq<(String, V)>, i: int)
    requires
        distinct_keys(s),
        0 <= i < s.len(),
    ensures
        assoc_map(s.remove(i)) == assoc_map(s).remove(s[i].0@),
        distinct_keys(s.remove(i)),
    decreases s.len(),
{
    let t = s.remove(i);
    assert(forall|j: int, l: int|
        0 <= j < l < t.len() ==> #[trigger] t[j].0@ != #[trigger] t[l].0@) by {
        assert(forall|j: int|
            0 <= j < t.len() ==> t[j] == (if j < i {
                s[j]
            } else {
                s[j + 1]
            }));
    }
    if i == s.len() - 1 {
        assert(t =~= s.drop_last());
        lemma_assoc_contains(s.drop_last(), s[i].0@);
        assert(assoc_map(s.drop_last()) =~= assoc_map(s.drop_last()).remove(s[i].0@));
    } else {
        lemma_assoc_remove(s.drop_last(), i);
        assert(t.drop_last() =~= s.drop_last().remove(i));
        assert(t.last() == s.last());
        assert(assoc_map(t) == assoc_map(s.drop_last()).remove(s[i].0@).insert(
            s.last().0@,
            s.last().1,
        ));
        assert(s[i].0@ != s.last().0@);
        assert(assoc_map(s.drop_last()).remove(s[i].0@).insert(s.last().0@, s.last().1)
            =~= assoc_map(s.drop_last()).insert(s.last().0@, s.last().1).remove(s[i].0@));
    }
}

} // verus!
