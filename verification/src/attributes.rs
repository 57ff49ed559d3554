//! Attribute lists: string keys with string values, each key at most once,
//! kept in the order in which the keys first arrived.

use vstd::prelude::*;

verus! {

/// Whether no key occurs twice in `pairs`.
pub open spec fn keys_distinct(pairs: Seq<(Seq<char>, Seq<char>)>) -> bool {
    forall|i: int, j: int| 0 <= i < j < pairs.len() ==> pairs[i].0 != pairs[j].0
}

/// Whether `key` occurs in `pairs`.
pub open spec fn has_key(pairs: Seq<(Seq<char>, Seq<char>)>, key: Seq<char>) -> bool {
    exists|i: int| 0 <= i < pairs.len() && pairs[i].0 == key
}

/// A place at which `key` stands in `pairs`, if it occurs there.
pub open spec fn index_of(pairs: Seq<(Seq<char>, Seq<char>)>, key: Seq<char>) -> int {
    choose|i: int| 0 <= i < pairs.len() && pairs[i].0 == key
}

/// The value that `pairs` gives to `key`.
pub open spec fn lookup(pairs: Seq<(Seq<char>, Seq<char>)>, key: Seq<char>) -> Option<Seq<char>> {
    if has_key(pairs, key) {
        Some(pairs[index_of(pairs, key)].1)
    } else {
        None
    }
}

/// `pairs` with `key` set to `value`: a key already there keeps its place and
/// gets the new value, a new key goes to the end.
pub open spec fn put(pairs: Seq<(Seq<char>, Seq<char>)>, key: Seq<char>, value: Seq<char>) -> Seq<
    (Seq<char>, Seq<char>),
> {
    if has_key(pairs, key) {
        pairs.update(index_of(pairs, key), (key, value))
    } else {
        pairs.push((key, value))
    }
}

/// `base` after every pair of `more` was put into it, first to last.
pub open spec fn merge(base: Seq<(Seq<char>, Seq<char>)>, more: Seq<(Seq<char>, Seq<char>)>) -> Seq<
    (Seq<char>, Seq<char>),
>
    decreases more.len(),
{
    if more.len() == 0 {
        base
    } else {
        put(merge(base, more.drop_last()), more.last().0, more.last().1)
    }
}

/// With distinct keys, the place of a key is the only place that holds it.
pub proof fn lemma_index_of_unique(pairs: Seq<(Seq<char>, Seq<char>)>, i: int)
    requires
        keys_distinct(pairs),
        0 <= i < pairs.len(),
    ensures
        has_key(pairs, pairs[i].0),
        index_of(pairs, pairs[i].0) == i,
{
    let j = index_of(pairs, pairs[i].0);
    assert(0 <= j < pairs.len() && pairs[j].0 == pairs[i].0);
    if j < i {
        assert(pairs[j].0 != pairs[i].0);
    } else if i < j {
        assert(pairs[i].0 != pairs[j].0);
    }
}

/// Putting a pair keeps the keys distinct.
pub proof fn lemma_put_distinct(pairs: Seq<(Seq<char>, Seq<char>)>, key: Seq<char>, value: Seq<char>)
    requires
        keys_distinct(pairs),
    ensures
        keys_distinct(put(pairs, key, value)),
        has_key(put(pairs, key, value), key),
        lookup(put(pairs, key, value), key) == Some(value),
{
    let after = put(pairs, key, value);
    if has_key(pairs, key) {
        let at = index_of(pairs, key);
        assert(after[at].0 == key);
        assert forall|i: int, j: int| 0 <= i < j < after.len() implies after[i].0 != after[j].0 by {
            assert(after[i].0 == pairs[i].0);
            assert(after[j].0 == pairs[j].0);
        }
        lemma_index_of_unique(after, at);
    } else {
        let at = pairs.len() as int;
        assert(after[at].0 == key);
        assert forall|i: int, j: int| 0 <= i < j < after.len() implies after[i].0 != after[j].0 by {
            if j < pairs.len() {
                assert(after[i].0 == pairs[i].0);
                assert(after[j].0 == pairs[j].0);
            } else {
                assert(after[i].0 == pairs[i].0);
            }
        }
        lemma_index_of_unique(after, at);
    }
}

/// Merging keeps the keys distinct.
pub proof fn lemma_merge_distinct(base: Seq<(Seq<char>, Seq<char>)>, more: Seq<(Seq<char>, Seq<char>)>)
    requires
        keys_distinct(base),
    ensures
        keys_distinct(merge(base, more)),
    decreases more.len(),
{
    if more.len() > 0 {
        lemma_merge_distinct(base, more.drop_last());
        lemma_put_distinct(merge(base, more.drop_last()), more.last().0, more.last().1);
    }
}

/// Merging puts the first pair first.
pub proof fn lemma_merge_front(base: Seq<(Seq<char>, Seq<char>)>, more: Seq<(Seq<char>, Seq<char>)>)
    requires
        more.len() > 0,
    ensures
        merge(base, more) == merge(put(base, more[0].0, more[0].1), more.skip(1)),
    decreases more.len(),
{
    let d = more.drop_last();
    let started = put(base, more[0].0, more[0].1);
    if more.len() == 1 {
        assert(merge(base, d) == base);
        assert(more.skip(1).len() == 0);
        assert(merge(started, more.skip(1)) == started);
    } else {
        lemma_merge_front(base, d);
        assert(d[0] == more[0]);
        assert(d.skip(1) =~= more.skip(1).drop_last());
        assert(more.skip(1).last() == more.last());
    }
}

/// Merging pairs with distinct keys into an empty list gives those pairs.
pub proof fn lemma_merge_identity(more: Seq<(Seq<char>, Seq<char>)>)
    requires
        keys_distinct(more),
    ensures
        merge(Seq::empty(), more) == more,
    decreases more.len(),
{
    if more.len() > 0 {
        let d = more.drop_last();
        lemma_merge_identity(d);
        if has_key(d, more.last().0) {
            let i = choose|i: int| 0 <= i < d.len() && d[i].0 == more.last().0;
            assert(more[i].0 == more[more.len() - 1].0);
        }
        assert(d.push(more.last()) =~= more);
    }
}

/// The pairs that a vector of entries stands for.
pub open spec fn pairs_of(entries: Seq<(String, String)>) -> Seq<(Seq<char>, Seq<char>)> {
    Seq::new(entries.len(), |i: int| (entries[i].0@, entries[i].1@))
}

/// A list of attributes: each key once, in the order of first arrival.
#[derive(Debug)]
pub struct Attributes {
    entries: Vec<(String, String)>,
}

impl View for Attributes {
    type V = Seq<(Seq<char>, Seq<char>)>;

    closed spec fn view(&self) -> Seq<(Seq<char>, Seq<char>)> {
        pairs_of(self.entries@)
    }
}

impl Attributes {
    /// No key occurs twice.
    #[verifier::type_invariant]
    pub open spec fn well_formed(&self) -> bool {
        keys_distinct(self@)
    }

    /// An empty list.
    pub fn new() -> (attrs: Attributes)
        ensures
            attrs@ == Seq::<(Seq<char>, Seq<char>)>::empty(),
            attrs.well_formed(),
    {
        let attrs = Attributes { entries: Vec::new() };
        assert(attrs@ =~= Seq::<(Seq<char>, Seq<char>)>::empty());
        attrs
    }

    /// The number of keys.
    pub fn len(&self) -> (n: usize)
        ensures
            n == self@.len(),
    {
        self.entries.len()
    }

    /// Whether the list holds no key.
    pub fn is_empty(&self) -> (empty: bool)
        ensures
            empty == (self@.len() == 0),
    {
        self.entries.len() == 0
    }

    /// The key and value at place `i`, counted in order of first arrival.
    pub fn entry(&self, i: usize) -> (pair: Option<(&String, &String)>)
        ensures
            self.well_formed(),
            match pair {
                Some((k, v)) => i < self@.len() && k@ == self@[i as int].0 && v@ == self@[i as int].1,
                None => i >= self@.len(),
            },
    {
        proof {
            use_type_invariant(self);
        }
        if i < self.entries.len() {
            let e = &self.entries[i];
            Some((&e.0, &e.1))
        } else {
            None
        }
    }

    /// The place of `key`, if the list holds it.
    fn position(&self, key: &str) -> (at: Option<usize>)
        ensures
            match at {
                Some(i) => i < self@.len() && self@[i as int].0 == key@ && has_key(self@, key@)
                    && index_of(self@, key@) == i,
                None => !has_key(self@, key@),
            },
    {
        proof {
            use_type_invariant(self);
        }
        let wanted = key.to_owned();
        let mut i: usize = 0;
        while i < self.entries.len()
            invariant
                i <= self.entries@.len(),
                wanted@ == key@,
                keys_distinct(self@),
                forall|j: int| 0 <= j < i ==> self@[j].0 != key@,
            decreases self.entries@.len() - i,
        {
            if self.entries[i].0 == wanted {
                proof {
                    lemma_index_of_unique(self@, i as int);
                }
                return Some(i);
            }
            i += 1;
        }
        None
    }

    /// Whether the list holds `key`.
    pub fn contains_key(&self, key: &str) -> (found: bool)
        ensures
            found == has_key(self@, key@),
    {
        self.position(key).is_some()
    }

    /// The value of `key`, if the list holds it.
    pub fn get(&self, key: &str) -> (value: Option<&String>)
        ensures
            match value {
                Some(v) => lookup(self@, key@) == Some(v@),
                None => lookup(self@, key@) is None,
            },
    {
        match self.position(key) {
            Some(i) => Some(&self.entries[i].1),
            None => None,
        }
    }

    /// Sets `key` to `value`. A key that is already there keeps its place and
    /// gets the new value; a new key goes to the end.
    pub fn insert(&mut self, key: String, value: String)
        ensures
            final(self)@ == put(old(self)@, key@, value@),
            final(self).well_formed(),
    {
        proof {
            use_type_invariant(&*self);
            lemma_put_distinct(self@, key@, value@);
        }
        let at = self.position(key.as_str());
        let mut entries: Vec<(String, String)> = Vec::new();
        core::mem::swap(&mut self.entries, &mut entries);
        match at {
            Some(i) => {
                entries.set(i, (key, value));
            },
            None => {
                entries.push((key, value));
            },
        }
        assert(pairs_of(entries@) =~= put(old(self)@, key@, value@));
        core::mem::swap(&mut self.entries, &mut entries);
    }

    /// Puts every pair of `other` into this list, first to last, so that a
    /// later value replaces an earlier one of the same key.
    pub fn extend(&mut self, other: &Attributes)
        ensures
            final(self)@ == merge(old(self)@, other@),
            final(self).well_formed(),
    {
        proof {
            use_type_invariant(&*self);
        }
        let mut i: usize = 0;
        while i < other.entries.len()
            invariant
                i <= other.entries@.len(),
                self@ == merge(old(self)@, other@.take(i as int)),
                self.well_formed(),
            decreases other.entries@.len() - i,
        {
            let key = other.entries[i].0.clone();
            let value = other.entries[i].1.clone();
            proof {
                assert(other@.take(i + 1).drop_last() =~= other@.take(i as int));
                assert(other@.take(i + 1).last() == other@[i as int]);
            }
            self.insert(key, value);
            i += 1;
        }
        proof {
            assert(other@.take(i as int) =~= other@);
        }
    }

}

impl Clone for Attributes {
    /// A copy with the same pairs in the same order.
    fn clone(&self) -> (copy: Attributes)
        ensures
            copy@ == self@,
    {
        proof {
            use_type_invariant(self);
        }
        let mut entries: Vec<(String, String)> = Vec::new();
        let mut i: usize = 0;
        while i < self.entries.len()
            invariant
                i <= self.entries@.len(),
                entries@.len() == i,
                forall|j: int|
                    0 <= j < i ==> entries@[j].0@ == self.entries@[j].0@ && entries@[j].1@
                        == self.entries@[j].1@,
            decreases self.entries@.len() - i,
        {
            entries.push((self.entries[i].0.clone(), self.entries[i].1.clone()));
            i += 1;
        }
        assert(pairs_of(entries@) =~= self@);
        Attributes { entries }
    }
}

} // verus!
