//! Values under text keys, each key once, in the order in which the keys came.

use crate::text::same;
use vstd::prelude::*;

verus! {

/// The value of the first entry with that key.
pub open spec fn lookup<V>(s: Seq<(Seq<char>, V)>, key: Seq<char>) -> Option<V>
    decreases s.len(),
{
    if s.len() == 0 {
        None
    } else if s[0].0 == key {
        Some(s[0].1)
    } else {
        lookup(s.skip(1), key)
    }
}

/// The entries with `value` under `key`: in the place of the first entry with that
/// key, or at the end.
pub open spec fn put<V>(s: Seq<(Seq<char>, V)>, key: Seq<char>, value: V) -> Seq<(Seq<char>, V)>
    decreases s.len(),
{
    if s.len() == 0 {
        seq![(key, value)]
    } else if s[0].0 == key {
        seq![(key, value)] + s.skip(1)
    } else {
        seq![s[0]] + put(s.skip(1), key, value)
    }
}

/// No key stands twice.
pub open spec fn distinct<V>(s: Seq<(Seq<char>, V)>) -> bool {
    forall|i: int, j: int| 0 <= i < j < s.len() ==> (#[trigger] s[i]).0 != (#[trigger] s[j]).0
}

/// What was put under a key is found there, and other keys keep what they had.
pub proof fn lookup_after_put<V>(s: Seq<(Seq<char>, V)>, key: Seq<char>, value: V, k: Seq<char>)
    ensures
        lookup(put(s, key, value), k) == (if k == key {
            Some(value)
        } else {
            lookup(s, k)
        }),
    decreases s.len(),
{
    let t = put(s, key, value);
    if s.len() == 0 {
        assert(t.skip(1) =~= s);
    } else if s[0].0 == key {
        assert(t.skip(1) =~= s.skip(1));
    } else {
        assert(t[0] == s[0]);
        assert(t.skip(1) =~= put(s.skip(1), key, value));
        lookup_after_put(s.skip(1), key, value, k);
    }
}

/// Every listed key is found.
pub proof fn lookup_listed<V>(s: Seq<(Seq<char>, V)>, i: int)
    requires
        0 <= i < s.len(),
    ensures
        lookup(s, s[i].0) is Some,
    decreases s.len(),
{
    if i > 0 && s[0].0 != s[i].0 {
        assert(s.skip(1)[i - 1] == s[i]);
        lookup_listed(s.skip(1), i - 1);
    }
}

/// Where no key stands twice, the value under a listed key is the listed value.
pub proof fn lookup_distinct<V>(s: Seq<(Seq<char>, V)>, i: int)
    requires
        0 <= i < s.len(),
        distinct(s),
    ensures
        lookup(s, s[i].0) == Some(s[i].1),
    decreases s.len(),
{
    if i > 0 {
        assert(s[0].0 != s[i].0);
        assert(s.skip(1)[i - 1] == s[i]);
        assert forall|a: int, b: int| 0 <= a < b < s.skip(1).len() implies (#[trigger] s.skip(
            1,
        )[a]).0 != (#[trigger] s.skip(1)[b]).0 by {
            assert(s.skip(1)[a] == s[a + 1]);
            assert(s.skip(1)[b] == s[b + 1]);
        }
        lookup_distinct(s.skip(1), i - 1);
    }
}

/// Putting changes the value of the first entry with the key, or adds an entry.
pub proof fn put_shape<V>(s: Seq<(Seq<char>, V)>, key: Seq<char>, value: V, i: int)
    requires
        0 <= i <= s.len(),
        forall|j: int| 0 <= j < i ==> (#[trigger] s[j]).0 != key,
        i < s.len() ==> s[i].0 == key,
    ensures
        i < s.len() ==> put(s, key, value) == s.update(i, (key, value)) && lookup(s, key) == Some(
            s[i].1,
        ),
        i == s.len() ==> put(s, key, value) == s.push((key, value)) && lookup(s, key) is None,
    decreases s.len(),
{
    if s.len() == 0 {
        assert(put(s, key, value) =~= s.push((key, value)));
    } else if i == 0 {
        assert(put(s, key, value) =~= s.update(0, (key, value)));
    } else {
        assert(s[0].0 != key);
        assert forall|j: int| 0 <= j < i - 1 implies (#[trigger] s.skip(1)[j]).0 != key by {
            assert(s.skip(1)[j] == s[j + 1]);
        }
        if i < s.len() {
            assert(s.skip(1)[i - 1] == s[i]);
        }
        put_shape(s.skip(1), key, value, i - 1);
        if i < s.len() {
            assert(put(s, key, value) =~= s.update(i, (key, value)));
        } else {
            assert(put(s, key, value) =~= s.push((key, value)));
        }
    }
}

/// Putting keeps the keys distinct.
pub proof fn put_keeps_distinct<V>(s: Seq<(Seq<char>, V)>, key: Seq<char>, value: V)
    requires
        distinct(s),
    ensures
        distinct(put(s, key, value)),
{
    let i = first_with(s, key);
    lemma_first_with(s, key);
    put_shape(s, key, value, i);
    let t = put(s, key, value);
    assert forall|a: int, b: int| 0 <= a < b < t.len() implies (#[trigger] t[a]).0
        != (#[trigger] t[b]).0 by {
        if i < s.len() {
            assert(t[a].0 == s[a].0);
            assert(t[b].0 == s[b].0);
        } else if b < s.len() {
            assert(t[a] == s[a] && t[b] == s[b]);
        } else {
            assert(t[a] == s[a]);
        }
    }
}

/// The position of the first entry with the key, or the end.
pub open spec fn first_with<V>(s: Seq<(Seq<char>, V)>, key: Seq<char>) -> int
    decreases s.len(),
{
    if s.len() == 0 || s[0].0 == key {
        0
    } else {
        1 + first_with(s.skip(1), key)
    }
}

pub proof fn lemma_first_with<V>(s: Seq<(Seq<char>, V)>, key: Seq<char>)
    ensures
        0 <= first_with(s, key) <= s.len(),
        forall|j: int| 0 <= j < first_with(s, key) ==> (#[trigger] s[j]).0 != key,
        first_with(s, key) < s.len() ==> s[first_with(s, key)].0 == key,
    decreases s.len(),
{
    if s.len() > 0 && s[0].0 != key {
        lemma_first_with(s.skip(1), key);
        let i = first_with(s, key);
        assert forall|j: int| 0 <= j < i implies (#[trigger] s[j]).0 != key by {
            if j > 0 {
                assert(s.skip(1)[j - 1] == s[j]);
            }
        }
        if i < s.len() {
            assert(s.skip(1)[i - 1] == s[i]);
        }
    }
}

/// Values under text keys, each key once.
#[derive(Debug)]
pub struct Assoc<V> {
    entries: Vec<(String, V)>,
}

impl<V> View for Assoc<V> {
    type V = Seq<(Seq<char>, V)>;

    closed spec fn view(&self) -> Seq<(Seq<char>, V)> {
        self.entries@.map_values(|e: (String, V)| (e.0@, e.1))
    }
}

impl<V> Assoc<V> {
    /// No key stands twice.
    #[verifier::type_invariant]
    spec fn wf(self) -> bool {
        distinct(self@)
    }

    /// No entries.
    pub fn new() -> (r: Assoc<V>)
        ensures
            r@ == Seq::<(Seq<char>, V)>::empty(),
    {
        let r: Assoc<V> = Assoc { entries: Vec::new() };
        assert(r@ =~= Seq::<(Seq<char>, V)>::empty());
        r
    }

    /// The number of keys.
    pub fn len(&self) -> (n: usize)
        ensures
            n == self@.len(),
            distinct(self@),
    {
        proof {
            use_type_invariant(&*self);
        }
        self.entries.len()
    }

    /// The key of the `i`-th entry.
    pub fn key_at(&self, i: usize) -> (r: &str)
        requires
            i < self@.len(),
        ensures
            r@ == self@[i as int].0,
    {
        self.entries[i].0.as_str()
    }

    /// The value of the `i`-th entry.
    pub fn value_at(&self, i: usize) -> (r: &V)
        requires
            i < self@.len(),
        ensures
            *r == self@[i as int].1,
    {
        &self.entries[i].1
    }

    /// Adds a key that is not there yet.
    pub fn push(&mut self, key: &str, value: V)
        requires
            lookup(old(self)@, key@) is None,
        ensures
            final(self)@ == old(self)@.push((key@, value)),
            distinct(final(self)@),
    {
        proof {
            let s = self@;
            lemma_first_with(s, key@);
            put_shape(s, key@, value, first_with(s, key@));
        }
        self.insert(key, value);
    }

    /// The position of the first entry with the key, or the end.
    pub fn position(&self, key: &str) -> (r: usize)
        ensures
            r == first_with(self@, key@),
            r <= self@.len(),
            r < self@.len() ==> self@[r as int].0 == key@ && lookup(self@, key@) == Some(
                self@[r as int].1,
            ),
            r == self@.len() ==> lookup(self@, key@) is None,
    {
        let mut i: usize = 0;
        let ghost all = self@;
        while i < self.entries.len()
            invariant
                i <= all.len(),
                all == self@,
                all.len() == self.entries@.len(),
                forall|j: int| 0 <= j < i ==> (#[trigger] all[j]).0 != key@,
            decreases self.entries@.len() - i,
        {
            assert(all[i as int].0 == self.entries@[i as int].0@);
            if same(self.entries[i].0.as_str(), key) {
                proof {
                    lemma_first_with(all, key@);
                    put_shape(all, key@, all[i as int].1, i as int);
                    let w = first_with(all, key@);
                    if w < i {
                        assert(all[w].0 != key@);
                    } else if i < w {
                        assert(all[i as int].0 != key@);
                    }
                }
                return i;
            }
            i += 1;
        }
        proof {
            lemma_first_with(all, key@);
            let w = first_with(all, key@);
            if w < all.len() {
                assert(all[w].0 != key@);
            }
            lemma_lookup_none(all, key@);
        }
        i
    }

    /// The value under `key`.
    pub fn get(&self, key: &str) -> (r: Option<&V>)
        ensures
            match r {
                Some(v) => lookup(self@, key@) == Some(*v),
                None => lookup(self@, key@) is None,
            },
    {
        let i: usize = self.position(key);
        if i < self.entries.len() {
            Some(&self.entries[i].1)
        } else {
            None
        }
    }

    /// Puts `value` under `key`.
    pub fn insert(&mut self, key: &str, value: V)
        ensures
            final(self)@ == put(old(self)@, key@, value),
            distinct(final(self)@),
    {
        let i: usize = self.position(key);
        let ghost was = self@;
        proof {
            use_type_invariant(&*self);
            lemma_first_with(was, key@);
            put_shape(was, key@, value, i as int);
            put_keeps_distinct(was, key@, value);
        }
        let mut mine: Vec<(String, V)> = Vec::new();
        std::mem::swap(&mut mine, &mut self.entries);
        if i < mine.len() {
            mine.set(i, (key.to_owned(), value));
        } else {
            mine.push((key.to_owned(), value));
        }
        proof {
            let now = mine@.map_values(|e: (String, V)| (e.0@, e.1));
            if i < was.len() {
                assert(now =~= was.update(i as int, (key@, value)));
            } else {
                assert(now =~= was.push((key@, value)));
            }
        }
        self.entries = mine;
    }
}

/// A key that is not listed is not found.
pub proof fn lemma_lookup_none<V>(s: Seq<(Seq<char>, V)>, key: Seq<char>)
    requires
        forall|j: int| 0 <= j < s.len() ==> (#[trigger] s[j]).0 != key,
    ensures
        lookup(s, key) is None,
    decreases s.len(),
{
    if s.len() > 0 {
        assert(s[0].0 != key);
        assert forall|j: int| 0 <= j < s.skip(1).len() implies (#[trigger] s.skip(1)[j]).0
            != key by {
            assert(s.skip(1)[j] == s[j + 1]);
        }
        lemma_lookup_none(s.skip(1), key);
    }
}

} // verus!
