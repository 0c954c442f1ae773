//! A map from text keys to text values, kept sorted by key.
//!
//! This is the ordered string map behind a bundle's files and metadata:
//! iteration is in ascending key order, and inserting an existing key
//! replaces its value.

use crate::text::{chars_of, compare, lemma_lex_asymmetric, lemma_lex_irreflexive, lemma_lex_transitive, lex_lt, Order};
use vstd::prelude::*;

verus! {

/// The value of the last entry of `s` whose key is `k`.
pub open spec fn lookup(s: Seq<(Seq<char>, Seq<char>)>, k: Seq<char>) -> Option<Seq<char>>
    decreases s.len(),
{
    if s.len() == 0 {
        None
    } else if s.last().0 == k {
        Some(s.last().1)
    } else {
        lookup(s.drop_last(), k)
    }
}

/// The keys of `s` are strictly ascending.
pub open spec fn keys_sorted(s: Seq<(Seq<char>, Seq<char>)>) -> bool {
    forall|i: int, j: int| 0 <= i < j < s.len() ==> lex_lt(#[trigger] s[i].0, #[trigger] s[j].0)
}

/// No two entries of `s` share a key.
pub open spec fn keys_distinct(s: Seq<(Seq<char>, Seq<char>)>) -> bool {
    forall|i: int, j: int| 0 <= i < s.len() && 0 <= j < s.len() && i != j ==> #[trigger] s[i].0
        != #[trigger] s[j].0
}

pub proof fn lemma_sorted_distinct(s: Seq<(Seq<char>, Seq<char>)>)
    requires
        keys_sorted(s),
    ensures
        keys_distinct(s),
{
    assert forall|i: int, j: int| 0 <= i < s.len() && 0 <= j < s.len() && i != j implies #[trigger] s[i].0
        != #[trigger] s[j].0 by {
        if i < j {
            lemma_lex_irreflexive(s[i].0);
        } else {
            lemma_lex_irreflexive(s[j].0);
        }
    }
}

/// With distinct keys, `lookup` finds the one entry holding the key.
pub proof fn lemma_lookup_distinct(s: Seq<(Seq<char>, Seq<char>)>, k: Seq<char>)
    requires
        keys_distinct(s),
    ensures
        (forall|i: int| 0 <= i < s.len() ==> s[i].0 != k) ==> lookup(s, k) is None,
        forall|i: int| 0 <= i < s.len() && s[i].0 == k ==> lookup(s, k) == Some(s[i].1),
    decreases s.len(),
{
    if s.len() > 0 {
        let t = s.drop_last();
        assert(keys_distinct(t)) by {
            assert forall|i: int, j: int| 0 <= i < t.len() && 0 <= j < t.len() && i != j implies #[trigger] t[i].0
                != #[trigger] t[j].0 by {
                assert(t[i] == s[i] && t[j] == s[j]);
            }
        }
        lemma_lookup_distinct(t, k);
        assert forall|i: int| 0 <= i < s.len() && s[i].0 == k implies lookup(s, k) == Some(
            s[i].1,
        ) by {
            if i < s.len() - 1 {
                assert(t[i] == s[i]);
            }
        }
        if forall|i: int| 0 <= i < s.len() ==> s[i].0 != k {
            assert(s.last() == s[s.len() - 1]);
            assert forall|i: int| 0 <= i < t.len() implies t[i].0 != k by {
                assert(t[i] == s[i]);
            }
        }
    }
}

/// A sequence with ascending keys is determined by what `lookup` gives for
/// each key.
pub proof fn lemma_sorted_determined(
    s1: Seq<(Seq<char>, Seq<char>)>,
    s2: Seq<(Seq<char>, Seq<char>)>,
)
    requires
        keys_sorted(s1),
        keys_sorted(s2),
        forall|k: Seq<char>| lookup(s1, k) == lookup(s2, k),
    ensures
        s1 == s2,
    decreases s1.len() + s2.len(),
{
    lemma_sorted_distinct(s1);
    lemma_sorted_distinct(s2);
    if s1.len() == 0 || s2.len() == 0 {
        if s1.len() > 0 {
            assert(lookup(s1, s1.last().0) is Some);
            assert(lookup(s2, s1.last().0) is None);
        } else if s2.len() > 0 {
            assert(lookup(s2, s2.last().0) is Some);
            assert(lookup(s1, s2.last().0) is None);
        } else {
            assert(s1 =~= s2);
        }
    } else {
        let n1 = s1.len() - 1;
        let n2 = s2.len() - 1;
        let k1 = s1[n1].0;
        let k2 = s2[n2].0;
        assert(s1.last() == s1[n1]);
        assert(s2.last() == s2[n2]);
        lemma_lookup_distinct(s1, k1);
        lemma_lookup_distinct(s2, k1);
        lemma_lookup_distinct(s1, k2);
        lemma_lookup_distinct(s2, k2);
        if k1 != k2 {
            assert(lookup(s1, k1) is Some);
            let j = choose|j: int| 0 <= j < s2.len() && s2[j].0 == k1;
            assert(lookup(s2, k2) is Some);
            let i = choose|i: int| 0 <= i < s1.len() && s1[i].0 == k2;
            assert(lex_lt(k1, k2));
            assert(lex_lt(k2, k1));
            lemma_lex_asymmetric(k1, k2);
        }
        assert(s1[n1].1 == s2[n2].1);
        let t1 = s1.drop_last();
        let t2 = s2.drop_last();
        assert forall|k: Seq<char>| lookup(t1, k) == lookup(t2, k) by {
            if k == k1 {
                lemma_lookup_distinct(s1, k);
                lemma_lookup_distinct(s2, k);
                assert(keys_distinct(t1)) by {
                    assert forall|i: int, j: int|
                        0 <= i < t1.len() && 0 <= j < t1.len() && i != j implies #[trigger] t1[i].0
                        != #[trigger] t1[j].0 by {
                        assert(t1[i] == s1[i] && t1[j] == s1[j]);
                    }
                }
                assert(keys_distinct(t2)) by {
                    assert forall|i: int, j: int|
                        0 <= i < t2.len() && 0 <= j < t2.len() && i != j implies #[trigger] t2[i].0
                        != #[trigger] t2[j].0 by {
                        assert(t2[i] == s2[i] && t2[j] == s2[j]);
                    }
                }
                lemma_lookup_distinct(t1, k);
                lemma_lookup_distinct(t2, k);
                assert forall|i: int| 0 <= i < t1.len() implies t1[i].0 != k by {
                    assert(t1[i] == s1[i]);
                }
                assert forall|i: int| 0 <= i < t2.len() implies t2[i].0 != k by {
                    assert(t2[i] == s2[i]);
                }
            } else {
                assert(lookup(s1, k) == lookup(t1, k));
                assert(lookup(s2, k) == lookup(t2, k));
            }
        }
        assert(keys_sorted(t1)) by {
            assert forall|i: int, j: int| 0 <= i < j < t1.len() implies lex_lt(#[trigger] t1[i].0, #[trigger] t1[j].0) by {
                assert(t1[i] == s1[i] && t1[j] == s1[j]);
            }
        }
        assert(keys_sorted(t2)) by {
            assert forall|i: int, j: int| 0 <= i < j < t2.len() implies lex_lt(#[trigger] t2[i].0, #[trigger] t2[j].0) by {
                assert(t2[i] == s2[i] && t2[j] == s2[j]);
            }
        }
        lemma_sorted_determined(t1, t2);
        assert(s1 =~= t1.push(s1[n1]));
        assert(s2 =~= t2.push(s2[n2]));
    }
}

/// An ordered map from text keys to text values.
#[derive(Debug)]
pub struct TextMap {
    entries: Vec<(String, String)>,
}

impl View for TextMap {
    type V = Seq<(Seq<char>, Seq<char>)>;

    /// The entries, in ascending key order.
    closed spec fn view(&self) -> Seq<(Seq<char>, Seq<char>)> {
        Seq::new(self.entries@.len(), |i: int| (self.entries@[i].0@, self.entries@[i].1@))
    }
}

impl TextMap {
    #[verifier::type_invariant]
    pub(crate) closed spec fn inv(self) -> bool {
        keys_sorted(self@)
    }

    /// An empty map.
    pub fn new() -> (m: TextMap)
        ensures
            m@ == Seq::<(Seq<char>, Seq<char>)>::empty(),
            keys_sorted(m@),
    {
        let m = TextMap { entries: Vec::new() };
        assert(m@ =~= Seq::<(Seq<char>, Seq<char>)>::empty());
        m
    }

    /// The number of entries; the keys are in strictly ascending order.
    pub fn len(&self) -> (n: usize)
        ensures
            n == self@.len(),
            keys_sorted(self@),
    {
        proof {
            use_type_invariant(self);
        }
        self.entries.len()
    }

    /// The `i`-th entry in key order.
    pub fn entry(&self, i: usize) -> (e: (&String, &String))
        requires
            i < self@.len(),
        ensures
            (e.0@, e.1@) == self@[i as int],
            keys_sorted(self@),
    {
        proof {
            use_type_invariant(self);
        }
        (&self.entries[i].0, &self.entries[i].1)
    }

    /// Sets `key` to `value`, replacing any value it had.
    pub fn insert(&mut self, key: String, value: String)
        ensures
            keys_sorted(final(self)@),
            forall|k: Seq<char>| #[trigger] lookup(final(self)@, k) == if k == key@ {
                Some(value@)
            } else {
                lookup(old(self)@, k)
            },
    {
        proof {
            use_type_invariant(&*self);
        }
        let ghost old_view = self@;
        let kc = chars_of(key.as_str());
        let mut v: Vec<(String, String)> = Vec::new();
        std::mem::swap(&mut v, &mut self.entries);
        let ghost vv = Seq::new(v@.len(), |i: int| (v@[i].0@, v@[i].1@));
        assert(vv =~= old_view);
        let n = v.len();
        let mut i: usize = 0;
        while i < n
            invariant
                n == v@.len(),
                i <= n,
                kc@ == key@,
                vv == Seq::new(v@.len(), |i: int| (v@[i].0@, v@[i].1@)),
                vv == old_view,
                old_view == old(self)@,
                keys_sorted(old_view),
                forall|j: int| 0 <= j < i ==> lex_lt(#[trigger] old_view[j].0, key@),
            decreases n - i,
        {
            let ki = chars_of(v[i].0.as_str());
            match compare(&kc, &ki) {
                Order::Equal => {
                    let ghost w = old_view.update(i as int, (key@, value@));
                    v.set(i, (key, value));
                    assert(Seq::new(v@.len(), |j: int| (v@[j].0@, v@[j].1@)) =~= w);
                    proof {
                        self.lemma_insert_update(old_view, i as int, key@, value@);
                    }
                    self.entries = v;
                    assert(self@ =~= w);
                    assert(forall|k: Seq<char>| #[trigger] lookup(w, k) == if k == key@ {
                        Some(value@)
                    } else {
                        lookup(old_view, k)
                    });
                    return ;
                },
                Order::Less => {
                    let ghost w = old_view.insert(i as int, (key@, value@));
                    v.insert(i, (key, value));
                    assert(Seq::new(v@.len(), |j: int| (v@[j].0@, v@[j].1@)) =~= w);
                    proof {
                        self.lemma_insert_before(old_view, i as int, key@, value@);
                    }
                    self.entries = v;
                    assert(self@ =~= w);
                    assert(forall|k: Seq<char>| #[trigger] lookup(w, k) == if k == key@ {
                        Some(value@)
                    } else {
                        lookup(old_view, k)
                    });
                    return ;
                },
                Order::Greater => {},
            }
            i = i + 1;
        }
        let ghost w = old_view.push((key@, value@));
        v.push((key, value));
        assert(Seq::new(v@.len(), |j: int| (v@[j].0@, v@[j].1@)) =~= w);
        proof {
            self.lemma_insert_before(old_view, n as int, key@, value@);
            assert(old_view.insert(n as int, (key@, value@)) =~= w);
        }
        self.entries = v;
        assert(self@ =~= w);
    }

    proof fn lemma_insert_update(
        &self,
        s: Seq<(Seq<char>, Seq<char>)>,
        i: int,
        key: Seq<char>,
        value: Seq<char>,
    )
        requires
            keys_sorted(s),
            0 <= i < s.len(),
            s[i].0 == key,
        ensures
            keys_sorted(s.update(i, (key, value))),
            forall|k: Seq<char>| #[trigger] lookup(s.update(i, (key, value)), k) == if k == key {
                Some(value)
            } else {
                lookup(s, k)
            },
    {
        let w = s.update(i, (key, value));
        assert forall|a: int, b: int| 0 <= a < b < w.len() implies lex_lt(#[trigger] w[a].0, #[trigger] w[b].0) by {
            assert(w[a].0 == s[a].0 && w[b].0 == s[b].0);
        }
        lemma_sorted_distinct(s);
        lemma_sorted_distinct(w);
        assert forall|k: Seq<char>| #[trigger] lookup(w, k) == if k == key {
            Some(value)
        } else {
            lookup(s, k)
        } by {
            lemma_lookup_distinct(s, k);
            lemma_lookup_distinct(w, k);
            if k != key {
                if exists|j: int| 0 <= j < s.len() && s[j].0 == k {
                    let j = choose|j: int| 0 <= j < s.len() && s[j].0 == k;
                    assert(w[j] == s[j]);
                } else {
                    assert forall|j: int| 0 <= j < w.len() implies w[j].0 != k by {
                        if j != i {
                            assert(w[j] == s[j]);
                        }
                    }
                }
            } else {
                assert(w[i].0 == k);
            }
        }
    }

    proof fn lemma_insert_before(
        &self,
        s: Seq<(Seq<char>, Seq<char>)>,
        i: int,
        key: Seq<char>,
        value: Seq<char>,
    )
        requires
            keys_sorted(s),
            0 <= i <= s.len(),
            forall|j: int| 0 <= j < i ==> lex_lt(#[trigger] s[j].0, key),
            i < s.len() ==> lex_lt(key, s[i].0),
        ensures
            keys_sorted(s.insert(i, (key, value))),
            forall|k: Seq<char>| #[trigger] lookup(s.insert(i, (key, value)), k) == if k == key {
                Some(value)
            } else {
                lookup(s, k)
            },
    {
        let w = s.insert(i, (key, value));
        assert forall|a: int, b: int| 0 <= a < b < w.len() implies lex_lt(#[trigger] w[a].0, #[trigger] w[b].0) by {
            if b < i {
                assert(w[a] == s[a] && w[b] == s[b]);
            } else if b == i {
                assert(w[a] == s[a]);
            } else if a < i {
                assert(w[a] == s[a] && w[b] == s[b - 1]);
                assert(lex_lt(s[a].0, key));
                assert(lex_lt(key, s[i].0));
                if b - 1 > i {
                    assert(lex_lt(s[i].0, s[b - 1].0));
                    lemma_lex_transitive(key, s[i].0, s[b - 1].0);
                }
                lemma_lex_transitive(s[a].0, key, s[b - 1].0);
            } else if a == i {
                assert(w[b] == s[b - 1]);
                if b - 1 > i {
                    assert(lex_lt(s[i].0, s[b - 1].0));
                    lemma_lex_transitive(key, s[i].0, s[b - 1].0);
                }
            } else {
                assert(w[a] == s[a - 1] && w[b] == s[b - 1]);
            }
        }
        lemma_sorted_distinct(s);
        lemma_sorted_distinct(w);
        assert forall|k: Seq<char>| #[trigger] lookup(w, k) == if k == key {
            Some(value)
        } else {
            lookup(s, k)
        } by {
            lemma_lookup_distinct(s, k);
            lemma_lookup_distinct(w, k);
            if k != key {
                if exists|j: int| 0 <= j < s.len() && s[j].0 == k {
                    let j = choose|j: int| 0 <= j < s.len() && s[j].0 == k;
                    if j < i {
                        assert(w[j] == s[j]);
                    } else {
                        assert(w[j + 1] == s[j]);
                    }
                } else {
                    assert forall|j: int| 0 <= j < w.len() implies w[j].0 != k by {
                        if j < i {
                            assert(w[j] == s[j]);
                        } else if j > i {
                            assert(w[j] == s[j - 1]);
                        }
                    }
                }
            } else {
                assert(w[i].0 == k);
            }
        }
    }

    /// The value stored under `key`.
    pub fn get(&self, key: &str) -> (r: Option<&String>)
        ensures
            match r {
                Some(v) => lookup(self@, key@) == Some(v@),
                None => lookup(self@, key@) is None,
            },
    {
        proof {
            use_type_invariant(self);
            lemma_sorted_distinct(self@);
            lemma_lookup_distinct(self@, key@);
        }
        let kc = chars_of(key);
        let n = self.entries.len();
        let mut i: usize = 0;
        while i < n
            invariant
                n == self@.len(),
                i <= n,
                kc@ == key@,
                keys_sorted(self@),
                forall|j: int| 0 <= j < i ==> (#[trigger] self@[j]).0 != key@,
            decreases n - i,
        {
            let ki = chars_of(self.entries[i].0.as_str());
            match compare(&kc, &ki) {
                Order::Equal => {
                    assert(self@[i as int] == (self.entries@[i as int].0@, self.entries@[i as int].1@));
                    assert(self@[i as int].0 == key@);
                    proof {
                        lemma_sorted_distinct(self@);
                        lemma_lookup_distinct(self@, key@);
                    }
                    return Some(&self.entries[i].1);
                },
                _ => {},
            }
            i = i + 1;
        }
        None
    }

    /// Whether `key` has a value.
    pub fn contains_key(&self, key: &str) -> (r: bool)
        ensures
            r == lookup(self@, key@) is Some,
    {
        self.get(key).is_some()
    }
}

} // verus!
