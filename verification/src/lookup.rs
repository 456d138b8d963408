//! Association maps keyed by strings, with mathematical `Map` views.
//!
//! Entries are kept in insertion order; a later binding of a key shadows an
//! earlier one, so a map's view is exactly the fold of its entries.

use vstd::prelude::*;

verus! {

/// A map from string keys to values of type `V`.
pub struct StrMap<V> {
    entries: Vec<(String, V)>,
}

spec fn map_of<V>(entries: Seq<(String, V)>) -> Map<Seq<char>, V>
    decreases entries.len(),
{
    if entries.len() == 0 {
        Map::empty()
    } else {
        map_of(entries.drop_last()).insert(entries.last().0@, entries.last().1)
    }
}

proof fn lemma_map_of_last_match<V>(s: Seq<(String, V)>, k: Seq<char>, i: int)
    requires
        0 <= i < s.len(),
        s[i].0@ == k,
        forall|j: int| i < j < s.len() ==> s[j].0@ != k,
    ensures
        map_of(s).dom().contains(k),
        map_of(s)[k] == s[i].1,
    decreases s.len(),
{
    if i == s.len() - 1 {
    } else {
        lemma_map_of_last_match(s.drop_last(), k, i);
    }
}

proof fn lemma_map_of_no_match<V>(s: Seq<(String, V)>, k: Seq<char>)
    requires
        forall|j: int| 0 <= j < s.len() ==> s[j].0@ != k,
    ensures
        !map_of(s).dom().contains(k),
    decreases s.len(),
{
    if s.len() > 0 {
        lemma_map_of_no_match(s.drop_last(), k);
    }
}

impl<V> View for StrMap<V> {
    type V = Map<Seq<char>, V>;

    closed spec fn view(&self) -> Map<Seq<char>, V> {
        map_of(self.entries@)
    }
}

impl<V> StrMap<V> {
    pub fn new() -> (r: Self)
        ensures
            r@ == Map::<Seq<char>, V>::empty(),
    {
        StrMap { entries: Vec::new() }
    }

    /// Binds `k` to `v`, shadowing any earlier binding.
    pub fn set(&mut self, k: String, v: V)
        ensures
            final(self)@ == old(self)@.insert(k@, v),
    {
        self.entries.push((k, v));
        proof {
            assert(self.entries@.drop_last() =~= old(self).entries@);
        }
    }

    /// The value bound to `k`, if any.
    pub fn get(&self, k: &str) -> (r: Option<&V>)
        ensures
            match r {
                Some(v) => self@.dom().contains(k@) && *v == self@[k@],
                None => !self@.dom().contains(k@),
            },
    {
        let mut i: usize = self.entries.len();
        while i > 0
            invariant
                i <= self.entries@.len(),
                forall|j: int| i <= j < self.entries@.len() ==> self.entries@[j].0@ != k@,
            decreases i,
        {
            i = i - 1;
            let e = &self.entries[i];
            if crate::text::str_eq(e.0.as_str(), k) {
                proof {
                    lemma_map_of_last_match(self.entries@, k@, i as int);
                }
                return Some(&e.1);
            }
            assert(self.entries@[i as int].0@ != k@);
        }
        proof {
            lemma_map_of_no_match(self.entries@, k@);
        }
        None
    }

    pub fn contains_key(&self, k: &str) -> (r: bool)
        ensures
            r == self@.dom().contains(k@),
    {
        match self.get(k) {
            Some(_) => true,
            None => false,
        }
    }
}

/// A map keyed by a pair of strings.
pub struct PairMap<V> {
    entries: Vec<(String, String, V)>,
}

spec fn pair_map_of<V>(entries: Seq<(String, String, V)>) -> Map<(Seq<char>, Seq<char>), V>
    decreases entries.len(),
{
    if entries.len() == 0 {
        Map::empty()
    } else {
        pair_map_of(entries.drop_last()).insert(
            (entries.last().0@, entries.last().1@),
            entries.last().2,
        )
    }
}

proof fn lemma_pair_map_of_last_match<V>(
    s: Seq<(String, String, V)>,
    k: (Seq<char>, Seq<char>),
    i: int,
)
    requires
        0 <= i < s.len(),
        s[i].0@ == k.0,
        s[i].1@ == k.1,
        forall|j: int| i < j < s.len() ==> (s[j].0@, s[j].1@) != k,
    ensures
        pair_map_of(s).dom().contains(k),
        pair_map_of(s)[k] == s[i].2,
    decreases s.len(),
{
    if i == s.len() - 1 {
    } else {
        lemma_pair_map_of_last_match(s.drop_last(), k, i);
    }
}

proof fn lemma_pair_map_of_no_match<V>(s: Seq<(String, String, V)>, k: (Seq<char>, Seq<char>))
    requires
        forall|j: int| 0 <= j < s.len() ==> (s[j].0@, s[j].1@) != k,
    ensures
        !pair_map_of(s).dom().contains(k),
    decreases s.len(),
{
    if s.len() > 0 {
        lemma_pair_map_of_no_match(s.drop_last(), k);
    }
}

impl<V> View for PairMap<V> {
    type V = Map<(Seq<char>, Seq<char>), V>;

    closed spec fn view(&self) -> Map<(Seq<char>, Seq<char>), V> {
        pair_map_of(self.entries@)
    }
}

impl<V> PairMap<V> {
    pub fn new() -> (r: Self)
        ensures
            r@ == Map::<(Seq<char>, Seq<char>), V>::empty(),
    {
        PairMap { entries: Vec::new() }
    }

    /// Binds the key pair to `v`, shadowing any earlier binding.
    pub fn set(&mut self, k0: String, k1: String, v: V)
        ensures
            final(self)@ == old(self)@.insert((k0@, k1@), v),
    {
        self.entries.push((k0, k1, v));
        proof {
            assert(self.entries@.drop_last() =~= old(self).entries@);
        }
    }

    /// The value bound to the key pair, if any.
    pub fn get(&self, k0: &str, k1: &str) -> (r: Option<&V>)
        ensures
            match r {
                Some(v) => self@.dom().contains((k0@, k1@)) && *v == self@[(k0@, k1@)],
                None => !self@.dom().contains((k0@, k1@)),
            },
    {
        let mut i: usize = self.entries.len();
        while i > 0
            invariant
                i <= self.entries@.len(),
                forall|j: int| i <= j < self.entries@.len() ==> (
                    self.entries@[j].0@,
                    self.entries@[j].1@,
                ) != (k0@, k1@),
            decreases i,
        {
            i = i - 1;
            let e = &self.entries[i];
            if crate::text::str_eq(e.0.as_str(), k0) && crate::text::str_eq(e.1.as_str(), k1) {
                proof {
                    lemma_pair_map_of_last_match(self.entries@, (k0@, k1@), i as int);
                }
                return Some(&e.2);
            }
            assert((self.entries@[i as int].0@, self.entries@[i as int].1@) != (k0@, k1@));
        }
        proof {
            lemma_pair_map_of_no_match(self.entries@, (k0@, k1@));
        }
        None
    }
}

} // verus!
