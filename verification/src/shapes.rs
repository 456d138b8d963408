//! Support for building the municipal-codes table from map records: the
//! name/type classification of a shape record, and a two-key map whose
//! ordered traversal fixes the output row order.

use vstd::prelude::*;
use vstd::seq_lib::group_to_multiset_ensures;
use vstd::multiset::Multiset;
use crate::text::{seq_lt, ends_with, matches_at, str_lt, str_eq, str_ends_with, find_sub,
    lemma_seq_lt_connex, lemma_seq_lt_trans};

verus! {

broadcast use group_to_multiset_ensures;

/// Key order of two-key entries: the first key decides, the second breaks
/// ties.
pub open spec fn keys_le<V1, V2>(a: (String, String, V1, V2), b: (String, String, V1, V2)) -> bool {
    seq_lt(a.0@, b.0@) || (a.0@ == b.0@ && (seq_lt(a.1@, b.1@) || a.1@ == b.1@))
}

/// Strict key order: the first key decides, the second breaks ties.
pub open spec fn keys_lt<V1, V2>(a: (String, String, V1, V2), b: (String, String, V1, V2)) -> bool {
    seq_lt(a.0@, b.0@) || (a.0@ == b.0@ && seq_lt(a.1@, b.1@))
}

/// `x` inserted just before the first entry with strictly greater keys:
/// after every entry already there whose keys do not exceed `x`'s.
pub open spec fn stable_insert<V1, V2>(
    s: Seq<(String, String, V1, V2)>,
    x: (String, String, V1, V2),
) -> Seq<(String, String, V1, V2)>
    decreases s.len(),
{
    if s.len() == 0 {
        seq![x]
    } else if keys_lt(x, s[0]) {
        seq![x] + s
    } else {
        seq![s[0]] + stable_insert(s.drop_first(), x)
    }
}

/// The stable key sort of `s`: entries in key order, entries with equal
/// keys in their original order.
pub open spec fn stable_sorted<V1, V2>(s: Seq<(String, String, V1, V2)>) -> Seq<
    (String, String, V1, V2),
>
    decreases s.len(),
{
    if s.len() == 0 {
        Seq::empty()
    } else {
        stable_insert(stable_sorted(s.drop_last()), s.last())
    }
}

proof fn lemma_keys_le_trans<V1, V2>(
    a: (String, String, V1, V2),
    b: (String, String, V1, V2),
    c: (String, String, V1, V2),
)
    requires
        keys_le(a, b),
        keys_le(b, c),
    ensures
        keys_le(a, c),
{
    if seq_lt(a.0@, b.0@) && seq_lt(b.0@, c.0@) {
        lemma_seq_lt_trans(a.0@, b.0@, c.0@);
    } else if a.0@ == b.0@ && a.1@ != b.1@ && b.0@ == c.0@ && b.1@ != c.1@ {
        if seq_lt(a.1@, b.1@) && seq_lt(b.1@, c.1@) {
            lemma_seq_lt_trans(a.1@, b.1@, c.1@);
        }
    }
}

/// An insertion-ordered map keyed by two values, as the shapefile pass
/// collects its rows.
pub struct TwoKeyMap<K1, K2, V1, V2> {
    pub items: Vec<(K1, K2, V1, V2)>,
}

impl<K1, K2, V1, V2> TwoKeyMap<K1, K2, V1, V2> {
    pub fn new() -> (r: TwoKeyMap<K1, K2, V1, V2>)
        ensures
            r.items@.len() == 0,
    {
        TwoKeyMap { items: Vec::new() }
    }

    pub fn insert(&mut self, key1: K1, key2: K2, value1: V1, value2: V2)
        ensures
            final(self).items@ == old(self).items@.push((key1, key2, value1, value2)),
    {
        self.items.push((key1, key2, value1, value2));
    }
}

/// Strict key order decides `stable_insert`'s position, so a weak bound
/// on the left absorbs an insertion on the right.
proof fn lemma_keys_le_lt_trans<V1, V2>(
    a: (String, String, V1, V2),
    b: (String, String, V1, V2),
)
    requires
        !keys_lt(b, a),
    ensures
        keys_le(a, b),
{
    lemma_seq_lt_connex(a.0@, b.0@);
    if a.0@ == b.0@ {
        lemma_seq_lt_connex(a.1@, b.1@);
    }
}

/// Inserting keeps the contents: one more copy of the inserted entry.
proof fn lemma_stable_insert_multiset<V1, V2>(
    s: Seq<(String, String, V1, V2)>,
    x: (String, String, V1, V2),
)
    ensures
        stable_insert(s, x).to_multiset() == s.to_multiset().insert(x),
    decreases s.len(),
{
    vstd::seq_lib::lemma_multiset_commutative(seq![x], s);
    if s.len() == 0 {
        assert(stable_insert(s, x) =~= Seq::<(String, String, V1, V2)>::empty().push(x));
    } else if keys_lt(x, s[0]) {
        assert(seq![x].to_multiset() =~= Multiset::<(String, String, V1, V2)>::empty().insert(x));
        assert((seq![x] + s).to_multiset() =~= s.to_multiset().insert(x));
    } else {
        lemma_stable_insert_multiset(s.drop_first(), x);
        vstd::seq_lib::lemma_multiset_commutative(seq![s[0]], stable_insert(s.drop_first(), x));
        vstd::seq_lib::lemma_multiset_commutative(seq![s[0]], s.drop_first());
        assert(seq![s[0]] + s.drop_first() =~= s);
        assert(seq![s[0]].to_multiset() =~= Multiset::<(String, String, V1, V2)>::empty().insert(
            s[0],
        ));
        assert((seq![s[0]] + stable_insert(s.drop_first(), x)).to_multiset()
            =~= s.to_multiset().insert(x));
    }
}

/// Inserting into a key-sorted sequence keeps it key-sorted.
proof fn lemma_stable_insert_sorted<V1, V2>(
    s: Seq<(String, String, V1, V2)>,
    x: (String, String, V1, V2),
)
    requires
        forall|i: int, j: int| 0 <= i < j < s.len() ==> keys_le(#[trigger] s[i], #[trigger] s[j]),
    ensures
        forall|i: int, j: int|
            0 <= i < j < stable_insert(s, x).len() ==> keys_le(
                #[trigger] stable_insert(s, x)[i],
                #[trigger] stable_insert(s, x)[j],
            ),
    decreases s.len(),
{
    let r = stable_insert(s, x);
    if s.len() == 0 {
    } else if keys_lt(x, s[0]) {
        assert forall|i: int, j: int| 0 <= i < j < r.len() implies keys_le(
            #[trigger] r[i],
            #[trigger] r[j],
        ) by {
            if i == 0 {
                assert(keys_le(x, s[0]));
                if j > 1 {
                    lemma_keys_le_trans(x, s[0], s[j - 1]);
                }
            } else {
                assert(r[i] == s[i - 1] && r[j] == s[j - 1]);
            }
        }
    } else {
        assert forall|i: int, j: int|
            0 <= i < j < s.drop_first().len() implies keys_le(
            #[trigger] s.drop_first()[i],
            #[trigger] s.drop_first()[j],
        ) by {
            assert(s.drop_first()[i] == s[i + 1] && s.drop_first()[j] == s[j + 1]);
        }
        lemma_stable_insert_sorted(s.drop_first(), x);
        lemma_stable_insert_multiset(s.drop_first(), x);
        let t = stable_insert(s.drop_first(), x);
        assert forall|j: int| 0 <= j < t.len() implies keys_le(s[0], #[trigger] t[j]) by {
            assert(t.to_multiset().count(t[j]) > 0) by {
                assert(t.contains(t[j]));
            }
            if t[j] == x {
                lemma_keys_le_lt_trans(s[0], x);
            } else {
                assert(s.drop_first().to_multiset().count(t[j]) > 0);
                assert(s.drop_first().contains(t[j]));
                let k = choose|k: int|
                    0 <= k < s.drop_first().len() && s.drop_first()[k] == t[j];
                assert(s[k + 1] == t[j]);
                assert(keys_le(s[0], s[k + 1]));
            }
        }
        assert forall|i: int, j: int| 0 <= i < j < r.len() implies keys_le(
            #[trigger] r[i],
            #[trigger] r[j],
        ) by {
            if i > 0 {
                assert(r[i] == t[i - 1] && r[j] == t[j - 1]);
                assert(keys_le(t[i - 1], t[j - 1]));
            } else {
                assert(r[j] == t[j - 1]);
            }
        }
    }
}

/// The stable sort lists exactly the given entries, in key order.
pub proof fn lemma_stable_sorted_props<V1, V2>(s: Seq<(String, String, V1, V2)>)
    ensures
        stable_sorted(s).to_multiset() == s.to_multiset(),
        forall|i: int, j: int|
            0 <= i < j < stable_sorted(s).len() ==> keys_le(
                #[trigger] stable_sorted(s)[i],
                #[trigger] stable_sorted(s)[j],
            ),
    decreases s.len(),
{
    if s.len() > 0 {
        lemma_stable_sorted_props(s.drop_last());
        lemma_stable_insert_multiset(stable_sorted(s.drop_last()), s.last());
        lemma_stable_insert_sorted(stable_sorted(s.drop_last()), s.last());
        assert(s.drop_last().push(s.last()) =~= s);
        assert(s.drop_last().push(s.last()).to_multiset() =~= s.drop_last().to_multiset().insert(
            s.last(),
        ));
    }
}

/// Splitting `stable_insert` at its insertion point: the position of the
/// first entry with strictly greater keys.
proof fn lemma_stable_insert_split<V1, V2>(
    s: Seq<(String, String, V1, V2)>,
    x: (String, String, V1, V2),
    p: int,
)
    requires
        0 <= p <= s.len(),
        forall|k: int| 0 <= k < p ==> !keys_lt(x, #[trigger] s[k]),
        p < s.len() ==> keys_lt(x, s[p]),
    ensures
        stable_insert(s, x) == s.insert(p, x),
    decreases s.len(),
{
    if p == 0 {
        if s.len() == 0 {
            assert(stable_insert(s, x) =~= s.insert(0, x));
        } else {
            assert(seq![x] + s =~= s.insert(0, x));
        }
    } else {
        assert(!keys_lt(x, s[0]));
        assert forall|k: int| 0 <= k < p - 1 implies !keys_lt(x, #[trigger] s.drop_first()[k]) by {
            assert(s.drop_first()[k] == s[k + 1]);
        }
        if p - 1 < s.drop_first().len() {
            assert(s.drop_first()[p - 1] == s[p]);
        }
        lemma_stable_insert_split(s.drop_first(), x, p - 1);
        assert(seq![s[0]] + s.drop_first().insert(p - 1, x) =~= s.insert(p, x));
    }
}

/// The index before which `x` belongs in `out`: the first entry with
/// strictly greater keys, the length when there is none.
fn insertion_point(
    out: &Vec<(String, String, String, String)>,
    x: &(String, String, String, String),
) -> (p: usize)
    ensures
        p <= out@.len(),
        forall|k: int| 0 <= k < p ==> !keys_lt(*x, #[trigger] out@[k]),
        p < out@.len() ==> keys_lt(*x, out@[p as int]),
{
    let mut p: usize = 0;
    while p < out.len()
        invariant
            p <= out@.len(),
            forall|k: int| 0 <= k < p ==> !keys_lt(*x, #[trigger] out@[k]),
        decreases out@.len() - p,
    {
        let o = &out[p];
        let lt = if str_lt(x.0.as_str(), o.0.as_str()) {
            true
        } else if str_eq(x.0.as_str(), o.0.as_str()) {
            str_lt(x.1.as_str(), o.1.as_str())
        } else {
            false
        };
        if lt {
            return p;
        }
        p = p + 1;
    }
    p
}

impl TwoKeyMap<String, String, String, String> {
    /// The entries sorted by their keys, first key first: exactly the
    /// collection's contents, in display order.  The sort is stable —
    /// entries with equal keys keep their insertion order — and the result
    /// is a function of the entries alone; the map itself is left as it
    /// was, so a second traversal yields the same sequence.
    pub fn iter_ordered(&self) -> (r: Vec<(String, String, String, String)>)
        ensures
            r@ == stable_sorted(self.items@),
            r@.to_multiset() == self.items@.to_multiset(),
            forall|i: int, j: int| 0 <= i < j < r@.len() ==> keys_le(#[trigger] r@[i], #[trigger] r@[j]),
    {
        let mut out: Vec<(String, String, String, String)> = Vec::new();
        let mut i: usize = 0;
        while i < self.items.len()
            invariant
                i <= self.items@.len(),
                out@ == stable_sorted(self.items@.take(i as int)),
            decreases self.items@.len() - i,
        {
            let e = &self.items[i];
            let x = (e.0.clone(), e.1.clone(), e.2.clone(), e.3.clone());
            proof {
                assert(x == self.items@[i as int]);
            }
            let p = insertion_point(&out, &x);
            let ghost out0 = out@;
            out.insert(p, x);
            proof {
                lemma_stable_insert_split(out0, x, p as int);
                assert(self.items@.take(i + 1).drop_last() =~= self.items@.take(i as int));
                assert(self.items@.take(i + 1).last() == self.items@[i as int]);
            }
            i = i + 1;
        }
        proof {
            assert(self.items@.take(self.items@.len() as int) =~= self.items@);
            lemma_stable_sorted_props(self.items@);
        }
        out
    }
}

/// `t` is the prefix of `s` before the first occurrence of `pat`; all of
/// `s` when `pat` does not occur.
pub open spec fn cut_before(s: Seq<char>, pat: Seq<char>, t: Seq<char>) -> bool {
    (exists|i: int|
        matches_at(s, pat, i) && (forall|j: int| 0 <= j < i ==> !matches_at(s, pat, j)) && t
            == #[trigger] s.subrange(0, i)) || ((forall|j: int| !matches_at(s, pat, j)) && t == s)
}

/// The prefix of `s` before the first occurrence of `pat`; all of `s`
/// when `pat` does not occur.
pub fn prefix_before(s: &str, pat: &str) -> (r: String)
    ensures
        cut_before(s@, pat@, r@),
{
    match find_sub(s, pat) {
        Some(i) => {
            let piece = s.substring_char(0, i);
            proof {
                assert(matches_at(s@, pat@, i as int));
            }
            String::from_str(piece)
        },
        None => String::from_str(s),
    }
}

/// Classifies a map record's display name: a name ending in the township
/// marker is a township and keeps what stands before " (Township)";
/// anything else is a city/village and keeps what stands before " (City)".
pub fn classify_shape_name(name: &str) -> (r: (String, String))
    ensures
        ends_with(name@, "(Township)"@) ==> r.1@ == "township"@ && cut_before(
            name@,
            " (Township)"@,
            r.0@,
        ),
        !ends_with(name@, "(Township)"@) ==> r.1@ == "city/village"@ && cut_before(
            name@,
            " (City)"@,
            r.0@,
        ),
{
    proof {
        reveal_strlit("(Township)");
    }
    if str_ends_with(name, "(Township)") {
        (prefix_before(name, " (Township)"), String::from_str("township"))
    } else {
        (prefix_before(name, " (City)"), String::from_str("city/village"))
    }
}

} // verus!
