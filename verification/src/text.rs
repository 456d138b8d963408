//! Character-sequence utilities: lexicographic order, equality, search,
//! trimming, joining, and decimal rendering, each with an exact contract.

use vstd::prelude::*;

verus! {

/// Lexicographic "strictly less" on character sequences, ordering characters
/// by scalar value.
pub open spec fn seq_lt(a: Seq<char>, b: Seq<char>) -> bool
    decreases a.len(),
{
    if b.len() == 0 {
        false
    } else if a.len() == 0 {
        true
    } else if a[0] < b[0] {
        true
    } else if b[0] < a[0] {
        false
    } else {
        seq_lt(a.drop_first(), b.drop_first())
    }
}

/// Exactly one of `a == b`, `seq_lt(a, b)`, `seq_lt(b, a)` holds.
pub proof fn lemma_seq_lt_connex(a: Seq<char>, b: Seq<char>)
    ensures
        a == b || seq_lt(a, b) || seq_lt(b, a),
    decreases a.len(),
{
    if b.len() == 0 {
        if a.len() == 0 {
            assert(a =~= b);
        }
    } else if a.len() == 0 {
    } else if a[0] < b[0] {
    } else if b[0] < a[0] {
    } else {
        lemma_seq_lt_connex(a.drop_first(), b.drop_first());
        if a.drop_first() == b.drop_first() {
            assert(a.drop_first().len() == b.drop_first().len());
            assert(a.len() == b.len());
            assert forall|k: int| 0 <= k < a.len() implies a[k] == b[k] by {
                if k > 0 {
                    assert(a[k] == a.drop_first()[k - 1]);
                    assert(b[k] == b.drop_first()[k - 1]);
                }
            }
            assert(a =~= b);
        }
    }
}

pub proof fn lemma_seq_lt_trans(a: Seq<char>, b: Seq<char>, c: Seq<char>)
    requires
        seq_lt(a, b),
        seq_lt(b, c),
    ensures
        seq_lt(a, c),
    decreases a.len(),
{
    if c.len() == 0 {
    } else if b.len() == 0 {
    } else if a.len() == 0 {
    } else if a[0] < c[0] {
    } else if c[0] < a[0] {
        assert(false);
    } else {
        if a[0] < b[0] {
            assert(false);
        } else if b[0] < a[0] {
            assert(false);
        } else {
            lemma_seq_lt_trans(a.drop_first(), b.drop_first(), c.drop_first());
        }
    }
}

proof fn lemma_seq_lt_common_prefix(a: Seq<char>, b: Seq<char>, i: int)
    requires
        0 <= i <= a.len(),
        i <= b.len(),
        forall|j: int| 0 <= j < i ==> a[j] == b[j],
    ensures
        seq_lt(a, b) == seq_lt(a.skip(i), b.skip(i)),
    decreases i,
{
    if i == 0 {
        assert(a.skip(0) =~= a);
        assert(b.skip(0) =~= b);
    } else {
        assert(a.len() > 0 && b.len() > 0);
        assert(a[0] == b[0]);
        assert(seq_lt(a, b) == seq_lt(a.drop_first(), b.drop_first()));
        assert(a.drop_first() =~= a.skip(1));
        assert(b.drop_first() =~= b.skip(1));
        lemma_seq_lt_common_prefix(a.skip(1), b.skip(1), i - 1);
        assert(a.skip(1).skip(i - 1) =~= a.skip(i));
        assert(b.skip(1).skip(i - 1) =~= b.skip(i));
    }
}

/// Lexicographic comparison of two string slices.
pub fn str_lt(a: &str, b: &str) -> (r: bool)
    ensures
        r == seq_lt(a@, b@),
{
    let la = a.unicode_len();
    let lb = b.unicode_len();
    let mut i: usize = 0;
    loop
        invariant
            i <= la,
            i <= lb,
            la == a@.len(),
            lb == b@.len(),
            forall|j: int| 0 <= j < i ==> a@[j] == b@[j],
        decreases la - i,
    {
        proof {
            lemma_seq_lt_common_prefix(a@, b@, i as int);
        }
        if i >= lb {
            return false;
        }
        if i >= la {
            return true;
        }
        let ca = a.get_char(i);
        let cb = b.get_char(i);
        if ca < cb {
            assert(a@.skip(i as int)[0] == ca);
            assert(b@.skip(i as int)[0] == cb);
            return true;
        }
        if cb < ca {
            assert(a@.skip(i as int)[0] == ca);
            assert(b@.skip(i as int)[0] == cb);
            return false;
        }
        assert(a@[i as int] == b@[i as int]);
        i = i + 1;
    }
}

/// Character-wise equality of two string slices.
pub fn str_eq(a: &str, b: &str) -> (r: bool)
    ensures
        r == (a@ == b@),
{
    let la = a.unicode_len();
    let lb = b.unicode_len();
    if la != lb {
        return false;
    }
    let mut i: usize = 0;
    while i < la
        invariant
            i <= la,
            la == a@.len(),
            la == b@.len(),
            forall|j: int| 0 <= j < i ==> a@[j] == b@[j],
        decreases la - i,
    {
        let ca = a.get_char(i);
        let cb = b.get_char(i);
        if ca != cb {
            assert(a@[i as int] != b@[i as int]);
            return false;
        }
        assert(a@[i as int] == b@[i as int]);
        i = i + 1;
    }
    proof {
        assert(a@ =~= b@);
    }
    true
}

/// `suffix` ends `s`.
pub open spec fn ends_with(s: Seq<char>, suffix: Seq<char>) -> bool {
    suffix.len() <= s.len() && s.skip(s.len() - suffix.len()) == suffix
}

pub fn str_ends_with(s: &str, suffix: &str) -> (r: bool)
    ensures
        r == ends_with(s@, suffix@),
{
    let ls = s.unicode_len();
    let lf = suffix.unicode_len();
    if lf > ls {
        return false;
    }
    let mut i: usize = 0;
    while i < lf
        invariant
            i <= lf,
            lf <= ls,
            ls == s@.len(),
            lf == suffix@.len(),
            forall|j: int| 0 <= j < i ==> s@[ls - lf + j] == suffix@[j],
        decreases lf - i,
    {
        let cs = s.get_char(ls - lf + i);
        let cf = suffix.get_char(i);
        if cs != cf {
            assert(s@[ls - lf + i as int] != suffix@[i as int]);
            assert(s@.skip(s@.len() - suffix@.len())[i as int] != suffix@[i as int]);
            return false;
        }
        assert(s@[ls - lf + i as int] == suffix@[i as int]);
        i = i + 1;
    }
    proof {
        assert(s@.skip(s@.len() - suffix@.len()) =~= suffix@);
    }
    true
}

/// The first index where `c` occurs in `s`, if any.
pub fn find_char(s: &str, c: char) -> (r: Option<usize>)
    ensures
        match r {
            Some(i) => i < s@.len() && s@[i as int] == c && forall|j: int|
                0 <= j < i ==> s@[j] != c,
            None => forall|j: int| 0 <= j < s@.len() ==> s@[j] != c,
        },
{
    let l = s.unicode_len();
    let mut i: usize = 0;
    while i < l
        invariant
            i <= l,
            l == s@.len(),
            forall|j: int| 0 <= j < i ==> s@[j] != c,
        decreases l - i,
    {
        let ci = s.get_char(i);
        if ci == c {
            assert(s@[i as int] == c);
            return Some(i);
        }
        assert(s@[i as int] != c);
        i = i + 1;
    }
    None
}

/// `pat` occurs in `s` starting at index `i`.
pub open spec fn matches_at(s: Seq<char>, pat: Seq<char>, i: int) -> bool {
    0 <= i && i + pat.len() <= s.len() && s.subrange(i, i + pat.len()) == pat
}

/// The first index at which `pat` occurs in `s`, if any.
pub fn find_sub(s: &str, pat: &str) -> (r: Option<usize>)
    ensures
        match r {
            Some(i) => matches_at(s@, pat@, i as int) && forall|j: int|
                0 <= j < i ==> !matches_at(s@, pat@, j),
            None => forall|j: int| !matches_at(s@, pat@, j),
        },
{
    let ls = s.unicode_len();
    let lp = pat.unicode_len();
    if lp > ls {
        return None;
    }
    if lp == 0 {
        proof {
            assert(s@.subrange(0, 0) =~= pat@);
        }
        return Some(0);
    }
    let mut i: usize = 0;
    while i <= ls - lp
        invariant
            0 < lp <= ls,
            i <= ls - lp + 1,
            ls == s@.len(),
            lp == pat@.len(),
            forall|j: int| 0 <= j < i ==> !matches_at(s@, pat@, j),
        decreases ls - i,
    {
        let mut k: usize = 0;
        let mut hit = true;
        while k < lp
            invariant
                i + lp <= ls,
                k <= lp,
                ls == s@.len(),
                lp == pat@.len(),
                hit ==> forall|j: int| 0 <= j < k ==> s@[i + j] == pat@[j],
                !hit ==> !matches_at(s@, pat@, i as int),
            decreases lp - k,
        {
            if hit {
                let cs = s.get_char(i + k);
                let cp = pat.get_char(k);
                if cs != cp {
                    assert(s@[i + k as int] != pat@[k as int]);
                    assert(s@.subrange(i as int, i + pat@.len())[k as int] != pat@[k as int]);
                    hit = false;
                }
            }
            k = k + 1;
        }
        if hit {
            proof {
                assert(s@.subrange(i as int, i + pat@.len()) =~= pat@);
            }
            return Some(i);
        }
        i = i + 1;
    }
    proof {
        assert forall|j: int| !matches_at(s@, pat@, j) by {
            if 0 <= j && j + pat@.len() <= s@.len() {
                assert(j < i);
            }
        }
    }
    None
}

/// ASCII whitespace, as trimmed from cell text.
pub open spec fn is_space(c: char) -> bool {
    c == ' ' || c == '\t' || c == '\r' || c == '\n'
}

pub open spec fn drop_leading_spaces(s: Seq<char>) -> Seq<char>
    decreases s.len(),
{
    if s.len() > 0 && is_space(s[0]) {
        drop_leading_spaces(s.drop_first())
    } else {
        s
    }
}

pub open spec fn drop_trailing_spaces(s: Seq<char>) -> Seq<char>
    decreases s.len(),
{
    if s.len() > 0 && is_space(s.last()) {
        drop_trailing_spaces(s.drop_last())
    } else {
        s
    }
}

/// `s` with leading and trailing ASCII whitespace removed.
pub open spec fn trimmed(s: Seq<char>) -> Seq<char> {
    drop_trailing_spaces(drop_leading_spaces(s))
}

proof fn lemma_drop_leading_is_skip(s: Seq<char>, a: int)
    requires
        0 <= a <= s.len(),
        forall|j: int| 0 <= j < a ==> is_space(s[j]),
        a == s.len() || !is_space(s[a]),
    ensures
        drop_leading_spaces(s) == s.skip(a),
    decreases a,
{
    if a == 0 {
        assert(s.skip(0) =~= s);
    } else {
        assert(is_space(s[0]));
        lemma_drop_leading_is_skip(s.drop_first(), a - 1);
        assert(s.drop_first() =~= s.skip(1));
        assert(s.skip(1).skip(a - 1) =~= s.skip(a));
    }
}

proof fn lemma_drop_trailing_is_take(s: Seq<char>, b: int)
    requires
        0 <= b <= s.len(),
        forall|j: int| b <= j < s.len() ==> is_space(s[j]),
        b == 0 || !is_space(s[b - 1]),
    ensures
        drop_trailing_spaces(s) == s.take(b),
    decreases s.len(),
{
    if b == s.len() {
        if s.len() == 0 || !is_space(s.last()) {
            assert(s.take(b) =~= s);
        } else {
            assert(!is_space(s[b - 1]));
            assert(false);
        }
    } else {
        assert(is_space(s.last()));
        lemma_drop_trailing_is_take(s.drop_last(), b);
        assert(s.drop_last() =~= s.take(s.len() - 1));
        assert(s.take(s.len() - 1).take(b) =~= s.take(b));
    }
}

/// Removes leading and trailing ASCII whitespace.
pub fn trim_spaces(s: &str) -> (r: String)
    ensures
        r@ == trimmed(s@),
{
    let l = s.unicode_len();
    let mut a: usize = 0;
    loop
        invariant
            a <= l,
            l == s@.len(),
            forall|j: int| 0 <= j < a ==> is_space(s@[j]),
        ensures
            a <= l,
            l == s@.len(),
            forall|j: int| 0 <= j < a ==> is_space(s@[j]),
            a == l || !is_space(s@[a as int]),
        decreases l - a,
    {
        if a >= l {
            break;
        }
        let c = s.get_char(a);
        if !(c == ' ' || c == '\t' || c == '\r' || c == '\n') {
            assert(!is_space(s@[a as int]));
            break;
        }
        assert(is_space(s@[a as int]));
        a = a + 1;
    }
    proof {
        lemma_drop_leading_is_skip(s@, a as int);
    }
    let mut b: usize = l;
    loop
        invariant
            a <= b <= l,
            l == s@.len(),
            forall|j: int| b <= j < l ==> is_space(s@[j]),
        ensures
            a <= b <= l,
            forall|j: int| b <= j < l ==> is_space(s@[j]),
            b == a || !is_space(s@[b - 1]),
        decreases b,
    {
        if b <= a {
            break;
        }
        let c = s.get_char(b - 1);
        if !(c == ' ' || c == '\t' || c == '\r' || c == '\n') {
            assert(!is_space(s@[b - 1]));
            break;
        }
        assert(is_space(s@[b - 1]));
        b = b - 1;
    }
    proof {
        let t = s@.skip(a as int);
        if b == a {
            lemma_drop_trailing_is_take(t, 0);
        } else {
            assert(t[b - a - 1] == s@[b - 1]);
            assert forall|j: int| (b - a) <= j < t.len() implies is_space(t[j]) by {
                assert(t[j] == s@[j + a]);
            }
            lemma_drop_trailing_is_take(t, b - a as int);
        }
        assert(t.take(b - a as int) =~= s@.subrange(a as int, b as int));
    }
    let piece = s.substring_char(a, b);
    String::from_str(piece)
}

/// `parts` joined by `sep`.
pub open spec fn joined(parts: Seq<Seq<char>>, sep: Seq<char>) -> Seq<char>
    decreases parts.len(),
{
    if parts.len() == 0 {
        Seq::empty()
    } else if parts.len() == 1 {
        parts[0]
    } else {
        joined(parts.drop_last(), sep) + sep + parts.last()
    }
}

/// Joins the strings of `parts` with the separator `sep`.
pub fn join_with(parts: &Vec<String>, sep: &str) -> (r: String)
    ensures
        r@ == joined(parts.deep_view(), sep@),
{
    let mut out = String::new();
    let mut i: usize = 0;
    while i < parts.len()
        invariant
            i <= parts.len(),
            out@ == joined(parts.deep_view().take(i as int), sep@),
        decreases parts.len() - i,
    {
        if i > 0 {
            out.append(sep);
        }
        out.append(parts[i].as_str());
        proof {
            let dv = parts.deep_view();
            assert(dv.take(i + 1).drop_last() =~= dv.take(i as int));
            assert(dv.take(i + 1).last() == dv[i as int]);
        }
        i = i + 1;
    }
    proof {
        assert(parts.deep_view().take(parts.len() as int) =~= parts.deep_view());
    }
    out
}

/// Whether some element of `v` reads `x`.
pub fn vec_contains_str(v: &Vec<String>, x: &str) -> (r: bool)
    ensures
        r == exists|i: int| 0 <= i < v@.len() && v@[i]@ == x@,
{
    let mut i: usize = 0;
    while i < v.len()
        invariant
            i <= v@.len(),
            forall|j: int| 0 <= j < i ==> v@[j]@ != x@,
        decreases v@.len() - i,
    {
        if str_eq(v[i].as_str(), x) {
            return true;
        }
        i = i + 1;
    }
    false
}

/// Strictly increasing (hence duplicate-free) sequence of strings.
pub open spec fn sorted_distinct(s: Seq<Seq<char>>) -> bool {
    forall|i: int, j: int| 0 <= i < j < s.len() ==> seq_lt(s[i], s[j])
}

/// The set of character sequences occurring in `s`.
pub open spec fn seq_set(s: Seq<Seq<char>>) -> Set<Seq<char>> {
    Set::new(|x: Seq<char>| exists|i: int| 0 <= i < s.len() && s[i] == x)
}

proof fn lemma_seq_set_insert(s: Seq<Seq<char>>, i: int, x: Seq<char>)
    requires
        0 <= i <= s.len(),
    ensures
        seq_set(s.insert(i, x)) =~= seq_set(s).insert(x),
{
    let t = s.insert(i, x);
    assert(t.len() == s.len() + 1);
    assert forall|y: Seq<char>| seq_set(t).contains(y) implies seq_set(s).insert(x).contains(
        y,
    ) by {
        let k = choose|k: int| 0 <= k < t.len() && t[k] == y;
        if k < i {
            assert(s[k] == y);
        } else if k == i {
            assert(y == x);
        } else {
            assert(s[k - 1] == y);
        }
    }
    assert forall|y: Seq<char>| seq_set(s).insert(x).contains(y) implies seq_set(t).contains(
        y,
    ) by {
        if y == x {
            assert(t[i] == y);
        } else {
            let k = choose|k: int| 0 <= k < s.len() && s[k] == y;
            if k < i {
                assert(t[k] == y);
            } else {
                assert(t[k + 1] == y);
            }
        }
    }
}

/// Extending a prefix by one element inserts that element's view.
pub proof fn lemma_seq_set_take_step(s: Seq<Seq<char>>, i: int)
    requires
        0 <= i < s.len(),
    ensures
        seq_set(s.take(i + 1)) =~= seq_set(s.take(i)).insert(s[i]),
{
    let a = s.take(i + 1);
    let b = s.take(i);
    assert forall|y: Seq<char>| seq_set(a).contains(y) implies seq_set(b).insert(s[i]).contains(
        y,
    ) by {
        let k = choose|k: int| 0 <= k < a.len() && a[k] == y;
        if k < i {
            assert(b[k] == y);
        }
    }
    assert forall|y: Seq<char>| seq_set(b).insert(s[i]).contains(y) implies seq_set(a).contains(
        y,
    ) by {
        if y == s[i] {
            assert(a[i] == y);
        } else {
            let k = choose|k: int| 0 <= k < b.len() && b[k] == y;
            assert(a[k] == y);
        }
    }
}

/// Inserts `x` into the sorted duplicate-free vector `v`, keeping it so.
pub fn sorted_insert(v: &mut Vec<String>, x: String)
    requires
        sorted_distinct(old(v).deep_view()),
    ensures
        sorted_distinct(final(v).deep_view()),
        seq_set(final(v).deep_view()) == seq_set(old(v).deep_view()).insert(x@),
{
    let ghost dv = v.deep_view();
    let mut i: usize = 0;
    loop
        invariant
            i <= v@.len(),
            v@ == old(v)@,
            dv == v.deep_view(),
            sorted_distinct(dv),
            forall|j: int| 0 <= j < i ==> seq_lt(dv[j], x@),
        ensures
            i <= v@.len(),
            v@ == old(v)@,
            forall|j: int| 0 <= j < i ==> seq_lt(dv[j], x@),
            i < v@.len() ==> !seq_lt(dv[i as int], x@),
        decreases v@.len() - i,
    {
        if i >= v.len() {
            break;
        }
        if !str_lt(v[i].as_str(), x.as_str()) {
            assert(v[i as int]@ == dv[i as int]);
            break;
        }
        assert(v[i as int]@ == dv[i as int]);
        i = i + 1;
    }
    let present = i < v.len() && str_eq(v[i].as_str(), x.as_str());
    if present {
        proof {
            assert(dv[i as int] == x@);
            assert(seq_set(dv).contains(x@));
            assert(seq_set(dv) =~= seq_set(dv).insert(x@));
        }
    } else {
        proof {
            if i < v@.len() {
                assert(dv[i as int] != x@);
                lemma_seq_lt_connex(dv[i as int], x@);
                assert(seq_lt(x@, dv[i as int]));
            }
        }
        v.insert(i, x);
        proof {
            let nv = v.deep_view();
            assert(nv =~= dv.insert(i as int, x@)) by {
                assert(v@ == old(v)@.insert(i as int, x));
                assert(nv.len() == dv.len() + 1);
                assert forall|k: int| 0 <= k < nv.len() implies nv[k] == dv.insert(
                    i as int,
                    x@,
                )[k] by {
                    if k < i {
                        assert(v@[k] == old(v)@[k]);
                    } else if k == i {
                        assert(v@[k] == x);
                    } else {
                        assert(v@[k] == old(v)@[k - 1]);
                    }
                }
            }
            lemma_seq_set_insert(dv, i as int, x@);
            assert forall|p: int, q: int| 0 <= p < q < nv.len() implies seq_lt(nv[p], nv[q]) by {
                if q < i {
                } else if p < i && q == i {
                } else if p < i && q > i {
                    assert(p < q - 1);
                    assert(seq_lt(dv[p], dv[q - 1]));
                } else if p == i {
                    assert(seq_lt(x@, dv[i as int]));
                    if q - 1 > i {
                        lemma_seq_lt_trans(x@, dv[i as int], dv[q - 1]);
                    }
                } else {
                    assert(seq_lt(dv[p - 1], dv[q - 1]));
                }
            }
        }
    }
}

/// Inserts every element of `xs` into the sorted duplicate-free vector `v`.
pub fn sorted_insert_all(v: &mut Vec<String>, xs: &Vec<String>)
    requires
        sorted_distinct(old(v).deep_view()),
    ensures
        sorted_distinct(final(v).deep_view()),
        seq_set(final(v).deep_view()) == seq_set(old(v).deep_view()) + seq_set(xs.deep_view()),
{
    let mut i: usize = 0;
    while i < xs.len()
        invariant
            i <= xs@.len(),
            sorted_distinct(v.deep_view()),
            seq_set(v.deep_view()) == seq_set(old(v).deep_view()) + seq_set(
                xs.deep_view().take(i as int),
            ),
        decreases xs@.len() - i,
    {
        let ghost pre = v.deep_view();
        let x = xs[i].clone();
        assert(x@ == xs.deep_view()[i as int]);
        sorted_insert(v, x);
        proof {
            let tk1 = xs.deep_view().take(i + 1);
            let tk0 = xs.deep_view().take(i as int);
            assert forall|y: Seq<char>| seq_set(tk1).contains(y) implies seq_set(tk0).insert(
                xs.deep_view()[i as int],
            ).contains(y) by {
                let k = choose|k: int| 0 <= k < tk1.len() && tk1[k] == y;
                if k < i {
                    assert(tk0[k] == y);
                }
            }
            assert forall|y: Seq<char>| seq_set(tk0).insert(xs.deep_view()[i as int]).contains(
                y,
            ) implies seq_set(tk1).contains(y) by {
                if y == xs.deep_view()[i as int] {
                    assert(tk1[i as int] == y);
                } else {
                    let k = choose|k: int| 0 <= k < tk0.len() && tk0[k] == y;
                    assert(tk1[k] == y);
                }
            }
            assert(seq_set(tk1) =~= seq_set(tk0).insert(xs.deep_view()[i as int]));
            assert(seq_set(v.deep_view()) =~= seq_set(old(v).deep_view()) + seq_set(tk1));
        }
        i = i + 1;
    }
    proof {
        assert(xs.deep_view().take(xs@.len() as int) =~= xs.deep_view());
    }
}

/// The decimal digit character of `d`.
pub open spec fn digit_char(d: nat) -> char {
    ((48 + (d % 10)) as u8) as char
}

/// Decimal rendering of `n`, most significant digit first.
pub open spec fn dec_rep(n: nat) -> Seq<char>
    decreases n,
{
    if n < 10 {
        seq![digit_char(n)]
    } else {
        dec_rep(n / 10) + seq![digit_char(n % 10)]
    }
}

fn digit_str(d: u64) -> (r: &'static str)
    requires
        d < 10,
    ensures
        r@ =~= seq![digit_char(d as nat)],
{
    proof {
        reveal_strlit("0");
        reveal_strlit("1");
        reveal_strlit("2");
        reveal_strlit("3");
        reveal_strlit("4");
        reveal_strlit("5");
        reveal_strlit("6");
        reveal_strlit("7");
        reveal_strlit("8");
        reveal_strlit("9");
    }
    if d == 0 {
        "0"
    } else if d == 1 {
        "1"
    } else if d == 2 {
        "2"
    } else if d == 3 {
        "3"
    } else if d == 4 {
        "4"
    } else if d == 5 {
        "5"
    } else if d == 6 {
        "6"
    } else if d == 7 {
        "7"
    } else if d == 8 {
        "8"
    } else {
        "9"
    }
}

/// Renders `n` in decimal.
pub fn u64_dec_string(n: u64) -> (r: String)
    ensures
        r@ == dec_rep(n as nat),
    decreases n,
{
    if n < 10 {
        String::from_str(digit_str(n))
    } else {
        let high = u64_dec_string(n / 10);
        let low = digit_str(n % 10);
        high.concat(low)
    }
}

/// Decimal rendering of a signed value: a minus sign for negatives.
pub open spec fn signed_dec_rep(n: int) -> Seq<char> {
    if n >= 0 {
        dec_rep(n as nat)
    } else {
        seq!['-'] + dec_rep((-n) as nat)
    }
}

/// Renders `n` in decimal, with a leading minus sign when negative.
pub fn i64_dec_string(n: i64) -> (r: String)
    requires
        n > i64::MIN,
    ensures
        r@ == signed_dec_rep(n as int),
{
    if n >= 0 {
        u64_dec_string(n as u64)
    } else {
        proof {
            reveal_strlit("-");
        }
        let sign = String::from_str("-");
        let mag = u64_dec_string((-n) as u64);
        assert(sign@ =~= seq!['-']);
        sign.concat(mag.as_str())
    }
}

} // verus!
