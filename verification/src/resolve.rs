//! The precinct resolver: attaches each precinct row to its municipality,
//! merging municipalities whose territory is split across one row's
//! several FIPS codes.
//!
//! A merge never mutates an existing record: it allocates a new `Mixed`
//! record in the arena and rebinds every absorbed code — literal and
//! transitive — to it, so later rows referencing any absorbed code resolve
//! directly to the final entity.

use vstd::prelude::*;
use crate::catalog::{Catalog, cell_at, distinct_rows, disjoint_rows};
use crate::entities::{Municipality, MunicipalType, Precinct};
use crate::error::ImportError;
use crate::lookup::StrMap;
use crate::text::{
    sorted_distinct,
    seq_set,
    joined,
    join_with,
    sorted_insert_all,
    vec_contains_str,
};

verus! {

/// The prefix of nonempty cells.
pub open spec fn leading_run(cells: Seq<Seq<char>>) -> Seq<Seq<char>>
    decreases cells.len(),
{
    if cells.len() == 0 || cells[0].len() == 0 {
        Seq::empty()
    } else {
        seq![cells[0]] + leading_run(cells.drop_first())
    }
}

/// The FIPS codes of a precinct row: columns 2 on, stopping at the first
/// empty cell.
pub open spec fn row_codes(cells: Seq<Seq<char>>) -> Seq<Seq<char>> {
    if cells.len() < 2 {
        Seq::empty()
    } else {
        leading_run(cells.skip(2))
    }
}

/// Reads the row's FIPS run.
pub fn fips_run(row: &Vec<String>) -> (r: Vec<String>)
    ensures
        r.deep_view() == row_codes(row.deep_view()),
{
    let ghost dv = row.deep_view();
    let mut r: Vec<String> = Vec::new();
    if row.len() < 2 {
        proof {
            assert(r.deep_view() =~= row_codes(dv));
        }
        return r;
    }
    let mut c: usize = 2;
    loop
        invariant
            2 <= c <= dv.len(),
            dv == row.deep_view(),
            dv.len() == row@.len(),
            dv.len() >= 2,
            row_codes(dv) == r.deep_view() + leading_run(dv.skip(c as int)),
        ensures
            row_codes(dv) == r.deep_view(),
        decreases dv.len() - c,
    {
        if c >= row.len() {
            proof {
                assert(dv.skip(c as int) =~= Seq::<Seq<char>>::empty());
                assert(r.deep_view() + Seq::<Seq<char>>::empty() =~= r.deep_view());
            }
            break;
        }
        let cell = &row[c];
        proof {
            assert(cell@ == dv[c as int]);
            assert(dv.skip(c as int)[0] == dv[c as int]);
        }
        if cell.as_str().is_empty() {
            proof {
                assert(leading_run(dv.skip(c as int)) =~= Seq::<Seq<char>>::empty());
                assert(r.deep_view() + Seq::<Seq<char>>::empty() =~= r.deep_view());
            }
            break;
        }
        let ghost r0 = r.deep_view();
        r.push(cell.clone());
        proof {
            assert(r.deep_view() =~= r0.push(dv[c as int]));
            assert(dv.skip(c as int).drop_first() =~= dv.skip(c + 1));
            assert(leading_run(dv.skip(c as int)) == seq![dv[c as int]] + leading_run(
                dv.skip(c + 1),
            ));
            assert(r0 + (seq![dv[c as int]] + leading_run(dv.skip(c + 1))) =~= r0.push(
                dv[c as int],
            ) + leading_run(dv.skip(c + 1)));
        }
        c = c + 1;
    }
    r
}

/// The handles a code sequence resolves to.
pub open spec fn handles_of(map: Map<Seq<char>, usize>, codes: Seq<Seq<char>>) -> Seq<usize> {
    codes.map_values(|c: Seq<char>| map[c])
}

/// `hs` with repeats removed, first occurrences kept.
pub open spec fn dedup_seq(hs: Seq<usize>) -> Seq<usize>
    decreases hs.len(),
{
    if hs.len() == 0 {
        Seq::empty()
    } else {
        let rest = dedup_seq(hs.drop_last());
        if hs.drop_last().contains(hs.last()) {
            rest
        } else {
            rest.push(hs.last())
        }
    }
}

proof fn lemma_dedup_contains(hs: Seq<usize>, x: usize)
    ensures
        dedup_seq(hs).contains(x) == hs.contains(x),
    decreases hs.len(),
{
    if hs.len() > 0 {
        lemma_dedup_contains(hs.drop_last(), x);
        if hs.contains(x) {
            let i = choose|i: int| 0 <= i < hs.len() && hs[i] == x;
            if i < hs.len() - 1 {
                assert(hs.drop_last()[i] == x);
            }
            if hs.drop_last().contains(hs.last()) {
                if x == hs.last() {
                    assert(dedup_seq(hs).contains(x));
                } else {
                    assert(hs.drop_last().contains(x));
                }
            } else {
                if x == hs.last() {
                    assert(dedup_seq(hs).last() == x);
                    assert(dedup_seq(hs).contains(x));
                } else {
                    assert(hs.drop_last().contains(x));
                    assert(dedup_seq(hs.drop_last()).contains(x));
                    let j = choose|j: int|
                        0 <= j < dedup_seq(hs.drop_last()).len() && dedup_seq(hs.drop_last())[j]
                            == x;
                    assert(dedup_seq(hs)[j] == x);
                }
            }
        }
        if dedup_seq(hs).contains(x) {
            let j = choose|j: int| 0 <= j < dedup_seq(hs).len() && dedup_seq(hs)[j] == x;
            if hs.drop_last().contains(hs.last()) {
                assert(hs.drop_last().contains(x));
                let i = choose|i: int| 0 <= i < hs.drop_last().len() && hs.drop_last()[i] == x;
                assert(hs[i] == x);
            } else {
                if j < dedup_seq(hs.drop_last()).len() {
                    assert(dedup_seq(hs.drop_last())[j] == x);
                    assert(hs.drop_last().contains(x));
                    let i = choose|i: int| 0 <= i < hs.drop_last().len() && hs.drop_last()[i] == x;
                    assert(hs[i] == x);
                } else {
                    assert(x == hs.last());
                    assert(hs.contains(x)) by {
                        assert(hs[hs.len() - 1] == x);
                    }
                }
            }
        }
    }
}

/// Removes repeated handles, keeping first occurrences.
pub fn dedup_handles(hs: &Vec<usize>) -> (r: Vec<usize>)
    ensures
        r@ == dedup_seq(hs@),
{
    let mut r: Vec<usize> = Vec::new();
    let mut i: usize = 0;
    while i < hs.len()
        invariant
            i <= hs@.len(),
            r@ == dedup_seq(hs@.take(i as int)),
        decreases hs@.len() - i,
    {
        let ghost pre = hs@.take(i as int);
        let ghost cur = hs@.take(i + 1);
        proof {
            assert(cur.drop_last() =~= pre);
            assert(cur.last() == hs@[i as int]);
        }
        let h = hs[i];
        let mut seen = false;
        let mut j: usize = 0;
        while j < r.len()
            invariant
                j <= r@.len(),
                seen == exists|k: int| 0 <= k < j && r@[k] == h,
            decreases r@.len() - j,
        {
            if r[j] == h {
                seen = true;
            }
            j = j + 1;
        }
        proof {
            lemma_dedup_contains(pre, h);
            assert(seen == pre.contains(h)) by {
                if seen {
                    let k = choose|k: int| 0 <= k < r@.len() && r@[k] == h;
                    assert(r@.contains(h));
                }
                if pre.contains(h) {
                    assert(dedup_seq(pre).contains(h));
                    let k = choose|k: int| 0 <= k < r@.len() && r@[k] == h;
                }
            }
        }
        if !seen {
            r.push(h);
        }
        i = i + 1;
    }
    proof {
        assert(hs@.take(hs@.len() as int) =~= hs@);
    }
    r
}

/// The precinct lists of the records at `hs`, concatenated in order.
pub open spec fn concat_precincts(arena: Seq<Municipality>, hs: Seq<usize>) -> Seq<Precinct>
    decreases hs.len(),
{
    if hs.len() == 0 {
        Seq::empty()
    } else {
        concat_precincts(arena, hs.drop_last()) + arena[hs.last() as int].precincts@
    }
}

/// Membership in a concatenation of precinct lists.
pub proof fn lemma_concat_precincts_membership(arena: Seq<Municipality>, hs: Seq<usize>, p: Precinct)
    requires
        forall|j: int| 0 <= j < hs.len() ==> 0 <= #[trigger] hs[j] < arena.len(),
    ensures
        concat_precincts(arena, hs).contains(p) <==> exists|j: int|
            0 <= j < hs.len() && arena[#[trigger] hs[j] as int].precincts@.contains(p),
    decreases hs.len(),
{
    if hs.len() > 0 {
        lemma_concat_precincts_membership(arena, hs.drop_last(), p);
        let pre = concat_precincts(arena, hs.drop_last());
        let tail = arena[hs.last() as int].precincts@;
        if concat_precincts(arena, hs).contains(p) {
            let i = choose|i: int|
                0 <= i < concat_precincts(arena, hs).len() && concat_precincts(arena, hs)[i] == p;
            if i < pre.len() {
                assert(pre[i] == p);
                assert(pre.contains(p));
                let j = choose|j: int|
                    0 <= j < hs.drop_last().len() && arena[#[trigger] hs.drop_last()[j] as int].precincts@.contains(
                        p,
                    );
                assert(hs[j] == hs.drop_last()[j]);
            } else {
                assert(tail[i - pre.len()] == p);
                assert(arena[hs[hs.len() - 1] as int].precincts@.contains(p));
            }
        }
        if exists|j: int|
            0 <= j < hs.len() && arena[#[trigger] hs[j] as int].precincts@.contains(p) {
            let j = choose|j: int|
                0 <= j < hs.len() && arena[#[trigger] hs[j] as int].precincts@.contains(p);
            if j < hs.len() - 1 {
                assert(hs.drop_last()[j] == hs[j]);
                assert(pre.contains(p));
                let i = choose|i: int| 0 <= i < pre.len() && pre[i] == p;
                assert(concat_precincts(arena, hs)[i] == p);
            } else {
                let i = choose|i: int| 0 <= i < tail.len() && tail[i] == p;
                assert(concat_precincts(arena, hs)[pre.len() + i] == p);
            }
        }
    }
}

/// Gathers the precinct lists of the (valid) handles in `dh`.
pub fn gather_precincts(arena: &Vec<Municipality>, dh: &Vec<usize>) -> (r: Vec<Precinct>)
    requires
        forall|j: int| 0 <= j < dh@.len() ==> #[trigger] dh@[j] < arena@.len(),
    ensures
        r@ == concat_precincts(arena@, dh@),
{
    let mut r: Vec<Precinct> = Vec::new();
    let mut i: usize = 0;
    while i < dh.len()
        invariant
            i <= dh@.len(),
            forall|j: int| 0 <= j < dh@.len() ==> #[trigger] dh@[j] < arena@.len(),
            r@ == concat_precincts(arena@, dh@.take(i as int)),
        decreases dh@.len() - i,
    {
        let ghost r0 = r@;
        let h = dh[i];
        let ps = &arena[h].precincts;
        let mut k: usize = 0;
        while k < ps.len()
            invariant
                k <= ps@.len(),
                ps@ == arena@[dh@[i as int] as int].precincts@,
                r@ == r0 + ps@.take(k as int),
            decreases ps@.len() - k,
        {
            r.push(ps[k].clone());
            proof {
                assert(r@ =~= r0 + ps@.take(k + 1));
            }
            k = k + 1;
        }
        proof {
            assert(dh@.take(i + 1).drop_last() =~= dh@.take(i as int));
            assert(dh@.take(i + 1).last() == dh@[i as int]);
            assert(ps@.take(ps@.len() as int) =~= ps@);
            assert(r@ == concat_precincts(arena@, dh@.take(i + 1)));
        }
        i = i + 1;
    }
    proof {
        assert(dh@.take(dh@.len() as int) =~= dh@);
    }
    r
}

/// The union of the code sets of the records at `hs`.
pub open spec fn union_codes(arena: Seq<Municipality>, hs: Seq<usize>) -> Set<Seq<char>>
    decreases hs.len(),
{
    if hs.len() == 0 {
        Set::empty()
    } else {
        union_codes(arena, hs.drop_last()) + arena[hs.last() as int].code_set()
    }
}

/// Membership in a union of code sets.
pub proof fn lemma_union_codes_membership(arena: Seq<Municipality>, hs: Seq<usize>, c: Seq<char>)
    ensures
        union_codes(arena, hs).contains(c) <==> exists|j: int|
            0 <= j < hs.len() && arena[#[trigger] hs[j] as int].code_set().contains(c),
    decreases hs.len(),
{
    if hs.len() > 0 {
        lemma_union_codes_membership(arena, hs.drop_last(), c);
        if union_codes(arena, hs).contains(c) {
            if union_codes(arena, hs.drop_last()).contains(c) {
                let j = choose|j: int|
                    0 <= j < hs.drop_last().len()
                        && arena[#[trigger] hs.drop_last()[j] as int].code_set().contains(c);
                assert(hs[j] == hs.drop_last()[j]);
                assert(arena[hs[j] as int].code_set().contains(c));
            } else {
                assert(arena[hs[hs.len() - 1] as int].code_set().contains(c));
            }
        }
        if exists|j: int| 0 <= j < hs.len() && arena[#[trigger] hs[j] as int].code_set().contains(
            c,
        ) {
            let j = choose|j: int|
                0 <= j < hs.len() && arena[#[trigger] hs[j] as int].code_set().contains(c);
            if j < hs.len() - 1 {
                assert(hs.drop_last()[j] == hs[j]);
            }
        }
    }
}

/// Gathers the sorted union of the code sets of the handles in `dh`.
pub fn gather_codes(arena: &Vec<Municipality>, dh: &Vec<usize>) -> (r: Vec<String>)
    requires
        forall|j: int| 0 <= j < dh@.len() ==> #[trigger] dh@[j] < arena@.len(),
    ensures
        sorted_distinct(r.deep_view()),
        seq_set(r.deep_view()) == union_codes(arena@, dh@),
{
    let mut r: Vec<String> = Vec::new();
    proof {
        assert(seq_set(r.deep_view()) =~= Set::<Seq<char>>::empty());
    }
    let mut i: usize = 0;
    while i < dh.len()
        invariant
            i <= dh@.len(),
            forall|j: int| 0 <= j < dh@.len() ==> #[trigger] dh@[j] < arena@.len(),
            sorted_distinct(r.deep_view()),
            seq_set(r.deep_view()) == union_codes(arena@, dh@.take(i as int)),
        decreases dh@.len() - i,
    {
        let h = dh[i];
        sorted_insert_all(&mut r, &arena[h].codes);
        proof {
            assert(dh@.take(i + 1).drop_last() =~= dh@.take(i as int));
            assert(dh@.take(i + 1).last() == dh@[i as int]);
            assert(seq_set(r.deep_view()) == union_codes(arena@, dh@.take(i + 1)));
        }
        i = i + 1;
    }
    proof {
        assert(dh@.take(dh@.len() as int) =~= dh@);
    }
    r
}

/// The names the merged municipality joins, after the first: the name of
/// each subsequently referenced record whose own FIPS key appears among
/// the row's literal codes.  A record pulled in only transitively does not
/// add its name again.
pub open spec fn merge_names_h(
    arena: Seq<Municipality>,
    hs: Seq<usize>,
    codes: Seq<Seq<char>>,
    i: int,
) -> Seq<Seq<char>>
    decreases hs.len() - i,
{
    if i < 1 || i >= hs.len() {
        Seq::empty()
    } else {
        (if codes.contains(arena[hs[i] as int].fips_view()) {
            seq![arena[hs[i] as int].name@]
        } else {
            Seq::empty()
        }) + merge_names_h(arena, hs, codes, i + 1)
    }
}

/// Gathers the display names contributing to a merged municipality.
pub fn gather_names(arena: &Vec<Municipality>, handles: &Vec<usize>, codes: &Vec<String>) -> (r:
    Vec<String>)
    requires
        handles@.len() >= 1,
        forall|j: int| 0 <= j < handles@.len() ==> #[trigger] handles@[j] < arena@.len(),
    ensures
        r.deep_view() == seq![arena@[handles@[0] as int].name@] + merge_names_h(
            arena@,
            handles@,
            codes.deep_view(),
            1,
        ),
{
    let ghost cdv = codes.deep_view();
    let ghost total = seq![arena@[handles@[0] as int].name@] + merge_names_h(
        arena@,
        handles@,
        cdv,
        1,
    );
    let mut r: Vec<String> = Vec::new();
    r.push(arena[handles[0]].name.clone());
    proof {
        assert(r.deep_view() =~= seq![arena@[handles@[0] as int].name@]);
    }
    let mut i: usize = 1;
    loop
        invariant
            1 <= i <= handles@.len(),
            cdv == codes.deep_view(),
            forall|j: int| 0 <= j < handles@.len() ==> #[trigger] handles@[j] < arena@.len(),
            total == seq![arena@[handles@[0] as int].name@] + merge_names_h(
                arena@,
                handles@,
                cdv,
                1,
            ),
            total == r.deep_view() + merge_names_h(arena@, handles@, cdv, i as int),
        ensures
            total == r.deep_view(),
        decreases handles@.len() - i,
    {
        if i >= handles.len() {
            proof {
                assert(merge_names_h(arena@, handles@, cdv, i as int) =~= Seq::<Seq<char>>::empty());
                assert(r.deep_view() + Seq::<Seq<char>>::empty() =~= r.deep_view());
            }
            break;
        }
        let ghost r0 = r.deep_view();
        let h = handles[i];
        let fips = arena[h].fips_string();
        let hit = vec_contains_str(codes, fips.as_str());
        proof {
            assert(hit == cdv.contains(arena@[h as int].fips_view())) by {
                if hit {
                    let k = choose|k: int| 0 <= k < codes@.len() && codes@[k]@ == fips@;
                    assert(cdv[k] == arena@[h as int].fips_view());
                }
                if cdv.contains(arena@[h as int].fips_view()) {
                    let fv = arena@[h as int].fips_view();
                    let k = choose|k: int| 0 <= k < cdv.len() && cdv[k] == fv;
                    assert(codes@[k]@ == fips@);
                }
            }
        }
        if hit {
            r.push(arena[h].name.clone());
            proof {
                assert(r.deep_view() =~= r0.push(arena@[h as int].name@));
                assert(r0 + (seq![arena@[h as int].name@] + merge_names_h(
                    arena@,
                    handles@,
                    cdv,
                    i + 1,
                )) =~= r0.push(arena@[h as int].name@) + merge_names_h(
                    arena@,
                    handles@,
                    cdv,
                    i + 1,
                ));
            }
        } else {
            proof {
                assert(Seq::<Seq<char>>::empty() + merge_names_h(arena@, handles@, cdv, i + 1)
                    =~= merge_names_h(arena@, handles@, cdv, i + 1));
            }
        }
        i = i + 1;
    }
    r
}

/// Resolves each code through the FIPS map; the first miss fails the row.
pub fn lookup_codes(map: &StrMap<usize>, codes: &Vec<String>, row: usize) -> (r: Result<
    Vec<usize>,
    ImportError,
>)
    ensures
        r matches Ok(_) <==> forall|i: int|
            0 <= i < codes@.len() ==> map@.dom().contains(#[trigger] codes.deep_view()[i]),
        r matches Ok(hs) ==> hs@ == handles_of(map@, codes.deep_view()),
        r matches Err(e) ==> exists|k: int|
            0 <= k < codes@.len() && !map@.dom().contains(#[trigger] codes.deep_view()[k]) && (
            forall|j: int| 0 <= j < k ==> map@.dom().contains(#[trigger] codes.deep_view()[j]))
                && (e matches ImportError::UnresolvedMunicipality { row: rr, fips } && rr == row
                && fips@ == codes.deep_view()[k]),
{
    let ghost cdv = codes.deep_view();
    let mut hs: Vec<usize> = Vec::new();
    let mut i: usize = 0;
    while i < codes.len()
        invariant
            i <= codes@.len(),
            cdv == codes.deep_view(),
            cdv.len() == codes@.len(),
            hs@.len() == i,
            forall|j: int|
                0 <= j < i ==> map@.dom().contains(#[trigger] cdv[j]) && hs@[j] == map@[cdv[j]],
        decreases codes@.len() - i,
    {
        proof {
            assert(codes.deep_view()[i as int] == codes@[i as int]@);
        }
        match map.get(codes[i].as_str()) {
            Some(h) => {
                hs.push(*h);
            },
            None => {
                proof {
                    assert(!map@.dom().contains(codes.deep_view()[i as int]));
                    assert(forall|j: int|
                        0 <= j < i ==> map@.dom().contains(#[trigger] codes.deep_view()[j]));
                }
                return Err(ImportError::UnresolvedMunicipality { row, fips: codes[i].clone() });
            },
        }
        i = i + 1;
    }
    proof {
        assert(hs@ =~= handles_of(map@, cdv));
    }
    Ok(hs)
}

/// Rebinds every given code to the handle `h`.
pub fn rebind(map: &mut StrMap<usize>, codes: &Vec<String>, h: usize)
    requires
        forall|i: int|
            0 <= i < codes@.len() ==> old(map)@.dom().contains(#[trigger] codes.deep_view()[i]),
    ensures
        final(map)@.dom() == old(map)@.dom(),
        forall|c: Seq<char>| #[trigger]
            old(map)@.dom().contains(c) ==> final(map)@[c] == (if seq_set(
                codes.deep_view(),
            ).contains(c) {
                h
            } else {
                old(map)@[c]
            }),
{
    let ghost cdv = codes.deep_view();
    let mut i: usize = 0;
    while i < codes.len()
        invariant
            i <= codes@.len(),
            cdv == codes.deep_view(),
            cdv.len() == codes@.len(),
            forall|k: int| 0 <= k < cdv.len() ==> old(map)@.dom().contains(#[trigger] cdv[k]),
            map@.dom() == old(map)@.dom(),
            forall|c: Seq<char>| #[trigger]
                old(map)@.dom().contains(c) ==> map@[c] == (if seq_set(
                    cdv.take(i as int),
                ).contains(c) {
                    h
                } else {
                    old(map)@[c]
                }),
        decreases codes@.len() - i,
    {
        let ghost m0 = map@;
        proof {
            assert(codes.deep_view()[i as int] == codes@[i as int]@);
        }
        map.set(codes[i].clone(), h);
        proof {
            assert(map@.dom() =~= m0.dom());
            crate::text::lemma_seq_set_take_step(cdv, i as int);
            assert forall|c: Seq<char>| #[trigger] old(map)@.dom().contains(c) implies map@[c]
                == (if seq_set(cdv.take(i + 1)).contains(c) {
                h
            } else {
                old(map)@[c]
            }) by {
                if c == cdv[i as int] {
                } else {
                    assert(map@[c] == m0[c]);
                    assert(seq_set(cdv.take(i + 1)).contains(c) == seq_set(
                        cdv.take(i as int),
                    ).contains(c));
                }
            }
        }
        i = i + 1;
    }
    proof {
        assert(cdv.take(cdv.len() as int) =~= cdv);
    }
}

/// The source rows of a precinct list.
pub open spec fn rows_of(ps: Seq<Precinct>) -> Seq<u32> {
    ps.map_values(|p: Precinct| p.row_id)
}

proof fn lemma_dedup_distinct(hs: Seq<usize>)
    ensures
        forall|i: int, j: int|
            0 <= i < j < dedup_seq(hs).len() ==> dedup_seq(hs)[i] != dedup_seq(hs)[j],
    decreases hs.len(),
{
    if hs.len() > 0 {
        lemma_dedup_distinct(hs.drop_last());
        let rest = dedup_seq(hs.drop_last());
        if !hs.drop_last().contains(hs.last()) {
            lemma_dedup_contains(hs.drop_last(), hs.last());
            assert(!rest.contains(hs.last()));
            assert forall|i: int, j: int| 0 <= i < j < dedup_seq(hs).len()
                implies dedup_seq(hs)[i] != dedup_seq(hs)[j] by {
                if j == dedup_seq(hs).len() - 1 {
                    assert(dedup_seq(hs)[j] == hs.last());
                    assert(dedup_seq(hs)[i] == rest[i]);
                    if rest[i] == hs.last() {
                        assert(rest.contains(hs.last()));
                    }
                } else {
                    assert(dedup_seq(hs)[i] == rest[i]);
                    assert(dedup_seq(hs)[j] == rest[j]);
                }
            }
        }
    }
}

proof fn lemma_rows_of_concat(a: Seq<Precinct>, b: Seq<Precinct>)
    ensures
        rows_of(a + b) =~= rows_of(a) + rows_of(b),
{
}

/// Concatenating the precinct lists of pairwise-disjoint records with
/// individually distinct rows keeps the rows distinct, and covers exactly
/// the rows the records cover.
proof fn lemma_concat_distinct(arena: Seq<Municipality>, dh: Seq<usize>)
    requires
        forall|j: int| 0 <= j < dh.len() ==> (#[trigger] dh[j]) < arena.len(),
        forall|j: int|
            0 <= j < dh.len() ==> distinct_rows(rows_of(arena[#[trigger] dh[j] as int].precincts@)),
        forall|j1: int, j2: int|
            #![trigger dh[j1], dh[j2]]
            0 <= j1 < j2 < dh.len() ==> disjoint_rows(
                rows_of(arena[dh[j1] as int].precincts@),
                rows_of(arena[dh[j2] as int].precincts@),
            ),
    ensures
        distinct_rows(rows_of(concat_precincts(arena, dh))),
        forall|r: u32|
            rows_of(concat_precincts(arena, dh)).contains(r) <==> exists|j: int|
                0 <= j < dh.len() && rows_of(arena[#[trigger] dh[j] as int].precincts@).contains(r),
    decreases dh.len(),
{
    if dh.len() == 0 {
    } else {
        lemma_concat_distinct(arena, dh.drop_last());
        let pre = concat_precincts(arena, dh.drop_last());
        let tail = arena[dh.last() as int].precincts@;
        lemma_rows_of_concat(pre, tail);
        let rp = rows_of(pre);
        let rt = rows_of(tail);
        assert forall|j: int| 0 <= j < dh.drop_last().len() implies dh.drop_last()[j]
            == dh[j] by {}
        assert forall|i: int, j: int|
            0 <= i < j < rows_of(concat_precincts(arena, dh)).len() implies rows_of(
            concat_precincts(arena, dh),
        )[i] != rows_of(concat_precincts(arena, dh))[j] by {
            let rs = rows_of(concat_precincts(arena, dh));
            if j < rp.len() {
                assert(rs[i] == rp[i] && rs[j] == rp[j]);
            } else if i >= rp.len() {
                assert(rs[i] == rt[i - rp.len()] && rs[j] == rt[j - rp.len()]);
                assert(distinct_rows(rt));
            } else {
                assert(rs[i] == rp[i] && rs[j] == rt[j - rp.len()]);
                assert(rp.contains(rp[i]));
                let j1 = choose|j1: int|
                    0 <= j1 < dh.drop_last().len() && rows_of(
                        arena[#[trigger] dh.drop_last()[j1] as int].precincts@,
                    ).contains(rp[i]);
                assert(disjoint_rows(
                    rows_of(arena[dh[j1] as int].precincts@),
                    rows_of(arena[dh[dh.len() - 1] as int].precincts@),
                ));
                let rj = rows_of(arena[dh[j1] as int].precincts@);
                let i1 = choose|i1: int| 0 <= i1 < rj.len() && rj[i1] == rp[i];
                assert(rj[i1] != rt[j - rp.len()]);
            }
        }
        assert forall|r: u32| rows_of(concat_precincts(arena, dh)).contains(r) implies exists|j:
            int|
            0 <= j < dh.len() && rows_of(arena[#[trigger] dh[j] as int].precincts@).contains(
                r,
            ) by {
            let rs = rows_of(concat_precincts(arena, dh));
            let i = choose|i: int| 0 <= i < rs.len() && rs[i] == r;
            if i < rp.len() {
                assert(rp[i] == r);
                assert(rp.contains(r));
                let j = choose|j: int|
                    0 <= j < dh.drop_last().len() && rows_of(
                        arena[#[trigger] dh.drop_last()[j] as int].precincts@,
                    ).contains(r);
                assert(rows_of(arena[dh[j] as int].precincts@).contains(r));
            } else {
                assert(rt[i - rp.len()] == r);
                assert(rows_of(arena[dh[dh.len() - 1] as int].precincts@).contains(r));
            }
        }
        assert forall|r: u32|
            (exists|j: int|
                0 <= j < dh.len() && rows_of(arena[#[trigger] dh[j] as int].precincts@).contains(
                    r,
                )) implies rows_of(concat_precincts(arena, dh)).contains(r) by {
            let j = choose|j: int|
                0 <= j < dh.len() && rows_of(arena[#[trigger] dh[j] as int].precincts@).contains(r);
            let rs = rows_of(concat_precincts(arena, dh));
            if j < dh.len() - 1 {
                assert(rows_of(arena[dh.drop_last()[j] as int].precincts@).contains(r));
                assert(rp.contains(r));
                let i = choose|i: int| 0 <= i < rp.len() && rp[i] == r;
                assert(rs[i] == r);
            } else {
                let i = choose|i: int| 0 <= i < rt.len() && rt[i] == r;
                assert(rs[rp.len() + i] == r);
            }
        }
    }
}

/// The fields of a freshly attached precinct.
pub open spec fn new_precinct_ok(p: Precinct, pname: Seq<char>, pcounty: usize, prow: u32) -> bool {
    &&& p.name@ == pname
    &&& p.county == pcounty
    &&& p.row_id == prow
}

/// A single-code row's effect: only the target record's precinct list
/// grows, by the new precinct.
pub open spec fn attach_applied(
    pre: Catalog,
    post: Catalog,
    h: int,
    pname: Seq<char>,
    pcounty: usize,
    prow: u32,
) -> bool {
    &&& post.counties@ == pre.counties@
    &&& post.county_abbrs@ == pre.county_abbrs@
    &&& post.county_ids@ == pre.county_ids@
    &&& post.fips_map@ == pre.fips_map@
    &&& post.arena@.len() == pre.arena@.len()
    &&& forall|k: int|
        0 <= k < pre.arena@.len() && k != h ==> post.arena@[k] == pre.arena@[k]
    &&& post.arena@[h].name == pre.arena@[h].name
    &&& post.arena@[h].codes@ == pre.arena@[h].codes@
    &&& post.arena@[h].mtype == pre.arena@[h].mtype
    &&& post.arena@[h].canonical_county == pre.arena@[h].canonical_county
    &&& post.arena@[h].merged_from@ == pre.arena@[h].merged_from@
    &&& post.arena@[h].precincts@.len() == pre.arena@[h].precincts@.len() + 1
    &&& post.arena@[h].precincts@.drop_last() == pre.arena@[h].precincts@
    &&& new_precinct_ok(post.arena@[h].precincts@.last(), pname, pcounty, prow)
}

proof fn lemma_attach_preserves(pre: Catalog, post: Catalog, h: int, p: Precinct)
    requires
        pre.wf(),
        pre.live(h),
        0 <= h < pre.arena@.len(),
        p.county < pre.n_counties(),
        pre.rows_below(p.row_id),
        post.counties@ == pre.counties@,
        post.county_abbrs@ == pre.county_abbrs@,
        post.county_ids@ == pre.county_ids@,
        post.fips_map@ == pre.fips_map@,
        post.arena@.len() == pre.arena@.len(),
        forall|k: int| 0 <= k < pre.arena@.len() && k != h ==> post.arena@[k] == pre.arena@[k],
        post.arena@[h].name == pre.arena@[h].name,
        post.arena@[h].codes@ == pre.arena@[h].codes@,
        post.arena@[h].mtype == pre.arena@[h].mtype,
        post.arena@[h].canonical_county == pre.arena@[h].canonical_county,
        post.arena@[h].merged_from@ == pre.arena@[h].merged_from@,
        post.arena@[h].precincts@ == pre.arena@[h].precincts@.push(p),
    ensures
        post.wf(),
        forall|n: u32| pre.rows_below(n) && p.row_id < n ==> post.rows_below(n),
        forall|r2: u32| post.covered(r2) <==> (pre.covered(r2) || r2 == p.row_id),
{
    let postc = post.arena@[h].codes;
    let prec = pre.arena@[h].codes;
    assert(postc.deep_view() =~= prec.deep_view()) by {
        assert forall|i: int| 0 <= i < postc@.len() implies postc.deep_view()[i]
            == prec.deep_view()[i] by {
            assert(postc@[i] == prec@[i]);
        }
    }
    assert(post.arena@[h].code_set() == pre.arena@[h].code_set());
    assert forall|h2: int| post.live(h2) == pre.live(h2) by {
        assert(post.fips_dom() == pre.fips_dom());
        if pre.live(h2) {
            let c = choose|c: Seq<char>|
                #[trigger] pre.fips_dom().contains(c) && pre.handle_of(c) == h2;
            assert(post.fips_dom().contains(c) && post.handle_of(c) == h2);
        }
        if post.live(h2) {
            let c = choose|c: Seq<char>|
                #[trigger] post.fips_dom().contains(c) && post.handle_of(c) == h2;
            assert(pre.fips_dom().contains(c) && pre.handle_of(c) == h2);
        }
    }
    assert(post.arena@[h].row_ids() =~= pre.arena@[h].row_ids().push(p.row_id));
    assert forall|h2: int| 0 <= h2 < post.arena@.len() implies (#[trigger] post.arena@[h2]).row_ids()
        == (if h2 == h {
        pre.arena@[h2].row_ids().push(p.row_id)
    } else {
        pre.arena@[h2].row_ids()
    }) by {}
    assert forall|c: Seq<char>| #[trigger] post.fips_dom().contains(c) implies post.handle_of(c)
        < post.arena@.len() && post.arena@[post.handle_of(c) as int].code_set().contains(c)
        && post.record_closed(post.handle_of(c) as int) by {
        assert(pre.fips_dom().contains(c));
        let hc = pre.handle_of(c) as int;
        assert(pre.record_closed(hc));
        assert(post.arena@[hc].codes@ == pre.arena@[hc].codes@);
        assert forall|i: int|
            #![trigger post.arena@[hc].codes@[i]]
            0 <= i < post.arena@[hc].codes@.len() implies post.fips_dom().contains(
            post.arena@[hc].codes@[i]@,
        ) && post.handle_of(post.arena@[hc].codes@[i]@) == hc by {
            assert(post.arena@[hc].codes@[i] == pre.arena@[hc].codes@[i]);
        }
    }
    assert forall|h2: int| 0 <= h2 < post.arena@.len() implies (#[trigger] post.arena@[h2]).wf(
        post.n_counties(),
    ) by {
        assert(pre.arena@[h2].wf(pre.n_counties()));
        if h2 == h {
            assert(post.arena@[h2].codes.deep_view() == pre.arena@[h2].codes.deep_view());
            assert forall|i: int| 0 <= i < post.arena@[h2].precincts@.len()
                implies post.arena@[h2].precincts@[i].county < post.n_counties() by {
                if i < pre.arena@[h2].precincts@.len() {
                    assert(post.arena@[h2].precincts@[i] == pre.arena@[h2].precincts@[i]);
                } else {
                    assert(post.arena@[h2].precincts@[i] == p);
                }
            }
        }
    }
    assert forall|h2: int| post.live(h2) implies distinct_rows(
        (#[trigger] post.arena@[h2]).row_ids(),
    ) by {
        assert(pre.live(h2));
        if h2 == h {
            let rs = post.arena@[h2].row_ids();
            assert forall|i: int, j: int| 0 <= i < j < rs.len() implies rs[i] != rs[j] by {
                if j == rs.len() - 1 {
                    assert(rs[i] == pre.arena@[h2].row_ids()[i]);
                    assert(rs[i] < p.row_id);
                }
            }
        }
    }
    assert forall|h1: int, h2: int|
        #![trigger post.live(h1), post.live(h2)]
        post.live(h1) && post.live(h2) && h1 != h2 implies disjoint_rows(
        post.arena@[h1].row_ids(),
        post.arena@[h2].row_ids(),
    ) by {
        assert(pre.live(h1) && pre.live(h2));
        let a = post.arena@[h1].row_ids();
        let b = post.arena@[h2].row_ids();
        assert forall|i: int, j: int| 0 <= i < a.len() && 0 <= j < b.len() implies a[i]
            != b[j] by {
            if h1 == h && i == a.len() - 1 {
                assert(a[i] == p.row_id);
                assert(b[j] == pre.arena@[h2].row_ids()[j]);
                assert(b[j] < p.row_id);
            } else if h2 == h && j == b.len() - 1 {
                assert(b[j] == p.row_id);
                assert(a[i] == pre.arena@[h1].row_ids()[i]);
                assert(a[i] < p.row_id);
            } else {
                assert(a[i] == pre.arena@[h1].row_ids()[i]);
                assert(b[j] == pre.arena@[h2].row_ids()[j]);
            }
        }
    }
    assert forall|n: u32| pre.rows_below(n) && p.row_id < n implies post.rows_below(n) by {
        assert forall|h2: int| post.live(h2) implies forall|i: int|
            0 <= i < post.arena@[h2].row_ids().len() ==> post.arena@[h2].row_ids()[i] < n by {
            assert(pre.live(h2));
            assert forall|i: int| 0 <= i < post.arena@[h2].row_ids().len()
                implies post.arena@[h2].row_ids()[i] < n by {
                if h2 == h && i == post.arena@[h2].row_ids().len() - 1 {
                } else {
                    assert(post.arena@[h2].row_ids()[i] == pre.arena@[h2].row_ids()[i]);
                }
            }
        }
    }
    assert forall|r2: u32| post.covered(r2) <==> (pre.covered(r2) || r2 == p.row_id) by {
        if post.covered(r2) {
            let h2 = choose|h2: int|
                #[trigger] post.live(h2) && post.arena@[h2].row_ids().contains(r2);
            let i = choose|i: int|
                0 <= i < post.arena@[h2].row_ids().len() && post.arena@[h2].row_ids()[i] == r2;
            assert(pre.live(h2));
            if h2 == h {
                if i < pre.arena@[h2].row_ids().len() {
                    assert(pre.arena@[h2].row_ids()[i] == r2);
                    assert(pre.arena@[h2].row_ids().contains(r2));
                    assert(pre.covered(r2));
                } else {
                    assert(r2 == p.row_id);
                }
            } else {
                assert(pre.arena@[h2].row_ids().contains(r2));
                assert(pre.covered(r2));
            }
        }
        if pre.covered(r2) {
            let h2 = choose|h2: int|
                #[trigger] pre.live(h2) && pre.arena@[h2].row_ids().contains(r2);
            let i = choose|i: int|
                0 <= i < pre.arena@[h2].row_ids().len() && pre.arena@[h2].row_ids()[i] == r2;
            assert(post.live(h2));
            assert(post.arena@[h2].row_ids()[i] == r2);
            assert(post.arena@[h2].row_ids().contains(r2));
            assert(post.covered(r2));
        }
        if r2 == p.row_id {
            assert(post.live(h));
            let rs = post.arena@[h].row_ids();
            assert(rs[rs.len() - 1] == p.row_id);
            assert(rs.contains(r2));
            assert(post.covered(r2));
        }
    }
}

/// The merged municipality a split row allocates: name joined from the
/// contributing display names, key set the sorted union of every absorbed
/// code, type `Mixed`, county of the first referenced record, precincts
/// collected from the referenced records plus the new one.
pub open spec fn merged_record_ok(
    pre: Catalog,
    m: Municipality,
    codes: Seq<Seq<char>>,
    pname: Seq<char>,
    pcounty: usize,
    prow: u32,
) -> bool {
    let hs = handles_of(pre.fips_map@, codes);
    let dh = dedup_seq(hs);
    &&& m.name@ == joined(
        seq![pre.arena@[hs[0] as int].name@] + merge_names_h(pre.arena@, hs, codes, 1),
        " / "@,
    )
    &&& sorted_distinct(m.codes.deep_view())
    &&& seq_set(m.codes.deep_view()) == union_codes(pre.arena@, dh)
    &&& m.mtype == MunicipalType::Mixed
    &&& m.canonical_county == pre.arena@[hs[0] as int].canonical_county
    &&& m.merged_from@ == m.codes@
    &&& m.precincts@.len() == concat_precincts(pre.arena@, dh).len() + 1
    &&& m.precincts@.drop_last() == concat_precincts(pre.arena@, dh)
    &&& new_precinct_ok(m.precincts@.last(), pname, pcounty, prow)
}

/// A split row's effect: a new merged record at the end of the arena, and
/// every absorbed code — literal and transitive — rebound to it.
pub open spec fn merge_applied(
    pre: Catalog,
    post: Catalog,
    codes: Seq<Seq<char>>,
    pname: Seq<char>,
    pcounty: usize,
    prow: u32,
) -> bool {
    let nh = pre.arena@.len() as int;
    &&& post.counties@ == pre.counties@
    &&& post.county_abbrs@ == pre.county_abbrs@
    &&& post.county_ids@ == pre.county_ids@
    &&& post.arena@.len() == pre.arena@.len() + 1
    &&& forall|k: int| 0 <= k < pre.arena@.len() ==> post.arena@[k] == pre.arena@[k]
    &&& merged_record_ok(pre, post.arena@[nh], codes, pname, pcounty, prow)
    &&& post.fips_map@.dom() == pre.fips_map@.dom()
    &&& forall|c: Seq<char>| #[trigger]
        pre.fips_map@.dom().contains(c) ==> post.fips_map@[c] == (if union_codes(
            pre.arena@,
            dedup_seq(handles_of(pre.fips_map@, codes)),
        ).contains(c) {
            nh as usize
        } else {
            pre.fips_map@[c]
        })
}

#[verifier::rlimit(50)]
proof fn lemma_merge_preserves(
    pre: Catalog,
    post: Catalog,
    codes: Seq<Seq<char>>,
    pname: Seq<char>,
    pcounty: usize,
    prow: u32,
)
    requires
        pre.wf(),
        pre.rows_below(prow),
        codes.len() >= 1,
        pcounty < pre.n_counties(),
        forall|i: int| 0 <= i < codes.len() ==> pre.fips_dom().contains(#[trigger] codes[i]),
        merge_applied(pre, post, codes, pname, pcounty, prow),
    ensures
        post.wf(),
        forall|n: u32| pre.rows_below(n) && prow < n ==> post.rows_below(n),
        forall|r2: u32| post.covered(r2) <==> (pre.covered(r2) || r2 == prow),
{
    let hs = handles_of(pre.fips_map@, codes);
    let dh = dedup_seq(hs);
    let nh = pre.arena@.len() as int;
    let newm = post.arena@[nh];
    let uni = union_codes(pre.arena@, dh);

    assert forall|j: int| 0 <= j < hs.len() implies (#[trigger] hs[j]) < pre.arena@.len()
        && pre.live(hs[j] as int) && hs[j] == pre.handle_of(codes[j]) by {
        assert(hs[j] == pre.fips_map@[codes[j]]);
        assert(pre.fips_dom().contains(codes[j]));
    }
    lemma_dedup_distinct(hs);
    assert forall|j: int| 0 <= j < dh.len() implies (#[trigger] dh[j]) < pre.arena@.len()
        && pre.live(dh[j] as int) by {
        lemma_dedup_contains(hs, dh[j]);
        assert(dedup_seq(hs).contains(dh[j])) by {
            assert(dedup_seq(hs)[j] == dh[j]);
        }
        let i = choose|i: int| 0 <= i < hs.len() && hs[i] == dh[j];
    }
    // every code in the union is in the domain and owned by a referenced record
    assert forall|c: Seq<char>| #[trigger] uni.contains(c) implies pre.fips_dom().contains(c)
        && dh.contains(pre.handle_of(c)) by {
        lemma_union_codes_membership(pre.arena@, dh, c);
        let j = choose|j: int|
            0 <= j < dh.len() && pre.arena@[#[trigger] dh[j] as int].code_set().contains(c);
        let h = dh[j] as int;
        let c0 = choose|c0: Seq<char>|
            #[trigger] pre.fips_dom().contains(c0) && pre.handle_of(c0) == h;
        assert(pre.record_closed(h));
        let cdvh = pre.arena@[h].codes.deep_view();
        let i = choose|i: int| 0 <= i < cdvh.len() && cdvh[i] == c;
        assert(pre.arena@[h].codes.deep_view()[i] == pre.arena@[h].codes@[i]@);
        assert(pre.fips_dom().contains(c) && pre.handle_of(c) == h);
        assert(dh.contains(pre.handle_of(c))) by {
            assert(dh[j] == pre.handle_of(c));
        }
    }
    // a referenced record's whole code set is absorbed
    assert forall|j: int| 0 <= j < dh.len() implies pre.arena@[
        #[trigger] dh[j] as int
    ].code_set() <= uni by {
        assert forall|c: Seq<char>|
            pre.arena@[dh[j] as int].code_set().contains(c) implies uni.contains(c) by {
            lemma_union_codes_membership(pre.arena@, dh, c);
        }
    }
    // a record left alone keeps all its codes out of the union
    assert forall|h: int|
        pre.live(h) && !dh.contains(h as usize) && 0 <= h implies pre.arena@[h].code_set().disjoint(
        uni,
    ) by {
        assert forall|c: Seq<char>|
            pre.arena@[h].code_set().contains(c) implies !uni.contains(c) by {
            let c0 = choose|c0: Seq<char>|
                #[trigger] pre.fips_dom().contains(c0) && pre.handle_of(c0) == h;
            assert(pre.record_closed(h));
            let cdvh = pre.arena@[h].codes.deep_view();
            let i = choose|i: int| 0 <= i < cdvh.len() && cdvh[i] == c;
            assert(pre.arena@[h].codes.deep_view()[i] == pre.arena@[h].codes@[i]@);
            assert(pre.fips_dom().contains(c) && pre.handle_of(c) == h);
            if uni.contains(c) {
                assert(dh.contains(h as usize));
            }
        }
    }
    // the new record is nonempty and live
    assert(dh.len() >= 1) by {
        lemma_dedup_contains(hs, hs[0]);
        assert(hs.contains(hs[0])) by {
            assert(hs[0] == hs[0]);
        }
        assert(dedup_seq(hs).contains(hs[0]));
    }
    let h00 = dh[0] as int;
    assert(pre.arena@[h00].wf(pre.n_counties()));
    let c00 = pre.arena@[h00].codes.deep_view()[0];
    assert(pre.arena@[h00].code_set().contains(c00)) by {
        assert(pre.arena@[h00].codes.deep_view()[0] == c00);
    }
    assert(uni.contains(c00)) by {
        lemma_union_codes_membership(pre.arena@, dh, c00);
    }
    assert(newm.codes.deep_view().len() >= 1) by {
        assert(seq_set(newm.codes.deep_view()).contains(c00));
        let i = choose|i: int|
            0 <= i < newm.codes.deep_view().len() && newm.codes.deep_view()[i] == c00;
    }
    assert(post.live(nh)) by {
        assert(pre.arena.len() == pre.arena@.len());
        assert(0 <= nh <= usize::MAX);
        let x = newm.codes.deep_view()[0];
        assert(seq_set(newm.codes.deep_view()).contains(x));
        assert(uni.contains(x));
        assert(pre.fips_map@.dom().contains(x));
        assert(post.fips_dom().contains(x));
        assert(post.fips_map@[x] == nh as usize);
        assert(post.handle_of(x) == nh as usize);
        assert(post.fips_dom().contains(x) && post.handle_of(x) == nh);
    }
    // liveness of the old records
    assert forall|h: int| #![trigger post.live(h)] h != nh implies (post.live(h) <==> (pre.live(h)
        && !dh.contains(h as usize))) by {
        if post.live(h) {
            let c = choose|c: Seq<char>|
                #[trigger] post.fips_dom().contains(c) && post.handle_of(c) == h;
            assert(pre.fips_dom().contains(c));
            assert(!uni.contains(c));
            assert(pre.handle_of(c) == h);
            assert(pre.live(h));
            if dh.contains(h as usize) {
                let j = choose|j: int| 0 <= j < dh.len() && dh[j] == h as usize;
                assert(pre.arena@[h].code_set() <= uni);
                assert(pre.arena@[h].code_set().contains(c));
            }
        }
        if pre.live(h) && !dh.contains(h as usize) {
            let c = choose|c: Seq<char>|
                #[trigger] pre.fips_dom().contains(c) && pre.handle_of(c) == h;
            assert(pre.arena@[h].code_set().contains(c));
            assert(pre.arena@[h].code_set().disjoint(uni));
            assert(!uni.contains(c));
            assert(post.fips_dom().contains(c) && post.handle_of(c) == h);
        }
    }
    // W1 - W3
    assert forall|c: Seq<char>| #[trigger] post.fips_dom().contains(c) implies post.handle_of(c)
        < post.arena@.len() && post.arena@[post.handle_of(c) as int].code_set().contains(c)
        && post.record_closed(post.handle_of(c) as int) by {
        assert(pre.fips_dom().contains(c));
        if uni.contains(c) {
            assert(post.handle_of(c) == nh as usize);
            assert(newm.code_set().contains(c));
            assert forall|i: int|
                #![trigger post.arena@[nh].codes@[i]]
                0 <= i < post.arena@[nh].codes@.len() implies post.fips_dom().contains(
                post.arena@[nh].codes@[i]@,
            ) && post.handle_of(post.arena@[nh].codes@[i]@) == nh by {
                let x = newm.codes.deep_view()[i];
                assert(newm.codes.deep_view()[i] == newm.codes@[i]@);
                assert(seq_set(newm.codes.deep_view()).contains(x));
                assert(uni.contains(x));
                assert(pre.fips_dom().contains(x));
            }
        } else {
            let h = pre.handle_of(c) as int;
            assert(post.handle_of(c) == pre.handle_of(c));
            assert(h < pre.arena@.len());
            assert(post.arena@[h] == pre.arena@[h]);
            assert(pre.arena@[h].code_set().contains(c));
            assert(pre.live(h));
            assert(pre.record_closed(h));
            if dh.contains(h as usize) {
                assert(pre.arena@[h].code_set() <= uni) by {
                    let j = choose|j: int| 0 <= j < dh.len() && dh[j] == h as usize;
                    assert(pre.arena@[#[trigger] dh[j] as int].code_set() <= uni);
                }
                assert(uni.contains(c));
                assert(false);
            }
            assert(pre.arena@[h].code_set().disjoint(uni));
            assert forall|i: int|
                #![trigger post.arena@[h].codes@[i]]
                0 <= i < post.arena@[h].codes@.len() implies post.fips_dom().contains(
                post.arena@[h].codes@[i]@,
            ) && post.handle_of(post.arena@[h].codes@[i]@) == h by {
                let x = pre.arena@[h].codes@[i]@;
                assert(pre.fips_dom().contains(x) && pre.handle_of(x) == h);
                assert(pre.arena@[h].code_set().contains(x)) by {
                    assert(pre.arena@[h].codes.deep_view()[i] == x);
                }
                assert(!uni.contains(x));
                assert(post.handle_of(x) == pre.handle_of(x));
            }
        }
    }
    // W4: every record is structurally sound
    assert forall|h: int| 0 <= h < post.arena@.len() implies (#[trigger] post.arena@[h]).wf(
        post.n_counties(),
    ) by {
        if h < nh {
            assert(pre.arena@[h].wf(pre.n_counties()));
            assert(post.arena@[h] == pre.arena@[h]);
        } else {
            assert(pre.arena@[hs[0] as int].wf(pre.n_counties()));
            assert forall|i: int| 0 <= i < newm.precincts@.len()
                implies newm.precincts@[i].county < post.n_counties() by {
                if i < newm.precincts@.len() - 1 {
                    let cp = concat_precincts(pre.arena@, dh);
                    assert(newm.precincts@.drop_last()[i] == newm.precincts@[i]);
                    assert(cp.contains(newm.precincts@[i])) by {
                        assert(cp[i] == newm.precincts@[i]);
                    }
                    lemma_concat_precincts_membership(pre.arena@, dh, newm.precincts@[i]);
                    let j = choose|j: int|
                        0 <= j < dh.len()
                            && pre.arena@[#[trigger] dh[j] as int].precincts@.contains(
                            newm.precincts@[i],
                        );
                    assert(pre.arena@[dh[j] as int].wf(pre.n_counties()));
                    let k = choose|k: int|
                        0 <= k < pre.arena@[dh[j] as int].precincts@.len()
                            && pre.arena@[dh[j] as int].precincts@[k] == newm.precincts@[i];
                } else {
                    assert(newm.precincts@[i] == newm.precincts@.last());
                }
            }
        }
    }
    // rows of the new record
    let cp = concat_precincts(pre.arena@, dh);
    assert forall|j: int| 0 <= j < dh.len() implies distinct_rows(
        rows_of(pre.arena@[#[trigger] dh[j] as int].precincts@),
    ) by {
        assert(pre.live(dh[j] as int));
        assert(rows_of(pre.arena@[dh[j] as int].precincts@) == pre.arena@[
            dh[j] as int
        ].row_ids());
    }
    assert forall|j1: int, j2: int|
        #![trigger dh[j1], dh[j2]]
        0 <= j1 < j2 < dh.len() implies disjoint_rows(
        rows_of(pre.arena@[dh[j1] as int].precincts@),
        rows_of(pre.arena@[dh[j2] as int].precincts@),
    ) by {
        assert(pre.live(dh[j1] as int) && pre.live(dh[j2] as int));
        assert(dh[j1] != dh[j2]);
    }
    lemma_concat_distinct(pre.arena@, dh);
    assert(newm.row_ids() =~= rows_of(cp).push(prow)) by {
        assert forall|i: int| 0 <= i < newm.precincts@.len() implies newm.row_ids()[i] == rows_of(
            cp,
        ).push(prow)[i] by {
            if i < newm.precincts@.len() - 1 {
                assert(newm.precincts@.drop_last()[i] == newm.precincts@[i]);
                assert(cp[i] == newm.precincts@[i]);
            } else {
                assert(newm.precincts@[i] == newm.precincts@.last());
            }
        }
    }
    // each collected row is below prow
    assert forall|i: int| 0 <= i < rows_of(cp).len() implies rows_of(cp)[i] < prow by {
        assert(rows_of(cp).contains(rows_of(cp)[i]));
        let j = choose|j: int|
            0 <= j < dh.len() && rows_of(arena_at(pre, #[trigger] dh[j]).precincts@).contains(
                rows_of(cp)[i],
            );
        assert(pre.live(dh[j] as int));
        let k = choose|k: int|
            0 <= k < pre.arena@[dh[j] as int].row_ids().len() && pre.arena@[
                dh[j] as int
            ].row_ids()[k] == rows_of(cp)[i];
    }
    // W6: distinct and disjoint rows among the final records
    assert forall|h: int| post.live(h) implies distinct_rows(
        (#[trigger] post.arena@[h]).row_ids(),
    ) by {
        if h == nh {
            let rs = newm.row_ids();
            assert forall|i: int, j: int| 0 <= i < j < rs.len() implies rs[i] != rs[j] by {
                if j == rs.len() - 1 {
                    assert(rs[i] == rows_of(cp)[i]);
                    assert(rows_of(cp)[i] < prow);
                    assert(rs[j] == prow);
                } else {
                    assert(rs[i] == rows_of(cp)[i] && rs[j] == rows_of(cp)[j]);
                }
            }
        } else {
            assert(pre.live(h));
            assert(post.arena@[h] == pre.arena@[h]);
        }
    }
    assert forall|h1: int, h2: int|
        #![trigger post.live(h1), post.live(h2)]
        post.live(h1) && post.live(h2) && h1 != h2 implies disjoint_rows(
        post.arena@[h1].row_ids(),
        post.arena@[h2].row_ids(),
    ) by {
        if h1 == nh || h2 == nh {
            let ho = if h1 == nh {
                h2
            } else {
                h1
            };
            assert(pre.live(ho) && !dh.contains(ho as usize));
            assert(post.arena@[ho] == pre.arena@[ho]);
            let ra = newm.row_ids();
            let rb = pre.arena@[ho].row_ids();
            assert forall|i: int, j: int| 0 <= i < ra.len() && 0 <= j < rb.len() implies ra[i]
                != rb[j] by {
                if i == ra.len() - 1 {
                    assert(ra[i] == prow);
                    assert(rb[j] < prow);
                } else {
                    assert(ra[i] == rows_of(cp)[i]);
                    assert(rows_of(cp).contains(rows_of(cp)[i]));
                    let jj = choose|jj: int|
                        0 <= jj < dh.len() && rows_of(
                            arena_at(pre, #[trigger] dh[jj]).precincts@,
                        ).contains(rows_of(cp)[i]);
                    assert(pre.live(dh[jj] as int));
                    assert(dh[jj] as int != ho);
                    assert(disjoint_rows(
                        pre.arena@[dh[jj] as int].row_ids(),
                        pre.arena@[ho].row_ids(),
                    ));
                    let kk = choose|kk: int|
                        0 <= kk < pre.arena@[dh[jj] as int].row_ids().len() && pre.arena@[
                            dh[jj] as int
                        ].row_ids()[kk] == rows_of(cp)[i];
                }
            }
            if h1 == nh {
            } else {
                assert(disjoint_rows(post.arena@[h2].row_ids(), post.arena@[h1].row_ids()));
                let ra1 = post.arena@[h1].row_ids();
                let rb1 = post.arena@[h2].row_ids();
                assert forall|i: int, j: int|
                    0 <= i < ra1.len() && 0 <= j < rb1.len() implies ra1[i] != rb1[j] by {
                    assert(rb1[j] != ra1[i]);
                }
            }
        } else {
            assert(pre.live(h1) && pre.live(h2));
            assert(post.arena@[h1] == pre.arena@[h1] && post.arena@[h2] == pre.arena@[h2]);
        }
    }
    // rows stay below any bound above prow
    assert forall|n: u32| pre.rows_below(n) && prow < n implies post.rows_below(n) by {
        assert forall|h: int| #![trigger post.live(h)] post.live(h) implies forall|i: int|
            0 <= i < post.arena@[h].row_ids().len() ==> post.arena@[h].row_ids()[i] < n by {
            assert forall|i: int| 0 <= i < post.arena@[h].row_ids().len()
                implies post.arena@[h].row_ids()[i] < n by {
                if h == nh {
                    if i < newm.row_ids().len() - 1 {
                        assert(newm.row_ids()[i] == rows_of(cp)[i]);
                        assert(rows_of(cp)[i] < prow);
                    } else {
                        assert(newm.row_ids()[i] == prow);
                    }
                } else {
                    assert(pre.live(h));
                    assert(post.arena@[h] == pre.arena@[h]);
                }
            }
        }
    }
    // coverage: exactly the old rows plus this one
    assert forall|r2: u32| post.covered(r2) <==> (pre.covered(r2) || r2 == prow) by {
        if post.covered(r2) {
            let h = choose|h: int|
                #[trigger] post.live(h) && post.arena@[h].row_ids().contains(r2);
            if h == nh {
                let i = choose|i: int|
                    0 <= i < newm.row_ids().len() && newm.row_ids()[i] == r2;
                if i < newm.row_ids().len() - 1 {
                    assert(rows_of(cp)[i] == r2);
                    assert(rows_of(cp).contains(r2));
                    let j = choose|j: int|
                        0 <= j < dh.len() && rows_of(
                            arena_at(pre, #[trigger] dh[j]).precincts@,
                        ).contains(r2);
                    assert(pre.live(dh[j] as int));
                    assert(pre.arena@[dh[j] as int].row_ids().contains(r2));
                    assert(pre.covered(r2));
                } else {
                    assert(r2 == prow);
                }
            } else {
                assert(pre.live(h));
                assert(post.arena@[h] == pre.arena@[h]);
                assert(pre.covered(r2));
            }
        }
        if pre.covered(r2) {
            let h = choose|h: int|
                #[trigger] pre.live(h) && pre.arena@[h].row_ids().contains(r2);
            if dh.contains(h as usize) {
                let j = choose|j: int| 0 <= j < dh.len() && dh[j] == h as usize;
                assert(rows_of(arena_at(pre, dh[j]).precincts@).contains(r2));
                assert(rows_of(cp).contains(r2)) by {
                    assert(rows_of(pre.arena@[#[trigger] dh[j] as int].precincts@).contains(r2));
                }
                let i = choose|i: int| 0 <= i < rows_of(cp).len() && rows_of(cp)[i] == r2;
                assert(newm.row_ids()[i] == r2) by {
                    assert(newm.precincts@.drop_last()[i] == cp[i]);
                    assert(newm.precincts@[i] == cp[i]);
                }
                assert(newm.row_ids().contains(r2));
                assert(post.covered(r2));
            } else {
                assert(post.live(h));
                assert(post.arena@[h] == pre.arena@[h]);
                assert(post.arena@[h].row_ids().contains(r2));
                assert(post.covered(r2));
            }
        }
        if r2 == prow {
            let rs = newm.row_ids();
            assert(rs[rs.len() - 1] == prow);
            assert(rs.contains(r2));
            assert(post.covered(r2));
        }
    }
}

/// The record at handle `h`.
pub open spec fn arena_at(cat: Catalog, h: usize) -> Municipality {
    cat.arena@[h as int]
}

proof fn lemma_union_in_dom(cat: Catalog, dh: Seq<usize>)
    requires
        cat.wf(),
        forall|j: int|
            0 <= j < dh.len() ==> (#[trigger] dh[j]) < cat.arena@.len() && cat.live(dh[j] as int),
    ensures
        forall|c: Seq<char>| #[trigger]
            union_codes(cat.arena@, dh).contains(c) ==> cat.fips_dom().contains(c),
{
    assert forall|c: Seq<char>| #[trigger] union_codes(cat.arena@, dh).contains(
        c,
    ) implies cat.fips_dom().contains(c) by {
        lemma_union_codes_membership(cat.arena@, dh, c);
        let j = choose|j: int|
            0 <= j < dh.len() && cat.arena@[#[trigger] dh[j] as int].code_set().contains(c);
        let h = dh[j] as int;
        let c0 = choose|c0: Seq<char>|
            #[trigger] cat.fips_dom().contains(c0) && cat.handle_of(c0) == h;
        assert(cat.record_closed(h));
        let cdvh = cat.arena@[h].codes.deep_view();
        let i = choose|i: int| 0 <= i < cdvh.len() && cdvh[i] == c;
        assert(cat.arena@[h].codes.deep_view()[i] == cat.arena@[h].codes@[i]@);
    }
}

impl Catalog {
    /// Attaches one precinct to the record at `h`.
    fn attach_single(&mut self, h: usize, p: Precinct)
        requires
            old(self).wf(),
            old(self).live(h as int),
            h < old(self).arena@.len(),
            p.county < old(self).n_counties(),
            old(self).rows_below(p.row_id),
        ensures
            final(self).wf(),
            attach_applied(*old(self), *final(self), h as int, p.name@, p.county, p.row_id),
            forall|n: u32| old(self).rows_below(n) && p.row_id < n ==> final(self).rows_below(n),
            forall|r2: u32|
                final(self).covered(r2) <==> (old(self).covered(r2) || r2 == p.row_id),
    {
        let ghost pre = *self;
        let ghost gp = p;
        self.arena[h].precincts.push(p);
        proof {
            lemma_attach_preserves(pre, *self, h as int, gp);
            assert(self.arena@[h as int].precincts@.drop_last() =~= pre.arena@[
                h as int
            ].precincts@);
        }
    }

    /// Allocates the merged municipality for a split row and rebinds every
    /// absorbed code to it.
    fn merge_split(
        &mut self,
        codes: &Vec<String>,
        handles: &Vec<usize>,
        pname: &String,
        pcounty: usize,
        prow: u32,
    )
        requires
            old(self).wf(),
            old(self).rows_below(prow),
            codes@.len() >= 1,
            pcounty < old(self).n_counties(),
            forall|i: int|
                0 <= i < codes@.len() ==> old(self).fips_dom().contains(
                    #[trigger] codes.deep_view()[i],
                ),
            handles@ == handles_of(old(self).fips_map@, codes.deep_view()),
        ensures
            final(self).wf(),
            merge_applied(*old(self), *final(self), codes.deep_view(), pname@, pcounty, prow),
            forall|n: u32| old(self).rows_below(n) && prow < n ==> final(self).rows_below(n),
            forall|r2: u32| final(self).covered(r2) <==> (old(self).covered(r2) || r2 == prow),
    {
        let ghost pre = *self;
        let ghost cdv = codes.deep_view();
        let ghost hsg = handles@;
        proof {
            assert(cdv.len() == codes@.len());
            assert forall|j: int| 0 <= j < handles@.len() implies (#[trigger] handles@[j])
                < self.arena@.len() && self.live(handles@[j] as int) by {
                assert(handles@[j] == self.fips_map@[cdv[j]]);
                assert(self.fips_dom().contains(cdv[j]));
            }
        }
        let dh = dedup_handles(handles);
        proof {
            assert forall|j: int| 0 <= j < dh@.len() implies (#[trigger] dh@[j])
                < self.arena@.len() && self.live(dh@[j] as int) by {
                lemma_dedup_contains(hsg, dh@[j]);
                assert(dedup_seq(hsg).contains(dh@[j])) by {
                    assert(dedup_seq(hsg)[j] == dh@[j]);
                }
                let i = choose|i: int| 0 <= i < hsg.len() && hsg[i] == dh@[j];
                assert(hsg[i] < self.arena@.len() && self.live(hsg[i] as int));
            }
        }
        let ps_base = gather_precincts(&self.arena, &dh);
        let ucodes = gather_codes(&self.arena, &dh);
        let names = gather_names(&self.arena, handles, codes);
        let mname = join_with(&names, " / ");
        let h0 = handles[0];
        let ccounty = self.arena[h0].canonical_county;
        let mut ps = ps_base;
        ps.push(Precinct { name: pname.clone(), county: pcounty, row_id: prow });
        let merged_from = clone_strings(&ucodes);
        let nh = self.arena.len();
        proof {
            lemma_union_in_dom(*self, dh@);
            assert forall|i: int| 0 <= i < ucodes@.len() implies self.fips_dom().contains(
                #[trigger] ucodes.deep_view()[i],
            ) by {
                assert(seq_set(ucodes.deep_view()).contains(ucodes.deep_view()[i]));
                assert(union_codes(self.arena@, dh@).contains(ucodes.deep_view()[i]));
            }
        }
        rebind(&mut self.fips_map, &ucodes, nh);
        let newm = Municipality {
            name: mname,
            codes: ucodes,
            mtype: MunicipalType::Mixed,
            canonical_county: ccounty,
            precincts: ps,
            merged_from,
        };
        self.arena.push(newm);
        proof {
            let nhi = pre.arena@.len() as int;
            let m = self.arena@[nhi];
            assert(m.precincts@.drop_last() =~= concat_precincts(pre.arena@, dh@));
            assert(merged_record_ok(pre, m, cdv, pname@, pcounty, prow));
            assert(merge_applied(pre, *self, cdv, pname@, pcounty, prow));
            lemma_merge_preserves(pre, *self, cdv, pname@, pcounty, prow);
        }
    }
}

/// A precinct row is usable when it holds county and name, at least one
/// FIPS code, and every code resolves through the current map.  Since a
/// merge only rebinds codes already present, this depends only on the
/// map's domain, which rows never change.
pub open spec fn precinct_row_ok(cat: Catalog, cells: Seq<Seq<char>>) -> bool {
    &&& cells.len() >= 2
    &&& cat.county_ids@.dom().contains(cells[0])
    &&& row_codes(cells).len() >= 1
    &&& forall|i: int|
        0 <= i < row_codes(cells).len() ==> cat.fips_dom().contains(#[trigger] row_codes(cells)[i])
}

/// The error a failing precinct row produces.
pub open spec fn precinct_row_err(cat: Catalog, cells: Seq<Seq<char>>, k: int, e: ImportError) -> bool {
    if cells.len() < 2 {
        e matches ImportError::Resolution { sheet: sh, row, value } && sh@ == "precincts"@ && row
            == k && value@ == Seq::<char>::empty()
    } else if !cat.county_ids@.dom().contains(cells[0]) {
        e matches ImportError::Resolution { sheet: sh, row, value } && sh@ == "precincts"@ && row
            == k && value@ == cells[0]
    } else if exists|i: int|
        0 <= i < row_codes(cells).len() && !cat.fips_dom().contains(#[trigger] row_codes(cells)[i]) {
        exists|i: int|
            0 <= i < row_codes(cells).len() && !cat.fips_dom().contains(
                #[trigger] row_codes(cells)[i],
            ) && (forall|j: int|
                0 <= j < i ==> cat.fips_dom().contains(#[trigger] row_codes(cells)[j])) && (
            e matches ImportError::UnresolvedMunicipality { row, fips } && row == k && fips@
                == row_codes(cells)[i])
    } else {
        e matches ImportError::UnassignedPrecinct { row, precinct, county } && row == k
            && precinct@ == cells[1] && county@ == cells[0]
    }
}

/// `n` is a county name the counties sheet lists (its second column).
pub open spec fn county_in_sheet(dv1: Seq<Seq<Seq<char>>>, n: Seq<char>) -> bool {
    exists|k: int| #![trigger dv1[k]] 0 <= k < dv1.len() && dv1[k][1] == n
}

/// `c` is a FIPS code the municipal-codes sheet lists (its fourth column).
pub open spec fn code_in_sheet(dv2: Seq<Seq<Seq<char>>>, c: Seq<char>) -> bool {
    exists|k: int| #![trigger dv2[k]] 0 <= k < dv2.len() && dv2[k][3] == c
}

/// A precinct row judged against the two reference sheets alone: both
/// cells present, the county cell a listed county name, and at least one
/// FIPS code, each listed in the municipal-codes sheet.
pub open spec fn precinct_row_ok_sheets(
    dv1: Seq<Seq<Seq<char>>>,
    dv2: Seq<Seq<Seq<char>>>,
    cells: Seq<Seq<char>>,
) -> bool {
    &&& cells.len() >= 2
    &&& county_in_sheet(dv1, cells[0])
    &&& row_codes(cells).len() >= 1
    &&& forall|i: int|
        0 <= i < row_codes(cells).len() ==> code_in_sheet(dv2, #[trigger] row_codes(cells)[i])
}

/// The error a failing precinct row produces, judged against the two
/// reference sheets alone.
pub open spec fn precinct_row_err_sheets(
    dv1: Seq<Seq<Seq<char>>>,
    dv2: Seq<Seq<Seq<char>>>,
    cells: Seq<Seq<char>>,
    k: int,
    e: ImportError,
) -> bool {
    if cells.len() < 2 {
        e matches ImportError::Resolution { sheet: sh, row, value } && sh@ == "precincts"@ && row
            == k && value@ == Seq::<char>::empty()
    } else if !county_in_sheet(dv1, cells[0]) {
        e matches ImportError::Resolution { sheet: sh, row, value } && sh@ == "precincts"@ && row
            == k && value@ == cells[0]
    } else if exists|i: int|
        0 <= i < row_codes(cells).len() && !code_in_sheet(dv2, #[trigger] row_codes(cells)[i]) {
        exists|i: int|
            0 <= i < row_codes(cells).len() && !code_in_sheet(dv2, #[trigger] row_codes(cells)[i])
                && (forall|j: int| 0 <= j < i ==> code_in_sheet(dv2, #[trigger] row_codes(cells)[j]))
                && (e matches ImportError::UnresolvedMunicipality { row, fips } && row == k && fips@
                == row_codes(cells)[i])
    } else {
        e matches ImportError::UnassignedPrecinct { row, precinct, county } && row == k
            && precinct@ == cells[1] && county@ == cells[0]
    }
}

/// With the catalog the two reference sheets build, a precinct row's
/// judgment — usable or not, and which error — can be read off the sheets
/// alone: the cataloged county names are the counties sheet's second
/// column, the cataloged FIPS codes the municipal-codes sheet's fourth.
pub proof fn lemma_precinct_row_judgment_sheets(
    cat: Catalog,
    dv1: Seq<Seq<Seq<char>>>,
    dv2: Seq<Seq<Seq<char>>>,
    cells: Seq<Seq<char>>,
)
    requires
        crate::catalog::counties_built(dv1, cat.counties, cat.county_abbrs, cat.county_ids),
        crate::catalog::munis_built(dv2, cat.county_abbrs, cat.county_ids, cat.arena, cat.fips_map),
    ensures
        precinct_row_ok(cat, cells) == precinct_row_ok_sheets(dv1, dv2, cells),
        forall|k: int, e: ImportError|
            precinct_row_err(cat, cells, k, e) == precinct_row_err_sheets(dv1, dv2, cells, k, e),
{
    assert forall|n: Seq<char>| #[trigger]
        cat.county_ids@.dom().contains(n) == county_in_sheet(dv1, n) by {}
    assert forall|c: Seq<char>| #[trigger] cat.fips_dom().contains(c) == code_in_sheet(dv2, c) by {}
    assert(precinct_row_ok(cat, cells) == precinct_row_ok_sheets(dv1, dv2, cells)) by {
        assert forall|i: int| 0 <= i < row_codes(cells).len() implies cat.fips_dom().contains(
            #[trigger] row_codes(cells)[i],
        ) == code_in_sheet(dv2, row_codes(cells)[i]) by {}
    }
    assert forall|k: int, e: ImportError| precinct_row_err(cat, cells, k, e)
        == precinct_row_err_sheets(dv1, dv2, cells, k, e) by {
        assert forall|i: int| 0 <= i < row_codes(cells).len() implies cat.fips_dom().contains(
            #[trigger] row_codes(cells)[i],
        ) == code_in_sheet(dv2, row_codes(cells)[i]) by {}
        if cells.len() >= 2 && cat.county_ids@.dom().contains(cells[0]) {
            if exists|i: int|
                0 <= i < row_codes(cells).len() && !cat.fips_dom().contains(
                    #[trigger] row_codes(cells)[i],
                ) {
                if precinct_row_err(cat, cells, k, e) {
                    let i = choose|i: int|
                        0 <= i < row_codes(cells).len() && !cat.fips_dom().contains(
                            #[trigger] row_codes(cells)[i],
                        ) && (forall|j: int|
                            0 <= j < i ==> cat.fips_dom().contains(#[trigger] row_codes(cells)[j]))
                            && (e matches ImportError::UnresolvedMunicipality { row, fips } && row
                            == k && fips@ == row_codes(cells)[i]);
                    assert(!code_in_sheet(dv2, row_codes(cells)[i]));
                    assert(forall|j: int|
                        0 <= j < i ==> code_in_sheet(dv2, #[trigger] row_codes(cells)[j]));
                    assert(precinct_row_err_sheets(dv1, dv2, cells, k, e));
                }
                if precinct_row_err_sheets(dv1, dv2, cells, k, e) {
                    let i = choose|i: int|
                        0 <= i < row_codes(cells).len() && !code_in_sheet(
                            dv2,
                            #[trigger] row_codes(cells)[i],
                        ) && (forall|j: int|
                            0 <= j < i ==> code_in_sheet(dv2, #[trigger] row_codes(cells)[j]))
                            && (e matches ImportError::UnresolvedMunicipality { row, fips } && row
                            == k && fips@ == row_codes(cells)[i]);
                    assert(!cat.fips_dom().contains(row_codes(cells)[i]));
                    assert(forall|j: int|
                        0 <= j < i ==> cat.fips_dom().contains(#[trigger] row_codes(cells)[j]));
                    assert(precinct_row_err(cat, cells, k, e));
                }
            }
        }
    }
}

/// The precinct's fields agree with the source row its `row_id` names:
/// its name is the row's second cell, its county the cataloged county of
/// the row's first.
pub open spec fn precinct_of_row(cat: Catalog, dv: Seq<Seq<Seq<char>>>, p: Precinct) -> bool {
    &&& (p.row_id as int) < dv.len()
    &&& dv[p.row_id as int].len() >= 2
    &&& p.name@ == dv[p.row_id as int][1]
    &&& cat.county_ids@.dom().contains(dv[p.row_id as int][0])
    &&& p.county == cat.county_ids@[dv[p.row_id as int][0]]
}

/// Every precinct of every current municipality came from a source row
/// of the precinct sheet.
pub open spec fn precincts_of_rows(cat: Catalog, dv: Seq<Seq<Seq<char>>>) -> bool {
    forall|h: int, i: int|
        #![trigger cat.arena@[h].precincts@[i]]
        cat.live(h) && 0 <= i < cat.arena@[h].precincts@.len() ==> precinct_of_row(
            cat,
            dv,
            cat.arena@[h].precincts@[i],
        )
}

/// Resolving one more row preserves the precincts' provenance: every old
/// precinct is carried over unchanged, and the one new precinct carries
/// the new row's cells.
proof fn lemma_precincts_of_rows_step(pre: Catalog, post: Catalog, dv: Seq<Seq<Seq<char>>>, i: int)
    requires
        pre.wf(),
        0 <= i < dv.len(),
        i < u32::MAX as int,
        pre.arena@.len() <= usize::MAX,
        precincts_of_rows(pre, dv.take(i)),
        precinct_row_ok(pre, dv[i]),
        if row_codes(dv[i]).len() == 1 {
            attach_applied(
                pre,
                post,
                pre.handle_of(row_codes(dv[i])[0]) as int,
                dv[i][1],
                pre.county_ids@[dv[i][0]],
                i as u32,
            )
        } else {
            merge_applied(pre, post, row_codes(dv[i]), dv[i][1], pre.county_ids@[dv[i][0]], i as u32)
        },
    ensures
        precincts_of_rows(post, dv.take(i + 1)),
{
    let cells = dv[i];
    let codes = row_codes(cells);
    let pcounty = pre.county_ids@[cells[0]];
    assert(dv.take(i + 1)[i] == cells);
    assert forall|p: Precinct| #[trigger]
        precinct_of_row(pre, dv.take(i), p) implies precinct_of_row(post, dv.take(i + 1), p) by {
        assert(post.county_ids@ == pre.county_ids@);
        assert(dv.take(i + 1)[p.row_id as int] == dv.take(i)[p.row_id as int]);
    }
    if codes.len() == 1 {
        let h = pre.handle_of(codes[0]) as int;
        assert(pre.fips_dom().contains(codes[0]));
        assert(0 <= h < pre.arena@.len());
        assert forall|h2: int, i2: int|
            #![trigger post.arena@[h2].precincts@[i2]]
            post.live(h2) && 0 <= i2 < post.arena@[h2].precincts@.len() implies precinct_of_row(
            post,
            dv.take(i + 1),
            post.arena@[h2].precincts@[i2],
        ) by {
            let c = choose|c: Seq<char>|
                #[trigger] post.fips_dom().contains(c) && post.handle_of(c) == h2;
            assert(pre.fips_dom().contains(c) && pre.handle_of(c) == h2);
            assert(pre.live(h2));
            assert(0 <= h2 < pre.arena@.len());
            let p = post.arena@[h2].precincts@[i2];
            if h2 == h && i2 == post.arena@[h2].precincts@.len() - 1 {
                assert(new_precinct_ok(p, cells[1], pcounty, i as u32));
                assert(p.row_id as int == i);
                assert(precinct_of_row(post, dv.take(i + 1), p));
            } else {
                if h2 == h {
                    assert(p == post.arena@[h2].precincts@.drop_last()[i2]);
                    assert(p == pre.arena@[h2].precincts@[i2]);
                } else {
                    assert(post.arena@[h2] == pre.arena@[h2]);
                }
                assert(precinct_of_row(pre, dv.take(i), pre.arena@[h2].precincts@[i2]));
            }
        }
    } else {
        let hs = handles_of(pre.fips_map@, codes);
        let dh = dedup_seq(hs);
        let nh = pre.arena@.len() as int;
        let uni = union_codes(pre.arena@, dh);
        assert forall|j: int| 0 <= j < hs.len() implies (#[trigger] hs[j]) < pre.arena@.len()
            && pre.live(hs[j] as int) by {
            assert(hs[j] == pre.fips_map@[codes[j]]);
            assert(pre.fips_dom().contains(codes[j]));
        }
        assert forall|j: int| 0 <= j < dh.len() implies (#[trigger] dh[j]) < pre.arena@.len()
            && pre.live(dh[j] as int) by {
            lemma_dedup_contains(hs, dh[j]);
            assert(dedup_seq(hs).contains(dh[j])) by {
                assert(dedup_seq(hs)[j] == dh[j]);
            }
            let k = choose|k: int| 0 <= k < hs.len() && hs[k] == dh[j];
        }
        assert forall|h2: int, i2: int|
            #![trigger post.arena@[h2].precincts@[i2]]
            post.live(h2) && 0 <= i2 < post.arena@[h2].precincts@.len() implies precinct_of_row(
            post,
            dv.take(i + 1),
            post.arena@[h2].precincts@[i2],
        ) by {
            let p = post.arena@[h2].precincts@[i2];
            if h2 == nh {
                let m = post.arena@[nh];
                assert(merged_record_ok(pre, m, codes, cells[1], pcounty, i as u32));
                if i2 == m.precincts@.len() - 1 {
                    assert(new_precinct_ok(p, cells[1], pcounty, i as u32));
                    assert(p.row_id as int == i);
                    assert(precinct_of_row(post, dv.take(i + 1), p));
                } else {
                    assert(p == m.precincts@.drop_last()[i2]);
                    assert(p == concat_precincts(pre.arena@, dh)[i2]);
                    assert(concat_precincts(pre.arena@, dh).contains(p));
                    lemma_concat_precincts_membership(pre.arena@, dh, p);
                    let j = choose|j: int|
                        0 <= j < dh.len() && pre.arena@[#[trigger] dh[j] as int].precincts@.contains(
                            p,
                        );
                    let k = choose|k: int|
                        0 <= k < pre.arena@[dh[j] as int].precincts@.len() && pre.arena@[
                            dh[j] as int
                        ].precincts@[k] == p;
                    assert(precinct_of_row(pre, dv.take(i), pre.arena@[dh[j] as int].precincts@[k]));
                }
            } else {
                let c = choose|c: Seq<char>|
                    #[trigger] post.fips_dom().contains(c) && post.handle_of(c) == h2;
                assert(pre.fips_map@.dom().contains(c));
                assert(post.fips_map@[c] == (if uni.contains(c) {
                    nh as usize
                } else {
                    pre.fips_map@[c]
                }));
                if uni.contains(c) {
                    assert(h2 == nh as usize as int);
                    assert(nh as usize as int == nh);
                    assert(false);
                }
                assert(pre.handle_of(c) == h2);
                assert(pre.live(h2));
                assert(0 <= h2 < pre.arena@.len());
                assert(post.arena@[h2] == pre.arena@[h2]);
                assert(precinct_of_row(pre, dv.take(i), pre.arena@[h2].precincts@[i2]));
            }
        }
    }
}

impl Catalog {
    /// Resolves one precinct row: reads its county, name and FIPS run,
    /// attaches the precinct to the one referenced municipality, or merges
    /// the several referenced ones into a new `Mixed` record.
    pub fn resolve_row(&mut self, row_cells: &Vec<String>, row: usize) -> (r: Result<
        (),
        ImportError,
    >)
        requires
            old(self).wf(),
            row < u32::MAX,
            old(self).rows_below(row as u32),
        ensures
            final(self).wf(),
            final(self).counties@ == old(self).counties@,
            final(self).county_abbrs@ == old(self).county_abbrs@,
            final(self).county_ids@ == old(self).county_ids@,
            final(self).fips_dom() == old(self).fips_dom(),
            r matches Ok(_) <==> precinct_row_ok(*old(self), row_cells.deep_view()),
            r matches Err(e) ==> precinct_row_err(*old(self), row_cells.deep_view(), row as int, e)
                && *final(self) == *old(self),
            r matches Ok(_) ==> final(self).rows_below((row + 1) as u32) && (forall|r2: u32|
                final(self).covered(r2) <==> (old(self).covered(r2) || r2 == row as u32)),
            r matches Ok(_) ==> {
                let cells = row_cells.deep_view();
                let codes = row_codes(cells);
                if codes.len() == 1 {
                    attach_applied(
                        *old(self),
                        *final(self),
                        old(self).handle_of(codes[0]) as int,
                        cells[1],
                        old(self).county_ids@[cells[0]],
                        row as u32,
                    )
                } else {
                    merge_applied(
                        *old(self),
                        *final(self),
                        codes,
                        cells[1],
                        old(self).county_ids@[cells[0]],
                        row as u32,
                    )
                }
            },
    {
        let ghost cells = row_cells.deep_view();
        let (ccell, ncell) = match (cell_at(row_cells, 0), cell_at(row_cells, 1)) {
            (Some(c), Some(n)) => (c, n),
            _ => {
                return Err(ImportError::Resolution {
                    sheet: String::from_str("precincts"),
                    row,
                    value: String::new(),
                });
            },
        };
        let cidx = match self.county_ids.get(ccell.as_str()) {
            Some(ci) => *ci,
            None => {
                return Err(ImportError::Resolution {
                    sheet: String::from_str("precincts"),
                    row,
                    value: ccell.clone(),
                });
            },
        };
        let codes = fips_run(row_cells);
        let handles = match lookup_codes(&self.fips_map, &codes, row) {
            Ok(hs) => hs,
            Err(e) => {
                proof {
                    let cdv = codes.deep_view();
                    let k = choose|k: int|
                        0 <= k < codes@.len() && !self.fips_map@.dom().contains(
                            #[trigger] cdv[k],
                        ) && (forall|j: int|
                            0 <= j < k ==> self.fips_map@.dom().contains(#[trigger] cdv[j])) && (
                        e matches ImportError::UnresolvedMunicipality { row: rr, fips } && rr == row
                            && fips@ == cdv[k]);
                    assert(!self.fips_dom().contains(row_codes(cells)[k]));
                    assert(forall|j: int|
                        0 <= j < k ==> self.fips_dom().contains(#[trigger] row_codes(cells)[j]));
                }
                return Err(e);
            },
        };
        if codes.len() == 0 {
            return Err(ImportError::UnassignedPrecinct {
                row,
                precinct: ncell.clone(),
                county: ccell.clone(),
            });
        }
        proof {
            assert(precinct_row_ok(*self, cells)) by {
                assert forall|i: int| 0 <= i < row_codes(cells).len()
                    implies self.fips_dom().contains(#[trigger] row_codes(cells)[i]) by {
                    assert(row_codes(cells)[i] == codes.deep_view()[i]);
                }
            }
        }
        if codes.len() == 1 {
            let h = handles[0];
            proof {
                assert(handles@[0] == self.fips_map@[codes.deep_view()[0]]);
                assert(self.fips_dom().contains(codes.deep_view()[0]));
                assert(self.live(h as int));
            }
            let p = Precinct { name: ncell.clone(), county: cidx, row_id: row as u32 };
            self.attach_single(h, p);
        } else {
            self.merge_split(&codes, &handles, ncell, cidx, row as u32);
        }
        Ok(())
    }
}

/// Whether a precinct row is usable, and which error it produces, depend
/// only on the county-name and FIPS domains, which resolving rows never
/// changes.
proof fn lemma_row_judgment_stable(a: Catalog, b: Catalog, cells: Seq<Seq<char>>)
    requires
        a.county_ids@.dom() == b.county_ids@.dom(),
        a.fips_dom() == b.fips_dom(),
    ensures
        precinct_row_ok(a, cells) == precinct_row_ok(b, cells),
        forall|k: int, e: ImportError|
            precinct_row_err(a, cells, k, e) == precinct_row_err(b, cells, k, e),
{
    assert forall|i: int| 0 <= i < row_codes(cells).len() implies a.fips_dom().contains(
        #[trigger] row_codes(cells)[i],
    ) == b.fips_dom().contains(row_codes(cells)[i]) by {}
    assert forall|k: int, e: ImportError| precinct_row_err(a, cells, k, e) == precinct_row_err(
        b,
        cells,
        k,
        e,
    ) by {
        if cells.len() >= 2 && a.county_ids@.dom().contains(cells[0]) {
            if exists|i: int|
                0 <= i < row_codes(cells).len() && !a.fips_dom().contains(
                    #[trigger] row_codes(cells)[i],
                ) {
                assert(exists|i: int|
                    0 <= i < row_codes(cells).len() && !b.fips_dom().contains(
                        #[trigger] row_codes(cells)[i],
                    ));
                if precinct_row_err(a, cells, k, e) {
                    let i = choose|i: int|
                        0 <= i < row_codes(cells).len() && !a.fips_dom().contains(
                            #[trigger] row_codes(cells)[i],
                        ) && (forall|j: int|
                            0 <= j < i ==> a.fips_dom().contains(#[trigger] row_codes(cells)[j]))
                            && (e matches ImportError::UnresolvedMunicipality { row, fips } && row
                            == k && fips@ == row_codes(cells)[i]);
                    assert(precinct_row_err(b, cells, k, e));
                }
                if precinct_row_err(b, cells, k, e) {
                    let i = choose|i: int|
                        0 <= i < row_codes(cells).len() && !b.fips_dom().contains(
                            #[trigger] row_codes(cells)[i],
                        ) && (forall|j: int|
                            0 <= j < i ==> b.fips_dom().contains(#[trigger] row_codes(cells)[j]))
                            && (e matches ImportError::UnresolvedMunicipality { row, fips } && row
                            == k && fips@ == row_codes(cells)[i]);
                    assert(precinct_row_err(a, cells, k, e));
                }
            }
        }
    }
}

/// Before any row is resolved, codes share a municipality exactly when
/// the base partition links them.
proof fn lemma_links_initial(pre: Catalog, dv: Seq<Seq<Seq<char>>>)
    ensures
        forall|c1: Seq<char>, c2: Seq<char>|
            #![trigger same_municipality(pre, c1, c2)]
            #![trigger linked(pre, dv.take(0), c1, c2)]
            same_municipality(pre, c1, c2) <==> linked(pre, dv.take(0), c1, c2),
{
    assert forall|c1: Seq<char>, c2: Seq<char>|
        #![trigger same_municipality(pre, c1, c2)]
        #![trigger linked(pre, dv.take(0), c1, c2)]
        same_municipality(pre, c1, c2) <==> linked(pre, dv.take(0), c1, c2) by {
        if same_municipality(pre, c1, c2) {
            lemma_linked_step(pre, dv.take(0), c1, c2);
        }
        if linked(pre, dv.take(0), c1, c2) {
            let p = choose|p: Seq<Seq<char>>| chain(pre, dv.take(0), p, c1, c2);
            assert forall|x: Seq<char>, y: Seq<char>|
                direct_link(pre, dv.take(0), x, y) implies #[trigger] same_municipality(
                pre,
                x,
                y,
            ) by {
                if !same_municipality(pre, x, y) {
                    let (rw, i2, j2) = choose|rw: Seq<Seq<char>>, i2: int, j2: int|
                        #![trigger row_codes(rw)[i2], row_codes(rw)[j2]]
                        dv.take(0).contains(rw) && 0 <= i2 < row_codes(rw).len() && 0 <= j2
                            < row_codes(rw).len() && row_codes(rw)[i2] == x && row_codes(
                            rw,
                        )[j2] == y;
                    assert(false);
                }
            }
            lemma_chain_collapses(pre, pre, dv.take(0), p, c1, c2);
        }
    }
}

/// Resolving one more row moves the partition from the closure of the
/// first `i` rows to the closure of the first `i + 1`.
#[verifier::rlimit(100)]
#[verifier::spinoff_prover]
proof fn lemma_links_maintained(
    pre: Catalog,
    before: Catalog,
    after: Catalog,
    dv: Seq<Seq<Seq<char>>>,
    i: int,
)
    requires
        0 <= i < dv.len(),
        before.fips_dom() == pre.fips_dom(),
        after.fips_dom() == before.fips_dom(),
        forall|i2: int, j2: int|
            0 <= i2 < row_codes(dv[i]).len() && 0 <= j2 < row_codes(dv[i]).len()
                ==> same_municipality(after, #[trigger] row_codes(dv[i])[i2], #[trigger] row_codes(
                dv[i],
            )[j2]),
        forall|c1: Seq<char>, c2: Seq<char>|
            #[trigger] same_municipality(before, c1, c2) ==> same_municipality(after, c1, c2),
        forall|c1: Seq<char>, c2: Seq<char>|
            #[trigger] same_municipality(after, c1, c2) ==> same_municipality(before, c1, c2) || (
            exists|i2: int, j2: int|
                0 <= i2 < row_codes(dv[i]).len() && 0 <= j2 < row_codes(dv[i]).len()
                    && same_municipality(before, c1, #[trigger] row_codes(dv[i])[i2])
                    && same_municipality(before, c2, #[trigger] row_codes(dv[i])[j2])),
        forall|c1: Seq<char>, c2: Seq<char>|
            #![trigger same_municipality(before, c1, c2)]
            #![trigger linked(pre, dv.take(i), c1, c2)]
            same_municipality(before, c1, c2) <==> linked(pre, dv.take(i), c1, c2),
    ensures
        forall|c1: Seq<char>, c2: Seq<char>|
            #![trigger same_municipality(after, c1, c2)]
            #![trigger linked(pre, dv.take(i + 1), c1, c2)]
            same_municipality(after, c1, c2) <==> linked(pre, dv.take(i + 1), c1, c2),
{
    let cells = dv[i];
    let codes = row_codes(cells);
    let prev = dv.take(i);
    let cur = dv.take(i + 1);
    assert forall|x: Seq<char>, y: Seq<char>|
        direct_link(pre, cur, x, y) implies #[trigger] same_municipality(after, x, y) by {
        if same_municipality(pre, x, y) {
            lemma_linked_step(pre, prev, x, y);
            assert(linked(pre, dv.take(i), x, y));
            assert(same_municipality(before, x, y));
        } else {
            let (rw, i2, j2) = choose|rw: Seq<Seq<char>>, i2: int, j2: int|
                #![trigger row_codes(rw)[i2], row_codes(rw)[j2]]
                cur.contains(rw) && 0 <= i2 < row_codes(rw).len() && 0 <= j2 < row_codes(
                    rw,
                ).len() && row_codes(rw)[i2] == x && row_codes(rw)[j2] == y;
            let idx = choose|idx: int| 0 <= idx < cur.len() && cur[idx] == rw;
            if idx < i {
                assert(prev[idx] == rw);
                assert(prev.contains(rw));
                assert(direct_link(pre, prev, x, y));
                lemma_linked_step(pre, prev, x, y);
                assert(linked(pre, dv.take(i), x, y));
                assert(same_municipality(before, x, y));
            } else {
                assert(idx == i);
                assert(rw == cells);
                assert(same_municipality(after, row_codes(cells)[i2], row_codes(cells)[j2]));
            }
        }
    }
    assert forall|c1: Seq<char>, c2: Seq<char>|
        #![trigger same_municipality(after, c1, c2)]
        #![trigger linked(pre, dv.take(i + 1), c1, c2)]
        same_municipality(after, c1, c2) <==> linked(pre, cur, c1, c2) by {
        if same_municipality(after, c1, c2) {
            if same_municipality(before, c1, c2) {
                assert(linked(pre, prev, c1, c2));
                lemma_linked_mono(pre, dv, i, c1, c2);
            } else {
                let (i2, j2) = choose|i2: int, j2: int|
                    0 <= i2 < codes.len() && 0 <= j2 < codes.len() && same_municipality(
                        before,
                        c1,
                        #[trigger] codes[i2],
                    ) && same_municipality(before, c2, #[trigger] codes[j2]);
                assert(linked(pre, prev, c1, codes[i2]));
                lemma_linked_mono(pre, dv, i, c1, codes[i2]);
                assert(linked(pre, prev, c2, codes[j2]));
                lemma_linked_mono(pre, dv, i, c2, codes[j2]);
                assert(cur[i] == cells);
                assert(cur.contains(cells));
                assert(direct_link(pre, cur, codes[i2], codes[j2])) by {
                    assert(row_codes(cells)[i2] == codes[i2]);
                    assert(row_codes(cells)[j2] == codes[j2]);
                    assert(pre.fips_dom().contains(codes[i2]));
                    assert(pre.fips_dom().contains(codes[j2]));
                }
                lemma_linked_step(pre, cur, codes[i2], codes[j2]);
                lemma_linked_trans(pre, cur, c1, codes[i2], codes[j2]);
                lemma_linked_sym(pre, cur, c2, codes[j2]);
                lemma_linked_trans(pre, cur, c1, codes[j2], c2);
            }
        }
        if linked(pre, cur, c1, c2) {
            let p = choose|p: Seq<Seq<char>>| chain(pre, cur, p, c1, c2);
            lemma_chain_collapses(after, pre, cur, p, c1, c2);
        }
    }
}

impl Catalog {
    /// Resolves every precinct row of the "precincts" sheet in order,
    /// stopping at the first failing row.  On success every source row is
    /// attached to exactly one current municipality, and codes share a
    /// municipality exactly when the rows link them.
    pub fn resolve_rows(&mut self, sheet: &Vec<Vec<String>>) -> (r: Result<(), ImportError>)
        requires
            old(self).wf(),
            sheet@.len() < u32::MAX as usize,
            forall|rr: u32| !old(self).covered(rr),
            old(self).rows_below(0),
        ensures
            final(self).wf(),
            final(self).counties@ == old(self).counties@,
            final(self).county_abbrs@ == old(self).county_abbrs@,
            final(self).county_ids@ == old(self).county_ids@,
            final(self).fips_dom() == old(self).fips_dom(),
            r matches Ok(_) <==> forall|i: int|
                0 <= i < sheet.deep_view().len() ==> precinct_row_ok(
                    *old(self),
                    #[trigger] sheet.deep_view()[i],
                ),
            r matches Err(e) ==> exists|k: int|
                0 <= k < sheet.deep_view().len() && !precinct_row_ok(
                    *old(self),
                    #[trigger] sheet.deep_view()[k],
                ) && (forall|j: int|
                    0 <= j < k ==> precinct_row_ok(*old(self), #[trigger] sheet.deep_view()[j]))
                    && precinct_row_err(*old(self), sheet.deep_view()[k], k, e),
            r matches Ok(_) ==> (forall|r2: u32|
                final(self).covered(r2) <==> r2 < sheet.deep_view().len()),
            r matches Ok(_) ==> final(self).rows_below(sheet@.len() as u32),
            r matches Ok(_) ==> precincts_of_rows(*final(self), sheet.deep_view()),
            r matches Ok(_) ==> (forall|c1: Seq<char>, c2: Seq<char>|
                #![trigger same_municipality(*final(self), c1, c2)]
                #![trigger linked(*old(self), sheet.deep_view(), c1, c2)]
                same_municipality(*final(self), c1, c2) <==> linked(
                    *old(self),
                    sheet.deep_view(),
                    c1,
                    c2,
                )),
    {
        let ghost pre = *self;
        let ghost dv = sheet.deep_view();
        proof {
            lemma_links_initial(pre, dv);
            assert forall|h: int, i2: int|
                #![trigger pre.arena@[h].precincts@[i2]]
                pre.live(h) && 0 <= i2 < pre.arena@[h].precincts@.len() implies precinct_of_row(
                pre,
                dv.take(0),
                pre.arena@[h].precincts@[i2],
            ) by {
                let rr = pre.arena@[h].precincts@[i2].row_id;
                assert(pre.arena@[h].row_ids()[i2] == rr);
                assert(pre.arena@[h].row_ids().contains(rr));
                assert(pre.covered(rr));
            }
        }
        let mut i: usize = 0;
        while i < sheet.len()
            invariant
                i <= sheet@.len(),
                pre == *old(self),
                dv == sheet.deep_view(),
                dv.len() == sheet@.len(),
                sheet@.len() < u32::MAX as usize,
                self.wf(),
                self.counties@ == pre.counties@,
                self.county_abbrs@ == pre.county_abbrs@,
                self.county_ids@ == pre.county_ids@,
                self.fips_dom() == pre.fips_dom(),
                forall|j: int| 0 <= j < i ==> precinct_row_ok(pre, #[trigger] dv[j]),
                forall|r2: u32| self.covered(r2) <==> r2 < i,
                self.rows_below(i as u32),
                precincts_of_rows(*self, dv.take(i as int)),
                forall|c1: Seq<char>, c2: Seq<char>|
                    #![trigger same_municipality(*self, c1, c2)]
                    #![trigger linked(pre, dv.take(i as int), c1, c2)]
                    same_municipality(*self, c1, c2) <==> linked(pre, dv.take(i as int), c1, c2),
            decreases sheet@.len() - i,
        {
            let row = &sheet[i];
            proof {
                assert(row.deep_view() == dv[i as int]);
                lemma_row_judgment_stable(*self, pre, dv[i as int]);
            }
            let arena_len = self.arena.len();
            let ghost before = *self;
            proof {
                assert(before.arena@.len() == arena_len);
            }
            match self.resolve_row(row, i) {
                Ok(()) => {},
                Err(e) => {
                    proof {
                        assert(!precinct_row_ok(pre, dv[i as int]));
                        assert(precinct_row_err(pre, dv[i as int], i as int, e));
                    }
                    return Err(e);
                },
            }
            proof {
                assert forall|r2: u32| self.covered(r2) <==> r2 < i + 1 by {
                    assert(self.covered(r2) <==> (before.covered(r2) || r2 == i as u32));
                }
                let cells = dv[i as int];
                lemma_row_merge_exact(
                    before,
                    *self,
                    cells,
                    cells[1],
                    before.county_ids@[cells[0]],
                    i as u32,
                );
                lemma_precincts_of_rows_step(before, *self, dv, i as int);
                lemma_links_maintained(pre, before, *self, dv, i as int);
            }
            i = i + 1;
        }
        proof {
            assert(dv.take(dv.len() as int) =~= dv);
            assert forall|c1: Seq<char>, c2: Seq<char>|
                #![trigger same_municipality(*self, c1, c2)]
                #![trigger linked(pre, dv, c1, c2)]
                same_municipality(*self, c1, c2) <==> linked(pre, dv, c1, c2) by {
                assert(linked(pre, dv.take(dv.len() as int), c1, c2) == linked(pre, dv, c1, c2));
            }
        }
        Ok(())
    }
}

/// Clones a string vector, element for element.
pub fn clone_strings(v: &Vec<String>) -> (r: Vec<String>)
    ensures
        r@ == v@,
{
    let mut r: Vec<String> = Vec::new();
    let mut i: usize = 0;
    while i < v.len()
        invariant
            i <= v@.len(),
            r@ == v@.take(i as int),
        decreases v@.len() - i,
    {
        r.push(v[i].clone());
        proof {
            assert(r@ =~= v@.take(i + 1));
        }
        i = i + 1;
    }
    proof {
        assert(v@.take(v@.len() as int) =~= v@);
    }
    r
}

/// Two FIPS codes currently resolve to the same municipality.
pub open spec fn same_municipality(cat: Catalog, c1: Seq<char>, c2: Seq<char>) -> bool {
    &&& cat.fips_dom().contains(c1)
    &&& cat.fips_dom().contains(c2)
    &&& cat.handle_of(c1) == cat.handle_of(c2)
}

/// One direct link between two cataloged codes: they already share a
/// municipality in the base catalog, or a single precinct row names them
/// both.
pub open spec fn direct_link(
    cat0: Catalog,
    rows: Seq<Seq<Seq<char>>>,
    a: Seq<char>,
    b: Seq<char>,
) -> bool {
    ||| same_municipality(cat0, a, b)
    ||| (cat0.fips_dom().contains(a) && cat0.fips_dom().contains(b) && exists|rw: Seq<Seq<char>>, i: int, j: int|
        #![trigger row_codes(rw)[i], row_codes(rw)[j]]
        rows.contains(rw) && 0 <= i < row_codes(rw).len() && 0 <= j < row_codes(rw).len()
            && row_codes(rw)[i] == a && row_codes(rw)[j] == b)
}

/// A chain of direct links from `a` to `b`.
pub open spec fn chain(
    cat0: Catalog,
    rows: Seq<Seq<Seq<char>>>,
    p: Seq<Seq<char>>,
    a: Seq<char>,
    b: Seq<char>,
) -> bool {
    &&& p.len() >= 1
    &&& p[0] == a
    &&& p[p.len() - 1] == b
    &&& forall|k: int| 0 <= k < p.len() - 1 ==> direct_link(cat0, rows, #[trigger] p[k], p[k + 1])
}

/// `a` and `b` are cataloged codes connected by direct links: the
/// equivalence closure of the base partition under the rows' links.
pub open spec fn linked(
    cat0: Catalog,
    rows: Seq<Seq<Seq<char>>>,
    a: Seq<char>,
    b: Seq<char>,
) -> bool {
    &&& cat0.fips_dom().contains(a)
    &&& cat0.fips_dom().contains(b)
    &&& exists|p: Seq<Seq<char>>| chain(cat0, rows, p, a, b)
}

proof fn lemma_linked_step(cat0: Catalog, rows: Seq<Seq<Seq<char>>>, a: Seq<char>, b: Seq<char>)
    requires
        direct_link(cat0, rows, a, b),
    ensures
        linked(cat0, rows, a, b),
{
    let p = seq![a, b];
    assert(chain(cat0, rows, p, a, b)) by {
        assert(p[0] == a && p[p.len() - 1] == b);
        assert forall|k: int| 0 <= k < p.len() - 1 implies direct_link(
            cat0,
            rows,
            #[trigger] p[k],
            p[k + 1],
        ) by {
            assert(k == 0);
        }
    }
}

proof fn lemma_linked_trans(
    cat0: Catalog,
    rows: Seq<Seq<Seq<char>>>,
    a: Seq<char>,
    b: Seq<char>,
    c: Seq<char>,
)
    requires
        linked(cat0, rows, a, b),
        linked(cat0, rows, b, c),
    ensures
        linked(cat0, rows, a, c),
{
    let p1 = choose|p1: Seq<Seq<char>>| chain(cat0, rows, p1, a, b);
    let p2 = choose|p2: Seq<Seq<char>>| chain(cat0, rows, p2, b, c);
    let p = p1 + p2.drop_first();
    assert(chain(cat0, rows, p, a, c)) by {
        assert(p[0] == p1[0]);
        assert(p.len() == p1.len() + p2.len() - 1);
        if p2.len() == 1 {
            assert(p =~= p1);
            assert(b == c);
        } else {
            assert(p[p.len() - 1] == p2.drop_first()[p2.len() - 2]);
            assert(p2.drop_first()[p2.len() - 2] == p2[p2.len() - 1]);
            assert forall|k: int| 0 <= k < p.len() - 1 implies direct_link(
                cat0,
                rows,
                #[trigger] p[k],
                p[k + 1],
            ) by {
                if k < p1.len() - 1 {
                    assert(p[k] == p1[k] && p[k + 1] == p1[k + 1]);
                    assert(direct_link(cat0, rows, p1[k], p1[k + 1]));
                } else if k == p1.len() - 1 {
                    assert(p[k] == p1[k]);
                    assert(p1[k] == b);
                    assert(p[k + 1] == p2.drop_first()[0]);
                    assert(p2.drop_first()[0] == p2[1]);
                    assert(direct_link(cat0, rows, p2[0], p2[1]));
                } else {
                    assert(p[k] == p2.drop_first()[k - p1.len()]);
                    assert(p[k + 1] == p2.drop_first()[k + 1 - p1.len()]);
                    assert(p2.drop_first()[k - p1.len()] == p2[k - p1.len() + 1]);
                    assert(p2.drop_first()[k + 1 - p1.len()] == p2[k - p1.len() + 2]);
                    assert(direct_link(cat0, rows, p2[k - p1.len() + 1], p2[k - p1.len() + 2]));
                }
            }
        }
    }
}

proof fn lemma_linked_sym(cat0: Catalog, rows: Seq<Seq<Seq<char>>>, a: Seq<char>, b: Seq<char>)
    requires
        linked(cat0, rows, a, b),
    ensures
        linked(cat0, rows, b, a),
{
    let p = choose|p: Seq<Seq<char>>| chain(cat0, rows, p, a, b);
    let q = p.reverse();
    assert(chain(cat0, rows, q, b, a)) by {
        assert(q.len() == p.len());
        assert(q[0] == p[p.len() - 1]);
        assert(q[q.len() - 1] == p[0]);
        assert forall|k: int| 0 <= k < q.len() - 1 implies direct_link(
            cat0,
            rows,
            #[trigger] q[k],
            q[k + 1],
        ) by {
            assert(q[k] == p[p.len() - 1 - k]);
            assert(q[k + 1] == p[p.len() - 2 - k]);
            assert(direct_link(cat0, rows, p[p.len() - 2 - k], p[p.len() - 1 - k]));
        }
    }
}

proof fn lemma_linked_mono(cat0: Catalog, rows: Seq<Seq<Seq<char>>>, n: int, a: Seq<char>, b: Seq<char>)
    requires
        linked(cat0, rows.take(n), a, b),
        0 <= n < rows.len(),
    ensures
        linked(cat0, rows.take(n + 1), a, b),
{
    {
        let p = choose|p: Seq<Seq<char>>| chain(cat0, rows.take(n), p, a, b);
        assert(chain(cat0, rows.take(n + 1), p, a, b)) by {
            assert forall|k: int| 0 <= k < p.len() - 1 implies direct_link(
                cat0,
                rows.take(n + 1),
                #[trigger] p[k],
                p[k + 1],
            ) by {
                assert(direct_link(cat0, rows.take(n), p[k], p[k + 1]));
                if !same_municipality(cat0, p[k], p[k + 1]) {
                    let (rw, i, j) = choose|rw: Seq<Seq<char>>, i: int, j: int|
                        #![trigger row_codes(rw)[i], row_codes(rw)[j]]
                        rows.take(n).contains(rw) && 0 <= i < row_codes(rw).len() && 0 <= j
                            < row_codes(rw).len() && row_codes(rw)[i] == p[k] && row_codes(
                            rw,
                        )[j] == p[k + 1];
                    let idx = choose|idx: int| 0 <= idx < rows.take(n).len() && rows.take(n)[idx] == rw;
                    assert(rows.take(n + 1)[idx] == rw);
                    assert(rows.take(n + 1).contains(rw));
                }
            }
        }
    }
}

/// A chain collapses inside any catalog in which every direct link
/// already shares a municipality.
proof fn lemma_chain_collapses(
    cat: Catalog,
    cat0: Catalog,
    rows: Seq<Seq<Seq<char>>>,
    p: Seq<Seq<char>>,
    a: Seq<char>,
    b: Seq<char>,
)
    requires
        chain(cat0, rows, p, a, b),
        cat.fips_dom().contains(a),
        forall|x: Seq<char>, y: Seq<char>|
            direct_link(cat0, rows, x, y) ==> #[trigger] same_municipality(cat, x, y),
    ensures
        same_municipality(cat, a, b),
    decreases p.len(),
{
    if p.len() == 1 {
        assert(b == a);
    } else {
        assert(direct_link(cat0, rows, p[0], p[1]));
        assert(same_municipality(cat, p[0], p[1]));
        let q = p.drop_first();
        assert(chain(cat0, rows, q, p[1], b)) by {
            assert(q[0] == p[1]);
            assert(q[q.len() - 1] == p[p.len() - 1]);
            assert forall|k: int| 0 <= k < q.len() - 1 implies direct_link(
                cat0,
                rows,
                #[trigger] q[k],
                q[k + 1],
            ) by {
                assert(q[k] == p[k + 1] && q[k + 1] == p[k + 2]);
                assert(direct_link(cat0, rows, p[k + 1], p[k + 2]));
            }
        }
        lemma_chain_collapses(cat, cat0, rows, q, p[1], b);
    }
}

/// Order independence of the merge, one row at a time: resolving a row
/// unites exactly the row's codes with whatever they already touched.
/// After a successful row, (1) all the row's codes share one
/// municipality; (2) codes that already shared a municipality still do;
/// and (3) any pair newly united owes it to this row: each side already
/// shared a municipality with one of the row's literal codes.  The final
/// code partition is therefore the equivalence closure of the base
/// partition under the row links, which does not depend on the order in
/// which the rows arrive.
pub proof fn lemma_row_merge_exact(
    pre: Catalog,
    post: Catalog,
    cells: Seq<Seq<char>>,
    pname: Seq<char>,
    pcounty: usize,
    prow: u32,
)
    requires
        pre.wf(),
        precinct_row_ok(pre, cells),
        if row_codes(cells).len() == 1 {
            attach_applied(
                pre,
                post,
                pre.handle_of(row_codes(cells)[0]) as int,
                pname,
                pcounty,
                prow,
            )
        } else {
            merge_applied(pre, post, row_codes(cells), pname, pcounty, prow)
        },
    ensures
        forall|i: int, j: int|
            0 <= i < row_codes(cells).len() && 0 <= j < row_codes(cells).len()
                ==> same_municipality(post, #[trigger] row_codes(cells)[i], #[trigger] row_codes(
                cells,
            )[j]),
        forall|c1: Seq<char>, c2: Seq<char>|
            #[trigger] same_municipality(pre, c1, c2) ==> same_municipality(post, c1, c2),
        forall|c1: Seq<char>, c2: Seq<char>|
            #[trigger] same_municipality(post, c1, c2) ==> same_municipality(pre, c1, c2) || (
            exists|i: int, j: int|
                0 <= i < row_codes(cells).len() && 0 <= j < row_codes(cells).len()
                    && same_municipality(pre, c1, #[trigger] row_codes(cells)[i])
                    && same_municipality(pre, c2, #[trigger] row_codes(cells)[j])),
{
    let codes = row_codes(cells);
    if codes.len() == 1 {
        let h = pre.handle_of(codes[0]) as int;
        assert(post.fips_map@ == pre.fips_map@);
        assert forall|c1: Seq<char>, c2: Seq<char>|
            #[trigger] same_municipality(pre, c1, c2) implies same_municipality(post, c1, c2) by {}
        assert forall|c1: Seq<char>, c2: Seq<char>|
            #[trigger] same_municipality(post, c1, c2) implies same_municipality(pre, c1, c2) by {}
        assert(same_municipality(post, codes[0], codes[0]));
    } else {
        let hs = handles_of(pre.fips_map@, codes);
        let dh = dedup_seq(hs);
        let uni = union_codes(pre.arena@, dh);
        let nh = pre.arena@.len() as int;
        assert forall|j: int| 0 <= j < hs.len() implies (#[trigger] hs[j]) < pre.arena@.len()
            && pre.live(hs[j] as int) && hs[j] == pre.handle_of(codes[j]) by {
            assert(hs[j] == pre.fips_map@[codes[j]]);
            assert(pre.fips_dom().contains(codes[j]));
        }
        // a code is absorbed exactly when its municipality is referenced
        assert forall|c: Seq<char>| #[trigger]
            pre.fips_dom().contains(c) implies (uni.contains(c) <==> dh.contains(
            pre.handle_of(c),
        )) by {
            let h = pre.handle_of(c) as int;
            if uni.contains(c) {
                lemma_union_codes_membership(pre.arena@, dh, c);
                let j = choose|j: int|
                    0 <= j < dh.len() && pre.arena@[#[trigger] dh[j] as int].code_set().contains(c);
                lemma_dedup_contains(hs, dh[j]);
                assert(dedup_seq(hs).contains(dh[j])) by {
                    assert(dedup_seq(hs)[j] == dh[j]);
                }
                let i = choose|i: int| 0 <= i < hs.len() && hs[i] == dh[j];
                assert(pre.live(dh[j] as int));
                let c0 = choose|c0: Seq<char>|
                    #[trigger] pre.fips_dom().contains(c0) && pre.handle_of(c0) == dh[j] as int;
                assert(pre.record_closed(dh[j] as int));
                let cdvh = pre.arena@[dh[j] as int].codes.deep_view();
                let k = choose|k: int| 0 <= k < cdvh.len() && cdvh[k] == c;
                assert(pre.arena@[dh[j] as int].codes.deep_view()[k] == pre.arena@[
                    dh[j] as int
                ].codes@[k]@);
                assert(pre.handle_of(c) == dh[j]);
                assert(dh.contains(pre.handle_of(c)));
            }
            if dh.contains(pre.handle_of(c)) {
                let j = choose|j: int| 0 <= j < dh.len() && dh[j] == pre.handle_of(c);
                assert(pre.arena@[h].code_set().contains(c));
                lemma_union_codes_membership(pre.arena@, dh, c);
                assert(uni.contains(c)) by {
                    assert(pre.arena@[#[trigger] dh[j] as int].code_set().contains(c));
                }
            }
        }
        assert forall|i: int, j: int|
            0 <= i < codes.len() && 0 <= j < codes.len() implies same_municipality(
            post,
            #[trigger] codes[i],
            #[trigger] codes[j],
        ) by {
            assert(dh.contains(pre.handle_of(codes[i]))) by {
                lemma_dedup_contains(hs, hs[i]);
                assert(hs.contains(hs[i])) by {
                    assert(hs[i] == hs[i]);
                }
            }
            assert(dh.contains(pre.handle_of(codes[j]))) by {
                lemma_dedup_contains(hs, hs[j]);
                assert(hs.contains(hs[j])) by {
                    assert(hs[j] == hs[j]);
                }
            }
            assert(uni.contains(codes[i]) && uni.contains(codes[j]));
            assert(post.fips_map@[codes[i]] == nh as usize);
            assert(post.fips_map@[codes[j]] == nh as usize);
        }
        assert forall|c1: Seq<char>, c2: Seq<char>|
            #[trigger] same_municipality(pre, c1, c2) implies same_municipality(post, c1, c2) by {
            if uni.contains(c1) {
                assert(dh.contains(pre.handle_of(c1)));
                assert(dh.contains(pre.handle_of(c2)));
                assert(uni.contains(c2));
            } else {
                assert(!dh.contains(pre.handle_of(c2)));
                assert(!uni.contains(c2));
                assert(post.fips_map@[c1] == pre.fips_map@[c1]);
                assert(post.fips_map@[c2] == pre.fips_map@[c2]);
            }
        }
        assert forall|c1: Seq<char>, c2: Seq<char>|
            #[trigger] same_municipality(post, c1, c2) implies same_municipality(pre, c1, c2) || (
            exists|i: int, j: int|
                0 <= i < codes.len() && 0 <= j < codes.len() && same_municipality(
                    pre,
                    c1,
                    #[trigger] codes[i],
                ) && same_municipality(pre, c2, #[trigger] codes[j])) by {
            assert(pre.fips_dom().contains(c1) && pre.fips_dom().contains(c2));
            if uni.contains(c1) && uni.contains(c2) {
                assert(dh.contains(pre.handle_of(c1)));
                let j1 = choose|j1: int| 0 <= j1 < dh.len() && dh[j1] == pre.handle_of(c1);
                lemma_dedup_contains(hs, dh[j1]);
                assert(hs.contains(dh[j1]));
                let i1 = choose|i1: int| 0 <= i1 < hs.len() && hs[i1] == dh[j1];
                assert(same_municipality(pre, c1, codes[i1]));
                assert(dh.contains(pre.handle_of(c2)));
                let j2 = choose|j2: int| 0 <= j2 < dh.len() && dh[j2] == pre.handle_of(c2);
                lemma_dedup_contains(hs, dh[j2]);
                assert(hs.contains(dh[j2]));
                let i2 = choose|i2: int| 0 <= i2 < hs.len() && hs[i2] == dh[j2];
                assert(same_municipality(pre, c2, codes[i2]));
            } else if !uni.contains(c1) && !uni.contains(c2) {
                assert(post.fips_map@[c1] == pre.fips_map@[c1]);
                assert(post.fips_map@[c2] == pre.fips_map@[c2]);
                assert(same_municipality(pre, c1, c2));
            } else {
                let cin = if uni.contains(c1) {
                    c1
                } else {
                    c2
                };
                let cout = if uni.contains(c1) {
                    c2
                } else {
                    c1
                };
                assert(post.fips_map@[cin] == nh as usize);
                assert(post.fips_map@[cout] == pre.fips_map@[cout]);
                assert(pre.handle_of(cout) < pre.arena@.len());
                assert(pre.arena.len() == pre.arena@.len());
                assert(post.fips_map@[cin] != post.fips_map@[cout]);
                assert(false);
            }
        }
    }
}

/// A chain only mentions row membership, so any listing of the same
/// rows supports the same links.
proof fn lemma_linked_same_rows(
    cat0: Catalog,
    rows1: Seq<Seq<Seq<char>>>,
    rows2: Seq<Seq<Seq<char>>>,
    a: Seq<char>,
    b: Seq<char>,
)
    requires
        forall|rw: Seq<Seq<char>>| rows1.contains(rw) == #[trigger] rows2.contains(rw),
        linked(cat0, rows1, a, b),
    ensures
        linked(cat0, rows2, a, b),
{
    let p = choose|p: Seq<Seq<char>>| chain(cat0, rows1, p, a, b);
    assert(chain(cat0, rows2, p, a, b)) by {
        assert forall|k: int| 0 <= k < p.len() - 1 implies direct_link(
            cat0,
            rows2,
            #[trigger] p[k],
            p[k + 1],
        ) by {
            assert(direct_link(cat0, rows1, p[k], p[k + 1]));
            if !same_municipality(cat0, p[k], p[k + 1]) {
                let (rw, i2, j2) = choose|rw: Seq<Seq<char>>, i2: int, j2: int|
                    #![trigger row_codes(rw)[i2], row_codes(rw)[j2]]
                    rows1.contains(rw) && 0 <= i2 < row_codes(rw).len() && 0 <= j2 < row_codes(
                        rw,
                    ).len() && row_codes(rw)[i2] == p[k] && row_codes(rw)[j2] == p[k + 1];
                assert(rows2.contains(rw));
            }
        }
    }
}

/// Order independence of the merge: two resolutions of the same precinct
/// rows, in any order, unite exactly the same pairs of FIPS codes.  Each
/// final partition is the equivalence closure of the base partition under
/// the rows' links, and the closure sees only which rows were given, not
/// their order.
pub proof fn lemma_partition_order_independent(
    cat0: Catalog,
    cat_a: Catalog,
    cat_b: Catalog,
    rows_a: Seq<Seq<Seq<char>>>,
    rows_b: Seq<Seq<Seq<char>>>,
)
    requires
        forall|rw: Seq<Seq<char>>| rows_a.contains(rw) == #[trigger] rows_b.contains(rw),
        forall|c1: Seq<char>, c2: Seq<char>|
            #![trigger same_municipality(cat_a, c1, c2)]
            #![trigger linked(cat0, rows_a, c1, c2)]
            same_municipality(cat_a, c1, c2) <==> linked(cat0, rows_a, c1, c2),
        forall|c1: Seq<char>, c2: Seq<char>|
            #![trigger same_municipality(cat_b, c1, c2)]
            #![trigger linked(cat0, rows_b, c1, c2)]
            same_municipality(cat_b, c1, c2) <==> linked(cat0, rows_b, c1, c2),
    ensures
        forall|c1: Seq<char>, c2: Seq<char>|
            #![trigger same_municipality(cat_a, c1, c2), same_municipality(cat_b, c1, c2)]
            same_municipality(cat_a, c1, c2) <==> same_municipality(cat_b, c1, c2),
{
    assert forall|c1: Seq<char>, c2: Seq<char>|
        #![trigger same_municipality(cat_a, c1, c2), same_municipality(cat_b, c1, c2)]
        same_municipality(cat_a, c1, c2) <==> same_municipality(cat_b, c1, c2) by {
        if same_municipality(cat_a, c1, c2) {
            assert(linked(cat0, rows_a, c1, c2));
            lemma_linked_same_rows(cat0, rows_a, rows_b, c1, c2);
        }
        if same_municipality(cat_b, c1, c2) {
            assert(linked(cat0, rows_b, c1, c2));
            lemma_linked_same_rows(cat0, rows_b, rows_a, c1, c2);
        }
    }
}

} // verus!
