//! The entity catalog: county tables and the base municipality arena,
//! built from the reference sheets.
//!
//! A sheet is a grid of cell text, `Vec<Vec<String>>`, addressed by row and
//! column; a missing cell is a column beyond the row's width.  The catalog
//! owns the arena of municipality records and the FIPS -> handle map that
//! the precinct resolver later rewrites.

use vstd::prelude::*;
use crate::entities::{County, Municipality, MunicipalType, Precinct};
use crate::error::ImportError;
use crate::lookup::StrMap;
use crate::text::{sorted_distinct, seq_set, str_eq};

verus! {

/// No row index occurs twice.
pub open spec fn distinct_rows(rs: Seq<u32>) -> bool {
    forall|i: int, j: int| 0 <= i < j < rs.len() ==> rs[i] != rs[j]
}

/// No row index occurs in both sequences.
pub open spec fn disjoint_rows(a: Seq<u32>, b: Seq<u32>) -> bool {
    forall|i: int, j: int| 0 <= i < a.len() && 0 <= j < b.len() ==> a[i] != b[j]
}

/// The whole import state between catalog build and the final partition:
/// the county list, the two county lookup maps, the municipality arena and
/// the FIPS -> handle map.
pub struct Catalog {
    pub counties: Vec<County>,
    pub county_abbrs: StrMap<String>,
    pub county_ids: StrMap<usize>,
    pub arena: Vec<Municipality>,
    pub fips_map: StrMap<usize>,
}

impl Catalog {
    pub open spec fn n_counties(&self) -> nat {
        self.counties@.len()
    }

    pub open spec fn fips_dom(&self) -> Set<Seq<char>> {
        self.fips_map@.dom()
    }

    pub open spec fn handle_of(&self, c: Seq<char>) -> usize {
        self.fips_map@[c]
    }

    /// A handle some FIPS code currently resolves to.
    pub open spec fn live(&self, h: int) -> bool {
        exists|c: Seq<char>| #[trigger] self.fips_dom().contains(c) && self.handle_of(c) == h
    }

    /// Every code of the record at `h` resolves back to `h`.
    pub open spec fn record_closed(&self, h: int) -> bool {
        forall|i: int|
            #![trigger self.arena@[h].codes@[i]]
            0 <= i < self.arena@[h].codes@.len() ==> self.fips_dom().contains(
                self.arena@[h].codes@[i]@,
            ) && self.handle_of(self.arena@[h].codes@[i]@) == h
    }

    /// The resolver's invariant.
    pub open spec fn wf(&self) -> bool {
        &&& forall|c: Seq<char>| #[trigger]
            self.fips_dom().contains(c) ==> self.handle_of(c) < self.arena@.len()
        &&& forall|c: Seq<char>| #[trigger]
            self.fips_dom().contains(c) ==> self.arena@[self.handle_of(c) as int].code_set()
                .contains(c)
        &&& forall|c: Seq<char>| #[trigger]
            self.fips_dom().contains(c) ==> self.record_closed(self.handle_of(c) as int)
        &&& forall|h: int|
            0 <= h < self.arena@.len() ==> (#[trigger] self.arena@[h]).wf(self.n_counties())
        &&& forall|n: Seq<char>| #[trigger]
            self.county_ids@.dom().contains(n) ==> self.county_ids@[n] < self.counties@.len()
        &&& forall|h: int|
            self.live(h) ==> distinct_rows((#[trigger] self.arena@[h]).row_ids())
        &&& forall|h1: int, h2: int|
            #![trigger self.live(h1), self.live(h2)]
            self.live(h1) && self.live(h2) && h1 != h2 ==> disjoint_rows(
                self.arena@[h1].row_ids(),
                self.arena@[h2].row_ids(),
            )
    }

    /// Source row `r` is attached to some current municipality.
    pub open spec fn covered(&self, r: u32) -> bool {
        exists|h: int| #[trigger] self.live(h) && self.arena@[h].row_ids().contains(r)
    }

    /// Every attached source row is below `n`.
    pub open spec fn rows_below(&self, n: u32) -> bool {
        forall|h: int|
            #![trigger self.live(h)]
            self.live(h) ==> forall|i: int|
                0 <= i < self.arena@[h].row_ids().len() ==> self.arena@[h].row_ids()[i] < n
    }

    /// No two current municipalities share a FIPS code: the disjointness
    /// of the partition, a consequence of the invariant.
    pub proof fn lemma_disjoint_codes(&self, h1: int, h2: int)
        requires
            self.wf(),
            self.live(h1),
            self.live(h2),
            h1 != h2,
        ensures
            self.arena@[h1].code_set().disjoint(self.arena@[h2].code_set()),
    {
        let a1 = self.arena@[h1];
        let a2 = self.arena@[h2];
        assert forall|c: Seq<char>| a1.code_set().contains(c) implies !a2.code_set().contains(
            c,
        ) by {
            let c1 = choose|c1: Seq<char>|
                #[trigger] self.fips_dom().contains(c1) && self.handle_of(c1) == h1;
            let i = choose|i: int| 0 <= i < a1.codes.deep_view().len() && a1.codes.deep_view()[i]
                == c;
            assert(a1.codes@[i]@ == c);
            assert(self.record_closed(h1));
            assert(self.handle_of(c) == h1);
            if a2.code_set().contains(c) {
                let c2 = choose|c2: Seq<char>|
                    #[trigger] self.fips_dom().contains(c2) && self.handle_of(c2) == h2;
                let j = choose|j: int|
                    0 <= j < a2.codes.deep_view().len() && a2.codes.deep_view()[j] == c;
                assert(a2.codes@[j]@ == c);
                assert(self.record_closed(h2));
                assert(self.handle_of(c) == h2);
            }
        }
    }
}

/// The cell at column `c` of `row`, if the row is that wide.
pub fn cell_at<'a>(row: &'a Vec<String>, c: usize) -> (r: Option<&'a String>)
    ensures
        match r {
            Some(s) => c < row@.len() && s@ == row.deep_view()[c as int],
            None => c >= row@.len(),
        },
{
    if c < row.len() {
        Some(&row[c])
    } else {
        None
    }
}

/// A county sheet row is usable when it holds both cells.
pub open spec fn county_row_ok(cells: Seq<Seq<char>>) -> bool {
    cells.len() >= 2
}

/// What the county pass leaves behind: one county per sheet row in
/// appearance order; the abbreviation and name maps bound to the rows,
/// later rows shadowing earlier ones.
pub open spec fn counties_built(
    dv: Seq<Seq<Seq<char>>>,
    counties: Vec<County>,
    abbrs: StrMap<String>,
    ids: StrMap<usize>,
) -> bool {
    &&& counties@.len() == dv.len()
    &&& forall|i: int| 0 <= i < dv.len() ==> (#[trigger] counties@[i]).name@ == dv[i][1]
    &&& forall|a: Seq<char>|
        #[trigger] abbrs@.dom().contains(a) <==> exists|i: int|
            #![trigger dv[i]]
            0 <= i < dv.len() && dv[i][0] == a
    &&& forall|a: Seq<char>| #[trigger]
        abbrs@.dom().contains(a) ==> exists|i: int|
            #![trigger dv[i]]
            0 <= i < dv.len() && dv[i][0] == a && abbrs@[a]@ == dv[i][1] && ids@.dom().contains(
                dv[i][1],
            )
    &&& forall|n: Seq<char>|
        #[trigger] ids@.dom().contains(n) <==> exists|i: int|
            #![trigger dv[i]]
            0 <= i < dv.len() && dv[i][1] == n
    &&& forall|n: Seq<char>| #[trigger]
        ids@.dom().contains(n) ==> ids@[n] < counties@.len() && counties@[ids@[n] as int].name@
            == n
}

/// Builds the county list and its two lookup maps from the "counties"
/// sheet: column 0 the abbreviation, column 1 the name.  Counties keep
/// their appearance order; a repeated abbreviation or name rebinds to the
/// later row.
pub fn build_counties(sheet: &Vec<Vec<String>>) -> (r: Result<
    (Vec<County>, StrMap<String>, StrMap<usize>),
    ImportError,
>)
    ensures
        r matches Ok(_) <==> forall|i: int|
            0 <= i < sheet.deep_view().len() ==> county_row_ok(#[trigger] sheet.deep_view()[i]),
        r matches Ok(out) ==> counties_built(sheet.deep_view(), out.0, out.1, out.2),
        r matches Err(e) ==> exists|k: int|
            0 <= k < sheet.deep_view().len() && !county_row_ok(#[trigger] sheet.deep_view()[k])
                && (e matches ImportError::Resolution { sheet: sh, row, value } && sh@
                == "counties"@ && row == k && value@ == Seq::<char>::empty()),
{
    let ghost dv = sheet.deep_view();
    let mut counties: Vec<County> = Vec::new();
    let mut abbrs: StrMap<String> = StrMap::new();
    let mut ids: StrMap<usize> = StrMap::new();
    let mut i: usize = 0;
    while i < sheet.len()
        invariant
            i <= dv.len(),
            dv == sheet.deep_view(),
            dv.len() == sheet@.len(),
            forall|k: int| 0 <= k < i ==> county_row_ok(#[trigger] dv[k]),
            counties_built(dv.take(i as int), counties, abbrs, ids),
        decreases dv.len() - i,
    {
        let ghost abbrs0 = abbrs@;
        let ghost ids0 = ids@;
        let ghost counties0 = counties@;
        let ghost pre = dv.take(i as int);
        let ghost cur = dv.take(i + 1);
        let row = &sheet[i];
        proof {
            assert(row.deep_view() == dv[i as int]);
        }
        let abbr = match cell_at(row, 0) {
            Some(a) => a.clone(),
            None => {
                return Err(ImportError::Resolution {
                    sheet: String::from_str("counties"),
                    row: i,
                    value: String::new(),
                });
            },
        };
        let name = match cell_at(row, 1) {
            Some(n) => n.clone(),
            None => {
                return Err(ImportError::Resolution {
                    sheet: String::from_str("counties"),
                    row: i,
                    value: String::new(),
                });
            },
        };
        assert(county_row_ok(dv[i as int]));
        assert(abbr@ == dv[i as int][0]);
        assert(name@ == dv[i as int][1]);
        let idx = counties.len();
        counties.push(County { name: name.clone() });
        ids.set(name.clone(), idx);
        abbrs.set(abbr, name);
        proof {
            assert(cur.len() == i + 1);
            assert forall|k: int| 0 <= k < cur.len() implies cur[k] == dv[k] by {}
            assert(abbrs@[dv[i as int][0]]@ == dv[i as int][1]);
            assert(ids@.dom().contains(dv[i as int][1]));
            assert(ids@[dv[i as int][1]] == idx);
            assert forall|k: int| 0 <= k < cur.len() implies (#[trigger] counties@[k]).name@
                == cur[k][1] by {
                if k < i {
                    assert(counties@[k] == counties0[k]);
                }
            }
            assert forall|a: Seq<char>| #[trigger] abbrs@.dom().contains(a) implies exists|k: int|
                #![trigger cur[k]]
                0 <= k < cur.len() && cur[k][0] == a by {
                if a != dv[i as int][0] {
                    assert(abbrs0.dom().contains(a));
                    let k = choose|k: int| #![trigger pre[k]] 0 <= k < pre.len() && pre[k][0] == a;
                    assert(cur[k][0] == a);
                } else {
                    assert(cur[i as int][0] == a);
                }
            }
            assert forall|a: Seq<char>|
                (exists|k: int| #![trigger cur[k]] 0 <= k < cur.len() && cur[k][0] == a)
                    implies #[trigger] abbrs@.dom().contains(a) by {
                let k = choose|k: int| #![trigger cur[k]] 0 <= k < cur.len() && cur[k][0] == a;
                if k < i {
                    assert(pre[k][0] == a);
                }
            }
            assert forall|a: Seq<char>| #[trigger] abbrs@.dom().contains(a) implies exists|k: int|
                #![trigger cur[k]]
                0 <= k < cur.len() && cur[k][0] == a && abbrs@[a]@ == cur[k][1]
                    && ids@.dom().contains(cur[k][1]) by {
                if a == dv[i as int][0] {
                    assert(0 <= i < cur.len() && cur[i as int][0] == a && abbrs@[a]@
                        == cur[i as int][1] && ids@.dom().contains(cur[i as int][1]));
                } else {
                    assert(abbrs0.dom().contains(a));
                    let k = choose|k: int|
                        #![trigger pre[k]]
                        0 <= k < pre.len() && pre[k][0] == a && abbrs0[a]@ == pre[k][1]
                            && ids0.dom().contains(pre[k][1]);
                    assert(abbrs@[a] == abbrs0[a]);
                    assert(0 <= k < cur.len() && cur[k][0] == a && abbrs@[a]@ == cur[k][1]
                        && ids@.dom().contains(cur[k][1]));
                }
            }
            assert forall|n: Seq<char>| #[trigger] ids@.dom().contains(n) implies exists|k: int|
                #![trigger cur[k]]
                0 <= k < cur.len() && cur[k][1] == n by {
                if n != dv[i as int][1] {
                    assert(ids0.dom().contains(n));
                    let k = choose|k: int| #![trigger pre[k]] 0 <= k < pre.len() && pre[k][1] == n;
                    assert(cur[k][1] == n);
                } else {
                    assert(cur[i as int][1] == n);
                }
            }
            assert forall|n: Seq<char>|
                (exists|k: int| #![trigger cur[k]] 0 <= k < cur.len() && cur[k][1] == n)
                    implies #[trigger] ids@.dom().contains(n) by {
                let k = choose|k: int| #![trigger cur[k]] 0 <= k < cur.len() && cur[k][1] == n;
                if k < i {
                    assert(pre[k][1] == n);
                }
            }
            assert forall|n: Seq<char>| #[trigger] ids@.dom().contains(n) implies ids@[n]
                < counties@.len() && counties@[ids@[n] as int].name@ == n by {
                if n == dv[i as int][1] {
                    assert(counties@[idx as int].name@ == n);
                } else {
                    assert(ids0.dom().contains(n));
                    assert(ids@[n] == ids0[n]);
                    assert(counties@[ids0[n] as int] == counties0[ids0[n] as int]);
                }
            }
            assert(counties_built(cur, counties, abbrs, ids));
        }
        i = i + 1;
    }
    proof {
        assert(dv.take(dv.len() as int) =~= dv);
    }
    Ok((counties, abbrs, ids))
}

/// A municipal-codes row is usable when it holds all four cells, its
/// county abbreviation is cataloged, and its type code is in the closed
/// set.  Columns: 0 name, 1 type code, 2 county abbreviation, 3 FIPS.
pub open spec fn muni_row_ok(
    cells: Seq<Seq<char>>,
    abbrs: StrMap<String>,
    ids: StrMap<usize>,
) -> bool {
    &&& cells.len() >= 4
    &&& abbrs@.dom().contains(cells[2])
    &&& ids@.dom().contains(abbrs@[cells[2]]@)
    &&& (cells[1] == "city/village"@ || cells[1] == "township"@)
}

/// One base municipality record as the municipal-codes row demands it.
pub open spec fn muni_record_of_row(
    m: Municipality,
    cells: Seq<Seq<char>>,
    abbrs: StrMap<String>,
    ids: StrMap<usize>,
) -> bool {
    &&& m.name@ == cells[0]
    &&& m.codes.deep_view() =~= seq![cells[3]]
    &&& m.mtype == (if cells[1] == "city/village"@ {
        MunicipalType::City
    } else {
        MunicipalType::Township
    })
    &&& m.canonical_county == ids@[abbrs@[cells[2]]@]
    &&& m.precincts@.len() == 0
    &&& m.merged_from@.len() == 0
}

/// What the municipal pass leaves behind: one base record per row in
/// appearance order, and the FIPS map binding each code to the last row
/// that carries it.
pub open spec fn munis_built(
    dv: Seq<Seq<Seq<char>>>,
    abbrs: StrMap<String>,
    ids: StrMap<usize>,
    arena: Vec<Municipality>,
    fips: StrMap<usize>,
) -> bool {
    &&& arena@.len() == dv.len()
    &&& forall|i: int|
        0 <= i < dv.len() ==> muni_record_of_row(#[trigger] arena@[i], dv[i], abbrs, ids)
    &&& forall|c: Seq<char>|
        #[trigger] fips@.dom().contains(c) <==> exists|i: int|
            #![trigger dv[i]]
            0 <= i < dv.len() && dv[i][3] == c
    &&& forall|c: Seq<char>| #[trigger]
        fips@.dom().contains(c) ==> exists|i: int|
            #![trigger dv[i]]
            0 <= i < dv.len() && dv[i][3] == c && fips@[c] == i && forall|j: int|
                #![trigger dv[j]]
                i < j < dv.len() ==> dv[j][3] != c
}

/// Builds the base municipality arena and the FIPS -> handle map from the
/// municipal-codes sheet.  A repeated FIPS code rebinds to the later row;
/// the earlier record is left behind unreferenced.
pub fn build_municipalities(
    sheet: &Vec<Vec<String>>,
    abbrs: &StrMap<String>,
    ids: &StrMap<usize>,
) -> (r: Result<(Vec<Municipality>, StrMap<usize>), ImportError>)
    ensures
        r matches Ok(_) <==> forall|i: int|
            0 <= i < sheet.deep_view().len() ==> muni_row_ok(
                #[trigger] sheet.deep_view()[i],
                *abbrs,
                *ids,
            ),
        r matches Ok(out) ==> munis_built(sheet.deep_view(), *abbrs, *ids, out.0, out.1),
        r matches Err(e) ==> exists|k: int|
            0 <= k < sheet.deep_view().len() && !muni_row_ok(
                #[trigger] sheet.deep_view()[k],
                *abbrs,
                *ids,
            ) && (forall|j: int|
                0 <= j < k ==> muni_row_ok(#[trigger] sheet.deep_view()[j], *abbrs, *ids))
                && muni_row_err(sheet.deep_view()[k], *abbrs, *ids, k, e),
{
    let ghost dv = sheet.deep_view();
    let mut arena: Vec<Municipality> = Vec::new();
    let mut fips: StrMap<usize> = StrMap::new();
    let mut i: usize = 0;
    while i < sheet.len()
        invariant
            i <= dv.len(),
            dv == sheet.deep_view(),
            dv.len() == sheet@.len(),
            forall|k: int| 0 <= k < i ==> muni_row_ok(#[trigger] dv[k], *abbrs, *ids),
            munis_built(dv.take(i as int), *abbrs, *ids, arena, fips),
        decreases dv.len() - i,
    {
        let ghost fips0 = fips@;
        let ghost arena0 = arena@;
        let ghost pre = dv.take(i as int);
        let ghost cur = dv.take(i + 1);
        let row = &sheet[i];
        proof {
            assert(row.deep_view() == dv[i as int]);
        }
        let (name, tcode, cabbr, fipsc) = match (
            cell_at(row, 0),
            cell_at(row, 1),
            cell_at(row, 2),
            cell_at(row, 3),
        ) {
            (Some(n), Some(t), Some(a), Some(f)) => (n, t, a, f),
            _ => {
                return Err(ImportError::Resolution {
                    sheet: String::from_str("municipal-codes"),
                    row: i,
                    value: String::new(),
                });
            },
        };
        let cname = match abbrs.get(cabbr.as_str()) {
            Some(n) => n,
            None => {
                return Err(ImportError::Resolution {
                    sheet: String::from_str("municipal-codes"),
                    row: i,
                    value: cabbr.clone(),
                });
            },
        };
        let cidx = match ids.get(cname.as_str()) {
            Some(ci) => *ci,
            None => {
                return Err(ImportError::Resolution {
                    sheet: String::from_str("municipal-codes"),
                    row: i,
                    value: cname.clone(),
                });
            },
        };
        let mt = if str_eq(tcode.as_str(), "city/village") {
            MunicipalType::City
        } else if str_eq(tcode.as_str(), "township") {
            MunicipalType::Township
        } else {
            return Err(ImportError::UnknownType { row: i, value: tcode.clone() });
        };
        assert(muni_row_ok(dv[i as int], *abbrs, *ids));
        let mut codes: Vec<String> = Vec::new();
        codes.push(fipsc.clone());
        let idx = arena.len();
        arena.push(
            Municipality {
                name: name.clone(),
                codes,
                mtype: mt,
                canonical_county: cidx,
                precincts: Vec::new(),
                merged_from: Vec::new(),
            },
        );
        fips.set(fipsc.clone(), idx);
        proof {
            assert(cur.len() == i + 1);
            assert forall|k: int| 0 <= k < cur.len() implies cur[k] == dv[k] by {}
            assert(arena@[i as int].codes.deep_view() =~= seq![dv[i as int][3]]);
            assert forall|k: int| 0 <= k < cur.len() implies muni_record_of_row(
                #[trigger] arena@[k],
                cur[k],
                *abbrs,
                *ids,
            ) by {
                if k < i {
                    assert(arena@[k] == arena0[k]);
                    assert(muni_record_of_row(arena0[k], pre[k], *abbrs, *ids));
                }
            }
            assert forall|c: Seq<char>| #[trigger] fips@.dom().contains(c) implies exists|k: int|
                #![trigger cur[k]]
                0 <= k < cur.len() && cur[k][3] == c by {
                if c != dv[i as int][3] {
                    assert(fips0.dom().contains(c));
                    let k = choose|k: int| #![trigger pre[k]] 0 <= k < pre.len() && pre[k][3] == c;
                    assert(cur[k][3] == c);
                } else {
                    assert(cur[i as int][3] == c);
                }
            }
            assert forall|c: Seq<char>|
                (exists|k: int| #![trigger cur[k]] 0 <= k < cur.len() && cur[k][3] == c)
                    implies #[trigger] fips@.dom().contains(c) by {
                let k = choose|k: int| #![trigger cur[k]] 0 <= k < cur.len() && cur[k][3] == c;
                if k < i {
                    assert(pre[k][3] == c);
                }
            }
            assert forall|c: Seq<char>| #[trigger] fips@.dom().contains(c) implies exists|k: int|
                #![trigger cur[k]]
                0 <= k < cur.len() && cur[k][3] == c && fips@[c] == k && forall|j: int|
                    #![trigger cur[j]]
                    k < j < cur.len() ==> cur[j][3] != c by {
                if c == dv[i as int][3] {
                    assert(0 <= i < cur.len() && cur[i as int][3] == c && fips@[c] == i);
                } else {
                    assert(fips0.dom().contains(c));
                    let k = choose|k: int|
                        #![trigger pre[k]]
                        0 <= k < pre.len() && pre[k][3] == c && fips0[c] == k && forall|j: int|
                            #![trigger pre[j]]
                            k < j < pre.len() ==> pre[j][3] != c;
                    assert(fips@[c] == fips0[c]);
                    assert forall|j: int| #![trigger cur[j]] k < j < cur.len() implies cur[j][3]
                        != c by {
                        if j < i {
                            assert(pre[j][3] != c);
                        }
                    }
                    assert(0 <= k < cur.len() && cur[k][3] == c && fips@[c] == k);
                }
            }
            assert(munis_built(cur, *abbrs, *ids, arena, fips));
        }
        i = i + 1;
    }
    proof {
        assert(dv.take(dv.len() as int) =~= dv);
    }
    Ok((arena, fips))
}

/// The error a failing municipal-codes row produces.
pub open spec fn muni_row_err(
    cells: Seq<Seq<char>>,
    abbrs: StrMap<String>,
    ids: StrMap<usize>,
    k: int,
    e: ImportError,
) -> bool {
    if cells.len() < 4 {
        e matches ImportError::Resolution { sheet: sh, row, value } && sh@ == "municipal-codes"@
            && row == k && value@ == Seq::<char>::empty()
    } else if !abbrs@.dom().contains(cells[2]) {
        e matches ImportError::Resolution { sheet: sh, row, value } && sh@ == "municipal-codes"@
            && row == k && value@ == cells[2]
    } else if !ids@.dom().contains(abbrs@[cells[2]]@) {
        e matches ImportError::Resolution { sheet: sh, row, value } && sh@ == "municipal-codes"@
            && row == k && value@ == abbrs@[cells[2]]@
    } else {
        e matches ImportError::UnknownType { row, value } && row == k && value@ == cells[1]
    }
}

/// A municipal-codes row judged against the two sheets alone.
pub open spec fn muni_row_ok_sheets(dv1: Seq<Seq<Seq<char>>>, cells: Seq<Seq<char>>) -> bool {
    &&& cells.len() >= 4
    &&& exists|k: int| #![trigger dv1[k]] 0 <= k < dv1.len() && dv1[k][0] == cells[2]
    &&& (cells[1] == "city/village"@ || cells[1] == "township"@)
}

/// The error a failing municipal-codes row produces, judged against the
/// two sheets alone.
pub open spec fn muni_row_err_sheets(
    dv1: Seq<Seq<Seq<char>>>,
    cells: Seq<Seq<char>>,
    k: int,
    e: ImportError,
) -> bool {
    if cells.len() < 4 {
        e matches ImportError::Resolution { sheet: sh, row, value } && sh@ == "municipal-codes"@
            && row == k && value@ == Seq::<char>::empty()
    } else if !(exists|k2: int| #![trigger dv1[k2]] 0 <= k2 < dv1.len() && dv1[k2][0] == cells[2]) {
        e matches ImportError::Resolution { sheet: sh, row, value } && sh@ == "municipal-codes"@
            && row == k && value@ == cells[2]
    } else {
        e matches ImportError::UnknownType { row, value } && row == k && value@ == cells[1]
    }
}

/// The error a failing catalog build produces, judged against the two
/// reference sheets alone: the first unusable county row, or — with every
/// county row usable — the first unusable municipal-codes row.
pub open spec fn catalog_err(
    dv1: Seq<Seq<Seq<char>>>,
    dv2: Seq<Seq<Seq<char>>>,
    e: ImportError,
) -> bool {
    ||| (exists|k: int|
        0 <= k < dv1.len() && !county_row_ok(#[trigger] dv1[k]) && (
        e matches ImportError::Resolution { sheet: sh, row, value } && sh@ == "counties"@ && row == k
            && value@ == Seq::<char>::empty()))
    ||| ((forall|i: int| 0 <= i < dv1.len() ==> county_row_ok(#[trigger] dv1[i])) && (exists|k: int|
        0 <= k < dv2.len() && !muni_row_ok_sheets(dv1, #[trigger] dv2[k]) && muni_row_err_sheets(
            dv1,
            dv2[k],
            k,
            e,
        )))
}

/// Builds the whole catalog from the "counties" sheet and the
/// municipal-codes sheet: the county list and its lookup maps, the base
/// municipality arena, and the FIPS -> handle map, well-formed and with no
/// precinct attached yet.
pub fn build_catalog(county_sheet: &Vec<Vec<String>>, municipal_sheet: &Vec<Vec<String>>) -> (r:
    Result<Catalog, ImportError>)
    ensures
        r matches Ok(_) <==> ((forall|i: int|
            0 <= i < county_sheet.deep_view().len() ==> county_row_ok(
                #[trigger] county_sheet.deep_view()[i],
            )) && (forall|i: int|
            0 <= i < municipal_sheet.deep_view().len() ==> muni_row_ok_sheets(
                county_sheet.deep_view(),
                #[trigger] municipal_sheet.deep_view()[i],
            ))),
        r matches Ok(cat) ==> {
            &&& cat.wf()
            &&& counties_built(
                county_sheet.deep_view(),
                cat.counties,
                cat.county_abbrs,
                cat.county_ids,
            )
            &&& munis_built(
                municipal_sheet.deep_view(),
                cat.county_abbrs,
                cat.county_ids,
                cat.arena,
                cat.fips_map,
            )
            &&& forall|rr: u32| !cat.covered(rr)
            &&& cat.rows_below(0)
        },
        r matches Err(e) ==> catalog_err(county_sheet.deep_view(), municipal_sheet.deep_view(), e),
{
    let ghost dv1 = county_sheet.deep_view();
    let ghost dv2 = municipal_sheet.deep_view();
    let (counties, abbrs, ids) = match build_counties(county_sheet) {
        Ok(t) => t,
        Err(e) => {
            return Err(e);
        },
    };
    proof {
        assert forall|cells: Seq<Seq<char>>| #[trigger]
            muni_row_ok(cells, abbrs, ids) == muni_row_ok_sheets(dv1, cells) by {
            if cells.len() >= 4 {
                if abbrs@.dom().contains(cells[2]) {
                    assert(ids@.dom().contains(abbrs@[cells[2]]@)) by {
                        let k = choose|k: int|
                            #![trigger dv1[k]]
                            0 <= k < dv1.len() && dv1[k][0] == cells[2] && abbrs@[cells[2]]@
                                == dv1[k][1] && ids@.dom().contains(dv1[k][1]);
                    }
                }
            }
        }
    }
    let (arena, fips) = match build_municipalities(municipal_sheet, &abbrs, &ids) {
        Ok(t) => t,
        Err(e) => {
            proof {
                let k = choose|k: int|
                    0 <= k < dv2.len() && !muni_row_ok(#[trigger] dv2[k], abbrs, ids) && (
                    forall|j: int| 0 <= j < k ==> muni_row_ok(#[trigger] dv2[j], abbrs, ids))
                        && muni_row_err(dv2[k], abbrs, ids, k, e);
                assert(muni_row_ok(dv2[k], abbrs, ids) == muni_row_ok_sheets(dv1, dv2[k]));
                assert(muni_row_err_sheets(dv1, dv2[k], k, e)) by {
                    if dv2[k].len() >= 4 {
                        if abbrs@.dom().contains(dv2[k][2]) {
                            assert(ids@.dom().contains(abbrs@[dv2[k][2]]@));
                        }
                    }
                }
            }
            return Err(e);
        },
    };
    let cat = Catalog { counties, county_abbrs: abbrs, county_ids: ids, arena, fips_map: fips };
    proof {
        assert forall|i: int| 0 <= i < dv2.len() implies muni_row_ok_sheets(
            dv1,
            #[trigger] dv2[i],
        ) by {
            assert(muni_row_ok(dv2[i], cat.county_abbrs, cat.county_ids));
        }
        lemma_catalog_wf(&cat, dv1, dv2);
    }
    Ok(cat)
}

proof fn lemma_catalog_wf(cat: &Catalog, dv1: Seq<Seq<Seq<char>>>, dv2: Seq<Seq<Seq<char>>>)
    requires
        counties_built(dv1, cat.counties, cat.county_abbrs, cat.county_ids),
        munis_built(dv2, cat.county_abbrs, cat.county_ids, cat.arena, cat.fips_map),
        forall|i: int|
            0 <= i < dv2.len() ==> muni_row_ok(#[trigger] dv2[i], cat.county_abbrs, cat.county_ids),
    ensures
        cat.wf(),
        forall|rr: u32| !cat.covered(rr),
        cat.rows_below(0),
{
    assert forall|c: Seq<char>| #[trigger] cat.fips_dom().contains(c) implies cat.handle_of(c)
        < cat.arena@.len() && cat.arena@[cat.handle_of(c) as int].code_set().contains(c)
        && cat.record_closed(cat.handle_of(c) as int) by {
        let i = choose|i: int|
            #![trigger dv2[i]]
            0 <= i < dv2.len() && dv2[i][3] == c && cat.fips_map@[c] == i && forall|j: int|
                #![trigger dv2[j]]
                i < j < dv2.len() ==> dv2[j][3] != c;
        let m = cat.arena@[i];
        assert(muni_record_of_row(m, dv2[i], cat.county_abbrs, cat.county_ids));
        assert(m.codes.deep_view() =~= seq![c]);
        assert(m.codes.deep_view()[0] == c);
        assert(m.code_set().contains(c));
        assert forall|j: int|
            #![trigger cat.arena@[i].codes@[j]]
            0 <= j < cat.arena@[i].codes@.len() implies cat.fips_dom().contains(
            cat.arena@[i].codes@[j]@,
        ) && cat.handle_of(cat.arena@[i].codes@[j]@) == i by {
            assert(cat.arena@[i].codes@[j]@ == cat.arena@[i].codes.deep_view()[j]);
            assert(cat.arena@[i].codes@[j]@ == c);
        }
    }
    assert forall|h: int| 0 <= h < cat.arena@.len() implies (#[trigger] cat.arena@[h]).wf(
        cat.n_counties(),
    ) by {
        assert(muni_record_of_row(cat.arena@[h], dv2[h], cat.county_abbrs, cat.county_ids));
        assert(muni_row_ok(dv2[h], cat.county_abbrs, cat.county_ids));
        assert(cat.arena@[h].codes.deep_view().len() == 1);
    }
    assert forall|h: int| cat.live(h) implies 0 <= h < cat.arena@.len()
        && cat.arena@[h].row_ids().len() == 0 by {
        let c = choose|c: Seq<char>|
            #[trigger] cat.fips_dom().contains(c) && cat.handle_of(c) == h;
        assert(muni_record_of_row(cat.arena@[h], dv2[h], cat.county_abbrs, cat.county_ids));
    }
    assert forall|rr: u32| !cat.covered(rr) by {
        if cat.covered(rr) {
            let h = choose|h: int|
                #[trigger] cat.live(h) && cat.arena@[h].row_ids().contains(rr);
        }
    }
}

} // verus!
