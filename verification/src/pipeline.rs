//! The import pipeline: date and name extraction, catalog build, precinct
//! resolution, and the per-sheet result plans, composed into one load
//! plan.  The orchestration layer executes the plan inside a single
//! transaction; any failure here aborts the import before anything is
//! handed to the store.

use vstd::prelude::*;
use crate::catalog::{
    Catalog,
    build_catalog,
    county_row_ok,
    muni_row_ok_sheets,
    disjoint_rows,
    counties_built,
    munis_built,
    catalog_err,
};
use crate::dates::{
    Date,
    extract_date_and_remainder,
    strip_official_suffix,
    election_name,
    first_comma_at,
    month_day_year_of,
};
use crate::entities::Municipality;
use crate::error::ImportError;
use crate::lookup::PairMap;
use crate::partition::{FinalPartition, partition_of};
use crate::resolve::{
    precinct_row_ok_sheets,
    precinct_row_err_sheets,
    precincts_of_rows,
    precinct_of_row,
    same_municipality,
    linked,
    lemma_precinct_row_judgment_sheets,
};
use crate::results::{SheetPlan, build_sheet_plan, cell_txt, col_results, col_ok, col_err,
    max_width, offices_before};
use crate::text::{matches_at, trimmed, signed_dec_rep, ends_with};

verus! {

/// Everything one import inserts, in insertion order: counties, then the
/// final municipalities with their precincts, then per result sheet the
/// offices, candidates and results.
pub struct ImportPlan {
    pub election_name: String,
    pub date: Date,
    pub county_names: Vec<String>,
    pub partition: FinalPartition,
    pub n_precincts: usize,
    pub sheets: Vec<SheetPlan>,
}

/// Source row `rr` sits in one of the listed municipalities.
pub open spec fn in_some_final(ms: Seq<Municipality>, rr: u32) -> bool {
    exists|j: int| 0 <= j < ms.len() && (#[trigger] ms[j]).row_ids().contains(rr)
}

/// `t` is the title with a trailing "Official..." suffix stripped and
/// the ends trimmed.
pub open spec fn stripped_title(s: Seq<char>, t: Seq<char>) -> bool {
    (exists|i: int|
        matches_at(s, "Official"@, i) && (forall|j: int|
            0 <= j < i ==> !matches_at(s, "Official"@, j)) && t == trimmed(
            #[trigger] s.subrange(0, i),
        )) || ((forall|j: int| !matches_at(s, "Official"@, j)) && t == trimmed(s))
}

/// The first cell carries a parsable "<Month> <Day>, <Year>," prefix:
/// a first comma, at least a separator and something after it, and a
/// date text chrono accepts.
pub open spec fn date_text_ok(s: Seq<char>) -> bool {
    exists|p: int|
        #[trigger] first_comma_at(s, p) && p + 7 <= s.len() && month_day_year_of(
            s.subrange(0, p + 6),
        ) is Some
}

/// Every county row and every municipal-codes row is usable.
pub open spec fn reference_sheets_ok(dv1: Seq<Seq<Seq<char>>>, dv2: Seq<Seq<Seq<char>>>) -> bool {
    &&& forall|i: int| 0 <= i < dv1.len() ==> county_row_ok(#[trigger] dv1[i])
    &&& forall|i: int| 0 <= i < dv2.len() ==> muni_row_ok_sheets(dv1, #[trigger] dv2[i])
}

/// Every precinct row is usable against the two reference sheets.
pub open spec fn precinct_rows_ok(
    dv1: Seq<Seq<Seq<char>>>,
    dv2: Seq<Seq<Seq<char>>>,
    dv3: Seq<Seq<Seq<char>>>,
) -> bool {
    forall|i: int| 0 <= i < dv3.len() ==> precinct_row_ok_sheets(dv1, dv2, #[trigger] dv3[i])
}

/// Some precinct row carries exactly the (county, precinct) pair a
/// result cell names.
pub open spec fn result_cell_resolvable(
    dv3: Seq<Seq<Seq<char>>>,
    county: Seq<char>,
    precinct: Seq<char>,
) -> bool {
    exists|r: int|
        #![trigger dv3[r]]
        0 <= r < dv3.len() && dv3[r].len() >= 2 && dv3[r][0] == county && dv3[r][1] == precinct
}

/// Every surviving cell of every non-write-in candidate column of the
/// sheet names some precinct row's (county, precinct) pair.
pub open spec fn sheet_cells_resolvable(dvs: Seq<Seq<Seq<char>>>, dv3: Seq<Seq<Seq<char>>>) -> bool {
    forall|col: int, q: int|
        8 <= col < max_width(dvs) && 4 <= q < dvs.len() && !ends_with(cell_txt(dvs, 1, col), "(WI)*"@)
            && #[trigger] cell_txt(dvs, q, col) != "0"@ ==> result_cell_resolvable(
            dv3,
            cell_txt(dvs, q, 0),
            cell_txt(dvs, q, 1),
        )
}

/// Every surviving cell of the candidate column names some precinct
/// row's (county, precinct) pair.
pub open spec fn col_cells_resolvable(
    dvs: Seq<Seq<Seq<char>>>,
    dv3: Seq<Seq<Seq<char>>>,
    col: int,
) -> bool {
    forall|q: int|
        4 <= q < dvs.len() && cell_txt(dvs, q, col) != "0"@ ==> result_cell_resolvable(
            dv3,
            #[trigger] cell_txt(dvs, q, 0),
            cell_txt(dvs, q, 1),
        )
}

/// The error a failing result sheet produces, read off the sheet and the
/// precinct sheet alone: in the first non-write-in candidate column with
/// an unresolvable cell, the first such cell names the row and the
/// precinct text the error carries.
pub open spec fn sheet_err(
    dvs: Seq<Seq<Seq<char>>>,
    dv3: Seq<Seq<Seq<char>>>,
    name: Seq<char>,
    e: ImportError,
) -> bool {
    exists|col: int|
        #![trigger cell_txt(dvs, 1, col)]
        8 <= col < max_width(dvs) && !ends_with(cell_txt(dvs, 1, col), "(WI)*"@)
            && !col_cells_resolvable(dvs, dv3, col) && (forall|c2: int|
            8 <= c2 < col && !ends_with(cell_txt(dvs, 1, c2), "(WI)*"@) ==> col_cells_resolvable(
                dvs,
                dv3,
                c2,
            )) && (exists|q: int|
            4 <= q < dvs.len() && #[trigger] cell_txt(dvs, q, col) != "0"@
                && !result_cell_resolvable(dv3, cell_txt(dvs, q, 0), cell_txt(dvs, q, 1)) && (
            forall|q2: int|
                4 <= q2 < q && cell_txt(dvs, q2, col) != "0"@ ==> result_cell_resolvable(
                    dv3,
                    #[trigger] cell_txt(dvs, q2, 0),
                    cell_txt(dvs, q2, 1),
                )) && (e matches ImportError::Resolution { sheet: sh, row, value } && sh@ == name
                && row == q && value@ == cell_txt(dvs, q, 1)))
}

/// The whole import's success condition, read off the inputs alone: the
/// date parses, every reference row is usable, every precinct row
/// resolves, and every surviving result cell names a precinct row.
pub open spec fn import_inputs_ok(
    dv1: Seq<Seq<Seq<char>>>,
    dv2: Seq<Seq<Seq<char>>>,
    dv3: Seq<Seq<Seq<char>>>,
    first: Seq<char>,
    sheets: Seq<(String, Vec<Vec<String>>)>,
) -> bool {
    &&& date_text_ok(first)
    &&& reference_sheets_ok(dv1, dv2)
    &&& precinct_rows_ok(dv1, dv2, dv3)
    &&& forall|k: int|
        0 <= k < sheets.len() ==> sheet_cells_resolvable((#[trigger] sheets[k]).1.deep_view(), dv3)
}

/// The resolved state behind a plan: `base` is the catalog the two
/// reference sheets build, `resolved` the catalog after every precinct
/// row.  Codes share a municipality in `resolved` exactly when the
/// precinct rows link them, every row is covered, and every attached
/// precinct names its source row.
pub open spec fn resolution_of(
    dv1: Seq<Seq<Seq<char>>>,
    dv2: Seq<Seq<Seq<char>>>,
    dv3: Seq<Seq<Seq<char>>>,
    base: Catalog,
    resolved: Catalog,
) -> bool {
    &&& base.wf()
    &&& counties_built(dv1, base.counties, base.county_abbrs, base.county_ids)
    &&& munis_built(dv2, base.county_abbrs, base.county_ids, base.arena, base.fips_map)
    &&& resolved.wf()
    &&& resolved.counties@ == base.counties@
    &&& resolved.county_abbrs@ == base.county_abbrs@
    &&& resolved.county_ids@ == base.county_ids@
    &&& resolved.fips_dom() == base.fips_dom()
    &&& forall|rr: u32| resolved.covered(rr) <==> rr < dv3.len()
    &&& precincts_of_rows(resolved, dv3)
    &&& forall|c1: Seq<char>, c2: Seq<char>|
        #![trigger same_municipality(resolved, c1, c2)]
        #![trigger linked(base, dv3, c1, c2)]
        same_municipality(resolved, c1, c2) <==> linked(base, dv3, c1, c2)
}

/// The number of precincts the listed municipalities hold in all.
pub open spec fn total_precincts(ms: Seq<Municipality>) -> int
    decreases ms.len(),
{
    if ms.len() == 0 {
        0
    } else {
        total_precincts(ms.drop_last()) + ms.last().precincts@.len()
    }
}

/// Some gathered key pair equals row `r`'s (county, precinct) cells.
spec fn key_listed(keys: Seq<(String, String)>, dv3: Seq<Seq<Seq<char>>>, r: int) -> bool {
    exists|ki: int|
        0 <= ki < keys.len() && (#[trigger] keys[ki]).0@ == dv3[r][0] && keys[ki].1@ == dv3[r][1]
}

/// The key pair occurs among the first `n` gathered keys.
spec fn key_pair_listed(
    keys: Seq<(String, String)>,
    n: int,
    key: (Seq<char>, Seq<char>),
) -> bool {
    exists|ki: int| 0 <= ki < n && (#[trigger] keys[ki]).0@ == key.0 && keys[ki].1@ == key.1
}

/// The votes texts a candidate column keeps: every data cell that is not
/// "0", in row order.
pub open spec fn col_votes(dv: Seq<Seq<Seq<char>>>, col: int, row: int) -> Seq<Seq<char>>
    decreases dv.len() - row,
{
    if row < 4 || row >= dv.len() {
        Seq::empty()
    } else {
        (if cell_txt(dv, row, col) == "0"@ {
            Seq::empty()
        } else {
            seq![cell_txt(dv, row, col)]
        }) + col_votes(dv, col, row + 1)
    }
}

proof fn lemma_col_votes_of_results(
    dv: Seq<Seq<Seq<char>>>,
    col: int,
    pmap: Map<(Seq<char>, Seq<char>), usize>,
    row: int,
    n: usize,
)
    requires
        forall|k: (Seq<char>, Seq<char>)| #[trigger] pmap.dom().contains(k) ==> pmap[k] < n,
        forall|q: int|
            4 <= q < dv.len() && cell_txt(dv, q, col) != "0"@ ==> pmap.dom().contains(
                (#[trigger] cell_txt(dv, q, 0), cell_txt(dv, q, 1)),
            ),
    ensures
        col_votes(dv, col, row).len() == col_results(dv, col, pmap, row).len(),
        forall|i: int|
            0 <= i < col_votes(dv, col, row).len() ==> #[trigger] col_votes(dv, col, row)[i]
                == col_results(dv, col, pmap, row)[i].0,
        forall|i: int|
            0 <= i < col_results(dv, col, pmap, row).len() ==> (#[trigger] col_results(
                dv,
                col,
                pmap,
                row,
            )[i]).1 < n,
    decreases dv.len() - row,
{
    if row >= 4 && row < dv.len() {
        lemma_col_votes_of_results(dv, col, pmap, row + 1, n);
        if cell_txt(dv, row, col) == "0"@ {
            assert(col_votes(dv, col, row) =~= col_votes(dv, col, row + 1));
            assert(col_results(dv, col, pmap, row) =~= col_results(dv, col, pmap, row + 1));
        } else {
            assert(pmap.dom().contains((cell_txt(dv, row, 0), cell_txt(dv, row, 1))));
        }
    }
}

/// What the pipeline guarantees of every sheet plan, independent of the
/// precinct numbering: the office layout, the write-in and zero-vote
/// suppressions, and that every referenced precinct handle is in range.
pub open spec fn sheet_plan_shape(plan: SheetPlan, dv: Seq<Seq<Seq<char>>>, n: usize) -> bool {
    let w = max_width(dv);
    &&& plan.columns@.len() == (if w >= 8 {
        w - 8
    } else {
        0
    })
    &&& plan.offices@.len() == offices_before(dv, w)
    &&& forall|k: int|
        0 <= k < plan.columns@.len() ==> (#[trigger] plan.columns@[k]).new_office == (trimmed(
            cell_txt(dv, 0, 8 + k),
        ).len() > 0)
    &&& forall|k: int|
        0 <= k < plan.columns@.len() && trimmed(cell_txt(dv, 0, 8 + k)).len() > 0
            ==> (#[trigger] plan.offices@[offices_before(dv, 8 + k + 1) - 1])@ == trimmed(
            cell_txt(dv, 0, 8 + k),
        )
    &&& forall|k: int|
        0 <= k < plan.columns@.len() ==> ((#[trigger] plan.columns@[k]).candidate is None
            <==> ends_with(cell_txt(dv, 1, 8 + k), "(WI)*"@))
    &&& forall|k: int|
        0 <= k < plan.columns@.len() ==> match (#[trigger] plan.columns@[k]).candidate {
            Some(c) => {
                &&& c.name@ == cell_txt(dv, 1, 8 + k)
                &&& c.office == (if offices_before(dv, 8 + k + 1) > 0 {
                    Some((offices_before(dv, 8 + k + 1) - 1) as usize)
                } else {
                    None::<usize>
                })
                &&& c.results@.len() == col_votes(dv, 8 + k, 4).len()
                &&& forall|i: int|
                    0 <= i < c.results@.len() ==> (#[trigger] c.results@[i]).votes@ == col_votes(
                        dv,
                        8 + k,
                        4,
                    )[i] && c.results@[i].votes@ != "0"@ && c.results@[i].precinct < n
            },
            None => true,
        }
}

/// Builds the whole import plan from the reference sheets, the first
/// result cell, and the result sheets.  It succeeds exactly when every
/// input is usable; on success the final municipalities cover every
/// precinct row exactly once, no two share a FIPS code, the partition is
/// the one the resolved catalog determines, and every sheet plan has the
/// promised shape.  On failure the error names the first failing stage
/// and row.
#[verifier::rlimit(100)]
pub fn build_import_plan(
    county_sheet: &Vec<Vec<String>>,
    municipal_sheet: &Vec<Vec<String>>,
    precinct_sheet: &Vec<Vec<String>>,
    first_cell: &String,
    result_sheets: &Vec<(String, Vec<Vec<String>>)>,
) -> (r: Result<ImportPlan, ImportError>)
    requires
        precinct_sheet@.len() < u32::MAX as usize,
    ensures
        r matches Ok(_) <==> import_inputs_ok(
            county_sheet.deep_view(),
            municipal_sheet.deep_view(),
            precinct_sheet.deep_view(),
            first_cell@,
            result_sheets@,
        ),
        r matches Ok(plan) ==> {
            &&& plan.date.wf()
            &&& exists|p: int|
                #[trigger] first_comma_at(first_cell@, p) && p + 7 <= first_cell@.len()
                    && month_day_year_of(first_cell@.subrange(0, p + 6)) == Some(
                    (plan.date.year, plan.date.month, plan.date.day),
                ) && (exists|t: Seq<char>|
                    stripped_title(first_cell@.skip(p + 7), t) && plan.election_name@
                        == signed_dec_rep(plan.date.year as int) + " "@ + t)
            &&& plan.county_names@.len() == county_sheet.deep_view().len()
            &&& forall|i: int|
                0 <= i < plan.county_names@.len() ==> (#[trigger] plan.county_names@[i])@
                    == county_sheet.deep_view()[i][1]
            &&& exists|base: Catalog, resolved: Catalog|
                #[trigger] resolution_of(
                    county_sheet.deep_view(),
                    municipal_sheet.deep_view(),
                    precinct_sheet.deep_view(),
                    base,
                    resolved,
                ) && partition_of(resolved, plan.partition)
            &&& plan.partition.municipalities@.len() == plan.partition.handles@.len()
            &&& forall|rr: u32|
                #[trigger] in_some_final(plan.partition.municipalities@, rr) <==> rr
                    < precinct_sheet@.len()
            &&& forall|j1: int, j2: int|
                #![trigger plan.partition.municipalities@[j1], plan.partition.municipalities@[j2]]
                0 <= j1 < j2 < plan.partition.municipalities@.len() ==> disjoint_rows(
                    plan.partition.municipalities@[j1].row_ids(),
                    plan.partition.municipalities@[j2].row_ids(),
                )
            &&& forall|j1: int, j2: int|
                #![trigger plan.partition.municipalities@[j1], plan.partition.municipalities@[j2]]
                0 <= j1 < j2 < plan.partition.municipalities@.len()
                    ==> plan.partition.municipalities@[j1].code_set().disjoint(
                    plan.partition.municipalities@[j2].code_set(),
                )
            &&& forall|j: int|
                0 <= j < plan.partition.municipalities@.len()
                    ==> (#[trigger] plan.partition.municipalities@[j]).precincts@.len() > 0
            &&& plan.n_precincts == total_precincts(plan.partition.municipalities@)
            &&& plan.sheets@.len() == result_sheets@.len()
            &&& forall|k: int|
                0 <= k < plan.sheets@.len() ==> sheet_plan_shape(
                    #[trigger] plan.sheets@[k],
                    result_sheets@[k].1.deep_view(),
                    plan.n_precincts,
                )
        },
        r matches Err(e) ==> {
            let dv1 = county_sheet.deep_view();
            let dv2 = municipal_sheet.deep_view();
            let dv3 = precinct_sheet.deep_view();
            if !date_text_ok(first_cell@) {
                e == ImportError::DateFormat
            } else if !reference_sheets_ok(dv1, dv2) {
                catalog_err(dv1, dv2, e)
            } else if !precinct_rows_ok(dv1, dv2, dv3) {
                exists|k: int|
                    0 <= k < dv3.len() && !precinct_row_ok_sheets(dv1, dv2, #[trigger] dv3[k]) && (
                    forall|j: int| 0 <= j < k ==> precinct_row_ok_sheets(dv1, dv2, #[trigger] dv3[j]))
                        && precinct_row_err_sheets(dv1, dv2, dv3[k], k, e)
            } else {
                exists|k: int|
                    #![trigger result_sheets@[k]]
                    0 <= k < result_sheets@.len() && !sheet_cells_resolvable(
                        result_sheets@[k].1.deep_view(),
                        dv3,
                    ) && (forall|j: int|
                        0 <= j < k ==> sheet_cells_resolvable(
                            (#[trigger] result_sheets@[j]).1.deep_view(),
                            dv3,
                        )) && sheet_err(result_sheets@[k].1.deep_view(), dv3, result_sheets@[k].0@, e)
            }
        },
{
    let ghost dv1 = county_sheet.deep_view();
    let ghost dv2 = municipal_sheet.deep_view();
    let ghost dv3 = precinct_sheet.deep_view();
    // 1. Election date and name.
    let (date, remainder) = match extract_date_and_remainder(first_cell.as_str()) {
        Ok(pair) => pair,
        Err(e) => {
            proof {
                assert(!date_text_ok(first_cell@));
            }
            return Err(e);
        },
    };
    let title = strip_official_suffix(remainder.as_str());
    let ename = election_name(date.year, title.as_str());
    proof {
        assert(date_text_ok(first_cell@));
    }
    // 2. The catalog.
    let mut cat = match build_catalog(county_sheet, municipal_sheet) {
        Ok(c) => c,
        Err(e) => {
            return Err(e);
        },
    };
    let ghost cat0 = cat;
    proof {
        assert forall|i: int| 0 <= i < dv3.len() implies crate::resolve::precinct_row_ok(
            cat0,
            #[trigger] dv3[i],
        ) == precinct_row_ok_sheets(dv1, dv2, dv3[i]) by {
            lemma_precinct_row_judgment_sheets(cat0, dv1, dv2, dv3[i]);
        }
    }
    // 3. The precinct resolution and the final partition.
    match cat.resolve_rows(precinct_sheet) {
        Ok(()) => {},
        Err(e) => {
            proof {
                let k = choose|k: int|
                    0 <= k < dv3.len() && !crate::resolve::precinct_row_ok(cat0, #[trigger] dv3[k])
                        && (forall|j: int|
                        0 <= j < k ==> crate::resolve::precinct_row_ok(cat0, #[trigger] dv3[j]))
                        && crate::resolve::precinct_row_err(cat0, dv3[k], k, e);
                lemma_precinct_row_judgment_sheets(cat0, dv1, dv2, dv3[k]);
                assert(!precinct_row_ok_sheets(dv1, dv2, dv3[k]));
                assert(forall|j: int|
                    0 <= j < k ==> precinct_row_ok_sheets(dv1, dv2, #[trigger] dv3[j]));
                assert(precinct_row_err_sheets(dv1, dv2, dv3[k], k, e));
                assert(!precinct_rows_ok(dv1, dv2, dv3));
            }
            return Err(e);
        },
    }
    let partition = cat.finalize();
    let ghost catg = cat;
    proof {
        assert(precinct_rows_ok(dv1, dv2, dv3));
        lemma_partition_laws(catg, &partition, precinct_sheet@.len() as u32);
        assert(counties_built(dv1, catg.counties, catg.county_abbrs, catg.county_ids));
        assert(resolution_of(dv1, dv2, dv3, cat0, catg));
        assert forall|j: int, pi: int|
            #![trigger partition.municipalities@[j].precincts@[pi]]
            0 <= j < partition.municipalities@.len() && 0 <= pi
                < partition.municipalities@[j].precincts@.len() implies precinct_of_row(
            catg,
            dv3,
            partition.municipalities@[j].precincts@[pi],
        ) by {
            let h = partition.handles@[j] as int;
            assert(partition.municipalities@[j].same_record(&catg.arena@[h]));
            assert(crate::partition::is_final(catg, h));
            assert(catg.live(h));
            assert(partition.municipalities@[j].precincts@[pi] == catg.arena@[h].precincts@[pi]);
            assert(precinct_of_row(catg, dv3, catg.arena@[h].precincts@[pi]));
        }
    }
    // 4. County names and the (county, precinct) -> handle numbering.
    let mut county_names: Vec<String> = Vec::new();
    let mut i: usize = 0;
    while i < cat.counties.len()
        invariant
            i <= cat.counties@.len(),
            county_names@.len() == i,
            forall|k: int|
                0 <= k < i ==> (#[trigger] county_names@[k])@ == cat.counties@[k].name@,
        decreases cat.counties@.len() - i,
    {
        county_names.push(cat.counties[i].name.clone());
        i = i + 1;
    }
    let mut keys: Vec<(String, String)> = Vec::new();
    let mut j: usize = 0;
    while j < partition.municipalities.len()
        invariant
            j <= partition.municipalities@.len(),
            forall|k: int|
                0 <= k < partition.municipalities@.len() ==> (
                #[trigger] partition.municipalities@[k]).wf(catg.n_counties()),
            county_names@.len() == catg.n_counties(),
            forall|k: int|
                0 <= k < county_names@.len() ==> (#[trigger] county_names@[k])@
                    == catg.counties@[k].name@,
            counties_built(dv1, catg.counties, catg.county_abbrs, catg.county_ids),
            forall|k: int, pi: int|
                #![trigger partition.municipalities@[k].precincts@[pi]]
                0 <= k < partition.municipalities@.len() && 0 <= pi
                    < partition.municipalities@[k].precincts@.len() ==> precinct_of_row(
                    catg,
                    dv3,
                    partition.municipalities@[k].precincts@[pi],
                ),
            forall|ki: int|
                0 <= ki < keys@.len() ==> result_cell_resolvable(
                    dv3,
                    (#[trigger] keys@[ki]).0@,
                    keys@[ki].1@,
                ),
            forall|k: int, pi: int|
                #![trigger partition.municipalities@[k].precincts@[pi]]
                0 <= k < j && 0 <= pi < partition.municipalities@[k].precincts@.len()
                    ==> key_listed(
                    keys@,
                    dv3,
                    partition.municipalities@[k].precincts@[pi].row_id as int,
                ),
            keys@.len() == total_precincts(partition.municipalities@.take(j as int)),
        decreases partition.municipalities@.len() - j,
    {
        let m = &partition.municipalities[j];
        let mut pi: usize = 0;
        while pi < m.precincts.len()
            invariant
                pi <= m.precincts@.len(),
                j < partition.municipalities@.len(),
                *m == partition.municipalities@[j as int],
                m.wf(catg.n_counties()),
                county_names@.len() == catg.n_counties(),
                forall|k: int|
                    0 <= k < county_names@.len() ==> (#[trigger] county_names@[k])@
                        == catg.counties@[k].name@,
                counties_built(dv1, catg.counties, catg.county_abbrs, catg.county_ids),
                forall|k: int, pi2: int|
                    #![trigger partition.municipalities@[k].precincts@[pi2]]
                    0 <= k < partition.municipalities@.len() && 0 <= pi2
                        < partition.municipalities@[k].precincts@.len() ==> precinct_of_row(
                        catg,
                        dv3,
                        partition.municipalities@[k].precincts@[pi2],
                    ),
                forall|ki: int|
                    0 <= ki < keys@.len() ==> result_cell_resolvable(
                        dv3,
                        (#[trigger] keys@[ki]).0@,
                        keys@[ki].1@,
                    ),
                forall|k: int, pi2: int|
                    #![trigger partition.municipalities@[k].precincts@[pi2]]
                    0 <= k < j && 0 <= pi2 < partition.municipalities@[k].precincts@.len()
                        ==> key_listed(
                        keys@,
                        dv3,
                        partition.municipalities@[k].precincts@[pi2].row_id as int,
                    ),
                forall|pi2: int|
                    0 <= pi2 < pi ==> key_listed(
                        keys@,
                        dv3,
                        (#[trigger] m.precincts@[pi2]).row_id as int,
                    ),
                keys@.len() == total_precincts(partition.municipalities@.take(j as int)) + pi,
            decreases m.precincts@.len() - pi,
        {
            let p = &m.precincts[pi];
            let ghost rid = m.precincts@[pi as int].row_id as int;
            proof {
                assert(m.precincts@[pi as int]
                    == partition.municipalities@[j as int].precincts@[pi as int]);
                assert(precinct_of_row(catg, dv3, m.precincts@[pi as int]));
                assert(catg.county_ids@.dom().contains(dv3[rid][0]));
                assert(catg.counties@[catg.county_ids@[dv3[rid][0]] as int].name@ == dv3[rid][0]);
                assert(county_names@[m.precincts@[pi as int].county as int]@ == dv3[rid][0]);
            }
            let ghost keys0 = keys@;
            keys.push((county_names[p.county].clone(), p.name.clone()));
            proof {
                let nk = keys0.len() as int;
                assert(keys@[nk].0@ == dv3[rid][0] && keys@[nk].1@ == dv3[rid][1]);
                assert(result_cell_resolvable(dv3, keys@[nk].0@, keys@[nk].1@));
                assert forall|ki: int| 0 <= ki < keys@.len() implies result_cell_resolvable(
                    dv3,
                    (#[trigger] keys@[ki]).0@,
                    keys@[ki].1@,
                ) by {
                    if ki < nk {
                        assert(keys@[ki] == keys0[ki]);
                    }
                }
                assert forall|k: int, pi2: int|
                    #![trigger partition.municipalities@[k].precincts@[pi2]]
                    0 <= k < j && 0 <= pi2 < partition.municipalities@[k].precincts@.len()
                        implies key_listed(
                    keys@,
                    dv3,
                    partition.municipalities@[k].precincts@[pi2].row_id as int,
                ) by {
                    let r2 = partition.municipalities@[k].precincts@[pi2].row_id as int;
                    let w = choose|w: int|
                        0 <= w < keys0.len() && (#[trigger] keys0[w]).0@ == dv3[r2][0]
                            && keys0[w].1@ == dv3[r2][1];
                    assert(keys@[w] == keys0[w]);
                }
                assert forall|pi2: int| 0 <= pi2 < pi + 1 implies key_listed(
                    keys@,
                    dv3,
                    (#[trigger] m.precincts@[pi2]).row_id as int,
                ) by {
                    if pi2 < pi {
                        let r2 = m.precincts@[pi2].row_id as int;
                        let w = choose|w: int|
                            0 <= w < keys0.len() && (#[trigger] keys0[w]).0@ == dv3[r2][0]
                                && keys0[w].1@ == dv3[r2][1];
                        assert(keys@[w] == keys0[w]);
                    } else {
                        assert(keys@[nk].0@ == dv3[rid][0] && keys@[nk].1@ == dv3[rid][1]);
                    }
                }
            }
            pi = pi + 1;
        }
        proof {
            assert(partition.municipalities@.take(j + 1).drop_last()
                =~= partition.municipalities@.take(j as int));
            assert(partition.municipalities@.take(j + 1).last()
                == partition.municipalities@[j as int]);
        }
        j = j + 1;
    }
    proof {
        assert(partition.municipalities@.take(partition.municipalities@.len() as int)
            =~= partition.municipalities@);
        assert forall|r2: int| 0 <= r2 < dv3.len() implies key_listed(keys@, dv3, r2) by {
            let rr = r2 as u32;
            assert(in_some_final(partition.municipalities@, rr));
            let jj = choose|jj: int|
                0 <= jj < partition.municipalities@.len() && (
                #[trigger] partition.municipalities@[jj]).row_ids().contains(rr);
            let rs = partition.municipalities@[jj].row_ids();
            let pw = choose|pw: int| 0 <= pw < rs.len() && rs[pw] == rr;
            assert(partition.municipalities@[jj].precincts@[pw].row_id == rr);
            assert(key_listed(keys@, dv3, partition.municipalities@[jj].precincts@[pw].row_id as int));
        }
    }
    let n_precincts = keys.len();
    let mut pmap: PairMap<usize> = PairMap::new();
    let mut ki: usize = 0;
    while ki < keys.len()
        invariant
            ki <= keys@.len(),
            n_precincts == keys@.len(),
            forall|k: (Seq<char>, Seq<char>)| #[trigger]
                pmap@.dom().contains(k) ==> pmap@[k] < n_precincts,
            forall|key: (Seq<char>, Seq<char>)| #[trigger]
                pmap@.dom().contains(key) == key_pair_listed(keys@, ki as int, key),
        decreases keys@.len() - ki,
    {
        let pair = &keys[ki];
        let ghost pmap0 = pmap@;
        pmap.set(pair.0.clone(), pair.1.clone(), ki);
        proof {
            assert forall|key: (Seq<char>, Seq<char>)| #[trigger]
                pmap@.dom().contains(key) == key_pair_listed(keys@, ki as int + 1, key) by {
                if key == (keys@[ki as int].0@, keys@[ki as int].1@) {
                    assert(pmap@.dom().contains(key));
                    assert((#[trigger] keys@[ki as int]).0@ == key.0 && keys@[ki as int].1@
                        == key.1);
                    assert(key_pair_listed(keys@, ki as int + 1, key));
                } else {
                    assert(pmap@.dom().contains(key) == pmap0.dom().contains(key));
                    if key_pair_listed(keys@, ki as int + 1, key) {
                        let w = choose|w: int|
                            0 <= w < ki as int + 1 && (#[trigger] keys@[w]).0@ == key.0
                                && keys@[w].1@ == key.1;
                        assert(w < ki as int);
                        assert(key_pair_listed(keys@, ki as int, key));
                    }
                    if key_pair_listed(keys@, ki as int, key) {
                        let w = choose|w: int|
                            0 <= w < ki as int && (#[trigger] keys@[w]).0@ == key.0 && keys@[w].1@
                                == key.1;
                        assert(key_pair_listed(keys@, ki as int + 1, key));
                    }
                }
            }
        }
        ki = ki + 1;
    }
    proof {
        assert forall|key: (Seq<char>, Seq<char>)| #[trigger]
            pmap@.dom().contains(key) == result_cell_resolvable(dv3, key.0, key.1) by {
            if pmap@.dom().contains(key) {
                let w = choose|w: int|
                    0 <= w < keys@.len() && (#[trigger] keys@[w]).0@ == key.0 && keys@[w].1@
                        == key.1;
                assert(result_cell_resolvable(dv3, keys@[w].0@, keys@[w].1@));
            }
            if result_cell_resolvable(dv3, key.0, key.1) {
                let r2 = choose|r2: int|
                    #![trigger dv3[r2]]
                    0 <= r2 < dv3.len() && dv3[r2].len() >= 2 && dv3[r2][0] == key.0 && dv3[r2][1]
                        == key.1;
                assert(key_listed(keys@, dv3, r2));
                let w = choose|w: int|
                    0 <= w < keys@.len() && (#[trigger] keys@[w]).0@ == dv3[r2][0] && keys@[w].1@
                        == dv3[r2][1];
                assert(key_pair_listed(keys@, keys@.len() as int, key));
                assert(pmap@.dom().contains(key));
            }
        }
    }
    // 5. The per-sheet result plans.
    let mut sheets: Vec<SheetPlan> = Vec::new();
    let mut si: usize = 0;
    while si < result_sheets.len()
        invariant
            si <= result_sheets@.len(),
            sheets@.len() == si,
            precinct_sheet@.len() < u32::MAX as usize,
            dv1 == county_sheet.deep_view(),
            dv2 == municipal_sheet.deep_view(),
            dv3 == precinct_sheet.deep_view(),
            date_text_ok(first_cell@),
            reference_sheets_ok(dv1, dv2),
            precinct_rows_ok(dv1, dv2, dv3),
            forall|k: (Seq<char>, Seq<char>)| #[trigger]
                pmap@.dom().contains(k) ==> pmap@[k] < n_precincts,
            forall|key: (Seq<char>, Seq<char>)| #[trigger]
                pmap@.dom().contains(key) == result_cell_resolvable(dv3, key.0, key.1),
            forall|k: int|
                0 <= k < si ==> sheet_cells_resolvable(
                    (#[trigger] result_sheets@[k]).1.deep_view(),
                    dv3,
                ),
            forall|k: int|
                0 <= k < si ==> sheet_plan_shape(
                    #[trigger] sheets@[k],
                    result_sheets@[k].1.deep_view(),
                    n_precincts,
                ),
        decreases result_sheets@.len() - si,
    {
        let entry = &result_sheets[si];
        let ghost dv = entry.1.deep_view();
        proof {
            assert(dv == result_sheets@[si as int].1.deep_view());
        }
        let plan = match build_sheet_plan(&entry.1, &pmap, &entry.0) {
            Ok(p) => p,
            Err(e) => {
                proof {
                    assert forall|c2: int| #[trigger]
                        col_ok(dv, c2, pmap@) == col_cells_resolvable(dv, dv3, c2) by {
                        if col_ok(dv, c2, pmap@) {
                            assert forall|q: int|
                                4 <= q < dv.len() && cell_txt(dv, q, c2) != "0"@
                                    implies result_cell_resolvable(
                                dv3,
                                #[trigger] cell_txt(dv, q, 0),
                                cell_txt(dv, q, 1),
                            ) by {
                                assert(pmap@.dom().contains(
                                    (cell_txt(dv, q, 0), cell_txt(dv, q, 1)),
                                ));
                            }
                        }
                        if col_cells_resolvable(dv, dv3, c2) {
                            assert forall|q: int|
                                4 <= q < dv.len() && cell_txt(dv, q, c2) != "0"@
                                    implies pmap@.dom().contains(
                                (#[trigger] cell_txt(dv, q, 0), cell_txt(dv, q, 1)),
                            ) by {
                                assert(result_cell_resolvable(
                                    dv3,
                                    cell_txt(dv, q, 0),
                                    cell_txt(dv, q, 1),
                                ));
                            }
                        }
                    }
                    let colw = choose|col: int|
                        #![trigger cell_txt(dv, 1, col)]
                        8 <= col < max_width(dv) && !ends_with(cell_txt(dv, 1, col), "(WI)*"@)
                            && !col_ok(dv, col, pmap@) && (forall|c2: int|
                            8 <= c2 < col && !ends_with(cell_txt(dv, 1, c2), "(WI)*"@) ==> col_ok(
                                dv,
                                c2,
                                pmap@,
                            )) && col_err(dv, col, pmap@, entry.0@, e);
                    assert(col_ok(dv, colw, pmap@) == col_cells_resolvable(dv, dv3, colw));
                    assert forall|c2: int|
                        8 <= c2 < colw && !ends_with(cell_txt(dv, 1, c2), "(WI)*"@)
                            implies col_cells_resolvable(dv, dv3, c2) by {
                        assert(col_ok(dv, c2, pmap@));
                        assert(col_ok(dv, c2, pmap@) == col_cells_resolvable(dv, dv3, c2));
                    }
                    let roww = choose|row: int|
                        4 <= row < dv.len() && #[trigger] cell_txt(dv, row, colw) != "0"@
                            && !pmap@.dom().contains(
                            (cell_txt(dv, row, 0), cell_txt(dv, row, 1)),
                        ) && (forall|q: int|
                            4 <= q < row && cell_txt(dv, q, colw) != "0"@ ==> pmap@.dom().contains(
                                (#[trigger] cell_txt(dv, q, 0), cell_txt(dv, q, 1)),
                            )) && (e matches ImportError::Resolution { sheet: sh, row: rr, value }
                            && sh@ == entry.0@ && rr == row && value@ == cell_txt(dv, row, 1));
                    assert(!result_cell_resolvable(dv3, cell_txt(dv, roww, 0), cell_txt(dv, roww, 1)));
                    assert forall|q2: int|
                        4 <= q2 < roww && cell_txt(dv, q2, colw) != "0"@
                            implies result_cell_resolvable(
                        dv3,
                        #[trigger] cell_txt(dv, q2, 0),
                        cell_txt(dv, q2, 1),
                    ) by {
                        assert(pmap@.dom().contains((cell_txt(dv, q2, 0), cell_txt(dv, q2, 1))));
                    }
                    assert(sheet_err(dv, dv3, entry.0@, e)) by {
                        assert(8 <= colw < max_width(dv) && !ends_with(
                            cell_txt(dv, 1, colw),
                            "(WI)*"@,
                        ) && !col_cells_resolvable(dv, dv3, colw));
                        assert(4 <= roww < dv.len() && cell_txt(dv, roww, colw) != "0"@
                            && !result_cell_resolvable(
                            dv3,
                            cell_txt(dv, roww, 0),
                            cell_txt(dv, roww, 1),
                        ));
                    }
                    assert(!sheet_cells_resolvable(dv, dv3)) by {
                        if sheet_cells_resolvable(dv, dv3) {
                            assert(result_cell_resolvable(
                                dv3,
                                cell_txt(dv, roww, 0),
                                cell_txt(dv, roww, 1),
                            ));
                        }
                    }
                    assert(result_sheets@[si as int].0@ == entry.0@);
                }
                return Err(e);
            },
        };
        proof {
            assert(sheet_cells_resolvable(dv, dv3)) by {
                assert forall|col: int, q: int|
                    8 <= col < max_width(dv) && 4 <= q < dv.len() && !ends_with(
                        cell_txt(dv, 1, col),
                        "(WI)*"@,
                    ) && #[trigger] cell_txt(dv, q, col) != "0"@ implies result_cell_resolvable(
                    dv3,
                    cell_txt(dv, q, 0),
                    cell_txt(dv, q, 1),
                ) by {
                    assert(col_ok(dv, col, pmap@));
                    assert(pmap@.dom().contains((cell_txt(dv, q, 0), cell_txt(dv, q, 1))));
                }
            }
            assert forall|k: int| 0 <= k < plan.columns@.len() implies match (
            #[trigger] plan.columns@[k]).candidate {
                Some(c) => {
                    &&& c.results@.len() == col_votes(dv, 8 + k, 4).len()
                    &&& forall|i2: int|
                        0 <= i2 < c.results@.len() ==> (#[trigger] c.results@[i2]).votes@
                            == col_votes(dv, 8 + k, 4)[i2] && c.results@[i2].precinct
                            < n_precincts
                },
                None => true,
            } by {
                match plan.columns@[k].candidate {
                    Some(c) => {
                        assert(col_ok(dv, 8 + k, pmap@));
                        lemma_col_votes_of_results(dv, 8 + k, pmap@, 4, n_precincts);
                    },
                    None => {},
                }
            }
            assert(sheet_plan_shape(plan, dv, n_precincts));
        }
        sheets.push(plan);
        si = si + 1;
    }
    Ok(
        ImportPlan {
            election_name: ename,
            date,
            county_names,
            partition,
            n_precincts,
            sheets,
        },
    )
}

/// The partition-level laws, carried from the resolver's invariant to the
/// finalized municipality list: every resolved source row sits in exactly
/// one final municipality, and no two final municipalities share a FIPS
/// code.
proof fn lemma_partition_laws(cat: Catalog, part: &FinalPartition, nrows: u32)
    requires
        cat.wf(),
        forall|rr: u32| cat.covered(rr) <==> rr < nrows,
        part.handles@ == crate::partition::final_handles(cat, cat.arena@.len() as int),
        part.municipalities@.len() == part.handles@.len(),
        forall|j: int|
            0 <= j < part.handles@.len() ==> (#[trigger] part.municipalities@[j]).same_record(
                &cat.arena@[part.handles@[j] as int],
            ),
        forall|j: int|
            0 <= j < part.handles@.len() ==> crate::partition::is_final(
                cat,
                #[trigger] part.handles@[j] as int,
            ),
        forall|h: int| crate::partition::is_final(cat, h) ==> part.handles@.contains(h as usize),
        forall|j1: int, j2: int|
            0 <= j1 < j2 < part.handles@.len() ==> part.handles@[j1] < part.handles@[j2],
    ensures
        forall|rr: u32| #[trigger] in_some_final(part.municipalities@, rr) <==> rr < nrows,
        forall|j1: int, j2: int|
            #![trigger part.municipalities@[j1], part.municipalities@[j2]]
            0 <= j1 < j2 < part.municipalities@.len() ==> disjoint_rows(
                part.municipalities@[j1].row_ids(),
                part.municipalities@[j2].row_ids(),
            ),
        forall|j1: int, j2: int|
            #![trigger part.municipalities@[j1], part.municipalities@[j2]]
            0 <= j1 < j2 < part.municipalities@.len()
                ==> part.municipalities@[j1].code_set().disjoint(
                part.municipalities@[j2].code_set(),
            ),
        forall|j: int|
            0 <= j < part.municipalities@.len() ==> (
            #[trigger] part.municipalities@[j]).precincts@.len() > 0,
        forall|j: int|
            0 <= j < part.municipalities@.len() ==> (#[trigger] part.municipalities@[j]).wf(
                cat.n_counties(),
            ),
{
    assert forall|j: int| 0 <= j < part.municipalities@.len() implies (
    #[trigger] part.municipalities@[j]).row_ids() == cat.arena@[part.handles@[j] as int].row_ids()
        && part.municipalities@[j].code_set() == cat.arena@[part.handles@[j] as int].code_set()
        && part.municipalities@[j].precincts@.len() > 0 && part.municipalities@[j].wf(
        cat.n_counties(),
    ) by {
        let h = part.handles@[j] as int;
        let m = part.municipalities@[j];
        let a = cat.arena@[h];
        assert(m.same_record(&a));
        assert(m.row_ids() =~= a.row_ids());
        assert(m.codes.deep_view() =~= a.codes.deep_view()) by {
            assert forall|i: int| 0 <= i < m.codes@.len() implies m.codes.deep_view()[i]
                == a.codes.deep_view()[i] by {
                assert(m.codes@[i] == a.codes@[i]);
            }
        }
        assert(m.code_set() =~= a.code_set());
        assert(crate::partition::is_final(cat, h));
        assert(a.wf(cat.n_counties()));
        assert(m.wf(cat.n_counties())) by {
            assert forall|i: int| 0 <= i < m.precincts@.len() implies m.precincts@[i].county
                < cat.n_counties() by {
                assert(m.precincts@[i] == a.precincts@[i]);
            }
        }
    }
    assert forall|rr: u32| #[trigger] in_some_final(part.municipalities@, rr) <==> rr < nrows by {
        if in_some_final(part.municipalities@, rr) {
            let j = choose|j: int|
                0 <= j < part.municipalities@.len()
                    && (#[trigger] part.municipalities@[j]).row_ids().contains(rr);
            let h = part.handles@[j] as int;
            assert(crate::partition::is_final(cat, h));
            assert(cat.live(h) && cat.arena@[h].row_ids().contains(rr));
            assert(cat.covered(rr));
        }
        if rr < nrows {
            assert(cat.covered(rr));
            let h = choose|h: int|
                #[trigger] cat.live(h) && cat.arena@[h].row_ids().contains(rr);
            assert(cat.arena@[h].precincts@.len() > 0) by {
                if cat.arena@[h].precincts@.len() == 0 {
                    assert(cat.arena@[h].row_ids().len() == 0);
                }
            }
            assert(crate::partition::is_final(cat, h));
            assert(part.handles@.contains(h as usize));
            let j = choose|j: int| 0 <= j < part.handles@.len() && part.handles@[j] == h as usize;
            assert(part.municipalities@[j].row_ids().contains(rr));
            assert(in_some_final(part.municipalities@, rr));
        }
    }
    assert forall|j1: int, j2: int|
        #![trigger part.municipalities@[j1], part.municipalities@[j2]]
        0 <= j1 < j2 < part.municipalities@.len() implies disjoint_rows(
        part.municipalities@[j1].row_ids(),
        part.municipalities@[j2].row_ids(),
    ) && part.municipalities@[j1].code_set().disjoint(part.municipalities@[j2].code_set()) by {
        let h1 = part.handles@[j1] as int;
        let h2 = part.handles@[j2] as int;
        assert(part.handles@[j1] < part.handles@[j2]);
        assert(crate::partition::is_final(cat, h1) && crate::partition::is_final(cat, h2));
        assert(cat.live(h1) && cat.live(h2));
        assert(disjoint_rows(cat.arena@[h1].row_ids(), cat.arena@[h2].row_ids()));
        cat.lemma_disjoint_codes(h1, h2);
    }
}

} // verus!
