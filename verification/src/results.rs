//! The result-sheet pass: one office category per sheet, offices begun by
//! the sparse header names of row 0 from column 8, candidates from row 1,
//! vote counts from the data rows from row 4.
//!
//! A header name applies to its own column and every following blank
//! column until the next named cell.  A candidate whose name ends with
//! the write-in marker produces no candidate and no results; a "0" cell
//! produces no result.

use vstd::prelude::*;
use crate::error::ImportError;
use crate::lookup::PairMap;
use crate::text::{ends_with, trimmed, str_eq, str_ends_with, trim_spaces};

verus! {

/// One vote count bound for a precinct.
#[derive(Debug)]
pub struct ResultPlan {
    pub votes: String,
    pub precinct: usize,
}

/// One candidate column: its name, the office it belongs to (an index
/// into the sheet's office list; nothing when no office has begun yet),
/// and its surviving results.
#[derive(Debug)]
pub struct CandidatePlan {
    pub name: String,
    pub office: Option<usize>,
    pub results: Vec<ResultPlan>,
}

/// One sheet column from column 8 on.
#[derive(Debug)]
pub struct ColumnPlan {
    pub new_office: bool,
    pub candidate: Option<CandidatePlan>,
}

/// Everything one result sheet inserts.
#[derive(Debug)]
pub struct SheetPlan {
    pub offices: Vec<String>,
    pub columns: Vec<ColumnPlan>,
}

/// The text of a cell; empty when the grid is not that large.
pub open spec fn cell_txt(dv: Seq<Seq<Seq<char>>>, r: int, c: int) -> Seq<char> {
    if 0 <= r < dv.len() && 0 <= c < dv[r].len() {
        dv[r][c]
    } else {
        Seq::empty()
    }
}

pub fn cell_or_empty<'a>(rows: &'a Vec<Vec<String>>, r: usize, c: usize) -> (s: &'a str)
    ensures
        s@ == cell_txt(rows.deep_view(), r as int, c as int),
{
    proof {
        reveal_strlit("");
    }
    if r < rows.len() {
        let row = &rows[r];
        if c < row.len() {
            proof {
                assert(row.deep_view()[c as int] == rows.deep_view()[r as int][c as int]);
            }
            return row[c].as_str();
        }
        proof {
            assert(""@ =~= Seq::<char>::empty());
        }
        return "";
    }
    proof {
        assert(""@ =~= Seq::<char>::empty());
    }
    ""
}

/// The widest row of the grid.
pub open spec fn max_width(dv: Seq<Seq<Seq<char>>>) -> int
    decreases dv.len(),
{
    if dv.len() == 0 {
        0
    } else {
        let rest = max_width(dv.drop_last());
        if dv.last().len() > rest {
            dv.last().len() as int
        } else {
            rest
        }
    }
}

pub fn grid_width(rows: &Vec<Vec<String>>) -> (w: usize)
    ensures
        w == max_width(rows.deep_view()),
{
    let ghost dv = rows.deep_view();
    let mut w: usize = 0;
    let mut i: usize = 0;
    while i < rows.len()
        invariant
            i <= rows@.len(),
            dv == rows.deep_view(),
            dv.len() == rows@.len(),
            w == max_width(dv.take(i as int)),
        decreases rows@.len() - i,
    {
        let l = rows[i].len();
        proof {
            assert(dv.take(i + 1).drop_last() =~= dv.take(i as int));
            assert(dv.take(i + 1).last() == dv[i as int]);
            assert(dv[i as int].len() == rows@[i as int]@.len());
        }
        if l > w {
            w = l;
        }
        i = i + 1;
    }
    proof {
        assert(dv.take(dv.len() as int) =~= dv);
    }
    w
}

/// How many office-naming columns lie in columns 8 .. `col`.
pub open spec fn offices_before(dv: Seq<Seq<Seq<char>>>, col: int) -> int
    decreases col,
{
    if col <= 8 {
        0
    } else {
        offices_before(dv, col - 1) + (if trimmed(cell_txt(dv, 0, col - 1)).len() > 0 {
            1int
        } else {
            0int
        })
    }
}

/// Office counts are nonnegative and grow with the column bound.
proof fn lemma_offices_before_mono(dv: Seq<Seq<Seq<char>>>, m: int, n: int)
    requires
        m <= n,
    ensures
        0 <= offices_before(dv, m) <= offices_before(dv, n),
    decreases n - m,
{
    if m < n {
        lemma_offices_before_mono(dv, m, n - 1);
    } else {
        lemma_offices_before_nonneg(dv, m);
    }
}

proof fn lemma_offices_before_nonneg(dv: Seq<Seq<Seq<char>>>, m: int)
    ensures
        0 <= offices_before(dv, m),
    decreases m,
{
    if m > 8 {
        lemma_offices_before_nonneg(dv, m - 1);
    }
}

/// The surviving results of one candidate column: the vote text and the
/// precinct handle of every data row whose cell is not "0".
pub open spec fn col_results(
    dv: Seq<Seq<Seq<char>>>,
    col: int,
    pmap: Map<(Seq<char>, Seq<char>), usize>,
    row: int,
) -> Seq<(Seq<char>, usize)>
    decreases dv.len() - row,
{
    if row < 4 || row >= dv.len() {
        Seq::empty()
    } else {
        (if cell_txt(dv, row, col) == "0"@ {
            Seq::empty()
        } else {
            seq![
                (
                    cell_txt(dv, row, col),
                    pmap[(cell_txt(dv, row, 0), cell_txt(dv, row, 1))],
                ),
            ]
        }) + col_results(dv, col, pmap, row + 1)
    }
}

/// Every surviving cell of the column has a cataloged precinct.
pub open spec fn col_ok(
    dv: Seq<Seq<Seq<char>>>,
    col: int,
    pmap: Map<(Seq<char>, Seq<char>), usize>,
) -> bool {
    forall|row: int|
        4 <= row < dv.len() && cell_txt(dv, row, col) != "0"@ ==> pmap.dom().contains(
            (#[trigger] cell_txt(dv, row, 0), cell_txt(dv, row, 1)),
        )
}

/// The error the first failing cell of a candidate column produces: the
/// first data row whose surviving cell names no cataloged precinct.
pub open spec fn col_err(
    dv: Seq<Seq<Seq<char>>>,
    col: int,
    pmap: Map<(Seq<char>, Seq<char>), usize>,
    sheet_name: Seq<char>,
    e: ImportError,
) -> bool {
    exists|row: int|
        4 <= row < dv.len() && #[trigger] cell_txt(dv, row, col) != "0"@ && !pmap.dom().contains(
            (cell_txt(dv, row, 0), cell_txt(dv, row, 1)),
        ) && (forall|q: int|
            4 <= q < row && cell_txt(dv, q, col) != "0"@ ==> pmap.dom().contains(
                (#[trigger] cell_txt(dv, q, 0), cell_txt(dv, q, 1)),
            )) && (e matches ImportError::Resolution { sheet: sh, row: rr, value } && sh@
            == sheet_name && rr == row && value@ == cell_txt(dv, row, 1))
}

/// No surviving result comes from a "0" cell.
pub proof fn lemma_col_results_no_zero(
    dv: Seq<Seq<Seq<char>>>,
    col: int,
    pmap: Map<(Seq<char>, Seq<char>), usize>,
    row: int,
)
    ensures
        forall|i: int|
            0 <= i < col_results(dv, col, pmap, row).len() ==> (#[trigger] col_results(
                dv,
                col,
                pmap,
                row,
            )[i]).0 != "0"@,
    decreases dv.len() - row,
{
    if row >= 4 && row < dv.len() {
        lemma_col_results_no_zero(dv, col, pmap, row + 1);
        assert forall|i: int| 0 <= i < col_results(dv, col, pmap, row).len() implies (
        #[trigger] col_results(dv, col, pmap, row)[i]).0 != "0"@ by {
            if cell_txt(dv, row, col) == "0"@ {
                assert(col_results(dv, col, pmap, row)[i] == col_results(dv, col, pmap, row + 1)[i]);
            } else {
                if i > 0 {
                    assert(col_results(dv, col, pmap, row)[i] == col_results(
                        dv,
                        col,
                        pmap,
                        row + 1,
                    )[i - 1]);
                }
            }
        }
    }
}

/// Collects one candidate column's surviving results, in row order.
fn column_results(
    sheet: &Vec<Vec<String>>,
    col: usize,
    pmap: &PairMap<usize>,
    sheet_name: &String,
) -> (r: Result<Vec<ResultPlan>, ImportError>)
    ensures
        r matches Ok(_) <==> col_ok(sheet.deep_view(), col as int, pmap@),
        r matches Ok(rs) ==> {
            let want = col_results(sheet.deep_view(), col as int, pmap@, 4);
            &&& rs@.len() == want.len()
            &&& forall|i: int|
                0 <= i < want.len() ==> (#[trigger] rs@[i]).votes@ == want[i].0 && rs@[i].precinct
                    == want[i].1
        },
        r matches Err(e) ==> col_err(sheet.deep_view(), col as int, pmap@, sheet_name@, e),
{
    let ghost dv = sheet.deep_view();
    let ghost total = col_results(dv, col as int, pmap@, 4);
    let mut rs: Vec<ResultPlan> = Vec::new();
    let mut row: usize = 4;
    if sheet.len() < 4 {
        proof {
            assert(col_results(dv, col as int, pmap@, 4) =~= Seq::<(Seq<char>, usize)>::empty());
        }
        return Ok(rs);
    }
    loop
        invariant
            4 <= row <= dv.len(),
            dv == sheet.deep_view(),
            dv.len() == sheet@.len(),
            total == col_results(dv, col as int, pmap@, 4),
            forall|q: int|
                4 <= q < row && cell_txt(dv, q, col as int) != "0"@ ==> pmap@.dom().contains(
                    (#[trigger] cell_txt(dv, q, 0), cell_txt(dv, q, 1)),
                ),
            ({
                let partial = col_results(dv, col as int, pmap@, row as int);
                &&& total.len() == rs@.len() + partial.len()
                &&& forall|i: int|
                    0 <= i < rs@.len() ==> (#[trigger] total[i]).0 == rs@[i].votes@ && total[i].1
                        == rs@[i].precinct
                &&& forall|i: int|
                    rs@.len() <= i < total.len() ==> total[i] == partial[i - rs@.len()]
            }),
        ensures
            row == dv.len(),
            forall|q: int|
                4 <= q < dv.len() && cell_txt(dv, q, col as int) != "0"@ ==> pmap@.dom().contains(
                    (#[trigger] cell_txt(dv, q, 0), cell_txt(dv, q, 1)),
                ),
            total.len() == rs@.len(),
            forall|i: int|
                0 <= i < rs@.len() ==> (#[trigger] total[i]).0 == rs@[i].votes@ && total[i].1
                    == rs@[i].precinct,
        decreases dv.len() - row,
    {
        if row >= sheet.len() {
            proof {
                assert(col_results(dv, col as int, pmap@, row as int) =~= Seq::<
                    (Seq<char>, usize),
                >::empty());
            }
            break;
        }
        let votes = cell_or_empty(sheet, row, col);
        proof {
            reveal_strlit("0");
        }
        if !str_eq(votes, "0") {
            let county = cell_or_empty(sheet, row, 0);
            let precinct = cell_or_empty(sheet, row, 1);
            match pmap.get(county, precinct) {
                Some(pidx) => {
                    let ghost partial = col_results(dv, col as int, pmap@, row as int);
                    rs.push(
                        ResultPlan { votes: String::from_str(votes), precinct: *pidx },
                    );
                    proof {
                        assert(partial[0] == (
                            cell_txt(dv, row as int, col as int),
                            pmap@[(cell_txt(dv, row as int, 0), cell_txt(dv, row as int, 1))],
                        ));
                        assert(partial.drop_first() =~= col_results(
                            dv,
                            col as int,
                            pmap@,
                            row as int + 1,
                        ));
                    }
                },
                None => {
                    return Err(ImportError::Resolution {
                        sheet: sheet_name.clone(),
                        row,
                        value: String::from_str(precinct),
                    });
                },
            }
        } else {
            proof {
                assert(col_results(dv, col as int, pmap@, row as int) =~= col_results(
                    dv,
                    col as int,
                    pmap@,
                    row as int + 1,
                ));
            }
        }
        row = row + 1;
    }
    Ok(rs)
}

/// Builds the whole plan for one result sheet: its offices in column
/// order, and per candidate column the candidate with its office and its
/// surviving results.  A write-in column contributes nothing.
pub fn build_sheet_plan(
    sheet: &Vec<Vec<String>>,
    pmap: &PairMap<usize>,
    sheet_name: &String,
) -> (r: Result<SheetPlan, ImportError>)
    ensures
        r matches Ok(_) <==> forall|col: int|
            8 <= col < max_width(sheet.deep_view()) && !ends_with(
                cell_txt(sheet.deep_view(), 1, col),
                "(WI)*"@,
            ) ==> col_ok(sheet.deep_view(), col, pmap@),
        r matches Ok(plan) ==> {
            let dv = sheet.deep_view();
            let w = max_width(dv);
            &&& plan.columns@.len() == (if w >= 8 {
                w - 8
            } else {
                0
            })
            &&& plan.offices@.len() == offices_before(dv, w)
            &&& forall|k: int|
                0 <= k < plan.columns@.len() ==> (#[trigger] plan.columns@[k]).new_office == (
                trimmed(cell_txt(dv, 0, 8 + k)).len() > 0)
            &&& forall|k: int|
                0 <= k < plan.columns@.len() && trimmed(cell_txt(dv, 0, 8 + k)).len() > 0
                    ==> (#[trigger] plan.offices@[offices_before(dv, 8 + k + 1) - 1])@ == trimmed(
                    cell_txt(dv, 0, 8 + k),
                )
            &&& forall|k: int|
                0 <= k < plan.columns@.len() ==> ((#[trigger] plan.columns@[k]).candidate is None
                    <==> ends_with(cell_txt(dv, 1, 8 + k), "(WI)*"@))
            &&& forall|k: int|
                0 <= k < plan.columns@.len() ==> match (#[trigger] plan.columns@[k]).candidate {
                    Some(c) => {
                        &&& col_ok(dv, 8 + k, pmap@)
                        &&& c.name@ == cell_txt(dv, 1, 8 + k)
                        &&& c.office == (if offices_before(dv, 8 + k + 1) > 0 {
                            Some((offices_before(dv, 8 + k + 1) - 1) as usize)
                        } else {
                            None::<usize>
                        })
                        &&& c.results@.len() == col_results(dv, 8 + k, pmap@, 4).len()
                        &&& forall|i: int|
                            0 <= i < c.results@.len() ==> (#[trigger] c.results@[i]).votes@
                                == col_results(dv, 8 + k, pmap@, 4)[i].0 && c.results@[i].precinct
                                == col_results(dv, 8 + k, pmap@, 4)[i].1
                        &&& forall|i: int|
                            0 <= i < c.results@.len() ==> (#[trigger] c.results@[i]).votes@ != "0"@
                    },
                    None => true,
                }
        },
        r matches Err(e) ==> exists|col: int|
            #![trigger cell_txt(sheet.deep_view(), 1, col)]
            8 <= col < max_width(sheet.deep_view()) && !ends_with(
                cell_txt(sheet.deep_view(), 1, col),
                "(WI)*"@,
            ) && !col_ok(sheet.deep_view(), col, pmap@) && (forall|c2: int|
                8 <= c2 < col && !ends_with(cell_txt(sheet.deep_view(), 1, c2), "(WI)*"@)
                    ==> col_ok(sheet.deep_view(), c2, pmap@)) && col_err(
                sheet.deep_view(),
                col,
                pmap@,
                sheet_name@,
                e,
            ),
{
    let ghost dv = sheet.deep_view();
    let w = grid_width(sheet);
    let mut offices: Vec<String> = Vec::new();
    let mut columns: Vec<ColumnPlan> = Vec::new();
    if w < 8 {
        return Ok(SheetPlan { offices, columns });
    }
    let mut col: usize = 8;
    while col < w
        invariant
            8 <= col <= w,
            dv == sheet.deep_view(),
            w == max_width(dv),
            columns@.len() == col - 8,
            offices@.len() == offices_before(dv, col as int),
            forall|k: int|
                0 <= k < columns@.len() ==> (#[trigger] columns@[k]).new_office == (trimmed(
                    cell_txt(dv, 0, 8 + k),
                ).len() > 0),
            forall|k: int|
                0 <= k < columns@.len() && trimmed(cell_txt(dv, 0, 8 + k)).len() > 0
                    ==> (#[trigger] offices@[offices_before(dv, 8 + k + 1) - 1])@ == trimmed(
                    cell_txt(dv, 0, 8 + k),
                ),
            forall|k: int|
                0 <= k < columns@.len() ==> ((#[trigger] columns@[k]).candidate is None
                    <==> ends_with(cell_txt(dv, 1, 8 + k), "(WI)*"@)),
            forall|k: int|
                0 <= k < columns@.len() ==> match (#[trigger] columns@[k]).candidate {
                    Some(c) => {
                        &&& col_ok(dv, 8 + k, pmap@)
                        &&& c.name@ == cell_txt(dv, 1, 8 + k)
                        &&& c.office == (if offices_before(dv, 8 + k + 1) > 0 {
                            Some((offices_before(dv, 8 + k + 1) - 1) as usize)
                        } else {
                            None::<usize>
                        })
                        &&& c.results@.len() == col_results(dv, 8 + k, pmap@, 4).len()
                        &&& forall|i: int|
                            0 <= i < c.results@.len() ==> (#[trigger] c.results@[i]).votes@
                                == col_results(dv, 8 + k, pmap@, 4)[i].0 && c.results@[i].precinct
                                == col_results(dv, 8 + k, pmap@, 4)[i].1
                        &&& forall|i: int|
                            0 <= i < c.results@.len() ==> (#[trigger] c.results@[i]).votes@ != "0"@
                    },
                    None => true,
                },
        decreases w - col,
    {
        let ghost columns0 = columns@;
        let ghost offices0 = offices@;
        let header = cell_or_empty(sheet, 0, col);
        let office_name = trim_spaces(header);
        let new_office = office_name.as_str().unicode_len() > 0;
        if new_office {
            offices.push(office_name);
        }
        proof {
            assert(offices_before(dv, col + 1) == offices_before(dv, col as int) + (if trimmed(
                cell_txt(dv, 0, col as int),
            ).len() > 0 {
                1int
            } else {
                0int
            }));
            assert forall|k: int|
                #![trigger offices_before(dv, 8 + k + 1)]
                0 <= k <= columns@.len() implies 0 <= offices_before(dv, 8 + k + 1) && (k
                < columns@.len() ==> offices_before(dv, 8 + k + 1) <= offices_before(
                dv,
                col as int,
            )) && offices_before(dv, 8 + k + 1) <= offices_before(dv, col + 1) by {
                if k < columns@.len() {
                    lemma_offices_before_mono(dv, 8 + k + 1, col as int);
                }
                lemma_offices_before_mono(dv, 8 + k + 1, col + 1);
            }
        }
        let cand_name = cell_or_empty(sheet, 1, col);
        proof {
            reveal_strlit("(WI)*");
        }
        let candidate: Option<CandidatePlan> = if str_ends_with(cand_name, "(WI)*") {
            None
        } else {
            let results = match column_results(sheet, col, pmap, sheet_name) {
                Ok(rs) => rs,
                Err(e) => {
                    proof {
                        assert(!col_ok(dv, col as int, pmap@));
                        assert(!(forall|c2: int|
                            8 <= c2 < max_width(dv) && !ends_with(
                                cell_txt(dv, 1, c2),
                                "(WI)*"@,
                            ) ==> col_ok(dv, c2, pmap@))) by {
                            if forall|c2: int|
                                8 <= c2 < max_width(dv) && !ends_with(
                                    cell_txt(dv, 1, c2),
                                    "(WI)*"@,
                                ) ==> col_ok(dv, c2, pmap@) {
                                assert(col_ok(dv, col as int, pmap@));
                            }
                        }
                        assert forall|c2: int|
                            8 <= c2 < col as int && !ends_with(cell_txt(dv, 1, c2), "(WI)*"@)
                                implies col_ok(dv, c2, pmap@) by {
                            let k = c2 - 8;
                            assert(0 <= k < columns@.len());
                            assert(!(columns@[k].candidate is None));
                            match columns@[k].candidate {
                                Some(_) => {},
                                None => {},
                            }
                        }
                    }
                    return Err(e);
                },
            };
            let office: Option<usize> = if offices.len() > 0 {
                Some(offices.len() - 1)
            } else {
                None
            };
            proof {
                lemma_col_results_no_zero(dv, col as int, pmap@, 4);
            }
            Some(CandidatePlan { name: String::from_str(cand_name), office, results })
        };
        columns.push(ColumnPlan { new_office, candidate });
        proof {
            let kn = columns0.len() as int;
            assert(8 + kn == col as int);
            assert forall|k: int|
                0 <= k < columns@.len() && trimmed(cell_txt(dv, 0, 8 + k)).len() > 0
                    implies (#[trigger] offices@[offices_before(dv, 8 + k + 1) - 1])@ == trimmed(
                cell_txt(dv, 0, 8 + k),
            ) by {
                lemma_offices_before_nonneg(dv, 8 + k + 1);
                if k < kn {
                    lemma_offices_before_mono(dv, 8 + k + 1, col as int);
                    assert(offices_before(dv, 8 + k + 1) == offices_before(dv, 8 + k) + 1);
                    lemma_offices_before_nonneg(dv, 8 + k);
                    assert(offices0.len() == offices_before(dv, col as int));
                    assert(0 <= offices_before(dv, 8 + k + 1) - 1 < offices0.len());
                    assert(offices0[offices_before(dv, 8 + k + 1) - 1]@ == trimmed(
                        cell_txt(dv, 0, 8 + k),
                    ));
                    assert(offices@[offices_before(dv, 8 + k + 1) - 1] == offices0[
                        offices_before(dv, 8 + k + 1) - 1
                    ]);
                } else {
                    assert(k == kn);
                    assert(trimmed(cell_txt(dv, 0, col as int)).len() > 0);
                    assert(offices_before(dv, col + 1) == offices0.len() + 1);
                    assert(offices@[offices0.len() as int]@ == trimmed(
                        cell_txt(dv, 0, col as int),
                    ));
                }
            }
        }
        col = col + 1;
    }
    proof {
        assert forall|c2: int|
            8 <= c2 < max_width(dv) && !ends_with(cell_txt(dv, 1, c2), "(WI)*"@) implies col_ok(
            dv,
            c2,
            pmap@,
        ) by {
            let k = c2 - 8;
            assert(0 <= k < columns@.len());
            assert(!(columns@[k].candidate is None));
        }
    }
    Ok(SheetPlan { offices, columns })
}

} // verus!
