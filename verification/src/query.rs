//! The read-side query shapes and their aggregation logic: summed vote
//! totals and the grouping of flat result rows under their
//! municipalities.  The relational store feeds these functions plain row
//! values; everything computed from them is verified here.

use vstd::prelude::*;
use crate::text::str_eq;

verus! {

/// An office category, as listed to a reader.
pub struct OfficeCategory {
    pub name: String,
    pub id: usize,
}

/// A municipality's name and FIPS key, as the join against precincts
/// returns them.
pub struct MunicipalHold {
    pub name: String,
    pub fips: String,
}

/// One candidate's vote count.
pub struct ElectionResult {
    pub name: String,
    pub votes: usize,
}

impl Clone for ElectionResult {
    fn clone(&self) -> (r: Self)
        ensures
            r == *self,
    {
        ElectionResult { name: self.name.clone(), votes: self.votes }
    }
}

/// Candidate counts together with their total.
pub struct SumElectionResult {
    pub total_votes: usize,
    pub candidates: Vec<ElectionResult>,
}

/// A municipality with its summed results.
pub struct Municipality {
    pub name: String,
    pub fips: String,
    pub election: SumElectionResult,
}

/// A county with its summed results.
pub struct County {
    pub name: String,
    pub id: usize,
    pub election: SumElectionResult,
}

/// The query layer's error value.
#[derive(Debug)]
pub struct Error {
    pub error: String,
}

impl From<String> for Error {
    fn from(err: String) -> (r: Error) {
        Error { error: err }
    }
}

impl vstd::std_specs::convert::FromSpecImpl<String> for Error {
    open spec fn obeys_from_spec() -> bool {
        true
    }

    open spec fn from_spec(err: String) -> Error {
        Error { error: err }
    }
}

/// The mathematical total of a result list.
pub open spec fn total_of(rs: Seq<ElectionResult>) -> int
    decreases rs.len(),
{
    if rs.len() == 0 {
        0
    } else {
        total_of(rs.drop_last()) + rs.last().votes
    }
}

proof fn lemma_total_take_step(rs: Seq<ElectionResult>, i: int)
    requires
        0 <= i < rs.len(),
    ensures
        total_of(rs.take(i + 1)) == total_of(rs.take(i)) + rs[i].votes,
{
    assert(rs.take(i + 1).drop_last() =~= rs.take(i));
    assert(rs.take(i + 1).last() == rs[i]);
}

proof fn lemma_total_prefix_le(rs: Seq<ElectionResult>, i: int)
    requires
        0 <= i <= rs.len(),
    ensures
        total_of(rs.take(i)) <= total_of(rs),
    decreases rs.len() - i,
{
    if i < rs.len() {
        lemma_total_take_step(rs, i);
        lemma_total_prefix_le(rs, i + 1);
    } else {
        assert(rs.take(i) =~= rs);
    }
}

/// Sums the votes of a result list; nothing when the total does not fit.
pub fn sum_votes(rs: &Vec<ElectionResult>) -> (r: Option<usize>)
    ensures
        r matches Some(t) ==> t == total_of(rs@),
        r is None <==> total_of(rs@) > usize::MAX,
{
    let mut acc: usize = 0;
    let mut i: usize = 0;
    while i < rs.len()
        invariant
            i <= rs@.len(),
            acc == total_of(rs@.take(i as int)),
        decreases rs@.len() - i,
    {
        proof {
            lemma_total_take_step(rs@, i as int);
        }
        let v = rs[i].votes;
        if acc > usize::MAX - v {
            proof {
                lemma_total_prefix_le(rs@, i + 1);
            }
            return None;
        }
        acc = acc + v;
        i = i + 1;
    }
    proof {
        assert(rs@.take(rs@.len() as int) =~= rs@);
    }
    Some(acc)
}

/// The rows of a flat result listing that belong to one FIPS key, in
/// their given order.
pub open spec fn rows_for(rows: Seq<ElectionResult>, keys: Seq<Seq<char>>, fips: Seq<char>) -> Seq<
    ElectionResult,
>
    decreases rows.len(),
{
    if rows.len() == 0 || rows.len() != keys.len() {
        Seq::empty()
    } else {
        rows_for(rows.drop_last(), keys.drop_last(), fips) + (if keys.last() == fips {
            seq![rows.last()]
        } else {
            Seq::empty()
        })
    }
}

/// Collects the rows keyed by `fips`, keeping their order.
pub fn collect_rows_for(rows: &Vec<ElectionResult>, keys: &Vec<String>, fips: &str) -> (r: Vec<
    ElectionResult,
>)
    requires
        rows@.len() == keys@.len(),
    ensures
        r@ == rows_for(rows@, keys.deep_view(), fips@),
{
    let mut r: Vec<ElectionResult> = Vec::new();
    let mut i: usize = 0;
    while i < rows.len()
        invariant
            i <= rows@.len(),
            rows@.len() == keys@.len(),
            r@ == rows_for(rows@.take(i as int), keys.deep_view().take(i as int), fips@),
        decreases rows@.len() - i,
    {
        proof {
            assert(rows@.take(i + 1).drop_last() =~= rows@.take(i as int));
            assert(keys.deep_view().take(i + 1).drop_last() =~= keys.deep_view().take(i as int));
            assert(keys.deep_view().take(i + 1).last() == keys.deep_view()[i as int]);
            assert(keys.deep_view()[i as int] == keys@[i as int]@);
        }
        if str_eq(keys[i].as_str(), fips) {
            r.push(rows[i].clone());
        }
        i = i + 1;
    }
    proof {
        assert(rows@.take(rows@.len() as int) =~= rows@);
        assert(keys.deep_view().take(keys@.len() as int) =~= keys.deep_view());
    }
    r
}

/// Builds one municipality's summed entry from the flat listing; nothing
/// when no row carries its key.
pub fn municipality_summary(
    hold_name: &String,
    hold_fips: &String,
    rows: &Vec<ElectionResult>,
    keys: &Vec<String>,
) -> (r: Result<Option<Municipality>, Error>)
    requires
        rows@.len() == keys@.len(),
    ensures
        r matches Ok(Some(m)) ==> {
            let mine = rows_for(rows@, keys.deep_view(), hold_fips@);
            &&& mine.len() > 0
            &&& m.name == *hold_name
            &&& m.fips == *hold_fips
            &&& m.election.candidates@ == mine
            &&& m.election.total_votes == total_of(mine)
        },
        r matches Ok(None) ==> rows_for(rows@, keys.deep_view(), hold_fips@).len() == 0,
        r matches Ok(Some(_)) <==> (rows_for(rows@, keys.deep_view(), hold_fips@).len() > 0
            && total_of(rows_for(rows@, keys.deep_view(), hold_fips@)) <= usize::MAX),
        r matches Err(_) <==> total_of(rows_for(rows@, keys.deep_view(), hold_fips@))
            > usize::MAX,
{
    let mine = collect_rows_for(rows, keys, hold_fips.as_str());
    if mine.len() == 0 {
        return Ok(None);
    }
    match sum_votes(&mine) {
        Some(total) => Ok(
            Some(
                Municipality {
                    name: hold_name.clone(),
                    fips: hold_fips.clone(),
                    election: SumElectionResult { total_votes: total, candidates: mine },
                },
            ),
        ),
        None => Err(Error { error: String::from_str("vote total does not fit") }),
    }
}

} // verus!
