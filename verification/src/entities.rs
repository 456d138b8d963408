//! The County -> Municipality -> Precinct hierarchy, pre-insertion.
//!
//! Records carry no store-assigned ids; a county or municipality is addressed
//! by its index (its handle) in the list or arena that owns it.

use vstd::prelude::*;
use crate::text::{joined, sorted_distinct, seq_set, join_with};

verus! {

/// A county, addressed by its index in the catalog's county list.
pub struct County {
    pub name: String,
}

impl Clone for County {
    fn clone(&self) -> (r: Self)
        ensures
            r == *self,
    {
        County { name: self.name.clone() }
    }
}

/// The closed set of municipal types; `Mixed` marks a merge product.
#[derive(Clone, Copy, PartialEq, Eq, Structural, Debug)]
pub enum MunicipalType {
    City,
    Township,
    Mixed,
}

/// A precinct; `row_id` is the stable source-row identity used for
/// deduplication, and `county` is a county handle.
pub struct Precinct {
    pub name: String,
    pub county: usize,
    pub row_id: u32,
}

impl Clone for Precinct {
    fn clone(&self) -> (r: Self)
        ensures
            r == *self,
    {
        Precinct { name: self.name.clone(), county: self.county, row_id: self.row_id }
    }
}

/// A municipality record in the arena.  `codes` is its FIPS key set, a
/// single code unless the record was made by a merge; `merged_from` holds
/// every absorbed code, and stays empty on a base record.
pub struct Municipality {
    pub name: String,
    pub codes: Vec<String>,
    pub mtype: MunicipalType,
    pub canonical_county: usize,
    pub precincts: Vec<Precinct>,
    pub merged_from: Vec<String>,
}

impl Municipality {
    /// The displayed FIPS key: the single code, or the comma-joined
    /// composite when merged.
    pub open spec fn fips_view(&self) -> Seq<char> {
        joined(self.codes.deep_view(), ","@)
    }

    /// The set of FIPS codes this record covers.
    pub open spec fn code_set(&self) -> Set<Seq<char>> {
        seq_set(self.codes.deep_view())
    }

    /// The source rows of the precincts attached to this record.
    pub open spec fn row_ids(&self) -> Seq<u32> {
        self.precincts@.map_values(|p: Precinct| p.row_id)
    }

    /// Structural soundness against a catalog of `n_counties` counties.
    pub open spec fn wf(&self, n_counties: nat) -> bool {
        &&& self.codes.deep_view().len() >= 1
        &&& sorted_distinct(self.codes.deep_view())
        &&& self.canonical_county < n_counties
        &&& forall|i: int|
            0 <= i < self.precincts@.len() ==> self.precincts@[i].county < n_counties
    }

    pub fn fips_string(&self) -> (r: String)
        ensures
            r@ == self.fips_view(),
    {
        join_with(&self.codes, ",")
    }

    /// Field-for-field agreement; what a clone guarantees.
    pub open spec fn same_record(&self, other: &Municipality) -> bool {
        &&& self.name == other.name
        &&& self.codes@ == other.codes@
        &&& self.mtype == other.mtype
        &&& self.canonical_county == other.canonical_county
        &&& self.precincts@ == other.precincts@
        &&& self.merged_from@ == other.merged_from@
    }
}

impl Clone for Municipality {
    fn clone(&self) -> (r: Self)
        ensures
            r.same_record(self),
    {
        let codes = self.codes.clone();
        let precincts = clone_precincts(&self.precincts);
        let merged_from = self.merged_from.clone();
        proof {
            assert(codes@ =~= self.codes@) by {
                assert forall|i: int| 0 <= i < codes@.len() implies codes@[i]
                    == self.codes@[i] by {
                    assert(cloned::<String>(self.codes[i], codes[i]));
                }
            }
            assert(merged_from@ =~= self.merged_from@) by {
                assert forall|i: int| 0 <= i < merged_from@.len() implies merged_from@[i]
                    == self.merged_from@[i] by {
                    assert(cloned::<String>(self.merged_from[i], merged_from[i]));
                }
            }
        }
        Municipality {
            name: self.name.clone(),
            codes,
            mtype: self.mtype,
            canonical_county: self.canonical_county,
            precincts,
            merged_from,
        }
    }
}

fn clone_precincts(ps: &Vec<Precinct>) -> (r: Vec<Precinct>)
    ensures
        r@ == ps@,
{
    let mut r: Vec<Precinct> = Vec::new();
    let mut i: usize = 0;
    while i < ps.len()
        invariant
            i <= ps@.len(),
            r@ == ps@.take(i as int),
        decreases ps@.len() - i,
    {
        r.push(ps[i].clone());
        proof {
            assert(r@ =~= ps@.take(i + 1));
        }
        i = i + 1;
    }
    proof {
        assert(ps@.take(ps@.len() as int) =~= ps@);
    }
    r
}

} // verus!
