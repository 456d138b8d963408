//! The final partition: the post-pass over the resolved catalog.
//!
//! A municipality left with no precinct is excluded and recorded to the
//! filter list; an excluded `Township` additionally yields a warning, an
//! excluded city or merge product does not.  A kept municipality with a
//! nonempty `merged_from` is recorded to the merge log, mapping its
//! absorbed codes to the retained canonical (first) code.

use vstd::prelude::*;
use crate::catalog::{Catalog, distinct_rows, disjoint_rows};
use crate::entities::{Municipality, MunicipalType};
use crate::text::{joined, seq_set};

verus! {

/// A zero-precinct township, surfaced to the operator.
pub struct ZeroPrecinctWarning {
    pub name: String,
    pub county: usize,
}

/// One merge-log line: the absorbed codes, and the canonical code kept.
pub struct MergeEntry {
    pub absorbed: String,
    pub canonical: String,
}

/// The resolver's final output.
pub struct FinalPartition {
    pub handles: Vec<usize>,
    pub municipalities: Vec<Municipality>,
    pub filtered: Vec<String>,
    pub warnings: Vec<ZeroPrecinctWarning>,
    pub merge_log: Vec<MergeEntry>,
}

/// A current municipality with at least one precinct.
pub open spec fn is_final(cat: Catalog, h: int) -> bool {
    cat.live(h) && cat.arena@[h].precincts@.len() > 0
}

/// A current municipality with no precinct: excluded.
pub open spec fn is_filtered(cat: Catalog, h: int) -> bool {
    cat.live(h) && cat.arena@[h].precincts@.len() == 0
}

/// A filtered record that warrants a warning.
pub open spec fn is_warned(cat: Catalog, h: int) -> bool {
    is_filtered(cat, h) && cat.arena@[h].mtype == MunicipalType::Township
}

/// A kept record that goes to the merge log.
pub open spec fn is_logged(cat: Catalog, h: int) -> bool {
    is_final(cat, h) && cat.arena@[h].merged_from@.len() > 0
}

/// The handles below `n` satisfying `is_final`, in arena order.
pub open spec fn final_handles(cat: Catalog, n: int) -> Seq<usize>
    decreases n,
{
    if n <= 0 {
        Seq::empty()
    } else {
        final_handles(cat, n - 1) + (if is_final(cat, n - 1) {
            seq![(n - 1) as usize]
        } else {
            Seq::empty()
        })
    }
}

pub open spec fn filtered_handles(cat: Catalog, n: int) -> Seq<usize>
    decreases n,
{
    if n <= 0 {
        Seq::empty()
    } else {
        filtered_handles(cat, n - 1) + (if is_filtered(cat, n - 1) {
            seq![(n - 1) as usize]
        } else {
            Seq::empty()
        })
    }
}

pub open spec fn warned_handles(cat: Catalog, n: int) -> Seq<usize>
    decreases n,
{
    if n <= 0 {
        Seq::empty()
    } else {
        warned_handles(cat, n - 1) + (if is_warned(cat, n - 1) {
            seq![(n - 1) as usize]
        } else {
            Seq::empty()
        })
    }
}

pub open spec fn logged_handles(cat: Catalog, n: int) -> Seq<usize>
    decreases n,
{
    if n <= 0 {
        Seq::empty()
    } else {
        logged_handles(cat, n - 1) + (if is_logged(cat, n - 1) {
            seq![(n - 1) as usize]
        } else {
            Seq::empty()
        })
    }
}

/// What the post-pass reads off a resolved catalog: the kept
/// municipalities are exactly the final records, in arena order, copied
/// field for field; the filter list, the warnings and the merge log list
/// exactly the filtered, warned and logged records, in arena order.
pub open spec fn partition_of(cat: Catalog, r: FinalPartition) -> bool {
    let n = cat.arena@.len() as int;
    &&& r.handles@ == final_handles(cat, n)
    &&& r.municipalities@.len() == r.handles@.len()
    &&& forall|j: int|
        0 <= j < r.handles@.len() ==> (#[trigger] r.municipalities@[j]).same_record(
            &cat.arena@[r.handles@[j] as int],
        )
    &&& forall|j: int| 0 <= j < r.handles@.len() ==> is_final(cat, #[trigger] r.handles@[j] as int)
    &&& forall|h: int| is_final(cat, h) ==> r.handles@.contains(h as usize)
    &&& forall|j1: int, j2: int|
        0 <= j1 < j2 < r.handles@.len() ==> r.handles@[j1] < r.handles@[j2]
    &&& r.filtered@.len() == filtered_handles(cat, n).len()
    &&& forall|j: int|
        0 <= j < r.filtered@.len() ==> (#[trigger] r.filtered@[j])@ == cat.arena@[
            filtered_handles(cat, n)[j] as int
        ].fips_view()
    &&& r.warnings@.len() == warned_handles(cat, n).len()
    &&& forall|j: int|
        0 <= j < r.warnings@.len() ==> (#[trigger] r.warnings@[j]).name@ == cat.arena@[
            warned_handles(cat, n)[j] as int
        ].name@ && r.warnings@[j].county == cat.arena@[
            warned_handles(cat, n)[j] as int
        ].canonical_county
    &&& r.merge_log@.len() == logged_handles(cat, n).len()
    &&& forall|j: int|
        0 <= j < r.merge_log@.len() ==> (#[trigger] r.merge_log@[j]).absorbed@ == joined(
            cat.arena@[logged_handles(cat, n)[j] as int].merged_from.deep_view(),
            ","@,
        ) && r.merge_log@[j].canonical@ == cat.arena@[
            logged_handles(cat, n)[j] as int
        ].codes.deep_view()[0]
}

/// Every handle a selection lists is in range, selected, and below `n`;
/// and every selected handle below `n` is listed.
proof fn lemma_final_handles_complete(cat: Catalog, n: int, h: int)
    requires
        0 <= h < n,
        is_final(cat, h),
    ensures
        final_handles(cat, n).contains(h as usize),
    decreases n,
{
    if h == n - 1 {
        let s = final_handles(cat, n);
        assert(s[s.len() - 1] == h as usize);
    } else {
        lemma_final_handles_complete(cat, n - 1, h);
        let s0 = final_handles(cat, n - 1);
        let j = choose|j: int| 0 <= j < s0.len() && s0[j] == h as usize;
        assert(final_handles(cat, n)[j] == h as usize);
    }
}

proof fn lemma_final_handles_sound(cat: Catalog, n: int)
    ensures
        forall|j: int|
            0 <= j < final_handles(cat, n).len() ==> is_final(
                cat,
                #[trigger] final_handles(cat, n)[j] as int,
            ) && final_handles(cat, n)[j] < n,
        forall|j1: int, j2: int|
            0 <= j1 < j2 < final_handles(cat, n).len() ==> final_handles(cat, n)[j1]
                < final_handles(cat, n)[j2],
    decreases n,
{
    if n > 0 {
        lemma_final_handles_sound(cat, n - 1);
        let s0 = final_handles(cat, n - 1);
        let s = final_handles(cat, n);
        assert forall|j: int| 0 <= j < s.len() implies is_final(cat, #[trigger] s[j] as int)
            && s[j] < n by {
            if j < s0.len() {
                assert(s[j] == s0[j]);
            }
        }
        assert forall|j1: int, j2: int| 0 <= j1 < j2 < s.len() implies s[j1] < s[j2] by {
            if j2 < s0.len() {
                assert(s[j1] == s0[j1] && s[j2] == s0[j2]);
            } else {
                assert(s[j1] == s0[j1]);
                assert(s0[j1] < n - 1);
            }
        }
    }
}

impl Catalog {
    /// Whether the record at `h` is one some code currently resolves to.
    /// Under the invariant it suffices to check the record's first code.
    fn is_live_at(&self, h: usize) -> (r: bool)
        requires
            self.wf(),
            h < self.arena@.len(),
        ensures
            r == self.live(h as int),
    {
        let c0 = &self.arena[h].codes[0];
        proof {
            assert(self.arena@[h as int].wf(self.n_counties()));
            assert(self.arena@[h as int].codes.deep_view().len() >= 1);
            assert(c0@ == self.arena@[h as int].codes.deep_view()[0]);
        }
        match self.fips_map.get(c0.as_str()) {
            Some(h2) => {
                let live = *h2 == h;
                proof {
                    if live {
                        assert(self.fips_dom().contains(c0@) && self.handle_of(c0@) == h as int);
                    } else {
                        if self.live(h as int) {
                            let cw = choose|cw: Seq<char>|
                                #[trigger] self.fips_dom().contains(cw) && self.handle_of(cw)
                                    == h as int;
                            assert(self.record_closed(h as int));
                            assert(self.arena@[h as int].codes@[0]@ == c0@);
                            assert(self.handle_of(c0@) == h as int);
                        }
                    }
                }
                live
            },
            None => {
                proof {
                    if self.live(h as int) {
                        let cw = choose|cw: Seq<char>|
                            #[trigger] self.fips_dom().contains(cw) && self.handle_of(cw)
                                == h as int;
                        assert(self.record_closed(h as int));
                        assert(self.arena@[h as int].codes@[0]@ == c0@);
                    }
                }
                false
            },
        }
    }

    /// The post-pass: keeps every current municipality that received a
    /// precinct, excludes the rest to the filter list, warns on excluded
    /// townships, and logs each kept merge product.
    pub fn finalize(&self) -> (r: FinalPartition)
        requires
            self.wf(),
        ensures
            partition_of(*self, r),
    {
        let ghost n = self.arena@.len() as int;
        let mut handles: Vec<usize> = Vec::new();
        let mut municipalities: Vec<Municipality> = Vec::new();
        let mut filtered: Vec<String> = Vec::new();
        let mut warnings: Vec<ZeroPrecinctWarning> = Vec::new();
        let mut merge_log: Vec<MergeEntry> = Vec::new();
        let mut h: usize = 0;
        while h < self.arena.len()
            invariant
                h <= self.arena@.len(),
                self.wf(),
                handles@ == final_handles(*self, h as int),
                municipalities@.len() == handles@.len(),
                forall|j: int|
                    0 <= j < handles@.len() ==> (#[trigger] municipalities@[j]).same_record(
                        &self.arena@[handles@[j] as int],
                    ),
                forall|j: int| 0 <= j < handles@.len() ==> (#[trigger] handles@[j]) < h,
                filtered@.len() == filtered_handles(*self, h as int).len(),
                forall|j: int|
                    0 <= j < filtered@.len() ==> (#[trigger] filtered@[j])@ == self.arena@[
                        filtered_handles(*self, h as int)[j] as int
                    ].fips_view(),
                warnings@.len() == warned_handles(*self, h as int).len(),
                forall|j: int|
                    0 <= j < warnings@.len() ==> (#[trigger] warnings@[j]).name@ == self.arena@[
                        warned_handles(*self, h as int)[j] as int
                    ].name@ && warnings@[j].county == self.arena@[
                        warned_handles(*self, h as int)[j] as int
                    ].canonical_county,
                merge_log@.len() == logged_handles(*self, h as int).len(),
                forall|j: int|
                    0 <= j < merge_log@.len() ==> (#[trigger] merge_log@[j]).absorbed@ == joined(
                        self.arena@[
                            logged_handles(*self, h as int)[j] as int
                        ].merged_from.deep_view(),
                        ","@,
                    ) && merge_log@[j].canonical@ == self.arena@[
                        logged_handles(*self, h as int)[j] as int
                    ].codes.deep_view()[0],
            decreases self.arena@.len() - h,
        {
            let live = self.is_live_at(h);
            if live {
                let m = &self.arena[h];
                if m.precincts.len() == 0 {
                    filtered.push(m.fips_string());
                    if m.mtype == MunicipalType::Township {
                        warnings.push(
                            ZeroPrecinctWarning {
                                name: m.name.clone(),
                                county: m.canonical_county,
                            },
                        );
                    }
                } else {
                    handles.push(h);
                    municipalities.push(m.clone());
                    if m.merged_from.len() > 0 {
                        proof {
                            assert(m.codes.deep_view()[0] == m.codes@[0]@);
                        }
                        merge_log.push(
                            MergeEntry {
                                absorbed: crate::text::join_with(&m.merged_from, ","),
                                canonical: m.codes[0].clone(),
                            },
                        );
                    }
                }
            }
            h = h + 1;
        }
        proof {
            lemma_final_handles_sound(*self, n);
            assert forall|hh: int| is_final(*self, hh) implies handles@.contains(hh as usize) by {
                let c = choose|c: Seq<char>|
                    #[trigger] self.fips_dom().contains(c) && self.handle_of(c) == hh;
                assert(0 <= hh < self.arena@.len());
                lemma_final_handles_complete(*self, n, hh);
            }
        }
        FinalPartition { handles, municipalities, filtered, warnings, merge_log }
    }
}

} // verus!
