use vstd::prelude::*;

use crate::county::CountyV;
use crate::dbmgr::{students_sorted_desc, DB};
use crate::parse::{lemma_parse_grade_nonneg, GRADE_ABSENT};
use crate::specializare::{
    grade_or_absent,
    grade_or_absent_opt,
    spec_nerepartizat,
    spec_normalize_offer,
    RawSpecializareV,
    SpecializareV,
};
use crate::store::{contains_code, county_codes_unique, merge_counties};
use crate::student::StudentV;

verus! {

proof fn lemma_contains_code_push(s: Seq<CountyV>, c: CountyV, code: Seq<char>)
    requires
        contains_code(s, code),
    ensures
        contains_code(s.push(c), code),
{
    let i = choose|i: int| 0 <= i < s.len() && (#[trigger] s[i]).code == code;
    assert(s.push(c)[i].code == code);
}

/// Every code of the batch is present after the merge.
proof fn lemma_merge_counties_contains(s: Seq<CountyV>, cs: Seq<CountyV>, k: int)
    requires
        0 <= k < cs.len(),
    ensures
        contains_code(merge_counties(s, cs), cs[k].code),
    decreases cs.len(),
{
    let m = merge_counties(s, cs.drop_last());
    if k == cs.len() - 1 {
        if contains_code(m, cs.last().code) {
        } else {
            assert(merge_counties(s, cs)[m.len() as int].code == cs[k].code);
        }
    } else {
        lemma_merge_counties_contains(s, cs.drop_last(), k);
        assert(cs.drop_last()[k] == cs[k]);
        if !contains_code(m, cs.last().code) {
            lemma_contains_code_push(m, cs.last(), cs[k].code);
        }
    }
}

/// A batch whose codes are all present merges to nothing.
proof fn lemma_merge_counties_absorb(m: Seq<CountyV>, cs: Seq<CountyV>)
    requires
        forall|k: int| 0 <= k < cs.len() ==> contains_code(m, (#[trigger] cs[k]).code),
    ensures
        merge_counties(m, cs) == m,
    decreases cs.len(),
{
    if cs.len() > 0 {
        assert(forall|k: int|
            0 <= k < cs.len() - 1 ==> (#[trigger] cs.drop_last()[k]) == cs[k]);
        lemma_merge_counties_absorb(m, cs.drop_last());
        assert(contains_code(m, cs.last().code));
    }
}

/// Region insertion is idempotent: running the same batch of regions a
/// second time leaves the region set of the first run unchanged.
pub proof fn lemma_region_insertion_idempotent(s: Seq<CountyV>, cs: Seq<CountyV>)
    ensures
        merge_counties(merge_counties(s, cs), cs) == merge_counties(s, cs),
{
    let m = merge_counties(s, cs);
    assert forall|k: int| 0 <= k < cs.len() implies contains_code(
        m,
        (#[trigger] cs[k]).code,
    ) by {
        lemma_merge_counties_contains(s, cs, k);
    }
    lemma_merge_counties_absorb(m, cs);
}

/// Region insertion never introduces a duplicate code: a merge onto a
/// set of distinct codes leaves the codes distinct.
pub proof fn lemma_region_codes_stay_unique(s: Seq<CountyV>, cs: Seq<CountyV>)
    requires
        county_codes_unique(s),
    ensures
        county_codes_unique(merge_counties(s, cs)),
    decreases cs.len(),
{
    if cs.len() > 0 {
        lemma_region_codes_stay_unique(s, cs.drop_last());
        let m = merge_counties(s, cs.drop_last());
        if !contains_code(m, cs.last().code) {
            let m1 = m.push(cs.last());
            assert(county_codes_unique(m1)) by {
                assert forall|i: int, j: int| 0 <= i < j < m1.len() implies m1[i].code
                    != m1[j].code by {
                    if j == m1.len() - 1 {
                        if m1[i].code == m1[j].code {
                            assert(contains_code(m, cs.last().code));
                        }
                    }
                }
            }
        }
    }
}

/// The synthetic unassigned offer's id is the negation of its region's
/// id, and no offer the feed can yield — their ids are positive — ever
/// carries that id.
pub proof fn lemma_unassigned_offer_id(c: CountyV, raw: RawSpecializareV, sp: SpecializareV)
    requires
        c.id >= 0,
        spec_normalize_offer(raw) == Some(sp),
    ensures
        spec_nerepartizat(c).id == -c.id,
        spec_nerepartizat(c).id != sp.id,
{
    assert(sp.id > 0);
}

/// Every normalized average is the absence marker or a non-negative
/// parsed value.
pub proof fn lemma_average_range(s: Seq<char>)
    ensures
        grade_or_absent(s) == GRADE_ABSENT as int || grade_or_absent(s) >= 0,
{
    lemma_parse_grade_nonneg(s);
}

/// As `lemma_average_range`, for a field the feed may omit.
pub proof fn lemma_average_range_opt(s: Option<Seq<char>>)
    ensures
        grade_or_absent_opt(s) == GRADE_ABSENT as int || grade_or_absent_opt(s) >= 0,
{
    match s {
        Some(t) => lemma_average_range(t),
        None => {},
    }
}

/// Under descending-average order, candidates whose admission average is
/// the absence marker come after every candidate with a parsed average:
/// the marker sorts last.
pub proof fn lemma_absent_averages_sort_last(s: Seq<StudentV>, i: int, j: int)
    requires
        students_sorted_desc(s),
        forall|k: int|
            0 <= k < s.len() ==> (#[trigger] s[k]).medie_admitere == GRADE_ABSENT as int
                || s[k].medie_admitere >= 0,
        0 <= i < s.len(),
        0 <= j < s.len(),
        s[i].medie_admitere == GRADE_ABSENT as int,
        s[j].medie_admitere != GRADE_ABSENT as int,
    ensures
        j < i,
{
    if j > i {
        assert(s[i].medie_admitere >= s[j].medie_admitere);
        assert(s[j].medie_admitere >= 0);
    }
}

/// At most one live store per year: two cache entries for the same year
/// are the same entry.
pub proof fn lemma_one_store_per_year(db: DB, y: int, i: int, j: int)
    requires
        db.wf(),
        0 <= i < db.stores@.len(),
        0 <= j < db.stores@.len(),
        db.stores@[i].0 == y,
        db.stores@[j].0 == y,
    ensures
        i == j,
{
    if i < j {
        assert(db.stores@[i].0 != db.stores@[j].0);
    }
    if j < i {
        assert(db.stores@[j].0 != db.stores@[i].0);
    }
}

} // verus!
