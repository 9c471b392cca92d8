use vstd::prelude::*;

use crate::county::{County, CountyV};
use crate::error::IngestError;
use crate::specializare::{RawSpecializare, Specializare, SpecializareV};
use crate::store::{county_views, offer_views, student_views, YearStore};
use crate::student::{RawStudent, Student, StudentV};
use crate::text::{lemma_lex_le_trans, lemma_lex_total, lex_le, lex_lt, str_le};

verus! {

broadcast use vstd::seq_lib::group_to_multiset_ensures;

/// Regions in ascending code order.
pub open spec fn counties_sorted(s: Seq<CountyV>) -> bool {
    forall|i: int, j: int| 0 <= i < j < s.len() ==> lex_le(s[i].code, s[j].code)
}

/// The per-year store cache: at most one live store per year, created on
/// first use and shared by every later access for that year.
pub struct DB {
    pub stores: Vec<(i32, YearStore)>,
}

impl DB {
    /// The cache's invariant: years pairwise distinct, every store well
    /// formed.
    pub open spec fn wf(self) -> bool {
        &&& forall|i: int, j: int|
            0 <= i < j < self.stores@.len() ==> self.stores@[i].0 != self.stores@[j].0
        &&& forall|i: int| 0 <= i < self.stores@.len() ==> (#[trigger] self.stores@[i]).1.wf()
    }

    /// A year that has a live store.
    pub open spec fn has_year(self, y: int) -> bool {
        exists|i: int| 0 <= i < self.stores@.len() && (#[trigger] self.stores@[i]).0 == y
    }

    /// The index of a year's store.
    pub open spec fn year_index(self, y: int) -> int {
        choose|i: int| 0 <= i < self.stores@.len() && (#[trigger] self.stores@[i]).0 == y
    }

    /// The store of a year that has one.
    pub open spec fn year_store(self, y: int) -> YearStore {
        self.stores@[self.year_index(y)].1
    }

    /// An empty cache.
    pub fn new() -> (r: DB)
        ensures
            r.wf(),
            r.stores@.len() == 0,
    {
        DB { stores: Vec::new() }
    }

    /// Looks a year's store up.
    fn find_year(&self, year: i32) -> (r: Option<usize>)
        requires
            self.wf(),
        ensures
            match r {
                Some(h) => h < self.stores@.len() && self.stores@[h as int].0 == year
                    && self.has_year(year as int) && self.year_index(year as int) == h as int,
                None => !self.has_year(year as int),
            },
    {
        let n = self.stores.len();
        let mut i: usize = 0;
        while i < n
            invariant
                0 <= i <= n,
                n == self.stores@.len(),
                self.wf(),
                forall|j: int| 0 <= j < i ==> (#[trigger] self.stores@[j]).0 != year,
            decreases n - i,
        {
            if self.stores[i].0 == year {
                proof {
                    let y = year as int;
                    assert(self.has_year(y));
                    let w = self.year_index(y);
                    assert(0 <= w < self.stores@.len() && self.stores@[w].0 == y);
                    if w != i as int {
                        assert(self.stores@[w].0 == self.stores@[i as int].0);
                    }
                }
                return Some(i);
            }
            i += 1;
        }
        None
    }

    /// Resolves the year's store handle, creating a fresh empty store on a
    /// miss when `create` is set; a miss without `create` is `NotFound`.
    /// A year that already has a store gets that same store back, the
    /// cache unchanged — never a second store for the same year.
    pub fn get_year_pool(&mut self, year: i32, create: bool) -> (r: Result<usize, IngestError>)
        requires
            old(self).wf(),
        ensures
            final(self).wf(),
            match r {
                Ok(h) => {
                    &&& h < final(self).stores@.len()
                    &&& final(self).stores@[h as int].0 == year
                    &&& final(self).has_year(year as int)
                    &&& final(self).year_index(year as int) == h as int
                    &&& (old(self).has_year(year as int) ==> *final(self) == *old(self))
                    &&& (!old(self).has_year(year as int) ==> {
                        &&& create
                        &&& h as int == old(self).stores@.len()
                        &&& final(self).stores@.len() == old(self).stores@.len() + 1
                        &&& (forall|i: int|
                            0 <= i < old(self).stores@.len() ==> final(self).stores@[i] == old(
                                self,
                            ).stores@[i])
                        &&& final(self).stores@[h as int].1.counties@.len() == 0
                        &&& final(self).stores@[h as int].1.specializari@.len() == 0
                        &&& final(self).stores@[h as int].1.students@.len() == 0
                    })
                },
                Err(e) => {
                    &&& e == IngestError::NotFound
                    &&& !old(self).has_year(year as int)
                    &&& !create
                    &&& *final(self) == *old(self)
                },
            },
    {
        match self.find_year(year) {
            Some(h) => Ok(h),
            None => {
                if !create {
                    return Err(IngestError::NotFound);
                }
                let h = self.stores.len();
                let st = YearStore::new();
                proof {
                    let pushed = self.stores@.push((year, st));
                    assert(forall|i: int|
                        0 <= i < self.stores@.len() ==> (#[trigger] pushed[i]) == self.stores@[i]);
                    assert(pushed[h as int].0 == year);
                }
                self.stores.push((year, st));
                proof {
                    let y = year as int;
                    assert(self.stores@[h as int].0 == y);
                    assert(self.has_year(y));
                    let w = self.year_index(y);
                    assert(0 <= w < self.stores@.len() && self.stores@[w].0 == y);
                    if w != h as int {
                        assert(self.stores@[w].0 == self.stores@[h as int].0);
                    }
                }
                Ok(h)
            },
        }
    }

    /// Borrows the store behind a handle.
    pub fn store_at(&self, h: usize) -> (r: &YearStore)
        requires
            h < self.stores@.len(),
        ensures
            *r == self.stores@[h as int].1,
    {
        &self.stores[h].1
    }

    /// Phase three of a year's ingestion: all regions inserted, each one
    /// idempotently.
    pub fn insert_counties(&mut self, h: usize, cs: &Vec<County>)
        requires
            old(self).wf(),
            h < old(self).stores@.len(),
            forall|i: int| 0 <= i < cs@.len() ==> (#[trigger] cs@[i]).well_formed(),
        ensures
            final(self).wf(),
            final(self).stores@.len() == old(self).stores@.len(),
            forall|i: int|
                0 <= i < old(self).stores@.len() && i != h as int ==> final(self).stores@[i]
                    == old(self).stores@[i],
            final(self).stores@[h as int].0 == old(self).stores@[h as int].0,
            county_views(final(self).stores@[h as int].1.counties@)
                == crate::store::merge_counties(
                county_views(old(self).stores@[h as int].1.counties@),
                county_views(cs@),
            ),
            final(self).stores@[h as int].1.specializari@ == old(
                self,
            ).stores@[h as int].1.specializari@,
            final(self).stores@[h as int].1.students@ == old(self).stores@[h as int].1.students@,
    {
        self.stores[h].1.insert_counties(cs);
    }

    /// One region's offer phase, against the year's store; see
    /// `YearStore::insert_specializari`.
    pub fn insert_specializari(&mut self, h: usize, county: &County, raws: &Vec<
        RawSpecializare,
    >) -> (r: Result<Vec<i32>, IngestError>)
        requires
            old(self).wf(),
            h < old(self).stores@.len(),
            county.well_formed(),
        ensures
            final(self).wf(),
            final(self).stores@.len() == old(self).stores@.len(),
            forall|i: int|
                0 <= i < old(self).stores@.len() && i != h as int ==> final(self).stores@[i]
                    == old(self).stores@[i],
            final(self).stores@[h as int].0 == old(self).stores@[h as int].0,
            final(self).stores@[h as int].1.counties@ == old(self).stores@[h as int].1.counties@,
            final(self).stores@[h as int].1.students@ == old(self).stores@[h as int].1.students@,
            match r {
                Ok(skipped) => {
                    let b = crate::store::normalize_offer_batch(
                        crate::store::raw_offer_views(raws@),
                    );
                    &&& b is Some
                    &&& offer_views(final(self).stores@[h as int].1.specializari@)
                        == crate::store::merge_offers(
                        offer_views(old(self).stores@[h as int].1.specializari@),
                        seq![crate::specializare::spec_nerepartizat(county@)] + b->Some_0,
                    )
                    &&& final(self).stores@[h as int].1.specializari@.len() + skipped@.len()
                        == old(self).stores@[h as int].1.specializari@.len() + 1
                        + b->Some_0.len()
                },
                Err(e) => {
                    &&& e == IngestError::MalformedPayload
                    &&& crate::store::normalize_offer_batch(
                        crate::store::raw_offer_views(raws@),
                    ) is None
                    &&& offer_views(final(self).stores@[h as int].1.specializari@)
                        == crate::store::merge_offers(
                        offer_views(old(self).stores@[h as int].1.specializari@),
                        seq![crate::specializare::spec_nerepartizat(county@)],
                    )
                },
            },
    {
        self.stores[h].1.insert_specializari(county, raws)
    }

    /// One region's candidate phase, against the year's store; see
    /// `YearStore::insert_students`.
    pub fn insert_students(&mut self, h: usize, county: &County, raws: &Vec<RawStudent>) -> (r:
        Result<(), IngestError>)
        requires
            old(self).wf(),
            h < old(self).stores@.len(),
            county.well_formed(),
        ensures
            final(self).wf(),
            final(self).stores@.len() == old(self).stores@.len(),
            forall|i: int|
                0 <= i < old(self).stores@.len() && i != h as int ==> final(self).stores@[i]
                    == old(self).stores@[i],
            final(self).stores@[h as int].0 == old(self).stores@[h as int].0,
            final(self).stores@[h as int].1.counties@ == old(self).stores@[h as int].1.counties@,
            final(self).stores@[h as int].1.specializari@ == old(
                self,
            ).stores@[h as int].1.specializari@,
            match r {
                Ok(_) => {
                    let b = crate::store::normalize_student_batch(
                        crate::store::raw_student_views(raws@),
                        county@.id,
                    );
                    &&& b is Some
                    &&& crate::store::students_batch_ok(
                        student_views(old(self).stores@[h as int].1.students@),
                        b->Some_0,
                    )
                    &&& student_views(final(self).stores@[h as int].1.students@)
                        == student_views(old(self).stores@[h as int].1.students@) + b->Some_0
                },
                Err(e) => {
                    let b = crate::store::normalize_student_batch(
                        crate::store::raw_student_views(raws@),
                        county@.id,
                    );
                    &&& final(self).stores@[h as int].1.students@ == old(
                        self,
                    ).stores@[h as int].1.students@
                    &&& (e == IngestError::MalformedPayload || e == IngestError::DuplicateKey)
                    &&& (e == IngestError::MalformedPayload <==> b is None)
                    &&& (e == IngestError::DuplicateKey ==> b is Some
                        && !crate::store::students_batch_ok(
                        student_views(old(self).stores@[h as int].1.students@),
                        b->Some_0,
                    ))
                },
            },
    {
        self.stores[h].1.insert_students(county, raws)
    }
}

/// Inserts a region into a code-sorted sequence, keeping it sorted.
fn sorted_insert_county(v: &mut Vec<County>, c: County)
    requires
        counties_sorted(county_views(old(v)@)),
    ensures
        counties_sorted(county_views(final(v)@)),
        county_views(final(v)@).to_multiset() == county_views(old(v)@).to_multiset().insert(c@),
{
    let n = v.len();
    let mut i: usize = 0;
    while i < n && str_le(v[i].code.as_str(), c.code.as_str())
        invariant
            0 <= i <= n,
            n == v@.len(),
            *v == *old(v),
            counties_sorted(county_views(v@)),
            forall|j: int| 0 <= j < i ==> lex_le(county_views(v@)[j].code, c@.code),
        decreases n - i,
    {
        i += 1;
    }
    proof {
        let vs = county_views(v@);
        if i < n {
            lemma_lex_total(c@.code, vs[i as int].code);
            assert(lex_le(c@.code, vs[i as int].code));
            assert forall|k: int| i <= k < n implies lex_le(c@.code, vs[k].code) by {
                if k > i {
                    lemma_lex_le_trans(c@.code, vs[i as int].code, vs[k].code);
                }
            }
        }
        let vs1 = county_views(v@.insert(i as int, c));
        assert(vs1 =~= vs.insert(i as int, c@));
        assert(counties_sorted(vs1)) by {
            assert forall|a: int, b: int| 0 <= a < b < vs1.len() implies lex_le(
                vs1[a].code,
                vs1[b].code,
            ) by {
                if a < i && b == i {
                } else if a == i && b > i {
                } else if a < i && b > i {
                } else if a != i && b != i {
                }
            }
        }
    }
    v.insert(i, c);
    proof {
        assert(county_views(v@) =~= county_views(old(v)@).insert(i as int, c@));
        assert(county_views(old(v)@).insert(i as int, c@).to_multiset() =~= county_views(
            old(v)@,
        ).to_multiset().insert(c@));
    }
}

/// Sorts regions by code, ascending.
fn sort_counties(v: Vec<County>) -> (r: Vec<County>)
    ensures
        counties_sorted(county_views(r@)),
        county_views(r@).to_multiset() == county_views(v@).to_multiset(),
{
    let ghost orig = county_views(v@).to_multiset();
    let mut rest = v;
    let mut out: Vec<County> = Vec::new();
    while rest.len() > 0
        invariant
            counties_sorted(county_views(out@)),
            county_views(out@).to_multiset().add(county_views(rest@).to_multiset()) == orig,
        decreases rest@.len(),
    {
        let ghost pre = county_views(rest@);
        let c = match rest.pop() {
            Some(c) => c,
            None => {
                return out;
            },
        };
        proof {
            assert(pre.drop_last() =~= pre.remove(pre.len() - 1));
            assert(county_views(rest@) =~= pre.remove(pre.len() - 1));
            assert(county_views(rest@).to_multiset() =~= pre.to_multiset().remove(c@));
        }
        let ghost mid = county_views(out@).to_multiset();
        sorted_insert_county(&mut out, c);
        proof {
            assert(county_views(out@).to_multiset().add(county_views(rest@).to_multiset())
                =~= orig);
        }
    }
    proof {
        assert(county_views(rest@).to_multiset().len() == 0);
        assert(county_views(out@).to_multiset() =~= orig);
    }
    out
}

impl DB {
    /// The regions of a year, in ascending code order; an unknown year
    /// yields an empty sequence, not an error.
    pub fn get_counties(&self, year: i32) -> (r: Vec<County>)
        requires
            self.wf(),
        ensures
            counties_sorted(county_views(r@)),
            self.has_year(year as int) ==> county_views(r@).to_multiset() == county_views(
                self.year_store(year as int).counties@,
            ).to_multiset(),
            !self.has_year(year as int) ==> r@.len() == 0,
    {
        match self.find_year(year) {
            None => Vec::new(),
            Some(h) => {
                let st = self.store_at(h);
                let n = st.counties.len();
                let mut copy: Vec<County> = Vec::new();
                let mut i: usize = 0;
                while i < n
                    invariant
                        0 <= i <= n,
                        n == st.counties@.len(),
                        county_views(copy@) =~= county_views(st.counties@.take(i as int)),
                    decreases n - i,
                {
                    let c = st.counties[i].duplicate();
                    proof {
                        assert(st.counties@.take(i + 1).drop_last() =~= st.counties@.take(
                            i as int,
                        ));
                        assert(county_views(copy@.push(c)) =~= county_views(copy@).push(c@));
                        assert(county_views(st.counties@.take(i + 1)) =~= county_views(
                            st.counties@.take(i as int),
                        ).push(st.counties@[i as int]@));
                    }
                    copy.push(c);
                    i += 1;
                }
                proof {
                    assert(st.counties@.take(n as int) =~= st.counties@);
                    assert(county_views(copy@).to_multiset() =~= county_views(
                        st.counties@,
                    ).to_multiset());
                }
                sort_counties(copy)
            },
        }
    }
}

/// Views of a sequence of strings.
pub open spec fn string_views(s: Seq<String>) -> Seq<Seq<char>> {
    s.map_values(|x: String| x@)
}

/// School names in ascending order.
pub open spec fn names_sorted(s: Seq<Seq<char>>) -> bool {
    forall|i: int, j: int| 0 <= i < j < s.len() ==> lex_le(s[i], s[j])
}

/// School names in strictly ascending order — sorted and distinct.
pub open spec fn names_strictly_sorted(s: Seq<Seq<char>>) -> bool {
    forall|i: int, j: int| 0 <= i < j < s.len() ==> lex_lt(s[i], s[j])
}

/// Some offer of the region carries this school name.
pub open spec fn name_from_offers(
    n: Seq<char>,
    offers: Seq<SpecializareV>,
    judet: Seq<char>,
) -> bool {
    exists|i: int|
        0 <= i < offers.len() && (#[trigger] offers[i]).liceu == n && offers[i].judet == judet
}

/// `names` carries exactly the schools of the region's offers: every name
/// comes from a matching offer, and every matching offer's school is
/// listed.
pub open spec fn is_school_list(
    names: Seq<Seq<char>>,
    offers: Seq<SpecializareV>,
    judet: Seq<char>,
) -> bool {
    &&& forall|k: int|
        0 <= k < names.len() ==> name_from_offers(#[trigger] names[k], offers, judet)
    &&& forall|i: int|
        0 <= i < offers.len() && (#[trigger] offers[i]).judet == judet ==> names.contains(
            offers[i].liceu,
        )
}

/// Extending the scanned prefix by an offer whose school is already
/// listed (or which is out of the region) keeps the school list exact.
proof fn lemma_school_list_extend(
    names: Seq<Seq<char>>,
    offers: Seq<SpecializareV>,
    i: int,
    judet: Seq<char>,
)
    requires
        0 <= i < offers.len(),
        is_school_list(names, offers.take(i), judet),
        offers[i].judet == judet ==> names.contains(offers[i].liceu),
    ensures
        is_school_list(names, offers.take(i + 1), judet),
{
    let t = offers.take(i);
    let t1 = offers.take(i + 1);
    assert(forall|w: int| 0 <= w < t1.len() ==> #[trigger] t1[w] == offers[w]);
    assert(forall|w: int| 0 <= w < t.len() ==> #[trigger] t[w] == offers[w]);
    assert forall|k: int| 0 <= k < names.len() implies name_from_offers(
        #[trigger] names[k],
        t1,
        judet,
    ) by {
        let w = choose|w: int|
            0 <= w < t.len() && (#[trigger] t[w]).liceu == names[k] && t[w].judet == judet;
        assert(0 <= w < t1.len() && t1[w].liceu == names[k] && t1[w].judet == judet);
    }
}

/// Appending a matching offer's fresh school name keeps the list exact.
proof fn lemma_school_list_push(
    names: Seq<Seq<char>>,
    offers: Seq<SpecializareV>,
    i: int,
    judet: Seq<char>,
)
    requires
        0 <= i < offers.len(),
        is_school_list(names, offers.take(i), judet),
        offers[i].judet == judet,
    ensures
        is_school_list(names.push(offers[i].liceu), offers.take(i + 1), judet),
{
    let t = offers.take(i);
    let t1 = offers.take(i + 1);
    let cur = names.push(offers[i].liceu);
    assert(forall|w: int| 0 <= w < t1.len() ==> #[trigger] t1[w] == offers[w]);
    assert(forall|w: int| 0 <= w < t.len() ==> #[trigger] t[w] == offers[w]);
    assert forall|k: int| 0 <= k < cur.len() implies name_from_offers(
        #[trigger] cur[k],
        t1,
        judet,
    ) by {
        if k < names.len() {
            assert(cur[k] == names[k]);
            let w = choose|w: int|
                0 <= w < t.len() && (#[trigger] t[w]).liceu == names[k] && t[w].judet == judet;
            assert(0 <= w < t1.len() && t1[w].liceu == cur[k] && t1[w].judet == judet);
        } else {
            assert(cur[k] == offers[i].liceu);
            assert(0 <= i < t1.len() && t1[i].liceu == cur[k] && t1[i].judet == judet);
        }
    }
    assert forall|w: int|
        0 <= w < t1.len() && (#[trigger] t1[w]).judet == judet implies cur.contains(
        t1[w].liceu,
    ) by {
        if w < i {
            assert(names.contains(t[w].liceu));
            let q = choose|q: int| 0 <= q < names.len() && names[q] == t[w].liceu;
            assert(cur[q] == t1[w].liceu);
        } else {
            assert(cur[names.len() as int] == t1[w].liceu);
        }
    }
}

/// Whether a name is already collected.
fn contains_name(names: &Vec<String>, x: &str) -> (b: bool)
    ensures
        b == string_views(names@).contains(x@),
{
    let n = names.len();
    let mut i: usize = 0;
    while i < n
        invariant
            0 <= i <= n,
            n == names@.len(),
            forall|j: int| 0 <= j < i ==> string_views(names@)[j] != x@,
        decreases n - i,
    {
        if crate::text::str_eq(names[i].as_str(), x) {
            assert(string_views(names@)[i as int] == x@);
            return true;
        }
        i += 1;
    }
    assert(!string_views(names@).contains(x@)) by {
        if string_views(names@).contains(x@) {
            let j = choose|j: int|
                0 <= j < string_views(names@).len() && string_views(names@)[j] == x@;
            assert(string_views(names@)[j] != x@);
        }
    }
    false
}

/// Inserts a name into a sorted sequence, keeping it sorted.
fn sorted_insert_name(v: &mut Vec<String>, x: String)
    requires
        names_sorted(string_views(old(v)@)),
    ensures
        names_sorted(string_views(final(v)@)),
        string_views(final(v)@).to_multiset() == string_views(old(v)@).to_multiset().insert(x@),
{
    let n = v.len();
    let mut i: usize = 0;
    while i < n && str_le(v[i].as_str(), x.as_str())
        invariant
            0 <= i <= n,
            n == v@.len(),
            *v == *old(v),
            names_sorted(string_views(v@)),
            forall|j: int| 0 <= j < i ==> lex_le(string_views(v@)[j], x@),
        decreases n - i,
    {
        i += 1;
    }
    proof {
        let vs = string_views(v@);
        if i < n {
            lemma_lex_total(x@, vs[i as int]);
            assert(lex_le(x@, vs[i as int]));
            assert forall|k: int| i <= k < n implies lex_le(x@, vs[k]) by {
                if k > i {
                    lemma_lex_le_trans(x@, vs[i as int], vs[k]);
                }
            }
        }
        let vs1 = string_views(v@.insert(i as int, x));
        assert(vs1 =~= vs.insert(i as int, x@));
        assert(names_sorted(vs1)) by {
            assert forall|a: int, b: int| 0 <= a < b < vs1.len() implies lex_le(
                vs1[a],
                vs1[b],
            ) by {
                if a < i && b == i {
                } else if a == i && b > i {
                } else if a < i && b > i {
                } else if a != i && b != i {
                }
            }
        }
    }
    v.insert(i, x);
    proof {
        assert(string_views(v@) =~= string_views(old(v)@).insert(i as int, x@));
        assert(string_views(old(v)@).insert(i as int, x@).to_multiset() =~= string_views(
            old(v)@,
        ).to_multiset().insert(x@));
    }
}

/// Sorts school names ascending.
fn sort_names(v: Vec<String>) -> (r: Vec<String>)
    ensures
        names_sorted(string_views(r@)),
        string_views(r@).to_multiset() == string_views(v@).to_multiset(),
{
    let ghost orig = string_views(v@).to_multiset();
    let mut rest = v;
    let mut out: Vec<String> = Vec::new();
    while rest.len() > 0
        invariant
            names_sorted(string_views(out@)),
            string_views(out@).to_multiset().add(string_views(rest@).to_multiset()) == orig,
        decreases rest@.len(),
    {
        let ghost pre = string_views(rest@);
        let x = match rest.pop() {
            Some(x) => x,
            None => {
                return out;
            },
        };
        proof {
            assert(string_views(rest@) =~= pre.remove(pre.len() - 1));
            assert(string_views(rest@).to_multiset() =~= pre.to_multiset().remove(x@));
        }
        sorted_insert_name(&mut out, x);
        proof {
            assert(string_views(out@).to_multiset().add(string_views(rest@).to_multiset())
                =~= orig);
        }
    }
    proof {
        assert(string_views(rest@).to_multiset().len() == 0);
        assert(string_views(out@).to_multiset() =~= orig);
    }
    out
}

impl DB {
    /// The distinct schools of a region in a year, in strictly ascending
    /// name order; an unknown year or region yields an empty sequence,
    /// not an error.
    pub fn get_schools(&self, year: i32, county: &str) -> (r: Vec<String>)
        requires
            self.wf(),
        ensures
            names_strictly_sorted(string_views(r@)),
            self.has_year(year as int) ==> is_school_list(
                string_views(r@),
                offer_views(self.year_store(year as int).specializari@),
                county@,
            ),
            !self.has_year(year as int) ==> r@.len() == 0,
    {
        let h = match self.find_year(year) {
            None => {
                return Vec::new();
            },
            Some(h) => h,
        };
        let st = self.store_at(h);
        let ghost offers = offer_views(st.specializari@);
        let n = st.specializari.len();
        let mut names: Vec<String> = Vec::new();
        let mut i: usize = 0;
        while i < n
            invariant
                0 <= i <= n,
                n == st.specializari@.len(),
                offers == offer_views(st.specializari@),
                string_views(names@).no_duplicates(),
                is_school_list(string_views(names@), offers.take(i as int), county@),
            decreases n - i,
        {
            let ghost pre = string_views(names@);
            if crate::text::str_eq(st.specializari[i].judet.as_str(), county) {
                if !contains_name(&names, st.specializari[i].liceu.as_str()) {
                    let ghost newname = st.specializari@[i as int]@.liceu;
                    names.push(st.specializari[i].liceu.clone());
                    proof {
                        assert(string_views(names@) =~= pre.push(newname));
                        assert(string_views(names@).no_duplicates()) by {
                            assert(forall|j: int| 0 <= j < pre.len() ==> pre[j] != newname);
                        }
                        lemma_school_list_push(pre, offers, i as int, county@);
                    }
                } else {
                    proof {
                        lemma_school_list_extend(pre, offers, i as int, county@);
                    }
                }
            } else {
                proof {
                    lemma_school_list_extend(pre, offers, i as int, county@);
                }
            }
            i += 1;
        }
        proof {
            assert(offers.take(n as int) =~= offers);
        }
        let ghost collected = string_views(names@);
        let sorted = sort_names(names);
        proof {
            let out = string_views(sorted@);
            assert forall|x: Seq<char>| out.contains(x) <==> collected.contains(x) by {
                assert(out.to_multiset().count(x) == collected.to_multiset().count(x));
            }
            collected.lemma_multiset_has_no_duplicates();
            out.lemma_multiset_has_no_duplicates_conv();
            assert(out.no_duplicates());
            assert(names_strictly_sorted(out)) by {
                assert forall|a: int, b: int| 0 <= a < b < out.len() implies lex_lt(
                    out[a],
                    out[b],
                ) by {
                    assert(lex_le(out[a], out[b]));
                    assert(out[a] != out[b]);
                }
            }
            assert(is_school_list(out, offers, county@)) by {
                assert forall|k: int| 0 <= k < out.len() implies name_from_offers(
                    #[trigger] out[k],
                    offers,
                    county@,
                ) by {
                    assert(out.contains(out[k]));
                    assert(collected.contains(out[k]));
                    let q = choose|q: int| 0 <= q < collected.len() && collected[q] == out[k];
                    assert(name_from_offers(collected[q], offers, county@));
                }
                assert forall|w: int|
                    0 <= w < offers.len() && (#[trigger] offers[w]).judet
                        == county@ implies out.contains(offers[w].liceu) by {
                    assert(collected.contains(offers[w].liceu));
                }
            }
        }
        sorted
    }
}

/// An offer's id and display name, as the short list carries them.
#[derive(Debug)]
pub struct SpecShort {
    pub id: i32,
    pub name: String,
}

/// Mathematical image of a short-list entry.
pub ghost struct SpecShortV {
    pub id: int,
    pub name: Seq<char>,
}

impl View for SpecShort {
    type V = SpecShortV;

    open spec fn view(&self) -> SpecShortV {
        SpecShortV { id: self.id as int, name: self.name@ }
    }
}

/// One offer's full detail: the offer and its candidates, ordered by
/// admission average descending.
pub struct FullSpec {
    pub elevi: Vec<Student>,
    pub specializare: Specializare,
}

/// A school's full detail: the short list of its offers in ascending id
/// order, and each offer's detail keyed by id.
pub struct FullSchool {
    pub specializari_short: Vec<SpecShort>,
    pub specializari: std::collections::HashMap<i32, FullSpec>,
}

/// Offers in ascending id order.
pub open spec fn offers_sorted_by_id(s: Seq<SpecializareV>) -> bool {
    forall|i: int, j: int| 0 <= i < j < s.len() ==> s[i].id <= s[j].id
}

/// Offer ids pairwise distinct.
pub open spec fn offer_ids_unique(s: Seq<SpecializareV>) -> bool {
    forall|i: int, j: int| 0 <= i < j < s.len() ==> s[i].id != s[j].id
}

/// Short-list entries in strictly ascending id order.
pub open spec fn shorts_strictly_ascending(s: Seq<SpecShort>) -> bool {
    forall|i: int, j: int| 0 <= i < j < s.len() ==> s[i]@.id < s[j]@.id
}

/// Candidates in descending admission-average order, the absence marker
/// last.
pub open spec fn students_sorted_desc(s: Seq<StudentV>) -> bool {
    forall|i: int, j: int| 0 <= i < j < s.len() ==> s[i].medie_admitere >= s[j].medie_admitere
}

/// Some offer at this school carries the entry's id and name.
pub open spec fn short_from_offers(
    sh: SpecShort,
    offers: Seq<SpecializareV>,
    judet: Seq<char>,
    school: Seq<char>,
) -> bool {
    exists|w: int|
        0 <= w < offers.len() && (#[trigger] offers[w]).id == sh@.id && offers[w].name == sh@.name
            && offers[w].judet == judet && offers[w].liceu == school
}

/// The short list carries this id.
pub open spec fn short_ids_contain(shorts: Seq<SpecShort>, id: int) -> bool {
    exists|k: int| 0 <= k < shorts.len() && (#[trigger] shorts[k])@.id == id
}

/// Membership test for one offer's candidates.
pub open spec fn offer_student_pred(judet: Seq<char>, id: int) -> spec_fn(StudentV) -> bool {
    |t: StudentV| t.judet == judet && t.id_specializare == id
}

/// The candidates of one offer, as stored.
pub open spec fn students_of_offer(
    students: Seq<StudentV>,
    judet: Seq<char>,
    id: int,
) -> Seq<StudentV> {
    students.filter(offer_student_pred(judet, id))
}

/// Membership test for one school's offers.
pub open spec fn school_offer_pred(
    judet: Seq<char>,
    school: Seq<char>,
) -> spec_fn(SpecializareV) -> bool {
    |o: SpecializareV| o.judet == judet && o.liceu == school
}

/// One offer-detail entry is exact: its offer is the region's offer with
/// that id, its candidates are exactly the offer's candidates, ordered by
/// admission average descending.
pub open spec fn full_spec_ok(
    fs: FullSpec,
    offers: Seq<SpecializareV>,
    students: Seq<StudentV>,
    judet: Seq<char>,
    id: int,
) -> bool {
    &&& offers.contains(fs.specializare@)
    &&& fs.specializare@.judet == judet
    &&& fs.specializare@.id == id
    &&& students_sorted_desc(student_views(fs.elevi@))
    &&& student_views(fs.elevi@).to_multiset() == students_of_offer(
        students,
        judet,
        id,
    ).to_multiset()
}

/// The whole result of a school query is exact against the year's store.
pub open spec fn full_school_ok(
    r: FullSchool,
    offers: Seq<SpecializareV>,
    students: Seq<StudentV>,
    judet: Seq<char>,
    school: Seq<char>,
) -> bool {
    let shorts = r.specializari_short@;
    &&& forall|k: int|
        0 <= k < shorts.len() ==> short_from_offers(#[trigger] shorts[k], offers, judet, school)
    &&& forall|w: int|
        0 <= w < offers.len() && (#[trigger] offers[w]).judet == judet && offers[w].liceu
            == school ==> short_ids_contain(shorts, offers[w].id)
    &&& forall|id: i32|
        #[trigger] r.specializari@.contains_key(id) <==> short_ids_contain(shorts, id as int)
    &&& forall|id: i32|
        #[trigger] r.specializari@.contains_key(id) ==> full_spec_ok(
            r.specializari@[id],
            offers,
            students,
            judet,
            id as int,
        )
}

/// Inserts an offer with a fresh id into an id-sorted sequence.
fn sorted_insert_spec(v: &mut Vec<Specializare>, sp: Specializare)
    requires
        offers_sorted_by_id(offer_views(old(v)@)),
        offer_ids_unique(offer_views(old(v)@)),
        forall|q: int| 0 <= q < old(v)@.len() ==> offer_views(old(v)@)[q].id != sp@.id,
    ensures
        offers_sorted_by_id(offer_views(final(v)@)),
        offer_ids_unique(offer_views(final(v)@)),
        offer_views(final(v)@).to_multiset() == offer_views(old(v)@).to_multiset().insert(sp@),
        final(v)@.len() == old(v)@.len() + 1,
        forall|q: int|
            0 <= q < final(v)@.len() ==> (#[trigger] offer_views(final(v)@)[q]).id == sp@.id
                || exists|w: int|
                0 <= w < old(v)@.len() && offer_views(old(v)@)[w] == offer_views(final(v)@)[q],
    {
    let n = v.len();
    let mut i: usize = 0;
    while i < n && v[i].id <= sp.id
        invariant
            0 <= i <= n,
            n == v@.len(),
            *v == *old(v),
            forall|j: int| 0 <= j < i ==> offer_views(v@)[j].id <= sp@.id,
        decreases n - i,
    {
        i += 1;
    }
    proof {
        let vs = offer_views(v@);
        if i < n {
            assert(vs[i as int].id > sp@.id);
            assert forall|k: int| i <= k < n implies vs[k].id > sp@.id by {
                if k > i {
                    assert(vs[i as int].id <= vs[k].id);
                }
            }
        }
        let vs1 = offer_views(v@.insert(i as int, sp));
        assert(vs1 =~= vs.insert(i as int, sp@));
    }
    v.insert(i, sp);
    proof {
        assert(offer_views(v@) =~= offer_views(old(v)@).insert(i as int, sp@));
        assert(offer_views(old(v)@).insert(i as int, sp@).to_multiset() =~= offer_views(
            old(v)@,
        ).to_multiset().insert(sp@));
        let vs = offer_views(old(v)@);
        let vs1 = offer_views(v@);
        assert(offers_sorted_by_id(vs1)) by {
            assert forall|a: int, b: int| 0 <= a < b < vs1.len() implies vs1[a].id
                <= vs1[b].id by {
                if a < i && b == i {
                } else if a == i && b > i {
                    assert(vs1[b] == vs[b - 1]);
                    if b - 1 > i {
                        assert(vs[i as int].id <= vs[b - 1].id);
                    }
                } else if a < i && b > i {
                } else if a != i && b != i {
                }
            }
        }
        assert(offer_ids_unique(vs1)) by {
            assert forall|a: int, b: int| 0 <= a < b < vs1.len() implies vs1[a].id
                != vs1[b].id by {
                if a == i {
                    assert(vs1[b] == vs[b - 1]);
                } else if b == i {
                    assert(vs1[a] == vs[a]);
                } else if a < i && b > i {
                    assert(vs1[a] == vs[a] && vs1[b] == vs[b - 1]);
                } else if b < i {
                    assert(vs1[a] == vs[a] && vs1[b] == vs[b]);
                } else {
                    assert(vs1[a] == vs[a - 1] && vs1[b] == vs[b - 1]);
                }
            }
        }
        assert forall|q: int| 0 <= q < vs1.len() implies vs1[q].id == sp@.id || exists|w: int|
            0 <= w < vs.len() && vs[w] == vs1[q] by {
            if q < i {
                assert(vs[q] == vs1[q]);
            } else if q > i {
                assert(vs[q - 1] == vs1[q]);
            }
        }
    }
}

/// Sorts offers by id, ascending; ids stay unique.
fn sort_specs(v: Vec<Specializare>) -> (r: Vec<Specializare>)
    requires
        offer_ids_unique(offer_views(v@)),
    ensures
        offers_sorted_by_id(offer_views(r@)),
        offer_ids_unique(offer_views(r@)),
        offer_views(r@).to_multiset() == offer_views(v@).to_multiset(),
{
    let ghost orig = offer_views(v@).to_multiset();
    let mut rest = v;
    let mut out: Vec<Specializare> = Vec::new();
    while rest.len() > 0
        invariant
            offers_sorted_by_id(offer_views(out@)),
            offer_ids_unique(offer_views(out@)),
            offer_ids_unique(offer_views(rest@)),
            forall|a: int, b: int|
                0 <= a < offer_views(out@).len() && 0 <= b < offer_views(rest@).len()
                    ==> offer_views(out@)[a].id != offer_views(rest@)[b].id,
            offer_views(out@).to_multiset().add(offer_views(rest@).to_multiset()) == orig,
        decreases rest@.len(),
    {
        let ghost pre = offer_views(rest@);
        let ghost preout = offer_views(out@);
        let sp = match rest.pop() {
            Some(sp) => sp,
            None => {
                return out;
            },
        };
        proof {
            assert(offer_views(rest@) =~= pre.remove(pre.len() - 1));
            assert(offer_views(rest@).to_multiset() =~= pre.to_multiset().remove(sp@));
            assert(forall|a: int|
                0 <= a < preout.len() ==> preout[a].id != sp@.id);
        }
        sorted_insert_spec(&mut out, sp);
        proof {
            assert(offer_views(out@).to_multiset().add(offer_views(rest@).to_multiset())
                =~= orig);
            let outs = offer_views(out@);
            let rests = offer_views(rest@);
            assert forall|a: int, b: int|
                0 <= a < outs.len() && 0 <= b < rests.len() implies outs[a].id
                != rests[b].id by {
                if outs[a].id == sp@.id {
                    assert(rests[b] == pre[b]);
                    assert(pre[b].id != pre[pre.len() - 1].id);
                } else {
                    let w = choose|w: int| 0 <= w < preout.len() && preout[w] == outs[a];
                    assert(preout[w].id != rests[b].id);
                }
            }
        }
    }
    proof {
        assert(offer_views(rest@).to_multiset().len() == 0);
        assert(offer_views(out@).to_multiset() =~= orig);
    }
    out
}

/// Inserts a candidate into a sequence sorted by admission average
/// descending.
fn sorted_insert_student(v: &mut Vec<Student>, x: Student)
    requires
        students_sorted_desc(student_views(old(v)@)),
    ensures
        students_sorted_desc(student_views(final(v)@)),
        student_views(final(v)@).to_multiset() == student_views(old(v)@).to_multiset().insert(
            x@,
        ),
{
    let n = v.len();
    let mut i: usize = 0;
    while i < n && v[i].medie_admitere >= x.medie_admitere
        invariant
            0 <= i <= n,
            n == v@.len(),
            *v == *old(v),
            forall|j: int| 0 <= j < i ==> student_views(v@)[j].medie_admitere
                >= x@.medie_admitere,
        decreases n - i,
    {
        i += 1;
    }
    proof {
        let vs = student_views(v@);
        if i < n {
            assert(vs[i as int].medie_admitere < x@.medie_admitere);
            assert forall|k: int| i <= k < n implies vs[k].medie_admitere
                < x@.medie_admitere by {
                if k > i {
                    assert(vs[i as int].medie_admitere >= vs[k].medie_admitere);
                }
            }
        }
        let vs1 = student_views(v@.insert(i as int, x));
        assert(vs1 =~= vs.insert(i as int, x@));
    }
    v.insert(i, x);
    proof {
        assert(student_views(v@) =~= student_views(old(v)@).insert(i as int, x@));
        assert(student_views(old(v)@).insert(i as int, x@).to_multiset() =~= student_views(
            old(v)@,
        ).to_multiset().insert(x@));
        let vs = student_views(old(v)@);
        let vs1 = student_views(v@);
        assert(students_sorted_desc(vs1)) by {
            assert forall|a: int, b: int| 0 <= a < b < vs1.len() implies vs1[a].medie_admitere
                >= vs1[b].medie_admitere by {
                if a < i && b == i {
                } else if a == i && b > i {
                    assert(vs1[b] == vs[b - 1]);
                } else if a < i && b > i {
                } else if a != i && b != i {
                }
            }
        }
    }
}

/// Sorts candidates by admission average, descending.
fn sort_students_desc(v: Vec<Student>) -> (r: Vec<Student>)
    ensures
        students_sorted_desc(student_views(r@)),
        student_views(r@).to_multiset() == student_views(v@).to_multiset(),
{
    let ghost orig = student_views(v@).to_multiset();
    let mut rest = v;
    let mut out: Vec<Student> = Vec::new();
    while rest.len() > 0
        invariant
            students_sorted_desc(student_views(out@)),
            student_views(out@).to_multiset().add(student_views(rest@).to_multiset()) == orig,
        decreases rest@.len(),
    {
        let ghost pre = student_views(rest@);
        let x = match rest.pop() {
            Some(x) => x,
            None => {
                return out;
            },
        };
        proof {
            assert(student_views(rest@) =~= pre.remove(pre.len() - 1));
            assert(student_views(rest@).to_multiset() =~= pre.to_multiset().remove(x@));
        }
        sorted_insert_student(&mut out, x);
        proof {
            assert(student_views(out@).to_multiset().add(student_views(rest@).to_multiset())
                =~= orig);
        }
    }
    proof {
        assert(student_views(rest@).to_multiset().len() == 0);
        assert(student_views(out@).to_multiset() =~= orig);
    }
    out
}

/// Builds one offer's detail: the offer itself and its candidates,
/// collected from the store and ordered by admission average descending.
fn build_full_spec(st: &YearStore, county: &str, sp: Specializare) -> (fs: FullSpec)
    ensures
        fs.specializare == sp,
        students_sorted_desc(student_views(fs.elevi@)),
        student_views(fs.elevi@).to_multiset() == students_of_offer(
            student_views(st.students@),
            county@,
            sp@.id,
        ).to_multiset(),
{
    let ghost svs = student_views(st.students@);
    let ghost pred = offer_student_pred(county@, sp@.id);
    let n = st.students.len();
    let mut col: Vec<Student> = Vec::new();
    assert(student_views(col@) =~= svs.take(0).filter(pred)) by {
        reveal(Seq::filter);
    }
    let mut i: usize = 0;
    while i < n
        invariant
            0 <= i <= n,
            n == st.students@.len(),
            svs == student_views(st.students@),
            pred == offer_student_pred(county@, sp@.id),
            student_views(col@) == svs.take(i as int).filter(pred),
        decreases n - i,
    {
        let ghost taken = svs.take(i as int);
        proof {
            assert(svs.take(i + 1).drop_last() =~= taken);
            assert(svs.take(i + 1).last() == svs[i as int]);
        }
        if st.students[i].id_specializare == sp.id && crate::text::str_eq(
            st.students[i].judet.as_str(),
            county,
        ) {
            let ghost prev = student_views(col@);
            col.push(st.students[i].duplicate());
            proof {
                reveal(Seq::filter);
                assert(student_views(col@) =~= prev.push(svs[i as int]));
                assert(pred(svs[i as int]));
                assert(svs.take(i + 1).filter(pred) =~= taken.filter(pred).push(
                    svs[i as int],
                ));
            }
        } else {
            proof {
                reveal(Seq::filter);
                assert(!pred(svs[i as int]));
                assert(svs.take(i + 1).filter(pred) =~= taken.filter(pred));
            }
        }
        i += 1;
    }
    proof {
        assert(svs.take(n as int) =~= svs);
    }
    let elevi = sort_students_desc(col);
    FullSpec { elevi, specializare: sp }
}

impl DB {
    /// A school's full detail in a year: the short list of its offers in
    /// strictly ascending id order — every listed id having its entry in
    /// the detail mapping — and, per offer, the offer and its candidates
    /// ordered by admission average descending. An unknown year, region
    /// or school yields empty containers, not an error.
    pub fn get_full_school(&self, year: i32, county: &str, school: &str) -> (r: FullSchool)
        requires
            self.wf(),
        ensures
            shorts_strictly_ascending(r.specializari_short@),
            forall|k: int|
                0 <= k < r.specializari_short@.len() ==> r.specializari@.contains_key(
                    (#[trigger] r.specializari_short@[k]).id,
                ),
            !self.has_year(year as int) ==> r.specializari_short@.len() == 0 && (forall|id: i32|
                !r.specializari@.contains_key(id)),
            self.has_year(year as int) ==> full_school_ok(
                r,
                offer_views(self.year_store(year as int).specializari@),
                student_views(self.year_store(year as int).students@),
                county@,
                school@,
            ),
    {
        broadcast use vstd::std_specs::hash::group_hash_axioms;

        let h = match self.find_year(year) {
            None => {
                let r = FullSchool {
                    specializari_short: Vec::new(),
                    specializari: std::collections::HashMap::new(),
                };
                assert(forall|id: i32| !r.specializari@.contains_key(id)) by {
                    assert(r.specializari@ =~= Map::<i32, FullSpec>::empty());
                }
                return r;
            },
            Some(h) => h,
        };
        let st = self.store_at(h);
        let ghost offers = offer_views(st.specializari@);
        let ghost students = student_views(st.students@);
        let ghost opred = school_offer_pred(county@, school@);
        // Collect the school's offers, in store order.
        let n = st.specializari.len();
        let mut specs: Vec<Specializare> = Vec::new();
        assert(offer_views(specs@) =~= offers.take(0).filter(opred)) by {
            reveal(Seq::filter);
        }
        let mut i: usize = 0;
        while i < n
            invariant
                0 <= i <= n,
                n == st.specializari@.len(),
                offers == offer_views(st.specializari@),
                offer_keys_unique_of(offers),
                opred == school_offer_pred(county@, school@),
                offer_views(specs@) == offers.take(i as int).filter(opred),
                forall|q: int|
                    0 <= q < offer_views(specs@).len() ==> (#[trigger] offer_views(specs@)[q]).judet
                        == county@ && offer_views(specs@)[q].liceu == school@,
                forall|q: int|
                    0 <= q < offer_views(specs@).len() ==> exists|w: int|
                        0 <= w < i && offers[w] == (#[trigger] offer_views(specs@)[q]),
                offer_ids_unique(offer_views(specs@)),
            decreases n - i,
        {
            let ghost taken = offers.take(i as int);
            proof {
                assert(offers.take(i + 1).drop_last() =~= taken);
                assert(offers.take(i + 1).last() == offers[i as int]);
            }
            if crate::text::str_eq(st.specializari[i].judet.as_str(), county) && crate::text::str_eq(
                st.specializari[i].liceu.as_str(),
                school,
            ) {
                let ghost prev = offer_views(specs@);
                specs.push(st.specializari[i].duplicate());
                proof {
                    reveal(Seq::filter);
                    assert(offer_views(specs@) =~= prev.push(offers[i as int]));
                    assert(opred(offers[i as int]));
                    assert(offers.take(i + 1).filter(opred) =~= taken.filter(opred).push(
                        offers[i as int],
                    ));
                    let cur = offer_views(specs@);
                    assert forall|q: int| 0 <= q < cur.len() implies exists|w: int|
                        0 <= w < i + 1 && offers[w] == (#[trigger] cur[q]) by {
                        if q < prev.len() {
                            let w = choose|w: int|
                                0 <= w < i && offers[w] == (#[trigger] prev[q]);
                            assert(offers[w] == cur[q]);
                        } else {
                            assert(offers[i as int] == cur[q]);
                        }
                    }
                    assert(offer_ids_unique(cur)) by {
                        assert forall|a: int, b: int| 0 <= a < b < cur.len() implies cur[a].id
                            != cur[b].id by {
                            if b == cur.len() - 1 {
                                let w = choose|w: int|
                                    0 <= w < i && offers[w] == (#[trigger] prev[a]);
                                if cur[a].id == cur[b].id {
                                    assert(offers[w].judet == offers[i as int].judet
                                        && offers[w].id == offers[i as int].id);
                                }
                            }
                        }
                    }
                }
            } else {
                proof {
                    reveal(Seq::filter);
                    assert(!opred(offers[i as int]));
                    assert(offers.take(i + 1).filter(opred) =~= taken.filter(opred));
                }
            }
            i += 1;
        }
        proof {
            assert(offers.take(n as int) =~= offers);
        }
        let ghost collected = offer_views(specs@);
        let sorted = sort_specs(specs);
        let ghost sv = offer_views(sorted@);
        proof {
            assert forall|x: SpecializareV| sv.contains(x) <==> collected.contains(x) by {
                assert(sv.to_multiset().count(x) == collected.to_multiset().count(x));
            }
            assert forall|x: SpecializareV| sv.contains(x) implies #[trigger] offers.contains(
                x,
            ) by {
                assert(collected.contains(x));
                let q = choose|q: int| 0 <= q < collected.len() && collected[q] == x;
                let w = choose|w: int| 0 <= w < n && offers[w] == (#[trigger] collected[q]);
                assert(offers[w] == x);
            }
            assert forall|q: int| 0 <= q < sv.len() implies (#[trigger] sv[q]).judet == county@
                && sv[q].liceu == school@ by {
                assert(sv.contains(sv[q]));
                assert(collected.contains(sv[q]));
                let w = choose|w: int| 0 <= w < collected.len() && collected[w] == sv[q];
                assert(collected[w].judet == county@ && collected[w].liceu == school@);
            }
        }
        // Build the short list and the detail mapping in id order.
        let m = sorted.len();
        let mut shorts: Vec<SpecShort> = Vec::new();
        let mut detail: std::collections::HashMap<i32, FullSpec> =
            std::collections::HashMap::new();
        assert(detail@ =~= Map::<i32, FullSpec>::empty());
        let mut k: usize = 0;
        while k < m
            invariant
                0 <= k <= m,
                m == sorted@.len(),
                sv == offer_views(sorted@),
                offers == offer_views(st.specializari@),
                students == student_views(st.students@),
                offers_sorted_by_id(sv),
                offer_ids_unique(sv),
                forall|x: SpecializareV| sv.contains(x) ==> #[trigger] offers.contains(x),
                forall|q: int|
                    0 <= q < sv.len() ==> (#[trigger] sv[q]).judet == county@ && sv[q].liceu
                        == school@,
                shorts@.len() == k,
                forall|q: int|
                    0 <= q < k ==> (#[trigger] shorts@[q])@.id == sv[q].id && shorts@[q]@.name
                        == sv[q].name,
                forall|id: i32|
                    #[trigger] detail@.contains_key(id) <==> short_ids_contain(
                        shorts@,
                        id as int,
                    ),
                forall|id: i32|
                    #[trigger] detail@.contains_key(id) ==> full_spec_ok(
                        detail@[id],
                        offers,
                        students,
                        county@,
                        id as int,
                    ),
            decreases m - k,
        {
            broadcast use vstd::std_specs::hash::group_hash_axioms;

            let ghost prevshorts = shorts@;
            let sp = sorted[k].duplicate();
            let sid = sp.id;
            shorts.push(SpecShort { id: sp.id, name: sp.name.clone() });
            let fs = build_full_spec(st, county, sp);
            proof {
                assert(sv.contains(sv[k as int]));
                assert(offers.contains(sv[k as int]));
            }
            detail.insert(sid, fs);
            proof {
                assert(shorts@ =~= prevshorts.push(shorts@[k as int]));
                assert forall|id: i32| #[trigger] detail@.contains_key(id)
                    <==> short_ids_contain(shorts@, id as int) by {
                    if id == sid {
                        assert(shorts@[k as int]@.id == id as int);
                    } else {
                        if short_ids_contain(shorts@, id as int) {
                            let q = choose|q: int|
                                0 <= q < shorts@.len() && (#[trigger] shorts@[q])@.id
                                    == id as int;
                            assert(q < k);
                            assert(short_ids_contain(prevshorts, id as int));
                        }
                        if short_ids_contain(prevshorts, id as int) {
                            let q = choose|q: int|
                                0 <= q < prevshorts.len() && (#[trigger] prevshorts[q])@.id
                                    == id as int;
                            assert(shorts@[q]@.id == id as int);
                        }
                    }
                }
            }
            k += 1;
        }
        let r = FullSchool { specializari_short: shorts, specializari: detail };
        proof {
            assert(shorts_strictly_ascending(r.specializari_short@)) by {
                assert forall|a: int, b: int|
                    0 <= a < b < r.specializari_short@.len() implies r.specializari_short@[a]@.id
                    < r.specializari_short@[b]@.id by {
                    assert(sv[a].id <= sv[b].id);
                    assert(sv[a].id != sv[b].id);
                }
            }
            assert forall|q: int|
                0 <= q < r.specializari_short@.len() implies r.specializari@.contains_key(
                (#[trigger] r.specializari_short@[q]).id,
            ) by {
                assert(short_ids_contain(r.specializari_short@, r.specializari_short@[q]@.id));
            }
            assert(full_school_ok(r, offers, students, county@, school@)) by {
                assert forall|q: int| 0 <= q < r.specializari_short@.len() implies
                    short_from_offers(
                    #[trigger] r.specializari_short@[q],
                    offers,
                    county@,
                    school@,
                ) by {
                    assert(sv.contains(sv[q]));
                    assert(collected.contains(sv[q]));
                    let w = choose|w: int| 0 <= w < offers.len() && offers[w] == sv[q];
                    assert(offers[w].id == r.specializari_short@[q]@.id && offers[w].name
                        == r.specializari_short@[q]@.name && offers[w].judet == county@
                        && offers[w].liceu == school@);
                }
                assert forall|w: int|
                    0 <= w < offers.len() && (#[trigger] offers[w]).judet == county@
                        && offers[w].liceu == school@ implies short_ids_contain(
                    r.specializari_short@,
                    offers[w].id,
                ) by {
                    assert(offers.take(n as int) =~= offers);
                    assert(collected.contains(offers[w]));
                    assert(sv.contains(offers[w]));
                    let q = choose|q: int| 0 <= q < sv.len() && sv[q] == offers[w];
                    assert(r.specializari_short@[q]@.id == offers[w].id);
                }
            }
        }
        r
    }
}

/// Offer `(region, id)` keys pairwise distinct — the store invariant,
/// restated for a view sequence.
pub open spec fn offer_keys_unique_of(s: Seq<SpecializareV>) -> bool {
    crate::store::offer_keys_unique(s)
}

} // verus!
