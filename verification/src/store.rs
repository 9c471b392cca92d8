use vstd::prelude::*;

use crate::county::{County, CountyV};
use crate::error::IngestError;
use crate::specializare::{
    spec_nerepartizat,
    spec_normalize_offer,
    RawSpecializare,
    Specializare,
    SpecializareV,
};
use crate::student::{spec_normalize_student, RawStudent, Student, StudentV};

verus! {

/// Views of a sequence of regions.
pub open spec fn county_views(s: Seq<County>) -> Seq<CountyV> {
    s.map_values(|c: County| c@)
}

/// Views of a sequence of offers.
pub open spec fn offer_views(s: Seq<Specializare>) -> Seq<SpecializareV> {
    s.map_values(|x: Specializare| x@)
}

/// Views of a sequence of candidates.
pub open spec fn student_views(s: Seq<Student>) -> Seq<StudentV> {
    s.map_values(|x: Student| x@)
}

/// A region with the given code is present.
pub open spec fn contains_code(s: Seq<CountyV>, code: Seq<char>) -> bool {
    exists|i: int| 0 <= i < s.len() && #[trigger] s[i].code == code
}

/// An offer with the given `(region, id)` key is present.
pub open spec fn contains_offer_key(s: Seq<SpecializareV>, judet: Seq<char>, id: int) -> bool {
    exists|i: int| 0 <= i < s.len() && #[trigger] s[i].judet == judet && s[i].id == id
}

/// A candidate with the given `(region, external id)` key is present.
pub open spec fn contains_student_key(s: Seq<StudentV>, judet: Seq<char>, id: Seq<char>) -> bool {
    exists|i: int| 0 <= i < s.len() && #[trigger] s[i].judet == judet && s[i].id == id
}

/// Region codes are pairwise distinct.
pub open spec fn county_codes_unique(s: Seq<CountyV>) -> bool {
    forall|i: int, j: int| 0 <= i < j < s.len() ==> s[i].code != s[j].code
}

/// Offer `(region, id)` keys are pairwise distinct.
pub open spec fn offer_keys_unique(s: Seq<SpecializareV>) -> bool {
    forall|i: int, j: int|
        0 <= i < j < s.len() ==> !(s[i].judet == s[j].judet && s[i].id == s[j].id)
}

/// Candidate `(region, external id)` keys are pairwise distinct.
pub open spec fn student_keys_unique(s: Seq<StudentV>) -> bool {
    forall|i: int, j: int|
        0 <= i < j < s.len() ==> !(s[i].judet == s[j].judet && s[i].id == s[j].id)
}

/// One year's dataset: its regions, offers and candidates, in insertion
/// order. Every record is written once during ingestion and never updated.
pub struct YearStore {
    pub counties: Vec<County>,
    pub specializari: Vec<Specializare>,
    pub students: Vec<Student>,
}

impl YearStore {
    /// The store's invariant: region codes unique, offer keys unique per
    /// region, candidate keys unique per region, region ids non-negative.
    pub open spec fn wf(self) -> bool {
        &&& county_codes_unique(county_views(self.counties@))
        &&& offer_keys_unique(offer_views(self.specializari@))
        &&& student_keys_unique(student_views(self.students@))
        &&& forall|i: int|
            0 <= i < self.counties@.len() ==> (#[trigger] self.counties@[i]).well_formed()
    }

    /// A fresh, empty store.
    pub fn new() -> (r: YearStore)
        ensures
            r.wf(),
            r.counties@.len() == 0,
            r.specializari@.len() == 0,
            r.students@.len() == 0,
    {
        YearStore { counties: Vec::new(), specializari: Vec::new(), students: Vec::new() }
    }

    /// Whether a region with this code is already stored.
    fn has_county_code(&self, code: &String) -> (b: bool)
        ensures
            b == contains_code(county_views(self.counties@), code@),
    {
        let n = self.counties.len();
        let mut i: usize = 0;
        while i < n
            invariant
                0 <= i <= n,
                n == self.counties@.len(),
                forall|j: int|
                    0 <= j < i ==> county_views(self.counties@)[j].code != code@,
            decreases n - i,
        {
            if self.counties[i].code == *code {
                assert(county_views(self.counties@)[i as int].code == code@);
                return true;
            }
            i += 1;
        }
        false
    }

    /// Inserts a region; a duplicate code is a no-op, so the operation is
    /// idempotent.
    pub fn insert_county(&mut self, c: County) -> (inserted: bool)
        requires
            old(self).wf(),
            c.well_formed(),
        ensures
            final(self).wf(),
            inserted == !contains_code(county_views(old(self).counties@), c@.code),
            inserted ==> final(self).counties@ == old(self).counties@.push(c),
            !inserted ==> final(self).counties@ == old(self).counties@,
            final(self).specializari@ == old(self).specializari@,
            final(self).students@ == old(self).students@,
    {
        if self.has_county_code(&c.code) {
            return false;
        }
        proof {
            let vs = county_views(self.counties@);
            let vs1 = county_views(self.counties@.push(c));
            assert(vs1 =~= vs.push(c@));
            assert(county_codes_unique(vs1)) by {
                assert(forall|i: int| 0 <= i < vs.len() ==> #[trigger] vs[i].code != c@.code);
            }
        }
        self.counties.push(c);
        true
    }

    /// Inserts a batch of regions in order, each one idempotently.
    pub fn insert_counties(&mut self, cs: &Vec<County>)
        requires
            old(self).wf(),
            forall|i: int| 0 <= i < cs@.len() ==> (#[trigger] cs@[i]).well_formed(),
        ensures
            final(self).wf(),
            county_views(final(self).counties@) == merge_counties(
                county_views(old(self).counties@),
                county_views(cs@),
            ),
            final(self).specializari@ == old(self).specializari@,
            final(self).students@ == old(self).students@,
    {
        let n = cs.len();
        let mut k: usize = 0;
        while k < n
            invariant
                0 <= k <= n,
                n == cs@.len(),
                self.wf(),
                forall|i: int| 0 <= i < cs@.len() ==> (#[trigger] cs@[i]).well_formed(),
                county_views(self.counties@) == merge_counties(
                    county_views(old(self).counties@),
                    county_views(cs@.take(k as int)),
                ),
                self.specializari@ == old(self).specializari@,
                self.students@ == old(self).students@,
            decreases n - k,
        {
            let ghost pre = county_views(self.counties@);
            let ghost taken = county_views(cs@.take(k as int));
            let c = cs[k].duplicate();
            assert(c@ == cs@[k as int]@);
            assert(c.well_formed());
            let inserted = self.insert_county(c);
            proof {
                let taken1 = county_views(cs@.take(k + 1));
                assert(cs@.take(k + 1).drop_last() =~= cs@.take(k as int));
                assert(taken1.drop_last() =~= taken) by {
                    assert(taken1 =~= county_views(cs@.take(k as int)).push(cs@[k as int]@));
                }
                assert(taken1.last() == cs@[k as int]@);
                if inserted {
                    assert(county_views(self.counties@) =~= pre.push(cs@[k as int]@));
                }
                assert(county_views(self.counties@) == merge_counties(
                    county_views(old(self).counties@),
                    taken1,
                ));
            }
            k += 1;
        }
        proof {
            assert(cs@.take(n as int) =~= cs@);
        }
    }
}

/// Views of a sequence of raw offer records.
pub open spec fn raw_offer_views(s: Seq<RawSpecializare>) -> Seq<
    crate::specializare::RawSpecializareV,
> {
    s.map_values(|r: RawSpecializare| r@)
}

/// Views of a sequence of raw candidate records.
pub open spec fn raw_student_views(s: Seq<RawStudent>) -> Seq<crate::student::RawStudentV> {
    s.map_values(|r: RawStudent| r@)
}

/// Normalization of a whole offer feed: all records or none.
pub open spec fn normalize_offer_batch(rs: Seq<crate::specializare::RawSpecializareV>) -> Option<
    Seq<SpecializareV>,
>
    decreases rs.len(),
{
    if rs.len() == 0 {
        Some(Seq::empty())
    } else {
        match (normalize_offer_batch(rs.drop_last()), spec_normalize_offer(rs.last())) {
            (Some(b), Some(x)) => Some(b.push(x)),
            _ => None,
        }
    }
}

/// Normalization of a whole candidate feed: all records or none.
pub open spec fn normalize_student_batch(
    rs: Seq<crate::student::RawStudentV>,
    county_id: int,
) -> Option<Seq<StudentV>>
    decreases rs.len(),
{
    if rs.len() == 0 {
        Some(Seq::empty())
    } else {
        match (
            normalize_student_batch(rs.drop_last(), county_id),
            spec_normalize_student(rs.last(), county_id),
        ) {
            (Some(b), Some(x)) => Some(b.push(x)),
            _ => None,
        }
    }
}

/// One unnormalizable record spoils the whole offer feed.
proof fn lemma_offer_batch_none(rs: Seq<crate::specializare::RawSpecializareV>, k: int)
    requires
        0 <= k < rs.len(),
        spec_normalize_offer(rs[k]) is None,
    ensures
        normalize_offer_batch(rs) is None,
    decreases rs.len(),
{
    if k < rs.len() - 1 {
        lemma_offer_batch_none(rs.drop_last(), k);
    }
}

/// One unnormalizable record spoils the whole candidate feed.
proof fn lemma_student_batch_none(rs: Seq<crate::student::RawStudentV>, county_id: int, k: int)
    requires
        0 <= k < rs.len(),
        spec_normalize_student(rs[k], county_id) is None,
    ensures
        normalize_student_batch(rs, county_id) is None,
    decreases rs.len(),
{
    if k < rs.len() - 1 {
        lemma_student_batch_none(rs.drop_last(), county_id, k);
    }
}

/// The candidate batch can be committed: no key collides with the store,
/// none repeats within the batch.
pub open spec fn students_batch_ok(s: Seq<StudentV>, b: Seq<StudentV>) -> bool {
    &&& forall|i: int|
        0 <= i < b.len() ==> !contains_student_key(s, (#[trigger] b[i]).judet, b[i].id)
    &&& student_keys_unique(b)
}

impl YearStore {
    /// Whether an offer with this `(region, id)` key is already stored.
    fn has_offer_key(&self, judet: &String, id: i32) -> (b: bool)
        ensures
            b == contains_offer_key(offer_views(self.specializari@), judet@, id as int),
    {
        let n = self.specializari.len();
        let mut i: usize = 0;
        while i < n
            invariant
                0 <= i <= n,
                n == self.specializari@.len(),
                forall|j: int|
                    0 <= j < i ==> !(offer_views(self.specializari@)[j].judet == judet@
                        && offer_views(self.specializari@)[j].id == id as int),
            decreases n - i,
        {
            if self.specializari[i].id == id && self.specializari[i].judet == *judet {
                assert(offer_views(self.specializari@)[i as int].judet == judet@);
                return true;
            }
            i += 1;
        }
        false
    }

    /// Whether a candidate with this `(region, external id)` key is
    /// already stored.
    fn has_student_key(&self, judet: &String, id: &String) -> (b: bool)
        ensures
            b == contains_student_key(student_views(self.students@), judet@, id@),
    {
        let n = self.students.len();
        let mut i: usize = 0;
        while i < n
            invariant
                0 <= i <= n,
                n == self.students@.len(),
                forall|j: int|
                    0 <= j < i ==> !(student_views(self.students@)[j].judet == judet@
                        && student_views(self.students@)[j].id == id@),
            decreases n - i,
        {
            if self.students[i].judet == *judet && self.students[i].id == *id {
                assert(student_views(self.students@)[i as int].judet == judet@);
                return true;
            }
            i += 1;
        }
        false
    }

    /// Inserts one offer; a duplicate `(region, id)` key is a no-op, for
    /// the caller to log and carry on.
    pub fn insert_specializare(&mut self, sp: Specializare) -> (inserted: bool)
        requires
            old(self).wf(),
        ensures
            final(self).wf(),
            inserted == !contains_offer_key(
                offer_views(old(self).specializari@),
                sp@.judet,
                sp@.id,
            ),
            inserted ==> final(self).specializari@ == old(self).specializari@.push(sp),
            !inserted ==> final(self).specializari@ == old(self).specializari@,
            final(self).counties@ == old(self).counties@,
            final(self).students@ == old(self).students@,
    {
        if self.has_offer_key(&sp.judet, sp.id) {
            return false;
        }
        proof {
            let vs = offer_views(self.specializari@);
            let vs1 = offer_views(self.specializari@.push(sp));
            assert(vs1 =~= vs.push(sp@));
            assert(offer_keys_unique(vs1)) by {
                assert(forall|i: int|
                    0 <= i < vs.len() ==> !((#[trigger] vs[i]).judet == sp@.judet && vs[i].id
                        == sp@.id));
            }
        }
        self.specializari.push(sp);
        true
    }

    /// Inserts one already-normalized candidate; a duplicate
    /// `(region, external id)` key is a no-op. This is the load path for
    /// records that an earlier ingestion persisted.
    pub fn insert_student(&mut self, st: Student) -> (inserted: bool)
        requires
            old(self).wf(),
        ensures
            final(self).wf(),
            inserted == !contains_student_key(
                student_views(old(self).students@),
                st@.judet,
                st@.id,
            ),
            inserted ==> final(self).students@ == old(self).students@.push(st),
            !inserted ==> final(self).students@ == old(self).students@,
            final(self).counties@ == old(self).counties@,
            final(self).specializari@ == old(self).specializari@,
    {
        if self.has_student_key(&st.judet, &st.id) {
            return false;
        }
        proof {
            let vs = student_views(self.students@);
            let vs1 = student_views(self.students@.push(st));
            assert(vs1 =~= vs.push(st@));
            assert(student_keys_unique(vs1)) by {
                assert(forall|i: int|
                    0 <= i < vs.len() ==> !((#[trigger] vs[i]).judet == st@.judet && vs[i].id
                        == st@.id));
            }
        }
        self.students.push(st);
        true
    }

    /// One region's offer phase: inserts the synthetic unassigned offer,
    /// normalizes the fetched feed, and inserts each offer, skipping
    /// duplicates. Returns the ids of the skipped offers — the operation's
    /// log. A feed record whose mandatory numeric fields do not parse
    /// aborts the phase after the synthetic insert, before any real offer
    /// is written.
    pub fn insert_specializari(&mut self, county: &County, raws: &Vec<RawSpecializare>) -> (r:
        Result<Vec<i32>, IngestError>)
        requires
            old(self).wf(),
            county.well_formed(),
        ensures
            final(self).wf(),
            final(self).counties@ == old(self).counties@,
            final(self).students@ == old(self).students@,
            match r {
                Ok(skipped) => {
                    let b = normalize_offer_batch(raw_offer_views(raws@));
                    &&& b is Some
                    &&& offer_views(final(self).specializari@) == merge_offers(
                        offer_views(old(self).specializari@),
                        seq![spec_nerepartizat(county@)] + b->Some_0,
                    )
                    &&& final(self).specializari@.len() + skipped@.len() == old(
                        self,
                    ).specializari@.len() + 1 + b->Some_0.len()
                },
                Err(e) => {
                    &&& e == IngestError::MalformedPayload
                    &&& normalize_offer_batch(raw_offer_views(raws@)) is None
                    &&& offer_views(final(self).specializari@) == merge_offers(
                        offer_views(old(self).specializari@),
                        seq![spec_nerepartizat(county@)],
                    )
                },
            },
    {
        let ghost old_offers = offer_views(old(self).specializari@);
        let mut skipped: Vec<i32> = Vec::new();
        let nerep = Specializare::nerepartizat(county);
        let ghost nseq = seq![spec_nerepartizat(county@)];
        let nid = nerep.id;
        let inserted = self.insert_specializare(nerep);
        if !inserted {
            skipped.push(nid);
        }
        proof {
            assert(nseq.drop_last() =~= Seq::<SpecializareV>::empty());
            assert(merge_offers(old_offers, nseq.drop_last()) == old_offers);
            assert(offer_views(self.specializari@) == merge_offers(old_offers, nseq));
            assert(self.specializari@.len() + skipped@.len() == old(self).specializari@.len()
                + 1);
        }
        // Normalize the whole feed before touching the real offers.
        let rn = raws.len();
        let mut batch: Vec<Specializare> = Vec::new();
        let mut k: usize = 0;
        while k < rn
            invariant
                0 <= k <= rn,
                rn == raws@.len(),
                self.wf(),
                old_offers == offer_views(old(self).specializari@),
                nseq == seq![spec_nerepartizat(county@)],
                self.counties@ == old(self).counties@,
                self.students@ == old(self).students@,
                offer_views(self.specializari@) == merge_offers(old_offers, nseq),
                self.specializari@.len() + skipped@.len() == old(self).specializari@.len() + 1,
                normalize_offer_batch(raw_offer_views(raws@.take(k as int))) == Some(
                    offer_views(batch@),
                ),
            decreases rn - k,
        {
            let ghost taken = raw_offer_views(raws@.take(k as int));
            match Specializare::from_raw(&raws[k]) {
                Ok(sp) => {
                    proof {
                        let taken1 = raw_offer_views(raws@.take(k + 1));
                        assert(taken1.drop_last() =~= taken) by {
                            assert(raws@.take(k + 1).drop_last() =~= raws@.take(k as int));
                        }
                        assert(taken1.last() == raws@[k as int]@);
                        assert(offer_views(batch@.push(sp)) =~= offer_views(batch@).push(sp@));
                    }
                    batch.push(sp);
                },
                Err(e) => {
                    proof {
                        let all = raw_offer_views(raws@);
                        assert(all[k as int] == raws@[k as int]@);
                        lemma_offer_batch_none(all, k as int);
                    }
                    return Err(e);
                },
            }
            k += 1;
        }
        assert(raws@.take(rn as int) =~= raws@);
        let ghost b = offer_views(batch@);
        // Insert the batch, skipping duplicate keys.
        let bn = batch.len();
        let mut j: usize = 0;
        while j < bn
            invariant
                0 <= j <= bn,
                bn == batch@.len(),
                self.wf(),
                b == offer_views(batch@),
                old_offers == offer_views(old(self).specializari@),
                nseq == seq![spec_nerepartizat(county@)],
                normalize_offer_batch(raw_offer_views(raws@)) == Some(b),
                self.counties@ == old(self).counties@,
                self.students@ == old(self).students@,
                offer_views(self.specializari@) == merge_offers(old_offers, nseq + b.take(
                    j as int,
                )),
                self.specializari@.len() + skipped@.len() == old(self).specializari@.len() + 1
                    + j,
            decreases bn - j,
        {
            let ghost pre = offer_views(self.specializari@);
            let sp = batch[j].duplicate();
            let sid = sp.id;
            assert(sp@ == b[j as int]);
            let inserted = self.insert_specializare(sp);
            if !inserted {
                skipped.push(sid);
            }
            proof {
                let m1 = nseq + b.take(j + 1);
                assert(m1.drop_last() =~= nseq + b.take(j as int));
                assert(m1.last() == b[j as int]);
                if inserted {
                    assert(offer_views(self.specializari@) =~= pre.push(b[j as int]));
                }
                assert(offer_views(self.specializari@) == merge_offers(old_offers, m1));
            }
            j += 1;
        }
        assert(b.take(bn as int) =~= b);
        Ok(skipped)
    }

    /// One region's candidate phase: normalizes the fetched feed and
    /// commits every candidate, or none. A record that does not normalize
    /// is a malformed payload; a key that collides — with the store or
    /// within the batch — is a duplicate key. Either failure leaves the
    /// store untouched.
    pub fn insert_students(&mut self, county: &County, raws: &Vec<RawStudent>) -> (r: Result<
        (),
        IngestError,
    >)
        requires
            old(self).wf(),
            county.well_formed(),
        ensures
            final(self).wf(),
            final(self).counties@ == old(self).counties@,
            final(self).specializari@ == old(self).specializari@,
            match r {
                Ok(_) => {
                    let b = normalize_student_batch(raw_student_views(raws@), county@.id);
                    &&& b is Some
                    &&& students_batch_ok(student_views(old(self).students@), b->Some_0)
                    &&& student_views(final(self).students@) == student_views(
                        old(self).students@,
                    ) + b->Some_0
                },
                Err(e) => {
                    let b = normalize_student_batch(raw_student_views(raws@), county@.id);
                    &&& final(self).students@ == old(self).students@
                    &&& (e == IngestError::MalformedPayload || e == IngestError::DuplicateKey)
                    &&& (e == IngestError::MalformedPayload <==> b is None)
                    &&& (e == IngestError::DuplicateKey ==> b is Some && !students_batch_ok(
                        student_views(old(self).students@),
                        b->Some_0,
                    ))
                },
            },
    {
        let rn = raws.len();
        let mut batch: Vec<Student> = Vec::new();
        let mut k: usize = 0;
        while k < rn
            invariant
                0 <= k <= rn,
                rn == raws@.len(),
                county@.id >= 0,
                *self == *old(self),
                old(self).wf(),
                normalize_student_batch(raw_student_views(raws@.take(k as int)), county@.id)
                    == Some(student_views(batch@)),
            decreases rn - k,
        {
            let ghost taken = raw_student_views(raws@.take(k as int));
            match Student::from_raw(&raws[k], county.id) {
                Ok(st) => {
                    proof {
                        let taken1 = raw_student_views(raws@.take(k + 1));
                        assert(taken1.drop_last() =~= taken) by {
                            assert(raws@.take(k + 1).drop_last() =~= raws@.take(k as int));
                        }
                        assert(taken1.last() == raws@[k as int]@);
                        assert(student_views(batch@.push(st)) =~= student_views(batch@).push(
                            st@,
                        ));
                    }
                    batch.push(st);
                },
                Err(e) => {
                    proof {
                        let all = raw_student_views(raws@);
                        assert(all[k as int] == raws@[k as int]@);
                        lemma_student_batch_none(all, county@.id, k as int);
                    }
                    return Err(e);
                },
            }
            k += 1;
        }
        assert(raws@.take(rn as int) =~= raws@);
        let ghost b = student_views(batch@);
        let ghost sold = student_views(self.students@);
        // All keys must be fresh, against the store and within the batch.
        let bn = batch.len();
        let mut j: usize = 0;
        while j < bn
            invariant
                0 <= j <= bn,
                bn == batch@.len(),
                b == student_views(batch@),
                *self == *old(self),
                old(self).wf(),
                sold == student_views(self.students@),
                normalize_student_batch(raw_student_views(raws@), county@.id) == Some(b),
                forall|i: int|
                    0 <= i < j ==> !contains_student_key(sold, (#[trigger] b[i]).judet, b[i].id),
                forall|i1: int, i2: int|
                    0 <= i1 < i2 < j ==> !(b[i1].judet == b[i2].judet && b[i1].id == b[i2].id),
            decreases bn - j,
        {
            if self.has_student_key(&batch[j].judet, &batch[j].id) {
                assert(contains_student_key(sold, b[j as int].judet, b[j as int].id));
                return Err(IngestError::DuplicateKey);
            }
            let mut i: usize = 0;
            while i < j
                invariant
                    0 <= i <= j < bn,
                    bn == batch@.len(),
                    b == student_views(batch@),
                    *self == *old(self),
                    old(self).wf(),
                    normalize_student_batch(raw_student_views(raws@), county@.id) == Some(b),
                    forall|i1: int|
                        0 <= i1 < i ==> !(b[i1].judet == b[j as int].judet && b[i1].id
                            == b[j as int].id),
                decreases j - i,
            {
                if batch[i].judet == batch[j].judet && batch[i].id == batch[j].id {
                    assert(b[i as int].judet == b[j as int].judet && b[i as int].id
                        == b[j as int].id);
                    assert(!student_keys_unique(b));
                    return Err(IngestError::DuplicateKey);
                }
                i += 1;
            }
            j += 1;
        }
        // Commit.
        proof {
            assert(students_batch_ok(sold, b));
            let merged = sold + b;
            assert(student_views(self.students@ + batch@) =~= merged);
            assert(student_keys_unique(merged)) by {
                assert forall|i1: int, i2: int|
                    0 <= i1 < i2 < merged.len() implies !(merged[i1].judet == merged[i2].judet
                    && merged[i1].id == merged[i2].id) by {
                    if i1 < sold.len() && i2 >= sold.len() {
                        assert(merged[i2] == b[i2 - sold.len()]);
                        if merged[i1].judet == merged[i2].judet && merged[i1].id
                            == merged[i2].id {
                            assert(contains_student_key(
                                sold,
                                b[i2 - sold.len()].judet,
                                b[i2 - sold.len()].id,
                            ));
                        }
                    }
                }
            }
        }
        self.students.append(&mut batch);
        Ok(())
    }
}

/// The region set after a batch insertion: records of the batch are
/// appended in order, those whose code is already present skipped.
pub open spec fn merge_counties(s: Seq<CountyV>, cs: Seq<CountyV>) -> Seq<CountyV>
    decreases cs.len(),
{
    if cs.len() == 0 {
        s
    } else {
        let m = merge_counties(s, cs.drop_last());
        if contains_code(m, cs.last().code) {
            m
        } else {
            m.push(cs.last())
        }
    }
}

/// The offer set after a batch insertion: records of the batch are
/// appended in order, those whose `(region, id)` key is already present
/// skipped.
pub open spec fn merge_offers(s: Seq<SpecializareV>, b: Seq<SpecializareV>) -> Seq<SpecializareV>
    decreases b.len(),
{
    if b.len() == 0 {
        s
    } else {
        let m = merge_offers(s, b.drop_last());
        if contains_offer_key(m, b.last().judet, b.last().id) {
            m
        } else {
            m.push(b.last())
        }
    }
}

} // verus!
