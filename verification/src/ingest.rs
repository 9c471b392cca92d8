use vstd::prelude::*;

use crate::county::{anchors_of, counties_of, county_selector, get_all, County, CountyV};
use crate::dbmgr::DB;
use crate::error::IngestError;
use crate::store::{county_views, merge_counties};

verus! {

/// The region set a year's store holds before this ingestion touches it:
/// what was already cached for the year, or nothing.
pub open spec fn base_counties(db: DB, year: int) -> Seq<CountyV> {
    if db.has_year(year) {
        county_views(db.year_store(year).counties@)
    } else {
        Seq::empty()
    }
}

/// The sequential opening of a year's ingestion: resolve the year's store
/// handle (creating the store when the year has none), and — when the
/// index page was fetched — extract its regions and insert them all,
/// idempotently. `index_html` is `None` when the index fetch did not
/// return a success status: that is fatal to the whole year, and the
/// store is left exactly as it was found (empty when fresh).
pub fn ingest_regions(db: &mut DB, year: i32, index_html: Option<&str>) -> (r: Result<
    (usize, Vec<County>),
    IngestError,
>)
    requires
        old(db).wf(),
    ensures
        final(db).wf(),
        final(db).has_year(year as int),
        match r {
            Ok((h, counties)) => {
                let html = index_html->Some_0;
                let rows = counties_of(html@);
                &&& index_html is Some
                &&& counties@.len() == rows.len()
                &&& forall|i: int|
                    0 <= i < counties@.len() ==> (#[trigger] counties@[i])@.id == i
                        && counties@[i]@.code == rows[i].0 && counties@[i]@.name == rows[i].1
                &&& h < final(db).stores@.len()
                &&& final(db).stores@[h as int].0 == year
                &&& county_views(final(db).stores@[h as int].1.counties@) == merge_counties(
                    base_counties(*old(db), year as int),
                    county_views(counties@),
                )
            },
            Err(e) => {
                &&& (index_html is None <==> e == IngestError::SourceUnavailable)
                &&& (index_html is Some ==> e == IngestError::MalformedPayload && anchors_of(
                    index_html->Some_0@,
                    county_selector(),
                ).len() > i32::MAX)
                &&& county_views(final(db).year_store(year as int).counties@) == base_counties(
                    *old(db),
                    year as int,
                )
            },
        },
{
    let ghost base = base_counties(*old(db), year as int);
    let h = match db.get_year_pool(year, true) {
        Ok(h) => h,
        Err(e) => {
            proof {
                assert(false);
            }
            return Err(e);
        },
    };
    proof {
        if old(db).has_year(year as int) {
            assert(*db == *old(db));
        } else {
            assert(county_views(db.stores@[h as int].1.counties@) =~= Seq::<CountyV>::empty());
        }
        assert(county_views(db.stores@[h as int].1.counties@) == base);
        assert(db.year_index(year as int) == h as int);
    }
    let html = match index_html {
        Some(html) => html,
        None => {
            return Err(IngestError::SourceUnavailable);
        },
    };
    let counties = match get_all(html) {
        Some(counties) => counties,
        None => {
            return Err(IngestError::MalformedPayload);
        },
    };
    db.insert_counties(h, &counties);
    proof {
        assert(db.year_index(year as int) == h as int) by {
            assert(db.stores@[h as int].0 == year);
            let w = db.year_index(year as int);
            assert(0 <= w < db.stores@.len() && db.stores@[w].0 == year);
            if w != h as int {
                assert(db.stores@[w].0 == db.stores@[h as int].0);
            }
        }
    }
    Ok((h, counties))
}

} // verus!
