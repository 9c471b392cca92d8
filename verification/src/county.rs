use vstd::prelude::*;

use crate::text::{strip_leading_space, strip_space, strip_suffix, strip_suffix_str};

verus! {

/// A region of one admission year: `id` is assigned sequentially during the
/// crawl of the index page (not stable across crawls), `code` is the stable
/// external identifier, `name` the title-cased display name.
#[derive(Debug)]
pub struct County {
    pub id: i32,
    pub code: String,
    pub name: String,
}

/// Mathematical image of a `County`.
pub ghost struct CountyV {
    pub id: int,
    pub code: Seq<char>,
    pub name: Seq<char>,
}

impl View for County {
    type V = CountyV;

    open spec fn view(&self) -> CountyV {
        CountyV { id: self.id as int, code: self.code@, name: self.name@ }
    }
}

impl County {
    /// Region ids are crawl indices, hence never negative; the synthetic
    /// unassigned offer relies on this to stay non-positive.
    pub open spec fn well_formed(self) -> bool {
        self.id >= 0
    }

    /// A field-for-field copy.
    pub fn duplicate(&self) -> (r: County)
        ensures
            r@ == self@,
    {
        County { id: self.id, code: self.code.clone(), name: self.name.clone() }
    }
}

/// What `titlecase::titlecase` returns for a given text.
pub uninterp spec fn title_of(s: Seq<char>) -> Seq<char>;

/// Relies on `titlecase::titlecase` (John Gruber's Title Case rules): the
/// result depends on the input text alone.
#[verifier::external_body]
fn titlecase_str(s: &str) -> (r: String)
    ensures
        r@ == title_of(s@),
{
    titlecase::titlecase(s)
}

/// View of one extracted anchor: its optional `href` and its text.
pub open spec fn anchor_view(p: (Option<String>, String)) -> (Option<Seq<char>>, Seq<char>) {
    (
        match p.0 {
            Some(h) => Some(h@),
            None => None,
        },
        p.1@,
    )
}

/// The anchors a CSS selector matches in an HTML document, in document
/// order: each element's `href` attribute and text content.
pub uninterp spec fn anchors_of(html: Seq<char>, selector: Seq<char>) -> Seq<
    (Option<Seq<char>>, Seq<char>),
>;

/// Relies on scraper's `Selector::parse`, `Html::parse_document` and
/// `Html::select`: returns, for each element the selector matches in the
/// document, in document order, its `href` attribute and its text content.
/// The matches are a function of the document and selector texts alone; a
/// selector that does not parse matches nothing.
#[verifier::external_body]
fn select_anchors(html: &str, selector: &str) -> (r: Vec<(Option<String>, String)>)
    ensures
        r@.map_values(|p: (Option<String>, String)| anchor_view(p)) == anchors_of(
            html@,
            selector@,
        ),
{
    let sel = match scraper::Selector::parse(selector) {
        Ok(sel) => sel,
        Err(_) => return Vec::new(),
    };
    let doc = scraper::Html::parse_document(html);
    doc.select(&sel).map(
        |el| (el.attr("href").map(str::to_owned), el.text().collect()),
    ).collect()
}

/// The CSS selector whose matches are the index page's region anchors.
pub open spec fn county_selector() -> Seq<char> {
    ".county .card-body"@
}

/// The `(code, name)` rows read off the region anchors: anchors without an
/// `href` are skipped; the code is the `href` with its trailing
/// `/index.html` removed; the name is the text, one leading space stripped,
/// title-cased.
pub open spec fn county_rows(anchors: Seq<(Option<Seq<char>>, Seq<char>)>) -> Seq<
    (Seq<char>, Seq<char>),
>
    decreases anchors.len(),
{
    if anchors.len() == 0 {
        Seq::empty()
    } else {
        let rest = county_rows(anchors.drop_last());
        match anchors.last().0 {
            Some(href) => rest.push(
                (
                    strip_suffix(href, "/index.html"@),
                    title_of(strip_leading_space(anchors.last().1)),
                ),
            ),
            None => rest,
        }
    }
}

/// The regions of a year's index page.
pub open spec fn counties_of(html: Seq<char>) -> Seq<(Seq<char>, Seq<char>)> {
    county_rows(anchors_of(html, county_selector()))
}

proof fn lemma_county_rows_len(anchors: Seq<(Option<Seq<char>>, Seq<char>)>)
    ensures
        county_rows(anchors).len() <= anchors.len(),
    decreases anchors.len(),
{
    if anchors.len() > 0 {
        lemma_county_rows_len(anchors.drop_last());
    }
}

/// Extracts the regions from a year's index page: one `County` per matched
/// anchor that carries an `href`, ids sequential in document order. `None`
/// only when the page yields more regions than the id type can count.
pub fn get_all(html: &str) -> (r: Option<Vec<County>>)
    ensures
        r is Some <==> anchors_of(html@, county_selector()).len() <= i32::MAX,
        r is Some ==> {
            let rows = counties_of(html@);
            let v = r->Some_0;
            &&& v@.len() == rows.len()
            &&& forall|i: int|
                0 <= i < v@.len() ==> (#[trigger] v@[i])@.id == i && v@[i]@.code == rows[i].0
                    && v@[i]@.name == rows[i].1
            &&& forall|i: int| 0 <= i < v@.len() ==> (#[trigger] v@[i]).well_formed()
        },
{
    let anchors = select_anchors(html, ".county .card-body");
    let ghost av = anchors_of(html@, county_selector());
    proof {
        assert(av == anchors@.map_values(|p: (Option<String>, String)| anchor_view(p)));
        assert(av.len() == anchors@.len());
    }
    if anchors.len() > i32::MAX as usize {
        return None;
    }
    let mut out: Vec<County> = Vec::new();
    let mut k: usize = 0;
    while k < anchors.len()
        invariant
            0 <= k <= anchors@.len(),
            anchors@.len() <= i32::MAX,
            av == anchors_of(html@, county_selector()),
            av == anchors@.map_values(|p: (Option<String>, String)| anchor_view(p)),
            av.len() == anchors@.len(),
            out@.len() == county_rows(av.take(k as int)).len(),
            out@.len() <= k,
            forall|i: int|
                0 <= i < out@.len() ==> (#[trigger] out@[i])@.id == i && out@[i]@.code
                    == county_rows(av.take(k as int))[i].0 && out@[i]@.name == county_rows(
                    av.take(k as int),
                )[i].1,
        decreases anchors@.len() - k,
    {
        let ghost prev = county_rows(av.take(k as int));
        proof {
            assert(av.take(k + 1).drop_last() =~= av.take(k as int));
            assert(av.take(k + 1).last() == av[k as int]);
            assert(av[k as int] == anchor_view(anchors@[k as int]));
        }
        match &anchors[k].0 {
            Some(href) => {
                let code = strip_suffix_str(href.as_str(), "/index.html");
                let name = titlecase_str(strip_space(anchors[k].1.as_str()).as_str());
                let id = out.len() as i32;
                out.push(County { id, code, name });
            },
            None => {},
        }
        k += 1;
    }
    proof {
        assert(av.take(k as int) =~= av);
        lemma_county_rows_len(av);
    }
    Some(out)
}

} // verus!
