//! Identifier recognition: freeform strings (as found in a
//! bibliography) to typed paper identifiers.  A string is recognized
//! either by the DOI pattern or by the catalog's paper-url pattern;
//! anything else is silently dropped.

use vstd::prelude::*;
use crate::paper::PaperId;
use crate::paper::PaperIdView;

verus! {

/// The id the DOI pattern `(?<id>10.\d{4,9}/[-._;()/:A-Z0-9]+)$`
/// captures on a haystack, if it matches at all.
pub uninterp spec fn doi_capture(s: Seq<char>) -> Option<Seq<char>>;

/// The id the catalog-url pattern
/// `^(https?://)?(www\.)?semanticscholar.org/paper/(?<id>[0-9a-f]+)$`
/// captures on a haystack, if it matches at all.
pub uninterp spec fn native_capture(s: Seq<char>) -> Option<Seq<char>>;

/// Relies on `regex::Regex::new` and `regex::Regex::captures`: whether
/// the DOI pattern matches and what its `id` group captures depend on
/// the haystack's characters alone.
#[verifier::external_body]
fn match_doi(s: &str) -> (r: Option<String>)
    ensures
        match r {
            Some(t) => doi_capture(s@) == Some(t@),
            None => doi_capture(s@) is None,
        },
{
    let re = regex::Regex::new(r"(?<id>10.\d{4,9}/[-._;()/:A-Z0-9]+)$").unwrap();
    re.captures(s).map(|caps| caps["id"].to_string())
}

/// Relies on `regex::Regex::new` and `regex::Regex::captures`: whether
/// the catalog-url pattern matches and what its `id` group captures
/// depend on the haystack's characters alone.
#[verifier::external_body]
fn match_native(s: &str) -> (r: Option<String>)
    ensures
        match r {
            Some(t) => native_capture(s@) == Some(t@),
            None => native_capture(s@) is None,
        },
{
    let re = regex::Regex::new(r"^(https?://)?(www\.)?semanticscholar.org/paper/(?<id>[0-9a-f]+)$")
        .unwrap();
    re.captures(s).map(|caps| caps["id"].to_string())
}

/// How one input string is recognized: a DOI match wins, the
/// catalog-url pattern comes second, anything else is refused.
pub open spec fn parse_one(s: Seq<char>) -> Option<PaperIdView> {
    if doi_capture(s) is Some {
        Some(PaperIdView::Doi(doi_capture(s)->0))
    } else if native_capture(s) is Some {
        Some(PaperIdView::SemanticScholar(native_capture(s)->0))
    } else {
        None
    }
}

impl PaperId {
    /// Recognizes one freeform identifier string, as [`parse_one`]
    /// describes.
    pub fn try_from_str(s: &str) -> (r: Option<PaperId>)
        ensures
            match r {
                Some(id) => parse_one(s@) == Some(id@),
                None => parse_one(s@) is None,
            },
    {
        if let Some(id) = match_doi(s) {
            return Some(PaperId::Doi(id));
        }
        if let Some(id) = match_native(s) {
            return Some(PaperId::SemanticScholar(id));
        }
        None
    }
}

/// The typed identifiers of the recognized inputs, in input order;
/// unrecognized strings are dropped.
pub open spec fn parse_ids_spec(ids: Seq<Seq<char>>) -> Seq<PaperIdView>
    decreases ids.len(),
{
    if ids.len() == 0 {
        Seq::empty()
    } else {
        let rest = parse_ids_spec(ids.drop_last());
        match parse_one(ids.last()) {
            Some(v) => rest.push(v),
            None => rest,
        }
    }
}

/// Maps every recognizable input to its typed identifier and drops the
/// rest, keeping input order.
pub fn parse_ids(ids: Vec<String>) -> (r: Vec<PaperId>)
    ensures
        r@.map_values(|p: PaperId| p@) == parse_ids_spec(ids@.map_values(|s: String| s@)),
{
    let ghost views = ids@.map_values(|s: String| s@);
    let mut r: Vec<PaperId> = Vec::new();
    proof {
        assert(r@.map_values(|p: PaperId| p@) =~= Seq::<PaperIdView>::empty());
    }
    let mut i: usize = 0;
    while i < ids.len()
        invariant
            i <= ids.len(),
            views == ids@.map_values(|s: String| s@),
            r@.map_values(|p: PaperId| p@) == parse_ids_spec(views.take(i as int)),
        decreases ids.len() - i,
    {
        proof {
            assert(views.take(i + 1).drop_last() =~= views.take(i as int));
            assert(views.take(i + 1).last() == views[i as int]);
        }
        match PaperId::try_from_str(ids[i].as_str()) {
            Some(id) => {
                let ghost before = r@.map_values(|p: PaperId| p@);
                r.push(id);
                proof {
                    assert(r@.map_values(|p: PaperId| p@) =~= before.push(
                        parse_one(views[i as int])->0,
                    ));
                }
            },
            None => {},
        }
        i = i + 1;
    }
    proof {
        assert(views.take(ids@.len() as int) =~= views);
    }
    r
}

} // verus!
