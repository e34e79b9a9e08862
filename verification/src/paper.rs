//! The data model: paper identifiers, reference stubs, and full paper
//! records, together with their mathematical views.

use vstd::prelude::*;
use vstd::string::StringExecFns;

verus! {

/// Mathematical image of a [`PaperId`].
pub enum PaperIdView {
    Doi(Seq<char>),
    SemanticScholar(Seq<char>),
}

/// Mathematical image of a [`ProtoPaper`].
pub struct StubView {
    pub id: Option<Seq<char>>,
    pub title: Seq<char>,
    pub url: Option<Seq<char>>,
}

/// Mathematical image of a [`Paper`].
pub struct PaperView {
    pub id: Seq<char>,
    pub title: Seq<char>,
    pub url: Seq<char>,
    pub references: Seq<StubView>,
}

/// A typed paper identifier: either a canonical DOI or a native catalog id.
#[derive(Debug)]
pub enum PaperId {
    Doi(String),
    SemanticScholar(String),
}

/// A paper known only by reference.  The upstream may omit its id, in
/// which case it can never be expanded nor deduplicated by id.
pub struct ProtoPaper {
    pub id: Option<String>,
    pub title: String,
    pub url: Option<String>,
}

/// A fully resolved paper record with its outbound reference stubs.
pub struct Paper {
    pub id: String,
    pub title: String,
    pub url: String,
    pub references: Vec<ProtoPaper>,
}

impl View for PaperId {
    type V = PaperIdView;

    open spec fn view(&self) -> PaperIdView {
        match self {
            PaperId::Doi(s) => PaperIdView::Doi(s@),
            PaperId::SemanticScholar(s) => PaperIdView::SemanticScholar(s@),
        }
    }
}

impl View for ProtoPaper {
    type V = StubView;

    open spec fn view(&self) -> StubView {
        StubView {
            id: match self.id {
                Some(s) => Some(s@),
                None => None,
            },
            title: self.title@,
            url: match self.url {
                Some(s) => Some(s@),
                None => None,
            },
        }
    }
}

impl View for Paper {
    type V = PaperView;

    open spec fn view(&self) -> PaperView {
        PaperView {
            id: self.id@,
            title: self.title@,
            url: self.url@,
            references: self.references@.map_values(|p: ProtoPaper| p@),
        }
    }
}

/// A stub has a usable id when one is present and non-empty.
pub open spec fn real_id(n: StubView) -> bool {
    match n.id {
        Some(id) => id.len() > 0,
        None => false,
    }
}

/// The wire form of an identifier, as the data source expects it:
/// a DOI is prefixed with `DOI:`, a native id is sent bare.
pub open spec fn wire_form_spec(id: PaperIdView) -> Seq<char> {
    match id {
        PaperIdView::Doi(s) => "DOI:"@ + s,
        PaperIdView::SemanticScholar(s) => s,
    }
}

fn clone_opt_string(s: &Option<String>) -> (r: Option<String>)
    ensures
        r == *s,
{
    match s {
        Some(s) => Some(s.clone()),
        None => None,
    }
}

impl Clone for ProtoPaper {
    fn clone(&self) -> (r: Self)
        ensures
            r == *self,
    {
        ProtoPaper {
            id: clone_opt_string(&self.id),
            title: self.title.clone(),
            url: clone_opt_string(&self.url),
        }
    }
}

impl Clone for Paper {
    fn clone(&self) -> (r: Self)
        ensures
            r@ == self@,
            r.id == self.id,
    {
        let mut references: Vec<ProtoPaper> = Vec::new();
        let mut i: usize = 0;
        while i < self.references.len()
            invariant
                i <= self.references.len(),
                references@ =~= self.references@.subrange(0, i as int),
            decreases self.references.len() - i,
        {
            references.push(self.references[i].clone());
            i = i + 1;
        }
        assert(references@ =~= self.references@);
        Paper { id: self.id.clone(), title: self.title.clone(), url: self.url.clone(), references }
    }
}

impl Clone for PaperId {
    fn clone(&self) -> (r: Self)
        ensures
            r == *self,
    {
        match self {
            PaperId::Doi(s) => PaperId::Doi(s.clone()),
            PaperId::SemanticScholar(s) => PaperId::SemanticScholar(s.clone()),
        }
    }
}

fn eq_opt_string(a: &Option<String>, b: &Option<String>) -> (r: bool)
    ensures
        r == match (a, b) {
            (Some(x), Some(y)) => x@ == y@,
            (None, None) => true,
            _ => false,
        },
{
    match (a, b) {
        (Some(x), Some(y)) => x.eq(y),
        (None, None) => true,
        _ => false,
    }
}

impl PartialEq for ProtoPaper {
    /// Full structural equality: two stubs agree only if id, title and
    /// url all agree.  Stubs are deduplicated by this relation.
    fn eq(&self, other: &Self) -> (r: bool) {
        eq_opt_string(&self.id, &other.id) && self.title == other.title
            && eq_opt_string(&self.url, &other.url)
    }
}

impl vstd::std_specs::cmp::PartialEqSpecImpl for ProtoPaper {
    open spec fn obeys_eq_spec() -> bool {
        true
    }

    open spec fn eq_spec(&self, other: &Self) -> bool {
        self@ == other@
    }
}

impl PaperId {
    /// Serializes this identifier to the data source's expected wire form.
    pub fn wire_form(&self) -> (r: String)
        ensures
            r@ == wire_form_spec(self@),
    {
        match self {
            PaperId::Doi(s) => {
                let mut out = String::from_str("DOI:");
                out.append(s.as_str());
                out
            },
            PaperId::SemanticScholar(s) => s.clone(),
        }
    }
}

impl Paper {
    /// The outbound reference stubs, in upstream order.
    pub fn references(&self) -> (r: &[ProtoPaper])
        ensures
            r@.map_values(|p: ProtoPaper| p@) == self@.references,
    {
        self.references.as_slice()
    }

    pub fn id(&self) -> (r: &str)
        ensures
            r@ == self@.id,
    {
        self.id.as_str()
    }

    pub fn title(&self) -> (r: &str)
        ensures
            r@ == self@.title,
    {
        self.title.as_str()
    }

    pub fn url(&self) -> (r: &str)
        ensures
            r@ == self@.url,
    {
        self.url.as_str()
    }
}

impl ProtoPaper {
    pub fn id(&self) -> (r: Option<&str>)
        ensures
            match r {
                Some(s) => self@.id == Some(s@),
                None => self@.id is None,
            },
    {
        match &self.id {
            Some(s) => Some(s.as_str()),
            None => None,
        }
    }

    pub fn title(&self) -> (r: &str)
        ensures
            r@ == self@.title,
    {
        self.title.as_str()
    }

    pub fn url(&self) -> (r: Option<&str>)
        ensures
            match r {
                Some(s) => self@.url == Some(s@),
                None => self@.url is None,
            },
    {
        match &self.url {
            Some(s) => Some(s.as_str()),
            None => None,
        }
    }
}

impl From<Paper> for ProtoPaper {
    /// Forgetting a full record down to a stub keeps its id, title and
    /// url; the reference list is dropped.
    fn from(paper: Paper) -> (r: Self) {
        ProtoPaper { id: Some(paper.id), title: paper.title, url: Some(paper.url) }
    }
}

impl vstd::std_specs::convert::FromSpecImpl<Paper> for ProtoPaper {
    open spec fn obeys_from_spec() -> bool {
        true
    }

    open spec fn from_spec(paper: Paper) -> Self {
        ProtoPaper { id: Some(paper.id), title: paper.title, url: Some(paper.url) }
    }
}

} // verus!
