//! The document record: identifier, source path, extracted content, title,
//! tag set, token count and modification time.

use vstd::prelude::*;

verus! {

/// Largest admitted content length (in characters) of a single document.
/// It bounds the token count of a document, which keeps every score
/// computation free of overflow.
pub const DOC_CONTENT_CAP: usize = 0x8000_0000;

/// A document of the corpus.
pub struct Document {
    /// Unique identifier, monotonically assigned, never reused.
    pub id: u32,
    /// Source path; the unique key for corpus synchronization.
    pub path: String,
    /// Extracted plain-text content.
    pub content: String,
    /// Title, derived from the file name.
    pub title: String,
    /// Lowercased tags extracted from the content.
    pub tags: Vec<String>,
    /// Number of tokens of the content, as the tokenizer counts them.
    pub num_tokens: usize,
    /// Modification time of the source file, in seconds since the epoch.
    pub modified_time: u64,
}

/// The mathematical value of a document.
#[verifier::ext_equal]
pub ghost struct DocumentV {
    pub id: u32,
    pub path: Seq<char>,
    pub content: Seq<char>,
    pub title: Seq<char>,
    pub tags: Seq<Seq<char>>,
    pub num_tokens: nat,
    pub modified_time: u64,
}

impl View for Document {
    type V = DocumentV;

    open spec fn view(&self) -> DocumentV {
        DocumentV {
            id: self.id,
            path: self.path@,
            content: self.content@,
            title: self.title@,
            tags: self.tags.deep_view(),
            num_tokens: self.num_tokens as nat,
            modified_time: self.modified_time,
        }
    }
}

impl DeepView for Document {
    type V = DocumentV;

    open spec fn deep_view(&self) -> DocumentV {
        self.view()
    }
}

impl Document {
    /// An equal copy of the document.
    pub fn duplicate(&self) -> (r: Document)
        ensures
            r@ == self@,
    {
        let tags = self.tags.clone();
        proof {
            assert(tags@ =~= self.tags@);
            assert(tags.deep_view() =~= self.tags.deep_view());
        }
        Document {
            id: self.id,
            path: self.path.clone(),
            content: self.content.clone(),
            title: self.title.clone(),
            tags,
            num_tokens: self.num_tokens,
            modified_time: self.modified_time,
        }
    }
}

/// A ranked, snippet-annotated search result.
pub struct SearchResult {
    /// The matching document.
    pub doc: Document,
    /// Relevance score, scaled by `SCORE_SCALE`.
    pub score: u128,
    /// Context window around the first match, framed with ellipses.
    pub snippet: String,
    /// Character ranges (start, length) within the snippet to emphasize.
    pub highlights: Vec<(usize, usize)>,
    /// The document's tags.
    pub tags: Vec<String>,
}

/// The mathematical value of a search result.
#[verifier::ext_equal]
pub ghost struct SearchResultV {
    pub doc: DocumentV,
    pub score: u128,
    pub snippet: Seq<char>,
    pub highlights: Seq<(usize, usize)>,
    pub tags: Seq<Seq<char>>,
}

impl View for SearchResult {
    type V = SearchResultV;

    open spec fn view(&self) -> SearchResultV {
        SearchResultV {
            doc: self.doc@,
            score: self.score,
            snippet: self.snippet@,
            highlights: self.highlights@,
            tags: self.tags.deep_view(),
        }
    }
}

impl DeepView for SearchResult {
    type V = SearchResultV;

    open spec fn deep_view(&self) -> SearchResultV {
        self.view()
    }
}

impl SearchResult {
    /// An equal copy of the result.
    pub fn duplicate(&self) -> (r: SearchResult)
        ensures
            r@ == self@,
    {
        let tags = self.tags.clone();
        let mut highlights: Vec<(usize, usize)> = Vec::new();
        let mut i: usize = 0;
        while i < self.highlights.len()
            invariant
                i <= self.highlights@.len(),
                highlights@ == self.highlights@.subrange(0, i as int),
            decreases self.highlights@.len() - i,
        {
            highlights.push(self.highlights[i]);
            i = i + 1;
            proof {
                assert(highlights@ =~= self.highlights@.subrange(0, i as int));
            }
        }
        proof {
            assert(tags@ =~= self.tags@);
            assert(tags.deep_view() =~= self.tags.deep_view());
            assert(highlights@ =~= self.highlights@);
        }
        SearchResult {
            doc: self.doc.duplicate(),
            score: self.score,
            snippet: self.snippet.clone(),
            highlights,
            tags,
        }
    }
}

/// An equal copy of a result list.
pub fn duplicate_results(v: &Vec<SearchResult>) -> (r: Vec<SearchResult>)
    ensures
        r.deep_view() == v.deep_view(),
{
    let mut r: Vec<SearchResult> = Vec::new();
    let mut i: usize = 0;
    while i < v.len()
        invariant
            i <= v@.len(),
            r@.len() == i,
            forall|j: int| 0 <= j < i ==> r@[j]@ == #[trigger] v@[j]@,
        decreases v@.len() - i,
    {
        r.push(v[i].duplicate());
        i = i + 1;
    }
    proof {
        assert(r.deep_view() =~= v.deep_view());
    }
    r
}

} // verus!
