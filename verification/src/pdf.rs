//! Turning a PDF document into its structured content.
//!
//! The parsing work is done by the `lopdf` crate. The document itself is
//! opaque here; what it declares is captured by two names, `page_numbers` and
//! `page_text`, and everything assembled on top of them is verified.
use crate::content::{base_name, Page, PdfContent};
use crate::sorting::{distinct_u32, sort_distinct_u32, strictly_sorted_u32};
use vstd::prelude::*;

verus! {

/// Declares `lopdf::Document` so that it can stand in signatures; its values
/// stay opaque, and the two names below say everything the contracts use.
#[verifier::external_type_specification]
#[verifier::external_body]
pub struct ExDocument(lopdf::Document);

/// The 1-based page numbers that the document's page tree declares, in the
/// order the library enumerates them.
pub uninterp spec fn page_numbers(doc: lopdf::Document) -> Seq<u32>;

/// The outcome of text extraction for one page: the extracted text, or `None`
/// when extraction fails for that page.
pub uninterp spec fn page_text(doc: lopdf::Document, page_number: u32) -> Option<Seq<char>>;

/// Text extraction succeeds for every page the document declares.
pub open spec fn all_pages_extract(doc: lopdf::Document) -> bool {
    forall|p: u32| #[trigger] page_numbers(doc).contains(p) ==> page_text(doc, p) is Some
}

/// How the conversion can fail before anything is written out.
#[derive(Debug)]
pub enum PdfError {
    /// The input could not be opened or parsed as a PDF document.
    Load { path: String, message: String },
    /// Text extraction failed for one page; no partial output is produced.
    Extraction { page_number: u32, message: String },
}

/// Whether the bytes parse as a PDF document under the parsing library's
/// lenient acceptance criterion.
pub uninterp spec fn parses_as_pdf(bytes: Seq<u8>) -> bool;

/// Relies on `lopdf::Document::load_mem`, which parses a PDF document out of
/// raw bytes with the default lenient options. Whether it accepts the bytes is
/// a function of the bytes alone (on the lenient path, per-object errors are
/// skips, and every step that can fail runs sequentially over the buffer), so
/// that outcome carries a name. The document value itself is left unnamed:
/// under the library's default `rayon` feature, object-stream members whose id
/// the cross-reference table does not claim are merged first-come, so which of
/// two same-id copies wins can depend on thread scheduling.
#[verifier::external_body]
fn load_document(bytes: &[u8]) -> (r: Result<lopdf::Document, String>)
    ensures
        r is Ok <==> parses_as_pdf(bytes@),
{
    lopdf::Document::load_mem(bytes).map_err(|e| e.to_string())
}

/// Relies on `lopdf::Document::get_pages`: it numbers the pages of the page
/// tree from 1 upward into the keys of a `BTreeMap`, so each page number comes
/// out exactly once. Distinctness is all the map's keys guarantee; that the
/// numbers are consecutive is not stated, because the library assigns them
/// through a truncating cast to `u32`, which wraps on an absurdly deep page
/// tree.
#[verifier::external_body]
fn document_pages(doc: &lopdf::Document) -> (r: Vec<u32>)
    ensures
        r@ == page_numbers(*doc),
        distinct_u32(r@),
{
    doc.get_pages().into_keys().collect()
}

/// Relies on `lopdf::Document::extract_text`: the text it extracts from a
/// page is a function of the document and the page number alone.
#[verifier::external_body]
fn document_page_text(doc: &lopdf::Document, page_number: u32) -> (r: Result<String, String>)
    ensures
        r is Ok <==> page_text(*doc, page_number) is Some,
        r matches Ok(t) ==> page_text(*doc, page_number) == Some(t@),
{
    doc.extract_text(&[page_number]).map_err(|e| e.to_string())
}

/// Assembles the structured content of a loaded document: one entry per
/// declared page, holding that page's extracted text, sorted strictly
/// ascending by page number whatever order the library enumerates them in.
/// The first page (in page-number order) whose extraction fails aborts the
/// whole conversion.
pub fn content_from_document(doc: &lopdf::Document, file_name: String) -> (r: Result<
    PdfContent,
    PdfError,
>)
    ensures
        r is Ok <==> all_pages_extract(*doc),
        r matches Ok(c) ==> {
            &&& c@.wf()
            &&& c@.file_name == file_name@
            &&& c@.pages.len() == page_numbers(*doc).len()
            &&& c@.page_number_set() == page_numbers(*doc).to_set()
            &&& forall|i: int|
                0 <= i < c@.pages.len() ==> page_text(
                    *doc,
                    #[trigger] c@.pages[i].page_number,
                ) == Some(c@.pages[i].content)
        },
        r matches Err(e) ==> {
            &&& e matches PdfError::Extraction { page_number, .. }
            &&& page_numbers(*doc).contains(e->Extraction_page_number)
            &&& page_text(*doc, e->Extraction_page_number) is None
            &&& forall|p: u32|
                #[trigger] page_numbers(*doc).contains(p) && p < e->Extraction_page_number
                    ==> page_text(*doc, p) is Some
        },
{
    let nums = document_pages(doc);
    let sorted = sort_distinct_u32(nums);
    let ghost declared: Seq<u32> = page_numbers(*doc);
    let mut pages: Vec<Page> = Vec::new();
    let mut idx: usize = 0;
    while idx < sorted.len()
        invariant
            idx <= sorted.len(),
            sorted@.to_set() == declared.to_set(),
            sorted@.len() == declared.len(),
            strictly_sorted_u32(sorted@),
            declared == page_numbers(*doc),
            pages@.len() == idx,
            forall|i: int|
                0 <= i < idx ==> #[trigger] pages@[i].page_number == sorted@[i],
            forall|i: int|
                0 <= i < idx ==> page_text(*doc, #[trigger] pages@[i].page_number) == Some(
                    pages@[i].content@,
                ),
        decreases sorted.len() - idx,
    {
        let n = sorted[idx];
        match document_page_text(doc, n) {
            Ok(text) => {
                pages.push(Page { page_number: n, content: text });
            },
            Err(message) => {
                proof {
                    assert(declared.to_set().contains(n)) by {
                        assert(sorted@.contains(n));
                    }
                    assert forall|p: u32|
                        #[trigger] declared.contains(p) && p < n implies page_text(*doc, p)
                        is Some by {
                        assert(sorted@.to_set().contains(p));
                        assert(sorted@.contains(p));
                        let j = choose|j: int| 0 <= j < sorted@.len() && sorted@[j] == p;
                        assert(j < idx) by {
                            if j > idx {
                                assert(sorted@[idx as int] < sorted@[j]);
                            }
                        }
                        assert(pages@[j].page_number == p);
                    }
                }
                return Err(PdfError::Extraction { page_number: n, message });
            },
        }
        idx = idx + 1;
    }
    let result = PdfContent { file_name, total_pages: pages.len(), pages };
    proof {
        assert(result@.pages =~= result.pages@.map_values(|p: Page| p@));
        assert(result@.pages.map_values(|p: crate::content::PageView| p.page_number)
            =~= sorted@);
        assert(result@.page_number_set() == declared.to_set());
        assert forall|p: u32| #[trigger] declared.contains(p) implies page_text(*doc, p)
            is Some by {
            assert(sorted@.to_set().contains(p));
            assert(sorted@.contains(p));
            let j = choose|j: int| 0 <= j < sorted@.len() && sorted@[j] == p;
            assert(result.pages@[j].page_number == p);
        }
    }
    Ok(result)
}

/// Converts raw PDF bytes into the structured content, naming it after the
/// base name of the path the bytes were read from (empty where the path has
/// no base name, as for a path ending in `..`). Fails with a `Load` error
/// exactly when the bytes are no PDF document the parsing library accepts,
/// and with an `Extraction` error when some page's text cannot be extracted;
/// what an `Ok` result holds of the loaded document is stated by
/// `content_from_document`, which does all the work past the load.
pub fn extract_pdf_content(pdf_bytes: &[u8], path: &str) -> (r: Result<PdfContent, PdfError>)
    ensures
        r matches Ok(c) ==> c@.wf() && c@.file_name == base_name(path@),
        (r matches Err(e) && e matches PdfError::Load { .. }) <==> !parses_as_pdf(pdf_bytes@),
        r matches Err(e) ==> (e matches PdfError::Load { path: p, .. } ==> p@ == path@),
{
    let file_name = crate::content::file_name_of(path);
    match load_document(pdf_bytes) {
        Ok(doc) => content_from_document(&doc, file_name),
        Err(message) => Err(PdfError::Load { path: path.to_owned(), message }),
    }
}

} // verus!
