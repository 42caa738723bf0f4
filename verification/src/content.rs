//! The data model: one entry per page of a document, each holding the page's
//! extracted plain text, gathered under the source file's name.
use vstd::prelude::*;

verus! {

/// One page of a document: its 1-based page number and its extracted text.
#[derive(Debug)]
pub struct Page {
    pub page_number: u32,
    pub content: String,
}

/// The whole document: the input file's name, the number of pages found, and
/// the pages themselves, in strictly ascending page-number order.
#[derive(Debug)]
pub struct PdfContent {
    pub file_name: String,
    pub total_pages: usize,
    pub pages: Vec<Page>,
}

/// The mathematical value of a `Page`.
pub struct PageView {
    pub page_number: u32,
    pub content: Seq<char>,
}

/// The mathematical value of a `PdfContent`.
pub struct PdfContentView {
    pub file_name: Seq<char>,
    pub total_pages: nat,
    pub pages: Seq<PageView>,
}

impl View for Page {
    type V = PageView;

    open spec fn view(&self) -> PageView {
        PageView { page_number: self.page_number, content: self.content@ }
    }
}

impl View for PdfContent {
    type V = PdfContentView;

    open spec fn view(&self) -> PdfContentView {
        PdfContentView {
            file_name: self.file_name@,
            total_pages: self.total_pages as nat,
            pages: self.pages@.map_values(|p: Page| p@),
        }
    }
}

/// Page numbers grow strictly from one entry to the next.
pub open spec fn strictly_ascending(pages: Seq<PageView>) -> bool {
    forall|i: int, j: int|
        0 <= i < j < pages.len() ==> pages[i].page_number < pages[j].page_number
}

impl PdfContentView {
    /// The structural invariant: the page count matches the number of entries,
    /// and the entries are sorted strictly ascending by page number.
    pub open spec fn wf(self) -> bool {
        &&& self.total_pages == self.pages.len()
        &&& strictly_ascending(self.pages)
    }

    /// The set of page numbers that the entries carry.
    pub open spec fn page_number_set(self) -> Set<u32> {
        self.pages.map_values(|p: PageView| p.page_number).to_set()
    }
}

/// The path ends in a lone `.` component.
pub open spec fn ends_with_cur_dir(s: Seq<char>) -> bool {
    s.len() >= 1 && s[s.len() - 1] == '.' && (s.len() == 1 || s[s.len() - 2] == '/')
}

/// The path ends in a `..` component.
pub open spec fn ends_with_parent_dir(s: Seq<char>) -> bool {
    s.len() >= 2 && s[s.len() - 1] == '.' && s[s.len() - 2] == '.' && (s.len() == 2 || s[s.len()
        - 3] == '/')
}

/// The base name of a path: its final component, with trailing separators and
/// `.` components ignored. A path whose last component is `..`, a bare root,
/// and the empty path have no base name; for them the result is empty.
pub open spec fn base_name(s: Seq<char>) -> Seq<char>
    decreases s.len(),
{
    if s.len() == 0 {
        Seq::empty()
    } else if s[s.len() - 1] == '/' {
        base_name(s.drop_last())
    } else if ends_with_cur_dir(s) {
        base_name(s.drop_last())
    } else if ends_with_parent_dir(s) {
        Seq::empty()
    } else {
        final_component(s)
    }
}

/// The character position where the final path component begins: just past the
/// last `/`, or zero when the path holds none.
pub open spec fn component_start(s: Seq<char>) -> int
    decreases s.len(),
{
    if s.len() == 0 {
        0
    } else if s[s.len() - 1] == '/' {
        s.len() as int
    } else {
        component_start(s.drop_last())
    }
}

/// The final path component: everything after the last `/`.
pub open spec fn final_component(s: Seq<char>) -> Seq<char> {
    s.subrange(component_start(s), s.len() as int)
}

proof fn lemma_component_start_bounds(s: Seq<char>)
    ensures
        0 <= component_start(s) <= s.len(),
    decreases s.len(),
{
    if s.len() > 0 && s[s.len() - 1] != '/' {
        lemma_component_start_bounds(s.drop_last());
    }
}

/// No `/` occurs at or after position `j`, so the final component begins at or
/// before `j`.
proof fn lemma_component_start_upper(s: Seq<char>, j: int)
    requires
        0 <= j <= s.len(),
        forall|k: int| j <= k < s.len() ==> s[k] != '/',
    ensures
        component_start(s) <= j,
    decreases s.len(),
{
    if s.len() == 0 {
    } else if j == s.len() {
        lemma_component_start_bounds(s);
    } else {
        assert(s[s.len() - 1] != '/');
        lemma_component_start_upper(s.drop_last(), j);
    }
}

/// A `/` stands at position `j - 1`, so the final component begins at or after
/// `j`.
proof fn lemma_component_start_lower(s: Seq<char>, j: int)
    requires
        0 < j <= s.len(),
        s[j - 1] == '/',
    ensures
        component_start(s) >= j,
    decreases s.len(),
{
    if s[s.len() - 1] == '/' {
    } else {
        lemma_component_start_lower(s.drop_last(), j);
    }
}

/// The base name of a path, as `base_name` says: trailing separators and `.`
/// components do not count, and a path whose last component is `..` (or a
/// bare root) has no base name, so the result is empty.
pub fn file_name_of(path: &str) -> (r: String)
    ensures
        r@ == base_name(path@),
{
    let n = path.unicode_len();
    let mut end = n;
    proof {
        assert(path@.take(n as int) =~= path@);
    }
    while end > 0
        invariant
            end <= n,
            n == path@.len(),
            base_name(path@) == base_name(path@.take(end as int)),
        decreases end,
    {
        let ghost pref = path@.take(end as int);
        proof {
            assert(pref.len() == end);
            assert(pref[end - 1] == path@[end - 1]);
            if end >= 2 {
                assert(pref[end - 2] == path@[end - 2]);
            }
            if end >= 3 {
                assert(pref[end - 3] == path@[end - 3]);
            }
            assert(pref.drop_last() =~= path@.take(end - 1));
        }
        let c = path.get_char(end - 1);
        if c == '/' {
            end = end - 1;
        } else if c == '.' && (end == 1 || path.get_char(end - 2) == '/') {
            end = end - 1;
        } else if c == '.' && end >= 2 && path.get_char(end - 2) == '.' && (end == 2
            || path.get_char(end - 3) == '/') {
            proof {
                assert(ends_with_parent_dir(pref));
                assert(base_name(pref) == Seq::<char>::empty());
            }
            return String::new();
        } else {
            proof {
                assert(!ends_with_cur_dir(pref));
                assert(!ends_with_parent_dir(pref));
                assert(base_name(pref) == final_component(pref));
            }
            let mut j = end;
            while j > 0 && path.get_char(j - 1) != '/'
                invariant
                    0 <= j <= end,
                    end <= n,
                    n == path@.len(),
                    forall|k: int| j <= k < end ==> path@[k] != '/',
                decreases j,
            {
                j = j - 1;
            }
            proof {
                assert forall|k: int| j <= k < pref.len() implies pref[k] != '/' by {
                    assert(pref[k] == path@[k]);
                }
                lemma_component_start_bounds(pref);
                lemma_component_start_upper(pref, j as int);
                if j > 0 {
                    assert(pref[j - 1] == path@[j - 1]);
                    lemma_component_start_lower(pref, j as int);
                }
                assert(component_start(pref) == j);
                assert(pref.subrange(j as int, end as int) =~= path@.subrange(
                    j as int,
                    end as int,
                ));
            }
            let part = path.substring_char(j, end);
            return part.to_owned();
        }
    }
    proof {
        assert(path@.take(0) =~= Seq::<char>::empty());
        assert(base_name(path@) == Seq::<char>::empty());
    }
    String::new()
}

} // verus!
