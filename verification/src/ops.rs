//! The operations on whole documents: counting pages, extracting,
//! splitting, deleting and merging.
//!
//! Each operation reads its sources and builds new documents. A source is
//! never changed.

use crate::builder::{build_structure, buildable, built, map_pages, mapped};
use crate::collector::{closure, collect};
use crate::document::{Document, DocumentView};
use crate::error::{Failure, PdfError};
use crate::object::{ObjectId, Value};
use crate::remapper::{assigned, new_output, output_version, placed, remap, remap_into};
use crate::selection::{file_name, output_name, parse_selection, selection, PageRange};
use crate::walker::{page_index, walk};
use vstd::prelude::*;

verus! {

/// What an operation came to, as mathematics.
pub open spec fn outcome(result: Result<Document, PdfError>) -> Result<DocumentView, Failure> {
    match result {
        Ok(doc) => Ok(doc@),
        Err(e) => Err(e@),
    }
}

/// The new document that holds the collected objects, before its structure
/// is built.
pub open spec fn moved(collected: Map<ObjectId, Value>) -> DocumentView {
    DocumentView {
        version: output_version(),
        trailer: Seq::empty(),
        objects: placed(Map::empty(), collected, 0),
        max_id: collected.dom().len(),
    }
}

/// The document that stands alone with the pages `roots` of `doc`: what
/// the roots reach, under new identities and with its references
/// rewritten, below a page tree of the roots in their order.
/// `LimitExceeded` where the object numbers or the page count do not
/// suffice.
pub open spec fn extracted(doc: DocumentView, roots: Seq<ObjectId>) -> Result<
    DocumentView,
    Failure,
> {
    let got = closure(doc.objects, roots.to_set());
    let pages = mapped(roots, assigned(got.dom(), 0));
    if got.dom().len() <= u32::MAX && buildable(moved(got), pages) {
        Ok(built(moved(got), pages))
    } else {
        Err(Failure::LimitExceeded)
    }
}

/// Whether the index has a page with this number.
pub open spec fn has_page(index: Seq<ObjectId>, page: u32) -> bool {
    1 <= page <= index.len()
}

/// Position `i` holds the first page number that the index lacks.
pub open spec fn absent_at(index: Seq<ObjectId>, pages: Seq<u32>, i: int) -> bool {
    &&& 0 <= i < pages.len()
    &&& !has_page(index, pages[i])
    &&& forall|j: int| 0 <= j < i ==> has_page(index, #[trigger] pages[j])
}

/// The identities of the pages with the given numbers.
pub open spec fn roots_of(index: Seq<ObjectId>, pages: Seq<u32>) -> Seq<ObjectId> {
    Seq::new(pages.len(), |i: int| index[pages[i] - 1])
}

/// What the extraction of the pages with the given numbers comes to:
/// `StructuralError` where the document has no page index, else
/// `EmptySelection` where no page is named, else `PageNotFound` with the
/// first number that the index lacks, else the extracted document.
pub open spec fn extraction(doc: DocumentView, pages: Seq<u32>) -> Result<DocumentView, Failure> {
    match page_index(doc) {
        None => Err(Failure::StructuralError),
        Some(index) => if pages.len() == 0 {
            Err(Failure::EmptySelection)
        } else if exists|i: int| absent_at(index, pages, i) {
            Err(Failure::PageNotFound(pages[choose|i: int| absent_at(index, pages, i)]))
        } else {
            extracted(doc, roots_of(index, pages))
        },
    }
}

/// The number of pages of `doc`, counted by walking its page tree.
/// Fails with `StructuralError` where the page tree cannot be walked.
pub fn get_pdf_page_count(doc: &Document) -> (result: Result<usize, PdfError>)
    ensures
        match result {
            Ok(count) => page_index(doc@) matches Some(index) && index.len() == count,
            Err(e) => e == PdfError::StructuralError && page_index(doc@) is None,
        },
{
    match walk(doc) {
        Ok(index) => Ok(index.len()),
        Err(e) => Err(e),
    }
}

/// Builds the document that stands alone with the pages `roots` of `doc`:
/// collects what the roots reach, gives it new identities, rewrites its
/// references, and builds the page tree, catalog and trailer.
pub fn extract(doc: &Document, roots: &Vec<ObjectId>) -> (result: Result<Document, PdfError>)
    ensures
        outcome(result) == extracted(doc@, roots@),
{
    let collected = collect(doc, roots);
    match remap(&collected) {
        Ok((mut out, ids)) => {
            let pages = map_pages(roots, &ids);
            match build_structure(&mut out, &pages) {
                Ok(()) => Ok(out),
                Err(e) => Err(e),
            }
        },
        Err(e) => Err(e),
    }
}

/// The identities of the pages with the given numbers, or `PageNotFound`
/// with the first number that the index lacks.
pub fn resolve_pages(index: &Vec<ObjectId>, pages: &Vec<u32>) -> (result: Result<
    Vec<ObjectId>,
    PdfError,
>)
    ensures
        match result {
            Ok(roots) => roots@ == roots_of(index@, pages@) && !exists|i: int|
                absent_at(index@, pages@, i),
            Err(e) => exists|i: int| absent_at(index@, pages@, i) && e@ == Failure::PageNotFound(
                pages@[choose|i: int| absent_at(index@, pages@, i)],
            ),
        },
{
    let mut roots: Vec<ObjectId> = Vec::new();
    let mut i: usize = 0;
    while i < pages.len()
        invariant
            i <= pages@.len(),
            roots@.len() == i,
            forall|j: int| 0 <= j < i ==> has_page(index@, #[trigger] pages@[j]),
            forall|j: int| 0 <= j < i ==> #[trigger] roots@[j] == index@[pages@[j] - 1],
        decreases pages@.len() - i,
    {
        let page = pages[i];
        if page == 0 || page as usize > index.len() {
            proof {
                assert(absent_at(index@, pages@, i as int));
                let chosen = choose|k: int| absent_at(index@, pages@, k);
                if chosen < i {
                    assert(has_page(index@, pages@[chosen]));
                } else if i < chosen {
                    assert(has_page(index@, pages@[i as int]));
                }
            }
            return Err(PdfError::PageNotFound { page });
        }
        roots.push(index[page as usize - 1]);
        i += 1;
    }
    proof {
        assert(roots@ =~= roots_of(index@, pages@));
        assert forall|k: int| !absent_at(index@, pages@, k) by {
            if absent_at(index@, pages@, k) {
                assert(has_page(index@, pages@[k]));
            }
        }
    }
    Ok(roots)
}

/// Extracts the pages with the given numbers from `doc`, in the order in
/// which they are given.
///
/// Fails with `StructuralError` where the page tree cannot be walked, with
/// `EmptySelection` where no page is named, with `PageNotFound` for the
/// first number that the document has no page for, and with
/// `LimitExceeded` where the output cannot be numbered.
pub fn extract_multiple_pages(doc: &Document, target_pages: &Vec<u32>) -> (result: Result<
    Document,
    PdfError,
>)
    ensures
        outcome(result) == extraction(doc@, target_pages@),
{
    let index = match walk(doc) {
        Ok(index) => index,
        Err(e) => {
            return Err(e);
        },
    };
    if target_pages.len() == 0 {
        return Err(PdfError::EmptySelection);
    }
    match resolve_pages(&index, target_pages) {
        Ok(roots) => extract(doc, &roots),
        Err(e) => Err(e),
    }
}

/// One document that an operation produced, and the name of its file.
#[derive(Debug, PartialEq, Eq)]
pub struct Output {
    pub name: String,
    pub document: Document,
}

/// What a split came to: the outputs of the selections before the first
/// that failed, in their order, and the failure of that one, if any.
#[derive(Debug, PartialEq, Eq)]
pub struct SplitReport {
    pub outputs: Vec<Output>,
    pub failure: Option<PdfError>,
}

/// The page numbers of a range, in ascending order.
pub open spec fn pages_of(range: PageRange) -> Seq<u32> {
    Seq::new((range.end - range.start + 1) as nat, |i: int| (range.start + i) as u32)
}

/// What one selection of a split comes to: `InvalidSelectionSyntax` where
/// the token selects nothing, else the extraction of its pages, under the
/// name of its range.
pub open spec fn split_one(doc: DocumentView, token: Seq<char>) -> Result<
    (Seq<char>, DocumentView),
    Failure,
> {
    match selection(token) {
        None => Err(Failure::InvalidSelectionSyntax(token)),
        Some(range) => match extraction(doc, pages_of(range)) {
            Ok(out) => Ok((file_name(range.start, range.end, range.start < range.end), out)),
            Err(f) => Err(f),
        },
    }
}

/// The page numbers `1` to `count` that are not among `selected`, in
/// ascending order.
pub open spec fn kept(count: nat, selected: Seq<u32>) -> Seq<u32>
    decreases count,
{
    if count == 0 {
        Seq::empty()
    } else if selected.contains(count as u32) {
        kept((count - 1) as nat, selected)
    } else {
        kept((count - 1) as nat, selected).push(count as u32)
    }
}

/// What the deletion of the selected pages comes to: the extraction of
/// all other pages, in their order, under the name of their range.
pub open spec fn deletion(doc: DocumentView, selected: Seq<u32>) -> Result<
    (Seq<char>, DocumentView),
    Failure,
> {
    match page_index(doc) {
        None => Err(Failure::StructuralError),
        Some(index) => if index.len() > u32::MAX {
            Err(Failure::LimitExceeded)
        } else {
            let pages = kept(index.len(), selected);
            match extraction(doc, pages) {
                Ok(out) => Ok((file_name(pages[0], pages[pages.len() - 1], pages.len() > 1), out)),
                Err(f) => Err(f),
            }
        },
    }
}

/// The views of the documents, position by position.
pub open spec fn views(docs: Seq<Document>) -> Seq<DocumentView> {
    Seq::new(docs.len(), |i: int| docs[i]@)
}

/// The output of a merge after the first `k` sources were gathered into
/// it, and the new identities of their pages in order. Each source is
/// collected by itself, from its own pages, and receives its own new
/// identities: what two sources hold under one identity stays apart.
pub open spec fn gathered(docs: Seq<DocumentView>, k: nat) -> Result<
    (DocumentView, Seq<ObjectId>),
    Failure,
>
    decreases k,
{
    if k == 0 {
        Ok((moved(Map::empty()), Seq::empty()))
    } else {
        match gathered(docs, (k - 1) as nat) {
            Err(f) => Err(f),
            Ok((out, pages)) => match page_index(docs[k - 1]) {
                None => Err(Failure::StructuralError),
                Some(index) => {
                    let got = closure(docs[k - 1].objects, index.to_set());
                    if out.max_id + got.dom().len() > u32::MAX {
                        Err(Failure::LimitExceeded)
                    } else {
                        Ok(
                            (
                                DocumentView {
                                    objects: placed(out.objects, got, out.max_id),
                                    max_id: out.max_id + got.dom().len(),
                                    ..out
                                },
                                pages + mapped(index, assigned(got.dom(), out.max_id)),
                            ),
                        )
                    }
                },
            },
        }
    }
}

/// What the merge of the documents comes to: `InsufficientInputs` for
/// fewer than two, else all of them gathered in their order below one page
/// tree.
pub open spec fn merged(docs: Seq<DocumentView>) -> Result<DocumentView, Failure> {
    if docs.len() < 2 {
        Err(Failure::InsufficientInputs)
    } else {
        match gathered(docs, docs.len()) {
            Err(f) => Err(f),
            Ok((out, pages)) => if buildable(out, pages) {
                Ok(built(out, pages))
            } else {
                Err(Failure::LimitExceeded)
            },
        }
    }
}

/// The page numbers `start` to `end`.
fn range_pages(start: u32, end: u32) -> (pages: Vec<u32>)
    requires
        start <= end,
    ensures
        pages@ == pages_of(PageRange { start, end }),
{
    let mut pages: Vec<u32> = Vec::new();
    let count = end - start;
    let mut i: u32 = 0;
    pages.push(start);
    while i < count
        invariant
            i <= count,
            count == end - start,
            pages@.len() == i + 1,
            forall|k: int| 0 <= k <= i ==> #[trigger] pages@[k] == start + k,
        decreases count - i,
    {
        i += 1;
        pages.push(start + i);
    }
    assert(pages@ =~= pages_of(PageRange { start, end }));
    pages
}

/// What one selection of a split comes to, given the page index of `doc`
/// or the failure to walk it.
fn split_token(doc: &Document, walked: &Result<Vec<ObjectId>, PdfError>, token: &str) -> (result:
    Result<Output, PdfError>)
    requires
        match walked {
            Ok(index) => page_index(doc@) == Some(index@),
            Err(e) => page_index(doc@) is None,
        },
    ensures
        match result {
            Ok(output) => split_one(doc@, token@) == Ok::<(Seq<char>, DocumentView), Failure>(
                (output.name@, output.document@),
            ),
            Err(e) => split_one(doc@, token@) == Err::<(Seq<char>, DocumentView), Failure>(e@),
        },
{
    let range = match parse_selection(token) {
        Ok(range) => range,
        Err(e) => {
            return Err(e);
        },
    };
    let index = match walked {
        Ok(index) => index,
        Err(_) => {
            return Err(PdfError::StructuralError);
        },
    };
    let ghost wanted = pages_of(range);
    if range.end as usize > index.len() {
        let page = if range.start as usize > index.len() {
            range.start
        } else {
            (index.len() + 1) as u32
        };
        proof {
            let at = page - range.start;
            assert(wanted[at] == page);
            assert(absent_at(index@, wanted, at)) by {
                assert forall|j: int| 0 <= j < at implies has_page(index@, #[trigger] wanted[j]) by {
                    assert(wanted[j] == range.start + j);
                }
            }
            let chosen = choose|k: int| absent_at(index@, wanted, k);
            if chosen < at {
                assert(has_page(index@, wanted[chosen]));
            } else if at < chosen {
                assert(has_page(index@, wanted[at]));
            }
        }
        return Err(PdfError::PageNotFound { page });
    }
    let pages = range_pages(range.start, range.end);
    let roots = match resolve_pages(index, &pages) {
        Ok(roots) => roots,
        Err(e) => {
            return Err(e);
        },
    };
    let document = match extract(doc, &roots) {
        Ok(document) => document,
        Err(e) => {
            return Err(e);
        },
    };
    match output_name(&pages) {
        Some(name) => Ok(Output { name, document }),
        None => Err(PdfError::EmptySelection),
    }
}

/// Splits `doc`: one output for each selection, in the order of the
/// selections, each named by the range of its pages.
///
/// The selections are taken in turn. The first that fails ends the split:
/// the report holds the outputs of those before it, and its failure.
/// These outputs are what they would be had no selection failed.
pub fn do_split(doc: &Document, split_options: &Vec<&str>) -> (report: SplitReport)
    ensures
        report.outputs@.len() <= split_options@.len(),
        forall|i: int|
            0 <= i < report.outputs@.len() ==> split_one(doc@, split_options@[i]@) == Ok::<
                (Seq<char>, DocumentView),
                Failure,
            >(((#[trigger] report.outputs@[i]).name@, report.outputs@[i].document@)),
        match report.failure {
            None => report.outputs@.len() == split_options@.len(),
            Some(e) => report.outputs@.len() < split_options@.len() && split_one(
                doc@,
                split_options@[report.outputs@.len() as int]@,
            ) == Err::<(Seq<char>, DocumentView), Failure>(e@),
        },
{
    let walked = walk(doc);
    let mut outputs: Vec<Output> = Vec::new();
    let mut i: usize = 0;
    while i < split_options.len()
        invariant
            i <= split_options@.len(),
            outputs@.len() == i,
            match walked {
                Ok(index) => page_index(doc@) == Some(index@),
                Err(e) => page_index(doc@) is None,
            },
            forall|k: int|
                0 <= k < i ==> split_one(doc@, split_options@[k]@) == Ok::<
                    (Seq<char>, DocumentView),
                    Failure,
                >(((#[trigger] outputs@[k]).name@, outputs@[k].document@)),
        decreases split_options@.len() - i,
    {
        match split_token(doc, &walked, split_options[i]) {
            Ok(output) => {
                outputs.push(output);
            },
            Err(e) => {
                return SplitReport { outputs, failure: Some(e) };
            },
        }
        i += 1;
    }
    SplitReport { outputs, failure: None }
}

/// Whether `page` is among `selected`.
fn is_selected(selected: &Vec<u32>, page: u32) -> (found: bool)
    ensures
        found == selected@.contains(page),
{
    let mut i: usize = 0;
    while i < selected.len()
        invariant
            i <= selected@.len(),
            forall|k: int| 0 <= k < i ==> selected@[k] != page,
        decreases selected@.len() - i,
    {
        if selected[i] == page {
            return true;
        }
        i += 1;
    }
    false
}

/// Every kept page number is one of the first `count`.
proof fn lemma_kept_in_range(count: nat, selected: Seq<u32>)
    requires
        count <= u32::MAX,
    ensures
        kept(count, selected).len() <= count,
        forall|i: int|
            0 <= i < kept(count, selected).len() ==> 1 <= #[trigger] kept(count, selected)[i]
                <= count,
    decreases count,
{
    if count > 0 {
        lemma_kept_in_range((count - 1) as nat, selected);
    }
}

/// Deletes the selected pages from `doc`: the output holds all other
/// pages, in their order, and is named by their range.
///
/// A selected number that the document has no page for is passed over.
/// Fails with `StructuralError` where the page tree cannot be walked, with
/// `EmptySelection` where no page is left, and with `LimitExceeded` where
/// the pages or the output cannot be numbered.
pub fn do_delete_pages(doc: &Document, selected_pages: &Vec<u32>) -> (result: Result<
    Output,
    PdfError,
>)
    ensures
        match result {
            Ok(output) => deletion(doc@, selected_pages@) == Ok::<
                (Seq<char>, DocumentView),
                Failure,
            >((output.name@, output.document@)),
            Err(e) => deletion(doc@, selected_pages@) == Err::<(Seq<char>, DocumentView), Failure>(
                e@,
            ),
        },
{
    let index = match walk(doc) {
        Ok(index) => index,
        Err(e) => {
            return Err(e);
        },
    };
    if index.len() as u64 > u32::MAX as u64 {
        return Err(PdfError::LimitExceeded);
    }
    let count = index.len() as u32;
    let mut pages: Vec<u32> = Vec::new();
    let mut page: u32 = 0;
    while page < count
        invariant
            page <= count,
            pages@ == kept(page as nat, selected_pages@),
        decreases count - page,
    {
        page += 1;
        if !is_selected(selected_pages, page) {
            pages.push(page);
        }
    }
    proof {
        lemma_kept_in_range(count as nat, selected_pages@);
    }
    if pages.len() == 0 {
        return Err(PdfError::EmptySelection);
    }
    let roots = match resolve_pages(&index, &pages) {
        Ok(roots) => roots,
        Err(e) => {
            proof {
                let at = choose|i: int| absent_at(index@, pages@, i);
                assert(has_page(index@, pages@[at]));
            }
            return Err(e);
        },
    };
    let document = match extract(doc, &roots) {
        Ok(document) => document,
        Err(e) => {
            return Err(e);
        },
    };
    match output_name(&pages) {
        Some(name) => Ok(Output { name, document }),
        None => Err(PdfError::EmptySelection),
    }
}

/// Whether a merge of `count` sources may go ahead: it takes two at
/// least.
pub fn check_merge_inputs(count: usize) -> (result: Result<(), PdfError>)
    ensures
        match result {
            Ok(()) => count >= 2,
            Err(e) => e == PdfError::InsufficientInputs && count < 2,
        },
{
    if count < 2 {
        Err(PdfError::InsufficientInputs)
    } else {
        Ok(())
    }
}

/// Merges the documents into one: the pages of the first in their order,
/// then those of the second, and so on.
///
/// Each source is walked, and what its pages reach is collected and given
/// new identities by itself, so that what two sources hold under one
/// identity stays apart. Fails with `InsufficientInputs` for fewer than two
/// sources, with `StructuralError` at the first source whose page tree
/// cannot be walked, and with `LimitExceeded` where the output cannot be
/// numbered.
pub fn do_merge_pdfs(docs: &Vec<Document>) -> (result: Result<Document, PdfError>)
    ensures
        outcome(result) == merged(views(docs@)),
{
    match check_merge_inputs(docs.len()) {
        Ok(()) => {},
        Err(e) => {
            return Err(e);
        },
    }
    let ghost sources = views(docs@);
    let mut out = new_output();
    let mut pages: Vec<ObjectId> = Vec::new();
    let mut i: usize = 0;
    assert(out@ == moved(Map::empty())) by {
        assert(placed(Map::empty(), Map::empty(), 0) =~= Map::<ObjectId, Value>::empty());
    }
    while i < docs.len()
        invariant
            i <= docs@.len(),
            docs@.len() >= 2,
            sources == views(docs@),
            gathered(sources, i as nat) == Ok::<(DocumentView, Seq<ObjectId>), Failure>(
                (out@, pages@),
            ),
        decreases docs@.len() - i,
    {
        let doc = &docs[i];
        assert(sources[i as int] == doc@);
        let index = match walk(doc) {
            Ok(index) => index,
            Err(e) => {
                proof {
                    assert(gathered(sources, (i + 1) as nat) == Err::<
                        (DocumentView, Seq<ObjectId>),
                        Failure,
                    >(Failure::StructuralError));
                    lemma_gathered_fails(sources, (i + 1) as nat, docs@.len() as nat);
                }
                return Err(e);
            },
        };
        let collected = collect(doc, &index);
        let ids = match remap_into(&mut out, &collected) {
            Ok(ids) => ids,
            Err(e) => {
                proof {
                    assert(gathered(sources, (i + 1) as nat) == Err::<
                        (DocumentView, Seq<ObjectId>),
                        Failure,
                    >(Failure::LimitExceeded));
                    lemma_gathered_fails(sources, (i + 1) as nat, docs@.len() as nat);
                }
                return Err(e);
            },
        };
        let mut more = map_pages(&index, &ids);
        pages.append(&mut more);
        i += 1;
    }
    match build_structure(&mut out, &pages) {
        Ok(()) => Ok(out),
        Err(e) => Err(e),
    }
}

/// A failure while gathering stays the failure of the whole.
proof fn lemma_gathered_fails(docs: Seq<DocumentView>, k: nat, n: nat)
    requires
        k <= n,
        gathered(docs, k) is Err,
    ensures
        gathered(docs, n) == gathered(docs, k),
    decreases n - k,
{
    if k < n {
        lemma_gathered_fails(docs, k, (n - 1) as nat);
    }
}

} // verus!
