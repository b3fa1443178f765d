//! The structure builder: page tree, catalog and trailer for a document of
//! remapped objects.
//!
//! The page tree that is built has one level: a single node whose kids are
//! the pages, whatever the depth of the tree they came from.

use crate::document::{Document, DocumentView};
use crate::error::PdfError;
use crate::names::{
    catalog_name, catalog_name_bytes, count_key, count_key_bytes, kids_key, kids_key_bytes,
    pages_key, pages_key_bytes, parent_key, parent_key_bytes, root_key, root_key_bytes, type_key,
    type_key_bytes,
};
use crate::object::{lemma_array_view, put, view_all, Dictionary, ObjectId, ObjectValue, Value};
use crate::table::IdTable;
use vstd::prelude::*;

verus! {

/// A reference to each of `kids`, in their order.
pub open spec fn kid_refs(kids: Seq<ObjectId>) -> Seq<Value> {
    Seq::new(kids.len(), |i: int| Value::Reference(kids[i]))
}

/// The node of the page tree: of type `Pages`, with the number of its kids
/// as `Count` and a reference to each as `Kids`.
pub open spec fn pages_node(kids: Seq<ObjectId>) -> Value {
    Value::Dictionary(
        put(
            put(
                put(Seq::empty(), type_key(), Value::Name(pages_key())),
                count_key(),
                Value::Integer(kids.len() as i64),
            ),
            kids_key(),
            Value::Array(kid_refs(kids)),
        ),
    )
}

/// The catalog: of type `Catalog`, with a reference to the page tree as
/// `Pages`.
pub open spec fn catalog_value(node: ObjectId) -> Value {
    Value::Dictionary(
        put(
            put(Seq::empty(), type_key(), Value::Name(catalog_name())),
            pages_key(),
            Value::Reference(node),
        ),
    )
}

/// The objects after `page` was given `parent` as its `Parent`, in place
/// of any it had. Nothing changes where `page` is no dictionary of `objs`.
pub open spec fn adopt(objs: Map<ObjectId, Value>, page: ObjectId, parent: ObjectId) -> Map<
    ObjectId,
    Value,
> {
    if objs.dom().contains(page) {
        match objs[page] {
            Value::Dictionary(entries) => objs.insert(
                page,
                Value::Dictionary(put(entries, parent_key(), Value::Reference(parent))),
            ),
            _ => objs,
        }
    } else {
        objs
    }
}

/// The objects after each of `pages`, in turn, was given `parent`.
pub open spec fn adopt_all(objs: Map<ObjectId, Value>, pages: Seq<ObjectId>, parent: ObjectId) -> Map<
    ObjectId,
    Value,
>
    decreases pages.len(),
{
    if pages.len() == 0 {
        objs
    } else {
        adopt(adopt_all(objs, pages.drop_last(), parent), pages.last(), parent)
    }
}

/// The document after the structure for `pages` was built into it: a node
/// of the page tree under the next object number, every page given that
/// node as its parent, a catalog under the number after that, and the
/// trailer's `Root` referring to the catalog.
pub open spec fn built(doc: DocumentView, pages: Seq<ObjectId>) -> DocumentView {
    let node = ((doc.max_id + 1) as u32, 0u16);
    let catalog = ((doc.max_id + 2) as u32, 0u16);
    DocumentView {
        version: doc.version,
        trailer: put(doc.trailer, root_key(), Value::Reference(catalog)),
        objects: adopt_all(doc.objects.insert(node, pages_node(pages)), pages, node).insert(
            catalog,
            catalog_value(node),
        ),
        max_id: doc.max_id + 2,
    }
}

/// The new identities of `pages`, in their order; a page that `ids` does
/// not hold is left out.
pub open spec fn mapped(pages: Seq<ObjectId>, ids: Map<ObjectId, ObjectId>) -> Seq<ObjectId>
    decreases pages.len(),
{
    if pages.len() == 0 {
        Seq::empty()
    } else if ids.dom().contains(pages.last()) {
        mapped(pages.drop_last(), ids).push(ids[pages.last()])
    } else {
        mapped(pages.drop_last(), ids)
    }
}

/// Whether the structure for `pages` can be built into `doc`: two more
/// object numbers are free, and the number of pages fits a `Count`.
pub open spec fn buildable(doc: DocumentView, pages: Seq<ObjectId>) -> bool {
    doc.max_id + 2 <= u32::MAX && pages.len() <= i64::MAX
}

/// The new identities of `pages`, in their order; a page that `ids` does
/// not hold is left out.
pub fn map_pages(pages: &Vec<ObjectId>, ids: &IdTable<ObjectId>) -> (out: Vec<ObjectId>)
    ensures
        out@ == mapped(pages@, ids@),
{
    let mut out: Vec<ObjectId> = Vec::new();
    let mut i: usize = 0;
    assert(pages@.subrange(0, 0) =~= Seq::<ObjectId>::empty());
    while i < pages.len()
        invariant
            i <= pages@.len(),
            out@ == mapped(pages@.subrange(0, i as int), ids@),
        decreases pages@.len() - i,
    {
        proof {
            let longer = pages@.subrange(0, i + 1);
            assert(longer.drop_last() =~= pages@.subrange(0, i as int));
            assert(longer.last() == pages@[i as int]);
        }
        match ids.get(pages[i]) {
            Some(new) => {
                out.push(*new);
            },
            None => {},
        }
        i += 1;
    }
    assert(pages@.subrange(0, i as int) =~= pages@);
    out
}

/// The node of the page tree for `kids`.
fn make_pages_node(kids: &Vec<ObjectId>) -> (node: ObjectValue)
    requires
        kids@.len() <= i64::MAX,
    ensures
        node@ == pages_node(kids@),
{
    let mut refs: Vec<ObjectValue> = Vec::new();
    let mut i: usize = 0;
    while i < kids.len()
        invariant
            i <= kids@.len(),
            refs@.len() == i,
            forall|k: int| 0 <= k < i ==> (#[trigger] refs@[k])@ == Value::Reference(kids@[k]),
        decreases kids@.len() - i,
    {
        refs.push(ObjectValue::Reference(kids[i]));
        i += 1;
    }
    assert(view_all(refs@) =~= kid_refs(kids@));
    proof {
        lemma_array_view(refs);
    }
    let mut dict = Dictionary::new();
    dict.set(type_key_bytes(), ObjectValue::Name(pages_key_bytes()));
    dict.set(count_key_bytes(), ObjectValue::Integer(kids.len() as i64));
    dict.set(kids_key_bytes(), ObjectValue::Array(refs));
    ObjectValue::Dictionary(dict)
}

/// The catalog for the page tree `node`.
fn make_catalog(node: ObjectId) -> (catalog: ObjectValue)
    ensures
        catalog@ == catalog_value(node),
{
    let mut dict = Dictionary::new();
    dict.set(type_key_bytes(), ObjectValue::Name(catalog_name_bytes()));
    dict.set(pages_key_bytes(), ObjectValue::Reference(node));
    ObjectValue::Dictionary(dict)
}

/// Gives `page` the parent `parent`, where `page` is a dictionary of `doc`.
fn set_parent(doc: &mut Document, page: ObjectId, parent: ObjectId)
    ensures
        final(doc)@ == (DocumentView {
            objects: adopt(old(doc)@.objects, page, parent),
            ..old(doc)@
        }),
{
    let count = doc.object_count();
    let changed = match doc.get_object(page) {
        Some(ObjectValue::Dictionary(entries)) => {
            let mut copy = entries.clone();
            copy.set(parent_key_bytes(), ObjectValue::Reference(parent));
            Some(copy)
        },
        _ => None,
    };
    match changed {
        Some(dict) => {
            doc.set_object(page, ObjectValue::Dictionary(dict));
        },
        None => {},
    }
}

/// Builds the structure for the pages `pages` of `doc`: a page tree of one
/// node, a catalog, and the trailer's `Root`.
///
/// Fails with `LimitExceeded`, and leaves `doc` as it was, where two more
/// object numbers are not to be had or the number of pages does not fit a
/// `Count`.
pub fn build_structure(doc: &mut Document, pages: &Vec<ObjectId>) -> (result: Result<
    (),
    PdfError,
>)
    ensures
        match result {
            Ok(()) => buildable(old(doc)@, pages@) && final(doc)@ == built(old(doc)@, pages@),
            Err(e) => e == PdfError::LimitExceeded && !buildable(old(doc)@, pages@) && final(doc)@
                == old(doc)@,
        },
{
    let ghost start = doc@;
    if doc.max_id() > u32::MAX - 2 || pages.len() as u64 > i64::MAX as u64 {
        return Err(PdfError::LimitExceeded);
    }
    let node = match doc.add_object(make_pages_node(pages)) {
        Ok(id) => id,
        Err(e) => {
            return Err(e);
        },
    };
    let ghost seeded = doc@.objects;
    let mut i: usize = 0;
    assert(pages@.subrange(0, 0) =~= Seq::<ObjectId>::empty());
    while i < pages.len()
        invariant
            i <= pages@.len(),
            doc@ == (DocumentView {
                objects: adopt_all(seeded, pages@.subrange(0, i as int), node),
                max_id: start.max_id + 1,
                ..start
            }),
        decreases pages@.len() - i,
    {
        proof {
            let longer = pages@.subrange(0, i + 1);
            assert(longer.drop_last() =~= pages@.subrange(0, i as int));
            assert(longer.last() == pages@[i as int]);
        }
        set_parent(doc, pages[i], node);
        i += 1;
    }
    assert(pages@.subrange(0, i as int) =~= pages@);
    let added = doc.add_object(make_catalog(node));
    match added {
        Ok(catalog) => {
            doc.set_trailer(root_key_bytes(), ObjectValue::Reference(catalog));
            Ok(())
        },
        Err(e) => {
            assert(false);
            Err(e)
        },
    }
}

/// Builds the structure for the pages that `source_pages` became under
/// `ids`, in the same order.
///
/// A page that `ids` does not hold is left out. Fails as
/// `build_structure` does.
pub fn build(doc: &mut Document, ids: &IdTable<ObjectId>, source_pages: &Vec<ObjectId>) -> (result:
    Result<(), PdfError>)
    ensures
        match result {
            Ok(()) => buildable(old(doc)@, mapped(source_pages@, ids@)) && final(doc)@ == built(
                old(doc)@,
                mapped(source_pages@, ids@),
            ),
            Err(e) => e == PdfError::LimitExceeded && !buildable(
                old(doc)@,
                mapped(source_pages@, ids@),
            ) && final(doc)@ == old(doc)@,
        },
{
    let pages = map_pages(source_pages, ids);
    build_structure(doc, &pages)
}

} // verus!
