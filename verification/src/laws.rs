//! What holds of the operations taken together: the pages of an output are
//! the selected pages of the source, as many and in the same order.

use crate::builder::{
    adopt, adopt_all, buildable, built, catalog_value, kid_refs, mapped, pages_node,
};
use crate::collector::{closure, lemma_root_reachable};
use crate::document::DocumentView;
use crate::names::{count_key, kids_key, page_name, pages_key, parent_key, root_key, type_key};
use crate::object::{
    first_at, has_key, index_of, lemma_has_key, lemma_lookup_absent, lemma_lookup_at, lemma_put,
    lookup, put, Entries, ObjectId, Value,
};
use crate::ops::{extracted, extraction, gathered, has_page, merged, moved, roots_of};
use crate::remapper::{
    assigned, lemma_rank_ordered, lemma_rewrite, new_id, placed, rewrite, rewrite_entries,
    source_of,
};
use crate::walker::{kids_of, kind_of, leaves_under, page_index, page_root, KidKind};
use vstd::prelude::*;

verus! {

/// Whether `id` is a page of `objs`: a dictionary of type `Page`.
pub open spec fn is_page(objs: Map<ObjectId, Value>, id: ObjectId) -> bool {
    kind_of(objs, Value::Reference(id)) == KidKind::Page(id)
}

/// Whether every one of `ids` is a page of `objs`.
pub open spec fn all_pages(objs: Map<ObjectId, Value>, ids: Seq<ObjectId>) -> bool {
    forall|i: int| 0 <= i < ids.len() ==> is_page(objs, #[trigger] ids[i])
}

/// Rewriting keeps the names of a dictionary: what is stored under a name
/// afterwards is the rewritten form of what was stored under it before.
pub proof fn lemma_lookup_rewritten(entries: Entries, ids: Map<ObjectId, ObjectId>, key: Seq<u8>)
    ensures
        lookup(rewrite_entries(entries, ids), key) == match lookup(entries, key) {
            Some(v) => Some(rewrite(v, ids)),
            None => None,
        },
{
    let after = rewrite_entries(entries, ids);
    if has_key(entries, key) {
        let i = index_of(entries, key);
        assert(first_at(after, key, i)) by {
            assert forall|j: int| 0 <= j < i implies (#[trigger] after[j]).0 != key by {
                assert(entries[j].0 != key);
            }
        }
        lemma_lookup_at(after, key, i);
    } else {
        assert forall|j: int| 0 <= j < after.len() implies (#[trigger] after[j]).0 != key by {
            if entries[j].0 == key {
                lemma_has_key(entries, key, j);
            }
        }
        lemma_lookup_absent(after, key);
    }
}

/// A rewritten page is a page: rewriting changes references only.
pub proof fn lemma_rewritten_page(v: Value, ids: Map<ObjectId, ObjectId>)
    requires
        v matches Value::Dictionary(entries) && lookup(entries, type_key()) == Some(
            Value::Name(page_name()),
        ),
    ensures
        rewrite(v, ids) matches Value::Dictionary(entries) && lookup(entries, type_key()) == Some(
            Value::Name(page_name()),
        ),
{
    lemma_rewrite(v, ids);
    lemma_lookup_rewritten(v->Dictionary_0, ids, type_key());
    lemma_rewrite(Value::Name(page_name()), ids);
}

/// `after` is `before` but for what a dictionary holds as `Parent`.
pub open spec fn keeps_but_parent(before: Value, after: Value) -> bool {
    match before {
        Value::Dictionary(entries) => after matches Value::Dictionary(changed) && forall|
            key: Seq<u8>,
        |
            key != parent_key() ==> #[trigger] lookup(changed, key) == lookup(entries, key),
        _ => after == before,
    }
}

/// The two hold the same objects but for their parents.
pub open spec fn same_but_parents(a: Map<ObjectId, Value>, b: Map<ObjectId, Value>) -> bool {
    &&& a.dom() == b.dom()
    &&& forall|id: ObjectId| #[trigger] a.dom().contains(id) ==> keeps_but_parent(a[id], b[id])
}

/// Giving pages a parent changes nothing but parents.
pub proof fn lemma_adopt_all(objs: Map<ObjectId, Value>, pages: Seq<ObjectId>, parent: ObjectId)
    ensures
        same_but_parents(objs, adopt_all(objs, pages, parent)),
    decreases pages.len(),
{
    if pages.len() > 0 {
        let before = adopt_all(objs, pages.drop_last(), parent);
        let after = adopt(before, pages.last(), parent);
        lemma_adopt_all(objs, pages.drop_last(), parent);
        assert(after.dom() =~= objs.dom());
        assert forall|id: ObjectId| #[trigger] objs.dom().contains(id) implies keeps_but_parent(
            objs[id],
            after[id],
        ) by {
            assert(keeps_but_parent(objs[id], before[id]));
            if id == pages.last() {
                match before[id] {
                    Value::Dictionary(entries) => {
                        lemma_put(entries, parent_key(), Value::Reference(parent));
                    },
                    _ => {},
                }
            }
        }
    }
}

/// `Type` and `Kids` are not `Parent`.
proof fn lemma_names_differ()
    ensures
        type_key() != parent_key(),
        kids_key() != parent_key(),
        pages_key() != type_key(),
{
    assert(type_key().len() == 4);
    assert(kids_key().len() == 4);
    assert(parent_key().len() == 6);
    assert(pages_key().len() == 5);
}

/// What changes parents only changes neither what a kid stands for nor the
/// kids of a node.
pub proof fn lemma_same_structure(a: Map<ObjectId, Value>, b: Map<ObjectId, Value>, id: ObjectId)
    requires
        same_but_parents(a, b),
    ensures
        kind_of(b, Value::Reference(id)) == kind_of(a, Value::Reference(id)),
        kids_of(b, id) == kids_of(a, id),
        a.dom().contains(id) ==> (a[id] is Dictionary <==> b[id] is Dictionary),
{
    lemma_names_differ();
    if a.dom().contains(id) {
        assert(keeps_but_parent(a[id], b[id]));
        match a[id] {
            Value::Dictionary(entries) => {
                let changed = b[id]->Dictionary_0;
                assert(lookup(changed, type_key()) == lookup(entries, type_key()));
                assert(lookup(changed, kids_key()) == lookup(entries, kids_key()));
            },
            _ => {},
        }
    }
}

/// The pages below kids that all refer to pages are those pages, in the
/// order of the kids.
pub proof fn lemma_leaves_of_pages(
    objs: Map<ObjectId, Value>,
    pages: Seq<ObjectId>,
    ancestors: Set<ObjectId>,
)
    requires
        objs.dom().finite(),
        all_pages(objs, pages),
    ensures
        leaves_under(objs, kid_refs(pages), ancestors) == Some(pages),
    decreases pages.len(),
{
    let kids = kid_refs(pages);
    if pages.len() == 0 {
        assert(pages =~= Seq::<ObjectId>::empty());
    } else {
        let rest = pages.drop_first();
        assert(kids.drop_first() =~= kid_refs(rest));
        assert(all_pages(objs, rest)) by {
            assert forall|i: int| 0 <= i < rest.len() implies is_page(objs, #[trigger] rest[i]) by {
                assert(rest[i] == pages[i + 1]);
            }
        }
        lemma_leaves_of_pages(objs, rest, ancestors);
        assert(is_page(objs, pages[0]));
        assert(kids[0] == Value::Reference(pages[0]));
        assert(seq![pages[0]] + rest =~= pages);
    }
}

/// Every identity that the walk finds below the given kids is a page.
pub proof fn lemma_leaves_are_pages(
    objs: Map<ObjectId, Value>,
    kids: Seq<Value>,
    ancestors: Set<ObjectId>,
)
    requires
        objs.dom().finite(),
        leaves_under(objs, kids, ancestors) is Some,
    ensures
        all_pages(objs, leaves_under(objs, kids, ancestors)->Some_0),
    decreases crate::walker::remaining(objs, ancestors), kids.len(),
{
    if kids.len() > 0 {
        let rest = leaves_under(objs, kids.drop_first(), ancestors);
        lemma_leaves_are_pages(objs, kids.drop_first(), ancestors);
        let all = leaves_under(objs, kids, ancestors)->Some_0;
        match kind_of(objs, kids[0]) {
            KidKind::Page(id) => {
                assert(is_page(objs, id));
                assert forall|i: int| 0 <= i < all.len() implies is_page(objs, #[trigger] all[i]) by {
                    if i > 0 {
                        assert(all[i] == rest->Some_0[i - 1]);
                    }
                }
            },
            KidKind::Node(id) => {
                crate::walker::lemma_remaining_decreases(objs, ancestors, id);
                let below = leaves_under(objs, kids_of(objs, id), ancestors.insert(id));
                lemma_leaves_are_pages(objs, kids_of(objs, id), ancestors.insert(id));
                assert forall|i: int| 0 <= i < all.len() implies is_page(objs, #[trigger] all[i]) by {
                    if i < below->Some_0.len() {
                        assert(all[i] == below->Some_0[i]);
                    } else {
                        assert(all[i] == rest->Some_0[i - below->Some_0.len()]);
                    }
                }
            },
            KidKind::Other => {
                assert(all =~= rest->Some_0);
            },
        }
    }
}

/// The page index of a document whose structure was built for pages of its
/// own is the sequence of those pages.
pub proof fn built_index_is_pages(doc: DocumentView, pages: Seq<ObjectId>)
    requires
        doc.wf(),
        buildable(doc, pages),
        all_pages(doc.objects, pages),
    ensures
        page_index(built(doc, pages)) == Some(pages),
        built(doc, pages).wf(),
{
    let node = ((doc.max_id + 1) as u32, 0u16);
    let catalog = ((doc.max_id + 2) as u32, 0u16);
    let seeded = doc.objects.insert(node, pages_node(pages));
    let adopted = adopt_all(seeded, pages, node);
    let objs = adopted.insert(catalog, catalog_value(node));
    let out = built(doc, pages);
    lemma_adopt_all(seeded, pages, node);
    lemma_names_differ();
    assert(!doc.objects.dom().contains(node));
    assert(!doc.objects.dom().contains(catalog));
    // The chain from the trailer to the node of the page tree.
    lemma_put(doc.trailer, root_key(), Value::Reference(catalog));
    lemma_put(
        put(Seq::empty(), type_key(), Value::Name(crate::names::catalog_name())),
        pages_key(),
        Value::Reference(node),
    );
    assert(seeded.dom().contains(node));
    assert(keeps_but_parent(seeded[node], adopted[node]));
    assert(objs[node] is Dictionary);
    assert(page_root(out) == Some(node));
    // The kids of the node are the references to the pages.
    lemma_same_structure(seeded, adopted, node);
    lemma_put(
        put(
            put(Seq::empty(), type_key(), Value::Name(pages_key())),
            crate::names::count_key(),
            Value::Integer(pages.len() as i64),
        ),
        kids_key(),
        Value::Array(kid_refs(pages)),
    );
    assert(kids_of(seeded, node) == kid_refs(pages));
    assert(kids_of(objs, node) == kid_refs(pages));
    // Every page is still a page.
    assert(all_pages(objs, pages)) by {
        assert forall|i: int| 0 <= i < pages.len() implies is_page(objs, #[trigger] pages[i]) by {
            let p = pages[i];
            assert(is_page(doc.objects, p));
            assert(doc.objects.dom().contains(p));
            lemma_same_structure(seeded, adopted, p);
            assert(kind_of(seeded, Value::Reference(p)) == kind_of(
                doc.objects,
                Value::Reference(p),
            ));
        }
    }
    assert(objs.dom() =~= doc.objects.dom().insert(node).insert(catalog));
    lemma_leaves_of_pages(objs, pages, set![node]);
}

/// Every page number is held by the index, and the selected pages are
/// pages of the document.
proof fn lemma_roots_are_pages(doc: DocumentView, index: Seq<ObjectId>, pages: Seq<u32>)
    requires
        doc.wf(),
        page_index(doc) == Some(index),
        forall|i: int| 0 <= i < pages.len() ==> has_page(index, #[trigger] pages[i]),
    ensures
        all_pages(doc.objects, roots_of(index, pages)),
{
    let root = page_root(doc)->Some_0;
    lemma_leaves_are_pages(doc.objects, kids_of(doc.objects, root), set![root]);
    let roots = roots_of(index, pages);
    assert forall|i: int| 0 <= i < roots.len() implies is_page(doc.objects, #[trigger] roots[i]) by {
        assert(has_page(index, pages[i]));
        assert(roots[i] == index[pages[i] - 1]);
    }
}

/// The pages of an extracted document are the new identities of the roots,
/// one for each root and in the order of the roots: page `i` of the output
/// is what root `i` became.
pub proof fn extracted_pages_follow_roots(doc: DocumentView, roots: Seq<ObjectId>)
    requires
        doc.wf(),
        all_pages(doc.objects, roots),
        extracted(doc, roots) is Ok,
    ensures
        ({
            let got = closure(doc.objects, roots.to_set());
            let out = extracted(doc, roots)->Ok_0;
            &&& page_index(out) matches Some(pages)
            &&& pages.len() == roots.len()
            &&& forall|i: int|
                0 <= i < roots.len() ==> #[trigger] pages[i] == new_id(got.dom(), 0, roots[i])
        }),
{
    let objs = doc.objects;
    let got = closure(objs, roots.to_set());
    let ids = assigned(got.dom(), 0);
    let start = moved(got);
    let pages = mapped(roots, ids);
    assert(got.dom().subset_of(objs.dom()));
    vstd::set_lib::lemma_set_subset_finite(objs.dom(), got.dom());
    assert(ids.dom() =~= got.dom());
    assert forall|i: int| 0 <= i < roots.len() implies got.dom().contains(#[trigger] roots[i]) by {
        assert(is_page(objs, roots[i]));
        assert(roots.to_set().contains(roots[i]));
        lemma_root_reachable(objs, roots.to_set(), roots[i]);
    }
    lemma_mapped_all(roots, ids);
    // The moved document is well formed, and the new pages are pages of it.
    assert(start.wf()) by {
        vstd::map_lib::lemma_values_finite(ids);
        assert(start.objects.dom() =~= ids.values());
        assert forall|k: ObjectId| #[trigger] start.objects.dom().contains(k) implies k.0
            <= start.max_id by {
            let old = choose|old: ObjectId| ids.dom().contains(old) && ids[old] == k;
            lemma_rank_ordered(got.dom(), old, old);
        }
    }
    assert(all_pages(start.objects, pages)) by {
        assert forall|i: int| 0 <= i < pages.len() implies is_page(
            start.objects,
            #[trigger] pages[i],
        ) by {
            let r = roots[i];
            let k = new_id(got.dom(), 0, r);
            assert(ids.dom().contains(r) && ids[r] == k);
            assert(ids.values().contains(k));
            let src = source_of(got.dom(), 0, k);
            assert(got.dom().contains(r) && new_id(got.dom(), 0, r) == k);
            lemma_rank_ordered(got.dom(), src, r);
            lemma_rank_ordered(got.dom(), r, src);
            assert(src == r);
            assert(start.objects[k] == rewrite(got[r], ids));
            assert(is_page(objs, r));
            lemma_rewritten_page(objs[r], ids);
        }
    }
    built_index_is_pages(start, pages);
}

/// Where `ids` holds every one of `pages`, their new identities are as
/// many, each that of the page at its position.
pub proof fn lemma_mapped_all(pages: Seq<ObjectId>, ids: Map<ObjectId, ObjectId>)
    requires
        forall|i: int| 0 <= i < pages.len() ==> ids.dom().contains(#[trigger] pages[i]),
    ensures
        mapped(pages, ids).len() == pages.len(),
        forall|i: int| 0 <= i < pages.len() ==> #[trigger] mapped(pages, ids)[i] == ids[pages[i]],
    decreases pages.len(),
{
    if pages.len() > 0 {
        let rest = pages.drop_last();
        assert forall|i: int| 0 <= i < rest.len() implies ids.dom().contains(#[trigger] rest[i]) by {
            assert(rest[i] == pages[i]);
        }
        lemma_mapped_all(rest, ids);
        assert(ids.dom().contains(pages[pages.len() - 1]));
        assert forall|i: int| 0 <= i < pages.len() implies #[trigger] mapped(pages, ids)[i]
            == ids[pages[i]] by {
            if i < rest.len() {
                assert(mapped(rest, ids)[i] == ids[rest[i]]);
                assert(rest[i] == pages[i]);
            }
        }
    }
}

/// An extraction that succeeds yields a document with one page for each
/// page number given, in the order given: page `i` of the output is what
/// the page with the `i`-th number became.
pub proof fn extraction_keeps_pages(doc: DocumentView, pages: Seq<u32>)
    requires
        doc.wf(),
        extraction(doc, pages) is Ok,
    ensures
        ({
            let index = page_index(doc)->Some_0;
            let roots = roots_of(index, pages);
            let got = closure(doc.objects, roots.to_set());
            let out = extraction(doc, pages)->Ok_0;
            &&& page_index(doc) is Some
            &&& page_index(out) matches Some(new_pages)
            &&& new_pages.len() == pages.len()
            &&& forall|i: int|
                0 <= i < pages.len() ==> #[trigger] new_pages[i] == new_id(
                    got.dom(),
                    0,
                    index[pages[i] - 1],
                )
        }),
{
    let index = page_index(doc)->Some_0;
    assert forall|i: int| 0 <= i < pages.len() implies has_page(index, #[trigger] pages[i]) by {
        if !has_page(index, pages[i]) {
            lemma_some_absent(index, pages, i);
        }
    }
    lemma_roots_are_pages(doc, index, pages);
    extracted_pages_follow_roots(doc, roots_of(index, pages));
}

/// Where the index lacks one of the page numbers, there is a first that it
/// lacks.
proof fn lemma_some_absent(index: Seq<ObjectId>, pages: Seq<u32>, i: int)
    requires
        0 <= i < pages.len(),
        !has_page(index, pages[i]),
    ensures
        exists|k: int| crate::ops::absent_at(index, pages, k),
    decreases i,
{
    if forall|j: int| 0 <= j < i ==> has_page(index, #[trigger] pages[j]) {
        assert(crate::ops::absent_at(index, pages, i));
    } else {
        let j = choose|j: int| 0 <= j < i && !has_page(index, #[trigger] pages[j]);
        lemma_some_absent(index, pages, j);
    }
}

/// The page numbers `1` to `count`.
pub open spec fn every_page(count: nat) -> Seq<u32> {
    Seq::new(count, |i: int| (i + 1) as u32)
}

/// A document from which all pages are extracted yields a document with as
/// many pages, in the same order.
pub proof fn full_extraction_keeps_page_count(doc: DocumentView)
    requires
        doc.wf(),
        page_index(doc) matches Some(index) && extraction(doc, every_page(index.len())) is Ok,
    ensures
        ({
            let index = page_index(doc)->Some_0;
            let out = extraction(doc, every_page(index.len()))->Ok_0;
            page_index(out) matches Some(pages) && pages.len() == index.len()
        }),
{
    let index = page_index(doc)->Some_0;
    extraction_keeps_pages(doc, every_page(index.len()));
}

/// How many pages the first `k` documents have together.
pub open spec fn page_total(docs: Seq<DocumentView>, k: nat) -> nat
    decreases k,
{
    if k == 0 {
        0
    } else {
        page_total(docs, (k - 1) as nat) + match page_index(docs[k - 1]) {
            Some(index) => index.len(),
            None => 0,
        }
    }
}

/// Placing what the pages of a source reach keeps the pages that were
/// there and adds one page for each page of the source.
proof fn lemma_placing_adds_pages(
    out: DocumentView,
    pages: Seq<ObjectId>,
    source: DocumentView,
    index: Seq<ObjectId>,
)
    requires
        out.wf(),
        all_pages(out.objects, pages),
        source.wf(),
        all_pages(source.objects, index),
        out.max_id + closure(source.objects, index.to_set()).dom().len() <= u32::MAX,
    ensures
        ({
            let got = closure(source.objects, index.to_set());
            let after = DocumentView {
                objects: placed(out.objects, got, out.max_id),
                max_id: out.max_id + got.dom().len(),
                ..out
            };
            let more = mapped(index, assigned(got.dom(), out.max_id));
            &&& after.wf()
            &&& more.len() == index.len()
            &&& all_pages(after.objects, pages + more)
        }),
{
    let objs = source.objects;
    let base = out.max_id;
    let got = closure(objs, index.to_set());
    let ids = assigned(got.dom(), base);
    let after = placed(out.objects, got, base);
    let more = mapped(index, ids);
    assert(got.dom().subset_of(objs.dom()));
    vstd::set_lib::lemma_set_subset_finite(objs.dom(), got.dom());
    assert(ids.dom() =~= got.dom());
    vstd::map_lib::lemma_values_finite(ids);
    assert(after.dom() =~= out.objects.dom().union(ids.values()));
    assert forall|k: ObjectId| ids.values().contains(k) implies base < k.0 <= base
        + got.dom().len() by {
        let old = choose|old: ObjectId| ids.dom().contains(old) && ids[old] == k;
        lemma_rank_ordered(got.dom(), old, old);
    }
    assert forall|i: int| 0 <= i < index.len() implies got.dom().contains(#[trigger] index[i]) by {
        assert(is_page(objs, index[i]));
        assert(index.to_set().contains(index[i]));
        lemma_root_reachable(objs, index.to_set(), index[i]);
    }
    lemma_mapped_all(index, ids);
    let all = pages + more;
    assert forall|i: int| 0 <= i < all.len() implies is_page(after, #[trigger] all[i]) by {
        if i < pages.len() {
            let p = pages[i];
            assert(all[i] == p);
            assert(is_page(out.objects, p));
            assert(out.objects.dom().contains(p));
            assert(!ids.values().contains(p));
            assert(after[p] == out.objects[p]);
        } else {
            let r = index[i - pages.len()];
            let k = new_id(got.dom(), base, r);
            assert(all[i] == more[i - pages.len()]);
            assert(ids.dom().contains(r) && ids[r] == k);
            assert(ids.values().contains(k));
            let src = source_of(got.dom(), base, k);
            assert(got.dom().contains(r) && new_id(got.dom(), base, r) == k);
            lemma_rank_ordered(got.dom(), src, r);
            lemma_rank_ordered(got.dom(), r, src);
            assert(src == r);
            assert(after[k] == rewrite(got[r], ids));
            assert(is_page(objs, r));
            lemma_rewritten_page(objs[r], ids);
        }
    }
}

/// What was gathered from the first `k` sources is well formed and holds
/// a page for each page of these sources.
proof fn lemma_gathered(docs: Seq<DocumentView>, k: nat)
    requires
        forall|i: int| 0 <= i < docs.len() ==> (#[trigger] docs[i]).wf(),
        k <= docs.len(),
        gathered(docs, k) is Ok,
    ensures
        gathered(docs, k)->Ok_0.0.wf(),
        all_pages(gathered(docs, k)->Ok_0.0.objects, gathered(docs, k)->Ok_0.1),
        gathered(docs, k)->Ok_0.1.len() == page_total(docs, k),
    decreases k,
{
    if k == 0 {
        let none = Map::<ObjectId, Value>::empty();
        let ids = assigned(none.dom(), 0);
        assert(ids.values() =~= Set::<ObjectId>::empty()) by {
            assert forall|x: ObjectId| !ids.values().contains(x) by {
                if ids.values().contains(x) {
                    let old = choose|old: ObjectId| ids.dom().contains(old) && ids[old] == x;
                }
            }
        }
        assert(placed(none, none, 0).dom() =~= Set::<ObjectId>::empty());
    } else {
        let before = gathered(docs, (k - 1) as nat);
        lemma_gathered(docs, (k - 1) as nat);
        let (out, pages) = before->Ok_0;
        let source = docs[k - 1];
        assert(source.wf());
        let index = page_index(source)->Some_0;
        let root = page_root(source)->Some_0;
        lemma_leaves_are_pages(source.objects, kids_of(source.objects, root), set![root]);
        lemma_placing_adds_pages(out, pages, source, index);
    }
}

/// A merge that succeeds yields a document whose pages are those of the
/// sources: as many as all sources have together, those of the first
/// source first and in their order, then those of the second, and so on.
pub proof fn merge_keeps_all_pages(docs: Seq<DocumentView>)
    requires
        forall|i: int| 0 <= i < docs.len() ==> (#[trigger] docs[i]).wf(),
        merged(docs) is Ok,
    ensures
        gathered(docs, docs.len()) is Ok,
        page_index(merged(docs)->Ok_0) == Some(gathered(docs, docs.len())->Ok_0.1),
        gathered(docs, docs.len())->Ok_0.1.len() == page_total(docs, docs.len()),
{
    lemma_gathered(docs, docs.len());
    let (out, pages) = gathered(docs, docs.len())->Ok_0;
    built_index_is_pages(out, pages);
}

/// The two hold the same identities, and under each the same `Type` and
/// the same `Kids`.
pub open spec fn same_tree(a: Map<ObjectId, Value>, b: Map<ObjectId, Value>) -> bool {
    &&& a.dom() == b.dom()
    &&& forall|id: ObjectId|
        #![trigger kids_of(a, id)]
        #![trigger kind_of(a, Value::Reference(id))]
        kind_of(a, Value::Reference(id)) == kind_of(b, Value::Reference(id)) && kids_of(a, id)
            == kids_of(b, id)
}

/// The walk reads nothing but `Type` and `Kids`: where two sets of objects
/// agree in these, the pages below any kids are the same.
pub proof fn walk_reads_type_and_kids_only(
    a: Map<ObjectId, Value>,
    b: Map<ObjectId, Value>,
    kids: Seq<Value>,
    ancestors: Set<ObjectId>,
)
    requires
        a.dom().finite(),
        same_tree(a, b),
    ensures
        leaves_under(a, kids, ancestors) == leaves_under(b, kids, ancestors),
    decreases crate::walker::remaining(a, ancestors), kids.len(),
{
    if kids.len() > 0 {
        walk_reads_type_and_kids_only(a, b, kids.drop_first(), ancestors);
        match kids[0] {
            Value::Reference(id) => {
                assert(kind_of(a, Value::Reference(id)) == kind_of(b, Value::Reference(id)));
                assert(kids_of(a, id) == kids_of(b, id));
                if kind_of(a, kids[0]) is Node && !ancestors.contains(id) {
                    crate::walker::lemma_remaining_decreases(a, ancestors, id);
                    walk_reads_type_and_kids_only(a, b, kids_of(a, id), ancestors.insert(id));
                }
            },
            _ => {},
        }
    }
}

/// The page index does not depend on any `Count`: a document in which a
/// dictionary holds another `Count` has the same page index.
pub proof fn page_index_ignores_count(doc: DocumentView, id: ObjectId, count: Value)
    requires
        doc.wf(),
        doc.objects.dom().contains(id),
        doc.objects[id] is Dictionary,
    ensures
        page_index(
            DocumentView {
                objects: doc.objects.insert(
                    id,
                    Value::Dictionary(put(doc.objects[id]->Dictionary_0, count_key(), count)),
                ),
                ..doc
            },
        ) == page_index(doc),
{
    let entries = doc.objects[id]->Dictionary_0;
    let changed = put(entries, count_key(), count);
    let objs = doc.objects;
    let other = objs.insert(id, Value::Dictionary(changed));
    lemma_put(entries, count_key(), count);
    assert(count_key().len() == 5);
    assert(type_key().len() == 4);
    assert(kids_key().len() == 4);
    assert(pages_key()[0] != count_key()[0]);
    assert(lookup(changed, type_key()) == lookup(entries, type_key()));
    assert(lookup(changed, kids_key()) == lookup(entries, kids_key()));
    assert(lookup(changed, pages_key()) == lookup(entries, pages_key()));
    assert(other.dom() =~= objs.dom());
    assert(same_tree(objs, other));
    let after = DocumentView { objects: other, ..doc };
    assert(page_root(after) == page_root(doc));
    if page_root(doc) is Some {
        let root = page_root(doc)->Some_0;
        walk_reads_type_and_kids_only(objs, other, kids_of(objs, root), set![root]);
    }
}

} // verus!
