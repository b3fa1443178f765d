//! The page tree walker: from a document to its pages in reading order.
//!
//! The pages are numbered by the walk itself, depth first and from left to
//! right through the `Kids` arrays. A `Count` that a node declares is never
//! read.

use crate::document::{Document, DocumentView};
use crate::error::PdfError;
use crate::names::{
    kids_key, kids_key_bytes, page_name, page_name_bytes, pages_key, pages_key_bytes, root_key,
    root_key_bytes, type_key, type_key_bytes,
};
use crate::object::{bytes_equal, lemma_array_view, lookup, view_all, ObjectId, ObjectValue, Value};
use crate::table::same_id;
use vstd::prelude::*;

verus! {

/// What an entry of a `Kids` array stands for.
#[derive(Debug, Clone, Copy, PartialEq, Eq)]
pub enum KidKind {
    /// A reference to a dictionary of type `Page`.
    Page(ObjectId),
    /// A reference to a dictionary of type `Pages`.
    Node(ObjectId),
    /// Anything else: it adds no page.
    Other,
}

/// What `kid` stands for among the objects `objs`.
pub open spec fn kind_of(objs: Map<ObjectId, Value>, kid: Value) -> KidKind {
    match kid {
        Value::Reference(id) => if objs.dom().contains(id) {
            match objs[id] {
                Value::Dictionary(entries) => match lookup(entries, type_key()) {
                    Some(Value::Name(name)) => if name == page_name() {
                        KidKind::Page(id)
                    } else if name == pages_key() {
                        KidKind::Node(id)
                    } else {
                        KidKind::Other
                    },
                    _ => KidKind::Other,
                },
                _ => KidKind::Other,
            }
        } else {
            KidKind::Other
        },
        _ => KidKind::Other,
    }
}

/// The `Kids` array of the dictionary `id`; empty where there is none.
pub open spec fn kids_of(objs: Map<ObjectId, Value>, id: ObjectId) -> Seq<Value> {
    if objs.dom().contains(id) {
        match objs[id] {
            Value::Dictionary(entries) => match lookup(entries, kids_key()) {
                Some(Value::Array(kids)) => kids,
                _ => Seq::empty(),
            },
            _ => Seq::empty(),
        }
    } else {
        Seq::empty()
    }
}

/// The root of the page tree: the dictionary that the catalog's `Pages`
/// refers to, the catalog being the dictionary that the trailer's `Root`
/// refers to. `None` where a link of this chain is missing or does not lead
/// to a dictionary of the document.
pub open spec fn page_root(doc: DocumentView) -> Option<ObjectId> {
    match lookup(doc.trailer, root_key()) {
        Some(Value::Reference(catalog)) => if doc.objects.dom().contains(catalog) {
            match doc.objects[catalog] {
                Value::Dictionary(entries) => match lookup(entries, pages_key()) {
                    Some(Value::Reference(root)) => if doc.objects.dom().contains(root)
                        && doc.objects[root] is Dictionary {
                        Some(root)
                    } else {
                        None
                    },
                    _ => None,
                },
                _ => None,
            }
        } else {
            None
        },
        _ => None,
    }
}

/// How many objects are not among `ancestors`.
pub open spec fn remaining(objs: Map<ObjectId, Value>, ancestors: Set<ObjectId>) -> nat {
    objs.dom().difference(ancestors).len()
}

/// One sequence after the other, where both exist.
pub open spec fn join(a: Option<Seq<ObjectId>>, b: Option<Seq<ObjectId>>) -> Option<Seq<ObjectId>> {
    match (a, b) {
        (Some(x), Some(y)) => Some(x + y),
        _ => None,
    }
}

/// Going down into a node that is not yet an ancestor leaves fewer objects.
pub proof fn lemma_remaining_decreases(
    objs: Map<ObjectId, Value>,
    ancestors: Set<ObjectId>,
    id: ObjectId,
)
    requires
        objs.dom().finite(),
        objs.dom().contains(id),
        !ancestors.contains(id),
    ensures
        remaining(objs, ancestors.insert(id)) < remaining(objs, ancestors),
{
    let before = objs.dom().difference(ancestors);
    let after = objs.dom().difference(ancestors.insert(id));
    assert(after =~= before.remove(id));
    assert(before.contains(id));
}

/// The pages below the given kids, in walking order: a page adds itself, a
/// node adds the pages below its own kids, anything else adds nothing.
/// `None` where the walk would enter a node that is its own ancestor.
pub open spec fn leaves_under(
    objs: Map<ObjectId, Value>,
    kids: Seq<Value>,
    ancestors: Set<ObjectId>,
) -> Option<Seq<ObjectId>>
    decreases remaining(objs, ancestors), kids.len(),
    when objs.dom().finite()
{
    if kids.len() == 0 {
        Some(Seq::empty())
    } else {
        let first = match kind_of(objs, kids[0]) {
            KidKind::Page(id) => Some(seq![id]),
            KidKind::Node(id) => if ancestors.contains(id) {
                None
            } else {
                proof {
                    lemma_remaining_decreases(objs, ancestors, id);
                }
                leaves_under(objs, kids_of(objs, id), ancestors.insert(id))
            },
            KidKind::Other => Some(Seq::empty()),
        };
        join(first, leaves_under(objs, kids.drop_first(), ancestors))
    }
}

/// The page index of a document: its pages in walking order, page number
/// `n` at position `n - 1`. `None` where the page tree cannot be reached or
/// runs in a circle.
pub open spec fn page_index(doc: DocumentView) -> Option<Seq<ObjectId>> {
    match page_root(doc) {
        Some(root) => leaves_under(doc.objects, kids_of(doc.objects, root), set![root]),
        None => None,
    }
}

/// What `kid` stands for in `doc`.
pub fn classify(doc: &Document, kid: &ObjectValue) -> (kind: KidKind)
    ensures
        kind == kind_of(doc@.objects, kid@),
{
    match kid {
        ObjectValue::Reference(id) => match doc.get_object(*id) {
            Some(ObjectValue::Dictionary(d)) => {
                let key = type_key_bytes();
                match d.get(key.as_slice()) {
                    Some(ObjectValue::Name(name)) => {
                        let page = page_name_bytes();
                        let pages = pages_key_bytes();
                        if bytes_equal(name.as_slice(), page.as_slice()) {
                            KidKind::Page(*id)
                        } else if bytes_equal(name.as_slice(), pages.as_slice()) {
                            KidKind::Node(*id)
                        } else {
                            KidKind::Other
                        }
                    },
                    _ => KidKind::Other,
                }
            },
            _ => KidKind::Other,
        },
        _ => KidKind::Other,
    }
}

/// The `Kids` array of the dictionary `id` of `doc`, if it has one.
pub fn node_kids(doc: &Document, id: ObjectId) -> (kids: Option<&Vec<ObjectValue>>)
    ensures
        match kids {
            Some(items) => view_all(items@) == kids_of(doc@.objects, id),
            None => kids_of(doc@.objects, id) == Seq::<Value>::empty(),
        },
{
    match doc.get_object(id) {
        Some(ObjectValue::Dictionary(d)) => {
            let key = kids_key_bytes();
            match d.get(key.as_slice()) {
                Some(ObjectValue::Array(items)) => {
                    proof {
                        lemma_array_view(*items);
                    }
                    Some(items)
                },
                _ => None,
            }
        },
        _ => None,
    }
}

/// The root of the page tree of `doc`.
pub fn find_page_root(doc: &Document) -> (root: Option<ObjectId>)
    ensures
        root == page_root(doc@),
{
    let root_key = root_key_bytes();
    match doc.trailer().get(root_key.as_slice()) {
        Some(ObjectValue::Reference(catalog)) => match doc.get_object(*catalog) {
            Some(ObjectValue::Dictionary(entries)) => {
                let pages_key = pages_key_bytes();
                match entries.get(pages_key.as_slice()) {
                    Some(ObjectValue::Reference(root)) => match doc.get_object(*root) {
                        Some(ObjectValue::Dictionary(_)) => Some(*root),
                        _ => None,
                    },
                    _ => None,
                }
            },
            _ => None,
        },
        _ => None,
    }
}

/// Whether `id` is on the path.
fn on_path(path: &Vec<ObjectId>, id: ObjectId) -> (found: bool)
    ensures
        found == path@.to_set().contains(id),
{
    let mut i: usize = 0;
    while i < path.len()
        invariant
            i <= path@.len(),
            forall|k: int| 0 <= k < i ==> path@[k] != id,
        decreases path@.len() - i,
    {
        if same_id(path[i], id) {
            return true;
        }
        i += 1;
    }
    false
}

proof fn lemma_join_step(done: Seq<ObjectId>, first: Option<Seq<ObjectId>>, rest: Option<Seq<ObjectId>>)
    ensures
        join(Some(done), join(first, rest)) == match first {
            Some(f) => join(Some(done + f), rest),
            None => None,
        },
{
    match (first, rest) {
        (Some(f), Some(r)) => {
            assert(done + (f + r) =~= (done + f) + r);
        },
        _ => {},
    }
}

/// Walks the given kids and appends the pages below them to `index`.
/// `path` holds the nodes that the walk is inside of.
fn walk_kids(
    doc: &Document,
    kids: &Vec<ObjectValue>,
    path: &mut Vec<ObjectId>,
    index: &mut Vec<ObjectId>,
) -> (ok: bool)
    requires
        doc@.objects.dom().finite(),
    ensures
        final(path)@ == old(path)@,
        match leaves_under(doc@.objects, view_all(kids@), old(path)@.to_set()) {
            Some(leaves) => ok && final(index)@ == old(index)@ + leaves,
            None => !ok,
        },
    decreases remaining(doc@.objects, old(path)@.to_set()), kids@.len(),
{
    let ghost objs = doc@.objects;
    let ghost path0 = path@;
    let ghost ancestors = path@.to_set();
    let ghost all = view_all(kids@);
    let ghost start = index@;
    let mut i: usize = 0;
    assert(all.subrange(0, all.len() as int) =~= all);
    assert(index@.subrange(start.len() as int, index@.len() as int) =~= Seq::<ObjectId>::empty());
    assert(leaves_under(objs, all, ancestors) == join(
        Some(Seq::<ObjectId>::empty()),
        leaves_under(objs, all, ancestors),
    )) by {
        match leaves_under(objs, all, ancestors) {
            Some(r) => {
                assert(Seq::<ObjectId>::empty() + r =~= r);
            },
            None => {},
        }
    }
    while i < kids.len()
        invariant
            i <= kids@.len(),
            objs == doc@.objects,
            objs.dom().finite(),
            all == view_all(kids@),
            all.len() == kids@.len(),
            path@ == path0,
            path0 == old(path)@,
            ancestors == path0.to_set(),
            start.len() <= index@.len(),
            index@.subrange(0, start.len() as int) == start,
            leaves_under(objs, all, ancestors) == join(
                Some(index@.subrange(start.len() as int, index@.len() as int)),
                leaves_under(objs, all.subrange(i as int, all.len() as int), ancestors),
            ),
        decreases kids@.len() - i,
    {
        let ghost rest = all.subrange(i as int, all.len() as int);
        let ghost tail = all.subrange(i + 1, all.len() as int);
        let ghost done = index@.subrange(start.len() as int, index@.len() as int);
        let ghost before = index@;
        proof {
            assert(rest.drop_first() =~= tail);
            assert(rest[0] == kids@[i as int]@);
        }
        let kind = classify(doc, &kids[i]);
        let ghost first: Option<Seq<ObjectId>> = match kind {
            KidKind::Page(id) => Some(seq![id]),
            KidKind::Node(id) => if ancestors.contains(id) {
                None
            } else {
                leaves_under(objs, kids_of(objs, id), ancestors.insert(id))
            },
            KidKind::Other => Some(Seq::empty()),
        };
        proof {
            assert(leaves_under(objs, rest, ancestors) == join(
                first,
                leaves_under(objs, tail, ancestors),
            ));
            lemma_join_step(done, first, leaves_under(objs, tail, ancestors));
        }
        match kind {
            KidKind::Page(id) => {
                index.push(id);
            },
            KidKind::Node(id) => {
                if on_path(path, id) {
                    return false;
                }
                proof {
                    lemma_remaining_decreases(objs, ancestors, id);
                    assert(path0.push(id).to_set() =~= ancestors.insert(id)) by {
                        assert forall|x: ObjectId|
                            path0.push(id).to_set().contains(x) implies ancestors.insert(
                            id,
                        ).contains(x) by {
                            let k = choose|k: int|
                                0 <= k < path0.push(id).len() && path0.push(id)[k] == x;
                            if k < path0.len() {
                                assert(path0[k] == x);
                            }
                        }
                        assert forall|x: ObjectId|
                            ancestors.insert(id).contains(x) implies path0.push(
                            id,
                        ).to_set().contains(x) by {
                            if x == id {
                                assert(path0.push(id)[path0.len() as int] == x);
                            } else {
                                let k = choose|k: int| 0 <= k < path0.len() && path0[k] == x;
                                assert(path0.push(id)[k] == x);
                            }
                        }
                    }
                }
                match node_kids(doc, id) {
                    Some(below) => {
                        path.push(id);
                        let ok = walk_kids(doc, below, path, index);
                        path.pop();
                        assert(path@ =~= path0);
                        if !ok {
                            return false;
                        }
                    },
                    None => {
                        assert(index@ + Seq::<ObjectId>::empty() =~= index@);
                    },
                }
            },
            KidKind::Other => {
                assert(index@ + Seq::<ObjectId>::empty() =~= index@);
            },
        }
        proof {
            let f = first->Some_0;
            assert(first is Some);
            assert(index@ =~= before + f);
            assert(index@.subrange(0, start.len() as int) =~= start);
            assert(index@.subrange(start.len() as int, index@.len() as int) =~= done + f);
        }
        i += 1;
    }
    proof {
        let done = index@.subrange(start.len() as int, index@.len() as int);
        assert(all.subrange(i as int, all.len() as int) =~= Seq::<Value>::empty());
        assert(done + Seq::<ObjectId>::empty() =~= done);
        assert(index@ =~= start + done);
    }
    true
}

/// The page index of `doc`: the identities of its pages in walking order,
/// page number `n` at position `n - 1`.
///
/// The walk starts at the catalog's `Pages` and goes through the `Kids`
/// arrays, depth first and from left to right. A kid that refers to a
/// dictionary of type `Pages` is entered; one that refers to a dictionary of
/// type `Page` is a page; any other kid is passed over. Fails with
/// `StructuralError` where the chain from the trailer to the page tree is
/// broken, or where a node would be entered from below itself.
pub fn walk(doc: &Document) -> (result: Result<Vec<ObjectId>, PdfError>)
    ensures
        match result {
            Ok(index) => page_index(doc@) == Some(index@),
            Err(e) => e == PdfError::StructuralError && page_index(doc@) is None,
        },
{
    let count = doc.object_count();
    let root = match find_page_root(doc) {
        Some(root) => root,
        None => {
            return Err(PdfError::StructuralError);
        },
    };
    let mut path: Vec<ObjectId> = Vec::new();
    path.push(root);
    assert(path@.to_set() =~= set![root]) by {
        assert(path@[0] == root);
    }
    let mut index: Vec<ObjectId> = Vec::new();
    match node_kids(doc, root) {
        Some(kids) => {
            if walk_kids(doc, kids, &mut path, &mut index) {
                assert(Seq::<ObjectId>::empty() + index@ =~= index@);
                Ok(index)
            } else {
                Err(PdfError::StructuralError)
            }
        },
        None => Ok(index),
    }
}

} // verus!
