//! The reachability collector: everything that a set of roots needs in
//! order to stand alone.
//!
//! A reference that leads to no object of the document is passed over: it
//! adds nothing to what is collected, and it stays as it is in the object
//! that holds it.

use crate::document::Document;
use crate::object::{
    lemma_array_view, view_all, Dictionary, Entries, ObjectId, ObjectValue, Value,
};
use crate::table::IdTable;
use vstd::prelude::*;
use vstd::set_lib::lemma_len_subset;

verus! {

/// Whether `id` is referenced anywhere inside `v`: by `v` itself, by an item
/// of an array, or by a value of a dictionary or of the dictionary of a
/// stream, at any depth.
pub open spec fn mentions(v: Value, id: ObjectId) -> bool
    decreases v,
{
    match v {
        Value::Reference(r) => r == id,
        Value::Array(items) => exists|i: int|
            0 <= i < items.len() && mentions(#[trigger] items[i], id),
        Value::Dictionary(entries) => exists|i: int|
            0 <= i < entries.len() && mentions((#[trigger] entries[i]).1, id),
        Value::Stream(entries, _) => exists|i: int|
            0 <= i < entries.len() && mentions((#[trigger] entries[i]).1, id),
        _ => false,
    }
}

/// Whether one of `items` mentions `id`.
pub open spec fn mentions_any(items: Seq<Value>, id: ObjectId) -> bool {
    exists|i: int| 0 <= i < items.len() && mentions(#[trigger] items[i], id)
}

/// Whether the value of one of `entries` mentions `id`.
pub open spec fn mentions_entry(entries: Entries, id: ObjectId) -> bool {
    exists|i: int| 0 <= i < entries.len() && mentions((#[trigger] entries[i]).1, id)
}

/// What `mentions` says of each kind of value.
pub proof fn lemma_mentions(v: Value, id: ObjectId)
    ensures
        mentions(v, id) == match v {
            Value::Reference(r) => r == id,
            Value::Array(items) => mentions_any(items, id),
            Value::Dictionary(entries) => mentions_entry(entries, id),
            Value::Stream(entries, _) => mentions_entry(entries, id),
            _ => false,
        },
{
    match v {
        Value::Array(items) => {
            if mentions(v, id) {
                let i = choose|i: int| 0 <= i < items.len() && mentions(#[trigger] items[i], id);
                assert(mentions(items[i], id));
            }
            if mentions_any(items, id) {
                let i = choose|i: int| 0 <= i < items.len() && mentions(#[trigger] items[i], id);
                assert(mentions(items[i], id));
            }
        },
        Value::Dictionary(entries) => {
            if mentions(v, id) {
                let i = choose|i: int|
                    0 <= i < entries.len() && mentions((#[trigger] entries[i]).1, id);
                assert(mentions(entries[i].1, id));
            }
            if mentions_entry(entries, id) {
                let i = choose|i: int|
                    0 <= i < entries.len() && mentions((#[trigger] entries[i]).1, id);
                assert(mentions(entries[i].1, id));
            }
        },
        Value::Stream(entries, _) => {
            if mentions(v, id) {
                let i = choose|i: int|
                    0 <= i < entries.len() && mentions((#[trigger] entries[i]).1, id);
                assert(mentions(entries[i].1, id));
            }
            if mentions_entry(entries, id) {
                let i = choose|i: int|
                    0 <= i < entries.len() && mentions((#[trigger] entries[i]).1, id);
                assert(mentions(entries[i].1, id));
            }
        },
        _ => {},
    }
}

/// A chain of objects of `objs`, each mentioning the next.
pub open spec fn is_path(objs: Map<ObjectId, Value>, path: Seq<ObjectId>) -> bool {
    &&& path.len() > 0
    &&& forall|i: int| 0 <= i < path.len() ==> objs.dom().contains(#[trigger] path[i])
    &&& forall|i: int| 0 <= i < path.len() - 1 ==> mentions(objs[#[trigger] path[i]], path[i + 1])
}

/// Whether a chain of references leads from one of `roots` to `target`.
pub open spec fn reachable(objs: Map<ObjectId, Value>, roots: Set<ObjectId>, target: ObjectId) -> bool {
    exists|path: Seq<ObjectId>|
        #[trigger] is_path(objs, path) && roots.contains(path[0]) && path.last() == target
}

/// The reachability closure of `roots`: the objects that a chain of
/// references leads to from a root, each with its value.
pub open spec fn closure(objs: Map<ObjectId, Value>, roots: Set<ObjectId>) -> Map<ObjectId, Value> {
    objs.restrict(Set::new(|target: ObjectId| reachable(objs, roots, target)))
}

/// A root that the document holds is reachable.
pub proof fn lemma_root_reachable(objs: Map<ObjectId, Value>, roots: Set<ObjectId>, root: ObjectId)
    requires
        roots.contains(root),
        objs.dom().contains(root),
    ensures
        reachable(objs, roots, root),
{
    let path = seq![root];
    assert(is_path(objs, path));
    assert(path[0] == root && path.last() == root);
}

/// What a reachable object mentions is reachable, where the document holds it.
pub proof fn lemma_step_reachable(
    objs: Map<ObjectId, Value>,
    roots: Set<ObjectId>,
    from: ObjectId,
    to: ObjectId,
)
    requires
        reachable(objs, roots, from),
        mentions(objs[from], to),
        objs.dom().contains(to),
    ensures
        reachable(objs, roots, to),
{
    let path = choose|path: Seq<ObjectId>|
        #[trigger] is_path(objs, path) && roots.contains(path[0]) && path.last() == from;
    let longer = path.push(to);
    assert(is_path(objs, longer)) by {
        assert forall|i: int| 0 <= i < longer.len() implies objs.dom().contains(
            #[trigger] longer[i],
        ) by {
            if i < path.len() {
                assert(longer[i] == path[i]);
            }
        }
        assert forall|i: int| 0 <= i < longer.len() - 1 implies mentions(
            objs[#[trigger] longer[i]],
            longer[i + 1],
        ) by {
            if i < path.len() - 1 {
                assert(longer[i] == path[i]);
                assert(longer[i + 1] == path[i + 1]);
            } else {
                assert(longer[i] == from);
            }
        }
    }
    assert(longer[0] == path[0]);
    assert(longer.last() == to);
}

/// A set that holds the roots and all that its members mention holds every
/// object of a chain that starts at a root.
proof fn lemma_closed_set_holds_path(
    objs: Map<ObjectId, Value>,
    roots: Set<ObjectId>,
    held: Set<ObjectId>,
    path: Seq<ObjectId>,
    i: int,
)
    requires
        is_path(objs, path),
        roots.contains(path[0]),
        0 <= i < path.len(),
        forall|r: ObjectId| roots.contains(r) && objs.dom().contains(r) ==> held.contains(r),
        forall|a: ObjectId, b: ObjectId|
            held.contains(a) && #[trigger] mentions(objs[a], b) && objs.dom().contains(b)
                ==> held.contains(b),
    ensures
        held.contains(path[i]),
    decreases i,
{
    if i > 0 {
        lemma_closed_set_holds_path(objs, roots, held, path, i - 1);
        assert(mentions(objs[path[i - 1]], path[i - 1 + 1]));
    }
}

/// The closure holds every root that the document holds, and with each of
/// its objects every object of the document that this one mentions.
pub proof fn closure_is_closed(objs: Map<ObjectId, Value>, roots: Set<ObjectId>)
    ensures
        forall|r: ObjectId|
            roots.contains(r) && objs.dom().contains(r) ==> #[trigger] closure(
                objs,
                roots,
            ).dom().contains(r),
        forall|a: ObjectId, b: ObjectId|
            closure(objs, roots).dom().contains(a) && #[trigger] mentions(
                closure(objs, roots)[a],
                b,
            ) && objs.dom().contains(b) ==> closure(objs, roots).dom().contains(b),
        forall|a: ObjectId| #[trigger]
            closure(objs, roots).dom().contains(a) ==> objs.dom().contains(a) && closure(
                objs,
                roots,
            )[a] == objs[a],
{
    assert forall|r: ObjectId| roots.contains(r) && objs.dom().contains(r) implies #[trigger] closure(
        objs,
        roots,
    ).dom().contains(r) by {
        lemma_root_reachable(objs, roots, r);
    }
    assert forall|a: ObjectId, b: ObjectId|
        closure(objs, roots).dom().contains(a) && #[trigger] mentions(closure(objs, roots)[a], b)
            && objs.dom().contains(b) implies closure(objs, roots).dom().contains(b) by {
        lemma_step_reachable(objs, roots, a, b);
    }
}

/// The closure is the least such set: whatever holds the roots and all that
/// its members mention holds the whole closure.
pub proof fn closure_is_least(objs: Map<ObjectId, Value>, roots: Set<ObjectId>, held: Set<ObjectId>)
    requires
        forall|r: ObjectId| roots.contains(r) && objs.dom().contains(r) ==> held.contains(r),
        forall|a: ObjectId, b: ObjectId|
            held.contains(a) && #[trigger] mentions(objs[a], b) && objs.dom().contains(b)
                ==> held.contains(b),
    ensures
        closure(objs, roots).dom().subset_of(held),
{
    assert forall|t: ObjectId| closure(objs, roots).dom().contains(t) implies held.contains(t) by {
        let path = choose|path: Seq<ObjectId>|
            #[trigger] is_path(objs, path) && roots.contains(path[0]) && path.last() == t;
        lemma_closed_set_holds_path(objs, roots, held, path, path.len() - 1);
    }
}

/// Appends to `out` every identity that `value` mentions.
fn push_references(value: &ObjectValue, out: &mut Vec<ObjectId>)
    ensures
        forall|x: ObjectId|
            #[trigger] final(out)@.contains(x) <==> old(out)@.contains(x) || mentions(value@, x),
    decreases value,
{
    let ghost before = out@;
    match value {
        ObjectValue::Reference(id) => {
            out.push(*id);
            assert forall|x: ObjectId| #[trigger]
                out@.contains(x) <==> before.contains(x) || mentions(value@, x) by {
                if out@.contains(x) {
                    let k = choose|k: int| 0 <= k < out@.len() && out@[k] == x;
                    if k < before.len() {
                        assert(before[k] == x);
                    }
                }
                if before.contains(x) {
                    let k = choose|k: int| 0 <= k < before.len() && before[k] == x;
                    assert(out@[k] == x);
                }
                if x == *id {
                    assert(out@[before.len() as int] == x);
                }
            }
        },
        ObjectValue::Array(items) => {
            proof {
                lemma_array_view(*items);
            }
            push_all_references(items, out);
            assert forall|x: ObjectId| #[trigger]
                out@.contains(x) <==> before.contains(x) || mentions(value@, x) by {
                lemma_mentions(value@, x);
            }
        },
        ObjectValue::Dictionary(d) => {
            push_entry_references(d, out);
            assert forall|x: ObjectId| #[trigger]
                out@.contains(x) <==> before.contains(x) || mentions(value@, x) by {
                lemma_mentions(value@, x);
            }
        },
        ObjectValue::Stream(s) => {
            push_entry_references(&s.dict, out);
            assert forall|x: ObjectId| #[trigger]
                out@.contains(x) <==> before.contains(x) || mentions(value@, x) by {
                lemma_mentions(value@, x);
            }
        },
        _ => {
            assert forall|x: ObjectId| #[trigger]
                out@.contains(x) <==> before.contains(x) || mentions(value@, x) by {
                assert(!mentions(value@, x));
            }
        },
    }
}

/// Appends to `out` every identity that one of `items` mentions.
fn push_all_references(items: &Vec<ObjectValue>, out: &mut Vec<ObjectId>)
    ensures
        forall|x: ObjectId|
            #[trigger] final(out)@.contains(x) <==> old(out)@.contains(x) || mentions_any(
                view_all(items@),
                x,
            ),
    decreases items,
{
    let ghost start = out@;
    let ghost all = view_all(items@);
    let mut i: usize = 0;
    while i < items.len()
        invariant
            i <= items@.len(),
            all == view_all(items@),
            forall|x: ObjectId|
                #[trigger] out@.contains(x) <==> start.contains(x) || mentions_any(
                    all.subrange(0, i as int),
                    x,
                ),
        decreases items@.len() - i,
    {
        let ghost before = out@;
        push_references(&items[i], out);
        proof {
            assert(all[i as int] == items@[i as int]@);
            assert forall|x: ObjectId| #[trigger]
                out@.contains(x) <==> start.contains(x) || mentions_any(
                    all.subrange(0, i + 1),
                    x,
                ) by {
                lemma_mentions_any_step(all, i as int, x);
                assert(before.contains(x) <==> start.contains(x) || mentions_any(
                    all.subrange(0, i as int),
                    x,
                ));
            }
        }
        i += 1;
    }
    assert(all.subrange(0, i as int) =~= all);
}

/// Whether one of the first `n + 1` items mentions `id`: one of the first
/// `n` does, or item `n` does.
proof fn lemma_mentions_any_step(all: Seq<Value>, n: int, id: ObjectId)
    requires
        0 <= n < all.len(),
    ensures
        mentions_any(all.subrange(0, n + 1), id) <==> mentions_any(all.subrange(0, n), id)
            || mentions(all[n], id),
{
    let shorter = all.subrange(0, n);
    let longer = all.subrange(0, n + 1);
    if mentions_any(longer, id) {
        let j = choose|j: int| 0 <= j < longer.len() && mentions(#[trigger] longer[j], id);
        if j < n {
            assert(shorter[j] == longer[j]);
        } else {
            assert(longer[j] == all[n]);
        }
    }
    if mentions_any(shorter, id) {
        let j = choose|j: int| 0 <= j < shorter.len() && mentions(#[trigger] shorter[j], id);
        assert(longer[j] == shorter[j]);
    }
    if mentions(all[n], id) {
        assert(longer[n] == all[n]);
    }
}

/// The same for the values of entries.
proof fn lemma_mentions_entry_step(all: Entries, n: int, id: ObjectId)
    requires
        0 <= n < all.len(),
    ensures
        mentions_entry(all.subrange(0, n + 1), id) <==> mentions_entry(all.subrange(0, n), id)
            || mentions(all[n].1, id),
{
    let shorter = all.subrange(0, n);
    let longer = all.subrange(0, n + 1);
    if mentions_entry(longer, id) {
        let j = choose|j: int| 0 <= j < longer.len() && mentions((#[trigger] longer[j]).1, id);
        if j < n {
            assert(shorter[j] == longer[j]);
        } else {
            assert(longer[j] == all[n]);
        }
    }
    if mentions_entry(shorter, id) {
        let j = choose|j: int| 0 <= j < shorter.len() && mentions((#[trigger] shorter[j]).1, id);
        assert(longer[j] == shorter[j]);
    }
    if mentions(all[n].1, id) {
        assert(longer[n] == all[n]);
    }
}

/// Appends to `out` every identity that a value of `dict` mentions.
fn push_entry_references(dict: &Dictionary, out: &mut Vec<ObjectId>)
    ensures
        forall|x: ObjectId|
            #[trigger] final(out)@.contains(x) <==> old(out)@.contains(x) || mentions_entry(
                dict@,
                x,
            ),
    decreases dict,
{
    let ghost start = out@;
    let ghost all = dict@;
    let n = dict.len();
    let mut i: usize = 0;
    while i < n
        invariant
            i <= n,
            n == dict@.len(),
            all == dict@,
            forall|x: ObjectId|
                #[trigger] out@.contains(x) <==> start.contains(x) || mentions_entry(
                    all.subrange(0, i as int),
                    x,
                ),
        decreases n - i,
    {
        let ghost before = out@;
        let value = dict.value_at(i);
        push_references(value, out);
        proof {
            assert forall|x: ObjectId| #[trigger]
                out@.contains(x) <==> start.contains(x) || mentions_entry(
                    all.subrange(0, i + 1),
                    x,
                ) by {
                lemma_mentions_entry_step(all, i as int, x);
                assert(before.contains(x) <==> start.contains(x) || mentions_entry(
                    all.subrange(0, i as int),
                    x,
                ));
            }
        }
        i += 1;
    }
    assert(all.subrange(0, i as int) =~= all);
}

/// What holds while collecting: what has been collected is reachable and as
/// the document holds it; what is pending is reachable where the document
/// holds it; and every root, and whatever a collected object mentions, is
/// collected or pending where the document holds it.
#[verifier::opaque]
pub closed spec fn collecting(
    objs: Map<ObjectId, Value>,
    roots: Set<ObjectId>,
    got: Map<ObjectId, Value>,
    pending: Seq<ObjectId>,
) -> bool {
    &&& forall|id: ObjectId| #[trigger]
        got.dom().contains(id) ==> objs.dom().contains(id) && got[id] == objs[id] && reachable(
            objs,
            roots,
            id,
        )
    &&& forall|x: ObjectId| #[trigger]
        pending.contains(x) && objs.dom().contains(x) ==> reachable(objs, roots, x)
    &&& forall|root: ObjectId| #[trigger]
        roots.contains(root) && objs.dom().contains(root) ==> got.dom().contains(root)
            || pending.contains(root)
    &&& forall|a: ObjectId, b: ObjectId|
        got.dom().contains(a) && #[trigger] mentions(objs[a], b) && objs.dom().contains(b)
            ==> got.dom().contains(b) || pending.contains(b)
}

proof fn lemma_collecting_start(objs: Map<ObjectId, Value>, roots: Seq<ObjectId>)
    ensures
        collecting(objs, roots.to_set(), Map::empty(), roots),
{
    reveal(collecting);
    assert forall|x: ObjectId| #[trigger]
        roots.contains(x) && objs.dom().contains(x) implies reachable(objs, roots.to_set(), x) by {
        lemma_root_reachable(objs, roots.to_set(), x);
    }
}

proof fn lemma_drop_last_contains(queue: Seq<ObjectId>, x: ObjectId)
    requires
        queue.len() > 0,
    ensures
        queue.contains(x) <==> queue.drop_last().contains(x) || x == queue.last(),
{
    let rest = queue.drop_last();
    if queue.contains(x) {
        let k = choose|k: int| 0 <= k < queue.len() && queue[k] == x;
        if k < queue.len() - 1 {
            assert(rest[k] == x);
        }
    }
    if rest.contains(x) {
        let k = choose|k: int| 0 <= k < rest.len() && rest[k] == x;
        assert(queue[k] == x);
    }
    if x == queue.last() {
        assert(queue[queue.len() - 1] == x);
    }
}

proof fn lemma_collecting_skip(
    objs: Map<ObjectId, Value>,
    roots: Set<ObjectId>,
    got: Map<ObjectId, Value>,
    queue: Seq<ObjectId>,
)
    requires
        collecting(objs, roots, got, queue),
        queue.len() > 0,
        got.dom().contains(queue.last()) || !objs.dom().contains(queue.last()),
    ensures
        collecting(objs, roots, got, queue.drop_last()),
{
    reveal(collecting);
    let rest = queue.drop_last();
    assert forall|x: ObjectId| #[trigger]
        rest.contains(x) && objs.dom().contains(x) implies reachable(objs, roots, x) by {
        lemma_drop_last_contains(queue, x);
    }
    assert forall|root: ObjectId| #[trigger]
        roots.contains(root) && objs.dom().contains(root) implies got.dom().contains(root)
        || rest.contains(root) by {
        lemma_drop_last_contains(queue, root);
    }
    assert forall|a: ObjectId, b: ObjectId|
        got.dom().contains(a) && #[trigger] mentions(objs[a], b) && objs.dom().contains(
            b,
        ) implies got.dom().contains(b) || rest.contains(b) by {
        lemma_drop_last_contains(queue, b);
    }
}

proof fn lemma_collecting_take(
    objs: Map<ObjectId, Value>,
    roots: Set<ObjectId>,
    got: Map<ObjectId, Value>,
    queue: Seq<ObjectId>,
    after: Seq<ObjectId>,
)
    requires
        collecting(objs, roots, got, queue),
        queue.len() > 0,
        !got.dom().contains(queue.last()),
        objs.dom().contains(queue.last()),
        forall|x: ObjectId|
            #[trigger] after.contains(x) <==> queue.drop_last().contains(x) || mentions(
                objs[queue.last()],
                x,
            ),
    ensures
        collecting(objs, roots, got.insert(queue.last(), objs[queue.last()]), after),
        reachable(objs, roots, queue.last()),
{
    reveal(collecting);
    let id = queue.last();
    let rest = queue.drop_last();
    let more = got.insert(id, objs[id]);
    lemma_drop_last_contains(queue, id);
    assert(queue.contains(id));
    assert(reachable(objs, roots, id));
    assert forall|x: ObjectId| #[trigger]
        after.contains(x) && objs.dom().contains(x) implies reachable(objs, roots, x) by {
        if rest.contains(x) {
            lemma_drop_last_contains(queue, x);
        } else {
            lemma_step_reachable(objs, roots, id, x);
        }
    }
    assert forall|root: ObjectId| #[trigger]
        roots.contains(root) && objs.dom().contains(root) implies more.dom().contains(root)
        || after.contains(root) by {
        lemma_drop_last_contains(queue, root);
        if rest.contains(root) {
            assert(after.contains(root));
        }
    }
    assert forall|a: ObjectId, b: ObjectId|
        more.dom().contains(a) && #[trigger] mentions(objs[a], b) && objs.dom().contains(
            b,
        ) implies more.dom().contains(b) || after.contains(b) by {
        if a == id {
            assert(after.contains(b));
        } else {
            lemma_drop_last_contains(queue, b);
            if rest.contains(b) {
                assert(after.contains(b));
            }
        }
    }
}

proof fn lemma_collecting_done(
    objs: Map<ObjectId, Value>,
    roots: Set<ObjectId>,
    got: Map<ObjectId, Value>,
)
    requires
        collecting(objs, roots, got, Seq::empty()),
    ensures
        got == closure(objs, roots),
{
    reveal(collecting);
    let none = Seq::<ObjectId>::empty();
    assert forall|x: ObjectId| !none.contains(x) by {
        if none.contains(x) {
            let k = choose|k: int| 0 <= k < none.len() && none[k] == x;
        }
    }
    assert forall|r: ObjectId| roots.contains(r) && objs.dom().contains(r) implies got.dom().contains(
        r,
    ) by {
        assert(got.dom().contains(r) || none.contains(r));
    }
    assert forall|a: ObjectId, b: ObjectId|
        got.dom().contains(a) && #[trigger] mentions(objs[a], b) && objs.dom().contains(
            b,
        ) implies got.dom().contains(b) by {
        assert(got.dom().contains(b) || none.contains(b));
    }
    closure_is_least(objs, roots, got.dom());
    assert(got =~= closure(objs, roots));
}

proof fn lemma_collected_within(
    objs: Map<ObjectId, Value>,
    roots: Set<ObjectId>,
    got: Map<ObjectId, Value>,
    pending: Seq<ObjectId>,
)
    requires
        collecting(objs, roots, got, pending),
        objs.dom().finite(),
    ensures
        got.dom().finite(),
        got.dom().len() <= objs.dom().len(),
{
    reveal(collecting);
    assert(got.dom().subset_of(objs.dom()));
    lemma_len_subset(got.dom(), objs.dom());
}

/// Collects what `roots` need in order to stand alone: the objects of `doc`
/// that a chain of references leads to from a root, each as the document
/// holds it.
///
/// A root or a reference that leads to no object of the document adds
/// nothing. Payloads of streams are copied, never read.
pub fn collect(doc: &Document, roots: &Vec<ObjectId>) -> (collected: IdTable<ObjectValue>)
    ensures
        collected@ == closure(doc@.objects, roots@.to_set()),
{
    let total = doc.object_count();
    let ghost objs = doc@.objects;
    let ghost wanted = roots@.to_set();
    let mut collected: IdTable<ObjectValue> = IdTable::new();
    let mut pending: Vec<ObjectId> = Vec::new();
    let mut r: usize = 0;
    while r < roots.len()
        invariant
            r <= roots@.len(),
            pending@ == roots@.subrange(0, r as int),
        decreases roots@.len() - r,
    {
        pending.push(roots[r]);
        assert(pending@ =~= roots@.subrange(0, r + 1));
        r += 1;
    }
    assert(pending@ =~= roots@);
    proof {
        lemma_collecting_start(objs, roots@);
    }
    while pending.len() > 0
        invariant
            objs == doc@.objects,
            objs.dom().finite(),
            collecting(objs, wanted, collected@, pending@),
        decreases objs.dom().len() - collected@.dom().len(), pending@.len(),
    {
        let ghost queue = pending@;
        let ghost had = collected@;
        proof {
            lemma_collected_within(objs, wanted, had, queue);
        }
        let next = pending.pop();
        let id = match next {
            Some(id) => id,
            None => (0, 0),
        };
        assert(id == queue.last());
        assert(pending@ =~= queue.drop_last());
        if collected.contains(id) {
            proof {
                lemma_collecting_skip(objs, wanted, had, queue);
            }
        } else {
            match doc.get_object(id) {
                Some(value) => {
                    collected.insert(id, value.clone());
                    push_references(value, &mut pending);
                    proof {
                        lemma_collecting_take(objs, wanted, had, queue, pending@);
                        lemma_collected_within(objs, wanted, collected@, pending@);
                        assert(collected@.dom() =~= had.dom().insert(id));
                    }
                },
                None => {
                    proof {
                        lemma_collecting_skip(objs, wanted, had, queue);
                    }
                },
            }
        }
    }
    proof {
        assert(pending@ =~= Seq::<ObjectId>::empty());
        lemma_collecting_done(objs, wanted, collected@);
    }
    collected
}

} // verus!
