//! The identity remapper: new identities for collected objects, and the
//! references among them rewritten to match.
//!
//! New identities are given out in ascending order of the old ones, so the
//! same collected set always receives the same identities. A reference to
//! an identity that was not collected stays as it is.

use crate::document::{Document, DocumentView};
use crate::error::PdfError;
use crate::object::{
    lemma_array_view, view_all, with_values, Dictionary, Entries, ObjectId, ObjectValue, Stream,
    Value,
};
use crate::table::{id_less, lemma_rank_is_position, rank, IdTable};
use vstd::prelude::*;
use vstd::set_lib::lemma_len_subset;

verus! {

/// `v` with every reference to an identity of `ids` replaced by a reference
/// to what `ids` gives for it, through arrays, dictionaries and the
/// dictionaries of streams. Other references, and the payloads of streams,
/// stay as they are.
pub open spec fn rewrite(v: Value, ids: Map<ObjectId, ObjectId>) -> Value
    decreases v,
{
    match v {
        Value::Reference(id) => if ids.dom().contains(id) {
            Value::Reference(ids[id])
        } else {
            v
        },
        Value::Array(items) => Value::Array(
            Seq::new(
                items.len(),
                |i: int|
                    if 0 <= i < items.len() {
                        rewrite(items[i], ids)
                    } else {
                        Value::Null
                    },
            ),
        ),
        Value::Dictionary(entries) => Value::Dictionary(
            Seq::new(
                entries.len(),
                |i: int|
                    if 0 <= i < entries.len() {
                        (entries[i].0, rewrite(entries[i].1, ids))
                    } else {
                        (Seq::empty(), Value::Null)
                    },
            ),
        ),
        Value::Stream(entries, payload) => Value::Stream(
            Seq::new(
                entries.len(),
                |i: int|
                    if 0 <= i < entries.len() {
                        (entries[i].0, rewrite(entries[i].1, ids))
                    } else {
                        (Seq::empty(), Value::Null)
                    },
            ),
            payload,
        ),
        _ => v,
    }
}

/// Each of `items` rewritten.
pub open spec fn rewrite_all(items: Seq<Value>, ids: Map<ObjectId, ObjectId>) -> Seq<Value> {
    Seq::new(items.len(), |i: int| rewrite(items[i], ids))
}

/// The same names, each with its value rewritten.
pub open spec fn rewrite_entries(entries: Entries, ids: Map<ObjectId, ObjectId>) -> Entries {
    Seq::new(entries.len(), |i: int| (entries[i].0, rewrite(entries[i].1, ids)))
}

/// What `rewrite` does to each kind of value.
pub proof fn lemma_rewrite(v: Value, ids: Map<ObjectId, ObjectId>)
    ensures
        rewrite(v, ids) == match v {
            Value::Reference(id) => if ids.dom().contains(id) {
                Value::Reference(ids[id])
            } else {
                v
            },
            Value::Array(items) => Value::Array(rewrite_all(items, ids)),
            Value::Dictionary(entries) => Value::Dictionary(rewrite_entries(entries, ids)),
            Value::Stream(entries, payload) => Value::Stream(rewrite_entries(entries, ids), payload),
            _ => v,
        },
{
    match v {
        Value::Array(items) => {
            assert(rewrite(v, ids)->Array_0 =~= rewrite_all(items, ids));
        },
        Value::Dictionary(entries) => {
            assert(rewrite(v, ids)->Dictionary_0 =~= rewrite_entries(entries, ids));
        },
        Value::Stream(entries, payload) => {
            assert(rewrite(v, ids)->Stream_0 =~= rewrite_entries(entries, ids));
        },
        _ => {},
    }
}

/// The new identity of `id` among `keys`: object numbers are given out from
/// `base + 1` on in ascending order of the old identities, in generation 0.
pub open spec fn new_id(keys: Set<ObjectId>, base: nat, id: ObjectId) -> ObjectId {
    ((base + 1 + rank(keys, id)) as u32, 0u16)
}

/// The new identity of every member of `keys`.
pub open spec fn assigned(keys: Set<ObjectId>, base: nat) -> Map<ObjectId, ObjectId> {
    Map::new(|id: ObjectId| keys.contains(id), |id: ObjectId| new_id(keys, base, id))
}

/// The objects after the collected ones were placed among them: each
/// collected object, rewritten, under its new identity; every other object
/// as before.
pub open spec fn placed(
    before: Map<ObjectId, Value>,
    collected: Map<ObjectId, Value>,
    base: nat,
) -> Map<ObjectId, Value> {
    let ids = assigned(collected.dom(), base);
    Map::new(
        |k: ObjectId| before.dom().contains(k) || ids.values().contains(k),
        |k: ObjectId|
            if ids.values().contains(k) {
                rewrite(collected[source_of(collected.dom(), base, k)], ids)
            } else {
                before[k]
            },
    )
}

/// The identity with object number `base + 1 + m`, in generation 0.
pub open spec fn slot(base: nat, m: int) -> ObjectId {
    ((base + 1 + m) as u32, 0u16)
}

/// The old identity that received the new identity `k`.
pub open spec fn source_of(keys: Set<ObjectId>, base: nat, k: ObjectId) -> ObjectId {
    choose|old: ObjectId| keys.contains(old) && new_id(keys, base, old) == k
}

/// Among finitely many identities, one that comes before another has the
/// smaller rank, and every rank is below their number.
pub proof fn lemma_rank_ordered(keys: Set<ObjectId>, a: ObjectId, b: ObjectId)
    requires
        keys.finite(),
        keys.contains(a),
        keys.contains(b),
    ensures
        rank(keys, a) < keys.len(),
        id_less(a, b) ==> rank(keys, a) < rank(keys, b),
        rank(keys, a) == rank(keys, b) ==> a == b,
{
    let below_a = keys.filter(|other: ObjectId| id_less(other, a));
    let below_b = keys.filter(|other: ObjectId| id_less(other, b));
    assert(below_a.insert(a).subset_of(keys));
    lemma_len_subset(below_a.insert(a), keys);
    keys.lemma_len_filter(|other: ObjectId| id_less(other, a));
    keys.lemma_len_filter(|other: ObjectId| id_less(other, b));
    assert(!below_a.contains(a));
    if id_less(a, b) {
        assert(below_a.insert(a).subset_of(below_b));
        lemma_len_subset(below_a.insert(a), below_b);
    }
    if id_less(b, a) {
        assert(!below_b.contains(b));
        assert(below_b.insert(b).subset_of(below_a));
        lemma_len_subset(below_b.insert(b), below_a);
    }
}

/// New identities are in generation 0, lie just above `base`, keep the
/// order of the old ones, and no two old identities share one.
pub proof fn assignment_keeps_order(keys: Set<ObjectId>, base: nat, a: ObjectId, b: ObjectId)
    requires
        keys.finite(),
        base + keys.len() <= u32::MAX,
        keys.contains(a),
        keys.contains(b),
    ensures
        base < new_id(keys, base, a).0 <= base + keys.len(),
        new_id(keys, base, a).1 == 0,
        id_less(a, b) ==> id_less(new_id(keys, base, a), new_id(keys, base, b)),
        new_id(keys, base, a) == new_id(keys, base, b) ==> a == b,
{
    lemma_rank_ordered(keys, a, b);
    lemma_rank_ordered(keys, b, a);
}

/// The assignment depends on the collected identities alone: two collected
/// sets with the same identities receive the same new identities, whatever
/// their objects hold and however they were put together.
pub proof fn assignment_is_determined(
    first: Map<ObjectId, Value>,
    second: Map<ObjectId, Value>,
    base: nat,
)
    requires
        first.dom() == second.dom(),
    ensures
        assigned(first.dom(), base) == assigned(second.dom(), base),
{
}

/// A copy of `value` with its references rewritten by `ids`.
pub fn rewrite_value(value: &ObjectValue, ids: &IdTable<ObjectId>) -> (out: ObjectValue)
    ensures
        out@ == rewrite(value@, ids@),
    decreases value,
{
    proof {
        lemma_rewrite(value@, ids@);
    }
    match value {
        ObjectValue::Reference(id) => match ids.get(*id) {
            Some(new) => ObjectValue::Reference(*new),
            None => ObjectValue::Reference(*id),
        },
        ObjectValue::Array(items) => {
            let out = rewrite_values(items, ids);
            proof {
                lemma_array_view(*items);
                lemma_array_view(out);
            }
            ObjectValue::Array(out)
        },
        ObjectValue::Dictionary(d) => ObjectValue::Dictionary(rewrite_dictionary(d, ids)),
        ObjectValue::Stream(s) => ObjectValue::Stream(
            Stream { dict: rewrite_dictionary(&s.dict, ids), content: s.content.clone() },
        ),
        ObjectValue::Null => ObjectValue::Null,
        ObjectValue::Boolean(b) => ObjectValue::Boolean(*b),
        ObjectValue::Integer(n) => ObjectValue::Integer(*n),
        ObjectValue::Real(bits) => ObjectValue::Real(*bits),
        ObjectValue::ByteString(bytes) => ObjectValue::ByteString(bytes.clone()),
        ObjectValue::Name(bytes) => ObjectValue::Name(bytes.clone()),
    }
}

/// Copies of `items` with their references rewritten by `ids`.
fn rewrite_values(items: &Vec<ObjectValue>, ids: &IdTable<ObjectId>) -> (out: Vec<ObjectValue>)
    ensures
        view_all(out@) == rewrite_all(view_all(items@), ids@),
    decreases items,
{
    let mut out: Vec<ObjectValue> = Vec::new();
    let mut i: usize = 0;
    while i < items.len()
        invariant
            i <= items@.len(),
            out@.len() == i,
            forall|k: int| 0 <= k < i ==> (#[trigger] out@[k])@ == rewrite(items@[k]@, ids@),
        decreases items@.len() - i,
    {
        out.push(rewrite_value(&items[i], ids));
        i += 1;
    }
    assert(view_all(out@) =~= rewrite_all(view_all(items@), ids@));
    out
}

/// A copy of `dict` with the references in its values rewritten by `ids`.
fn rewrite_dictionary(dict: &Dictionary, ids: &IdTable<ObjectId>) -> (out: Dictionary)
    ensures
        out@ == rewrite_entries(dict@, ids@),
    decreases dict,
{
    let n = dict.len();
    let mut values: Vec<ObjectValue> = Vec::new();
    let mut i: usize = 0;
    while i < n
        invariant
            i <= n,
            n == dict@.len(),
            values@.len() == i,
            forall|k: int| 0 <= k < i ==> (#[trigger] values@[k])@ == rewrite(dict@[k].1, ids@),
        decreases n - i,
    {
        let value = dict.value_at(i);
        values.push(rewrite_value(value, ids));
        i += 1;
    }
    let ghost rewritten = view_all(values@);
    let out = dict.with_values(values);
    assert(with_values(dict@, rewritten) =~= rewrite_entries(dict@, ids@));
    out
}

/// Places the collected objects in `doc` under new identities and rewrites
/// the references among them.
///
/// The new object numbers follow the highest one of `doc`, in ascending
/// order of the old identities. Returns the map from old to new identity.
/// Fails with `LimitExceeded`, and leaves `doc` as it was, where the object
/// numbers do not suffice.
pub fn remap_into(doc: &mut Document, collected: &IdTable<ObjectValue>) -> (result: Result<
    IdTable<ObjectId>,
    PdfError,
>)
    ensures
        match result {
            Ok(ids) => {
                &&& old(doc)@.max_id + collected@.dom().len() <= u32::MAX
                &&& ids@ == assigned(collected@.dom(), old(doc)@.max_id)
                &&& final(doc)@ == (DocumentView {
                    objects: placed(old(doc)@.objects, collected@, old(doc)@.max_id),
                    max_id: old(doc)@.max_id + collected@.dom().len(),
                    ..old(doc)@
                })
            },
            Err(e) => {
                &&& e == PdfError::LimitExceeded
                &&& old(doc)@.max_id + collected@.dom().len() > u32::MAX
                &&& final(doc)@ == old(doc)@
            },
        },
{
    let n = collected.len();
    let base = doc.max_id();
    let count = doc.object_count();
    let ghost start = doc@;
    let ghost keys = collected.keys();
    let ghost dom = collected@.dom();
    if n > (u32::MAX - base) as usize {
        return Err(PdfError::LimitExceeded);
    }
    let mut ids: IdTable<ObjectId> = IdTable::new();
    let mut i: usize = 0;
    while i < n
        invariant
            i <= n,
            n == keys.len(),
            keys == collected.keys(),
            dom == collected@.dom(),
            dom == keys.to_set(),
            collected.ordered(),
            base + n <= u32::MAX,
            ids@.dom() == keys.subrange(0, i as int).to_set(),
            forall|k: int| 0 <= k < i ==> ids@[#[trigger] keys[k]] == new_id(dom, base as nat, keys[k]),
        decreases n - i,
    {
        let old_id = collected.key_at(i);
        let new: ObjectId = (base + 1 + i as u32, 0);
        proof {
            lemma_rank_is_position(keys, i as int);
            crate::table::lemma_ascending_positions(keys);
        }
        let ghost had = ids@;
        ids.insert(old_id, new);
        proof {
            assert(keys.subrange(0, i + 1) =~= keys.subrange(0, i as int).push(old_id));
            assert(ids@.dom() =~= keys.subrange(0, i + 1).to_set()) by {
                assert forall|x: ObjectId|
                    ids@.dom().contains(x) <==> keys.subrange(0, i + 1).to_set().contains(x) by {
                    let shorter = keys.subrange(0, i as int);
                    let longer = keys.subrange(0, i + 1);
                    if longer.contains(x) {
                        let k = choose|k: int| 0 <= k < longer.len() && longer[k] == x;
                        if k < i {
                            assert(shorter[k] == x);
                        }
                    }
                    if shorter.contains(x) {
                        let k = choose|k: int| 0 <= k < shorter.len() && shorter[k] == x;
                        assert(longer[k] == x);
                    }
                    if x == old_id {
                        assert(longer[i as int] == x);
                    }
                }
            }
            assert forall|k: int| 0 <= k < i + 1 implies ids@[#[trigger] keys[k]] == new_id(
                dom,
                base as nat,
                keys[k],
            ) by {
                if k < i {
                    assert(keys[k] != keys[i as int]);
                }
            }
        }
        i += 1;
    }
    proof {
        assert(keys.subrange(0, n as int) =~= keys);
        crate::table::lemma_ascending_positions(keys);
        assert(ids@ =~= assigned(dom, base as nat)) by {
            assert forall|x: ObjectId| ids@.dom().contains(x) implies ids@[x] == new_id(
                dom,
                base as nat,
                x,
            ) by {
                let k = choose|k: int| 0 <= k < keys.len() && keys[k] == x;
                assert(ids@[keys[k]] == new_id(dom, base as nat, keys[k]));
            }
        }
    }
    let ghost map = ids@;
    proof {
        assert forall|m: int| 0 <= m < n implies new_id(dom, base as nat, #[trigger] keys[m])
            == slot(base as nat, m) by {
            lemma_rank_is_position(keys, m);
        }
    }
    let mut j: usize = 0;
    while j < n
        invariant
            j <= n,
            n == keys.len(),
            keys == collected.keys(),
            collected.ordered(),
            base + n <= u32::MAX,
            map == ids@,
            start.max_id == base,
            doc@.max_id == base + j,
            doc@.version == start.version,
            doc@.trailer == start.trailer,
            forall|k: ObjectId| #[trigger]
                start.objects.dom().contains(k) ==> k.0 <= base,
            forall|k: ObjectId| #[trigger]
                doc@.objects.dom().contains(k) <==> start.objects.dom().contains(k) || (k.1 == 0
                    && base < k.0 <= base + j),
            forall|k: ObjectId| #[trigger]
                start.objects.dom().contains(k) ==> doc@.objects[k] == start.objects[k],
            forall|m: int|
                0 <= m < j ==> doc@.objects[#[trigger] slot(base as nat, m)] == rewrite(
                    collected@[keys[m]],
                    map,
                ),
        decreases n - j,
    {
        let value = collected.value_at(j);
        let rewritten = rewrite_value(value, &ids);
        let ghost before = doc@;
        let added = doc.add_object(rewritten);
        proof {
            assert(added is Ok);
            assert(added->Ok_0 == slot(base as nat, j as int));
            assert forall|m: int| 0 <= m < j + 1 implies doc@.objects[#[trigger] slot(
                base as nat,
                m,
            )] == rewrite(collected@[keys[m]], map) by {
                if m < j {
                    assert(slot(base as nat, m) != slot(base as nat, j as int));
                    assert(before.objects[slot(base as nat, m)] == rewrite(
                        collected@[keys[m]],
                        map,
                    ));
                }
            }
        }
        j += 1;
    }
    proof {
        let wanted = placed(start.objects, collected@, base as nat);
        crate::table::lemma_ascending_positions(keys);
        assert forall|k: ObjectId| map.values().contains(k) <==> (k.1 == 0 && base < k.0 <= base
            + n) by {
            if map.values().contains(k) {
                let old = choose|old: ObjectId| map.dom().contains(old) && map[old] == k;
                let m = choose|m: int| 0 <= m < keys.len() && keys[m] == old;
                assert(new_id(dom, base as nat, keys[m]) == slot(base as nat, m));
            }
            if k.1 == 0 && base < k.0 <= base + n {
                let m = k.0 - base - 1;
                assert(new_id(dom, base as nat, keys[m]) == slot(base as nat, m));
                assert(keys.contains(keys[m]));
                assert(map.dom().contains(keys[m]) && map[keys[m]] == k);
            }
        }
        assert forall|k: ObjectId| wanted.dom().contains(k) implies doc@.objects[k]
            == wanted[k] by {
            if map.values().contains(k) {
                let m = k.0 - base - 1;
                assert(new_id(dom, base as nat, keys[m]) == slot(base as nat, m));
                assert(keys.contains(keys[m]));
                let src = source_of(dom, base as nat, k);
                assert(dom.contains(keys[m]) && new_id(dom, base as nat, keys[m]) == k);
                assert(dom.contains(src) && new_id(dom, base as nat, src) == k);
                lemma_rank_ordered(dom, src, keys[m]);
                assert(doc@.objects[slot(base as nat, m)] == rewrite(collected@[keys[m]], map));
            }
        }
        assert(doc@.objects =~= wanted);
    }
    Ok(ids)
}

/// A new document of version 1.5 that holds the collected objects under
/// new identities, numbered from 1 in ascending order of the old ones, with
/// the references among them rewritten; and the map from old to new
/// identity. Fails with `LimitExceeded` where the object numbers do not
/// suffice.
pub fn remap(collected: &IdTable<ObjectValue>) -> (result: Result<
    (Document, IdTable<ObjectId>),
    PdfError,
>)
    ensures
        match result {
            Ok((doc, ids)) => {
                &&& collected@.dom().len() <= u32::MAX
                &&& ids@ == assigned(collected@.dom(), 0)
                &&& doc@ == (DocumentView {
                    version: output_version(),
                    trailer: Seq::empty(),
                    objects: placed(Map::empty(), collected@, 0),
                    max_id: collected@.dom().len(),
                })
            },
            Err(e) => e == PdfError::LimitExceeded && collected@.dom().len() > u32::MAX,
        },
{
    let mut doc = new_output();
    match remap_into(&mut doc, collected) {
        Ok(ids) => Ok((doc, ids)),
        Err(e) => Err(e),
    }
}

/// The version tag of every document that this crate builds: `1.5`.
pub open spec fn output_version() -> Seq<char> {
    seq!['1', '.', '5']
}

/// An empty document of the output version.
pub fn new_output() -> (doc: Document)
    ensures
        doc@ == (DocumentView {
            version: output_version(),
            trailer: Seq::empty(),
            objects: Map::empty(),
            max_id: 0,
        }),
{
    proof {
        reveal_strlit("1.5");
    }
    let doc = Document::with_version("1.5");
    assert(doc@.version =~= output_version());
    doc
}

} // verus!
