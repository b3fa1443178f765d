//! The object model: identities, values, dictionaries and streams.
//!
//! Every executable type has a mathematical view. Contracts throughout the
//! crate speak of the views: [`Value`] for an object, [`Entries`] for a
//! dictionary.

use vstd::prelude::*;

verus! {

/// Identity of an indirect object: its object number and its generation.
pub type ObjectId = (u32, u16);

/// The entries of a dictionary as mathematics: names paired with values.
pub type Entries = Seq<(Seq<u8>, Value)>;

/// The mathematical value of an object.
pub enum Value {
    Null,
    Boolean(bool),
    Integer(i64),
    Real(u32),
    ByteString(Seq<u8>),
    Name(Seq<u8>),
    Array(Seq<Value>),
    Dictionary(Entries),
    Stream(Entries, Seq<u8>),
    Reference(ObjectId),
}

/// No name occurs twice among the entries.
pub open spec fn distinct_keys(entries: Entries) -> bool {
    forall|i: int, j: int|
        0 <= i < j < entries.len() ==> (#[trigger] entries[i]).0 != (#[trigger] entries[j]).0
}

/// Entry `i` is the first one named `key`.
pub open spec fn first_at(entries: Entries, key: Seq<u8>, i: int) -> bool {
    &&& 0 <= i < entries.len()
    &&& entries[i].0 == key
    &&& forall|j: int| 0 <= j < i ==> (#[trigger] entries[j]).0 != key
}

/// Whether some entry is named `key`.
pub open spec fn has_key(entries: Entries, key: Seq<u8>) -> bool {
    exists|i: int| first_at(entries, key, i)
}

/// The index of the first entry named `key` (meaningful where one exists).
pub open spec fn index_of(entries: Entries, key: Seq<u8>) -> int {
    choose|i: int| first_at(entries, key, i)
}

/// The value stored under `key`, if any: that of the first entry with this name.
pub open spec fn lookup(entries: Entries, key: Seq<u8>) -> Option<Value> {
    if has_key(entries, key) {
        Some(entries[index_of(entries, key)].1)
    } else {
        None
    }
}

/// The entries after storing `value` under `key`: the entry of that name is
/// replaced where it stands, or a new entry is added at the end.
pub open spec fn put(entries: Entries, key: Seq<u8>, value: Value) -> Entries {
    if has_key(entries, key) {
        entries.update(index_of(entries, key), (key, value))
    } else {
        entries.push((key, value))
    }
}

/// The same names in the same order, each with the value that `values` holds
/// at its position.
pub open spec fn with_values(entries: Entries, values: Seq<Value>) -> Entries {
    Seq::new(entries.len(), |i: int| (entries[i].0, values[i]))
}

/// The views of a sequence of objects, position by position.
pub open spec fn view_all(items: Seq<ObjectValue>) -> Seq<Value> {
    Seq::new(items.len(), |i: int| items[i]@)
}

/// Two first entries of one name are the same entry.
pub proof fn lemma_first_at_unique(entries: Entries, key: Seq<u8>, i: int, j: int)
    requires
        first_at(entries, key, i),
        first_at(entries, key, j),
    ensures
        i == j,
{
    if i < j {
        assert(entries[i].0 != key);
    } else if j < i {
        assert(entries[j].0 != key);
    }
}

/// Where entry `i` is the first one named `key`, `lookup` finds its value.
pub proof fn lemma_lookup_at(entries: Entries, key: Seq<u8>, i: int)
    requires
        first_at(entries, key, i),
    ensures
        has_key(entries, key),
        index_of(entries, key) == i,
        lookup(entries, key) == Some(entries[i].1),
{
    lemma_first_at_unique(entries, key, i, index_of(entries, key));
}

/// Where no entry is named `key`, `lookup` finds nothing.
pub proof fn lemma_lookup_absent(entries: Entries, key: Seq<u8>)
    requires
        forall|j: int| 0 <= j < entries.len() ==> (#[trigger] entries[j]).0 != key,
    ensures
        !has_key(entries, key),
        lookup(entries, key) is None,
{
}

/// What `put` leaves behind: the new value under its name, every other name
/// as it was, and no name twice where none was twice before.
pub proof fn lemma_put(entries: Entries, key: Seq<u8>, value: Value)
    ensures
        lookup(put(entries, key, value), key) == Some(value),
        forall|other: Seq<u8>|
            other != key ==> #[trigger] lookup(put(entries, key, value), other) == lookup(
                entries,
                other,
            ),
        distinct_keys(entries) ==> distinct_keys(put(entries, key, value)),
{
    let after = put(entries, key, value);
    if has_key(entries, key) {
        let i = index_of(entries, key);
        assert(first_at(after, key, i)) by {
            assert forall|j: int| 0 <= j < i implies (#[trigger] after[j]).0 != key by {
                assert(entries[j].0 != key);
            }
        }
        lemma_lookup_at(after, key, i);
    } else {
        let i = entries.len() as int;
        assert(first_at(after, key, i)) by {
            assert forall|j: int| 0 <= j < i implies (#[trigger] after[j]).0 != key by {
                if entries[j].0 == key {
                    lemma_has_key(entries, key, j);
                }
            }
        }
        lemma_lookup_at(after, key, i);
    }
    assert forall|other: Seq<u8>| other != key implies #[trigger] lookup(after, other) == lookup(
        entries,
        other,
    ) by {
        lemma_put_other(entries, key, value, other);
    }
    if distinct_keys(entries) {
        assert forall|i: int, j: int| 0 <= i < j < after.len() implies (#[trigger] after[i]).0 != (
        #[trigger] after[j]).0 by {
            if has_key(entries, key) {
                let at = index_of(entries, key);
                assert(entries[at].0 == key);
                assert(entries[i].0 != entries[j].0);
            } else if j == entries.len() {
                if entries[i].0 == key {
                    lemma_has_key(entries, key, i);
                }
            } else {
                assert(entries[i].0 != entries[j].0);
            }
        }
    }
}

/// An entry named `key` at any position means that a first one exists.
pub proof fn lemma_has_key(entries: Entries, key: Seq<u8>, i: int)
    requires
        0 <= i < entries.len(),
        entries[i].0 == key,
    ensures
        has_key(entries, key),
        index_of(entries, key) <= i,
    decreases i,
{
    if forall|j: int| 0 <= j < i ==> (#[trigger] entries[j]).0 != key {
        assert(first_at(entries, key, i));
        lemma_lookup_at(entries, key, i);
    } else {
        let j = choose|j: int| 0 <= j < i && (#[trigger] entries[j]).0 == key;
        lemma_has_key(entries, key, j);
    }
}

proof fn lemma_put_other(entries: Entries, key: Seq<u8>, value: Value, other: Seq<u8>)
    requires
        other != key,
    ensures
        lookup(put(entries, key, value), other) == lookup(entries, other),
{
    let after = put(entries, key, value);
    if has_key(entries, other) {
        let i = index_of(entries, other);
        assert(first_at(entries, other, i));
        assert(first_at(after, other, i)) by {
            assert(after[i] == entries[i]);
            assert forall|j: int| 0 <= j < i implies (#[trigger] after[j]).0 != other by {
                assert(entries[j].0 != other);
            }
        }
        lemma_lookup_at(after, other, i);
    } else {
        assert forall|j: int| 0 <= j < after.len() implies (#[trigger] after[j]).0 != other by {
            if j < entries.len() && entries[j].0 == other {
                lemma_has_key(entries, other, j);
            }
        }
        lemma_lookup_absent(after, other);
    }
}

/// A dictionary: names mapped to values, no name twice.
#[derive(Debug, PartialEq, Eq)]
pub struct Dictionary {
    entries: Vec<(Vec<u8>, ObjectValue)>,
}

/// A stream: a dictionary and a payload that is carried along unread.
#[derive(Debug, PartialEq, Eq)]
pub struct Stream {
    pub dict: Dictionary,
    pub content: Vec<u8>,
}

/// An object of a document.
#[derive(Debug, PartialEq, Eq)]
pub enum ObjectValue {
    Null,
    Boolean(bool),
    Integer(i64),
    /// A real number, held as the bit pattern of its single-precision form.
    Real(u32),
    ByteString(Vec<u8>),
    Name(Vec<u8>),
    Array(Vec<ObjectValue>),
    Dictionary(Dictionary),
    Stream(Stream),
    Reference(ObjectId),
}

/// The value of an object.
pub open spec fn value_of(v: ObjectValue) -> Value
    decreases v,
{
    match v {
        ObjectValue::Null => Value::Null,
        ObjectValue::Boolean(b) => Value::Boolean(b),
        ObjectValue::Integer(n) => Value::Integer(n),
        ObjectValue::Real(bits) => Value::Real(bits),
        ObjectValue::ByteString(bytes) => Value::ByteString(bytes@),
        ObjectValue::Name(bytes) => Value::Name(bytes@),
        ObjectValue::Array(items) => Value::Array(
            Seq::new(
                items@.len(),
                |i: int|
                    if 0 <= i < items@.len() {
                        value_of(items@[i])
                    } else {
                        Value::Null
                    },
            ),
        ),
        ObjectValue::Dictionary(d) => Value::Dictionary(entries_of(d)),
        ObjectValue::Stream(s) => Value::Stream(entries_of(s.dict), s.content@),
        ObjectValue::Reference(id) => Value::Reference(id),
    }
}

/// The entries of a dictionary.
pub closed spec fn entries_of(d: Dictionary) -> Entries
    decreases d,
{
    Seq::new(
        d.entries@.len(),
        |i: int|
            if 0 <= i < d.entries@.len() {
                (d.entries@[i].0@, value_of(d.entries@[i].1))
            } else {
                (Seq::empty(), Value::Null)
            },
    )
}

impl View for ObjectValue {
    type V = Value;

    open spec fn view(&self) -> Value {
        value_of(*self)
    }
}

impl View for Dictionary {
    type V = Entries;

    open spec fn view(&self) -> Entries {
        entries_of(*self)
    }
}

/// Whether two byte strings hold the same bytes.
pub fn bytes_equal(a: &[u8], b: &[u8]) -> (same: bool)
    ensures
        same == (a@ == b@),
{
    if a.len() != b.len() {
        return false;
    }
    let mut i: usize = 0;
    while i < a.len()
        invariant
            a.len() == b.len(),
            i <= a.len(),
            forall|j: int| 0 <= j < i ==> a@[j] == b@[j],
        decreases a.len() - i,
    {
        if a[i] != b[i] {
            return false;
        }
        i += 1;
    }
    assert(a@ =~= b@);
    true
}

impl Dictionary {
    #[verifier::type_invariant]
    spec fn well_formed(&self) -> bool {
        forall|i: int, j: int|
            0 <= i < j < self.entries@.len() ==> (#[trigger] self.entries@[i]).0@ != (
            #[trigger] self.entries@[j]).0@
    }

    /// The empty dictionary.
    pub fn new() -> (d: Dictionary)
        ensures
            d@ == Seq::<(Seq<u8>, Value)>::empty(),
    {
        let d = Dictionary { entries: Vec::new() };
        assert(d@ =~= Seq::<(Seq<u8>, Value)>::empty());
        d
    }

    /// The number of entries.
    pub fn len(&self) -> (n: usize)
        ensures
            n == self@.len(),
            distinct_keys(self@),
    {
        proof {
            use_type_invariant(self);
        }
        self.entries.len()
    }

    /// The name of entry `i`.
    pub fn key_at(&self, i: usize) -> (key: &Vec<u8>)
        requires
            i < self@.len(),
        ensures
            key@ == self@[i as int].0,
    {
        &self.entries[i].0
    }

    /// The value of entry `i`.
    pub fn value_at(&self, i: usize) -> (value: &ObjectValue)
        requires
            i < self@.len(),
        ensures
            value@ == self@[i as int].1,
            decreases_to!(self => value),
    {
        &self.entries[i].1
    }

    /// The position of the entry named `key`, or the number of entries where
    /// there is none.
    fn position(&self, key: &[u8]) -> (at: usize)
        ensures
            at <= self@.len(),
            at < self@.len() ==> first_at(self@, key@, at as int),
            at == self@.len() ==> !has_key(self@, key@),
    {
        let mut i: usize = 0;
        while i < self.entries.len()
            invariant
                i <= self.entries@.len(),
                self@.len() == self.entries@.len(),
                forall|j: int| 0 <= j < i ==> (#[trigger] self@[j]).0 != key@,
            decreases self.entries@.len() - i,
        {
            if bytes_equal(self.entries[i].0.as_slice(), key) {
                return i;
            }
            i += 1;
        }
        proof {
            lemma_lookup_absent(self@, key@);
        }
        i
    }

    /// The value stored under `key`, if any.
    pub fn get(&self, key: &[u8]) -> (found: Option<&ObjectValue>)
        ensures
            match found {
                Some(value) => lookup(self@, key@) == Some(value@),
                None => lookup(self@, key@) is None,
            },
    {
        let at = self.position(key);
        if at < self.entries.len() {
            proof {
                lemma_lookup_at(self@, key@, at as int);
            }
            Some(&self.entries[at].1)
        } else {
            None
        }
    }

    /// Whether a value is stored under `key`.
    pub fn has(&self, key: &[u8]) -> (present: bool)
        ensures
            present == lookup(self@, key@).is_some(),
    {
        let at = self.position(key);
        proof {
            if at < self@.len() {
                lemma_lookup_at(self@, key@, at as int);
            }
        }
        at < self.entries.len()
    }

    /// Stores `value` under `key`, in place of what was stored there.
    pub fn set(&mut self, key: Vec<u8>, value: ObjectValue)
        ensures
            final(self)@ == put(old(self)@, key@, value@),
    {
        proof {
            use_type_invariant(&*self);
        }
        let at = self.position(key.as_slice());
        let ghost before = self@;
        let ghost raw = self.entries@;
        let mut entries: Vec<(Vec<u8>, ObjectValue)> = Vec::new();
        std::mem::swap(&mut entries, &mut self.entries);
        if at < entries.len() {
            proof {
                lemma_lookup_at(before, key@, at as int);
            }
            entries.set(at, (key, value));
        } else {
            entries.push((key, value));
        }
        proof {
            assert forall|i: int, j: int| 0 <= i < j < entries@.len() implies (
            #[trigger] entries@[i]).0@ != (#[trigger] entries@[j]).0@ by {
                if at < raw.len() {
                    assert(before[at as int].0 == key@);
                    assert(raw[i].0@ != raw[j].0@);
                } else if j == raw.len() {
                    if before[i].0 == key@ {
                        lemma_has_key(before, key@, i);
                    }
                } else {
                    assert(raw[i].0@ != raw[j].0@);
                }
            }
        }
        self.entries = entries;
        assert(self@ =~= put(before, key@, value@));
    }

    /// A dictionary with the names of this one, in the same order, and the
    /// given values in place of its own.
    pub fn with_values(&self, values: Vec<ObjectValue>) -> (d: Dictionary)
        requires
            values@.len() == self@.len(),
        ensures
            d@ == with_values(self@, view_all(values@)),
    {
        proof {
            use_type_invariant(self);
        }
        let mut values = values;
        let ghost given = values@;
        let mut entries: Vec<(Vec<u8>, ObjectValue)> = Vec::new();
        let n = self.entries.len();
        // Values are taken from the back, so the entries are built in reverse
        // and turned round afterwards.
        let mut i: usize = n;
        while i > 0
            invariant
                n == self.entries@.len(),
                n == given.len(),
                i <= n,
                values@ == given.subrange(0, i as int),
                entries@.len() == n - i,
                forall|k: int|
                    0 <= k < entries@.len() ==> (#[trigger] entries@[k]).0@ == self.entries@[n - 1
                        - k].0@ && entries@[k].1 == given[n - 1 - k],
            decreases i,
        {
            i -= 1;
            let value = values.pop();
            match value {
                Some(value) => {
                    entries.push((self.entries[i].0.clone(), value));
                },
                None => {
                    assert(false);
                },
            }
        }
        let mut ordered: Vec<(Vec<u8>, ObjectValue)> = Vec::new();
        let mut k: usize = n;
        while k > 0
            invariant
                n == self.entries@.len(),
                n == given.len(),
                k <= n,
                entries@.len() == k,
                ordered@.len() == n - k,
                forall|m: int|
                    0 <= m < k ==> (#[trigger] entries@[m]).0@ == self.entries@[n - 1 - m].0@
                        && entries@[m].1 == given[n - 1 - m],
                forall|m: int|
                    0 <= m < ordered@.len() ==> (#[trigger] ordered@[m]).0@ == self.entries@[m].0@
                        && ordered@[m].1 == given[m],
            decreases k,
        {
            k -= 1;
            let entry = entries.pop();
            match entry {
                Some(entry) => {
                    ordered.push(entry);
                },
                None => {
                    assert(false);
                },
            }
        }
        proof {
            assert forall|a: int, b: int| 0 <= a < b < ordered@.len() implies (
            #[trigger] ordered@[a]).0@ != (#[trigger] ordered@[b]).0@ by {
                assert(self.entries@[a].0@ != self.entries@[b].0@);
            }
        }
        let d = Dictionary { entries: ordered };
        assert(d@ =~= with_values(self@, view_all(given)));
        d
    }
}

impl Clone for Dictionary {
    fn clone(&self) -> (copy: Dictionary)
        ensures
            copy@ == self@,
        decreases self,
    {
        proof {
            use_type_invariant(self);
        }
        let mut entries: Vec<(Vec<u8>, ObjectValue)> = Vec::new();
        let mut i: usize = 0;
        while i < self.entries.len()
            invariant
                i <= self.entries@.len(),
                entries@.len() == i,
                forall|k: int|
                    0 <= k < i ==> (#[trigger] entries@[k]).0@ == self.entries@[k].0@
                        && entries@[k].1@ == self.entries@[k].1@,
            decreases self.entries@.len() - i,
        {
            let key = self.entries[i].0.clone();
            let value = self.entries[i].1.clone();
            entries.push((key, value));
            i += 1;
        }
        proof {
            assert forall|a: int, b: int| 0 <= a < b < entries@.len() implies (
            #[trigger] entries@[a]).0@ != (#[trigger] entries@[b]).0@ by {
                assert(self.entries@[a].0@ != self.entries@[b].0@);
            }
        }
        let copy = Dictionary { entries };
        assert(copy@ =~= self@);
        copy
    }
}

impl Clone for Stream {
    fn clone(&self) -> (copy: Stream)
        ensures
            copy.dict@ == self.dict@,
            copy.content@ == self.content@,
        decreases self,
    {
        Stream { dict: self.dict.clone(), content: self.content.clone() }
    }
}

/// Copies of the given objects, position by position.
pub fn clone_all(items: &Vec<ObjectValue>) -> (copies: Vec<ObjectValue>)
    ensures
        view_all(copies@) == view_all(items@),
    decreases items,
{
    let mut copies: Vec<ObjectValue> = Vec::new();
    let mut i: usize = 0;
    while i < items.len()
        invariant
            i <= items@.len(),
            copies@.len() == i,
            forall|k: int| 0 <= k < i ==> (#[trigger] copies@[k])@ == items@[k]@,
        decreases items@.len() - i,
    {
        copies.push(items[i].clone());
        i += 1;
    }
    assert(view_all(copies@) =~= view_all(items@));
    copies
}

/// The view of an array is the views of its items.
pub proof fn lemma_array_view(items: Vec<ObjectValue>)
    ensures
        ObjectValue::Array(items)@ == Value::Array(view_all(items@)),
{
    assert(ObjectValue::Array(items)@->Array_0 =~= view_all(items@));
}

impl Clone for ObjectValue {
    fn clone(&self) -> (copy: ObjectValue)
        ensures
            copy@ == self@,
        decreases self,
    {
        match self {
            ObjectValue::Null => ObjectValue::Null,
            ObjectValue::Boolean(b) => ObjectValue::Boolean(*b),
            ObjectValue::Integer(n) => ObjectValue::Integer(*n),
            ObjectValue::Real(bits) => ObjectValue::Real(*bits),
            ObjectValue::ByteString(bytes) => ObjectValue::ByteString(bytes.clone()),
            ObjectValue::Name(bytes) => ObjectValue::Name(bytes.clone()),
            ObjectValue::Array(items) => {
                let copies = clone_all(items);
                proof {
                    lemma_array_view(*items);
                    lemma_array_view(copies);
                }
                ObjectValue::Array(copies)
            },
            ObjectValue::Dictionary(d) => ObjectValue::Dictionary(d.clone()),
            ObjectValue::Stream(s) => ObjectValue::Stream(s.clone()),
            ObjectValue::Reference(id) => ObjectValue::Reference(*id),
        }
    }
}

} // verus!
