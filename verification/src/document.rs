//! The document: a table of objects, a trailer and a version tag.

use crate::error::PdfError;
use crate::object::{put, Dictionary, Entries, ObjectId, ObjectValue, Value};
use crate::table::IdTable;
use vstd::prelude::*;

verus! {

/// A document as mathematics.
pub struct DocumentView {
    /// The version tag of the format.
    pub version: Seq<char>,
    /// The entries of the trailer.
    pub trailer: Entries,
    /// The objects, each under its identity.
    pub objects: Map<ObjectId, Value>,
    /// The highest object number given out so far.
    pub max_id: nat,
}

impl DocumentView {
    /// What holds of every document: it has finitely many objects, and none
    /// has an object number above `max_id`.
    pub open spec fn wf(self) -> bool {
        &&& self.objects.dom().finite()
        &&& self.max_id <= u32::MAX
        &&& forall|id: ObjectId| #[trigger] self.objects.dom().contains(id) ==> id.0 <= self.max_id
    }
}

/// A document. Its objects are owned by it alone.
#[derive(Debug, PartialEq, Eq)]
pub struct Document {
    version: String,
    trailer: Dictionary,
    objects: IdTable<ObjectValue>,
    max_id: u32,
}

impl View for Document {
    type V = DocumentView;

    closed spec fn view(&self) -> DocumentView {
        DocumentView {
            version: self.version@,
            trailer: self.trailer@,
            objects: self.objects@,
            max_id: self.max_id as nat,
        }
    }
}

impl Document {
    #[verifier::type_invariant]
    spec fn well_formed(&self) -> bool {
        forall|id: ObjectId| #[trigger] self.objects@.dom().contains(id) ==> id.0 <= self.max_id
    }

    /// A document of the given version, with no objects and an empty trailer.
    pub fn with_version(version: &str) -> (doc: Document)
        ensures
            doc@ == (DocumentView {
                version: version@,
                trailer: Seq::empty(),
                objects: Map::empty(),
                max_id: 0,
            }),
    {
        Document {
            version: version.to_owned(),
            trailer: Dictionary::new(),
            objects: IdTable::new(),
            max_id: 0,
        }
    }

    /// The version tag.
    pub fn version(&self) -> (version: &String)
        ensures
            version@ == self@.version,
    {
        &self.version
    }

    /// The trailer.
    pub fn trailer(&self) -> (trailer: &Dictionary)
        ensures
            trailer@ == self@.trailer,
    {
        &self.trailer
    }

    /// The objects, in ascending order of identity.
    pub fn objects(&self) -> (objects: &IdTable<ObjectValue>)
        ensures
            objects@ == self@.objects,
            self@.wf(),
    {
        proof {
            use_type_invariant(self);
        }
        let n = self.objects.len();
        &self.objects
    }

    /// The highest object number given out so far.
    pub fn max_id(&self) -> (max_id: u32)
        ensures
            max_id == self@.max_id,
    {
        self.max_id
    }

    /// The number of objects.
    pub fn object_count(&self) -> (n: usize)
        ensures
            n == self@.objects.dom().len(),
            self@.wf(),
    {
        proof {
            use_type_invariant(self);
        }
        self.objects.len()
    }

    /// The object with identity `id`, if the document has one.
    pub fn get_object(&self, id: ObjectId) -> (found: Option<&ObjectValue>)
        ensures
            match found {
                Some(value) => self@.objects.dom().contains(id) && self@.objects[id] == value@,
                None => !self@.objects.dom().contains(id),
            },
    {
        self.objects.get(id)
    }

    /// Whether the document has an object with identity `id`.
    pub fn has_object(&self, id: ObjectId) -> (present: bool)
        ensures
            present == self@.objects.dom().contains(id),
    {
        self.objects.contains(id)
    }

    /// Stores `value` under `id`, in place of what was stored there. The
    /// highest object number rises to that of `id` where it was below.
    pub fn set_object(&mut self, id: ObjectId, value: ObjectValue)
        ensures
            final(self)@ == (DocumentView {
                objects: old(self)@.objects.insert(id, value@),
                max_id: if id.0 > old(self)@.max_id {
                    id.0 as nat
                } else {
                    old(self)@.max_id
                },
                ..old(self)@
            }),
    {
        proof {
            use_type_invariant(&*self);
        }
        let mut objects: IdTable<ObjectValue> = IdTable::new();
        std::mem::swap(&mut objects, &mut self.objects);
        objects.insert(id, value);
        if id.0 > self.max_id {
            self.max_id = id.0;
        }
        self.objects = objects;
    }

    /// Stores `value` under a new identity: the next object number, in
    /// generation 0. Fails, and changes nothing, where the object numbers
    /// are used up.
    pub fn add_object(&mut self, value: ObjectValue) -> (added: Result<ObjectId, PdfError>)
        ensures
            match added {
                Ok(id) => {
                    &&& old(self)@.max_id < u32::MAX
                    &&& id == ((old(self)@.max_id + 1) as u32, 0u16)
                    &&& !old(self)@.objects.dom().contains(id)
                    &&& final(self)@ == (DocumentView {
                        objects: old(self)@.objects.insert(id, value@),
                        max_id: old(self)@.max_id + 1,
                        ..old(self)@
                    })
                },
                Err(e) => {
                    &&& e == PdfError::LimitExceeded
                    &&& old(self)@.max_id == u32::MAX
                    &&& final(self)@ == old(self)@
                },
            },
    {
        proof {
            use_type_invariant(&*self);
        }
        if self.max_id == u32::MAX {
            return Err(PdfError::LimitExceeded);
        }
        let id: ObjectId = (self.max_id + 1, 0);
        let mut objects: IdTable<ObjectValue> = IdTable::new();
        std::mem::swap(&mut objects, &mut self.objects);
        objects.insert(id, value);
        self.max_id = self.max_id + 1;
        self.objects = objects;
        Ok(id)
    }

    /// Stores `value` under `key` in the trailer.
    pub fn set_trailer(&mut self, key: Vec<u8>, value: ObjectValue)
        ensures
            final(self)@ == (DocumentView {
                trailer: put(old(self)@.trailer, key@, value@),
                ..old(self)@
            }),
    {
        proof {
            use_type_invariant(&*self);
        }
        let mut trailer = Dictionary::new();
        std::mem::swap(&mut trailer, &mut self.trailer);
        trailer.set(key, value);
        self.trailer = trailer;
    }
}

} // verus!
