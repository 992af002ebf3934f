use vstd::prelude::*;

use crate::database::object::Object;
use crate::types::Types;

verus! {

/// A `Blob` contains a file's contents, wrapped verbatim.
/// It will be stored by the `Database`.
pub struct Blob {
    /// Unique oid of the `Blob`, set once it has been stored.
    pub oid: Option<String>,

    /// Data contained in the `Blob`.
    pub data: Vec<u8>,
}

impl Blob {
    /// Create a new `Blob` based on the bytes in a file.
    pub fn new(data: Vec<u8>) -> (r: Blob)
        ensures
            r.data@ == data@,
            r.oid is None,
    {
        Blob { oid: None, data }
    }
}

impl Object for Blob {
    open spec fn obj_kind(&self) -> Types {
        Types::Blob
    }

    open spec fn data_spec(&self) -> Seq<u8> {
        self.data@
    }

    open spec fn oid_spec(&self) -> Option<Seq<char>> {
        match self.oid {
            Some(s) => Some(s@),
            None => None,
        }
    }

    open spec fn serializable(&self) -> bool {
        true
    }

    fn get_type(&self) -> (t: Types) {
        Types::Blob
    }

    fn get_data(&self) -> (d: Vec<u8>) {
        vstd::slice::slice_to_vec(self.data.as_slice())
    }

    fn set_oid(&mut self, hash: String) {
        self.oid = Some(hash);
    }

    fn get_oid(&self) -> (o: Option<String>) {
        match &self.oid {
            Some(s) => Some(s.clone()),
            None => None,
        }
    }
}

} // verus!
