use vstd::prelude::*;

use crate::types::Types;

verus! {

/// The capability interface the database stores things through: every
/// storable object exposes a kind tag, canonical payload bytes, and a cell
/// that remembers its object id once it has been stored.
pub trait Object: Sized {
    /// The kind tag of this object.
    spec fn obj_kind(&self) -> Types;

    /// The canonical payload bytes this object serializes to.
    spec fn data_spec(&self) -> Seq<u8>;

    /// The object id this object remembers, once it has been stored.
    spec fn oid_spec(&self) -> Option<Seq<char>>;

    /// Whether the object is ready to serialize; a tree is only once every
    /// nested tree below it has been stored.
    spec fn serializable(&self) -> bool;

    /// Return the type of the `Object`.
    fn get_type(&self) -> (t: Types)
        ensures
            t == self.obj_kind(),
    ;

    /// Turn the data into its bytes.
    fn get_data(&self) -> (d: Vec<u8>)
        requires
            self.serializable(),
        ensures
            d@ == self.data_spec(),
    ;

    /// Set the `Object` id. The hash is set exactly once: an object that
    /// already remembers one is never overwritten.
    fn set_oid(&mut self, hash: String)
        requires
            old(self).oid_spec() is None,
        ensures
            final(self).obj_kind() == old(self).obj_kind(),
            final(self).data_spec() == old(self).data_spec(),
            final(self).serializable() == old(self).serializable(),
            final(self).oid_spec() == Some(hash@),
    ;

    /// Get the `Object` id.
    fn get_oid(&self) -> (o: Option<String>)
        ensures
            match o {
                Some(s) => self.oid_spec() == Some(s@),
                None => self.oid_spec() is None,
            },
    ;
}

} // verus!
