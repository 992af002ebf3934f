pub mod blob;
pub mod commit;
pub mod entry;
pub mod tree;
pub mod object;

use vstd::prelude::*;
use vstd::string::*;

use crate::codec::hash_content;
use crate::codec::encode_object;
use crate::codec::is_oid_chars;
use crate::codec::obj_bytes;
use crate::codec::oid_of;
use crate::compress::zlib_compress;
use crate::compress::zlib_inflate;
use crate::database::object::Object;
use crate::types::RitError;
use crate::types::Types;

verus! {

/// An ASCII letter or digit.
pub open spec fn is_alnum_char(c: char) -> bool {
    (48 <= c as u32 && c as u32 <= 57) || (65 <= c as u32 && c as u32 <= 90) || (97 <= c as u32
        && c as u32 <= 122)
}

/// Relies on rand's thread rng sampled through the `Alphanumeric`
/// distribution: six characters, each an ASCII letter or digit.
#[verifier::external_body]
fn random_suffix() -> (r: String)
    ensures
        r@.len() == 6,
        forall|i: int| 0 <= i < 6 ==> is_alnum_char(#[trigger] r@[i]),
{
    rand::RngExt::sample_iter(rand::rng(), rand::distr::Alphanumeric).take(6).map(
        char::from,
    ).collect()
}

/// The shard directory an object id is filed under: the database path and
/// the first two hex digits.
pub open spec fn shard_dir_chars(db: Seq<char>, oid: Seq<char>) -> Seq<char> {
    db + "/"@ + oid.subrange(0, 2)
}

/// The final path of a stored object: its shard directory and the remaining
/// thirty-eight hex digits.
pub open spec fn object_path_chars(db: Seq<char>, oid: Seq<char>) -> Seq<char> {
    shard_dir_chars(db, oid) + "/"@ + oid.subrange(2, 40)
}

/// What makes a write request the correct one for an object of the given
/// kind and payload under the given database path.
pub open spec fn write_ok(req: WriteRequest, db: Seq<char>, kind: Types, data: Seq<u8>) -> bool {
    &&& req.oid@ == oid_of(kind, data)
    &&& req.dir_path@ == shard_dir_chars(db, oid_of(kind, data))
    &&& req.object_path@ == object_path_chars(db, oid_of(kind, data))
    &&& zlib_inflate(req.bytes@) == Some(obj_bytes(kind, data))
}

/// Dedup: storing byte-identical content of one kind computes the identical
/// object id and the identical final path, so a second store of the same
/// content lands exactly on the first store's object file and never creates
/// a second one.
pub proof fn lemma_store_dedup(db: Seq<char>, kind: Types, d1: Seq<u8>, d2: Seq<u8>)
    requires
        d1 == d2,
    ensures
        oid_of(kind, d1) == oid_of(kind, d2),
        object_path_chars(db, oid_of(kind, d1)) == object_path_chars(db, oid_of(kind, d2)),
{
}

/// One planned write of a stored object. The caller performs it by writing
/// `bytes` to `temp_path` (creating `dir_path` first if it is missing) and
/// then renaming `temp_path` onto `object_path`, so that no partial object
/// is ever visible at the final path.
pub struct WriteRequest {
    /// The object id the bytes are stored under.
    pub oid: String,

    /// The shard directory, created on demand.
    pub dir_path: String,

    /// The uniquely named temporary file, in the same directory as the
    /// destination.
    pub temp_path: String,

    /// The hash-derived final path.
    pub object_path: String,

    /// The compressed canonical bytes.
    pub bytes: Vec<u8>,
}

/// The `Database` is responsible for managing the objects directory.
/// It receives objects and plans their storage.
pub struct Database {
    /// `db_path` is the path to the database.
    pub db_path: String,
}

impl Database {
    /// Create/Load a `Database` rooted at `db_path`; `present` reports
    /// whether that directory exists on disk.
    pub fn new(db_path: String, present: bool) -> (r: Result<Database, RitError>)
        ensures
            present ==> (r matches Ok(d) && d.db_path == db_path),
            !present ==> r == Err::<Database, RitError>(RitError::NotFound),
    {
        if !present {
            return Err(RitError::NotFound);
        }
        Ok(Database { db_path })
    }

    /// Get the `Database` path.
    pub fn get_db_path(&self) -> (r: &String)
        ensures
            r == &self.db_path,
    {
        &self.db_path
    }

    /// Store an object: compute its canonical bytes and object id, remember
    /// the id on the object, and plan the compressed, temp-then-rename write
    /// that persists it. Identical content always yields the identical id
    /// and final path, which is what makes storage idempotent.
    pub fn store<T: Object>(&self, object: &mut T) -> (r: Result<WriteRequest, RitError>)
        requires
            old(object).serializable(),
            old(object).oid_spec() is None,
        ensures
            r is Ok,
            r matches Ok(req) ==> {
                let kind = old(object).obj_kind();
                let data = old(object).data_spec();
                let oid = oid_of(kind, data);
                &&& final(object).oid_spec() == Some(oid)
                &&& final(object).obj_kind() == kind
                &&& final(object).data_spec() == data
                &&& final(object).serializable()
                &&& req.oid@ == oid
                &&& is_oid_chars(oid)
                &&& req.dir_path@ == shard_dir_chars(self.db_path@, oid)
                &&& req.object_path@ == object_path_chars(self.db_path@, oid)
                &&& zlib_inflate(req.bytes@) == Some(obj_bytes(kind, data))
                &&& req.temp_path@.len() == req.dir_path@.len() + 15
                &&& req.temp_path@.subrange(0, req.dir_path@.len() as int + 9) == req.dir_path@
                    + "/"@ + "tmp_obj_"@
            },
    {
        let data = object.get_data();
        let kind = object.get_type();
        let content = encode_object(kind, &data);
        let hash = hash_content(&content);
        let compressed = zlib_compress(&content);
        object.set_oid(hash.clone());
        Ok(self.write_object(hash, compressed))
    }

    /// Plan the write of content filed under the given object id.
    pub(crate) fn write_object(&self, hash: String, bytes: Vec<u8>) -> (r: WriteRequest)
        requires
            is_oid_chars(hash@),
        ensures
            r.oid == hash,
            r.bytes == bytes,
            r.dir_path@ == shard_dir_chars(self.db_path@, hash@),
            r.object_path@ == object_path_chars(self.db_path@, hash@),
            r.temp_path@.len() == r.dir_path@.len() + 15,
            r.temp_path@.subrange(0, r.dir_path@.len() as int + 9) == r.dir_path@ + "/"@
                + "tmp_obj_"@,
    {
        proof {
            crate::codec::lemma_hex_chars_ascii(hash@);
            reveal_strlit("/");
        }
        let mut dir = self.db_path.clone();
        dir.append("/");
        dir.append(hash.as_str().substring_ascii(0, 2));
        let mut opath = dir.clone();
        opath.append("/");
        opath.append(hash.as_str().substring_ascii(2, 40));
        let temp_name = Self::generate_temp_name();
        let mut tpath = dir.clone();
        tpath.append("/");
        tpath.append(temp_name.as_str());
        proof {
            assert(dir@ =~= shard_dir_chars(self.db_path@, hash@));
            assert(opath@ =~= object_path_chars(self.db_path@, hash@));
            assert(tpath@.subrange(0, dir@.len() as int + 9) =~= dir@ + "/"@ + "tmp_obj_"@);
        }
        WriteRequest { oid: hash, dir_path: dir, temp_path: tpath, object_path: opath, bytes }
    }

    /// Generate a temporary file name that cannot collide with an object
    /// name: a fixed prefix and six random alphanumeric characters.
    fn generate_temp_name() -> (r: String)
        ensures
            r@.len() == 14,
            r@.subrange(0, 8) == "tmp_obj_"@,
            forall|i: int| 8 <= i < 14 ==> is_alnum_char(#[trigger] r@[i]),
    {
        let mut s = String::from_str("tmp_obj_");
        let suffix = random_suffix();
        s.append(suffix.as_str());
        proof {
            reveal_strlit("tmp_obj_");
            assert(s@.subrange(0, 8) =~= "tmp_obj_"@);
        }
        s
    }
}

} // verus!
