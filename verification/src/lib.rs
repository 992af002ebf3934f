//! A content-addressable object store with a Merkle-tree builder and a
//! transactional single-pointer reference file: blobs, trees and commits are
//! serialized into canonical bytes, addressed by the hex digest of those
//! bytes, and the latest snapshot's hash is advanced through a scoped lock.
//! All filesystem work is planned here and performed by the caller.

pub mod types;
pub mod codec;
pub mod compress;
pub mod workspace;
pub mod database;
pub mod lockfile;
pub mod refs;
pub mod author;
pub mod message;
pub mod cli;
pub mod utility;
pub mod init;
pub mod cat_file;
pub mod commit;
