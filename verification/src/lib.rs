//! Verified core of a content-addressable object database: the object
//! codec (header framing, typed decoding, checksum verification), the
//! loose-object store logic, and the pack pipelines (index construction,
//! whole-pack verification, explosion into loose objects).
//!
//! All I/O lives outside this crate; every function here computes over
//! in-memory bytes and carries a contract.

pub mod bytes;
pub mod kind;
pub mod id;
pub mod header;
pub mod hashing;
pub mod zlib;
pub mod tree;
pub mod commit;
pub mod tag;
pub mod object;
pub mod pack;
pub mod delta;
pub mod index;
pub mod loose;
pub mod verify_pack;
pub mod explode;
