//! Borrowed objects, their typed decoded views, and checksum
//! verification against a claimed identifier.

use vstd::prelude::*;

use crate::commit::{commit_bytes, commit_view, parse_commit, Commit, CommitDecodeError};
use crate::hashing::{compute_object_id, object_id_of};
use crate::id::ObjectId;
use crate::kind::Kind;
use crate::tag::{parse_tag, tag_bytes, tag_view, Tag, TagDecodeError};
use crate::tree::{entries_view, parse_tree_at, tree_bytes, Tree, TreeDecodeError};

verus! {

/// A borrowed object: its kind and its decompressed content bytes,
/// owned by whichever store produced them.
#[derive(PartialEq, Eq, Debug, Hash, Ord, PartialOrd, Clone)]
pub struct Object<'a> {
    /// Kind of the object.
    pub kind: Kind,
    /// Decoded, decompressed content, owned by a backing store.
    pub data: &'a [u8],
}

/// A decoded, typed view of an object's content.
#[derive(Debug)]
pub enum ImmutableObject {
    Blob { data: Vec<u8> },
    Tree(Tree),
    Commit(Commit),
    Tag(Tag),
}

/// Failure to decode an object's content, carrying the kind-specific
/// field and offset.
#[derive(Clone, Copy, Debug, PartialEq, Eq, Structural)]
pub enum DecodeError {
    Tree(TreeDecodeError),
    Commit(CommitDecodeError),
    Tag(TagDecodeError),
}

/// The decoded view `o` is what the content bytes `s` of an object of
/// kind `k` say.
pub open spec fn decoded_matches(k: Kind, s: Seq<u8>, o: ImmutableObject) -> bool {
    match o {
        ImmutableObject::Blob { data } => k == Kind::Blob && data@ == s,
        ImmutableObject::Tree(t) => k == Kind::Tree && parse_tree_at(s, 0) == Some(
            entries_view(t.entries@),
        ),
        ImmutableObject::Commit(c) => k == Kind::Commit && parse_commit(s) == Some(
            commit_view(c),
        ),
        ImmutableObject::Tag(t) => k == Kind::Tag && parse_tag(s) == Some(tag_view(t)),
    }
}

/// Content bytes `s` of an object of kind `k` have no decoded view.
pub open spec fn decode_fails(k: Kind, s: Seq<u8>) -> bool {
    match k {
        Kind::Blob => false,
        Kind::Tree => parse_tree_at(s, 0) is None,
        Kind::Commit => parse_commit(s) is None,
        Kind::Tag => parse_tag(s) is None,
    }
}

/// The content bytes a decoded view encodes back to.
pub open spec fn encoded_bytes(o: ImmutableObject) -> Seq<u8> {
    match o {
        ImmutableObject::Blob { data } => data@,
        ImmutableObject::Tree(t) => tree_bytes(entries_view(t.entries@)),
        ImmutableObject::Commit(c) => commit_bytes(commit_view(c)),
        ImmutableObject::Tag(t) => tag_bytes(tag_view(t)),
    }
}

impl<'a> Object<'a> {
    /// Decode the content into its typed view. Blob decoding never
    /// fails; tree, commit and tag decoding fails exactly on malformed
    /// content.
    pub fn decode(&self) -> (r: Result<ImmutableObject, DecodeError>)
        ensures
            match r {
                Ok(o) => decoded_matches(self.kind, self.data@, o),
                Err(_) => decode_fails(self.kind, self.data@),
            },
    {
        match self.kind {
            Kind::Blob => {
                let data = crate::bytes::copy_range(self.data, 0, self.data.len());
                assert(self.data@.subrange(0, self.data@.len() as int) =~= self.data@);
                Ok(ImmutableObject::Blob { data })
            }
            Kind::Tree => {
                match Tree::decode(self.data) {
                    Ok(t) => Ok(ImmutableObject::Tree(t)),
                    Err(e) => Err(DecodeError::Tree(e)),
                }
            }
            Kind::Commit => {
                match Commit::decode(self.data) {
                    Ok(c) => Ok(ImmutableObject::Commit(c)),
                    Err(e) => Err(DecodeError::Commit(e)),
                }
            }
            Kind::Tag => {
                match Tag::decode(self.data) {
                    Ok(t) => Ok(ImmutableObject::Tag(t)),
                    Err(e) => Err(DecodeError::Tag(e)),
                }
            }
        }
    }
}

impl ImmutableObject {
    /// The kind this view belongs to.
    pub fn kind(&self) -> (r: Kind)
        ensures
            r == (match *self {
                ImmutableObject::Blob { .. } => Kind::Blob,
                ImmutableObject::Tree(_) => Kind::Tree,
                ImmutableObject::Commit(_) => Kind::Commit,
                ImmutableObject::Tag(_) => Kind::Tag,
            }),
    {
        match self {
            ImmutableObject::Blob { .. } => Kind::Blob,
            ImmutableObject::Tree(_) => Kind::Tree,
            ImmutableObject::Commit(_) => Kind::Commit,
            ImmutableObject::Tag(_) => Kind::Tag,
        }
    }

    /// Encode the view back to content bytes.
    pub fn encode(&self) -> (r: Vec<u8>)
        ensures
            r@ == encoded_bytes(*self),
    {
        match self {
            ImmutableObject::Blob { data } => {
                let r = crate::bytes::copy_range(data.as_slice(), 0, data.len());
                assert(data@.subrange(0, data@.len() as int) =~= data@);
                r
            }
            ImmutableObject::Tree(t) => t.encode(),
            ImmutableObject::Commit(c) => c.encode(),
            ImmutableObject::Tag(t) => t.encode(),
        }
    }
}

/// Round-trip law: a decoded view encodes back to exactly the bytes it
/// was decoded from, so the object's identity is unchanged by the trip.
pub proof fn lemma_object_round_trip(k: Kind, s: Seq<u8>, o: ImmutableObject)
    requires
        decoded_matches(k, s, o),
    ensures
        encoded_bytes(o) == s,
        object_id_of(k, encoded_bytes(o)) == object_id_of(k, s),
{
    match o {
        ImmutableObject::Blob { data } => {
        }
        ImmutableObject::Tree(t) => {
            crate::tree::lemma_tree_round_trip(s, 0, entries_view(t.entries@));
            assert(s.subrange(0, s.len() as int) =~= s);
        }
        ImmutableObject::Commit(c) => {
            crate::commit::lemma_commit_round_trip(s, commit_view(c));
        }
        ImmutableObject::Tag(t) => {
            crate::tag::lemma_tag_round_trip(s, tag_view(t));
        }
    }
}

/// Failure of checksum verification: the claimed and the recomputed
/// identifier.
#[derive(Debug)]
pub enum ChecksumError {
    ChecksumMismatch { desired: ObjectId, actual: ObjectId },
}

impl<'a> Object<'a> {
    /// Recompute this object's identifier and compare it with the
    /// claimed one. Succeeds exactly where they agree; on mismatch the
    /// error carries the claimed and the recomputed identifier.
    pub fn verify_checksum(&self, desired: &ObjectId) -> (r: Result<(), ChecksumError>)
        requires
            self.data@.len() <= u64::MAX,
        ensures
            match r {
                Ok(()) => desired.bytes@ == object_id_of(self.kind, self.data@),
                Err(ChecksumError::ChecksumMismatch { desired: d, actual }) => {
                    &&& desired.bytes@ != object_id_of(self.kind, self.data@)
                    &&& d.bytes@ == desired.bytes@
                    &&& actual.bytes@ == object_id_of(self.kind, self.data@)
                },
            },
    {
        let actual = compute_object_id(self.kind, self.data);
        if actual.eq(desired) {
            Ok(())
        } else {
            Err(ChecksumError::ChecksumMismatch { desired: desired.duplicate(), actual })
        }
    }
}

} // verus!
