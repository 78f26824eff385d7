//! The closed set of object kinds and their header tokens.

use vstd::prelude::*;

verus! {

/// Kind of an object held by the database.
#[derive(Clone, Copy, Debug, PartialEq, Eq, Hash, Ord, PartialOrd, Structural)]
pub enum Kind {
    Blob,
    Tree,
    Commit,
    Tag,
}

/// The ASCII token naming a kind inside an object header
/// (`blob`, `tree`, `commit` or `tag`).
pub open spec fn kind_token(k: Kind) -> Seq<u8> {
    match k {
        Kind::Blob => seq![98u8, 108u8, 111u8, 98u8],
        Kind::Tree => seq![116u8, 114u8, 101u8, 101u8],
        Kind::Commit => seq![99u8, 111u8, 109u8, 109u8, 105u8, 116u8],
        Kind::Tag => seq![116u8, 97u8, 103u8],
    }
}

impl Kind {
    /// The header token of this kind as bytes.
    pub fn token_bytes(&self) -> (r: Vec<u8>)
        ensures
            r@ == kind_token(*self),
    {
        match self {
            Kind::Blob => {
                let r = vec![98u8, 108u8, 111u8, 98u8];
                assert(r@ =~= kind_token(Kind::Blob));
                r
            }
            Kind::Tree => {
                let r = vec![116u8, 114u8, 101u8, 101u8];
                assert(r@ =~= kind_token(Kind::Tree));
                r
            }
            Kind::Commit => {
                let r = vec![99u8, 111u8, 109u8, 109u8, 105u8, 116u8];
                assert(r@ =~= kind_token(Kind::Commit));
                r
            }
            Kind::Tag => {
                let r = vec![116u8, 97u8, 103u8];
                assert(r@ =~= kind_token(Kind::Tag));
                r
            }
        }
    }
}

} // verus!
