//! The tag object codec: object line, type line, tag-name line, and a
//! verbatim remainder (tagger line, blank separator and message).

use vstd::prelude::*;

use crate::bytes::{copy_range, eq_at, find_byte, find_byte_from, lemma_find_byte, push_all};
use crate::id::{all_lower_hex, from_hex_at, hex_of, ObjectId};
use crate::kind::{kind_token, Kind};

verus! {

/// `"object "`.
pub open spec fn object_prefix() -> Seq<u8> {
    seq![111u8, 98u8, 106u8, 101u8, 99u8, 116u8, 32u8]
}

/// `"type "`.
pub open spec fn type_prefix() -> Seq<u8> {
    seq![116u8, 121u8, 112u8, 101u8, 32u8]
}

/// `"tag "`.
pub open spec fn tag_prefix() -> Seq<u8> {
    seq![116u8, 97u8, 103u8, 32u8]
}

/// A decoded tag object.
#[derive(Debug)]
pub struct Tag {
    /// Digest of the object the tag points at.
    pub target: ObjectId,
    /// Kind of that object.
    pub target_kind: Kind,
    /// The tag's name bytes, free of newlines.
    pub name: Vec<u8>,
    /// Everything after the name line, verbatim: the tagger line, the
    /// blank separator and the message.
    pub remainder: Vec<u8>,
}

/// The mathematical shape of a tag: target hex digits, target kind,
/// name bytes, remainder bytes.
pub open spec fn tag_view(t: Tag) -> (Seq<u8>, Kind, Seq<u8>, Seq<u8>) {
    (hex_of(t.target.bytes@), t.target_kind, t.name@, t.remainder@)
}

/// The token of `k` followed by a newline stands at `at`.
pub open spec fn token_nl_at(s: Seq<u8>, at: int, k: Kind) -> bool {
    &&& 0 <= at
    &&& at + kind_token(k).len() + 1 <= s.len()
    &&& s.subrange(at, at + kind_token(k).len() + 1 as int) == kind_token(k) + seq![10u8]
}

/// The kind whose token and a newline stand at `at`, if any.
pub open spec fn line_kind(s: Seq<u8>, at: int) -> Option<Kind> {
    if token_nl_at(s, at, Kind::Blob) {
        Some(Kind::Blob)
    } else if token_nl_at(s, at, Kind::Tree) {
        Some(Kind::Tree)
    } else if token_nl_at(s, at, Kind::Commit) {
        Some(Kind::Commit)
    } else if token_nl_at(s, at, Kind::Tag) {
        Some(Kind::Tag)
    } else {
        None
    }
}

/// Parse a tag object: an `object` line, a `type` line, a `tag` line,
/// and the verbatim remainder.
pub open spec fn parse_tag(s: Seq<u8>) -> Option<(Seq<u8>, Kind, Seq<u8>, Seq<u8>)> {
    if s.len() < 48 || s.subrange(0, 7) != object_prefix() || !all_lower_hex(s.subrange(7, 47))
        || s[47] != 10 {
        None
    } else if s.len() < 53 || s.subrange(48, 53) != type_prefix() {
        None
    } else {
        match line_kind(s, 53) {
            None => None,
            Some(k) => {
                let q = 53 + kind_token(k).len() + 1;
                if q + 4 > s.len() || s.subrange(q as int, q + 4 as int) != tag_prefix() {
                    None
                } else {
                    let e = find_byte(s, q + 4 as int, 10);
                    if e >= s.len() {
                        None
                    } else {
                        Some(
                            (
                                s.subrange(7, 47),
                                k,
                                s.subrange(q + 4 as int, e),
                                s.subrange(e + 1, s.len() as int),
                            ),
                        )
                    }
                }
            }
        }
    }
}

/// The byte encoding of a tag in its mathematical shape.
pub open spec fn tag_bytes(v: (Seq<u8>, Kind, Seq<u8>, Seq<u8>)) -> Seq<u8> {
    object_prefix() + v.0 + seq![10u8] + type_prefix() + kind_token(v.1) + seq![10u8]
        + tag_prefix() + v.2 + seq![10u8] + v.3
}

/// Re-encoding what was parsed gives back exactly the parsed bytes.
pub proof fn lemma_tag_round_trip(s: Seq<u8>, v: (Seq<u8>, Kind, Seq<u8>, Seq<u8>))
    requires
        parse_tag(s) == Some(v),
    ensures
        tag_bytes(v) == s,
{
    let k = line_kind(s, 53).unwrap();
    let q = 53 + kind_token(k).len() + 1;
    let e = find_byte(s, q + 4 as int, 10);
    lemma_find_byte(s, q + 4 as int, 10);
    let n = s.len() as int;
    assert(s =~= s.subrange(0, 7) + s.subrange(7, 47) + s.subrange(47, 48) + s.subrange(48, 53)
        + s.subrange(53, q as int) + s.subrange(q as int, q + 4 as int) + s.subrange(
        q + 4 as int,
        e,
    ) + s.subrange(e, e + 1) + s.subrange(e + 1, n));
    assert(s.subrange(47, 48) =~= seq![10u8]);
    assert(s.subrange(e, e + 1) =~= seq![10u8]);
    assert(s.subrange(53, q as int) == kind_token(k) + seq![10u8]);
    assert(tag_bytes(v) =~= s.subrange(0, 7) + s.subrange(7, 47) + s.subrange(47, 48) + s.subrange(
        48,
        53,
    ) + s.subrange(53, q as int) + s.subrange(q as int, q + 4 as int) + s.subrange(q + 4 as int, e)
        + s.subrange(e, e + 1) + s.subrange(e + 1, n));
}

/// Where and why tag decoding failed.
#[derive(Clone, Copy, Debug, PartialEq, Eq, Structural)]
pub enum TagDecodeError {
    /// The `object` line at `offset` is missing or malformed.
    Object { offset: usize },
    /// The `type` line at `offset` does not name a kind.
    Type { offset: usize },
    /// The `tag` line at `offset` is missing or unterminated.
    Name { offset: usize },
}

/// Whether the token of `k` and a newline stand at `at`.
fn read_token_nl(data: &[u8], at: usize, k: Kind) -> (r: bool)
    requires
        at <= data@.len(),
    ensures
        r == token_nl_at(data@, at as int, k),
{
    let mut tok = k.token_bytes();
    tok.push(10);
    assert(tok@ =~= kind_token(k) + seq![10u8]);
    if data.len() - at < tok.len() {
        return false;
    }
    let r = eq_at(data, at, tok.as_slice());
    assert(data@.subrange(at as int, at + kind_token(k).len() + 1 as int) == data@.subrange(
        at as int,
        at + tok@.len() as int,
    ));
    r
}

/// Read the kind named on the `type` line at `at`; on success the
/// returned count is the token's length and the newline.
fn read_line_kind(data: &[u8], at: usize) -> (r: Option<(Kind, usize)>)
    requires
        at <= data@.len(),
    ensures
        match r {
            Some((k, used)) => line_kind(data@, at as int) == Some(k) && used == kind_token(
                k,
            ).len() + 1,
            None => line_kind(data@, at as int) is None,
        },
{
    if read_token_nl(data, at, Kind::Blob) {
        Some((Kind::Blob, 5))
    } else if read_token_nl(data, at, Kind::Tree) {
        Some((Kind::Tree, 5))
    } else if read_token_nl(data, at, Kind::Commit) {
        Some((Kind::Commit, 7))
    } else if read_token_nl(data, at, Kind::Tag) {
        Some((Kind::Tag, 4))
    } else {
        None
    }
}

impl Tag {
    /// Decode a tag object from its content bytes. Succeeds exactly on
    /// byte strings opening with a well-formed header section.
    pub fn decode(data: &[u8]) -> (r: Result<Tag, TagDecodeError>)
        ensures
            match r {
                Ok(t) => parse_tag(data@) == Some(tag_view(t)) && t.target.wf(),
                Err(_) => parse_tag(data@) is None,
            },
    {
        let dlen: usize = data.len();
        let op = {
            let v = vec![111u8, 98u8, 106u8, 101u8, 99u8, 116u8, 32u8];
            assert(v@ =~= object_prefix());
            v
        };
        if dlen < 48 {
            return Err(TagDecodeError::Object { offset: 0 });
        }
        if !eq_at(data, 0, op.as_slice()) {
            assert(data@.subrange(0, 7) == data@.subrange(0, 0 + op@.len() as int));
            return Err(TagDecodeError::Object { offset: 0 });
        }
        assert(data@.subrange(0, 7) == data@.subrange(0, 0 + op@.len() as int));
        let target = match from_hex_at(data, 7) {
            Some(id) => id,
            None => {
                return Err(TagDecodeError::Object { offset: 7 });
            }
        };
        if data[47] != 10 {
            return Err(TagDecodeError::Object { offset: 47 });
        }
        let typ = {
            let v = vec![116u8, 121u8, 112u8, 101u8, 32u8];
            assert(v@ =~= type_prefix());
            v
        };
        if dlen < 53 {
            return Err(TagDecodeError::Type { offset: 48 });
        }
        if !eq_at(data, 48, typ.as_slice()) {
            assert(data@.subrange(48, 53) == data@.subrange(48, 48 + typ@.len() as int));
            return Err(TagDecodeError::Type { offset: 48 });
        }
        assert(data@.subrange(48, 53) == data@.subrange(48, 48 + typ@.len() as int));
        let (target_kind, used) = match read_line_kind(data, 53) {
            Some(p) => p,
            None => {
                return Err(TagDecodeError::Type { offset: 53 });
            }
        };
        let q = 53 + used;
        let tp = {
            let v = vec![116u8, 97u8, 103u8, 32u8];
            assert(v@ =~= tag_prefix());
            v
        };
        if dlen - q < 4 {
            return Err(TagDecodeError::Name { offset: q });
        }
        if !eq_at(data, q, tp.as_slice()) {
            assert(data@.subrange(q as int, q + 4 as int) == data@.subrange(
                q as int,
                q + tp@.len() as int,
            ));
            return Err(TagDecodeError::Name { offset: q });
        }
        assert(data@.subrange(q as int, q + 4 as int) == data@.subrange(q as int, q + tp@.len() as int));
        let e = find_byte_from(data, q + 4, 10);
        if e == dlen {
            return Err(TagDecodeError::Name { offset: q + 4 });
        }
        let name = copy_range(data, q + 4, e);
        let remainder = copy_range(data, e + 1, dlen);
        let t = Tag { target, target_kind, name, remainder };
        proof {
            crate::commit::lemma_hex_of_is_hex(t.target.bytes@);
            assert(parse_tag(data@) == Some(tag_view(t)));
        }
        Ok(t)
    }

    /// Encode the tag back to content bytes.
    pub fn encode(&self) -> (r: Vec<u8>)
        ensures
            r@ == tag_bytes(tag_view(*self)),
    {
        let mut out: Vec<u8> = Vec::new();
        let op = {
            let v = vec![111u8, 98u8, 106u8, 101u8, 99u8, 116u8, 32u8];
            assert(v@ =~= object_prefix());
            v
        };
        push_all(&mut out, op.as_slice());
        let th = self.target.to_hex();
        push_all(&mut out, th.as_slice());
        out.push(10);
        let typ = {
            let v = vec![116u8, 121u8, 112u8, 101u8, 32u8];
            assert(v@ =~= type_prefix());
            v
        };
        push_all(&mut out, typ.as_slice());
        let tok = self.target_kind.token_bytes();
        push_all(&mut out, tok.as_slice());
        out.push(10);
        let tp = {
            let v = vec![116u8, 97u8, 103u8, 32u8];
            assert(v@ =~= tag_prefix());
            v
        };
        push_all(&mut out, tp.as_slice());
        push_all(&mut out, self.name.as_slice());
        out.push(10);
        push_all(&mut out, self.remainder.as_slice());
        assert(out@ =~= tag_bytes(tag_view(*self)));
        out
    }
}

} // verus!
