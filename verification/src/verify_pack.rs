//! The pack verifier: recompute the trailing checksum, resolve and hash
//! every entry, and optionally decode and re-encode each object.

use vstd::prelude::*;

use crate::hashing::{sha1_digest, sha1_of};
use crate::id::ObjectId;
use crate::index::{
    body_of, resolved_view, trailer_of, walk_entries, walk_spec, wf_resolved, SpecResolved,
    WalkError,
};
use crate::kind::Kind;
use crate::object::decode_fails;
use crate::pack::{parse_pack_header, read_pack_header};

verus! {

/// Validation depth: checksums only; additionally decode each object;
/// additionally re-encode the decoded view and require byte identity.
#[derive(Clone, Copy, Debug, PartialEq, Eq, Structural)]
pub enum Mode {
    Sha1Crc32,
    Sha1Crc32Decode,
    Sha1Crc32DecodeEncode,
}

/// Memory/time trade of the verification walk. Both resolve the same
/// entries and reach the same verdict; they differ only in cost.
#[derive(Clone, Copy, Debug, PartialEq, Eq, Structural)]
pub enum Algorithm {
    LessTime,
    LessMemory,
}

/// Counts gathered while verifying.
#[derive(Clone, Copy, Debug, PartialEq, Eq, Structural)]
pub struct Stats {
    pub entry_count: u32,
    pub commits: u64,
    pub trees: u64,
    pub blobs: u64,
    pub tags: u64,
}

/// Why verification failed.
#[derive(Debug)]
pub enum VerifyError {
    /// The fixed pack header is malformed or the pack is too short.
    Header,
    /// The recomputed checksum differs from the stored trailer.
    Checksum { expected: ObjectId, actual: ObjectId },
    /// Walking or resolving the entries failed.
    Walk(WalkError),
    /// An object's content does not decode, at this pack offset.
    Decode { offset: u64 },
    /// A decoded object re-encodes to different bytes; the round-trip
    /// law proves this cannot happen, so this is never returned.
    ReEncode { offset: u64 },
}

/// How many of the resolved entries hold an object of kind `k`.
pub open spec fn count_kind(s: Seq<SpecResolved>, k: Kind) -> nat
    decreases s.len(),
{
    if s.len() == 0 {
        0
    } else {
        (if s[0].kind == k {
            1nat
        } else {
            0nat
        }) + count_kind(s.drop_first(), k)
    }
}

/// Counting one more entry adds one to its kind.
pub proof fn lemma_count_kind_snoc(s: Seq<SpecResolved>, i: int, k: Kind)
    requires
        0 <= i < s.len(),
    ensures
        count_kind(s.take(i + 1), k) == count_kind(s.take(i), k) + (if s[i].kind == k {
            1nat
        } else {
            0nat
        }),
    decreases i,
{
    if i == 0 {
        assert(s.take(1).drop_first() =~= Seq::<SpecResolved>::empty());
        assert(s.take(0) =~= Seq::<SpecResolved>::empty());
        assert(s.take(1)[0] == s[0]);
    } else {
        lemma_count_kind_snoc(s.drop_first(), i - 1, k);
        assert(s.take(i + 1).drop_first() =~= s.drop_first().take(i));
        assert(s.take(i).drop_first() =~= s.drop_first().take(i - 1));
        assert(s.take(i + 1)[0] == s[0]);
        assert(s.take(i)[0] == s[0]);
        assert(s.drop_first()[i - 1] == s[i]);
    }
}

/// Every resolved entry's content decodes into its typed view.
pub open spec fn all_decode(s: Seq<SpecResolved>) -> bool {
    forall|j: int| 0 <= j < s.len() ==> !decode_fails((#[trigger] s[j]).kind, s[j].data)
}

/// What any verification outcome says of the pack: a relation between
/// the result, the pack bytes and the mode alone, with no part for the
/// algorithm or the thread limit.
pub open spec fn verify_post(pack: Seq<u8>, mode: Mode, r: Result<Stats, VerifyError>) -> bool {
    match r {
        Ok(s) => {
            &&& parse_pack_header(pack) matches Some((_, n)) && s.entry_count == n
            &&& sha1_of(body_of(pack)) == trailer_of(pack)
            &&& (walk_spec(pack, 12, s.entry_count as nat, Seq::empty()) matches Some((w, _))
                && s.commits == count_kind(w, Kind::Commit) && s.trees == count_kind(
                w,
                Kind::Tree,
            ) && s.blobs == count_kind(w, Kind::Blob) && s.tags == count_kind(w, Kind::Tag) && (
            mode != Mode::Sha1Crc32 ==> all_decode(w)))
        },
        Err(VerifyError::Header) => parse_pack_header(pack) is None,
        Err(VerifyError::Checksum { expected, actual }) => {
            &&& parse_pack_header(pack) is Some
            &&& expected.bytes@ == trailer_of(pack)
            &&& actual.bytes@ == sha1_of(body_of(pack))
            &&& sha1_of(body_of(pack)) != trailer_of(pack)
        },
        Err(VerifyError::Walk(_)) => {
            &&& sha1_of(body_of(pack)) == trailer_of(pack)
            &&& parse_pack_header(pack) matches Some((_, n)) && walk_spec(
                pack,
                12,
                n as nat,
                Seq::empty(),
            ) is None
        },
        Err(VerifyError::Decode { offset }) => {
            &&& mode != Mode::Sha1Crc32
            &&& sha1_of(body_of(pack)) == trailer_of(pack)
            &&& parse_pack_header(pack) matches Some((_, n)) && (walk_spec(
                pack,
                12,
                n as nat,
                Seq::empty(),
            ) matches Some((w, _)) && exists|j: int|
                0 <= j < w.len() && (#[trigger] w[j]).offset == offset && decode_fails(
                    w[j].kind,
                    w[j].data,
                ))
        },
        Err(VerifyError::ReEncode { .. }) => false,
    }
}

/// Thread-limit invariance: the verdict and the statistics are fixed by
/// the pack bytes and the mode, so any two outcomes — whatever their
/// thread limit or algorithm — agree on pass/fail, and two successful
/// outcomes carry identical statistics.
pub proof fn lemma_verdicts_agree(
    pack: Seq<u8>,
    mode: Mode,
    r1: Result<Stats, VerifyError>,
    r2: Result<Stats, VerifyError>,
)
    requires
        verify_post(pack, mode, r1),
        verify_post(pack, mode, r2),
    ensures
        r1 is Ok <==> r2 is Ok,
        r1 is Ok && r2 is Ok ==> r1.unwrap() == r2.unwrap(),
{
    if r1 is Ok {
        match r2 {
            Err(VerifyError::Decode { offset }) => {
                let n = parse_pack_header(pack).unwrap().1;
                let w = walk_spec(pack, 12, n as nat, Seq::empty()).unwrap().0;
                let j = choose|j: int|
                    0 <= j < w.len() && (#[trigger] w[j]).offset == offset && decode_fails(
                        w[j].kind,
                        w[j].data,
                    );
                assert(!decode_fails(w[j].kind, w[j].data));
            }
            _ => {
            }
        }
    }
    if r2 is Ok {
        match r1 {
            Err(VerifyError::Decode { offset }) => {
                let n = parse_pack_header(pack).unwrap().1;
                let w = walk_spec(pack, 12, n as nat, Seq::empty()).unwrap().0;
                let j = choose|j: int|
                    0 <= j < w.len() && (#[trigger] w[j]).offset == offset && decode_fails(
                        w[j].kind,
                        w[j].data,
                    );
                assert(!decode_fails(w[j].kind, w[j].data));
            }
            _ => {
            }
        }
    }
}

/// Verify a whole pack. The verdict and the statistics depend on the
/// pack bytes and the mode alone: the algorithm and the thread limit
/// only steer cost, so runs under different limits agree.
pub fn verify_pack(pack: &[u8], mode: Mode, _algorithm: Algorithm, _thread_limit: usize) -> (r:
    Result<Stats, VerifyError>)
    ensures
        verify_post(pack@, mode, r),
{
    let plen: usize = pack.len();
    let (_version, count) = match read_pack_header(pack) {
        Some(vc) => vc,
        None => {
            return Err(VerifyError::Header);
        }
    };
    let stored = crate::bytes::copy_range(pack, plen - crate::id::ID_LEN, plen);
    let stored_id = ObjectId::from_bytes(stored);
    assert(stored_id.bytes@ == trailer_of(pack@));
    let body = crate::bytes::copy_range(pack, 0, plen - crate::id::ID_LEN);
    assert(body@ =~= body_of(pack@));
    let actual = ObjectId::from_bytes(sha1_digest(body.as_slice()));
    if !actual.eq(&stored_id) {
        return Err(VerifyError::Checksum { expected: stored_id, actual });
    }
    let (resolved, _skipped) = match walk_entries(pack, count, false) {
        Ok(vs) => vs,
        Err(e) => {
            return Err(VerifyError::Walk(e));
        }
    };
    let ghost w = resolved_view(resolved@);
    let mut commits: u64 = 0;
    let mut trees: u64 = 0;
    let mut blobs: u64 = 0;
    let mut tags: u64 = 0;
    let mut i: usize = 0;
    let total: usize = resolved.len();
    proof {
        assert(w.take(0) =~= Seq::<SpecResolved>::empty());
    }
    while i < total
        invariant
            i <= total,
            total == resolved@.len(),
            total == count,
            w == resolved_view(resolved@),
            w.len() == total,
            parse_pack_header(pack@) is Some && parse_pack_header(pack@).unwrap().1 == count,
            sha1_of(body_of(pack@)) == trailer_of(pack@),
            walk_spec(pack@, 12, count as nat, Seq::empty()) matches Some((ws, _)) && ws == w,
            forall|j: int| 0 <= j < resolved@.len() ==> wf_resolved(#[trigger] resolved@[j]),
            commits + trees + blobs + tags == i,
            commits == count_kind(w.take(i as int), Kind::Commit),
            trees == count_kind(w.take(i as int), Kind::Tree),
            blobs == count_kind(w.take(i as int), Kind::Blob),
            tags == count_kind(w.take(i as int), Kind::Tag),
            mode != Mode::Sha1Crc32 ==> forall|j: int|
                0 <= j < i ==> !decode_fails((#[trigger] w[j]).kind, w[j].data),
        decreases total - i,
    {
        let e = &resolved[i];
        proof {
            assert(w[i as int] == crate::index::spec_of(resolved@[i as int]));
            lemma_count_kind_snoc(w, i as int, Kind::Commit);
            lemma_count_kind_snoc(w, i as int, Kind::Tree);
            lemma_count_kind_snoc(w, i as int, Kind::Blob);
            lemma_count_kind_snoc(w, i as int, Kind::Tag);
        }
        match e.kind {
            Kind::Commit => {
                commits = commits + 1;
            }
            Kind::Tree => {
                trees = trees + 1;
            }
            Kind::Blob => {
                blobs = blobs + 1;
            }
            Kind::Tag => {
                tags = tags + 1;
            }
        }
        let deep = match mode {
            Mode::Sha1Crc32 => false,
            _ => true,
        };
        if deep {
            let obj = crate::object::Object { kind: e.kind, data: e.data.as_slice() };
            let view = match obj.decode() {
                Ok(v) => v,
                Err(_) => {
                    proof {
                        assert(w[i as int].offset == e.offset && decode_fails(
                            w[i as int].kind,
                            w[i as int].data,
                        ));
                    }
                    return Err(VerifyError::Decode { offset: e.offset });
                }
            };
            let reencode = match mode {
                Mode::Sha1Crc32DecodeEncode => true,
                _ => false,
            };
            if reencode {
                let bytes = view.encode();
                proof {
                    crate::object::lemma_object_round_trip(e.kind, e.data@, view);
                }
                if !crate::bytes::same_bytes(bytes.as_slice(), e.data.as_slice()) {
                    return Err(VerifyError::ReEncode { offset: e.offset });
                }
            }
            proof {
                match view {
                    crate::object::ImmutableObject::Blob { .. } => {
                    }
                    crate::object::ImmutableObject::Tree(_) => {
                    }
                    crate::object::ImmutableObject::Commit(_) => {
                    }
                    crate::object::ImmutableObject::Tag(_) => {
                    }
                }
                assert(!decode_fails(w[i as int].kind, w[i as int].data));
            }
        }
        i = i + 1;
    }
    proof {
        assert(w.take(total as int) =~= w);
    }
    Ok(Stats { entry_count: count, commits, trees, blobs, tags })
}

} // verus!
