//! The pack exploder: materialize every pack entry as a loose object,
//! under a chosen level of safety checks.

use vstd::prelude::*;

use crate::hashing::{object_id_of, sha1_digest, sha1_of};
use crate::id::{hex_of, ObjectId, ID_LEN};
use crate::index::{
    body_of, lemma_walk_prefix, resolved_view, spec_of, trailer_of, walk_entries, walk_spec,
    wf_resolved, SpecResolved, WalkError,
};
use crate::loose::{loose_encode, loose_path, parse_loose};
use crate::pack::parse_pack_header;
use crate::zlib::deflate_of;

verus! {

/// How many checks run while exploding, from strictest to most
/// permissive.
#[derive(Clone, Copy, Debug, PartialEq, Eq, Structural)]
pub enum SafetyCheck {
    /// Validate the file checksum and every object, abort on failure.
    All,
    /// Skip the whole-file checksum.
    SkipFileChecksum,
    /// Skip the whole-file and the per-object checksum.
    SkipFileAndObjectChecksum,
    /// Additionally continue past entries that fail to decode.
    SkipFileAndObjectChecksumAndNoAbortOnDecode,
}

/// A failing entry is tolerated (skipped) under this level.
pub open spec fn tolerates_failure(check: SafetyCheck) -> bool {
    check == SafetyCheck::SkipFileAndObjectChecksum
        || check == SafetyCheck::SkipFileAndObjectChecksumAndNoAbortOnDecode
}

/// One loose object to be written: its two-level path, its file bytes,
/// and its identifier.
#[derive(Debug)]
pub struct LooseWrite {
    pub dir: Vec<u8>,
    pub name: Vec<u8>,
    pub bytes: Vec<u8>,
    pub id: ObjectId,
}

/// A write is self-certifying: its bytes decode to one object whose
/// identifier is the write's, and the path is derived from that
/// identifier.
pub open spec fn wf_write(w: LooseWrite) -> bool {
    match parse_loose(w.bytes@) {
        Some((k, c)) => {
            &&& w.id.bytes@ == object_id_of(k, c)
            &&& w.id.wf()
            &&& w.dir@ == hex_of(w.id.bytes@).take(2)
            &&& w.name@ == hex_of(w.id.bytes@).skip(2)
        },
        None => false,
    }
}

/// The writes are exactly the loose forms of the resolved entries, in
/// pack offset order: each carries the entry's identifier, the path
/// derived from it, and — when compression is on — the entry's loose
/// file bytes; with compression off the entries are only hashed and the
/// file bytes stay empty.
pub open spec fn writes_match(
    s: Seq<SpecResolved>,
    ws: Seq<LooseWrite>,
    compress: bool,
) -> bool {
    &&& ws.len() == s.len()
    &&& forall|j: int|
        0 <= j < s.len() ==> {
            let r = s[j];
            let w = #[trigger] ws[j];
            &&& w.id.bytes@ == object_id_of(r.kind, r.data)
            &&& w.id.wf()
            &&& w.dir@ == hex_of(w.id.bytes@).take(2)
            &&& w.name@ == hex_of(w.id.bytes@).skip(2)
            &&& (compress ==> w.bytes@ == deflate_of(
                crate::header::header_bytes(r.kind, r.data.len()) + r.data,
            ))
            &&& (!compress ==> w.bytes@ == Seq::<u8>::empty())
        }
}

/// The computed writes and skip count of an explosion.
#[derive(Debug)]
pub struct ExplodeOutcome {
    /// The loose objects to write, in pack offset order.
    pub writes: Vec<LooseWrite>,
    /// Entries skipped under a permissive safety level.
    pub skipped: u32,
}

/// Why exploding failed.
#[derive(Debug)]
pub enum ExplodeError {
    /// The fixed pack header is malformed or the pack is too short.
    Header,
    /// Under the strictest level, the recomputed checksum differs from
    /// the stored trailer.
    Checksum { expected: ObjectId, actual: ObjectId },
    /// Walking or resolving the entries failed under a strict level.
    Walk(WalkError),
}

/// What any explosion outcome says of the pack: a relation between the
/// result, the pack bytes, the safety level and the compression switch
/// alone.
pub open spec fn explode_post(
    pack: Seq<u8>,
    check: SafetyCheck,
    compress: bool,
    r: Result<ExplodeOutcome, ExplodeError>,
) -> bool {
    match r {
        Ok(o) => {
            &&& parse_pack_header(pack) is Some
            &&& (check == SafetyCheck::All ==> sha1_of(body_of(pack)) == trailer_of(pack))
            &&& (compress ==> forall|j: int|
                0 <= j < o.writes@.len() ==> wf_write(#[trigger] o.writes@[j]))
            &&& exists|k: nat|
                {
                    let n = parse_pack_header(pack).unwrap().1 as nat;
                    &&& k <= n
                    &&& #[trigger] walk_spec(pack, 12, k, Seq::empty()) matches Some((s, _))
                        && writes_match(s, o.writes@, compress)
                    &&& o.skipped == n - k
                    &&& (k < n ==> tolerates_failure(check) && walk_spec(
                        pack,
                        12,
                        (k + 1) as nat,
                        Seq::empty(),
                    ) is None)
                }
        },
        Err(ExplodeError::Header) => parse_pack_header(pack) is None,
        Err(ExplodeError::Checksum { expected, actual }) => {
            &&& check == SafetyCheck::All
            &&& expected.bytes@ == trailer_of(pack)
            &&& actual.bytes@ == sha1_of(body_of(pack))
            &&& sha1_of(body_of(pack)) != trailer_of(pack)
        },
        Err(ExplodeError::Walk(_)) => !tolerates_failure(check) && (parse_pack_header(
            pack,
        ) matches Some((_, n)) && walk_spec(pack, 12, n as nat, Seq::empty()) is None),
    }
}

/// Idempotence: the writes are a function of the pack bytes, the safety
/// level and the compression switch, so two successful explosions of
/// the same pack compute identical paths, identifiers and file bytes,
/// and skip the same entries.
pub proof fn lemma_explode_deterministic(
    pack: Seq<u8>,
    check: SafetyCheck,
    compress: bool,
    r1: Result<ExplodeOutcome, ExplodeError>,
    r2: Result<ExplodeOutcome, ExplodeError>,
)
    requires
        explode_post(pack, check, compress, r1),
        explode_post(pack, check, compress, r2),
        r1 is Ok,
        r2 is Ok,
    ensures
        ({
            let w1 = r1.unwrap().writes@;
            let w2 = r2.unwrap().writes@;
            &&& w1.len() == w2.len()
            &&& r1.unwrap().skipped == r2.unwrap().skipped
            &&& forall|j: int|
                0 <= j < w1.len() ==> (#[trigger] w1[j]).bytes@ == w2[j].bytes@ && w1[j].dir@
                    == w2[j].dir@ && w1[j].name@ == w2[j].name@ && w1[j].id.bytes@
                    == w2[j].id.bytes@
        }),
{
    let o1 = r1.unwrap();
    let o2 = r2.unwrap();
    let n = parse_pack_header(pack).unwrap().1 as nat;
    let k1 = choose|k: nat|
        {
            &&& k <= n
            &&& #[trigger] walk_spec(pack, 12, k, Seq::empty()) matches Some((s, _))
                && writes_match(s, o1.writes@, compress)
            &&& o1.skipped == n - k
            &&& (k < n ==> tolerates_failure(check) && walk_spec(
                pack,
                12,
                (k + 1) as nat,
                Seq::empty(),
            ) is None)
        };
    let k2 = choose|k: nat|
        {
            &&& k <= n
            &&& #[trigger] walk_spec(pack, 12, k, Seq::empty()) matches Some((s, _))
                && writes_match(s, o2.writes@, compress)
            &&& o2.skipped == n - k
            &&& (k < n ==> tolerates_failure(check) && walk_spec(
                pack,
                12,
                (k + 1) as nat,
                Seq::empty(),
            ) is None)
        };
    if k1 < k2 {
        lemma_walk_prefix(pack, (k1 + 1) as nat, k2);
    }
    if k2 < k1 {
        lemma_walk_prefix(pack, (k2 + 1) as nat, k1);
    }
    assert(k1 == k2);
    let s = walk_spec(pack, 12, k1, Seq::empty()).unwrap().0;
    assert(writes_match(s, o1.writes@, compress));
    assert(writes_match(s, o2.writes@, compress));
}

/// Compute the loose objects a pack explodes into. Under the strict
/// levels every failure aborts the whole operation and nothing is
/// handed out to be written; under the permissive levels a failing
/// entry ends the walk — the stream cannot be re-synchronized past it —
/// and it and everything after it count as skipped.
pub fn explode_pack(pack: &[u8], check: SafetyCheck, compress: bool, _thread_limit: usize) -> (r:
    Result<ExplodeOutcome, ExplodeError>)
    ensures
        explode_post(pack@, check, compress, r),
{
    let plen: usize = pack.len();
    let (_version, count) = match crate::pack::read_pack_header(pack) {
        Some(vc) => vc,
        None => {
            return Err(ExplodeError::Header);
        }
    };
    let strict_file = match check {
        SafetyCheck::All => true,
        _ => false,
    };
    if strict_file {
        let stored = crate::bytes::copy_range(pack, plen - ID_LEN, plen);
        let stored_id = ObjectId::from_bytes(stored);
        assert(stored_id.bytes@ == trailer_of(pack@));
        let body = crate::bytes::copy_range(pack, 0, plen - ID_LEN);
        assert(body@ =~= body_of(pack@));
        let actual = ObjectId::from_bytes(sha1_digest(body.as_slice()));
        if !actual.eq(&stored_id) {
            return Err(ExplodeError::Checksum { expected: stored_id, actual });
        }
    }
    let tolerant = match check {
        SafetyCheck::SkipFileAndObjectChecksum => true,
        SafetyCheck::SkipFileAndObjectChecksumAndNoAbortOnDecode => true,
        _ => false,
    };
    let (resolved, skipped) = match walk_entries(pack, count, tolerant) {
        Ok(vs) => vs,
        Err(e) => {
            return Err(ExplodeError::Walk(e));
        }
    };
    let ghost w = resolved_view(resolved@);
    let mut writes: Vec<LooseWrite> = Vec::new();
    let mut i: usize = 0;
    let total: usize = resolved.len();
    while i < total
        invariant
            i <= total,
            total == resolved@.len(),
            w == resolved_view(resolved@),
            w.len() == total,
            forall|j: int| 0 <= j < resolved@.len() ==> wf_resolved(#[trigger] resolved@[j]),
            compress ==> forall|j: int|
                0 <= j < writes@.len() ==> wf_write(#[trigger] writes@[j]),
            writes_match(w.take(i as int), writes@, compress),
        decreases total - i,
    {
        let e = &resolved[i];
        assert(wf_resolved(resolved@[i as int]));
        let dl: usize = e.data.len();
        assert(dl as u64 <= u64::MAX);
        let bytes = if compress {
            loose_encode(e.kind, e.data.as_slice())
        } else {
            Vec::new()
        };
        let id = e.id.duplicate();
        assert(id.wf());
        let (dir, name) = loose_path(&id);
        let item = LooseWrite { dir, name, bytes, id };
        let ghost gitem = item;
        proof {
            if compress {
                assert(wf_write(gitem));
            }
        }
        let ghost prev = writes@;
        writes.push(item);
        proof {
            assert(writes@ == prev.push(gitem));
            assert(w.take(i + 1).drop_last() =~= w.take(i as int));
            assert(w[i as int] == spec_of(resolved@[i as int]));
            assert forall|j: int| 0 <= j < i + 1 implies {
                let r = w.take(i + 1)[j];
                let wr = #[trigger] writes@[j];
                &&& wr.id.bytes@ == object_id_of(r.kind, r.data)
                &&& wr.id.wf()
                &&& wr.dir@ == hex_of(wr.id.bytes@).take(2)
                &&& wr.name@ == hex_of(wr.id.bytes@).skip(2)
                &&& (compress ==> wr.bytes@ == deflate_of(
                    crate::header::header_bytes(r.kind, r.data.len()) + r.data,
                ))
                &&& (!compress ==> wr.bytes@ == Seq::<u8>::empty())
            } by {
                if j < i {
                    assert(writes@[j] == prev[j]);
                    assert(w.take(i + 1)[j] == w.take(i as int)[j]);
                } else {
                    assert(writes@[j] == gitem);
                    assert(w.take(i + 1)[j] == w[i as int]);
                }
            }
            if compress {
                assert forall|j: int| 0 <= j < writes@.len() implies wf_write(
                    #[trigger] writes@[j],
                ) by {
                    if j < prev.len() {
                        assert(writes@[j] == prev[j]);
                    }
                }
            }
        }
        i = i + 1;
    }
    proof {
        assert(w.take(total as int) =~= w);
        let ghost k = total as nat;
        let n = parse_pack_header(pack@).unwrap().1 as nat;
        assert(walk_spec(pack@, 12, k, Seq::empty()) matches Some((s, _)) && writes_match(
            s,
            writes@,
            compress,
        ));
    }
    Ok(ExplodeOutcome { writes, skipped })
}

/// Read a freshly written loose file back and hold it to the identifier
/// it was addressed by: the read-back step of a verifying explosion.
/// For bytes produced by this library's loose encoding this always
/// succeeds.
pub fn verify_written(file: &[u8], id: &ObjectId) -> (r: bool)
    ensures
        r == (match parse_loose(file@) {
            Some((k, c)) => id.bytes@ == object_id_of(k, c),
            None => false,
        }),
{
    let (kind, content) = match crate::loose::loose_decode(file) {
        Ok(kc) => kc,
        Err(_) => {
            return false;
        }
    };
    let cl: usize = content.len();
    assert(cl as u64 <= u64::MAX);
    let obj = crate::object::Object { kind, data: content.as_slice() };
    match obj.verify_checksum(id) {
        Ok(()) => true,
        Err(_) => false,
    }
}

} // verus!
