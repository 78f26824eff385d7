//! The pack index builder: walk a pack's entries, resolve delta chains,
//! assign each entry its identifier, and produce a sorted index.

use vstd::prelude::*;

use vstd::multiset::Multiset;

use crate::delta::DeltaError;
use crate::hashing::{compute_object_id, object_id_of, sha1_digest, sha1_of};
use crate::id::{bytes_le, ObjectId, ID_LEN};
use crate::kind::Kind;
use crate::pack::{parse_pack_header, read_pack_header, EntryKind, PackError, RawEntry};

verus! {

/// How the pack's trailing checksum is treated while building an index.
#[derive(Clone, Copy, Debug, PartialEq, Eq, Structural)]
pub enum IterationMode {
    /// Trust the stored trailing checksum without recomputation.
    AsIs,
    /// Recompute and compare; fail on mismatch.
    Verify,
    /// Recompute; skip entries that fail, and finish with the locally
    /// computed checksum in place of the stored one.
    Restore,
}

/// One entry of a pack, resolved to full content.
#[derive(Debug)]
pub struct Resolved {
    /// Offset of the entry in the pack.
    pub offset: u64,
    /// Kind of the resolved object.
    pub kind: Kind,
    /// Full, delta-resolved content.
    pub data: Vec<u8>,
    /// Identifier: the digest of the framed content.
    pub id: ObjectId,
    /// One past the entry's last byte in the pack.
    pub end: u64,
    /// CRC32 of the entry's bytes as they stand in the pack.
    pub crc: u32,
}

/// A resolved entry carries the identifier of its own content.
pub open spec fn wf_resolved(r: Resolved) -> bool {
    r.id.bytes@ == object_id_of(r.kind, r.data@) && r.id.wf()
}

/// The mathematical shape of a resolved entry: its offset, kind,
/// delta-resolved content, and end position in the pack.
pub struct SpecResolved {
    pub offset: int,
    pub kind: Kind,
    pub data: Seq<u8>,
    pub end: int,
}

/// The mathematical shape of one resolved entry.
pub open spec fn spec_of(r: Resolved) -> SpecResolved {
    SpecResolved { offset: r.offset as int, kind: r.kind, data: r.data@, end: r.end as int }
}

/// The mathematical shapes of a run of resolved entries.
pub open spec fn resolved_view(v: Seq<Resolved>) -> Seq<SpecResolved> {
    v.map(|j: int, r: Resolved| spec_of(r))
}

/// Resolving one more entry appends its shape.
pub proof fn lemma_resolved_view_push(v: Seq<Resolved>, r: Resolved)
    ensures
        resolved_view(v.push(r)) == resolved_view(v).push(spec_of(r)),
{
    assert(resolved_view(v.push(r)) =~= resolved_view(v).push(spec_of(r)));
}

/// The first resolved entry standing at pack offset `off`, if any.
pub open spec fn first_at_offset(seen: Seq<SpecResolved>, off: int) -> Option<int>
    decreases seen.len(),
{
    if seen.len() == 0 {
        None
    } else if seen[0].offset == off {
        Some(0)
    } else {
        match first_at_offset(seen.drop_first(), off) {
            None => None,
            Some(j) => Some(j + 1),
        }
    }
}

/// The first resolved entry whose content has the identifier `idb`.
pub open spec fn first_with_id(seen: Seq<SpecResolved>, idb: Seq<u8>) -> Option<int>
    decreases seen.len(),
{
    if seen.len() == 0 {
        None
    } else if object_id_of(seen[0].kind, seen[0].data) == idb {
        Some(0)
    } else {
        match first_with_id(seen.drop_first(), idb) {
            None => None,
            Some(j) => Some(j + 1),
        }
    }
}

pub proof fn lemma_first_at_offset_some(seen: Seq<SpecResolved>, off: int, j: int)
    requires
        0 <= j < seen.len(),
        seen[j].offset == off,
        forall|q: int| 0 <= q < j ==> (#[trigger] seen[q]).offset != off,
    ensures
        first_at_offset(seen, off) == Some(j),
    decreases j,
{
    if j > 0 {
        assert forall|q: int| 0 <= q < j - 1 implies (#[trigger] seen.drop_first()[q]).offset
            != off by {
            assert(seen.drop_first()[q] == seen[q + 1]);
        }
        assert(seen.drop_first()[j - 1] == seen[j]);
        lemma_first_at_offset_some(seen.drop_first(), off, j - 1);
    }
}

pub proof fn lemma_first_at_offset_none(seen: Seq<SpecResolved>, off: int)
    requires
        forall|q: int| 0 <= q < seen.len() ==> (#[trigger] seen[q]).offset != off,
    ensures
        first_at_offset(seen, off) is None,
    decreases seen.len(),
{
    if seen.len() > 0 {
        assert forall|q: int| 0 <= q < seen.drop_first().len() implies (#[trigger] seen.drop_first()[q]).offset != off by {
            assert(seen.drop_first()[q] == seen[q + 1]);
        }
        lemma_first_at_offset_none(seen.drop_first(), off);
    }
}

pub proof fn lemma_first_with_id_some(seen: Seq<SpecResolved>, idb: Seq<u8>, j: int)
    requires
        0 <= j < seen.len(),
        object_id_of(seen[j].kind, seen[j].data) == idb,
        forall|q: int|
            0 <= q < j ==> object_id_of((#[trigger] seen[q]).kind, seen[q].data) != idb,
    ensures
        first_with_id(seen, idb) == Some(j),
    decreases j,
{
    if j > 0 {
        assert forall|q: int| 0 <= q < j - 1 implies object_id_of(
            (#[trigger] seen.drop_first()[q]).kind,
            seen.drop_first()[q].data,
        ) != idb by {
            assert(seen.drop_first()[q] == seen[q + 1]);
        }
        assert(seen.drop_first()[j - 1] == seen[j]);
        lemma_first_with_id_some(seen.drop_first(), idb, j - 1);
    }
}

pub proof fn lemma_first_with_id_none(seen: Seq<SpecResolved>, idb: Seq<u8>)
    requires
        forall|q: int|
            0 <= q < seen.len() ==> object_id_of((#[trigger] seen[q]).kind, seen[q].data) != idb,
    ensures
        first_with_id(seen, idb) is None,
    decreases seen.len(),
{
    if seen.len() > 0 {
        assert forall|q: int| 0 <= q < seen.drop_first().len() implies object_id_of(
            (#[trigger] seen.drop_first()[q]).kind,
            seen.drop_first()[q].data,
        ) != idb by {
            assert(seen.drop_first()[q] == seen[q + 1]);
        }
        lemma_first_with_id_none(seen.drop_first(), idb);
    }
}

/// Resolve an entry's payload against the entries already resolved: a
/// whole object is its own content; a delta is applied to its base,
/// the first earlier entry at the referenced offset or with the
/// referenced identifier.
pub open spec fn resolve_kd(
    seen: Seq<SpecResolved>,
    er: crate::pack::EntryRefSpec,
    at: int,
    data: Seq<u8>,
) -> Option<(Kind, Seq<u8>)> {
    match er {
        crate::pack::EntryRefSpec::Base(k) => Some((k, data)),
        crate::pack::EntryRefSpec::Ofs(d) => if d > at || crate::delta::delta_oversize(data) {
            None
        } else {
            match first_at_offset(seen, at - d) {
                None => None,
                Some(j) => match crate::delta::apply_delta(seen[j].data, data) {
                    None => None,
                    Some(out) => Some((seen[j].kind, out)),
                },
            }
        },
        crate::pack::EntryRefSpec::Ref(idb) => if crate::delta::delta_oversize(data) {
            None
        } else {
            match first_with_id(seen, idb) {
                None => None,
                Some(j) => match crate::delta::apply_delta(seen[j].data, data) {
                    None => None,
                    Some(out) => Some((seen[j].kind, out)),
                },
            }
        },
    }
}

/// The fully resolved shape of the entry at `i`, given the entries
/// already resolved.
pub open spec fn resolve_entry(pack: Seq<u8>, seen: Seq<SpecResolved>, i: int) -> Option<
    SpecResolved,
> {
    if crate::pack::entry_oversize(pack, i) {
        None
    } else {
        resolve_entry_inner(pack, seen, i)
    }
}

/// The resolved shape of the entry at `i`, sizes already known to fit.
pub open spec fn resolve_entry_inner(pack: Seq<u8>, seen: Seq<SpecResolved>, i: int) -> Option<
    SpecResolved,
> {
    match crate::pack::parse_entry(pack, i) {
        None => None,
        Some((er, size, data, end)) => match resolve_kd(seen, er, i, data) {
            None => None,
            Some((k, out)) => Some(SpecResolved { offset: i, kind: k, data: out, end }),
        },
    }
}

/// Walk `n` entries from position `i`: the resolved entries seen so
/// far, extended entry by entry, and the final position. An entry must
/// start before the trailing checksum.
pub open spec fn walk_spec(pack: Seq<u8>, i: int, n: nat, seen: Seq<SpecResolved>) -> Option<
    (Seq<SpecResolved>, int),
>
    decreases n,
{
    if n == 0 {
        Some((seen, i))
    } else if i >= pack.len() - 20 {
        None
    } else {
        match resolve_entry(pack, seen, i) {
            None => None,
            Some(r) => walk_spec(pack, r.end, (n - 1) as nat, seen.push(r)),
        }
    }
}

/// Walking `n1 + n2` entries is walking `n1`, then `n2` more from where
/// that left off.
pub proof fn lemma_walk_split(pack: Seq<u8>, i: int, n1: nat, n2: nat, seen: Seq<SpecResolved>)
    ensures
        walk_spec(pack, i, (n1 + n2) as nat, seen) == (match walk_spec(pack, i, n1, seen) {
            None => None::<(Seq<SpecResolved>, int)>,
            Some((s, p)) => walk_spec(pack, p, n2, s),
        }),
    decreases n1,
{
    if n1 > 0 {
        if i < pack.len() - 20 && resolve_entry(pack, seen, i) is Some {
            let r = resolve_entry(pack, seen, i).unwrap();
            lemma_walk_split(pack, r.end, (n1 - 1) as nat, n2, seen.push(r));
        }
    }
}

/// A longer walk succeeding means every shorter walk succeeds.
pub proof fn lemma_walk_prefix(pack: Seq<u8>, k1: nat, k2: nat)
    requires
        k1 <= k2,
        walk_spec(pack, 12, k2, Seq::empty()) is Some,
    ensures
        walk_spec(pack, 12, k1, Seq::empty()) is Some,
{
    lemma_walk_split(pack, 12, k1, (k2 - k1) as nat, Seq::empty());
}

/// The index line an entry contributes: its content's identifier, its
/// offset, and the CRC32 of its byte span.
pub open spec fn line_of(pack: Seq<u8>, r: SpecResolved) -> (Seq<u8>, int, u32) {
    (
        object_id_of(r.kind, r.data),
        r.offset,
        crate::hashing::crc32_of(pack.subrange(r.offset, r.end)),
    )
}

/// The index lines of a run of resolved entries.
pub open spec fn lines_of(pack: Seq<u8>, s: Seq<SpecResolved>) -> Seq<(Seq<u8>, int, u32)> {
    s.map(|j: int, r: SpecResolved| line_of(pack, r))
}

/// The mathematical shape of written index entries.
pub open spec fn lines_view(es: Seq<IndexEntry>) -> Seq<(Seq<u8>, int, u32)> {
    es.map(|j: int, e: IndexEntry| (e.id.bytes@, e.offset as int, e.crc))
}

/// Why walking a pack's entries failed.
#[derive(Clone, Copy, Debug, PartialEq, Eq, Structural)]
pub enum WalkError {
    /// Reading the entry failed.
    Entry(PackError),
    /// Applying a delta failed.
    Delta(DeltaError),
    /// A delta's base lies at no earlier entry of the pack and is not
    /// otherwise known. Chains resolve against earlier entries only, so
    /// a cycle of base references cannot arise.
    UnresolvedBase { offset: usize },
    /// The pack ends before its declared entry count.
    Truncated { offset: usize },
}

/// The entries resolved from a pack form the sequential chain of its
/// stream: the first starts right after the fixed header, each next one
/// starts where the previous ended, and each carries its own content's
/// identifier and the CRC32 of its byte span.
pub open spec fn resolved_chain(pack: Seq<u8>, v: Seq<Resolved>) -> bool {
    &&& forall|j: int|
        0 <= j < v.len() ==> wf_resolved(#[trigger] v[j]) && v[j].offset < v[j].end <= pack.len()
            && v[j].crc == crate::hashing::crc32_of(
            pack.subrange(v[j].offset as int, v[j].end as int),
        )
    &&& (v.len() > 0 ==> v[0].offset == 12)
    &&& forall|j: int| 0 <= j && j + 1 < v.len() ==> (#[trigger] v[j + 1]).offset == v[j].end
}

/// Walk `count` entries from the fixed header on, resolving each delta
/// against the already-resolved entries. With `tolerant`, a failing
/// entry ends the walk (the stream cannot be re-synchronized past it)
/// and the entries already resolved are kept; the rest count as skipped.
#[verifier::rlimit(100)]
pub fn walk_entries(pack: &[u8], count: u32, tolerant: bool) -> (r: Result<
    (Vec<Resolved>, u32),
    WalkError,
>)
    requires
        pack@.len() >= 32,
    ensures
        match r {
            Ok((v, skipped)) => {
                &&& resolved_chain(pack@, v@)
                &&& walk_spec(pack@, 12, v@.len() as nat, Seq::empty()) matches Some((s, _))
                    && s == resolved_view(v@)
                &&& v@.len() <= count && skipped == count - v@.len()
                &&& (!tolerant ==> skipped == 0)
                &&& (v@.len() < count ==> tolerant && walk_spec(
                    pack@,
                    12,
                    (v@.len() + 1) as nat,
                    Seq::empty(),
                ) is None)
            },
            Err(_) => !tolerant && walk_spec(pack@, 12, count as nat, Seq::empty()) is None,
        },
{
    let plen: usize = pack.len();
    let mut resolved: Vec<Resolved> = Vec::new();
    let mut pos: usize = 12;
    let mut k: u32 = 0;
    while k < count
        invariant
            0 <= k <= count,
            12 <= pos <= plen,
            plen == pack@.len(),
            plen >= 32,
            resolved@.len() == k,
            resolved_chain(pack@, resolved@),
            resolved@.len() > 0 ==> resolved@[resolved@.len() - 1].end == pos,
            resolved@.len() == 0 ==> pos == 12,
            walk_spec(pack@, 12, k as nat, Seq::empty()) == Some(
                (resolved_view(resolved@), pos as int),
            ),
        decreases count - k,
    {
        if pos >= plen - 20 {
            proof {
                lemma_walk_fail(pack@, pos as int, k as nat, count as nat, resolved_view(resolved@));
            }
            if tolerant {
                return Ok((resolved, count - k));
            }
            return Err(WalkError::Truncated { offset: pos });
        }
        let entry = match crate::pack::next_entry(pack, pos) {
            Ok(e) => e,
            Err(e) => {
                proof {
                    assert(resolve_entry(pack@, resolved_view(resolved@), pos as int) is None);
                    lemma_walk_fail(
                        pack@,
                        pos as int,
                        k as nat,
                        count as nat,
                        resolved_view(resolved@),
                    );
                }
                if tolerant {
                    return Ok((resolved, count - k));
                }
                return Err(WalkError::Entry(e));
            }
        };
        let outcome = resolve_one(&entry, &resolved);
        let (kind, data) = match outcome {
            Ok(kd) => kd,
            Err(e) => {
                proof {
                    assert(resolve_entry(pack@, resolved_view(resolved@), pos as int) is None);
                    lemma_walk_fail(
                        pack@,
                        pos as int,
                        k as nat,
                        count as nat,
                        resolved_view(resolved@),
                    );
                }
                if tolerant {
                    return Ok((resolved, count - k));
                }
                return Err(e);
            }
        };
        let dl: usize = data.len();
        assert(dl as u64 <= u64::MAX);
        let id = compute_object_id(kind, data.as_slice());
        let item = Resolved {
            offset: entry.start as u64,
            kind,
            data,
            id,
            end: entry.end as u64,
            crc: entry.crc,
        };
        assert(wf_resolved(item));
        let ghost prev = resolved@;
        resolved.push(item);
        proof {
            assert forall|j: int|
                0 <= j < resolved@.len() implies wf_resolved(#[trigger] resolved@[j])
                    && resolved@[j].offset < resolved@[j].end <= pack@.len() && resolved@[j].crc
                    == crate::hashing::crc32_of(
                    pack@.subrange(resolved@[j].offset as int, resolved@[j].end as int),
                ) by {
                if j < prev.len() {
                    assert(resolved@[j] == prev[j]);
                }
            }
            assert forall|j: int|
                0 <= j && j + 1 < resolved@.len() implies (#[trigger] resolved@[j + 1]).offset
                    == resolved@[j].end by {
                assert(resolved@[j] == prev[j]);
                if j + 1 < prev.len() {
                    assert(resolved@[j + 1] == prev[j + 1]);
                }
            }
            if prev.len() > 0 {
                assert(resolved@[0] == prev[0]);
            }
            let ghost sr = spec_of(item);
            lemma_resolved_view_push(prev, item);
            assert(!crate::pack::entry_oversize(pack@, pos as int));
            assert(resolve_entry(pack@, resolved_view(prev), pos as int) == Some(sr));
            lemma_walk_split(pack@, 12, k as nat, 1, Seq::empty());
            assert(pos < pack@.len() - 20);
            assert(walk_spec(pack@, sr.end, 0, resolved_view(prev).push(sr)) == Some(
                (resolved_view(prev).push(sr), sr.end),
            ));
            assert(walk_spec(pack@, pos as int, 1, resolved_view(prev)) == Some(
                (resolved_view(prev).push(sr), sr.end),
            ));
        }
        pos = entry.end;
        k = k + 1;
    }
    assert(resolved@.len() == count);
    Ok((resolved, 0))
}

/// A walk stuck at `pos` after `k` entries fails for every larger count.
proof fn lemma_walk_fail(pack: Seq<u8>, pos: int, k: nat, count: nat, seen: Seq<SpecResolved>)
    requires
        k < count,
        walk_spec(pack, 12, k, Seq::empty()) == Some((seen, pos)),
        pos >= pack.len() - 20 || resolve_entry(pack, seen, pos) is None,
    ensures
        walk_spec(pack, 12, (k + 1) as nat, Seq::empty()) is None,
        walk_spec(pack, 12, count, Seq::empty()) is None,
{
    lemma_walk_split(pack, 12, k, 1, Seq::empty());
    lemma_walk_split(pack, 12, k, (count - k) as nat, Seq::empty());
    assert(walk_spec(pack, pos, 1, seen) is None);
    assert(walk_spec(pack, pos, (count - k) as nat, seen) is None);
}

/// Resolve one raw entry: a whole object is its own content; a delta is
/// applied to its base, the first already-resolved entry at the
/// referenced offset or with the referenced identifier. The result is
/// exactly what the mathematical resolution of the entry says.
fn resolve_one(entry: &RawEntry, resolved: &Vec<Resolved>) -> (r: Result<(Kind, Vec<u8>), WalkError>)
    requires
        forall|j: int| 0 <= j < resolved@.len() ==> wf_resolved(#[trigger] resolved@[j]),
    ensures
        ({
            let rr = resolve_kd(
                resolved_view(resolved@),
                crate::pack::entry_kind_view(entry.kind),
                entry.start as int,
                entry.data@,
            );
            match r {
                Ok((k, d)) => rr == Some((k, d@)),
                Err(_) => rr is None,
            }
        }),
{
    let ghost seen = resolved_view(resolved@);
    match &entry.kind {
        EntryKind::Base(bk) => {
            let d = crate::bytes::copy_range(entry.data.as_slice(), 0, entry.data.len());
            assert(entry.data@.subrange(0, entry.data@.len() as int) =~= entry.data@);
            Ok((*bk, d))
        }
        EntryKind::OfsDelta(dist) => {
            if *dist > entry.start as u64 {
                return Err(WalkError::UnresolvedBase { offset: entry.start });
            }
            let base_off = entry.start as u64 - *dist;
            match find_by_offset(resolved, base_off) {
                Some(j) => {
                    proof {
                        lemma_first_at_offset_some(seen, base_off as int, j as int);
                    }
                    apply_to_base(entry, resolved, j)
                }
                None => {
                    proof {
                        lemma_first_at_offset_none(seen, base_off as int);
                    }
                    Err(WalkError::UnresolvedBase { offset: entry.start })
                }
            }
        }
        EntryKind::RefDelta(base_id) => {
            match find_by_id(resolved, base_id) {
                Some(j) => {
                    proof {
                        lemma_first_with_id_some(seen, base_id.bytes@, j as int);
                    }
                    apply_to_base(entry, resolved, j)
                }
                None => {
                    proof {
                        lemma_first_with_id_none(seen, base_id.bytes@);
                    }
                    Err(WalkError::UnresolvedBase { offset: entry.start })
                }
            }
        }
    }
}

/// The position of the first resolved entry at pack offset `off`.
fn find_by_offset(resolved: &Vec<Resolved>, off: u64) -> (r: Option<usize>)
    ensures
        match r {
            Some(j) => j < resolved@.len() && resolved@[j as int].offset == off && forall|q: int|
                0 <= q < j ==> (#[trigger] resolved@[q]).offset != off,
            None => forall|q: int|
                0 <= q < resolved@.len() ==> (#[trigger] resolved@[q]).offset != off,
        },
{
    let mut j: usize = 0;
    while j < resolved.len()
        invariant
            j <= resolved@.len(),
            forall|q: int| 0 <= q < j ==> (#[trigger] resolved@[q]).offset != off,
        decreases resolved@.len() - j,
    {
        if resolved[j].offset == off {
            return Some(j);
        }
        j = j + 1;
    }
    None
}

/// The position of the first resolved entry with identifier `id`.
fn find_by_id(resolved: &Vec<Resolved>, id: &ObjectId) -> (r: Option<usize>)
    ensures
        match r {
            Some(j) => j < resolved@.len() && resolved@[j as int].id.bytes@ == id.bytes@
                && forall|q: int|
                0 <= q < j ==> (#[trigger] resolved@[q]).id.bytes@ != id.bytes@,
            None => forall|q: int|
                0 <= q < resolved@.len() ==> (#[trigger] resolved@[q]).id.bytes@ != id.bytes@,
        },
{
    let mut j: usize = 0;
    while j < resolved.len()
        invariant
            j <= resolved@.len(),
            forall|q: int| 0 <= q < j ==> (#[trigger] resolved@[q]).id.bytes@ != id.bytes@,
        decreases resolved@.len() - j,
    {
        if resolved[j].id.eq(id) {
            return Some(j);
        }
        j = j + 1;
    }
    None
}

/// Apply a delta entry to the resolved base at `j`.
fn apply_to_base(entry: &RawEntry, resolved: &Vec<Resolved>, j: usize) -> (r: Result<
    (Kind, Vec<u8>),
    WalkError,
>)
    requires
        j < resolved@.len(),
    ensures
        match r {
            Ok((k, d)) => k == resolved@[j as int].kind && crate::delta::apply_delta(
                resolved@[j as int].data@,
                entry.data@,
            ) == Some(d@) && !crate::delta::delta_oversize(entry.data@),
            Err(_) => crate::delta::delta_oversize(entry.data@) || crate::delta::apply_delta(
                resolved@[j as int].data@,
                entry.data@,
            ) is None,
        },
{
    match crate::delta::apply(resolved[j].data.as_slice(), entry.data.as_slice()) {
        Ok(content) => Ok((resolved[j].kind, content)),
        Err(e) => Err(WalkError::Delta(e)),
    }
}

/// One line of a pack index: an identifier, the entry's offset, and the
/// CRC32 of its pack bytes.
#[derive(Debug)]
pub struct IndexEntry {
    pub id: ObjectId,
    pub offset: u64,
    pub crc: u32,
}

/// A pack index: entries sorted by identifier, and the pack's trailing
/// checksum (stored or recomputed, by mode).
#[derive(Debug)]
pub struct PackIndex {
    pub entries: Vec<IndexEntry>,
    pub pack_checksum: ObjectId,
}

/// Entries are sorted by identifier.
pub open spec fn sorted_by_id(es: Seq<IndexEntry>) -> bool {
    forall|j: int|
        0 <= j && j + 1 < es.len() ==> bytes_le(
            (#[trigger] es[j]).id.bytes@,
            es[j + 1].id.bytes@,
        )
}

/// Why building an index failed.
#[derive(Debug)]
pub enum IndexError {
    /// The fixed pack header is malformed or the pack is too short.
    Header,
    /// Under `Verify`, the recomputed checksum differs from the stored
    /// trailer; both are carried.
    Checksum { expected: ObjectId, actual: ObjectId },
    /// Walking the entries failed.
    Walk(WalkError),
}

/// The stored trailing checksum of a pack.
pub open spec fn trailer_of(s: Seq<u8>) -> Seq<u8> {
    s.subrange(s.len() - ID_LEN, s.len() as int)
}

/// The bytes the trailing checksum is computed over: everything before
/// the trailer.
pub open spec fn body_of(s: Seq<u8>) -> Seq<u8> {
    s.take(s.len() - ID_LEN)
}

/// Lexicographic order on byte strings is total.
pub proof fn lemma_bytes_le_total(a: Seq<u8>, b: Seq<u8>)
    ensures
        bytes_le(a, b) || bytes_le(b, a),
    decreases a.len(),
{
    if a.len() > 0 && b.len() > 0 && a[0] == b[0] {
        lemma_bytes_le_total(a.drop_first(), b.drop_first());
    }
}

/// Insert the entries one by one at their place in identifier order.
fn sort_by_id(mut v: Vec<IndexEntry>) -> (r: Vec<IndexEntry>)
    requires
        forall|j: int| 0 <= j < v@.len() ==> (#[trigger] v@[j]).id.wf(),
    ensures
        sorted_by_id(r@),
        r@.len() == v@.len(),
        lines_view(r@).to_multiset() == lines_view(v@).to_multiset(),
{
    let ghost orig = v@;
    let mut out: Vec<IndexEntry> = Vec::new();
    let total: usize = v.len();
    let mut taken: usize = 0;
    proof {
        broadcast use vstd::seq_lib::group_to_multiset_ensures;

        assert(lines_view(out@) =~= Seq::<(Seq<u8>, int, u32)>::empty());
        assert(lines_view(out@).to_multiset() =~= Multiset::<(Seq<u8>, int, u32)>::empty());
        assert(lines_view(out@).to_multiset().add(lines_view(v@).to_multiset())
            =~= lines_view(orig).to_multiset());
    }
    while taken < total
        invariant
            taken <= total,
            v@.len() == total - taken,
            out@.len() == taken,
            sorted_by_id(out@),
            lines_view(out@).to_multiset().add(lines_view(v@).to_multiset()) == lines_view(
                orig,
            ).to_multiset(),
            forall|j: int| 0 <= j < v@.len() ==> (#[trigger] v@[j]).id.wf(),
            forall|j: int| 0 <= j < out@.len() ==> (#[trigger] out@[j]).id.wf(),
        decreases total - taken,
    {
        let ghost old_v = v@;
        let item = v.remove(0);
        proof {
            broadcast use vstd::seq_lib::group_to_multiset_ensures;

            assert(item.id.wf());
            assert forall|j: int| 0 <= j < v@.len() implies (#[trigger] v@[j]).id.wf() by {
                assert(v@[j] == old_v[j + 1]);
            }
            assert(lines_view(v@) =~= lines_view(old_v).remove(0));
            assert(lines_view(old_v)[0] == (item.id.bytes@, item.offset as int, item.crc));
            assert(lines_view(v@).to_multiset() =~= lines_view(old_v).to_multiset().remove(
                (item.id.bytes@, item.offset as int, item.crc),
            ));
        }
        let mut at: usize = 0;
        while at < out.len() && out[at].id.le(&item.id)
            invariant
                at <= out@.len(),
                item.id.wf(),
                sorted_by_id(out@),
                forall|j: int| 0 <= j < out@.len() ==> (#[trigger] out@[j]).id.wf(),
                forall|j: int| 0 <= j < at ==> bytes_le(
                    (#[trigger] out@[j]).id.bytes@,
                    item.id.bytes@,
                ),
            decreases out@.len() - at,
        {
            at = at + 1;
        }
        proof {
            if at < out@.len() {
                lemma_bytes_le_total(out@[at as int].id.bytes@, item.id.bytes@);
            }
        }
        let ghost before = out@;
        let ghost line = (item.id.bytes@, item.offset as int, item.crc);
        out.insert(at, item);
        proof {
            broadcast use vstd::seq_lib::group_to_multiset_ensures;

            assert(lines_view(out@) =~= lines_view(before).insert(at as int, line));
            vstd::seq_lib::to_multiset_insert(lines_view(before), at as int, line);
            assert(lines_view(old_v).contains(line)) by {
                assert(lines_view(old_v)[0] == line);
            }
            assert(lines_view(out@).to_multiset().add(lines_view(v@).to_multiset())
                =~= lines_view(orig).to_multiset());
            assert forall|j: int| 0 <= j < out@.len() implies (#[trigger] out@[j]).id.wf() by {
                if j < at {
                    assert(out@[j] == before[j]);
                } else if j > at {
                    assert(out@[j] == before[j - 1]);
                }
            }
            assert forall|j: int| 0 <= j && j + 1 < out@.len() implies bytes_le(
                (#[trigger] out@[j]).id.bytes@,
                out@[j + 1].id.bytes@,
            ) by {
                if j + 1 < at {
                    assert(out@[j] == before[j] && out@[j + 1] == before[j + 1]);
                } else if j + 1 == at {
                    assert(out@[j] == before[j]);
                } else if j == at {
                    assert(out@[j + 1] == before[j]);
                } else {
                    assert(out@[j] == before[j - 1] && out@[j + 1] == before[j]);
                }
            }
        }
        taken = taken + 1;
    }
    proof {
        broadcast use vstd::seq_lib::group_to_multiset_ensures;

        assert(lines_view(v@) =~= Seq::<(Seq<u8>, int, u32)>::empty());
        assert(lines_view(v@).to_multiset() =~= Multiset::<(Seq<u8>, int, u32)>::empty());
        assert(lines_view(out@).to_multiset() =~= lines_view(orig).to_multiset());
    }
    out
}

/// Build an index from a whole pack under the chosen mode: resolve every
/// entry, assign identifiers, sort, and settle the trailing checksum.
/// Under `Verify` a corrupted trailer fails the operation and no index
/// is produced; under `Restore` the index carries the recomputed
/// checksum of the bytes actually read in place of the stored one.
/// What any index-building outcome says of the pack: a relation between
/// the result, the pack bytes and the mode alone.
pub open spec fn index_post(
    pack: Seq<u8>,
    mode: IterationMode,
    r: Result<PackIndex, IndexError>,
) -> bool {
    match r {
        Ok(ix) => {
            &&& parse_pack_header(pack) is Some
            &&& sorted_by_id(ix.entries@)
            &&& (mode == IterationMode::AsIs ==> ix.pack_checksum.bytes@ == trailer_of(pack))
            &&& (mode == IterationMode::Verify ==> ix.pack_checksum.bytes@ == trailer_of(pack)
                && sha1_of(body_of(pack)) == trailer_of(pack))
            &&& (mode == IterationMode::Restore ==> ix.pack_checksum.bytes@ == sha1_of(
                body_of(pack),
            ))
            &&& exists|k: nat|
                {
                    let n = parse_pack_header(pack).unwrap().1 as nat;
                    &&& k <= n
                    &&& #[trigger] walk_spec(pack, 12, k, Seq::empty()) matches Some((s, _))
                        && lines_view(ix.entries@).to_multiset() == lines_of(
                        pack,
                        s,
                    ).to_multiset()
                    &&& (mode != IterationMode::Restore ==> k == n)
                    &&& (k < n ==> walk_spec(pack, 12, (k + 1) as nat, Seq::empty()) is None)
                }
        },
        Err(IndexError::Checksum { expected, actual }) => {
            &&& mode == IterationMode::Verify
            &&& expected.bytes@ == trailer_of(pack)
            &&& actual.bytes@ == sha1_of(body_of(pack))
            &&& sha1_of(body_of(pack)) != trailer_of(pack)
        },
        Err(IndexError::Header) => parse_pack_header(pack) is None,
        Err(IndexError::Walk(_)) => mode != IterationMode::Restore && (parse_pack_header(
            pack,
        ) matches Some((_, n)) && walk_spec(pack, 12, n as nat, Seq::empty()) is None),
    }
}

/// Under `Verify`, a pack whose entries are intact but whose stored
/// trailer differs from the recomputed checksum is always rejected with
/// exactly the checksum mismatch, carrying both identifiers; no index
/// comes out.
pub proof fn lemma_verify_rejects_corrupt_trailer(
    pack: Seq<u8>,
    r: Result<PackIndex, IndexError>,
)
    requires
        index_post(pack, IterationMode::Verify, r),
        parse_pack_header(pack) is Some,
        walk_spec(pack, 12, parse_pack_header(pack).unwrap().1 as nat, Seq::empty()) is Some,
        sha1_of(body_of(pack)) != trailer_of(pack),
    ensures
        r matches Err(IndexError::Checksum { expected, actual }) && expected.bytes@ == trailer_of(
            pack,
        ) && actual.bytes@ == sha1_of(body_of(pack)),
{
}

/// Under `Restore`, no trailing-checksum comparison gates success: on
/// any pack whose fixed header parses the operation succeeds, and the
/// index carries the locally recomputed checksum of the bytes before
/// the trailer in place of the stored one.
pub proof fn lemma_restore_always_succeeds(pack: Seq<u8>, r: Result<PackIndex, IndexError>)
    requires
        index_post(pack, IterationMode::Restore, r),
        parse_pack_header(pack) is Some,
    ensures
        r is Ok,
        r matches Ok(ix) ==> ix.pack_checksum.bytes@ == sha1_of(body_of(pack)),
{
}

pub fn build_index(pack: &[u8], mode: IterationMode) -> (r: Result<PackIndex, IndexError>)
    ensures
        index_post(pack@, mode, r),

{
    let plen: usize = pack.len();
    let (_version, count) = match read_pack_header(pack) {
        Some(vc) => vc,
        None => {
            return Err(IndexError::Header);
        }
    };
    let stored = crate::bytes::copy_range(pack, plen - ID_LEN, plen);
    let stored_id = ObjectId::from_bytes(stored);
    assert(stored_id.bytes@ == trailer_of(pack@));
    let checksum: ObjectId = match mode {
        IterationMode::AsIs => stored_id,
        IterationMode::Verify => {
            let body = crate::bytes::copy_range(pack, 0, plen - ID_LEN);
            assert(body@ =~= body_of(pack@));
            let actual = ObjectId::from_bytes(sha1_digest(body.as_slice()));
            if !actual.eq(&stored_id) {
                return Err(IndexError::Checksum { expected: stored_id, actual });
            }
            stored_id
        }
        IterationMode::Restore => {
            let body = crate::bytes::copy_range(pack, 0, plen - ID_LEN);
            assert(body@ =~= body_of(pack@));
            ObjectId::from_bytes(sha1_digest(body.as_slice()))
        }
    };
    let tolerant = match mode {
        IterationMode::Restore => true,
        _ => false,
    };
    let (resolved, _skipped) = match walk_entries(pack, count, tolerant) {
        Ok(vs) => vs,
        Err(e) => {
            return Err(IndexError::Walk(e));
        }
    };
    let ghost target = lines_of(pack@, resolved_view(resolved@));
    let mut lines: Vec<IndexEntry> = Vec::new();
    let mut i: usize = 0;
    proof {
        assert(lines_view(lines@) =~= target.take(0));
    }
    while i < resolved.len()
        invariant
            i <= resolved@.len(),
            target == lines_of(pack@, resolved_view(resolved@)),
            target.len() == resolved@.len(),
            resolved_chain(pack@, resolved@),
            forall|j: int| 0 <= j < lines@.len() ==> (#[trigger] lines@[j]).id.wf(),
            lines@.len() == i,
            lines_view(lines@) == target.take(i as int),
        decreases resolved@.len() - i,
    {
        let e = &resolved[i];
        assert(wf_resolved(resolved@[i as int]));
        assert(resolved@[i as int].crc == crate::hashing::crc32_of(
            pack@.subrange(
                resolved@[i as int].offset as int,
                resolved@[i as int].end as int,
            ),
        ));
        let nid = e.id.duplicate();
        let next = IndexEntry { id: nid, offset: e.offset, crc: e.crc };
        assert(next.id.bytes@ == resolved@[i as int].id.bytes@);
        let ghost gnext = next;
        let ghost prev_lines = lines@;
        lines.push(next);
        proof {
            assert(lines@ == prev_lines.push(gnext));
            assert(prev_lines.len() == i);
            assert(lines@[i as int] == gnext);
            assert(target[i as int] == line_of(pack@, spec_of(resolved@[i as int])));
            assert(lines_view(lines@)[i as int] == (
                gnext.id.bytes@,
                gnext.offset as int,
                gnext.crc,
            ));
            assert(lines_view(lines@) =~= target.take(i + 1));
        }
        i = i + 1;
    }
    assert(lines_view(lines@) =~= target);
    let entries = sort_by_id(lines);
    proof {
        let ghost k = resolved@.len() as nat;
        let n = parse_pack_header(pack@).unwrap().1 as nat;
        assert(walk_spec(pack@, 12, k, Seq::empty()) matches Some((s, _)) && lines_view(
            entries@,
        ).to_multiset() == lines_of(pack@, s).to_multiset());
    }
    Ok(PackIndex { entries, pack_checksum: checksum })
}

} // verus!
