//! The pack container format: fixed header, variable-length entry
//! headers, delta base references, and per-entry compressed payloads.

use vstd::prelude::*;

use crate::bytes::copy_range;
use crate::id::{ObjectId, ID_LEN};
use crate::kind::Kind;
use crate::zlib::{inflate_from, inflate_of};

verus! {

/// Big-endian 32-bit value at `i`.
pub open spec fn be32(s: Seq<u8>, i: int) -> nat {
    (s[i] * 0x1000000 + s[i + 1] * 0x10000 + s[i + 2] * 0x100 + s[i + 3]) as nat
}

/// Parse the fixed pack header: the magic bytes, a version of 2 or 3,
/// and the entry count. A pack holds at least its header and trailer.
pub open spec fn parse_pack_header(s: Seq<u8>) -> Option<(u32, u32)> {
    if s.len() < 32 {
        None
    } else if s.subrange(0, 4) != seq![80u8, 65u8, 67u8, 75u8] {
        None
    } else if be32(s, 4) != 2 && be32(s, 4) != 3 {
        None
    } else {
        Some((be32(s, 4) as u32, be32(s, 8) as u32))
    }
}

/// Read the fixed pack header.
pub fn read_pack_header(pack: &[u8]) -> (r: Option<(u32, u32)>)
    ensures
        r == parse_pack_header(pack@),
{
    if pack.len() < 32 {
        return None;
    }
    if pack[0] != 80 || pack[1] != 65 || pack[2] != 67 || pack[3] != 75 {
        assert(pack@.subrange(0, 4) != seq![80u8, 65u8, 67u8, 75u8]) by {
            if pack@.subrange(0, 4) == seq![80u8, 65u8, 67u8, 75u8] {
                assert(pack@.subrange(0, 4)[0] == 80);
                assert(pack@.subrange(0, 4)[1] == 65);
                assert(pack@.subrange(0, 4)[2] == 67);
                assert(pack@.subrange(0, 4)[3] == 75);
            }
        }
        return None;
    }
    assert(pack@.subrange(0, 4) =~= seq![80u8, 65u8, 67u8, 75u8]);
    let version = be32_at(pack, 4);
    let count = be32_at(pack, 8);
    if version != 2 && version != 3 {
        return None;
    }
    Some((version, count))
}

/// Big-endian 32-bit read.
pub fn be32_at(s: &[u8], i: usize) -> (r: u32)
    requires
        i + 4 <= s@.len(),
    ensures
        r == be32(s@, i as int),
{
    (s[i] as u32) * 0x1000000 + (s[i + 1] as u32) * 0x10000 + (s[i + 2] as u32) * 0x100 + (s[i
        + 3] as u32)
}

/// Continuation bytes of an entry-size varint: seven value bits per
/// byte, least significant first, until a byte without the top bit.
pub open spec fn parse_varint_tail(s: Seq<u8>, i: int, acc: nat, mul: nat) -> Option<(nat, int)>
    decreases s.len() - i,
{
    if !(0 <= i < s.len()) {
        None
    } else {
        let b = s[i];
        let acc2 = (acc + (b & 0x7f) * mul) as nat;
        if b < 128 {
            Some((acc2, i + 1))
        } else {
            parse_varint_tail(s, i + 1, acc2, (mul * 128) as nat)
        }
    }
}

/// The entry header at `i`: type code, declared size, next position.
pub open spec fn parse_entry_header(s: Seq<u8>, i: int) -> Option<(u8, nat, int)> {
    if !(0 <= i < s.len()) {
        None
    } else {
        let b = s[i];
        let t = (b >> 4) & 7;
        let low = (b & 15) as nat;
        if b < 128 {
            Some((t, low, i + 1))
        } else {
            match parse_varint_tail(s, i + 1, low, 16) {
                None => None,
                Some((size, p)) => Some((t, size, p)),
            }
        }
    }
}

/// The distance field of an offset-delta entry at `i`: seven value bits
/// per byte, most significant first, each continuation raising the
/// accumulated value by one before shifting.
pub open spec fn parse_ofs_tail(s: Seq<u8>, i: int, acc: nat) -> Option<(nat, int)>
    decreases s.len() - i,
{
    if !(0 <= i < s.len()) {
        None
    } else {
        let b = s[i];
        let acc2 = ((acc + 1) * 128 + (b & 0x7f)) as nat;
        if b < 128 {
            Some((acc2, i + 1))
        } else {
            parse_ofs_tail(s, i + 1, acc2)
        }
    }
}

/// The whole distance field of an offset-delta entry at `i`.
pub open spec fn parse_ofs(s: Seq<u8>, i: int) -> Option<(nat, int)> {
    if !(0 <= i < s.len()) {
        None
    } else {
        let b = s[i];
        if b < 128 {
            Some(((b & 0x7f) as nat, i + 1))
        } else {
            parse_ofs_tail(s, i + 1, (b & 0x7f) as nat)
        }
    }
}

/// What an entry is based on: nothing (a whole object of a kind), an
/// earlier entry a known distance back, or an object named by digest.
pub enum EntryRefSpec {
    Base(Kind),
    Ofs(nat),
    Ref(Seq<u8>),
}

/// The kind named by an entry type code, if it is a whole-object code.
pub open spec fn code_kind(t: u8) -> Option<Kind> {
    if t == 1 {
        Some(Kind::Commit)
    } else if t == 2 {
        Some(Kind::Tree)
    } else if t == 3 {
        Some(Kind::Blob)
    } else if t == 4 {
        Some(Kind::Tag)
    } else {
        None
    }
}

/// Parse one whole entry at `i`: its base reference, declared size,
/// inflated payload, and end position. The payload must inflate and
/// match the declared size; an offset delta must reach inside the pack.
pub open spec fn parse_entry(s: Seq<u8>, i: int) -> Option<(EntryRefSpec, nat, Seq<u8>, int)> {
    match parse_entry_header(s, i) {
        None => None,
        Some((t, size, p)) => {
            if code_kind(t) is Some {
                match inflate_of(s.skip(p)) {
                    None => None,
                    Some((d, used)) => if d.len() != size || p + used > s.len() {
                        None
                    } else {
                        Some((EntryRefSpec::Base(code_kind(t).unwrap()), size, d, p + used))
                    },
                }
            } else if t == 6 {
                match parse_ofs(s, p) {
                    None => None,
                    Some((off, q)) => {
                        if off == 0 || off > i {
                            None
                        } else {
                            match inflate_of(s.skip(q)) {
                                None => None,
                                Some((d, used)) => if d.len() != size || q + used > s.len() {
                                    None
                                } else {
                                    Some((EntryRefSpec::Ofs(off), size, d, q + used))
                                },
                            }
                        }
                    }
                }
            } else if t == 7 {
                if p + ID_LEN > s.len() {
                    None
                } else {
                    match inflate_of(s.skip(p + ID_LEN)) {
                        None => None,
                        Some((d, used)) => if d.len() != size || p + ID_LEN + used > s.len() {
                            None
                        } else {
                            Some(
                                (
                                    EntryRefSpec::Ref(s.subrange(p, p + ID_LEN)),
                                    size,
                                    d,
                                    p + ID_LEN + used,
                                ),
                            )
                        },
                    }
                }
            } else {
                None
            }
        }
    }
}

/// What an entry is based on, as executable data.
#[derive(Debug)]
pub enum EntryKind {
    /// A whole object of this kind.
    Base(Kind),
    /// A delta whose base lies this many bytes before the entry.
    OfsDelta(u64),
    /// A delta whose base is the object with this digest.
    RefDelta(ObjectId),
}

/// The mathematical shape of an entry's base reference.
pub open spec fn entry_kind_view(k: EntryKind) -> EntryRefSpec {
    match k {
        EntryKind::Base(kind) => EntryRefSpec::Base(kind),
        EntryKind::OfsDelta(d) => EntryRefSpec::Ofs(d as nat),
        EntryKind::RefDelta(id) => EntryRefSpec::Ref(id.bytes@),
    }
}

/// One entry read from a pack.
#[derive(Debug)]
pub struct RawEntry {
    /// What the entry is based on.
    pub kind: EntryKind,
    /// Declared size of the inflated payload.
    pub size: u64,
    /// The inflated payload: object content, or delta instructions.
    pub data: Vec<u8>,
    /// Byte span of the entry inside the pack.
    pub start: usize,
    /// One past the entry's last byte.
    pub end: usize,
    /// CRC32 of the entry's bytes as they stand in the pack.
    pub crc: u32,
}

/// Why reading an entry failed.
#[derive(Clone, Copy, Debug, PartialEq, Eq, Structural)]
pub enum PackError {
    /// The entry at `offset` runs past the end of the pack.
    Truncated { offset: usize },
    /// The type code of the entry at `offset` names no kind.
    BadKind { offset: usize },
    /// A declared size or base distance at `offset` does not fit the
    /// machine word.
    Oversize { offset: usize },
    /// The base distance at `offset` reaches before the pack's start.
    BadBase { offset: usize },
    /// The compressed payload at `offset` is not a well-formed stream.
    Compression { offset: usize },
    /// The inflated payload at `offset` differs from the declared size.
    SizeMismatch { offset: usize },
}

/// A declared size or base distance at `i` exceeds the machine word.
pub open spec fn entry_oversize(s: Seq<u8>, i: int) -> bool {
    match parse_entry_header(s, i) {
        None => false,
        Some((t, size, p)) => size > u64::MAX || (t == 6 && (match parse_ofs(s, p) {
            None => false,
            Some((off, _)) => off > u64::MAX,
        })),
    }
}

/// Read the size varint's continuation bytes at `at`.
fn read_varint_tail(pack: &[u8], at: usize, acc0: u64, mul0: u64) -> (r: Result<
    (u64, usize),
    PackError,
>)
    requires
        at <= pack@.len(),
        mul0 >= 1,
    ensures
        match r {
            Ok((v, e)) => parse_varint_tail(pack@, at as int, acc0 as nat, mul0 as nat) == Some(
                (v as nat, e as int),
            ) && at < e <= pack@.len(),
            Err(PackError::Oversize { .. }) => (match parse_varint_tail(
                pack@,
                at as int,
                acc0 as nat,
                mul0 as nat,
            ) {
                Some((v, _)) => v > u64::MAX,
                None => false,
            }),
            Err(_) => parse_varint_tail(pack@, at as int, acc0 as nat, mul0 as nat) is None,
        },
{
    let plen: usize = pack.len();
    let mut i: usize = at;
    let mut acc: u64 = acc0;
    let mut mul: u64 = mul0;
    let mut mul_ok: bool = true;
    let mut over: bool = false;
    let ghost mut sacc: nat = acc0 as nat;
    let ghost mut smul: nat = mul0 as nat;
    loop
        invariant
            at <= i <= plen,
            plen == pack@.len(),
            parse_varint_tail(pack@, at as int, acc0 as nat, mul0 as nat) == parse_varint_tail(
                pack@,
                i as int,
                sacc,
                smul,
            ),
            smul >= 1,
            !over ==> acc == sacc,
            over ==> sacc > u64::MAX,
            mul_ok ==> mul == smul,
            !mul_ok ==> smul > u64::MAX,
        decreases plen - i,
    {
        if i >= plen {
            return Err(PackError::Truncated { offset: i });
        }
        let b = pack[i];
        let low = b & 0x7f;
        proof {
            assert((b & 0x7f) < 128) by (bit_vector);
        }
        let ghost prev_sacc = sacc;
        let ghost prev_smul = smul;
        proof {
            sacc = (sacc + (low as nat) * smul) as nat;
            if low == 0 {
                assert((low as nat) * prev_smul == 0) by (nonlinear_arith)
                    requires
                        low == 0,
                ;
            }
        }
        if !over {
            if low != 0 {
                if mul_ok && (low as u64) <= (u64::MAX - acc) / mul {
                    proof {
                        assert(acc + (low as u64) * mul <= u64::MAX) by (nonlinear_arith)
                            requires
                                low as int <= (u64::MAX - acc) as int / (mul as int),
                                mul >= 1,
                                acc <= u64::MAX,
                        ;
                    }
                    acc = acc + (low as u64) * mul;
                } else {
                    proof {
                        if mul_ok {
                            assert(acc + (low as u64) * mul > u64::MAX) by (nonlinear_arith)
                                requires
                                    low as int > (u64::MAX - acc) as int / (mul as int),
                                    mul >= 1,
                                    acc <= u64::MAX,
                            ;
                        } else {
                            assert(prev_sacc + (low as nat) * smul > u64::MAX) by (nonlinear_arith)
                                requires
                                    smul > u64::MAX,
                                    low >= 1,
                                    prev_sacc >= 0,
                            ;
                        }
                    }
                    over = true;
                }
            }
        } else {
            proof {
                assert(prev_sacc + (low as nat) * smul >= prev_sacc) by (nonlinear_arith)
                    requires
                        low >= 0,
                        smul >= 0,
                ;
            }
        }
        if b < 128 {
            assert(parse_varint_tail(pack@, i as int, prev_sacc, prev_smul) == Some(
                (sacc, i + 1 as int),
            ));
            if over {
                return Err(PackError::Oversize { offset: i });
            }
            return Ok((acc, i + 1));
        }
        proof {
            smul = (smul * 128) as nat;
            assert(parse_varint_tail(pack@, i as int, prev_sacc, prev_smul) == parse_varint_tail(
                pack@,
                i + 1 as int,
                sacc,
                smul,
            ));
        }
        if mul_ok && mul <= u64::MAX / 128 {
            proof {
                assert(mul * 128 <= u64::MAX) by (nonlinear_arith)
                    requires
                        mul <= u64::MAX / 128,
                ;
            }
            mul = mul * 128;
        } else {
            proof {
                if mul_ok {
                    assert(mul * 128 > u64::MAX) by (nonlinear_arith)
                        requires
                            mul > u64::MAX / 128,
                    ;
                } else {
                    assert(prev_smul * 128 > u64::MAX) by (nonlinear_arith)
                        requires
                            prev_smul > u64::MAX,
                    ;
                }
            }
            mul_ok = false;
        }
        i = i + 1;
    }
}

/// Read a whole plain size varint at `at`: seven value bits per byte,
/// least significant first.
pub fn read_size_varint(data: &[u8], at: usize) -> (r: Result<(u64, usize), PackError>)
    requires
        at <= data@.len(),
    ensures
        match r {
            Ok((v, e)) => parse_varint_tail(data@, at as int, 0, 1) == Some(
                (v as nat, e as int),
            ) && at < e <= data@.len(),
            Err(PackError::Oversize { .. }) => (match parse_varint_tail(data@, at as int, 0, 1) {
                Some((v, _)) => v > u64::MAX,
                None => false,
            }),
            Err(_) => parse_varint_tail(data@, at as int, 0, 1) is None,
        },
{
    read_varint_tail(data, at, 0, 1)
}

/// Read the distance field of an offset-delta entry at `at`.
fn read_ofs(pack: &[u8], at: usize) -> (r: Result<(u64, usize), PackError>)
    requires
        at <= pack@.len(),
    ensures
        match r {
            Ok((v, e)) => parse_ofs(pack@, at as int) == Some((v as nat, e as int)) && at < e
                <= pack@.len(),
            Err(PackError::Oversize { .. }) => (match parse_ofs(pack@, at as int) {
                Some((v, _)) => v > u64::MAX,
                None => false,
            }),
            Err(_) => parse_ofs(pack@, at as int) is None,
        },
{
    let plen: usize = pack.len();
    if at >= plen {
        return Err(PackError::Truncated { offset: at });
    }
    let b0 = pack[at];
    let low0 = b0 & 0x7f;
    proof {
        assert((b0 & 0x7f) < 128) by (bit_vector);
    }
    if b0 < 128 {
        return Ok((low0 as u64, at + 1));
    }
    let mut i: usize = at + 1;
    let mut acc: u64 = low0 as u64;
    let mut over: bool = false;
    let ghost mut sacc: nat = low0 as nat;
    loop
        invariant
            at < i <= plen,
            plen == pack@.len(),
            parse_ofs(pack@, at as int) == parse_ofs_tail(pack@, i as int, sacc),
            !over ==> acc == sacc,
            over ==> sacc > u64::MAX,
        decreases plen - i,
    {
        if i >= plen {
            return Err(PackError::Truncated { offset: i });
        }
        let b = pack[i];
        let low = b & 0x7f;
        proof {
            assert((b & 0x7f) < 128) by (bit_vector);
        }
        let ghost prev_sacc = sacc;
        proof {
            sacc = ((sacc + 1) * 128 + (low as nat)) as nat;
            assert((prev_sacc + 1) * 128 + (low as nat) >= prev_sacc) by (nonlinear_arith)
                requires
                    low >= 0,
                    prev_sacc >= 0,
            ;
        }
        if !over {
            if acc <= (u64::MAX - (low as u64) - 128) / 128 {
                proof {
                    assert((acc + 1) * 128 + (low as u64) <= u64::MAX) by (nonlinear_arith)
                        requires
                            acc <= (u64::MAX - (low as u64) - 128) / 128,
                            low < 128,
                    ;
                }
                acc = (acc + 1) * 128 + (low as u64);
            } else {
                proof {
                    assert((acc + 1) * 128 + (low as nat) > u64::MAX) by (nonlinear_arith)
                        requires
                            acc > (u64::MAX - (low as u64) - 128) / 128,
                            low < 128,
                            acc <= u64::MAX,
                    ;
                }
                over = true;
            }
        }
        if b < 128 {
            assert(parse_ofs_tail(pack@, i as int, prev_sacc) == Some((sacc, i + 1 as int)));
            if over {
                return Err(PackError::Oversize { offset: i });
            }
            return Ok((acc, i + 1));
        }
        proof {
            assert(parse_ofs_tail(pack@, i as int, prev_sacc) == parse_ofs_tail(
                pack@,
                i + 1 as int,
                sacc,
            ));
        }
        i = i + 1;
    }
}

/// Read the whole entry at `at`: header, base reference, payload and
/// CRC. Succeeds exactly where a well-formed entry whose sizes fit the
/// machine word stands at `at`.
pub fn next_entry(pack: &[u8], at: usize) -> (r: Result<RawEntry, PackError>)
    requires
        at < pack@.len(),
    ensures
        match r {
            Ok(e) => {
                &&& parse_entry(pack@, at as int) == Some(
                    (entry_kind_view(e.kind), e.size as nat, e.data@, e.end as int),
                )
                &&& e.start == at
                &&& at < e.end <= pack@.len()
                &&& e.crc == crate::hashing::crc32_of(pack@.subrange(at as int, e.end as int))
                &&& (e.kind matches EntryKind::RefDelta(id) ==> id.wf())
            },
            Err(PackError::Oversize { .. }) => entry_oversize(pack@, at as int),
            Err(_) => parse_entry(pack@, at as int) is None && !entry_oversize(pack@, at as int),
        },
{
    let plen: usize = pack.len();
    let b = pack[at];
    let t = (b >> 4) & 7;
    let lowbits = b & 15;
    let (size, p) = if b < 128 {
        (lowbits as u64, at + 1)
    } else {
        match read_varint_tail(pack, at + 1, lowbits as u64, 16) {
            Ok(sp) => sp,
            Err(e) => {
                return Err(e);
            }
        }
    };
    if t == 1 || t == 2 || t == 3 || t == 4 {
        let kind = if t == 1 {
            Kind::Commit
        } else if t == 2 {
            Kind::Tree
        } else if t == 3 {
            Kind::Blob
        } else {
            Kind::Tag
        };
        let (data, end) = match inflate_entry(pack, p, size, at) {
            Ok(de) => de,
            Err(e) => {
                return Err(e);
            }
        };
        let crc = crate::hashing::crc32(pack, at, end);
        Ok(RawEntry { kind: EntryKind::Base(kind), size, data, start: at, end, crc })
    } else if t == 6 {
        let (off, q) = match read_ofs(pack, p) {
            Ok(oq) => oq,
            Err(e) => {
                return Err(e);
            }
        };
        if off == 0 || off > at as u64 {
            return Err(PackError::BadBase { offset: p });
        }
        let (data, end) = match inflate_entry(pack, q, size, at) {
            Ok(de) => de,
            Err(e) => {
                return Err(e);
            }
        };
        let crc = crate::hashing::crc32(pack, at, end);
        Ok(RawEntry { kind: EntryKind::OfsDelta(off), size, data, start: at, end, crc })
    } else if t == 7 {
        if plen - p < ID_LEN {
            return Err(PackError::Truncated { offset: p });
        }
        let idb = copy_range(pack, p, p + ID_LEN);
        let base = ObjectId::from_bytes(idb);
        let (data, end) = match inflate_entry(pack, p + ID_LEN, size, at) {
            Ok(de) => de,
            Err(e) => {
                return Err(e);
            }
        };
        let crc = crate::hashing::crc32(pack, at, end);
        Ok(RawEntry { kind: EntryKind::RefDelta(base), size, data, start: at, end, crc })
    } else {
        Err(PackError::BadKind { offset: at })
    }
}

/// Inflate the payload standing at `p` and hold it to the declared size.
fn inflate_entry(pack: &[u8], p: usize, size: u64, entry_at: usize) -> (r: Result<
    (Vec<u8>, usize),
    PackError,
>)
    requires
        p <= pack@.len(),
    ensures
        match r {
            Ok((d, end)) => inflate_of(pack@.skip(p as int)) == Some(
                (d@, (end - p) as nat),
            ) && d@.len() == size && p <= end <= pack@.len(),
            Err(PackError::Compression { .. }) => inflate_of(pack@.skip(p as int)) is None,
            Err(PackError::SizeMismatch { .. }) => (match inflate_of(pack@.skip(p as int)) {
                Some((d, _)) => d.len() != size,
                None => false,
            }),
            Err(_) => false,
        },
{
    let plen: usize = pack.len();
    match inflate_from(pack, p) {
        Some((data, used)) => {
            let dlen = data.len();
            if dlen as u64 != size {
                return Err(PackError::SizeMismatch { offset: entry_at });
            }
            assert(p + used <= plen);
            Ok((data, p + used))
        }
        None => Err(PackError::Compression { offset: entry_at }),
    }
}

} // verus!
