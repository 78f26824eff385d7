//! Delta application: rebuild an object's content from a base object
//! and a delta payload of copy and insert instructions.

use vstd::prelude::*;

use crate::bytes::{copy_range, push_all};
use crate::pack::parse_varint_tail;

verus! {

/// One optional little-endian field byte of a copy instruction.
pub open spec fn cp(s: Seq<u8>, i: int, present: bool, mul: nat, acc: nat) -> Option<(nat, int)> {
    if !present {
        Some((acc, i))
    } else if !(0 <= i < s.len()) {
        None
    } else {
        Some(((acc + s[i] * mul) as nat, i + 1))
    }
}

/// The offset and size fields of a copy instruction with flag byte `b`,
/// read at `i`: a zero size field means a fixed large copy.
pub open spec fn copy_params(s: Seq<u8>, i: int, b: u8) -> Option<(nat, nat, int)> {
    match cp(s, i, b & 1 != 0, 1, 0) {
        None => None,
        Some((o1, i1)) => match cp(s, i1, b & 2 != 0, 0x100, o1) {
            None => None,
            Some((o2, i2)) => match cp(s, i2, b & 4 != 0, 0x10000, o2) {
                None => None,
                Some((o3, i3)) => match cp(s, i3, b & 8 != 0, 0x1000000, o3) {
                    None => None,
                    Some((off, i4)) => match cp(s, i4, b & 16 != 0, 1, 0) {
                        None => None,
                        Some((s1, i5)) => match cp(s, i5, b & 32 != 0, 0x100, s1) {
                            None => None,
                            Some((s2, i6)) => match cp(s, i6, b & 64 != 0, 0x10000, s2) {
                                None => None,
                                Some((sz, i7)) => Some(
                                    (
                                        off,
                                        if sz == 0 {
                                            0x10000 as nat
                                        } else {
                                            sz
                                        },
                                        i7,
                                    ),
                                ),
                            },
                        },
                    },
                },
            },
        },
    }
}

/// Apply the instructions of `d` from `i` to the end: a byte below 128
/// inserts that many literal bytes; a byte at or above 128 copies an
/// extent of the base; zero is reserved and invalid.
pub open spec fn apply_delta_at(base: Seq<u8>, d: Seq<u8>, i: int) -> Option<Seq<u8>>
    decreases d.len() - i,
{
    if i == d.len() {
        Some(seq![])
    } else if !(0 <= i < d.len()) {
        None
    } else {
        let b = d[i];
        if b == 0 {
            None
        } else if b < 128 {
            if i + 1 + b > d.len() {
                None
            } else {
                match apply_delta_at(base, d, i + 1 + b) {
                    None => None,
                    Some(rest) => Some(d.subrange(i + 1, i + 1 + b) + rest),
                }
            }
        } else {
            match copy_params(d, i + 1, b) {
                None => None,
                Some((off, sz, n)) => if off + sz > base.len() || n > d.len() {
                    None
                } else {
                    match apply_delta_at(base, d, n) {
                        None => None,
                        Some(rest) => Some(base.subrange(off as int, (off + sz) as int) + rest),
                    }
                },
            }
        }
    }
}

/// Apply a whole delta: its declared base size must match the base, the
/// instructions must be well formed, and the output must match the
/// declared result size.
pub open spec fn apply_delta(base: Seq<u8>, d: Seq<u8>) -> Option<Seq<u8>> {
    match parse_varint_tail(d, 0, 0, 1) {
        None => None,
        Some((bsize, p)) => match parse_varint_tail(d, p, 0, 1) {
            None => None,
            Some((rsize, q)) => if bsize != base.len() {
                None
            } else {
                match apply_delta_at(base, d, q) {
                    None => None,
                    Some(out) => if out.len() != rsize {
                        None
                    } else {
                        Some(out)
                    },
                }
            },
        },
    }
}

/// A declared size in the delta exceeds the machine word.
pub open spec fn delta_oversize(d: Seq<u8>) -> bool {
    match parse_varint_tail(d, 0, 0, 1) {
        None => false,
        Some((bsize, p)) => bsize > u64::MAX || (match parse_varint_tail(d, p, 0, 1) {
            None => false,
            Some((rsize, _)) => rsize > u64::MAX,
        }),
    }
}

/// Why delta application failed.
#[derive(Clone, Copy, Debug, PartialEq, Eq, Structural)]
pub enum DeltaError {
    /// An instruction or size field at `offset` runs past the end.
    Truncated { offset: usize },
    /// The reserved opcode stands at `offset`.
    BadOpcode { offset: usize },
    /// The declared base size differs from the base object's.
    BaseSize,
    /// The produced bytes differ from the declared result size.
    ResultSize,
    /// A copy instruction at `offset` reaches outside the base.
    Range { offset: usize },
    /// A declared size does not fit the machine word.
    Oversize { offset: usize },
}

/// Read one optional field byte of a copy instruction.
fn read_cp(d: &[u8], i: usize, present: bool, mul: u64, acc: u64) -> (r: Option<(u64, usize)>)
    requires
        i <= d@.len(),
        mul <= 0x1000000,
        acc <= 0xffff_ffff,
    ensures
        match r {
            Some((v, j)) => cp(d@, i as int, present, mul as nat, acc as nat) == Some(
                (v as nat, j as int),
            ) && i <= j <= d@.len() && v <= 0xffff_ffff + 0xff000000u64,
            None => cp(d@, i as int, present, mul as nat, acc as nat) is None,
        },
{
    if !present {
        return Some((acc, i));
    }
    if i >= d.len() {
        return None;
    }
    let byte = d[i];
    proof {
        assert((byte as u64) * mul <= 255 * 0x1000000) by (nonlinear_arith)
            requires
                byte <= 255,
                mul <= 0x1000000,
        ;
    }
    Some((acc + (byte as u64) * mul, i + 1))
}

/// Read the offset and size fields of a copy instruction.
#[verifier::rlimit(100)]
fn read_copy_params(d: &[u8], i: usize, b: u8) -> (r: Option<(u64, u64, usize)>)
    requires
        i <= d@.len(),
    ensures
        match r {
            Some((off, sz, n)) => copy_params(d@, i as int, b) == Some(
                (off as nat, sz as nat, n as int),
            ) && i <= n <= d@.len() && 1 <= sz,
            None => copy_params(d@, i as int, b) is None,
        },
{
    let f1 = match read_cp(d, i, b & 1 != 0, 1, 0) {
        Some(v) => v,
        None => {
            return None;
        }
    };
    let f2 = match read_cp(d, f1.1, b & 2 != 0, 0x100, f1.0) {
        Some(v) => v,
        None => {
            return None;
        }
    };
    let f3 = match read_cp(d, f2.1, b & 4 != 0, 0x10000, f2.0) {
        Some(v) => v,
        None => {
            return None;
        }
    };
    let f4 = match read_cp(d, f3.1, b & 8 != 0, 0x1000000, f3.0) {
        Some(v) => v,
        None => {
            return None;
        }
    };
    let g1 = match read_cp(d, f4.1, b & 16 != 0, 1, 0) {
        Some(v) => v,
        None => {
            return None;
        }
    };
    let g2 = match read_cp(d, g1.1, b & 32 != 0, 0x100, g1.0) {
        Some(v) => v,
        None => {
            return None;
        }
    };
    let g3 = match read_cp(d, g2.1, b & 64 != 0, 0x10000, g2.0) {
        Some(v) => v,
        None => {
            return None;
        }
    };
    let sz = if g3.0 == 0 {
        0x10000u64
    } else {
        g3.0
    };
    Some((f4.0, sz, g3.1))
}

/// Apply `delta` to `base`. Succeeds exactly on a well-formed delta
/// whose declared sizes fit the machine word.
#[verifier::rlimit(100)]
pub fn apply(base: &[u8], delta: &[u8]) -> (r: Result<Vec<u8>, DeltaError>)
    ensures
        match r {
            Ok(out) => apply_delta(base@, delta@) == Some(out@) && !delta_oversize(delta@),
            Err(DeltaError::Oversize { .. }) => delta_oversize(delta@),
            Err(_) => apply_delta(base@, delta@) is None,
        },
{
    let dlen: usize = delta.len();
    if dlen == 0 {
        return Err(DeltaError::Truncated { offset: 0 });
    }
    let (bsize, p) = match crate::pack::read_size_varint(delta, 0) {
        Ok(v) => v,
        Err(crate::pack::PackError::Oversize { offset }) => {
            return Err(DeltaError::Oversize { offset });
        }
        Err(_) => {
            return Err(DeltaError::Truncated { offset: 0 });
        }
    };
    if p >= dlen {
        return Err(DeltaError::Truncated { offset: p });
    }
    let (rsize, q) = match crate::pack::read_size_varint(delta, p) {
        Ok(v) => v,
        Err(crate::pack::PackError::Oversize { offset }) => {
            return Err(DeltaError::Oversize { offset });
        }
        Err(_) => {
            return Err(DeltaError::Truncated { offset: p });
        }
    };
    let blen: usize = base.len();
    if blen as u64 != bsize {
        return Err(DeltaError::BaseSize);
    }
    let mut out: Vec<u8> = Vec::new();
    let mut pos: usize = q;
    while pos < dlen
        invariant
            q <= pos <= dlen,
            dlen == delta@.len(),
            blen == base@.len(),
            parse_varint_tail(delta@, 0, 0, 1) == Some((bsize as nat, p as int)),
            parse_varint_tail(delta@, p as int, 0, 1) == Some((rsize as nat, q as int)),
            bsize == blen as u64,
            apply_delta_at(base@, delta@, q as int) == (match apply_delta_at(
                base@,
                delta@,
                pos as int,
            ) {
                None => None::<Seq<u8>>,
                Some(rest) => Some(out@ + rest),
            }),
        decreases dlen - pos,
    {
        let b = delta[pos];
        if b == 0 {
            return Err(DeltaError::BadOpcode { offset: pos });
        }
        if b < 128 {
            let n = b as usize;
            if dlen - (pos + 1) < n {
                return Err(DeltaError::Truncated { offset: pos });
            }
            let ghost old_out = out@;
            push_all(&mut out, copy_range(delta, pos + 1, pos + 1 + n).as_slice());
            proof {
                assert(out@ =~= old_out + delta@.subrange(pos + 1, pos + 1 + n as int));
                if apply_delta_at(base@, delta@, pos + 1 + n as int) is Some {
                    let rest = apply_delta_at(base@, delta@, pos + 1 + n as int).unwrap();
                    assert(old_out + (delta@.subrange(pos + 1, pos + 1 + n as int) + rest)
                        =~= out@ + rest);
                }
            }
            pos = pos + 1 + n;
        } else {
            let (off, sz, n) = match read_copy_params(delta, pos + 1, b) {
                Some(v) => v,
                None => {
                    return Err(DeltaError::Truncated { offset: pos });
                }
            };
            if off > blen as u64 || sz > blen as u64 - off {
                return Err(DeltaError::Range { offset: pos });
            }
            let offu = off as usize;
            let szu = sz as usize;
            let ghost old_out = out@;
            push_all(&mut out, copy_range(base, offu, offu + szu).as_slice());
            proof {
                assert(out@ =~= old_out + base@.subrange(off as int, (off + sz) as int));
                if apply_delta_at(base@, delta@, n as int) is Some {
                    let rest = apply_delta_at(base@, delta@, n as int).unwrap();
                    assert(old_out + (base@.subrange(off as int, (off + sz) as int) + rest)
                        =~= out@ + rest);
                }
            }
            pos = n;
        }
    }
    proof {
        assert(apply_delta_at(base@, delta@, dlen as int) == Some(Seq::<u8>::empty()));
        assert(out@ + Seq::<u8>::empty() =~= out@);
    }
    let olen: usize = out.len();
    if olen as u64 != rsize {
        return Err(DeltaError::ResultSize);
    }
    Ok(out)
}

} // verus!
