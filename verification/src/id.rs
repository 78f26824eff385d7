//! Object identifiers: fixed-width digests with hex encoding and a total
//! byte-wise order.

use vstd::prelude::*;

verus! {

/// Width in bytes of a digest of the legacy hash family.
pub const ID_LEN: usize = 20;

/// A fixed-width cryptographic digest identifying an object.
#[derive(Clone, Debug)]
pub struct ObjectId {
    pub bytes: Vec<u8>,
}

impl ObjectId {
    /// Well-formedness: exactly `ID_LEN` bytes.
    pub open spec fn wf(&self) -> bool {
        self.bytes@.len() == ID_LEN
    }

    /// Wrap a digest; the caller supplies exactly `ID_LEN` bytes.
    pub fn from_bytes(bytes: Vec<u8>) -> (r: ObjectId)
        requires
            bytes@.len() == ID_LEN,
        ensures
            r.bytes@ == bytes@,
            r.wf(),
    {
        ObjectId { bytes }
    }

    /// Lowercase hex encoding of the digest, two digits per byte.
    pub fn to_hex(&self) -> (r: Vec<u8>)
        ensures
            r@ == hex_of(self.bytes@),
            r@.len() == 2 * self.bytes@.len(),
    {
        let mut out: Vec<u8> = Vec::new();
        let mut i: usize = 0;
        proof {
            lemma_hex_of_len(self.bytes@);
        }
        while i < self.bytes.len()
            invariant
                i <= self.bytes@.len(),
                out@ == hex_of(self.bytes@.take(i as int)),
                out@.len() == 2 * i,
            decreases self.bytes@.len() - i,
        {
            let b = self.bytes[i];
            assert((b >> 4) == b / 16 && (b & 15) == b % 16 && (b >> 4) < 16 && (b & 15)
                < 16) by (bit_vector);
            let hi = b >> 4;
            let lo = b & 15;
            out.push(hex_digit_byte(hi));
            out.push(hex_digit_byte(lo));
            proof {
                lemma_hex_of_snoc(self.bytes@, i as int);
                lemma_hex_of_len(self.bytes@.take(i + 1));
            }
            i = i + 1;
        }
        assert(self.bytes@.take(self.bytes@.len() as int) =~= self.bytes@);
        out
    }

    /// A fresh identifier holding the same digest.
    pub fn duplicate(&self) -> (r: ObjectId)
        ensures
            r.bytes@ == self.bytes@,
    {
        let bytes = crate::bytes::copy_range(self.bytes.as_slice(), 0, self.bytes.len());
        assert(self.bytes@.subrange(0, self.bytes@.len() as int) =~= self.bytes@);
        ObjectId { bytes }
    }

    /// Byte-wise comparison: `self` not greater than `other`.
    pub fn le(&self, other: &ObjectId) -> (r: bool)
        requires
            self.wf(),
            other.wf(),
        ensures
            r == bytes_le(self.bytes@, other.bytes@),
    {
        let mut i: usize = 0;
        proof {
            assert(self.bytes@.skip(0) =~= self.bytes@);
            assert(other.bytes@.skip(0) =~= other.bytes@);
        }
        while i < ID_LEN
            invariant
                i <= ID_LEN,
                self.bytes@.len() == ID_LEN,
                other.bytes@.len() == ID_LEN,
                forall|j: int| 0 <= j < i ==> self.bytes@[j] == other.bytes@[j],
                bytes_le(self.bytes@, other.bytes@) == bytes_le(
                    self.bytes@.skip(i as int),
                    other.bytes@.skip(i as int),
                ),
            decreases ID_LEN - i,
        {
            let a = self.bytes[i];
            let b = other.bytes[i];
            proof {
                assert(self.bytes@.skip(i as int)[0] == a);
                assert(other.bytes@.skip(i as int)[0] == b);
                assert(self.bytes@.skip(i as int).drop_first() =~= self.bytes@.skip(i + 1));
                assert(other.bytes@.skip(i as int).drop_first() =~= other.bytes@.skip(i + 1));
            }
            if a < b {
                return true;
            }
            if a > b {
                return false;
            }
            i = i + 1;
        }
        assert(self.bytes@.skip(ID_LEN as int).len() == 0);
        true
    }
}

impl PartialEq for ObjectId {
    fn eq(&self, other: &ObjectId) -> (r: bool) {
        if self.bytes.len() != other.bytes.len() {
            return false;
        }
        let mut i: usize = 0;
        while i < self.bytes.len()
            invariant
                i <= self.bytes@.len(),
                self.bytes@.len() == other.bytes@.len(),
                forall|j: int| 0 <= j < i ==> self.bytes@[j] == other.bytes@[j],
            decreases self.bytes@.len() - i,
        {
            if self.bytes[i] != other.bytes[i] {
                return false;
            }
            i = i + 1;
        }
        assert(self.bytes@ =~= other.bytes@);
        true
    }
}

impl Eq for ObjectId {}

impl vstd::std_specs::cmp::PartialEqSpecImpl for ObjectId {
    open spec fn obeys_eq_spec() -> bool {
        true
    }

    open spec fn eq_spec(&self, other: &ObjectId) -> bool {
        self.bytes@ == other.bytes@
    }
}

/// Lexicographic order on byte strings.
pub open spec fn bytes_le(a: Seq<u8>, b: Seq<u8>) -> bool
    decreases a.len(),
{
    if a.len() == 0 {
        true
    } else if b.len() == 0 {
        false
    } else if a[0] < b[0] {
        true
    } else if a[0] > b[0] {
        false
    } else {
        bytes_le(a.drop_first(), b.drop_first())
    }
}

/// Byte-wise comparison of two byte strings.
pub fn le_bytes(a: &[u8], b: &[u8]) -> (r: bool)
    ensures
        r == bytes_le(a@, b@),
{
    let alen: usize = a.len();
    let blen: usize = b.len();
    let mut i: usize = 0;
    proof {
        assert(a@.skip(0) =~= a@);
        assert(b@.skip(0) =~= b@);
    }
    while i < alen && i < blen
        invariant
            i <= alen,
            i <= blen,
            alen == a@.len(),
            blen == b@.len(),
            bytes_le(a@, b@) == bytes_le(a@.skip(i as int), b@.skip(i as int)),
        decreases alen - i,
    {
        let x = a[i];
        let y = b[i];
        proof {
            assert(a@.skip(i as int)[0] == x);
            assert(b@.skip(i as int)[0] == y);
            assert(a@.skip(i as int).drop_first() =~= a@.skip(i + 1));
            assert(b@.skip(i as int).drop_first() =~= b@.skip(i + 1));
        }
        if x < y {
            return true;
        }
        if x > y {
            return false;
        }
        i = i + 1;
    }
    if i == alen {
        assert(a@.skip(i as int).len() == 0);
        true
    } else {
        assert(b@.skip(i as int).len() == 0);
        assert(a@.skip(i as int).len() > 0);
        false
    }
}

/// The lowercase hex digit for a value below 16.
pub open spec fn hex_digit(n: u8) -> u8 {
    if n < 10 {
        (48 + n) as u8
    } else {
        (87 + n) as u8
    }
}

/// A lowercase ASCII hex digit.
pub open spec fn is_hex_digit(b: u8) -> bool {
    (48 <= b <= 57) || (97 <= b <= 102)
}

/// The value of a lowercase hex digit.
pub open spec fn hex_value(b: u8) -> u8 {
    if 48 <= b <= 57 {
        (b - 48) as u8
    } else {
        (b - 87) as u8
    }
}

/// Lowercase hex encoding of a byte string, two digits per byte.
pub open spec fn hex_of(s: Seq<u8>) -> Seq<u8>
    decreases s.len(),
{
    if s.len() == 0 {
        seq![]
    } else {
        seq![hex_digit(s[0] / 16), hex_digit((s[0] % 16) as u8)] + hex_of(s.drop_first())
    }
}

pub proof fn lemma_hex_of_len(s: Seq<u8>)
    ensures
        hex_of(s).len() == 2 * s.len(),
    decreases s.len(),
{
    if s.len() > 0 {
        lemma_hex_of_len(s.drop_first());
    }
}

/// Encoding one more byte appends its two digits.
pub proof fn lemma_hex_of_snoc(s: Seq<u8>, i: int)
    requires
        0 <= i < s.len(),
    ensures
        hex_of(s.take(i + 1)) == hex_of(s.take(i)) + seq![
            hex_digit(s[i] / 16),
            hex_digit((s[i] % 16) as u8),
        ],
    decreases i,
{
    if i == 0 {
        assert(s.take(1).drop_first() =~= seq![]);
        assert(s.take(0) =~= Seq::<u8>::empty());
        assert(hex_of(s.take(1)) =~= hex_of(s.take(0)) + seq![
            hex_digit(s[0] / 16),
            hex_digit((s[0] % 16) as u8),
        ]);
    } else {
        lemma_hex_of_snoc(s.drop_first(), i - 1);
        assert(s.take(i + 1).drop_first() =~= s.drop_first().take(i));
        assert(s.take(i).drop_first() =~= s.drop_first().take(i - 1));
        assert(s.take(i + 1)[0] == s[0]);
        assert(s.take(i)[0] == s[0]);
        assert(s.drop_first()[i - 1] == s[i]);
        assert(hex_of(s.take(i + 1)) =~= hex_of(s.take(i)) + seq![
            hex_digit(s[i] / 16),
            hex_digit((s[i] % 16) as u8),
        ]);
    }
}

/// Every byte is a lowercase ASCII hex digit.
pub open spec fn all_lower_hex(s: Seq<u8>) -> bool {
    forall|j: int| 0 <= j < s.len() ==> is_hex_digit(#[trigger] s[j])
}

/// Encoding one more byte appends its two digits.
pub proof fn lemma_hex_of_push(s: Seq<u8>, b: u8)
    ensures
        hex_of(s.push(b)) == hex_of(s) + seq![hex_digit(b / 16), hex_digit((b % 16) as u8)],
    decreases s.len(),
{
    if s.len() == 0 {
        assert(s.push(b).drop_first() =~= Seq::<u8>::empty());
        assert(s.push(b)[0] == b);
        assert(s =~= Seq::<u8>::empty());
        assert(hex_of(s.push(b)) =~= hex_of(s) + seq![
            hex_digit(b / 16),
            hex_digit((b % 16) as u8),
        ]);
    } else {
        lemma_hex_of_push(s.drop_first(), b);
        assert(s.push(b).drop_first() =~= s.drop_first().push(b));
        assert(s.push(b)[0] == s[0]);
        assert(hex_of(s.push(b)) =~= hex_of(s) + seq![
            hex_digit(b / 16),
            hex_digit((b % 16) as u8),
        ]);
    }
}

/// Read a digest from its 40 lowercase hex digits at position `at`.
/// Succeeds exactly where every digit is lowercase hex.
pub fn from_hex_at(h: &[u8], at: usize) -> (r: Option<ObjectId>)
    requires
        at + 2 * ID_LEN <= h@.len(),
    ensures
        match r {
            Some(id) => id.wf() && hex_of(id.bytes@) == h@.subrange(at as int, at + 2 * ID_LEN),
            None => !all_lower_hex(h@.subrange(at as int, at + 2 * ID_LEN)),
        },
{
    let ghost hs = h@.subrange(at as int, at + 2 * ID_LEN);
    let hlen: usize = h.len();
    let mut out: Vec<u8> = Vec::new();
    let mut k: usize = 0;
    while k < ID_LEN
        invariant
            k <= ID_LEN,
            at + 2 * ID_LEN <= hlen,
            hlen == h@.len(),
            hs == h@.subrange(at as int, at + 2 * ID_LEN),
            out@.len() == k,
            hex_of(out@) == hs.subrange(0, 2 * k),
        decreases ID_LEN - k,
    {
        assert(at + 2 * k + 1 < hlen);
        let c0 = h[at + 2 * k];
        let c1 = h[at + 2 * k + 1];
        proof {
            assert(hs[2 * k] == c0);
            assert(hs[2 * k + 1] == c1);
        }
        if !((48 <= c0 && c0 <= 57) || (97 <= c0 && c0 <= 102)) {
            assert(!is_hex_digit(hs[2 * k]));
            return None;
        }
        if !((48 <= c1 && c1 <= 57) || (97 <= c1 && c1 <= 102)) {
            assert(!is_hex_digit(hs[2 * k + 1]));
            return None;
        }
        let hi = if c0 <= 57 {
            c0 - 48
        } else {
            c0 - 87
        };
        let lo = if c1 <= 57 {
            c1 - 48
        } else {
            c1 - 87
        };
        let b = hi * 16 + lo;
        proof {
            assert(b / 16 == hi && b % 16 == lo) by (nonlinear_arith)
                requires
                    hi < 16,
                    lo < 16,
                    b == hi * 16 + lo,
            ;
            assert(hex_digit(hi) == c0);
            assert(hex_digit(lo) == c1);
            lemma_hex_of_push(out@, b);
        }
        out.push(b);
        assert(hex_of(out@) =~= hs.subrange(0, 2 * (k + 1)));
        k = k + 1;
    }
    assert(hs.subrange(0, 2 * ID_LEN) =~= hs);
    Some(ObjectId::from_bytes(out))
}

/// The hex digit of a value below 16, as executable code.
pub fn hex_digit_byte(n: u8) -> (r: u8)
    requires
        n < 16,
    ensures
        r == hex_digit(n),
{
    if n < 10 {
        48 + n
    } else {
        87 + n
    }
}

} // verus!
