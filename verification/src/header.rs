//! The object frame codec: every object is hashed and stored behind the
//! header `"<kind> <size>\0"`, with the size in decimal ASCII.

use vstd::prelude::*;

use crate::bytes::{eq_at, starts_with};
use crate::kind::{kind_token, Kind};

verus! {

/// Failure to decode an object frame.
#[derive(Clone, Copy, Debug, PartialEq, Eq, Structural)]
pub enum HeaderError {
    /// The bytes do not open with a known kind token followed by a space.
    UnknownKind,
    /// The size field is empty or not terminated by a NUL byte.
    MalformedLength,
    /// The size field is well formed but does not fit the machine word.
    SizeOverflow,
}

/// An ASCII decimal digit.
pub open spec fn is_digit(b: u8) -> bool {
    48 <= b <= 57
}

/// The decimal ASCII digits of `n`, without leading zeros.
pub open spec fn dec_digits(n: nat) -> Seq<u8>
    decreases n,
{
    if n < 10 {
        seq![(48 + n) as u8]
    } else {
        dec_digits(n / 10).push((48 + n % 10) as u8)
    }
}

/// The value of a run of decimal ASCII digits.
pub open spec fn digits_value(s: Seq<u8>) -> nat
    decreases s.len(),
{
    if s.len() == 0 {
        0
    } else {
        (digits_value(s.drop_last()) * 10 + (s.last() - 48)) as nat
    }
}

/// Length of the maximal digit run of `s` starting at `i`.
pub open spec fn digit_run_len(s: Seq<u8>, i: int) -> int
    decreases s.len() - i,
{
    if 0 <= i < s.len() && is_digit(s[i]) {
        1 + digit_run_len(s, i + 1)
    } else {
        0
    }
}

/// The frame prepended to an object of kind `k` and content length `n`:
/// kind token, one space, decimal size, one NUL byte.
pub open spec fn header_bytes(k: Kind, n: nat) -> Seq<u8> {
    kind_token(k) + seq![32u8] + dec_digits(n) + seq![0u8]
}

/// The kind whose token and the following space open `s`, if any.
pub open spec fn header_kind(s: Seq<u8>) -> Option<Kind> {
    if starts_with(s, kind_token(Kind::Blob) + seq![32u8]) {
        Some(Kind::Blob)
    } else if starts_with(s, kind_token(Kind::Tree) + seq![32u8]) {
        Some(Kind::Tree)
    } else if starts_with(s, kind_token(Kind::Commit) + seq![32u8]) {
        Some(Kind::Commit)
    } else if starts_with(s, kind_token(Kind::Tag) + seq![32u8]) {
        Some(Kind::Tag)
    } else {
        None
    }
}

/// Parse an object frame at the head of `s`: the kind, the declared
/// content size, and the number of bytes the frame occupies.
pub open spec fn parse_header(s: Seq<u8>) -> Option<(Kind, nat, int)> {
    match header_kind(s) {
        None => None,
        Some(k) => {
            let st = kind_token(k).len() + 1;
            let dl = digit_run_len(s, st as int);
            if dl == 0 || st + dl >= s.len() || s[st + dl] != 0 {
                None
            } else {
                Some((k, digits_value(s.subrange(st as int, st + dl)), st + dl + 1))
            }
        }
    }
}

/// Append the decimal digits of `n`.
pub fn push_decimal(out: &mut Vec<u8>, n: u64)
    ensures
        final(out)@ == old(out)@ + dec_digits(n as nat),
    decreases n,
{
    if n < 10 {
        out.push((48 + n) as u8);
        assert(out@ =~= old(out)@ + dec_digits(n as nat));
    } else {
        push_decimal(out, n / 10);
        out.push((48 + (n % 10)) as u8);
        assert(out@ =~= old(out)@ + dec_digits(n as nat));
    }
}

/// Encode the object frame for kind `k` and content length `len`.
pub fn encode_header(k: Kind, len: u64) -> (r: Vec<u8>)
    ensures
        r@ == header_bytes(k, len as nat),
{
    let mut out = k.token_bytes();
    out.push(32);
    push_decimal(&mut out, len);
    out.push(0);
    assert(out@ =~= header_bytes(k, len as nat));
    out
}

/// Whether the bytes of `data` open with the token of `k` and a space.
fn opens_with_kind(data: &[u8], k: Kind) -> (r: bool)
    ensures
        r == starts_with(data@, kind_token(k) + seq![32u8]),
{
    let mut tok = k.token_bytes();
    tok.push(32);
    assert(tok@ =~= kind_token(k) + seq![32u8]);
    if data.len() < tok.len() {
        return false;
    }
    let r = eq_at(data, 0, tok.as_slice());
    assert(data@.subrange(0, tok@.len() as int) == data@.subrange(0, 0 + tok@.len() as int));
    r
}

/// Read the kind token at the head of `data`; on success the returned
/// position is the first byte after the space.
fn read_kind(data: &[u8]) -> (r: Option<(Kind, usize)>)
    ensures
        match r {
            Some((k, pos)) => header_kind(data@) == Some(k) && pos == kind_token(k).len() + 1,
            None => header_kind(data@) is None,
        },
{
    if opens_with_kind(data, Kind::Blob) {
        Some((Kind::Blob, 5))
    } else if opens_with_kind(data, Kind::Tree) {
        Some((Kind::Tree, 5))
    } else if opens_with_kind(data, Kind::Commit) {
        Some((Kind::Commit, 7))
    } else if opens_with_kind(data, Kind::Tag) {
        Some((Kind::Tag, 4))
    } else {
        None
    }
}

/// Decode an object frame at the head of `data`: the kind, the declared
/// content size and the frame's byte length. Fails exactly where no
/// well-formed frame opens `data`, or where the size does not fit `u64`.
pub fn decode_header(data: &[u8]) -> (r: Result<(Kind, u64, usize), HeaderError>)
    ensures
        match r {
            Ok((k, n, e)) => parse_header(data@) == Some((k, n as nat, e as int)),
            Err(HeaderError::UnknownKind) => header_kind(data@) is None,
            Err(HeaderError::MalformedLength) => header_kind(data@) is Some && parse_header(
                data@,
            ) is None,
            Err(HeaderError::SizeOverflow) => parse_header(data@) matches Some((_, n, _)) && n
                > u64::MAX,
        },
{
    let (kind, start) = match read_kind(data) {
        Some(p) => p,
        None => {
            return Err(HeaderError::UnknownKind);
        }
    };
    let dlen: usize = data.len();
    let mut pos: usize = start;
    let mut val: u64 = 0;
    let mut over: bool = false;
    while pos < dlen && 48 <= data[pos] && data[pos] <= 57
        invariant
            start <= pos <= dlen,
            dlen == data@.len(),
            digit_run_len(data@, start as int) == pos - start + digit_run_len(data@, pos as int),
            !over ==> val == digits_value(data@.subrange(start as int, pos as int)),
            over ==> digits_value(data@.subrange(start as int, pos as int)) > u64::MAX,
        decreases dlen - pos,
    {
        let d: u64 = (data[pos] - 48) as u64;
        proof {
            assert(is_digit(data@[pos as int]));
            assert(digit_run_len(data@, pos as int) == 1 + digit_run_len(data@, pos + 1));
            assert(data@.subrange(start as int, pos + 1).drop_last() =~= data@.subrange(
                start as int,
                pos as int,
            ));
            assert(data@.subrange(start as int, pos + 1).last() == data@[pos as int]);
        }
        let ghost prev: nat = digits_value(data@.subrange(start as int, pos as int));
        if !over {
            if val <= (u64::MAX - d) / 10 {
                proof {
                    assert(val * 10 + d <= u64::MAX) by (nonlinear_arith)
                        requires
                            val <= (u64::MAX - d) / 10,
                            d <= 9,
                    ;
                }
                val = val * 10 + d;
            } else {
                proof {
                    assert(val * 10 + d > u64::MAX) by (nonlinear_arith)
                        requires
                            val > (u64::MAX - d) / 10,
                            d <= 9,
                    ;
                }
                over = true;
            }
        } else {
            proof {
                assert(prev * 10 + d > u64::MAX) by (nonlinear_arith)
                    requires
                        prev > u64::MAX,
                        d >= 0,
                ;
            }
        }
        pos = pos + 1;
    }
    proof {
        if pos < dlen {
            assert(!is_digit(data@[pos as int]));
        }
        assert(digit_run_len(data@, pos as int) == 0);
        assert(digit_run_len(data@, start as int) == pos - start);
    }
    if pos == start {
        return Err(HeaderError::MalformedLength);
    }
    if pos >= dlen || data[pos] != 0 {
        return Err(HeaderError::MalformedLength);
    }
    if over {
        return Err(HeaderError::SizeOverflow);
    }
    Ok((kind, val, pos + 1))
}


/// A digit run has nonnegative length.
pub proof fn lemma_digit_run_len_nonneg(s: Seq<u8>, i: int)
    ensures
        digit_run_len(s, i) >= 0,
    decreases s.len() - i,
{
    if 0 <= i < s.len() && is_digit(s[i]) {
        lemma_digit_run_len_nonneg(s, i + 1);
    }
}

/// A parsed frame occupies between one byte and the whole input.
pub proof fn lemma_parse_header_bounds(s: Seq<u8>)
    ensures
        parse_header(s) matches Some((k, n, hl)) ==> 0 < hl <= s.len(),
{
    if parse_header(s) is Some {
        let k = header_kind(s).unwrap();
        lemma_digit_run_len_nonneg(s, kind_token(k).len() + 1 as int);
    }
}
/// Digits of a number are ASCII digits.
pub proof fn lemma_dec_digits_are_digits(n: nat)
    ensures
        dec_digits(n).len() >= 1,
        forall|i: int| 0 <= i < dec_digits(n).len() ==> is_digit(#[trigger] dec_digits(n)[i]),
    decreases n,
{
    if n >= 10 {
        lemma_dec_digits_are_digits(n / 10);
    }
}

/// Reading the digits of `n` back gives `n`.
pub proof fn lemma_digits_value_of_dec(n: nat)
    ensures
        digits_value(dec_digits(n)) == n,
    decreases n,
{
    if n < 10 {
        assert(dec_digits(n) == seq![(48 + n) as u8]);
        assert(dec_digits(n).drop_last() =~= Seq::<u8>::empty());
        assert(dec_digits(n).last() == (48 + n) as u8);
        assert(digits_value(dec_digits(n)) == digits_value(Seq::<u8>::empty()) * 10 + ((48
            + n) as u8 - 48));
        assert((48 + n) as u8 == 48 + n);
    } else {
        lemma_digits_value_of_dec(n / 10);
        assert(dec_digits(n).drop_last() =~= dec_digits(n / 10));
        assert(dec_digits(n).last() == (48 + n % 10) as u8);
        assert(n / 10 * 10 + n % 10 == n) by (nonlinear_arith)
            requires
                n >= 10,
        ;
    }
}

/// A digit run of known extent has that length.
pub proof fn lemma_digit_run(s: Seq<u8>, i: int, m: int)
    requires
        0 <= i,
        m >= 0,
        i + m < s.len(),
        forall|j: int| i <= j < i + m ==> is_digit(#[trigger] s[j]),
        !is_digit(s[i + m]),
    ensures
        digit_run_len(s, i) == m,
    decreases m,
{
    if m > 0 {
        lemma_digit_run(s, i + 1, m - 1);
    }
}

/// The frame written for `(k, n)` parses back to `(k, n)`, whatever
/// content follows it.
pub proof fn lemma_parse_header_round_trip(k: Kind, n: nat, rest: Seq<u8>)
    ensures
        parse_header(header_bytes(k, n) + rest) == Some(
            (k, n, kind_token(k).len() + dec_digits(n).len() + 2 as int),
        ),
{
    let s = header_bytes(k, n) + rest;
    let tok = kind_token(k);
    let st = tok.len() + 1;
    let dd = dec_digits(n);
    lemma_dec_digits_are_digits(n);
    assert(s.subrange(0, st as int) =~= tok + seq![32u8]);
    assert(starts_with(s, tok + seq![32u8]));
    assert forall|j: int| st <= j < st + dd.len() implies is_digit(#[trigger] s[j]) by {
        assert(s[j] == dd[j - st]);
    }
    assert(s[st + dd.len() as int] == 0);
    assert(!is_digit(s[st + dd.len() as int]));
    lemma_digit_run(s, st as int, dd.len() as int);
    lemma_header_kind_of_frame(k, n, rest);
    assert(s.subrange(st as int, st + dd.len() as int) =~= dd);
    lemma_digits_value_of_dec(n);
}

/// The kind token written for `k` is recognized as `k` and no other kind.
proof fn lemma_header_kind_of_frame(k: Kind, n: nat, rest: Seq<u8>)
    ensures
        header_kind(header_bytes(k, n) + rest) == Some(k),
{
    let s = header_bytes(k, n) + rest;
    let tok = kind_token(k);
    assert(s.subrange(0, tok.len() + 1 as int) =~= tok + seq![32u8]);
    assert(starts_with(s, tok + seq![32u8]));
    match k {
        Kind::Blob => {
        }
        Kind::Tree => {
            assert(s[0] == 116);
            assert(!starts_with(s, kind_token(Kind::Blob) + seq![32u8]));
        }
        Kind::Commit => {
            assert(s[0] == 99);
            assert(!starts_with(s, kind_token(Kind::Blob) + seq![32u8]));
            assert(!starts_with(s, kind_token(Kind::Tree) + seq![32u8]));
        }
        Kind::Tag => {
            assert(s[0] == 116 && s[1] == 97);
            assert(!starts_with(s, kind_token(Kind::Blob) + seq![32u8]));
            assert(!starts_with(s, kind_token(Kind::Tree) + seq![32u8]));
            assert(!starts_with(s, kind_token(Kind::Commit) + seq![32u8]));
        }
    }
}


/// Digit runs consist of digits.
pub proof fn lemma_digit_run_chars(s: Seq<u8>, i: int)
    requires
        0 <= i <= s.len(),
    ensures
        forall|j: int| i <= j < i + digit_run_len(s, i) ==> is_digit(#[trigger] s[j]),
    decreases s.len() - i,
{
    if 0 <= i < s.len() && is_digit(s[i]) {
        lemma_digit_run_chars(s, i + 1);
    }
}

/// A frame parsed from a prefix of the content parses identically from
/// the whole content: the frame never reaches past its own NUL byte.
pub proof fn lemma_parse_header_prefix(d: Seq<u8>, m: int)
    requires
        0 <= m <= d.len(),
        parse_header(d.take(m)) is Some,
    ensures
        parse_header(d) == parse_header(d.take(m)),
{
    let t = d.take(m);
    lemma_parse_header_bounds(t);
    let k = header_kind(t).unwrap();
    let st = kind_token(k).len() + 1;
    let dl = digit_run_len(t, st as int);
    lemma_digit_run_len_nonneg(t, st as int);
    assert(t.subrange(0, st as int) =~= d.subrange(0, st as int));
    assert(starts_with(d, kind_token(k) + seq![32u8]));
    assert(t.subrange(0, st as int) == kind_token(k) + seq![32u8]);
    assert forall|j: int| 0 <= j < st implies t[j] == d[j] by {
        assert(t.subrange(0, st as int)[j] == t[j]);
        assert(d.subrange(0, st as int)[j] == d[j]);
    }
    match k {
        Kind::Blob => {
        }
        Kind::Tree => {
            assert(t[0] == 116) by {
                assert(t.subrange(0, st as int)[0] == t[0]);
            }
            assert(d[0] == 116);
            assert(!starts_with(d, kind_token(Kind::Blob) + seq![32u8]));
        }
        Kind::Commit => {
            assert(t[0] == 99) by {
                assert(t.subrange(0, st as int)[0] == t[0]);
            }
            assert(d[0] == 99);
            assert(!starts_with(d, kind_token(Kind::Blob) + seq![32u8]));
            assert(!starts_with(d, kind_token(Kind::Tree) + seq![32u8]));
        }
        Kind::Tag => {
            assert(t[0] == 116 && t[1] == 97) by {
                assert(t.subrange(0, st as int)[0] == t[0]);
                assert(t.subrange(0, st as int)[1] == t[1]);
            }
            assert(d[0] == 116 && d[1] == 97);
            assert(!starts_with(d, kind_token(Kind::Blob) + seq![32u8]));
            assert(!starts_with(d, kind_token(Kind::Tree) + seq![32u8]));
            assert(!starts_with(d, kind_token(Kind::Commit) + seq![32u8]));
        }
    }
    assert(header_kind(d) == Some(k));
    lemma_digit_run_chars(t, st as int);
    assert forall|j: int| st <= j < st + dl implies is_digit(#[trigger] d[j]) by {
        assert(d[j] == t[j]);
    }
    assert(d[st + dl] == t[st + dl]);
    assert(!is_digit(d[st + dl]));
    lemma_digit_run(d, st as int, dl);
    assert(d.subrange(st as int, st + dl) =~= t.subrange(st as int, st + dl));
}

} // verus!
