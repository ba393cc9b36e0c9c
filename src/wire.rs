//! Byte-level building blocks of the wire format: little-endian integers and
//! length-prefixed tokens.
use vstd::prelude::*;
use vstd::utf8::*;

verus! {

broadcast use {encode_utf8_valid_utf8, encode_utf8_decode_utf8};

/// Why a byte sequence or a token list is not a well-formed message.
#[derive(Clone, Copy, Debug, PartialEq, Eq, Structural)]
pub enum DecodeError {
    /// The input ends before a length prefix or the bytes it announces.
    Truncated,
    /// Bytes follow the end of a complete message.
    TrailingBytes,
    /// Text on the wire is not valid UTF-8.
    InvalidUtf8,
    /// A command lacks a token that its keyword requires.
    MissingToken,
    /// The time-to-live token of a SET is not exactly eight bytes.
    BadTtl,
    /// The first token of a command is no known keyword.
    UnknownCommand,
    /// The leading code of a response names no variant.
    UnknownResponse,
}

/// The four little-endian bytes of `n`.
pub open spec fn le32(n: u32) -> Seq<u8> {
    seq![
        (n % 0x100) as u8,
        ((n / 0x100) % 0x100) as u8,
        ((n / 0x10000) % 0x100) as u8,
        ((n / 0x1000000) % 0x100) as u8,
    ]
}

/// The number whose little-endian bytes are the four bytes of `b` at `at`.
pub open spec fn le32_at(b: Seq<u8>, at: int) -> u32 {
    (b[at] as int + b[at + 1] as int * 0x100 + b[at + 2] as int * 0x10000 + b[at + 3] as int
        * 0x1000000) as u32
}

/// The eight little-endian bytes of `n`.
pub open spec fn le64(n: u64) -> Seq<u8> {
    le32((n % 0x1_0000_0000) as u32) + le32((n / 0x1_0000_0000) as u32)
}

/// The number whose little-endian bytes are the eight bytes of `b` at `at`.
pub open spec fn le64_at(b: Seq<u8>, at: int) -> u64 {
    (le32_at(b, at) as int + le32_at(b, at + 4) as int * 0x1_0000_0000) as u64
}

/// A token on the wire: its byte length as four little-endian bytes, then the bytes.
pub open spec fn token(bytes: Seq<u8>) -> Seq<u8> {
    le32(bytes.len() as u32) + bytes
}

pub proof fn lemma_le32_round_trip(n: u32, b: Seq<u8>, at: int)
    requires
        0 <= at,
        at + 4 <= b.len(),
        b.subrange(at, at + 4) == le32(n),
    ensures
        le32_at(b, at) == n,
{
    assert(b[at] == le32(n)[0]);
    assert(b[at + 1] == le32(n)[1]);
    assert(b[at + 2] == le32(n)[2]);
    assert(b[at + 3] == le32(n)[3]);
    let x = n as int;
    assert(x == x % 0x100 + ((x / 0x100) % 0x100) * 0x100 + ((x / 0x10000) % 0x100) * 0x10000
        + ((x / 0x1000000) % 0x100) * 0x1000000) by (nonlinear_arith)
        requires
            0 <= x < 0x1_0000_0000,
    ;
}

pub proof fn lemma_le32_canonical(b: Seq<u8>, at: int)
    requires
        0 <= at,
        at + 4 <= b.len(),
    ensures
        le32(le32_at(b, at)) == b.subrange(at, at + 4),
{
    let b0 = b[at] as int;
    let b1 = b[at + 1] as int;
    let b2 = b[at + 2] as int;
    let b3 = b[at + 3] as int;
    let x = b0 + b1 * 0x100 + b2 * 0x10000 + b3 * 0x1000000;
    assert(0 <= x < 0x1_0000_0000 && x % 0x100 == b0 && (x / 0x100) % 0x100 == b1 && (x / 0x10000)
        % 0x100 == b2 && (x / 0x1000000) % 0x100 == b3) by (nonlinear_arith)
        requires
            0 <= b0 < 0x100,
            0 <= b1 < 0x100,
            0 <= b2 < 0x100,
            0 <= b3 < 0x100,
            x == b0 + b1 * 0x100 + b2 * 0x10000 + b3 * 0x1000000,
    ;
    assert(le32(le32_at(b, at)) =~= b.subrange(at, at + 4));
}

pub proof fn lemma_le64_round_trip(n: u64, b: Seq<u8>, at: int)
    requires
        0 <= at,
        at + 8 <= b.len(),
        b.subrange(at, at + 8) == le64(n),
    ensures
        le64_at(b, at) == n,
{
    let lo = (n % 0x1_0000_0000) as u32;
    let hi = (n / 0x1_0000_0000) as u32;
    assert(b.subrange(at, at + 4) =~= le64(n).subrange(0, 4));
    assert(b.subrange(at + 4, at + 8) =~= le64(n).subrange(4, 8));
    assert(le64(n).subrange(0, 4) =~= le32(lo));
    assert(le64(n).subrange(4, 8) =~= le32(hi));
    lemma_le32_round_trip(lo, b, at);
    lemma_le32_round_trip(hi, b, at + 4);
}

pub proof fn lemma_le64_canonical(b: Seq<u8>, at: int)
    requires
        0 <= at,
        at + 8 <= b.len(),
    ensures
        le64(le64_at(b, at)) == b.subrange(at, at + 8),
{
    let lo = le32_at(b, at);
    let hi = le32_at(b, at + 4);
    let n = le64_at(b, at);
    assert(n as int == lo as int + hi as int * 0x1_0000_0000);
    assert((n % 0x1_0000_0000) as u32 == lo && (n / 0x1_0000_0000) as u32 == hi) by (nonlinear_arith)
        requires
            n as int == lo as int + hi as int * 0x1_0000_0000,
            0 <= lo < 0x1_0000_0000,
    ;
    lemma_le32_canonical(b, at);
    lemma_le32_canonical(b, at + 4);
    assert(le64(n) =~= b.subrange(at, at + 8));
}

/// Appends the little-endian bytes of `n`.
pub fn push_u32_le(out: &mut Vec<u8>, n: u32)
    ensures
        final(out)@ == old(out)@ + le32(n),
{
    out.push((n % 0x100) as u8);
    out.push(((n / 0x100) % 0x100) as u8);
    out.push(((n / 0x10000) % 0x100) as u8);
    out.push(((n / 0x1000000) % 0x100) as u8);
    assert(final(out)@ =~= old(out)@ + le32(n));
}

/// Appends the little-endian bytes of `n`.
pub fn push_u64_le(out: &mut Vec<u8>, n: u64)
    ensures
        final(out)@ == old(out)@ + le64(n),
{
    push_u32_le(out, (n % 0x1_0000_0000) as u32);
    push_u32_le(out, (n / 0x1_0000_0000) as u32);
    assert(final(out)@ =~= old(out)@ + le64(n));
}

/// Reads the little-endian number in the four bytes of `b` at `at`.
pub fn read_u32_le(b: &[u8], at: usize) -> (r: u32)
    requires
        at + 4 <= b@.len(),
    ensures
        r == le32_at(b@, at as int),
{
    b[at] as u32 + b[at + 1] as u32 * 0x100 + b[at + 2] as u32 * 0x10000 + b[at + 3] as u32
        * 0x1000000
}

/// Reads the little-endian number in the eight bytes of `b` at `at`.
pub fn read_u64_le(b: &[u8], at: usize) -> (r: u64)
    requires
        at + 8 <= b@.len(),
    ensures
        r == le64_at(b@, at as int),
{
    let _n = b.len();
    read_u32_le(b, at) as u64 + read_u32_le(b, at + 4) as u64 * 0x1_0000_0000
}

/// Appends `bytes` as a token: their length, then the bytes themselves.
pub fn push_token(out: &mut Vec<u8>, bytes: &[u8])
    requires
        bytes@.len() <= u32::MAX,
    ensures
        final(out)@ == old(out)@ + token(bytes@),
{
    push_u32_le(out, bytes.len() as u32);
    let mut i: usize = 0;
    while i < bytes.len()
        invariant
            i <= bytes@.len(),
            out@ == old(out)@ + le32(bytes@.len() as u32) + bytes@.subrange(0, i as int),
        decreases bytes@.len() - i,
    {
        out.push(bytes[i]);
        i += 1;
        assert(out@ =~= old(out)@ + le32(bytes@.len() as u32) + bytes@.subrange(0, i as int));
    }
    assert(bytes@.subrange(0, bytes@.len() as int) =~= bytes@);
    assert(out@ =~= old(out)@ + token(bytes@));
}

/// Copies `len` bytes of `b` from `at` on.
pub fn copy_range(b: &[u8], at: usize, len: usize) -> (r: Vec<u8>)
    requires
        at + len <= b@.len(),
    ensures
        r@ == b@.subrange(at as int, at + len),
{
    let _n = b.len();
    let mut r: Vec<u8> = Vec::with_capacity(len);
    let mut i: usize = 0;
    while i < len
        invariant
            i <= len,
            at + len <= b@.len() <= usize::MAX,
            r@ == b@.subrange(at as int, at + i),
        decreases len - i,
    {
        r.push(b[at + i]);
        i += 1;
        assert(r@ =~= b@.subrange(at as int, at + i));
    }
    r
}

/// The token whose length prefix starts at `pos` in `b`, and the position
/// just past it.
pub open spec fn decode_raw(b: Seq<u8>, pos: int) -> Result<(Seq<u8>, int), DecodeError> {
    if pos + 4 > b.len() {
        Err(DecodeError::Truncated)
    } else if pos + 4 + le32_at(b, pos) > b.len() {
        Err(DecodeError::Truncated)
    } else {
        Ok((b.subrange(pos + 4, pos + 4 + le32_at(b, pos)), pos + 4 + le32_at(b, pos)))
    }
}

/// The text that `bytes` encode in UTF-8.
pub open spec fn text_of(bytes: Seq<u8>) -> Result<Seq<char>, DecodeError> {
    if valid_utf8(bytes) {
        Ok(decode_utf8(bytes))
    } else {
        Err(DecodeError::InvalidUtf8)
    }
}

/// The text token whose length prefix starts at `pos` in `b`, and the
/// position just past it.
pub open spec fn decode_text(b: Seq<u8>, pos: int) -> Result<(Seq<char>, int), DecodeError> {
    match decode_raw(b, pos) {
        Ok((bytes, end)) => match text_of(bytes) {
            Ok(s) => Ok((s, end)),
            Err(e) => Err(e),
        },
        Err(e) => Err(e),
    }
}

/// A text token: the UTF-8 encoding of `s`, with its length before it.
pub open spec fn text_token(s: Seq<char>) -> Seq<u8> {
    token(encode_utf8(s))
}

pub proof fn lemma_raw_round_trip(x: Seq<u8>, b: Seq<u8>, pos: int)
    requires
        0 <= pos,
        x.len() <= u32::MAX,
        pos + 4 + x.len() <= b.len(),
        b.subrange(pos, pos + 4 + x.len()) == token(x),
    ensures
        decode_raw(b, pos) == Ok::<(Seq<u8>, int), DecodeError>((x, pos + 4 + x.len())),
{
    assert(b.subrange(pos, pos + 4) =~= token(x).subrange(0, 4));
    assert(token(x).subrange(0, 4) =~= le32(x.len() as u32));
    lemma_le32_round_trip(x.len() as u32, b, pos);
    assert(b.subrange(pos + 4, pos + 4 + x.len()) =~= token(x).subrange(4, 4 + x.len() as int));
    assert(token(x).subrange(4, 4 + x.len() as int) =~= x);
}

pub proof fn lemma_raw_canonical(b: Seq<u8>, pos: int)
    requires
        0 <= pos,
        decode_raw(b, pos) is Ok,
    ensures
        ({
            let (x, end) = decode_raw(b, pos)->Ok_0;
            &&& x.len() <= u32::MAX
            &&& pos <= end <= b.len()
            &&& end == pos + 4 + x.len()
            &&& b.subrange(pos, end) == token(x)
        }),
{
    let (x, end) = decode_raw(b, pos)->Ok_0;
    lemma_le32_canonical(b, pos);
    assert(b.subrange(pos, end) =~= b.subrange(pos, pos + 4) + x);
}

pub proof fn lemma_text_round_trip(s: Seq<char>, b: Seq<u8>, pos: int)
    requires
        0 <= pos,
        encode_utf8(s).len() <= u32::MAX,
        pos + text_token(s).len() <= b.len(),
        b.subrange(pos, pos + text_token(s).len()) == text_token(s),
    ensures
        decode_text(b, pos) == Ok::<(Seq<char>, int), DecodeError>(
            (s, pos + text_token(s).len()),
        ),
{
    lemma_raw_round_trip(encode_utf8(s), b, pos);
}

pub proof fn lemma_text_canonical(b: Seq<u8>, pos: int)
    requires
        0 <= pos,
        decode_text(b, pos) is Ok,
    ensures
        ({
            let (s, end) = decode_text(b, pos)->Ok_0;
            &&& encode_utf8(s).len() <= u32::MAX
            &&& pos <= end <= b.len()
            &&& end == pos + text_token(s).len()
            &&& b.subrange(pos, end) == text_token(s)
        }),
{
    lemma_raw_canonical(b, pos);
    let (x, end) = decode_raw(b, pos)->Ok_0;
    decode_utf8_encode_utf8(x);
}

/// Reads the token whose length prefix starts at `pos`.
pub fn read_raw(b: &[u8], pos: usize) -> (r: Result<(Vec<u8>, usize), DecodeError>)
    requires
        pos <= b@.len(),
    ensures
        match r {
            Ok((x, end)) => decode_raw(b@, pos as int) == Ok::<(Seq<u8>, int), DecodeError>(
                (x@, end as int),
            ),
            Err(e) => decode_raw(b@, pos as int) == Err::<(Seq<u8>, int), DecodeError>(e),
        },
{
    let n = b.len();
    if n - pos < 4 {
        return Err(DecodeError::Truncated);
    }
    let len = read_u32_le(b, pos) as usize;
    if n - pos - 4 < len {
        return Err(DecodeError::Truncated);
    }
    let x = copy_range(b, pos + 4, len);
    Ok((x, pos + 4 + len))
}

/// Reads the text token whose length prefix starts at `pos`.
pub fn read_text(b: &[u8], pos: usize) -> (r: Result<(String, usize), DecodeError>)
    requires
        pos <= b@.len(),
    ensures
        match r {
            Ok((s, end)) => decode_text(b@, pos as int) == Ok::<(Seq<char>, int), DecodeError>(
                (s@, end as int),
            ),
            Err(e) => decode_text(b@, pos as int) == Err::<(Seq<char>, int), DecodeError>(e),
        },
{
    match read_raw(b, pos) {
        Ok((x, end)) => {
            let ghost xv = x@;
            match string_from_utf8(x) {
                Some(s) => {
                    proof {
                        encode_utf8_decode_utf8(s@);
                    }
                    Ok((s, end))
                },
                None => Err(DecodeError::InvalidUtf8),
            }
        },
        Err(e) => Err(e),
    }
}

/// Whether `a` and `b` hold the same bytes.
pub fn same_bytes(a: &[u8], b: &[u8]) -> (r: bool)
    ensures
        r == (a@ == b@),
{
    if a.len() != b.len() {
        return false;
    }
    let mut i: usize = 0;
    while i < a.len()
        invariant
            a@.len() == b@.len(),
            i <= a@.len(),
            forall|j: int| 0 <= j < i ==> a@[j] == b@[j],
        decreases a@.len() - i,
    {
        if a[i] != b[i] {
            return false;
        }
        i += 1;
    }
    assert(a@ =~= b@);
    true
}

/// Relies on `String::from_utf8`: it accepts exactly the byte vectors that are
/// valid UTF-8, and then returns the string whose encoding they are.
#[verifier::external_body]
pub(crate) fn string_from_utf8(bytes: Vec<u8>) -> (r: Option<String>)
    ensures
        r is Some <==> valid_utf8(bytes@),
        r matches Some(s) ==> encode_utf8(s@) == bytes@,
{
    String::from_utf8(bytes).ok()
}

} // verus!
