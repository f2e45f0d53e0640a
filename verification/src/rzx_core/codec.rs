//! Little-endian fixed-width binary encoding used by RZX headers and
//! metadata blocks: integers in little-endian order, `bool` as one byte,
//! `Option` as a tag byte (0 or 1) and the value, enum variants as `u32`
//! indices, byte strings and text as a `u64` length and the bytes (text
//! in UTF-8).
use vstd::prelude::*;
use vstd::bytes::*;
use vstd::utf8::*;
use vstd::slice::{slice_subrange, slice_to_vec};
use crate::rzx_core::text::str_from_utf8;

verus! {

broadcast use vstd::seq_lib::group_seq_properties;

/// Why a byte string is not a valid encoding (or a value has none).
#[derive(Debug, Clone, Copy, PartialEq, Eq, Structural)]
pub enum FormatError {
    /// The input ends before the value does.
    UnexpectedEnd,
    /// A boolean byte other than 0 or 1.
    InvalidBool(u8),
    /// An option tag byte other than 0 or 1.
    InvalidOptionTag(u8),
    /// An enum variant index that names no variant.
    InvalidVariant(u32),
    /// A text field whose bytes are not UTF-8.
    InvalidUtf8,
    /// A time stamp that overflows the system clock's range.
    TimeOverflow,
    /// A time stamp before the Unix epoch, which has no encoding.
    TimeBeforeEpoch,
}

/// Result of decoding a value from the front of a byte string:
/// the value and the number of bytes it took.
pub type Decoded<T> = Result<(T, int), FormatError>;

// ---------------------------------------------------------------- encoding

pub open spec fn enc_u8(v: u8) -> Seq<u8> {
    seq![v]
}

pub open spec fn enc_u16(v: u16) -> Seq<u8> {
    spec_u16_to_le_bytes(v)
}

pub open spec fn enc_u32(v: u32) -> Seq<u8> {
    spec_u32_to_le_bytes(v)
}

pub open spec fn enc_u64(v: u64) -> Seq<u8> {
    spec_u64_to_le_bytes(v)
}

pub open spec fn enc_bool(b: bool) -> Seq<u8> {
    if b {
        seq![1u8]
    } else {
        seq![0u8]
    }
}

/// A byte string: its length as `u64`, then the bytes.
pub open spec fn enc_bytes(s: Seq<u8>) -> Seq<u8> {
    enc_u64(s.len() as u64) + s
}

/// A text: the length of its UTF-8 encoding as `u64`, then that encoding.
pub open spec fn enc_text(s: Seq<char>) -> Seq<u8> {
    enc_bytes(encode_utf8(s))
}

/// The tag byte of an `Option`.
pub open spec fn enc_tag(present: bool) -> Seq<u8> {
    enc_bool(present)
}

// ---------------------------------------------------------------- decoding

pub open spec fn dec_u16(b: Seq<u8>) -> Decoded<u16> {
    if b.len() >= 2 {
        Ok((spec_u16_from_le_bytes(b.take(2)), 2))
    } else {
        Err(FormatError::UnexpectedEnd)
    }
}

pub open spec fn dec_u32(b: Seq<u8>) -> Decoded<u32> {
    if b.len() >= 4 {
        Ok((spec_u32_from_le_bytes(b.take(4)), 4))
    } else {
        Err(FormatError::UnexpectedEnd)
    }
}

pub open spec fn dec_u64(b: Seq<u8>) -> Decoded<u64> {
    if b.len() >= 8 {
        Ok((spec_u64_from_le_bytes(b.take(8)), 8))
    } else {
        Err(FormatError::UnexpectedEnd)
    }
}

pub open spec fn dec_bool(b: Seq<u8>) -> Decoded<bool> {
    if b.len() >= 1 {
        if b[0] == 0 {
            Ok((false, 1))
        } else if b[0] == 1 {
            Ok((true, 1))
        } else {
            Err(FormatError::InvalidBool(b[0]))
        }
    } else {
        Err(FormatError::UnexpectedEnd)
    }
}

/// An `Option` tag: `true` for a present value.
pub open spec fn dec_tag(b: Seq<u8>) -> Decoded<bool> {
    if b.len() >= 1 {
        if b[0] == 0 {
            Ok((false, 1))
        } else if b[0] == 1 {
            Ok((true, 1))
        } else {
            Err(FormatError::InvalidOptionTag(b[0]))
        }
    } else {
        Err(FormatError::UnexpectedEnd)
    }
}

/// `n` raw bytes.
pub open spec fn dec_raw(b: Seq<u8>, n: nat) -> Decoded<Seq<u8>> {
    if b.len() >= n {
        Ok((b.take(n as int), n as int))
    } else {
        Err(FormatError::UnexpectedEnd)
    }
}

pub open spec fn dec_bytes(b: Seq<u8>) -> Decoded<Seq<u8>> {
    match dec_u64(b) {
        Err(e) => Err(e),
        Ok((len, n)) => match dec_raw(b.skip(n), len as nat) {
            Err(e) => Err(e),
            Ok((s, m)) => Ok((s, n + m)),
        },
    }
}

pub open spec fn dec_text(b: Seq<u8>) -> Decoded<Seq<char>> {
    match dec_bytes(b) {
        Err(e) => Err(e),
        Ok((s, n)) => if valid_utf8(s) {
            Ok((decode_utf8(s), n))
        } else {
            Err(FormatError::InvalidUtf8)
        },
    }
}

// ---------------------------------------------------------------- lemmas

/// Skipping a prefix leaves what follows it.
pub proof fn lemma_skip_prefix(a: Seq<u8>, b: Seq<u8>)
    ensures
        (a + b).skip(a.len() as int) == b,
        (a + b).take(a.len() as int) == a,
{
    assert((a + b).skip(a.len() as int) =~= b);
    assert((a + b).take(a.len() as int) =~= a);
}

/// Skipping twice is skipping the sum.
pub proof fn lemma_skip_skip(a: Seq<u8>, n: int, m: int)
    requires
        0 <= n,
        0 <= m,
        n + m <= a.len(),
    ensures
        a.skip(n).skip(m) == a.skip(n + m),
{
    assert(a.skip(n).skip(m) =~= a.skip(n + m));
}

/// Concatenation is associative.
pub proof fn lemma_assoc(a: Seq<u8>, b: Seq<u8>, c: Seq<u8>)
    ensures
        (a + b) + c == a + (b + c),
{
    assert((a + b) + c =~= a + (b + c));
}

/// A `u16` reads back from its encoding.
pub proof fn lemma_u16_roundtrip(v: u16, rest: Seq<u8>)
    ensures
        enc_u16(v).len() == 2,
        dec_u16(enc_u16(v) + rest) == Ok::<(u16, int), FormatError>((v, 2)),
{
    lemma_auto_spec_u16_to_from_le_bytes();
    lemma_skip_prefix(enc_u16(v), rest);
}

/// A `u32` reads back from its encoding.
pub proof fn lemma_u32_roundtrip(v: u32, rest: Seq<u8>)
    ensures
        enc_u32(v).len() == 4,
        dec_u32(enc_u32(v) + rest) == Ok::<(u32, int), FormatError>((v, 4)),
{
    lemma_auto_spec_u32_to_from_le_bytes();
    lemma_skip_prefix(enc_u32(v), rest);
}

/// A `u64` reads back from its encoding.
pub proof fn lemma_u64_roundtrip(v: u64, rest: Seq<u8>)
    ensures
        enc_u64(v).len() == 8,
        dec_u64(enc_u64(v) + rest) == Ok::<(u64, int), FormatError>((v, 8)),
{
    lemma_auto_spec_u64_to_from_le_bytes();
    lemma_skip_prefix(enc_u64(v), rest);
}

/// A `bool` reads back from its encoding.
pub proof fn lemma_bool_roundtrip(v: bool, rest: Seq<u8>)
    ensures
        enc_bool(v).len() == 1,
        dec_bool(enc_bool(v) + rest) == Ok::<(bool, int), FormatError>((v, 1)),
        dec_tag(enc_tag(v) + rest) == Ok::<(bool, int), FormatError>((v, 1)),
{
}

/// Fixed-length bytes read back as they were.
pub proof fn lemma_raw_roundtrip(s: Seq<u8>, rest: Seq<u8>)
    ensures
        dec_raw(s + rest, s.len()) == Ok::<(Seq<u8>, int), FormatError>((s, s.len() as int)),
{
    lemma_skip_prefix(s, rest);
}

/// A byte string reads back from its encoding.
pub proof fn lemma_bytes_roundtrip(s: Seq<u8>, rest: Seq<u8>)
    requires
        s.len() <= u64::MAX,
    ensures
        enc_bytes(s).len() == 8 + s.len(),
        dec_bytes(enc_bytes(s) + rest) == Ok::<(Seq<u8>, int), FormatError>(
            (s, enc_bytes(s).len() as int),
        ),
{
    let l = enc_u64(s.len() as u64);
    lemma_assoc(l, s, rest);
    lemma_u64_roundtrip(s.len() as u64, s + rest);
    lemma_skip_prefix(l, s + rest);
    lemma_raw_roundtrip(s, rest);
}

/// A string reads back from its encoding.
pub proof fn lemma_text_roundtrip(s: Seq<char>, rest: Seq<u8>)
    requires
        encode_utf8(s).len() <= u64::MAX,
    ensures
        enc_text(s).len() == 8 + encode_utf8(s).len(),
        dec_text(enc_text(s) + rest) == Ok::<(Seq<char>, int), FormatError>(
            (s, enc_text(s).len() as int),
        ),
{
    lemma_bytes_roundtrip(encode_utf8(s), rest);
    encode_utf8_valid_utf8(s);
    encode_utf8_decode_utf8(s);
}

// ---------------------------------------------------------------- writing

/// Appends `src` to `out`.
pub fn put_slice(out: &mut Vec<u8>, src: &[u8])
    ensures
        final(out)@ == old(out)@ + src@,
{
    let mut i: usize = 0;
    while i < src.len()
        invariant
            i <= src@.len(),
            out@ == old(out)@ + src@.take(i as int),
        decreases src@.len() - i,
    {
        out.push(src[i]);
        i = i + 1;
        assert(out@ =~= old(out)@ + src@.take(i as int));
    }
    assert(src@.take(src@.len() as int) =~= src@);
}

/// Appends a byte.
pub fn put_u8(out: &mut Vec<u8>, v: u8)
    ensures
        final(out)@ == old(out)@ + enc_u8(v),
{
    out.push(v);
    assert(out@ =~= old(out)@ + enc_u8(v));
}

/// Appends a `u16`, little-endian.
pub fn put_u16(out: &mut Vec<u8>, v: u16)
    ensures
        final(out)@ == old(out)@ + enc_u16(v),
{
    let b = u16_to_le_bytes(v);
    put_slice(out, b.as_slice());
}

/// Appends a `u32`, little-endian.
pub fn put_u32(out: &mut Vec<u8>, v: u32)
    ensures
        final(out)@ == old(out)@ + enc_u32(v),
{
    let b = u32_to_le_bytes(v);
    put_slice(out, b.as_slice());
}

/// Appends a `u64`, little-endian.
pub fn put_u64(out: &mut Vec<u8>, v: u64)
    ensures
        final(out)@ == old(out)@ + enc_u64(v),
{
    let b = u64_to_le_bytes(v);
    put_slice(out, b.as_slice());
}

/// Appends a `bool` as one byte, 0 or 1.
pub fn put_bool(out: &mut Vec<u8>, v: bool)
    ensures
        final(out)@ == old(out)@ + enc_bool(v),
{
    if v {
        put_u8(out, 1);
    } else {
        put_u8(out, 0);
    }
}

/// Appends a byte string: its length as a `u64`, then its bytes.
pub fn put_bytes(out: &mut Vec<u8>, s: &[u8])
    ensures
        final(out)@ == old(out)@ + enc_bytes(s@),
        s@.len() <= u64::MAX,
{
    put_u64(out, s.len() as u64);
    put_slice(out, s);
    proof {
        lemma_assoc(old(out)@, enc_u64(s@.len() as u64), s@);
    }
}

/// Appends a string: its UTF-8 length as a `u64`, then its bytes.
pub fn put_text(out: &mut Vec<u8>, s: &str)
    ensures
        final(out)@ == old(out)@ + enc_text(s@),
        encode_utf8(s@).len() <= u64::MAX,
{
    let b = s.as_bytes();
    assert(b@.len() == b.len());
    put_bytes(out, b);
}

// ---------------------------------------------------------------- reading

/// Decoding result of a reader that starts at `pos` in `buf`: the same
/// value and error as `spec`, with the position after the value.
pub open spec fn read_matches<T>(
    buf: Seq<u8>,
    pos: int,
    spec: Decoded<T>,
    res: Result<(T, usize), FormatError>,
) -> bool {
    match res {
        Ok((v, p)) => spec == Ok::<(T, int), FormatError>((v, p - pos)),
        Err(e) => spec == Err::<(T, int), FormatError>(e),
    }
}

/// Reads a little-endian `u16` at `pos`; gives it and the position after it.
pub fn get_u16(buf: &[u8], pos: usize) -> (res: Result<(u16, usize), FormatError>)
    requires
        pos <= buf@.len(),
    ensures
        read_matches(buf@, pos as int, dec_u16(buf@.skip(pos as int)), res),
        res matches Ok((_, p)) ==> pos < p <= buf@.len(),
{
    if buf.len() - pos >= 2 {
        let s = slice_subrange(buf, pos, pos + 2);
        assert(s@ =~= buf@.skip(pos as int).take(2));
        Ok((u16_from_le_bytes(s), pos + 2))
    } else {
        Err(FormatError::UnexpectedEnd)
    }
}

/// Reads a little-endian `u32` at `pos`; gives it and the position after it.
pub fn get_u32(buf: &[u8], pos: usize) -> (res: Result<(u32, usize), FormatError>)
    requires
        pos <= buf@.len(),
    ensures
        read_matches(buf@, pos as int, dec_u32(buf@.skip(pos as int)), res),
        res matches Ok((_, p)) ==> pos < p <= buf@.len(),
{
    if buf.len() - pos >= 4 {
        let s = slice_subrange(buf, pos, pos + 4);
        assert(s@ =~= buf@.skip(pos as int).take(4));
        Ok((u32_from_le_bytes(s), pos + 4))
    } else {
        Err(FormatError::UnexpectedEnd)
    }
}

/// Reads a little-endian `u64` at `pos`; gives it and the position after it.
pub fn get_u64(buf: &[u8], pos: usize) -> (res: Result<(u64, usize), FormatError>)
    requires
        pos <= buf@.len(),
    ensures
        read_matches(buf@, pos as int, dec_u64(buf@.skip(pos as int)), res),
        res matches Ok((_, p)) ==> pos < p <= buf@.len(),
{
    if buf.len() - pos >= 8 {
        let s = slice_subrange(buf, pos, pos + 8);
        assert(s@ =~= buf@.skip(pos as int).take(8));
        Ok((u64_from_le_bytes(s), pos + 8))
    } else {
        Err(FormatError::UnexpectedEnd)
    }
}

/// Reads a `bool` at `pos`: 0 or 1, any other byte is refused.
pub fn get_bool(buf: &[u8], pos: usize) -> (res: Result<(bool, usize), FormatError>)
    requires
        pos <= buf@.len(),
    ensures
        read_matches(buf@, pos as int, dec_bool(buf@.skip(pos as int)), res),
        res matches Ok((_, p)) ==> pos < p <= buf@.len(),
{
    if buf.len() - pos >= 1 {
        let b = buf[pos];
        if b == 0 {
            Ok((false, pos + 1))
        } else if b == 1 {
            Ok((true, pos + 1))
        } else {
            Err(FormatError::InvalidBool(b))
        }
    } else {
        Err(FormatError::UnexpectedEnd)
    }
}

/// Reads the tag of an option at `pos`: 0 for none, 1 for some.
pub fn get_tag(buf: &[u8], pos: usize) -> (res: Result<(bool, usize), FormatError>)
    requires
        pos <= buf@.len(),
    ensures
        read_matches(buf@, pos as int, dec_tag(buf@.skip(pos as int)), res),
        res matches Ok((_, p)) ==> pos < p <= buf@.len(),
{
    if buf.len() - pos >= 1 {
        let b = buf[pos];
        if b == 0 {
            Ok((false, pos + 1))
        } else if b == 1 {
            Ok((true, pos + 1))
        } else {
            Err(FormatError::InvalidOptionTag(b))
        }
    } else {
        Err(FormatError::UnexpectedEnd)
    }
}

/// `n` raw bytes starting at `pos`.
pub fn get_raw(buf: &[u8], pos: usize, n: u64) -> (res: Result<(Vec<u8>, usize), FormatError>)
    requires
        pos <= buf@.len(),
    ensures
        match res {
            Ok((v, p)) => dec_raw(buf@.skip(pos as int), n as nat) == Ok::<(Seq<u8>, int), FormatError>((v@, p - pos)),
            Err(e) => dec_raw(buf@.skip(pos as int), n as nat) == Err::<(Seq<u8>, int), FormatError>(e),
        },
        res matches Ok((_, p)) ==> pos <= p <= buf@.len(),
{
    if ((buf.len() - pos) as u64) >= n {
        let end = pos + (n as usize);
        let s = slice_subrange(buf, pos, end);
        assert(s@ =~= buf@.skip(pos as int).take(n as int));
        Ok((slice_to_vec(s), end))
    } else {
        Err(FormatError::UnexpectedEnd)
    }
}

/// Reads a length-prefixed byte string at `pos`.
pub fn get_bytes(buf: &[u8], pos: usize) -> (res: Result<(Vec<u8>, usize), FormatError>)
    requires
        pos <= buf@.len(),
    ensures
        match res {
            Ok((v, p)) => dec_bytes(buf@.skip(pos as int)) == Ok::<(Seq<u8>, int), FormatError>((v@, p - pos)),
            Err(e) => dec_bytes(buf@.skip(pos as int)) == Err::<(Seq<u8>, int), FormatError>(e),
        },
        res matches Ok((_, p)) ==> pos < p <= buf@.len(),
{
    let (len, p1) = match get_u64(buf, pos) {
        Ok(x) => x,
        Err(e) => return Err(e),
    };
    proof {
        lemma_skip_skip(buf@, pos as int, p1 - pos);
    }
    match get_raw(buf, p1, len) {
        Ok((v, p2)) => Ok((v, p2)),
        Err(e) => Err(e),
    }
}

/// Reads a length-prefixed UTF-8 string at `pos`.
pub fn get_text(buf: &[u8], pos: usize) -> (res: Result<(String, usize), FormatError>)
    requires
        pos <= buf@.len(),
    ensures
        match res {
            Ok((v, p)) => dec_text(buf@.skip(pos as int)) == Ok::<(Seq<char>, int), FormatError>((v@, p - pos)),
            Err(e) => dec_text(buf@.skip(pos as int)) == Err::<(Seq<char>, int), FormatError>(e),
        },
        res matches Ok((_, p)) ==> pos < p <= buf@.len(),
{
    let (bytes, p) = match get_bytes(buf, pos) {
        Ok(x) => x,
        Err(e) => return Err(e),
    };
    match str_from_utf8(bytes) {
        Some(s) => Ok((s, p)),
        None => Err(FormatError::InvalidUtf8),
    }
}

} // verus!
