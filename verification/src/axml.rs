//! Patching the binary AndroidManifest.xml (AXML) of the APK template:
//! the string pool is decoded, its strings are replaced and it is encoded
//! again; typed attributes (versionCode, usesCleartextTraffic) get new values.

use vstd::prelude::*;
use vstd::utf8::*;
use crate::replacements::Replacements;

verus! {

broadcast use vstd::utf8::char_is_scalar;

pub const RES_STRING_POOL_TYPE: u16 = 0x0001;

pub const RES_XML_START_ELEMENT_TYPE: u16 = 0x0102;

pub const UTF8_FLAG: u32 = 0x0000_0100;

/// Why a manifest could not be patched.
#[derive(Debug, Clone, Copy, PartialEq, Eq, Structural)]
pub enum AxmlError {
    ManifestTooShort,
    ChunkSizeInvalid,
    PoolHeaderInvalid,
    TooManyStrings,
    OffsetTableInvalid,
    StringDataRangeInvalid,
    StringOffsetTooLarge,
    StringOffsetOutOfRange,
    PoolNotFound,
    StringCountMismatch,
    ElementChunkInvalid,
    AttributeOutOfChunk,
    Utf8LengthInvalid,
    Utf8Truncated,
    Utf8Invalid,
    Utf16LengthInvalid,
    Utf16Truncated,
    Utf16Invalid,
    LengthMissing,
    LengthTruncated,
    StringTooLong,
    U16OutOfRange,
    U32OutOfRange,
    U16WriteOutOfRange,
    U32WriteOutOfRange,
}

// ---------------------------------------------------------------------------
// Little-endian integers
// ---------------------------------------------------------------------------

/// The little-endian `u16` stored at `i`.
pub open spec fn u16_at(s: Seq<u8>, i: int) -> int {
    s[i] as int + 256 * (s[i + 1] as int)
}

/// The little-endian `u32` stored at `i`.
pub open spec fn u32_at(s: Seq<u8>, i: int) -> int {
    s[i] as int + 256 * (s[i + 1] as int) + 65536 * (s[i + 2] as int) + 16777216 * (s[i + 3] as int)
}

/// The two little-endian bytes of `v` (taken modulo 2^16).
pub open spec fn le16(v: int) -> Seq<u8> {
    seq![(v % 256) as u8, ((v / 256) % 256) as u8]
}

/// The four little-endian bytes of `v` (taken modulo 2^32).
pub open spec fn le32(v: int) -> Seq<u8> {
    seq![
        (v % 256) as u8,
        ((v / 256) % 256) as u8,
        ((v / 65536) % 256) as u8,
        ((v / 16777216) % 256) as u8,
    ]
}

/// `s` with the bytes from `at` on overwritten by `part`.
pub open spec fn splice(s: Seq<u8>, at: int, part: Seq<u8>) -> Seq<u8> {
    s.take(at) + part + s.skip(at + part.len())
}

fn get_u16(bytes: &[u8], offset: usize) -> (res: Result<u16, AxmlError>)
    ensures
        match res {
            Ok(v) => offset + 2 <= bytes@.len() && v == u16_at(bytes@, offset as int),
            Err(e) => offset + 2 > bytes@.len() && e == AxmlError::U16OutOfRange,
        },
{
    if offset >= bytes.len() || bytes.len() - offset < 2 {
        return Err(AxmlError::U16OutOfRange);
    }
    let low = bytes[offset] as u16;
    let high = bytes[offset + 1] as u16;
    Ok(low + high * 256)
}

fn get_u32(bytes: &[u8], offset: usize) -> (res: Result<u32, AxmlError>)
    ensures
        match res {
            Ok(v) => offset + 4 <= bytes@.len() && v == u32_at(bytes@, offset as int),
            Err(e) => offset + 4 > bytes@.len() && e == AxmlError::U32OutOfRange,
        },
{
    if offset >= bytes.len() || bytes.len() - offset < 4 {
        return Err(AxmlError::U32OutOfRange);
    }
    let b0 = bytes[offset] as u32;
    let b1 = bytes[offset + 1] as u32;
    let b2 = bytes[offset + 2] as u32;
    let b3 = bytes[offset + 3] as u32;
    Ok(b0 + b1 * 256 + b2 * 65536 + b3 * 16777216)
}

fn put_u16(bytes: &mut [u8], offset: usize, value: u16) -> (res: Result<(), AxmlError>)
    ensures
        match res {
            Ok(()) => offset + 2 <= old(bytes)@.len() && final(bytes)@ == splice(
                old(bytes)@,
                offset as int,
                le16(value as int),
            ),
            Err(e) => offset + 2 > old(bytes)@.len() && e == AxmlError::U16WriteOutOfRange
                && final(bytes)@ == old(bytes)@,
        },
{
    if offset >= bytes.len() || bytes.len() - offset < 2 {
        return Err(AxmlError::U16WriteOutOfRange);
    }
    bytes[offset] = (value % 256) as u8;
    bytes[offset + 1] = (value / 256) as u8;
    assert(bytes@ =~= splice(old(bytes)@, offset as int, le16(value as int)));
    Ok(())
}

fn put_u32(bytes: &mut [u8], offset: usize, value: u32) -> (res: Result<(), AxmlError>)
    ensures
        match res {
            Ok(()) => offset + 4 <= old(bytes)@.len() && final(bytes)@ == splice(
                old(bytes)@,
                offset as int,
                le32(value as int),
            ),
            Err(e) => offset + 4 > old(bytes)@.len() && e == AxmlError::U32WriteOutOfRange
                && final(bytes)@ == old(bytes)@,
        },
{
    if offset >= bytes.len() || bytes.len() - offset < 4 {
        return Err(AxmlError::U32WriteOutOfRange);
    }
    bytes[offset] = (value % 256) as u8;
    bytes[offset + 1] = ((value / 256) % 256) as u8;
    bytes[offset + 2] = ((value / 65536) % 256) as u8;
    bytes[offset + 3] = (value / 16777216) as u8;
    assert(bytes@ =~= splice(old(bytes)@, offset as int, le32(value as int)));
    Ok(())
}

/// Reading back a little-endian `u32` gives what was written.
pub proof fn lemma_le32_round_trip(s: Seq<u8>, at: int, v: u32)
    requires
        0 <= at,
        at + 4 <= s.len(),
    ensures
        splice(s, at, le32(v as int)).len() == s.len(),
        u32_at(splice(s, at, le32(v as int)), at) == v,
{
    let t = splice(s, at, le32(v as int));
    assert(t[at] == le32(v as int)[0]);
    assert(t[at + 1] == le32(v as int)[1]);
    assert(t[at + 2] == le32(v as int)[2]);
    assert(t[at + 3] == le32(v as int)[3]);
}

/// Reading back a little-endian `u16` gives what was written.
pub proof fn lemma_le16_round_trip(s: Seq<u8>, at: int, v: u16)
    requires
        0 <= at,
        at + 2 <= s.len(),
    ensures
        splice(s, at, le16(v as int)).len() == s.len(),
        u16_at(splice(s, at, le16(v as int)), at) == v,
{
    let t = splice(s, at, le16(v as int));
    assert(t[at] == le16(v as int)[0]);
    assert(t[at + 1] == le16(v as int)[1]);
}

// ---------------------------------------------------------------------------
// String lengths
// ---------------------------------------------------------------------------

/// The one- or two-byte length prefix of a UTF-8 pool string.
pub open spec fn length8_bytes(v: int) -> Seq<u8> {
    if v > 0x7f {
        seq![(v / 256 + 0x80) as u8, (v % 256) as u8]
    } else {
        seq![v as u8]
    }
}

/// Decoding a one- or two-byte length prefix: the length and the bytes used.
pub open spec fn spec_decode_length8(s: Seq<u8>) -> Result<(int, int), AxmlError> {
    if s.len() == 0 {
        Err(AxmlError::LengthMissing)
    } else if s[0] < 0x80 {
        Ok((s[0] as int, 1))
    } else if s.len() < 2 {
        Err(AxmlError::LengthTruncated)
    } else {
        Ok(((s[0] - 0x80) * 256 + s[1] as int, 2))
    }
}

/// The two- or four-byte length prefix of a UTF-16 pool string.
pub open spec fn length16_bytes(v: int) -> Seq<u8> {
    if v > 0x7fff {
        le16(v / 65536 + 0x8000) + le16(v % 65536)
    } else {
        le16(v)
    }
}

/// Decoding a two- or four-byte length prefix: the length and the bytes used.
pub open spec fn spec_decode_length16(s: Seq<u8>) -> Result<(int, int), AxmlError> {
    if s.len() < 2 {
        Err(AxmlError::U16OutOfRange)
    } else if u16_at(s, 0) < 0x8000 {
        Ok((u16_at(s, 0), 2))
    } else if s.len() < 4 {
        Err(AxmlError::U16OutOfRange)
    } else {
        Ok(((u16_at(s, 0) - 0x8000) * 65536 + u16_at(s, 2), 4))
    }
}

pub fn decode_length8(bytes: &[u8]) -> (res: Result<(usize, usize), AxmlError>)
    ensures
        match res {
            Ok((v, n)) => spec_decode_length8(bytes@) == Ok::<(int, int), AxmlError>(
                (v as int, n as int),
            ),
            Err(e) => spec_decode_length8(bytes@) == Err::<(int, int), AxmlError>(e),
        },
{
    if bytes.len() == 0 {
        return Err(AxmlError::LengthMissing);
    }
    let first = bytes[0];
    if first < 0x80 {
        Ok((first as usize, 1))
    } else {
        if bytes.len() < 2 {
            return Err(AxmlError::LengthTruncated);
        }
        let second = bytes[1];
        Ok((((first - 0x80) as usize) * 256 + second as usize, 2))
    }
}

pub fn decode_length16(bytes: &[u8]) -> (res: Result<(usize, usize), AxmlError>)
    ensures
        match res {
            Ok((v, n)) => spec_decode_length16(bytes@) == Ok::<(int, int), AxmlError>(
                (v as int, n as int),
            ),
            Err(e) => spec_decode_length16(bytes@) == Err::<(int, int), AxmlError>(e),
        },
{
    let first = get_u16(bytes, 0)?;
    if first < 0x8000 {
        Ok((first as usize, 2))
    } else {
        let second = get_u16(bytes, 2)?;
        let high = (first - 0x8000) as u64;
        let value = high * 65536 + second as u64;
        assert(value <= 0x7fff_ffff);
        Ok((value as usize, 4))
    }
}

pub fn encode_length8(value: usize, out: &mut Vec<u8>) -> (res: Result<(), AxmlError>)
    ensures
        value > 0x7fff ==> res == Err::<(), AxmlError>(AxmlError::StringTooLong) && final(out)@
            == old(out)@,
        value <= 0x7fff ==> res is Ok && final(out)@ == old(out)@ + length8_bytes(value as int),
{
    if value > 0x7fff {
        return Err(AxmlError::StringTooLong);
    }
    if value > 0x7f {
        out.push((value / 256 + 0x80) as u8);
        out.push((value % 256) as u8);
    } else {
        out.push(value as u8);
    }
    assert(out@ =~= old(out)@ + length8_bytes(value as int));
    Ok(())
}

pub fn encode_length16(value: usize, out: &mut Vec<u8>) -> (res: Result<(), AxmlError>)
    ensures
        value > 0x7fff_ffff ==> res == Err::<(), AxmlError>(AxmlError::StringTooLong)
            && final(out)@ == old(out)@,
        value <= 0x7fff_ffff ==> res is Ok && final(out)@ == old(out)@ + length16_bytes(
            value as int,
        ),
{
    if value > 0x7fff_ffff {
        return Err(AxmlError::StringTooLong);
    }
    if value > 0x7fff {
        let high = value / 65536 + 0x8000;
        out.push((high % 256) as u8);
        out.push(((high / 256) % 256) as u8);
    }
    let low = value % 65536;
    out.push((low % 256) as u8);
    out.push(((low / 256) % 256) as u8);
    assert(out@ =~= old(out)@ + length16_bytes(value as int));
    Ok(())
}

/// A length of at most 0x7fff survives its one- or two-byte encoding.
pub proof fn lemma_length8_round_trip(v: int, rest: Seq<u8>)
    requires
        0 <= v <= 0x7fff,
    ensures
        spec_decode_length8(length8_bytes(v) + rest) == Ok::<(int, int), AxmlError>(
            (v, length8_bytes(v).len() as int),
        ),
{
    let s = length8_bytes(v) + rest;
    assert(s[0] == length8_bytes(v)[0]);
    if v > 0x7f {
        assert(s[1] == length8_bytes(v)[1]);
    }
}

/// A length of at most 0x7fffffff survives its two- or four-byte encoding.
pub proof fn lemma_length16_round_trip(v: int, rest: Seq<u8>)
    requires
        0 <= v <= 0x7fff_ffff,
    ensures
        spec_decode_length16(length16_bytes(v) + rest) == Ok::<(int, int), AxmlError>(
            (v, length16_bytes(v).len() as int),
        ),
{
    let s = length16_bytes(v) + rest;
    assert(s[0] == length16_bytes(v)[0]);
    assert(s[1] == length16_bytes(v)[1]);
    if v > 0x7fff {
        assert(s[2] == length16_bytes(v)[2]);
        assert(s[3] == length16_bytes(v)[3]);
    }
}

// ---------------------------------------------------------------------------
// UTF-16
// ---------------------------------------------------------------------------

/// The UTF-16 code units of one character.
pub open spec fn utf16_of_char(c: char) -> Seq<u16> {
    let v = c as u32;
    if v < 0x10000 {
        seq![v as u16]
    } else {
        seq![(0xD800 + (v - 0x10000) / 1024) as u16, (0xDC00 + (v - 0x10000) % 1024) as u16]
    }
}

/// The UTF-16 encoding of a character sequence.
pub open spec fn encode_utf16(chars: Seq<char>) -> Seq<u16>
    decreases chars.len(),
{
    if chars.len() == 0 {
        seq![]
    } else {
        utf16_of_char(chars[0]) + encode_utf16(chars.drop_first())
    }
}

/// The characters whose UTF-16 encoding is `units`, if there are any.
pub open spec fn decode_utf16(units: Seq<u16>) -> Option<Seq<char>> {
    if exists|c: Seq<char>| encode_utf16(c) == units {
        Some(choose|c: Seq<char>| encode_utf16(c) == units)
    } else {
        None
    }
}

pub proof fn lemma_encode_utf16_concat(a: Seq<char>, b: Seq<char>)
    ensures
        encode_utf16(a + b) == encode_utf16(a) + encode_utf16(b),
    decreases a.len(),
{
    if a.len() == 0 {
        assert(a + b =~= b);
    } else {
        assert((a + b).drop_first() =~= a.drop_first() + b);
        lemma_encode_utf16_concat(a.drop_first(), b);
        assert(encode_utf16(a + b) =~= encode_utf16(a) + encode_utf16(b));
    }
}

pub proof fn lemma_encode_utf16_one(c: char)
    ensures
        encode_utf16(seq![c]) == utf16_of_char(c),
{
    let s = seq![c];
    assert(s.drop_first() =~= Seq::<char>::empty());
    assert(encode_utf16(s.drop_first()) == Seq::<u16>::empty());
    assert(s[0] == c);
    assert(encode_utf16(s) =~= utf16_of_char(c));
}

/// Different character sequences have different UTF-16 encodings.
pub proof fn lemma_encode_utf16_injective(a: Seq<char>, b: Seq<char>)
    requires
        encode_utf16(a) == encode_utf16(b),
    ensures
        a == b,
    decreases a.len(),
{
    if a.len() == 0 {
        if b.len() != 0 {
            assert(encode_utf16(b).len() > 0);
        }
        assert(a =~= b);
    } else {
        if b.len() == 0 {
            assert(encode_utf16(a).len() > 0);
        }
        let ea = encode_utf16(a);
        let va = a[0] as u32;
        let vb = b[0] as u32;
        vstd::utf8::char_is_scalar(a[0]);
        vstd::utf8::char_is_scalar(b[0]);
        let ua = utf16_of_char(a[0]);
        let ub = utf16_of_char(b[0]);
        assert(ea[0] == ua[0]);
        assert(ea[0] == ub[0]);
        if va < 0x10000 && vb >= 0x10000 {
            assert(false);
        }
        if va >= 0x10000 && vb < 0x10000 {
            assert(false);
        }
        if va >= 0x10000 {
            assert(ea[1] == ua[1]);
            assert(ea[1] == ub[1]);
            assert((va - 0x10000) / 1024 == (vb - 0x10000) / 1024);
            assert((va - 0x10000) % 1024 == (vb - 0x10000) % 1024);
            assert(va == vb);
        } else {
            assert(va == vb);
        }
        vstd::utf8::char_u32_cast(a[0], va);
        vstd::utf8::char_u32_cast(b[0], vb);
        assert(a[0] == b[0]);
        assert(ua == ub);
        assert(encode_utf16(a.drop_first()) =~= ea.skip(ua.len() as int));
        assert(encode_utf16(b.drop_first()) =~= ea.skip(ub.len() as int));
        lemma_encode_utf16_injective(a.drop_first(), b.drop_first());
        assert(a =~= seq![a[0]] + a.drop_first());
        assert(b =~= seq![b[0]] + b.drop_first());
    }
}

/// Decoding undoes encoding.
pub proof fn lemma_decode_utf16_encode(c: Seq<char>)
    ensures
        decode_utf16(encode_utf16(c)) == Some(c),
{
    let units = encode_utf16(c);
    assert(exists|d: Seq<char>| encode_utf16(d) == units);
    let d = choose|d: Seq<char>| encode_utf16(d) == units;
    lemma_encode_utf16_injective(c, d);
}

#[verifier::external_type_specification]
#[verifier::external_body]
pub struct ExFromUtf16Error(std::string::FromUtf16Error);

#[verifier::external_type_specification]
#[verifier::external_body]
pub struct ExUtf8Error(core::str::Utf8Error);

/// `String::from_utf16` succeeds exactly on the UTF-16 encodings of
/// character sequences, and then returns that sequence.
pub assume_specification[ std::string::String::from_utf16 ](v: &[u16]) -> (res: Result<
    String,
    std::string::FromUtf16Error,
>)
    ensures
        res matches Ok(s) ==> encode_utf16(s@) == v@,
        res is Err ==> forall|c: Seq<char>| #[trigger] encode_utf16(c) != v@,
;

/// `str::from_utf8` succeeds exactly on valid UTF-8 and then returns the
/// decoded characters.
pub assume_specification<'a>[ core::str::from_utf8 ](v: &'a [u8]) -> (res: Result<
    &'a str,
    core::str::Utf8Error,
>)
    ensures
        res is Ok <==> valid_utf8(v@),
        res matches Ok(s) ==> s@ == decode_utf8(v@),
;

/// The UTF-16 code units of `value`.
pub fn utf16_units(value: &str) -> (units: Vec<u16>)
    ensures
        units@ == encode_utf16(value@),
{
    let mut units: Vec<u16> = Vec::new();
    for c in it: value.chars()
        invariant
            it.seq() == value@,
            units@ == encode_utf16(value@.take(it.index())),
    {
        let ghost i = it.index();
        proof {
            assert(value@.take(i + 1) =~= value@.take(i) + seq![value@[i]]);
            lemma_encode_utf16_concat(value@.take(i), seq![value@[i]]);
            lemma_encode_utf16_one(value@[i]);
        }
        let v = c as u32;
        if v < 0x10000 {
            units.push(v as u16);
        } else {
            let w = v - 0x10000;
            units.push((0xD800 + w / 1024) as u16);
            units.push((0xDC00 + w % 1024) as u16);
        }
        assert(units@ =~= encode_utf16(value@.take(i + 1)));
    }
    assert(value@.take(value@.len() as int) =~= value@);
    units
}

// ---------------------------------------------------------------------------
// Pool string entries
// ---------------------------------------------------------------------------

/// The little-endian bytes of a sequence of UTF-16 code units.
pub open spec fn le16_units(u: Seq<u16>) -> Seq<u8>
    decreases u.len(),
{
    if u.len() == 0 {
        seq![]
    } else {
        le16_units(u.drop_last()) + le16(u.last() as int)
    }
}

/// The `n` little-endian code units stored from `start` on.
pub open spec fn units_at(s: Seq<u8>, start: int, n: int) -> Seq<u16> {
    Seq::new(n as nat, |k: int| u16_at(s, start + 2 * k) as u16)
}

/// A UTF-8 pool entry: UTF-16 length, byte length, the bytes, a zero byte.
pub open spec fn utf8_entry(s: Seq<char>) -> Option<Seq<u8>> {
    let n16 = encode_utf16(s).len() as int;
    let bytes = encode_utf8(s);
    if n16 > 0x7fff || bytes.len() > 0x7fff {
        None
    } else {
        Some(length8_bytes(n16) + length8_bytes(bytes.len() as int) + bytes + seq![0u8])
    }
}

/// A UTF-16 pool entry: the unit count, the units, a zero unit.
pub open spec fn utf16_entry(s: Seq<char>) -> Option<Seq<u8>> {
    let u = encode_utf16(s);
    if u.len() > 0x7fff_ffff {
        None
    } else {
        Some(length16_bytes(u.len() as int) + le16_units(u) + seq![0u8, 0u8])
    }
}

/// Decoding a UTF-8 pool entry that starts at the beginning of `s`.
pub open spec fn spec_decode_utf8_entry(s: Seq<u8>) -> Result<Seq<char>, AxmlError> {
    match spec_decode_length8(s) {
        Err(e) => Err(e),
        Ok((_, a)) => match spec_decode_length8(s.skip(a)) {
            Err(e) => Err(e),
            Ok((n, b)) => {
                let start = a + b;
                let end = start + n;
                if end >= s.len() || s[end] != 0 {
                    Err(AxmlError::Utf8Truncated)
                } else if !valid_utf8(s.subrange(start, end)) {
                    Err(AxmlError::Utf8Invalid)
                } else {
                    Ok(decode_utf8(s.subrange(start, end)))
                }
            },
        },
    }
}

/// Decoding a UTF-16 pool entry that starts at the beginning of `s`.
pub open spec fn spec_decode_utf16_entry(s: Seq<u8>) -> Result<Seq<char>, AxmlError> {
    match spec_decode_length16(s) {
        Err(e) => Err(e),
        Ok((n, used)) => {
            let end = used + 2 * n;
            if end > usize::MAX {
                Err(AxmlError::Utf16LengthInvalid)
            } else if end + 2 > s.len() {
                Err(AxmlError::Utf16Truncated)
            } else {
                match decode_utf16(units_at(s, used, n)) {
                    Some(c) => Ok(c),
                    None => Err(AxmlError::Utf16Invalid),
                }
            }
        },
    }
}

pub fn encode_utf8_string(value: &str, out: &mut Vec<u8>) -> (res: Result<(), AxmlError>)
    ensures
        match res {
            Ok(()) => utf8_entry(value@) is Some && final(out)@ == old(out)@ + utf8_entry(
                value@,
            ).unwrap(),
            Err(e) => e == AxmlError::StringTooLong && utf8_entry(value@) is None && final(out)@
                == old(out)@ + (if encode_utf16(value@).len() <= 0x7fff {
                length8_bytes(encode_utf16(value@).len() as int)
            } else {
                Seq::<u8>::empty()
            }),
        },
{
    let utf16_len = utf16_units(value).len();
    encode_length8(utf16_len, out)?;
    let ghost mid = out@;
    let bytes = value.as_bytes();
    let byte_len = bytes.len();
    encode_length8(byte_len, out)?;
    out.extend_from_slice(bytes);
    out.push(0);
    assert(out@ =~= old(out)@ + utf8_entry(value@).unwrap());
    Ok(())
}

pub fn encode_utf16_string(value: &str, out: &mut Vec<u8>) -> (res: Result<(), AxmlError>)
    ensures
        match res {
            Ok(()) => utf16_entry(value@) is Some && final(out)@ == old(out)@ + utf16_entry(
                value@,
            ).unwrap(),
            Err(e) => e == AxmlError::StringTooLong && utf16_entry(value@) is None && final(out)@
                == old(out)@,
        },
{
    let units = utf16_units(value);
    encode_length16(units.len(), out)?;
    let ghost prefix = out@;
    let mut i: usize = 0;
    while i < units.len()
        invariant
            i <= units@.len(),
            units@ == encode_utf16(value@),
            out@ == prefix + le16_units(units@.take(i as int)),
        decreases units@.len() - i,
    {
        let unit = units[i];
        out.push((unit % 256) as u8);
        out.push((unit / 256) as u8);
        assert(units@.take(i + 1).drop_last() =~= units@.take(i as int));
        i = i + 1;
        assert(out@ =~= prefix + le16_units(units@.take(i as int)));
    }
    assert(units@.take(units@.len() as int) =~= units@);
    out.push(0);
    out.push(0);
    assert(out@ =~= old(out)@ + utf16_entry(value@).unwrap());
    Ok(())
}

pub fn decode_utf8_string(bytes: &[u8]) -> (res: Result<String, AxmlError>)
    ensures
        match res {
            Ok(s) => spec_decode_utf8_entry(bytes@) == Ok::<Seq<char>, AxmlError>(s@),
            Err(e) => spec_decode_utf8_entry(bytes@) == Err::<Seq<char>, AxmlError>(e),
        },
{
    let (_, a) = decode_length8(bytes)?;
    let rest = &bytes[a..bytes.len()];
    assert(rest@ =~= bytes@.skip(a as int));
    let (byte_len, b) = decode_length8(rest)?;
    let start = a + b;
    let end = start + byte_len;
    if end >= bytes.len() || bytes[end] != 0 {
        return Err(AxmlError::Utf8Truncated);
    }
    match core::str::from_utf8(&bytes[start..end]) {
        Ok(text) => Ok(text.to_owned()),
        Err(_) => Err(AxmlError::Utf8Invalid),
    }
}

pub fn decode_utf16_string(bytes: &[u8]) -> (res: Result<String, AxmlError>)
    ensures
        match res {
            Ok(s) => spec_decode_utf16_entry(bytes@) == Ok::<Seq<char>, AxmlError>(s@),
            Err(e) => spec_decode_utf16_entry(bytes@) == Err::<Seq<char>, AxmlError>(e),
        },
{
    let (unit_len, used) = decode_length16(bytes)?;
    let byte_len = unit_len * 2;
    if used > usize::MAX - byte_len {
        return Err(AxmlError::Utf16LengthInvalid);
    }
    let end = used + byte_len;
    if end > bytes.len() || bytes.len() - end < 2 {
        return Err(AxmlError::Utf16Truncated);
    }
    let mut units: Vec<u16> = Vec::new();
    let mut k: usize = 0;
    while k < unit_len
        invariant
            k <= unit_len,
            end == used + 2 * unit_len,
            end + 2 <= bytes@.len(),
            units@ =~= units_at(bytes@, used as int, k as int),
        decreases unit_len - k,
    {
        let low = bytes[used + 2 * k] as u16;
        let high = bytes[used + 2 * k + 1] as u16;
        units.push(low + high * 256);
        k = k + 1;
    }
    match String::from_utf16(units.as_slice()) {
        Ok(text) => {
            proof {
                lemma_decode_utf16_encode(text@);
            }
            Ok(text)
        },
        Err(_) => {
            assert(decode_utf16(units@) is None);
            Err(AxmlError::Utf16Invalid)
        },
    }
}

// ---------------------------------------------------------------------------
// The string pool chunk
// ---------------------------------------------------------------------------

/// What a string pool chunk holds, and where it stands.
pub struct PoolView {
    pub offset: int,
    pub chunk_size: int,
    pub header_size: int,
    pub string_count: int,
    pub style_count: int,
    pub flags: u32,
    pub strings_start: int,
    pub styles_start: int,
    pub style_offsets: Seq<u32>,
    pub style_data: Seq<u8>,
    pub strings: Seq<Seq<char>>,
}

/// Where a walk over the chunks of a document ends.
pub enum PoolScan {
    Found(PoolView),
    Failed(AxmlError),
    /// The walk meets a chunk of size zero and never ends.
    Endless,
}

/// Decoding one pool string whose offset is `o`.
pub open spec fn spec_decode_pool_string(
    b: Seq<u8>,
    o: int,
    data_start: int,
    data_end: int,
    utf8: bool,
) -> Result<Seq<char>, AxmlError> {
    let start = data_start + o;
    if start > usize::MAX {
        Err(AxmlError::StringOffsetTooLarge)
    } else if start >= data_end {
        Err(AxmlError::StringOffsetOutOfRange)
    } else if utf8 {
        spec_decode_utf8_entry(b.subrange(start, data_end))
    } else {
        spec_decode_utf16_entry(b.subrange(start, data_end))
    }
}

/// Decoding the first `n` pool strings, in order; the first failure wins.
pub open spec fn spec_decode_pool_strings(
    b: Seq<u8>,
    offsets: Seq<int>,
    data_start: int,
    data_end: int,
    utf8: bool,
    n: nat,
) -> Result<Seq<Seq<char>>, AxmlError>
    decreases n,
{
    if n == 0 {
        Ok(Seq::empty())
    } else {
        match spec_decode_pool_strings(b, offsets, data_start, data_end, utf8, (n - 1) as nat) {
            Err(e) => Err(e),
            Ok(prev) => match spec_decode_pool_string(
                b,
                offsets[n - 1],
                data_start,
                data_end,
                utf8,
            ) {
                Err(e) => Err(e),
                Ok(s) => Ok(prev.push(s)),
            },
        }
    }
}

/// Reading the string pool chunk at `off` with header size `hs` and size `cs`.
#[verifier::opaque]
pub open spec fn spec_pool_at(b: Seq<u8>, off: int, hs: int, cs: int) -> PoolScan {
    if hs < 28 {
        PoolScan::Failed(AxmlError::PoolHeaderInvalid)
    } else {
        let sc = u32_at(b, off + 8);
        let stc = u32_at(b, off + 12);
        let flags = u32_at(b, off + 16) as u32;
        let ss = u32_at(b, off + 20);
        let sts = u32_at(b, off + 24);
        let os = off + hs;
        if (sc + stc) * 4 > usize::MAX {
            PoolScan::Failed(AxmlError::TooManyStrings)
        } else if os + (sc + stc) * 4 > off + cs {
            PoolScan::Failed(AxmlError::OffsetTableInvalid)
        } else {
            let data_start = off + ss;
            let data_end = if sts == 0 {
                off + cs
            } else {
                off + sts
            };
            if data_start > data_end || data_end > off + cs {
                PoolScan::Failed(AxmlError::StringDataRangeInvalid)
            } else {
                let offsets = Seq::new(sc as nat, |i: int| u32_at(b, os + 4 * i));
                match spec_decode_pool_strings(
                    b,
                    offsets,
                    data_start,
                    data_end,
                    flags & UTF8_FLAG != 0,
                    sc as nat,
                ) {
                    Err(e) => PoolScan::Failed(e),
                    Ok(strings) => PoolScan::Found(
                        PoolView {
                            offset: off,
                            chunk_size: cs,
                            header_size: hs,
                            string_count: sc,
                            style_count: stc,
                            flags,
                            strings_start: ss,
                            styles_start: sts,
                            style_offsets: Seq::new(
                                stc as nat,
                                |i: int| u32_at(b, os + 4 * (sc + i)) as u32,
                            ),
                            style_data: if sts == 0 {
                                Seq::empty()
                            } else {
                                b.subrange(off + sts, off + cs)
                            },
                            strings,
                        },
                    ),
                }
            }
        }
    }
}

/// Walking the chunks from `off` on until the string pool.
pub open spec fn spec_scan_pool(b: Seq<u8>, off: int) -> PoolScan
    decreases b.len() - off,
{
    if off < 0 || off + 8 > b.len() {
        PoolScan::Failed(AxmlError::PoolNotFound)
    } else {
        let kind = u16_at(b, off);
        let hs = u16_at(b, off + 2);
        let cs = u32_at(b, off + 4);
        if cs < hs || off + cs > b.len() {
            PoolScan::Failed(AxmlError::ChunkSizeInvalid)
        } else if kind == RES_STRING_POOL_TYPE {
            spec_pool_at(b, off, hs, cs)
        } else if cs == 0 {
            PoolScan::Endless
        } else {
            spec_scan_pool(b, off + cs)
        }
    }
}

/// A decoded string pool chunk.
pub struct StringPool {
    pub offset: usize,
    pub chunk_size: usize,
    pub header_size: usize,
    pub string_count: usize,
    pub style_count: usize,
    pub flags: u32,
    pub strings_start: usize,
    pub styles_start: usize,
    pub style_offsets: Vec<u32>,
    pub style_data: Vec<u8>,
    pub strings: Vec<String>,
}

pub open spec fn string_views(v: Seq<String>) -> Seq<Seq<char>> {
    v.map_values(|s: String| s@)
}

impl StringPool {
    pub open spec fn view(&self) -> PoolView {
        PoolView {
            offset: self.offset as int,
            chunk_size: self.chunk_size as int,
            header_size: self.header_size as int,
            string_count: self.string_count as int,
            style_count: self.style_count as int,
            flags: self.flags,
            strings_start: self.strings_start as int,
            styles_start: self.styles_start as int,
            style_offsets: self.style_offsets@,
            style_data: self.style_data@,
            strings: string_views(self.strings@),
        }
    }
}

/// Why a walk over the chunks stopped without a result.
pub enum WalkStop {
    Failed(AxmlError),
    Endless,
}

fn read_u16(bytes: &[u8], offset: usize) -> (v: usize)
    requires
        offset + 2 <= bytes@.len(),
    ensures
        v == u16_at(bytes@, offset as int),
{
    (bytes[offset] as usize) + (bytes[offset + 1] as usize) * 256
}

fn read_u32(bytes: &[u8], offset: usize) -> (v: u32)
    requires
        offset + 4 <= bytes@.len(),
    ensures
        v == u32_at(bytes@, offset as int),
{
    match get_u32(bytes, offset) {
        Ok(v) => v,
        Err(_) => 0,
    }
}

proof fn lemma_pool_strings_err_stays(
    b: Seq<u8>,
    offsets: Seq<int>,
    data_start: int,
    data_end: int,
    utf8: bool,
    n: nat,
    m: nat,
)
    requires
        n <= m,
        spec_decode_pool_strings(b, offsets, data_start, data_end, utf8, n) is Err,
    ensures
        spec_decode_pool_strings(b, offsets, data_start, data_end, utf8, m) == spec_decode_pool_strings(
            b,
            offsets,
            data_start,
            data_end,
            utf8,
            n,
        ),
    decreases m - n,
{
    if n < m {
        lemma_pool_strings_err_stays(b, offsets, data_start, data_end, utf8, n, (m - 1) as nat);
    }
}

fn decode_pool_strings(
    bytes: &[u8],
    offsets: &Vec<usize>,
    data_start: usize,
    data_end: usize,
    utf8: bool,
) -> (res: Result<Vec<String>, AxmlError>)
    requires
        data_start <= data_end <= bytes@.len(),
    ensures
        match res {
            Ok(v) => spec_decode_pool_strings(
                bytes@,
                offsets@.map_values(|o: usize| o as int),
                data_start as int,
                data_end as int,
                utf8,
                offsets@.len(),
            ) == Ok::<Seq<Seq<char>>, AxmlError>(string_views(v@)),
            Err(e) => spec_decode_pool_strings(
                bytes@,
                offsets@.map_values(|o: usize| o as int),
                data_start as int,
                data_end as int,
                utf8,
                offsets@.len(),
            ) == Err::<Seq<Seq<char>>, AxmlError>(e),
        },
{
    let ghost offs = offsets@.map_values(|o: usize| o as int);
    let mut strings: Vec<String> = Vec::new();
    assert(string_views(strings@) =~= Seq::<Seq<char>>::empty());
    let mut i: usize = 0;
    while i < offsets.len()
        invariant
            i <= offsets@.len(),
            data_start <= data_end <= bytes@.len(),
            offs == offsets@.map_values(|o: usize| o as int),
            spec_decode_pool_strings(
                bytes@,
                offs,
                data_start as int,
                data_end as int,
                utf8,
                i as nat,
            ) == Ok::<Seq<Seq<char>>, AxmlError>(string_views(strings@)),
        decreases offsets@.len() - i,
    {
        let o = offsets[i];
        assert(offs[i as int] == o as int);
        if o > usize::MAX - data_start {
            proof {
                lemma_pool_strings_err_stays(bytes@, offs, data_start as int, data_end as int, utf8, (i + 1) as nat, offsets@.len());
            }
            return Err(AxmlError::StringOffsetTooLarge);
        }
        let start = data_start + o;
        if start >= data_end {
            proof {
                lemma_pool_strings_err_stays(bytes@, offs, data_start as int, data_end as int, utf8, (i + 1) as nat, offsets@.len());
            }
            return Err(AxmlError::StringOffsetOutOfRange);
        }
        let slice = &bytes[start..data_end];
        let decoded = if utf8 {
            decode_utf8_string(slice)
        } else {
            decode_utf16_string(slice)
        };
        match decoded {
            Ok(text) => {
                let ghost before = strings@;
                let ghost tv = text@;
                strings.push(text);
                assert(string_views(strings@) =~= string_views(before).push(tv));
            },
            Err(e) => {
                proof {
                    lemma_pool_strings_err_stays(bytes@, offs, data_start as int, data_end as int, utf8, (i + 1) as nat, offsets@.len());
                }
                return Err(e);
            },
        }
        i = i + 1;
    }
    Ok(strings)
}

#[verifier::rlimit(40)]
fn read_pool(bytes: &[u8], off: usize, hs: usize, cs: usize) -> (res: Result<StringPool, AxmlError>)
    requires
        off + 8 <= bytes@.len(),
        off + cs <= bytes@.len(),
        hs <= cs,
    ensures
        match res {
            Ok(p) => spec_pool_at(bytes@, off as int, hs as int, cs as int) == PoolScan::Found(
                p.view(),
            ),
            Err(e) => spec_pool_at(bytes@, off as int, hs as int, cs as int) == PoolScan::Failed(
                e,
            ),
        },
{
    reveal(spec_pool_at);
    if hs < 28 {
        return Err(AxmlError::PoolHeaderInvalid);
    }
    let ghost b = bytes@;
    let n = bytes.len();
    let sc = read_u32(bytes, off + 8) as usize;
    let stc = read_u32(bytes, off + 12) as usize;
    let flags = read_u32(bytes, off + 16);
    let ss = read_u32(bytes, off + 20) as usize;
    let sts = read_u32(bytes, off + 24) as usize;
    let os = off + hs;
    let total: u64 = (sc as u64 + stc as u64) * 4;
    if total > usize::MAX as u64 {
        return Err(AxmlError::TooManyStrings);
    }
    let table = total as usize;
    if table > off + cs - os {
        return Err(AxmlError::OffsetTableInvalid);
    }
    let mut offsets: Vec<usize> = Vec::new();
    let mut i: usize = 0;
    while i < sc
        invariant
            i <= sc,
            os + 4 * (sc + stc) <= off + cs,
            off + cs <= bytes@.len(),
            offsets@.map_values(|o: usize| o as int) =~= Seq::new(
                i as nat,
                |k: int| u32_at(b, os + 4 * k),
            ),
            b == bytes@,
            n == bytes@.len(),
        decreases sc - i,
    {
        let v = read_u32(bytes, os + 4 * i);
        let ghost before = offsets@;
        offsets.push(v as usize);
        assert(offsets@.map_values(|o: usize| o as int) =~= before.map_values(|o: usize| o as int).push(v as int));
        i = i + 1;
    }
    let mut style_offsets: Vec<u32> = Vec::new();
    let mut j: usize = 0;
    while j < stc
        invariant
            j <= stc,
            os + 4 * (sc + stc) <= off + cs,
            off + cs <= bytes@.len(),
            style_offsets@ =~= Seq::new(j as nat, |k: int| u32_at(b, os + 4 * (sc + k)) as u32),
            b == bytes@,
            n == bytes@.len(),
        decreases stc - j,
    {
        let v = read_u32(bytes, os + 4 * (sc + j));
        style_offsets.push(v);
        j = j + 1;
    }
    let data_end_rel = if sts == 0 {
        cs
    } else {
        sts
    };
    if ss > data_end_rel || data_end_rel > cs {
        return Err(AxmlError::StringDataRangeInvalid);
    }
    let data_start = off + ss;
    let data_end = off + data_end_rel;
    let utf8 = flags & UTF8_FLAG != 0;
    let strings = decode_pool_strings(bytes, &offsets, data_start, data_end, utf8)?;
    let style_data = if sts == 0 {
        Vec::new()
    } else {
        vstd::slice::slice_to_vec(&bytes[off + sts..off + cs])
    };
    let pool = StringPool {
        offset: off,
        chunk_size: cs,
        header_size: hs,
        string_count: sc,
        style_count: stc,
        flags,
        strings_start: ss,
        styles_start: sts,
        style_offsets,
        style_data,
        strings,
    };
    assert(pool.view().style_data =~= (if sts == 0 {
        Seq::<u8>::empty()
    } else {
        b.subrange(off + sts, off + cs)
    }));
    Ok(pool)
}

/// Walks the chunks of `bytes` from offset 8 on and decodes the string pool.
pub fn parse_string_pool(bytes: &[u8]) -> (res: Result<StringPool, WalkStop>)
    ensures
        match res {
            Ok(p) => spec_scan_pool(bytes@, 8) == PoolScan::Found(p.view()),
            Err(WalkStop::Failed(e)) => spec_scan_pool(bytes@, 8) == PoolScan::Failed(e),
            Err(WalkStop::Endless) => spec_scan_pool(bytes@, 8) == PoolScan::Endless,
        },
{
    let mut offset: usize = 8;
    while offset <= bytes.len() && bytes.len() - offset >= 8
        invariant
            8 <= offset,
            spec_scan_pool(bytes@, 8) == spec_scan_pool(bytes@, offset as int),
        decreases bytes@.len() - offset,
    {
        let kind = read_u16(bytes, offset);
        let header_size = read_u16(bytes, offset + 2);
        let chunk_size = read_u32(bytes, offset + 4) as usize;
        if chunk_size < header_size || chunk_size > bytes.len() - offset {
            return Err(WalkStop::Failed(AxmlError::ChunkSizeInvalid));
        }
        if kind == RES_STRING_POOL_TYPE as usize {
            return match read_pool(bytes, offset, header_size, chunk_size) {
                Ok(p) => Ok(p),
                Err(e) => Err(WalkStop::Failed(e)),
            };
        }
        if chunk_size == 0 {
            return Err(WalkStop::Endless);
        }
        offset = offset + chunk_size;
    }
    Err(WalkStop::Failed(AxmlError::PoolNotFound))
}

// ---------------------------------------------------------------------------
// Encoding a string pool chunk
// ---------------------------------------------------------------------------

/// The pool entry of one string in the pool's encoding.
pub open spec fn pool_string_entry(s: Seq<char>, utf8: bool) -> Option<Seq<u8>> {
    if utf8 {
        utf8_entry(s)
    } else {
        utf16_entry(s)
    }
}

/// The concatenated entries of `strings` and the offset of each entry.
pub open spec fn spec_encode_entries(strings: Seq<Seq<char>>, utf8: bool) -> Option<(Seq<u8>, Seq<int>)>
    decreases strings.len(),
{
    if strings.len() == 0 {
        Some((Seq::empty(), Seq::empty()))
    } else {
        match spec_encode_entries(strings.drop_last(), utf8) {
            None => None,
            Some((d, o)) => match pool_string_entry(strings.last(), utf8) {
                None => None,
                Some(e) => Some((d + e, o.push(d.len() as int % 0x1_0000_0000))),
            },
        }
    }
}

/// `d` padded with zero bytes to a multiple of four.
pub open spec fn pad4(d: Seq<u8>) -> Seq<u8> {
    d + Seq::new(((4 - d.len() % 4) % 4) as nat, |i: int| 0u8)
}

/// The little-endian bytes of a sequence of 32-bit values.
pub open spec fn le32_seq(s: Seq<int>) -> Seq<u8>
    decreases s.len(),
{
    if s.len() == 0 {
        seq![]
    } else {
        le32_seq(s.drop_last()) + le32(s.last())
    }
}

/// The header of an encoded pool chunk with the given fields.
#[verifier::opaque]
pub open spec fn pool_header_seq(
    hs: int,
    cs: int,
    sc: int,
    stc: int,
    flags: int,
    ss: int,
    sts: int,
) -> Seq<u8> {
    le16(RES_STRING_POOL_TYPE as int) + le16(hs) + le32(cs) + le32(sc) + le32(stc) + le32(flags)
        + le32(ss) + le32(sts) + Seq::new((hs - 28) as nat, |i: int| 0u8)
}

/// The header of the encoding of pool `p`.
pub open spec fn pool_header(p: PoolView, chunk_size: int, strings_start: int, styles_start: int) -> Seq<u8> {
    pool_header_seq(
        p.header_size,
        chunk_size,
        p.string_count,
        p.style_count,
        p.flags as int,
        strings_start,
        styles_start,
    )
}

/// Encoding the pool `p` with its strings replaced by `strings`.
#[verifier::opaque]
pub open spec fn spec_encode_pool(p: PoolView, strings: Seq<Seq<char>>) -> Result<Seq<u8>, AxmlError> {
    if strings.len() != p.string_count {
        Err(AxmlError::StringCountMismatch)
    } else {
        match spec_encode_entries(strings, p.flags & UTF8_FLAG != 0) {
            None => Err(AxmlError::StringTooLong),
            Some((d, offs)) => {
                let data = pad4(d);
                let strings_start = p.header_size + (p.string_count + p.style_count) * 4;
                let styles_start = if p.style_count == 0 {
                    0
                } else {
                    strings_start + data.len()
                };
                let chunk_size = strings_start + data.len() + p.style_data.len();
                Ok(
                    pool_header(p, chunk_size, strings_start, styles_start) + le32_seq(offs)
                        + le32_seq(p.style_offsets.map_values(|v: u32| v as int)) + data
                        + p.style_data,
                )
            },
        }
    }
}

/// What a pool decoded from a document satisfies.
pub open spec fn pool_wf(p: PoolView) -> bool {
    &&& 28 <= p.header_size <= 0xffff
    &&& 0 <= p.string_count <= u32::MAX
    &&& 0 <= p.style_count <= u32::MAX
    &&& p.style_offsets.len() == p.style_count
    &&& p.header_size + (p.string_count + p.style_count) * 4 <= usize::MAX
}

proof fn lemma_encode_entries_err_stays(strings: Seq<Seq<char>>, utf8: bool, n: int)
    requires
        0 <= n <= strings.len(),
        spec_encode_entries(strings.take(n), utf8) is None,
    ensures
        spec_encode_entries(strings, utf8) is None,
    decreases strings.len() - n,
{
    if n < strings.len() {
        assert(strings.take(n + 1).drop_last() =~= strings.take(n));
        lemma_encode_entries_err_stays(strings, utf8, n + 1);
    } else {
        assert(strings.take(n) =~= strings);
    }
}

proof fn lemma_le32_seq_len(s: Seq<int>)
    ensures
        le32_seq(s).len() == 4 * s.len(),
    decreases s.len(),
{
    if s.len() > 0 {
        lemma_le32_seq_len(s.drop_last());
    }
}

proof fn lemma_encode_entries_len(strings: Seq<Seq<char>>, utf8: bool)
    ensures
        spec_encode_entries(strings, utf8) matches Some((d, o)) ==> o.len() == strings.len(),
    decreases strings.len(),
{
    if strings.len() > 0 {
        lemma_encode_entries_len(strings.drop_last(), utf8);
    }
}

fn push_u32_le(out: &mut Vec<u8>, v: u32)
    ensures
        final(out)@ == old(out)@ + le32(v as int),
{
    out.push((v % 256) as u8);
    out.push(((v / 256) % 256) as u8);
    out.push(((v / 65536) % 256) as u8);
    out.push((v / 16777216) as u8);
    assert(out@ =~= old(out)@ + le32(v as int));
}

fn encode_entries(strings: &Vec<String>, utf8: bool) -> (res: Result<(Vec<u8>, Vec<u32>), AxmlError>)
    ensures
        match res {
            Ok((d, o)) => spec_encode_entries(string_views(strings@), utf8) == Some::<
                (Seq<u8>, Seq<int>),
            >((d@, o@.map_values(|v: u32| v as int))),
            Err(e) => e == AxmlError::StringTooLong && spec_encode_entries(
                string_views(strings@),
                utf8,
            ) is None,
        },
{
    let ghost sv = string_views(strings@);
    let mut data: Vec<u8> = Vec::new();
    let mut offsets: Vec<u32> = Vec::new();
    let ghost mut o: Seq<int> = Seq::empty();
    let mut i: usize = 0;
    assert(sv.take(0) =~= Seq::<Seq<char>>::empty());
    assert(offsets@.map_values(|v: u32| v as int) =~= o);
    while i < strings.len()
        invariant
            i <= strings@.len(),
            sv == string_views(strings@),
            sv.len() == strings@.len(),
            spec_encode_entries(sv.take(i as int), utf8) == Some::<(Seq<u8>, Seq<int>)>(
                (data@, o),
            ),
            offsets@.map_values(|v: u32| v as int) == o,
        decreases strings@.len() - i,
    {
        proof {
            assert(sv.take(i + 1).drop_last() =~= sv.take(i as int));
            assert(sv.take(i + 1).last() == strings@[i as int]@);
        }
        let ghost old_data = data@;
        let position = (data.len() as u64 % 0x1_0000_0000) as u32;
        offsets.push(position);
        let text = strings[i].as_str();
        let r = if utf8 {
            encode_utf8_string(text, &mut data)
        } else {
            encode_utf16_string(text, &mut data)
        };
        match r {
            Ok(()) => {},
            Err(e) => {
                proof {
                    assert(pool_string_entry(strings@[i as int]@, utf8) is None);
                    assert(spec_encode_entries(sv.take(i + 1), utf8) is None);
                    lemma_encode_entries_err_stays(sv, utf8, i + 1);
                }
                return Err(e);
            },
        }
        proof {
            o = o.push(old_data.len() as int % 0x1_0000_0000);
            assert(offsets@.map_values(|v: u32| v as int) =~= o);
        }
        i = i + 1;
    }
    assert(sv.take(strings@.len() as int) =~= sv);
    Ok((data, offsets))
}

fn pad_to_four(data: &mut Vec<u8>)
    ensures
        final(data)@ == pad4(old(data)@),
{
    let pad = (4 - data.len() % 4) % 4;
    let mut k: usize = 0;
    while k < pad
        invariant
            k <= pad,
            pad == (4 - old(data)@.len() % 4) % 4,
            data@ =~= old(data)@ + Seq::new(k as nat, |j: int| 0u8),
        decreases pad - k,
    {
        data.push(0);
        k = k + 1;
    }
}

fn push_u32s_le(values: &Vec<u32>, out: &mut Vec<u8>)
    ensures
        final(out)@ == old(out)@ + le32_seq(values@.map_values(|v: u32| v as int)),
{
    let ghost vs = values@.map_values(|v: u32| v as int);
    let mut j: usize = 0;
    while j < values.len()
        invariant
            j <= values@.len(),
            vs == values@.map_values(|v: u32| v as int),
            out@ =~= old(out)@ + le32_seq(vs.take(j as int)),
        decreases values@.len() - j,
    {
        push_u32_le(out, values[j]);
        assert(vs.take(j + 1).drop_last() =~= vs.take(j as int));
        j = j + 1;
    }
    assert(vs.take(values@.len() as int) =~= vs);
}

/// The 28 header bytes of a pool chunk followed by zeros up to the header size.
fn pool_header_bytes(
    header_size: usize,
    chunk_size: u32,
    string_count: u32,
    style_count: u32,
    flags: u32,
    strings_start: u32,
    styles_start: u32,
) -> (out: Vec<u8>)
    requires
        28 <= header_size <= 0xffff,
    ensures
        out@ == pool_header_seq(
            header_size as int,
            chunk_size as int,
            string_count as int,
            style_count as int,
            flags as int,
            strings_start as int,
            styles_start as int,
        ),
{
    let mut out: Vec<u8> = Vec::new();
    let mut k: usize = 0;
    while k < header_size
        invariant
            k <= header_size,
            out@ =~= Seq::new(k as nat, |j: int| 0u8),
        decreases header_size - k,
    {
        out.push(0);
        k = k + 1;
    }
    let _ = put_u16(&mut out, 0, RES_STRING_POOL_TYPE);
    let _ = put_u16(&mut out, 2, header_size as u16);
    let _ = put_u32(&mut out, 4, chunk_size);
    let _ = put_u32(&mut out, 8, string_count);
    let _ = put_u32(&mut out, 12, style_count);
    let _ = put_u32(&mut out, 16, flags);
    let _ = put_u32(&mut out, 20, strings_start);
    let _ = put_u32(&mut out, 24, styles_start);
    reveal(pool_header_seq);
    assert(out@ =~= le16(RES_STRING_POOL_TYPE as int) + le16(header_size as int) + le32(
        chunk_size as int,
    ) + le32(string_count as int) + le32(style_count as int) + le32(flags as int) + le32(
        strings_start as int,
    ) + le32(styles_start as int) + Seq::new((header_size - 28) as nat, |i: int| 0u8));
    out
}

/// The four bytes of a value do not change when it is reduced modulo 2^32.
proof fn lemma_le32_trunc(x: u64)
    ensures
        le32((x % 0x1_0000_0000) as int) == le32(x as int),
{
    let y = x % 0x1_0000_0000;
    assert(y % 256 == x % 256) by (bit_vector)
        requires
            y == x % 0x1_0000_0000,
    ;
    assert((y / 256) % 256 == (x / 256) % 256) by (bit_vector)
        requires
            y == x % 0x1_0000_0000,
    ;
    assert((y / 65536) % 256 == (x / 65536) % 256) by (bit_vector)
        requires
            y == x % 0x1_0000_0000,
    ;
    assert((y / 16777216) % 256 == (x / 16777216) % 256) by (bit_vector)
        requires
            y == x % 0x1_0000_0000,
    ;
    assert(le32(y as int) =~= le32(x as int));
}

fn pool_body(offsets: &Vec<u32>, style_offsets: &Vec<u32>, data: &Vec<u8>, style_data: &Vec<u8>) -> (body: Vec<u8>)
    ensures
        body@ == le32_seq(offsets@.map_values(|v: u32| v as int)) + le32_seq(
            style_offsets@.map_values(|v: u32| v as int),
        ) + data@ + style_data@,
{
    let mut body: Vec<u8> = Vec::new();
    push_u32s_le(offsets, &mut body);
    push_u32s_le(style_offsets, &mut body);
    body.extend_from_slice(data.as_slice());
    body.extend_from_slice(style_data.as_slice());
    assert(body@ =~= le32_seq(offsets@.map_values(|v: u32| v as int)) + le32_seq(
        style_offsets@.map_values(|v: u32| v as int),
    ) + data@ + style_data@);
    body
}

proof fn lemma_encode_pool_ok(
    p: PoolView,
    sv: Seq<Seq<char>>,
    unpadded: Seq<u8>,
    offs: Seq<int>,
    cs: u64,
    ss: u64,
    sts: u64,
)
    requires
        sv.len() == p.string_count,
        spec_encode_entries(sv, p.flags & UTF8_FLAG != 0) == Some::<(Seq<u8>, Seq<int>)>(
            (unpadded, offs),
        ),
        ss == p.header_size + (p.string_count + p.style_count) * 4,
        cs == ss + pad4(unpadded).len() + p.style_data.len(),
        sts == (if p.style_count == 0 {
            0
        } else {
            ss + pad4(unpadded).len()
        }),
    ensures
        spec_encode_pool(p, sv) == Ok::<Seq<u8>, AxmlError>(
            pool_header_seq(
                p.header_size,
                (cs % 0x1_0000_0000) as int,
                p.string_count,
                p.style_count,
                p.flags as int,
                (ss % 0x1_0000_0000) as int,
                (sts % 0x1_0000_0000) as int,
            ) + (le32_seq(offs) + le32_seq(p.style_offsets.map_values(|v: u32| v as int)) + pad4(
                unpadded,
            ) + p.style_data),
        ),
{
    reveal(spec_encode_pool);
    reveal(pool_header_seq);
    lemma_le32_trunc(cs);
    lemma_le32_trunc(ss);
    lemma_le32_trunc(sts);
    let h = pool_header_seq(
        p.header_size,
        (cs % 0x1_0000_0000) as int,
        p.string_count,
        p.style_count,
        p.flags as int,
        (ss % 0x1_0000_0000) as int,
        (sts % 0x1_0000_0000) as int,
    );
    let a = le32_seq(offs);
    let b = le32_seq(p.style_offsets.map_values(|v: u32| v as int));
    let c = pad4(unpadded);
    let d = p.style_data;
    assert(h + a + b + c + d =~= h + (a + b + c + d));
}

/// Encodes the string pool chunk of `pool` with `strings` in place of its
/// strings.
pub fn encode_string_pool(pool: &StringPool, strings: &Vec<String>) -> (res: Result<Vec<u8>, AxmlError>)
    requires
        pool_wf(pool.view()),
    ensures
        match res {
            Ok(v) => spec_encode_pool(pool.view(), string_views(strings@)) == Ok::<
                Seq<u8>,
                AxmlError,
            >(v@),
            Err(e) => spec_encode_pool(pool.view(), string_views(strings@)) == Err::<
                Seq<u8>,
                AxmlError,
            >(e),
        },
{
    reveal(spec_encode_pool);
    reveal(pool_header_seq);
    let ghost p = pool.view();
    if strings.len() != pool.string_count {
        return Err(AxmlError::StringCountMismatch);
    }
    let utf8 = pool.flags & UTF8_FLAG != 0;
    let (mut data, offsets) = encode_entries(strings, utf8)?;
    let ghost unpadded = data@;
    let ghost offs = offsets@.map_values(|v: u32| v as int);
    pad_to_four(&mut data);
    let header_size = pool.header_size;
    let strings_start = header_size + (pool.string_count + pool.style_count) * 4;
    let body = pool_body(&offsets, &pool.style_offsets, &data, &pool.style_data);
    proof {
        lemma_encode_entries_len(string_views(strings@), utf8);
        lemma_le32_seq_len(offs);
        lemma_le32_seq_len(p.style_offsets.map_values(|v: u32| v as int));
    }
    let ghost body_view = le32_seq(offs) + le32_seq(p.style_offsets.map_values(|v: u32| v as int))
        + pad4(unpadded) + p.style_data;
    let mut out = pool_header_bytes(header_size, 0, 0, 0, 0, 0, 0);
    out.extend_from_slice(body.as_slice());
    let chunk_size = out.len();
    assert(chunk_size == strings_start + data@.len() + pool.style_data@.len());
    let styles_start = if pool.style_count == 0 {
        0
    } else {
        strings_start + data.len()
    };
    let mut header = pool_header_bytes(
        header_size,
        (chunk_size as u64 % 0x1_0000_0000) as u32,
        pool.string_count as u32,
        pool.style_count as u32,
        pool.flags,
        (strings_start as u64 % 0x1_0000_0000) as u32,
        (styles_start as u64 % 0x1_0000_0000) as u32,
    );
    header.extend_from_slice(body.as_slice());
    assert(((chunk_size as u64 % 0x1_0000_0000) as u32) as int == (chunk_size as u64 % 0x1_0000_0000) as int);
    assert(((strings_start as u64 % 0x1_0000_0000) as u32) as int == (strings_start as u64 % 0x1_0000_0000) as int);
    assert(((styles_start as u64 % 0x1_0000_0000) as u32) as int == (styles_start as u64 % 0x1_0000_0000) as int);
    assert((pool.string_count as u32) as int == p.string_count);
    assert((pool.style_count as u32) as int == p.style_count);
    assert(data@ == pad4(unpadded));
    assert(body@ == body_view);
    assert(header@ == pool_header_seq(
        p.header_size,
        (chunk_size as u64 % 0x1_0000_0000) as int,
        p.string_count,
        p.style_count,
        p.flags as int,
        (strings_start as u64 % 0x1_0000_0000) as int,
        (styles_start as u64 % 0x1_0000_0000) as int,
    ) + body_view);
    proof {
        lemma_encode_pool_ok(
            p,
            string_views(strings@),
            unpadded,
            offs,
            chunk_size as u64,
            strings_start as u64,
            styles_start as u64,
        );
    }
    Ok(header)
}

// ---------------------------------------------------------------------------
// Typed attributes of start-element chunks
// ---------------------------------------------------------------------------

/// Where a walk that rewrites the document ends: the bytes as they stand then.
pub enum WalkOutcome {
    Done(Seq<u8>),
    Failed(Seq<u8>, AxmlError),
    /// The walk meets a chunk of size zero and never ends.
    Endless,
}

/// Rewriting the `remaining` attributes from `pos` on (each `size` bytes
/// long, inside a chunk that ends at `end`): an attribute whose name index
/// is `target` gets `value` as its typed data.
pub open spec fn spec_patch_attrs(
    b: Seq<u8>,
    pos: int,
    size: int,
    remaining: int,
    end: int,
    target: int,
    value: u32,
) -> Result<Seq<u8>, (Seq<u8>, AxmlError)>
    decreases remaining,
{
    if remaining <= 0 {
        Ok(b)
    } else if pos + 20 > end {
        Err((b, AxmlError::AttributeOutOfChunk))
    } else {
        let b2 = if u32_at(b, pos + 4) == target {
            splice(b, pos + 16, le32(value as int))
        } else {
            b
        };
        spec_patch_attrs(b2, pos + size, size, remaining - 1, end, target, value)
    }
}

pub proof fn lemma_patch_attrs_len(
    b: Seq<u8>,
    pos: int,
    size: int,
    remaining: int,
    end: int,
    target: int,
    value: u32,
)
    requires
        0 <= pos,
        end <= b.len(),
        size >= 0,
    ensures
        match spec_patch_attrs(b, pos, size, remaining, end, target, value) {
            Ok(b2) => b2.len() == b.len(),
            Err((b2, _)) => b2.len() == b.len(),
        },
    decreases remaining,
{
    if remaining > 0 && pos + 20 <= end {
        let b2 = if u32_at(b, pos + 4) == target {
            splice(b, pos + 16, le32(value as int))
        } else {
            b
        };
        lemma_patch_attrs_len(b2, pos + size, size, remaining - 1, end, target, value);
    }
}

/// The attribute rewriting of the chunk at `off`, if it is a start element.
pub open spec fn spec_patch_chunk(
    b: Seq<u8>,
    off: int,
    kind: int,
    hs: int,
    cs: int,
    target: int,
    value: u32,
) -> Result<Seq<u8>, (Seq<u8>, AxmlError)> {
    if kind == RES_XML_START_ELEMENT_TYPE && hs >= 16 && cs >= hs + 20 {
        let ext = off + hs;
        let size = u16_at(b, ext + 10);
        if size >= 20 {
            spec_patch_attrs(
                b,
                ext + u16_at(b, ext + 8),
                size,
                u16_at(b, ext + 12),
                off + cs,
                target,
                value,
            )
        } else {
            Ok(b)
        }
    } else {
        Ok(b)
    }
}

/// Walking the chunks from `off` on and rewriting the typed data of every
/// attribute whose name index is `target`.
pub open spec fn spec_patch_walk(b: Seq<u8>, off: int, target: int, value: u32) -> WalkOutcome
    decreases b.len() - off,
{
    if off < 0 || off + 8 > b.len() {
        WalkOutcome::Done(b)
    } else {
        let kind = u16_at(b, off);
        let hs = u16_at(b, off + 2);
        let cs = u32_at(b, off + 4);
        if cs < hs || off + cs > b.len() {
            WalkOutcome::Failed(b, AxmlError::ElementChunkInvalid)
        } else {
            match spec_patch_chunk(b, off, kind, hs, cs, target, value) {
                Err((b2, e)) => WalkOutcome::Failed(b2, e),
                Ok(b2) => if cs == 0 {
                    WalkOutcome::Endless
                } else {
                    proof {
                        if kind == RES_XML_START_ELEMENT_TYPE && hs >= 16 && cs >= hs + 20 {
                            let ext = off + hs;
                            lemma_patch_attrs_len(
                                b,
                                ext + u16_at(b, ext + 8),
                                u16_at(b, ext + 10),
                                u16_at(b, ext + 12),
                                off + cs,
                                target,
                                value,
                            );
                        }
                    }
                    spec_patch_walk(b2, off + cs, target, value)
                },
            }
        }
    }
}

fn patch_attributes(
    bytes: &mut [u8],
    first_rel: usize,
    ext: usize,
    size: usize,
    count: usize,
    end: usize,
    target: u32,
    value: u32,
) -> (res: Result<(), AxmlError>)
    requires
        ext + 20 <= end <= old(bytes)@.len(),
        size >= 20,
        first_rel <= 0xffff,
        count <= 0xffff,
        size <= 0xffff,
    ensures
        match spec_patch_attrs(
            old(bytes)@,
            (ext + first_rel) as int,
            size as int,
            count as int,
            end as int,
            target as int,
            value,
        ) {
            Ok(b2) => res is Ok && final(bytes)@ == b2,
            Err((b2, e)) => res == Err::<(), AxmlError>(e) && final(bytes)@ == b2,
        },
{
    let mut rel: u64 = first_rel as u64;
    let mut i: usize = 0;
    while i < count
        invariant
            ext + 20 <= end <= bytes@.len(),
            bytes@.len() == old(bytes)@.len(),
            20 <= size <= 0xffff,
            count <= 0xffff,
            first_rel <= 0xffff,
            i <= count,
            rel == first_rel + i * size,
            spec_patch_attrs(
                old(bytes)@,
                (ext + first_rel) as int,
                size as int,
                count as int,
                end as int,
                target as int,
                value,
            ) == spec_patch_attrs(
                bytes@,
                ext + rel,
                size as int,
                count - i,
                end as int,
                target as int,
                value,
            ),
        decreases count - i,
    {
        assert(rel <= 0xffff + 0xffff * 0xffff) by (nonlinear_arith)
            requires
                rel == first_rel + i * size,
                first_rel <= 0xffff,
                i <= 0xffff,
                size <= 0xffff,
        ;
        if rel + 20 > (end - ext) as u64 {
            return Err(AxmlError::AttributeOutOfChunk);
        }
        let attribute = ext + rel as usize;
        let name = read_u32(bytes, attribute + 4);
        if name == target {
            let _ = put_u32(bytes, attribute + 16, value);
        }
        rel = rel + size as u64;
        i = i + 1;
        assert(rel == first_rel + i * size) by (nonlinear_arith)
            requires
                rel == first_rel + (i - 1) * size + size,
        ;
    }
    Ok(())
}

/// Walks the chunks from offset 8 on and writes `value` into the typed data
/// of every attribute whose name index is `target_name_index`.
fn patch_typed_attribute(bytes: &mut [u8], target_name_index: u32, value: u32) -> (res: Result<
    (),
    WalkStop,
>)
    ensures
        match spec_patch_walk(old(bytes)@, 8, target_name_index as int, value) {
            WalkOutcome::Done(b2) => res is Ok && final(bytes)@ == b2,
            WalkOutcome::Failed(b2, e) => res matches Err(WalkStop::Failed(e2)) && e2 == e
                && final(bytes)@ == b2,
            WalkOutcome::Endless => res matches Err(WalkStop::Endless),
        },
{
    let n = bytes.len();
    let mut offset: usize = 8;
    while offset <= bytes.len() && bytes.len() - offset >= 8
        invariant
            8 <= offset,
            bytes@.len() == n,
            n == old(bytes)@.len(),
            spec_patch_walk(old(bytes)@, 8, target_name_index as int, value) == spec_patch_walk(
                bytes@,
                offset as int,
                target_name_index as int,
                value,
            ),
        decreases n - offset,
    {
        let kind = read_u16(bytes, offset);
        let header_size = read_u16(bytes, offset + 2);
        let chunk_size = read_u32(bytes, offset + 4) as usize;
        if chunk_size < header_size || chunk_size > bytes.len() - offset {
            return Err(WalkStop::Failed(AxmlError::ElementChunkInvalid));
        }
        let ghost before = bytes@;
        if kind == RES_XML_START_ELEMENT_TYPE as usize && header_size >= 16 && chunk_size
            >= header_size + 20 {
            let ext = offset + header_size;
            let attribute_start = read_u16(bytes, ext + 8);
            let attribute_size = read_u16(bytes, ext + 10);
            let attribute_count = read_u16(bytes, ext + 12);
            if attribute_size >= 20 {
                proof {
                    lemma_patch_attrs_len(
                        before,
                        ext + attribute_start,
                        attribute_size as int,
                        attribute_count as int,
                        offset + chunk_size,
                        target_name_index as int,
                        value,
                    );
                }
                match patch_attributes(
                    bytes,
                    attribute_start,
                    ext,
                    attribute_size,
                    attribute_count,
                    offset + chunk_size,
                    target_name_index,
                    value,
                ) {
                    Ok(()) => {},
                    Err(e) => {
                        return Err(WalkStop::Failed(e));
                    },
                }
            }
        }
        if chunk_size == 0 {
            return Err(WalkStop::Endless);
        }
        offset = offset + chunk_size;
    }
    Ok(())
}

// ---------------------------------------------------------------------------
// Patching the manifest
// ---------------------------------------------------------------------------

/// The position of the first occurrence of `s` in `strings`.
pub open spec fn index_of(strings: Seq<Seq<char>>, s: Seq<char>) -> Option<int>
    decreases strings.len(),
{
    if strings.len() == 0 {
        None
    } else if strings[0] == s {
        Some(0)
    } else {
        match index_of(strings.drop_first(), s) {
            Some(i) => Some(i + 1),
            None => None,
        }
    }
}

proof fn lemma_index_of_skip(strings: Seq<Seq<char>>, s: Seq<char>, i: int)
    requires
        0 <= i <= strings.len(),
        forall|j: int| 0 <= j < i ==> strings[j] != s,
    ensures
        index_of(strings, s) == match index_of(strings.skip(i), s) {
            Some(k) => Some(k + i),
            None => None::<int>,
        },
    decreases i,
{
    if i == 0 {
        assert(strings.skip(0) =~= strings);
        match index_of(strings, s) {
            Some(k) => {},
            None => {},
        }
    } else {
        let rest = strings.drop_first();
        assert(rest.skip(i - 1) =~= strings.skip(i));
        assert forall|j: int| 0 <= j < i - 1 implies rest[j] != s by {
            assert(rest[j] == strings[j + 1]);
        }
        lemma_index_of_skip(rest, s, i - 1);
    }
}

/// Every string that is a key of `repl` replaced by its value.
pub open spec fn replaced_strings(strings: Seq<Seq<char>>, repl: Map<Seq<char>, Seq<char>>) -> Seq<
    Seq<char>,
> {
    strings.map_values(
        |s: Seq<char>|
            if repl.contains_key(s) {
                repl[s]
            } else {
                s
            },
    )
}

/// The outcome of patching a binary manifest.
pub enum PatchOutcome {
    Patched(Seq<u8>),
    Failed(AxmlError),
    /// One of the chunk walks meets a chunk of size zero and never ends.
    Endless,
}

/// Rewriting the typed data of the attributes named by `index`, if any.
pub open spec fn spec_patch_named(b: Seq<u8>, index: Option<int>, value: u32) -> WalkOutcome {
    match index {
        None => WalkOutcome::Done(b),
        Some(i) => spec_patch_walk(b, 8, i, value),
    }
}

/// The document with the pool chunk of `p` swapped for `pool_bytes` and the
/// total size in the file header brought up to date.
pub open spec fn spec_swap_pool(m: Seq<u8>, p: PoolView, pool_bytes: Seq<u8>) -> Seq<u8> {
    let out = m.take(p.offset) + pool_bytes + m.skip(p.offset + p.chunk_size);
    splice(out, 4, le32(out.len() as int))
}

/// Rewriting versionCode and then usesCleartextTraffic in `out`, where the
/// attribute names are looked up in the original pool strings.
pub open spec fn spec_patch_flags(out: Seq<u8>, strings: Seq<Seq<char>>, vc: u32, allow: bool) -> PatchOutcome {
    match spec_patch_named(out, index_of(strings, "versionCode"@), vc) {
        WalkOutcome::Failed(_, e) => PatchOutcome::Failed(e),
        WalkOutcome::Endless => PatchOutcome::Endless,
        WalkOutcome::Done(out2) => match spec_patch_named(
            out2,
            index_of(strings, "usesCleartextTraffic"@),
            if allow {
                1u32
            } else {
                0u32
            },
        ) {
            WalkOutcome::Failed(_, e) => PatchOutcome::Failed(e),
            WalkOutcome::Endless => PatchOutcome::Endless,
            WalkOutcome::Done(out3) => PatchOutcome::Patched(out3),
        },
    }
}

/// Patching a manifest whose string pool is `p`.
pub open spec fn spec_patch_with_pool(
    m: Seq<u8>,
    p: PoolView,
    repl: Map<Seq<char>, Seq<char>>,
    vc: u32,
    allow: bool,
) -> PatchOutcome {
    match spec_encode_pool(p, replaced_strings(p.strings, repl)) {
        Err(e) => PatchOutcome::Failed(e),
        Ok(pool_bytes) => spec_patch_flags(spec_swap_pool(m, p, pool_bytes), p.strings, vc, allow),
    }
}

/// Patching a binary manifest: the strings of its pool that are keys of
/// `repl` are replaced, then every typed attribute named versionCode gets
/// `vc` and every one named usesCleartextTraffic gets `allow` (1 or 0).
pub open spec fn spec_patch_manifest(
    m: Seq<u8>,
    repl: Map<Seq<char>, Seq<char>>,
    vc: u32,
    allow: bool,
) -> PatchOutcome {
    if m.len() < 8 {
        PatchOutcome::Failed(AxmlError::ManifestTooShort)
    } else {
        match spec_scan_pool(m, 8) {
            PoolScan::Failed(e) => PatchOutcome::Failed(e),
            PoolScan::Endless => PatchOutcome::Endless,
            PoolScan::Found(p) => spec_patch_with_pool(m, p, repl, vc, allow),
        }
    }
}

fn position_of(strings: &Vec<String>, target: &String) -> (res: Option<usize>)
    ensures
        match res {
            Some(i) => index_of(string_views(strings@), target@) == Some(i as int) && i
                < strings@.len(),
            None => index_of(string_views(strings@), target@) is None,
        },
{
    let ghost sv = string_views(strings@);
    let mut i: usize = 0;
    while i < strings.len()
        invariant
            i <= strings@.len(),
            sv == string_views(strings@),
            sv.len() == strings@.len(),
            forall|j: int| 0 <= j < i ==> sv[j] != target@,
        decreases strings@.len() - i,
    {
        assert(sv[i as int] == strings@[i as int]@);
        if strings[i] == *target {
            proof {
                lemma_index_of_skip(sv, target@, i as int);
                assert(sv.skip(i as int)[0] == target@);
            }
            return Some(i);
        }
        i = i + 1;
    }
    proof {
        lemma_index_of_skip(sv, target@, i as int);
        assert(sv.skip(i as int).len() == 0);
    }
    None
}

fn replace_strings(strings: &Vec<String>, replacements: &Replacements) -> (out: Vec<String>)
    ensures
        string_views(out@) == replaced_strings(string_views(strings@), replacements.view()),
{
    let mut out: Vec<String> = Vec::new();
    let mut i: usize = 0;
    while i < strings.len()
        invariant
            i <= strings@.len(),
            string_views(out@) =~= replaced_strings(string_views(strings@), replacements.view()).take(
                i as int,
            ),
        decreases strings@.len() - i,
    {
        let ghost before = out@;
        assert(string_views(strings@)[i as int] == strings@[i as int]@);
        let value = match replacements.get(&strings[i]) {
            Some(replacement) => replacement.clone(),
            None => strings[i].clone(),
        };
        out.push(value);
        assert(string_views(out@) =~= string_views(before).push(value@));
        i = i + 1;
    }
    out
}

fn patch_flags(out: Vec<u8>, strings: &Vec<String>, version_code: u32, allow_cleartext_http: bool) -> (res: Result<Vec<u8>, WalkStop>)
    requires
        strings@.len() <= u32::MAX,
    ensures
        match res {
            Ok(v) => spec_patch_flags(out@, string_views(strings@), version_code, allow_cleartext_http)
                == PatchOutcome::Patched(v@),
            Err(WalkStop::Failed(e)) => spec_patch_flags(
                out@,
                string_views(strings@),
                version_code,
                allow_cleartext_http,
            ) == PatchOutcome::Failed(e),
            Err(WalkStop::Endless) => spec_patch_flags(
                out@,
                string_views(strings@),
                version_code,
                allow_cleartext_http,
            ) == PatchOutcome::Endless,
        },
{
    let version_code_name = String::from_str("versionCode");
    let cleartext_name = String::from_str("usesCleartextTraffic");
    let version_code_index = position_of(strings, &version_code_name);
    let cleartext_index = position_of(strings, &cleartext_name);
    let out = patch_named(out, version_code_index, version_code)?;
    patch_named(
        out,
        cleartext_index,
        if allow_cleartext_http {
            1
        } else {
            0
        },
    )
}

/// Patches the binary manifest, or says that a walk over its chunks would not end.
#[verifier::rlimit(40)]
fn patch_manifest_walk(
    manifest: &[u8],
    replacements: &Replacements,
    version_code: u32,
    allow_cleartext_http: bool,
) -> (res: Result<Vec<u8>, WalkStop>)
    ensures
        match res {
            Ok(v) => spec_patch_manifest(
                manifest@,
                replacements.view(),
                version_code,
                allow_cleartext_http,
            ) == PatchOutcome::Patched(v@),
            Err(WalkStop::Failed(e)) => spec_patch_manifest(
                manifest@,
                replacements.view(),
                version_code,
                allow_cleartext_http,
            ) == PatchOutcome::Failed(e),
            Err(WalkStop::Endless) => spec_patch_manifest(
                manifest@,
                replacements.view(),
                version_code,
                allow_cleartext_http,
            ) == PatchOutcome::Endless,
        },
{
    if manifest.len() < 8 {
        return Err(WalkStop::Failed(AxmlError::ManifestTooShort));
    }
    let pool = parse_string_pool(manifest)?;
    let ghost p = pool.view();
    proof {
        lemma_scan_found_wf(manifest@, 8);
    }
    let strings = replace_strings(&pool.strings, replacements);
    let replacement_pool = match encode_string_pool(&pool, &strings) {
        Ok(v) => v,
        Err(e) => {
            return Err(WalkStop::Failed(e));
        },
    };
    let out = swap_pool(manifest, pool.offset, pool.chunk_size, &replacement_pool);
    assert(out@ == spec_swap_pool(manifest@, p, replacement_pool@));
    patch_flags(out, &pool.strings, version_code, allow_cleartext_http)
}

/// A pool found by the walk satisfies what encoding needs of it.
pub proof fn lemma_scan_found_wf(b: Seq<u8>, off: int)
    requires
        8 <= off,
        b.len() <= usize::MAX,
    ensures
        spec_scan_pool(b, off) matches PoolScan::Found(p) ==> pool_wf(p) && 8 <= p.offset
            && p.offset + p.chunk_size <= b.len() && p.string_count == p.strings.len(),
    decreases b.len() - off,
{
    reveal(spec_pool_at);
    if off >= 0 && off + 8 <= b.len() {
        let cs = u32_at(b, off + 4);
        let hs = u16_at(b, off + 2);
        if cs > 0 && off + cs <= b.len() {
            lemma_scan_found_wf(b, off + cs);
        }
        if hs >= 28 && cs >= hs && off + cs <= b.len() {
            let sc = u32_at(b, off + 8);
            let stc = u32_at(b, off + 12);
            let flags = u32_at(b, off + 16) as u32;
            let ss = u32_at(b, off + 20);
            let sts = u32_at(b, off + 24);
            let os = off + hs;
            let data_start = off + ss;
            let data_end = if sts == 0 {
                off + cs
            } else {
                off + sts
            };
            lemma_pool_strings_len(
                b,
                Seq::new(sc as nat, |i: int| u32_at(b, os + 4 * i)),
                data_start,
                data_end,
                flags & UTF8_FLAG != 0,
                sc as nat,
            );
        }
    }
}

proof fn lemma_pool_strings_len(
    b: Seq<u8>,
    offsets: Seq<int>,
    data_start: int,
    data_end: int,
    utf8: bool,
    n: nat,
)
    ensures
        spec_decode_pool_strings(b, offsets, data_start, data_end, utf8, n) matches Ok(v) ==> v.len()
            == n,
    decreases n,
{
    if n > 0 {
        lemma_pool_strings_len(b, offsets, data_start, data_end, utf8, (n - 1) as nat);
    }
}

fn swap_pool(manifest: &[u8], offset: usize, chunk_size: usize, pool_bytes: &Vec<u8>) -> (out: Vec<
    u8,
>)
    requires
        8 <= offset,
        offset + chunk_size <= manifest@.len(),
    ensures
        out@ == splice(
            manifest@.take(offset as int) + pool_bytes@ + manifest@.skip(offset + chunk_size),
            4,
            le32(
                (manifest@.take(offset as int) + pool_bytes@ + manifest@.skip(
                    offset + chunk_size,
                )).len() as int,
            ),
        ),
{
    let n = manifest.len();
    let mut out: Vec<u8> = Vec::new();
    out.extend_from_slice(&manifest[0..offset]);
    out.extend_from_slice(pool_bytes.as_slice());
    out.extend_from_slice(&manifest[offset + chunk_size..manifest.len()]);
    let ghost joined = out@;
    assert(joined =~= manifest@.take(offset as int) + pool_bytes@ + manifest@.skip(
        offset + chunk_size,
    ));
    let total_size = (out.len() as u64 % 0x1_0000_0000) as u32;
    let _ = put_u32(&mut out, 4, total_size);
    proof {
        lemma_le32_trunc(joined.len() as u64);
    }
    out
}

fn patch_named(bytes: Vec<u8>, index: Option<usize>, value: u32) -> (res: Result<Vec<u8>, WalkStop>)
    requires
        index matches Some(i) ==> i <= u32::MAX,
    ensures
        match spec_patch_named(
            bytes@,
            match index {
                Some(i) => Some(i as int),
                None => None,
            },
            value,
        ) {
            WalkOutcome::Done(b2) => res matches Ok(v) && v@ == b2,
            WalkOutcome::Failed(_, e) => res matches Err(WalkStop::Failed(e2)) && e2 == e,
            WalkOutcome::Endless => res matches Err(WalkStop::Endless),
        },
{
    let mut bytes = bytes;
    match index {
        Some(i) => {
            patch_typed_attribute(&mut bytes, i as u32, value)?;
            Ok(bytes)
        },
        None => Ok(bytes),
    }
}

/// Patches the binary manifest of the APK template: the strings of its pool
/// that are keys of `replacements` are replaced, then the typed data of the
/// attributes named versionCode and usesCleartextTraffic are set.
pub fn patch_manifest(
    manifest: &[u8],
    replacements: &Replacements,
    version_code: u32,
    allow_cleartext_http: bool,
) -> (res: Result<Vec<u8>, AxmlError>)
    requires
        !(spec_patch_manifest(
            manifest@,
            replacements.view(),
            version_code,
            allow_cleartext_http,
        ) is Endless),
    ensures
        match res {
            Ok(v) => spec_patch_manifest(
                manifest@,
                replacements.view(),
                version_code,
                allow_cleartext_http,
            ) == PatchOutcome::Patched(v@),
            Err(e) => spec_patch_manifest(
                manifest@,
                replacements.view(),
                version_code,
                allow_cleartext_http,
            ) == PatchOutcome::Failed(e),
        },
{
    match patch_manifest_walk(manifest, replacements, version_code, allow_cleartext_http) {
        Ok(v) => Ok(v),
        Err(WalkStop::Failed(e)) => Err(e),
        Err(WalkStop::Endless) => {
            assert(false);
            Err(AxmlError::ChunkSizeInvalid)
        },
    }
}

/// Like [`patch_manifest`], for any manifest: `None` where a chunk walk of
/// the patch would meet a chunk of size zero and never end.
pub fn try_patch_manifest(
    manifest: &[u8],
    replacements: &Replacements,
    version_code: u32,
    allow_cleartext_http: bool,
) -> (res: Option<Result<Vec<u8>, AxmlError>>)
    ensures
        match res {
            None => spec_patch_manifest(
                manifest@,
                replacements.view(),
                version_code,
                allow_cleartext_http,
            ) is Endless,
            Some(Ok(v)) => spec_patch_manifest(
                manifest@,
                replacements.view(),
                version_code,
                allow_cleartext_http,
            ) == PatchOutcome::Patched(v@),
            Some(Err(e)) => spec_patch_manifest(
                manifest@,
                replacements.view(),
                version_code,
                allow_cleartext_http,
            ) == PatchOutcome::Failed(e),
        },
{
    match patch_manifest_walk(manifest, replacements, version_code, allow_cleartext_http) {
        Ok(v) => Some(Ok(v)),
        Err(WalkStop::Failed(e)) => Some(Err(e)),
        Err(WalkStop::Endless) => None,
    }
}

// ---------------------------------------------------------------------------
// Pool entries read back
// ---------------------------------------------------------------------------

/// Decoding the UTF-8 pool entry written for `s`, whatever follows it, gives
/// back `s`.
#[verifier::rlimit(40)]
pub proof fn lemma_utf8_entry_round_trip(s: Seq<char>, rest: Seq<u8>)
    requires
        utf8_entry(s) is Some,
    ensures
        spec_decode_utf8_entry(utf8_entry(s).unwrap() + rest) == Ok::<Seq<char>, AxmlError>(s),
{
    let n16 = encode_utf16(s).len() as int;
    let bytes = encode_utf8(s);
    let tail = length8_bytes(bytes.len() as int) + bytes + seq![0u8] + rest;
    let e = utf8_entry(s).unwrap() + rest;
    assert(e =~= length8_bytes(n16) + tail);
    lemma_length8_round_trip(n16, tail);
    let a = length8_bytes(n16).len() as int;
    assert(e.skip(a) =~= tail);
    lemma_length8_round_trip(bytes.len() as int, bytes + seq![0u8] + rest);
    assert(tail =~= length8_bytes(bytes.len() as int) + (bytes + seq![0u8] + rest));
    let b = length8_bytes(bytes.len() as int).len() as int;
    let start = a + b;
    let end = start + bytes.len();
    assert(e.subrange(start, end) =~= bytes);
    assert(e[end] == 0);
    vstd::utf8::encode_utf8_valid_utf8(s);
    vstd::utf8::encode_utf8_decode_utf8(s);
}

proof fn lemma_le16_units(u: Seq<u16>)
    ensures
        le16_units(u).len() == 2 * u.len(),
        forall|k: int|
            0 <= k < u.len() ==> #[trigger] le16_units(u)[2 * k] as int + 256 * (le16_units(
                u,
            )[2 * k + 1] as int) == u[k] as int,
    decreases u.len(),
{
    if u.len() > 0 {
        let p = u.drop_last();
        lemma_le16_units(p);
        let w = le16_units(u);
        assert forall|k: int| 0 <= k < u.len() implies #[trigger] w[2 * k] as int + 256 * (w[2 * k
            + 1] as int) == u[k] as int by {
            if k < p.len() {
                assert(w[2 * k] == le16_units(p)[2 * k]);
                assert(w[2 * k + 1] == le16_units(p)[2 * k + 1]);
                assert(p[k] == u[k]);
            } else {
                let v = u.last() as int;
                assert(w[2 * k] == le16(v)[0]);
                assert(w[2 * k + 1] == le16(v)[1]);
            }
        }
    }
}

/// Decoding the UTF-16 pool entry written for `s`, whatever follows it,
/// gives back `s` (where the entry's length fits in `usize`).
pub proof fn lemma_utf16_entry_round_trip(s: Seq<char>, rest: Seq<u8>)
    requires
        utf16_entry(s) is Some,
        2 * encode_utf16(s).len() + 4 <= usize::MAX,
    ensures
        spec_decode_utf16_entry(utf16_entry(s).unwrap() + rest) == Ok::<Seq<char>, AxmlError>(s),
{
    let u = encode_utf16(s);
    let n = u.len() as int;
    let body = le16_units(u) + seq![0u8, 0u8] + rest;
    let e = utf16_entry(s).unwrap() + rest;
    assert(e =~= length16_bytes(n) + body);
    lemma_length16_round_trip(n, body);
    let used = length16_bytes(n).len() as int;
    lemma_le16_units(u);
    assert(units_at(e, used, n) =~= u) by {
        assert forall|k: int| 0 <= k < n implies #[trigger] units_at(e, used, n)[k] == u[k] by {
            assert(e[used + 2 * k] == le16_units(u)[2 * k]);
            assert(e[used + 2 * k + 1] == le16_units(u)[2 * k + 1]);
            assert(le16_units(u)[2 * k] as int + 256 * (le16_units(u)[2 * k + 1] as int)
                == u[k] as int);
        }
    }
    lemma_decode_utf16_encode(s);
}

/// The number of characters of `s` outside the Basic Multilingual Plane,
/// each of which UTF-16 writes as a surrogate pair.
pub open spec fn supplementary_count(s: Seq<char>) -> nat
    decreases s.len(),
{
    if s.len() == 0 {
        0
    } else {
        (if (s[0] as u32) >= 0x10000 {
            1nat
        } else {
            0nat
        }) + supplementary_count(s.drop_first())
    }
}

/// UTF-16 writes one code unit per character, and a second one for each
/// character outside the Basic Multilingual Plane.
pub proof fn lemma_utf16_length(s: Seq<char>)
    ensures
        encode_utf16(s).len() == s.len() + supplementary_count(s),
    decreases s.len(),
{
    if s.len() > 0 {
        lemma_utf16_length(s.drop_first());
    }
}

/// The two lengths that open a UTF-8 pool entry: reading the first gives
/// the number of UTF-16 code units of the string (one per character, two for
/// a character outside the Basic Multilingual Plane), reading the second,
/// right after it, gives the number of its UTF-8 bytes. An entry is written
/// exactly where both fit in 15 bits.
pub proof fn lemma_utf8_entry_lengths(s: Seq<char>, rest: Seq<u8>)
    ensures
        utf8_entry(s) is Some <==> (s.len() + supplementary_count(s) <= 0x7fff && encode_utf8(s).len()
            <= 0x7fff),
        utf8_entry(s) is Some ==> {
            let e = utf8_entry(s).unwrap() + rest;
            &&& spec_decode_length8(e) is Ok
            &&& spec_decode_length8(e)->Ok_0.0 == s.len() + supplementary_count(s)
            &&& spec_decode_length8(e.skip(spec_decode_length8(e)->Ok_0.1)) is Ok
            &&& spec_decode_length8(e.skip(spec_decode_length8(e)->Ok_0.1))->Ok_0.0 == encode_utf8(
                s,
            ).len()
        },
{
    lemma_utf16_length(s);
    if utf8_entry(s) is Some {
        let n16 = encode_utf16(s).len() as int;
        let bytes = encode_utf8(s);
        let e = utf8_entry(s).unwrap();
        let tail = length8_bytes(bytes.len() as int) + bytes + seq![0u8] + rest;
        assert(e + rest =~= length8_bytes(n16) + tail);
        lemma_length8_round_trip(n16, tail);
        let a = length8_bytes(n16).len() as int;
        assert((e + rest).skip(a) =~= tail);
        lemma_length8_round_trip(bytes.len() as int, bytes + seq![0u8] + rest);
        assert(tail =~= length8_bytes(bytes.len() as int) + (bytes + seq![0u8] + rest));
    }
}

} // verus!
