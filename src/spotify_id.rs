//! The 128-bit catalog identifier and its hex, base-62 and raw forms.

use byteorder::{BigEndian, ByteOrder};
use vstd::prelude::*;
use vstd::arithmetic::power::pow;
use vstd::utf8::is_ascii_chars;
use crate::numeral::{
    all_digits, ascii_bytes, ascii_string, decode_numeral, encode_numeral, lemma_text_shape,
    lemma_text_value, lemma_value_bound, lemma_widths, numeral_text, numeral_value, u128_limit,
};

verus! {

/// Why a textual or raw form could not be read as an identifier.
#[derive(Debug, Clone, Copy, PartialEq, Eq, Structural)]
pub enum IdError {
    /// A character is not a digit of the form's alphabet, or the digits
    /// name a value of 2^128 or more.
    InvalidDigit,
    /// The text is not pure ASCII.
    InvalidEncoding,
    /// The input does not have the form's fixed length.
    InvalidLength,
}

/// An opaque 128-bit catalog identifier.
#[derive(Debug, Clone, Copy, PartialEq, Eq, Hash, Structural)]
pub struct SpotifyId(pub u128);

/// Number of characters of the hex form.
pub const BASE16_WIDTH: usize = 32;

/// Number of characters of the base-62 form.
pub const BASE62_WIDTH: usize = 22;

/// Number of bytes of the raw form.
pub const RAW_WIDTH: usize = 16;

/// What reading `s` as a numeral of `width` digits in base `base` gives.
pub open spec fn decoded(s: Seq<char>, base: int, width: int) -> Result<SpotifyId, IdError> {
    if !is_ascii_chars(s) {
        Err(IdError::InvalidEncoding)
    } else if s.len() != width {
        Err(IdError::InvalidLength)
    } else if !all_digits(ascii_bytes(s), base) || numeral_value(ascii_bytes(s), base)
        >= u128_limit() {
        Err(IdError::InvalidDigit)
    } else {
        Ok(SpotifyId(numeral_value(ascii_bytes(s), base) as u128))
    }
}

/// Value of bytes read as an unsigned integer, most significant byte first.
pub open spec fn be_value(s: Seq<u8>) -> int
    decreases s.len(),
{
    if s.len() == 0 {
        0
    } else {
        be_value(s.drop_last()) * 256 + s.last()
    }
}

/// What reading `b` as a raw identifier gives.
pub open spec fn raw_decoded(b: Seq<u8>) -> Result<SpotifyId, IdError> {
    if b.len() != 16 {
        Err(IdError::InvalidLength)
    } else {
        Ok(SpotifyId(be_value(b) as u128))
    }
}

/// Relies on byteorder's `BigEndian::read_uint128` over 16 bytes: their
/// value, most significant byte first.
#[verifier::external_body]
fn read_be_u128(buf: &[u8]) -> (r: u128)
    requires
        buf@.len() == 16,
    ensures
        r as int == be_value(buf@),
{
    BigEndian::read_uint128(buf, 16)
}

/// Relies on byteorder's `BigEndian::write_u128`: the 16 bytes of the value,
/// most significant byte first.
#[verifier::external_body]
fn write_be_u128(n: u128) -> (r: [u8; 16])
    ensures
        r@.len() == 16,
        be_value(r@) == n as int,
{
    let mut buf = [0u8; 16];
    BigEndian::write_u128(&mut buf, n);
    buf
}

/// Reads a text of `width` digits of base `base`.
fn decode_text(id: &str, base: u8, width: usize) -> (r: Result<SpotifyId, IdError>)
    requires
        2 <= base <= 62,
    ensures
        r == decoded(id@, base as int, width as int),
{
    if !id.is_ascii() {
        return Err(IdError::InvalidEncoding);
    }
    let bytes = id.as_bytes();
    proof {
        broadcast use vstd::string::is_ascii_spec_bytes;

        assert(bytes@ =~= ascii_bytes(id@));
    }
    if bytes.len() != width {
        return Err(IdError::InvalidLength);
    }
    match decode_numeral(bytes, base) {
        Some(n) => Ok(SpotifyId(n)),
        None => Err(IdError::InvalidDigit),
    }
}

/// Writes the `width` digits of `n` in base `base` as text.
fn encode_text(n: u128, base: u8, width: usize) -> (r: String)
    requires
        2 <= base <= 62,
    ensures
        r@.len() == width,
        is_ascii_chars(r@),
        ascii_bytes(r@) == numeral_text(n as nat, base as nat, width as nat),
{
    let digits = encode_numeral(n, base, width);
    proof {
        lemma_text_shape(n as nat, base as nat, width as nat);
    }
    ascii_string(digits)
}

impl SpotifyId {
    /// Reads the 32-character lowercase hex form.
    pub fn from_base16(id: &str) -> (r: Result<SpotifyId, IdError>)
        ensures
            r == decoded(id@, 16, 32),
            r == Err::<SpotifyId, IdError>(IdError::InvalidDigit) <==> is_ascii_chars(id@)
                && id@.len() == 32 && !all_digits(ascii_bytes(id@), 16),
    {
        proof {
            lemma_hex_fits(id@);
        }
        decode_text(id, 16, BASE16_WIDTH)
    }

    /// Reads the 22-character base-62 form (`0-9`, then `a-z`, then `A-Z`).
    pub fn from_base62(id: &str) -> (r: Result<SpotifyId, IdError>)
        ensures
            r == decoded(id@, 62, 22),
    {
        decode_text(id, 62, BASE62_WIDTH)
    }

    /// Reads the 16-byte big-endian form.
    pub fn from_raw(data: &[u8]) -> (r: Result<SpotifyId, IdError>)
        ensures
            r == raw_decoded(data@),
    {
        if data.len() != RAW_WIDTH {
            return Err(IdError::InvalidLength);
        }
        Ok(SpotifyId(read_be_u128(data)))
    }

    /// The 32-character lowercase hex form, padded with `0`.
    pub fn to_base16(&self) -> (r: String)
        ensures
            r@.len() == 32,
            is_ascii_chars(r@),
            ascii_bytes(r@) == numeral_text(self.0 as nat, 16, 32),
    {
        encode_text(self.0, 16, BASE16_WIDTH)
    }

    /// The 22-character base-62 form, padded with `0`.
    pub fn to_base62(&self) -> (r: String)
        ensures
            r@.len() == 22,
            is_ascii_chars(r@),
            ascii_bytes(r@) == numeral_text(self.0 as nat, 62, 22),
    {
        encode_text(self.0, 62, BASE62_WIDTH)
    }

    /// The 16-byte big-endian form.
    pub fn to_raw(&self) -> (r: [u8; 16])
        ensures
            r@.len() == 16,
            be_value(r@) == self.0 as int,
    {
        write_be_u128(self.0)
    }
}

/// Thirty-two hex digits always name a 128-bit value.
proof fn lemma_hex_fits(s: Seq<char>)
    ensures
        all_digits(ascii_bytes(s), 16) && s.len() == 32 ==> numeral_value(ascii_bytes(s), 16)
            < u128_limit(),
{
    if all_digits(ascii_bytes(s), 16) && s.len() == 32 {
        lemma_value_bound(ascii_bytes(s), 16);
        lemma_widths();
    }
}

/// A fixed-width numeral wide enough for every identifier reads back as the
/// identifier it was written from.
proof fn lemma_text_round_trip(v: SpotifyId, s: Seq<char>, base: nat, width: nat)
    requires
        2 <= base <= 62,
        u128_limit() <= pow(base as int, width),
        is_ascii_chars(s),
        ascii_bytes(s) == numeral_text(v.0 as nat, base, width),
    ensures
        decoded(s, base as int, width as int) == Ok::<SpotifyId, IdError>(v),
{
    lemma_text_shape(v.0 as nat, base, width);
    lemma_text_value(v.0 as nat, base, width);
    assert(s.len() == ascii_bytes(s).len());
}

/// Reading back the hex form of an identifier gives the identifier.
pub proof fn lemma_base16_round_trip(v: SpotifyId, s: Seq<char>)
    requires
        is_ascii_chars(s),
        ascii_bytes(s) == numeral_text(v.0 as nat, 16, 32),
    ensures
        decoded(s, 16, 32) == Ok::<SpotifyId, IdError>(v),
{
    lemma_widths();
    lemma_text_round_trip(v, s, 16, 32);
}

/// Reading back the base-62 form of an identifier gives the identifier.
pub proof fn lemma_base62_round_trip(v: SpotifyId, s: Seq<char>)
    requires
        is_ascii_chars(s),
        ascii_bytes(s) == numeral_text(v.0 as nat, 62, 22),
    ensures
        decoded(s, 62, 22) == Ok::<SpotifyId, IdError>(v),
{
    lemma_widths();
    lemma_text_round_trip(v, s, 62, 22);
}

/// Reading back the raw form of an identifier gives the identifier.
pub proof fn lemma_raw_round_trip(v: SpotifyId, b: Seq<u8>)
    requires
        b.len() == 16,
        be_value(b) == v.0 as int,
    ensures
        raw_decoded(b) == Ok::<SpotifyId, IdError>(v),
{
}

} // verus!
