//! Shift-JIS text codec shared by the archive directory and the animation
//! format, together with the fixed-width (zero-padded) name-field handling.

use vstd::prelude::*;

verus! {

use vstd::slice::{slice_subrange, slice_to_vec};
use crate::errors::{BuildError, EncodingError};

/// Width in bytes of the fixed name field of an archive directory entry.
pub const NAME_FIELD_WIDTH: usize = 56;

/// What `encoding_rs::SHIFT_JIS.decode` yields on the given bytes: the
/// decoded text, or `None` when a malformed sequence had to be replaced.
pub uninterp spec fn sjis_decode_of(bytes: Seq<u8>) -> Option<Seq<char>>;

/// What `encoding_rs::SHIFT_JIS.encode` yields on the given text: the
/// encoded bytes, or `None` when a character had to be replaced.
pub uninterp spec fn sjis_encode_of(text: Seq<char>) -> Option<Seq<u8>>;

/// The UTF-8 byte-order mark. A byte source beginning with it is sniffed as
/// UTF-8 by the decoder, whatever encoding was asked for.
pub open spec fn utf8_bom() -> Seq<u8> {
    seq![0xefu8, 0xbbu8, 0xbfu8]
}

pub open spec fn has_utf8_bom(bytes: Seq<u8>) -> bool {
    bytes.len() >= 3 && bytes.subrange(0, 3) == utf8_bom()
}

/// Text whose Shift-JIS encoding decodes back to it character for
/// character. Without reporting a replacement, the encoder maps the yen
/// sign (U+00A5) and the overline (U+203E) to the ASCII backslash and
/// tilde bytes, which decode to backslash and tilde, and the minus sign
/// (U+2212) to the pair 0x81 0x7C, which decodes to the fullwidth
/// hyphen-minus (U+FF0D); every other successfully encoded character
/// decodes back.
pub open spec fn sjis_reversible_text(text: Seq<char>) -> bool {
    !text.contains('\u{00A5}') && !text.contains('\u{203E}') && !text.contains('\u{2212}')
}

pub open spec fn zero_free(bytes: Seq<u8>) -> bool {
    forall|i: int| 0 <= i < bytes.len() ==> bytes[i] != 0
}

/// Index of the first zero byte, or the length when there is none.
pub open spec fn first_zero(bytes: Seq<u8>) -> int
    decreases bytes.len(),
{
    if bytes.len() == 0 {
        0
    } else if bytes[0] == 0 {
        0
    } else {
        1 + first_zero(bytes.subrange(1, bytes.len() as int))
    }
}

/// The occupied part of a fixed-width field: the bytes before the first zero.
pub open spec fn trim_at_zero(bytes: Seq<u8>) -> Seq<u8> {
    bytes.take(first_zero(bytes))
}

/// The bytes extended with zero padding up to width `w`.
pub open spec fn pad_to_width(bytes: Seq<u8>, w: int) -> Seq<u8>
    recommends
        bytes.len() <= w,
{
    bytes + Seq::new((w - bytes.len()) as nat, |i: int| 0u8)
}

/// Relies on `encoding_rs::SHIFT_JIS.decode`: the result is a function of
/// the bytes alone, and the returned flag is true exactly when a malformed
/// sequence was replaced.
#[verifier::external_body]
fn sjis_decode_raw(bytes: &[u8]) -> (r: Option<String>)
    ensures
        match r {
            Some(s) => sjis_decode_of(bytes@) == Some(s@),
            None => sjis_decode_of(bytes@) is None,
        },
{
    match encoding_rs::SHIFT_JIS.decode(bytes) {
        (cow, _, false) => Some(cow.into_owned()),
        (_, _, true) => None,
    }
}

/// Relies on `encoding_rs::SHIFT_JIS.encode`: the result is a function of
/// the text alone; a replacement is reported by the returned flag; the
/// encoder emits a zero byte only for U+0000; and decoding the encoder's
/// output restores the input, unless that output begins with a UTF-8
/// byte-order mark (which the decoder sniffs) or the text holds the yen
/// sign, overline or minus sign (which the encoder folds onto bytes of
/// other characters without reporting a replacement).
#[verifier::external_body]
fn sjis_encode_raw(text: &str) -> (r: Option<Vec<u8>>)
    ensures
        match r {
            Some(b) => {
                &&& sjis_encode_of(text@) == Some(b@)
                &&& (b@.contains(0u8) <==> text@.contains('\0'))
                &&& (!has_utf8_bom(b@) && sjis_reversible_text(text@) ==> sjis_decode_of(b@)
                    == Some(text@))
            },
            None => sjis_encode_of(text@) is None,
        },
{
    match encoding_rs::SHIFT_JIS.encode(text) {
        (cow, _, false) => Some(cow.into_owned()),
        (_, _, true) => None,
    }
}

/// Decodes Shift-JIS bytes, failing when the sequence is malformed.
pub fn decode_sjis(bytes: &[u8]) -> (r: Result<String, EncodingError>)
    ensures
        match r {
            Ok(s) => sjis_decode_of(bytes@) == Some(s@),
            Err(e) => sjis_decode_of(bytes@) is None && e == EncodingError::Undecodable,
        },
{
    match sjis_decode_raw(bytes) {
        Some(s) => Ok(s),
        None => Err(EncodingError::Undecodable),
    }
}

/// Encodes text as Shift-JIS, failing when a character has no encoding.
pub fn encode_sjis(text: &str) -> (r: Result<Vec<u8>, EncodingError>)
    ensures
        match r {
            Ok(b) => {
                &&& sjis_encode_of(text@) == Some(b@)
                &&& (b@.contains(0u8) <==> text@.contains('\0'))
                &&& (!has_utf8_bom(b@) && sjis_reversible_text(text@) ==> sjis_decode_of(b@)
                    == Some(text@))
            },
            Err(e) => sjis_encode_of(text@) is None && e == EncodingError::Unencodable,
        },
{
    match sjis_encode_raw(text) {
        Some(b) => Ok(b),
        None => Err(EncodingError::Unencodable),
    }
}

/// Index of the first zero byte of a slice, or its length when none occurs.
pub fn find_first_zero(bytes: &[u8]) -> (r: usize)
    ensures
        r as int == first_zero(bytes@),
        r <= bytes@.len(),
{
    let n = bytes.len();
    let mut i: usize = 0;
    while i < n
        invariant
            0 <= i <= n,
            n == bytes@.len(),
            forall|k: int| 0 <= k < i ==> bytes@[k] != 0,
        decreases n - i,
    {
        if *vstd::slice::slice_index_get(bytes, i) == 0 {
            proof {
                lemma_first_zero_at(bytes@, i as int);
            }
            return i;
        }
        i = i + 1;
    }
    proof {
        lemma_first_zero_at(bytes@, n as int);
    }
    n
}

/// `first_zero` is the position of the first zero: no zero stands before
/// `j`, and `j` is either a zero or the end.
pub proof fn lemma_first_zero_at(bytes: Seq<u8>, j: int)
    requires
        0 <= j <= bytes.len(),
        forall|k: int| 0 <= k < j ==> bytes[k] != 0,
        j < bytes.len() ==> bytes[j] == 0,
    ensures
        first_zero(bytes) == j,
    decreases bytes.len(),
{
    if bytes.len() == 0 {
    } else if j == 0 {
    } else {
        let tail = bytes.subrange(1, bytes.len() as int);
        lemma_first_zero_at(tail, j - 1);
    }
}

/// Padding a zero-free name that leaves room for the terminator, then
/// trimming at the first zero, gives the name back.
pub proof fn lemma_trim_of_padded(name: Seq<u8>, w: int)
    requires
        name.len() < w,
        zero_free(name),
    ensures
        trim_at_zero(pad_to_width(name, w)) == name,
{
    let padded = pad_to_width(name, w);
    lemma_first_zero_at(padded, name.len() as int);
    assert(trim_at_zero(padded) =~= name);
}

/// The occupied bytes of a fixed-width name field, decoded as Shift-JIS.
pub fn decode_name_field(slot: &[u8]) -> (r: Result<String, EncodingError>)
    ensures
        match r {
            Ok(s) => sjis_decode_of(trim_at_zero(slot@)) == Some(s@),
            Err(e) => sjis_decode_of(trim_at_zero(slot@)) is None && e
                == EncodingError::Undecodable,
        },
{
    let cut = find_first_zero(slot);
    let occupied = slice_subrange(slot, 0, cut);
    assert(occupied@ =~= trim_at_zero(slot@));
    decode_sjis(occupied)
}

/// Encodes an entry name for the fixed-width name field: the encoding must
/// leave room for at least one terminator byte. On success the encoded
/// name, once padded to the field width and trimmed at the first zero,
/// decodes back to the original (for names without an embedded NUL, yen
/// sign, overline or minus sign, whose encoding does not begin with a
/// UTF-8 byte-order mark).
pub fn encode_name_field(name: &str) -> (r: Result<Vec<u8>, BuildError>)
    ensures
        match r {
            Ok(b) => {
                &&& sjis_encode_of(name@) == Some(b@)
                &&& b@.len() < NAME_FIELD_WIDTH
                &&& (b@.contains(0u8) <==> name@.contains('\0'))
                &&& (!name@.contains('\0') && sjis_reversible_text(name@) && !has_utf8_bom(b@)
                    ==> sjis_decode_of(
                    trim_at_zero(pad_to_width(b@, NAME_FIELD_WIDTH as int)),
                ) == Some(name@))
            },
            Err(BuildError::NameEncoding) => sjis_encode_of(name@) is None,
            Err(BuildError::NameTooLong) => {
                &&& sjis_encode_of(name@) matches Some(b)
                &&& b.len() >= NAME_FIELD_WIDTH
            },
            Err(_) => false,
        },
{
    match encode_sjis(name) {
        Ok(b) => {
            if b.len() < NAME_FIELD_WIDTH {
                proof {
                    if !name@.contains('\0') && sjis_reversible_text(name@) && !has_utf8_bom(b@) {
                        assert(zero_free(b@)) by {
                            assert forall|i: int| 0 <= i < b@.len() implies b@[i] != 0 by {
                                if b@[i] == 0 {
                                    assert(b@.contains(0u8));
                                }
                            }
                        }
                        lemma_trim_of_padded(b@, NAME_FIELD_WIDTH as int);
                    }
                }
                Ok(b)
            } else {
                Err(BuildError::NameTooLong)
            }
        },
        Err(_) => Err(BuildError::NameEncoding),
    }
}

/// Whether two strings hold the same text.
pub fn str_eq(a: &str, b: &str) -> (r: bool)
    ensures
        r == (a@ == b@),
{
    let ab = a.as_bytes();
    let bb = b.as_bytes();
    proof {
        vstd::utf8::encode_utf8_decode_utf8(a@);
        vstd::utf8::encode_utf8_decode_utf8(b@);
    }
    if ab.len() != bb.len() {
        return false;
    }
    let n = ab.len();
    let mut i: usize = 0;
    while i < n
        invariant
            0 <= i <= n,
            n == ab@.len() == bb@.len(),
            ab@ == vstd::utf8::encode_utf8(a@),
            bb@ == vstd::utf8::encode_utf8(b@),
            vstd::utf8::decode_utf8(ab@) == a@,
            vstd::utf8::decode_utf8(bb@) == b@,
            forall|k: int| 0 <= k < i ==> ab@[k] == bb@[k],
        decreases n - i,
    {
        if *vstd::slice::slice_index_get(ab, i) != *vstd::slice::slice_index_get(bb, i) {
            return false;
        }
        i = i + 1;
    }
    assert(ab@ =~= bb@);
    true
}

/// A name-field slot: the given bytes padded with zeros to the field width.
pub fn pad_name_field(bytes: &[u8]) -> (r: Vec<u8>)
    requires
        bytes@.len() <= NAME_FIELD_WIDTH,
    ensures
        r@ == pad_to_width(bytes@, NAME_FIELD_WIDTH as int),
        r@.len() == NAME_FIELD_WIDTH,
{
    let mut out = slice_to_vec(bytes);
    while out.len() < NAME_FIELD_WIDTH
        invariant
            bytes@.len() <= out@.len() <= NAME_FIELD_WIDTH,
            out@.subrange(0, bytes@.len() as int) == bytes@,
            forall|k: int| bytes@.len() <= k < out@.len() ==> out@[k] == 0,
        decreases NAME_FIELD_WIDTH - out@.len(),
    {
        out.push(0u8);
        assert(out@.subrange(0, bytes@.len() as int) =~= bytes@);
    }
    assert(out@ =~= pad_to_width(bytes@, NAME_FIELD_WIDTH as int));
    out
}

} // verus!
