use pacarc::errors::{CompressionError, EncodingError};
use pacarc::text::{decode_name_field, decode_sjis, encode_name_field, encode_sjis, pad_name_field};
use pacarc::zlib::{deflate, inflate};

#[test]
fn inflate_deflate_round_trip() {
    let x: Vec<u8> = (0..1000u32).map(|i| (i * 13 % 256) as u8).collect();
    assert_eq!(inflate(&deflate(&x)).unwrap(), x);
    let empty: Vec<u8> = vec![];
    assert_eq!(inflate(&deflate(&empty)).unwrap(), empty);
}

#[test]
fn inflate_rejects_garbage() {
    // Raw, uncompressed bytes are not a zlib stream.
    assert_eq!(
        inflate(&[1, 2, 3, 4, 5]).unwrap_err(),
        CompressionError::Malformed
    );
}

#[test]
fn sjis_encode_produces_sjis_bytes() {
    // Katakana TE is 0x83 0x65 in Shift-JIS, not its UTF-8 bytes.
    assert_eq!(encode_sjis("\u{30C6}").unwrap(), vec![0x83, 0x65]);
    assert_eq!(decode_sjis(&[0x83, 0x65]).unwrap(), "\u{30C6}");
    assert_eq!(decode_sjis(&[0x81]).unwrap_err(), EncodingError::Undecodable);
}

#[test]
fn sjis_irreversible_characters() {
    // The encoder maps these three characters to bytes of other
    // characters without reporting a replacement, so they do not decode
    // back to themselves: yen sign and overline onto plain ASCII, minus
    // sign onto the pair of the fullwidth hyphen-minus.
    assert_eq!(encode_sjis("\u{00A5}").unwrap(), vec![0x5C]);
    assert_eq!(encode_sjis("\u{203E}").unwrap(), vec![0x7E]);
    assert_eq!(encode_sjis("\u{2212}").unwrap(), vec![0x81, 0x7C]);
    assert_eq!(decode_sjis(&[0x5C]).unwrap(), "\\");
    assert_eq!(decode_sjis(&[0x7E]).unwrap(), "~");
    assert_eq!(decode_sjis(&[0x81, 0x7C]).unwrap(), "\u{FF0D}");
}

#[test]
fn name_field_round_trip() {
    let name = "\u{30C6}\u{30B9}\u{30C8}.bmp";
    let enc = encode_name_field(name).unwrap();
    assert!(enc.len() < 56);
    let padded = pad_name_field(&enc);
    assert_eq!(padded.len(), 56);
    assert_eq!(decode_name_field(&padded).unwrap(), name);
}

#[test]
fn name_field_trims_at_first_zero() {
    let mut slot = [0u8; 56];
    slot[0] = b'A';
    slot[1] = b'B';
    // Bytes after the terminator are ignored.
    slot[3] = b'Z';
    assert_eq!(decode_name_field(&slot).unwrap(), "AB");
}
