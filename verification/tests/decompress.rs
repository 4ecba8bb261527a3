use lz4rip::block::{decompress, decompress_into, decompress_into_with_dict, uncompressed_size, DecompressError, Decompressor};
use lz4rip::compress::write_integer;
use lz4rip::decompress::{does_token_fit, read_integer};
use lz4rip::sink::SliceSink;

#[test]
fn check_token() {
    assert!(!does_token_fit(15));
    assert!(does_token_fit(14));
    assert!(does_token_fit(114));
    assert!(!does_token_fit(0b11110000));
    assert!(does_token_fit(0b10110000));
}

#[test]
fn all_literal() {
    assert_eq!(decompress(&[0x30, b'a', b'4', b'9'], 3).unwrap(), b"a49");
}

#[test]
fn incomplete_input() {
    assert!(matches!(decompress(&[], 255), Err(DecompressError::ExpectedAnotherByte)));
    assert!(matches!(decompress(&[0xF0], 255), Err(DecompressError::ExpectedAnotherByte)));
    assert!(matches!(decompress(&[0x0F, 0], 255), Err(DecompressError::ExpectedAnotherByte)));
    assert!(matches!(decompress(&[0x0F, 1, 0], 255), Err(DecompressError::ExpectedAnotherByte)));
}

#[test]
fn offset_oob() {
    assert!(matches!(decompress(&[0x40, b'a', 1, 0], 4), Err(DecompressError::LiteralOutOfBounds)));
    assert!(matches!(
        decompress(&[0x20, b'a', b'a', 1, 0], 1),
        Err(DecompressError::OutputTooSmall { expected: 2, actual: 1 })
    ));
    assert!(matches!(
        decompress(&[0x10, b'a', 1, 0], 4),
        Err(DecompressError::OutputTooSmall { expected: 5, actual: 4 })
    ));
    assert!(matches!(
        decompress(&[0x0E, 255, 0, 0, 0, 0, 0, 0, 0, 0, 0, 0, 0, 0, 0, 0, 0, 0, 0, 0], 256),
        Err(DecompressError::OffsetOutOfBounds)
    ));
    assert!(matches!(
        Decompressor::with_dict(&[0_u8; 250]).decompress(&[0x0E, 255, 0, 0x70, 0, 0, 0, 0, 0, 0, 0], 256,),
        Err(DecompressError::OffsetOutOfBounds)
    ));
    assert!(matches!(
        decompress(&[0x0F, 1, 0, 1, 0x70, 0, 0, 0, 0, 0, 0, 0], 256),
        Err(DecompressError::OffsetOutOfBounds)
    ));
    assert!(matches!(
        decompress(&[0x40, 0, 0, 0, 0, 255, 0, 0x70, 0, 0, 0, 0, 0, 0, 0], 256),
        Err(DecompressError::OffsetOutOfBounds)
    ));
}

#[test]
fn offset_0() {
    assert!(matches!(
        decompress(&[0x0E, 0, 0, 0x70, 0, 0, 0, 0, 0, 0, 0], 256),
        Err(DecompressError::OffsetZero)
    ));
}

#[test]
fn integer_roundtrip() {
    for value in [0, 1, 254, 255, 256, 1000, 65535, 100_000] {
        let mut buf = vec![0u8; value / 255 + 2];
        let mut sink = SliceSink::new(&mut buf, 0);
        write_integer(&mut sink, value);

        let decoded = read_integer(&buf, &mut 0).unwrap();
        assert_eq!(value, decoded);
    }
}

#[test]
fn write_integer_encoding_bytes() {
    let mut buf = vec![0u8; 4];
    let mut sink = SliceSink::new(&mut buf, 0);
    write_integer(&mut sink, 600);
    drop(sink);
    assert_eq!(&buf[..3], &[255, 255, 90]);
}

#[test]
fn read_integer_reports_position_and_errors() {
    let mut pos = 1;
    assert_eq!(read_integer(&[9, 255, 3, 7], &mut pos).unwrap(), 258);
    assert_eq!(pos, 3);
    let mut pos = 0;
    assert_eq!(read_integer(&[255, 255], &mut pos), Err(DecompressError::ExpectedAnotherByte));
}

#[test]
fn match_copies_overlapping_pattern() {
    // Literal "ab", then a match of 6 bytes at offset 2, then literal "z".
    let block = [0x22, b'a', b'b', 2, 0, 0x10, b'z'];
    assert_eq!(decompress(&block, 9).unwrap(), b"abababab".iter().chain(b"z").copied().collect::<Vec<u8>>());
}

#[test]
fn decompress_into_reports_length() {
    let mut out = [0u8; 8];
    let n = decompress_into(&[0x30, b'x', b'y', b'z'], &mut out).unwrap();
    assert_eq!(n, 3);
    assert_eq!(&out[..3], b"xyz");
}

#[test]
fn decompress_into_with_dict_reads_dictionary() {
    // No literals, match of 4 bytes at offset 4 into the dictionary "wxyz",
    // then a final literal.
    let mut out = [0u8; 5];
    let n = decompress_into_with_dict(&[0x00, 4, 0, 0x10, b'!'], &mut out, b"wxyz").unwrap();
    assert_eq!(&out[..n], b"wxyz!");
    assert!(matches!(
        decompress_into(&[0x00, 4, 0, 0x10, b'!'], &mut out),
        Err(DecompressError::OffsetOutOfBounds)
    ));
}

#[test]
fn uncompressed_size_reads_little_endian() {
    let (n, rest) = uncompressed_size(&[1, 2, 0, 0, 9]).unwrap();
    assert_eq!(n, 513);
    assert_eq!(rest, &[9]);
    assert!(matches!(uncompressed_size(&[1, 2, 3]), Err(DecompressError::ExpectedAnotherByte)));
}

#[test]
fn decompress_extends_larger_output() {
    // A larger announced size than the data gives back only the data.
    assert_eq!(decompress(&[0x20, b'o', b'k'], 100).unwrap(), b"ok");
}
