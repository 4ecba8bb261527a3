use lz4rip::block::{Compressor, DecompressError, Decompressor};

#[test]
fn api_compressor_decompressor_debug() {
    let comp = Compressor::new();
    let dbg = format!("{comp:?}");
    assert!(dbg.contains("Compressor"), "{dbg}");

    let decomp = Decompressor::with_dict(b"test");
    let dbg = format!("{decomp:?}");
    assert!(dbg.contains("Decompressor"), "{dbg}");
}

#[test]
fn api_error_types_are_clone_eq() {
    let e1 = DecompressError::OffsetZero;
    let e2 = e1.clone();
    assert_eq!(e1, e2);
}

#[test]
fn decompressor_new_is_with_dict() {
    let a = Decompressor::new(b"abcd");
    let b = Decompressor::with_dict(b"abcd");
    let block = [0x00, 4, 0, 0x00];
    assert_eq!(a.decompress(&block, 4), b.decompress(&block, 4));
}
