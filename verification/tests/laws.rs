use lz4rip::block::{
    compress, compress_prepend_size, decompress, decompress_into, decompress_size_prepended, Compressor, DecompressError,
    Decompressor,
};

fn sample(n: usize) -> Vec<u8> {
    (0..n).map(|i| ((i * 7) % 23) as u8 + if i % 100 < 50 { b'a' } else { b'0' }).collect()
}

#[test]
fn law_roundtrip_on_concrete_inputs() {
    for n in [0usize, 1, 12, 13, 14, 64, 1000, 70_000] {
        let x = sample(n);
        let v = compress(&x);
        assert_eq!(decompress(&v, n).unwrap(), x);
        assert_eq!(decompress(&v, n + 17).unwrap(), x);
    }
}

#[test]
fn law_dict_roundtrip_with_long_dictionary() {
    let mut dict = vec![0u8; 100_000];
    for (i, b) in dict.iter_mut().enumerate() {
        *b = (i % 251) as u8;
    }
    let input: Vec<u8> = dict[99_000..].iter().chain(dict[50_000..50_300].iter()).copied().collect();
    let mut comp = Compressor::with_dict(&dict);
    let v = comp.compress(&input);
    let decomp = Decompressor::with_dict(&dict);
    assert_eq!(decomp.decompress(&v, input.len()).unwrap(), input);
    // The block refers only to the last 64 KiB of the dictionary.
    let tail = Decompressor::with_dict(&dict[dict.len() - 65536..]);
    assert_eq!(tail.decompress(&v, input.len()).unwrap(), input);
}

#[test]
fn law_prepend_size_roundtrip() {
    let x = sample(3000);
    let w = compress_prepend_size(&x);
    assert_eq!(u32::from_le_bytes(w[..4].try_into().unwrap()) as usize, x.len());
    assert_eq!(decompress_size_prepended(&w).unwrap(), x);
}

#[test]
fn law_no_output_leak() {
    let x = sample(500);
    let v = compress(&x);
    let mut zeros = vec![0u8; 800];
    let mut ones = vec![0xFFu8; 800];
    let n1 = decompress_into(&v, &mut zeros).unwrap();
    let n2 = decompress_into(&v, &mut ones).unwrap();
    assert_eq!(n1, n2);
    assert_eq!(&zeros[..n1], &ones[..n2]);
    // Also for an input that fails: both report the same error.
    let bad = [0x0E, 9, 0, 0x70];
    assert_eq!(decompress_into(&bad, &mut zeros), decompress_into(&bad, &mut ones));
}

#[test]
fn law_short_output_fails() {
    let x = sample(300);
    let v = compress(&x);
    assert!(matches!(decompress(&v, 299), Err(DecompressError::OutputTooSmall { .. })));
}
