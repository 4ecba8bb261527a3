use lz4rip::block::{
    compress, compress_into, compress_into_with_dict, get_maximum_output_size, CompressError, Compressor, CompressorN,
    DictCompressorN,
};
use lz4rip::compressor::DEFAULT_NODICT_ENTRIES;
use lz4rip::decompress::validate_exact_size;

fn samples() -> Vec<Vec<u8>> {
    let text = b"The quick brown fox jumps over the lazy dog. The quick brown fox jumps over the lazy cat.".to_vec();
    let mut mixed = Vec::new();
    for i in 0..3000u32 {
        mixed.push((i * 7 % 251) as u8);
        if i % 5 == 0 {
            mixed.extend_from_slice(b"abcd");
        }
    }
    vec![vec![], vec![0x61; 12], vec![0x61; 13], vec![0x61; 300], text, mixed]
}

#[test]
fn compress_into_writes_what_compress_returns() {
    for input in samples() {
        let mut out = vec![0u8; get_maximum_output_size(input.len())];
        let n = compress_into(&input, &mut out).unwrap();
        assert_eq!(&out[..n], &compress(&input)[..]);
    }
}

#[test]
fn short_dictionary_gives_the_block_of_no_dictionary() {
    for input in samples() {
        for dict in [&b""[..], &b"a"[..], &b"aaa"[..]] {
            let mut out = vec![0u8; get_maximum_output_size(input.len())];
            let n = compress_into_with_dict(&input, &mut out, dict).unwrap();
            assert_eq!(&out[..n], &compress(&input)[..]);
        }
    }
}

#[test]
fn compressor_with_short_dictionary_acts_as_new() {
    let mut a = Compressor::with_dict(b"abc");
    let mut b = Compressor::new();
    for input in samples() {
        assert_eq!(a.compress(&input), b.compress(&input));
    }
}

#[test]
fn dict_compressor_gives_the_same_bytes_on_every_call() {
    let dict = b"The quick brown fox jumps over the lazy dog.";
    let mut comp = Compressor::with_dict(dict);
    let mut owned = DictCompressorN::<4096>::new(dict);
    for input in samples() {
        let first = comp.compress(&input);
        assert_eq!(comp.compress(&input), first);
        assert_eq!(owned.compress(&input), first);
        let mut out = vec![0u8; get_maximum_output_size(input.len())];
        let n = owned.compress_into(&input, &mut out).unwrap();
        assert_eq!(&out[..n], &first[..]);
    }
}

#[test]
fn compressor_n_into_writes_what_compress_returns() {
    for input in samples() {
        let mut c1 = CompressorN::<DEFAULT_NODICT_ENTRIES>::new();
        let mut c2 = CompressorN::<DEFAULT_NODICT_ENTRIES>::new();
        let v = c1.compress(&input);
        let mut out = vec![0u8; get_maximum_output_size(input.len())];
        let n = c2.compress_into(&input, &mut out).unwrap();
        assert_eq!(&out[..n], &v[..]);
    }
}

#[test]
fn error_leaves_the_output_untouched() {
    let input = vec![0x61u8; 300];
    let mut out = vec![0xABu8; 10];
    assert_eq!(compress_into(&input, &mut out), Err(CompressError::OutputTooSmall));
    assert_eq!(out, vec![0xABu8; 10]);
    let mut comp = Compressor::with_dict(b"aaaa");
    assert_eq!(comp.compress_into(&input, &mut out), Err(CompressError::OutputTooSmall));
    assert_eq!(out, vec![0xABu8; 10]);
}

#[test]
fn exact_size_is_checked() {
    assert_eq!(validate_exact_size(vec![1, 2, 3], 3), Ok(vec![1, 2, 3]));
    assert_eq!(validate_exact_size(vec![1, 2, 3], 4), Err(3));
    assert_eq!(validate_exact_size(vec![], 0), Ok(vec![]));
}

#[test]
fn plain_compressor_repeats_itself_from_the_second_call() {
    let mut comp = Compressor::new();
    let mut owned = CompressorN::<DEFAULT_NODICT_ENTRIES>::new();
    for input in samples() {
        let _ = comp.compress(&input);
        let _ = owned.compress(&input);
        let a = comp.compress(&input);
        assert_eq!(comp.compress(&input), a);
        let b = owned.compress(&input);
        assert_eq!(owned.compress(&input), b);
    }
}
