use lz4rip::block::{
    compress, compress_into, compress_into_with_dict, compress_prepend_size, decompress, decompress_into,
    decompress_size_prepended, get_maximum_output_size, CompressError, Compressor, CompressorN, DictCompressorN,
    Decompressor,
};
use lz4rip::decompress::decompress_internal;
use lz4rip::compress::compress_internal;
use lz4rip::hashtable::{count_same_bytes_unchecked, HashTableU32};
use lz4rip::sink::SliceSink;
use lz4rip::{END_OFFSET, MINMATCH};

fn count_same_bytes(input: &[u8], cur: &mut usize, source: &[u8], candidate: usize) -> usize {
    count_same_bytes_unchecked(input, cur, source, candidate, END_OFFSET)
}

#[test]
fn test_count_same_bytes() {
    let first: &[u8] = &[
        1, 2, 3, 4, 1, 2, 3, 4, 1, 2, 3, 4, 1, 2, 3, 4, 0, 0, 0, 0, 0, 0, 0, 0, 0, 0, 0, 0,
    ];
    let second: &[u8] = &[
        1, 2, 3, 4, 1, 2, 3, 4, 1, 2, 3, 4, 1, 2, 3, 4, 1, 1, 1, 1, 1, 1, 1, 1, 1, 1, 1, 1,
    ];
    assert_eq!(count_same_bytes(first, &mut 0, second, 0), 16);

    let first: &[u8] = &[
        1, 2, 3, 4, 1, 2, 3, 4, 1, 2, 3, 4, 1, 2, 3, 4, 1, 2, 3, 4, 0, 0, 0, 0, 0, 0, 0, 0, 0, 0, 0, 0,
    ];
    let second: &[u8] = &[
        1, 2, 3, 4, 1, 2, 3, 4, 1, 2, 3, 4, 1, 2, 3, 4, 1, 2, 3, 4, 1, 1, 1, 1, 1, 1, 1, 1, 1, 1, 1, 1,
    ];
    assert_eq!(count_same_bytes(first, &mut 0, second, 0), 20);

    let first: &[u8] = &[
        1, 2, 3, 4, 1, 2, 3, 4, 1, 2, 3, 4, 1, 2, 3, 4, 1, 2, 3, 4, 3, 4, 0, 0, 0, 0, 0, 0, 0, 0, 0, 0, 0, 0,
    ];
    let second: &[u8] = &[
        1, 2, 3, 4, 1, 2, 3, 4, 1, 2, 3, 4, 1, 2, 3, 4, 1, 2, 3, 4, 3, 4, 1, 1, 1, 1, 1, 1, 1, 1, 1, 1, 1, 1,
    ];
    assert_eq!(count_same_bytes(first, &mut 0, second, 0), 22);

    let first: &[u8] = &[
        1, 2, 3, 4, 1, 2, 3, 4, 1, 2, 3, 4, 1, 2, 3, 4, 1, 2, 3, 4, 3, 4, 5, 0, 0, 0, 0, 0, 0, 0, 0, 0, 0, 0, 0,
    ];
    let second: &[u8] = &[
        1, 2, 3, 4, 1, 2, 3, 4, 1, 2, 3, 4, 1, 2, 3, 4, 1, 2, 3, 4, 3, 4, 5, 1, 1, 1, 1, 1, 1, 1, 1, 1, 1, 1, 1,
    ];
    assert_eq!(count_same_bytes(first, &mut 0, second, 0), 23);

    let first: &[u8] = &[
        1, 2, 3, 4, 1, 2, 3, 4, 1, 2, 3, 4, 1, 2, 3, 4, 1, 2, 3, 4, 3, 4, 5, 0, 0, 0, 0, 0, 0, 0, 0, 0, 0, 0, 0,
    ];
    let second: &[u8] = &[
        1, 2, 3, 4, 1, 2, 3, 4, 1, 2, 3, 4, 1, 2, 3, 4, 1, 2, 3, 4, 3, 4, 6, 1, 1, 1, 1, 1, 1, 1, 1, 1, 1, 1, 1,
    ];
    assert_eq!(count_same_bytes(first, &mut 0, second, 0), 22);

    let first: &[u8] = &[
        1, 2, 3, 4, 1, 2, 3, 4, 1, 2, 3, 4, 1, 2, 3, 4, 1, 2, 3, 4, 3, 9, 5, 0, 0, 0, 0, 0, 0, 0, 0, 0, 0, 0, 0,
    ];
    let second: &[u8] = &[
        1, 2, 3, 4, 1, 2, 3, 4, 1, 2, 3, 4, 1, 2, 3, 4, 1, 2, 3, 4, 3, 4, 6, 1, 1, 1, 1, 1, 1, 1, 1, 1, 1, 1, 1,
    ];
    assert_eq!(count_same_bytes(first, &mut 0, second, 0), 21);

    for diff_idx in 8..100 {
        let first: Vec<u8> = (0u8..255).cycle().take(100 + 12).collect();
        let mut second = first.clone();
        second[diff_idx] = 255;
        for start in 0..=diff_idx {
            let same_bytes = count_same_bytes(&first, &mut start.clone(), &second, start);
            assert_eq!(same_bytes, diff_idx - start);
        }
    }
}

#[test]
fn test_bug() {
    let input: &[u8] = &[
        10, 12, 14, 16, 18, 10, 12, 14, 16, 18, 10, 12, 14, 16, 18, 10, 12, 14, 16, 18,
    ];
    let _out = compress(input);
}

#[test]
fn test_dict() {
    let input: &[u8] = &[
        10, 12, 14, 16, 18, 10, 12, 14, 16, 18, 10, 12, 14, 16, 18, 10, 12, 14, 16, 18,
    ];
    let dict = input;
    let mut comp = Compressor::with_dict(dict);
    let compressed = comp.compress(input);
    assert!(compressed.len() < compress(input).len());

    let decomp = Decompressor::with_dict(dict);
    let uncompressed = decomp.decompress(&compressed, input.len()).unwrap();
    assert_eq!(input, &uncompressed[..]);
}

#[test]
fn test_dict_no_panic() {
    let input: &[u8] = &[
        10, 12, 14, 16, 18, 10, 12, 14, 16, 18, 10, 12, 14, 16, 18, 10, 12, 14, 16, 18,
    ];
    let dict = &[10, 12, 14];
    let mut comp = Compressor::with_dict(dict);
    let _compressed = comp.compress(input);
}

#[test]
fn test_dict_match_crossing() {
    let input: &[u8] = &[
        10, 12, 14, 16, 18, 10, 12, 14, 16, 18, 10, 12, 14, 16, 18, 10, 12, 14, 16, 18,
    ];
    let dict = input;
    let mut comp = Compressor::with_dict(dict);
    let compressed = comp.compress(input);
    assert!(compressed.len() < compress(input).len());

    let mut uncompressed = vec![0u8; input.len() * 2];
    let dict_cutoff = dict.len() / 2;
    let output_start = dict.len() - dict_cutoff;
    uncompressed[..output_start].copy_from_slice(&dict[dict_cutoff..]);
    let uncomp_len = {
        let mut sink = SliceSink::new(&mut uncompressed[..], output_start);
        decompress_internal::<true, _>(&compressed, &mut sink, &dict[..dict_cutoff]).unwrap()
    };
    assert_eq!(input.len(), uncomp_len);
    assert_eq!(input, &uncompressed[output_start..output_start + uncomp_len]);
}

#[test]
fn test_conformant_last_block() {
    let aaas: &[u8] = b"aaaaaaaaaaaaaaa";

    let out = compress(&aaas[..12]);
    assert!(out.len() > 12);
    let out = compress(&aaas[..13]);
    assert!(out.len() <= 13);
    let out = compress(&aaas[..14]);
    assert!(out.len() <= 14);
    let out = compress(&aaas[..15]);
    assert!(out.len() <= 15);

    let mut comp = Compressor::with_dict(aaas);
    let out = comp.compress(&aaas[..11]);
    assert!(out.len() > 11);
    let out = comp.compress(&aaas[..12]);
    assert!(out.len() > 12);
    let out = comp.compress(&aaas[..13]);
    assert!(out.len() <= 13);
    let out = comp.compress(&aaas[..14]);
    assert!(out.len() <= 14);
    let out = comp.compress(&aaas[..15]);
    assert!(out.len() <= 15);
}

#[test]
fn test_dict_size() {
    let dict = vec![b'a'; 1024 * 1024];
    let input = &b"aaaaaaaaaaaaaaaaaaaaaaaaaaaaa"[..];
    let mut comp = Compressor::with_dict(&dict);
    let compressed = comp.compress(input);
    let decomp = Decompressor::with_dict(&dict);
    let decompressed = decomp.decompress(&compressed, input.len()).unwrap();
    assert_eq!(decompressed, input);
}

#[test]
fn test_compressor_roundtrip() {
    let input: &[u8] = &[
        10, 12, 14, 16, 18, 10, 12, 14, 16, 18, 10, 12, 14, 16, 18, 10, 12, 14, 16, 18,
    ];
    let dict = input;

    let mut comp = Compressor::with_dict(dict);
    let mut compressed = vec![0u8; get_maximum_output_size(input.len())];
    let n = comp.compress_into(input, &mut compressed).unwrap();
    compressed.truncate(n);

    assert!(compressed.len() < compress(input).len());

    let decomp = Decompressor::with_dict(dict);
    let uncompressed = decomp.decompress(&compressed, input.len()).unwrap();
    assert_eq!(input, &uncompressed[..]);
}

#[test]
fn test_compressor_reuse() {
    let input: &[u8] = &[
        10, 12, 14, 16, 18, 10, 12, 14, 16, 18, 10, 12, 14, 16, 18, 10, 12, 14, 16, 18,
    ];
    let dict = input;
    let mut comp = Compressor::with_dict(dict);
    let out_a = comp.compress(input);
    let out_b = comp.compress(input);
    assert_eq!(out_a, out_b);
}

#[test]
fn epoch_after_large_input_no_stale_entries() {
    let mut comp = Compressor::new();
    let large = vec![0x42u8; 262144];
    let small = vec![0x41u8; 1024];
    let mut out = vec![0u8; get_maximum_output_size(large.len())];
    comp.compress_into(&large, &mut out).unwrap();
    let mut out = vec![0u8; get_maximum_output_size(small.len())];
    comp.compress_into(&small, &mut out).unwrap();
}

#[test]
fn epoch_mixed_sizes_no_panic() {
    let mut comp = Compressor::new();
    let sizes = [128, 65536, 256, 262144, 512, 1024, 64, 8192, 128];
    for &size in &sizes {
        let data = vec![(size & 0xFF) as u8; size];
        let mut out = vec![0u8; get_maximum_output_size(size)];
        comp.compress_into(&data, &mut out).unwrap();
    }
}

#[test]
fn compress_into_with_short_dict_does_not_panic() {
    let input = [0u8; 13];
    let decomp = Decompressor::with_dict(&[]);

    for dict_len in 0..MINMATCH {
        let dict = vec![0u8; dict_len];
        let mut comp = Compressor::with_dict(&dict);
        let mut output = vec![0u8; get_maximum_output_size(input.len())];
        let compressed_len = comp.compress_into(&input, &mut output).unwrap();

        let mut uncompressed = vec![0u8; input.len()];
        let uncompressed_len = decomp.decompress_into(&output[..compressed_len], &mut uncompressed).unwrap();
        uncompressed.truncate(uncompressed_len);
        assert_eq!(uncompressed, input);
    }
}

#[test]
fn maximum_output_size_formula() {
    assert_eq!(get_maximum_output_size(0), 20);
    assert_eq!(get_maximum_output_size(100), 130);
    assert_eq!(get_maximum_output_size(1000), 1120);
    assert_eq!(get_maximum_output_size(9), 29);
}

#[test]
fn compress_into_too_small_output_is_an_error() {
    let input = b"hello hello hello hello";
    let mut out = vec![0u8; get_maximum_output_size(input.len()) - 1];
    assert_eq!(compress_into(input, &mut out), Err(CompressError::OutputTooSmall));
    let mut out = vec![0u8; get_maximum_output_size(input.len())];
    let n = compress_into(input, &mut out).unwrap();
    assert!(n <= out.len());
    assert_eq!(decompress(&out[..n], input.len()).unwrap(), input);
}

#[test]
fn compress_empty_input_is_one_token() {
    assert_eq!(compress(b""), vec![0u8]);
    assert_eq!(decompress(&compress(b""), 0).unwrap(), Vec::<u8>::new());
}

#[test]
fn compress_short_input_is_literals_only() {
    assert_eq!(compress(b"abc"), vec![0x30, b'a', b'b', b'c']);
}

#[test]
fn compress_prepend_size_roundtrip_and_header() {
    let input = b"Hello people, what's up?";
    let compressed = compress_prepend_size(input);
    assert_eq!(&compressed[..4], &(input.len() as u32).to_le_bytes());
    let uncompressed = decompress_size_prepended(&compressed).unwrap();
    assert_eq!(input, &uncompressed[..]);
}

#[test]
fn roundtrip_decodes_into_larger_output() {
    let input: Vec<u8> = b"abcdefgh".iter().cycle().take(500).copied().collect();
    let compressed = compress(&input);
    assert!(compressed.len() < input.len());
    assert_eq!(decompress(&compressed, input.len() + 1000).unwrap(), input);
    // An output shorter than the input cannot hold it.
    assert!(decompress(&compressed, input.len() - 1).is_err());
}

#[test]
fn compress_into_with_dict_roundtrip() {
    let dict = b"shared context bytes...";
    let input = b"context bytes appear in messages";
    let mut compressed = [0u8; 256];
    let n = compress_into_with_dict(input, &mut compressed, dict).unwrap();
    let mut output = [0u8; 64];
    let m = lz4rip::block::decompress_into_with_dict(&compressed[..n], &mut output, dict).unwrap();
    assert_eq!(&output[..m], input);
}

#[test]
fn dict_split_between_dictionary_and_output() {
    let dict: Vec<u8> = b"0123456789abcdefghij".to_vec();
    let input = b"abcdefghij0123456789abcdefghij";
    let mut comp = Compressor::with_dict(&dict);
    let compressed = comp.compress(input);
    let cut = 7;
    let mut buf = vec![0u8; dict.len() - cut + input.len()];
    buf[..dict.len() - cut].copy_from_slice(&dict[cut..]);
    let n = {
        let mut sink = SliceSink::new(&mut buf[..], dict.len() - cut);
        decompress_internal::<true, _>(&compressed, &mut sink, &dict[..cut]).unwrap()
    };
    assert_eq!(n, input.len());
    assert_eq!(&buf[dict.len() - cut..], &input[..]);
}

#[test]
fn compressor_n_and_dict_compressor_n_roundtrip() {
    let input: Vec<u8> = b"the quick brown fox jumps over the lazy dog ".iter().cycle().take(3000).copied().collect();
    let mut plain = CompressorN::<512>::new();
    let compressed = plain.compress(&input);
    assert_eq!(decompress(&compressed, input.len()).unwrap(), input);
    let again = plain.compress(&input);
    assert_eq!(decompress(&again, input.len()).unwrap(), input);

    let dict = b"the quick brown fox";
    let mut with_dict = DictCompressorN::<1024>::new(dict);
    let mut out = vec![0u8; get_maximum_output_size(input.len())];
    let n = with_dict.compress_into(&input, &mut out).unwrap();
    let decomp = Decompressor::new(dict);
    let mut back = vec![0u8; input.len()];
    let m = decomp.decompress_into(&out[..n], &mut back).unwrap();
    assert_eq!(&back[..m], &input[..]);
    let v = with_dict.compress(b"the quick brown fox jumps");
    assert_eq!(decomp.decompress(&v, 25).unwrap(), b"the quick brown fox jumps");
}

#[test]
fn compressor_plain_reuses_table_across_calls() {
    let mut comp = Compressor::new();
    for round in 0..20u8 {
        let input: Vec<u8> = (0..700u32).map(|i| ((i % 37) as u8) ^ round).collect();
        let mut out = vec![0u8; get_maximum_output_size(input.len())];
        let n = comp.compress_into(&input, &mut out).unwrap();
        let mut back = vec![0u8; input.len()];
        let m = decompress_into(&out[..n], &mut back).unwrap();
        assert_eq!(&back[..m], &input[..]);
    }
}

#[test]
fn compress_internal_with_preamble() {
    let input: Vec<u8> = b"0123456789abcdef".iter().cycle().take(200).copied().collect();
    let input_pos = 64;
    let mut out = vec![0u8; get_maximum_output_size(input.len() - input_pos)];
    let mut table = HashTableU32::new();
    let n = {
        let mut sink = SliceSink::new(&mut out, 0);
        compress_internal::<_, false, false, _>(&input, input_pos, &mut sink, &mut table, &[], 0).unwrap()
    };
    // The block refers back into the preamble, so it is short.
    assert!(n < 20);
    // Decode into a buffer that already holds the preamble.
    let mut buf = vec![0u8; input.len()];
    buf[..input_pos].copy_from_slice(&input[..input_pos]);
    let m = {
        let mut sink = SliceSink::new(&mut buf, input_pos);
        decompress_internal::<false, _>(&out[..n], &mut sink, &[]).unwrap()
    };
    assert_eq!(m, input.len() - input_pos);
    assert_eq!(buf, input);
}
