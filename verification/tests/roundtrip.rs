use lz4rip::{
    block::{compress, decompress, Compressor, DecompressError, Decompressor},
    compress as compress_block,
};

fn text_payload(target_bytes: usize) -> Vec<u8> {
    const SENTENCE: &[u8] = b"the quick brown fox jumps over the lazy dog; lz4 block test payload\n";
    let mut out = Vec::with_capacity(target_bytes);
    while out.len() < target_bytes {
        out.extend_from_slice(SENTENCE);
    }
    out.truncate(target_bytes);
    out
}

fn json_payload(target_bytes: usize) -> Vec<u8> {
    let mut out = Vec::with_capacity(target_bytes);
    let mut i = 0u64;
    while out.len() < target_bytes {
        let line = format!(
            r#"{{"ts":1700000000,"level":"INFO","service":"ingest","event":{},"message":"repeatable structured payload for lz4 dictionary tests"}}"#,
            i
        );
        out.extend_from_slice(line.as_bytes());
        out.push(b'\n');
        i += 1;
    }
    out.truncate(target_bytes);
    out
}

fn compression1k() -> Vec<u8> {
    text_payload(725)
}

fn compression34k() -> Vec<u8> {
    text_payload(34_308)
}

fn compression65() -> Vec<u8> {
    text_payload(64_723)
}

fn compression66json() -> Vec<u8> {
    json_payload(66_675)
}

fn dickens() -> Vec<u8> {
    text_payload(10_192_446)
}

fn lz4_cpp_block_compress(input: &[u8]) -> Result<Vec<u8>, lzzzz::Error> {
    let mut out = Vec::new();
    lzzzz::lz4::compress_to_vec(input, &mut out, lzzzz::lz4::ACC_LEVEL_DEFAULT).unwrap();
    Ok(out)
}

fn lz4_cpp_block_decompress(input: &[u8], decomp_len: usize) -> Result<Vec<u8>, lzzzz::Error> {
    let mut out = vec![0u8; decomp_len];
    lzzzz::lz4::decompress(input, &mut out)?;
    Ok(out)
}

/// Test that the compressed string decompresses to the input string.
fn test_roundtrip(bytes: impl AsRef<[u8]>) {
    let bytes = bytes.as_ref();
    let compressed_flex = compress_block(bytes);
    let decompressed = decompress(&compressed_flex, bytes.len()).unwrap();
    assert_eq!(decompressed, bytes);

    lz4_cpp_compatibility(bytes);
}

fn lz4_cpp_compatibility(bytes: &[u8]) {
    // compress with lz4 cpp, decompress with rust
    if !bytes.is_empty() {
        let compressed = lz4_cpp_block_compress(bytes).unwrap();
        let decompressed = decompress(&compressed, bytes.len()).unwrap();
        assert_eq!(decompressed, bytes);
    }

    // compress with rust, decompress with lz4 cpp
    let compressed_flex = compress_block(bytes);
    let decompressed = lz4_cpp_block_decompress(&compressed_flex, bytes.len()).unwrap();
    assert_eq!(decompressed, bytes);
}

fn print_compression_ration(input: &[u8], name: &str) {
    println!("\nComparing for {name}");
    let name = "";
    let compressed = compress_block(input);
    println!("lz4rip block Compression Ratio {:?} {:?}", name, compressed.len() as f64 / input.len() as f64);
    let decompressed = decompress(&compressed, input.len()).unwrap();
    assert_eq!(decompressed, input);

    let compressed = lz4_cpp_block_compress(input).unwrap();
    println!("Lz4 Cpp block Compression Ratio {:?} {:?}", name, compressed.len() as f64 / input.len() as f64);
    let decompressed = decompress(&compressed, input.len()).unwrap();
    assert_eq!(decompressed, input);

    let compressed = snap::raw::Encoder::new().compress_vec(input).unwrap();
    println!("snap Compression Ratio {:?} {:?}", name, compressed.len() as f64 / input.len() as f64);
}

#[test]
fn compare_compression() {
    print_compression_ration(&compression1k(), "1k");
    print_compression_ration(&compression34k(), "34k");
    print_compression_ration(&compression66json(), "66k JSON");
    print_compression_ration(&dickens(), "dickens");
}

#[test]
fn tests_test_minimum_compression_ratio_block() {
    let c34 = compression34k();
    let compressed = compress_block(&c34);
    let ratio = compressed.len() as f64 / c34.len() as f64;
    assert!(ratio < 0.59);

    let c65 = compression65();
    let compressed = compress_block(&c65);
    let ratio = compressed.len() as f64 / c65.len() as f64;
    assert!(ratio < 0.59);

    let c66 = compression66json();
    let compressed = compress_block(&c66);
    let ratio = compressed.len() as f64 / c66.len() as f64;
    assert!(ratio < 0.240);
}

fn decompress_with_size_prefix(data: &[u8]) -> Result<Vec<u8>, DecompressError> {
    if data.len() < 4 {
        return decompress(data, 0);
    }
    let size = u32::from_le_bytes(data[..4].try_into().unwrap()) as usize;
    decompress(&data[4..], size)
}

#[test]
fn tests_error_case_1() {
    let _err = decompress_with_size_prefix(&[122, 1, 0, 1, 0, 10, 1, 0]);
}

#[test]
fn tests_error_case_2() {
    let _err = decompress_with_size_prefix(&[
        44, 251, 49, 0, 0, 0, 8, 0, 0, 0, 0, 0, 0, 0, 0, 0, 0, 16, 0, 0, 0, 0, 0, 0, 0, 0,
    ]);
}

#[test]
fn tests_error_case_3() {
    let _err = decompress_with_size_prefix(&[
        7, 0, 0, 0, 0, 0, 0, 11, 0, 0, 7, 16, 0, 0, 0, 0, 0, 0, 0, 0, 0, 4, 1, 0, 0,
    ]);
}

#[test]
fn tests_error_case_4() {
    let _err = decompress_with_size_prefix(&[0, 61, 0, 0, 0, 7, 0]);
}

#[test]
fn tests_error_case_5() {
    let _err = decompress_with_size_prefix(&[8, 0, 0, 0, 4, 0, 0, 0]);
}

#[test]
fn test_end_offset() {
    // the last 5 bytes need to be literals, so the last match block is not allowed to match to the
    // end
    test_roundtrip("AAAAAAAAAAAAAAAAAAAAAAAAaAAAAAAAAAAAAAAAAAAAAAAAA");
    test_roundtrip("AAAAAAAAAAAAAAAAAAAAAAAABBBBBBBBBaAAAAAAAAAAAAAAAAAAAAAAAA");
}

#[test]
fn small_compressible_1() {
    test_roundtrip("AAAAAAAAAAAAAAAAAAAAAAAABBBBBBBBBaAAAAAAAAAAAAAAAAAAAAAAABBBBBBBBBa");
}

#[test]
fn small_compressible_2() {
    test_roundtrip("AAAAAAAAAAAZZZZZZZZAAAAAAAA");
}

#[test]
fn small_compressible_3() {
    test_roundtrip("AAAAAAAAAAAZZZZZZZZAAAAAAAA");
}

#[test]
fn shakespear1() {
    test_roundtrip("to live or not to live");
}

#[test]
fn shakespear2() {
    test_roundtrip("Love is a wonderful terrible thing");
}

#[test]
fn shakespear3() {
    test_roundtrip("There is nothing either good or bad, but thinking makes it so.");
}

#[test]
fn shakespear4() {
    test_roundtrip("I burn, I pine, I perish.");
}

#[test]
fn text_text() {
    test_roundtrip("Save water, it doesn't grow on trees.");
    test_roundtrip("The panda bear has an amazing black-and-white fur.");
    test_roundtrip("The average panda eats as much as 9 to 14 kg of bamboo shoots a day.");
    test_roundtrip("You are 60% water. Save 60% of yourself!");
    test_roundtrip("To cute to die! Save the red panda!");
}

#[test]
fn not_compressible() {
    test_roundtrip("as6yhol.;jrew5tyuikbfewedfyjltre22459ba");
    test_roundtrip("jhflkdjshaf9p8u89ybkvjsdbfkhvg4ut08yfrr");
}

#[test]
fn short_1() {
    test_roundtrip("ahhd");
    test_roundtrip("ahd");
    test_roundtrip("x-29");
    test_roundtrip("x");
    test_roundtrip("k");
    test_roundtrip(".");
    test_roundtrip("ajsdh");
    test_roundtrip("aaaaaa");
}

#[test]
fn short_2() {
    test_roundtrip("aaaaaabcbcbcbc");
}

#[test]
fn empty_string() {
    test_roundtrip("");
}

#[test]
fn nulls() {
    test_roundtrip("\0\0\0\0\0\0\0\0\0\0\0\0\0");
}

#[test]
fn bug_fuzz() {
    let data = &[
        8, 6, 0, 0, 0, 0, 0, 0, 0, 0, 0, 0, 0, 0, 0, 0, 0, 0, 0, 0, 0, 0, 0, 0, 0, 0, 0, 0, 0, 0,
        0, 0, 0, 0, 0, 0, 0, 0, 0, 0, 0, 0, 0, 0, 0, 0, 0, 0, 0, 0, 0, 0, 0, 0, 0, 0, 0, 0, 0, 0,
        0, 0, 0, 0, 0, 0, 0, 0, 0, 0, 0, 0, 0, 0, 0, 0, 0, 0, 0, 0, 0, 0, 0, 0, 0, 0, 0, 0, 0, 0,
        0, 0, 0, 0, 0, 0, 0, 0, 0, 0, 0, 0, 0, 0, 0, 0, 0, 0, 0, 0, 0, 0, 0, 0, 0, 0, 0, 0, 0, 0,
        0, 0, 0, 0, 0, 0, 0, 0, 0, 0, 0, 0, 0, 0, 0, 0, 0, 0, 0, 0, 0, 0, 0, 0, 0, 0, 0, 0, 0, 0,
        0, 0, 0, 0, 0, 0, 0, 0, 0, 0, 0, 0, 0, 0, 0, 0, 0, 0, 0, 0, 0, 0, 0, 0, 0, 0, 0, 0, 0, 0,
        0, 0, 0, 0, 0, 0, 0, 0, 0, 0, 0, 0, 0, 0, 0, 0, 0, 0, 0, 0, 0, 0, 0, 0, 0, 0, 0, 0, 0, 0,
        0, 0, 0, 0, 0, 0, 0, 0, 0, 0, 0, 0, 0, 0, 0, 0, 0, 0, 0, 0, 0, 0, 0, 0, 0, 0, 0, 0, 0, 0,
        0, 0, 0, 0, 0, 0, 0, 0, 0, 0, 0, 0, 0, 0, 0, 0, 0, 0, 0, 0, 0, 0, 0, 0, 0, 0, 0, 0, 0, 0,
        0, 0, 0, 0, 0, 0, 0, 0, 0, 0, 0, 0, 0, 0, 0, 0, 0, 0, 0, 0, 46, 0, 0, 8, 0, 138,
    ];
    test_roundtrip(data);
}

#[test]
fn bug_fuzz_2() {
    let data = &[
        122, 0, 0, 0, 0, 0, 0, 0, 0, 0, 0, 0, 0, 0, 0, 0, 8, 0, 0, 0, 0, 0, 0, 0, 0, 0, 0, 0, 0, 0,
        0, 0, 0, 0, 0, 0, 0, 0, 0, 0, 0, 0, 0, 0, 0, 0, 0, 0, 0, 0, 0, 0, 0, 0, 0, 0, 0, 0, 0, 0,
        0, 0, 0, 0, 0, 0, 0, 0, 0, 0, 0, 0, 0, 0, 0, 0, 0, 0, 0, 0, 0, 0, 0, 0, 0, 0, 0, 0, 0, 0,
        0, 0, 0, 0, 0, 0, 0, 0, 65, 0, 0, 128, 10, 1, 10, 1, 0, 122,
    ];
    test_roundtrip(data);
}

#[test]
fn bug_fuzz_3() {
    let data = &[
        36, 16, 0, 0, 79, 177, 176, 176, 171, 1, 0, 255, 207, 79, 79, 79, 79, 79, 1, 1, 49, 0, 16,
        0, 79, 79, 79, 79, 79, 1, 0, 255, 36, 79, 79, 79, 79, 79, 1, 0, 255, 207, 79, 79, 79, 79,
        79, 1, 0, 255, 255, 255, 255, 255, 255, 255, 255, 255, 255, 8, 207, 1, 207, 207, 79, 199,
        79, 79, 40, 79, 1, 1, 1, 1, 1, 1, 15, 15, 15, 15, 15, 15, 15, 15, 15, 15, 15, 15, 15, 15,
        15, 15, 15, 15, 15, 15, 15, 15, 15, 15, 15, 15, 15, 79, 15, 15, 14, 15, 15, 15, 15, 15, 15,
        15, 15, 15, 15, 15, 15, 15, 15, 15, 15, 61, 15, 15, 15, 15, 15, 15, 15, 15, 15, 15, 15, 0,
        48, 45, 0, 1, 0, 0, 1, 0,
    ];
    test_roundtrip(data);
}

#[test]
fn bug_fuzz_4() {
    let data = &[147];
    test_roundtrip(data);
}

#[test]
fn buf_fuzz_5() {
    let data = &[
        255, 255, 255, 255, 253, 235, 156, 140, 8, 0, 140, 45, 169, 0, 27, 128, 48, 0, 140, 0, 0,
        255, 255, 255, 253, 235, 156, 140, 8, 61, 255, 255, 255, 255, 65, 239, 254,
    ];
    test_roundtrip(data);
}

#[test]
fn bug_fuzz_6() {
    let data = &[
        181, 181, 181, 181, 181, 147, 147, 147, 0, 0, 255, 218, 44, 0, 177, 44, 0, 233, 177, 74,
        85, 47, 95, 146, 189, 177, 1, 0, 255, 2, 109, 180, 255, 255, 0, 0, 0, 181, 181, 181, 147,
        147, 147, 0, 0, 255, 218, 146, 146, 181, 0, 0, 181,
    ];
    test_roundtrip(data);
}

fn test_decomp(data: &[u8]) {
    let size = u32::from_le_bytes(data[0..4].try_into().unwrap()) as usize;
    if size > 20_000_000 {
        return;
    }
    let _ = decompress(&data[4..], size);
    let _ = Decompressor::with_dict(data).decompress(&data[4..], size);
}

#[test]
fn tests_bug_fuzz_7() {
    let data = &[
        39, 0, 0, 0, 0, 0, 0, 237, 0, 0, 0, 0, 0, 0, 16, 0, 0, 4, 0, 0, 0, 39, 32, 0, 2, 0, 162, 5,
        36, 0, 0, 0, 0, 7, 0,
    ];
    test_decomp(data);
}

#[test]
fn tests_bug_fuzz_8() {
    let data = &[
        0, 0, 0, 0, 0, 0, 0, 0, 0, 0, 0, 0, 0, 0, 0, 0, 0, 0, 0, 0, 10, 0, 0, 10,
    ];
    test_decomp(data);
}

#[test]
fn test_so_many_zeros() {
    let data: Vec<u8> = std::iter::repeat_n(0, 30_000).collect();
    test_roundtrip(data);
}

#[test]
fn compression_works() {
    let s = r#"An iterator that knows its exact length.
        Many Iterators don't know how many times they will iterate, but some do. If an iterator knows how many times it can iterate, providing access to that information can be useful. For example, if you want to iterate backwards, a good start is to know where the end is.
        When implementing an ExactSizeIterator, you must also implement Iterator. When doing so, the implementation of size_hint must return the exact size of the iterator.
        The len method has a default implementation, so you usually shouldn't implement it. However, you may be able to provide a more performant implementation than the default, so overriding it in this case makes sense."#;

    test_roundtrip(s);
    assert!(compress_block(s.as_bytes()).len() < s.len());
}

#[test]
fn test_dickens() {
    test_roundtrip(dickens());
}

#[test]
fn test_json_66k() {
    test_roundtrip(compression66json());
}

#[test]
fn test_text_65k() {
    test_roundtrip(compression65());
}

#[test]
fn test_text_34k() {
    test_roundtrip(compression34k());
}

#[test]
fn test_text_1k() {
    test_roundtrip(compression1k());
}

#[test]
fn tests_compressor_decompressor_debug() {
    let comp = Compressor::new();
    let dbg = format!("{comp:?}");
    assert!(dbg.contains("Compressor"), "{dbg}");

    let decomp = Decompressor::with_dict(b"test");
    let dbg = format!("{decomp:?}");
    assert!(dbg.contains("Decompressor"), "{dbg}");
}

#[test]
fn tests_error_types_are_clone_eq() {
    let e1 = DecompressError::OffsetZero;
    let e2 = e1.clone();
    assert_eq!(e1, e2);
}

fn dict_roundtrip(corpus: &[u8], dict_bytes: usize) {
    let dict = &corpus[..dict_bytes];
    let input = &corpus[dict_bytes..];

    let mut comp = Compressor::with_dict(dict);
    let compressed = comp.compress(input);
    let decomp = Decompressor::with_dict(dict);
    let decompressed = decomp.decompress(&compressed, input.len()).unwrap();
    assert_eq!(input, &decompressed[..]);

    // Dict should help: compressed size strictly smaller than without dict.
    let no_dict = compress(input);
    assert!(compressed.len() < no_dict.len());
}

fn hdfs_like(target_bytes: usize) -> Vec<u8> {
    let mut out = Vec::with_capacity(target_bytes);
    let mut i = 0u64;
    while out.len() < target_bytes {
        let line = format!(
            r#"{{"date":"081109","time":"{:06}","pid":{},"level":"INFO","component":"dfs.DataNode$PacketResponder","content":"PacketResponder {} for block blk_{} terminating"}}"#,
            203615 + i % 1000,
            143 + i % 17,
            i % 3,
            -1608999687919862906i64 + (i as i64) * 7919
        );
        out.extend_from_slice(line.as_bytes());
        out.push(b'\n');
        i += 1;
    }
    out.truncate(target_bytes);
    out
}

#[test]
fn tests_hdfs_dict_4k() {
    dict_roundtrip(&hdfs_like(200_000), 4096);
}

#[test]
fn tests_hdfs_dict_64k() {
    dict_roundtrip(&hdfs_like(200_000), 65536);
}

#[test]
fn tests_json66k_dict_4k() {
    dict_roundtrip(&compression66json(), 4096);
}

fn print_ratio(text: &str, val1: usize, val2: usize) {
    println!("{:?} {:.3} {} -> {}", text, val1 as f32 / val2 as f32, val1, val2);
}

#[test]
fn tests_test_comp_flex() {
    let c1 = compression1k();
    let c34 = compression34k();
    print_ratio("Ratio 1k flex", c1.len(), compress_block(&c1).len());
    print_ratio("Ratio 34k flex", c34.len(), compress_block(&c34).len());
}

#[test]
fn test_comp_lz4_linked() {
    let get_compressed_size = |input: &[u8]| lz4_cpp_block_compress(input).unwrap().len();
    let c1 = compression1k();
    let c34 = compression34k();
    print_ratio("Ratio 1k C", c1.len(), get_compressed_size(&c1));
    print_ratio("Ratio 34k C", c34.len(), get_compressed_size(&c34));
}
