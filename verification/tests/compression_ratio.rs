use lz4rip::compress as compress_block;

fn text_payload(target_bytes: usize) -> Vec<u8> {
    const SENTENCE: &[u8] = b"the quick brown fox jumps over the lazy dog; lz4 block test payload\n";
    let mut out = Vec::with_capacity(target_bytes);
    while out.len() < target_bytes {
        out.extend_from_slice(SENTENCE);
    }
    out.truncate(target_bytes);
    out
}

fn json_payload(target_bytes: usize) -> Vec<u8> {
    let mut out = Vec::with_capacity(target_bytes);
    let mut i = 0u64;
    while out.len() < target_bytes {
        let line = format!(
            r#"{{"ts":1700000000,"level":"INFO","service":"ingest","event":{},"message":"repeatable structured payload for lz4 dictionary tests"}}"#,
            i
        );
        out.extend_from_slice(line.as_bytes());
        out.push(b'\n');
        i += 1;
    }
    out.truncate(target_bytes);
    out
}

fn print_ratio(text: &str, val1: usize, val2: usize) {
    println!("{:?} {:.3} {} -> {}", text, val1 as f32 / val2 as f32, val1, val2);
}

#[test]
fn compression_ratio_test_minimum_compression_ratio_block() {
    let compression34k = text_payload(34_308);
    let compression65 = text_payload(64_723);
    let compression66json = json_payload(66_675);

    let compressed = compress_block(&compression34k);
    let ratio = compressed.len() as f64 / compression34k.len() as f64;
    assert!(ratio < 0.59);

    let compressed = compress_block(&compression65);
    let ratio = compressed.len() as f64 / compression65.len() as f64;
    assert!(ratio < 0.59);

    let compressed = compress_block(&compression66json);
    let ratio = compressed.len() as f64 / compression66json.len() as f64;
    assert!(ratio < 0.240);
}

#[test]
fn compression_ratio_test_comp_flex() {
    let compression1k = text_payload(725);
    let compression34k = text_payload(34_308);
    print_ratio("Ratio 1k flex", compression1k.len(), compress_block(&compression1k).len());
    print_ratio("Ratio 34k flex", compression34k.len(), compress_block(&compression34k).len());
}
