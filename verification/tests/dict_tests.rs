use lz4rip::block::{compress, Compressor, Decompressor, DictTrainer};

fn json_payload(target_bytes: usize) -> Vec<u8> {
    let mut out = Vec::with_capacity(target_bytes);
    let mut i = 0u64;
    while out.len() < target_bytes {
        let line = format!(
            r#"{{"ts":1700000000,"level":"INFO","service":"ingest","event":{},"message":"repeatable structured payload for lz4 dictionary tests"}}"#,
            i
        );
        out.extend_from_slice(line.as_bytes());
        out.push(b'\n');
        i += 1;
    }
    out.truncate(target_bytes);
    out
}

fn hdfs_like(target_bytes: usize) -> Vec<u8> {
    let mut out = Vec::with_capacity(target_bytes);
    let mut i = 0u64;
    while out.len() < target_bytes {
        let line = format!(
            r#"{{"date":"081109","time":"{:06}","pid":{},"level":"INFO","component":"dfs.DataNode$PacketResponder","content":"PacketResponder {} for block blk_{} terminating"}}"#,
            203615 + i % 1000,
            143 + i % 17,
            i % 3,
            -1608999687919862906i64 + (i as i64) * 7919
        );
        out.extend_from_slice(line.as_bytes());
        out.push(b'\n');
        i += 1;
    }
    out.truncate(target_bytes);
    out
}

fn dict_roundtrip(corpus: &[u8], dict_bytes: usize) {
    let dict = &corpus[..dict_bytes];
    let input = &corpus[dict_bytes..];

    let mut comp = Compressor::with_dict(dict);
    let compressed = comp.compress(input);
    let decomp = Decompressor::with_dict(dict);
    let decompressed = decomp.decompress(&compressed, input.len()).unwrap();
    assert_eq!(input, &decompressed[..]);

    let no_dict = compress(input);
    assert!(compressed.len() < no_dict.len());
}

#[test]
fn dict_hdfs_dict_4k() {
    dict_roundtrip(&hdfs_like(200_000), 4096);
}

#[test]
fn dict_hdfs_dict_64k() {
    dict_roundtrip(&hdfs_like(200_000), 65536);
}

#[test]
fn dict_json66k_dict_4k() {
    dict_roundtrip(&json_payload(66_675), 4096);
}

#[test]
fn dict_trainer_zero_samples() {
    let trainer = DictTrainer::new(2048);
    assert!(trainer.train().is_empty());
}

#[test]
fn dict_trainer_one_sample() {
    let mut trainer = DictTrainer::new(2048);
    trainer.add_sample(b"hello world");
    assert!(trainer.train().is_empty());
}

#[test]
fn dict_trainer_short_samples_skipped() {
    let mut trainer = DictTrainer::new(2048);
    trainer.add_sample(b"ab");
    trainer.add_sample(b"cd");
    assert_eq!(trainer.sample_count(), 0);
}

#[test]
fn dict_trainer_oversized_sample_skipped() {
    let mut trainer = DictTrainer::new(16);
    let big = vec![b'x'; 32];
    trainer.add_sample(&big);
    assert_eq!(trainer.sample_count(), 0);
}

#[test]
fn dict_trainer_produces_usable_dict() {
    let mut trainer = DictTrainer::new(2048);
    for i in 0..100u8 {
        let sample = format!("message id={i} payload=the quick brown fox");
        trainer.add_sample(sample.as_bytes());
    }
    let dict = trainer.train();
    assert!(!dict.is_empty());
    assert!(dict.len() <= 2048);

    let input = b"message id=42 payload=the quick brown fox jumps";
    let mut comp = Compressor::with_dict(&dict);
    let compressed = comp.compress(input);
    let decomp = Decompressor::with_dict(&dict);
    let decompressed = decomp.decompress(&compressed, input.len()).unwrap();
    assert_eq!(&decompressed[..], input);
}

#[test]
fn dict_overlap_seed_overshoot() {
    let dict: Vec<u8> = (0..255u32).map(|i| i as u8).collect();
    let input = [15u8, 45, 0, 32, 3, 3, 34, 32, 13, 31, 31, 31, 0, 31, 31, 31, 13, 1, 255];
    let decomp = Decompressor::with_dict(&dict);
    let _ = decomp.decompress(&input, 51);
    for buf_size in [50usize, 51, 52, 255] {
        let mut out = vec![0u8; buf_size];
        let _ = decomp.decompress_into(&input, &mut out);
    }
}
