use lz4rip::block::{compress, Compressor, Decompressor, DictTrainer};

fn json_msg(i: u32) -> Vec<u8> {
    format!(
        r#"{{"ts":"2026-04-27T12:00:00.{i:04}Z","level":"INFO","service":"api-gw","trace":"{i:08x}","method":"GET","path":"/v1/users/{i:04}","status":200,"latency_ms":{lat},"region":"us-east-1"}}"#,
        i = i,
        lat = 10 + i % 490,
    )
    .into_bytes()
}

#[test]
fn train_produces_nonempty_dict() {
    let mut trainer = DictTrainer::new(2048);
    for i in 0..100 {
        trainer.add_sample(&json_msg(i));
    }
    let dict = trainer.train();
    assert!(!dict.is_empty(), "dict should not be empty");
    assert!(dict.len() <= 2048, "dict should respect max size");
}

#[test]
fn dict_improves_compression() {
    let mut trainer = DictTrainer::new(2048);
    for i in 0..200 {
        trainer.add_sample(&json_msg(i));
    }
    let dict = trainer.train();
    assert!(!dict.is_empty());

    let mut compressor = Compressor::with_dict(&dict);
    let decompressor = Decompressor::with_dict(&dict);

    let test_msg = json_msg(9999);
    let compressed_with = compressor.compress(&test_msg);
    let compressed_without = compress(&test_msg);

    assert!(
        compressed_with.len() < compressed_without.len(),
        "dict compressed {} >= no-dict {}",
        compressed_with.len(),
        compressed_without.len()
    );

    let mut decomp_buf = vec![0u8; test_msg.len()];
    let n = decompressor.decompress_into(&compressed_with, &mut decomp_buf).unwrap();
    assert_eq!(&decomp_buf[..n], &test_msg[..]);
}

#[test]
fn cover_beats_naive_tail() {
    let mut trainer = DictTrainer::new(2048);
    let mut buf = Vec::new();
    for i in 0..200 {
        let msg = json_msg(i);
        trainer.add_sample(&msg);
        buf.extend_from_slice(&msg);
    }

    let cover_dict = trainer.train();
    let naive_dict = buf[buf.len() - 2048..].to_vec();

    let test_msg = json_msg(9999);

    let mut comp_cover = Compressor::with_dict(&cover_dict);
    let mut comp_naive = Compressor::with_dict(&naive_dict);

    let c_cover = comp_cover.compress(&test_msg);
    let c_naive = comp_naive.compress(&test_msg);

    assert!(c_cover.len() < test_msg.len());
    assert!(c_naive.len() < test_msg.len());
}

#[test]
fn skips_too_short() {
    let mut trainer = DictTrainer::new(2048);
    trainer.add_sample(b"hi");
    assert_eq!(trainer.sample_count(), 0);
}

#[test]
fn skips_too_long() {
    let mut trainer = DictTrainer::new(64);
    trainer.add_sample(&[0u8; 100]);
    assert_eq!(trainer.sample_count(), 0);
}

#[test]
fn evicts_old_samples() {
    let mut trainer = DictTrainer::new(2048);
    for i in 0..200 {
        trainer.add_sample(&json_msg(i));
    }
    assert!(trainer.total_bytes() <= 2048 * 8);
    assert!(trainer.sample_count() < 200);
}

#[test]
fn too_few_samples_returns_empty() {
    let mut trainer = DictTrainer::new(2048);
    trainer.add_sample(b"hello world");
    assert!(trainer.train().is_empty());
}

#[test]
fn eviction_drops_oldest_until_the_new_sample_fits() {
    // Budget is 8 * 32 = 256 bytes.
    let mut trainer = DictTrainer::new(32);
    for _ in 0..8 {
        trainer.add_sample(&[1u8; 32]);
    }
    assert_eq!(trainer.sample_count(), 8);
    assert_eq!(trainer.total_bytes(), 256);
    trainer.add_sample(&[2u8; 10]);
    assert_eq!(trainer.sample_count(), 8);
    assert_eq!(trainer.total_bytes(), 7 * 32 + 10);
}

#[test]
fn small_samples_give_their_concatenation() {
    // Fewer bytes than a quarter of the dictionary size: all of them, in order.
    let mut trainer = DictTrainer::new(2048);
    trainer.add_sample(b"abcd");
    trainer.add_sample(b"efgh");
    assert_eq!(trainer.train(), b"abcdefgh");
}

#[test]
fn max_dict_size_is_capped() {
    let mut trainer = DictTrainer::new(1 << 20);
    let big = vec![7u8; 70_000];
    trainer.add_sample(&big);
    // Longer than the 65535-byte cap, so skipped.
    assert_eq!(trainer.sample_count(), 0);
    trainer.add_sample(&big[..65_535]);
    assert_eq!(trainer.sample_count(), 1);
}

#[test]
fn trained_dict_is_made_of_sample_segments() {
    let mut trainer = DictTrainer::new(64);
    let samples: Vec<Vec<u8>> = (0..6u8).map(|i| format!("record-{i}-common-tail-bytes").into_bytes()).collect();
    let mut all = Vec::new();
    for s in &samples {
        trainer.add_sample(s);
        all.extend_from_slice(s);
    }
    let dict = trainer.train();
    assert!(!dict.is_empty());
    assert!(dict.len() <= 64);
    // Segments are 16 bytes of the concatenated samples.
    for chunk in dict.chunks(16) {
        assert!(all.windows(chunk.len()).any(|w| w == chunk));
    }
}
