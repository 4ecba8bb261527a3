use lz4rip::block::{decompress_into, Decompressor};

struct Token {
    literal_len: u8,
    match_len: u8,
    offset: u16,
    literal_fill: u8,
    extra_lit_ext: u8,
    extra_match_ext: u8,
    is_last: bool,
}

/// A structurally valid block made of the given tokens.
fn build_block(tokens: &[Token]) -> Vec<u8> {
    let mut out = Vec::with_capacity(256);
    let num_tokens = tokens.len().min(32);
    for (i, tok) in tokens.iter().take(num_tokens).enumerate() {
        let is_last = tok.is_last || i + 1 == num_tokens;
        let lit_nibble = (tok.literal_len >> 4).min(15);
        let match_nibble = (tok.match_len & 0x0F).min(15);

        let token_byte = (lit_nibble << 4) | match_nibble;
        out.push(token_byte);

        let mut lit_len = lit_nibble as usize;
        if lit_nibble == 15 {
            for _ in 0..tok.extra_lit_ext {
                out.push(0xFF);
                lit_len += 255;
            }
            out.push(tok.literal_len & 0x7F);
            lit_len += (tok.literal_len & 0x7F) as usize;
        }

        for _ in 0..lit_len {
            out.push(tok.literal_fill);
        }

        if is_last && match_nibble == 0 && lit_nibble < 15 {
            break;
        }

        out.extend_from_slice(&tok.offset.to_le_bytes());

        if match_nibble == 15 {
            for _ in 0..tok.extra_match_ext {
                out.push(0xFF);
            }
            out.push(tok.match_len & 0x7F);
        }

        if is_last {
            break;
        }
    }
    out
}

struct Lcg(u64);

impl Lcg {
    fn next(&mut self) -> u64 {
        self.0 = self.0.wrapping_mul(6364136223846793005).wrapping_add(1442695040888963407);
        self.0 >> 33
    }
}

#[test]
fn crafted_blocks_never_panic() {
    let mut rng = Lcg(42);
    for _ in 0..2000 {
        let n = (rng.next() % 8) as usize;
        let tokens: Vec<Token> = (0..n)
            .map(|_| Token {
                literal_len: rng.next() as u8,
                match_len: rng.next() as u8,
                offset: (rng.next() % 300) as u16,
                literal_fill: rng.next() as u8,
                extra_lit_ext: (rng.next() % 5) as u8,
                extra_match_ext: (rng.next() % 5) as u8,
                is_last: rng.next() % 4 == 0,
            })
            .collect();
        let block = build_block(&tokens);
        let output_size = (rng.next() % 4096) as usize;
        let mut out = vec![0u8; output_size];
        let _ = decompress_into(&block, &mut out);
        let dict_size = (rng.next() % 512) as usize;
        if dict_size > 0 {
            let dict: Vec<u8> = (0..dict_size).map(|i| (i & 0xFF) as u8).collect();
            let mut out = vec![0u8; output_size];
            let _ = Decompressor::with_dict(&dict).decompress_into(&block, &mut out);
        }
    }
}

#[test]
fn crafted_rle_block_decodes() {
    // Two literals, then a match at offset 1 repeating the last literal.
    let tokens = [Token {
        literal_len: 0x20,
        match_len: 0x03,
        offset: 1,
        literal_fill: b'q',
        extra_lit_ext: 0,
        extra_match_ext: 0,
        is_last: false,
    }, Token {
        literal_len: 0x10,
        match_len: 0,
        offset: 0,
        literal_fill: b'!',
        extra_lit_ext: 0,
        extra_match_ext: 0,
        is_last: true,
    }];
    let block = build_block(&tokens);
    let mut out = vec![0u8; 16];
    let n = decompress_into(&block, &mut out).unwrap();
    assert_eq!(&out[..n], b"qqqqqqqqq!");
}
