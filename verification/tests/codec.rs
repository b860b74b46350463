use huffman::codec::{decode, encode, gen_bitmask_lalign, lengths_to_codes, match_code, CodecError};

fn expect_encode(input: &Vec<u8>) -> Vec<u8> {
    encode(input).expect("encode should succeed")
}

fn expect_decode(stream: &Vec<u8>) -> Vec<u8> {
    decode(stream).expect("decode should succeed")
}

#[test]
fn empty_input_round_trip() {
    let input: Vec<u8> = Vec::new();
    let out = expect_encode(&input);
    assert_eq!(out.len(), 264);
    assert_eq!(out, vec![0u8; 264]);
    assert_eq!(expect_decode(&out), input);
}

#[test]
fn single_byte_round_trip() {
    let input = vec![0x41u8];
    let out = expect_encode(&input);
    assert_eq!(out.len(), 265);
    assert_eq!(&out[0..8], &[0, 0, 0, 0, 0, 0, 0, 1]);
    for b in 0..256usize {
        let expected = if b == 0x41 { 1 } else { 0 };
        assert_eq!(out[8 + b], expected);
    }
    assert_eq!(out[264], 0x00);
    assert_eq!(expect_decode(&out), input);
}

#[test]
fn small_text_stream_shape() {
    let input: Vec<u8> = b"AAAABBC".to_vec();
    let out = expect_encode(&input);
    assert_eq!(&out[0..8], &[0, 0, 0, 0, 0, 0, 0, 7]);
    for b in 0..256usize {
        let expected = match b {
            0x41 => 1,
            0x42 => 2,
            0x43 => 2,
            _ => 0,
        };
        assert_eq!(out[8 + b], expected);
    }
    assert_eq!(&out[264..], &[0b00001010, 0b11000000]);
    assert_eq!(expect_decode(&out), input);
}

#[test]
fn large_pseudo_random_round_trip() {
    // A fixed linear congruential generator keeps the input reproducible.
    let mut state: u64 = 0x2545F4914F6CDD1D;
    let mut input: Vec<u8> = Vec::with_capacity(65536);
    for _ in 0..65536 {
        state = state
            .wrapping_mul(6364136223846793005)
            .wrapping_add(1442695040888963407);
        input.push((state >> 33) as u8);
    }
    let out = expect_encode(&input);
    assert!(out.len() <= input.len() + 264);
    assert_eq!(expect_decode(&out), input);
}

#[test]
fn corrupted_payload_does_not_overrun() {
    let input: Vec<u8> = b"AAAABBC".to_vec();
    let mut out = expect_encode(&input);
    // Flip one bit inside the payload.
    out[264] ^= 0b1000_0000;
    match decode(&out) {
        Ok(decoded) => {
            // Wrong symbols are allowed, but never more than the declared count.
            assert_eq!(decoded.len(), 7);
            assert_ne!(decoded, input);
        }
        Err(e) => {
            assert!(e == CodecError::UnmatchedWindow || e == CodecError::TruncatedStream);
        }
    }
}

#[test]
fn equal_frequency_tie_break_is_deterministic() {
    // Two symbols share a frequency; the tie-break pins the tree shape.
    let input: Vec<u8> = b"AABBCCCC".to_vec();
    let out = expect_encode(&input);
    for b in 0..256usize {
        let expected = match b {
            0x41 => 2,
            0x42 => 2,
            0x43 => 1,
            _ => 0,
        };
        assert_eq!(out[8 + b], expected);
    }
    let decoded = expect_decode(&out);
    assert_eq!(decoded, input);
    // Re-encoding the decoder's output reproduces identical bytes.
    let out2 = expect_encode(&decoded);
    assert_eq!(out2, out);

    // A skewed-frequency input exercises the same tie-break rule.
    let mut skewed: Vec<u8> = Vec::new();
    for _ in 0..100 {
        skewed.push(b'A');
    }
    for _ in 0..10 {
        skewed.push(b'B');
    }
    skewed.push(b'C');
    let s_out = expect_encode(&skewed);
    assert_eq!(expect_decode(&s_out), skewed);
    assert_eq!(expect_encode(&expect_decode(&s_out)), s_out);
}

#[test]
fn repeated_single_symbol_round_trip() {
    let input = vec![0x7Fu8; 1000];
    let out = expect_encode(&input);
    // One distinct symbol is forced to code length one: 1000 bits of payload.
    assert_eq!(out.len(), 264 + 125);
    assert_eq!(expect_decode(&out), input);
}

#[test]
fn two_alternating_symbols_round_trip() {
    let mut input: Vec<u8> = Vec::new();
    for i in 0..500 {
        input.push(if i % 2 == 0 { 0x00 } else { 0xFF });
    }
    let out = expect_encode(&input);
    assert_eq!(expect_decode(&out), input);
}

#[test]
fn truncated_header_is_rejected() {
    assert_eq!(decode(&vec![0u8; 263]), Err(CodecError::TruncatedStream));
    assert_eq!(decode(&Vec::new()), Err(CodecError::TruncatedStream));
}

#[test]
fn truncated_payload_is_rejected() {
    let input: Vec<u8> = b"AAAABBC".to_vec();
    let out = expect_encode(&input);
    // Keep the header, drop the payload: seven symbols are owed but no bits remain.
    let header_only: Vec<u8> = out[0..264].to_vec();
    assert_eq!(decode(&header_only), Err(CodecError::TruncatedStream));
}

#[test]
fn oversized_length_entry_is_rejected() {
    let mut stream = vec![0u8; 265];
    stream[7] = 1;
    stream[8] = 33;
    assert_eq!(decode(&stream), Err(CodecError::OversizedCode));
}

#[test]
fn unmatched_window_is_reported() {
    // One declared symbol with a two-bit code `00`, but the payload starts `11`.
    let mut stream = vec![0u8; 265];
    stream[7] = 1;
    stream[8 + 0x41] = 2;
    stream[264] = 0xFF;
    assert_eq!(decode(&stream), Err(CodecError::UnmatchedWindow));
}

#[test]
fn canonical_codes_for_known_lengths() {
    let mut lens = vec![0u8; 256];
    lens[0x41] = 1;
    lens[0x42] = 2;
    lens[0x43] = 2;
    let codes = lengths_to_codes(&lens);
    assert_eq!(codes[0x41].code, 0b0);
    assert_eq!(codes[0x41].len, 1);
    assert_eq!(codes[0x41].symbol, Some(0x41));
    assert_eq!(codes[0x42].code, 0b10);
    assert_eq!(codes[0x42].len, 2);
    assert_eq!(codes[0x43].code, 0b11);
    assert_eq!(codes[0x43].len, 2);
    for b in 0..256usize {
        if b != 0x41 && b != 0x42 && b != 0x43 {
            assert_eq!(codes[b].len, 0);
            assert_eq!(codes[b].symbol, None);
        }
    }
}

#[test]
fn bitmask_selects_top_bits() {
    assert_eq!(gen_bitmask_lalign(0), 0);
    assert_eq!(gen_bitmask_lalign(1), 0x8000_0000_0000_0000);
    assert_eq!(gen_bitmask_lalign(4), 0xF000_0000_0000_0000);
    assert_eq!(gen_bitmask_lalign(32), 0xFFFF_FFFF_0000_0000);
    assert_eq!(gen_bitmask_lalign(64), u64::MAX);
}

#[test]
fn match_code_finds_first_match() {
    let mut lens = vec![0u8; 256];
    lens[0x41] = 1;
    lens[0x42] = 2;
    lens[0x43] = 2;
    let all = lengths_to_codes(&lens);
    let codes: Vec<_> = all.into_iter().filter(|c| c.len > 0).collect();
    // Window starting with a zero bit matches the one-bit code of `A`.
    let a = match_code(0x0000_0000_0000_0000, &codes).unwrap();
    assert_eq!(a.symbol, Some(0x41));
    // `10...` matches `B`, `11...` matches `C`.
    let b = match_code(0x8000_0000_0000_0000, &codes).unwrap();
    assert_eq!(b.symbol, Some(0x42));
    let c = match_code(0xC000_0000_0000_0000, &codes).unwrap();
    assert_eq!(c.symbol, Some(0x43));
    // An empty table matches nothing.
    let none = match_code(0, &Vec::new());
    assert_eq!(none, Err(CodecError::UnmatchedWindow));
}

#[test]
fn oversized_tree_is_reported_by_encode() {
    // Fibonacci-like frequencies force one symbol per depth level; 40
    // distinct symbols push the deepest code past the 32-bit window.
    let mut input: Vec<u8> = Vec::new();
    let mut a: u64 = 1;
    let mut b: u64 = 1;
    for sym in 0..40u8 {
        for _ in 0..a {
            input.push(sym);
        }
        let next = a + b;
        a = b;
        b = next;
    }
    assert_eq!(encode(&input), Err(CodecError::OversizedCode));
}
