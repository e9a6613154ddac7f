use wiwi::base32::{encode_base32, encode_base32hex};
use wiwi::encoding_utils::ChunkedSlice;
use wiwi::hex::{decode_hex, encode_hex, encode_hex_upper, DecodeError};

#[test]
fn base32_rfc_provided_examples() {
    let examples = [
        ("", ""),
        ("f", "MY======"),
        ("fo", "MZXQ===="),
        ("foo", "MZXW6==="),
        ("foob", "MZXW6YQ="),
        ("fooba", "MZXW6YTB"),
        ("foobar", "MZXW6YTBOI======"),
    ];
    for (bytes, encoded) in examples {
        assert_eq!(encoded, encode_base32(bytes.as_bytes()));
    }
}

#[test]
fn rfc_provided_examples_base32hex() {
    let examples = [
        ("", ""),
        ("f", "CO======"),
        ("fo", "CPNG===="),
        ("foo", "CPNMU==="),
        ("foob", "CPNMUOG="),
        ("fooba", "CPNMUOJ1"),
        ("foobar", "CPNMUOJ1E8======"),
    ];
    for (bytes, encoded) in examples {
        assert_eq!(encoded, encode_base32hex(bytes.as_bytes()));
    }
}

#[test]
fn hex_rfc_provided_examples() {
    let examples = [
        ("", ""),
        ("f", "66"),
        ("fo", "666F"),
        ("foo", "666F6F"),
        ("foob", "666F6F62"),
        ("fooba", "666F6F6261"),
        ("foobar", "666F6F626172"),
    ];
    for (bytes, encoded) in examples {
        assert_eq!(encoded, encode_hex_upper(bytes.as_bytes()));
        assert_eq!(encoded.to_lowercase(), encode_hex(bytes.as_bytes()));
    }
}

#[test]
fn hex_all_byte_values() {
    let bytes: Vec<u8> = (0..=255u8).collect();
    let lower = encode_hex(&bytes);
    let upper = encode_hex_upper(&bytes);
    assert_eq!(lower.len(), 512);
    assert_eq!(&lower[0..6], "000102");
    assert_eq!(&lower[lower.len() - 4..], "feff");
    assert_eq!(&upper[upper.len() - 4..], "FEFF");
    assert_eq!(encode_hex(&[0xab, 0x09]), "ab09");
}

#[test]
fn base32_every_remainder() {
    assert_eq!(encode_base32(&[0xff]), "74======");
    assert_eq!(encode_base32(&[0xff, 0xff, 0xff, 0xff, 0xff]), "77777777");
    assert_eq!(encode_base32hex(&[0xff, 0xff, 0xff, 0xff, 0xff]), "VVVVVVVV");
    assert_eq!(encode_base32(&[0, 0, 0, 0, 0, 0]), "AAAAAAAAAA======");
    assert_eq!(encode_base32hex(&[0, 0, 0, 0]), "0000000=");
}

fn fill(buf: &mut [u8], seed: &mut u64) {
    for b in buf.iter_mut() {
        *seed = seed.wrapping_mul(6364136223846793005).wrapping_add(1442695040888963407);
        *b = (*seed >> 33) as u8;
    }
}

#[test]
fn randomised() {
    let expected_lengths = [
        (0usize, 0usize),
        (1, 2),
        (2, 4),
        (3, 6),
        (4, 8),
        (5, 10),
        (6, 12),
        (7, 14),
        (8, 16),
        (9, 18),
        (10, 20),
        (11, 22),
        (12, 24),
        (13, 26),
        (14, 28),
        (15, 30),
        (16, 32),
        (17, 34),
        (18, 36),
        (19, 38),
        (20, 40),
        (50, 100),
        (100, 200),
        (500, 1000),
        (1000, 2000),
        (100_000, 200_000),
        (1_000_000, 2_000_000),
    ];

    let mut seed = 0x2545f4914f6cdd1du64;
    for (expected_input_len, expected_output_len) in expected_lengths {
        for _ in 0usize..5 {
            let mut original_input = vec![0u8; expected_input_len];
            fill(&mut original_input, &mut seed);
            assert_eq!(original_input.len(), expected_input_len);

            let encoded_lower = encode_hex(&original_input);
            assert_eq!(encoded_lower.len(), expected_output_len);
            let encoded_upper = encode_hex_upper(&original_input);
            assert_eq!(encoded_upper.len(), expected_output_len);

            let decoded_lower = decode_hex(encoded_lower.as_bytes())
                .expect("can round trip decode just encoded data");
            assert_eq!(decoded_lower.len(), expected_input_len);
            assert_eq!(original_input, decoded_lower);

            let decoded_upper = decode_hex(encoded_upper.as_bytes())
                .expect("can round trip decode just encoded data");
            assert_eq!(decoded_upper.len(), expected_input_len);
            assert_eq!(original_input, decoded_upper);

            assert_eq!(encoded_lower.len(), encoded_lower.capacity());
            assert_eq!(decoded_lower.len(), decoded_lower.capacity());
            assert_eq!(encoded_upper.len(), encoded_upper.capacity());
            assert_eq!(decoded_upper.len(), decoded_upper.capacity());
        }
    }
}

#[test]
fn hex_decode_errors() {
    assert_eq!(decode_hex(b"abc"), Err(DecodeError::InvalidLength));
    assert_eq!(decode_hex(b"0g"), Err(DecodeError::InvalidChar));
    assert_eq!(decode_hex(b"12 4"), Err(DecodeError::InvalidChar));
    assert_eq!(decode_hex(b""), Ok(vec![]));
    assert_eq!(decode_hex(b"00fFaB"), Ok(vec![0x00, 0xff, 0xab]));
}

#[test]
fn chunked_slice_frames() {
    let bytes = [1u8, 2, 3, 4, 5, 6, 7];
    let mut chunks = ChunkedSlice::<3>::new(&bytes);
    assert!(chunks.has_frame());
    assert_eq!(chunks.next_frame(), &[1, 2, 3]);
    assert_eq!(chunks.next_frame(), &[4, 5, 6]);
    assert!(!chunks.has_frame());
    assert_eq!(chunks.remainder(), &[7]);
}
