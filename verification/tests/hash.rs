use merkle_tree::{hash_bytes, hash_data, hash_pair, to_hex, Hashable};
use sha2::{Digest, Sha256};

#[test]
fn to_hex_renders_two_lowercase_digits_per_byte() {
    assert_eq!(to_hex(&[]), "");
    assert_eq!(to_hex(&[0x00]), "00");
    assert_eq!(to_hex(&[0x0a]), "0a");
    assert_eq!(to_hex(&[0xa0]), "a0");
    assert_eq!(to_hex(&[0xff]), "ff");
    assert_eq!(to_hex(&[10, 20, 30]), "0a141e");
    assert_eq!(
        to_hex(&[0x01, 0x23, 0x45, 0x67, 0x89, 0xab, 0xcd, 0xef]),
        "0123456789abcdef"
    );
}

#[test]
fn to_hex_covers_every_byte() {
    let all: Vec<u8> = (0..=255u8).collect();
    let text = to_hex(&all);
    assert_eq!(text.len(), 512);
    for (i, byte) in all.iter().enumerate() {
        assert_eq!(text[2 * i..2 * i + 2], format!("{:02x}", byte));
    }
}

#[test]
fn hash_bytes_is_sha256_in_hex() {
    assert_eq!(
        hash_bytes(b""),
        "e3b0c44298fc1c149afbf4c8996fb92427ae41e4649b934ca495991b7852b855"
    );
    assert_eq!(
        hash_bytes(b"abc"),
        "ba7816bf8f01cfea414140de5dae2223b00361a396177a9cb410ff61f20015ad"
    );
    assert_eq!(
        hash_bytes(&[0, 255, 10]),
        "712450d3c4a79eea9509e75dc1dacdeff58034df538536cfae2da882bd8a0c50"
    );
}

#[test]
fn hash_bytes_agrees_with_the_hasher_used_step_by_step() {
    for data in [&b""[..], b"A", b"hello world", &[0u8; 200][..]] {
        let mut hasher = Sha256::new();
        hasher.update(data);
        let expected = format!("{:x}", hasher.finalize());
        assert_eq!(hash_bytes(data), expected);
    }
}

#[test]
fn hash_data_hashes_the_utf8_bytes_of_the_text() {
    assert_eq!(
        hash_data("A"),
        "559aead08264d5795d3909718cdd05abd49572e84fe55590eef31a88a08fdffd"
    );
    assert_eq!(
        hash_data("hello world"),
        "b94d27b9934d3e08a52e52d7da7dabfac484efe37a5380ee9088f7ace2efcde9"
    );
    assert_eq!(
        hash_data("h\u{e9}llo"),
        "3c48591d8d098a4538f5e013dfcf406e948eac4d3277b10bf614e295d6068179"
    );
    assert_eq!(hash_data("h\u{e9}llo"), hash_bytes("h\u{e9}llo".as_bytes()));
}

#[test]
fn hash_data_is_deterministic() {
    assert_eq!(hash_data("same"), hash_data("same"));
    assert_ne!(hash_data("same"), hash_data("other"));
}

#[test]
fn hash_pair_hashes_left_then_right_without_separator() {
    let a = hash_data("A");
    let b = hash_data("B");
    assert_eq!(
        hash_pair(&a, &b),
        "b30ab174f7459cdd40a3acdf15d0c9444fec2adcfb9d579aa154c084885edd0a"
    );
    assert_eq!(hash_pair(&a, &b), hash_data(&format!("{}{}", a, b)));
    assert_eq!(hash_pair("ab", "c"), hash_data("abc"));
    assert_eq!(hash_pair("", "abc"), hash_data("abc"));
}

#[test]
fn hash_pair_depends_on_the_order() {
    let a = hash_data("A");
    let b = hash_data("B");
    assert_eq!(
        hash_pair(&b, &a),
        "7c09e6a60e044bb88e0351f5f27214b0a47c2468c2662bff4bbe4612ff47f783"
    );
    assert_ne!(hash_pair(&a, &b), hash_pair(&b, &a));
}

#[test]
fn fingerprints_are_64_lowercase_hex_digits() {
    for text in ["", "A", "a longer text with spaces", "\u{1f600}"] {
        let fingerprint = hash_data(text);
        assert_eq!(fingerprint.len(), 64);
        assert!(fingerprint.chars().all(|c| matches!(c, '0'..='9' | 'a'..='f')));
    }
}

#[test]
fn a_text_is_hashable_by_its_bytes() {
    let text = "alice->bob:10".to_string();
    assert_eq!(text.to_hash(), hash_data("alice->bob:10"));
    assert_eq!(
        text.to_hash(),
        "1e53ede8be98e2465820baca26563cee0205a2c880fcc30ca50f28ddf3386a02"
    );
}
