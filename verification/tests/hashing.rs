use dust::hashing::{absorb, hash_bytes, to_hex};

#[test]
fn hex_is_lowercase_two_digits_a_byte() {
    assert_eq!(to_hex(&[]), "");
    assert_eq!(to_hex(&[0x00, 0xff, 0x1a, 0xa1]), "00ff1aa1");
    assert_eq!(to_hex(&[0x09, 0x0a, 0x0f, 0x10]), "090a0f10");
}

#[test]
fn hash_of_nothing() {
    assert_eq!(
        hash_bytes(b""),
        "af1349b9f5f9a1a6a0404dea36dcc9499bcb25c9adc112b7cc9a93cae41f3262"
    );
}

#[test]
fn hash_agrees_with_blake3() {
    for input in [&b""[..], b"root", b"search", b"{\"x\":1}{\"x\":2}"] {
        assert_eq!(hash_bytes(input), blake3::hash(input).to_hex().to_string());
    }
}

#[test]
fn hash_is_not_its_input() {
    let h = hash_bytes(b"abc");
    assert_ne!(h.as_bytes(), b"abc");
    assert_ne!(h, to_hex(b"abc"));
}

#[test]
fn hash_has_64_lowercase_hex_digits() {
    let h = hash_bytes(b"some content");
    assert_eq!(h.len(), 64);
    assert!(h.chars().all(|c| c.is_ascii_digit() || ('a'..='f').contains(&c)));
}

#[test]
fn hash_is_stable() {
    assert_eq!(hash_bytes(b"the same bytes"), hash_bytes(b"the same bytes"));
    assert_ne!(hash_bytes(b"the same bytes"), hash_bytes(b"other bytes"));
}

#[test]
fn absorb_appends_utf8() {
    let mut buffer = vec![1u8];
    absorb(&mut buffer, "aé");
    assert_eq!(buffer, vec![1u8, b'a', 0xc3, 0xa9]);
    absorb(&mut buffer, "");
    assert_eq!(buffer.len(), 4);
}
