use vasc_collab::fingerprint::{fnv_feed, hash_content, render_hex16, FNV_OFFSET, FNV_PRIME};

#[test]
fn fingerprint_of_known_contents() {
    assert_eq!(hash_content(b""), "a8c7f832281a39c5");
    assert_eq!(hash_content(b"x"), "529a64dc8ff592d4");
    assert_eq!(hash_content(b"y"), "529a65dc8ff59487");
    assert_eq!(hash_content(b"hello world"), "dd238b944d9d0096");
    assert_eq!(hash_content(b"foo"), "8731bbd23194e5b6");
    assert_eq!(hash_content(b"bar"), "a7f44cd243998d7f");
}

#[test]
fn fingerprint_of_long_content() {
    let content = vec![b'a'; 300];
    assert_eq!(hash_content(&content), "a7be90758ae5b662");
}

#[test]
fn fingerprint_is_sixteen_lowercase_hex_digits() {
    let samples: Vec<&[u8]> = vec![b"", b"x", b"hello world", b"\x00\xff\x10", b"print('hi')"];
    for content in samples {
        let fp = hash_content(content);
        assert_eq!(fp.len(), 16);
        assert!(fp.chars().all(|c| matches!(c, '0'..='9' | 'a'..='f')));
    }
}

#[test]
fn fingerprint_depends_on_length_as_well_as_bytes() {
    assert_ne!(hash_content(b""), hash_content(b"\x00"));
    assert_ne!(hash_content(b"\x00"), hash_content(b"\x00\x00"));
}

#[test]
fn fnv_feed_of_nothing_is_the_state() {
    assert_eq!(fnv_feed(FNV_OFFSET, b""), FNV_OFFSET);
    assert_eq!(fnv_feed(7, b""), 7);
}

#[test]
fn fnv_feed_is_plain_fnv1a() {
    // FNV-1a test vectors for 64 bits.
    assert_eq!(fnv_feed(FNV_OFFSET, b"a"), 0xaf63dc4c8601ec8c);
    assert_eq!(fnv_feed(FNV_OFFSET, b"foobar"), 0x85944171f73967e8);
    assert_eq!(fnv_feed(0, b"\x01"), FNV_PRIME);
}

#[test]
fn fnv_feed_continues_a_running_state() {
    let whole = fnv_feed(FNV_OFFSET, b"foobar");
    let first = fnv_feed(FNV_OFFSET, b"foo");
    assert_eq!(fnv_feed(first, b"bar"), whole);
}

#[test]
fn render_hex16_pads_with_zeros() {
    assert_eq!(render_hex16(0), "0000000000000000");
    assert_eq!(render_hex16(1), "0000000000000001");
    assert_eq!(render_hex16(0xabc), "0000000000000abc");
    assert_eq!(render_hex16(u64::MAX), "ffffffffffffffff");
    assert_eq!(render_hex16(0x0123456789abcdef), "0123456789abcdef");
}
