use session_wrapper::encoding::{base64, lossy_bytes, utf8_bytes};

#[test]
fn base64_pads_every_partial_group() {
    assert_eq!(base64(b""), "");
    assert_eq!(base64(b"f"), "Zg==");
    assert_eq!(base64(&b"foobar"[..2]), "Zm8=");
    assert_eq!(base64(b"foo"), "Zm9v");
    assert_eq!(base64(b"foobar"), "Zm9vYmFy");
}

#[test]
fn a_high_byte_uses_the_last_two_alphabet_characters() {
    assert_eq!(base64(&[0xfb, 0xff]), "+/8=");
    assert_eq!(base64(&[b'/', b'p', 0x80]), "L3CA");
}

#[test]
fn text_is_encoded_as_its_utf8_bytes() {
    for text in ["", "plain", "é", "€", "𝄞", "a\u{7f}\u{80}\u{7ff}\u{800}\u{ffff}\u{10000}"] {
        assert_eq!(utf8_bytes(text), text.as_bytes());
    }
}

#[test]
fn a_utf8_path_carries_no_base64_sibling() {
    assert_eq!(lossy_bytes(b"/c/settings/base.json"), None);
}

#[test]
fn a_non_utf8_path_carries_its_raw_bytes() {
    assert_eq!(lossy_bytes(&[b'/', b'p', 0x80]), Some("L3CA".to_owned()));
}
