use ccs::clipboard::{base64_encode, osc52_sequence, yank_flash_text, CopyMethod};

#[test]
fn base64_encodes_rfc4648_vectors() {
    assert_eq!(base64_encode(b""), "");
    assert_eq!(base64_encode(b"f"), "Zg==");
    assert_eq!(base64_encode(b"fo"), "Zm8=");
    assert_eq!(base64_encode(b"foo"), "Zm9v");
    assert_eq!(base64_encode(b"foob"), "Zm9vYg==");
    assert_eq!(base64_encode(b"fooba"), "Zm9vYmE=");
    assert_eq!(base64_encode(b"foobar"), "Zm9vYmFy");
}

#[test]
fn base64_handles_utf8_payload() {
    let s = "héllo ✨";
    let enc = base64_encode(s.as_bytes());
    for c in enc.chars() {
        assert!(c.is_ascii_alphanumeric() || c == '+' || c == '/' || c == '=', "unexpected base64 char: {c}");
    }
    assert_eq!(enc.len() % 4, 0);
}

#[test]
fn base64_of_accented_text_is_exact() {
    assert_eq!(base64_encode("héllo".as_bytes()), "aMOpbGxv");
}

#[test]
fn base64_uses_plus_and_slash() {
    assert_eq!(base64_encode(&[0xfb, 0xff]), "+/8=");
}

#[test]
fn base64_length_is_four_per_started_group() {
    for n in 0..20usize {
        let input = vec![0x41u8; n];
        assert_eq!(base64_encode(&input).len(), 4 * n.div_ceil(3));
    }
}

#[test]
fn osc52_wraps_the_encoded_text() {
    assert_eq!(osc52_sequence("foo"), "\x1b]52;c;Zm9v\x07");
}

#[test]
fn yank_flash_names_the_transport() {
    assert_eq!(yank_flash_text(5, Some(CopyMethod::System)), "yanked 5 chars (system)");
    assert_eq!(yank_flash_text(12, Some(CopyMethod::Osc52)), "yanked 12 chars (osc52)");
    assert_eq!(yank_flash_text(0, None), "yank failed (see logs)");
}

#[test]
fn base64_of_whole_groups_concatenates() {
    let joined = base64_encode(b"foobar!");
    assert_eq!(joined, format!("{}{}", base64_encode(b"foo"), base64_encode(b"bar!")));
}
