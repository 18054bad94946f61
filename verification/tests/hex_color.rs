use drop_size::hex_color::{decode, is_valid};

#[test]
fn decodes_six_digits() {
    assert_eq!(decode("#FF5733"), Some([255, 87, 51]));
    assert_eq!(decode("#00457b"), Some([0x00, 0x45, 0x7b]));
}

#[test]
fn short_form_doubles_each_digit() {
    assert_eq!(decode("#1a2"), Some([0x11, 0xaa, 0x22]));
    assert_eq!(decode("#1A2"), Some([0x11, 0xaa, 0x22]));
    assert_eq!(decode("#fff"), Some([255, 255, 255]));
}

#[test]
fn rejects_what_is_not_a_colour() {
    assert_eq!(decode("bad"), None);
    assert_eq!(decode("#12"), None);
    assert_eq!(decode("#ggg"), None);
    assert_eq!(decode(""), None);
    assert_eq!(decode("#"), None);
    assert_eq!(decode("#12345"), None);
    assert_eq!(decode("#1234567"), None);
    assert_eq!(decode("1234567"), None);
    assert_eq!(decode("#+1+2+3"), None);
    assert_eq!(decode("#é1"), None);
}

#[test]
fn validity_matches_decoding() {
    assert!(is_valid("#abc"));
    assert!(is_valid("#ABCDEF"));
    assert!(!is_valid("#abcd"));
    assert!(!is_valid("abc#"));
}
