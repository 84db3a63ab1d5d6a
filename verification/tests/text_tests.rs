use mini_rag::text::{is_whitespace, len_utf8};

#[test]
fn whitespace_matches_char_is_whitespace() {
    for u in 0..=0x10FFFFu32 {
        if let Some(c) = char::from_u32(u) {
            assert_eq!(is_whitespace(c), c.is_whitespace(), "U+{u:04X}");
        }
    }
}

#[test]
fn utf8_length_matches_char_len_utf8() {
    for u in 0..=0x10FFFFu32 {
        if let Some(c) = char::from_u32(u) {
            assert_eq!(len_utf8(c), c.len_utf8(), "U+{u:04X}");
        }
    }
}
