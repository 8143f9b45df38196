use cfw_build::text::is_whitespace;

#[test]
fn whitespace_is_what_char_says_it_is() {
    for u in 0..=0x10FFFFu32 {
        if let Some(c) = char::from_u32(u) {
            assert_eq!(is_whitespace(c), c.is_whitespace(), "U+{u:04X}");
        }
    }
}
