use lyrics_tui::text::char_is_whitespace;

#[test]
fn white_space_matches_std_for_every_char() {
    for v in 0u32..0x11_0000 {
        if let Some(c) = char::from_u32(v) {
            assert_eq!(char_is_whitespace(c), c.is_whitespace(), "U+{:04X}", v);
        }
    }
}
