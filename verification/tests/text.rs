use music_library::text::{char_is_whitespace, to_lowercase};

#[test]
fn white_space_is_what_std_calls_whitespace() {
    for code in 0u32..=0x10FFFF {
        if let Some(c) = char::from_u32(code) {
            assert_eq!(char_is_whitespace(c), c.is_whitespace(), "U+{code:04X}");
        }
    }
}

#[test]
fn ascii_text_lowercases_as_ascii() {
    let all: String = (0u8..128).map(char::from).collect();
    assert_eq!(to_lowercase(&all), all.to_ascii_lowercase());
    assert_eq!(to_lowercase("Hello, World 42!"), "hello, world 42!");
}
