use music_library::audio_files::{extension_format, supported_extension};

#[test]
fn audio_extensions_are_read_in_any_ascii_case() {
    for ext in ["aac", "aiff", "ape", "flac", "m4a", "mp3", "mp4", "ogg", "opus", "wav", "wv"] {
        assert!(supported_extension(ext));
    }
    assert!(supported_extension("FLAC"));
    assert!(supported_extension("Mp3"));
    assert!(!supported_extension("txt"));
    assert!(!supported_extension(""));
    assert!(!supported_extension("flac "));
    assert!(!supported_extension("jpg"));
}

#[test]
fn formats_are_lowercased_extensions() {
    assert_eq!(extension_format("FLAC"), "flac");
    assert_eq!(extension_format("M4a"), "m4a");
    // Only ASCII capitals change.
    assert_eq!(extension_format("ÉTÉ"), "ÉtÉ");
}
