use music_library::matching::{credit, normalize, tracks_support_album, usable, TrackEvidence};

#[test]
fn comparison_preserves_qualifiers_and_original_text() {
    let original = "  ÉCHO\t (Live)  ";
    assert_eq!(normalize(original), "écho (live)");
    assert_eq!(original, "  ÉCHO\t (Live)  ");
    for title in [
        "Echo (Live)",
        "Echo [Remix]",
        "Echo - Edit",
        "Echo: Acoustic",
        "Echo Remaster",
    ] {
        assert_ne!(normalize(title), normalize("Echo"));
    }
    assert_ne!(normalize("Artist A & B"), normalize("Artist A B"));
    assert!(!usable(" Unknown   Album "));
    assert!(credit(&["Unknown Artist".into()]).is_none());
}

#[test]
fn normalize_folds_whitespace_runs_and_ends() {
    assert_eq!(normalize("\n A \t\r B  "), "a b");
    assert_eq!(normalize(""), "");
    assert_eq!(normalize("   "), "");
    assert_eq!(normalize("a\u{3000}b"), "a b");
}

#[test]
fn usable_rejects_only_placeholders_and_blank_text() {
    assert!(!usable(""));
    assert!(!usable("  \t"));
    assert!(!usable("UNKNOWN artist"));
    assert!(!usable("unknown  track"));
    assert!(usable("Unknown Pleasures"));
    assert!(usable("Echo"));
}

#[test]
fn credit_joins_names_with_comma() {
    assert_eq!(
        credit(&["Artist  A".into(), "B".into()]),
        Some("artist a, b".to_string())
    );
    assert_eq!(credit(&[]), None);
    assert_eq!(credit(&["A".into(), "".into()]), None);
}

fn t(disc: u32, position: u32, title: &str) -> TrackEvidence {
    TrackEvidence {
        disc,
        position,
        title: title.into(),
    }
}

#[test]
fn positional_support_requires_a_sole_exact_title() {
    let edition = vec![t(1, 1, "One"), t(1, 2, "Two"), t(1, 3, "Three")];
    assert!(tracks_support_album(&[t(1, 2, "Two")], &edition));
    assert!(!tracks_support_album(&[t(1, 2, "two")], &edition));
    assert!(!tracks_support_album(&[t(2, 1, "One")], &edition));
    assert!(!tracks_support_album(&[], &edition));
    // A contradiction anywhere vetoes earlier support.
    assert!(!tracks_support_album(
        &[t(1, 1, "One"), t(1, 3, "Other")],
        &edition
    ));
    // Missing positions neither support nor contradict.
    assert!(tracks_support_album(&[t(1, 1, "One"), t(9, 9, "X")], &edition));
    let duplicated = vec![t(1, 1, "One"), t(1, 1, "One")];
    assert!(!tracks_support_album(&[t(1, 1, "One")], &duplicated));
}
