//! Which files a library scan reads: audio formats by file extension.
use vstd::prelude::*;

use crate::text::{chars_of, string_of};

verus! {

/// ASCII capitals as small letters, other characters kept.
pub open spec fn ascii_small(c: char) -> char {
    if 'A' <= c && c <= 'Z' {
        ((c as u8) + 32) as char
    } else {
        c
    }
}

/// `str::to_ascii_lowercase`.
pub open spec fn ascii_lowercase(s: Seq<char>) -> Seq<char> {
    s.map_values(|c: char| ascii_small(c))
}

/// The extensions of the audio formats the tag reader handles.
pub open spec fn audio_extensions() -> Seq<Seq<char>> {
    seq![
        "aac"@, "aiff"@, "ape"@, "flac"@, "m4a"@, "mp3"@, "mp4"@, "ogg"@, "opus"@, "wav"@, "wv"@,
    ]
}

/// The format name recorded for a file: its extension in ASCII small letters.
pub fn extension_format(extension: &str) -> (r: String)
    ensures
        r@ == ascii_lowercase(extension@),
{
    let c = chars_of(extension);
    let mut out: Vec<char> = Vec::new();
    let mut i: usize = 0;
    while i < c.len()
        invariant
            i <= c.len(),
            c@ == extension@,
            out@ == ascii_lowercase(c@).take(i as int),
        decreases c.len() - i,
    {
        let ch = c[i];
        let small = if 'A' <= ch && ch <= 'Z' {
            ((ch as u8) + 32) as char
        } else {
            ch
        };
        out.push(small);
        assert(ascii_lowercase(c@).take(i + 1) =~= ascii_lowercase(c@).take(i as int).push(
            ascii_small(c@[i as int]),
        ));
        i = i + 1;
    }
    assert(ascii_lowercase(c@).take(c.len() as int) =~= ascii_lowercase(c@));
    string_of(out.as_slice())
}

/// A file with this extension is read by a scan: the extension, ASCII case
/// ignored, is one of the audio formats.
pub fn supported_extension(extension: &str) -> (r: bool)
    ensures
        r == audio_extensions().contains(ascii_lowercase(extension@)),
{
    let lower = extension_format(extension);
    let known: Vec<&str> = vec!["aac", "aiff", "ape", "flac", "m4a", "mp3", "mp4", "ogg", "opus", "wav", "wv"];
    let ghost names = known@.map_values(|k: &str| k@);
    assert(names =~= audio_extensions());
    let mut i: usize = 0;
    while i < known.len()
        invariant
            i <= known.len(),
            names == known@.map_values(|k: &str| k@),
            names == audio_extensions(),
            lower@ == ascii_lowercase(extension@),
            forall|k: int| 0 <= k < i ==> names[k] != lower@,
        decreases known.len() - i,
    {
        if crate::text::str_eq(lower.as_str(), known[i]) {
            assert(names[i as int] == lower@);
            return true;
        }
        i = i + 1;
    }
    false
}

} // verus!
