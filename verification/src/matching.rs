//! Derived comparisons only: never rewrite observations or infer edition identity.
use vstd::prelude::*;

use crate::text::{
    chars_of, fold_whitespace, fold_ws, join_strings, joined, lowercase_of, str_eq, string_of,
    to_lowercase, views,
};

verus! {

/// Unicode lowercase of the whitespace-folded text. Punctuation and version
/// qualifiers survive; no transliteration or compatibility folding.
pub open spec fn normalized(s: Seq<char>) -> Seq<char> {
    lowercase_of(fold_ws(s))
}

/// Normalized values that carry no information.
pub open spec fn placeholder(n: Seq<char>) -> bool {
    n == ""@ || n == "unknown album"@ || n == "unknown artist"@ || n == "unknown track"@
}

/// A value usable as evidence: its normalization is neither empty nor a placeholder.
pub open spec fn usable_text(s: Seq<char>) -> bool {
    !placeholder(normalized(s))
}

/// Every name of a list is usable.
pub open spec fn all_usable(names: Seq<String>) -> bool {
    forall|i: int| 0 <= i < names.len() ==> usable_text(#[trigger] names[i]@)
}

/// The conservative comma-separated credit key of a list of names.
pub open spec fn credit_key(names: Seq<String>) -> Option<Seq<char>> {
    if names.len() > 0 && all_usable(names) {
        Some(normalized(joined(views(names), ", "@)))
    } else {
        None
    }
}

/// Unicode lowercase plus whitespace folding.
pub fn normalize(value: &str) -> (r: String)
    ensures
        r@ == normalized(value@),
{
    let folded = fold_whitespace(&chars_of(value));
    let text = string_of(folded.as_slice());
    to_lowercase(text.as_str())
}

pub fn usable(value: &str) -> (r: bool)
    ensures
        r == usable_text(value@),
{
    let n = normalize(value);
    let s = n.as_str();
    !(str_eq(s, "") || str_eq(s, "unknown album") || str_eq(s, "unknown artist") || str_eq(
        s,
        "unknown track",
    ))
}

/// Local tags have ordered names but no parsed join phrases. Multiple names
/// use the ordinary comma-separated credit display.
pub fn credit(names: &[String]) -> (r: Option<String>)
    ensures
        r matches Some(s) ==> credit_key(names@) == Some(s@),
        r is None ==> credit_key(names@) is None,
{
    if names.len() == 0 {
        return None;
    }
    let mut i: usize = 0;
    while i < names.len()
        invariant
            i <= names.len(),
            forall|k: int| 0 <= k < i ==> usable_text(#[trigger] names@[k]@),
        decreases names.len() - i,
    {
        if !usable(names[i].as_str()) {
            return None;
        }
        i = i + 1;
    }
    let joined_chars = join_strings(names, ", ");
    let text = string_of(joined_chars.as_slice());
    Some(normalize(text.as_str()))
}

/// Derived, positioned title evidence. Missing positions are not guessed.
pub struct TrackEvidence {
    pub disc: u32,
    pub position: u32,
    pub title: String,
}

/// `o` occupies the position of `t`.
pub open spec fn same_place(o: TrackEvidence, t: TrackEvidence) -> bool {
    o.disc == t.disc && o.position == t.position
}

/// `j` is the only entry of `e` at the position of `t`.
pub open spec fn sole_at(e: Seq<TrackEvidence>, t: TrackEvidence, j: int) -> bool {
    &&& 0 <= j < e.len()
    &&& same_place(e[j], t)
    &&& forall|k: int| 0 <= k < e.len() && k != j ==> !same_place(#[trigger] e[k], t)
}

/// Exactly one entry at the position of `t`, with exactly the same title.
pub open spec fn supports(e: Seq<TrackEvidence>, t: TrackEvidence) -> bool {
    exists|j: int| sole_at(e, t, j) && e[j].title@ == t.title@
}

/// Some entry at the position of `t` is not a sole, equally titled one.
pub open spec fn contradicts(e: Seq<TrackEvidence>, t: TrackEvidence) -> bool {
    exists|j: int|
        0 <= j < e.len() && same_place(#[trigger] e[j], t) && !(sole_at(e, t, j) && e[j].title@
            == t.title@)
}

/// Exact positional/title overlap with no contradictory overlapping position.
pub open spec fn album_supported(local: Seq<TrackEvidence>, edition: Seq<TrackEvidence>) -> bool {
    &&& forall|i: int| 0 <= i < local.len() ==> !contradicts(edition, #[trigger] local[i])
    &&& exists|i: int| 0 <= i < local.len() && supports(edition, #[trigger] local[i])
}

/// 0: nothing at the position; 1: support; 2: contradiction.
fn placement(edition: &[TrackEvidence], t: &TrackEvidence) -> (r: u8)
    ensures
        r <= 2,
        r == 1 <==> supports(edition@, *t),
        r == 2 <==> contradicts(edition@, *t),
{
    let mut first: Option<usize> = None;
    let mut j: usize = 0;
    while j < edition.len()
        invariant
            j <= edition.len(),
            first matches Some(f) ==> f < j && same_place(edition@[f as int], *t) && forall|k: int|
                0 <= k < j && k != f ==> !same_place(#[trigger] edition@[k], *t),
            first is None ==> forall|k: int| 0 <= k < j ==> !same_place(#[trigger] edition@[k], *t),
        decreases edition.len() - j,
    {
        if edition[j].disc == t.disc && edition[j].position == t.position {
            if let Some(f) = first {
                assert(!sole_at(edition@, *t, f as int));
                assert(same_place(edition@[f as int], *t));
                return 2;
            }
            first = Some(j);
        }
        j = j + 1;
    }
    match first {
        None => {
            assert(!supports(edition@, *t));
            assert(!contradicts(edition@, *t));
            0
        },
        Some(f) => {
            assert(sole_at(edition@, *t, f as int));
            if edition[f].title == t.title {
                assert(supports(edition@, *t));
                assert forall|k: int|
                    0 <= k < edition@.len() && same_place(#[trigger] edition@[k], *t) implies (
                sole_at(edition@, *t, k) && edition@[k].title@ == t.title@) by {
                    assert(k == f);
                }
                1
            } else {
                assert(same_place(edition@[f as int], *t));
                assert forall|k: int| #[trigger] sole_at(edition@, *t, k) implies k == f by {}
                2
            }
        },
    }
}

/// Require an exact positional/title overlap and no contradictory overlapping
/// positions within one edition. Missing positions neither support nor contradict.
pub fn tracks_support_album(local: &[TrackEvidence], edition: &[TrackEvidence]) -> (r: bool)
    ensures
        r == album_supported(local@, edition@),
{
    let mut supported = false;
    let mut i: usize = 0;
    while i < local.len()
        invariant
            i <= local.len(),
            forall|k: int| 0 <= k < i ==> !contradicts(edition@, #[trigger] local@[k]),
            supported == exists|k: int| 0 <= k < i && supports(edition@, #[trigger] local@[k]),
        decreases local.len() - i,
    {
        let p = placement(edition, &local[i]);
        if p == 2 {
            return false;
        }
        if p == 1 {
            supported = true;
        }
        i = i + 1;
    }
    supported
}

} // verus!
