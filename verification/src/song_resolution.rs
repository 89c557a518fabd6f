//! Bounded song lookup and conservative explicit-Play acceptance. Never Album,
//! Recording, or edition acceptance.
use vstd::prelude::*;

use crate::catalog::Page;
use crate::domain::{ExternalIdentity, IdentityView, TrackId};
use crate::text::{
    chars_eq, chars_of, join_words, joined, lowercase_of, split_whitespace, string_of,
    to_lowercase, trim, trimmed, vviews, ws_words,
};

verus! {

#[derive(Debug, PartialEq, Eq)]
pub struct Input {
    pub track_id: TrackId,
    pub title: String,
    pub artist: String,
    pub album: String,
    pub duration_ms: Option<u64>,
    pub disc: Option<u32>,
    pub number: Option<u32>,
}

#[derive(Debug, PartialEq, Eq)]
pub struct Candidate {
    /// Adapter-declared song/occurrence identity, never Recording identity.
    pub identity: ExternalIdentity,
    pub title: String,
    pub artist: String,
    pub album: String,
    pub date: String,
    pub duration_ms: u64,
    pub disc: u32,
    pub number: u32,
}

/// Candidates shown for an explicit choice, kept with the input they answer.
#[derive(Debug)]
pub struct Selection {
    input: Input,
    candidates: Vec<Candidate>,
}

impl Selection {
    pub fn new(input: Input, candidates: Vec<Candidate>) -> (r: Self)
        ensures
            r.held_input() == input,
            r.offered() == candidates@,
    {
        Selection { input, candidates }
    }

    /// The input the candidates answer.
    pub closed spec fn held_input(&self) -> Input {
        self.input
    }

    /// The candidates offered, in order.
    pub closed spec fn offered(&self) -> Seq<Candidate> {
        self.candidates@
    }

    pub fn candidates(&self) -> (r: &[Candidate])
        ensures
            r@ == self.offered(),
    {
        self.candidates.as_slice()
    }

    pub fn input(&self) -> (r: &Input)
        ensures
            *r == self.held_input(),
    {
        &self.input
    }
}

#[derive(Clone, Copy, Debug, PartialEq, Eq)]
pub enum Assessment {
    Unique(usize),
    NeedsSelection,
    NoMatch,
}

/// The words of `s`, each lowercased, joined by single spaces.
pub open spec fn word_key(s: Seq<char>) -> Seq<char> {
    joined(ws_words(s).map_values(|w: Seq<char>| lowercase_of(w)), seq![' '])
}

/// A nonblank text equal to another after whitespace folding and lowercasing.
pub open spec fn exact_text(left: Seq<char>, right: Seq<char>) -> bool {
    trimmed(left).len() > 0 && word_key(left) == word_key(right)
}

pub open spec fn title_and_artist(input: Input, c: Candidate) -> bool {
    exact_text(input.title@, c.title@) && exact_text(input.artist@, c.artist@)
}

/// Exact title, Artist and Album, and no supplied duration, disc or number
/// contradiction (zero means unknown).
pub open spec fn song_eligible(input: Input, c: Candidate) -> bool {
    &&& title_and_artist(input, c)
    &&& exact_text(input.album@, c.album@)
    &&& !(match input.duration_ms {
        Some(d) => d > 0 && c.duration_ms > 0 && (if d >= c.duration_ms {
            d - c.duration_ms
        } else {
            c.duration_ms - d
        }) > 3000,
        None => false,
    })
    &&& !(match input.disc {
        Some(d) => d > 0 && c.disc > 0 && d != c.disc,
        None => false,
    })
    &&& !(match input.number {
        Some(n) => n > 0 && c.number > 0 && n != c.number,
        None => false,
    })
}

pub open spec fn eligible_of(input: Input) -> spec_fn(int, Candidate) -> bool {
    |i: int, c: Candidate| song_eligible(input, c)
}

/// The indices of the eligible candidates, in order.
pub open spec fn eligible_indices(input: Input, items: Seq<Candidate>) -> Seq<int>
    decreases items.len(),
{
    if items.len() == 0 {
        Seq::empty()
    } else {
        eligible_indices(input, items.drop_last()) + if song_eligible(input, items.last()) {
            seq![items.len() - 1]
        } else {
            Seq::empty()
        }
    }
}

/// One eligible candidate on a complete page is unique; otherwise a choice is
/// needed if some candidate has the title and Artist, else there is no match.
pub open spec fn song_assessment(input: Input, page: Page<Candidate>) -> Assessment {
    let e = eligible_indices(input, page.items@);
    if e.len() == 1 && page.next_offset is None {
        Assessment::Unique(e[0] as usize)
    } else if exists|k: int| 0 <= k < page.items@.len() && title_and_artist(input, #[trigger] page.items@[k]) {
        Assessment::NeedsSelection
    } else {
        Assessment::NoMatch
    }
}

fn word_key_of(s: &str) -> (r: Vec<char>)
    ensures
        r@ == word_key(s@),
{
    let words = split_whitespace(&chars_of(s));
    let ghost ws = vviews(words@);
    let mut lowered: Vec<Vec<char>> = Vec::new();
    let mut i: usize = 0;
    while i < words.len()
        invariant
            i <= words.len(),
            ws == vviews(words@),
            vviews(lowered@) == ws.take(i as int).map_values(|w: Seq<char>| lowercase_of(w)),
        decreases words.len() - i,
    {
        let w = chars_of(to_lowercase(string_of(words[i].as_slice()).as_str()).as_str());
        let ghost before = vviews(lowered@);
        lowered.push(w);
        assert(vviews(lowered@) =~= before.push(lowercase_of(ws[i as int])));
        assert(ws.take(i + 1).map_values(|w: Seq<char>| lowercase_of(w)) =~= ws.take(
            i as int,
        ).map_values(|w: Seq<char>| lowercase_of(w)).push(lowercase_of(ws[i as int])));
        i = i + 1;
    }
    assert(ws.take(words.len() as int) =~= ws);
    join_words(&lowered, ' ')
}

fn exact(left: &str, right: &str) -> (r: bool)
    ensures
        r == exact_text(left@, right@),
{
    trim(&chars_of(left)).len() > 0 && chars_eq(&word_key_of(left), &word_key_of(right))
}

fn eligible(input: &Input, c: &Candidate) -> (r: bool)
    ensures
        r == song_eligible(*input, *c),
{
    if !(exact(input.title.as_str(), c.title.as_str()) && exact(
        input.artist.as_str(),
        c.artist.as_str(),
    ) && exact(input.album.as_str(), c.album.as_str())) {
        return false;
    }
    let duration_conflict = match input.duration_ms {
        Some(d) => d > 0 && c.duration_ms > 0 && (if d >= c.duration_ms {
            d - c.duration_ms
        } else {
            c.duration_ms - d
        }) > 3000,
        None => false,
    };
    let disc_conflict = match input.disc {
        Some(d) => d > 0 && c.disc > 0 && d != c.disc,
        None => false,
    };
    let number_conflict = match input.number {
        Some(n) => n > 0 && c.number > 0 && n != c.number,
        None => false,
    };
    !duration_conflict && !disc_conflict && !number_conflict
}

/// Deliberately stricter than the known-Album matcher: complete bounded page,
/// exact conservative Artist/title/Album strings, and no supplied duration or
/// position contradiction. No ranking, fuzzy edits, or version-word stripping.
pub fn assess(input: &Input, page: &Page<Candidate>) -> (r: Assessment)
    ensures
        r == song_assessment(*input, *page),
{
    let ghost items = page.items@;
    let mut found: Vec<usize> = Vec::new();
    let mut i: usize = 0;
    while i < page.items.len()
        invariant
            i <= page.items.len(),
            items == page.items@,
            found@.map_values(|k: usize| k as int) == eligible_indices(*input, items.take(i as int)),
        decreases page.items.len() - i,
    {
        assert(items.take(i + 1).drop_last() =~= items.take(i as int));
        assert(items.take(i + 1).last() == items[i as int]);
        if eligible(input, &page.items[i]) {
            let ghost before = found@.map_values(|k: usize| k as int);
            found.push(i);
            assert(found@.map_values(|k: usize| k as int) =~= before.push(i as int));
        }
        i = i + 1;
    }
    assert(items.take(page.items.len() as int) =~= items);
    if found.len() == 1 && page.next_offset.is_none() {
        return Assessment::Unique(found[0]);
    }
    let mut any = false;
    let mut k: usize = 0;
    while k < page.items.len()
        invariant
            k <= page.items.len(),
            items == page.items@,
            any == exists|x: int| 0 <= x < k && title_and_artist(*input, #[trigger] items[x]),
        decreases page.items.len() - k,
    {
        let c = &page.items[k];
        if exact(input.title.as_str(), c.title.as_str()) && exact(
            input.artist.as_str(),
            c.artist.as_str(),
        ) {
            any = true;
        }
        k = k + 1;
    }
    if any {
        Assessment::NeedsSelection
    } else {
        Assessment::NoMatch
    }
}


proof fn lemma_eligible_indices(input: Input, items: Seq<Candidate>)
    ensures
        forall|k: int|
            0 <= k < eligible_indices(input, items).len() ==> 0 <= #[trigger] eligible_indices(
                input,
                items,
            )[k] < items.len() && song_eligible(input, items[eligible_indices(input, items)[k]]),
        forall|k1: int, k2: int|
            0 <= k1 < k2 < eligible_indices(input, items).len() ==> #[trigger] eligible_indices(
                input,
                items,
            )[k1] < #[trigger] eligible_indices(input, items)[k2],
        forall|i: int|
            0 <= i < items.len() && song_eligible(input, #[trigger] items[i]) ==> eligible_indices(
                input,
                items,
            ).contains(i),
    decreases items.len(),
{
    if items.len() > 0 {
        let init = items.drop_last();
        lemma_eligible_indices(input, init);
        let e = eligible_indices(input, items);
        let e0 = eligible_indices(input, init);
        assert forall|k: int| 0 <= k < e.len() implies 0 <= #[trigger] e[k] < items.len() && song_eligible(
            input,
            items[e[k]],
        ) by {
            if k < e0.len() {
                assert(e[k] == e0[k]);
                assert(items[e[k]] == init[e0[k]]);
            }
        }
        assert forall|k1: int, k2: int| 0 <= k1 < k2 < e.len() implies #[trigger] e[k1] < #[trigger] e[k2] by {
            if k2 < e0.len() {
                assert(e[k1] == e0[k1] && e[k2] == e0[k2]);
            } else {
                assert(e[k1] == e0[k1]);
            }
        }
        assert forall|i: int| 0 <= i < items.len() && song_eligible(input, #[trigger] items[i]) implies e.contains(i) by {
            if i < init.len() {
                assert(init[i] == items[i]);
                let k = choose|k: int| 0 <= k < e0.len() && e0[k] == i;
                assert(e[k] == i);
            } else {
                assert(e[e0.len() as int] == i);
            }
        }
    }
}

/// A unique answer is a candidate on a complete page whose title, Artist and
/// Album equal the input's, and which contradicts none of the input's known
/// facts: a known positive duration lies within three seconds of the
/// candidate's known duration, and a known disc or number equals the
/// candidate's known one.
pub proof fn lemma_unique_is_uncontradicted(input: Input, page: Page<Candidate>)
    ensures
        song_assessment(input, page) matches Assessment::Unique(u) ==> {
            let c = page.items@[u as int];
            &&& page.next_offset is None
            &&& (u as int) < page.items@.len()
            &&& exact_text(input.title@, c.title@)
            &&& exact_text(input.artist@, c.artist@)
            &&& exact_text(input.album@, c.album@)
            &&& (input.duration_ms is Some && input.duration_ms.unwrap() > 0 && c.duration_ms > 0 ==> input.duration_ms.unwrap()
                - c.duration_ms <= 3000 && c.duration_ms - input.duration_ms.unwrap() <= 3000)
            &&& (input.disc is Some && input.disc.unwrap() > 0 && c.disc > 0 ==> input.disc.unwrap() == c.disc)
            &&& (input.number is Some && input.number.unwrap() > 0 && c.number > 0 ==> input.number.unwrap() == c.number)
        },
{
    lemma_eligible_indices(input, page.items@);
    let e = eligible_indices(input, page.items@);
    if e.len() == 1 && page.next_offset is None {
        assert(0 <= e[0] < page.items@.len());
        assert(page.items@.len() == page.items.len());
        assert((e[0] as usize) as int == e[0]);
        assert(song_eligible(input, page.items@[e[0]]));
    }
}

/// On a complete page, a candidate with the input's title, Artist and Album
/// that contradicts none of the input's known facts is the unique answer when
/// every other candidate differs in title, Artist or Album, or contradicts a
/// known duration (by more than three seconds), disc or number.
pub proof fn lemma_sole_uncontradicted_is_unique(input: Input, page: Page<Candidate>, u: int)
    requires
        page.next_offset is None,
        0 <= u < page.items@.len(),
        exact_text(input.title@, page.items@[u].title@),
        exact_text(input.artist@, page.items@[u].artist@),
        exact_text(input.album@, page.items@[u].album@),
        input.duration_ms is Some && input.duration_ms.unwrap() > 0 && page.items@[u].duration_ms > 0
            ==> input.duration_ms.unwrap() - page.items@[u].duration_ms <= 3000 && page.items@[u].duration_ms
            - input.duration_ms.unwrap() <= 3000,
        input.disc is Some && input.disc.unwrap() > 0 && page.items@[u].disc > 0 ==> input.disc.unwrap()
            == page.items@[u].disc,
        input.number is Some && input.number.unwrap() > 0 && page.items@[u].number > 0
            ==> input.number.unwrap() == page.items@[u].number,
        forall|i: int|
            0 <= i < page.items@.len() && i != u ==> {
                let c = #[trigger] page.items@[i];
                ||| !exact_text(input.title@, c.title@)
                ||| !exact_text(input.artist@, c.artist@)
                ||| !exact_text(input.album@, c.album@)
                ||| (input.duration_ms is Some && input.duration_ms.unwrap() > 0 && c.duration_ms > 0 && (
                    input.duration_ms.unwrap() - c.duration_ms > 3000 || c.duration_ms
                    - input.duration_ms.unwrap() > 3000))
                ||| (input.disc is Some && input.disc.unwrap() > 0 && c.disc > 0 && input.disc.unwrap() != c.disc)
                ||| (input.number is Some && input.number.unwrap() > 0 && c.number > 0 && input.number.unwrap()
                    != c.number)
            },
    ensures
        song_assessment(input, page) == Assessment::Unique(u as usize),
{
    let items = page.items@;
    lemma_eligible_indices(input, items);
    let e = eligible_indices(input, items);
    assert(song_eligible(input, items[u]));
    assert(e.contains(u));
    assert forall|k: int| 0 <= k < e.len() implies #[trigger] e[k] == u by {
        assert(song_eligible(input, items[e[k]]));
    }
    if e.len() > 1 {
        assert(e[0] < e[1]);
    }
    assert(e.len() == 1);
    assert(items.len() == page.items.len());
    assert((u as usize) as int == u);
}

} // verus!
