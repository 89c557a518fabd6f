//! Rules the library store applies to requests and stored text: page limits,
//! full-text prefix queries, stored Artist name lists and local Album credits.
use vstd::prelude::*;

use crate::catalog::{Credit, Medium, Release, Track};
use crate::domain::{
    copy_strings, AlbumId, ArtistCreditInput, CatalogReleaseInput, CatalogTrackInput,
    ImportReleaseRequest, ImportTrackInput, ReleaseId, ReleaseInputView, TrackInputView,
};
use crate::matching::{credit, credit_key, normalize, normalized, usable, usable_text};
use crate::text::{
    all_digits, append_chars, chars_eq, chars_of, digits_value, is_digit, join_words, joined, parse_u64,
    parsed_u64, split_whitespace, string_of, views, vviews, ws_words,
};

verus! {

pub const MAX_PAGE_SIZE: u32 = 200;

/// A page limit of at least one and at most `MAX_PAGE_SIZE`.
pub fn bounded_limit(limit: u32) -> (r: u32)
    ensures
        r == (if limit < 1 {
            1
        } else if limit > MAX_PAGE_SIZE {
            MAX_PAGE_SIZE
        } else {
            limit
        }),
{
    if limit < 1 {
        1
    } else if limit > MAX_PAGE_SIZE {
        MAX_PAGE_SIZE
    } else {
        limit
    }
}

/// Every double quote doubled.
pub open spec fn doubled_quotes(s: Seq<char>) -> Seq<char>
    decreases s.len(),
{
    if s.len() == 0 {
        Seq::empty()
    } else {
        doubled_quotes(s.drop_last()) + if s.last() == '"' {
            seq!['"', '"']
        } else {
            seq![s.last()]
        }
    }
}

/// One word as a quoted full-text prefix term.
pub open spec fn prefix_term(w: Seq<char>) -> Seq<char> {
    seq!['"'] + doubled_quotes(w) + seq!['"', '*']
}

/// Every word of the input as a prefix term, all required.
pub open spec fn prefix_query(s: Seq<char>) -> Seq<char> {
    joined(ws_words(s).map_values(|w: Seq<char>| prefix_term(w)), " AND "@)
}

fn term_of(w: &Vec<char>) -> (r: Vec<char>)
    ensures
        r@ == prefix_term(w@),
{
    let mut out: Vec<char> = Vec::new();
    out.push('"');
    let mut i: usize = 0;
    while i < w.len()
        invariant
            i <= w.len(),
            out@ == seq!['"'] + doubled_quotes(w@.take(i as int)),
        decreases w.len() - i,
    {
        let c = w[i];
        if c == '"' {
            out.push('"');
            out.push('"');
        } else {
            out.push(c);
        }
        proof {
            let t = w@.take(i + 1);
            assert(t.drop_last() =~= w@.take(i as int));
            assert(t.last() == c);
        }
        assert(out@ =~= seq!['"'] + doubled_quotes(w@.take(i + 1)));
        i = i + 1;
    }
    assert(w@.take(w.len() as int) =~= w@);
    out.push('"');
    out.push('*');
    assert(out@ =~= prefix_term(w@));
    out
}

/// A full-text query matching every word of the input as a prefix.
pub fn fts_prefix_query(input: &str) -> (r: String)
    ensures
        r@ == prefix_query(input@),
{
    let words = split_whitespace(&chars_of(input));
    let ghost ws = vviews(words@);
    let sep = chars_of(" AND ");
    let mut out: Vec<char> = Vec::new();
    let ghost terms = ws.map_values(|w: Seq<char>| prefix_term(w));
    let mut i: usize = 0;
    while i < words.len()
        invariant
            i <= words.len(),
            ws == vviews(words@),
            terms == ws.map_values(|w: Seq<char>| prefix_term(w)),
            sep@ == " AND "@,
            out@ == joined(terms.take(i as int), " AND "@),
        decreases words.len() - i,
    {
        let ghost before = out@;
        if i > 0 {
            append_chars(&mut out, &sep);
        }
        let term = term_of(&words[i]);
        append_chars(&mut out, &term);
        proof {
            let t = terms.take(i + 1);
            assert(t.drop_last() =~= terms.take(i as int));
            assert(t.last() == prefix_term(ws[i as int]));
            if i == 0 {
                assert(out@ =~= t[0]);
            } else {
                assert(out@ =~= before + " AND "@ + t.last());
            }
        }
        i = i + 1;
    }
    assert(terms.take(words.len() as int) =~= terms);
    string_of(out.as_slice())
}

/// Splitting at a separator, read from the left: completed pieces and the
/// piece in progress.
pub open spec fn split_state(s: Seq<char>, sep: char) -> (Seq<Seq<char>>, Seq<char>)
    decreases s.len(),
{
    if s.len() == 0 {
        (Seq::empty(), Seq::empty())
    } else {
        let (done, cur) = split_state(s.drop_last(), sep);
        if s.last() == sep {
            (done.push(cur), Seq::empty())
        } else {
            (done, cur.push(s.last()))
        }
    }
}

/// The pieces between separators, empty pieces included, as `str::split` gives them.
pub open spec fn split_pieces(s: Seq<char>, sep: char) -> Seq<Seq<char>> {
    let (done, cur) = split_state(s, sep);
    done.push(cur)
}

/// Stored Artist names: none for an empty value, else the pieces between unit
/// separators.
pub open spec fn stored_names(s: Seq<char>) -> Seq<Seq<char>> {
    if s.len() == 0 {
        Seq::empty()
    } else {
        split_pieces(s, '\u{1f}')
    }
}

pub fn split_artist_names(names: String) -> (r: Vec<String>)
    ensures
        views(r@) == stored_names(names@),
{
    let chars = chars_of(names.as_str());
    let mut done: Vec<String> = Vec::new();
    if chars.len() == 0 {
        assert(views(done@) =~= Seq::<Seq<char>>::empty());
        return done;
    }
    let mut cur: Vec<char> = Vec::new();
    let mut i: usize = 0;
    while i < chars.len()
        invariant
            i <= chars.len(),
            chars@ == names@,
            (views(done@), cur@) == split_state(chars@.take(i as int), '\u{1f}'),
        decreases chars.len() - i,
    {
        let c = chars[i];
        assert(chars@.take(i + 1).drop_last() =~= chars@.take(i as int));
        if c == '\u{1f}' {
            let ghost before = views(done@);
            let piece = string_of(cur.as_slice());
            done.push(piece);
            assert(views(done@) =~= before.push(cur@));
            cur = Vec::new();
        } else {
            cur.push(c);
        }
        i = i + 1;
    }
    assert(chars@.take(chars.len() as int) =~= chars@);
    let ghost before = views(done@);
    done.push(string_of(cur.as_slice()));
    assert(views(done@) =~= before.push(cur@));
    done
}

/// What a local file said about its Album and Artists at import.
#[derive(Debug)]
pub struct ImportObservation {
    pub album: Option<String>,
    pub title: Option<String>,
    pub album_artists: Vec<String>,
    pub track_artists: Vec<String>,
}

pub open spec fn usable_title(o: ImportObservation) -> bool {
    match o.title {
        Some(t) => usable_text(t@),
        None => false,
    }
}

/// The file names no Album, or a usable one equal to `title` when normalized.
pub open spec fn album_agrees(o: ImportObservation, title: Seq<char>) -> bool {
    match o.album {
        Some(a) => usable_text(a@) && normalized(a@) == normalized(title),
        None => true,
    }
}

/// The release title is usable, some file has a usable track title, and every
/// file that names its Album names this one.
pub open spec fn titles_consistent(request: ImportReleaseRequest, obs: Seq<ImportObservation>) -> bool {
    &&& usable_text(request.release_title@)
    &&& exists|i: int| 0 <= i < obs.len() && usable_title(#[trigger] obs[i])
    &&& forall|i: int|
        0 <= i < obs.len() ==> album_agrees(#[trigger] obs[i], request.release_title@)
}

pub open spec fn credit_names(credits: Seq<ArtistCreditInput>) -> Seq<String> {
    credits.map_values(|c: ArtistCreditInput| c.name)
}

/// The nonempty Album Artist lists the files carry, in order.
pub open spec fn tagged_names(obs: Seq<ImportObservation>) -> Seq<Seq<String>>
    decreases obs.len(),
{
    if obs.len() == 0 {
        Seq::empty()
    } else {
        tagged_names(obs.drop_last()) + if obs.last().album_artists@.len() > 0 {
            seq![obs.last().album_artists@]
        } else {
            Seq::empty()
        }
    }
}

/// Per track (as far as both lists go): its explicit Artists, else its file's
/// track Artists.
pub open spec fn track_names(tracks: Seq<ImportTrackInput>, obs: Seq<ImportObservation>) -> Seq<
    Seq<String>,
> {
    let n = if tracks.len() <= obs.len() {
        tracks.len()
    } else {
        obs.len()
    };
    Seq::new(
        n,
        |i: int|
            if tracks[i].artists@.len() == 0 {
                obs[i].track_artists@
            } else {
                credit_names(tracks[i].artists@)
            },
    )
}

/// Every list has the given credit key.
pub open spec fn all_credit(evidence: Seq<Seq<String>>, key: Seq<char>) -> bool {
    forall|i: int| 0 <= i < evidence.len() ==> credit_key(#[trigger] evidence[i]) == Some(key)
}

/// A credit from names alone.
pub open spec fn plain_credits(names: Seq<String>) -> Seq<ArtistCreditInput> {
    names.map_values(|n: String| ArtistCreditInput { name: n, role: None })
}

/// The Album credit local evidence establishes, if it agrees: explicit
/// release Artists confirmed by every tagged Album Artist list; else the
/// tagged lists, else the per-track Artists, all with one credit.
pub open spec fn album_credit(request: ImportReleaseRequest, obs: Seq<ImportObservation>) -> Option<
    Seq<ArtistCreditInput>,
> {
    if !titles_consistent(request, obs) {
        None
    } else if request.release_artists@.len() > 0 {
        match credit_key(credit_names(request.release_artists@)) {
            Some(key) => if all_credit(tagged_names(obs), key) {
                Some(request.release_artists@)
            } else {
                None
            },
            None => None,
        }
    } else {
        let evidence = if tagged_names(obs).len() > 0 {
            tagged_names(obs)
        } else {
            track_names(request.tracks@, obs)
        };
        if evidence.len() == 0 {
            None
        } else {
            match credit_key(evidence[0]) {
                Some(key) => if all_credit(evidence, key) {
                    Some(plain_credits(evidence[0]))
                } else {
                    None
                },
                None => None,
            }
        }
    }
}

fn names_of(credits: &Vec<ArtistCreditInput>) -> (r: Vec<String>)
    ensures
        r@ == credit_names(credits@),
{
    let mut out: Vec<String> = Vec::new();
    let mut i: usize = 0;
    while i < credits.len()
        invariant
            i <= credits.len(),
            out@ == credit_names(credits@).take(i as int),
        decreases credits.len() - i,
    {
        out.push(credits[i].name.clone());
        assert(out@ =~= credit_names(credits@).take(i + 1));
        i = i + 1;
    }
    assert(credit_names(credits@).take(credits.len() as int) =~= credit_names(credits@));
    out
}

fn same_key(a: &Option<String>, key: &String) -> (r: bool)
    ensures
        r == (match a {
            Some(s) => s@ == key@,
            None => false,
        }),
{
    match a {
        Some(s) => *s == *key,
        None => false,
    }
}

/// Whether every list has the credit `key`.
fn every_credit(evidence: &Vec<Vec<String>>, key: &String) -> (r: bool)
    ensures
        r == all_credit(evidence@.map_values(|v: Vec<String>| v@), key@),
{
    let ghost ev = evidence@.map_values(|v: Vec<String>| v@);
    let mut i: usize = 0;
    while i < evidence.len()
        invariant
            i <= evidence.len(),
            ev == evidence@.map_values(|v: Vec<String>| v@),
            forall|k: int| 0 <= k < i ==> credit_key(#[trigger] ev[k]) == Some(key@),
        decreases evidence.len() - i,
    {
        let c = credit(evidence[i].as_slice());
        assert(ev[i as int] == evidence@[i as int]@);
        if !same_key(&c, key) {
            assert(credit_key(ev[i as int]) != Some(key@));
            return false;
        }
        i = i + 1;
    }
    true
}

fn copy_credits(list: &Vec<ArtistCreditInput>) -> (r: Vec<ArtistCreditInput>)
    ensures
        r@ == list@,
{
    let mut out: Vec<ArtistCreditInput> = Vec::new();
    let mut i: usize = 0;
    while i < list.len()
        invariant
            i <= list.len(),
            out@ == list@.take(i as int),
        decreases list.len() - i,
    {
        out.push(list[i].clone());
        assert(out@ =~= list@.take(i + 1));
        i = i + 1;
    }
    assert(list@.take(list.len() as int) =~= list@);
    out
}

/// Whether the titles of the request and the files are consistent.
fn titles_agree(request: &ImportReleaseRequest, observations: &[ImportObservation]) -> (r: bool)
    ensures
        r == titles_consistent(*request, observations@),
{
    if !usable(request.release_title.as_str()) {
        return false;
    }
    let mut titled = false;
    let mut i: usize = 0;
    while i < observations.len()
        invariant
            i <= observations.len(),
            titled == exists|k: int| 0 <= k < i && usable_title(#[trigger] observations@[k]),
        decreases observations.len() - i,
    {
        match &observations[i].title {
            Some(t) => {
                if usable(t.as_str()) {
                    titled = true;
                }
            },
            None => {},
        }
        i = i + 1;
    }
    if !titled {
        return false;
    }
    let title_key = normalize(request.release_title.as_str());
    let mut i: usize = 0;
    while i < observations.len()
        invariant
            i <= observations.len(),
            title_key@ == normalized(request.release_title@),
            forall|k: int|
                0 <= k < i ==> album_agrees(#[trigger] observations@[k], request.release_title@),
        decreases observations.len() - i,
    {
        match &observations[i].album {
            Some(a) => {
                if !usable(a.as_str()) || !(normalize(a.as_str()) == title_key) {
                    return false;
                }
            },
            None => {},
        }
        i = i + 1;
    }
    true
}

/// The Album credit that local evidence establishes, when it agrees.
pub fn local_album_credit(request: &ImportReleaseRequest, observations: &[ImportObservation]) -> (r:
    Option<Vec<ArtistCreditInput>>)
    ensures
        match r {
            Some(v) => album_credit(*request, observations@) == Some(v@),
            None => album_credit(*request, observations@) is None,
        },
{
    if !titles_agree(request, observations) {
        return None;
    }
    let ghost obs = observations@;
    let mut tagged: Vec<Vec<String>> = Vec::new();
    let mut i: usize = 0;
    while i < observations.len()
        invariant
            i <= observations.len(),
            obs == observations@,
            tagged@.map_values(|v: Vec<String>| v@) == tagged_names(obs.take(i as int)),
        decreases observations.len() - i,
    {
        assert(obs.take(i + 1).drop_last() =~= obs.take(i as int));
        assert(obs.take(i + 1).last() == obs[i as int]);
        if observations[i].album_artists.len() > 0 {
            let ghost before = tagged@.map_values(|v: Vec<String>| v@);
            tagged.push(copy_strings(observations[i].album_artists.as_slice()));
            assert(tagged@.map_values(|v: Vec<String>| v@) =~= before.push(
                obs[i as int].album_artists@,
            ));
        }
        i = i + 1;
    }
    assert(obs.take(observations.len() as int) =~= obs);
    if request.release_artists.len() > 0 {
        let explicit = names_of(&request.release_artists);
        let key = match credit(explicit.as_slice()) {
            Some(k) => k,
            None => return None,
        };
        if !every_credit(&tagged, &key) {
            return None;
        }
        return Some(copy_credits(&request.release_artists));
    }
    let evidence = if tagged.len() > 0 {
        tagged
    } else {
        let n = if request.tracks.len() <= observations.len() {
            request.tracks.len()
        } else {
            observations.len()
        };
        let ghost expected = track_names(request.tracks@, obs);
        let mut per_track: Vec<Vec<String>> = Vec::new();
        let mut k: usize = 0;
        while k < n
            invariant
                k <= n,
                n <= request.tracks.len(),
                n <= observations.len(),
                obs == observations@,
                expected == track_names(request.tracks@, obs),
                expected.len() == n,
                per_track@.map_values(|v: Vec<String>| v@) == expected.take(k as int),
            decreases n - k,
        {
            let names = if request.tracks[k].artists.len() == 0 {
                copy_strings(observations[k].track_artists.as_slice())
            } else {
                names_of(&request.tracks[k].artists)
            };
            let ghost before = per_track@.map_values(|v: Vec<String>| v@);
            assert(names@ == expected[k as int]);
            per_track.push(names);
            assert(per_track@.map_values(|v: Vec<String>| v@) =~= before.push(expected[k as int]));
            assert(expected.take(k + 1) =~= expected.take(k as int).push(expected[k as int]));
            k = k + 1;
        }
        assert(expected.take(n as int) =~= expected);
        per_track
    };
    if evidence.len() == 0 {
        return None;
    }
    assert(evidence@.map_values(|v: Vec<String>| v@)[0] == evidence@[0]@);
    let key = match credit(evidence[0].as_slice()) {
        Some(k) => k,
        None => return None,
    };
    if !every_credit(&evidence, &key) {
        return None;
    }
    let first = &evidence[0];
    let mut out: Vec<ArtistCreditInput> = Vec::new();
    let mut j: usize = 0;
    while j < first.len()
        invariant
            j <= first.len(),
            out@ == plain_credits(first@).take(j as int),
        decreases first.len() - j,
    {
        out.push(ArtistCreditInput { name: first[j].clone(), role: None });
        assert(out@ =~= plain_credits(first@).take(j + 1));
        j = j + 1;
    }
    assert(plain_credits(first@).take(first.len() as int) =~= plain_credits(first@));
    Some(out)
}

// ---------------------------------------------------------------------------
// Adding a catalog Release.

/// `i32::from_str` on the first four characters of a date, where it has
/// four: an optional sign, then digits.
pub open spec fn leading_year(d: Seq<char>) -> Option<i32> {
    if d.len() < 4 {
        None
    } else {
        let p = d.take(4);
        if p[0] == '-' {
            if all_digits(p.drop_first()) {
                Some((-(digits_value(p.drop_first()) as int)) as i32)
            } else {
                None
            }
        } else {
            match parsed_u64(p) {
                Some(v) => Some(v as i32),
                None => None,
            }
        }
    }
}

proof fn lemma_digits_below(s: Seq<char>)
    requires
        all_digits(s),
        s.len() <= 4,
    ensures
        digits_value(s) < 10000,
        s.len() <= 3 ==> digits_value(s) < 1000,
        s.len() <= 2 ==> digits_value(s) < 100,
        s.len() <= 1 ==> digits_value(s) < 10,
    decreases s.len(),
{
    if s.len() > 0 {
        let rest = s.drop_last();
        assert(all_digits(rest)) by {
            assert forall|i: int| 0 <= i < rest.len() implies is_digit(#[trigger] rest[i]) by {
                assert(rest[i] == s[i]);
            }
        }
        lemma_digits_below(rest);
        assert(is_digit(s[s.len() - 1]));
    }
}

/// The year a date's first four characters give, as the store reads it.
pub fn leading_year_of(date: &str) -> (r: Option<i32>)
    ensures
        r == leading_year(date@),
{
    let c = chars_of(date);
    if c.len() < 4 {
        return None;
    }
    let mut p: Vec<char> = Vec::new();
    p.push(c[0]);
    p.push(c[1]);
    p.push(c[2]);
    p.push(c[3]);
    assert(p@ =~= date@.take(4));
    if p[0] == '-' {
        let mut rest: Vec<char> = Vec::new();
        rest.push(p[1]);
        rest.push(p[2]);
        rest.push(p[3]);
        assert(rest@ =~= p@.drop_first());
        if rest[0] == '+' {
            assert(!is_digit(rest@[0]));
            return None;
        }
        match parse_u64(&rest) {
            Some(v) => {
                proof {
                    lemma_digits_below(rest@);
                }
                Some(-(v as i32))
            },
            None => {
                proof {
                    if all_digits(rest@) {
                        lemma_digits_below(rest@);
                    }
                }
                None
            },
        }
    } else {
        match parse_u64(&p) {
            Some(v) => {
                proof {
                    let d = if p@[0] == '+' {
                        p@.drop_first()
                    } else {
                        p@
                    };
                    lemma_digits_below(d);
                }
                Some(v as i32)
            },
            None => None,
        }
    }
}

/// Credits as plain names, without roles.
pub open spec fn credit_inputs(credits: Seq<Credit>) -> Seq<ArtistCreditInput> {
    credits.map_values(|c: Credit| ArtistCreditInput { name: c.name, role: None })
}

pub fn catalog_credits(credits: &Vec<Credit>) -> (r: Vec<ArtistCreditInput>)
    ensures
        r@ == credit_inputs(credits@),
{
    let mut out: Vec<ArtistCreditInput> = Vec::new();
    let mut i: usize = 0;
    while i < credits.len()
        invariant
            i <= credits.len(),
            out@ == credit_inputs(credits@).take(i as int),
        decreases credits.len() - i,
    {
        out.push(ArtistCreditInput { name: credits[i].name.clone(), role: None });
        assert(credit_inputs(credits@).take(i + 1) =~= credit_inputs(credits@).take(i as int).push(
            credit_inputs(credits@)[i as int],
        ));
        i = i + 1;
    }
    assert(credit_inputs(credits@).take(credits.len() as int) =~= credit_inputs(credits@));
    out
}

/// Every track of every medium, in order, numbered by its medium's position.
pub open spec fn catalog_tracks(media: Seq<Medium>) -> Seq<TrackInputView>
    decreases media.len(),
{
    if media.len() == 0 {
        Seq::empty()
    } else {
        catalog_tracks(media.drop_last()) + media.last().tracks@.map_values(
            |t: Track|
                TrackInputView {
                    title: t.title@,
                    artists: credit_inputs(t.credits@),
                    disc_number: Some(media.last().position),
                    track_number: Some(t.position),
                },
        )
    }
}

/// The Release rows a catalog Release asks for.
pub open spec fn catalog_input(r: Release) -> ReleaseInputView {
    ReleaseInputView {
        title: r.title@,
        year: leading_year(r.date@),
        artists: credit_inputs(r.credits@),
        tracks: catalog_tracks(r.media@),
    }
}

/// The Release input for a catalog Release; one without Tracks is refused.
pub fn catalog_release_input(release: &Release) -> (r: Result<CatalogReleaseInput, String>)
    ensures
        match r {
            Ok(input) => catalog_tracks(release.media@).len() > 0 && input@ == catalog_input(*release),
            Err(m) => catalog_tracks(release.media@).len() == 0 && m@ == "catalog Release has no Tracks"@,
        },
{
    let mut tracks: Vec<CatalogTrackInput> = Vec::new();
    let mut k: usize = 0;
    assert(release.media@.take(0) =~= Seq::<Medium>::empty());
    while k < release.media.len()
        invariant
            k <= release.media.len(),
            tracks@.map_values(|t: CatalogTrackInput| t@) == catalog_tracks(release.media@.take(k as int)),
        decreases release.media.len() - k,
    {
        let m = &release.media[k];
        let ghost base = catalog_tracks(release.media@.take(k as int));
        let ghost added = m.tracks@.map_values(
            |t: Track|
                TrackInputView {
                    title: t.title@,
                    artists: credit_inputs(t.credits@),
                    disc_number: Some(m.position),
                    track_number: Some(t.position),
                },
        );
        let mut j: usize = 0;
        assert(base + added.take(0) =~= base);
        while j < m.tracks.len()
            invariant
                j <= m.tracks.len(),
                added == m.tracks@.map_values(
                    |t: Track|
                        TrackInputView {
                            title: t.title@,
                            artists: credit_inputs(t.credits@),
                            disc_number: Some(m.position),
                            track_number: Some(t.position),
                        },
                ),
                tracks@.map_values(|t: CatalogTrackInput| t@) == base + added.take(j as int),
            decreases m.tracks.len() - j,
        {
            let t = &m.tracks[j];
            let ghost before = tracks@.map_values(|t: CatalogTrackInput| t@);
            tracks.push(
                CatalogTrackInput {
                    title: t.title.clone(),
                    artists: catalog_credits(&t.credits),
                    disc_number: Some(m.position),
                    track_number: Some(t.position),
                },
            );
            assert(tracks@.map_values(|t: CatalogTrackInput| t@) =~= before.push(added[j as int]));
            assert(base + added.take(j + 1) =~= (base + added.take(j as int)).push(added[j as int]));
            j = j + 1;
        }
        assert(added.take(m.tracks.len() as int) =~= added);
        assert(release.media@.take(k + 1).drop_last() =~= release.media@.take(k as int));
        assert(release.media@.take(k + 1).last() == *m);
        k = k + 1;
    }
    assert(release.media@.take(release.media.len() as int) =~= release.media@);
    if tracks.len() == 0 {
        return Err(string_of(chars_of("catalog Release has no Tracks").as_slice()));
    }
    let input = CatalogReleaseInput {
        title: release.title.clone(),
        year: leading_year_of(release.date.as_str()),
        artists: catalog_credits(&release.credits),
        tracks,
    };
    Ok(input)
}

/// Where an added Release's Album comes from: an Album that carries the
/// catalog Album identity, the Album of the Release that carries the Release
/// identity, or a new one.
#[derive(Debug, PartialEq, Eq)]
pub enum AlbumSource {
    Known(AlbumId),
    OfRelease(ReleaseId),
    New,
}

/// How a catalog Release is added, from the rows that already carry its
/// Release and Album identities.
#[derive(Debug, PartialEq, Eq)]
pub struct CatalogPlan {
    pub album: AlbumSource,
    pub existing: Option<ReleaseId>,
}

pub open spec fn plan_refusal(existing: Seq<String>, albums: Seq<String>) -> Option<Seq<char>> {
    if existing.len() > 1 {
        Some("catalog Release identity has multiple existing associations; resolve ambiguity before adding"@)
    } else if albums.len() > 1 {
        Some("catalog Album identity has multiple associations; resolve ambiguity before adding"@)
    } else {
        None
    }
}

pub fn catalog_release_plan(existing: &Vec<String>, albums: &Vec<String>) -> (r: Result<CatalogPlan, String>)
    ensures
        match r {
            Ok(plan) => {
                &&& plan_refusal(existing@, albums@) is None
                &&& match plan.album {
                    AlbumSource::Known(id) => albums@.len() == 1 && id.0 == albums@[0],
                    AlbumSource::OfRelease(id) => albums@.len() == 0 && existing@.len() == 1 && id.0
                        == existing@[0],
                    AlbumSource::New => albums@.len() == 0 && existing@.len() == 0,
                }
                &&& match plan.existing {
                    Some(id) => existing@.len() == 1 && id.0 == existing@[0],
                    None => existing@.len() == 0,
                }
            },
            Err(m) => plan_refusal(existing@, albums@) == Some(m@),
        },
{
    if existing.len() > 1 {
        return Err(
            string_of(
                chars_of(
                    "catalog Release identity has multiple existing associations; resolve ambiguity before adding",
                ).as_slice(),
            ),
        );
    }
    if albums.len() > 1 {
        return Err(
            string_of(
                chars_of(
                    "catalog Album identity has multiple associations; resolve ambiguity before adding",
                ).as_slice(),
            ),
        );
    }
    let album = if albums.len() == 1 {
        AlbumSource::Known(AlbumId(albums[0].clone()))
    } else if existing.len() == 1 {
        AlbumSource::OfRelease(ReleaseId(existing[0].clone()))
    } else {
        AlbumSource::New
    };
    let existing_release = if existing.len() == 1 {
        Some(ReleaseId(existing[0].clone()))
    } else {
        None
    };
    Ok(CatalogPlan { album, existing: existing_release })
}


/// Reusing an existing Release keeps it in its own Album: one that belongs to
/// another Album than the one the Release is added to is refused.
pub fn reuse_existing_release(owner: &str, album: &AlbumId) -> (r: Result<(), String>)
    ensures
        r is Ok <==> owner@ == album.0@,
        r matches Err(m) ==> m@ == "existing Release belongs to another Album; reconcile explicitly"@,
{
    if chars_eq(&chars_of(owner), &chars_of(album.0.as_str())) {
        Ok(())
    } else {
        Err("existing Release belongs to another Album; reconcile explicitly".to_owned())
    }
}

/// The most same-name Albums an imported Release is checked against.
pub const MAX_SAME_NAME_ALBUMS: usize = 64;

/// How many answers are `true`.
pub open spec fn supported_count(answers: Seq<bool>) -> nat
    decreases answers.len(),
{
    if answers.len() == 0 {
        0
    } else {
        supported_count(answers.drop_last()) + if answers.last() {
            1nat
        } else {
            0nat
        }
    }
}

/// The support checks made while choosing an existing Album: none for a
/// group beyond the bound; otherwise the candidates in order, stopping at the
/// second supported one.
pub open spec fn probed_for_support<S: Fn(&String) -> bool>(
    supports: S,
    candidates: Seq<String>,
    answers: Seq<bool>,
) -> bool {
    &&& answers.len() <= candidates.len()
    &&& candidates.len() > MAX_SAME_NAME_ALBUMS ==> answers.len() == 0
    &&& forall|k: int|
        0 <= k < answers.len() ==> supports.ensures((&candidates[k],), #[trigger] answers[k])
    &&& supported_count(answers) <= 2
    &&& candidates.len() <= MAX_SAME_NAME_ALBUMS && answers.len() < candidates.len() ==> supported_count(
        answers,
    ) == 2
}

/// The existing Album, among same-name `candidates`, that an imported Release
/// joins: the only one with track support. Pathological same-name groups are
/// bounded and never decided from a truncated set; a second supported
/// candidate ends the search with no choice.
pub fn existing_album<S: Fn(&String) -> bool>(candidates: &Vec<String>, supports: &S) -> (r: Option<
    usize,
>)
    requires
        forall|c: &String| supports.requires((c,)),
    ensures
        exists|answers: Seq<bool>|
            #[trigger] probed_for_support(*supports, candidates@, answers) && (r is Some
                <==> supported_count(answers) == 1) && (r matches Some(k) ==> k < answers.len()
                && answers[k as int]),
{
    let ghost mut answers: Seq<bool> = Seq::empty();
    if candidates.len() > MAX_SAME_NAME_ALBUMS {
        assert(probed_for_support(*supports, candidates@, answers));
        return None;
    }
    let mut found: Option<usize> = None;
    let mut count: usize = 0;
    let mut k: usize = 0;
    while k < candidates.len()
        invariant
            k <= candidates.len(),
            candidates.len() <= MAX_SAME_NAME_ALBUMS,
            answers.len() == k,
            forall|c: &String| supports.requires((c,)),
            forall|j: int|
                0 <= j < k ==> supports.ensures((&candidates@[j],), #[trigger] answers[j]),
            count == supported_count(answers),
            count <= 1,
            (count == 1) == (found is Some),
            found matches Some(f) ==> f < k && answers[f as int],
        decreases candidates.len() - k,
    {
        let a = supports(&candidates[k]);
        let ghost before = answers;
        proof {
            answers = answers.push(a);
            assert(answers.drop_last() =~= before);
        }
        if a {
            count = count + 1;
            if count == 2 {
                assert(probed_for_support(*supports, candidates@, answers));
                return None;
            }
            found = Some(k);
        }
        k = k + 1;
    }
    assert(probed_for_support(*supports, candidates@, answers));
    found
}


/// The Album credit established from local evidence rests on agreement: the
/// titles are consistent; every tagged Album Artist list, and the credit
/// itself, reads as one credit; and without explicit release Artists the
/// credit is the names of the first piece of evidence, without roles.
pub proof fn lemma_album_credit_agrees(request: ImportReleaseRequest, obs: Seq<ImportObservation>)
    ensures
        album_credit(request, obs) is Some ==> titles_consistent(request, obs),
        album_credit(request, obs) matches Some(v) ==> (credit_key(credit_names(v)) is Some && all_credit(
            tagged_names(obs),
            credit_key(credit_names(v))->0,
        )),
        request.release_artists@.len() > 0 ==> (album_credit(request, obs) is Some ==> album_credit(
            request,
            obs,
        ) == Some(request.release_artists@)),
        request.release_artists@.len() == 0 && tagged_names(obs).len() > 0 ==> (album_credit(
            request,
            obs,
        ) is Some ==> album_credit(request, obs) == Some(plain_credits(tagged_names(obs)[0]))),
{
    if album_credit(request, obs) is Some && request.release_artists@.len() == 0 {
        let evidence = if tagged_names(obs).len() > 0 {
            tagged_names(obs)
        } else {
            track_names(request.tracks@, obs)
        };
        assert(credit_names(plain_credits(evidence[0])) =~= evidence[0]);
        assert(credit_key(evidence[0]) is Some);
    }
}


/// The refusal of an import request: no Track at all, or the first Track
/// whose source file is unavailable, unknown, or already associated
/// (`usable[k]` for the `k`-th Track).
pub open spec fn import_refusal(request: ImportReleaseRequest, usable: Seq<bool>) -> Option<Seq<char>> {
    if request.tracks@.len() == 0 {
        Some("a Release import needs at least one Track"@)
    } else if exists|k: int| 0 <= k < usable.len() && !usable[k] {
        let k = choose|k: int| 0 <= k < usable.len() && !usable[k] && forall|j: int| 0 <= j < k ==> usable[j];
        Some("source "@ + request.tracks@[k].source_id.0@ + " is unavailable, unknown, or already associated"@)
    } else {
        None
    }
}

/// Whether a Release import may proceed, given whether each Track's source
/// file is available and not yet associated.
pub fn import_check(request: &ImportReleaseRequest, usable: &[bool]) -> (r: Result<(), String>)
    requires
        usable.len() == request.tracks.len(),
    ensures
        match import_refusal(*request, usable@) {
            Some(m) => r matches Err(e) && e@ == m,
            None => r is Ok,
        },
{
    if request.tracks.len() == 0 {
        return Err("a Release import needs at least one Track".to_owned());
    }
    let mut k: usize = 0;
    while k < usable.len()
        invariant
            k <= usable.len(),
            usable.len() == request.tracks.len(),
            request.tracks@.len() > 0,
            forall|j: int| 0 <= j < k ==> usable@[j],
        decreases usable.len() - k,
    {
        if !usable[k] {
            let mut text = chars_of("source ");
            append_chars(&mut text, &chars_of(request.tracks[k].source_id.0.as_str()));
            append_chars(&mut text, &chars_of(" is unavailable, unknown, or already associated"));
            proof {
                assert(0 <= k < usable@.len() && !usable@[k as int] && forall|j: int| 0 <= j < k ==> usable@[j]);
                let c = choose|c: int| 0 <= c < usable@.len() && !usable@[c] && forall|j: int| 0 <= j < c ==> usable@[j];
                if c < k {
                    assert(usable@[c]);
                } else if c > k {
                    assert(usable@[k as int]);
                }
            }
            return Err(string_of(text.as_slice()));
        }
        k = k + 1;
    }
    Ok(())
}
} // verus!
