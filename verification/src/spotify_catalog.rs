//! Spotify catalog search rules: query texts, the discovery fallback, and which
//! search results become candidates. Requests and JSON stay with the client.
use vstd::prelude::*;

use crate::album_matching::{album_title_variants, title_variants};
use crate::catalog::{ArtistAlbumCandidate, CatalogError};
use crate::domain::{id_views, ExternalIdentity, IdentityView};
use crate::edition::{
    artist_ev_views, track_ev_views, ArtistEvidence, ArtistEvidenceView, RecordingEvidence,
    RecordingEvidenceView, TrackEvidence, TrackEvidenceView,
};
use crate::song_resolution::Candidate;
use crate::spotify_playback::{ascii_alnum, track_id_shape};
use crate::text::{
    append_chars, char_is_alphanumeric, chars_of, is_alnum, join_strings, joined, split_whitespace,
    str_eq, string_of, trim, trimmed, views, ws_words,
};

verus! {

/// An Artist as a search result names it.
#[derive(Debug)]
pub struct ArtistHit {
    pub id: String,
    pub name: String,
}

/// An Album search result.
#[derive(Debug)]
pub struct AlbumHit {
    pub id: String,
    pub name: String,
    pub artists: Vec<ArtistHit>,
    pub release_date: String,
    pub album_type: String,
    pub total_tracks: Option<u32>,
}

/// A song search result with its Album.
#[derive(Debug)]
pub struct SongHit {
    pub id: Option<String>,
    pub name: String,
    pub disc_number: u32,
    pub track_number: u32,
    pub duration_ms: u64,
    pub artists: Vec<ArtistHit>,
    pub is_local: bool,
    pub album: AlbumHit,
}

/// A quoted search phrase: backslashes and double quotes escaped.
pub open spec fn spotify_escaped(s: Seq<char>) -> Seq<char>
    decreases s.len(),
{
    if s.len() == 0 {
        Seq::empty()
    } else {
        spotify_escaped(s.drop_last()) + if s.last() == '\\' || s.last() == '"' {
            seq!['\\', s.last()]
        } else {
            seq![s.last()]
        }
    }
}

pub open spec fn spotify_quoted(s: Seq<char>) -> Seq<char> {
    seq!['"'] + spotify_escaped(s) + seq!['"']
}

/// A quoted search phrase.
pub fn quoted(value: &str) -> (r: String)
    ensures
        r@ == spotify_quoted(value@),
{
    let chars = chars_of(value);
    let mut out: Vec<char> = Vec::new();
    out.push('"');
    let mut i: usize = 0;
    while i < chars.len()
        invariant
            i <= chars.len(),
            chars@ == value@,
            out@ == seq!['"'] + spotify_escaped(chars@.take(i as int)),
        decreases chars.len() - i,
    {
        let c = chars[i];
        if c == '\\' || c == '"' {
            out.push('\\');
        }
        out.push(c);
        proof {
            let t = chars@.take(i + 1);
            assert(t.drop_last() =~= chars@.take(i as int));
            assert(t.last() == c);
        }
        assert(out@ =~= seq!['"'] + spotify_escaped(chars@.take(i + 1)));
        i = i + 1;
    }
    out.push('"');
    assert(chars@.take(chars.len() as int) =~= chars@);
    assert(out@ =~= spotify_quoted(value@));
    string_of(out.as_slice())
}

fn push_text(out: &mut Vec<char>, s: &str)
    ensures
        final(out)@ == old(out)@ + s@,
{
    let extra = chars_of(s);
    append_chars(out, &extra);
}

/// The Artist search.
pub fn artist_query(name: &str) -> (r: String)
    ensures
        r@ == "artist:"@ + spotify_quoted(name@),
{
    let mut out = chars_of("artist:");
    push_text(&mut out, quoted(name).as_str());
    string_of(out.as_slice())
}

/// The song search for explicit Play: a Track title and a credited Artist,
/// both needed.
pub fn song_query(title: &str, artist: &str) -> (r: Result<String, CatalogError>)
    ensures
        trimmed(title@).len() == 0 || trimmed(artist@).len() == 0 ==> (r matches Err(
            CatalogError::Other(m),
        ) && m@ == "Song resolution needs a Track title and credited Artist"@),
        trimmed(title@).len() > 0 && trimmed(artist@).len() > 0 ==> (r matches Ok(q) && q@
            == "track:"@ + spotify_quoted(title@) + " artist:"@ + spotify_quoted(artist@)),
{
    if trim(&chars_of(title)).len() == 0 || trim(&chars_of(artist)).len() == 0 {
        return Err(
            CatalogError::Other(
                string_of(
                    chars_of("Song resolution needs a Track title and credited Artist").as_slice(),
                ),
            ),
        );
    }
    let mut out = chars_of("track:");
    push_text(&mut out, quoted(title).as_str());
    push_text(&mut out, " artist:");
    push_text(&mut out, quoted(artist).as_str());
    Ok(string_of(out.as_slice()))
}

/// The title searched for: its first format-free variant, else the title.
pub open spec fn search_base(title: Seq<char>) -> Seq<char> {
    if title_variants(title).len() > 0 {
        title_variants(title)[0].title
    } else {
        title
    }
}

/// The Album search: Spotify has no Artist-id field, so the name narrows the
/// search only when every plausible Artist shares it; returned Artist ids
/// decide membership afterwards.
pub open spec fn album_query_of(title: Seq<char>, names: Seq<Seq<char>>) -> Seq<char> {
    "album:"@ + spotify_quoted(search_base(title)) + if names.len() == 1 {
        " artist:"@ + spotify_quoted(names[0])
    } else {
        Seq::empty()
    }
}

/// The title searched for.
pub fn search_title(title: &str) -> (r: String)
    ensures
        r@ == search_base(title@),
{
    let variants = album_title_variants(title);
    if variants.len() > 0 {
        assert(crate::album_matching::variant_views(variants@)[0] == variants@[0]@);
        variants[0].title.clone()
    } else {
        title.to_owned()
    }
}

/// The Album search text for the distinct names of the plausible Artists.
pub fn album_query(title: &str, names: &Vec<String>) -> (r: String)
    ensures
        r@ == album_query_of(title@, views(names@)),
{
    let mut out = chars_of("album:");
    push_text(&mut out, quoted(search_title(title).as_str()).as_str());
    if names.len() == 1 {
        push_text(&mut out, " artist:");
        push_text(&mut out, quoted(names[0].as_str()).as_str());
        assert(views(names@)[0] == names@[0]@);
    }
    assert(out@ =~= album_query_of(title@, views(names@)));
    string_of(out.as_slice())
}

/// The pieces of a text between characters that are not alphanumeric.
pub open spec fn alnum_pieces(s: Seq<char>) -> Seq<Seq<char>>
    decreases s.len(),
{
    if s.len() == 0 {
        seq![Seq::empty()]
    } else {
        let before = alnum_pieces(s.drop_last());
        if is_alnum(s.last()) {
            before.update(before.len() - 1, before.last().push(s.last()))
        } else {
            before.push(Seq::empty())
        }
    }
}

proof fn lemma_pieces_nonempty(s: Seq<char>)
    ensures
        alnum_pieces(s).len() > 0,
    decreases s.len(),
{
    if s.len() > 0 {
        lemma_pieces_nonempty(s.drop_last());
    }
}

/// The last among the longest pieces of at least four characters.
pub open spec fn longest_piece(pieces: Seq<Seq<char>>) -> Option<Seq<char>>
    decreases pieces.len(),
{
    if pieces.len() == 0 {
        None
    } else {
        let p = pieces.last();
        match longest_piece(pieces.drop_last()) {
            Some(best) => if p.len() >= best.len() {
                Some(p)
            } else {
                Some(best)
            },
            None => if p.len() >= 4 {
                Some(p)
            } else {
                None
            },
        }
    }
}

/// One distinctive word for discovery when a quoted full title finds nothing:
/// the last of the longest alphanumeric pieces of at least four characters.
pub fn fallback_token(base: &str) -> (r: Option<String>)
    ensures
        match r {
            Some(t) => longest_piece(alnum_pieces(base@)) == Some(t@),
            None => longest_piece(alnum_pieces(base@)) is None,
        },
{
    let chars = chars_of(base);
    let mut best: Option<Vec<char>> = None;
    let mut cur: Vec<char> = Vec::new();
    let mut i: usize = 0;
    proof {
        assert(chars@.take(0) =~= Seq::<char>::empty());
    }
    while i < chars.len()
        invariant
            i <= chars.len(),
            chars@ == base@,
            alnum_pieces(chars@.take(i as int)).len() > 0,
            cur@ == alnum_pieces(chars@.take(i as int)).last(),
            match best {
                Some(b) => longest_piece(alnum_pieces(chars@.take(i as int)).drop_last()) == Some(
                    b@,
                ),
                None => longest_piece(alnum_pieces(chars@.take(i as int)).drop_last()) is None,
            },
        decreases chars.len() - i,
    {
        let c = chars[i];
        let ghost before = alnum_pieces(chars@.take(i as int));
        proof {
            let t = chars@.take(i + 1);
            assert(t.drop_last() =~= chars@.take(i as int));
            assert(t.last() == c);
        }
        if char_is_alphanumeric(c) {
            cur.push(c);
            proof {
                let after = alnum_pieces(chars@.take(i + 1));
                assert(after.drop_last() =~= before.drop_last());
            }
        } else {
            // The piece just closed competes for the longest.
            let close = cur;
            cur = Vec::new();
            best = match best {
                Some(b) => if close.len() >= b.len() {
                    Some(close)
                } else {
                    Some(b)
                },
                None => if close.len() >= 4 {
                    Some(close)
                } else {
                    None
                },
            };
            proof {
                let after = alnum_pieces(chars@.take(i + 1));
                assert(after.drop_last() =~= before);
                assert(before.drop_last().push(before.last()) =~= before);
                assert(after.last() =~= Seq::<char>::empty());
            }
        }
        i = i + 1;
    }
    assert(chars@.take(chars.len() as int) =~= chars@);
    let ghost pieces = alnum_pieces(chars@);
    let result = match best {
        Some(b) => if cur.len() >= b.len() {
            Some(cur)
        } else {
            Some(b)
        },
        None => if cur.len() >= 4 {
            Some(cur)
        } else {
            None
        },
    };
    proof {
        assert(pieces.drop_last().push(pieces.last()) =~= pieces);
    }
    match result {
        Some(t) => Some(string_of(t.as_slice())),
        None => None,
    }
}

/// The discovery fallback after an empty, final page for a one-Artist search
/// of a title with several words.
pub open spec fn fallback_query_of(base: Seq<char>, names: Seq<Seq<char>>, empty_final: bool) -> Option<
    Seq<char>,
> {
    if empty_final && names.len() == 1 && ws_words(base).len() > 1 {
        match longest_piece(alnum_pieces(base)) {
            Some(token) => Some(
                "album:"@ + spotify_quoted(token) + " artist:"@ + spotify_quoted(names[0]),
            ),
            None => None,
        }
    } else {
        None
    }
}

/// The fallback search, when one is due.
pub fn fallback_query(base: &str, names: &Vec<String>, empty_final: bool) -> (r: Option<String>)
    ensures
        match r {
            Some(q) => fallback_query_of(base@, views(names@), empty_final) == Some(q@),
            None => fallback_query_of(base@, views(names@), empty_final) is None,
        },
{
    if !empty_final || names.len() != 1 || split_whitespace(&chars_of(base)).len() <= 1 {
        return None;
    }
    match fallback_token(base) {
        Some(token) => {
            let mut out = chars_of("album:");
            push_text(&mut out, quoted(token.as_str()).as_str());
            push_text(&mut out, " artist:");
            push_text(&mut out, quoted(names[0].as_str()).as_str());
            assert(views(names@)[0] == names@[0]@);
            Some(string_of(out.as_slice()))
        },
        None => None,
    }
}

/// More results remain: a next page is linked, or the page ends before the
/// total.
pub fn more(next: bool, offset: usize, len: usize, total: usize) -> (r: bool)
    ensures
        r == (next || offset + len < total),
{
    next || (offset as u128 + len as u128) < total as u128
}

/// The names of the Artists, joined by commas.
pub open spec fn display_of(artists: Seq<ArtistHit>) -> Seq<char> {
    joined(artists.map_values(|a: ArtistHit| a.name@), ", "@)
}

pub fn display(artists: &Vec<ArtistHit>) -> (r: String)
    ensures
        r@ == display_of(artists@),
{
    let mut names: Vec<String> = Vec::new();
    let mut k: usize = 0;
    while k < artists.len()
        invariant
            k <= artists.len(),
            views(names@) == artists@.take(k as int).map_values(|a: ArtistHit| a.name@),
        decreases artists.len() - k,
    {
        let ghost before = views(names@);
        names.push(artists[k].name.clone());
        assert(views(names@) =~= before.push(artists@[k as int].name@));
        assert(artists@.take(k + 1).map_values(|a: ArtistHit| a.name@) =~= artists@.take(
            k as int,
        ).map_values(|a: ArtistHit| a.name@).push(artists@[k as int].name@));
        k = k + 1;
    }
    assert(artists@.take(artists.len() as int) =~= artists@);
    string_of(join_strings(names.as_slice(), ", ").as_slice())
}

/// A Spotify identity of the given kind.
pub open spec fn spotify_identity(kind: Seq<char>, value: Seq<char>) -> IdentityView {
    IdentityView { provider: "spotify"@, kind, external_id: value }
}

fn identity(kind: &str, value: &String) -> (r: ExternalIdentity)
    ensures
        r@ == spotify_identity(kind@, value@),
{
    ExternalIdentity { provider: "spotify".to_owned(), kind: kind.to_owned(), external_id: value.clone() }
}

/// A playable song result: an id of 22 ASCII letters and digits, not a local
/// file.
pub open spec fn playable(h: SongHit) -> bool {
    h.id matches Some(k) && !h.is_local && track_id_shape(k@)
}

/// A playable result whose id no earlier playable result had.
pub open spec fn first_of_its_id(hits: Seq<SongHit>, i: int) -> bool {
    &&& playable(hits[i])
    &&& forall|j: int|
        0 <= j < i && playable(#[trigger] hits[j]) ==> hits[j].id->0@ != hits[i].id->0@
}

/// The candidate a song result becomes.
pub open spec fn song_candidate(h: SongHit, c: Candidate) -> bool {
    &&& c.identity@ == spotify_identity("track"@, h.id->0@)
    &&& c.title@ == h.name@
    &&& c.artist@ == display_of(h.artists@)
    &&& c.album@ == h.album.name@
    &&& c.date@ == h.album.release_date@
    &&& c.duration_ms == h.duration_ms
    &&& c.disc == h.disc_number
    &&& c.number == h.track_number
}

/// The indices of the first `n` results that become candidates.
pub open spec fn kept_songs(hits: Seq<SongHit>, n: int) -> Seq<int>
    decreases n,
{
    if n <= 0 {
        Seq::empty()
    } else if first_of_its_id(hits, n - 1) {
        kept_songs(hits, n - 1).push(n - 1)
    } else {
        kept_songs(hits, n - 1)
    }
}

fn id_seen(hits: &Vec<SongHit>, i: usize, key: &String) -> (r: bool)
    requires
        i <= hits@.len(),
    ensures
        r == exists|j: int| 0 <= j < i && playable(#[trigger] hits@[j]) && hits@[j].id->0@ == key@,
{
    let mut j: usize = 0;
    while j < i
        invariant
            j <= i,
            i <= hits@.len(),
            forall|x: int| 0 <= x < j ==> !(playable(#[trigger] hits@[x]) && hits@[x].id->0@ == key@),
        decreases i - j,
    {
        if song_playable(&hits[j]) {
            match &hits[j].id {
                Some(other) => if *other == *key {
                    assert(hits@[j as int].id->0@ == key@);
                    return true;
                },
                None => {},
            }
        }
        j = j + 1;
    }
    false
}

fn song_playable(h: &SongHit) -> (r: bool)
    ensures
        r == playable(*h),
{
    match &h.id {
        Some(k) => {
            if h.is_local {
                return false;
            }
            let c = chars_of(k.as_str());
            if c.len() != 22 {
                return false;
            }
            let mut i: usize = 0;
            while i < c.len()
                invariant
                    i <= c.len(),
                    c@ == k@,
                    c@.len() == 22,
                    h.id == Some(*k),
                    !h.is_local,
                    forall|x: int| 0 <= x < i ==> ascii_alnum(#[trigger] c@[x]),
                decreases c.len() - i,
            {
                let ch = c[i];
                if !(('0' <= ch && ch <= '9') || ('a' <= ch && ch <= 'z') || ('A' <= ch && ch
                    <= 'Z')) {
                    assert(!ascii_alnum(c@[i as int]));
                    assert(k@[i as int] == c@[i as int]);
                    return false;
                }
                i = i + 1;
            }
            true
        },
        None => false,
    }
}

/// The candidates among the first ten song results: playable results, each
/// id once, in result order.
pub fn song_candidates(hits: &Vec<SongHit>) -> (r: Vec<Candidate>)
    ensures
        r@.len() == kept_songs(hits@, if hits@.len() < 10 { hits@.len() as int } else { 10 }).len(),
        forall|k: int|
            0 <= k < r@.len() ==> song_candidate(
                hits@[kept_songs(hits@, if hits@.len() < 10 { hits@.len() as int } else { 10 })[k]],
                #[trigger] r@[k],
            ),
{
    let n: usize = if hits.len() < 10 {
        hits.len()
    } else {
        10
    };
    let mut out: Vec<Candidate> = Vec::new();
    let mut i: usize = 0;
    while i < n
        invariant
            i <= n,
            n <= hits@.len(),
            out@.len() == kept_songs(hits@, i as int).len(),
            forall|k: int| 0 <= k < kept_songs(hits@, i as int).len() ==> 0 <= #[trigger] kept_songs(hits@, i as int)[k] < i,
            forall|k: int|
                0 <= k < out@.len() ==> song_candidate(
                    hits@[kept_songs(hits@, i as int)[k]],
                    #[trigger] out@[k],
                ),
        decreases n - i,
    {
        let h = &hits[i];
        let keep = match &h.id {
            Some(key) => song_playable(h) && !id_seen(hits, i, key),
            None => false,
        };
        proof {
            if keep {
                assert(first_of_its_id(hits@, i as int));
            } else {
                assert(!first_of_its_id(hits@, i as int));
            }
        }
        if keep {
            let key = match &h.id {
                Some(key) => key,
                None => {
                    assert(false);
                    return out;
                },
            };
            let c = Candidate {
                identity: identity("track", key),
                title: h.name.clone(),
                artist: display(&h.artists),
                album: h.album.name.clone(),
                date: h.album.release_date.clone(),
                duration_ms: h.duration_ms,
                disc: h.disc_number,
                number: h.track_number,
            };
            out.push(c);
        }
        i = i + 1;
    }
    out
}

/// Spotify's Album type as the application names it.
pub open spec fn primary_type_of(album_type: Seq<char>) -> Seq<char> {
    if album_type == "album"@ {
        "Album"@
    } else if album_type == "compilation"@ {
        "Compilation"@
    } else if album_type == "single"@ {
        "Single"@
    } else {
        ""@
    }
}

/// An Album result credits one of the candidate Artists.
pub open spec fn credits_candidate(a: AlbumHit, artists: Seq<IdentityView>) -> bool {
    exists|k: int|
        0 <= k < a.artists@.len() && artists.contains(
            spotify_identity("artist"@, (#[trigger] a.artists@[k]).id@),
        )
}

/// The candidate an Album result becomes.
pub open spec fn album_candidate(a: AlbumHit, c: ArtistAlbumCandidate) -> bool {
    &&& c.identity@ == spotify_identity("album"@, a.id@)
    &&& c.title@ == a.name@
    &&& id_views(c.artist_ids@) == a.artists@.map_values(
        |x: ArtistHit| spotify_identity("artist"@, x.id@),
    )
    &&& c.date@ == a.release_date@
    &&& c.primary_type@ == primary_type_of(a.album_type@)
    &&& c.comment@.len() == 0
}

pub open spec fn kept_albums(albums: Seq<AlbumHit>, artists: Seq<IdentityView>, n: int) -> Seq<int>
    decreases n,
{
    if n <= 0 {
        Seq::empty()
    } else if credits_candidate(albums[n - 1], artists) {
        kept_albums(albums, artists, n - 1).push(n - 1)
    } else {
        kept_albums(albums, artists, n - 1)
    }
}

fn credits(a: &AlbumHit, artists: &[ExternalIdentity]) -> (r: bool)
    ensures
        r == credits_candidate(*a, id_views(artists@)),
{
    let mut k: usize = 0;
    while k < a.artists.len()
        invariant
            k <= a.artists.len(),
            forall|x: int|
                0 <= x < k ==> !id_views(artists@).contains(
                    spotify_identity("artist"@, (#[trigger] a.artists@[x]).id@),
                ),
        decreases a.artists.len() - k,
    {
        let wanted = identity("artist", &a.artists[k].id);
        if crate::domain::contains_identity(artists, &wanted) {
            proof {
                let j = choose|j: int| 0 <= j < artists@.len() && (#[trigger] artists@[j])@ == wanted@;
                assert(id_views(artists@)[j] == wanted@);
            }
            return true;
        }
        proof {
            if id_views(artists@).contains(wanted@) {
                let j = choose|j: int| 0 <= j < id_views(artists@).len() && id_views(artists@)[j] == wanted@;
                assert(artists@[j]@ == wanted@);
            }
        }
        k = k + 1;
    }
    false
}

/// The Album results that credit a candidate Artist, in result order.
pub fn album_candidates(albums: &Vec<AlbumHit>, artists: &[ExternalIdentity]) -> (r: Vec<
    ArtistAlbumCandidate,
>)
    ensures
        r@.len() == kept_albums(albums@, id_views(artists@), albums@.len() as int).len(),
        forall|k: int|
            0 <= k < r@.len() ==> album_candidate(
                albums@[kept_albums(albums@, id_views(artists@), albums@.len() as int)[k]],
                #[trigger] r@[k],
            ),
{
    proof {
        reveal_strlit("album");
        reveal_strlit("compilation");
        reveal_strlit("single");
    }
    let ghost av = id_views(artists@);
    let mut out: Vec<ArtistAlbumCandidate> = Vec::new();
    let mut i: usize = 0;
    while i < albums.len()
        invariant
            i <= albums.len(),
            av == id_views(artists@),
            out@.len() == kept_albums(albums@, av, i as int).len(),
            forall|k: int| 0 <= k < kept_albums(albums@, av, i as int).len() ==> 0 <= #[trigger] kept_albums(albums@, av, i as int)[k] < i,
            forall|k: int|
                0 <= k < out@.len() ==> album_candidate(
                    albums@[kept_albums(albums@, av, i as int)[k]],
                    #[trigger] out@[k],
                ),
        decreases albums.len() - i,
    {
        let a = &albums[i];
        if credits(a, artists) {
            let mut ids: Vec<ExternalIdentity> = Vec::new();
            let mut k: usize = 0;
            while k < a.artists.len()
                invariant
                    k <= a.artists.len(),
                    id_views(ids@) == a.artists@.take(k as int).map_values(
                        |x: ArtistHit| spotify_identity("artist"@, x.id@),
                    ),
                decreases a.artists.len() - k,
            {
                let ghost before = id_views(ids@);
                let id = identity("artist", &a.artists[k].id);
                ids.push(id);
                assert(id_views(ids@) =~= before.push(spotify_identity("artist"@, a.artists@[k as int].id@)));
                assert(a.artists@.take(k + 1).map_values(
                    |x: ArtistHit| spotify_identity("artist"@, x.id@),
                ) =~= a.artists@.take(k as int).map_values(
                    |x: ArtistHit| spotify_identity("artist"@, x.id@),
                ).push(spotify_identity("artist"@, a.artists@[k as int].id@)));
                k = k + 1;
            }
            assert(a.artists@.take(a.artists.len() as int) =~= a.artists@);
            let t = a.album_type.as_str();
            let primary = if str_eq(t, "album") {
                "Album"
            } else if str_eq(t, "compilation") {
                "Compilation"
            } else if str_eq(t, "single") {
                "Single"
            } else {
                ""
            };
            let c = ArtistAlbumCandidate {
                identity: identity("album", &a.id),
                title: a.name.clone(),
                artist_ids: ids,
                comment: String::new(),
                date: a.release_date.clone(),
                primary_type: primary.to_owned(),
            };
            out.push(c);
        }
        i = i + 1;
    }
    out
}

/// A Spotify catalog identity of the given kind: a nonempty id of ASCII
/// letters and digits.
pub open spec fn catalog_identity_ok(id: IdentityView, kind: Seq<char>) -> bool {
    &&& id.provider == "spotify"@
    &&& id.kind == kind
    &&& id.external_id.len() > 0
    &&& forall|i: int| 0 <= i < id.external_id.len() ==> ascii_alnum(#[trigger] id.external_id[i])
}

fn refusal() -> (e: CatalogError)
    ensures
        e matches CatalogError::Configuration { status, message } && status == 0 && message@
            == "Invalid Spotify catalog identity"@,
{
    CatalogError::Configuration {
        status: 0,
        message: string_of(chars_of("Invalid Spotify catalog identity").as_slice()),
    }
}

/// Accept only a Spotify catalog identity of the given kind; anything else is
/// a configuration error of the caller.
pub fn require(identity: &ExternalIdentity, kind: &str) -> (r: Result<(), CatalogError>)
    ensures
        r is Ok <==> catalog_identity_ok(identity@, kind@),
        r matches Err(e) ==> e matches CatalogError::Configuration { status, message } && status
            == 0 && message@ == "Invalid Spotify catalog identity"@,
{
    if !str_eq(identity.provider.as_str(), "spotify") || !str_eq(identity.kind.as_str(), kind) {
        return Err(refusal());
    }
    let c = chars_of(identity.external_id.as_str());
    if c.len() == 0 {
        return Err(refusal());
    }
    let mut i: usize = 0;
    while i < c.len()
        invariant
            i <= c.len(),
            c@ == identity.external_id@,
            forall|x: int| 0 <= x < i ==> ascii_alnum(#[trigger] c@[x]),
        decreases c.len() - i,
    {
        let ch = c[i];
        if !(('0' <= ch && ch <= '9') || ('a' <= ch && ch <= 'z') || ('A' <= ch && ch <= 'Z')) {
            assert(!ascii_alnum(identity@.external_id[i as int]));
            return Err(refusal());
        }
        i = i + 1;
    }
    Ok(())
}

// ---------------------------------------------------------------------------
// Reading an Album's track program page by page.

/// A track as an Album's track pages list it.
#[derive(Debug)]
pub struct AlbumTrack {
    pub id: Option<String>,
    pub name: String,
    pub disc_number: u32,
    pub track_number: u32,
    pub duration_ms: u64,
    pub artists: Vec<ArtistHit>,
    pub isrc: Option<String>,
    pub is_local: bool,
}

/// One page of an Album's tracks; `next` tells whether a next page is linked.
#[derive(Debug)]
pub struct TrackPage {
    pub items: Vec<AlbumTrack>,
    pub total: usize,
    pub offset: usize,
    pub next: bool,
}

/// The program read so far: where the next page starts, the total the first
/// page announced, the tracks, and whether the last page was read.
#[derive(Debug)]
pub struct ProgramRead {
    pub offset: usize,
    pub expected: Option<usize>,
    pub tracks: Vec<TrackEvidence>,
    pub complete: bool,
}

/// The Artists of a track, joined by commas.
pub open spec fn track_artists(artists: Seq<ArtistHit>) -> Seq<ArtistEvidenceView> {
    Seq::new(
        artists.len(),
        |i: int|
            ArtistEvidenceView {
                identities: seq![spotify_identity("artist"@, artists[i].id@)],
                name: artists[i].name@,
                join_phrase: if i + 1 < artists.len() {
                    ", "@
                } else {
                    Seq::empty()
                },
            },
    )
}

/// A catalog song occurrence: no Recording identity is claimed.
pub open spec fn program_track(t: AlbumTrack) -> TrackEvidenceView {
    TrackEvidenceView {
        identities: seq![spotify_identity("track"@, t.id->0@)],
        disc: Some(t.disc_number),
        number: Some(t.track_number),
        title: Some(t.name@),
        artists: track_artists(t.artists@),
        duration_ms: Some(t.duration_ms),
        recording: RecordingEvidenceView {
            identities: Seq::empty(),
            isrcs: match t.isrc {
                Some(i) => seq![i@],
                None => Seq::empty(),
            },
        },
    }
}

pub open spec fn identified_track(t: AlbumTrack) -> bool {
    t.id matches Some(v) && v@.len() > 0 && !t.is_local
}

/// Why a page cannot continue the program, if it cannot.
pub open spec fn page_refusal(offset: usize, expected: Option<usize>, page: TrackPage) -> Option<Seq<char>> {
    let more = page.next || page.offset + page.items@.len() < page.total;
    if page.offset != offset || (expected matches Some(n) && n != page.total) {
        Some("Spotify Album program changed during pagination"@)
    } else if page.items@.len() == 0 && more {
        Some("Incomplete Spotify Album page"@)
    } else if exists|i: int| 0 <= i < page.items@.len() && !identified_track(#[trigger] page.items@[i]) {
        Some("Unavailable Spotify Album Track identity"@)
    } else {
        None
    }
}

fn occurrence(t: &AlbumTrack) -> (r: TrackEvidence)
    requires
        identified_track(*t),
    ensures
        r@ == program_track(*t),
{
    let id = match &t.id {
        Some(v) => v,
        None => {
            assert(false);
            return TrackEvidence::default();
        },
    };
    let mut artists: Vec<ArtistEvidence> = Vec::new();
    let mut i: usize = 0;
    let ghost want = track_artists(t.artists@);
    while i < t.artists.len()
        invariant
            i <= t.artists.len(),
            want == track_artists(t.artists@),
            artist_ev_views(artists@) == want.take(i as int),
        decreases t.artists.len() - i,
    {
        let a = &t.artists[i];
        let join = if i + 1 < t.artists.len() {
            string_of(chars_of(", ").as_slice())
        } else {
            String::new()
        };
        let mut ids: Vec<ExternalIdentity> = Vec::new();
        ids.push(identity("artist", &a.id));
        assert(id_views(ids@) =~= seq![spotify_identity("artist"@, a.id@)]);
        let ghost before = artist_ev_views(artists@);
        let ev = ArtistEvidence { identities: ids, name: a.name.clone(), join_phrase: join };
        assert(ev@ == want[i as int]);
        artists.push(ev);
        assert(artist_ev_views(artists@) =~= before.push(want[i as int]));
        assert(want.take(i + 1) =~= want.take(i as int).push(want[i as int]));
        i = i + 1;
    }
    assert(want.take(t.artists.len() as int) =~= want);
    let mut identities: Vec<ExternalIdentity> = Vec::new();
    identities.push(identity("track", id));
    let mut isrcs: Vec<String> = Vec::new();
    match &t.isrc {
        Some(v) => isrcs.push(v.clone()),
        None => {},
    }
    let r = TrackEvidence {
        identities,
        disc: Some(t.disc_number),
        number: Some(t.track_number),
        title: Some(t.name.clone()),
        artists,
        duration_ms: Some(t.duration_ms),
        recording: RecordingEvidence { identities: Vec::new(), isrcs },
    };
    assert(r@.identities =~= seq![spotify_identity("track"@, id@)]);
    assert(r@.recording.identities =~= Seq::<IdentityView>::empty());
    assert(r@.recording.isrcs =~= program_track(*t).recording.isrcs);
    r
}

/// Add one page to the program read so far, or refuse it. The page's tracks
/// join in order; the first page fixes the total; a page without a
/// successor completes the program.
pub fn read_program_page(read: &mut ProgramRead, page: &TrackPage) -> (r: Result<(), CatalogError>)
    requires
        old(read).offset + page.items@.len() <= usize::MAX,
    ensures
        match r {
            Ok(()) => {
                &&& page_refusal(old(read).offset, old(read).expected, *page) is None
                &&& final(read).offset == old(read).offset + page.items@.len()
                &&& final(read).expected == Some(page.total)
                &&& track_ev_views(final(read).tracks@) == track_ev_views(old(read).tracks@)
                    + page.items@.map_values(|t: AlbumTrack| program_track(t))
                &&& final(read).complete == (old(read).complete || !(page.next || page.offset
                    + page.items@.len() < page.total))
            },
            Err(e) => page_refusal(old(read).offset, old(read).expected, *page) matches Some(m)
                && e matches CatalogError::Other(x) && x@ == m,
        },
{
    let changed = page.offset != read.offset || match read.expected {
        Some(n) => n != page.total,
        None => false,
    };
    if changed {
        return Err(CatalogError::Other(
            string_of(chars_of("Spotify Album program changed during pagination").as_slice()),
        ));
    }
    let more_pages = more(page.next, page.offset, page.items.len(), page.total);
    if page.items.len() == 0 && more_pages {
        return Err(CatalogError::Other(string_of(chars_of("Incomplete Spotify Album page").as_slice())));
    }
    let mut i: usize = 0;
    while i < page.items.len()
        invariant
            i <= page.items.len(),
            read.offset == old(read).offset,
            read.expected == old(read).expected,
            page.offset == read.offset,
            !(read.expected matches Some(n) && n != page.total),
            !(page.items@.len() == 0 && (page.next || page.offset + page.items@.len() < page.total)),
            forall|k: int| 0 <= k < i ==> identified_track(#[trigger] page.items@[k]),
        decreases page.items.len() - i,
    {
        let t = &page.items[i];
        let ok = match &t.id {
            Some(v) => !v.as_str().is_empty() && !t.is_local,
            None => false,
        };
        if !ok {
            assert(!identified_track(page.items@[i as int]));
            return Err(CatalogError::Other(
                string_of(chars_of("Unavailable Spotify Album Track identity").as_slice()),
            ));
        }
        i = i + 1;
    }
    let ghost base = track_ev_views(read.tracks@);
    let ghost want = page.items@.map_values(|t: AlbumTrack| program_track(t));
    let mut k: usize = 0;
    assert(base + want.take(0) =~= base);
    while k < page.items.len()
        invariant
            k <= page.items.len(),
            read.offset == old(read).offset,
            read.expected == old(read).expected,
            read.complete == old(read).complete,
            base == track_ev_views(old(read).tracks@),
            forall|x: int| 0 <= x < page.items@.len() ==> identified_track(#[trigger] page.items@[x]),
            want == page.items@.map_values(|t: AlbumTrack| program_track(t)),
            track_ev_views(read.tracks@) == base + want.take(k as int),
        decreases page.items.len() - k,
    {
        let ghost before = track_ev_views(read.tracks@);
        let ev = occurrence(&page.items[k]);
        read.tracks.push(ev);
        assert(track_ev_views(read.tracks@) =~= before.push(want[k as int]));
        assert(base + want.take(k + 1) =~= (base + want.take(k as int)).push(want[k as int]));
        k = k + 1;
    }
    assert(want.take(page.items.len() as int) =~= want);
    read.expected = Some(page.total);
    read.offset = read.offset + page.items.len();
    if !more_pages {
        read.complete = true;
    }
    Ok(())
}

// ---------------------------------------------------------------------------
// Catalog client configuration, tokens and failures.

/// A configuration error with status 0.
pub open spec fn configuration_error(e: CatalogError, message: Seq<char>) -> bool {
    e matches CatalogError::Configuration { status, message: m } && status == 0 && m@ == message
}

fn configuration(message: &str) -> (e: CatalogError)
    ensures
        configuration_error(e, message@),
{
    CatalogError::Configuration { status: 0, message: string_of(chars_of(message).as_slice()) }
}

/// The most Artist candidates an Album search is scoped to.
pub const MAX_SCOPED_ARTISTS: usize = 10;

/// An Album search is scoped to between one and ten Artist candidates;
/// anything else is a configuration error of the caller.
pub fn scope_bound(artists: &[ExternalIdentity]) -> (r: Result<(), CatalogError>)
    ensures
        r is Ok <==> 1 <= artists.len() <= MAX_SCOPED_ARTISTS,
        r matches Err(e) ==> configuration_error(e, "Expected bounded Artist candidates"@),
{
    if artists.len() == 0 || artists.len() > MAX_SCOPED_ARTISTS {
        Err(configuration("Expected bounded Artist candidates"))
    } else {
        Ok(())
    }
}

/// The names in the order first seen, each once.
pub open spec fn first_seen(s: Seq<Seq<char>>) -> Seq<Seq<char>>
    decreases s.len(),
{
    if s.len() == 0 {
        Seq::empty()
    } else {
        let rest = first_seen(s.drop_last());
        if rest.contains(s.last()) {
            rest
        } else {
            rest.push(s.last())
        }
    }
}

/// The Artist names of the scoped candidates, each once, in the order first
/// seen: a name query is made only when all of them share one name.
pub fn distinct_names(names: &Vec<String>) -> (r: Vec<String>)
    ensures
        views(r@) == first_seen(views(names@)),
        views(r@).no_duplicates(),
{
    let ghost nv = views(names@);
    let mut out: Vec<String> = Vec::new();
    let mut i: usize = 0;
    while i < names.len()
        invariant
            i <= names.len(),
            nv == views(names@),
            views(out@) == first_seen(nv.take(i as int)),
            views(out@).no_duplicates(),
        decreases names.len() - i,
    {
        let ghost before = views(out@);
        assert(nv.take(i + 1).drop_last() =~= nv.take(i as int));
        assert(nv.take(i + 1).last() == names@[i as int]@);
        let mut seen = false;
        let mut j: usize = 0;
        while j < out.len()
            invariant
                j <= out.len(),
                i < names.len(),
                before == views(out@),
                seen == exists|k: int| 0 <= k < j && before[k] == names@[i as int]@,
            decreases out.len() - j,
        {
            if out[j] == names[i] {
                assert(before[j as int] == names@[i as int]@);
                seen = true;
            }
            j = j + 1;
        }
        if !seen {
            out.push(names[i].clone());
            assert(views(out@) =~= before.push(names@[i as int]@));
        }
        i = i + 1;
    }
    assert(nv.take(names.len() as int) =~= nv);
    out
}

/// The catalog client's credentials and market.
pub struct Config {
    client_id: String,
    client_secret: String,
    market: String,
}

pub open spec fn ascii_capital(c: char) -> char {
    if 'a' <= c && c <= 'z' {
        ((c as u8) - 32) as char
    } else {
        c
    }
}

/// `str::to_ascii_uppercase`.
pub open spec fn ascii_uppercase(s: Seq<char>) -> Seq<char> {
    s.map_values(|c: char| ascii_capital(c))
}

/// An ISO country code as the client needs it: two ASCII capitals.
pub open spec fn market_code(m: Seq<char>) -> bool {
    m.len() == 2 && 'A' <= m[0] && m[0] <= 'Z' && 'A' <= m[1] && m[1] <= 'Z'
}

impl Config {
    pub closed spec fn credentials(&self) -> (Seq<char>, Seq<char>) {
        (self.client_id@, self.client_secret@)
    }

    pub closed spec fn market_view(&self) -> Seq<char> {
        self.market@
    }

    /// Both credentials must be given; the market, read in ASCII capitals,
    /// must be a two-letter country code.
    pub fn new(client_id: String, client_secret: String, market: String) -> (r: Result<Self, CatalogError>)
        ensures
            match r {
                Ok(c) => {
                    &&& trimmed(client_id@).len() > 0 && trimmed(client_secret@).len() > 0
                    &&& market_code(ascii_uppercase(market@))
                    &&& c.credentials() == (client_id@, client_secret@)
                    &&& c.market_view() == ascii_uppercase(market@)
                },
                Err(e) => if trimmed(client_id@).len() == 0 || trimmed(client_secret@).len() == 0 {
                    configuration_error(e, "Set SPOTIFY_CLIENT_ID and SPOTIFY_CLIENT_SECRET"@)
                } else {
                    !market_code(ascii_uppercase(market@)) && configuration_error(
                        e,
                        "SPOTIFY_MARKET must be an explicit ISO two-letter country code, e.g. US"@,
                    )
                },
            },
    {
        if trim(&chars_of(client_id.as_str())).len() == 0 || trim(&chars_of(client_secret.as_str())).len()
            == 0 {
            return Err(configuration("Set SPOTIFY_CLIENT_ID and SPOTIFY_CLIENT_SECRET"));
        }
        let c = chars_of(market.as_str());
        let mut up: Vec<char> = Vec::new();
        let mut i: usize = 0;
        while i < c.len()
            invariant
                i <= c.len(),
                c@ == market@,
                up@ == ascii_uppercase(c@).take(i as int),
            decreases c.len() - i,
        {
            let ch = c[i];
            let big = if 'a' <= ch && ch <= 'z' {
                ((ch as u8) - 32) as char
            } else {
                ch
            };
            up.push(big);
            assert(ascii_uppercase(c@).take(i + 1) =~= ascii_uppercase(c@).take(i as int).push(
                ascii_capital(c@[i as int]),
            ));
            i = i + 1;
        }
        assert(ascii_uppercase(c@).take(c.len() as int) =~= ascii_uppercase(c@));
        if !(up.len() == 2 && 'A' <= up[0] && up[0] <= 'Z' && 'A' <= up[1] && up[1] <= 'Z') {
            return Err(configuration("SPOTIFY_MARKET must be an explicit ISO two-letter country code, e.g. US"));
        }
        Ok(Config { client_id, client_secret, market: string_of(up.as_slice()) })
    }

    pub fn market(&self) -> (r: &str)
        ensures
            r@ == self.market_view(),
    {
        self.market.as_str()
    }
}

/// How long a client-credentials token is used, in seconds: at most a day,
/// less a tenth of that, at most thirty seconds. An empty token, another token
/// type or no lifetime is a configuration error.
pub open spec fn token_use(access_token: Seq<char>, token_type: Seq<char>, expires_in: u64) -> Option<int> {
    if access_token.len() == 0 || !crate::spotify_playback::bearer(token_type) || expires_in == 0 {
        None
    } else {
        let lifetime = if expires_in <= 86400 {
            expires_in as int
        } else {
            86400
        };
        Some(lifetime - if 30 <= lifetime / 10 {
            30
        } else {
            lifetime / 10
        })
    }
}

pub fn token_lifetime(access_token: &str, token_type: &str, expires_in: u64) -> (r: Result<u64, CatalogError>)
    ensures
        match r {
            Ok(seconds) => token_use(access_token@, token_type@, expires_in) == Some(seconds as int),
            Err(e) => token_use(access_token@, token_type@, expires_in) is None && configuration_error(
                e,
                "Invalid Spotify token response"@,
            ),
        },
{
    if access_token.is_empty() || !crate::spotify_playback::is_bearer(token_type) || expires_in == 0 {
        return Err(configuration("Invalid Spotify token response"));
    }
    let lifetime = if expires_in <= 86400 {
        expires_in
    } else {
        86400
    };
    let margin = if 30 <= lifetime / 10 {
        30
    } else {
        lifetime / 10
    };
    Ok(lifetime - margin)
}

/// `str::replace`: each occurrence of the pattern, read from the left and
/// not overlapping, replaced. An empty pattern occurs before every character
/// and at the end.
pub open spec fn replaced(s: Seq<char>, pattern: Seq<char>, with: Seq<char>) -> Seq<char>
    decreases s.len(),
{
    if pattern.len() == 0 {
        if s.len() == 0 {
            with
        } else {
            with + seq![s[0]] + replaced(s.drop_first(), pattern, with)
        }
    } else if s.len() == 0 {
        s
    } else if pattern.len() <= s.len() && s.take(pattern.len() as int) == pattern {
        with + replaced(s.skip(pattern.len() as int), pattern, with)
    } else {
        seq![s[0]] + replaced(s.drop_first(), pattern, with)
    }
}

fn interleave(s: &Vec<char>, with: &Vec<char>) -> (r: Vec<char>)
    ensures
        r@ == replaced(s@, Seq::empty(), with@),
{
    let mut out: Vec<char> = Vec::new();
    let mut i: usize = 0;
    assert(s@.skip(0) =~= s@);
    while i < s.len()
        invariant
            i <= s.len(),
            out@ + replaced(s@.skip(i as int), Seq::empty(), with@) == replaced(s@, Seq::empty(), with@),
        decreases s.len() - i,
    {
        let ghost rest = s@.skip(i as int);
        let ghost before = out@;
        crate::text::append_chars(&mut out, with);
        out.push(s[i]);
        assert(rest.drop_first() =~= s@.skip(i + 1));
        assert(out@ + replaced(s@.skip(i + 1), Seq::empty(), with@) =~= before + (with@ + seq![rest[0]]
            + replaced(rest.drop_first(), Seq::empty(), with@)));
        i = i + 1;
    }
    assert(s@.skip(s.len() as int) =~= Seq::<char>::empty());
    crate::text::append_chars(&mut out, with);
    out
}

fn replace_all(s: &Vec<char>, pattern: &Vec<char>, with: &Vec<char>) -> (r: Vec<char>)
    ensures
        r@ == replaced(s@, pattern@, with@),
{
    if pattern.len() == 0 {
        assert(pattern@ =~= Seq::<char>::empty());
        return interleave(s, with);
    }
    let mut out: Vec<char> = Vec::new();
    let mut i: usize = 0;
    assert(s@.skip(0) =~= s@);
    while i < s.len()
        invariant
            i <= s.len(),
            pattern@.len() > 0,
            out@ + replaced(s@.skip(i as int), pattern@, with@) == replaced(s@, pattern@, with@),
        decreases s.len() - i,
    {
        let ghost rest = s@.skip(i as int);
        let mut matched = pattern.len() <= s.len() - i;
        let mut k: usize = 0;
        if matched {
            while k < pattern.len()
                invariant
                    k <= pattern.len(),
                    i + pattern.len() <= s.len(),
                    rest == s@.skip(i as int),
                    matched == forall|y: int| 0 <= y < k ==> #[trigger] s@[i + y] == pattern@[y],
                decreases pattern.len() - k,
            {
                if s[i + k] != pattern[k] {
                    matched = false;
                }
                k = k + 1;
            }
            if matched {
                assert(rest.take(pattern.len() as int) =~= pattern@) by {
                    assert forall|y: int| 0 <= y < pattern.len() implies rest.take(pattern.len() as int)[y]
                        == pattern@[y] by {
                        assert(s@[i + y] == pattern@[y]);
                    }
                }
            } else {
                assert(rest.take(pattern.len() as int) != pattern@) by {
                    let y = choose|y: int| 0 <= y < pattern.len() && s@[i + y] != pattern@[y];
                    assert(rest.take(pattern.len() as int)[y] == s@[i + y]);
                }
            }
        } else {
            assert(!(pattern@.len() <= rest.len()));
        }
        if matched {
            let ghost before = out@;
            crate::text::append_chars(&mut out, with);
            assert(rest.skip(pattern.len() as int) =~= s@.skip(i + pattern.len()));
            assert(out@ + replaced(s@.skip(i + pattern.len()), pattern@, with@) =~= before + (with@
                + replaced(rest.skip(pattern.len() as int), pattern@, with@)));
            i = i + pattern.len();
        } else {
            let ghost before = out@;
            out.push(s[i]);
            assert(rest.drop_first() =~= s@.skip(i + 1));
            assert(out@ + replaced(s@.skip(i + 1), pattern@, with@) =~= before + (seq![rest[0]]
                + replaced(rest.drop_first(), pattern@, with@)));
            i = i + 1;
        }
    }
    assert(s@.skip(s.len() as int) =~= Seq::<char>::empty());
    assert(out@ + Seq::<char>::empty() =~= out@);
    out
}

/// Each secret, in order, replaced by "[REDACTED]" throughout.
pub open spec fn redacted_all(text: Seq<char>, secrets: Seq<String>) -> Seq<char>
    decreases secrets.len(),
{
    if secrets.len() == 0 {
        text
    } else {
        replaced(redacted_all(text, secrets.drop_last()), secrets.last()@, "[REDACTED]"@)
    }
}

/// A message fit to show: the secrets redacted, at most 400 characters.
pub open spec fn shown(text: Seq<char>, secrets: Seq<String>) -> Seq<char> {
    let r = redacted_all(text, secrets);
    if r.len() <= 400 {
        r
    } else {
        r.take(400)
    }
}

pub fn sanitize(text: &str, secrets: &Vec<String>) -> (r: String)
    ensures
        r@ == shown(text@, secrets@),
{
    let mut cur = chars_of(text);
    let with = chars_of("[REDACTED]");
    let mut i: usize = 0;
    assert(secrets@.take(0) =~= Seq::<String>::empty());
    while i < secrets.len()
        invariant
            i <= secrets.len(),
            with@ == "[REDACTED]"@,
            cur@ == redacted_all(text@, secrets@.take(i as int)),
        decreases secrets.len() - i,
    {
        let pattern = chars_of(secrets[i].as_str());
        cur = replace_all(&cur, &pattern, &with);
        assert(secrets@.take(i + 1).drop_last() =~= secrets@.take(i as int));
        i = i + 1;
    }
    assert(secrets@.take(secrets.len() as int) =~= secrets@);
    if cur.len() <= 400 {
        string_of(cur.as_slice())
    } else {
        let mut out: Vec<char> = Vec::new();
        let mut k: usize = 0;
        while k < 400
            invariant
                k <= 400,
                cur@.len() > 400,
                out@ == cur@.take(k as int),
            decreases 400 - k,
        {
            out.push(cur[k]);
            assert(cur@.take(k + 1) =~= cur@.take(k as int).push(cur@[k as int]));
            k = k + 1;
        }
        string_of(out.as_slice())
    }
}

/// The fields of a failed reply's JSON body: the error reason (empty when
/// absent) and the Web API message, where given.
#[derive(Debug)]
pub struct FailureBody {
    pub reason: String,
    pub message: Option<String>,
}

/// "Spotify HTTP {status}: {detail}; reason={reason}"; the token endpoint's
/// detail points at the client's setup.
pub open spec fn failure_text(status: u16, auth: bool, body: FailureBody) -> Seq<char> {
    let detail = if auth {
        "Check client credentials, app access and Premium eligibility"@
    } else {
        match body.message {
            Some(m) => m@,
            None => "Catalog request failed"@,
        }
    };
    "Spotify HTTP "@ + crate::album_program::decimal(status as nat) + ": "@ + detail + "; reason="@
        + body.reason@
}

/// The error a failed reply (status outside 200..300) gives: rate limited,
/// service unavailable, a configuration problem (401, 403, and 400 at the
/// token endpoint), else another failure; its message has the secrets redacted.
pub fn failure(status: u16, auth: bool, body: &FailureBody, retry_after: Option<String>, secrets: &Vec<String>) -> (r:
    CatalogError)
    ensures
        crate::catalog::error_message(r) == shown(failure_text(status, auth, *body), secrets@),
        status == 429 ==> (r matches CatalogError::RateLimited { status: s, retry_after: ra, .. } && s == status
            && ra == retry_after),
        500 <= status <= 599 ==> (r matches CatalogError::ServiceUnavailable { retry_after: ra, .. } && ra
            == retry_after),
        (status == 401 || status == 403 || (status == 400 && auth)) ==> (r matches CatalogError::Configuration {
            status: s,
            ..
        } && s == status),
        !(status == 429 || 500 <= status <= 599 || status == 401 || status == 403 || (status == 400 && auth))
            ==> r is Other,
{
    let mut text = chars_of("Spotify HTTP ");
    crate::album_program::push_decimal(&mut text, status as usize);
    crate::text::append_chars(&mut text, &chars_of(": "));
    let detail = if auth {
        chars_of("Check client credentials, app access and Premium eligibility")
    } else {
        match &body.message {
            Some(m) => chars_of(m.as_str()),
            None => chars_of("Catalog request failed"),
        }
    };
    crate::text::append_chars(&mut text, &detail);
    crate::text::append_chars(&mut text, &chars_of("; reason="));
    crate::text::append_chars(&mut text, &chars_of(body.reason.as_str()));
    let message = sanitize(string_of(text.as_slice()).as_str(), secrets);
    if status == 429 {
        CatalogError::RateLimited { status, message, retry_after }
    } else if 500 <= status && status <= 599 {
        CatalogError::ServiceUnavailable { message, retry_after }
    } else if status == 401 || status == 403 || (status == 400 && auth) {
        CatalogError::Configuration { status, message }
    } else {
        CatalogError::Other(message)
    }
}

} // verus!
