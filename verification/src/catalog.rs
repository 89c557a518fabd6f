//! Application-owned catalog data. Providers translate into these values.
use vstd::prelude::*;

use crate::domain::{copy_identities, copy_strings, id_views, ExternalIdentity, IdentityView};
use crate::text::views;
use crate::text::{
    all_digits, append_chars, chars_of, digits_value, is_digit, lemma_lex_order, lex_less, lex_lt,
    lowercase_of, string_of, to_lowercase,
};

verus! {

/// Why a catalog request failed. Provider outages are distinguished from
/// configuration and request errors.
#[derive(Debug, PartialEq, Eq)]
pub enum CatalogError {
    Other(String),
    Timeout(String),
    TransportUnavailable(String),
    ServiceUnavailable { message: String, retry_after: Option<String> },
    RateLimited { status: u16, message: String, retry_after: Option<String> },
    Configuration { status: u16, message: String },
}

/// Transient provider unavailability: retry later rather than report a result.
pub open spec fn provider_unavailable(e: CatalogError) -> bool {
    match e {
        CatalogError::Timeout(_) => true,
        CatalogError::TransportUnavailable(_) => true,
        CatalogError::ServiceUnavailable { .. } => true,
        CatalogError::RateLimited { .. } => true,
        _ => false,
    }
}

/// The human-readable message carried by an error.
pub open spec fn error_message(e: CatalogError) -> Seq<char> {
    match e {
        CatalogError::Other(m) => m@,
        CatalogError::Timeout(m) => m@,
        CatalogError::TransportUnavailable(m) => m@,
        CatalogError::ServiceUnavailable { message, .. } => message@,
        CatalogError::RateLimited { message, .. } => message@,
        CatalogError::Configuration { message, .. } => message@,
    }
}

impl Clone for CatalogError {
    fn clone(&self) -> (r: Self)
        ensures
            r == *self,
    {
        match self {
            CatalogError::Other(m) => CatalogError::Other(m.clone()),
            CatalogError::Timeout(m) => CatalogError::Timeout(m.clone()),
            CatalogError::TransportUnavailable(m) => CatalogError::TransportUnavailable(m.clone()),
            CatalogError::ServiceUnavailable { message, retry_after } =>
                CatalogError::ServiceUnavailable {
                message: message.clone(),
                retry_after: retry_after.clone(),
            },
            CatalogError::RateLimited { status, message, retry_after } =>
                CatalogError::RateLimited {
                status: *status,
                message: message.clone(),
                retry_after: retry_after.clone(),
            },
            CatalogError::Configuration { status, message } => CatalogError::Configuration {
                status: *status,
                message: message.clone(),
            },
        }
    }
}

impl CatalogError {
    pub fn is_provider_unavailable(&self) -> (r: bool)
        ensures
            r == provider_unavailable(*self),
    {
        match self {
            CatalogError::Timeout(_) => true,
            CatalogError::TransportUnavailable(_) => true,
            CatalogError::ServiceUnavailable { .. } => true,
            CatalogError::RateLimited { .. } => true,
            _ => false,
        }
    }

    /// The message, as the error displays.
    pub fn message(&self) -> (r: String)
        ensures
            r@ == error_message(*self),
    {
        match self {
            CatalogError::Other(m) => m.clone(),
            CatalogError::Timeout(m) => m.clone(),
            CatalogError::TransportUnavailable(m) => m.clone(),
            CatalogError::ServiceUnavailable { message, .. } => message.clone(),
            CatalogError::RateLimited { message, .. } => message.clone(),
            CatalogError::Configuration { message, .. } => message.clone(),
        }
    }
}

#[derive(Debug)]
pub struct Credit {
    /// Optional strong provider Artist identity, separate from credited presentation.
    pub identity: Option<ExternalIdentity>,
    pub name: String,
    pub join_phrase: String,
}

/// Names followed by their join phrases, concatenated.
pub open spec fn credit_text(credits: Seq<Credit>) -> Seq<char>
    decreases credits.len(),
{
    if credits.len() == 0 {
        Seq::empty()
    } else {
        credit_text(credits.drop_last()) + credits.last().name@ + credits.last().join_phrase@
    }
}

pub fn credit_display(credits: &[Credit]) -> (r: String)
    ensures
        r@ == credit_text(credits@),
{
    let mut out: Vec<char> = Vec::new();
    let mut i: usize = 0;
    while i < credits.len()
        invariant
            i <= credits.len(),
            out@ == credit_text(credits@.take(i as int)),
        decreases credits.len() - i,
    {
        append_chars(&mut out, &chars_of(credits[i].name.as_str()));
        append_chars(&mut out, &chars_of(credits[i].join_phrase.as_str()));
        assert(credits@.take(i + 1).drop_last() =~= credits@.take(i as int));
        i = i + 1;
    }
    assert(credits@.take(credits.len() as int) =~= credits@);
    string_of(out.as_slice())
}

/// One bounded page of provider results.
#[derive(Debug)]
pub struct Page<T> {
    pub items: Vec<T>,
    pub next_offset: Option<u32>,
}

#[derive(Debug)]
pub struct AlbumCandidate {
    pub credits: Vec<Credit>,
    pub identity: ExternalIdentity,
    pub title: String,
    pub artist: String,
    pub date: String,
    pub primary_type: String,
    pub secondary_types: Vec<String>,
    pub comment: String,
    pub score: Option<u32>,
}

#[derive(Debug)]
pub struct ReleaseCandidate {
    pub identity: ExternalIdentity,
    pub title: String,
    pub artist: String,
    pub date: String,
    pub country: String,
    pub status: String,
    pub comment: String,
    pub barcode: String,
    pub labels: Vec<String>,
    pub formats: Vec<String>,
    pub disc_count: usize,
    pub track_count: u32,
}

#[derive(Debug)]
pub struct Medium {
    pub position: u32,
    pub tracks: Vec<Track>,
}

#[derive(Debug)]
pub struct Track {
    pub position: u32,
    pub title: String,
    pub credits: Vec<Credit>,
    pub identities: Vec<ExternalIdentity>,
}

#[derive(Debug)]
pub struct Release {
    pub album: Album,
    /// Identity used for explicit re-add, not semantic matching.
    pub identity: ExternalIdentity,
    pub identities: Vec<ExternalIdentity>,
    pub title: String,
    pub date: String,
    pub credits: Vec<Credit>,
    pub media: Vec<Medium>,
}

/// Initial friendly Album metadata, independent of the selected edition.
#[derive(Debug)]
pub struct Album {
    pub identity: ExternalIdentity,
    pub title: String,
    pub date: String,
    pub credits: Vec<Credit>,
}

pub struct CreditView {
    pub identity: Option<IdentityView>,
    pub name: Seq<char>,
    pub join_phrase: Seq<char>,
}

impl View for Credit {
    type V = CreditView;

    open spec fn view(&self) -> CreditView {
        CreditView {
            identity: match self.identity {
                Some(i) => Some(i@),
                None => None,
            },
            name: self.name@,
            join_phrase: self.join_phrase@,
        }
    }
}

pub open spec fn credit_views(s: Seq<Credit>) -> Seq<CreditView> {
    s.map_values(|c: Credit| c@)
}

pub struct TrackView {
    pub position: u32,
    pub title: Seq<char>,
    pub credits: Seq<CreditView>,
    pub identities: Seq<IdentityView>,
}

impl View for Track {
    type V = TrackView;

    open spec fn view(&self) -> TrackView {
        TrackView {
            position: self.position,
            title: self.title@,
            credits: credit_views(self.credits@),
            identities: id_views(self.identities@),
        }
    }
}

pub struct MediumView {
    pub position: u32,
    pub tracks: Seq<TrackView>,
}

impl View for Medium {
    type V = MediumView;

    open spec fn view(&self) -> MediumView {
        MediumView { position: self.position, tracks: self.tracks@.map_values(|t: Track| t@) }
    }
}

pub struct AlbumView {
    pub identity: IdentityView,
    pub title: Seq<char>,
    pub date: Seq<char>,
    pub credits: Seq<CreditView>,
}

impl View for Album {
    type V = AlbumView;

    open spec fn view(&self) -> AlbumView {
        AlbumView {
            identity: self.identity@,
            title: self.title@,
            date: self.date@,
            credits: credit_views(self.credits@),
        }
    }
}

pub struct ReleaseView {
    pub album: AlbumView,
    pub identity: IdentityView,
    pub identities: Seq<IdentityView>,
    pub title: Seq<char>,
    pub date: Seq<char>,
    pub credits: Seq<CreditView>,
    pub media: Seq<MediumView>,
}

impl View for Release {
    type V = ReleaseView;

    open spec fn view(&self) -> ReleaseView {
        ReleaseView {
            album: self.album@,
            identity: self.identity@,
            identities: id_views(self.identities@),
            title: self.title@,
            date: self.date@,
            credits: credit_views(self.credits@),
            media: self.media@.map_values(|m: Medium| m@),
        }
    }
}

#[derive(Debug, PartialEq, Eq)]
pub struct ArtistCandidate {
    pub identity: ExternalIdentity,
    pub name: String,
    pub aliases: Vec<String>,
    pub comment: String,
    pub country: String,
    pub artist_type: String,
    pub score: Option<u32>,
}

/// The content of an Artist candidate.
pub struct ArtistCandidateView {
    pub identity: IdentityView,
    pub name: Seq<char>,
    pub aliases: Seq<Seq<char>>,
    pub comment: Seq<char>,
    pub country: Seq<char>,
    pub artist_type: Seq<char>,
    pub score: Option<u32>,
}

impl View for ArtistCandidate {
    type V = ArtistCandidateView;

    open spec fn view(&self) -> ArtistCandidateView {
        ArtistCandidateView {
            identity: self.identity@,
            name: self.name@,
            aliases: views(self.aliases@),
            comment: self.comment@,
            country: self.country@,
            artist_type: self.artist_type@,
            score: self.score,
        }
    }
}

pub open spec fn artist_views(s: Seq<ArtistCandidate>) -> Seq<ArtistCandidateView> {
    s.map_values(|c: ArtistCandidate| c@)
}

impl Clone for ArtistCandidate {
    fn clone(&self) -> (r: Self)
        ensures
            r@ == self@,
            r.identity == self.identity,
            r.name == self.name,
            r.aliases@ == self.aliases@,
            r.comment == self.comment,
            r.country == self.country,
            r.artist_type == self.artist_type,
            r.score == self.score,
    {
        let aliases = copy_strings(self.aliases.as_slice());
        proof {
            assert(aliases@ == self.aliases@);
        }
        ArtistCandidate {
            identity: self.identity.clone(),
            name: self.name.clone(),
            aliases,
            comment: self.comment.clone(),
            country: self.country.clone(),
            artist_type: self.artist_type.clone(),
            score: self.score,
        }
    }
}

#[derive(Debug, PartialEq, Eq)]
pub struct ArtistAlbumCandidate {
    pub identity: ExternalIdentity,
    pub title: String,
    pub artist_ids: Vec<ExternalIdentity>,
    pub comment: String,
    pub date: String,
    pub primary_type: String,
}

/// The content of an Artist-scoped Album candidate.
pub struct AlbumCandidateView {
    pub identity: IdentityView,
    pub title: Seq<char>,
    pub artist_ids: Seq<IdentityView>,
    pub comment: Seq<char>,
    pub date: Seq<char>,
    pub primary_type: Seq<char>,
}

impl View for ArtistAlbumCandidate {
    type V = AlbumCandidateView;

    open spec fn view(&self) -> AlbumCandidateView {
        AlbumCandidateView {
            identity: self.identity@,
            title: self.title@,
            artist_ids: id_views(self.artist_ids@),
            comment: self.comment@,
            date: self.date@,
            primary_type: self.primary_type@,
        }
    }
}

pub open spec fn album_views(s: Seq<ArtistAlbumCandidate>) -> Seq<AlbumCandidateView> {
    s.map_values(|c: ArtistAlbumCandidate| c@)
}

impl Clone for ArtistAlbumCandidate {
    fn clone(&self) -> (r: Self)
        ensures
            r@ == self@,
            r.identity == self.identity,
            r.title == self.title,
            r.artist_ids@ == self.artist_ids@,
            r.comment == self.comment,
            r.date == self.date,
            r.primary_type == self.primary_type,
    {
        let artist_ids = copy_identities(self.artist_ids.as_slice());
        ArtistAlbumCandidate {
            identity: self.identity.clone(),
            title: self.title.clone(),
            artist_ids,
            comment: self.comment.clone(),
            date: self.date.clone(),
            primary_type: self.primary_type.clone(),
        }
    }
}

// ---------------------------------------------------------------------------
// The representative edition of an Album.

/// The year of a date: its first four characters read as `i32::from_str`
/// reads them (an optional sign, then digits).
pub open spec fn year_of(date: Seq<char>) -> Option<int> {
    if date.len() < 4 {
        None
    } else {
        let p = date.take(4);
        let rest = p.drop_first();
        if p[0] == '-' && all_digits(rest) {
            Some(-digits_value(rest))
        } else if p[0] == '+' && all_digits(rest) {
            Some(digits_value(rest) as int)
        } else if all_digits(p) {
            Some(digits_value(p) as int)
        } else {
            None
        }
    }
}

/// Years apart, or the largest distance when either year is unknown.
pub open spec fn year_distance(a: Seq<char>, b: Seq<char>) -> u32 {
    match (year_of(a), year_of(b)) {
        (Some(x), Some(y)) => (if x >= y {
            x - y
        } else {
            y - x
        }) as u32,
        _ => u32::MAX,
    }
}

/// `s` contains `w` as a contiguous piece.
pub open spec fn contains_text(s: Seq<char>, w: Seq<char>) -> bool {
    exists|i: int| 0 <= i <= s.len() - w.len() && #[trigger] s.subrange(i, i + w.len()) == w
}

/// The lowercased title and comment mention an expanded edition.
pub open spec fn expanded_edition(r: ReleaseCandidate) -> bool {
    let d = lowercase_of(r.title@ + seq![' '] + r.comment@);
    contains_text(d, "deluxe"@) || contains_text(d, "expanded"@) || contains_text(d, "anniversary"@)
        || contains_text(d, "bonus"@)
}

/// The status is "official", ignoring ASCII case.
pub open spec fn official(status: Seq<char>) -> bool {
    &&& status.len() == 8
    &&& forall|i: int|
        0 <= i < 8 ==> #[trigger] status[i] == "official"@[i] || status[i] == "OFFICIAL"@[i]
}

/// The order in which editions are preferred: official first, then nearest
/// year, not expanded, fewer discs, then by date and identifier.
pub open spec fn release_key(album: AlbumCandidate, r: ReleaseCandidate) -> (bool, u32, bool, usize, Seq<char>, Seq<char>) {
    (
        !official(r.status@),
        year_distance(album.date@, r.date@),
        expanded_edition(r),
        r.disc_count,
        r.date@,
        r.identity.external_id@,
    )
}

pub open spec fn bool_lt(a: bool, b: bool) -> bool {
    !a && b
}

pub open spec fn key_lt(
    a: (bool, u32, bool, usize, Seq<char>, Seq<char>),
    b: (bool, u32, bool, usize, Seq<char>, Seq<char>),
) -> bool {
    ||| bool_lt(a.0, b.0)
    ||| (a.0 == b.0 && a.1 < b.1)
    ||| (a.0 == b.0 && a.1 == b.1 && bool_lt(a.2, b.2))
    ||| (a.0 == b.0 && a.1 == b.1 && a.2 == b.2 && a.3 < b.3)
    ||| (a.0 == b.0 && a.1 == b.1 && a.2 == b.2 && a.3 == b.3 && lex_lt(a.4, b.4))
    ||| (a.0 == b.0 && a.1 == b.1 && a.2 == b.2 && a.3 == b.3 && a.4 == b.4 && lex_lt(a.5, b.5))
}

proof fn lemma_key_order(
    a: (bool, u32, bool, usize, Seq<char>, Seq<char>),
    b: (bool, u32, bool, usize, Seq<char>, Seq<char>),
    c: (bool, u32, bool, usize, Seq<char>, Seq<char>),
)
    ensures
        !key_lt(a, a),
        key_lt(a, b) && key_lt(b, c) ==> key_lt(a, c),
        a != b ==> key_lt(a, b) || key_lt(b, a),
{
    lemma_lex_order(a.4, b.4, c.4);
    lemma_lex_order(a.5, b.5, c.5);
    lemma_lex_order(b.4, a.4, c.4);
    lemma_lex_order(b.5, a.5, c.5);
}

/// A usable edition: it has discs and tracks.
pub open spec fn usable_release(r: ReleaseCandidate) -> bool {
    r.disc_count > 0 && r.track_count > 0
}

/// `k` is the first usable candidate with the least key.
pub open spec fn representative_at(album: AlbumCandidate, cs: Seq<ReleaseCandidate>, k: int) -> bool {
    &&& 0 <= k < cs.len()
    &&& usable_release(cs[k])
    &&& forall|j: int|
        0 <= j < cs.len() && usable_release(#[trigger] cs[j]) ==> !key_lt(
            release_key(album, cs[j]),
            release_key(album, cs[k]),
        )
    &&& forall|j: int|
        0 <= j < k && usable_release(#[trigger] cs[j]) ==> key_lt(
            release_key(album, cs[k]),
            release_key(album, cs[j]),
        )
}

fn year(date: &String) -> (r: Option<i32>)
    ensures
        match r {
            Some(v) => year_of(date@) == Some(v as int),
            None => year_of(date@) is None,
        },
{
    let c = chars_of(date.as_str());
    if c.len() < 4 {
        return None;
    }
    let ghost p = c@.take(4);
    let ghost rest = p.drop_first();
    let d1 = c[1] >= '0' && c[1] <= '9';
    let d2 = c[2] >= '0' && c[2] <= '9';
    let d3 = c[3] >= '0' && c[3] <= '9';
    let d0 = c[0] >= '0' && c[0] <= '9';
    proof {
        assert(rest[0] == c@[1] && rest[1] == c@[2] && rest[2] == c@[3]);
        assert(rest.len() == 3);
        assert(all_digits(rest) == (d1 && d2 && d3)) by {
            if d1 && d2 && d3 {
                assert forall|i: int| 0 <= i < rest.len() implies is_digit(#[trigger] rest[i]) by {}
            }
        }
        assert(all_digits(p) == (d0 && d1 && d2 && d3)) by {
            if d0 && d1 && d2 && d3 {
                assert forall|i: int| 0 <= i < p.len() implies is_digit(#[trigger] p[i]) by {}
            }
            if !d0 {
                assert(!is_digit(p[0]));
            }
        }
    }
    if !(d1 && d2 && d3) {
        return None;
    }
    let v1 = (c[1] as u32 - '0' as u32) as i32;
    let v2 = (c[2] as u32 - '0' as u32) as i32;
    let v3 = (c[3] as u32 - '0' as u32) as i32;
    let tail = v1 * 100 + v2 * 10 + v3;
    proof {
        let s1 = rest.take(1);
        let s2 = rest.take(2);
        assert(digits_value(Seq::<char>::empty()) == 0);
        assert(s1.drop_last() =~= Seq::<char>::empty());
        assert(s1.last() == c@[1]);
        assert(digits_value(s1) == v1);
        assert(s2.drop_last() =~= s1);
        assert(s2.last() == c@[2]);
        assert(digits_value(s2) == v1 * 10 + v2);
        assert(rest.drop_last() =~= s2);
        assert(rest.last() == c@[3]);
        assert(digits_value(rest) == tail);
    }
    if c[0] == '-' {
        Some(-tail)
    } else if c[0] == '+' {
        Some(tail)
    } else if d0 {
        let v0 = (c[0] as u32 - '0' as u32) as i32;
        proof {
            let s1 = p.take(1);
            let s2 = p.take(2);
            let s3 = p.take(3);
            assert(digits_value(Seq::<char>::empty()) == 0);
            assert(s1.drop_last() =~= Seq::<char>::empty());
            assert(s1.last() == c@[0]);
            assert(digits_value(s1) == v0);
            assert(s2.drop_last() =~= s1);
            assert(s2.last() == c@[1]);
            assert(digits_value(s2) == v0 * 10 + v1);
            assert(s3.drop_last() =~= s2);
            assert(s3.last() == c@[2]);
            assert(digits_value(s3) == v0 * 100 + v1 * 10 + v2);
            assert(p.drop_last() =~= s3);
            assert(p.last() == c@[3]);
            assert(digits_value(p) == v0 * 1000 + tail);
        }
        Some(v0 * 1000 + tail)
    } else {
        None
    }
}

fn has_text(s: &Vec<char>, w: &Vec<char>) -> (r: bool)
    ensures
        r == contains_text(s@, w@),
{
    if w.len() > s.len() {
        return false;
    }
    let mut i: usize = 0;
    while i <= s.len() - w.len()
        invariant
            w.len() <= s.len(),
            i <= s.len() - w.len() + 1,
            forall|x: int| 0 <= x < i ==> #[trigger] s@.subrange(x, x + w@.len()) != w@,
        decreases s.len() - w.len() + 1 - i,
    {
        let mut j: usize = 0;
        let mut same = true;
        while j < w.len()
            invariant
                j <= w.len(),
                i + w.len() <= s.len(),
                same == forall|y: int| 0 <= y < j ==> s@[i + y] == w@[y],
            decreases w.len() - j,
        {
            if s[i + j] != w[j] {
                same = false;
            }
            j = j + 1;
        }
        if same {
            assert(s@.subrange(i as int, i + w@.len()) =~= w@);
            return true;
        }
        assert(s@.subrange(i as int, i + w@.len())[j as int - 1] != w@[j as int - 1] || exists|y: int|
            0 <= y < w.len() && s@[i + y] != w@[y]);
        proof {
            let y = choose|y: int| 0 <= y < w.len() && s@[i + y] != w@[y];
            assert(s@.subrange(i as int, i + w@.len())[y] != w@[y]);
        }
        i = i + 1;
    }
    false
}

fn is_expanded(r: &ReleaseCandidate) -> (b: bool)
    ensures
        b == expanded_edition(*r),
{
    let mut text: Vec<char> = Vec::new();
    append_chars(&mut text, &chars_of(r.title.as_str()));
    text.push(' ');
    append_chars(&mut text, &chars_of(r.comment.as_str()));
    assert(text@ =~= r.title@ + seq![' '] + r.comment@);
    let d = chars_of(to_lowercase(string_of(text.as_slice()).as_str()).as_str());
    has_text(&d, &chars_of("deluxe")) || has_text(&d, &chars_of("expanded")) || has_text(
        &d,
        &chars_of("anniversary"),
    ) || has_text(&d, &chars_of("bonus"))
}

fn is_official(status: &String) -> (b: bool)
    ensures
        b == official(status@),
{
    let c = chars_of(status.as_str());
    let lower = chars_of("official");
    let upper = chars_of("OFFICIAL");
    proof {
        reveal_strlit("official");
        reveal_strlit("OFFICIAL");
    }
    if c.len() != 8 {
        return false;
    }
    let mut i: usize = 0;
    while i < 8
        invariant
            i <= 8,
            c@ == status@,
            c@.len() == 8,
            lower@ == "official"@,
            upper@ == "OFFICIAL"@,
            lower@.len() == 8,
            upper@.len() == 8,
            forall|k: int|
                0 <= k < i ==> #[trigger] c@[k] == "official"@[k] || c@[k] == "OFFICIAL"@[k],
        decreases 8 - i,
    {
        if c[i] != lower[i] && c[i] != upper[i] {
            return false;
        }
        i = i + 1;
    }
    true
}

struct ReleaseKey {
    unofficial: bool,
    distance: u32,
    expanded: bool,
    discs: usize,
    date: Vec<char>,
    id: Vec<char>,
}

spec fn key_view(k: ReleaseKey) -> (bool, u32, bool, usize, Seq<char>, Seq<char>) {
    (k.unofficial, k.distance, k.expanded, k.discs, k.date@, k.id@)
}

fn key_of(album_year: Option<i32>, album: &AlbumCandidate, r: &ReleaseCandidate) -> (k: ReleaseKey)
    requires
        match album_year {
            Some(v) => year_of(album.date@) == Some(v as int),
            None => year_of(album.date@) is None,
        },
    ensures
        key_view(k) == release_key(*album, *r),
{
    let distance = match (album_year, year(&r.date)) {
        (Some(a), Some(b)) => {
            if a >= b {
                (a as i64 - b as i64) as u32
            } else {
                (b as i64 - a as i64) as u32
            }
        },
        _ => 0xffff_ffffu32,
    };
    ReleaseKey {
        unofficial: !is_official(&r.status),
        distance,
        expanded: is_expanded(r),
        discs: r.disc_count,
        date: chars_of(r.date.as_str()),
        id: chars_of(r.identity.external_id.as_str()),
    }
}

fn key_less(a: &ReleaseKey, b: &ReleaseKey) -> (r: bool)
    ensures
        r == key_lt(key_view(*a), key_view(*b)),
{
    if a.unofficial != b.unofficial {
        return !a.unofficial;
    }
    if a.distance != b.distance {
        return a.distance < b.distance;
    }
    if a.expanded != b.expanded {
        return !a.expanded;
    }
    if a.discs != b.discs {
        return a.discs < b.discs;
    }
    if lex_less(&a.date, &b.date) {
        return true;
    }
    if lex_less(&b.date, &a.date) {
        proof {
            lemma_lex_order(b.date@, a.date@, a.date@);
        }
        return false;
    }
    proof {
        lemma_lex_order(a.date@, b.date@, b.date@);
    }
    lex_less(&a.id, &b.id)
}

/// The first usable candidate with the least key, as an index.
fn representative_index(album: &AlbumCandidate, candidates: &[ReleaseCandidate]) -> (r: Option<usize>)
    ensures
        match r {
            Some(k) => representative_at(*album, candidates@, k as int),
            None => forall|j: int|
                0 <= j < candidates@.len() ==> !usable_release(#[trigger] candidates@[j]),
        },
{
    let album_year = year(&album.date);
    let ghost cs = candidates@;
    let mut best: Option<(usize, ReleaseKey)> = None;
    let mut j: usize = 0;
    while j < candidates.len()
        invariant
            j <= candidates.len(),
            cs == candidates@,
            match album_year {
                Some(v) => year_of(album.date@) == Some(v as int),
                None => year_of(album.date@) is None,
            },
            match best {
                None => forall|x: int| 0 <= x < j ==> !usable_release(#[trigger] cs[x]),
                Some((b, k)) => {
                    &&& b < j
                    &&& usable_release(cs[b as int])
                    &&& key_view(k) == release_key(*album, cs[b as int])
                    &&& forall|x: int|
                        0 <= x < j && usable_release(#[trigger] cs[x]) ==> !key_lt(
                            release_key(*album, cs[x]),
                            key_view(k),
                        )
                    &&& forall|x: int|
                        0 <= x < b && usable_release(#[trigger] cs[x]) ==> key_lt(
                            key_view(k),
                            release_key(*album, cs[x]),
                        )
                },
            },
        decreases candidates.len() - j,
    {
        let r = &candidates[j];
        if r.disc_count > 0 && r.track_count > 0 {
            let k = key_of(album_year, album, r);
            let replace = match &best {
                None => true,
                Some((_, bk)) => key_less(&k, bk),
            };
            if replace {
                proof {
                    if let Some((b, bk)) = best {
                        assert forall|x: int|
                            0 <= x < j + 1 && usable_release(#[trigger] cs[x]) implies !key_lt(
                            release_key(*album, cs[x]),
                            key_view(k),
                        ) by {
                            lemma_key_order(release_key(*album, cs[x]), key_view(k), key_view(bk));
                        }
                        assert forall|x: int|
                            0 <= x < j && usable_release(#[trigger] cs[x]) implies key_lt(
                            key_view(k),
                            release_key(*album, cs[x]),
                        ) by {
                            lemma_key_order(key_view(k), key_view(bk), release_key(*album, cs[x]));
                            lemma_key_order(release_key(*album, cs[x]), key_view(bk), key_view(k));
                        }
                    } else {
                        lemma_key_order(key_view(k), key_view(k), key_view(k));
                    }
                }
                best = Some((j, k));
            }
        }
        j = j + 1;
    }
    match best {
        Some((b, _)) => Some(b),
        None => None,
    }
}

/// A provisional representative of the supplied bounded candidate set, never
/// canonical: the first usable edition in preference order.
pub fn representative_release<'a>(album: &AlbumCandidate, candidates: &'a [ReleaseCandidate]) -> (r:
    Option<&'a ReleaseCandidate>)
    ensures
        match r {
            Some(c) => exists|k: int| representative_at(*album, candidates@, k) && *c == candidates@[k],
            None => forall|j: int|
                0 <= j < candidates@.len() ==> !usable_release(#[trigger] candidates@[j]),
        },
{
    match representative_index(album, candidates) {
        Some(k) => Some(&candidates[k]),
        None => None,
    }
}

/// The representative is well defined and preferred as promised: no other
/// candidate is the representative; an official edition is chosen whenever
/// some usable one is official; among editions equally official, none is
/// nearer the Album's year.
pub proof fn lemma_representative_preferred(album: AlbumCandidate, cs: Seq<ReleaseCandidate>, k: int)
    requires
        representative_at(album, cs, k),
    ensures
        forall|k2: int| #[trigger] representative_at(album, cs, k2) ==> k2 == k,
        forall|j: int|
            0 <= j < cs.len() && usable_release(#[trigger] cs[j]) && official(cs[j].status@) ==> official(
                cs[k].status@,
            ),
        forall|j: int|
            0 <= j < cs.len() && usable_release(#[trigger] cs[j]) && official(cs[j].status@) == official(
                cs[k].status@,
            ) ==> year_distance(album.date@, cs[k].date@) <= year_distance(album.date@, cs[j].date@),
{
    assert forall|k2: int| #[trigger] representative_at(album, cs, k2) implies k2 == k by {
        if k2 < k {
            assert(key_lt(release_key(album, cs[k]), release_key(album, cs[k2])));
        } else if k < k2 {
            assert(key_lt(release_key(album, cs[k2]), release_key(album, cs[k])));
        }
    }
    assert forall|j: int|
        0 <= j < cs.len() && usable_release(#[trigger] cs[j]) && official(cs[j].status@) implies official(
            cs[k].status@,
        ) by {
        assert(!key_lt(release_key(album, cs[j]), release_key(album, cs[k])));
    }
    assert forall|j: int|
        0 <= j < cs.len() && usable_release(#[trigger] cs[j]) && official(cs[j].status@) == official(
            cs[k].status@,
        ) implies year_distance(album.date@, cs[k].date@) <= year_distance(album.date@, cs[j].date@) by {
        assert(!key_lt(release_key(album, cs[j]), release_key(album, cs[k])));
    }
}


/// A plain edition beats an expanded one of the same rank: when another
/// usable candidate is equally official and equally near the Album's year,
/// and the representative's lowercased title and comment mention "deluxe",
/// "expanded", "anniversary" or "bonus", then so do the other candidate's.
pub proof fn lemma_plain_edition_preferred(album: AlbumCandidate, cs: Seq<ReleaseCandidate>, k: int, j: int)
    requires
        representative_at(album, cs, k),
        0 <= j < cs.len(),
        usable_release(cs[j]),
        official(cs[j].status@) == official(cs[k].status@),
        year_distance(album.date@, cs[j].date@) == year_distance(album.date@, cs[k].date@),
    ensures
        ({
            let dk = lowercase_of(cs[k].title@ + seq![' '] + cs[k].comment@);
            contains_text(dk, "deluxe"@) || contains_text(dk, "expanded"@) || contains_text(
                dk,
                "anniversary"@,
            ) || contains_text(dk, "bonus"@)
        }) ==> ({
            let dj = lowercase_of(cs[j].title@ + seq![' '] + cs[j].comment@);
            contains_text(dj, "deluxe"@) || contains_text(dj, "expanded"@) || contains_text(
                dj,
                "anniversary"@,
            ) || contains_text(dj, "bonus"@)
        }),
{
    assert(!key_lt(release_key(album, cs[j]), release_key(album, cs[k])));
}

/// Among usable candidates equally official and equally near the Album's
/// year whose lowercased title and comment mention none of "deluxe",
/// "expanded", "anniversary" and "bonus", the representative has the fewest
/// discs.
pub proof fn lemma_plain_editions_by_discs(album: AlbumCandidate, cs: Seq<ReleaseCandidate>, k: int, j: int)
    requires
        representative_at(album, cs, k),
        0 <= j < cs.len(),
        usable_release(cs[j]),
        official(cs[j].status@) == official(cs[k].status@),
        year_distance(album.date@, cs[j].date@) == year_distance(album.date@, cs[k].date@),
        ({
            let dk = lowercase_of(cs[k].title@ + seq![' '] + cs[k].comment@);
            !contains_text(dk, "deluxe"@) && !contains_text(dk, "expanded"@) && !contains_text(
                dk,
                "anniversary"@,
            ) && !contains_text(dk, "bonus"@)
        }),
        ({
            let dj = lowercase_of(cs[j].title@ + seq![' '] + cs[j].comment@);
            !contains_text(dj, "deluxe"@) && !contains_text(dj, "expanded"@) && !contains_text(
                dj,
                "anniversary"@,
            ) && !contains_text(dj, "bonus"@)
        }),
    ensures
        cs[k].disc_count <= cs[j].disc_count,
{
    assert(!key_lt(release_key(album, cs[j]), release_key(album, cs[k])));
}

} // verus!
