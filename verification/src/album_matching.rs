//! Conservative Album identity matching against bounded provider pages.
use vstd::prelude::*;

use crate::catalog::{
    album_views, artist_views, AlbumCandidateView, ArtistAlbumCandidate, ArtistCandidate,
    ArtistCandidateView, CatalogError, Page,
};
use crate::domain::{id_views, AlbumId, ArtistId, ExternalIdentity, IdentityView};
use crate::album_program::TrackOutcome;
use crate::edit::{within, within_edits};
use crate::edition::LocalTrackEvidence;
use crate::matching::{normalize, normalized, usable, usable_text};
use crate::text::{
    append_chars, chars_eq, chars_of, ends_with, has_suffix, lemma_filter_empty,
    lemma_filter_step, split_alnum_words, string_of, str_eq, trim, trimmed, vviews, words_eq,
    alnum_words, drop_tail, parse_u64, parsed_u64,
};

verus! {

#[derive(Debug, PartialEq, Eq)]
pub enum MatchOutcome {
    Disabled,
    Pending,
    Matched(ExternalIdentity),
    MatchedClose(ExternalIdentity),
    ArtistAmbiguous(Vec<ArtistCandidate>),
    AlbumAmbiguous(Vec<ArtistAlbumCandidate>),
    /// Several provider representations carry the same program; no Album
    /// identity is selected and the track associations are diagnostic.
    AlbumEquivalent {
        candidates: Vec<ArtistAlbumCandidate>,
        tracks: Vec<(LocalTrackEvidence, TrackOutcome)>,
    },
    AlreadyMatched,
    Skipped,
    NoConfidentMatch,
    Error(String),
    Deferred(CatalogError),
}

#[derive(Debug, PartialEq, Eq)]
pub struct MatchInput {
    pub album_id: AlbumId,
    pub title: String,
    pub artist: String,
    pub artist_id: ArtistId,
    pub known_artist: Option<ExternalIdentity>,
    pub manual_artist: bool,
}

#[derive(Debug)]
pub enum Preparation {
    Ready(MatchInput),
    Done(MatchOutcome),
}

#[derive(Debug)]
pub struct MatchReply {
    pub input: MatchInput,
    /// Established independently (retained on Album errors), or by a unique pair.
    pub artist: Option<ExternalIdentity>,
    pub outcome: MatchOutcome,
    /// Selected provider presentation; never written to library metadata.
    pub matched_album: Option<ArtistAlbumCandidate>,
}

/// Automatic matching after import; manual retry ignores it.
#[derive(Clone, Copy, Debug)]
pub struct AutoMatchPolicy {
    pub enabled: bool,
}

impl Default for AutoMatchPolicy {
    fn default() -> (r: Self)
        ensures
            r.enabled,
    {
        AutoMatchPolicy { enabled: true }
    }
}

#[derive(Debug, PartialEq, Eq)]
pub enum CircuitState {
    Available,
    Unavailable(CatalogError),
}

/// Titles and names for Albums and Artists are eligible for matching only when usable.
pub fn eligible_text(title: &str, artist: &str) -> (r: bool)
    ensures
        r == (usable_text(title@) && usable_text(artist@)),
{
    usable(title) && usable(artist)
}

// ---------------------------------------------------------------------------
// Bounded edit comparison and version qualifiers.

/// Both normalized texts are at least `minimum` long and within `limit` edits.
pub open spec fn edit_close_spec(left: Seq<char>, right: Seq<char>, limit: nat, minimum: nat) -> bool {
    within_edits(normalized(left), normalized(right), limit, minimum)
}

/// Bounded Unicode Levenshtein comparison of the normalized texts.
fn edit_close(left: &str, right: &str, limit: usize, minimum: usize) -> (r: bool)
    requires
        limit < usize::MAX,
    ensures
        r == edit_close_spec(left@, right@, limit as nat, minimum as nat),
{
    let a = chars_of(normalize(left).as_str());
    let b = chars_of(normalize(right).as_str());
    within(&a, &b, limit, minimum)
}

/// Words that mark a version of an Album.
pub open spec fn album_qualifier_word(w: Seq<char>) -> bool {
    ||| w == "live"@
    ||| w == "remix"@
    ||| w == "remixed"@
    ||| w == "acoustic"@
    ||| w == "deluxe"@
    ||| w == "remaster"@
    ||| w == "remastered"@
    ||| w == "demo"@
    ||| w == "edit"@
}

/// The version qualifiers of a title. A one-word title (Acoustic, Acoustics)
/// has no version suffix.
pub open spec fn album_qualifiers(title: Seq<char>) -> Seq<Seq<char>> {
    let words = alnum_words(normalized(title));
    if words.len() < 2 {
        Seq::empty()
    } else {
        words.filter(|w: Seq<char>| album_qualifier_word(w))
    }
}

fn is_album_qualifier(w: &Vec<char>) -> (r: bool)
    ensures
        r == album_qualifier_word(w@),
{
    chars_eq(w, &chars_of("live")) || chars_eq(w, &chars_of("remix")) || chars_eq(
        w,
        &chars_of("remixed"),
    ) || chars_eq(w, &chars_of("acoustic")) || chars_eq(w, &chars_of("deluxe")) || chars_eq(
        w,
        &chars_of("remaster"),
    ) || chars_eq(w, &chars_of("remastered")) || chars_eq(w, &chars_of("demo")) || chars_eq(
        w,
        &chars_of("edit"),
    )
}

fn qualifiers(title: &str) -> (r: Vec<Vec<char>>)
    ensures
        vviews(r@) == album_qualifiers(title@),
{
    let words = split_alnum_words(&chars_of(normalize(title).as_str()));
    let mut out: Vec<Vec<char>> = Vec::new();
    if words.len() < 2 {
        assert(vviews(out@) =~= Seq::<Seq<char>>::empty());
        return out;
    }
    let ghost ws = vviews(words@);
    let ghost p = |w: Seq<char>| album_qualifier_word(w);
    proof {
        lemma_filter_empty(ws, p);
    }
    let mut i: usize = 0;
    while i < words.len()
        invariant
            i <= words.len(),
            ws == vviews(words@),
            p == (|w: Seq<char>| album_qualifier_word(w)),
            vviews(out@) == ws.take(i as int).filter(p),
        decreases words.len() - i,
    {
        proof {
            lemma_filter_step(ws, p, i as int);
        }
        if is_album_qualifier(&words[i]) {
            let ghost before = vviews(out@);
            let mut w: Vec<char> = Vec::new();
            append_chars(&mut w, &words[i]);
            out.push(w);
            assert(vviews(out@) =~= before.push(ws[i as int]));
        }
        i = i + 1;
    }
    assert(ws.take(words.len() as int) =~= ws);
    out
}

/// Close Album titles: the same qualifiers and at most one edit between
/// normalized titles of at least five characters.
pub open spec fn close_title(left: Seq<char>, right: Seq<char>) -> bool {
    album_qualifiers(left) == album_qualifiers(right) && edit_close_spec(left, right, 1, 5)
}

pub fn close_album_title(left: &str, right: &str) -> (r: bool)
    ensures
        r == close_title(left@, right@),
{
    words_eq(&qualifiers(left), &qualifiers(right)) && edit_close(left, right, 1, 5)
}

// ---------------------------------------------------------------------------
// Trailing format/type decorations.

/// Comparison-only trailing tag decorations; EP/LP require candidate type evidence.
#[derive(Debug, PartialEq, Eq)]
pub struct AlbumTitleVariant {
    pub title: String,
    pub requires_ep: bool,
    pub requires_album: bool,
}

pub struct VariantView {
    pub title: Seq<char>,
    pub requires_ep: bool,
    pub requires_album: bool,
}

impl View for AlbumTitleVariant {
    type V = VariantView;

    open spec fn view(&self) -> VariantView {
        VariantView {
            title: self.title@,
            requires_ep: self.requires_ep,
            requires_album: self.requires_album,
        }
    }
}

pub open spec fn variant_views(s: Seq<AlbumTitleVariant>) -> Seq<VariantView> {
    s.map_values(|v: AlbumTitleVariant| v@)
}

/// The decoration words, in the order they are tried.
pub open spec fn decoration(k: int) -> Seq<char> {
    if k == 0 {
        "ep"@
    } else if k == 1 {
        "lp"@
    } else if k == 2 {
        "cd"@
    } else if k == 3 {
        "cd1"@
    } else if k == 4 {
        "cd 1"@
    } else if k == 5 {
        "cd2"@
    } else if k == 6 {
        "cd 2"@
    } else if k == 7 {
        "disc 1"@
    } else if k == 8 {
        "disc 2"@
    } else if k == 9 {
        "2cd"@
    } else {
        "2xcd"@
    }
}

pub open spec fn decoration_count() -> int {
    11
}

/// The four ways a decoration may end a title: " - w", " (w)", " [w]", " w".
pub open spec fn ending(word: Seq<char>, form: int) -> Seq<char> {
    if form == 0 {
        " - "@ + word
    } else if form == 1 {
        " ("@ + word + ")"@
    } else if form == 2 {
        " ["@ + word + "]"@
    } else {
        " "@ + word
    }
}

/// The variant, if any, obtained by removing decoration `k / 4` in form `k % 4`.
pub open spec fn variant_at(key: Seq<char>, k: int) -> Option<VariantView> {
    let word = decoration(k / 4);
    let e = ending(word, k % 4);
    if ends_with(key, e) {
        let base = trimmed(key.take(key.len() - e.len()));
        // A dash-delimited decoration is not also read as a plain-space one.
        if base.len() > 0 && !ends_with(base, " -"@) {
            Some(
                VariantView {
                    title: base,
                    requires_ep: word == "ep"@,
                    requires_album: word == "lp"@,
                },
            )
        } else {
            None
        }
    } else {
        None
    }
}

/// Distinct variants from the first `k` decoration forms, in order.
pub open spec fn variants_upto(key: Seq<char>, k: nat) -> Seq<VariantView>
    decreases k,
{
    if k == 0 {
        Seq::empty()
    } else {
        let before = variants_upto(key, (k - 1) as nat);
        match variant_at(key, k - 1) {
            Some(v) => if before.contains(v) {
                before
            } else {
                before.push(v)
            },
            None => before,
        }
    }
}

/// All comparison variants of a title.
pub open spec fn title_variants(title: Seq<char>) -> Seq<VariantView> {
    variants_upto(normalized(title), (4 * decoration_count()) as nat)
}

fn decoration_word(k: usize) -> (r: &'static str)
    requires
        k < 11,
    ensures
        r@ == decoration(k as int),
{
    if k == 0 {
        "ep"
    } else if k == 1 {
        "lp"
    } else if k == 2 {
        "cd"
    } else if k == 3 {
        "cd1"
    } else if k == 4 {
        "cd 1"
    } else if k == 5 {
        "cd2"
    } else if k == 6 {
        "cd 2"
    } else if k == 7 {
        "disc 1"
    } else if k == 8 {
        "disc 2"
    } else if k == 9 {
        "2cd"
    } else {
        "2xcd"
    }
}

fn ending_chars(word: &str, form: usize) -> (r: Vec<char>)
    requires
        form < 4,
    ensures
        r@ == ending(word@, form as int),
{
    let w = chars_of(word);
    let mut out: Vec<char> = Vec::new();
    if form == 0 {
        append_chars(&mut out, &chars_of(" - "));
        append_chars(&mut out, &w);
    } else if form == 1 {
        append_chars(&mut out, &chars_of(" ("));
        append_chars(&mut out, &w);
        append_chars(&mut out, &chars_of(")"));
    } else if form == 2 {
        append_chars(&mut out, &chars_of(" ["));
        append_chars(&mut out, &w);
        append_chars(&mut out, &chars_of("]"));
    } else {
        append_chars(&mut out, &chars_of(" "));
        append_chars(&mut out, &w);
    }
    out
}

fn contains_variant(list: &Vec<AlbumTitleVariant>, v: &AlbumTitleVariant) -> (r: bool)
    ensures
        r == variant_views(list@).contains(v@),
{
    let mut i: usize = 0;
    while i < list.len()
        invariant
            i <= list.len(),
            forall|k: int| 0 <= k < i ==> (#[trigger] list@[k])@ != v@,
        decreases list.len() - i,
    {
        if list[i].title == v.title && list[i].requires_ep == v.requires_ep
            && list[i].requires_album == v.requires_album {
            assert(variant_views(list@)[i as int] == v@);
            return true;
        }
        i = i + 1;
    }
    proof {
        if variant_views(list@).contains(v@) {
            let k = choose|k: int| 0 <= k < list@.len() && variant_views(list@)[k] == v@;
            assert(list@[k]@ == v@);
        }
    }
    false
}

pub fn album_title_variants(title: &str) -> (r: Vec<AlbumTitleVariant>)
    ensures
        variant_views(r@) == title_variants(title@),
{
    let key = chars_of(normalize(title).as_str());
    let mut result: Vec<AlbumTitleVariant> = Vec::new();
    let mut k: usize = 0;
    while k < 44
        invariant
            k <= 44,
            key@ == normalized(title@),
            variant_views(result@) == variants_upto(key@, k as nat),
        decreases 44 - k,
    {
        let word = decoration_word(k / 4);
        let e = ending_chars(word, k % 4);
        let ghost before = variant_views(result@);
        if has_suffix(&key, &e) {
            let base = trim(&drop_tail(&key, e.len()));
            let dash = chars_of(" -");
            if base.len() > 0 && !has_suffix(&base, &dash) {
                let variant = AlbumTitleVariant {
                    title: string_of(base.as_slice()),
                    requires_ep: str_eq(word, "ep"),
                    requires_album: str_eq(word, "lp"),
                };
                if !contains_variant(&result, &variant) {
                    result.push(variant);
                    assert(variant_views(result@) =~= before.push(variant@));
                }
            }
        }
        k = k + 1;
    }
    result
}

// ---------------------------------------------------------------------------
// Album acceptance inside an established Artist.

/// A MusicBrainz identity of the given kind with a nonempty identifier.
pub open spec fn mb_identity(id: IdentityView, kind: Seq<char>) -> bool {
    id.provider == "musicbrainz"@ && id.kind == kind && id.external_id.len() > 0
}

/// Some candidate of `pool` carries identity `id`.
pub open spec fn pool_has_album(pool: Seq<AlbumCandidateView>, id: IdentityView) -> bool {
    exists|k: int| 0 <= k < pool.len() && (#[trigger] pool[k]).identity == id
}

/// Candidates credited exactly to `artist`, MusicBrainz release groups,
/// first occurrence of each identity, in page order.
pub open spec fn album_pool(items: Seq<AlbumCandidateView>, artist: IdentityView) -> Seq<
    AlbumCandidateView,
>
    decreases items.len(),
{
    if items.len() == 0 {
        Seq::empty()
    } else {
        let pool = album_pool(items.drop_last(), artist);
        let c = items.last();
        if c.artist_ids == seq![artist] && mb_identity(c.identity, "release_group"@)
            && !pool_has_album(pool, c.identity) {
            pool.push(c)
        } else {
            pool
        }
    }
}

/// A candidate fits a variant: its normalized title is the variant's and its
/// primary type agrees with what the decoration requires.
pub open spec fn variant_fits(v: VariantView, c: AlbumCandidateView) -> bool {
    &&& v.title == normalized(c.title)
    &&& (!v.requires_ep || normalized(c.primary_type) == "ep"@)
    &&& (!v.requires_album || normalized(c.primary_type) == "album"@)
}

/// Candidates that some variant fits.
pub open spec fn structural_pred(variants: Seq<VariantView>) -> spec_fn(AlbumCandidateView) -> bool {
    |c: AlbumCandidateView| exists|k: int| 0 <= k < variants.len() && variant_fits(#[trigger] variants[k], c)
}

pub open spec fn exact_pred(title: Seq<char>) -> spec_fn(AlbumCandidateView) -> bool {
    |c: AlbumCandidateView| normalized(c.title) == normalized(title)
}

pub open spec fn close_pred(title: Seq<char>, manual: bool) -> spec_fn(AlbumCandidateView) -> bool {
    |c: AlbumCandidateView|
        close_title(title, c.title) || (manual && album_qualifiers(title) == album_qualifiers(
            c.title,
        ) && edit_close_spec(title, c.title, 2, 8))
}

/// The Album decision on a bounded page.
pub enum AlbumVerdict {
    NoMatch,
    Exact(IdentityView),
    Close(IdentityView),
    Ambiguous(Seq<AlbumCandidateView>),
}

/// Exact titles first; only without an exact title the decoration variants;
/// only without either the close titles. An incomplete page or several
/// plausible candidates is ambiguous.
pub open spec fn album_verdict(
    title: Seq<char>,
    artist: IdentityView,
    items: Seq<AlbumCandidateView>,
    complete: bool,
    manual: bool,
) -> AlbumVerdict {
    if !mb_identity(artist, "artist"@) {
        AlbumVerdict::NoMatch
    } else {
        let pool = album_pool(items, artist);
        let exact = pool.filter(exact_pred(title));
        let variants = if exact.len() == 0 {
            title_variants(title)
        } else {
            Seq::empty()
        };
        let structural = pool.filter(structural_pred(variants));
        let plausible = if exact.len() > 0 {
            exact
        } else if structural.len() > 0 {
            structural
        } else {
            pool.filter(close_pred(title, manual))
        };
        let close = exact.len() == 0;
        if !complete || plausible.len() > 1 {
            AlbumVerdict::Ambiguous(plausible)
        } else if plausible.len() == 0 {
            AlbumVerdict::NoMatch
        } else if close {
            AlbumVerdict::Close(plausible[0].identity)
        } else {
            AlbumVerdict::Exact(plausible[0].identity)
        }
    }
}

/// `outcome` reports `verdict`.
pub open spec fn reports(outcome: MatchOutcome, verdict: AlbumVerdict) -> bool {
    match verdict {
        AlbumVerdict::NoMatch => outcome is NoConfidentMatch,
        AlbumVerdict::Exact(id) => outcome matches MatchOutcome::Matched(m) && m@ == id,
        AlbumVerdict::Close(id) => outcome matches MatchOutcome::MatchedClose(m) && m@ == id,
        AlbumVerdict::Ambiguous(s) => outcome matches MatchOutcome::AlbumAmbiguous(v) && album_views(
            v@,
        ) == s,
    }
}

fn album_has_identity(pool: &Vec<ArtistAlbumCandidate>, id: &ExternalIdentity) -> (r: bool)
    ensures
        r == pool_has_album(album_views(pool@), id@),
{
    let mut i: usize = 0;
    while i < pool.len()
        invariant
            i <= pool.len(),
            forall|k: int| 0 <= k < i ==> (#[trigger] pool@[k]).identity@ != id@,
        decreases pool.len() - i,
    {
        if pool[i].identity.same(id) {
            assert(album_views(pool@)[i as int].identity == id@);
            return true;
        }
        i = i + 1;
    }
    proof {
        if pool_has_album(album_views(pool@), id@) {
            let k = choose|k: int|
                0 <= k < pool@.len() && (#[trigger] album_views(pool@)[k]).identity == id@;
            assert(pool@[k].identity@ == id@);
        }
    }
    false
}

fn credited_only_to(ids: &Vec<ExternalIdentity>, artist: &ExternalIdentity) -> (r: bool)
    ensures
        r == (id_views(ids@) == seq![artist@]),
{
    if ids.len() != 1 {
        assert(id_views(ids@).len() != 1);
        return false;
    }
    let r = ids[0].same(artist);
    assert(r ==> id_views(ids@) =~= seq![artist@]);
    assert(!r ==> id_views(ids@)[0] != artist@);
    r
}

fn eligible_albums(page: &Page<ArtistAlbumCandidate>, artist: &ExternalIdentity) -> (r: Vec<
    ArtistAlbumCandidate,
>)
    ensures
        album_views(r@) == album_pool(album_views(page.items@), artist@),
{
    let ghost items = album_views(page.items@);
    let mut pool: Vec<ArtistAlbumCandidate> = Vec::new();
    let mut i: usize = 0;
    assert(items.take(0) =~= Seq::<AlbumCandidateView>::empty());
    while i < page.items.len()
        invariant
            i <= page.items.len(),
            items == album_views(page.items@),
            album_views(pool@) == album_pool(items.take(i as int), artist@),
        decreases page.items.len() - i,
    {
        let c = &page.items[i];
        assert(items.take(i + 1).drop_last() =~= items.take(i as int));
        assert(items.take(i + 1).last() == c@);
        let keep = credited_only_to(&c.artist_ids, artist) && c.identity.is(
            "musicbrainz",
            "release_group",
        ) && !c.identity.external_id.as_str().is_empty() && !album_has_identity(
            &pool,
            &c.identity,
        );
        if keep {
            let ghost before = album_views(pool@);
            pool.push(c.clone());
            assert(album_views(pool@) =~= before.push(c@));
        }
        i = i + 1;
    }
    assert(items.take(page.items.len() as int) =~= items);
    pool
}

fn filter_exact(pool: &Vec<ArtistAlbumCandidate>, title: &str) -> (r: Vec<ArtistAlbumCandidate>)
    ensures
        album_views(r@) == album_views(pool@).filter(exact_pred(title@)),
{
    let key = normalize(title);
    let ghost s = album_views(pool@);
    let ghost p = exact_pred(title@);
    let mut out: Vec<ArtistAlbumCandidate> = Vec::new();
    proof {
        lemma_filter_empty(s, p);
    }
    let mut i: usize = 0;
    while i < pool.len()
        invariant
            i <= pool.len(),
            s == album_views(pool@),
            p == exact_pred(title@),
            key@ == normalized(title@),
            album_views(out@) == s.take(i as int).filter(p),
        decreases pool.len() - i,
    {
        proof {
            lemma_filter_step(s, p, i as int);
        }
        if normalize(pool[i].title.as_str()) == key {
            let ghost before = album_views(out@);
            out.push(pool[i].clone());
            assert(album_views(out@) =~= before.push(s[i as int]));
        }
        i = i + 1;
    }
    assert(s.take(pool.len() as int) =~= s);
    out
}

fn fits(v: &AlbumTitleVariant, c: &ArtistAlbumCandidate) -> (r: bool)
    ensures
        r == variant_fits(v@, c@),
{
    let kind = normalize(c.primary_type.as_str());
    v.title == normalize(c.title.as_str()) && (!v.requires_ep || str_eq(kind.as_str(), "ep")) && (
    !v.requires_album || str_eq(kind.as_str(), "album"))
}

fn any_fits(variants: &Vec<AlbumTitleVariant>, c: &ArtistAlbumCandidate) -> (r: bool)
    ensures
        r == structural_pred(variant_views(variants@))(c@),
{
    let ghost vs = variant_views(variants@);
    let mut k: usize = 0;
    while k < variants.len()
        invariant
            k <= variants.len(),
            vs == variant_views(variants@),
            forall|m: int| 0 <= m < k ==> !variant_fits(#[trigger] vs[m], c@),
        decreases variants.len() - k,
    {
        if fits(&variants[k], c) {
            assert(variant_fits(vs[k as int], c@));
            return true;
        }
        k = k + 1;
    }
    false
}

fn filter_structural(pool: &Vec<ArtistAlbumCandidate>, variants: &Vec<AlbumTitleVariant>) -> (r:
    Vec<ArtistAlbumCandidate>)
    ensures
        album_views(r@) == album_views(pool@).filter(structural_pred(variant_views(variants@))),
{
    let ghost s = album_views(pool@);
    let ghost p = structural_pred(variant_views(variants@));
    let mut out: Vec<ArtistAlbumCandidate> = Vec::new();
    proof {
        lemma_filter_empty(s, p);
    }
    let mut i: usize = 0;
    while i < pool.len()
        invariant
            i <= pool.len(),
            s == album_views(pool@),
            p == structural_pred(variant_views(variants@)),
            album_views(out@) == s.take(i as int).filter(p),
        decreases pool.len() - i,
    {
        proof {
            lemma_filter_step(s, p, i as int);
        }
        if any_fits(variants, &pool[i]) {
            let ghost before = album_views(out@);
            out.push(pool[i].clone());
            assert(album_views(out@) =~= before.push(s[i as int]));
        }
        i = i + 1;
    }
    assert(s.take(pool.len() as int) =~= s);
    out
}

fn filter_close(pool: &Vec<ArtistAlbumCandidate>, title: &str, manual: bool) -> (r: Vec<
    ArtistAlbumCandidate,
>)
    ensures
        album_views(r@) == album_views(pool@).filter(close_pred(title@, manual)),
{
    let ghost s = album_views(pool@);
    let ghost p = close_pred(title@, manual);
    let mut out: Vec<ArtistAlbumCandidate> = Vec::new();
    proof {
        lemma_filter_empty(s, p);
    }
    let mut i: usize = 0;
    while i < pool.len()
        invariant
            i <= pool.len(),
            s == album_views(pool@),
            p == close_pred(title@, manual),
            album_views(out@) == s.take(i as int).filter(p),
        decreases pool.len() - i,
    {
        proof {
            lemma_filter_step(s, p, i as int);
        }
        let candidate = pool[i].title.as_str();
        let keep = close_album_title(title, candidate) || (manual && words_eq(
            &qualifiers(title),
            &qualifiers(candidate),
        ) && edit_close(title, candidate, 2, 8));
        if keep {
            let ghost before = album_views(out@);
            out.push(pool[i].clone());
            assert(album_views(out@) =~= before.push(s[i as int]));
        }
        i = i + 1;
    }
    assert(s.take(pool.len() as int) =~= s);
    out
}

pub fn accepted_album(
    title: &str,
    artist: &ExternalIdentity,
    page: &Page<ArtistAlbumCandidate>,
) -> (r: MatchOutcome)
    ensures
        reports(
            r,
            album_verdict(title@, artist@, album_views(page.items@), page.next_offset is None, false),
        ),
{
    accepted_album_confirmed(title, artist, page, false)
}

/// Decide an Album identity among a bounded page of Artist-scoped candidates.
/// A confirmed (manual) Artist also admits two edits between longer titles.
pub fn accepted_album_confirmed(
    title: &str,
    artist: &ExternalIdentity,
    page: &Page<ArtistAlbumCandidate>,
    manual: bool,
) -> (r: MatchOutcome)
    ensures
        reports(
            r,
            album_verdict(title@, artist@, album_views(page.items@), page.next_offset is None, manual),
        ),
{
    if !artist.is("musicbrainz", "artist") || artist.external_id.as_str().is_empty() {
        return MatchOutcome::NoConfidentMatch;
    }
    let pool = eligible_albums(page, artist);
    let exact = filter_exact(&pool, title);
    let variants = if exact.len() == 0 {
        album_title_variants(title)
    } else {
        let v: Vec<AlbumTitleVariant> = Vec::new();
        assert(variant_views(v@) =~= Seq::<VariantView>::empty());
        v
    };
    let structural = filter_structural(&pool, &variants);
    let close = exact.len() == 0;
    let plausible = if exact.len() > 0 {
        exact
    } else if structural.len() > 0 {
        structural
    } else {
        filter_close(&pool, title, manual)
    };
    if page.next_offset.is_some() || plausible.len() > 1 {
        return MatchOutcome::AlbumAmbiguous(plausible);
    }
    if plausible.len() == 0 {
        return MatchOutcome::NoConfidentMatch;
    }
    assert(album_views(plausible@)[0].identity == plausible@[0].identity@);
    let id = plausible[0].identity.clone();
    if close {
        MatchOutcome::MatchedClose(id)
    } else {
        MatchOutcome::Matched(id)
    }
}

// ---------------------------------------------------------------------------
// Artist resolution.

/// Some candidate of `pool` carries identity `id`.
pub open spec fn pool_has_artist(pool: Seq<ArtistCandidateView>, id: IdentityView) -> bool {
    exists|k: int| 0 <= k < pool.len() && (#[trigger] pool[k]).identity == id
}

/// MusicBrainz Artist candidates, first occurrence of each identity, in page order.
pub open spec fn artist_pool(items: Seq<ArtistCandidateView>) -> Seq<ArtistCandidateView>
    decreases items.len(),
{
    if items.len() == 0 {
        Seq::empty()
    } else {
        let pool = artist_pool(items.drop_last());
        let c = items.last();
        if mb_identity(c.identity, "artist"@) && !pool_has_artist(pool, c.identity) {
            pool.push(c)
        } else {
            pool
        }
    }
}

/// The candidate's primary name or one of its aliases normalizes to `key`.
pub open spec fn names_match(c: ArtistCandidateView, key: Seq<char>) -> bool {
    normalized(c.name) == key || exists|k: int|
        0 <= k < c.aliases.len() && normalized(#[trigger] c.aliases[k]) == key
}

/// One of the candidate's normalized names is within one edit of `key`.
pub open spec fn names_close(c: ArtistCandidateView, key: Seq<char>) -> bool {
    edit_close_spec(key, normalized(c.name), 1, 1) || exists|k: int|
        0 <= k < c.aliases.len() && edit_close_spec(key, normalized(#[trigger] c.aliases[k]), 1, 1)
}

pub open spec fn exact_artist_pred(key: Seq<char>) -> spec_fn(ArtistCandidateView) -> bool {
    |c: ArtistCandidateView| names_match(c, key)
}

pub open spec fn competitor_pred(key: Seq<char>, winner: IdentityView) -> spec_fn(
    ArtistCandidateView,
) -> bool {
    |c: ArtistCandidateView| c.identity != winner && names_close(c, key)
}

/// The Artist decision on a bounded page.
pub enum ArtistVerdict {
    Resolved(IdentityView),
    Ambiguous(Seq<ArtistCandidateView>),
    NoMatch,
}

/// A unique exact name (or alias) resolves the Artist, unless the winner
/// matched only by alias and another candidate is within one edit, or the
/// page is incomplete.
pub open spec fn artist_verdict(name: Seq<char>, items: Seq<ArtistCandidateView>, complete: bool) -> ArtistVerdict {
    let key = normalized(name);
    let pool = artist_pool(items);
    let exact = pool.filter(exact_artist_pred(key));
    if exact.len() > 1 {
        ArtistVerdict::Ambiguous(exact)
    } else if exact.len() == 0 {
        ArtistVerdict::NoMatch
    } else {
        let winner = exact[0];
        let competitors = pool.filter(competitor_pred(key, winner.identity));
        if normalized(winner.name) != key && competitors.len() > 0 {
            ArtistVerdict::Ambiguous(exact + competitors)
        } else if !complete {
            ArtistVerdict::Ambiguous(exact)
        } else {
            ArtistVerdict::Resolved(winner.identity)
        }
    }
}

fn artist_has_identity(pool: &Vec<ArtistCandidate>, id: &ExternalIdentity) -> (r: bool)
    ensures
        r == pool_has_artist(artist_views(pool@), id@),
{
    let mut i: usize = 0;
    while i < pool.len()
        invariant
            i <= pool.len(),
            forall|k: int| 0 <= k < i ==> (#[trigger] pool@[k]).identity@ != id@,
        decreases pool.len() - i,
    {
        if pool[i].identity.same(id) {
            assert(artist_views(pool@)[i as int].identity == id@);
            return true;
        }
        i = i + 1;
    }
    proof {
        if pool_has_artist(artist_views(pool@), id@) {
            let k = choose|k: int|
                0 <= k < pool@.len() && (#[trigger] artist_views(pool@)[k]).identity == id@;
            assert(pool@[k].identity@ == id@);
        }
    }
    false
}

fn eligible_artists(page: &Page<ArtistCandidate>) -> (r: Vec<ArtistCandidate>)
    ensures
        artist_views(r@) == artist_pool(artist_views(page.items@)),
{
    let ghost items = artist_views(page.items@);
    let mut pool: Vec<ArtistCandidate> = Vec::new();
    let mut i: usize = 0;
    assert(items.take(0) =~= Seq::<ArtistCandidateView>::empty());
    while i < page.items.len()
        invariant
            i <= page.items.len(),
            items == artist_views(page.items@),
            artist_views(pool@) == artist_pool(items.take(i as int)),
        decreases page.items.len() - i,
    {
        let c = &page.items[i];
        assert(items.take(i + 1).drop_last() =~= items.take(i as int));
        assert(items.take(i + 1).last() == c@);
        if c.identity.is("musicbrainz", "artist") && !c.identity.external_id.as_str().is_empty()
            && !artist_has_identity(&pool, &c.identity) {
            let ghost before = artist_views(pool@);
            pool.push(c.clone());
            assert(artist_views(pool@) =~= before.push(c@));
        }
        i = i + 1;
    }
    assert(items.take(page.items.len() as int) =~= items);
    pool
}

fn matches_name(c: &ArtistCandidate, key: &String) -> (r: bool)
    ensures
        r == names_match(c@, key@),
{
    if normalize(c.name.as_str()) == *key {
        return true;
    }
    let mut k: usize = 0;
    while k < c.aliases.len()
        invariant
            k <= c.aliases.len(),
            forall|m: int| 0 <= m < k ==> normalized(#[trigger] c.aliases@[m]@) != key@,
        decreases c.aliases.len() - k,
    {
        if normalize(c.aliases[k].as_str()) == *key {
            assert(normalized(c@.aliases[k as int]) == key@);
            return true;
        }
        k = k + 1;
    }
    proof {
        if names_match(c@, key@) {
            let m = choose|m: int|
                0 <= m < c@.aliases.len() && normalized(#[trigger] c@.aliases[m]) == key@;
            assert(c@.aliases[m] == c.aliases@[m]@);
        }
    }
    false
}

fn close_name(c: &ArtistCandidate, key: &String) -> (r: bool)
    ensures
        r == names_close(c@, key@),
{
    if edit_close(key.as_str(), normalize(c.name.as_str()).as_str(), 1, 1) {
        return true;
    }
    let mut k: usize = 0;
    while k < c.aliases.len()
        invariant
            k <= c.aliases.len(),
            forall|m: int|
                0 <= m < k ==> !edit_close_spec(key@, normalized(#[trigger] c.aliases@[m]@), 1, 1),
        decreases c.aliases.len() - k,
    {
        if edit_close(key.as_str(), normalize(c.aliases[k].as_str()).as_str(), 1, 1) {
            assert(c@.aliases[k as int] == c.aliases@[k as int]@);
            return true;
        }
        k = k + 1;
    }
    proof {
        if names_close(c@, key@) && !edit_close_spec(key@, normalized(c@.name), 1, 1) {
            let m = choose|m: int|
                0 <= m < c@.aliases.len() && edit_close_spec(
                    key@,
                    normalized(#[trigger] c@.aliases[m]),
                    1,
                    1,
                );
            assert(c@.aliases[m] == c.aliases@[m]@);
        }
    }
    false
}

fn filter_exact_artists(pool: &Vec<ArtistCandidate>, key: &String) -> (r: Vec<ArtistCandidate>)
    ensures
        artist_views(r@) == artist_views(pool@).filter(exact_artist_pred(key@)),
{
    let ghost s = artist_views(pool@);
    let ghost p = exact_artist_pred(key@);
    let mut out: Vec<ArtistCandidate> = Vec::new();
    proof {
        lemma_filter_empty(s, p);
    }
    let mut i: usize = 0;
    while i < pool.len()
        invariant
            i <= pool.len(),
            s == artist_views(pool@),
            p == exact_artist_pred(key@),
            artist_views(out@) == s.take(i as int).filter(p),
        decreases pool.len() - i,
    {
        proof {
            lemma_filter_step(s, p, i as int);
        }
        if matches_name(&pool[i], key) {
            let ghost before = artist_views(out@);
            out.push(pool[i].clone());
            assert(artist_views(out@) =~= before.push(s[i as int]));
        }
        i = i + 1;
    }
    assert(s.take(pool.len() as int) =~= s);
    out
}

fn filter_competitors(pool: &Vec<ArtistCandidate>, key: &String, winner: &ExternalIdentity) -> (r:
    Vec<ArtistCandidate>)
    ensures
        artist_views(r@) == artist_views(pool@).filter(competitor_pred(key@, winner@)),
{
    let ghost s = artist_views(pool@);
    let ghost p = competitor_pred(key@, winner@);
    let mut out: Vec<ArtistCandidate> = Vec::new();
    proof {
        lemma_filter_empty(s, p);
    }
    let mut i: usize = 0;
    while i < pool.len()
        invariant
            i <= pool.len(),
            s == artist_views(pool@),
            p == competitor_pred(key@, winner@),
            artist_views(out@) == s.take(i as int).filter(p),
        decreases pool.len() - i,
    {
        proof {
            lemma_filter_step(s, p, i as int);
        }
        if !pool[i].identity.same(winner) && close_name(&pool[i], key) {
            let ghost before = artist_views(out@);
            out.push(pool[i].clone());
            assert(artist_views(out@) =~= before.push(s[i as int]));
        }
        i = i + 1;
    }
    assert(s.take(pool.len() as int) =~= s);
    out
}

/// Resolve a local Artist name against a bounded Artist page.
pub fn resolve_artist(name: &str, page: &Page<ArtistCandidate>) -> (r: Result<
    ExternalIdentity,
    MatchOutcome,
>)
    ensures
        match artist_verdict(name@, artist_views(page.items@), page.next_offset is None) {
            ArtistVerdict::Resolved(id) => r matches Ok(v) && v@ == id,
            ArtistVerdict::Ambiguous(s) => r matches Err(MatchOutcome::ArtistAmbiguous(v))
                && artist_views(v@) == s,
            ArtistVerdict::NoMatch => r matches Err(MatchOutcome::NoConfidentMatch),
        },
{
    let key = normalize(name);
    let candidates = eligible_artists(page);
    let exact = filter_exact_artists(&candidates, &key);
    if exact.len() > 1 {
        return Err(MatchOutcome::ArtistAmbiguous(exact));
    }
    if exact.len() == 0 {
        return Err(MatchOutcome::NoConfidentMatch);
    }
    assert(artist_views(exact@)[0] == exact@[0]@);
    let winner = exact[0].clone();
    let competitors = filter_competitors(&candidates, &key, &winner.identity);
    if normalize(winner.name.as_str()) != key && competitors.len() > 0 {
        let ghost e = artist_views(exact@);
        let mut all = exact;
        let mut i: usize = 0;
        while i < competitors.len()
            invariant
                i <= competitors.len(),
                artist_views(all@) == e + artist_views(competitors@).take(i as int),
            decreases competitors.len() - i,
        {
            let ghost before = artist_views(all@);
            let c = competitors[i].clone();
            all.push(c);
            assert(artist_views(all@) =~= before.push(c@));
            assert(artist_views(competitors@).take(i + 1) =~= artist_views(competitors@).take(
                i as int,
            ).push(c@));
            assert(artist_views(all@) =~= e + artist_views(competitors@).take(i + 1));
            i = i + 1;
        }
        assert(artist_views(competitors@).take(competitors.len() as int) =~= artist_views(
            competitors@,
        ));
        return Err(MatchOutcome::ArtistAmbiguous(all));
    }
    if page.next_offset.is_some() {
        return Err(MatchOutcome::ArtistAmbiguous(exact));
    }
    Ok(winner.identity)
}

// ---------------------------------------------------------------------------
// Album evidence among plausible Artists.

/// A verdict that gives an Artist Album evidence.
pub open spec fn verdict_supports(v: AlbumVerdict) -> bool {
    v is Exact || v is Close || v is Ambiguous
}

/// Each candidate Artist with whether the page supports one of its Albums.
pub open spec fn evidence(
    title: Seq<char>,
    candidates: Seq<ArtistCandidateView>,
    items: Seq<AlbumCandidateView>,
) -> Seq<(ArtistCandidateView, bool)> {
    candidates.map_values(
        |c: ArtistCandidateView|
            (c, verdict_supports(album_verdict(title, c.identity, items, true, false))),
    )
}

/// Presentation order: supported candidates first, then by identifier.
pub open spec fn ranks_before(x: (ArtistCandidateView, bool), y: (ArtistCandidateView, bool)) -> bool {
    (x.1 && !y.1) || (x.1 == y.1 && crate::text::lex_lt(
        x.0.identity.external_id,
        y.0.identity.external_id,
    ))
}

/// Insert after every element that does not rank after `x`.
pub open spec fn insert_ranked(s: Seq<(ArtistCandidateView, bool)>, x: (ArtistCandidateView, bool)) -> Seq<
    (ArtistCandidateView, bool),
>
    decreases s.len(),
{
    if s.len() == 0 {
        seq![x]
    } else if ranks_before(x, s[0]) {
        seq![x] + s
    } else {
        seq![s[0]] + insert_ranked(s.drop_first(), x)
    }
}

/// Stable sort by rank.
pub open spec fn ranked(s: Seq<(ArtistCandidateView, bool)>) -> Seq<(ArtistCandidateView, bool)>
    decreases s.len(),
{
    if s.len() == 0 {
        Seq::empty()
    } else {
        insert_ranked(ranked(s.drop_last()), s.last())
    }
}

proof fn lemma_insert_ranked(
    s: Seq<(ArtistCandidateView, bool)>,
    x: (ArtistCandidateView, bool),
    p: int,
)
    requires
        0 <= p <= s.len(),
        forall|k: int| 0 <= k < p ==> !ranks_before(x, #[trigger] s[k]),
        p == s.len() || ranks_before(x, s[p]),
    ensures
        insert_ranked(s, x) == s.insert(p, x),
    decreases s.len(),
{
    if s.len() == 0 {
        assert(s.insert(p, x) =~= seq![x]);
    } else if p == 0 {
        assert(s.insert(p, x) =~= seq![x] + s);
    } else {
        assert(!ranks_before(x, s[0]));
        let t = s.drop_first();
        assert forall|k: int| 0 <= k < p - 1 implies !ranks_before(x, #[trigger] t[k]) by {
            assert(t[k] == s[k + 1]);
        }
        lemma_insert_ranked(t, x, p - 1);
        assert(s.insert(p, x) =~= seq![s[0]] + t.insert(p - 1, x));
    }
}

/// The supported candidates of the evidence.
pub open spec fn supported_only(e: Seq<(ArtistCandidateView, bool)>) -> Seq<(ArtistCandidateView, bool)> {
    e.filter(|x: (ArtistCandidateView, bool)| x.1)
}

/// Album evidence may settle an Artist among the supplied plausible ones,
/// never add one: a single supported candidate whose name (or alias) is the
/// local one and whose Album match is unique. Otherwise all candidates stay,
/// supported first.
pub open spec fn corroboration(
    local_artist: Seq<char>,
    title: Seq<char>,
    candidates: Seq<ArtistCandidateView>,
    items: Seq<AlbumCandidateView>,
) -> (Option<ArtistCandidateView>, Seq<ArtistCandidateView>) {
    let ev = evidence(title, candidates, items);
    let supported = supported_only(ev);
    if supported.len() == 1 && names_match(supported[0].0, normalized(local_artist)) && {
        let v = album_verdict(title, supported[0].0.identity, items, true, false);
        v is Exact || v is Close
    } {
        (Some(supported[0].0), Seq::empty())
    } else {
        (None, ranked(ev).map_values(|x: (ArtistCandidateView, bool)| x.0))
    }
}

fn supports_album(o: &MatchOutcome) -> (r: bool)
    ensures
        r == (o is Matched || o is MatchedClose || o is AlbumAmbiguous),
{
    match o {
        MatchOutcome::Matched(_) => true,
        MatchOutcome::MatchedClose(_) => true,
        MatchOutcome::AlbumAmbiguous(_) => true,
        _ => false,
    }
}

fn id_chars(c: &ArtistCandidate) -> (r: Vec<char>)
    ensures
        r@ == c@.identity.external_id,
{
    chars_of(c.identity.external_id.as_str())
}

fn ranks_before_exec(
    x: &ArtistCandidate,
    xs: bool,
    y: &ArtistCandidate,
    ys: bool,
) -> (r: bool)
    ensures
        r == ranks_before((x@, xs), (y@, ys)),
{
    (xs && !ys) || (xs == ys && crate::text::lex_less(&id_chars(x), &id_chars(y)))
}

pub fn corroborate_artist_album(
    local_artist: &str,
    title: &str,
    candidates: &[ArtistCandidate],
    page: &Page<ArtistAlbumCandidate>,
) -> (r: (Option<ExternalIdentity>, MatchOutcome))
    ensures
        page.next_offset is Some ==> r.0 is None && (r.1 matches MatchOutcome::ArtistAmbiguous(v)
            && artist_views(v@) == artist_views(candidates@)),
        page.next_offset is None ==> ({
            let (chosen, all) = corroboration(
                local_artist@,
                title@,
                artist_views(candidates@),
                album_views(page.items@),
            );
            match chosen {
                Some(c) => r.0 matches Some(id) && id@ == c.identity && reports(
                    r.1,
                    album_verdict(title@, c.identity, album_views(page.items@), true, false),
                ),
                None => r.0 is None && (r.1 matches MatchOutcome::ArtistAmbiguous(v) && artist_views(
                    v@,
                ) == all),
            }
        }),
{
    let ghost items = album_views(page.items@);
    let ghost cs = artist_views(candidates@);
    if page.next_offset.is_some() {
        let mut all: Vec<ArtistCandidate> = Vec::new();
        let mut i: usize = 0;
        while i < candidates.len()
            invariant
                i <= candidates.len(),
                cs == artist_views(candidates@),
                artist_views(all@) == cs.take(i as int),
            decreases candidates.len() - i,
        {
            let ghost before = artist_views(all@);
            let c = candidates[i].clone();
            all.push(c);
            assert(artist_views(all@) =~= before.push(c@));
            assert(cs.take(i + 1) =~= cs.take(i as int).push(cs[i as int]));
            assert(artist_views(all@) =~= cs.take(i + 1));
            i = i + 1;
        }
        assert(cs.take(candidates.len() as int) =~= cs);
        return (None, MatchOutcome::ArtistAmbiguous(all));
    }
    let ghost ev = evidence(title@, cs, items);
    let ghost sp = |x: (ArtistCandidateView, bool)| x.1;
    // Which candidates the page supports.
    let mut flags: Vec<bool> = Vec::new();
    let mut count: usize = 0;
    let mut last: usize = 0;
    proof {
        lemma_filter_empty(ev, sp);
    }
    let mut i: usize = 0;
    while i < candidates.len()
        invariant
            i <= candidates.len(),
            cs == artist_views(candidates@),
            ev == evidence(title@, cs, items),
            items == album_views(page.items@),
            page.next_offset is None,
            sp == (|x: (ArtistCandidateView, bool)| x.1),
            flags@.len() == i,
            forall|k: int| 0 <= k < i ==> #[trigger] flags@[k] == ev[k].1,
            count == ev.take(i as int).filter(sp).len(),
            count > 0 ==> last < i && flags@[last as int] && ev.take(i as int).filter(sp)[count - 1]
                == ev[last as int],
            count <= i,
        decreases candidates.len() - i,
    {
        proof {
            lemma_filter_step(ev, sp, i as int);
        }
        let outcome = accepted_album(title, &candidates[i].identity, page);
        let supported = supports_album(&outcome);
        assert(supported == ev[i as int].1);
        flags.push(supported);
        if supported {
            count = count + 1;
            last = i;
        }
        i = i + 1;
    }
    assert(ev.take(candidates.len() as int) =~= ev);
    if count == 1 {
        let key = normalize(local_artist);
        let c = &candidates[last];
        assert(supported_only(ev)[0] == ev[last as int]);
        assert(ev[last as int].0 == c@);
        if matches_name(c, &key) {
            let outcome = accepted_album(title, &c.identity, page);
            let decisive = match &outcome {
                MatchOutcome::Matched(_) => true,
                MatchOutcome::MatchedClose(_) => true,
                _ => false,
            };
            if decisive {
                return (Some(c.identity.clone()), outcome);
            }
        }
    }
    // Presentation: stable insertion by rank.
    let mut sorted: Vec<ArtistCandidate> = Vec::new();
    let mut sorted_flags: Vec<bool> = Vec::new();
    let mut i: usize = 0;
    while i < candidates.len()
        invariant
            i <= candidates.len(),
            cs == artist_views(candidates@),
            ev == evidence(title@, cs, items),
            flags@.len() == candidates.len(),
            forall|k: int| 0 <= k < candidates.len() ==> #[trigger] flags@[k] == ev[k].1,
            sorted@.len() == sorted_flags@.len(),
            ranked(ev.take(i as int)) == Seq::new(
                sorted@.len() as nat,
                |k: int| (sorted@[k]@, sorted_flags@[k]),
            ),
        decreases candidates.len() - i,
    {
        let ghost pairs = Seq::new(
            sorted@.len() as nat,
            |k: int| (sorted@[k]@, sorted_flags@[k]),
        );
        let x = &candidates[i];
        let xs = flags[i];
        let ghost xv = (x@, xs);
        assert(ev[i as int] == xv);
        let mut p: usize = 0;
        while p < sorted.len() && !ranks_before_exec(x, xs, &sorted[p], sorted_flags[p])
            invariant
                p <= sorted@.len(),
                sorted@.len() == sorted_flags@.len(),
                pairs == Seq::new(sorted@.len() as nat, |k: int| (sorted@[k]@, sorted_flags@[k])),
                forall|k: int| 0 <= k < p ==> !ranks_before(xv, #[trigger] pairs[k]),
                xv == (x@, xs),
            decreases sorted.len() - p,
        {
            assert(pairs[p as int] == (sorted@[p as int]@, sorted_flags@[p as int]));
            p = p + 1;
        }
        assert(p < sorted@.len() ==> pairs[p as int] == (sorted@[p as int]@, sorted_flags@[p as int]));
        proof {
            lemma_insert_ranked(pairs, xv, p as int);
            assert(ev.take(i + 1).drop_last() =~= ev.take(i as int));
            assert(ev.take(i + 1).last() == xv);
        }
        sorted.insert(p, x.clone());
        sorted_flags.insert(p, xs);
        assert(Seq::new(sorted@.len() as nat, |k: int| (sorted@[k]@, sorted_flags@[k])) =~= pairs.insert(
            p as int,
            xv,
        ));
        i = i + 1;
    }
    assert(ev.take(candidates.len() as int) =~= ev);
    assert(artist_views(sorted@) =~= ranked(ev).map_values(|x: (ArtistCandidateView, bool)| x.0));
    (None, MatchOutcome::ArtistAmbiguous(sorted))
}

// ---------------------------------------------------------------------------
// Provider outages: circuit and cooldown.

/// A provider error as a matching outcome: outages defer, other errors report.
pub fn provider_outcome(error: CatalogError) -> (r: MatchOutcome)
    ensures
        crate::catalog::provider_unavailable(error) ==> r == MatchOutcome::Deferred(error),
        !crate::catalog::provider_unavailable(error) ==> (r matches MatchOutcome::Error(m) && m@
            == crate::catalog::error_message(error)),
{
    if error.is_provider_unavailable() {
        MatchOutcome::Deferred(error)
    } else {
        MatchOutcome::Error(error.message())
    }
}

/// The page candidate presented for a successful match.
pub open spec fn first_with_identity(items: Seq<AlbumCandidateView>, id: IdentityView) -> Option<
    AlbumCandidateView,
>
    decreases items.len(),
{
    if items.len() == 0 {
        None
    } else if items[0].identity == id {
        Some(items[0])
    } else {
        first_with_identity(items.drop_first(), id)
    }
}

/// The Album identity an outcome accepted.
pub open spec fn matched_identity(outcome: MatchOutcome) -> Option<IdentityView> {
    match outcome {
        MatchOutcome::Matched(id) => Some(id@),
        MatchOutcome::MatchedClose(id) => Some(id@),
        _ => None,
    }
}

/// The first page candidate whose identity the outcome matched.
pub fn matched_album(outcome: &MatchOutcome, page: &Page<ArtistAlbumCandidate>) -> (r: Option<
    ArtistAlbumCandidate,
>)
    ensures
        match matched_identity(*outcome) {
            Some(id) => match first_with_identity(album_views(page.items@), id) {
                Some(c) => r matches Some(v) && v@ == c,
                None => r is None,
            },
            None => r is None,
        },
{
    let identity = match outcome {
        MatchOutcome::Matched(id) => id,
        MatchOutcome::MatchedClose(id) => id,
        _ => {
            return None;
        },
    };
    let ghost items = album_views(page.items@);
    let mut i: usize = 0;
    assert(items.skip(0) =~= items);
    while i < page.items.len()
        invariant
            i <= page.items.len(),
            items == album_views(page.items@),
            matched_identity(*outcome) == Some(identity@),
            first_with_identity(items.skip(i as int), identity@) == first_with_identity(
                items,
                identity@,
            ),
        decreases page.items.len() - i,
    {
        if page.items[i].identity.same(identity) {
            assert(items.skip(i as int)[0] == page.items@[i as int]@);
            assert(items.skip(i as int).len() > 0);
            assert(first_with_identity(items.skip(i as int), identity@) == Some(
                page.items@[i as int]@,
            ));
            let found = page.items[i].clone();
            return Some(found);
        }
        assert(items.skip(i as int).drop_first() =~= items.skip(i + 1));
        i = i + 1;
    }
    None
}

/// What `httpdate::parse_http_date` gives, in whole seconds after the Unix epoch.
pub uninterp spec fn http_date(s: Seq<char>) -> Option<u64>;

/// `httpdate::parse_http_date` (IMF-fixdate, RFC 850 or asctime), as seconds
/// after the Unix epoch. Which strings parse, and to what, is the crate's.
#[verifier::external_body]
pub(crate) fn http_date_seconds(s: &str) -> (r: Option<u64>)
    ensures
        r == http_date(s@),
{
    httpdate::parse_http_date(s).ok().and_then(|t| t.duration_since(std::time::UNIX_EPOCH).ok()).map(
        |d| d.as_secs(),
    )
}

/// Owner-thread callback token and retry delay in milliseconds.
#[derive(Clone, Copy, Debug, PartialEq, Eq)]
pub struct RetrySchedule {
    pub token: u64,
    pub delay: u64,
}

/// The longest requested wait honoured, in milliseconds.
pub open spec fn max_requested_delay() -> u64 {
    120_000
}

/// The wait a provider asked for, in milliseconds at time `now` (milliseconds
/// since the epoch): a delay in whole seconds, else the time left until a
/// date, else nothing. Only 503-style outages carry one.
pub open spec fn requested_delay(error: CatalogError, now: u64) -> int {
    match error {
        CatalogError::ServiceUnavailable { retry_after: Some(header), .. } => {
            let value = trimmed(header@);
            match parsed_u64(value) {
                Some(v) => v * 1000,
                None => match http_date(value) {
                    Some(d) => if d * 1000 >= now {
                        d * 1000 - now
                    } else {
                        0
                    },
                    None => 0,
                },
            }
        },
        _ => 0,
    }
}

/// The requested wait, capped.
pub open spec fn bounded_request(error: CatalogError, now: u64) -> u64 {
    if requested_delay(error, now) <= max_requested_delay() {
        requested_delay(error, now) as u64
    } else {
        max_requested_delay()
    }
}

/// Exponential backoff in milliseconds: 15, 30, 60, then 120 seconds.
pub open spec fn backoff(failures: u32) -> u64 {
    if failures == 0 {
        15_000
    } else if failures == 1 {
        30_000
    } else if failures == 2 {
        60_000
    } else {
        120_000
    }
}

pub open spec fn max_u64(a: u64, b: u64) -> u64 {
    if a >= b {
        a
    } else {
        b
    }
}

/// The generation after an arming or a cancellation.
pub open spec fn next_generation(g: u64) -> u64 {
    if g == u64::MAX {
        0
    } else {
        (g + 1) as u64
    }
}

/// Retry cooldown after provider outages. Each arming or cancellation
/// invalidates earlier callback tokens.
#[derive(Debug, Default)]
pub struct Cooldown {
    failures: u32,
    generation: u64,
    scheduled: Option<RetrySchedule>,
}

impl Cooldown {
    pub closed spec fn failures_spec(&self) -> u32 {
        self.failures
    }

    pub closed spec fn generation_spec(&self) -> u64 {
        self.generation
    }

    pub closed spec fn scheduled_spec(&self) -> Option<RetrySchedule> {
        self.scheduled
    }

    pub fn new() -> (r: Self)
        ensures
            r.failures_spec() == 0,
            r.generation_spec() == 0,
            r.scheduled_spec() is None,
    {
        Cooldown { failures: 0, generation: 0, scheduled: None }
    }

    /// The currently armed schedule.
    pub fn scheduled(&self) -> (r: Option<RetrySchedule>)
        ensures
            r == self.scheduled_spec(),
    {
        self.scheduled
    }

    /// Invalidate the scheduled callback.
    pub fn cancel(&mut self)
        ensures
            final(self).generation_spec() == next_generation(old(self).generation_spec()),
            final(self).failures_spec() == old(self).failures_spec(),
            final(self).scheduled_spec() is None,
    {
        self.generation = self.generation.wrapping_add(1);
        self.scheduled = None;
    }

    /// Invalidate the scheduled callback and forget past failures.
    pub fn reset(&mut self)
        ensures
            final(self).generation_spec() == next_generation(old(self).generation_spec()),
            final(self).failures_spec() == 0,
            final(self).scheduled_spec() is None,
    {
        self.cancel();
        self.failures = 0;
    }

    /// Schedule a retry after an outage at time `now` (milliseconds since the epoch).
    pub fn arm(&mut self, error: &CatalogError, now: u64) -> (r: RetrySchedule)
        ensures
            final(self).generation_spec() == next_generation(old(self).generation_spec()),
            final(self).failures_spec() == (if old(self).failures_spec() == u32::MAX {
                u32::MAX
            } else {
                (old(self).failures_spec() + 1) as u32
            }),
            r.token == final(self).generation_spec(),
            r.delay == max_u64(backoff(old(self).failures_spec()), bounded_request(*error, now)),
            final(self).scheduled_spec() == Some(r),
    {
        let previous = self.failures;
        self.cancel();
        let base: u64 = if previous == 0 {
            15_000
        } else if previous == 1 {
            30_000
        } else if previous == 2 {
            60_000
        } else {
            120_000
        };
        self.failures = self.failures.saturating_add(1);
        let bounded: u64 = match error {
            CatalogError::ServiceUnavailable { retry_after: Some(header), .. } => {
                let value = trim(&chars_of(header.as_str()));
                match parse_u64(&value) {
                    Some(v) => if v <= 120 {
                        v * 1000
                    } else {
                        120_000
                    },
                    None => match http_date_seconds(string_of(value.as_slice()).as_str()) {
                        Some(d) => {
                            let due: u128 = (d as u128) * 1000;
                            let at: u128 = now as u128;
                            if due < at {
                                0
                            } else if due - at <= 120_000 {
                                (due - at) as u64
                            } else {
                                120_000
                            }
                        },
                        None => 0,
                    },
                }
            },
            _ => 0,
        };
        let delay = if base >= bounded {
            base
        } else {
            bounded
        };
        let schedule = RetrySchedule { token: self.generation, delay };
        self.scheduled = Some(schedule);
        schedule
    }
}

/// Work queued for the matching worker, each for one Album.
#[derive(Clone, Debug)]
pub enum Work {
    Album(AlbumId),
    Recordings(AlbumId),
}

impl Work {
    /// The Album the work is for.
    pub fn album_id(&self) -> (r: &AlbumId)
        ensures
            *r == match *self {
                Work::Album(id) => id,
                Work::Recordings(id) => id,
            },
    {
        match self {
            Work::Album(id) => id,
            Work::Recordings(id) => id,
        }
    }
}

/// Queued work by kind and Album.
pub enum WorkView {
    Album(Seq<char>),
    Recordings(Seq<char>),
}

pub open spec fn work_view(w: Work) -> WorkView {
    match w {
        Work::Album(id) => WorkView::Album(id.0@),
        Work::Recordings(id) => WorkView::Recordings(id.0@),
    }
}

pub open spec fn work_album(w: WorkView) -> Seq<char> {
    match w {
        WorkView::Album(a) => a,
        WorkView::Recordings(a) => a,
    }
}

pub open spec fn work_views(s: Seq<Work>) -> Seq<WorkView> {
    s.map_values(|w: Work| work_view(w))
}

/// The matcher's pending work and provider state: the queue in order, whether
/// one piece of work is with the provider, whether the provider is
/// unavailable, and the retry cooldown.
pub struct MatchQueue {
    pub queue: Vec<Work>,
    pub active: bool,
    pub circuit: CircuitState,
    pub cooldown: Cooldown,
}

impl MatchQueue {
    pub fn new() -> (r: Self)
        ensures
            r.queue@.len() == 0,
            !r.active,
            r.circuit == CircuitState::Available,
            r.cooldown.failures_spec() == 0,
            r.cooldown.scheduled_spec() is None,
    {
        MatchQueue {
            queue: Vec::new(),
            active: false,
            circuit: CircuitState::Available,
            cooldown: Cooldown::new(),
        }
    }

    fn holds(&self, recordings_only: bool, id: &AlbumId) -> (r: bool)
        ensures
            r == exists|k: int|
                0 <= k < self.queue@.len() && (if recordings_only {
                    work_view(#[trigger] self.queue@[k]) == WorkView::Recordings(id.0@)
                } else {
                    work_album(work_view(self.queue@[k])) == id.0@
                }),
    {
        let mut k: usize = 0;
        while k < self.queue.len()
            invariant
                k <= self.queue@.len(),
                forall|j: int|
                    0 <= j < k ==> !(if recordings_only {
                        work_view(#[trigger] self.queue@[j]) == WorkView::Recordings(id.0@)
                    } else {
                        work_album(work_view(self.queue@[j])) == id.0@
                    }),
            decreases self.queue.len() - k,
        {
            let hit = match &self.queue[k] {
                Work::Album(a) => !recordings_only && a.0 == id.0,
                Work::Recordings(a) => a.0 == id.0,
            };
            if hit {
                return true;
            }
            k = k + 1;
        }
        false
    }

    /// Queue an Album match; pending requests for the same Album coalesce.
    pub fn enqueue_album(&mut self, id: AlbumId)
        ensures
            final(self).active == old(self).active,
            final(self).circuit == old(self).circuit,
            final(self).cooldown == old(self).cooldown,
            (exists|k: int|
                0 <= k < old(self).queue@.len() && work_album(work_view(#[trigger] old(self).queue@[k]))
                    == id.0@) ==> work_views(final(self).queue@) == work_views(old(self).queue@),
            !(exists|k: int|
                0 <= k < old(self).queue@.len() && work_album(work_view(#[trigger] old(self).queue@[k]))
                    == id.0@) ==> work_views(final(self).queue@) == work_views(old(self).queue@).push(
                WorkView::Album(id.0@),
            ),
    {
        if !self.holds(false, &id) {
            let ghost before = work_views(self.queue@);
            let ghost v = id.0@;
            self.queue.push(Work::Album(id));
            assert(work_views(self.queue@) =~= before.push(WorkView::Album(v)));
        }
    }

    /// Queue a Recording enrichment of an Album unless one is already queued.
    pub fn enqueue_recordings(&mut self, id: AlbumId)
        ensures
            final(self).active == old(self).active,
            final(self).circuit == old(self).circuit,
            final(self).cooldown == old(self).cooldown,
            (exists|k: int|
                0 <= k < old(self).queue@.len() && work_view(#[trigger] old(self).queue@[k])
                    == WorkView::Recordings(id.0@)) ==> work_views(final(self).queue@) == work_views(
                old(self).queue@,
            ),
            !(exists|k: int|
                0 <= k < old(self).queue@.len() && work_view(#[trigger] old(self).queue@[k])
                    == WorkView::Recordings(id.0@)) ==> work_views(final(self).queue@) == work_views(
                old(self).queue@,
            ).push(WorkView::Recordings(id.0@)),
    {
        if !self.holds(true, &id) {
            let ghost before = work_views(self.queue@);
            let ghost v = id.0@;
            self.queue.push(Work::Recordings(id));
            assert(work_views(self.queue@) =~= before.push(WorkView::Recordings(v)));
        }
    }

    /// Work may go to the provider only when none is in flight, and while the
    /// provider is unavailable only as an explicit probe.
    pub fn may_dispatch(&self, probe: bool) -> (r: bool)
        ensures
            r == (!self.active && (probe || self.circuit == CircuitState::Available)),
    {
        !self.active && (probe || match self.circuit {
            CircuitState::Available => true,
            CircuitState::Unavailable(_) => false,
        })
    }

    /// Queued work plus the one in flight.
    pub fn pending_count(&self) -> (r: usize)
        requires
            self.queue@.len() < usize::MAX,
        ensures
            r == self.queue@.len() + if self.active {
                1int
            } else {
                0int
            },
    {
        self.queue.len() + if self.active {
            1
        } else {
            0
        }
    }

    /// A probe is with an unavailable provider.
    pub fn probe_pending(&self) -> (r: bool)
        ensures
            r == (self.active && self.circuit is Unavailable),
    {
        self.active && match self.circuit {
            CircuitState::Available => false,
            CircuitState::Unavailable(_) => true,
        }
    }

    /// A reply came back. A provider outage marks the provider unavailable,
    /// puts the work back at the front and arms the cooldown (at `now`, in
    /// milliseconds); any other reply makes it available again and forgets
    /// past failures.
    pub fn settle(&mut self, outage: Option<CatalogError>, retry: Work, now: u64) -> (r: Option<
        RetrySchedule,
    >)
        ensures
            !final(self).active,
            match outage {
                Some(e) => {
                    &&& final(self).circuit == CircuitState::Unavailable(e)
                    &&& work_views(final(self).queue@) == seq![work_view(retry)] + work_views(
                        old(self).queue@,
                    )
                    &&& r == final(self).cooldown.scheduled_spec()
                    &&& r matches Some(s) && s.delay == max_u64(
                        backoff(old(self).cooldown.failures_spec()),
                        bounded_request(e, now),
                    )
                },
                None => {
                    &&& final(self).circuit == CircuitState::Available
                    &&& final(self).queue@ == old(self).queue@
                    &&& final(self).cooldown.failures_spec() == 0
                    &&& final(self).cooldown.scheduled_spec() is None
                    &&& r is None
                },
            },
    {
        self.active = false;
        match outage {
            Some(e) => {
                let schedule = self.cooldown.arm(&e, now);
                let ghost before = work_views(self.queue@);
                let ghost rv = work_view(retry);
                self.queue.insert(0, retry);
                assert(work_views(self.queue@) =~= seq![rv] + before);
                self.circuit = CircuitState::Unavailable(e);
                Some(schedule)
            },
            None => {
                self.circuit = CircuitState::Available;
                self.cooldown.reset();
                None
            },
        }
    }

    /// An explicit retry probes an unavailable provider at once, invalidating
    /// the scheduled automatic callback; otherwise nothing happens.
    pub fn retry_now(&mut self) -> (r: bool)
        ensures
            r == (old(self).circuit is Unavailable && !old(self).active),
            final(self).queue@ == old(self).queue@,
            final(self).circuit == old(self).circuit,
            final(self).active == old(self).active,
            r ==> final(self).cooldown.scheduled_spec() is None && final(self).cooldown.failures_spec()
                == old(self).cooldown.failures_spec(),
            !r ==> final(self).cooldown == old(self).cooldown,
    {
        let unavailable = match self.circuit {
            CircuitState::Available => false,
            CircuitState::Unavailable(_) => true,
        };
        if unavailable && !self.active {
            self.cooldown.cancel();
            true
        } else {
            false
        }
    }

    /// A timer callback is current only for the armed schedule's token; stale
    /// ones are harmless.
    pub fn callback_current(&self, token: u64) -> (r: bool)
        ensures
            r == (self.cooldown.scheduled_spec() matches Some(s) && s.token == token),
    {
        match self.cooldown.scheduled() {
            Some(s) => s.token == token,
            None => false,
        }
    }
}

/// A candidate credited exactly to `artist` as a MusicBrainz release group.
pub open spec fn credited_group(c: AlbumCandidateView, artist: IdentityView) -> bool {
    c.artist_ids == seq![artist] && mb_identity(c.identity, "release_group"@)
}

proof fn lemma_pool_members(items: Seq<AlbumCandidateView>, artist: IdentityView, c: AlbumCandidateView)
    requires
        album_pool(items, artist).contains(c),
    ensures
        items.contains(c),
        credited_group(c, artist),
    decreases items.len(),
{
    if items.len() > 0 {
        let rest = items.drop_last();
        let pool = album_pool(rest, artist);
        if pool.contains(c) {
            lemma_pool_members(rest, artist, c);
            let k = choose|k: int| 0 <= k < rest.len() && rest[k] == c;
            assert(items[k] == c);
        } else {
            let k = choose|k: int|
                0 <= k < album_pool(items, artist).len() && album_pool(items, artist)[k] == c;
            assert(album_pool(items, artist) != pool);
            assert(k == pool.len());
            assert(items[items.len() - 1] == c);
        }
    }
}

/// The candidates an ambiguous verdict lists all come from the page.
pub proof fn lemma_ambiguous_on_page(
    title: Seq<char>,
    artist: IdentityView,
    items: Seq<AlbumCandidateView>,
    complete: bool,
    manual: bool,
)
    ensures
        album_verdict(title, artist, items, complete, manual) matches AlbumVerdict::Ambiguous(s) ==> forall|x: AlbumCandidateView|
            #[trigger] s.contains(x) ==> items.contains(x),
{
    if album_verdict(title, artist, items, complete, manual) is Ambiguous {
        let pool = album_pool(items, artist);
        let exact = pool.filter(exact_pred(title));
        let variants = if exact.len() == 0 {
            title_variants(title)
        } else {
            Seq::empty()
        };
        let structural = pool.filter(structural_pred(variants));
        let close = pool.filter(close_pred(title, manual));
        let plausible = if exact.len() > 0 {
            exact
        } else if structural.len() > 0 {
            structural
        } else {
            close
        };
        assert forall|x: AlbumCandidateView| #[trigger] plausible.contains(x) implies items.contains(x) by {
            if exact.len() > 0 {
                pool.lemma_filter_contains_rev(exact_pred(title), x);
            } else if structural.len() > 0 {
                pool.lemma_filter_contains_rev(structural_pred(variants), x);
            } else {
                pool.lemma_filter_contains_rev(close_pred(title, manual), x);
            }
            lemma_pool_members(items, artist, x);
        }
    }
}

/// What an Album verdict rests on: no MusicBrainz Artist, no match; an
/// incomplete page is never decided; an accepted Album identity is one of
/// the page's candidates, a MusicBrainz release group credited exactly to
/// the Artist.
pub proof fn lemma_album_verdict_grounds(
    title: Seq<char>,
    artist: IdentityView,
    items: Seq<AlbumCandidateView>,
    complete: bool,
    manual: bool,
)
    ensures
        !mb_identity(artist, "artist"@) ==> album_verdict(title, artist, items, complete, manual) is NoMatch,
        mb_identity(artist, "artist"@) && !complete ==> album_verdict(title, artist, items, complete, manual) is Ambiguous,
        album_verdict(title, artist, items, complete, manual) is Exact || album_verdict(
            title,
            artist,
            items,
            complete,
            manual,
        ) is Close ==> complete && exists|k: int|
            0 <= k < items.len() && (#[trigger] items[k]).identity == match album_verdict(
                title,
                artist,
                items,
                complete,
                manual,
            ) {
                AlbumVerdict::Exact(id) => id,
                AlbumVerdict::Close(id) => id,
                _ => items[k].identity,
            } && credited_group(items[k], artist),
{
    let v = album_verdict(title, artist, items, complete, manual);
    if mb_identity(artist, "artist"@) && (v is Exact || v is Close) {
        let pool = album_pool(items, artist);
        let exact = pool.filter(exact_pred(title));
        let variants = if exact.len() == 0 {
            title_variants(title)
        } else {
            Seq::empty()
        };
        let structural = pool.filter(structural_pred(variants));
        let plausible = if exact.len() > 0 {
            exact
        } else if structural.len() > 0 {
            structural
        } else {
            pool.filter(close_pred(title, manual))
        };
        let c = plausible[0];
        assert(plausible.contains(c));
        if exact.len() > 0 {
            pool.lemma_filter_contains_rev(exact_pred(title), c);
        } else if structural.len() > 0 {
            pool.lemma_filter_contains_rev(structural_pred(variants), c);
        } else {
            pool.lemma_filter_contains_rev(close_pred(title, manual), c);
        }
        lemma_pool_members(items, artist, c);
        let k = choose|k: int| 0 <= k < items.len() && items[k] == c;
        assert(items[k].identity == c.identity);
    }
}

proof fn lemma_artist_pool_members(items: Seq<ArtistCandidateView>, c: ArtistCandidateView)
    requires
        artist_pool(items).contains(c),
    ensures
        items.contains(c),
        mb_identity(c.identity, "artist"@),
    decreases items.len(),
{
    if items.len() > 0 {
        let rest = items.drop_last();
        let pool = artist_pool(rest);
        if pool.contains(c) {
            lemma_artist_pool_members(rest, c);
            let k = choose|k: int| 0 <= k < rest.len() && rest[k] == c;
            assert(items[k] == c);
        } else {
            let k = choose|k: int| 0 <= k < artist_pool(items).len() && artist_pool(items)[k] == c;
            assert(artist_pool(items) != pool);
            assert(k == pool.len());
            assert(items[items.len() - 1] == c);
        }
    }
}

/// What resolving an Artist rests on: an incomplete page never resolves; a
/// resolved identity is a MusicBrainz Artist of the page whose normalized
/// name or alias is the searched name's.
pub proof fn lemma_artist_verdict_grounds(
    name: Seq<char>,
    items: Seq<ArtistCandidateView>,
    complete: bool,
)
    ensures
        !complete ==> !(artist_verdict(name, items, complete) is Resolved),
        artist_verdict(name, items, complete) matches ArtistVerdict::Resolved(id) ==> exists|k: int|
            0 <= k < items.len() && (#[trigger] items[k]).identity == id && mb_identity(
                id,
                "artist"@,
            ) && names_match(items[k], normalized(name)),
{
    if artist_verdict(name, items, complete) is Resolved {
        let key = normalized(name);
        let pool = artist_pool(items);
        let exact = pool.filter(exact_artist_pred(key));
        let c = exact[0];
        assert(exact.contains(c));
        pool.lemma_filter_contains_rev(exact_artist_pred(key), c);
        assert(names_match(c, key)) by {
            broadcast use vstd::seq_lib::group_filter_ensures;

        }
        lemma_artist_pool_members(items, c);
        let k = choose|k: int| 0 <= k < items.len() && items[k] == c;
        assert(items[k].identity == c.identity);
    }
}

/// Album evidence may settle an Artist among the supplied candidates, never
/// add one: the chosen Artist is one of them, its name or an alias is the
/// local Artist's, and the Album matches it alone.
pub proof fn lemma_corroboration_chooses_a_candidate(
    local_artist: Seq<char>,
    title: Seq<char>,
    candidates: Seq<ArtistCandidateView>,
    items: Seq<AlbumCandidateView>,
)
    ensures
        corroboration(local_artist, title, candidates, items).0 matches Some(c) ==> candidates.contains(c)
            && names_match(c, normalized(local_artist)) && (album_verdict(
            title,
            c.identity,
            items,
            true,
            false,
        ) is Exact || album_verdict(title, c.identity, items, true, false) is Close),
{
    let ev = evidence(title, candidates, items);
    let supported = supported_only(ev);
    if corroboration(local_artist, title, candidates, items).0 is Some {
        let x = supported[0];
        assert(supported.contains(x));
        ev.lemma_filter_contains_rev(|x: (ArtistCandidateView, bool)| x.1, x);
        let k = choose|k: int| 0 <= k < ev.len() && ev[k] == x;
        assert(candidates[k] == x.0);
    }
}

/// No earlier candidate carries the identity of candidate `k`.
pub open spec fn first_of_identity(items: Seq<ArtistCandidateView>, k: int) -> bool {
    forall|j: int| 0 <= j < k ==> (#[trigger] items[j]).identity != items[k].identity
}

/// A first candidate of its identity that is a MusicBrainz Artist.
pub open spec fn eligible_artist_at(items: Seq<ArtistCandidateView>, k: int) -> bool {
    0 <= k < items.len() && mb_identity(items[k].identity, "artist"@) && first_of_identity(items, k)
}

proof fn lemma_pool_has_artist(items: Seq<ArtistCandidateView>, id: IdentityView)
    ensures
        pool_has_artist(artist_pool(items), id) <==> exists|k: int|
            0 <= k < items.len() && mb_identity(items[k].identity, "artist"@) && (#[trigger] items[k]).identity
                == id,
    decreases items.len(),
{
    if items.len() > 0 {
        let rest = items.drop_last();
        let x = items.last();
        let n = items.len() - 1;
        lemma_pool_has_artist(rest, id);
        lemma_pool_has_artist(rest, x.identity);
        let pr = artist_pool(rest);
        let added = mb_identity(x.identity, "artist"@) && !pool_has_artist(pr, x.identity);
        if pool_has_artist(artist_pool(items), id) {
            let i = choose|i: int|
                0 <= i < artist_pool(items).len() && (#[trigger] artist_pool(items)[i]).identity == id;
            if i < pr.len() {
                assert(artist_pool(items)[i] == pr[i]);
                let k = choose|k: int|
                    0 <= k < rest.len() && mb_identity(rest[k].identity, "artist"@) && (#[trigger] rest[k]).identity
                        == id;
                assert(items[k] == rest[k]);
            } else {
                assert(items[n].identity == id);
            }
        }
        if exists|k: int|
            0 <= k < items.len() && mb_identity(items[k].identity, "artist"@) && (#[trigger] items[k]).identity == id {
            let k = choose|k: int|
                0 <= k < items.len() && mb_identity(items[k].identity, "artist"@) && (#[trigger] items[k]).identity
                    == id;
            if k < n {
                assert(rest[k] == items[k]);
                let i = choose|i: int| 0 <= i < pr.len() && (#[trigger] pr[i]).identity == id;
                if added {
                    assert(artist_pool(items)[i] == pr[i]);
                }
            } else if added {
                assert(artist_pool(items)[pr.len() as int] == x);
            }
        }
    }
}

proof fn lemma_last_eligible(items: Seq<ArtistCandidateView>)
    requires
        items.len() > 0,
    ensures
        eligible_artist_at(items, items.len() - 1) == (mb_identity(items.last().identity, "artist"@)
            && !pool_has_artist(artist_pool(items.drop_last()), items.last().identity)),
{
    let rest = items.drop_last();
    let x = items.last();
    let n = items.len() - 1;
    lemma_pool_has_artist(rest, x.identity);
    if pool_has_artist(artist_pool(rest), x.identity) {
        let k = choose|k: int|
            0 <= k < rest.len() && mb_identity(rest[k].identity, "artist"@) && (#[trigger] rest[k]).identity
                == x.identity;
        assert(items[k] == rest[k]);
    } else if mb_identity(x.identity, "artist"@) {
        assert forall|j: int| 0 <= j < n implies (#[trigger] items[j]).identity != items[n].identity by {
            assert(items[j] == rest[j]);
        }
    }
}

#[verifier::spinoff_prover]
proof fn lemma_artist_pool_is_first(items: Seq<ArtistCandidateView>, c: ArtistCandidateView)
    ensures
        artist_pool(items).contains(c) <==> exists|k: int| eligible_artist_at(items, k) && #[trigger] items[k] == c,
    decreases items.len(),
{
    if items.len() > 0 {
        let rest = items.drop_last();
        let x = items.last();
        let n = items.len() - 1;
        lemma_artist_pool_is_first(rest, c);
        lemma_last_eligible(items);
        let pr = artist_pool(rest);
        let added = mb_identity(x.identity, "artist"@) && !pool_has_artist(pr, x.identity);
        if artist_pool(items).contains(c) {
            if pr.contains(c) {
                let k = choose|k: int| eligible_artist_at(rest, k) && #[trigger] rest[k] == c;
                assert(items[k] == rest[k]);
                assert forall|j: int| 0 <= j < k implies (#[trigger] items[j]).identity != items[k].identity by {
                    assert(items[j] == rest[j]);
                }
            } else {
                let i = choose|i: int| 0 <= i < artist_pool(items).len() && artist_pool(items)[i] == c;
                assert(added);
                assert(artist_pool(items) == pr.push(x));
                assert(i == pr.len());
                assert(items[n] == c);
            }
        }
        if exists|k: int| eligible_artist_at(items, k) && #[trigger] items[k] == c {
            let k = choose|k: int| eligible_artist_at(items, k) && #[trigger] items[k] == c;
            if k < n {
                assert(rest[k] == items[k]);
                assert forall|j: int| 0 <= j < k implies (#[trigger] rest[j]).identity != rest[k].identity by {
                    assert(items[j] == rest[j]);
                }
                assert(pr.contains(c));
                let i = choose|i: int| 0 <= i < pr.len() && pr[i] == c;
                if added {
                    assert(artist_pool(items)[i] == c);
                }
            } else {
                assert(artist_pool(items) == pr.push(x));
                assert(artist_pool(items)[pr.len() as int] == c);
            }
        }
    }
}

/// An Artist resolves only when it is the one MusicBrainz Artist of the page,
/// among the first candidates of each identity, whose normalized name or
/// alias is the searched name's; no such candidate at all gives no match.
pub proof fn lemma_artist_verdict_unique(name: Seq<char>, items: Seq<ArtistCandidateView>, complete: bool)
    ensures
        artist_verdict(name, items, complete) matches ArtistVerdict::Resolved(id) ==> forall|k: int|
            eligible_artist_at(items, k) && names_match(#[trigger] items[k], normalized(name)) ==> items[k].identity
                == id,
        (artist_verdict(name, items, complete) is NoMatch) <==> !exists|k: int|
            eligible_artist_at(items, k) && names_match(#[trigger] items[k], normalized(name)),
{
    let key = normalized(name);
    let pool = artist_pool(items);
    let exact = pool.filter(exact_artist_pred(key));
    assert forall|k: int| eligible_artist_at(items, k) && names_match(#[trigger] items[k], key) implies exact.contains(
        items[k],
    ) by {
        lemma_artist_pool_is_first(items, items[k]);
        assert(pool.contains(items[k]));
        let i = choose|i: int| 0 <= i < pool.len() && pool[i] == items[k];
        pool.lemma_filter_contains(exact_artist_pred(key), i);
    }
    if exact.len() > 0 {
        let c = exact[0];
        assert(exact.contains(c));
        pool.lemma_filter_contains_rev(exact_artist_pred(key), c);
        assert(names_match(c, key)) by {
            broadcast use vstd::seq_lib::group_filter_ensures;

        }
        lemma_artist_pool_is_first(items, c);
        let k = choose|k: int| eligible_artist_at(items, k) && #[trigger] items[k] == c;
        assert(names_match(items[k], key));
    }
    if exact.len() == 1 {
        assert forall|k: int| eligible_artist_at(items, k) && names_match(#[trigger] items[k], key) implies items[k].identity
            == exact[0].identity by {
            assert(exact.contains(items[k]));
        }
    }
}

pub open spec fn candidates_of(s: Seq<(ArtistCandidateView, bool)>) -> Seq<ArtistCandidateView> {
    s.map_values(|x: (ArtistCandidateView, bool)| x.0)
}

proof fn lemma_insert_ranked_keeps(s: Seq<(ArtistCandidateView, bool)>, x: (ArtistCandidateView, bool))
    ensures
        candidates_of(insert_ranked(s, x)).to_multiset() =~= candidates_of(s).to_multiset().insert(x.0),
    decreases s.len(),
{
    broadcast use vstd::seq_lib::group_to_multiset_ensures, vstd::multiset::group_multiset_axioms;

    let c = candidates_of(s);
    if s.len() == 0 {
        assert(candidates_of(insert_ranked(s, x)) =~= c.push(x.0));
    } else if ranks_before(x, s[0]) {
        assert(candidates_of(insert_ranked(s, x)) =~= seq![x.0] + c);
        vstd::seq_lib::lemma_multiset_commutative(seq![x.0], c);
        assert(seq![x.0] =~= Seq::<ArtistCandidateView>::empty().push(x.0));
    } else {
        let t = s.drop_first();
        lemma_insert_ranked_keeps(t, x);
        let head = seq![s[0].0];
        assert(head =~= Seq::<ArtistCandidateView>::empty().push(s[0].0));
        assert(candidates_of(insert_ranked(s, x)) =~= head + candidates_of(insert_ranked(t, x)));
        assert(c =~= head + candidates_of(t));
        vstd::seq_lib::lemma_multiset_commutative(head, candidates_of(insert_ranked(t, x)));
        vstd::seq_lib::lemma_multiset_commutative(head, candidates_of(t));
    }
}

proof fn lemma_ranked_keeps(s: Seq<(ArtistCandidateView, bool)>)
    ensures
        candidates_of(ranked(s)).to_multiset() =~= candidates_of(s).to_multiset(),
    decreases s.len(),
{
    broadcast use vstd::seq_lib::group_to_multiset_ensures, vstd::multiset::group_multiset_axioms;

    if s.len() > 0 {
        lemma_ranked_keeps(s.drop_last());
        lemma_insert_ranked_keeps(ranked(s.drop_last()), s.last());
        assert(candidates_of(s) =~= candidates_of(s.drop_last()).push(s.last().0));
    }
}

/// Without a settled Artist every supplied candidate stays, each as often as
/// supplied: the list is a reordering of the candidates.
pub proof fn lemma_corroboration_keeps_candidates(
    local_artist: Seq<char>,
    title: Seq<char>,
    candidates: Seq<ArtistCandidateView>,
    items: Seq<AlbumCandidateView>,
)
    ensures
        corroboration(local_artist, title, candidates, items).0 is None ==> corroboration(
            local_artist,
            title,
            candidates,
            items,
        ).1.to_multiset() =~= candidates.to_multiset(),
{
    let ev = evidence(title, candidates, items);
    lemma_ranked_keeps(ev);
    assert(candidates_of(ev) =~= candidates);
    assert(ranked(ev).map_values(|x: (ArtistCandidateView, bool)| x.0) =~= candidates_of(ranked(ev)));
}

/// The most Artists a session remembers by name.
pub const ARTIST_CACHE_SIZE: usize = 64;

/// Artists resolved independently, by a complete primary or alias search,
/// remembered by the name searched for the rest of the session. The cache is
/// bounded: once full, it starts over.
pub struct ArtistCache {
    names: Vec<String>,
    ids: Vec<ExternalIdentity>,
    map: Ghost<Map<Seq<char>, IdentityView>>,
}

impl ArtistCache {
    /// The remembered Artist identity of each name.
    pub closed spec fn view(&self) -> Map<Seq<char>, IdentityView> {
        self.map@
    }

    /// How many names are remembered.
    pub closed spec fn count(&self) -> nat {
        self.names@.len()
    }

    pub closed spec fn wf(&self) -> bool {
        &&& self.names@.len() == self.ids@.len()
        &&& self.names@.len() <= ARTIST_CACHE_SIZE
        &&& forall|a: int, b: int|
            0 <= a < b < self.names@.len() ==> (#[trigger] self.names@[a])@ != (
            #[trigger] self.names@[b])@
        &&& forall|k: Seq<char>|
            #[trigger] self.map@.contains_key(k) <==> exists|i: int|
                0 <= i < self.names@.len() && (#[trigger] self.names@[i])@ == k
        &&& forall|i: int|
            0 <= i < self.names@.len() ==> self.map@[(#[trigger] self.names@[i])@]
                == self.ids@[i]@
    }

    pub fn new() -> (r: Self)
        ensures
            r.wf(),
            r.view() == Map::<Seq<char>, IdentityView>::empty(),
            r.count() == 0,
    {
        ArtistCache { names: Vec::new(), ids: Vec::new(), map: Ghost(Map::empty()) }
    }

    fn position(&self, name: &str) -> (r: Option<usize>)
        requires
            self.wf(),
        ensures
            match r {
                Some(i) => i < self.names@.len() && self.names@[i as int]@ == name@,
                None => forall|i: int| 0 <= i < self.names@.len() ==> (#[trigger] self.names@[i])@ != name@,
            },
    {
        let mut i: usize = 0;
        while i < self.names.len()
            invariant
                i <= self.names@.len(),
                forall|j: int| 0 <= j < i ==> (#[trigger] self.names@[j])@ != name@,
            decreases self.names.len() - i,
        {
            if str_eq(self.names[i].as_str(), name) {
                return Some(i);
            }
            i = i + 1;
        }
        None
    }

    /// The Artist remembered for `name`, if any.
    pub fn get(&self, name: &str) -> (r: Option<ExternalIdentity>)
        requires
            self.wf(),
        ensures
            match r {
                Some(id) => self.view().contains_key(name@) && self.view()[name@] == id@,
                None => !self.view().contains_key(name@),
            },
    {
        match self.position(name) {
            Some(i) => Some(self.ids[i].clone()),
            None => None,
        }
    }

    /// Remember `id` for `name`; a full cache forgets everything first.
    pub fn remember(&mut self, name: &str, id: ExternalIdentity)
        requires
            old(self).wf(),
        ensures
            final(self).wf(),
            final(self).view() == (if old(self).count() == ARTIST_CACHE_SIZE {
                Map::<Seq<char>, IdentityView>::empty()
            } else {
                old(self).view()
            }).insert(name@, id@),
            final(self).count() <= ARTIST_CACHE_SIZE,
    {
        if self.names.len() == ARTIST_CACHE_SIZE {
            self.names.clear();
            self.ids.clear();
            self.map = Ghost(Map::empty());
        }
        let ghost before = self.map@;
        match self.position(name) {
            Some(i) => {
                self.map = Ghost(before.insert(name@, id@));
                self.ids.set(i, id);
                assert forall|k: Seq<char>|
                    #[trigger] self.map@.contains_key(k) <==> exists|j: int|
                        0 <= j < self.names@.len() && (#[trigger] self.names@[j])@ == k by {
                    if k == name@ {
                        assert(self.names@[i as int]@ == k);
                    }
                }
            },
            None => {
                proof {
                    assert(!before.contains_key(name@));
                }
                let ghost old_names = self.names@;
                self.map = Ghost(before.insert(name@, id@));
                self.names.push(name.to_owned());
                self.ids.push(id);
                assert forall|k: Seq<char>|
                    #[trigger] self.map@.contains_key(k) <==> exists|j: int|
                        0 <= j < self.names@.len() && (#[trigger] self.names@[j])@ == k by {
                    if k == name@ {
                        assert(self.names@[old_names.len() as int]@ == k);
                    } else if before.contains_key(k) {
                        let j = choose|j: int| 0 <= j < old_names.len() && (#[trigger] old_names[j])@ == k;
                        assert(self.names@[j] == old_names[j]);
                    } else if exists|j: int| 0 <= j < self.names@.len() && (#[trigger] self.names@[j])@ == k {
                        let j = choose|j: int| 0 <= j < self.names@.len() && (#[trigger] self.names@[j])@ == k;
                        assert(j < old_names.len());
                        assert(old_names[j]@ == k);
                    }
                }
            },
        }
    }
}

// ---------------------------------------------------------------------------
// The matching worker's decisions.

/// Where one Album match stands in the worker: idle; waiting for the Artist
/// search; waiting for the Albums of several plausible Artists; or waiting
/// for the Albums of a resolved Artist.
pub enum MatcherState {
    Idle,
    SearchingArtist(MatchInput),
    Corroborating(MatchInput, Vec<ArtistCandidate>),
    ReadingAlbums(MatchInput, ExternalIdentity),
}

/// What reaches the worker: a match to make, or the provider's answer.
pub enum MatcherEvent {
    Match(MatchInput),
    Artists(Result<Page<ArtistCandidate>, CatalogError>),
    Albums(Result<Page<ArtistAlbumCandidate>, CatalogError>),
}

/// What the worker does next: ask the provider, reply, or ignore an answer
/// nothing waits for.
pub enum MatcherAction {
    SearchArtists(String),
    AlbumsForArtists(Vec<ExternalIdentity>, String),
    ArtistAlbums { artist: ExternalIdentity, title: String, confirmed: bool },
    Reply(MatchReply),
    Ignore,
}

/// A provider failure as an outcome: outages defer, other errors report.
pub open spec fn failure_outcome(e: CatalogError, o: MatchOutcome) -> bool {
    &&& crate::catalog::provider_unavailable(e) ==> o == MatchOutcome::Deferred(e)
    &&& !crate::catalog::provider_unavailable(e) ==> (o matches MatchOutcome::Error(m) && m@
        == crate::catalog::error_message(e))
}

/// The page candidate an outcome selected, if any.
pub open spec fn selected(outcome: MatchOutcome, items: Seq<AlbumCandidateView>, r: Option<ArtistAlbumCandidate>) -> bool {
    match matched_identity(outcome) {
        Some(id) => match first_with_identity(items, id) {
            Some(c) => r matches Some(v) && v@ == c,
            None => r is None,
        },
        None => r is None,
    }
}

/// The reply to Albums of several plausible Artists.
pub open spec fn corroborated(
    local_artist: Seq<char>,
    title: Seq<char>,
    cands: Seq<ArtistCandidateView>,
    items: Seq<AlbumCandidateView>,
    complete: bool,
    artist: Option<ExternalIdentity>,
    outcome: MatchOutcome,
) -> bool {
    &&& !complete ==> artist is None && (outcome matches MatchOutcome::ArtistAmbiguous(v) && artist_views(
        v@,
    ) == cands)
    &&& complete ==> ({
        let (chosen, all) = corroboration(local_artist, title, cands, items);
        match chosen {
            Some(c) => artist matches Some(id) && id@ == c.identity && reports(
                outcome,
                album_verdict(title, c.identity, items, true, false),
            ),
            None => artist is None && (outcome matches MatchOutcome::ArtistAmbiguous(v) && artist_views(v@)
                == all),
        }
    })
}

/// The Albums of a resolved Artist are asked for: confirmed ones when the
/// Artist was chosen by hand.
pub open spec fn asks_albums(a: MatcherAction, id: IdentityView, input: MatchInput) -> bool {
    a matches MatcherAction::ArtistAlbums { artist, title, confirmed } && artist@ == id && title@
        == input.title@ && confirmed == input.manual_artist
}

/// One step of the matching worker. A match starts from a known Artist, else
/// from one remembered by name, else from an Artist search. An Artist search
/// that resolves is remembered and its Albums are asked for; several
/// plausible Artists have the Albums of all of them asked for, and the pair
/// found there is never remembered; anything else is the reply. The Albums of
/// a resolved Artist are judged with the title; a provider failure is the
/// reply's outcome. An answer nothing waits for is ignored.
pub fn matcher_step(state: MatcherState, cache: &mut ArtistCache, event: MatcherEvent) -> (r: (
    MatcherState,
    MatcherAction,
))
    requires
        old(cache).wf(),
    ensures
        final(cache).wf(),
        match (state, event) {
            (MatcherState::Idle, MatcherEvent::Match(input)) => {
                &&& final(cache).view() == old(cache).view()
                &&& match input.known_artist {
                    Some(k) => r.0 == MatcherState::ReadingAlbums(input, k) && asks_albums(r.1, k@, input),
                    None => if old(cache).view().contains_key(input.artist@) {
                        r.0 matches MatcherState::ReadingAlbums(i, id) && i == input && id@ == old(cache).view()[input.artist@]
                            && asks_albums(r.1, id@, input)
                    } else {
                        r.0 == MatcherState::SearchingArtist(input) && (r.1 matches MatcherAction::SearchArtists(n)
                            && n@ == input.artist@)
                    },
                }
            },
            (MatcherState::SearchingArtist(input), MatcherEvent::Artists(Err(e))) => {
                &&& final(cache).view() == old(cache).view()
                &&& r.0 == MatcherState::Idle
                &&& r.1 matches MatcherAction::Reply(reply) && reply.input == input && reply.artist is None
                    && failure_outcome(e, reply.outcome) && reply.matched_album is None
            },
            (MatcherState::SearchingArtist(input), MatcherEvent::Artists(Ok(page))) => match artist_verdict(
                input.artist@,
                artist_views(page.items@),
                page.next_offset is None,
            ) {
                ArtistVerdict::Resolved(id) => {
                    &&& final(cache).view() == (if old(cache).count() == ARTIST_CACHE_SIZE {
                        Map::<Seq<char>, IdentityView>::empty()
                    } else {
                        old(cache).view()
                    }).insert(input.artist@, id)
                    &&& r.0 matches MatcherState::ReadingAlbums(i, rid) && i == input && rid@ == id
                    &&& asks_albums(r.1, id, input)
                },
                ArtistVerdict::Ambiguous(s) => {
                    &&& final(cache).view() == old(cache).view()
                    &&& s.len() > 0 ==> (r.0 matches MatcherState::Corroborating(i, cs) && i == input
                        && artist_views(cs@) == s) && (r.1 matches MatcherAction::AlbumsForArtists(ids, t)
                        && id_views(ids@) == s.map_values(|c: ArtistCandidateView| c.identity) && t@
                        == input.title@)
                    &&& s.len() == 0 ==> r.0 == MatcherState::Idle && (r.1 matches MatcherAction::Reply(reply)
                        && reply.input == input && reply.artist is None && (reply.outcome matches MatchOutcome::ArtistAmbiguous(
                        v) && v@.len() == 0) && reply.matched_album is None)
                },
                ArtistVerdict::NoMatch => {
                    &&& final(cache).view() == old(cache).view()
                    &&& r.0 == MatcherState::Idle
                    &&& r.1 matches MatcherAction::Reply(reply) && reply.input == input && reply.artist is None
                        && reply.outcome == MatchOutcome::NoConfidentMatch && reply.matched_album is None
                },
            },
            (MatcherState::Corroborating(input, cands), MatcherEvent::Albums(Err(e))) => {
                &&& final(cache).view() == old(cache).view()
                &&& r.0 == MatcherState::Idle
                &&& r.1 matches MatcherAction::Reply(reply) && reply.input == input && reply.artist is None
                    && failure_outcome(e, reply.outcome) && reply.matched_album is None
            },
            (MatcherState::Corroborating(input, cands), MatcherEvent::Albums(Ok(page))) => {
                &&& final(cache).view() == old(cache).view()
                &&& r.0 == MatcherState::Idle
                &&& r.1 matches MatcherAction::Reply(reply) && reply.input == input && corroborated(
                    input.artist@,
                    input.title@,
                    artist_views(cands@),
                    album_views(page.items@),
                    page.next_offset is None,
                    reply.artist,
                    reply.outcome,
                ) && selected(reply.outcome, album_views(page.items@), reply.matched_album)
            },
            (MatcherState::ReadingAlbums(input, id), MatcherEvent::Albums(Err(e))) => {
                &&& final(cache).view() == old(cache).view()
                &&& r.0 == MatcherState::Idle
                &&& r.1 matches MatcherAction::Reply(reply) && reply.input == input && reply.artist == Some(id)
                    && failure_outcome(e, reply.outcome) && reply.matched_album is None
            },
            (MatcherState::ReadingAlbums(input, id), MatcherEvent::Albums(Ok(page))) => {
                &&& final(cache).view() == old(cache).view()
                &&& r.0 == MatcherState::Idle
                &&& r.1 matches MatcherAction::Reply(reply) && reply.input == input && reply.artist == Some(id)
                    && reports(
                    reply.outcome,
                    album_verdict(
                        input.title@,
                        id@,
                        album_views(page.items@),
                        page.next_offset is None,
                        input.manual_artist,
                    ),
                ) && selected(reply.outcome, album_views(page.items@), reply.matched_album)
            },
            (other, _) => final(cache).view() == old(cache).view() && r.0 == other && r.1 is Ignore,
        },
{
    match (state, event) {
        (MatcherState::Idle, MatcherEvent::Match(input)) => {
            let start = match &input.known_artist {
                Some(k) => Some(k.clone()),
                None => cache.get(input.artist.as_str()),
            };
            match start {
                Some(id) => {
                    let action = MatcherAction::ArtistAlbums {
                        artist: id.clone(),
                        title: input.title.clone(),
                        confirmed: input.manual_artist,
                    };
                    (MatcherState::ReadingAlbums(input, id), action)
                },
                None => {
                    let action = MatcherAction::SearchArtists(input.artist.clone());
                    (MatcherState::SearchingArtist(input), action)
                },
            }
        },
        (MatcherState::SearchingArtist(input), MatcherEvent::Artists(Err(e))) => {
            let outcome = provider_outcome(e);
            (
                MatcherState::Idle,
                MatcherAction::Reply(MatchReply { input, artist: None, outcome, matched_album: None }),
            )
        },
        (MatcherState::SearchingArtist(input), MatcherEvent::Artists(Ok(page))) => {
            match resolve_artist(input.artist.as_str(), &page) {
                Ok(id) => {
                    cache.remember(input.artist.as_str(), id.clone());
                    let action = MatcherAction::ArtistAlbums {
                        artist: id.clone(),
                        title: input.title.clone(),
                        confirmed: input.manual_artist,
                    };
                    (MatcherState::ReadingAlbums(input, id), action)
                },
                Err(MatchOutcome::ArtistAmbiguous(cands)) => {
                    if cands.len() == 0 {
                        let outcome = MatchOutcome::ArtistAmbiguous(cands);
                        return (
                            MatcherState::Idle,
                            MatcherAction::Reply(MatchReply { input, artist: None, outcome, matched_album: None }),
                        );
                    }
                    let mut ids: Vec<ExternalIdentity> = Vec::new();
                    let mut k: usize = 0;
                    while k < cands.len()
                        invariant
                            k <= cands.len(),
                            id_views(ids@) == artist_views(cands@).take(k as int).map_values(
                                |c: ArtistCandidateView| c.identity,
                            ),
                        decreases cands.len() - k,
                    {
                        let ghost before = id_views(ids@);
                        ids.push(cands[k].identity.clone());
                        assert(id_views(ids@) =~= before.push(cands@[k as int].identity@));
                        assert(artist_views(cands@).take(k + 1) =~= artist_views(cands@).take(k as int).push(
                            cands@[k as int]@,
                        ));
                        assert(id_views(ids@) =~= artist_views(cands@).take(k + 1).map_values(
                            |c: ArtistCandidateView| c.identity,
                        ));
                        k = k + 1;
                    }
                    assert(artist_views(cands@).take(cands.len() as int) =~= artist_views(cands@));
                    let action = MatcherAction::AlbumsForArtists(ids, input.title.clone());
                    (MatcherState::Corroborating(input, cands), action)
                },
                Err(outcome) => (
                    MatcherState::Idle,
                    MatcherAction::Reply(MatchReply { input, artist: None, outcome, matched_album: None }),
                ),
            }
        },
        (MatcherState::Corroborating(input, cands), MatcherEvent::Albums(Err(e))) => {
            let outcome = provider_outcome(e);
            (
                MatcherState::Idle,
                MatcherAction::Reply(MatchReply { input, artist: None, outcome, matched_album: None }),
            )
        },
        (MatcherState::Corroborating(input, cands), MatcherEvent::Albums(Ok(page))) => {
            let (artist, outcome) = corroborate_artist_album(
                input.artist.as_str(),
                input.title.as_str(),
                cands.as_slice(),
                &page,
            );
            let matched = matched_album(&outcome, &page);
            (
                MatcherState::Idle,
                MatcherAction::Reply(MatchReply { input, artist, outcome, matched_album: matched }),
            )
        },
        (MatcherState::ReadingAlbums(input, id), MatcherEvent::Albums(Err(e))) => {
            let outcome = provider_outcome(e);
            (
                MatcherState::Idle,
                MatcherAction::Reply(MatchReply { input, artist: Some(id), outcome, matched_album: None }),
            )
        },
        (MatcherState::ReadingAlbums(input, id), MatcherEvent::Albums(Ok(page))) => {
            let outcome = accepted_album_confirmed(input.title.as_str(), &id, &page, input.manual_artist);
            let matched = matched_album(&outcome, &page);
            (
                MatcherState::Idle,
                MatcherAction::Reply(MatchReply { input, artist: Some(id), outcome, matched_album: matched }),
            )
        },
        (other, _) => (other, MatcherAction::Ignore),
    }
}

/// The Artist a match starts from: a known one, else one remembered by name.
pub fn starting_artist(known: &Option<ExternalIdentity>, cache: &ArtistCache, name: &str) -> (r:
    Option<ExternalIdentity>)
    requires
        cache.wf(),
    ensures
        match known {
            Some(k) => r == Some(*k),
            None => match r {
                Some(id) => cache.view().contains_key(name@) && cache.view()[name@] == id@,
                None => !cache.view().contains_key(name@),
            },
        },
{
    match known {
        Some(k) => Some(k.clone()),
        None => cache.get(name),
    }
}

/// A worker-side deadline with its callback token, in milliseconds.
#[derive(Debug, Default)]
pub struct WorkerTimer(pub Option<(u64, u64)>);

impl WorkerTimer {
    /// The token, once the deadline has passed; the timer then disarms.
    pub fn due(&mut self, now: u64) -> (r: Option<u64>)
        ensures
            match old(self).0 {
                Some((token, deadline)) => if now >= deadline {
                    r == Some(token) && final(self).0 is None
                } else {
                    r is None && final(self).0 == old(self).0
                },
                None => r is None && final(self).0 is None,
            },
    {
        match self.0 {
            Some((token, deadline)) => {
                if now >= deadline {
                    self.0 = None;
                    Some(token)
                } else {
                    None
                }
            },
            None => None,
        }
    }

    /// Time left until the deadline (zero once passed), if armed.
    pub fn remaining(&self, now: u64) -> (r: Option<u64>)
        ensures
            match self.0 {
                Some((_, deadline)) => r == Some(if deadline >= now {
                    (deadline - now) as u64
                } else {
                    0
                }),
                None => r is None,
            },
    {
        match self.0 {
            Some((_, deadline)) => Some(if deadline >= now {
                deadline - now
            } else {
                0
            }),
            None => None,
        }
    }
}

/// Each arming or cancellation invalidates the callback token issued before it.
pub proof fn lemma_generation_moves(g: u64)
    ensures
        next_generation(g) != g,
{
}

/// An armed retry waits at least 15 seconds and at most two minutes, however
/// long the provider asks to wait.
pub proof fn lemma_retry_delay_bounded(failures: u32, error: CatalogError, now: u64)
    ensures
        15_000 <= max_u64(backoff(failures), bounded_request(error, now)),
        max_u64(backoff(failures), bounded_request(error, now)) <= 120_000,
{
}

/// The backoff never shrinks as failures accumulate, and doubles up to its cap.
pub proof fn lemma_backoff_grows(failures: u32)
    ensures
        failures < u32::MAX ==> backoff(failures) <= backoff((failures + 1) as u32),
        failures < 3 ==> backoff((failures + 1) as u32) == 2 * backoff(failures),
        failures >= 3 ==> backoff(failures) == 120_000,
{
}

/// Closeness of Album titles does not depend on which title is the local one.
pub proof fn lemma_close_title_symmetric(left: Seq<char>, right: Seq<char>)
    ensures
        close_title(left, right) == close_title(right, left),
{
    let a = normalized(left);
    let b = normalized(right);
    crate::edit::lemma_lev_symmetric(a, b, a.len(), b.len());
}

/// Manual confirmation only widens the close-title rule: an exact match is
/// the same exact match with it, and where the page holds a valid candidate
/// with exactly the title, no close match is reported either way.
pub proof fn lemma_manual_only_widens_close_titles(
    title: Seq<char>,
    artist: IdentityView,
    items: Seq<AlbumCandidateView>,
    complete: bool,
)
    ensures
        album_verdict(title, artist, items, complete, false) is Exact ==> album_verdict(
            title,
            artist,
            items,
            complete,
            true,
        ) == album_verdict(title, artist, items, complete, false),
        album_pool(items, artist).filter(exact_pred(title)).len() > 0 ==> !(album_verdict(
            title,
            artist,
            items,
            complete,
            false,
        ) is Close) && !(album_verdict(title, artist, items, complete, true) is Close),
{
}

/// Close Album titles keep their version qualifiers, are never short, and
/// differ in length by at most one character once normalized: titles with
/// different qualifiers, or with a normalized title under five characters,
/// are never close.
pub proof fn lemma_close_title_rules(left: Seq<char>, right: Seq<char>)
    ensures
        close_title(left, right) ==> album_qualifiers(left) == album_qualifiers(right),
        close_title(left, right) ==> normalized(left).len() >= 5 && normalized(right).len() >= 5,
        close_title(left, right) ==> normalized(left).len() <= normalized(right).len() + 1
            && normalized(right).len() <= normalized(left).len() + 1,
        normalized(left) == normalized(right) && normalized(left).len() >= 5 && album_qualifiers(left)
            == album_qualifiers(right) ==> close_title(left, right),
{
    let a = normalized(left);
    let b = normalized(right);
    crate::edit::lemma_lev_at_least_gap(a, b, a.len(), b.len());
    if a == b {
        crate::edit::lemma_lev_same(a, a.len());
    }
}

} // verus!
