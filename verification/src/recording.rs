//! Provider-neutral Recording identity and conservative, Album-scoped enrichment.
use vstd::prelude::*;

use crate::catalog::{CatalogError, Page};
use crate::domain::{
    contains_identity, copy_identities, copy_strings, id_views, AlbumId, ExternalIdentity,
    IdentityView, RecordingId, TrackId,
};
use crate::matching::{normalize, normalized, usable, usable_text};
use crate::text::{first_occurrences, lemma_first_occurrences, str_eq, views};

verus! {

#[derive(Debug, PartialEq, Eq)]
pub struct Candidate {
    pub identity: ExternalIdentity,
    pub title: String,
    pub artist: String,
    pub artist_ids: Vec<ExternalIdentity>,
    pub duration_ms: Option<u64>,
    pub isrcs: Vec<String>,
}

#[derive(Debug, PartialEq, Eq)]
pub struct LocalTrack {
    pub track_id: TrackId,
    pub recording_id: RecordingId,
    pub title: String,
    pub artist: String,
    pub artist_ids: Vec<ExternalIdentity>,
    pub duration_ms: Option<u64>,
    pub known: bool,
}

#[derive(Debug, PartialEq, Eq)]
pub struct Input {
    pub album_id: AlbumId,
    pub group: ExternalIdentity,
    pub tracks: Vec<LocalTrack>,
}

#[derive(Debug, PartialEq, Eq)]
pub enum TrackOutcome {
    Matched(Candidate),
    AlreadyMatched,
    Ambiguous,
    NoConfidentMatch,
    Incomplete,
}

#[derive(Debug, PartialEq, Eq)]
pub enum Outcome {
    Pending,
    Complete(Vec<(LocalTrack, TrackOutcome)>),
    Deferred(CatalogError),
    Error(String),
}

#[derive(Debug)]
pub struct Reply {
    pub input: Input,
    pub result: Result<Page<Candidate>, CatalogError>,
}

/// Exact titles only. Three seconds allows minor encoder/silence boundaries;
/// any larger known duration disagreement vetoes the candidate.
pub const DURATION_TOLERANCE_MS: u64 = 3000;

pub struct CandidateView {
    pub identity: IdentityView,
    pub title: Seq<char>,
    pub artist: Seq<char>,
    pub artist_ids: Seq<IdentityView>,
    pub duration_ms: Option<u64>,
    pub isrcs: Seq<Seq<char>>,
}

impl View for Candidate {
    type V = CandidateView;

    open spec fn view(&self) -> CandidateView {
        CandidateView {
            identity: self.identity@,
            title: self.title@,
            artist: self.artist@,
            artist_ids: id_views(self.artist_ids@),
            duration_ms: self.duration_ms,
            isrcs: views(self.isrcs@),
        }
    }
}

impl Clone for Candidate {
    fn clone(&self) -> (r: Self)
        ensures
            r@ == self@,
    {
        Candidate {
            identity: self.identity.clone(),
            title: self.title.clone(),
            artist: self.artist.clone(),
            artist_ids: copy_identities(self.artist_ids.as_slice()),
            duration_ms: self.duration_ms,
            isrcs: copy_strings(self.isrcs.as_slice()),
        }
    }
}

pub open spec fn candidate_views(s: Seq<Candidate>) -> Seq<CandidateView> {
    s.map_values(|c: Candidate| c@)
}

pub enum TrackOutcomeView {
    Matched(CandidateView),
    AlreadyMatched,
    Ambiguous,
    NoConfidentMatch,
    Incomplete,
}

impl View for TrackOutcome {
    type V = TrackOutcomeView;

    open spec fn view(&self) -> TrackOutcomeView {
        match self {
            TrackOutcome::Matched(c) => TrackOutcomeView::Matched(c@),
            TrackOutcome::AlreadyMatched => TrackOutcomeView::AlreadyMatched,
            TrackOutcome::Ambiguous => TrackOutcomeView::Ambiguous,
            TrackOutcome::NoConfidentMatch => TrackOutcomeView::NoConfidentMatch,
            TrackOutcome::Incomplete => TrackOutcomeView::Incomplete,
        }
    }
}

/// A MusicBrainz Recording candidate with the same normalized title, no
/// duration disagreement beyond the tolerance, and agreeing Artist evidence:
/// equal identity lists when both have them, else no disagreement between
/// usable normalized names.
pub open spec fn recording_fits(t: LocalTrack, c: CandidateView) -> bool {
    &&& c.identity.provider == "musicbrainz"@
    &&& c.identity.kind == "recording"@
    &&& c.identity.external_id.len() > 0
    &&& normalized(t.title@) == normalized(c.title)
    &&& match (t.duration_ms, c.duration_ms) {
        (Some(a), Some(b)) => (if a >= b {
            a - b
        } else {
            b - a
        }) <= DURATION_TOLERANCE_MS,
        _ => true,
    }
    &&& if t.artist_ids@.len() > 0 && c.artist_ids.len() > 0 {
        id_views(t.artist_ids@) == c.artist_ids
    } else {
        !(usable_text(t.artist@) && usable_text(c.artist) && normalized(t.artist@) != normalized(
            c.artist,
        ))
    }
}

pub open spec fn fits_of(t: LocalTrack) -> spec_fn(CandidateView) -> bool {
    |c: CandidateView| recording_fits(t, c)
}

/// The outcome for a local track given one page of Recording candidates:
/// known tracks are left alone, incomplete pages decide nothing, and exactly
/// one distinct fitting identity is a match.
pub open spec fn recording_outcome(t: LocalTrack, page: Page<Candidate>) -> TrackOutcomeView {
    let fitting = candidate_views(page.items@).filter(fits_of(t));
    let ids = first_occurrences(fitting.map_values(|c: CandidateView| c.identity));
    if t.known {
        TrackOutcomeView::AlreadyMatched
    } else if page.next_offset is Some {
        TrackOutcomeView::Incomplete
    } else if ids.len() == 0 {
        TrackOutcomeView::NoConfidentMatch
    } else if ids.len() == 1 {
        TrackOutcomeView::Matched(fitting[0])
    } else {
        TrackOutcomeView::Ambiguous
    }
}

fn same_identities(a: &Vec<ExternalIdentity>, b: &Vec<ExternalIdentity>) -> (r: bool)
    ensures
        r == (id_views(a@) == id_views(b@)),
{
    if a.len() != b.len() {
        assert(id_views(a@).len() != id_views(b@).len());
        return false;
    }
    let mut i: usize = 0;
    while i < a.len()
        invariant
            i <= a.len(),
            a.len() == b.len(),
            forall|k: int| 0 <= k < i ==> (#[trigger] a@[k])@ == b@[k]@,
        decreases a.len() - i,
    {
        if !a[i].same(&b[i]) {
            assert(id_views(a@)[i as int] != id_views(b@)[i as int]);
            return false;
        }
        i = i + 1;
    }
    assert(id_views(a@) =~= id_views(b@));
    true
}

fn fits(track: &LocalTrack, c: &Candidate) -> (r: bool)
    ensures
        r == recording_fits(*track, c@),
{
    if !str_eq(c.identity.provider.as_str(), "musicbrainz") || !str_eq(
        c.identity.kind.as_str(),
        "recording",
    ) || c.identity.external_id.as_str().is_empty() || !(normalize(track.title.as_str())
        == normalize(c.title.as_str())) {
        return false;
    }
    match (track.duration_ms, c.duration_ms) {
        (Some(a), Some(b)) => {
            let gap = if a >= b {
                a - b
            } else {
                b - a
            };
            if gap > DURATION_TOLERANCE_MS {
                return false;
            }
        },
        _ => {},
    }
    if track.artist_ids.len() > 0 && c.artist_ids.len() > 0 {
        same_identities(&track.artist_ids, &c.artist_ids)
    } else {
        !(usable(track.artist.as_str()) && usable(c.artist.as_str()) && !(normalize(
            track.artist.as_str(),
        ) == normalize(c.artist.as_str())))
    }
}

/// Compare a local track with one page of Recording candidates.
pub fn compare(track: &LocalTrack, page: &Page<Candidate>) -> (r: TrackOutcome)
    ensures
        r@ == recording_outcome(*track, *page),
{
    if track.known {
        return TrackOutcome::AlreadyMatched;
    }
    if page.next_offset.is_some() {
        return TrackOutcome::Incomplete;
    }
    let ghost cv = candidate_views(page.items@);
    let ghost p = fits_of(*track);
    proof {
        crate::text::lemma_filter_empty(cv, p);
    }
    let mut kept: Vec<usize> = Vec::new();
    let mut fitting_first: Option<usize> = None;
    let mut i: usize = 0;
    while i < page.items.len()
        invariant
            i <= page.items.len(),
            cv == candidate_views(page.items@),
            p == fits_of(*track),
            kept@.map_values(|k: usize| cv[k as int].identity) == first_occurrences(
                cv.take(i as int).filter(p).map_values(|c: CandidateView| c.identity),
            ),
            forall|x: int| 0 <= x < kept@.len() ==> #[trigger] kept@[x] < i,
            match fitting_first {
                None => cv.take(i as int).filter(p).len() == 0,
                Some(f) => f < i && cv.take(i as int).filter(p).len() > 0 && cv.take(i as int).filter(
                    p,
                )[0] == cv[f as int],
            },
        decreases page.items.len() - i,
    {
        proof {
            crate::text::lemma_filter_step(cv, p, i as int);
        }
        let c = &page.items[i];
        assert(cv[i as int] == c@);
        if fits(track, c) {
            let ghost before = cv.take(i as int).filter(p);
            let ghost ids_before = before.map_values(|x: CandidateView| x.identity);
            assert(before.push(cv[i as int]).map_values(|x: CandidateView| x.identity)
                =~= ids_before.push(c@.identity));
            if fitting_first.is_none() {
                fitting_first = Some(i);
            }
            let mut seen = false;
            let mut k: usize = 0;
            while k < kept.len()
                invariant
                    k <= kept@.len(),
                    i < page.items.len(),
                    cv == candidate_views(page.items@),
                    forall|x: int| 0 <= x < kept@.len() ==> #[trigger] kept@[x] < i,
                    seen == exists|x: int| 0 <= x < k && cv[kept@[x] as int].identity == c@.identity,
                decreases kept@.len() - k,
            {
                let j = kept[k];
                assert(cv[j as int] == page.items@[j as int]@);
                if page.items[j].identity.same(&c.identity) {
                    seen = true;
                }
                k = k + 1;
            }
            let ghost kv = kept@.map_values(|k: usize| cv[k as int].identity);
            assert(seen == kv.contains(c@.identity)) by {
                if seen {
                    let x = choose|x: int| 0 <= x < kept@.len() && cv[kept@[x] as int].identity
                        == c@.identity;
                    assert(kv[x] == c@.identity);
                }
                if kv.contains(c@.identity) {
                    let x = choose|x: int| 0 <= x < kv.len() && kv[x] == c@.identity;
                    assert(cv[kept@[x] as int].identity == c@.identity);
                }
            }
            if !seen {
                kept.push(i);
                assert(kept@.map_values(|k: usize| cv[k as int].identity) =~= kv.push(c@.identity));
            }
            assert(ids_before.push(c@.identity).drop_last() =~= ids_before);
        }
        i = i + 1;
    }
    assert(cv.take(page.items.len() as int) =~= cv);
    if kept.len() == 1 {
        match fitting_first {
            Some(f) => TrackOutcome::Matched(page.items[f].clone()),
            None => TrackOutcome::NoConfidentMatch,
        }
    } else if kept.len() == 0 {
        TrackOutcome::NoConfidentMatch
    } else {
        TrackOutcome::Ambiguous
    }
}


/// A match is a candidate of a complete page for a track not yet matched: a
/// MusicBrainz Recording with an identifier, the track's normalized title,
/// no known duration more than three seconds from the track's, and Artist
/// evidence that agrees: equal identity lists when both sides carry artist
/// identities, otherwise no two usable normalized Artist names that differ.
pub proof fn lemma_match_fits(t: LocalTrack, page: Page<Candidate>)
    ensures
        recording_outcome(t, page) matches TrackOutcomeView::Matched(m) ==> {
            &&& !t.known
            &&& page.next_offset is None
            &&& exists|i: int| 0 <= i < page.items@.len() && (#[trigger] page.items@[i])@ == m
            &&& m.identity.provider == "musicbrainz"@
            &&& m.identity.kind == "recording"@
            &&& m.identity.external_id.len() > 0
            &&& normalized(t.title@) == normalized(m.title)
            &&& (t.duration_ms is Some && m.duration_ms is Some ==> t.duration_ms.unwrap()
                - m.duration_ms.unwrap() <= 3000 && m.duration_ms.unwrap() - t.duration_ms.unwrap()
                <= 3000)
            &&& (t.artist_ids@.len() > 0 && m.artist_ids.len() > 0 ==> id_views(t.artist_ids@)
                == m.artist_ids)
            &&& (t.artist_ids@.len() == 0 || m.artist_ids.len() == 0 ==> !usable_text(t.artist@)
                || !usable_text(m.artist) || normalized(t.artist@) == normalized(m.artist))
        },
{
    let cv = candidate_views(page.items@);
    let fitting = cv.filter(fits_of(t));
    let idents = fitting.map_values(|c: CandidateView| c.identity);
    lemma_first_occurrences(idents);
    if !t.known && page.next_offset is None && first_occurrences(idents).len() == 1 {
        assert(fitting.len() > 0);
        broadcast use vstd::seq_lib::group_filter_ensures;

        assert(fits_of(t)(fitting[0]));
        assert(cv.contains(fitting[0])) by {
            cv.lemma_filter_contains_rev(fits_of(t), fitting[0]);
        }
        let i = choose|i: int| 0 <= i < cv.len() && cv[i] == fitting[0];
        assert(page.items@[i]@ == fitting[0]);
    }
}

/// A complete page holding a single candidate for a track not yet matched
/// matches that candidate when it is a MusicBrainz Recording with an
/// identifier, the track's normalized title, no known duration more than
/// three seconds from the track's, and agreeing Artist evidence.
pub proof fn lemma_single_fitting_candidate_matches(t: LocalTrack, page: Page<Candidate>)
    requires
        !t.known,
        page.next_offset is None,
        page.items@.len() == 1,
        ({
            let m = page.items@[0]@;
            &&& m.identity.provider == "musicbrainz"@
            &&& m.identity.kind == "recording"@
            &&& m.identity.external_id.len() > 0
            &&& normalized(t.title@) == normalized(m.title)
            &&& (t.duration_ms is Some && m.duration_ms is Some ==> t.duration_ms.unwrap()
                - m.duration_ms.unwrap() <= 3000 && m.duration_ms.unwrap() - t.duration_ms.unwrap()
                <= 3000)
            &&& (t.artist_ids@.len() > 0 && m.artist_ids.len() > 0 ==> id_views(t.artist_ids@)
                == m.artist_ids)
            &&& (t.artist_ids@.len() == 0 || m.artist_ids.len() == 0 ==> !usable_text(t.artist@)
                || !usable_text(m.artist) || normalized(t.artist@) == normalized(m.artist))
        }),
    ensures
        recording_outcome(t, page) == TrackOutcomeView::Matched(page.items@[0]@),
{
    let cv = candidate_views(page.items@);
    let p = fits_of(t);
    assert(p(cv[0]));
    crate::text::lemma_filter_empty(cv, p);
    crate::text::lemma_filter_step(cv, p, 0);
    assert(cv.take(1) =~= cv);
    let fitting = cv.filter(p);
    assert(fitting =~= seq![cv[0]]);
    let idents = fitting.map_values(|c: CandidateView| c.identity);
    assert(idents =~= seq![cv[0].identity]);
    assert(idents.drop_last() =~= Seq::<IdentityView>::empty());
    assert(first_occurrences(idents.drop_last()) =~= Seq::<IdentityView>::empty());
}

} // verus!
