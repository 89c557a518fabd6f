//! Provider-neutral, bounded representation disambiguation inside a resolved Artist.
use vstd::prelude::*;

use crate::album_completion::copy_outcome;
use crate::album_matching::{
    accepted_album_confirmed, album_verdict, lemma_ambiguous_on_page, reports, AlbumVerdict,
    MatchOutcome,
};
use crate::album_program::{
    album_outcomes, any_incomplete, compare_album, comparison_key, comparison_title,
    disc_or_first, fit_of, local_ev_views, outcome_views, program_fit, program_views, Program,
    ProgramView, Programs, ProgramsView, TrackOutcome, TrackOutcomeView, usize_ints,
};
use crate::catalog::{album_views, AlbumCandidateView, ArtistAlbumCandidate, CatalogError, Page};
use crate::domain::{ExternalIdentity, IdentityView};
use crate::edition::{LocalTrackEvidence, LocalTrackView, TrackEvidence, TrackEvidenceView};
use crate::text::chars_eq;
use crate::text::chars_of;

verus! {

pub const MAX_PROGRAM_CANDIDATES: usize = 3;

/// Where a local track shows it belongs in a program: its disc and positive
/// number, or else its nonempty comparison title.
pub enum PresenceKey {
    Place(u32, u32),
    Title(Seq<char>),
}

pub open spec fn presence_by_title(t: TrackEvidenceView) -> Option<PresenceKey> {
    match t.title {
        Some(s) => if comparison_key(s).len() > 0 {
            Some(PresenceKey::Title(comparison_key(s)))
        } else {
            None
        },
        None => None,
    }
}

pub open spec fn presence_key(t: TrackEvidenceView) -> Option<PresenceKey> {
    match t.number {
        Some(n) => if n > 0 {
            Some(PresenceKey::Place(disc_or_first(t.disc), n))
        } else {
            presence_by_title(t)
        },
        None => presence_by_title(t),
    }
}

/// The presence keys of the local tracks, in order.
pub open spec fn presence_keys(local: Seq<LocalTrackView>) -> Seq<PresenceKey>
    decreases local.len(),
{
    if local.len() == 0 {
        Seq::empty()
    } else {
        presence_keys(local.drop_last()) + match presence_key(local.last().evidence) {
            Some(k) => seq![k],
            None => Seq::empty(),
        }
    }
}

/// The largest track number present, or zero.
pub open spec fn max_number(local: Seq<LocalTrackView>) -> nat
    decreases local.len(),
{
    if local.len() == 0 {
        0
    } else {
        let rest = max_number(local.drop_last());
        match local.last().evidence.number {
            Some(n) => if n > rest {
                n as nat
            } else {
                rest
            },
            None => rest,
        }
    }
}

/// A lower bound on the number of tracks a program must hold: the distinct
/// places and titles present, and the largest track number.
pub open spec fn required_count(local: Seq<LocalTrackView>) -> nat {
    let distinct = presence_keys(local).to_set().len();
    if distinct >= max_number(local) {
        distinct
    } else {
        max_number(local)
    }
}

enum Presence {
    Place(u32, u32),
    Title(Vec<char>),
}

impl View for Presence {
    type V = PresenceKey;

    closed spec fn view(&self) -> PresenceKey {
        match self {
            Presence::Place(d, n) => PresenceKey::Place(*d, *n),
            Presence::Title(t) => PresenceKey::Title(t@),
        }
    }
}

spec fn presence_views(s: Seq<Presence>) -> Seq<PresenceKey> {
    s.map_values(|p: Presence| p@)
}

fn same_presence(a: &Presence, b: &Presence) -> (r: bool)
    ensures
        r == (a@ == b@),
{
    match (a, b) {
        (Presence::Place(d1, n1), Presence::Place(d2, n2)) => *d1 == *d2 && *n1 == *n2,
        (Presence::Title(x), Presence::Title(y)) => chars_eq(x, y),
        _ => false,
    }
}

fn holds_presence(keys: &Vec<Presence>, key: &Presence) -> (r: bool)
    ensures
        r == presence_views(keys@).contains(key@),
{
    let mut j: usize = 0;
    while j < keys.len()
        invariant
            j <= keys.len(),
            forall|k: int| 0 <= k < j ==> (#[trigger] keys@[k])@ != key@,
        decreases keys.len() - j,
    {
        if same_presence(&keys[j], key) {
            assert(presence_views(keys@)[j as int] == key@);
            return true;
        }
        j = j + 1;
    }
    proof {
        if presence_views(keys@).contains(key@) {
            let k = choose|k: int| 0 <= k < keys@.len() && presence_views(keys@)[k] == key@;
            assert(keys@[k]@ == key@);
        }
    }
    false
}

fn presence_of(t: &TrackEvidence) -> (r: Option<Presence>)
    ensures
        match r {
            Some(p) => presence_key(t@) == Some(p@),
            None => presence_key(t@) is None,
        },
{
    match t.number {
        Some(n) => {
            if n > 0 {
                let disc = match t.disc {
                    Some(d) => d,
                    None => 1,
                };
                return Some(Presence::Place(disc, n));
            }
        },
        None => {},
    }
    match &t.title {
        Some(s) => {
            let key = chars_of(comparison_title(s.as_str()).as_str());
            if key.len() > 0 {
                Some(Presence::Title(key))
            } else {
                None
            }
        },
        None => None,
    }
}

/// A lower bound on the tracks a program must hold. Duplicate placements in
/// several local editions do not add to the bound; missing totals or
/// completeness are irrelevant; extra provider songs are never penalized.
/// Per-disc track numbers cannot exceed the entire program.
pub fn required_tracks(local: &[LocalTrackEvidence]) -> (r: usize)
    ensures
        r == required_count(local_ev_views(local@)),
{
    let ghost lv = local_ev_views(local@);
    let mut keys: Vec<Presence> = Vec::new();
    let mut largest: u32 = 0;
    let mut i: usize = 0;
    while i < local.len()
        invariant
            i <= local.len(),
            lv == local_ev_views(local@),
            presence_views(keys@).no_duplicates(),
            presence_views(keys@).to_set() == presence_keys(lv.take(i as int)).to_set(),
            keys@.len() <= i,
            largest == max_number(lv.take(i as int)),
        decreases local.len() - i,
    {
        let t = &local[i].evidence;
        assert(lv[i as int].evidence == t@);
        assert(lv.take(i + 1).drop_last() =~= lv.take(i as int));
        assert(lv.take(i + 1).last() == lv[i as int]);
        let ghost old_keys = presence_keys(lv.take(i as int));
        match presence_of(t) {
            Some(key) => {
                let ghost kv = key@;
                assert(presence_keys(lv.take(i + 1)) =~= old_keys.push(kv));
                proof {
                    old_keys.lemma_push_to_set_commute(kv);
                }
                if !holds_presence(&keys, &key) {
                    let ghost before = presence_views(keys@);
                    proof {
                        before.lemma_push_to_set_commute(kv);
                    }
                    keys.push(key);
                    assert(presence_views(keys@) =~= before.push(kv));
                } else {
                    assert(presence_views(keys@).to_set().insert(kv) =~= presence_views(
                        keys@,
                    ).to_set());
                }
            },
            None => {
                assert(presence_keys(lv.take(i + 1)) =~= old_keys);
            },
        }
        match t.number {
            Some(n) => {
                if n > largest {
                    largest = n;
                }
            },
            None => {},
        }
        i = i + 1;
    }
    assert(lv.take(local.len() as int) =~= lv);
    proof {
        presence_views(keys@).unique_seq_to_set();
    }
    let distinct = keys.len();
    if distinct >= largest as usize {
        distinct
    } else {
        largest as usize
    }
}

#[derive(Clone, Copy, Debug, PartialEq, Eq)]
pub enum Fit {
    Supported,
    Rejected(&'static str),
    Uncertain,
}

pub enum FitVerdict {
    Supported,
    Rejected(Seq<char>),
    Uncertain,
}

impl View for Fit {
    type V = FitVerdict;

    open spec fn view(&self) -> FitVerdict {
        match self {
            Fit::Supported => FitVerdict::Supported,
            Fit::Rejected(reason) => FitVerdict::Rejected(reason@),
            Fit::Uncertain => FitVerdict::Uncertain,
        }
    }
}

/// How one complete program fits the local tracks.
pub open spec fn program_verdict(local: Seq<LocalTrackView>, p: ProgramView) -> FitVerdict {
    if p.tracks.len() < required_count(local) {
        FitVerdict::Rejected("program cannot contain present positions/Tracks"@)
    } else {
        let f = fit_of(local, p);
        if f.identity_conflicts > 0 {
            FitVerdict::Rejected("conflicting trusted Recording identity"@)
        } else if f.unmatched >= 2 {
            FitVerdict::Rejected("at least two present Tracks cannot be explained"@)
        } else if f.duration_mismatches >= 2 {
            FitVerdict::Rejected("multiple incompatible durations"@)
        } else if local.len() > 0 && f.unmatched == 0 {
            FitVerdict::Supported
        } else {
            FitVerdict::Uncertain
        }
    }
}

/// Supported when some complete program explains every present track;
/// uncertain when there is no complete program set or one weak disagreement
/// remains; otherwise rejected with the reason of the last program.
pub open spec fn fit_verdict(local: Seq<LocalTrackView>, ps: Seq<ProgramView>) -> FitVerdict {
    if ps.len() == 0 || any_incomplete(ps) {
        FitVerdict::Uncertain
    } else if exists|i: int| 0 <= i < ps.len() && program_verdict(local, #[trigger] ps[i]) is Supported {
        FitVerdict::Supported
    } else if exists|i: int| 0 <= i < ps.len() && program_verdict(local, #[trigger] ps[i]) is Uncertain {
        FitVerdict::Uncertain
    } else {
        program_verdict(local, ps.last())
    }
}

/// How the programs of one candidate fit the local tracks. One weak
/// disagreement does not eliminate the representation.
pub fn fit(local: &[LocalTrackEvidence], p: &Programs) -> (r: Fit)
    ensures
        r@ == fit_verdict(local_ev_views(local@), p@.programs),
{
    let ghost lv = local_ev_views(local@);
    let ghost ps = p@.programs;
    if p.programs.len() == 0 {
        return Fit::Uncertain;
    }
    let mut i: usize = 0;
    while i < p.programs.len()
        invariant
            i <= p.programs.len(),
            ps == p@.programs,
            forall|k: int| 0 <= k < i ==> (#[trigger] ps[k]).complete,
        decreases p.programs.len() - i,
    {
        assert(ps[i as int].complete == p.programs@[i as int].complete);
        if !p.programs[i].complete {
            return Fit::Uncertain;
        }
        i = i + 1;
    }
    let required = required_tracks(local);
    let mut rejection: &'static str = "no complete program";
    let mut uncertain = false;
    let mut i: usize = 0;
    while i < p.programs.len()
        invariant
            i <= p.programs.len(),
            lv == local_ev_views(local@),
            ps == p@.programs,
            ps.len() > 0,
            !any_incomplete(ps),
            required == required_count(lv),
            forall|k: int| 0 <= k < i ==> !(program_verdict(lv, #[trigger] ps[k]) is Supported),
            uncertain == exists|k: int|
                0 <= k < i && program_verdict(lv, #[trigger] ps[k]) is Uncertain,
            !uncertain && i > 0 ==> program_verdict(lv, ps[i - 1]) == FitVerdict::Rejected(
                rejection@,
            ),
        decreases p.programs.len() - i,
    {
        let program = &p.programs[i];
        let ghost pv = program@;
        assert(ps[i as int] == pv);
        if program.tracks.len() < required {
            rejection = "program cannot contain present positions/Tracks";
        } else {
            let f = program_fit(local, program);
            if f.identity_conflicts > 0 {
                rejection = "conflicting trusted Recording identity";
            } else if f.unmatched >= 2 {
                rejection = "at least two present Tracks cannot be explained";
            } else if f.duration_mismatches >= 2 {
                rejection = "multiple incompatible durations";
            } else if local.len() > 0 && f.unmatched == 0 {
                assert(program_verdict(lv, ps[i as int]) is Supported);
                return Fit::Supported;
            } else {
                uncertain = true;
            }
        }
        i = i + 1;
    }
    if uncertain {
        Fit::Uncertain
    } else {
        Fit::Rejected(rejection)
    }
}

// ---------------------------------------------------------------------------
// Choosing among representations.

/// How many fetched program sets are kept for reuse.
pub const PROGRAM_CACHE_SIZE: usize = 4;

/// The candidates a first verdict leaves open: those with the matched
/// identity, or the ambiguous ones; none when nothing matched.
pub open spec fn verdict_candidates(v: AlbumVerdict, items: Seq<AlbumCandidateView>) -> Option<
    Seq<AlbumCandidateView>,
> {
    match v {
        AlbumVerdict::Exact(id) => Some(with_identity(items, id)),
        AlbumVerdict::Close(id) => Some(with_identity(items, id)),
        AlbumVerdict::Ambiguous(s) => Some(s),
        AlbumVerdict::NoMatch => None,
    }
}

/// The items with identity `id`, in order.
pub open spec fn with_identity(items: Seq<AlbumCandidateView>, id: IdentityView) -> Seq<
    AlbumCandidateView,
>
    decreases items.len(),
{
    if items.len() == 0 {
        Seq::empty()
    } else {
        let rest = with_identity(items.drop_last(), id);
        if items.last().identity == id {
            rest.push(items.last())
        } else {
            rest
        }
    }
}

/// A track count, when the provider knows one, leaves room for the tracks
/// present.
pub open spec fn can_hold(count: Option<u32>, required: nat) -> bool {
    match count {
        Some(n) => n >= required,
        None => true,
    }
}

/// The candidates whose track count (`counts[k]` for `cands[k]`) can hold
/// the local tracks, in order.
pub open spec fn survivors(
    cands: Seq<AlbumCandidateView>,
    counts: Seq<Option<u32>>,
    required: nat,
) -> Seq<AlbumCandidateView>
    decreases cands.len(),
{
    if cands.len() == 0 {
        Seq::empty()
    } else {
        let rest = survivors(cands.drop_last(), counts, required);
        if can_hold(counts[cands.len() - 1], required) {
            rest.push(cands.last())
        } else {
            rest
        }
    }
}

/// Programs are compared only for an ambiguous verdict on a complete page
/// with few enough candidates.
pub open spec fn examinable(v: AlbumVerdict, complete: bool, n: nat) -> bool {
    v is Ambiguous && complete && n <= MAX_PROGRAM_CANDIDATES
}

/// Some fetched program set belongs to an Album other than its candidate's.
pub open spec fn misattributed(s: Seq<AlbumCandidateView>, ps: Seq<ProgramsView>) -> bool {
    exists|k: int| 0 <= k < s.len() && (#[trigger] ps[k]).album != s[k].identity
}

/// The indices below `n` whose programs are not rejected.
pub open spec fn kept_indices(local: Seq<LocalTrackView>, ps: Seq<ProgramsView>, n: nat) -> Seq<
    int,
>
    decreases n,
{
    if n == 0 {
        Seq::empty()
    } else {
        let rest = kept_indices(local, ps, (n - 1) as nat);
        if fit_verdict(local, ps[n - 1].programs) is Rejected {
            rest
        } else {
            rest.push(n - 1)
        }
    }
}

/// Some program places at least three distinct local positions exactly.
pub open spec fn settles(local: Seq<LocalTrackView>, p: ProgramsView) -> bool {
    exists|j: int|
        0 <= j < p.programs.len() && fit_of(local, #[trigger] p.programs[j]).exact_positions >= 3
}

/// The comparison title of a confident track outcome.
pub open spec fn matched_title(o: TrackOutcomeView) -> Option<Seq<char>> {
    match o {
        TrackOutcomeView::Matched(m) => Some(comparison_key(m.title)),
        TrackOutcomeView::AlreadyMatched(m) => Some(comparison_key(m.title)),
        _ => None,
    }
}

/// Every local track is confidently matched to the same title under every
/// mapping.
pub open spec fn titles_agree(n: nat, maps: Seq<Seq<TrackOutcomeView>>) -> bool {
    forall|i: int|
        0 <= i < n ==> matched_title(maps[0][i]) is Some && forall|j: int|
            0 <= j < maps.len() ==> matched_title(#[trigger] maps[j][i]) == matched_title(
                maps[0][i],
            )
}

/// The programs of the kept candidates, one after another.
pub open spec fn joined_programs(ps: Seq<ProgramsView>, kept: Seq<int>) -> Seq<ProgramView>
    decreases kept.len(),
{
    if kept.len() == 0 {
        Seq::empty()
    } else {
        joined_programs(ps, kept.drop_last()) + ps[kept.last()].programs
    }
}

pub open spec fn equivalent_note() -> Seq<char> {
    "Equivalent provider representations; no Album ID selected; associations are diagnostic until identity resolves"@
}

pub open spec fn misattributed_message() -> Seq<char> {
    "Candidate programs belong to another Album"@
}

/// The programs of equivalent representations taken together.
pub open spec fn combined(ps: Seq<ProgramsView>, kept: Seq<int>) -> ProgramsView {
    ProgramsView {
        album: ps[kept[0]].album,
        programs: joined_programs(ps, kept),
        note: equivalent_note(),
    }
}

/// What disambiguation concludes.
pub enum Resolution {
    Verdict(AlbumVerdict),
    Equivalent(Seq<AlbumCandidateView>, Seq<(LocalTrackView, TrackOutcomeView)>),
    Misattributed,
}

pub open spec fn track_pair_views(s: Seq<(LocalTrackEvidence, TrackOutcome)>) -> Seq<
    (LocalTrackView, TrackOutcomeView),
> {
    s.map_values(|p: (LocalTrackEvidence, TrackOutcome)| (p.0@, p.1@))
}

pub open spec fn programs_views(s: Seq<Programs>) -> Seq<ProgramsView> {
    s.map_values(|p: Programs| p@)
}

/// `r` reports `res`.
pub open spec fn resolved(r: Result<MatchOutcome, CatalogError>, res: Resolution) -> bool {
    match res {
        Resolution::Verdict(v) => r matches Ok(o) && reports(o, v),
        Resolution::Equivalent(cs, ts) => r matches Ok(
            MatchOutcome::AlbumEquivalent { candidates, tracks },
        ) && album_views(candidates@) == cs && track_pair_views(tracks@) == ts,
        Resolution::Misattributed => r matches Err(CatalogError::Other(m)) && m@
            == misattributed_message(),
    }
}

/// With the programs of each surviving candidate: a single supported
/// candidate that places three positions exactly is accepted; several
/// supported candidates that give every track the same title are equivalent;
/// otherwise the candidates not rejected stay ambiguous.
pub open spec fn examination(
    title: Seq<char>,
    artist: IdentityView,
    manual: bool,
    local: Seq<LocalTrackView>,
    s: Seq<AlbumCandidateView>,
    ps: Seq<ProgramsView>,
) -> Resolution {
    let kept = kept_indices(local, ps, s.len());
    let cands = kept.map_values(|k: int| s[k]);
    if kept.len() == 1 && fit_verdict(local, ps[kept[0]].programs) is Supported && settles(
        local,
        ps[kept[0]],
    ) {
        Resolution::Verdict(album_verdict(title, artist, seq![s[kept[0]]], true, manual))
    } else if kept.len() > 1 && (forall|j: int|
        0 <= j < kept.len() ==> fit_verdict(local, ps[#[trigger] kept[j]].programs) is Supported)
        && titles_agree(
        local.len(),
        Seq::new(kept.len(), |j: int| album_outcomes(local, ps[kept[j]])),
    ) {
        let all = album_outcomes(local, combined(ps, kept));
        Resolution::Equivalent(cands, Seq::new(local.len(), |i: int| (local[i], all[i])))
    } else if kept.len() == 0 {
        Resolution::Verdict(AlbumVerdict::NoMatch)
    } else {
        Resolution::Verdict(AlbumVerdict::Ambiguous(cands))
    }
}

/// The whole choice, given the provider's track counts for the open
/// candidates and the programs of the survivors.
pub open spec fn disambiguation(
    title: Seq<char>,
    artist: IdentityView,
    items: Seq<AlbumCandidateView>,
    complete: bool,
    manual: bool,
    supported: bool,
    local: Seq<LocalTrackView>,
    counts: Seq<Option<u32>>,
    ps: Seq<ProgramsView>,
) -> Resolution {
    let initial = album_verdict(title, artist, items, complete, manual);
    if !supported || local.len() == 0 {
        Resolution::Verdict(initial)
    } else {
        match verdict_candidates(initial, items) {
            None => Resolution::Verdict(initial),
            Some(c) => {
                let s = survivors(c, counts, required_count(local));
                let outcome = album_verdict(title, artist, s, complete, manual);
                if !examinable(outcome, complete, s.len()) {
                    Resolution::Verdict(outcome)
                } else if misattributed(s, ps) {
                    Resolution::Misattributed
                } else {
                    examination(title, artist, manual, local, s, ps)
                }
            },
        }
    }
}

/// The provider's answers cover what the choice needs: one count per open
/// candidate, and one program set per survivor when programs are compared.
pub open spec fn answers_fit(
    title: Seq<char>,
    artist: IdentityView,
    items: Seq<AlbumCandidateView>,
    complete: bool,
    manual: bool,
    supported: bool,
    local: Seq<LocalTrackView>,
    counts: Seq<Option<u32>>,
    n_programs: nat,
) -> bool {
    if !supported || local.len() == 0 {
        true
    } else {
        match verdict_candidates(album_verdict(title, artist, items, complete, manual), items) {
            None => true,
            Some(c) => counts.len() == c.len() && {
                let s = survivors(c, counts, required_count(local));
                examinable(album_verdict(title, artist, s, complete, manual), complete, s.len())
                    ==> n_programs == s.len()
            },
        }
    }
}

fn with_identity_of(items: &Vec<ArtistAlbumCandidate>, id: &ExternalIdentity) -> (r: Vec<
    ArtistAlbumCandidate,
>)
    ensures
        album_views(r@) == with_identity(album_views(items@), id@),
{
    let ghost iv = album_views(items@);
    let mut out: Vec<ArtistAlbumCandidate> = Vec::new();
    let mut i: usize = 0;
    while i < items.len()
        invariant
            i <= items.len(),
            iv == album_views(items@),
            album_views(out@) == with_identity(iv.take(i as int), id@),
        decreases items.len() - i,
    {
        let ghost before = album_views(out@);
        assert(iv.take(i + 1).drop_last() =~= iv.take(i as int));
        assert(iv.take(i + 1).last() == items@[i as int]@);
        if items[i].identity.same(id) {
            out.push(items[i].clone());
            assert(album_views(out@) =~= before.push(items@[i as int]@));
        }
        i = i + 1;
    }
    assert(iv.take(items.len() as int) =~= iv);
    out
}

/// The candidates the first verdict on `page` leaves open, for which the
/// provider's track counts are asked; `None` when nothing matched.
pub fn candidate_list(
    title: &str,
    artist: &ExternalIdentity,
    page: &Page<ArtistAlbumCandidate>,
    manual: bool,
) -> (r: Option<Vec<ArtistAlbumCandidate>>)
    ensures
        match verdict_candidates(
            album_verdict(title@, artist@, album_views(page.items@), page.next_offset is None, manual),
            album_views(page.items@),
        ) {
            Some(c) => r matches Some(v) && album_views(v@) == c,
            None => r is None,
        },
{
    let initial = accepted_album_confirmed(title, artist, page, manual);
    match initial {
        MatchOutcome::Matched(id) => Some(with_identity_of(&page.items, &id)),
        MatchOutcome::MatchedClose(id) => Some(with_identity_of(&page.items, &id)),
        MatchOutcome::AlbumAmbiguous(c) => Some(c),
        _ => None,
    }
}

/// The candidates whose known track count leaves room for the local tracks;
/// `counts[k]` is the provider's count for `cands[k]`.
pub fn surviving_candidates(
    cands: &Vec<ArtistAlbumCandidate>,
    counts: &[Option<u32>],
    local: &[LocalTrackEvidence],
) -> (r: Vec<ArtistAlbumCandidate>)
    requires
        counts.len() == cands.len(),
    ensures
        album_views(r@) == survivors(
            album_views(cands@),
            counts@,
            required_count(local_ev_views(local@)),
        ),
{
    let required = required_tracks(local);
    let ghost cv = album_views(cands@);
    let ghost req = required_count(local_ev_views(local@));
    let mut out: Vec<ArtistAlbumCandidate> = Vec::new();
    let mut i: usize = 0;
    while i < cands.len()
        invariant
            i <= cands.len(),
            counts.len() == cands.len(),
            cv == album_views(cands@),
            required == req,
            album_views(out@) == survivors(cv.take(i as int), counts@, req),
        decreases cands.len() - i,
    {
        let ghost before = album_views(out@);
        assert(cv.take(i + 1).drop_last() =~= cv.take(i as int));
        assert(cv.take(i + 1).last() == cands@[i as int]@);
        let room = match counts[i] {
            Some(n) => n as usize >= required,
            None => true,
        };
        if room {
            out.push(cands[i].clone());
            assert(album_views(out@) =~= before.push(cands@[i as int]@));
        }
        i = i + 1;
    }
    assert(cv.take(cands.len() as int) =~= cv);
    out
}

/// Whether the provider's programs are compared for these survivors.
pub fn programs_needed(
    title: &str,
    artist: &ExternalIdentity,
    page: &Page<ArtistAlbumCandidate>,
    manual: bool,
    surviving: &Vec<ArtistAlbumCandidate>,
) -> (r: bool)
    ensures
        r == examinable(
            album_verdict(title@, artist@, album_views(surviving@), page.next_offset is None, manual),
            page.next_offset is None,
            surviving.len() as nat,
        ),
{
    if page.next_offset.is_some() || surviving.len() > MAX_PROGRAM_CANDIDATES {
        return false;
    }
    let filtered = Page { items: surviving.clone(), next_offset: page.next_offset };
    assert(album_views(filtered.items@) == album_views(surviving@));
    match accepted_album_confirmed(title, artist, &filtered, manual) {
        MatchOutcome::AlbumAmbiguous(_) => true,
        _ => false,
    }
}

/// The position of `album`'s programs in the cache, if present.
pub fn cached_programs(cache: &Vec<Programs>, album: &ExternalIdentity) -> (r: Option<usize>)
    ensures
        match r {
            Some(k) => k < cache.len() && cache@[k as int].album@ == album@ && forall|j: int|
                0 <= j < k ==> (#[trigger] cache@[j]).album@ != album@,
            None => forall|j: int| 0 <= j < cache.len() ==> (#[trigger] cache@[j]).album@ != album@,
        },
{
    let mut i: usize = 0;
    while i < cache.len()
        invariant
            i <= cache.len(),
            forall|j: int| 0 <= j < i ==> (#[trigger] cache@[j]).album@ != album@,
        decreases cache.len() - i,
    {
        if cache[i].album.same(album) {
            return Some(i);
        }
        i = i + 1;
    }
    None
}

/// Keep `p` for reuse; a full cache forgets its oldest entry first.
pub fn remember_programs(cache: &mut Vec<Programs>, p: Programs)
    ensures
        old(cache).len() == PROGRAM_CACHE_SIZE ==> final(cache)@ == old(cache)@.drop_first().push(
            p,
        ),
        old(cache).len() != PROGRAM_CACHE_SIZE ==> final(cache)@ == old(cache)@.push(p),
        old(cache).len() <= PROGRAM_CACHE_SIZE ==> final(cache).len() <= PROGRAM_CACHE_SIZE,
{
    if cache.len() == PROGRAM_CACHE_SIZE {
        cache.remove(0);
    }
    cache.push(p);
}

fn matched_title_of(o: &TrackOutcome) -> (r: Option<String>)
    ensures
        match matched_title(o@) {
            Some(t) => r matches Some(v) && v@ == t,
            None => r is None,
        },
{
    match o {
        TrackOutcome::Matched(m) => Some(comparison_title(m.title.as_str())),
        TrackOutcome::AlreadyMatched(m) => Some(comparison_title(m.title.as_str())),
        _ => None,
    }
}

fn same_title(a: &Option<String>, b: &Option<String>) -> (r: bool)
    ensures
        r == (match (a, b) {
            (Some(x), Some(y)) => x@ == y@,
            (None, None) => true,
            _ => false,
        }),
{
    match (a, b) {
        (Some(x), Some(y)) => chars_eq(&chars_of(x.as_str()), &chars_of(y.as_str())),
        (None, None) => true,
        _ => false,
    }
}

/// Every local track has the same confident title under every mapping.
fn mappings_agree(n: usize, maps: &Vec<Vec<TrackOutcome>>) -> (r: bool)
    requires
        maps.len() > 0,
        forall|j: int| 0 <= j < maps.len() ==> (#[trigger] maps@[j]).len() == n,
    ensures
        r == titles_agree(n as nat, maps@.map_values(|m: Vec<TrackOutcome>| outcome_views(m@))),
{
    let ghost mv = maps@.map_values(|m: Vec<TrackOutcome>| outcome_views(m@));
    let mut i: usize = 0;
    while i < n
        invariant
            i <= n,
            maps.len() > 0,
            forall|j: int| 0 <= j < maps.len() ==> (#[trigger] maps@[j]).len() == n,
            mv == maps@.map_values(|m: Vec<TrackOutcome>| outcome_views(m@)),
            forall|x: int|
                0 <= x < i ==> matched_title(mv[0][x]) is Some && forall|j: int|
                    0 <= j < mv.len() ==> matched_title(#[trigger] mv[j][x]) == matched_title(
                        mv[0][x],
                    ),
        decreases n - i,
    {
        assert(mv[0][i as int] == maps@[0]@[i as int]@);
        let first = matched_title_of(&maps[0][i]);
        if first.is_none() {
            return false;
        }
        let mut j: usize = 0;
        while j < maps.len()
            invariant
                j <= maps.len(),
                i < n,
                forall|j: int| 0 <= j < maps.len() ==> (#[trigger] maps@[j]).len() == n,
                mv == maps@.map_values(|m: Vec<TrackOutcome>| outcome_views(m@)),
                matched_title(mv[0][i as int]) is Some,
                match matched_title(mv[0][i as int]) {
                    Some(t) => first matches Some(v) && v@ == t,
                    None => first is None,
                },
                forall|y: int|
                    0 <= y < j ==> matched_title(#[trigger] mv[y][i as int]) == matched_title(
                        mv[0][i as int],
                    ),
            decreases maps.len() - j,
        {
            assert(mv[j as int][i as int] == maps@[j as int]@[i as int]@);
            let other = matched_title_of(&maps[j][i]);
            if !same_title(&other, &first) {
                return false;
            }
            j = j + 1;
        }
        i = i + 1;
    }
    true
}

/// The indices of the candidates whose programs are not rejected, and for
/// each whether they are supported.
fn kept_of(local: &[LocalTrackEvidence], ps: &[Programs]) -> (r: (Vec<usize>, Vec<bool>))
    ensures
        usize_ints(r.0@) == kept_indices(local_ev_views(local@), programs_views(ps@), ps.len() as nat),
        r.1@.len() == r.0@.len(),
        forall|j: int| 0 <= j < r.0@.len() ==> (#[trigger] r.0@[j]) < ps.len(),
        forall|j: int|
            0 <= j < r.0@.len() ==> #[trigger] r.1@[j] == (fit_verdict(
                local_ev_views(local@),
                programs_views(ps@)[r.0@[j] as int].programs,
            ) is Supported),
{
    let ghost lv = local_ev_views(local@);
    let ghost pv = programs_views(ps@);
    let mut kept: Vec<usize> = Vec::new();
    let mut supported: Vec<bool> = Vec::new();
    let mut k: usize = 0;
    while k < ps.len()
        invariant
            k <= ps.len(),
            lv == local_ev_views(local@),
            pv == programs_views(ps@),
            usize_ints(kept@) == kept_indices(lv, pv, k as nat),
            supported@.len() == kept@.len(),
            forall|j: int| 0 <= j < kept@.len() ==> (#[trigger] kept@[j]) < k,
            forall|j: int|
                0 <= j < kept@.len() ==> #[trigger] supported@[j] == (fit_verdict(
                    lv,
                    pv[kept@[j] as int].programs,
                ) is Supported),
        decreases ps.len() - k,
    {
        let f = fit(local, &ps[k]);
        assert(pv[k as int] == ps@[k as int]@);
        let ghost before = usize_ints(kept@);
        match f {
            Fit::Rejected(_) => {},
            _ => {
                kept.push(k);
                supported.push(
                    match f {
                        Fit::Supported => true,
                        _ => false,
                    },
                );
                assert(usize_ints(kept@) =~= before.push(k as int));
            },
        }
        k = k + 1;
    }
    (kept, supported)
}

/// Some program of `p` places three distinct local positions exactly.
fn settles_of(local: &[LocalTrackEvidence], p: &Programs) -> (r: bool)
    ensures
        r == settles(local_ev_views(local@), p@),
{
    let mut j: usize = 0;
    while j < p.programs.len()
        invariant
            j <= p.programs.len(),
            forall|x: int|
                0 <= x < j ==> fit_of(local_ev_views(local@), #[trigger] p@.programs[x]).exact_positions
                    < 3,
        decreases p.programs.len() - j,
    {
        assert(p@.programs[j as int] == p.programs@[j as int]@);
        let f = program_fit(local, &p.programs[j]);
        if f.exact_positions >= 3 {
            return true;
        }
        j = j + 1;
    }
    false
}

fn all_true(v: &Vec<bool>) -> (r: bool)
    ensures
        r == forall|j: int| 0 <= j < v@.len() ==> #[trigger] v@[j],
{
    let mut j: usize = 0;
    while j < v.len()
        invariant
            j <= v.len(),
            forall|x: int| 0 <= x < j ==> #[trigger] v@[x],
        decreases v.len() - j,
    {
        if !v[j] {
            return false;
        }
        j = j + 1;
    }
    true
}

/// The programs of the kept candidates, copied one after another.
fn joined_of(ps: &[Programs], kept: &Vec<usize>) -> (r: Vec<Program>)
    requires
        forall|j: int| 0 <= j < kept@.len() ==> (#[trigger] kept@[j]) < ps.len(),
    ensures
        program_views(r@) == joined_programs(programs_views(ps@), usize_ints(kept@)),
{
    let ghost pv = programs_views(ps@);
    let ghost kv = usize_ints(kept@);
    let mut out: Vec<Program> = Vec::new();
    let mut j: usize = 0;
    while j < kept.len()
        invariant
            j <= kept.len(),
            pv == programs_views(ps@),
            kv == usize_ints(kept@),
            forall|x: int| 0 <= x < kept@.len() ==> (#[trigger] kept@[x]) < ps.len(),
            program_views(out@) == joined_programs(pv, kv.take(j as int)),
        decreases kept.len() - j,
    {
        let p = &ps[kept[j]];
        let ghost base = program_views(out@);
        assert(pv[kept@[j as int] as int] == p@);
        let mut t: usize = 0;
        while t < p.programs.len()
            invariant
                t <= p.programs.len(),
                program_views(out@) == base + p@.programs.take(t as int),
            decreases p.programs.len() - t,
        {
            let ghost before = program_views(out@);
            out.push(p.programs[t].clone());
            assert(program_views(out@) =~= before.push(p.programs@[t as int]@));
            assert(p@.programs.take(t + 1) =~= p@.programs.take(t as int).push(
                p.programs@[t as int]@,
            ));
            t = t + 1;
        }
        assert(p@.programs.take(p.programs.len() as int) =~= p@.programs);
        assert(kv.take(j + 1).drop_last() =~= kv.take(j as int));
        assert(kv.take(j + 1).last() == kept@[j as int] as int);
        j = j + 1;
    }
    assert(kv.take(kept.len() as int) =~= kv);
    out
}

fn picked(s: &Vec<ArtistAlbumCandidate>, kept: &Vec<usize>) -> (r: Vec<ArtistAlbumCandidate>)
    requires
        forall|j: int| 0 <= j < kept@.len() ==> (#[trigger] kept@[j]) < s.len(),
    ensures
        album_views(r@) == usize_ints(kept@).map_values(|k: int| album_views(s@)[k]),
{
    let mut out: Vec<ArtistAlbumCandidate> = Vec::new();
    let mut j: usize = 0;
    while j < kept.len()
        invariant
            j <= kept.len(),
            forall|x: int| 0 <= x < kept@.len() ==> (#[trigger] kept@[x]) < s.len(),
            album_views(out@) == usize_ints(kept@).take(j as int).map_values(
                |k: int| album_views(s@)[k],
            ),
        decreases kept.len() - j,
    {
        let ghost before = album_views(out@);
        out.push(s[kept[j]].clone());
        assert(album_views(out@) =~= before.push(s@[kept@[j as int] as int]@));
        assert(usize_ints(kept@).take(j + 1) =~= usize_ints(kept@).take(j as int).push(
            kept@[j as int] as int,
        ));
        assert(album_views(out@) =~= usize_ints(kept@).take(j + 1).map_values(
            |k: int| album_views(s@)[k],
        ));
        j = j + 1;
    }
    assert(usize_ints(kept@).take(kept.len() as int) =~= usize_ints(kept@));
    out
}

fn examine(
    title: &str,
    artist: &ExternalIdentity,
    manual: bool,
    local: &[LocalTrackEvidence],
    s: &Vec<ArtistAlbumCandidate>,
    ps: &[Programs],
) -> (r: MatchOutcome)
    requires
        ps.len() == s.len(),
    ensures
        resolved(
            Ok(r),
            examination(
                title@,
                artist@,
                manual,
                local_ev_views(local@),
                album_views(s@),
                programs_views(ps@),
            ),
        ),
{
    let ghost lv = local_ev_views(local@);
    let ghost pv = programs_views(ps@);
    let ghost sv = album_views(s@);
    let (kept, supported) = kept_of(local, ps);
    let ghost kv = usize_ints(kept@);
    if kept.len() == 1 && supported[0] && settles_of(local, &ps[kept[0]]) {
        assert(pv[kv[0]] == ps@[kept@[0] as int]@);
        let one = Page { items: vec![s[kept[0]].clone()], next_offset: None };
        assert(album_views(one.items@) =~= seq![sv[kv[0]]]);
        return accepted_album_confirmed(title, artist, &one, manual);
    }
    let cands = picked(s, &kept);
    let every = all_true(&supported);
    proof {
        if every {
            assert forall|j: int| 0 <= j < kv.len() implies fit_verdict(
                lv,
                pv[#[trigger] kv[j]].programs,
            ) is Supported by {
                assert(supported@[j]);
            }
        } else {
            let j = choose|j: int| 0 <= j < supported@.len() && !supported@[j];
            assert(!(fit_verdict(lv, pv[kv[j]].programs) is Supported));
        }
    }
    if kept.len() > 1 && every {
        let mut maps: Vec<Vec<TrackOutcome>> = Vec::new();
        let mut j: usize = 0;
        while j < kept.len()
            invariant
                j <= kept.len(),
                lv == local_ev_views(local@),
                pv == programs_views(ps@),
                kv == usize_ints(kept@),
                forall|x: int| 0 <= x < kept@.len() ==> (#[trigger] kept@[x]) < ps.len(),
                maps@.len() == j,
                forall|x: int|
                    0 <= x < j ==> outcome_views((#[trigger] maps@[x])@) == album_outcomes(
                        lv,
                        pv[kv[x]],
                    ) && maps@[x]@.len() == local.len(),
            decreases kept.len() - j,
        {
            assert(pv[kv[j as int]] == ps@[kept@[j as int] as int]@);
            let m = compare_album(local, &ps[kept[j]]);
            assert(outcome_views(m@).len() == m@.len());
            maps.push(m);
            j = j + 1;
        }
        let ghost mv = maps@.map_values(|m: Vec<TrackOutcome>| outcome_views(m@));
        assert(mv =~= Seq::new(kept@.len(), |x: int| album_outcomes(lv, pv[kv[x]])));
        if mappings_agree(local.len(), &maps) {
            assert(pv[kv[0]] == ps@[kept@[0] as int]@);
            let combined_programs = Programs {
                album: ps[kept[0]].album.clone(),
                programs: joined_of(ps, &kept),
                note: "Equivalent provider representations; no Album ID selected; associations are diagnostic until identity resolves".to_owned(),
            };
            assert(combined_programs@ == combined(pv, kv));
            let all = compare_album(local, &combined_programs);
            let ghost av = outcome_views(all@);
            assert(av.len() == local.len());
            let mut tracks: Vec<(LocalTrackEvidence, TrackOutcome)> = Vec::new();
            let mut i: usize = 0;
            while i < local.len()
                invariant
                    i <= local.len(),
                    lv == local_ev_views(local@),
                    av == outcome_views(all@),
                    av.len() == local.len(),
                    track_pair_views(tracks@) =~= Seq::new(i as nat, |x: int| (lv[x], av[x])),
                decreases local.len() - i,
            {
                let ghost before = track_pair_views(tracks@);
                let pair = (local[i].clone(), copy_outcome(&all[i]));
                tracks.push(pair);
                assert(track_pair_views(tracks@) =~= before.push((lv[i as int], av[i as int])));
                i = i + 1;
            }
            return MatchOutcome::AlbumEquivalent { candidates: cands, tracks };
        }
    }
    if kept.len() == 0 {
        MatchOutcome::NoConfidentMatch
    } else {
        MatchOutcome::AlbumAmbiguous(cands)
    }
}

/// Choose among the representations a provider lists for an Album inside a
/// resolved Artist, given its answers: `counts[k]` is the track count of the
/// `k`-th open candidate (see `candidate_list`), and `programs[k]` the
/// programs of the `k`-th survivor (see `surviving_candidates`) when they are
/// compared (see `programs_needed`). `supported` is whether the provider can
/// list candidate programs at all. `None` when the answers do not cover what
/// the choice needs. No storage, no provider identifier as a primary ID, no
/// exact-edition claim.
#[verifier::loop_isolation(false)]
pub fn disambiguate(
    title: &str,
    artist: &ExternalIdentity,
    page: &Page<ArtistAlbumCandidate>,
    manual: bool,
    supported: bool,
    local: &[LocalTrackEvidence],
    counts: &[Option<u32>],
    programs: &[Programs],
) -> (r: Option<Result<MatchOutcome, CatalogError>>)
    ensures
        r is None <==> !answers_fit(
            title@,
            artist@,
            album_views(page.items@),
            page.next_offset is None,
            manual,
            supported,
            local_ev_views(local@),
            counts@,
            programs.len() as nat,
        ),
        r matches Some(x) ==> resolved(
            x,
            disambiguation(
                title@,
                artist@,
                album_views(page.items@),
                page.next_offset is None,
                manual,
                supported,
                local_ev_views(local@),
                counts@,
                programs_views(programs@),
            ),
        ),
{
    if !supported || local.len() == 0 {
        return Some(Ok(accepted_album_confirmed(title, artist, page, manual)));
    }
    let cands = match candidate_list(title, artist, page, manual) {
        Some(c) => c,
        None => {
            return Some(Ok(accepted_album_confirmed(title, artist, page, manual)));
        },
    };
    if counts.len() != cands.len() {
        return None;
    }
    let surviving = surviving_candidates(&cands, counts, local);
    let needed = programs_needed(title, artist, page, manual, &surviving);
    let filtered = Page { items: surviving, next_offset: page.next_offset };
    if !needed {
        return Some(Ok(accepted_album_confirmed(title, artist, &filtered, manual)));
    }
    if programs.len() != filtered.items.len() {
        return None;
    }
    let ghost pv = programs_views(programs@);
    let ghost sv = album_views(filtered.items@);
    let mut k: usize = 0;
    while k < programs.len()
        invariant
            k <= programs.len(),
            programs.len() == filtered.items.len(),
            pv == programs_views(programs@),
            sv == album_views(filtered.items@),
            forall|x: int| 0 <= x < k ==> (#[trigger] pv[x]).album == sv[x].identity,
        decreases programs.len() - k,
    {
        assert(pv[k as int] == programs@[k as int]@);
        if !programs[k].album.same(&filtered.items[k].identity) {
            return Some(
                Err(CatalogError::Other("Candidate programs belong to another Album".to_owned())),
            );
        }
        k = k + 1;
    }
    Some(Ok(examine(title, artist, manual, local, &filtered.items, programs)))
}

// ---------------------------------------------------------------------------
// Asking the provider.

/// What choosing among representations asks of a catalog provider. Nothing
/// is assumed of the answers.
pub trait CandidatePrograms {
    /// Whether the provider can list the programs of Album candidates.
    fn album_candidate_programs(&self) -> bool;

    /// The track count the provider knows for an Album candidate.
    fn album_candidate_track_count(&self, album: &ExternalIdentity) -> Option<u32>;

    /// The programs of an Album candidate.
    fn album_programs(&mut self, album: &ExternalIdentity) -> Result<Programs, CatalogError>;
}

/// One question put to the provider, with its answer where it matters.
pub enum ProviderCall {
    Capability(bool),
    TrackCount(IdentityView, Option<u32>),
    Programs(IdentityView),
}

/// Some candidate of the page carries identity `id`.
pub open spec fn on_page(items: Seq<AlbumCandidateView>, id: IdentityView) -> bool {
    exists|j: int| 0 <= j < items.len() && (#[trigger] items[j]).identity == id
}

/// The track counts answered, in order.
pub open spec fn count_answers(calls: Seq<ProviderCall>) -> Seq<Option<u32>>
    decreases calls.len(),
{
    if calls.len() == 0 {
        Seq::empty()
    } else {
        count_answers(calls.drop_last()) + match calls.last() {
            ProviderCall::TrackCount(_, n) => seq![n],
            _ => Seq::empty(),
        }
    }
}

/// The Albums whose programs were fetched, in order.
pub open spec fn program_calls(calls: Seq<ProviderCall>) -> Seq<IdentityView>
    decreases calls.len(),
{
    if calls.len() == 0 {
        Seq::empty()
    } else {
        program_calls(calls.drop_last()) + match calls.last() {
            ProviderCall::Programs(id) => seq![id],
            _ => Seq::empty(),
        }
    }
}

pub fn copy_programs(p: &Programs) -> (r: Programs)
    ensures
        r@ == p@,
{
    let mut programs: Vec<Program> = Vec::new();
    let mut i: usize = 0;
    while i < p.programs.len()
        invariant
            i <= p.programs.len(),
            program_views(programs@) == program_views(p.programs@).take(i as int),
        decreases p.programs.len() - i,
    {
        let ghost before = program_views(programs@);
        programs.push(p.programs[i].clone());
        assert(program_views(programs@) =~= before.push(p.programs@[i as int]@));
        assert(program_views(p.programs@).take(i + 1) =~= program_views(p.programs@).take(i as int).push(
            p.programs@[i as int]@,
        ));
        i = i + 1;
    }
    assert(program_views(p.programs@).take(p.programs.len() as int) =~= program_views(p.programs@));
    Programs { album: p.album.clone(), programs, note: p.note.clone() }
}

proof fn lemma_with_identity_on_page(items: Seq<AlbumCandidateView>, id: IdentityView, x: AlbumCandidateView)
    requires
        with_identity(items, id).contains(x),
    ensures
        items.contains(x),
    decreases items.len(),
{
    if items.len() > 0 {
        let rest = items.drop_last();
        if with_identity(rest, id).contains(x) {
            lemma_with_identity_on_page(rest, id, x);
            let k = choose|k: int| 0 <= k < rest.len() && rest[k] == x;
            assert(items[k] == x);
        } else {
            let k = choose|k: int| 0 <= k < with_identity(items, id).len() && with_identity(items, id)[k] == x;
            assert(x == items.last());
            assert(items[items.len() - 1] == x);
        }
    }
}

proof fn lemma_survivors_open(cands: Seq<AlbumCandidateView>, counts: Seq<Option<u32>>, req: nat, x: AlbumCandidateView)
    requires
        survivors(cands, counts, req).contains(x),
    ensures
        cands.contains(x),
    decreases cands.len(),
{
    if cands.len() > 0 {
        let rest = cands.drop_last();
        if survivors(rest, counts, req).contains(x) {
            lemma_survivors_open(rest, counts, req, x);
            let k = choose|k: int| 0 <= k < rest.len() && rest[k] == x;
            assert(cands[k] == x);
        } else {
            let k = choose|k: int|
                0 <= k < survivors(cands, counts, req).len() && survivors(cands, counts, req)[k] == x;
            assert(cands[cands.len() - 1] == x);
        }
    }
}

/// Every open candidate is a candidate of the page.
proof fn lemma_open_on_page(
    title: Seq<char>,
    artist: IdentityView,
    items: Seq<AlbumCandidateView>,
    complete: bool,
    manual: bool,
    x: AlbumCandidateView,
)
    requires
        verdict_candidates(album_verdict(title, artist, items, complete, manual), items) matches Some(c)
            && c.contains(x),
    ensures
        items.contains(x),
{
    lemma_ambiguous_on_page(title, artist, items, complete, manual);
    match album_verdict(title, artist, items, complete, manual) {
        AlbumVerdict::Exact(id) => lemma_with_identity_on_page(items, id, x),
        AlbumVerdict::Close(id) => lemma_with_identity_on_page(items, id, x),
        _ => {},
    }
}

fn earlier_programs(programs: &Vec<Programs>, id: &ExternalIdentity) -> (r: Option<usize>)
    ensures
        match r {
            Some(j) => j < programs.len() && programs@[j as int]@.album == id@,
            None => forall|j: int| 0 <= j < programs.len() ==> (#[trigger] programs@[j])@.album != id@,
        },
{
    let mut j: usize = 0;
    while j < programs.len()
        invariant
            j <= programs.len(),
            forall|x: int| 0 <= x < j ==> (#[trigger] programs@[x])@.album != id@,
        decreases programs.len() - j,
    {
        if programs[j].album.same(id) {
            return Some(j);
        }
        j = j + 1;
    }
    None
}

/// Choose among the representations a provider lists for an Album inside a
/// resolved Artist, asking the provider as needed. The provider is asked
/// first whether it lists programs at all; without that, or without local
/// tracks, the first verdict stands and nothing more is asked. Otherwise the
/// track count of every open candidate is asked, and programs are fetched
/// only for at most three surviving candidates, each Album once, reusing the
/// cache (which keeps at most four program sets). The result is what
/// `disambiguation` concludes from the answers. The second part of the result
/// records the questions asked.
#[verifier::spinoff_prover]
#[verifier::rlimit(80)]
pub fn resolve<P: CandidatePrograms>(
    provider: &mut P,
    title: &str,
    artist: &ExternalIdentity,
    page: &Page<ArtistAlbumCandidate>,
    manual: bool,
    local: &[LocalTrackEvidence],
    cache: &mut Vec<Programs>,
) -> (r: (Result<MatchOutcome, CatalogError>, Ghost<Seq<ProviderCall>>))
    ensures
        r.1@.len() >= 1,
        r.1@[0] is Capability,
        !(r.1@[0]->Capability_0) || local@.len() == 0 ==> r.1@.len() == 1 && final(cache)@ == old(cache)@
            && resolved(
            r.0,
            Resolution::Verdict(
                album_verdict(
                    title@,
                    artist@,
                    album_views(page.items@),
                    page.next_offset is None,
                    manual,
                ),
            ),
        ),
        program_calls(r.1@).len() <= MAX_PROGRAM_CANDIDATES,
        program_calls(r.1@).no_duplicates(),
        forall|k: int|
            0 <= k < program_calls(r.1@).len() ==> on_page(
                album_views(page.items@),
                #[trigger] program_calls(r.1@)[k],
            ),
        old(cache).len() <= PROGRAM_CACHE_SIZE ==> final(cache).len() <= PROGRAM_CACHE_SIZE,
        forall|k: int|
            0 <= k < final(cache)@.len() ==> old(cache)@.contains(#[trigger] final(cache)@[k]) || program_calls(
                r.1@,
            ).contains(final(cache)@[k]@.album),
        r.0 is Ok ==> exists|ps: Seq<ProgramsView>|
            resolved(
                r.0,
                #[trigger] disambiguation(
                    title@,
                    artist@,
                    album_views(page.items@),
                    page.next_offset is None,
                    manual,
                    r.1@[0]->Capability_0,
                    local_ev_views(local@),
                    count_answers(r.1@),
                    ps,
                ),
            ),
        r.0 is Err ==> r.1@.last() is Programs,
{
    let ghost items = album_views(page.items@);
    let ghost lv = local_ev_views(local@);
    let ghost complete = page.next_offset is None;
    let ghost old_cache = cache@;
    let supported = provider.album_candidate_programs();
    let ghost mut calls: Seq<ProviderCall> = Seq::empty().push(ProviderCall::Capability(supported));
    proof {
        assert(calls.drop_last() =~= Seq::<ProviderCall>::empty());
        assert(calls.last() == ProviderCall::Capability(supported));
        assert(count_answers(Seq::<ProviderCall>::empty()) =~= Seq::<Option<u32>>::empty());
        assert(program_calls(Seq::<ProviderCall>::empty()) =~= Seq::<IdentityView>::empty());
        assert(count_answers(calls) =~= Seq::<Option<u32>>::empty());
        assert(program_calls(calls) =~= Seq::<IdentityView>::empty());
    }
    if !supported || local.len() == 0 {
        let outcome = accepted_album_confirmed(title, artist, page, manual);
        proof {
            let ps = Seq::<ProgramsView>::empty();
            assert(resolved(
                Ok::<MatchOutcome, CatalogError>(outcome),
                disambiguation(
                    title@,
                    artist@,
                    album_views(page.items@),
                    page.next_offset is None,
                    manual,
                    calls[0]->Capability_0,
                    local_ev_views(local@),
                    count_answers(calls),
                    ps,
                ),
            ));
        }
        return (Ok(outcome), Ghost(calls));
    }
    let cands = match candidate_list(title, artist, page, manual) {
        Some(c) => c,
        None => {
            let outcome = accepted_album_confirmed(title, artist, page, manual);
            proof {
                let ps = Seq::<ProgramsView>::empty();
                assert(resolved(
                    Ok::<MatchOutcome, CatalogError>(outcome),
                    disambiguation(
                        title@,
                        artist@,
                        album_views(page.items@),
                        page.next_offset is None,
                        manual,
                        calls[0]->Capability_0,
                        local_ev_views(local@),
                        count_answers(calls),
                        ps,
                    ),
                ));
            }
            return (Ok(outcome), Ghost(calls));
        },
    };
    let ghost cv = album_views(cands@);
    let mut counts: Vec<Option<u32>> = Vec::new();
    let mut i: usize = 0;
    while i < cands.len()
        invariant
            i <= cands.len(),
            counts@.len() == i,
            calls.len() >= 1,
            calls[0] == ProviderCall::Capability(supported),
            count_answers(calls) == counts@,
            program_calls(calls).len() == 0,
        decreases cands.len() - i,
    {
        let n = provider.album_candidate_track_count(&cands[i].identity);
        proof {
            let before = calls;
            calls = calls.push(ProviderCall::TrackCount(cands@[i as int].identity@, n));
            assert(calls.drop_last() == before);
            assert(calls[0] == before[0]);
        }
        counts.push(n);
        i = i + 1;
    }
    let surviving = surviving_candidates(&cands, counts.as_slice(), local);
    let ghost sv = album_views(surviving@);
    proof {
        assert forall|x: AlbumCandidateView| #[trigger] sv.contains(x) implies items.contains(x) by {
            lemma_survivors_open(cv, counts@, required_count(lv), x);
            lemma_open_on_page(title@, artist@, items, complete, manual, x);
        }
    }
    if !programs_needed(title, artist, page, manual, &surviving) {
        let none: Vec<Programs> = Vec::new();
        assert(answers_fit(title@, artist@, items, complete, manual, true, lv, counts@, 0));
        let outcome = disambiguate(title, artist, page, manual, true, local, counts.as_slice(), none.as_slice());
        return match outcome {
            Some(x) => (x, Ghost(calls)),
            None => {
                proof {
                    assert(false);
                }
                (Ok(accepted_album_confirmed(title, artist, page, manual)), Ghost(calls))
            },
        };
    }
    let mut programs: Vec<Programs> = Vec::new();
    let mut k: usize = 0;
    while k < surviving.len()
        invariant
            k <= surviving.len(),
            supported,
            local@.len() > 0,
            surviving.len() <= MAX_PROGRAM_CANDIDATES,
            sv == album_views(surviving@),
            items == album_views(page.items@),
            forall|x: AlbumCandidateView| #[trigger] sv.contains(x) ==> items.contains(x),
            programs@.len() == k,
            forall|j: int| 0 <= j < k ==> (#[trigger] programs@[j])@.album == sv[j].identity,
            calls.len() >= 1,
            calls[0] == ProviderCall::Capability(supported),
            count_answers(calls) == counts@,
            program_calls(calls).len() <= k,
            program_calls(calls).no_duplicates(),
            forall|x: int|
                0 <= x < program_calls(calls).len() ==> exists|j: int|
                    0 <= j < k && (#[trigger] program_calls(calls)[x]) == sv[j].identity,
            forall|x: int|
                0 <= x < program_calls(calls).len() ==> on_page(items, #[trigger] program_calls(calls)[x]),
            old_cache.len() <= PROGRAM_CACHE_SIZE ==> cache.len() <= PROGRAM_CACHE_SIZE,
            forall|x: int|
                0 <= x < cache@.len() ==> old_cache.contains(#[trigger] cache@[x]) || program_calls(calls).contains(
                    cache@[x]@.album,
                ),
            old_cache == old(cache)@,
        decreases surviving.len() - k,
    {
        let id = &surviving[k].identity;
        assert(sv[k as int].identity == id@);
        match earlier_programs(&programs, id) {
            Some(j) => {
                let p = copy_programs(&programs[j]);
                programs.push(p);
            },
            None => match cached_programs(cache, id) {
                Some(c) => {
                    let p = copy_programs(&cache[c]);
                    programs.push(p);
                },
                None => {
                    let ghost before = calls;
                    let ghost pc = program_calls(calls);
                    proof {
                        calls = calls.push(ProviderCall::Programs(id@));
                        assert(calls.drop_last() == before);
                        assert(calls[0] == before[0]);
                        assert(program_calls(calls) == pc.push(id@));
                        assert forall|x: int| 0 <= x < pc.len() implies pc[x] != id@ by {
                            let j = choose|j: int| 0 <= j < k && pc[x] == sv[j].identity;
                            assert(programs@[j]@.album == sv[j].identity);
                        }
                        assert(sv.contains(sv[k as int]));
                        assert(items.contains(sv[k as int]));
                        let j = choose|j: int| 0 <= j < items.len() && items[j] == sv[k as int];
                        assert(items[j].identity == id@);
                        assert(on_page(items, id@));
                        assert forall|x: int| 0 <= x < program_calls(calls).len() implies on_page(
                            items,
                            #[trigger] program_calls(calls)[x],
                        ) by {
                            if x < pc.len() {
                                assert(program_calls(calls)[x] == pc[x]);
                            }
                        }
                        assert forall|x: int| 0 <= x < program_calls(calls).len() implies exists|j: int|
                            0 <= j < k + 1 && (#[trigger] program_calls(calls)[x]) == sv[j].identity by {
                            if x < pc.len() {
                                assert(program_calls(calls)[x] == pc[x]);
                            }
                        }
                        assert forall|x: int| 0 <= x < cache@.len() implies old_cache.contains(#[trigger] cache@[x])
                            || program_calls(calls).contains(cache@[x]@.album) by {
                            if !old_cache.contains(cache@[x]) {
                                let z = choose|z: int| 0 <= z < pc.len() && pc[z] == cache@[x]@.album;
                                assert(program_calls(calls)[z] == pc[z]);
                            }
                        }
                    }
                    match provider.album_programs(id) {
                        Err(e) => {
                            return (Err(e), Ghost(calls));
                        },
                        Ok(p) => {
                            if !p.album.same(id) {
                                return (
                                    Err(
                                        CatalogError::Other(
                                            "Candidate programs belong to another Album".to_owned(),
                                        ),
                                    ),
                                    Ghost(calls),
                                );
                            }
                            let ghost before_cache = cache@;
                            remember_programs(cache, copy_programs(&p));
                            proof {
                                let pc2 = program_calls(calls);
                                assert(pc2[pc2.len() - 1] == id@);
                                assert forall|x: int| 0 <= x < cache@.len() implies old_cache.contains(
                                    #[trigger] cache@[x],
                                ) || program_calls(calls).contains(cache@[x]@.album) by {
                                    if x == cache@.len() - 1 {
                                        assert(pc2.contains(id@));
                                    } else {
                                        let y = if before_cache.len() == PROGRAM_CACHE_SIZE {
                                            x + 1
                                        } else {
                                            x
                                        };
                                        assert(cache@[x] == before_cache[y]);
                                    }
                                }
                            }
                            programs.push(p);
                        },
                    }
                },
            },
        }
        k = k + 1;
    }
    let ghost pv = programs_views(programs@);
    assert(!misattributed(sv, pv)) by {
        assert forall|j: int| 0 <= j < sv.len() implies (#[trigger] pv[j]).album == sv[j].identity by {
            assert(pv[j] == programs@[j]@);
        }
    }
    assert(answers_fit(title@, artist@, items, complete, manual, true, lv, counts@, programs@.len() as nat));
    let outcome = disambiguate(title, artist, page, manual, true, local, counts.as_slice(), programs.as_slice());
    match outcome {
        Some(x) => (x, Ghost(calls)),
        None => {
            proof {
                assert(false);
            }
            (Ok(accepted_album_confirmed(title, artist, page, manual)), Ghost(calls))
        },
    }
}

// ---------------------------------------------------------------------------
// Laws.

proof fn lemma_keys_append(a: Seq<LocalTrackView>, b: Seq<LocalTrackView>)
    ensures
        presence_keys(a + b) == presence_keys(a) + presence_keys(b),
        max_number(a + b) == (if max_number(a) >= max_number(b) {
            max_number(a)
        } else {
            max_number(b)
        }),
    decreases b.len(),
{
    if b.len() == 0 {
        assert(a + b =~= a);
        assert(presence_keys(a) + presence_keys(b) =~= presence_keys(a));
    } else {
        lemma_keys_append(a, b.drop_last());
        assert((a + b).drop_last() =~= a + b.drop_last());
        assert((a + b).last() == b.last());
    }
}

/// Duplicate placements do not add to the bound: the same tracks listed
/// twice (as in two local editions) require no more of a program.
pub proof fn lemma_duplicates_do_not_raise_bound(local: Seq<LocalTrackView>)
    ensures
        required_count(local + local) == required_count(local),
{
    lemma_keys_append(local, local);
    let k = presence_keys(local);
    assert((k + k).to_set() =~= k.to_set()) by {
        assert forall|x: PresenceKey| (k + k).to_set().contains(x) <==> k.to_set().contains(x) by {
            if (k + k).to_set().contains(x) {
                let i = choose|i: int| 0 <= i < (k + k).len() && (k + k)[i] == x;
                if i >= k.len() {
                    assert(k[i - k.len()] == x);
                } else {
                    assert(k[i] == x);
                }
            }
            if k.to_set().contains(x) {
                let i = choose|i: int| 0 <= i < k.len() && k[i] == x;
                assert((k + k)[i] == x);
            }
        }
    }
}

/// A complete program can hold the tracks present, has no conflicting
/// Recording identity, and leaves at most one present track unexplained and
/// at most one duration incompatible.
pub open spec fn program_passes(local: Seq<LocalTrackView>, p: ProgramView) -> bool {
    &&& p.tracks.len() >= required_count(local)
    &&& fit_of(local, p).identity_conflicts == 0
    &&& fit_of(local, p).unmatched < 2
    &&& fit_of(local, p).duration_mismatches < 2
}

/// How the programs of a candidate fit: uncertain without a complete program
/// set; supported exactly when some program passes and explains every present
/// track; rejected exactly when no program passes.
pub proof fn lemma_fit_characterised(local: Seq<LocalTrackView>, ps: Seq<ProgramView>)
    ensures
        ps.len() == 0 || any_incomplete(ps) ==> fit_verdict(local, ps) is Uncertain,
        !(ps.len() == 0 || any_incomplete(ps)) ==> ((fit_verdict(local, ps) is Supported) <==> (
        local.len() > 0 && exists|i: int|
            0 <= i < ps.len() && program_passes(local, #[trigger] ps[i]) && fit_of(local, ps[i]).unmatched
                == 0)),
        !(ps.len() == 0 || any_incomplete(ps)) ==> ((fit_verdict(local, ps) is Rejected) <==> forall|i: int|
            0 <= i < ps.len() ==> !program_passes(local, #[trigger] ps[i])),
{
    assert forall|i: int| 0 <= i < ps.len() implies ((program_verdict(local, #[trigger] ps[i]) is Rejected)
        <==> !program_passes(local, ps[i])) && ((program_verdict(local, ps[i]) is Supported) <==> (
    program_passes(local, ps[i]) && local.len() > 0 && fit_of(local, ps[i]).unmatched == 0)) by {}
    if !(ps.len() == 0 || any_incomplete(ps)) {
        if forall|i: int| 0 <= i < ps.len() ==> !program_passes(local, #[trigger] ps[i]) {
            assert(!program_passes(local, ps[ps.len() - 1]));
            assert forall|i: int| 0 <= i < ps.len() implies !(program_verdict(local, #[trigger] ps[i]) is Supported)
                && !(program_verdict(local, ps[i]) is Uncertain) by {
                assert(!program_passes(local, ps[i]));
            }
        }
        if exists|i: int| 0 <= i < ps.len() && program_passes(local, #[trigger] ps[i]) {
            let i = choose|i: int| 0 <= i < ps.len() && program_passes(local, #[trigger] ps[i]);
            assert(!(program_verdict(local, ps[i]) is Rejected));
            if !(fit_verdict(local, ps) is Supported) {
                assert(program_verdict(local, ps[i]) is Uncertain);
            }
        }
        if local.len() > 0 && exists|i: int|
            0 <= i < ps.len() && program_passes(local, #[trigger] ps[i]) && fit_of(local, ps[i]).unmatched == 0 {
            let i = choose|i: int|
                0 <= i < ps.len() && program_passes(local, #[trigger] ps[i]) && fit_of(local, ps[i]).unmatched == 0;
            assert(program_verdict(local, ps[i]) is Supported);
        }
        if fit_verdict(local, ps) is Supported {
            let i = choose|i: int| 0 <= i < ps.len() && program_verdict(local, #[trigger] ps[i]) is Supported;
            assert(program_passes(local, ps[i]));
        }
    }
}

/// The bound on a program's length is the larger of the number of distinct
/// places and titles present and the largest track number present.
pub proof fn lemma_required_is_larger_bound(local: Seq<LocalTrackView>)
    ensures
        required_count(local) >= presence_keys(local).to_set().len(),
        required_count(local) >= max_number(local),
        required_count(local) == presence_keys(local).to_set().len() || required_count(local)
            == max_number(local),
        forall|i: int| 0 <= i < local.len() ==> ((#[trigger] local[i]).evidence.number matches Some(n) ==> n
            <= required_count(local)),
{
    assert forall|i: int| 0 <= i < local.len() implies ((#[trigger] local[i]).evidence.number matches Some(n) ==> n
        <= max_number(local)) by {
        lemma_max_number_bounds(local, i);
    }
}

proof fn lemma_max_number_bounds(local: Seq<LocalTrackView>, i: int)
    requires
        0 <= i < local.len(),
    ensures
        local[i].evidence.number matches Some(n) ==> n <= max_number(local),
    decreases local.len(),
{
    if i < local.len() - 1 {
        lemma_max_number_bounds(local.drop_last(), i);
        assert(local.drop_last()[i] == local[i]);
    }
}

} // verus!
