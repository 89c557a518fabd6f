//! Settling a provider's program reply for one Album: explicit confirmations
//! win, and Tracks sharing one Recording never receive contradictory claims.
use vstd::prelude::*;

use crate::album_program::{
    album_outcomes, compare_album, local_ev_views, outcome_views, Input, Match, MatchView,
    Outcome, Programs, ProgramsView, Reply, TrackOutcome, TrackOutcomeView,
};
use crate::catalog::{error_message, provider_unavailable};
use crate::domain::{copy_identities, id_views, IdentityView, RecordingId, TrackId};
use crate::edition::{local_views, same_local_tracks, LocalTrackEvidence, LocalTrackView};
use crate::manual_track::{confirmed_match, Association};
use crate::edition::{artist_ev_views, copy_artists, credit_names, names, ArtistEvidence, ArtistEvidenceView};
use crate::matching::{normalize, normalized};
use crate::text::{chars_of, string_of, trim, trimmed, views};

verus! {

pub open spec fn track_id_views(ids: Seq<TrackId>) -> Seq<Seq<char>> {
    ids.map_values(|i: TrackId| i.0@)
}

/// A track takes part in the comparison unless its source Artist metadata is
/// contradictory and it carries no Recording identity: contradictory metadata
/// must not vote for a template.
pub open spec fn eligible_track(t: LocalTrackView, conflicts: Seq<Seq<char>>) -> bool {
    !conflicts.contains(t.track_id) || t.evidence.recording.identities.len() > 0
}

pub open spec fn eligibility(conflicts: Seq<Seq<char>>) -> spec_fn(LocalTrackView) -> bool {
    |t: LocalTrackView| eligible_track(t, conflicts)
}

/// The explicit confirmation of the last association made for the track with
/// the provider.
pub open spec fn manual_match(manual: Seq<Association>, provider: Seq<char>, id: Seq<char>) -> Option<
    MatchView,
>
    decreases manual.len(),
{
    if manual.len() == 0 {
        None
    } else {
        let m = manual.last();
        if m.album@.provider == provider && m.track_id.0@ == id {
            Some(confirmed_match(m.candidate.evidence@))
        } else {
            manual_match(manual.drop_last(), provider, id)
        }
    }
}

/// The position of the last track with the given id.
pub open spec fn last_index(ts: Seq<LocalTrackView>, id: Seq<char>) -> Option<int>
    decreases ts.len(),
{
    if ts.len() == 0 {
        None
    } else if ts.last().track_id == id {
        Some(ts.len() - 1)
    } else {
        last_index(ts.drop_last(), id)
    }
}

/// An earlier track has the same id.
pub open spec fn seen_before(ts: Seq<LocalTrackView>, i: int) -> bool {
    exists|j: int| 0 <= j < i && (#[trigger] ts[j]).track_id == ts[i].track_id
}

/// A track's outcome before shared Recordings are considered: its explicit
/// confirmation, else the comparison of the last eligible track with its id
/// (given to the first track with that id only), else no confident match.
pub open spec fn first_outcome(
    tracks: Seq<LocalTrackView>,
    i: int,
    eligible: Seq<LocalTrackView>,
    outcomes: Seq<TrackOutcomeView>,
    manual: Seq<Association>,
    provider: Seq<char>,
) -> TrackOutcomeView {
    match manual_match(manual, provider, tracks[i].track_id) {
        Some(m) => TrackOutcomeView::ManuallyMatched(m),
        None => if seen_before(tracks, i) {
            TrackOutcomeView::NoConfidentMatch
        } else {
            match last_index(eligible, tracks[i].track_id) {
                Some(k) => outcomes[k],
                None => TrackOutcomeView::NoConfidentMatch,
            }
        },
    }
}

/// The Recording identities an outcome claims.
pub open spec fn claimed_ids(o: TrackOutcomeView) -> Seq<IdentityView> {
    match o {
        TrackOutcomeView::Matched(m) => m.recording.identities,
        TrackOutcomeView::AlreadyMatched(m) => m.recording.identities,
        _ => Seq::empty(),
    }
}

/// The identities that the first `n` outcomes claim for one Recording.
pub open spec fn claims(
    tracks: Seq<LocalTrackView>,
    first: Seq<TrackOutcomeView>,
    rid: Seq<char>,
    n: int,
) -> Seq<IdentityView>
    decreases n,
{
    if n <= 0 {
        Seq::empty()
    } else {
        claims(tracks, first, rid, n - 1) + if tracks[n - 1].recording_id == rid {
            claimed_ids(first[n - 1])
        } else {
            Seq::empty()
        }
    }
}

/// Two identities of one namespace with different values.
pub open spec fn contradictory(ids: Seq<IdentityView>) -> bool {
    exists|a: int, b: int|
        0 <= a < ids.len() && 0 <= b < ids.len() && (#[trigger] ids[a]).provider
            == (#[trigger] ids[b]).provider && ids[a].kind == ids[b].kind && ids[a].external_id
            != ids[b].external_id
}

/// An outcome that is not an explicit confirmation becomes a conflict when the
/// claims on its Recording contradict each other.
pub open spec fn settled_outcome(tracks: Seq<LocalTrackView>, first: Seq<TrackOutcomeView>, i: int) -> TrackOutcomeView {
    if !(first[i] is ManuallyMatched) && contradictory(
        claims(tracks, first, tracks[i].recording_id, tracks.len() as int),
    ) {
        TrackOutcomeView::ConflictingIdentity
    } else {
        first[i]
    }
}

pub open spec fn first_outcomes(
    tracks: Seq<LocalTrackView>,
    conflicts: Seq<Seq<char>>,
    programs: ProgramsView,
    manual: Seq<Association>,
    provider: Seq<char>,
) -> Seq<TrackOutcomeView> {
    let eligible = tracks.filter(eligibility(conflicts));
    let outcomes = album_outcomes(eligible, programs);
    Seq::new(
        tracks.len(),
        |i: int| first_outcome(tracks, i, eligible, outcomes, manual, provider),
    )
}

/// Every track's settled outcome, in track order.
pub open spec fn settled(
    tracks: Seq<LocalTrackView>,
    conflicts: Seq<Seq<char>>,
    programs: ProgramsView,
    manual: Seq<Association>,
    provider: Seq<char>,
) -> Seq<TrackOutcomeView> {
    let first = first_outcomes(tracks, conflicts, programs, manual, provider);
    Seq::new(tracks.len(), |i: int| settled_outcome(tracks, first, i))
}

// ---------------------------------------------------------------------------
// Copies.

pub fn copy_match(m: &Match) -> (r: Match)
    ensures
        r@ == m@,
{
    Match {
        title: m.title.clone(),
        recording: m.recording.clone(),
        recording_status: m.recording_status,
        occurrences: copy_identities(m.occurrences.as_slice()),
        explanation: m.explanation.clone(),
    }
}

pub fn copy_outcome(o: &TrackOutcome) -> (r: TrackOutcome)
    ensures
        r@ == o@,
{
    match o {
        TrackOutcome::Matched(m) => TrackOutcome::Matched(copy_match(m)),
        TrackOutcome::AlreadyMatched(m) => TrackOutcome::AlreadyMatched(copy_match(m)),
        TrackOutcome::ManuallyMatched(m) => TrackOutcome::ManuallyMatched(copy_match(m)),
        TrackOutcome::Ambiguous => TrackOutcome::Ambiguous,
        TrackOutcome::NoConfidentMatch => TrackOutcome::NoConfidentMatch,
        TrackOutcome::ConflictingIdentity => TrackOutcome::ConflictingIdentity,
    }
}

// ---------------------------------------------------------------------------
// Steps.

fn listed(ids: &[TrackId], id: &TrackId) -> (r: bool)
    ensures
        r == track_id_views(ids@).contains(id.0@),
{
    let ghost v = track_id_views(ids@);
    let mut k: usize = 0;
    while k < ids.len()
        invariant
            k <= ids.len(),
            v == track_id_views(ids@),
            forall|x: int| 0 <= x < k ==> v[x] != id.0@,
        decreases ids.len() - k,
    {
        if ids[k].0 == id.0 {
            assert(v[k as int] == id.0@);
            return true;
        }
        k = k + 1;
    }
    false
}

fn eligible_of(tracks: &[LocalTrackEvidence], conflicts: &[TrackId]) -> (r: Vec<LocalTrackEvidence>)
    ensures
        local_ev_views(r@) == local_ev_views(tracks@).filter(eligibility(track_id_views(conflicts@))),
{
    let ghost tv = local_ev_views(tracks@);
    let ghost p = eligibility(track_id_views(conflicts@));
    proof {
        crate::text::lemma_filter_empty(tv, p);
    }
    let mut out: Vec<LocalTrackEvidence> = Vec::new();
    let mut i: usize = 0;
    while i < tracks.len()
        invariant
            i <= tracks.len(),
            tv == local_ev_views(tracks@),
            p == eligibility(track_id_views(conflicts@)),
            local_ev_views(out@) == tv.take(i as int).filter(p),
        decreases tracks.len() - i,
    {
        proof {
            crate::text::lemma_filter_step(tv, p, i as int);
        }
        let t = &tracks[i];
        assert(tv[i as int] == t@);
        let keep = !listed(conflicts, &t.track_id) || t.evidence.recording.identities.len() > 0;
        if keep {
            let ghost before = local_ev_views(out@);
            out.push(t.clone());
            assert(local_ev_views(out@) =~= before.push(tv[i as int]));
        }
        i = i + 1;
    }
    assert(tv.take(tracks.len() as int) =~= tv);
    out
}

fn manual_for(manual: &[Association], provider: &String, id: &TrackId) -> (r: Option<Match>)
    ensures
        match r {
            Some(m) => manual_match(manual@, provider@, id.0@) == Some(m@),
            None => manual_match(manual@, provider@, id.0@) is None,
        },
{
    let mut k: usize = manual.len();
    assert(manual@.take(k as int) =~= manual@);
    while k > 0
        invariant
            k <= manual.len(),
            manual_match(manual@, provider@, id.0@) == manual_match(
                manual@.take(k as int),
                provider@,
                id.0@,
            ),
        decreases k,
    {
        k = k - 1;
        let m = &manual[k];
        let ghost t = manual@.take(k + 1);
        assert(t.drop_last() =~= manual@.take(k as int));
        assert(t.last() == *m);
        if m.album.provider == *provider && m.track_id.0 == id.0 {
            return Some(m.matched());
        }
    }
    assert(manual@.take(0) =~= Seq::<Association>::empty());
    None
}

fn last_of(ts: &[LocalTrackEvidence], id: &TrackId) -> (r: Option<usize>)
    ensures
        match r {
            Some(k) => last_index(local_ev_views(ts@), id.0@) == Some(k as int) && k < ts@.len(),
            None => last_index(local_ev_views(ts@), id.0@) is None,
        },
{
    let ghost tv = local_ev_views(ts@);
    let mut k: usize = ts.len();
    assert(tv.take(k as int) =~= tv);
    while k > 0
        invariant
            k <= ts.len(),
            tv == local_ev_views(ts@),
            last_index(tv, id.0@) == last_index(tv.take(k as int), id.0@),
        decreases k,
    {
        k = k - 1;
        let ghost t = tv.take(k + 1);
        assert(t.drop_last() =~= tv.take(k as int));
        assert(t.last() == ts@[k as int]@);
        if ts[k].track_id.0 == id.0 {
            return Some(k);
        }
    }
    assert(tv.take(0) =~= Seq::<LocalTrackView>::empty());
    None
}

fn seen(ts: &[LocalTrackEvidence], i: usize) -> (r: bool)
    requires
        i < ts@.len(),
    ensures
        r == seen_before(local_ev_views(ts@), i as int),
{
    let ghost tv = local_ev_views(ts@);
    let mut j: usize = 0;
    while j < i
        invariant
            j <= i,
            i < ts@.len(),
            tv == local_ev_views(ts@),
            forall|x: int| 0 <= x < j ==> (#[trigger] tv[x]).track_id != tv[i as int].track_id,
        decreases i - j,
    {
        assert(tv[j as int] == ts@[j as int]@);
        assert(tv[i as int] == ts@[i as int]@);
        if ts[j].track_id.0 == ts[i].track_id.0 {
            return true;
        }
        j = j + 1;
    }
    false
}

fn push_claims(o: &TrackOutcome, out: &mut Vec<crate::domain::ExternalIdentity>)
    ensures
        id_views(final(out)@) == id_views(old(out)@) + claimed_ids(o@),
{
    match o {
        TrackOutcome::Matched(m) | TrackOutcome::AlreadyMatched(m) => {
            let ids = &m.recording.identities;
            let ghost start = id_views(out@);
            let mut k: usize = 0;
            while k < ids.len()
                invariant
                    k <= ids.len(),
                    id_views(out@) == start + id_views(ids@).take(k as int),
                decreases ids.len() - k,
            {
                let ghost before = id_views(out@);
                out.push(ids[k].clone());
                assert(id_views(out@) =~= before.push(id_views(ids@)[k as int]));
                assert(id_views(ids@).take(k + 1) =~= id_views(ids@).take(k as int).push(
                    id_views(ids@)[k as int],
                ));
                k = k + 1;
            }
            assert(id_views(ids@).take(ids.len() as int) =~= id_views(ids@));
        },
        _ => {
            assert(id_views(out@) =~= id_views(out@) + Seq::<IdentityView>::empty());
        },
    }
}

fn claims_of(tracks: &[LocalTrackEvidence], first: &Vec<TrackOutcome>, rid: &RecordingId) -> (r: Vec<
    crate::domain::ExternalIdentity,
>)
    requires
        first@.len() == tracks@.len(),
    ensures
        id_views(r@) == claims(
            local_ev_views(tracks@),
            outcome_views(first@),
            rid.0@,
            tracks@.len() as int,
        ),
{
    let ghost tv = local_ev_views(tracks@);
    let ghost fv = outcome_views(first@);
    let mut out: Vec<crate::domain::ExternalIdentity> = Vec::new();
    let mut j: usize = 0;
    while j < tracks.len()
        invariant
            j <= tracks.len(),
            first@.len() == tracks@.len(),
            tv == local_ev_views(tracks@),
            fv == outcome_views(first@),
            id_views(out@) == claims(tv, fv, rid.0@, j as int),
        decreases tracks.len() - j,
    {
        assert(tv[j as int] == tracks@[j as int]@);
        assert(fv[j as int] == first@[j as int]@);
        if tracks[j].recording_id.0 == rid.0 {
            push_claims(&first[j], &mut out);
        } else {
            assert(id_views(out@) =~= id_views(out@) + Seq::<IdentityView>::empty());
        }
        j = j + 1;
    }
    out
}

fn contradicts(ids: &Vec<crate::domain::ExternalIdentity>) -> (r: bool)
    ensures
        r == contradictory(id_views(ids@)),
{
    let ghost v = id_views(ids@);
    let mut a: usize = 0;
    while a < ids.len()
        invariant
            a <= ids.len(),
            v == id_views(ids@),
            forall|x: int, y: int|
                0 <= x < a && 0 <= y < v.len() ==> !((#[trigger] v[x]).provider
                    == (#[trigger] v[y]).provider && v[x].kind == v[y].kind && v[x].external_id
                    != v[y].external_id),
        decreases ids.len() - a,
    {
        let mut b: usize = 0;
        while b < ids.len()
            invariant
                a < ids.len(),
                b <= ids.len(),
                v == id_views(ids@),
                forall|x: int, y: int|
                    0 <= x < a && 0 <= y < v.len() ==> !((#[trigger] v[x]).provider
                        == (#[trigger] v[y]).provider && v[x].kind == v[y].kind
                        && v[x].external_id != v[y].external_id),
                forall|y: int|
                    0 <= y < b ==> !(v[a as int].provider == (#[trigger] v[y]).provider
                        && v[a as int].kind == v[y].kind && v[a as int].external_id
                        != v[y].external_id),
            decreases ids.len() - b,
        {
            let x = &ids[a];
            let y = &ids[b];
            assert(v[a as int] == x@ && v[b as int] == y@);
            if x.provider == y.provider && x.kind == y.kind && !(x.external_id == y.external_id) {
                return true;
            }
            b = b + 1;
        }
        a = a + 1;
    }
    false
}

/// Every track's outcome once explicit confirmations and shared Recordings are
/// taken into account, in track order with the track it belongs to. Tracks
/// whose source Artist metadata conflicts take part in the comparison only with
/// a Recording identity.
pub fn settle_album(input: &Input, programs: &Programs, manual: &[Association]) -> (r: Vec<
    (LocalTrackEvidence, TrackOutcome),
>)
    ensures
        r@.len() == input.tracks@.len(),
        forall|i: int|
            0 <= i < r@.len() ==> (#[trigger] r@[i]).0@ == input.tracks@[i]@ && r@[i].1@
                == settled(
                local_ev_views(input.tracks@),
                track_id_views(input.artist_conflicts@),
                programs@,
                manual@,
                input.album@.provider,
            )[i],
{
    let ghost tv = local_ev_views(input.tracks@);
    let ghost conflicts = track_id_views(input.artist_conflicts@);
    let ghost provider = input.album@.provider;
    let tracks = input.tracks.as_slice();
    let eligible = eligible_of(tracks, input.artist_conflicts.as_slice());
    let outcomes = compare_album(eligible.as_slice(), programs);
    let ghost ev = local_ev_views(eligible@);
    let ghost ov = outcome_views(outcomes@);
    let ghost expected_first = first_outcomes(tv, conflicts, programs@, manual@, provider);
    assert(outcomes@.len() == eligible@.len()) by {
        assert(ov.len() == ev.len());
    }
    let mut first: Vec<TrackOutcome> = Vec::new();
    let mut i: usize = 0;
    while i < tracks.len()
        invariant
            i <= tracks.len(),
            tracks@ == input.tracks@,
            tv == local_ev_views(tracks@),
            ev == local_ev_views(eligible@),
            ev == tv.filter(eligibility(conflicts)),
            ov == outcome_views(outcomes@),
            ov == album_outcomes(ev, programs@),
            outcomes@.len() == eligible@.len(),
            provider == input.album@.provider,
            expected_first == first_outcomes(tv, conflicts, programs@, manual@, provider),
            first@.len() == i,
            forall|k: int|
                0 <= k < i ==> (#[trigger] outcome_views(first@)[k]) == expected_first[k],
        decreases tracks.len() - i,
    {
        let t = &tracks[i];
        assert(tv[i as int] == t@);
        let o = match manual_for(manual, &input.album.provider, &t.track_id) {
            Some(m) => TrackOutcome::ManuallyMatched(m),
            None => if seen(tracks, i) {
                TrackOutcome::NoConfidentMatch
            } else {
                match last_of(eligible.as_slice(), &t.track_id) {
                    Some(k) => {
                        assert(ov[k as int] == outcomes@[k as int]@);
                        copy_outcome(&outcomes[k])
                    },
                    None => TrackOutcome::NoConfidentMatch,
                }
            },
        };
        assert(o@ == first_outcome(tv, i as int, ev, ov, manual@, provider));
        let ghost before = outcome_views(first@);
        first.push(o);
        assert(outcome_views(first@) =~= before.push(o@));
        i = i + 1;
    }
    let ghost fv = outcome_views(first@);
    assert(fv =~= expected_first);
    let mut out: Vec<(LocalTrackEvidence, TrackOutcome)> = Vec::new();
    let mut i: usize = 0;
    while i < tracks.len()
        invariant
            i <= tracks.len(),
            tracks@ == input.tracks@,
            tv == local_ev_views(tracks@),
            first@.len() == tracks@.len(),
            fv == outcome_views(first@),
            fv == first_outcomes(tv, conflicts, programs@, manual@, provider),
            out@.len() == i,
            forall|k: int|
                0 <= k < i ==> (#[trigger] out@[k]).0@ == tracks@[k]@ && out@[k].1@
                    == settled_outcome(tv, fv, k),
        decreases tracks.len() - i,
    {
        let t = &tracks[i];
        assert(tv[i as int] == t@);
        assert(fv[i as int] == first@[i as int]@);
        let manual_choice = match &first[i] {
            TrackOutcome::ManuallyMatched(_) => true,
            _ => false,
        };
        let o = if !manual_choice && contradicts(&claims_of(tracks, &first, &t.recording_id)) {
            TrackOutcome::ConflictingIdentity
        } else {
            copy_outcome(&first[i])
        };
        assert(o@ == settled_outcome(tv, fv, i as int));
        out.push((t.clone(), o));
        i = i + 1;
    }
    out
}

/// The programs a reply carries, or the outcome it ends with: a provider
/// outage defers, any other failure and a reply for another Album are errors.
pub fn reply_programs(reply: Reply) -> (r: Result<(Input, Programs), Outcome>)
    ensures
        match reply.result {
            Err(e) => if provider_unavailable(e) {
                r == Err::<(Input, Programs), Outcome>(Outcome::Deferred(e))
            } else {
                r matches Err(Outcome::Error(m)) && m@ == error_message(e)
            },
            Ok(p) => if p.album@ == reply.input.album@ {
                r == Ok::<(Input, Programs), Outcome>((reply.input, p))
            } else {
                r matches Err(Outcome::Error(m)) && m@ == "provider returned another Album"@
            },
        },
{
    let Reply { input, result } = reply;
    match result {
        Err(e) => if e.is_provider_unavailable() {
            Err(Outcome::Deferred(e))
        } else {
            Err(Outcome::Error(e.message()))
        },
        Ok(p) => if p.album.same(&input.album) {
            Ok((input, p))
        } else {
            Err(Outcome::Error(string_of(chars_of("provider returned another Album").as_slice())))
        },
    }
}

/// The local evidence a reply was computed from is still what is stored:
/// the Album still carries the asked Album identity (`album_exists`), and its
/// tracks and Artist conflicts are unchanged. Otherwise the reply is not
/// applied and enrichment is retried.
pub fn evidence_current(
    input: &Input,
    album_exists: bool,
    tracks: &[LocalTrackEvidence],
    conflicts: &[TrackId],
) -> (r: Result<(), Outcome>)
    ensures
        r is Ok <==> album_exists && local_views(tracks@) == local_views(input.tracks@)
            && track_id_views(conflicts@) == track_id_views(input.artist_conflicts@),
        r matches Err(o) ==> o matches Outcome::Error(m) && m@
            == "local evidence changed; retry enrichment"@,
{
    if album_exists && same_local_tracks(tracks, input.tracks.as_slice()) && same_track_ids(
        conflicts,
        input.artist_conflicts.as_slice(),
    ) {
        Ok(())
    } else {
        Err(Outcome::Error("local evidence changed; retry enrichment".to_owned()))
    }
}

fn same_track_ids(a: &[TrackId], b: &[TrackId]) -> (r: bool)
    ensures
        r == (track_id_views(a@) == track_id_views(b@)),
{
    if a.len() != b.len() {
        assert(track_id_views(a@).len() != track_id_views(b@).len());
        return false;
    }
    let mut i: usize = 0;
    while i < a.len()
        invariant
            i <= a.len(),
            a.len() == b.len(),
            forall|k: int| 0 <= k < i ==> (#[trigger] a@[k]).0@ == b@[k].0@,
        decreases a.len() - i,
    {
        if !(a[i].0 == b[i].0) {
            assert(track_id_views(a@)[i as int] != track_id_views(b@)[i as int]);
            return false;
        }
        i = i + 1;
    }
    assert(track_id_views(a@) =~= track_id_views(b@));
    true
}

// ---------------------------------------------------------------------------
// A track's own Artist evidence.

pub open spec fn source_views(s: Seq<Vec<String>>) -> Seq<Seq<Seq<char>>> {
    s.map_values(|v: Vec<String>| views(v@))
}

/// Every source names the same Artists as the first.
pub open spec fn sources_agree(sources: Seq<Seq<Seq<char>>>) -> bool {
    forall|k: int| 0 <= k < sources.len() ==> #[trigger] sources[k] == sources[0]
}

/// The track names no Artist of its own and its sources disagree.
pub open spec fn source_conflict(name: Seq<char>, sources: Seq<Seq<Seq<char>>>) -> bool {
    name.len() == 0 && sources.len() > 0 && !sources_agree(sources)
}

/// The Artist names the track states: its own credit unless blank, else the
/// names its sources agree on, else none.
pub open spec fn local_names(name: Seq<char>, sources: Seq<Seq<Seq<char>>>) -> Seq<Seq<char>> {
    if trimmed(name).len() > 0 {
        seq![name]
    } else if sources.len() > 0 && sources_agree(sources) {
        sources[0]
    } else {
        Seq::empty()
    }
}

/// The Album credit is reused only on exact agreement of normalized names:
/// name by name, or one local credit equal to the whole Album credit.
pub open spec fn adopts_album_credit(local: Seq<Seq<char>>, album: Seq<ArtistEvidenceView>) -> bool {
    &&& album.len() > 0
    &&& (local.map_values(|n: Seq<char>| normalized(n)) == album.map_values(
        |a: ArtistEvidenceView| normalized(a.name),
    ) || (local.len() == 1 && normalized(local[0]) == credit_names(album)))
}

pub open spec fn plain_artist(n: Seq<char>) -> ArtistEvidenceView {
    ArtistEvidenceView { identities: Seq::empty(), name: n, join_phrase: Seq::empty() }
}

/// The Artist evidence of a track without any: the Album credit where the
/// local names agree with it exactly, else the local names alone.
pub open spec fn chosen_artists(
    name: Seq<char>,
    sources: Seq<Seq<Seq<char>>>,
    album: Seq<ArtistEvidenceView>,
) -> Seq<ArtistEvidenceView> {
    let local = local_names(name, sources);
    if adopts_album_credit(local, album) {
        album
    } else {
        local.map_values(|n: Seq<char>| plain_artist(n))
    }
}

fn strings_equal(a: &Vec<String>, b: &Vec<String>) -> (r: bool)
    ensures
        r == (views(a@) == views(b@)),
{
    if a.len() != b.len() {
        assert(views(a@).len() != views(b@).len());
        return false;
    }
    let mut k: usize = 0;
    while k < a.len()
        invariant
            k <= a.len(),
            a.len() == b.len(),
            forall|x: int| 0 <= x < k ==> (#[trigger] views(a@)[x]) == views(b@)[x],
        decreases a.len() - k,
    {
        if !(a[k] == b[k]) {
            assert(views(a@)[k as int] != views(b@)[k as int]);
            return false;
        }
        k = k + 1;
    }
    assert(views(a@) =~= views(b@));
    true
}

fn agree(sources: &Vec<Vec<String>>) -> (r: bool)
    requires
        sources@.len() > 0,
    ensures
        r == sources_agree(source_views(sources@)),
{
    let ghost sv = source_views(sources@);
    let mut k: usize = 0;
    while k < sources.len()
        invariant
            k <= sources.len(),
            sources@.len() > 0,
            sv == source_views(sources@),
            forall|x: int| 0 <= x < k ==> #[trigger] sv[x] == sv[0],
        decreases sources.len() - k,
    {
        assert(sv[k as int] == views(sources@[k as int]@));
        assert(sv[0] == views(sources@[0]@));
        if !strings_equal(&sources[k], &sources[0]) {
            return false;
        }
        k = k + 1;
    }
    true
}

fn normalized_names_agree(local: &Vec<String>, album: &Vec<ArtistEvidence>) -> (r: bool)
    ensures
        r == (views(local@).map_values(|n: Seq<char>| normalized(n)) == artist_ev_views(
            album@,
        ).map_values(|a: ArtistEvidenceView| normalized(a.name))),
{
    let ghost left = views(local@).map_values(|n: Seq<char>| normalized(n));
    let ghost right = artist_ev_views(album@).map_values(|a: ArtistEvidenceView| normalized(a.name));
    if local.len() != album.len() {
        assert(left.len() != right.len());
        return false;
    }
    let mut k: usize = 0;
    while k < local.len()
        invariant
            k <= local.len(),
            local.len() == album.len(),
            left == views(local@).map_values(|n: Seq<char>| normalized(n)),
            right == artist_ev_views(album@).map_values(|a: ArtistEvidenceView| normalized(a.name)),
            forall|x: int| 0 <= x < k ==> (#[trigger] left[x]) == right[x],
        decreases local.len() - k,
    {
        let l = normalize(local[k].as_str());
        let a = normalize(album[k].name.as_str());
        assert(left[k as int] == l@);
        assert(right[k as int] == a@);
        if !(l == a) {
            return false;
        }
        k = k + 1;
    }
    assert(left =~= right);
    true
}

/// The Artist evidence of a track that has none, from its effective credit
/// `name`, the Artist names of each of its available sources (in source order)
/// and the Album credit; and whether those sources contradict each other while
/// the track names no Artist.
pub fn track_artists(name: &String, sources: &Vec<Vec<String>>, album: &Vec<ArtistEvidence>) -> (r: (
    Vec<ArtistEvidence>,
    bool,
))
    ensures
        artist_ev_views(r.0@) == chosen_artists(
            name@,
            source_views(sources@),
            artist_ev_views(album@),
        ),
        r.1 == source_conflict(name@, source_views(sources@)),
{
    let ghost sv = source_views(sources@);
    let agreeing = sources.len() > 0 && agree(sources);
    let conflict = chars_of(name.as_str()).len() == 0 && sources.len() > 0 && !agreeing;
    let local: Vec<String> = if trim(&chars_of(name.as_str())).len() > 0 {
        let mut v: Vec<String> = Vec::new();
        v.push(name.clone());
        assert(views(v@) =~= seq![name@]);
        v
    } else if agreeing {
        assert(sv[0] == views(sources@[0]@));
        crate::domain::copy_strings(sources[0].as_slice())
    } else {
        let v: Vec<String> = Vec::new();
        assert(views(v@) =~= Seq::<Seq<char>>::empty());
        v
    };
    let ghost lv = views(local@);
    assert(lv == local_names(name@, sv));
    let ghost album_view = artist_ev_views(album@);
    let adopt = album.len() > 0 && (normalized_names_agree(&local, album) || (local.len() == 1
        && normalize(local[0].as_str()) == names(album)));
    proof {
        if local.len() == 1 {
            assert(lv[0] == local@[0]@);
        }
    }
    if adopt {
        (copy_artists(album), conflict)
    } else {
        let mut out: Vec<ArtistEvidence> = Vec::new();
        let mut k: usize = 0;
        while k < local.len()
            invariant
                k <= local.len(),
                lv == views(local@),
                artist_ev_views(out@) == lv.take(k as int).map_values(
                    |n: Seq<char>| plain_artist(n),
                ),
            decreases local.len() - k,
        {
            let a = ArtistEvidence {
                identities: Vec::new(),
                name: local[k].clone(),
                join_phrase: String::new(),
            };
            assert(id_views(a.identities@) =~= Seq::<IdentityView>::empty());
            assert(a.join_phrase@ =~= Seq::<char>::empty());
            assert(lv[k as int] == local@[k as int]@);
            assert(a@ =~= plain_artist(lv[k as int]));
            let ghost before = artist_ev_views(out@);
            out.push(a);
            assert(artist_ev_views(out@) =~= before.push(plain_artist(lv[k as int])));
            assert(lv.take(k + 1).map_values(|n: Seq<char>| plain_artist(n)) =~= lv.take(
                k as int,
            ).map_values(|n: Seq<char>| plain_artist(n)).push(plain_artist(lv[k as int])));
            k = k + 1;
        }
        assert(lv.take(local.len() as int) =~= lv);
        (out, conflict)
    }
}

// ---------------------------------------------------------------------------
// What settling promises.

proof fn lemma_claim_member(
    tracks: Seq<LocalTrackView>,
    first: Seq<TrackOutcomeView>,
    rid: Seq<char>,
    n: int,
    k: int,
    x: int,
)
    requires
        0 <= k < n,
        tracks[k].recording_id == rid,
        0 <= x < claimed_ids(first[k]).len(),
    ensures
        claims(tracks, first, rid, n).contains(claimed_ids(first[k])[x]),
    decreases n,
{
    let prev = claims(tracks, first, rid, n - 1);
    let tail = if tracks[n - 1].recording_id == rid {
        claimed_ids(first[n - 1])
    } else {
        Seq::empty()
    };
    assert(claims(tracks, first, rid, n) == prev + tail);
    if k < n - 1 {
        lemma_claim_member(tracks, first, rid, n - 1, k, x);
        let y = choose|y: int| 0 <= y < prev.len() && prev[y] == claimed_ids(first[k])[x];
        assert((prev + tail)[y] == prev[y]);
    } else {
        assert((prev + tail)[prev.len() + x] == tail[x]);
    }
}

/// An explicit confirmation always stands: a track confirmed for the Album's
/// provider is manually matched, whatever the programs and other tracks say.
pub proof fn lemma_confirmation_stands(
    tracks: Seq<LocalTrackView>,
    conflicts: Seq<Seq<char>>,
    programs: ProgramsView,
    manual: Seq<Association>,
    provider: Seq<char>,
    i: int,
)
    requires
        0 <= i < tracks.len(),
        manual_match(manual, provider, tracks[i].track_id) is Some,
    ensures
        settled(tracks, conflicts, programs, manual, provider)[i]
            == TrackOutcomeView::ManuallyMatched(
            manual_match(manual, provider, tracks[i].track_id)->0,
        ),
{
}

/// Tracks that share a Recording never keep contradictory Recording
/// identities: what their settled matches claim agrees in every namespace.
pub proof fn lemma_shared_recordings_agree(
    tracks: Seq<LocalTrackView>,
    conflicts: Seq<Seq<char>>,
    programs: ProgramsView,
    manual: Seq<Association>,
    provider: Seq<char>,
    i: int,
    j: int,
    a: int,
    b: int,
)
    requires
        0 <= i < tracks.len(),
        0 <= j < tracks.len(),
        tracks[i].recording_id == tracks[j].recording_id,
        0 <= a < claimed_ids(settled(tracks, conflicts, programs, manual, provider)[i]).len(),
        0 <= b < claimed_ids(settled(tracks, conflicts, programs, manual, provider)[j]).len(),
        claimed_ids(settled(tracks, conflicts, programs, manual, provider)[i])[a].provider
            == claimed_ids(settled(tracks, conflicts, programs, manual, provider)[j])[b].provider,
        claimed_ids(settled(tracks, conflicts, programs, manual, provider)[i])[a].kind
            == claimed_ids(settled(tracks, conflicts, programs, manual, provider)[j])[b].kind,
    ensures
        claimed_ids(settled(tracks, conflicts, programs, manual, provider)[i])[a].external_id
            == claimed_ids(settled(tracks, conflicts, programs, manual, provider)[j])[b].external_id,
{
    let first = first_outcomes(tracks, conflicts, programs, manual, provider);
    let s = settled(tracks, conflicts, programs, manual, provider);
    let rid = tracks[i].recording_id;
    let n = tracks.len() as int;
    assert(s[i] == settled_outcome(tracks, first, i));
    assert(s[j] == settled_outcome(tracks, first, j));
    assert(s[i] == first[i]);
    assert(s[j] == first[j]);
    lemma_claim_member(tracks, first, rid, n, i, a);
    lemma_claim_member(tracks, first, rid, n, j, b);
    let c = claims(tracks, first, rid, n);
    let x = choose|x: int| 0 <= x < c.len() && c[x] == claimed_ids(first[i])[a];
    let y = choose|y: int| 0 <= y < c.len() && c[y] == claimed_ids(first[j])[b];
    assert(!contradictory(c));
    assert(c[x].provider == c[y].provider && c[x].kind == c[y].kind);
}

/// Provider identities reach a track's Artist evidence only through exact
/// agreement with the Album credit, never through fuzzy names: otherwise the
/// chosen Artists carry names alone.
pub proof fn lemma_identities_need_agreement(
    name: Seq<char>,
    sources: Seq<Seq<Seq<char>>>,
    album: Seq<ArtistEvidenceView>,
    k: int,
)
    requires
        !adopts_album_credit(local_names(name, sources), album),
        0 <= k < chosen_artists(name, sources, album).len(),
    ensures
        chosen_artists(name, sources, album)[k].identities.len() == 0,
        chosen_artists(name, sources, album)[k].name == local_names(name, sources)[k],
{
}

} // verus!
