//! Album-scoped program evidence. No provider hierarchy or exact edition required.
use vstd::prelude::*;

use crate::catalog::CatalogError;
use crate::domain::{id_views, AlbumId, ExternalIdentity, IdentityView, TrackId};
use crate::edit::{within, within_edits};
use crate::edition::{
    artist_ev_views, credit_names, holds, names, opt_chars, overlap_identities, overlaps,
    track_ev_views, ArtistEvidence, ArtistEvidenceView, LocalTrackEvidence, LocalTrackView,
    RecordingEvidence, RecordingEvidenceView, TrackEvidence, TrackEvidenceView,
};
use crate::text::{
    append_chars, char_is_alphanumeric, chars_eq, chars_of, first_occurrences, is_alnum,
    join_words, joined,
    lemma_lex_order, lex_less, lex_lt, lowercase_of, split_whitespace, string_of, to_lowercase,
    views, vviews, ws_words,
};

verus! {

#[derive(Debug, PartialEq, Eq)]
pub struct Program {
    /// Diagnostic provenance only; never accepted as the local edition identity.
    pub identity: Option<ExternalIdentity>,
    /// Musical order flattened by the adapter; positions remain diagnostic evidence.
    pub tracks: Vec<TrackEvidence>,
    pub complete: bool,
}

#[derive(Debug, PartialEq, Eq)]
pub struct Programs {
    pub album: ExternalIdentity,
    pub programs: Vec<Program>,
    /// Sampling is bounded; this is not a claim to have examined every edition.
    pub note: String,
}

#[derive(Debug, PartialEq, Eq)]
pub struct Input {
    pub album_id: AlbumId,
    pub album: ExternalIdentity,
    pub tracks: Vec<LocalTrackEvidence>,
    pub artist_conflicts: Vec<TrackId>,
}

#[derive(Debug)]
pub struct Reply {
    pub input: Input,
    pub result: Result<Programs, CatalogError>,
}

#[derive(Debug, PartialEq, Eq)]
pub struct Match {
    pub title: String,
    pub recording: RecordingEvidence,
    pub recording_status: RecordingStatus,
    pub occurrences: Vec<ExternalIdentity>,
    pub explanation: String,
}

#[derive(Clone, Copy, Debug, PartialEq, Eq)]
pub enum RecordingStatus {
    Identified,
    Ambiguous,
    NotProvided,
    DurationMismatch,
}

#[derive(Debug, PartialEq, Eq)]
pub enum TrackOutcome {
    Matched(Match),
    AlreadyMatched(Match),
    ManuallyMatched(Match),
    Ambiguous,
    NoConfidentMatch,
    ConflictingIdentity,
}

#[derive(Debug, PartialEq, Eq)]
pub enum Outcome {
    Pending,
    Complete(Vec<(LocalTrackEvidence, TrackOutcome)>),
    Deferred(CatalogError),
    Error(String),
}

pub const DURATION_TOLERANCE_MS: u64 = 3000;

pub struct ProgramView {
    pub identity: Option<IdentityView>,
    pub tracks: Seq<TrackEvidenceView>,
    pub complete: bool,
}

impl View for Program {
    type V = ProgramView;

    open spec fn view(&self) -> ProgramView {
        ProgramView {
            identity: match self.identity {
                Some(i) => Some(i@),
                None => None,
            },
            tracks: track_ev_views(self.tracks@),
            complete: self.complete,
        }
    }
}

pub open spec fn program_views(s: Seq<Program>) -> Seq<ProgramView> {
    s.map_values(|p: Program| p@)
}

pub struct ProgramsView {
    pub album: IdentityView,
    pub programs: Seq<ProgramView>,
    pub note: Seq<char>,
}

impl View for Programs {
    type V = ProgramsView;

    open spec fn view(&self) -> ProgramsView {
        ProgramsView {
            album: self.album@,
            programs: program_views(self.programs@),
            note: self.note@,
        }
    }
}

// ---------------------------------------------------------------------------
// Title keys.

/// Letters, digits and `&` are kept; everything else separates words.
pub open spec fn title_char(c: char) -> char {
    if is_alnum(c) || c == '&' {
        c
    } else {
        ' '
    }
}

/// Letters and digits are kept; everything else separates words.
pub open spec fn punct_char(c: char) -> char {
    if is_alnum(c) {
        c
    } else {
        ' '
    }
}

pub open spec fn title_chars(s: Seq<char>) -> Seq<char> {
    s.map_values(|c: char| title_char(c))
}

pub open spec fn punct_chars(s: Seq<char>) -> Seq<char> {
    s.map_values(|c: char| punct_char(c))
}

/// A lone `&` reads as "and".
pub open spec fn and_word(w: Seq<char>) -> Seq<char> {
    if w == seq!['&'] {
        seq!['a', 'n', 'd']
    } else {
        w
    }
}

pub open spec fn and_words(ws: Seq<Seq<char>>) -> Seq<Seq<char>> {
    ws.map_values(|w: Seq<char>| and_word(w))
}

/// The comparison title: lowercase, letters, digits and `&` only, single
/// spaces between words, a lone `&` spelled "and".
pub open spec fn comparison_key(s: Seq<char>) -> Seq<char> {
    joined(and_words(ws_words(title_chars(lowercase_of(s)))), seq![' '])
}

/// The punctuation-only comparison: lowercase letters and digits, single
/// spaces between words.
pub open spec fn punctuation_key(s: Seq<char>) -> Seq<char> {
    joined(ws_words(punct_chars(lowercase_of(s))), seq![' '])
}

/// Replace every character that is not kept by a space.
fn blank_symbols(v: &Vec<char>, keep_ampersand: bool) -> (r: Vec<char>)
    ensures
        r@ == (if keep_ampersand {
            title_chars(v@)
        } else {
            punct_chars(v@)
        }),
{
    let mut out: Vec<char> = Vec::new();
    let mut i: usize = 0;
    while i < v.len()
        invariant
            i <= v.len(),
            out@ == (if keep_ampersand {
                title_chars(v@.take(i as int))
            } else {
                punct_chars(v@.take(i as int))
            }),
        decreases v.len() - i,
    {
        let c = v[i];
        let keep = char_is_alphanumeric(c) || (keep_ampersand && c == '&');
        out.push(
            if keep {
                c
            } else {
                ' '
            },
        );
        i = i + 1;
        proof {
            if keep_ampersand {
                assert(out@ =~= title_chars(v@.take(i as int)));
            } else {
                assert(out@ =~= punct_chars(v@.take(i as int)));
            }
        }
    }
    proof {
        assert(v@.take(v.len() as int) =~= v@);
    }
    out
}

fn and_spelling(words: &Vec<Vec<char>>) -> (r: Vec<Vec<char>>)
    ensures
        vviews(r@) == and_words(vviews(words@)),
{
    let mut out: Vec<Vec<char>> = Vec::new();
    let mut i: usize = 0;
    while i < words.len()
        invariant
            i <= words.len(),
            vviews(out@) == and_words(vviews(words@).take(i as int)),
        decreases words.len() - i,
    {
        let w = &words[i];
        let mut next: Vec<char> = Vec::new();
        if w.len() == 1 && w[0] == '&' {
            next.push('a');
            next.push('n');
            next.push('d');
            assert(w@ =~= seq!['&']);
            assert(next@ =~= seq!['a', 'n', 'd']);
        } else {
            crate::text::append_chars(&mut next, w);
            assert(w@ != seq!['&']);
        }
        let ghost before = vviews(out@);
        let ghost nv = next@;
        out.push(next);
        proof {
            assert(nv == and_word(vviews(words@)[i as int]));
            assert(vviews(out@) =~= before.push(nv));
            assert(vviews(words@).take(i + 1) =~= vviews(words@).take(i as int).push(
                vviews(words@)[i as int],
            ));
            assert(and_words(vviews(words@).take(i + 1)) =~= and_words(
                vviews(words@).take(i as int),
            ).push(nv));
        }
        i = i + 1;
    }
    assert(vviews(words@).take(words.len() as int) =~= vviews(words@));
    out
}

/// The title used for comparison: lowercase, punctuation removed, whitespace
/// collapsed, and a lone `&` read as "and".
pub fn comparison_title(s: &str) -> (r: String)
    ensures
        r@ == comparison_key(s@),
{
    let lower = chars_of(to_lowercase(s).as_str());
    let words = split_whitespace(&blank_symbols(&lower, true));
    let spelled = and_spelling(&words);
    string_of(join_words(&spelled, ' ').as_slice())
}

/// The punctuation-only comparison of a title.
fn punctuation_title(s: &str) -> (r: Vec<char>)
    ensures
        r@ == punctuation_key(s@),
{
    let lower = chars_of(to_lowercase(s).as_str());
    let words = split_whitespace(&blank_symbols(&lower, false));
    join_words(&words, ' ')
}

/// Words that mark a version of a Track.
pub open spec fn program_qualifier(w: Seq<char>) -> bool {
    ||| w == "live"@
    ||| w == "remix"@
    ||| w == "demo"@
    ||| w == "acoustic"@
    ||| w == "edit"@
    ||| w == "remaster"@
    ||| w == "remastered"@
    ||| w == "mix"@
    ||| w == "version"@
}

/// The version qualifiers among the words of a comparison title, in order.
pub open spec fn program_qualifiers(s: Seq<char>) -> Seq<Seq<char>> {
    ws_words(s).filter(|w: Seq<char>| program_qualifier(w))
}

fn is_qualifier(w: &Vec<char>) -> (r: bool)
    ensures
        r == program_qualifier(w@),
{
    chars_eq(w, &chars_of("live")) || chars_eq(w, &chars_of("remix")) || chars_eq(
        w,
        &chars_of("demo"),
    ) || chars_eq(w, &chars_of("acoustic")) || chars_eq(w, &chars_of("edit")) || chars_eq(
        w,
        &chars_of("remaster"),
    ) || chars_eq(w, &chars_of("remastered")) || chars_eq(w, &chars_of("mix")) || chars_eq(
        w,
        &chars_of("version"),
    )
}

fn qualifiers(s: &str) -> (r: Vec<Vec<char>>)
    ensures
        vviews(r@) == program_qualifiers(s@),
{
    let words = split_whitespace(&chars_of(s));
    let ghost ws = vviews(words@);
    let ghost p = |w: Seq<char>| program_qualifier(w);
    proof {
        crate::text::lemma_filter_empty(ws, p);
    }
    let mut out: Vec<Vec<char>> = Vec::new();
    let mut i: usize = 0;
    while i < words.len()
        invariant
            i <= words.len(),
            ws == vviews(words@),
            p == (|w: Seq<char>| program_qualifier(w)),
            vviews(out@) == ws.take(i as int).filter(p),
        decreases words.len() - i,
    {
        proof {
            crate::text::lemma_filter_step(ws, p, i as int);
        }
        if is_qualifier(&words[i]) {
            let ghost before = vviews(out@);
            let mut w: Vec<char> = Vec::new();
            crate::text::append_chars(&mut w, &words[i]);
            out.push(w);
            assert(vviews(out@) =~= before.push(ws[i as int]));
        }
        i = i + 1;
    }
    assert(ws.take(words.len() as int) =~= ws);
    out
}

/// At most one edit apart, both at least five characters long.
fn close(a: &str, b: &str) -> (r: bool)
    ensures
        r == within_edits(a@, b@, 1, 5),
{
    within(&chars_of(a), &chars_of(b), 1, 5)
}

// ---------------------------------------------------------------------------
// Identity comparisons.

/// Some identity of `a` shares its namespace with an identity of `b`, yet is
/// not itself among `b`.
pub open spec fn namespace_conflict(a: Seq<IdentityView>, b: Seq<IdentityView>) -> bool {
    exists|x: int|
        0 <= x < a.len() && (exists|y: int|
            0 <= y < b.len() && (#[trigger] a[x]).provider == (#[trigger] b[y]).provider
                && a[x].kind == b[y].kind) && !b.contains(a[x])
}

fn in_namespace_of(id: &ExternalIdentity, b: &Vec<ExternalIdentity>) -> (r: bool)
    ensures
        r == (exists|y: int|
            0 <= y < b.len() && id@.provider == (#[trigger] id_views(b@)[y]).provider && id@.kind
                == id_views(b@)[y].kind),
{
    let ghost bv = id_views(b@);
    let mut j: usize = 0;
    while j < b.len()
        invariant
            j <= b.len(),
            bv == id_views(b@),
            forall|y: int|
                0 <= y < j ==> !(id@.provider == (#[trigger] bv[y]).provider && id@.kind
                    == bv[y].kind),
        decreases b.len() - j,
    {
        if id.same_namespace(&b[j]) {
            assert(id@.provider == bv[j as int].provider && id@.kind == bv[j as int].kind);
            return true;
        }
        j = j + 1;
    }
    false
}

fn conflict(a: &Vec<ExternalIdentity>, b: &Vec<ExternalIdentity>) -> (r: bool)
    ensures
        r == namespace_conflict(id_views(a@), id_views(b@)),
{
    let ghost av = id_views(a@);
    let ghost bv = id_views(b@);
    let mut i: usize = 0;
    while i < a.len()
        invariant
            i <= a.len(),
            av == id_views(a@),
            bv == id_views(b@),
            forall|x: int|
                0 <= x < i ==> !((exists|y: int|
                    0 <= y < bv.len() && (#[trigger] av[x]).provider == (#[trigger] bv[y]).provider
                        && av[x].kind == bv[y].kind) && !bv.contains(av[x])),
        decreases a.len() - i,
    {
        if in_namespace_of(&a[i], b) && !holds(b, &a[i]) {
            assert(av[i as int] == a@[i as int]@);
            return true;
        }
        assert(av[i as int] == a@[i as int]@);
        i = i + 1;
    }
    false
}

fn shared(a: &Vec<ExternalIdentity>, b: &Vec<ExternalIdentity>) -> (r: bool)
    ensures
        r == overlaps(id_views(a@), id_views(b@)),
{
    overlap_identities(a, b)
}

/// The normalized printed credit of a list of Artist evidence.
fn artist_name(a: &Vec<ArtistEvidence>) -> (r: String)
    ensures
        r@ == credit_names(artist_ev_views(a@)),
{
    names(a)
}

// ---------------------------------------------------------------------------
// One candidate track.

#[derive(Clone, Copy, Debug, PartialEq, Eq)]
pub struct CandidateCheck {
    pub exact_title: bool,
    pub position: bool,
    pub trusted_identity: bool,
    pub identity_conflict: bool,
    pub duration_mismatch: bool,
    pub considered: bool,
    pub reason: &'static str,
}

pub struct CheckView {
    pub exact_title: bool,
    pub position: bool,
    pub trusted_identity: bool,
    pub identity_conflict: bool,
    pub duration_mismatch: bool,
    pub considered: bool,
    pub reason: Seq<char>,
}

impl View for CandidateCheck {
    type V = CheckView;

    open spec fn view(&self) -> CheckView {
        CheckView {
            exact_title: self.exact_title,
            position: self.position,
            trusted_identity: self.trusted_identity,
            identity_conflict: self.identity_conflict,
            duration_mismatch: self.duration_mismatch,
            considered: self.considered,
            reason: self.reason@,
        }
    }
}

pub open spec fn text_or_empty(t: Option<Seq<char>>) -> Seq<char> {
    match t {
        Some(v) => v,
        None => Seq::empty(),
    }
}

/// A missing disc number reads as the first disc.
pub open spec fn disc_or_first(d: Option<u32>) -> u32 {
    match d {
        Some(v) => v,
        None => 1,
    }
}

/// The nonempty comparison titles agree, or so do the punctuation-only forms.
pub open spec fn exact_title(l: TrackEvidenceView, c: TrackEvidenceView) -> bool {
    let name = comparison_key(text_or_empty(l.title));
    name.len() > 0 && (name == comparison_key(text_or_empty(c.title)) || punctuation_key(
        text_or_empty(l.title),
    ) == punctuation_key(text_or_empty(c.title)))
}

/// The local track is numbered, and either sits at the candidate's disc and
/// number, or is on the first disc at the candidate's place in the program.
pub open spec fn position_agrees(l: TrackEvidenceView, c: TrackEvidenceView, index: int) -> bool {
    match l.number {
        Some(n) => (l.number == c.number && disc_or_first(l.disc) == disc_or_first(c.disc)) || (
        disc_or_first(l.disc) == 1 && n == index + 1),
        None => false,
    }
}

/// Both durations are known and further apart than the tolerance.
pub open spec fn duration_mismatch(l: TrackEvidenceView, c: TrackEvidenceView) -> bool {
    match (l.duration_ms, c.duration_ms) {
        (Some(a), Some(b)) => (if a >= b {
            a - b
        } else {
            b - a
        }) > DURATION_TOLERANCE_MS,
        _ => false,
    }
}

/// The identities of every credited artist, in credit order.
pub open spec fn flat_ids(artists: Seq<ArtistEvidenceView>) -> Seq<IdentityView>
    decreases artists.len(),
{
    if artists.len() == 0 {
        Seq::empty()
    } else {
        flat_ids(artists.drop_last()) + artists.last().identities
    }
}

pub open spec fn same_provider_somewhere(a: Seq<IdentityView>, b: Seq<IdentityView>) -> bool {
    exists|x: int, y: int|
        0 <= x < a.len() && 0 <= y < b.len() && (#[trigger] a[x]).provider == (#[trigger] b[y]).provider
}

/// The title gate: a shared Recording identity, an exact title, or a
/// positional match whose titles carry the same qualifiers and are one edit apart.
pub open spec fn title_gate(l: TrackEvidenceView, c: TrackEvidenceView, index: int) -> bool {
    let name = comparison_key(text_or_empty(l.title));
    let cand = comparison_key(text_or_empty(c.title));
    ||| overlaps(l.recording.identities, c.recording.identities)
    ||| exact_title(l, c)
    ||| (position_agrees(l, c, index) && program_qualifiers(name) == program_qualifiers(cand)
        && within_edits(name, cand, 1, 5))
}

/// Artist identities conflict, or nothing links the credits and their
/// printed names differ.
pub open spec fn artist_disagreement(l: TrackEvidenceView, c: TrackEvidenceView) -> bool {
    let a = flat_ids(l.artists);
    let b = flat_ids(c.artists);
    ||| namespace_conflict(a, b)
    ||| (!overlaps(a, b) && !same_provider_somewhere(a, b) && l.artists.len() > 0
        && c.artists.len() > 0 && credit_names(l.artists) != credit_names(c.artists))
}

/// Why a considered candidate was considered.
pub open spec fn considered_reason(l: TrackEvidenceView, c: TrackEvidenceView) -> Seq<char> {
    if namespace_conflict(l.recording.identities, c.recording.identities) {
        "conflicting existing Recording identity"@
    } else if overlaps(l.recording.identities, c.recording.identities) {
        "trusted Recording identity (duration is diagnostic)"@
    } else if duration_mismatch(l, c) {
        "exact normalized title; duration diagnostic if unique in program"@
    } else if exact_title(l, c) {
        "exact normalized title"@
    } else {
        "positional one-edit title tolerance"@
    }
}

/// The inspection of candidate track `c` at `index` for local track `l`.
pub open spec fn candidate_check(l: TrackEvidenceView, c: TrackEvidenceView, index: int) -> CheckView {
    let trusted = overlaps(l.recording.identities, c.recording.identities);
    let exact = exact_title(l, c);
    let identity_conflict = namespace_conflict(l.recording.identities, c.recording.identities);
    let mismatch = duration_mismatch(l, c);
    let (considered, reason) = if !title_gate(l, c, index) {
        (false, "title/semantic qualifier disagreement"@)
    } else if !trusted && artist_disagreement(l, c) {
        (false, "Artist disagreement"@)
    } else if !trusted && mismatch && !identity_conflict && !exact {
        (false, "duration outside 3000 ms tolerance for near-title association"@)
    } else {
        (true, considered_reason(l, c))
    };
    CheckView {
        exact_title: exact,
        position: position_agrees(l, c, index),
        trusted_identity: trusted,
        identity_conflict,
        duration_mismatch: mismatch,
        considered,
        reason,
    }
}

fn flat_identities(artists: &Vec<ArtistEvidence>) -> (r: Vec<ExternalIdentity>)
    ensures
        id_views(r@) == flat_ids(artist_ev_views(artists@)),
{
    let ghost av = artist_ev_views(artists@);
    let mut out: Vec<ExternalIdentity> = Vec::new();
    let mut i: usize = 0;
    while i < artists.len()
        invariant
            i <= artists.len(),
            av == artist_ev_views(artists@),
            id_views(out@) == flat_ids(av.take(i as int)),
        decreases artists.len() - i,
    {
        let ids = &artists[i].identities;
        let ghost start = id_views(out@);
        let mut j: usize = 0;
        while j < ids.len()
            invariant
                j <= ids.len(),
                id_views(out@) == start + id_views(ids@).take(j as int),
            decreases ids.len() - j,
        {
            let x = ids[j].clone();
            let ghost before = id_views(out@);
            out.push(x);
            proof {
                assert(id_views(out@) =~= before.push(ids@[j as int]@));
                assert(id_views(ids@).take(j + 1) =~= id_views(ids@).take(j as int).push(
                    ids@[j as int]@,
                ));
            }
            j = j + 1;
            assert(id_views(out@) =~= start + id_views(ids@).take(j as int));
        }
        assert(id_views(ids@).take(ids.len() as int) =~= id_views(ids@));
        assert(av.take(i + 1).drop_last() =~= av.take(i as int));
        i = i + 1;
    }
    assert(av.take(artists.len() as int) =~= av);
    out
}

fn same_provider_anywhere(a: &Vec<ExternalIdentity>, b: &Vec<ExternalIdentity>) -> (r: bool)
    ensures
        r == same_provider_somewhere(id_views(a@), id_views(b@)),
{
    let ghost av = id_views(a@);
    let ghost bv = id_views(b@);
    let mut i: usize = 0;
    while i < a.len()
        invariant
            i <= a.len(),
            av == id_views(a@),
            bv == id_views(b@),
            forall|x: int, y: int|
                0 <= x < i && 0 <= y < bv.len() ==> (#[trigger] av[x]).provider != (#[trigger] bv[y]).provider,
        decreases a.len() - i,
    {
        let mut j: usize = 0;
        while j < b.len()
            invariant
                i < a.len(),
                j <= b.len(),
                av == id_views(a@),
                bv == id_views(b@),
                forall|x: int, y: int|
                    0 <= x < i && 0 <= y < bv.len() ==> (#[trigger] av[x]).provider != (
                    #[trigger] bv[y]).provider,
                forall|y: int| 0 <= y < j ==> av[i as int].provider != (#[trigger] bv[y]).provider,
            decreases b.len() - j,
        {
            if a[i].provider == b[j].provider {
                assert(av[i as int].provider == bv[j as int].provider);
                return true;
            }
            j = j + 1;
        }
        i = i + 1;
    }
    false
}

/// Inspect one candidate track for a local track. Shared by the comparator
/// and the diagnostic probe, so rejection reasons cannot drift.
pub fn inspect_candidate(local: &LocalTrackEvidence, c: &TrackEvidence, index: usize) -> (r:
    CandidateCheck)
    ensures
        r@ == candidate_check(local@.evidence, c@, index as int),
{
    let l = &local.evidence;
    let ghost lv = l@;
    let ghost cv = c@;
    proof {
        reveal_strlit("");
    }
    let local_title: &str = match &l.title {
        Some(t) => t.as_str(),
        None => "",
    };
    let candidate_title: &str = match &c.title {
        Some(t) => t.as_str(),
        None => "",
    };
    assert(local_title@ == text_or_empty(lv.title));
    assert(candidate_title@ == text_or_empty(cv.title));
    let name = comparison_title(local_title);
    let candidate = comparison_title(candidate_title);
    let exact = !name.as_str().is_empty() && (name == candidate || chars_eq(
        &punctuation_title(local_title),
        &punctuation_title(candidate_title),
    ));
    let trusted = shared(&l.recording.identities, &c.recording.identities);
    let local_disc = match l.disc {
        Some(d) => d,
        None => 1,
    };
    let candidate_disc = match c.disc {
        Some(d) => d,
        None => 1,
    };
    let position = match l.number {
        Some(n) => (l.number == c.number && local_disc == candidate_disc) || (local_disc == 1 && n
            >= 1 && (n - 1) as usize == index),
        None => false,
    };
    let identity_conflict = conflict(&l.recording.identities, &c.recording.identities);
    let mismatch = match (l.duration_ms, c.duration_ms) {
        (Some(a), Some(b)) => (if a >= b {
            a - b
        } else {
            b - a
        }) > DURATION_TOLERANCE_MS,
        _ => false,
    };
    let mut check = CandidateCheck {
        exact_title: exact,
        position,
        trusted_identity: trusted,
        identity_conflict,
        duration_mismatch: mismatch,
        considered: false,
        reason: "title/semantic qualifier disagreement",
    };
    if !trusted && !exact && !(position && crate::text::words_eq(
        &qualifiers(name.as_str()),
        &qualifiers(candidate.as_str()),
    ) && close(name.as_str(), candidate.as_str())) {
        return check;
    }
    let a = flat_identities(&l.artists);
    let b = flat_identities(&c.artists);
    if !trusted && (conflict(&a, &b) || (!shared(&a, &b) && !same_provider_anywhere(&a, &b)
        && l.artists.len() > 0 && c.artists.len() > 0 && !(artist_name(&l.artists)
        == artist_name(&c.artists)))) {
        check.reason = "Artist disagreement";
        return check;
    }
    if !trusted && mismatch && !identity_conflict && !exact {
        check.reason = "duration outside 3000 ms tolerance for near-title association";
        return check;
    }
    check.considered = true;
    check.reason = if identity_conflict {
        "conflicting existing Recording identity"
    } else if trusted {
        "trusted Recording identity (duration is diagnostic)"
    } else if mismatch {
        "exact normalized title; duration diagnostic if unique in program"
    } else if exact {
        "exact normalized title"
    } else {
        "positional one-edit title tolerance"
    };
    check
}

// ---------------------------------------------------------------------------
// The eligible mappings of a local track into one program.

/// Every candidate of a program, inspected, with its index.
pub open spec fn program_checks(l: TrackEvidenceView, p: ProgramView) -> Seq<(int, CheckView)> {
    Seq::new(p.tracks.len(), |i: int| (i, candidate_check(l, p.tracks[i], i)))
}

/// The properties by which candidates are narrowed.
#[derive(Clone, Copy)]
pub enum Criterion {
    Considered,
    Trusted,
    ExactTitle,
    Position,
}

pub open spec fn meets(c: CheckView, by: Criterion) -> bool {
    match by {
        Criterion::Considered => c.considered,
        Criterion::Trusted => c.trusted_identity,
        Criterion::ExactTitle => c.exact_title,
        Criterion::Position => c.position,
    }
}

pub open spec fn keeper(by: Criterion) -> spec_fn((int, CheckView)) -> bool {
    |x: (int, CheckView)| meets(x.1, by)
}

pub open spec fn any_meets(s: Seq<(int, CheckView)>, by: Criterion) -> bool {
    exists|k: int| 0 <= k < s.len() && meets((#[trigger] s[k]).1, by)
}

/// Keep the candidates meeting `by`, if any does.
pub open spec fn narrowed(s: Seq<(int, CheckView)>, by: Criterion) -> Seq<(int, CheckView)> {
    if any_meets(s, by) {
        s.filter(keeper(by))
    } else {
        s
    }
}

/// The considered candidates; of those, the trusted ones if any, else the
/// exact-title ones if any; of those, the positional ones if any.
pub open spec fn eligible_checks(l: TrackEvidenceView, p: ProgramView) -> Seq<(int, CheckView)> {
    let considered = program_checks(l, p).filter(keeper(Criterion::Considered));
    let by_identity = if any_meets(considered, Criterion::Trusted) {
        considered.filter(keeper(Criterion::Trusted))
    } else {
        narrowed(considered, Criterion::ExactTitle)
    };
    narrowed(by_identity, Criterion::Position)
}

pub open spec fn choice_views(s: Seq<(usize, CandidateCheck)>) -> Seq<(int, CheckView)> {
    s.map_values(|x: (usize, CandidateCheck)| (x.0 as int, x.1@))
}

fn meets_exec(c: &CandidateCheck, by: Criterion) -> (r: bool)
    ensures
        r == meets(c@, by),
{
    match by {
        Criterion::Considered => c.considered,
        Criterion::Trusted => c.trusted_identity,
        Criterion::ExactTitle => c.exact_title,
        Criterion::Position => c.position,
    }
}

fn any_meeting(v: &Vec<(usize, CandidateCheck)>, by: Criterion) -> (r: bool)
    ensures
        r == any_meets(choice_views(v@), by),
{
    let ghost cv = choice_views(v@);
    let mut i: usize = 0;
    while i < v.len()
        invariant
            i <= v.len(),
            cv == choice_views(v@),
            forall|k: int| 0 <= k < i ==> !meets((#[trigger] cv[k]).1, by),
        decreases v.len() - i,
    {
        if meets_exec(&v[i].1, by) {
            assert(meets(cv[i as int].1, by));
            return true;
        }
        i = i + 1;
    }
    false
}

fn narrow(v: Vec<(usize, CandidateCheck)>, by: Criterion) -> (r: Vec<(usize, CandidateCheck)>)
    ensures
        choice_views(r@) == choice_views(v@).filter(keeper(by)),
{
    let ghost cv = choice_views(v@);
    let ghost p = keeper(by);
    proof {
        crate::text::lemma_filter_empty(cv, p);
    }
    let mut out: Vec<(usize, CandidateCheck)> = Vec::new();
    let mut i: usize = 0;
    while i < v.len()
        invariant
            i <= v.len(),
            cv == choice_views(v@),
            p == keeper(by),
            choice_views(out@) == cv.take(i as int).filter(p),
        decreases v.len() - i,
    {
        proof {
            crate::text::lemma_filter_step(cv, p, i as int);
        }
        let x = v[i];
        if meets_exec(&x.1, by) {
            let ghost before = choice_views(out@);
            out.push(x);
            assert(choice_views(out@) =~= before.push(cv[i as int]));
        }
        i = i + 1;
    }
    assert(cv.take(v.len() as int) =~= cv);
    out
}

/// The candidates of `program` that local track `local` may map to.
fn mappings(local: &LocalTrackEvidence, program: &Program) -> (r: Vec<(usize, CandidateCheck)>)
    ensures
        choice_views(r@) == eligible_checks(local@.evidence, program@),
{
    let ghost all_checks = program_checks(local@.evidence, program@);
    let mut all: Vec<(usize, CandidateCheck)> = Vec::new();
    let mut i: usize = 0;
    while i < program.tracks.len()
        invariant
            i <= program.tracks.len(),
            all_checks == program_checks(local@.evidence, program@),
            choice_views(all@) == all_checks.take(i as int),
        decreases program.tracks.len() - i,
    {
        let check = inspect_candidate(local, &program.tracks[i], i);
        let ghost before = choice_views(all@);
        all.push((i, check));
        proof {
            assert(program@.tracks[i as int] == program.tracks@[i as int]@);
            assert(choice_views(all@) =~= before.push(all_checks[i as int]));
            assert(all_checks.take(i + 1) =~= all_checks.take(i as int).push(all_checks[i as int]));
        }
        i = i + 1;
    }
    assert(all_checks.take(program.tracks.len() as int) =~= all_checks);
    let considered = narrow(all, Criterion::Considered);
    let by_identity = if any_meeting(&considered, Criterion::Trusted) {
        narrow(considered, Criterion::Trusted)
    } else if any_meeting(&considered, Criterion::ExactTitle) {
        narrow(considered, Criterion::ExactTitle)
    } else {
        considered
    };
    if any_meeting(&by_identity, Criterion::Position) {
        narrow(by_identity, Criterion::Position)
    } else {
        by_identity
    }
}

// ---------------------------------------------------------------------------
// How well one program fits the local tracks.

#[derive(Clone, Copy, Debug, PartialEq, Eq, PartialOrd, Ord)]
pub enum Agreement {
    Missing,
    ExactTitle,
    PositionalTolerance,
    ExactPosition,
    TrustedRecording,
}

/// The strength of an agreement, in declaration order.
pub open spec fn rank(a: Agreement) -> int {
    match a {
        Agreement::Missing => 0,
        Agreement::ExactTitle => 1,
        Agreement::PositionalTolerance => 2,
        Agreement::ExactPosition => 3,
        Agreement::TrustedRecording => 4,
    }
}

fn rank_of(a: Agreement) -> (r: u8)
    ensures
        r == rank(a),
{
    match a {
        Agreement::Missing => 0,
        Agreement::ExactTitle => 1,
        Agreement::PositionalTolerance => 2,
        Agreement::ExactPosition => 3,
        Agreement::TrustedRecording => 4,
    }
}

#[derive(Clone, Debug, PartialEq, Eq)]
pub struct ProgramFit {
    pub identity_conflicts: usize,
    pub exact_positions: usize,
    pub tolerant_positions: usize,
    pub duration_mismatches: usize,
    pub unmatched: usize,
    pub agreements: Vec<Agreement>,
}

impl Default for ProgramFit {
    fn default() -> (r: Self)
        ensures
            r.identity_conflicts == 0,
            r.exact_positions == 0,
            r.tolerant_positions == 0,
            r.duration_mismatches == 0,
            r.unmatched == 0,
            r.agreements@.len() == 0,
    {
        ProgramFit {
            identity_conflicts: 0,
            exact_positions: 0,
            tolerant_positions: 0,
            duration_mismatches: 0,
            unmatched: 0,
            agreements: Vec::new(),
        }
    }
}

/// The one eligible mapping of a local track, if there is exactly one.
pub open spec fn sole_choice(l: TrackEvidenceView, p: ProgramView) -> Option<CheckView> {
    let e = eligible_checks(l, p);
    if e.len() == 1 {
        Some(e[0].1)
    } else {
        None
    }
}

pub open spec fn agreement_of(choice: Option<CheckView>) -> Agreement {
    match choice {
        None => Agreement::Missing,
        Some(c) => if c.identity_conflict {
            Agreement::Missing
        } else if c.trusted_identity {
            Agreement::TrustedRecording
        } else if c.exact_title && c.position {
            Agreement::ExactPosition
        } else if c.position {
            Agreement::PositionalTolerance
        } else {
            Agreement::ExactTitle
        },
    }
}

pub open spec fn fit_agreements(local: Seq<LocalTrackView>, p: ProgramView) -> Seq<Agreement> {
    Seq::new(local.len(), |i: int| agreement_of(sole_choice(local[i].evidence, p)))
}

pub open spec fn one_if(b: bool) -> nat {
    if b {
        1
    } else {
        0
    }
}

/// Per-track tallies over the local tracks: identity conflicts, tolerant
/// positions, duration mismatches without trusted identity, unmatched tracks.
pub open spec fn fit_tallies(local: Seq<LocalTrackView>, p: ProgramView) -> (nat, nat, nat, nat)
    decreases local.len(),
{
    if local.len() == 0 {
        (0, 0, 0, 0)
    } else {
        let (a, b, c, d) = fit_tallies(local.drop_last(), p);
        match sole_choice(local.last().evidence, p) {
            None => (a, b, c, d + 1),
            Some(k) => (
                a + one_if(k.identity_conflict),
                b + one_if(!k.exact_title && k.position),
                c + one_if(k.duration_mismatch && !k.trusted_identity),
                d,
            ),
        }
    }
}

/// The places (disc, number) of local tracks mapped by exact title and position.
pub open spec fn exact_keys(local: Seq<LocalTrackView>, p: ProgramView) -> Seq<(u32, Option<u32>)>
    decreases local.len(),
{
    if local.len() == 0 {
        Seq::empty()
    } else {
        let t = local.last().evidence;
        exact_keys(local.drop_last(), p) + match sole_choice(t, p) {
            Some(k) => if k.exact_title && k.position {
                seq![(disc_or_first(t.disc), t.number)]
            } else {
                Seq::empty()
            },
            None => Seq::empty(),
        }
    }
}

pub struct FitView {
    pub identity_conflicts: usize,
    pub exact_positions: usize,
    pub tolerant_positions: usize,
    pub duration_mismatches: usize,
    pub unmatched: usize,
    pub agreements: Seq<Agreement>,
}

impl View for ProgramFit {
    type V = FitView;

    open spec fn view(&self) -> FitView {
        FitView {
            identity_conflicts: self.identity_conflicts,
            exact_positions: self.exact_positions,
            tolerant_positions: self.tolerant_positions,
            duration_mismatches: self.duration_mismatches,
            unmatched: self.unmatched,
            agreements: self.agreements@,
        }
    }
}

/// The fit of a program to the local tracks.
pub open spec fn fit_of(local: Seq<LocalTrackView>, p: ProgramView) -> FitView {
    let (conflicts, tolerant, mismatches, unmatched) = fit_tallies(local, p);
    FitView {
        identity_conflicts: conflicts as usize,
        exact_positions: exact_keys(local, p).to_set().len() as usize,
        tolerant_positions: tolerant as usize,
        duration_mismatches: mismatches as usize,
        unmatched: unmatched as usize,
        agreements: fit_agreements(local, p),
    }
}

fn agreement_for(c: &CandidateCheck) -> (r: Agreement)
    ensures
        r == agreement_of(Some(c@)),
{
    if c.identity_conflict {
        Agreement::Missing
    } else if c.trusted_identity {
        Agreement::TrustedRecording
    } else if c.exact_title && c.position {
        Agreement::ExactPosition
    } else if c.position {
        Agreement::PositionalTolerance
    } else {
        Agreement::ExactTitle
    }
}

fn holds_key(keys: &Vec<(u32, Option<u32>)>, key: (u32, Option<u32>)) -> (r: bool)
    ensures
        r == keys@.contains(key),
{
    let mut j: usize = 0;
    while j < keys.len()
        invariant
            j <= keys.len(),
            forall|k: int| 0 <= k < j ==> keys@[k] != key,
        decreases keys.len() - j,
    {
        if keys[j].0 == key.0 && keys[j].1 == key.1 {
            assert(keys@[j as int] == key);
            return true;
        }
        j = j + 1;
    }
    false
}

pub open spec fn local_ev_views(s: Seq<LocalTrackEvidence>) -> Seq<LocalTrackView> {
    s.map_values(|t: LocalTrackEvidence| t@)
}

/// How well `program` fits the local tracks: per track, the sole eligible
/// mapping's agreement, and the tallies over all tracks.
pub fn program_fit(local: &[LocalTrackEvidence], program: &Program) -> (r: ProgramFit)
    ensures
        r@ == fit_of(local_ev_views(local@), program@),
{
    let ghost lv = local_ev_views(local@);
    let ghost pv = program@;
    let mut fit = ProgramFit::default();
    let mut keys: Vec<(u32, Option<u32>)> = Vec::new();
    let mut i: usize = 0;
    while i < local.len()
        invariant
            i <= local.len(),
            lv == local_ev_views(local@),
            pv == program@,
            fit.agreements@ == fit_agreements(lv, pv).take(i as int),
            (fit.identity_conflicts as nat, fit.tolerant_positions as nat,
                fit.duration_mismatches as nat, fit.unmatched as nat) == fit_tallies(
                lv.take(i as int),
                pv,
            ),
            fit.identity_conflicts <= i,
            fit.tolerant_positions <= i,
            fit.duration_mismatches <= i,
            fit.unmatched <= i,
            keys@.no_duplicates(),
            keys@.to_set() == exact_keys(lv.take(i as int), pv).to_set(),
        decreases local.len() - i,
    {
        let track = &local[i];
        let ghost t = lv[i as int].evidence;
        assert(t == track@.evidence);
        assert(lv.take(i + 1).drop_last() =~= lv.take(i as int));
        assert(lv.take(i + 1).last() == lv[i as int]);
        let ghost old_keys = exact_keys(lv.take(i as int), pv);
        let choices = mappings(track, program);
        assert(choice_views(choices@).len() == choices@.len());
        if choices.len() != 1 {
            fit.unmatched = fit.unmatched + 1;
            fit.agreements.push(Agreement::Missing);
            assert(exact_keys(lv.take(i + 1), pv) =~= old_keys);
        } else {
            let c = choices[0].1;
            assert(choice_views(choices@)[0].1 == c@);
            if c.identity_conflict {
                fit.identity_conflicts = fit.identity_conflicts + 1;
            }
            if c.duration_mismatch && !c.trusted_identity {
                fit.duration_mismatches = fit.duration_mismatches + 1;
            }
            if c.exact_title && c.position {
                let key = (
                    match track.evidence.disc {
                        Some(d) => d,
                        None => 1,
                    },
                    track.evidence.number,
                );
                assert(exact_keys(lv.take(i + 1), pv) =~= old_keys.push(key));
                proof {
                    old_keys.lemma_push_to_set_commute(key);
                }
                if !holds_key(&keys, key) {
                    proof {
                        keys@.lemma_push_to_set_commute(key);
                    }
                    keys.push(key);
                } else {
                    assert(keys@.to_set().insert(key) =~= keys@.to_set());
                }
            } else {
                assert(exact_keys(lv.take(i + 1), pv) =~= old_keys);
            }
            if !c.exact_title && c.position {
                fit.tolerant_positions = fit.tolerant_positions + 1;
            }
            fit.agreements.push(agreement_for(&c));
        }
        assert(fit.agreements@ =~= fit_agreements(lv, pv).take(i + 1));
        i = i + 1;
    }
    assert(lv.take(local.len() as int) =~= lv);
    assert(fit.agreements@ =~= fit_agreements(lv, pv));
    proof {
        keys@.unique_seq_to_set();
    }
    fit.exact_positions = keys.len();
    fit
}

// ---------------------------------------------------------------------------
// Template selection.

pub open spec fn fit_at(local: Seq<LocalTrackView>, ps: Seq<ProgramView>, i: int) -> FitView {
    fit_of(local, ps[i])
}

/// Some agreement is not `Missing`.
pub open spec fn any_present(a: Seq<Agreement>) -> bool {
    exists|k: int| 0 <= k < a.len() && (#[trigger] a[k]) != Agreement::Missing
}

/// A complete program without identity conflicts agrees with some track.
pub open spec fn clean_available(local: Seq<LocalTrackView>, ps: Seq<ProgramView>) -> bool {
    exists|i: int|
        0 <= i < ps.len() && (#[trigger] ps[i]).complete && fit_at(local, ps, i).identity_conflicts
            == 0 && any_present(fit_at(local, ps, i).agreements)
}

/// Complete, and free of identity conflicts when some clean program exists.
pub open spec fn viable(local: Seq<LocalTrackView>, ps: Seq<ProgramView>, i: int) -> bool {
    ps[i].complete && (!clean_available(local, ps) || fit_at(local, ps, i).identity_conflicts == 0)
}

/// `a` is a better template than `b`: it improves exact positional evidence,
/// with at least three corroborating tracks, no more duration mismatches, and
/// no track agreeing worse.
pub open spec fn dominates(a: FitView, b: FitView) -> bool {
    &&& a.exact_positions >= 3
    &&& a.exact_positions > b.exact_positions
    &&& a.duration_mismatches <= b.duration_mismatches
    &&& forall|k: int|
        0 <= k < a.agreements.len() && k < b.agreements.len() ==> rank(#[trigger] a.agreements[k])
            >= rank(b.agreements[k])
}

/// Viable, and no other viable program is better.
pub open spec fn kept(local: Seq<LocalTrackView>, ps: Seq<ProgramView>, i: int) -> bool {
    &&& viable(local, ps, i)
    &&& !exists|j: int|
        0 <= j < ps.len() && j != i && viable(local, ps, j) && #[trigger] dominates(
            fit_at(local, ps, j),
            fit_at(local, ps, i),
        )
}

pub open spec fn kept_filter(local: Seq<LocalTrackView>, ps: Seq<ProgramView>) -> spec_fn(int) -> bool {
    |i: int| kept(local, ps, i)
}

pub open spec fn indices(n: nat) -> Seq<int> {
    Seq::new(n, |i: int| i)
}

/// The indices of the kept programs, in program order.
pub open spec fn selected_indices(local: Seq<LocalTrackView>, ps: Seq<ProgramView>) -> Seq<int> {
    indices(ps.len()).filter(kept_filter(local, ps))
}

pub open spec fn usize_ints(s: Seq<usize>) -> Seq<int> {
    s.map_values(|i: usize| i as int)
}

fn any_agreement(a: &Vec<Agreement>) -> (r: bool)
    ensures
        r == any_present(a@),
{
    let mut k: usize = 0;
    while k < a.len()
        invariant
            k <= a.len(),
            forall|x: int| 0 <= x < k ==> a@[x] == Agreement::Missing,
        decreases a.len() - k,
    {
        if !matches!(a[k], Agreement::Missing) {
            assert(a@[k as int] != Agreement::Missing);
            return true;
        }
        k = k + 1;
    }
    false
}

fn better(a: &ProgramFit, b: &ProgramFit) -> (r: bool)
    ensures
        r == dominates(a@, b@),
{
    if !(a.exact_positions >= 3 && a.exact_positions > b.exact_positions && a.duration_mismatches
        <= b.duration_mismatches) {
        return false;
    }
    let mut k: usize = 0;
    while k < a.agreements.len() && k < b.agreements.len()
        invariant
            k <= a.agreements.len(),
            k <= b.agreements.len(),
            forall|x: int| 0 <= x < k ==> rank(#[trigger] a.agreements@[x]) >= rank(b.agreements@[x]),
        decreases a.agreements.len() - k,
    {
        if rank_of(a.agreements[k]) < rank_of(b.agreements[k]) {
            assert(a@.agreements[k as int] == a.agreements@[k as int]);
            assert(b@.agreements[k as int] == b.agreements@[k as int]);
            assert(rank(a@.agreements[k as int]) < rank(b@.agreements[k as int]));
            assert(!dominates(a@, b@));
            return false;
        }
        k = k + 1;
    }
    true
}

/// Which programs to keep as templates. Ties are retained; a better template
/// must improve exact positional evidence with at least three corroborating
/// tracks and never worsen another track. Conflicting programs are excluded
/// only if a nonconflicting one exists.
pub fn selected_programs(local: &[LocalTrackEvidence], programs: &Programs) -> (r: Vec<usize>)
    ensures
        usize_ints(r@) == selected_indices(local_ev_views(local@), programs@.programs),
{
    let ghost lv = local_ev_views(local@);
    let ghost ps = programs@.programs;
    let n = programs.programs.len();
    let mut fits: Vec<ProgramFit> = Vec::new();
    let mut i: usize = 0;
    while i < n
        invariant
            i <= n,
            n == programs.programs.len(),
            lv == local_ev_views(local@),
            ps == programs@.programs,
            fits@.len() == i,
            forall|k: int| 0 <= k < i ==> (#[trigger] fits@[k])@ == fit_at(lv, ps, k),
        decreases n - i,
    {
        let f = program_fit(local, &programs.programs[i]);
        assert(ps[i as int] == programs.programs@[i as int]@);
        fits.push(f);
        i = i + 1;
    }
    let mut clean = false;
    let mut i: usize = 0;
    while i < n
        invariant
            i <= n,
            n == programs.programs.len(),
            ps == programs@.programs,
            fits@.len() == n,
            forall|k: int| 0 <= k < n ==> (#[trigger] fits@[k])@ == fit_at(lv, ps, k),
            clean == exists|k: int|
                0 <= k < i && (#[trigger] ps[k]).complete && fit_at(lv, ps, k).identity_conflicts
                    == 0 && any_present(fit_at(lv, ps, k).agreements),
        decreases n - i,
    {
        assert(ps[i as int].complete == programs.programs@[i as int].complete);
        if programs.programs[i].complete && fits[i].identity_conflicts == 0 && any_agreement(
            &fits[i].agreements,
        ) {
            clean = true;
        }
        i = i + 1;
    }
    assert(clean == clean_available(lv, ps));
    let ghost p = kept_filter(lv, ps);
    proof {
        crate::text::lemma_filter_empty(indices(n as nat), p);
    }
    let mut out: Vec<usize> = Vec::new();
    let mut i: usize = 0;
    while i < n
        invariant
            i <= n,
            n == programs.programs.len(),
            ps == programs@.programs,
            lv == local_ev_views(local@),
            fits@.len() == n,
            forall|k: int| 0 <= k < n ==> (#[trigger] fits@[k])@ == fit_at(lv, ps, k),
            clean == clean_available(lv, ps),
            p == kept_filter(lv, ps),
            usize_ints(out@) == indices(n as nat).take(i as int).filter(p),
        decreases n - i,
    {
        proof {
            crate::text::lemma_filter_step(indices(n as nat), p, i as int);
        }
        let viable_i = programs.programs[i].complete && (!clean || fits[i].identity_conflicts == 0);
        assert(viable_i == viable(lv, ps, i as int));
        let mut dominated = false;
        if viable_i {
            let mut j: usize = 0;
            while j < n
                invariant
                    j <= n,
                    i < n,
                    n == programs.programs.len(),
                    ps == programs@.programs,
                    fits@.len() == n,
                    forall|k: int| 0 <= k < n ==> (#[trigger] fits@[k])@ == fit_at(lv, ps, k),
                    clean == clean_available(lv, ps),
                    dominated == exists|x: int|
                        0 <= x < j && x != i && viable(lv, ps, x) && #[trigger] dominates(
                            fit_at(lv, ps, x),
                            fit_at(lv, ps, i as int),
                        ),
                decreases n - j,
            {
                let viable_j = programs.programs[j].complete && (!clean
                    || fits[j].identity_conflicts == 0);
                assert(viable_j == viable(lv, ps, j as int));
                if j != i && viable_j && better(&fits[j], &fits[i]) {
                    dominated = true;
                }
                j = j + 1;
            }
        }
        assert(p(i as int) == (viable_i && !dominated));
        assert(indices(n as nat)[i as int] == i as int);
        if viable_i && !dominated {
            let ghost before = usize_ints(out@);
            out.push(i);
            assert(usize_ints(out@) =~= before.push(i as int));
        }
        i = i + 1;
    }
    assert(indices(n as nat).take(n as int) =~= indices(n as nat));
    out
}

// ---------------------------------------------------------------------------
// The mappings of one local track across the retained programs.

/// Every eligible mapping is one of the program's inspected candidates.
proof fn lemma_eligible_member(l: TrackEvidenceView, p: ProgramView, k: int)
    requires
        0 <= k < eligible_checks(l, p).len(),
    ensures
        0 <= eligible_checks(l, p)[k].0 < p.tracks.len(),
        eligible_checks(l, p)[k] == program_checks(l, p)[eligible_checks(l, p)[k].0],
{
    let all = program_checks(l, p);
    let considered = all.filter(keeper(Criterion::Considered));
    let by_identity = if any_meets(considered, Criterion::Trusted) {
        considered.filter(keeper(Criterion::Trusted))
    } else {
        narrowed(considered, Criterion::ExactTitle)
    };
    let e = eligible_checks(l, p);
    let x = e[k];
    assert(e.contains(x));
    if any_meets(by_identity, Criterion::Position) {
        by_identity.lemma_filter_contains_rev(keeper(Criterion::Position), x);
    }
    assert(by_identity.contains(x));
    if any_meets(considered, Criterion::Trusted) {
        considered.lemma_filter_contains_rev(keeper(Criterion::Trusted), x);
    } else if any_meets(considered, Criterion::ExactTitle) {
        considered.lemma_filter_contains_rev(keeper(Criterion::ExactTitle), x);
    }
    assert(considered.contains(x));
    all.lemma_filter_contains_rev(keeper(Criterion::Considered), x);
    let j = choose|j: int| 0 <= j < all.len() && all[j] == x;
    assert(all[j].0 == j);
}

/// The candidate tracks a mapping list picks out of a program.
pub open spec fn picked(p: ProgramView, e: Seq<(int, CheckView)>) -> Seq<TrackEvidenceView> {
    e.map_values(|x: (int, CheckView)| p.tracks[x.0])
}

/// The eligible candidate tracks of every program, in program order.
pub open spec fn chosen_tracks(l: TrackEvidenceView, ps: Seq<ProgramView>) -> Seq<TrackEvidenceView>
    decreases ps.len(),
{
    if ps.len() == 0 {
        Seq::empty()
    } else {
        chosen_tracks(l, ps.drop_last()) + picked(ps.last(), eligible_checks(l, ps.last()))
    }
}

/// Exactly one candidate of the program has an exact title.
pub open spec fn unique_exact(l: TrackEvidenceView, p: ProgramView) -> bool {
    program_checks(l, p).filter(keeper(Criterion::ExactTitle)).len() == 1
}

/// An eligible mapping of the program has a duration mismatch that neither a
/// trusted identity nor a unique exact title makes diagnostic.
pub open spec fn blocks_recording(l: TrackEvidenceView, p: ProgramView) -> bool {
    exists|k: int|
        0 <= k < eligible_checks(l, p).len() && {
            let c = (#[trigger] eligible_checks(l, p)[k]).1;
            c.duration_mismatch && !c.trusted_identity && !(unique_exact(l, p) && c.exact_title)
        }
}

pub open spec fn duration_blocks(l: TrackEvidenceView, ps: Seq<ProgramView>) -> bool {
    exists|i: int| 0 <= i < ps.len() && blocks_recording(l, #[trigger] ps[i])
}

/// Some program offers more than one eligible mapping.
pub open spec fn any_ambiguous_program(l: TrackEvidenceView, ps: Seq<ProgramView>) -> bool {
    exists|i: int| 0 <= i < ps.len() && eligible_checks(l, #[trigger] ps[i]).len() > 1
}

pub open spec fn any_incomplete(ps: Seq<ProgramView>) -> bool {
    exists|i: int| 0 <= i < ps.len() && !(#[trigger] ps[i]).complete
}

pub open spec fn ref_views(s: Seq<&TrackEvidence>) -> Seq<TrackEvidenceView> {
    s.map_values(|t: &TrackEvidence| t@)
}

fn has_incomplete(programs: &Programs) -> (r: bool)
    ensures
        r == any_incomplete(programs@.programs),
{
    let ghost ps = programs@.programs;
    let mut i: usize = 0;
    while i < programs.programs.len()
        invariant
            i <= programs.programs.len(),
            ps == programs@.programs,
            forall|k: int| 0 <= k < i ==> (#[trigger] ps[k]).complete,
        decreases programs.programs.len() - i,
    {
        assert(ps[i as int].complete == programs.programs@[i as int].complete);
        if !programs.programs[i].complete {
            return true;
        }
        i = i + 1;
    }
    false
}

fn count_exact(local: &LocalTrackEvidence, program: &Program) -> (r: usize)
    ensures
        r == program_checks(local@.evidence, program@).filter(keeper(Criterion::ExactTitle)).len(),
{
    let ghost all = program_checks(local@.evidence, program@);
    let ghost p = keeper(Criterion::ExactTitle);
    proof {
        crate::text::lemma_filter_empty(all, p);
    }
    let mut n: usize = 0;
    let mut i: usize = 0;
    while i < program.tracks.len()
        invariant
            i <= program.tracks.len(),
            all == program_checks(local@.evidence, program@),
            p == keeper(Criterion::ExactTitle),
            n == all.take(i as int).filter(p).len(),
            n <= i,
        decreases program.tracks.len() - i,
    {
        proof {
            crate::text::lemma_filter_step(all, p, i as int);
        }
        let check = inspect_candidate(local, &program.tracks[i], i);
        assert(program@.tracks[i as int] == program.tracks@[i as int]@);
        if check.exact_title {
            n = n + 1;
        }
        i = i + 1;
    }
    assert(all.take(program.tracks.len() as int) =~= all);
    n
}

/// The eligible candidate tracks of every program and whether a duration
/// mismatch withholds Recording certainty; `None` when some program offers
/// more than one mapping.
fn chosen<'a>(local: &LocalTrackEvidence, programs: &'a Programs) -> (r: Option<
    (Vec<&'a TrackEvidence>, bool),
>)
    ensures
        ({
            let l = local@.evidence;
            let ps = programs@.programs;
            match r {
                None => any_ambiguous_program(l, ps),
                Some((picks, blocks)) => {
                    &&& !any_ambiguous_program(l, ps)
                    &&& ref_views(picks@) == chosen_tracks(l, ps)
                    &&& blocks == duration_blocks(l, ps)
                },
            }
        }),
{
    let ghost l = local@.evidence;
    let ghost ps = programs@.programs;
    let mut picks: Vec<&TrackEvidence> = Vec::new();
    let mut blocks = false;
    let mut i: usize = 0;
    while i < programs.programs.len()
        invariant
            i <= programs.programs.len(),
            l == local@.evidence,
            ps == programs@.programs,
            !any_ambiguous_program(l, ps.take(i as int)),
            ref_views(picks@) == chosen_tracks(l, ps.take(i as int)),
            blocks == duration_blocks(l, ps.take(i as int)),
        decreases programs.programs.len() - i,
    {
        let program = &programs.programs[i];
        let ghost pv = program@;
        assert(ps[i as int] == pv);
        let ghost t = ps.take(i + 1);
        assert(t.drop_last() =~= ps.take(i as int));
        assert(t.last() == pv);
        let unique = count_exact(local, program) == 1;
        let eligible = mappings(local, program);
        let ghost e = eligible_checks(l, pv);
        assert(choice_views(eligible@).len() == eligible@.len());
        if eligible.len() > 1 {
            assert(eligible_checks(l, ps[i as int]).len() > 1);
            return None;
        }
        proof {
            assert forall|k: int|
                0 <= k < t.len() implies !(eligible_checks(l, #[trigger] t[k]).len() > 1) by {
                if k < i {
                    assert(t[k] == ps.take(i as int)[k]);
                }
            }
        }
        let ghost old_picks = ref_views(picks@);
        if eligible.len() == 1 {
            let (k, c) = eligible[0];
            proof {
                lemma_eligible_member(l, pv, 0);
                assert(choice_views(eligible@)[0] == e[0]);
            }
            let block_here = c.duration_mismatch && !c.trusted_identity && !(unique
                && c.exact_title);
            assert(block_here == blocks_recording(l, pv));
            if block_here {
                blocks = true;
            }
            picks.push(&program.tracks[k]);
            assert(picked(pv, e) =~= seq![pv.tracks[k as int]]);
            assert(ref_views(picks@) =~= old_picks.push(pv.tracks[k as int]));
        } else {
            assert(picked(pv, e) =~= Seq::<TrackEvidenceView>::empty());
            assert(!blocks_recording(l, pv));
        }
        proof {
            assert(chosen_tracks(l, t) == old_picks + picked(pv, e));
            assert(ref_views(picks@) =~= chosen_tracks(l, t));
            if duration_blocks(l, t) && !blocks_recording(l, pv) {
                let x = choose|x: int| 0 <= x < t.len() && blocks_recording(l, #[trigger] t[x]);
                assert(t[x] == ps.take(i as int)[x]);
            }
            if duration_blocks(l, ps.take(i as int)) {
                let x = choose|x: int|
                    0 <= x < ps.take(i as int).len() && blocks_recording(
                        l,
                        #[trigger] ps.take(i as int)[x],
                    );
                assert(t[x] == ps.take(i as int)[x]);
            }
            if blocks_recording(l, pv) {
                assert(blocks_recording(l, t[i as int]));
            }
        }
        i = i + 1;
    }
    assert(ps.take(programs.programs.len() as int) =~= ps);
    Some((picks, blocks))
}

// ---------------------------------------------------------------------------
// The display choice among the mappings.

/// Display order: mappings whose comparison title is the local one come
/// first, then by title text.
pub open spec fn display_before(a: TrackEvidenceView, b: TrackEvidenceView, name: Seq<char>) -> bool {
    let ka = comparison_key(text_or_empty(a.title)) != name;
    let kb = comparison_key(text_or_empty(b.title)) != name;
    (!ka && kb) || (ka == kb && lex_lt(text_or_empty(a.title), text_or_empty(b.title)))
}

/// `k` is the first mapping in display order (the first of the least).
pub open spec fn display_first(m: Seq<TrackEvidenceView>, name: Seq<char>, k: int) -> bool {
    &&& 0 <= k < m.len()
    &&& forall|j: int| 0 <= j < m.len() ==> !display_before(#[trigger] m[j], m[k], name)
    &&& forall|j: int| 0 <= j < k ==> display_before(m[k], #[trigger] m[j], name)
}

/// Display order is a strict weak order.
proof fn lemma_display_order(a: TrackEvidenceView, b: TrackEvidenceView, c: TrackEvidenceView, name: Seq<char>)
    ensures
        !display_before(a, a, name),
        display_before(a, b, name) && display_before(b, c, name) ==> display_before(a, c, name),
        display_before(a, b, name) && !display_before(c, b, name) ==> display_before(a, c, name),
{
    let ta = text_or_empty(a.title);
    let tb = text_or_empty(b.title);
    let tc = text_or_empty(c.title);
    lemma_lex_order(ta, tb, tc);
    lemma_lex_order(tc, tb, ta);
    lemma_lex_order(ta, tc, tb);
    lemma_lex_order(tb, ta, tc);
    lemma_lex_order(tc, ta, tb);
    lemma_lex_order(tb, tc, ta);
}

fn title_text(t: &TrackEvidence) -> (r: Vec<char>)
    ensures
        r@ == text_or_empty(t@.title),
{
    match &t.title {
        Some(v) => chars_of(v.as_str()),
        None => Vec::new(),
    }
}

fn display_before_exec(a: &TrackEvidence, b: &TrackEvidence, name: &String) -> (r: bool)
    ensures
        r == display_before(a@, b@, name@),
{
    let ta = title_text(a);
    let tb = title_text(b);
    let ka = !(comparison_title(string_of(ta.as_slice()).as_str()) == *name);
    let kb = !(comparison_title(string_of(tb.as_slice()).as_str()) == *name);
    (!ka && kb) || (ka == kb && lex_less(&ta, &tb))
}

/// The index of the first mapping in display order.
fn display_choice(m: &Vec<&TrackEvidence>, name: &String) -> (r: usize)
    requires
        m.len() > 0,
    ensures
        display_first(ref_views(m@), name@, r as int),
{
    let ghost mv = ref_views(m@);
    let mut best: usize = 0;
    let mut j: usize = 1;
    proof {
        lemma_display_order(mv[0], mv[0], mv[0], name@);
    }
    while j < m.len()
        invariant
            1 <= j <= m.len(),
            best < j,
            mv == ref_views(m@),
            forall|x: int| 0 <= x < j ==> !display_before(#[trigger] mv[x], mv[best as int], name@),
            forall|x: int| 0 <= x < best ==> display_before(mv[best as int], #[trigger] mv[x], name@),
        decreases m.len() - j,
    {
        if display_before_exec(m[j], m[best], name) {
            proof {
                assert forall|x: int| 0 <= x < j + 1 implies !display_before(
                    #[trigger] mv[x],
                    mv[j as int],
                    name@,
                ) by {
                    lemma_display_order(mv[x], mv[j as int], mv[best as int], name@);
                    lemma_display_order(mv[j as int], mv[j as int], mv[j as int], name@);
                }
                assert forall|x: int| 0 <= x < j implies display_before(
                    mv[j as int],
                    #[trigger] mv[x],
                    name@,
                ) by {
                    lemma_display_order(mv[j as int], mv[best as int], mv[x], name@);
                }
            }
            best = j;
        } else {
            proof {
                lemma_display_order(mv[best as int], mv[best as int], mv[best as int], name@);
            }
        }
        j = j + 1;
    }
    best
}

/// The first mapping in display order is unique.
proof fn lemma_display_first_unique(m: Seq<TrackEvidenceView>, name: Seq<char>, a: int, b: int)
    requires
        display_first(m, name, a),
        display_first(m, name, b),
    ensures
        a == b,
{
    if a < b {
        assert(display_before(m[b], m[a], name));
    } else if b < a {
        assert(display_before(m[a], m[b], name));
    }
}

pub open spec fn display_index(m: Seq<TrackEvidenceView>, name: Seq<char>) -> int {
    choose|k: int| display_first(m, name, k)
}

// ---------------------------------------------------------------------------
// What the mappings agree on.

pub open spec fn in_all_recordings(m: Seq<TrackEvidenceView>) -> spec_fn(IdentityView) -> bool {
    |i: IdentityView| forall|k: int| 0 <= k < m.len() ==> (#[trigger] m[k]).recording.identities.contains(i)
}

pub open spec fn in_all_occurrences(m: Seq<TrackEvidenceView>) -> spec_fn(IdentityView) -> bool {
    |i: IdentityView| forall|k: int| 0 <= k < m.len() ==> (#[trigger] m[k]).identities.contains(i)
}

pub open spec fn in_all(m: Seq<TrackEvidenceView>, recording: bool) -> spec_fn(IdentityView) -> bool {
    if recording {
        in_all_recordings(m)
    } else {
        in_all_occurrences(m)
    }
}

fn in_every(id: &ExternalIdentity, m: &Vec<&TrackEvidence>, recording: bool) -> (r: bool)
    ensures
        r == in_all(ref_views(m@), recording)(id@),
{
    let ghost mv = ref_views(m@);
    let mut k: usize = 0;
    while k < m.len()
        invariant
            k <= m.len(),
            mv == ref_views(m@),
            recording ==> forall|x: int|
                0 <= x < k ==> (#[trigger] mv[x]).recording.identities.contains(id@),
            !recording ==> forall|x: int| 0 <= x < k ==> (#[trigger] mv[x]).identities.contains(id@),
        decreases m.len() - k,
    {
        let t = m[k];
        assert(mv[k as int] == t@);
        let here = if recording {
            holds(&t.recording.identities, id)
        } else {
            holds(&t.identities, id)
        };
        if !here {
            return false;
        }
        k = k + 1;
    }
    true
}

/// The identities of `ids` that every mapping carries, in order.
fn common_identities(ids: &Vec<ExternalIdentity>, m: &Vec<&TrackEvidence>, recording: bool) -> (r:
    Vec<ExternalIdentity>)
    ensures
        id_views(r@) == id_views(ids@).filter(in_all(ref_views(m@), recording)),
{
    let ghost iv = id_views(ids@);
    let ghost p = in_all(ref_views(m@), recording);
    proof {
        crate::text::lemma_filter_empty(iv, p);
    }
    let mut out: Vec<ExternalIdentity> = Vec::new();
    let mut i: usize = 0;
    while i < ids.len()
        invariant
            i <= ids.len(),
            iv == id_views(ids@),
            p == in_all(ref_views(m@), recording),
            id_views(out@) == iv.take(i as int).filter(p),
        decreases ids.len() - i,
    {
        proof {
            crate::text::lemma_filter_step(iv, p, i as int);
        }
        if in_every(&ids[i], m, recording) {
            let x = ids[i].clone();
            let ghost before = id_views(out@);
            out.push(x);
            assert(id_views(out@) =~= before.push(iv[i as int]));
        }
        i = i + 1;
    }
    assert(iv.take(ids.len() as int) =~= iv);
    out
}

/// The ISRCs of every mapping, concatenated in order.
pub open spec fn flat_isrcs(m: Seq<TrackEvidenceView>) -> Seq<Seq<char>>
    decreases m.len(),
{
    if m.len() == 0 {
        Seq::empty()
    } else {
        flat_isrcs(m.drop_last()) + m.last().recording.isrcs
    }
}

fn collect_isrcs(m: &Vec<&TrackEvidence>) -> (r: Vec<String>)
    ensures
        views(r@) == first_occurrences(flat_isrcs(ref_views(m@))),
{
    let ghost mv = ref_views(m@);
    let mut out: Vec<String> = Vec::new();
    let mut k: usize = 0;
    while k < m.len()
        invariant
            k <= m.len(),
            mv == ref_views(m@),
            views(out@) == first_occurrences(flat_isrcs(mv.take(k as int))),
        decreases m.len() - k,
    {
        let t = m[k];
        let ghost start = flat_isrcs(mv.take(k as int));
        let ghost isrcs = views(t.recording.isrcs@);
        assert(mv[k as int].recording.isrcs == isrcs);
        let mut j: usize = 0;
        while j < t.recording.isrcs.len()
            invariant
                j <= t.recording.isrcs.len(),
                isrcs == views(t.recording.isrcs@),
                views(out@) == first_occurrences(start + isrcs.take(j as int)),
            decreases t.recording.isrcs.len() - j,
        {
            let ghost s0 = start + isrcs.take(j as int);
            assert((start + isrcs.take(j + 1)).drop_last() =~= s0);
            assert((start + isrcs.take(j + 1)).last() == isrcs[j as int]);
            if !holds_string_in(&out, &t.recording.isrcs[j]) {
                let ghost before = views(out@);
                out.push(t.recording.isrcs[j].clone());
                assert(views(out@) =~= before.push(isrcs[j as int]));
            }
            j = j + 1;
        }
        assert(isrcs.take(t.recording.isrcs.len() as int) =~= isrcs);
        assert(mv.take(k + 1).drop_last() =~= mv.take(k as int));
        k = k + 1;
    }
    assert(mv.take(m.len() as int) =~= mv);
    out
}

fn holds_string_in(list: &Vec<String>, s: &String) -> (r: bool)
    ensures
        r == views(list@).contains(s@),
{
    crate::edition::holds_string(list, s)
}

// ---------------------------------------------------------------------------
// The explanation text.

pub open spec fn digit_char(d: nat) -> char {
    if d == 0 {
        '0'
    } else if d == 1 {
        '1'
    } else if d == 2 {
        '2'
    } else if d == 3 {
        '3'
    } else if d == 4 {
        '4'
    } else if d == 5 {
        '5'
    } else if d == 6 {
        '6'
    } else if d == 7 {
        '7'
    } else if d == 8 {
        '8'
    } else {
        '9'
    }
}

/// The decimal digits of `n`, most significant first, without leading zeros.
pub open spec fn decimal(n: nat) -> Seq<char>
    decreases n,
{
    if n < 10 {
        seq![digit_char(n)]
    } else {
        decimal(n / 10).push(digit_char(n % 10))
    }
}

fn digit(d: usize) -> (c: char)
    requires
        d < 10,
    ensures
        c == digit_char(d as nat),
{
    if d == 0 {
        '0'
    } else if d == 1 {
        '1'
    } else if d == 2 {
        '2'
    } else if d == 3 {
        '3'
    } else if d == 4 {
        '4'
    } else if d == 5 {
        '5'
    } else if d == 6 {
        '6'
    } else if d == 7 {
        '7'
    } else if d == 8 {
        '8'
    } else {
        '9'
    }
}

pub fn push_decimal(out: &mut Vec<char>, n: usize)
    ensures
        final(out)@ == old(out)@ + decimal(n as nat),
    decreases n,
{
    if n >= 10 {
        push_decimal(out, n / 10);
    }
    out.push(digit(n % 10));
    assert(final(out)@ =~= old(out)@ + decimal(n as nat));
}

/// The variant name of a Recording status.
pub open spec fn status_name(s: RecordingStatus) -> Seq<char> {
    match s {
        RecordingStatus::Identified => "Identified"@,
        RecordingStatus::Ambiguous => "Ambiguous"@,
        RecordingStatus::NotProvided => "NotProvided"@,
        RecordingStatus::DurationMismatch => "DurationMismatch"@,
    }
}

pub open spec fn bool_text(b: bool) -> Seq<char> {
    if b {
        "true"@
    } else {
        "false"@
    }
}

/// The explanation recorded with a Track mapping.
pub open spec fn explanation_text(
    count: nat,
    status: RecordingStatus,
    isrc: bool,
    mismatch: bool,
    note: Seq<char>,
) -> Seq<char> {
    decimal(count) + " plausible Track mappings; Recording status "@ + status_name(status)
        + "; title/position and Artist checked; ISRC corroboration: "@ + bool_text(isrc)
        + "; duration mismatch (diagnostic for unique exact title or trusted identity): "@
        + bool_text(mismatch) + ". "@ + note
}

fn push_text(out: &mut Vec<char>, s: &str)
    ensures
        final(out)@ == old(out)@ + s@,
{
    append_chars(out, &chars_of(s));
}

fn explanation(count: usize, status: RecordingStatus, isrc: bool, mismatch: bool, note: &str) -> (r:
    String)
    ensures
        r@ == explanation_text(count as nat, status, isrc, mismatch, note@),
{
    let mut out: Vec<char> = Vec::new();
    push_decimal(&mut out, count);
    push_text(&mut out, " plausible Track mappings; Recording status ");
    match status {
        RecordingStatus::Identified => push_text(&mut out, "Identified"),
        RecordingStatus::Ambiguous => push_text(&mut out, "Ambiguous"),
        RecordingStatus::NotProvided => push_text(&mut out, "NotProvided"),
        RecordingStatus::DurationMismatch => push_text(&mut out, "DurationMismatch"),
    }
    push_text(&mut out, "; title/position and Artist checked; ISRC corroboration: ");
    if isrc {
        push_text(&mut out, "true");
    } else {
        push_text(&mut out, "false");
    }
    push_text(
        &mut out,
        "; duration mismatch (diagnostic for unique exact title or trusted identity): ",
    );
    if mismatch {
        push_text(&mut out, "true");
    } else {
        push_text(&mut out, "false");
    }
    push_text(&mut out, ". ");
    push_text(&mut out, note);
    string_of(out.as_slice())
}

// ---------------------------------------------------------------------------
// The outcome for one local track.

pub struct MatchView {
    pub title: Seq<char>,
    pub recording: RecordingEvidenceView,
    pub recording_status: RecordingStatus,
    pub occurrences: Seq<IdentityView>,
    pub explanation: Seq<char>,
}

impl View for Match {
    type V = MatchView;

    open spec fn view(&self) -> MatchView {
        MatchView {
            title: self.title@,
            recording: self.recording@,
            recording_status: self.recording_status,
            occurrences: id_views(self.occurrences@),
            explanation: self.explanation@,
        }
    }
}

pub enum TrackOutcomeView {
    Matched(MatchView),
    AlreadyMatched(MatchView),
    ManuallyMatched(MatchView),
    Ambiguous,
    NoConfidentMatch,
    ConflictingIdentity,
}

impl View for TrackOutcome {
    type V = TrackOutcomeView;

    open spec fn view(&self) -> TrackOutcomeView {
        match self {
            TrackOutcome::Matched(m) => TrackOutcomeView::Matched(m@),
            TrackOutcome::AlreadyMatched(m) => TrackOutcomeView::AlreadyMatched(m@),
            TrackOutcome::ManuallyMatched(m) => TrackOutcomeView::ManuallyMatched(m@),
            TrackOutcome::Ambiguous => TrackOutcomeView::Ambiguous,
            TrackOutcome::NoConfidentMatch => TrackOutcomeView::NoConfidentMatch,
            TrackOutcome::ConflictingIdentity => TrackOutcomeView::ConflictingIdentity,
        }
    }
}

/// Some mapping's comparison title is `key`.
pub open spec fn title_present(m: Seq<TrackEvidenceView>, key: Seq<char>) -> bool {
    exists|k: int| 0 <= k < m.len() && comparison_key(text_or_empty((#[trigger] m[k]).title)) == key
}

/// Some mapping's comparison title is not `key`.
pub open spec fn title_absent(m: Seq<TrackEvidenceView>, key: Seq<char>) -> bool {
    exists|k: int| 0 <= k < m.len() && comparison_key(text_or_empty((#[trigger] m[k]).title)) != key
}

/// Two mappings carry conflicting Recording identities.
pub open spec fn recording_disagreement(m: Seq<TrackEvidenceView>) -> bool {
    exists|a: int, b: int|
        0 <= a < m.len() && 0 <= b < m.len() && namespace_conflict(
            (#[trigger] m[a]).recording.identities,
            (#[trigger] m[b]).recording.identities,
        )
}

pub open spec fn none_identified(m: Seq<TrackEvidenceView>) -> bool {
    forall|k: int| 0 <= k < m.len() ==> (#[trigger] m[k]).recording.identities.len() == 0
}

/// Recording certainty: none offered, then disagreement, then a blocking
/// duration mismatch, then the common identities.
pub open spec fn status_for(m: Seq<TrackEvidenceView>, blocks: bool, common: Seq<IdentityView>) -> RecordingStatus {
    if none_identified(m) {
        RecordingStatus::NotProvided
    } else if recording_disagreement(m) {
        RecordingStatus::Ambiguous
    } else if blocks {
        RecordingStatus::DurationMismatch
    } else if common.len() > 0 {
        RecordingStatus::Identified
    } else {
        RecordingStatus::Ambiguous
    }
}

pub open spec fn isrc_corroborated(l: TrackEvidenceView, m: Seq<TrackEvidenceView>) -> bool {
    exists|k: int| 0 <= k < m.len() && overlaps((#[trigger] m[k]).recording.isrcs, l.recording.isrcs)
}

pub open spec fn any_duration_mismatch(l: TrackEvidenceView, m: Seq<TrackEvidenceView>) -> bool {
    exists|k: int| 0 <= k < m.len() && duration_mismatch(l, #[trigger] m[k])
}

/// Every identity of `ids` is already the local track's.
pub open spec fn all_local(l: TrackEvidenceView, ids: Seq<IdentityView>) -> bool {
    all_local_ids(l.recording.identities, ids)
}

/// The outcome for local track `l` given its mappings `m` (in program order),
/// whether a duration mismatch withholds Recording certainty, the local
/// comparison title `name` and the programs' note.
pub open spec fn settled(
    l: TrackEvidenceView,
    m: Seq<TrackEvidenceView>,
    blocks: bool,
    name: Seq<char>,
    note: Seq<char>,
) -> TrackOutcomeView {
    if m.len() == 0 {
        TrackOutcomeView::NoConfidentMatch
    } else if exists|k: int|
        0 <= k < m.len() && namespace_conflict(
            l.recording.identities,
            (#[trigger] m[k]).recording.identities,
        ) {
        TrackOutcomeView::ConflictingIdentity
    } else {
        let first = m[display_index(m, name)];
        let common = first.recording.identities.filter(in_all(m, true));
        let occurrences = first.identities.filter(in_all(m, false));
        if common.len() == 0 && occurrences.len() == 0 && !title_present(m, name) && title_absent(
            m,
            comparison_key(text_or_empty(first.title)),
        ) {
            TrackOutcomeView::Ambiguous
        } else {
            let status = status_for(m, blocks, common);
            let identified = status == RecordingStatus::Identified;
            let ids = if identified {
                common
            } else {
                Seq::empty()
            };
            let mv = MatchView {
                title: text_or_empty(first.title),
                recording: RecordingEvidenceView {
                    identities: ids,
                    isrcs: if identified {
                        first_occurrences(flat_isrcs(m))
                    } else {
                        Seq::empty()
                    },
                },
                recording_status: status,
                occurrences,
                explanation: explanation_text(
                    m.len(),
                    status,
                    isrc_corroborated(l, m),
                    any_duration_mismatch(l, m),
                    note,
                ),
            };
            if ids.len() > 0 && all_local(l, ids) {
                TrackOutcomeView::AlreadyMatched(mv)
            } else {
                TrackOutcomeView::Matched(mv)
            }
        }
    }
}

/// The outcome of comparing local track `l` with the retained programs.
pub open spec fn program_outcome(l: TrackEvidenceView, p: ProgramsView) -> TrackOutcomeView {
    let name = comparison_key(text_or_empty(l.title));
    if name.len() == 0 && l.recording.identities.len() == 0 {
        TrackOutcomeView::NoConfidentMatch
    } else if any_incomplete(p.programs) {
        TrackOutcomeView::NoConfidentMatch
    } else if any_ambiguous_program(l, p.programs) {
        TrackOutcomeView::Ambiguous
    } else {
        settled(l, chosen_tracks(l, p.programs), duration_blocks(l, p.programs), name, p.note)
    }
}

fn title_of(t: &TrackEvidence) -> (r: &str)
    ensures
        r@ == text_or_empty(t@.title),
{
    proof {
        reveal_strlit("");
    }
    match &t.title {
        Some(v) => v.as_str(),
        None => "",
    }
}

fn mismatch_exec(l: &TrackEvidence, c: &TrackEvidence) -> (r: bool)
    ensures
        r == duration_mismatch(l@, c@),
{
    match (l.duration_ms, c.duration_ms) {
        (Some(a), Some(b)) => (if a >= b {
            a - b
        } else {
            b - a
        }) > DURATION_TOLERANCE_MS,
        _ => false,
    }
}

fn conflicts_with_local(ids: &Vec<ExternalIdentity>, m: &Vec<&TrackEvidence>) -> (r: bool)
    ensures
        r == exists|k: int|
            0 <= k < m@.len() && namespace_conflict(
                id_views(ids@),
                (#[trigger] ref_views(m@)[k]).recording.identities,
            ),
{
    let ghost mv = ref_views(m@);
    let mut k: usize = 0;
    while k < m.len()
        invariant
            k <= m.len(),
            mv == ref_views(m@),
            forall|x: int|
                0 <= x < k ==> !namespace_conflict(
                    id_views(ids@),
                    (#[trigger] mv[x]).recording.identities,
                ),
        decreases m.len() - k,
    {
        assert(mv[k as int] == m@[k as int]@);
        if conflict(ids, &m[k].recording.identities) {
            return true;
        }
        k = k + 1;
    }
    false
}

fn disagreement(m: &Vec<&TrackEvidence>) -> (r: bool)
    ensures
        r == recording_disagreement(ref_views(m@)),
{
    let ghost mv = ref_views(m@);
    let mut a: usize = 0;
    while a < m.len()
        invariant
            a <= m.len(),
            mv == ref_views(m@),
            forall|x: int, y: int|
                0 <= x < a && 0 <= y < mv.len() ==> !namespace_conflict(
                    (#[trigger] mv[x]).recording.identities,
                    (#[trigger] mv[y]).recording.identities,
                ),
        decreases m.len() - a,
    {
        let mut b: usize = 0;
        while b < m.len()
            invariant
                a < m.len(),
                b <= m.len(),
                mv == ref_views(m@),
                forall|x: int, y: int|
                    0 <= x < a && 0 <= y < mv.len() ==> !namespace_conflict(
                        (#[trigger] mv[x]).recording.identities,
                        (#[trigger] mv[y]).recording.identities,
                    ),
                forall|y: int|
                    0 <= y < b ==> !namespace_conflict(
                        mv[a as int].recording.identities,
                        (#[trigger] mv[y]).recording.identities,
                    ),
            decreases m.len() - b,
        {
            assert(mv[a as int] == m@[a as int]@);
            assert(mv[b as int] == m@[b as int]@);
            if conflict(&m[a].recording.identities, &m[b].recording.identities) {
                return true;
            }
            b = b + 1;
        }
        a = a + 1;
    }
    false
}

fn key_present(m: &Vec<&TrackEvidence>, key: &String) -> (r: bool)
    ensures
        r == title_present(ref_views(m@), key@),
{
    let ghost mv = ref_views(m@);
    let mut k: usize = 0;
    while k < m.len()
        invariant
            k <= m.len(),
            mv == ref_views(m@),
            forall|x: int|
                0 <= x < k ==> comparison_key(text_or_empty((#[trigger] mv[x]).title)) != key@,
        decreases m.len() - k,
    {
        assert(mv[k as int] == m@[k as int]@);
        if comparison_title(title_of(m[k])) == *key {
            return true;
        }
        k = k + 1;
    }
    false
}

fn key_absent(m: &Vec<&TrackEvidence>, key: &String) -> (r: bool)
    ensures
        r == title_absent(ref_views(m@), key@),
{
    let ghost mv = ref_views(m@);
    let mut k: usize = 0;
    while k < m.len()
        invariant
            k <= m.len(),
            mv == ref_views(m@),
            forall|x: int|
                0 <= x < k ==> comparison_key(text_or_empty((#[trigger] mv[x]).title)) == key@,
        decreases m.len() - k,
    {
        assert(mv[k as int] == m@[k as int]@);
        if !(comparison_title(title_of(m[k])) == *key) {
            return true;
        }
        k = k + 1;
    }
    false
}

fn no_identities(m: &Vec<&TrackEvidence>) -> (r: bool)
    ensures
        r == none_identified(ref_views(m@)),
{
    let ghost mv = ref_views(m@);
    let mut k: usize = 0;
    while k < m.len()
        invariant
            k <= m.len(),
            mv == ref_views(m@),
            forall|x: int| 0 <= x < k ==> (#[trigger] mv[x]).recording.identities.len() == 0,
        decreases m.len() - k,
    {
        assert(mv[k as int] == m@[k as int]@);
        if m[k].recording.identities.len() > 0 {
            return false;
        }
        k = k + 1;
    }
    true
}

fn corroborated(l: &TrackEvidence, m: &Vec<&TrackEvidence>) -> (r: bool)
    ensures
        r == isrc_corroborated(l@, ref_views(m@)),
{
    let ghost mv = ref_views(m@);
    let mut k: usize = 0;
    while k < m.len()
        invariant
            k <= m.len(),
            mv == ref_views(m@),
            forall|x: int|
                0 <= x < k ==> !overlaps((#[trigger] mv[x]).recording.isrcs, l@.recording.isrcs),
        decreases m.len() - k,
    {
        assert(mv[k as int] == m@[k as int]@);
        if crate::edition::overlap_strings(&m[k].recording.isrcs, &l.recording.isrcs) {
            return true;
        }
        k = k + 1;
    }
    false
}

fn mismatched(l: &TrackEvidence, m: &Vec<&TrackEvidence>) -> (r: bool)
    ensures
        r == any_duration_mismatch(l@, ref_views(m@)),
{
    let ghost mv = ref_views(m@);
    let mut k: usize = 0;
    while k < m.len()
        invariant
            k <= m.len(),
            mv == ref_views(m@),
            forall|x: int| 0 <= x < k ==> !duration_mismatch(l@, #[trigger] mv[x]),
        decreases m.len() - k,
    {
        assert(mv[k as int] == m@[k as int]@);
        if mismatch_exec(l, m[k]) {
            return true;
        }
        k = k + 1;
    }
    false
}

fn all_local_exec(local_ids: &Vec<ExternalIdentity>, ids: &Vec<ExternalIdentity>) -> (r: bool)
    ensures
        r == all_local_ids(id_views(local_ids@), id_views(ids@)),
{
    let ghost iv = id_views(ids@);
    let mut j: usize = 0;
    while j < ids.len()
        invariant
            j <= ids.len(),
            iv == id_views(ids@),
            forall|x: int| 0 <= x < j ==> id_views(local_ids@).contains(#[trigger] iv[x]),
        decreases ids.len() - j,
    {
        assert(iv[j as int] == ids@[j as int]@);
        if !holds(local_ids, &ids[j]) {
            return false;
        }
        j = j + 1;
    }
    true
}

pub open spec fn all_local_ids(local: Seq<IdentityView>, ids: Seq<IdentityView>) -> bool {
    forall|j: int| 0 <= j < ids.len() ==> local.contains(#[trigger] ids[j])
}

/// The outcome for a local track given its mappings.
fn settle(l: &TrackEvidence, m: &Vec<&TrackEvidence>, blocks: bool, name: &String, note: &str) -> (r:
    TrackOutcome)
    ensures
        r@ == settled(l@, ref_views(m@), blocks, name@, note@),
{
    let ghost mv = ref_views(m@);
    if m.len() == 0 {
        return TrackOutcome::NoConfidentMatch;
    }
    if conflicts_with_local(&l.recording.identities, m) {
        return TrackOutcome::ConflictingIdentity;
    }
    let k = display_choice(m, name);
    proof {
        lemma_display_first_unique(mv, name@, k as int, display_index(mv, name@));
    }
    let first = m[k];
    assert(mv[k as int] == first@);
    let common = common_identities(&first.recording.identities, m, true);
    let occurrences = common_identities(&first.identities, m, false);
    let first_key = comparison_title(title_of(first));
    if common.len() == 0 && occurrences.len() == 0 && !key_present(m, name) && key_absent(
        m,
        &first_key,
    ) {
        assert(id_views(common@).len() == 0);
        return TrackOutcome::Ambiguous;
    }
    assert(id_views(common@).len() == common@.len());
    assert(id_views(occurrences@).len() == occurrences@.len());
    let status = if no_identities(m) {
        RecordingStatus::NotProvided
    } else if disagreement(m) {
        RecordingStatus::Ambiguous
    } else if blocks {
        RecordingStatus::DurationMismatch
    } else if common.len() > 0 {
        RecordingStatus::Identified
    } else {
        RecordingStatus::Ambiguous
    };
    let identified = matches!(status, RecordingStatus::Identified);
    let ids = if identified {
        common
    } else {
        Vec::new()
    };
    let isrcs = if identified {
        collect_isrcs(m)
    } else {
        Vec::new()
    };
    assert(views(isrcs@) == (if identified {
        first_occurrences(flat_isrcs(mv))
    } else {
        Seq::empty()
    }));
    let title = match &first.title {
        Some(t) => t.clone(),
        None => String::new(),
    };
    let already = ids.len() > 0 && all_local_exec(&l.recording.identities, &ids);
    assert(id_views(ids@).len() == ids@.len());
    let text = explanation(m.len(), status, corroborated(l, m), mismatched(l, m), note);
    let result = Match {
        title,
        recording: RecordingEvidence { identities: ids, isrcs },
        recording_status: status,
        occurrences,
        explanation: text,
    };
    proof {
        let fv = mv[k as int];
        let common_v = fv.recording.identities.filter(in_all(mv, true));
        let st = status_for(mv, blocks, common_v);
        assert(status == st);
        assert(result@.title == text_or_empty(fv.title));
        assert(result@.recording.identities == (if st == RecordingStatus::Identified {
            common_v
        } else {
            Seq::empty()
        }));
        assert(result@.occurrences == fv.identities.filter(in_all(mv, false)));
        assert(result@.explanation == explanation_text(
            mv.len(),
            st,
            isrc_corroborated(l@, mv),
            any_duration_mismatch(l@, mv),
            note@,
        ));
    }
    if already {
        TrackOutcome::AlreadyMatched(result)
    } else {
        TrackOutcome::Matched(result)
    }
}

/// Track association and Recording certainty are separate. The Album
/// comparator selects mapping templates first; this compares one local track
/// with the retained programs.
pub fn compare(local: &LocalTrackEvidence, programs: &Programs) -> (r: TrackOutcome)
    ensures
        r@ == program_outcome(local@.evidence, programs@),
{
    let l = &local.evidence;
    let name = comparison_title(title_of(l));
    if name.as_str().is_empty() && l.recording.identities.len() == 0 {
        return TrackOutcome::NoConfidentMatch;
    }
    if has_incomplete(programs) {
        return TrackOutcome::NoConfidentMatch;
    }
    match chosen(local, programs) {
        None => TrackOutcome::Ambiguous,
        Some((picks, blocks)) => settle(l, &picks, blocks, &name, programs.note.as_str()),
    }
}

// ---------------------------------------------------------------------------
// A whole Album.

fn copy_tracks(list: &Vec<TrackEvidence>) -> (r: Vec<TrackEvidence>)
    ensures
        track_ev_views(r@) == track_ev_views(list@),
{
    let mut out: Vec<TrackEvidence> = Vec::new();
    let mut i: usize = 0;
    while i < list.len()
        invariant
            i <= list.len(),
            track_ev_views(out@) == track_ev_views(list@).take(i as int),
        decreases list.len() - i,
    {
        let ghost before = track_ev_views(out@);
        let t = list[i].clone();
        out.push(t);
        assert(track_ev_views(out@) =~= before.push(list@[i as int]@));
        assert(track_ev_views(list@).take(i + 1) =~= track_ev_views(list@).take(i as int).push(
            list@[i as int]@,
        ));
        i = i + 1;
    }
    assert(track_ev_views(list@).take(list.len() as int) =~= track_ev_views(list@));
    out
}

impl Clone for Program {
    fn clone(&self) -> (r: Self)
        ensures
            r@ == self@,
    {
        Program {
            identity: match &self.identity {
                Some(i) => Some(i.clone()),
                None => None,
            },
            tracks: copy_tracks(&self.tracks),
            complete: self.complete,
        }
    }
}

/// The note of the retained programs: their indices, then the provider's note.
pub open spec fn retained_note(selected: Seq<int>, note: Seq<char>) -> Seq<char> {
    "Retained program indices ["@ + joined(
        selected.map_values(|i: int| decimal(i as nat)),
        ", "@,
    ) + "]. "@ + note
}

/// The programs kept as templates for the local tracks.
pub open spec fn retained_programs(local: Seq<LocalTrackView>, p: ProgramsView) -> ProgramsView {
    let selected = selected_indices(local, p.programs);
    ProgramsView {
        album: p.album,
        programs: selected.map_values(|i: int| p.programs[i]),
        note: retained_note(selected, p.note),
    }
}

pub open spec fn outcome_views(s: Seq<TrackOutcome>) -> Seq<TrackOutcomeView> {
    s.map_values(|o: TrackOutcome| o@)
}

/// Every local track's outcome: none is confident when some program is
/// incomplete; otherwise each is compared with the retained templates.
pub open spec fn album_outcomes(local: Seq<LocalTrackView>, p: ProgramsView) -> Seq<TrackOutcomeView> {
    if any_incomplete(p.programs) {
        Seq::new(local.len(), |i: int| TrackOutcomeView::NoConfidentMatch)
    } else {
        Seq::new(
            local.len(),
            |i: int| program_outcome(local[i].evidence, retained_programs(local, p)),
        )
    }
}

fn note_of(selected: &Vec<usize>, note: &str) -> (r: String)
    ensures
        r@ == retained_note(usize_ints(selected@), note@),
{
    let ghost parts = usize_ints(selected@).map_values(|i: int| decimal(i as nat));
    let mut body: Vec<char> = Vec::new();
    let mut i: usize = 0;
    while i < selected.len()
        invariant
            i <= selected.len(),
            parts == usize_ints(selected@).map_values(|i: int| decimal(i as nat)),
            body@ == joined(parts.take(i as int), ", "@),
        decreases selected.len() - i,
    {
        let ghost before = body@;
        if i > 0 {
            push_text(&mut body, ", ");
        }
        let ghost mid = body@;
        push_decimal(&mut body, selected[i]);
        proof {
            let t = parts.take(i + 1);
            assert(t.drop_last() =~= parts.take(i as int));
            assert(t.last() == decimal(selected@[i as int] as nat));
            if i == 0 {
                assert(body@ =~= t[0]);
            } else {
                assert(body@ =~= before + ", "@ + t.last());
            }
        }
        i = i + 1;
    }
    assert(parts.take(selected.len() as int) =~= parts);
    let mut out: Vec<char> = Vec::new();
    push_text(&mut out, "Retained program indices [");
    append_chars(&mut out, &body);
    push_text(&mut out, "]. ");
    push_text(&mut out, note);
    string_of(out.as_slice())
}

/// Compare every local track of an Album with the provider's programs.
pub fn compare_album(local: &[LocalTrackEvidence], programs: &Programs) -> (r: Vec<TrackOutcome>)
    ensures
        outcome_views(r@) == album_outcomes(local_ev_views(local@), programs@),
{
    let ghost lv = local_ev_views(local@);
    let ghost pv = programs@;
    let ghost expected = album_outcomes(lv, pv);
    if has_incomplete(programs) {
        let mut out: Vec<TrackOutcome> = Vec::new();
        let mut i: usize = 0;
        while i < local.len()
            invariant
                i <= local.len(),
                lv == local_ev_views(local@),
                expected == album_outcomes(lv, pv),
                any_incomplete(pv.programs),
                outcome_views(out@) == expected.take(i as int),
            decreases local.len() - i,
        {
            let ghost before = outcome_views(out@);
            out.push(TrackOutcome::NoConfidentMatch);
            assert(outcome_views(out@) =~= before.push(TrackOutcomeView::NoConfidentMatch));
            assert(expected.take(i + 1) =~= expected.take(i as int).push(expected[i as int]));
            i = i + 1;
        }
        assert(expected.take(local.len() as int) =~= expected);
        return out;
    }
    let selected = selected_programs(local, programs);
    let ghost sel = usize_ints(selected@);
    let mut kept: Vec<Program> = Vec::new();
    let mut j: usize = 0;
    while j < selected.len()
        invariant
            j <= selected.len(),
            sel == usize_ints(selected@),
            sel == selected_indices(lv, pv.programs),
            lv == local_ev_views(local@),
            pv == programs@,
            program_views(kept@) == sel.take(j as int).map_values(|i: int| pv.programs[i]),
        decreases selected.len() - j,
    {
        let k = selected[j];
        proof {
            let idx = indices(pv.programs.len());
            assert(sel.contains(sel[j as int]));
            idx.lemma_filter_contains_rev(kept_filter(lv, pv.programs), sel[j as int]);
            let x = choose|x: int| 0 <= x < idx.len() && idx[x] == sel[j as int];
            assert(idx[x] == x);
        }
        let p = programs.programs[k].clone();
        let ghost before = program_views(kept@);
        kept.push(p);
        proof {
            assert(program_views(kept@) =~= before.push(pv.programs[k as int]));
            assert(sel.take(j + 1).map_values(|i: int| pv.programs[i]) =~= sel.take(
                j as int,
            ).map_values(|i: int| pv.programs[i]).push(pv.programs[k as int]));
        }
        j = j + 1;
    }
    assert(sel.take(selected.len() as int) =~= sel);
    let retained = Programs {
        album: programs.album.clone(),
        programs: kept,
        note: note_of(&selected, programs.note.as_str()),
    };
    assert(retained@ == retained_programs(lv, pv));
    let mut out: Vec<TrackOutcome> = Vec::new();
    let mut i: usize = 0;
    while i < local.len()
        invariant
            i <= local.len(),
            lv == local_ev_views(local@),
            expected == album_outcomes(lv, pv),
            !any_incomplete(pv.programs),
            retained@ == retained_programs(lv, pv),
            outcome_views(out@) == expected.take(i as int),
        decreases local.len() - i,
    {
        let o = compare(&local[i], &retained);
        let ghost before = outcome_views(out@);
        let ghost ov = o@;
        out.push(o);
        assert(lv[i as int] == local@[i as int]@);
        assert(outcome_views(out@) =~= before.push(ov));
        assert(expected.take(i + 1) =~= expected.take(i as int).push(expected[i as int]));
        i = i + 1;
    }
    assert(expected.take(local.len() as int) =~= expected);
    out
}

// ---------------------------------------------------------------------------
// Laws.

/// Ties are retained: two viable programs that fit the local tracks equally
/// are kept or dropped together.
pub proof fn lemma_ties_retained(local: Seq<LocalTrackView>, ps: Seq<ProgramView>, i: int, j: int)
    requires
        0 <= i < ps.len(),
        0 <= j < ps.len(),
        viable(local, ps, i),
        viable(local, ps, j),
        fit_at(local, ps, i) == fit_at(local, ps, j),
    ensures
        kept(local, ps, i) == kept(local, ps, j),
{
    if kept(local, ps, i) && !kept(local, ps, j) {
        let x = choose|x: int|
            0 <= x < ps.len() && x != j && viable(local, ps, x) && #[trigger] dominates(
                fit_at(local, ps, x),
                fit_at(local, ps, j),
            );
        assert(x != i);
        assert(dominates(fit_at(local, ps, x), fit_at(local, ps, i)));
    }
    if kept(local, ps, j) && !kept(local, ps, i) {
        let x = choose|x: int|
            0 <= x < ps.len() && x != i && viable(local, ps, x) && #[trigger] dominates(
                fit_at(local, ps, x),
                fit_at(local, ps, i),
            );
        assert(x != j);
        assert(dominates(fit_at(local, ps, x), fit_at(local, ps, j)));
    }
}

/// A better template never drops one with at least as many exact positions.
pub proof fn lemma_better_improves_positions(a: FitView, b: FitView)
    ensures
        dominates(a, b) ==> a.exact_positions >= 3 && a.exact_positions > b.exact_positions,
{
}

/// Conflicting programs are excluded only if a nonconflicting one exists:
/// without a clean program every complete program is viable.
pub proof fn lemma_conflicts_excluded_only_with_alternative(local: Seq<LocalTrackView>, ps: Seq<ProgramView>, i: int)
    requires
        0 <= i < ps.len(),
        ps[i].complete,
        !clean_available(local, ps),
    ensures
        viable(local, ps, i),
{
}

/// Without Recording identity from the provider there is no Recording
/// certainty to withhold; with it, certainty needs agreement and no blocking
/// duration mismatch.
pub proof fn lemma_identified_needs_agreement(m: Seq<TrackEvidenceView>, blocks: bool, common: Seq<IdentityView>)
    ensures
        (status_for(m, blocks, common) == RecordingStatus::NotProvided) == none_identified(m),
        status_for(m, blocks, common) == RecordingStatus::Identified ==> !recording_disagreement(m)
            && !blocks && common.len() > 0,
{
}

proof fn lemma_top_viable(local: Seq<LocalTrackView>, ps: Seq<ProgramView>, n: int) -> (top: int)
    requires
        0 < n <= ps.len(),
        exists|i: int| 0 <= i < n && viable(local, ps, i),
    ensures
        0 <= top < n,
        viable(local, ps, top),
        forall|j: int|
            0 <= j < n && viable(local, ps, j) ==> fit_at(local, ps, j).exact_positions <= fit_at(
                local,
                ps,
                top,
            ).exact_positions,
    decreases n,
{
    if exists|i: int| 0 <= i < n - 1 && viable(local, ps, i) {
        let t = lemma_top_viable(local, ps, n - 1);
        if viable(local, ps, n - 1) && fit_at(local, ps, n - 1).exact_positions > fit_at(
            local,
            ps,
            t,
        ).exact_positions {
            n - 1
        } else {
            t
        }
    } else {
        n - 1
    }
}

proof fn lemma_indices_filter_ascending(n: nat, p: spec_fn(int) -> bool, m: int)
    requires
        0 <= m <= n,
    ensures
        forall|a: int, b: int|
            0 <= a < b < indices(n).take(m).filter(p).len() ==> (#[trigger] indices(n).take(m).filter(p)[a])
                < #[trigger] indices(n).take(m).filter(p)[b],
        forall|a: int|
            0 <= a < indices(n).take(m).filter(p).len() ==> 0 <= #[trigger] indices(n).take(m).filter(
                p,
            )[a] < m,
    decreases m,
{
    if m == 0 {
        crate::text::lemma_filter_empty(indices(n), p);
    } else {
        lemma_indices_filter_ascending(n, p, m - 1);
        crate::text::lemma_filter_step(indices(n), p, m - 1);
    }
}

/// The selection is exactly the kept programs (viable and bettered by no
/// other viable program), in program order; they are complete, and are never
/// none while some program is complete: a complete program without
/// conflicts (or any complete one, without such) that places the most
/// positions exactly is never bettered.
pub proof fn lemma_selection_grounds(local: Seq<LocalTrackView>, ps: Seq<ProgramView>)
    ensures
        forall|a: int, b: int|
            0 <= a < b < selected_indices(local, ps).len() ==> (#[trigger] selected_indices(local, ps)[a])
                < #[trigger] selected_indices(local, ps)[b],
        forall|a: int|
            0 <= a < selected_indices(local, ps).len() ==> 0 <= #[trigger] selected_indices(local, ps)[a]
                < ps.len() && ps[selected_indices(local, ps)[a]].complete,
        (exists|i: int| 0 <= i < ps.len() && (#[trigger] ps[i]).complete) <==> selected_indices(local, ps).len() > 0,
        clean_available(local, ps) ==> forall|a: int|
            0 <= a < selected_indices(local, ps).len() ==> fit_at(
                local,
                ps,
                #[trigger] selected_indices(local, ps)[a],
            ).identity_conflicts == 0,
        forall|i: int|
            0 <= i < ps.len() ==> (#[trigger] selected_indices(local, ps).contains(i) <==> kept(
                local,
                ps,
                i,
            )),
{
    let sel = selected_indices(local, ps);
    let p = kept_filter(local, ps);
    assert forall|i: int| 0 <= i < ps.len() implies (#[trigger] sel.contains(i) <==> kept(local, ps, i)) by {
        assert(indices(ps.len())[i] == i);
        if kept(local, ps, i) {
            indices(ps.len()).lemma_filter_contains(p, i);
        }
        if sel.contains(i) {
            let a = choose|a: int| 0 <= a < sel.len() && sel[a] == i;
            assert(p(sel[a])) by {
                broadcast use vstd::seq_lib::group_filter_ensures;

            }
        }
    }
    assert(indices(ps.len()).take(ps.len() as int) =~= indices(ps.len()));
    lemma_indices_filter_ascending(ps.len(), p, ps.len() as int);
    assert forall|a: int| 0 <= a < sel.len() implies ps[#[trigger] sel[a]].complete && (clean_available(
        local,
        ps,
    ) ==> fit_at(local, ps, sel[a]).identity_conflicts == 0) by {
        assert(sel.contains(sel[a]));
        indices(ps.len()).lemma_filter_contains_rev(p, sel[a]);
        assert(sel[a] == indices(ps.len()).filter(p)[a]);
        assert(p(sel[a])) by {
            broadcast use vstd::seq_lib::group_filter_ensures;

        }
    }
    if exists|i: int| 0 <= i < ps.len() && (#[trigger] ps[i]).complete {
        let i = choose|i: int| 0 <= i < ps.len() && (#[trigger] ps[i]).complete;
        if clean_available(local, ps) {
            let c = choose|c: int|
                0 <= c < ps.len() && (#[trigger] ps[c]).complete && fit_at(local, ps, c).identity_conflicts
                    == 0 && any_present(fit_at(local, ps, c).agreements);
            assert(viable(local, ps, c));
        } else {
            assert(viable(local, ps, i));
        }
        let top = lemma_top_viable(local, ps, ps.len() as int);
        assert(kept(local, ps, top));
        assert(indices(ps.len())[top] == top);
        indices(ps.len()).lemma_filter_contains(p, top);
        assert(sel.contains(top));
    }
    if sel.len() > 0 {
        assert(ps[sel[0]].complete);
    }
}

/// A candidate track is considered only on a shared trusted Recording
/// identity, an exact title or an agreeing position; a candidate left out
/// names one of three reasons; an exact title needs a nonempty local title.
pub proof fn lemma_check_grounds(l: TrackEvidenceView, c: TrackEvidenceView, index: int)
    ensures
        candidate_check(l, c, index).considered ==> candidate_check(l, c, index).trusted_identity
            || candidate_check(l, c, index).exact_title || candidate_check(l, c, index).position,
        !candidate_check(l, c, index).considered ==> candidate_check(l, c, index).reason
            == "title/semantic qualifier disagreement"@ || candidate_check(l, c, index).reason
            == "Artist disagreement"@ || candidate_check(l, c, index).reason
            == "duration outside 3000 ms tolerance for near-title association"@,
        candidate_check(l, c, index).exact_title ==> comparison_key(text_or_empty(l.title)).len()
            > 0,
{
}

/// A track's outcome carries Recording identities and ISRCs only when they
/// are identified; it is already matched exactly when the identified
/// Recording identities are all the local track's own; nothing is confident
/// while a program is incomplete or the track has neither a comparison title
/// nor a Recording identity.
pub proof fn lemma_outcome_grounds(l: TrackEvidenceView, p: ProgramsView)
    ensures
        program_outcome(l, p) matches TrackOutcomeView::Matched(m) ==> (m.recording_status
            != RecordingStatus::Identified ==> m.recording.identities.len() == 0
            && m.recording.isrcs.len() == 0) && !(m.recording.identities.len() > 0 && all_local(
            l,
            m.recording.identities,
        )),
        program_outcome(l, p) matches TrackOutcomeView::AlreadyMatched(m) ==> m.recording_status
            == RecordingStatus::Identified && m.recording.identities.len() > 0 && all_local(
            l,
            m.recording.identities,
        ),
        any_incomplete(p.programs) || (comparison_key(text_or_empty(l.title)).len() == 0
            && l.recording.identities.len() == 0) ==> program_outcome(l, p)
            == TrackOutcomeView::NoConfidentMatch,
{
}

proof fn lemma_tallies_bounded(local: Seq<LocalTrackView>, p: ProgramView)
    ensures
        fit_tallies(local, p).0 + fit_tallies(local, p).3 <= local.len(),
        fit_tallies(local, p).2 + fit_tallies(local, p).3 <= local.len(),
        exact_keys(local, p).len() + fit_tallies(local, p).1 + fit_tallies(local, p).3 <= local.len(),
    decreases local.len(),
{
    if local.len() > 0 {
        lemma_tallies_bounded(local.drop_last(), p);
    }
}

/// Each local track counts at most once: the unmatched tracks and the
/// conflicting ones, the unmatched and the incompatible durations, and the
/// unmatched, the exact and the tolerant positions each add up to at most the
/// number of local tracks, and every track has one agreement.
pub proof fn lemma_fit_counts(local: Seq<LocalTrackView>, p: ProgramView)
    requires
        local.len() <= usize::MAX,
    ensures
        fit_of(local, p).agreements.len() == local.len(),
        fit_of(local, p).identity_conflicts + fit_of(local, p).unmatched <= local.len(),
        fit_of(local, p).duration_mismatches + fit_of(local, p).unmatched <= local.len(),
        fit_of(local, p).exact_positions + fit_of(local, p).tolerant_positions + fit_of(local, p).unmatched
            <= local.len(),
{
    lemma_tallies_bounded(local, p);
    exact_keys(local, p).lemma_cardinality_of_set();
}


proof fn lemma_flat_id_source(artists: Seq<ArtistEvidenceView>, k: int) -> (r: (int, int))
    requires
        0 <= k < flat_ids(artists).len(),
    ensures
        0 <= r.0 < artists.len(),
        0 <= r.1 < artists[r.0].identities.len(),
        flat_ids(artists)[k] == artists[r.0].identities[r.1],
    decreases artists.len(),
{
    let init = artists.drop_last();
    let f0 = flat_ids(init);
    let last = artists.last();
    assert(flat_ids(artists) == f0 + last.identities);
    if k < f0.len() {
        let r = lemma_flat_id_source(init, k);
        assert(artists[r.0] == init[r.0]);
        r
    } else {
        (artists.len() - 1, k - f0.len())
    }
}

/// Without a shared Recording identity, two nonempty credits that no artist
/// identity links (no identity of one credit's artists comes from a provider
/// of the other's) and whose printed names differ rule the candidate out.
pub proof fn lemma_unlinked_credits_rule_out(l: TrackEvidenceView, c: TrackEvidenceView, index: int)
    requires
        forall|x: int|
            0 <= x < l.recording.identities.len() ==> !c.recording.identities.contains(
                #[trigger] l.recording.identities[x],
            ),
        l.artists.len() > 0,
        c.artists.len() > 0,
        forall|i: int, x: int, j: int, y: int|
            0 <= i < l.artists.len() && 0 <= x < l.artists[i].identities.len() && 0 <= j
                < c.artists.len() && 0 <= y < c.artists[j].identities.len() ==> (
            #[trigger] l.artists[i].identities[x]).provider != (
            #[trigger] c.artists[j].identities[y]).provider,
        credit_names(l.artists) != credit_names(c.artists),
    ensures
        !candidate_check(l, c, index).considered,
{
    let a = flat_ids(l.artists);
    let b = flat_ids(c.artists);
    assert(!overlaps(l.recording.identities, c.recording.identities));
    assert forall|x: int, y: int| 0 <= x < a.len() && 0 <= y < b.len() implies (#[trigger] a[x]).provider
        != (#[trigger] b[y]).provider by {
        let (i, xi) = lemma_flat_id_source(l.artists, x);
        let (j, yj) = lemma_flat_id_source(c.artists, y);
        assert(l.artists[i].identities[xi].provider != c.artists[j].identities[yj].provider);
    }
    assert(!same_provider_somewhere(a, b));
    assert(!overlaps(a, b)) by {
        if overlaps(a, b) {
            let k = choose|k: int| 0 <= k < a.len() && b.contains(#[trigger] a[k]);
            let y = choose|y: int| 0 <= y < b.len() && b[y] == a[k];
            assert(a[k].provider != b[y].provider);
        }
    }
    assert(!namespace_conflict(a, b)) by {
        if namespace_conflict(a, b) {
            let x = choose|x: int|
                0 <= x < a.len() && (exists|y: int|
                    0 <= y < b.len() && (#[trigger] a[x]).provider == (#[trigger] b[y]).provider
                        && a[x].kind == b[y].kind) && !b.contains(a[x]);
            let y = choose|y: int|
                0 <= y < b.len() && a[x].provider == (#[trigger] b[y]).provider && a[x].kind
                    == b[y].kind;
        }
    }
    assert(artist_disagreement(l, c));
}

/// A candidate sharing a Recording identity with the local track is
/// considered, whatever its title, Artist credit or duration.
pub proof fn lemma_shared_recording_considered(l: TrackEvidenceView, c: TrackEvidenceView, index: int)
    requires
        exists|x: int|
            0 <= x < l.recording.identities.len() && c.recording.identities.contains(
                #[trigger] l.recording.identities[x],
            ),
    ensures
        candidate_check(l, c, index).considered,
        candidate_check(l, c, index).trusted_identity,
{
}

} // verus!
