//! Picard identifiers read from embedded tags: which tag field means which
//! identity, and which claimed identifiers are well-formed MBIDs. Reading the
//! tags themselves is the file adapter's.
use vstd::prelude::*;

use crate::musicbrainz::mbid_shape;
use crate::domain::{ExternalIdentity, IdentityView};
use crate::provenance::{
    observation_views, FileProvenance, Observation, ObservationView, Origin, OriginView, Positions,
    PositionsView, Scope, Semantics,
};
use crate::provenance_acceptance::Validation;
use crate::text::{char_is_whitespace, chars_of, is_white, str_eq, string_of, views};

verus! {

/// A UUID as `uuid::Uuid::parse_str` reads a text: whether it is nil, and its
/// hyphenated form.
pub uninterp spec fn parsed_uuid(text: Seq<char>) -> Option<(bool, Seq<char>)>;

/// Lowercase hexadecimal digits.
pub open spec fn lower_hex(c: char) -> bool {
    ('0' <= c && c <= '9') || ('a' <= c && c <= 'f')
}

/// The hyphenated form: 36 characters, hyphens at 8, 13, 18 and 23, lowercase
/// hexadecimal digits elsewhere.
pub open spec fn hyphenated_shape(s: Seq<char>) -> bool {
    &&& s.len() == 36
    &&& forall|i: int|
        0 <= i < 36 ==> if i == 8 || i == 13 || i == 18 || i == 23 {
            #[trigger] s[i] == '-'
        } else {
            lower_hex(s[i])
        }
}

/// `uuid::Uuid::parse_str`, then `is_nil` and the `hyphenated` form as a
/// string. Which texts parse, and to which UUID, is the crate's; only the
/// documented lowercase hyphenated shape of the form is stated.
#[verifier::external_body]
fn parse_uuid(text: &str) -> (r: Option<(bool, String)>)
    ensures
        match r {
            Some((nil, form)) => parsed_uuid(text@) == Some((nil, form@)) && hyphenated_shape(
                form@,
            ),
            None => parsed_uuid(text@) is None,
        },
{
    let id = uuid::Uuid::parse_str(text).ok()?;
    Some((id.is_nil(), id.hyphenated().to_string()))
}

/// Picard's Album-group and Recording identifiers are MBIDs.
pub open spec fn picard_claim(o: ObservationView) -> bool {
    &&& o.identity.provider == "musicbrainz"@
    &&& ((o.scope == Scope::Album && o.semantics == Semantics::AlbumIdentity && o.identity.kind
        == "release_group"@) || (o.scope == Scope::Recording && o.semantics
        == Semantics::RecordingIdentity && o.identity.kind == "recording"@))
}

/// Only canonical hyphenated, non-nil UUID strings qualify; malformed raw tags
/// remain observable as invalid claims.
pub open spec fn validation_of(o: ObservationView) -> Validation {
    if !picard_claim(o) {
        Validation::Unsupported
    } else {
        match parsed_uuid(o.identity.external_id) {
            Some((nil, form)) => if !nil && form == o.identity.external_id {
                Validation::Valid
            } else {
                Validation::Invalid
            },
            None => Validation::Invalid,
        }
    }
}

/// The validator of embedded Picard claims. Every identifier it accepts is a
/// well-formed MusicBrainz identifier.
pub fn validate(o: &Observation) -> (r: Validation)
    ensures
        r == validation_of(o@),
        r == Validation::Valid ==> mbid_shape(o.identity.external_id@),
{
    proof {
        reveal_strlit("musicbrainz");
        reveal_strlit("release_group");
        reveal_strlit("recording");
    }
    let id = &o.identity;
    let claim = str_eq(id.provider.as_str(), "musicbrainz") && ((o.scope == Scope::Album
        && o.semantics == Semantics::AlbumIdentity && str_eq(id.kind.as_str(), "release_group"))
        || (o.scope == Scope::Recording && o.semantics == Semantics::RecordingIdentity && str_eq(
        id.kind.as_str(),
        "recording",
    )));
    if !claim {
        return Validation::Unsupported;
    }
    match parse_uuid(id.external_id.as_str()) {
        Some((nil, form)) => if !nil && form == id.external_id {
            Validation::Valid
        } else {
            Validation::Invalid
        },
        None => Validation::Invalid,
    }
}

// ---------------------------------------------------------------------------
// Reading the identity fields of embedded tags.

/// The tag items the provenance reader looks at.
#[derive(Clone, Copy, Debug, PartialEq, Eq, Structural)]
pub enum TagField {
    MusicBrainzArtistId,
    MusicBrainzReleaseArtistId,
    MusicBrainzReleaseGroupId,
    MusicBrainzReleaseId,
    MusicBrainzRecordingId,
    MusicBrainzTrackId,
    Isrc,
    DiscNumber,
    DiscTotal,
    TrackNumber,
    TrackTotal,
}

/// One embedded tag as read from a file: its format's name and its string
/// items, in tag order. Tag readers map Picard's ID3 UFID, Vorbis
/// MUSICBRAINZ_TRACKID and MP4 MusicBrainz Track Id to the Recording field;
/// Release Track Id is the Track field.
#[derive(Debug)]
pub struct EmbeddedTag {
    pub format: String,
    pub items: Vec<(TagField, String)>,
}

/// Only White_Space: nothing is left once trimmed.
pub open spec fn blank(v: Seq<char>) -> bool {
    forall|i: int| 0 <= i < v.len() ==> is_white(#[trigger] v[i])
}

/// The identity fields, in the order they are read.
pub open spec fn identity_fields() -> Seq<TagField> {
    seq![
        TagField::MusicBrainzArtistId,
        TagField::MusicBrainzReleaseArtistId,
        TagField::MusicBrainzReleaseGroupId,
        TagField::MusicBrainzReleaseId,
        TagField::MusicBrainzRecordingId,
        TagField::MusicBrainzTrackId,
        TagField::Isrc,
    ]
}

/// What an identity field claims: provider, kind, scope and meaning.
pub open spec fn field_claim(f: TagField) -> (Seq<char>, Seq<char>, Scope, Semantics) {
    match f {
        TagField::MusicBrainzArtistId => ("musicbrainz"@, "artist"@, Scope::TrackArtist, Semantics::ArtistIdentity),
        TagField::MusicBrainzReleaseArtistId => ("musicbrainz"@, "artist"@, Scope::AlbumArtist, Semantics::ArtistIdentity),
        TagField::MusicBrainzReleaseGroupId => ("musicbrainz"@, "release_group"@, Scope::Album, Semantics::AlbumIdentity),
        TagField::MusicBrainzReleaseId => ("musicbrainz"@, "release"@, Scope::Edition, Semantics::EditionIdentity),
        TagField::MusicBrainzRecordingId => ("musicbrainz"@, "recording"@, Scope::Recording, Semantics::RecordingIdentity),
        TagField::MusicBrainzTrackId => ("musicbrainz"@, "track"@, Scope::Occurrence, Semantics::OccurrenceIdentity),
        _ => ("isrc"@, "recording"@, Scope::Recording, Semantics::Isrc),
    }
}

/// The field's name as recorded in an observation's origin.
pub open spec fn field_name(f: TagField) -> Seq<char> {
    match f {
        TagField::MusicBrainzArtistId => "MusicBrainzArtistId"@,
        TagField::MusicBrainzReleaseArtistId => "MusicBrainzReleaseArtistId"@,
        TagField::MusicBrainzReleaseGroupId => "MusicBrainzReleaseGroupId"@,
        TagField::MusicBrainzReleaseId => "MusicBrainzReleaseId"@,
        TagField::MusicBrainzRecordingId => "MusicBrainzRecordingId"@,
        TagField::MusicBrainzTrackId => "MusicBrainzTrackId"@,
        TagField::Isrc => "Isrc"@,
        TagField::DiscNumber => "DiscNumber"@,
        TagField::DiscTotal => "DiscTotal"@,
        TagField::TrackNumber => "TrackNumber"@,
        TagField::TrackTotal => "TrackTotal"@,
    }
}

pub open spec fn tag_observation(f: TagField, value: Seq<char>, format: Seq<char>) -> ObservationView {
    let (provider, kind, scope, semantics) = field_claim(f);
    ObservationView {
        identity: IdentityView { provider, kind, external_id: value },
        scope,
        semantics,
        origin: OriginView::EmbeddedTag { format, field: field_name(f) },
    }
}

/// The values of one field, in tag order.
pub open spec fn field_values(items: Seq<(TagField, String)>, f: TagField) -> Seq<Seq<char>>
    decreases items.len(),
{
    if items.len() == 0 {
        Seq::empty()
    } else {
        let prev = field_values(items.drop_last(), f);
        if items.last().0 == f {
            prev.push(items.last().1@)
        } else {
            prev
        }
    }
}

/// One observation per value of the field that is not blank, in tag order.
pub open spec fn field_observations(items: Seq<(TagField, String)>, f: TagField, format: Seq<char>) -> Seq<
    ObservationView,
>
    decreases items.len(),
{
    if items.len() == 0 {
        Seq::empty()
    } else {
        let prev = field_observations(items.drop_last(), f, format);
        if items.last().0 == f && !blank(items.last().1@) {
            prev.push(tag_observation(f, items.last().1@, format))
        } else {
            prev
        }
    }
}

/// The observations of the first `k` identity fields of a tag.
pub open spec fn tag_observations(t: EmbeddedTag, k: int) -> Seq<ObservationView>
    decreases k,
{
    if k <= 0 {
        Seq::empty()
    } else {
        tag_observations(t, k - 1) + field_observations(t.items@, identity_fields()[k - 1], t.format@)
    }
}

/// The observations of all tags, one tag after another.
pub open spec fn tags_observations(tags: Seq<EmbeddedTag>) -> Seq<ObservationView>
    decreases tags.len(),
{
    if tags.len() == 0 {
        Seq::empty()
    } else {
        tags_observations(tags.drop_last()) + tag_observations(tags.last(), 7)
    }
}

/// A field's values across all tags, one tag after another, blank ones kept.
pub open spec fn tags_values(tags: Seq<EmbeddedTag>, f: TagField) -> Seq<Seq<char>>
    decreases tags.len(),
{
    if tags.len() == 0 {
        Seq::empty()
    } else {
        tags_values(tags.drop_last(), f) + field_values(tags.last().items@, f)
    }
}

fn is_blank(v: &String) -> (r: bool)
    ensures
        r == blank(v@),
{
    let c = chars_of(v.as_str());
    let mut i: usize = 0;
    while i < c.len()
        invariant
            i <= c.len(),
            c@ == v@,
            forall|k: int| 0 <= k < i ==> is_white(#[trigger] c@[k]),
        decreases c.len() - i,
    {
        if !char_is_whitespace(c[i]) {
            return false;
        }
        i = i + 1;
    }
    true
}

fn claim_of(f: TagField) -> (r: (&'static str, &'static str, Scope, Semantics))
    ensures
        (r.0@, r.1@, r.2, r.3) == field_claim(f),
{
    match f {
        TagField::MusicBrainzArtistId => ("musicbrainz", "artist", Scope::TrackArtist, Semantics::ArtistIdentity),
        TagField::MusicBrainzReleaseArtistId => ("musicbrainz", "artist", Scope::AlbumArtist, Semantics::ArtistIdentity),
        TagField::MusicBrainzReleaseGroupId => ("musicbrainz", "release_group", Scope::Album, Semantics::AlbumIdentity),
        TagField::MusicBrainzReleaseId => ("musicbrainz", "release", Scope::Edition, Semantics::EditionIdentity),
        TagField::MusicBrainzRecordingId => ("musicbrainz", "recording", Scope::Recording, Semantics::RecordingIdentity),
        TagField::MusicBrainzTrackId => ("musicbrainz", "track", Scope::Occurrence, Semantics::OccurrenceIdentity),
        _ => ("isrc", "recording", Scope::Recording, Semantics::Isrc),
    }
}

fn name_of(f: TagField) -> (r: &'static str)
    ensures
        r@ == field_name(f),
{
    match f {
        TagField::MusicBrainzArtistId => "MusicBrainzArtistId",
        TagField::MusicBrainzReleaseArtistId => "MusicBrainzReleaseArtistId",
        TagField::MusicBrainzReleaseGroupId => "MusicBrainzReleaseGroupId",
        TagField::MusicBrainzReleaseId => "MusicBrainzReleaseId",
        TagField::MusicBrainzRecordingId => "MusicBrainzRecordingId",
        TagField::MusicBrainzTrackId => "MusicBrainzTrackId",
        TagField::Isrc => "Isrc",
        TagField::DiscNumber => "DiscNumber",
        TagField::DiscTotal => "DiscTotal",
        TagField::TrackNumber => "TrackNumber",
        TagField::TrackTotal => "TrackTotal",
    }
}

/// The identity claims and raw positions of a file's embedded tags, in tag
/// order. Blank identity values are skipped; positions are kept as written.
pub fn extract(tags: &[EmbeddedTag]) -> (r: FileProvenance)
    ensures
        r.source_id is None,
        r.file_type is None,
        views(r.formats@) == tags@.map_values(|t: EmbeddedTag| t.format@),
        observation_views(r.observations@) == tags_observations(tags@),
        r.positions@ == (PositionsView {
            disc: tags_values(tags@, TagField::DiscNumber),
            discs: tags_values(tags@, TagField::DiscTotal),
            track: tags_values(tags@, TagField::TrackNumber),
            tracks: tags_values(tags@, TagField::TrackTotal),
        }),
{
    let fields: Vec<TagField> = vec![
        TagField::MusicBrainzArtistId,
        TagField::MusicBrainzReleaseArtistId,
        TagField::MusicBrainzReleaseGroupId,
        TagField::MusicBrainzReleaseId,
        TagField::MusicBrainzRecordingId,
        TagField::MusicBrainzTrackId,
        TagField::Isrc,
    ];
    assert(fields@ =~= identity_fields());
    let mut formats: Vec<String> = Vec::new();
    let mut observations: Vec<Observation> = Vec::new();
    let mut positions = Positions::default();
    assert(positions@.disc =~= Seq::<Seq<char>>::empty());
    assert(positions@.discs =~= Seq::<Seq<char>>::empty());
    assert(positions@.track =~= Seq::<Seq<char>>::empty());
    assert(positions@.tracks =~= Seq::<Seq<char>>::empty());
    let mut t: usize = 0;
    assert(tags@.take(0) =~= Seq::<EmbeddedTag>::empty());
    while t < tags.len()
        invariant
            t <= tags.len(),
            fields@ == identity_fields(),
            views(formats@) == tags@.take(t as int).map_values(|t: EmbeddedTag| t.format@),
            observation_views(observations@) == tags_observations(tags@.take(t as int)),
            positions@ == (PositionsView {
                disc: tags_values(tags@.take(t as int), TagField::DiscNumber),
                discs: tags_values(tags@.take(t as int), TagField::DiscTotal),
                track: tags_values(tags@.take(t as int), TagField::TrackNumber),
                tracks: tags_values(tags@.take(t as int), TagField::TrackTotal),
            }),
        decreases tags.len() - t,
    {
        let tag = &tags[t];
        let ghost done = tags@.take(t as int);
        let ghost base = observation_views(observations@);
        let ghost before_formats = views(formats@);
        formats.push(tag.format.clone());
        assert(views(formats@) =~= before_formats.push(tag.format@));
        assert(tags@.take(t + 1) =~= done.push(*tag));
        assert(tags@.take(t + 1).map_values(|t: EmbeddedTag| t.format@) =~= done.map_values(
            |t: EmbeddedTag| t.format@,
        ).push(tag.format@));
        let mut k: usize = 0;
        assert(base + tag_observations(*tag, 0) =~= base);
        while k < fields.len()
            invariant
                k <= fields.len(),
                fields@ == identity_fields(),
                observation_views(observations@) == base + tag_observations(*tag, k as int),
            decreases fields.len() - k,
        {
            let f = fields[k];
            let (provider, kind, scope, semantics) = claim_of(f);
            let name = name_of(f);
            let ghost head = base + tag_observations(*tag, k as int);
            let mut j: usize = 0;
            assert(tag.items@.take(0) =~= Seq::<(TagField, String)>::empty());
            assert(head + field_observations(tag.items@.take(0), f, tag.format@) =~= head);
            while j < tag.items.len()
                invariant
                    j <= tag.items.len(),
                    (provider@, kind@, scope, semantics) == field_claim(f),
                    name@ == field_name(f),
                    observation_views(observations@) == head + field_observations(
                        tag.items@.take(j as int),
                        f,
                        tag.format@,
                    ),
                decreases tag.items.len() - j,
            {
                let item = &tag.items[j];
                let ghost prefix = tag.items@.take(j + 1);
                assert(prefix.drop_last() =~= tag.items@.take(j as int));
                assert(prefix.last() == *item);
                if item.0 == f && !is_blank(&item.1) {
                    let ghost before = observation_views(observations@);
                    observations.push(
                        Observation {
                            identity: ExternalIdentity::new(provider, kind, item.1.as_str()),
                            scope,
                            semantics,
                            origin: Origin::EmbeddedTag {
                                format: tag.format.clone(),
                                field: string_of(chars_of(name).as_slice()),
                            },
                        },
                    );
                    assert(observation_views(observations@) =~= before.push(
                        tag_observation(f, item.1@, tag.format@),
                    ));
                }
                j = j + 1;
            }
            assert(tag.items@.take(tag.items.len() as int) =~= tag.items@);
            assert(head + field_observations(tag.items@, f, tag.format@) =~= base + tag_observations(
                *tag,
                k + 1,
            ));
            k = k + 1;
        }
        let ghost before_positions = positions@;
        let mut j: usize = 0;
        assert(tag.items@.take(0) =~= Seq::<(TagField, String)>::empty());
        assert(before_positions.disc + field_values(tag.items@.take(0), TagField::DiscNumber) =~= before_positions.disc);
        assert(before_positions.discs + field_values(tag.items@.take(0), TagField::DiscTotal) =~= before_positions.discs);
        assert(before_positions.track + field_values(tag.items@.take(0), TagField::TrackNumber) =~= before_positions.track);
        assert(before_positions.tracks + field_values(tag.items@.take(0), TagField::TrackTotal) =~= before_positions.tracks);
        while j < tag.items.len()
            invariant
                j <= tag.items.len(),
                positions@ == (PositionsView {
                    disc: before_positions.disc + field_values(tag.items@.take(j as int), TagField::DiscNumber),
                    discs: before_positions.discs + field_values(tag.items@.take(j as int), TagField::DiscTotal),
                    track: before_positions.track + field_values(tag.items@.take(j as int), TagField::TrackNumber),
                    tracks: before_positions.tracks + field_values(tag.items@.take(j as int), TagField::TrackTotal),
                }),
            decreases tag.items.len() - j,
        {
            let item = &tag.items[j];
            let ghost prefix = tag.items@.take(j + 1);
            assert(prefix.drop_last() =~= tag.items@.take(j as int));
            assert(prefix.last() == *item);
            let ghost old_positions = positions@;
            match item.0 {
                TagField::DiscNumber => {
                    positions.disc.push(item.1.clone());
                    assert(views(positions.disc@) =~= old_positions.disc.push(item.1@));
                },
                TagField::DiscTotal => {
                    positions.discs.push(item.1.clone());
                    assert(views(positions.discs@) =~= old_positions.discs.push(item.1@));
                },
                TagField::TrackNumber => {
                    positions.track.push(item.1.clone());
                    assert(views(positions.track@) =~= old_positions.track.push(item.1@));
                },
                TagField::TrackTotal => {
                    positions.tracks.push(item.1.clone());
                    assert(views(positions.tracks@) =~= old_positions.tracks.push(item.1@));
                },
                _ => {},
            }
            j = j + 1;
        }
        assert(tag.items@.take(tag.items.len() as int) =~= tag.items@);
        assert(tags@.take(t + 1).drop_last() =~= done);
        assert(tags@.take(t + 1).last() == *tag);
        t = t + 1;
    }
    assert(tags@.take(tags.len() as int) =~= tags@);
    FileProvenance {
        source_id: None,
        file_type: None,
        formats,
        observations,
        positions,
    }
}

} // verus!
