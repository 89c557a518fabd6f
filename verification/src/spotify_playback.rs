//! User-authorized Spotify Connect control: the PKCE challenge, the loopback
//! callback, playable song identities and the reading of Web API replies.
//! Independent from catalog credentials, library identity and local decoding.
use vstd::prelude::*;
use vstd::string::StringSliceAdditionalSpecFns;

use base64::Engine;
use crate::domain::{id_views, ExternalIdentity, IdentityView};
use crate::text::{chars_of, parse_u64, parsed_u64, string_of, vviews, ws_words};

verus! {

#[derive(Clone, Copy, Debug, PartialEq, Eq, Structural)]
pub enum Error {
    AuthorizationRequired,
    ReauthorizationRequired,
    Denied,
    InvalidState,
    InsufficientScope,
    CapabilityUnavailable,
    NoDevice,
    DeviceUnavailable,
    RestrictedDevice,
    RateLimited(u64),
    ServiceUnavailable,
    Transport,
    ApiRejected(u16),
    NoAssociation,
    Storage,
    Configuration,
    InvalidResponse,
    CallbackUnavailable,
    AuthorizationTimedOut,
}

#[derive(Clone, Copy, Debug, PartialEq, Eq, Structural)]
pub enum AuthorizationState {
    Disconnected,
    Authorizing,
    Connected,
    ReauthorizationRequired,
}

impl Default for AuthorizationState {
    fn default() -> (r: Self)
        ensures
            r == AuthorizationState::Disconnected,
    {
        AuthorizationState::Disconnected
    }
}

#[derive(Clone, Debug)]
pub struct Device {
    pub id: Option<String>,
    pub name: String,
    pub kind: String,
    pub is_active: bool,
    pub is_restricted: bool,
    pub supports_volume: bool,
}

impl Default for Device {
    fn default() -> (r: Self)
        ensures
            r.id is None,
            r.name@.len() == 0,
            r.kind@.len() == 0,
            !r.is_active,
            !r.is_restricted,
            !r.supports_volume,
    {
        Device {
            id: None,
            name: String::new(),
            kind: String::new(),
            is_active: false,
            is_restricted: false,
            supports_volume: false,
        }
    }
}

#[derive(Clone, Debug)]
pub struct State {
    pub track_id: Option<String>,
    pub title: String,
    pub progress_ms: u64,
    pub playing: bool,
    pub device: Option<Device>,
}

impl Default for State {
    fn default() -> (r: Self)
        ensures
            r.track_id is None,
            r.title@.len() == 0,
            r.progress_ms == 0,
            !r.playing,
            r.device is None,
    {
        State { track_id: None, title: String::new(), progress_ms: 0, playing: false, device: None }
    }
}

// ---------------------------------------------------------------------------
// Outside computations.

/// The SHA-256 digest of a byte string.
pub uninterp spec fn sha256(data: Seq<u8>) -> Seq<u8>;

/// The character of a six-bit value in the URL-safe base64 alphabet:
/// `A`-`Z`, `a`-`z`, `0`-`9`, then `-` and `_`.
pub open spec fn url_safe_digit(v: int) -> char {
    if v < 26 {
        ('A' as int + v) as char
    } else if v < 52 {
        ('a' as int + (v - 26)) as char
    } else if v < 62 {
        ('0' as int + (v - 52)) as char
    } else if v == 62 {
        '-'
    } else {
        '_'
    }
}

/// The unpadded base64 encoding of a byte string in the URL-safe alphabet:
/// each group of three bytes gives four characters of six bits each; a last
/// group of one or two bytes gives two or three.
pub open spec fn base64_url(data: Seq<u8>) -> Seq<char>
    decreases data.len(),
{
    if data.len() == 0 {
        Seq::empty()
    } else if data.len() == 1 {
        seq![url_safe_digit(data[0] as int / 4), url_safe_digit((data[0] as int % 4) * 16)]
    } else if data.len() == 2 {
        seq![
            url_safe_digit(data[0] as int / 4),
            url_safe_digit((data[0] as int % 4) * 16 + data[1] as int / 16),
            url_safe_digit((data[1] as int % 16) * 4),
        ]
    } else {
        seq![
            url_safe_digit(data[0] as int / 4),
            url_safe_digit((data[0] as int % 4) * 16 + data[1] as int / 16),
            url_safe_digit((data[1] as int % 16) * 4 + data[2] as int / 64),
            url_safe_digit(data[2] as int % 64),
        ] + base64_url(data.skip(3))
    }
}

proof fn lemma_digit_url_safe(v: int)
    requires
        0 <= v < 64,
    ensures
        url_safe(url_safe_digit(v)),
{
}

/// An unpadded encoding has `unpadded_len` characters, all URL-safe.
pub proof fn lemma_base64_url_shape(data: Seq<u8>)
    ensures
        base64_url(data).len() == unpadded_len(data.len()),
        forall|i: int| 0 <= i < base64_url(data).len() ==> url_safe(#[trigger] base64_url(data)[i]),
    decreases data.len(),
{
    let e = base64_url(data);
    if data.len() == 0 {
    } else if data.len() < 3 {
        lemma_digit_url_safe(data[0] as int / 4);
        if data.len() == 1 {
            lemma_digit_url_safe((data[0] as int % 4) * 16);
        } else {
            lemma_digit_url_safe((data[0] as int % 4) * 16 + data[1] as int / 16);
            lemma_digit_url_safe((data[1] as int % 16) * 4);
        }
    } else {
        let rest = data.skip(3);
        lemma_base64_url_shape(rest);
        lemma_digit_url_safe(data[0] as int / 4);
        lemma_digit_url_safe((data[0] as int % 4) * 16 + data[1] as int / 16);
        lemma_digit_url_safe((data[1] as int % 16) * 4 + data[2] as int / 64);
        lemma_digit_url_safe(data[2] as int % 64);
        assert(unpadded_len(data.len()) == 4 + unpadded_len(rest.len())) by {
            assert(data.len() / 3 == rest.len() / 3 + 1);
            assert(data.len() % 3 == rest.len() % 3);
        }
        assert forall|i: int| 0 <= i < e.len() implies url_safe(#[trigger] e[i]) by {
            if i >= 4 {
                assert(e[i] == base64_url(rest)[i - 4]);
            }
        }
    }
}

/// The `application/x-www-form-urlencoded` serialization of name/value
/// pairs, in order.
pub uninterp spec fn form_encoded(pairs: Seq<(Seq<char>, Seq<char>)>) -> Seq<char>;

/// A URL's percent-encoded path and its decoded query pairs, in order, if the
/// text parses as an absolute URL.
pub uninterp spec fn parsed_url(text: Seq<char>) -> Option<(Seq<char>, Seq<(Seq<char>, Seq<char>)>)>;

/// Letters and digits of ASCII.
pub open spec fn ascii_alnum(c: char) -> bool {
    ('0' <= c && c <= '9') || ('a' <= c && c <= 'z') || ('A' <= c && c <= 'Z')
}

/// The URL-safe base64 alphabet: ASCII letters, digits, `-` and `_`.
pub open spec fn url_safe(c: char) -> bool {
    ascii_alnum(c) || c == '-' || c == '_'
}

/// The length of an unpadded base64 encoding of `n` bytes.
pub open spec fn unpadded_len(n: nat) -> nat {
    4 * (n / 3) + if n % 3 == 1 {
        2nat
    } else if n % 3 == 2 {
        3nat
    } else {
        0nat
    }
}

/// `ring::digest::digest` with `SHA256`: the 32-byte SHA-256 digest of the
/// data. The digest itself is the crate's; only its length is stated. It
/// panics on inputs of 2^61 bytes or more, which `requires` rules out.
#[verifier::external_body]
fn sha256_digest(data: &[u8]) -> (r: Vec<u8>)
    requires
        data@.len() < 0x2000_0000_0000_0000,
    ensures
        r@ == sha256(data@),
        r@.len() == 32,
{
    ring::digest::digest(&ring::digest::SHA256, data).as_ref().to_vec()
}

/// `base64::engine::general_purpose::URL_SAFE_NO_PAD.encode`: standard
/// base64 over the URL-safe alphabet, without padding. It panics when the
/// encoded length overflows, which `requires` rules out.
#[verifier::external_body]
fn encode_url_safe(data: &[u8]) -> (r: String)
    requires
        data@.len() <= usize::MAX / 2,
    ensures
        r@ == base64_url(data@),
{
    base64::engine::general_purpose::URL_SAFE_NO_PAD.encode(data)
}

/// `ring::rand::SystemRandom::fill` on 32 bytes: random bytes, or `None` when
/// the system generator fails. Nothing is stated of the bytes but their number.
#[verifier::external_body]
fn random_bytes() -> (r: Option<Vec<u8>>)
    ensures
        r matches Some(b) ==> b@.len() == 32,
{
    let mut bytes = [0u8; 32];
    match ring::rand::SecureRandom::fill(&ring::rand::SystemRandom::new(), &mut bytes) {
        Ok(()) => Some(bytes.to_vec()),
        Err(_) => None,
    }
}

pub open spec fn pair_views(s: Seq<(String, String)>) -> Seq<(Seq<char>, Seq<char>)> {
    s.map_values(|p: (String, String)| (p.0@, p.1@))
}

/// `url::Url::parse`, then the URL's `path` and its `query_pairs`, decoded and
/// in order. Which texts parse, and to what, is the crate's.
#[verifier::external_body]
fn url_parts(text: &str) -> (r: Option<(String, Vec<(String, String)>)>)
    ensures
        match r {
            Some((path, pairs)) => parsed_url(text@) == Some((path@, pair_views(pairs@))),
            None => parsed_url(text@) is None,
        },
{
    let url = url::Url::parse(text).ok()?;
    let mut pairs = Vec::new();
    for (k, v) in url.query_pairs() {
        pairs.push((k.into_owned(), v.into_owned()));
    }
    Some((url.path().to_owned(), pairs))
}

// ---------------------------------------------------------------------------
// PKCE.

/// A fresh random secret: 32 random bytes, base64url-encoded into 43
/// characters of the URL-safe alphabet.
pub fn random() -> (r: Result<String, Error>)
    ensures
        match r {
            Ok(s) => s@.len() == 43 && forall|i: int| 0 <= i < s@.len() ==> url_safe(#[trigger] s@[i]),
            Err(e) => e == Error::Configuration,
        },
{
    match random_bytes() {
        Some(bytes) => {
            proof {
                lemma_base64_url_shape(bytes@);
            }
            Ok(encode_url_safe(bytes.as_slice()))
        },
        None => Err(Error::Configuration),
    }
}

/// The S256 code challenge of a PKCE verifier: the base64url encoding of the
/// SHA-256 digest of its UTF-8 bytes.
pub fn challenge(verifier: &str) -> (r: String)
    requires
        verifier.spec_bytes().len() < 0x2000_0000_0000_0000,
    ensures
        r@ == base64_url(sha256(verifier.spec_bytes())),
        r@.len() == 43,
{
    let digest = sha256_digest(verifier.as_bytes());
    proof {
        lemma_base64_url_shape(digest@);
    }
    encode_url_safe(digest.as_slice())
}

// ---------------------------------------------------------------------------
// The loopback callback.

/// The origin the registered redirect URI lives at.
pub open spec fn redirect_origin() -> Seq<char> {
    "http://127.0.0.1:43821"@
}

/// How many query pairs have the key.
pub open spec fn key_count(pairs: Seq<(Seq<char>, Seq<char>)>, key: Seq<char>) -> nat
    decreases pairs.len(),
{
    if pairs.len() == 0 {
        0
    } else {
        key_count(pairs.drop_last(), key) + if pairs.last().0 == key {
            1nat
        } else {
            0nat
        }
    }
}

/// The value of the first query pair with the key (empty when there is none).
pub open spec fn first_value(pairs: Seq<(Seq<char>, Seq<char>)>, key: Seq<char>) -> Seq<char>
    decreases pairs.len(),
{
    if pairs.len() == 0 {
        Seq::empty()
    } else if pairs[0].0 == key {
        pairs[0].1
    } else {
        first_value(pairs.drop_first(), key)
    }
}

/// The authorization code of a callback: on the callback path, with exactly
/// one `state` equal to the expected one, no `error`, and exactly one nonempty
/// `code`. An `error` means the user denied access.
pub open spec fn callback_result(
    parts: Option<(Seq<char>, Seq<(Seq<char>, Seq<char>)>)>,
    expected: Seq<char>,
) -> Result<Seq<char>, Error> {
    match parts {
        None => Err(Error::InvalidState),
        Some((path, pairs)) => if path != "/callback"@ {
            Err(Error::InvalidState)
        } else if key_count(pairs, "state"@) != 1 || first_value(pairs, "state"@) != expected {
            Err(Error::InvalidState)
        } else if key_count(pairs, "error"@) > 0 {
            Err(Error::Denied)
        } else if key_count(pairs, "code"@) != 1 || first_value(pairs, "code"@).len() == 0 {
            Err(Error::InvalidState)
        } else {
            Ok(first_value(pairs, "code"@))
        },
    }
}

fn count_key(pairs: &Vec<(String, String)>, key: &str) -> (r: usize)
    ensures
        r == key_count(pair_views(pairs@), key@),
{
    let ghost pv = pair_views(pairs@);
    let mut n: usize = 0;
    let mut k: usize = 0;
    while k < pairs.len()
        invariant
            k <= pairs.len(),
            pv == pair_views(pairs@),
            n == key_count(pv.take(k as int), key@),
            n <= k,
        decreases pairs.len() - k,
    {
        let ghost t = pv.take(k + 1);
        assert(t.drop_last() =~= pv.take(k as int));
        assert(t.last() == pv[k as int]);
        if crate::text::str_eq(pairs[k].0.as_str(), key) {
            n = n + 1;
        }
        k = k + 1;
    }
    assert(pv.take(pairs.len() as int) =~= pv);
    n
}

fn value_of(pairs: &Vec<(String, String)>, key: &str) -> (r: String)
    ensures
        r@ == first_value(pair_views(pairs@), key@),
{
    let ghost pv = pair_views(pairs@);
    let mut k: usize = 0;
    assert(pv.skip(0) =~= pv);
    while k < pairs.len()
        invariant
            k <= pairs.len(),
            pv == pair_views(pairs@),
            first_value(pv, key@) == first_value(pv.skip(k as int), key@),
        decreases pairs.len() - k,
    {
        let ghost rest = pv.skip(k as int);
        assert(rest[0] == pv[k as int]);
        assert(rest.drop_first() =~= pv.skip(k + 1));
        if crate::text::str_eq(pairs[k].0.as_str(), key) {
            return pairs[k].1.clone();
        }
        k = k + 1;
    }
    assert(pv.skip(pairs.len() as int) =~= Seq::<(Seq<char>, Seq<char>)>::empty());
    String::new()
}

/// The code a parsed callback URL carries, or why it is refused.
pub fn callback_code(parts: Option<(String, Vec<(String, String)>)>, expected: &str) -> (r: Result<
    String,
    Error,
>)
    ensures
        match r {
            Ok(code) => callback_result(
                match parts {
                    Some((path, pairs)) => Some((path@, pair_views(pairs@))),
                    None => None,
                },
                expected@,
            ) == Ok::<Seq<char>, Error>(code@),
            Err(e) => callback_result(
                match parts {
                    Some((path, pairs)) => Some((path@, pair_views(pairs@))),
                    None => None,
                },
                expected@,
            ) == Err::<Seq<char>, Error>(e),
        },
{
    let (path, pairs) = match parts {
        Some(p) => p,
        None => return Err(Error::InvalidState),
    };
    if !crate::text::str_eq(path.as_str(), "/callback") {
        return Err(Error::InvalidState);
    }
    if count_key(&pairs, "state") != 1 || !crate::text::str_eq(
        value_of(&pairs, "state").as_str(),
        expected,
    ) {
        return Err(Error::InvalidState);
    }
    if count_key(&pairs, "error") > 0 {
        return Err(Error::Denied);
    }
    let code = value_of(&pairs, "code");
    if count_key(&pairs, "code") != 1 || chars_of(code.as_str()).len() == 0 {
        return Err(Error::InvalidState);
    }
    Ok(code)
}

/// The authorization code of the request target received on the loopback
/// listener, read as a URL at the redirect origin.
pub fn callback(target: &str, expected: &str) -> (r: Result<String, Error>)
    ensures
        match r {
            Ok(code) => callback_result(parsed_url(redirect_origin() + target@), expected@)
                == Ok::<Seq<char>, Error>(code@),
            Err(e) => callback_result(parsed_url(redirect_origin() + target@), expected@) == Err::<
                Seq<char>,
                Error,
            >(e),
        },
{
    let mut text = chars_of("http://127.0.0.1:43821");
    let rest = chars_of(target);
    crate::text::append_chars(&mut text, &rest);
    let url = string_of(text.as_slice());
    proof {
        reveal_strlit("http://127.0.0.1:43821");
    }
    assert(url@ == redirect_origin() + target@);
    callback_code(url_parts(url.as_str()), expected)
}

// ---------------------------------------------------------------------------
// Songs.

/// A Spotify track identity.
pub open spec fn spotify_track(i: IdentityView) -> bool {
    i.provider == "spotify"@ && i.kind == "track"@
}

/// A Spotify track id: 22 ASCII letters and digits.
pub open spec fn track_id_shape(v: Seq<char>) -> bool {
    v.len() == 22 && forall|i: int| 0 <= i < v.len() ==> ascii_alnum(#[trigger] v[i])
}

/// `v` is the one value that the Spotify track identities among `ids` hold.
pub open spec fn sole_track_id(ids: Seq<IdentityView>, v: Seq<char>) -> bool {
    &&& exists|k: int| 0 <= k < ids.len() && spotify_track(#[trigger] ids[k]) && ids[k].external_id == v
    &&& forall|k: int| 0 <= k < ids.len() && spotify_track(#[trigger] ids[k]) ==> ids[k].external_id == v
}

/// An adapter-owned validated URI; callers supply persisted occurrence
/// evidence, never a filename, arbitrary URI, or a Recording identity.
#[derive(Clone, Debug, PartialEq, Eq)]
pub struct Song(String);

impl Song {
    /// The Spotify track id.
    pub closed spec fn track(&self) -> Seq<char> {
        self.0@
    }

    /// The single Spotify track id that the associations hold, if it is well
    /// formed; otherwise there is no playable association.
    pub fn from_associations(ids: &[ExternalIdentity]) -> (r: Result<Self, Error>)
        ensures
            match r {
                Ok(song) => sole_track_id(id_views(ids@), song.track()) && track_id_shape(
                    song.track(),
                ),
                Err(e) => e == Error::NoAssociation && !exists|v: Seq<char>|
                    sole_track_id(id_views(ids@), v) && track_id_shape(v),
            },
    {
        let ghost iv = id_views(ids@);
        let mut found: Option<usize> = None;
        let mut several = false;
        let mut k: usize = 0;
        while k < ids.len()
            invariant
                k <= ids.len(),
                iv == id_views(ids@),
                match found {
                    None => !several && forall|x: int| 0 <= x < k ==> !spotify_track(#[trigger] iv[x]),
                    Some(f) => f < k && spotify_track(iv[f as int]) && (several <==> exists|x: int|
                        0 <= x < k && spotify_track(#[trigger] iv[x]) && iv[x].external_id
                            != iv[f as int].external_id),
                },
            decreases ids.len() - k,
        {
            let i = &ids[k];
            assert(iv[k as int] == i@);
            if i.is("spotify", "track") {
                match found {
                    None => {
                        found = Some(k);
                    },
                    Some(f) => {
                        if !(ids[f].external_id == i.external_id) {
                            several = true;
                        }
                    },
                }
            }
            k = k + 1;
        }
        let f = match found {
            Some(f) => f,
            None => return Err(Error::NoAssociation),
        };
        if several {
            return Err(Error::NoAssociation);
        }
        let ghost v = iv[f as int].external_id;
        assert(sole_track_id(iv, v));
        let chars = chars_of(ids[f].external_id.as_str());
        let mut ok = chars.len() == 22;
        let mut c: usize = 0;
        while ok && c < chars.len()
            invariant
                c <= chars.len(),
                iv == id_views(ids@),
                f < ids@.len(),
                spotify_track(iv[f as int]),
                sole_track_id(iv, iv[f as int].external_id),
                chars@ == ids@[f as int].external_id@,
                ok ==> forall|x: int| 0 <= x < c ==> ascii_alnum(#[trigger] chars@[x]),
                !ok ==> chars@.len() != 22,
            decreases chars.len() - c,
        {
            let ch = chars[c];
            if !(('0' <= ch && ch <= '9') || ('a' <= ch && ch <= 'z') || ('A' <= ch && ch <= 'Z')) {
                assert(!ascii_alnum(chars@[c as int]));
                assert forall|w: Seq<char>| #[trigger] sole_track_id(iv, w) implies !track_id_shape(w) by {
                    assert(spotify_track(iv[f as int]));
                    assert(iv[f as int] == ids@[f as int]@);
                    assert(w == chars@);
                    assert(!ascii_alnum(w[c as int]));
                }
                return Err(Error::NoAssociation);
            }
            c = c + 1;
        }
        if !ok {
            assert forall|w: Seq<char>| #[trigger] sole_track_id(iv, w) implies !track_id_shape(w) by {
                assert(spotify_track(iv[f as int]));
                assert(iv[f as int] == ids@[f as int]@);
                assert(w == chars@);
            }
            return Err(Error::NoAssociation);
        }
        Ok(Song(ids[f].external_id.clone()))
    }

    /// The playback URI of the song.
    pub fn uri(&self) -> (r: String)
        ensures
            r@ == "spotify:track:"@ + self.track(),
    {
        let mut out = chars_of("spotify:track:");
        let id = chars_of(self.0.as_str());
        crate::text::append_chars(&mut out, &id);
        string_of(out.as_slice())
    }
}

// ---------------------------------------------------------------------------
// Web API replies.

/// What to do with a reply before its body is read.
#[derive(Clone, Copy, Debug, PartialEq, Eq, Structural)]
pub enum StatusVerdict {
    /// Read the JSON body and decide by it.
    ReadBody,
    /// Success without content.
    NoContent,
    /// Fail, and send no further request for `pause` seconds.
    Fail { error: Error, pause: u64 },
}

/// A rate limit waits the seconds `Retry-After` states (30 when it states
/// none, at least 1) and pauses requests for at most a day; a server error
/// pauses them for 30 seconds.
pub open spec fn status_verdict_of(status: u16, retry_after: Option<Seq<char>>) -> StatusVerdict {
    if status == 429 {
        let stated = match retry_after {
            Some(h) => match parsed_u64(h) {
                Some(v) => v,
                None => 30u64,
            },
            None => 30u64,
        };
        let seconds = if stated < 1 {
            1u64
        } else {
            stated
        };
        StatusVerdict::Fail {
            error: Error::RateLimited(seconds),
            pause: if seconds <= 86400 {
                seconds
            } else {
                86400u64
            },
        }
    } else if status >= 500 {
        StatusVerdict::Fail { error: Error::ServiceUnavailable, pause: 30 }
    } else if status == 204 {
        StatusVerdict::NoContent
    } else {
        StatusVerdict::ReadBody
    }
}

/// The verdict on a reply's status and its `Retry-After` header.
pub fn status_verdict(status: u16, retry_after: Option<&str>) -> (r: StatusVerdict)
    ensures
        r == status_verdict_of(
            status,
            match retry_after {
                Some(h) => Some(h@),
                None => None,
            },
        ),
{
    if status == 429 {
        let stated: u64 = match retry_after {
            Some(h) => match parse_u64(&chars_of(h)) {
                Some(v) => v,
                None => 30,
            },
            None => 30,
        };
        let seconds: u64 = if stated < 1 {
            1
        } else {
            stated
        };
        StatusVerdict::Fail {
            error: Error::RateLimited(seconds),
            pause: if seconds <= 86400 {
                seconds
            } else {
                86400
            },
        }
    } else if status >= 500 {
        StatusVerdict::Fail { error: Error::ServiceUnavailable, pause: 30 }
    } else if status == 204 {
        StatusVerdict::NoContent
    } else {
        StatusVerdict::ReadBody
    }
}

/// What a reply's JSON body says of an error: `error` when it is a string (an
/// OAuth error), and the Web API error's `error.reason` and `error.message`
/// (empty when absent).
#[derive(Debug)]
pub struct ErrorBody {
    pub error: Option<String>,
    pub reason: String,
    pub message: String,
}

/// What to do with a reply once its body is read.
#[derive(Clone, Copy, Debug, PartialEq, Eq, Structural)]
pub enum BodyVerdict {
    /// The body is the answer.
    Accept,
    /// The grant is gone: forget the session and require authorization again.
    Invalidate,
    Fail(Error),
}

/// A character's code with ASCII capitals read as small letters.
pub open spec fn folded_code(c: char) -> u32 {
    if 'A' <= c && c <= 'Z' {
        (c as u32 + 32) as u32
    } else {
        c as u32
    }
}

/// The word occurs at position `i` of the text, ASCII capitals read as small
/// letters.
pub open spec fn folded_at(text: Seq<char>, word: Seq<char>, i: int) -> bool {
    forall|k: int| 0 <= k < word.len() ==> folded_code(#[trigger] text[i + k]) == word[k] as u32
}

/// The text, with ASCII capitals read as small letters, contains the word.
pub open spec fn folded_contains(text: Seq<char>, word: Seq<char>) -> bool {
    exists|i: int| 0 <= i && i + word.len() <= text.len() && #[trigger] folded_at(text, word, i)
}

pub open spec fn body_verdict_of(
    status: u16,
    error: Option<Seq<char>>,
    reason: Seq<char>,
    message: Seq<char>,
) -> BodyVerdict {
    if error == Some("invalid_grant"@) {
        BodyVerdict::Invalidate
    } else if error == Some("invalid_client"@) || error == Some("unauthorized_client"@) {
        BodyVerdict::Fail(Error::Configuration)
    } else if 200 <= status <= 299 {
        BodyVerdict::Accept
    } else if status == 401 {
        BodyVerdict::Fail(Error::AuthorizationRequired)
    } else if status == 403 {
        BodyVerdict::Fail(
            if reason == "PREMIUM_REQUIRED"@ || folded_contains(message, "premium"@) {
                Error::CapabilityUnavailable
            } else if folded_contains(message, "scope"@) {
                Error::InsufficientScope
            } else if reason == "RESTRICTION_VIOLATED"@ {
                Error::RestrictedDevice
            } else {
                Error::ApiRejected(status)
            },
        )
    } else if status == 404 {
        BodyVerdict::Fail(Error::DeviceUnavailable)
    } else {
        BodyVerdict::Fail(Error::ApiRejected(status))
    }
}

fn fold(c: char) -> (r: u32)
    ensures
        r == folded_code(c),
{
    if 'A' <= c && c <= 'Z' {
        c as u32 + 32
    } else {
        c as u32
    }
}

fn contains_folded(text: &str, word: &str) -> (r: bool)
    ensures
        r == folded_contains(text@, word@),
{
    let t = chars_of(text);
    let w = chars_of(word);
    if w.len() > t.len() {
        return false;
    }
    let mut i: usize = 0;
    while i <= t.len() - w.len()
        invariant
            t@ == text@,
            w@ == word@,
            w.len() <= t.len(),
            i <= t.len() - w.len() + 1,
            forall|x: int| 0 <= x < i ==> !#[trigger] folded_at(t@, w@, x),
        decreases t.len() - w.len() + 1 - i,
    {
        let mut k: usize = 0;
        let mut all = true;
        while k < w.len()
            invariant
                t@ == text@,
                w@ == word@,
                i + w.len() <= t.len(),
                k <= w.len(),
                all == forall|y: int| 0 <= y < k ==> folded_code(#[trigger] t@[i + y]) == w@[y] as u32,
            decreases w.len() - k,
        {
            if fold(t[i + k]) != w[k] as u32 {
                all = false;
            }
            k = k + 1;
        }
        if all {
            assert(folded_at(t@, w@, i as int));
            return true;
        }
        i = i + 1;
    }
    false
}

/// The verdict on a reply whose body was read.
pub fn body_verdict(status: u16, body: &ErrorBody) -> (r: BodyVerdict)
    ensures
        r == body_verdict_of(
            status,
            match body.error {
                Some(e) => Some(e@),
                None => None,
            },
            body.reason@,
            body.message@,
        ),
{
    let error_is = |name: &str| -> (b: bool)
        ensures
            b == (match body.error {
                Some(e) => e@ == name@,
                None => false,
            }),
        {
            match &body.error {
                Some(e) => crate::text::str_eq(e.as_str(), name),
                None => false,
            }
        };
    if error_is("invalid_grant") {
        return BodyVerdict::Invalidate;
    }
    if error_is("invalid_client") || error_is("unauthorized_client") {
        return BodyVerdict::Fail(Error::Configuration);
    }
    if 200 <= status && status <= 299 {
        return BodyVerdict::Accept;
    }
    if status == 401 {
        return BodyVerdict::Fail(Error::AuthorizationRequired);
    }
    if status == 403 {
        let reason = body.reason.as_str();
        let message = body.message.as_str();
        let e = if crate::text::str_eq(reason, "PREMIUM_REQUIRED") || contains_folded(
            message,
            "premium",
        ) {
            Error::CapabilityUnavailable
        } else if contains_folded(message, "scope") {
            Error::InsufficientScope
        } else if crate::text::str_eq(reason, "RESTRICTION_VIOLATED") {
            Error::RestrictedDevice
        } else {
            Error::ApiRejected(status)
        };
        return BodyVerdict::Fail(e);
    }
    if status == 404 {
        return BodyVerdict::Fail(Error::DeviceUnavailable);
    }
    BodyVerdict::Fail(Error::ApiRejected(status))
}

/// A failing reply never stops requests for less than a second or longer than
/// a day, so rate limits and outages can neither loop nor stall for good.
pub proof fn lemma_pauses_are_bounded(status: u16, retry_after: Option<Seq<char>>)
    ensures
        status_verdict_of(status, retry_after) matches StatusVerdict::Fail { pause, .. } ==> 1
            <= pause <= 86400,
{
}

/// A callback yields a code only on the callback path, with exactly one
/// `state`, equal to the expected one, and without any `error`.
pub proof fn lemma_callback_needs_state(
    parts: Option<(Seq<char>, Seq<(Seq<char>, Seq<char>)>)>,
    expected: Seq<char>,
)
    requires
        callback_result(parts, expected) is Ok,
    ensures
        parts matches Some(p) && p.0 == "/callback"@ && key_count(p.1, "state"@) == 1
            && first_value(p.1, "state"@) == expected && key_count(p.1, "error"@) == 0,
{
}

// ---------------------------------------------------------------------------
// Token grants.

/// The fields of a token endpoint reply, as read from its JSON: `None` where
/// a field is absent or not of its JSON type.
#[derive(Debug)]
pub struct TokenReply {
    pub access_token: Option<String>,
    pub expires_in: Option<u64>,
    pub token_type: Option<String>,
    pub scope: Option<String>,
    pub refresh_token: Option<String>,
}

/// A stored grant; times are in seconds since the Unix epoch.
#[derive(Debug, PartialEq, Eq)]
pub struct Tokens {
    pub client_id: String,
    pub access_token: String,
    pub refresh_token: String,
    pub access_expires_at: u64,
    pub authorized_at: u64,
}

pub struct TokensView {
    pub client_id: Seq<char>,
    pub access_token: Seq<char>,
    pub refresh_token: Seq<char>,
    pub access_expires_at: u64,
    pub authorized_at: u64,
}

impl View for Tokens {
    type V = TokensView;

    open spec fn view(&self) -> TokensView {
        TokensView {
            client_id: self.client_id@,
            access_token: self.access_token@,
            refresh_token: self.refresh_token@,
            access_expires_at: self.access_expires_at,
            authorized_at: self.authorized_at,
        }
    }
}

/// `token_type` is "bearer", ASCII case ignored.
pub open spec fn bearer(t: Seq<char>) -> bool {
    t.len() == 6 && folded_at(t, "bearer"@, 0)
}

/// A granted scope list names both playback scopes among its words.
pub open spec fn scopes_granted(scope: Seq<char>) -> bool {
    ws_words(scope).contains("user-read-playback-state"@) && ws_words(scope).contains(
        "user-modify-playback-state"@,
    )
}

/// The access token lapses a tenth of its lifetime early, at most thirty
/// seconds.
pub open spec fn lapse_at(now: u64, expires: u64) -> int {
    now + (expires - if 30 <= expires / 10 {
        30
    } else {
        expires / 10
    })
}

/// The grant a token reply gives, or why it is refused. A first grant needs
/// a refresh token and is authorized now; a refreshed grant may keep the
/// previous refresh token and keeps the previous authorization time.
pub open spec fn grant_of(
    reply: TokenReply,
    initial: bool,
    previous: Option<TokensView>,
    client_id: Seq<char>,
    now: u64,
) -> Result<TokensView, Error> {
    let refresh = match reply.refresh_token {
        Some(r) => Some(r@),
        None => if initial {
            None
        } else {
            match previous {
                Some(p) => Some(p.refresh_token),
                None => None,
            }
        },
    };
    if !(reply.access_token matches Some(a) && a@.len() > 0) {
        Err(Error::InvalidResponse)
    } else if !(reply.expires_in matches Some(e) && e > 0) {
        Err(Error::InvalidResponse)
    } else if !(reply.token_type matches Some(t) && bearer(t@)) {
        Err(Error::InvalidResponse)
    } else if reply.scope matches Some(sc) && !scopes_granted(sc@) {
        Err(Error::InsufficientScope)
    } else if refresh is None {
        Err(Error::InvalidResponse)
    } else if !initial && previous is None {
        Err(Error::AuthorizationRequired)
    } else {
        Ok(
            TokensView {
                client_id,
                access_token: reply.access_token->0@,
                refresh_token: refresh->0,
                access_expires_at: lapse_at(now, reply.expires_in->0) as u64,
                authorized_at: if initial {
                    now
                } else {
                    previous->0.authorized_at
                },
            },
        )
    }
}

fn has_word(words: &Vec<Vec<char>>, word: &str) -> (r: bool)
    ensures
        r == vviews(words@).contains(word@),
{
    let w = chars_of(word);
    let mut i: usize = 0;
    while i < words.len()
        invariant
            i <= words.len(),
            w@ == word@,
            forall|k: int| 0 <= k < i ==> (#[trigger] words@[k])@ != word@,
        decreases words.len() - i,
    {
        if crate::text::chars_eq(&words[i], &w) {
            assert(vviews(words@)[i as int] == word@);
            return true;
        }
        i = i + 1;
    }
    proof {
        if vviews(words@).contains(word@) {
            let k = choose|k: int| 0 <= k < vviews(words@).len() && vviews(words@)[k] == word@;
            assert(words@[k]@ == word@);
        }
    }
    false
}

pub(crate) fn is_bearer(t: &str) -> (r: bool)
    ensures
        r == bearer(t@),
{
    let c = chars_of(t);
    let b = chars_of("bearer");
    proof {
        reveal_strlit("bearer");
    }
    if c.len() != 6 {
        return false;
    }
    let mut k: usize = 0;
    while k < 6
        invariant
            k <= 6,
            c@ == t@,
            c@.len() == 6,
            b@ == "bearer"@,
            b@.len() == 6,
            forall|y: int| 0 <= y < k ==> folded_code(#[trigger] c@[0 + y]) == b@[y] as u32,
        decreases 6 - k,
    {
        if fold(c[k]) != b[k] as u32 {
            assert(folded_code(c@[0 + k as int]) != b@[k as int] as u32);
            assert(!folded_at(c@, b@, 0));
            return false;
        }
        k = k + 1;
    }
    true
}

/// The grant a token reply gives, or why it is refused.
pub fn token_grant(reply: &TokenReply, initial: bool, previous: Option<&Tokens>, client_id: &str, now: u64) -> (r:
    Result<Tokens, Error>)
    requires
        reply.expires_in matches Some(e) ==> now + e <= u64::MAX,
    ensures
        match r {
            Ok(t) => grant_of(
                *reply,
                initial,
                match previous {
                    Some(p) => Some(p@),
                    None => None,
                },
                client_id@,
                now,
            ) == Ok::<TokensView, Error>(t@),
            Err(e) => grant_of(
                *reply,
                initial,
                match previous {
                    Some(p) => Some(p@),
                    None => None,
                },
                client_id@,
                now,
            ) == Err::<TokensView, Error>(e),
        },
{
    let access = match &reply.access_token {
        Some(a) => a,
        None => return Err(Error::InvalidResponse),
    };
    if access.as_str().is_empty() {
        return Err(Error::InvalidResponse);
    }
    let expires = match reply.expires_in {
        Some(e) => e,
        None => return Err(Error::InvalidResponse),
    };
    if expires == 0 {
        return Err(Error::InvalidResponse);
    }
    let kind_ok = match &reply.token_type {
        Some(t) => is_bearer(t.as_str()),
        None => false,
    };
    if !kind_ok {
        return Err(Error::InvalidResponse);
    }
    if let Some(scope) = &reply.scope {
        let words = crate::text::split_whitespace(&chars_of(scope.as_str()));
        if !(has_word(&words, "user-read-playback-state") && has_word(&words, "user-modify-playback-state")) {
            return Err(Error::InsufficientScope);
        }
    }
    let refresh = match &reply.refresh_token {
        Some(r) => r.clone(),
        None => {
            if initial {
                return Err(Error::InvalidResponse);
            }
            match previous {
                Some(p) => p.refresh_token.clone(),
                None => return Err(Error::InvalidResponse),
            }
        },
    };
    let authorized_at = if initial {
        now
    } else {
        match previous {
            Some(p) => p.authorized_at,
            None => return Err(Error::AuthorizationRequired),
        }
    };
    let early = if 30 <= expires / 10 {
        30
    } else {
        expires / 10
    };
    Ok(
        Tokens {
            client_id: string_of(chars_of(client_id).as_slice()),
            access_token: access.clone(),
            refresh_token: refresh,
            access_expires_at: now + (expires - early),
            authorized_at,
        },
    )
}

/// A refresh keeps when the session was authorized, and keeps the previous
/// refresh token unless the endpoint sends a new one.
pub proof fn lemma_refresh_keeps_session(
    reply: TokenReply,
    previous: TokensView,
    client_id: Seq<char>,
    now: u64,
)
    requires
        grant_of(reply, false, Some(previous), client_id, now) is Ok,
    ensures
        grant_of(reply, false, Some(previous), client_id, now)->Ok_0.authorized_at == previous.authorized_at,
        reply.refresh_token is None ==> grant_of(reply, false, Some(previous), client_id, now)->Ok_0.refresh_token
            == previous.refresh_token,
{
}

/// A first grant needs a refresh token from the endpoint and is authorized
/// at the time of the grant.
pub proof fn lemma_first_grant_needs_refresh(
    reply: TokenReply,
    previous: Option<TokensView>,
    client_id: Seq<char>,
    now: u64,
)
    requires
        grant_of(reply, true, previous, client_id, now) is Ok,
    ensures
        reply.refresh_token is Some,
        grant_of(reply, true, previous, client_id, now)->Ok_0.authorized_at == now,
{
}

/// A granted access token lapses after now, and at most thirty seconds
/// before its announced lifetime ends.
pub proof fn lemma_grant_lapses_early(
    reply: TokenReply,
    initial: bool,
    previous: Option<TokensView>,
    client_id: Seq<char>,
    now: u64,
)
    requires
        grant_of(reply, initial, previous, client_id, now) is Ok,
        now + reply.expires_in->0 <= u64::MAX,
    ensures
        now < grant_of(reply, initial, previous, client_id, now)->Ok_0.access_expires_at,
        now + reply.expires_in->0 - 30 <= grant_of(reply, initial, previous, client_id, now)->Ok_0.access_expires_at
            <= now + reply.expires_in->0,
{
}


// ---------------------------------------------------------------------------
// Forms and queries.

/// The loopback redirect registered with the application.
pub const REDIRECT: &'static str = "http://127.0.0.1:43821/callback";

/// The playback scopes asked for.
pub const SCOPES: &'static str = "user-read-playback-state user-modify-playback-state";

/// `url::form_urlencoded::Serializer` over the pairs, in order: the
/// serialization is the crate's and depends on the pairs alone.
#[verifier::external_body]
fn encode_form(pairs: &Vec<(String, String)>) -> (r: String)
    ensures
        r@ == form_encoded(pair_views(pairs@)),
{
    let mut form = url::form_urlencoded::Serializer::new(String::new());
    form.extend_pairs(pairs.iter().map(|p| (p.0.as_str(), p.1.as_str())));
    form.finish()
}

fn pair(name: &str, value: &str) -> (r: (String, String))
    ensures
        r.0@ == name@,
        r.1@ == value@,
{
    (name.to_owned(), value.to_owned())
}

/// The authorization page a user is sent to: the authorize endpoint, which
/// carries no query of its own, with the client, the code response type, the
/// loopback redirect, the playback scopes, the state and the S256 challenge
/// added as query pairs.
pub fn authorization_url(client_id: &str, state: &str, challenge: &str) -> (r: String)
    ensures
        r@ == "https://accounts.spotify.com/authorize?"@ + form_encoded(
            seq![
                ("client_id"@, client_id@),
                ("response_type"@, "code"@),
                ("redirect_uri"@, REDIRECT@),
                ("scope"@, SCOPES@),
                ("state"@, state@),
                ("code_challenge_method"@, "S256"@),
                ("code_challenge"@, challenge@),
            ],
        ),
{
    let pairs = vec![
        pair("client_id", client_id),
        pair("response_type", "code"),
        pair("redirect_uri", REDIRECT),
        pair("scope", SCOPES),
        pair("state", state),
        pair("code_challenge_method", "S256"),
        pair("code_challenge", challenge),
    ];
    assert(pair_views(pairs@) =~= seq![
        ("client_id"@, client_id@),
        ("response_type"@, "code"@),
        ("redirect_uri"@, REDIRECT@),
        ("scope"@, SCOPES@),
        ("state"@, state@),
        ("code_challenge_method"@, "S256"@),
        ("code_challenge"@, challenge@),
    ]);
    let query = encode_form(&pairs);
    let mut out = chars_of("https://accounts.spotify.com/authorize?");
    crate::text::append_chars(&mut out, &chars_of(query.as_str()));
    string_of(out.as_slice())
}

/// The body of a token request: the client, then the grant's fields.
pub fn token_form(client_id: &str, fields: &Vec<(String, String)>) -> (r: String)
    ensures
        r@ == form_encoded(seq![("client_id"@, client_id@)] + pair_views(fields@)),
{
    let mut pairs = vec![pair("client_id", client_id)];
    let mut i: usize = 0;
    while i < fields.len()
        invariant
            i <= fields.len(),
            pair_views(pairs@) == seq![("client_id"@, client_id@)] + pair_views(fields@).take(i as int),
        decreases fields.len() - i,
    {
        let ghost before = pair_views(pairs@);
        pairs.push((fields[i].0.clone(), fields[i].1.clone()));
        assert(pair_views(pairs@) =~= before.push((fields@[i as int].0@, fields@[i as int].1@)));
        assert(pair_views(fields@).take(i + 1) =~= pair_views(fields@).take(i as int).push(
            (fields@[i as int].0@, fields@[i as int].1@),
        ));
        i = i + 1;
    }
    assert(pair_views(fields@).take(fields.len() as int) =~= pair_views(fields@));
    encode_form(&pairs)
}

/// The path of a player command for a device, with one optional extra pair.
pub fn command_path(operation: &str, device: &str, extra: &Option<(String, String)>) -> (r: String)
    ensures
        r@ == "me/player/"@ + operation@ + "?"@ + form_encoded(
            seq![("device_id"@, device@)] + match extra {
                Some(p) => seq![(p.0@, p.1@)],
                None => Seq::empty(),
            },
        ),
{
    let mut pairs = vec![pair("device_id", device)];
    match extra {
        Some(p) => {
            pairs.push((p.0.clone(), p.1.clone()));
        },
        None => {},
    }
    assert(pair_views(pairs@) =~= seq![("device_id"@, device@)] + match extra {
        Some(p) => seq![(p.0@, p.1@)],
        None => Seq::empty(),
    });
    let query = encode_form(&pairs);
    let mut out = chars_of("me/player/");
    crate::text::append_chars(&mut out, &chars_of(operation));
    crate::text::append_chars(&mut out, &chars_of("?"));
    crate::text::append_chars(&mut out, &chars_of(query.as_str()));
    string_of(out.as_slice())
}
} // verus!
